//! Inverted dropout applied directly over quantized storage.
//!
//! `forward` copies the input storage and, visiting every element once in
//! index order, zeroes it with probability `prob` or rescales it by
//! `1 / (1 - prob)`. `backward` re-seeds an identical generator, so the mask
//! it applies to the gradient is the very mask `forward` applied: no mask is
//! ever stored.

use vstd::prelude::*;

use crate::fixed::{abs_i, add_spec, div_guard_spec, rdiv, sat_m, Fx, MAX_M, SCALE};
use crate::fixed::{lemma_rdiv_exact, lemma_rdiv_nonzero};
use crate::quantize::Quantize;
use crate::rng::{draw_words, std_rng_draw};
use crate::storage::QuantStorage;

verus! {

/// The parameters of one dropout application: drop each element with
/// probability `prob` (a value in [0, 1]), reproducibly from `seed`.
#[derive(Clone, Copy, Debug, PartialEq, Eq, Structural)]
pub struct DropoutOp {
    pub prob: Fx,
    pub seed: u64,
}

impl DropoutOp {
    /// The probability is a value in [0, 1].
    pub open spec fn wf(self) -> bool {
        0 <= self.prob.m <= SCALE
    }
}

/// The uniform draw in [0, 1) the seeded generator yields for element `i`.
pub open spec fn unit_draw(seed: u64, i: nat) -> Fx {
    Fx { m: (std_rng_draw(seed, i) % (SCALE as u64)) as i64 }
}

/// Element `i` is dropped exactly when its uniform draw falls below the drop
/// probability. Forward and backward share this one definition; that is what
/// makes the regenerated mask consistent.
pub open spec fn masked(seed: u64, prob: Fx, i: nat) -> bool {
    unit_draw(seed, i).m < prob.m
}

/// What is left of one unit of probability: the survivors' rescaling divisor.
pub open spec fn keep_scale(prob: Fx) -> Fx {
    Fx { m: (SCALE - prob.m) as i64 }
}

/// The value `forward` stores for element `i` whose input decodes to `v`.
pub open spec fn forward_value(seed: u64, prob: Fx, v: Fx, i: nat) -> Fx {
    if masked(seed, prob, i) {
        Fx { m: 0 }
    } else {
        div_guard_spec(v, keep_scale(prob))
    }
}

/// The gradient contribution `backward` accumulates at element `i` whose
/// outgoing gradient decodes to `g`.
pub open spec fn backward_contribution(seed: u64, prob: Fx, g: Fx, i: nat) -> Fx {
    if masked(seed, prob, i) {
        Fx { m: 0 }
    } else {
        div_guard_spec(g, keep_scale(prob))
    }
}

/// Clone the input storage and zero or rescale every element, in index order,
/// drawing one uniform sample per element from a generator seeded with
/// `op.seed`. Never fails; a probability of one masks every element, so the
/// degenerate rescaling divisor is never used.
pub fn forward<Q: Quantize>(op: &DropoutOp, inp: &QuantStorage<Q>) -> (out: QuantStorage<Q>)
    requires
        op.wf(),
        inp.wf(),
    ensures
        out.wf(),
        out.len == inp.len,
        out.scheme == inp.scheme,
        forall|i: int| 0 <= i < inp.len ==> out.codes()[i] as int == inp.scheme.code_spec(
            forward_value(op.seed, op.prob, inp.value_at(i), i as nat),
        ),
{
    let mut out = inp.duplicate();
    let n = out.element_count();
    let words = draw_words(op.seed, n);
    let scale_left = Fx { m: SCALE - op.prob.m };
    let mut i: usize = 0;
    while i < n
        invariant
            i <= n,
            n == inp.len,
            op.wf(),
            inp.wf(),
            out.wf(),
            out.len == n,
            out.scheme == inp.scheme,
            words@.len() == n,
            forall|j: int| 0 <= j < n ==> words@[j] == std_rng_draw(op.seed, j as nat),
            scale_left == keep_scale(op.prob),
            forall|j: int| i <= j < n ==> out.codes()[j] == inp.codes()[j],
            forall|j: int| 0 <= j < i ==> out.codes()[j] as int == inp.scheme.code_spec(
                forward_value(op.seed, op.prob, inp.value_at(j), j as nat),
            ),
        decreases n - i,
    {
        let v = out.get_value(i);
        let u = Fx { m: (words[i] % 65536) as i64 };
        let stored = if u.lt(op.prob) {
            Fx::zero()
        } else {
            v.div_guard(scale_left)
        };
        proof {
            assert(u == unit_draw(op.seed, i as nat));
            assert(v == inp.value_at(i as int));
            assert(stored == forward_value(op.seed, op.prob, v, i as nat));
        }
        out.set_value(i, stored);
        i = i + 1;
    }
    out
}

/// Accumulate the masked, rescaled outgoing gradient into `grad_inp`, element
/// by element in index order, regenerating the mask from the same seed as the
/// forward pass.
pub fn backward<Q: Quantize>(
    op: &DropoutOp,
    inp: &QuantStorage<Q>,
    grad_inp: &mut QuantStorage<Q>,
    grad_out: &QuantStorage<Q>,
)
    requires
        op.wf(),
        inp.wf(),
        old(grad_inp).wf(),
        grad_out.wf(),
        old(grad_inp).len == grad_out.len,
        inp.len == grad_out.len,
    ensures
        final(grad_inp).wf(),
        final(grad_inp).len == old(grad_inp).len,
        final(grad_inp).scheme == old(grad_inp).scheme,
        forall|i: int| 0 <= i < grad_out.len ==> final(grad_inp).codes()[i] as int == old(
            grad_inp,
        ).scheme.code_spec(
            add_spec(
                old(grad_inp).value_at(i),
                backward_contribution(op.seed, op.prob, grad_out.value_at(i), i as nat),
            ),
        ),
{
    let n = grad_out.element_count();
    let words = draw_words(op.seed, n);
    let scale_left = Fx { m: SCALE - op.prob.m };
    let mut i: usize = 0;
    while i < n
        invariant
            i <= n,
            n == grad_out.len,
            op.wf(),
            grad_out.wf(),
            grad_inp.wf(),
            grad_inp.len == n,
            grad_inp.scheme == old(grad_inp).scheme,
            words@.len() == n,
            forall|j: int| 0 <= j < n ==> words@[j] == std_rng_draw(op.seed, j as nat),
            scale_left == keep_scale(op.prob),
            forall|j: int| i <= j < n ==> grad_inp.codes()[j] == old(grad_inp).codes()[j],
            forall|j: int| 0 <= j < i ==> grad_inp.codes()[j] as int == old(
                grad_inp,
            ).scheme.code_spec(
                add_spec(
                    old(grad_inp).value_at(j),
                    backward_contribution(op.seed, op.prob, grad_out.value_at(j), j as nat),
                ),
            ),
        decreases n - i,
    {
        let gi = grad_inp.get_value(i);
        let go = grad_out.get_value(i);
        let u = Fx { m: (words[i] % 65536) as i64 };
        let contribution = if u.lt(op.prob) {
            Fx::zero()
        } else {
            go.div_guard(scale_left)
        };
        proof {
            assert(u == unit_draw(op.seed, i as nat));
            assert(gi == old(grad_inp).value_at(i as int));
            assert(contribution == backward_contribution(
                op.seed,
                op.prob,
                grad_out.value_at(i as int),
                i as nat,
            ));
        }
        let accumulated = gi.add(contribution);
        grad_inp.set_value(i, accumulated);
        i = i + 1;
    }
}

/// Law: for one seed and probability below one, the mask `forward` applies and
/// the mask `backward` regenerates agree at every element — the gradient
/// contribution vanishes exactly where the forward output was zeroed (for a
/// non-zero value and gradient; a zero input stays zero either way).
pub proof fn lemma_mask_consistency(seed: u64, prob: Fx, v: Fx, g: Fx, i: nat)
    requires
        0 <= prob.m < SCALE,
        v.wf(),
        g.wf(),
        g.m != 0,
    ensures
        backward_contribution(seed, prob, g, i).m == 0 <==> masked(seed, prob, i),
        v.m != 0 ==> (forward_value(seed, prob, v, i).m == 0 <==> masked(seed, prob, i)),
{
    if !masked(seed, prob, i) {
        lemma_div_guard_nonzero(g, keep_scale(prob));
        if v.m != 0 {
            lemma_div_guard_nonzero(v, keep_scale(prob));
        }
    }
}

/// Law: over a whole tensor of non-zero values and non-zero outgoing
/// gradients, the set of element indices `forward` zeroes equals the set of
/// element indices whose gradient contribution in `backward` is zero.
pub proof fn lemma_mask_sets_equal(seed: u64, prob: Fx, values: Seq<Fx>, grads: Seq<Fx>)
    requires
        0 <= prob.m < SCALE,
        values.len() == grads.len(),
        forall|i: int| 0 <= i < values.len() ==> (#[trigger] values[i]).wf() && values[i].m != 0,
        forall|i: int| 0 <= i < grads.len() ==> (#[trigger] grads[i]).wf() && grads[i].m != 0,
    ensures
        Set::new(
            |i: nat| i < values.len() && forward_value(seed, prob, values[i as int], i).m == 0,
        ) =~= Set::new(
            |i: nat|
                i < grads.len() && backward_contribution(seed, prob, grads[i as int], i).m == 0,
        ),
{
    let fwd_zero = Set::new(
        |i: nat| i < values.len() && forward_value(seed, prob, values[i as int], i).m == 0,
    );
    let bwd_zero = Set::new(
        |i: nat| i < grads.len() && backward_contribution(seed, prob, grads[i as int], i).m == 0,
    );
    assert forall|i: nat| fwd_zero.contains(i) == bwd_zero.contains(i) by {
        if i < values.len() {
            lemma_mask_consistency(seed, prob, values[i as int], grads[i as int], i);
        }
    }
    assert(fwd_zero =~= bwd_zero);
}

/// A guarded division of a non-zero value by a positive divisor of at most one
/// cannot vanish.
proof fn lemma_div_guard_nonzero(a: Fx, b: Fx)
    requires
        a.wf(),
        a.m != 0,
        0 < b.m <= SCALE,
    ensures
        div_guard_spec(a, b).m != 0,
{
    assert(2 * abs_i(a.m * SCALE) >= b.m) by (nonlinear_arith)
        requires
            a.m != 0,
            0 < b.m <= SCALE,
    ;
    lemma_rdiv_nonzero(a.m * SCALE, b.m as int);
}

/// Law: a dropout of probability zero is the identity on values. No element
/// can be masked, and the rescaling divides by one exactly.
pub proof fn lemma_forward_value_identity(seed: u64, v: Fx, i: nat)
    requires
        v.wf(),
    ensures
        forward_value(seed, Fx { m: 0 }, v, i) == v,
{
    assert(!masked(seed, Fx { m: 0 }, i));
    assert(rdiv(v.m * SCALE, SCALE as int) == v.m) by {
        lemma_rdiv_exact(v.m as int, SCALE as int);
    }
    assert(sat_m(v.m as int) == v.m);
}

/// Law: a dropout of probability zero leaves a symmetrically quantized
/// element's code unchanged (with a zero scale every element already sits on
/// the central code).
pub proof fn lemma_forward_code_identity_scaled(
    q: crate::quantize::ScaledQuant,
    c: int,
    seed: u64,
    i: nat,
)
    requires
        q.valid(),
        0 <= c <= 15,
        8 * q.scaling_factor.m <= MAX_M,
        q.scaling_factor.m == 0 ==> c == 8,
    ensures
        q.code_spec(forward_value(seed, Fx { m: 0 }, q.value_spec(c), i)) == c,
{
    lemma_forward_value_identity(seed, q.value_spec(c), i);
    crate::quantize::lemma_requantize_stable_scaled(q, c);
}

/// Law: a dropout of probability zero leaves an asymmetrically quantized
/// element's code unchanged (with a zero scale every element already sits on
/// code zero).
pub proof fn lemma_forward_code_identity_offset(
    q: crate::quantize::OffsetQuant,
    c: int,
    seed: u64,
    i: nat,
)
    requires
        q.valid(),
        0 <= c <= 15,
        q.offset_factor.m + 15 * q.scaling_factor.m <= MAX_M,
        q.scaling_factor.m == 0 ==> c == 0,
    ensures
        q.code_spec(forward_value(seed, Fx { m: 0 }, q.value_spec(c), i)) == c,
{
    lemma_forward_value_identity(seed, q.value_spec(c), i);
    crate::quantize::lemma_requantize_stable_offset(q, c);
}

} // verus!
