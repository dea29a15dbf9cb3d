//! Fixed-point values: the numeric domain of the quantization schemes.
//!
//! A value is a mantissa `m` over the fixed scale `SCALE`; the real number
//! represented is `m / SCALE`. Every arithmetic operation is total: results
//! saturate at the representable bound `MAX_M`, and division rounds to the
//! nearest representable value with ties away from zero.

use vstd::prelude::*;

verus! {

/// Number of mantissa units in one whole unit: a value `v` is `v.m / SCALE`.
pub const SCALE: i64 = 65536;

/// Largest mantissa magnitude a well-formed value may hold.
pub const MAX_M: i64 = 0x2000_0000_0000;

/// The absolute value of a mathematical integer.
pub open spec fn abs_i(x: int) -> int {
    if x < 0 {
        -x
    } else {
        x
    }
}

/// Clamp a mantissa into the representable range.
pub open spec fn sat_m(x: int) -> int {
    if x > MAX_M {
        MAX_M as int
    } else if x < -MAX_M {
        -(MAX_M as int)
    } else {
        x
    }
}

/// `n / d` rounded to the nearest integer, ties away from zero, for `d > 0`.
pub open spec fn rdiv(n: int, d: int) -> int
    recommends
        d > 0,
{
    if n >= 0 {
        (2 * n + d) / (2 * d)
    } else {
        -((2 * (-n) + d) / (2 * d))
    }
}

/// Rounded division misses the true quotient by at most half the divisor:
/// `|rdiv(n, d) * d - n| <= d / 2`, and the result keeps the sign of `n`.
pub proof fn lemma_rdiv_err(n: int, d: int)
    requires
        d > 0,
    ensures
        2 * abs_i(rdiv(n, d) * d - n) <= d,
        n >= 0 ==> rdiv(n, d) >= 0,
        n <= 0 ==> rdiv(n, d) <= 0,
{
    let na = abs_i(n);
    let q = (2 * na + d) / (2 * d);
    vstd::arithmetic::div_mod::lemma_fundamental_div_mod(2 * na + d, 2 * d);
    vstd::arithmetic::div_mod::lemma_mod_division_less_than_divisor(2 * na + d, 2 * d);
    let r = (2 * na + d) % (2 * d);
    assert(2 * na + d == 2 * d * q + r);
    assert(2 * (q * d - na) == d - r) by (nonlinear_arith)
        requires
            2 * na + d == 2 * d * q + r,
    ;
    assert(q >= 0) by {
        vstd::arithmetic::div_mod::lemma_div_pos_is_pos(2 * na + d, 2 * d);
    }
    if n == 0 {
        assert(2 * na + d < (2 * d) * 1);
        vstd::arithmetic::div_mod::lemma_multiply_divide_lt(2 * na + d, 2 * d, 1);
    }
    if n >= 0 {
        assert(rdiv(n, d) == q);
        assert(rdiv(n, d) * d - n == q * d - na);
    } else {
        assert(rdiv(n, d) == -q);
        assert(rdiv(n, d) * d - n == -(q * d - na)) by (nonlinear_arith)
            requires
                rdiv(n, d) == -q,
                na == -n,
        ;
    }
}

/// Rounded division is exact on exact multiples: `rdiv(k * d, d) == k`.
pub proof fn lemma_rdiv_exact(k: int, d: int)
    requires
        d > 0,
    ensures
        rdiv(k * d, d) == k,
{
    if k >= 0 {
        assert(k * d >= 0) by (nonlinear_arith)
            requires
                k >= 0,
                d > 0,
        ;
        assert(2 * (k * d) + d == (2 * d) * k + d) by (nonlinear_arith);
        vstd::arithmetic::div_mod::lemma_div_multiples_vanish_fancy(k, d, 2 * d);
        assert(rdiv(k * d, d) == ((2 * d) * k + d) / (2 * d));
    } else {
        assert(k * d < 0) by (nonlinear_arith)
            requires
                k < 0,
                d > 0,
        ;
        assert(2 * (-(k * d)) + d == (2 * d) * (-k) + d) by (nonlinear_arith);
        vstd::arithmetic::div_mod::lemma_div_multiples_vanish_fancy(-k, d, 2 * d);
        assert(rdiv(k * d, d) == -(((2 * d) * (-k) + d) / (2 * d)));
    }
}

/// For a non-negative numerator, rounded division exceeds flooring division
/// by at most one.
pub proof fn lemma_rdiv_div_bound(n: int, d: int)
    requires
        n >= 0,
        d > 0,
    ensures
        0 <= rdiv(n, d) <= n / d + 1,
{
    lemma_rdiv_err(n, d);
    let q = rdiv(n, d);
    assert(q * d <= n + d);
    assert((q * d) / d == q) by {
        vstd::arithmetic::div_mod::lemma_div_multiples_vanish(q, d);
        assert(q * d == d * q) by (nonlinear_arith);
    }
    assert((q * d) / d <= (n + d) / d) by {
        vstd::arithmetic::div_mod::lemma_div_is_ordered(q * d, n + d, d);
    }
    assert((n + d) / d == n / d + 1) by {
        vstd::arithmetic::div_mod::lemma_hoist_over_denominator(n, 1, d as nat);
        assert(1 * d == d) by (nonlinear_arith);
    }
}

/// Rounded division by a positive integer never grows the magnitude.
pub proof fn lemma_rdiv_bound(n: int, d: int)
    requires
        d > 0,
    ensures
        abs_i(rdiv(n, d)) <= abs_i(n),
{
    let na = abs_i(n);
    let q = (2 * na + d) / (2 * d);
    assert(2 * na + d < (2 * d) * (na + 1)) by (nonlinear_arith)
        requires
            d > 0,
            na >= 0,
    ;
    vstd::arithmetic::div_mod::lemma_multiply_divide_lt(2 * na + d, 2 * d, na + 1);
    assert(q >= 0) by {
        vstd::arithmetic::div_mod::lemma_div_pos_is_pos(2 * na + d, 2 * d);
    }
}

/// Rounded division of a numerator at least half the divisor in magnitude
/// cannot vanish.
pub proof fn lemma_rdiv_nonzero(n: int, d: int)
    requires
        d > 0,
        2 * abs_i(n) >= d,
    ensures
        abs_i(rdiv(n, d)) >= 1,
        n > 0 ==> rdiv(n, d) >= 1,
        n < 0 ==> rdiv(n, d) <= -1,
{
    let na = abs_i(n);
    assert((2 * d) / (2 * d) == 1) by {
        vstd::arithmetic::div_mod::lemma_div_by_self(2 * d);
    }
    assert((2 * d) / (2 * d) <= (2 * na + d) / (2 * d)) by {
        vstd::arithmetic::div_mod::lemma_div_is_ordered(2 * d, 2 * na + d, 2 * d);
    }
}

/// A real value in fixed-point form; the number represented is `m / SCALE`.
#[derive(Clone, Copy, Debug, PartialEq, Eq, Structural)]
pub struct Fx {
    pub m: i64,
}

/// Saturating addition of values.
pub open spec fn add_spec(a: Fx, b: Fx) -> Fx {
    Fx { m: sat_m(a.m + b.m) as i64 }
}

/// Guarded division of values: a non-positive divisor yields zero, so a
/// degenerate (zero) scale can never poison a result. This is the one shared
/// guard both quantization schemes rely on.
pub open spec fn div_guard_spec(a: Fx, b: Fx) -> Fx
    recommends
        b.m >= 0,
{
    if b.m == 0 {
        Fx { m: 0 }
    } else {
        Fx { m: sat_m(rdiv(a.m * SCALE, b.m as int)) as i64 }
    }
}

/// Clamp a mantissa into the representable range.
fn clamp_m(x: i64) -> (r: i64)
    ensures
        r == sat_m(x as int),
{
    if x > MAX_M {
        MAX_M
    } else if x < -MAX_M {
        -MAX_M
    } else {
        x
    }
}

/// `n / d` rounded to the nearest integer, ties away from zero.
pub(crate) fn rdiv_i64(n: i64, d: i64) -> (r: i64)
    requires
        0 < d <= 0x2000_0000_0000_0000,
        -0x2000_0000_0000_0000 <= n <= 0x2000_0000_0000_0000,
    ensures
        r == rdiv(n as int, d as int),
{
    let na: u64 = if n >= 0 {
        n as u64
    } else {
        (-n) as u64
    };
    let du: u64 = d as u64;
    let q: u64 = (2 * na + du) / (2 * du);
    proof {
        vstd::arithmetic::div_mod::lemma_div_nonincreasing((2 * na + du) as int, (2 * du) as int);
    }
    let qi: i64 = q as i64;
    if n >= 0 {
        qi
    } else {
        -qi
    }
}

impl Fx {
    /// The mantissa lies within the representable range.
    pub open spec fn wf(self) -> bool {
        -MAX_M <= self.m <= MAX_M
    }

    /// The value zero.
    pub fn zero() -> (r: Fx)
        ensures
            r.m == 0,
            r.wf(),
    {
        Fx { m: 0 }
    }

    /// Build a value from a raw mantissa, saturating at the bound.
    pub fn from_raw(m: i64) -> (r: Fx)
        ensures
            r.m == sat_m(m as int),
            r.wf(),
    {
        Fx { m: clamp_m(m) }
    }

    /// Build the value `i` (a whole number).
    pub fn from_int(i: i64) -> (r: Fx)
        requires
            -0x2000_0000 <= i <= 0x2000_0000,
        ensures
            r.m == i * SCALE,
            r.wf(),
    {
        Fx { m: i * SCALE }
    }

    /// Saturating addition.
    pub fn add(self, o: Fx) -> (r: Fx)
        requires
            self.wf(),
            o.wf(),
        ensures
            r == add_spec(self, o),
            r.m == sat_m(self.m + o.m),
            r.wf(),
    {
        Fx { m: clamp_m(self.m + o.m) }
    }

    /// The absolute value.
    pub fn abs(self) -> (r: Fx)
        requires
            self.wf(),
        ensures
            r.m == abs_i(self.m as int),
            r.wf(),
    {
        if self.m < 0 {
            Fx { m: -self.m }
        } else {
            self
        }
    }

    /// Strict order on values.
    pub fn lt(self, o: Fx) -> (r: bool)
        ensures
            r == (self.m < o.m),
    {
        self.m < o.m
    }

    /// Guarded division: a zero divisor yields zero instead of failing, the
    /// shared degenerate-scale policy of the quantization schemes.
    pub fn div_guard(self, o: Fx) -> (r: Fx)
        requires
            self.wf(),
            o.wf(),
            o.m >= 0,
        ensures
            r == div_guard_spec(self, o),
            r.wf(),
    {
        if o.m == 0 {
            Fx { m: 0 }
        } else {
            Fx { m: clamp_m(rdiv_i64(self.m * SCALE, o.m)) }
        }
    }

    /// Division by a small positive whole number, rounded to nearest.
    pub fn div_whole(self, k: i64) -> (r: Fx)
        requires
            self.wf(),
            0 < k <= SCALE,
        ensures
            r.m == rdiv(self.m as int, k as int),
            r.wf(),
    {
        proof {
            lemma_rdiv_bound(self.m as int, k as int);
        }
        Fx { m: rdiv_i64(self.m, k) }
    }
}

} // verus!
