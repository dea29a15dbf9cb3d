//! The validated half-byte code and the two quantization schemes.
//!
//! A scheme is fit once from a sample of values and is immutable afterwards;
//! `quantize` maps a value into a 4-bit code and `dequantize` maps a code back
//! to the value it stands for. Both schemes share one degenerate-scale policy:
//! a zero scale never reaches a division (see [`crate::fixed::div_guard_spec`]).

use vstd::prelude::*;

use crate::fixed::{abs_i, rdiv, sat_m, Fx, MAX_M, SCALE};
use crate::fixed::{lemma_rdiv_bound, lemma_rdiv_err, lemma_rdiv_exact};

verus! {

/// Error while creating a u4, because the value was out of range and could
/// not be converted.
#[derive(Debug, Clone, Copy)]
pub struct HalfByteConstructionError;

/// A half-byte value. This type exists only for validation purposes, to
/// ensure that values that get stored are within the range [0..16).
#[allow(non_camel_case_types)]
#[derive(Clone, Copy, Debug, PartialEq, Eq, Structural)]
pub struct u4(pub u8);

impl u4 {
    /// Validated construction: accepts exactly the byte values below 16.
    pub fn from_byte(byte_value: u8) -> (r: Result<Self, HalfByteConstructionError>)
        ensures
            byte_value <= 15 <==> r is Ok,
            r matches Ok(v) ==> v.0 == byte_value,
    {
        if byte_value > 15 {
            Err(HalfByteConstructionError)
        } else {
            Ok(Self(byte_value))
        }
    }
}

/// Clamp an integer onto the code range [0, 15].
pub open spec fn clamp_code(x: int) -> int {
    if x < 0 {
        0
    } else if x > 15 {
        15
    } else {
        x
    }
}

/// The largest mantissa magnitude in a sample, 0 for an empty sample.
pub open spec fn max_abs_m(s: Seq<Fx>) -> int
    decreases s.len(),
{
    if s.len() == 0 {
        0
    } else {
        let rest = max_abs_m(s.drop_last());
        let a = abs_i(s.last().m as int);
        if a > rest {
            a
        } else {
            rest
        }
    }
}

/// The least mantissa in a sample, 0 for an empty sample.
pub open spec fn min_m(s: Seq<Fx>) -> int
    decreases s.len(),
{
    if s.len() == 0 {
        0
    } else if s.len() == 1 {
        s[0].m as int
    } else {
        let rest = min_m(s.drop_last());
        let l = s.last().m as int;
        if l < rest {
            l
        } else {
            rest
        }
    }
}

/// The greatest mantissa in a sample, 0 for an empty sample.
pub open spec fn max_m(s: Seq<Fx>) -> int
    decreases s.len(),
{
    if s.len() == 0 {
        0
    } else if s.len() == 1 {
        s[0].m as int
    } else {
        let rest = max_m(s.drop_last());
        let l = s.last().m as int;
        if l > rest {
            l
        } else {
            rest
        }
    }
}

/// How to quantize a value: fit parameters once from a sample, then convert
/// values to 4-bit codes and codes back to values with those parameters.
pub trait Quantize: Sized + Copy {
    /// The parameters lie in range; established by `from_values`, assumed by
    /// every later conversion.
    spec fn valid(self) -> bool;

    /// The parameters an ideal fit over `values` yields.
    spec fn fit_spec(values: Seq<Fx>) -> Self;

    /// The code `quantize` assigns to `v`; always within [0, 15].
    spec fn code_spec(self, v: Fx) -> int;

    /// The value `dequantize` reconstructs from code `c`.
    spec fn value_spec(self, c: int) -> Fx;

    /// Fit a scheme from a non-empty sample of values.
    fn from_values(values: &Vec<Fx>) -> (r: Self)
        requires
            values@.len() > 0,
            forall|i: int| 0 <= i < values@.len() ==> (#[trigger] values@[i]).wf(),
        ensures
            r == Self::fit_spec(values@),
            r.valid(),
    ;

    /// Map a value into a 4-bit code.
    fn quantize(&self, value: Fx) -> (r: u4)
        requires
            self.valid(),
            value.wf(),
        ensures
            r.0 as int == self.code_spec(value),
            r.0 <= 15,
    ;

    /// Map a 4-bit code back to the value it stands for.
    fn dequantize(&self, half_byte: u4) -> (r: Fx)
        requires
            self.valid(),
            half_byte.0 <= 15,
        ensures
            r == self.value_spec(half_byte.0 as int),
            r.wf(),
    ;
}

/// Symmetric quantization: one scale, signed codes biased by 8.
#[derive(Copy, Clone, Debug, PartialEq, Eq, Structural)]
pub struct ScaledQuant {
    pub scaling_factor: Fx,
}

/// Asymmetric quantization: a scale and an offset, unsigned codes.
#[derive(Copy, Clone, Debug, PartialEq, Eq, Structural)]
pub struct OffsetQuant {
    pub scaling_factor: Fx,
    pub offset_factor: Fx,
}

impl Quantize for ScaledQuant {
    open spec fn valid(self) -> bool {
        0 <= self.scaling_factor.m <= MAX_M
    }

    open spec fn fit_spec(values: Seq<Fx>) -> Self {
        ScaledQuant { scaling_factor: Fx { m: rdiv(max_abs_m(values), 7) as i64 } }
    }

    open spec fn code_spec(self, v: Fx) -> int {
        let base = if self.scaling_factor.m == 0 {
            0
        } else {
            rdiv(v.m as int, self.scaling_factor.m as int)
        };
        clamp_code(base + 8)
    }

    open spec fn value_spec(self, c: int) -> Fx {
        Fx { m: sat_m((c - 8) * self.scaling_factor.m) as i64 }
    }

    fn from_values(values: &Vec<Fx>) -> (r: Self) {
        let mut best: i64 = 0;
        let mut i: usize = 0;
        while i < values.len()
            invariant
                i <= values@.len(),
                forall|j: int| 0 <= j < values@.len() ==> (#[trigger] values@[j]).wf(),
                best == max_abs_m(values@.take(i as int)),
                0 <= best <= MAX_M,
            decreases values@.len() - i,
        {
            let a = values[i].abs();
            proof {
                assert(values@.take(i as int + 1).drop_last() =~= values@.take(i as int));
            }
            if a.m > best {
                best = a.m;
            }
            i = i + 1;
        }
        proof {
            assert(values@.take(values@.len() as int) =~= values@);
            lemma_rdiv_err(best as int, 7);
            lemma_rdiv_bound(best as int, 7);
        }
        ScaledQuant { scaling_factor: Fx { m: best }.div_whole(7) }
    }

    fn quantize(&self, value: Fx) -> (r: u4) {
        let base: i64 = if self.scaling_factor.m == 0 {
            0
        } else {
            proof {
                lemma_rdiv_bound(value.m as int, self.scaling_factor.m as int);
            }
            crate::fixed::rdiv_i64(value.m, self.scaling_factor.m)
        };
        let c: i64 = base + 8;
        let clamped: i64 = if c < 0 {
            0
        } else if c > 15 {
            15
        } else {
            c
        };
        u4::from_byte(clamped as u8).unwrap()
    }

    fn dequantize(&self, half_byte: u4) -> (r: Fx) {
        let k: i64 = half_byte.0 as i64 - 8;
        proof {
            assert(-8 * self.scaling_factor.m <= k * self.scaling_factor.m <= 8
                * self.scaling_factor.m) by (nonlinear_arith)
                requires
                    -8 <= k <= 8,
                    self.scaling_factor.m >= 0,
            ;
        }
        Fx::from_raw(k * self.scaling_factor.m)
    }
}

impl Quantize for OffsetQuant {
    open spec fn valid(self) -> bool {
        0 <= self.scaling_factor.m <= MAX_M && self.offset_factor.wf()
    }

    open spec fn fit_spec(values: Seq<Fx>) -> Self {
        OffsetQuant {
            scaling_factor: Fx { m: rdiv(max_m(values) - min_m(values), 15) as i64 },
            offset_factor: Fx { m: min_m(values) as i64 },
        }
    }

    open spec fn code_spec(self, v: Fx) -> int {
        let base = if self.scaling_factor.m == 0 {
            0
        } else {
            rdiv(v.m - self.offset_factor.m, self.scaling_factor.m as int)
        };
        clamp_code(base)
    }

    open spec fn value_spec(self, c: int) -> Fx {
        Fx { m: sat_m(c * self.scaling_factor.m + self.offset_factor.m) as i64 }
    }

    fn from_values(values: &Vec<Fx>) -> (r: Self) {
        let mut mn: i64 = values[0].m;
        let mut mx: i64 = values[0].m;
        let mut i: usize = 1;
        proof {
            assert(values@.take(1).len() == 1);
            assert(values@.take(1)[0] == values@[0]);
        }
        while i < values.len()
            invariant
                1 <= i <= values@.len(),
                values@.len() > 0,
                forall|j: int| 0 <= j < values@.len() ==> (#[trigger] values@[j]).wf(),
                mn == min_m(values@.take(i as int)),
                mx == max_m(values@.take(i as int)),
                -MAX_M <= mn <= mx <= MAX_M,
            decreases values@.len() - i,
        {
            let v = values[i];
            proof {
                assert(values@.take(i as int + 1).drop_last() =~= values@.take(i as int));
            }
            if v.m < mn {
                mn = v.m;
            }
            if v.m > mx {
                mx = v.m;
            }
            i = i + 1;
        }
        proof {
            assert(values@.take(values@.len() as int) =~= values@);
            let range = mx - mn;
            crate::fixed::lemma_rdiv_div_bound(range, 15);
            assert(range / 15 <= (2 * MAX_M) / 15) by {
                vstd::arithmetic::div_mod::lemma_div_is_ordered(range, 2 * MAX_M, 15);
            }
        }
        OffsetQuant {
            scaling_factor: Fx { m: crate::fixed::rdiv_i64(mx - mn, 15) },
            offset_factor: Fx { m: mn },
        }
    }

    fn quantize(&self, value: Fx) -> (r: u4) {
        let shifted: i64 = value.m - self.offset_factor.m;
        let base: i64 = if self.scaling_factor.m == 0 {
            0
        } else {
            proof {
                lemma_rdiv_bound(shifted as int, self.scaling_factor.m as int);
            }
            crate::fixed::rdiv_i64(shifted, self.scaling_factor.m)
        };
        let clamped: i64 = if base < 0 {
            0
        } else if base > 15 {
            15
        } else {
            base
        };
        u4::from_byte(clamped as u8).unwrap()
    }

    fn dequantize(&self, half_byte: u4) -> (r: Fx) {
        let c: i64 = half_byte.0 as i64;
        proof {
            assert(0 <= c * self.scaling_factor.m <= 15 * self.scaling_factor.m)
                by (nonlinear_arith)
                requires
                    0 <= c <= 15,
                    self.scaling_factor.m >= 0,
            ;
        }
        Fx::from_raw(c * self.scaling_factor.m + self.offset_factor.m)
    }
}

/// Over a constant sample every aggregate collapses onto the one value.
pub proof fn lemma_constant_aggregates(s: Seq<Fx>, c: Fx)
    requires
        s.len() > 0,
        forall|i: int| 0 <= i < s.len() ==> s[i] == c,
    ensures
        min_m(s) == c.m,
        max_m(s) == c.m,
        max_abs_m(s) == abs_i(c.m as int),
    decreases s.len(),
{
    assert(s.last() == c);
    if s.len() > 1 {
        assert forall|i: int| 0 <= i < s.drop_last().len() implies s.drop_last()[i] == c by {
            assert(s[i] == c);
        }
        lemma_constant_aggregates(s.drop_last(), c);
    } else {
        assert(s.drop_last().len() == 0);
        assert(max_abs_m(s.drop_last()) == 0);
    }
}

/// Law: round-trip bound for the symmetric scheme. For a positive scale and a
/// value within the unclamped coding range, decoding the encoded value strays
/// from the value by at most the scaling factor.
pub proof fn lemma_round_trip_scaled(q: ScaledQuant, v: Fx)
    requires
        q.valid(),
        v.wf(),
        q.scaling_factor.m > 0,
        abs_i(v.m as int) <= 7 * q.scaling_factor.m,
        8 * q.scaling_factor.m <= MAX_M,
    ensures
        abs_i(q.value_spec(q.code_spec(v)).m - v.m) <= q.scaling_factor.m,
{
    let s = q.scaling_factor.m as int;
    let k = rdiv(v.m as int, s);
    lemma_rdiv_err(v.m as int, s);
    if k >= 8 {
        vstd::arithmetic::mul::lemma_mul_inequality(8, k, s);
        assert(false);
    }
    if k <= -8 {
        vstd::arithmetic::mul::lemma_mul_inequality(k, -8, s);
        assert(false);
    }
    assert(q.code_spec(v) == k + 8);
    vstd::arithmetic::mul::lemma_mul_inequality(k, 7, s);
    vstd::arithmetic::mul::lemma_mul_inequality(-7, k, s);
    assert((k + 8 - 8) * s == k * s);
    assert(sat_m(k * s) == k * s);
}

/// Law: round-trip bound for the asymmetric scheme. For a positive scale and a
/// value within the fitted range, decoding the encoded value strays from the
/// value by at most the scaling factor.
pub proof fn lemma_round_trip_offset(q: OffsetQuant, v: Fx)
    requires
        q.valid(),
        v.wf(),
        q.scaling_factor.m > 0,
        q.offset_factor.m <= v.m,
        v.m <= q.offset_factor.m + 15 * q.scaling_factor.m,
        q.offset_factor.m + 15 * q.scaling_factor.m <= MAX_M,
    ensures
        abs_i(q.value_spec(q.code_spec(v)).m - v.m) <= q.scaling_factor.m,
{
    let s = q.scaling_factor.m as int;
    let off = q.offset_factor.m as int;
    let w = v.m - off;
    let k = rdiv(w, s);
    lemma_rdiv_err(w, s);
    if k >= 16 {
        vstd::arithmetic::mul::lemma_mul_inequality(16, k, s);
        assert(false);
    }
    assert(q.code_spec(v) == k);
    vstd::arithmetic::mul::lemma_mul_inequality(k, 15, s);
    vstd::arithmetic::mul::lemma_mul_inequality(0, k, s);
    assert(sat_m(k * s + off) == k * s + off);
}

/// Law: zero-scale safety. A scheme fit from a constant sample has a zero
/// scale wherever a division could degenerate, yet every conversion stays
/// well-defined: the asymmetric fit maps every value to code 0, which decodes
/// back to the constant; a symmetric fit from zeros maps every value to the
/// central code 8, which decodes back to zero.
pub proof fn lemma_zero_scale_safety(values: Seq<Fx>, c: Fx, v: Fx)
    requires
        values.len() > 0,
        forall|i: int| 0 <= i < values.len() ==> values[i] == c,
        c.wf(),
        v.wf(),
    ensures
        OffsetQuant::fit_spec(values) == (OffsetQuant {
            scaling_factor: Fx { m: 0 },
            offset_factor: c,
        }),
        OffsetQuant::fit_spec(values).valid(),
        OffsetQuant::fit_spec(values).code_spec(v) == 0,
        OffsetQuant::fit_spec(values).value_spec(0) == c,
        ScaledQuant::fit_spec(values).valid(),
        c.m == 0 ==> ScaledQuant::fit_spec(values) == (ScaledQuant {
            scaling_factor: Fx { m: 0 },
        }),
        c.m == 0 ==> ScaledQuant::fit_spec(values).code_spec(v) == 8,
        c.m == 0 ==> ScaledQuant::fit_spec(values).value_spec(8) == (Fx { m: 0 }),
{
    lemma_constant_aggregates(values, c);
    lemma_rdiv_err(0, 15);
    lemma_rdiv_err(abs_i(c.m as int), 7);
    lemma_rdiv_bound(abs_i(c.m as int), 7);
    let q = OffsetQuant::fit_spec(values);
    assert(q.value_spec(0).m == sat_m(0 * 0 + c.m));
    if c.m == 0 {
        lemma_rdiv_err(0, 7);
        let sq = ScaledQuant::fit_spec(values);
        assert(sq.value_spec(8).m == sat_m((8 - 8) * 0));
    }
}

/// Law: re-encoding a decoded code gives the code back. With a positive scale
/// every code survives a decode/encode round trip exactly; with a zero scale
/// every value lands on the scheme's zero code.
pub proof fn lemma_requantize_stable_scaled(q: ScaledQuant, c: int)
    requires
        q.valid(),
        0 <= c <= 15,
        8 * q.scaling_factor.m <= MAX_M,
    ensures
        q.scaling_factor.m > 0 ==> q.code_spec(q.value_spec(c)) == c,
        q.scaling_factor.m == 0 ==> q.code_spec(q.value_spec(c)) == 8,
{
    let s = q.scaling_factor.m as int;
    if s > 0 {
        vstd::arithmetic::mul::lemma_mul_inequality(c - 8, 8, s);
        vstd::arithmetic::mul::lemma_mul_inequality(-8, c - 8, s);
        assert(sat_m((c - 8) * s) == (c - 8) * s);
        lemma_rdiv_exact(c - 8, s);
    } else {
        assert((c - 8) * s == 0) by (nonlinear_arith)
            requires
                s == 0,
        ;
    }
}

/// Law: re-encoding a decoded code gives the code back, asymmetric scheme.
pub proof fn lemma_requantize_stable_offset(q: OffsetQuant, c: int)
    requires
        q.valid(),
        0 <= c <= 15,
        q.offset_factor.m + 15 * q.scaling_factor.m <= MAX_M,
    ensures
        q.scaling_factor.m > 0 ==> q.code_spec(q.value_spec(c)) == c,
        q.scaling_factor.m == 0 ==> q.code_spec(q.value_spec(c)) == 0,
{
    let s = q.scaling_factor.m as int;
    let off = q.offset_factor.m as int;
    if s > 0 {
        vstd::arithmetic::mul::lemma_mul_inequality(c, 15, s);
        vstd::arithmetic::mul::lemma_mul_inequality(0, c, s);
        assert(sat_m(c * s + off) == c * s + off);
        lemma_rdiv_exact(c, s);
    } else {
        assert(c * s == 0) by (nonlinear_arith)
            requires
                s == 0,
        ;
    }
}

} // verus!
