//! Packed quantized storage: a flat buffer of 4-bit codes, two to a byte.
//!
//! The buffer is logically addressed by element index; each index maps to
//! exactly one half-byte code. Elements are visited in index order through
//! read and overwrite accessors that compute the byte and nibble offsets
//! internally, so callers never touch raw byte-level references.

use vstd::prelude::*;

use crate::fixed::Fx;
use crate::quantize::{u4, Quantize};

verus! {

/// The nibble of byte `b` selected by parity: the low one when `even` holds,
/// the high one otherwise.
pub open spec fn nib(b: u8, even: bool) -> u8 {
    if even {
        (b % 16) as u8
    } else {
        (b / 16) as u8
    }
}

/// A storage buffer of packed 4-bit codes together with the quantization
/// scheme its elements were encoded with.
pub struct QuantStorage<Q: Quantize> {
    /// The conversion parameters every element was encoded with.
    pub scheme: Q,
    /// The packed codes; element `i` occupies a nibble of byte `i / 2`.
    pub data: Vec<u8>,
    /// The logical element count.
    pub len: usize,
}

impl<Q: Quantize> QuantStorage<Q> {
    /// The sequence of 4-bit codes the buffer holds, one per element.
    pub open spec fn codes(self) -> Seq<u8> {
        Seq::new(self.len as nat, |i: int| nib(self.data@[i / 2], i % 2 == 0))
    }

    /// The buffer holds exactly one nibble per element and the scheme's
    /// parameters are in range.
    pub open spec fn wf(self) -> bool {
        self.data@.len() == (self.len + 1) / 2 && self.scheme.valid()
    }

    /// The value element `i` stands for once decoded.
    pub open spec fn value_at(self, i: int) -> Fx {
        self.scheme.value_spec(self.codes()[i] as int)
    }

    /// The number of logical elements.
    pub fn element_count(&self) -> (r: usize)
        ensures
            r == self.len,
    {
        self.len
    }

    /// The number of bytes the packed buffer occupies.
    pub fn size_bytes(&self) -> (r: usize)
        ensures
            r == self.data@.len(),
    {
        self.data.len()
    }

    /// Read the code of element `index`.
    pub fn get(&self, index: usize) -> (r: u4)
        requires
            self.wf(),
            index < self.len,
        ensures
            r.0 == self.codes()[index as int],
            r.0 <= 15,
    {
        let b = self.data[index / 2];
        if index % 2 == 0 {
            u4(b % 16)
        } else {
            u4(b / 16)
        }
    }

    /// Overwrite the code of element `index`, leaving every other element as
    /// it was.
    pub fn set(&mut self, index: usize, code: u4)
        requires
            old(self).wf(),
            index < old(self).len,
            code.0 <= 15,
        ensures
            final(self).wf(),
            final(self).len == old(self).len,
            final(self).scheme == old(self).scheme,
            final(self).codes() == old(self).codes().update(index as int, code.0),
    {
        let b = self.data[index / 2];
        let nb: u8 = if index % 2 == 0 {
            (b / 16) * 16 + code.0
        } else {
            (b % 16) + code.0 * 16
        };
        self.data.set(index / 2, nb);
        proof {
            let i = index as int;
            let old_codes = old(self).codes();
            assert((16 * (b / 16) + code.0) / 16 == b / 16 && (16 * (b / 16) + code.0) % 16
                == code.0) by {
                vstd::arithmetic::div_mod::lemma_div_multiples_vanish_fancy(
                    b as int / 16,
                    code.0 as int,
                    16,
                );
                vstd::arithmetic::div_mod::lemma_mod_multiples_vanish(
                    b as int / 16,
                    code.0 as int,
                    16,
                );
            }
            assert((16 * (code.0 as int) + b % 16) / 16 == code.0 && (16 * (code.0 as int) + b
                % 16) % 16 == b % 16) by {
                vstd::arithmetic::div_mod::lemma_div_multiples_vanish_fancy(
                    code.0 as int,
                    b as int % 16,
                    16,
                );
                vstd::arithmetic::div_mod::lemma_mod_multiples_vanish(
                    code.0 as int,
                    b as int % 16,
                    16,
                );
            }
            assert forall|j: int| 0 <= j < self.len implies self.codes()[j]
                == old_codes.update(i, code.0)[j] by {
                if j != i {
                    assert(j / 2 != i / 2 ==> self.data@[j / 2] == old(self).data@[j / 2]);
                }
            }
            assert(self.codes() =~= old_codes.update(i, code.0));
        }
    }

    /// Decode the value of element `index`.
    pub fn get_value(&self, index: usize) -> (r: Fx)
        requires
            self.wf(),
            index < self.len,
        ensures
            r == self.value_at(index as int),
            r.wf(),
    {
        let code = self.get(index);
        self.scheme.dequantize(code)
    }

    /// Encode `value` with the storage's scheme and store it as element
    /// `index`.
    pub fn set_value(&mut self, index: usize, value: Fx)
        requires
            old(self).wf(),
            index < old(self).len,
            value.wf(),
        ensures
            final(self).wf(),
            final(self).len == old(self).len,
            final(self).scheme == old(self).scheme,
            final(self).codes() == old(self).codes().update(
                index as int,
                old(self).scheme.code_spec(value) as u8,
            ),
            0 <= old(self).scheme.code_spec(value) <= 15,
    {
        let code = self.scheme.quantize(value);
        self.set(index, code);
    }

    /// Fit a scheme from `values` and encode every element with it, in index
    /// order.
    pub fn from_values(values: &Vec<Fx>) -> (r: Self)
        requires
            values@.len() > 0,
            forall|i: int| 0 <= i < values@.len() ==> (#[trigger] values@[i]).wf(),
        ensures
            r.wf(),
            r.len == values@.len(),
            r.scheme == Q::fit_spec(values@),
            forall|i: int| 0 <= i < values@.len() ==> r.codes()[i] as int == r.scheme.code_spec(
                values@[i],
            ),
    {
        let scheme = Q::from_values(values);
        let n = values.len();
        let half = n / 2 + n % 2;
        let mut data: Vec<u8> = Vec::new();
        let mut k: usize = 0;
        while k < half
            invariant
                data@.len() == k,
                k <= half,
            decreases half - k,
        {
            data.push(0);
            k = k + 1;
        }
        let mut st = QuantStorage { scheme, data, len: n };
        let mut i: usize = 0;
        while i < n
            invariant
                i <= n,
                n == values@.len(),
                forall|j: int| 0 <= j < values@.len() ==> (#[trigger] values@[j]).wf(),
                st.wf(),
                st.len == n,
                st.scheme == scheme,
                scheme.valid(),
                forall|j: int| 0 <= j < i ==> st.codes()[j] as int == scheme.code_spec(
                    values@[j],
                ),
            decreases n - i,
        {
            st.set_value(i, values[i]);
            i = i + 1;
        }
        st
    }

    /// An element-for-element copy: same scheme, same codes.
    pub fn duplicate(&self) -> (r: Self)
        requires
            self.wf(),
        ensures
            r.wf(),
            r.len == self.len,
            r.scheme == self.scheme,
            r.codes() == self.codes(),
            r.data@ == self.data@,
    {
        let data = self.data.clone();
        proof {
            assert(data@ =~= self.data@);
            assert(QuantStorage { scheme: self.scheme, data, len: self.len }.codes()
                =~= self.codes());
        }
        QuantStorage { scheme: self.scheme, data, len: self.len }
    }
}

} // verus!
