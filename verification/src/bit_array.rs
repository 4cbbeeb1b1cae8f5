//! A packed bit array over 64-bit words.

use vstd::prelude::*;

verus! {

#[derive(Clone)]
pub struct BitArray {
    pub words: Vec<u64>,
    pub cap: usize,
}

/// Bit `b` of word `w`.
pub open spec fn word_bit(w: u64, b: u64) -> bool {
    (w >> b) & 1 == 1
}

impl BitArray {
    /// The value of bit `i`.
    pub open spec fn bit(&self, i: int) -> bool {
        word_bit(self.words@[i / 64], (i % 64) as u64)
    }

    pub open spec fn wf(&self) -> bool {
        self.cap == self.words@.len() * 64
    }

    pub open spec fn capacity_spec(&self) -> int {
        self.cap as int
    }

    /// A cleared array with room for at least `len` bits, rounded up
    /// to a whole number of words.
    pub fn new(len: usize) -> (r: Self)
        requires
            len <= usize::MAX - 63,
        ensures
            r.wf(),
            r.capacity_spec() == ((len + 63) / 64) * 64,
            r.capacity_spec() >= len,
            forall|i: int| 0 <= i < r.capacity_spec() ==> !r.bit(i),
    {
        let nwords = (len + 63) / 64;
        let mut words: Vec<u64> = Vec::new();
        let mut i: usize = 0;
        while i < nwords
            invariant
                0 <= i <= nwords,
                words@.len() == i,
                forall|k: int| 0 <= k < i ==> words@[k] == 0u64,
            decreases nwords - i,
        {
            words.push(0);
            i = i + 1;
        }
        let cap = nwords * 64;
        proof {
            assert(((len + 63) / 64) * 64 >= len) by (nonlinear_arith)
                requires
                    len >= 0,
            ;
            assert(nwords * 64 <= usize::MAX) by (nonlinear_arith)
                requires
                    nwords == (len + 63) / 64,
                    len <= usize::MAX - 63,
            ;
            assert forall|i2: int| 0 <= i2 < cap implies !(BitArray { words, cap }).bit(i2) by {
                assert(0 <= i2 / 64 < nwords) by (nonlinear_arith)
                    requires
                        0 <= i2 < cap,
                        cap == nwords * 64,
                ;
                assert(words@[i2 / 64] == 0u64);
                let bb: u64 = (i2 % 64) as u64;
                assert((0u64 >> bb) & 1 != 1) by (bit_vector);
                assert(!word_bit(0u64, bb));
            }
        }
        Self { words, cap }
    }

    /// Overwrite this array with the contents of `other`.
    pub fn copy_from(&mut self, other: &Self)
        requires
            other.wf(),
        ensures
            final(self).wf(),
            final(self).capacity_spec() == other.capacity_spec(),
            final(self).words@ =~= other.words@,
    {
        self.words = copy_words(&other.words);
        self.cap = other.cap;
    }

    /// The number of bits the array can hold.
    pub fn capacity(&self) -> (r: usize)
        ensures
            r == self.capacity_spec(),
    {
        self.cap
    }

    /// Set or clear bit `bit_idx`; the previous value comes back.
    pub fn set(&mut self, bit_idx: usize, set: bool) -> (prev: bool)
        requires
            old(self).wf(),
            bit_idx < old(self).capacity_spec(),
        ensures
            final(self).wf(),
            final(self).capacity_spec() == old(self).capacity_spec(),
            prev == old(self).bit(bit_idx as int),
            final(self).bit(bit_idx as int) == set,
            forall|i: int|
                0 <= i < old(self).capacity_spec() && i != bit_idx ==> final(self).bit(i) == old(
                    self,
                ).bit(i),
    {
        let idx = bit_idx / 64;
        let bit = (bit_idx % 64) as u64;
        proof {
            assert(0 <= bit_idx / 64 < self.words@.len()) by (nonlinear_arith)
                requires
                    0 <= bit_idx,
                    bit_idx < self.cap,
                    self.cap == self.words@.len() * 64,
            ;
        }
        let w = self.words[idx];
        let prev = (w >> bit) & 1 == 1;
        let neww = if set {
            w | (1u64 << bit)
        } else {
            w & !(1u64 << bit)
        };
        self.words.set(idx, neww);
        proof {
            assert((((neww >> bit) & 1) == 1) == set && (forall|b2: u64|
                b2 < 64 && b2 != bit ==> ((neww >> b2) & 1) == ((w >> b2) & 1))) by (bit_vector)
                requires
                    neww == (if set {
                        w | (1u64 << bit)
                    } else {
                        w & !(1u64 << bit)
                    }),
                    bit < 64,
            ;
            assert(word_bit(neww, bit) == set);
            assert forall|i: int|
                0 <= i < old(self).capacity_spec() && i != bit_idx implies final(self).bit(i)
                == old(self).bit(i) by {
                assert(0 <= i / 64 < self.words@.len() && 0 <= i % 64 < 64) by (nonlinear_arith)
                    requires
                        0 <= i < self.cap,
                        self.cap == self.words@.len() * 64,
                ;
                if i / 64 == bit_idx / 64 {
                    assert(i % 64 != bit_idx as int % 64) by (nonlinear_arith)
                        requires
                            i != bit_idx,
                            i / 64 == bit_idx as int / 64,
                            0 <= i,
                            0 <= bit_idx,
                    ;
                    let b2 = (i % 64) as u64;
                    assert(b2 < 64 && b2 != bit);
                    assert(((neww >> b2) & 1) == ((w >> b2) & 1));
                    assert(word_bit(neww, b2) == word_bit(w, b2));
                } else {
                    assert(final(self).words@[i / 64] == old(self).words@[i / 64]);
                }
            }
        }
        prev
    }

    /// The value of bit `bit_idx`.
    pub fn get(&self, bit_idx: usize) -> (r: bool)
        requires
            self.wf(),
            bit_idx < self.capacity_spec(),
        ensures
            r == self.bit(bit_idx as int),
    {
        let idx = bit_idx / 64;
        let bit = (bit_idx % 64) as u64;
        proof {
            assert(0 <= bit_idx / 64 < self.words@.len()) by (nonlinear_arith)
                requires
                    0 <= bit_idx,
                    bit_idx < self.cap,
                    self.cap == self.words@.len() * 64,
            ;
        }
        (self.words[idx] >> bit) & 1 == 1
    }
}

/// A plain copy of a word vector.
fn copy_words(v: &Vec<u64>) -> (r: Vec<u64>)
    ensures
        r@ =~= v@,
{
    let mut r: Vec<u64> = Vec::new();
    let mut i: usize = 0;
    while i < v.len()
        invariant
            0 <= i <= v@.len(),
            r@ =~= v@.take(i as int),
        decreases v@.len() - i,
    {
        r.push(v[i]);
        i = i + 1;
    }
    proof {
        assert(v@.take(v@.len() as int) =~= v@);
    }
    r
}

} // verus!
