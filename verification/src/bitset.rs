//! A presence bitset over packed 64-bit words.
//!
//! The storage granularity is a whole word, so the bitset may be wider than
//! the logical range it guards; the containers built on top bound every scan
//! by their own declared width.

use vstd::prelude::*;

verus! {

/// Fixed group of 64-bit words used as a presence bitset.
pub struct Bitset {
    words: Vec<u64>,
}

/// Bit `j` of word `w`.
pub open spec fn word_bit(w: u64, j: int) -> bool {
    (w >> (j as u64)) & 1u64 == 1u64
}

proof fn lemma_or_bit(w: u64, i: u64, j: u64)
    ensures
        i < 64 && j < 64 ==> ((w | (1u64 << i)) >> j) & 1u64 == (if i == j {
            1u64
        } else {
            (w >> j) & 1u64
        }),
{
    assert(i < 64 && j < 64 ==> ((w | (1u64 << i)) >> j) & 1u64 == (if i == j {
        1u64
    } else {
        (w >> j) & 1u64
    })) by (bit_vector);
}

proof fn lemma_andnot_bit(w: u64, i: u64, j: u64)
    ensures
        i < 64 && j < 64 ==> ((w & !(1u64 << i)) >> j) & 1u64 == (if i == j {
            0u64
        } else {
            (w >> j) & 1u64
        }),
{
    assert(i < 64 && j < 64 ==> ((w & !(1u64 << i)) >> j) & 1u64 == (if i == j {
        0u64
    } else {
        (w >> j) & 1u64
    })) by (bit_vector);
}

proof fn lemma_zero_bit(j: u64)
    ensures
        j < 64 ==> (0u64 >> j) & 1u64 == 0u64,
{
    assert(j < 64 ==> (0u64 >> j) & 1u64 == 0u64) by (bit_vector);
}

/// Two positions in the same word with the same in-word bit are equal.
proof fn lemma_same_slot(a: int, b: int)
    requires
        a / 64 == b / 64,
        a % 64 == b % 64,
    ensures
        a == b,
{
    vstd::arithmetic::div_mod::lemma_fundamental_div_mod(a, 64);
    vstd::arithmetic::div_mod::lemma_fundamental_div_mod(b, 64);
}

impl Bitset {
    /// Number of bit positions the words can hold.
    pub closed spec fn capacity(&self) -> int {
        self.words@.len() * 64int
    }

    /// Whether bit `i` is set.
    pub closed spec fn spec_has(&self, i: int) -> bool {
        0 <= i < self.capacity() && word_bit(self.words@[i / 64], i % 64)
    }

    /// A bitset of `nwords` words, all bits clear.
    pub fn new(nwords: usize) -> (r: Self)
        ensures
            r.capacity() == nwords * 64,
            forall|j: int| !r.spec_has(j),
    {
        let mut words: Vec<u64> = Vec::new();
        let mut k: usize = 0;
        while k < nwords
            invariant
                k <= nwords,
                words@.len() == k,
                forall|t: int| 0 <= t < k ==> words@[t] == 0u64,
            decreases nwords - k,
        {
            words.push(0);
            k += 1;
        }
        let r = Bitset { words };
        proof {
            assert forall|j: int| !r.spec_has(j) by {
                if 0 <= j < r.capacity() {
                    lemma_zero_bit((j % 64) as u64);
                }
            }
        }
        r
    }

    /// Whether bit `pos` is set.
    pub fn check(&self, pos: usize) -> (r: bool)
        requires
            pos < self.capacity(),
        ensures
            r == self.spec_has(pos as int),
    {
        let w = self.words[pos / 64];
        (w >> ((pos % 64) as u64)) & 1 == 1
    }

    /// Set bit `pos`; every other bit keeps its value.
    pub fn set(&mut self, pos: usize)
        requires
            pos < old(self).capacity(),
        ensures
            final(self).capacity() == old(self).capacity(),
            forall|j: int| final(self).spec_has(j) == (j == pos as int || old(self).spec_has(j)),
    {
        let wi = pos / 64;
        let bit = (pos % 64) as u64;
        let w = self.words[wi];
        self.words.set(wi, w | (1u64 << bit));
        proof {
            assert forall|j: int|
                self.spec_has(j) == (j == pos as int || old(self).spec_has(j)) by {
                if 0 <= j < old(self).capacity() {
                    lemma_or_bit(w, bit, (j % 64) as u64);
                    if j / 64 == wi as int && j % 64 == pos as int % 64 {
                        lemma_same_slot(j, pos as int);
                    }
                } else {
                    assert(!self.spec_has(j) && !old(self).spec_has(j) && j != pos as int);
                }
            }
        }
    }

    /// Clear bit `pos`; every other bit keeps its value.
    pub fn unset(&mut self, pos: usize)
        requires
            pos < old(self).capacity(),
        ensures
            final(self).capacity() == old(self).capacity(),
            forall|j: int| final(self).spec_has(j) == (j != pos as int && old(self).spec_has(j)),
    {
        let wi = pos / 64;
        let bit = (pos % 64) as u64;
        let w = self.words[wi];
        self.words.set(wi, w & !(1u64 << bit));
        proof {
            assert forall|j: int|
                self.spec_has(j) == (j != pos as int && old(self).spec_has(j)) by {
                if 0 <= j < old(self).capacity() {
                    lemma_andnot_bit(w, bit, (j % 64) as u64);
                    if j / 64 == wi as int && j % 64 == pos as int % 64 {
                        lemma_same_slot(j, pos as int);
                    }
                } else {
                    assert(!self.spec_has(j) && !old(self).spec_has(j));
                }
            }
        }
    }

    /// Clear every bit.
    pub fn clear(&mut self)
        ensures
            final(self).capacity() == old(self).capacity(),
            forall|j: int| !final(self).spec_has(j),
    {
        let n = self.words.len();
        let mut k: usize = 0;
        while k < n
            invariant
                k <= n,
                self.words@.len() == n,
                forall|t: int| 0 <= t < k ==> self.words@[t] == 0u64,
            decreases n - k,
        {
            self.words.set(k, 0);
            k += 1;
        }
        proof {
            assert forall|j: int| !self.spec_has(j) by {
                if 0 <= j < self.capacity() {
                    lemma_zero_bit((j % 64) as u64);
                }
            }
        }
    }
}

} // verus!
