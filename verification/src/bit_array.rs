//! A fixed-capacity slot array guarded by a presence bitset.
//!
//! Slots are `None` until the bitset marks them present; the two never
//! disagree. The view is the slot sequence itself, and every operation is
//! specified point-wise over it. Scans are always bounded by the declared
//! width `W`, even though the bitset's word granularity may be wider.

use vstd::prelude::*;
use vstd::pervasive::VecAdditionalExecFns;
use crate::bitset::Bitset;

verus! {

/// Number of `Some` slots among the first `n`.
pub open spec fn count_some<X>(s: Seq<Option<X>>, n: int) -> int
    decreases n,
{
    if n <= 0 {
        0
    } else {
        count_some(s, n - 1) + if s[n - 1] is Some {
            1int
        } else {
            0int
        }
    }
}

/// `count_some` lies between 0 and `n`.
pub proof fn lemma_count_some_bounds<X>(s: Seq<Option<X>>, n: int)
    requires
        0 <= n <= s.len(),
    ensures
        0 <= count_some(s, n) <= n,
    decreases n,
{
    if n > 0 {
        lemma_count_some_bounds(s, n - 1);
    }
}

/// How `count_some` changes when one slot is replaced.
pub proof fn lemma_count_some_update<X>(s: Seq<Option<X>>, n: int, i: int, v: Option<X>)
    requires
        0 <= i < s.len(),
        0 <= n <= s.len(),
    ensures
        count_some(s.update(i, v), n) == count_some(s, n) + if i < n {
            (if v is Some {
                1int
            } else {
                0int
            }) - (if s[i] is Some {
                1int
            } else {
                0int
            })
        } else {
            0int
        },
    decreases n,
{
    if n > 0 {
        lemma_count_some_update(s, n - 1, i, v);
        if i == n - 1 {
            assert(s.update(i, v)[n - 1] == v);
        } else {
            assert(s.update(i, v)[n - 1] == s[n - 1]);
        }
    }
}

/// `count_some` is `n` exactly when every slot below `n` is present.
pub proof fn lemma_count_some_full<X>(s: Seq<Option<X>>, n: int)
    requires
        0 <= n <= s.len(),
    ensures
        (count_some(s, n) == n) <==> (forall|j: int| 0 <= j < n ==> s[j] is Some),
    decreases n,
{
    if n > 0 {
        lemma_count_some_full(s, n - 1);
        lemma_count_some_bounds(s, n - 1);
    }
}

/// `count_some` is 0 exactly when every slot below `n` is absent.
pub proof fn lemma_count_some_zero<X>(s: Seq<Option<X>>, n: int)
    requires
        0 <= n <= s.len(),
    ensures
        (count_some(s, n) == 0) <==> (forall|j: int| 0 <= j < n ==> s[j] is None),
    decreases n,
{
    if n > 0 {
        lemma_count_some_zero(s, n - 1);
        lemma_count_some_bounds(s, n - 1);
    }
}


/// The `(byte, item)` pairs held by the first `n` slots, in slot order,
/// taking the byte for slot `j` from `keys[j]`.
pub open spec fn pairs_upto<X>(slots: Seq<Option<X>>, keys: Seq<u8>, n: int) -> Seq<(u8, X)>
    decreases n,
{
    if n <= 0 {
        Seq::empty()
    } else if slots[n - 1] is Some {
        pairs_upto(slots, keys, n - 1).push((keys[n - 1], slots[n - 1].unwrap()))
    } else {
        pairs_upto(slots, keys, n - 1)
    }
}

/// The slot indices of the occupied slots among the first `n`, in order.
pub open spec fn occ_upto<X>(slots: Seq<Option<X>>, n: int) -> Seq<int>
    decreases n,
{
    if n <= 0 {
        Seq::empty()
    } else if slots[n - 1] is Some {
        occ_upto(slots, n - 1).push(n - 1)
    } else {
        occ_upto(slots, n - 1)
    }
}

/// What the pair sequence of the first `n` slots holds: one pair per
/// occupied slot, in strictly increasing slot order, and the occupied slot
/// `j` produces the pair at index `count_some(slots, j)`.
pub proof fn lemma_pairs_occ<X>(slots: Seq<Option<X>>, keys: Seq<u8>, n: int)
    requires
        0 <= n <= slots.len(),
        n <= keys.len(),
    ensures
        ({
            let p = pairs_upto(slots, keys, n);
            let occ = occ_upto(slots, n);
            &&& p.len() == count_some(slots, n)
            &&& occ.len() == p.len()
            &&& forall|k: int|
                #![trigger p[k]]
                #![trigger occ[k]]
                0 <= k < p.len() ==> 0 <= occ[k] < n && slots[occ[k]] is Some && p[k] == (
                keys[occ[k]],
                slots[occ[k]].unwrap(),
                )
            &&& forall|k1: int, k2: int| 0 <= k1 < k2 < p.len() ==> occ[k1] < occ[k2]
            &&& forall|j: int|
                #![trigger slots[j]]
                0 <= j < n && slots[j] is Some ==> 0 <= count_some(slots, j) < p.len() && occ[
                    count_some(slots, j)
                ] == j
        }),
    decreases n,
{
    if n > 0 {
        lemma_pairs_occ(slots, keys, n - 1);
        lemma_count_some_bounds(slots, n - 1);
    }
}

/// The slot array's view is its physical slot sequence.
pub(crate) broadcast proof fn lemma_view_is_slots<X, const W: usize>(ba: &BitArray<X, W>)
    ensures
        #[trigger] ba@ == ba.slots@,
{
}

/// A well-formed slot array's view has exactly the declared width.
pub broadcast proof fn lemma_bit_array_len<X, const W: usize>(ba: &BitArray<X, W>)
    requires
        #[trigger] ba.wf(),
    ensures
        ba@.len() == W,
{
}

/// A `W`-slot array with a presence bitset; its view is the slot sequence.
pub struct BitArray<X, const W: usize> {
    pub(crate) bitset: Bitset,
    pub(crate) slots: Vec<Option<X>>,
}

impl<X, const W: usize> View for BitArray<X, W> {
    type V = Seq<Option<X>>;

    closed spec fn view(&self) -> Seq<Option<X>> {
        self.slots@
    }
}

impl<X, const W: usize> BitArray<X, W> {
    /// The slot array's internal invariant: the slot count is the declared
    /// width, and the bitset marks exactly the `Some` slots.
    pub closed spec fn wf(&self) -> bool {
        &&& self.slots@.len() == W
        &&& self.bitset.capacity() == ((W + 63) as int / 64) * 64
        &&& forall|j: int| 0 <= j < W ==> (self.bitset.spec_has(j) <==> self.slots@[j] is Some)
        &&& forall|j: int| W <= j ==> !self.bitset.spec_has(j)
    }

    /// Number of occupied slots.
    pub open spec fn spec_size(&self) -> int {
        count_some(self@, W as int)
    }

    /// An empty slot array.
    pub fn new() -> (r: Self)
        requires
            W + 63 <= usize::MAX,
        ensures
            r.wf(),
            r@.len() == W,
            forall|j: int| 0 <= j < W ==> r@[j] is None,
    {
        let nwords = (W + 63) / 64;
        let bitset = Bitset::new(nwords);
        let mut slots: Vec<Option<X>> = Vec::new();
        let mut k: usize = 0;
        while k < W
            invariant
                k <= W,
                slots@.len() == k,
                forall|j: int| 0 <= j < k ==> slots@[j] is None,
            decreases W - k,
        {
            slots.push(None);
            k += 1;
        }
        BitArray { bitset, slots }
    }

    /// Whether slot `pos` is occupied.
    pub fn check(&self, pos: usize) -> (r: bool)
        requires
            self.wf(),
            pos < W,
        ensures
            r == (self@[pos as int] is Some),
    {
        proof {
            lemma_width_fits(W as int);
        }
        self.bitset.check(pos)
    }

    /// Read slot `pos`.
    pub fn get(&self, pos: usize) -> (r: Option<&X>)
        requires
            self.wf(),
            pos < W,
        ensures
            (r is Some) == (self@[pos as int] is Some),
            r matches Some(x) ==> self@[pos as int] matches Some(y) && x == y,
    {
        if self.check(pos) {
            self.slots[pos].as_ref()
        } else {
            None
        }
    }

    /// Borrow slot `pos` mutably.
    pub fn get_mut(&mut self, pos: usize) -> (r: Option<&mut X>)
        requires
            old(self).wf(),
            pos < W,
        ensures
            (r is Some) == (old(self)@[pos as int] is Some),
            r is None ==> *final(self) == *old(self),
            r matches Some(m) ==> old(self)@[pos as int] matches Some(y) && *m == y
                && final(self)@ == old(self)@.update(pos as int, Some(*final(m)))
                && final(self).wf(),
    {
        if self.check(pos) {
            let slot = &mut self.slots[pos];
            match slot {
                Some(m) => Some(m),
                None => {
                    proof {
                        assert(false);
                    }
                    None
                },
            }
        } else {
            None
        }
    }

    /// Store into slot `pos`, occupied or not.
    pub fn set(&mut self, pos: usize, x: X)
        requires
            old(self).wf(),
            pos < W,
        ensures
            final(self).wf(),
            final(self)@ == old(self)@.update(pos as int, Some(x)),
    {
        proof {
            lemma_width_fits(W as int);
        }
        self.slots.set(pos, Some(x));
        self.bitset.set(pos);
    }

    /// Store into slot `pos` and hand back what was there.
    pub fn update(&mut self, pos: usize, x: X) -> (r: Option<X>)
        requires
            old(self).wf(),
            pos < W,
        ensures
            final(self).wf(),
            final(self)@ == old(self)@.update(pos as int, Some(x)),
            r == old(self)@[pos as int],
    {
        proof {
            lemma_width_fits(W as int);
        }
        let mut tmp: Option<X> = Some(x);
        self.slots.set_and_swap(pos, &mut tmp);
        self.bitset.set(pos);
        tmp
    }

    /// Empty slot `pos` and hand back what was there.
    pub fn erase(&mut self, pos: usize) -> (r: Option<X>)
        requires
            old(self).wf(),
            pos < W,
        ensures
            final(self).wf(),
            final(self)@ == old(self)@.update(pos as int, None),
            r == old(self)@[pos as int],
    {
        proof {
            lemma_width_fits(W as int);
        }
        let mut tmp: Option<X> = None;
        self.slots.set_and_swap(pos, &mut tmp);
        self.bitset.unset(pos);
        tmp
    }

    /// Store `x` in the first empty slot and report its position.
    pub fn push(&mut self, x: X) -> (pos: usize)
        requires
            old(self).wf(),
            count_some(old(self)@, W as int) < W,
        ensures
            final(self).wf(),
            pos < W,
            old(self)@[pos as int] is None,
            forall|j: int| 0 <= j < pos ==> old(self)@[j] is Some,
            final(self)@ == old(self)@.update(pos as int, Some(x)),
    {
        let mut i: usize = 0;
        while i < W
            invariant
                *self == *old(self),
                self.wf(),
                i <= W,
                forall|j: int| 0 <= j < i ==> self@[j] is Some,
            decreases W - i,
        {
            if !self.check(i) {
                self.set(i, x);
                return i;
            }
            i += 1;
        }
        proof {
            lemma_count_some_full(self@, W as int);
        }
        unreached()
    }

    /// First empty slot strictly below the declared width, if any. The bitset
    /// may be wider than the width; a free bit beyond it does not count.
    pub fn first_empty(&mut self) -> (r: Option<usize>)
        requires
            old(self).wf(),
        ensures
            *final(self) == *old(self),
            r matches Some(i) ==> i < W && old(self)@[i as int] is None && (forall|j: int|
                0 <= j < i ==> old(self)@[j] is Some),
            r is None ==> forall|j: int| 0 <= j < W ==> old(self)@[j] is Some,
    {
        let mut i: usize = 0;
        while i < W
            invariant
                *self == *old(self),
                self.wf(),
                i <= W,
                forall|j: int| 0 <= j < i ==> self@[j] is Some,
            decreases W - i,
        {
            if !self.check(i) {
                return Some(i);
            }
            i += 1;
        }
        None
    }

    /// Position of the highest occupied slot, if any.
    pub fn last_used_pos(&self) -> (r: Option<usize>)
        requires
            self.wf(),
        ensures
            r matches Some(i) ==> i < W && self@[i as int] is Some && (forall|j: int|
                i < j < W ==> self@[j] is None),
            r is None ==> forall|j: int| 0 <= j < W ==> self@[j] is None,
    {
        let mut i: usize = W;
        while i > 0
            invariant
                self.wf(),
                i <= W,
                forall|j: int| i <= j < W ==> self@[j] is None,
            decreases i,
        {
            i -= 1;
            if self.check(i) {
                return Some(i);
            }
        }
        None
    }

    /// Borrow the highest occupied slot, if any.
    pub fn last(&self) -> (r: Option<&X>)
        requires
            self.wf(),
        ensures
            r matches Some(x) ==> exists|i: int|
                0 <= i < W && self@[i] == Some(*x) && (forall|j: int|
                    i < j < W ==> self@[j] is None),
            r is None ==> forall|j: int| 0 <= j < W ==> self@[j] is None,
    {
        match self.last_used_pos() {
            Some(i) => self.get(i),
            None => None,
        }
    }

    /// Empty the highest occupied slot and hand back its item.
    pub fn pop(&mut self) -> (r: Option<X>)
        requires
            old(self).wf(),
        ensures
            final(self).wf(),
            r is None ==> *final(self) == *old(self) && (forall|j: int|
                0 <= j < W ==> old(self)@[j] is None),
            r matches Some(x) ==> exists|i: int|
                0 <= i < W && old(self)@[i] == Some(x) && (forall|j: int|
                    i < j < W ==> old(self)@[j] is None) && final(self)@ == old(self)@.update(
                    i,
                    None,
                ),
    {
        match self.last_used_pos() {
            Some(i) => self.erase(i),
            None => None,
        }
    }

    /// Whether every slot is empty.
    pub fn is_empty(&self) -> (r: bool)
        requires
            self.wf(),
        ensures
            r == (forall|j: int| 0 <= j < W ==> self@[j] is None),
    {
        let mut i: usize = 0;
        while i < W
            invariant
                self.wf(),
                i <= W,
                forall|j: int| 0 <= j < i ==> self@[j] is None,
            decreases W - i,
        {
            if self.check(i) {
                return false;
            }
            i += 1;
        }
        true
    }

    /// Number of occupied slots.
    pub fn size(&mut self) -> (r: usize)
        requires
            old(self).wf(),
        ensures
            *final(self) == *old(self),
            r == count_some(old(self)@, W as int),
    {
        let mut i: usize = 0;
        let mut cnt: usize = 0;
        while i < W
            invariant
                *self == *old(self),
                self.wf(),
                i <= W,
                cnt == count_some(self@, i as int),
                cnt <= i,
            decreases W - i,
        {
            if self.check(i) {
                cnt += 1;
            }
            i += 1;
        }
        cnt
    }

    /// Clear every slot.
    pub fn clear(&mut self)
        requires
            old(self).wf(),
        ensures
            final(self).wf(),
            final(self)@.len() == W,
            forall|j: int| 0 <= j < W ==> final(self)@[j] is None,
    {
        let mut i: usize = 0;
        while i < W
            invariant
                self.wf(),
                i <= W,
                self@.len() == W,
                forall|j: int| 0 <= j < i ==> self@[j] is None,
            decreases W - i,
        {
            let _ = self.erase(i);
            i += 1;
        }
    }

    /// The positions of the occupied slots, in increasing order.
    pub fn iter_keys(&self) -> (r: Vec<usize>)
        requires
            self.wf(),
        ensures
            forall|k: int| 0 <= k < r@.len() ==> r@[k] < W && self@[r@[k] as int] is Some,
            forall|j: int|
                0 <= j < W && self@[j] is Some ==> exists|k: int|
                    0 <= k < r@.len() && r@[k] == j,
            forall|k1: int, k2: int| 0 <= k1 < k2 < r@.len() ==> r@[k1] < r@[k2],
    {
        let mut out: Vec<usize> = Vec::new();
        let mut i: usize = 0;
        while i < W
            invariant
                self.wf(),
                i <= W,
                forall|k: int| 0 <= k < out@.len() ==> out@[k] < i && self@[out@[k] as int] is Some,
                forall|j: int|
                    0 <= j < i && self@[j] is Some ==> exists|k: int|
                        0 <= k < out@.len() && out@[k] == j,
                forall|k1: int, k2: int| 0 <= k1 < k2 < out@.len() ==> out@[k1] < out@[k2],
            decreases W - i,
        {
            let ghost prev = out@;
            if self.check(i) {
                out.push(i);
            }
            proof {
                assert forall|j: int| 0 <= j < i + 1 && self@[j] is Some implies exists|k: int|
                    0 <= k < out@.len() && out@[k] == j by {
                    if j < i {
                        let k = choose|k: int| 0 <= k < prev.len() && prev[k] == j;
                        assert(out@[k] == j);
                    } else {
                        assert(out@[out@.len() - 1] == j);
                    }
                }
            }
            i += 1;
        }
        out
    }
}

/// The word-rounded bitset capacity covers the declared width.
proof fn lemma_width_fits(w: int)
    requires
        w >= 0,
    ensures
        ((w + 63) / 64) * 64 >= w,
        ((w + 63) / 64) * 64 >= 0,
{
    vstd::arithmetic::div_mod::lemma_fundamental_div_mod(w + 63, 64);
    vstd::arithmetic::div_mod::lemma_mod_bound(w + 63, 64);
}

} // verus!
