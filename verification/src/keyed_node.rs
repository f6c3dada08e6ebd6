//! Inner node storage for the two narrow widths: an unordered key-byte array
//! scanned linearly, beside a bitset-guarded slot array of children.
//!
//! Key bytes of empty slots are parked at 255, so a scan for any other byte
//! needs no presence mask; a scan for 255 itself is masked by the bitset.

use vstd::prelude::*;
use vstd::pervasive::VecAdditionalExecFns;
use crate::bit_array::{BitArray, count_some, lemma_count_some_update, lemma_count_some_zero,
    lemma_count_some_bounds, pairs_upto, occ_upto, lemma_pairs_occ};
use crate::node::NodeTrait;
use crate::utils::{u8_keys_find_key_position, key_match_at};

verus! {

broadcast use {crate::bit_array::lemma_bit_array_len, crate::bit_array::lemma_view_is_slots};

/// An inner node of width `W` (4 or 16): unordered key bytes plus a compact
/// child slot array.
pub struct KeyedNode<N, const W: usize> {
    pub(crate) keys: Vec<u8>,
    pub(crate) children: BitArray<N, W>,
    pub(crate) num_children: u8,
}

impl<N, const W: usize> KeyedNode<N, W> {
    /// Every child sits in an occupied slot, and every occupied slot holds
    /// a child of the map model.
    pub(crate) proof fn lemma_children_in_slots(&self)
        requires
            self.wf(),
        ensures
            forall|b: u8|
                self.has_child(b) ==> exists|i: int|
                    0 <= i < self.children.slots@.len() && self.children.slots@[i] == Some(
                        self.child(b),
                    ),
            forall|i: int|
                0 <= i < self.children.slots@.len() && self.children.slots@[i] is Some
                    ==> exists|b: u8|
                    self.has_child(b) && Some(self.child(b)) == self.children.slots@[i],
    {
        assert forall|b: u8| self.has_child(b) implies exists|i: int|
            0 <= i < self.children.slots@.len() && self.children.slots@[i] == Some(self.child(b)) by {
            let i = choose|i: int| self.match_at(b, i);
            self.lemma_child_at(b, i);
            assert(self.children.slots@[i] == Some(self.child(b)));
        }
        assert forall|i: int|
            0 <= i < self.children.slots@.len() && self.children.slots@[i] is Some implies exists|b: u8|
            self.has_child(b) && Some(self.child(b)) == self.children.slots@[i] by {
            let b = self.keys@[i];
            assert(self.match_at(b, i));
            self.lemma_child_at(b, i);
        }
    }


    /// A container with no children has every slot empty.
    pub(crate) proof fn lemma_empty_slots(&self)
        requires
            self.wf(),
            self.spec_num() == 0,
        ensures
            self.children.slots@.len() == self.spec_width(),
            forall|i: int| 0 <= i < self.children.slots@.len() ==> self.children.slots@[i] is None,
    {
        lemma_count_some_zero(self.children@, W as int);
    }


    /// Whether slot `i` holds the child for byte `b`.
    pub(crate) open spec fn match_at(&self, b: u8, i: int) -> bool {
        0 <= i < W && self.children@[i] is Some && self.keys@[i] == b
    }

    /// Distinct occupied slots hold distinct key bytes.
    proof fn lemma_match_unique(&self, b: u8, i: int, j: int)
        requires
            self.wf(),
            self.match_at(b, i),
            self.match_at(b, j),
        ensures
            i == j,
    {
    }

    /// A matching slot determines the child map at its byte.
    pub(crate) proof fn lemma_child_at(&self, b: u8, i: int)
        requires
            self.wf(),
            self.match_at(b, i),
        ensures
            self.has_child(b),
            self.child(b) == self.children@[i].unwrap(),
    {
        let j = choose|j: int| self.match_at(b, j);
        self.lemma_match_unique(b, i, j);
    }

    /// An empty node of width `W`.
    pub fn new() -> (r: Self)
        requires
            W + 63 <= usize::MAX,
            W <= 255,
        ensures
            r.wf(),
            r.spec_num() == 0,
            forall|b: u8| !r.has_child(b),
    {
        let children = BitArray::<N, W>::new();
        let mut keys: Vec<u8> = Vec::new();
        let mut k: usize = 0;
        while k < W
            invariant
                k <= W,
                keys@.len() == k,
                forall|j: int| 0 <= j < k ==> keys@[j] == 255u8,
            decreases W - k,
        {
            keys.push(255);
            k += 1;
        }
        let r = KeyedNode { keys, children, num_children: 0 };
        proof {
            lemma_count_some_zero(r.children@, W as int);
            assert(forall|b: u8| !r.has_child(b)) by {
                assert(forall|b: u8, i: int| !r.match_at(b, i));
            }
        }
        r
    }


    /// A node of width `W` holding exactly the children of the given
    /// narrower keyed node, which is emptied.
    pub fn from_resized_grow<const OLD_WIDTH: usize>(km: &mut KeyedNode<N, OLD_WIDTH>) -> (r:
        Self)
        requires
            old(km).wf(),
            old(km).spec_num() <= W,
            W + 63 <= usize::MAX,
            W <= 255,
        ensures
            r.wf(),
            final(km).wf(),
            final(km).spec_num() == 0,
            forall|b: u8| !final(km).has_child(b),
            r.spec_num() == old(km).spec_num(),
            forall|b: u8| r.has_child(b) == old(km).has_child(b),
            forall|b: u8| old(km).has_child(b) ==> r.child(b) == old(km).child(b),
    {
        let pairs = km.drain();
        let mut r = KeyedNode::new();
        crate::node::add_all(&mut r, pairs);
        r
    }

    /// A node of width `W` holding exactly the children of the given wider
    /// keyed node, which is emptied; the children are compacted to fit.
    pub fn from_resized_shrink<const OLD_WIDTH: usize>(km: &mut KeyedNode<N, OLD_WIDTH>) -> (r:
        Self)
        requires
            old(km).wf(),
            old(km).spec_num() <= W,
            W + 63 <= usize::MAX,
            W <= 255,
        ensures
            r.wf(),
            final(km).wf(),
            final(km).spec_num() == 0,
            forall|b: u8| !final(km).has_child(b),
            r.spec_num() == old(km).spec_num(),
            forall|b: u8| r.has_child(b) == old(km).has_child(b),
            forall|b: u8| old(km).has_child(b) ==> r.child(b) == old(km).child(b),
    {
        let pairs = km.drain();
        let mut r = KeyedNode::new();
        crate::node::add_all(&mut r, pairs);
        r
    }

    /// A node of width `W` holding exactly the children of the given index
    /// node, which is emptied.
    pub(crate) fn from_indexed<const IDX_WIDTH: usize>(im: &mut crate::index_node::IndexNode<
        N,
        IDX_WIDTH,
    >) -> (r: Self)
        requires
            old(im).wf(),
            old(im).spec_num() <= W,
            W + 63 <= usize::MAX,
            W <= 255,
        ensures
            r.wf(),
            final(im).wf(),
            final(im).spec_num() == 0,
            forall|b: u8| !final(im).has_child(b),
            r.spec_num() == old(im).spec_num(),
            forall|b: u8| r.has_child(b) == old(im).has_child(b),
            forall|b: u8| old(im).has_child(b) ==> r.child(b) == old(im).child(b),
    {
        let pairs = im.drain();
        let mut r = KeyedNode::new();
        crate::node::add_all(&mut r, pairs);
        r
    }

    /// The selector bytes under which children are stored, in slot order.
    #[verifier::rlimit(100)]
    #[verifier::spinoff_prover]
    pub fn iter(&self) -> (r: Vec<u8>)
        requires
            self.wf(),
        ensures
            r@.len() == self.spec_num(),
            forall|k: int| #![trigger r@[k]] 0 <= k < r@.len() ==> self.has_child(r@[k]),
            forall|k1: int, k2: int| 0 <= k1 < k2 < r@.len() ==> r@[k1] != r@[k2],
            forall|b: u8| self.has_child(b) ==> exists|k: int| 0 <= k < r@.len() && r@[k] == b,
    {
        let mut out: Vec<u8> = Vec::new();
        let mut i: usize = 0;
        while i < W
            invariant
                self.wf(),
                i <= W,
                self.keys@.len() == W,
                self.children.wf(),
                self.children@.len() == W,
                out@.len() == count_some(self.children@, i as int),
                occ_upto(self.children@, i as int).len() == out@.len(),
                forall|k: int|
                    #![trigger out@[k]]
                    0 <= k < out@.len() ==> out@[k] == self.keys@[occ_upto(
                        self.children@,
                        i as int,
                    )[k]] && 0 <= occ_upto(self.children@, i as int)[k] < i && self.children@[
                        occ_upto(self.children@, i as int)[k]
                    ] is Some,
            decreases W - i,
        {
            let ghost out_pre = out@;
            if self.children.check(i) {
                out.push(self.keys[i]);
                proof {
                    assert(occ_upto(self.children@, i + 1) =~= occ_upto(
                        self.children@,
                        i as int,
                    ).push(i as int));
                    assert forall|k: int|
                        #![trigger out@[k]]
                        0 <= k < out@.len() implies out@[k] == self.keys@[occ_upto(
                        self.children@,
                        i + 1,
                    )[k]] && 0 <= occ_upto(self.children@, i + 1)[k] < i + 1 && self.children@[
                        occ_upto(self.children@, i + 1)[k]
                    ] is Some by {
                        if k < out_pre.len() {
                            assert(out@[k] == out_pre[k]);
                            assert(out_pre[k] == self.keys@[occ_upto(
                                self.children@,
                                i as int,
                            )[k]]);
                            assert(occ_upto(self.children@, i + 1)[k] == occ_upto(
                                self.children@,
                                i as int,
                            )[k]);
                        } else {
                            assert(out@[k] == self.keys@[i as int]);
                            assert(occ_upto(self.children@, i + 1)[k] == i as int);
                        }
                    }
                }
            } else {
                proof {
                    assert(occ_upto(self.children@, i + 1) =~= occ_upto(self.children@, i as int));
                    assert forall|k: int|
                        #![trigger out@[k]]
                        0 <= k < out@.len() implies out@[k] == self.keys@[occ_upto(
                        self.children@,
                        i + 1,
                    )[k]] && 0 <= occ_upto(self.children@, i + 1)[k] < i + 1 && self.children@[
                        occ_upto(self.children@, i + 1)[k]
                    ] is Some by {
                        assert(out@[k] == out_pre[k]);
                        assert(out_pre[k] == self.keys@[occ_upto(self.children@, i as int)[k]]);
                        assert(occ_upto(self.children@, i + 1)[k] == occ_upto(
                            self.children@,
                            i as int,
                        )[k]);
                    }
                }
            }
            i += 1;
        }
        proof {
            lemma_pairs_occ(self.children@, self.keys@, W as int);
            let occ = occ_upto(self.children@, W as int);
            assert forall|k: int| #![trigger out@[k]] 0 <= k < out@.len() implies self.has_child(
                out@[k],
            ) by {
                assert(self.match_at(out@[k], occ[k]));
                self.lemma_child_at(out@[k], occ[k]);
            }
            assert forall|k1: int, k2: int|
                0 <= k1 < k2 < out@.len() implies out@[k1] != out@[k2] by {
                assert(self.match_at(out@[k1], occ[k1]));
                assert(self.match_at(out@[k2], occ[k2]));
            }
            assert forall|b: u8| self.has_child(b) implies exists|k: int|
                0 <= k < out@.len() && out@[k] == b by {
                let j = choose|j: int| self.match_at(b, j);
                assert(self.children@[j] is Some);
                let k = count_some(self.children@, j);
                assert(occ[k] == j);
                assert(out@[k] == self.keys@[j] && 0 <= k < out@.len());
                assert(out@[k] == b);
            }
        }
        out
    }

    /// Borrow the child under `key` mutably, if present. The node afterwards
    /// equals the node before with that child replaced by whatever the
    /// caller left behind the reference.
    pub fn find_child_mut(&mut self, key: u8) -> (r: Option<&mut N>)
        requires
            old(self).wf(),
        ensures
            (r is Some) == old(self).has_child(key),
            r is None ==> *final(self) == *old(self),
            r matches Some(m) ==> *m == old(self).child(key) && final(self).wf()
                && final(self).spec_num() == old(self).spec_num() && final(self).spec_width()
                == old(self).spec_width() && (forall|b: u8|
                final(self).has_child(b) == old(self).has_child(b)) && final(self).child(key)
                == *final(m) && (forall|b: u8|
                b != key && old(self).has_child(b) ==> final(self).child(b) == old(self).child(
                    b,
                )),
    {
        let ghost pre = *self;
        let r = u8_keys_find_key_position::<N, W>(key, self.keys.as_slice(), &self.children);
        match r {
            Some(idx) => {
                proof {
                    if pre.keys@[idx as int] != 255 {
                        assert(pre.children@[idx as int] is Some);
                    }
                    pre.lemma_child_at(key, idx as int);
                    assert forall|post: Self, z: N|
                        #![trigger post.children.wf(), pre.children@.update(idx as int, Some(z))]
                        (post.keys == pre.keys && post.num_children == pre.num_children
                            && post.children@ == pre.children@.update(idx as int, Some(z))
                            && post.children.wf()) implies (post.wf() && post.spec_num()
                            == pre.spec_num() && (forall|b: u8|
                            post.has_child(b) == pre.has_child(b)) && post.child(key) == z && (
                        forall|b: u8|
                            b != key && pre.has_child(b) ==> post.child(b) == pre.child(b))) by {
                        lemma_count_some_update(pre.children@, W as int, idx as int, Some(z));
                        assert(post.wf());
                        assert(post.match_at(key, idx as int));
                        assert forall|b: u8| post.has_child(b) == pre.has_child(b) by {
                            if post.has_child(b) {
                                let i = choose|i: int| post.match_at(b, i);
                                assert(pre.match_at(b, i));
                            }
                            if pre.has_child(b) {
                                let i = choose|i: int| pre.match_at(b, i);
                                assert(post.match_at(b, i));
                            }
                        }
                        post.lemma_child_at(key, idx as int);
                        assert forall|b: u8|
                            b != key && pre.has_child(b) implies post.child(b) == pre.child(
                            b,
                        ) by {
                            let i = choose|i: int| pre.match_at(b, i);
                            assert(i != idx as int);
                            assert(post.match_at(b, i));
                            pre.lemma_child_at(b, i);
                            post.lemma_child_at(b, i);
                        }
                    }
                }
                self.children.get_mut(idx)
            },
            None => {
                proof {
                    if pre.has_child(key) {
                        let i = choose|i: int| pre.match_at(key, i);
                        assert(key_match_at(key, pre.keys@, &pre.children, i));
                    }
                }
                None
            },
        }
    }

    /// Remove every child, handing back the `(byte, child)` pairs; the node
    /// is left empty and well-formed.
    pub(crate) fn drain(&mut self) -> (r: Vec<(u8, N)>)
        requires
            old(self).wf(),
        ensures
            final(self).wf(),
            final(self).spec_num() == 0,
            forall|b: u8| !final(self).has_child(b),
            r@.len() == old(self).spec_num(),
            r@.len() <= 255,
            forall|k1: int, k2: int| 0 <= k1 < k2 < r@.len() ==> r@[k1].0 != r@[k2].0,
            forall|k: int|
                #![trigger r@[k]]
                0 <= k < r@.len() ==> old(self).has_child(r@[k].0) && old(self).child(r@[k].0)
                    == r@[k].1,
            forall|b: u8|
                old(self).has_child(b) ==> exists|k: int| 0 <= k < r@.len() && r@[k].0 == b,
    {
        let ghost pre = *self;
        let mut out: Vec<(u8, N)> = Vec::new();
        let mut i: usize = 0;
        while i < W
            invariant
                pre.wf(),
                i <= W,
                self.keys@.len() == W,
                self.children.wf(),
                self.children@.len() == W,
                forall|j: int| i <= j < W ==> self.children@[j] == pre.children@[j],
                forall|j: int| i <= j < W ==> self.keys@[j] == pre.keys@[j],
                forall|j: int| 0 <= j < i ==> self.children@[j] is None,
                forall|j: int| 0 <= j < i ==> self.keys@[j] == 255u8,
                out@ == pairs_upto(pre.children@, pre.keys@, i as int),
            decreases W - i,
        {
            let ghost out_pre = out@;
            let b = self.keys[i];
            match self.children.erase(i) {
                Some(n) => {
                    out.push((b, n));
                    self.keys.set(i, 255);
                    proof {
                        assert(out@ =~= pairs_upto(pre.children@, pre.keys@, i + 1));
                    }
                },
                None => {
                    proof {
                        assert(pre.children@[i as int] is None);
                        assert(pre.keys@[i as int] == 255);
                        assert(out@ =~= pairs_upto(pre.children@, pre.keys@, i + 1));
                    }
                },
            }
            i += 1;
        }
        self.num_children = 0;
        proof {
            lemma_count_some_zero(self.children@, W as int);
            assert(forall|b: u8, j: int| !self.match_at(b, j));
            assert(forall|b: u8| !self.has_child(b));
            lemma_pairs_occ(pre.children@, pre.keys@, W as int);
            lemma_count_some_bounds(pre.children@, W as int);
            let occ = occ_upto(pre.children@, W as int);
            assert forall|k: int|
                #![trigger out@[k]]
                0 <= k < out@.len() implies pre.has_child(out@[k].0) && pre.child(out@[k].0)
                    == out@[k].1 by {
                assert(pre.match_at(out@[k].0, occ[k]));
                pre.lemma_child_at(out@[k].0, occ[k]);
            }
            assert forall|k1: int, k2: int|
                0 <= k1 < k2 < out@.len() implies out@[k1].0 != out@[k2].0 by {
                assert(pre.match_at(out@[k1].0, occ[k1]));
                assert(pre.match_at(out@[k2].0, occ[k2]));
            }
            assert forall|b: u8| pre.has_child(b) implies exists|k: int|
                0 <= k < out@.len() && out@[k].0 == b by {
                let j = choose|j: int| pre.match_at(b, j);
                assert(pre.children@[j] is Some);
                let k = count_some(pre.children@, j);
                assert(occ[k] == j);
                assert(out@[k].0 == pre.keys@[j]);
                assert(out@[k].0 == b && 0 <= k < out@.len());
            }
        }
        out
    }
}

impl<N, const W: usize> NodeTrait<N> for KeyedNode<N, W> {
    closed spec fn wf(&self) -> bool {
        &&& W <= 255
        &&& self.children.wf()
        &&& self.keys@.len() == W
        &&& self.num_children as int == count_some(self.children@, W as int)
        &&& forall|i: int| 0 <= i < W && self.children@[i] is None ==> self.keys@[i] == 255u8
        &&& forall|i: int, j: int|
            0 <= i < W && 0 <= j < W && i != j && self.children@[i] is Some && self.children@[j]
                is Some ==> self.keys@[i] != self.keys@[j]
    }

    closed spec fn has_child(&self, b: u8) -> bool {
        exists|i: int| self.match_at(b, i)
    }

    closed spec fn child(&self, b: u8) -> N {
        let i = choose|i: int| self.match_at(b, i);
        self.children@[i].unwrap()
    }

    closed spec fn spec_num(&self) -> int {
        self.num_children as int
    }

    open spec fn spec_width(&self) -> int {
        W as int
    }

    fn add_child(&mut self, key: u8, node: N) {
        proof {
            lemma_count_some_update(old(self).children@, W as int, 0, old(self).children@[0]);
        }
        let ghost pre = *self;
        let pos = self.children.push(node);
        self.keys.set(pos, key);
        self.num_children = self.num_children + 1;
        proof {
            lemma_count_some_update(pre.children@, W as int, pos as int, Some(node));
            assert forall|i: int, j: int|
                0 <= i < W && 0 <= j < W && i != j && self.children@[i] is Some
                    && self.children@[j] is Some implies self.keys@[i] != self.keys@[j] by {
                if i == pos as int && self.keys@[j] == key {
                    assert(pre.match_at(key, j));
                }
                if j == pos as int && self.keys@[i] == key {
                    assert(pre.match_at(key, i));
                }
            }
            assert(self.wf());
            assert(self.match_at(key, pos as int));
            assert forall|b: u8|
                self.has_child(b) == (b == key || pre.has_child(b)) by {
                if b == key {
                    assert(self.has_child(b));
                } else {
                    if self.has_child(b) {
                        let i = choose|i: int| self.match_at(b, i);
                        assert(pre.match_at(b, i));
                    }
                    if pre.has_child(b) {
                        let i = choose|i: int| pre.match_at(b, i);
                        assert(i != pos as int);
                        assert(self.match_at(b, i));
                    }
                }
            }
            self.lemma_child_at(key, pos as int);
            assert forall|b: u8|
                b != key && pre.has_child(b) implies self.child(b) == pre.child(b) by {
                let i = choose|i: int| pre.match_at(b, i);
                assert(i != pos as int);
                assert(self.match_at(b, i));
                pre.lemma_child_at(b, i);
                self.lemma_child_at(b, i);
            }
        }
    }

    fn update_child(&mut self, key: u8, node: N) {
        let ghost pre = *self;
        let r = u8_keys_find_key_position::<N, W>(key, self.keys.as_slice(), &self.children);
        match r {
            Some(idx) => {
                proof {
                    assert(pre.match_at(key, idx as int));
                }
                let _ = self.children.update(idx, node);
                proof {
                    lemma_count_some_update(pre.children@, W as int, idx as int, Some(node));
                    assert(self.wf());
                    assert forall|b: u8| self.has_child(b) == pre.has_child(b) by {
                        if self.has_child(b) {
                            let i = choose|i: int| self.match_at(b, i);
                            assert(pre.match_at(b, i));
                        }
                        if pre.has_child(b) {
                            let i = choose|i: int| pre.match_at(b, i);
                            assert(self.match_at(b, i));
                        }
                    }
                    self.lemma_child_at(key, idx as int);
                    assert forall|b: u8|
                        b != key && pre.has_child(b) implies self.child(b) == pre.child(b) by {
                        let i = choose|i: int| pre.match_at(b, i);
                        assert(i != idx as int);
                        assert(self.match_at(b, i));
                        pre.lemma_child_at(b, i);
                        self.lemma_child_at(b, i);
                    }
                }
            },
            None => {
                proof {
                    let i = choose|i: int| pre.match_at(key, i);
                    assert(key_match_at(key, pre.keys@, &pre.children, i));
                    assert(false);
                }
            },
        }
    }

    fn find_child(&self, key: u8) -> (r: Option<&N>) {
        let r = u8_keys_find_key_position::<N, W>(key, self.keys.as_slice(), &self.children);
        match r {
            Some(idx) => {
                proof {
                    if self.keys@[idx as int] != 255 {
                        assert(self.children@[idx as int] is Some);
                    }
                    self.lemma_child_at(key, idx as int);
                }
                let c = self.children.get(idx);
                proof {
                    assert(c is Some);
                }
                c
            },
            None => {
                proof {
                    if self.has_child(key) {
                        let i = choose|i: int| self.match_at(key, i);
                        assert(key_match_at(key, self.keys@, &self.children, i));
                    }
                }
                None
            },
        }
    }

    fn delete_child(&mut self, key: u8) -> (r: Option<N>) {
        let ghost pre = *self;
        let r = u8_keys_find_key_position::<N, W>(key, self.keys.as_slice(), &self.children);
        match r {
            Some(idx) => {
                proof {
                    if pre.keys@[idx as int] != 255 {
                        assert(pre.children@[idx as int] is Some);
                    }
                    pre.lemma_child_at(key, idx as int);
                    lemma_count_some_bounds(pre.children@, W as int);
                    lemma_count_some_zero(pre.children@, W as int);
                }
                let removed = self.children.erase(idx);
                self.keys.set(idx, 255);
                self.num_children = self.num_children - 1;
                proof {
                    lemma_count_some_update(pre.children@, W as int, idx as int, None);
                    assert forall|b: u8|
                        self.has_child(b) == (b != key && pre.has_child(b)) by {
                        if self.has_child(b) {
                            let i = choose|i: int| self.match_at(b, i);
                            assert(i != idx as int);
                            assert(pre.match_at(b, i));
                            if b == key {
                                pre.lemma_match_unique(key, i, idx as int);
                            }
                        }
                        if b != key && pre.has_child(b) {
                            let i = choose|i: int| pre.match_at(b, i);
                            assert(i != idx as int);
                            assert(self.match_at(b, i));
                        }
                    }
                    assert forall|b: u8|
                        b != key && pre.has_child(b) implies self.child(b) == pre.child(b) by {
                        let i = choose|i: int| pre.match_at(b, i);
                        assert(i != idx as int);
                        assert(self.match_at(b, i));
                        pre.lemma_child_at(b, i);
                        self.lemma_child_at(b, i);
                    }
                }
                removed
            },
            None => {
                proof {
                    if pre.has_child(key) {
                        let i = choose|i: int| pre.match_at(key, i);
                        assert(key_match_at(key, pre.keys@, &pre.children, i));
                    }
                }
                None
            },
        }
    }

    fn num_children(&self) -> (r: usize) {
        self.num_children as usize
    }

    fn width(&self) -> (r: usize) {
        W
    }

    proof fn lemma_num_in_range(&self) {
        lemma_count_some_bounds(self.children@, W as int);
    }

    proof fn lemma_empty_iff(&self) {
        lemma_count_some_zero(self.children@, W as int);
        if forall|j: int| 0 <= j < W ==> self.children@[j] is None {
            assert forall|b: u8| !self.has_child(b) by {
                if self.has_child(b) {
                    let i = choose|i: int| self.match_at(b, i);
                }
            }
            assert(self.spec_num() == 0);
        } else {
            let j = choose|j: int| !(0 <= j < W ==> self.children@[j] is None);
            assert(self.match_at(self.keys@[j], j));
            assert(self.has_child(self.keys@[j]));
            assert(self.spec_num() != 0);
        }
    }
}

} // verus!
