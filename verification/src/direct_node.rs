//! Inner node storage for the widest representation: every byte value is
//! itself the slot index, so lookup needs no indirection at all.

use vstd::prelude::*;
use crate::bit_array::{BitArray, count_some, lemma_count_some_update, lemma_count_some_zero,
    lemma_count_some_bounds, lemma_count_some_full, pairs_upto, occ_upto, lemma_pairs_occ};
use crate::node::NodeTrait;
use crate::index_node::IndexNode;

verus! {

broadcast use {crate::bit_array::lemma_bit_array_len, crate::bit_array::lemma_view_is_slots};

/// The identity key byte for each of the 256 slots.
pub open spec fn id_keys() -> Seq<u8> {
    Seq::new(256, |i: int| i as u8)
}

/// An inner node of width 256: children indexed directly by byte value.
pub struct DirectNode<N> {
    pub(crate) children: BitArray<N, 256>,
    pub(crate) num_children: usize,
}

impl<N> DirectNode<N> {
    /// Every child sits in an occupied slot, and every occupied slot holds
    /// a child of the map model.
    pub(crate) proof fn lemma_children_in_slots(&self)
        requires
            self.wf(),
        ensures
            forall|b: u8|
                self.has_child(b) ==> exists|i: int|
                    0 <= i < self.children.slots@.len() && self.children.slots@[i] == Some(
                        self.child(b),
                    ),
            forall|i: int|
                0 <= i < self.children.slots@.len() && self.children.slots@[i] is Some
                    ==> exists|b: u8|
                    self.has_child(b) && Some(self.child(b)) == self.children.slots@[i],
    {
        assert forall|i: int|
            0 <= i < self.children.slots@.len() && self.children.slots@[i] is Some implies exists|b: u8|
            self.has_child(b) && Some(self.child(b)) == self.children.slots@[i] by {
            let b = i as u8;
            assert(b as int == i);
            assert(self.has_child(b) && Some(self.child(b)) == self.children.slots@[i]);
        }
    }


    /// A full width-256 node has a child under every byte.
    pub(crate) proof fn lemma_full(&self, b: u8)
        requires
            self.wf(),
            self.spec_num() == 256,
        ensures
            self.has_child(b),
    {
        lemma_count_some_full(self.children@, 256);
    }

    /// A container with no children has every slot empty.
    pub(crate) proof fn lemma_empty_slots(&self)
        requires
            self.wf(),
            self.spec_num() == 0,
        ensures
            self.children.slots@.len() == self.spec_width(),
            forall|i: int| 0 <= i < self.children.slots@.len() ==> self.children.slots@[i] is None,
    {
        lemma_count_some_zero(self.children@, 256);
    }


    /// An empty node of width 256.
    pub fn new() -> (r: Self)
        ensures
            r.wf(),
            r.spec_num() == 0,
            forall|b: u8| !r.has_child(b),
    {
        let r = DirectNode { children: BitArray::<N, 256>::new(), num_children: 0 };
        proof {
            lemma_count_some_zero(r.children@, 256);
        }
        r
    }

    /// A node of width 256 holding exactly the children of the given
    /// width-48 node, which is emptied.
    pub fn from_indexed<const WIDTH: usize>(im: &mut IndexNode<N, WIDTH>) -> (r: Self)
        requires
            old(im).wf(),
        ensures
            r.wf(),
            final(im).wf(),
            final(im).spec_num() == 0,
            forall|b: u8| !final(im).has_child(b),
            r.spec_num() == old(im).spec_num(),
            forall|b: u8| r.has_child(b) == old(im).has_child(b),
            forall|b: u8| old(im).has_child(b) ==> r.child(b) == old(im).child(b),
    {
        let pairs = im.drain();
        let mut r = DirectNode::new();
        crate::node::add_all(&mut r, pairs);
        r
    }

    /// The selector bytes under which children are stored, in increasing
    /// order.
    pub fn iter(&self) -> (r: Vec<u8>)
        requires
            self.wf(),
        ensures
            r@.len() == self.spec_num(),
            forall|k: int| #![trigger r@[k]] 0 <= k < r@.len() ==> self.has_child(r@[k]),
            forall|k1: int, k2: int| 0 <= k1 < k2 < r@.len() ==> r@[k1] != r@[k2],
            forall|b: u8| self.has_child(b) ==> exists|k: int| 0 <= k < r@.len() && r@[k] == b,
    {
        let mut out: Vec<u8> = Vec::new();
        let mut i: usize = 0;
        while i < 256
            invariant
                self.wf(),
                i <= 256,
                self.children.wf(),
                self.children@.len() == 256,
                out@.len() == count_some(self.children@, i as int),
                occ_upto(self.children@, i as int).len() == out@.len(),
                forall|k: int|
                    #![trigger out@[k]]
                    0 <= k < out@.len() ==> out@[k] as int == occ_upto(
                        self.children@,
                        i as int,
                    )[k],
            decreases 256 - i,
        {
            if self.children.check(i) {
                out.push(i as u8);
                proof {
                    assert(occ_upto(self.children@, i + 1) =~= occ_upto(
                        self.children@,
                        i as int,
                    ).push(i as int));
                }
            } else {
                proof {
                    assert(occ_upto(self.children@, i + 1) =~= occ_upto(self.children@, i as int));
                }
            }
            i += 1;
        }
        proof {
            lemma_pairs_occ(self.children@, id_keys(), 256);
            let occ = occ_upto(self.children@, 256);
            assert forall|k: int| #![trigger out@[k]] 0 <= k < out@.len() implies self.has_child(
                out@[k],
            ) by {
                assert(out@[k] as int == occ[k]);
                assert(self.children@[occ[k]] is Some);
            }
            assert forall|k1: int, k2: int|
                0 <= k1 < k2 < out@.len() implies out@[k1] != out@[k2] by {
                assert(out@[k1] as int == occ[k1] && out@[k2] as int == occ[k2]);
            }
            assert forall|b: u8| self.has_child(b) implies exists|k: int|
                0 <= k < out@.len() && out@[k] == b by {
                let j = b as int;
                let k = count_some(self.children@, j);
                assert(occ[k] == j);
                assert(out@[k] as int == j && 0 <= k < out@.len());
                assert(out@[k] == b);
            }
        }
        out
    }

    /// Borrow the child under `key` mutably, if present. The node afterwards
    /// equals the node before with that child replaced by whatever the
    /// caller left behind the reference.
    pub fn find_child_mut(&mut self, key: u8) -> (r: Option<&mut N>)
        requires
            old(self).wf(),
        ensures
            (r is Some) == old(self).has_child(key),
            r is None ==> *final(self) == *old(self),
            r matches Some(m) ==> *m == old(self).child(key) && final(self).wf()
                && final(self).spec_num() == old(self).spec_num() && final(self).spec_width()
                == old(self).spec_width() && (forall|b: u8|
                final(self).has_child(b) == old(self).has_child(b)) && final(self).child(key)
                == *final(m) && (forall|b: u8|
                b != key && old(self).has_child(b) ==> final(self).child(b) == old(self).child(
                    b,
                )),
    {
        let ghost pre = *self;
        proof {
            if pre.has_child(key) {
                assert forall|post: Self, z: N|
                    #![trigger post.children.wf(), pre.children@.update(key as int, Some(z))]
                    (post.num_children == pre.num_children && post.children@
                        == pre.children@.update(key as int, Some(z)) && post.children.wf())
                    implies (post.wf() && post.spec_num() == pre.spec_num() && (forall|b: u8|
                    post.has_child(b) == pre.has_child(b)) && post.child(key) == z && (forall|
                    b: u8,
                |
                    b != key && pre.has_child(b) ==> post.child(b) == pre.child(b))) by {
                    lemma_count_some_update(pre.children@, 256, key as int, Some(z));
                    assert(post.wf());
                }
            }
        }
        self.children.get_mut(key as usize)
    }

    /// Remove every child, handing back the `(byte, child)` pairs; the node
    /// is left empty and well-formed.
    pub(crate) fn drain(&mut self) -> (r: Vec<(u8, N)>)
        requires
            old(self).wf(),
        ensures
            final(self).wf(),
            final(self).spec_num() == 0,
            forall|b: u8| !final(self).has_child(b),
            r@.len() == old(self).spec_num(),
            r@.len() <= 256,
            forall|k1: int, k2: int| 0 <= k1 < k2 < r@.len() ==> r@[k1].0 != r@[k2].0,
            forall|k: int|
                #![trigger r@[k]]
                0 <= k < r@.len() ==> old(self).has_child(r@[k].0) && old(self).child(r@[k].0)
                    == r@[k].1,
            forall|b: u8|
                old(self).has_child(b) ==> exists|k: int| 0 <= k < r@.len() && r@[k].0 == b,
    {
        let ghost pre = *self;
        let mut out: Vec<(u8, N)> = Vec::new();
        let mut i: usize = 0;
        while i < 256
            invariant
                pre.wf(),
                i <= 256,
                self.children.wf(),
                self.children@.len() == 256,
                forall|j: int| i <= j < 256 ==> self.children@[j] == pre.children@[j],
                forall|j: int| 0 <= j < i ==> self.children@[j] is None,
                out@ == pairs_upto(pre.children@, id_keys(), i as int),
            decreases 256 - i,
        {
            match self.children.erase(i) {
                Some(n) => {
                    out.push((i as u8, n));
                    proof {
                        assert(id_keys()[i as int] == i as u8);
                        assert(out@ =~= pairs_upto(pre.children@, id_keys(), i + 1));
                    }
                },
                None => {
                    proof {
                        assert(out@ =~= pairs_upto(pre.children@, id_keys(), i + 1));
                    }
                },
            }
            i += 1;
        }
        self.num_children = 0;
        proof {
            lemma_count_some_zero(self.children@, 256);
            lemma_pairs_occ(pre.children@, id_keys(), 256);
            lemma_count_some_bounds(pre.children@, 256);
            let occ = occ_upto(pre.children@, 256);
            assert forall|k: int|
                #![trigger out@[k]]
                0 <= k < out@.len() implies pre.has_child(out@[k].0) && pre.child(out@[k].0)
                    == out@[k].1 by {
                assert(out@[k].0 == occ[k] as u8);
                assert(occ[k] as u8 as int == occ[k]);
            }
            assert forall|k1: int, k2: int|
                0 <= k1 < k2 < out@.len() implies out@[k1].0 != out@[k2].0 by {
                assert(out@[k1].0 == occ[k1] as u8 && out@[k2].0 == occ[k2] as u8);
                assert(occ[k1] as u8 as int == occ[k1] && occ[k2] as u8 as int == occ[k2]);
            }
            assert forall|b: u8| pre.has_child(b) implies exists|k: int|
                0 <= k < out@.len() && out@[k].0 == b by {
                let j = b as int;
                assert(pre.children@[j] is Some);
                let k = count_some(pre.children@, j);
                assert(occ[k] == j);
                assert(out@[k].0 == id_keys()[j]);
                assert(out@[k].0 == b && 0 <= k < out@.len());
            }
        }
        out
    }
}

impl<N> NodeTrait<N> for DirectNode<N> {
    closed spec fn wf(&self) -> bool {
        &&& self.children.wf()
        &&& self.num_children as int == count_some(self.children@, 256)
    }

    closed spec fn has_child(&self, b: u8) -> bool {
        self.children@[b as int] is Some
    }

    closed spec fn child(&self, b: u8) -> N {
        self.children@[b as int].unwrap()
    }

    closed spec fn spec_num(&self) -> int {
        self.num_children as int
    }

    open spec fn spec_width(&self) -> int {
        256
    }

    fn add_child(&mut self, key: u8, node: N) {
        let ghost pre = *self;
        self.children.set(key as usize, node);
        self.num_children = self.num_children + 1;
        proof {
            lemma_count_some_update(pre.children@, 256, key as int, Some(node));
        }
    }

    fn update_child(&mut self, key: u8, node: N) {
        let ghost pre = *self;
        self.children.set(key as usize, node);
        proof {
            lemma_count_some_update(pre.children@, 256, key as int, Some(node));
        }
    }

    fn find_child(&self, key: u8) -> (r: Option<&N>) {
        self.children.get(key as usize)
    }

    fn delete_child(&mut self, key: u8) -> (r: Option<N>) {
        let ghost pre = *self;
        if self.children.check(key as usize) {
            proof {
                lemma_count_some_zero(pre.children@, 256);
                lemma_count_some_bounds(pre.children@, 256);
            }
            let r = self.children.erase(key as usize);
            self.num_children = self.num_children - 1;
            proof {
                lemma_count_some_update(pre.children@, 256, key as int, None);
            }
            r
        } else {
            None
        }
    }

    fn num_children(&self) -> (r: usize) {
        self.num_children
    }

    fn width(&self) -> (r: usize) {
        256
    }

    proof fn lemma_num_in_range(&self) {
        lemma_count_some_bounds(self.children@, 256);
    }

    proof fn lemma_empty_iff(&self) {
        lemma_count_some_zero(self.children@, 256);
        if self.spec_num() == 0 {
            assert forall|b: u8| !self.has_child(b) by {
                assert(self.children@[b as int] is None);
            }
        } else {
            assert(!(forall|j: int| 0 <= j < 256 ==> self.children@[j] is None));
            let j = choose|j: int| !(0 <= j < 256 ==> self.children@[j] is None);
            assert(self.has_child(j as u8));
        }
    }
}

} // verus!
