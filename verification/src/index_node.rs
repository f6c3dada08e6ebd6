//! Inner node storage for width 48: a 256-entry byte-to-slot indirection
//! table in front of a compact child slot array, so the sparse byte space
//! maps onto a dense block of children.

use vstd::prelude::*;
use crate::bit_array::{BitArray, count_some, lemma_count_some_update, lemma_count_some_zero,
    lemma_count_some_bounds, pairs_upto, occ_upto, lemma_pairs_occ};
use crate::node::{NodeTrait, add_all};
use crate::keyed_node::KeyedNode;
use crate::direct_node::DirectNode;

verus! {

broadcast use {crate::bit_array::lemma_bit_array_len, crate::bit_array::lemma_view_is_slots};

/// The identity key byte for each of the 256 table entries.
pub open spec fn table_keys() -> Seq<u8> {
    Seq::new(256, |i: int| i as u8)
}

/// An inner node of width `W` (48): a byte-indexed indirection table whose
/// entries select slots of the compact child array.
pub struct IndexNode<N, const W: usize> {
    pub(crate) child_ptr_indexes: BitArray<u8, 256>,
    pub(crate) children: BitArray<N, W>,
    pub(crate) num_children: u8,
}

impl<N, const W: usize> IndexNode<N, W> {
    /// Every child sits in an occupied slot, and every occupied slot holds
    /// a child of the map model.
    pub(crate) proof fn lemma_children_in_slots(&self)
        requires
            self.wf(),
        ensures
            forall|b: u8|
                self.has_child(b) ==> exists|i: int|
                    0 <= i < self.children.slots@.len() && self.children.slots@[i] == Some(
                        self.child(b),
                    ),
            forall|i: int|
                0 <= i < self.children.slots@.len() && self.children.slots@[i] is Some
                    ==> exists|b: u8|
                    self.has_child(b) && Some(self.child(b)) == self.children.slots@[i],
    {
        assert forall|b: u8| self.has_child(b) implies exists|i: int|
            0 <= i < self.children.slots@.len() && self.children.slots@[i] == Some(self.child(b)) by {
            let i = self.child_ptr_indexes@[b as int].unwrap() as int;
            assert(self.children.slots@[i] == Some(self.child(b)));
        }
        assert forall|i: int|
            0 <= i < self.children.slots@.len() && self.children.slots@[i] is Some implies exists|b: u8|
            self.has_child(b) && Some(self.child(b)) == self.children.slots@[i] by {
            let b = choose|b: int|
                0 <= b < 256 && #[trigger] self.child_ptr_indexes@[b] == Some(i as u8);
            assert(i as u8 as int == i);
            assert(self.has_child(b as u8) && Some(self.child(b as u8)) == self.children.slots@[i]);
        }
    }


    /// A container with no children has every slot empty.
    pub(crate) proof fn lemma_empty_slots(&self)
        requires
            self.wf(),
            self.spec_num() == 0,
        ensures
            self.children.slots@.len() == self.spec_width(),
            forall|i: int| 0 <= i < self.children.slots@.len() ==> self.children.slots@[i] is None,
    {
        lemma_count_some_zero(self.children@, W as int);
    }


    /// An empty node of width `W`.
    pub fn new() -> (r: Self)
        requires
            W + 63 <= usize::MAX,
            W <= 255,
        ensures
            r.wf(),
            r.spec_num() == 0,
            forall|b: u8| !r.has_child(b),
    {
        let r = IndexNode {
            child_ptr_indexes: BitArray::<u8, 256>::new(),
            children: BitArray::<N, W>::new(),
            num_children: 0,
        };
        proof {
            lemma_count_some_zero(r.children@, W as int);
        }
        r
    }

    /// A node of width `W` holding exactly the children of the given keyed
    /// node, which is emptied.
    pub fn from_keyed<const KM_WIDTH: usize>(km: &mut KeyedNode<N, KM_WIDTH>) -> (r: Self)
        requires
            old(km).wf(),
            old(km).spec_num() <= W,
            W + 63 <= usize::MAX,
            W <= 255,
        ensures
            r.wf(),
            final(km).wf(),
            final(km).spec_num() == 0,
            forall|b: u8| !final(km).has_child(b),
            r.spec_num() == old(km).spec_num(),
            forall|b: u8| r.has_child(b) == old(km).has_child(b),
            forall|b: u8| old(km).has_child(b) ==> r.child(b) == old(km).child(b),
    {
        let pairs = km.drain();
        let mut r = IndexNode::new();
        add_all(&mut r, pairs);
        r
    }

    /// A node of width `W` holding exactly the children of the given
    /// width-256 node, which is emptied.
    pub fn from_direct(dm: &mut DirectNode<N>) -> (r: Self)
        requires
            old(dm).wf(),
            old(dm).spec_num() <= W,
            W + 63 <= usize::MAX,
            W <= 255,
        ensures
            r.wf(),
            final(dm).wf(),
            final(dm).spec_num() == 0,
            forall|b: u8| !final(dm).has_child(b),
            r.spec_num() == old(dm).spec_num(),
            forall|b: u8| r.has_child(b) == old(dm).has_child(b),
            forall|b: u8| old(dm).has_child(b) ==> r.child(b) == old(dm).child(b),
    {
        let pairs = dm.drain();
        let mut r = IndexNode::new();
        add_all(&mut r, pairs);
        r
    }

    /// Move every child into another (empty) container.
    pub fn move_into<M: NodeTrait<N>>(&mut self, nm: &mut M)
        requires
            old(self).wf(),
            old(nm).wf(),
            old(nm).spec_num() == 0,
            forall|b: u8| !old(nm).has_child(b),
            old(self).spec_num() <= old(nm).spec_width(),
        ensures
            final(self).wf(),
            final(self).spec_num() == 0,
            forall|b: u8| !final(self).has_child(b),
            final(nm).wf(),
            final(nm).spec_width() == old(nm).spec_width(),
            final(nm).spec_num() == old(self).spec_num(),
            forall|b: u8| final(nm).has_child(b) == old(self).has_child(b),
            forall|b: u8| old(self).has_child(b) ==> final(nm).child(b) == old(self).child(b),
    {
        let pairs = self.drain();
        add_all(nm, pairs);
    }

    /// The selector bytes under which children are stored, in increasing
    /// order.
    pub fn iter(&self) -> (r: Vec<u8>)
        requires
            self.wf(),
        ensures
            r@.len() == self.spec_num(),
            forall|k: int| #![trigger r@[k]] 0 <= k < r@.len() ==> self.has_child(r@[k]),
            forall|k1: int, k2: int| 0 <= k1 < k2 < r@.len() ==> r@[k1] != r@[k2],
            forall|b: u8| self.has_child(b) ==> exists|k: int| 0 <= k < r@.len() && r@[k] == b,
    {
        let mut out: Vec<u8> = Vec::new();
        let mut i: usize = 0;
        while i < 256
            invariant
                self.wf(),
                i <= 256,
                self.child_ptr_indexes.wf(),
                self.child_ptr_indexes@.len() == 256,
                out@.len() == count_some(self.child_ptr_indexes@, i as int),
                occ_upto(self.child_ptr_indexes@, i as int).len() == out@.len(),
                forall|k: int|
                    #![trigger out@[k]]
                    0 <= k < out@.len() ==> out@[k] as int == occ_upto(
                        self.child_ptr_indexes@,
                        i as int,
                    )[k],
            decreases 256 - i,
        {
            if self.child_ptr_indexes.check(i) {
                out.push(i as u8);
                proof {
                    assert(occ_upto(self.child_ptr_indexes@, i + 1) =~= occ_upto(
                        self.child_ptr_indexes@,
                        i as int,
                    ).push(i as int));
                }
            } else {
                proof {
                    assert(occ_upto(self.child_ptr_indexes@, i + 1) =~= occ_upto(
                        self.child_ptr_indexes@,
                        i as int,
                    ));
                }
            }
            i += 1;
        }
        proof {
            lemma_pairs_occ(self.child_ptr_indexes@, table_keys(), 256);
            let occ = occ_upto(self.child_ptr_indexes@, 256);
            assert forall|k: int| #![trigger out@[k]] 0 <= k < out@.len() implies self.has_child(
                out@[k],
            ) by {
                assert(out@[k] as int == occ[k]);
                assert(self.child_ptr_indexes@[occ[k]] is Some);
            }
            assert forall|k1: int, k2: int|
                0 <= k1 < k2 < out@.len() implies out@[k1] != out@[k2] by {
                assert(out@[k1] as int == occ[k1] && out@[k2] as int == occ[k2]);
            }
            lemma_table_count(*self);
            assert forall|b: u8| self.has_child(b) implies exists|k: int|
                0 <= k < out@.len() && out@[k] == b by {
                let j = b as int;
                let k = count_some(self.child_ptr_indexes@, j);
                assert(occ[k] == j);
                assert(out@[k] as int == j && 0 <= k < out@.len());
                assert(out@[k] == b);
            }
        }
        out
    }

    /// Borrow the child under `key` mutably, if present. The node afterwards
    /// equals the node before with that child replaced by whatever the
    /// caller left behind the reference.
    pub fn find_child_mut(&mut self, key: u8) -> (r: Option<&mut N>)
        requires
            old(self).wf(),
        ensures
            (r is Some) == old(self).has_child(key),
            r is None ==> *final(self) == *old(self),
            r matches Some(m) ==> *m == old(self).child(key) && final(self).wf()
                && final(self).spec_num() == old(self).spec_num() && final(self).spec_width()
                == old(self).spec_width() && (forall|b: u8|
                final(self).has_child(b) == old(self).has_child(b)) && final(self).child(key)
                == *final(m) && (forall|b: u8|
                b != key && old(self).has_child(b) ==> final(self).child(b) == old(self).child(
                    b,
                )),
    {
        let ghost pre = *self;
        let pos = match self.child_ptr_indexes.get(key as usize) {
            Some(p) => *p,
            None => {
                return None;
            },
        };
        proof {
            assert(pre.child_ptr_indexes@[key as int] == Some(pos));
            assert((pos as int) < W && pre.children@[pos as int] is Some);
            assert forall|post: Self, z: N|
                #![trigger post.children.wf(), pre.children@.update(pos as int, Some(z))]
                (post.child_ptr_indexes == pre.child_ptr_indexes && post.num_children
                    == pre.num_children && post.children@ == pre.children@.update(
                    pos as int,
                    Some(z),
                ) && post.children.wf()) implies (post.wf() && post.spec_num() == pre.spec_num()
                && (forall|b: u8| post.has_child(b) == pre.has_child(b)) && post.child(key) == z
                && (forall|b: u8|
                b != key && pre.has_child(b) ==> post.child(b) == pre.child(b))) by {
                lemma_count_some_update(pre.children@, W as int, pos as int, Some(z));
                assert forall|i: int|
                    0 <= i < W && post.children@[i] is Some implies exists|b: int|
                    0 <= b < 256 && #[trigger] post.child_ptr_indexes@[b] == Some(i as u8) by {
                    let b = choose|b: int|
                        0 <= b < 256 && #[trigger] pre.child_ptr_indexes@[b] == Some(i as u8);
                    assert(post.child_ptr_indexes@[b] == Some(i as u8));
                }
                assert(post.wf());
                assert forall|b: u8|
                    b != key && pre.has_child(b) implies post.child(b) == pre.child(b) by {
                    assert(pre.child_ptr_indexes@[b as int] != pre.child_ptr_indexes@[key as int]);
                }
            }
        }
        self.children.get_mut(pos as usize)
    }

    /// Remove every child, handing back the `(byte, child)` pairs; the node
    /// is left empty and well-formed.
    pub(crate) fn drain(&mut self) -> (r: Vec<(u8, N)>)
        requires
            old(self).wf(),
        ensures
            final(self).wf(),
            final(self).spec_num() == 0,
            forall|b: u8| !final(self).has_child(b),
            r@.len() == old(self).spec_num(),
            r@.len() <= 255,
            forall|k1: int, k2: int| 0 <= k1 < k2 < r@.len() ==> r@[k1].0 != r@[k2].0,
            forall|k: int|
                #![trigger r@[k]]
                0 <= k < r@.len() ==> old(self).has_child(r@[k].0) && old(self).child(r@[k].0)
                    == r@[k].1,
            forall|b: u8|
                old(self).has_child(b) ==> exists|k: int| 0 <= k < r@.len() && r@[k].0 == b,
    {
        let ghost pre = *self;
        let mut out: Vec<(u8, N)> = Vec::new();
        let mut i: usize = 0;
        while i < 256
            invariant
                pre.wf(),
                W <= 255,
                i <= 256,
                self.child_ptr_indexes.wf(),
                self.child_ptr_indexes@.len() == 256,
                self.children.wf(),
                self.children@.len() == W,
                forall|j: int|
                    i <= j < 256 ==> self.child_ptr_indexes@[j] == pre.child_ptr_indexes@[j],
                forall|j: int| 0 <= j < i ==> self.child_ptr_indexes@[j] is None,
                forall|j: int|
                    #![trigger self.children@[j]]
                    0 <= j < W ==> self.children@[j] == (if exists|b: int|
                        0 <= b < i && pre.child_ptr_indexes@[b] == Some(j as u8) {
                        None::<N>
                    } else {
                        pre.children@[j]
                    }),
                out@.len() == count_some(pre.child_ptr_indexes@, i as int),
                forall|k: int|
                    #![trigger out@[k]]
                    0 <= k < out@.len() ==> 0 <= (out@[k].0 as int) < i
                        && pre.child_ptr_indexes@[out@[k].0 as int] is Some && pre.has_child(
                        out@[k].0,
                    ) && pre.child(out@[k].0) == out@[k].1 && count_some(
                        pre.child_ptr_indexes@,
                        out@[k].0 as int,
                    ) == k,
                forall|j: int|
                    0 <= j < i && pre.child_ptr_indexes@[j] is Some ==> 0 <= count_some(
                        pre.child_ptr_indexes@,
                        j,
                    ) < out@.len() && out@[count_some(pre.child_ptr_indexes@, j)].0 == j as u8,
            decreases 256 - i,
        {
            let ghost out_pre = out@;
            match self.child_ptr_indexes.erase(i) {
                Some(pos) => {
                    proof {
                        assert(pre.child_ptr_indexes@[i as int] == Some(pos));
                        assert((pos as int) < W);
                        assert(pre.children@[pos as int] is Some);
                        assert(self.children@[pos as int] == pre.children@[pos as int]) by {
                            if exists|b: int|
                                0 <= b < i && pre.child_ptr_indexes@[b] == Some(pos) {
                                let b = choose|b: int|
                                    0 <= b < i && pre.child_ptr_indexes@[b] == Some(pos);
                                assert(false);
                            }
                        }
                        lemma_count_some_update(
                            pre.child_ptr_indexes@,
                            256,
                            i as int,
                            None::<u8>,
                        );
                    }
                    let n = match self.children.erase(pos as usize) {
                        Some(n) => n,
                        None => {
                            proof {
                                assert(false);
                            }
                            unreached()
                        },
                    };
                    out.push((i as u8, n));
                    proof {
                        assert(pre.child(i as u8) == n);
                        assert forall|j: int|
                            #![trigger self.children@[j]]
                            0 <= j < W implies self.children@[j] == (if exists|b: int|
                            0 <= b < i + 1 && pre.child_ptr_indexes@[b] == Some(j as u8) {
                            None::<N>
                        } else {
                            pre.children@[j]
                        }) by {
                            if j == pos as int {
                                assert(pre.child_ptr_indexes@[i as int] == Some(j as u8));
                            } else {
                                if exists|b: int|
                                    0 <= b < i && pre.child_ptr_indexes@[b] == Some(j as u8) {
                                    let b = choose|b: int|
                                        0 <= b < i && pre.child_ptr_indexes@[b] == Some(j as u8);
                                    assert(0 <= b < i + 1 && pre.child_ptr_indexes@[b] == Some(
                                        j as u8,
                                    ));
                                } else {
                                    if exists|b: int|
                                        0 <= b < i + 1 && pre.child_ptr_indexes@[b] == Some(
                                            j as u8,
                                        ) {
                                        let b = choose|b: int|
                                            0 <= b < i + 1 && pre.child_ptr_indexes@[b] == Some(
                                                j as u8,
                                            );
                                        assert(b == i as int);
                                        assert(j == pos as int);
                                    }
                                }
                            }
                        }
                    }
                },
                None => {
                    proof {
                        assert(pre.child_ptr_indexes@[i as int] is None);
                        assert forall|j: int|
                            #![trigger self.children@[j]]
                            0 <= j < W implies self.children@[j] == (if exists|b: int|
                            0 <= b < i + 1 && pre.child_ptr_indexes@[b] == Some(j as u8) {
                            None::<N>
                        } else {
                            pre.children@[j]
                        }) by {
                            if exists|b: int|
                                0 <= b < i && pre.child_ptr_indexes@[b] == Some(j as u8) {
                                let b = choose|b: int|
                                    0 <= b < i && pre.child_ptr_indexes@[b] == Some(j as u8);
                                assert(0 <= b < i + 1 && pre.child_ptr_indexes@[b] == Some(
                                    j as u8,
                                ));
                            } else {
                                if exists|b: int|
                                    0 <= b < i + 1 && pre.child_ptr_indexes@[b] == Some(j as u8) {
                                    let b = choose|b: int|
                                        0 <= b < i + 1 && pre.child_ptr_indexes@[b] == Some(
                                            j as u8,
                                        );
                                    assert(b == i as int);
                                }
                            }
                        }
                    }
                },
            }
            i += 1;
        }
        self.num_children = 0;
        proof {
            assert forall|j: int| 0 <= j < W implies self.children@[j] is None by {
                if pre.children@[j] is Some {
                    let b = choose|b: int|
                        0 <= b < 256 && #[trigger] pre.child_ptr_indexes@[b] == Some(j as u8);
                    assert(self.children@[j] is None);
                }
            }
            lemma_count_some_zero(self.children@, W as int);
            assert forall|b: u8| pre.has_child(b) implies exists|k: int|
                0 <= k < out@.len() && out@[k].0 == b by {
                let j = b as int;
                assert(pre.child_ptr_indexes@[j] is Some);
                let k = count_some(pre.child_ptr_indexes@, j);
                assert(out@[k].0 == b && 0 <= k < out@.len());
            }
            assert(out@.len() == count_some(pre.child_ptr_indexes@, 256));
            lemma_table_count(pre);
            lemma_count_some_bounds(pre.children@, W as int);
        }
        out
    }
}

/// In a well-formed index node the table holds as many entries as the child
/// array holds children: the table maps its entries one-to-one onto the
/// occupied child slots.
proof fn lemma_table_count<N, const W: usize>(pre: IndexNode<N, W>)
    requires
        pre.wf(),
    ensures
        count_some(pre.child_ptr_indexes@, 256) == count_some(pre.children@, W as int),
{
    lemma_bij_count::<N>(pre.child_ptr_indexes@, pre.children@, W as int);
}

/// A table that selects each occupied slot below `m` exactly once holds as
/// many entries as there are occupied slots.
proof fn lemma_bij_count<N>(table: Seq<Option<u8>>, slots: Seq<Option<N>>, m: int)
    requires
        table.len() == 256,
        0 <= m <= 255,
        m <= slots.len(),
        forall|b: int|
            0 <= b < 256 && table[b] is Some ==> (table[b].unwrap() as int) < m
                && slots[table[b].unwrap() as int] is Some,
        forall|b1: int, b2: int|
            0 <= b1 < 256 && 0 <= b2 < 256 && b1 != b2 && table[b1] is Some && table[b2] is Some
                ==> table[b1] != table[b2],
        forall|i: int|
            0 <= i < m && slots[i] is Some ==> exists|b: int|
                0 <= b < 256 && #[trigger] table[b] == Some(i as u8),
    ensures
        count_some(table, 256) == count_some(slots, m),
    decreases m,
{
    if m == 0 {
        assert forall|b: int| 0 <= b < 256 implies table[b] is None by {
            if table[b] is Some {
                assert((table[b].unwrap() as int) < 0);
            }
        }
        lemma_count_some_zero(table, 256);
    } else if slots[m - 1] is Some {
        let b0 = choose|b: int| 0 <= b < 256 && #[trigger] table[b] == Some((m - 1) as u8);
        let table2 = table.update(b0, None::<u8>);
        lemma_count_some_update(table, 256, b0, None::<u8>);
        assert forall|b: int|
            0 <= b < 256 && table2[b] is Some implies (table2[b].unwrap() as int) < m - 1
                && slots[table2[b].unwrap() as int] is Some by {
            assert(b != b0);
            assert(table2[b] == table[b]);
            if (table[b].unwrap() as int) == m - 1 {
                assert(table[b] == Some((m - 1) as u8));
                assert(table[b] == table[b0]);
            }
        }
        assert forall|i: int|
            0 <= i < m - 1 && slots[i] is Some implies exists|b: int|
            0 <= b < 256 && #[trigger] table2[b] == Some(i as u8) by {
            let b = choose|b: int| 0 <= b < 256 && #[trigger] table[b] == Some(i as u8);
            assert(b != b0);
            assert(table2[b] == Some(i as u8));
        }
        lemma_bij_count::<N>(table2, slots, m - 1);
    } else {
        assert forall|b: int|
            0 <= b < 256 && table[b] is Some implies (table[b].unwrap() as int) < m - 1
                && slots[table[b].unwrap() as int] is Some by {
            if (table[b].unwrap() as int) == m - 1 {
                assert(slots[m - 1] is Some);
            }
        }
        assert forall|i: int|
            0 <= i < m - 1 && slots[i] is Some implies exists|b: int|
            0 <= b < 256 && #[trigger] table[b] == Some(i as u8) by {
            let b = choose|b: int| 0 <= b < 256 && #[trigger] table[b] == Some(i as u8);
        }
        lemma_bij_count::<N>(table, slots, m - 1);
    }
}

impl<N, const W: usize> NodeTrait<N> for IndexNode<N, W> {
    closed spec fn wf(&self) -> bool {
        &&& W <= 255
        &&& self.child_ptr_indexes.wf()
        &&& self.children.wf()
        &&& self.num_children as int == count_some(self.children@, W as int)
        &&& forall|b: int|
            0 <= b < 256 && self.child_ptr_indexes@[b] is Some
                ==> (self.child_ptr_indexes@[b].unwrap() as int) < W
                && self.children@[self.child_ptr_indexes@[b].unwrap() as int] is Some
        &&& forall|b1: int, b2: int|
            0 <= b1 < 256 && 0 <= b2 < 256 && b1 != b2 && self.child_ptr_indexes@[b1] is Some
                && self.child_ptr_indexes@[b2] is Some ==> self.child_ptr_indexes@[b1]
                != self.child_ptr_indexes@[b2]
        &&& forall|i: int|
            0 <= i < W && self.children@[i] is Some ==> exists|b: int|
                0 <= b < 256 && #[trigger] self.child_ptr_indexes@[b] == Some(i as u8)
    }

    closed spec fn has_child(&self, b: u8) -> bool {
        self.child_ptr_indexes@[b as int] is Some
    }

    closed spec fn child(&self, b: u8) -> N {
        self.children@[self.child_ptr_indexes@[b as int].unwrap() as int].unwrap()
    }

    closed spec fn spec_num(&self) -> int {
        self.num_children as int
    }

    open spec fn spec_width(&self) -> int {
        W as int
    }

    fn add_child(&mut self, key: u8, node: N) {
        let ghost pre = *self;
        let pos = self.children.push(node);
        self.child_ptr_indexes.set(key as usize, pos as u8);
        self.num_children = self.num_children + 1;
        proof {
            lemma_count_some_update(pre.children@, W as int, pos as int, Some(node));
            assert(pos as u8 as int == pos as int);
            assert forall|i: int|
                0 <= i < W && self.children@[i] is Some implies exists|b: int|
                0 <= b < 256 && #[trigger] self.child_ptr_indexes@[b] == Some(i as u8) by {
                if i == pos as int {
                    assert(self.child_ptr_indexes@[key as int] == Some(i as u8));
                } else {
                    let b = choose|b: int|
                        0 <= b < 256 && #[trigger] pre.child_ptr_indexes@[b] == Some(i as u8);
                    assert(b != key as int);
                    assert(self.child_ptr_indexes@[b] == Some(i as u8));
                }
            }
        }
    }

    fn update_child(&mut self, key: u8, node: N) {
        let ghost pre = *self;
        let pos = match self.child_ptr_indexes.get(key as usize) {
            Some(p) => *p,
            None => {
                proof {
                    assert(false);
                }
                unreached()
            },
        };
        self.children.set(pos as usize, node);
        proof {
            lemma_count_some_update(pre.children@, W as int, pos as int, Some(node));
            assert forall|i: int|
                0 <= i < W && self.children@[i] is Some implies exists|b: int|
                0 <= b < 256 && #[trigger] self.child_ptr_indexes@[b] == Some(i as u8) by {
                if i == pos as int {
                    assert(self.child_ptr_indexes@[key as int] == Some(i as u8));
                } else {
                    let b = choose|b: int|
                        0 <= b < 256 && #[trigger] pre.child_ptr_indexes@[b] == Some(i as u8);
                    assert(self.child_ptr_indexes@[b] == Some(i as u8));
                }
            }
            assert forall|b: u8| b != key && pre.has_child(b) implies self.child(b) == pre.child(
                b,
            ) by {
                assert(pre.child_ptr_indexes@[b as int] != pre.child_ptr_indexes@[key as int]);
            }
        }
    }

    fn find_child(&self, key: u8) -> (r: Option<&N>) {
        match self.child_ptr_indexes.get(key as usize) {
            Some(pos) => {
                let p = *pos;
                self.children.get(p as usize)
            },
            None => None,
        }
    }

    fn delete_child(&mut self, key: u8) -> (r: Option<N>) {
        let ghost pre = *self;
        match self.child_ptr_indexes.erase(key as usize) {
            Some(pos) => {
                proof {
                    lemma_count_some_zero(pre.children@, W as int);
                    lemma_count_some_bounds(pre.children@, W as int);
                }
                let r = self.children.erase(pos as usize);
                self.num_children = self.num_children - 1;
                proof {
                    lemma_count_some_update(pre.children@, W as int, pos as int, None::<N>);
                    assert forall|i: int|
                        0 <= i < W && self.children@[i] is Some implies exists|b: int|
                        0 <= b < 256 && #[trigger] self.child_ptr_indexes@[b] == Some(i as u8) by {
                        assert(i != pos as int);
                        let b = choose|b: int|
                            0 <= b < 256 && #[trigger] pre.child_ptr_indexes@[b] == Some(i as u8);
                        assert(b != key as int);
                        assert(self.child_ptr_indexes@[b] == Some(i as u8));
                    }
                    assert forall|b: u8|
                        b != key && pre.has_child(b) implies self.child(b) == pre.child(b) by {
                        assert(pre.child_ptr_indexes@[b as int]
                            != pre.child_ptr_indexes@[key as int]);
                    }
                }
                r
            },
            None => {
                proof {
                    assert(self.child_ptr_indexes@ =~= pre.child_ptr_indexes@);
                }
                None
            },
        }
    }

    fn num_children(&self) -> (r: usize) {
        self.num_children as usize
    }

    fn width(&self) -> (r: usize) {
        W
    }

    proof fn lemma_num_in_range(&self) {
        lemma_count_some_bounds(self.children@, W as int);
    }

    proof fn lemma_empty_iff(&self) {
        lemma_count_some_zero(self.children@, W as int);
        if self.spec_num() == 0 {
            assert forall|b: u8| !self.has_child(b) by {
                if self.has_child(b) {
                    let i = self.child_ptr_indexes@[b as int].unwrap() as int;
                    assert(self.children@[i] is Some);
                }
            }
        } else {
            assert(!(forall|j: int| 0 <= j < W ==> self.children@[j] is None));
            let j = choose|j: int| !(0 <= j < W ==> self.children@[j] is None);
            let b = choose|b: int|
                0 <= b < 256 && #[trigger] self.child_ptr_indexes@[b] == Some(j as u8);
            assert(self.has_child(b as u8));
        }
    }
}

} // verus!
