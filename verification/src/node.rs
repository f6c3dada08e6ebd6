//! The trie node: a tagged union of a leaf and four child-storage widths,
//! together with the uniform child-container contract they all satisfy, and
//! the map model of the subtree below a node.

use vstd::prelude::*;
use crate::keys::Partial;
use crate::keyed_node::KeyedNode;
use crate::index_node::IndexNode;
use crate::direct_node::DirectNode;
use crate::leaf_node::NodeLeaf;

verus! {

broadcast use {crate::bit_array::lemma_bit_array_len, crate::bit_array::lemma_view_is_slots};

/// The uniform contract of a child container: a partial map from selector
/// bytes to child nodes with a bounded occupancy count.
///
/// `wf` is the container's internal invariant, `has_child` / `child` its
/// map model, `spec_num` the number of children, and `spec_width` its
/// capacity; every operation is specified point-wise against that model.
pub trait NodeTrait<N>: Sized {
    /// Internal invariant of the container.
    spec fn wf(&self) -> bool;

    /// Whether a child is stored under byte `b`.
    spec fn has_child(&self, b: u8) -> bool;

    /// The child stored under byte `b` (meaningful when `has_child(b)`).
    spec fn child(&self, b: u8) -> N;

    /// Number of children.
    spec fn spec_num(&self) -> int;

    /// Capacity of the container.
    spec fn spec_width(&self) -> int;

    /// Store a child under a byte not yet present.
    fn add_child(&mut self, key: u8, node: N)
        requires
            old(self).wf(),
            !old(self).has_child(key),
            old(self).spec_num() < old(self).spec_width(),
        ensures
            final(self).wf(),
            final(self).spec_width() == old(self).spec_width(),
            final(self).spec_num() == old(self).spec_num() + 1,
            forall|b: u8| final(self).has_child(b) == (b == key || old(self).has_child(b)),
            final(self).child(key) == node,
            forall|b: u8|
                b != key && old(self).has_child(b) ==> final(self).child(b) == old(self).child(b),
    ;

    /// Replace the child under a byte already present.
    fn update_child(&mut self, key: u8, node: N)
        requires
            old(self).wf(),
            old(self).has_child(key),
        ensures
            final(self).wf(),
            final(self).spec_width() == old(self).spec_width(),
            final(self).spec_num() == old(self).spec_num(),
            forall|b: u8| final(self).has_child(b) == old(self).has_child(b),
            final(self).child(key) == node,
            forall|b: u8|
                b != key && old(self).has_child(b) ==> final(self).child(b) == old(self).child(b),
    ;

    /// Borrow the child under `key`, if present.
    fn find_child(&self, key: u8) -> (r: Option<&N>)
        requires
            self.wf(),
        ensures
            (r is Some) == self.has_child(key),
            r matches Some(c) ==> *c == self.child(key),
    ;

    /// Remove and hand back the child under `key`, if present.
    fn delete_child(&mut self, key: u8) -> (r: Option<N>)
        requires
            old(self).wf(),
        ensures
            final(self).wf(),
            final(self).spec_width() == old(self).spec_width(),
            r is Some == old(self).has_child(key),
            r matches Some(c) ==> c == old(self).child(key),
            final(self).spec_num() == old(self).spec_num() - (if old(self).has_child(key) {
                1int
            } else {
                0int
            }),
            forall|b: u8| final(self).has_child(b) == (b != key && old(self).has_child(b)),
            forall|b: u8|
                b != key && old(self).has_child(b) ==> final(self).child(b) == old(self).child(b),
    ;

    /// Number of children.
    fn num_children(&self) -> (r: usize)
        requires
            self.wf(),
        ensures
            r == self.spec_num(),
    ;

    /// Capacity of the container.
    fn width(&self) -> (r: usize)
        ensures
            r == self.spec_width(),
    ;

    /// A container with no children has occupancy zero, and conversely.
    proof fn lemma_empty_iff(&self)
        requires
            self.wf(),
        ensures
            (self.spec_num() == 0) <==> (forall|b: u8| !self.has_child(b)),
    ;

    /// The occupancy count never exceeds the capacity.
    proof fn lemma_num_in_range(&self)
        requires
            self.wf(),
        ensures
            0 <= self.spec_num() <= self.spec_width(),
    ;
}


/// Insert every `(byte, child)` pair of a drained node into an empty
/// container of sufficient width.
pub(crate) fn add_all<N, M: NodeTrait<N>>(m: &mut M, pairs: Vec<(u8, N)>)
    requires
        old(m).wf(),
        old(m).spec_num() == 0,
        forall|b: u8| !old(m).has_child(b),
        pairs@.len() <= old(m).spec_width(),
        forall|k1: int, k2: int| 0 <= k1 < k2 < pairs@.len() ==> pairs@[k1].0 != pairs@[k2].0,
    ensures
        final(m).wf(),
        final(m).spec_width() == old(m).spec_width(),
        final(m).spec_num() == pairs@.len(),
        forall|b: u8|
            final(m).has_child(b) ==> exists|k: int|
                0 <= k < pairs@.len() && #[trigger] pairs@[k].0 == b,
        forall|k: int|
            #![trigger pairs@[k]]
            0 <= k < pairs@.len() ==> final(m).has_child(pairs@[k].0) && final(m).child(
                pairs@[k].0,
            ) == pairs@[k].1,
{
    let ghost orig = pairs@;
    let mut rest = pairs;
    loop
        invariant
            orig == pairs@,
            m.wf(),
            m.spec_width() == old(m).spec_width(),
            rest@.len() <= orig.len() <= m.spec_width(),
            rest@ == orig.take(rest@.len() as int),
            forall|k1: int, k2: int| 0 <= k1 < k2 < orig.len() ==> orig[k1].0 != orig[k2].0,
            m.spec_num() == orig.len() - rest@.len(),
            forall|b: u8|
                m.has_child(b) ==> exists|k: int|
                    rest@.len() <= k < orig.len() && #[trigger] orig[k].0 == b,
            forall|k: int|
                #![trigger orig[k]]
                rest@.len() <= k < orig.len() ==> m.has_child(orig[k].0) && m.child(orig[k].0)
                    == orig[k].1,
        decreases rest@.len(),
    {
        let ghost rlen = rest@.len() as int;
        match rest.pop() {
            Some((b, n)) => {
                proof {
                    assert(orig[rlen - 1] == (b, n));
                    assert(!m.has_child(b)) by {
                        if m.has_child(b) {
                            let k = choose|k: int|
                                rlen <= k < orig.len() && #[trigger] orig[k].0 == b;
                            assert(orig[rlen - 1].0 != orig[k].0);
                        }
                    }
                    assert(rest@ =~= orig.take(rlen - 1));
                }
                let ghost mpre = *m;
                m.add_child(b, n);
                proof {
                    assert forall|x: u8| m.has_child(x) implies exists|k: int|
                        rlen - 1 <= k < orig.len() && #[trigger] orig[k].0 == x by {
                        if x == b {
                            assert(orig[rlen - 1].0 == x);
                        } else {
                            assert(mpre.has_child(x));
                            let k = choose|k: int|
                                rlen <= k < orig.len() && #[trigger] orig[k].0 == x;
                            assert(rlen - 1 <= k < orig.len() && orig[k].0 == x);
                        }
                    }
                    assert forall|k: int|
                        #![trigger orig[k]]
                        rlen - 1 <= k < orig.len() implies m.has_child(orig[k].0) && m.child(
                            orig[k].0,
                        ) == orig[k].1 by {
                        if k == rlen - 1 {
                            assert(m.child(b) == n);
                        } else {
                            assert(orig[k].0 != b);
                            assert(mpre.has_child(orig[k].0) && mpre.child(orig[k].0)
                                == orig[k].1);
                        }
                    }
                }
            },
            None => {
                proof {
                    assert(rest@.len() == 0);
                }
                return ;
            },
        }
    }
}


/// A trie node: a compressed key fragment, the version-lock-obsolete word of
/// the optimistic lock protocol, and the tagged child storage.
pub struct Node<P: Partial, V> {
    pub(crate) prefix: P,
    pub(crate) version_lock_obsolete: u64,
    pub(crate) tn: TreeNode<P, V>,
}

/// The tagged child storage of a node.
pub enum TreeNode<P: Partial, V> {
    /// A freshly constructed or mid-replacement node with no contents.
    Empty,
    /// A leaf holding one value.
    Leaf(NodeLeaf<P, V>),
    /// Up to 4 children.
    Node4(KeyedNode<Node<P, V>, 4>),
    /// Up to 16 children.
    Node16(KeyedNode<Node<P, V>, 16>),
    /// Up to 48 children behind a byte-to-slot table.
    Node48(IndexNode<Node<P, V>, 48>),
    /// Up to 256 children indexed directly by byte.
    Node256(DirectNode<Node<P, V>>),
}

/// A version word at rest: not locked, not obsolete.
pub open spec fn version_at_rest(v: u64) -> bool {
    v % 4 == 0
}

/// Whether the node is one of the four inner representations.
pub open(crate) spec fn is_inner<P: Partial, V>(n: Node<P, V>) -> bool {
    n.tn is Node4 || n.tn is Node16 || n.tn is Node48 || n.tn is Node256
}

/// Whether the inner node's container invariant holds.
pub open(crate) spec fn n_cwf<P: Partial, V>(n: Node<P, V>) -> bool {
    match n.tn {
        TreeNode::Node4(m) => m.wf(),
        TreeNode::Node16(m) => m.wf(),
        TreeNode::Node48(m) => m.wf(),
        TreeNode::Node256(m) => m.wf(),
        _ => false,
    }
}

/// Whether the node stores a child under byte `b`.
pub open(crate) spec fn n_has<P: Partial, V>(n: Node<P, V>, b: u8) -> bool {
    match n.tn {
        TreeNode::Node4(m) => m.has_child(b),
        TreeNode::Node16(m) => m.has_child(b),
        TreeNode::Node48(m) => m.has_child(b),
        TreeNode::Node256(m) => m.has_child(b),
        _ => false,
    }
}

/// The child stored under byte `b` (meaningful when `n_has(n, b)`).
pub open(crate) spec fn n_child<P: Partial, V>(n: Node<P, V>, b: u8) -> Node<P, V> {
    match n.tn {
        TreeNode::Node4(m) => m.child(b),
        TreeNode::Node16(m) => m.child(b),
        TreeNode::Node48(m) => m.child(b),
        TreeNode::Node256(m) => m.child(b),
        _ => vstd::pervasive::arbitrary(),
    }
}

/// Number of children of the node.
pub open(crate) spec fn n_num<P: Partial, V>(n: Node<P, V>) -> int {
    match n.tn {
        TreeNode::Node4(m) => m.spec_num(),
        TreeNode::Node16(m) => m.spec_num(),
        TreeNode::Node48(m) => m.spec_num(),
        TreeNode::Node256(m) => m.spec_num(),
        _ => 0,
    }
}

/// Capacity of the node's child storage.
pub open(crate) spec fn n_width<P: Partial, V>(n: Node<P, V>) -> int {
    match n.tn {
        TreeNode::Node4(_) => 4,
        TreeNode::Node16(_) => 16,
        TreeNode::Node48(_) => 48,
        TreeNode::Node256(_) => 256,
        _ => 0,
    }
}

/// The child slot sequence of the node.
pub open(crate) spec fn n_slots<P: Partial, V>(n: Node<P, V>) -> Seq<Option<Node<P, V>>> {
    match n.tn {
        TreeNode::Node4(m) => m.children.slots@,
        TreeNode::Node16(m) => m.children.slots@,
        TreeNode::Node48(m) => m.children.slots@,
        TreeNode::Node256(m) => m.children.slots@,
        _ => Seq::empty(),
    }
}

/// The shape of the node, as a tag.
pub open(crate) spec fn n_type<P: Partial, V>(n: Node<P, V>) -> NodeType {
    match n.tn {
        TreeNode::Empty => NodeType::Empty,
        TreeNode::Leaf(_) => NodeType::Leaf,
        TreeNode::Node4(_) => NodeType::Node4,
        TreeNode::Node16(_) => NodeType::Node16,
        TreeNode::Node48(_) => NodeType::Node48,
        TreeNode::Node256(_) => NodeType::Node256,
    }
}

/// The key/value entries of the subtree rooted at `n`: every key is the
/// node's own prefix followed by a key of some child's entries, and the
/// child's key begins with its selector byte.
pub open(crate) spec fn entries<P: Partial, V>(n: Node<P, V>) -> Map<Seq<u8>, V>
    decreases n,
{
    match n.tn {
        TreeNode::Empty => Map::empty(),
        TreeNode::Leaf(l) => Map::empty().insert(n.prefix@, l.value.unwrap()),
        TreeNode::Node4(m) => prefixed(n.prefix@, slots_entries(m.children.slots@)),
        TreeNode::Node16(m) => prefixed(n.prefix@, slots_entries(m.children.slots@)),
        TreeNode::Node48(m) => prefixed(n.prefix@, slots_entries(m.children.slots@)),
        TreeNode::Node256(m) => prefixed(n.prefix@, slots_entries(m.children.slots@)),
    }
}

/// The union of the entries of every occupied slot.
pub open(crate) spec fn slots_entries<P: Partial, V>(slots: Seq<Option<Node<P, V>>>) -> Map<
    Seq<u8>,
    V,
>
    decreases slots,
{
    if slots.len() == 0 {
        Map::empty()
    } else {
        match slots[slots.len() - 1] {
            Some(c) => slots_entries(slots.subrange(0, slots.len() - 1)).union_prefer_right(
                entries(c),
            ),
            None => slots_entries(slots.subrange(0, slots.len() - 1)),
        }
    }
}

/// Every key of `m`, prefixed with `p`.
pub open(crate) spec fn prefixed<V>(p: Seq<u8>, m: Map<Seq<u8>, V>) -> Map<Seq<u8>, V> {
    Map::new(
        |k: Seq<u8>|
            k.len() >= p.len() && k.subrange(0, p.len() as int) == p && m.dom().contains(
                k.skip(p.len() as int),
            ),
        |k: Seq<u8>| m[k.skip(p.len() as int)],
    )
}

/// Every node stored in an occupied slot is well-formed.
pub open(crate) spec fn wf_slots<P: Partial, V>(slots: Seq<Option<Node<P, V>>>) -> bool
    decreases slots,
{
    if slots.len() == 0 {
        true
    } else {
        let rest_ok = wf_slots(slots.subrange(0, slots.len() - 1));
        match slots[slots.len() - 1] {
            Some(c) => rest_ok && wf_node(c),
            None => rest_ok,
        }
    }
}

/// Well-formedness of the subtree rooted at `n`: the version word is at
/// rest; a leaf holds a value; an inner node's container invariant holds, it
/// has at least one child, every child is a well-formed non-empty node whose
/// prefix begins with its selector byte.
pub open(crate) spec fn wf_node<P: Partial, V>(n: Node<P, V>) -> bool
    decreases n,
{
    version_at_rest(n.version_lock_obsolete) && match n.tn {
        TreeNode::Empty => true,
        TreeNode::Leaf(l) => l.value is Some,
        TreeNode::Node4(m) => wf_inner_at(n) && wf_slots(m.children.slots@),
        TreeNode::Node16(m) => wf_inner_at(n) && wf_slots(m.children.slots@),
        TreeNode::Node48(m) => wf_inner_at(n) && wf_slots(m.children.slots@),
        TreeNode::Node256(m) => wf_inner_at(n) && wf_slots(m.children.slots@),
    }
}

/// The non-recursive part of an inner node's well-formedness.
pub open(crate) spec fn wf_inner_at<P: Partial, V>(n: Node<P, V>) -> bool {
    &&& n_cwf(n)
    &&& n_num(n) >= 1
    &&& forall|b: u8|
        #[trigger] n_has(n, b) ==> n_child(n, b).prefix@.len() > 0 && n_child(n, b).prefix@[0]
            == b && !(n_child(n, b).tn is Empty)
}

/// `wf_slots` holds exactly when each occupied slot holds a well-formed node.
pub(crate) proof fn lemma_wf_slots_index<P: Partial, V>(slots: Seq<Option<Node<P, V>>>)
    ensures
        wf_slots(slots) <==> (forall|i: int|
            0 <= i < slots.len() && slots[i] is Some ==> wf_node(#[trigger] slots[i].unwrap())),
    decreases slots,
{
    if slots.len() > 0 {
        lemma_wf_slots_index(slots.subrange(0, slots.len() - 1));
        let rest = slots.subrange(0, slots.len() - 1);
        if wf_slots(slots) {
            assert forall|i: int|
                0 <= i < slots.len() && slots[i] is Some implies wf_node(
                #[trigger] slots[i].unwrap(),
            ) by {
                if i < slots.len() - 1 {
                    assert(rest[i] == slots[i]);
                    assert(wf_node(rest[i].unwrap()));
                }
            }
        }
        if forall|i: int|
            0 <= i < slots.len() && slots[i] is Some ==> wf_node(#[trigger] slots[i].unwrap()) {
            assert forall|i: int|
                0 <= i < rest.len() && rest[i] is Some implies wf_node(
                #[trigger] rest[i].unwrap(),
            ) by {
                assert(rest[i] == slots[i]);
            }
            assert(wf_slots(rest));
        }
    }
}

/// Membership and lookup in the union of slot entries: a key is present
/// exactly when some occupied slot's subtree contains it, and the union's
/// value at it comes from such a slot.
pub(crate) proof fn lemma_slots_entries_mem<P: Partial, V>(
    slots: Seq<Option<Node<P, V>>>,
    k: Seq<u8>,
)
    ensures
        slots_entries(slots).dom().contains(k) <==> (exists|i: int|
            0 <= i < slots.len() && #[trigger] slots[i] is Some && entries(
                slots[i].unwrap(),
            ).dom().contains(k)),
        slots_entries(slots).dom().contains(k) ==> exists|i: int|
            0 <= i < slots.len() && #[trigger] slots[i] is Some && entries(
                slots[i].unwrap(),
            ).dom().contains(k) && slots_entries(slots)[k] == entries(slots[i].unwrap())[k],
    decreases slots,
{
    if slots.len() > 0 {
        let rest = slots.subrange(0, slots.len() - 1);
        lemma_slots_entries_mem(rest, k);
        let last = slots.len() - 1;
        if slots_entries(slots).dom().contains(k) {
            if slots[last] is Some && entries(slots[last].unwrap()).dom().contains(k) {
                assert(slots_entries(slots)[k] == entries(slots[last].unwrap())[k]);
            } else {
                assert(slots_entries(rest).dom().contains(k));
                let i = choose|i: int|
                    0 <= i < rest.len() && #[trigger] rest[i] is Some && entries(
                        rest[i].unwrap(),
                    ).dom().contains(k) && slots_entries(rest)[k] == entries(rest[i].unwrap())[k];
                assert(slots[i] == rest[i]);
                assert(slots_entries(slots)[k] == entries(slots[i].unwrap())[k]);
            }
        }
        if exists|i: int|
            0 <= i < slots.len() && #[trigger] slots[i] is Some && entries(
                slots[i].unwrap(),
            ).dom().contains(k) {
            let i = choose|i: int|
                0 <= i < slots.len() && #[trigger] slots[i] is Some && entries(
                    slots[i].unwrap(),
                ).dom().contains(k);
            if i < last {
                assert(rest[i] == slots[i]);
                assert(slots_entries(rest).dom().contains(k));
            }
            assert(slots_entries(slots).dom().contains(k));
        }
    }
}

/// Every key of a subtree's entries extends the root node's prefix.
pub(crate) proof fn lemma_entries_prefix<P: Partial, V>(n: Node<P, V>, k: Seq<u8>)
    requires
        entries(n).dom().contains(k),
    ensures
        k.len() >= n.prefix@.len(),
        k.subrange(0, n.prefix@.len() as int) == n.prefix@,
{
    match n.tn {
        TreeNode::Leaf(_) => {
            assert(k == n.prefix@);
            assert(k.subrange(0, k.len() as int) =~= k);
        },
        _ => {},
    }
}

/// Unfolding a well-formed inner node: its container invariant holds, it has
/// a child, and every child is well-formed with the right selector byte.
pub(crate) proof fn lemma_wf_inner_unfold<P: Partial, V>(n: Node<P, V>)
    requires
        wf_node(n),
        is_inner(n),
    ensures
        n_cwf(n),
        n_num(n) >= 1,
        version_at_rest(n.version_lock_obsolete),
        forall|b: u8|
            #[trigger] n_has(n, b) ==> wf_node(n_child(n, b)) && n_child(n, b).prefix@.len() > 0
                && n_child(n, b).prefix@[0] == b && !(n_child(n, b).tn is Empty),
{
    lemma_wf_slots_index(n_slots(n));
    assert forall|b: u8| #[trigger] n_has(n, b) implies wf_node(n_child(n, b)) by {
        match n.tn {
            TreeNode::Node4(m) => {
                m.lemma_children_in_slots();
                assert(n_has(n, b) && n_child(n, b) == m.child(b));
                let i = choose|i: int|
                    0 <= i < m.children.slots@.len() && m.children.slots@[i] == Some(m.child(b));
                assert(n_slots(n) == m.children.slots@);
                assert(n_slots(n)[i].unwrap() == m.child(b));
                assert(wf_node(n_slots(n)[i].unwrap()));
            },
            TreeNode::Node16(m) => {
                m.lemma_children_in_slots();
                assert(n_has(n, b) && n_child(n, b) == m.child(b));
                let i = choose|i: int|
                    0 <= i < m.children.slots@.len() && m.children.slots@[i] == Some(m.child(b));
                assert(n_slots(n) == m.children.slots@);
                assert(n_slots(n)[i].unwrap() == m.child(b));
                assert(wf_node(n_slots(n)[i].unwrap()));
            },
            TreeNode::Node48(m) => {
                m.lemma_children_in_slots();
                assert(n_has(n, b) && n_child(n, b) == m.child(b));
                let i = choose|i: int|
                    0 <= i < m.children.slots@.len() && m.children.slots@[i] == Some(m.child(b));
                assert(n_slots(n) == m.children.slots@);
                assert(n_slots(n)[i].unwrap() == m.child(b));
                assert(wf_node(n_slots(n)[i].unwrap()));
            },
            TreeNode::Node256(m) => {
                m.lemma_children_in_slots();
                assert(n_has(n, b) && n_child(n, b) == m.child(b));
                let i = choose|i: int|
                    0 <= i < m.children.slots@.len() && m.children.slots@[i] == Some(m.child(b));
                assert(n_slots(n) == m.children.slots@);
                assert(n_slots(n)[i].unwrap() == m.child(b));
                assert(wf_node(n_slots(n)[i].unwrap()));
            },
            _ => {},
        }
    }
}

/// Folding an inner node's well-formedness from facts about its child map.
pub(crate) proof fn lemma_wf_inner_fold<P: Partial, V>(n: Node<P, V>)
    requires
        is_inner(n),
        n_cwf(n),
        n_num(n) >= 1,
        version_at_rest(n.version_lock_obsolete),
        forall|b: u8|
            #[trigger] n_has(n, b) ==> wf_node(n_child(n, b)) && n_child(n, b).prefix@.len() > 0
                && n_child(n, b).prefix@[0] == b && !(n_child(n, b).tn is Empty),
    ensures
        wf_node(n),
{
    lemma_wf_slots_index(n_slots(n));
    assert forall|i: int|
        0 <= i < n_slots(n).len() && n_slots(n)[i] is Some implies wf_node(
        #[trigger] n_slots(n)[i].unwrap(),
    ) by {
        match n.tn {
            TreeNode::Node4(m) => {
                m.lemma_children_in_slots();
                assert(n_slots(n) == m.children.slots@);
                let b = choose|b: u8|
                    m.has_child(b) && Some(m.child(b)) == m.children.slots@[i];
                assert(n_has(n, b) && n_child(n, b) == m.child(b));
                assert(n_slots(n)[i].unwrap() == n_child(n, b));
                assert(wf_node(n_slots(n)[i].unwrap()));
            },
            TreeNode::Node16(m) => {
                m.lemma_children_in_slots();
                assert(n_slots(n) == m.children.slots@);
                let b = choose|b: u8|
                    m.has_child(b) && Some(m.child(b)) == m.children.slots@[i];
                assert(n_has(n, b) && n_child(n, b) == m.child(b));
                assert(n_slots(n)[i].unwrap() == n_child(n, b));
                assert(wf_node(n_slots(n)[i].unwrap()));
            },
            TreeNode::Node48(m) => {
                m.lemma_children_in_slots();
                assert(n_slots(n) == m.children.slots@);
                let b = choose|b: u8|
                    m.has_child(b) && Some(m.child(b)) == m.children.slots@[i];
                assert(n_has(n, b) && n_child(n, b) == m.child(b));
                assert(n_slots(n)[i].unwrap() == n_child(n, b));
                assert(wf_node(n_slots(n)[i].unwrap()));
            },
            TreeNode::Node256(m) => {
                m.lemma_children_in_slots();
                assert(n_slots(n) == m.children.slots@);
                let b = choose|b: u8|
                    m.has_child(b) && Some(m.child(b)) == m.children.slots@[i];
                assert(n_has(n, b) && n_child(n, b) == m.child(b));
                assert(n_slots(n)[i].unwrap() == n_child(n, b));
                assert(wf_node(n_slots(n)[i].unwrap()));
            },
            _ => {},
        }
    }
    assert(wf_slots(n_slots(n)));
}

/// The entry map of a well-formed inner node, one descent step at a time: a
/// key is present exactly when it extends the node prefix, continues with
/// the selector byte of a present child, and its remainder is present in
/// that child; its value is the child's value at the remainder.
pub(crate) proof fn lemma_entries_inner<P: Partial, V>(n: Node<P, V>, k: Seq<u8>)
    requires
        wf_node(n),
        is_inner(n),
    ensures
        entries(n).dom().contains(k) <==> (k.len() > n.prefix@.len() && k.subrange(
            0,
            n.prefix@.len() as int,
        ) == n.prefix@ && n_has(n, k[n.prefix@.len() as int]) && entries(
            n_child(n, k[n.prefix@.len() as int]),
        ).dom().contains(k.skip(n.prefix@.len() as int))),
        entries(n).dom().contains(k) ==> entries(n)[k] == entries(
            n_child(n, k[n.prefix@.len() as int]),
        )[k.skip(n.prefix@.len() as int)],
{
    let p = n.prefix@;
    let plen = p.len() as int;
    lemma_wf_inner_unfold(n);
    let slots = n_slots(n);
    assert(entries(n) == prefixed(p, slots_entries(slots)));
    lemma_slots_entries_mem(slots, k.skip(plen));
    if entries(n).dom().contains(k) {
        let t = k.skip(plen);
        assert(slots_entries(slots).dom().contains(t));
        let i = choose|i: int|
            0 <= i < slots.len() && #[trigger] slots[i] is Some && entries(
                slots[i].unwrap(),
            ).dom().contains(t) && slots_entries(slots)[k.skip(plen)] == entries(
                slots[i].unwrap(),
            )[t];
        let c = slots[i].unwrap();
        lemma_slot_is_child(n, i);
        let b = choose|b: u8| n_has(n, b) && n_child(n, b) == c;
        lemma_entries_prefix(c, t);
        assert(t[0] == c.prefix@[0]);
        assert(t.len() > 0);
        assert(k.len() > plen);
        assert(b == t[0]);
        assert(t[0] == k[plen]);
        assert(entries(n)[k] == entries(n_child(n, k[plen]))[t]);
    }
    if k.len() > plen && k.subrange(0, plen) == p && n_has(n, k[plen]) && entries(
        n_child(n, k[plen]),
    ).dom().contains(k.skip(plen)) {
        let t = k.skip(plen);
        let b = k[plen];
        let c = n_child(n, b);
        lemma_child_in_slot(n, b);
        let i = choose|i: int| 0 <= i < slots.len() && #[trigger] slots[i] == Some(c);
        assert(slots[i] is Some && entries(slots[i].unwrap()).dom().contains(t));
        assert(slots_entries(slots).dom().contains(t));
        assert(entries(n).dom().contains(k));
    }
}

/// An occupied slot holds the child of some selector byte.
proof fn lemma_slot_is_child<P: Partial, V>(n: Node<P, V>, i: int)
    requires
        is_inner(n),
        n_cwf(n),
        0 <= i < n_slots(n).len(),
        n_slots(n)[i] is Some,
    ensures
        exists|b: u8| n_has(n, b) && n_child(n, b) == n_slots(n)[i].unwrap(),
{
    match n.tn {
        TreeNode::Node4(m) => {
            m.lemma_children_in_slots();
            let b = choose|b: u8| m.has_child(b) && Some(m.child(b)) == m.children.slots@[i];
            assert(n_has(n, b) && n_child(n, b) == n_slots(n)[i].unwrap());
        },
        TreeNode::Node16(m) => {
            m.lemma_children_in_slots();
            let b = choose|b: u8| m.has_child(b) && Some(m.child(b)) == m.children.slots@[i];
            assert(n_has(n, b) && n_child(n, b) == n_slots(n)[i].unwrap());
        },
        TreeNode::Node48(m) => {
            m.lemma_children_in_slots();
            let b = choose|b: u8| m.has_child(b) && Some(m.child(b)) == m.children.slots@[i];
            assert(n_has(n, b) && n_child(n, b) == n_slots(n)[i].unwrap());
        },
        TreeNode::Node256(m) => {
            m.lemma_children_in_slots();
            let b = choose|b: u8| m.has_child(b) && Some(m.child(b)) == m.children.slots@[i];
            assert(n_has(n, b) && n_child(n, b) == n_slots(n)[i].unwrap());
        },
        _ => {},
    }
}

/// The child of a present selector byte sits in some slot.
proof fn lemma_child_in_slot<P: Partial, V>(n: Node<P, V>, b: u8)
    requires
        is_inner(n),
        n_cwf(n),
        n_has(n, b),
    ensures
        exists|i: int|
            0 <= i < n_slots(n).len() && #[trigger] n_slots(n)[i] == Some(n_child(n, b)),
{
    match n.tn {
        TreeNode::Node4(m) => {
            m.lemma_children_in_slots();
            assert(n_slots(n) == m.children.slots@);
            assert(n_has(n, b) && n_child(n, b) == m.child(b));
            let i = choose|i: int|
                0 <= i < m.children.slots@.len() && m.children.slots@[i] == Some(m.child(b));
            assert(n_slots(n)[i] == Some(n_child(n, b)));
        },
        TreeNode::Node16(m) => {
            m.lemma_children_in_slots();
            assert(n_slots(n) == m.children.slots@);
            assert(n_has(n, b) && n_child(n, b) == m.child(b));
            let i = choose|i: int|
                0 <= i < m.children.slots@.len() && m.children.slots@[i] == Some(m.child(b));
            assert(n_slots(n)[i] == Some(n_child(n, b)));
        },
        TreeNode::Node48(m) => {
            m.lemma_children_in_slots();
            assert(n_slots(n) == m.children.slots@);
            assert(n_has(n, b) && n_child(n, b) == m.child(b));
            let i = choose|i: int|
                0 <= i < m.children.slots@.len() && m.children.slots@[i] == Some(m.child(b));
            assert(n_slots(n)[i] == Some(n_child(n, b)));
        },
        TreeNode::Node256(m) => {
            m.lemma_children_in_slots();
            assert(n_slots(n) == m.children.slots@);
            assert(n_has(n, b) && n_child(n, b) == m.child(b));
            let i = choose|i: int|
                0 <= i < m.children.slots@.len() && m.children.slots@[i] == Some(m.child(b));
            assert(n_slots(n)[i] == Some(n_child(n, b)));
        },
        _ => {},
    }
}


impl<P: Partial, V> Node<P, V> {
    /// The node's compressed key fragment, as a spec value.
    pub open(crate) spec fn spec_prefix(&self) -> Seq<u8> {
        self.prefix@
    }

    /// The node's version word, as a spec value.
    pub open(crate) spec fn spec_version(&self) -> u64 {
        self.version_lock_obsolete
    }

    /// The node's child storage, as a spec value.
    pub open(crate) spec fn spec_tn(&self) -> TreeNode<P, V> {
        self.tn
    }

    /// A fresh inner node of the given shape with no children.
    pub fn new(node_type: NodeType, prefix: P) -> (r: Self)
        requires
            node_type == NodeType::Node4 || node_type == NodeType::Node16 || node_type
                == NodeType::Node48 || node_type == NodeType::Node256,
        ensures
            is_inner(r),
            n_cwf(r),
            n_num(r) == 0,
            forall|b: u8| !n_has(r, b),
            r.spec_prefix() == prefix@,
            n_type(r) == node_type,
            version_at_rest(r.spec_version()),
            wf_slots(n_slots(r)),
    {
        let tn = match node_type {
            NodeType::Node4 => TreeNode::Node4(KeyedNode::new()),
            NodeType::Node16 => TreeNode::Node16(KeyedNode::new()),
            NodeType::Node48 => TreeNode::Node48(IndexNode::new()),
            NodeType::Node256 => TreeNode::Node256(DirectNode::new()),
            _ => TreeNode::Empty,
        };
        let r = Node { prefix, version_lock_obsolete: 0, tn };
        proof {
            match &r.tn {
                TreeNode::Node4(m) => {
                    m.lemma_empty_slots();
                },
                TreeNode::Node16(m) => {
                    m.lemma_empty_slots();
                },
                TreeNode::Node48(m) => {
                    m.lemma_empty_slots();
                },
                TreeNode::Node256(m) => {
                    m.lemma_empty_slots();
                },
                _ => {},
            }
            lemma_wf_slots_index(n_slots(r));
        }
        r
    }

    /// A leaf holding `value` under the remaining key fragment `prefix`.
    pub fn new_leaf(prefix: P, value: V) -> (r: Self)
        ensures
            wf_node(r),
            n_type(r) == NodeType::Leaf,
            r.spec_prefix() == prefix@,
            entries(r) == Map::<Seq<u8>, V>::empty().insert(prefix@, value),
    {
        let kay = prefix.partial_after(0);
        proof {
            assert(kay@ =~= prefix@);
        }
        Node {
            prefix,
            version_lock_obsolete: 0,
            tn: TreeNode::Leaf(NodeLeaf { kay, value: Some(value) }),
        }
    }

    /// A fresh root: an empty node with an empty prefix.
    pub fn empty_leaf() -> (r: Self)
        ensures
            wf_node(r),
            n_type(r) == NodeType::Empty,
            r.spec_prefix() == Seq::<u8>::empty(),
            entries(r) == Map::<Seq<u8>, V>::empty(),
    {
        Node { prefix: P::empty(), version_lock_obsolete: 0, tn: TreeNode::Empty }
    }

    /// Overwrite the version word.
    pub fn set_version(&mut self, version: u64)
        ensures
            final(self).spec_version() == version,
            final(self).spec_prefix() == old(self).spec_prefix(),
            final(self).spec_tn() == old(self).spec_tn(),
    {
        self.version_lock_obsolete = version;
    }

    /// The node's key fragment as bytes.
    pub fn prefix(&self) -> (r: &[u8])
        ensures
            r@ == self.spec_prefix(),
    {
        self.prefix.to_slice()
    }

    /// The stored value, if this node is a leaf holding one.
    pub fn value(&self) -> (r: Option<&V>)
        ensures
            (r is Some) == (leaf_value(*self) is Some),
            r matches Some(v) ==> leaf_value(*self) == Some(*v),
    {
        match &self.tn {
            TreeNode::Leaf(l) => l.value_ref(),
            _ => None,
        }
    }

    /// The stored value, mutably, if this node is a leaf holding one.
    pub fn value_mut(&mut self) -> (r: Option<&mut V>)
        ensures
            (r is Some) == (leaf_value(*old(self)) is Some),
            r is None ==> *final(self) == *old(self),
            r matches Some(m) ==> leaf_value(*old(self)) == Some(*m) && final(self).spec_prefix()
                == old(self).spec_prefix() && final(self).spec_version() == old(
                self,
            ).spec_version() && n_type(*final(self)) == NodeType::Leaf && leaf_value(
                *final(self),
            ) == Some(*final(m)) && leaf_kay(*final(self)) == leaf_kay(*old(self)),
    {
        match &mut self.tn {
            TreeNode::Leaf(l) => l.value_mut(),
            _ => None,
        }
    }

    /// Take the stored value out of a leaf.
    pub(crate) fn take_value(&mut self) -> (r: Option<V>)
        ensures
            r == leaf_value(*old(self)),
            final(self).prefix == old(self).prefix,
            final(self).version_lock_obsolete == old(self).version_lock_obsolete,
            n_type(*final(self)) == n_type(*old(self)),
            r is Some ==> n_type(*old(self)) == NodeType::Leaf && leaf_value(*final(self))
                is None,
            r is None ==> *final(self) == *old(self),
    {
        match &mut self.tn {
            TreeNode::Leaf(l) => l.value.take(),
            _ => None,
        }
    }

    /// Replace the stored value of a leaf, handing back the previous one.
    pub(crate) fn replace_value(&mut self, value: V) -> (r: V)
        requires
            n_type(*old(self)) == NodeType::Leaf,
            leaf_value(*old(self)) is Some,
        ensures
            n_type(*final(self)) == NodeType::Leaf,
            leaf_value(*final(self)) == Some(value),
            final(self).prefix == old(self).prefix,
            final(self).version_lock_obsolete == old(self).version_lock_obsolete,
            Some(r) == leaf_value(*old(self)),
            entries(*final(self)) == entries(*old(self)).insert(old(self).prefix@, value),
    {
        match &mut self.tn {
            TreeNode::Leaf(l) => {
                let prev = l.value.take();
                l.value = Some(value);
                proof {
                    assert(entries(*self) =~= entries(*old(self)).insert(
                        old(self).prefix@,
                        value,
                    ));
                }
                prev.unwrap()
            },
            _ => {
                proof {
                    assert(false);
                }
                unreached()
            },
        }
    }

    /// Borrow the child stored under `key`.
    pub fn find_child(&self, key: u8) -> (r: Option<&Node<P, V>>)
        requires
            n_cwf(*self) || !is_inner(*self),
        ensures
            (r is Some) == n_has(*self, key),
            r matches Some(c) ==> *c == n_child(*self, key),
    {
        match &self.tn {
            TreeNode::Node4(m) => m.find_child(key),
            TreeNode::Node16(m) => m.find_child(key),
            TreeNode::Node48(m) => m.find_child(key),
            TreeNode::Node256(m) => m.find_child(key),
            _ => None,
        }
    }

    /// Borrow the child under `key` mutably, if present. The node afterwards
    /// equals the node before with that child replaced by whatever the
    /// caller left behind the reference.
    pub fn find_child_mut(&mut self, key: u8) -> (r: Option<&mut Node<P, V>>)
        requires
            n_cwf(*old(self)) || !is_inner(*old(self)),
        ensures
            (r is Some) == n_has(*old(self), key),
            r is None ==> *final(self) == *old(self),
            r matches Some(m) ==> *m == n_child(*old(self), key) && n_cwf(*final(self))
                && final(self).spec_prefix() == old(self).spec_prefix()
                && final(self).spec_version() == old(self).spec_version() && n_type(*final(self))
                == n_type(*old(self)) && n_num(*final(self)) == n_num(*old(self)) && (forall|
                b: u8,
            |
                n_has(*final(self), b) == n_has(*old(self), b)) && n_child(*final(self), key)
                == *final(m) && (forall|b: u8|
                b != key && n_has(*old(self), b) ==> n_child(*final(self), b) == n_child(
                    *old(self),
                    b,
                )),
    {
        match &mut self.tn {
            TreeNode::Node4(m) => m.find_child_mut(key),
            TreeNode::Node16(m) => m.find_child_mut(key),
            TreeNode::Node48(m) => m.find_child_mut(key),
            TreeNode::Node256(m) => m.find_child_mut(key),
            _ => None,
        }
    }

    /// Remove and hand back the child under `key` without any width change.
    pub(crate) fn take_child(&mut self, key: u8) -> (r: Option<Node<P, V>>)
        requires
            n_cwf(*old(self)),
        ensures
            n_cwf(*final(self)),
            final(self).prefix == old(self).prefix,
            final(self).version_lock_obsolete == old(self).version_lock_obsolete,
            n_type(*final(self)) == n_type(*old(self)),
            (r is Some) == n_has(*old(self), key),
            r matches Some(c) ==> c == n_child(*old(self), key),
            n_num(*final(self)) == n_num(*old(self)) - (if n_has(*old(self), key) {
                1int
            } else {
                0int
            }),
            forall|b: u8| n_has(*final(self), b) == (b != key && n_has(*old(self), b)),
            forall|b: u8|
                b != key && n_has(*old(self), b) ==> n_child(*final(self), b) == n_child(
                    *old(self),
                    b,
                ),
    {
        match &mut self.tn {
            TreeNode::Node4(m) => m.delete_child(key),
            TreeNode::Node16(m) => m.delete_child(key),
            TreeNode::Node48(m) => m.delete_child(key),
            TreeNode::Node256(m) => m.delete_child(key),
            _ => {
                proof {
                    assert(false);
                }
                None
            },
        }
    }

    /// Store a child under a byte not yet present; the node must have room.
    pub fn add_child(&mut self, key: u8, node: Node<P, V>)
        requires
            n_cwf(*old(self)),
            !n_has(*old(self), key),
            n_num(*old(self)) < n_width(*old(self)),
        ensures
            n_cwf(*final(self)),
            final(self).spec_prefix() == old(self).spec_prefix(),
            final(self).spec_version() == old(self).spec_version(),
            n_type(*final(self)) == n_type(*old(self)),
            n_num(*final(self)) == n_num(*old(self)) + 1,
            forall|b: u8| n_has(*final(self), b) == (b == key || n_has(*old(self), b)),
            n_child(*final(self), key) == node,
            forall|b: u8|
                b != key && n_has(*old(self), b) ==> n_child(*final(self), b) == n_child(
                    *old(self),
                    b,
                ),
    {
        match &mut self.tn {
            TreeNode::Node4(m) => m.add_child(key, node),
            TreeNode::Node16(m) => m.add_child(key, node),
            TreeNode::Node48(m) => m.add_child(key, node),
            TreeNode::Node256(m) => m.add_child(key, node),
            _ => {
                proof {
                    assert(false);
                }
            },
        }
    }

    /// Whether the child storage is at capacity.
    pub fn is_full(&self) -> (r: bool)
        requires
            n_cwf(*self),
        ensures
            r == (n_num(*self) >= n_width(*self)),
    {
        match &self.tn {
            TreeNode::Node4(m) => m.num_children() >= m.width(),
            TreeNode::Node16(m) => m.num_children() >= m.width(),
            TreeNode::Node48(m) => m.num_children() >= m.width(),
            TreeNode::Node256(m) => m.num_children() >= 256,
            _ => {
                proof {
                    assert(false);
                }
                true
            },
        }
    }

    /// Capacity of the child storage; zero for a leaf or empty node.
    pub fn capacity(&self) -> (r: usize)
        ensures
            r == n_width(*self),
    {
        match &self.tn {
            TreeNode::Node4(_) => 4,
            TreeNode::Node16(_) => 16,
            TreeNode::Node48(_) => 48,
            TreeNode::Node256(_) => 256,
            _ => 0,
        }
    }

    /// The node's current shape.
    pub fn node_type(&self) -> (r: NodeType)
        ensures
            r == n_type(*self),
    {
        match &self.tn {
            TreeNode::Node4(_) => NodeType::Node4,
            TreeNode::Node16(_) => NodeType::Node16,
            TreeNode::Node48(_) => NodeType::Node48,
            TreeNode::Node256(_) => NodeType::Node256,
            TreeNode::Leaf(_) => NodeType::Leaf,
            TreeNode::Empty => NodeType::Empty,
        }
    }

    /// Remaining room in the child storage.
    pub fn free(&self) -> (r: usize)
        requires
            is_inner(*self) ==> n_cwf(*self),
        ensures
            r == n_width(*self) - (if is_inner(*self) {
                n_num(*self)
            } else {
                0int
            }),
    {
        let c = self.capacity();
        let n = self.num_children();
        proof {
            match &self.tn {
                TreeNode::Node4(m) => m.lemma_num_in_range(),
                TreeNode::Node16(m) => m.lemma_num_in_range(),
                TreeNode::Node48(m) => m.lemma_num_in_range(),
                TreeNode::Node256(m) => m.lemma_num_in_range(),
                _ => {},
            }
        }
        c - n
    }

    /// Number of children; zero for a leaf or empty node.
    pub fn num_children(&self) -> (r: usize)
        requires
            is_inner(*self) ==> n_cwf(*self),
        ensures
            r == (if is_inner(*self) {
                n_num(*self)
            } else {
                0int
            }),
    {
        match &self.tn {
            TreeNode::Node4(m) => m.num_children(),
            TreeNode::Node16(m) => m.num_children(),
            TreeNode::Node48(m) => m.num_children(),
            TreeNode::Node256(m) => m.num_children(),
            _ => 0,
        }
    }

    /// Replace this node's contents and prefix with another node's; the
    /// version word stays.
    pub fn change(&mut self, node: Node<P, V>)
        ensures
            final(self).spec_tn() == node.spec_tn(),
            final(self).spec_prefix() == node.spec_prefix(),
            final(self).spec_version() == old(self).spec_version(),
    {
        let Node { prefix, version_lock_obsolete: _, tn } = node;
        self.tn = tn;
        self.prefix = prefix;
    }

    /// Grow the child storage to the next wider representation, keeping
    /// every child.
    pub(crate) fn grow(&mut self)
        requires
            n_cwf(*old(self)),
            is_inner(*old(self)),
            !(n_type(*old(self)) == NodeType::Node256),
        ensures
            n_cwf(*final(self)),
            is_inner(*final(self)),
            final(self).prefix == old(self).prefix,
            final(self).version_lock_obsolete == old(self).version_lock_obsolete,
            n_num(*final(self)) == n_num(*old(self)),
            n_type(*old(self)) == NodeType::Node4 ==> n_type(*final(self)) == NodeType::Node16,
            n_type(*old(self)) == NodeType::Node16 ==> n_type(*final(self)) == NodeType::Node48,
            n_type(*old(self)) == NodeType::Node48 ==> n_type(*final(self)) == NodeType::Node256,
            n_width(*final(self)) > n_width(*old(self)),
            forall|b: u8| n_has(*final(self), b) == n_has(*old(self), b),
            forall|b: u8|
                n_has(*old(self), b) ==> n_child(*final(self), b) == n_child(*old(self), b),
    {
        let mut tmp = TreeNode::Empty;
        core::mem::swap(&mut tmp, &mut self.tn);
        match tmp {
            TreeNode::Node4(mut m) => {
                proof {
                    m.lemma_num_in_range();
                }
                let nm = KeyedNode::<Node<P, V>, 16>::from_resized_grow(&mut m);
                self.tn = TreeNode::Node16(nm);
            },
            TreeNode::Node16(mut m) => {
                proof {
                    m.lemma_num_in_range();
                }
                let nm = IndexNode::<Node<P, V>, 48>::from_keyed(&mut m);
                self.tn = TreeNode::Node48(nm);
            },
            TreeNode::Node48(mut m) => {
                proof {
                    m.lemma_num_in_range();
                }
                let nm = DirectNode::from_indexed(&mut m);
                self.tn = TreeNode::Node256(nm);
            },
            other => {
                proof {
                    assert(false);
                }
                self.tn = other;
            },
        }
    }

    /// Shrink the child storage to the next narrower representation, keeping
    /// every child; the children must fit.
    pub(crate) fn shrink(&mut self)
        requires
            n_cwf(*old(self)),
            is_inner(*old(self)),
            !(n_type(*old(self)) == NodeType::Node4),
            n_type(*old(self)) == NodeType::Node16 ==> n_num(*old(self)) <= 4,
            n_type(*old(self)) == NodeType::Node48 ==> n_num(*old(self)) <= 16,
            n_type(*old(self)) == NodeType::Node256 ==> n_num(*old(self)) <= 48,
        ensures
            n_cwf(*final(self)),
            is_inner(*final(self)),
            final(self).prefix == old(self).prefix,
            final(self).version_lock_obsolete == old(self).version_lock_obsolete,
            n_num(*final(self)) == n_num(*old(self)),
            n_type(*old(self)) == NodeType::Node16 ==> n_type(*final(self)) == NodeType::Node4,
            n_type(*old(self)) == NodeType::Node48 ==> n_type(*final(self)) == NodeType::Node16,
            n_type(*old(self)) == NodeType::Node256 ==> n_type(*final(self)) == NodeType::Node48,
            n_width(*final(self)) < n_width(*old(self)),
            forall|b: u8| n_has(*final(self), b) == n_has(*old(self), b),
            forall|b: u8|
                n_has(*old(self), b) ==> n_child(*final(self), b) == n_child(*old(self), b),
    {
        let mut tmp = TreeNode::Empty;
        core::mem::swap(&mut tmp, &mut self.tn);
        match tmp {
            TreeNode::Node16(mut m) => {
                let nm = KeyedNode::<Node<P, V>, 4>::from_resized_shrink(&mut m);
                self.tn = TreeNode::Node4(nm);
            },
            TreeNode::Node48(mut m) => {
                let nm = KeyedNode::<Node<P, V>, 16>::from_indexed(&mut m);
                self.tn = TreeNode::Node16(nm);
            },
            TreeNode::Node256(mut m) => {
                let nm = IndexNode::<Node<P, V>, 48>::from_direct(&mut m);
                self.tn = TreeNode::Node48(nm);
            },
            other => {
                proof {
                    assert(false);
                }
                self.tn = other;
            },
        }
    }

    /// Remove the child under `key`, shrinking the representation when the
    /// resulting occupancy falls below the next narrower width: a width-16
    /// node drops to width 4 below 5 children, width 48 to 16 below 17, and
    /// width 256 to 48 below 49; a width-4 node never shrinks.
    pub fn delete_child(&mut self, key: u8) -> (r: Option<Node<P, V>>)
        requires
            n_cwf(*old(self)) || !is_inner(*old(self)),
        ensures
            final(self).spec_prefix() == old(self).spec_prefix(),
            final(self).spec_version() == old(self).spec_version(),
            !is_inner(*old(self)) ==> *final(self) == *old(self) && r is None,
            is_inner(*old(self)) ==> {
                let left = n_num(*old(self)) - (if n_has(*old(self), key) {
                    1int
                } else {
                    0int
                });
                &&& n_cwf(*final(self))
                &&& is_inner(*final(self))
                &&& (r is Some) == n_has(*old(self), key)
                &&& (r matches Some(c) ==> c == n_child(*old(self), key))
                &&& n_num(*final(self)) == left
                &&& (n_type(*old(self)) == NodeType::Node4 ==> n_type(*final(self))
                    == NodeType::Node4)
                &&& (n_type(*old(self)) == NodeType::Node16 ==> n_type(*final(self)) == (if left
                    < 5 {
                    NodeType::Node4
                } else {
                    NodeType::Node16
                }))
                &&& (n_type(*old(self)) == NodeType::Node48 ==> n_type(*final(self)) == (if left
                    < 17 {
                    NodeType::Node16
                } else {
                    NodeType::Node48
                }))
                &&& (n_type(*old(self)) == NodeType::Node256 ==> n_type(*final(self)) == (if left
                    < 49 {
                    NodeType::Node48
                } else {
                    NodeType::Node256
                }))
                &&& (forall|b: u8| n_has(*final(self), b) == (b != key && n_has(*old(self), b)))
                &&& (forall|b: u8|
                    b != key && n_has(*old(self), b) ==> n_child(*final(self), b) == n_child(
                        *old(self),
                        b,
                    ))
            },
    {
        match &self.tn {
            TreeNode::Empty => {
                return None;
            },
            TreeNode::Leaf(_) => {
                return None;
            },
            _ => {},
        }
        let r = self.take_child(key);
        let nc = self.num_children();
        match self.node_type() {
            NodeType::Node16 => {
                if nc < 5 {
                    self.shrink();
                }
            },
            NodeType::Node48 => {
                if nc < 17 {
                    self.shrink();
                }
            },
            NodeType::Node256 => {
                if nc < 49 {
                    self.shrink();
                }
            },
            _ => {},
        }
        r
    }
}

/// The value stored in a leaf node, if the node is a leaf.
pub open(crate) spec fn leaf_value<P: Partial, V>(n: Node<P, V>) -> Option<V> {
    match n.tn {
        TreeNode::Leaf(l) => l.value,
        _ => None,
    }
}

/// The key fragment stored in a leaf node.
pub open(crate) spec fn leaf_kay<P: Partial, V>(n: Node<P, V>) -> Seq<u8> {
    match n.tn {
        TreeNode::Leaf(l) => l.kay@,
        _ => Seq::empty(),
    }
}


/// A sequence is a strict prefix of another.
pub open spec fn strict_prefix(a: Seq<u8>, b: Seq<u8>) -> bool {
    a.len() < b.len() && b.subrange(0, a.len() as int) == a
}

/// The union of all-empty slots is empty.
pub(crate) proof fn lemma_slots_entries_none<P: Partial, V>(slots: Seq<Option<Node<P, V>>>)
    requires
        forall|i: int| 0 <= i < slots.len() ==> slots[i] is None,
    ensures
        slots_entries(slots) == Map::<Seq<u8>, V>::empty(),
    decreases slots,
{
    if slots.len() > 0 {
        lemma_slots_entries_none(slots.subrange(0, slots.len() - 1));
    }
    assert(slots_entries(slots) =~= Map::<Seq<u8>, V>::empty());
}

/// An inner node with no children has no entries.
pub(crate) proof fn lemma_entries_no_children<P: Partial, V>(n: Node<P, V>)
    requires
        is_inner(n),
        n_cwf(n),
        n_num(n) == 0,
    ensures
        entries(n) == Map::<Seq<u8>, V>::empty(),
{
    match n.tn {
        TreeNode::Node4(m) => {
            m.lemma_empty_slots();
        },
        TreeNode::Node16(m) => {
            m.lemma_empty_slots();
        },
        TreeNode::Node48(m) => {
            m.lemma_empty_slots();
        },
        TreeNode::Node256(m) => {
            m.lemma_empty_slots();
        },
        _ => {},
    }
    lemma_slots_entries_none(n_slots(n));
    assert(entries(n) =~= Map::<Seq<u8>, V>::empty());
}

/// A full width-256 node stores a child under every byte.
pub(crate) proof fn lemma_full_256<P: Partial, V>(n: Node<P, V>, b: u8)
    requires
        n_type(n) == NodeType::Node256,
        n_cwf(n),
        n_num(n) >= 256,
    ensures
        n_has(n, b),
{
    match n.tn {
        TreeNode::Node256(m) => {
            m.lemma_num_in_range();
            m.lemma_full(b);
        },
        _ => {},
    }
}

/// A node with a well-formed container has no children exactly when its
/// count is zero.
pub(crate) proof fn lemma_n_empty<P: Partial, V>(n: Node<P, V>)
    requires
        n_cwf(n),
    ensures
        (n_num(n) == 0) <==> (forall|b: u8| !n_has(n, b)),
{
    match n.tn {
        TreeNode::Node4(m) => {
            m.lemma_empty_iff();
            assert forall|b: u8|
                #![trigger m.has_child(b)]
                #![trigger n_has(n, b)]
                m.has_child(b) == n_has(n, b) by {}
        },
        TreeNode::Node16(m) => {
            m.lemma_empty_iff();
            assert forall|b: u8|
                #![trigger m.has_child(b)]
                #![trigger n_has(n, b)]
                m.has_child(b) == n_has(n, b) by {}
        },
        TreeNode::Node48(m) => {
            m.lemma_empty_iff();
            assert forall|b: u8|
                #![trigger m.has_child(b)]
                #![trigger n_has(n, b)]
                m.has_child(b) == n_has(n, b) by {}
        },
        TreeNode::Node256(m) => {
            m.lemma_empty_iff();
            assert forall|b: u8|
                #![trigger m.has_child(b)]
                #![trigger n_has(n, b)]
                m.has_child(b) == n_has(n, b) by {}
        },
        _ => {},
    }
}

/// Two nodes with the same child storage agree on every child-map fact.
pub(crate) proof fn lemma_same_tn_cmap<P: Partial, V>(a: Node<P, V>, b: Node<P, V>)
    requires
        a.tn == b.tn,
    ensures
        forall|x: u8| n_has(a, x) == n_has(b, x),
        forall|x: u8| #[trigger] n_has(a, x) ==> n_child(a, x) == n_child(b, x),
        n_num(a) == n_num(b),
        n_cwf(a) == n_cwf(b),
        is_inner(a) == is_inner(b),
        n_type(a) == n_type(b),
{
    assert forall|x: u8| n_has(a, x) == n_has(b, x) && (n_has(a, x) ==> n_child(a, x) == n_child(
        b,
        x,
    )) by {}
}

/// Well-formedness never reads the node's own prefix.
pub(crate) proof fn lemma_wf_prefix_irrelevant<P: Partial, V>(a: Node<P, V>, b: Node<P, V>)
    requires
        a.tn == b.tn,
        version_at_rest(a.version_lock_obsolete) == version_at_rest(b.version_lock_obsolete),
    ensures
        wf_node(a) == wf_node(b),
{
    assert forall|x: u8| n_has(a, x) == n_has(b, x) && (n_has(a, x) ==> n_child(a, x) == n_child(
        b,
        x,
    )) by {}
    assert(n_cwf(a) == n_cwf(b) && n_num(a) == n_num(b));
    assert(wf_inner_at(a) == wf_inner_at(b));
}

/// The entry map never reads the version word.
pub(crate) proof fn lemma_entries_tn<P: Partial, V>(a: Node<P, V>, b: Node<P, V>)
    requires
        a.tn == b.tn,
        a.prefix@ == b.prefix@,
    ensures
        entries(a) == entries(b),
{
    match a.tn {
        TreeNode::Empty => {
            assert(entries(a) =~= entries(b));
        },
        TreeNode::Leaf(_) => {
            assert(entries(a) =~= entries(b));
        },
        _ => {
            assert(entries(a) =~= entries(b));
        },
    }
}

/// A node with a well-formed container holds at most its width in children.
pub(crate) proof fn lemma_n_num_in_range<P: Partial, V>(n: Node<P, V>)
    requires
        n_cwf(n),
    ensures
        0 <= n_num(n) <= n_width(n),
{
    match n.tn {
        TreeNode::Node4(m) => m.lemma_num_in_range(),
        TreeNode::Node16(m) => m.lemma_num_in_range(),
        TreeNode::Node48(m) => m.lemma_num_in_range(),
        TreeNode::Node256(m) => m.lemma_num_in_range(),
        _ => {},
    }
}

/// Shifting a node's prefix shifts every key of its entries by the same
/// amount: node `b` equals node `a` with the first `m` prefix bytes cut off.
pub(crate) proof fn lemma_entries_shift<P: Partial, V>(a: Node<P, V>, b: Node<P, V>, m: int)
    requires
        a.tn == b.tn,
        0 <= m <= a.prefix@.len(),
        b.prefix@ == a.prefix@.skip(m),
    ensures
        forall|k: Seq<u8>|
            #![trigger entries(a).dom().contains(k)]
            entries(a).dom().contains(k) ==> k.len() >= m && k.subrange(0, m) == a.prefix@.subrange(
                0,
                m,
            ) && entries(b).dom().contains(k.skip(m)) && entries(a)[k] == entries(b)[k.skip(m)],
        forall|t: Seq<u8>|
            #![trigger entries(b).dom().contains(t)]
            entries(b).dom().contains(t) ==> entries(a).dom().contains(
                a.prefix@.subrange(0, m) + t,
            ),
{
    let pa = a.prefix@;
    let pb = b.prefix@;
    assert forall|k: Seq<u8>|
        #![trigger entries(a).dom().contains(k)]
        entries(a).dom().contains(k) implies k.len() >= m && k.subrange(0, m) == pa.subrange(0, m)
        && entries(b).dom().contains(k.skip(m)) && entries(a)[k] == entries(b)[k.skip(m)] by {
        lemma_entries_prefix(a, k);
        assert(k.subrange(0, m) =~= pa.subrange(0, m));
        let t = k.skip(m);
        match a.tn {
            TreeNode::Leaf(_) => {
                assert(k == pa);
                assert(t =~= pb);
                assert(entries(b).dom().contains(pb));
            },
            TreeNode::Empty => {},
            _ => {
                assert(t.len() >= pb.len());
                assert(t.subrange(0, pb.len() as int) =~= pb);
                assert(t.skip(pb.len() as int) =~= k.skip(pa.len() as int));
                assert(entries(b).dom().contains(t));
                assert(entries(a)[k] == entries(b)[t]);
            },
        }
    }
    assert forall|t: Seq<u8>|
        #![trigger entries(b).dom().contains(t)]
        entries(b).dom().contains(t) implies entries(a).dom().contains(
        pa.subrange(0, m) + t,
    ) by {
        lemma_entries_prefix(b, t);
        let k = pa.subrange(0, m) + t;
        assert(k.skip(m) =~= t);
        match a.tn {
            TreeNode::Leaf(_) => {
                assert(t == pb);
                assert(k =~= pa);
            },
            TreeNode::Empty => {},
            _ => {
                assert(k.len() >= pa.len());
                assert(t.subrange(0, pb.len() as int) == pb);
                assert(k.subrange(0, pa.len() as int) =~= pa.subrange(0, m) + pb);
                assert(pa.subrange(0, m) + pa.skip(m) =~= pa);
                assert(k.subrange(0, pa.len() as int) == pa);
                assert(k.skip(pa.len() as int) =~= t.skip(pb.len() as int));
            },
        }
    }
}

/// A non-empty node holds at least one entry.
pub(crate) proof fn lemma_entries_nonempty<P: Partial, V>(n: Node<P, V>)
    requires
        wf_node(n),
        !(n.tn is Empty),
    ensures
        exists|k: Seq<u8>| entries(n).dom().contains(k),
    decreases n,
{
    match n.tn {
        TreeNode::Leaf(_) => {
            assert(entries(n).dom().contains(n.prefix@));
        },
        TreeNode::Empty => {},
        _ => {
            lemma_wf_inner_unfold(n);
            match n.tn {
                TreeNode::Node4(m) => {
                    m.lemma_empty_iff();
                    assert(m.spec_num() != 0);
                    assert(!(forall|b: u8| !m.has_child(b)));
                    let b0 = choose|b: u8| m.has_child(b);
                    assert(n_has(n, b0));
                },
                TreeNode::Node16(m) => {
                    m.lemma_empty_iff();
                    assert(m.spec_num() != 0);
                    assert(!(forall|b: u8| !m.has_child(b)));
                    let b0 = choose|b: u8| m.has_child(b);
                    assert(n_has(n, b0));
                },
                TreeNode::Node48(m) => {
                    m.lemma_empty_iff();
                    assert(m.spec_num() != 0);
                    assert(!(forall|b: u8| !m.has_child(b)));
                    let b0 = choose|b: u8| m.has_child(b);
                    assert(n_has(n, b0));
                },
                TreeNode::Node256(m) => {
                    m.lemma_empty_iff();
                    assert(m.spec_num() != 0);
                    assert(!(forall|b: u8| !m.has_child(b)));
                    let b0 = choose|b: u8| m.has_child(b);
                    assert(n_has(n, b0));
                },
                _ => {},
            }
            let b = choose|b: u8| n_has(n, b);
            lemma_child_in_slot(n, b);
            let i = choose|i: int|
                0 <= i < n_slots(n).len() && #[trigger] n_slots(n)[i] == Some(n_child(n, b));
            match n.tn {
                TreeNode::Node4(m) => {
                    lemma_entries_nonempty(m.children.slots@[i].unwrap());
                },
                TreeNode::Node16(m) => {
                    lemma_entries_nonempty(m.children.slots@[i].unwrap());
                },
                TreeNode::Node48(m) => {
                    lemma_entries_nonempty(m.children.slots@[i].unwrap());
                },
                TreeNode::Node256(m) => {
                    lemma_entries_nonempty(m.children.slots@[i].unwrap());
                },
                _ => {},
            }
            let k = choose|k: Seq<u8>| entries(n_child(n, b)).dom().contains(k);
            lemma_entries_inner(n, n.prefix@ + k);
            lemma_entries_prefix(n_child(n, b), k);
            assert((n.prefix@ + k).subrange(0, n.prefix@.len() as int) =~= n.prefix@);
            assert((n.prefix@ + k).skip(n.prefix@.len() as int) =~= k);
            assert(entries(n).dom().contains(n.prefix@ + k));
        },
    }
}

/// Dropping a shared prefix keeps the strict-prefix relation.
pub(crate) proof fn lemma_sp_extend(p: Seq<u8>, a: Seq<u8>, b: Seq<u8>)
    ensures
        strict_prefix(p + a, p + b) == strict_prefix(a, b),
{
    if strict_prefix(p + a, p + b) {
        assert(b.subrange(0, a.len() as int) =~= (p + b).subrange(
            p.len() as int,
            p.len() + a.len() as int,
        ));
        assert((p + a).skip(p.len() as int) =~= a);
        assert((p + b).subrange(p.len() as int, p.len() + a.len() as int) =~= (p + b).subrange(
            0,
            (p + a).len() as int,
        ).skip(p.len() as int));
        assert(b.subrange(0, a.len() as int) =~= a);
    }
    if strict_prefix(a, b) {
        assert((p + b).subrange(0, (p + a).len() as int) =~= p + b.subrange(0, a.len() as int));
    }
}

/// The shape a node currently has.
#[derive(Copy, Clone, PartialEq, Eq, Structural, Debug)]
pub enum NodeType {
    /// A freshly constructed or mid-replacement node with no contents.
    Empty,
    /// A leaf holding one value.
    Leaf,
    /// An inner node with up to 4 children.
    Node4,
    /// An inner node with up to 16 children.
    Node16,
    /// An inner node with up to 48 children.
    Node48,
    /// An inner node with up to 256 children.
    Node256,
}

} // verus!
