//! The tree algorithms: exact-match lookup, insert with path-compression
//! splitting and width growth, and remove with pruning and width shrink,
//! each verified against the map model of the tree's entries.

use vstd::prelude::*;
use crate::keys::{Partial, lemma_common_len};
use crate::node::{Node, TreeNode, NodeType, entries, wf_node, n_has, n_child, n_num, n_width,
    n_cwf, n_type, is_inner, strict_prefix, version_at_rest, lemma_entries_inner,
    lemma_entries_prefix, lemma_wf_inner_unfold, lemma_wf_inner_fold, lemma_entries_nonempty,
    lemma_entries_no_children, lemma_entries_shift, lemma_sp_extend, lemma_full_256, leaf_value};
use crate::utils::TreeError;

verus! {

/// What a key type must provide to index the tree.
pub trait PrefixTraits: Partial {

}

impl<T: Partial> PrefixTraits for T {

}

/// A key is admissible for a map when it is never a strict byte-prefix of a
/// stored key nor extends one: the order-preserving encodings guarantee this
/// for every pair of encoded keys.
pub open spec fn key_admissible<V>(k: Seq<u8>, m: Map<Seq<u8>, V>) -> bool {
    forall|e: Seq<u8>|
        #[trigger] m.dom().contains(e) ==> !strict_prefix(e, k) && !strict_prefix(k, e)
}

/// The adaptive radix tree: a single owned root node.
pub struct RawTree<P: PrefixTraits, V> {
    pub(crate) root: Node<P, V>,
}

impl<P: PrefixTraits, V> RawTree<P, V> {
    /// The tree's internal invariant: the root subtree is well-formed.
    pub open(crate) spec fn wf(&self) -> bool {
        wf_node(self.root)
    }

    /// The key/value map the tree holds.
    pub open(crate) spec fn spec_map(&self) -> Map<Seq<u8>, V> {
        entries(self.root)
    }

    /// An empty tree.
    pub fn new() -> (r: Self)
        ensures
            r.wf(),
            r.spec_map() == Map::<Seq<u8>, V>::empty(),
    {
        RawTree { root: Node::empty_leaf() }
    }
}

/// Admissibility descends from a node to the child selected by the key's
/// next byte.
proof fn lemma_admissible_child<P: PrefixTraits, V>(n: Node<P, V>, suf: Seq<u8>, b: u8)
    requires
        wf_node(n),
        is_inner(n),
        key_admissible(suf, entries(n)),
        suf.len() > n.prefix@.len(),
        suf.subrange(0, n.prefix@.len() as int) == n.prefix@,
        suf[n.prefix@.len() as int] == b,
        n_has(n, b),
    ensures
        key_admissible(suf.skip(n.prefix@.len() as int), entries(n_child(n, b))),
{
    let p = n.prefix@;
    let plen = p.len() as int;
    let t = suf.skip(plen);
    lemma_wf_inner_unfold(n);
    assert forall|e: Seq<u8>| #[trigger] entries(n_child(n, b)).dom().contains(e) implies
        !strict_prefix(e, t) && !strict_prefix(t, e) by {
        lemma_entries_prefix(n_child(n, b), e);
        assert(e[0] == n_child(n, b).prefix@[0]);
        lemma_entries_inner(n, p + e);
        assert((p + e).subrange(0, plen) =~= p);
        assert((p + e).skip(plen) =~= e);
        assert(entries(n).dom().contains(p + e));
        lemma_sp_extend(p, e, t);
        lemma_sp_extend(p, t, e);
        assert(p + t =~= suf);
    }
}

/// Replacing the child under `b` with one whose entries gained `(t, v)`
/// makes the node's entries gain `(prefix + t, v)`.
proof fn lemma_child_updated<P: PrefixTraits, V>(
    pre: Node<P, V>,
    post: Node<P, V>,
    b: u8,
    t: Seq<u8>,
    v: V,
)
    requires
        wf_node(pre),
        wf_node(post),
        is_inner(pre),
        is_inner(post),
        post.prefix@ == pre.prefix@,
        forall|x: u8| n_has(post, x) == n_has(pre, x),
        forall|x: u8| x != b && #[trigger] n_has(pre, x) ==> n_child(post, x) == n_child(pre, x),
        n_has(pre, b),
        t.len() > 0,
        t[0] == b,
        entries(n_child(post, b)) == entries(n_child(pre, b)).insert(t, v),
    ensures
        entries(post) == entries(pre).insert(pre.prefix@ + t, v),
{
    let p = pre.prefix@;
    let plen = p.len() as int;
    let k0 = p + t;
    assert(k0.subrange(0, plen) =~= p);
    assert(k0.skip(plen) =~= t);
    assert forall|k: Seq<u8>|
        entries(post).dom().contains(k) == entries(pre).insert(k0, v).dom().contains(k) by {
        lemma_entries_inner(pre, k);
        lemma_entries_inner(post, k);
        assert(k0[plen] == t[0]);
        if k.len() > plen && k.subrange(0, plen) == p {
            assert(k =~= p + k.skip(plen));
        }
    }
    assert forall|k: Seq<u8>| entries(post).dom().contains(k) implies entries(post)[k] == entries(
        pre,
    ).insert(k0, v)[k] by {
        lemma_entries_inner(pre, k);
        lemma_entries_inner(post, k);
        assert(k0[plen] == t[0]);
        if k.len() > plen && k.subrange(0, plen) == p {
            assert(k =~= p + k.skip(plen));
        }
        if k == k0 {
        } else {
            if k.len() > plen && k.subrange(0, plen) == p && k[plen] == b {
                assert(k.skip(plen) != t);
            }
        }
    }
    assert(entries(post) =~= entries(pre).insert(k0, v));
}

/// Adding a fresh leaf child whose single entry is `(t, v)` makes the
/// node's entries gain `(prefix + t, v)`.
proof fn lemma_child_added<P: PrefixTraits, V>(
    pre: Node<P, V>,
    post: Node<P, V>,
    b: u8,
    t: Seq<u8>,
    v: V,
)
    requires
        wf_node(pre),
        wf_node(post),
        is_inner(pre),
        is_inner(post),
        post.prefix@ == pre.prefix@,
        forall|x: u8| n_has(post, x) == (x == b || n_has(pre, x)),
        forall|x: u8| x != b && #[trigger] n_has(pre, x) ==> n_child(post, x) == n_child(pre, x),
        !n_has(pre, b),
        t.len() > 0,
        t[0] == b,
        entries(n_child(post, b)) == Map::<Seq<u8>, V>::empty().insert(t, v),
    ensures
        entries(post) == entries(pre).insert(pre.prefix@ + t, v),
{
    let p = pre.prefix@;
    let plen = p.len() as int;
    let k0 = p + t;
    assert(k0.subrange(0, plen) =~= p);
    assert(k0.skip(plen) =~= t);
    assert forall|k: Seq<u8>|
        entries(post).dom().contains(k) == entries(pre).insert(k0, v).dom().contains(k) by {
        lemma_entries_inner(pre, k);
        lemma_entries_inner(post, k);
        assert(k0[plen] == t[0]);
        if k == k0 {
            assert(entries(n_child(post, b)).dom().contains(t));
        }
        if k.len() > plen && k.subrange(0, plen) == p {
            assert(k =~= p + k.skip(plen));
        }
    }
    assert forall|k: Seq<u8>| entries(post).dom().contains(k) implies entries(post)[k] == entries(
        pre,
    ).insert(k0, v)[k] by {
        lemma_entries_inner(pre, k);
        lemma_entries_inner(post, k);
        assert(k0[plen] == t[0]);
        if k.len() > plen && k.subrange(0, plen) == p {
            assert(k =~= p + k.skip(plen));
        }
        if k == k0 {
        } else {
            if k.len() > plen && k.subrange(0, plen) == p && k[plen] == b {
                assert(k.skip(plen) != t);
            }
        }
    }
    assert(entries(post) =~= entries(pre).insert(k0, v));
}

/// Deleting the leaf child under `b`, whose single entry was `(t, v0)`,
/// removes `(prefix + t)` from the node's entries.
proof fn lemma_child_deleted<P: PrefixTraits, V>(pre: Node<P, V>, post: Node<P, V>, b: u8, t: Seq<
    u8,
>)
    requires
        wf_node(pre),
        wf_node(post),
        is_inner(pre),
        is_inner(post),
        post.prefix@ == pre.prefix@,
        forall|x: u8| n_has(post, x) == (x != b && n_has(pre, x)),
        forall|x: u8| x != b && #[trigger] n_has(pre, x) ==> n_child(post, x) == n_child(pre, x),
        n_has(pre, b),
        t.len() > 0,
        t[0] == b,
        entries(n_child(pre, b)).dom() == set![t],
    ensures
        entries(post) == entries(pre).remove(pre.prefix@ + t),
{
    let p = pre.prefix@;
    let plen = p.len() as int;
    let k0 = p + t;
    assert(k0.subrange(0, plen) =~= p);
    assert(k0.skip(plen) =~= t);
    assert forall|k: Seq<u8>|
        entries(post).dom().contains(k) == entries(pre).remove(k0).dom().contains(k) by {
        lemma_entries_inner(pre, k);
        lemma_entries_inner(post, k);
        assert(k0[plen] == t[0]);
        if k.len() > plen && k.subrange(0, plen) == p {
            assert(k =~= p + k.skip(plen));
        }
        if k != k0 && k.len() > plen && k.subrange(0, plen) == p && k[plen] == b {
            assert(k.skip(plen) != t);
            if entries(n_child(pre, b)).dom().contains(k.skip(plen)) {
                assert(set![t].contains(k.skip(plen)));
            }
        }
    }
    assert forall|k: Seq<u8>| entries(post).dom().contains(k) implies entries(post)[k] == entries(
        pre,
    ).remove(k0)[k] by {
        lemma_entries_inner(pre, k);
        lemma_entries_inner(post, k);
        if k.len() > plen && k.subrange(0, plen) == p {
            assert(k =~= p + k.skip(plen));
        }
    }
    assert(entries(post) =~= entries(pre).remove(k0));
}

/// Replacing the child under `b` with one whose entries lost `t` removes
/// `(prefix + t)` from the node's entries.
proof fn lemma_child_shrunk<P: PrefixTraits, V>(
    pre: Node<P, V>,
    post: Node<P, V>,
    b: u8,
    t: Seq<u8>,
)
    requires
        wf_node(pre),
        wf_node(post),
        is_inner(pre),
        is_inner(post),
        post.prefix@ == pre.prefix@,
        forall|x: u8| n_has(post, x) == n_has(pre, x),
        forall|x: u8| x != b && #[trigger] n_has(pre, x) ==> n_child(post, x) == n_child(pre, x),
        n_has(pre, b),
        t.len() > 0,
        t[0] == b,
        entries(n_child(post, b)) == entries(n_child(pre, b)).remove(t),
    ensures
        entries(post) == entries(pre).remove(pre.prefix@ + t),
{
    let p = pre.prefix@;
    let plen = p.len() as int;
    let k0 = p + t;
    assert(k0.subrange(0, plen) =~= p);
    assert(k0.skip(plen) =~= t);
    assert forall|k: Seq<u8>|
        entries(post).dom().contains(k) == entries(pre).remove(k0).dom().contains(k) by {
        lemma_entries_inner(pre, k);
        lemma_entries_inner(post, k);
        assert(k0[plen] == t[0]);
        if k.len() > plen && k.subrange(0, plen) == p {
            assert(k =~= p + k.skip(plen));
        }
        if k != k0 && k.len() > plen && k.subrange(0, plen) == p && k[plen] == b {
            assert(k.skip(plen) != t);
        }
    }
    assert forall|k: Seq<u8>| entries(post).dom().contains(k) implies entries(post)[k] == entries(
        pre,
    ).remove(k0)[k] by {
        lemma_entries_inner(pre, k);
        lemma_entries_inner(post, k);
        if k.len() > plen && k.subrange(0, plen) == p {
            assert(k =~= p + k.skip(plen));
        }
        if k != k0 && k.len() > plen && k.subrange(0, plen) == p && k[plen] == b {
            assert(k.skip(plen) != t);
        }
    }
    assert(entries(post) =~= entries(pre).remove(k0));
}

impl<P: PrefixTraits, V> RawTree<P, V> {
    /// Look up the value stored under `key`; the epoch guard witnesses that
    /// the caller is pinned for the traversal.
    pub fn get(&self, key: &P, _guard: &crossbeam_epoch::Guard) -> (r: Option<&V>)
        requires
            self.wf(),
            key_admissible(key@, self.spec_map()),
        ensures
            (r is Some) == self.spec_map().dom().contains(key@),
            r matches Some(v) ==> *v == self.spec_map()[key@],
    {
        match &self.root.tn {
            TreeNode::Empty => {
                proof {
                    assert(!self.spec_map().dom().contains(key@));
                }
                None
            },
            _ => {
                proof {
                    assert(key@.skip(0) =~= key@);
                }
                Self::get_inner(&self.root, key, 0)
            },
        }
    }

    /// Recursive optimistic descent below `cur_node`, which covers the key
    /// bytes from `depth` onward. Each step snapshots the node's version
    /// word and re-validates it after reading the child pointer.
    fn get_inner<'a>(cur_node: &'a Node<P, V>, key: &P, depth: usize) -> (r: Option<&'a V>)
        requires
            wf_node(*cur_node),
            !(n_type(*cur_node) == NodeType::Empty),
            depth <= key@.len(),
            key_admissible(key@.skip(depth as int), entries(*cur_node)),
        ensures
            (r is Some) == entries(*cur_node).dom().contains(key@.skip(depth as int)),
            r matches Some(v) ==> *v == entries(*cur_node)[key@.skip(depth as int)],
        decreases key@.len() - depth, (if cur_node.prefix@.len() == 0 {
            1int
        } else {
            0int
        }),
    {
        let ghost suf = key@.skip(depth as int);
        let klen = key.len();
        let guard = match cur_node.read_lock() {
            Ok(g) => g,
            Err(_) => {
                proof {
                    crate::guard::lemma_word_at_rest(cur_node.spec_version());
                }
                unreached()
            },
        };
        let cur_ref = guard.as_ref();
        let prefix_common_match = cur_ref.prefix.prefix_length_key(key, depth);
        let plen = cur_ref.prefix.len();
        proof {
            lemma_common_len(cur_ref.prefix@, suf);
        }
        if prefix_common_match != plen {
            proof {
                if entries(*cur_node).dom().contains(suf) {
                    lemma_entries_prefix(*cur_node, suf);
                    crate::keys::lemma_common_len_is(cur_ref.prefix@, suf, cur_ref.prefix@.len());
                }
            }
            return None;
        }
        if plen == key.length_at(depth) {
            proof {
                assert(suf =~= cur_ref.prefix@);
                match cur_node.tn {
                    TreeNode::Leaf(_) => {
                        assert(entries(*cur_node).dom().contains(suf));
                        assert(entries(*cur_node)[suf] == leaf_value(*cur_node).unwrap());
                    },
                    TreeNode::Empty => {},
                    _ => {
                        lemma_entries_nonempty(*cur_node);
                        let e = choose|e: Seq<u8>| entries(*cur_node).dom().contains(e);
                        lemma_entries_prefix(*cur_node, e);
                        lemma_entries_inner(*cur_node, e);
                        assert(strict_prefix(suf, e));
                        assert(false);
                    },
                }
            }
            return cur_node.value();
        }
        proof {
            assert(suf.subrange(0, plen as int) =~= cur_node.prefix@);
            match cur_node.tn {
                TreeNode::Leaf(_) => {
                    assert(entries(*cur_node).dom().contains(cur_node.prefix@));
                    assert(strict_prefix(cur_node.prefix@, suf));
                    assert(false);
                },
                _ => {},
            }
            lemma_wf_inner_unfold(*cur_node);
            assert(depth + plen < key@.len());
        }
        let k = key.at(depth + plen);
        let sub_node = match cur_ref.find_child(k) {
            Some(c) => c,
            None => {
                proof {
                    lemma_entries_inner(*cur_node, suf);
                    assert(suf.subrange(0, plen as int) =~= cur_ref.prefix@.subrange(
                        0,
                        plen as int,
                    ));
                    assert(suf[plen as int] == key@[depth + plen]);
                }
                return None;
            },
        };
        let _ = match guard.check_version() {
            Ok(v) => v,
            Err(_) => {
                proof {
                    assert(false);
                }
                unreached()
            },
        };
        proof {
            assert(suf.subrange(0, plen as int) =~= cur_ref.prefix@.subrange(0, plen as int));
            assert(suf[plen as int] == key@[depth + plen]);
            lemma_admissible_child(*cur_node, suf, k);
            lemma_entries_inner(*cur_node, suf);
            assert(key@.skip((depth + plen) as int) =~= suf.skip(plen as int));
            if n_type(*sub_node) == NodeType::Empty {
                assert(!(n_child(*cur_node, k).tn is Empty));
                assert(false);
            }
        }
        Self::get_inner(sub_node, key, depth + plen)
    }
}

} // verus!

verus! {


/// Splitting a node: a fresh inner node holding the shared prefix, with the
/// old node (keeping its remaining suffix) and a new single-entry leaf as
/// its two children, holds the old entries plus the new one.
#[verifier::rlimit(100)]
#[verifier::spinoff_prover]
proof fn lemma_split_entries<P: PrefixTraits, V>(
    pre: Node<P, V>,
    post: Node<P, V>,
    old_node: Node<P, V>,
    leaf: Node<P, V>,
    lcp: int,
    suf: Seq<u8>,
    v: V,
)
    requires
        wf_node(pre),
        wf_node(post),
        is_inner(post),
        0 <= lcp < pre.prefix@.len(),
        lcp < suf.len(),
        suf.subrange(0, lcp) == pre.prefix@.subrange(0, lcp),
        pre.prefix@[lcp] != suf[lcp],
        post.prefix@ == pre.prefix@.subrange(0, lcp),
        forall|b: u8| n_has(post, b) == (b == pre.prefix@[lcp] || b == suf[lcp]),
        n_child(post, pre.prefix@[lcp]) == old_node,
        n_child(post, suf[lcp]) == leaf,
        old_node.tn == pre.tn,
        old_node.prefix@ == pre.prefix@.skip(lcp),
        entries(leaf) == Map::<Seq<u8>, V>::empty().insert(suf.skip(lcp), v),
    ensures
        entries(post) == entries(pre).insert(suf, v),
        !entries(pre).dom().contains(suf),
{
    let p0 = pre.prefix@.subrange(0, lcp);
    let k1 = pre.prefix@[lcp];
    let k2 = suf[lcp];
    let t2 = suf.skip(lcp);
    lemma_entries_shift(pre, old_node, lcp);
    // the inserted key is new: its selector differs from the old subtree's
    if entries(pre).dom().contains(suf) {
        assert(entries(old_node).dom().contains(suf.skip(lcp)));
        lemma_entries_prefix(old_node, suf.skip(lcp));
        assert(suf.skip(lcp)[0] == k1);
        assert(false);
    }
    assert forall|k: Seq<u8>|
        entries(post).dom().contains(k) == entries(pre).insert(suf, v).dom().contains(k) by {
        lemma_entries_inner(post, k);
        if entries(pre).dom().contains(k) {
            assert(k.len() >= lcp && k.subrange(0, lcp) == p0 && entries(
                old_node,
            ).dom().contains(k.skip(lcp)));
            lemma_entries_prefix(old_node, k.skip(lcp));
            assert(k.skip(lcp)[0] == k1);
            assert(k[lcp] == k1);
            assert(k.len() > lcp);
            assert(entries(post).dom().contains(k));
        }
        if k == suf {
            assert(suf.subrange(0, lcp) =~= p0);
            assert(suf.len() > lcp && suf[lcp] == k2);
            assert(entries(n_child(post, k2)).dom().contains(t2));
            assert(entries(post).dom().contains(k));
        }
        if entries(post).dom().contains(k) {
            assert(k.len() > lcp && k.subrange(0, lcp) == p0);
            assert(k =~= k.subrange(0, lcp) + k.skip(lcp));
            let b = k[lcp];
            if b == k2 {
                assert(k.skip(lcp) == t2);
                assert(suf.subrange(0, lcp) =~= p0);
                assert(suf =~= suf.subrange(0, lcp) + suf.skip(lcp));
                assert(k =~= suf);
            } else {
                assert(b == k1);
                assert(entries(old_node).dom().contains(k.skip(lcp)));
                assert(entries(pre).dom().contains(pre.prefix@.subrange(0, lcp) + k.skip(lcp)));
                assert(p0 + k.skip(lcp) =~= k);
            }
        }
    }
    assert forall|k: Seq<u8>| entries(post).dom().contains(k) implies entries(post)[k] == entries(
        pre,
    ).insert(suf, v)[k] by {
        lemma_entries_inner(post, k);
        assert(k.len() > lcp && k.subrange(0, lcp) == p0);
        assert(k =~= k.subrange(0, lcp) + k.skip(lcp));
        let b = k[lcp];
        if b == k2 {
            assert(k.skip(lcp) == t2);
            assert(suf.subrange(0, lcp) =~= p0);
            assert(suf =~= suf.subrange(0, lcp) + suf.skip(lcp));
            assert(k =~= suf);
            assert(entries(post)[k] == entries(n_child(post, k2))[t2]);
        } else {
            assert(b == k1);
            assert(entries(post)[k] == entries(old_node)[k.skip(lcp)]);
            assert(entries(pre).dom().contains(k));
            assert(entries(pre)[k] == entries(old_node)[k.skip(lcp)]);
            assert(k != suf);
        }
    }
    assert(entries(post) =~= entries(pre).insert(suf, v));
}

impl<P: PrefixTraits, V> RawTree<P, V> {
    /// Insert or update `key`, handing back the previous value; the epoch
    /// guard witnesses that the caller is pinned for the structural change.
    pub fn insert(&mut self, key: &P, value: V, _guard: &crossbeam_epoch::Guard) -> (r: Option<
        V,
    >)
        requires
            old(self).wf(),
            key_admissible(key@, old(self).spec_map()),
        ensures
            final(self).wf(),
            final(self).spec_map() == old(self).spec_map().insert(key@, value),
            r == (if old(self).spec_map().dom().contains(key@) {
                Some(old(self).spec_map()[key@])
            } else {
                None::<V>
            }),
    {
        match self.insert_inner(key, value, 0) {
            Ok(prev) => prev,
            Err(_) => {
                proof {
                    assert(false);
                }
                unreached()
            },
        }
    }

    /// One attempt of the insert; in this owned embedding the optimistic
    /// validations always succeed, so no retry is ever surfaced.
    fn insert_inner(&mut self, key: &P, value: V, depth: usize) -> (r: Result<
        Option<V>,
        TreeError,
    >)
        requires
            old(self).wf(),
            depth == 0,
            key_admissible(key@, old(self).spec_map()),
        ensures
            final(self).wf(),
            r matches Ok(prev) ==> final(self).spec_map() == old(self).spec_map().insert(
                key@,
                value,
            ) && prev == (if old(self).spec_map().dom().contains(key@) {
                Some(old(self).spec_map()[key@])
            } else {
                None::<V>
            }),
            r is Ok,
    {
        proof {
            assert(key@.skip(0) =~= key@);
        }
        match &self.root.tn {
            TreeNode::Empty => {
                let leaf = Node::new_leaf(key.partial_after(0), value);
                let ghost leafg = leaf;
                self.root.change(leaf);
                proof {
                    crate::node::lemma_entries_tn(self.root, leafg);
                    assert(self.spec_map() =~= old(self).spec_map().insert(key@, value));
                }
                Ok(None)
            },
            _ => {
                let prev = Self::insert_at(&mut self.root, key, 0, value);
                Ok(prev)
            },
        }
    }

    /// Insert into the subtree rooted at `n`, which covers the key bytes
    /// from `depth` onward.
    #[verifier::rlimit(100)]
    #[verifier::spinoff_prover]
    fn insert_at(n: &mut Node<P, V>, key: &P, depth: usize, value: V) -> (r: Option<V>)
        requires
            wf_node(*old(n)),
            !(n_type(*old(n)) == NodeType::Empty),
            depth <= key@.len(),
            key_admissible(key@.skip(depth as int), entries(*old(n))),
        ensures
            wf_node(*final(n)),
            !(n_type(*final(n)) == NodeType::Empty),
            entries(*final(n)) == entries(*old(n)).insert(key@.skip(depth as int), value),
            r == (if entries(*old(n)).dom().contains(key@.skip(depth as int)) {
                Some(entries(*old(n))[key@.skip(depth as int)])
            } else {
                None::<V>
            }),
            old(n).prefix@.len() > 0 && key@.skip(depth as int).len() > 0 && key@.skip(
                depth as int,
            )[0] == old(n).prefix@[0] ==> final(n).prefix@.len() > 0 && final(n).prefix@[0] == old(
                n,
            ).prefix@[0],
        decreases key@.len() - depth, (if old(n).prefix@.len() == 0 {
            1int
        } else {
            0int
        }),
    {
        let ghost suf = key@.skip(depth as int);
        let ghost pre = *n;
        let klen = key.len();
        let lcp = n.prefix.prefix_length_key(key, depth);
        let plen = n.prefix.len();
        let remaining = key.length_at(depth);
        proof {
            lemma_common_len(n.prefix@, suf);
        }
        if lcp == plen && plen == remaining {
            // The node's prefix is exactly the remaining key: this is the
            // target leaf; replace its value in place.
            proof {
                assert(suf =~= pre.prefix@);
                if is_inner(pre) {
                    lemma_entries_nonempty(pre);
                    let e = choose|e: Seq<u8>| entries(pre).dom().contains(e);
                    lemma_entries_prefix(pre, e);
                    lemma_entries_inner(pre, e);
                    assert(strict_prefix(suf, e));
                    assert(false);
                }
            }
            match n.lock_version() {
                Ok(_) => {},
                Err(_) => {
                    proof {
                        assert(false);
                    }
                },
            }
            let prev = n.replace_value(value);
            n.unlock_version();
            proof {
                assert(entries(pre).dom().contains(suf));
                assert(entries(pre)[suf] == prev);
            }
            return Some(prev);
        }
        if lcp < plen {
            // The key diverges inside the compressed prefix: split the node.
            proof {
                if suf.len() == lcp {
                    lemma_entries_nonempty(pre);
                    let e = choose|e: Seq<u8>| entries(pre).dom().contains(e);
                    lemma_entries_prefix(pre, e);
                    assert(e.subrange(0, lcp as int) =~= pre.prefix@.subrange(0, lcp as int));
                    assert(suf =~= e.subrange(0, lcp as int));
                    assert(strict_prefix(suf, e));
                    assert(false);
                }
            }
            let k1 = n.prefix.at(lcp);
            proof {
                assert(depth + lcp < key@.len());
            }
            let k2 = key.at(depth + lcp);
            proof {
                assert(suf[lcp as int] == key@[depth + lcp]);
                assert(k1 != k2);
            }
            match n.lock_version() {
                Ok(_) => {},
                Err(_) => {
                    proof {
                        assert(false);
                    }
                },
            }
            let new_prefix = n.prefix.partial_before(lcp);
            let mut tmp = Node::new(NodeType::Node4, new_prefix);
            core::mem::swap(n, &mut tmp);
            let Node { prefix: opfx, version_lock_obsolete: over, tn: otn } = tmp;
            let sub_prefix = opfx.partial_after(lcp);
            let mut old_node = Node { prefix: sub_prefix, version_lock_obsolete: over, tn: otn };
            old_node.unlock_version();
            proof {
                crate::node::lemma_wf_prefix_irrelevant(
                    old_node,
                    Node { prefix: pre.prefix, version_lock_obsolete: old_node.version_lock_obsolete, tn: pre.tn },
                );
                crate::node::lemma_wf_prefix_irrelevant(
                    Node { prefix: pre.prefix, version_lock_obsolete: old_node.version_lock_obsolete, tn: pre.tn },
                    pre,
                );
                assert(wf_node(old_node));
                crate::node::lemma_entries_tn(
                    old_node,
                    Node { prefix: old_node.prefix, version_lock_obsolete: pre.version_lock_obsolete, tn: pre.tn },
                );
                lemma_entries_shift(
                    pre,
                    Node { prefix: old_node.prefix, version_lock_obsolete: pre.version_lock_obsolete, tn: pre.tn },
                    lcp as int,
                );
            }
            let leaf = Node::new_leaf(key.partial_after(depth + lcp), value);
            let ghost leafg = leaf;
            n.add_child(k1, old_node);
            n.add_child(k2, leaf);
            proof {
                let p0 = pre.prefix@.subrange(0, lcp as int);
                let t1 = pre.prefix@.skip(lcp as int);
                let t2 = key@.skip(depth + lcp);
                assert(t2 =~= suf.skip(lcp as int));
                assert(old_node.prefix@ == t1);
                assert(t1[0] == k1 && t1.len() > 0);
                assert(t2[0] == suf[lcp as int] && t2.len() > 0);
                assert(!(old_node.tn is Empty));
                crate::node::lemma_wf_inner_fold(*n);
                assert(suf.subrange(0, lcp as int) =~= pre.prefix@.subrange(0, lcp as int));
                assert(entries(leafg) == Map::<Seq<u8>, V>::empty().insert(
                    suf.skip(lcp as int),
                    value,
                ));
                lemma_split_entries(pre, *n, old_node, leafg, lcp as int, suf, value);
            }
            return None;
        }
        // The whole prefix matches and the key continues past it: descend.
        proof {
            assert(lcp == plen && remaining > plen);
            match pre.tn {
                TreeNode::Leaf(_) => {
                    assert(entries(pre).dom().contains(pre.prefix@));
                    assert(suf.subrange(0, plen as int) =~= pre.prefix@);
                    assert(strict_prefix(pre.prefix@, suf));
                    assert(false);
                },
                _ => {},
            }
            lemma_wf_inner_unfold(pre);
            crate::node::lemma_n_num_in_range(pre);
        }
        proof {
            assert(depth + plen < key@.len());
        }
        let b = key.at(depth + plen);
        proof {
            assert(suf[plen as int] == key@[depth + plen]);
            assert(suf.subrange(0, plen as int) =~= pre.prefix@);
        }
        let has = match n.find_child(b) {
            Some(_) => true,
            None => false,
        };
        if has {
            match n.lock_version() {
                Ok(_) => {},
                Err(_) => {
                    proof {
                        assert(false);
                    }
                },
            }
            let ghost nlocked = *n;
            let mut child = match n.take_child(b) {
                Some(c) => c,
                None => {
                    proof {
                        assert(false);
                    }
                    unreached()
                },
            };
            proof {
                crate::node::lemma_same_tn_cmap(nlocked, pre);
                lemma_admissible_child(pre, suf, b);
                assert(key@.skip((depth + plen) as int) =~= suf.skip(plen as int));
                assert(!(child.tn is Empty));
            }
            let r = Self::insert_at(&mut child, key, depth + plen, value);
            n.add_child(b, child);
            let ghost nadded = *n;
            n.unlock_version();
            proof {
                crate::node::lemma_same_tn_cmap(*n, nadded);
                crate::node::lemma_entries_tn(*n, nadded);
                let t = suf.skip(plen as int);
                assert(t[0] == b);
                assert forall|x: u8| #[trigger] n_has(*n, x) implies wf_node(n_child(*n, x))
                    && n_child(*n, x).prefix@.len() > 0 && n_child(*n, x).prefix@[0] == x && !(
                n_child(*n, x).tn is Empty) by {
                    if x != b {
                        assert(n_has(pre, x));
                    }
                }
                crate::node::lemma_wf_inner_fold(*n);
                lemma_child_updated(pre, *n, b, t, value);
                assert(pre.prefix@ + t =~= suf);
                lemma_entries_inner(pre, suf);
            }
            return r;
        }
        let is_full = n.is_full();
        match n.lock_version() {
            Ok(_) => {},
            Err(_) => {
                proof {
                    assert(false);
                }
            },
        }
        let ghost nlocked = *n;
        proof {
            crate::node::lemma_same_tn_cmap(nlocked, pre);
        }
        if is_full {
            proof {
                if n_type(pre) == NodeType::Node256 {
                    lemma_full_256(pre, b);
                    assert(false);
                }
            }
            n.grow();
        }
        let leaf = Node::new_leaf(key.partial_after(depth + plen), value);
        let ghost leafg = leaf;
        n.add_child(b, leaf);
        let ghost nadded = *n;
        n.unlock_version();
        proof {
            crate::node::lemma_same_tn_cmap(*n, nadded);
            crate::node::lemma_entries_tn(*n, nadded);
            let t = suf.skip(plen as int);
            assert(t =~= key@.skip((depth + plen) as int));
            assert(t[0] == b && t.len() > 0);
            assert(entries(n_child(*n, b)) == entries(leafg));
            assert forall|x: u8| #[trigger] n_has(*n, x) implies wf_node(n_child(*n, x))
                && n_child(*n, x).prefix@.len() > 0 && n_child(*n, x).prefix@[0] == x && !(
            n_child(*n, x).tn is Empty) by {
                if x != b {
                    assert(n_has(pre, x));
                }
            }
            crate::node::lemma_wf_inner_fold(*n);
            lemma_child_added(pre, *n, b, t, value);
            assert(pre.prefix@ + t =~= suf);
            if entries(pre).dom().contains(suf) {
                lemma_entries_inner(pre, suf);
                assert(false);
            }
        }
        None
    }
}

} // verus!

verus! {

impl<P: PrefixTraits, V> RawTree<P, V> {
    /// Remove `key`, handing back the value stored under it.
    pub fn remove(&mut self, key: &P) -> (r: Option<V>)
        requires
            old(self).wf(),
            key_admissible(key@, old(self).spec_map()),
        ensures
            final(self).wf(),
            final(self).spec_map() == old(self).spec_map().remove(key@),
            r == (if old(self).spec_map().dom().contains(key@) {
                Some(old(self).spec_map()[key@])
            } else {
                None::<V>
            }),
    {
        let ghost pre = self.root;
        proof {
            assert(key@.skip(0) =~= key@);
        }
        match &self.root.tn {
            TreeNode::Empty => {
                proof {
                    assert(self.spec_map() =~= old(self).spec_map().remove(key@));
                }
                return None;
            },
            _ => {},
        }
        let prefix_common_match = self.root.prefix.prefix_length_key(key, 0);
        let plen = self.root.prefix.len();
        proof {
            lemma_common_len(self.root.prefix@, key@);
        }
        if prefix_common_match != plen {
            proof {
                if entries(pre).dom().contains(key@) {
                    lemma_entries_prefix(pre, key@);
                    crate::keys::lemma_common_len_is(pre.prefix@, key@, pre.prefix@.len());
                }
                assert(self.spec_map() =~= old(self).spec_map().remove(key@));
            }
            return None;
        }
        let is_leaf = self.root.node_type() == NodeType::Leaf;
        if is_leaf {
            if plen == key.len() {
                proof {
                    assert(key@ =~= pre.prefix@);
                }
                let mut old_root = Node::empty_leaf();
                core::mem::swap(&mut self.root, &mut old_root);
                match old_root.lock_version() {
                    Ok(_) => {},
                    Err(_) => {
                        proof {
                            assert(false);
                        }
                    },
                }
                old_root.mark_obsolete();
                let v = match old_root.take_value() {
                    Some(v) => v,
                    None => {
                        proof {
                            assert(false);
                        }
                        unreached()
                    },
                };
                proof {
                    assert(entries(pre).dom().contains(key@));
                    assert(entries(pre)[key@] == v);
                    assert(self.spec_map() =~= old(self).spec_map().remove(key@));
                }
                return Some(v);
            } else {
                proof {
                    if entries(pre).dom().contains(key@) {
                        assert(key@ == pre.prefix@);
                    }
                    assert(self.spec_map() =~= old(self).spec_map().remove(key@));
                }
                return None;
            }
        }
        // An inner root whose whole prefix matches; the key must continue.
        proof {
            if plen == key@.len() {
                lemma_entries_nonempty(pre);
                let e = choose|e: Seq<u8>| entries(pre).dom().contains(e);
                lemma_entries_prefix(pre, e);
                lemma_entries_inner(pre, e);
                assert(key@ =~= pre.prefix@);
                assert(strict_prefix(key@, e));
                assert(false);
            }
            assert(key@.subrange(0, plen as int) =~= pre.prefix@);
        }
        let r = Self::remove_recurse(&mut self.root, key, 0);
        let nc = self.root.num_children();
        if nc == 0 {
            let ghost drained = self.root;
            let mut empty_root = Node::empty_leaf();
            core::mem::swap(&mut self.root, &mut empty_root);
            proof {
                lemma_entries_no_children(drained);
            }
        }
        r
    }

    /// Remove below the inner node `parent`, whose subtree covers the key
    /// bytes from `depth0` onward; the key is known to continue past the
    /// parent's prefix.
    #[verifier::rlimit(100)]
    #[verifier::spinoff_prover]
    fn remove_recurse(parent: &mut Node<P, V>, key: &P, depth0: usize) -> (r: Option<V>)
        requires
            wf_node(*old(parent)),
            is_inner(*old(parent)),
            depth0 <= key@.len(),
            depth0 + old(parent).prefix@.len() < key@.len(),
            key@.skip(depth0 as int).subrange(0, old(parent).prefix@.len() as int) == old(
                parent,
            ).prefix@,
            key_admissible(key@.skip(depth0 as int), entries(*old(parent))),
        ensures
            is_inner(*final(parent)),
            n_cwf(*final(parent)),
            version_at_rest(final(parent).spec_version()),
            final(parent).prefix@ == old(parent).prefix@,
            n_num(*final(parent)) >= 1 ==> wf_node(*final(parent)),
            entries(*final(parent)) == entries(*old(parent)).remove(key@.skip(depth0 as int)),
            r == (if entries(*old(parent)).dom().contains(key@.skip(depth0 as int)) {
                Some(entries(*old(parent))[key@.skip(depth0 as int)])
            } else {
                None::<V>
            }),
        decreases key@.len() - depth0, (if old(parent).prefix@.len() == 0 {
            1int
        } else {
            0int
        }),
    {
        let ghost suf_p = key@.skip(depth0 as int);
        let ghost pre = *parent;
        proof {
            lemma_wf_inner_unfold(pre);
            crate::node::lemma_n_num_in_range(pre);
        }
        let plen = parent.prefix.len();
        let klen = key.len();
        let c = key.at(depth0 + plen);
        proof {
            assert(suf_p[plen as int] == key@[depth0 + plen]);
        }
        let (clen_matches, child_is_leaf, child_len_matches) = match parent.find_child(c) {
            None => {
                proof {
                    if entries(pre).dom().contains(suf_p) {
                        lemma_entries_inner(pre, suf_p);
                    }
                    assert(entries(*parent) =~= entries(pre).remove(suf_p));
                }
                return None;
            },
            Some(child_ref) => {
                let lcp_c = child_ref.prefix.prefix_length_key(key, depth0 + plen);
                let clen = child_ref.prefix.len();
                proof {
                    lemma_common_len(child_ref.prefix@, key@.skip((depth0 + plen) as int));
                }
                (
                    lcp_c == clen,
                    child_ref.node_type() == NodeType::Leaf,
                    clen == key.length_at(depth0 + plen),
                )
            },
        };
        let ghost suf_c = key@.skip((depth0 + plen) as int);
        let ghost child0 = n_child(pre, c);
        proof {
            assert(suf_c =~= suf_p.skip(plen as int));
            lemma_admissible_child(pre, suf_p, c);
            lemma_entries_inner(pre, suf_p);
        }
        if !clen_matches {
            proof {
                if entries(child0).dom().contains(suf_c) {
                    lemma_entries_prefix(child0, suf_c);
                    crate::keys::lemma_common_len_is(child0.prefix@, suf_c, child0.prefix@.len());
                }
                assert(entries(*parent) =~= entries(pre).remove(suf_p));
            }
            return None;
        }
        if child_is_leaf {
            if !child_len_matches {
                proof {
                    if entries(child0).dom().contains(suf_c) {
                        assert(suf_c == child0.prefix@);
                    }
                    assert(entries(*parent) =~= entries(pre).remove(suf_p));
                }
                return None;
            }
            proof {
                assert(suf_c =~= child0.prefix@);
            }
            match parent.lock_version() {
                Ok(_) => {},
                Err(_) => {
                    proof {
                        assert(false);
                    }
                },
            }
            let ghost plocked = *parent;
            proof {
                crate::node::lemma_same_tn_cmap(plocked, pre);
            }
            let mut deleted = match parent.delete_child(c) {
                Some(d) => d,
                None => {
                    proof {
                        assert(false);
                    }
                    unreached()
                },
            };
            let ghost pdel = *parent;
            parent.unlock_version();
            proof {
                crate::node::lemma_same_tn_cmap(*parent, pdel);
                crate::node::lemma_entries_tn(*parent, pdel);
            }
            match deleted.lock_version() {
                Ok(_) => {},
                Err(_) => {
                    proof {
                        assert(false);
                    }
                },
            }
            deleted.mark_obsolete();
            let v = match deleted.take_value() {
                Some(v) => v,
                None => {
                    proof {
                        assert(false);
                    }
                    unreached()
                },
            };
            proof {
                assert(entries(child0).dom() =~= set![suf_c]);
                assert(entries(child0)[suf_c] == v);
                assert(entries(pre).dom().contains(suf_p) && entries(pre)[suf_p] == v);
                if n_num(*parent) >= 1 {
                    assert forall|x: u8| #[trigger] n_has(*parent, x) implies wf_node(
                        n_child(*parent, x),
                    ) && n_child(*parent, x).prefix@.len() > 0 && n_child(*parent, x).prefix@[0]
                        == x && !(n_child(*parent, x).tn is Empty) by {
                        assert(x != c && n_has(pre, x));
                    }
                    crate::node::lemma_wf_inner_fold(*parent);
                    lemma_child_deleted(pre, *parent, c, suf_c);
                    assert(pre.prefix@ + suf_c =~= suf_p);
                } else {
                    lemma_entries_no_children(*parent);
                    crate::node::lemma_n_empty(*parent);
                    assert forall|k: Seq<u8>| entries(pre).dom().contains(k) implies k
                        == suf_p by {
                        lemma_entries_inner(pre, k);
                        assert(n_has(pre, k[plen as int]));
                        assert(!n_has(*parent, k[plen as int]));
                        assert(k[plen as int] == c);
                        assert(entries(child0).dom().contains(k.skip(plen as int)));
                        assert(k.skip(plen as int) == suf_c);
                        assert(k =~= k.subrange(0, plen as int) + k.skip(plen as int));
                        assert(suf_p =~= suf_p.subrange(0, plen as int) + suf_p.skip(plen as int));
                        assert(suf_p.skip(plen as int) =~= suf_c);
                        assert(k =~= suf_p);
                    }
                    assert(entries(*parent) =~= entries(pre).remove(suf_p));
                }
            }
            return Some(v);
        }
        // The child is an inner node: recurse below it.
        proof {
            assert(!(child0.tn is Empty));
            assert(is_inner(child0));
            // the key continues past the child's prefix
            if suf_c.len() == child0.prefix@.len() {
                lemma_entries_nonempty(child0);
                let e = choose|e: Seq<u8>| entries(child0).dom().contains(e);
                lemma_entries_prefix(child0, e);
                lemma_entries_inner(child0, e);
                assert(suf_c =~= child0.prefix@);
                assert(strict_prefix(suf_c, e));
                assert(false);
            }
            assert(suf_c.subrange(0, child0.prefix@.len() as int) =~= child0.prefix@);
        }
        match parent.lock_version() {
            Ok(_) => {},
            Err(_) => {
                proof {
                    assert(false);
                }
            },
        }
        let ghost plocked2 = *parent;
        proof {
            crate::node::lemma_same_tn_cmap(plocked2, pre);
        }
        let mut child = match parent.take_child(c) {
            Some(ch) => ch,
            None => {
                proof {
                    assert(false);
                }
                unreached()
            },
        };
        let ghost ptaken = *parent;
        let r = Self::remove_recurse(&mut child, key, depth0 + plen);
        let child_empty = child.num_children() == 0;
        let prune = r.is_some() && child_empty;
        proof {
            if !prune {
                if child_empty {
                    lemma_entries_no_children(child);
                    lemma_entries_nonempty(child0);
                    let e = choose|e: Seq<u8>| entries(child0).dom().contains(e);
                    assert(entries(child0).remove(suf_c).dom().contains(e) || e == suf_c);
                    assert(false);
                }
            }
        }
        if prune {
            // the recursion emptied the child: retire it and let the parent
            // shrink if it fell below the next narrower width
            match child.lock_version() {
                Ok(_) => {},
                Err(_) => {
                    proof {
                        assert(false);
                    }
                },
            }
            child.mark_obsolete();
            parent.unlock_version();
            proof {
                assert forall|x: u8|
                    n_has(*parent, x) == n_has(ptaken, x) && (n_has(ptaken, x) ==> n_child(
                        *parent,
                        x,
                    ) == n_child(ptaken, x)) by {}
                crate::node::lemma_entries_tn(*parent, ptaken);
                lemma_entries_no_children(child);
                assert forall|k: Seq<u8>| entries(child0).dom().contains(k) implies k
                    == suf_c by {
                    if k != suf_c {
                        assert(entries(child0).remove(suf_c).dom().contains(k));
                    }
                }
                assert(entries(child0).dom() =~= set![suf_c]);
                if n_num(*parent) >= 1 {
                    assert forall|x: u8| #[trigger] n_has(*parent, x) implies wf_node(
                        n_child(*parent, x),
                    ) && n_child(*parent, x).prefix@.len() > 0 && n_child(*parent, x).prefix@[0]
                        == x && !(n_child(*parent, x).tn is Empty) by {
                        assert(x != c && n_has(pre, x));
                    }
                    crate::node::lemma_wf_inner_fold(*parent);
                    lemma_child_deleted(pre, *parent, c, suf_c);
                    assert(pre.prefix@ + suf_c =~= suf_p);
                } else {
                    lemma_entries_no_children(*parent);
                    crate::node::lemma_n_empty(*parent);
                    assert forall|k: Seq<u8>| entries(pre).dom().contains(k) implies k
                        == suf_p by {
                        lemma_entries_inner(pre, k);
                        assert(n_has(pre, k[plen as int]));
                        assert(!n_has(*parent, k[plen as int]));
                        assert(k[plen as int] == c);
                        assert(entries(child0).dom().contains(k.skip(plen as int)));
                        assert(k.skip(plen as int) == suf_c);
                        assert(k =~= k.subrange(0, plen as int) + k.skip(plen as int));
                        assert(suf_p =~= suf_p.subrange(0, plen as int) + suf_p.skip(plen as int));
                        assert(suf_p.skip(plen as int) =~= suf_c);
                        assert(k =~= suf_p);
                    }
                    assert(entries(*parent) =~= entries(pre).remove(suf_p));
                }
            }
            return r;
        }
        parent.add_child(c, child);
        let ghost padded = *parent;
        parent.unlock_version();
        proof {
            crate::node::lemma_same_tn_cmap(*parent, padded);
        }
        proof {
            assert forall|x: u8|
                n_has(*parent, x) == n_has(padded, x) && (n_has(padded, x) ==> n_child(*parent, x)
                    == n_child(padded, x)) by {}
            crate::node::lemma_entries_tn(*parent, padded);
            assert(n_num(child) >= 1 && wf_node(child));
            assert(child.prefix@[0] == c && child.prefix@.len() > 0);
            assert forall|x: u8| #[trigger] n_has(*parent, x) implies wf_node(
                n_child(*parent, x),
            ) && n_child(*parent, x).prefix@.len() > 0 && n_child(*parent, x).prefix@[0] == x
                && !(n_child(*parent, x).tn is Empty) by {
                if x != c {
                    assert(n_has(pre, x));
                }
            }
            assert(!(child.tn is Empty));
            crate::node::lemma_wf_inner_fold(*parent);
            lemma_child_shrunk(pre, *parent, c, suf_c);
            assert(pre.prefix@ + suf_c =~= suf_p);
        }
        r
    }
}

} // verus!

verus! {

impl<P: PrefixTraits, V> RawTree<P, V> {
    /// Look up the value stored under `key`, mutably; the epoch guard
    /// witnesses that the caller is pinned. The tree afterwards holds, under
    /// `key`, whatever the caller left behind the reference.
    pub fn get_mut(&mut self, key: &P, _guard: &crossbeam_epoch::Guard) -> (r: Option<&mut V>)
        requires
            old(self).wf(),
            key_admissible(key@, old(self).spec_map()),
        ensures
            (r is Some) == old(self).spec_map().dom().contains(key@),
            r is None ==> final(self).wf() && final(self).spec_map() == old(self).spec_map(),
            r matches Some(m) ==> *m == old(self).spec_map()[key@] && final(self).wf()
                && final(self).spec_map() == old(self).spec_map().insert(key@, *final(m)),
    {
        match &self.root.tn {
            TreeNode::Empty => {
                proof {
                    assert(!self.spec_map().dom().contains(key@));
                }
                None
            },
            _ => {
                proof {
                    assert(key@.skip(0) =~= key@);
                }
                Self::get_inner_mut(&mut self.root, key, 0)
            },
        }
    }

    /// Recursive mutable descent below `n`, which covers the key bytes from
    /// `depth` onward.
    fn get_inner_mut<'a>(n: &'a mut Node<P, V>, key: &P, depth: usize) -> (r: Option<&'a mut V>)
        requires
            wf_node(*old(n)),
            !(n_type(*old(n)) == NodeType::Empty),
            depth <= key@.len(),
            key_admissible(key@.skip(depth as int), entries(*old(n))),
        ensures
            (r is Some) == entries(*old(n)).dom().contains(key@.skip(depth as int)),
            r is None ==> wf_node(*final(n)) && final(n).spec_prefix() == old(n).spec_prefix()
                && n_type(*final(n)) == n_type(*old(n)) && entries(*final(n)) == entries(*old(n)),
            r matches Some(m) ==> *m == entries(*old(n))[key@.skip(depth as int)] && wf_node(
                *final(n),
            ) && final(n).spec_prefix() == old(n).spec_prefix() && n_type(*final(n)) == n_type(
                *old(n),
            ) && entries(*final(n)) == entries(*old(n)).insert(key@.skip(depth as int), *final(m)),
        decreases key@.len() - depth, (if old(n).prefix@.len() == 0 {
            1int
        } else {
            0int
        }),
    {
        let ghost suf = key@.skip(depth as int);
        let ghost pre = *n;
        let klen = key.len();
        let lcp = n.prefix.prefix_length_key(key, depth);
        let plen = n.prefix.len();
        let remaining = key.length_at(depth);
        proof {
            lemma_common_len(n.prefix@, suf);
        }
        if lcp != plen {
            proof {
                if entries(pre).dom().contains(suf) {
                    lemma_entries_prefix(pre, suf);
                    crate::keys::lemma_common_len_is(pre.prefix@, suf, pre.prefix@.len());
                }
            }
            return None;
        }
        if plen == remaining {
            // the prefix is exactly the remaining key: the target leaf
            proof {
                assert(suf =~= pre.prefix@);
                if is_inner(pre) {
                    lemma_entries_nonempty(pre);
                    let e = choose|e: Seq<u8>| entries(pre).dom().contains(e);
                    lemma_entries_prefix(pre, e);
                    lemma_entries_inner(pre, e);
                    assert(strict_prefix(suf, e));
                    assert(false);
                }
                assert(entries(pre).dom().contains(suf));
                assert(entries(pre)[suf] == leaf_value(pre).unwrap());
                assert forall|ln: Node<P, V>|
                    #![trigger leaf_value(ln)]
                    (ln.prefix@ == pre.prefix@ && n_type(ln) == NodeType::Leaf && leaf_value(
                        ln,
                    ) is Some && version_at_rest(ln.spec_version())) implies (wf_node(ln)
                    && entries(ln) == entries(pre).insert(suf, leaf_value(ln).unwrap())) by {
                    assert(entries(ln) =~= entries(pre).insert(suf, leaf_value(ln).unwrap()));
                }
            }
            return n.value_mut();
        }
        // the key continues past the prefix: descend into the child
        proof {
            match pre.tn {
                TreeNode::Leaf(_) => {
                    assert(entries(pre).dom().contains(pre.prefix@));
                    assert(suf.subrange(0, plen as int) =~= pre.prefix@);
                    assert(strict_prefix(pre.prefix@, suf));
                    assert(false);
                },
                _ => {},
            }
            lemma_wf_inner_unfold(pre);
            assert(depth + plen < key@.len());
        }
        let b = key.at(depth + plen);
        let ghost tg = suf.skip(plen as int);
        proof {
            assert(suf[plen as int] == key@[depth + plen]);
            assert(suf.subrange(0, plen as int) =~= pre.prefix@);
            lemma_entries_inner(pre, suf);
            if n_has(pre, b) {
                lemma_admissible_child(pre, suf, b);
                assert(key@.skip((depth + plen) as int) =~= tg);
                assert(tg[0] == b && tg.len() > 0);
                assert(!(n_child(pre, b).tn is Empty));
                assert forall|post: Node<P, V>|
                    #![trigger entries(n_child(post, b))]
                    (post.prefix@ == pre.prefix@ && n_type(post) == n_type(pre) && n_cwf(post)
                        && post.spec_version() == pre.spec_version() && n_num(post) == n_num(pre)
                        && (forall|x: u8| n_has(post, x) == n_has(pre, x)) && (forall|x: u8|
                        x != b && n_has(pre, x) ==> n_child(post, x) == n_child(pre, x))
                        && wf_node(n_child(post, b)) && n_child(post, b).prefix@ == n_child(
                        pre,
                        b,
                    ).prefix@ && n_type(n_child(post, b)) == n_type(n_child(pre, b)) && entries(
                        n_child(post, b),
                    ).dom().contains(tg) && entries(n_child(post, b)) == entries(
                        n_child(pre, b),
                    ).insert(tg, entries(n_child(post, b))[tg])) implies (wf_node(post) && entries(
                        post,
                    ) == entries(pre).insert(suf, entries(n_child(post, b))[tg])) by {
                    assert forall|x: u8| #[trigger] n_has(post, x) implies wf_node(
                        n_child(post, x),
                    ) && n_child(post, x).prefix@.len() > 0 && n_child(post, x).prefix@[0] == x
                        && !(n_child(post, x).tn is Empty) by {
                        if x != b {
                            assert(n_has(pre, x));
                        } else {
                            assert(n_child(post, b).prefix@ == n_child(pre, b).prefix@);
                        }
                    }
                    lemma_wf_inner_fold(post);
                    lemma_child_updated(pre, post, b, tg, entries(n_child(post, b))[tg]);
                    assert(pre.prefix@ + tg =~= suf);
                }
                assert forall|post: Node<P, V>|
                    #![trigger n_child(post, b)]
                    (post.prefix@ == pre.prefix@ && n_type(post) == n_type(pre) && n_cwf(post)
                        && post.spec_version() == pre.spec_version() && n_num(post) == n_num(pre)
                        && (forall|x: u8| n_has(post, x) == n_has(pre, x)) && (forall|x: u8|
                        x != b && n_has(pre, x) ==> n_child(post, x) == n_child(pre, x))
                        && wf_node(n_child(post, b)) && n_child(post, b).prefix@ == n_child(
                        pre,
                        b,
                    ).prefix@ && entries(n_child(post, b)) == entries(n_child(pre, b))) implies (
                    wf_node(post) && entries(post) == entries(pre)) by {
                    assert forall|x: u8| #[trigger] n_has(post, x) implies wf_node(
                        n_child(post, x),
                    ) && n_child(post, x).prefix@.len() > 0 && n_child(post, x).prefix@[0] == x
                        && !(n_child(post, x).tn is Empty) by {
                        if x != b {
                            assert(n_has(pre, x));
                        } else {
                            assert(n_child(post, b).prefix@ == n_child(pre, b).prefix@);
                            if n_child(post, b).tn is Empty {
                                assert(entries(n_child(pre, b)) =~= Map::<Seq<u8>, V>::empty());
                                lemma_entries_nonempty(n_child(pre, b));
                                assert(false);
                            }
                        }
                    }
                    lemma_wf_inner_fold(post);
                    assert forall|k: Seq<u8>|
                        entries(post).dom().contains(k) == entries(pre).dom().contains(k) by {
                        lemma_entries_inner(pre, k);
                        lemma_entries_inner(post, k);
                    }
                    assert forall|k: Seq<u8>| entries(post).dom().contains(k) implies entries(
                        post,
                    )[k] == entries(pre)[k] by {
                        lemma_entries_inner(pre, k);
                        lemma_entries_inner(post, k);
                    }
                    assert(entries(post) =~= entries(pre));
                }
            }
        }
        match n.find_child_mut(b) {
            Some(child) => Self::get_inner_mut(child, key, depth + plen),
            None => {
                proof {
                    assert(!entries(pre).dom().contains(suf));
                }
                None
            },
        }
    }
}

} // verus!
