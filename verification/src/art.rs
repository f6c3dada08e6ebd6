//! The adaptive radix tree behind an epoch-pinned facade.
//!
//! Mutating traversals pin the current reclamation epoch before touching
//! shared nodes; with owned tagged-variant nodes the deferred free
//! degenerates to ordinary ownership, and the pin is the capability the
//! tree operations require to run.

use vstd::prelude::*;
use crate::keys::Partial;
use crate::tree::{PrefixTraits, RawTree, key_admissible};
use crate::node::entries;

verus! {

/// An epoch guard of the reclamation scheme.
///
/// Relies on `crossbeam_epoch::Guard`: the handle a pinned participant
/// holds for the duration of its critical section.
#[verifier::external_type_specification]
#[verifier::external_body]
pub struct ExGuard(crossbeam_epoch::Guard);

/// Pin the current thread to the reclamation epoch.
///
/// Relies on `crossbeam_epoch::pin`: pins the current participant and hands
/// back the guard of the critical section.
#[verifier::external_body]
fn epoch_pin() -> crossbeam_epoch::Guard {
    crossbeam_epoch::pin()
}

/// An exact-match key-to-value index over order-preserving byte keys.
pub struct ArtTree<K: PrefixTraits, V> {
    pub(crate) inner: RawTree<K, V>,
}

impl<K: PrefixTraits, V> ArtTree<K, V> {
    /// The tree's internal invariant.
    pub open(crate) spec fn wf(&self) -> bool {
        self.inner.wf()
    }

    /// The key/value map the tree holds.
    pub open(crate) spec fn spec_map(&self) -> Map<Seq<u8>, V> {
        self.inner.spec_map()
    }

    /// An empty tree.
    pub fn new() -> (r: Self)
        ensures
            r.wf(),
            r.spec_map() == Map::<Seq<u8>, V>::empty(),
    {
        ArtTree { inner: RawTree::new() }
    }

    /// Pin the current thread to the reclamation epoch for a sequence of
    /// tree operations.
    pub fn pin(&self) -> crossbeam_epoch::Guard {
        epoch_pin()
    }

    /// Insert or update `key`, handing back the previous value.
    pub fn insert(&mut self, key: K, value: V, guard: &crossbeam_epoch::Guard) -> (r: Option<V>)
        requires
            old(self).wf(),
            key_admissible(key@, old(self).spec_map()),
        ensures
            final(self).wf(),
            final(self).spec_map() == old(self).spec_map().insert(key@, value),
            r == (if old(self).spec_map().dom().contains(key@) {
                Some(old(self).spec_map()[key@])
            } else {
                None::<V>
            }),
    {
        self.inner.insert(&key, value, guard)
    }

    /// Look up the value stored under `key`.
    pub fn get(&self, key: K, guard: &crossbeam_epoch::Guard) -> (r: Option<&V>)
        requires
            self.wf(),
            key_admissible(key@, self.spec_map()),
        ensures
            (r is Some) == self.spec_map().dom().contains(key@),
            r matches Some(v) ==> *v == self.spec_map()[key@],
    {
        self.inner.get(&key, guard)
    }

    /// Remove `key`, handing back the value stored under it.
    pub fn remove(&mut self, key: K) -> (r: Option<V>)
        requires
            old(self).wf(),
            key_admissible(key@, old(self).spec_map()),
        ensures
            final(self).wf(),
            final(self).spec_map() == old(self).spec_map().remove(key@),
            r == (if old(self).spec_map().dom().contains(key@) {
                Some(old(self).spec_map()[key@])
            } else {
                None::<V>
            }),
    {
        self.inner.remove(&key)
    }
}

} // verus!
