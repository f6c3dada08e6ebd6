//! The leaf payload: the remaining key fragment and the stored value.

use vstd::prelude::*;
use crate::keys::Partial;

verus! {

/// A leaf's payload: the key fragment below the leaf's position and the
/// value stored under it.
pub struct NodeLeaf<K, V> {
    /// The remaining key fragment.
    pub kay: K,
    /// The stored value; always present in a well-formed tree.
    pub value: Option<V>,
}

impl<K: Partial, V> NodeLeaf<K, V> {
    /// Borrow the stored value.
    pub fn value_ref(&self) -> (r: Option<&V>)
        ensures
            (r is Some) == (self.value is Some),
            r matches Some(v) ==> self.value == Some(*v),
    {
        self.value.as_ref()
    }

    /// Borrow the stored value mutably.
    pub fn value_mut(&mut self) -> (r: Option<&mut V>)
        ensures
            (r is Some) == (old(self).value is Some),
            r is None ==> *final(self) == *old(self),
            r matches Some(m) ==> old(self).value == Some(*m) && final(self).kay == old(self).kay
                && final(self).value == Some(*final(m)),
    {
        match &mut self.value {
            Some(m) => Some(m),
            None => None,
        }
    }
}

} // verus!
