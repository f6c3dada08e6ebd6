//! The optimistic version-lock protocol.
//!
//! Every node carries one word: bit 0 is the obsolete flag (terminal), bit 1
//! the write lock, and the remaining bits the version counter. A reader
//! snapshots the word and re-validates it after use instead of locking; a
//! writer moves the word from `v` to `v + 2` (locked) and releases to `v + 4`
//! (unlocked, version bumped), or sets the obsolete bit before release when
//! the node is retired.

use vstd::prelude::*;
use crate::keys::Partial;
use crate::node::{Node, version_at_rest};
use crate::utils::TreeError;

verus! {

/// Whether the word carries the write-lock bit.
pub open spec fn is_locked_word(v: u64) -> bool {
    v & 2 == 2
}

/// Whether the word carries the obsolete bit.
pub open spec fn is_obsolete_word(v: u64) -> bool {
    v & 1 == 1
}

/// A word at rest carries neither the lock nor the obsolete bit.
pub proof fn lemma_word_at_rest(v: u64)
    ensures
        version_at_rest(v) <==> (!is_locked_word(v) && !is_obsolete_word(v)),
        is_locked_word(v) && !is_obsolete_word(v) <==> v % 4 == 2,
{
    assert((v % 4 == 0) <==> (!(v & 2 == 2) && !(v & 1 == 1))) by (bit_vector);
    assert(((v & 2 == 2) && !(v & 1 == 1)) <==> v % 4 == 2) by (bit_vector);
}

/// Whether the word carries the write-lock bit.
fn is_locked(version: u64) -> (r: bool)
    ensures
        r == is_locked_word(version),
{
    (version & 0b10) == 0b10
}

/// Whether the word carries the obsolete bit.
fn is_obsolete(version: u64) -> (r: bool)
    ensures
        r == is_obsolete_word(version),
{
    (version & 1) == 1
}

/// A reader's snapshot of one node's version word.
pub struct ReadGuard<'a, P: Partial, V> {
    pub(crate) version: u64,
    pub(crate) node: &'a Node<P, V>,
}

impl<'a, P: Partial, V> ReadGuard<'a, P, V> {
    /// The snapshotted word.
    pub open(crate) spec fn spec_version(&self) -> u64 {
        self.version
    }

    /// The guarded node.
    pub open(crate) spec fn spec_node(&self) -> &'a Node<P, V> {
        self.node
    }

    /// A guard over `node` with snapshot `v`.
    pub(crate) fn new(v: u64, node: &'a Node<P, V>) -> (r: Self)
        ensures
            r.spec_version() == v,
            r.spec_node() == node,
    {
        ReadGuard { version: v, node }
    }

    /// The guarded node.
    pub(crate) fn as_ref(&self) -> (r: &'a Node<P, V>)
        ensures
            r == self.spec_node(),
    {
        self.node
    }

    /// Re-read the version word; the snapshot is still valid exactly when
    /// the word has not moved. A failure reports `Locked` when a writer
    /// currently holds the node (or retired it), else `VersionNotMatch`.
    pub(crate) fn check_version(&self) -> (r: Result<u64, TreeError>)
        ensures
            r matches Ok(v) ==> v == self.spec_version() && self.spec_node().spec_version()
                == self.spec_version(),
            r is Err ==> self.spec_node().spec_version() != self.spec_version(),
            r is Err && (is_locked_word(self.spec_node().spec_version()) || is_obsolete_word(
                self.spec_node().spec_version(),
            )) ==> r == Err::<u64, TreeError>(TreeError::Locked),
            r is Err && !(is_locked_word(self.spec_node().spec_version()) || is_obsolete_word(
                self.spec_node().spec_version(),
            )) ==> r == Err::<u64, TreeError>(TreeError::VersionNotMatch),
    {
        let v = self.node.version_word();
        if v == self.version {
            Ok(v)
        } else if is_locked(v) || is_obsolete(v) {
            Err(TreeError::Locked)
        } else {
            Err(TreeError::VersionNotMatch)
        }
    }

    /// Release the guard, validating the snapshot one last time.
    pub(crate) fn unlock(self) -> (r: Result<u64, TreeError>)
        ensures
            r matches Ok(v) ==> v == self.spec_version() && self.spec_node().spec_version()
                == self.spec_version(),
            r is Err ==> self.spec_node().spec_version() != self.spec_version(),
    {
        self.check_version()
    }
}

impl<P: Partial, V> Node<P, V> {
    /// Read the version word.
    pub(crate) fn version_word(&self) -> (r: u64)
        ensures
            r == self.spec_version(),
    {
        self.version_lock_obsolete
    }

    /// Snapshot the version word as a read guard; refused while a writer
    /// holds the node or after it was retired.
    pub(crate) fn read_lock(&self) -> (r: Result<ReadGuard<'_, P, V>, TreeError>)
        ensures
            r matches Ok(g) ==> !is_locked_word(self.spec_version()) && !is_obsolete_word(
                self.spec_version(),
            ) && g.spec_version() == self.spec_version() && g.spec_node() == self,
            r is Err ==> (is_locked_word(self.spec_version()) || is_obsolete_word(
                self.spec_version(),
            )) && r == Err::<ReadGuard<'_, P, V>, TreeError>(TreeError::Locked),
    {
        let version = self.version_word();
        if is_locked(version) || is_obsolete(version) {
            return Err(TreeError::Locked);
        }
        Ok(ReadGuard::new(version, self))
    }

    /// Take the write lock: move the word from `v` to `v + 2`. Refused,
    /// leaving the node untouched, when the word is already locked or
    /// obsolete.
    pub(crate) fn lock_version(&mut self) -> (r: Result<(), TreeError>)
        ensures
            r is Ok ==> version_at_rest(old(self).spec_version()) && final(self).spec_version()
                == old(self).spec_version() + 2 && is_locked_word(final(self).spec_version())
                && final(self).spec_prefix() == old(self).spec_prefix() && final(self).spec_tn()
                == old(self).spec_tn() && final(self).spec_version() % 4 == 2,
            r is Err ==> *final(self) == *old(self) && !version_at_rest(old(self).spec_version()),
    {
        let version = self.version_word();
        if is_locked(version) || is_obsolete(version) {
            proof {
                lemma_word_at_rest(version);
            }
            return Err(TreeError::Locked);
        }
        proof {
            lemma_word_at_rest(version);
            assert(version % 4 == 0 ==> version + 2 <= u64::MAX && (version + 2) % 4 == 2)
                by (bit_vector);
        }
        let w = version + 2;
        proof {
            lemma_word_at_rest(w);
        }
        self.set_version(w);
        Ok(())
    }

    /// Release the write lock: bump the version and clear the lock bit by
    /// moving the word from `v + 2` to `v + 4`, wrapping at the top of the
    /// counter range. The released word never equals the word any reader
    /// snapshotted before the lock was taken, so such a snapshot fails its
    /// next validation.
    pub(crate) fn unlock_version(&mut self)
        requires
            old(self).spec_version() % 4 == 2,
        ensures
            version_at_rest(final(self).spec_version()),
            final(self).spec_version() == (if old(self).spec_version() <= u64::MAX - 2 {
                old(self).spec_version() + 2
            } else {
                0int
            }),
            final(self).spec_version() != old(self).spec_version(),
            old(self).spec_version() >= 2 ==> final(self).spec_version() != old(
                self,
            ).spec_version() - 2,
            final(self).spec_prefix() == old(self).spec_prefix(),
            final(self).spec_tn() == old(self).spec_tn(),
    {
        let version = self.version_word();
        proof {
            assert(version % 4 == 2 ==> (version <= u64::MAX - 2 ==> (version + 2) % 4 == 0))
                by (bit_vector);
        }
        if version <= u64::MAX - 2 {
            self.set_version(version + 2);
        } else {
            proof {
                assert(version % 4 == 2 ==> version <= u64::MAX - 1) by (bit_vector);
            }
            self.set_version(0);
        }
    }

    /// Retire the node: set the obsolete bit while holding the write lock.
    /// The obsolete bit never clears again.
    pub(crate) fn mark_obsolete(&mut self)
        requires
            old(self).spec_version() % 4 == 2,
        ensures
            final(self).spec_version() == old(self).spec_version() + 1,
            is_obsolete_word(final(self).spec_version()),
            is_locked_word(final(self).spec_version()),
            final(self).spec_prefix() == old(self).spec_prefix(),
            final(self).spec_tn() == old(self).spec_tn(),
    {
        let version = self.version_word();
        proof {
            assert(version % 4 == 2 ==> version + 1 <= u64::MAX) by (bit_vector);
        }
        let w = version + 1;
        proof {
            assert(version % 4 == 2 && w == version + 1 ==> w & 1 == 1 && w & 2 == 2)
                by (bit_vector);
        }
        self.set_version(w);
    }
}

} // verus!
