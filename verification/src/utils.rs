//! Tree errors, bounded backoff, and byte-key scanning helpers.

use vstd::prelude::*;
use crate::bit_array::BitArray;

verus! {

/// Why a tree operation could not complete.
#[derive(Debug, Clone, Copy, PartialEq, Eq, Structural)]
pub enum TreeError {
    /// An optimistic read was invalidated by a concurrent mutation.
    VersionNotMatch,
    /// A writer currently holds the node, or the node was retired.
    Locked,
    /// A node allocation failed during a structural change.
    Oom,
}

/// Spins up to this power of two before the step counter saturates.
pub const SPIN_LIMIT: u32 = 6;

/// Steps beyond this mark the backoff as completed.
pub const YIELD_LIMIT: u32 = 10;

/// Pauses the processor briefly inside a spin loop.
///
/// Relies on `core::hint::spin_loop`: a scheduling hint with no observable
/// effect on program state.
#[verifier::external_body]
fn cpu_relax() {
    core::hint::spin_loop();
}

/// Bounded exponential backoff: each `spin` busy-waits twice as long as the
/// previous one, up to a cap.
pub struct Backoff {
    step: u32,
}

impl Backoff {
    /// The current step.
    pub closed spec fn spec_step(&self) -> u32 {
        self.step
    }

    /// A backoff at step zero.
    pub fn new() -> (r: Self)
        ensures
            r.spec_step() == 0,
    {
        Backoff { step: 0 }
    }

    /// Reset to step zero.
    pub fn reset(&mut self)
        ensures
            final(self).spec_step() == 0,
    {
        self.step = 0;
    }

    /// Busy-wait `2^min(step, SPIN_LIMIT)` iterations, then advance the step
    /// until it passes `SPIN_LIMIT`.
    pub fn spin(&mut self)
        ensures
            final(self).spec_step() == if old(self).spec_step() <= SPIN_LIMIT {
                old(self).spec_step() + 1int
            } else {
                old(self).spec_step() as int
            },
    {
        let exp: u32 = if self.step < SPIN_LIMIT {
            self.step
        } else {
            SPIN_LIMIT
        };
        let rounds: u32 = 1u32 << exp;
        let mut k: u32 = 0;
        while k < rounds
            invariant
                k <= rounds,
            decreases rounds - k,
        {
            cpu_relax();
            k += 1;
        }
        if self.step <= SPIN_LIMIT {
            self.step += 1;
        }
    }

    /// Whether the backoff has passed its final step.
    pub fn is_completed(&self) -> (r: bool)
        ensures
            r == (self.spec_step() > YIELD_LIMIT),
    {
        self.step > YIELD_LIMIT
    }
}

/// Whether `keys[i]` matches `key` in a keyed node scan: a stored byte equal
/// to `key`, where the reserved byte 255 also demands slot presence (erased
/// slots park their key byte at 255).
pub open spec fn key_match_at<N, const W: usize>(
    key: u8,
    keys: Seq<u8>,
    children: &BitArray<N, W>,
    i: int,
) -> bool {
    keys[i] == key && (key == 255 ==> children@[i] is Some)
}

/// Position of `key` among the stored key bytes of a keyed node, masked by
/// slot presence for the reserved byte 255.
pub fn u8_keys_find_key_position<N, const W: usize>(
    key: u8,
    keys: &[u8],
    children: &BitArray<N, W>,
) -> (r: Option<usize>)
    requires
        keys@.len() == W,
        children.wf(),
    ensures
        r matches Some(i) ==> i < W && key_match_at(key, keys@, children, i as int) && (forall|
            j: int,
        | 0 <= j < i ==> !key_match_at(key, keys@, children, j)),
        r is None ==> forall|j: int| 0 <= j < W ==> !key_match_at(key, keys@, children, j),
{
    let mut i: usize = 0;
    while i < W
        invariant
            keys@.len() == W,
            children.wf(),
            i <= W,
            forall|j: int| 0 <= j < i ==> !key_match_at(key, keys@, children, j),
        decreases W - i,
    {
        if keys[i] == key {
            if key != 255 || children.check(i) {
                return Some(i);
            }
        }
        i += 1;
    }
    None
}

/// Position of `key` among the first `num_children` sorted key bytes, by
/// binary search.
pub fn binary_find_key(key: u8, keys: &[u8], num_children: usize) -> (r: Option<usize>)
    requires
        num_children <= keys@.len(),
        forall|i: int, j: int| 0 <= i < j < num_children ==> keys@[i] < keys@[j],
    ensures
        r matches Some(i) ==> i < num_children && keys@[i as int] == key,
        r is None ==> forall|j: int| 0 <= j < num_children ==> keys@[j] != key,
{
    let mut left: usize = 0;
    let mut right: usize = num_children;
    while left < right
        invariant
            left <= right <= num_children <= keys@.len(),
            forall|i: int, j: int| 0 <= i < j < num_children ==> keys@[i] < keys@[j],
            forall|j: int| 0 <= j < left ==> keys@[j] < key,
            forall|j: int| right <= j < num_children ==> keys@[j] > key,
        decreases right - left,
    {
        let mid = left + (right - left) / 2;
        if keys[mid] < key {
            left = mid + 1;
        } else if keys[mid] == key {
            return Some(mid);
        } else {
            right = mid;
        }
    }
    None
}

/// Position of `key` among the first `num_children` sorted key bytes. A
/// vectorized scan is an optional fast path behind this same scalar
/// contract.
pub fn u8_keys_find_key_position_sorted<const WIDTH: usize>(
    key: u8,
    keys: &[u8],
    num_children: usize,
) -> (r: Option<usize>)
    requires
        num_children <= keys@.len(),
        forall|i: int, j: int| 0 <= i < j < num_children ==> keys@[i] < keys@[j],
    ensures
        r matches Some(i) ==> i < num_children && keys@[i as int] == key,
        r is None ==> forall|j: int| 0 <= j < num_children ==> keys@[j] != key,
{
    if WIDTH <= 4 {
        let mut i: usize = 0;
        while i < num_children
            invariant
                num_children <= keys@.len(),
                i <= num_children,
                forall|j: int| 0 <= j < i ==> keys@[j] != key,
            decreases num_children - i,
        {
            if keys[i] == key {
                return Some(i);
            }
            i += 1;
        }
        None
    } else {
        binary_find_key(key, keys, num_children)
    }
}

/// Position at which `key` keeps the first `num_children` sorted key bytes
/// sorted when inserted: the first position holding a strictly greater byte,
/// or `num_children` when none does.
pub fn u8_keys_find_insert_position<const WIDTH: usize>(
    key: u8,
    keys: &[u8],
    num_children: usize,
) -> (r: Option<usize>)
    requires
        num_children <= keys@.len(),
    ensures
        r matches Some(p) ==> p <= num_children && (p < num_children ==> keys@[p as int] > key)
            && (forall|j: int| 0 <= j < p ==> keys@[j] <= key),
        r is Some,
{
    let mut i: usize = 0;
    while i < num_children
        invariant
            num_children <= keys@.len(),
            i <= num_children,
            forall|j: int| 0 <= j < i ==> keys@[j] <= key,
        decreases num_children - i,
    {
        if keys[i] > key {
            return Some(i);
        }
        i += 1;
    }
    Some(num_children)
}

} // verus!
