//! The laws the tree's contracts promise, stated once over the map model
//! that `get`, `insert` and `remove` are specified against, together with
//! the prefix-freedom guarantees of the key encodings that make every
//! encoded key admissible.

use vstd::prelude::*;
use crate::keys::{be16, be32, be64, be128};
use crate::node::strict_prefix;
use crate::tree::key_admissible;

verus! {

/// Byte-wise lexicographic order on byte sequences.
pub open spec fn lex_lt(a: Seq<u8>, b: Seq<u8>) -> bool
    decreases a.len(),
{
    b.len() > 0 && (a.len() == 0 || a[0] < b[0] || (a[0] == b[0] && lex_lt(
        a.skip(1),
        b.skip(1),
    )))
}

/// Round trip: after `insert(k, v)` the map holds `v` under `k`, and `k`
/// stays admissible, so a following `get(k)` is specified to return `v`.
pub proof fn law_insert_then_get<V>(m: Map<Seq<u8>, V>, k: Seq<u8>, v: V)
    requires
        key_admissible(k, m),
    ensures
        m.insert(k, v).dom().contains(k),
        m.insert(k, v)[k] == v,
        key_admissible(k, m.insert(k, v)),
{
}

/// Update semantics: a second `insert(k, v2)` is specified to hand back
/// `v1`, and a following `get(k)` to return `v2`.
pub proof fn law_insert_update<V>(m: Map<Seq<u8>, V>, k: Seq<u8>, v1: V, v2: V)
    requires
        key_admissible(k, m),
    ensures
        m.insert(k, v1).dom().contains(k),
        m.insert(k, v1)[k] == v1,
        key_admissible(k, m.insert(k, v1)),
        m.insert(k, v1).insert(k, v2)[k] == v2,
{
}

/// Deletion: after `insert(k, v)`, a `remove(k)` is specified to hand back
/// `v` and leave `k` absent; on a map without `k`, `remove(k)` changes
/// nothing and is specified to hand back nothing.
pub proof fn law_insert_remove<V>(m: Map<Seq<u8>, V>, k: Seq<u8>, v: V)
    requires
        key_admissible(k, m),
        !m.dom().contains(k),
    ensures
        m.insert(k, v).dom().contains(k),
        m.insert(k, v)[k] == v,
        key_admissible(k, m.insert(k, v)),
        !m.insert(k, v).remove(k).dom().contains(k),
        m.insert(k, v).remove(k) == m,
        m.remove(k) == m,
{
    assert(m.insert(k, v).remove(k) =~= m);
    assert(m.remove(k) =~= m);
}

/// Prefix-split correctness: two distinct, mutually admissible keys stay
/// independently retrievable after both inserts, whatever order the values
/// landed in, and each stays admissible.
pub proof fn law_prefix_split<V>(m: Map<Seq<u8>, V>, k1: Seq<u8>, k2: Seq<u8>, v1: V, v2: V)
    requires
        key_admissible(k1, m),
        key_admissible(k2, m),
        !strict_prefix(k1, k2),
        !strict_prefix(k2, k1),
        k1 != k2,
    ensures
        key_admissible(k2, m.insert(k1, v1)),
        key_admissible(k1, m.insert(k1, v1).insert(k2, v2)),
        m.insert(k1, v1).insert(k2, v2)[k1] == v1,
        m.insert(k1, v1).insert(k2, v2)[k2] == v2,
        m.insert(k1, v1).insert(k2, v2).dom().contains(k1),
        m.insert(k1, v1).insert(k2, v2).dom().contains(k2),
{
}

/// Two keys of the same length are never strict prefixes of one another, so
/// every pair of fixed-width integer encodings is mutually admissible.
pub proof fn law_fixed_width_incomparable(a: Seq<u8>, b: Seq<u8>)
    requires
        a.len() == b.len(),
    ensures
        !strict_prefix(a, b),
        !strict_prefix(b, a),
{
}

/// NUL termination makes string keys prefix-free: appending one zero byte to
/// zero-free byte sequences yields keys of which none is a strict prefix of
/// another, and which are equal only when the strings were.
pub proof fn law_terminated_prefix_free(a: Seq<u8>, b: Seq<u8>)
    requires
        forall|i: int| 0 <= i < a.len() ==> a[i] != 0,
        forall|i: int| 0 <= i < b.len() ==> b[i] != 0,
    ensures
        !strict_prefix(a + seq![0u8], b + seq![0u8]),
        (a + seq![0u8] == b + seq![0u8]) ==> a == b,
{
    let a0 = a + seq![0u8];
    let b0 = b + seq![0u8];
    if strict_prefix(a0, b0) {
        assert(b0.subrange(0, a0.len() as int)[a.len() as int] == a0[a.len() as int]);
        assert(b0[a.len() as int] == 0);
        if a.len() < b.len() {
            assert(b[a.len() as int] != 0);
            assert(b0[a.len() as int] == b[a.len() as int]);
        }
    }
    if a0 == b0 {
        assert(a =~= a0.subrange(0, a.len() as int));
        assert(b =~= b0.subrange(0, b.len() as int));
    }
}

} // verus!

verus! {


/// The big-endian `u16` encoding preserves numeric order byte-wise.
pub proof fn law_be16_order(x: u16, y: u16)
    requires
        x < y,
    ensures
        lex_lt(be16(x), be16(y)),
{
    let a = be16(x);
    let b = be16(y);
    assert(x < y ==> ((x >> 8) as u8) <= ((y >> 8) as u8)) by (bit_vector);
    if a[0] == b[0] {
        assert(x < y && ((x >> 8) as u8) == ((y >> 8) as u8) ==> (x as u8) < (y as u8)) by (bit_vector);
        let a1 = a.skip(1);
        let b1 = b.skip(1);
        assert(a1[0] == a[1] && b1[0] == b[1]);
        assert(lex_lt(a1, b1));
        assert(a[0] == a[0] && b[0] == b[0]);
        assert(lex_lt(a, b));
    } else {
        assert(a[0] == a[0] && b[0] == b[0]);
        assert(lex_lt(a, b));
    }
}

/// The sign-flipped `i16` encoding compares byte-wise like the number.
pub proof fn law_i16_order(x: i16, y: i16)
    requires
        x < y,
    ensures
        lex_lt(be16((x as u16) ^ 0x8000), be16((y as u16) ^ 0x8000)),
{
    assert(x < y ==> ((x as u16) ^ 0x8000) < ((y as u16) ^ 0x8000)) by (bit_vector);
    law_be16_order((x as u16) ^ 0x8000, (y as u16) ^ 0x8000);
}

/// The big-endian `u32` encoding preserves numeric order byte-wise.
pub proof fn law_be32_order(x: u32, y: u32)
    requires
        x < y,
    ensures
        lex_lt(be32(x), be32(y)),
{
    let a = be32(x);
    let b = be32(y);
    assert(x < y ==> ((x >> 24) as u8) <= ((y >> 24) as u8)) by (bit_vector);
    if a[0] == b[0] {
        assert(x < y && ((x >> 24) as u8) == ((y >> 24) as u8) ==> ((x >> 16) as u8) <= ((y >> 16) as u8)) by (bit_vector);
        let a1 = a.skip(1);
        let b1 = b.skip(1);
        if a[1] == b[1] {
            assert(x < y && ((x >> 24) as u8) == ((y >> 24) as u8) && ((x >> 16) as u8) == ((y >> 16) as u8) ==> ((x >> 8) as u8) <= ((y >> 8) as u8)) by (bit_vector);
            let a2 = a1.skip(1);
            let b2 = b1.skip(1);
            if a[2] == b[2] {
                assert(x < y && ((x >> 24) as u8) == ((y >> 24) as u8) && ((x >> 16) as u8) == ((y >> 16) as u8) && ((x >> 8) as u8) == ((y >> 8) as u8) ==> (x as u8) < (y as u8)) by (bit_vector);
                let a3 = a2.skip(1);
                let b3 = b2.skip(1);
                assert(a3[0] == a[3] && b3[0] == b[3]);
                assert(lex_lt(a3, b3));
                assert(a2[0] == a[2] && b2[0] == b[2]);
                assert(lex_lt(a2, b2));
            } else {
                assert(a2[0] == a[2] && b2[0] == b[2]);
                assert(lex_lt(a2, b2));
            }
            assert(a1[0] == a[1] && b1[0] == b[1]);
            assert(lex_lt(a1, b1));
        } else {
            assert(a1[0] == a[1] && b1[0] == b[1]);
            assert(lex_lt(a1, b1));
        }
        assert(a[0] == a[0] && b[0] == b[0]);
        assert(lex_lt(a, b));
    } else {
        assert(a[0] == a[0] && b[0] == b[0]);
        assert(lex_lt(a, b));
    }
}

/// The sign-flipped `i32` encoding compares byte-wise like the number.
pub proof fn law_i32_order(x: i32, y: i32)
    requires
        x < y,
    ensures
        lex_lt(be32((x as u32) ^ 0x8000_0000), be32((y as u32) ^ 0x8000_0000)),
{
    assert(x < y ==> ((x as u32) ^ 0x8000_0000) < ((y as u32) ^ 0x8000_0000)) by (bit_vector);
    law_be32_order((x as u32) ^ 0x8000_0000, (y as u32) ^ 0x8000_0000);
}


/// The big-endian `u128` encoding preserves numeric order byte-wise.
#[verifier::rlimit(100)]
#[verifier::spinoff_prover]
pub proof fn law_be128_order(x: u128, y: u128)
    requires
        x < y,
    ensures
        lex_lt(be128(x), be128(y)),
{
    let a = be128(x);
    let b = be128(y);
    assert(x < y ==> ((x >> 120) as u8) <= ((y >> 120) as u8)) by (bit_vector);
    if a[0] == b[0] {
        assert(x < y && ((x >> 120) as u8) == ((y >> 120) as u8) ==> ((x >> 112) as u8) <= ((y >> 112) as u8)) by (bit_vector);
        let a1 = a.skip(1);
        let b1 = b.skip(1);
        if a[1] == b[1] {
            assert(x < y && ((x >> 120) as u8) == ((y >> 120) as u8) && ((x >> 112) as u8) == ((y >> 112) as u8) ==> ((x >> 104) as u8) <= ((y >> 104) as u8)) by (bit_vector);
            let a2 = a1.skip(1);
            let b2 = b1.skip(1);
            if a[2] == b[2] {
                assert(x < y && ((x >> 120) as u8) == ((y >> 120) as u8) && ((x >> 112) as u8) == ((y >> 112) as u8) && ((x >> 104) as u8) == ((y >> 104) as u8) ==> ((x >> 96) as u8) <= ((y >> 96) as u8)) by (bit_vector);
                let a3 = a2.skip(1);
                let b3 = b2.skip(1);
                if a[3] == b[3] {
                    assert(x < y && ((x >> 120) as u8) == ((y >> 120) as u8) && ((x >> 112) as u8) == ((y >> 112) as u8) && ((x >> 104) as u8) == ((y >> 104) as u8) && ((x >> 96) as u8) == ((y >> 96) as u8) ==> ((x >> 88) as u8) <= ((y >> 88) as u8)) by (bit_vector);
                    let a4 = a3.skip(1);
                    let b4 = b3.skip(1);
                    if a[4] == b[4] {
                        assert(x < y && ((x >> 120) as u8) == ((y >> 120) as u8) && ((x >> 112) as u8) == ((y >> 112) as u8) && ((x >> 104) as u8) == ((y >> 104) as u8) && ((x >> 96) as u8) == ((y >> 96) as u8) && ((x >> 88) as u8) == ((y >> 88) as u8) ==> ((x >> 80) as u8) <= ((y >> 80) as u8)) by (bit_vector);
                        let a5 = a4.skip(1);
                        let b5 = b4.skip(1);
                        if a[5] == b[5] {
                            assert(x < y && ((x >> 120) as u8) == ((y >> 120) as u8) && ((x >> 112) as u8) == ((y >> 112) as u8) && ((x >> 104) as u8) == ((y >> 104) as u8) && ((x >> 96) as u8) == ((y >> 96) as u8) && ((x >> 88) as u8) == ((y >> 88) as u8) && ((x >> 80) as u8) == ((y >> 80) as u8) ==> ((x >> 72) as u8) <= ((y >> 72) as u8)) by (bit_vector);
                            let a6 = a5.skip(1);
                            let b6 = b5.skip(1);
                            if a[6] == b[6] {
                                assert(x < y && ((x >> 120) as u8) == ((y >> 120) as u8) && ((x >> 112) as u8) == ((y >> 112) as u8) && ((x >> 104) as u8) == ((y >> 104) as u8) && ((x >> 96) as u8) == ((y >> 96) as u8) && ((x >> 88) as u8) == ((y >> 88) as u8) && ((x >> 80) as u8) == ((y >> 80) as u8) && ((x >> 72) as u8) == ((y >> 72) as u8) ==> ((x >> 64) as u8) <= ((y >> 64) as u8)) by (bit_vector);
                                let a7 = a6.skip(1);
                                let b7 = b6.skip(1);
                                if a[7] == b[7] {
                                    assert(x < y && ((x >> 120) as u8) == ((y >> 120) as u8) && ((x >> 112) as u8) == ((y >> 112) as u8) && ((x >> 104) as u8) == ((y >> 104) as u8) && ((x >> 96) as u8) == ((y >> 96) as u8) && ((x >> 88) as u8) == ((y >> 88) as u8) && ((x >> 80) as u8) == ((y >> 80) as u8) && ((x >> 72) as u8) == ((y >> 72) as u8) && ((x >> 64) as u8) == ((y >> 64) as u8) ==> ((x >> 56) as u8) <= ((y >> 56) as u8)) by (bit_vector);
                                    let a8 = a7.skip(1);
                                    let b8 = b7.skip(1);
                                    if a[8] == b[8] {
                                        assert(x < y && ((x >> 120) as u8) == ((y >> 120) as u8) && ((x >> 112) as u8) == ((y >> 112) as u8) && ((x >> 104) as u8) == ((y >> 104) as u8) && ((x >> 96) as u8) == ((y >> 96) as u8) && ((x >> 88) as u8) == ((y >> 88) as u8) && ((x >> 80) as u8) == ((y >> 80) as u8) && ((x >> 72) as u8) == ((y >> 72) as u8) && ((x >> 64) as u8) == ((y >> 64) as u8) && ((x >> 56) as u8) == ((y >> 56) as u8) ==> ((x >> 48) as u8) <= ((y >> 48) as u8)) by (bit_vector);
                                        let a9 = a8.skip(1);
                                        let b9 = b8.skip(1);
                                        if a[9] == b[9] {
                                            assert(x < y && ((x >> 120) as u8) == ((y >> 120) as u8) && ((x >> 112) as u8) == ((y >> 112) as u8) && ((x >> 104) as u8) == ((y >> 104) as u8) && ((x >> 96) as u8) == ((y >> 96) as u8) && ((x >> 88) as u8) == ((y >> 88) as u8) && ((x >> 80) as u8) == ((y >> 80) as u8) && ((x >> 72) as u8) == ((y >> 72) as u8) && ((x >> 64) as u8) == ((y >> 64) as u8) && ((x >> 56) as u8) == ((y >> 56) as u8) && ((x >> 48) as u8) == ((y >> 48) as u8) ==> ((x >> 40) as u8) <= ((y >> 40) as u8)) by (bit_vector);
                                            let a10 = a9.skip(1);
                                            let b10 = b9.skip(1);
                                            if a[10] == b[10] {
                                                assert(x < y && ((x >> 120) as u8) == ((y >> 120) as u8) && ((x >> 112) as u8) == ((y >> 112) as u8) && ((x >> 104) as u8) == ((y >> 104) as u8) && ((x >> 96) as u8) == ((y >> 96) as u8) && ((x >> 88) as u8) == ((y >> 88) as u8) && ((x >> 80) as u8) == ((y >> 80) as u8) && ((x >> 72) as u8) == ((y >> 72) as u8) && ((x >> 64) as u8) == ((y >> 64) as u8) && ((x >> 56) as u8) == ((y >> 56) as u8) && ((x >> 48) as u8) == ((y >> 48) as u8) && ((x >> 40) as u8) == ((y >> 40) as u8) ==> ((x >> 32) as u8) <= ((y >> 32) as u8)) by (bit_vector);
                                                let a11 = a10.skip(1);
                                                let b11 = b10.skip(1);
                                                if a[11] == b[11] {
                                                    assert(x < y && ((x >> 120) as u8) == ((y >> 120) as u8) && ((x >> 112) as u8) == ((y >> 112) as u8) && ((x >> 104) as u8) == ((y >> 104) as u8) && ((x >> 96) as u8) == ((y >> 96) as u8) && ((x >> 88) as u8) == ((y >> 88) as u8) && ((x >> 80) as u8) == ((y >> 80) as u8) && ((x >> 72) as u8) == ((y >> 72) as u8) && ((x >> 64) as u8) == ((y >> 64) as u8) && ((x >> 56) as u8) == ((y >> 56) as u8) && ((x >> 48) as u8) == ((y >> 48) as u8) && ((x >> 40) as u8) == ((y >> 40) as u8) && ((x >> 32) as u8) == ((y >> 32) as u8) ==> ((x >> 24) as u8) <= ((y >> 24) as u8)) by (bit_vector);
                                                    let a12 = a11.skip(1);
                                                    let b12 = b11.skip(1);
                                                    if a[12] == b[12] {
                                                        assert(x < y && ((x >> 120) as u8) == ((y >> 120) as u8) && ((x >> 112) as u8) == ((y >> 112) as u8) && ((x >> 104) as u8) == ((y >> 104) as u8) && ((x >> 96) as u8) == ((y >> 96) as u8) && ((x >> 88) as u8) == ((y >> 88) as u8) && ((x >> 80) as u8) == ((y >> 80) as u8) && ((x >> 72) as u8) == ((y >> 72) as u8) && ((x >> 64) as u8) == ((y >> 64) as u8) && ((x >> 56) as u8) == ((y >> 56) as u8) && ((x >> 48) as u8) == ((y >> 48) as u8) && ((x >> 40) as u8) == ((y >> 40) as u8) && ((x >> 32) as u8) == ((y >> 32) as u8) && ((x >> 24) as u8) == ((y >> 24) as u8) ==> ((x >> 16) as u8) <= ((y >> 16) as u8)) by (bit_vector);
                                                        let a13 = a12.skip(1);
                                                        let b13 = b12.skip(1);
                                                        if a[13] == b[13] {
                                                            assert(x < y && ((x >> 120) as u8) == ((y >> 120) as u8) && ((x >> 112) as u8) == ((y >> 112) as u8) && ((x >> 104) as u8) == ((y >> 104) as u8) && ((x >> 96) as u8) == ((y >> 96) as u8) && ((x >> 88) as u8) == ((y >> 88) as u8) && ((x >> 80) as u8) == ((y >> 80) as u8) && ((x >> 72) as u8) == ((y >> 72) as u8) && ((x >> 64) as u8) == ((y >> 64) as u8) && ((x >> 56) as u8) == ((y >> 56) as u8) && ((x >> 48) as u8) == ((y >> 48) as u8) && ((x >> 40) as u8) == ((y >> 40) as u8) && ((x >> 32) as u8) == ((y >> 32) as u8) && ((x >> 24) as u8) == ((y >> 24) as u8) && ((x >> 16) as u8) == ((y >> 16) as u8) ==> ((x >> 8) as u8) <= ((y >> 8) as u8)) by (bit_vector);
                                                            let a14 = a13.skip(1);
                                                            let b14 = b13.skip(1);
                                                            if a[14] == b[14] {
                                                                assert(x < y && ((x >> 120) as u8) == ((y >> 120) as u8) && ((x >> 112) as u8) == ((y >> 112) as u8) && ((x >> 104) as u8) == ((y >> 104) as u8) && ((x >> 96) as u8) == ((y >> 96) as u8) && ((x >> 88) as u8) == ((y >> 88) as u8) && ((x >> 80) as u8) == ((y >> 80) as u8) && ((x >> 72) as u8) == ((y >> 72) as u8) && ((x >> 64) as u8) == ((y >> 64) as u8) && ((x >> 56) as u8) == ((y >> 56) as u8) && ((x >> 48) as u8) == ((y >> 48) as u8) && ((x >> 40) as u8) == ((y >> 40) as u8) && ((x >> 32) as u8) == ((y >> 32) as u8) && ((x >> 24) as u8) == ((y >> 24) as u8) && ((x >> 16) as u8) == ((y >> 16) as u8) && ((x >> 8) as u8) == ((y >> 8) as u8) ==> (x as u8) < (y as u8)) by (bit_vector);
                                                                let a15 = a14.skip(1);
                                                                let b15 = b14.skip(1);
                                                                assert(a15[0] == a[15] && b15[0] == b[15]);
                                                                assert(lex_lt(a15, b15));
                                                                assert(a14[0] == a[14] && b14[0] == b[14]);
                                                                assert(lex_lt(a14, b14));
                                                            } else {
                                                                assert(a14[0] == a[14] && b14[0] == b[14]);
                                                                assert(lex_lt(a14, b14));
                                                            }
                                                            assert(a13[0] == a[13] && b13[0] == b[13]);
                                                            assert(lex_lt(a13, b13));
                                                        } else {
                                                            assert(a13[0] == a[13] && b13[0] == b[13]);
                                                            assert(lex_lt(a13, b13));
                                                        }
                                                        assert(a12[0] == a[12] && b12[0] == b[12]);
                                                        assert(lex_lt(a12, b12));
                                                    } else {
                                                        assert(a12[0] == a[12] && b12[0] == b[12]);
                                                        assert(lex_lt(a12, b12));
                                                    }
                                                    assert(a11[0] == a[11] && b11[0] == b[11]);
                                                    assert(lex_lt(a11, b11));
                                                } else {
                                                    assert(a11[0] == a[11] && b11[0] == b[11]);
                                                    assert(lex_lt(a11, b11));
                                                }
                                                assert(a10[0] == a[10] && b10[0] == b[10]);
                                                assert(lex_lt(a10, b10));
                                            } else {
                                                assert(a10[0] == a[10] && b10[0] == b[10]);
                                                assert(lex_lt(a10, b10));
                                            }
                                            assert(a9[0] == a[9] && b9[0] == b[9]);
                                            assert(lex_lt(a9, b9));
                                        } else {
                                            assert(a9[0] == a[9] && b9[0] == b[9]);
                                            assert(lex_lt(a9, b9));
                                        }
                                        assert(a8[0] == a[8] && b8[0] == b[8]);
                                        assert(lex_lt(a8, b8));
                                    } else {
                                        assert(a8[0] == a[8] && b8[0] == b[8]);
                                        assert(lex_lt(a8, b8));
                                    }
                                    assert(a7[0] == a[7] && b7[0] == b[7]);
                                    assert(lex_lt(a7, b7));
                                } else {
                                    assert(a7[0] == a[7] && b7[0] == b[7]);
                                    assert(lex_lt(a7, b7));
                                }
                                assert(a6[0] == a[6] && b6[0] == b[6]);
                                assert(lex_lt(a6, b6));
                            } else {
                                assert(a6[0] == a[6] && b6[0] == b[6]);
                                assert(lex_lt(a6, b6));
                            }
                            assert(a5[0] == a[5] && b5[0] == b[5]);
                            assert(lex_lt(a5, b5));
                        } else {
                            assert(a5[0] == a[5] && b5[0] == b[5]);
                            assert(lex_lt(a5, b5));
                        }
                        assert(a4[0] == a[4] && b4[0] == b[4]);
                        assert(lex_lt(a4, b4));
                    } else {
                        assert(a4[0] == a[4] && b4[0] == b[4]);
                        assert(lex_lt(a4, b4));
                    }
                    assert(a3[0] == a[3] && b3[0] == b[3]);
                    assert(lex_lt(a3, b3));
                } else {
                    assert(a3[0] == a[3] && b3[0] == b[3]);
                    assert(lex_lt(a3, b3));
                }
                assert(a2[0] == a[2] && b2[0] == b[2]);
                assert(lex_lt(a2, b2));
            } else {
                assert(a2[0] == a[2] && b2[0] == b[2]);
                assert(lex_lt(a2, b2));
            }
            assert(a1[0] == a[1] && b1[0] == b[1]);
            assert(lex_lt(a1, b1));
        } else {
            assert(a1[0] == a[1] && b1[0] == b[1]);
            assert(lex_lt(a1, b1));
        }
        assert(a[0] == a[0] && b[0] == b[0]);
        assert(lex_lt(a, b));
    } else {
        assert(a[0] == a[0] && b[0] == b[0]);
        assert(lex_lt(a, b));
    }
}

/// The sign-flipped `i128` encoding compares byte-wise like the number.
pub proof fn law_i128_order(x: i128, y: i128)
    requires
        x < y,
    ensures
        lex_lt(be128((x as u128) ^ 0x8000_0000_0000_0000_0000_0000_0000_0000), be128((y as u128) ^ 0x8000_0000_0000_0000_0000_0000_0000_0000)),
{
    assert(x < y ==> ((x as u128) ^ 0x8000_0000_0000_0000_0000_0000_0000_0000) < ((y as u128) ^ 0x8000_0000_0000_0000_0000_0000_0000_0000)) by (bit_vector);
    law_be128_order((x as u128) ^ 0x8000_0000_0000_0000_0000_0000_0000_0000, (y as u128) ^ 0x8000_0000_0000_0000_0000_0000_0000_0000);
}

/// The single-byte sign-flipped `i8` encoding compares like the number.
pub proof fn law_i8_order(x: i8, y: i8)
    requires
        x < y,
    ensures
        lex_lt(seq![(x as u8) ^ 0x80], seq![(y as u8) ^ 0x80]),
{
    assert(x < y ==> ((x as u8) ^ 0x80) < ((y as u8) ^ 0x80)) by (bit_vector);
}

/// The big-endian encoding preserves numeric order: byte-wise lexicographic
/// comparison of two encoded words agrees with comparing the words.
pub proof fn law_be64_order(x: u64, y: u64)
    requires
        x < y,
    ensures
        lex_lt(be64(x), be64(y)),
{
    let a = be64(x);
    let b = be64(y);
    assert(x < y ==> ((x >> 56) as u8) <= ((y >> 56) as u8)) by (bit_vector);
    if a[0] == b[0] {
        assert(x < y && ((x >> 56) as u8) == ((y >> 56) as u8) ==> ((x >> 48) as u8) <= ((y >> 48) as u8)) by (bit_vector);
        let a1 = a.skip(1);
        let b1 = b.skip(1);
        if a[1] == b[1] {
            assert(x < y && ((x >> 56) as u8) == ((y >> 56) as u8) && ((x >> 48) as u8) == ((y >> 48) as u8) ==> ((x >> 40) as u8) <= ((y >> 40) as u8)) by (bit_vector);
            let a2 = a1.skip(1);
            let b2 = b1.skip(1);
            if a[2] == b[2] {
                assert(x < y && ((x >> 56) as u8) == ((y >> 56) as u8) && ((x >> 48) as u8) == ((y >> 48) as u8) && ((x >> 40) as u8) == ((y >> 40) as u8) ==> ((x >> 32) as u8) <= ((y >> 32) as u8)) by (bit_vector);
                let a3 = a2.skip(1);
                let b3 = b2.skip(1);
                if a[3] == b[3] {
                    assert(x < y && ((x >> 56) as u8) == ((y >> 56) as u8) && ((x >> 48) as u8) == ((y >> 48) as u8) && ((x >> 40) as u8) == ((y >> 40) as u8) && ((x >> 32) as u8) == ((y >> 32) as u8) ==> ((x >> 24) as u8) <= ((y >> 24) as u8)) by (bit_vector);
                    let a4 = a3.skip(1);
                    let b4 = b3.skip(1);
                    if a[4] == b[4] {
                        assert(x < y && ((x >> 56) as u8) == ((y >> 56) as u8) && ((x >> 48) as u8) == ((y >> 48) as u8) && ((x >> 40) as u8) == ((y >> 40) as u8) && ((x >> 32) as u8) == ((y >> 32) as u8) && ((x >> 24) as u8) == ((y >> 24) as u8) ==> ((x >> 16) as u8) <= ((y >> 16) as u8)) by (bit_vector);
                        let a5 = a4.skip(1);
                        let b5 = b4.skip(1);
                        if a[5] == b[5] {
                            assert(x < y && ((x >> 56) as u8) == ((y >> 56) as u8) && ((x >> 48) as u8) == ((y >> 48) as u8) && ((x >> 40) as u8) == ((y >> 40) as u8) && ((x >> 32) as u8) == ((y >> 32) as u8) && ((x >> 24) as u8) == ((y >> 24) as u8) && ((x >> 16) as u8) == ((y >> 16) as u8) ==> ((x >> 8) as u8) <= ((y >> 8) as u8)) by (bit_vector);
                            let a6 = a5.skip(1);
                            let b6 = b5.skip(1);
                            if a[6] == b[6] {
                                assert(x < y && ((x >> 56) as u8) == ((y >> 56) as u8) && ((x >> 48) as u8) == ((y >> 48) as u8) && ((x >> 40) as u8) == ((y >> 40) as u8) && ((x >> 32) as u8) == ((y >> 32) as u8) && ((x >> 24) as u8) == ((y >> 24) as u8) && ((x >> 16) as u8) == ((y >> 16) as u8) && ((x >> 8) as u8) == ((y >> 8) as u8) ==> (x as u8) < (y as u8)) by (bit_vector);
                                let a7 = a6.skip(1);
                                let b7 = b6.skip(1);
                                assert(a7[0] == a[7] && b7[0] == b[7]);
                                assert(lex_lt(a7, b7));
                                assert(a6[0] == a[6] && b6[0] == b[6]);
                                assert(lex_lt(a6, b6));
                            } else {
                                assert(a6[0] == a[6] && b6[0] == b[6]);
                                assert(lex_lt(a6, b6));
                            }
                            assert(a5[0] == a[5] && b5[0] == b[5]);
                            assert(lex_lt(a5, b5));
                        } else {
                            assert(a5[0] == a[5] && b5[0] == b[5]);
                            assert(lex_lt(a5, b5));
                        }
                        assert(a4[0] == a[4] && b4[0] == b[4]);
                        assert(lex_lt(a4, b4));
                    } else {
                        assert(a4[0] == a[4] && b4[0] == b[4]);
                        assert(lex_lt(a4, b4));
                    }
                    assert(a3[0] == a[3] && b3[0] == b[3]);
                    assert(lex_lt(a3, b3));
                } else {
                    assert(a3[0] == a[3] && b3[0] == b[3]);
                    assert(lex_lt(a3, b3));
                }
                assert(a2[0] == a[2] && b2[0] == b[2]);
                assert(lex_lt(a2, b2));
            } else {
                assert(a2[0] == a[2] && b2[0] == b[2]);
                assert(lex_lt(a2, b2));
            }
            assert(a1[0] == a[1] && b1[0] == b[1]);
            assert(lex_lt(a1, b1));
        } else {
            assert(a1[0] == a[1] && b1[0] == b[1]);
            assert(lex_lt(a1, b1));
        }
        assert(a[0] == a[0] && b[0] == b[0]);
        assert(lex_lt(a, b));
    } else {
        assert(a[0] == a[0] && b[0] == b[0]);
        assert(lex_lt(a, b));
    }
}

/// Flipping the sign bit carries signed order to unsigned order, so the
/// signed encoding also compares byte-wise like the number.
pub proof fn law_i64_order(x: i64, y: i64)
    requires
        x < y,
    ensures
        lex_lt(
            be64((x as u64) ^ 0x8000_0000_0000_0000),
            be64((y as u64) ^ 0x8000_0000_0000_0000),
        ),
{
    assert(x < y ==> ((x as u64) ^ 0x8000_0000_0000_0000) < ((y as u64)
        ^ 0x8000_0000_0000_0000)) by (bit_vector);
    law_be64_order(
        (x as u64) ^ 0x8000_0000_0000_0000,
        (y as u64) ^ 0x8000_0000_0000_0000,
    );
}

} // verus!
