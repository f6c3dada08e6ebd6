//! End-to-end tests of the tree algorithms, the key encodings, and the
//! error chain.

use atom_core::art::ArtTree;
use atom_core::keys::{Partial, RawKey, VectorKey};
use atom_core::tree::RawTree;
use atom_core::error::Error;
use atom_core::utils::{binary_find_key, u8_keys_find_insert_position, Backoff};

fn k(s: &str) -> VectorKey {
    VectorKey::from_str(s)
}

#[test]
fn string_keys_scenario() {
    let mut tree = ArtTree::<VectorKey, i32>::new();
    let guard = tree.pin();
    assert_eq!(tree.insert(k("abcd"), 1, &guard), None);
    assert_eq!(tree.insert(k("abc"), 2, &guard), None);
    assert_eq!(tree.insert(k("abcde"), 3, &guard), None);
    assert_eq!(tree.insert(k("xyz"), 4, &guard), None);
    assert_eq!(tree.insert(k("xyz"), 5, &guard), Some(4));
    assert_eq!(tree.get(k("abc"), &guard), Some(&2));
    assert_eq!(tree.remove(k("abcde")), Some(3));
    assert_eq!(tree.get(k("abcde"), &guard), None);
    assert_eq!(tree.get(k("abc"), &guard), Some(&2));
    assert_eq!(tree.get(k("abcd"), &guard), Some(&1));
    assert_eq!(tree.get(k("xyz"), &guard), Some(&5));
}

#[test]
fn prefix_split_keeps_both_values() {
    let mut tree = ArtTree::<VectorKey, u32>::new();
    let guard = tree.pin();
    assert_eq!(tree.insert(k("abc"), 7, &guard), None);
    assert_eq!(tree.insert(k("abd"), 8, &guard), None);
    assert_eq!(tree.get(k("abc"), &guard), Some(&7));
    assert_eq!(tree.get(k("abd"), &guard), Some(&8));
    // a strict prefix of a present key is a distinct encoded key
    assert_eq!(tree.insert(k("ab"), 9, &guard), None);
    assert_eq!(tree.get(k("ab"), &guard), Some(&9));
    assert_eq!(tree.get(k("abc"), &guard), Some(&7));
    assert_eq!(tree.get(k("abd"), &guard), Some(&8));
    assert_eq!(tree.get(k("abe"), &guard), None);
}

#[test]
fn widths_grow_and_shrink_transparently() {
    let mut tree = ArtTree::<VectorKey, u64>::new();
    let guard = tree.pin();
    // all keys share the first byte, forcing one node through every width
    for i in 0..=255u64 {
        let key = VectorKey::from_vec(vec![9u8, i as u8]);
        assert_eq!(tree.insert(key, i, &guard), None);
        for j in 0..=i {
            let key_j = VectorKey::from_vec(vec![9u8, j as u8]);
            assert_eq!(tree.get(key_j, &guard), Some(&j));
        }
        if i == 4 || i == 16 || i == 48 {
            // every previously inserted key is still present right after
            // the width transitions
            let key0 = VectorKey::from_vec(vec![9u8, 0u8]);
            assert_eq!(tree.get(key0, &guard), Some(&0));
        }
    }
    // delete back down through the shrink transitions
    for i in (1..=255u64).rev() {
        let key = VectorKey::from_vec(vec![9u8, i as u8]);
        assert_eq!(tree.remove(key), Some(i));
        for j in 0..i {
            let key_j = VectorKey::from_vec(vec![9u8, j as u8]);
            assert_eq!(tree.get(key_j, &guard), Some(&j));
        }
    }
    let key0 = VectorKey::from_vec(vec![9u8, 0u8]);
    assert_eq!(tree.remove(key0), Some(0));
    let key1 = VectorKey::from_vec(vec![9u8, 1u8]);
    assert_eq!(tree.get(key1, &guard), None);
}

#[test]
fn integer_keys_get_set() {
    let mut tree = RawTree::<VectorKey, i32>::new();
    let guard = crossbeam_epoch::pin();
    assert_eq!(tree.insert(&VectorKey::from_u64(500), 3, &guard), None);
    assert_eq!(tree.get(&VectorKey::from_u64(500), &guard), Some(&3));
    assert_eq!(tree.insert(&VectorKey::from_u64(666), 2, &guard), None);
    assert_eq!(tree.get(&VectorKey::from_u64(666), &guard), Some(&2));
    assert_eq!(tree.insert(&VectorKey::from_u64(1), 1, &guard), None);
    assert_eq!(tree.get(&VectorKey::from_u64(1), &guard), Some(&1));
    assert_eq!(tree.remove(&VectorKey::from_u64(666)), Some(2));
    assert_eq!(tree.get(&VectorKey::from_u64(666), &guard), None);
    assert_eq!(tree.remove(&VectorKey::from_u64(666)), None);
}

#[test]
fn raw_key_encodings() {
    let key: RawKey<16> = RawKey::from_u64(0x0102030405060708);
    assert_eq!(key.to_slice(), &[1, 2, 3, 4, 5, 6, 7, 8]);
    let key: RawKey<16> = RawKey::from_u16(0xBEEF);
    assert_eq!(key.to_slice(), &[0xBE, 0xEF]);
    let key: RawKey<16> = RawKey::from_str("hi");
    assert_eq!(key.to_slice(), &[b'h', b'i', 0]);
    // the sign-flipped encodings order negatives below positives
    let minus_one: RawKey<16> = RawKey::from_i64(-1);
    let zero: RawKey<16> = RawKey::from_i64(0);
    let one: RawKey<16> = RawKey::from_i64(1);
    assert_eq!(minus_one.to_slice(), &[0x7F, 0xFF, 0xFF, 0xFF, 0xFF, 0xFF, 0xFF, 0xFF]);
    assert_eq!(zero.to_slice(), &[0x80, 0, 0, 0, 0, 0, 0, 0]);
    assert_eq!(one.to_slice(), &[0x80, 0, 0, 0, 0, 0, 0, 1]);
    assert!(minus_one.to_slice() < zero.to_slice());
    assert!(zero.to_slice() < one.to_slice());
    assert_eq!(RawKey::<16>::from_i8(-128).to_slice(), &[0x00]);
    assert_eq!(RawKey::<16>::from_i8(127).to_slice(), &[0xFF]);
    assert!(RawKey::<4>::try_from_str("way too long for four").is_none());
    assert!(RawKey::<16>::try_from_str("fits").is_some());
}

#[test]
fn key_fragment_operations() {
    let key = VectorKey::from_slice(&[10, 20, 30, 40]);
    assert_eq!(key.len(), 4);
    assert_eq!(key.at(2), 30);
    assert_eq!(key.partial_before(2).to_slice(), &[10, 20]);
    assert_eq!(key.partial_after(1).to_slice(), &[20, 30, 40]);
    assert_eq!(key.partial_from(1, 2).to_slice(), &[20, 30]);
    let other = VectorKey::from_slice(&[10, 20, 99]);
    assert_eq!(key.prefix_length_common(&other), 2);
    assert_eq!(key.prefix_length_slice(&[10, 20, 30]), 3);
    let long = VectorKey::from_slice(&[0, 0, 10, 20]);
    assert_eq!(key.prefix_length_key(&long, 2), 2);
    assert!(VectorKey::empty().is_empty());
    assert_eq!(key.length_at(1), 3);
}

#[test]
fn error_chain_walk() {
    let root = Error::new(String::from("disk unreachable"));
    let mid = root.context(String::from("segment load failed"));
    let top = mid.context(String::from("route lookup failed"));
    assert_eq!(top.message(), "route lookup failed");
    assert_eq!(top.source().unwrap().message(), "segment load failed");
    assert_eq!(top.root_source().unwrap().message(), "disk unreachable");
    let mut cursor = top.sources();
    assert_eq!(cursor.next().unwrap().message(), "route lookup failed");
    assert_eq!(cursor.next().unwrap().message(), "segment load failed");
    assert_eq!(cursor.next().unwrap().message(), "disk unreachable");
    assert!(cursor.next().is_none());
    let built = Error::with_source(
        String::from("handler failed"),
        Error::new(String::from("timeout")),
    );
    assert_eq!(built.message(), "handler failed");
    assert_eq!(built.source().unwrap().message(), "timeout");
    assert_eq!(Error::new_box(String::from("boxed")).message(), "boxed");
}

#[test]
fn backoff_steps_are_bounded() {
    let mut b = Backoff::new();
    assert!(!b.is_completed());
    for _ in 0..12 {
        b.spin();
    }
    assert!(!b.is_completed());
    b.reset();
    assert!(!b.is_completed());
}

#[test]
fn sorted_key_scans() {
    let keys: [u8; 6] = [2, 4, 6, 8, 10, 12];
    assert_eq!(binary_find_key(6, &keys, 6), Some(2));
    assert_eq!(binary_find_key(7, &keys, 6), None);
    assert_eq!(binary_find_key(2, &keys, 6), Some(0));
    assert_eq!(binary_find_key(12, &keys, 6), Some(5));
    assert_eq!(u8_keys_find_insert_position::<6>(5, &keys, 6), Some(2));
    assert_eq!(u8_keys_find_insert_position::<6>(13, &keys, 6), Some(6));
    assert_eq!(u8_keys_find_insert_position::<6>(0, &keys, 6), Some(0));
}

#[test]
fn sharded_inserts_all_retrievable() {
    // several disjoint key shards inserted in interleaved order, as the
    // sharded writers of the enclosing system would produce them
    let mut tree = ArtTree::<RawKey<16>, u64>::new();
    let guard = tree.pin();
    let shards: u64 = 4;
    let per_shard: u64 = 64;
    for i in 0..per_shard {
        for s in 0..shards {
            let v = s * 1_000_000 + i;
            assert_eq!(tree.insert(RawKey::from_u64(v), v, &guard), None);
        }
    }
    for s in 0..shards {
        for i in 0..per_shard {
            let v = s * 1_000_000 + i;
            assert_eq!(tree.get(RawKey::from_u64(v), &guard), Some(&v));
        }
    }
    for s in 0..shards {
        for i in 0..per_shard {
            let v = s * 1_000_000 + i;
            assert_eq!(tree.remove(RawKey::from_u64(v)), Some(v));
            assert_eq!(tree.get(RawKey::from_u64(v), &guard), None);
        }
    }
}

#[test]
fn update_returns_previous_value() {
    let mut tree = ArtTree::<VectorKey, &'static str>::new();
    let guard = tree.pin();
    assert_eq!(tree.insert(k("route"), "first", &guard), None);
    assert_eq!(tree.insert(k("route"), "second", &guard), Some("first"));
    assert_eq!(tree.get(k("route"), &guard), Some(&"second"));
    assert_eq!(tree.remove(k("route")), Some("second"));
    assert_eq!(tree.remove(k("route")), None);
}

#[test]
fn wide_and_word_size_encodings() {
    let k128: RawKey<32> = RawKey::from_u128(0x0102030405060708090A0B0C0D0E0F10);
    assert_eq!(
        k128.to_slice(),
        &[1, 2, 3, 4, 5, 6, 7, 8, 9, 0x0A, 0x0B, 0x0C, 0x0D, 0x0E, 0x0F, 0x10],
    );
    let minus_one: RawKey<32> = RawKey::from_i128(-1);
    let zero: RawKey<32> = RawKey::from_i128(0);
    assert!(minus_one.to_slice() < zero.to_slice());
    assert_eq!(zero.to_slice()[0], 0x80);

    let w: RawKey<16> = RawKey::from_usize(513);
    assert_eq!(w.to_slice(), &[0, 0, 0, 0, 0, 0, 2, 1]);
    let neg: RawKey<16> = RawKey::from_isize(-2);
    let pos: RawKey<16> = RawKey::from_isize(2);
    assert!(neg.to_slice() < pos.to_slice());

    assert_eq!(VectorKey::from_u16(0xBEEF).to_slice(), &[0xBE, 0xEF]);
    assert_eq!(VectorKey::from_u8(7).to_slice(), &[7]);
    assert_eq!(VectorKey::from_i8(-128).to_slice(), &[0]);
    assert!(VectorKey::from_i16(-1).to_slice() < VectorKey::from_i16(0).to_slice());
    assert!(VectorKey::from_i32(-5).to_slice() < VectorKey::from_i32(5).to_slice());
    assert!(VectorKey::from_u32(6).to_slice() < VectorKey::from_u32(7).to_slice());
    assert!(VectorKey::from_u128(1).to_slice() < VectorKey::from_u128(2).to_slice());
    assert!(VectorKey::from_i128(-3).to_slice() < VectorKey::from_i128(3).to_slice());
    assert!(VectorKey::from_isize(-9).to_slice() < VectorKey::from_isize(9).to_slice());
    assert!(VectorKey::from_usize(0).to_slice() < VectorKey::from_usize(9).to_slice());
}

#[test]
fn get_mut_writes_through() {
    let mut tree = RawTree::<VectorKey, i32>::new();
    let guard = crossbeam_epoch::pin();
    tree.insert(&k("alpha"), 1, &guard);
    tree.insert(&k("alps"), 2, &guard);
    {
        let slot = tree.get_mut(&k("alpha"), &guard).unwrap();
        *slot += 100;
    }
    assert_eq!(tree.get(&k("alpha"), &guard), Some(&101));
    assert_eq!(tree.get(&k("alps"), &guard), Some(&2));
    assert!(tree.get_mut(&k("missing"), &guard).is_none());
    assert_eq!(tree.get(&k("alpha"), &guard), Some(&101));
}
