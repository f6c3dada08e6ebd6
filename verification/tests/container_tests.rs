//! Slot-array and container tests.

use atom_core::bit_array::BitArray;
use atom_core::direct_node::DirectNode;
use atom_core::index_node::IndexNode;
use atom_core::node::NodeTrait;

#[test]
fn u8_vector() {
    let mut vec: BitArray<String, 48> = BitArray::new();
    assert_eq!(vec.first_empty(), Some(0));
    assert_eq!(vec.last_used_pos(), None);
    assert_eq!(vec.push(String::from("33")), 0);
    assert_eq!(vec.first_empty(), Some(1));
    assert_eq!(vec.last_used_pos(), Some(0));
    assert_eq!(vec.get(0), Some(&String::from("33")));
    assert_eq!(vec.push(String::from("12")), 1);
    assert_eq!(vec.push(String::from("23")), 2);
    assert_eq!(vec.push(String::from("34")), 3);
    assert_eq!(vec.pop(), Some(String::from("34")));
    assert_eq!(vec.first_empty(), Some(3));
    vec.erase(0);
    assert_eq!(vec.first_empty(), Some(0));
    assert_eq!(vec.last_used_pos(), Some(2));
    assert_eq!(vec.size(), 2);
    vec.set(0, String::from("134"));
    assert_eq!(vec.get(0), Some(&String::from("134")));
    assert_eq!(vec.update(0, String::from("136")), Some(String::from("134")));
}

#[test]
fn direct_mapping_test() {
    let mut dm = DirectNode::new();
    for i in 0..255 {
        dm.add_child(i, i);
        assert_eq!(*dm.find_child(i).unwrap(), i);
        assert_eq!(dm.delete_child(i), Some(i));
        assert_eq!(dm.find_child(i), None);
    }
}

#[test]
fn test_basic_mapping() {
    let mut mapping = IndexNode::<u8, 48>::new();
    for i in 0..48 {
        mapping.add_child(i, i);
        assert_eq!(*mapping.find_child(i).unwrap(), i);
    }
    for i in 0..48 {
        assert_eq!(*mapping.find_child(i).unwrap(), i);
    }
    for i in 0..48 {
        assert_eq!(mapping.delete_child(i).unwrap(), i);
    }
    for i in 0..48 {
        assert!(mapping.find_child(i as u8).is_none());
    }
}

#[test]
fn bit_array_check_and_clear() {
    let mut arr: BitArray<u32, 16> = BitArray::new();
    assert!(arr.is_empty());
    arr.set(3, 30);
    arr.set(7, 70);
    assert!(arr.check(3));
    assert!(arr.check(7));
    assert!(!arr.check(0));
    assert_eq!(arr.iter_keys(), vec![3, 7]);
    assert_eq!(arr.last(), Some(&70));
    arr.clear();
    assert!(arr.is_empty());
    assert_eq!(arr.get(3), None);
}

#[test]
fn container_iter_lists_present_bytes() {
    let mut dm = DirectNode::new();
    dm.add_child(3, 30u32);
    dm.add_child(200, 240u32);
    assert_eq!(dm.iter(), vec![3, 200]);

    let mut im = IndexNode::<u32, 48>::new();
    im.add_child(9, 90);
    im.add_child(2, 20);
    let bytes = im.iter();
    assert_eq!(bytes, vec![2, 9]);

    let mut km = atom_core::keyed_node::KeyedNode::<u32, 4>::new();
    km.add_child(7, 70);
    km.add_child(5, 50);
    let mut bytes = km.iter();
    bytes.sort();
    assert_eq!(bytes, vec![5, 7]);
}
