//! Node-level tests over the four child-storage widths.

use atom_core::keys::RawKey;
use atom_core::node::{Node, NodeType, NodeTrait};
use atom_core::keyed_node::KeyedNode;

#[test]
fn test_n4() {
    let test_key: RawKey<16> = RawKey::from_str("abc");

    let mut n4 = Node::new(NodeType::Node4, test_key.clone());
    n4.add_child(5, Node::new_leaf(test_key.clone(), 1));
    n4.add_child(4, Node::new_leaf(test_key.clone(), 2));
    n4.add_child(3, Node::new_leaf(test_key.clone(), 3));
    n4.add_child(2, Node::new_leaf(test_key.clone(), 4));

    assert_eq!(*n4.find_child(5).unwrap().value().unwrap(), 1);
    assert_eq!(*n4.find_child(4).unwrap().value().unwrap(), 2);
    assert_eq!(*n4.find_child(3).unwrap().value().unwrap(), 3);
    assert_eq!(*n4.find_child(2).unwrap().value().unwrap(), 4);

    n4.delete_child(5);
    assert!(n4.find_child(5).is_none());
    assert_eq!(*n4.find_child(4).unwrap().value().unwrap(), 2);
    assert_eq!(*n4.find_child(3).unwrap().value().unwrap(), 3);
    assert_eq!(*n4.find_child(2).unwrap().value().unwrap(), 4);

    n4.delete_child(2);
    assert!(n4.find_child(5).is_none());
    assert!(n4.find_child(2).is_none());

    n4.add_child(2, Node::new_leaf(test_key.clone(), 4));
    n4.delete_child(3);
    assert!(n4.find_child(5).is_none());
    assert!(n4.find_child(3).is_none());
}

#[test]
fn test_n16() {
    let test_key: RawKey<16> = RawKey::from_str("abc");

    let mut n16 = Node::new(NodeType::Node16, test_key.clone());

    for i in (0..16).rev() {
        n16.add_child(i, Node::new_leaf(test_key.clone(), i));
    }

    for i in 0..16 {
        assert_eq!(*n16.find_child(i).unwrap().value().unwrap(), i);
    }

    n16.delete_child(15);
    n16.delete_child(14);
    assert!(n16.find_child(15).is_none());
    assert!(n16.find_child(14).is_none());
    for i in 0..14 {
        assert_eq!(*n16.find_child(i).unwrap().value().unwrap(), i);
    }

    n16.delete_child(0);
    n16.delete_child(1);
    assert!(n16.find_child(0).is_none());
    assert!(n16.find_child(1).is_none());
    for i in 2..14 {
        assert_eq!(*n16.find_child(i).unwrap().value().unwrap(), i);
    }

    n16.delete_child(5);
    n16.delete_child(6);
    assert!(n16.find_child(5).is_none());
    assert!(n16.find_child(6).is_none());
    for i in 2..5 {
        assert_eq!(*n16.find_child(i).unwrap().value().unwrap(), i);
    }
    for i in 7..14 {
        assert_eq!(*n16.find_child(i).unwrap().value().unwrap(), i);
    }
}

#[test]
fn test_n48() {
    let test_key: RawKey<16> = RawKey::from_str("abc");

    let mut n48 = Node::new(NodeType::Node48, test_key.clone());

    for i in 0..48 {
        n48.add_child(i, Node::new_leaf(test_key.clone(), i));
    }

    for i in 0..48 {
        assert_eq!(*n48.find_child(i).unwrap().value().unwrap(), i);
    }

    n48.delete_child(47);
    n48.delete_child(46);
    assert!(n48.find_child(47).is_none());
    assert!(n48.find_child(46).is_none());
    for i in 0..46 {
        assert_eq!(*n48.find_child(i).unwrap().value().unwrap(), i);
    }
}

#[test]
fn test_n_256() {
    let test_key: RawKey<16> = RawKey::from_str("abc");

    let mut n256 = Node::new(NodeType::Node256, test_key.clone());

    for i in 0..=255 {
        n256.add_child(i, Node::new_leaf(test_key.clone(), i));
    }
    for i in 0..=255 {
        assert_eq!(*n256.find_child(i).unwrap().value().unwrap(), i);
    }

    n256.delete_child(47);
    n256.delete_child(46);
    assert!(n256.find_child(47).is_none());
    assert!(n256.find_child(46).is_none());
    for i in 0..46 {
        assert_eq!(*n256.find_child(i).unwrap().value().unwrap(), i);
    }
    for i in 48..=255 {
        assert_eq!(*n256.find_child(i).unwrap().value().unwrap(), i);
    }
}

#[test]
fn test_add_seek_delete() {
    let mut node = KeyedNode::<u8, 4>::new();
    node.add_child(1, 1);
    node.add_child(2, 2);
    node.add_child(3, 3);
    node.add_child(4, 4);
    assert_eq!(node.num_children(), 4);
    assert_eq!(node.find_child(1), Some(&1));
    assert_eq!(node.find_child(2), Some(&2));
    assert_eq!(node.find_child(3), Some(&3));
    assert_eq!(node.find_child(4), Some(&4));
    assert_eq!(node.find_child(5), None);
    assert_eq!(node.find_child_mut(1), Some(&mut 1));
    assert_eq!(node.find_child_mut(2), Some(&mut 2));
    assert_eq!(node.find_child_mut(3), Some(&mut 3));
    assert_eq!(node.find_child_mut(4), Some(&mut 4));
    assert_eq!(node.find_child_mut(5), None);
    assert_eq!(node.delete_child(1), Some(1));
    assert_eq!(node.delete_child(2), Some(2));
    assert_eq!(node.delete_child(3), Some(3));
    assert_eq!(node.delete_child(4), Some(4));
    assert_eq!(node.delete_child(5), None);
    assert_eq!(node.num_children(), 0);
}

#[test]
fn test_ff_regression() {
    let mut node = KeyedNode::<u8, 4>::new();
    node.add_child(1, 1);
    node.add_child(21, 255);
    node.add_child(32, 3);
    node.add_child(34, 3);
    node.delete_child(3);
}

#[test]
fn node_accessors_and_mutation() {
    let key: RawKey<16> = RawKey::from_str("k");
    let mut node = Node::new(NodeType::Node4, key.clone());
    assert_eq!(node.node_type(), NodeType::Node4);
    assert_eq!(node.capacity(), 4);
    assert_eq!(node.num_children(), 0);
    assert_eq!(node.free(), 4);
    assert!(!node.is_full());
    assert_eq!(node.prefix(), &[b'k', 0]);
    assert!(node.value().is_none());

    node.add_child(1, Node::new_leaf(key.clone(), 10));
    assert_eq!(node.free(), 3);
    {
        let child = node.find_child_mut(1).unwrap();
        let v = child.value_mut().unwrap();
        *v = 11;
    }
    assert_eq!(*node.find_child(1).unwrap().value().unwrap(), 11);

    let mut leaf = Node::new_leaf(key.clone(), 42);
    assert_eq!(leaf.node_type(), NodeType::Leaf);
    assert_eq!(*leaf.value_mut().unwrap(), 42);
    leaf.set_version(0);
    node.change(leaf);
    assert_eq!(node.node_type(), NodeType::Leaf);
    assert_eq!(*node.value().unwrap(), 42);
}

#[test]
fn delete_child_shrinks_at_thresholds() {
    let key: RawKey<16> = RawKey::from_str("p");

    let mut n16 = Node::new(NodeType::Node16, key.clone());
    for i in 0..5 {
        n16.add_child(i, Node::new_leaf(key.clone(), i));
    }
    assert_eq!(n16.node_type(), NodeType::Node16);
    n16.delete_child(0);
    assert_eq!(n16.node_type(), NodeType::Node4);
    assert_eq!(n16.num_children(), 4);
    for i in 1..5 {
        assert_eq!(*n16.find_child(i).unwrap().value().unwrap(), i);
    }

    let mut n48 = Node::new(NodeType::Node48, key.clone());
    for i in 0..17 {
        n48.add_child(i, Node::new_leaf(key.clone(), i));
    }
    n48.delete_child(0);
    assert_eq!(n48.node_type(), NodeType::Node16);
    assert_eq!(n48.num_children(), 16);

    let mut n256 = Node::new(NodeType::Node256, key.clone());
    for i in 0..49 {
        n256.add_child(i, Node::new_leaf(key.clone(), i));
    }
    n256.delete_child(0);
    assert_eq!(n256.node_type(), NodeType::Node48);
    assert_eq!(n256.num_children(), 48);

    // width 4 never shrinks, and a miss still applies the width rule
    let mut n4 = Node::new(NodeType::Node4, key.clone());
    n4.add_child(1, Node::new_leaf(key.clone(), 1));
    assert!(n4.delete_child(9).is_none());
    assert_eq!(n4.node_type(), NodeType::Node4);
    assert_eq!(*n4.find_child(1).unwrap().value().unwrap(), 1);
}
