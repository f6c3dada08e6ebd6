//! Tests for the type-indexed append-only bag.

use atom_core::borrow_bag::{Append, Handle, Lookup, Take};

#[test]
fn append_test() {
    let (list, _): ((u8, ()), Handle<u8, Take>) = ().append(1u8);
    let (list, _) = list.append(2u8);
    let (list, _) = list.append(3u8);

    assert_eq!(list.0, 1);
    assert_eq!((list.1).0, 2);
    assert_eq!(((list.1).1).0, 3);
}

#[test]
fn lookup_borrows_appended_element() {
    let (list, _) = ().append(10u8);
    let (list, _) = list.append(String::from("mid"));
    let v: &String = list.get_from();
    assert_eq!(v, "mid");
}
