use lib::untyped_vec::{Layout, TypeInfo, UntypedVec};

/// An empty storage for `u32` values.
fn untyped_vec_u32() -> UntypedVec {
    UntypedVec::new_from_raw(TypeInfo::new(Layout::from_size_align(4, 4).unwrap()))
}

#[test]
fn push_raw() {
    let mut untyped_vec = untyped_vec_u32();

    untyped_vec.push_raw(&10_u32.to_ne_bytes());

    assert!(untyped_vec.raw_len() == 4);
    assert!(untyped_vec.len() == 1);
}

#[test]
fn push_raw_realloc() {
    let mut untyped_vec = untyped_vec_u32();

    for n in 0..4 {
        untyped_vec.push_raw(&10_u32.to_ne_bytes());
        assert!(untyped_vec.raw_len() == (n + 1) * 4);
    }

    untyped_vec.push_raw(&10_u32.to_ne_bytes());
    assert!(untyped_vec.raw_len() == 20);

    assert!(untyped_vec.len() == 5);
    for n in 0..5 {
        assert!(untyped_vec.get_raw(n).unwrap() == &10_u32.to_ne_bytes());
    }
    assert!(untyped_vec.get_raw(5).is_none());
}

#[test]
fn pop() {
    let mut untyped_vec = untyped_vec_u32();

    untyped_vec.push_raw(&10_u32.to_ne_bytes());

    assert!(untyped_vec.pop());
    assert!(untyped_vec.raw_len() == 0);

    assert!(!untyped_vec.pop());
    assert!(untyped_vec.raw_len() == 0);
}

#[test]
fn swap_move_and_swap_remove() {
    let mut first = untyped_vec_u32();
    first.push_raw(&10_u32.to_ne_bytes());
    first.push_raw(&12_u32.to_ne_bytes());
    first.push_raw(&14_u32.to_ne_bytes());
    let mut second = UntypedVec::new_from_untyped_vec(&first);
    assert!(second.is_empty());

    first.swap_move_element_to_other_vec(&mut second, 0);
    assert_eq!(first.len(), 2);
    assert_eq!(first.get_raw(0).unwrap(), &14_u32.to_ne_bytes());
    assert_eq!(first.get_raw(1).unwrap(), &12_u32.to_ne_bytes());
    assert_eq!(second.len(), 1);
    assert_eq!(second.raw_len(), 4);
    assert_eq!(second.get_raw(0).unwrap(), &10_u32.to_ne_bytes());

    first.swap_remove(1);
    assert_eq!(first.len(), 1);
    assert_eq!(first.get_raw(0).unwrap(), &14_u32.to_ne_bytes());

    let slot = first.get_mut_raw(0).unwrap();
    slot.copy_from_slice(&16_u32.to_ne_bytes());
    assert_eq!(first.get_raw(0).unwrap(), &16_u32.to_ne_bytes());
    assert!(first.get_mut_raw(1).is_none());
}

#[test]
fn zero_sized_values_are_counted() {
    let mut untyped_vec = UntypedVec::new_from_raw(TypeInfo::new(Layout::unit()));
    untyped_vec.push_raw(&[]);
    untyped_vec.push_raw(&[]);
    assert_eq!(untyped_vec.len(), 2);
    assert_eq!(untyped_vec.raw_len(), 0);
    assert!(untyped_vec.pop());
    assert_eq!(untyped_vec.len(), 1);
    assert_eq!(untyped_vec.raw_len(), 0);
}

#[test]
fn removed_values_are_handed_back() {
    let mut untyped_vec = UntypedVec::new_from_raw(TypeInfo::new(Layout::from_size_align(4, 4).unwrap()));
    untyped_vec.push_raw(&10_u32.to_ne_bytes());
    untyped_vec.push_raw(&12_u32.to_ne_bytes());
    untyped_vec.push_raw(&14_u32.to_ne_bytes());
    assert_eq!(untyped_vec.swap_remove(0), 10_u32.to_ne_bytes().to_vec());
    assert_eq!(untyped_vec.get_raw(0).unwrap(), &14_u32.to_ne_bytes());
    assert_eq!(untyped_vec.take_last(), Some(12_u32.to_ne_bytes().to_vec()));
    assert_eq!(untyped_vec.take_last(), Some(14_u32.to_ne_bytes().to_vec()));
    assert_eq!(untyped_vec.take_last(), None);
    assert_eq!(untyped_vec.len(), 0);
}
