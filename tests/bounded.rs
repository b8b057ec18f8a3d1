use slice_map::{ArrayVec, SliceArray, SliceError, Storage};

#[test]
fn capacity_exceeded_registers_nothing() {
    let mut m = SliceArray::<i32, 3>::new_with_arrayvec();
    assert_eq!(m.add_items(vec![1, 2, 3, 4]), Err(SliceError::CapacityExceeded));
    assert_eq!(m.slices_len(), 0);
    assert_eq!(m.items_len(), 0);

    let a = m.add_items(vec![1, 2]).unwrap();
    assert_eq!(m.add_items(vec![3, 4]), Err(SliceError::CapacityExceeded));
    assert_eq!(m.slices_len(), 1);
    assert_eq!(m.items_len(), 2);
    let b = m.add_items(vec![3]).unwrap();
    assert_eq!(m.items(), &[1, 2, 3][..]);

    m.remove_slice(a);
    assert_eq!(m.get_slice(b), Some(&[3][..]));
    let c = m.add_items(vec![7, 8]).unwrap();
    assert_eq!(m.get_slice(c), Some(&[7, 8][..]));
    assert_eq!(m.items(), &[3, 7, 8][..]);
}

#[test]
fn array_vec_push_until_full() {
    let mut v = ArrayVec::<u8, 2>::new();
    assert_eq!(v.capacity(), 2);
    assert_eq!(v.push(10), Ok(()));
    assert_eq!(v.push(20), Ok(()));
    assert_eq!(v.push(30), Err(SliceError::CapacityExceeded));
    assert_eq!(v.get(0), Some(&10));
    assert_eq!(v.get(1), Some(&20));
    assert_eq!(v.get(2), None);
    v.clear();
    assert_eq!(v.get(0), None);
    assert_eq!(Storage::len(&v), 0);
}

#[test]
fn array_vec_extend_keeps_what_fits() {
    let mut v: ArrayVec<u8, 4> = ArrayVec::default();
    assert_eq!(v.extend(vec![1, 2]), Ok(()));
    assert_eq!(v.extend(vec![3, 4, 5]), Err(SliceError::CapacityExceeded));
    assert_eq!(v.iter_items(), &[1, 2, 3, 4][..]);
    assert_eq!(v.extend(Vec::new()), Ok(()));
}

#[test]
fn array_vec_storage_operations() {
    let mut v = ArrayVec::<i64, 8>::new();
    assert_eq!(v.extend_from_iter(vec![1, 2, 3, 4, 5]), Ok(()));
    assert_eq!(v.get_slice(1, 3), Some(&[2, 3][..]));
    assert_eq!(v.get_slice(3, 6), None);
    assert_eq!(v.get_slice(3, 2), None);
    assert_eq!(v.get_item(4), Some(&5));
    assert_eq!(Storage::remove(&mut v, 0), Some(1));
    assert_eq!(Storage::remove(&mut v, 9), None);
    Storage::drain(&mut v, 1, 3);
    assert_eq!(v.iter_items(), &[2, 5][..]);
    assert_eq!(v.push_item(6), Ok(()));
    Storage::truncate(&mut v, 1);
    assert_eq!(v.iter_items(), &[2][..]);
    v.reset();
    assert_eq!(Storage::len(&v), 0);
}

#[test]
fn vec_storage_operations() {
    let mut v: Vec<i32> = Vec::new();
    assert_eq!(v.extend_from_iter(vec![1, 2, 3, 4]), Ok(()));
    assert_eq!(v.push_item(5), Ok(()));
    assert_eq!(Storage::get_slice(&v, 1, 4), Some(&[2, 3, 4][..]));
    assert_eq!(Storage::get_slice(&v, 0, 6), None);
    assert_eq!(v.get_item(0), Some(&1));
    assert_eq!(v.get_item(5), None);
    Storage::drain(&mut v, 0, 2);
    assert_eq!(v, vec![3, 4, 5]);
    assert_eq!(Storage::remove(&mut v, 1), Some(4));
    assert_eq!(Storage::remove(&mut v, 7), None);
    Storage::drain(&mut v, 1, 1);
    assert_eq!(v.iter_items(), &[3, 5][..]);
    v.reset();
    assert!(v.is_empty());
}
