use slice_map::{Slice, SliceError, SliceMap, SlotRanges, SlotSliceMap};

struct Test; // no Default, no Clone

#[test]
fn test_basic() {
    let mut slicemap = SlotSliceMap::<i32>::new();
    let max_slices = 10;
    let mut item_count = 1;
    let mut item_len = 0;
    for slice in 1..=max_slices {
        let values: Vec<i32> = (1..=item_count as i32).into_iter().collect();
        item_len += values.len();
        item_count += 1;
        slicemap.add_items(values).unwrap();
        assert_eq!(slicemap.items_len(), item_len);
        assert_eq!(slicemap.slices_len(), slice);
    }
}

#[test]
fn test_remove() {
    let mut slicemap = SlotSliceMap::<i32>::new();

    let a = slicemap.add_items(vec![1, 2, 3, 4, 5]).unwrap();
    let b = slicemap.add_items(vec![6, 7]).unwrap();
    let c = slicemap.add_items(vec![8, 9, 10]).unwrap();
    assert_eq!(slicemap.items_len(), 10);
    assert_eq!(slicemap.slices_len(), 3);

    // Remove
    slicemap.remove_slice(b);

    // Iterating over slices
    assert_eq!(slicemap.slices_len(), 2);
    let mut slices = slicemap.iter_slices().into_iter();
    assert_eq!(slices.next().unwrap(), [1, 2, 3, 4, 5]);
    assert_eq!(slices.next().unwrap(), [8, 9, 10]);
    assert_eq!(slices.next(), None);
    drop(slices);

    // Iterating over all items
    let mut value = 1;
    for (i, item) in slicemap.iter_items().iter().enumerate() {
        if i < 5 {
            assert_eq!(value, *item);
        } else {
            assert_eq!(value + 2, *item);
        }
        value += 1
    }

    // Remove and test again
    slicemap.remove_slice(a);
    assert_eq!(slicemap.slices_len(), 1);
    let mut slices = slicemap.iter_slices().into_iter();
    assert_eq!(slices.next().unwrap(), [8, 9, 10]);
    assert_eq!(slices.next(), None);
    let mut value = 8;
    for item in slicemap.iter_items() {
        assert_eq!(value, *item);
        value += 1
    }
    drop(slices);

    // Empty
    slicemap.remove_slice(c);
    assert_eq!(slicemap.items_len(), 0);
    assert_eq!(slicemap.slices_len(), 0);
}

#[test]
fn non_default_values() {
    let mut slices = SlotSliceMap::<Test>::new();
    slices.add_items(vec![Test, Test, Test]).unwrap();
    slices.add_items(vec![Test]).unwrap();
    assert_eq!(slices.items_len(), 4);
    assert_eq!(slices.slices_len(), 2);
}

#[test]
fn scenario_three_slices() {
    let mut m = SlotSliceMap::<i32>::new();
    let a = m.add_items(vec![1, 2, 3, 4, 5]).unwrap();
    let b = m.add_items(vec![6, 7]).unwrap();
    let c = m.add_items(vec![8, 9, 10]).unwrap();
    assert_eq!(m.items_len(), 10);
    assert_eq!(m.slices_len(), 3);

    assert_eq!(m.remove_slice(b), Some(Slice { start: 5, end: 7 }));
    assert_eq!(m.slices_len(), 2);
    assert_eq!(m.iter_slices(), vec![&[1, 2, 3, 4, 5][..], &[8, 9, 10][..]]);
    assert_eq!(m.iter_items(), &[1, 2, 3, 4, 5, 8, 9, 10][..]);

    assert_eq!(m.remove_slice(a), Some(Slice { start: 0, end: 5 }));
    assert_eq!(m.iter_slices(), vec![&[8, 9, 10][..]]);

    assert_eq!(m.remove_slice(c), Some(Slice { start: 0, end: 3 }));
    assert_eq!(m.items_len(), 0);
    assert_eq!(m.slices_len(), 0);
    assert!(m.is_empty());
}

#[test]
fn removal_rebases_later_slices_only() {
    let mut m = SlotSliceMap::<u8>::with_capacity(16);
    let a = m.add_items(vec![1, 2]).unwrap();
    let b = m.add_items(vec![3, 4, 5]).unwrap();
    let c = m.add_items(vec![6]).unwrap();
    let d = m.add_items(vec![7, 8]).unwrap();
    assert_eq!(m.remove_slice(b), Some(Slice { start: 2, end: 5 }));
    assert_eq!(m.get_slice(a), Some(&[1, 2][..]));
    assert_eq!(m.get_slice(c), Some(&[6][..]));
    assert_eq!(m.get_slice(d), Some(&[7, 8][..]));
    // c and d moved down by three; their spans show it.
    assert_eq!(m.remove_slice(c), Some(Slice { start: 2, end: 3 }));
    assert_eq!(m.remove_slice(d), Some(Slice { start: 2, end: 4 }));
    assert_eq!(m.items(), &[1, 2][..]);
}

#[test]
fn stale_key_is_not_found() {
    let mut m = SlotSliceMap::<i32>::new();
    let a = m.add_items(vec![1, 2]).unwrap();
    let b = m.add_items(vec![3]).unwrap();
    assert_eq!(m.remove_slice(a), Some(Slice { start: 0, end: 2 }));
    assert_eq!(m.get_slice(a), None);
    assert_eq!(m.remove_slice(a), None);
    // The freed slot is reused, under a new key.
    let c = m.add_items(vec![9, 9, 9]).unwrap();
    assert_ne!(a, c);
    assert_eq!(m.get_slice(a), None);
    assert_eq!(m.get_slice(b), Some(&[3][..]));
    assert_eq!(m.get_slice(c), Some(&[9, 9, 9][..]));
    assert_eq!(m.items_len(), 4);
}

#[test]
fn empty_slice_is_a_slice() {
    let mut m = SlotSliceMap::<i32>::new();
    let a = m.add_items(vec![1]).unwrap();
    let e = m.add_items(Vec::new()).unwrap();
    let b = m.add_items(vec![2, 3]).unwrap();
    assert_eq!(m.slices_len(), 3);
    assert_eq!(m.get_slice(e), Some(&[][..]));
    assert_eq!(m.remove_slice(e), Some(Slice { start: 1, end: 1 }));
    assert_eq!(m.get_slice(a), Some(&[1][..]));
    assert_eq!(m.get_slice(b), Some(&[2, 3][..]));
    assert_eq!(m.items_len(), 3);
}

#[test]
fn clear_then_add_is_like_new() {
    let mut m = SlotSliceMap::<i32>::new();
    let a = m.add_items(vec![1, 2, 3]).unwrap();
    m.add_items(vec![4]).unwrap();
    m.clear();
    assert_eq!(m.items_len(), 0);
    assert_eq!(m.slices_len(), 0);
    assert_eq!(m.get_slice(a), None);

    let mut fresh = SlotSliceMap::<i32>::new();
    let k1 = m.add_items(vec![5, 6]).unwrap();
    let k2 = fresh.add_items(vec![5, 6]).unwrap();
    // Keys from before the clear stay stale after new slices come in.
    assert_ne!(k1, a);
    assert_eq!(m.get_slice(a), None);
    assert_eq!(m.remove_slice(a), None);
    assert_eq!(m.get_slice(k1), fresh.get_slice(k2));
    assert_eq!(m.items(), fresh.items());
    assert_eq!(m.slices_len(), fresh.slices_len());
}

#[test]
fn keys_and_slices_pair_up() {
    let mut m: SliceMap<char, Vec<char>, SlotRanges> = SliceMap::new();
    let a = m.add_items(vec!['a', 'b']).unwrap();
    let b = m.add_items(vec!['c']).unwrap();
    let pairs = m.iter_keys_and_slices();
    assert_eq!(pairs.len(), 2);
    for (k, s) in pairs {
        if k == a {
            assert_eq!(s, &['a', 'b'][..]);
        } else {
            assert_eq!(k, b);
            assert_eq!(s, &['c'][..]);
        }
    }
}

#[test]
fn growable_map_has_no_small_bound() {
    let mut m = SlotSliceMap::<u32>::new();
    let r: Result<_, SliceError> = m.add_items((0..1000).collect());
    assert!(r.is_ok());
    assert_eq!(m.items_len(), 1000);
}

#[test]
fn default_map_is_empty() {
    let mut m: SlotSliceMap<i32> = Default::default();
    assert!(m.is_empty());
    assert_eq!(m.slices_len(), 0);
    let k = m.add_items(vec![1]).unwrap();
    assert_eq!(m.get_slice(k), Some(&[1][..]));
}

#[test]
fn slices_join_to_items_in_buffer_order() {
    let mut m = SlotSliceMap::<i32>::new();
    let a = m.add_items(vec![1, 2]).unwrap();
    let b = m.add_items(vec![3]).unwrap();
    m.remove_slice(a);
    // c takes the slot a left, yet lies after b in the buffer.
    let c = m.add_items(vec![4, 5, 6]).unwrap();
    let mut joined: Vec<i32> = Vec::new();
    joined.extend_from_slice(m.get_slice(b).unwrap());
    joined.extend_from_slice(m.get_slice(c).unwrap());
    assert_eq!(joined.as_slice(), m.iter_items());
    assert_eq!(m.iter_items(), &[3, 4, 5, 6][..]);
    let total: usize = m.iter_slices().iter().map(|s| s.len()).sum();
    assert_eq!(total, m.items_len());
}

#[test]
fn iteration_follows_buffer_order() {
    let mut m = SlotSliceMap::<i32>::new();
    let a = m.add_items(vec![1, 2]).unwrap();
    let b = m.add_items(vec![3]).unwrap();
    m.remove_slice(a);
    let c = m.add_items(vec![4, 5]).unwrap();
    assert_eq!(m.iter_slices(), vec![&[3][..], &[4, 5][..]]);
    let keys: Vec<_> = m.iter_keys_and_slices().iter().map(|p| p.0).collect();
    assert_eq!(keys, vec![b, c]);
    let flat: Vec<i32> = m.iter_slices().concat();
    assert_eq!(flat.as_slice(), m.iter_items());
    assert_eq!(m.iter_slices(), m.iter_slices());
}

#[test]
fn removed_key_stays_stale_after_adds() {
    let mut m = SlotSliceMap::<i32>::new();
    let a = m.add_items(vec![1]).unwrap();
    m.remove_slice(a);
    let b = m.add_items(vec![2]).unwrap();
    assert_ne!(a, b);
    assert_eq!(m.get_slice(a), None);
    assert_eq!(m.remove_slice(a), None);
    assert_eq!(m.get_slice(b), Some(&[2][..]));
}
