use slice_map::{SecSliceMap, Slice, SliceError, SliceKey, SliceStorage};
use slotmap::{DefaultKey, Key, SlotMap};

fn key_of(k: DefaultKey) -> SliceKey {
    SliceKey::from_bits(k.data().as_ffi()).unwrap()
}

#[test]
fn secondary_map_under_outside_keys() {
    let mut entities: SlotMap<DefaultKey, &str> = SlotMap::new();
    let e1 = key_of(entities.insert("one"));
    let e2 = key_of(entities.insert("two"));
    let e3 = key_of(entities.insert("three"));

    let mut m = SecSliceMap::<u16>::new();
    assert_eq!(m.add_items(e2, vec![20, 21]), Ok(()));
    assert_eq!(m.add_items(e1, vec![10]), Ok(()));
    assert_eq!(m.items(), &[20, 21, 10][..]);
    assert_eq!(m.get_slice(e1), Some(&[10][..]));
    assert_eq!(m.get_slice(e2), Some(&[20, 21][..]));
    assert_eq!(m.get_slice(e3), None);
    assert_eq!(m.slices_len(), 2);

    assert_eq!(m.remove_slice(e2), Some(Slice { start: 0, end: 2 }));
    assert_eq!(m.get_slice(e1), Some(&[10][..]));
    assert_eq!(m.items(), &[10][..]);
    assert_eq!(m.remove_slice(e2), None);
}

#[test]
fn secondary_map_refuses_a_taken_key() {
    let mut entities: SlotMap<DefaultKey, ()> = SlotMap::new();
    let e = key_of(entities.insert(()));
    let mut m = SecSliceMap::<u16>::new();
    assert_eq!(m.add_items(e, vec![1]), Ok(()));
    assert_eq!(m.add_items(e, vec![2, 3]), Err(SliceError::KeyTaken));
    assert_eq!(m.items(), &[1][..]);
    assert_eq!(m.get_slice(e), Some(&[1][..]));
}

#[test]
fn secondary_map_keeps_versions_of_a_slot_apart() {
    let mut entities: SlotMap<DefaultKey, ()> = SlotMap::new();
    let old_raw = entities.insert(());
    let old = key_of(old_raw);
    entities.remove(old_raw);
    let new = key_of(entities.insert(()));
    assert_ne!(old, new);

    let mut m = SecSliceMap::<u16>::new();
    assert_eq!(m.add_items(old, vec![1, 2]), Ok(()));
    assert_eq!(m.add_items(new, vec![3]), Ok(()));
    assert_eq!(m.slices_len(), 2);
    assert_eq!(m.get_slice(old), Some(&[1, 2][..]));
    assert_eq!(m.get_slice(new), Some(&[3][..]));
    assert_eq!(m.remove_slice(old), Some(Slice { start: 0, end: 2 }));
    assert_eq!(m.get_slice(new), Some(&[3][..]));
    assert_eq!(m.get_slice(old), None);
    // A caller-issued key may be added again once its slice is gone.
    assert_eq!(m.add_items(old, vec![4]), Ok(()));
    assert_eq!(m.items(), &[3, 4][..]);
}

#[test]
fn keys_from_one_map_serve_another() {
    let mut names = slice_map::SlotSliceMap::<char>::new();
    let k = names.add_items(vec!['a', 'b']).unwrap();
    let mut scores = SecSliceMap::<u32>::new();
    assert_eq!(scores.add_items(k, vec![7, 8, 9]), Ok(()));
    assert_eq!(scores.get_slice(k), Some(&[7, 8, 9][..]));
    scores.clear();
    assert_eq!(scores.get_slice(k), None);
    assert!(scores.is_empty());
}

#[test]
fn key_bits_round_trip() {
    let mut entities: SlotMap<DefaultKey, ()> = SlotMap::new();
    let raw = entities.insert(());
    let bits = raw.data().as_ffi();
    let k = SliceKey::from_bits(bits).unwrap();
    assert_eq!(k.to_bits(), bits);
    // An even version is never issued; nor is the null slot.
    assert_eq!(SliceKey::from_bits(2u64 << 32), None);
    assert_eq!(SliceKey::from_bits((1u64 << 32) | 0xFFFF_FFFF), None);
    assert_eq!(SliceKey::from_bits(1u64 << 32), None);
    assert!(SliceKey::from_bits((3u64 << 32) | 5).is_some());
}

#[test]
fn registry_reports_its_entries() {
    let mut m = slice_map::SlotSliceMap::<u8>::new();
    let a = m.add_items(vec![1]).unwrap();
    let b = m.add_items(vec![2, 3]).unwrap();
    let reg = slice_map::SlotRanges::empty();
    assert!(reg.is_empty());
    assert_eq!(reg.len(), 0);
    let pairs = m.iter_keys_and_slices();
    let keys: Vec<SliceKey> = pairs.iter().map(|p| p.0).collect();
    assert!(keys.contains(&a) && keys.contains(&b));
}
