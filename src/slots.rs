use vstd::prelude::*;

use slotmap::{DefaultKey, Key, KeyData, SlotMap};

use crate::registry::{is_key_bits, next_version, slot_of, version_of, SliceKey, SliceStorage};
use crate::slice::Slice;

verus! {

/// The registry of spans: a generational slot map from keys to spans.
/// Verus does not take the slot map's own declaration (its key bound is an
/// outside trait), so it is held here, out of Verus's sight, and read and
/// changed only through the functions below.
#[verifier::external_body]
pub struct SlotRanges {
    map: SlotMap<DefaultKey, Slice>,
}

/// The most entries a slot map holds: one more insert would panic.
pub const MAX_SLOTS: usize = 4294967294;

/// The spans that a slot map holds, each under the `as_ffi` bits of its key.
pub uninterp spec fn slot_ranges(m: SlotRanges) -> Map<u64, Slice>;

/// The current version of each slot of a slot map, by slot index: odd
/// while the slot holds an entry, raised by one at each insert into and
/// each removal from it (wrapping past `u32::MAX`).
pub uninterp spec fn slot_versions(m: SlotRanges) -> Map<int, int>;

/// The versions after every live entry is removed: each occupied slot's
/// version goes up by one.
pub open spec fn cleared_versions(ranges: Map<u64, Slice>, versions: Map<int, int>) -> Map<
    int,
    int,
> {
    Map::new(
        |i: int| versions.contains_key(i),
        |i: int|
            if exists|k: u64| ranges.contains_key(k) && slot_of(k) == i {
                next_version(versions[i])
            } else {
                versions[i]
            },
    )
}

/// Relies on `SlotMap::new`: a new map holds nothing.
#[verifier::external_body]
pub(crate) fn slots_new() -> (r: SlotRanges)
    ensures
        slot_ranges(r).dom().len() == 0 && slot_ranges(r).dom().finite(),
        slot_versions(r).dom().len() == 0 && slot_versions(r).dom().finite(),
{
    SlotRanges { map: SlotMap::new() }
}

/// Relies on `SlotMap::clear`: every entry is removed in place (through
/// `drain`, which raises the version of each slot it empties), and the map
/// stays the one that issued the old keys.
#[verifier::external_body]
pub(crate) fn slots_clear(m: &mut SlotRanges)
    ensures
        slot_ranges(*final(m)).dom().len() == 0 && slot_ranges(*final(m)).dom().finite(),
        slot_versions(*final(m)) == cleared_versions(slot_ranges(*old(m)), slot_versions(*old(m))),
{
    m.map.clear();
}

/// Relies on `SlotMap::len`: the number of live entries.
#[verifier::external_body]
pub(crate) fn slots_len(m: &SlotRanges) -> (r: usize)
    ensures
        r == slot_ranges(*m).dom().len(),
{
    m.map.len()
}

/// Relies on `SlotMap::insert` and `KeyData::as_ffi`: the new key goes
/// into a slot that holds no entry, and holds `value`. Its version is one
/// above the slot's (a new slot starts at one); its slot index is neither
/// the sentinel 0 nor `u32::MAX` (the map never has that many slots).
/// `insert` panics when the map is full, which `requires` leaves out.
#[verifier::external_body]
pub(crate) fn slots_insert(m: &mut SlotRanges, value: Slice) -> (r: u64)
    requires
        slot_ranges(*old(m)).dom().finite(),
        slot_ranges(*old(m)).dom().len() < MAX_SLOTS,
    ensures
        is_key_bits(r),
        !slot_ranges(*old(m)).contains_key(r),
        slot_ranges(*final(m)) == slot_ranges(*old(m)).insert(r, value),
        forall|k: u64| #[trigger]
            slot_ranges(*old(m)).contains_key(k) ==> slot_of(k) != slot_of(r),
        slot_versions(*old(m)).contains_key(slot_of(r)) ==> version_of(r) == slot_versions(
            *old(m),
        )[slot_of(r)] + 1,
        !slot_versions(*old(m)).contains_key(slot_of(r)) ==> version_of(r) == 1,
        slot_versions(*final(m)) == slot_versions(*old(m)).insert(slot_of(r), version_of(r)),
{
    m.map.insert(value).data().as_ffi()
}

/// Relies on `SlotMap::get` and `KeyData::from_ffi`: the span under a live
/// key; for bits of the shape `as_ffi` gives, `from_ffi` rebuilds that key.
#[verifier::external_body]
pub(crate) fn slots_get(m: &SlotRanges, key: u64) -> (r: Option<Slice>)
    requires
        is_key_bits(key),
    ensures
        slot_ranges(*m).contains_key(key) ==> r == Some(slot_ranges(*m)[key]),
        !slot_ranges(*m).contains_key(key) ==> r is None,
{
    m.map.get(DefaultKey::from(KeyData::from_ffi(key))).copied()
}

/// Relies on `SlotMap::remove` and `KeyData::from_ffi`: a live key leaves
/// the map with its span, and its slot's version goes up by one (wrapping);
/// any other key changes nothing.
#[verifier::external_body]
pub(crate) fn slots_remove(m: &mut SlotRanges, key: u64) -> (r: Option<Slice>)
    requires
        is_key_bits(key),
    ensures
        slot_ranges(*old(m)).contains_key(key) ==> r == Some(slot_ranges(*old(m))[key])
            && slot_ranges(*final(m)) == slot_ranges(*old(m)).remove(key),
        !slot_ranges(*old(m)).contains_key(key) ==> r is None && slot_ranges(*final(m))
            == slot_ranges(*old(m)),
        slot_ranges(*old(m)).contains_key(key) ==> slot_versions(*final(m)) == slot_versions(
            *old(m),
        ).insert(slot_of(key), next_version(version_of(key))),
        !slot_ranges(*old(m)).contains_key(key) ==> slot_versions(*final(m)) == slot_versions(
            *old(m),
        ),
{
    m.map.remove(DefaultKey::from(KeyData::from_ffi(key)))
}

/// Relies on `IndexMut` of `SlotMap` and `KeyData::from_ffi`: the span
/// under a live key is replaced. Indexing panics on a key that is not live,
/// which `requires` leaves out.
#[verifier::external_body]
pub(crate) fn slots_set(m: &mut SlotRanges, key: u64, value: Slice)
    requires
        slot_ranges(*old(m)).contains_key(key),
    ensures
        slot_ranges(*final(m)) == slot_ranges(*old(m)).insert(key, value),
        slot_versions(*final(m)) == slot_versions(*old(m)),
{
    m.map[DefaultKey::from(KeyData::from_ffi(key))] = value;
}

impl SlotRanges {
    /// A live key may come back without being retired only when its
    /// version is the last one, `u32::MAX`.
    pub proof fn lemma_may_return(&self, k: u64)
        requires
            self.consistent(),
            self.ranges().contains_key(k),
        ensures
            self.may_return(k) <==> version_of(k) == 0xFFFF_FFFF,
    {
    }

    /// Puts `value` under a new key, which is neither live nor retired;
    /// keys retired before stay retired.
    pub fn insert(&mut self, value: Slice) -> (r: SliceKey)
        requires
            old(self).consistent(),
            old(self).ranges().dom().finite(),
            old(self).ranges().dom().len() < MAX_SLOTS,
        ensures
            final(self).consistent(),
            !old(self).ranges().contains_key(r@),
            !old(self).retired(r@),
            final(self).ranges() == old(self).ranges().insert(r@, value),
            forall|k: u64| old(self).retired(k) ==> #[trigger] final(self).retired(k),
    {
        let ghost before = *self;
        let bits = slots_insert(self, value);
        proof {
            assert forall|k: u64| #[trigger]
                slot_ranges(*self).contains_key(k) implies slot_versions(*self).contains_key(
                slot_of(k),
            ) && slot_versions(*self)[slot_of(k)] == version_of(k) by {
                if k != bits {
                    assert(slot_ranges(before).contains_key(k));
                }
            }
            assert forall|k: u64| before.retired(k) implies #[trigger] self.retired(k) by {
                if slot_of(k) != slot_of(bits) {
                    assert(slot_versions(*self)[slot_of(k)] == slot_versions(before)[slot_of(k)]);
                }
            }
        }
        SliceKey::from_issued(bits)
    }
}

/// The generational registry: keys are issued by the registry itself.
impl SliceStorage for SlotRanges {
    open spec fn ranges(&self) -> Map<u64, Slice> {
        slot_ranges(*self)
    }

    /// Each live key carries the version of its slot.
    closed spec fn consistent(&self) -> bool {
        forall|k: u64| #[trigger]
            slot_ranges(*self).contains_key(k) ==> slot_versions(*self).contains_key(slot_of(k))
                && slot_versions(*self)[slot_of(k)] == version_of(k)
    }

    /// The slot's version has moved past `k`'s.
    closed spec fn retired(&self, k: u64) -> bool {
        slot_versions(*self).contains_key(slot_of(k)) && version_of(k) < slot_versions(
            *self,
        )[slot_of(k)]
    }

    closed spec fn may_return(&self, k: u64) -> bool {
        slot_versions(*self).contains_key(slot_of(k)) && slot_versions(*self)[slot_of(k)]
            == 0xFFFF_FFFF
    }

    proof fn lemma_retired_not_live(&self, k: u64) {
    }

    fn empty() -> (r: Self) {
        let r = slots_new();
        assert(slot_ranges(r) =~= Map::<u64, Slice>::empty());
        assert(slot_versions(r) =~= Map::<int, int>::empty());
        r
    }

    fn len(&self) -> (r: usize) {
        slots_len(self)
    }

    fn clear(&mut self) {
        slots_clear(self);
        assert(slot_ranges(*self) =~= Map::<u64, Slice>::empty());
    }

    fn is_empty(&self) -> (r: bool) {
        slots_len(self) == 0
    }

    fn get(&self, key: SliceKey) -> (r: Option<Slice>) {
        slots_get(self, key.to_bits())
    }

    fn remove(&mut self, key: SliceKey) -> (r: Option<Slice>) {
        slots_remove(self, key.to_bits())
    }

    fn set(&mut self, key: u64, value: Slice) {
        slots_set(self, key, value);
    }
}

} // verus!
