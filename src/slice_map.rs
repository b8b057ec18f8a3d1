use vstd::prelude::*;

use crate::array_vec::ArrayVec;
use crate::registry::{is_key_bits, slot_of, version_of, SliceKey, SliceStorage};
use crate::keyed::KeyedRanges;
use crate::slice::{
    covered, lemma_covered_after_remove, lemma_tiles_bounds, lemma_tiles_push,
    lemma_tiles_count, lemma_tiles_remove, rebased, tiles, Slice,
};
use crate::slots::{SlotRanges, MAX_SLOTS};
use crate::storage::{SliceError, Storage};

verus! {

/// The most items a map holds: spans are kept as 32-bit bounds.
pub const MAX_ITEMS: usize = 4294967295;

/// Groups of items of one type, packed back to back in a single buffer and
/// reached through keys. The buffer runs on any `Storage` backend, and the
/// spans on any `SliceStorage` registry.
pub struct SliceMap<T, I, R> {
    items: I,
    slices: R,
    order: Vec<u64>,
    marker: core::marker::PhantomData<T>,
}

/// A map over a growable buffer that issues its own keys; a key never
/// names another slice once its own is gone.
pub type SlotSliceMap<T> = SliceMap<T, Vec<T>, SlotRanges>;

/// A map over a growable buffer under keys that the caller's own slot map
/// issued: one slice per key.
pub type SecSliceMap<T> = SliceMap<T, Vec<T>, KeyedRanges>;

/// A map over a buffer of at most `ITEM_COUNT` items, issuing its own keys.
pub type SliceArray<T, const ITEM_COUNT: usize> = SliceMap<
    T,
    ArrayVec<T, ITEM_COUNT>,
    SlotRanges,
>;

impl<T, I: Storage<T>, R: SliceStorage> SliceMap<T, I, R> {
    /// The item buffer.
    pub closed spec fn buffer(&self) -> Seq<T> {
        self.items.contents()
    }

    /// The span of each live key, by the key's view.
    pub closed spec fn ranges(&self) -> Map<u64, Slice> {
        self.slices.ranges()
    }

    /// The live keys in the order their spans lie in the buffer.
    pub closed spec fn layout(&self) -> Seq<u64> {
        self.order@
    }

    /// The most items the backend can hold.
    pub closed spec fn limit(&self) -> nat {
        self.items.limit()
    }

    /// `k` was handed out and is gone for good: the registry will not hand
    /// it out again (see `lemma_retired_is_stale`).
    pub closed spec fn retired(&self, k: u64) -> bool {
        self.slices.retired(k)
    }

    /// `k` may be live again later without being retired first.
    pub closed spec fn may_return(&self, k: u64) -> bool {
        self.slices.may_return(k)
    }

    /// A retired key names no slice.
    pub proof fn lemma_retired_is_stale(&self, k: u64)
        requires
            self.well_formed(),
            self.retired(k),
        ensures
            !self.ranges().contains_key(k),
    {
        self.slices.lemma_retired_not_live(k);
    }

    /// The items of the slice under `k`.
    pub open spec fn slice_of(&self, k: u64) -> Seq<T> {
        covered(self.buffer(), self.ranges()[k])
    }

    /// The buffer is exactly the spans of the live keys, back to back.
    pub closed spec fn well_formed(&self) -> bool {
        &&& self.items.well_formed()
        &&& self.buffer().len() <= MAX_ITEMS
        &&& self.ranges().dom().finite()
        &&& forall|k: u64| #[trigger] self.ranges().contains_key(k) ==> is_key_bits(k)
        &&& self.slices.consistent()
        &&& tiles(self.ranges(), self.layout(), self.buffer().len())
    }

    /// What a well-formed map says of its layout.
    pub proof fn lemma_tiles(&self)
        requires
            self.well_formed(),
        ensures
            tiles(self.ranges(), self.layout(), self.buffer().len()),
            self.ranges().dom().finite(),
            self.buffer().len() <= MAX_ITEMS,
    {
    }

    /// A map over `items`, which must be empty.
    pub fn from_storage(items: I) -> (r: Self)
        requires
            items.well_formed(),
            items.contents().len() == 0,
        ensures
            r.well_formed(),
            r.buffer() == Seq::<T>::empty(),
            r.ranges() == Map::<u64, Slice>::empty(),
            r.limit() == items.limit(),
    {
        let r = SliceMap {
            items,
            slices: R::empty(),
            order: Vec::new(),
            marker: core::marker::PhantomData,
        };
        assert(r.ranges() =~= Map::<u64, Slice>::empty());
        r
    }

    /// Removes every slice; all keys handed out so far become stale.
    pub fn clear(&mut self)
        requires
            old(self).well_formed(),
        ensures
            final(self).well_formed(),
            final(self).buffer() == Seq::<T>::empty(),
            final(self).ranges() == Map::<u64, Slice>::empty(),
            final(self).limit() == old(self).limit(),
            forall|k: u64|
                (old(self).retired(k) || old(self).ranges().contains_key(k)) ==> #[trigger] final(
                    self).retired(k) || old(self).may_return(k),
    {
        self.items.reset();
        self.slices.clear();
        self.order.clear();
        assert(self.ranges() =~= Map::<u64, Slice>::empty());
    }

    /// All items of all slices, as laid out in the buffer.
    pub fn items(&self) -> (r: &[T])
        requires
            self.well_formed(),
        ensures
            r@ == self.buffer(),
    {
        self.items.iter_items()
    }

    /// How many items all slices hold together.
    pub fn items_len(&self) -> (r: usize)
        requires
            self.well_formed(),
        ensures
            r == self.buffer().len(),
    {
        self.items.len()
    }

    /// True when no item is held.
    pub fn is_empty(&self) -> (r: bool)
        requires
            self.well_formed(),
        ensures
            r == (self.buffer().len() == 0),
    {
        self.items.len() == 0
    }

    /// How many slices are live.
    pub fn slices_len(&self) -> (r: usize)
        requires
            self.well_formed(),
        ensures
            r == self.ranges().dom().len(),
    {
        self.slices.len()
    }

    /// Appends `new_items` to the buffer and returns the span they take,
    /// registering nothing; or fails, changing nothing, when the buffer
    /// would pass `MAX_ITEMS` or the backend cannot hold the items.
    fn append_span(&mut self, new_items: Vec<T>) -> (r: Result<Slice, SliceError>)
        requires
            old(self).well_formed(),
        ensures
            final(self).items.well_formed(),
            final(self).limit() == old(self).limit(),
            final(self).slices == old(self).slices,
            final(self).ranges() == old(self).ranges(),
            final(self).layout() == old(self).layout(),
            r is Err <==> (old(self).buffer().len() + new_items@.len() > MAX_ITEMS || old(
                self).buffer().len() + new_items@.len() > old(self).limit()),
            r is Err ==> r == Err::<Slice, SliceError>(SliceError::CapacityExceeded) && final(
                self).buffer() == old(self).buffer() && final(self).well_formed(),
            r is Ok ==> final(self).buffer() == old(self).buffer() + new_items@ && final(
                self).buffer().len() <= MAX_ITEMS && r->Ok_0 == (Slice {
                start: old(self).buffer().len() as u32,
                end: (old(self).buffer().len() + new_items@.len()) as u32,
            }),
    {
        let start = self.items.len();
        if new_items.len() > MAX_ITEMS - start {
            return Err(SliceError::CapacityExceeded);
        }
        let added = new_items.len();
        match self.items.extend_from_iter(new_items) {
            Ok(()) => {},
            Err(e) => {
                self.items.truncate(start);
                assert(self.buffer() =~= old(self).buffer());
                return Err(e);
            },
        }
        let end = start + added;
        Ok(Slice { start: start as u32, end: end as u32 })
    }

    /// The items of the slice under `key`, or `None` when the key is stale.
    pub fn get_slice(&self, key: SliceKey) -> (r: Option<&[T]>)
        requires
            self.well_formed(),
        ensures
            r is Some <==> self.ranges().contains_key(key@),
            r is Some ==> r->0@ == self.slice_of(key@),
    {
        proof {
            lemma_tiles_bounds(self.ranges(), self.layout(), self.buffer().len());
        }
        match self.slices.get(key) {
            None => None,
            Some(span) => self.items.get_slice(span.start as usize, span.end as usize),
        }
    }

    /// Removes the slice under `key` and returns its span, or `None` when
    /// the key is stale. The items after the span move down to close the
    /// hole, and so does every span that lay after it; every other slice
    /// keeps its items.
    #[verifier::rlimit(50)]
    pub fn remove_slice(&mut self, key: SliceKey) -> (r: Option<Slice>)
        requires
            old(self).well_formed(),
        ensures
            final(self).well_formed(),
            final(self).limit() == old(self).limit(),
            !final(self).ranges().contains_key(key@),
            forall|k: u64|
                (old(self).retired(k) || (k == key@ && old(self).ranges().contains_key(key@)))
                    ==> #[trigger] final(self).retired(k) || old(self).may_return(k),
            r is Some <==> old(self).ranges().contains_key(key@),
            r is None ==> final(self).buffer() == old(self).buffer() && final(self).ranges() == old(
                self).ranges() && final(self).layout() == old(self).layout(),
            r is Some ==> r->0 == old(self).ranges()[key@] && final(self).buffer() == old(
                self).buffer().subrange(0, r->0.start as int) + old(self).buffer().subrange(
                r->0.end as int,
                old(self).buffer().len() as int,
            ) && final(self).ranges() == rebased(old(self).ranges().remove(key@), r->0),
            r is Some ==> exists|p: int|
                0 <= p < old(self).layout().len() && old(self).layout()[p] == key@ && final(
                    self).layout() == old(self).layout().remove(p),
            forall|k: u64|
                final(self).ranges().contains_key(k) ==> #[trigger] final(self).slice_of(k) == old(
                    self).slice_of(k),
    {
        let removed = self.slices.remove(key);
        let span = match removed {
            None => {
                return None;
            },
            Some(span) => span,
        };
        let ghost old_buf = old(self).buffer();
        let ghost old_ranges = old(self).ranges();
        let ghost old_order = old(self).layout();
        let ghost base = self.ranges();
        let ghost mid = self.slices;
        let ghost target = rebased(base, span);
        proof {
            assert(old_order.contains(key@));
        }
        let bits = key.to_bits();
        let mut p: usize = 0;
        while p < self.order.len() && self.order[p] != bits
            invariant
                0 <= p <= old_order.len(),
                self.layout() == old_order,
                bits == key@,
                old_order.contains(key@),
                forall|j: int| 0 <= j < p ==> old_order[j] != key@,
            decreases old_order.len() - p,
        {
            p += 1;
        }
        proof {
            if p == old_order.len() {
                let j = choose|j: int| 0 <= j < old_order.len() && old_order[j] == key@;
                assert(old_order[j] != key@);
            }
            lemma_tiles_bounds(old_ranges, old_order, old_buf.len());
            lemma_tiles_remove(old_ranges, old_order, old_buf.len(), p as int);
        }
        self.items.drain(span.start as usize, span.end as usize);
        let offset = span.end - span.start;
        let ghost n = old_order.len() as int;
        proof {
            assert forall|i: int| 0 <= i < n && i != p implies base.contains_key(
                #[trigger] old_order[i],
            ) && is_key_bits(old_order[i]) by {
                assert(old_ranges.contains_key(old_order[i]));
                assert(old_order[i] != old_order[p as int]);
            }
            assert forall|i: int| 0 <= i < p implies #[trigger] target[old_order[i]]
                == base[old_order[i]] by {
                assert(old_ranges.contains_key(old_order[i]));
                assert(old_order[i] != old_order[p as int]);
                assert(old_ranges[old_order[i]].end <= span.start);
            }
        }
        let mut j: usize = p + 1;
        while j < self.order.len()
            invariant
                p < j <= n,
                n == old_order.len(),
                self.items.well_formed(),
                self.buffer() == old_buf.subrange(0, span.start as int) + old_buf.subrange(
                    span.end as int,
                    old_buf.len() as int,
                ),
                self.limit() == old(self).limit(),
                self.layout() == old_order,
                self.slices.consistent(),
                forall|k: u64| #[trigger] self.slices.retired(k) == mid.retired(k),
                forall|k: u64| #[trigger] self.slices.may_return(k) == mid.may_return(k),
                target == rebased(base, span),
                base == old_ranges.remove(key@),
                old_ranges.contains_key(key@),
                old_ranges[key@] == span,
                old_order[p as int] == key@,
                span.start <= span.end <= old_buf.len(),
                offset == span.end - span.start,
                forall|k: u64| #[trigger]
                    base.contains_key(k) ==> base[k].start <= base[k].end,
                forall|i: int|
                    0 <= i < n && i != p ==> base.contains_key(#[trigger] old_order[i])
                        && is_key_bits(old_order[i]),
                forall|i: int|
                    p < i < n ==> #[trigger] old_ranges[old_order[i]].start >= old_ranges[old_order[p as int]].end,
                forall|i: int| 0 <= i < p ==> #[trigger] target[old_order[i]] == base[old_order[i]],
                old_order.no_duplicates(),
                self.ranges().dom() == base.dom(),
                forall|i: int|
                    0 <= i < j && i != p ==> self.ranges()[#[trigger] old_order[i]]
                        == target[old_order[i]],
                forall|i: int|
                    j <= i < n ==> self.ranges()[#[trigger] old_order[i]] == base[old_order[i]],
            decreases n - j,
        {
            let bits = self.order[j];
            let key_j = SliceKey::from_issued(bits);
            assert(base[bits] == old_ranges[bits]);
            match self.slices.get(key_j) {
                Some(s) => {
                    let moved = Slice { start: s.start - offset, end: s.end - offset };
                    self.slices.set(bits, moved);
                },
                None => {},
            }
            j += 1;
        }
        proof {
            assert forall|k: u64| #[trigger] self.ranges().contains_key(k) implies self.ranges()[k]
                == target[k] by {
                assert(old_ranges.contains_key(k));
                assert(old_order.contains(k));
                let i = choose|i: int| 0 <= i < n && old_order[i] == k;
            }
            assert(self.ranges() =~= target);
        }
        self.order.remove(p);
        proof {
            assert(old_order[p as int] == key@);
            assert(self.layout() == old_order.remove(p as int));
            assert(self.buffer().len() == old_buf.len() - span.spec_len());
            assert(tiles(self.ranges(), self.layout(), self.buffer().len()));
            assert(self.ranges().dom() == old_ranges.dom().remove(key@));
            assert forall|k: u64| #[trigger]
                self.ranges().contains_key(k) implies self.slice_of(k) == old(self).slice_of(k) by {
                assert(old_order.contains(k));
                let j = choose|j: int| 0 <= j < old_order.len() && old_order[j] == k;
                assert(j != p);
                lemma_covered_after_remove(old_buf, old_ranges[k], span);
            }
        }
        Some(span)
    }

    /// Each item of the buffer in turn, ignoring slice bounds.
    pub fn iter_items(&self) -> (r: &[T])
        requires
            self.well_formed(),
        ensures
            r@ == self.buffer(),
    {
        self.items.iter_items()
    }

    /// Every live slice with its key, each once, in the order the slices
    /// lie in the buffer.
    pub fn iter_keys_and_slices(&self) -> (r: Vec<(SliceKey, &[T])>)
        requires
            self.well_formed(),
        ensures
            r@.len() == self.layout().len(),
            r@.len() == self.ranges().dom().len(),
            forall|i: int|
                0 <= i < r@.len() ==> (#[trigger] r@[i]).0@ == self.layout()[i] && r@[i].1@
                    == self.slice_of(self.layout()[i]),
    {
        proof {
            lemma_tiles_bounds(self.ranges(), self.layout(), self.buffer().len());
            lemma_tiles_count(self.ranges(), self.layout(), self.buffer().len());
        }
        let mut out: Vec<(SliceKey, &[T])> = Vec::new();
        let mut i: usize = 0;
        while i < self.order.len()
            invariant
                0 <= i <= self.layout().len(),
                out@.len() == i,
                self.well_formed(),
                forall|k: u64| #[trigger]
                    self.ranges().contains_key(k) ==> self.ranges()[k].start <= self.ranges()[k].end
                        && self.ranges()[k].end <= self.buffer().len(),
                forall|j: int|
                    0 <= j < i ==> (#[trigger] out@[j]).0@ == self.layout()[j] && out@[j].1@
                        == self.slice_of(self.layout()[j]),
            decreases self.layout().len() - i,
        {
            let bits = self.order[i];
            assert(self.ranges().contains_key(bits));
            let key = SliceKey::from_issued(bits);
            match self.slices.get(key) {
                Some(span) => {
                    match self.items.get_slice(span.start as usize, span.end as usize) {
                        Some(items) => {
                            out.push((key, items));
                        },
                        None => {},
                    }
                },
                None => {},
            }
            i += 1;
        }
        out
    }

    /// Every live slice, each once, in the order the slices lie in the
    /// buffer; joined, they give `items()` (see `lemma_slices_join_to_items`).
    pub fn iter_slices(&self) -> (r: Vec<&[T]>)
        requires
            self.well_formed(),
        ensures
            r@.len() == self.layout().len(),
            r@.len() == self.ranges().dom().len(),
            forall|i: int|
                0 <= i < r@.len() ==> (#[trigger] r@[i])@ == self.slice_of(self.layout()[i]),
    {
        let pairs = self.iter_keys_and_slices();
        let mut out: Vec<&[T]> = Vec::new();
        let mut i: usize = 0;
        while i < pairs.len()
            invariant
                0 <= i <= pairs@.len(),
                pairs@.len() == self.layout().len(),
                out@.len() == i,
                forall|j: int|
                    0 <= j < pairs@.len() ==> (#[trigger] pairs@[j]).1@ == self.slice_of(
                        self.layout()[j],
                    ),
                forall|j: int|
                    0 <= j < i ==> (#[trigger] out@[j])@ == self.slice_of(self.layout()[j]),
            decreases pairs@.len() - i,
        {
            out.push(pairs[i].1);
            i += 1;
        }
        out
    }
}

impl<T, R: SliceStorage> SliceMap<T, Vec<T>, R> {
    /// A map over a growable buffer is bounded only by `usize::MAX` items
    /// (and by `MAX_ITEMS`, which is lower).
    pub proof fn lemma_growable_limit(&self)
        ensures
            self.limit() == usize::MAX,
    {
    }

    /// An empty map over a growable buffer.
    pub fn new() -> (r: Self)
        ensures
            r.well_formed(),
            r.buffer() == Seq::<T>::empty(),
            r.ranges() == Map::<u64, Slice>::empty(),
            r.limit() == usize::MAX,
    {
        Self::from_storage(Vec::new())
    }

    /// An empty map whose buffer has room for `cap` items before it grows.
    pub fn with_capacity(cap: usize) -> (r: Self)
        ensures
            r.well_formed(),
            r.buffer() == Seq::<T>::empty(),
            r.ranges() == Map::<u64, Slice>::empty(),
            r.limit() == usize::MAX,
    {
        Self::from_storage(Vec::with_capacity(cap))
    }
}

impl<T, R: SliceStorage> Default for SliceMap<T, Vec<T>, R> {
    fn default() -> (r: Self)
        ensures
            r.well_formed(),
            r.buffer() == Seq::<T>::empty(),
            r.ranges() == Map::<u64, Slice>::empty(),
            r.limit() == usize::MAX,
    {
        Self::new()
    }
}

impl<T, const ITEM_COUNT: usize, R: SliceStorage> SliceMap<T, ArrayVec<T, ITEM_COUNT>, R> {
    /// A map over an `ArrayVec` holds at most `ITEM_COUNT` items.
    pub proof fn lemma_bounded_limit(&self)
        ensures
            self.limit() == ITEM_COUNT as nat,
    {
    }

    /// An empty map over a buffer of at most `ITEM_COUNT` items.
    pub fn new_with_arrayvec() -> (r: Self)
        ensures
            r.well_formed(),
            r.buffer() == Seq::<T>::empty(),
            r.ranges() == Map::<u64, Slice>::empty(),
            r.limit() == ITEM_COUNT as nat,
    {
        Self::from_storage(ArrayVec::new())
    }
}

impl<T, I: Storage<T>> SliceMap<T, I, SlotRanges> {
    /// In a map that issues its own keys, a live key may come back after
    /// its removal without being retired only when its version is the last
    /// one, `u32::MAX`; that takes 2^31 reuses of its slot.
    pub proof fn lemma_may_return(&self, k: u64)
        requires
            self.well_formed(),
            self.ranges().contains_key(k),
        ensures
            self.may_return(k) <==> version_of(k) == 0xFFFF_FFFF,
    {
        self.slices.lemma_may_return(k);
    }

    /// Adds `new_items` as one new slice at the end of the buffer, and
    /// returns its new key. Fails, changing nothing, when the registry is
    /// full, when the buffer would pass `MAX_ITEMS`, or when the backend
    /// cannot hold the items.
    pub fn add_items(&mut self, new_items: Vec<T>) -> (r: Result<SliceKey, SliceError>)
        requires
            old(self).well_formed(),
        ensures
            final(self).well_formed(),
            final(self).limit() == old(self).limit(),
            r is Err <==> (old(self).ranges().dom().len() >= MAX_SLOTS || old(self).buffer().len()
                + new_items@.len() > MAX_ITEMS || old(self).buffer().len() + new_items@.len() > old(
                self).limit()),
            r is Err ==> r == Err::<SliceKey, SliceError>(SliceError::CapacityExceeded) && final(
                self).buffer() == old(self).buffer() && final(self).ranges() == old(self).ranges()
                && final(self).layout() == old(self).layout(),
            r is Ok ==> !old(self).ranges().contains_key(r->Ok_0@) && final(self).ranges() == old(
                self).ranges().insert(
                r->Ok_0@,
                Slice {
                    start: old(self).buffer().len() as u32,
                    end: (old(self).buffer().len() + new_items@.len()) as u32,
                },
            ) && final(self).buffer() == old(self).buffer() + new_items@ && final(self).layout()
                == old(self).layout().push(r->Ok_0@),
            r is Ok ==> final(self).ranges().dom().len() == old(self).ranges().dom().len() + 1,
            r is Ok ==> !old(self).retired(r->Ok_0@),
            forall|k: u64| old(self).retired(k) ==> #[trigger] final(self).retired(k),
    {
        if self.slices.len() >= MAX_SLOTS {
            return Err(SliceError::CapacityExceeded);
        }
        let span = match self.append_span(new_items) {
            Ok(span) => span,
            Err(e) => {
                return Err(e);
            },
        };
        let key = self.slices.insert(span);
        let bits = key.to_bits();
        proof {
            lemma_tiles_push(
                old(self).ranges(),
                old(self).layout(),
                old(self).buffer().len(),
                bits,
                span,
            );
        }
        self.order.push(bits);
        Ok(key)
    }
}

impl<T, I: Storage<T>> SliceMap<T, I, KeyedRanges> {
    /// Adds `new_items` as one new slice at the end of the buffer, under
    /// `key`, which the caller's own slot map issued. Fails, changing
    /// nothing, when `key` already holds a slice, when the buffer would pass
    /// `MAX_ITEMS`, or when the backend cannot hold the items.
    pub fn add_items(&mut self, key: SliceKey, new_items: Vec<T>) -> (r: Result<(), SliceError>)
        requires
            old(self).well_formed(),
        ensures
            final(self).well_formed(),
            final(self).limit() == old(self).limit(),
            r == Err::<(), SliceError>(SliceError::KeyTaken) <==> old(self).ranges().contains_key(
                key@,
            ),
            r == Err::<(), SliceError>(SliceError::CapacityExceeded) <==> !old(
                self,
            ).ranges().contains_key(key@) && (old(self).buffer().len() + new_items@.len()
                > MAX_ITEMS || old(self).buffer().len() + new_items@.len() > old(self).limit()),
            r is Err ==> final(self).buffer() == old(self).buffer() && final(self).ranges() == old(
                self).ranges() && final(self).layout() == old(self).layout(),
            r is Ok ==> final(self).ranges() == old(self).ranges().insert(
                key@,
                Slice {
                    start: old(self).buffer().len() as u32,
                    end: (old(self).buffer().len() + new_items@.len()) as u32,
                },
            ) && final(self).buffer() == old(self).buffer() + new_items@ && final(self).layout()
                == old(self).layout().push(key@),
            r is Ok ==> final(self).ranges().dom().len() == old(self).ranges().dom().len() + 1,
            forall|k: u64| old(self).retired(k) ==> #[trigger] final(self).retired(k),
    {
        if self.slices.contains(key) {
            return Err(SliceError::KeyTaken);
        }
        let span = match self.append_span(new_items) {
            Ok(span) => span,
            Err(e) => {
                return Err(e);
            },
        };
        let bits = key.to_bits();
        self.slices.insert(key, span);
        proof {
            lemma_tiles_push(
                old(self).ranges(),
                old(self).layout(),
                old(self).buffer().len(),
                bits,
                span,
            );
        }
        self.order.push(bits);
        Ok(())
    }
}

} // verus!
