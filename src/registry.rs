use vstd::prelude::*;

use crate::slice::Slice;

verus! {

/// The low half of a key's bits: the index of its slot.
pub open spec fn slot_of(bits: u64) -> int {
    bits as int % 0x1_0000_0000
}

/// The upper half of a key's bits: its version.
pub open spec fn version_of(bits: u64) -> int {
    bits as int / 0x1_0000_0000
}

/// A 32-bit version plus one, wrapping to zero past `u32::MAX`.
pub open spec fn next_version(v: int) -> int {
    if v == 0xFFFF_FFFF {
        0
    } else {
        v + 1
    }
}

/// Whether `bits` has the shape of a key that a slot map issues, in its
/// `as_ffi` form: the version, held in the upper half, is odd, and the slot
/// index is neither the sentinel slot 0 nor the null key's `u32::MAX`.
pub open spec fn is_key_bits(bits: u64) -> bool {
    &&& version_of(bits) % 2 == 1
    &&& slot_of(bits) != 0
    &&& slot_of(bits) != 0xFFFF_FFFF
}

/// A handle to one slice of a map. It keeps naming the same slice until
/// that slice is removed or the map is cleared.
#[derive(Debug, Clone, Copy, PartialEq, Eq, Hash)]
pub struct SliceKey {
    bits: u64,
}

impl SliceKey {
    #[verifier::type_invariant]
    spec fn key_shape(&self) -> bool {
        is_key_bits(self.bits)
    }

    /// The key whose `as_ffi` form is `bits`, where `bits` has that shape.
    pub fn from_bits(bits: u64) -> (r: Option<SliceKey>)
        ensures
            r is Some <==> is_key_bits(bits),
            r is Some ==> r->0@ == bits,
    {
        let upper: u64 = bits / 0x1_0000_0000;
        let lower: u64 = bits % 0x1_0000_0000;
        if upper % 2 == 1 && lower != 0 && lower != 0xFFFF_FFFF {
            Some(SliceKey { bits })
        } else {
            None
        }
    }

    /// The key of a live registry entry.
    pub(crate) fn from_issued(bits: u64) -> (r: SliceKey)
        requires
            is_key_bits(bits),
        ensures
            r@ == bits,
    {
        SliceKey { bits }
    }

    /// The key in its `as_ffi` form.
    pub fn to_bits(&self) -> (r: u64)
        ensures
            r == self@,
            is_key_bits(r),
    {
        proof {
            use_type_invariant(self);
        }
        self.bits
    }
}

impl View for SliceKey {
    type V = u64;

    closed spec fn view(&self) -> u64 {
        self.bits
    }
}

/// What a registry of spans offers: a map from keys to spans that the
/// slice map keeps in step with its buffer.
pub trait SliceStorage: Sized {
    /// The span of each live key.
    spec fn ranges(&self) -> Map<u64, Slice>;

    /// The registry's own bookkeeping agrees with its live keys.
    spec fn consistent(&self) -> bool;

    /// `k` was handed out once and is gone for good: it is not live, and
    /// the registry will not hand it out again.
    spec fn retired(&self, k: u64) -> bool;

    /// `k` may be live again later without being retired first: the
    /// caller may hand it in again, or taking out the live key of `k`'s
    /// slot would wrap that slot's version counter.
    spec fn may_return(&self, k: u64) -> bool;

    /// A retired key is not live.
    proof fn lemma_retired_not_live(&self, k: u64)
        requires
            self.consistent(),
            self.retired(k),
        ensures
            !self.ranges().contains_key(k),
    ;

    /// A registry with no key.
    fn empty() -> (r: Self)
        ensures
            r.consistent(),
            r.ranges().dom().finite(),
            r.ranges() == Map::<u64, Slice>::empty(),
    ;

    fn len(&self) -> (r: usize)
        ensures
            r == self.ranges().dom().len(),
    ;

    /// Takes every key out, in place; each key that was live or retired
    /// is retired after, unless its slot's counter wrapped.
    fn clear(&mut self)
        requires
            old(self).consistent(),
        ensures
            final(self).consistent(),
            forall|k: u64|
                (old(self).retired(k) || old(self).ranges().contains_key(k)) ==> #[trigger] final(
                    self).retired(k) || old(self).may_return(k),
            final(self).ranges().dom().finite(),
            final(self).ranges() == Map::<u64, Slice>::empty(),
    ;

    fn is_empty(&self) -> (r: bool)
        requires
            self.ranges().dom().finite(),
        ensures
            r == (self.ranges().dom().len() == 0),
    ;

    fn get(&self, key: SliceKey) -> (r: Option<Slice>)
        ensures
            self.ranges().contains_key(key@) ==> r == Some(self.ranges()[key@]),
            !self.ranges().contains_key(key@) ==> r is None,
    ;

    /// Takes a live key out, with its span, and retires it (unless its
    /// slot's counter wraps); any other key changes nothing.
    fn remove(&mut self, key: SliceKey) -> (r: Option<Slice>)
        requires
            old(self).consistent(),
        ensures
            final(self).consistent(),
            forall|k: u64|
                (old(self).retired(k) || (k == key@ && old(self).ranges().contains_key(key@)))
                    ==> #[trigger] final(self).retired(k) || old(self).may_return(k),
            old(self).ranges().contains_key(key@) ==> r == Some(old(self).ranges()[key@])
                && final(self).ranges() == old(self).ranges().remove(key@),
            !old(self).ranges().contains_key(key@) ==> r is None && final(self).ranges() == old(
                self).ranges(),
    ;

    /// Replaces the span of a live key.
    fn set(&mut self, key: u64, value: Slice)
        requires
            old(self).consistent(),
            old(self).ranges().contains_key(key),
        ensures
            final(self).consistent(),
            forall|k: u64| #[trigger] final(self).retired(k) == old(self).retired(k),
            forall|k: u64| #[trigger] final(self).may_return(k) == old(self).may_return(k),
            final(self).ranges() == old(self).ranges().insert(key, value),
    ;
}

} // verus!
