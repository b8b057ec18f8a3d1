use vstd::prelude::*;

verus! {

/// Why a slice could not be added.
#[derive(Debug, Clone, Copy, PartialEq, Eq, Structural)]
pub enum SliceError {
    /// A bounded backend is full, or the buffer would pass its 32-bit bounds.
    CapacityExceeded,
    /// The key's slot already holds a slice.
    KeyTaken,
}

/// What a flat, ordered backend offers: the item buffer of a slice map runs
/// on any type with these operations.
pub trait Storage<T>: Sized {
    /// The elements held, in order.
    spec fn contents(&self) -> Seq<T>;

    /// The most elements this backend can hold.
    spec fn limit(&self) -> nat;

    /// The backend's own invariant.
    spec fn well_formed(&self) -> bool;

    fn len(&self) -> (r: usize)
        requires
            self.well_formed(),
        ensures
            r == self.contents().len(),
    ;

    /// Removes every element; the limit stays.
    fn reset(&mut self)
        requires
            old(self).well_formed(),
        ensures
            final(self).well_formed(),
            final(self).contents() == Seq::<T>::empty(),
            final(self).limit() == old(self).limit(),
    ;

    /// All elements, as one borrowed slice.
    fn iter_items(&self) -> (r: &[T])
        requires
            self.well_formed(),
        ensures
            r@ == self.contents(),
    ;

    fn get_item(&self, index: usize) -> (r: Option<&T>)
        requires
            self.well_formed(),
        ensures
            index < self.contents().len() ==> r == Some(&self.contents()[index as int]),
            index >= self.contents().len() ==> r is None,
    ;

    /// The elements in `[start, end)`, or `None` where that is not a range
    /// inside the current contents.
    fn get_slice(&self, start: usize, end: usize) -> (r: Option<&[T]>)
        requires
            self.well_formed(),
        ensures
            start <= end <= self.contents().len() ==> r is Some && r->0@ == self.contents().subrange(
                start as int,
                end as int,
            ),
            !(start <= end <= self.contents().len()) ==> r is None,
    ;

    /// Appends one element, or fails when the backend is full.
    fn push_item(&mut self, item: T) -> (r: Result<(), SliceError>)
        requires
            old(self).well_formed(),
        ensures
            final(self).well_formed(),
            final(self).limit() == old(self).limit(),
            old(self).contents().len() < old(self).limit() ==> r is Ok && final(self).contents()
                == old(self).contents().push(item),
            old(self).contents().len() >= old(self).limit() ==> r == Err::<(), SliceError>(
                SliceError::CapacityExceeded,
            ) && final(self).contents() == old(self).contents(),
    ;

    /// Appends `items` in order. Where they do not all fit, those that fit
    /// are appended and the call fails.
    fn extend_from_iter(&mut self, items: Vec<T>) -> (r: Result<(), SliceError>)
        requires
            old(self).well_formed(),
        ensures
            final(self).well_formed(),
            final(self).limit() == old(self).limit(),
            old(self).contents().len() + items@.len() <= old(self).limit() ==> r is Ok
                && final(self).contents() == old(self).contents() + items@,
            old(self).contents().len() + items@.len() > old(self).limit() ==> r == Err::<
                (),
                SliceError,
            >(SliceError::CapacityExceeded) && final(self).contents() == old(self).contents()
                + items@.take(old(self).limit() - old(self).contents().len()),
    ;

    /// Removes the element at `index`, shifting later ones down.
    fn remove(&mut self, index: usize) -> (r: Option<T>)
        requires
            old(self).well_formed(),
        ensures
            final(self).well_formed(),
            final(self).limit() == old(self).limit(),
            index < old(self).contents().len() ==> r == Some(old(self).contents()[index as int])
                && final(self).contents() == old(self).contents().remove(index as int),
            index >= old(self).contents().len() ==> r is None && final(self).contents() == old(self).contents(),
    ;

    /// Removes the elements in `[start, end)`, shifting later ones down.
    fn drain(&mut self, start: usize, end: usize)
        requires
            old(self).well_formed(),
            start <= end <= old(self).contents().len(),
        ensures
            final(self).well_formed(),
            final(self).limit() == old(self).limit(),
            final(self).contents() == old(self).contents().subrange(0, start as int) + old(self).contents().subrange(end as int, old(self).contents().len() as int),
    ;

    /// Keeps the first `len` elements.
    fn truncate(&mut self, len: usize)
        requires
            old(self).well_formed(),
            len <= old(self).contents().len(),
        ensures
            final(self).well_formed(),
            final(self).limit() == old(self).limit(),
            final(self).contents() == old(self).contents().subrange(0, len as int),
    ;
}

/// Removes `[start, end)` from `v`, moving the tail down.
pub(crate) fn vec_drain<T>(v: &mut Vec<T>, start: usize, end: usize)
    requires
        start <= end <= old(v)@.len(),
    ensures
        final(v)@ == old(v)@.subrange(0, start as int) + old(v)@.subrange(
            end as int,
            old(v)@.len() as int,
        ),
{
    let mut tail = v.split_off(end);
    v.truncate(start);
    v.append(&mut tail);
}

/// Appends as many of `items` as fit under `limit` elements in all.
pub(crate) fn vec_extend_bounded<T>(v: &mut Vec<T>, items: Vec<T>, limit: usize) -> (r: Result<
    (),
    SliceError,
>)
    requires
        old(v)@.len() <= limit,
    ensures
        old(v)@.len() + items@.len() <= limit ==> r is Ok && final(v)@ == old(v)@ + items@,
        old(v)@.len() + items@.len() > limit ==> r == Err::<(), SliceError>(
            SliceError::CapacityExceeded,
        ) && final(v)@ == old(v)@ + items@.take(limit - old(v)@.len()),
{
    let mut items = items;
    let room = limit - v.len();
    if items.len() <= room {
        v.append(&mut items);
        Ok(())
    } else {
        let _rest = items.split_off(room);
        v.append(&mut items);
        Err(SliceError::CapacityExceeded)
    }
}

/// The growable backend: its only bound is the address space.
impl<T> Storage<T> for Vec<T> {
    open spec fn contents(&self) -> Seq<T> {
        self@
    }

    open spec fn limit(&self) -> nat {
        usize::MAX as nat
    }

    open spec fn well_formed(&self) -> bool {
        true
    }

    fn len(&self) -> (r: usize) {
        Vec::len(self)
    }

    fn reset(&mut self) {
        self.clear();
    }

    fn iter_items(&self) -> (r: &[T]) {
        self.as_slice()
    }

    fn get_item(&self, index: usize) -> (r: Option<&T>) {
        if index < Vec::len(self) {
            Some(&self[index])
        } else {
            None
        }
    }

    fn get_slice(&self, start: usize, end: usize) -> (r: Option<&[T]>) {
        if start <= end && end <= Vec::len(self) {
            Some(vstd::slice::slice_subrange(self.as_slice(), start, end))
        } else {
            None
        }
    }

    fn push_item(&mut self, item: T) -> (r: Result<(), SliceError>) {
        if Vec::len(self) == usize::MAX {
            Err(SliceError::CapacityExceeded)
        } else {
            self.push(item);
            Ok(())
        }
    }

    fn extend_from_iter(&mut self, items: Vec<T>) -> (r: Result<(), SliceError>) {
        let held: usize = Vec::len(self);
        assert(held <= usize::MAX);
        vec_extend_bounded(self, items, usize::MAX)
    }

    fn remove(&mut self, index: usize) -> (r: Option<T>) {
        if index < Vec::len(self) {
            Some(Vec::remove(self, index))
        } else {
            None
        }
    }

    fn drain(&mut self, start: usize, end: usize) {
        vec_drain(self, start, end);
    }

    fn truncate(&mut self, len: usize) {
        Vec::truncate(self, len);
    }
}

} // verus!
