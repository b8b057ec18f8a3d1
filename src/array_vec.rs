use vstd::prelude::*;

use crate::storage::{vec_drain, vec_extend_bounded, SliceError, Storage};

verus! {

/// A vector that holds at most `ITEM_COUNT` elements. It reserves its room
/// once, and a push past the bound fails instead of growing.
#[derive(Debug)]
pub struct ArrayVec<T, const ITEM_COUNT: usize> {
    data: Vec<T>,
}

impl<T, const ITEM_COUNT: usize> ArrayVec<T, ITEM_COUNT> {
    /// An empty vector with room for `ITEM_COUNT` elements.
    pub fn new() -> (r: Self)
        ensures
            r.well_formed(),
            r.contents() == Seq::<T>::empty(),
            r.limit() == ITEM_COUNT as nat,
    {
        ArrayVec { data: Vec::with_capacity(ITEM_COUNT) }
    }

    /// A well-formed vector holds at most `ITEM_COUNT` elements.
    pub proof fn lemma_within_capacity(&self)
        requires
            self.well_formed(),
        ensures
            self.contents().len() <= ITEM_COUNT,
    {
    }

    /// The bound fixed by the type.
    pub fn capacity(&self) -> (r: usize)
        ensures
            r == self.limit(),
    {
        ITEM_COUNT
    }

    pub fn clear(&mut self)
        requires
            old(self).well_formed(),
        ensures
            final(self).well_formed(),
            final(self).contents() == Seq::<T>::empty(),
    {
        self.data.clear();
    }

    pub fn get(&self, index: usize) -> (r: Option<&T>)
        ensures
            index < self.contents().len() ==> r == Some(&self.contents()[index as int]),
            index >= self.contents().len() ==> r is None,
    {
        if index < self.data.len() {
            Some(&self.data[index])
        } else {
            None
        }
    }

    /// Appends `item`, or fails and changes nothing when the vector is full.
    pub fn push(&mut self, item: T) -> (r: Result<(), SliceError>)
        requires
            old(self).well_formed(),
        ensures
            final(self).well_formed(),
            old(self).contents().len() < ITEM_COUNT ==> r is Ok && final(self).contents() == old(self).contents().push(item),
            old(self).contents().len() >= ITEM_COUNT ==> r == Err::<(), SliceError>(
                SliceError::CapacityExceeded,
            ) && final(self).contents() == old(self).contents(),
    {
        if self.data.len() >= ITEM_COUNT {
            return Err(SliceError::CapacityExceeded);
        }
        self.data.push(item);
        Ok(())
    }

    /// Appends `source` in order. Where it does not all fit, the elements
    /// that fit stay appended and the call fails.
    pub fn extend(&mut self, source: Vec<T>) -> (r: Result<(), SliceError>)
        requires
            old(self).well_formed(),
        ensures
            final(self).well_formed(),
            old(self).contents().len() + source@.len() <= ITEM_COUNT ==> r is Ok && final(self).contents() == old(self).contents() + source@,
            old(self).contents().len() + source@.len() > ITEM_COUNT ==> r == Err::<(), SliceError>(
                SliceError::CapacityExceeded,
            ) && final(self).contents() == old(self).contents() + source@.take(
                ITEM_COUNT - old(self).contents().len(),
            ),
    {
        vec_extend_bounded(&mut self.data, source, ITEM_COUNT)
    }
}

impl<T, const ITEM_COUNT: usize> Default for ArrayVec<T, ITEM_COUNT> {
    fn default() -> (r: Self)
        ensures
            r.well_formed(),
            r.contents() == Seq::<T>::empty(),
    {
        Self::new()
    }
}

/// The fixed-capacity backend.
impl<T, const ITEM_COUNT: usize> Storage<T> for ArrayVec<T, ITEM_COUNT> {
    closed spec fn contents(&self) -> Seq<T> {
        self.data@
    }

    open spec fn limit(&self) -> nat {
        ITEM_COUNT as nat
    }

    closed spec fn well_formed(&self) -> bool {
        self.data@.len() <= ITEM_COUNT
    }

    fn len(&self) -> (r: usize) {
        self.data.len()
    }

    fn reset(&mut self) {
        self.clear();
    }

    fn iter_items(&self) -> (r: &[T]) {
        self.data.as_slice()
    }

    fn get_item(&self, index: usize) -> (r: Option<&T>) {
        self.get(index)
    }

    fn get_slice(&self, start: usize, end: usize) -> (r: Option<&[T]>) {
        if start <= end && end <= self.data.len() {
            Some(vstd::slice::slice_subrange(self.data.as_slice(), start, end))
        } else {
            None
        }
    }

    fn push_item(&mut self, item: T) -> (r: Result<(), SliceError>) {
        self.push(item)
    }

    fn extend_from_iter(&mut self, items: Vec<T>) -> (r: Result<(), SliceError>) {
        self.extend(items)
    }

    fn remove(&mut self, index: usize) -> (r: Option<T>) {
        if index < self.data.len() {
            Some(self.data.remove(index))
        } else {
            None
        }
    }

    fn drain(&mut self, start: usize, end: usize) {
        vec_drain(&mut self.data, start, end);
    }

    fn truncate(&mut self, len: usize) {
        self.data.truncate(len);
    }
}

} // verus!
