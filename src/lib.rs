//! Packs many variable-length groups of one element type into a single
//! contiguous buffer, and addresses each group through a stable key.

mod array_vec;
mod laws;
mod registry;
mod keyed;
mod slice;
mod slice_map;
mod slots;
mod storage;

pub use array_vec::ArrayVec;
pub use laws::{lemma_cleared_is_fresh, lemma_items_are_sum_of_slices, lemma_slices_join_to_items};
pub use slice::Slice;
pub use registry::{SliceKey, SliceStorage};
pub use keyed::KeyedRanges;
pub use slice_map::{SecSliceMap, SliceArray, SliceMap, SlotSliceMap, MAX_ITEMS};
pub use slots::SlotRanges;
pub use storage::{SliceError, Storage};
