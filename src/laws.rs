use vstd::prelude::*;

use crate::slice::{
    end_before, joined, lemma_tiles_count, lemma_tiles_prefix, tiles, total_len, Slice,
};
use crate::slice_map::SliceMap;
use crate::registry::SliceStorage;
use crate::storage::Storage;

verus! {

/// The buffer holds exactly the items of the live slices: its length is the
/// sum of their lengths, and there is one live slice per key in the layout.
pub proof fn lemma_items_are_sum_of_slices<T, I: Storage<T>, R: SliceStorage>(m: &SliceMap<T, I, R>)
    requires
        m.well_formed(),
    ensures
        m.buffer().len() == total_len(m.ranges(), m.layout()),
        m.layout().len() == m.ranges().dom().len(),
{
    m.lemma_tiles();
    let order = m.layout();
    lemma_tiles_prefix(m.buffer(), m.ranges(), order, order.len() as int);
    assert(order.take(order.len() as int) =~= order);
    lemma_tiles_count(m.ranges(), order, m.buffer().len());
}

/// The live slices, read in the order they lie in the buffer, join to the
/// whole buffer: no gap, no overlap, no item outside a slice. That layout
/// lists every live key once.
pub proof fn lemma_slices_join_to_items<T, I: Storage<T>, R: SliceStorage>(m: &SliceMap<T, I, R>)
    requires
        m.well_formed(),
    ensures
        tiles(m.ranges(), m.layout(), m.buffer().len()),
        joined(m.buffer(), m.ranges(), m.layout()) == m.buffer(),
{
    m.lemma_tiles();
    let order = m.layout();
    lemma_tiles_prefix(m.buffer(), m.ranges(), order, order.len() as int);
    assert(order.take(order.len() as int) =~= order);
    assert(m.buffer().take(m.buffer().len() as int) =~= m.buffer());
}

/// A map with no slice is in the same state as a new one: two such maps
/// over backends of one bound agree on buffer, spans and layout, so what
/// follows on each goes alike.
pub proof fn lemma_cleared_is_fresh<T, I: Storage<T>, R: SliceStorage>(a: &SliceMap<T, I, R>, b: &SliceMap<T, I, R>)
    requires
        a.well_formed(),
        b.well_formed(),
        a.ranges() == Map::<u64, Slice>::empty(),
        b.ranges() == Map::<u64, Slice>::empty(),
        a.limit() == b.limit(),
    ensures
        a.buffer() == b.buffer(),
        a.ranges() == b.ranges(),
        a.layout() == b.layout(),
        a.layout().len() == 0,
{
    a.lemma_tiles();
    b.lemma_tiles();
    if a.layout().len() > 0 {
        assert(a.ranges().contains_key(a.layout()[0]));
    }
    if b.layout().len() > 0 {
        assert(b.ranges().contains_key(b.layout()[0]));
    }
    assert(a.layout() =~= b.layout());
    assert(end_before(a.ranges(), a.layout(), 0) == 0);
    assert(a.buffer() =~= b.buffer());
}

} // verus!
