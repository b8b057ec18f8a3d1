use vstd::prelude::*;

verus! {

/// A half-open span `[start, end)` of positions in the item buffer.
#[derive(Debug, Clone, Copy, PartialEq, Eq, Structural)]
pub struct Slice {
    pub start: u32,
    pub end: u32,
}

impl Slice {
    /// How many items the span covers.
    pub open spec fn spec_len(&self) -> nat {
        (self.end - self.start) as nat
    }

    pub fn len(&self) -> (r: u32)
        requires
            self.start <= self.end,
        ensures
            r == self.spec_len(),
    {
        self.end - self.start
    }
}

/// The span `s` once the hole left by `removed` is closed: spans that begin
/// at or after the end of the hole move down by its length, others stay.
pub open spec fn shifted(s: Slice, removed: Slice) -> Slice {
    if s.start >= removed.end {
        Slice {
            start: (s.start - removed.spec_len()) as u32,
            end: (s.end - removed.spec_len()) as u32,
        }
    } else {
        s
    }
}

/// Every span of `ranges`, shifted for the removal of `removed`.
pub open spec fn rebased(ranges: Map<u64, Slice>, removed: Slice) -> Map<u64, Slice> {
    Map::new(|k: u64| ranges.contains_key(k), |k: u64| shifted(ranges[k], removed))
}

/// The end of the span just before position `i` of `order` (zero at the
/// front).
pub open spec fn end_before(ranges: Map<u64, Slice>, order: Seq<u64>, i: int) -> nat {
    if i <= 0 {
        0
    } else {
        ranges[order[i - 1]].end as nat
    }
}

/// `order` lists each key of `ranges` once, and their spans, taken in that
/// order, cover `[0, total)` back to back, with no gap and no overlap.
pub open spec fn tiles(ranges: Map<u64, Slice>, order: Seq<u64>, total: nat) -> bool {
    &&& order.no_duplicates()
    &&& forall|i: int| 0 <= i < order.len() ==> ranges.contains_key(#[trigger] order[i])
    &&& forall|k: u64| ranges.contains_key(k) ==> order.contains(k)
    &&& chained(ranges, order)
    &&& end_before(ranges, order, order.len() as int) == total
}

/// Along `order`, each span starts where the one before it ends (the first
/// at zero), and none ends before it starts.
pub open spec fn chained(ranges: Map<u64, Slice>, order: Seq<u64>) -> bool {
    forall|i: int|
        0 <= i < order.len() ==> (#[trigger] ranges[order[i]]).start == end_before(ranges, order, i)
            && ranges[order[i]].start <= ranges[order[i]].end
}

/// The items of `buf` that the span `s` covers.
pub open spec fn covered<T>(buf: Seq<T>, s: Slice) -> Seq<T> {
    buf.subrange(s.start as int, s.end as int)
}

/// The spans of the keys in `order`, read from `buf` and joined in order.
pub open spec fn joined<T>(buf: Seq<T>, ranges: Map<u64, Slice>, order: Seq<u64>) -> Seq<T>
    decreases order.len(),
{
    if order.len() == 0 {
        Seq::empty()
    } else {
        joined(buf, ranges, order.drop_last()) + covered(buf, ranges[order.last()])
    }
}

/// The sum of the lengths of the spans of the keys in `order`.
pub open spec fn total_len(ranges: Map<u64, Slice>, order: Seq<u64>) -> nat
    decreases order.len(),
{
    if order.len() == 0 {
        0
    } else {
        total_len(ranges, order.drop_last()) + ranges[order.last()].spec_len()
    }
}

/// The ends of the spans never go down along `order`.
pub proof fn lemma_end_before_monotone(ranges: Map<u64, Slice>, order: Seq<u64>, i: int, j: int)
    requires
        chained(ranges, order),
        0 <= i <= j <= order.len(),
    ensures
        end_before(ranges, order, i) <= end_before(ranges, order, j),
    decreases j - i,
{
    if i < j {
        lemma_end_before_monotone(ranges, order, i, j - 1);
        assert(ranges[order[j - 1]].start <= ranges[order[j - 1]].end);
    }
}

/// Each span of a tiling lies inside `[0, total)`.
pub proof fn lemma_tiles_bounds(ranges: Map<u64, Slice>, order: Seq<u64>, total: nat)
    requires
        tiles(ranges, order, total),
    ensures
        forall|k: u64|
            ranges.contains_key(k) ==> (#[trigger] ranges[k]).start <= ranges[k].end && ranges[k].end
                <= total,
{
    assert forall|k: u64| ranges.contains_key(k) implies (#[trigger] ranges[k]).start
        <= ranges[k].end && ranges[k].end <= total by {
        assert(order.contains(k));
        let i = choose|i: int| 0 <= i < order.len() && order[i] == k;
        lemma_end_before_monotone(ranges, order, i + 1, order.len() as int);
        assert(ranges[order[i]].start <= ranges[order[i]].end);
    }
}

/// A span that starts where a tiling ends extends the tiling.
pub proof fn lemma_tiles_push(
    ranges: Map<u64, Slice>,
    order: Seq<u64>,
    total: nat,
    k: u64,
    s: Slice,
)
    requires
        tiles(ranges, order, total),
        !ranges.contains_key(k),
        s.start == total,
        s.start <= s.end,
    ensures
        tiles(ranges.insert(k, s), order.push(k), s.end as nat),
{
    let r2 = ranges.insert(k, s);
    let o2 = order.push(k);
    assert forall|i: int| 0 <= i < order.len() implies o2[i] != k && r2[o2[i]] == ranges[order[i]]
        by {
        assert(ranges.contains_key(order[i]));
    }
    assert forall|i: int| 0 <= i <= order.len() implies end_before(r2, o2, i) == end_before(
        ranges,
        order,
        i,
    ) by {
        if i > 0 {
            assert(o2[i - 1] == order[i - 1]);
        }
    }
    assert(o2.no_duplicates()) by {
        assert forall|i: int, j: int| 0 <= i < j < o2.len() implies o2[i] != o2[j] by {
            if j == order.len() {
                assert(ranges.contains_key(order[i]));
            }
        }
    }
    assert forall|key: u64| r2.contains_key(key) implies o2.contains(key) by {
        if key == k {
            assert(o2[order.len() as int] == k);
        } else {
            assert(order.contains(key));
            let i = choose|i: int| 0 <= i < order.len() && order[i] == key;
            assert(o2[i] == key);
        }
    }
    assert forall|i: int| 0 <= i < o2.len() implies (#[trigger] r2[o2[i]]).start == end_before(
        r2,
        o2,
        i,
    ) && r2[o2[i]].start <= r2[o2[i]].end by {
        if i < order.len() {
            assert(ranges[order[i]].start == end_before(ranges, order, i));
        }
    }
    assert(end_before(r2, o2, o2.len() as int) == s.end);
}

/// Two keys at different places of a tiling have spans that do not
/// overlap: the earlier one ends before the later one starts.
pub proof fn lemma_tiles_ordered(
    ranges: Map<u64, Slice>,
    order: Seq<u64>,
    total: nat,
    i: int,
    j: int,
)
    requires
        tiles(ranges, order, total),
        0 <= i < j < order.len(),
    ensures
        ranges[order[i]].end <= ranges[order[j]].start,
{
    lemma_end_before_monotone(ranges, order, i + 1, j);
}

/// Taking the key at place `p` out of a tiling, and moving the spans after
/// it down by its length, leaves a tiling of what remains.
#[verifier::rlimit(50)]
pub proof fn lemma_tiles_remove(ranges: Map<u64, Slice>, order: Seq<u64>, total: nat, p: int)
    requires
        tiles(ranges, order, total),
        0 <= p < order.len(),
    ensures
        tiles(
            rebased(ranges.remove(order[p]), ranges[order[p]]),
            order.remove(p),
            (total - ranges[order[p]].spec_len()) as nat,
        ),
        forall|i: int|
            0 <= i < p ==> #[trigger] ranges[order[i]].end <= ranges[order[p]].start,
        forall|i: int|
            p < i < order.len() ==> #[trigger] ranges[order[i]].start >= ranges[order[p]].end,
{
    let k0 = order[p];
    let s = ranges[k0];
    let r2 = rebased(ranges.remove(k0), s);
    let o2 = order.remove(p);
    let n = order.len() as int;
    assert forall|i: int| 0 <= i < p implies #[trigger] ranges[order[i]].end <= s.start by {
        lemma_tiles_ordered(ranges, order, total, i, p);
    }
    assert forall|i: int| p < i < n implies #[trigger] ranges[order[i]].start >= s.end by {
        lemma_tiles_ordered(ranges, order, total, p, i);
    }
    assert forall|i: int| 0 <= i < n && i != p implies r2.contains_key(#[trigger] order[i]) by {
        assert(ranges.contains_key(order[i]));
        assert(order[i] != k0);
    }
    // Spans before `p` stay; those after it move down.
    assert forall|i: int| 0 <= i < p implies #[trigger] r2[order[i]] == ranges[order[i]] by {
        assert(ranges[order[i]].start <= ranges[order[i]].end);
        assert(r2.contains_key(order[i]));
    }
    assert forall|i: int| p < i < n implies #[trigger] r2[order[i]] == (Slice {
        start: (ranges[order[i]].start - s.spec_len()) as u32,
        end: (ranges[order[i]].end - s.spec_len()) as u32,
    }) by {
        assert(r2.contains_key(order[i]));
    }
    assert forall|i: int| 0 <= i < o2.len() implies #[trigger] o2[i] == if i < p {
        order[i]
    } else {
        order[i + 1]
    } by {}
    assert(o2.no_duplicates());
    assert forall|i: int| 0 <= i < o2.len() implies r2.contains_key(#[trigger] o2[i]) by {
        if i < p {
            assert(r2.contains_key(order[i]));
        } else {
            assert(r2.contains_key(order[i + 1]));
        }
    }
    assert forall|key: u64| r2.contains_key(key) implies o2.contains(key) by {
        assert(order.contains(key));
        let j = choose|j: int| 0 <= j < n && order[j] == key;
        if j < p {
            assert(o2[j] == key);
        } else {
            assert(o2[j - 1] == key);
        }
    }
    assert forall|i: int| 0 <= i <= o2.len() implies end_before(r2, o2, i) == if i <= p {
        end_before(ranges, order, i)
    } else {
        (end_before(ranges, order, i + 1) - s.spec_len()) as nat
    } by {
        if 0 < i <= p {
            assert(o2[i - 1] == order[i - 1]);
        } else if i > p {
            assert(o2[i - 1] == order[i]);
            if i - 1 == p {
                assert(ranges[order[p + 1]].start >= s.end);
            }
        }
    }
    assert forall|i: int| 0 <= i < o2.len() implies (#[trigger] r2[o2[i]]).start == end_before(
        r2,
        o2,
        i,
    ) && r2[o2[i]].start <= r2[o2[i]].end by {
        if i < p {
            assert(o2[i] == order[i]);
        } else {
            assert(o2[i] == order[i + 1]);
            assert(ranges[order[i + 1]].start == end_before(ranges, order, i + 1));
            assert(ranges[order[i + 1]].start <= ranges[order[i + 1]].end);
            if i == p && p > 0 {
                assert(end_before(r2, o2, i) == end_before(ranges, order, p));
            }
        }
    }
    if o2.len() as int <= p {
        assert(end_before(ranges, order, n) == s.end);
    }
}

/// Closing the hole of `s` in `buf` keeps the items of a span `r` that lies
/// wholly before or wholly after it, at `r` shifted.
pub proof fn lemma_covered_after_remove<T>(buf: Seq<T>, r: Slice, s: Slice)
    requires
        r.start <= r.end <= buf.len(),
        s.start <= s.end <= buf.len(),
        r.end <= s.start || r.start >= s.end,
    ensures
        covered(
            buf.subrange(0, s.start as int) + buf.subrange(s.end as int, buf.len() as int),
            shifted(r, s),
        ) == covered(buf, r),
{
    let nb = buf.subrange(0, s.start as int) + buf.subrange(s.end as int, buf.len() as int);
    assert(covered(nb, shifted(r, s)) =~= covered(buf, r));
}

/// The first `i` spans of a tiling join to the first items of the buffer,
/// and their lengths add up to where the `i`-th span ends.
pub proof fn lemma_tiles_prefix<T>(
    buf: Seq<T>,
    ranges: Map<u64, Slice>,
    order: Seq<u64>,
    i: int,
)
    requires
        chained(ranges, order),
        end_before(ranges, order, order.len() as int) == buf.len(),
        0 <= i <= order.len(),
    ensures
        joined(buf, ranges, order.take(i)) == buf.take(end_before(ranges, order, i) as int),
        total_len(ranges, order.take(i)) == end_before(ranges, order, i),
    decreases i,
{
    if i > 0 {
        lemma_tiles_prefix(buf, ranges, order, i - 1);
        lemma_end_before_monotone(ranges, order, i, order.len() as int);
        assert(ranges[order[i - 1]].start <= ranges[order[i - 1]].end);
        let t = order.take(i);
        assert(t.drop_last() =~= order.take(i - 1));
        assert(t.last() == order[i - 1]);
        let a = end_before(ranges, order, i - 1) as int;
        let b = end_before(ranges, order, i) as int;
        assert(buf.take(a) + buf.subrange(a, b) =~= buf.take(b));
    } else {
        assert(order.take(0) =~= Seq::<u64>::empty());
        assert(buf.take(0) =~= Seq::<T>::empty());
    }
}

/// A tiling lists as many keys as its map holds.
pub proof fn lemma_tiles_count(ranges: Map<u64, Slice>, order: Seq<u64>, total: nat)
    requires
        tiles(ranges, order, total),
        ranges.dom().finite(),
    ensures
        order.len() == ranges.dom().len(),
{
    assert(order.to_set() =~= ranges.dom()) by {
        assert forall|k: u64| order.to_set().contains(k) implies ranges.contains_key(k) by {
            let i = choose|i: int| 0 <= i < order.len() && order[i] == k;
        }
    }
    order.unique_seq_to_set();
}

} // verus!
