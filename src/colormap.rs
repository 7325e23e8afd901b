//! Colormap resolution: the counters of one input bucket are grouped by color
//! id, each color's set of color indices is range-encoded, and each group's
//! queries are sorted and split into records by destination bucket.
use crate::varint::decode_varint;
use crate::varint::encode_varint;
use crate::varint::varint_bytes;
use vstd::prelude::*;
use vstd::seq_lib::group_to_multiset_ensures;
use vstd::seq_lib::to_multiset_build;

verus! {

pub type ColorIndexType = u32;

/// A query counter as read from an input bucket.
#[derive(Clone, Copy, Debug, PartialEq, Eq, Structural)]
pub struct CounterEntry {
    pub query_index: u64,
    pub counter: u32,
}

/// A query's count, carried into an output record.
#[derive(Clone, Copy, Debug, PartialEq, Eq, Structural)]
pub struct QueryColorDesc {
    pub query_index: u64,
    pub count: u32,
}

pub const QUERIES_COUNT_MIN_BATCH: u64 = 1000;

/// `queries_count` rounded up to a multiple of the minimum batch.
pub open spec fn rounded_queries_count(queries_count: nat) -> nat {
    ((queries_count + 999) / 1000) * 1000
}

/// Destination bucket of a query: `min(buckets - 1, q * buckets / R)`.
pub open spec fn query_bucket_spec(q: nat, queries_count: nat, buckets_count: nat) -> nat {
    let b = (q * buckets_count) / rounded_queries_count(queries_count);
    if b < buckets_count - 1 {
        b
    } else {
        (buckets_count - 1) as nat
    }
}

/// Whether `query_bucket` can be computed for this query without overflow.
pub open spec fn bucket_computable(q: u64, queries_count: u64, buckets_count: usize) -> bool {
    &&& 1 <= queries_count <= u64::MAX - 999
    &&& buckets_count >= 1
    &&& q * buckets_count <= u64::MAX
}

pub fn query_bucket(query_index: u64, queries_count: u64, buckets_count: usize) -> (r: usize)
    requires
        bucket_computable(query_index, queries_count, buckets_count),
    ensures
        r == query_bucket_spec(query_index as nat, queries_count as nat, buckets_count as nat),
        r < buckets_count,
{
    let batches = (queries_count + 999) / QUERIES_COUNT_MIN_BATCH;
    assert(batches * 1000 <= queries_count + 999 && batches >= 1) by (nonlinear_arith)
        requires
            batches == (queries_count + 999) / 1000,
            queries_count >= 1,
    ;
    let rounded = batches * QUERIES_COUNT_MIN_BATCH;
    let b = (query_index * (buckets_count as u64)) / rounded;
    let last = (buckets_count - 1) as u64;
    if b < last {
        b as usize
    } else {
        last as usize
    }
}

// ---- range encoding of color sets ----

/// Maximal runs of consecutive values, as half-open `(start, end)` pairs.
pub open spec fn run_ranges(c: Seq<u32>) -> Seq<(u32, u32)>
    decreases c.len(),
{
    if c.len() == 0 {
        seq![]
    } else {
        let r = run_ranges(c.drop_last());
        let x = c.last();
        if r.len() > 0 && r.last().1 == x {
            r.drop_last().push((r.last().0, (x + 1) as u32))
        } else {
            r.push((x, (x + 1) as u32))
        }
    }
}

/// The ranges written for a color set; an empty set is written as the empty
/// range at the sentinel `u32::MAX`.
pub open spec fn color_ranges(c: Seq<u32>) -> Seq<(u32, u32)> {
    if c.len() == 0 {
        seq![(u32::MAX, u32::MAX)]
    } else {
        run_ranges(c)
    }
}

/// Each range as the varint of its start followed by the varint of its length.
pub open spec fn ranges_bytes(r: Seq<(u32, u32)>) -> Seq<u8>
    decreases r.len(),
{
    if r.len() == 0 {
        seq![]
    } else {
        ranges_bytes(r.drop_last()) + varint_bytes(r.last().0 as nat) + varint_bytes(
            (r.last().1 - r.last().0) as nat,
        )
    }
}

pub open spec fn strictly_ascending(c: Seq<u32>) -> bool {
    forall|i: int, j: int| 0 <= i < j < c.len() ==> c[i] < c[j]
}

pub open spec fn below_sentinel(c: Seq<u32>) -> bool {
    forall|i: int| 0 <= i < c.len() ==> c[i] < u32::MAX
}

fn write_range(start: u32, end: u32, out: &mut Vec<u8>)
    requires
        start <= end,
    ensures
        final(out)@ == old(out)@ + varint_bytes(start as nat) + varint_bytes((end - start) as nat),
{
    encode_varint(start as u64, out);
    encode_varint((end - start) as u64, out);
}

/// Appends the range encoding of `colors` to `out`.
pub fn encode_color_ranges(colors: &Vec<u32>, out: &mut Vec<u8>)
    requires
        below_sentinel(colors@),
    ensures
        final(out)@ == old(out)@ + ranges_bytes(color_ranges(colors@)),
{
    let mut range_start: u32 = u32::MAX;
    let mut range_end: u32 = u32::MAX;
    let mut i: usize = 0;
    while i < colors.len()
        invariant
            below_sentinel(colors@),
            i <= colors@.len(),
            i == 0 ==> range_start == u32::MAX && range_end == u32::MAX && out@ == old(out)@,
            i > 0 ==> {
                let r = run_ranges(colors@.subrange(0, i as int));
                &&& r.len() > 0
                &&& r.last() == (range_start, range_end)
                &&& range_start < range_end
                &&& range_end == colors@[i - 1] + 1
                &&& out@ == old(out)@ + ranges_bytes(r.drop_last())
            },
        decreases colors@.len() - i,
    {
        let color = colors[i];
        let ghost prefix = colors@.subrange(0, i as int);
        let ghost next = colors@.subrange(0, i + 1);
        proof {
            assert(next.drop_last() =~= prefix);
        }
        if color != range_end {
            if range_start != u32::MAX {
                write_range(range_start, range_end, out);
                proof {
                    let r = run_ranges(prefix);
                    assert(run_ranges(next) == r.push((color, (color + 1) as u32)));
                    assert(run_ranges(next).drop_last() =~= r);
                    assert(r =~= r.drop_last().push(r.last()));
                }
            } else {
                proof {
                    if i > 0 {
                        assert(range_end == colors@[i - 1] + 1);
                        assert(false);
                    }
                    assert(prefix.len() == 0);
                    assert(run_ranges(next) == seq![(color, (color + 1) as u32)]);
                    assert(run_ranges(next).drop_last() =~= Seq::<(u32, u32)>::empty());
                }
            }
            range_start = color;
        } else {
            proof {
                let r = run_ranges(prefix);
                if i == 0 {
                    assert(false);
                }
                assert(run_ranges(next) == r.drop_last().push((range_start, (color + 1) as u32)));
                assert(run_ranges(next).drop_last() =~= r.drop_last());
            }
        }
        range_end = color + 1;
        i = i + 1;
    }
    proof {
        assert(colors@.subrange(0, i as int) =~= colors@);
        if i > 0 {
            let r = run_ranges(colors@);
            assert(r =~= r.drop_last().push(r.last()));
        }
    }
    write_range(range_start, range_end, out);
    proof {
        if i == 0 {
            let r = color_ranges(colors@);
            assert(r.drop_last() =~= Seq::<(u32, u32)>::empty());
            assert(ranges_bytes(r.drop_last()) =~= Seq::<u8>::empty());
            assert(out@ =~= old(out)@ + ranges_bytes(r));
        } else {
            let r = run_ranges(colors@);
            assert(out@ =~= old(out)@ + ranges_bytes(r));
        }
    }
}

/// The ranges of a non-empty, strictly ascending color set are non-empty and
/// neither overlap nor touch: each range ends strictly before the next starts,
/// so no two could be merged.
pub proof fn lemma_color_ranges_minimal(c: Seq<u32>)
    requires
        c.len() >= 1,
        strictly_ascending(c),
        below_sentinel(c),
    ensures
        ({
            let r = color_ranges(c);
            &&& forall|i: int| 0 <= i < r.len() ==> (#[trigger] r[i]).0 < r[i].1
            &&& forall|i: int| 0 <= i < r.len() - 1 ==> (#[trigger] r[i]).1 < r[i + 1].0
            &&& r.last().1 == c.last() + 1
        }),
    decreases c.len(),
{
    let r = run_ranges(c);
    let x = c.last();
    if c.len() == 1 {
        assert(c.drop_last().len() == 0);
        assert(run_ranges(c.drop_last()).len() == 0);
    } else {
        let p = c.drop_last();
        lemma_color_ranges_minimal(p);
        let q = run_ranges(p);
        assert(p.last() < x);
        if q.last().1 == x {
            assert(r == q.drop_last().push((q.last().0, (x + 1) as u32)));
            assert forall|i: int| 0 <= i < r.len() - 1 implies (#[trigger] r[i]).1 < r[i + 1].0 by {
                assert(r[i] == q[i]);
                if i + 1 < r.len() - 1 {
                    assert(r[i + 1] == q[i + 1]);
                }
            }
            assert forall|i: int| 0 <= i < r.len() implies (#[trigger] r[i]).0 < r[i].1 by {
                if i < r.len() - 1 {
                    assert(r[i] == q[i]);
                }
            }
        } else {
            assert(r == q.push((x, (x + 1) as u32)));
            assert forall|i: int| 0 <= i < r.len() - 1 implies (#[trigger] r[i]).1 < r[i + 1].0 by {
                if i < q.len() - 1 {
                    assert(r[i] == q[i] && r[i + 1] == q[i + 1]);
                } else {
                    assert(r[i] == q.last());
                }
            }
            assert forall|i: int| 0 <= i < r.len() implies (#[trigger] r[i]).0 < r[i].1 by {
                if i < q.len() {
                    assert(r[i] == q[i]);
                }
            }
        }
    }
}

// ---- grouping by color ----

pub open spec fn sorted_by_color(s: Seq<(CounterEntry, u32)>) -> bool {
    forall|i: int, j: int| 0 <= i < j < s.len() ==> s[i].1 <= s[j].1
}

/// Merges two runs sorted by color into one.
fn merge_by_color(a: &Vec<(CounterEntry, u32)>, b: &Vec<(CounterEntry, u32)>) -> (r: Vec<
    (CounterEntry, u32),
>)
    requires
        sorted_by_color(a@),
        sorted_by_color(b@),
    ensures
        sorted_by_color(r@),
        r@.to_multiset() == a@.to_multiset().add(b@.to_multiset()),
{
    broadcast use group_to_multiset_ensures;

    let mut out: Vec<(CounterEntry, u32)> = Vec::new();
    let mut i: usize = 0;
    let mut j: usize = 0;
    proof {
        assert(a@.subrange(0, 0) =~= Seq::<(CounterEntry, u32)>::empty());
        assert(b@.subrange(0, 0) =~= Seq::<(CounterEntry, u32)>::empty());
        assert(out@.to_multiset() =~= a@.subrange(0, 0).to_multiset().add(
            b@.subrange(0, 0).to_multiset(),
        ));
    }
    while i < a.len() || j < b.len()
        invariant
            i <= a@.len(),
            j <= b@.len(),
            sorted_by_color(a@),
            sorted_by_color(b@),
            sorted_by_color(out@),
            out@.to_multiset() == a@.subrange(0, i as int).to_multiset().add(
                b@.subrange(0, j as int).to_multiset(),
            ),
            out@.len() > 0 && i < a@.len() ==> out@.last().1 <= a@[i as int].1,
            out@.len() > 0 && j < b@.len() ==> out@.last().1 <= b@[j as int].1,
        decreases a@.len() - i + b@.len() - j,
    {
        let ghost before = out@;
        if j >= b.len() || (i < a.len() && a[i].1 <= b[j].1) {
            let x = a[i];
            out.push(x);
            proof {
                assert(a@.subrange(0, i + 1) =~= a@.subrange(0, i as int).push(x));
                to_multiset_build(before, x);
                to_multiset_build(a@.subrange(0, i as int), x);
                assert(out@.to_multiset() =~= a@.subrange(0, i + 1).to_multiset().add(
                    b@.subrange(0, j as int).to_multiset(),
                ));
            }
            i = i + 1;
        } else {
            let x = b[j];
            out.push(x);
            proof {
                assert(b@.subrange(0, j + 1) =~= b@.subrange(0, j as int).push(x));
                to_multiset_build(before, x);
                to_multiset_build(b@.subrange(0, j as int), x);
                assert(out@.to_multiset() =~= a@.subrange(0, i as int).to_multiset().add(
                    b@.subrange(0, j + 1).to_multiset(),
                ));
            }
            j = j + 1;
        }
        proof {
            assert forall|p: int, q: int| 0 <= p < q < out@.len() implies out@[p].1 <= out@[q].1 by {
                if q == out@.len() - 1 && p < before.len() {
                    assert(before[p].1 <= before.last().1);
                }
            }
        }
    }
    proof {
        assert(a@.subrange(0, i as int) =~= a@);
        assert(b@.subrange(0, j as int) =~= b@);
    }
    out
}

/// Orders the counters of a bucket by color id, so that each color's counters
/// are contiguous.
pub fn sort_by_color(entries: Vec<(CounterEntry, u32)>) -> (r: Vec<(CounterEntry, u32)>)
    ensures
        sorted_by_color(r@),
        r@.to_multiset() == entries@.to_multiset(),
    decreases entries@.len(),
{
    let n = entries.len();
    if n <= 1 {
        return entries;
    }
    let mut left = entries;
    let ghost all = left@;
    let right = left.split_off(n / 2);
    proof {
        assert(all =~= left@ + right@);
        vstd::seq_lib::lemma_multiset_commutative(left@, right@);
    }
    let sorted_left = sort_by_color(left);
    let sorted_right = sort_by_color(right);
    merge_by_color(&sorted_left, &sorted_right)
}

/// End of the run of equal color ids that starts at `start`.
pub fn color_group_end(entries: &Vec<(CounterEntry, u32)>, start: usize) -> (r: usize)
    requires
        start < entries@.len(),
    ensures
        start < r <= entries@.len(),
        forall|j: int| start <= j < r ==> (#[trigger] entries@[j]).1 == entries@[start as int].1,
        r < entries@.len() ==> entries@[r as int].1 != entries@[start as int].1,
{
    let color = entries[start].1;
    let n = entries.len();
    assert(start < n);
    let mut end: usize = start + 1;
    while end < entries.len() && entries[end].1 == color
        invariant
            start < end <= entries@.len(),
            color == entries@[start as int].1,
            forall|j: int| start <= j < end ==> (#[trigger] entries@[j]).1 == color,
        decreases entries@.len() - end,
    {
        end = end + 1;
    }
    end
}

/// The query descriptors of the counters in `entries[start..end]`.
pub fn group_queries(entries: &Vec<(CounterEntry, u32)>, start: usize, end: usize) -> (r: Vec<
    QueryColorDesc,
>)
    requires
        start <= end <= entries@.len(),
    ensures
        r@ == entries@.subrange(start as int, end as int).map_values(
            |e: (CounterEntry, u32)| desc_of(e.0),
        ),
{
    let mut out: Vec<QueryColorDesc> = Vec::new();
    let mut i: usize = start;
    while i < end
        invariant
            start <= i <= end <= entries@.len(),
            out@ == entries@.subrange(start as int, i as int).map_values(
                |e: (CounterEntry, u32)| desc_of(e.0),
            ),
        decreases end - i,
    {
        let e = entries[i].0;
        out.push(QueryColorDesc { query_index: e.query_index, count: e.counter });
        proof {
            assert(out@ =~= entries@.subrange(start as int, i + 1).map_values(
                |e: (CounterEntry, u32)| desc_of(e.0),
            ));
        }
        i = i + 1;
    }
    out
}

pub open spec fn desc_of(e: CounterEntry) -> QueryColorDesc {
    QueryColorDesc { query_index: e.query_index, count: e.counter }
}

// ---- queries of one color ----

/// Order of query descriptors: by query index, then by count.
pub open spec fn desc_le(a: QueryColorDesc, b: QueryColorDesc) -> bool {
    a.query_index < b.query_index || (a.query_index == b.query_index && a.count <= b.count)
}

pub open spec fn sorted_queries(s: Seq<QueryColorDesc>) -> bool {
    forall|i: int, j: int| 0 <= i < j < s.len() ==> desc_le(s[i], s[j])
}

fn desc_gt(a: QueryColorDesc, b: QueryColorDesc) -> (r: bool)
    ensures
        r == !desc_le(a, b),
{
    a.query_index > b.query_index || (a.query_index == b.query_index && a.count > b.count)
}

/// Merges two runs of query descriptors sorted by query index.
fn merge_queries(a: &Vec<QueryColorDesc>, b: &Vec<QueryColorDesc>) -> (r: Vec<QueryColorDesc>)
    requires
        sorted_queries(a@),
        sorted_queries(b@),
    ensures
        sorted_queries(r@),
        r@.to_multiset() == a@.to_multiset().add(b@.to_multiset()),
{
    broadcast use group_to_multiset_ensures;

    let mut out: Vec<QueryColorDesc> = Vec::new();
    let mut i: usize = 0;
    let mut j: usize = 0;
    proof {
        assert(a@.subrange(0, 0) =~= Seq::<QueryColorDesc>::empty());
        assert(b@.subrange(0, 0) =~= Seq::<QueryColorDesc>::empty());
        assert(out@.to_multiset() =~= a@.subrange(0, 0).to_multiset().add(
            b@.subrange(0, 0).to_multiset(),
        ));
    }
    while i < a.len() || j < b.len()
        invariant
            i <= a@.len(),
            j <= b@.len(),
            sorted_queries(a@),
            sorted_queries(b@),
            sorted_queries(out@),
            out@.to_multiset() == a@.subrange(0, i as int).to_multiset().add(
                b@.subrange(0, j as int).to_multiset(),
            ),
            out@.len() > 0 && i < a@.len() ==> desc_le(out@.last(), a@[i as int]),
            out@.len() > 0 && j < b@.len() ==> desc_le(out@.last(), b@[j as int]),
        decreases a@.len() - i + b@.len() - j,
    {
        let ghost before = out@;
        if j >= b.len() || (i < a.len() && !desc_gt(a[i], b[j])) {
            let x = a[i];
            out.push(x);
            proof {
                assert(a@.subrange(0, i + 1) =~= a@.subrange(0, i as int).push(x));
                to_multiset_build(before, x);
                to_multiset_build(a@.subrange(0, i as int), x);
                assert(out@.to_multiset() =~= a@.subrange(0, i + 1).to_multiset().add(
                    b@.subrange(0, j as int).to_multiset(),
                ));
            }
            i = i + 1;
        } else {
            let x = b[j];
            out.push(x);
            proof {
                assert(b@.subrange(0, j + 1) =~= b@.subrange(0, j as int).push(x));
                to_multiset_build(before, x);
                to_multiset_build(b@.subrange(0, j as int), x);
                assert(out@.to_multiset() =~= a@.subrange(0, i as int).to_multiset().add(
                    b@.subrange(0, j + 1).to_multiset(),
                ));
            }
            j = j + 1;
        }
        proof {
            assert forall|p: int, q: int| 0 <= p < q < out@.len() implies desc_le(out@[p], out@[q]) by {
                if q == out@.len() - 1 && p < before.len() {
                    if p < before.len() - 1 {
                        assert(desc_le(before[p], before.last()));
                    }
                }
            }
        }
    }
    proof {
        assert(a@.subrange(0, i as int) =~= a@);
        assert(b@.subrange(0, j as int) =~= b@);
    }
    out
}

/// Sorts query descriptors by query index (then by count).
pub fn sort_queries(queries: Vec<QueryColorDesc>) -> (r: Vec<QueryColorDesc>)
    ensures
        sorted_queries(r@),
        r@.to_multiset() == queries@.to_multiset(),
    decreases queries@.len(),
{
    let n = queries.len();
    if n <= 1 {
        return queries;
    }
    let mut left = queries;
    let ghost all = left@;
    let right = left.split_off(n / 2);
    proof {
        assert(all =~= left@ + right@);
        vstd::seq_lib::lemma_multiset_commutative(left@, right@);
    }
    let sorted_left = sort_queries(left);
    let sorted_right = sort_queries(right);
    merge_queries(&sorted_left, &sorted_right)
}

/// The queries of a sequence of records, in order.
pub open spec fn flatten_records(r: Seq<(usize, Vec<QueryColorDesc>)>) -> Seq<QueryColorDesc>
    decreases r.len(),
{
    if r.len() == 0 {
        seq![]
    } else {
        flatten_records(r.drop_last()) + r.last().1@
    }
}

/// Records are non-empty, every query of a record belongs to the record's
/// destination bucket, and neighbouring records have different buckets.
pub open spec fn records_wf(
    r: Seq<(usize, Vec<QueryColorDesc>)>,
    queries_count: u64,
    buckets_count: usize,
) -> bool {
    &&& forall|i: int| 0 <= i < r.len() ==> (#[trigger] r[i]).1@.len() > 0
    &&& forall|i: int, j: int|
        0 <= i < r.len() && 0 <= j < r[i].1@.len() ==> query_bucket_spec(
            (#[trigger] r[i].1@[j]).query_index as nat,
            queries_count as nat,
            buckets_count as nat,
        ) == r[i].0
    &&& forall|i: int| 0 <= i < r.len() - 1 ==> (#[trigger] r[i]).0 != r[i + 1].0
}

pub open spec fn all_computable(s: Seq<QueryColorDesc>, queries_count: u64, buckets_count: usize) -> bool {
    forall|i: int|
        0 <= i < s.len() ==> bucket_computable(
            (#[trigger] s[i]).query_index,
            queries_count,
            buckets_count,
        )
}

/// Splits queries into maximal runs that share a destination bucket.
#[verifier::rlimit(40)]
pub fn split_by_bucket(queries: &Vec<QueryColorDesc>, queries_count: u64, buckets_count: usize) -> (r:
    Vec<(usize, Vec<QueryColorDesc>)>)
    requires
        all_computable(queries@, queries_count, buckets_count),
    ensures
        records_wf(r@, queries_count, buckets_count),
        flatten_records(r@) == queries@,
        strictly_ascending_queries(queries@) ==> forall|i: int|
            0 <= i < r@.len() ==> strictly_ascending_queries(#[trigger] r@[i].1@),
{
    let mut out: Vec<(usize, Vec<QueryColorDesc>)> = Vec::new();
    if queries.len() == 0 {
        proof {
            assert(flatten_records(out@) =~= queries@);
        }
        return out;
    }
    let mut cur_bucket = query_bucket(queries[0].query_index, queries_count, buckets_count);
    let mut cur: Vec<QueryColorDesc> = Vec::new();
    cur.push(queries[0]);
    let mut i: usize = 1;
    let ghost mut cur_start: int = 0;
    proof {
        assert(cur@ =~= queries@.subrange(0, 1));
    }
    while i < queries.len()
        invariant
            1 <= i <= queries@.len(),
            0 <= cur_start < i,
            cur@ == queries@.subrange(cur_start, i as int),
            strictly_ascending_queries(queries@) ==> forall|a: int|
                0 <= a < out@.len() ==> strictly_ascending_queries(#[trigger] out@[a].1@),
            all_computable(queries@, queries_count, buckets_count),
            records_wf(out@, queries_count, buckets_count),
            cur@.len() > 0,
            forall|j: int|
                0 <= j < cur@.len() ==> query_bucket_spec(
                    (#[trigger] cur@[j]).query_index as nat,
                    queries_count as nat,
                    buckets_count as nat,
                ) == cur_bucket,
            out@.len() > 0 ==> out@.last().0 != cur_bucket,
            flatten_records(out@) + cur@ == queries@.subrange(0, i as int),
        decreases queries@.len() - i,
    {
        let q = queries[i];
        let b = query_bucket(q.query_index, queries_count, buckets_count);
        if b == cur_bucket {
            cur.push(q);
            proof {
                assert(queries@.subrange(0, i + 1) =~= queries@.subrange(0, i as int).push(q));
                assert(cur@ =~= queries@.subrange(cur_start, i + 1));
            }
        } else {
            let ghost old_out = out@;
            let ghost old_cur = cur@;
            let mut fresh: Vec<QueryColorDesc> = Vec::new();
            fresh.push(q);
            std::mem::swap(&mut cur, &mut fresh);
            out.push((cur_bucket, fresh));
            proof {
                assert(out@.drop_last() =~= old_out);
                assert(flatten_records(out@) == flatten_records(old_out) + old_cur);
                lemma_subrange_strict(queries@, cur_start, i as int);
                assert forall|a: int| 0 <= a < out@.len() && strictly_ascending_queries(queries@)
                    implies strictly_ascending_queries(#[trigger] out@[a].1@) by {
                    if a < old_out.len() {
                        assert(out@[a] == old_out[a]);
                    }
                }
                cur_start = i as int;
                assert(cur@ =~= queries@.subrange(cur_start, i + 1));
                assert(queries@.subrange(0, i + 1) =~= queries@.subrange(0, i as int).push(q));
                assert(flatten_records(out@) + cur@ =~= queries@.subrange(0, i + 1));
                assert forall|a: int, j: int|
                    0 <= a < out@.len() && 0 <= j < out@[a].1@.len() implies query_bucket_spec(
                    (#[trigger] out@[a].1@[j]).query_index as nat,
                    queries_count as nat,
                    buckets_count as nat,
                ) == out@[a].0 by {
                    if a < old_out.len() {
                        assert(out@[a] == old_out[a]);
                    }
                }
                assert forall|a: int| 0 <= a < out@.len() implies (#[trigger] out@[a]).1@.len()
                    > 0 by {
                    if a < old_out.len() {
                        assert(out@[a] == old_out[a]);
                    }
                }
                assert forall|a: int| 0 <= a < out@.len() - 1 implies (#[trigger] out@[a]).0
                    != out@[a + 1].0 by {
                    assert(out@[a] == old_out[a]);
                    if a + 1 < old_out.len() {
                        assert(out@[a + 1] == old_out[a + 1]);
                    }
                }
            }
            cur_bucket = b;
        }
        i = i + 1;
    }
    let ghost old_out = out@;
    let ghost old_cur = cur@;
    out.push((cur_bucket, cur));
    proof {
        assert(out@.drop_last() =~= old_out);
        assert(queries@.subrange(0, i as int) =~= queries@);
        lemma_subrange_strict(queries@, cur_start, i as int);
        assert forall|a: int| 0 <= a < out@.len() && strictly_ascending_queries(queries@)
            implies strictly_ascending_queries(#[trigger] out@[a].1@) by {
            if a < old_out.len() {
                assert(out@[a] == old_out[a]);
            }
        }
        assert forall|a: int, j: int|
            0 <= a < out@.len() && 0 <= j < out@[a].1@.len() implies query_bucket_spec(
            (#[trigger] out@[a].1@[j]).query_index as nat,
            queries_count as nat,
            buckets_count as nat,
        ) == out@[a].0 by {
            if a < old_out.len() {
                assert(out@[a] == old_out[a]);
            }
        }
        assert forall|a: int| 0 <= a < out@.len() implies (#[trigger] out@[a]).1@.len() > 0 by {
            if a < old_out.len() {
                assert(out@[a] == old_out[a]);
            }
        }
        assert forall|a: int| 0 <= a < out@.len() - 1 implies (#[trigger] out@[a]).0 != out@[a
            + 1].0 by {
            assert(out@[a] == old_out[a]);
            if a + 1 < old_out.len() {
                assert(out@[a + 1] == old_out[a + 1]);
            }
        }
    }
    out
}

/// The runs of equal color ids of a bucket sorted by color, as
/// `(color, start, end)`: they cover the bucket in order, and neighbouring runs
/// have different colors.
pub fn color_groups(entries: &Vec<(CounterEntry, u32)>) -> (r: Vec<(u32, usize, usize)>)
    ensures
        groups_tile(r@, entries@.len() as int),
        r@.len() == 0 <==> entries@.len() == 0,
        r@.len() > 0 ==> r@[0].1 == 0 && r@.last().2 == entries@.len(),
        forall|g: int| 0 <= g < r@.len() - 1 ==> (#[trigger] r@[g]).2 == r@[g + 1].1 && r@[g].0
            != r@[g + 1].0,
        forall|g: int|
            0 <= g < r@.len() ==> (#[trigger] r@[g]).1 < r@[g].2 <= entries@.len() && forall|
                j: int,
            |
                r@[g].1 <= j < r@[g].2 ==> (#[trigger] entries@[j]).1 == r@[g].0,
{
    let mut out: Vec<(u32, usize, usize)> = Vec::new();
    let mut start: usize = 0;
    while start < entries.len()
        invariant
            start <= entries@.len(),
            out@.len() == 0 ==> start == 0,
            out@.len() > 0 ==> out@[0].1 == 0 && out@.last().2 == start,
            out@.len() > 0 && start < entries@.len() ==> entries@[start as int].1 != out@.last().0,
            forall|g: int| 0 <= g < out@.len() - 1 ==> (#[trigger] out@[g]).2 == out@[g + 1].1
                && out@[g].0 != out@[g + 1].0,
            forall|g: int|
                0 <= g < out@.len() ==> (#[trigger] out@[g]).1 < out@[g].2 <= entries@.len()
                    && forall|j: int|
                    out@[g].1 <= j < out@[g].2 ==> (#[trigger] entries@[j]).1 == out@[g].0,
        decreases entries@.len() - start,
    {
        let end = color_group_end(entries, start);
        let ghost before = out@;
        out.push((entries[start].1, start, end));
        proof {
            assert forall|g: int| 0 <= g < out@.len() - 1 implies (#[trigger] out@[g]).2 == out@[g
                + 1].1 && out@[g].0 != out@[g + 1].0 by {
                assert(out@[g] == before[g]);
                if g + 1 < before.len() {
                    assert(out@[g + 1] == before[g + 1]);
                }
            }
            assert forall|g: int| 0 <= g < out@.len() implies (#[trigger] out@[g]).1 < out@[g].2
                <= entries@.len() && forall|j: int|
                out@[g].1 <= j < out@[g].2 ==> (#[trigger] entries@[j]).1 == out@[g].0 by {
                if g < before.len() {
                    assert(out@[g] == before[g]);
                }
            }
        }
        start = end;
    }
    out
}

// ---- output records ----

/// Each query as the varint of its index followed by the varint of its count.
pub open spec fn queries_bytes(q: Seq<QueryColorDesc>) -> Seq<u8>
    decreases q.len(),
{
    if q.len() == 0 {
        seq![]
    } else {
        queries_bytes(q.drop_last()) + varint_bytes(q.last().query_index as nat) + varint_bytes(
            q.last().count as nat,
        )
    }
}

/// An output record: the number of queries, the queries, the length of the
/// encoded colors and the encoded colors.
pub open spec fn record_bytes(q: Seq<QueryColorDesc>, colors: Seq<u8>) -> Seq<u8> {
    varint_bytes(q.len()) + queries_bytes(q) + varint_bytes(colors.len()) + colors
}

/// Appends one output record to `out`.
pub fn write_query_colored_counters(
    queries: &Vec<QueryColorDesc>,
    colors: &Vec<u8>,
    out: &mut Vec<u8>,
)
    ensures
        final(out)@ == old(out)@ + record_bytes(queries@, colors@),
{
    encode_varint(queries.len() as u64, out);
    let ghost head = out@;
    let mut i: usize = 0;
    while i < queries.len()
        invariant
            i <= queries@.len(),
            out@ == head + queries_bytes(queries@.subrange(0, i as int)),
        decreases queries@.len() - i,
    {
        let q = queries[i];
        encode_varint(q.query_index, out);
        encode_varint(q.count as u64, out);
        proof {
            let sub = queries@.subrange(0, i + 1);
            assert(sub.drop_last() =~= queries@.subrange(0, i as int));
            assert(out@ =~= head + queries_bytes(sub));
        }
        i = i + 1;
    }
    proof {
        assert(queries@.subrange(0, i as int) =~= queries@);
    }
    encode_varint(colors.len() as u64, out);
    let ghost mid = out@;
    let mut j: usize = 0;
    while j < colors.len()
        invariant
            j <= colors@.len(),
            out@ == mid + colors@.subrange(0, j as int),
        decreases colors@.len() - j,
    {
        out.push(colors[j]);
        proof {
            assert(out@ =~= mid + colors@.subrange(0, j + 1));
        }
        j = j + 1;
    }
    proof {
        assert(colors@.subrange(0, j as int) =~= colors@);
        assert(out@ =~= old(out)@ + record_bytes(queries@, colors@));
    }
}

/// What one color group produces: its range-encoded colors, and its queries
/// sorted and split into records by destination bucket.
pub struct ColorGroupRecords {
    pub colors: Vec<u8>,
    pub records: Vec<(usize, Vec<QueryColorDesc>)>,
}

/// Resolves the queries of one color, given the color's set of color indices.
pub fn resolve_color_group(
    queries: Vec<QueryColorDesc>,
    colors: &Vec<u32>,
    queries_count: u64,
    buckets_count: usize,
) -> (r: ColorGroupRecords)
    requires
        below_sentinel(colors@),
        all_computable(queries@, queries_count, buckets_count),
    ensures
        r.colors@ == ranges_bytes(color_ranges(colors@)),
        records_wf(r.records@, queries_count, buckets_count),
        sorted_queries(flatten_records(r.records@)),
        flatten_records(r.records@).to_multiset() == queries@.to_multiset(),
        distinct_query_indices(queries@) ==> forall|i: int|
            0 <= i < r.records@.len() ==> strictly_ascending_queries(#[trigger] r.records@[i].1@),
{
    let mut encoded: Vec<u8> = Vec::new();
    encode_color_ranges(colors, &mut encoded);
    proof {
        assert(encoded@ =~= ranges_bytes(color_ranges(colors@)));
    }
    let ghost input = queries@;
    let sorted = sort_queries(queries);
    proof {
        lemma_computable_permutation(input, sorted@, queries_count, buckets_count);
        if distinct_query_indices(input) {
            lemma_distinct_sorted_strict(input, sorted@);
        }
    }
    let records = split_by_bucket(&sorted, queries_count, buckets_count);
    ColorGroupRecords { colors: encoded, records }
}

pub open spec fn strictly_ascending_queries(s: Seq<QueryColorDesc>) -> bool {
    forall|i: int, j: int| 0 <= i < j < s.len() ==> s[i].query_index < s[j].query_index
}

pub open spec fn distinct_query_indices(s: Seq<QueryColorDesc>) -> bool {
    forall|i: int, j: int| 0 <= i < s.len() && 0 <= j < s.len() && i != j ==> s[i].query_index != s[j].query_index
}

proof fn lemma_subrange_strict(s: Seq<QueryColorDesc>, lo: int, hi: int)
    requires
        0 <= lo <= hi <= s.len(),
    ensures
        strictly_ascending_queries(s) ==> strictly_ascending_queries(s.subrange(lo, hi)),
{
    if strictly_ascending_queries(s) {
        let t = s.subrange(lo, hi);
        assert forall|i: int, j: int| 0 <= i < j < t.len() implies t[i].query_index < t[j].query_index by {
            assert(t[i] == s[lo + i] && t[j] == s[lo + j]);
        }
    }
}

/// Two positions of a sequence holding the same value make its count at least two.
proof fn lemma_count_two(s: Seq<QueryColorDesc>, i: int, j: int)
    requires
        0 <= i < s.len(),
        0 <= j < s.len(),
        i != j,
        s[i] == s[j],
    ensures
        s.to_multiset().count(s[i]) >= 2,
{
    broadcast use group_to_multiset_ensures;

    let r = s.remove(j);
    let k = if i < j { i } else { i - 1 };
    assert(r[k] == s[i]);
    assert(r.contains(s[i]));
    assert(r.to_multiset().count(s[i]) >= 1);
    assert(r.to_multiset() =~= s.to_multiset().remove(s[j]));
}

/// A sorted permutation of queries with distinct indices is strictly ascending.
proof fn lemma_distinct_sorted_strict(a: Seq<QueryColorDesc>, b: Seq<QueryColorDesc>)
    requires
        distinct_query_indices(a),
        sorted_queries(b),
        b.to_multiset() == a.to_multiset(),
    ensures
        strictly_ascending_queries(b),
{
    broadcast use group_to_multiset_ensures;

    assert forall|i: int, j: int| 0 <= i < j < b.len() implies b[i].query_index < b[j].query_index by {
        assert(desc_le(b[i], b[j]));
        if b[i].query_index == b[j].query_index {
            assert(b.contains(b[i]) && b.contains(b[j]));
            assert(b.to_multiset().count(b[i]) > 0);
            assert(b.to_multiset().count(b[j]) > 0);
            assert(a.contains(b[i]));
            assert(a.contains(b[j]));
            let p = choose|p: int| 0 <= p < a.len() && a[p] == b[i];
            let q = choose|q: int| 0 <= q < a.len() && a[q] == b[j];
            if b[i] == b[j] {
                lemma_count_two(b, i, j);
                assert(a.to_multiset().count(a[p]) >= 2);
                let rem = a.remove(p);
                assert(rem.to_multiset() =~= a.to_multiset().remove(a[p]));
                assert(rem.to_multiset().count(a[p]) >= 1);
                assert(rem.contains(a[p]));
                let q2 = choose|q2: int| 0 <= q2 < rem.len() && rem[q2] == a[p];
                let q3 = if q2 < p { q2 } else { q2 + 1 };
                assert(a[q3] == rem[q2]);
                assert(q3 != p);
            } else {
                assert(p != q);
            }
        }
    }
}

proof fn lemma_computable_permutation(
    a: Seq<QueryColorDesc>,
    b: Seq<QueryColorDesc>,
    queries_count: u64,
    buckets_count: usize,
)
    requires
        all_computable(a, queries_count, buckets_count),
        b.to_multiset() == a.to_multiset(),
    ensures
        all_computable(b, queries_count, buckets_count),
{
    broadcast use group_to_multiset_ensures;

    assert forall|i: int| 0 <= i < b.len() implies bucket_computable(
        (#[trigger] b[i]).query_index,
        queries_count,
        buckets_count,
    ) by {
        assert(b.contains(b[i]));
        assert(b.to_multiset().count(b[i]) > 0);
        assert(a.to_multiset().count(b[i]) > 0);
        assert(a.contains(b[i]));
        let j = choose|j: int| 0 <= j < a.len() && a[j] == b[i];
        assert(bucket_computable(a[j].query_index, queries_count, buckets_count));
    }
}

/// The query descriptors of the counters in `entries[start..end]`, as a sequence.
pub open spec fn group_descs(entries: Seq<(CounterEntry, u32)>, start: int, end: int) -> Seq<
    QueryColorDesc,
> {
    entries.subrange(start, end).map_values(|e: (CounterEntry, u32)| desc_of(e.0))
}

/// Resolves every color group of a bucket sorted by color, given the color set
/// that the colormap holds for each group's color. Each counter of a group
/// comes out exactly once, in a record of that group, next to the group's
/// range-encoded colors.
pub fn resolve_bucket(
    sorted: &Vec<(CounterEntry, u32)>,
    groups: &Vec<(u32, usize, usize)>,
    color_sets: &Vec<Vec<u32>>,
    queries_count: u64,
    buckets_count: usize,
) -> (r: Vec<ColorGroupRecords>)
    requires
        groups@.len() == color_sets@.len(),
        forall|g: int|
            0 <= g < groups@.len() ==> (#[trigger] groups@[g]).1 <= groups@[g].2 <= sorted@.len(),
        forall|g: int| 0 <= g < color_sets@.len() ==> below_sentinel((#[trigger] color_sets@[g])@),
        forall|j: int|
            0 <= j < sorted@.len() ==> bucket_computable(
                (#[trigger] sorted@[j]).0.query_index,
                queries_count,
                buckets_count,
            ),
    ensures
        r@.len() == groups@.len(),
        forall|g: int|
            0 <= g < r@.len() ==> {
                let out = #[trigger] r@[g];
                &&& out.colors@ == ranges_bytes(color_ranges(color_sets@[g]@))
                &&& records_wf(out.records@, queries_count, buckets_count)
                &&& sorted_queries(flatten_records(out.records@))
                &&& flatten_records(out.records@).to_multiset() == group_descs(
                    sorted@,
                    groups@[g].1 as int,
                    groups@[g].2 as int,
                ).to_multiset()
            },
{
    let mut out: Vec<ColorGroupRecords> = Vec::new();
    let mut g: usize = 0;
    while g < groups.len()
        invariant
            g <= groups@.len(),
            groups@.len() == color_sets@.len(),
            out@.len() == g,
            forall|h: int|
                0 <= h < groups@.len() ==> (#[trigger] groups@[h]).1 <= groups@[h].2
                    <= sorted@.len(),
            forall|h: int| 0 <= h < color_sets@.len() ==> below_sentinel((#[trigger] color_sets@[h])@),
            forall|j: int|
                0 <= j < sorted@.len() ==> bucket_computable(
                    (#[trigger] sorted@[j]).0.query_index,
                    queries_count,
                    buckets_count,
                ),
            forall|h: int|
                0 <= h < out@.len() ==> {
                    let o = #[trigger] out@[h];
                    &&& o.colors@ == ranges_bytes(color_ranges(color_sets@[h]@))
                    &&& records_wf(o.records@, queries_count, buckets_count)
                    &&& sorted_queries(flatten_records(o.records@))
                    &&& flatten_records(o.records@).to_multiset() == group_descs(
                        sorted@,
                        groups@[h].1 as int,
                        groups@[h].2 as int,
                    ).to_multiset()
                },
        decreases groups@.len() - g,
    {
        let (_, start, end) = groups[g];
        let queries = group_queries(sorted, start, end);
        proof {
            assert(queries@ == group_descs(sorted@, start as int, end as int));
            assert forall|i: int| 0 <= i < queries@.len() implies bucket_computable(
                (#[trigger] queries@[i]).query_index,
                queries_count,
                buckets_count,
            ) by {
                assert(queries@[i] == desc_of(sorted@[start + i].0));
            }
        }
        let resolved = resolve_color_group(queries, &color_sets[g], queries_count, buckets_count);
        let ghost before = out@;
        out.push(resolved);
        proof {
            assert forall|h: int| 0 <= h < out@.len() implies {
                let o = #[trigger] out@[h];
                &&& o.colors@ == ranges_bytes(color_ranges(color_sets@[h]@))
                &&& records_wf(o.records@, queries_count, buckets_count)
                &&& sorted_queries(flatten_records(o.records@))
                &&& flatten_records(o.records@).to_multiset() == group_descs(
                    sorted@,
                    groups@[h].1 as int,
                    groups@[h].2 as int,
                ).to_multiset()
            } by {
                if h < before.len() {
                    assert(out@[h] == before[h]);
                }
            }
        }
        g = g + 1;
    }
    out
}


/// The query descriptors of all groups, one group after the other.
pub open spec fn concat_group_descs(
    sorted: Seq<(CounterEntry, u32)>,
    groups: Seq<(u32, usize, usize)>,
) -> Seq<QueryColorDesc>
    decreases groups.len(),
{
    if groups.len() == 0 {
        seq![]
    } else {
        concat_group_descs(sorted, groups.drop_last()) + group_descs(
            sorted,
            groups.last().1 as int,
            groups.last().2 as int,
        )
    }
}

/// Groups that start at 0, follow each other without gaps, and end at `end`.
pub open spec fn groups_tile(groups: Seq<(u32, usize, usize)>, end: int) -> bool {
    &&& groups.len() > 0 ==> groups[0].1 == 0 && groups.last().2 == end
    &&& groups.len() == 0 ==> end == 0
    &&& forall|g: int| 0 <= g < groups.len() ==> (#[trigger] groups[g]).1 <= groups[g].2
    &&& forall|g: int| 0 <= g < groups.len() - 1 ==> (#[trigger] groups[g]).2 == groups[g + 1].1
}

/// Coverage: groups that tile a sorted bucket (as `color_groups` returns them)
/// hold, in order, exactly the descriptors of all its counters, so each counter
/// is resolved in exactly one group.
pub proof fn lemma_groups_cover(sorted: Seq<(CounterEntry, u32)>, groups: Seq<(u32, usize, usize)>, end: int)
    requires
        0 <= end <= sorted.len(),
        groups_tile(groups, end),
    ensures
        concat_group_descs(sorted, groups) == group_descs(sorted, 0, end),
    decreases groups.len(),
{
    if groups.len() == 0 {
        assert(group_descs(sorted, 0, 0) =~= Seq::<QueryColorDesc>::empty());
    } else {
        let init = groups.drop_last();
        let mid = groups.last().1 as int;
        if groups.len() > 1 {
            assert(init.last() == groups[groups.len() - 2]);
            assert(groups_tile(init, mid));
        } else {
            assert(mid == 0);
        }
        lemma_groups_cover(sorted, init, mid);
        assert(group_descs(sorted, 0, mid) + group_descs(sorted, mid, end) =~= group_descs(
            sorted,
            0,
            end,
        ));
    }
}

// ---- input records ----

/// Four bytes, least significant first.
pub open spec fn le_u32_bytes(x: u32) -> Seq<u8> {
    seq![(x % 256) as u8, ((x / 256) % 256) as u8, ((x / 65536) % 256) as u8, (x / 16777216) as u8]
}

/// An input record: the query index and the counter as varints, then the
/// color id in four little-endian bytes.
pub open spec fn counter_record_bytes(e: CounterEntry, color: u32) -> Seq<u8> {
    varint_bytes(e.query_index as nat) + varint_bytes(e.counter as nat) + le_u32_bytes(color)
}

/// Reads the input record at `pos`: the counter, its color id and the position
/// after it.
pub fn decode_counter_entry(data: &Vec<u8>, pos: usize) -> (r: Option<(CounterEntry, u32, usize)>)
    ensures
        forall|e: CounterEntry, color: u32, rest: Seq<u8>|
            pos <= data@.len() && data@.subrange(pos as int, data@.len() as int) == #[trigger] (
            counter_record_bytes(e, color) + rest) ==> r == Some(
                (e, color, (pos + counter_record_bytes(e, color).len()) as usize),
            ),
{
    let n = data.len();
    let r1 = decode_varint(data, pos);
    let (query_index, after_query) = match r1 {
        Some(x) => x,
        None => {
            proof {
                assert forall|e: CounterEntry, color: u32, rest: Seq<u8>|
                    pos <= data@.len() && data@.subrange(pos as int, data@.len() as int) == #[trigger] (
                    counter_record_bytes(e, color) + rest) implies false by {
                    assert(counter_record_bytes(e, color) + rest =~= varint_bytes(e.query_index as nat) + (varint_bytes(e.counter as nat) + le_u32_bytes(color) + rest));
                }
            }
            return None;
        },
    };
    let r2 = decode_varint(data, after_query);
    let (counter, after_counter) = match r2 {
        Some(x) => x,
        None => {
            proof {
                assert forall|e: CounterEntry, color: u32, rest: Seq<u8>|
                    pos <= data@.len() && data@.subrange(pos as int, data@.len() as int) == #[trigger] (
                    counter_record_bytes(e, color) + rest) implies false by {
                    lemma_counter_split(data@, pos as int, e, color, rest);
                    let a = varint_bytes(e.query_index as nat);
                    let b = varint_bytes(e.counter as nat);
                    assert(data@.subrange(pos as int, data@.len() as int) == a + (b + (le_u32_bytes(color) + rest)));
                    assert(r1 == Some((e.query_index, (pos + a.len()) as usize)));
                    assert(after_query as int == pos + a.len());
                    assert(data@.subrange(after_query as int, data@.len() as int) == b + (le_u32_bytes(color) + rest));
                }
            }
            return None;
        },
    };
    if counter > u32::MAX as u64 || after_counter > n || n - after_counter < 4 {
        proof {
            assert forall|e: CounterEntry, color: u32, rest: Seq<u8>|
                pos <= data@.len() && data@.subrange(pos as int, data@.len() as int) == #[trigger] (
                counter_record_bytes(e, color) + rest) implies false by {
                lemma_counter_split(data@, pos as int, e, color, rest);
                let a = varint_bytes(e.query_index as nat);
                let b = varint_bytes(e.counter as nat);
                assert(after_query as int == pos + a.len());
                assert(after_counter as int == pos + a.len() + b.len());
            }
        }
        return None;
    }
    let color = data[after_counter] as u32 + 256 * data[after_counter + 1] as u32 + 65536 * data[after_counter + 2] as u32
        + 16777216 * data[after_counter + 3] as u32;
    let entry = CounterEntry { query_index, counter: counter as u32 };
    proof {
        assert forall|e: CounterEntry, c: u32, rest: Seq<u8>|
            pos <= data@.len() && data@.subrange(pos as int, data@.len() as int) == #[trigger] (
            counter_record_bytes(e, c) + rest) implies Some((entry, color, (after_counter + 4) as usize))
            == Some((e, c, (pos + counter_record_bytes(e, c).len()) as usize)) by {
            lemma_counter_split(data@, pos as int, e, c, rest);
            let a = varint_bytes(e.query_index as nat);
            let b = varint_bytes(e.counter as nat);
            assert(after_query as int == pos + a.len());
            assert(after_counter as int == pos + a.len() + b.len());
            assert(counter == e.counter);
            let q = data@.subrange(after_counter as int, after_counter + 4);
            assert(q[0] == data@[after_counter as int] && q[1] == data@[after_counter + 1] && q[2] == data@[after_counter + 2]
                && q[3] == data@[after_counter + 3]);
            lemma_le_u32_value(c);
        }
    }
    Some((entry, color, after_counter + 4))
}

proof fn lemma_le_u32_value(c: u32)
    ensures
        c == c % 256 + 256 * ((c / 256) % 256) + 65536 * ((c / 65536) % 256) + 16777216 * (c
            / 16777216),
{
}

proof fn lemma_counter_split(data: Seq<u8>, pos: int, e: CounterEntry, color: u32, rest: Seq<u8>)
    requires
        0 <= pos <= data.len(),
        data.subrange(pos, data.len() as int) == counter_record_bytes(e, color) + rest,
    ensures
        ({
            let a = varint_bytes(e.query_index as nat);
            let b = varint_bytes(e.counter as nat);
            &&& data.subrange(pos, data.len() as int) == a + (b + (le_u32_bytes(color) + rest))
            &&& data.subrange(pos + a.len(), data.len() as int) == b + (le_u32_bytes(color) + rest)
            &&& pos + a.len() + b.len() + 4 <= data.len()
            &&& data.subrange(pos + a.len() + b.len(), pos + a.len() + b.len() + 4) == le_u32_bytes(color)
            &&& counter_record_bytes(e, color).len() == a.len() + b.len() + 4
        }),
{
    let a = varint_bytes(e.query_index as nat);
    let b = varint_bytes(e.counter as nat);
    let c = le_u32_bytes(color);
    assert(counter_record_bytes(e, color) + rest =~= a + (b + (c + rest)));
    crate::codec::lemma_suffix(data, pos, a, b + (c + rest));
    crate::codec::lemma_suffix(data, pos + a.len(), b, c + rest);
    crate::codec::lemma_suffix(data, pos + a.len() + b.len(), c, rest);
}

} // verus!
