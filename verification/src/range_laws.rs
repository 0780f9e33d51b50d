//! What coalescing promises to the one who slices: every requested range
//! is served by the buffer fetched for the coalesced range that it went into.
//!
//! A requested range is looked up by its start offset alone. Two requests
//! with the same start may be parted by the size bound, and the first of
//! them is then looked up in the group of the second. So the promise is made
//! for requests whose start offsets differ from one another, and for
//! requests that together span less than the size bound, which no group
//! can then reach.

use crate::ranges::{
    bytes_contents, coalesced, covers, extend_group, groups_from, is_fetch_index, joins, served,
    serves, sorted_arrangement, sorted_by_start,
};
use bytes::Bytes;
use std::ops::Range;
use vstd::prelude::*;

verus! {

/// No two of the ranges start at the same offset.
pub open spec fn distinct_starts(s: Seq<Range<u64>>) -> bool {
    forall|i: int, j: int| 0 <= i < j < s.len() ==> s[i].start != s[j].start
}

/// Every range ends at or after its start.
pub open spec fn proper(s: Seq<Range<u64>>) -> bool {
    forall|i: int| 0 <= i < s.len() ==> (#[trigger] s[i]).start <= s[i].end
}

/// From the start of any of the ranges to the end of any of them there are
/// fewer than `range_max_size` bytes.
pub open spec fn span_below(s: Seq<Range<u64>>, range_max_size: u64) -> bool {
    forall|i: int, j: int|
        0 <= i < s.len() && 0 <= j < s.len() ==> (#[trigger] s[j]).end - (#[trigger] s[i]).start
            < range_max_size
}

/// Looking a range up by its start offset cannot go wrong: no two of the
/// ranges start at the same offset, or the ranges end at or after their
/// starts and span less than the size bound.
pub open spec fn unambiguous(s: Seq<Range<u64>>, range_max_size: u64) -> bool {
    distinct_starts(s) || (proper(s) && span_below(s, range_max_size))
}

/// Group `k` is the one in which `r` is looked up, and it holds `r` in full.
pub open spec fn held_at(groups: Seq<Range<u64>>, r: Range<u64>, k: int) -> bool {
    is_fetch_index(groups, r.start, k) && covers(groups[k], r)
}

/// The group in which `r` is looked up holds `r` in full.
pub open spec fn held(groups: Seq<Range<u64>>, r: Range<u64>) -> bool {
    exists|k: int| #[trigger] held_at(groups, r, k)
}

/// Each buffer has the length of the range that it was fetched for.
pub open spec fn fetched_in_full(fetch: Seq<Range<u64>>, fetched: Seq<Bytes>) -> bool {
    &&& fetched.len() == fetch.len()
    &&& forall|k: int|
        0 <= k < fetch.len() ==> (#[trigger] bytes_contents(fetched[k])).len()
            == fetch[k].end - fetch[k].start
}

/// An arrangement of ranges with distinct starts has distinct starts.
proof fn lemma_distinct_arranged(s: Seq<Range<u64>>, ranges: Seq<Range<u64>>)
    requires
        s.to_multiset() == ranges.to_multiset(),
        distinct_starts(ranges),
    ensures
        distinct_starts(s),
    decreases ranges.len(),
{
    s.to_multiset_ensures();
    ranges.to_multiset_ensures();
    if ranges.len() > 0 {
        let n = ranges.len() - 1;
        let v = ranges[n];
        assert(ranges.contains(v));
        assert(s.to_multiset().count(v) > 0);
        assert(s.contains(v));
        let p = choose|p: int| 0 <= p < s.len() && s[p] == v;
        let s1 = s.remove(p);
        let r1 = ranges.remove(n);
        assert(s1.to_multiset() == r1.to_multiset());
        assert forall|i: int, j: int| 0 <= i < j < r1.len() implies r1[i].start
            != r1[j].start by {
            assert(r1[i] == ranges[i] && r1[j] == ranges[j]);
        }
        lemma_distinct_arranged(s1, r1);
        s1.to_multiset_ensures();
        r1.to_multiset_ensures();
        assert forall|i: int| 0 <= i < s1.len() implies (#[trigger] s1[i]).start != v.start by {
            assert(s1.contains(s1[i]));
            assert(r1.to_multiset().count(s1[i]) > 0);
            assert(r1.contains(s1[i]));
            let q = choose|q: int| 0 <= q < r1.len() && r1[q] == s1[i];
            assert(r1[q] == ranges[q]);
        }
        assert forall|i: int, j: int| 0 <= i < j < s.len() implies s[i].start != s[j].start by {
            let a = if i < p {
                i
            } else {
                i - 1
            };
            let b = if j < p {
                j
            } else {
                j - 1
            };
            if i == p {
                assert(s1[b] == s[j]);
            } else if j == p {
                assert(s1[a] == s[i]);
            } else {
                assert(s1[a] == s[i] && s1[b] == s[j]);
            }
        }
    }
}

/// Each range of an arrangement is one of the ranges arranged.
proof fn lemma_arranged_member(s: Seq<Range<u64>>, ranges: Seq<Range<u64>>, i: int)
    requires
        s.to_multiset() == ranges.to_multiset(),
        0 <= i < s.len(),
    ensures
        ranges.contains(s[i]),
{
    s.to_multiset_ensures();
    ranges.to_multiset_ensures();
    assert(s.contains(s[i]));
    assert(ranges.to_multiset().count(s[i]) > 0);
}

/// An arrangement of ranges that are looked up without fail is looked up
/// without fail.
proof fn lemma_unambiguous_arranged(
    s: Seq<Range<u64>>,
    ranges: Seq<Range<u64>>,
    range_max_size: u64,
)
    requires
        s.to_multiset() == ranges.to_multiset(),
        unambiguous(ranges, range_max_size),
    ensures
        unambiguous(s, range_max_size),
{
    if distinct_starts(ranges) {
        lemma_distinct_arranged(s, ranges);
    } else {
        assert forall|i: int| 0 <= i < s.len() implies (#[trigger] s[i]).start <= s[i].end by {
            lemma_arranged_member(s, ranges, i);
            let q = choose|q: int| 0 <= q < ranges.len() && ranges[q] == s[i];
            assert(ranges[q].start <= ranges[q].end);
        }
        assert forall|i: int, j: int| 0 <= i < s.len() && 0 <= j < s.len() implies (
        #[trigger] s[j]).end - (#[trigger] s[i]).start < range_max_size by {
            lemma_arranged_member(s, ranges, i);
            lemma_arranged_member(s, ranges, j);
            let p = choose|p: int| 0 <= p < ranges.len() && ranges[p] == s[i];
            let q = choose|q: int| 0 <= q < ranges.len() && ranges[q] == s[j];
            assert(ranges[q].end - ranges[p].start < range_max_size);
        }
    }
}

/// A group in front of groups that all start after `r` does not change
/// where `r` is looked up.
proof fn lemma_held_behind(head: Range<u64>, rest: Seq<Range<u64>>, r: Range<u64>)
    requires
        held(rest, r),
    ensures
        held(seq![head] + rest, r),
{
    let k = choose|k: int| #[trigger] held_at(rest, r, k);
    let g = seq![head] + rest;
    assert(g[k + 1] == rest[k]);
    assert forall|j: int| k + 1 < j < g.len() implies (#[trigger] g[j]).start > r.start by {
        assert(g[j] == rest[j - 1]);
    }
    assert(held_at(g, r, k + 1));
}

/// The first of the groups holds `r`, and every other group starts after `r`.
proof fn lemma_held_in_front(g: Seq<Range<u64>>, r: Range<u64>, bound: u64)
    requires
        g.len() > 0,
        covers(g[0], r),
        r.start < bound,
        forall|m: int| 1 <= m < g.len() ==> bound <= (#[trigger] g[m]).start,
    ensures
        held(g, r),
{
    assert(held_at(g, r, 0));
}

proof fn lemma_groups_hold(s: Seq<Range<u64>>, i: int, coalesce: u64, range_max_size: u64)
    requires
        sorted_by_start(s),
        unambiguous(s, range_max_size),
        0 <= i <= s.len(),
    ensures
        forall|m: int|
            0 <= m < groups_from(s, i, coalesce, range_max_size).len() ==> i < s.len() && s[i].start
                <= (#[trigger] groups_from(s, i, coalesce, range_max_size)[m]).start,
        forall|j: int|
            i <= j < s.len() ==> held(groups_from(s, i, coalesce, range_max_size), #[trigger] s[j]),
    decreases s.len() - i, 0int,
{
    if i < s.len() {
        if !distinct_starts(s) {
            assert(s[i].end - s[i].start < range_max_size);
        }
        lemma_extend_hold(s, i + 1, i, s[i].start, s[i].end, coalesce, range_max_size);
    }
}

/// The groups formed when a group spanning `begin..end` is open that holds
/// the ranges `s[first..idx]`.
proof fn lemma_extend_hold(
    s: Seq<Range<u64>>,
    idx: int,
    first: int,
    begin: u64,
    end: u64,
    coalesce: u64,
    range_max_size: u64,
)
    requires
        sorted_by_start(s),
        unambiguous(s, range_max_size),
        0 <= first < idx <= s.len(),
        begin == s[first].start,
        forall|j: int| first <= j < idx ==> (#[trigger] s[j]).end <= end,
        !distinct_starts(s) ==> begin <= end && end - begin < range_max_size,
    ensures
        extend_group(s, idx, begin, end, coalesce, range_max_size).len() > 0,
        extend_group(s, idx, begin, end, coalesce, range_max_size)[0].start == begin,
        forall|m: int|
            1 <= m < extend_group(s, idx, begin, end, coalesce, range_max_size).len() ==> idx
                < s.len() && s[idx].start <= (#[trigger] extend_group(
                s,
                idx,
                begin,
                end,
                coalesce,
                range_max_size,
            )[m]).start,
        forall|j: int|
            first <= j < s.len() ==> held(
                extend_group(s, idx, begin, end, coalesce, range_max_size),
                #[trigger] s[j],
            ),
    decreases s.len() - idx, 1int,
{
    let g = extend_group(s, idx, begin, end, coalesce, range_max_size);
    if 0 <= idx < s.len() && joins(end, s[idx].start, coalesce) {
        let grown = if s[idx].end > end {
            s[idx].end
        } else {
            end
        };
        if grown - begin >= range_max_size {
            if !distinct_starts(s) {
                assert(s[idx].end - s[first].start < range_max_size);
            }
            let head = Range { start: begin, end: grown };
            let rest = groups_from(s, idx + 1, coalesce, range_max_size);
            lemma_groups_hold(s, idx + 1, coalesce, range_max_size);
            assert(g == seq![head] + rest);
            assert forall|m: int| 1 <= m < g.len() implies s[idx].start <= (#[trigger] g[m]).start by {
                assert(g[m] == rest[m - 1]);
            }
            assert forall|j: int| first <= j < s.len() implies held(g, #[trigger] s[j]) by {
                if j <= idx {
                    assert forall|m: int| 1 <= m < g.len() implies s[idx + 1].start <= (
                    #[trigger] g[m]).start by {
                        assert(g[m] == rest[m - 1]);
                    }
                    if g.len() > 1 {
                        lemma_held_in_front(g, s[j], s[idx + 1].start);
                    } else {
                        assert(held_at(g, s[j], 0));
                    }
                } else {
                    lemma_held_behind(head, rest, s[j]);
                }
            }
        } else {
            lemma_extend_hold(s, idx + 1, first, begin, grown, coalesce, range_max_size);
        }
    } else {
        let head = Range { start: begin, end };
        let rest = groups_from(s, idx, coalesce, range_max_size);
        lemma_groups_hold(s, idx, coalesce, range_max_size);
        assert(g == seq![head] + rest);
        assert forall|m: int| 1 <= m < g.len() implies idx < s.len() && s[idx].start <= (
        #[trigger] g[m]).start by {
            assert(g[m] == rest[m - 1]);
        }
        assert forall|j: int| first <= j < s.len() implies held(g, #[trigger] s[j]) by {
            if j < idx {
                if g.len() > 1 {
                    if !distinct_starts(s) {
                        assert(s[j].start <= s[j].end <= end < s[idx].start);
                    }
                    lemma_held_in_front(g, s[j], s[idx].start);
                } else {
                    assert(held_at(g, s[j], 0));
                }
            } else {
                lemma_held_behind(head, rest, s[j]);
            }
        }
    }
}

/// Where the requested ranges start at different offsets, or span less than
/// the size bound, each of them is held in full by the coalesced range in
/// which it is looked up.
pub proof fn lemma_coalesced_holds(
    ranges: Seq<Range<u64>>,
    s: Seq<Range<u64>>,
    coalesce: u64,
    range_max_size: u64,
    i: int,
)
    requires
        sorted_arrangement(s, ranges),
        unambiguous(ranges, range_max_size),
        0 <= i < ranges.len(),
    ensures
        held(coalesced(s, coalesce, range_max_size), ranges[i]),
{
    lemma_unambiguous_arranged(s, ranges, range_max_size);
    lemma_groups_hold(s, 0, coalesce, range_max_size);
    s.to_multiset_ensures();
    ranges.to_multiset_ensures();
    assert(ranges.contains(ranges[i]));
    assert(s.to_multiset().count(ranges[i]) > 0);
    assert(s.contains(ranges[i]));
    let j = choose|j: int| 0 <= j < s.len() && s[j] == ranges[i];
    assert(held(coalesced(s, coalesce, range_max_size), s[j]));
}

/// Coalescing and slicing fit together: where the requested ranges start at
/// different offsets, or span less than the size bound, and each buffer has
/// the length of the coalesced range it was fetched for, every requested
/// range that does not end before it starts is served.
pub proof fn lemma_coalesced_serves(
    ranges: Seq<Range<u64>>,
    s: Seq<Range<u64>>,
    coalesce: u64,
    range_max_size: u64,
    fetched: Seq<Bytes>,
    i: int,
)
    requires
        sorted_arrangement(s, ranges),
        unambiguous(ranges, range_max_size),
        fetched_in_full(coalesced(s, coalesce, range_max_size), fetched),
        0 <= i < ranges.len(),
        ranges[i].start <= ranges[i].end,
    ensures
        served(ranges[i], coalesced(s, coalesce, range_max_size), fetched),
{
    let fetch = coalesced(s, coalesce, range_max_size);
    lemma_coalesced_holds(ranges, s, coalesce, range_max_size, i);
    let k = choose|k: int| #[trigger] held_at(fetch, ranges[i], k);
    assert(serves(ranges[i], fetch, fetched, k));
}

} // verus!
