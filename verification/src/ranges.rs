//! Coalescing of byte ranges into fewer, larger fetch requests.

use bytes::Bytes;
use std::ops::Range;
use vstd::prelude::*;

verus! {

/// Range requests with a gap less than or equal to this are coalesced into a
/// single request by default.
pub const OBJECT_STORE_COALESCE_DEFAULT: u64 = 1024 * 1024;

/// Up to this number of range requests are performed in parallel.
pub const OBJECT_STORE_COALESCE_PARALLEL: usize = 4;

/// A coalesced request stops growing once it spans this many bytes.
pub const OBJECT_STORE_COALESCE_MAX: u64 = 16 * 1024 * 1024;

/// The ranges are ordered by their start offsets.
pub open spec fn sorted_by_start(s: Seq<Range<u64>>) -> bool {
    forall|i: int, j: int| 0 <= i <= j < s.len() ==> s[i].start <= s[j].start
}

/// `outer` holds every byte of `inner`.
pub open spec fn covers(outer: Range<u64>, inner: Range<u64>) -> bool {
    outer.start <= inner.start && inner.end <= outer.end
}

/// A range that starts at `start` joins a group that so far ends at
/// `group_end`: it overlaps the group, or the gap is at most `coalesce`.
pub open spec fn joins(group_end: u64, start: u64, coalesce: u64) -> bool {
    start <= group_end + coalesce
}

/// The groups formed from `s[i..]`, each given as the range it spans.
pub open spec fn groups_from(
    s: Seq<Range<u64>>,
    i: int,
    coalesce: u64,
    range_max_size: u64,
) -> Seq<Range<u64>>
    decreases s.len() - i, 0int,
{
    if 0 <= i < s.len() {
        extend_group(s, i + 1, s[i].start, s[i].end, coalesce, range_max_size)
    } else {
        Seq::empty()
    }
}

/// The groups formed from `s[idx..]` when a group spanning `begin..end` is open.
///
/// The open group takes `s[idx]` if it joins; a group that has reached
/// `range_max_size` bytes is closed right after the range that filled it.
pub open spec fn extend_group(
    s: Seq<Range<u64>>,
    idx: int,
    begin: u64,
    end: u64,
    coalesce: u64,
    range_max_size: u64,
) -> Seq<Range<u64>>
    decreases s.len() - idx, 1int,
{
    if 0 <= idx < s.len() && joins(end, s[idx].start, coalesce) {
        let grown = if s[idx].end > end { s[idx].end } else { end };
        if grown - begin >= range_max_size {
            seq![Range { start: begin, end: grown }] + groups_from(
                s,
                idx + 1,
                coalesce,
                range_max_size,
            )
        } else {
            extend_group(s, idx + 1, begin, grown, coalesce, range_max_size)
        }
    } else {
        seq![Range { start: begin, end }] + groups_from(s, idx, coalesce, range_max_size)
    }
}

/// One pass of greedy coalescing over `s`, taken in the order given.
pub open spec fn coalesced(s: Seq<Range<u64>>, coalesce: u64, range_max_size: u64) -> Seq<
    Range<u64>,
> {
    groups_from(s, 0, coalesce, range_max_size)
}

/// Some range of `groups` holds every byte of `r`.
pub open spec fn covered_by(groups: Seq<Range<u64>>, r: Range<u64>) -> bool {
    exists|k: int| 0 <= k < groups.len() && covers(#[trigger] groups[k], r)
}

/// `s` holds the ranges of `ranges`, each as often as `ranges` does, ordered
/// by start offset.
pub open spec fn sorted_arrangement(s: Seq<Range<u64>>, ranges: Seq<Range<u64>>) -> bool {
    sorted_by_start(s) && s.to_multiset() == ranges.to_multiset()
}

proof fn lemma_groups_from(s: Seq<Range<u64>>, i: int, coalesce: u64, range_max_size: u64)
    requires
        sorted_by_start(s),
        0 <= i <= s.len(),
    ensures
        sorted_by_start(groups_from(s, i, coalesce, range_max_size)),
        i < s.len() ==> groups_from(s, i, coalesce, range_max_size).len() > 0 && groups_from(
            s,
            i,
            coalesce,
            range_max_size,
        )[0].start == s[i].start,
        i == s.len() ==> groups_from(s, i, coalesce, range_max_size).len() == 0,
        forall|j: int|
            i <= j < s.len() ==> covered_by(
                groups_from(s, i, coalesce, range_max_size),
                #[trigger] s[j],
            ),
    decreases s.len() - i, 0int,
{
    if i < s.len() {
        lemma_extend_group(s, i + 1, s[i].start, s[i].end, coalesce, range_max_size);
        let g = groups_from(s, i, coalesce, range_max_size);
        assert(covers(g[0], s[i]));
    }
}

proof fn lemma_extend_group(
    s: Seq<Range<u64>>,
    idx: int,
    begin: u64,
    end: u64,
    coalesce: u64,
    range_max_size: u64,
)
    requires
        sorted_by_start(s),
        0 <= idx <= s.len(),
        forall|j: int| idx <= j < s.len() ==> begin <= (#[trigger] s[j]).start,
    ensures
        extend_group(s, idx, begin, end, coalesce, range_max_size).len() > 0,
        extend_group(s, idx, begin, end, coalesce, range_max_size)[0].start == begin,
        extend_group(s, idx, begin, end, coalesce, range_max_size)[0].end >= end,
        sorted_by_start(extend_group(s, idx, begin, end, coalesce, range_max_size)),
        forall|j: int|
            idx <= j < s.len() ==> covered_by(
                extend_group(s, idx, begin, end, coalesce, range_max_size),
                #[trigger] s[j],
            ),
    decreases s.len() - idx, 1int,
{
    let g = extend_group(s, idx, begin, end, coalesce, range_max_size);
    if 0 <= idx < s.len() && joins(end, s[idx].start, coalesce) {
        let grown = if s[idx].end > end { s[idx].end } else { end };
        if grown - begin >= range_max_size {
            let rest = groups_from(s, idx + 1, coalesce, range_max_size);
            lemma_groups_from(s, idx + 1, coalesce, range_max_size);
            lemma_prepend_group(s, idx + 1, Range { start: begin, end: grown }, rest);
            assert(covers(g[0], s[idx]));
        } else {
            lemma_extend_group(s, idx + 1, begin, grown, coalesce, range_max_size);
            assert(covers(g[0], s[idx]));
        }
    } else {
        let rest = groups_from(s, idx, coalesce, range_max_size);
        lemma_groups_from(s, idx, coalesce, range_max_size);
        lemma_prepend_group(s, idx, Range { start: begin, end }, rest);
    }
}

/// A closed group in front of the groups of `s[from..]` keeps them ordered
/// and keeps every range of `s[from..]` covered.
proof fn lemma_prepend_group(
    s: Seq<Range<u64>>,
    from: int,
    head: Range<u64>,
    rest: Seq<Range<u64>>,
)
    requires
        0 <= from <= s.len(),
        sorted_by_start(rest),
        rest.len() > 0 ==> head.start <= rest[0].start,
        forall|j: int| from <= j < s.len() ==> covered_by(rest, #[trigger] s[j]),
    ensures
        sorted_by_start(seq![head] + rest),
        forall|j: int| from <= j < s.len() ==> covered_by(seq![head] + rest, #[trigger] s[j]),
{
    let g = seq![head] + rest;
    assert forall|a: int, b: int| 0 <= a <= b < g.len() implies g[a].start <= g[b].start by {
        if a > 0 {
            assert(g[a] == rest[a - 1] && g[b] == rest[b - 1]);
        } else if b > 0 {
            assert(g[b] == rest[b - 1]);
            assert(rest[0].start <= rest[b - 1].start);
        }
    }
    assert forall|j: int| from <= j < s.len() implies covered_by(g, #[trigger] s[j]) by {
        let k = choose|k: int| 0 <= k < rest.len() && covers(#[trigger] rest[k], s[j]);
        assert(g[k + 1] == rest[k]);
        assert(covers(g[k + 1], s[j]));
    }
}

/// Coalescing ranges that are ordered by start offset gives ranges ordered
/// by start offset that together hold every byte of every input range, and
/// gives no range only where there is none to cover.
pub proof fn lemma_coalesced_covers(s: Seq<Range<u64>>, coalesce: u64, range_max_size: u64)
    requires
        sorted_by_start(s),
    ensures
        sorted_by_start(coalesced(s, coalesce, range_max_size)),
        forall|j: int|
            0 <= j < s.len() ==> covered_by(
                coalesced(s, coalesce, range_max_size),
                #[trigger] s[j],
            ),
        coalesced(s, coalesce, range_max_size).len() == 0 <==> s.len() == 0,
{
    lemma_groups_from(s, 0, coalesce, range_max_size);
}

/// Coalesces ranges that are already ordered by start offset.
///
/// Neighbours less than or equal to `coalesce` bytes apart share one output
/// range, until that range spans `range_max_size` bytes or more.
pub fn merge_sorted_ranges(ranges: &[Range<u64>], coalesce: u64, range_max_size: u64) -> (ret:
    Vec<Range<u64>>)
    ensures
        ret@ == coalesced(ranges@, coalesce, range_max_size),
{
    let n = ranges.len();
    let mut ret: Vec<Range<u64>> = Vec::new();
    let mut start_idx: usize = 0;
    while start_idx < n
        invariant
            n == ranges.len(),
            start_idx <= n,
            ret@ + groups_from(ranges@, start_idx as int, coalesce, range_max_size) == coalesced(
                ranges@,
                coalesce,
                range_max_size,
            ),
        decreases n - start_idx,
    {
        let range_begin = ranges[start_idx].start;
        let mut range_end = ranges[start_idx].end;
        let mut end_idx: usize = start_idx + 1;
        let mut full = false;
        while !full && end_idx < n && (ranges[end_idx].start <= range_end || ranges[end_idx].start
            - range_end <= coalesce)
            invariant
                n == ranges.len(),
                start_idx < end_idx <= n,
                !full ==> extend_group(
                    ranges@,
                    end_idx as int,
                    range_begin,
                    range_end,
                    coalesce,
                    range_max_size,
                ) == groups_from(ranges@, start_idx as int, coalesce, range_max_size),
                full ==> seq![Range { start: range_begin, end: range_end }] + groups_from(
                    ranges@,
                    end_idx as int,
                    coalesce,
                    range_max_size,
                ) == groups_from(ranges@, start_idx as int, coalesce, range_max_size),
            decreases n - end_idx + (if full { 0int } else { 1int }),
        {
            if ranges[end_idx].end > range_end {
                range_end = ranges[end_idx].end;
            }
            end_idx += 1;
            if range_end >= range_begin && range_end - range_begin >= range_max_size {
                full = true;
            }
        }
        proof {
            let closed = seq![Range { start: range_begin, end: range_end }];
            let rest = groups_from(ranges@, end_idx as int, coalesce, range_max_size);
            assert(closed + rest == groups_from(
                ranges@,
                start_idx as int,
                coalesce,
                range_max_size,
            ));
            assert(ret@.push(Range { start: range_begin, end: range_end }) + rest == ret@ + (closed
                + rest));
        }
        ret.push(Range { start: range_begin, end: range_end });
        start_idx = end_idx;
    }
    ret
}

/// `slice::sort_unstable_by_key` keyed by the start offset: afterwards the
/// vector holds the same ranges, ordered by start; ranges with equal starts
/// may come in any order.
#[verifier::external_body]
fn sort_by_start(v: &mut Vec<Range<u64>>)
    ensures
        sorted_arrangement(final(v)@, old(v)@),
{
    v.sort_unstable_by_key(|range| range.start);
}

fn copy_ranges(ranges: &[Range<u64>]) -> (v: Vec<Range<u64>>)
    ensures
        v@ == ranges@,
{
    let mut v: Vec<Range<u64>> = Vec::new();
    let mut i: usize = 0;
    while i < ranges.len()
        invariant
            i <= ranges.len(),
            v@ == ranges@.subrange(0, i as int),
        decreases ranges.len() - i,
    {
        v.push(Range { start: ranges[i].start, end: ranges[i].end });
        assert(v@ == ranges@.subrange(0, i + 1));
        i += 1;
    }
    assert(ranges@.subrange(0, ranges.len() as int) == ranges@);
    v
}

/// Returns a sorted list of ranges that cover `ranges`.
///
/// The ranges are ordered by start offset and then coalesced in one pass.
/// Which of several ranges with the same start comes first is not fixed, so
/// the result is given for some ordered arrangement of the input.
pub fn merge_ranges(ranges: &[Range<u64>], coalesce: u64, range_max_size: u64) -> (ret: Vec<
    Range<u64>,
>)
    ensures
        exists|s: Seq<Range<u64>>| #[trigger]
            sorted_arrangement(s, ranges@) && ret@ == coalesced(s, coalesce, range_max_size),
        sorted_by_start(ret@),
        forall|i: int| 0 <= i < ranges.len() ==> covered_by(ret@, #[trigger] ranges@[i]),
        ret@.len() == 0 <==> ranges@.len() == 0,
{
    let mut sorted = copy_ranges(ranges);
    sort_by_start(&mut sorted);
    let ret = merge_sorted_ranges(sorted.as_slice(), coalesce, range_max_size);
    proof {
        let s = sorted@;
        assert(sorted_arrangement(s, ranges@));
        lemma_coalesced_covers(s, coalesce, range_max_size);
        s.to_multiset_ensures();
        ranges@.to_multiset_ensures();
        assert forall|i: int| 0 <= i < ranges.len() implies covered_by(
            ret@,
            #[trigger] ranges@[i],
        ) by {
            assert(ranges@.contains(ranges@[i]));
            assert(s.to_multiset().count(ranges@[i]) > 0);
            assert(s.contains(ranges@[i]));
            let j = choose|j: int| 0 <= j < s.len() && s[j] == ranges@[i];
            assert(covered_by(ret@, s[j]));
        }
        assert(s.len() == s.to_multiset().len());
        assert(ranges@.len() == ranges@.to_multiset().len());
    }
    ret
}

/// A reference-counted byte buffer of the bytes crate.
#[verifier::external_type_specification]
#[verifier::external_body]
pub struct ExBytes(bytes::Bytes);

/// The bytes that a buffer holds.
pub uninterp spec fn bytes_contents(b: Bytes) -> Seq<u8>;

/// `Bytes::len`: the number of bytes that the buffer holds.
#[verifier::external_body]
fn bytes_len(b: &Bytes) -> (n: usize)
    ensures
        n == bytes_contents(*b).len(),
{
    b.len()
}

/// `Bytes::slice` with the range `begin..end`: a buffer that holds the bytes
/// of `b` from `begin` up to `end`. The call panics unless `begin <= end` and
/// `end` is within the buffer, so both are required.
#[verifier::external_body]
fn bytes_slice(b: &Bytes, begin: usize, end: usize) -> (out: Bytes)
    requires
        begin <= end <= bytes_contents(*b).len(),
    ensures
        bytes_contents(out) == bytes_contents(*b).subrange(begin as int, end as int),
{
    b.slice(begin..end)
}

/// Why a requested range could not be cut out of what was fetched.
#[derive(Clone, Copy, Debug, PartialEq, Eq, Structural)]
pub enum RangeError {
    /// The requested range at this position is not held by the fetched
    /// range that it falls into.
    NotCovered(usize),
}

/// Fetch range `idx` is the last one that starts at or before `start`.
pub open spec fn is_fetch_index(fetch: Seq<Range<u64>>, start: u64, idx: int) -> bool {
    &&& 0 <= idx < fetch.len()
    &&& fetch[idx].start <= start
    &&& forall|j: int| idx < j < fetch.len() ==> (#[trigger] fetch[j]).start > start
}

/// Every fetch range starts after `start`.
pub open spec fn no_fetch_index(fetch: Seq<Range<u64>>, start: u64) -> bool {
    forall|j: int| 0 <= j < fetch.len() ==> (#[trigger] fetch[j]).start > start
}

/// The last fetch range that starts at or before `start`.
pub fn locate_fetch(fetch_ranges: &[Range<u64>], start: u64) -> (found: Option<usize>)
    ensures
        match found {
            Some(idx) => is_fetch_index(fetch_ranges@, start, idx as int),
            None => no_fetch_index(fetch_ranges@, start),
        },
{
    let mut i: usize = fetch_ranges.len();
    while i > 0
        invariant
            i <= fetch_ranges@.len(),
            forall|j: int| i <= j < fetch_ranges@.len() ==> (#[trigger] fetch_ranges@[j]).start > start,
        decreases i,
    {
        i -= 1;
        if fetch_ranges[i].start <= start {
            return Some(i);
        }
    }
    None
}

/// Fetched buffer `idx` serves the range: it belongs to the last fetch range
/// that starts at or before the range, and holds the range in full.
pub open spec fn serves(
    range: Range<u64>,
    fetch: Seq<Range<u64>>,
    fetched: Seq<Bytes>,
    idx: int,
) -> bool {
    &&& is_fetch_index(fetch, range.start, idx)
    &&& idx < fetched.len()
    &&& range.start <= range.end
    &&& range.end - fetch[idx].start <= bytes_contents(fetched[idx]).len()
}

/// The bytes of the range, cut out of fetched buffer `idx`.
pub open spec fn cut_out(
    range: Range<u64>,
    fetch: Seq<Range<u64>>,
    fetched: Seq<Bytes>,
    idx: int,
) -> Seq<u8> {
    bytes_contents(fetched[idx]).subrange(
        range.start - fetch[idx].start,
        range.end - fetch[idx].start,
    )
}

/// A range is looked up in one fetch range only.
pub proof fn lemma_fetch_index_unique(fetch: Seq<Range<u64>>, start: u64, a: int, b: int)
    requires
        is_fetch_index(fetch, start, a),
        is_fetch_index(fetch, start, b),
    ensures
        a == b,
{
    if a < b {
        assert(fetch[b].start > start);
    } else if b < a {
        assert(fetch[a].start > start);
    }
}

/// No buffer serves a range whose fetch range is missing, has no buffer, or
/// has a buffer that does not hold the range in full.
proof fn lemma_unserved(
    range: Range<u64>,
    fetch: Seq<Range<u64>>,
    fetched: Seq<Bytes>,
    found: Option<usize>,
)
    requires
        match found {
            Some(idx) => is_fetch_index(fetch, range.start, idx as int) && !serves(
                range,
                fetch,
                fetched,
                idx as int,
            ),
            None => no_fetch_index(fetch, range.start),
        },
    ensures
        !served(range, fetch, fetched),
{
    if served(range, fetch, fetched) {
        let other = choose|other: int| #[trigger] serves(range, fetch, fetched, other);
        match found {
            Some(idx) => {
                lemma_fetch_index_unique(fetch, range.start, idx as int, other);
            },
            None => {
                assert(fetch[other].start > range.start);
            },
        }
    }
}

/// Coalescing is not seen in the result: where each fetched buffer holds the
/// bytes of its fetch range out of one underlying object, what is cut out
/// for a requested range is the bytes of that range out of the object.
pub proof fn lemma_cut_out_is_range(
    data: Seq<u8>,
    range: Range<u64>,
    fetch: Seq<Range<u64>>,
    fetched: Seq<Bytes>,
    idx: int,
)
    requires
        serves(range, fetch, fetched, idx),
        fetch[idx].start <= fetch[idx].end <= data.len(),
        bytes_contents(fetched[idx]) == data.subrange(
            fetch[idx].start as int,
            fetch[idx].end as int,
        ),
    ensures
        cut_out(range, fetch, fetched, idx) == data.subrange(
            range.start as int,
            range.end as int,
        ),
{
    assert(cut_out(range, fetch, fetched, idx) =~= data.subrange(
        range.start as int,
        range.end as int,
    ));
}

/// `piece` is the range cut out of the fetched buffer that serves it.
pub open spec fn cut_from(
    range: Range<u64>,
    fetch: Seq<Range<u64>>,
    fetched: Seq<Bytes>,
    piece: Seq<u8>,
) -> bool {
    exists|idx: int| #[trigger]
        serves(range, fetch, fetched, idx) && piece == cut_out(range, fetch, fetched, idx)
}

/// Some fetched buffer serves the range.
pub open spec fn served(range: Range<u64>, fetch: Seq<Range<u64>>, fetched: Seq<Bytes>) -> bool {
    exists|idx: int| #[trigger] serves(range, fetch, fetched, idx)
}

/// What is cut out for a range is fixed by the range and by what was
/// fetched: one buffer at most serves it.
pub proof fn lemma_cut_is_unique(
    range: Range<u64>,
    fetch: Seq<Range<u64>>,
    fetched: Seq<Bytes>,
    p: Seq<u8>,
    q: Seq<u8>,
)
    requires
        cut_from(range, fetch, fetched, p),
        cut_from(range, fetch, fetched, q),
    ensures
        p == q,
{
    let a = choose|idx: int| #[trigger]
        serves(range, fetch, fetched, idx) && p == cut_out(range, fetch, fetched, idx);
    let b = choose|idx: int| #[trigger]
        serves(range, fetch, fetched, idx) && q == cut_out(range, fetch, fetched, idx);
    lemma_fetch_index_unique(fetch, range.start, a, b);
}

/// Cuts the requested ranges out of the buffers that were fetched for the
/// coalesced ranges.
///
/// Each requested range is taken from the buffer of the last fetch range
/// that starts at or before it. The first requested range that this buffer
/// does not hold in full is reported; nothing is cut out then.
pub fn slice_fetched(
    ranges: &[Range<u64>],
    fetch_ranges: &[Range<u64>],
    fetched: &Vec<Bytes>,
) -> (result: Result<Vec<Bytes>, RangeError>)
    ensures
        match result {
            Ok(out) => {
                &&& out@.len() == ranges@.len()
                &&& forall|i: int|
                    0 <= i < ranges@.len() ==> cut_from(
                        ranges@[i],
                        fetch_ranges@,
                        fetched@,
                        bytes_contents(#[trigger] out@[i]),
                    )
            },
            Err(RangeError::NotCovered(i)) => {
                &&& i < ranges@.len()
                &&& !served(ranges@[i as int], fetch_ranges@, fetched@)
                &&& forall|k: int|
                    0 <= k < i ==> served(#[trigger] ranges@[k], fetch_ranges@, fetched@)
            },
        },
{
    let mut out: Vec<Bytes> = Vec::new();
    let mut i: usize = 0;
    while i < ranges.len()
        invariant
            i <= ranges@.len(),
            out@.len() == i,
            forall|k: int|
                0 <= k < i ==> cut_from(
                    ranges@[k],
                    fetch_ranges@,
                    fetched@,
                    bytes_contents(#[trigger] out@[k]),
                ),
            forall|k: int| 0 <= k < i ==> served(#[trigger] ranges@[k], fetch_ranges@, fetched@),
        decreases ranges.len() - i,
    {
        let start = ranges[i].start;
        let end = ranges[i].end;
        let ghost before = out@;
        let ghost range = ranges@[i as int];
        let mut piece: Option<Bytes> = None;
        let found = locate_fetch(fetch_ranges, start);
        match found {
            Some(idx) => {
                if idx < fetched.len() && start <= end {
                    let base = fetch_ranges[idx].start;
                    let len = bytes_len(&fetched[idx]);
                    if end - base <= len as u64 {
                        let begin = (start - base) as usize;
                        let finish = (end - base) as usize;
                        let bytes = bytes_slice(&fetched[idx], begin, finish);
                        proof {
                            assert(serves(range, fetch_ranges@, fetched@, idx as int));
                            assert(cut_from(
                                range,
                                fetch_ranges@,
                                fetched@,
                                bytes_contents(bytes),
                            ));
                        }
                        piece = Some(bytes);
                    }
                }
            },
            None => {},
        }
        proof {
            if piece.is_none() {
                lemma_unserved(range, fetch_ranges@, fetched@, found);
            }
        }
        match piece {
            Some(bytes) => {
                out.push(bytes);
                proof {
                    assert forall|k: int| 0 <= k < i + 1 implies cut_from(
                        ranges@[k],
                        fetch_ranges@,
                        fetched@,
                        bytes_contents(#[trigger] out@[k]),
                    ) by {
                        if k < i {
                            assert(out@[k] == before[k]);
                        }
                    }
                }
            },
            None => {
                return Err(RangeError::NotCovered(i));
            },
        }
        i += 1;
    }
    Ok(out)
}

} // verus!
