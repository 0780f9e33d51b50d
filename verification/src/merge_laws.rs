//! What the merge of sorted streams is: one output row for each key that
//! occurs in any stream, in ascending key order.

use crate::merge_model::{
    heads_at, least, lemma_least_none, lemma_rows_left_step, merged_groups, merged_rows, rows_left,
    start, MergedRowSpec,
};
use crate::merge_operator::MergeOperator;
use crate::sort_key::{key_le, key_lt, lemma_key_le_transitive, lemma_key_order_equal};
use crate::sort_key_range::RowSpec;
use vstd::prelude::*;

verus! {

/// The rows of the stream come in ascending key order; equal keys may
/// follow one another.
pub open spec fn stream_sorted(s: Seq<RowSpec>) -> bool {
    forall|a: int, b: int| 0 <= a <= b < s.len() ==> key_le(#[trigger] s[a].key, #[trigger] s[b].key)
}

/// Every stream is sorted.
pub open spec fn streams_sorted(streams: Seq<Seq<RowSpec>>) -> bool {
    forall|i: int| 0 <= i < streams.len() ==> stream_sorted(#[trigger] streams[i])
}

/// Some row of some stream has the key.
pub open spec fn has_key(streams: Seq<Seq<RowSpec>>, key: Seq<u8>) -> bool {
    exists|i: int, r: int|
        0 <= i < streams.len() && 0 <= r < streams[i].len() && (#[trigger] streams[i][r]).key
            == key
}

/// Some output row has the key.
pub open spec fn emits_key(out: Seq<MergedRowSpec>, key: Seq<u8>) -> bool {
    exists|a: int| 0 <= a < out.len() && (#[trigger] out[a]).key == key
}

/// The output rows come in strictly ascending key order.
pub open spec fn strictly_ascending(out: Seq<MergedRowSpec>) -> bool {
    forall|a: int, b: int|
        0 <= a < b < out.len() ==> key_lt((#[trigger] out[a]).key, (#[trigger] out[b]).key)
}

/// The rows of a group share one key.
spec fn uniform(group: Seq<RowSpec>) -> bool {
    forall|k: int| 0 <= k < group.len() ==> (#[trigger] group[k]).key == group[0].key
}

/// No row that is still to be taken sorts before `key`.
spec fn rest_not_before(streams: Seq<Seq<RowSpec>>, pos: Seq<int>, key: Seq<u8>) -> bool {
    forall|i: int, r: int|
        0 <= i < streams.len() && pos[i] <= r < streams[i].len() ==> key_le(
            key,
            (#[trigger] streams[i][r]).key,
        )
}

/// Each group is a tie group: not empty, and of one key.
spec fn tie_groups(groups: Seq<Seq<RowSpec>>) -> bool {
    forall|g: int| 0 <= g < groups.len() ==> (#[trigger] groups[g]).len() > 0 && uniform(groups[g])
}

/// The keys of the groups ascend strictly.
spec fn groups_ascending(groups: Seq<Seq<RowSpec>>) -> bool {
    forall|g: int, h: int|
        0 <= g < h < groups.len() ==> key_lt(
            (#[trigger] groups[g])[0].key,
            (#[trigger] groups[h])[0].key,
        )
}

/// Some group has the key.
spec fn group_of_key(groups: Seq<Seq<RowSpec>>, key: Seq<u8>) -> bool {
    exists|g: int| 0 <= g < groups.len() && (#[trigger] groups[g])[0].key == key
}

/// The positions lie within the streams.
spec fn within(streams: Seq<Seq<RowSpec>>, pos: Seq<int>) -> bool {
    &&& pos.len() == streams.len()
    &&& forall|i: int| 0 <= i < streams.len() ==> 0 <= #[trigger] pos[i] <= streams[i].len()
}

proof fn lemma_key_le_refl(k: Seq<u8>)
    ensures
        key_le(k, k),
{
    lemma_key_order_equal(k, k);
}

proof fn lemma_prepend_groups(
    streams: Seq<Seq<RowSpec>>,
    head: Seq<RowSpec>,
    rest: Seq<Seq<RowSpec>>,
)
    requires
        head.len() > 0,
        uniform(head),
        has_key(streams, head[0].key),
        tie_groups(rest),
        groups_ascending(rest),
        rest.len() > 0 ==> key_lt(head[0].key, rest[0][0].key),
        forall|g: int| 0 <= g < rest.len() ==> has_key(streams, (#[trigger] rest[g])[0].key),
    ensures
        tie_groups(seq![head] + rest),
        groups_ascending(seq![head] + rest),
        forall|g: int|
            0 <= g < (seq![head] + rest).len() ==> has_key(
                streams,
                (#[trigger] (seq![head] + rest)[g])[0].key,
            ),
        forall|key: Seq<u8>| group_of_key(rest, key) ==> group_of_key(seq![head] + rest, key),
        group_of_key(seq![head] + rest, head[0].key),
{
    let all = seq![head] + rest;
    assert forall|g: int| 0 <= g < all.len() implies (#[trigger] all[g]).len() > 0 && uniform(
        all[g],
    ) && has_key(streams, all[g][0].key) by {
        if g > 0 {
            assert(all[g] == rest[g - 1]);
        }
    }
    assert forall|g: int, h: int| 0 <= g < h < all.len() implies key_lt(
        (#[trigger] all[g])[0].key,
        (#[trigger] all[h])[0].key,
    ) by {
        assert(all[h] == rest[h - 1]);
        if g > 0 {
            assert(all[g] == rest[g - 1]);
        } else if h > 1 {
            assert(key_lt(rest[0][0].key, rest[h - 1][0].key));
            lemma_key_le_transitive(head[0].key, rest[0][0].key, rest[h - 1][0].key);
        }
    }
    assert forall|key: Seq<u8>| group_of_key(rest, key) implies group_of_key(all, key) by {
        let g = choose|g: int| 0 <= g < rest.len() && (#[trigger] rest[g])[0].key == key;
        assert(all[g + 1] == rest[g]);
    }
    assert(all[0] == head);
}

/// The tie groups of sorted streams, from any point of the merge on: each
/// has one key, the keys ascend strictly, and they are the key of the open
/// group and the keys of the rows still to be taken.
proof fn lemma_groups_of_sorted(streams: Seq<Seq<RowSpec>>, pos: Seq<int>, group: Seq<RowSpec>)
    requires
        streams_sorted(streams),
        within(streams, pos),
        uniform(group),
        group.len() > 0 ==> rest_not_before(streams, pos, group[0].key) && has_key(
            streams,
            group[0].key,
        ),
    ensures
        tie_groups(merged_groups(streams, pos, group)),
        groups_ascending(merged_groups(streams, pos, group)),
        group.len() > 0 ==> merged_groups(streams, pos, group).len() > 0 && merged_groups(
            streams,
            pos,
            group,
        )[0][0].key == group[0].key,
        forall|g: int|
            0 <= g < merged_groups(streams, pos, group).len() ==> has_key(
                streams,
                (#[trigger] merged_groups(streams, pos, group)[g])[0].key,
            ),
        forall|i: int, r: int|
            0 <= i < streams.len() && pos[i] <= r < streams[i].len() ==> group_of_key(
                merged_groups(streams, pos, group),
                (#[trigger] streams[i][r]).key,
            ),
    decreases rows_left(streams, pos),
{
    let heads = heads_at(streams, pos);
    let groups = merged_groups(streams, pos, group);
    lemma_least_none(heads);
    match least(heads) {
        Some(i) => {
            assert(heads[i].is_some());
            let row = streams[i][pos[i]];
            let next = pos.update(i, pos[i] + 1);
            lemma_rows_left_step(streams, pos, i, streams.len());
            assert(within(streams, next));
            // No row still to be taken sorts before the row taken.
            assert forall|j: int, r: int|
                0 <= j < streams.len() && pos[j] <= r < streams[j].len() implies key_le(
                row.key,
                (#[trigger] streams[j][r]).key,
            ) by {
                assert(heads[j].is_some());
                let head = streams[j][pos[j]];
                assert(heads[j] == Some(head));
                lemma_key_le_refl(row.key);
                assert(key_le(row.key, head.key));
                assert(stream_sorted(streams[j]));
                assert(key_le(streams[j][pos[j]].key, streams[j][r].key));
                lemma_key_le_transitive(row.key, head.key, streams[j][r].key);
            }
            assert(rest_not_before(streams, next, row.key));
            assert(has_key(streams, row.key));
            let opened = if group.len() > 0 && group[0].key != row.key {
                seq![row]
            } else {
                group.push(row)
            };
            assert(uniform(opened));
            assert(opened[0].key == row.key || (group.len() > 0 && opened[0].key == group[0].key
                && group[0].key == row.key));
            assert(rest_not_before(streams, next, opened[0].key));
            lemma_groups_of_sorted(streams, next, opened);
            let rest = merged_groups(streams, next, opened);
            assert(rest.len() > 0 && rest[0][0].key == row.key);
            if group.len() > 0 && group[0].key != row.key {
                assert(groups == seq![group] + rest);
                assert(key_le(group[0].key, row.key));
                lemma_key_order_equal(group[0].key, row.key);
                assert(key_lt(group[0].key, row.key));
                lemma_prepend_groups(streams, group, rest);
            } else {
                assert(groups == rest);
            }
            assert forall|j: int, r: int|
                0 <= j < streams.len() && pos[j] <= r < streams[j].len() implies group_of_key(
                groups,
                (#[trigger] streams[j][r]).key,
            ) by {
                if j == i && r == pos[i] {
                    assert(group_of_key(rest, row.key));
                } else {
                    assert(next[j] <= r);
                    assert(group_of_key(rest, streams[j][r].key));
                }
            }
        },
        None => {
            assert forall|i: int, r: int|
                0 <= i < streams.len() && pos[i] <= r < streams[i].len() implies group_of_key(
                groups,
                (#[trigger] streams[i][r]).key,
            ) by {
                assert(heads[i].is_none());
            }
            if group.len() > 0 {
                assert(groups[0] == group);
            }
        },
    }
}

/// The merge of sorted streams is sorted by key and holds exactly one row
/// for each key that occurs in any of the streams: its keys ascend strictly,
/// every key of an output row is the key of some input row, and every key of
/// an input row is the key of an output row.
pub proof fn lemma_merge_of_sorted_streams(
    operators: Seq<MergeOperator>,
    width: nat,
    streams: Seq<Seq<RowSpec>>,
)
    requires
        streams_sorted(streams),
    ensures
        strictly_ascending(merged_rows(operators, width, streams)),
        forall|a: int|
            0 <= a < merged_rows(operators, width, streams).len() ==> has_key(
                streams,
                (#[trigger] merged_rows(operators, width, streams)[a]).key,
            ),
        forall|i: int, r: int|
            0 <= i < streams.len() && 0 <= r < streams[i].len() ==> emits_key(
                merged_rows(operators, width, streams),
                (#[trigger] streams[i][r]).key,
            ),
{
    let pos = start(streams);
    let groups = merged_groups(streams, pos, Seq::empty());
    let out = merged_rows(operators, width, streams);
    lemma_groups_of_sorted(streams, pos, Seq::empty());
    assert forall|a: int, b: int| 0 <= a < b < out.len() implies key_lt(
        (#[trigger] out[a]).key,
        (#[trigger] out[b]).key,
    ) by {
        assert(key_lt(groups[a][0].key, groups[b][0].key));
    }
    assert forall|a: int| 0 <= a < out.len() implies has_key(streams, (#[trigger] out[a]).key) by {
        assert(has_key(streams, groups[a][0].key));
    }
    assert forall|i: int, r: int|
        0 <= i < streams.len() && 0 <= r < streams[i].len() implies emits_key(
        out,
        (#[trigger] streams[i][r]).key,
    ) by {
        assert(group_of_key(groups, streams[i][r].key));
        let g = choose|g: int| 0 <= g < groups.len() && (#[trigger] groups[g])[0].key
            == streams[i][r].key;
        assert(out[g].key == streams[i][r].key);
    }
}

} // verus!
