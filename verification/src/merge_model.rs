//! The mathematical model of the sorted merge.
//!
//! Each source stream is the sequence of its rows, whatever the batches they
//! came in. The merge takes, again and again, the least row that any stream
//! offers next; rows taken one after another with the same key form a tie
//! group, and each tie group resolves into one output row.

use crate::merge_operator::{resolution, Cell, MergeOperator, Resolved};
use crate::sort_key::{key_lt, lemma_key_le_transitive, lemma_key_order_equal, lemma_key_order_flip};
use crate::sort_key_range::{RowRef, RowSpec};
use vstd::prelude::*;

verus! {

/// One output row: the key of its tie group, the rows of the group in
/// order, and the outcome of each target column.
pub struct MergedRowSpec {
    pub key: Seq<u8>,
    pub members: Seq<RowRef>,
    pub cells: Seq<Resolved>,
}

/// Among the rows that the streams offer next, `i` offers the least: no
/// other row has a smaller key, and of those with the same key `i` is the
/// stream with the lowest index.
pub open spec fn is_least(heads: Seq<Option<RowSpec>>, i: int) -> bool {
    &&& 0 <= i < heads.len()
    &&& heads[i].is_some()
    &&& forall|j: int|
        0 <= j < heads.len() && (#[trigger] heads[j]).is_some() ==> key_lt(
            heads[i].unwrap().key,
            heads[j].unwrap().key,
        ) || (heads[i].unwrap().key == heads[j].unwrap().key && i <= j)
}

/// The stream that offers the least row; `None` where no stream offers one.
pub open spec fn least(heads: Seq<Option<RowSpec>>) -> Option<int> {
    if exists|i: int| is_least(heads, i) {
        Some(choose|i: int| is_least(heads, i))
    } else {
        None
    }
}

/// At most one stream offers the least row.
pub proof fn lemma_least_unique(heads: Seq<Option<RowSpec>>, i: int, j: int)
    requires
        is_least(heads, i),
        is_least(heads, j),
    ensures
        i == j,
{
    let a = heads[i].unwrap().key;
    let b = heads[j].unwrap().key;
    assert(heads[j].is_some());
    assert(heads[i].is_some());
    lemma_key_order_flip(a, b);
    lemma_key_order_equal(a, b);
}

/// A stream that is shown to offer the least row is the one that `least`
/// names.
pub proof fn lemma_least_is(heads: Seq<Option<RowSpec>>, i: int)
    requires
        is_least(heads, i),
    ensures
        least(heads) == Some(i),
{
    lemma_least_unique(heads, i, choose|k: int| is_least(heads, k));
}

/// Some stream offers the least row as soon as any stream offers a row.
pub proof fn lemma_least_exists(heads: Seq<Option<RowSpec>>, k: int)
    requires
        0 <= k <= heads.len(),
    ensures
        (forall|j: int| 0 <= j < k ==> heads[j].is_none()) || exists|i: int|
            0 <= i < k && is_least(heads.take(k), i),
    decreases k,
{
    if k > 0 {
        lemma_least_exists(heads, k - 1);
        let now = heads.take(k);
        let before = heads.take(k - 1);
        if forall|j: int| 0 <= j < k - 1 ==> heads[j].is_none() {
            if heads[k - 1].is_some() {
                assert forall|j: int| 0 <= j < now.len() && (#[trigger] now[j]).is_some() implies j
                    == k - 1 by {
                    assert(now[j] == heads[j]);
                }
                lemma_key_order_equal(now[k - 1].unwrap().key, now[k - 1].unwrap().key);
                assert(is_least(now, k - 1));
            }
        } else {
            let b = choose|i: int| 0 <= i < k - 1 && is_least(before, i);
            let best = before[b].unwrap().key;
            assert(now[b] == before[b]);
            if heads[k - 1].is_some() && key_lt(heads[k - 1].unwrap().key, best) {
                let mine = heads[k - 1].unwrap().key;
                assert forall|j: int| 0 <= j < now.len() && (#[trigger] now[j]).is_some() implies key_lt(
                    mine,
                    now[j].unwrap().key,
                ) || (mine == now[j].unwrap().key && k - 1 <= j) by {
                    if j < k - 1 {
                        assert(now[j] == before[j]);
                        assert(before[j].is_some());
                        lemma_key_order_equal(best, now[j].unwrap().key);
                        lemma_key_le_transitive(mine, best, now[j].unwrap().key);
                    }
                }
                assert(is_least(now, k - 1));
            } else {
                assert forall|j: int| 0 <= j < now.len() && (#[trigger] now[j]).is_some() implies key_lt(
                    best,
                    now[j].unwrap().key,
                ) || (best == now[j].unwrap().key && b <= j) by {
                    if j < k - 1 {
                        assert(now[j] == before[j]);
                        assert(before[j].is_some());
                    } else {
                        let mine = heads[k - 1].unwrap().key;
                        lemma_key_order_flip(mine, best);
                        lemma_key_order_equal(mine, best);
                    }
                }
                assert(is_least(now, b));
            }
        }
    }
}

/// `least` names no stream exactly when no stream offers a row.
pub proof fn lemma_least_none(heads: Seq<Option<RowSpec>>)
    ensures
        least(heads).is_none() <==> forall|j: int| 0 <= j < heads.len() ==> heads[j].is_none(),
        least(heads) matches Some(i) ==> is_least(heads, i),
{
    lemma_least_exists(heads, heads.len() as int);
    assert(heads.take(heads.len() as int) == heads);
    if exists|i: int| is_least(heads, i) {
        let i = choose|i: int| is_least(heads, i);
        assert(heads[i].is_some());
    }
}

/// The row that each stream offers next when `pos[i]` rows of stream `i`
/// have been taken.
pub open spec fn heads_at(streams: Seq<Seq<RowSpec>>, pos: Seq<int>) -> Seq<Option<RowSpec>> {
    Seq::new(
        streams.len(),
        |i: int|
            if 0 <= pos[i] < streams[i].len() {
                Some(streams[i][pos[i]])
            } else {
                None
            },
    )
}

/// The rows of the first `k` streams that have not been taken.
pub open spec fn rows_left_upto(streams: Seq<Seq<RowSpec>>, pos: Seq<int>, k: nat) -> nat
    decreases k,
{
    if k == 0 {
        0
    } else {
        let here: nat = if 0 <= pos[k - 1] < streams[k - 1].len() {
            (streams[k - 1].len() - pos[k - 1]) as nat
        } else {
            0
        };
        rows_left_upto(streams, pos, (k - 1) as nat) + here
    }
}

/// The rows that have not been taken.
pub open spec fn rows_left(streams: Seq<Seq<RowSpec>>, pos: Seq<int>) -> nat {
    rows_left_upto(streams, pos, streams.len())
}

/// Taking a row of stream `i` leaves one row less.
pub proof fn lemma_rows_left_step(streams: Seq<Seq<RowSpec>>, pos: Seq<int>, i: int, k: nat)
    requires
        pos.len() == streams.len(),
        0 <= i < streams.len(),
        0 <= pos[i] < streams[i].len(),
        k <= streams.len(),
    ensures
        rows_left_upto(streams, pos.update(i, pos[i] + 1), k) + (if i < k {
            1nat
        } else {
            0nat
        }) == rows_left_upto(streams, pos, k),
    decreases k,
{
    if k > 0 {
        lemma_rows_left_step(streams, pos, i, (k - 1) as nat);
    }
}

/// The tie groups that the merge forms from the rows not yet taken, when
/// `group` holds the rows of the group that is open.
///
/// The least row offered is taken next. It joins the open group if it has
/// the group's key; otherwise the group is closed and the row opens the next
/// one. When no row is left, the open group is the last.
pub open spec fn merged_groups(streams: Seq<Seq<RowSpec>>, pos: Seq<int>, group: Seq<RowSpec>) -> Seq<
    Seq<RowSpec>,
>
    decreases rows_left(streams, pos),
    when pos.len() == streams.len()
    via merged_groups_decreases
{
    match least(heads_at(streams, pos)) {
        Some(i) => {
            let row = streams[i][pos[i]];
            let next = pos.update(i, pos[i] + 1);
            if group.len() > 0 && group[0].key != row.key {
                seq![group] + merged_groups(streams, next, seq![row])
            } else {
                merged_groups(streams, next, group.push(row))
            }
        },
        None => if group.len() > 0 {
            seq![group]
        } else {
            Seq::empty()
        },
    }
}

#[via_fn]
proof fn merged_groups_decreases(streams: Seq<Seq<RowSpec>>, pos: Seq<int>, group: Seq<RowSpec>) {
    let heads = heads_at(streams, pos);
    lemma_least_none(heads);
    if let Some(i) = least(heads) {
        assert(heads[i].is_some());
        lemma_rows_left_step(streams, pos, i, streams.len());
    }
}

/// The candidates of target column `t`: the values that the rows of a tie
/// group have there, in the order of the group.
pub open spec fn candidates(group: Seq<RowSpec>, t: int) -> Seq<Option<Cell>> {
    Seq::new(group.len(), |k: int| group[k].cells[t])
}

/// The operator of target column `t`: the one configured at that position,
/// `KeepFirst` where none is.
pub open spec fn operator_for(operators: Seq<MergeOperator>, t: int) -> MergeOperator {
    if 0 <= t < operators.len() {
        operators[t]
    } else {
        MergeOperator::KeepFirst
    }
}

/// The output row of a tie group.
pub open spec fn resolved_group(operators: Seq<MergeOperator>, width: nat, group: Seq<RowSpec>) -> MergedRowSpec {
    MergedRowSpec {
        key: group[0].key,
        members: Seq::new(group.len(), |k: int| group[k].source),
        cells: Seq::new(
            width,
            |t: int| resolution(operator_for(operators, t), candidates(group, t)),
        ),
    }
}

/// The output rows of a sequence of tie groups.
pub open spec fn resolved_groups(
    operators: Seq<MergeOperator>,
    width: nat,
    groups: Seq<Seq<RowSpec>>,
) -> Seq<MergedRowSpec> {
    Seq::new(groups.len(), |k: int| resolved_group(operators, width, groups[k]))
}

/// No row of any stream has been taken.
pub open spec fn start(streams: Seq<Seq<RowSpec>>) -> Seq<int> {
    Seq::new(streams.len(), |i: int| 0int)
}

/// The merged output of the streams, row by row.
pub open spec fn merged_rows(
    operators: Seq<MergeOperator>,
    width: nat,
    streams: Seq<Seq<RowSpec>>,
) -> Seq<MergedRowSpec> {
    resolved_groups(operators, width, merged_groups(streams, start(streams), Seq::empty()))
}

} // verus!
