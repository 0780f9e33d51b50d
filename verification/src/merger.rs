//! The sorted stream merger: the state machine that keeps one live range per
//! source stream in the combiner and hands out the merged batches.
//!
//! The merger pulls nothing itself. It says which stream it needs input
//! from; the caller pulls that stream and reports a batch, the end of the
//! stream, or a failure. It remembers, as ghost state, every row it was fed
//! and every row it handed out, and holds at all times that what it handed
//! out is the beginning of the merge of whatever the streams turn out to
//! hold.

use crate::combiner::{
    closes, effective_batch_size, offered_heads, polled, rows_view, MergedRow, Polled,
    RangeCombiner, RangeCombinerResult,
};
use crate::merge_model::{
    heads_at, least, lemma_least_none, lemma_rows_left_step, merged_groups, merged_rows,
    resolved_group, resolved_groups, rows_left, start, MergedRowSpec,
};
use crate::merge_operator::MergeOperator;
use crate::schema::{index_of, is_index_of, is_missing, lemma_found};
use crate::sort_key_range::{RowSpec, SortKeyRange, SourceBatch};
use vstd::prelude::*;

verus! {

/// Where a source stream stands.
#[derive(Clone, Copy, Debug, PartialEq, Eq, Structural)]
pub enum StreamPhase {
    /// The stream has no live range and has not ended: its next batch must
    /// be pulled before the merge can go on.
    Awaiting,
    /// A range of the stream is live in the combiner.
    Live,
    /// The stream has ended.
    Exhausted,
}

/// Why the merger turned a call down.
#[derive(Clone, Copy, Debug, PartialEq, Eq, Structural)]
pub enum MergeError {
    /// Stream `stream` has no column named like primary key `key`.
    MissingPrimaryKey { stream: usize, key: usize },
    /// Field `field` of stream `stream` is no column of the target schema.
    FieldNotInTarget { stream: usize, field: usize },
    /// The merger has no stream of that index.
    UnknownStream,
    /// The stream was not waiting for input.
    NotAwaited,
    /// A column of the batch has not one value for each row.
    MalformedBatch,
    /// The batch counter is used up.
    TooManyBatches,
    /// The merger was aborted.
    Aborted,
}

/// What the merger does next.
pub enum MergeStep {
    /// The next batch of this stream must be pulled and reported.
    Pull(usize),
    /// A batch of merged rows.
    Batch(Vec<MergedRow>),
    /// Every stream has ended and every row has been handed out.
    Done,
    /// A pull failed earlier: the merge has ended without a result.
    Aborted,
}

/// The rows of stream `i` that have been taken into tie groups.
pub open spec fn taken_of(fed: Seq<Seq<RowSpec>>, offered: Seq<Option<Seq<RowSpec>>>) -> Seq<int> {
    Seq::new(
        fed.len(),
        |i: int|
            fed[i].len() - (match offered[i] {
                Some(rows) => rows.len() as int,
                None => 0,
            }),
    )
}

/// `full` is what the streams may turn out to hold, given what was fed so
/// far: each stream begins with what was fed of it, and a stream that has
/// ended holds nothing more.
pub open spec fn extends(fed: Seq<Seq<RowSpec>>, phases: Seq<StreamPhase>, full: Seq<Seq<RowSpec>>) -> bool {
    &&& full.len() == fed.len()
    &&& forall|i: int|
        0 <= i < fed.len() ==> fed[i].len() <= (#[trigger] full[i]).len() && full[i].take(
            fed[i].len() as int,
        ) == fed[i]
    &&& forall|i: int|
        0 <= i < fed.len() && phases[i] == StreamPhase::Exhausted ==> #[trigger] full[i] == fed[i]
}

/// The live ranges hold the tails of what was fed: a stream is live exactly
/// when the combiner has a range of it, and that range offers the last rows
/// fed of the stream.
pub open spec fn linked(
    fed: Seq<Seq<RowSpec>>,
    phases: Seq<StreamPhase>,
    offered: Seq<Option<Seq<RowSpec>>>,
) -> bool {
    &&& phases.len() == fed.len()
    &&& offered.len() == fed.len()
    &&& forall|i: int|
        0 <= i < fed.len() ==> (phases[i] == StreamPhase::Live <==> (#[trigger] offered[i]).is_some())
    &&& forall|i: int|
        0 <= i < fed.len() ==> (#[trigger] offered[i] matches Some(rows) ==> 0 < rows.len()
            <= fed[i].len() && fed[i].skip(fed[i].len() - rows.len()) == rows)
}

/// No stream waits for input.
pub open spec fn none_awaiting(phases: Seq<StreamPhase>) -> bool {
    forall|i: int| 0 <= i < phases.len() ==> #[trigger] phases[i] != StreamPhase::Awaiting
}

/// Every stream has ended.
pub open spec fn all_exhausted(phases: Seq<StreamPhase>) -> bool {
    forall|i: int| 0 <= i < phases.len() ==> #[trigger] phases[i] == StreamPhase::Exhausted
}

/// Whatever the streams turn out to hold, their merge is what was handed
/// out, then what is held back, then the merge of what has not been taken,
/// continued from the open tie group.
pub open spec fn accounted(
    operators: Seq<MergeOperator>,
    width: nat,
    fed: Seq<Seq<RowSpec>>,
    phases: Seq<StreamPhase>,
    offered: Seq<Option<Seq<RowSpec>>>,
    group: Seq<RowSpec>,
    pending: Seq<MergedRowSpec>,
    emitted: Seq<MergedRowSpec>,
) -> bool {
    forall|full: Seq<Seq<RowSpec>>|
        extends(fed, phases, full) ==> #[trigger] merged_rows(operators, width, full) == emitted
            + pending + resolved_groups(
            operators,
            width,
            merged_groups(full, taken_of(fed, offered), group),
        )
}

/// The rows that the streams offer next are the rows that the live ranges
/// offer, once no stream waits for input.
proof fn lemma_heads_agree(
    fed: Seq<Seq<RowSpec>>,
    phases: Seq<StreamPhase>,
    offered: Seq<Option<Seq<RowSpec>>>,
    full: Seq<Seq<RowSpec>>,
)
    requires
        linked(fed, phases, offered),
        none_awaiting(phases),
        extends(fed, phases, full),
    ensures
        heads_at(full, taken_of(fed, offered)) == offered_heads(offered),
{
    let taken = taken_of(fed, offered);
    let a = heads_at(full, taken);
    let b = offered_heads(offered);
    assert forall|i: int| 0 <= i < a.len() implies a[i] == b[i] by {
        assert(full[i].take(fed[i].len() as int) == fed[i]);
        match offered[i] {
            Some(rows) => {
                let at = fed[i].len() - rows.len();
                assert(fed[i].skip(at)[0] == rows[0]);
                assert(full[i].take(fed[i].len() as int)[at] == full[i][at]);
            },
            None => {
                assert(phases[i] != StreamPhase::Awaiting);
                assert(phases[i] == StreamPhase::Exhausted);
                assert(full[i] == fed[i]);
            },
        }
    }
    assert(a =~= b);
}

/// The output rows of a group followed by further groups.
proof fn lemma_resolved_prepend(
    operators: Seq<MergeOperator>,
    width: nat,
    group: Seq<RowSpec>,
    rest: Seq<Seq<RowSpec>>,
)
    ensures
        resolved_groups(operators, width, seq![group] + rest) == seq![
            resolved_group(operators, width, group),
        ] + resolved_groups(operators, width, rest),
{
    let a = resolved_groups(operators, width, seq![group] + rest);
    let b = seq![resolved_group(operators, width, group)] + resolved_groups(operators, width, rest);
    assert forall|k: int| 0 <= k < a.len() implies a[k] == b[k] by {
        if k > 0 {
            assert((seq![group] + rest)[k] == rest[k - 1]);
        }
    }
    assert(a =~= b);
}

/// Taking the least row offered keeps the account.
proof fn lemma_took(
    operators: Seq<MergeOperator>,
    width: nat,
    fed: Seq<Seq<RowSpec>>,
    phases: Seq<StreamPhase>,
    offered: Seq<Option<Seq<RowSpec>>>,
    group: Seq<RowSpec>,
    pending: Seq<MergedRowSpec>,
    emitted: Seq<MergedRowSpec>,
    s: int,
    phases2: Seq<StreamPhase>,
    offered2: Seq<Option<Seq<RowSpec>>>,
)
    requires
        linked(fed, phases, offered),
        none_awaiting(phases),
        accounted(operators, width, fed, phases, offered, group, pending, emitted),
        least(offered_heads(offered)) == Some(s),
        0 <= s < fed.len(),
        offered[s].is_some(),
        offered2 == offered.update(
            s,
            if offered[s].unwrap().len() > 1 {
                Some(offered[s].unwrap().drop_first())
            } else {
                None
            },
        ),
        phases2 == phases.update(
            s,
            if offered[s].unwrap().len() > 1 {
                StreamPhase::Live
            } else {
                StreamPhase::Awaiting
            },
        ),
    ensures
        linked(fed, phases2, offered2),
        accounted(
            operators,
            width,
            fed,
            phases2,
            offered2,
            if closes(group, offered[s].unwrap()[0]) {
                seq![offered[s].unwrap()[0]]
            } else {
                group.push(offered[s].unwrap()[0])
            },
            if closes(group, offered[s].unwrap()[0]) {
                pending.push(resolved_group(operators, width, group))
            } else {
                pending
            },
            emitted,
        ),
        taken_of(fed, offered2) == taken_of(fed, offered).update(
            s,
            taken_of(fed, offered)[s] + 1,
        ),
        0 <= taken_of(fed, offered)[s] < fed[s].len(),
{
    let rows = offered[s].unwrap();
    let row = rows[0];
    let taken = taken_of(fed, offered);
    let taken2 = taken_of(fed, offered2);
    assert(taken2 =~= taken.update(s, taken[s] + 1));
    assert forall|i: int| 0 <= i < fed.len() implies (#[trigger] offered2[i] matches Some(r)
        ==> 0 < r.len() <= fed[i].len() && fed[i].skip(fed[i].len() - r.len()) == r) by {
        if i == s && rows.len() > 1 {
            let r = rows.drop_first();
            assert(fed[s].skip(fed[s].len() - r.len()) =~= fed[s].skip(
                fed[s].len() - rows.len(),
            ).drop_first());
        }
    }
    assert(linked(fed, phases2, offered2));
    let group2 = if closes(group, row) {
        seq![row]
    } else {
        group.push(row)
    };
    let pending2 = if closes(group, row) {
        pending.push(resolved_group(operators, width, group))
    } else {
        pending
    };
    assert forall|full: Seq<Seq<RowSpec>>| extends(fed, phases2, full) implies #[trigger] merged_rows(
        operators,
        width,
        full,
    ) == emitted + pending2 + resolved_groups(
        operators,
        width,
        merged_groups(full, taken2, group2),
    ) by {
        assert(extends(fed, phases, full)) by {
            assert forall|i: int|
                0 <= i < fed.len() && phases[i] == StreamPhase::Exhausted implies #[trigger] full[i]
                == fed[i] by {
                assert(phases2[i] == StreamPhase::Exhausted);
            }
        }
        lemma_heads_agree(fed, phases, offered, full);
        assert(taken.len() == full.len());
        assert(full[s].take(fed[s].len() as int) == fed[s]);
        assert(fed[s].skip(fed[s].len() - rows.len())[0] == rows[0]);
        assert(full[s].take(fed[s].len() as int)[taken[s]] == full[s][taken[s]]);
        assert(full[s][taken[s]] == row);
        let before = merged_groups(full, taken, group);
        let after = merged_groups(full, taken2, group2);
        if closes(group, row) {
            assert(before == seq![group] + after);
            lemma_resolved_prepend(operators, width, group, after);
            assert(emitted + pending + (seq![resolved_group(operators, width, group)]
                + resolved_groups(operators, width, after)) =~= emitted + pending2
                + resolved_groups(operators, width, after));
        } else {
            assert(before == after);
        }
    }
}

/// Once every stream has ended and all its rows are taken, the open group is
/// all that is left to merge.
proof fn lemma_drained(
    fed: Seq<Seq<RowSpec>>,
    phases: Seq<StreamPhase>,
    offered: Seq<Option<Seq<RowSpec>>>,
    group: Seq<RowSpec>,
    full: Seq<Seq<RowSpec>>,
)
    requires
        linked(fed, phases, offered),
        none_awaiting(phases),
        least(offered_heads(offered)).is_none(),
        extends(fed, phases, full),
    ensures
        all_exhausted(phases),
        full == fed,
        merged_groups(full, taken_of(fed, offered), group) == if group.len() > 0 {
            seq![group]
        } else {
            Seq::<Seq<RowSpec>>::empty()
        },
{
    let heads = offered_heads(offered);
    lemma_least_none(heads);
    assert forall|i: int| 0 <= i < phases.len() implies #[trigger] phases[i]
        == StreamPhase::Exhausted by {
        assert(heads[i].is_none());
        assert(offered[i].is_none());
        assert(phases[i] != StreamPhase::Awaiting);
    }
    assert(full =~= fed);
    lemma_heads_agree(fed, phases, offered, full);
    assert(taken_of(fed, offered).len() == full.len());
}

/// The merger of sorted streams.
pub struct SortedStreamMerger {
    range_combiner: RangeCombiner,
    phases: Vec<StreamPhase>,
    aborted: bool,
    batch_idx_counter: usize,
    is_partial_merge: bool,
    fed: Ghost<Seq<Seq<RowSpec>>>,
    emitted: Ghost<Seq<MergedRowSpec>>,
}

/// `map` sends each field of a source schema to its column in the target
/// schema.
pub open spec fn is_field_map(source: Seq<String>, target: Seq<String>, map: Seq<usize>) -> bool {
    &&& map.len() == source.len()
    &&& forall|f: int| 0 <= f < source.len() ==> is_index_of(target, source[f], #[trigger] map[f] as int)
}

/// The first field of the source schema that the target schema lacks is
/// field `f`.
pub open spec fn first_unmapped(source: Seq<String>, target: Seq<String>, f: int) -> bool {
    &&& 0 <= f < source.len()
    &&& is_missing(target, source[f])
    &&& forall|g: int| 0 <= g < f ==> !is_missing(target, #[trigger] source[g])
}

/// Maps the fields of a source schema into the target schema; on failure
/// gives the first field that the target schema lacks.
pub fn build_field_map(source: &Vec<String>, target: &Vec<String>) -> (result: Result<
    Vec<usize>,
    usize,
>)
    ensures
        match result {
            Ok(map) => is_field_map(source@, target@, map@),
            Err(f) => first_unmapped(source@, target@, f as int),
        },
{
    let mut map: Vec<usize> = Vec::new();
    let mut f: usize = 0;
    while f < source.len()
        invariant
            f <= source@.len(),
            map@.len() == f,
            forall|g: int| 0 <= g < f ==> is_index_of(target@, source@[g], #[trigger] map@[g] as int),
        decreases source.len() - f,
    {
        match index_of(target, &source[f]) {
            Some(t) => {
                map.push(t);
            },
            None => {
                proof {
                    assert forall|g: int| 0 <= g < f implies !is_missing(
                        target@,
                        #[trigger] source@[g],
                    ) by {
                        assert(is_index_of(target@, source@[g], map@[g] as int));
                    }
                }
                return Err(f);
            },
        }
        f += 1;
    }
    Ok(map)
}

/// The first primary key that a stream's schema lacks, streams taken in
/// order and keys in order within a stream.
pub open spec fn first_missing_key(
    schemas: Seq<Vec<String>>,
    keys: Seq<String>,
    stream: int,
    key: int,
) -> bool {
    &&& 0 <= stream < schemas.len()
    &&& 0 <= key < keys.len()
    &&& is_missing(schemas[stream]@, keys[key])
    &&& forall|k: int| 0 <= k < key ==> !is_missing(schemas[stream]@, #[trigger] keys[k])
    &&& forall|s: int, k: int|
        0 <= s < stream && 0 <= k < keys.len() ==> !is_missing(
            (#[trigger] schemas[s])@,
            #[trigger] keys[k],
        )
}

/// Every stream has every primary key.
pub open spec fn keys_present(schemas: Seq<Vec<String>>, keys: Seq<String>) -> bool {
    forall|s: int, k: int|
        0 <= s < schemas.len() && 0 <= k < keys.len() ==> !is_missing(
            (#[trigger] schemas[s])@,
            #[trigger] keys[k],
        )
}

/// The first field of any stream that the target schema lacks, streams
/// taken in order.
pub open spec fn first_unmapped_field(
    schemas: Seq<Vec<String>>,
    target: Seq<String>,
    stream: int,
    field: int,
) -> bool {
    &&& 0 <= stream < schemas.len()
    &&& first_unmapped(schemas[stream]@, target, field)
    &&& forall|s: int, f: int|
        0 <= s < stream && 0 <= f < schemas[s]@.len() ==> !is_missing(
            target,
            #[trigger] schemas[s]@[f],
        )
}

/// Every field of every stream is a column of the target schema.
pub open spec fn fields_mapped(schemas: Seq<Vec<String>>, target: Seq<String>) -> bool {
    forall|s: int, f: int|
        0 <= s < schemas.len() && 0 <= f < schemas[s]@.len() ==> !is_missing(
            target,
            #[trigger] schemas[s]@[f],
        )
}

/// Some stream carries fewer columns than the target schema has.
pub open spec fn partial(maps: Seq<Seq<usize>>, width: nat) -> bool {
    exists|s: int| 0 <= s < maps.len() && (#[trigger] maps[s]).len() != width
}

/// Checks that every stream has every primary key.
fn check_keys(schemas: &Vec<Vec<String>>, keys: &Vec<String>) -> (result: Result<(), (usize, usize)>)
    ensures
        match result {
            Ok(_) => keys_present(schemas@, keys@),
            Err((s, k)) => first_missing_key(schemas@, keys@, s as int, k as int),
        },
{
    let mut s: usize = 0;
    while s < schemas.len()
        invariant
            s <= schemas@.len(),
            forall|a: int, k: int|
                0 <= a < s && 0 <= k < keys@.len() ==> !is_missing(
                    (#[trigger] schemas@[a])@,
                    #[trigger] keys@[k],
                ),
        decreases schemas.len() - s,
    {
        let mut k: usize = 0;
        while k < keys.len()
            invariant
                s < schemas@.len(),
                k <= keys@.len(),
                forall|a: int, k: int|
                    0 <= a < s && 0 <= k < keys@.len() ==> !is_missing(
                        (#[trigger] schemas@[a])@,
                        #[trigger] keys@[k],
                    ),
                forall|b: int| 0 <= b < k ==> !is_missing(schemas@[s as int]@, #[trigger] keys@[b]),
            decreases keys.len() - k,
        {
            match index_of(&schemas[s], &keys[k]) {
                Some(at) => {
                    proof {
                        lemma_found(schemas@[s as int]@, keys@[k as int], at as int);
                    }
                },
                None => {
                    return Err((s, k));
                },
            }
            k += 1;
        }
        s += 1;
    }
    Ok(())
}

impl SortedStreamMerger {
    /// The number of streams.
    pub closed spec fn streams(&self) -> nat {
        self.phases@.len()
    }

    /// Where each stream stands.
    pub closed spec fn phases(&self) -> Seq<StreamPhase> {
        self.phases@
    }

    /// For each stream, the target column of each of its source columns.
    pub closed spec fn field_maps(&self) -> Seq<Seq<usize>> {
        self.range_combiner.field_maps()
    }

    /// The number of columns of the target schema.
    pub closed spec fn width(&self) -> nat {
        self.range_combiner.target_width()
    }

    /// The number of rows of a full output batch.
    pub closed spec fn batch_size(&self) -> nat {
        self.range_combiner.batch_size()
    }

    /// The operators, positionally aligned with the target schema.
    pub closed spec fn operators(&self) -> Seq<MergeOperator> {
        self.range_combiner.operators()
    }

    /// A pull has failed.
    pub closed spec fn is_aborted(&self) -> bool {
        self.aborted
    }

    /// The sequence number given to the last batch that was taken in.
    pub closed spec fn batches(&self) -> nat {
        self.batch_idx_counter as nat
    }

    /// Some stream carries fewer columns than the target schema has.
    pub closed spec fn partial_merge(&self) -> bool {
        self.is_partial_merge
    }

    /// For each stream the rows that it has been fed, in order.
    pub closed spec fn fed(&self) -> Seq<Seq<RowSpec>> {
        self.fed@
    }

    /// The rows handed out so far, in order.
    pub closed spec fn emitted(&self) -> Seq<MergedRowSpec> {
        self.emitted@
    }

    /// For each stream the rows fed of it that have not been taken into a
    /// tie group.
    pub closed spec fn offered(&self) -> Seq<Option<Seq<RowSpec>>> {
        self.range_combiner.offered()
    }

    /// The merger is consistent, and what it has handed out is the
    /// beginning of the merge of whatever its streams turn out to hold.
    pub closed spec fn wf(&self) -> bool {
        &&& self.range_combiner.wf()
        &&& self.fed@.len() == self.phases@.len()
        &&& linked(self.fed@, self.phases@, self.range_combiner.offered())
        &&& accounted(
            self.range_combiner.operators(),
            self.range_combiner.target_width(),
            self.fed@,
            self.phases@,
            self.range_combiner.offered(),
            self.range_combiner.open_group(),
            self.range_combiner.pending(),
            self.emitted@,
        )
    }

    /// What `wf` says: every stream has its phase, its fed rows, its slot for
    /// a live range and its field map; the live ranges hold the tails of
    /// what was fed; and the rows handed out so far are the beginning of the
    /// merge of whatever the streams turn out to hold.
    pub proof fn lemma_wf(&self)
        requires
            self.wf(),
        ensures
            self.phases().len() == self.streams(),
            self.fed().len() == self.streams(),
            self.offered().len() == self.streams(),
            self.field_maps().len() == self.streams(),
            linked(self.fed(), self.phases(), self.offered()),
            forall|full: Seq<Seq<RowSpec>>|
                extends(self.fed(), self.phases(), full) ==> self.emitted().is_prefix_of(
                    #[trigger] merged_rows(self.operators(), self.width(), full),
                ),
    {
        self.range_combiner.lemma_wf();
        assert forall|full: Seq<Seq<RowSpec>>|
            extends(self.fed(), self.phases(), full) implies self.emitted().is_prefix_of(
            #[trigger] merged_rows(self.operators(), self.width(), full),
        ) by {
            let all = merged_rows(self.operators(), self.width(), full);
            let rest = self.range_combiner.pending() + resolved_groups(
                self.operators(),
                self.width(),
                merged_groups(
                    full,
                    taken_of(self.fed(), self.offered()),
                    self.range_combiner.open_group(),
                ),
            );
            assert(all =~= self.emitted() + rest);
            assert(all.subrange(0, self.emitted().len() as int) =~= self.emitted());
        }
    }

    /// A merger for streams with the given schemas, each a list of field
    /// names, merging into `target_schema`.
    ///
    /// Every stream must carry every primary key, and every field of every
    /// stream must be a column of the target schema; the first offender is
    /// reported, missing keys before unmapped fields. Each field goes to the
    /// first target column of its name. Output batches hold `batch_size`
    /// rows, and at least one.
    pub fn new_from_streams(
        stream_schemas: Vec<Vec<String>>,
        target_schema: Vec<String>,
        primary_keys: Vec<String>,
        batch_size: usize,
        merge_operator: Vec<MergeOperator>,
    ) -> (result: Result<SortedStreamMerger, MergeError>)
        ensures
            match result {
                Ok(m) => {
                    &&& keys_present(stream_schemas@, primary_keys@)
                    &&& fields_mapped(stream_schemas@, target_schema@)
                    &&& m.wf()
                    &&& m.streams() == stream_schemas@.len()
                    &&& m.width() == target_schema@.len()
                    &&& m.batch_size() == effective_batch_size(batch_size)
                    &&& m.operators() == merge_operator@
                    &&& m.field_maps().len() == stream_schemas@.len()
                    &&& forall|s: int|
                        0 <= s < stream_schemas@.len() ==> is_field_map(
                            stream_schemas@[s]@,
                            target_schema@,
                            #[trigger] m.field_maps()[s],
                        )
                    &&& m.partial_merge() == partial(m.field_maps(), target_schema@.len())
                    &&& m.phases() == Seq::new(
                        stream_schemas@.len(),
                        |i: int| StreamPhase::Awaiting,
                    )
                    &&& m.fed() == Seq::new(
                        stream_schemas@.len(),
                        |i: int| Seq::<RowSpec>::empty(),
                    )
                    &&& m.emitted() == Seq::<MergedRowSpec>::empty()
                    &&& !m.is_aborted()
                    &&& m.batches() == 0
                },
                Err(MergeError::MissingPrimaryKey { stream, key }) => first_missing_key(
                    stream_schemas@,
                    primary_keys@,
                    stream as int,
                    key as int,
                ),
                Err(MergeError::FieldNotInTarget { stream, field }) => keys_present(
                    stream_schemas@,
                    primary_keys@,
                ) && first_unmapped_field(
                    stream_schemas@,
                    target_schema@,
                    stream as int,
                    field as int,
                ),
                Err(_) => false,
            },
    {
        match check_keys(&stream_schemas, &primary_keys) {
            Ok(_) => {},
            Err((stream, key)) => {
                return Err(MergeError::MissingPrimaryKey { stream, key });
            },
        }
        let streams_num = stream_schemas.len();
        let width = target_schema.len();
        let mut fields_map: Vec<Vec<usize>> = Vec::new();
        let mut phases: Vec<StreamPhase> = Vec::new();
        let mut is_partial_merge = false;
        let mut s: usize = 0;
        while s < streams_num
            invariant
                keys_present(stream_schemas@, primary_keys@),
                streams_num == stream_schemas@.len(),
                width == target_schema@.len(),
                s <= streams_num,
                fields_map@.len() == s,
                phases@ == Seq::new(s as nat, |i: int| StreamPhase::Awaiting),
                forall|a: int|
                    0 <= a < s ==> is_field_map(
                        stream_schemas@[a]@,
                        target_schema@,
                        (#[trigger] fields_map@[a])@,
                    ),
                is_partial_merge == exists|a: int|
                    0 <= a < s && (#[trigger] fields_map@[a])@.len() != width,
            decreases streams_num - s,
        {
            match build_field_map(&stream_schemas[s], &target_schema) {
                Ok(map) => {
                    let ghost before = fields_map@;
                    if map.len() != width {
                        is_partial_merge = true;
                    }
                    fields_map.push(map);
                    phases.push(StreamPhase::Awaiting);
                    proof {
                        assert(phases@ =~= Seq::new((s + 1) as nat, |i: int| StreamPhase::Awaiting));
                        assert forall|a: int| 0 <= a < s implies fields_map@[a] == before[a] by {}
                        if is_partial_merge {
                            if map@.len() != width {
                                assert(fields_map@[s as int]@.len() != width);
                            } else {
                                let a = choose|a: int|
                                    0 <= a < s && (#[trigger] before[a])@.len() != width;
                                assert(fields_map@[a]@.len() != width);
                            }
                        } else {
                            assert forall|a: int| 0 <= a < s + 1 implies (
                            #[trigger] fields_map@[a])@.len() == width by {
                                if a < s {
                                    assert(before[a]@.len() == width);
                                }
                            }
                        }
                    }
                },
                Err(field) => {
                    proof {
                        assert forall|a: int, f: int|
                            0 <= a < s && 0 <= f < stream_schemas@[a]@.len() implies !is_missing(
                            target_schema@,
                            #[trigger] stream_schemas@[a]@[f],
                        ) by {
                            assert(is_index_of(
                                target_schema@,
                                stream_schemas@[a]@[f],
                                fields_map@[a]@[f] as int,
                            ));
                        }
                    }
                    return Err(MergeError::FieldNotInTarget { stream: s, field });
                },
            }
            s += 1;
        }
        proof {
            assert forall|a: int, f: int|
                0 <= a < stream_schemas@.len() && 0 <= f < stream_schemas@[a]@.len() implies !is_missing(
                target_schema@,
                #[trigger] stream_schemas@[a]@[f],
            ) by {
                assert(is_index_of(
                    target_schema@,
                    stream_schemas@[a]@[f],
                    fields_map@[a]@[f] as int,
                ));
            }
        }
        let ghost maps = Seq::new(fields_map@.len(), |i: int| fields_map@[i]@);
        let range_combiner = RangeCombiner::new(width, fields_map, batch_size, merge_operator);
        let ghost fed = Seq::new(streams_num as nat, |i: int| Seq::<RowSpec>::empty());
        let merger = SortedStreamMerger {
            range_combiner,
            phases,
            aborted: false,
            batch_idx_counter: 0,
            is_partial_merge,
            fed: Ghost(fed),
            emitted: Ghost(Seq::empty()),
        };
        proof {
            assert(merger.field_maps() == maps);
            assert(merger.partial_merge() == partial(maps, width as nat)) by {
                if is_partial_merge {
                    let a = choose|a: int|
                        0 <= a < streams_num && (#[trigger] fields_map@[a])@.len() != width;
                    assert(maps[a].len() != width);
                } else if partial(maps, width as nat) {
                    let a = choose|a: int|
                        0 <= a < maps.len() && (#[trigger] maps[a]).len() != width;
                    assert(fields_map@[a]@.len() != width);
                }
            }
            let offered = merger.range_combiner.offered();
            let taken = taken_of(fed, offered);
            assert(linked(fed, merger.phases@, offered));
            assert forall|full: Seq<Seq<RowSpec>>|
                extends(fed, merger.phases@, full) implies #[trigger] merged_rows(
                merge_operator@,
                width as nat,
                full,
            ) == Seq::<MergedRowSpec>::empty() + Seq::<MergedRowSpec>::empty()
                + resolved_groups(
                merge_operator@,
                width as nat,
                merged_groups(full, taken, Seq::<RowSpec>::empty()),
            ) by {
                assert(taken =~= start(full));
                assert(Seq::<MergedRowSpec>::empty() + Seq::<MergedRowSpec>::empty()
                    + merged_rows(merge_operator@, width as nat, full) =~= merged_rows(
                    merge_operator@,
                    width as nat,
                    full,
                ));
            }
        }
        Ok(merger)
    }

    /// The number of streams.
    pub fn num_streams(&self) -> (n: usize)
        ensures
            n == self.streams(),
    {
        self.phases.len()
    }

    /// For each source column of stream `stream`, its column in the target
    /// schema; `None` for an index that names no stream.
    pub fn field_map(&self, stream: usize) -> (map: Option<&Vec<usize>>)
        ensures
            map.is_some() == (stream < self.field_maps().len()),
            map matches Some(m) ==> m@ == self.field_maps()[stream as int],
    {
        self.range_combiner.field_map(stream)
    }

    /// Where stream `stream` stands; `None` for an index that names no
    /// stream.
    pub fn phase(&self, stream: usize) -> (p: Option<StreamPhase>)
        ensures
            p == if stream < self.streams() {
                Some(self.phases()[stream as int])
            } else {
                None
            },
    {
        if stream < self.phases.len() {
            Some(self.phases[stream])
        } else {
            None
        }
    }

    /// Whether the next batch of stream `stream` must be pulled before the
    /// merge can go on. After a failure no stream is pulled again.
    pub fn awaits(&self, stream: usize) -> (b: bool)
        ensures
            b == (!self.is_aborted() && stream < self.streams() && self.phases()[stream as int]
                == StreamPhase::Awaiting),
    {
        !self.aborted && stream < self.phases.len() && match self.phases[stream] {
            StreamPhase::Awaiting => true,
            _ => false,
        }
    }

    /// Whether a pull has failed.
    pub fn aborted(&self) -> (b: bool)
        ensures
            b == self.is_aborted(),
    {
        self.aborted
    }

    /// Whether some stream carries fewer columns than the target schema has.
    pub fn is_partial_merge(&self) -> (b: bool)
        ensures
            b == self.partial_merge(),
    {
        self.is_partial_merge
    }

    /// Takes in the batch that a pull of stream `stream` gave.
    ///
    /// A batch without rows changes nothing: the stream goes on waiting for
    /// its next batch. Any other batch is given the next sequence number,
    /// which is handed back, and becomes the live range of its stream.
    pub fn push_batch(&mut self, stream: usize, batch: SourceBatch) -> (result: Result<
        Option<usize>,
        MergeError,
    >)
        requires
            old(self).wf(),
        ensures
            final(self).wf(),
            final(self).field_maps() == old(self).field_maps(),
            final(self).width() == old(self).width(),
            final(self).batch_size() == old(self).batch_size(),
            final(self).operators() == old(self).operators(),
            final(self).partial_merge() == old(self).partial_merge(),
            final(self).streams() == old(self).streams(),
            final(self).emitted() == old(self).emitted(),
            final(self).is_aborted() == old(self).is_aborted(),
            result == (if old(self).is_aborted() {
                Err(MergeError::Aborted)
            } else if stream >= old(self).streams() {
                Err(MergeError::UnknownStream)
            } else if old(self).phases()[stream as int] != StreamPhase::Awaiting {
                Err(MergeError::NotAwaited)
            } else if !batch.well_formed() {
                Err(MergeError::MalformedBatch)
            } else if batch.rows() == 0 {
                Ok(None)
            } else if old(self).batches() == usize::MAX {
                Err(MergeError::TooManyBatches)
            } else {
                Ok(Some((old(self).batches() + 1) as usize))
            }),
            result.is_err() || batch.rows() == 0 ==> {
                &&& final(self).phases() == old(self).phases()
                &&& final(self).fed() == old(self).fed()
                &&& final(self).offered() == old(self).offered()
                &&& final(self).batches() == old(self).batches()
            },
            result.is_ok() && batch.rows() > 0 ==> {
                &&& final(self).batches() == old(self).batches() + 1
                &&& final(self).phases() == old(self).phases().update(
                    stream as int,
                    StreamPhase::Live,
                )
                &&& final(self).fed() == old(self).fed().update(
                    stream as int,
                    old(self).fed()[stream as int] + batch.rows_from(
                        stream,
                        (old(self).batches() + 1) as usize,
                        0,
                        old(self).field_maps()[stream as int],
                        old(self).width(),
                    ),
                )
                &&& final(self).offered() == old(self).offered().update(
                    stream as int,
                    Some(
                        batch.rows_from(
                            stream,
                            (old(self).batches() + 1) as usize,
                            0,
                            old(self).field_maps()[stream as int],
                            old(self).width(),
                        ),
                    ),
                )
            },
    {
        if self.aborted {
            return Err(MergeError::Aborted);
        }
        if stream >= self.phases.len() {
            return Err(MergeError::UnknownStream);
        }
        match self.phases[stream] {
            StreamPhase::Awaiting => {},
            _ => {
                return Err(MergeError::NotAwaited);
            },
        }
        if !batch.is_well_formed() {
            return Err(MergeError::MalformedBatch);
        }
        if batch.num_rows() == 0 {
            return Ok(None);
        }
        if self.batch_idx_counter == usize::MAX {
            return Err(MergeError::TooManyBatches);
        }
        let ghost before_fed = self.fed@;
        let ghost before_offered = self.range_combiner.offered();
        let ghost before_phases = self.phases@;
        let ghost operators = self.range_combiner.operators();
        let ghost width = self.range_combiner.target_width();
        let ghost group = self.range_combiner.open_group();
        let ghost pending = self.range_combiner.pending();
        proof {
            self.range_combiner.lemma_wf();
        }
        self.batch_idx_counter = self.batch_idx_counter + 1;
        let ghost rows = batch.rows_from(
            stream,
            self.batch_idx_counter,
            0,
            self.range_combiner.field_maps()[stream as int],
            width,
        );
        match SortKeyRange::new(stream, self.batch_idx_counter, batch) {
            Some(range) => {
                assert(range.remaining(self.range_combiner.field_maps()[stream as int], width) == rows);
                let accepted = self.range_combiner.push_range(range);
                assert(accepted);
                self.phases.set(stream, StreamPhase::Live);
                self.fed = Ghost(before_fed.update(stream as int, before_fed[stream as int] + rows));
                proof {
                    let fed = self.fed@;
                    let offered = self.range_combiner.offered();
                    let phases = self.phases@;
                    assert(fed[stream as int].skip(fed[stream as int].len() - rows.len()) =~= rows);
                    assert(linked(fed, phases, offered));
                    assert(taken_of(fed, offered) =~= taken_of(before_fed, before_offered));
                    assert forall|full: Seq<Seq<RowSpec>>|
                        extends(fed, phases, full) implies #[trigger] merged_rows(
                        operators,
                        width,
                        full,
                    ) == self.emitted@ + pending + resolved_groups(
                        operators,
                        width,
                        merged_groups(full, taken_of(fed, offered), group),
                    ) by {
                        assert forall|i: int| 0 <= i < before_fed.len() implies before_fed[i].len()
                            <= (#[trigger] full[i]).len() && full[i].take(
                            before_fed[i].len() as int,
                        ) == before_fed[i] by {
                            assert(full[i].take(fed[i].len() as int) == fed[i]);
                            if i == stream {
                                assert(full[i].take(before_fed[i].len() as int) =~= fed[i].take(
                                    before_fed[i].len() as int,
                                ));
                                assert(fed[i].take(before_fed[i].len() as int) =~= before_fed[i]);
                            }
                        }
                        assert forall|i: int|
                            0 <= i < before_fed.len() && before_phases[i]
                                == StreamPhase::Exhausted implies #[trigger] full[i]
                            == before_fed[i] by {
                            assert(phases[i] == StreamPhase::Exhausted);
                        }
                        assert(extends(before_fed, before_phases, full));
                    }
                }
                Ok(Some(self.batch_idx_counter))
            },
            None => Err(MergeError::MalformedBatch),
        }
    }

    /// Takes note that stream `stream` has ended.
    pub fn end_of_stream(&mut self, stream: usize) -> (result: Result<(), MergeError>)
        requires
            old(self).wf(),
        ensures
            final(self).wf(),
            final(self).field_maps() == old(self).field_maps(),
            final(self).width() == old(self).width(),
            final(self).batch_size() == old(self).batch_size(),
            final(self).operators() == old(self).operators(),
            final(self).partial_merge() == old(self).partial_merge(),
            final(self).streams() == old(self).streams(),
            final(self).emitted() == old(self).emitted(),
            final(self).fed() == old(self).fed(),
            final(self).offered() == old(self).offered(),
            final(self).batches() == old(self).batches(),
            final(self).is_aborted() == old(self).is_aborted(),
            result == (if old(self).is_aborted() {
                Err(MergeError::Aborted)
            } else if stream >= old(self).streams() {
                Err(MergeError::UnknownStream)
            } else if old(self).phases()[stream as int] == StreamPhase::Live {
                Err(MergeError::NotAwaited)
            } else {
                Ok(())
            }),
            final(self).phases() == if result.is_ok() {
                old(self).phases().update(stream as int, StreamPhase::Exhausted)
            } else {
                old(self).phases()
            },
    {
        if self.aborted {
            return Err(MergeError::Aborted);
        }
        if stream >= self.phases.len() {
            return Err(MergeError::UnknownStream);
        }
        match self.phases[stream] {
            StreamPhase::Live => {
                return Err(MergeError::NotAwaited);
            },
            _ => {},
        }
        let ghost before_phases = self.phases@;
        self.phases.set(stream, StreamPhase::Exhausted);
        proof {
            let fed = self.fed@;
            let offered = self.range_combiner.offered();
            assert(linked(fed, self.phases@, offered));
            assert forall|full: Seq<Seq<RowSpec>>|
                extends(fed, self.phases@, full) implies #[trigger] merged_rows(
                self.range_combiner.operators(),
                self.range_combiner.target_width(),
                full,
            ) == self.emitted@ + self.range_combiner.pending() + resolved_groups(
                self.range_combiner.operators(),
                self.range_combiner.target_width(),
                merged_groups(full, taken_of(fed, offered), self.range_combiner.open_group()),
            ) by {
                assert forall|i: int|
                    0 <= i < fed.len() && before_phases[i]
                        == StreamPhase::Exhausted implies #[trigger] full[i] == fed[i] by {
                    assert(self.phases@[i] == StreamPhase::Exhausted);
                }
                assert(extends(fed, before_phases, full));
            }
        }
        Ok(())
    }

    /// Takes note that a pull has failed. The merge ends without a result:
    /// no stream is pulled again and no batch is handed out.
    pub fn abort(&mut self)
        requires
            old(self).wf(),
        ensures
            final(self).wf(),
            final(self).is_aborted(),
            final(self).field_maps() == old(self).field_maps(),
            final(self).width() == old(self).width(),
            final(self).batch_size() == old(self).batch_size(),
            final(self).operators() == old(self).operators(),
            final(self).partial_merge() == old(self).partial_merge(),
            final(self).streams() == old(self).streams(),
            final(self).phases() == old(self).phases(),
            final(self).emitted() == old(self).emitted(),
            final(self).fed() == old(self).fed(),
            final(self).offered() == old(self).offered(),
            final(self).batches() == old(self).batches(),
    {
        self.aborted = true;
    }

    /// The lowest stream that waits for input.
    fn first_awaiting(&self) -> (found: Option<usize>)
        ensures
            found matches Some(i) ==> i < self.phases@.len() && self.phases@[i as int]
                == StreamPhase::Awaiting && forall|j: int|
                0 <= j < i ==> self.phases@[j] != StreamPhase::Awaiting,
            found.is_none() ==> none_awaiting(self.phases@),
    {
        let mut i: usize = 0;
        while i < self.phases.len()
            invariant
                i <= self.phases@.len(),
                forall|j: int| 0 <= j < i ==> self.phases@[j] != StreamPhase::Awaiting,
            decreases self.phases.len() - i,
        {
            match self.phases[i] {
                StreamPhase::Awaiting => {
                    return Some(i);
                },
                _ => {},
            }
            i += 1;
        }
        None
    }

    /// Goes on with the merge until something is to be done outside.
    ///
    /// While a stream waits for input, the lowest such stream is named and
    /// nothing else happens. Otherwise rows are taken in key order until a
    /// batch is full, a live range runs out and its stream must be pulled, or
    /// nothing is left. A batch holds the rows that follow those handed out
    /// before; it is full unless every stream has ended. At `Done` the rows
    /// handed out are the merge of the rows fed.
    pub fn poll_next(&mut self) -> (step: MergeStep)
        requires
            old(self).wf(),
        ensures
            final(self).wf(),
            final(self).field_maps() == old(self).field_maps(),
            final(self).width() == old(self).width(),
            final(self).batch_size() == old(self).batch_size(),
            final(self).operators() == old(self).operators(),
            final(self).partial_merge() == old(self).partial_merge(),
            final(self).streams() == old(self).streams(),
            final(self).fed() == old(self).fed(),
            final(self).batches() == old(self).batches(),
            final(self).is_aborted() == old(self).is_aborted(),
            (step is Aborted) == old(self).is_aborted(),
            match step {
                MergeStep::Aborted => {
                    &&& final(self).phases() == old(self).phases()
                    &&& final(self).offered() == old(self).offered()
                    &&& final(self).emitted() == old(self).emitted()
                },
                MergeStep::Pull(i) => {
                    &&& i < final(self).streams()
                    &&& final(self).phases()[i as int] == StreamPhase::Awaiting
                    &&& final(self).emitted() == old(self).emitted()
                    &&& !none_awaiting(old(self).phases()) ==> {
                        &&& final(self).phases() == old(self).phases()
                        &&& final(self).offered() == old(self).offered()
                        &&& forall|j: int|
                            0 <= j < i ==> old(self).phases()[j] != StreamPhase::Awaiting
                    }
                    &&& none_awaiting(old(self).phases()) ==> {
                        &&& old(self).phases()[i as int] == StreamPhase::Live
                        &&& final(self).phases() == old(self).phases().update(
                            i as int,
                            StreamPhase::Awaiting,
                        )
                    }
                },
                MergeStep::Batch(rows) => {
                    &&& none_awaiting(old(self).phases())
                    &&& final(self).phases() == old(self).phases()
                    &&& final(self).emitted() == old(self).emitted() + rows_view(rows@)
                    &&& 0 < rows@.len() <= final(self).batch_size()
                    &&& rows@.len() == final(self).batch_size() || all_exhausted(
                        final(self).phases(),
                    )
                },
                MergeStep::Done => {
                    &&& final(self).phases() == old(self).phases()
                    &&& all_exhausted(final(self).phases())
                    &&& final(self).emitted() == old(self).emitted()
                    &&& final(self).emitted() == merged_rows(
                        final(self).operators(),
                        final(self).width(),
                        final(self).fed(),
                    )
                },
            },
    {
        if self.aborted {
            return MergeStep::Aborted;
        }
        match self.first_awaiting() {
            Some(i) => {
                return MergeStep::Pull(i);
            },
            None => {},
        }
        let ghost operators = self.range_combiner.operators();
        let ghost width = self.range_combiner.target_width();
        let ghost batch_size = self.range_combiner.batch_size();
        let ghost fed = self.fed@;
        loop
            invariant
                self.wf(),
                !self.aborted,
                !old(self).aborted,
                none_awaiting(self.phases@),
                self.phases@ == old(self).phases@,
                self.fed@ == fed,
                fed == old(self).fed@,
                self.emitted@ == old(self).emitted@,
                self.batch_idx_counter == old(self).batch_idx_counter,
                self.is_partial_merge == old(self).is_partial_merge,
                self.range_combiner.field_maps() == old(self).range_combiner.field_maps(),
                self.range_combiner.operators() == operators,
                self.range_combiner.target_width() == width,
                self.range_combiner.batch_size() == batch_size,
                operators == old(self).range_combiner.operators(),
                width == old(self).range_combiner.target_width(),
                batch_size == old(self).range_combiner.batch_size(),
            decreases rows_left(self.fed@, taken_of(self.fed@, self.range_combiner.offered())),
        {
            let ghost offered = self.range_combiner.offered();
            let ghost group = self.range_combiner.open_group();
            let ghost pending = self.range_combiner.pending();
            let ghost phases = self.phases@;
            let ghost emitted = self.emitted@;
            let ghost before = self.range_combiner.state();
            proof {
                self.range_combiner.lemma_wf();
            }
            match self.range_combiner.poll_result() {
                RangeCombinerResult::Drained => {
                    proof {
                        assert(polled(before, operators, width, batch_size).1 == Polled::Idle);
                        assert(pending.len() != batch_size);
                        assert(least(offered_heads(offered)).is_none());
                        assert(group.len() == 0);
                        assert(pending.len() == 0);
                        assert(extends(fed, phases, fed)) by {
                            assert forall|i: int| 0 <= i < fed.len() implies fed[i].len() <= (
                            #[trigger] fed[i]).len() && fed[i].take(fed[i].len() as int)
                                == fed[i] by {
                                assert(fed[i].take(fed[i].len() as int) =~= fed[i]);
                            }
                        }
                        lemma_drained(fed, phases, offered, group, fed);
                        assert(emitted + pending + resolved_groups(
                            operators,
                            width,
                            Seq::<Seq<RowSpec>>::empty(),
                        ) =~= emitted);
                        assert(self.range_combiner.offered() == offered);
                        assert(self.range_combiner.open_group() =~= group);
                        assert(self.range_combiner.pending() =~= pending);
                    }
                    return MergeStep::Done;
                },
                RangeCombinerResult::Range(range) => {
                    let s = range.stream_idx();
                    let ghost rows = offered[s as int].unwrap();
                    let ghost rest = range.remaining(
                        self.range_combiner.field_maps()[s as int],
                        width,
                    );
                    let finished = range.is_finished();
                    proof {
                        assert(polled(before, operators, width, batch_size).1 == (Polled::Took {
                            stream: s as int,
                            rest,
                        }));
                        assert(pending.len() != batch_size);
                        assert(least(offered_heads(offered)) == Some(s as int));
                        lemma_least_none(offered_heads(offered));
                        assert(offered_heads(offered)[s as int].is_some());
                        assert(offered[s as int].is_some());
                        assert(rest == rows.drop_first());
                        assert(finished == (rest.len() == 0));
                    }
                    let ghost offered2 = offered.update(
                        s as int,
                        if rows.len() > 1 {
                            Some(rest)
                        } else {
                            None
                        },
                    );
                    let ghost phases2 = phases.update(
                        s as int,
                        if rows.len() > 1 {
                            StreamPhase::Live
                        } else {
                            StreamPhase::Awaiting
                        },
                    );
                    proof {
                        lemma_took(
                            operators,
                            width,
                            fed,
                            phases,
                            offered,
                            group,
                            pending,
                            emitted,
                            s as int,
                            phases2,
                            offered2,
                        );
                        lemma_rows_left_step(
                            fed,
                            taken_of(fed, offered),
                            s as int,
                            fed.len(),
                        );
                    }
                    if !finished {
                        let accepted = self.range_combiner.push_range(range);
                        proof {
                            assert(accepted);
                            assert(self.range_combiner.offered() =~= offered2);
                            assert(phases2 =~= phases);
                        }
                    } else {
                        self.phases.set(s, StreamPhase::Awaiting);
                        proof {
                            assert(self.range_combiner.offered() =~= offered2);
                            assert(self.phases@ =~= phases2);
                        }
                        return MergeStep::Pull(s);
                    }
                },
                RangeCombinerResult::RecordBatch(rows) => {
                    let ghost out = rows_view(rows@);
                    self.emitted = Ghost(emitted + out);
                    proof {
                        let after = polled(before, operators, width, batch_size);
                        assert(after.1 == Polled::Emitted(out));
                        assert(self.range_combiner.offered() == offered);
                        if pending.len() == batch_size {
                            assert(out == pending);
                            assert forall|full: Seq<Seq<RowSpec>>|
                                extends(fed, phases, full) implies #[trigger] merged_rows(
                                operators,
                                width,
                                full,
                            ) == emitted + out + Seq::<MergedRowSpec>::empty() + resolved_groups(
                                operators,
                                width,
                                merged_groups(full, taken_of(fed, offered), group),
                            ) by {
                                assert(emitted + out + Seq::<MergedRowSpec>::empty() =~= emitted
                                    + pending);
                            }
                        } else {
                            assert(least(offered_heads(offered)).is_none());
                            let closed = if group.len() > 0 {
                                pending.push(resolved_group(operators, width, group))
                            } else {
                                pending
                            };
                            assert(out == closed);
                            assert forall|full: Seq<Seq<RowSpec>>|
                                extends(fed, phases, full) implies #[trigger] merged_rows(
                                operators,
                                width,
                                full,
                            ) == emitted + out + Seq::<MergedRowSpec>::empty() + resolved_groups(
                                operators,
                                width,
                                merged_groups(
                                    full,
                                    taken_of(fed, offered),
                                    Seq::<RowSpec>::empty(),
                                ),
                            ) by {
                                lemma_drained(fed, phases, offered, group, full);
                                lemma_drained(fed, phases, offered, Seq::<RowSpec>::empty(), full);
                                if group.len() > 0 {
                                    lemma_resolved_prepend(
                                        operators,
                                        width,
                                        group,
                                        Seq::<Seq<RowSpec>>::empty(),
                                    );
                                    assert(seq![group] + Seq::<Seq<RowSpec>>::empty() =~= seq![
                                        group,
                                    ]);
                                }
                                assert(emitted + out + Seq::<MergedRowSpec>::empty()
                                    + resolved_groups(
                                    operators,
                                    width,
                                    Seq::<Seq<RowSpec>>::empty(),
                                ) =~= emitted + pending + resolved_groups(
                                    operators,
                                    width,
                                    merged_groups(full, taken_of(fed, offered), group),
                                ));
                            }
                            assert(extends(fed, phases, fed)) by {
                                assert forall|i: int| 0 <= i < fed.len() implies fed[i].len() <= (
                                #[trigger] fed[i]).len() && fed[i].take(fed[i].len() as int)
                                    == fed[i] by {
                                    assert(fed[i].take(fed[i].len() as int) =~= fed[i]);
                                }
                            }
                            lemma_drained(fed, phases, offered, group, fed);
                        }
                    }
                    return MergeStep::Batch(rows);
                },
            }
        }
    }
}

} // verus!
