//! The range combiner: a reducer over the live ranges of the source streams.
//!
//! It holds at most one live range per stream, takes the least current row,
//! gathers rows tied on one key into a tie group, resolves each closed group
//! column by column, and hands the resolved rows out in batches.

use crate::merge_model::{
    candidates, is_least, least, lemma_least_is, lemma_least_none, operator_for, resolved_group,
    MergedRowSpec,
};
use crate::merge_operator::{Cell, MergeOperator, Resolved};
use crate::sort_key::{compare_keys, key_lt, lemma_key_order_equal, lemma_key_order_flip, KeyOrder};
use crate::sort_key_range::{RowRef, RowSpec, SortKeyRange};
use vstd::prelude::*;

verus! {

/// One output row: the key of its tie group, the rows of the group in
/// order, and the outcome of each target column. An outcome `Take(i)`
/// names the group's row `members[i]`.
#[derive(Debug)]
pub struct MergedRow {
    pub key: Vec<u8>,
    pub members: Vec<RowRef>,
    pub cells: Vec<Resolved>,
}

impl View for MergedRow {
    type V = MergedRowSpec;

    open spec fn view(&self) -> MergedRowSpec {
        MergedRowSpec { key: self.key@, members: self.members@, cells: self.cells@ }
    }
}

/// The rows of a batch as the model sees them.
pub open spec fn rows_view(rows: Seq<MergedRow>) -> Seq<MergedRowSpec> {
    Seq::new(rows.len(), |k: int| rows[k]@)
}

/// A row of the open tie group.
struct GroupRow {
    source: RowRef,
    cells: Vec<Option<Cell>>,
}

/// What one poll of the combiner gives.
pub enum RangeCombinerResult {
    /// No range is live and no row is held back.
    Drained,
    /// A row of this range was taken and the range moved on. It is handed
    /// back to its owner, who pushes it again or, if it is finished, pulls
    /// the next range of its stream.
    Range(SortKeyRange),
    /// A completed batch of output rows.
    RecordBatch(Vec<MergedRow>),
}

/// What the combiner holds, as the model sees it.
pub struct CombinerState {
    /// For each stream the rows that its live range still offers.
    pub offered: Seq<Option<Seq<RowSpec>>>,
    /// The rows of the open tie group.
    pub group: Seq<RowSpec>,
    /// The resolved rows that have not been handed out.
    pub pending: Seq<MergedRowSpec>,
}

/// What one poll does, as the model sees it.
pub enum Polled {
    Idle,
    Took { stream: int, rest: Seq<RowSpec> },
    Emitted(Seq<MergedRowSpec>),
}

/// The row that each stream offers next.
pub open spec fn offered_heads(offered: Seq<Option<Seq<RowSpec>>>) -> Seq<Option<RowSpec>> {
    Seq::new(
        offered.len(),
        |i: int|
            match offered[i] {
                Some(rows) => Some(rows[0]),
                None => None,
            },
    )
}

/// `row` does not belong to the open group.
pub open spec fn closes(group: Seq<RowSpec>, row: RowSpec) -> bool {
    group.len() > 0 && group[0].key != row.key
}

/// One poll.
///
/// A full accumulator is handed out first. Otherwise the least row offered
/// is taken: it closes the open group if its key differs, and joins the group
/// that is then open. When nothing is offered, the open group is closed and
/// what has accumulated is handed out.
pub open spec fn polled(
    s: CombinerState,
    operators: Seq<MergeOperator>,
    width: nat,
    batch_size: nat,
) -> (CombinerState, Polled) {
    if s.pending.len() == batch_size {
        (
            CombinerState { offered: s.offered, group: s.group, pending: Seq::empty() },
            Polled::Emitted(s.pending),
        )
    } else {
        match least(offered_heads(s.offered)) {
            Some(i) => {
                let rows = s.offered[i].unwrap();
                let row = rows[0];
                (
                    CombinerState {
                        offered: s.offered.update(i, None),
                        group: if closes(s.group, row) {
                            seq![row]
                        } else {
                            s.group.push(row)
                        },
                        pending: if closes(s.group, row) {
                            s.pending.push(resolved_group(operators, width, s.group))
                        } else {
                            s.pending
                        },
                    },
                    Polled::Took { stream: i, rest: rows.drop_first() },
                )
            },
            None => {
                let pending = if s.group.len() > 0 {
                    s.pending.push(resolved_group(operators, width, s.group))
                } else {
                    s.pending
                };
                if pending.len() > 0 {
                    (
                        CombinerState {
                            offered: s.offered,
                            group: Seq::empty(),
                            pending: Seq::empty(),
                        },
                        Polled::Emitted(pending),
                    )
                } else {
                    (
                        CombinerState { offered: s.offered, group: Seq::empty(), pending },
                        Polled::Idle,
                    )
                }
            },
        }
    }
}

/// The combiner of sorted ranges.
pub struct RangeCombiner {
    fields_map: Vec<Vec<usize>>,
    width: usize,
    target_batch_size: usize,
    merge_operator: Vec<MergeOperator>,
    slots: Vec<Option<SortKeyRange>>,
    group_key: Vec<u8>,
    group: Vec<GroupRow>,
    in_progress: Vec<MergedRow>,
}

/// The number of rows of a full batch for a configured batch size: a batch
/// holds at least one row.
pub open spec fn effective_batch_size(configured: usize) -> nat {
    if configured == 0 {
        1
    } else {
        configured as nat
    }
}

impl RangeCombiner {
    /// For each stream, the target column of each of its source columns.
    pub closed spec fn field_maps(&self) -> Seq<Seq<usize>> {
        Seq::new(self.fields_map@.len(), |i: int| self.fields_map@[i]@)
    }

    /// The number of columns of the target schema.
    pub closed spec fn target_width(&self) -> nat {
        self.width as nat
    }

    /// The number of rows of a full output batch.
    pub closed spec fn batch_size(&self) -> nat {
        self.target_batch_size as nat
    }

    /// The operators, positionally aligned with the target schema.
    pub closed spec fn operators(&self) -> Seq<MergeOperator> {
        self.merge_operator@
    }

    /// For each stream the rows that its live range still offers.
    pub closed spec fn offered(&self) -> Seq<Option<Seq<RowSpec>>> {
        Seq::new(
            self.slots@.len(),
            |i: int|
                match self.slots@[i] {
                    Some(r) => Some(r.remaining(self.fields_map@[i]@, self.width as nat)),
                    None => None,
                },
        )
    }

    /// The rows of the open tie group.
    pub closed spec fn open_group(&self) -> Seq<RowSpec> {
        Seq::new(
            self.group@.len(),
            |k: int|
                RowSpec {
                    key: self.group_key@,
                    source: self.group@[k].source,
                    cells: self.group@[k].cells@,
                },
        )
    }

    /// The resolved rows that have not been handed out.
    pub closed spec fn pending(&self) -> Seq<MergedRowSpec> {
        rows_view(self.in_progress@)
    }

    /// What the combiner holds.
    pub open spec fn state(&self) -> CombinerState {
        CombinerState {
            offered: self.offered(),
            group: self.open_group(),
            pending: self.pending(),
        }
    }

    /// The combiner is consistent: one slot for each stream, each live
    /// range in the slot of its stream and not finished, and never more rows
    /// held back than a batch takes.
    pub closed spec fn wf(&self) -> bool {
        &&& self.slots@.len() == self.fields_map@.len()
        &&& self.target_batch_size > 0
        &&& self.in_progress@.len() <= self.target_batch_size
        &&& forall|i: int|
            0 <= i < self.slots@.len() ==> (#[trigger] self.slots@[i] matches Some(r)
                ==> r.stream() == i && !r.finished() && r.batch().well_formed())
        &&& forall|k: int|
            0 <= k < self.group@.len() ==> (#[trigger] self.group@[k]).cells@.len() == self.width
    }

    /// What `wf` says of the model: a live range offers at least one row, and
    /// the rows of the open group share one key.
    pub proof fn lemma_wf(&self)
        requires
            self.wf(),
        ensures
            self.offered().len() == self.field_maps().len(),
            self.batch_size() > 0,
            self.pending().len() <= self.batch_size(),
            forall|i: int|
                0 <= i < self.offered().len() ==> (#[trigger] self.offered()[i] matches Some(rows)
                    ==> rows.len() > 0),
            forall|k: int|
                0 <= k < self.open_group().len() ==> (#[trigger] self.open_group()[k]).key
                    == self.open_group()[0].key,
    {
        assert forall|i: int| 0 <= i < self.offered().len() implies (
        #[trigger] self.offered()[i] matches Some(rows) ==> rows.len() > 0) by {
            if let Some(r) = self.slots@[i] {
                assert(!r.finished());
            }
        }
    }

    /// A combiner for `fields_map.len()` streams and a target schema of
    /// `width` columns.
    ///
    /// A batch is handed out as soon as it holds `target_batch_size` rows,
    /// and it holds at least one: a batch size of zero is taken as one.
    pub fn new(
        width: usize,
        fields_map: Vec<Vec<usize>>,
        target_batch_size: usize,
        merge_operator: Vec<MergeOperator>,
    ) -> (c: RangeCombiner)
        ensures
            c.wf(),
            c.field_maps() == Seq::new(fields_map@.len(), |i: int| fields_map@[i]@),
            c.target_width() == width,
            c.batch_size() == effective_batch_size(target_batch_size),
            c.operators() == merge_operator@,
            c.offered() == Seq::new(fields_map@.len(), |i: int| None::<Seq<RowSpec>>),
            c.open_group() == Seq::<RowSpec>::empty(),
            c.pending() == Seq::<MergedRowSpec>::empty(),
    {
        let target_batch_size = if target_batch_size == 0 {
            1
        } else {
            target_batch_size
        };
        let mut slots: Vec<Option<SortKeyRange>> = Vec::new();
        let mut i: usize = 0;
        while i < fields_map.len()
            invariant
                i <= fields_map@.len(),
                slots@.len() == i,
                forall|j: int| 0 <= j < i ==> (#[trigger] slots@[j]).is_none(),
            decreases fields_map.len() - i,
        {
            slots.push(None);
            i += 1;
        }
        let combiner = RangeCombiner {
            fields_map,
            width,
            target_batch_size,
            merge_operator,
            slots,
            group_key: Vec::new(),
            group: Vec::new(),
            in_progress: Vec::new(),
        };
        assert(combiner.offered() == Seq::new(
            combiner.fields_map@.len(),
            |i: int| None::<Seq<RowSpec>>,
        ));
        assert(combiner.open_group() == Seq::<RowSpec>::empty());
        assert(combiner.pending() == Seq::<MergedRowSpec>::empty());
        combiner
    }

    /// The number of streams.
    pub fn num_streams(&self) -> (n: usize)
        requires
            self.wf(),
        ensures
            n == self.field_maps().len(),
            n == self.offered().len(),
    {
        self.slots.len()
    }

    /// For each source column of stream `stream`, its column in the target
    /// schema; `None` for an index that names no stream.
    pub fn field_map(&self, stream: usize) -> (map: Option<&Vec<usize>>)
        ensures
            map.is_some() == (stream < self.field_maps().len()),
            map matches Some(m) ==> m@ == self.field_maps()[stream as int],
    {
        if stream < self.fields_map.len() {
            Some(&self.fields_map[stream])
        } else {
            None
        }
    }

    /// Whether stream `stream` has a live range here.
    pub fn has_range(&self, stream: usize) -> (b: bool)
        requires
            self.wf(),
        ensures
            b == (stream < self.offered().len() && self.offered()[stream as int].is_some()),
    {
        stream < self.slots.len() && self.slots[stream].is_some()
    }

    /// Takes a live range into the slot of its stream.
    ///
    /// The range is turned away, and the combiner left as it was, if the
    /// range is finished, names no stream of the merge, or its stream has a
    /// live range already.
    pub fn push_range(&mut self, range: SortKeyRange) -> (accepted: bool)
        requires
            old(self).wf(),
        ensures
            final(self).wf(),
            final(self).field_maps() == old(self).field_maps(),
            final(self).target_width() == old(self).target_width(),
            final(self).batch_size() == old(self).batch_size(),
            final(self).operators() == old(self).operators(),
            final(self).open_group() == old(self).open_group(),
            final(self).pending() == old(self).pending(),
            accepted == (!range.finished() && range.stream() < old(self).offered().len() && old(
                self,
            ).offered()[range.stream() as int].is_none()),
            accepted ==> final(self).offered() == old(self).offered().update(
                range.stream() as int,
                Some(
                    range.remaining(
                        old(self).field_maps()[range.stream() as int],
                        old(self).target_width(),
                    ),
                ),
            ),
            !accepted ==> final(self).offered() == old(self).offered(),
    {
        let stream = range.stream_idx();
        if range.is_finished() || stream >= self.slots.len() || self.slots[stream].is_some() {
            return false;
        }
        self.slots.set(stream, Some(range));
        proof {
            assert(final(self).offered() =~= old(self).offered().update(
                stream as int,
                Some(range.remaining(old(self).field_maps()[stream as int], old(self).target_width())),
            ));
            assert(final(self).open_group() =~= old(self).open_group());
        }
        true
    }

    /// The stream whose live range offers the least row.
    fn least_slot(&self) -> (best: Option<usize>)
        requires
            self.wf(),
        ensures
            best matches Some(i) ==> is_least(offered_heads(self.offered()), i as int),
            (match best {
                Some(i) => Some(i as int),
                None => None,
            }) == least(offered_heads(self.offered())),
    {
        let ghost heads = offered_heads(self.offered());
        let mut best: Option<usize> = None;
        let mut i: usize = 0;
        while i < self.slots.len()
            invariant
                self.wf(),
                heads == offered_heads(self.offered()),
                i <= self.slots@.len(),
                best matches Some(b) ==> b < i && is_least(heads.take(i as int), b as int),
                best.is_none() ==> forall|j: int| 0 <= j < i ==> heads[j].is_none(),
            decreases self.slots.len() - i,
        {
            let ghost before = heads.take(i as int);
            let ghost now = heads.take(i + 1);
            let mut better = false;
            match &self.slots[i] {
                Some(range) => {
                    match best {
                        Some(b) => {
                            match &self.slots[b] {
                                Some(held) => {
                                    better = range.precedes(held);
                                    proof {
                                        let mine = heads[i as int].unwrap().key;
                                        let theirs = heads[b as int].unwrap().key;
                                        assert(before[b as int] == heads[b as int]);
                                        lemma_key_order_flip(mine, theirs);
                                        lemma_key_order_equal(mine, theirs);
                                        assert(better == key_lt(mine, theirs));
                                    }
                                },
                                None => {},
                            }
                        },
                        None => {
                            better = true;
                        },
                    }
                },
                None => {},
            }
            proof {
                if better {
                    let mine = heads[i as int].unwrap().key;
                    lemma_key_order_equal(mine, mine);
                    assert forall|j: int|
                        0 <= j < now.len() && (#[trigger] now[j]).is_some() implies key_lt(
                        mine,
                        now[j].unwrap().key,
                    ) || (mine == now[j].unwrap().key && i <= j) by {
                        if j < i {
                            assert(now[j] == before[j]);
                            assert(before[j].is_some());
                            if let Some(b) = best {
                                let theirs = before[b as int].unwrap().key;
                                lemma_key_order_equal(theirs, now[j].unwrap().key);
                                crate::sort_key::lemma_key_le_transitive(
                                    mine,
                                    theirs,
                                    now[j].unwrap().key,
                                );
                            }
                        }
                    }
                    assert(is_least(now, i as int));
                } else if let Some(b) = best {
                    let theirs = before[b as int].unwrap().key;
                    assert(now[b as int] == before[b as int]);
                    assert forall|j: int|
                        0 <= j < now.len() && (#[trigger] now[j]).is_some() implies key_lt(
                        theirs,
                        now[j].unwrap().key,
                    ) || (theirs == now[j].unwrap().key && b <= j) by {
                        if j < i {
                            assert(now[j] == before[j]);
                            assert(before[j].is_some());
                        } else {
                            let mine = heads[i as int].unwrap().key;
                            lemma_key_order_flip(mine, theirs);
                            lemma_key_order_equal(mine, theirs);
                        }
                    }
                    assert(is_least(now, b as int));
                }
            }
            if better {
                best = Some(i);
            }
            i += 1;
        }
        proof {
            assert(heads.take(heads.len() as int) == heads);
            lemma_least_none(heads);
            if let Some(b) = best {
                lemma_least_is(heads, b as int);
            }
        }
        best
    }

    /// Resolves the open tie group into one row of the accumulator.
    fn close_group(&mut self)
        requires
            old(self).wf(),
            old(self).open_group().len() > 0,
            old(self).pending().len() < old(self).batch_size(),
        ensures
            final(self).wf(),
            final(self).field_maps() == old(self).field_maps(),
            final(self).target_width() == old(self).target_width(),
            final(self).batch_size() == old(self).batch_size(),
            final(self).operators() == old(self).operators(),
            final(self).offered() == old(self).offered(),
            final(self).open_group() == Seq::<RowSpec>::empty(),
            final(self).pending() == old(self).pending().push(
                resolved_group(
                    old(self).operators(),
                    old(self).target_width(),
                    old(self).open_group(),
                ),
            ),
    {
        let ghost group = self.open_group();
        let mut members: Vec<RowRef> = Vec::new();
        let mut k: usize = 0;
        while k < self.group.len()
            invariant
                k <= self.group@.len(),
                group == self.open_group(),
                members@ == Seq::new(k as nat, |j: int| group[j].source),
            decreases self.group.len() - k,
        {
            members.push(self.group[k].source);
            assert(members@ == Seq::new((k + 1) as nat, |j: int| group[j].source));
            k += 1;
        }
        let mut cells: Vec<Resolved> = Vec::new();
        let mut t: usize = 0;
        while t < self.width
            invariant
                self.wf(),
                t <= self.width,
                group == self.open_group(),
                cells@ == Seq::new(
                    t as nat,
                    |c: int|
                        crate::merge_operator::resolution(
                            operator_for(self.merge_operator@, c),
                            candidates(group, c),
                        ),
                ),
            decreases self.width - t,
        {
            let mut column: Vec<Option<Cell>> = Vec::new();
            let mut k: usize = 0;
            while k < self.group.len()
                invariant
                    self.wf(),
                    t < self.width,
                    k <= self.group@.len(),
                    group == self.open_group(),
                    column@ == Seq::new(k as nat, |j: int| group[j].cells[t as int]),
                decreases self.group.len() - k,
            {
                column.push(self.group[k].cells[t]);
                assert(column@ == Seq::new((k + 1) as nat, |j: int| group[j].cells[t as int]));
                k += 1;
            }
            assert(column@ == candidates(group, t as int));
            let operator = if t < self.merge_operator.len() {
                self.merge_operator[t]
            } else {
                MergeOperator::KeepFirst
            };
            let outcome = operator.resolve(&column);
            cells.push(outcome);
            assert(cells@ == Seq::new(
                (t + 1) as nat,
                |c: int|
                    crate::merge_operator::resolution(
                        operator_for(self.merge_operator@, c),
                        candidates(group, c),
                    ),
            ));
            t += 1;
        }
        let mut key: Vec<u8> = Vec::new();
        std::mem::swap(&mut key, &mut self.group_key);
        let row = MergedRow { key, members, cells };
        proof {
            assert(row@.members == resolved_group(
                old(self).operators(),
                old(self).target_width(),
                group,
            ).members);
            assert(row@.cells == resolved_group(
                old(self).operators(),
                old(self).target_width(),
                group,
            ).cells);
            assert(row@ == resolved_group(old(self).operators(), old(self).target_width(), group));
        }
        self.in_progress.push(row);
        self.group = Vec::new();
        proof {
            assert(final(self).pending() =~= old(self).pending().push(row@));
            assert(final(self).offered() =~= old(self).offered());
            assert(final(self).open_group() =~= Seq::<RowSpec>::empty());
        }
    }

    /// Hands out the accumulated rows.
    fn take_batch(&mut self) -> (rows: Vec<MergedRow>)
        requires
            old(self).wf(),
        ensures
            final(self).wf(),
            final(self).field_maps() == old(self).field_maps(),
            final(self).target_width() == old(self).target_width(),
            final(self).batch_size() == old(self).batch_size(),
            final(self).operators() == old(self).operators(),
            final(self).offered() == old(self).offered(),
            final(self).open_group() == old(self).open_group(),
            final(self).pending() == Seq::<MergedRowSpec>::empty(),
            rows_view(rows@) == old(self).pending(),
    {
        let mut rows: Vec<MergedRow> = Vec::new();
        std::mem::swap(&mut rows, &mut self.in_progress);
        proof {
            assert(final(self).pending() =~= Seq::<MergedRowSpec>::empty());
            assert(final(self).offered() =~= old(self).offered());
            assert(final(self).open_group() =~= old(self).open_group());
        }
        rows
    }

    /// One poll: see [`polled`].
    pub fn poll_result(&mut self) -> (result: RangeCombinerResult)
        requires
            old(self).wf(),
        ensures
            final(self).wf(),
            final(self).field_maps() == old(self).field_maps(),
            final(self).target_width() == old(self).target_width(),
            final(self).batch_size() == old(self).batch_size(),
            final(self).operators() == old(self).operators(),
            final(self).state() == polled(
                old(self).state(),
                old(self).operators(),
                old(self).target_width(),
                old(self).batch_size(),
            ).0,
            match result {
                RangeCombinerResult::Drained => polled(
                    old(self).state(),
                    old(self).operators(),
                    old(self).target_width(),
                    old(self).batch_size(),
                ).1 == Polled::Idle,
                RangeCombinerResult::Range(range) => range.stream() < old(self).offered().len()
                    && range.batch().well_formed() && polled(
                    old(self).state(),
                    old(self).operators(),
                    old(self).target_width(),
                    old(self).batch_size(),
                ).1 == (Polled::Took {
                    stream: range.stream() as int,
                    rest: range.remaining(
                        old(self).field_maps()[range.stream() as int],
                        old(self).target_width(),
                    ),
                }),
                RangeCombinerResult::RecordBatch(rows) => polled(
                    old(self).state(),
                    old(self).operators(),
                    old(self).target_width(),
                    old(self).batch_size(),
                ).1 == Polled::Emitted(rows_view(rows@)),
            },
    {
        if self.in_progress.len() == self.target_batch_size {
            let rows = self.take_batch();
            return RangeCombinerResult::RecordBatch(rows);
        }
        match self.least_slot() {
            Some(i) => {
                let ghost before = self.state();
                let ghost rows = before.offered[i as int].unwrap();
                let taken = self.slots[i].take();
                proof {
                    assert(self.offered() =~= before.offered.update(i as int, None));
                    assert(self.open_group() =~= before.group);
                }
                match taken {
                    Some(mut range) => {
                        let differs = match range.current_key() {
                            Some(key) => compare_keys(key.as_slice(), self.group_key.as_slice())
                                != KeyOrder::Equal,
                            None => false,
                        };
                        let ghost row = rows[0];
                        let ghost map = old(self).fields_map@[i as int]@;
                        proof {
                            assert(old(self).slots@[i as int] == Some(range));
                            assert(!range.finished());
                            assert(rows == range.remaining(map, self.width as nat));
                            assert(row == range.batch().row_spec(
                                range.stream(),
                                range.batch_seq(),
                                range.cursor() as int,
                                map,
                                self.width as nat,
                            ));
                            assert(old(self).field_maps()[i as int] == map);
                        }
                        assert(self.group@.len() > 0 ==> before.group[0].key == self.group_key@);
                        assert(row.key == range.batch().keys@[range.cursor() as int]@);
                        assert(self.group@.len() > 0 && !differs ==> self.group_key@ == row.key);
                        if self.group.len() > 0 && differs {
                            self.close_group();
                            assert(self.open_group().len() == self.group@.len());
                        }
                        if self.group.len() == 0 {
                            match range.current_key() {
                                Some(key) => {
                                    self.group_key = key.clone();
                                    assert(self.group_key@ =~= key@);
                                },
                                None => {},
                            }
                        }
                        assert(self.group_key@ == row.key);
                        let source = RowRef {
                            stream: i,
                            batch: range.batch_idx(),
                            row: range.row(),
                        };
                        proof {
                            assert(self.field_maps()[i as int] == self.fields_map@[i as int]@);
                            assert(self.fields_map@[i as int]@ == map);
                        }
                        match range.project(&self.fields_map[i], self.width) {
                            Some(cells) => {
                                let ghost mid = self.open_group();
                                self.group.push(GroupRow { source, cells });
                                proof {
                                    assert(row.source == source);
                                    assert(row.cells == cells@);
                                    assert(self.open_group() =~= mid.push(row));
                                    assert(self.offered() =~= before.offered.update(i as int, None));
                                }
                            },
                            None => {},
                        }
                        range.advance();
                        proof {
                            assert(range.remaining(
                                old(self).field_maps()[i as int],
                                old(self).target_width(),
                            ) =~= rows.drop_first());
                            if closes(before.group, row) {
                                assert(self.open_group() =~= seq![row]);
                            }
                            let target = polled(
                                before,
                                old(self).operators(),
                                old(self).target_width(),
                                old(self).batch_size(),
                            ).0;
                            assert(before.pending.len() != old(self).batch_size());
                            assert(least(offered_heads(before.offered)) == Some(i as int));
                            assert(self.offered() == target.offered);
                            assert(self.pending() == target.pending);
                            assert(self.open_group() == target.group);
                        }
                        RangeCombinerResult::Range(range)
                    },
                    None => RangeCombinerResult::Drained,
                }
            },
            None => {
                if self.group.len() > 0 {
                    self.close_group();
                }
                proof {
                    assert(self.open_group() =~= Seq::<RowSpec>::empty());
                }
                if self.in_progress.len() > 0 {
                    let rows = self.take_batch();
                    RangeCombinerResult::RecordBatch(rows)
                } else {
                    proof {
                        assert(self.pending() =~= Seq::<MergedRowSpec>::empty());
                    }
                    RangeCombinerResult::Drained
                }
            },
        }
    }
}

} // verus!
