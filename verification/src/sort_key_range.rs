//! Source batches and the cursor that walks one of them in key order.

use crate::merge_operator::Cell;
use crate::sort_key::{compare_keys, key_order, KeyOrder};
use vstd::prelude::*;

verus! {

/// Where a row comes from: its stream, the sequence number that its batch
/// was given on arrival, and its position in that batch.
#[derive(Clone, Copy, Debug, PartialEq, Eq, Structural)]
pub struct RowRef {
    pub stream: usize,
    pub batch: usize,
    pub row: usize,
}

/// A source row as the merge sees it: its sort key, where it comes from, and
/// its values laid out in the columns of the target schema.
pub struct RowSpec {
    pub key: Seq<u8>,
    pub source: RowRef,
    pub cells: Seq<Option<Cell>>,
}

/// Source column `s` of a row with `sources` columns lands in target
/// column `t`.
pub open spec fn feeds(field_map: Seq<usize>, sources: nat, s: int, t: int) -> bool {
    0 <= s < field_map.len() && s < sources && field_map[s] == t
}

/// The target row after the first `k` source columns have been laid out.
pub open spec fn projected_upto(
    src: Seq<Cell>,
    field_map: Seq<usize>,
    width: nat,
    k: nat,
) -> Seq<Option<Cell>>
    decreases k,
{
    if k == 0 {
        Seq::new(width, |t: int| None)
    } else {
        let before = projected_upto(src, field_map, width, (k - 1) as nat);
        if k - 1 < src.len() && k - 1 < field_map.len() && field_map[k - 1] < width {
            before.update(field_map[k - 1] as int, Some(src[k - 1]))
        } else {
            before
        }
    }
}

/// The values `src` of a source row laid out in `width` target columns:
/// source column `s` lands in target column `field_map[s]`, and a target
/// column that no source column lands in is absent.
pub open spec fn projected(src: Seq<Cell>, field_map: Seq<usize>, width: nat) -> Seq<
    Option<Cell>,
> {
    projected_upto(src, field_map, width, field_map.len())
}

/// A target column holds the value of the last source column that lands in
/// it, and is absent where none does.
pub proof fn lemma_projected_upto(
    src: Seq<Cell>,
    field_map: Seq<usize>,
    width: nat,
    k: nat,
    t: int,
)
    requires
        0 <= t < width,
        k <= field_map.len(),
    ensures
        projected_upto(src, field_map, width, k).len() == width,
        (forall|s: int| 0 <= s < k ==> !feeds(field_map, src.len(), s, t)) ==> projected_upto(
            src,
            field_map,
            width,
            k,
        )[t].is_none(),
        forall|s: int|
            0 <= s < k && feeds(field_map, src.len(), s, t) && (forall|s2: int|
                s < s2 < k ==> !feeds(field_map, src.len(), s2, t)) ==> projected_upto(
                src,
                field_map,
                width,
                k,
            )[t] == Some(src[s]),
    decreases k,
{
    if k > 0 {
        lemma_projected_upto(src, field_map, width, (k - 1) as nat, t);
        lemma_projected_len(src, field_map, width, (k - 1) as nat);
        let before = projected_upto(src, field_map, width, (k - 1) as nat);
        let now = projected_upto(src, field_map, width, k);
        if forall|s: int| 0 <= s < k ==> !feeds(field_map, src.len(), s, t) {
            assert(!feeds(field_map, src.len(), k - 1, t));
            assert(forall|s: int| 0 <= s < k - 1 ==> !feeds(field_map, src.len(), s, t));
            assert(now[t].is_none());
        }
        assert forall|s: int|
            0 <= s < k && feeds(field_map, src.len(), s, t) && (forall|s2: int|
                s < s2 < k ==> !feeds(field_map, src.len(), s2, t)) implies now[t] == Some(
            src[s],
        ) by {
            if s < k - 1 {
                assert(!feeds(field_map, src.len(), k - 1, t));
                assert(forall|s2: int| s < s2 < k - 1 ==> !feeds(field_map, src.len(), s2, t));
            }
        }
    }
}

/// A projected row has one entry for each target column.
pub proof fn lemma_projected_len(src: Seq<Cell>, field_map: Seq<usize>, width: nat, k: nat)
    ensures
        projected_upto(src, field_map, width, k).len() == width,
    decreases k,
{
    if k > 0 {
        lemma_projected_len(src, field_map, width, (k - 1) as nat);
    }
}

/// A columnar batch of one source, as the merge reads it: the sort key of
/// each row in comparable form, and each column's values.
pub struct SourceBatch {
    pub keys: Vec<Vec<u8>>,
    pub columns: Vec<Vec<Cell>>,
}

impl SourceBatch {
    /// Every column has one value for each row.
    pub open spec fn well_formed(self) -> bool {
        forall|c: int|
            0 <= c < self.columns@.len() ==> (#[trigger] self.columns@[c])@.len()
                == self.keys@.len()
    }

    /// The number of rows.
    pub open spec fn rows(self) -> nat {
        self.keys@.len()
    }

    /// The values of row `r`, one for each source column.
    pub open spec fn source_cells(self, r: int) -> Seq<Cell> {
        Seq::new(self.columns@.len(), |c: int| self.columns@[c]@[r])
    }

    /// Row `r` as the merge sees it, once the batch has been given the
    /// sequence number `batch` on stream `stream`.
    pub open spec fn row_spec(
        self,
        stream: usize,
        batch: usize,
        r: int,
        field_map: Seq<usize>,
        width: nat,
    ) -> RowSpec {
        RowSpec {
            key: self.keys@[r]@,
            source: RowRef { stream, batch, row: r as usize },
            cells: projected(self.source_cells(r), field_map, width),
        }
    }

    /// The rows from `from` on, in order.
    pub open spec fn rows_from(
        self,
        stream: usize,
        batch: usize,
        from: int,
        field_map: Seq<usize>,
        width: nat,
    ) -> Seq<RowSpec> {
        Seq::new(
            (self.keys@.len() - from) as nat,
            |k: int| self.row_spec(stream, batch, from + k, field_map, width),
        )
    }

    pub fn num_rows(&self) -> (n: usize)
        ensures
            n == self.rows(),
    {
        self.keys.len()
    }

    /// Whether every column has one value for each row.
    pub fn is_well_formed(&self) -> (ok: bool)
        ensures
            ok == self.well_formed(),
    {
        let mut c: usize = 0;
        while c < self.columns.len()
            invariant
                c <= self.columns@.len(),
                forall|d: int|
                    0 <= d < c ==> (#[trigger] self.columns@[d])@.len() == self.keys@.len(),
            decreases self.columns.len() - c,
        {
            if self.columns[c].len() != self.keys.len() {
                return false;
            }
            c += 1;
        }
        true
    }
}

/// A cursor over the rows of one source batch that have not been consumed.
///
/// The range is finished once its cursor has passed the last row. It owns its
/// batch until then.
pub struct SortKeyRange {
    stream_idx: usize,
    batch_idx: usize,
    batch: SourceBatch,
    row: usize,
}

impl SortKeyRange {
    #[verifier::type_invariant]
    spec fn valid(self) -> bool {
        self.batch.well_formed() && self.row <= self.batch.keys@.len()
    }

    /// The stream that the batch came from.
    pub closed spec fn stream(self) -> usize {
        self.stream_idx
    }

    /// The sequence number that the batch was given.
    pub closed spec fn batch_seq(self) -> usize {
        self.batch_idx
    }

    /// The batch that the range walks.
    pub closed spec fn batch(self) -> SourceBatch {
        self.batch
    }

    /// The position of the row that the range stands on.
    pub closed spec fn cursor(self) -> nat {
        self.row as nat
    }

    /// The cursor has passed the last row.
    pub open spec fn finished(self) -> bool {
        self.cursor() >= self.batch().rows()
    }

    /// The rows that have not been consumed, the current one first.
    pub open spec fn remaining(self, field_map: Seq<usize>, width: nat) -> Seq<RowSpec> {
        self.batch().rows_from(
            self.stream(),
            self.batch_seq(),
            self.cursor() as int,
            field_map,
            width,
        )
    }

    /// A range over `batch`, standing on its first row; `None` where a column
    /// of the batch has not one value for each row.
    pub fn new(stream_idx: usize, batch_idx: usize, batch: SourceBatch) -> (range: Option<
        SortKeyRange,
    >)
        ensures
            range.is_some() == batch.well_formed(),
            range matches Some(r) ==> r.stream() == stream_idx && r.batch_seq() == batch_idx
                && r.batch() == batch && r.cursor() == 0,
    {
        if batch.is_well_formed() {
            Some(SortKeyRange { stream_idx, batch_idx, batch, row: 0 })
        } else {
            None
        }
    }

    pub fn stream_idx(&self) -> (i: usize)
        ensures
            i == self.stream(),
    {
        self.stream_idx
    }

    pub fn batch_idx(&self) -> (i: usize)
        ensures
            i == self.batch_seq(),
    {
        self.batch_idx
    }

    /// The position of the current row in the batch.
    pub fn row(&self) -> (r: usize)
        ensures
            r == self.cursor(),
            r <= self.batch().rows(),
            self.batch().well_formed(),
    {
        proof {
            use_type_invariant(self);
        }
        self.row
    }

    pub fn is_finished(&self) -> (b: bool)
        ensures
            b == self.finished(),
            self.cursor() <= self.batch().rows(),
            self.batch().well_formed(),
    {
        proof {
            use_type_invariant(self);
        }
        self.row >= self.batch.keys.len()
    }

    /// The sort key of the current row, borrowed; `None` once finished.
    pub fn current_key(&self) -> (key: Option<&Vec<u8>>)
        ensures
            key.is_none() == self.finished(),
            key matches Some(k) ==> k@ == self.batch().keys@[self.cursor() as int]@,
    {
        proof {
            use_type_invariant(self);
        }
        if self.row < self.batch.keys.len() {
            Some(&self.batch.keys[self.row])
        } else {
            None
        }
    }

    /// Moves the cursor forward one row. A finished range stays as it is.
    pub fn advance(&mut self)
        ensures
            final(self).stream() == old(self).stream(),
            final(self).batch_seq() == old(self).batch_seq(),
            final(self).batch() == old(self).batch(),
            final(self).cursor() == if old(self).finished() {
                old(self).cursor()
            } else {
                old(self).cursor() + 1
            },
    {
        proof {
            use_type_invariant(&*self);
        }
        if self.row < self.batch.keys.len() {
            self.row = self.row + 1;
        }
    }

    /// The values of the current row laid out in the `width` columns of the
    /// target schema; a target column that the source does not carry is
    /// absent. A finished range has no current row and gives `None`.
    pub fn project(&self, field_map: &Vec<usize>, width: usize) -> (cells: Option<
        Vec<Option<Cell>>,
    >)
        ensures
            cells.is_none() == self.finished(),
            cells matches Some(v) ==> v@ == projected(
                self.batch().source_cells(self.cursor() as int),
                field_map@,
                width as nat,
            ) && v@.len() == width,
    {
        proof {
            use_type_invariant(self);
        }
        if self.row >= self.batch.keys.len() {
            return None;
        }
        let ghost src = self.batch.source_cells(self.row as int);
        let mut out: Vec<Option<Cell>> = Vec::new();
        let mut t: usize = 0;
        while t < width
            invariant
                t <= width,
                out@ == Seq::new(t as nat, |i: int| None::<Cell>),
            decreases width - t,
        {
            out.push(None);
            t += 1;
        }
        assert(out@ == projected_upto(src, field_map@, width as nat, 0));
        let mut s: usize = 0;
        while s < field_map.len()
            invariant
                s <= field_map@.len(),
                self.batch.well_formed(),
                self.row < self.batch.keys@.len(),
                src == self.batch.source_cells(self.row as int),
                out@.len() == width,
                out@ == projected_upto(src, field_map@, width as nat, s as nat),
            decreases field_map.len() - s,
        {
            if s < self.batch.columns.len() && field_map[s] < width {
                let value = self.batch.columns[s][self.row];
                out.set(field_map[s], Some(value));
            }
            s += 1;
        }
        Some(out)
    }

    /// Whether this range comes before `other`: by the current key, and for
    /// equal keys by the stream index. A finished range comes before nothing.
    pub fn precedes(&self, other: &SortKeyRange) -> (b: bool)
        ensures
            b == (!self.finished() && !other.finished() && ({
                let mine = self.batch().keys@[self.cursor() as int]@;
                let theirs = other.batch().keys@[other.cursor() as int]@;
                key_order(mine, theirs) == KeyOrder::Less || (mine == theirs && self.stream()
                    < other.stream())
            })),
    {
        match (self.current_key(), other.current_key()) {
            (Some(mine), Some(theirs)) => {
                match compare_keys(mine.as_slice(), theirs.as_slice()) {
                    KeyOrder::Less => true,
                    KeyOrder::Equal => self.stream_idx < other.stream_idx,
                    KeyOrder::Greater => false,
                }
            },
            _ => false,
        }
    }
}

} // verus!
