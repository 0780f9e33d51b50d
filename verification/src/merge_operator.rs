//! Merge operators: how the values of one column, tied on a sort key, become
//! one value.
//!
//! The candidates of a column are the values of the rows of a tie group, in
//! the order of the group: ascending stream index, and within a stream the
//! order of its rows. A candidate is absent (`None`) where the row's source
//! does not carry the column at all, which is not the same as a null.

use vstd::prelude::*;
use vstd::wrapping::i64_specs::wrapping_add;

verus! {

/// What the merge reads of one source value.
#[derive(Clone, Copy, Debug, PartialEq, Eq, Structural)]
pub enum Cell {
    /// An explicit null.
    Null,
    /// An integer, as summing reads it.
    Int(i64),
    /// Any other value; the merge only moves it.
    Opaque,
}

/// The rule by which one output column resolves its candidates.
#[derive(Clone, Copy, Debug, PartialEq, Eq, Structural)]
pub enum MergeOperator {
    /// The first candidate that is present. This is the rule of a column
    /// for which nothing is configured.
    KeepFirst,
    /// The last candidate that is present: the latest write wins, be it a
    /// null. A source that lacks the column has no say.
    UseLast,
    /// The last candidate that is present and not null.
    UseLastNotNull,
    /// The sum of the integer candidates, wrapping on overflow. Absent and
    /// null candidates add nothing, nor do values that are not integers.
    SumAll,
}

/// The outcome for one output cell.
#[derive(Clone, Copy, Debug, PartialEq, Eq, Structural)]
pub enum Resolved {
    /// No candidate has a say: the cell is null.
    Null,
    /// The cell takes the value of the candidate at this position.
    Take(usize),
    /// The cell is this sum.
    Sum(i64),
}

/// Candidate `i` is there: its source carries the column.
pub open spec fn present(c: Seq<Option<Cell>>, i: int) -> bool {
    0 <= i < c.len() && c[i].is_some()
}

/// Candidate `i` is there and is not a null.
pub open spec fn non_null(c: Seq<Option<Cell>>, i: int) -> bool {
    present(c, i) && c[i] != Some(Cell::Null)
}

/// Candidate `i` is an integer.
pub open spec fn is_int(c: Seq<Option<Cell>>, i: int) -> bool {
    0 <= i < c.len() && c[i] matches Some(Cell::Int(_))
}

/// The integer candidates added up from left to right in 64-bit wrapping
/// arithmetic.
pub open spec fn wrapped_sum(c: Seq<Option<Cell>>) -> i64
    decreases c.len(),
{
    if c.len() == 0 {
        0
    } else {
        match c.last() {
            Some(Cell::Int(v)) => wrapping_add(wrapped_sum(c.drop_last()), v),
            _ => wrapped_sum(c.drop_last()),
        }
    }
}

/// The integer candidates added up as mathematical integers.
pub open spec fn exact_sum(c: Seq<Option<Cell>>) -> int
    decreases c.len(),
{
    if c.len() == 0 {
        0
    } else {
        match c.last() {
            Some(Cell::Int(v)) => exact_sum(c.drop_last()) + v,
            _ => exact_sum(c.drop_last()),
        }
    }
}

/// `r` is the outcome of `op` on the candidates `c`.
pub open spec fn resolves_to(op: MergeOperator, c: Seq<Option<Cell>>, r: Resolved) -> bool {
    match op {
        MergeOperator::KeepFirst => match r {
            Resolved::Take(i) => present(c, i as int) && forall|j: int|
                0 <= j < i ==> !present(c, j),
            Resolved::Null => forall|j: int| !present(c, j),
            Resolved::Sum(_) => false,
        },
        MergeOperator::UseLast => match r {
            Resolved::Take(i) => present(c, i as int) && forall|j: int| i < j ==> !present(c, j),
            Resolved::Null => forall|j: int| !present(c, j),
            Resolved::Sum(_) => false,
        },
        MergeOperator::UseLastNotNull => match r {
            Resolved::Take(i) => non_null(c, i as int) && forall|j: int|
                i < j ==> !non_null(c, j),
            Resolved::Null => forall|j: int| !non_null(c, j),
            Resolved::Sum(_) => false,
        },
        MergeOperator::SumAll => match r {
            Resolved::Sum(s) => s == wrapped_sum(c) && exists|j: int| is_int(c, j),
            Resolved::Null => forall|j: int| !is_int(c, j),
            Resolved::Take(_) => false,
        },
    }
}

/// The outcome of `op` on the candidates `c`.
pub open spec fn resolution(op: MergeOperator, c: Seq<Option<Cell>>) -> Resolved {
    choose|r: Resolved| resolves_to(op, c, r)
}

/// An operator has at most one outcome on given candidates.
pub proof fn lemma_resolution_unique(
    op: MergeOperator,
    c: Seq<Option<Cell>>,
    r1: Resolved,
    r2: Resolved,
)
    requires
        resolves_to(op, c, r1),
        resolves_to(op, c, r2),
    ensures
        r1 == r2,
{
    match (r1, r2) {
        (Resolved::Take(i), Resolved::Take(j)) => {
            if i < j {
                assert(present(c, i as int) || non_null(c, i as int));
                assert(present(c, j as int) || non_null(c, j as int));
            } else if j < i {
                assert(present(c, i as int) || non_null(c, i as int));
                assert(present(c, j as int) || non_null(c, j as int));
            }
        },
        (Resolved::Take(i), Resolved::Null) => {
            assert(present(c, i as int) || non_null(c, i as int));
        },
        (Resolved::Null, Resolved::Take(j)) => {
            assert(present(c, j as int) || non_null(c, j as int));
        },
        _ => {},
    }
}

/// Where no partial sum leaves the 64-bit range, the wrapping sum is the sum.
pub proof fn lemma_wrapped_sum_exact(c: Seq<Option<Cell>>)
    requires
        forall|k: int| 0 <= k <= c.len() ==> i64::MIN <= #[trigger] exact_sum(c.take(k)) <= i64::MAX,
    ensures
        wrapped_sum(c) == exact_sum(c),
    decreases c.len(),
{
    if c.len() > 0 {
        let front = c.drop_last();
        assert forall|k: int| 0 <= k <= front.len() implies i64::MIN <= #[trigger] exact_sum(
            front.take(k),
        ) <= i64::MAX by {
            assert(front.take(k) == c.take(k));
        }
        lemma_wrapped_sum_exact(front);
        assert(c.take(c.len() as int) == c);
        assert(front == c.take(c.len() - 1));
    }
}

/// Absent candidates, nulls and values that are not integers add nothing.
pub proof fn lemma_sum_skips(c: Seq<Option<Cell>>, x: Option<Cell>)
    requires
        !(x matches Some(Cell::Int(_))),
    ensures
        wrapped_sum(c.push(x)) == wrapped_sum(c),
        exact_sum(c.push(x)) == exact_sum(c),
{
    assert(c.push(x).drop_last() == c);
}

impl Default for MergeOperator {
    fn default() -> (op: MergeOperator)
        ensures
            op == MergeOperator::KeepFirst,
    {
        MergeOperator::KeepFirst
    }
}

impl MergeOperator {
    /// Resolves the candidates of one column into one outcome.
    pub fn resolve(&self, candidates: &Vec<Option<Cell>>) -> (r: Resolved)
        ensures
            resolves_to(*self, candidates@, r),
            r == resolution(*self, candidates@),
            r matches Resolved::Take(i) ==> i < candidates@.len(),
    {
        let r = match self {
            MergeOperator::KeepFirst => first_present(candidates),
            MergeOperator::UseLast => last_present(candidates),
            MergeOperator::UseLastNotNull => last_non_null(candidates),
            MergeOperator::SumAll => sum_all(candidates),
        };
        proof {
            lemma_resolution_unique(*self, candidates@, r, resolution(*self, candidates@));
        }
        r
    }
}

fn first_present(candidates: &Vec<Option<Cell>>) -> (r: Resolved)
    ensures
        resolves_to(MergeOperator::KeepFirst, candidates@, r),
{
    let mut i: usize = 0;
    while i < candidates.len()
        invariant
            i <= candidates.len(),
            forall|j: int| 0 <= j < i ==> !present(candidates@, j),
        decreases candidates.len() - i,
    {
        if candidates[i].is_some() {
            return Resolved::Take(i);
        }
        i += 1;
    }
    Resolved::Null
}

fn last_present(candidates: &Vec<Option<Cell>>) -> (r: Resolved)
    ensures
        resolves_to(MergeOperator::UseLast, candidates@, r),
{
    let mut i: usize = candidates.len();
    while i > 0
        invariant
            i <= candidates.len(),
            forall|j: int| i <= j ==> !present(candidates@, j),
        decreases i,
    {
        i -= 1;
        if candidates[i].is_some() {
            return Resolved::Take(i);
        }
    }
    Resolved::Null
}

fn last_non_null(candidates: &Vec<Option<Cell>>) -> (r: Resolved)
    ensures
        resolves_to(MergeOperator::UseLastNotNull, candidates@, r),
{
    let mut i: usize = candidates.len();
    while i > 0
        invariant
            i <= candidates.len(),
            forall|j: int| i <= j ==> !non_null(candidates@, j),
        decreases i,
    {
        i -= 1;
        match candidates[i] {
            Some(Cell::Int(_)) => {
                return Resolved::Take(i);
            },
            Some(Cell::Opaque) => {
                return Resolved::Take(i);
            },
            _ => {},
        }
    }
    Resolved::Null
}

fn sum_all(candidates: &Vec<Option<Cell>>) -> (r: Resolved)
    ensures
        resolves_to(MergeOperator::SumAll, candidates@, r),
{
    let mut total: i64 = 0;
    let mut any = false;
    let mut i: usize = 0;
    while i < candidates.len()
        invariant
            i <= candidates.len(),
            total == wrapped_sum(candidates@.take(i as int)),
            any <==> exists|j: int| 0 <= j < i && is_int(candidates@, j),
        decreases candidates.len() - i,
    {
        proof {
            assert(candidates@.take(i + 1).drop_last() == candidates@.take(i as int));
        }
        match candidates[i] {
            Some(Cell::Int(v)) => {
                total = total.wrapping_add(v);
                any = true;
                assert(is_int(candidates@, i as int));
            },
            _ => {},
        }
        i += 1;
    }
    proof {
        assert(candidates@.take(candidates@.len() as int) == candidates@);
    }
    if any {
        Resolved::Sum(total)
    } else {
        Resolved::Null
    }
}

} // verus!
