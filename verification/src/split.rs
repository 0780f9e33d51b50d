//! Splitting of an incoming batch across size-bounded files.
//!
//! A file may buffer at most a configured number of bytes. A batch whose
//! estimated footprint does not fit is cut at a row boundary in proportion to
//! the room that is left: the head goes to the open file, which is then
//! closed, and the tail goes on to a fresh file, where it is judged again.

use vstd::prelude::*;

verus! {

/// How the rows that are still to be written are laid out.
#[derive(Clone, Copy, Debug, PartialEq, Eq, Structural)]
pub enum WritePlan {
    /// All rows go to the open file.
    Whole,
    /// The first `keep` rows go to the open file, which is then closed.
    Split { keep: u64 },
}

/// One write to the open file: rows `offset .. offset + len` of the batch.
/// With `spill` set the file is closed after the write and the next write
/// goes to a fresh file.
#[derive(Clone, Copy, Debug, PartialEq, Eq, Structural)]
pub struct WriteStep {
    pub offset: u64,
    pub len: u64,
    pub spill: bool,
}

/// The batch does not fit into what the open file may still buffer.
pub open spec fn exceeds(memory_size: u64, buffered_size: u64, max_file_size: u64) -> bool {
    buffered_size + memory_size > max_file_size
}

/// Bytes that the open file may still buffer; none once it is over its bound.
pub open spec fn capacity_left(buffered_size: u64, max_file_size: u64) -> int {
    if max_file_size >= buffered_size {
        max_file_size - buffered_size
    } else {
        0
    }
}

/// The proportional cut point: the share of `rows` that the room left in the
/// file is of the batch's footprint, rounded down.
pub open spec fn cut_point(rows: u64, memory_size: u64, buffered_size: u64, max_file_size: u64) -> int
    recommends
        memory_size > 0,
{
    rows * capacity_left(buffered_size, max_file_size) / (memory_size as int)
}

/// The layout chosen for `rows` rows of `memory_size` bytes.
///
/// A batch that does not fit is split at the cut point: the rows before it
/// go to the open file, the rows from it on to the next. Where the cut point
/// is zero the head would be empty, so the split keeps one row, the least
/// that makes progress. A batch of at most one row cannot be split and is
/// written whole, as is a batch without footprint.
pub open spec fn plan_of(rows: u64, memory_size: u64, buffered_size: u64, max_file_size: u64) -> WritePlan {
    if exceeds(memory_size, buffered_size, max_file_size) && memory_size > 0 && rows > 1 {
        let cut = cut_point(rows, memory_size, buffered_size, max_file_size);
        WritePlan::Split {
            keep: if cut == 0 {
                1
            } else {
                cut as u64
            },
        }
    } else {
        WritePlan::Whole
    }
}

/// The cut point of a batch that does not fit lies before its last row.
pub proof fn lemma_cut_point_bounds(
    rows: u64,
    memory_size: u64,
    buffered_size: u64,
    max_file_size: u64,
)
    requires
        exceeds(memory_size, buffered_size, max_file_size),
        memory_size > 0,
    ensures
        0 <= cut_point(rows, memory_size, buffered_size, max_file_size),
        rows > 0 ==> cut_point(rows, memory_size, buffered_size, max_file_size) < rows,
        rows == 0 ==> cut_point(rows, memory_size, buffered_size, max_file_size) == 0,
{
    let cap = capacity_left(buffered_size, max_file_size);
    let m = memory_size as int;
    let r = rows as int;
    assert(0 <= cap < m);
    assert(0 <= r * cap) by (nonlinear_arith)
        requires
            0 <= r,
            0 <= cap,
    ;
    assert(0 <= (r * cap) / m) by (nonlinear_arith)
        requires
            0 <= r * cap,
            m > 0,
    ;
    if rows > 0 {
        assert(r * cap < r * m) by (nonlinear_arith)
            requires
                r > 0,
                0 <= cap < m,
        ;
        assert((r * cap) / m < r) by (nonlinear_arith)
            requires
                0 <= r * cap < r * m,
                m > 0,
        ;
    } else {
        assert(r * cap == 0) by (nonlinear_arith)
            requires
                r == 0,
        ;
    }
}

/// Size bound: a batch of two or more rows that does not fit is split into
/// a head and a tail that are both non-empty and together hold every row, so
/// it reaches at least two files. The head ends at the cut point wherever
/// that leaves it a row.
pub proof fn lemma_split_is_strict(
    rows: u64,
    memory_size: u64,
    buffered_size: u64,
    max_file_size: u64,
)
    requires
        exceeds(memory_size, buffered_size, max_file_size),
        memory_size > 0,
        rows > 1,
    ensures
        plan_of(rows, memory_size, buffered_size, max_file_size) matches WritePlan::Split { keep }
            && 1 <= keep < rows && (cut_point(rows, memory_size, buffered_size, max_file_size) > 0
            ==> keep == cut_point(rows, memory_size, buffered_size, max_file_size)),
{
    lemma_cut_point_bounds(rows, memory_size, buffered_size, max_file_size);
}

/// Decides how `rows` rows with an estimated footprint of `memory_size` bytes
/// go into a file that has buffered `buffered_size` of at most
/// `max_file_size` bytes.
pub fn plan_write(rows: u64, memory_size: u64, buffered_size: u64, max_file_size: u64) -> (plan:
    WritePlan)
    ensures
        plan == plan_of(rows, memory_size, buffered_size, max_file_size),
        plan matches WritePlan::Split { keep } ==> 1 <= keep < rows,
{
    if memory_size == 0 || buffered_size as u128 + memory_size as u128 <= max_file_size as u128 {
        return WritePlan::Whole;
    }
    let capacity: u64 = if max_file_size >= buffered_size {
        max_file_size - buffered_size
    } else {
        0
    };
    proof {
        lemma_cut_point_bounds(rows, memory_size, buffered_size, max_file_size);
        assert(rows as int * capacity as int <= 0xffff_ffff_ffff_ffff * 0xffff_ffff_ffff_ffff)
            by (nonlinear_arith)
            requires
                0 <= rows as int <= 0xffff_ffff_ffff_ffff,
                0 <= capacity as int <= 0xffff_ffff_ffff_ffff,
        ;
    }
    let product: u128 = rows as u128 * capacity as u128;
    let to_write: u128 = product / memory_size as u128;
    if rows <= 1 {
        WritePlan::Whole
    } else if to_write == 0 {
        WritePlan::Split { keep: 1 }
    } else {
        WritePlan::Split { keep: to_write as u64 }
    }
}

/// The progress of one batch through the writer.
///
/// The rows leave in order and without gaps: each step starts where the one
/// before ended, and the job is done once a step has taken all that was left.
pub struct WriteJob {
    total_rows: u64,
    rows_written: u64,
    spills: u64,
    done: bool,
}

impl WriteJob {
    #[verifier::type_invariant]
    spec fn well_formed(self) -> bool {
        &&& self.rows_written <= self.total_rows
        &&& self.spills <= self.rows_written
        &&& self.done ==> self.rows_written == self.total_rows
    }

    /// Rows of the batch.
    pub closed spec fn total(self) -> nat {
        self.total_rows as nat
    }

    /// Rows handed to files so far.
    pub closed spec fn written(self) -> nat {
        self.rows_written as nat
    }

    /// Files closed for this batch so far.
    pub closed spec fn spilled(self) -> nat {
        self.spills as nat
    }

    /// No step is left.
    pub closed spec fn finished(self) -> bool {
        self.done
    }

    /// A job for a batch of `total_rows` rows. A batch without rows still
    /// takes one step, an empty write.
    pub fn new(total_rows: u64) -> (job: WriteJob)
        ensures
            job.total() == total_rows,
            job.written() == 0,
            job.spilled() == 0,
            !job.finished(),
    {
        WriteJob { total_rows, rows_written: 0, spills: 0, done: false }
    }

    pub fn total_rows(&self) -> (n: u64)
        ensures
            n == self.total(),
    {
        self.total_rows
    }

    pub fn rows_written(&self) -> (n: u64)
        ensures
            n == self.written(),
            n <= self.total(),
    {
        proof {
            use_type_invariant(self);
        }
        self.rows_written
    }

    /// Rows not yet handed to a file: the rows whose footprint the next step
    /// is to be given.
    pub fn rows_left(&self) -> (n: u64)
        ensures
            n == self.total() - self.written(),
    {
        proof {
            use_type_invariant(self);
        }
        self.total_rows - self.rows_written
    }

    pub fn spills(&self) -> (n: u64)
        ensures
            n == self.spilled(),
    {
        self.spills
    }

    pub fn is_done(&self) -> (b: bool)
        ensures
            b == self.finished(),
            b ==> self.written() == self.total(),
    {
        proof {
            use_type_invariant(self);
        }
        self.done
    }

    /// The next write, given the footprint of the rows that are left and the
    /// state of the open file; `None` once the job is done.
    ///
    /// The rows that are left are laid out by [`plan_of`]. A whole write ends
    /// the job. A split writes the rows before the cut point, asks for the
    /// file to be closed and leaves a non-empty tail for the next step.
    pub fn next_step(&mut self, memory_size: u64, buffered_size: u64, max_file_size: u64) -> (step:
        Option<WriteStep>)
        ensures
            final(self).total() == old(self).total(),
            old(self).finished() ==> step.is_none() && *final(self) == *old(self),
            !old(self).finished() ==> match plan_of(
                (old(self).total() - old(self).written()) as u64,
                memory_size,
                buffered_size,
                max_file_size,
            ) {
                WritePlan::Whole => {
                    &&& step == Some(
                        WriteStep {
                            offset: old(self).written() as u64,
                            len: (old(self).total() - old(self).written()) as u64,
                            spill: false,
                        },
                    )
                    &&& final(self).finished()
                    &&& final(self).written() == old(self).total()
                    &&& final(self).spilled() == old(self).spilled()
                },
                WritePlan::Split { keep } => {
                    &&& step == Some(
                        WriteStep { offset: old(self).written() as u64, len: keep, spill: true },
                    )
                    &&& !final(self).finished()
                    &&& final(self).written() == old(self).written() + keep
                    &&& final(self).written() < old(self).total()
                    &&& final(self).spilled() == old(self).spilled() + 1
                },
            },
    {
        proof {
            use_type_invariant(&*self);
        }
        if self.done {
            return None;
        }
        let offset = self.rows_written;
        let rest = self.total_rows - self.rows_written;
        match plan_write(rest, memory_size, buffered_size, max_file_size) {
            WritePlan::Whole => {
                self.rows_written = self.total_rows;
                self.done = true;
                Some(WriteStep { offset, len: rest, spill: false })
            },
            WritePlan::Split { keep } => {
                self.rows_written = offset + keep;
                self.spills = self.spills + 1;
                Some(WriteStep { offset, len: keep, spill: true })
            },
        }
    }
}

} // verus!
