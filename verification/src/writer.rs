//! The bookkeeping of the size-bounded writer.
//!
//! The writer itself encodes and persists; that is the caller's work. What is
//! kept here is what the writer has to remember and to decide between the
//! caller's writes: whether a file is open, which files have been closed so
//! far, whether a write may go ahead, and what the manifest says in the end.

use crate::manifest::{build_manifest, manifest, FlushRecord};
use vstd::prelude::*;

verus! {

/// Where the writer stands.
#[derive(Clone, Copy, Debug, PartialEq, Eq, Structural)]
pub enum WriterPhase {
    /// A file is open and takes writes.
    FileOpen,
    /// The last file was closed by a spill and no new one is open yet.
    NoFile,
    /// The writer was finalized or aborted.
    Closed,
}

/// Why the writer turned a call down.
#[derive(Clone, Copy, Debug, PartialEq, Eq, Structural)]
pub enum WriterError {
    /// No file is open and none can be opened: the writer has no size
    /// bound under which it would start a new file.
    InvalidState,
    /// The open file is still held by another owner and cannot be closed.
    SharedWriter,
    /// The writer was finalized or aborted before.
    Closed,
    /// The auxiliary sort column at this position names no column of the
    /// schema.
    UnknownColumn(usize),
}

/// What came of taking the open file in order to close it.
pub enum InnerClose {
    /// There was no open file to take.
    NoWriter,
    /// Another owner still holds the file.
    Shared,
    /// The file was closed; these are the files it stands for.
    Finished(Vec<FlushRecord>),
}

/// What is to be done before a write.
#[derive(Clone, Copy, Debug, PartialEq, Eq, Structural)]
pub enum WriteReadiness {
    /// A file is open: write.
    Ready,
    /// No file is open: open one, report it, then write.
    OpenFile,
}

/// What the writer remembers between the caller's writes.
pub struct WriterState {
    max_file_size: Option<u64>,
    phase: WriterPhase,
    flush_results: Vec<FlushRecord>,
}

impl WriterState {
    /// The bound on what one file may buffer, if there is one.
    pub closed spec fn size_bound(&self) -> Option<u64> {
        self.max_file_size
    }

    /// Where the writer stands.
    pub closed spec fn state(&self) -> WriterPhase {
        self.phase
    }

    /// The files closed so far, in order.
    pub closed spec fn records(&self) -> Seq<FlushRecord> {
        self.flush_results@
    }

    /// A writer whose first file is open.
    pub fn new(max_file_size: Option<u64>) -> (w: WriterState)
        ensures
            w.size_bound() == max_file_size,
            w.state() == WriterPhase::FileOpen,
            w.records() == Seq::<FlushRecord>::empty(),
    {
        WriterState { max_file_size, phase: WriterPhase::FileOpen, flush_results: Vec::new() }
    }

    pub fn max_file_size(&self) -> (m: Option<u64>)
        ensures
            m == self.size_bound(),
    {
        self.max_file_size
    }

    pub fn phase(&self) -> (p: WriterPhase)
        ensures
            p == self.state(),
    {
        self.phase
    }

    /// The number of files closed so far.
    pub fn num_records(&self) -> (n: usize)
        ensures
            n == self.records().len(),
    {
        self.flush_results.len()
    }

    /// Whether a write may go ahead.
    ///
    /// A writer that was finalized takes no write. A writer without an open
    /// file opens a new one if it has a size bound, and is in no state to
    /// write if it has none.
    pub fn before_write(&self) -> (r: Result<WriteReadiness, WriterError>)
        ensures
            r == match self.state() {
                WriterPhase::Closed => Err::<WriteReadiness, WriterError>(WriterError::Closed),
                WriterPhase::FileOpen => Ok(WriteReadiness::Ready),
                WriterPhase::NoFile => if self.size_bound().is_some() {
                    Ok(WriteReadiness::OpenFile)
                } else {
                    Err(WriterError::InvalidState)
                },
            },
    {
        match self.phase {
            WriterPhase::Closed => Err(WriterError::Closed),
            WriterPhase::FileOpen => Ok(WriteReadiness::Ready),
            WriterPhase::NoFile => {
                if self.max_file_size.is_some() {
                    Ok(WriteReadiness::OpenFile)
                } else {
                    Err(WriterError::InvalidState)
                }
            },
        }
    }

    /// Takes note that a new file was opened. Only a writer without an open
    /// file changes.
    pub fn file_opened(&mut self)
        ensures
            final(self).size_bound() == old(self).size_bound(),
            final(self).records() == old(self).records(),
            final(self).state() == if old(self).state() == WriterPhase::NoFile {
                WriterPhase::FileOpen
            } else {
                old(self).state()
            },
    {
        match self.phase {
            WriterPhase::NoFile => {
                self.phase = WriterPhase::FileOpen;
            },
            _ => {},
        }
    }

    /// Takes note of a spill: the open file was taken to be closed.
    ///
    /// The files that the closed file stands for are added to those closed
    /// before, whether or not the writer knew of an open file. A file that
    /// is still held elsewhere is reported, and so is a missing file where
    /// one was open. A closed writer takes nothing and reports the call.
    /// Unless the writer is closed, no file is open afterwards.
    pub fn spilled(&mut self, inner: InnerClose) -> (r: Result<(), WriterError>)
        ensures
            final(self).size_bound() == old(self).size_bound(),
            r == match old(self).state() {
                WriterPhase::Closed => Err::<(), WriterError>(WriterError::Closed),
                _ => match inner {
                    InnerClose::Shared => Err(WriterError::SharedWriter),
                    InnerClose::NoWriter => if old(self).state() == WriterPhase::FileOpen {
                        Err(WriterError::InvalidState)
                    } else {
                        Ok(())
                    },
                    InnerClose::Finished(_) => Ok(()),
                },
            },
            final(self).state() == if old(self).state() == WriterPhase::Closed {
                WriterPhase::Closed
            } else {
                WriterPhase::NoFile
            },
            final(self).records() == match inner {
                InnerClose::Finished(results) => if old(self).state() != WriterPhase::Closed {
                    old(self).records() + results@
                } else {
                    old(self).records()
                },
                _ => old(self).records(),
            },
    {
        let phase = self.phase;
        match phase {
            WriterPhase::Closed => Err(WriterError::Closed),
            _ => {
                self.phase = WriterPhase::NoFile;
                match inner {
                    InnerClose::Shared => Err(WriterError::SharedWriter),
                    InnerClose::NoWriter => match phase {
                        WriterPhase::FileOpen => Err(WriterError::InvalidState),
                        _ => Ok(()),
                    },
                    InnerClose::Finished(mut results) => {
                        self.flush_results.append(&mut results);
                        Ok(())
                    },
                }
            },
        }
    }

    /// Finalizes the writer and gives the manifest of every file that was
    /// closed during its lifetime, the last file included.
    ///
    /// A writer that has no file open and has closed none gives an empty
    /// manifest. Closing fails if the open file is still held elsewhere, or
    /// is missing where one was open. In every case the writer is closed
    /// afterwards and holds no record.
    pub fn flush_and_close(&mut self, inner: InnerClose) -> (r: Result<Vec<u8>, WriterError>)
        ensures
            final(self).size_bound() == old(self).size_bound(),
            final(self).state() == WriterPhase::Closed,
            final(self).records() == Seq::<FlushRecord>::empty(),
            match old(self).state() {
                WriterPhase::Closed => r == Err::<Vec<u8>, WriterError>(WriterError::Closed),
                _ => match inner {
                    InnerClose::Shared => r == Err::<Vec<u8>, WriterError>(
                        WriterError::SharedWriter,
                    ),
                    InnerClose::NoWriter => if old(self).state() == WriterPhase::FileOpen {
                        r == Err::<Vec<u8>, WriterError>(WriterError::InvalidState)
                    } else {
                        r matches Ok(bytes) && bytes@ == if old(self).records().len() == 0 {
                            Seq::<u8>::empty()
                        } else {
                            manifest(old(self).records())
                        }
                    },
                    InnerClose::Finished(results) => r matches Ok(bytes) && bytes@ == manifest(
                        old(self).records() + results@,
                    ),
                },
            },
    {
        let phase = self.phase;
        self.phase = WriterPhase::Closed;
        let mut records: Vec<FlushRecord> = Vec::new();
        std::mem::swap(&mut records, &mut self.flush_results);
        match phase {
            WriterPhase::Closed => Err(WriterError::Closed),
            _ => match inner {
                InnerClose::Shared => Err(WriterError::SharedWriter),
                InnerClose::NoWriter => match phase {
                    WriterPhase::FileOpen => Err(WriterError::InvalidState),
                    _ => {
                        if records.len() == 0 {
                            Ok(Vec::new())
                        } else {
                            Ok(build_manifest(&records))
                        }
                    },
                },
                InnerClose::Finished(mut results) => {
                    records.append(&mut results);
                    Ok(build_manifest(&records))
                },
            },
        }
    }

    /// Aborts the writer: what was buffered and what was closed so far is
    /// given up, and no manifest is made.
    ///
    /// `exclusive` says whether the open file could be taken to be released.
    /// In every case the writer is closed afterwards and holds no record.
    pub fn abort_and_close(&mut self, exclusive: bool) -> (r: Result<(), WriterError>)
        ensures
            final(self).size_bound() == old(self).size_bound(),
            final(self).state() == WriterPhase::Closed,
            final(self).records() == Seq::<FlushRecord>::empty(),
            r == match old(self).state() {
                WriterPhase::Closed => Err::<(), WriterError>(WriterError::Closed),
                WriterPhase::NoFile => Ok(()),
                WriterPhase::FileOpen => if exclusive {
                    Ok(())
                } else {
                    Err(WriterError::SharedWriter)
                },
            },
    {
        let phase = self.phase;
        self.phase = WriterPhase::Closed;
        self.flush_results = Vec::new();
        match phase {
            WriterPhase::Closed => Err(WriterError::Closed),
            WriterPhase::NoFile => Ok(()),
            WriterPhase::FileOpen => {
                if exclusive {
                    Ok(())
                } else {
                    Err(WriterError::SharedWriter)
                }
            },
        }
    }
}

/// The kind of writer that a configuration asks for.
#[derive(Clone, Copy, Debug, PartialEq, Eq, Structural)]
pub enum WriterKind {
    /// Rows are routed into one writer per partition.
    Partitioning,
    /// Rows are sorted by primary key before they are written.
    Sort,
    /// Rows are written as they come.
    MultiPart,
}

/// The kind of writer for a configuration: dynamic partitioning wins;
/// otherwise a table with primary keys whose input is not known to be
/// ordered is sorted; everything else is written as it comes.
pub open spec fn writer_kind_of(
    use_dynamic_partition: bool,
    has_primary_keys: bool,
    keep_ordering: bool,
) -> WriterKind {
    if use_dynamic_partition {
        WriterKind::Partitioning
    } else if has_primary_keys && !keep_ordering {
        WriterKind::Sort
    } else {
        WriterKind::MultiPart
    }
}

/// Chooses the kind of writer.
pub fn select_writer(use_dynamic_partition: bool, has_primary_keys: bool, keep_ordering: bool) -> (kind:
    WriterKind)
    ensures
        kind == writer_kind_of(use_dynamic_partition, has_primary_keys, keep_ordering),
{
    if use_dynamic_partition {
        WriterKind::Partitioning
    } else if has_primary_keys && !keep_ordering {
        WriterKind::Sort
    } else {
        WriterKind::MultiPart
    }
}

/// The bound on what one file may buffer.
///
/// `shares` holds the shares of a memory limit that a partitioning and a
/// sorting writer may buffer, where a memory limit is set. Such a writer is
/// bounded by its share. Any other writer is bounded by the size set as an
/// option if there is one, and else by the size given.
pub fn size_bound(
    given: Option<u64>,
    option: Option<u64>,
    shares: Option<(u64, u64)>,
    kind: WriterKind,
) -> (bound: Option<u64>)
    ensures
        bound == match (shares, kind) {
            (Some((partitioned, sorted)), WriterKind::Partitioning) => Some(partitioned),
            (Some((partitioned, sorted)), WriterKind::Sort) => Some(sorted),
            _ => if option.is_some() {
                option
            } else {
                given
            },
        },
{
    match (shares, kind) {
        (Some((partitioned, _)), WriterKind::Partitioning) => Some(partitioned),
        (Some((_, sorted)), WriterKind::Sort) => Some(sorted),
        _ => if option.is_some() {
            option
        } else {
            given
        },
    }
}

} // verus!
