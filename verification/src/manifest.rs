//! The manifest of a finished write: the byte string that names, partition by
//! partition, every file that was written.
//!
//! The manifest starts with the number of partitions in decimal. Each
//! partition follows as `\x01`, its descriptor, and then each of its files as
//! `\x02`, the file's path, `\x03`, its size in decimal, `\x03`, and its
//! existence column. Partitions come in the order in which they were first
//! written to, and the files of a partition in the order in which they were
//! closed.

use vstd::prelude::*;
use vstd::utf8::encode_utf8;

verus! {

/// Separates the partitions.
pub const PARTITION_SEPARATOR: u8 = 1;

/// Separates the descriptor of a partition from its files, and its files
/// from one another.
pub const FILE_SEPARATOR: u8 = 2;

/// Separates the fields of one file.
pub const FIELD_SEPARATOR: u8 = 3;

/// One completed output file.
#[derive(Debug)]
pub struct FlushRecord {
    /// The descriptor of the partition that the file belongs to.
    pub partition_desc: String,
    /// Where the file was written.
    pub file_path: String,
    /// The persisted size in bytes.
    pub size: u64,
    /// The file's existence column.
    pub file_exist_cols: String,
}

/// The decimal digits of `n`, most significant first.
pub open spec fn decimal(n: nat) -> Seq<u8>
    decreases n,
{
    if n < 10 {
        seq![(48 + n) as u8]
    } else {
        decimal(n / 10).push((48 + n % 10) as u8)
    }
}

/// One file as it stands in the manifest, without the separator before it.
pub open spec fn encoded_file(r: FlushRecord) -> Seq<u8> {
    encode_utf8(r.file_path@) + seq![FIELD_SEPARATOR] + decimal(r.size as nat) + seq![
        FIELD_SEPARATOR,
    ] + encode_utf8(r.file_exist_cols@)
}

/// Record `i` is the first of its partition.
pub open spec fn opens_partition(records: Seq<FlushRecord>, i: int) -> bool {
    forall|j: int| 0 <= j < i ==> (#[trigger] records[j]).partition_desc@ != records[i].partition_desc@
}

/// The files of partition `desc` among the first `upto` records, each with
/// its separator, in order.
pub open spec fn partition_files(records: Seq<FlushRecord>, desc: Seq<char>, upto: nat) -> Seq<u8>
    decreases upto,
{
    if upto == 0 {
        Seq::empty()
    } else {
        let before = partition_files(records, desc, (upto - 1) as nat);
        if records[upto - 1].partition_desc@ == desc {
            before + seq![FILE_SEPARATOR] + encoded_file(records[upto - 1])
        } else {
            before
        }
    }
}

/// The number of partitions that the first `upto` records open.
pub open spec fn partition_count(records: Seq<FlushRecord>, upto: nat) -> nat
    decreases upto,
{
    if upto == 0 {
        0
    } else if opens_partition(records, upto - 1) {
        partition_count(records, (upto - 1) as nat) + 1
    } else {
        partition_count(records, (upto - 1) as nat)
    }
}

/// The partitions that the first `upto` records open, each with all its
/// files, in the order in which they were opened.
pub open spec fn partitions(records: Seq<FlushRecord>, upto: nat) -> Seq<u8>
    decreases upto,
{
    if upto == 0 {
        Seq::empty()
    } else {
        let before = partitions(records, (upto - 1) as nat);
        if opens_partition(records, upto - 1) {
            before + seq![PARTITION_SEPARATOR] + encode_utf8(records[upto - 1].partition_desc@)
                + partition_files(records, records[upto - 1].partition_desc@, records.len())
        } else {
            before
        }
    }
}

/// The manifest of the records.
pub open spec fn manifest(records: Seq<FlushRecord>) -> Seq<u8> {
    decimal(partition_count(records, records.len())) + partitions(records, records.len())
}

/// The number of partitions is at most the number of records.
pub proof fn lemma_partition_count_bound(records: Seq<FlushRecord>, upto: nat)
    ensures
        partition_count(records, upto) <= upto,
    decreases upto,
{
    if upto > 0 {
        lemma_partition_count_bound(records, (upto - 1) as nat);
    }
}

/// Appends `bytes` to `out`.
pub fn append_bytes(out: &mut Vec<u8>, bytes: &[u8])
    ensures
        final(out)@ == old(out)@ + bytes@,
{
    let mut i: usize = 0;
    while i < bytes.len()
        invariant
            i <= bytes@.len(),
            out@ == old(out)@ + bytes@.take(i as int),
        decreases bytes.len() - i,
    {
        out.push(bytes[i]);
        assert(out@ =~= old(out)@ + bytes@.take(i + 1));
        i += 1;
    }
    assert(bytes@.take(bytes@.len() as int) =~= bytes@);
}

/// Appends the decimal digits of `n` to `out`.
pub fn append_decimal(out: &mut Vec<u8>, n: u64)
    ensures
        final(out)@ == old(out)@ + decimal(n as nat),
    decreases n,
{
    if n >= 10 {
        append_decimal(out, n / 10);
    }
    let digit: u8 = (48 + n % 10) as u8;
    out.push(digit);
    assert(final(out)@ =~= old(out)@ + decimal(n as nat));
}

/// Appends one file, without a separator before it.
fn append_file(out: &mut Vec<u8>, record: &FlushRecord)
    ensures
        final(out)@ == old(out)@ + encoded_file(*record),
{
    append_bytes(out, record.file_path.as_str().as_bytes());
    out.push(FIELD_SEPARATOR);
    append_decimal(out, record.size);
    out.push(FIELD_SEPARATOR);
    append_bytes(out, record.file_exist_cols.as_str().as_bytes());
    assert(final(out)@ =~= old(out)@ + encoded_file(*record));
}

/// Whether record `i` is the first of its partition.
fn is_first_of_partition(records: &Vec<FlushRecord>, i: usize) -> (first: bool)
    requires
        i < records@.len(),
    ensures
        first == opens_partition(records@, i as int),
{
    let mut j: usize = 0;
    while j < i
        invariant
            j <= i,
            i < records@.len(),
            forall|k: int|
                0 <= k < j ==> (#[trigger] records@[k]).partition_desc@
                    != records@[i as int].partition_desc@,
        decreases i - j,
    {
        if records[j].partition_desc == records[i].partition_desc {
            return false;
        }
        j += 1;
    }
    true
}

/// Builds the manifest of the records.
pub fn build_manifest(records: &Vec<FlushRecord>) -> (out: Vec<u8>)
    ensures
        out@ == manifest(records@),
{
    let n = records.len();
    let mut body: Vec<u8> = Vec::new();
    let mut count: usize = 0;
    let mut i: usize = 0;
    while i < n
        invariant
            n == records@.len(),
            i <= n,
            count == partition_count(records@, i as nat),
            count <= i,
            body@ == partitions(records@, i as nat),
        decreases n - i,
    {
        if is_first_of_partition(records, i) {
            count += 1;
            body.push(PARTITION_SEPARATOR);
            append_bytes(&mut body, records[i].partition_desc.as_str().as_bytes());
            let ghost head = body@;
            let ghost desc = records@[i as int].partition_desc@;
            let mut j: usize = 0;
            while j < n
                invariant
                    n == records@.len(),
                    i < n,
                    j <= n,
                    desc == records@[i as int].partition_desc@,
                    body@ == head + partition_files(records@, desc, j as nat),
                decreases n - j,
            {
                if records[j].partition_desc == records[i].partition_desc {
                    body.push(FILE_SEPARATOR);
                    append_file(&mut body, &records[j]);
                    assert(body@ =~= head + partition_files(records@, desc, (j + 1) as nat));
                }
                j += 1;
            }
            assert(body@ =~= partitions(records@, (i + 1) as nat));
        }
        i += 1;
    }
    let mut out: Vec<u8> = Vec::new();
    append_decimal(&mut out, count as u64);
    append_bytes(&mut out, body.as_slice());
    assert(out@ =~= manifest(records@));
    out
}

} // verus!
