use lakesoul_io::manifest::{append_bytes, append_decimal, build_manifest, FlushRecord};
use lakesoul_io::writer::{
    select_writer, size_bound, InnerClose, WriteReadiness, WriterState, WriterError, WriterKind, WriterPhase,
};

fn record(partition: &str, path: &str, size: u64, exist: &str) -> FlushRecord {
    FlushRecord {
        partition_desc: partition.to_string(),
        file_path: path.to_string(),
        size,
        file_exist_cols: exist.to_string(),
    }
}

#[test]
fn manifest_of_one_file() {
    let out = build_manifest(&vec![record("-5", "/tmp/a.parquet", 1234, "id,name")]);
    assert_eq!(out, b"1\x01-5\x02/tmp/a.parquet\x031234\x03id,name".to_vec());
}

#[test]
fn manifest_groups_files_by_partition_in_order_of_first_use() {
    let records = vec![
        record("date=2", "f1", 10, "a"),
        record("date=1", "f2", 0, ""),
        record("date=2", "f3", 18446744073709551615, "a,b"),
        record("date=3", "f4", 7, "c"),
        record("date=1", "f5", 100, "d"),
    ];
    let expected = [
        "3",
        "\x01date=2\x02f1\x0310\x03a\x02f3\x0318446744073709551615\x03a,b",
        "\x01date=1\x02f2\x030\x03\x02f5\x03100\x03d",
        "\x01date=3\x02f4\x037\x03c",
    ]
    .concat();
    assert_eq!(build_manifest(&records), expected.into_bytes());
}

#[test]
fn manifest_of_no_file_counts_no_partition() {
    assert_eq!(build_manifest(&vec![]), b"0".to_vec());
}

#[test]
fn manifest_keeps_text_that_is_not_ascii() {
    let out = build_manifest(&vec![record("p=\u{e9}", "d/\u{4e2d}.parquet", 5, "")]);
    assert_eq!(out, "1\x01p=\u{e9}\x02d/\u{4e2d}.parquet\x035\x03".as_bytes().to_vec());
}

#[test]
fn decimal_digits() {
    let mut out = vec![b'x'];
    append_decimal(&mut out, 0);
    append_decimal(&mut out, 9);
    append_decimal(&mut out, 10);
    append_decimal(&mut out, 9051);
    append_bytes(&mut out, b"!");
    append_bytes(&mut out, b"");
    assert_eq!(out, b"x09109051!".to_vec());
}

#[test]
fn flush_and_close_lists_spilled_files_before_the_last() {
    let mut writer = WriterState::new(Some(1024));
    assert_eq!(writer.max_file_size(), Some(1024));
    assert_eq!(writer.phase(), WriterPhase::FileOpen);
    assert_eq!(writer.before_write(), Ok(WriteReadiness::Ready));
    assert_eq!(writer.spilled(InnerClose::Finished(vec![record("p", "f1", 1, "x")])), Ok(()));
    assert_eq!(writer.phase(), WriterPhase::NoFile);
    assert_eq!(writer.num_records(), 1);
    assert_eq!(writer.before_write(), Ok(WriteReadiness::OpenFile));
    writer.file_opened();
    assert_eq!(writer.phase(), WriterPhase::FileOpen);
    assert_eq!(writer.spilled(InnerClose::Finished(vec![record("q", "f2", 2, "y")])), Ok(()));
    writer.file_opened();
    let manifest = writer.flush_and_close(InnerClose::Finished(vec![record("p", "f3", 3, "z")]));
    assert_eq!(manifest, Ok(b"2\x01p\x02f1\x031\x03x\x02f3\x033\x03z\x01q\x02f2\x032\x03y".to_vec()));
    assert_eq!(writer.phase(), WriterPhase::Closed);
    assert_eq!(writer.num_records(), 0);
}

#[test]
fn writing_after_close_is_reported() {
    let mut writer = WriterState::new(None);
    assert_eq!(writer.flush_and_close(InnerClose::Finished(vec![])), Ok(b"0".to_vec()));
    assert_eq!(writer.before_write(), Err(WriterError::Closed));
    assert_eq!(writer.spilled(InnerClose::Finished(vec![record("p", "f", 1, "")])), Err(WriterError::Closed));
    assert_eq!(writer.num_records(), 0);
    assert_eq!(writer.flush_and_close(InnerClose::NoWriter), Err(WriterError::Closed));
    assert_eq!(writer.abort_and_close(true), Err(WriterError::Closed));
    writer.file_opened();
    assert_eq!(writer.phase(), WriterPhase::Closed);
}

#[test]
fn closing_a_shared_writer_fails() {
    let mut writer = WriterState::new(Some(10));
    assert_eq!(writer.flush_and_close(InnerClose::Shared), Err(WriterError::SharedWriter));
    assert_eq!(writer.phase(), WriterPhase::Closed);

    let mut writer = WriterState::new(Some(10));
    assert_eq!(writer.spilled(InnerClose::Shared), Err(WriterError::SharedWriter));
    assert_eq!(writer.phase(), WriterPhase::NoFile);

    let mut writer = WriterState::new(Some(10));
    assert_eq!(writer.abort_and_close(false), Err(WriterError::SharedWriter));
    assert_eq!(writer.phase(), WriterPhase::Closed);
}

#[test]
fn a_writer_without_file_and_without_bound_cannot_write() {
    let mut writer = WriterState::new(None);
    assert_eq!(writer.spilled(InnerClose::Finished(vec![])), Ok(()));
    assert_eq!(writer.before_write(), Err(WriterError::InvalidState));
    assert_eq!(writer.spilled(InnerClose::NoWriter), Ok(()));
    assert_eq!(writer.spilled(InnerClose::Shared), Err(WriterError::SharedWriter));
    assert_eq!(writer.flush_and_close(InnerClose::NoWriter), Ok(vec![]));

    let mut writer = WriterState::new(Some(1));
    assert_eq!(writer.flush_and_close(InnerClose::NoWriter), Err(WriterError::InvalidState));
    let mut writer = WriterState::new(Some(1));
    assert_eq!(writer.spilled(InnerClose::NoWriter), Err(WriterError::InvalidState));
}

#[test]
fn spilled_files_are_not_lost_when_no_file_is_open_at_close() {
    let mut writer = WriterState::new(Some(10));
    assert_eq!(writer.spilled(InnerClose::Finished(vec![record("p", "f1", 1, "x")])), Ok(()));
    assert_eq!(writer.flush_and_close(InnerClose::NoWriter), Ok(b"1\x01p\x02f1\x031\x03x".to_vec()));
}

#[test]
fn files_closed_while_no_file_was_known_are_kept() {
    let mut writer = WriterState::new(Some(10));
    assert_eq!(writer.spilled(InnerClose::Finished(vec![record("p", "f1", 1, "x")])), Ok(()));
    assert_eq!(writer.phase(), WriterPhase::NoFile);
    assert_eq!(writer.spilled(InnerClose::Finished(vec![record("p", "f2", 2, "y")])), Ok(()));
    assert_eq!(writer.num_records(), 2);
    assert_eq!(
        writer.flush_and_close(InnerClose::Finished(vec![record("q", "f3", 3, "z")])),
        Ok(b"2\x01p\x02f1\x031\x03x\x02f2\x032\x03y\x01q\x02f3\x033\x03z".to_vec())
    );

    let mut writer = WriterState::new(Some(10));
    assert_eq!(writer.spilled(InnerClose::Finished(vec![])), Ok(()));
    assert_eq!(writer.flush_and_close(InnerClose::Shared), Err(WriterError::SharedWriter));
    assert_eq!(writer.num_records(), 0);
}

#[test]
fn the_size_bound_follows_the_kind_of_writer() {
    let shares = Some((15, 20));
    assert_eq!(size_bound(Some(1), Some(2), shares, WriterKind::Partitioning), Some(15));
    assert_eq!(size_bound(Some(1), Some(2), shares, WriterKind::Sort), Some(20));
    assert_eq!(size_bound(Some(1), Some(2), shares, WriterKind::MultiPart), Some(2));
    assert_eq!(size_bound(Some(1), None, shares, WriterKind::MultiPart), Some(1));
    assert_eq!(size_bound(None, None, shares, WriterKind::MultiPart), None);
    assert_eq!(size_bound(None, None, shares, WriterKind::Sort), Some(20));
    assert_eq!(size_bound(Some(1), Some(2), None, WriterKind::Partitioning), Some(2));
    assert_eq!(size_bound(Some(1), None, None, WriterKind::Sort), Some(1));
    assert_eq!(size_bound(None, None, None, WriterKind::MultiPart), None);
}

#[test]
fn abort_after_a_partial_write_leaves_no_entry() {
    let mut writer = WriterState::new(Some(10));
    assert_eq!(writer.spilled(InnerClose::Finished(vec![record("p", "f1", 1, "x")])), Ok(()));
    writer.file_opened();
    assert_eq!(writer.num_records(), 1);
    assert_eq!(writer.abort_and_close(true), Ok(()));
    assert_eq!(writer.num_records(), 0);
    assert_eq!(writer.phase(), WriterPhase::Closed);
    assert_eq!(writer.flush_and_close(InnerClose::Finished(vec![])), Err(WriterError::Closed));

    let mut idle = WriterState::new(Some(10));
    assert_eq!(idle.spilled(InnerClose::Finished(vec![record("p", "f1", 1, "x")])), Ok(()));
    assert_eq!(idle.abort_and_close(false), Ok(()));
    assert_eq!(idle.num_records(), 0);
}

#[test]
fn writer_kind_follows_the_configuration() {
    assert_eq!(select_writer(true, true, false), WriterKind::Partitioning);
    assert_eq!(select_writer(true, false, true), WriterKind::Partitioning);
    assert_eq!(select_writer(false, true, false), WriterKind::Sort);
    assert_eq!(select_writer(false, true, true), WriterKind::MultiPart);
    assert_eq!(select_writer(false, false, false), WriterKind::MultiPart);
}
