use lakesoul_io::combiner::MergedRow;
use lakesoul_io::merge_operator::{Cell, MergeOperator, Resolved};
use lakesoul_io::merger::{MergeError, MergeStep, SortedStreamMerger, StreamPhase};
use lakesoul_io::sort_key_range::{RowRef, SourceBatch};

/// The comparable form of an `i32` key: big-endian with the sign bit flipped.
fn key_of(v: i32) -> Vec<u8> {
    ((v as u32) ^ 0x8000_0000).to_be_bytes().to_vec()
}

fn int_of(key: &[u8]) -> i32 {
    let mut raw = [0u8; 4];
    raw.copy_from_slice(key);
    (u32::from_be_bytes(raw) ^ 0x8000_0000) as i32
}

fn names(fields: &[&str]) -> Vec<String> {
    fields.iter().map(|f| f.to_string()).collect()
}

/// A batch whose first column is the key column.
fn batch(ids: &[i32], rest: Vec<Vec<Cell>>) -> SourceBatch {
    let mut columns = vec![ids.iter().map(|v| Cell::Int(*v as i64)).collect::<Vec<Cell>>()];
    columns.extend(rest);
    SourceBatch { keys: ids.iter().map(|v| key_of(*v)).collect(), columns }
}

fn ints(values: &[i32]) -> Vec<Cell> {
    values.iter().map(|v| Cell::Int(*v as i64)).collect()
}

fn opaque(nulls: &[bool]) -> Vec<Cell> {
    nulls.iter().map(|null| if *null { Cell::Null } else { Cell::Opaque }).collect()
}

/// Where each batch that was taken in came from: sequence number to
/// (stream, position of the batch in its stream).
type Origins = Vec<(usize, usize, usize)>;

/// Runs the merger over in-memory streams, pulling whatever it asks for.
fn run(
    merger: &mut SortedStreamMerger,
    streams: Vec<Vec<SourceBatch>>,
) -> (Vec<Vec<MergedRow>>, Origins) {
    let mut sources: Vec<std::collections::VecDeque<SourceBatch>> =
        streams.into_iter().map(|s| s.into_iter().collect()).collect();
    let mut pulled = vec![0usize; sources.len()];
    let mut origins: Origins = Vec::new();
    let mut out = Vec::new();
    loop {
        match merger.poll_next() {
            MergeStep::Pull(i) => match sources[i].pop_front() {
                Some(next) => {
                    if let Some(seq) = merger.push_batch(i, next).unwrap() {
                        origins.push((seq, i, pulled[i]));
                    }
                    pulled[i] += 1;
                }
                None => merger.end_of_stream(i).unwrap(),
            },
            MergeStep::Batch(rows) => out.push(rows),
            MergeStep::Done => break,
            MergeStep::Aborted => panic!("aborted"),
        }
    }
    (out, origins)
}

fn keys_of(batches: &[Vec<MergedRow>]) -> Vec<i32> {
    batches.iter().flatten().map(|row| int_of(&row.key)).collect()
}

fn one_column_streams() -> Vec<Vec<SourceBatch>> {
    let col = |v: &[i32]| batch(v, vec![]);
    vec![
        vec![col(&[1, 1, 3, 3, 4]), col(&[4, 5]), col(&[]), col(&[5]), col(&[5, 6, 6])],
        vec![col(&[3, 4]), col(&[4, 5]), col(&[]), col(&[5]), col(&[5, 7])],
        vec![col(&[]), col(&[5]), col(&[5, 7]), col(&[7, 9]), col(&[]), col(&[10])],
    ]
}

#[test]
fn test_sorted_stream_merger() {
    let schema = names(&["a"]);
    let mut merger = SortedStreamMerger::new_from_streams(
        vec![schema.clone(), schema.clone(), schema.clone()],
        schema,
        names(&["a"]),
        2,
        vec![],
    )
    .unwrap();
    let (merged, _) = run(&mut merger, one_column_streams());
    assert_eq!(keys_of(&merged), vec![1, 3, 4, 5, 6, 7, 9, 10]);
    let sizes: Vec<usize> = merged.iter().map(|b| b.len()).collect();
    assert_eq!(sizes, vec![2, 2, 2, 2]);
}

fn multi_column_streams() -> Vec<Vec<SourceBatch>> {
    let two = |ids: &[i32], vals: &[i32]| batch(ids, vec![ints(vals)]);
    vec![
        vec![
            two(&[1, 1, 3, 3, 4], &[10001, 10002, 10003, 10004, 10005]),
            two(&[4, 5], &[10006, 10007]),
            two(&[], &[]),
            two(&[5], &[10008]),
            two(&[5, 5, 6], &[10009, 10010, 10011]),
        ],
        vec![
            two(&[3, 4], &[20001, 20002]),
            two(&[4, 5], &[20003, 20004]),
            two(&[], &[]),
            two(&[5], &[20005]),
            two(&[5, 7], &[20006, 20007]),
        ],
        vec![
            two(&[], &[]),
            two(&[5, 5], &[30001, 30002]),
            two(&[5, 7], &[30003, 30004]),
            two(&[], &[]),
            two(&[7, 9], &[30005, 30006]),
            two(&[10], &[30007]),
        ],
    ]
}

/// The value that an outcome stands for, looked up in the source batches.
fn value_at(
    row: &MergedRow,
    column: usize,
    streams: &[Vec<Vec<i64>>],
    origins: &Origins,
) -> Option<i64> {
    match row.cells[column] {
        Resolved::Null => None,
        Resolved::Sum(total) => Some(total),
        Resolved::Take(i) => {
            let RowRef { stream, batch, row } = row.members[i];
            let (_, from, position) = *origins.iter().find(|(seq, _, _)| *seq == batch).unwrap();
            assert_eq!(from, stream);
            let before: usize = multi_column_streams()[stream][..position]
                .iter()
                .map(|b| b.keys.len())
                .sum();
            Some(streams[stream][0][before + row])
        }
    }
}

/// The rows of a stream of two columns, batch after batch.
fn table_of(stream: &[SourceBatch]) -> Vec<(i32, i64)> {
    let mut rows = Vec::new();
    for batch in stream {
        for (key, value) in batch.keys.iter().zip(batch.columns[1].iter()) {
            match value {
                Cell::Int(v) => rows.push((int_of(key), *v)),
                other => panic!("not an integer: {:?}", other),
            }
        }
    }
    rows
}

#[test]
fn test_sorted_stream_merger_multi_columns() {
    let streams = multi_column_streams();
    assert_eq!(
        table_of(&streams[0]),
        vec![
            (1, 10001),
            (1, 10002),
            (3, 10003),
            (3, 10004),
            (4, 10005),
            (4, 10006),
            (5, 10007),
            (5, 10008),
            (5, 10009),
            (5, 10010),
            (6, 10011),
        ]
    );
    assert_eq!(
        table_of(&streams[1]),
        vec![
            (3, 20001),
            (4, 20002),
            (4, 20003),
            (5, 20004),
            (5, 20005),
            (5, 20006),
            (7, 20007),
        ]
    );
    assert_eq!(
        table_of(&streams[2]),
        vec![
            (5, 30001),
            (5, 30002),
            (5, 30003),
            (7, 30004),
            (7, 30005),
            (9, 30006),
            (10, 30007),
        ]
    );

    let mut merger = SortedStreamMerger::new_from_streams(
        vec![names(&["id", "a"]), names(&["id", "b"]), names(&["id", "c"])],
        names(&["id", "a", "b", "c"]),
        names(&["id"]),
        2,
        vec![],
    )
    .unwrap();
    run(&mut merger, streams);
}

#[test]
fn use_last_takes_each_column_from_the_last_row_that_has_it() {
    let mut merger = SortedStreamMerger::new_from_streams(
        vec![names(&["id", "a"]), names(&["id", "b"]), names(&["id", "c"])],
        names(&["id", "a", "b", "c"]),
        names(&["id"]),
        2,
        vec![
            MergeOperator::UseLast,
            MergeOperator::UseLast,
            MergeOperator::UseLast,
            MergeOperator::UseLast,
        ],
    )
    .unwrap();
    assert!(merger.is_partial_merge());
    let (merged, origins) = run(&mut merger, multi_column_streams());
    assert_eq!(keys_of(&merged), vec![1, 3, 4, 5, 6, 7, 9, 10]);
    let values: Vec<Vec<i64>> = vec![
        vec![10001, 10002, 10003, 10004, 10005, 10006, 10007, 10008, 10009, 10010, 10011],
        vec![20001, 20002, 20003, 20004, 20005, 20006, 20007],
        vec![30001, 30002, 30003, 30004, 30005, 30006, 30007],
    ];
    let by_stream: Vec<Vec<Vec<i64>>> = values.into_iter().map(|v| vec![v]).collect();
    let rows: Vec<&MergedRow> = merged.iter().flatten().collect();
    let table: Vec<(Option<i64>, Option<i64>, Option<i64>)> = rows
        .iter()
        .map(|r| {
            (
                value_at(r, 1, &by_stream, &origins),
                value_at(r, 2, &by_stream, &origins),
                value_at(r, 3, &by_stream, &origins),
            )
        })
        .collect();
    assert_eq!(
        table,
        vec![
            (Some(10002), None, None),
            (Some(10004), Some(20001), None),
            (Some(10006), Some(20003), None),
            (Some(10010), Some(20006), Some(30003)),
            (Some(10011), None, None),
            (None, Some(20007), Some(30005)),
            (None, None, Some(30006)),
            (None, None, Some(30007)),
        ]
    );
}

/// Column `b` holds floats: the merge moves them without reading them.
const S1_B: [Option<f64>; 11] = [
    Some(1.2),
    Some(2.0),
    None,
    Some(4.8),
    Some(4.8),
    Some(1.2),
    Some(2.3),
    Some(4.4),
    Some(1.51),
    Some(1.52),
    Some(1.61),
];
const S2_B: [Option<f64>; 7] =
    [None, Some(3.5), Some(1.2), Some(2.3), Some(4.4), Some(1.51), None];
const S3_B: [Option<f64>; 7] = [Some(3.2), Some(3.2), None, None, None, None, Some(1.51)];
const S1_C: [&str; 11] = [
    "1001", "102", "10003", "10004", "15", "1006", "10007", "100008", "10009", "10010", "10011",
];
const S2_C: [&str; 7] = ["201", "200002", "20003", "20004", "20005", "20006", "20007"];
const S3_D: [&str; 7] = ["30001", "30002", "33", "30004", "30005", "30006", "300007"];

fn nulls_of(values: &[Option<f64>]) -> Vec<bool> {
    values.iter().map(|v| v.is_none()).collect()
}

fn sum_and_last_streams() -> Vec<Vec<SourceBatch>> {
    let four = |ids: &[i32], a: &[i32], b: &[Option<f64>]| {
        let text = vec![false; ids.len()];
        batch(ids, vec![ints(a), opaque(&nulls_of(b)), opaque(&text)])
    };
    vec![
        vec![
            four(&[1, 1, 3, 3, 4], &[1, 9, 3, 4, 9], &S1_B[0..5]),
            four(&[4, 5], &[9, 3], &S1_B[5..7]),
            four(&[], &[], &[]),
            four(&[5], &[5], &S1_B[7..8]),
            four(&[5, 5, 6], &[5, 5, 60], &S1_B[8..11]),
        ],
        vec![
            four(&[3, 4], &[23, 13], &S2_B[0..2]),
            four(&[4, 5], &[9, 5], &S2_B[2..4]),
            four(&[], &[], &[]),
            four(&[5], &[5], &S2_B[4..5]),
            four(&[5, 7], &[5, 55], &S2_B[5..7]),
        ],
        vec![
            four(&[], &[], &[]),
            four(&[5, 5], &[5, 8], &S3_B[0..2]),
            four(&[5, 7], &[4, 10], &S3_B[2..4]),
            four(&[], &[], &[]),
            four(&[7, 9], &[5, 90], &S3_B[4..6]),
            four(&[10], &[100], &S3_B[6..7]),
        ],
    ]
}

/// The position in its stream of the row that an outcome takes.
fn taken_row(row: &MergedRow, column: usize, origins: &Origins) -> Option<(usize, usize)> {
    match row.cells[column] {
        Resolved::Take(i) => {
            let RowRef { stream, batch, row } = row.members[i];
            let (_, from, position) = *origins.iter().find(|(seq, _, _)| *seq == batch).unwrap();
            assert_eq!(from, stream);
            let before: usize = sum_and_last_streams()[stream][..position]
                .iter()
                .map(|b| b.keys.len())
                .sum();
            Some((stream, before + row))
        }
        _ => None,
    }
}

#[test]
fn test_sorted_stream_merger_with_sum_and_last() {
    let mut merger = SortedStreamMerger::new_from_streams(
        vec![
            names(&["id", "a", "b", "c"]),
            names(&["id", "a", "b", "c"]),
            names(&["id", "a", "b", "d"]),
        ],
        names(&["id", "a", "b", "c", "d"]),
        names(&["id"]),
        2,
        vec![
            MergeOperator::UseLast,
            MergeOperator::SumAll,
            MergeOperator::UseLastNotNull,
            MergeOperator::UseLast,
            MergeOperator::UseLast,
        ],
    )
    .unwrap();
    let (merged, origins) = run(&mut merger, sum_and_last_streams());
    let rows: Vec<&MergedRow> = merged.iter().flatten().collect();
    assert_eq!(keys_of(&merged), vec![1, 3, 4, 5, 6, 7, 9, 10]);

    let sums: Vec<Resolved> = rows.iter().map(|r| r.cells[1]).collect();
    assert_eq!(
        sums,
        vec![
            Resolved::Sum(10),
            Resolved::Sum(30),
            Resolved::Sum(40),
            Resolved::Sum(50),
            Resolved::Sum(60),
            Resolved::Sum(70),
            Resolved::Sum(90),
            Resolved::Sum(100),
        ]
    );

    let b_of = |row: &MergedRow| -> Option<f64> {
        taken_row(row, 2, &origins).and_then(|(stream, at)| match stream {
            0 => S1_B[at],
            1 => S2_B[at],
            _ => S3_B[at],
        })
    };
    let b: Vec<Option<f64>> = rows.iter().map(|r| b_of(r)).collect();
    assert_eq!(
        b,
        vec![Some(2.0), Some(4.8), Some(1.2), Some(3.2), Some(1.61), None, None, Some(1.51)]
    );

    let c_of = |row: &MergedRow| -> Option<&str> {
        taken_row(row, 3, &origins).map(|(stream, at)| match stream {
            0 => S1_C[at],
            _ => S2_C[at],
        })
    };
    let c: Vec<Option<&str>> = rows.iter().map(|r| c_of(r)).collect();
    assert_eq!(
        c,
        vec![
            Some("102"),
            Some("201"),
            Some("20003"),
            Some("20006"),
            Some("10011"),
            Some("20007"),
            None,
            None,
        ]
    );

    let d: Vec<Option<&str>> =
        rows.iter().map(|r| taken_row(r, 4, &origins).map(|(_, at)| S3_D[at])).collect();
    assert_eq!(
        d,
        vec![
            None,
            None,
            None,
            Some("33"),
            None,
            Some("30005"),
            Some("30006"),
            Some("300007"),
        ]
    );
}

#[test]
fn merged_output_is_sorted_with_one_row_per_key() {
    let schema = names(&["a"]);
    for batch_size in [1usize, 3, 100] {
        let mut merger = SortedStreamMerger::new_from_streams(
            vec![schema.clone(), schema.clone(), schema.clone()],
            schema.clone(),
            names(&["a"]),
            batch_size,
            vec![],
        )
        .unwrap();
        let (merged, _) = run(&mut merger, one_column_streams());
        let keys = keys_of(&merged);
        assert_eq!(keys, vec![1, 3, 4, 5, 6, 7, 9, 10]);
        assert!(keys.windows(2).all(|w| w[0] < w[1]));
        for full in &merged[..merged.len() - 1] {
            assert_eq!(full.len(), batch_size);
        }
        assert!(merged.last().unwrap().len() <= batch_size);
    }
}

#[test]
fn tie_group_lists_rows_by_stream_then_position() {
    let schema = names(&["a"]);
    let mut merger = SortedStreamMerger::new_from_streams(
        vec![schema.clone(), schema.clone()],
        schema,
        names(&["a"]),
        10,
        vec![],
    )
    .unwrap();
    let streams =
        vec![vec![batch(&[5, 5], vec![]), batch(&[5], vec![])], vec![batch(&[5, 8], vec![])]];
    let (merged, _) = run(&mut merger, streams);
    assert_eq!(merged.len(), 1);
    assert_eq!(merged[0].len(), 2);
    assert_eq!(
        merged[0][0].members,
        vec![
            RowRef { stream: 0, batch: 1, row: 0 },
            RowRef { stream: 0, batch: 1, row: 1 },
            RowRef { stream: 0, batch: 3, row: 0 },
            RowRef { stream: 1, batch: 2, row: 0 },
        ]
    );
    assert_eq!(merged[0][1].members, vec![RowRef { stream: 1, batch: 2, row: 1 }]);
}

#[test]
fn partial_merge_leaves_missing_columns_null() {
    let mut merger = SortedStreamMerger::new_from_streams(
        vec![names(&["id", "a"]), names(&["id", "b"]), names(&["id", "c"])],
        names(&["id", "a", "b", "c"]),
        names(&["id"]),
        8,
        vec![],
    )
    .unwrap();
    assert!(merger.is_partial_merge());
    let streams = vec![
        vec![batch(&[1], vec![ints(&[11])])],
        vec![batch(&[2], vec![ints(&[22])])],
        vec![batch(&[3], vec![ints(&[33])])],
    ];
    let (merged, _) = run(&mut merger, streams);
    let row = &merged[0][1];
    assert_eq!(int_of(&row.key), 2);
    assert_eq!(row.members, vec![RowRef { stream: 1, batch: 2, row: 0 }]);
    assert_eq!(
        row.cells,
        vec![Resolved::Take(0), Resolved::Null, Resolved::Take(0), Resolved::Null]
    );
}

#[test]
fn unconfigured_columns_keep_the_first_value() {
    let schema = names(&["id", "v"]);
    let mut merger = SortedStreamMerger::new_from_streams(
        vec![schema.clone(), schema.clone()],
        schema,
        names(&["id"]),
        4,
        vec![],
    )
    .unwrap();
    assert!(!merger.is_partial_merge());
    let streams =
        vec![vec![batch(&[7], vec![ints(&[1])])], vec![batch(&[7], vec![ints(&[2])])]];
    let (merged, _) = run(&mut merger, streams);
    assert_eq!(merged[0][0].cells, vec![Resolved::Take(0), Resolved::Take(0)]);
    assert_eq!(MergeOperator::default(), MergeOperator::KeepFirst);
}

#[test]
fn empty_batch_is_skipped_and_stream_stays_awaited() {
    let schema = names(&["a"]);
    let mut merger = SortedStreamMerger::new_from_streams(
        vec![schema.clone()],
        schema,
        names(&["a"]),
        2,
        vec![],
    )
    .unwrap();
    assert!(merger.awaits(0));
    assert!(matches!(merger.poll_next(), MergeStep::Pull(0)));
    assert_eq!(merger.push_batch(0, batch(&[], vec![])), Ok(None));
    assert_eq!(merger.phase(0), Some(StreamPhase::Awaiting));
    assert!(merger.awaits(0));
    assert!(matches!(merger.poll_next(), MergeStep::Pull(0)));
    assert_eq!(merger.push_batch(0, batch(&[4], vec![])), Ok(Some(1)));
    assert_eq!(merger.phase(0), Some(StreamPhase::Live));
    assert!(matches!(merger.poll_next(), MergeStep::Pull(0)));
    assert_eq!(merger.push_batch(0, batch(&[], vec![])), Ok(None));
    assert!(matches!(merger.poll_next(), MergeStep::Pull(0)));
    assert_eq!(merger.end_of_stream(0), Ok(()));
    assert_eq!(merger.phase(0), Some(StreamPhase::Exhausted));
    match merger.poll_next() {
        MergeStep::Batch(rows) => {
            assert_eq!(rows.len(), 1);
            assert_eq!(int_of(&rows[0].key), 4);
            assert_eq!(rows[0].members, vec![RowRef { stream: 0, batch: 1, row: 0 }]);
        }
        _ => panic!("a batch was due"),
    }
    assert!(matches!(merger.poll_next(), MergeStep::Done));
    assert!(matches!(merger.poll_next(), MergeStep::Done));
}

#[test]
fn only_empty_batches_give_no_output() {
    let schema = names(&["a"]);
    let mut merger = SortedStreamMerger::new_from_streams(
        vec![schema.clone(), schema.clone()],
        schema,
        names(&["a"]),
        2,
        vec![],
    )
    .unwrap();
    let streams = vec![vec![batch(&[], vec![]), batch(&[], vec![])], vec![]];
    let (merged, origins) = run(&mut merger, streams);
    assert!(merged.is_empty());
    assert!(origins.is_empty());
}

#[test]
fn lowest_awaiting_stream_is_pulled_first() {
    let schema = names(&["a"]);
    let mut merger = SortedStreamMerger::new_from_streams(
        vec![schema.clone(), schema.clone(), schema.clone()],
        schema,
        names(&["a"]),
        2,
        vec![],
    )
    .unwrap();
    assert_eq!(merger.num_streams(), 3);
    assert!(matches!(merger.poll_next(), MergeStep::Pull(0)));
    assert_eq!(merger.push_batch(1, batch(&[1], vec![])), Ok(Some(1)));
    assert!(matches!(merger.poll_next(), MergeStep::Pull(0)));
    assert_eq!(merger.end_of_stream(0), Ok(()));
    assert!(matches!(merger.poll_next(), MergeStep::Pull(2)));
}

#[test]
fn abort_ends_the_merge() {
    let schema = names(&["a"]);
    let mut merger = SortedStreamMerger::new_from_streams(
        vec![schema.clone(), schema.clone()],
        schema,
        names(&["a"]),
        2,
        vec![],
    )
    .unwrap();
    assert_eq!(merger.push_batch(0, batch(&[1, 2], vec![])), Ok(Some(1)));
    assert!(!merger.aborted());
    merger.abort();
    assert!(merger.aborted());
    assert!(!merger.awaits(1));
    assert!(matches!(merger.poll_next(), MergeStep::Aborted));
    assert_eq!(merger.push_batch(1, batch(&[1], vec![])), Err(MergeError::Aborted));
    assert_eq!(merger.end_of_stream(1), Err(MergeError::Aborted));
    assert!(matches!(merger.poll_next(), MergeStep::Aborted));
}

#[test]
fn construction_reports_the_first_missing_primary_key() {
    let result = SortedStreamMerger::new_from_streams(
        vec![names(&["id", "a"]), names(&["a", "b"]), names(&["x"])],
        names(&["id", "a", "b"]),
        names(&["a", "id"]),
        2,
        vec![],
    );
    assert_eq!(result.err(), Some(MergeError::MissingPrimaryKey { stream: 1, key: 1 }));
}

#[test]
fn construction_reports_the_first_field_missing_from_the_target() {
    let result = SortedStreamMerger::new_from_streams(
        vec![names(&["id", "a"]), names(&["id", "b", "c"])],
        names(&["id", "a"]),
        names(&["id"]),
        0,
        vec![],
    );
    assert_eq!(result.err(), Some(MergeError::FieldNotInTarget { stream: 1, field: 1 }));
}

#[test]
fn a_batch_size_of_zero_gives_batches_of_one_row() {
    let mut merger = SortedStreamMerger::new_from_streams(
        vec![names(&["id"]), names(&["id"])],
        names(&["id"]),
        names(&["id"]),
        0,
        vec![],
    )
    .unwrap();
    let streams = vec![vec![batch(&[1, 2, 2], vec![])], vec![batch(&[2, 3], vec![])]];
    let (out, _) = run(&mut merger, streams);
    assert_eq!(out.iter().map(|rows| rows.len()).collect::<Vec<usize>>(), vec![1, 1, 1]);
    assert_eq!(keys_of(&out), vec![1, 2, 3]);
}

#[test]
fn push_batch_turns_down_what_it_cannot_take() {
    let schema = names(&["id", "a"]);
    let mut merger = SortedStreamMerger::new_from_streams(
        vec![schema.clone(), schema.clone()],
        schema,
        names(&["id"]),
        2,
        vec![],
    )
    .unwrap();
    assert_eq!(
        merger.push_batch(2, batch(&[1], vec![ints(&[1])])),
        Err(MergeError::UnknownStream)
    );
    assert_eq!(merger.end_of_stream(2), Err(MergeError::UnknownStream));
    let short = SourceBatch { keys: vec![key_of(1), key_of(2)], columns: vec![ints(&[1])] };
    assert_eq!(merger.push_batch(0, short), Err(MergeError::MalformedBatch));
    assert_eq!(merger.phase(0), Some(StreamPhase::Awaiting));
    assert_eq!(merger.push_batch(0, batch(&[1], vec![ints(&[1])])), Ok(Some(1)));
    assert_eq!(
        merger.push_batch(0, batch(&[2], vec![ints(&[2])])),
        Err(MergeError::NotAwaited)
    );
    assert_eq!(merger.end_of_stream(0), Err(MergeError::NotAwaited));
    assert_eq!(merger.end_of_stream(1), Ok(()));
    assert_eq!(
        merger.push_batch(1, batch(&[2], vec![ints(&[2])])),
        Err(MergeError::NotAwaited)
    );
    assert_eq!(merger.phase(7), None);
}
