use lakesoul_io::combiner::{RangeCombiner, RangeCombinerResult};
use lakesoul_io::merge_operator::{Cell, MergeOperator, Resolved};
use lakesoul_io::sort_key::{compare_keys, KeyOrder};
use lakesoul_io::sort_key_range::{RowRef, SortKeyRange, SourceBatch};

#[test]
fn keys_compare_byte_by_byte() {
    assert_eq!(compare_keys(&[1, 2, 3], &[1, 2, 3]), KeyOrder::Equal);
    assert_eq!(compare_keys(&[1, 2, 3], &[1, 2, 4]), KeyOrder::Less);
    assert_eq!(compare_keys(&[1, 3, 0], &[1, 2, 9]), KeyOrder::Greater);
    assert_eq!(compare_keys(&[0, 255], &[1, 0]), KeyOrder::Less);
    assert_eq!(compare_keys(&[255], &[0, 0]), KeyOrder::Greater);
}

#[test]
fn a_key_that_is_a_prefix_comes_first() {
    assert_eq!(compare_keys(&[], &[]), KeyOrder::Equal);
    assert_eq!(compare_keys(&[], &[0]), KeyOrder::Less);
    assert_eq!(compare_keys(&[0], &[]), KeyOrder::Greater);
    assert_eq!(compare_keys(&[7, 7], &[7, 7, 0]), KeyOrder::Less);
    assert_eq!(compare_keys(&[7, 7, 0], &[7, 7]), KeyOrder::Greater);
}

fn sample() -> SourceBatch {
    SourceBatch {
        keys: vec![vec![1], vec![1], vec![4]],
        columns: vec![
            vec![Cell::Int(10), Cell::Int(11), Cell::Int(12)],
            vec![Cell::Opaque, Cell::Null, Cell::Opaque],
        ],
    }
}

#[test]
fn a_range_walks_its_batch_row_by_row() {
    let mut range = SortKeyRange::new(2, 9, sample()).unwrap();
    assert_eq!(range.stream_idx(), 2);
    assert_eq!(range.batch_idx(), 9);
    assert_eq!(range.row(), 0);
    assert!(!range.is_finished());
    assert_eq!(range.current_key(), Some(&vec![1]));
    range.advance();
    assert_eq!(range.row(), 1);
    assert_eq!(range.current_key(), Some(&vec![1]));
    range.advance();
    assert_eq!(range.current_key(), Some(&vec![4]));
    assert!(!range.is_finished());
    range.advance();
    assert!(range.is_finished());
    assert_eq!(range.row(), 3);
    assert_eq!(range.current_key(), None);
    range.advance();
    assert_eq!(range.row(), 3);
}

#[test]
fn a_range_over_no_rows_is_finished() {
    let range = SortKeyRange::new(0, 1, SourceBatch { keys: vec![], columns: vec![vec![]] }).unwrap();
    assert!(range.is_finished());
    assert_eq!(range.current_key(), None);
    assert_eq!(range.project(&vec![0], 1), None);
}

#[test]
fn a_malformed_batch_gives_no_range() {
    let short = SourceBatch { keys: vec![vec![1], vec![2]], columns: vec![vec![Cell::Null]] };
    assert!(!short.is_well_formed());
    assert!(SortKeyRange::new(0, 1, short).is_none());
    assert!(sample().is_well_formed());
    assert_eq!(sample().num_rows(), 3);
}

#[test]
fn projection_lays_the_row_out_in_target_columns() {
    let mut range = SortKeyRange::new(0, 1, sample()).unwrap();
    assert_eq!(
        range.project(&vec![0, 2], 4),
        Some(vec![Some(Cell::Int(10)), None, Some(Cell::Opaque), None])
    );
    range.advance();
    assert_eq!(range.project(&vec![3, 1], 4), Some(vec![None, Some(Cell::Null), None, Some(Cell::Int(11))]));
    assert_eq!(range.project(&vec![1, 1], 2), Some(vec![None, Some(Cell::Null)]));
    assert_eq!(range.project(&vec![5, 0], 2), Some(vec![Some(Cell::Null), None]));
    assert_eq!(range.project(&vec![0], 2), Some(vec![Some(Cell::Int(11)), None]));
    assert_eq!(range.project(&vec![0, 1, 1], 2), Some(vec![Some(Cell::Int(11)), Some(Cell::Null)]));
    assert_eq!(range.project(&vec![], 0), Some(vec![]));
}

fn keyed(stream: usize, batch: usize, keys: &[u8]) -> SortKeyRange {
    let batch_rows = SourceBatch { keys: keys.iter().map(|k| vec![*k]).collect(), columns: vec![] };
    SortKeyRange::new(stream, batch, batch_rows).unwrap()
}

#[test]
fn ranges_are_ordered_by_key_and_then_by_stream() {
    let low = keyed(1, 1, &[3]);
    let high = keyed(0, 2, &[5]);
    assert!(low.precedes(&high));
    assert!(!high.precedes(&low));
    let first = keyed(0, 3, &[5]);
    let second = keyed(1, 4, &[5]);
    assert!(first.precedes(&second));
    assert!(!second.precedes(&first));
    assert!(!first.precedes(&keyed(0, 5, &[5])));
    let done = keyed(0, 6, &[]);
    assert!(!done.precedes(&first));
    assert!(!first.precedes(&done));
}

#[test]
fn combiner_turns_away_ranges_it_cannot_hold() {
    let mut combiner = RangeCombiner::new(1, vec![vec![0], vec![0]], 2, vec![]);
    assert_eq!(combiner.num_streams(), 2);
    assert!(!combiner.has_range(0));
    assert!(!combiner.push_range(keyed(2, 1, &[1])));
    assert!(!combiner.push_range(keyed(0, 1, &[])));
    assert!(combiner.push_range(keyed(0, 1, &[1])));
    assert!(combiner.has_range(0));
    assert!(!combiner.has_range(1));
    assert!(!combiner.has_range(2));
    assert!(!combiner.push_range(keyed(0, 2, &[2])));
}

#[test]
fn combiner_resolves_tie_groups_and_fills_batches() {
    let value = |stream: usize, seq: usize, key: u8, v: i64| {
        let rows = SourceBatch { keys: vec![vec![key]], columns: vec![vec![Cell::Int(v)]] };
        SortKeyRange::new(stream, seq, rows).unwrap()
    };
    let mut combiner =
        RangeCombiner::new(1, vec![vec![0], vec![0]], 2, vec![MergeOperator::SumAll]);
    assert!(matches!(combiner.poll_result(), RangeCombinerResult::Drained));
    assert!(combiner.push_range(value(1, 1, 1, 5)));
    assert!(combiner.push_range(value(0, 2, 1, 7)));
    match combiner.poll_result() {
        RangeCombinerResult::Range(range) => {
            assert_eq!(range.stream_idx(), 0);
            assert!(range.is_finished());
        }
        _ => panic!("the range of stream 0 was due"),
    }
    match combiner.poll_result() {
        RangeCombinerResult::Range(range) => assert_eq!(range.stream_idx(), 1),
        _ => panic!("the range of stream 1 was due"),
    }
    assert!(combiner.push_range(value(1, 3, 2, 1)));
    assert!(matches!(combiner.poll_result(), RangeCombinerResult::Range(_)));
    assert!(combiner.push_range(value(0, 4, 3, 2)));
    assert!(matches!(combiner.poll_result(), RangeCombinerResult::Range(_)));
    match combiner.poll_result() {
        RangeCombinerResult::RecordBatch(rows) => {
            assert_eq!(rows.len(), 2);
            assert_eq!(rows[0].key, vec![1]);
            assert_eq!(
                rows[0].members,
                vec![RowRef { stream: 0, batch: 2, row: 0 }, RowRef { stream: 1, batch: 1, row: 0 }]
            );
            assert_eq!(rows[0].cells, vec![Resolved::Sum(12)]);
            assert_eq!(rows[1].key, vec![2]);
            assert_eq!(rows[1].cells, vec![Resolved::Sum(1)]);
        }
        _ => panic!("a full batch was due"),
    }
    match combiner.poll_result() {
        RangeCombinerResult::RecordBatch(rows) => {
            assert_eq!(rows.len(), 1);
            assert_eq!(rows[0].key, vec![3]);
        }
        _ => panic!("the last batch was due"),
    }
    assert!(matches!(combiner.poll_result(), RangeCombinerResult::Drained));
}
