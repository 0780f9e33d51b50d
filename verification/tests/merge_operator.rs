use lakesoul_io::merge_operator::{Cell, MergeOperator, Resolved};

fn num(v: i64) -> Option<Cell> {
    Some(Cell::Int(v))
}

#[test]
fn use_last_takes_the_last_live_range() {
    let tied = vec![num(5), num(9), num(3)];
    assert_eq!(MergeOperator::UseLast.resolve(&tied), Resolved::Take(2));
    assert_eq!(tied[2], num(3));
}

#[test]
fn use_last_takes_a_null_if_it_came_last() {
    let tied = vec![num(5), Some(Cell::Null)];
    assert_eq!(MergeOperator::UseLast.resolve(&tied), Resolved::Take(1));
}

#[test]
fn use_last_passes_over_sources_without_the_column() {
    assert_eq!(MergeOperator::UseLast.resolve(&vec![num(5), num(9), None]), Resolved::Take(1));
    assert_eq!(MergeOperator::UseLast.resolve(&vec![None, None]), Resolved::Null);
    assert_eq!(MergeOperator::UseLast.resolve(&vec![]), Resolved::Null);
}

#[test]
fn use_last_not_null_skips_nulls_and_absent_values() {
    let op = MergeOperator::UseLastNotNull;
    assert_eq!(op.resolve(&vec![num(1), Some(Cell::Opaque), Some(Cell::Null), None]), Resolved::Take(1));
    assert_eq!(op.resolve(&vec![num(1), Some(Cell::Null)]), Resolved::Take(0));
    assert_eq!(op.resolve(&vec![Some(Cell::Null), None, Some(Cell::Null)]), Resolved::Null);
    assert_eq!(op.resolve(&vec![]), Resolved::Null);
}

#[test]
fn sum_all_counts_absent_values_as_zero() {
    assert_eq!(MergeOperator::SumAll.resolve(&vec![num(1), None, num(3)]), Resolved::Sum(4));
}

#[test]
fn sum_all_adds_every_integer() {
    let op = MergeOperator::SumAll;
    assert_eq!(op.resolve(&vec![num(3), num(5), num(5), num(5)]), Resolved::Sum(18));
    assert_eq!(op.resolve(&vec![num(-7), Some(Cell::Null), num(2)]), Resolved::Sum(-5));
    assert_eq!(op.resolve(&vec![num(0)]), Resolved::Sum(0));
    assert_eq!(op.resolve(&vec![num(4), Some(Cell::Opaque)]), Resolved::Sum(4));
}

#[test]
fn sum_all_of_no_integer_is_null() {
    let op = MergeOperator::SumAll;
    assert_eq!(op.resolve(&vec![]), Resolved::Null);
    assert_eq!(op.resolve(&vec![None, Some(Cell::Null)]), Resolved::Null);
    assert_eq!(op.resolve(&vec![Some(Cell::Opaque)]), Resolved::Null);
}

#[test]
fn sum_all_wraps_on_overflow() {
    let op = MergeOperator::SumAll;
    assert_eq!(op.resolve(&vec![num(i64::MAX), num(1)]), Resolved::Sum(i64::MIN));
    assert_eq!(op.resolve(&vec![num(i64::MIN), num(-1)]), Resolved::Sum(i64::MAX));
    assert_eq!(op.resolve(&vec![num(i64::MAX), num(1), num(-1)]), Resolved::Sum(i64::MAX));
}

#[test]
fn keep_first_takes_the_first_value_that_is_there() {
    let op = MergeOperator::KeepFirst;
    assert_eq!(op.resolve(&vec![num(5), num(9), num(3)]), Resolved::Take(0));
    assert_eq!(op.resolve(&vec![None, Some(Cell::Null), num(3)]), Resolved::Take(1));
    assert_eq!(op.resolve(&vec![None, None]), Resolved::Null);
    assert_eq!(op.resolve(&vec![]), Resolved::Null);
}

#[test]
fn default_operator_keeps_the_first() {
    assert_eq!(MergeOperator::default(), MergeOperator::KeepFirst);
}
