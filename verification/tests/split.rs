use lakesoul_io::split::{plan_write, WriteJob, WritePlan, WriteStep};

#[test]
fn a_batch_that_fits_is_written_whole() {
    assert_eq!(plan_write(100, 1000, 0, 1000), WritePlan::Whole);
    assert_eq!(plan_write(100, 400, 600, 1000), WritePlan::Whole);
    assert_eq!(plan_write(0, 0, 0, 0), WritePlan::Whole);
}

#[test]
fn a_batch_that_does_not_fit_is_cut_in_proportion() {
    // 100 rows * 250 bytes left / 1000 bytes = 25
    assert_eq!(plan_write(100, 1000, 0, 250), WritePlan::Split { keep: 25 });
    // 100 * (1000 - 600) / 401 = 99
    assert_eq!(plan_write(100, 401, 600, 1000), WritePlan::Split { keep: 99 });
    // 100 * (1000 - 600) / 800 = 50
    assert_eq!(plan_write(100, 800, 600, 1000), WritePlan::Split { keep: 50 });
    // 7 * 3 / 10 = 2
    assert_eq!(plan_write(7, 10, 0, 3), WritePlan::Split { keep: 2 });
    // 10 * (100 - 60) / 50 = 8
    assert_eq!(plan_write(10, 50, 60, 100), WritePlan::Split { keep: 8 });
    // 2 * 9 / 10 = 1
    assert_eq!(plan_write(2, 10, 0, 9), WritePlan::Split { keep: 1 });
}

#[test]
fn a_split_keeps_at_least_one_row() {
    assert_eq!(plan_write(5, 1_000_000, 0, 1), WritePlan::Split { keep: 1 });
    assert_eq!(plan_write(2, u64::MAX, 0, 0), WritePlan::Split { keep: 1 });
}

#[test]
fn a_file_over_its_bound_has_no_room_left() {
    assert_eq!(plan_write(10, 100, 500, 200), WritePlan::Split { keep: 1 });
    assert_eq!(plan_write(10, 100, u64::MAX, 200), WritePlan::Split { keep: 1 });
}

#[test]
fn a_batch_too_small_to_cut_is_written_whole() {
    assert_eq!(plan_write(1, 100, 0, 10), WritePlan::Whole);
    assert_eq!(plan_write(0, 100, 0, 10), WritePlan::Whole);
    assert_eq!(plan_write(10, 0, 500, 200), WritePlan::Whole);
}

#[test]
fn the_cut_point_does_not_overflow() {
    assert_eq!(
        plan_write(u64::MAX, u64::MAX, 0, u64::MAX / 2),
        WritePlan::Split { keep: (1 << 63) - 1 }
    );
    assert_eq!(
        plan_write(u64::MAX, u64::MAX, 0, u64::MAX - 1),
        WritePlan::Split { keep: u64::MAX - 1 }
    );
    assert_eq!(
        plan_write(u64::MAX, u64::MAX, 1, u64::MAX),
        WritePlan::Split { keep: u64::MAX - 1 }
    );
}

#[test]
fn a_job_hands_out_every_row_once_and_in_order() {
    // each row weighs 10 bytes and a file takes 250
    let mut job = WriteJob::new(100);
    assert_eq!(job.total_rows(), 100);
    assert_eq!(job.rows_left(), 100);
    let mut steps = Vec::new();
    let mut buffered = 100;
    while !job.is_done() {
        let step = job.next_step(job.rows_left() * 10, buffered, 250).unwrap();
        if step.spill {
            buffered = 0;
        }
        steps.push(step);
    }
    assert_eq!(
        steps,
        vec![
            WriteStep { offset: 0, len: 15, spill: true },
            WriteStep { offset: 15, len: 25, spill: true },
            WriteStep { offset: 40, len: 25, spill: true },
            WriteStep { offset: 65, len: 25, spill: true },
            WriteStep { offset: 90, len: 10, spill: false },
        ]
    );
    assert_eq!(steps.iter().map(|s| s.len).sum::<u64>(), 100);
    assert_eq!(job.spills(), 4);
    assert_eq!(job.rows_written(), 100);
    assert_eq!(job.rows_left(), 0);
    assert_eq!(job.next_step(0, 0, 250), None);
    assert_eq!(job.spills(), 4);
}

#[test]
fn a_batch_over_the_bound_reaches_at_least_two_files() {
    let mut job = WriteJob::new(1000);
    let first = job.next_step(4096, 0, 1024).unwrap();
    assert_eq!(first, WriteStep { offset: 0, len: 250, spill: true });
    assert!(!job.is_done());
    assert_eq!(job.spills(), 1);
    let mut files = 1;
    let mut rows = first.len;
    while let Some(step) = job.next_step(job.rows_left() * 4096 / 1000, 0, 1024) {
        rows += step.len;
        files += 1;
        assert!(step.len > 0);
    }
    assert!(files >= 2);
    assert_eq!(rows, 1000);
    assert_eq!(job.spills() + 1, files);
}

#[test]
fn a_job_without_rows_still_writes_once() {
    let mut job = WriteJob::new(0);
    assert!(!job.is_done());
    assert_eq!(job.next_step(0, 0, 10), Some(WriteStep { offset: 0, len: 0, spill: false }));
    assert!(job.is_done());
    assert_eq!(job.next_step(0, 0, 10), None);
}
