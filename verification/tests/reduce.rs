use sumbench::partition::chunk_ranges;
use sumbench::reduce::{chunked_sum, combine, p_mt, WorkerFailed, WORKERS};
use sumbench::sum::p;

#[test]
fn worker_count_is_twelve() {
    assert_eq!(WORKERS, 12);
}

#[test]
fn twelve_twos_in_twelve_chunks() {
    let data = vec![2; 12];
    assert_eq!(p_mt(&data), 24);
    assert_eq!(p(&data), 24);
}

#[test]
fn thirteen_ones_in_seven_chunks() {
    let data = vec![1; 13];
    assert_eq!(p_mt(&data), 13);
    assert_eq!(p(&data), 13);
}

#[test]
fn empty_dataset_sums_to_zero_either_way() {
    let data: Vec<i32> = Vec::new();
    assert_eq!(p_mt(&data), 0);
    assert_eq!(p(&data), 0);
    assert_eq!(chunked_sum(&data, 1), 0);
}

#[test]
fn chunked_sum_equals_sequential_sum() {
    for len in 0..120usize {
        let data: Vec<i32> = (0..len).map(|i| (i as i32) * 7919 - 300_000).collect();
        let expected = p(&data);
        assert_eq!(p_mt(&data), expected);
        for workers in 1..20usize {
            assert_eq!(chunked_sum(&data, workers), expected);
        }
    }
}

#[test]
fn chunked_sum_equals_sequential_sum_when_it_wraps() {
    let data = vec![i32::MAX; 50];
    let expected = p(&data);
    assert_eq!(expected, -50);
    for workers in 1..60usize {
        assert_eq!(chunked_sum(&data, workers), expected);
    }
    let data = vec![i32::MIN; 7];
    assert_eq!(p(&data), i32::MIN);
    assert_eq!(p_mt(&data), i32::MIN);
}

#[test]
fn more_workers_than_elements() {
    let data = vec![3, 4, 5];
    assert_eq!(chunked_sum(&data, 100), 12);
}

#[test]
fn combine_adds_up_the_partial_sums() {
    assert_eq!(combine(&[Some(1), Some(2), Some(39)]), Ok(42));
    assert_eq!(combine(&[Some(-5)]), Ok(-5));
}

#[test]
fn combine_of_no_outcomes_is_zero() {
    assert_eq!(combine(&[]), Ok(0));
}

#[test]
fn combine_wraps_around() {
    assert_eq!(combine(&[Some(i32::MAX), Some(1)]), Ok(i32::MIN));
    assert_eq!(combine(&[Some(i32::MIN), Some(-1), Some(1)]), Ok(i32::MIN));
}

#[test]
fn combine_fails_when_a_worker_failed() {
    assert_eq!(combine(&[Some(1), None, Some(3)]), Err(WorkerFailed { worker: 1 }));
    assert_eq!(combine(&[None]), Err(WorkerFailed { worker: 0 }));
    assert_eq!(combine(&[Some(1), Some(2), None]), Err(WorkerFailed { worker: 2 }));
}

#[test]
fn combine_names_the_first_failed_worker() {
    assert_eq!(combine(&[Some(7), None, None, Some(1), None]), Err(WorkerFailed { worker: 1 }));
}

#[test]
fn combining_the_chunk_sums_gives_the_sequential_sum() {
    let data: Vec<i32> = (0..1000).map(|i| i * 2_000_003).collect();
    for workers in [1usize, 2, 3, 12, 64, 999, 1000, 1001] {
        let outcomes: Vec<Option<i32>> = chunk_ranges(data.len(), workers)
            .iter()
            .map(|c| Some(p(&data[c.start..c.end])))
            .collect();
        assert_eq!(combine(&outcomes), Ok(p(&data)));
    }
}
