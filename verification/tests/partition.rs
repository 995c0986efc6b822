use sumbench::partition::{chunk_len, chunk_ranges, Chunk};

fn sizes(chunks: &[Chunk]) -> Vec<usize> {
    chunks.iter().map(|c| c.end - c.start).collect()
}

#[test]
fn chunk_len_rounds_up() {
    assert_eq!(chunk_len(13, 12), 2);
    assert_eq!(chunk_len(12, 12), 1);
    assert_eq!(chunk_len(24, 12), 2);
    assert_eq!(chunk_len(25, 12), 3);
    assert_eq!(chunk_len(1, 12), 1);
    assert_eq!(chunk_len(11, 12), 1);
    assert_eq!(chunk_len(200_000_000, 12), 16_666_667);
}

#[test]
fn chunk_len_of_nothing_is_zero() {
    assert_eq!(chunk_len(0, 1), 0);
    assert_eq!(chunk_len(0, 12), 0);
}

#[test]
fn chunk_len_with_one_worker_is_the_length() {
    assert_eq!(chunk_len(7, 1), 7);
    assert_eq!(chunk_len(usize::MAX, 1), usize::MAX);
}

#[test]
fn chunk_len_does_not_overflow_near_the_top() {
    assert_eq!(chunk_len(usize::MAX, usize::MAX), 1);
    assert_eq!(chunk_len(usize::MAX, 2), usize::MAX / 2 + 1);
    assert_eq!(chunk_len(usize::MAX - 1, usize::MAX), 1);
}

#[test]
fn twelve_elements_for_twelve_workers() {
    let chunks = chunk_ranges(12, 12);
    assert_eq!(chunks.len(), 12);
    for (i, c) in chunks.iter().enumerate() {
        assert_eq!(*c, Chunk { start: i, end: i + 1 });
    }
}

#[test]
fn thirteen_elements_for_twelve_workers() {
    let chunks = chunk_ranges(13, 12);
    assert_eq!(sizes(&chunks), vec![2, 2, 2, 2, 2, 2, 1]);
    assert_eq!(chunks[0], Chunk { start: 0, end: 2 });
    assert_eq!(chunks[5], Chunk { start: 10, end: 12 });
    assert_eq!(chunks[6], Chunk { start: 12, end: 13 });
    assert_eq!(12 - chunks.len(), 5);
}

#[test]
fn no_elements_give_no_chunks() {
    assert_eq!(chunk_ranges(0, 12), Vec::<Chunk>::new());
    assert_eq!(chunk_ranges(0, 1), Vec::<Chunk>::new());
}

#[test]
fn fewer_elements_than_workers() {
    let chunks = chunk_ranges(5, 12);
    assert_eq!(sizes(&chunks), vec![1, 1, 1, 1, 1]);
}

#[test]
fn one_worker_gets_everything() {
    assert_eq!(chunk_ranges(9, 1), vec![Chunk { start: 0, end: 9 }]);
}

#[test]
fn last_chunk_may_be_short() {
    let chunks = chunk_ranges(100, 12);
    assert_eq!(sizes(&chunks), vec![9, 9, 9, 9, 9, 9, 9, 9, 9, 9, 9, 1]);
    let chunks = chunk_ranges(10, 4);
    assert_eq!(sizes(&chunks), vec![3, 3, 3, 1]);
    let chunks = chunk_ranges(10, 6);
    assert_eq!(sizes(&chunks), vec![2, 2, 2, 2, 2]);
}

#[test]
fn chunks_tile_the_range() {
    for len in 0..200usize {
        for workers in 1..40usize {
            let chunks = chunk_ranges(len, workers);
            let mut next = 0;
            for c in &chunks {
                assert_eq!(c.start, next);
                assert!(c.start < c.end);
                next = c.end;
            }
            assert_eq!(next, len);
        }
    }
}

#[test]
fn every_index_lies_in_one_chunk() {
    for len in 0..60usize {
        for workers in 1..20usize {
            let chunks = chunk_ranges(len, workers);
            for k in 0..len {
                let holders = chunks.iter().filter(|c| c.start <= k && k < c.end).count();
                assert_eq!(holders, 1);
            }
        }
    }
}

#[test]
fn never_more_chunks_than_workers() {
    for len in 0..300usize {
        for workers in 1..40usize {
            assert!(chunk_ranges(len, workers).len() <= workers);
        }
    }
}

#[test]
fn all_chunks_but_the_last_have_the_common_size() {
    for len in 1..200usize {
        for workers in 1..30usize {
            let size = chunk_len(len, workers);
            let chunks = chunk_ranges(len, workers);
            let (last, rest) = chunks.split_last().unwrap();
            for c in rest {
                assert_eq!(c.end - c.start, size);
            }
            assert!(last.end - last.start <= size);
        }
    }
}

#[test]
fn chunks_of_a_huge_range_do_not_overflow() {
    let chunks = chunk_ranges(usize::MAX, 12);
    assert_eq!(chunks.len(), 12);
    assert_eq!(chunks[0].start, 0);
    assert_eq!(chunks[11].end, usize::MAX);
    let size = chunk_len(usize::MAX, 12);
    assert_eq!(chunks[11].start, 11 * size);
}
