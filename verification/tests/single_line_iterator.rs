use iterators_collection::share::DoubleIterator;
use iterators_collection::share::ShareError;
use iterators_collection::share::SingleLineIterator;
use iterators_collection::ResettableIterator;
use std::cell::Cell;

fn drain_row(iter: &mut SingleLineIterator<'_, usize>) -> Vec<(usize, usize)> {
    let mut seen = Vec::new();
    while let Some((a, b)) = iter.next() {
        seen.push((*a, *b));
    }
    seen
}

#[test]
fn row_visits_every_other_index_in_ascending_order() {
    for n in 1usize..7 {
        for f in 0..n {
            let mut array: Vec<usize> = (0..n).collect();
            let mut iter = SingleLineIterator::new(&mut array, f).unwrap();
            let seen = drain_row(&mut iter);
            let expected: Vec<(usize, usize)> =
                (0..n).filter(|j| *j != f).map(|j| (f, j)).collect();
            assert_eq!(seen.len(), n - 1);
            assert_eq!(seen, expected);
        }
    }
}

#[test]
fn row_of_the_first_element_starts_at_one() {
    let mut array = [1, 2, 3, 4, 5];
    let mut iter = SingleLineIterator::new(&mut array, 0).unwrap();
    assert_eq!((iter.index, iter.cur), (0, 1));
    let (a, b) = iter.next().unwrap();
    assert_eq!((*a, *b), (1, 2));
}

#[test]
fn row_of_a_middle_element_skips_it() {
    let mut array = [1, 2, 3, 4, 5];
    let mut iter = SingleLineIterator::new(&mut array, 2).unwrap();
    assert_eq!((iter.index, iter.cur), (2, 0));
    let mut seen = Vec::new();
    while let Some((a, b)) = iter.next() {
        seen.push((*a, *b));
    }
    assert_eq!(seen, vec![(3, 1), (3, 2), (3, 4), (3, 5)]);
}

#[test]
fn row_of_the_last_element_ends_before_it() {
    let mut array = [1, 2, 3];
    let mut iter = SingleLineIterator::new(&mut array, 2).unwrap();
    let mut seen = Vec::new();
    while let Some((a, b)) = iter.next() {
        seen.push((*a, *b));
    }
    assert_eq!(seen, vec![(3, 1), (3, 2)]);
    assert!(iter.next().is_none());
    assert_eq!(iter.cur, 3);
}

#[test]
fn row_over_a_single_element_is_empty() {
    let mut array = [1];
    let mut iter = SingleLineIterator::new(&mut array, 0).unwrap();
    assert!(iter.next().is_none());
    assert!(iter.next().is_none());
}

#[test]
fn single_line_new_refuses_an_index_out_of_range() {
    let mut array = [1, 2, 3];
    assert!(matches!(SingleLineIterator::new(&mut array, 3), Err(ShareError::InvalidIndex)));
    assert!(matches!(SingleLineIterator::new(&mut array, 100), Err(ShareError::InvalidIndex)));
    let mut empty: [i32; 0] = [];
    assert!(matches!(SingleLineIterator::new(&mut empty, 0), Err(ShareError::InvalidIndex)));
}

#[test]
fn single_line_exhaustion_is_idempotent() {
    let mut array: Vec<usize> = (0..4).collect();
    let mut iter = SingleLineIterator::new(&mut array, 1).unwrap();
    assert_eq!(drain_row(&mut iter).len(), 3);
    for _ in 0..3 {
        assert!(iter.next().is_none());
        assert_eq!((iter.index, iter.cur), (1, 4));
    }
}

#[test]
fn single_line_reset_replays_the_row() {
    let mut array: Vec<usize> = (0..5).collect();
    let mut iter = SingleLineIterator::new(&mut array, 3).unwrap();
    let first_run = drain_row(&mut iter);
    iter.reset();
    assert_eq!(drain_row(&mut iter), first_run);
}

#[test]
fn single_line_reset_of_row_zero_starts_at_one() {
    let mut array: Vec<usize> = (0..3).collect();
    let mut iter = SingleLineIterator::new(&mut array, 0).unwrap();
    assert_eq!(drain_row(&mut iter), vec![(0, 1), (0, 2)]);
    iter.reset();
    assert_eq!((iter.index, iter.cur), (0, 1));
    assert_eq!(drain_row(&mut iter), vec![(0, 1), (0, 2)]);
}

#[test]
fn single_line_safe_for_each_visits_the_row() {
    let mut array = [1, 2, 3, 4, 5];
    let iter = SingleLineIterator::new(&mut array, 0).unwrap();
    let calls = Cell::new(0usize);
    iter.safe_for_each(|i, j| {
        assert_ne!(i, j);
        assert_eq!(*i, 1);
        calls.set(calls.get() + 1);
    });
    assert_eq!(calls.get(), 4);
}

#[test]
fn single_line_safe_for_each_writes_through_to_the_slice() {
    let mut array = [1, 2, 3, 4];
    let iter = SingleLineIterator::new(&mut array, 1).unwrap();
    iter.safe_for_each(|i, j| {
        *j += *i;
        *i *= 10;
    });
    assert_eq!(array, [3, 2000, 23, 204]);
}

#[test]
fn conversion_keeps_the_position_and_finishes_the_row() {
    let mut array = [1, 2, 3, 4, 5];
    let mut grid = DoubleIterator::new(&mut array).unwrap();
    for _ in 0..6 {
        grid.next();
    }
    assert_eq!((grid.first, grid.second), (1, 3));
    let mut row = SingleLineIterator::from(grid);
    assert_eq!((row.index, row.cur), (1, 3));
    let mut seen = Vec::new();
    while let Some((a, b)) = row.next() {
        seen.push((*a, *b));
    }
    assert_eq!(seen, vec![(2, 4), (2, 5)]);
}

#[test]
fn conversion_matches_what_the_grid_had_left_of_its_row() {
    let n = 5usize;
    for steps in 0..(n * (n - 1)) {
        let mut left: Vec<usize> = (0..n).collect();
        let mut grid = DoubleIterator::new(&mut left).unwrap();
        for _ in 0..steps {
            grid.next();
        }
        let row_index = grid.first;
        let mut expected = Vec::new();
        while let Some((a, b)) = grid.next() {
            if *a == row_index {
                expected.push((*a, *b));
            }
        }

        let mut right: Vec<usize> = (0..n).collect();
        let mut grid = DoubleIterator::new(&mut right).unwrap();
        for _ in 0..steps {
            grid.next();
        }
        let mut row: SingleLineIterator<'_, usize> = grid.into();
        assert_eq!(drain_row(&mut row), expected);
    }
}

#[test]
fn conversion_of_a_fresh_grid_is_row_zero() {
    let mut array: Vec<usize> = (0..4).collect();
    let grid = DoubleIterator::new(&mut array).unwrap();
    let mut row = SingleLineIterator::from(grid);
    assert_eq!(drain_row(&mut row), vec![(0, 1), (0, 2), (0, 3)]);
}

#[test]
fn conversion_of_an_exhausted_grid_yields_nothing() {
    let mut array: Vec<usize> = (0..3).collect();
    let mut grid = DoubleIterator::new(&mut array).unwrap();
    while grid.next().is_some() {}
    let mut row = SingleLineIterator::from(grid);
    assert_eq!((row.index, row.cur), (3, 0));
    assert!(row.next().is_none());
    row.reset();
    assert!(row.next().is_none());
}
