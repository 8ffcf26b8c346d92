use std::collections::{HashMap, HashSet};

use kuuhaku::clear_screen::{dissolve, dissolve_seeded, raster_cells, DISSOLVE_PAUSE_MS};
use kuuhaku::frame::{frames_for, Action, Frame};
use kuuhaku::grid::{Coordinate, TerminalDimensions};
use kuuhaku::shuffle::{draws_from_seed, shuffle};

fn cell(column: u16, row: u16) -> Coordinate {
    Coordinate { column, row }
}

fn order_of(frames: &[Frame]) -> Vec<(u16, u16)> {
    frames
        .iter()
        .map(|frame| {
            assert_eq!(frame.actions.len(), 1);
            match frame.actions[0] {
                Action::Blank { column, row } => (column, row),
                other => panic!("unexpected action {:?}", other),
            }
        })
        .collect()
}

#[test]
fn raster_goes_down_each_column_in_turn() {
    assert_eq!(
        raster_cells(TerminalDimensions::new(2, 1)),
        vec![cell(0, 0), cell(0, 1), cell(1, 0), cell(1, 1), cell(2, 0), cell(2, 1)]
    );
    assert_eq!(raster_cells(TerminalDimensions::new(0, 0)), vec![cell(0, 0)]);
}

#[test]
fn raster_of_a_wide_grid_holds_both_edges() {
    let cells = raster_cells(TerminalDimensions::new(300, 2));
    assert_eq!(cells.len(), 301 * 3);
    assert_eq!(cells[0], cell(0, 0));
    assert_eq!(cells[3], cell(1, 0));
    assert_eq!(cells[cells.len() - 1], cell(300, 2));
}

fn all_draws(len: usize) -> Vec<Vec<usize>> {
    let mut lists = vec![vec![]];
    for place in 0..len {
        let mut longer = Vec::new();
        for list in &lists {
            for position in 0..=place {
                let mut next = list.clone();
                next.push(position);
                longer.push(next);
            }
        }
        lists = longer;
    }
    lists
}

#[test]
fn shuffle_by_given_draws_gives_the_expected_order() {
    let mut items = vec![10, 20, 30];
    assert!(shuffle(&mut items, &vec![0, 0, 1]));
    assert_eq!(items, vec![30, 10, 20]);
    let mut items = vec!['a', 'b', 'c', 'd'];
    assert!(shuffle(&mut items, &vec![0, 0, 0, 0]));
    assert_eq!(items, vec!['b', 'c', 'd', 'a']);
    let mut items = vec!['a', 'b', 'c', 'd'];
    assert!(shuffle(&mut items, &vec![0, 1, 0, 2]));
    assert_eq!(items, vec!['d', 'b', 'a', 'c']);
}

#[test]
fn shuffle_by_each_place_drawing_itself_changes_nothing() {
    let mut items = vec!['a', 'b', 'c', 'd'];
    assert!(shuffle(&mut items, &vec![0, 1, 2, 3]));
    assert_eq!(items, vec!['a', 'b', 'c', 'd']);
}

#[test]
fn shuffle_refuses_draws_of_the_wrong_length_or_past_their_place() {
    let mut items = vec![1, 2, 3];
    assert!(!shuffle(&mut items, &vec![0, 1]));
    assert_eq!(items, vec![1, 2, 3]);
    assert!(!shuffle(&mut items, &vec![0, 1, 2, 0]));
    assert_eq!(items, vec![1, 2, 3]);
    assert!(!shuffle(&mut items, &vec![0, 2, 0]));
    assert_eq!(items, vec![1, 2, 3]);
    assert!(!shuffle(&mut items, &vec![1, 0, 0]));
    assert_eq!(items, vec![1, 2, 3]);
    assert!(!shuffle(&mut items, &vec![0, 0, 3]));
    assert_eq!(items, vec![1, 2, 3]);
    assert!(!shuffle(&mut items, &vec![]));
    assert_eq!(items, vec![1, 2, 3]);
}

#[test]
fn shuffle_of_short_lists_takes_the_only_draws_there_are() {
    let mut none: Vec<u8> = vec![];
    assert!(shuffle(&mut none, &vec![]));
    assert!(none.is_empty());
    let mut one = vec![5u8];
    assert!(shuffle(&mut one, &vec![0]));
    assert_eq!(one, vec![5]);
    assert!(!shuffle(&mut one, &vec![1]));
}

#[test]
fn every_order_comes_from_exactly_one_list_of_draws() {
    for len in 0..=5usize {
        let lists = all_draws(len);
        let mut orders = HashSet::new();
        for draws in &lists {
            let mut items: Vec<usize> = (0..len).collect();
            assert!(shuffle(&mut items, draws));
            assert!(orders.insert(items));
        }
        let factorial: usize = (1..=len).product();
        assert_eq!(lists.len(), factorial);
        assert_eq!(orders.len(), factorial);
    }
}

#[test]
fn shuffle_keeps_duplicates_as_often_as_they_came() {
    let mut items = vec![1u8, 1, 2, 3, 3, 3];
    assert!(shuffle(&mut items, &draws_from_seed(6, 77)));
    items.sort();
    assert_eq!(items, vec![1, 1, 2, 3, 3, 3]);
}

#[test]
fn draws_from_a_known_seed_are_the_known_draws() {
    assert_eq!(draws_from_seed(8, 0), vec![0, 1, 0, 3, 4, 1, 1, 7]);
    assert_eq!(draws_from_seed(8, 1), vec![0, 1, 2, 1, 0, 0, 0, 1]);
    assert_eq!(draws_from_seed(8, 42), vec![0, 1, 0, 2, 4, 0, 5, 5]);
    assert_eq!(draws_from_seed(8, 0xDEAD_BEEF), vec![0, 1, 2, 0, 4, 5, 0, 3]);
    assert_eq!(draws_from_seed(6, 7), vec![0, 0, 0, 2, 4, 3]);
    assert!(draws_from_seed(0, 5).is_empty());
    assert_eq!(draws_from_seed(1, 5), vec![0]);
}

#[test]
fn draws_from_a_seed_never_pass_their_place() {
    for seed in [0u64, 1, 2, u64::MAX, 0x1234_5678_9ABC_DEF0] {
        let draws = draws_from_seed(5000, seed);
        assert_eq!(draws.len(), 5000);
        assert!(draws.iter().enumerate().all(|(place, &position)| position <= place));
    }
}

#[test]
fn shuffle_with_a_known_seed_gives_the_known_order() {
    let expected: [(u64, [u32; 8]); 4] = [
        (0, [2, 5, 0, 3, 4, 6, 1, 7]),
        (1, [4, 3, 2, 7, 5, 6, 0, 1]),
        (42, [3, 1, 6, 2, 4, 0, 7, 5]),
        (0xDEAD_BEEF, [7, 1, 2, 6, 4, 5, 0, 3]),
    ];
    for (seed, order) in expected {
        let mut items: Vec<u32> = (0..8).collect();
        assert!(shuffle(&mut items, &draws_from_seed(8, seed)));
        assert_eq!(items, order.to_vec());
    }
}

#[test]
fn dissolve_by_given_draws_gives_the_expected_order() {
    let dims = TerminalDimensions::new(2, 1);
    let frames = dissolve(dims, &vec![0, 1, 2, 3, 4, 5]).unwrap();
    assert_eq!(order_of(&frames), vec![(0, 0), (0, 1), (1, 0), (1, 1), (2, 0), (2, 1)]);
    let frames = dissolve(dims, &vec![0, 0, 0, 0, 0, 0]).unwrap();
    assert_eq!(order_of(&frames), vec![(0, 1), (1, 0), (1, 1), (2, 0), (2, 1), (0, 0)]);
    let frames = dissolve(dims, &vec![0, 1, 1, 3, 0, 1]).unwrap();
    assert_eq!(order_of(&frames), vec![(2, 0), (1, 0), (2, 1), (1, 1), (0, 0), (0, 1)]);
}

#[test]
fn dissolve_has_no_plan_for_draws_that_do_not_fit_the_grid() {
    let dims = TerminalDimensions::new(2, 1);
    assert_eq!(dissolve(dims, &vec![0, 1, 2, 3, 4]), None);
    assert_eq!(dissolve(dims, &vec![0, 1, 2, 3, 4, 5, 6]), None);
    assert_eq!(dissolve(dims, &vec![0, 1, 2, 3, 4, 6]), None);
    assert_eq!(dissolve(dims, &vec![1, 1, 2, 3, 4, 5]), None);
    assert_eq!(dissolve(dims, &vec![]), None);
    assert!(dissolve(TerminalDimensions::new(0, 0), &vec![0]).is_some());
}

#[test]
fn dissolve_reaches_every_order_of_a_small_grid_once() {
    let dims = TerminalDimensions::new(1, 1);
    let mut orders = HashSet::new();
    for draws in all_draws(4) {
        let order = order_of(&dissolve(dims, &draws).unwrap());
        assert!(orders.insert(order));
    }
    assert_eq!(orders.len(), 24);
}

#[test]
fn dissolve_with_a_known_seed_gives_the_known_order() {
    let frames = dissolve_seeded(TerminalDimensions::new(2, 1), 0);
    assert_eq!(order_of(&frames), vec![(2, 0), (1, 0), (2, 1), (1, 1), (0, 0), (0, 1)]);
    let frames = dissolve_seeded(TerminalDimensions::new(2, 1), 7);
    assert_eq!(order_of(&frames), vec![(0, 1), (2, 1), (0, 0), (1, 0), (2, 0), (1, 1)]);
}

#[test]
fn dissolve_seeded_is_the_dissolve_by_the_draws_of_the_seed() {
    let dims = TerminalDimensions::new(7, 5);
    let draws = draws_from_seed(8 * 6, 123);
    assert_eq!(dissolve_seeded(dims, 123), dissolve(dims, &draws).unwrap());
}

#[test]
fn dissolve_is_the_shuffled_raster_one_cell_per_frame() {
    let dims = TerminalDimensions::new(7, 5);
    let draws = draws_from_seed(48, 123);
    let mut cells = raster_cells(dims);
    assert!(shuffle(&mut cells, &draws));
    assert_eq!(dissolve(dims, &draws).unwrap(), frames_for(&cells, DISSOLVE_PAUSE_MS));
}

#[test]
fn dissolve_waits_one_millisecond_after_every_cell() {
    let frames = dissolve_seeded(TerminalDimensions::new(6, 4), 99);
    assert_eq!(DISSOLVE_PAUSE_MS, 1);
    assert!(frames.iter().all(|frame| frame.pause_ms == Some(1)));
}

#[test]
fn dissolve_visits_every_cell_exactly_once() {
    for (columns, rows) in [(0u16, 0u16), (1, 0), (0, 1), (4, 2), (80, 24), (2, 300)] {
        for seed in [0u64, 1, 2, 0xFFFF_FFFF_FFFF_FFFF, 0x1234_5678_9ABC_DEF0] {
            let frames = dissolve_seeded(TerminalDimensions::new(columns, rows), seed);
            let order = order_of(&frames);
            assert_eq!(order.len(), (columns as usize + 1) * (rows as usize + 1));
            let seen: HashSet<(u16, u16)> = order.iter().copied().collect();
            assert_eq!(seen.len(), order.len());
            assert!(order.iter().all(|&(column, row)| column <= columns && row <= rows));
        }
    }
}

#[test]
fn dissolve_repeats_itself_for_the_same_seed() {
    let dims = TerminalDimensions::new(20, 10);
    assert_eq!(dissolve_seeded(dims, 5), dissolve_seeded(dims, 5));
    assert_ne!(dissolve_seeded(dims, 5), dissolve_seeded(dims, 6));
}

#[test]
fn dissolve_does_not_favour_the_raster_order() {
    let dims = TerminalDimensions::new(2, 1);
    let raster: Vec<(u16, u16)> =
        raster_cells(dims).iter().map(|c| (c.column, c.row)).collect();
    let runs = 600u64;
    let mut in_raster_order = 0;
    let mut first: HashMap<(u16, u16), u32> = HashMap::new();
    for seed in 0..runs {
        let order = order_of(&dissolve_seeded(dims, seed));
        if order == raster {
            in_raster_order += 1;
        }
        *first.entry(order[0]).or_insert(0) += 1;
    }
    // Of 720 orders each is expected about once in 600 runs.
    assert!(in_raster_order <= 5);
    // Each of the six cells is expected to lead about 100 times.
    assert_eq!(first.len(), 6);
    assert!(first.values().all(|&n| (60..=140).contains(&n)));
}

#[test]
fn frames_for_keeps_the_order_and_the_pause() {
    let cells = vec![cell(3, 1), cell(0, 0), cell(3, 1)];
    let frames = frames_for(&cells, 8);
    assert_eq!(
        frames,
        vec![
            Frame { actions: vec![Action::Blank { column: 3, row: 1 }], pause_ms: Some(8) },
            Frame { actions: vec![Action::Blank { column: 0, row: 0 }], pause_ms: Some(8) },
            Frame { actions: vec![Action::Blank { column: 3, row: 1 }], pause_ms: Some(8) },
        ]
    );
    assert_eq!(Frame::blank(cell(3, 1), 8), frames[0]);
    assert!(frames_for(&Vec::new(), 8).is_empty());
}
