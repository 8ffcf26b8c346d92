use kuuhaku::clear_screen::{basic, dissolve_seeded, spiral, wipe, WipeDirection};
use kuuhaku::grid::{Coordinate, TerminalDimensions};
use kuuhaku::mode::{ClearMode, DEFAULT_WIPE_DELAY_MS};

#[test]
fn clear_mode_defaults_to_basic() {
    assert_eq!(ClearMode::default(), ClearMode::Basic);
}

#[test]
fn basic_mode_plans_the_instant_clear_whatever_the_size() {
    for (columns, rows) in [(0u16, 0u16), (80, 24), (u16::MAX, u16::MAX)] {
        assert_eq!(ClearMode::Basic.plan(TerminalDimensions::new(columns, rows), 3), basic());
    }
}

#[test]
fn wipe_mode_without_arguments_goes_down_at_ten_milliseconds() {
    let dims = TerminalDimensions::new(4, 2);
    let mode = ClearMode::Wipe { dir: None, delay_ms: None };
    assert_eq!(DEFAULT_WIPE_DELAY_MS, 10);
    assert_eq!(mode.plan(dims, 0), wipe(dims, WipeDirection::Down, 10));
}

#[test]
fn wipe_mode_passes_direction_and_delay_on() {
    let dims = TerminalDimensions::new(4, 2);
    let mode = ClearMode::Wipe { dir: Some(WipeDirection::Left), delay_ms: Some(25) };
    assert_eq!(mode.plan(dims, 0), wipe(dims, WipeDirection::Left, 25));
    let mode = ClearMode::Wipe { dir: Some(WipeDirection::Up), delay_ms: None };
    assert_eq!(mode.plan(dims, 0), wipe(dims, WipeDirection::Up, 10));
    let mode = ClearMode::Wipe { dir: None, delay_ms: Some(0) };
    assert_eq!(mode.plan(dims, 0), wipe(dims, WipeDirection::Down, 0));
}

#[test]
fn dissolve_mode_passes_the_seed_on() {
    let dims = TerminalDimensions::new(9, 4);
    assert_eq!(ClearMode::Dissolve.plan(dims, 17), dissolve_seeded(dims, 17));
    assert_ne!(ClearMode::Dissolve.plan(dims, 17), dissolve_seeded(dims, 18));
}

#[test]
fn spiral_mode_plans_the_spiral() {
    let dims = TerminalDimensions::new(9, 4);
    assert_eq!(ClearMode::Spiral.plan(dims, 17), spiral(dims));
}

#[test]
fn every_frame_of_every_mode_can_be_written_on_an_ordinary_terminal() {
    let dims = TerminalDimensions::new(80, 24);
    let modes = [
        ClearMode::Basic,
        ClearMode::Wipe { dir: Some(WipeDirection::Up), delay_ms: None },
        ClearMode::Wipe { dir: Some(WipeDirection::Right), delay_ms: None },
        ClearMode::Dissolve,
        ClearMode::Spiral,
    ];
    for mode in modes {
        assert!(mode.plan(dims, 1).iter().all(|frame| frame.to_ansi().is_some()));
    }
}

#[test]
fn the_grid_includes_both_edges() {
    let dims = TerminalDimensions::new(4, 2);
    assert_eq!(dims.columns, 4);
    assert_eq!(dims.rows, 2);
    assert!(dims.includes(Coordinate { column: 0, row: 0 }));
    assert!(dims.includes(Coordinate { column: 4, row: 2 }));
    assert!(!dims.includes(Coordinate { column: 5, row: 2 }));
    assert!(!dims.includes(Coordinate { column: 4, row: 3 }));
}

#[test]
fn a_cloned_frame_equals_its_source() {
    let frames = wipe(TerminalDimensions::new(3, 2), WipeDirection::Right, 7);
    for frame in &frames {
        assert_eq!(&frame.clone(), frame);
    }
}
