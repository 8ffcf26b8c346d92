use crossterm::cursor::MoveTo;
use crossterm::style::Print;
use crossterm::terminal::{Clear, ClearType};
use crossterm::Command;
use kuuhaku::clear_screen::{basic, wipe, WipeDirection};
use kuuhaku::frame::{Action, Frame};
use kuuhaku::grid::TerminalDimensions;

fn written(command: impl Command) -> String {
    let mut text = String::new();
    command.write_ansi(&mut text).unwrap();
    text
}

#[test]
fn blank_moves_the_cursor_and_prints_a_space() {
    let text = Action::Blank { column: 3, row: 4 }.to_ansi().unwrap();
    assert_eq!(text, "\x1b[5;4H ");
}

#[test]
fn clear_line_moves_to_the_start_of_the_row_and_erases_it() {
    let text = Action::ClearLine { row: 2 }.to_ansi().unwrap();
    assert_eq!(text, "\x1b[3;1H\x1b[2K");
}

#[test]
fn clear_screen_moves_to_the_origin_and_erases_everything() {
    let text = Action::ClearScreen.to_ansi().unwrap();
    assert_eq!(text, "\x1b[1;1H\x1b[2J");
}

#[test]
fn home_only_moves_to_the_origin() {
    assert_eq!(Action::Home.to_ansi().unwrap(), "\x1b[1;1H");
}

#[test]
fn coordinates_are_written_in_decimal_counting_from_one() {
    assert_eq!(Action::Blank { column: 0, row: 0 }.to_ansi().unwrap(), "\x1b[1;1H ");
    assert_eq!(Action::Blank { column: 8, row: 9 }.to_ansi().unwrap(), "\x1b[10;9H ");
    assert_eq!(Action::Blank { column: 99, row: 9 }.to_ansi().unwrap(), "\x1b[10;100H ");
    assert_eq!(Action::Blank { column: 1233, row: 5677 }.to_ansi().unwrap(), "\x1b[5678;1234H ");
    assert_eq!(
        Action::Blank { column: 65534, row: 65534 }.to_ansi().unwrap(),
        "\x1b[65535;65535H "
    );
}

#[test]
fn the_largest_coordinate_cannot_be_written() {
    assert_eq!(Action::Blank { column: u16::MAX, row: 0 }.to_ansi(), None);
    assert_eq!(Action::Blank { column: 0, row: u16::MAX }.to_ansi(), None);
    assert_eq!(Action::ClearLine { row: u16::MAX }.to_ansi(), None);
    let frame = Frame {
        actions: vec![Action::Home, Action::Blank { column: u16::MAX, row: 1 }],
        pause_ms: None,
    };
    assert_eq!(frame.to_ansi(), None);
}

#[test]
fn actions_match_what_crossterm_writes() {
    for (column, row) in [(0u16, 0u16), (7, 3), (120, 45), (65534, 1)] {
        assert_eq!(
            Action::Blank { column, row }.to_ansi().unwrap(),
            written(MoveTo(column, row)) + &written(Print(" "))
        );
        assert_eq!(
            Action::ClearLine { row }.to_ansi().unwrap(),
            written(MoveTo(0, row)) + &written(Clear(ClearType::CurrentLine))
        );
    }
    assert_eq!(
        Action::ClearScreen.to_ansi().unwrap(),
        written(MoveTo(0, 0)) + &written(Clear(ClearType::All))
    );
    assert_eq!(Action::Home.to_ansi().unwrap(), written(MoveTo(0, 0)));
}

#[test]
fn a_frame_is_the_text_of_its_actions_in_order() {
    let frame = Frame {
        actions: vec![
            Action::Blank { column: 1, row: 0 },
            Action::Blank { column: 1, row: 1 },
            Action::ClearLine { row: 2 },
            Action::Home,
        ],
        pause_ms: Some(4),
    };
    assert_eq!(frame.to_ansi().unwrap(), "\x1b[1;2H \x1b[2;2H \x1b[3;1H\x1b[2K\x1b[1;1H");
}

#[test]
fn an_empty_frame_writes_nothing() {
    let frame = Frame { actions: vec![], pause_ms: None };
    assert_eq!(frame.to_ansi().unwrap(), "");
}

#[test]
fn basic_writes_the_origin_and_the_full_erase() {
    let frames = basic();
    assert_eq!(frames.len(), 1);
    assert_eq!(frames[0].to_ansi().unwrap(), "\x1b[1;1H\x1b[2J");
}

#[test]
fn wipe_down_on_four_by_two_writes_three_line_erases_then_home() {
    let frames = wipe(TerminalDimensions::new(4, 2), WipeDirection::Down, 10);
    let texts: Vec<String> = frames.iter().map(|frame| frame.to_ansi().unwrap()).collect();
    assert_eq!(
        texts,
        vec!["\x1b[1;1H\x1b[2K", "\x1b[2;1H\x1b[2K", "\x1b[3;1H\x1b[2K", "\x1b[1;1H"]
    );
    let pauses: Vec<Option<u64>> = frames.iter().map(|frame| frame.pause_ms).collect();
    assert_eq!(pauses, vec![Some(10), Some(10), Some(10), None]);
}

#[test]
fn wipe_right_writes_one_column_per_frame() {
    let frames = wipe(TerminalDimensions::new(1, 1), WipeDirection::Right, 10);
    let texts: Vec<String> = frames.iter().map(|frame| frame.to_ansi().unwrap()).collect();
    assert_eq!(texts, vec!["\x1b[1;1H \x1b[2;1H ", "\x1b[1;2H \x1b[2;2H ", "\x1b[1;1H"]);
}
