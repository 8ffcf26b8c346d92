//! The text that draws a frame on an ANSI terminal.
//!
//! The escape sequences themselves come from crossterm; this module states
//! what they are and joins them into the text of an action and of a frame.

use vstd::prelude::*;
use vstd::string::StringExecFns;
use crossterm::cursor::MoveTo;
use crossterm::style::Print;
use crossterm::terminal::{Clear, ClearType};
use crossterm::Command;
use crate::frame::{Action, Frame};

verus! {

/// What an erase command wipes out.
#[derive(Clone, Copy, Debug, PartialEq, Eq, Structural)]
pub enum Erasure {
    /// The whole screen.
    Screen,
    /// The line the cursor is on.
    Line,
}

/// The character for the decimal digit `d`.
pub open spec fn digit(d: int) -> char {
    if d == 0 {
        '0'
    } else if d == 1 {
        '1'
    } else if d == 2 {
        '2'
    } else if d == 3 {
        '3'
    } else if d == 4 {
        '4'
    } else if d == 5 {
        '5'
    } else if d == 6 {
        '6'
    } else if d == 7 {
        '7'
    } else if d == 8 {
        '8'
    } else {
        '9'
    }
}

/// `n` written in decimal, without leading zeros.
pub open spec fn decimal(n: nat) -> Seq<char>
    decreases n,
{
    if n < 10 {
        seq![digit(n as int)]
    } else {
        decimal(n / 10).push(digit((n % 10) as int))
    }
}

/// The control sequence introducer: escape, then an opening bracket.
pub open spec fn csi() -> Seq<char> {
    seq!['\x1b', '[']
}

/// The sequence that puts the cursor on the cell (`column`, `row`). The
/// terminal counts from one and takes the row first.
pub open spec fn move_to_text(column: u16, row: u16) -> Seq<char> {
    csi() + decimal((row + 1) as nat) + seq![';'] + decimal((column + 1) as nat) + seq!['H']
}

/// The sequence that erases the whole screen or the current line.
pub open spec fn erase_text(what: Erasure) -> Seq<char> {
    match what {
        Erasure::Screen => csi() + seq!['2', 'J'],
        Erasure::Line => csi() + seq!['2', 'K'],
    }
}

/// The ANSI text of crossterm's `MoveTo(column, row)`, as its
/// `Command::write_ansi` writes it: the introducer, the row plus one, a
/// semicolon, the column plus one, and `H`. Both additions are made in `u16`,
/// so the largest value of either coordinate is left out.
#[verifier::external_body]
fn move_to_ansi(column: u16, row: u16) -> (text: String)
    requires
        column < u16::MAX,
        row < u16::MAX,
    ensures
        text@ == move_to_text(column, row),
{
    let mut text = String::new();
    let _ = MoveTo(column, row).write_ansi(&mut text);
    text
}

/// The ANSI text of crossterm's `Clear`, as its `Command::write_ansi` writes
/// it: the introducer and `2J` for `ClearType::All`, the introducer and `2K`
/// for `ClearType::CurrentLine`.
#[verifier::external_body]
fn erase_ansi(what: Erasure) -> (text: String)
    ensures
        text@ == erase_text(what),
{
    let kind = match what {
        Erasure::Screen => ClearType::All,
        Erasure::Line => ClearType::CurrentLine,
    };
    let mut text = String::new();
    let _ = Clear(kind).write_ansi(&mut text);
    text
}

/// The ANSI text of crossterm's `Print(content)`, as its
/// `Command::write_ansi` writes it: `content` itself, unchanged.
#[verifier::external_body]
fn print_ansi(content: &str) -> (text: String)
    ensures
        text@ == content@,
{
    let mut text = String::new();
    let _ = Print(content).write_ansi(&mut text);
    text
}

impl Action {
    /// Whether the action can be written out: the terminal counts from one,
    /// so no coordinate may be the largest `u16`.
    pub open spec fn renderable(self) -> bool {
        match self {
            Action::ClearScreen => true,
            Action::ClearLine { row } => row < u16::MAX,
            Action::Blank { column, row } => column < u16::MAX && row < u16::MAX,
            Action::Home => true,
        }
    }

    /// The text that performs the action.
    pub open spec fn text(self) -> Seq<char> {
        match self {
            Action::ClearScreen => move_to_text(0, 0) + erase_text(Erasure::Screen),
            Action::ClearLine { row } => move_to_text(0, row) + erase_text(Erasure::Line),
            Action::Blank { column, row } => move_to_text(column, row) + seq![' '],
            Action::Home => move_to_text(0, 0),
        }
    }

    /// The text that performs the action on an ANSI terminal, or `None` where
    /// a coordinate is too large to be written.
    pub fn to_ansi(&self) -> (text: Option<String>)
        ensures
            text is Some <==> self.renderable(),
            text matches Some(t) ==> t@ == self.text(),
    {
        match *self {
            Action::ClearScreen => {
                let mut text = move_to_ansi(0, 0);
                let tail = erase_ansi(Erasure::Screen);
                text.append(tail.as_str());
                Some(text)
            },
            Action::ClearLine { row } => {
                if row == u16::MAX {
                    return None;
                }
                let mut text = move_to_ansi(0, row);
                let tail = erase_ansi(Erasure::Line);
                text.append(tail.as_str());
                Some(text)
            },
            Action::Blank { column, row } => {
                if column == u16::MAX || row == u16::MAX {
                    return None;
                }
                let mut text = move_to_ansi(column, row);
                let tail = print_ansi(" ");
                proof {
                    reveal_strlit(" ");
                }
                assert(tail@ =~= seq![' ']);
                text.append(tail.as_str());
                Some(text)
            },
            Action::Home => Some(move_to_ansi(0, 0)),
        }
    }
}

/// The texts of `actions`, one after the other.
pub open spec fn actions_text(actions: Seq<Action>) -> Seq<char>
    decreases actions.len(),
{
    if actions.len() == 0 {
        Seq::empty()
    } else {
        actions_text(actions.drop_last()) + actions.last().text()
    }
}

/// Whether every one of `actions` can be written out.
pub open spec fn all_renderable(actions: Seq<Action>) -> bool {
    forall|i: int| 0 <= i < actions.len() ==> (#[trigger] actions[i]).renderable()
}

impl Frame {
    /// The text that draws the frame on an ANSI terminal: the texts of its
    /// actions in order. `None` where some action cannot be written out.
    pub fn to_ansi(&self) -> (text: Option<String>)
        ensures
            text is Some <==> all_renderable(self@.actions),
            text matches Some(t) ==> t@ == actions_text(self@.actions),
    {
        let mut text = String::new();
        let mut i: usize = 0;
        assert(self.actions@.take(0) =~= Seq::<Action>::empty());
        while i < self.actions.len()
            invariant
                i <= self.actions.len(),
                all_renderable(self.actions@.take(i as int)),
                text@ == actions_text(self.actions@.take(i as int)),
            decreases self.actions.len() - i,
        {
            let action = self.actions[i];
            let ghost next = self.actions@.take(i as int + 1);
            assert(next.drop_last() =~= self.actions@.take(i as int));
            assert(next.last() == action);
            match action.to_ansi() {
                Some(piece) => {
                    text.append(piece.as_str());
                },
                None => {
                    assert(!self.actions@[i as int].renderable());
                    return None;
                },
            }
            assert forall|k: int| 0 <= k < next.len() implies (#[trigger] next[k]).renderable() by {
                if k < i {
                    assert(self.actions@.take(i as int)[k].renderable());
                }
            }
            i += 1;
        }
        assert(self.actions@.take(i as int) =~= self.actions@);
        Some(text)
    }
}

} // verus!
