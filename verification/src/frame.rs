//! Frames: what is drawn in one batch, and how long to wait afterwards.

use vstd::prelude::*;
use crate::grid::{visits, Coordinate, TerminalDimensions};

verus! {

/// One drawing step. Every action carries the position it works at, so a
/// sequence of actions means the same whatever was drawn before it.
#[derive(Clone, Copy, Debug, PartialEq, Eq, Structural)]
pub enum Action {
    /// Put the cursor at the origin and erase the whole screen.
    ClearScreen,
    /// Put the cursor at the start of `row` and erase that line.
    ClearLine { row: u16 },
    /// Put the cursor on the cell and print one blank over it.
    Blank { column: u16, row: u16 },
    /// Put the cursor back at the origin.
    Home,
}

/// A batch of actions that reaches the terminal in one flush, followed by an
/// optional pause in milliseconds.
#[derive(Debug, PartialEq, Eq)]
pub struct Frame {
    pub actions: Vec<Action>,
    pub pause_ms: Option<u64>,
}

impl Clone for Frame {
    fn clone(&self) -> (copy: Self)
        ensures
            copy@ == self@,
    {
        Frame { actions: self.actions.clone(), pause_ms: self.pause_ms }
    }
}

/// The mathematical content of a [`Frame`].
pub struct FrameView {
    pub actions: Seq<Action>,
    pub pause_ms: Option<u64>,
}

impl View for Frame {
    type V = FrameView;

    open spec fn view(&self) -> FrameView {
        FrameView { actions: self.actions@, pause_ms: self.pause_ms }
    }
}

/// The frames of a plan, each taken by its view.
pub open spec fn plan_view(frames: Seq<Frame>) -> Seq<FrameView> {
    Seq::new(frames.len(), |i: int| frames[i]@)
}

/// The frame that blanks the single cell `cell` and then waits `pause_ms`.
pub open spec fn blank_frame(cell: Coordinate, pause_ms: u64) -> FrameView {
    FrameView {
        actions: seq![Action::Blank { column: cell.column, row: cell.row }],
        pause_ms: Some(pause_ms),
    }
}

/// One single-cell frame per cell of `cells`, in the same order.
pub open spec fn blank_frames(cells: Seq<Coordinate>, pause_ms: u64) -> Seq<FrameView> {
    Seq::new(cells.len(), |i: int| blank_frame(cells[i], pause_ms))
}

impl Action {
    /// The cells of the grid that the action erases.
    pub open spec fn erased(self, dims: TerminalDimensions) -> Set<Coordinate> {
        match self {
            Action::ClearScreen => dims.cells(),
            Action::ClearLine { row } => Set::new(
                |cell: Coordinate| dims.holds(cell) && cell.row == row,
            ),
            Action::Blank { column, row } => Set::new(
                |cell: Coordinate| dims.holds(cell) && cell.column == column && cell.row == row,
            ),
            Action::Home => Set::empty(),
        }
    }

    /// Whether every position the action names lies inside the grid.
    pub open spec fn within(self, dims: TerminalDimensions) -> bool {
        match self {
            Action::ClearScreen => true,
            Action::ClearLine { row } => row <= dims.rows,
            Action::Blank { column, row } => column <= dims.columns && row <= dims.rows,
            Action::Home => true,
        }
    }
}

/// Whether action `j` of frame `i` exists in `plan`.
pub open spec fn has_action(plan: Seq<FrameView>, i: int, j: int) -> bool {
    0 <= i < plan.len() && 0 <= j < plan[i].actions.len()
}

/// Whether every action of `plan` stays inside the grid.
pub open spec fn plan_within(plan: Seq<FrameView>, dims: TerminalDimensions) -> bool {
    forall|i: int, j: int| #[trigger]
        has_action(plan, i, j) ==> plan[i].actions[j].within(dims)
}

/// The cells of the grid that some action of `plan` erases.
pub open spec fn plan_erased(plan: Seq<FrameView>, dims: TerminalDimensions) -> Set<Coordinate> {
    Set::new(
        |cell: Coordinate|
            exists|i: int, j: int| #[trigger]
                has_action(plan, i, j) && plan[i].actions[j].erased(dims).contains(cell),
    )
}

/// Whether action `j` of frame `i` blanks exactly the cell `cell`.
pub open spec fn blanks_at(plan: Seq<FrameView>, i: int, j: int, cell: Coordinate) -> bool {
    has_action(plan, i, j) && plan[i].actions[j] == (Action::Blank {
        column: cell.column,
        row: cell.row,
    })
}

/// Whether `plan` prints a blank over `cell` at one place and nowhere else.
pub open spec fn blanked_once(plan: Seq<FrameView>, cell: Coordinate) -> bool {
    exists|i: int, j: int|
        #![trigger blanks_at(plan, i, j, cell)]
        blanks_at(plan, i, j, cell) && forall|i2: int, j2: int| #[trigger]
            blanks_at(plan, i2, j2, cell) ==> i2 == i && j2 == j
}

/// Whether action `j` of frame `i` erases the line `row`.
pub open spec fn clears_line_at(plan: Seq<FrameView>, i: int, j: int, row: int) -> bool {
    has_action(plan, i, j) && plan[i].actions[j] == (Action::ClearLine { row: row as u16 })
}

/// Whether `plan` erases the line `row` at one place and nowhere else.
pub open spec fn line_cleared_once(plan: Seq<FrameView>, row: int) -> bool {
    exists|i: int, j: int|
        #![trigger clears_line_at(plan, i, j, row)]
        clears_line_at(plan, i, j, row) && forall|i2: int, j2: int| #[trigger]
            clears_line_at(plan, i2, j2, row) ==> i2 == i && j2 == j
}

impl Frame {
    /// A frame that blanks one cell and then waits.
    pub fn blank(cell: Coordinate, pause_ms: u64) -> (frame: Frame)
        ensures
            frame@ == blank_frame(cell, pause_ms),
    {
        let mut actions: Vec<Action> = Vec::new();
        actions.push(Action::Blank { column: cell.column, row: cell.row });
        Frame { actions, pause_ms: Some(pause_ms) }
    }
}

/// Turns an ordered list of cells into single-cell frames with the same pause
/// after each.
pub fn frames_for(cells: &Vec<Coordinate>, pause_ms: u64) -> (frames: Vec<Frame>)
    ensures
        plan_view(frames@) == blank_frames(cells@, pause_ms),
{
    let mut frames: Vec<Frame> = Vec::new();
    let mut i: usize = 0;
    while i < cells.len()
        invariant
            i <= cells.len(),
            plan_view(frames@) == blank_frames(cells@.take(i as int), pause_ms),
        decreases cells.len() - i,
    {
        let frame = Frame::blank(cells[i], pause_ms);
        let ghost before = frames@;
        frames.push(frame);
        assert(plan_view(frames@) =~= plan_view(before).push(frame@));
        assert(blank_frames(cells@.take(i as int + 1), pause_ms) =~= blank_frames(
            cells@.take(i as int),
            pause_ms,
        ).push(blank_frame(cells@[i as int], pause_ms)));
        i += 1;
    }
    assert(cells@.take(i as int) =~= cells@);
    frames
}

/// Single-cell frames for two runs of cells, one after the other, are the
/// frames of the first followed by the frames of the second.
pub proof fn lemma_blank_frames_concat(a: Seq<Coordinate>, b: Seq<Coordinate>, pause_ms: u64)
    ensures
        blank_frames(a + b, pause_ms) == blank_frames(a, pause_ms) + blank_frames(b, pause_ms),
{
    assert(blank_frames(a + b, pause_ms) =~= blank_frames(a, pause_ms) + blank_frames(
        b,
        pause_ms,
    ));
}

/// Single-cell frames blank a cell as often as the path comes by it: a cell
/// that the path meets once is blanked at one place and nowhere else, and a
/// cell that the path never meets is never blanked.
pub proof fn lemma_blank_frames_follow_path(
    path: Seq<Coordinate>,
    pause_ms: u64,
    cell: Coordinate,
)
    ensures
        visits(path, cell) == 1 ==> blanked_once(blank_frames(path, pause_ms), cell),
        visits(path, cell) == 0 ==> forall|i: int, j: int|
            !#[trigger] blanks_at(blank_frames(path, pause_ms), i, j, cell),
{
    broadcast use vstd::multiset::group_multiset_axioms;

    let plan = blank_frames(path, pause_ms);
    path.to_multiset_ensures();
    if visits(path, cell) == 1 {
        assert(path.contains(cell));
        let i = choose|i: int| 0 <= i < path.len() && path[i] == cell;
        assert(blanks_at(plan, i, 0, cell));
        let rest = path.remove(i);
        rest.to_multiset_ensures();
        assert(rest.to_multiset().count(cell) == 0);
        assert forall|i2: int, j2: int| #[trigger]
            blanks_at(plan, i2, j2, cell) implies i2 == i && j2 == 0 by {
            assert(has_action(plan, i2, j2));
            assert(path[i2] == cell);
            if i2 < i {
                assert(rest[i2] == cell);
                assert(rest.contains(cell));
            } else if i2 > i {
                assert(rest[i2 - 1] == cell);
                assert(rest.contains(cell));
            }
        }
    }
    if visits(path, cell) == 0 {
        assert forall|i: int, j: int| !#[trigger] blanks_at(plan, i, j, cell) by {
            if blanks_at(plan, i, j, cell) {
                assert(has_action(plan, i, j));
                assert(path[i] == cell);
                assert(path.contains(cell));
            }
        }
    }
}

} // verus!
