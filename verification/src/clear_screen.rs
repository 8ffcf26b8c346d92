//! The clearing modes, each planned as a list of frames.

use vstd::prelude::*;
use vstd::arithmetic::div_mod::lemma_fundamental_div_mod_converse;
use crate::frame::{
    blank_frames, blanked_once, blanks_at, clears_line_at, frames_for, has_action,
    lemma_blank_frames_concat, lemma_blank_frames_follow_path, line_cleared_once, plan_erased,
    plan_view, plan_within, Action, Frame, FrameView,
};
use crate::grid::{visits, Coordinate, TerminalDimensions};
use crate::ring::{
    column_run, depth, lemma_spiral_sweeps_even_screen, lemma_spiral_visits, ring, row_run,
    run_length, spiral_order, spiral_path, spiral_rings, unswept,
};
use crate::shuffle::{
    draws_from_seed, lemma_every_order_has_one_list_of_draws, lemma_shuffled_is_rearrangement,
    lemma_shuffled_visits_once, positions, seeded_draws, shuffle, shuffled, valid_draws,
};

verus! {

/// The direction the wipe animation will play in.
#[derive(Clone, Copy, Debug, PartialEq, Eq, Structural, PartialOrd, Ord, Hash)]
pub enum WipeDirection {
    Up,
    Down,
    Left,
    Right,
}

impl Default for WipeDirection {
    fn default() -> (dir: Self)
        ensures
            dir == WipeDirection::Down,
    {
        WipeDirection::Down
    }
}

impl WipeDirection {
    /// Whether the wipe erases whole lines (`Up`, `Down`) rather than sweeping
    /// column by column.
    pub open spec fn by_line(self) -> bool {
        self is Up || self is Down
    }
}

/// The plan of the instant clear: the whole screen in a single action of a
/// single frame, with no pause.
pub open spec fn basic_plan() -> Seq<FrameView> {
    seq![FrameView { actions: seq![Action::ClearScreen], pause_ms: None }]
}

/// Clear the entire screen at once, like the standard `clear` command.
pub fn basic() -> (frames: Vec<Frame>)
    ensures
        plan_view(frames@) == basic_plan(),
{
    let mut actions: Vec<Action> = Vec::new();
    actions.push(Action::ClearScreen);
    let mut frames: Vec<Frame> = Vec::new();
    frames.push(Frame { actions, pause_ms: None });
    assert(plan_view(frames@) =~= basic_plan());
    frames
}

/// The instant clear erases exactly the full grid, whatever the size of the
/// terminal, and does so in one action.
pub proof fn lemma_basic_clears_full_grid(dims: TerminalDimensions)
    ensures
        plan_erased(basic_plan(), dims) == dims.cells(),
        basic_plan().len() == 1,
        basic_plan()[0].actions.len() == 1,
        basic_plan()[0].pause_ms is None,
        plan_within(basic_plan(), dims),
{
    let plan = basic_plan();
    assert forall|cell: Coordinate| dims.cells().contains(cell) implies plan_erased(
        plan,
        dims,
    ).contains(cell) by {
        assert(has_action(plan, 0, 0) && plan[0].actions[0].erased(dims).contains(cell));
    }
    assert(plan_erased(plan, dims) =~= dims.cells());
}

/// The frame that erases the line `row` and then waits.
pub open spec fn line_frame(row: u16, delay_ms: u64) -> FrameView {
    FrameView { actions: seq![Action::ClearLine { row }], pause_ms: Some(delay_ms) }
}

/// The frame that blanks every cell of `column`, top to bottom, and then
/// waits.
pub open spec fn column_frame(column: u16, rows: u16, delay_ms: u64) -> FrameView {
    FrameView {
        actions: Seq::new(
            (rows + 1) as nat,
            |j: int| Action::Blank { column, row: j as u16 },
        ),
        pause_ms: Some(delay_ms),
    }
}

/// The frame that only puts the cursor back at the origin.
pub open spec fn home_frame() -> FrameView {
    FrameView { actions: seq![Action::Home], pause_ms: None }
}

/// The number of paced steps of a wipe: one per line, or one per column.
pub open spec fn wipe_steps(dims: TerminalDimensions, dir: WipeDirection) -> nat {
    if dir.by_line() {
        (dims.rows + 1) as nat
    } else {
        (dims.columns + 1) as nat
    }
}

/// Step `i` of a wipe.
pub open spec fn wipe_step(
    dims: TerminalDimensions,
    dir: WipeDirection,
    delay_ms: u64,
    i: int,
) -> FrameView {
    match dir {
        WipeDirection::Up => line_frame((dims.rows - i) as u16, delay_ms),
        WipeDirection::Down => line_frame(i as u16, delay_ms),
        WipeDirection::Left => column_frame((dims.columns - i) as u16, dims.rows, delay_ms),
        WipeDirection::Right => column_frame(i as u16, dims.rows, delay_ms),
    }
}

/// The first `n` steps of a wipe.
pub open spec fn wipe_prefix(
    dims: TerminalDimensions,
    dir: WipeDirection,
    delay_ms: u64,
    n: nat,
) -> Seq<FrameView> {
    Seq::new(n, |i: int| wipe_step(dims, dir, delay_ms, i))
}

/// The plan of a wipe: every step from one edge to the other, both edges
/// included, then the cursor back at the origin.
pub open spec fn wipe_plan(dims: TerminalDimensions, dir: WipeDirection, delay_ms: u64) -> Seq<
    FrameView,
> {
    wipe_prefix(dims, dir, delay_ms, wipe_steps(dims, dir)).push(home_frame())
}

fn line_step(row: u16, delay_ms: u64) -> (frame: Frame)
    ensures
        frame@ == line_frame(row, delay_ms),
{
    let mut actions: Vec<Action> = Vec::new();
    actions.push(Action::ClearLine { row });
    Frame { actions, pause_ms: Some(delay_ms) }
}

fn column_step(column: u16, rows: u16, delay_ms: u64) -> (frame: Frame)
    ensures
        frame@ == column_frame(column, rows, delay_ms),
{
    let mut actions: Vec<Action> = Vec::new();
    let mut j: u32 = 0;
    while j <= rows as u32
        invariant
            j <= rows + 1,
            actions@ == Seq::new(j as nat, |k: int| Action::Blank { column, row: k as u16 }),
        decreases rows + 1 - j,
    {
        actions.push(Action::Blank { column, row: j as u16 });
        j += 1;
    }
    Frame { actions, pause_ms: Some(delay_ms) }
}

fn home_step() -> (frame: Frame)
    ensures
        frame@ == home_frame(),
{
    let mut actions: Vec<Action> = Vec::new();
    actions.push(Action::Home);
    Frame { actions, pause_ms: None }
}

/// Wipe animation: erase the screen line by line (`Up`, `Down`) or column by
/// column (`Left`, `Right`), waiting `delay_ms` after every step, and leave
/// the cursor at the origin.
pub fn wipe(dims: TerminalDimensions, dir: WipeDirection, delay_ms: u64) -> (frames: Vec<Frame>)
    ensures
        plan_view(frames@) == wipe_plan(dims, dir, delay_ms),
{
    let steps: u32 = match dir {
        WipeDirection::Up | WipeDirection::Down => dims.rows as u32 + 1,
        WipeDirection::Left | WipeDirection::Right => dims.columns as u32 + 1,
    };
    let mut frames: Vec<Frame> = Vec::new();
    let mut i: u32 = 0;
    assert(plan_view(frames@) =~= wipe_prefix(dims, dir, delay_ms, 0));
    while i < steps
        invariant
            i <= steps,
            steps == wipe_steps(dims, dir),
            plan_view(frames@) == wipe_prefix(dims, dir, delay_ms, i as nat),
        decreases steps - i,
    {
        let frame = match dir {
            WipeDirection::Up => line_step(dims.rows - i as u16, delay_ms),
            WipeDirection::Down => line_step(i as u16, delay_ms),
            WipeDirection::Left => column_step(dims.columns - i as u16, dims.rows, delay_ms),
            WipeDirection::Right => column_step(i as u16, dims.rows, delay_ms),
        };
        let ghost before = frames@;
        frames.push(frame);
        assert(plan_view(frames@) =~= plan_view(before).push(frame@));
        assert(wipe_prefix(dims, dir, delay_ms, (i + 1) as nat) =~= wipe_prefix(
            dims,
            dir,
            delay_ms,
            i as nat,
        ).push(wipe_step(dims, dir, delay_ms, i as int)));
        i += 1;
    }
    let last = home_step();
    let ghost before = frames@;
    frames.push(last);
    assert(plan_view(frames@) =~= plan_view(before).push(last@));
    frames
}

/// Every paced step of a wipe waits exactly `delay_ms`; the closing frame
/// puts the cursor at the origin and waits for nothing. No action leaves the
/// grid.
pub proof fn lemma_wipe_pacing(dims: TerminalDimensions, dir: WipeDirection, delay_ms: u64)
    ensures
        wipe_plan(dims, dir, delay_ms).len() == wipe_steps(dims, dir) + 1,
        forall|i: int|
            0 <= i < wipe_steps(dims, dir) ==> (#[trigger] wipe_plan(
                dims,
                dir,
                delay_ms,
            )[i]).pause_ms == Some(delay_ms),
        wipe_plan(dims, dir, delay_ms).last() == home_frame(),
        plan_within(wipe_plan(dims, dir, delay_ms), dims),
{
}

/// A wipe `Up` or `Down` erases every line of the grid exactly once, and
/// blanks no single cell.
pub proof fn lemma_wipe_clears_each_line_once(
    dims: TerminalDimensions,
    dir: WipeDirection,
    delay_ms: u64,
)
    requires
        dir.by_line(),
    ensures
        forall|row: int|
            0 <= row <= dims.rows ==> #[trigger] line_cleared_once(
                wipe_plan(dims, dir, delay_ms),
                row,
            ),
        forall|i: int, j: int, cell: Coordinate|
            !#[trigger] blanks_at(wipe_plan(dims, dir, delay_ms), i, j, cell),
{
    let plan = wipe_plan(dims, dir, delay_ms);
    assert forall|row: int| 0 <= row <= dims.rows implies #[trigger] line_cleared_once(
        plan,
        row,
    ) by {
        let i = if dir is Up {
            dims.rows - row
        } else {
            row
        };
        assert(clears_line_at(plan, i, 0, row));
        assert forall|i2: int, j2: int| #[trigger]
            clears_line_at(plan, i2, j2, row) implies i2 == i && j2 == 0 by {
            assert(has_action(plan, i2, j2));
        }
    }
}

/// A wipe `Left` or `Right` blanks every cell of the grid exactly once.
pub proof fn lemma_wipe_blanks_each_cell_once(
    dims: TerminalDimensions,
    dir: WipeDirection,
    delay_ms: u64,
)
    requires
        !dir.by_line(),
    ensures
        forall|cell: Coordinate|
            dims.holds(cell) ==> #[trigger] blanked_once(wipe_plan(dims, dir, delay_ms), cell),
{
    let plan = wipe_plan(dims, dir, delay_ms);
    assert forall|cell: Coordinate| dims.holds(cell) implies #[trigger] blanked_once(
        plan,
        cell,
    ) by {
        let i = if dir is Left {
            dims.columns - cell.column
        } else {
            cell.column as int
        };
        let j = cell.row as int;
        assert(blanks_at(plan, i, j, cell));
        assert forall|i2: int, j2: int| #[trigger]
            blanks_at(plan, i2, j2, cell) implies i2 == i && j2 == j by {
            assert(has_action(plan, i2, j2));
        }
    }
}

/// Whatever the direction, a wipe leaves no cell of the grid untouched.
pub proof fn lemma_wipe_clears_full_grid(
    dims: TerminalDimensions,
    dir: WipeDirection,
    delay_ms: u64,
)
    ensures
        plan_erased(wipe_plan(dims, dir, delay_ms), dims) == dims.cells(),
{
    let plan = wipe_plan(dims, dir, delay_ms);
    assert forall|cell: Coordinate| dims.cells().contains(cell) implies plan_erased(
        plan,
        dims,
    ).contains(cell) by {
        let i = match dir {
            WipeDirection::Up => dims.rows - cell.row,
            WipeDirection::Down => cell.row as int,
            WipeDirection::Left => dims.columns - cell.column,
            WipeDirection::Right => cell.column as int,
        };
        let j = if dir.by_line() {
            0
        } else {
            cell.row as int
        };
        assert(has_action(plan, i, j) && plan[i].actions[j].erased(dims).contains(cell));
    }
    assert(plan_erased(plan, dims) =~= dims.cells());
}

/// The pause after each cell of a dissolve, in milliseconds.
pub const DISSOLVE_PAUSE_MS: u64 = 1;

/// Cell number `k` of the grid, counting down the first column, then down the
/// second, and so on.
pub open spec fn raster_cell(dims: TerminalDimensions, k: int) -> Coordinate {
    Coordinate { column: (k / (dims.rows + 1)) as u16, row: (k % (dims.rows + 1)) as u16 }
}

/// Every cell of the grid, column after column.
pub open spec fn raster(dims: TerminalDimensions) -> Seq<Coordinate> {
    Seq::new(dims.cell_count(), |k: int| raster_cell(dims, k))
}

/// The order in which a dissolve blanks the cells: the raster shuffled by
/// `draws`.
pub open spec fn dissolve_order(dims: TerminalDimensions, draws: Seq<int>) -> Seq<Coordinate> {
    shuffled(raster(dims), draws)
}

/// The plan of a dissolve: one frame per cell, in shuffled order.
pub open spec fn dissolve_plan(dims: TerminalDimensions, draws: Seq<int>) -> Seq<FrameView> {
    blank_frames(dissolve_order(dims, draws), DISSOLVE_PAUSE_MS)
}

/// Lists every cell of the grid, column after column.
pub fn raster_cells(dims: TerminalDimensions) -> (cells: Vec<Coordinate>)
    ensures
        cells@ == raster(dims),
{
    let mut cells: Vec<Coordinate> = Vec::new();
    let ghost height: int = dims.rows + 1;
    let mut i: u32 = 0;
    while i <= dims.columns as u32
        invariant
            i <= dims.columns + 1,
            height == dims.rows + 1,
            cells@.len() == i * height,
            forall|k: int| 0 <= k < cells@.len() ==> cells@[k] == raster_cell(dims, k),
        decreases dims.columns + 1 - i,
    {
        let mut j: u32 = 0;
        while j <= dims.rows as u32
            invariant
                i <= dims.columns,
                j <= dims.rows + 1,
                height == dims.rows + 1,
                cells@.len() == i * height + j,
                forall|k: int| 0 <= k < cells@.len() ==> cells@[k] == raster_cell(dims, k),
            decreases dims.rows + 1 - j,
        {
            proof {
                lemma_fundamental_div_mod_converse(i * height + j, height, i as int, j as int);
            }
            cells.push(Coordinate { column: i as u16, row: j as u16 });
            j += 1;
        }
        assert((i + 1) * height == i * height + height) by (nonlinear_arith);
        i += 1;
    }
    assert(cells@ =~= raster(dims));
    cells
}

/// Dissolve animation: blank every cell of the grid, one per frame, in the
/// order into which `draws` shuffle the raster. `draws` holds one draw per
/// cell of the grid, the draw for place `i` being a position from `0` to `i`;
/// with any other list there is no plan.
pub fn dissolve(dims: TerminalDimensions, draws: &Vec<usize>) -> (frames: Option<Vec<Frame>>)
    ensures
        frames is Some <==> valid_draws(positions(draws@), dims.cell_count()),
        frames matches Some(planned) ==> plan_view(planned@) == dissolve_plan(
            dims,
            positions(draws@),
        ),
{
    let mut cells = raster_cells(dims);
    if shuffle(&mut cells, draws) {
        Some(frames_for(&cells, DISSOLVE_PAUSE_MS))
    } else {
        None
    }
}

/// Dissolve animation with the draws made from `seed`.
pub fn dissolve_seeded(dims: TerminalDimensions, seed: u64) -> (frames: Vec<Frame>)
    ensures
        plan_view(frames@) == dissolve_plan(dims, seeded_draws(dims.cell_count(), seed)),
{
    let mut cells = raster_cells(dims);
    let draws = draws_from_seed(cells.len(), seed);
    let done = shuffle(&mut cells, &draws);
    assert(done);
    frames_for(&cells, DISSOLVE_PAUSE_MS)
}

/// Cell number `k` lies inside the grid, and `k` is found again from its
/// column and row.
proof fn lemma_raster_cell_inside(dims: TerminalDimensions, k: int)
    requires
        0 <= k < dims.cell_count(),
    ensures
        dims.holds(raster_cell(dims, k)),
        k == raster_cell(dims, k).column * (dims.rows + 1) + raster_cell(dims, k).row,
{
    let height: int = dims.rows + 1;
    let width: int = dims.columns + 1;
    assert(0 <= k / height < width && 0 <= k % height < height && k == (k / height) * height + k
        % height) by (nonlinear_arith)
        requires
            0 <= k < width * height,
            height > 0,
    ;
}

/// The raster holds every cell of the grid, and none twice.
pub proof fn lemma_raster_visits_once(dims: TerminalDimensions)
    ensures
        raster(dims).no_duplicates(),
        forall|cell: Coordinate| raster(dims).contains(cell) <==> dims.holds(cell),
{
    let cells = raster(dims);
    let height: int = dims.rows + 1;
    let width: int = dims.columns + 1;
    assert forall|a: int, b: int| 0 <= a < cells.len() && 0 <= b < cells.len() && a != b implies cells[a]
        != cells[b] by {
        lemma_raster_cell_inside(dims, a);
        lemma_raster_cell_inside(dims, b);
    }
    assert forall|cell: Coordinate| cells.contains(cell) <==> dims.holds(cell) by {
        if dims.holds(cell) {
            let k = cell.column * height + cell.row;
            lemma_fundamental_div_mod_converse(k, height, cell.column as int, cell.row as int);
            assert(0 <= k < width * height) by (nonlinear_arith)
                requires
                    k == cell.column * height + cell.row,
                    0 <= cell.column < width,
                    0 <= cell.row < height,
            ;
            assert(cells[k] == cell);
        }
        if cells.contains(cell) {
            let k = choose|k: int| 0 <= k < cells.len() && cells[k] == cell;
            lemma_raster_cell_inside(dims, k);
        }
    }
}

/// Whatever the draws, a dissolve blanks every cell of the grid exactly
/// once, one cell per frame, and never leaves the grid.
pub proof fn lemma_dissolve_blanks_each_cell_once(dims: TerminalDimensions, draws: Seq<int>)
    requires
        valid_draws(draws, dims.cell_count()),
    ensures
        dissolve_plan(dims, draws).len() == dims.cell_count(),
        forall|cell: Coordinate|
            dims.holds(cell) ==> #[trigger] blanked_once(dissolve_plan(dims, draws), cell),
        plan_within(dissolve_plan(dims, draws), dims),
        plan_erased(dissolve_plan(dims, draws), dims) == dims.cells(),
{
    let order = dissolve_order(dims, draws);
    let plan = dissolve_plan(dims, draws);
    lemma_raster_visits_once(dims);
    lemma_shuffled_visits_once(raster(dims), draws);
    lemma_shuffled_is_rearrangement(raster(dims), draws);
    assert forall|cell: Coordinate| dims.holds(cell) implies #[trigger] blanked_once(
        plan,
        cell,
    ) by {
        assert(order.contains(cell));
        let i = choose|i: int| 0 <= i < order.len() && order[i] == cell;
        assert(blanks_at(plan, i, 0, cell));
        assert forall|i2: int, j2: int| #[trigger]
            blanks_at(plan, i2, j2, cell) implies i2 == i && j2 == 0 by {
            assert(has_action(plan, i2, j2));
            assert(order[i2] == cell);
        }
    }
    assert forall|i: int, j: int| #[trigger] has_action(plan, i, j) implies plan[i].actions[j].within(
        dims,
    ) by {
        assert(plan[i].actions.len() == 1);
        assert(order.contains(order[i]));
        assert(raster(dims).contains(order[i]));
        assert(dims.holds(order[i]));
    }
    assert forall|cell: Coordinate| dims.cells().contains(cell) implies plan_erased(
        plan,
        dims,
    ).contains(cell) by {
        assert(order.contains(cell));
        let i = choose|i: int| 0 <= i < order.len() && order[i] == cell;
        assert(has_action(plan, i, 0) && plan[i].actions[0].erased(dims).contains(cell));
    }
    assert(plan_erased(plan, dims) =~= dims.cells());
}

/// Every order of the cells of the grid is the order of a dissolve for
/// exactly one list of draws. A dissolve whose draws are made evenly and
/// independently of each other therefore blanks the cells in every order
/// equally often.
pub proof fn lemma_dissolve_reaches_every_order(dims: TerminalDimensions, order: Seq<Coordinate>)
    requires
        order.to_multiset() == raster(dims).to_multiset(),
    ensures
        exists|draws: Seq<int>|
            valid_draws(draws, dims.cell_count()) && #[trigger] dissolve_order(dims, draws)
                == order,
        forall|first: Seq<int>, second: Seq<int>|
            valid_draws(first, dims.cell_count()) && valid_draws(second, dims.cell_count())
                && #[trigger] dissolve_order(dims, first) == order && #[trigger] dissolve_order(
                dims,
                second,
            ) == order ==> first == second,
{
    lemma_raster_visits_once(dims);
    lemma_every_order_has_one_list_of_draws(raster(dims), order);
    let draws = choose|draws: Seq<int>|
        valid_draws(draws, raster(dims).len()) && #[trigger] shuffled(raster(dims), draws)
            == order;
    assert(valid_draws(draws, dims.cell_count()) && dissolve_order(dims, draws) == order);
    assert forall|first: Seq<int>, second: Seq<int>|
        valid_draws(first, dims.cell_count()) && valid_draws(second, dims.cell_count())
            && #[trigger] dissolve_order(dims, first) == order && #[trigger] dissolve_order(
            dims,
            second,
        ) == order implies first == second by {
        assert(shuffled(raster(dims), first) == order && shuffled(raster(dims), second) == order);
    }
}

/// The pause after each cell of the spiral, in milliseconds.
pub const SPIRAL_PAUSE_MS: u64 = 1;

/// The plan of the spiral: one frame per cell of its path.
pub open spec fn spiral_plan(dims: TerminalDimensions) -> Seq<FrameView> {
    blank_frames(spiral_order(dims), SPIRAL_PAUSE_MS)
}

/// Appends to `out` one frame per cell of column `col`, walking from row
/// `from` to row `to` (downwards on the screen when `from <= to`, upwards
/// otherwise), each followed by a pause of `delay_ms`.
pub fn clear_col(out: &mut Vec<Frame>, col: u16, from: u16, to: u16, delay_ms: u64)
    ensures
        plan_view(final(out)@) == plan_view(old(out)@) + blank_frames(
            column_run(col, from, to),
            delay_ms,
        ),
{
    let count: u32 = if from <= to {
        (to - from) as u32 + 1
    } else {
        (from - to) as u32 + 1
    };
    let ghost run = column_run(col, from, to);
    let mut i: u32 = 0;
    assert(plan_view(out@) =~= plan_view(old(out)@) + blank_frames(run.take(0), delay_ms));
    while i < count
        invariant
            i <= count,
            count == run_length(from, to),
            run == column_run(col, from, to),
            plan_view(out@) == plan_view(old(out)@) + blank_frames(run.take(i as int), delay_ms),
        decreases count - i,
    {
        let row: u16 = if from <= to {
            from + i as u16
        } else {
            from - i as u16
        };
        let frame = Frame::blank(Coordinate { column: col, row }, delay_ms);
        let ghost before = out@;
        out.push(frame);
        assert(plan_view(out@) =~= plan_view(before).push(frame@));
        assert(run.take(i as int + 1) =~= run.take(i as int).push(run[i as int]));
        assert(blank_frames(run.take(i as int + 1), delay_ms) =~= blank_frames(
            run.take(i as int),
            delay_ms,
        ).push(frame@));
        i += 1;
    }
    assert(run.take(i as int) =~= run);
}

/// Appends to `out` one frame per cell of row `row`, walking from column
/// `from` to column `to` (rightwards when `from <= to`, leftwards otherwise),
/// each followed by a pause of `delay_ms`.
pub fn clear_row(out: &mut Vec<Frame>, row: u16, from: u16, to: u16, delay_ms: u64)
    ensures
        plan_view(final(out)@) == plan_view(old(out)@) + blank_frames(
            row_run(row, from, to),
            delay_ms,
        ),
{
    let count: u32 = if from <= to {
        (to - from) as u32 + 1
    } else {
        (from - to) as u32 + 1
    };
    let ghost run = row_run(row, from, to);
    let mut i: u32 = 0;
    assert(plan_view(out@) =~= plan_view(old(out)@) + blank_frames(run.take(0), delay_ms));
    while i < count
        invariant
            i <= count,
            count == run_length(from, to),
            run == row_run(row, from, to),
            plan_view(out@) == plan_view(old(out)@) + blank_frames(run.take(i as int), delay_ms),
        decreases count - i,
    {
        let column: u16 = if from <= to {
            from + i as u16
        } else {
            from - i as u16
        };
        let frame = Frame::blank(Coordinate { column, row }, delay_ms);
        let ghost before = out@;
        out.push(frame);
        assert(plan_view(out@) =~= plan_view(before).push(frame@));
        assert(run.take(i as int + 1) =~= run.take(i as int).push(run[i as int]));
        assert(blank_frames(run.take(i as int + 1), delay_ms) =~= blank_frames(
            run.take(i as int),
            delay_ms,
        ).push(frame@));
        i += 1;
    }
    assert(run.take(i as int) =~= run);
}

/// Spiral animation: blank the screen ring by ring from the outside in, one
/// cell per frame. Each ring is swept in four runs that share no cell: the
/// left column downwards, the top row rightwards, the right column upwards
/// and the bottom row leftwards.
pub fn spiral(dims: TerminalDimensions) -> (frames: Vec<Frame>)
    ensures
        plan_view(frames@) == spiral_plan(dims),
{
    let mut frames: Vec<Frame> = Vec::new();
    let mut h_step: u16 = 0;
    let mut v_step: u16 = 0;
    assert(plan_view(frames@) =~= blank_frames(spiral_path(dims, 0), SPIRAL_PAUSE_MS));
    while h_step < dims.columns / 2 && v_step < dims.rows / 2
        invariant
            h_step == v_step,
            h_step <= spiral_rings(dims),
            plan_view(frames@) == blank_frames(
                spiral_path(dims, h_step as nat),
                SPIRAL_PAUSE_MS,
            ),
        decreases spiral_rings(dims) - h_step,
    {
        let right: u16 = dims.columns - 1 - h_step;
        let bottom: u16 = dims.rows - 1 - v_step;
        let ghost before = spiral_path(dims, h_step as nat);
        let ghost left_run = column_run(h_step, v_step, (bottom - 1) as u16);
        let ghost top_run = row_run(v_step, (h_step + 1) as u16, right);
        let ghost right_run = column_run(right, bottom, (v_step + 1) as u16);
        let ghost bottom_run = row_run(bottom, (right - 1) as u16, h_step);
        clear_col(&mut frames, h_step, v_step, bottom - 1, SPIRAL_PAUSE_MS);
        clear_row(&mut frames, v_step, h_step + 1, right, SPIRAL_PAUSE_MS);
        clear_col(&mut frames, right, bottom, v_step + 1, SPIRAL_PAUSE_MS);
        clear_row(&mut frames, bottom, right - 1, h_step, SPIRAL_PAUSE_MS);
        proof {
            lemma_blank_frames_concat(before, left_run, SPIRAL_PAUSE_MS);
            lemma_blank_frames_concat(before + left_run, top_run, SPIRAL_PAUSE_MS);
            lemma_blank_frames_concat(before + left_run + top_run, right_run, SPIRAL_PAUSE_MS);
            lemma_blank_frames_concat(
                before + left_run + top_run + right_run,
                bottom_run,
                SPIRAL_PAUSE_MS,
            );
            assert(before + left_run + top_run + right_run + bottom_run =~= before + ring(
                dims,
                h_step as int,
            ));
        }
        h_step += 1;
        v_step += 1;
    }
    frames
}

/// What the spiral does to each cell, whatever the size of the terminal. A
/// cell of the screen that a ring reaches is blanked exactly once; any other
/// cell is never blanked; no action leaves the screen. So the spiral erases
/// the screen but for what its last ring encloses.
pub proof fn lemma_spiral_blanks(dims: TerminalDimensions)
    ensures
        plan_within(spiral_plan(dims), dims),
        forall|cell: Coordinate|
            dims.shows(cell) && depth(dims, cell) < spiral_rings(dims) ==> #[trigger] blanked_once(
                spiral_plan(dims),
                cell,
            ),
        forall|i: int, j: int, cell: Coordinate|
            !(dims.shows(cell) && depth(dims, cell) < spiral_rings(dims)) ==> !#[trigger] blanks_at(
                spiral_plan(dims),
                i,
                j,
                cell,
            ),
        plan_erased(spiral_plan(dims), dims) == dims.screen().difference(
            unswept(dims, spiral_rings(dims)),
        ),
{
    let path = spiral_order(dims);
    let plan = spiral_plan(dims);
    lemma_spiral_visits(dims);
    assert forall|cell: Coordinate|
        dims.shows(cell) && depth(dims, cell) < spiral_rings(dims) implies #[trigger] blanked_once(
        plan,
        cell,
    ) by {
        assert(visits(path, cell) == 1);
        lemma_blank_frames_follow_path(path, SPIRAL_PAUSE_MS, cell);
    }
    assert forall|i: int, j: int, cell: Coordinate|
        !(dims.shows(cell) && depth(dims, cell) < spiral_rings(dims)) implies !#[trigger] blanks_at(
        plan,
        i,
        j,
        cell,
    ) by {
        assert(visits(path, cell) == 0);
        lemma_blank_frames_follow_path(path, SPIRAL_PAUSE_MS, cell);
    }
    path.to_multiset_ensures();
    assert forall|i: int, j: int| #[trigger] has_action(plan, i, j) implies plan[i].actions[j].within(
        dims,
    ) by {
        assert(path.contains(path[i]));
        assert(visits(path, path[i]) > 0);
    }
    let swept = dims.screen().difference(unswept(dims, spiral_rings(dims)));
    assert forall|cell: Coordinate| swept.contains(cell) implies plan_erased(plan, dims).contains(
        cell,
    ) by {
        assert(visits(path, cell) > 0);
        assert(path.contains(cell));
        let i = choose|i: int| 0 <= i < path.len() && path[i] == cell;
        assert(has_action(plan, i, 0) && plan[i].actions[0].erased(dims).contains(cell));
    }
    assert forall|cell: Coordinate| plan_erased(plan, dims).contains(cell) implies swept.contains(
        cell,
    ) by {
        let (i, j) = choose|i: int, j: int| #[trigger]
            has_action(plan, i, j) && plan[i].actions[j].erased(dims).contains(cell);
        assert(path[i] == cell);
        assert(path.contains(cell));
        assert(visits(path, cell) > 0);
    }
    assert(plan_erased(plan, dims) =~= swept);
}

/// On a terminal with an even number of columns and of rows the spiral
/// blanks every cell of the screen exactly once and leaves none: what it
/// erases is the whole screen.
pub proof fn lemma_spiral_blanks_even_screen(dims: TerminalDimensions)
    requires
        dims.columns % 2 == 0,
        dims.rows % 2 == 0,
    ensures
        forall|cell: Coordinate|
            dims.shows(cell) ==> #[trigger] blanked_once(spiral_plan(dims), cell),
        plan_erased(spiral_plan(dims), dims) == dims.screen(),
        spiral_plan(dims).len() == dims.columns * dims.rows,
{
    lemma_spiral_blanks(dims);
    lemma_spiral_sweeps_even_screen(dims);
    assert forall|cell: Coordinate| dims.shows(cell) implies #[trigger] blanked_once(
        spiral_plan(dims),
        cell,
    ) by {
        assert(!unswept(dims, spiral_rings(dims)).contains(cell));
    }
    assert(plan_erased(spiral_plan(dims), dims) =~= dims.screen());
    crate::ring::lemma_unswept_area(dims, 0);
    crate::ring::lemma_spiral_visits(dims);
    let path = spiral_order(dims);
    path.unique_seq_to_set();
    assert(path.to_set() =~= unswept(dims, 0)) by {
        path.to_multiset_ensures();
        assert forall|cell: Coordinate| path.to_set().contains(cell) <==> unswept(dims, 0).contains(
            cell,
        ) by {
            assert(path.contains(cell) <==> visits(path, cell) > 0);
        }
    }
}

} // verus!
