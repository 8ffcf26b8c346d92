//! The path of the spiral: straight runs of cells, joined into rings that
//! close in on the middle of the grid.

use vstd::prelude::*;
use vstd::arithmetic::div_mod::lemma_fundamental_div_mod_converse;
use vstd::multiset::Multiset;
use vstd::seq_lib::lemma_multiset_commutative;
use crate::grid::{visits, Coordinate, TerminalDimensions};

verus! {

/// The number of cells in a run from `from` to `to`, both ends included.
pub open spec fn run_length(from: u16, to: u16) -> nat {
    if from <= to {
        (to - from + 1) as nat
    } else {
        (from - to + 1) as nat
    }
}

/// Position number `i` of a run that starts at `from` and heads for `to`:
/// upwards in number when `from <= to`, downwards otherwise.
pub open spec fn run_position(from: u16, to: u16, i: int) -> u16 {
    if from <= to {
        (from + i) as u16
    } else {
        (from - i) as u16
    }
}

/// The cells of `column` from row `from` to row `to`, both ends included, in
/// the order in which a walk from `from` to `to` meets them.
pub open spec fn column_run(column: u16, from: u16, to: u16) -> Seq<Coordinate> {
    Seq::new(
        run_length(from, to),
        |i: int| Coordinate { column, row: run_position(from, to, i) },
    )
}

/// The cells of `row` from column `from` to column `to`, both ends included,
/// in the order in which a walk from `from` to `to` meets them.
pub open spec fn row_run(row: u16, from: u16, to: u16) -> Seq<Coordinate> {
    Seq::new(
        run_length(from, to),
        |i: int| Coordinate { column: run_position(from, to, i), row },
    )
}

/// The number of rings that the spiral sweeps.
pub open spec fn spiral_rings(dims: TerminalDimensions) -> nat {
    if dims.columns / 2 <= dims.rows / 2 {
        (dims.columns / 2) as nat
    } else {
        (dims.rows / 2) as nat
    }
}

/// The ring at inset `k`: the border of the screen cells that lie at least
/// `k` away from every edge, in four runs that share no cell. The left column
/// goes down from the top left corner, the top row goes right and ends in the
/// top right corner, the right column goes up from the bottom right corner,
/// and the bottom row goes left and ends in the bottom left corner.
pub open spec fn ring(dims: TerminalDimensions, k: int) -> Seq<Coordinate> {
    let left: u16 = k as u16;
    let top: u16 = k as u16;
    let right: u16 = (dims.columns - 1 - k) as u16;
    let bottom: u16 = (dims.rows - 1 - k) as u16;
    column_run(left, top, (bottom - 1) as u16) + row_run(top, (left + 1) as u16, right)
        + column_run(right, bottom, (top + 1) as u16) + row_run(bottom, (right - 1) as u16, left)
}

/// The cells of the first `n` rings, outermost ring first.
pub open spec fn spiral_path(dims: TerminalDimensions, n: nat) -> Seq<Coordinate>
    decreases n,
{
    if n == 0 {
        Seq::empty()
    } else {
        spiral_path(dims, (n - 1) as nat) + ring(dims, n - 1)
    }
}

/// The order in which the spiral blanks the cells.
pub open spec fn spiral_order(dims: TerminalDimensions) -> Seq<Coordinate> {
    spiral_path(dims, spiral_rings(dims))
}

/// Whether `x` lies between `a` and `b`, whichever of the two is smaller.
pub open spec fn between(a: u16, b: u16, x: u16) -> bool {
    (a <= x <= b) || (b <= x <= a)
}

/// How far a cell of the screen lies from the nearest edge of the screen.
pub open spec fn depth(dims: TerminalDimensions, cell: Coordinate) -> int {
    let across = if cell.column <= dims.columns - 1 - cell.column {
        cell.column as int
    } else {
        dims.columns - 1 - cell.column
    };
    let down = if cell.row <= dims.rows - 1 - cell.row {
        cell.row as int
    } else {
        dims.rows - 1 - cell.row
    };
    if across <= down {
        across
    } else {
        down
    }
}

/// How often the first `n` rings come by `cell`: once where the cell is on
/// the screen and less than `n` deep, never otherwise.
pub open spec fn spiral_visits(dims: TerminalDimensions, n: nat, cell: Coordinate) -> nat {
    if dims.shows(cell) && depth(dims, cell) < n {
        1
    } else {
        0
    }
}

/// The cells of the screen that the first `n` rings leave alone: the
/// rectangle at inset `n`.
pub open spec fn unswept(dims: TerminalDimensions, n: nat) -> Set<Coordinate> {
    Set::new(|cell: Coordinate| dims.shows(cell) && depth(dims, cell) >= n)
}

/// The number of cells in the rectangle at inset `n`.
pub open spec fn unswept_area(dims: TerminalDimensions, n: nat) -> int {
    (dims.columns - 2 * n) * (dims.rows - 2 * n)
}

/// A run of a column comes by each of its cells once and by no other cell.
pub proof fn lemma_column_run_visits(column: u16, from: u16, to: u16, cell: Coordinate)
    ensures
        visits(column_run(column, from, to), cell) == if cell.column == column && between(
            from,
            to,
            cell.row,
        ) {
            1nat
        } else {
            0nat
        },
{
    let run = column_run(column, from, to);
    assert(run.no_duplicates());
    run.lemma_multiset_has_no_duplicates();
    run.to_multiset_ensures();
    if cell.column == column && between(from, to, cell.row) {
        let i = if from <= to {
            cell.row - from
        } else {
            from - cell.row
        };
        assert(run[i] == cell);
        assert(run.contains(cell));
    } else if run.contains(cell) {
        let i = choose|i: int| 0 <= i < run.len() && run[i] == cell;
        assert(false);
    }
}

/// A run of a row comes by each of its cells once and by no other cell.
pub proof fn lemma_row_run_visits(row: u16, from: u16, to: u16, cell: Coordinate)
    ensures
        visits(row_run(row, from, to), cell) == if cell.row == row && between(
            from,
            to,
            cell.column,
        ) {
            1nat
        } else {
            0nat
        },
{
    let run = row_run(row, from, to);
    assert(run.no_duplicates());
    run.lemma_multiset_has_no_duplicates();
    run.to_multiset_ensures();
    if cell.row == row && between(from, to, cell.column) {
        let i = if from <= to {
            cell.column - from
        } else {
            from - cell.column
        };
        assert(run[i] == cell);
        assert(run.contains(cell));
    } else if run.contains(cell) {
        let i = choose|i: int| 0 <= i < run.len() && run[i] == cell;
        assert(false);
    }
}

/// The ring at inset `k` comes once by every cell of the screen that is
/// exactly `k` deep, corners included, and by no other cell.
pub proof fn lemma_ring_visits(dims: TerminalDimensions, k: int, cell: Coordinate)
    requires
        0 <= k < spiral_rings(dims),
    ensures
        visits(ring(dims, k), cell) == if dims.shows(cell) && depth(dims, cell) == k {
            1nat
        } else {
            0nat
        },
{
    broadcast use vstd::multiset::group_multiset_axioms;

    let left: u16 = k as u16;
    let top: u16 = k as u16;
    let right: u16 = (dims.columns - 1 - k) as u16;
    let bottom: u16 = (dims.rows - 1 - k) as u16;
    let a = column_run(left, top, (bottom - 1) as u16);
    let b = row_run(top, (left + 1) as u16, right);
    let c = column_run(right, bottom, (top + 1) as u16);
    let d = row_run(bottom, (right - 1) as u16, left);
    lemma_multiset_commutative(a, b);
    lemma_multiset_commutative(a + b, c);
    lemma_multiset_commutative(a + b + c, d);
    lemma_column_run_visits(left, top, (bottom - 1) as u16, cell);
    lemma_row_run_visits(top, (left + 1) as u16, right, cell);
    lemma_column_run_visits(right, bottom, (top + 1) as u16, cell);
    lemma_row_run_visits(bottom, (right - 1) as u16, left, cell);
    assert(visits(ring(dims, k), cell) == visits(a, cell) + visits(b, cell) + visits(c, cell)
        + visits(d, cell));
}

/// The first `n` rings come by each cell as often as [`spiral_visits`] says.
pub proof fn lemma_spiral_path_visits(dims: TerminalDimensions, n: nat, cell: Coordinate)
    requires
        n <= spiral_rings(dims),
    ensures
        visits(spiral_path(dims, n), cell) == spiral_visits(dims, n, cell),
    decreases n,
{
    broadcast use vstd::multiset::group_multiset_axioms;

    if n == 0 {
        assert(spiral_path(dims, 0).to_multiset() =~= Multiset::<Coordinate>::empty()) by {
            spiral_path(dims, 0).to_multiset_ensures();
        }
    } else {
        let before = spiral_path(dims, (n - 1) as nat);
        lemma_spiral_path_visits(dims, (n - 1) as nat, cell);
        lemma_ring_visits(dims, n - 1, cell);
        lemma_multiset_commutative(before, ring(dims, n - 1));
    }
}

/// The spiral comes by no cell twice, whatever the size of the terminal: it
/// meets once every cell of the screen that one of its rings reaches, and no
/// other cell.
pub proof fn lemma_spiral_visits(dims: TerminalDimensions)
    ensures
        spiral_order(dims).no_duplicates(),
        forall|cell: Coordinate| #[trigger]
            visits(spiral_order(dims), cell) == spiral_visits(dims, spiral_rings(dims), cell),
{
    assert forall|cell: Coordinate| #[trigger]
        visits(spiral_order(dims), cell) == spiral_visits(
            dims,
            spiral_rings(dims),
            cell,
        ) by {
        lemma_spiral_path_visits(dims, spiral_rings(dims), cell);
    }
    assert forall|cell: Coordinate|
        spiral_order(dims).to_multiset().contains(cell) implies spiral_order(
            dims,
        ).to_multiset().count(cell) == 1 by {
        assert(visits(spiral_order(dims), cell) == spiral_visits(
            dims,
            spiral_rings(dims),
            cell,
        ));
    }
    spiral_order(dims).lemma_multiset_has_no_duplicates_conv();
}

/// Two different rings share no cell.
pub proof fn lemma_rings_are_disjoint(dims: TerminalDimensions, j: int, k: int, cell: Coordinate)
    requires
        0 <= j < spiral_rings(dims),
        0 <= k < spiral_rings(dims),
        j != k,
    ensures
        !(ring(dims, j).contains(cell) && ring(dims, k).contains(cell)),
{
    lemma_ring_visits(dims, j, cell);
    lemma_ring_visits(dims, k, cell);
    ring(dims, j).to_multiset_ensures();
    ring(dims, k).to_multiset_ensures();
}

/// Cell number `i` of the rectangle at inset `n`, counting column after
/// column.
pub open spec fn unswept_cell(dims: TerminalDimensions, n: nat, i: int) -> Coordinate {
    let height = dims.rows - 2 * n;
    Coordinate { column: (n + i / height) as u16, row: (n + i % height) as u16 }
}

proof fn lemma_unswept_cell_inside(dims: TerminalDimensions, n: nat, i: int)
    requires
        n <= spiral_rings(dims),
        0 <= i < unswept_area(dims, n),
    ensures
        unswept(dims, n).contains(unswept_cell(dims, n, i)),
        i == (unswept_cell(dims, n, i).column - n) * (dims.rows - 2 * n) + (unswept_cell(
            dims,
            n,
            i,
        ).row - n),
{
    let height: int = dims.rows - 2 * n;
    let width: int = dims.columns - 2 * n;
    assert(height > 0 && 0 <= i / height < width && 0 <= i % height < height && i == (i / height)
        * height + i % height) by (nonlinear_arith)
        requires
            0 <= i < width * height,
            height >= 0,
            width >= 0,
    ;
}

/// After `n` rings the cells of the screen not yet swept form the rectangle
/// at inset `n`, which holds [`unswept_area`] cells.
pub proof fn lemma_unswept_area(dims: TerminalDimensions, n: nat)
    requires
        n <= spiral_rings(dims),
    ensures
        unswept(dims, n).finite(),
        unswept(dims, n).len() == unswept_area(dims, n),
        forall|cell: Coordinate|
            unswept(dims, n).contains(cell) <==> (dims.shows(cell) && !spiral_path(
                dims,
                n,
            ).contains(cell)),
{
    let height: int = dims.rows - 2 * n;
    let width: int = dims.columns - 2 * n;
    assert(width * height >= 0) by (nonlinear_arith)
        requires
            width >= 0,
            height >= 0,
    ;
    let cells = Seq::new(unswept_area(dims, n) as nat, |i: int| unswept_cell(dims, n, i));
    assert forall|a: int, b: int| 0 <= a < cells.len() && 0 <= b < cells.len() && a != b implies cells[a]
        != cells[b] by {
        lemma_unswept_cell_inside(dims, n, a);
        lemma_unswept_cell_inside(dims, n, b);
    }
    assert forall|cell: Coordinate| cells.to_set().contains(cell) <==> unswept(dims, n).contains(
        cell,
    ) by {
        if unswept(dims, n).contains(cell) {
            let i = (cell.column - n) * height + (cell.row - n);
            lemma_fundamental_div_mod_converse(i, height, cell.column - n, cell.row - n);
            assert(0 <= i < width * height) by (nonlinear_arith)
                requires
                    i == (cell.column - n) * height + (cell.row - n),
                    0 <= cell.column - n < width,
                    0 <= cell.row - n < height,
            ;
            assert(cells[i] == cell);
            assert(cells.contains(cell));
        }
        if cells.to_set().contains(cell) {
            assert(cells.contains(cell));
            let i = choose|i: int| 0 <= i < cells.len() && cells[i] == cell;
            lemma_unswept_cell_inside(dims, n, i);
        }
    }
    assert(cells.to_set() =~= unswept(dims, n));
    cells.unique_seq_to_set();
    vstd::seq_lib::seq_to_set_is_finite(cells);
    assert forall|cell: Coordinate|
        unswept(dims, n).contains(cell) <==> (dims.shows(cell) && !spiral_path(dims, n).contains(
            cell,
        )) by {
        lemma_spiral_path_visits(dims, n, cell);
        spiral_path(dims, n).to_multiset_ensures();
    }
}

/// Before the first ring the whole screen is unswept, and every ring strictly
/// shrinks what is left to sweep: the rectangle at inset `n + 1` lies inside
/// the one at inset `n` and holds fewer cells.
pub proof fn lemma_ring_shrinks_unswept(dims: TerminalDimensions, n: nat)
    requires
        n < spiral_rings(dims),
    ensures
        unswept(dims, 0) == dims.screen(),
        unswept(dims, n + 1).subset_of(unswept(dims, n)),
        unswept(dims, n + 1).len() < unswept(dims, n).len(),
        unswept_area(dims, n + 1) < unswept_area(dims, n),
{
    lemma_unswept_area(dims, n);
    lemma_unswept_area(dims, n + 1);
    assert(unswept(dims, 0) =~= dims.screen());
    let height: int = dims.rows - 2 * n;
    let width: int = dims.columns - 2 * n;
    assert((width - 2) * (height - 2) < width * height) by (nonlinear_arith)
        requires
            width >= 2,
            height >= 2,
    ;
}

/// On a terminal with an even number of columns and of rows the spiral
/// leaves nothing unswept: the unswept area has fallen to zero after the last
/// ring, and every cell of the screen has been met exactly once.
pub proof fn lemma_spiral_sweeps_even_screen(dims: TerminalDimensions)
    requires
        dims.columns % 2 == 0,
        dims.rows % 2 == 0,
    ensures
        unswept(dims, spiral_rings(dims)) == Set::<Coordinate>::empty(),
        unswept(dims, spiral_rings(dims)).len() == 0,
        unswept_area(dims, spiral_rings(dims)) == 0,
        forall|cell: Coordinate|
            dims.shows(cell) ==> #[trigger] visits(spiral_order(dims), cell) == 1,
        forall|cell: Coordinate|
            !dims.shows(cell) ==> #[trigger] visits(spiral_order(dims), cell) == 0,
{
    lemma_spiral_visits(dims);
    lemma_unswept_area(dims, spiral_rings(dims));
    assert(unswept(dims, spiral_rings(dims)) =~= Set::<Coordinate>::empty());
    let height: int = dims.rows - 2 * spiral_rings(dims);
    let width: int = dims.columns - 2 * spiral_rings(dims);
    assert(width * height == 0) by (nonlinear_arith)
        requires
            width == 0 || height == 0,
    ;
}

/// Whatever the size of the terminal, what the spiral leaves unswept is at
/// most one cell across or at most one cell down.
pub proof fn lemma_spiral_leaves_at_most_a_line(dims: TerminalDimensions)
    ensures
        dims.columns - 2 * spiral_rings(dims) <= 1 || dims.rows - 2 * spiral_rings(dims) <= 1,
        forall|cell: Coordinate|
            unswept(dims, spiral_rings(dims)).contains(cell) ==> cell.column == spiral_rings(dims)
                || cell.row == spiral_rings(dims),
{
}

} // verus!
