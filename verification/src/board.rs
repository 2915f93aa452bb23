//! The board as a value: cells, the hexagonal frame, marble counts, validity,
//! and the two changes of perspective.

use vstd::prelude::*;
use vstd::array::spec_array_update;
use crate::tally::{lemma_sum_change, lemma_sum_ext, lemma_sum_reverse, sum_upto};

verus! {

/// The grid of cell values; the hexagon of 61 playable cells lies inside a ring of
/// off-board cells.
pub type Board = [[i8; 11]; 11];

/// Cell value: no marble.
pub const EMPTY: i8 = 0;

/// Cell value: a white marble; after a change of perspective, a marble of the side to move.
pub const WHITE: i8 = 1;

/// Cell value: a black marble; after a change of perspective, a marble of the other side.
pub const BLACK: i8 = 2;

/// Cell value: not part of the hexagon.
pub const OFF_BOARD: i8 = 3;

/// Largest number of marbles that a side can have.
pub const MARBLES_MAX: u8 = 14;

/// The board without marbles: the frame of off-board cells around the hexagon.
pub const EMPTY_BOARD: Board = [
    [3, 3, 3, 3, 3, 3, 3, 3, 3, 3, 3],
    [3, 3, 3, 3, 3, 0, 0, 0, 0, 0, 3],
    [3, 3, 3, 3, 0, 0, 0, 0, 0, 0, 3],
    [3, 3, 3, 0, 0, 0, 0, 0, 0, 0, 3],
    [3, 3, 0, 0, 0, 0, 0, 0, 0, 0, 3],
    [3, 0, 0, 0, 0, 0, 0, 0, 0, 0, 3],
    [3, 0, 0, 0, 0, 0, 0, 0, 0, 3, 3],
    [3, 0, 0, 0, 0, 0, 0, 0, 3, 3, 3],
    [3, 0, 0, 0, 0, 0, 0, 3, 3, 3, 3],
    [3, 0, 0, 0, 0, 0, 3, 3, 3, 3, 3],
    [3, 3, 3, 3, 3, 3, 3, 3, 3, 3, 3],
];

/// The "Belgian Daisy" opening used in competitive play.
pub const BELGIAN_DAISY: Board = [
    [3, 3, 3, 3, 3, 3, 3, 3, 3, 3, 3],
    [3, 3, 3, 3, 3, 1, 1, 0, 2, 2, 3],
    [3, 3, 3, 3, 1, 1, 1, 2, 2, 2, 3],
    [3, 3, 3, 0, 1, 1, 0, 2, 2, 0, 3],
    [3, 3, 0, 0, 0, 0, 0, 0, 0, 0, 3],
    [3, 0, 0, 0, 0, 0, 0, 0, 0, 0, 3],
    [3, 0, 0, 0, 0, 0, 0, 0, 0, 3, 3],
    [3, 0, 2, 2, 0, 1, 1, 0, 3, 3, 3],
    [3, 2, 2, 2, 1, 1, 1, 3, 3, 3, 3],
    [3, 2, 2, 0, 1, 1, 3, 3, 3, 3, 3],
    [3, 3, 3, 3, 3, 3, 3, 3, 3, 3, 3],
];

/// Whether `(x, y)` names a cell of the grid.
pub open spec fn on_grid(x: int, y: int) -> bool {
    0 <= x < 11 && 0 <= y < 11
}

/// Whether `(x, y)` is one of the 61 cells of the hexagon.
pub open spec fn playable(x: int, y: int) -> bool {
    1 <= x <= 9 && 1 <= y <= 9 && 6 <= x + y <= 14
}

/// The value of a cell. Positions beyond the grid read as off-board.
pub open spec fn cell_at(b: Board, x: int, y: int) -> i8 {
    if on_grid(x, y) {
        b[x][y]
    } else {
        OFF_BOARD
    }
}

/// The board `b` with the value `v` in cell `(x, y)`.
pub open spec fn with_cell(b: Board, x: int, y: int, v: i8) -> Board {
    spec_array_update(b, x, spec_array_update(b[x], y, v))
}

/// What `with_cell` changes and what it keeps.
pub broadcast proof fn lemma_with_cell(b: Board, x: int, y: int, v: i8, i: int, j: int)
    requires
        on_grid(x, y),
    ensures
        #[trigger] cell_at(with_cell(b, x, y, v), i, j) == (if i == x && j == y {
            v
        } else {
            cell_at(b, i, j)
        }),
{
}

/// Two boards with the same cells are the same board.
pub proof fn lemma_board_ext(a: Board, b: Board)
    requires
        forall|x: int, y: int| on_grid(x, y) ==> cell_at(a, x, y) == cell_at(b, x, y),
    ensures
        a == b,
{
    assert forall|x: int| 0 <= x < 11 implies a[x] == b[x] by {
        assert forall|y: int| 0 <= y < 11 implies a[x][y] == b[x][y] by {
            assert(cell_at(a, x, y) == cell_at(b, x, y));
        }
        assert(a[x] =~= b[x]);
    }
    assert(a =~= b);
}

/// The frame of the hexagon, cell by cell.
pub proof fn lemma_frame(x: int, y: int)
    requires
        on_grid(x, y),
    ensures
        playable(x, y) <==> cell_at(EMPTY_BOARD, x, y) == EMPTY,
        !playable(x, y) <==> cell_at(EMPTY_BOARD, x, y) == OFF_BOARD,
{
}

/// Reads a cell.
pub fn get_cell(b: &Board, x: usize, y: usize) -> (v: i8)
    requires
        on_grid(x as int, y as int),
    ensures
        v == cell_at(*b, x as int, y as int),
{
    b[x][y]
}

/// Writes a cell.
pub fn set_cell(b: &mut Board, x: usize, y: usize, v: i8)
    requires
        on_grid(x as int, y as int),
    ensures
        *final(b) == with_cell(*old(b), x as int, y as int, v),
{
    b[x][y] = v;
    proof {
        broadcast use lemma_with_cell;
        lemma_board_ext(*b, with_cell(*old(b), x as int, y as int, v));
    }
}

/// The number of cells of row `x` that hold `color`.
pub open spec fn row_count(b: Board, color: i8, x: int) -> nat {
    sum_upto(|y: int| if cell_at(b, x, y) == color { 1nat } else { 0nat }, 11)
}

/// The number of cells of the grid that hold `color`.
pub open spec fn marble_count(b: Board, color: i8) -> nat {
    sum_upto(|x: int| row_count(b, color, x), 11)
}

/// A board is valid when it has the frame of the empty board, no cell of the
/// hexagon holds a value above that of a black marble, and neither side has more
/// than 14 marbles.
pub open spec fn valid_board(b: Board) -> bool {
    &&& has_frame(b)
    &&& marble_count(b, WHITE) <= MARBLES_MAX
    &&& marble_count(b, BLACK) <= MARBLES_MAX
}

/// The frame of the empty board: off-board exactly outside the hexagon, and no
/// value above that of a black marble inside it.
pub open spec fn has_frame(b: Board) -> bool {
    forall|x: int, y: int|
        on_grid(x, y) ==> cell_fits_frame(#[trigger] cell_at(b, x, y), x, y)
}

/// Whether the value `v` may stand in cell `(x, y)`: inside the hexagon any
/// value up to that of a black marble, outside it the off-board value alone.
pub open spec fn cell_fits_frame(v: i8, x: int, y: int) -> bool {
    if playable(x, y) {
        v <= BLACK
    } else {
        v == OFF_BOARD
    }
}

/// The colour of the other side; every other value is kept.
pub open spec fn swapped(v: i8) -> i8 {
    if v == WHITE {
        BLACK
    } else if v == BLACK {
        WHITE
    } else {
        v
    }
}

spec fn row_from(f: spec_fn(int) -> i8, n: int) -> [i8; 11]
    decreases n,
{
    if n <= 0 {
        EMPTY_BOARD[0]
    } else {
        spec_array_update(row_from(f, n - 1), n - 1, f(n - 1))
    }
}

spec fn rows_from(f: spec_fn(int, int) -> i8, n: int) -> Board
    decreases n,
{
    if n <= 0 {
        EMPTY_BOARD
    } else {
        spec_array_update(rows_from(f, n - 1), n - 1, row_from(|y: int| f(n - 1, y), 11))
    }
}

proof fn lemma_row_from(f: spec_fn(int) -> i8, n: int, y: int)
    requires
        0 <= y < n <= 11,
    ensures
        row_from(f, n)[y] == f(y),
    decreases n,
{
    if y < n - 1 {
        lemma_row_from(f, n - 1, y);
    }
}

proof fn lemma_rows_from(f: spec_fn(int, int) -> i8, n: int, x: int, y: int)
    requires
        0 <= x < n <= 11,
        0 <= y < 11,
    ensures
        rows_from(f, n)[x][y] == f(x, y),
    decreases n,
{
    if x < n - 1 {
        lemma_rows_from(f, n - 1, x, y);
    } else {
        lemma_row_from(|y: int| f(n - 1, y), 11, y);
    }
}

/// The board whose cell `(x, y)` holds `f(x, y)`.
pub closed spec fn board_from(f: spec_fn(int, int) -> i8) -> Board {
    rows_from(f, 11)
}

/// The cells of `board_from(f)` are the values of `f`.
pub broadcast proof fn lemma_board_from(f: spec_fn(int, int) -> i8, x: int, y: int)
    requires
        on_grid(x, y),
    ensures
        #[trigger] cell_at(board_from(f), x, y) == f(x, y),
{
    lemma_rows_from(f, 11, x, y);
}

/// The board seen from the other side: turned by 180 degrees, colours exchanged.
pub open spec fn rotated(b: Board) -> Board {
    board_from(|x: int, y: int| swapped(cell_at(b, 10 - x, 10 - y)))
}

/// The board with the colours exchanged and every marble in its place.
pub open spec fn switched(b: Board) -> Board {
    board_from(|x: int, y: int| swapped(cell_at(b, x, y)))
}

/// The cells of a rotated board.
pub broadcast proof fn lemma_rotated_cell(b: Board, x: int, y: int)
    requires
        on_grid(x, y),
    ensures
        #[trigger] cell_at(rotated(b), x, y) == swapped(cell_at(b, 10 - x, 10 - y)),
{
    lemma_board_from(|x: int, y: int| swapped(cell_at(b, 10 - x, 10 - y)), x, y);
}

/// The cells of a board with exchanged colours.
pub broadcast proof fn lemma_switched_cell(b: Board, x: int, y: int)
    requires
        on_grid(x, y),
    ensures
        #[trigger] cell_at(switched(b), x, y) == swapped(cell_at(b, x, y)),
{
    lemma_board_from(|x: int, y: int| swapped(cell_at(b, x, y)), x, y);
}

/// Rotating a board twice gives the board back.
pub proof fn lemma_rotation_is_involution(b: Board)
    ensures
        rotated(rotated(b)) == b,
{
    broadcast use lemma_rotated_cell;
    assert forall|x: int, y: int| on_grid(x, y) implies cell_at(rotated(rotated(b)), x, y)
        == cell_at(b, x, y) by {
        assert(cell_at(rotated(rotated(b)), x, y) == swapped(cell_at(rotated(b), 10 - x, 10 - y)));
        assert(cell_at(rotated(b), 10 - x, 10 - y) == swapped(cell_at(b, x, y)));
    }
    lemma_board_ext(rotated(rotated(b)), b);
}

/// A rotated board holds as many cells of a colour as the board holds of the other.
pub proof fn lemma_rotated_count(b: Board, color: i8)
    ensures
        marble_count(rotated(b), color) == marble_count(b, swapped(color)),
{
    broadcast use lemma_rotated_cell;
    let other = swapped(color);
    let rows = |x: int| row_count(b, other, x);
    let rows_back = |x: int| rows(10 - x);
    let turned = |x: int| row_count(rotated(b), color, x);
    assert forall|x: int| 0 <= x < 11 implies #[trigger] turned(x) == rows_back(x) by {
        let cells = |y: int| if cell_at(b, 10 - x, y) == other { 1nat } else { 0nat };
        let cells_back = |y: int| cells(10 - y);
        let cells_turned = |y: int| if cell_at(rotated(b), x, y) == color { 1nat } else { 0nat };
        assert forall|y: int| 0 <= y < 11 implies #[trigger] cells_turned(y) == cells_back(y) by {
            assert(cell_at(rotated(b), x, y) == swapped(cell_at(b, 10 - x, 10 - y)));
        }
        lemma_sum_ext(cells_turned, cells_back, 11);
        lemma_sum_reverse(cells, 11);
        assert(cells_back =~= (|i: int| cells(11 - 1 - i)));
    }
    lemma_sum_ext(turned, rows_back, 11);
    lemma_sum_reverse(rows, 11);
    assert(rows_back =~= (|i: int| rows(11 - 1 - i)));
}

/// A board with exchanged colours holds as many cells of a colour as the board
/// holds of the other.
pub proof fn lemma_switched_count(b: Board, color: i8)
    ensures
        marble_count(switched(b), color) == marble_count(b, swapped(color)),
{
    broadcast use lemma_switched_cell;
    let other = swapped(color);
    let rows = |x: int| row_count(b, other, x);
    let turned = |x: int| row_count(switched(b), color, x);
    assert forall|x: int| 0 <= x < 11 implies #[trigger] turned(x) == rows(x) by {
        let cells = |y: int| if cell_at(b, x, y) == other { 1nat } else { 0nat };
        let cells_turned = |y: int| if cell_at(switched(b), x, y) == color { 1nat } else { 0nat };
        assert forall|y: int| 0 <= y < 11 implies #[trigger] cells_turned(y) == cells(y) by {
            assert(cell_at(switched(b), x, y) == swapped(cell_at(b, x, y)));
        }
        lemma_sum_ext(cells_turned, cells, 11);
    }
    lemma_sum_ext(turned, rows, 11);
}

/// Both changes of perspective keep a board valid.
pub proof fn lemma_perspective_keeps_valid(b: Board)
    requires
        valid_board(b),
    ensures
        valid_board(rotated(b)),
        valid_board(switched(b)),
{
    broadcast use lemma_rotated_cell, lemma_switched_cell;
    lemma_rotated_count(b, WHITE);
    lemma_rotated_count(b, BLACK);
    lemma_switched_count(b, WHITE);
    lemma_switched_count(b, BLACK);
    assert forall|x: int, y: int| on_grid(x, y) implies cell_fits_frame(
        #[trigger] cell_at(rotated(b), x, y),
        x,
        y,
    ) by {
        assert(cell_fits_frame(cell_at(b, 10 - x, 10 - y), 10 - x, 10 - y));
    }
    assert forall|x: int, y: int| on_grid(x, y) implies cell_fits_frame(
        #[trigger] cell_at(switched(b), x, y),
        x,
        y,
    ) by {
        assert(cell_fits_frame(cell_at(b, x, y), x, y));
    }
}

/// How writing one cell changes the number of cells of a colour.
pub proof fn lemma_with_cell_count(b: Board, x: int, y: int, v: i8, color: i8)
    requires
        on_grid(x, y),
    ensures
        marble_count(with_cell(b, x, y, v), color) + (if cell_at(b, x, y) == color {
            1nat
        } else {
            0nat
        }) == marble_count(b, color) + (if v == color {
            1nat
        } else {
            0nat
        }),
{
    broadcast use lemma_with_cell;
    let nb = with_cell(b, x, y, v);
    let rows = |i: int| row_count(b, color, i);
    let new_rows = |i: int| row_count(nb, color, i);
    assert forall|i: int| 0 <= i < 11 && i != x implies #[trigger] rows(i) == new_rows(i) by {
        let cells = |j: int| if cell_at(b, i, j) == color { 1nat } else { 0nat };
        let new_cells = |j: int| if cell_at(nb, i, j) == color { 1nat } else { 0nat };
        assert forall|j: int| 0 <= j < 11 implies #[trigger] cells(j) == new_cells(j) by {
            assert(cell_at(nb, i, j) == cell_at(b, i, j));
        }
        lemma_sum_ext(cells, new_cells, 11);
    }
    lemma_sum_change(rows, new_rows, 11, x);
    let cells = |j: int| if cell_at(b, x, j) == color { 1nat } else { 0nat };
    let new_cells = |j: int| if cell_at(nb, x, j) == color { 1nat } else { 0nat };
    assert forall|j: int| 0 <= j < 11 && j != y implies #[trigger] cells(j) == new_cells(j) by {
        assert(cell_at(nb, x, j) == cell_at(b, x, j));
    }
    lemma_sum_change(cells, new_cells, 11, y);
    assert(cell_at(nb, x, y) == v);
}

} // verus!
