//! The moves of the side to move, which is always white here: callers change the
//! perspective first. Every move is described by the cell of a marble, one of the
//! six directions and a class; the legal ones are listed in a fixed order.

use vstd::prelude::*;
use crate::board::{cell_at, cell_fits_frame, get_cell, has_frame, lemma_with_cell,
    lemma_with_cell_count, marble_count, on_grid, playable, set_cell, valid_board, with_cell, Board,
    BLACK, EMPTY, OFF_BOARD, WHITE};
use crate::coord::{Coord, MarbleMove};

verus! {

/// Number of slots: one for each cell of the grid, each of the six directions and
/// each of the seven classes of moves.
pub const SLOTS: usize = 5082;

/// Every move id is below this bound.
pub const MOVE_ID_LIMIT: usize = 3630;

/// The six directions, in the order in which moves are listed.
pub open spec fn direction(m: int) -> MarbleMove {
    if m == 0 {
        MarbleMove { dx: 1, dy: 0 }
    } else if m == 1 {
        MarbleMove { dx: 1, dy: -1i8 }
    } else if m == 2 {
        MarbleMove { dx: 0, dy: 1 }
    } else if m == 3 {
        MarbleMove { dx: -1i8, dy: 0 }
    } else if m == 4 {
        MarbleMove { dx: -1i8, dy: 1 }
    } else {
        MarbleMove { dx: 0, dy: -1i8 }
    }
}

/// The two directions along which a row that moves in direction `m` may extend:
/// one on each of the two other axes.
pub open spec fn side_direction(m: int, s: int) -> MarbleMove {
    direction((m + 1 + s) % 6)
}

/// The id of a move: the cell `(x, y)` of its first marble, the direction `m` and
/// the class. Class 0 is the move on which the marble on `(x, y)` leaves its cell
/// in direction `m`: the step of that marble alone, or the in-line move of the
/// line of two or three of which it is the last. Classes 1 and 2 are the sideways
/// moves of two and three marbles along the first side direction, classes 3 and 4
/// those along the second.
pub open spec fn move_id(x: int, y: int, m: int, class: int) -> int {
    ((x * 11 + y) * 6 + m) * 5 + class
}

/// The board after the marble on `(x, y)` has stepped to its neighbour in direction `d`.
pub open spec fn stepped(b: Board, x: int, y: int, d: MarbleMove) -> Board {
    with_cell(with_cell(b, x, y, EMPTY), x + d.dx, y + d.dy, WHITE)
}

/// A white marble on `(x, y)` with an empty neighbour in direction `d`.
pub open spec fn free_to_step(b: Board, x: int, y: int, d: MarbleMove) -> bool {
    cell_at(b, x, y) == WHITE && cell_at(b, x + d.dx, y + d.dy) == EMPTY
}

/// The sideways move in direction `d` of the `n` marbles on `(x, y)` and its next
/// `n - 1` cells in direction `s`; for `n == 1` the move of a single marble. It is
/// legal when each of the marbles is white and has an empty target.
pub open spec fn broadside_move(b: Board, x: int, y: int, d: MarbleMove, s: MarbleMove, n: int)
    -> Option<Board> {
    let one = stepped(b, x, y, d);
    let two = stepped(one, x + s.dx, y + s.dy, d);
    let three = stepped(two, x + 2 * s.dx, y + 2 * s.dy, d);
    if !free_to_step(b, x, y, d) {
        None
    } else if n == 1 {
        Some(one)
    } else if !free_to_step(b, x + s.dx, y + s.dy, d) {
        None
    } else if n == 2 {
        Some(two)
    } else if !free_to_step(b, x + 2 * s.dx, y + 2 * s.dy, d) {
        None
    } else {
        Some(three)
    }
}

/// Whether the `n` cells from `(x, y)` against direction `d` all hold white marbles.
pub open spec fn white_line(b: Board, x: int, y: int, d: MarbleMove, n: int) -> bool {
    &&& cell_at(b, x, y) == WHITE
    &&& cell_at(b, x - d.dx, y - d.dy) == WHITE
    &&& (n == 3 ==> cell_at(b, x - 2 * d.dx, y - 2 * d.dy) == WHITE)
}

/// What a line of `n` white marbles with its front marble on `(x, y)` meets ahead
/// in direction `d`.
pub enum Ahead {
    /// an empty cell: the line slides
    Free,
    /// one black marble and an empty cell behind it: the marble is pushed
    PushOne,
    /// two black marbles before a line of three, and an empty cell behind them:
    /// both are pushed
    PushTwo,
    /// black marbles, fewer than the line has, and the edge behind them: the last
    /// of them is pushed off the board
    PushOff,
    /// anything else: the line cannot move
    Blocked,
}

/// What lies ahead of the front marble on `(x, y)` of a line of `n` marbles.
pub open spec fn ahead(b: Board, x: int, y: int, d: MarbleMove, n: int) -> Ahead {
    let a1 = cell_at(b, x + d.dx, y + d.dy);
    let a2 = cell_at(b, x + 2 * d.dx, y + 2 * d.dy);
    let a3 = cell_at(b, x + 3 * d.dx, y + 3 * d.dy);
    if a1 == EMPTY {
        Ahead::Free
    } else if a1 != BLACK {
        Ahead::Blocked
    } else if a2 == EMPTY {
        Ahead::PushOne
    } else if a2 == OFF_BOARD {
        Ahead::PushOff
    } else if a2 != BLACK || n != 3 {
        Ahead::Blocked
    } else if a3 == EMPTY {
        Ahead::PushTwo
    } else if a3 == OFF_BOARD {
        Ahead::PushOff
    } else {
        Ahead::Blocked
    }
}

/// The board after the last marble of a line has left `(tx, ty)` and a white
/// marble has entered `(fx, fy)`, the cell ahead of the front marble.
pub open spec fn slid(b: Board, tx: int, ty: int, fx: int, fy: int) -> Board {
    with_cell(with_cell(b, tx, ty, EMPTY), fx, fy, WHITE)
}

/// The board after a push: as `slid`, and a black marble has entered `(bx, by)`,
/// the empty cell behind the pushed marbles.
pub open spec fn pushed(b: Board, tx: int, ty: int, fx: int, fy: int, bx: int, by: int)
    -> Board {
    with_cell(slid(b, tx, ty, fx, fy), bx, by, BLACK)
}

/// The in-line move in direction `d` of the `n` marbles (two or three) whose front
/// marble stands on `(x, y)`. The last marble of the line leaves its cell and a
/// white marble enters the cell ahead of the front marble; a pushed black marble
/// enters the empty cell behind the black ones, or is lost over the edge.
pub open spec fn inline_move(b: Board, x: int, y: int, d: MarbleMove, n: int) -> Option<Board> {
    let tx = if n == 3 { x - 2 * d.dx } else { x - d.dx };
    let ty = if n == 3 { y - 2 * d.dy } else { y - d.dy };
    if !white_line(b, x, y, d, n) {
        None
    } else {
        match ahead(b, x, y, d, n) {
            Ahead::Free => Some(slid(b, tx, ty, x + d.dx, y + d.dy)),
            Ahead::PushOne => Some(
                pushed(b, tx, ty, x + d.dx, y + d.dy, x + 2 * d.dx, y + 2 * d.dy),
            ),
            Ahead::PushTwo => Some(
                pushed(b, tx, ty, x + d.dx, y + d.dy, x + 3 * d.dx, y + 3 * d.dy),
            ),
            Ahead::PushOff => Some(slid(b, tx, ty, x + d.dx, y + d.dy)),
            Ahead::Blocked => None,
        }
    }
}

/// Whether the in-line move of slot `k` from `(x, y)` in direction `m` pushes a
/// black marble off the board.
pub open spec fn pushes_off(b: Board, x: int, y: int, m: int, k: int) -> bool {
    &&& 0 <= k <= 1
    &&& white_line(b, x, y, direction(m), k + 2)
    &&& ahead(b, x, y, direction(m), k + 2) is PushOff
}

/// The move of class `k` for the marble on `(x, y)` and direction `m`, with its id
/// and the board it leads to, or `None` where that move is not legal. The classes,
/// in the order in which they are listed: the in-line move of two marbles with the
/// front marble on `(x, y)`, that of three, the step of the single marble, and the
/// sideways moves of two and of three marbles along the first side direction, then
/// along the second.
#[verifier::opaque]
pub open spec fn slot_move(b: Board, x: int, y: int, m: int, k: int) -> Option<(usize, Board)> {
    let d = direction(m);
    let side = side_direction(m, if k <= 4 { 0 } else { 1 });
    let (id, after) = if k == 0 {
        (move_id(x - d.dx, y - d.dy, m, 0), inline_move(b, x, y, d, 2))
    } else if k == 1 {
        (move_id(x - 2 * d.dx, y - 2 * d.dy, m, 0), inline_move(b, x, y, d, 3))
    } else if k == 2 {
        (move_id(x, y, m, 0), broadside_move(b, x, y, d, side, 1))
    } else {
        (move_id(x, y, m, k - 2), broadside_move(b, x, y, d, side, if k == 3 || k == 5 { 2 } else { 3 }))
    };
    match after {
        Some(nb) => Some((id as usize, nb)),
        None => None,
    }
}

/// The position of the slot for cell `(x, y)`, direction `m` and class `k` in the
/// order in which moves are listed: by row, by column, by direction, by class.
pub open spec fn slot_index(x: int, y: int, m: int, k: int) -> int {
    ((x * 11 + y) * 6 + m) * 7 + k
}

/// The move of the `n`-th slot.
pub open spec fn slot_at(b: Board, n: int) -> Option<(usize, Board)> {
    slot_move(b, n / 462, (n / 42) % 11, (n / 7) % 6, n % 7)
}

/// The legal moves among the first `n` slots, in order.
pub open spec fn moves_upto(b: Board, n: int) -> Seq<(usize, Board)>
    decreases n,
{
    if n <= 0 {
        Seq::empty()
    } else {
        match slot_at(b, n - 1) {
            Some(mv) => moves_upto(b, n - 1).push(mv),
            None => moves_upto(b, n - 1),
        }
    }
}

/// All legal moves of white on `b`, each with its id and the board it leads to.
pub open spec fn legal_moves(b: Board) -> Seq<(usize, Board)> {
    moves_upto(b, SLOTS as int)
}

/// A cell, a direction and a class are found again from the index of their slot.
pub proof fn lemma_slot_decode(x: int, y: int, m: int, k: int)
    requires
        on_grid(x, y),
        0 <= m < 6,
        0 <= k < 7,
    ensures
        0 <= slot_index(x, y, m, k) < SLOTS,
        slot_index(x, y, m, k) / 462 == x,
        (slot_index(x, y, m, k) / 42) % 11 == y,
        (slot_index(x, y, m, k) / 7) % 6 == m,
        slot_index(x, y, m, k) % 7 == k,
{
}

/// The slot of a cell, a direction and a class is the slot at its index.
pub proof fn lemma_slot_index(b: Board, x: int, y: int, m: int, k: int)
    requires
        on_grid(x, y),
        0 <= m < 6,
        0 <= k < 7,
    ensures
        0 <= slot_index(x, y, m, k) < SLOTS,
        slot_at(b, slot_index(x, y, m, k)) == slot_move(b, x, y, m, k),
{
    lemma_slot_decode(x, y, m, k);
}

/// A marble stands on a cell of the hexagon, so every neighbour is on the grid.
pub proof fn lemma_marble_is_inside(b: Board, x: int, y: int)
    requires
        has_frame(b),
        on_grid(x, y),
        cell_at(b, x, y) == WHITE || cell_at(b, x, y) == BLACK || cell_at(b, x, y) == EMPTY,
    ensures
        playable(x, y),
{
    assert(cell_fits_frame(cell_at(b, x, y), x, y));
}

/// Reads the cell at a coordinate.
pub fn cell(b: &Board, c: Coord) -> (v: i8)
    requires
        on_grid(c.x as int, c.y as int),
    ensures
        v == cell_at(*b, c.x as int, c.y as int),
{
    get_cell(b, c.x, c.y)
}

/// The direction with the number `m`.
pub fn direction_of(m: usize) -> (d: MarbleMove)
    requires
        m < 6,
    ensures
        d == direction(m as int),
        d.is_step(),
{
    if m == 0 {
        MarbleMove { dx: 1, dy: 0 }
    } else if m == 1 {
        MarbleMove { dx: 1, dy: -1 }
    } else if m == 2 {
        MarbleMove { dx: 0, dy: 1 }
    } else if m == 3 {
        MarbleMove { dx: -1, dy: 0 }
    } else if m == 4 {
        MarbleMove { dx: -1, dy: 1 }
    } else {
        MarbleMove { dx: 0, dy: -1 }
    }
}

/// The side direction with the number `s` of the direction with the number `m`.
pub fn side_direction_of(m: usize, s: usize) -> (d: MarbleMove)
    requires
        m < 6,
        s < 2,
    ensures
        d == side_direction(m as int, s as int),
        d.is_step(),
{
    direction_of((m + 1 + s) % 6)
}

/// The id of the move of class `class` that starts on `c` in direction `m`.
pub fn move_id_of(c: Coord, m: usize, class: usize) -> (id: usize)
    requires
        on_grid(c.x as int, c.y as int),
        m < 6,
        class < 5,
    ensures
        id == move_id(c.x as int, c.y as int, m as int, class as int),
        id < MOVE_ID_LIMIT,
{
    ((c.x * 11 + c.y) * 6 + m) * 5 + class
}

/// The board on which the marble of `base` has gone and a white marble stands on
/// `target`: a line has slid, with or without a black marble lost over the edge.
pub fn move_straight_or_push_off(state: &Board, base: Coord, target: Coord) -> (after: Board)
    requires
        on_grid(base.x as int, base.y as int),
        on_grid(target.x as int, target.y as int),
    ensures
        after == slid(*state, base.x as int, base.y as int, target.x as int, target.y as int),
{
    let mut after = *state;
    set_cell(&mut after, base.x, base.y, EMPTY);
    set_cell(&mut after, target.x, target.y, WHITE);
    after
}

/// The board on which the marble of `base` has gone, a white marble stands on
/// `black` and a black one on `target`: a line has pushed black marbles by one cell.
pub fn move_push_empty(state: &Board, base: Coord, black: Coord, target: Coord) -> (after: Board)
    requires
        on_grid(base.x as int, base.y as int),
        on_grid(black.x as int, black.y as int),
        on_grid(target.x as int, target.y as int),
    ensures
        after == pushed(
            *state,
            base.x as int,
            base.y as int,
            black.x as int,
            black.y as int,
            target.x as int,
            target.y as int,
        ),
{
    let mut after = move_straight_or_push_off(state, base, black);
    set_cell(&mut after, target.x, target.y, BLACK);
    after
}

/// The in-line move in direction `d` of the `n` marbles whose front marble stands
/// on `pos`.
#[verifier::rlimit(40)]
pub fn inline_board(b: &Board, pos: Coord, d: MarbleMove, n: usize) -> (r: Option<Board>)
    requires
        has_frame(*b),
        on_grid(pos.x as int, pos.y as int),
        d.is_step(),
        2 <= n <= 3,
    ensures
        r == inline_move(*b, pos.x as int, pos.y as int, d, n as int),
{
    if cell(b, pos) != WHITE {
        return None;
    }
    proof {
        lemma_marble_is_inside(*b, pos.x as int, pos.y as int);
    }
    let neigh1 = pos - d;
    if cell(b, neigh1) != WHITE {
        return None;
    }
    proof {
        lemma_marble_is_inside(*b, neigh1.x as int, neigh1.y as int);
    }
    let mut tail = neigh1;
    if n == 3 {
        let neigh2 = neigh1 - d;
        if cell(b, neigh2) != WHITE {
            return None;
        }
        tail = neigh2;
    }
    let new_pos = pos + d;
    let a1 = cell(b, new_pos);
    if a1 == EMPTY {
        Some(move_straight_or_push_off(b, tail, new_pos))
    } else if a1 == BLACK {
        proof {
            lemma_marble_is_inside(*b, new_pos.x as int, new_pos.y as int);
        }
        let target = new_pos + d;
        let a2 = cell(b, target);
        if a2 == EMPTY {
            Some(move_push_empty(b, tail, new_pos, target))
        } else if a2 == OFF_BOARD {
            Some(move_straight_or_push_off(b, tail, new_pos))
        } else if a2 == BLACK && n == 3 {
            proof {
                lemma_marble_is_inside(*b, target.x as int, target.y as int);
            }
            let beyond = target + d;
            let a3 = cell(b, beyond);
            if a3 == EMPTY {
                Some(move_push_empty(b, tail, new_pos, beyond))
            } else if a3 == OFF_BOARD {
                Some(move_straight_or_push_off(b, tail, new_pos))
            } else {
                None
            }
        } else {
            None
        }
    } else {
        None
    }
}

/// The sideways move in direction `d` of the `n` marbles on `pos` and the next
/// cells in direction `side`; for `n == 1` the step of the single marble on `pos`.
pub fn broadside_board(b: &Board, pos: Coord, d: MarbleMove, side: MarbleMove, n: usize) -> (r:
    Option<Board>)
    requires
        has_frame(*b),
        on_grid(pos.x as int, pos.y as int),
        d.is_step(),
        side.is_step(),
        1 <= n <= 3,
    ensures
        r == broadside_move(*b, pos.x as int, pos.y as int, d, side, n as int),
{
    if cell(b, pos) != WHITE {
        return None;
    }
    proof {
        lemma_marble_is_inside(*b, pos.x as int, pos.y as int);
    }
    let goal0 = pos + d;
    if cell(b, goal0) != EMPTY {
        return None;
    }
    let mut after = *b;
    set_cell(&mut after, pos.x, pos.y, EMPTY);
    set_cell(&mut after, goal0.x, goal0.y, WHITE);
    if n == 1 {
        return Some(after);
    }
    let second = pos + side;
    if cell(b, second) != WHITE {
        return None;
    }
    proof {
        lemma_marble_is_inside(*b, second.x as int, second.y as int);
    }
    let goal1 = second + d;
    if cell(b, goal1) != EMPTY {
        return None;
    }
    set_cell(&mut after, second.x, second.y, EMPTY);
    set_cell(&mut after, goal1.x, goal1.y, WHITE);
    if n == 2 {
        return Some(after);
    }
    let third = second + side;
    if cell(b, third) != WHITE {
        return None;
    }
    proof {
        lemma_marble_is_inside(*b, third.x as int, third.y as int);
    }
    let goal2 = third + d;
    if cell(b, goal2) != EMPTY {
        return None;
    }
    set_cell(&mut after, third.x, third.y, EMPTY);
    set_cell(&mut after, goal2.x, goal2.y, WHITE);
    Some(after)
}

/// The in-line move of the `n` marbles whose front marble stands on `pos`, in the
/// direction with the number `m`, with its id.
pub fn inline_slot(b: &Board, pos: Coord, m: usize, n: usize) -> (r: Option<(usize, Board)>)
    requires
        has_frame(*b),
        on_grid(pos.x as int, pos.y as int),
        m < 6,
        2 <= n <= 3,
    ensures
        r == slot_move(*b, pos.x as int, pos.y as int, m as int, n - 2),
{
    let d = direction_of(m);
    proof {
        reveal(slot_move);
    }
    match inline_board(b, pos, d, n) {
        Some(after) => {
            proof {
                lemma_marble_is_inside(*b, pos.x as int, pos.y as int);
                lemma_marble_is_inside(*b, pos.x - d.dx, pos.y - d.dy);
            }
            let neigh1 = pos - d;
            let tail = if n == 3 {
                neigh1 - d
            } else {
                neigh1
            };
            Some((move_id_of(tail, m, 0), after))
        },
        None => None,
    }
}

/// The sideways move of the `n` marbles on `pos` and the next cells along the side
/// direction with the number `s`, in the direction with the number `m`, with its
/// id; for `n == 1` the step of the single marble on `pos`.
pub fn broadside_slot(b: &Board, pos: Coord, m: usize, s: usize, n: usize) -> (r: Option<
    (usize, Board),
>)
    requires
        has_frame(*b),
        on_grid(pos.x as int, pos.y as int),
        m < 6,
        s < 2,
        1 <= n <= 3,
        n == 1 ==> s == 0,
    ensures
        r == slot_move(
            *b,
            pos.x as int,
            pos.y as int,
            m as int,
            if n == 1 {
                2
            } else {
                1 + 2 * s + n
            },
        ),
{
    proof {
        reveal(slot_move);
    }
    match broadside_board(b, pos, direction_of(m), side_direction_of(m, s), n) {
        Some(after) => Some((move_id_of(pos, m, if n == 1 { 0 } else { 2 * s + n - 1 }), after)),
        None => None,
    }
}

/// 1 where `v` is the colour `color`, else 0.
pub open spec fn one_if(v: i8, color: i8) -> int {
    if v == color {
        1
    } else {
        0
    }
}

/// Writing a marble or an empty cell into the hexagon keeps the frame, and changes
/// the counts by what left the cell and what entered it.
proof fn lemma_put(b: Board, x: int, y: int, v: i8)
    requires
        has_frame(b),
        playable(x, y),
        v == EMPTY || v == WHITE || v == BLACK,
    ensures
        has_frame(with_cell(b, x, y, v)),
        marble_count(with_cell(b, x, y, v), WHITE) == marble_count(b, WHITE) - one_if(
            cell_at(b, x, y),
            WHITE,
        ) + one_if(v, WHITE),
        marble_count(with_cell(b, x, y, v), BLACK) == marble_count(b, BLACK) - one_if(
            cell_at(b, x, y),
            BLACK,
        ) + one_if(v, BLACK),
        forall|i: int, j: int|
            on_grid(i, j) ==> #[trigger] cell_at(with_cell(b, x, y, v), i, j) == (if i == x && j
                == y {
                v
            } else {
                cell_at(b, i, j)
            }),
{
    broadcast use lemma_with_cell;
    lemma_with_cell_count(b, x, y, v, WHITE);
    lemma_with_cell_count(b, x, y, v, BLACK);
    let nb = with_cell(b, x, y, v);
    assert forall|i: int, j: int| on_grid(i, j) implies cell_fits_frame(
        #[trigger] cell_at(nb, i, j),
        i,
        j,
    ) by {
        assert(cell_fits_frame(cell_at(b, i, j), i, j));
    }
}

/// What a move does to the marbles: the frame stays, white keeps its marbles,
/// and black loses `lost` of its own.
pub open spec fn keeps_marbles(b: Board, after: Board, lost: int) -> bool {
    &&& has_frame(after)
    &&& marble_count(after, WHITE) == marble_count(b, WHITE)
    &&& marble_count(after, BLACK) == marble_count(b, BLACK) - lost
}

proof fn lemma_stepped(b: Board, x: int, y: int, d: MarbleMove)
    requires
        has_frame(b),
        on_grid(x, y),
        d.is_step(),
        d.dx != 0 || d.dy != 0,
        free_to_step(b, x, y, d),
    ensures
        keeps_marbles(b, stepped(b, x, y, d), 0),
        forall|i: int, j: int|
            on_grid(i, j) ==> #[trigger] cell_at(stepped(b, x, y, d), i, j) == (if i == x && j
                == y {
                EMPTY
            } else if i == x + d.dx && j == y + d.dy {
                WHITE
            } else {
                cell_at(b, i, j)
            }),
{
    lemma_marble_is_inside(b, x, y);
    lemma_marble_is_inside(b, x + d.dx, y + d.dy);
    lemma_put(b, x, y, EMPTY);
    lemma_put(with_cell(b, x, y, EMPTY), x + d.dx, y + d.dy, WHITE);
}

/// A sideways move, and the step of a single marble, keep the frame and the
/// marbles of both sides.
pub proof fn lemma_broadside_keeps_marbles(b: Board, x: int, y: int, m: int, s: int, n: int)
    requires
        has_frame(b),
        on_grid(x, y),
        0 <= m < 6,
        0 <= s < 2,
        1 <= n <= 3,
        broadside_move(b, x, y, direction(m), side_direction(m, s), n) is Some,
    ensures
        keeps_marbles(
            b,
            broadside_move(b, x, y, direction(m), side_direction(m, s), n)->0,
            0,
        ),
{
    let d = direction(m);
    let side = side_direction(m, s);
    lemma_stepped(b, x, y, d);
    let one = stepped(b, x, y, d);
    if n >= 2 {
        lemma_marble_is_inside(b, x, y);
        lemma_marble_is_inside(b, x + side.dx, y + side.dy);
        assert(cell_at(one, x + side.dx, y + side.dy) == WHITE);
        assert(cell_at(one, x + side.dx + d.dx, y + side.dy + d.dy) == EMPTY);
        lemma_stepped(one, x + side.dx, y + side.dy, d);
        let two = stepped(one, x + side.dx, y + side.dy, d);
        if n == 3 {
            lemma_marble_is_inside(b, x + 2 * side.dx, y + 2 * side.dy);
            assert(cell_at(one, x + 2 * side.dx, y + 2 * side.dy) == WHITE);
            assert(cell_at(one, x + 2 * side.dx + d.dx, y + 2 * side.dy + d.dy) == EMPTY);
            assert(cell_at(two, x + 2 * side.dx, y + 2 * side.dy) == WHITE);
            assert(cell_at(two, x + 2 * side.dx + d.dx, y + 2 * side.dy + d.dy) == EMPTY);
            lemma_stepped(two, x + 2 * side.dx, y + 2 * side.dy, d);
        }
    }
}

/// An in-line move keeps the frame and the marbles of white; black loses one
/// marble where the move pushes it off the board, and none otherwise.
pub proof fn lemma_inline_keeps_marbles(b: Board, x: int, y: int, m: int, n: int)
    requires
        has_frame(b),
        on_grid(x, y),
        0 <= m < 6,
        2 <= n <= 3,
        inline_move(b, x, y, direction(m), n) is Some,
    ensures
        keeps_marbles(
            b,
            inline_move(b, x, y, direction(m), n)->0,
            if ahead(b, x, y, direction(m), n) is PushOff {
                1
            } else {
                0
            },
        ),
{
    let d = direction(m);
    let tx = if n == 3 { x - 2 * d.dx } else { x - d.dx };
    let ty = if n == 3 { y - 2 * d.dy } else { y - d.dy };
    lemma_marble_is_inside(b, x, y);
    lemma_marble_is_inside(b, x - d.dx, y - d.dy);
    lemma_marble_is_inside(b, tx, ty);
    lemma_marble_is_inside(b, x + d.dx, y + d.dy);
    lemma_put(b, tx, ty, EMPTY);
    let lifted = with_cell(b, tx, ty, EMPTY);
    lemma_put(lifted, x + d.dx, y + d.dy, WHITE);
    let moved = slid(b, tx, ty, x + d.dx, y + d.dy);
    match ahead(b, x, y, d, n) {
        Ahead::PushOne => {
            lemma_marble_is_inside(b, x + 2 * d.dx, y + 2 * d.dy);
            lemma_put(moved, x + 2 * d.dx, y + 2 * d.dy, BLACK);
        },
        Ahead::PushTwo => {
            lemma_marble_is_inside(b, x + 2 * d.dx, y + 2 * d.dy);
            lemma_marble_is_inside(b, x + 3 * d.dx, y + 3 * d.dy);
            lemma_put(moved, x + 3 * d.dx, y + 3 * d.dy, BLACK);
        },
        _ => {},
    }
}

/// The number of black marbles that the move of a slot pushes off the board.
pub open spec fn marbles_lost(b: Board, x: int, y: int, m: int, k: int) -> int {
    if pushes_off(b, x, y, m, k) {
        1
    } else {
        0
    }
}

/// The move of a slot keeps the frame and the marbles of white; black loses one
/// marble where the move pushes it off the board, and none otherwise.
pub proof fn lemma_slot_keeps_marbles(b: Board, x: int, y: int, m: int, k: int)
    requires
        has_frame(b),
        on_grid(x, y),
        0 <= m < 6,
        0 <= k < 7,
        slot_move(b, x, y, m, k) is Some,
    ensures
        keeps_marbles(b, (slot_move(b, x, y, m, k)->0).1, marbles_lost(b, x, y, m, k)),
{
    reveal(slot_move);
    if k <= 1 {
        lemma_inline_keeps_marbles(b, x, y, m, k + 2);
    } else if k == 2 {
        lemma_broadside_keeps_marbles(b, x, y, m, 0, 1);
    } else if k <= 4 {
        lemma_broadside_keeps_marbles(b, x, y, m, 0, k - 1);
    } else {
        lemma_broadside_keeps_marbles(b, x, y, m, 1, k - 3);
    }
}

/// The number of black marbles that the move of the `n`-th slot pushes off.
pub open spec fn lost_at(b: Board, n: int) -> int {
    marbles_lost(b, n / 462, (n / 42) % 11, (n / 7) % 6, n % 7)
}

/// Each listed move is the move of a slot.
pub proof fn lemma_move_has_slot(b: Board, n: int, i: int) -> (j: int)
    requires
        0 <= i < moves_upto(b, n).len(),
    ensures
        0 <= j < n,
        slot_at(b, j) == Some(moves_upto(b, n)[i]),
    decreases n,
{
    if n <= 0 {
        0
    } else {
        let before = moves_upto(b, n - 1);
        if i < before.len() {
            let j = lemma_move_has_slot(b, n - 1, i);
            j
        } else {
            n - 1
        }
    }
}

/// Every legal move of white on a valid board leads to a valid board on which
/// white has as many marbles as before. Black has as many as before too, but for
/// the moves that push a marble off the board: those take exactly one. The slot
/// of the move is returned.
pub proof fn lemma_legal_move_keeps_marbles(b: Board, i: int) -> (n: int)
    requires
        valid_board(b),
        0 <= i < legal_moves(b).len(),
    ensures
        0 <= n < SLOTS,
        slot_at(b, n) == Some(legal_moves(b)[i]),
        valid_board(legal_moves(b)[i].1),
        keeps_marbles(b, legal_moves(b)[i].1, lost_at(b, n)),
        lost_at(b, n) == 0 || lost_at(b, n) == 1,
{
    let n = lemma_move_has_slot(b, SLOTS as int, i);
    let x = n / 462;
    let y = (n / 42) % 11;
    let m = (n / 7) % 6;
    let k = n % 7;
    lemma_slot_keeps_marbles(b, x, y, m, k);
    n
}

/// The moves are listed in the order of their slots.
pub proof fn lemma_moves_in_slot_order(b: Board, n: int, i: int, j: int) -> (slots: (int, int))
    requires
        0 <= i < j < moves_upto(b, n).len(),
    ensures
        0 <= slots.0 < slots.1 < n,
        slot_at(b, slots.0) == Some(moves_upto(b, n)[i]),
        slot_at(b, slots.1) == Some(moves_upto(b, n)[j]),
    decreases n,
{
    if n <= 0 {
        (0, 0)
    } else {
        let before = moves_upto(b, n - 1);
        if j < before.len() {
            lemma_moves_in_slot_order(b, n - 1, i, j)
        } else {
            let first = lemma_move_has_slot(b, n - 1, i);
            (first, n - 1)
        }
    }
}

/// The cell that the id of the move of a slot is made of: the cell of the marble
/// that leaves its cell for an in-line move, and the cell of the slot for the others.
pub open spec fn id_cell(x: int, y: int, m: int, k: int) -> (int, int) {
    let d = direction(m);
    if k == 0 {
        (x - d.dx, y - d.dy)
    } else if k == 1 {
        (x - 2 * d.dx, y - 2 * d.dy)
    } else {
        (x, y)
    }
}

/// The class that the id of the move of a slot is made of.
pub open spec fn id_class(k: int) -> int {
    if k <= 2 {
        0
    } else {
        k - 2
    }
}

/// How the marble on `(x, y)` can leave its cell in direction `d`: alone (2) where
/// the next cell is empty, as the last of two (0) where a white marble is on the
/// next cell and none on the cell after it, as the last of three (1) where white
/// marbles are on both.
pub open spec fn leaving_class(b: Board, x: int, y: int, d: MarbleMove) -> int {
    if cell_at(b, x + d.dx, y + d.dy) != WHITE {
        2
    } else if cell_at(b, x + 2 * d.dx, y + 2 * d.dy) != WHITE {
        0
    } else {
        1
    }
}

/// What the id of the move of a slot is made of.
proof fn lemma_slot_id(b: Board, x: int, y: int, m: int, k: int)
    requires
        on_grid(x, y),
        0 <= m < 6,
        0 <= k < 7,
        slot_move(b, x, y, m, k) is Some,
    ensures
        on_grid(id_cell(x, y, m, k).0, id_cell(x, y, m, k).1),
        (slot_move(b, x, y, m, k)->0).0 == move_id(
            id_cell(x, y, m, k).0,
            id_cell(x, y, m, k).1,
            m,
            id_class(k),
        ),
        k <= 2 ==> leaving_class(b, id_cell(x, y, m, k).0, id_cell(x, y, m, k).1, direction(m))
            == k,
{
    reveal(slot_move);
    let d = direction(m);
    if k <= 1 {
        assert(white_line(b, x, y, d, k + 2));
        assert(cell_at(b, x - d.dx, y - d.dy) == WHITE);
        if k == 1 {
            assert(cell_at(b, x - 2 * d.dx, y - 2 * d.dy) == WHITE);
        }
    }
}

/// An id is made of one cell, one direction and one class only.
proof fn lemma_move_id_is_one_to_one(
    x1: int,
    y1: int,
    m1: int,
    c1: int,
    x2: int,
    y2: int,
    m2: int,
    c2: int,
)
    requires
        on_grid(x1, y1),
        on_grid(x2, y2),
        0 <= m1 < 6,
        0 <= m2 < 6,
        0 <= c1 < 5,
        0 <= c2 < 5,
        move_id(x1, y1, m1, c1) == move_id(x2, y2, m2, c2),
    ensures
        x1 == x2,
        y1 == y2,
        m1 == m2,
        c1 == c2,
{
}

/// The moves of two slots of one board have two ids.
proof fn lemma_slots_have_two_ids(
    b: Board,
    x1: int,
    y1: int,
    m1: int,
    k1: int,
    x2: int,
    y2: int,
    m2: int,
    k2: int,
)
    requires
        on_grid(x1, y1),
        on_grid(x2, y2),
        0 <= m1 < 6,
        0 <= m2 < 6,
        0 <= k1 < 7,
        0 <= k2 < 7,
        slot_move(b, x1, y1, m1, k1) is Some,
        slot_move(b, x2, y2, m2, k2) is Some,
        (slot_move(b, x1, y1, m1, k1)->0).0 == (slot_move(b, x2, y2, m2, k2)->0).0,
    ensures
        x1 == x2,
        y1 == y2,
        m1 == m2,
        k1 == k2,
{
    lemma_slot_id(b, x1, y1, m1, k1);
    lemma_slot_id(b, x2, y2, m2, k2);
    let c1 = id_cell(x1, y1, m1, k1);
    let c2 = id_cell(x2, y2, m2, k2);
    lemma_move_id_is_one_to_one(c1.0, c1.1, m1, id_class(k1), c2.0, c2.1, m2, id_class(k2));
    // the same marble leaves its cell in the same direction: in one way only
    if k1 <= 2 {
        assert(k1 == k2);
    }
}

/// A slot is the slot of a cell, a direction and a class.
proof fn lemma_slot_parts(n: int)
    requires
        0 <= n < SLOTS,
    ensures
        on_grid(n / 462, (n / 42) % 11),
        0 <= (n / 7) % 6 < 6,
        0 <= n % 7 < 7,
        n == slot_index(n / 462, (n / 42) % 11, (n / 7) % 6, n % 7),
{
}

/// The moves of two slots of one board have two ids.
pub proof fn lemma_slot_ids_differ(b: Board, n1: int, n2: int)
    requires
        0 <= n1 < n2 < SLOTS,
        slot_at(b, n1) is Some,
        slot_at(b, n2) is Some,
    ensures
        (slot_at(b, n1)->0).0 != (slot_at(b, n2)->0).0,
{
    lemma_slot_parts(n1);
    lemma_slot_parts(n2);
    if (slot_at(b, n1)->0).0 == (slot_at(b, n2)->0).0 {
        lemma_slots_have_two_ids(
            b,
            n1 / 462,
            (n1 / 42) % 11,
            (n1 / 7) % 6,
            n1 % 7,
            n2 / 462,
            (n2 / 42) % 11,
            (n2 / 7) % 6,
            n2 % 7,
        );
    }
}

/// No two of the legal moves on a board have the same id.
pub proof fn lemma_legal_move_ids_differ(b: Board, i: int, j: int)
    requires
        0 <= i < legal_moves(b).len(),
        0 <= j < legal_moves(b).len(),
        i != j,
    ensures
        legal_moves(b)[i].0 != legal_moves(b)[j].0,
{
    if i < j {
        let slots = lemma_moves_in_slot_order(b, SLOTS as int, i, j);
        lemma_slot_ids_differ(b, slots.0, slots.1);
    } else {
        let slots = lemma_moves_in_slot_order(b, SLOTS as int, j, i);
        lemma_slot_ids_differ(b, slots.0, slots.1);
    }
}

} // verus!
