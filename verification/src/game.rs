//! The state of one game of Abalone: the board, whose turn it is, what each side
//! has lost, the draw clock and the table of repeated positions.

use vstd::prelude::*;
use crate::board::{cell_at, cell_fits_frame, get_cell, has_frame, lemma_board_ext, lemma_frame,
    lemma_perspective_keeps_valid, lemma_rotated_cell, lemma_switched_cell, lemma_with_cell,
    marble_count, on_grid, rotated, row_count, set_cell, swapped, switched, valid_board};
use crate::moves::{broadside_slot, direction, direction_of, inline_slot, legal_moves,
    lemma_legal_move_ids_differ, lemma_legal_move_keeps_marbles, lemma_slot_index, moves_upto,
    slot_at, slot_index, slot_move, SLOTS};
use crate::repetition::{bumped_u8, occurrences, record_occurrence, table_count};
use crate::tally::sum_upto;

pub use crate::board::{Board, BELGIAN_DAISY, BLACK, EMPTY, EMPTY_BOARD, MARBLES_MAX, OFF_BOARD, WHITE};
pub use crate::coord::{Coord, MarbleMove, BOARD_MAXID, BOARD_SIZE};

verus! {

/// Number of lost marbles with which a side has lost the game.
pub const LOSS_DEFEAT: u8 = 6;

/// Number of turns without a capture after which the game is drawn.
pub const NOLOSS_DRAW: usize = 50;

/// Number of occurrences of one position with which the game is drawn.
pub const REPS_TO_DRAW: u8 = 3;

/// Game result: black has won.
pub const BLACK_WINS: i8 = -1;

/// Game result: the game is drawn.
pub const DRAW: i8 = 0;

/// Game result: white has won.
pub const WHITE_WINS: i8 = 1;

/// Game result: the game is not decided yet.
pub const UNDECIDED: i8 = 10;

/// The reason for which no game is made of a board: the board is not valid.
#[derive(Clone, Copy, Debug, PartialEq, Eq, Structural)]
pub struct InvalidBoard;

/// One game of Abalone. Black moves first.
pub struct AbaloneGame {
    board: Board,
    black_tomove: bool,
    next_positions: Vec<Board>,
    state_history: Vec<Board>,
    save_history: bool,
    state_memory: Vec<(Board, u8)>,
    turn_number: usize,
    noloss_turns: usize,
    noloss_moves: usize,
    white_loss: u8,
    black_loss: u8,
    result: i8,
    game_ended: bool,
}

/// The inner cells of the grid that hold `color`, among the first `n` in row-major
/// order, as coordinates in that order.
pub open spec fn coords_upto(b: Board, color: i8, n: int) -> Seq<Coord>
    decreases n,
{
    if n <= 0 {
        Seq::empty()
    } else {
        let c = Coord { x: (1 + (n - 1) / 9) as usize, y: (1 + (n - 1) % 9) as usize };
        if cell_at(b, c.x as int, c.y as int) == color {
            coords_upto(b, color, n - 1).push(c)
        } else {
            coords_upto(b, color, n - 1)
        }
    }
}

/// The coordinates of the inner cells that hold `color`, in row-major order.
pub open spec fn coords_of(b: Board, color: i8) -> Seq<Coord> {
    coords_upto(b, color, 81)
}

impl AbaloneGame {
    /// The six directions.
    pub fn get_game_moves() -> (moves: [MarbleMove; 6])
        ensures
            forall|m: int| 0 <= m < 6 ==> moves[m] == direction(m),
    {
        [
            direction_of(0),
            direction_of(1),
            direction_of(2),
            direction_of(3),
            direction_of(4),
            direction_of(5),
        ]
    }

    /// Counts the cells of the grid that hold `color_code`: 0 for empty cells, 1 for
    /// white marbles, 2 for black marbles, 3 for off-board cells.
    pub fn count_marbles(board: Board, color_code: i8) -> (count: u8)
        ensures
            count == marble_count(board, color_code),
    {
        let mut count: u8 = 0;
        let ghost rows = |x: int| row_count(board, color_code, x);
        for x in 0..11usize
            invariant
                count == sum_upto(rows, x as int),
                count <= 11 * x,
                rows == (|x: int| row_count(board, color_code, x)),
        {
            let ghost cells = |y: int|
                if cell_at(board, x as int, y) == color_code {
                    1nat
                } else {
                    0nat
                };
            let ghost before = count;
            for y in 0..11usize
                invariant
                    x < 11,
                    count == before + sum_upto(cells, y as int),
                    before <= 11 * x,
                    count <= before + y,
                    cells == (|y: int|
                        if cell_at(board, x as int, y) == color_code {
                            1nat
                        } else {
                            0nat
                        }),
            {
                if get_cell(&board, x, y) == color_code {
                    count += 1;
                }
            }
            assert(rows(x as int) == sum_upto(cells, 11));
        }
        count
    }

    /// The coordinates of the black marbles, of the white marbles and of the empty
    /// cells of a board, each in row-major order.
    pub fn coords_by_type(board: Board) -> (coords: (Vec<Coord>, Vec<Coord>, Vec<Coord>))
        ensures
            coords.0@ == coords_of(board, BLACK),
            coords.1@ == coords_of(board, WHITE),
            coords.2@ == coords_of(board, EMPTY),
    {
        let mut black_coords: Vec<Coord> = Vec::new();
        let mut white_coords: Vec<Coord> = Vec::new();
        let mut empty_coords: Vec<Coord> = Vec::new();
        for row in 1..BOARD_MAXID
            invariant
                black_coords@ == coords_upto(board, BLACK, (row - 1) * 9),
                white_coords@ == coords_upto(board, WHITE, (row - 1) * 9),
                empty_coords@ == coords_upto(board, EMPTY, (row - 1) * 9),
        {
            for col in 1..BOARD_MAXID
                invariant
                    1 <= row < 10,
                    black_coords@ == coords_upto(board, BLACK, (row - 1) * 9 + col - 1),
                    white_coords@ == coords_upto(board, WHITE, (row - 1) * 9 + col - 1),
                    empty_coords@ == coords_upto(board, EMPTY, (row - 1) * 9 + col - 1),
            {
                let ghost n = (row - 1) * 9 + col;
                assert(1 + (n - 1) / 9 == row && 1 + (n - 1) % 9 == col);
                let v = get_cell(&board, row, col);
                if v == BLACK {
                    black_coords.push(Coord::new(row, col));
                } else if v == WHITE {
                    white_coords.push(Coord::new(row, col));
                } else if v == EMPTY {
                    empty_coords.push(Coord::new(row, col));
                }
            }
        }
        (black_coords, white_coords, empty_coords)
    }

    /// Whether a board is a valid position: it has the frame of the empty board, no
    /// value above that of a black marble inside it, and at most 14 marbles of each
    /// colour.
    pub fn validate_board(board: Board) -> (valid: bool)
        ensures
            valid == valid_board(board),
    {
        for r in 0..11usize
            invariant
                forall|x: int, y: int|
                    0 <= x < r && 0 <= y < 11 ==> cell_fits_frame(
                        #[trigger] cell_at(board, x, y),
                        x,
                        y,
                    ),
        {
            for c in 0..11usize
                invariant
                    r < 11,
                    forall|x: int, y: int|
                        0 <= x < r && 0 <= y < 11 ==> cell_fits_frame(
                            #[trigger] cell_at(board, x, y),
                            x,
                            y,
                        ),
                    forall|y: int|
                        0 <= y < c ==> cell_fits_frame(
                            #[trigger] cell_at(board, r as int, y),
                            r as int,
                            y,
                        ),
            {
                let v = get_cell(&board, r, c);
                proof {
                    lemma_frame(r as int, c as int);
                }
                if get_cell(&EMPTY_BOARD, r, c) == OFF_BOARD {
                    if v != OFF_BOARD {
                        assert(!cell_fits_frame(cell_at(board, r as int, c as int), r as int, c as int));
                        return false;
                    }
                } else if v > BLACK {
                    assert(!cell_fits_frame(cell_at(board, r as int, c as int), r as int, c as int));
                    return false;
                }
            }
        }
        assert(has_frame(board));
        if Self::count_marbles(board, WHITE) > MARBLES_MAX {
            return false;
        }
        if Self::count_marbles(board, BLACK) > MARBLES_MAX {
            return false;
        }
        true
    }

    /// The board seen from the other side: turned by 180 degrees, colours exchanged.
    pub fn rotate_board(board: Board) -> (turned: Board)
        ensures
            turned == rotated(board),
            forall|x: int, y: int|
                on_grid(x, y) ==> #[trigger] cell_at(turned, x, y) == swapped(
                    cell_at(board, 10 - x, 10 - y),
                ),
    {
        let mut turned: Board = [[0i8; 11]; 11];
        for x in 0..11usize
            invariant
                forall|i: int, j: int|
                    0 <= i < x && 0 <= j < 11 ==> #[trigger] cell_at(turned, 10 - i, 10 - j)
                        == swapped(cell_at(board, i, j)),
        {
            for y in 0..11usize
                invariant
                    x < 11,
                    forall|i: int, j: int|
                        0 <= i < x && 0 <= j < 11 ==> #[trigger] cell_at(turned, 10 - i, 10 - j)
                            == swapped(cell_at(board, i, j)),
                    forall|j: int|
                        0 <= j < y ==> #[trigger] cell_at(turned, 10 - x, 10 - j) == swapped(
                            cell_at(board, x as int, j),
                        ),
            {
                let v = get_cell(&board, x, y);
                let w = if v == WHITE {
                    BLACK
                } else if v == BLACK {
                    WHITE
                } else {
                    v
                };
                proof {
                    broadcast use lemma_with_cell;
                }
                set_cell(&mut turned, BOARD_MAXID - x, BOARD_MAXID - y, w);
            }
        }
        proof {
            broadcast use lemma_rotated_cell;
            assert forall|i: int, j: int| on_grid(i, j) implies cell_at(turned, i, j) == cell_at(
                rotated(board),
                i,
                j,
            ) by {
                assert(cell_at(turned, 10 - (10 - i), 10 - (10 - j)) == swapped(
                    cell_at(board, 10 - i, 10 - j),
                ));
            }
            lemma_board_ext(turned, rotated(board));
        }
        turned
    }

    /// The board with the colours exchanged and every marble in its place.
    pub fn switch_colors(board: Board) -> (other: Board)
        ensures
            other == switched(board),
            forall|x: int, y: int|
                on_grid(x, y) ==> #[trigger] cell_at(other, x, y) == swapped(cell_at(board, x, y)),
    {
        let mut other: Board = [[0i8; 11]; 11];
        for x in 0..11usize
            invariant
                forall|i: int, j: int|
                    0 <= i < x && 0 <= j < 11 ==> #[trigger] cell_at(other, i, j) == swapped(
                        cell_at(board, i, j),
                    ),
        {
            for y in 0..11usize
                invariant
                    x < 11,
                    forall|i: int, j: int|
                        0 <= i < x && 0 <= j < 11 ==> #[trigger] cell_at(other, i, j) == swapped(
                            cell_at(board, i, j),
                        ),
                    forall|j: int|
                        0 <= j < y ==> #[trigger] cell_at(other, x as int, j) == swapped(
                            cell_at(board, x as int, j),
                        ),
            {
                let v = get_cell(&board, x, y);
                let w = if v == WHITE {
                    BLACK
                } else if v == BLACK {
                    WHITE
                } else {
                    v
                };
                proof {
                    broadcast use lemma_with_cell;
                }
                set_cell(&mut other, x, y, w);
            }
        }
        proof {
            broadcast use lemma_switched_cell;
            lemma_board_ext(other, switched(board));
        }
        other
    }
}

/// The ids and the boards of a list of moves, side by side.
pub open spec fn paired(ids: Seq<usize>, boards: Seq<Board>) -> Seq<(usize, Board)> {
    Seq::new(ids.len(), |i: int| (ids[i], boards[i]))
}

/// The board `b`, given from the point of view of the side to move, as it stands
/// on the table.
pub open spec fn absolute(black_to_move: bool, b: Board) -> Board {
    if black_to_move {
        rotated(b)
    } else {
        b
    }
}

/// The number of marbles of `color` that are missing on `b`.
pub open spec fn loss_on(b: Board, color: i8) -> int {
    MARBLES_MAX - marble_count(b, color)
}

/// A counter one higher, as far as a `usize` can hold it.
pub open spec fn bumped(n: usize) -> usize {
    if n < usize::MAX {
        (n + 1) as usize
    } else {
        n
    }
}

/// The result of a game in which white has lost `white_lost` marbles and black
/// `black_lost`, `quiet_turns` turns have passed without a capture and the
/// position on the board has occurred `reps` times, where `previous` was the
/// result before. White's loss is looked at first.
pub open spec fn decided(
    white_lost: u8,
    black_lost: u8,
    quiet_turns: usize,
    reps: nat,
    previous: i8,
) -> i8 {
    if white_lost >= LOSS_DEFEAT {
        BLACK_WINS
    } else if black_lost >= LOSS_DEFEAT {
        WHITE_WINS
    } else if quiet_turns >= NOLOSS_DRAW || reps >= REPS_TO_DRAW {
        DRAW
    } else {
        previous
    }
}

/// No move between the slots `lo` and `hi` where none of them holds one.
proof fn lemma_no_moves_between(b: Board, lo: int, hi: int)
    requires
        lo <= hi,
        forall|n: int| lo <= n < hi ==> #[trigger] slot_at(b, n) is None,
    ensures
        moves_upto(b, hi) == moves_upto(b, lo),
    decreases hi - lo,
{
    if lo < hi {
        lemma_no_moves_between(b, lo, hi - 1);
        assert(slot_at(b, hi - 1) is None);
    }
}

/// A cell without a white marble is the start of no move.
proof fn lemma_no_moves_from(b: Board, x: int, y: int)
    requires
        on_grid(x, y),
        cell_at(b, x, y) != WHITE,
    ensures
        moves_upto(b, slot_index(x, y, 0, 0) + 42) == moves_upto(b, slot_index(x, y, 0, 0)),
{
    let lo = slot_index(x, y, 0, 0);
    assert forall|n: int| lo <= n < lo + 42 implies #[trigger] slot_at(b, n) is None by {
        assert(n / 462 == x && (n / 42) % 11 == y);
        let m = (n / 7) % 6;
        let k = n % 7;
        assert(slot_move(b, x, y, m, k) is None) by {
            reveal(slot_move);
        }
    }
    lemma_no_moves_between(b, lo, lo + 42);
}

/// The losses of white and of black after a move that leaves white with
/// `white_newloss` marbles missing and black with `black_newloss`, and whether the
/// move is a capture: a loss of either side higher than the one recorded.
fn losses_after(white_loss: u8, black_loss: u8, white_newloss: u8, black_newloss: u8) -> (after: (
    u8,
    u8,
    bool,
))
    ensures
        after.0 == (if white_newloss > white_loss {
            white_newloss
        } else {
            white_loss
        }),
        after.1 == (if black_newloss > black_loss {
            black_newloss
        } else {
            black_loss
        }),
        after.2 == (white_newloss > white_loss || black_newloss > black_loss),
{
    let white: u8 = if white_newloss > white_loss {
        white_newloss
    } else {
        white_loss
    };
    let black: u8 = if black_newloss > black_loss {
        black_newloss
    } else {
        black_loss
    };
    (white, black, white_newloss > white_loss || black_newloss > black_loss)
}

/// The moves and the turns on the draw clock after a move: none after a capture;
/// else one move more, and one turn more with every second move.
fn clock_after(moves: usize, turns: usize, capture: bool) -> (after: (usize, usize))
    requires
        turns == moves / 2,
    ensures
        after.0 == (if capture {
            0
        } else {
            bumped(moves)
        }),
        after.1 == (if capture {
            0
        } else if after.0 % 2 == 0 {
            bumped(turns)
        } else {
            turns
        }),
        after.1 == after.0 / 2,
{
    if capture {
        (0, 0)
    } else {
        let moves_after: usize = if moves < usize::MAX {
            moves + 1
        } else {
            moves
        };
        let turns_after: usize = if moves_after % 2 == 0 {
            turns + 1
        } else {
            turns
        };
        (moves_after, turns_after)
    }
}

/// Counts the position `pos` once more in the table of positions, which a
/// capture empties first.
fn count_position(table: &mut Vec<(Board, u8)>, pos: Board, capture: bool)
    ensures
        forall|b: Board|
            #[trigger] table_count(final(table)@, b) == (if b == pos {
                bumped_u8(
                    if capture {
                        0
                    } else {
                        table_count(old(table)@, pos)
                    },
                )
            } else if capture {
                0
            } else {
                table_count(old(table)@, b)
            }),
{
    if capture {
        table.clear();
    }
    let ghost cleared = table@;
    assert forall|b: Board| #[trigger] table_count(cleared, b) == (if capture {
        0
    } else {
        table_count(old(table)@, b)
    }) by {}
    record_occurrence(table, pos);
}

/// Appends a move, if there is one, to the ids and the boards of a list.
fn emit(ids: &mut Vec<usize>, boards: &mut Vec<Board>, mv: Option<(usize, Board)>)
    requires
        old(ids).len() == old(boards).len(),
    ensures
        final(ids).len() == final(boards).len(),
        paired(final(ids)@, final(boards)@) == (match mv {
            Some(p) => paired(old(ids)@, old(boards)@).push(p),
            None => paired(old(ids)@, old(boards)@),
        }),
{
    match mv {
        Some((id, after)) => {
            ids.push(id);
            boards.push(after);
            assert(paired(ids@, boards@) =~= paired(old(ids)@, old(boards)@).push((id, after)));
        },
        None => {},
    }
}

impl AbaloneGame {
    /// The board as it stands on the table.
    pub closed spec fn position(&self) -> Board {
        self.board
    }

    /// Whether black is to move.
    pub closed spec fn black_to_move(&self) -> bool {
        self.black_tomove
    }

    /// The boards that the moves listed last lead to, from the point of view of the
    /// side that was to move then.
    pub closed spec fn children(&self) -> Seq<Board> {
        self.next_positions@
    }

    /// The positions that the game has gone through, where it keeps them.
    pub closed spec fn history(&self) -> Seq<Board> {
        self.state_history@
    }

    /// Whether the game keeps its history.
    pub closed spec fn keeps_history(&self) -> bool {
        self.save_history
    }

    /// The number of times that the position `b` has occurred since the last capture.
    pub closed spec fn repetitions(&self, b: Board) -> nat {
        table_count(self.state_memory@, b)
    }

    /// One more than the number of moves made.
    pub closed spec fn turn_number(&self) -> usize {
        self.turn_number
    }

    /// The number of turns without a capture: the draw clock.
    pub closed spec fn quiet_turns(&self) -> usize {
        self.noloss_turns
    }

    /// The number of moves since the last capture.
    pub closed spec fn quiet_moves(&self) -> usize {
        self.noloss_moves
    }

    /// The number of marbles that white has lost.
    pub closed spec fn white_lost(&self) -> u8 {
        self.white_loss
    }

    /// The number of marbles that black has lost.
    pub closed spec fn black_lost(&self) -> u8 {
        self.black_loss
    }

    /// The result: -1 where black has won, 0 for a draw, 1 where white has won, and
    /// 10 while the game is undecided.
    pub closed spec fn outcome(&self) -> i8 {
        self.result
    }

    /// Whether the game has ended.
    pub closed spec fn ended(&self) -> bool {
        self.game_ended
    }

    /// What holds of every game: its position and the boards of its listed moves
    /// are valid, no side has lost more marbles than it can have, the result is one
    /// of the four, the game has ended exactly when it is decided, it has ended
    /// where a side has lost six marbles, and the draw clock shows a turn for every
    /// two moves.
    pub closed spec fn wf(&self) -> bool {
        &&& valid_board(self.board)
        &&& forall|i: int|
            0 <= i < self.next_positions@.len() ==> valid_board(#[trigger] self.next_positions@[i])
        &&& self.white_loss <= MARBLES_MAX
        &&& self.black_loss <= MARBLES_MAX
        &&& (self.result == BLACK_WINS || self.result == DRAW || self.result == WHITE_WINS
            || self.result == UNDECIDED)
        &&& self.game_ended == (self.result != UNDECIDED)
        &&& (self.white_loss >= LOSS_DEFEAT || self.black_loss >= LOSS_DEFEAT
            ==> self.game_ended)
        &&& self.noloss_turns == self.noloss_moves / 2
    }

    /// Whether the draw clock shows a turn for every two moves since the last capture.
    pub open spec fn clock_agrees(&self) -> bool {
        self.quiet_turns() == self.quiet_moves() / 2
    }

    /// The position from the point of view of the side to move: rotated where black
    /// is to move.
    pub open spec fn pov(&self) -> Board {
        absolute(self.black_to_move(), self.position())
    }

    /// What each valid game has.
    pub proof fn lemma_wf(&self)
        requires
            self.wf(),
        ensures
            valid_board(self.position()),
            valid_board(self.pov()),
            forall|i: int|
                0 <= i < self.children().len() ==> valid_board(#[trigger] self.children()[i]),
            self.white_lost() <= MARBLES_MAX,
            self.black_lost() <= MARBLES_MAX,
            self.outcome() == BLACK_WINS || self.outcome() == DRAW || self.outcome()
                == WHITE_WINS || self.outcome() == UNDECIDED,
            self.ended() == (self.outcome() != UNDECIDED),
            self.white_lost() >= LOSS_DEFEAT || self.black_lost() >= LOSS_DEFEAT ==> self.ended(),
            self.clock_agrees(),
    {
        lemma_perspective_keeps_valid(self.board);
    }

    /// Whether `other` is in the state of `self`, the list of moves left aside.
    pub open spec fn same_state(&self, other: &Self) -> bool {
        &&& self.position() == other.position()
        &&& self.black_to_move() == other.black_to_move()
        &&& forall|b: Board| #[trigger] self.repetitions(b) == other.repetitions(b)
        &&& self.turn_number() == other.turn_number()
        &&& self.quiet_turns() == other.quiet_turns()
        &&& self.quiet_moves() == other.quiet_moves()
        &&& self.white_lost() == other.white_lost()
        &&& self.black_lost() == other.black_lost()
        &&& self.outcome() == other.outcome()
        &&& self.ended() == other.ended()
    }

    /// Whether `after` is the game that `self` becomes by the move to `new_board`,
    /// a board from the point of view of the side to move. The position is counted
    /// once more. A capture, which is a loss of either side higher than the one
    /// recorded, sets the clock and the table of positions back; without one the
    /// clock goes on, by one turn with every second move: a turn is a move of each
    /// side.
    pub open spec fn moved(&self, new_board: Board, after: &Self) -> bool {
        let pos = absolute(self.black_to_move(), new_board);
        let white_hit = loss_on(pos, WHITE) > self.white_lost();
        let black_hit = loss_on(pos, BLACK) > self.black_lost();
        let capture = white_hit || black_hit;
        &&& after.position() == pos
        &&& after.black_to_move() == !self.black_to_move()
        &&& after.children() == self.children()
        &&& after.keeps_history() == self.keeps_history()
        &&& after.history() == (if self.keeps_history() {
            self.history().push(pos)
        } else {
            self.history()
        })
        &&& after.turn_number() == bumped(self.turn_number())
        &&& after.white_lost() == (if white_hit {
            loss_on(pos, WHITE)
        } else {
            self.white_lost() as int
        })
        &&& after.black_lost() == (if black_hit {
            loss_on(pos, BLACK)
        } else {
            self.black_lost() as int
        })
        &&& after.quiet_moves() == (if capture {
            0
        } else {
            bumped(self.quiet_moves())
        })
        &&& after.quiet_turns() == (if capture {
            0
        } else if after.quiet_moves() % 2 == 0 {
            bumped(self.quiet_turns())
        } else {
            self.quiet_turns()
        })
        &&& forall|b: Board| #[trigger]
            after.repetitions(b) == (if b == pos {
                bumped_u8(
                    if capture {
                        0
                    } else {
                        self.repetitions(pos)
                    },
                )
            } else if capture {
                0
            } else {
                self.repetitions(b)
            })
        &&& after.outcome() == decided(
            after.white_lost(),
            after.black_lost(),
            after.quiet_turns(),
            after.repetitions(pos),
            self.outcome(),
        )
        &&& after.ended() == (after.outcome() != UNDECIDED)
    }

    /// A move gives no lost marble back.
    pub proof fn lemma_losses_only_grow(&self, new_board: Board, after: &Self)
        requires
            self.moved(new_board, after),
        ensures
            after.white_lost() >= self.white_lost(),
            after.black_lost() >= self.black_lost(),
    {
    }

    /// Only a capture sets the draw clock and the table of positions back: after a
    /// move that took no marble the clock is not lower and no position has occurred
    /// fewer times than before.
    pub proof fn lemma_reset_only_on_capture(&self, new_board: Board, after: &Self)
        requires
            self.moved(new_board, after),
            after.white_lost() == self.white_lost(),
            after.black_lost() == self.black_lost(),
        ensures
            after.quiet_moves() >= self.quiet_moves(),
            after.quiet_turns() >= self.quiet_turns(),
            forall|b: Board| #[trigger] after.repetitions(b) >= self.repetitions(b),
    {
        assert forall|b: Board| #[trigger] after.repetitions(b) >= self.repetitions(b) by {
            assert(bumped_u8(self.repetitions(b)) >= self.repetitions(b));
        }
    }

    /// A side that has lost six marbles has lost the game; a game in which neither
    /// has is drawn once the clock has run out or the position has occurred three
    /// times.
    pub proof fn lemma_move_decides(&self, new_board: Board, after: &Self)
        requires
            self.moved(new_board, after),
        ensures
            after.white_lost() >= LOSS_DEFEAT ==> after.outcome() == BLACK_WINS,
            after.white_lost() < LOSS_DEFEAT && after.black_lost() >= LOSS_DEFEAT
                ==> after.outcome() == WHITE_WINS,
            after.white_lost() < LOSS_DEFEAT && after.black_lost() < LOSS_DEFEAT && (
            after.quiet_turns() >= NOLOSS_DRAW || after.repetitions(after.position())
                >= REPS_TO_DRAW) ==> after.outcome() == DRAW,
            after.outcome() != UNDECIDED ==> after.ended(),
            after.ended() == (after.outcome() != UNDECIDED),
            self.outcome() != UNDECIDED ==> after.outcome() != UNDECIDED,
            after.outcome() == decided(
                after.white_lost(),
                after.black_lost(),
                after.quiet_turns(),
                after.repetitions(after.position()),
                self.outcome(),
            ),
    {
    }

    /// How a move without a capture moves the draw clock: by one move, and by one
    /// turn where that is a second move.
    pub proof fn lemma_quiet_move(&self, new_board: Board, after: &Self)
        requires
            self.moved(new_board, after),
            after.white_lost() == self.white_lost(),
            after.black_lost() == self.black_lost(),
        ensures
            after.black_to_move() == !self.black_to_move(),
            after.quiet_moves() == bumped(self.quiet_moves()),
            after.quiet_turns() == (if after.quiet_moves() % 2 == 0 {
                bumped(self.quiet_turns())
            } else {
                self.quiet_turns()
            }),
            self.clock_agrees() ==> after.clock_agrees(),
    {
    }

    /// After a move the draw clock shows a turn for every two moves, if it did before.
    pub proof fn lemma_clock_goes_on(&self, new_board: Board, after: &Self)
        requires
            self.moved(new_board, after),
            self.clock_agrees(),
        ensures
            after.clock_agrees(),
    {
    }

    /// A new game on `board`, with black to move.
    pub fn new(board: Board) -> (game: Self)
        requires
            valid_board(board),
        ensures
            game.wf(),
            game.position() == board,
            game.black_to_move(),
            game.children() == Seq::<Board>::empty(),
            game.history() == Seq::<Board>::empty(),
            game.keeps_history(),
            forall|b: Board| #[trigger] game.repetitions(b) == 0,
            game.turn_number() == 1,
            game.quiet_turns() == 0,
            game.quiet_moves() == 0,
            game.white_lost() == loss_on(board, WHITE),
            game.black_lost() == loss_on(board, BLACK),
            game.outcome() == decided(game.white_lost(), game.black_lost(), 0, 0, UNDECIDED),
            game.ended() == (game.outcome() != UNDECIDED),
    {
        let mut new_game = Self {
            board,
            black_tomove: true,
            next_positions: Vec::new(),
            state_history: Vec::new(),
            save_history: true,
            state_memory: Vec::new(),
            turn_number: 1,
            noloss_turns: 0,
            noloss_moves: 0,
            white_loss: MARBLES_MAX - Self::count_marbles(board, WHITE),
            black_loss: MARBLES_MAX - Self::count_marbles(board, BLACK),
            result: UNDECIDED,
            game_ended: false,
        };
        new_game.check_game_ended();
        new_game
    }

    /// A new game on `board`, with black to move, where the board is valid; the
    /// error where it is not.
    pub fn try_new(board: Board) -> (made: Result<Self, InvalidBoard>)
        ensures
            made.is_ok() == valid_board(board),
            made.is_ok() ==> {
                let game = made.unwrap();
                &&& game.wf()
                &&& game.position() == board
                &&& game.black_to_move()
                &&& game.children() == Seq::<Board>::empty()
                &&& game.history() == Seq::<Board>::empty()
                &&& game.keeps_history()
                &&& forall|b: Board| #[trigger] game.repetitions(b) == 0
                &&& game.turn_number() == 1
                &&& game.quiet_turns() == 0
                &&& game.quiet_moves() == 0
                &&& game.white_lost() == loss_on(board, WHITE)
                &&& game.black_lost() == loss_on(board, BLACK)
                &&& game.outcome() == decided(game.white_lost(), game.black_lost(), 0, 0, UNDECIDED)
                &&& game.ended() == (game.outcome() != UNDECIDED)
            },
    {
        if Self::validate_board(board) {
            Ok(Self::new(board))
        } else {
            Err(InvalidBoard)
        }
    }

    /// A copy of the game for a simulation: in the same state, without the list of
    /// moves and without the history, which it does not keep.
    pub fn mcts_copy(&self) -> (copy: Self)
        requires
            self.wf(),
        ensures
            copy.wf(),
            copy.same_state(self),
            copy.children() == Seq::<Board>::empty(),
            copy.history() == Seq::<Board>::empty(),
            !copy.keeps_history(),
    {
        let mut memory: Vec<(Board, u8)> = Vec::new();
        for i in 0..self.state_memory.len()
            invariant
                memory@ == self.state_memory@.subrange(0, i as int),
        {
            memory.push(self.state_memory[i]);
            assert(memory@ =~= self.state_memory@.subrange(0, i + 1));
        }
        assert(memory@ =~= self.state_memory@);
        Self {
            board: self.board,
            black_tomove: self.black_tomove,
            next_positions: Vec::new(),
            state_history: Vec::new(),
            save_history: false,
            state_memory: memory,
            turn_number: self.turn_number,
            noloss_turns: self.noloss_turns,
            noloss_moves: self.noloss_moves,
            white_loss: self.white_loss,
            black_loss: self.black_loss,
            result: self.result,
            game_ended: self.game_ended,
        }
    }

    /// The coordinates of the black marbles, of the white marbles and of the empty
    /// cells of the position, each in row-major order.
    pub fn get_coords_by_type(&self) -> (coords: (Vec<Coord>, Vec<Coord>, Vec<Coord>))
        ensures
            coords.0@ == coords_of(self.position(), BLACK),
            coords.1@ == coords_of(self.position(), WHITE),
            coords.2@ == coords_of(self.position(), EMPTY),
    {
        Self::coords_by_type(self.board)
    }

    /// Decides the game where a side has lost six marbles, the clock has run out or
    /// the position has occurred three times.
    fn check_game_ended(&mut self)
        requires
            old(self).result == BLACK_WINS || old(self).result == DRAW || old(self).result
                == WHITE_WINS || old(self).result == UNDECIDED,
        ensures
            final(self).result == decided(
                old(self).white_loss,
                old(self).black_loss,
                old(self).noloss_turns,
                table_count(old(self).state_memory@, old(self).board),
                old(self).result,
            ),
            final(self).game_ended == (old(self).game_ended || final(self).result != UNDECIDED),
            final(self).board == old(self).board,
            final(self).black_tomove == old(self).black_tomove,
            final(self).next_positions == old(self).next_positions,
            final(self).state_history == old(self).state_history,
            final(self).save_history == old(self).save_history,
            final(self).state_memory == old(self).state_memory,
            final(self).turn_number == old(self).turn_number,
            final(self).noloss_turns == old(self).noloss_turns,
            final(self).noloss_moves == old(self).noloss_moves,
            final(self).white_loss == old(self).white_loss,
            final(self).black_loss == old(self).black_loss,
    {
        if self.white_loss >= LOSS_DEFEAT {
            self.result = BLACK_WINS;
        } else if self.black_loss >= LOSS_DEFEAT {
            self.result = WHITE_WINS;
        } else if self.noloss_turns >= NOLOSS_DRAW || occurrences(&self.state_memory, &self.board)
            >= REPS_TO_DRAW {
            self.result = DRAW;
        }
        if self.result != UNDECIDED {
            self.game_ended = true;
        }
    }

    /// Whether the game has ended.
    pub fn get_game_ended(&self) -> (ended: bool)
        ensures
            ended == self.ended(),
    {
        self.game_ended
    }

    /// The result: -1 where black has won, 0 for a draw, 1 where white has won, and
    /// 10 while the game is undecided.
    pub fn get_game_result(&self) -> (result: i8)
        ensures
            result == self.outcome(),
    {
        self.result
    }

    /// Whether black is to move.
    pub fn get_black_tomove(&self) -> (black: bool)
        ensures
            black == self.black_to_move(),
    {
        self.black_tomove
    }

    /// The marbles that black and that white have lost.
    pub fn get_black_white_loss(&self) -> (loss: (u8, u8))
        ensures
            loss.0 == self.black_lost(),
            loss.1 == self.white_lost(),
    {
        (self.black_loss, self.white_loss)
    }

    /// The position as it stands on the table.
    pub fn get_state(&self) -> (board: Board)
        ensures
            board == self.position(),
    {
        self.board
    }

    /// The position from the point of view of the side to move: rotated where black
    /// is to move.
    pub fn get_rotated_state(&self) -> (board: Board)
        ensures
            board == self.pov(),
    {
        if self.black_tomove {
            return Self::rotate_board(self.board);
        }
        self.board
    }

    /// The position with the side to move in white: colours exchanged where black is
    /// to move, every marble in its place.
    pub fn get_switched_state(&self) -> (board: Board)
        ensures
            board == (if self.black_to_move() {
                switched(self.position())
            } else {
                self.position()
            }),
    {
        if self.black_tomove {
            return Self::switch_colors(self.board);
        }
        self.board
    }

    /// The board that the move with the number `index` of the list leads to.
    pub fn get_next_position(&self, index: usize) -> (board: Board)
        requires
            self.wf(),
            index < self.children().len(),
        ensures
            board == self.children()[index as int],
            valid_board(board),
    {
        self.next_positions[index]
    }

    /// Ends the game with the given result: -1 where black wins, 0 for a draw, 1
    /// where white wins. Any other value changes nothing.
    pub fn end_with_result(&mut self, result: i8)
        requires
            old(self).wf(),
        ensures
            final(self).wf(),
            final(self).children() == old(self).children(),
            final(self).history() == old(self).history(),
            final(self).keeps_history() == old(self).keeps_history(),
            -1 <= result <= 1 ==> final(self).outcome() == result && final(self).ended(),
            !(-1 <= result <= 1) ==> final(self).outcome() == old(self).outcome(),
            !(-1 <= result <= 1) ==> final(self).ended() == old(self).ended(),
            final(self).position() == old(self).position(),
            final(self).black_to_move() == old(self).black_to_move(),
            forall|b: Board| #[trigger] final(self).repetitions(b) == old(self).repetitions(b),
            final(self).turn_number() == old(self).turn_number(),
            final(self).quiet_turns() == old(self).quiet_turns(),
            final(self).quiet_moves() == old(self).quiet_moves(),
            final(self).white_lost() == old(self).white_lost(),
            final(self).black_lost() == old(self).black_lost(),
    {
        if result > 1 || result < -1 {
            return ;
        }
        self.result = result;
        self.game_ended = true;
    }
}

impl AbaloneGame {
    /// Lists the legal moves of the side to move. Returns the position from the
    /// point of view of that side and the ids of the moves; the boards that they
    /// lead to, from the same point of view, become the list of the game, in
    /// the same order. Moves are listed by the cell of their front marble, row by
    /// row, then by direction; for one marble and one direction the in-line moves of
    /// two and of three marbles come first, then the step of the marble alone, then
    /// the sideways moves of two and of three marbles along each side direction.
    /// Each of the boards is valid, holds the marbles of the side to move, and holds
    /// those of the other side but for one where the move pushes it off the board.
    pub fn calc_reasonalbe_moves(&mut self) -> (found: (Board, Vec<usize>))
        requires
            old(self).wf(),
        ensures
            final(self).wf(),
            final(self).same_state(old(self)),
            final(self).history() == old(self).history(),
            final(self).keeps_history() == old(self).keeps_history(),
            found.0 == old(self).pov(),
            found.1@.len() == final(self).children().len(),
            paired(found.1@, final(self).children()) == legal_moves(found.0),
            forall|i: int, j: int|
                0 <= i < j < found.1@.len() ==> #[trigger] found.1@[i] != #[trigger] found.1@[j],
            forall|i: int|
                0 <= i < final(self).children().len() ==> {
                    &&& valid_board(#[trigger] final(self).children()[i])
                    &&& marble_count(final(self).children()[i], WHITE) == marble_count(
                        found.0,
                        WHITE,
                    )
                    &&& marble_count(found.0, BLACK) - 1 <= marble_count(
                        final(self).children()[i],
                        BLACK,
                    ) <= marble_count(found.0, BLACK)
                },
    {
        let pov_state = self.get_rotated_state();
        let mut next_positions: Vec<Board> = Vec::new();
        let mut next_moveids: Vec<usize> = Vec::new();
        proof {
            lemma_perspective_keeps_valid(self.board);
            assert(paired(next_moveids@, next_positions@) =~= moves_upto(pov_state, 0));
        }
        for x in 0..BOARD_SIZE
            invariant
                has_frame(pov_state),
                next_moveids.len() == next_positions.len(),
                paired(next_moveids@, next_positions@) == moves_upto(
                    pov_state,
                    slot_index(x as int, 0, 0, 0),
                ),
        {
            for y in 0..BOARD_SIZE
                invariant
                    x < 11,
                    has_frame(pov_state),
                    next_moveids.len() == next_positions.len(),
                    paired(next_moveids@, next_positions@) == moves_upto(
                        pov_state,
                        slot_index(x as int, y as int, 0, 0),
                    ),
            {
                if get_cell(&pov_state, x, y) != WHITE {
                    proof {
                        lemma_no_moves_from(pov_state, x as int, y as int);
                    }
                } else {
                    let pos = Coord::new(x, y);
                    for m in 0..6usize
                        invariant
                            x < 11,
                            y < 11,
                            pos == (Coord { x, y }),
                            has_frame(pov_state),
                            cell_at(pov_state, x as int, y as int) == WHITE,
                            next_moveids.len() == next_positions.len(),
                            paired(next_moveids@, next_positions@) == moves_upto(
                                pov_state,
                                slot_index(x as int, y as int, m as int, 0),
                            ),
                    {
                        let ghost base = slot_index(x as int, y as int, m as int, 0);
                        proof {
                            lemma_slot_index(pov_state, x as int, y as int, m as int, 0);
                            lemma_slot_index(pov_state, x as int, y as int, m as int, 1);
                            lemma_slot_index(pov_state, x as int, y as int, m as int, 2);
                            lemma_slot_index(pov_state, x as int, y as int, m as int, 3);
                            lemma_slot_index(pov_state, x as int, y as int, m as int, 4);
                            lemma_slot_index(pov_state, x as int, y as int, m as int, 5);
                            lemma_slot_index(pov_state, x as int, y as int, m as int, 6);
                        }
                        // in-line moves of two and of three marbles
                        emit(&mut next_moveids, &mut next_positions, inline_slot(&pov_state, pos, m, 2));
                        assert(paired(next_moveids@, next_positions@) == moves_upto(pov_state, base + 1));
                        emit(&mut next_moveids, &mut next_positions, inline_slot(&pov_state, pos, m, 3));
                        assert(paired(next_moveids@, next_positions@) == moves_upto(pov_state, base + 2));
                        // the marble alone
                        emit(
                            &mut next_moveids,
                            &mut next_positions,
                            broadside_slot(&pov_state, pos, m, 0, 1),
                        );
                        assert(paired(next_moveids@, next_positions@) == moves_upto(pov_state, base + 3));
                        // broad side moves
                        emit(
                            &mut next_moveids,
                            &mut next_positions,
                            broadside_slot(&pov_state, pos, m, 0, 2),
                        );
                        assert(paired(next_moveids@, next_positions@) == moves_upto(pov_state, base + 4));
                        emit(
                            &mut next_moveids,
                            &mut next_positions,
                            broadside_slot(&pov_state, pos, m, 0, 3),
                        );
                        assert(paired(next_moveids@, next_positions@) == moves_upto(pov_state, base + 5));
                        emit(
                            &mut next_moveids,
                            &mut next_positions,
                            broadside_slot(&pov_state, pos, m, 1, 2),
                        );
                        assert(paired(next_moveids@, next_positions@) == moves_upto(pov_state, base + 6));
                        emit(
                            &mut next_moveids,
                            &mut next_positions,
                            broadside_slot(&pov_state, pos, m, 1, 3),
                        );
                        assert(paired(next_moveids@, next_positions@) == moves_upto(pov_state, base + 7));
                    }
                }
            }
        }
        proof {
            assert(slot_index(11, 0, 0, 0) == SLOTS);
            assert forall|i: int, j: int| 0 <= i < j < next_moveids@.len() implies #[trigger] next_moveids@[i]
                != #[trigger] next_moveids@[j] by {
                assert(paired(next_moveids@, next_positions@)[i].0 == next_moveids@[i]);
                assert(paired(next_moveids@, next_positions@)[j].0 == next_moveids@[j]);
                lemma_legal_move_ids_differ(pov_state, i, j);
            }
            assert forall|i: int| 0 <= i < next_positions@.len() implies {
                &&& valid_board(#[trigger] next_positions@[i])
                &&& marble_count(next_positions@[i], WHITE) == marble_count(pov_state, WHITE)
                &&& marble_count(pov_state, BLACK) - 1 <= marble_count(next_positions@[i], BLACK)
                    <= marble_count(pov_state, BLACK)
            } by {
                assert(paired(next_moveids@, next_positions@)[i].1 == next_positions@[i]);
                let n = lemma_legal_move_keeps_marbles(pov_state, i);
            }
        }
        self.next_positions = next_positions;
        (pov_state, next_moveids)
    }

    /// Makes the move to `new_board`, a board from the point of view of the side to
    /// move: rotates it back where black is to move, counts what was lost, moves
    /// the draw clock, counts the position and decides the game where it is decided.
    pub fn update_state(&mut self, new_board: Board)
        requires
            old(self).wf(),
            valid_board(new_board),
        ensures
            final(self).wf(),
            old(self).moved(new_board, final(self)),
    {
        let mut new_board = new_board;
        proof {
            lemma_perspective_keeps_valid(new_board);
        }
        if self.black_tomove {
            new_board = Self::rotate_board(new_board);
        }
        let black_moved = self.black_tomove;
        self.board = new_board;
        self.black_tomove = !black_moved;

        let white_newloss = MARBLES_MAX - Self::count_marbles(new_board, WHITE);
        let black_newloss = MARBLES_MAX - Self::count_marbles(new_board, BLACK);
        let (white_loss, black_loss, capture) = losses_after(
            self.white_loss,
            self.black_loss,
            white_newloss,
            black_newloss,
        );
        self.white_loss = white_loss;
        self.black_loss = black_loss;

        let (noloss_moves, noloss_turns) = clock_after(
            self.noloss_moves,
            self.noloss_turns,
            capture,
        );
        self.noloss_moves = noloss_moves;
        self.noloss_turns = noloss_turns;
        if self.turn_number < usize::MAX {
            self.turn_number += 1;
        }
        if self.save_history {
            self.state_history.push(new_board);
        }
        count_position(&mut self.state_memory, new_board, capture);
        self.check_game_ended();
    }

    /// Makes the move with the number `index` of the list.
    pub fn update_by_id(&mut self, index: usize)
        requires
            old(self).wf(),
            index < old(self).children().len(),
        ensures
            final(self).wf(),
            old(self).moved(old(self).children()[index as int], final(self)),
    {
        let next = self.get_next_position(index);
        self.update_state(next);
    }
}

/// Whether the game with the number `i` becomes the next by the move to the board
/// with the number `i`.
pub open spec fn step_at(games: Seq<AbaloneGame>, boards: Seq<Board>, i: int) -> bool {
    games[i].moved(boards[i], &games[i + 1])
}

/// Whether `games` is a game as it goes on move by move: each game becomes the
/// next by the move to the board of the same number.
pub open spec fn played(games: Seq<AbaloneGame>, boards: Seq<Board>) -> bool {
    &&& games.len() == boards.len() + 1
    &&& forall|i: int| 0 <= i < boards.len() ==> #[trigger] step_at(games, boards, i)
}

/// Whether no marble is taken from the game with the number `s` on for `n` moves:
/// the losses stay what they are.
pub open spec fn without_capture(games: Seq<AbaloneGame>, s: int, n: int) -> bool {
    forall|i: int|
        s <= i <= s + n ==> (#[trigger] games[i]).white_lost() == games[s].white_lost()
            && games[i].black_lost() == games[s].black_lost()
}

/// The marbles that both sides have lost.
pub open spec fn total_lost(game: AbaloneGame) -> int {
    game.white_lost() + game.black_lost()
}

/// While a game goes on the draw clock shows a turn for every two moves since
/// the last capture.
proof fn lemma_clock_agrees(games: Seq<AbaloneGame>, boards: Seq<Board>, i: int)
    requires
        played(games, boards),
        games[0].clock_agrees(),
        0 <= i < games.len(),
    ensures
        games[i].clock_agrees(),
    decreases i,
{
    if i > 0 {
        lemma_clock_agrees(games, boards, i - 1);
        assert(step_at(games, boards, i - 1));
        games[i - 1].lemma_clock_goes_on(boards[i - 1], &games[i]);
    }
}

/// After `n` moves without a capture the draw clock shows `n` moves at least.
proof fn lemma_quiet_moves_are_counted(games: Seq<AbaloneGame>, boards: Seq<Board>, s: int, n: int)
    requires
        played(games, boards),
        0 <= s,
        0 <= n,
        s + n < games.len(),
        without_capture(games, s, n),
    ensures
        games[s + n].quiet_moves() >= n || games[s + n].quiet_moves() == usize::MAX,
    decreases n,
{
    if n > 0 {
        assert(without_capture(games, s, n - 1));
        lemma_quiet_moves_are_counted(games, boards, s, n - 1);
        assert(step_at(games, boards, s + n - 1));
        assert(games[s + n - 1].white_lost() == games[s].white_lost());
        assert(games[s + n].white_lost() == games[s].white_lost());
        games[s + n - 1].lemma_quiet_move(boards[s + n - 1], &games[s + n]);
    }
}

/// A game in which no marble is taken for 100 moves, 50 of each side, has ended:
/// by a draw, if no side had lost it before.
pub proof fn lemma_quiet_play_ends(games: Seq<AbaloneGame>, boards: Seq<Board>, s: int)
    requires
        played(games, boards),
        games[0].wf(),
        0 <= s,
        s + 100 < games.len(),
        without_capture(games, s, 100),
    ensures
        games[s + 100].ended(),
        games[s + 100].white_lost() < LOSS_DEFEAT && games[s + 100].black_lost() < LOSS_DEFEAT
            ==> games[s + 100].outcome() == DRAW,
{
    games[0].lemma_wf();
    lemma_clock_agrees(games, boards, s + 100);
    lemma_quiet_moves_are_counted(games, boards, s, 100);
    assert(step_at(games, boards, s + 99));
    games[s + 99].lemma_move_decides(boards[s + 99], &games[s + 100]);
    assert(games[s + 100].quiet_turns() >= NOLOSS_DRAW);
}

/// A game that is not decided goes on through fewer than 100 moves without a
/// capture, as long as no position occurs for the third time: the draw clock
/// ends it with the hundredth move and not before.
pub proof fn lemma_quiet_play_goes_on(games: Seq<AbaloneGame>, boards: Seq<Board>, n: int)
    requires
        played(games, boards),
        games[0].wf(),
        !games[0].ended(),
        games[0].quiet_moves() == 0,
        0 <= n < 100,
        n < games.len(),
        without_capture(games, 0, n),
        forall|i: int|
            0 < i <= n ==> (#[trigger] games[i]).repetitions(games[i].position()) < REPS_TO_DRAW,
    ensures
        !games[n].ended(),
        games[n].outcome() == UNDECIDED,
        games[n].quiet_moves() == n,
    decreases n,
{
    games[0].lemma_wf();
    if n > 0 {
        assert(without_capture(games, 0, n - 1));
        lemma_quiet_play_goes_on(games, boards, n - 1);
        lemma_clock_agrees(games, boards, n);
        assert(step_at(games, boards, n - 1));
        assert(games[n - 1].white_lost() == games[0].white_lost());
        assert(games[n].white_lost() == games[0].white_lost());
        games[n - 1].lemma_quiet_move(boards[n - 1], &games[n]);
        games[n - 1].lemma_move_decides(boards[n - 1], &games[n]);
        assert(games[n].repetitions(games[n].position()) < REPS_TO_DRAW);
    }
}

/// A game that has ended stays ended.
proof fn lemma_ended_stays(games: Seq<AbaloneGame>, boards: Seq<Board>, i: int, j: int)
    requires
        played(games, boards),
        games[0].ended() == (games[0].outcome() != UNDECIDED),
        0 <= i <= j < games.len(),
        games[i].ended(),
    ensures
        games[j].ended(),
    decreases j - i,
{
    if i < j {
        lemma_ended_stays(games, boards, i, j - 1);
        assert(step_at(games, boards, j - 1));
        games[j - 1].lemma_move_decides(boards[j - 1], &games[j]);
        if j - 1 > 0 {
            assert(step_at(games, boards, j - 2));
            games[j - 2].lemma_move_decides(boards[j - 2], &games[j - 1]);
        }
    }
}

/// The first of the `n` moves from the game with the number `s` that takes a
/// marble, by the number of the game after it; -1 where none of them takes one.
proof fn lemma_first_capture(games: Seq<AbaloneGame>, boards: Seq<Board>, s: int, n: int) -> (j:
    int)
    requires
        played(games, boards),
        0 <= s,
        0 <= n,
        s + n < games.len(),
    ensures
        j == -1 || s < j <= s + n,
        j == -1 ==> without_capture(games, s, n),
        j != -1 ==> total_lost(games[j]) > total_lost(games[s]),
    decreases n,
{
    if n == 0 {
        -1
    } else {
        let before = lemma_first_capture(games, boards, s, n - 1);
        if before != -1 {
            before
        } else {
            let last = s + n;
            assert(step_at(games, boards, last - 1));
            games[last - 1].lemma_losses_only_grow(boards[last - 1], &games[last]);
            assert(games[last - 1].white_lost() == games[s].white_lost());
            assert(games[last - 1].black_lost() == games[s].black_lost());
            if games[last].white_lost() == games[s].white_lost() && games[last].black_lost()
                == games[s].black_lost() {
                -1
            } else {
                last
            }
        }
    }
}

/// A game has ended after 100 moves for each marble that the two sides can lose
/// in all before one of them has lost six.
proof fn lemma_play_ends_from(games: Seq<AbaloneGame>, boards: Seq<Board>, s: int, budget: int)
    requires
        played(games, boards),
        games[0].wf(),
        0 <= s,
        0 <= budget,
        total_lost(games[s]) + budget >= 11,
        s + 100 * budget < games.len(),
    ensures
        games[s + 100 * budget].ended(),
    decreases budget,
{
    games[0].lemma_wf();
    if s > 0 {
        assert(step_at(games, boards, s - 1));
        games[s - 1].lemma_move_decides(boards[s - 1], &games[s]);
    }
    if games[s].ended() {
        lemma_ended_stays(games, boards, s, s + 100 * budget);
    } else {
        // neither side has lost six marbles: another marble can be lost
        assert(games[s].white_lost() < LOSS_DEFEAT && games[s].black_lost() < LOSS_DEFEAT);
        assert(budget >= 1);
        let j = lemma_first_capture(games, boards, s, 100);
        if j == -1 {
            lemma_quiet_play_ends(games, boards, s);
            lemma_ended_stays(games, boards, s + 100, s + 100 * budget);
        } else {
            lemma_play_ends_from(games, boards, j, budget - 1);
            lemma_ended_stays(games, boards, j + 100 * (budget - 1), s + 100 * budget);
        }
    }
}

/// Every game has ended after 1100 moves: no side can lose a sixth marble without
/// losing the game, and 100 moves without a capture end it.
pub proof fn lemma_play_ends(games: Seq<AbaloneGame>, boards: Seq<Board>)
    requires
        played(games, boards),
        games[0].wf(),
        boards.len() >= 1100,
    ensures
        games[1100].ended(),
{
    games[0].lemma_wf();
    lemma_play_ends_from(games, boards, 0, 11);
}

} // verus!
