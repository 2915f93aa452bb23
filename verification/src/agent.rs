//! What an agent decides around a search: how a move from outside enters its
//! game, how the move that a search has chosen is made, and how a position is
//! laid out for the oracle that rates it.

use vstd::prelude::*;
use crate::board::{cell_at, get_cell, on_grid, rotated, valid_board, Board, lemma_perspective_keeps_valid};
use crate::game::AbaloneGame;
use crate::search::{is_choice, ResultAccumulator};

verus! {

/// The board `new_state` from the point of view of the side to move: boards that
/// are not given from that point of view are rotated where black is to move.
pub open spec fn as_pov(black_to_move: bool, new_state: Board, receive_pov: bool) -> Board {
    if !receive_pov && black_to_move {
        rotated(new_state)
    } else {
        new_state
    }
}

/// Makes a move that comes from outside: `new_state` is the position after it,
/// from the point of view of the side to move where `receive_pov` holds, and as
/// it stands on the table where not. A game that has ended takes no move. Returns
/// whether the move was made.
pub fn external_move(game: &mut AbaloneGame, new_state: Board, receive_pov: bool) -> (made: bool)
    requires
        old(game).wf(),
        valid_board(new_state),
    ensures
        final(game).wf(),
        made == !old(game).ended(),
        made ==> old(game).moved(
            as_pov(old(game).black_to_move(), new_state, receive_pov),
            final(game),
        ),
        !made ==> *final(game) == *old(game),
{
    // do nothing if game has ended
    if game.get_game_ended() {
        return false;
    }
    let mut new_state = new_state;
    proof {
        lemma_perspective_keeps_valid(new_state);
    }
    // consider rotation
    if !receive_pov && game.get_black_tomove() {
        new_state = AbaloneGame::rotate_board(new_state);
    }
    game.update_state(new_state);
    true
}

/// Makes the move that a search has chosen: the move with the highest average
/// value among the listed moves of the game, the first of them where several have
/// it. Returns the position after the move, from the point of view of the side
/// that moved where `return_pov` holds, and as it stands on the table where not;
/// `None`, and no move, where no move had a visit.
pub fn own_move(game: &mut AbaloneGame, results: &ResultAccumulator, return_pov: bool) -> (chosen:
    Option<Board>)
    requires
        old(game).wf(),
        results.wf(),
        results.complete(),
        results.visits().len() == old(game).children().len(),
    ensures
        final(game).wf(),
        chosen.is_none() == (forall|j: int|
            0 <= j < results.visits().len() ==> results.visits()[j] == 0),
        chosen.is_none() ==> *final(game) == *old(game),
        chosen.is_some() ==> exists|r: int|
            {
                &&& #[trigger] is_choice(results.visits(), results.sums(), r)
                &&& old(game).moved(old(game).children()[r], final(game))
                &&& chosen.unwrap() == (if return_pov {
                    old(game).children()[r]
                } else {
                    final(game).position()
                })
            },
{
    match results.choose_next_move() {
        Some(r) => {
            let chosen_state = game.get_next_position(r);
            game.update_state(chosen_state);
            assert(is_choice(results.visits(), results.sums(), r as int));
            // chosen_state is from the point of view of the side that moved
            if return_pov {
                Some(chosen_state)
            } else {
                Some(game.get_state())
            }
        },
        None => None,
    }
}

/// Number of values that lay out one position for the oracle.
pub const PLANE_CELLS: usize = 484;

/// The place of the value `v` of cell `(x, y)` in the layout of a position.
pub open spec fn plane_index(x: int, y: int, v: int) -> int {
    (x * 11 + y) * 4 + v
}

/// The layout of a position for the oracle: four values for each cell of the
/// grid, in row-major order, of which the one at the place of the value of the
/// cell is 1 and the others are 0.
pub fn board_planes(board: &Board) -> (planes: Vec<u8>)
    requires
        forall|x: int, y: int| on_grid(x, y) ==> 0 <= #[trigger] cell_at(*board, x, y) <= 3,
    ensures
        planes.len() == PLANE_CELLS,
        forall|x: int, y: int, v: int|
            on_grid(x, y) && 0 <= v < 4 ==> #[trigger] planes[plane_index(x, y, v)] == (if cell_at(
                *board,
                x,
                y,
            ) == v {
                1u8
            } else {
                0u8
            }),
{
    let mut planes: Vec<u8> = Vec::new();
    for x in 0..11usize
        invariant
            planes.len() == 44 * x,
            forall|i: int, j: int| on_grid(i, j) ==> 0 <= #[trigger] cell_at(*board, i, j) <= 3,
            forall|i: int, j: int, v: int|
                0 <= i < x && 0 <= j < 11 && 0 <= v < 4 ==> #[trigger] planes[plane_index(i, j, v)]
                    == (if cell_at(*board, i, j) == v {
                    1u8
                } else {
                    0u8
                }),
    {
        for y in 0..11usize
            invariant
                x < 11,
                planes.len() == 44 * x + 4 * y,
                forall|i: int, j: int| on_grid(i, j) ==> 0 <= #[trigger] cell_at(*board, i, j) <= 3,
                forall|i: int, j: int, v: int|
                    0 <= i < x && 0 <= j < 11 && 0 <= v < 4 ==> #[trigger] planes[plane_index(
                        i,
                        j,
                        v,
                    )] == (if cell_at(*board, i, j) == v {
                        1u8
                    } else {
                        0u8
                    }),
                forall|j: int, v: int|
                    0 <= j < y && 0 <= v < 4 ==> #[trigger] planes[plane_index(x as int, j, v)]
                        == (if cell_at(*board, x as int, j) == v {
                        1u8
                    } else {
                        0u8
                    }),
        {
            let value = get_cell(board, x, y);
            for v in 0..4i8
                invariant
                    x < 11,
                    y < 11,
                    value == cell_at(*board, x as int, y as int),
                    planes.len() == 44 * x + 4 * y + v,
                    forall|i: int, j: int, w: int|
                        0 <= i < x && 0 <= j < 11 && 0 <= w < 4 ==> #[trigger] planes[plane_index(
                            i,
                            j,
                            w,
                        )] == (if cell_at(*board, i, j) == w {
                            1u8
                        } else {
                            0u8
                        }),
                    forall|j: int, w: int|
                        0 <= j < y && 0 <= w < 4 ==> #[trigger] planes[plane_index(x as int, j, w)]
                            == (if cell_at(*board, x as int, j) == w {
                            1u8
                        } else {
                            0u8
                        }),
                    forall|w: int|
                        0 <= w < v ==> #[trigger] planes[plane_index(x as int, y as int, w)] == (
                        if value == w {
                            1u8
                        } else {
                            0u8
                        }),
            {
                planes.push(if value == v { 1 } else { 0 });
            }
        }
    }
    planes
}

} // verus!
