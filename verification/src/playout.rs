//! One simulation: a game played on from a move of the root position until it
//! ends or a given number of moves is made, and the value of where it stops.
//! The moves are chosen outside; here is what is decided in between.

use vstd::prelude::*;
use crate::board::{valid_board, Board};
use crate::distribution::MoveDistribution;
use crate::game::{bumped, paired, AbaloneGame, BLACK_WINS, DRAW, UNDECIDED, WHITE_WINS};
use crate::moves::legal_moves;
use crate::search::{SearchTask, VALUE_LIMIT};

verus! {

/// The value of a won game. A rating of the oracle is a number of this size at most.
pub const RATING_UNIT: i64 = 1000000;

/// The value of the position in which a simulation stops, for the side that
/// was to move at the root. A game that has ended counts by its result, a win
/// of white as `RATING_UNIT`. One that has not counts by `rating`, the rating
/// of the position for the side to move in it. Both are values for white
/// first, and are turned round where black was to move at the root.
pub open spec fn leaf_value_of(
    ended: bool,
    outcome: i8,
    leaf_black_to_move: bool,
    rating: i32,
    root_black_to_move: bool,
) -> int {
    let for_white = if ended {
        outcome * RATING_UNIT
    } else if leaf_black_to_move {
        -rating
    } else {
        rating as int
    };
    if root_black_to_move {
        -for_white
    } else {
        for_white
    }
}

/// The value of the position of `game` for the side that was to move at the root,
/// where `rating` is the rating of the position for the side to move in it.
pub fn leaf_value(game: &AbaloneGame, rating: i32, root_black_to_move: bool) -> (value: i64)
    requires
        game.wf(),
    ensures
        value == leaf_value_of(
            game.ended(),
            game.outcome(),
            game.black_to_move(),
            rating,
            root_black_to_move,
        ),
        -VALUE_LIMIT <= value <= VALUE_LIMIT,
{
    proof {
        game.lemma_wf();
    }
    let for_white: i64 = if game.get_game_ended() {
        let outcome = game.get_game_result();
        if outcome == WHITE_WINS {
            RATING_UNIT
        } else if outcome == BLACK_WINS {
            -RATING_UNIT
        } else {
            0
        }
    } else if game.get_black_tomove() {
        -(rating as i64)
    } else {
        rating as i64
    };
    if root_black_to_move {
        -for_white
    } else {
        for_white
    }
}

/// A simulation that is under way.
pub struct Playout {
    game: AbaloneGame,
    candidate: usize,
    root_black: bool,
    depth: usize,
    moves_performed: usize,
}

/// What a simulation needs next.
pub enum PlayoutStep {
    /// The game goes on: one of the listed moves is to be chosen for the position
    /// `board`, which is seen from the side to move.
    Move { board: Board, move_ids: Vec<usize> },
    /// The simulation has made its moves: the position `board`, seen from the side
    /// to move, is to be rated.
    Rate { board: Board },
    /// The game has ended, with this value for the side that was to move at the root.
    Done { value: i64 },
}

impl Playout {
    /// The game of the simulation.
    pub closed spec fn game(&self) -> AbaloneGame {
        self.game
    }

    /// The number in the list of the root of the move that the simulation began with.
    pub closed spec fn candidate(&self) -> usize {
        self.candidate
    }

    /// Whether black was to move at the root.
    pub closed spec fn root_black(&self) -> bool {
        self.root_black
    }

    /// The number of moves after which the position is rated; 0 where the game is
    /// played to its end.
    pub closed spec fn depth(&self) -> usize {
        self.depth
    }

    /// The number of moves made after the first.
    pub closed spec fn moves_performed(&self) -> usize {
        self.moves_performed
    }

    /// Whether the simulation has made the moves that it was given.
    pub open spec fn at_depth(&self) -> bool {
        self.depth() != 0 && self.moves_performed() == self.depth()
    }

    /// Begins the simulation of a task: makes the move of the task on its game.
    pub fn start(task: SearchTask, depth: usize) -> (playout: Playout)
        requires
            task.game.wf(),
            valid_board(task.board),
        ensures
            playout.game().wf(),
            task.game.moved(task.board, &playout.game()),
            playout.candidate() == task.candidate,
            playout.root_black() == task.game.black_to_move(),
            playout.depth() == depth,
            playout.moves_performed() == 0,
    {
        let mut game = task.game;
        let root_black = game.get_black_tomove();
        game.update_state(task.board);
        Playout { game, candidate: task.candidate, root_black, depth, moves_performed: 0 }
    }

    /// The number in the list of the root of the move that the simulation began with.
    pub fn get_candidate(&self) -> (candidate: usize)
        ensures
            candidate == self.candidate(),
    {
        self.candidate
    }

    /// What the simulation needs next. A game that has ended is done and has its
    /// value. One that has made its moves is to be rated. Any other goes on: its
    /// legal moves are listed.
    pub fn next_step(&mut self) -> (step: PlayoutStep)
        requires
            old(self).game().wf(),
        ensures
            final(self).game().wf(),
            final(self).game().same_state(&old(self).game()),
            final(self).candidate() == old(self).candidate(),
            final(self).root_black() == old(self).root_black(),
            final(self).depth() == old(self).depth(),
            final(self).moves_performed() == old(self).moves_performed(),
            match step {
                PlayoutStep::Done { value } => {
                    &&& old(self).game().ended()
                    &&& value == leaf_value_of(
                        true,
                        old(self).game().outcome(),
                        old(self).game().black_to_move(),
                        0,
                        old(self).root_black(),
                    )
                    &&& final(self).game().children() == old(self).game().children()
                },
                PlayoutStep::Rate { board } => {
                    &&& !old(self).game().ended()
                    &&& old(self).at_depth()
                    &&& board == old(self).game().pov()
                    &&& final(self).game().children() == old(self).game().children()
                },
                PlayoutStep::Move { board, move_ids } => {
                    &&& !old(self).game().ended()
                    &&& !old(self).at_depth()
                    &&& board == old(self).game().pov()
                    &&& move_ids@.len() == final(self).game().children().len()
                    &&& paired(move_ids@, final(self).game().children()) == legal_moves(board)
                },
            },
    {
        if self.game.get_game_ended() {
            let value = leaf_value(&self.game, 0, self.root_black);
            PlayoutStep::Done { value }
        } else if self.depth != 0 && self.moves_performed == self.depth {
            PlayoutStep::Rate { board: self.game.get_rotated_state() }
        } else {
            let (board, move_ids) = self.game.calc_reasonalbe_moves();
            PlayoutStep::Move { board, move_ids }
        }
    }

    /// Makes the move with the number `index` of the list.
    pub fn advance(&mut self, index: usize)
        requires
            old(self).game().wf(),
            index < old(self).game().children().len(),
        ensures
            final(self).game().wf(),
            old(self).game().moved(old(self).game().children()[index as int], &final(self).game()),
            final(self).moves_performed() == bumped(old(self).moves_performed()),
            final(self).candidate() == old(self).candidate(),
            final(self).root_black() == old(self).root_black(),
            final(self).depth() == old(self).depth(),
    {
        self.game.update_by_id(index);
        if self.moves_performed < usize::MAX {
            self.moves_performed += 1;
        }
    }

    /// Makes a move drawn from `distr`, a distribution over the listed moves.
    /// Returns the number of the move in the list.
    pub fn advance_by(&mut self, distr: &MoveDistribution) -> (index: usize)
        requires
            old(self).game().wf(),
            distr.wf(),
            distr.weights().len() == old(self).game().children().len(),
        ensures
            final(self).game().wf(),
            index < old(self).game().children().len(),
            distr.weights()[index as int] > 0,
            old(self).game().moved(old(self).game().children()[index as int], &final(self).game()),
            final(self).moves_performed() == bumped(old(self).moves_performed()),
            final(self).candidate() == old(self).candidate(),
            final(self).root_black() == old(self).root_black(),
            final(self).depth() == old(self).depth(),
    {
        let index = distr.sample();
        self.advance(index);
        index
    }

    /// The value of the simulation where it stops with a position that the oracle
    /// has rated `rating` for the side to move.
    pub fn rated(&self, rating: i32) -> (value: i64)
        requires
            self.game().wf(),
        ensures
            value == leaf_value_of(
                self.game().ended(),
                self.game().outcome(),
                self.game().black_to_move(),
                rating,
                self.root_black(),
            ),
            -VALUE_LIMIT <= value <= VALUE_LIMIT,
    {
        leaf_value(&self.game, rating, self.root_black)
    }
}

} // verus!
