use rand::Rng;
use rustai_abalone::game::{AbaloneGame, Board, BELGIAN_DAISY, EMPTY_BOARD};

const MIXED: Board = [
    [3, 3, 3, 3, 3, 3, 3, 3, 3, 3, 3],
    [3, 3, 3, 3, 3, 0, 0, 0, 2, 0, 3],
    [3, 3, 3, 3, 1, 1, 1, 2, 2, 2, 3],
    [3, 3, 3, 0, 1, 2, 2, 0, 2, 0, 3],
    [3, 3, 0, 0, 0, 1, 0, 0, 1, 0, 3],
    [3, 0, 0, 0, 0, 0, 0, 0, 1, 0, 3],
    [3, 0, 2, 0, 0, 0, 1, 0, 0, 3, 3],
    [3, 0, 2, 2, 0, 1, 1, 0, 3, 3, 3],
    [3, 1, 2, 2, 2, 1, 1, 3, 3, 3, 3],
    [3, 2, 1, 0, 0, 0, 3, 3, 3, 3, 3],
    [3, 3, 3, 3, 3, 3, 3, 3, 3, 3, 3],
];

#[test]
fn test_abalone_game() {
    // change board to something with all possibilities
    let board = [
        [3, 3, 3, 3, 3, 3, 3, 3, 3, 3, 3],
        [3, 3, 3, 3, 3, 0, 0, 0, 2, 0, 3],
        [3, 3, 3, 3, 1, 1, 1, 2, 2, 2, 3],
        [3, 3, 3, 0, 1, 2, 2, 0, 2, 0, 3],
        [3, 3, 0, 0, 0, 1, 0, 0, 1, 0, 3],
        [3, 0, 0, 0, 0, 0, 0, 0, 1, 0, 3],
        [3, 0, 2, 0, 0, 0, 1, 0, 0, 3, 3],
        [3, 0, 2, 2, 0, 1, 1, 0, 3, 3, 3],
        [3, 1, 2, 2, 2, 1, 1, 3, 3, 3, 3],
        [3, 2, 1, 0, 0, 0, 3, 3, 3, 3, 3],
        [3, 3, 3, 3, 3, 3, 3, 3, 3, 3, 3],
    ];
    // create
    let mut abalone = AbaloneGame::new(board);
    // receive the calculated next moves
    let (_state, move_ids) = abalone.calc_reasonalbe_moves();

    assert!(!move_ids.is_empty());

    // get next position and assert, that there are as many positions as move IDs
    let next_pos = abalone.get_next_position(move_ids.len() - 1);

    // check whether update works
    abalone.update_state(next_pos);

    // create copy for mcts
    let leaf_copy = abalone.mcts_copy();

    // get state for mcts initializing
    let state = abalone.get_rotated_state();
    let leaf_state = leaf_copy.get_rotated_state();

    // check whether copy gives the same
    assert_eq!(state, leaf_state);

    let game_end = abalone.get_game_ended();
    assert!(!game_end);

    abalone.calc_reasonalbe_moves();
    let next_pos = abalone.get_next_position(0);
    abalone.update_state(next_pos);
}

#[test]
fn test_game_end() {
    let mut abalone = AbaloneGame::new(BELGIAN_DAISY);
    let mut moves_performed: usize = 0;
    loop {
        let (_, move_ids) = abalone.calc_reasonalbe_moves();
        let num = rand::thread_rng().gen_range(0..move_ids.len());
        let next_pos = abalone.get_next_position(num);
        abalone.update_state(next_pos);
        moves_performed += 1;
        if moves_performed >= 600 {
            panic!("The game somehow did not end");
        }
        let game_ended = abalone.get_game_ended();
        if game_ended {
            println!("Loop, game ended = {game_ended}");
            break;
        }
    }
    let game_ended = abalone.get_game_ended();
    let game_result = abalone.get_game_result();
    println!("game ended = {game_ended} - game result = {game_result}");
    assert_ne!(game_result, 10);
    assert!(game_ended);
}

#[test]
fn the_opening_has_fourteen_marbles_a_side() {
    assert_eq!(AbaloneGame::count_marbles(BELGIAN_DAISY, 2), 14);
    assert_eq!(AbaloneGame::count_marbles(BELGIAN_DAISY, 1), 14);
    assert_eq!(AbaloneGame::count_marbles(BELGIAN_DAISY, 0), 33);
    assert_eq!(AbaloneGame::count_marbles(BELGIAN_DAISY, 3), 60);
    assert_eq!(AbaloneGame::count_marbles(EMPTY_BOARD, 0), 61);
    assert_eq!(AbaloneGame::count_marbles(EMPTY_BOARD, 7), 0);
}

#[test]
fn coordinates_by_type_come_in_reading_order() {
    let (blacks, whites, empties) = AbaloneGame::coords_by_type(BELGIAN_DAISY);
    assert_eq!(blacks.len(), 14);
    assert_eq!(whites.len(), 14);
    assert_eq!(empties.len(), 33);
    assert_eq!((blacks[0].x, blacks[0].y), (1, 8));
    assert_eq!((blacks[13].x, blacks[13].y), (9, 2));
    assert_eq!((whites[0].x, whites[0].y), (1, 5));
    assert_eq!((whites[2].x, whites[2].y), (2, 4));
    assert_eq!((empties[0].x, empties[0].y), (1, 7));
    let game = AbaloneGame::new(BELGIAN_DAISY);
    let (b2, w2, e2) = game.get_coords_by_type();
    assert_eq!(b2, blacks);
    assert_eq!(w2, whites);
    assert_eq!(e2, empties);
}

#[test]
fn validation_accepts_the_known_boards() {
    assert!(AbaloneGame::validate_board(BELGIAN_DAISY));
    assert!(AbaloneGame::validate_board(EMPTY_BOARD));
    assert!(AbaloneGame::validate_board(MIXED));
}

#[test]
fn validation_rejects_a_broken_frame() {
    let mut board = BELGIAN_DAISY;
    board[0][0] = 0;
    assert!(!AbaloneGame::validate_board(board));
    let mut board = BELGIAN_DAISY;
    board[5][5] = 3;
    assert!(!AbaloneGame::validate_board(board));
    let mut board = BELGIAN_DAISY;
    board[1][4] = 1;
    assert!(!AbaloneGame::validate_board(board));
}

#[test]
fn validation_rejects_values_above_a_black_marble() {
    let mut board = BELGIAN_DAISY;
    board[5][5] = 4;
    assert!(!AbaloneGame::validate_board(board));
    let mut board = BELGIAN_DAISY;
    board[5][5] = 127;
    assert!(!AbaloneGame::validate_board(board));
    let mut board = BELGIAN_DAISY;
    board[0][0] = 4;
    assert!(!AbaloneGame::validate_board(board));
}

#[test]
fn validation_accepts_values_below_an_empty_cell_inside_the_hexagon() {
    let mut board = EMPTY_BOARD;
    board[5][5] = -1;
    assert!(AbaloneGame::validate_board(board));
    let mut board = BELGIAN_DAISY;
    board[4][4] = -128;
    assert!(AbaloneGame::validate_board(board));
    // outside the hexagon nothing but the off-board value is accepted
    let mut board = BELGIAN_DAISY;
    board[0][0] = -1;
    assert!(!AbaloneGame::validate_board(board));
}

#[test]
fn a_cell_with_another_value_is_in_the_way_of_every_move() {
    let mut board = EMPTY_BOARD;
    board[5] = [3, 2, 2, -1, 0, 0, 0, 0, 0, 0, 3];
    let mut game = AbaloneGame::new(board);
    let (pov, ids) = game.calc_reasonalbe_moves();
    assert_eq!(pov, AbaloneGame::rotate_board(board));
    assert_eq!(pov[5], [3, 0, 0, 0, 0, 0, 0, -1, 1, 1, 3]);
    for i in 0..ids.len() {
        let next = game.get_next_position(i);
        assert_eq!(next[5][7], -1);
        assert!(AbaloneGame::validate_board(next));
    }
    // the two marbles do not move in line towards the cell, nor push it
    let row =
        game.calc_coord_moves(vec![rustai_abalone::game::Coord::new(5, 1), rustai_abalone::game::Coord::new(5, 2)]);
    assert!(row.iter().all(|m| m.0 != rustai_abalone::game::MarbleMove::new(0, 1)));
    assert!(row.iter().any(|m| m.0 == rustai_abalone::game::MarbleMove::new(1, 0)));
}

#[test]
fn validation_rejects_a_fifteenth_marble() {
    let mut board = BELGIAN_DAISY;
    board[5][5] = 1;
    assert!(!AbaloneGame::validate_board(board));
    let mut board = BELGIAN_DAISY;
    board[5][5] = 2;
    assert!(!AbaloneGame::validate_board(board));
}

#[test]
fn rotating_twice_gives_the_board_back() {
    for board in [BELGIAN_DAISY, EMPTY_BOARD, MIXED] {
        let once = AbaloneGame::rotate_board(board);
        assert_eq!(AbaloneGame::rotate_board(once), board);
    }
}

#[test]
fn rotation_turns_the_board_and_swaps_the_colours() {
    let turned = AbaloneGame::rotate_board(MIXED);
    let expected: Board = [
        [3, 3, 3, 3, 3, 3, 3, 3, 3, 3, 3],
        [3, 3, 3, 3, 3, 0, 0, 0, 2, 1, 3],
        [3, 3, 3, 3, 2, 2, 1, 1, 1, 2, 3],
        [3, 3, 3, 0, 2, 2, 0, 1, 1, 0, 3],
        [3, 3, 0, 0, 2, 0, 0, 0, 1, 0, 3],
        [3, 0, 2, 0, 0, 0, 0, 0, 0, 0, 3],
        [3, 0, 2, 0, 0, 2, 0, 0, 0, 3, 3],
        [3, 0, 1, 0, 1, 1, 2, 0, 3, 3, 3],
        [3, 1, 1, 1, 2, 2, 2, 3, 3, 3, 3],
        [3, 0, 1, 0, 0, 0, 3, 3, 3, 3, 3],
        [3, 3, 3, 3, 3, 3, 3, 3, 3, 3, 3],
    ];
    assert_eq!(turned, expected);
}

#[test]
fn switching_swaps_the_colours_in_place() {
    let other = AbaloneGame::switch_colors(BELGIAN_DAISY);
    for x in 0..11 {
        for y in 0..11 {
            let expected = match BELGIAN_DAISY[x][y] {
                1 => 2,
                2 => 1,
                v => v,
            };
            assert_eq!(other[x][y], expected);
        }
    }
    assert_eq!(AbaloneGame::switch_colors(other), BELGIAN_DAISY);
}

#[test]
fn a_new_game_starts_with_black_and_no_loss() {
    let game = AbaloneGame::new(BELGIAN_DAISY);
    assert!(game.get_black_tomove());
    assert!(!game.get_game_ended());
    assert_eq!(game.get_game_result(), 10);
    assert_eq!(game.get_black_white_loss(), (0, 0));
    assert_eq!(game.get_state(), BELGIAN_DAISY);
    assert_eq!(game.get_rotated_state(), AbaloneGame::rotate_board(BELGIAN_DAISY));
    assert_eq!(game.get_switched_state(), AbaloneGame::switch_colors(BELGIAN_DAISY));
}

#[test]
fn no_game_is_made_of_a_board_that_is_not_valid() {
    let mut board = BELGIAN_DAISY;
    board[0][3] = 1;
    assert!(AbaloneGame::try_new(board).is_err());
    let mut board = BELGIAN_DAISY;
    board[5][5] = 2;
    assert!(AbaloneGame::try_new(board).is_err());
    let game = AbaloneGame::try_new(MIXED).ok().unwrap();
    assert_eq!(game.get_state(), MIXED);
    assert!(game.get_black_tomove());
    assert_eq!(game.get_black_white_loss(), (0, 0));
}

#[test]
fn a_new_game_on_a_board_with_six_marbles_missing_is_over() {
    let mut board = BELGIAN_DAISY;
    for (x, y) in [(1, 5), (1, 6), (2, 4), (2, 5), (2, 6), (3, 4)] {
        board[x][y] = 0;
    }
    let game = AbaloneGame::new(board);
    assert!(game.get_game_ended());
    assert_eq!(game.get_game_result(), -1);
    assert_eq!(game.get_black_white_loss(), (0, 6));
    let mut board = BELGIAN_DAISY;
    for (x, y) in [(1, 8), (1, 9), (2, 7), (2, 8), (2, 9), (3, 7)] {
        board[x][y] = 0;
    }
    let game = AbaloneGame::new(board);
    assert!(game.get_game_ended());
    assert_eq!(game.get_game_result(), 1);
    assert_eq!(game.get_black_white_loss(), (6, 0));
}

#[test]
fn the_opening_has_fifty_two_moves() {
    let mut game = AbaloneGame::new(BELGIAN_DAISY);
    let (pov, ids) = game.calc_reasonalbe_moves();
    assert_eq!(pov, AbaloneGame::rotate_board(BELGIAN_DAISY));
    assert_eq!(ids.len(), 52);
    assert_eq!(&ids[..12], &[625, 595, 575, 875, 1215, 885, 600, 930, 931, 870, 1200, 1203]);
    assert_eq!(&ids[49..], &[2750, 3010, 3040]);
    let first = game.get_next_position(0);
    assert_eq!(first[1], [3, 3, 3, 3, 3, 2, 2, 1, 1, 0, 3]);
    assert_eq!(first[2], [3, 3, 3, 3, 2, 2, 2, 1, 1, 1, 3]);
    assert_eq!(first[3], [3, 3, 3, 0, 2, 2, 0, 1, 1, 0, 3]);
    let last = game.get_next_position(51);
    assert_eq!(last[9], [3, 1, 0, 1, 2, 2, 3, 3, 3, 3, 3]);
    assert_eq!(last[8], [3, 1, 1, 1, 2, 2, 2, 3, 3, 3, 3]);
}

#[test]
fn every_listed_move_has_its_own_id_below_the_limit() {
    let mut game = AbaloneGame::new(MIXED);
    let (_, ids) = game.calc_reasonalbe_moves();
    assert_eq!(ids.len(), 55);
    assert_eq!(&ids[..12], &[840, 855, 860, 925, 875, 1215, 885, 888, 880, 850, 1245, 1575]);
    assert_eq!(&ids[52..], &[2746, 3040, 3055]);
    for (i, a) in ids.iter().enumerate() {
        assert!(*a < rustai_abalone::moves::MOVE_ID_LIMIT);
        for b in &ids[i + 1..] {
            assert_ne!(a, b);
        }
    }
}

#[test]
fn listed_moves_keep_the_board_valid_and_the_marbles_of_the_mover() {
    let mut game = AbaloneGame::new(MIXED);
    let (pov, ids) = game.calc_reasonalbe_moves();
    let own = AbaloneGame::count_marbles(pov, 1);
    let other = AbaloneGame::count_marbles(pov, 2);
    let mut pushed_off = 0;
    for i in 0..ids.len() {
        let next = game.get_next_position(i);
        assert!(AbaloneGame::validate_board(next));
        assert_eq!(AbaloneGame::count_marbles(next, 1), own);
        let left = AbaloneGame::count_marbles(next, 2);
        assert!(left == other || left + 1 == other);
        if left + 1 == other {
            pushed_off += 1;
        }
    }
    assert_eq!(pushed_off, 5);
}

#[test]
fn every_opening_move_can_be_made_and_followed() {
    let mut game = AbaloneGame::new(BELGIAN_DAISY);
    let (_, ids) = game.calc_reasonalbe_moves();
    assert!(!ids.is_empty());
    for i in 0..ids.len() {
        let mut copy = game.mcts_copy();
        copy.update_state(game.get_next_position(i));
        assert!(!copy.get_black_tomove());
        let (_, replies) = copy.calc_reasonalbe_moves();
        assert!(!replies.is_empty());
    }
}

#[test]
fn update_by_id_makes_the_listed_move() {
    let mut a = AbaloneGame::new(BELGIAN_DAISY);
    let mut b = AbaloneGame::new(BELGIAN_DAISY);
    a.calc_reasonalbe_moves();
    b.calc_reasonalbe_moves();
    let next = a.get_next_position(7);
    a.update_state(next);
    b.update_by_id(7);
    assert_eq!(a.get_state(), b.get_state());
    assert_eq!(a.get_state(), AbaloneGame::rotate_board(next));
    assert_eq!(a.get_black_tomove(), b.get_black_tomove());
}

#[test]
fn a_capture_is_counted_for_the_side_that_lost_the_marble() {
    let mut game = AbaloneGame::new(MIXED);
    let (pov, ids) = game.calc_reasonalbe_moves();
    let other = AbaloneGame::count_marbles(pov, 2);
    let capture = (0..ids.len())
        .find(|i| AbaloneGame::count_marbles(game.get_next_position(*i), 2) + 1 == other)
        .unwrap();
    game.update_by_id(capture);
    // black moved first and pushed a white marble off
    assert_eq!(game.get_black_white_loss(), (0, 1));
    assert!(!game.get_game_ended());
}

/// Hands `target`, a board as it stands on the table, to the game.
fn put_on_table(game: &mut AbaloneGame, target: Board) {
    let given = if game.get_black_tomove() { AbaloneGame::rotate_board(target) } else { target };
    game.update_state(given);
    assert_eq!(game.get_state(), target);
}

#[test]
fn the_third_occurrence_of_a_position_is_a_draw() {
    let mut game = AbaloneGame::new(BELGIAN_DAISY);
    let away = {
        let mut b = BELGIAN_DAISY;
        b[3][4] = 0;
        b[3][3] = 1;
        b
    };
    // the position of the start is not counted before it is reached by a move
    for target in [away, BELGIAN_DAISY, away, BELGIAN_DAISY] {
        put_on_table(&mut game, target);
        assert!(!game.get_game_ended());
        assert_eq!(game.get_game_result(), 10);
    }
    put_on_table(&mut game, away);
    assert!(game.get_game_ended());
    assert_eq!(game.get_game_result(), 0);
}

/// The opening with two white marbles moved to the empty cells number `i` and `j`.
fn displaced(i: usize, j: usize) -> Board {
    let mut empties = Vec::new();
    for x in 1..10 {
        for y in 1..10 {
            if BELGIAN_DAISY[x][y] == 0 {
                empties.push((x, y));
            }
        }
    }
    let mut b = BELGIAN_DAISY;
    b[3][4] = 0;
    b[3][5] = 0;
    b[empties[i].0][empties[i].1] = 1;
    b[empties[j].0][empties[j].1] = 1;
    b
}

#[test]
fn fifty_quiet_turns_are_a_draw() {
    let mut game = AbaloneGame::new(BELGIAN_DAISY);
    // positions that differ from each other, none with a capture
    for k in 0..99usize {
        let i = k % 33;
        let j = (i + 1 + k / 33) % 33;
        put_on_table(&mut game, displaced(i, j));
        assert!(!game.get_game_ended(), "ended after {} moves", k + 1);
        assert_eq!(game.get_game_result(), 10);
    }
    // each side has made 49 moves and black one more: the fiftieth move of white
    // is the hundredth of the game and ends it
    put_on_table(&mut game, displaced(1, 5));
    assert!(game.get_game_ended());
    assert_eq!(game.get_game_result(), 0);
    assert_eq!(game.get_black_white_loss(), (0, 0));
}

/// Makes `n` moves without a capture on `game`, with a black marble less on the
/// board where `hit` holds; none of them may end the game.
fn quiet_moves(game: &mut AbaloneGame, n: usize, hit: bool) {
    for k in 0..n {
        let i = k % 33;
        let j = (i + 1 + k / 33) % 33;
        let mut b = displaced(i, j);
        if hit {
            b[9][1] = 0;
        }
        put_on_table(game, b);
        assert!(!game.get_game_ended(), "ended after {} quiet moves", k + 1);
    }
}

#[test]
fn a_capture_sets_the_clock_back() {
    // the capture comes with a move of white, and with a move of black
    for before in [99usize, 98, 1, 0] {
        let mut game = AbaloneGame::new(BELGIAN_DAISY);
        quiet_moves(&mut game, before, false);
        // black has a marble less: the clock starts again
        let mut hit = displaced(1, 5);
        hit[9][1] = 0;
        put_on_table(&mut game, hit);
        assert!(!game.get_game_ended());
        assert_eq!(game.get_black_white_loss(), (1, 0));
        // whoever made the capture, the hundredth move after it ends the game
        quiet_moves(&mut game, 99, true);
        let mut b = displaced(2, 7);
        b[9][1] = 0;
        put_on_table(&mut game, b);
        assert!(game.get_game_ended());
        assert_eq!(game.get_game_result(), 0);
    }
}

#[test]
fn the_losses_of_both_sides_in_one_move_are_counted() {
    let mut game = AbaloneGame::new(BELGIAN_DAISY);
    let mut board = BELGIAN_DAISY;
    board[9][1] = 0;
    board[1][5] = 0;
    put_on_table(&mut game, board);
    assert_eq!(game.get_black_white_loss(), (1, 1));
    board[9][2] = 0;
    put_on_table(&mut game, board);
    assert_eq!(game.get_black_white_loss(), (2, 1));
    board[1][6] = 0;
    board[2][4] = 0;
    board[8][1] = 0;
    put_on_table(&mut game, board);
    assert_eq!(game.get_black_white_loss(), (3, 3));
    assert!(!game.get_game_ended());
}

#[test]
fn the_sixth_lost_marble_decides_the_game() {
    let mut game = AbaloneGame::new(BELGIAN_DAISY);
    let mut board = BELGIAN_DAISY;
    let blacks = [(1, 8), (1, 9), (2, 7), (2, 8), (2, 9), (3, 7)];
    for (n, (x, y)) in blacks.iter().enumerate() {
        assert!(!game.get_game_ended());
        board[*x][*y] = 0;
        put_on_table(&mut game, board);
        assert_eq!(game.get_black_white_loss(), (n as u8 + 1, 0));
    }
    assert!(game.get_game_ended());
    assert_eq!(game.get_game_result(), 1);
}

#[test]
fn ending_the_game_by_hand_takes_only_the_three_results() {
    let mut game = AbaloneGame::new(BELGIAN_DAISY);
    game.end_with_result(2);
    assert!(!game.get_game_ended());
    assert_eq!(game.get_game_result(), 10);
    game.end_with_result(-2);
    assert!(!game.get_game_ended());
    game.end_with_result(1);
    assert!(game.get_game_ended());
    assert_eq!(game.get_game_result(), 1);
    game.end_with_result(0);
    assert_eq!(game.get_game_result(), 0);
    game.end_with_result(-1);
    assert_eq!(game.get_game_result(), -1);
}

#[test]
fn a_copy_for_simulation_is_independent_of_the_game() {
    let mut game = AbaloneGame::new(BELGIAN_DAISY);
    game.calc_reasonalbe_moves();
    let mut copy = game.mcts_copy();
    copy.calc_reasonalbe_moves();
    copy.update_by_id(0);
    assert_eq!(game.get_state(), BELGIAN_DAISY);
    assert!(game.get_black_tomove());
    assert!(!copy.get_black_tomove());
    assert_ne!(copy.get_state(), BELGIAN_DAISY);
}
