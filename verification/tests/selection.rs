use rustai_abalone::game::{AbaloneGame, Board, Coord, MarbleMove, BELGIAN_DAISY};

fn moved(board: Board, changes: &[(usize, usize, i8)]) -> Board {
    let mut b = board;
    for (x, y, v) in changes {
        b[*x][*y] = *v;
    }
    b
}

#[test]
fn a_single_marble_steps_to_its_empty_neighbours() {
    let game = AbaloneGame::new(BELGIAN_DAISY);
    // black is to move; the black marble on (7, 2) has an empty cell on three sides
    let moves = game.calc_coord_moves(vec![Coord::new(7, 2)]);
    let dirs: Vec<MarbleMove> = moves.iter().map(|m| m.0).collect();
    assert_eq!(dirs, vec![MarbleMove::new(-1, 0), MarbleMove::new(-1, 1), MarbleMove::new(0, -1)]);
    assert_eq!(moves[0].1, moved(BELGIAN_DAISY, &[(7, 2, 0), (6, 2, 2)]));
    assert_eq!(moves[1].1, moved(BELGIAN_DAISY, &[(7, 2, 0), (6, 3, 2)]));
    assert_eq!(moves[2].1, moved(BELGIAN_DAISY, &[(7, 2, 0), (7, 1, 2)]));
}

#[test]
fn a_row_moves_in_line_and_sideways() {
    let game = AbaloneGame::new(BELGIAN_DAISY);
    // the black row (7, 2), (8, 2), (9, 2), given out of order
    let moves =
        game.calc_coord_moves(vec![Coord::new(9, 2), Coord::new(7, 2), Coord::new(8, 2)]);
    let dirs: Vec<MarbleMove> = moves.iter().map(|m| m.0).collect();
    assert_eq!(dirs, vec![MarbleMove::new(-1, 0)]);
    assert_eq!(moves[0].1, moved(BELGIAN_DAISY, &[(9, 2, 0), (6, 2, 2)]));
    // the black row (7, 2), (7, 3) moves sideways to (6, 2), (6, 3) and to (6, 3), (6, 4)
    let moves = game.calc_coord_moves(vec![Coord::new(7, 2), Coord::new(7, 3)]);
    let dirs: Vec<MarbleMove> = moves.iter().map(|m| m.0).collect();
    assert_eq!(
        dirs,
        vec![MarbleMove::new(0, 1), MarbleMove::new(-1, 0), MarbleMove::new(-1, 1), MarbleMove::new(0, -1)]
    );
    assert_eq!(moves[0].1, moved(BELGIAN_DAISY, &[(7, 2, 0), (7, 4, 2)]));
    assert_eq!(moves[1].1, moved(BELGIAN_DAISY, &[(7, 2, 0), (7, 3, 0), (6, 2, 2), (6, 3, 2)]));
    assert_eq!(moves[2].1, moved(BELGIAN_DAISY, &[(7, 2, 0), (7, 3, 0), (6, 3, 2), (6, 4, 2)]));
    assert_eq!(moves[3].1, moved(BELGIAN_DAISY, &[(7, 3, 0), (7, 1, 2)]));
}

#[test]
fn a_line_of_three_pushes_two_and_one_off_the_board() {
    let board: Board = [
        [3, 3, 3, 3, 3, 3, 3, 3, 3, 3, 3],
        [3, 3, 3, 3, 3, 0, 0, 0, 0, 0, 3],
        [3, 3, 3, 3, 0, 0, 0, 0, 0, 0, 3],
        [3, 3, 3, 0, 0, 0, 0, 0, 0, 0, 3],
        [3, 3, 0, 0, 0, 0, 0, 0, 0, 0, 3],
        [3, 2, 2, 2, 1, 1, 0, 1, 2, 2, 3],
        [3, 0, 0, 0, 0, 0, 0, 0, 0, 3, 3],
        [3, 0, 0, 0, 0, 0, 0, 0, 3, 3, 3],
        [3, 0, 0, 0, 0, 0, 0, 3, 3, 3, 3],
        [3, 0, 0, 0, 0, 0, 3, 3, 3, 3, 3],
        [3, 3, 3, 3, 3, 3, 3, 3, 3, 3, 3],
    ];
    let game = AbaloneGame::new(board);
    let row = vec![Coord::new(5, 1), Coord::new(5, 2), Coord::new(5, 3)];
    let moves = game.calc_coord_moves(row);
    let push = moves.iter().find(|m| m.0 == MarbleMove::new(0, 1)).unwrap();
    assert_eq!(push.1[5], [3, 0, 2, 2, 2, 1, 1, 1, 2, 2, 3]);
    // two against two does not push
    let pair = vec![Coord::new(5, 2), Coord::new(5, 3)];
    let moves = game.calc_coord_moves(pair);
    assert!(moves.iter().all(|m| m.0 != MarbleMove::new(0, 1)));
    // two against one with an empty cell behind it push it on
    let pair = vec![Coord::new(5, 8), Coord::new(5, 9)];
    let moves = game.calc_coord_moves(pair);
    let push = moves.iter().find(|m| m.0 == MarbleMove::new(0, -1)).unwrap();
    assert_eq!(push.1[5], [3, 2, 2, 2, 1, 1, 1, 2, 2, 0, 3]);
    assert_eq!(AbaloneGame::count_marbles(push.1, 1), 3);
}

#[test]
fn a_marble_at_the_edge_is_pushed_off_the_board() {
    let mut board = rustai_abalone::game::EMPTY_BOARD;
    board[5] = [3, 1, 2, 2, 0, 0, 0, 0, 1, 1, 3];
    let game = AbaloneGame::new(board);
    let moves = game.calc_coord_moves(vec![Coord::new(5, 3), Coord::new(5, 2)]);
    let push = moves.iter().find(|m| m.0 == MarbleMove::new(0, -1)).unwrap();
    assert_eq!(push.1[5], [3, 2, 2, 0, 0, 0, 0, 0, 1, 1, 3]);
    assert_eq!(AbaloneGame::count_marbles(push.1, 1), 2);
    assert_eq!(AbaloneGame::count_marbles(push.1, 2), 2);
    // one marble alone pushes nothing
    let moves = game.calc_coord_moves(vec![Coord::new(5, 2)]);
    assert!(moves.iter().all(|m| m.0 != MarbleMove::new(0, -1)));
    // own marbles are not pushed: the white pair is in the way of nothing, the
    // black pair does not move onto the edge
    let moves = game.calc_coord_moves(vec![Coord::new(5, 2), Coord::new(5, 3)]);
    assert!(moves.iter().any(|m| m.0 == MarbleMove::new(0, 1)));
}

#[test]
fn as_many_marbles_are_not_pushed() {
    let mut board = rustai_abalone::game::EMPTY_BOARD;
    board[5] = [3, 2, 2, 2, 1, 1, 1, 0, 0, 0, 3];
    let game = AbaloneGame::new(board);
    let row = vec![Coord::new(5, 1), Coord::new(5, 2), Coord::new(5, 3)];
    let moves = game.calc_coord_moves(row);
    assert!(moves.iter().all(|m| m.0 != MarbleMove::new(0, 1)));
    // a pushed marble needs an empty cell or the edge behind it: an own marble blocks
    board[5] = [3, 2, 2, 2, 1, 2, 0, 0, 0, 0, 3];
    let game = AbaloneGame::new(board);
    let row = vec![Coord::new(5, 1), Coord::new(5, 2), Coord::new(5, 3)];
    let moves = game.calc_coord_moves(row);
    assert!(moves.iter().all(|m| m.0 != MarbleMove::new(0, 1)));
    // two marbles before a line of three with the edge behind them: one is lost
    board[5] = [3, 0, 0, 0, 0, 2, 2, 2, 1, 1, 3];
    let game = AbaloneGame::new(board);
    let row = vec![Coord::new(5, 5), Coord::new(5, 6), Coord::new(5, 7)];
    let moves = game.calc_coord_moves(row);
    let push = moves.iter().find(|m| m.0 == MarbleMove::new(0, 1)).unwrap();
    assert_eq!(push.1[5], [3, 0, 0, 0, 0, 0, 2, 2, 2, 1, 3]);
}

#[test]
fn a_row_does_not_move_sideways_onto_a_marble() {
    let mut board = rustai_abalone::game::EMPTY_BOARD;
    board[5] = [3, 0, 2, 2, 2, 0, 0, 0, 0, 0, 3];
    board[4] = [3, 3, 0, 0, 1, 0, 0, 0, 0, 0, 3];
    let game = AbaloneGame::new(board);
    let row = vec![Coord::new(5, 2), Coord::new(5, 3), Coord::new(5, 4)];
    let moves = game.calc_coord_moves(row);
    let dirs: Vec<MarbleMove> = moves.iter().map(|m| m.0).collect();
    // up to the right the marble on (4, 4) is in the way of the first two marbles,
    // straight up it is in the way of the third
    assert_eq!(
        dirs,
        vec![
            MarbleMove::new(1, 0),
            MarbleMove::new(1, -1),
            MarbleMove::new(0, 1),
            MarbleMove::new(0, -1)
        ]
    );
    assert_eq!(moves[0].1[6], [3, 0, 2, 2, 2, 0, 0, 0, 0, 3, 3]);
    assert_eq!(moves[0].1[5], [3, 0, 0, 0, 0, 0, 0, 0, 0, 0, 3]);
    assert_eq!(moves[1].1[6], [3, 2, 2, 2, 0, 0, 0, 0, 0, 3, 3]);
}

#[test]
fn a_selection_that_is_no_row_of_own_marbles_has_no_move() {
    let game = AbaloneGame::new(BELGIAN_DAISY);
    assert!(game.calc_coord_moves(vec![]).is_empty());
    // a white marble while black is to move
    assert!(game.calc_coord_moves(vec![Coord::new(1, 5)]).is_empty());
    // an empty cell
    assert!(game.calc_coord_moves(vec![Coord::new(5, 5)]).is_empty());
    // beyond the grid
    assert!(game.calc_coord_moves(vec![Coord::new(1, 14)]).is_empty());
    assert!(game.calc_coord_moves(vec![Coord::new(7, 2), Coord::new(40, 2)]).is_empty());
    // not neighbours
    assert!(game.calc_coord_moves(vec![Coord::new(7, 2), Coord::new(9, 2)]).is_empty());
    // not in one line
    assert!(game
        .calc_coord_moves(vec![Coord::new(7, 2), Coord::new(8, 2), Coord::new(8, 3)])
        .is_empty());
    // four marbles
    assert!(game
        .calc_coord_moves(vec![
            Coord::new(7, 2),
            Coord::new(8, 2),
            Coord::new(9, 2),
            Coord::new(8, 1)
        ])
        .is_empty());
    // the same marble twice
    assert!(game.calc_coord_moves(vec![Coord::new(7, 2), Coord::new(7, 2)]).is_empty());
}

#[test]
fn the_cells_that_a_move_has_changed_are_marked() {
    let game = AbaloneGame::new(BELGIAN_DAISY);
    let mut selected = vec![Coord::new(7, 2), Coord::new(8, 2), Coord::new(9, 2)];
    let new_board = [
        [3, 3, 3, 3, 3, 3, 3, 3, 3, 3, 3],
        [3, 3, 3, 3, 3, 1, 1, 0, 2, 2, 3],
        [3, 3, 3, 3, 1, 1, 1, 2, 2, 2, 3],
        [3, 3, 3, 0, 1, 1, 0, 2, 2, 0, 3],
        [3, 3, 0, 0, 0, 0, 0, 0, 0, 0, 3],
        [3, 0, 0, 0, 0, 0, 0, 0, 0, 0, 3],
        [3, 0, 2, 0, 0, 0, 0, 0, 0, 3, 3],
        [3, 0, 2, 2, 0, 1, 1, 0, 3, 3, 3],
        [3, 2, 2, 2, 1, 1, 1, 3, 3, 3, 3],
        [3, 2, 0, 0, 1, 1, 3, 3, 3, 3, 3],
        [3, 3, 3, 3, 3, 3, 3, 3, 3, 3, 3],
    ];
    game.differences_to_state(new_board, &mut selected);
    assert_eq!(selected.len(), 4);
    assert_eq!(
        selected,
        vec![Coord::new(7, 2), Coord::new(8, 2), Coord::new(9, 2), Coord::new(6, 2)]
    );
}

#[test]
fn the_second_pushed_marble_is_marked_too() {
    let board: Board = [
        [3, 3, 3, 3, 3, 3, 3, 3, 3, 3, 3],
        [3, 3, 3, 3, 3, 0, 0, 0, 0, 0, 3],
        [3, 3, 3, 3, 0, 0, 0, 0, 0, 0, 3],
        [3, 3, 3, 0, 0, 0, 0, 0, 0, 0, 3],
        [3, 3, 0, 0, 0, 0, 0, 0, 0, 0, 3],
        [3, 2, 2, 2, 1, 1, 0, 0, 0, 0, 3],
        [3, 0, 0, 0, 0, 0, 0, 0, 0, 3, 3],
        [3, 0, 0, 0, 0, 0, 0, 0, 3, 3, 3],
        [3, 0, 0, 0, 0, 0, 0, 3, 3, 3, 3],
        [3, 0, 0, 0, 0, 0, 3, 3, 3, 3, 3],
        [3, 3, 3, 3, 3, 3, 3, 3, 3, 3, 3],
    ];
    let game = AbaloneGame::new(board);
    let mut after = board;
    after[5] = [3, 0, 2, 2, 2, 1, 1, 0, 0, 0, 3];
    let mut marked = vec![Coord::new(5, 1), Coord::new(5, 2), Coord::new(5, 3)];
    game.differences_to_state(after, &mut marked);
    // the cell left empty and the cells that changed their colour are marked, and
    // the marble four steps from the cell left empty, which was pushed onto a cell
    // that held its colour before
    assert_eq!(
        marked,
        vec![
            Coord::new(5, 1),
            Coord::new(5, 2),
            Coord::new(5, 3),
            Coord::new(5, 4),
            Coord::new(5, 6),
            Coord::new(5, 5)
        ]
    );
}

#[test]
fn nothing_is_marked_where_nothing_has_changed() {
    let game = AbaloneGame::new(BELGIAN_DAISY);
    let mut marked = Vec::new();
    game.differences_to_state(BELGIAN_DAISY, &mut marked);
    assert!(marked.is_empty());
}
