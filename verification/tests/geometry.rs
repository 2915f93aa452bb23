use rustai_abalone::game::{AbaloneGame, Coord, MarbleMove};

#[test]
fn multi_move_walks_the_given_number_of_steps() {
    let start = Coord::new(2, 6);
    let step = MarbleMove::new(1, -1);
    let end = start.multi_move(&step, 3);
    assert_eq!(end.x, 5);
    assert_eq!(end.y, 3);
}

#[test]
fn multi_move_by_zero_steps_stays() {
    let start = Coord::new(9, 1);
    assert_eq!(start.multi_move(&MarbleMove::new(-1, 1), 0), start);
}

#[test]
fn adding_a_step_moves_to_the_neighbour() {
    let c = Coord::new(1, 1) + MarbleMove::new(1, 0);
    assert_eq!(c, Coord::new(2, 1));
}

#[test]
fn subtracting_a_step_moves_back() {
    let c = Coord::new(1, 1) - MarbleMove::new(1, 0);
    assert_eq!(c, Coord::new(0, 1));
    let c = Coord::new(4, 4) - MarbleMove::new(-1, 1);
    assert_eq!(c, Coord::new(5, 3));
}

#[test]
fn difference_of_neighbours_is_the_step_between_them() {
    let step = Coord::new(5, 4) - Coord::new(4, 4);
    assert_eq!(step, MarbleMove::new(1, 0));
    let step = Coord::new(3, 5) - Coord::new(4, 4);
    assert_eq!(step, MarbleMove::new(-1, 1));
    let step = Coord::new(4, 4) - Coord::new(4, 4);
    assert_eq!(step, MarbleMove::new(0, 0));
}

#[test]
fn board_range_is_the_inside_of_the_outer_ring() {
    assert!(Coord::new(2, 6).in_board_range());
    assert!(Coord::new(1, 1).in_board_range());
    assert!(Coord::new(9, 9).in_board_range());
    assert!(!Coord::new(1, 14).in_board_range());
    assert!(!Coord::new(0, 5).in_board_range());
    assert!(!Coord::new(5, 10).in_board_range());
}

#[test]
fn coordinates_are_ordered_by_row_then_column() {
    assert!(Coord::new(1, 9) < Coord::new(2, 1));
    assert!(Coord::new(3, 4) < Coord::new(3, 5));
    assert!(Coord::new(3, 4) == Coord::new(3, 4));
}

#[test]
fn the_six_directions_sum_to_nothing() {
    let moves = AbaloneGame::get_game_moves();
    assert_eq!(moves.len(), 6);
    assert_eq!(moves[0], MarbleMove::new(1, 0));
    assert_eq!(moves[1], MarbleMove::new(1, -1));
    assert_eq!(moves[2], MarbleMove::new(0, 1));
    assert_eq!(moves[3], MarbleMove::new(-1, 0));
    assert_eq!(moves[4], MarbleMove::new(-1, 1));
    assert_eq!(moves[5], MarbleMove::new(0, -1));
    let mut c = Coord::new(5, 5);
    for m in moves {
        c = c + m;
    }
    assert_eq!(c, Coord::new(5, 5));
}
