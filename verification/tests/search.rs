use rustai_abalone::agent::{board_planes, external_move, own_move};
use rustai_abalone::cache::DistributionCache;
use rustai_abalone::distribution::{DistributionError, MoveDistribution};
use rustai_abalone::game::{AbaloneGame, BELGIAN_DAISY};
use rustai_abalone::playout::{leaf_value, Playout, PlayoutStep};
use rustai_abalone::search::{push_to_queue, queue_order, ResultAccumulator};
use rustai_abalone::visits::{
    choose_possible_moves, redistribute, sample_visits, share_out_with, RESAMPLE_LIMIT,
};

#[test]
fn a_distribution_needs_a_weight_that_is_not_zero() {
    assert_eq!(MoveDistribution::new(vec![]).err(), Some(DistributionError::NoWeights));
    assert_eq!(MoveDistribution::new(vec![0, 0, 0]).err(), Some(DistributionError::AllWeightsZero));
    assert_eq!(
        MoveDistribution::new(vec![u64::MAX, 0, 1]).err(),
        Some(DistributionError::TooHeavy)
    );
    let made = MoveDistribution::new(vec![u64::MAX - 1, 0, 1]);
    assert!(made.is_ok());
    let made = MoveDistribution::new(vec![3, 0, 5]).ok().unwrap();
    assert_eq!(made.len(), 3);
    assert_eq!(made.weight(0), 3);
    assert_eq!(made.weight(1), 0);
    assert_eq!(made.weight(2), 5);
}

#[test]
fn samples_fall_on_weights_that_are_not_zero() {
    let distr = MoveDistribution::new(vec![0, 0, 7, 0]).ok().unwrap();
    for _ in 0..200 {
        assert_eq!(distr.sample(), 2);
    }
    let distr = MoveDistribution::new(vec![1, 0, 1, 0, 1]).ok().unwrap();
    let mut seen = [0usize; 5];
    for _ in 0..600 {
        seen[distr.sample()] += 1;
    }
    assert_eq!(seen[1], 0);
    assert_eq!(seen[3], 0);
    assert!(seen[0] > 0 && seen[2] > 0 && seen[4] > 0);
    assert_eq!(seen.iter().sum::<usize>(), 600);
}

#[test]
fn sampled_visits_add_up_to_the_number_of_draws() {
    let distr = MoveDistribution::new(vec![5, 1, 0, 3]).ok().unwrap();
    let counts = sample_visits(&distr, 1000);
    assert_eq!(counts.len(), 4);
    assert_eq!(counts.iter().sum::<usize>(), 1000);
    assert_eq!(counts[2], 0);
    let none = sample_visits(&distr, 0);
    assert_eq!(none, vec![0, 0, 0, 0]);
}

#[test]
fn sharing_out_keeps_the_sum_and_the_moves_that_have_the_minimum() {
    let distr = MoveDistribution::new(vec![1, 1, 1, 1, 1, 1]).ok().unwrap();
    for _ in 0..50 {
        let mut counts = vec![9, 1, 2, 0, 4, 8];
        redistribute(&mut counts, &distr, 5);
        assert_eq!(counts.iter().sum::<usize>(), 24);
        // moves that had the minimum have what they had
        assert_eq!(counts[0], 9);
        assert_eq!(counts[5], 8);
        // the others have shared their seven visits among themselves, and none has
        // come to the minimum
        assert_eq!(counts[1] + counts[2] + counts[3] + counts[4], 7);
        for c in &counts[1..5] {
            assert!(*c < 5);
        }
    }
}

#[test]
fn sharing_out_changes_nothing_where_every_move_has_the_minimum() {
    let distr = MoveDistribution::new(vec![2, 1, 1]).ok().unwrap();
    let mut counts = vec![4, 3, 5];
    redistribute(&mut counts, &distr, 3);
    assert_eq!(counts, vec![4, 3, 5]);
    let mut counts = vec![0, 0, 7];
    redistribute(&mut counts, &distr, 0);
    assert_eq!(counts, vec![0, 0, 7]);
    let mut counts = vec![0, 2, 7];
    redistribute(&mut counts, &distr, 1);
    assert_eq!(counts, vec![0, 2, 7]);
}

#[test]
fn a_move_takes_visits_only_below_one_less_than_the_minimum() {
    // each move is one below the minimum: none takes a visit, each keeps its own
    let distr = MoveDistribution::new(vec![1, 1]).ok().unwrap();
    let mut counts = vec![2, 2];
    redistribute(&mut counts, &distr, 3);
    assert_eq!(counts, vec![2, 2]);
    // the move that is drawn every time takes visits until it holds three
    let distr = MoveDistribution::new(vec![0, 1]).ok().unwrap();
    let mut counts = vec![3, 0];
    redistribute(&mut counts, &distr, 4);
    assert_eq!(counts, vec![0, 3]);
    let mut counts = vec![3, 2];
    redistribute(&mut counts, &distr, 4);
    assert_eq!(counts, vec![2, 3]);
}

#[test]
fn a_visit_that_no_draw_places_stays_with_its_move() {
    // the only move that is ever drawn has the minimum and takes nothing
    let distr = MoveDistribution::new(vec![0, 0, 1]).ok().unwrap();
    let mut counts = vec![3, 1, 9];
    redistribute(&mut counts, &distr, 5);
    assert_eq!(counts, vec![3, 1, 9]);
}

#[test]
fn the_moves_are_gone_through_in_changing_order() {
    // only the last move is ever drawn, and it takes one visit: that of the move
    // that comes first
    let distr = MoveDistribution::new(vec![0, 0, 1]).ok().unwrap();
    let mut first_gave = 0;
    let mut second_gave = 0;
    for _ in 0..60 {
        let mut counts = vec![1, 1, 1];
        redistribute(&mut counts, &distr, 3);
        if counts == vec![0, 1, 2] {
            first_gave += 1;
        } else {
            assert_eq!(counts, vec![1, 0, 2]);
            second_gave += 1;
        }
    }
    assert!(first_gave > 0);
    assert!(second_gave > 0);
}

#[test]
fn chosen_moves_share_the_whole_budget() {
    let distr = MoveDistribution::new(vec![10, 1, 1, 1, 30, 1, 1, 2]).ok().unwrap();
    for _ in 0..20 {
        let counts = choose_possible_moves(&distr, 80, 10);
        assert_eq!(counts.len(), 8);
        assert_eq!(counts.iter().sum::<usize>(), 80);
    }
    let counts = choose_possible_moves(&distr, 10, 1);
    assert_eq!(counts.iter().sum::<usize>(), 10);
    let counts = choose_possible_moves(&distr, 3, 7);
    assert_eq!(counts.iter().sum::<usize>(), 3);
    // a budget that gives every move the minimum: drawn so with a single move
    let single = MoveDistribution::new(vec![4]).ok().unwrap();
    assert_eq!(choose_possible_moves(&single, 25, 25), vec![25]);
}

#[test]
fn the_queue_begins_with_one_simulation_of_each_move() {
    assert_eq!(queue_order(&vec![2, 0, 3, 1]), vec![0, 2, 3, 0, 2, 2]);
    assert_eq!(queue_order(&vec![0, 0]), Vec::<usize>::new());
    assert_eq!(queue_order(&vec![]), Vec::<usize>::new());
    assert_eq!(queue_order(&vec![1, 1, 1]), vec![0, 1, 2]);
    assert_eq!(queue_order(&vec![0, 4]), vec![1, 1, 1, 1]);
}

#[test]
fn tasks_carry_a_copy_of_the_game_and_the_board_of_their_move() {
    let mut game = AbaloneGame::new(BELGIAN_DAISY);
    let (_, ids) = game.calc_reasonalbe_moves();
    let mut counts = vec![0usize; ids.len()];
    counts[3] = 2;
    counts[10] = 1;
    let tasks = push_to_queue(&game, &counts);
    assert_eq!(tasks.len(), 3);
    assert_eq!(tasks[0].candidate, 3);
    assert_eq!(tasks[1].candidate, 10);
    assert_eq!(tasks[2].candidate, 3);
    for t in &tasks {
        assert_eq!(t.board, game.get_next_position(t.candidate));
        assert_eq!(t.game.get_state(), BELGIAN_DAISY);
        assert!(t.game.get_black_tomove());
    }
}

#[test]
fn an_accumulator_takes_one_value_for_each_visit() {
    let mut acc = ResultAccumulator::new(vec![2, 0, 1]).unwrap();
    assert!(!acc.is_complete());
    assert_eq!(acc.get_completed(), 0);
    assert!(!acc.record(1, 5));
    assert!(!acc.record(3, 5));
    assert!(!acc.record(0, 2147483649));
    assert!(!acc.record(0, -2147483649));
    assert_eq!(acc.get_completed(), 0);
    assert!(acc.record(0, 2147483648));
    assert!(acc.record(0, -10));
    assert!(!acc.record(0, 1));
    assert!(!acc.is_complete());
    assert!(acc.record(2, 7));
    assert!(acc.is_complete());
    assert_eq!(acc.get_completed(), 3);
    assert!(!acc.record(2, 7));
}

#[test]
fn an_accumulator_is_not_made_for_more_visits_than_the_limit() {
    assert!(ResultAccumulator::new(vec![4294967295, 1]).is_none());
    assert!(ResultAccumulator::new(vec![4294967295, 0]).is_some());
    assert!(ResultAccumulator::new(vec![]).is_some());
}

fn filled(visits: Vec<usize>, values: &[(usize, i64)]) -> ResultAccumulator {
    let mut acc = ResultAccumulator::new(visits).unwrap();
    for (c, v) in values {
        assert!(acc.record(*c, *v));
    }
    assert!(acc.is_complete());
    acc
}

#[test]
fn the_move_with_the_highest_average_is_chosen() {
    // averages: 5/2, -, 3, 8/3
    let acc = filled(vec![2, 0, 1, 3], &[(0, 4), (0, 1), (2, 3), (3, 9), (3, -1), (3, 0)]);
    assert_eq!(acc.choose_next_move(), Some(2));
    // averages: -4, -1
    let acc = filled(vec![1, 2], &[(0, -4), (1, -1), (1, -1)]);
    assert_eq!(acc.choose_next_move(), Some(1));
}

#[test]
fn among_moves_with_the_same_average_the_first_is_chosen() {
    // averages: 1, 2, 2, 2
    let acc = filled(vec![1, 2, 1, 3], &[(0, 1), (1, 3), (1, 1), (2, 2), (3, 2), (3, 2), (3, 2)]);
    assert_eq!(acc.choose_next_move(), Some(1));
}

#[test]
fn no_move_is_chosen_where_no_move_has_a_visit() {
    let acc = filled(vec![0, 0, 0], &[]);
    assert_eq!(acc.choose_next_move(), None);
    let acc = filled(vec![], &[]);
    assert_eq!(acc.choose_next_move(), None);
}

#[test]
fn values_are_seen_from_the_side_to_move_at_the_root() {
    let mut game = AbaloneGame::new(BELGIAN_DAISY);
    // not ended, black to move: the rating is one for black
    assert_eq!(leaf_value(&game, 250, false), -250);
    assert_eq!(leaf_value(&game, 250, true), 250);
    assert_eq!(leaf_value(&game, i32::MIN, false), 2147483648);
    game.calc_reasonalbe_moves();
    game.update_by_id(0);
    // white to move
    assert_eq!(leaf_value(&game, 250, false), 250);
    assert_eq!(leaf_value(&game, 250, true), -250);
    game.end_with_result(1);
    assert_eq!(leaf_value(&game, 250, false), 1000000);
    assert_eq!(leaf_value(&game, 250, true), -1000000);
    game.end_with_result(-1);
    assert_eq!(leaf_value(&game, 250, false), -1000000);
    assert_eq!(leaf_value(&game, 250, true), 1000000);
    game.end_with_result(0);
    assert_eq!(leaf_value(&game, 250, true), 0);
}

#[test]
fn a_simulation_is_rated_after_its_moves() {
    let mut game = AbaloneGame::new(BELGIAN_DAISY);
    let (_, ids) = game.calc_reasonalbe_moves();
    let mut counts = vec![0usize; ids.len()];
    counts[5] = 1;
    let task = push_to_queue(&game, &counts).pop().unwrap();
    let mut playout = Playout::start(task, 2);
    assert_eq!(playout.get_candidate(), 5);
    let mut moves = 0;
    let value = loop {
        match playout.next_step() {
            PlayoutStep::Move { board, move_ids } => {
                assert!(AbaloneGame::validate_board(board));
                assert!(!move_ids.is_empty());
                playout.advance(move_ids.len() - 1);
                moves += 1;
            }
            PlayoutStep::Rate { board } => {
                assert!(AbaloneGame::validate_board(board));
                break playout.rated(400);
            }
            PlayoutStep::Done { value } => break value,
        }
    };
    assert_eq!(moves, 2);
    // three moves were made from the root, where black was to move: white is to move
    assert_eq!(value, -400);
}

#[test]
fn a_simulation_draws_its_moves_from_a_distribution() {
    let mut game = AbaloneGame::new(BELGIAN_DAISY);
    let (_, ids) = game.calc_reasonalbe_moves();
    let mut counts = vec![0usize; ids.len()];
    counts[9] = 1;
    let task = push_to_queue(&game, &counts).pop().unwrap();
    let mut playout = Playout::start(task, 1);
    match playout.next_step() {
        PlayoutStep::Move { board: _, move_ids } => {
            let mut weights = vec![0u64; move_ids.len()];
            weights[3] = 5;
            let distr = MoveDistribution::new(weights).ok().unwrap();
            assert_eq!(playout.advance_by(&distr), 3);
        }
        _ => panic!("a game that has begun has moves"),
    }
    match playout.next_step() {
        PlayoutStep::Rate { board } => assert!(AbaloneGame::validate_board(board)),
        _ => panic!("the simulation has made its move"),
    }
}

#[test]
fn a_simulation_without_a_depth_is_played_to_the_end() {
    let mut game = AbaloneGame::new(BELGIAN_DAISY);
    let (_, ids) = game.calc_reasonalbe_moves();
    let mut counts = vec![0usize; ids.len()];
    counts[0] = 1;
    let task = push_to_queue(&game, &counts).pop().unwrap();
    let mut playout = Playout::start(task, 0);
    let mut moves = 0;
    let value = loop {
        match playout.next_step() {
            PlayoutStep::Move { board: _, move_ids } => {
                playout.advance(moves % move_ids.len());
                moves += 1;
                assert!(moves < 2000);
            }
            PlayoutStep::Rate { .. } => panic!("rated without a depth"),
            PlayoutStep::Done { value } => break value,
        }
    };
    assert!(value == 0 || value == 1000000 || value == -1000000);
}

#[test]
fn a_move_from_outside_is_taken_in_either_point_of_view() {
    let mut a = AbaloneGame::new(BELGIAN_DAISY);
    let mut b = AbaloneGame::new(BELGIAN_DAISY);
    a.calc_reasonalbe_moves();
    let pov = a.get_next_position(4);
    let table = AbaloneGame::rotate_board(pov);
    assert!(external_move(&mut a, pov, true));
    assert!(external_move(&mut b, table, false));
    assert_eq!(a.get_state(), table);
    assert_eq!(b.get_state(), table);
    assert!(!a.get_black_tomove());
    // white to move: both points of view are the same
    let next = {
        let mut n = table;
        n[7][5] = 0;
        n[6][5] = 1;
        n
    };
    assert!(external_move(&mut a, next, false));
    assert!(external_move(&mut b, next, true));
    assert_eq!(a.get_state(), next);
    assert_eq!(b.get_state(), next);
}

#[test]
fn a_game_that_has_ended_takes_no_move_from_outside() {
    let mut game = AbaloneGame::new(BELGIAN_DAISY);
    game.end_with_result(0);
    let mut other = BELGIAN_DAISY;
    other[3][4] = 0;
    other[3][3] = 1;
    assert!(!external_move(&mut game, other, false));
    assert_eq!(game.get_state(), BELGIAN_DAISY);
    assert!(game.get_black_tomove());
}

#[test]
fn the_chosen_move_is_made_and_returned() {
    let mut game = AbaloneGame::new(BELGIAN_DAISY);
    let (_, ids) = game.calc_reasonalbe_moves();
    let mut counts = vec![0usize; ids.len()];
    counts[2] = 1;
    counts[7] = 2;
    let acc = filled(counts.clone(), &[(2, 10), (7, 30), (7, -5)]);
    let expected = game.get_next_position(7);
    let mut copy = game.mcts_copy();
    copy.calc_reasonalbe_moves();
    assert_eq!(own_move(&mut game, &acc, true), Some(expected));
    assert_eq!(game.get_state(), AbaloneGame::rotate_board(expected));
    assert!(!game.get_black_tomove());
    assert_eq!(own_move(&mut copy, &acc, false), Some(AbaloneGame::rotate_board(expected)));
    let none = filled(vec![0usize; ids.len()], &[]);
    let mut fresh = AbaloneGame::new(BELGIAN_DAISY);
    fresh.calc_reasonalbe_moves();
    assert_eq!(own_move(&mut fresh, &none, true), None);
    assert!(fresh.get_black_tomove());
}

#[test]
fn a_position_is_laid_out_with_one_mark_for_each_cell() {
    let planes = board_planes(&BELGIAN_DAISY);
    assert_eq!(planes.len(), 484);
    assert_eq!(planes.iter().map(|v| *v as usize).sum::<usize>(), 121);
    for x in 0..11 {
        for y in 0..11 {
            for v in 0..4 {
                let expected = if BELGIAN_DAISY[x][y] == v as i8 { 1 } else { 0 };
                assert_eq!(planes[(x * 11 + y) * 4 + v], expected);
            }
        }
    }
}

#[test]
fn a_kept_distribution_is_found_again_by_its_position() {
    let mut cache = DistributionCache::new();
    assert!(cache.get(&BELGIAN_DAISY).is_none());
    let other = AbaloneGame::rotate_board(BELGIAN_DAISY);
    cache.insert(BELGIAN_DAISY, MoveDistribution::new(vec![1, 2, 3]).ok().unwrap());
    assert!(cache.get(&other).is_none());
    cache.insert(other, MoveDistribution::new(vec![4, 5]).ok().unwrap());
    let found = cache.get(&BELGIAN_DAISY).unwrap();
    assert_eq!((found.len(), found.weight(0), found.weight(2)), (3, 1, 3));
    let found = cache.get(&other).unwrap();
    assert_eq!((found.len(), found.weight(0), found.weight(1)), (2, 4, 5));
    // a second distribution for a position takes the place of the first
    cache.insert(BELGIAN_DAISY, MoveDistribution::new(vec![7]).ok().unwrap());
    let found = cache.get(&BELGIAN_DAISY).unwrap();
    assert_eq!((found.len(), found.weight(0)), (1, 7));
    assert_eq!(cache.get(&other).unwrap().len(), 2);
}

#[test]
fn many_positions_are_kept_apart() {
    let mut game = AbaloneGame::new(BELGIAN_DAISY);
    let (_, ids) = game.calc_reasonalbe_moves();
    let mut cache = DistributionCache::new();
    for i in 0..ids.len() {
        let weights = vec![i as u64 + 1; i + 1];
        cache.insert(game.get_next_position(i), MoveDistribution::new(weights).ok().unwrap());
    }
    for i in 0..ids.len() {
        let found = cache.get(&game.get_next_position(i)).unwrap();
        assert_eq!(found.len(), i + 1);
        assert_eq!(found.weight(0), i as u64 + 1);
    }
    assert!(cache.get(&BELGIAN_DAISY).is_none());
}

/// The visits after sharing out with the given order and draws.
fn shared(counts: &[usize], order: &[usize], draws: &[usize], minimum: usize) -> Vec<usize> {
    let mut counts = counts.to_vec();
    share_out_with(&mut counts, &order.to_vec(), &draws.to_vec(), minimum);
    counts
}

#[test]
fn lost_visits_go_to_the_moves_that_are_drawn() {
    // move 0 loses its three visits: two go to move 2, one to move 1; then move 1
    // loses its two, which go to move 0 and back to move 1; the two of move 2 are
    // lost last, and stay with it for want of draws
    assert_eq!(shared(&[3, 1, 0, 9], &[0, 1, 2, 3], &[2, 2, 1, 0, 1], 5), vec![1, 1, 2, 9]);
    // in another order: move 2 has no visit when its turn comes, move 1 loses its
    // visit to move 2, move 0 loses its three to itself, itself and move 1
    assert_eq!(shared(&[3, 1, 0, 9], &[3, 2, 1, 0], &[2, 0, 0, 1], 5), vec![2, 1, 1, 9]);
}

#[test]
fn a_draw_that_takes_no_visit_is_used_up() {
    // move 3 has the minimum and move 1 holds one less: the draws 3 and 1 are
    // passed over, the draw 2 takes the visit of move 0
    assert_eq!(shared(&[1, 4, 0, 9], &[0, 1, 2, 3], &[3, 1, 2], 5), vec![0, 4, 1, 9]);
}

#[test]
fn moves_are_gone_through_in_the_given_order() {
    // the move that comes first gives its visit to move 2, which then takes no more
    assert_eq!(shared(&[1, 1, 1], &[0, 1, 2], &[2, 2, 2, 2], 3), vec![0, 1, 2]);
    assert_eq!(shared(&[1, 1, 1], &[1, 0, 2], &[2, 2, 2, 2], 3), vec![1, 0, 2]);
}

#[test]
fn visits_stay_with_their_move_where_the_draws_end() {
    assert_eq!(shared(&[3, 1, 0, 9], &[0, 1, 2, 3], &[], 5), vec![3, 1, 0, 9]);
    assert_eq!(shared(&[3, 1, 0, 9], &[0, 1, 2, 3], &[2], 5), vec![2, 1, 1, 9]);
    // nothing is shared out where every move has the minimum, or no visit
    assert_eq!(shared(&[5, 0, 7], &[2, 1, 0], &[1, 1, 1], 5), vec![5, 0, 7]);
    // moves that the order does not name keep their visits, and take visits
    assert_eq!(shared(&[3, 1], &[1], &[0, 0], 5), vec![4, 0]);
    assert_eq!(shared(&[3, 1], &[], &[0, 0], 5), vec![3, 1]);
    // a draw that is no move takes nothing
    assert_eq!(shared(&[2, 0], &[0, 1], &[7, 1, 9, 1], 5), vec![0, 2]);
}

#[test]
fn a_visit_stays_with_its_move_after_the_last_draw_left_for_it() {
    // move 1 has the minimum: each draw of it is passed over. With one draw left
    // for the first visit of move 0, move 2 is drawn and takes it, and the second
    let mut draws = vec![1usize; RESAMPLE_LIMIT - 1];
    draws.push(2);
    draws.push(2);
    assert_eq!(shared(&[2, 5, 0], &[0, 1, 2], &draws, 3), vec![0, 5, 2]);
    // with no draw left for it, the first visit stays with move 0; move 2 takes the
    // second, loses it in its turn and takes it again
    let mut draws = vec![1usize; RESAMPLE_LIMIT];
    draws.push(2);
    draws.push(2);
    assert_eq!(shared(&[2, 5, 0], &[0, 1, 2], &draws, 3), vec![1, 5, 1]);
}
