use mcts::game::{mix, Game, InvalidAction, UNIT};
use mcts::mancala::{Mancala, Player};
use mcts::rollout::rollout;
use mcts::search::SearchInfo;
use mcts::select::{key, outranks};
use mcts::step::mcts_step;
use mcts::tally::{credit, score_of, total_of};
use mcts::tictactoe::{Square, TicTacToe};
use ordered_float::OrderedFloat;
use std::cell::RefCell;

/// The key of a move: its mean reward in points plus the square root of twice
/// the logarithm of the parent's visits over its own, as the bits of the sum,
/// which order sums that are not negative as the sums are ordered.
fn uct(reward: u128, visits: u64, parent: u64) -> u64 {
    let mean = reward as f64 / UNIT as f64 / visits as f64;
    let bonus = (2. * (parent as f64).ln() / visits as f64).sqrt();
    (mean + bonus).to_bits()
}

#[test]
fn error_message() {
    assert_eq!(InvalidAction.message(), "Invalid Action");
}

#[test]
fn new_search_holds_the_start() {
    let search = SearchInfo::new(TicTacToe::new(3));
    assert_eq!(search.size(), 1);
    assert_eq!(search.steps(), 0);
    assert_eq!(search.root_visits(), 0);
    assert!(search.get_game().same_state(&TicTacToe::new(3)));
}

#[test]
fn root_visits_count_the_iterations() {
    let mut search = SearchInfo::new(TicTacToe::new(3));
    for n in 1..=25u64 {
        mcts_step(&mut search, uct);
        assert_eq!(search.root_visits(), n);
        assert_eq!(search.steps(), n);
    }
}

#[test]
fn root_visits_count_the_iterations_of_a_sowing_game() {
    let mut search = SearchInfo::new(Mancala::new());
    for _ in 0..300 {
        mcts_step(&mut search, uct);
    }
    assert_eq!(search.root_visits(), 300);
}

#[test]
fn first_iteration_tries_the_last_move_listed() {
    let mut search = SearchInfo::new(TicTacToe::new(3));
    assert_eq!(mcts_step(&mut search, uct), vec![(2, 2)]);
    assert_eq!(search.size(), 2);
}

#[test]
fn every_move_is_tried_before_any_is_tried_again() {
    let mut search = SearchInfo::new(TicTacToe::new(3));
    for n in 1..=9usize {
        let ranking = mcts_step(&mut search, uct);
        assert_eq!(ranking.len(), n);
        assert_eq!(search.size(), n + 1);
        for row in 0..3 {
            for col in 0..3 {
                let tried = 3 * row + col >= 9 - n;
                assert_eq!(ranking.contains(&(row, col)), tried);
            }
        }
    }
    let ranking = mcts_step(&mut search, uct);
    assert_eq!(ranking.len(), 9);
}

#[test]
fn ranking_lists_each_tried_move_once() {
    let mut search = SearchInfo::new(Mancala::new());
    let mut ranking = Vec::new();
    for _ in 0..200 {
        ranking = mcts_step(&mut search, uct);
    }
    let mut sorted = ranking.clone();
    sorted.sort();
    assert_eq!(sorted, vec![0, 1, 2, 3, 4, 5]);
}

#[test]
fn ranking_puts_the_winning_move_first() {
    let mut game = TicTacToe::new(3);
    game.board[0][0] = Square::Circle;
    game.board[0][1] = Square::Circle;
    game.board[1][0] = Square::Cross;
    game.board[1][1] = Square::Cross;
    let mut search = SearchInfo::new(game);
    let mut ranking = Vec::new();
    for _ in 0..2000 {
        ranking = mcts_step(&mut search, uct);
    }
    assert_eq!(ranking.len(), 5);
    assert_eq!(ranking[0], (0, 2));
}

#[test]
fn commit_moves_the_root() {
    let mut search = SearchInfo::new(TicTacToe::new(3));
    for _ in 0..100 {
        mcts_step(&mut search, uct);
    }
    let next = search.do_action((1, 1)).expect("the move is legal");
    assert_eq!(next.board[1][1], Square::Circle);
    assert_eq!(next.player, Square::Cross);
    assert!(search.get_game().same_state(&next));
    assert_eq!(search.steps(), 100);
}

#[test]
fn commit_drops_what_cannot_be_reached() {
    let mut search = SearchInfo::new(TicTacToe::new(2));
    for _ in 0..4 {
        mcts_step(&mut search, uct);
    }
    assert_eq!(search.size(), 5);
    search.do_action((0, 0)).expect("the move is legal");
    assert_eq!(search.size(), 1);
    assert_eq!(search.root_visits(), 1);
}

#[test]
fn commit_keeps_what_can_be_reached() {
    let mut search = SearchInfo::new(TicTacToe::new(2));
    for _ in 0..5000 {
        mcts_step(&mut search, uct);
    }
    let before = search.size();
    assert!(before <= 29);
    search.do_action((0, 0)).expect("the move is legal");
    let after = search.size();
    assert!(after <= 10);
    assert!(after <= before);
    let visits = search.root_visits();
    mcts_step(&mut search, uct);
    assert_eq!(search.root_visits(), visits + 1);
    assert!(search.size() <= 10);
}

#[test]
fn commit_of_a_move_never_tried_makes_a_new_root() {
    let mut search = SearchInfo::new(TicTacToe::new(3));
    let next = search.do_action((0, 1)).expect("the move is legal");
    assert_eq!(next.board[0][1], Square::Circle);
    assert_eq!(search.size(), 1);
    assert_eq!(search.root_visits(), 0);
}

#[test]
fn illegal_commit_changes_nothing() {
    let mut search = SearchInfo::new(TicTacToe::new(3));
    for _ in 0..20 {
        mcts_step(&mut search, uct);
    }
    search.do_action((0, 0)).expect("the move is legal");
    let size = search.size();
    let visits = search.root_visits();
    let before = search.get_game();
    assert!(search.do_action((0, 0)).is_err());
    assert!(search.do_action((3, 0)).is_err());
    assert!(search.do_action((0, usize::MAX)).is_err());
    assert!(search.get_game().same_state(&before));
    assert_eq!(search.size(), size);
    assert_eq!(search.root_visits(), visits);
}

#[test]
fn illegal_commit_in_a_sowing_game() {
    let mut search = SearchInfo::new(Mancala::new());
    search.do_action(2).expect("the move is legal");
    let before = search.get_game();
    assert!(search.do_action(2).is_err());
    assert!(search.do_action(6).is_err());
    assert!(search.get_game().same_state(&before));
}

#[test]
fn iteration_where_the_game_is_over() {
    let mut search = SearchInfo::new(TicTacToe::new(1));
    search.do_action((0, 0)).expect("the move is legal");
    assert!(search.get_game().get_player_final_scores().is_some());
    for n in 1..=3u64 {
        assert_eq!(mcts_step(&mut search, uct), vec![]);
        assert_eq!(search.root_visits(), n);
        assert_eq!(search.size(), 1);
    }
}

#[test]
fn transpositions_share_one_entry() {
    let mut search = SearchInfo::new(TicTacToe::new(2));
    for _ in 0..5000 {
        mcts_step(&mut search, uct);
        assert!(search.size() <= 29);
    }
}

#[test]
fn rollout_ends_the_game() {
    for _ in 0..20 {
        let end = rollout(TicTacToe::new(3));
        assert!(end.get_player_final_scores().is_some());
        let end = rollout(Mancala::new());
        assert!(end.get_player_final_scores().is_some());
    }
}

#[test]
fn rollout_plays_the_only_move() {
    let mut game = TicTacToe::new(3);
    let marks = [
        [Square::Circle, Square::Cross, Square::Circle],
        [Square::Circle, Square::Cross, Square::Cross],
        [Square::Cross, Square::Circle, Square::Empty],
    ];
    for row in 0..3 {
        for col in 0..3 {
            game.board[row][col] = marks[row][col];
        }
    }
    assert_eq!(game.list_actions(), vec![(2, 2)]);
    let end = rollout(game);
    assert_eq!(end.board[2][2], Square::Circle);
    assert_eq!(
        end.get_player_final_scores(),
        Some(vec![(Square::Circle, 1), (Square::Cross, 1)])
    );
}

#[test]
fn rollout_of_a_finished_game_is_the_game() {
    let mut game = TicTacToe::new(2);
    game.board[0][0] = Square::Cross;
    game.board[0][1] = Square::Cross;
    let end = rollout(game.duplicate());
    assert!(end.same_state(&game));
}

#[test]
fn totals_by_player() {
    let mut list: Vec<(Player, u128)> = Vec::new();
    assert_eq!(total_of::<Mancala>(&list, &Player::A), None);
    credit::<Mancala>(&mut list, Player::A, 2);
    credit::<Mancala>(&mut list, Player::B, 1);
    credit::<Mancala>(&mut list, Player::A, 1);
    assert_eq!(list, vec![(Player::A, 3), (Player::B, 1)]);
    assert_eq!(total_of::<Mancala>(&list, &Player::A), Some((0, 3)));
    assert_eq!(total_of::<Mancala>(&list, &Player::B), Some((1, 1)));
}

#[test]
fn scores_by_player() {
    let scores = vec![(Player::B, 2), (Player::A, 0)];
    assert_eq!(score_of::<Mancala>(&scores, &Player::A), Some(0));
    assert_eq!(score_of::<Mancala>(&scores, &Player::B), Some(2));
    assert_eq!(score_of::<Mancala>(&Vec::new(), &Player::B), None);
}

#[test]
fn fingerprints_mix_in_each_number() {
    assert_eq!(mix(0, 0), 0);
    assert_eq!(mix(1, 0), 1000003);
    assert_eq!(mix(5, 7), 5000022);
    assert_eq!(mix(u64::MAX, 255), 7000276);
}

#[test]
fn fingerprints_of_positions() {
    assert_eq!(Mancala::new().get_fingerprint(), 1244090632601872849);
    assert_eq!(TicTacToe::new(2).get_fingerprint(), 168760150033166695);
    let moved = TicTacToe::new(2).do_action((0, 0)).expect("the move is legal");
    assert_eq!(moved.get_fingerprint(), 1337529300093333417);
    assert_eq!(
        moved.duplicate().get_fingerprint(),
        moved.get_fingerprint()
    );
}

#[test]
fn positions_are_found_again_after_a_commit() {
    let mut search = SearchInfo::new(TicTacToe::new(2));
    for _ in 0..2000 {
        mcts_step(&mut search, uct);
    }
    search.do_action((0, 0)).expect("the move is legal");
    search.do_action((0, 1)).expect("the move is legal");
    let kept = search.size();
    assert!(kept <= 3);
    for _ in 0..200 {
        mcts_step(&mut search, uct);
        assert!(search.size() <= 3);
    }
}

#[test]
fn long_search_in_a_sowing_game() {
    let mut search = SearchInfo::new(Mancala::new());
    let mut ranking = Vec::new();
    for _ in 0..20000 {
        ranking = mcts_step(&mut search, uct);
    }
    assert_eq!(ranking.len(), 6);
    assert_eq!(search.root_visits(), 20000);
    assert!(search.size() <= 20001);
    let best = ranking[0];
    search.do_action(best).expect("a ranked move is legal");
    assert!(search.size() <= 20001);
    assert!(search.root_visits() >= 1);
}

fn grid(marks: [[Square; 3]; 3], player: Square) -> TicTacToe {
    let mut game = TicTacToe::new(3);
    game.player = player;
    for row in 0..3 {
        for col in 0..3 {
            game.board[row][col] = marks[row][col];
        }
    }
    game
}

#[test]
fn ranking_goes_by_mean_reward() {
    let game = grid(
        [
            [Square::Circle, Square::Cross, Square::Circle],
            [Square::Cross, Square::Cross, Square::Circle],
            [Square::Empty, Square::Circle, Square::Empty],
        ],
        Square::Circle,
    );
    let mut search = SearchInfo::new(game);
    assert_eq!(mcts_step(&mut search, uct), vec![(2, 2)]);
    for _ in 0..50 {
        assert_eq!(mcts_step(&mut search, uct), vec![(2, 2), (2, 0)]);
    }
    assert_eq!(search.size(), 4);
}

#[test]
fn ranking_keeps_the_order_of_listing_among_equal_means() {
    let game = grid(
        [
            [Square::Empty, Square::Empty, Square::Cross],
            [Square::Cross, Square::Circle, Square::Circle],
            [Square::Circle, Square::Cross, Square::Cross],
        ],
        Square::Circle,
    );
    let mut search = SearchInfo::new(game);
    assert_eq!(mcts_step(&mut search, uct), vec![(0, 1)]);
    for _ in 0..50 {
        assert_eq!(mcts_step(&mut search, uct), vec![(0, 0), (0, 1)]);
    }
    assert_eq!(search.size(), 5);
}

#[test]
fn untried_moves_go_first() {
    assert!(outranks(None, Some(u64::MAX)));
    assert!(outranks(None, None));
    assert!(!outranks(Some(u64::MAX), None));
}

#[test]
fn keys_compare_as_numbers() {
    assert!(outranks(Some(3), Some(3)));
    assert!(outranks(Some(4), Some(3)));
    assert!(!outranks(Some(3), Some(4)));
}

#[test]
fn key_of_the_formula() {
    assert_eq!(uct(2, 1, 1), 1f64.to_bits());
    assert_eq!(uct(0, 1, 1), 0f64.to_bits());
    assert_eq!(uct(3, 2, 8), (0.75 + (2. * 8f64.ln() / 2.).sqrt()).to_bits());
    assert!(uct(1, 4, 13) > uct(9, 9, 13));
    assert!(uct(0, 1, 100) > uct(0, 2, 100));
    assert!(uct(2, 2, 100) > uct(1, 2, 100));
}

fn win_or_draw() -> TicTacToe {
    grid(
        [
            [Square::Circle, Square::Cross, Square::Circle],
            [Square::Cross, Square::Cross, Square::Circle],
            [Square::Empty, Square::Circle, Square::Empty],
        ],
        Square::Circle,
    )
}

#[test]
fn selection_takes_the_greater_key() {
    let most = |reward: u128, _: u64, _: u64| reward as u64;
    let mut search = SearchInfo::new(win_or_draw());
    for _ in 0..2 {
        mcts_step(&mut search, &most);
    }
    assert_eq!(search.size(), 3);
    for _ in 0..20 {
        mcts_step(&mut search, &most);
        assert_eq!(search.size(), 3);
    }
    let least = |reward: u128, _: u64, _: u64| u64::MAX - reward as u64;
    let mut search = SearchInfo::new(win_or_draw());
    for _ in 0..2 {
        mcts_step(&mut search, &least);
    }
    assert_eq!(search.size(), 3);
    mcts_step(&mut search, &least);
    assert_eq!(search.size(), 4);
}

#[test]
fn selection_takes_the_last_of_equal_keys() {
    let mut search = SearchInfo::new(win_or_draw());
    for _ in 0..20 {
        mcts_step(&mut search, |_: u128, _: u64, _: u64| 7);
    }
    assert_eq!(search.size(), 3);
}

#[test]
fn keys_are_asked_for_each_tried_move() {
    let asked: RefCell<Vec<(u128, u64, u64)>> = RefCell::new(Vec::new());
    let record = |reward: u128, visits: u64, parent: u64| {
        asked.borrow_mut().push((reward, visits, parent));
        reward as u64
    };
    let mut search = SearchInfo::new(win_or_draw());
    mcts_step(&mut search, &record);
    assert_eq!(*asked.borrow(), vec![]);
    mcts_step(&mut search, &record);
    assert_eq!(*asked.borrow(), vec![(2, 1, 1)]);
    asked.borrow_mut().clear();
    mcts_step(&mut search, &record);
    assert_eq!(*asked.borrow(), vec![(1, 1, 2), (2, 1, 2)]);
    asked.borrow_mut().clear();
    mcts_step(&mut search, &record);
    assert_eq!(*asked.borrow(), vec![(1, 1, 3), (4, 2, 3)]);
}

#[test]
fn key_is_what_the_function_gives() {
    assert_eq!(key(&uct, 2, 1, 1), 1f64.to_bits());
    assert_eq!(key(&|reward: u128, visits: u64, parent: u64| reward as u64 + visits + parent, 5, 3, 9), 17);
}

fn formula(reward: u128, visits: u64, parent: u64) -> f64 {
    reward as f64 / UNIT as f64 / visits as f64 + (2. * (parent as f64).ln() / visits as f64).sqrt()
}

#[test]
fn keys_order_moves_as_the_formula_does() {
    assert!(formula(1, 4, 13) > formula(9, 9, 13));
    assert!(uct(1, 4, 13) > uct(9, 9, 13));
    for parent in 1..40u64 {
        let mut moves = Vec::new();
        for visits in 1..=parent {
            for reward in 0..=2 * visits as u128 {
                moves.push((reward, visits));
            }
        }
        for &(r1, v1) in moves.iter().step_by(7) {
            for &(r2, v2) in moves.iter() {
                let by_key = uct(r1, v1, parent).cmp(&uct(r2, v2, parent));
                let by_formula =
                    OrderedFloat(formula(r1, v1, parent)).cmp(&OrderedFloat(formula(r2, v2, parent)));
                assert_eq!(by_key, by_formula);
            }
        }
    }
}
