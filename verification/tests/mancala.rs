use mcts::game::Game;
use mcts::mancala::{Mancala, Player};

fn pits(game: &Mancala, player: Player) -> Vec<u8> {
    (0..6).map(|pit| game.pit(player, pit)).collect()
}

fn seeds(game: &Mancala) -> u32 {
    let mut sum = 0u32;
    for player in [Player::A, Player::B] {
        sum += game.store(player) as u32;
        for pit in 0..6 {
            sum += game.pit(player, pit) as u32;
        }
    }
    sum
}

fn play(moves: &[usize]) -> Mancala {
    let mut game = Mancala::new();
    for &pit in moves {
        game = game.do_action(pit).expect("the move is legal");
    }
    game
}

#[test]
fn other_player() {
    assert_eq!(Player::A.other(), Player::B);
    assert_eq!(Player::B.other(), Player::A);
}

#[test]
fn opening_position() {
    let game = Mancala::new();
    assert_eq!(game.get_current_player(), Player::A);
    assert_eq!(pits(&game, Player::A), vec![4, 4, 4, 4, 4, 4]);
    assert_eq!(pits(&game, Player::B), vec![4, 4, 4, 4, 4, 4]);
    assert_eq!(game.store(Player::A), 0);
    assert_eq!(game.store(Player::B), 0);
    assert_eq!(seeds(&game), 48);
    assert_eq!(game.get_player_final_scores(), None);
}

#[test]
fn opening_moves() {
    assert_eq!(Mancala::new().list_actions(), vec![0, 1, 2, 3, 4, 5]);
}

#[test]
fn empty_pits_are_not_listed() {
    let game = play(&[2]);
    assert_eq!(game.list_actions(), vec![0, 1, 3, 4, 5]);
}

#[test]
fn last_seed_in_store_moves_again() {
    let game = play(&[2]);
    assert_eq!(game.get_current_player(), Player::A);
    assert_eq!(pits(&game, Player::A), vec![4, 4, 0, 5, 5, 5]);
    assert_eq!(pits(&game, Player::B), vec![4, 4, 4, 4, 4, 4]);
    assert_eq!(game.store(Player::A), 1);
    assert_eq!(game.store(Player::B), 0);
}

#[test]
fn sowing_goes_on_into_the_other_row() {
    let game = play(&[2, 5]);
    assert_eq!(game.get_current_player(), Player::B);
    assert_eq!(pits(&game, Player::A), vec![4, 4, 0, 5, 5, 0]);
    assert_eq!(pits(&game, Player::B), vec![5, 5, 5, 5, 4, 4]);
    assert_eq!(game.store(Player::A), 2);
    assert_eq!(game.store(Player::B), 0);
}

#[test]
fn second_player_sows_past_own_store() {
    let game = play(&[2, 5, 4]);
    assert_eq!(game.get_current_player(), Player::A);
    assert_eq!(pits(&game, Player::A), vec![5, 5, 0, 5, 5, 0]);
    assert_eq!(pits(&game, Player::B), vec![5, 5, 5, 5, 0, 5]);
    assert_eq!(game.store(Player::A), 2);
    assert_eq!(game.store(Player::B), 1);
}

#[test]
fn capture_empties_both_pits_into_the_store() {
    let before = play(&[2, 5, 4]);
    assert_eq!(before.pit(Player::A, 5), 0);
    assert_eq!(before.pit(Player::B, 0), 5);
    let after = before.do_action(0).expect("the move is legal");
    assert_eq!(after.pit(Player::A, 5), 0);
    assert_eq!(after.pit(Player::B, 0), 0);
    assert_eq!(after.store(Player::A), 2 + 5 + 1);
    assert_eq!(pits(&after, Player::A), vec![0, 6, 1, 6, 6, 0]);
    assert_eq!(pits(&after, Player::B), vec![0, 5, 5, 5, 0, 5]);
    assert_eq!(after.store(Player::B), 1);
    assert_eq!(after.get_current_player(), Player::B);
    assert_eq!(seeds(&after), 48);
}

#[test]
fn every_move_keeps_the_seeds() {
    let mut game = Mancala::new();
    let mut turn = 0usize;
    while game.get_player_final_scores().is_none() {
        let moves = game.list_actions();
        assert!(!moves.is_empty());
        let pit = moves[turn % moves.len()];
        game = game.do_action(pit).expect("a listed move is legal");
        assert_eq!(seeds(&game), 48);
        turn += 1;
        assert!(turn < 10_000);
    }
}

#[test]
fn pit_out_of_range_is_refused() {
    assert!(Mancala::new().do_action(6).is_err());
    assert!(Mancala::new().do_action(usize::MAX).is_err());
}

#[test]
fn empty_pit_is_refused() {
    let game = play(&[2]);
    assert!(game.do_action(2).is_err());
}

#[test]
fn game_ends_when_a_row_is_empty() {
    let game = play(&[0, 0, 1, 2, 0, 3, 0, 4, 0]);
    assert_eq!(game.get_player_final_scores(), None);
    let game = game.do_action(5).expect("the move is legal");
    assert_eq!(pits(&game, Player::A), vec![0, 0, 0, 0, 0, 0]);
    assert_eq!(pits(&game, Player::B), vec![1, 12, 8, 8, 7, 0]);
    assert_eq!(game.store(Player::A), 12);
    assert_eq!(game.store(Player::B), 0);
    assert_eq!(
        game.get_player_final_scores(),
        Some(vec![(Player::B, 2), (Player::A, 0)])
    );
}

#[test]
fn final_scores_are_a_win_or_a_draw() {
    for first in 0..6 {
        let mut game = Mancala::new();
        let mut turn = first;
        loop {
            if let Some(scores) = game.get_player_final_scores() {
                assert_eq!(scores.len(), 2);
                assert_ne!(scores[0].0, scores[1].0);
                let pair = (scores[0].1, scores[1].1);
                assert!(pair == (2, 0) || pair == (0, 2) || pair == (1, 1));
                break;
            }
            let moves = game.list_actions();
            let pit = moves[(turn * 7 + 3) % moves.len()];
            game = game.do_action(pit).expect("a listed move is legal");
            turn += 1;
        }
    }
}

#[test]
fn copies_are_the_same_position() {
    let game = play(&[2, 5]);
    let copy = game.duplicate();
    assert!(game.same_state(&copy));
    assert!(!game.same_state(&Mancala::new()));
    let moved = copy.do_action(0).expect("the move is legal");
    assert!(!game.same_state(&moved));
}

#[test]
fn players_compare() {
    assert!(Mancala::same_player(&Player::A, &Player::A));
    assert!(!Mancala::same_player(&Player::A, &Player::B));
}

fn cells(game: &Mancala) -> Vec<u8> {
    let mut all = pits(game, Player::A);
    all.push(game.store(Player::A));
    all.extend(pits(game, Player::B));
    all.push(game.store(Player::B));
    all
}

fn given(player: Player, seeds: [u8; 14]) -> Mancala {
    Mancala::from_cells(player, seeds.to_vec()).expect("the board is well formed")
}

#[test]
fn given_position_is_held_as_given() {
    let seeds = [1, 0, 4, 4, 4, 4, 0, 4, 4, 4, 4, 4, 4, 0];
    let game = given(Player::B, seeds);
    assert_eq!(game.get_current_player(), Player::B);
    assert_eq!(cells(&game), seeds.to_vec());
    let start = given(Player::A, [4, 4, 4, 4, 4, 4, 0, 4, 4, 4, 4, 4, 4, 0]);
    assert!(start.same_state(&Mancala::new()));
}

#[test]
fn position_with_too_few_or_too_many_cells_is_refused() {
    assert!(Mancala::from_cells(Player::A, vec![4; 13]).is_none());
    assert!(Mancala::from_cells(Player::A, vec![4; 15]).is_none());
    assert!(Mancala::from_cells(Player::A, Vec::new()).is_none());
}

#[test]
fn position_with_more_seeds_than_a_cell_counts_is_refused() {
    let mut seeds = vec![0u8; 14];
    seeds[0] = 255;
    assert!(Mancala::from_cells(Player::A, seeds.clone()).is_some());
    seeds[13] = 1;
    assert!(Mancala::from_cells(Player::A, seeds).is_none());
    assert!(Mancala::from_cells(Player::B, vec![255; 14]).is_none());
}

#[test]
fn capture_on_a_given_board() {
    let before = given(Player::A, [1, 0, 4, 4, 4, 4, 0, 4, 4, 4, 4, 4, 4, 0]);
    let after = before.do_action(0).expect("the move is legal");
    assert_eq!(cells(&after), vec![0, 0, 4, 4, 4, 4, 5, 4, 4, 4, 4, 0, 4, 0]);
    assert_eq!(after.get_current_player(), Player::B);
    assert_eq!(seeds(&after), 41);
}

#[test]
fn no_capture_opposite_an_empty_pit() {
    let before = given(Player::A, [1, 0, 4, 4, 4, 4, 0, 4, 4, 4, 4, 0, 4, 0]);
    let after = before.do_action(0).expect("the move is legal");
    assert_eq!(cells(&after), vec![0, 1, 4, 4, 4, 4, 0, 4, 4, 4, 4, 0, 4, 0]);
    assert_eq!(after.get_current_player(), Player::B);
}

#[test]
fn no_capture_in_a_pit_that_held_seeds() {
    let before = given(Player::A, [1, 2, 4, 4, 4, 4, 0, 4, 4, 4, 4, 4, 4, 0]);
    let after = before.do_action(0).expect("the move is legal");
    assert_eq!(cells(&after), vec![0, 3, 4, 4, 4, 4, 0, 4, 4, 4, 4, 4, 4, 0]);
    assert_eq!(after.get_current_player(), Player::B);
}

#[test]
fn capture_after_a_whole_round() {
    let before = given(Player::A, [13, 0, 0, 0, 0, 0, 0, 1, 1, 1, 1, 1, 1, 0]);
    let after = before.do_action(0).expect("the move is legal");
    assert_eq!(cells(&after), vec![0, 1, 1, 1, 1, 1, 4, 2, 2, 2, 2, 2, 0, 0]);
    assert_eq!(after.get_current_player(), Player::B);
    assert_eq!(seeds(&after), 19);
}

#[test]
fn capture_by_the_second_player() {
    let before = given(Player::B, [4, 4, 2, 4, 4, 4, 0, 0, 0, 1, 0, 0, 0, 3]);
    let after = before.do_action(2).expect("the move is legal");
    assert_eq!(cells(&after), vec![4, 4, 0, 4, 4, 4, 0, 0, 0, 0, 0, 0, 0, 6]);
    assert_eq!(after.get_current_player(), Player::A);
}

#[test]
fn sowing_passes_over_the_store_of_the_opponent() {
    let before = given(Player::B, [4, 4, 4, 4, 4, 4, 0, 0, 0, 0, 0, 0, 9, 3]);
    let after = before.do_action(5).expect("the move is legal");
    assert_eq!(cells(&after), vec![5, 5, 5, 5, 0, 5, 0, 1, 0, 0, 0, 0, 0, 10]);
    assert_eq!(after.get_current_player(), Player::A);
    assert_eq!(seeds(&after), 36);
}

#[test]
fn scores_of_given_boards() {
    let even = given(Player::A, [0, 0, 0, 0, 0, 0, 5, 1, 1, 1, 0, 0, 0, 2]);
    assert_eq!(
        even.get_player_final_scores(),
        Some(vec![(Player::A, 1), (Player::B, 1)])
    );
    let first = given(Player::B, [1, 0, 0, 0, 0, 0, 9, 0, 0, 0, 0, 0, 0, 7]);
    assert_eq!(
        first.get_player_final_scores(),
        Some(vec![(Player::A, 2), (Player::B, 0)])
    );
    let second = given(Player::A, [0, 0, 0, 0, 0, 0, 11, 2, 0, 0, 0, 0, 0, 10]);
    assert_eq!(
        second.get_player_final_scores(),
        Some(vec![(Player::B, 2), (Player::A, 0)])
    );
    let open = given(Player::A, [0, 0, 0, 0, 0, 1, 10, 2, 0, 0, 0, 0, 0, 7]);
    assert_eq!(open.get_player_final_scores(), None);
}

#[test]
fn last_move_into_the_store_ends_the_game() {
    let before = given(Player::A, [0, 0, 0, 0, 0, 1, 10, 2, 0, 0, 0, 0, 0, 7]);
    let after = before.do_action(5).expect("the move is legal");
    assert_eq!(cells(&after), vec![0, 0, 0, 0, 0, 0, 11, 2, 0, 0, 0, 0, 0, 7]);
    assert_eq!(after.get_current_player(), Player::A);
    assert_eq!(after.list_actions(), vec![]);
    assert_eq!(
        after.get_player_final_scores(),
        Some(vec![(Player::A, 2), (Player::B, 0)])
    );
}

#[test]
fn clones_compare_equal() {
    let game = play(&[2, 5]);
    let copy = game.clone();
    assert!(copy == game);
    assert!(copy.same_state(&game));
    assert!(game != Mancala::new());
}
