use mcts::game::{Game, UNIT};
use mcts::search::SearchInfo;
use mcts::step::mcts_step;
use mcts::tictactoe::{Square, TicTacToe};

/// The key of a move: its mean reward in points plus the square root of twice
/// the logarithm of the parent's visits over its own, as the bits of the sum,
/// which order sums that are not negative as the sums are ordered.
fn uct(reward: u128, visits: u64, parent: u64) -> u64 {
    let mean = reward as f64 / UNIT as f64 / visits as f64;
    let bonus = (2. * (parent as f64).ln() / visits as f64).sqrt();
    (mean + bonus).to_bits()
}

#[test]
fn test_player_init() {
    assert_eq!(TicTacToe::new(3).player, Square::Circle)
}

#[test]
fn test_board_state_init() {
    let game = TicTacToe::new(5);
    assert_eq!(
        game.board,
        vec![
            vec![
                Square::Empty,
                Square::Empty,
                Square::Empty,
                Square::Empty,
                Square::Empty
            ],
            vec![
                Square::Empty,
                Square::Empty,
                Square::Empty,
                Square::Empty,
                Square::Empty
            ],
            vec![
                Square::Empty,
                Square::Empty,
                Square::Empty,
                Square::Empty,
                Square::Empty
            ],
            vec![
                Square::Empty,
                Square::Empty,
                Square::Empty,
                Square::Empty,
                Square::Empty
            ],
            vec![
                Square::Empty,
                Square::Empty,
                Square::Empty,
                Square::Empty,
                Square::Empty
            ]
        ]
    )
}

#[test]
fn check_winners() {
    let mut game = TicTacToe::new(10);
    assert_eq!(game.get_player_final_scores(), None);
    for col in 0..10 {
        game.board[0][col] = Square::Cross;
    }
    println!("{:#?}", game.board);
    let ret = vec![(Square::Cross, 2), (Square::Circle, 0)];
    assert_eq!(game.get_player_final_scores(), Some(ret))
}

#[test]
fn check_list() {
    let game = TicTacToe::new(2);
    assert_eq!(game.list_actions(), vec![(0, 0), (0, 1), (1, 0), (1, 1)])
}

#[test]
fn few_steps() {
    let game = TicTacToe::new(3);
    let mut search = SearchInfo::new(game);
    let mut x = Vec::new();

    for _ in 0..10000 {
        x = mcts_step(&mut search, uct)
    }

    assert_eq!(*x.first().expect(""), (1, 1))
}

#[test]
fn other_mark() {
    assert_eq!(Square::Circle.other(), Square::Cross);
    assert_eq!(Square::Cross.other(), Square::Circle);
}

#[test]
fn move_marks_the_cell_and_passes_the_turn() {
    let game = TicTacToe::new(3).do_action((1, 2)).expect("the move is legal");
    assert_eq!(game.player, Square::Cross);
    assert_eq!(game.board[1][2], Square::Circle);
    assert_eq!(game.list_actions().len(), 8);
    assert!(!game.list_actions().contains(&(1, 2)));
}

#[test]
fn move_to_a_marked_cell_is_refused() {
    let game = TicTacToe::new(3).do_action((1, 2)).expect("the move is legal");
    assert!(game.do_action((1, 2)).is_err());
}

#[test]
fn move_off_the_grid_is_refused() {
    assert!(TicTacToe::new(3).do_action((3, 0)).is_err());
    assert!(TicTacToe::new(3).do_action((0, 3)).is_err());
}

#[test]
fn column_wins() {
    let mut game = TicTacToe::new(3);
    game.player = Square::Cross;
    for row in 0..3 {
        game.board[row][1] = Square::Circle;
    }
    assert_eq!(
        game.get_player_final_scores(),
        Some(vec![(Square::Circle, 2), (Square::Cross, 0)])
    );
}

#[test]
fn diagonals_win() {
    let mut game = TicTacToe::new(3);
    for k in 0..3 {
        game.board[k][k] = Square::Cross;
    }
    assert_eq!(
        game.get_player_final_scores(),
        Some(vec![(Square::Cross, 2), (Square::Circle, 0)])
    );
    let mut game = TicTacToe::new(3);
    for k in 0..3 {
        game.board[k][2 - k] = Square::Cross;
    }
    assert_eq!(
        game.get_player_final_scores(),
        Some(vec![(Square::Cross, 2), (Square::Circle, 0)])
    );
}

#[test]
fn only_the_last_mover_can_have_won() {
    let mut game = TicTacToe::new(3);
    for col in 0..3 {
        game.board[0][col] = Square::Circle;
    }
    assert_eq!(game.get_player_final_scores(), None);
}

#[test]
fn full_grid_is_a_draw() {
    let mut game = TicTacToe::new(3);
    let marks = [
        [Square::Circle, Square::Cross, Square::Circle],
        [Square::Circle, Square::Cross, Square::Cross],
        [Square::Cross, Square::Circle, Square::Circle],
    ];
    for row in 0..3 {
        for col in 0..3 {
            game.board[row][col] = marks[row][col];
        }
    }
    assert_eq!(
        game.get_player_final_scores(),
        Some(vec![(Square::Cross, 1), (Square::Circle, 1)])
    );
    assert_eq!(game.list_actions(), vec![]);
}

#[test]
fn same_positions() {
    let game = TicTacToe::new(3);
    assert!(game.same_state(&game.duplicate()));
    assert!(!game.same_state(&TicTacToe::new(2)));
    let moved = game.duplicate().do_action((0, 0)).expect("the move is legal");
    assert!(!game.same_state(&moved));
    assert!(TicTacToe::same_player(&Square::Cross, &Square::Cross));
    assert!(!TicTacToe::same_player(&Square::Cross, &Square::Circle));
}

#[test]
fn clones_of_a_grid_compare_equal() {
    let game = TicTacToe::new(3).do_action((1, 1)).expect("the move is legal");
    let copy = game.clone();
    assert!(copy == game);
    assert!(copy.same_state(&game));
    assert!(game != TicTacToe::new(3));
}
