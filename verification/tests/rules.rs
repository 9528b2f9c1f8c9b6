use casual_go::model::{connected_group, neighbors, place_stone, Game, GameError, Stone, Turn};

fn empty_game(board_size: usize) -> Game {
    Game::new(board_size, 0, 1).unwrap()
}

/// Rebuilds a game around a hand-laid 3x3 position, as the scoring test
/// does.
fn three_by_three(board: Vec<Stone>, turn: Turn) -> Game {
    let mut game = empty_game(5);
    game.board_size = 3;
    game.board = board;
    game.valid_moves = vec![true; 9];
    game.history = vec![game.board.clone()];
    game.turn = turn;
    game
}

#[test]
fn test_neighbors() {
    let board = [
        Stone::Black,
        Stone::Black,
        Stone::White,
        Stone::Black,
        Stone::Black,
        Stone::Empty,
        Stone::Empty,
        Stone::White,
        Stone::Black,
    ];
    let expected = [1, 3, 5, 7];
    let mut neighbors = neighbors(3, &board, 4);
    neighbors.sort();
    assert!(neighbors == expected);
}

#[test]
fn test_connected_group() {
    let board = [
        Stone::Black,
        Stone::Black,
        Stone::White,
        Stone::Black,
        Stone::Black,
        Stone::Empty,
        Stone::Empty,
        Stone::White,
        Stone::Black,
    ];
    let expected: [usize; 4] = [0, 1, 3, 4];
    let mut group = connected_group(3, &board, 0);
    group.sort();
    for item in &group {
        println!("GROUP {}", item);
    }
    assert!(group == expected);
}

#[test]
fn test_scoring() {
    let mut game = Game::new(5, 0, 1).unwrap();
    game.board_size = 3;
    game.board = vec![
        Stone::Empty,
        Stone::Empty,
        Stone::Black,
        Stone::Black,
        Stone::Black,
        Stone::Empty,
        Stone::Black,
        Stone::White,
        Stone::Empty,
    ];
    let expected = [6, 1];
    assert_eq!(game.score(), expected);
}

#[test]
fn test_new_accepts_odd_sizes_and_handicaps() {
    for board_size in [5, 7, 9, 11, 13, 15, 17, 19] {
        for handicap in 1..=9 {
            let game = Game::new(board_size, 0, handicap).unwrap();
            assert_eq!(game.board_size, board_size);
            assert_eq!(game.board.len(), board_size * board_size);
            if handicap == 1 {
                assert!(game.turn == Turn::Black);
            } else {
                assert!(game.turn == Turn::Handicap);
            }
        }
    }
}

#[test]
fn test_new_rejects_bad_parameters() {
    assert!(matches!(Game::new(4, 0, 1), Err(GameError::Creation)));
    assert!(matches!(Game::new(6, 0, 1), Err(GameError::Creation)));
    assert!(matches!(Game::new(3, 0, 1), Err(GameError::Creation)));
    assert!(matches!(Game::new(21, 0, 1), Err(GameError::Creation)));
    assert!(matches!(Game::new(9, 0, 0), Err(GameError::Creation)));
    assert!(matches!(Game::new(9, 0, 10), Err(GameError::Creation)));
}

#[test]
fn test_rejected_play_changes_nothing() {
    let mut game = empty_game(5);
    game.play(Stone::Black, 12).unwrap();
    let board_before = game.board.clone();
    let history_len = game.history.len();
    // out of turn
    assert!(matches!(game.play(Stone::Black, 0), Err(GameError::Play)));
    // onto a stone
    assert!(matches!(game.play(Stone::White, 12), Err(GameError::Play)));
    // off the board
    assert!(matches!(game.play(Stone::White, 25), Err(GameError::Play)));
    assert!(game.board == board_before);
    assert_eq!(game.history.len(), history_len);
    assert!(game.turn == Turn::White);
}

#[test]
fn test_capture_removes_exactly_the_dead_group() {
    // White stone on 1 with Black at 0, 2; Black plays 6 and takes it.
    let mut game = empty_game(5);
    game.play(Stone::Black, 0).unwrap();
    game.play(Stone::White, 1).unwrap();
    game.play(Stone::Black, 2).unwrap();
    game.play(Stone::White, 23).unwrap();
    game.play(Stone::Black, 6).unwrap();
    assert!(game.board[1] == Stone::Empty);
    assert!(game.board[0] == Stone::Black);
    assert!(game.board[2] == Stone::Black);
    assert!(game.board[6] == Stone::Black);
    assert!(game.board[23] == Stone::White);
    // Black scores its three stones plus the freed territory at 1.
    assert_eq!(game.black_score, 4);
    assert_eq!(game.white_score, 1);
}

#[test]
fn test_place_stone_suicide_removes_own_group() {
    // A white stone thrown into a black-walled point leaves the board.
    let mut board = vec![Stone::Empty; 25];
    board[1] = Stone::Black;
    board[5] = Stone::Black;
    let captures = place_stone(5, &mut board, Stone::White, 0);
    assert_eq!(captures, 1);
    assert!(board[0] == Stone::Empty);
    assert!(board[1] == Stone::Black);
    assert!(board[5] == Stone::Black);
}

#[test]
fn test_superko_forbids_recapture() {
    let mut game = empty_game(5);
    game.play(Stone::Black, 1).unwrap();
    game.play(Stone::White, 2).unwrap();
    game.play(Stone::Black, 7).unwrap();
    game.play(Stone::White, 4).unwrap();
    game.play(Stone::Black, 20).unwrap();
    game.play(Stone::White, 8).unwrap();
    // Black takes the ko.
    game.play(Stone::Black, 3).unwrap();
    assert!(game.board[2] == Stone::Empty);
    assert!(game.board[3] == Stone::Black);
    // White may not take straight back: that would repeat the position.
    assert!(!game.valid_moves[2]);
    assert!(matches!(game.play(Stone::White, 2), Err(GameError::Play)));
}

#[test]
fn test_double_pass_ends_and_scores_stand() {
    let mut game = empty_game(5);
    game.play(Stone::Black, 12).unwrap();
    game.pass(Stone::White).unwrap();
    game.pass(Stone::Black).unwrap();
    assert!(game.turn == Turn::End);
    assert_eq!(game.score(), [25, 0]);
    assert_eq!(game.black_score, 25);
    assert_eq!(game.white_score, 0);
}

#[test]
fn test_pass_out_of_turn_is_rejected() {
    let mut game = empty_game(5);
    assert!(matches!(game.pass(Stone::White), Err(GameError::Play)));
    assert!(game.turn == Turn::Black);
    assert_eq!(game.passes, 0);
}

#[test]
fn test_black_resignation_scores() {
    let mut game = empty_game(5);
    game.resign(Stone::Black).unwrap();
    assert!(game.turn == Turn::End);
    assert_eq!(game.black_score, 0);
    assert_eq!(game.white_score, 25);
}

#[test]
fn test_white_resignation_scores() {
    let mut game = empty_game(5);
    game.play(Stone::Black, 12).unwrap();
    game.resign(Stone::White).unwrap();
    assert!(game.turn == Turn::End);
    assert_eq!(game.white_score, 0);
    assert_eq!(game.black_score, 25);
}

#[test]
fn test_handicap_placement() {
    let mut game = Game::new(9, 0, 4).unwrap();
    assert!(game.turn == Turn::Handicap);
    game.play_handicap(Stone::Black, &[20, 24, 56, 60]).unwrap();
    assert!(game.turn == Turn::White);
    for position in [20, 24, 56, 60] {
        assert!(game.board[position] == Stone::Black);
        assert!(!game.valid_moves[position]);
    }
    assert!(game.valid_moves[40]);
}

#[test]
fn test_handicap_rejections() {
    let mut game = Game::new(9, 0, 2).unwrap();
    // too many stones
    assert!(matches!(
        game.play_handicap(Stone::Black, &[0, 1, 2]),
        Err(GameError::Handicap)
    ));
    // a duplicate cell
    assert!(matches!(
        game.play_handicap(Stone::Black, &[5, 5]),
        Err(GameError::Handicap)
    ));
    // off the board
    assert!(matches!(
        game.play_handicap(Stone::Black, &[100]),
        Err(GameError::Handicap)
    ));
    // wrong colour
    assert!(matches!(
        game.play_handicap(Stone::White, &[0]),
        Err(GameError::Handicap)
    ));
    assert!(game.turn == Turn::Handicap);
    // outside the handicap phase
    let mut plain = empty_game(5);
    assert!(matches!(
        plain.play_handicap(Stone::Black, &[0]),
        Err(GameError::Handicap)
    ));
}

#[test]
fn test_suicide_into_surrounded_point_is_a_wasted_move() {
    // Black walls three sides of the centre, then closes it; White throws a
    // stone into the surrounded point.
    let mut game = three_by_three(
        vec![
            Stone::Empty,
            Stone::Black,
            Stone::Empty,
            Stone::Black,
            Stone::Empty,
            Stone::Black,
            Stone::Empty,
            Stone::Empty,
            Stone::Empty,
        ],
        Turn::Black,
    );
    game.play(Stone::Black, 7).unwrap();
    let board_before = game.board.clone();
    // the surrounded centre is still open to White
    assert!(game.valid_moves[4]);
    game.play(Stone::White, 4).unwrap();
    // the white stone removed itself; the board is as before the move
    assert!(game.board == board_before);
    assert!(game.turn == Turn::Black);
    // play continues: both sides may pass the game out
    game.pass(Stone::Black).unwrap();
    game.pass(Stone::White).unwrap();
    assert!(game.turn == Turn::End);
}

#[test]
fn test_game_error_text() {
    assert_eq!(GameError::Creation.text(), "Creation error");
    assert_eq!(GameError::Handicap.text(), "Handicap error");
    assert_eq!(GameError::Play.text(), "Play error");
}
