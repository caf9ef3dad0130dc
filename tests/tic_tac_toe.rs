use board_game_ai::{other_player, Game, GameStatus, Player, TicTacToe, TicTacToeAction, TicTacToeCell, TicTacToeState};

fn board(s: &str) -> TicTacToeState {
    let mut cells = [TicTacToeCell::Empty; 9];
    let mut xs = 0;
    let mut os = 0;
    for (i, c) in s.chars().enumerate() {
        cells[i] = match c {
            'X' => {
                xs += 1;
                TicTacToeCell::X
            }
            'O' => {
                os += 1;
                TicTacToeCell::O
            }
            _ => TicTacToeCell::Empty,
        };
    }
    TicTacToeState { board: cells, player: if xs > os { Player::Player2 } else { Player::Player1 } }
}

#[test]
fn other_player_swaps_and_is_involutive() {
    assert_eq!(other_player(Player::Player1), Player::Player2);
    assert_eq!(other_player(Player::Player2), Player::Player1);
    assert_eq!(other_player(other_player(Player::Player1)), Player::Player1);
    assert_eq!(other_player(other_player(Player::Player2)), Player::Player2);
}

#[test]
fn init_is_empty_with_first_player_to_move() {
    let g = TicTacToe {};
    let s = g.init();
    assert!(s.board.iter().all(|c| *c == TicTacToeCell::Empty));
    assert_eq!(g.player(&s), Player::Player1);
    assert_eq!(g.status(&s), GameStatus::InProgress);
    let cells: Vec<u8> = g.actions(&s).iter().map(|a| a.cell).collect();
    assert_eq!(cells, vec![0, 1, 2, 3, 4, 5, 6, 7, 8]);
    assert_eq!(g.name(), "Tic-Tac-Toe");
}

#[test]
fn play_marks_the_cell_and_passes_the_turn() {
    let g = TicTacToe {};
    let s = g.init();
    let s1 = g.play(&TicTacToeAction { cell: 4 }, &s);
    assert_eq!(s1.board[4], TicTacToeCell::X);
    assert_eq!(s1.player, Player::Player2);
    assert_eq!(s.board[4], TicTacToeCell::Empty);
    let s2 = g.play(&TicTacToeAction { cell: 0 }, &s1);
    assert_eq!(s2.board[0], TicTacToeCell::O);
    assert_eq!(s2.player, Player::Player1);
    let cells: Vec<u8> = g.actions(&s2).iter().map(|a| a.cell).collect();
    assert_eq!(cells, vec![1, 2, 3, 5, 6, 7, 8]);
}

#[test]
fn every_line_of_x_wins_for_player_one() {
    let g = TicTacToe {};
    let lines = [[0, 1, 2], [3, 4, 5], [6, 7, 8], [0, 3, 6], [1, 4, 7], [2, 5, 8], [0, 4, 8], [2, 4, 6]];
    for line in lines.iter() {
        let mut s = board("");
        for &i in line.iter() {
            s.board[i] = TicTacToeCell::X;
        }
        assert_eq!(g.status(&s), GameStatus::Player1Win);
        for &i in line.iter() {
            s.board[i] = TicTacToeCell::O;
        }
        assert_eq!(g.status(&s), GameStatus::Player2Win);
    }
}

#[test]
fn full_board_without_line_is_a_draw() {
    let g = TicTacToe {};
    assert_eq!(g.status(&board("XOXXOOOXX")), GameStatus::Draw);
    assert!(g.actions(&board("XOXXOOOXX")).is_empty());
}

#[test]
fn board_with_empty_cell_and_no_line_is_in_progress() {
    let g = TicTacToe {};
    assert_eq!(g.status(&board("XOXXOOOX.")), GameStatus::InProgress);
    assert_eq!(g.status(&board("X........")), GameStatus::InProgress);
}

#[test]
fn win_on_full_board_beats_draw() {
    let g = TicTacToe {};
    assert_eq!(g.status(&board("XXXOOXOXO")), GameStatus::Player1Win);
}

#[test]
fn cell_to_str_shows_mark_or_number() {
    let g = TicTacToe {};
    let s = board("X.O......");
    assert_eq!(g.cell_to_str(&s, 0), "X");
    assert_eq!(g.cell_to_str(&s, 1), "1");
    assert_eq!(g.cell_to_str(&s, 2), "O");
    assert_eq!(g.cell_to_str(&s, 8), "8");
}

#[test]
fn serialize_state_draws_three_rows() {
    let g = TicTacToe {};
    assert_eq!(g.serialize_state(&board("X...O...X")), "X|1|2\n-----\n3|O|5\n-----\n6|7|X");
    assert_eq!(g.serialize_state(&g.init()), "0|1|2\n-----\n3|4|5\n-----\n6|7|8");
}

#[test]
fn status_in_words() {
    assert_eq!(GameStatus::Player1Win.to_text(), "Player 1 Win");
    assert_eq!(GameStatus::Player2Win.to_text(), "Player 2 Win");
    assert_eq!(GameStatus::Draw.to_text(), "Draw");
    assert_eq!(GameStatus::InProgress.to_text(), "In Progress");
}

#[test]
fn find_action_locates_legal_moves_only() {
    let g = TicTacToe {};
    let s = board("X...O....");
    assert_eq!(board_game_ai::find_action(&g, &s, &TicTacToeAction { cell: 1 }), Some(0));
    assert_eq!(board_game_ai::find_action(&g, &s, &TicTacToeAction { cell: 5 }), Some(3));
    assert_eq!(board_game_ai::find_action(&g, &s, &TicTacToeAction { cell: 4 }), None);
    assert_eq!(board_game_ai::find_action(&g, &s, &TicTacToeAction { cell: 9 }), None);
}
