use board_game_ai::{average_move_time, BenchmarkResult, GameStatus, PlayerStats};

#[test]
fn new_stats_are_zero() {
    let s = PlayerStats::new();
    assert_eq!(s.get_avg_move_time(), 0);
    assert_eq!(s.get_avg_win_move_count(), 0);
    assert_eq!(s.get_num_wins(), 0);
}

#[test]
fn running_means() {
    let mut s = PlayerStats::new();
    s.add_move_time(0, 10);
    assert_eq!(s.get_avg_move_time(), 10);
    s.add_move_time(1, 21);
    assert_eq!(s.get_avg_move_time(), 15);
    s.add_win(4);
    s.add_win(5);
    assert_eq!(s.get_num_wins(), 2);
    assert_eq!(s.get_avg_win_move_count(), 4);
}

#[test]
fn average_move_time_divides() {
    assert_eq!(average_move_time(100, 3), 33);
    assert_eq!(average_move_time(0, 1), 0);
}

#[test]
fn record_counts_the_winner() {
    let mut b = BenchmarkResult::new(3);
    b.record(0, GameStatus::Player1Win, 3, 30, 60);
    assert_eq!(b.match_count, 3);
    assert_eq!(b.p1_stats.get_avg_move_time(), 10);
    assert_eq!(b.p2_stats.get_avg_move_time(), 20);
    assert_eq!(b.p1_stats.get_num_wins(), 1);
    assert_eq!(b.p1_stats.get_avg_win_move_count(), 3);
    assert_eq!(b.p2_stats.get_num_wins(), 0);
    b.record(1, GameStatus::Draw, 4, 40, 0);
    assert_eq!(b.p1_stats.get_avg_move_time(), 10);
    assert_eq!(b.p2_stats.get_avg_move_time(), 10);
    assert_eq!(b.p1_stats.get_num_wins(), 1);
    b.record(2, GameStatus::Player2Win, 5, 0, 50);
    assert_eq!(b.p2_stats.get_num_wins(), 1);
    assert_eq!(b.p2_stats.get_avg_win_move_count(), 5);
}

#[test]
fn position_of_name_finds_the_first_match() {
    let names = vec!["Human".to_string(), "Random".to_string(), "Random".to_string()];
    assert_eq!(board_game_ai::position_of_name(&names, &"Random".to_string()), Some(1));
    assert_eq!(board_game_ai::position_of_name(&names, &"Human".to_string()), Some(0));
    assert_eq!(board_game_ai::position_of_name(&names, &"MCTS".to_string()), None);
}
