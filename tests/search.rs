use board_game_ai::{
    simulate, Game, GameStatus, MCTSStrategy, MinMaxStrategy, NodeData, OutcomeHeuristic, Player, RandomStrategy, SearchTree,
    SelectionPolicy, Strategy, TicTacToe, TicTacToeAction, TicTacToeCell, TicTacToeState,
};

/// The UCT score `wins/(n+1) + sqrt(2 ln(N+1)/(n+1))`.
struct Uct;

fn uct(parent: u64, d: NodeData) -> f64 {
    let wins = d.half_wins as f64 / 2.0;
    let n = d.playouts as f64;
    wins / (n + 1.0) + (2.0 * (parent as f64 + 1.0).ln() / (n + 1.0)).sqrt()
}

impl SelectionPolicy for Uct {
    fn prefers(&self, parent_playouts: u64, candidate: NodeData, incumbent: NodeData) -> bool {
        uct(parent_playouts, candidate) > uct(parent_playouts, incumbent)
    }
}

fn board(s: &str, player: Player) -> TicTacToeState {
    let mut cells = [TicTacToeCell::Empty; 9];
    for (i, c) in s.chars().enumerate() {
        cells[i] = match c {
            'X' => TicTacToeCell::X,
            'O' => TicTacToeCell::O,
            _ => TicTacToeCell::Empty,
        };
    }
    TicTacToeState { board: cells, player }
}

fn positions() -> Vec<TicTacToeState> {
    let g = TicTacToe {};
    let mut v = vec![
        g.init(),
        board("XX.OO....", Player::Player1),
        board("XX.OO...X", Player::Player2),
        board("X...O....", Player::Player1),
        board("XO..X....", Player::Player2),
        board("X.O.XO...", Player::Player1),
        board("OX.XO.X..", Player::Player2),
    ];
    v.push(g.play(&TicTacToeAction { cell: 4 }, &g.init()));
    v
}

fn minmax<H>(heuristic: H, depth: u8, alpha_beta: bool) -> MinMaxStrategy<H> {
    MinMaxStrategy { heuristic, search_depth: depth, alpha_beta }
}

#[test]
fn strategies_pick_legal_moves() {
    let g = TicTacToe {};
    for s in positions() {
        let legal: Vec<u8> = g.actions(&s).iter().map(|a| a.cell).collect();
        let picks = vec![
            RandomStrategy {}.select_action(&g, &s).cell,
            minmax(OutcomeHeuristic {}, 2, true).select_action(&g, &s).cell,
            minmax(OutcomeHeuristic {}, 1, false).select_action(&g, &s).cell,
            MCTSStrategy { policy: Uct }.select_action(&g, &s).cell,
        ];
        for p in picks {
            assert!(legal.contains(&p));
        }
    }
}

#[test]
fn pruning_keeps_the_choice() {
    let g = TicTacToe {};
    for s in positions() {
        for depth in 0..4u8 {
            let plain = minmax(OutcomeHeuristic {}, depth, false).best_action(&g, &s);
            let pruned = minmax(OutcomeHeuristic {}, depth, true).best_action(&g, &s);
            assert_eq!(plain, pruned);
        }
    }
}

#[test]
fn iterative_search_agrees_with_recursive() {
    let g = TicTacToe {};
    for s in positions() {
        for depth in 0..4u8 {
            let plain = minmax(OutcomeHeuristic {}, depth, false).best_action(&g, &s);
            let iterative = minmax(OutcomeHeuristic {}, depth, false).best_action_iterative(&g, &s);
            assert_eq!(plain, iterative);
        }
    }
}

#[test]
fn minmax_takes_a_win_in_one() {
    let g = TicTacToe {};
    let s = board("XX.OO....", Player::Player1);
    assert_eq!(minmax(OutcomeHeuristic {}, 0, false).best_action(&g, &s).cell, 2);
    assert_eq!(minmax(OutcomeHeuristic {}, 3, true).best_action(&g, &s).cell, 2);
    assert_eq!(minmax(OutcomeHeuristic {}, 3, false).best_action_iterative(&g, &s).cell, 2);
}

#[test]
fn minmax_blocks_a_threat() {
    let g = TicTacToe {};
    let s = board("XX..O....", Player::Player2);
    assert_eq!(minmax(OutcomeHeuristic {}, 2, true).best_action(&g, &s).cell, 2);
    assert_eq!(minmax(OutcomeHeuristic {}, 2, false).best_action_iterative(&g, &s).cell, 2);
}

#[test]
fn minmax_ties_go_to_the_first_move() {
    let g = TicTacToe {};
    let s = g.init();
    assert_eq!(minmax(OutcomeHeuristic {}, 0, false).best_action(&g, &s).cell, 0);
    assert_eq!(minmax(OutcomeHeuristic {}, 0, true).best_action(&g, &s).cell, 0);
    assert_eq!(minmax(OutcomeHeuristic {}, 0, false).best_action_iterative(&g, &s).cell, 0);
}

#[test]
fn strategy_names() {
    assert_eq!(Strategy::<TicTacToe>::name(&RandomStrategy {}), "Random");
    assert_eq!(Strategy::<TicTacToe>::name(&minmax(OutcomeHeuristic {}, 1, true)), "MinMaxAB");
    assert_eq!(Strategy::<TicTacToe>::name(&minmax(OutcomeHeuristic {}, 1, false)), "MinMax");
    assert_eq!(Strategy::<TicTacToe>::name(&MCTSStrategy { policy: Uct }), "MCTS");
}

#[test]
fn mcts_finds_a_win_in_one_most_of_the_time() {
    let g = TicTacToe {};
    let s = board("XX.OO....", Player::Player1);
    let mut wins = 0;
    for _ in 0..20 {
        if (MCTSStrategy { policy: Uct }).select_action(&g, &s).cell == 2 {
            wins += 1;
        }
    }
    assert!(wins >= 15, "won {} of 20", wins);
}

#[test]
fn mcts_search_visits_every_root_move() {
    let g = TicTacToe {};
    let s = board("XX.OO....", Player::Player1);
    let tree = SearchTree::search(&g, &s, &Uct, 100);
    let m = tree.most_visited(&g, &s);
    assert!(m < 5);
    let tree = SearchTree::search(&g, &s, &Uct, 3);
    assert!(tree.most_visited(&g, &s) < 3);
}

#[test]
fn playout_ends_the_game() {
    let g = TicTacToe {};
    for _ in 0..20 {
        let st = board_game_ai::playout(&g, &g.init());
        assert_ne!(st, GameStatus::InProgress);
    }
    assert_eq!(board_game_ai::playout(&g, &board("XXXOO....", Player::Player2)), GameStatus::Player1Win);
}

#[test]
fn random_games_end_within_nine_plies() {
    let g = TicTacToe {};
    for _ in 0..50 {
        let r = simulate(&g, &RandomStrategy {}, &RandomStrategy {});
        assert_ne!(r.status, GameStatus::InProgress);
        assert!(r.num_plies <= 9);
        assert!(r.num_plies >= 5);
        assert!(r.num_moves <= r.num_plies);
    }
}

#[test]
fn full_depth_minmax_never_loses_to_random() {
    let g = TicTacToe {};
    for _ in 0..3 {
        let r = simulate(&g, &minmax(OutcomeHeuristic {}, 9, true), &RandomStrategy {});
        assert_ne!(r.status, GameStatus::Player2Win);
        let r = simulate(&g, &RandomStrategy {}, &minmax(OutcomeHeuristic {}, 9, true));
        assert_ne!(r.status, GameStatus::Player1Win);
    }
}

#[test]
fn simulate_counts_the_second_players_moves() {
    let g = TicTacToe {};
    for _ in 0..20 {
        let r = simulate(&g, &RandomStrategy {}, &RandomStrategy {});
        assert_eq!(r.num_moves, r.num_plies / 2);
    }
}

#[test]
fn evaluate_with_widest_window_matches_plain_search() {
    let g = TicTacToe {};
    let widest = board_game_ai::AlphaBeta { alpha: i64::MIN, beta: i64::MAX };
    for s in positions() {
        for depth in 0..5u8 {
            let me = g.player(&s);
            let plain = board_game_ai::evaluate(&g, &s, depth, &OutcomeHeuristic {}, None, me);
            let pruned = board_game_ai::evaluate(&g, &s, depth, &OutcomeHeuristic {}, Some(widest), me);
            assert_eq!(plain, pruned);
        }
    }
    let win = board("XX.OO....", Player::Player1);
    let after = g.play(&TicTacToeAction { cell: 2 }, &win);
    assert_eq!(board_game_ai::evaluate(&g, &after, 3, &OutcomeHeuristic {}, None, Player::Player1), 1);
}
