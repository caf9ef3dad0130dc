//! Adversarial search for two-player, zero-sum, perfect-information games:
//! the game and strategy interfaces, a random strategy, depth-bounded minimax
//! (recursive with optional alpha-beta pruning, and iterative with explicit
//! stacks), and Monte-Carlo tree search.
pub mod benchmark;
pub mod game;
pub mod iterative;
pub mod mcts;
pub mod minmax;
pub mod playground;
pub mod random;
pub mod tic_tac_toe;

pub use benchmark::{average_move_time, position_of_name, BenchmarkResult, PlayerStats};
pub use game::{find_action, other_player, ActionParser, Game, GameStatus, Player, Strategy};
pub use iterative::{NodeFrame, ScoreFrame};
pub use mcts::{playout, MCTSStrategy, NodeData, SearchTree, SelectionPolicy, PLAYOUT_BUDGET};
pub use minmax::{evaluate, AlphaBeta, Heuristic, MinMaxStrategy, OutcomeHeuristic};
pub use playground::{simulate, MatchResult};
pub use random::RandomStrategy;
pub use tic_tac_toe::{TicTacToe, TicTacToeAction, TicTacToeCell, TicTacToeState};
