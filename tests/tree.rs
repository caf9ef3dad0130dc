use board_game_ai::{Game, GameStatus, NodeData, Player, SearchTree, SelectionPolicy, TicTacToe, TicTacToeCell, TicTacToeState};

/// Always keeps the oldest child.
struct Oldest;

impl SelectionPolicy for Oldest {
    fn prefers(&self, _parent_playouts: u64, _candidate: NodeData, _incumbent: NodeData) -> bool {
        false
    }
}

/// Always prefers the least visited child.
struct LeastVisited;

impl SelectionPolicy for LeastVisited {
    fn prefers(&self, _parent_playouts: u64, candidate: NodeData, incumbent: NodeData) -> bool {
        candidate.playouts < incumbent.playouts
    }
}

fn two_moves_left() -> TicTacToeState {
    // X O X / X O O / . X . with O to move.
    let b = [
        TicTacToeCell::X,
        TicTacToeCell::O,
        TicTacToeCell::X,
        TicTacToeCell::X,
        TicTacToeCell::O,
        TicTacToeCell::O,
        TicTacToeCell::Empty,
        TicTacToeCell::X,
        TicTacToeCell::Empty,
    ];
    TicTacToeState { board: b, player: Player::Player2 }
}

#[test]
fn new_tree_holds_the_root() {
    let g = TicTacToe {};
    let root = g.init();
    let t = SearchTree::new(&g, &root);
    assert_eq!(t.node_count(&g, &root), 1);
    let d = t.stats(&g, &root, 1);
    assert_eq!(d.action, None);
    assert_eq!(d.playouts, 0);
    assert_eq!(d.half_wins, 0);
    assert!(t.children(&g, &root, 1).is_empty());
}

#[test]
fn expand_adds_children_in_move_order() {
    let g = TicTacToe {};
    let root = g.init();
    let mut t = SearchTree::new(&g, &root);
    let a = t.expand(&g, &root, 1);
    let b = t.expand(&g, &root, 1);
    assert_eq!((a, b), (2, 3));
    assert_eq!(t.children(&g, &root, 1), vec![2, 3]);
    assert_eq!(t.stats(&g, &root, 2).action, Some(0));
    assert_eq!(t.stats(&g, &root, 3).action, Some(1));
    let c = t.expand(&g, &root, 3);
    assert_eq!(c, 4);
    assert_eq!(t.children(&g, &root, 3), vec![4]);
    assert_eq!(t.stats(&g, &root, 4).action, Some(0));
    assert_eq!(t.node_count(&g, &root), 4);
}

#[test]
fn backpropagate_credits_the_side_that_moved_in() {
    let g = TicTacToe {};
    let root = g.init();
    let mut t = SearchTree::new(&g, &root);
    let a = t.expand(&g, &root, 1);
    let b = t.expand(&g, &root, a);
    // Root: X to move; a: O to move; b: X to move.
    t.backpropagate(&g, &root, b, GameStatus::Player1Win);
    assert_eq!(t.stats(&g, &root, b).half_wins, 0);
    assert_eq!(t.stats(&g, &root, a).half_wins, 2);
    assert_eq!(t.stats(&g, &root, 1).half_wins, 0);
    for k in 1..=3 {
        assert_eq!(t.stats(&g, &root, k).playouts, 1);
    }
    t.backpropagate(&g, &root, a, GameStatus::Draw);
    assert_eq!(t.stats(&g, &root, a).half_wins, 3);
    assert_eq!(t.stats(&g, &root, a).playouts, 2);
    assert_eq!(t.stats(&g, &root, b).playouts, 1);
    assert_eq!(t.stats(&g, &root, 1).half_wins, 1);
    t.backpropagate(&g, &root, b, GameStatus::Player2Win);
    assert_eq!(t.stats(&g, &root, b).half_wins, 2);
    assert_eq!(t.stats(&g, &root, a).half_wins, 3);
    assert_eq!(t.stats(&g, &root, 1).half_wins, 3);
}

#[test]
fn select_leaf_expands_the_root_first() {
    let g = TicTacToe {};
    let root = two_moves_left();
    let mut t = SearchTree::new(&g, &root);
    assert_eq!(t.select_leaf(&g, &root, &Oldest), 2);
    assert_eq!(t.select_leaf(&g, &root, &Oldest), 3);
    assert_eq!(t.children(&g, &root, 1), vec![2, 3]);
    // The root is full: the oldest child is walked into and expanded.
    assert_eq!(t.select_leaf(&g, &root, &Oldest), 4);
    assert_eq!(t.children(&g, &root, 2), vec![4]);
}

#[test]
fn most_visited_takes_the_first_of_the_most_visited() {
    let g = TicTacToe {};
    let root = two_moves_left();
    let mut t = SearchTree::new(&g, &root);
    let a = t.expand(&g, &root, 1);
    let b = t.expand(&g, &root, 1);
    t.backpropagate(&g, &root, b, GameStatus::Draw);
    assert_eq!(t.most_visited(&g, &root), 1);
    t.backpropagate(&g, &root, a, GameStatus::Draw);
    assert_eq!(t.most_visited(&g, &root), 0);
}

#[test]
fn search_counts_every_round_at_the_root() {
    let g = TicTacToe {};
    let root = two_moves_left();
    let t = SearchTree::search(&g, &root, &LeastVisited, 10);
    assert_eq!(t.stats(&g, &root, 1).playouts, 10);
    let kids = t.children(&g, &root, 1);
    assert_eq!(kids.len(), 2);
    let total: u64 = kids.iter().map(|k| t.stats(&g, &root, *k).playouts).sum();
    assert_eq!(total, 10);
    for k in 1..=t.node_count(&g, &root) {
        assert!(t.stats(&g, &root, k).playouts >= 1);
    }
}

#[test]
fn most_visited_action_is_the_move_of_the_busiest_child() {
    let g = TicTacToe {};
    let root = two_moves_left();
    let mut t = SearchTree::new(&g, &root);
    let a = t.expand(&g, &root, 1);
    let b = t.expand(&g, &root, 1);
    t.backpropagate(&g, &root, b, GameStatus::Draw);
    assert_eq!(t.most_visited_action(&g, &root, g.actions(&root)).cell, 8);
    t.backpropagate(&g, &root, a, GameStatus::Draw);
    assert_eq!(t.most_visited_action(&g, &root, g.actions(&root)).cell, 6);
}

#[test]
fn search_keeps_win_credit_within_two_half_points_per_playout() {
    let g = TicTacToe {};
    let root = g.init();
    let t = SearchTree::search(&g, &root, &LeastVisited, 50);
    assert_eq!(t.stats(&g, &root, 1).playouts, 50);
    for k in 1..=t.node_count(&g, &root) {
        let d = t.stats(&g, &root, k);
        assert!(d.half_wins <= 2 * d.playouts);
        assert!(d.playouts >= 1 && d.playouts <= 50);
    }
}

#[test]
fn playouts_flow_from_each_node_into_its_children() {
    let g = TicTacToe {};
    let root = g.init();
    let t = SearchTree::search(&g, &root, &LeastVisited, 60);
    let mut ended = 0;
    for k in 1..=t.node_count(&g, &root) {
        let through: u64 = t.children(&g, &root, k).iter().map(|c| t.stats(&g, &root, *c).playouts).sum();
        let here = t.stats(&g, &root, k).playouts;
        assert!(here >= through);
        ended += here - through;
    }
    assert_eq!(ended, 60);
}
