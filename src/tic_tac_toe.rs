use vstd::prelude::*;
use vstd::string::StringExecFns;

use crate::game::{legal_walk, opponent, walk_end, Game, GameStatus, Player};

verus! {

broadcast use vstd::array::group_array_axioms;

/// The game of noughts and crosses on a three-by-three board.
pub struct TicTacToe {}

/// The content of one square of the board.
#[derive(PartialEq, Eq, Structural, Copy, Clone, Debug)]
pub enum TicTacToeCell {
    X,
    O,
    Empty,
}

/// A position: the nine squares, row by row, and the side to move.
#[derive(Copy, Clone, Debug)]
pub struct TicTacToeState {
    pub board: [TicTacToeCell; 9],
    pub player: Player,
}

/// A move: the square, numbered 0 to 8 row by row, that the side to move marks.
#[derive(PartialEq, Eq, Structural, Copy, Clone, Debug)]
pub struct TicTacToeAction {
    pub cell: u8,
}

/// The mark that `p` puts on the board.
pub open spec fn mark_of(p: Player) -> TicTacToeCell {
    match p {
        Player::Player1 => TicTacToeCell::X,
        Player::Player2 => TicTacToeCell::O,
    }
}

/// The three squares of winning line `k` (rows, then columns, then diagonals).
pub open spec fn line(k: int) -> (int, int, int) {
    if k == 0 {
        (0, 1, 2)
    } else if k == 1 {
        (3, 4, 5)
    } else if k == 2 {
        (6, 7, 8)
    } else if k == 3 {
        (0, 3, 6)
    } else if k == 4 {
        (1, 4, 7)
    } else if k == 5 {
        (2, 5, 8)
    } else if k == 6 {
        (0, 4, 8)
    } else {
        (2, 4, 6)
    }
}

/// The mark that fills line `k`, or `Empty` when the line holds no three equal marks.
pub open spec fn line_owner(board: Seq<TicTacToeCell>, k: int) -> TicTacToeCell {
    let (a, b, c) = line(k);
    if board[a] == board[b] && board[a] == board[c] {
        board[a]
    } else {
        TicTacToeCell::Empty
    }
}

/// The owner of the first filled line among lines `k` to 7, or `Empty`.
pub open spec fn first_owner(board: Seq<TicTacToeCell>, k: nat) -> TicTacToeCell
    decreases 8 - k,
{
    if k >= 8 {
        TicTacToeCell::Empty
    } else if line_owner(board, k as int) != TicTacToeCell::Empty {
        line_owner(board, k as int)
    } else {
        first_owner(board, k + 1)
    }
}

proof fn lemma_first_owner(board: Seq<TicTacToeCell>, k: nat)
    requires
        k <= 8,
    ensures
        (first_owner(board, k) == TicTacToeCell::Empty) == (forall|j: int|
            k <= j < 8 ==> #[trigger] line_owner(board, j) == TicTacToeCell::Empty),
        first_owner(board, k) != TicTacToeCell::Empty ==> (exists|j: int|
            k <= j < 8 && #[trigger] line_owner(board, j) == first_owner(board, k)),
    decreases 8 - k,
{
    if k < 8 {
        lemma_first_owner(board, k + 1);
    }
}

/// How a board is judged: three equal marks on one of the eight lines win for
/// the side owning the mark (where the other side owns no line); with no such
/// line, a full board is a draw and a board with an empty square is still
/// running.
pub proof fn lemma_status_by_lines(state: TicTacToeState)
    ensures
        forall|k: int|
            0 <= k < 8 && #[trigger] line_owner(state.board@, k) == TicTacToeCell::X && (forall|j: int|
                0 <= j < 8 ==> line_owner(state.board@, j) != TicTacToeCell::O)
                ==> (TicTacToe {}).status_of(state) == GameStatus::Player1Win,
        forall|k: int|
            0 <= k < 8 && #[trigger] line_owner(state.board@, k) == TicTacToeCell::O && (forall|j: int|
                0 <= j < 8 ==> line_owner(state.board@, j) != TicTacToeCell::X)
                ==> (TicTacToe {}).status_of(state) == GameStatus::Player2Win,
        (forall|j: int| 0 <= j < 8 ==> line_owner(state.board@, j) == TicTacToeCell::Empty)
            ==> (TicTacToe {}).status_of(state) == if has_empty(state.board@) {
            GameStatus::InProgress
        } else {
            GameStatus::Draw
        },
{
    lemma_first_owner(state.board@, 0);
}

proof fn lemma_empty_moves_all_empty(board: Seq<TicTacToeCell>, n: nat)
    requires
        n <= board.len(),
        forall|i: int| 0 <= i < board.len() ==> board[i] == TicTacToeCell::Empty,
    ensures
        empty_moves(board, n).len() == n,
    decreases n,
{
    if n > 0 {
        lemma_empty_moves_all_empty(board, (n - 1) as nat);
    }
}

/// A game of noughts and crosses lasts at most nine plies: nine moves are
/// left in the starting position, and each move uses one up.
pub proof fn lemma_nine_plies_at_most()
    ensures
        (TicTacToe {}).moves_left((TicTacToe {}).initial_state()) == 9,
{
    let b = (TicTacToe {}).initial_state().board@;
    assert forall|i: int| 0 <= i < b.len() implies b[i] == TicTacToeCell::Empty by {
    }
    lemma_empty_moves_all_empty(b, 9);
}

/// Whether some square is still empty.
pub open spec fn has_empty(board: Seq<TicTacToeCell>) -> bool {
    exists|i: int| 0 <= i < 9 && board[i] == TicTacToeCell::Empty
}

/// The status of a board, lines being checked in their fixed order.
pub open spec fn board_status(board: Seq<TicTacToeCell>) -> GameStatus {
    match first_owner(board, 0) {
        TicTacToeCell::X => GameStatus::Player1Win,
        TicTacToeCell::O => GameStatus::Player2Win,
        TicTacToeCell::Empty => if has_empty(board) {
            GameStatus::InProgress
        } else {
            GameStatus::Draw
        },
    }
}

/// The moves onto the empty squares among the first `n`, in increasing order.
pub open spec fn empty_moves(board: Seq<TicTacToeCell>, n: nat) -> Seq<TicTacToeAction>
    decreases n,
{
    if n == 0 {
        Seq::empty()
    } else if board[n - 1] == TicTacToeCell::Empty {
        empty_moves(board, (n - 1) as nat).push(TicTacToeAction { cell: (n - 1) as u8 })
    } else {
        empty_moves(board, (n - 1) as nat)
    }
}

proof fn lemma_empty_moves_legal(board: Seq<TicTacToeCell>, n: nat, a: TicTacToeAction)
    requires
        n <= 9,
        empty_moves(board, n).contains(a),
    ensures
        a.cell < n,
        board[a.cell as int] == TicTacToeCell::Empty,
    decreases n,
{
    if n > 0 {
        let prev = empty_moves(board, (n - 1) as nat);
        if board[n - 1] == TicTacToeCell::Empty && a == (TicTacToeAction { cell: (n - 1) as u8 }) {
        } else {
            if board[n - 1] == TicTacToeCell::Empty {
                let i = choose|i: int| 0 <= i < empty_moves(board, n).len() && empty_moves(board, n)[i] == a;
                assert(prev[i] == a);
            }
            lemma_empty_moves_legal(board, (n - 1) as nat, a);
        }
    }
}

proof fn lemma_empty_moves_nonempty(board: Seq<TicTacToeCell>, n: nat, i: int)
    requires
        0 <= i < n,
        board[i] == TicTacToeCell::Empty,
    ensures
        empty_moves(board, n).len() > 0,
    decreases n,
{
    if i < n - 1 {
        lemma_empty_moves_nonempty(board, (n - 1) as nat, i);
    }
}

/// Marking an empty square removes exactly one move from the first `n` squares
/// when the square is among them, and none otherwise.
proof fn lemma_empty_moves_mark(board: Seq<TicTacToeCell>, n: nat, c: int, m: TicTacToeCell)
    requires
        n <= board.len(),
        0 <= c < board.len(),
        board[c] == TicTacToeCell::Empty,
        m != TicTacToeCell::Empty,
    ensures
        empty_moves(board.update(c, m), n).len() == if c < n {
            empty_moves(board, n).len() - 1
        } else {
            empty_moves(board, n).len() as int
        },
    decreases n,
{
    if n > 0 {
        lemma_empty_moves_mark(board, (n - 1) as nat, c, m);
    }
}

impl TicTacToe {
    /// The text shown for square `idx`: its mark, or its number when empty.
    pub fn cell_to_str(&self, state: &TicTacToeState, idx: usize) -> (r: String)
        requires
            idx < 9,
        ensures
            r@ == cell_text(state.board@[idx as int], idx as int),
    {
        proof {
            reveal_strlit("X");
            reveal_strlit("O");
        }
        match state.board[idx] {
            TicTacToeCell::X => String::from_str("X"),
            TicTacToeCell::O => String::from_str("O"),
            TicTacToeCell::Empty => digit_text(idx),
        }
    }
}

/// What follows square `idx` in the picture of a board: a bar between squares
/// of a row, a rule between rows, nothing after the last square.
pub open spec fn separator(idx: int) -> Seq<char> {
    if idx == 8 {
        Seq::empty()
    } else if idx % 3 == 2 {
        "\n-----\n"@
    } else {
        "|"@
    }
}

/// The picture of the first `n` squares of a board, three rows of three.
pub open spec fn board_text(board: Seq<TicTacToeCell>, n: nat) -> Seq<char>
    decreases n,
{
    if n == 0 {
        Seq::empty()
    } else {
        board_text(board, (n - 1) as nat) + cell_text(board[n - 1], n - 1) + separator(n - 1)
    }
}

impl TicTacToe {
    /// The board drawn as three rows of three squares.
    pub fn serialize_state(&self, state: &TicTacToeState) -> (r: String)
        ensures
            r@ == board_text(state.board@, 9),
    {
        let mut s = String::new();
        let mut idx: usize = 0;
        while idx < 9
            invariant
                idx <= 9,
                s@ == board_text(state.board@, idx as nat),
            decreases 9 - idx,
        {
            let c = self.cell_to_str(state, idx);
            s.append(c.as_str());
            if idx == 8 {
            } else if idx % 3 == 2 {
                s.append("\n-----\n");
            } else {
                s.append("|");
            }
            idx = idx + 1;
            assert(s@ =~= board_text(state.board@, idx as nat));
        }
        s
    }
}

/// The text of a square: its mark, or its number when empty.
pub open spec fn cell_text(c: TicTacToeCell, idx: int) -> Seq<char> {
    match c {
        TicTacToeCell::X => seq!['X'],
        TicTacToeCell::O => seq!['O'],
        TicTacToeCell::Empty => seq![('0' as u8 + idx) as char],
    }
}

fn digit_text(idx: usize) -> (r: String)
    requires
        idx < 9,
    ensures
        r@ == seq![('0' as u8 + idx) as char],
{
    proof {
        reveal_strlit("0");
        reveal_strlit("1");
        reveal_strlit("2");
        reveal_strlit("3");
        reveal_strlit("4");
        reveal_strlit("5");
        reveal_strlit("6");
        reveal_strlit("7");
        reveal_strlit("8");
    }
    let s = if idx == 0 {
        "0"
    } else if idx == 1 {
        "1"
    } else if idx == 2 {
        "2"
    } else if idx == 3 {
        "3"
    } else if idx == 4 {
        "4"
    } else if idx == 5 {
        "5"
    } else if idx == 6 {
        "6"
    } else if idx == 7 {
        "7"
    } else {
        "8"
    };
    let r = String::from_str(s);
    assert(r@ =~= seq![('0' as u8 + idx) as char]);
    r
}

impl Game for TicTacToe {
    type State = TicTacToeState;
    type Action = TicTacToeAction;

    open spec fn initial_state(&self) -> TicTacToeState {
        TicTacToeState {
            board: vstd::array::spec_array_fill_for_copy_type::<TicTacToeCell, 9>(TicTacToeCell::Empty),
            player: Player::Player1,
        }
    }

    open spec fn player_of(&self, state: TicTacToeState) -> Player {
        state.player
    }

    open spec fn actions_of(&self, state: TicTacToeState) -> Seq<TicTacToeAction> {
        empty_moves(state.board@, 9)
    }

    open spec fn next_state(&self, action: TicTacToeAction, state: TicTacToeState) -> TicTacToeState {
        TicTacToeState {
            board: vstd::array::spec_array_update(state.board, action.cell as int, mark_of(state.player)),
            player: opponent(state.player),
        }
    }

    open spec fn status_of(&self, state: TicTacToeState) -> GameStatus {
        board_status(state.board@)
    }

    open spec fn moves_left(&self, state: TicTacToeState) -> nat {
        empty_moves(state.board@, 9).len()
    }

    proof fn lemma_turns_alternate(&self, state: TicTacToeState, action: TicTacToeAction) {
    }

    fn name(&self) -> String {
        String::from_str("Tic-Tac-Toe")
    }

    fn init(&self) -> (r: TicTacToeState) {
        TicTacToeState {
            board: vstd::array::array_fill_for_copy_types::<TicTacToeCell, 9>(TicTacToeCell::Empty),
            player: Player::Player1,
        }
    }

    fn player(&self, state: &TicTacToeState) -> (r: Player) {
        state.player
    }

    fn actions(&self, state: &TicTacToeState) -> (r: Vec<TicTacToeAction>) {
        let mut actions: Vec<TicTacToeAction> = Vec::new();
        let mut idx: usize = 0;
        while idx < 9
            invariant
                idx <= 9,
                actions@ == empty_moves(state.board@, idx as nat),
            decreases 9 - idx,
        {
            if state.board[idx] == TicTacToeCell::Empty {
                actions.push(TicTacToeAction { cell: idx as u8 });
            }
            idx = idx + 1;
        }
        proof {
            if board_status(state.board@) == GameStatus::InProgress {
                let i = choose|i: int| 0 <= i < 9 && state.board@[i] == TicTacToeCell::Empty;
                lemma_empty_moves_nonempty(state.board@, 9, i);
            }
        }
        actions
    }

    fn play(&self, action: &TicTacToeAction, state: &TicTacToeState) -> (r: TicTacToeState) {
        proof {
            lemma_empty_moves_legal(state.board@, 9, *action);
        }
        let val = if state.player == Player::Player1 {
            TicTacToeCell::X
        } else {
            TicTacToeCell::O
        };
        let mut new_state = *state;
        new_state.board[action.cell as usize] = val;
        new_state.player = if state.player == Player::Player1 {
            Player::Player2
        } else {
            Player::Player1
        };
        proof {
            let upd = vstd::array::spec_array_update(state.board, action.cell as int, val);
            assert(new_state.board =~= upd);
            lemma_empty_moves_mark(state.board@, 9, action.cell as int, val);
        }
        new_state
    }

    fn status(&self, state: &TicTacToeState) -> (r: GameStatus) {
        let mut k: usize = 0;
        while k < 8
            invariant
                k <= 8,
                first_owner(state.board@, 0) == first_owner(state.board@, k as nat),
            decreases 8 - k,
        {
            let (a, b, c) = line_cells(k);
            let v0 = state.board[a];
            if state.board[b] == v0 && state.board[c] == v0 {
                match v0 {
                    TicTacToeCell::X => return GameStatus::Player1Win,
                    TicTacToeCell::O => return GameStatus::Player2Win,
                    TicTacToeCell::Empty => {},
                }
            }
            k = k + 1;
        }
        let mut draw = true;
        let mut i: usize = 0;
        while i < 9
            invariant
                i <= 9,
                draw == (forall|j: int| 0 <= j < i ==> state.board@[j] != TicTacToeCell::Empty),
            decreases 9 - i,
        {
            if state.board[i] == TicTacToeCell::Empty {
                draw = false;
            }
            i = i + 1;
        }
        if draw {
            GameStatus::Draw
        } else {
            GameStatus::InProgress
        }
    }
}

/// The squares of winning line `k`.
fn line_cells(k: usize) -> (r: (usize, usize, usize))
    requires
        k < 8,
    ensures
        (r.0 as int, r.1 as int, r.2 as int) == line(k as int),
{
    if k == 0 {
        (0, 1, 2)
    } else if k == 1 {
        (3, 4, 5)
    } else if k == 2 {
        (6, 7, 8)
    } else if k == 3 {
        (0, 3, 6)
    } else if k == 4 {
        (1, 4, 7)
    } else if k == 5 {
        (2, 5, 8)
    } else if k == 6 {
        (0, 4, 8)
    } else {
        (2, 4, 6)
    }
}

/// The number of squares among the first `n` that hold `m`.
pub open spec fn count_cells(board: Seq<TicTacToeCell>, m: TicTacToeCell, n: nat) -> nat
    decreases n,
{
    if n == 0 {
        0
    } else {
        count_cells(board, m, (n - 1) as nat) + if board[n - 1] == m {
            1nat
        } else {
            0nat
        }
    }
}

proof fn lemma_count_update(board: Seq<TicTacToeCell>, c: int, m: TicTacToeCell, x: TicTacToeCell, n: nat)
    requires
        n <= board.len(),
        0 <= c < board.len(),
    ensures
        count_cells(board.update(c, m), x, n) == count_cells(board, x, n) + if c < n && m == x
            && board[c] != x {
            1int
        } else if c < n && m != x && board[c] == x {
            -1int
        } else {
            0int
        },
    decreases n,
{
    if n > 0 {
        lemma_count_update(board, c, m, x, (n - 1) as nat);
    }
}

proof fn lemma_count_line(board: Seq<TicTacToeCell>, m: TicTacToeCell, a: int, b: int, c: int, n: nat)
    requires
        n <= board.len(),
        0 <= a < b < c < board.len(),
        board[a] == m && board[b] == m && board[c] == m,
    ensures
        count_cells(board, m, n) >= (if a < n {
            1int
        } else {
            0int
        }) + (if b < n {
            1int
        } else {
            0int
        }) + (if c < n {
            1int
        } else {
            0int
        }),
    decreases n,
{
    if n > 0 {
        lemma_count_line(board, m, a, b, c, (n - 1) as nat);
    }
}

proof fn lemma_count_empty_exists(board: Seq<TicTacToeCell>, n: nat)
    requires
        n <= board.len(),
        count_cells(board, TicTacToeCell::Empty, n) > 0,
    ensures
        exists|i: int| 0 <= i < n && board[i] == TicTacToeCell::Empty,
    decreases n,
{
    if board[n - 1] != TicTacToeCell::Empty {
        lemma_count_empty_exists(board, (n - 1) as nat);
    }
}

/// After `k` legal moves from the start, the board holds `k` marks, the
/// crosses being one more than the noughts or as many, and the side to move
/// follows from `k`.
proof fn lemma_walk_marks(moves: Seq<int>)
    requires
        legal_walk(TicTacToe {}, (TicTacToe {}).initial_state(), moves),
    ensures
        ({
            let s = walk_end(TicTacToe {}, (TicTacToe {}).initial_state(), moves);
            let k = moves.len();
            &&& count_cells(s.board@, TicTacToeCell::X, 9) == (k + 1) / 2
            &&& count_cells(s.board@, TicTacToeCell::O, 9) == k / 2
            &&& count_cells(s.board@, TicTacToeCell::Empty, 9) == 9 - k
            &&& s.player == if k % 2 == 0 {
                Player::Player1
            } else {
                Player::Player2
            }
        }),
    decreases moves.len(),
{
    let g = TicTacToe {};
    let s0 = g.initial_state();
    if moves.len() == 0 {
        assert forall|i: int| 0 <= i < 9 implies s0.board@[i] == TicTacToeCell::Empty by {
        }
        lemma_count_all(s0.board@, 9);
    } else {
        let prev = moves.drop_last();
        lemma_walk_marks(prev);
        let p = walk_end(g, s0, prev);
        let a = g.actions_of(p)[moves.last()];
        assert(g.actions_of(p).contains(a));
        lemma_empty_moves_legal(p.board@, 9, a);
        let mk = mark_of(p.player);
        let nb = p.board@.update(a.cell as int, mk);
        assert(walk_end(g, s0, moves).board@ == nb);
        lemma_count_update(p.board@, a.cell as int, mk, TicTacToeCell::X, 9);
        lemma_count_update(p.board@, a.cell as int, mk, TicTacToeCell::O, 9);
        lemma_count_update(p.board@, a.cell as int, mk, TicTacToeCell::Empty, 9);
    }
}

proof fn lemma_count_all(board: Seq<TicTacToeCell>, n: nat)
    requires
        n <= board.len(),
        forall|i: int| 0 <= i < board.len() ==> board[i] == TicTacToeCell::Empty,
    ensures
        count_cells(board, TicTacToeCell::Empty, n) == n,
        count_cells(board, TicTacToeCell::X, n) == 0,
        count_cells(board, TicTacToeCell::O, n) == 0,
    decreases n,
{
    if n > 0 {
        lemma_count_all(board, (n - 1) as nat);
    }
}

/// A game of noughts and crosses cannot be over before its fifth ply: a
/// line needs three marks of one side, which takes five moves, and a full
/// board nine.
pub proof fn lemma_five_plies_at_least(moves: Seq<int>)
    requires
        legal_walk(TicTacToe {}, (TicTacToe {}).initial_state(), moves),
        (TicTacToe {}).status_of(walk_end(TicTacToe {}, (TicTacToe {}).initial_state(), moves))
            != GameStatus::InProgress,
    ensures
        moves.len() >= 5,
{
    let s = walk_end(TicTacToe {}, (TicTacToe {}).initial_state(), moves);
    let b = s.board@;
    lemma_walk_marks(moves);
    if moves.len() < 5 {
        lemma_first_owner(b, 0);
        if first_owner(b, 0) != TicTacToeCell::Empty {
            let l = choose|l: int| 0 <= l < 8 && #[trigger] line_owner(b, l) == first_owner(b, 0);
            let (x, y, z) = line(l);
            lemma_count_line(b, b[x], x, y, z, 9);
        } else {
            lemma_count_empty_exists(b, 9);
        }
    }
}

} // verus!
