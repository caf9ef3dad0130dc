use vstd::prelude::*;
use vstd::std_specs::cmp::PartialEqSpec;
use vstd::string::StringExecFns;

verus! {

/// One of the two sides of a game.
#[derive(PartialEq, Eq, Structural, Clone, Copy, Debug)]
pub enum Player {
    Player1,
    Player2,
}

/// The opponent of `p`, as a mathematical function.
pub open spec fn opponent(p: Player) -> Player {
    match p {
        Player::Player1 => Player::Player2,
        Player::Player2 => Player::Player1,
    }
}

/// Returns the opponent of `player`.
pub fn other_player(player: Player) -> (r: Player)
    ensures
        r == opponent(player),
        r != player,
{
    match player {
        Player::Player1 => Player::Player2,
        Player::Player2 => Player::Player1,
    }
}

/// Swapping sides twice gives back the side one started from.
pub proof fn lemma_other_player_involutive(p: Player)
    ensures
        opponent(opponent(p)) == p,
{
}

/// The state of a game as a whole: won by one side, drawn, or still running.
#[derive(PartialEq, Eq, Structural, Clone, Copy, Debug)]
pub enum GameStatus {
    Player1Win,
    Player2Win,
    Draw,
    InProgress,
}

/// The text that names a status.
pub open spec fn status_text(s: GameStatus) -> Seq<char> {
    match s {
        GameStatus::Player1Win => "Player 1 Win"@,
        GameStatus::Player2Win => "Player 2 Win"@,
        GameStatus::Draw => "Draw"@,
        GameStatus::InProgress => "In Progress"@,
    }
}

impl GameStatus {
    /// The status in words.
    pub fn to_text(&self) -> (r: String)
        ensures
            r@ == status_text(*self),
    {
        match self {
            GameStatus::Player1Win => String::from_str("Player 1 Win"),
            GameStatus::Player2Win => String::from_str("Player 2 Win"),
            GameStatus::Draw => String::from_str("Draw"),
            GameStatus::InProgress => String::from_str("In Progress"),
        }
    }
}

/// A two-player, turn-based game: its positions, its legal moves, the transition
/// function and the terminal test.
///
/// The spec functions give the rules as mathematics; the executable methods are
/// bound to them. Besides the rules, an implementation owes two duties:
///
/// - the sides take turns (`lemma_turns_alternate`): the iterative minimax
///   search tags each value with the side to move above it by swapping sides
///   level by level, and Monte-Carlo backpropagation credits the side that
///   moved into a node;
/// - every game is finite (`moves_left`): it bounds the plies that can still
///   be played, and each legal move from a running position makes it smaller,
///   so that random playouts and whole matches end.
pub trait Game {
    type State: Clone;
    type Action: Clone + Eq;

    /// The position a game starts from.
    spec fn initial_state(&self) -> Self::State;

    /// The side to move in `state`.
    spec fn player_of(&self, state: Self::State) -> Player;

    /// The legal moves in `state`, in enumeration order.
    spec fn actions_of(&self, state: Self::State) -> Seq<Self::Action>;

    /// The position reached by playing `action` in `state`.
    spec fn next_state(&self, action: Self::Action, state: Self::State) -> Self::State;

    /// Whether `state` is won, drawn or still running.
    spec fn status_of(&self, state: Self::State) -> GameStatus;

    /// An upper bound on the plies that can still be played from `state`.
    spec fn moves_left(&self, state: Self::State) -> nat;

    /// The sides take turns: a move in a running position hands the turn to
    /// the other side.
    proof fn lemma_turns_alternate(&self, state: Self::State, action: Self::Action)
        requires
            self.status_of(state) == GameStatus::InProgress,
            self.actions_of(state).contains(action),
        ensures
            self.player_of(self.next_state(action, state)) == opponent(self.player_of(state)),
    ;

    fn name(&self) -> String;

    fn init(&self) -> (r: Self::State)
        ensures
            r == self.initial_state(),
    ;

    fn player(&self, state: &Self::State) -> (r: Player)
        ensures
            r == self.player_of(*state),
    ;

    fn actions(&self, state: &Self::State) -> (r: Vec<Self::Action>)
        ensures
            r@ == self.actions_of(*state),
            self.status_of(*state) == GameStatus::InProgress ==> r@.len() > 0,
    ;

    fn play(&self, action: &Self::Action, state: &Self::State) -> (r: Self::State)
        requires
            self.actions_of(*state).contains(*action),
        ensures
            r == self.next_state(*action, *state),
            self.status_of(*state) == GameStatus::InProgress ==> self.moves_left(r) < self.moves_left(*state),
    ;

    fn status(&self, state: &Self::State) -> (r: GameStatus)
        ensures
            r == self.status_of(*state),
    ;
}

/// A policy that picks a move for the side to move.
pub trait Strategy<G: Game> {
    fn name(&self) -> String;

    /// Picks one of the legal moves of a running position.
    fn select_action(&self, game: &G, state: &G::State) -> (r: G::Action)
        requires
            game.status_of(*state) == GameStatus::InProgress,
        ensures
            game.actions_of(*state).contains(r),
    ;

    /// Takes options from a structured configuration; the keys that count
    /// depend on the strategy. None are read by default.
    fn configure(&self, conf: &serde_json::Value) {
    }
}

/// The position of the first legal move of `state` that equals `action`, if
/// any; equality is the one that `G::Action` defines.
pub fn find_action<G: Game>(game: &G, state: &G::State, action: &G::Action) -> (r: Option<usize>)
    ensures
        <G::Action as PartialEqSpec>::obeys_eq_spec() ==> match r {
            Some(i) => {
                &&& i < game.actions_of(*state).len()
                &&& game.actions_of(*state)[i as int].eq_spec(action)
                &&& forall|j: int| 0 <= j < i ==> !(#[trigger] game.actions_of(*state)[j]).eq_spec(action)
            },
            None => forall|j: int|
                0 <= j < game.actions_of(*state).len() ==> !(#[trigger] game.actions_of(*state)[j]).eq_spec(action),
        },
{
    let actions = game.actions(state);
    let mut i: usize = 0;
    while i < actions.len()
        invariant
            i <= actions@.len(),
            actions@ == game.actions_of(*state),
            <G::Action as PartialEqSpec>::obeys_eq_spec() ==> forall|j: int|
                0 <= j < i ==> !(#[trigger] actions@[j]).eq_spec(action),
        decreases actions@.len() - i,
    {
        if actions[i].eq(action) {
            return Some(i);
        }
        i = i + 1;
    }
    None
}

/// The position reached from `s` by playing, in turn, the moves whose
/// indices among the legal moves are listed in `moves`.
pub open spec fn walk_end<G: Game>(game: G, s: G::State, moves: Seq<int>) -> G::State
    decreases moves.len(),
{
    if moves.len() == 0 {
        s
    } else {
        let p = walk_end(game, s, moves.drop_last());
        game.next_state(game.actions_of(p)[moves.last()], p)
    }
}

/// Whether each move of `moves` is legal where it is played, in a running
/// position.
pub open spec fn legal_walk<G: Game>(game: G, s: G::State, moves: Seq<int>) -> bool
    decreases moves.len(),
{
    if moves.len() == 0 {
        true
    } else {
        let p = walk_end(game, s, moves.drop_last());
        &&& legal_walk(game, s, moves.drop_last())
        &&& game.status_of(p) == GameStatus::InProgress
        &&& 0 <= moves.last() < game.actions_of(p).len()
    }
}

/// How many of the moves of `moves` the second player makes.
pub open spec fn second_player_moves<G: Game>(game: G, s: G::State, moves: Seq<int>) -> nat
    decreases moves.len(),
{
    if moves.len() == 0 {
        0
    } else {
        let p = walk_end(game, s, moves.drop_last());
        second_player_moves(game, s, moves.drop_last()) + if game.player_of(p) == Player::Player2 {
            1nat
        } else {
            0nat
        }
    }
}

/// A source of moves typed in by a person.
pub trait ActionParser {
    type Game: Game;

    fn read_action(&self) -> <Self::Game as Game>::Action;
}

#[verifier::external_type_specification]
#[verifier::external_body]
pub struct ExJsonValue(serde_json::Value);

} // verus!
