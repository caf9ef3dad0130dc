use vstd::prelude::*;
use vstd::string::StringExecFns;

use crate::game::{Game, GameStatus, Player, Strategy};

verus! {

/// A static evaluation of positions, higher being better for `player`.
pub trait Heuristic<G: Game> {
    /// The value of `state` for `player`.
    spec fn score(&self, game: G, state: G::State, player: Player) -> i64;

    fn evaluate(&self, game: &G, state: &G::State, player: Player) -> (r: i64)
        ensures
            r == self.score(*game, *state, player),
    ;
}

/// The value of a game that stands at `status` for `player`: 1 when `player`
/// has won, -1 when it has lost, 0 otherwise.
pub open spec fn outcome_value(status: GameStatus, player: Player) -> i64 {
    match status {
        GameStatus::Player1Win => if player == Player::Player1 {
            1i64
        } else {
            -1i64
        },
        GameStatus::Player2Win => if player == Player::Player2 {
            1i64
        } else {
            -1i64
        },
        _ => 0i64,
    }
}

/// Values finished games only, by their outcome for the side judged.
pub struct OutcomeHeuristic {}

impl<G: Game> Heuristic<G> for OutcomeHeuristic {
    open spec fn score(&self, game: G, state: G::State, player: Player) -> i64 {
        outcome_value(game.status_of(state), player)
    }

    fn evaluate(&self, game: &G, state: &G::State, player: Player) -> (r: i64) {
        match game.status(state) {
            GameStatus::Player1Win => if player == Player::Player1 {
                1
            } else {
                -1
            },
            GameStatus::Player2Win => if player == Player::Player2 {
                1
            } else {
                -1
            },
            _ => 0,
        }
    }
}

/// Depth-bounded minimax search, with optional alpha-beta pruning.
pub struct MinMaxStrategy<H> {
    pub heuristic: H,
    pub search_depth: u8,
    pub alpha_beta: bool,
}

/// The window of a pruned search: what the maximizer is already sure of
/// (`alpha`) and what the minimizer is already sure of (`beta`).
#[derive(Clone, Copy, Debug)]
pub struct AlphaBeta {
    pub alpha: i64,
    pub beta: i64,
}

pub open spec fn max_of(a: i64, b: i64) -> i64 {
    if a >= b {
        a
    } else {
        b
    }
}

pub open spec fn min_of(a: i64, b: i64) -> i64 {
    if a <= b {
        a
    } else {
        b
    }
}

/// The value an empty move list starts from: minus infinity for the
/// maximizer, plus infinity for the minimizer.
pub open spec fn start_value(maximize: bool) -> i64 {
    if maximize {
        i64::MIN
    } else {
        i64::MAX
    }
}

/// The minimax value of `state` for `maxp`, searched `depth` plies deep.
pub open spec fn minimax<G: Game, H: Heuristic<G>>(
    game: G,
    h: H,
    state: G::State,
    depth: nat,
    maxp: Player,
) -> i64
    decreases depth, 0nat,
{
    if depth == 0 || game.status_of(state) != GameStatus::InProgress {
        h.score(game, state, maxp)
    } else {
        minimax_prefix(game, h, state, (depth - 1) as nat, maxp, game.actions_of(state).len())
    }
}

/// The best value over the first `n` moves of `state`, each child searched
/// `depth` plies deep, for the side to move in `state`.
pub open spec fn minimax_prefix<G: Game, H: Heuristic<G>>(
    game: G,
    h: H,
    state: G::State,
    depth: nat,
    maxp: Player,
    n: nat,
) -> i64
    decreases depth, n + 1,
{
    let maximize = game.player_of(state) == maxp;
    if n == 0 {
        start_value(maximize)
    } else {
        let prev = minimax_prefix(game, h, state, depth, maxp, (n - 1) as nat);
        let child = game.next_state(game.actions_of(state)[n - 1], state);
        let c = minimax(game, h, child, depth, maxp);
        if maximize {
            max_of(prev, c)
        } else {
            min_of(prev, c)
        }
    }
}

/// The value that the pruned search returns for `state` with window
/// `(alpha, beta)`.
pub open spec fn ab_value<G: Game, H: Heuristic<G>>(
    game: G,
    h: H,
    state: G::State,
    depth: nat,
    maxp: Player,
    alpha: i64,
    beta: i64,
) -> i64
    decreases depth, 0nat,
{
    if depth == 0 || game.status_of(state) != GameStatus::InProgress {
        h.score(game, state, maxp)
    } else {
        ab_prefix(
            game,
            h,
            state,
            (depth - 1) as nat,
            maxp,
            alpha,
            beta,
            game.actions_of(state).len(),
        ).0
    }
}

/// The pruned search of `state` after its first `n` moves: the value so far,
/// the window, and whether the remaining moves are cut off.
pub open spec fn ab_prefix<G: Game, H: Heuristic<G>>(
    game: G,
    h: H,
    state: G::State,
    depth: nat,
    maxp: Player,
    alpha: i64,
    beta: i64,
    n: nat,
) -> (i64, i64, i64, bool)
    decreases depth, n + 1,
{
    let maximize = game.player_of(state) == maxp;
    if n == 0 {
        (start_value(maximize), alpha, beta, false)
    } else {
        let (v, a, b, cut) = ab_prefix(game, h, state, depth, maxp, alpha, beta, (n - 1) as nat);
        if cut {
            (v, a, b, cut)
        } else {
            let child = game.next_state(game.actions_of(state)[n - 1], state);
            let c = ab_value(game, h, child, depth, maxp, a, b);
            if maximize {
                let v2 = max_of(v, c);
                let a2 = max_of(a, v2);
                (v2, a2, b, a2 >= b)
            } else {
                let v2 = min_of(v, c);
                let b2 = min_of(b, v2);
                (v2, a, b2, b2 <= a)
            }
        }
    }
}

proof fn lemma_ab_prefix_cut_stays<G: Game, H: Heuristic<G>>(
    game: G,
    h: H,
    state: G::State,
    depth: nat,
    maxp: Player,
    alpha: i64,
    beta: i64,
    i: nat,
    n: nat,
)
    requires
        i <= n,
        ab_prefix(game, h, state, depth, maxp, alpha, beta, i).3,
    ensures
        ab_prefix(game, h, state, depth, maxp, alpha, beta, n) == ab_prefix(
            game,
            h,
            state,
            depth,
            maxp,
            alpha,
            beta,
            i,
        ),
    decreases n,
{
    if n > i {
        lemma_ab_prefix_cut_stays(game, h, state, depth, maxp, alpha, beta, i, (n - 1) as nat);
    }
}

/// Searches `state` `depth` plies deep for `max_player`: plain minimax when
/// `alpha_beta_in` is `None`, pruned with that window otherwise.
pub fn evaluate<G: Game, H: Heuristic<G>>(
    game: &G,
    state: &G::State,
    depth: u8,
    heuristic: &H,
    alpha_beta_in: Option<AlphaBeta>,
    max_player: Player,
) -> (r: i64)
    ensures
        match alpha_beta_in {
            None => r == minimax(*game, *heuristic, *state, depth as nat, max_player),
            Some(ab) => r == ab_value(
                *game,
                *heuristic,
                *state,
                depth as nat,
                max_player,
                ab.alpha,
                ab.beta,
            ),
        },
        alpha_beta_in == Some(AlphaBeta { alpha: i64::MIN, beta: i64::MAX }) ==> r == minimax(
            *game,
            *heuristic,
            *state,
            depth as nat,
            max_player,
        ),
    decreases depth,
{
    proof {
        lemma_pruning_keeps_value(*game, *heuristic, *state, depth as nat, max_player);
    }
    let player = game.player(state);
    let mut alpha_beta = alpha_beta_in;

    if depth == 0 || game.status(state) != GameStatus::InProgress {
        return heuristic.evaluate(game, state, max_player);
    }
    let actions = game.actions(state);
    let maximize = player == max_player;
    let ghost d = (depth - 1) as nat;
    let mut value: i64 = if maximize {
        i64::MIN
    } else {
        i64::MAX
    };
    let mut cut = false;
    let mut i: usize = 0;
    while i < actions.len() && !cut
        invariant
            i <= actions@.len(),
            actions@ == game.actions_of(*state),
            maximize == (game.player_of(*state) == max_player),
            depth > 0,
            d == depth - 1,
            alpha_beta_in is None ==> alpha_beta is None && !cut && value == minimax_prefix(
                *game,
                *heuristic,
                *state,
                d,
                max_player,
                i as nat,
            ),
            alpha_beta_in is Some ==> alpha_beta is Some && (
            value,
            alpha_beta->0.alpha,
            alpha_beta->0.beta,
            cut,
            ) == ab_prefix(
                *game,
                *heuristic,
                *state,
                d,
                max_player,
                alpha_beta_in->0.alpha,
                alpha_beta_in->0.beta,
                i as nat,
            ),
        decreases actions@.len() - i,
    {
        proof {
            in_actions_value(actions@, i as int);
        }
        let child = game.play(&actions[i], state);
        let c = evaluate(game, &child, depth - 1, heuristic, alpha_beta, max_player);
        if maximize {
            if c > value {
                value = c;
            }
        } else {
            if c < value {
                value = c;
            }
        }
        match alpha_beta {
            Some(ab) => {
                let mut ab2 = ab;
                if maximize {
                    if value > ab2.alpha {
                        ab2.alpha = value;
                    }
                    cut = ab2.alpha >= ab2.beta;
                } else {
                    if value < ab2.beta {
                        ab2.beta = value;
                    }
                    cut = ab2.beta <= ab2.alpha;
                }
                alpha_beta = Some(ab2);
            },
            None => {},
        }
        i = i + 1;
    }
    proof {
        if alpha_beta_in is Some && i < actions@.len() {
            lemma_ab_prefix_cut_stays(
                *game,
                *heuristic,
                *state,
                d,
                max_player,
                alpha_beta_in->0.alpha,
                alpha_beta_in->0.beta,
                i as nat,
                actions@.len(),
            );
        }
    }
    value
}

/// `x` brought into the interval `[lo, hi]`.
pub open spec fn clamp(x: i64, lo: i64, hi: i64) -> i64 {
    min_of(max_of(x, lo), hi)
}

/// Alpha-beta pruning is exact inside its window: seen through the window
/// `[alpha, beta]`, the pruned value and the minimax value agree. A pruned
/// value at or below `alpha` means the true value is at or below it too, one
/// at or above `beta` that the true value is at or above it too, and one
/// strictly between them is the true value.
pub proof fn lemma_alpha_beta_window<G: Game, H: Heuristic<G>>(
    game: G,
    h: H,
    state: G::State,
    depth: nat,
    maxp: Player,
    alpha: i64,
    beta: i64,
)
    requires
        alpha < beta,
    ensures
        clamp(ab_value(game, h, state, depth, maxp, alpha, beta), alpha, beta) == clamp(
            minimax(game, h, state, depth, maxp),
            alpha,
            beta,
        ),
    decreases depth, 0nat,
{
    if depth == 0 || game.status_of(state) != GameStatus::InProgress {
    } else {
        lemma_alpha_beta_prefix(
            game,
            h,
            state,
            (depth - 1) as nat,
            maxp,
            alpha,
            beta,
            game.actions_of(state).len(),
        );
    }
}

proof fn lemma_alpha_beta_prefix<G: Game, H: Heuristic<G>>(
    game: G,
    h: H,
    state: G::State,
    depth: nat,
    maxp: Player,
    alpha: i64,
    beta: i64,
    n: nat,
)
    requires
        alpha < beta,
    ensures
        ({
            let (v, a, b, cut) = ab_prefix(game, h, state, depth, maxp, alpha, beta, n);
            let m = minimax_prefix(game, h, state, depth, maxp, n);
            if game.player_of(state) == maxp {
                &&& b == beta
                &&& a == max_of(alpha, v)
                &&& cut == (a >= beta)
                &&& !cut ==> max_of(m, alpha) == a
                &&& cut ==> m >= beta
            } else {
                &&& a == alpha
                &&& b == min_of(beta, v)
                &&& cut == (b <= alpha)
                &&& !cut ==> min_of(m, beta) == b
                &&& cut ==> m <= alpha
            }
        }),
    decreases depth, n + 1,
{
    if n > 0 {
        lemma_alpha_beta_prefix(game, h, state, depth, maxp, alpha, beta, (n - 1) as nat);
        let (v, a, b, cut) = ab_prefix(game, h, state, depth, maxp, alpha, beta, (n - 1) as nat);
        if !cut {
            let child = game.next_state(game.actions_of(state)[n - 1], state);
            lemma_alpha_beta_window(game, h, child, depth, maxp, a, b);
        }
    }
}

/// With the widest window, pruning changes nothing: the pruned search returns
/// the minimax value itself.
pub proof fn lemma_pruning_keeps_value<G: Game, H: Heuristic<G>>(
    game: G,
    h: H,
    state: G::State,
    depth: nat,
    maxp: Player,
)
    ensures
        ab_value(game, h, state, depth, maxp, i64::MIN, i64::MAX) == minimax(
            game,
            h,
            state,
            depth,
            maxp,
        ),
{
    lemma_alpha_beta_window(game, h, state, depth, maxp, i64::MIN, i64::MAX);
}

/// The minimax value, for the side to move in `state`, of each of its moves,
/// each searched `depth` plies past the move.
pub open spec fn root_scores<G: Game, H: Heuristic<G>>(
    game: G,
    h: H,
    state: G::State,
    depth: nat,
) -> Seq<i64> {
    game.actions_of(state).map_values(
        |a: G::Action| minimax(game, h, game.next_state(a, state), depth, game.player_of(state)),
    )
}

/// The index of the first greatest value among the first `n` of `s`.
pub open spec fn first_best(s: Seq<i64>, n: nat) -> nat
    decreases n,
{
    if n <= 1 {
        0
    } else {
        let j = first_best(s, (n - 1) as nat);
        if s[n - 1] > s[j as int] {
            (n - 1) as nat
        } else {
            j
        }
    }
}

/// The move that minimax search `depth` plies past the root picks in `state`:
/// the first move of greatest value.
pub open spec fn minmax_choice<G: Game, H: Heuristic<G>>(
    game: G,
    h: H,
    state: G::State,
    depth: nat,
) -> G::Action {
    let scores = root_scores(game, h, state, depth);
    game.actions_of(state)[first_best(scores, scores.len()) as int]
}

pub(crate) proof fn lemma_first_best_bounds(s: Seq<i64>, n: nat)
    requires
        n >= 1,
    ensures
        first_best(s, n) < n,
    decreases n,
{
    if n > 1 {
        lemma_first_best_bounds(s, (n - 1) as nat);
    }
}

impl<H> MinMaxStrategy<H> {
    /// The move chosen in a running position: the first move of greatest
    /// minimax value, whether or not pruning is on.
    pub fn best_action<G: Game>(&self, game: &G, state: &G::State) -> (r: G::Action) where H: Heuristic<G>
        requires
            game.status_of(*state) == GameStatus::InProgress,
        ensures
            r == minmax_choice(*game, self.heuristic, *state, self.search_depth as nat),
            game.actions_of(*state).contains(r),
    {
        let me = game.player(state);
        let mut actions = game.actions(state);
        let ghost scores = root_scores(*game, self.heuristic, *state, self.search_depth as nat);
        let mut best_idx: usize = 0;
        let mut best_score: i64 = 0;
        let mut i: usize = 0;
        while i < actions.len()
            invariant
                i <= actions@.len(),
                actions@ == game.actions_of(*state),
                actions@.len() > 0,
                me == game.player_of(*state),
                scores == root_scores(*game, self.heuristic, *state, self.search_depth as nat),
                i >= 1 ==> best_idx == first_best(scores, i as nat),
                i >= 1 ==> best_score == scores[best_idx as int],
            decreases actions@.len() - i,
        {
            proof {
            in_actions_value(actions@, i as int);
        }
            let child = game.play(&actions[i], state);
            let window = if self.alpha_beta {
                Some(AlphaBeta { alpha: i64::MIN, beta: i64::MAX })
            } else {
                None
            };
            let s = evaluate(game, &child, self.search_depth, &self.heuristic, window, me);
            proof {
                lemma_pruning_keeps_value(
                    *game,
                    self.heuristic,
                    child,
                    self.search_depth as nat,
                    me,
                );
                if i >= 1 {
                    lemma_first_best_bounds(scores, i as nat);
                }
            }
            if i == 0 || s > best_score {
                best_idx = i;
                best_score = s;
            }
            i = i + 1;
        }
        proof {
            lemma_first_best_bounds(scores, scores.len());
        }
        let r = actions.remove(best_idx);
        proof {
            in_actions_value(game.actions_of(*state), best_idx as int);
        }
        r
    }
}

proof fn in_actions_value<A>(s: Seq<A>, i: int)
    requires
        0 <= i < s.len(),
    ensures
        s.contains(s[i]),
{
    assert(s[i] == s[i]);
}

impl<G: Game, H: Heuristic<G>> Strategy<G> for MinMaxStrategy<H> {
    fn name(&self) -> String {
        if self.alpha_beta {
            String::from_str("MinMaxAB")
        } else {
            String::from_str("MinMax")
        }
    }

    fn select_action(&self, game: &G, state: &G::State) -> (r: G::Action)
        ensures
            r == minmax_choice(*game, self.heuristic, *state, self.search_depth as nat),
    {
        self.best_action(game, state)
    }
}

} // verus!
