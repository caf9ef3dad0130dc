use std::time::{Duration, Instant};

use vstd::prelude::*;

use crate::game::{legal_walk, second_player_moves, walk_end, Game, GameStatus, Player, Strategy};

verus! {

/// How a match between two strategies went.
pub struct MatchResult {
    /// How the game ended.
    pub status: GameStatus,
    /// The number of rounds, counted at each move of the second player.
    pub num_moves: u32,
    /// The number of plies played.
    pub num_plies: u32,
    /// The time the first player spent choosing moves.
    pub player1_time: Duration,
    /// The time the second player spent choosing moves.
    pub player2_time: Duration,
}

#[verifier::external_type_specification]
#[verifier::external_body]
pub struct ExInstant(Instant);

/// Relies on `std::time::Instant::now`: the current instant of a monotonic
/// clock.
#[verifier::external_body]
fn clock_now() -> (r: Instant) {
    Instant::now()
}

/// Relies on `std::time::Instant::elapsed`: the time passed since `start`.
#[verifier::external_body]
fn clock_elapsed(start: &Instant) -> (r: Duration) {
    start.elapsed()
}

/// Relies on `std::time::Duration::saturating_add`: the sum of two durations.
#[verifier::external_body]
fn duration_sum(a: Duration, b: Duration) -> (r: Duration) {
    a.saturating_add(b)
}

/// Relies on `std::time::Duration::new`: the empty duration.
#[verifier::external_body]
fn duration_zero() -> (r: Duration) {
    Duration::new(0, 0)
}

/// Each ply of `moves`, played from the initial position, is a move that the
/// strategy of the side to move may return there.
pub open spec fn played_by<G: Game, S1: Strategy<G>, S2: Strategy<G>>(
    game: G,
    p1_strat: S1,
    p2_strat: S2,
    moves: Seq<int>,
) -> bool {
    forall|i: int|
        #![trigger moves[i]]
        0 <= i < moves.len() ==> {
            let p = walk_end(game, game.initial_state(), moves.take(i));
            let a = game.actions_of(p)[moves[i]];
            &&& game.player_of(p) == Player::Player1 ==> call_ensures(
                S1::select_action,
                (&p1_strat, &game, &p),
                a,
            )
            &&& game.player_of(p) == Player::Player2 ==> call_ensures(
                S2::select_action,
                (&p2_strat, &game, &p),
                a,
            )
        }
}

/// Plays one game from the initial position, the first strategy moving for
/// the first player and the second for the second, until the game is over,
/// and reports how it ended, how long it lasted and the time each side spent.
pub fn simulate<G: Game, S1: Strategy<G>, S2: Strategy<G>>(
    game: &G,
    p1_strat: &S1,
    p2_strat: &S2,
) -> (r: MatchResult)
    requires
        game.moves_left(game.initial_state()) <= u32::MAX,
    ensures
        r.status != GameStatus::InProgress,
        r.num_plies <= game.moves_left(game.initial_state()),
        r.num_moves <= r.num_plies,
        exists|moves: Seq<int>|
            {
                &&& legal_walk(*game, game.initial_state(), moves)
                &&& moves.len() == r.num_plies
                &&& r.status == game.status_of(#[trigger] walk_end(*game, game.initial_state(), moves))
                &&& r.num_moves == second_player_moves(*game, game.initial_state(), moves)
                &&& played_by(*game, *p1_strat, *p2_strat, moves)
            },
{
    let mut state = game.init();
    let mut num_moves: u32 = 0;
    let mut num_plies: u32 = 0;
    let mut player1_time = duration_zero();
    let mut player2_time = duration_zero();
    let ghost s0 = game.initial_state();
    let ghost mut moves: Seq<int> = Seq::empty();
    assert(legal_walk(*game, s0, moves) && walk_end(*game, s0, moves) == state);
    assert(second_player_moves(*game, s0, moves) == 0);
    while game.status(&state) == GameStatus::InProgress
        invariant
            num_plies + game.moves_left(state) <= game.moves_left(game.initial_state()),
            game.moves_left(game.initial_state()) <= u32::MAX,
            num_moves <= num_plies,
            s0 == game.initial_state(),
            legal_walk(*game, s0, moves),
            walk_end(*game, s0, moves) == state,
            moves.len() == num_plies,
            num_moves == second_player_moves(*game, s0, moves),
            played_by(*game, *p1_strat, *p2_strat, moves),
        decreases game.moves_left(state),
    {
        let start = clock_now();
        let mover = game.player(&state);
        let action = match mover {
            Player::Player1 => {
                let action = p1_strat.select_action(game, &state);
                player1_time = duration_sum(player1_time, clock_elapsed(&start));
                action
            },
            Player::Player2 => {
                let action = p2_strat.select_action(game, &state);
                player2_time = duration_sum(player2_time, clock_elapsed(&start));
                action
            },
        };
        let ghost i = choose|i: int| 0 <= i < game.actions_of(state).len() && game.actions_of(state)[i] == action;
        let ghost m2 = moves.push(i);
        proof {
            assert(m2.drop_last() =~= moves);
            assert(m2.take(moves.len() as int) =~= moves);
            assert forall|j: int| 0 <= j < moves.len() implies m2.take(j) =~= moves.take(j) by {
            }
            assert(played_by(*game, *p1_strat, *p2_strat, m2));
        }
        state = game.play(&action, &state);
        if mover == Player::Player2 {
            num_moves = num_moves + 1;
        }
        num_plies = num_plies + 1;
        proof {
            moves = m2;
        }
    }
    MatchResult {
        status: game.status(&state),
        num_moves,
        num_plies,
        player1_time,
        player2_time,
    }
}

} // verus!
