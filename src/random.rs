use vstd::prelude::*;
use vstd::string::StringExecFns;

use crate::game::{Game, Strategy};

verus! {

/// Relies on `rand::thread_rng` and `Rng::gen_range` (rand 0.7): a value drawn
/// uniformly from `[0, n)`. `gen_range` panics on an empty range.
#[verifier::external_body]
pub(crate) fn random_index(n: usize) -> (r: usize)
    requires
        n > 0,
    ensures
        r < n,
{
    rand::Rng::gen_range(&mut rand::thread_rng(), 0, n)
}

/// Picks a legal move uniformly at random.
pub struct RandomStrategy {}

impl<G: Game> Strategy<G> for RandomStrategy {
    fn name(&self) -> String {
        String::from_str("Random")
    }

    fn select_action(&self, game: &G, state: &G::State) -> (r: G::Action) {
        let mut all_actions = game.actions(state);
        let action_idx = random_index(all_actions.len());
        let ghost before = all_actions@;
        let r = all_actions.remove(action_idx);
        assert(before[action_idx as int] == r);
        r
    }
}

} // verus!
