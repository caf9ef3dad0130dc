use vstd::prelude::*;

use crate::game::GameStatus;

verus! {

/// Running statistics of one side over a series of matches.
pub struct PlayerStats {
    avg_move_time: u128,
    avg_win_move_count: u64,
    num_wins: u64,
}

/// The statistics of a series of matches between two strategies.
pub struct BenchmarkResult {
    pub match_count: u64,
    pub p1_stats: PlayerStats,
    pub p2_stats: PlayerStats,
}

/// The running mean of `count` values whose mean was `avg`, after one more
/// value `x`, in integer division.
pub open spec fn running_mean(avg: int, count: int, x: int) -> int {
    (avg * count + x) / (count + 1)
}

impl PlayerStats {
    /// Statistics before any match.
    pub fn new() -> (r: PlayerStats)
        ensures
            r.avg_move_time() == 0,
            r.avg_win_move_count() == 0,
            r.num_wins() == 0,
    {
        PlayerStats { avg_move_time: 0, avg_win_move_count: 0, num_wins: 0 }
    }

    /// The mean, over the matches so far, of the mean time per move, in
    /// milliseconds.
    pub closed spec fn avg_move_time(&self) -> u128 {
        self.avg_move_time
    }

    /// The mean length, in rounds, of the matches won.
    pub closed spec fn avg_win_move_count(&self) -> u64 {
        self.avg_win_move_count
    }

    /// The number of matches won.
    pub closed spec fn num_wins(&self) -> u64 {
        self.num_wins
    }

    pub fn get_avg_move_time(&self) -> (r: u128)
        ensures
            r == self.avg_move_time(),
    {
        self.avg_move_time
    }

    pub fn get_avg_win_move_count(&self) -> (r: u64)
        ensures
            r == self.avg_win_move_count(),
    {
        self.avg_win_move_count
    }

    pub fn get_num_wins(&self) -> (r: u64)
        ensures
            r == self.num_wins(),
    {
        self.num_wins
    }

    /// Folds the mean move time of one more match into the mean over the
    /// `matches_before` matches already counted.
    pub fn add_move_time(&mut self, matches_before: u128, move_time: u128)
        requires
            old(self).avg_move_time() * matches_before + move_time <= u128::MAX,
            matches_before < u128::MAX,
        ensures
            final(self).avg_move_time() == running_mean(
                old(self).avg_move_time() as int,
                matches_before as int,
                move_time as int,
            ),
            final(self).avg_win_move_count() == old(self).avg_win_move_count(),
            final(self).num_wins() == old(self).num_wins(),
    {
        self.avg_move_time = (self.avg_move_time * matches_before + move_time) / (matches_before + 1);
    }

    /// Counts one more win, of a match that lasted `num_moves` rounds.
    pub fn add_win(&mut self, num_moves: u64)
        requires
            old(self).avg_win_move_count() * old(self).num_wins() + num_moves <= u64::MAX,
            old(self).num_wins() < u64::MAX,
        ensures
            final(self).num_wins() == old(self).num_wins() + 1,
            final(self).avg_win_move_count() == running_mean(
                old(self).avg_win_move_count() as int,
                old(self).num_wins() as int,
                num_moves as int,
            ),
            final(self).avg_move_time() == old(self).avg_move_time(),
    {
        let new_win_count = self.num_wins + 1;
        self.avg_win_move_count = (self.avg_win_move_count * self.num_wins + num_moves) / new_win_count;
        self.num_wins = new_win_count;
    }
}

/// The position of the first of `names` equal to `name`, if any.
pub fn position_of_name(names: &Vec<String>, name: &String) -> (r: Option<usize>)
    ensures
        match r {
            Some(i) => {
                &&& i < names@.len()
                &&& names@[i as int]@ == name@
                &&& forall|j: int| 0 <= j < i ==> (#[trigger] names@[j])@ != name@
            },
            None => forall|j: int| 0 <= j < names@.len() ==> (#[trigger] names@[j])@ != name@,
        },
{
    let mut i: usize = 0;
    while i < names.len()
        invariant
            i <= names@.len(),
            forall|j: int| 0 <= j < i ==> (#[trigger] names@[j])@ != name@,
        decreases names@.len() - i,
    {
        if names[i].eq(name) {
            return Some(i);
        }
        i = i + 1;
    }
    None
}

/// The mean time per round of a match, in milliseconds.
pub fn average_move_time(total_millis: u128, num_moves: u32) -> (r: u128)
    requires
        num_moves > 0,
    ensures
        r == total_millis / num_moves as u128,
{
    total_millis / num_moves as u128
}

impl BenchmarkResult {
    /// A series of `match_count` matches, none counted yet.
    pub fn new(match_count: u64) -> (r: BenchmarkResult)
        ensures
            r.match_count == match_count,
            r.p1_stats.avg_move_time() == 0 && r.p1_stats.avg_win_move_count() == 0
                && r.p1_stats.num_wins() == 0,
            r.p2_stats.avg_move_time() == 0 && r.p2_stats.avg_win_move_count() == 0
                && r.p2_stats.num_wins() == 0,
    {
        BenchmarkResult { match_count, p1_stats: PlayerStats::new(), p2_stats: PlayerStats::new() }
    }

    /// Counts match number `iter` (from 0) of the series: it ended with
    /// `status` after `num_moves` rounds, the sides having spent
    /// `p1_millis` and `p2_millis` milliseconds. The winner's win count and
    /// mean winning length are updated.
    pub fn record(
        &mut self,
        iter: u64,
        status: GameStatus,
        num_moves: u32,
        p1_millis: u128,
        p2_millis: u128,
    )
        requires
            num_moves > 0,
            old(self).p1_stats.avg_move_time() * iter + p1_millis / num_moves as u128 <= u128::MAX,
            old(self).p2_stats.avg_move_time() * iter + p2_millis / num_moves as u128 <= u128::MAX,
            status == GameStatus::Player1Win ==> old(self).p1_stats.avg_win_move_count()
                * old(self).p1_stats.num_wins() + num_moves <= u64::MAX && old(self).p1_stats.num_wins()
                < u64::MAX,
            status == GameStatus::Player2Win ==> old(self).p2_stats.avg_win_move_count()
                * old(self).p2_stats.num_wins() + num_moves <= u64::MAX && old(self).p2_stats.num_wins()
                < u64::MAX,
        ensures
            final(self).match_count == old(self).match_count,
            final(self).p1_stats.avg_move_time() == running_mean(
                old(self).p1_stats.avg_move_time() as int,
                iter as int,
                (p1_millis / num_moves as u128) as int,
            ),
            final(self).p2_stats.avg_move_time() == running_mean(
                old(self).p2_stats.avg_move_time() as int,
                iter as int,
                (p2_millis / num_moves as u128) as int,
            ),
            final(self).p1_stats.num_wins() == old(self).p1_stats.num_wins() + if status
                == GameStatus::Player1Win {
                1int
            } else {
                0int
            },
            final(self).p2_stats.num_wins() == old(self).p2_stats.num_wins() + if status
                == GameStatus::Player2Win {
                1int
            } else {
                0int
            },
            final(self).p1_stats.avg_win_move_count() == if status == GameStatus::Player1Win {
                running_mean(
                    old(self).p1_stats.avg_win_move_count() as int,
                    old(self).p1_stats.num_wins() as int,
                    num_moves as int,
                )
            } else {
                old(self).p1_stats.avg_win_move_count() as int
            },
            final(self).p2_stats.avg_win_move_count() == if status == GameStatus::Player2Win {
                running_mean(
                    old(self).p2_stats.avg_win_move_count() as int,
                    old(self).p2_stats.num_wins() as int,
                    num_moves as int,
                )
            } else {
                old(self).p2_stats.avg_win_move_count() as int
            },
    {
        let i = iter as u128;
        let p1_avg = average_move_time(p1_millis, num_moves);
        let p2_avg = average_move_time(p2_millis, num_moves);
        self.p1_stats.add_move_time(i, p1_avg);
        self.p2_stats.add_move_time(i, p2_avg);
        match status {
            GameStatus::Player1Win => self.p1_stats.add_win(num_moves as u64),
            GameStatus::Player2Win => self.p2_stats.add_win(num_moves as u64),
            _ => {},
        }
    }
}

} // verus!
