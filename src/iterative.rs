use vstd::prelude::*;

use crate::game::{opponent, other_player, Game, GameStatus, Player};
use crate::minmax::{first_best, lemma_first_best_bounds, max_of, min_of, minimax, minimax_prefix, root_scores, start_value, Heuristic, MinMaxStrategy};

verus! {

/// A position waiting to be searched: the position, the root move whose
/// subtree it belongs to (by its index among the root's moves), and its
/// depth below the root.
pub struct NodeFrame<S> {
    pub state: S,
    pub root_action: usize,
    pub depth: usize,
}

/// A searched value waiting to be merged with those of its siblings: the root
/// move it belongs to, the value, the depth of the position valued, and the
/// side to move at that position's parent.
#[derive(Clone, Copy, Debug)]
pub struct ScoreFrame {
    pub action: usize,
    pub score: i64,
    pub depth: usize,
    pub player: Player,
}

/// Whether `x` beats `best` for the side that maximizes (`maximize`) or
/// minimizes; equal values do not beat.
pub open spec fn beats(x: i64, best: i64, maximize: bool) -> bool {
    if maximize {
        x > best
    } else {
        x < best
    }
}

/// The first best entry of a non-empty run, for the side that maximizes or
/// minimizes.
pub open spec fn best_of(run: Seq<ScoreFrame>, maximize: bool) -> ScoreFrame
    decreases run.len(),
{
    if run.len() <= 1 {
        run[0]
    } else {
        let b = best_of(run.drop_last(), maximize);
        if beats(run.last().score, b.score, maximize) {
            run.last()
        } else {
            b
        }
    }
}

/// The single entry that stands for a run of sibling entries: the best of
/// them for the side to move at their parent, one level up, tagged with the
/// side to move one level further up.
pub open spec fn merged(run: Seq<ScoreFrame>, me: Player) -> ScoreFrame {
    let p = run.last().player;
    let b = best_of(run, p == me);
    ScoreFrame { action: b.action, score: b.score, depth: (run.last().depth - 1) as usize, player: opponent(p) }
}

/// Replaces the run of entries of greatest depth at the top of `scores` by
/// the entry that stands for them. Returns where the run started.
fn merge_run(scores: &mut Vec<ScoreFrame>, me: Player) -> (start: usize)
    requires
        old(scores)@.len() > 0,
        old(scores)@.last().depth > 0,
    ensures
        start < old(scores)@.len(),
        forall|i: int|
            start <= i < old(scores)@.len() ==> (#[trigger] old(scores)@[i]).depth == old(scores)@.last().depth,
        start > 0 ==> old(scores)@[start - 1].depth != old(scores)@.last().depth,
        final(scores)@ == old(scores)@.take(start as int).push(
            merged(old(scores)@.subrange(start as int, old(scores)@.len() as int), me),
        ),
{
    let len = scores.len();
    let dm = scores[len - 1].depth;
    let p = scores[len - 1].player;
    let maximize = p == me;
    let mut start: usize = len - 1;
    while start > 0 && scores[start - 1].depth == dm
        invariant
            start < len,
            len == scores@.len(),
            dm == scores@.last().depth,
            forall|i: int| start <= i < len ==> (#[trigger] scores@[i]).depth == dm,
        decreases start,
    {
        start = start - 1;
    }
    let ghost run = scores@.subrange(start as int, len as int);
    let mut best = scores[start];
    let mut i: usize = start + 1;
    while i < len
        invariant
            start < i <= len,
            len == scores@.len(),
            run == scores@.subrange(start as int, len as int),
            best == best_of(run.take(i - start), maximize),
        decreases len - i,
    {
        let x = scores[i];
        assert(run.take(i - start + 1).drop_last() == run.take(i - start));
        if (maximize && x.score > best.score) || (!maximize && x.score < best.score) {
            best = x;
        }
        i = i + 1;
    }
    assert(run.take(len - start) == run);
    scores.truncate(start);
    scores.push(ScoreFrame { action: best.action, score: best.score, depth: dm - 1, player: other_player(p) });
    start
}

/// The position reached by the `j`-th legal move of `p`.
pub open spec fn child_of<G: Game>(game: G, p: G::State, j: int) -> G::State {
    game.next_state(game.actions_of(p)[j], p)
}

// The search keeps, for each depth `l` on the way from the root down to the
// position being explored, the position `levels[l].0` at that depth and how
// many of its children have been taken off the node stack (`levels[l].1`).
// Both stacks are then determined by `levels`: the node stack holds, level
// by level, the children not yet taken, last child lowest; the score stack
// holds, level by level, the values of the children already searched.

/// The root move that the entries of level `l` belong to; at level 0 each
/// child is its own root move.
pub open spec fn level_action<S>(levels: Seq<(S, nat)>, l: int, j: int) -> usize {
    if l == 0 {
        j as usize
    } else {
        (levels[0].1 - 1) as usize
    }
}

/// The node frames of the children of level `l` not yet taken.
pub open spec fn level_frames<G: Game>(game: G, levels: Seq<(G::State, nat)>, l: int) -> Seq<
    NodeFrame<G::State>,
> {
    let p = levels[l].0;
    let n = game.actions_of(p).len() as int;
    let popped = levels[l].1 as int;
    Seq::new(
        (n - popped) as nat,
        |i: int|
            NodeFrame {
                state: child_of(game, p, n - 1 - i),
                root_action: level_action(levels, l, n - 1 - i),
                depth: (l + 1) as usize,
            },
    )
}

/// The node stack that the first `m` levels stand for.
pub open spec fn flat_frames<G: Game>(game: G, levels: Seq<(G::State, nat)>, m: nat) -> Seq<
    NodeFrame<G::State>,
>
    decreases m,
{
    if m == 0 {
        Seq::empty()
    } else {
        flat_frames(game, levels, (m - 1) as nat) + level_frames(game, levels, m - 1)
    }
}

/// How many children of level `l` have their value on the score stack: all
/// those taken, but for the one being explored below a lower level.
pub open spec fn level_done<S>(levels: Seq<(S, nat)>, l: int) -> nat {
    if l == levels.len() - 1 {
        levels[l].1
    } else {
        (levels[l].1 - 1) as nat
    }
}

/// The score entries of the searched children of level `l`.
pub open spec fn level_entries<G: Game, H: Heuristic<G>>(
    game: G,
    h: H,
    sd: nat,
    me: Player,
    levels: Seq<(G::State, nat)>,
    l: int,
) -> Seq<ScoreFrame> {
    let p = levels[l].0;
    Seq::new(
        level_done(levels, l),
        |j: int|
            ScoreFrame {
                action: level_action(levels, l, j),
                score: minimax(game, h, child_of(game, p, j), (sd - l) as nat, me),
                depth: (l + 1) as usize,
                player: game.player_of(p),
            },
    )
}

/// The score stack that the first `m` levels stand for.
pub open spec fn flat_entries<G: Game, H: Heuristic<G>>(
    game: G,
    h: H,
    sd: nat,
    me: Player,
    levels: Seq<(G::State, nat)>,
    m: nat,
) -> Seq<ScoreFrame>
    decreases m,
{
    if m == 0 {
        Seq::empty()
    } else {
        flat_entries(game, h, sd, me, levels, (m - 1) as nat) + level_entries(game, h, sd, me, levels, m - 1)
    }
}

/// The levels describe a way down from `root`, each level a running position
/// at most `sd` plies deep, reached by the child of the level above that is
/// being explored.
pub open spec fn levels_ok<G: Game>(game: G, sd: nat, root: G::State, levels: Seq<(G::State, nat)>) -> bool {
    &&& levels.len() >= 1
    &&& levels[0].0 == root
    &&& forall|l: int|
        0 <= l < levels.len() ==> {
            &&& (#[trigger] levels[l]).1 <= game.actions_of(levels[l].0).len()
            &&& game.status_of(levels[l].0) == GameStatus::InProgress
            &&& l <= sd
        }
    &&& forall|l: int|
        1 <= l < levels.len() ==> (#[trigger] levels[l - 1]).1 >= 1 && levels[l].0 == child_of(
            game,
            levels[l - 1].0,
            levels[l - 1].1 - 1,
        )
}

/// Whether level `l` has no child left on the node stack.
pub open spec fn exhausted<G: Game>(game: G, levels: Seq<(G::State, nat)>, l: int) -> bool {
    levels[l].1 == game.actions_of(levels[l].0).len()
}

/// The number of positions in the tree below `s` that a search with `budget`
/// plies left still visits, `s` included.
pub open spec fn tree_size<G: Game>(game: G, s: G::State, budget: nat) -> nat
    decreases budget, 0nat,
{
    if budget == 0 || game.status_of(s) != GameStatus::InProgress {
        1
    } else {
        1 + kids_size(game, s, (budget - 1) as nat, 0)
    }
}

/// The sizes of the trees below the children of `p` from the `from`-th on.
pub open spec fn kids_size<G: Game>(game: G, p: G::State, budget: nat, from: nat) -> nat
    decreases budget, game.actions_of(p).len() - from + 1,
{
    if from >= game.actions_of(p).len() {
        0
    } else {
        tree_size(game, child_of(game, p, from as int), budget) + kids_size(game, p, budget, from + 1)
    }
}

/// The work left: the sizes of the trees below all children not yet taken.
pub open spec fn work_left<G: Game>(game: G, sd: nat, levels: Seq<(G::State, nat)>, m: nat) -> nat
    decreases m,
{
    if m == 0 {
        0
    } else {
        work_left(game, sd, levels, (m - 1) as nat) + kids_size(
            game,
            levels[m - 1].0,
            (sd - (m - 1)) as nat,
            levels[m - 1].1,
        )
    }
}

proof fn lemma_flat_prefix<G: Game, H: Heuristic<G>>(
    game: G,
    h: H,
    sd: nat,
    me: Player,
    a: Seq<(G::State, nat)>,
    b: Seq<(G::State, nat)>,
    m: nat,
)
    requires
        m <= a.len(),
        m <= b.len(),
        forall|l: int| 0 <= l < m ==> a[l] == b[l],
        m < a.len() || a.len() == b.len(),
        m < b.len() || a.len() == b.len(),
    ensures
        flat_frames(game, a, m) == flat_frames(game, b, m),
        flat_entries(game, h, sd, me, a, m) == flat_entries(game, h, sd, me, b, m),
        work_left(game, sd, a, m) == work_left(game, sd, b, m),
    decreases m,
{
    if m > 0 {
        lemma_flat_prefix(game, h, sd, me, a, b, (m - 1) as nat);
        assert(level_frames(game, a, m - 1) =~= level_frames(game, b, m - 1));
        assert(level_entries(game, h, sd, me, a, m - 1) =~= level_entries(game, h, sd, me, b, m - 1));
    }
}

proof fn lemma_frames_prefix<G: Game>(
    game: G,
    sd: nat,
    a: Seq<(G::State, nat)>,
    b: Seq<(G::State, nat)>,
    m: nat,
)
    requires
        m <= a.len(),
        m <= b.len(),
        forall|l: int| 0 <= l < m ==> a[l] == b[l],
    ensures
        flat_frames(game, a, m) == flat_frames(game, b, m),
        work_left(game, sd, a, m) == work_left(game, sd, b, m),
    decreases m,
{
    if m > 0 {
        lemma_frames_prefix(game, sd, a, b, (m - 1) as nat);
        assert(level_frames(game, a, m - 1) =~= level_frames(game, b, m - 1));
    }
}

/// The highest of the first `m` levels that still has children to take.
pub open spec fn top_level<G: Game>(game: G, levels: Seq<(G::State, nat)>, m: nat) -> int
    decreases m,
{
    if m == 0 {
        -1
    } else if !exhausted(game, levels, m - 1) {
        m - 1
    } else {
        top_level(game, levels, (m - 1) as nat)
    }
}

proof fn lemma_top_level<G: Game>(game: G, sd: nat, root: G::State, levels: Seq<(G::State, nat)>, m: nat)
    requires
        levels_ok(game, sd, root, levels),
        m <= levels.len(),
    ensures
        -1 <= top_level(game, levels, m) < m,
        forall|l: int| top_level(game, levels, m) < l < m ==> #[trigger] exhausted(game, levels, l),
        top_level(game, levels, m) >= 0 ==> !exhausted(game, levels, top_level(game, levels, m)),
        flat_frames(game, levels, m) == flat_frames(game, levels, (top_level(game, levels, m) + 1) as nat),
        work_left(game, sd, levels, m) == work_left(game, sd, levels, (top_level(game, levels, m) + 1) as nat),
    decreases m,
{
    if m > 0 {
        lemma_top_level(game, sd, root, levels, (m - 1) as nat);
        if exhausted(game, levels, m - 1) {
            assert(level_frames(game, levels, m - 1) =~= Seq::<NodeFrame<G::State>>::empty());
            assert(flat_frames(game, levels, m) =~= flat_frames(game, levels, (m - 1) as nat));
        }
    }
}

proof fn lemma_entries_depth<G: Game, H: Heuristic<G>>(
    game: G,
    h: H,
    sd: nat,
    me: Player,
    levels: Seq<(G::State, nat)>,
    m: nat,
)
    requires
        m <= levels.len(),
        levels.len() <= sd + 1,
        sd <= u8::MAX,
    ensures
        forall|i: int|
            0 <= i < flat_entries(game, h, sd, me, levels, m).len() ==> 1 <= (#[trigger] flat_entries(
                game,
                h,
                sd,
                me,
                levels,
                m,
            )[i]).depth <= m,
    decreases m,
{
    if m > 0 {
        lemma_entries_depth(game, h, sd, me, levels, (m - 1) as nat);
        let a = flat_entries(game, h, sd, me, levels, (m - 1) as nat);
        let b = level_entries(game, h, sd, me, levels, m - 1);
        assert forall|i: int| 0 <= i < flat_entries(game, h, sd, me, levels, m).len() implies 1 <= (
        #[trigger] flat_entries(game, h, sd, me, levels, m)[i]).depth <= m by {
            if i < a.len() {
                assert(flat_entries(game, h, sd, me, levels, m)[i] == a[i]);
            } else {
                assert(flat_entries(game, h, sd, me, levels, m)[i] == b[i - a.len()]);
            }
        }
    }
}

/// The best entry of the first `k` searched children of a level carries the
/// minimax fold over those children.
proof fn lemma_best_of_level<G: Game, H: Heuristic<G>>(
    game: G,
    h: H,
    sd: nat,
    me: Player,
    levels: Seq<(G::State, nat)>,
    l: int,
    k: nat,
)
    requires
        0 <= l < levels.len(),
        l <= sd,
        1 <= k <= level_done(levels, l),
    ensures
        ({
            let run = level_entries(game, h, sd, me, levels, l);
            let p = levels[l].0;
            let b = best_of(run.take(k as int), game.player_of(p) == me);
            &&& b.score == minimax_prefix(game, h, p, (sd - l) as nat, me, k)
            &&& l >= 1 ==> b.action == (levels[0].1 - 1) as usize
        }),
    decreases k,
{
    let run = level_entries(game, h, sd, me, levels, l);
    let p = levels[l].0;
    let t = run.take(k as int);
    let c = minimax(game, h, child_of(game, p, k - 1), (sd - l) as nat, me);
    assert(t.last() == run[k - 1]);
    assert(run[k - 1].score == c);
    let mx = game.player_of(p) == me;
    if k > 1 {
        lemma_best_of_level(game, h, sd, me, levels, l, (k - 1) as nat);
        assert(t.drop_last() =~= run.take(k - 1));
        let b = best_of(run.take(k - 1), mx);
        assert(best_of(t, mx) == if beats(c, b.score, mx) {
            t.last()
        } else {
            b
        });
        assert(minimax_prefix(game, h, p, (sd - l) as nat, me, k) == if mx {
            max_of(b.score, c)
        } else {
            min_of(b.score, c)
        });
    } else {
        assert(t[0] == run[0]);
        assert(minimax_prefix(game, h, p, (sd - l) as nat, me, 0) == start_value(mx));
        assert(minimax_prefix(game, h, p, (sd - l) as nat, me, 1) == if mx {
            max_of(start_value(mx), c)
        } else {
            min_of(start_value(mx), c)
        });
    }
}

/// At the root, the best entry of the first `k` children is the first one
/// of greatest value.
proof fn lemma_best_of_root<G: Game, H: Heuristic<G>>(
    game: G,
    h: H,
    sd: nat,
    me: Player,
    levels: Seq<(G::State, nat)>,
    k: nat,
)
    requires
        levels.len() >= 1,
        me == game.player_of(levels[0].0),
        1 <= k <= level_done(levels, 0),
        level_done(levels, 0) <= game.actions_of(levels[0].0).len(),
        game.actions_of(levels[0].0).len() <= usize::MAX,
    ensures
        ({
            let run = level_entries(game, h, sd, me, levels, 0);
            let scores = root_scores(game, h, levels[0].0, sd);
            &&& first_best(scores, k) < k
            &&& best_of(run.take(k as int), true) == run[first_best(scores, k) as int]
            &&& best_of(run.take(k as int), true).action == first_best(scores, k)
        }),
    decreases k,
{
    let run = level_entries(game, h, sd, me, levels, 0);
    let scores = root_scores(game, h, levels[0].0, sd);
    lemma_first_best_bounds(scores, k);
    let t = run.take(k as int);
    assert(t.last() == run[k - 1]);
    if k <= 1 {
        assert(t[0] == run[0]);
        assert(run[0].action == 0);
    }
    if k > 1 {
        lemma_best_of_root(game, h, sd, me, levels, (k - 1) as nat);
        lemma_first_best_bounds(scores, (k - 1) as nat);
        assert(run.take(k as int).drop_last() =~= run.take(k - 1));
        let j = first_best(scores, (k - 1) as nat) as int;
        assert(run[j].score == scores[j]);
        assert(run[k - 1].score == scores[k - 1]);
        assert(t.drop_last() =~= run.take(k - 1));
        assert(run[k - 1].action == k - 1);
        assert(run[j].action == j);
    }
}

/// Merges, level by level from the top, the entries of the levels from
/// `target` up, which must all have been searched through, so that the
/// score stack stands for the first `target` levels.
fn coalesce<G: Game, H: Heuristic<G>>(
    scores: &mut Vec<ScoreFrame>,
    target: usize,
    me: Player,
    g: Ghost<G>,
    hh: Ghost<H>,
    sd: Ghost<nat>,
    root: Ghost<G::State>,
    levels: Ghost<Seq<(G::State, nat)>>,
)
    requires
        levels_ok(g@, sd@, root@, levels@),
        levels@.len() <= sd@ + 1,
        sd@ <= u8::MAX,
        forall|l: int|
            0 <= l < levels@.len() ==> g@.actions_of((#[trigger] levels@[l]).0).len() > 0,
        me == g@.player_of(root@),
        1 <= target <= levels@.len(),
        forall|l: int| target <= l < levels@.len() ==> #[trigger] exhausted(g@, levels@, l),
        old(scores)@ == flat_entries(g@, hh@, sd@, me, levels@, levels@.len()),
    ensures
        final(scores)@ == flat_entries(g@, hh@, sd@, me, levels@.take(target as int), target as nat),
{
    let ghost game = g@;
    let ghost h = hh@;
    let ghost mut lv = levels@;
    while scores.len() > 0 && scores[scores.len() - 1].depth > target
        invariant
            levels_ok(game, sd@, root@, lv),
            lv.len() <= sd@ + 1,
            sd@ <= u8::MAX,
            forall|l: int| 0 <= l < lv.len() ==> game.actions_of((#[trigger] lv[l]).0).len() > 0,
            me == game.player_of(root@),
            1 <= target <= lv.len() <= levels@.len(),
            lv == levels@.take(lv.len() as int),
            forall|l: int| target <= l < lv.len() ==> #[trigger] exhausted(game, lv, l),
            scores@ == flat_entries(game, h, sd@, me, lv, lv.len()),
        decreases lv.len(),
    {
        let ghost k = lv.len();
        let ghost lower = flat_entries(game, h, sd@, me, lv, (k - 1) as nat);
        let ghost run = level_entries(game, h, sd@, me, lv, k - 1);
        proof {
            lemma_entries_depth(game, h, sd@, me, lv, (k - 1) as nat);
            if k == target {
                lemma_entries_depth(game, h, sd@, me, lv, k as nat);
                assert(false);
            }
            assert(exhausted(game, lv, k - 1));
            assert(lv[k - 1].1 == game.actions_of(lv[k - 1].0).len());
            assert(game.actions_of(lv[k - 1].0).len() > 0);
            assert(run.len() > 0);
            assert(scores@ == lower + run);
            assert(scores@.last() == run.last());
        }
        let start = merge_run(scores, me);
        proof {
            let old_scores = lower + run;
            if start > lower.len() {
                assert(old_scores[start - 1] == run[start - 1 - lower.len()]);
            }
            if start < lower.len() {
                assert(old_scores[lower.len() - 1] == lower[lower.len() - 1]);
                assert(old_scores[lower.len() - 1].depth == old_scores.last().depth);
            }
            assert(start == lower.len());
            assert(old_scores.take(start as int) =~= lower);
            assert(old_scores.subrange(start as int, old_scores.len() as int) =~= run);
            let lv2 = lv.take(k - 1);
            let j = lv[k - 2].1 - 1;
            let p = lv[k - 2].0;
            let c = lv[k - 1].0;
            lemma_flat_prefix(game, h, sd@, me, lv, lv2, (k - 2) as nat);
            lemma_best_of_level(game, h, sd@, me, lv, k - 1, run.len());
            assert(run.take(run.len() as int) =~= run);
            assert(c == child_of(game, p, j));
            assert(game.actions_of(p).contains(game.actions_of(p)[j]));
            game.lemma_turns_alternate(p, game.actions_of(p)[j]);
            let m = merged(run, me);
            assert(m.score == minimax(game, h, c, (sd@ - (k - 2)) as nat, me));
            assert(run.last().player == game.player_of(c));
            assert(m.player == game.player_of(p));
            assert(m.depth == k - 1);
            assert(m.action == level_action(lv2, k - 2, j));
            let e2 = level_entries(game, h, sd@, me, lv2, k - 2);
            let e1 = level_entries(game, h, sd@, me, lv, k - 2);
            assert(e2.len() == e1.len() + 1);
            assert(e2[j] == m);
            assert forall|i: int| 0 <= i < e1.len() implies e2[i] == e1[i] by {
            }
            assert(level_entries(game, h, sd@, me, lv2, k - 2) =~= level_entries(game, h, sd@, me, lv, k - 2).push(m));
            assert(flat_entries(game, h, sd@, me, lv, (k - 1) as nat) == flat_entries(game, h, sd@, me, lv, (k - 2) as nat)
                + level_entries(game, h, sd@, me, lv, k - 2));
            assert(flat_entries(game, h, sd@, me, lv2, (k - 1) as nat) == flat_entries(game, h, sd@, me, lv2, (k - 2) as nat)
                + level_entries(game, h, sd@, me, lv2, k - 2));
            assert(scores@ =~= flat_entries(game, h, sd@, me, lv2, (k - 1) as nat));
            assert(lv2 =~= levels@.take(lv2.len() as int));
            assert forall|l: int| target <= l < lv2.len() implies #[trigger] exhausted(game, lv2, l) by {
                assert(lv2[l] == lv[l]);
                assert(exhausted(game, lv, l));
            }
            assert forall|l: int| 0 <= l < lv2.len() implies game.actions_of((#[trigger] lv2[l]).0).len() > 0 by {
                assert(lv2[l] == lv[l]);
            }
            lv = lv2;
        }
    }
    proof {
        if lv.len() > target {
            let k = lv.len();
            assert(exhausted(game, lv, k - 1));
            let run = level_entries(game, h, sd@, me, lv, k - 1);
            assert(run.len() > 0);
            assert(scores@ == flat_entries(game, h, sd@, me, lv, (k - 1) as nat) + run);
            assert(scores@.last() == run.last());
        }
    }
}

impl<H> MinMaxStrategy<H> {
    /// The same choice as `best_action` without pruning, made without
    /// recursion: a node stack of positions still to search and a score stack
    /// of values still to merge, the values of siblings being merged into
    /// their parent's as soon as the search has left them.
    pub fn best_action_iterative<G: Game>(&self, game: &G, state: &G::State) -> (r: G::Action) where
        H: Heuristic<G>,
        requires
            game.status_of(*state) == GameStatus::InProgress,
        ensures
            r == crate::minmax::minmax_choice(*game, self.heuristic, *state, self.search_depth as nat),
    {
        let ghost h = self.heuristic;
        let ghost gsd = self.search_depth as nat;
        let me = game.player(state);
        let sd = self.search_depth as usize;
        let mut root_actions = game.actions(state);
        let n = root_actions.len();
        let ghost levels0 = seq![(*state, 0nat)];
        let mut nodes: Vec<NodeFrame<G::State>> = Vec::new();
        let mut j: usize = n;
        while j > 0
            invariant
                j <= n,
                n == root_actions@.len(),
                root_actions@ == game.actions_of(*state),
                levels0 == seq![(*state, 0nat)],
                nodes@ == level_frames(*game, levels0, 0).take(n - j),
            decreases j,
        {
            j = j - 1;
            assert(root_actions@.contains(root_actions@[j as int]));
            let child = game.play(&root_actions[j], state);
            nodes.push(NodeFrame { state: child, root_action: j, depth: 1 });
            assert(nodes@ =~= level_frames(*game, levels0, 0).take(n - j));
        }
        assert(level_frames(*game, levels0, 0).take(n as int) =~= level_frames(*game, levels0, 0));
        assert(flat_frames(*game, levels0, 1) == flat_frames(*game, levels0, 0) + level_frames(*game, levels0, 0));
        assert(nodes@ =~= flat_frames(*game, levels0, 1));
        let mut scores: Vec<ScoreFrame> = Vec::new();
        assert(flat_entries(*game, h, gsd, me, levels0, 1) == flat_entries(*game, h, gsd, me, levels0, 0)
            + level_entries(*game, h, gsd, me, levels0, 0));
        assert(scores@ =~= flat_entries(*game, h, gsd, me, levels0, 1));
        let ghost mut levels = levels0;
        while nodes.len() > 0
            invariant
                levels_ok(*game, gsd, *state, levels),
                levels.len() <= gsd + 1,
                gsd <= u8::MAX,
                sd == gsd,
                gsd == self.search_depth,
                h == self.heuristic,
                forall|l: int| 0 <= l < levels.len() ==> game.actions_of((#[trigger] levels[l]).0).len() > 0,
                me == game.player_of(*state),
                root_actions@ == game.actions_of(*state),
                nodes@ == flat_frames(*game, levels, levels.len()),
                scores@ == flat_entries(*game, h, gsd, me, levels, levels.len()),
            decreases work_left(*game, gsd, levels, levels.len()),
        {
            let ghost big = levels.len();
            let ghost w0 = work_left(*game, gsd, levels, big);
            let ghost t = top_level(*game, levels, big);
            proof {
                lemma_top_level(*game, gsd, *state, levels, big);
                if t < 0 {
                    assert(flat_frames(*game, levels, 0).len() == 0);
                }
                assert(flat_frames(*game, levels, (t + 1) as nat) == flat_frames(*game, levels, t as nat)
                    + level_frames(*game, levels, t));
                assert(nodes@.last() == level_frames(*game, levels, t).last());
            }
            let d = nodes[nodes.len() - 1].depth;
            coalesce::<G, H>(&mut scores, d, me, Ghost(*game), Ghost(h), Ghost(gsd), Ghost(*state), Ghost(levels));
            proof {
                let cut = levels.take(t + 1);
                lemma_frames_prefix(*game, gsd, levels, cut, (t + 1) as nat);
                levels = cut;
                assert(work_left(*game, gsd, levels, (t + 1) as nat) == w0);
            }
            let ghost p = levels[t].0;
            let ghost popped = levels[t].1;
            let ghost before_nodes = nodes@;
            let node = nodes.pop().unwrap();
            proof {
                assert(node == level_frames(*game, levels, t).last());
                assert(node.state == child_of(*game, p, popped as int));
                assert(game.actions_of(p).contains(game.actions_of(p)[popped as int]));
                game.lemma_turns_alternate(p, game.actions_of(p)[popped as int]);
            }
            let ghost lv1 = levels.update(t, (p, popped + 1));
            proof {
                assert(level_frames(*game, lv1, t) =~= level_frames(*game, levels, t).drop_last());
                lemma_frames_prefix(*game, gsd, levels, lv1, t as nat);
                assert(nodes@ =~= flat_frames(*game, lv1, (t + 1) as nat));
                assert(kids_size(*game, p, (gsd - t) as nat, popped) == tree_size(*game, node.state, (gsd - t) as nat)
                    + kids_size(*game, p, (gsd - t) as nat, popped + 1));
                assert(work_left(*game, gsd, levels, (t + 1) as nat) == work_left(*game, gsd, levels, t as nat)
                    + kids_size(*game, p, (gsd - t) as nat, popped));
                assert(work_left(*game, gsd, lv1, (t + 1) as nat) == work_left(*game, gsd, lv1, t as nat)
                    + kids_size(*game, p, (gsd - t) as nat, popped + 1));
            }
            if game.status(&node.state) != GameStatus::InProgress || node.depth == sd + 1 {
                let v = self.heuristic.evaluate(game, &node.state, me);
                let mover = game.player(&node.state);
                let e = ScoreFrame { action: node.root_action, score: v, depth: node.depth, player: other_player(mover) };
                let ghost old_scores = scores@;
                scores.push(e);
                proof {
                    lemma_flat_prefix(*game, h, gsd, me, levels, lv1, t as nat);
                    assert(level_entries(*game, h, gsd, me, lv1, t) =~= level_entries(*game, h, gsd, me, levels, t).push(e));
                    assert(scores@ =~= flat_entries(*game, h, gsd, me, lv1, (t + 1) as nat));
                    assert forall|l: int| 0 <= l < lv1.len() implies game.actions_of((#[trigger] lv1[l]).0).len() > 0 by {
                        assert(lv1[l].0 == levels[l].0);
                    }
                    assert(levels_ok(*game, gsd, *state, lv1));
                    assert(work_left(*game, gsd, levels, (t + 1) as nat) == work_left(*game, gsd, levels, t as nat) + kids_size(*game, p, (gsd - t) as nat, popped));
                    levels = lv1;
                }
            } else {
                let acts = game.actions(&node.state);
                let m = acts.len();
                let ghost lv2 = lv1.push((node.state, 0nat));
                let ghost base = nodes@;
                let mut jj: usize = m;
                while jj > 0
                    invariant
                        jj <= m,
                        m == acts@.len(),
                        acts@ == game.actions_of(node.state),
                        node.depth == t + 1,
                        t >= 0,
                        t + 1 <= gsd,
                        gsd <= u8::MAX,
                        lv2[t + 1] == (node.state, 0nat),
                        lv2 == lv1.push((node.state, 0nat)),
                        lv2.len() == t + 2,
                        node.root_action == level_action(lv2, t + 1, 0),
                        nodes@ == base + level_frames(*game, lv2, t + 1).take(m - jj),
                    decreases jj,
                {
                    jj = jj - 1;
                    assert(acts@.contains(acts@[jj as int]));
                    let c = game.play(&acts[jj], &node.state);
                    nodes.push(NodeFrame { state: c, root_action: node.root_action, depth: node.depth + 1 });
                    let ghost lf = level_frames(*game, lv2, t + 1);
                    assert(lf.len() == m);
                    assert(lf[m - 1 - jj].state == c);
                    assert(lf[m - 1 - jj].root_action == node.root_action);
                    assert(lf[m - 1 - jj].depth == node.depth + 1);
                    assert(nodes@ =~= base + level_frames(*game, lv2, t + 1).take(m - jj));
                }
                proof {
                    lemma_frames_prefix(*game, gsd, lv1, lv2, (t + 1) as nat);
                    assert(level_frames(*game, lv2, t + 1).take(m as int) =~= level_frames(*game, lv2, t + 1));
                    assert(nodes@ =~= flat_frames(*game, lv2, (t + 2) as nat));
                    lemma_flat_prefix(*game, h, gsd, me, levels, lv2, t as nat);
                    assert(level_entries(*game, h, gsd, me, lv2, t) =~= level_entries(*game, h, gsd, me, levels, t));
                    assert(level_entries(*game, h, gsd, me, lv2, t + 1) =~= Seq::<ScoreFrame>::empty());
                    assert(flat_entries(*game, h, gsd, me, lv2, (t + 2) as nat) == flat_entries(*game, h, gsd, me, lv2, (t + 1) as nat)
                        + level_entries(*game, h, gsd, me, lv2, t + 1));
                    assert(flat_entries(*game, h, gsd, me, lv2, (t + 1) as nat) == flat_entries(*game, h, gsd, me, lv2, t as nat)
                        + level_entries(*game, h, gsd, me, lv2, t));
                    assert(flat_entries(*game, h, gsd, me, levels, (t + 1) as nat) == flat_entries(*game, h, gsd, me, levels, t as nat)
                        + level_entries(*game, h, gsd, me, levels, t));
                    assert(scores@ =~= flat_entries(*game, h, gsd, me, lv2, (t + 2) as nat));
                    assert(tree_size(*game, node.state, (gsd - t) as nat) == 1 + kids_size(*game, node.state, (gsd - (t + 1)) as nat, 0));
                    assert forall|l: int| 0 <= l < lv2.len() implies game.actions_of((#[trigger] lv2[l]).0).len() > 0 by {
                        if l <= t {
                            assert(lv2[l].0 == levels[l].0);
                        }
                    }
                    assert(levels_ok(*game, gsd, *state, lv2));
                    assert(work_left(*game, gsd, levels, (t + 1) as nat) == work_left(*game, gsd, levels, t as nat) + kids_size(*game, p, (gsd - t) as nat, popped));
                    assert(work_left(*game, gsd, lv2, (t + 2) as nat) == work_left(*game, gsd, lv2, (t + 1) as nat) + kids_size(*game, node.state, (gsd - (t + 1)) as nat, 0));
                    levels = lv2;
                }
            }
        }
        proof {
            lemma_top_level(*game, gsd, *state, levels, levels.len());
            let t = top_level(*game, levels, levels.len());
            if t >= 0 {
                assert(flat_frames(*game, levels, (t + 1) as nat) == flat_frames(*game, levels, t as nat)
                    + level_frames(*game, levels, t));
            }
        }
        coalesce::<G, H>(&mut scores, 1, me, Ghost(*game), Ghost(h), Ghost(gsd), Ghost(*state), Ghost(levels));
        let ghost lv = levels.take(1);
        let ghost run = level_entries(*game, h, gsd, me, lv, 0);
        proof {
            assert(exhausted(*game, levels, 0));
            assert(flat_entries(*game, h, gsd, me, lv, 1) == flat_entries(*game, h, gsd, me, lv, 0)
                + level_entries(*game, h, gsd, me, lv, 0));
            assert(scores@ =~= run);
            assert(run.len() == n);
        }
        let start = merge_run(&mut scores, me);
        proof {
            if start > 0 {
                assert(run[start - 1].depth == 1);
            }
            assert(run.subrange(0, run.len() as int) =~= run);
            assert(run.take(n as int) =~= run);
            lemma_best_of_root(*game, h, gsd, me, lv, n as nat);
        }
        let a = scores[0].action;
        let ghost all = root_actions@;
        let r = root_actions.remove(a);
        r
    }
}

} // verus!
