use std::num::NonZeroUsize;

use indextree::Arena;
use vstd::prelude::*;
use vstd::string::StringExecFns;

use crate::game::{legal_walk, walk_end, Game, GameStatus, Player, Strategy};
use crate::random::random_index;

verus! {

/// The statistics that the search keeps in each tree node.
#[derive(Clone, Copy, Debug)]
pub struct NodeData {
    /// The position, among the parent's legal moves, of the move that led
    /// here; `None` at the root.
    pub action: Option<usize>,
    /// How many playouts went through this node.
    pub playouts: u64,
    /// The win credit of this node, counted in half points so that a draw's
    /// half point stays exact.
    pub half_wins: u64,
}

#[verifier::external_type_specification]
#[verifier::external_body]
#[verifier::reject_recursive_types(T)]
pub struct ExArena<T>(Arena<T>);

/// The data held in each slot of an arena, slot `k` holding the node whose
/// one-based index is `k + 1`; `None` for a removed node.
pub uninterp spec fn arena_slots(a: Arena<NodeData>) -> Seq<Option<NodeData>>;

/// The one-based index of the parent of the node in each slot.
pub uninterp spec fn arena_parents(a: Arena<NodeData>) -> Seq<Option<usize>>;

/// The one-based indices of the children of the node in each slot, in the
/// order in which they were appended.
pub uninterp spec fn arena_children(a: Arena<NodeData>) -> Seq<Seq<usize>>;

/// Whether the arena holds `n` nodes, none of them removed.
pub open spec fn arena_live(a: Arena<NodeData>, n: nat) -> bool {
    &&& arena_slots(a).len() == n
    &&& arena_parents(a).len() == n
    &&& arena_children(a).len() == n
    &&& forall|k: int| 0 <= k < n ==> (#[trigger] arena_slots(a)[k]) is Some
}

/// Relies on `indextree::Arena::new`: an arena without nodes.
#[verifier::external_body]
fn arena_new() -> (r: Arena<NodeData>)
    ensures
        arena_slots(r) == Seq::<Option<NodeData>>::empty(),
        arena_parents(r) == Seq::<Option<usize>>::empty(),
        arena_children(r) == Seq::<Seq<usize>>::empty(),
{
    Arena::new()
}

/// Relies on `indextree::Arena::new_node`: in an arena without removed nodes
/// the new node takes a fresh slot at the end, without parent or children, and
/// its id converts to its one-based index. It panics when the index overflows.
#[verifier::external_body]
fn arena_add(arena: &mut Arena<NodeData>, data: NodeData) -> (r: usize)
    requires
        forall|k: int|
            0 <= k < arena_slots(*old(arena)).len() ==> (#[trigger] arena_slots(*old(arena))[k]) is Some,
        arena_slots(*old(arena)).len() < usize::MAX,
    ensures
        r == arena_slots(*old(arena)).len() + 1,
        arena_slots(*final(arena)) == arena_slots(*old(arena)).push(Some(data)),
        arena_parents(*final(arena)) == arena_parents(*old(arena)).push(None),
        arena_children(*final(arena)) == arena_children(*old(arena)).push(Seq::<usize>::empty()),
{
    usize::from(arena.new_node(data))
}

/// Relies on `indextree::Arena::get_node_id_at`, `Arena::get` and `Node::get`:
/// the data of the live node with one-based index `i`.
#[verifier::external_body]
fn arena_data(arena: &Arena<NodeData>, i: usize) -> (r: NodeData)
    requires
        1 <= i <= arena_slots(*arena).len(),
        arena_slots(*arena)[i - 1] is Some,
    ensures
        arena_slots(*arena)[i - 1] == Some(r),
{
    let id = arena.get_node_id_at(NonZeroUsize::new(i).unwrap()).unwrap();
    *arena.get(id).unwrap().get()
}

/// Relies on `indextree::Arena::get_node_id_at`, `Arena::get_mut` and
/// `Node::get_mut`: replaces the data of the live node with one-based index
/// `i`, leaving the links alone.
#[verifier::external_body]
fn arena_set_data(arena: &mut Arena<NodeData>, i: usize, data: NodeData)
    requires
        1 <= i <= arena_slots(*old(arena)).len(),
        arena_slots(*old(arena))[i - 1] is Some,
    ensures
        arena_slots(*final(arena)) == arena_slots(*old(arena)).update(i - 1, Some(data)),
        arena_parents(*final(arena)) == arena_parents(*old(arena)),
        arena_children(*final(arena)) == arena_children(*old(arena)),
{
    let id = arena.get_node_id_at(NonZeroUsize::new(i).unwrap()).unwrap();
    *arena.get_mut(id).unwrap().get_mut() = data;
}

/// Relies on `indextree::NodeId::children`: the one-based indices of the
/// children of the live node `i`, first appended first.
#[verifier::external_body]
fn arena_children_of(arena: &Arena<NodeData>, i: usize) -> (r: Vec<usize>)
    requires
        1 <= i <= arena_slots(*arena).len(),
        arena_slots(*arena)[i - 1] is Some,
    ensures
        r@ == arena_children(*arena)[i - 1],
{
    let id = arena.get_node_id_at(NonZeroUsize::new(i).unwrap()).unwrap();
    id.children(arena).map(usize::from).collect()
}

/// Relies on `indextree::NodeId::parent`: the one-based index of the parent of
/// the live node `i`, if it has one.
#[verifier::external_body]
fn arena_parent_of(arena: &Arena<NodeData>, i: usize) -> (r: Option<usize>)
    requires
        1 <= i <= arena_slots(*arena).len(),
        arena_slots(*arena)[i - 1] is Some,
    ensures
        r == arena_parents(*arena)[i - 1],
{
    let id = arena.get_node_id_at(NonZeroUsize::new(i).unwrap()).unwrap();
    id.parent(arena).map(usize::from)
}

/// Relies on `indextree::NodeId::append`: makes the live node `child`, which
/// has neither parent nor children, the last child of the live node `parent`.
/// `append` panics when the child is the parent or one of its ancestors.
#[verifier::external_body]
fn arena_append(arena: &mut Arena<NodeData>, parent: usize, child: usize)
    requires
        1 <= parent <= arena_slots(*old(arena)).len(),
        1 <= child <= arena_slots(*old(arena)).len(),
        parent != child,
        arena_slots(*old(arena))[parent - 1] is Some,
        arena_slots(*old(arena))[child - 1] is Some,
        arena_parents(*old(arena))[child - 1] is None,
        arena_children(*old(arena))[child - 1].len() == 0,
    ensures
        arena_slots(*final(arena)) == arena_slots(*old(arena)),
        arena_parents(*final(arena)) == arena_parents(*old(arena)).update(child - 1, Some(parent)),
        arena_children(*final(arena)) == arena_children(*old(arena)).update(
            parent - 1,
            arena_children(*old(arena))[parent - 1].push(child),
        ),
{
    let p = arena.get_node_id_at(NonZeroUsize::new(parent).unwrap()).unwrap();
    let c = arena.get_node_id_at(NonZeroUsize::new(child).unwrap()).unwrap();
    p.append(c, arena);
}

/// The half points that a node whose side to move is `mover` earns from a game
/// that ended in `result`: two when the side that moved into the node won, one
/// for a draw, none otherwise.
pub open spec fn credit(result: GameStatus, mover: Player) -> u64 {
    match result {
        GameStatus::Draw => 1,
        GameStatus::Player1Win => if mover == Player::Player2 {
            2
        } else {
            0
        },
        GameStatus::Player2Win => if mover == Player::Player1 {
            2
        } else {
            0
        },
        GameStatus::InProgress => 0,
    }
}

/// `d` after one more playout that ended in `result`, `mover` being the side
/// to move at the node.
pub open spec fn bumped(d: NodeData, result: GameStatus, mover: Player) -> NodeData {
    NodeData {
        action: d.action,
        playouts: (d.playouts + 1) as u64,
        half_wins: (d.half_wins + credit(result, mover)) as u64,
    }
}

/// A search tree grown from one root position. Nodes are numbered from 1, the
/// root being node 1; the root position is kept by the caller, the positions
/// of the other nodes by the tree.
pub struct SearchTree<G: Game> {
    arena: Arena<NodeData>,
    states: Vec<G::State>,
    /// For each node, the number of playouts that ended there.
    ends: Ghost<Seq<nat>>,
}

impl<G: Game> SearchTree<G> {
    /// The number of nodes.
    pub closed spec fn size(&self) -> nat {
        self.states@.len() + 1
    }

    /// The statistics of node `k`.
    pub closed spec fn data(&self, k: int) -> NodeData {
        arena_slots(self.arena)[k - 1]->0
    }

    /// The parent of node `k`.
    pub closed spec fn parent(&self, k: int) -> Option<usize> {
        arena_parents(self.arena)[k - 1]
    }

    /// The children of node `k`, oldest first.
    pub closed spec fn kids(&self, k: int) -> Seq<usize> {
        arena_children(self.arena)[k - 1]
    }

    /// The position of node `k`, the root holding `root`.
    pub closed spec fn state(&self, root: G::State, k: int) -> G::State {
        if k == 1 {
            root
        } else {
            self.states@[k - 2]
        }
    }

    /// The `m`-th child of node `j` exists, is numbered after `j`, and holds
    /// the position reached by the `m`-th legal move of `j`.
    pub closed spec fn child_ok(&self, game: G, root: G::State, j: int, m: int) -> bool {
        let c = self.kids(j)[m] as int;
        let st = self.state(root, j);
        &&& j < c <= self.size()
        &&& self.parent(c) == Some(j as usize)
        &&& self.data(c).action == Some(m as usize)
        &&& self.state(root, c) == game.next_state(game.actions_of(st)[m], st)
    }

    /// Node `j` has at most one child per legal move, and children only when
    /// its position is running.
    pub closed spec fn kids_ok(&self, game: G, root: G::State, j: int) -> bool {
        let st = self.state(root, j);
        &&& self.kids(j).len() <= game.actions_of(st).len()
        &&& self.kids(j).len() <= usize::MAX
        &&& self.kids(j).len() > 0 ==> game.status_of(st) == GameStatus::InProgress
        &&& forall|m: int| 0 <= m < self.kids(j).len() ==> #[trigger] self.child_ok(game, root, j, m)
    }

    /// The tree is well formed for `game` from `root`.
    pub closed spec fn wf(&self, game: G, root: G::State) -> bool {
        let n = self.size();
        &&& n < usize::MAX
        &&& self.ends@.len() == n
        &&& arena_live(self.arena, n)
        &&& self.parent(1) is None
        &&& forall|k: int|
            2 <= k <= n ==> (#[trigger] self.parent(k)) is Some && 1 <= self.parent(k)->0 < k
        &&& forall|k: int|
            #![trigger self.parent(k)]
            2 <= k <= n ==> self.kids(self.parent(k)->0 as int).contains(k as usize)
        &&& forall|j: int| 1 <= j <= n ==> #[trigger] self.kids_ok(game, root, j)
        &&& self.conserved()
    }

    /// The number of playouts that ended at node `k`.
    pub closed spec fn ended(&self, k: int) -> nat {
        self.ends@[k - 1]
    }

    /// The playout counts of the children of node `k`, oldest child first.
    pub open spec fn kid_visits(&self, k: int) -> Seq<u64> {
        self.kids(k).map_values(|c: usize| self.data(c as int).playouts)
    }

    /// Every playout through a node either ended there or went on into one
    /// of its children.
    pub open spec fn conserved(&self) -> bool {
        forall|k: int|
            1 <= k <= self.size() ==> (#[trigger] self.data(k)).playouts == self.ended(k) + visit_sum(
                self.kid_visits(k),
            )
    }

    /// Whether node `k` lies on the way from node `leaf` up to the root.
    pub closed spec fn on_path(&self, leaf: int, k: int) -> bool
        decreases leaf,
    {
        if leaf < 1 {
            false
        } else if leaf == k {
            true
        } else {
            match self.parent(leaf) {
                Some(p) => if 1 <= p < leaf {
                    self.on_path(p as int, k)
                } else {
                    false
                },
                None => false,
            }
        }
    }

    proof fn lemma_path_below(&self, leaf: int, k: int)
        requires
            self.on_path(leaf, k),
        ensures
            1 <= k <= leaf,
        decreases leaf,
    {
        if leaf != k {
            let p = self.parent(leaf)->0 as int;
            self.lemma_path_below(p, k);
        }
    }

    proof fn lemma_path_step(&self, leaf: int, k: int)
        requires
            self.on_path(leaf, k),
            self.parent(k) is Some,
            1 <= self.parent(k)->0 < k,
        ensures
            self.on_path(leaf, self.parent(k)->0 as int),
        decreases leaf,
    {
        if leaf != k {
            let p = self.parent(leaf)->0 as int;
            self.lemma_path_step(p, k);
        } else {
            let p = self.parent(k)->0 as int;
            assert(self.on_path(p, p));
        }
    }

    proof fn lemma_path_reaches_root(&self, game: G, root: G::State, leaf: int)
        requires
            self.wf(game, root),
            1 <= leaf <= self.size(),
        ensures
            self.on_path(leaf, 1),
        decreases leaf,
    {
        if leaf > 1 {
            let p = self.parent(leaf)->0 as int;
            self.lemma_path_reaches_root(game, root, p);
        }
    }

    proof fn lemma_root_kid_on_path(&self, game: G, root: G::State, leaf: int)
        requires
            self.wf(game, root),
            2 <= leaf <= self.size(),
        ensures
            exists|i: int| 0 <= i < self.kids(1).len() && self.on_path(leaf, #[trigger] self.kids(1)[i] as int),
        decreases leaf,
    {
        let p = self.parent(leaf)->0 as int;
        if p == 1 {
            assert(self.kids(1).contains(leaf as usize));
            let i = choose|i: int| 0 <= i < self.kids(1).len() && self.kids(1)[i] == leaf as usize;
            assert(self.on_path(leaf, self.kids(1)[i] as int));
        } else {
            self.lemma_root_kid_on_path(game, root, p);
            let i = choose|i: int| 0 <= i < self.kids(1).len() && self.on_path(p, #[trigger] self.kids(1)[i] as int);
            let c = self.kids(1)[i] as int;
            self.lemma_path_below(p, c);
            assert(self.on_path(leaf, c));
        }
    }

    proof fn lemma_one_root_kid_on_path(&self, game: G, root: G::State, leaf: int, c1: int, c2: int)
        requires
            self.wf(game, root),
            1 <= leaf <= self.size(),
            self.on_path(leaf, c1),
            self.on_path(leaf, c2),
            self.parent(c1) == Some(1usize),
            self.parent(c2) == Some(1usize),
        ensures
            c1 == c2,
        decreases leaf,
    {
        if leaf == c1 {
            if c2 != c1 {
                assert(self.on_path(1, c2));
            }
        } else if leaf == c2 {
            assert(self.on_path(1, c1));
        } else {
            let p = self.parent(leaf)->0 as int;
            self.lemma_one_root_kid_on_path(game, root, p, c1, c2);
        }
    }

    proof fn lemma_kid_on_path(&self, game: G, root: G::State, leaf: int, k: int)
        requires
            self.wf(game, root),
            1 <= leaf <= self.size(),
            self.on_path(leaf, k),
            k != leaf,
        ensures
            exists|i: int| 0 <= i < self.kids(k).len() && self.on_path(leaf, #[trigger] self.kids(k)[i] as int),
        decreases leaf,
    {
        let p = self.parent(leaf)->0 as int;
        if p == k {
            assert(self.kids(k).contains(leaf as usize));
            let i = choose|i: int| 0 <= i < self.kids(k).len() && self.kids(k)[i] == leaf as usize;
            assert(self.on_path(leaf, self.kids(k)[i] as int));
        } else {
            self.lemma_kid_on_path(game, root, p, k);
            let i = choose|i: int| 0 <= i < self.kids(k).len() && self.on_path(p, #[trigger] self.kids(k)[i] as int);
            let c = self.kids(k)[i] as int;
            self.lemma_path_below(p, c);
            assert(self.on_path(leaf, c));
        }
    }

    proof fn lemma_one_kid_on_path(&self, game: G, root: G::State, leaf: int, k: int, c1: int, c2: int)
        requires
            self.wf(game, root),
            1 <= leaf <= self.size(),
            1 <= c1 <= self.size(),
            1 <= c2 <= self.size(),
            self.on_path(leaf, c1),
            self.on_path(leaf, c2),
            1 <= k <= self.size(),
            self.parent(c1) == Some(k as usize),
            self.parent(c2) == Some(k as usize),
        ensures
            c1 == c2,
        decreases leaf,
    {
        assert(c1 != 1 && c2 != 1);
        assert(self.parent(c1) is Some && 1 <= self.parent(c1)->0 < c1);
        assert(self.parent(c2) is Some && 1 <= self.parent(c2)->0 < c2);
        if leaf == c1 {
            if c2 != c1 {
                assert(self.on_path(k, c2));
                self.lemma_path_below(k, c2);
            }
        } else if leaf == c2 {
            assert(self.on_path(k, c1));
            self.lemma_path_below(k, c1);
        } else {
            let p = self.parent(leaf)->0 as int;
            self.lemma_one_kid_on_path(game, root, p, k, c1, c2);
        }
    }

    /// The position of node `k`.
    fn node_state<'a>(&'a self, root: &'a G::State, k: usize) -> (r: &'a G::State)
        requires
            1 <= k <= self.size(),
        ensures
            *r == self.state(*root, k as int),
    {
        if k == 1 {
            root
        } else {
            &self.states[k - 2]
        }
    }

    /// Adds a child to node `j` for its first legal move that has no child yet.
    pub fn expand(&mut self, game: &G, root: &G::State, j: usize) -> (r: usize)
        requires
            old(self).wf(*game, *root),
            1 <= j <= old(self).size(),
            game.status_of(old(self).state(*root, j as int)) == GameStatus::InProgress,
            old(self).kids(j as int).len() < game.actions_of(old(self).state(*root, j as int)).len(),
            old(self).size() + 1 < usize::MAX,
        ensures
            final(self).wf(*game, *root),
            final(self).size() == old(self).size() + 1,
            r == final(self).size(),
            final(self).data(r as int) == (NodeData {
                action: Some(old(self).kids(j as int).len() as usize),
                playouts: 0,
                half_wins: 0,
            }),
            final(self).parent(r as int) == Some(j),
            final(self).kids(j as int) == old(self).kids(j as int).push(r),
            forall|k: int|
                1 <= k <= old(self).size() ==> {
                    &&& #[trigger] final(self).data(k) == old(self).data(k)
                    &&& final(self).parent(k) == old(self).parent(k)
                    &&& final(self).state(*root, k) == old(self).state(*root, k)
                    &&& k != j ==> final(self).kids(k) == old(self).kids(k)
                },
    {
        let ghost old_tree = *self;
        let kids = arena_children_of(&self.arena, j);
        let m = kids.len();
        let st = self.node_state(root, j);
        let actions = game.actions(st);
        assert(actions@.contains(actions@[m as int]));
        let n_act = actions.len();
        let child = game.play(&actions[m], st);
        let r = arena_add(&mut self.arena, NodeData { action: Some(m), playouts: 0, half_wins: 0 });
        self.states.push(child);
        arena_append(&mut self.arena, j, r);
        let ends: Ghost<Seq<nat>> = Ghost(self.ends@.push(0nat));
        self.ends = ends;
        proof {
            assert forall|k: int| 1 <= k <= self.size() implies (#[trigger] self.data(k)).playouts == self.ended(k)
                + visit_sum(self.kid_visits(k)) by {
                if k < self.size() {
                    assert(old_tree.data(k).playouts == old_tree.ended(k) + visit_sum(old_tree.kid_visits(k)));
                    assert(self.data(k) == old_tree.data(k));
                    assert(self.ended(k) == old_tree.ended(k));
                    assert(old_tree.kids_ok(*game, *root, k));
                    assert forall|i: int| 0 <= i < old_tree.kids(k).len() implies self.kid_visits(k)[i]
                        == old_tree.kid_visits(k)[i] by {
                        assert(old_tree.child_ok(*game, *root, k, i));
                        assert(self.kids(k)[i] == old_tree.kids(k)[i]);
                        let c = old_tree.kids(k)[i] as int;
                        assert(self.data(c) == old_tree.data(c));
                    }
                    if k == j {
                        assert(self.kid_visits(k).drop_last() =~= old_tree.kid_visits(k));
                        assert(self.kid_visits(k).last() == 0);
                    } else {
                        assert(self.kid_visits(k) =~= old_tree.kid_visits(k));
                    }
                } else {
                    assert(self.kid_visits(k) =~= Seq::<u64>::empty());
                }
            }
        }
        assert(arena_live(self.arena, self.size()));
        assert(self.parent(1) is None);
        assert forall|k: int| 2 <= k <= self.size() implies (#[trigger] self.parent(k)) is Some && 1 <= self.parent(k)->0 < k by {
            if k < self.size() {
                assert(old_tree.parent(k) == self.parent(k));
            }
        }
        assert forall|k: int| #![trigger self.parent(k)] 2 <= k <= self.size() implies self.kids(
            self.parent(k)->0 as int,
        ).contains(k as usize) by {
            if k < self.size() {
                assert(old_tree.parent(k) == self.parent(k));
                let p = self.parent(k)->0 as int;
                assert(old_tree.kids(p).contains(k as usize));
                let i = choose|i: int| 0 <= i < old_tree.kids(p).len() && old_tree.kids(p)[i] == k as usize;
                assert(self.kids(p)[i] == k as usize);
            } else {
                assert(self.kids(j as int)[self.kids(j as int).len() - 1] == k as usize);
            }
        }
        assert forall|k: int| 1 <= k <= self.size() implies #[trigger] self.kids_ok(*game, *root, k) by {
            assert forall|i: int| 1 <= i <= old_tree.size() implies self.state(*root, i) == old_tree.state(*root, i) by {
            }
            if k <= old_tree.size() {
                assert(old_tree.kids_ok(*game, *root, k));
                assert forall|mm: int| 0 <= mm < self.kids(k).len() implies #[trigger] self.child_ok(*game, *root, k, mm) by {
                    if k != j || mm < m {
                        assert(old_tree.child_ok(*game, *root, k, mm));
                    }
                }
            }
        }
        r
    }

    /// Adds one playout that ended in `result` to node `leaf` and to each node
    /// above it, crediting each with `credit(result, its side to move)`.
    pub fn backpropagate(&mut self, game: &G, root: &G::State, leaf: usize, result: GameStatus)
        requires
            old(self).wf(*game, *root),
            1 <= leaf <= old(self).size(),
            forall|k: int|
                1 <= k <= old(self).size() ==> (#[trigger] old(self).data(k)).playouts < u64::MAX
                    && old(self).data(k).half_wins <= u64::MAX - 2,
        ensures
            final(self).wf(*game, *root),
            final(self).size() == old(self).size(),
            forall|k: int|
                1 <= k <= old(self).size() ==> #[trigger] final(self).data(k) == if old(self).on_path(
                    leaf as int,
                    k,
                ) {
                    bumped(old(self).data(k), result, game.player_of(old(self).state(*root, k)))
                } else {
                    old(self).data(k)
                },
            forall|k: int| 1 <= k <= old(self).size() ==> #[trigger] final(self).parent(k) == old(self).parent(k),
            forall|k: int| 1 <= k <= old(self).size() ==> #[trigger] final(self).kids(k) == old(self).kids(k),
            forall|k: int|
                1 <= k <= old(self).size() ==> #[trigger] final(self).state(*root, k) == old(self).state(*root, k),
    {
        let ghost old_tree = *self;
        let ends: Ghost<Seq<nat>> = Ghost(self.ends@.update(leaf - 1, self.ends@[leaf - 1] + 1));
        self.ends = ends;
        let mut cur: usize = leaf;
        let mut done = false;
        while !done
            invariant
                old_tree.wf(*game, *root),
                1 <= leaf <= old_tree.size(),
                1 <= cur <= old_tree.size(),
                old_tree.on_path(leaf as int, cur as int),
                self.states == old_tree.states,
                self.ends@ == old_tree.ends@.update(leaf - 1, old_tree.ends@[leaf - 1] + 1),
                arena_live(self.arena, old_tree.size()),
                arena_parents(self.arena) == arena_parents(old_tree.arena),
                arena_children(self.arena) == arena_children(old_tree.arena),
                forall|k: int|
                    1 <= k <= old_tree.size() ==> (#[trigger] old_tree.data(k)).playouts < u64::MAX
                        && old_tree.data(k).half_wins <= u64::MAX - 2,
                forall|k: int|
                    1 <= k <= old_tree.size() ==> #[trigger] self.data(k) == if old_tree.on_path(
                        leaf as int,
                        k,
                    ) && (done || !old_tree.on_path(cur as int, k)) {
                        bumped(old_tree.data(k), result, game.player_of(old_tree.state(*root, k)))
                    } else {
                        old_tree.data(k)
                    },
            decreases (if done {
                0
            } else {
                cur + 1
            }),
        {
            let d = arena_data(&self.arena, cur);
            let mover = game.player(self.node_state(root, cur));
            let gain: u64 = match result {
                GameStatus::Draw => 1,
                GameStatus::Player1Win => if mover == Player::Player2 {
                    2
                } else {
                    0
                },
                GameStatus::Player2Win => if mover == Player::Player1 {
                    2
                } else {
                    0
                },
                GameStatus::InProgress => 0,
            };
            proof {
                assert(self.data(cur as int) == old_tree.data(cur as int));
                assert(old_tree.data(cur as int).playouts < u64::MAX);
            }
            let nd = NodeData { action: d.action, playouts: d.playouts + 1, half_wins: d.half_wins + gain };
            let ghost before = *self;
            arena_set_data(&mut self.arena, cur, nd);
            proof {
                assert(gain == credit(result, game.player_of(old_tree.state(*root, cur as int))));
                assert(self.data(cur as int) == bumped(old_tree.data(cur as int), result, game.player_of(old_tree.state(*root, cur as int))));
                assert forall|k: int| 1 <= k <= old_tree.size() && k != cur implies #[trigger] self.data(k) == before.data(k) by {
                }
            }
            let up = arena_parent_of(&self.arena, cur);
            match up {
                Some(p) => {
                    proof {
                        old_tree.lemma_path_step(leaf as int, cur as int);
                        assert forall|k: int| 1 <= k <= old_tree.size() && k != cur implies
                            old_tree.on_path(cur as int, k) == old_tree.on_path(p as int, k) by {
                        }
                        assert(!old_tree.on_path(p as int, cur as int)) by {
                            if old_tree.on_path(p as int, cur as int) {
                                old_tree.lemma_path_below(p as int, cur as int);
                            }
                        }
                    }
                    cur = p;
                },
                None => {
                    proof {
                        assert(cur == 1);
                        assert forall|k: int| 1 <= k <= old_tree.size() && k != cur implies
                            !old_tree.on_path(cur as int, k) by {
                        }
                    }
                    done = true;
                },
            }
        }
        assert(arena_live(self.arena, self.size()));
        assert(self.parent(1) is None);
        assert forall|k: int| 2 <= k <= self.size() implies (#[trigger] self.parent(k)) is Some && 1 <= self.parent(k)->0 < k
            && self.kids(self.parent(k)->0 as int).contains(k as usize) by {
            assert(old_tree.parent(k) == self.parent(k));
        }
        assert forall|k: int| 1 <= k <= self.size() implies #[trigger] self.kids_ok(*game, *root, k) by {
            assert(old_tree.kids_ok(*game, *root, k));
            assert forall|mm: int| 0 <= mm < self.kids(k).len() implies #[trigger] self.child_ok(*game, *root, k, mm) by {
                assert(old_tree.child_ok(*game, *root, k, mm));
                let c = self.kids(k)[mm] as int;
                assert(self.data(c).action == old_tree.data(c).action);
            }
        }
        proof {
            let lf = leaf as int;
            assert forall|c: int| 1 <= c <= old_tree.size() && !old_tree.on_path(lf, c) implies #[trigger] self.data(c)
                == old_tree.data(c) by {
                assert(self.data(c) == self.data(c));
            }
            assert forall|c: int| 1 <= c <= old_tree.size() && old_tree.on_path(lf, c) implies (#[trigger] self.data(c)).playouts
                == old_tree.data(c).playouts + 1 by {
            }
            old_tree.lemma_backpropagate_conserved(*game, *root, *self, lf);
        }
    }

    proof fn lemma_backpropagate_conserved(&self, game: G, root: G::State, after: Self, lf: int)
        requires
            self.wf(game, root),
            1 <= lf <= self.size(),
            after.size() == self.size(),
            after.ends@ == self.ends@.update(lf - 1, self.ends@[lf - 1] + 1),
            forall|k: int| 1 <= k <= self.size() ==> #[trigger] after.kids(k) == self.kids(k),
            forall|c: int|
                1 <= c <= self.size() && !self.on_path(lf, c) ==> #[trigger] after.data(c) == self.data(c),
            forall|c: int|
                1 <= c <= self.size() && self.on_path(lf, c) ==> (#[trigger] after.data(c)).playouts
                    == self.data(c).playouts + 1,
        ensures
            after.conserved(),
    {
            assert forall|k: int| 1 <= k <= after.size() implies (#[trigger] after.data(k)).playouts == after.ended(k)
                + visit_sum(after.kid_visits(k)) by {
                assert(self.data(k).playouts == self.ended(k) + visit_sum(self.kid_visits(k)));
                assert(self.kids_ok(game, root, k));
                let ov = self.kid_visits(k);
                let nv = after.kid_visits(k);
                assert(after.kids(k) == self.kids(k));
                if self.on_path(lf, k) && k != lf {
                    self.lemma_kid_on_path(game, root, lf, k);
                    let i = choose|i: int| 0 <= i < self.kids(k).len() && self.on_path(lf, #[trigger] self.kids(k)[i] as int);
                    assert(self.child_ok(game, root, k, i));
                    let ci = self.kids(k)[i] as int;
                    assert forall|jj: int| 0 <= jj < ov.len() && jj != i implies nv[jj] == ov[jj] by {
                        assert(self.child_ok(game, root, k, jj));
                        let c = self.kids(k)[jj] as int;
                        if self.on_path(lf, c) {
                            self.lemma_one_kid_on_path(game, root, lf, k, c, ci);
                            assert(self.kids(k).len() <= usize::MAX);
                            assert(jj as usize != i as usize);
                            assert(self.data(c).action == Some(jj as usize));
                            assert(self.data(ci).action == Some(i as usize));
                            assert(false);
                        }
                        assert(!self.on_path(lf, c));
                        assert(1 <= c <= self.size());
                        assert(after.data(c) == self.data(c));
                    }
                    assert(after.data(ci).playouts == self.data(ci).playouts + 1);
                    lemma_visit_sum_bump(ov, nv, i);
                } else {
                    assert forall|jj: int| 0 <= jj < ov.len() implies nv[jj] == ov[jj] by {
                        assert(self.child_ok(game, root, k, jj));
                        let c = self.kids(k)[jj] as int;
                        if self.on_path(lf, c) {
                            if k == lf {
                                self.lemma_path_below(lf, c);
                            } else {
                                self.lemma_path_step(lf, c);
                            }
                        }
                        assert(after.data(c) == self.data(c));
                    }
                    assert(nv =~= ov);
                }
            }
    }

    /// Node `k` is running and has a child for each of its moves.
    pub open spec fn full_and_running(&self, game: G, root: G::State, k: int) -> bool {
        &&& game.status_of(self.state(root, k)) == GameStatus::InProgress
        &&& self.kids(k).len() == game.actions_of(self.state(root, k)).len()
    }

    /// Node `j` is where a walk down from the root stops: every node above it
    /// is running with a child for each of its moves, and `j` itself is over
    /// or has a move without a child.
    pub open spec fn descent_stop(&self, game: G, root: G::State, j: int) -> bool {
        &&& 1 <= j <= self.size()
        &&& forall|k: int|
            #![trigger self.on_path(j, k)]
            self.on_path(j, k) && k != j ==> self.full_and_running(game, root, k)
        &&& !self.full_and_running(game, root, j)
    }

    /// Walks down from the root, through nodes whose moves all have children,
    /// to a node that is over or has a move without a child; at each step it
    /// goes to the child that `policy` ranks first, the oldest among equals.
    fn descend<P: SelectionPolicy>(&self, game: &G, root: &G::State, policy: &P) -> (r: usize)
        requires
            self.wf(*game, *root),
        ensures
            1 <= r <= self.size(),
            self.descent_stop(*game, *root, r as int),
            game.status_of(self.state(*root, r as int)) != GameStatus::InProgress || self.kids(
                r as int,
            ).len() < game.actions_of(self.state(*root, r as int)).len(),
            game.status_of(*root) != GameStatus::InProgress || self.kids(1).len() < game.actions_of(
                *root,
            ).len() ==> r == 1,
    {
        let mut cur: usize = 1;
        loop
            invariant
                self.wf(*game, *root),
                1 <= cur <= self.size(),
                cur != 1 ==> game.status_of(*root) == GameStatus::InProgress && self.kids(1).len()
                    == game.actions_of(*root).len(),
                forall|k: int|
                    #![trigger self.on_path(cur as int, k)]
                    self.on_path(cur as int, k) && k != cur ==> self.full_and_running(*game, *root, k),
            decreases self.size() - cur,
        {
            let st = self.node_state(root, cur);
            if game.status(st) != GameStatus::InProgress {
                return cur;
            }
            let n_actions = game.actions(st).len();
            let kids = arena_children_of(&self.arena, cur);
            assert(self.kids_ok(*game, *root, cur as int));
            if kids.len() < n_actions {
                return cur;
            }
            let parent = arena_data(&self.arena, cur);
            assert(self.child_ok(*game, *root, cur as int, 0));
            let mut best = kids[0];
            let mut best_m: usize = 0;
            let mut i: usize = 1;
            while i < kids.len()
                invariant
                    self.wf(*game, *root),
                    1 <= cur <= self.size(),
                    kids@ == self.kids(cur as int),
                    1 <= i <= kids@.len(),
                    best_m < i,
                    best == kids@[best_m as int],
                    cur < best <= self.size(),
                decreases kids@.len() - i,
            {
                let cand = kids[i];
                assert(self.kids_ok(*game, *root, cur as int));
                assert(self.child_ok(*game, *root, cur as int, i as int));
                if policy.prefers(parent.playouts, arena_data(&self.arena, cand), arena_data(&self.arena, best)) {
                    best = cand;
                    best_m = i;
                }
                i = i + 1;
            }
            proof {
                assert(self.kids_ok(*game, *root, cur as int));
                assert(self.child_ok(*game, *root, cur as int, best_m as int));
                assert(self.full_and_running(*game, *root, cur as int));
                assert forall|k: int| #![trigger self.on_path(best as int, k)]
                    self.on_path(best as int, k) && k != best implies self.full_and_running(*game, *root, k) by {
                    assert(self.on_path(cur as int, k));
                }
            }
            cur = best;
        }
    }

    /// Walks down from the root as `descend` does and, where it stops at a
    /// running position, adds the child for its first move without one and
    /// returns that child.
    pub fn select_leaf<P: SelectionPolicy>(&mut self, game: &G, root: &G::State, policy: &P) -> (r: usize)
        requires
            old(self).wf(*game, *root),
            old(self).size() + 1 < usize::MAX,
        ensures
            final(self).wf(*game, *root),
            1 <= r <= final(self).size(),
            final(self).size() == old(self).size() || (final(self).size() == old(self).size() + 1
                && r == final(self).size() && final(self).data(r as int).playouts == 0
                && final(self).data(r as int).half_wins == 0),
            forall|k: int|
                1 <= k <= old(self).size() ==> #[trigger] final(self).data(k) == old(self).data(k),
            final(self).kids(1).len() == if game.status_of(*root) == GameStatus::InProgress
                && old(self).kids(1).len() < game.actions_of(*root).len() {
                old(self).kids(1).len() + 1
            } else {
                old(self).kids(1).len() + 0
            },
            final(self).kids(1) == old(self).kids(1) || (final(self).kids(1) == old(self).kids(1).push(r)
                && final(self).size() == old(self).size() + 1),
            game.status_of(*root) == GameStatus::InProgress ==> r != 1,
            ({
                let grew = final(self).size() == old(self).size() + 1;
                let j = if grew {
                    final(self).parent(r as int)->0 as int
                } else {
                    r as int
                };
                &&& old(self).descent_stop(*game, *root, j)
                &&& grew == (game.status_of(old(self).state(*root, j)) == GameStatus::InProgress)
                &&& grew ==> r == final(self).size() && final(self).kids(j) == old(self).kids(j).push(r)
                &&& !grew ==> *final(self) == *old(self)
            }),
    {
        let j = self.descend(game, root, policy);
        let ghost old_tree = *self;
        let st = self.node_state(root, j);
        if game.status(st) == GameStatus::InProgress {
            let r = self.expand(game, root, j);
            assert(self.data(1) == old_tree.data(1));
            r
        } else {
            j
        }
    }

    /// Runs `iterations` rounds of selection, expansion, random playout and
    /// backpropagation from `root`.
    pub fn search<P: SelectionPolicy>(game: &G, root: &G::State, policy: &P, iterations: u32) -> (r: Self)
        requires
            iterations + 2 < usize::MAX,
        ensures
            r.searched(*game, *root, iterations),
            r.size() <= iterations + 1,
    {
        let mut tree = SearchTree::new(game, root);
        let mut t: u32 = 0;
        while t < iterations
            invariant
                t <= iterations,
                iterations + 2 < usize::MAX,
                tree.wf(*game, *root),
                tree.size() <= t + 1,
                forall|k: int|
                    1 <= k <= tree.size() ==> (#[trigger] tree.data(k)).playouts <= t
                        && tree.data(k).half_wins <= 2 * tree.data(k).playouts && (t >= 1
                        ==> tree.data(k).playouts >= 1),
                tree.data(1).playouts == t,
                game.status_of(*root) == GameStatus::InProgress ==> visit_sum(tree.root_visits()) == t,
                game.status_of(*root) == GameStatus::InProgress ==> tree.kids(1).len() == if t
                    < game.actions_of(*root).len() {
                    t as int
                } else {
                    game.actions_of(*root).len() as int
                },
            decreases iterations - t,
        {
            let ghost before = tree;
            let leaf = tree.select_leaf(game, root, policy);
            let ghost mid = tree;
            let result = playout(game, tree.node_state(root, leaf));
            tree.backpropagate(game, root, leaf, result);
            proof {
                assert(tree.kids(1) == mid.kids(1));
                assert(mid.data(1) == before.data(1));
                mid.lemma_path_reaches_root(*game, *root, leaf as int);
                assert(tree.data(1).playouts == t + 1);
                if game.status_of(*root) == GameStatus::InProgress {
                    let bv = before.root_visits();
                    let mv = mid.root_visits();
                    let tv = tree.root_visits();
                    if mid.kids(1) == before.kids(1) {
                        assert forall|j: int| 0 <= j < mv.len() implies mv[j] == bv[j] by {
                            assert(before.kids_ok(*game, *root, 1));
                            assert(before.child_ok(*game, *root, 1, j));
                            assert(mid.data(before.kids(1)[j] as int) == before.data(before.kids(1)[j] as int));
                        }
                        assert(mv =~= bv);
                    } else {
                        assert forall|j: int| 0 <= j < bv.len() implies mv[j] == bv[j] by {
                            assert(before.kids_ok(*game, *root, 1));
                            assert(before.child_ok(*game, *root, 1, j));
                            assert(mid.kids(1)[j] == before.kids(1)[j]);
                            assert(mid.data(before.kids(1)[j] as int) == before.data(before.kids(1)[j] as int));
                        }
                        assert(mv.drop_last() =~= bv);
                        assert(mid.kids(1).last() == leaf);
                        assert(mv.last() == 0);
                    }
                    assert(visit_sum(mv) == t);
                    mid.lemma_root_kid_on_path(*game, *root, leaf as int);
                    let i = choose|i: int| 0 <= i < mid.kids(1).len() && mid.on_path(leaf as int, #[trigger] mid.kids(1)[i] as int);
                    assert(mid.kids_ok(*game, *root, 1));
                    assert(mid.child_ok(*game, *root, 1, i));
                    assert forall|j: int| 0 <= j < mv.len() && j != i implies tv[j] == mv[j] by {
                        assert(mid.child_ok(*game, *root, 1, j));
                        let c = mid.kids(1)[j] as int;
                        if mid.on_path(leaf as int, c) {
                            mid.lemma_one_root_kid_on_path(*game, *root, leaf as int, c, mid.kids(1)[i] as int);
                            assert(false);
                        }
                        assert(tree.data(c) == mid.data(c));
                    }
                    let ci = mid.kids(1)[i] as int;
                    assert(tree.data(ci).playouts == mid.data(ci).playouts + 1);
                    lemma_visit_sum_bump(mv, tv, i);
                }
                assert forall|k: int| 1 <= k <= tree.size() implies (#[trigger] tree.data(k)).playouts <= t + 1
                    && tree.data(k).half_wins <= 2 * tree.data(k).playouts && tree.data(k).playouts >= 1 by {
                    if k <= before.size() {
                        assert(mid.data(k) == before.data(k));
                    }
                    if !mid.on_path(leaf as int, k) {
                        assert(k != leaf);
                        assert(k <= before.size());
                        assert(k != 1);
                    }
                }
            }
            t = t + 1;
        }
        tree
    }

    /// The position, among the children of the root, of the first most
    /// visited one.
    pub fn most_visited(&self, game: &G, root: &G::State) -> (m: usize)
        requires
            self.wf(*game, *root),
            self.kids(1).len() > 0,
        ensures
            m == first_most(self.root_visits(), self.kids(1).len()),
            m < self.kids(1).len(),
            forall|i: int|
                0 <= i < self.kids(1).len() ==> self.data(self.kids(1)[i] as int).playouts <= self.data(
                    self.kids(1)[m as int] as int,
                ).playouts,
    {
        let kids = arena_children_of(&self.arena, 1);
        let ghost visits = self.root_visits();
        assert(self.kids_ok(*game, *root, 1));
        assert(self.child_ok(*game, *root, 1, 0));
        let mut best_m: usize = 0;
        let mut best_playouts = arena_data(&self.arena, kids[0]).playouts;
        let mut i: usize = 1;
        while i < kids.len()
            invariant
                self.wf(*game, *root),
                kids@ == self.kids(1),
                visits == self.root_visits(),
                1 <= i <= kids@.len(),
                best_m == first_most(visits, i as nat),
                best_m < i,
                best_playouts == visits[best_m as int],
                forall|j: int| 0 <= j < i ==> visits[j] <= best_playouts,
            decreases kids@.len() - i,
        {
            assert(self.kids_ok(*game, *root, 1));
            assert(self.child_ok(*game, *root, 1, i as int));
            let p = arena_data(&self.arena, kids[i]).playouts;
            if p > best_playouts {
                best_m = i;
                best_playouts = p;
            }
            i = i + 1;
        }
        assert forall|j: int| 0 <= j < kids@.len() implies self.data(self.kids(1)[j] as int).playouts <= self.data(
            self.kids(1)[best_m as int] as int).playouts by {
            assert(visits[j] <= best_playouts);
        }
        best_m
    }

    /// What a search of `iterations` rounds leaves: a well-formed tree whose
    /// root has one playout per round, where the playouts through each node
    /// are those that ended there plus those of its children, where each node
    /// has at most as many
    /// playouts as rounds, at least one once a round was run, and at most two
    /// half points per playout, and where a running root has a child for each
    /// of its moves, up to one per round.
    pub open spec fn searched(&self, game: G, root: G::State, iterations: u32) -> bool {
        &&& self.wf(game, root)
        &&& self.data(1).playouts == iterations
        &&& self.conserved()
        &&& game.status_of(root) == GameStatus::InProgress ==> visit_sum(self.root_visits()) == iterations
        &&& forall|k: int|
            1 <= k <= self.size() ==> {
                &&& (#[trigger] self.data(k)).playouts <= iterations
                &&& self.data(k).half_wins <= 2 * self.data(k).playouts
                &&& iterations >= 1 ==> self.data(k).playouts >= 1
            }
        &&& game.status_of(root) == GameStatus::InProgress ==> self.kids(1).len() == if iterations
            < game.actions_of(root).len() {
            iterations as int
        } else {
            game.actions_of(root).len() as int
        }
    }

    /// The position among the root's children of the first most visited one,
    /// which is also the index of its move among the root's moves.
    pub open spec fn chosen_index(&self) -> nat {
        first_most(self.root_visits(), self.kids(1).len())
    }

    /// The move of the first most visited child of the root.
    pub fn most_visited_action(&self, game: &G, root: &G::State, actions: Vec<G::Action>) -> (r: G::Action)
        requires
            self.wf(*game, *root),
            self.kids(1).len() > 0,
            actions@ == game.actions_of(*root),
        ensures
            self.chosen_index() < self.kids(1).len(),
            r == game.actions_of(*root)[self.chosen_index() as int],
            forall|i: int|
                0 <= i < self.kids(1).len() ==> self.data((#[trigger] self.kids(1)[i]) as int).playouts <= self.data(
                    self.kids(1)[self.chosen_index() as int] as int,
                ).playouts,
    {
        let mut actions = actions;
        let m = self.most_visited(game, root);
        let kids = arena_children_of(&self.arena, 1);
        assert(self.kids_ok(*game, *root, 1));
        assert(self.child_ok(*game, *root, 1, m as int));
        let d = arena_data(&self.arena, kids[m]);
        let a = d.action.unwrap();
        let ghost all = actions@;
        let r = actions.remove(a);
        assert(all[a as int] == r);
        r
    }

    /// `r` is the move of the first most visited child of the root; that child
    /// has been visited, and at least as often as the root's children on
    /// average.
    pub open spec fn picks(&self, game: G, root: G::State, r: G::Action) -> bool {
        let m = self.chosen_index() as int;
        &&& m < self.kids(1).len()
        &&& r == game.actions_of(root)[m]
        &&& self.data(self.kids(1)[m] as int).playouts >= 1
        &&& self.data(self.kids(1)[m] as int).playouts * self.kids(1).len() >= visit_sum(self.root_visits())
        &&& forall|i: int|
            0 <= i < self.kids(1).len() ==> self.data((#[trigger] self.kids(1)[i]) as int).playouts <= self.data(
                self.kids(1)[m] as int,
            ).playouts
    }

    /// The playout counts of the children of the root, oldest child first.
    pub open spec fn root_visits(&self) -> Seq<u64> {
        self.kids(1).map_values(|c: usize| self.data(c as int).playouts)
    }

    /// The number of nodes.
    pub fn node_count(&self, game: &G, root: &G::State) -> (r: usize)
        requires
            self.wf(*game, *root),
        ensures
            r == self.size(),
    {
        self.states.len() + 1
    }

    /// The statistics of node `k`.
    pub fn stats(&self, game: &G, root: &G::State, k: usize) -> (r: NodeData)
        requires
            self.wf(*game, *root),
            1 <= k <= self.size(),
        ensures
            r == self.data(k as int),
    {
        arena_data(&self.arena, k)
    }

    /// The children of node `k`, oldest first.
    pub fn children(&self, game: &G, root: &G::State, k: usize) -> (r: Vec<usize>)
        requires
            self.wf(*game, *root),
            1 <= k <= self.size(),
        ensures
            r@ == self.kids(k as int),
    {
        arena_children_of(&self.arena, k)
    }

    /// A tree that holds the root alone, with no statistics yet.
    pub fn new(game: &G, root: &G::State) -> (r: Self)
        ensures
            r.wf(*game, *root),
            r.size() == 1,
            r.data(1) == (NodeData { action: None, playouts: 0, half_wins: 0 }),
            r.kids(1).len() == 0,
    {
        let mut arena = arena_new();
        let i = arena_add(&mut arena, NodeData { action: None, playouts: 0, half_wins: 0 });
        let ends: Ghost<Seq<nat>> = Ghost(Seq::<nat>::empty().push(0nat));
        let r = SearchTree { arena, states: Vec::new(), ends };
        assert(r.kid_visits(1) =~= Seq::<u64>::empty());
        assert(r.kids_ok(*game, *root, 1));
        r
    }
}

/// The sum of `s`.
pub open spec fn visit_sum(s: Seq<u64>) -> int
    decreases s.len(),
{
    if s.len() == 0 {
        0
    } else {
        visit_sum(s.drop_last()) + s.last()
    }
}

proof fn lemma_visit_sum_bump(a: Seq<u64>, b: Seq<u64>, i: int)
    requires
        a.len() == b.len(),
        0 <= i < a.len(),
        b[i] == a[i] + 1,
        forall|j: int| 0 <= j < a.len() && j != i ==> b[j] == a[j],
    ensures
        visit_sum(b) == visit_sum(a) + 1,
    decreases a.len(),
{
    if i < a.len() - 1 {
        lemma_visit_sum_bump(a.drop_last(), b.drop_last(), i);
    } else {
        assert(a.drop_last() =~= b.drop_last());
    }
}

proof fn lemma_visit_sum_bound(s: Seq<u64>, m: int)
    requires
        forall|j: int| 0 <= j < s.len() ==> s[j] <= m,
    ensures
        visit_sum(s) <= m * s.len(),
    decreases s.len(),
{
    if s.len() > 0 {
        lemma_visit_sum_bound(s.drop_last(), m);
        assert(m * s.len() == m * (s.len() - 1) + m) by (nonlinear_arith);
    }
}

/// The index of the first greatest value among the first `n` of `s`.
pub open spec fn first_most(s: Seq<u64>, n: nat) -> nat
    decreases n,
{
    if n <= 1 {
        0
    } else {
        let j = first_most(s, (n - 1) as nat);
        if s[n - 1] > s[j as int] {
            (n - 1) as nat
        } else {
            j
        }
    }
}

/// The rule by which the search walks down a tree: among the children of a
/// node whose moves all have children, which one to visit next.
pub trait SelectionPolicy {
    /// Whether `candidate` ranks strictly before `incumbent`, both being
    /// children of a node with `parent_playouts` playouts.
    fn prefers(&self, parent_playouts: u64, candidate: NodeData, incumbent: NodeData) -> bool;
}

/// Plays uniformly random moves from `state` until the game is over, and
/// returns how it ended.
pub fn playout<G: Game>(game: &G, state: &G::State) -> (r: GameStatus)
    ensures
        r != GameStatus::InProgress,
        game.status_of(*state) != GameStatus::InProgress ==> r == game.status_of(*state),
        exists|moves: Seq<int>|
            legal_walk(*game, *state, moves) && game.status_of(#[trigger] walk_end(*game, *state, moves)) == r,
{
    let ghost mut moves: Seq<int> = Seq::empty();
    let st = game.status(state);
    if st != GameStatus::InProgress {
        assert(walk_end(*game, *state, moves) == *state);
        return st;
    }
    let actions = game.actions(state);
    let i = random_index(actions.len());
    assert(actions@.contains(actions@[i as int]));
    let mut cur = game.play(&actions[i], state);
    proof {
        assert(walk_end(*game, *state, moves) == *state);
        assert(legal_walk(*game, *state, moves));
        let m2 = moves.push(i as int);
        assert(m2.drop_last() =~= moves);
        assert(legal_walk(*game, *state, m2));
        moves = m2;
    }
    while game.status(&cur) == GameStatus::InProgress
        invariant
            legal_walk(*game, *state, moves),
            walk_end(*game, *state, moves) == cur,
        decreases game.moves_left(cur),
    {
        let actions = game.actions(&cur);
        let i = random_index(actions.len());
        assert(actions@.contains(actions@[i as int]));
        cur = game.play(&actions[i], &cur);
        proof {
            let m2 = moves.push(i as int);
            assert(m2.drop_last() =~= moves);
            moves = m2;
        }
    }
    game.status(&cur)
}

/// The number of search rounds that one move is given.
pub const PLAYOUT_BUDGET: u32 = 100;

/// Monte-Carlo tree search: grows a tree from the position by rounds of
/// selection, expansion, random playout and backpropagation, and plays the
/// move of the most visited child of the root.
pub struct MCTSStrategy<P> {
    pub policy: P,
}

impl<P> MCTSStrategy<P> {
    /// Searches `state` for `PLAYOUT_BUDGET` rounds and returns the move of
    /// the first most visited child of the root.
    pub fn best_action<G: Game>(&self, game: &G, state: &G::State) -> (r: G::Action) where
        P: SelectionPolicy,
        requires
            game.status_of(*state) == GameStatus::InProgress,
        ensures
            game.actions_of(*state).contains(r),
            exists|t: SearchTree<G>| #[trigger] t.searched(*game, *state, PLAYOUT_BUDGET) && t.picks(*game, *state, r),
    {
        let actions = game.actions(state);
        let tree = SearchTree::search(game, state, &self.policy, PLAYOUT_BUDGET);
        let r = tree.most_visited_action(game, state, actions);
        assert(game.actions_of(*state).contains(r));
        assert(tree.kids_ok(*game, *state, 1));
        assert(tree.child_ok(*game, *state, 1, tree.chosen_index() as int));
        proof {
            let m = tree.chosen_index() as int;
            let v = tree.root_visits();
            let top = tree.data(tree.kids(1)[m] as int).playouts as int;
            assert forall|j: int| 0 <= j < v.len() implies v[j] <= top by {
                assert(tree.kids(1)[j] == tree.kids(1)[j]);
            }
            lemma_visit_sum_bound(v, top);
        }
        assert(tree.picks(*game, *state, r));
        r
    }
}

impl<G: Game, P: SelectionPolicy> Strategy<G> for MCTSStrategy<P> {
    fn name(&self) -> String {
        String::from_str("MCTS")
    }

    fn select_action(&self, game: &G, state: &G::State) -> (r: G::Action)
        ensures
            exists|t: SearchTree<G>| #[trigger] t.searched(*game, *state, PLAYOUT_BUDGET) && t.picks(*game, *state, r),
    {
        self.best_action(game, state)
    }
}

} // verus!
