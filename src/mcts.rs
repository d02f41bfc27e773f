//! The search driver: select, expand, simulate and backpropagate until the
//! limit is reached.
use vstd::prelude::*;
use crate::error::SearchError;
use crate::game::Game;
use crate::outside::{draw_below, draw_below_wide, duration_at_least, duration_from_millis};
use crate::rollout::{RolloutPolicy, policy_outcome, simulate};
use crate::select::{MAX_EXPLORATION, Selection, first_max};
use crate::game::MAX_MOVES;
use crate::tree::{
    LOSS_SENTINEL, NodeModel, Q_ONE, SearchTree, ancestor, best_by_visits, child_scores, excess, gain,
    is_child_slot, total, visits_in,
};

verus! {

/// The memory that the node arena may take.
pub const MAX_NODEPOOL_MEM: usize = 2 * 1024 * 1024 * 1024;

/// The size, in bytes, that a node is budgeted.
pub const NODE_BUDGET_BYTES: usize = 32;

/// The index of the root in the arena.
pub const ROOT_IDX: usize = 0;

/// `sqrt(2)` in units of `1 / SCORE_ONE`: the default exploration factor.
pub const DEFAULT_EXP_FACTOR: u64 = 92682;

/// Whether a search stops after a wall-clock time or after a number of
/// simulations.
#[derive(Clone, Copy, Debug, PartialEq, Eq, Structural)]
pub enum Limit {
    /// A wall-clock budget in milliseconds.
    Time(u64),
    /// A number of simulations.
    Rollouts(u32),
}

/// The configuration of a search.
#[derive(Debug)]
pub struct Behaviour {
    pub debug: bool,
    pub readout: bool,
    pub log: bool,
    pub limit: Limit,
    /// The number of independent trees a caller may run on the same root and
    /// merge; `search` itself always grows a single tree and ignores it.
    pub root_parallelism_count: usize,
    pub rollout_policy: RolloutPolicy,
    /// The exploration factor of UCB1, in units of `1 / SCORE_ONE`.
    pub exp_factor: u64,
    pub training: bool,
    pub selection: Selection,
}

impl Behaviour {
    /// The configuration can be run.
    pub open spec fn runnable(&self) -> bool {
        self.rollout_policy.runnable() && self.exp_factor <= MAX_EXPLORATION
    }

    /// A copy of the configuration.
    pub fn duplicate(&self) -> (r: Self)
        ensures
            r == *self,
    {
        Behaviour {
            debug: self.debug,
            readout: self.readout,
            log: self.log,
            limit: self.limit,
            root_parallelism_count: self.root_parallelism_count,
            rollout_policy: self.rollout_policy.duplicate(),
            exp_factor: self.exp_factor,
            training: self.training,
            selection: self.selection,
        }
    }

    /// The default configuration with the rollout policy that the game prefers.
    pub fn for_game<G: MCTSExt>() -> (r: Self)
        ensures
            r.exp_factor == DEFAULT_EXP_FACTOR,
            r.selection == Selection::Puct,
            r.root_parallelism_count == 1,
            !r.training,
    {
        let mut b = Behaviour::default();
        b.rollout_policy = G::rollout_policy();
        b
    }
}

impl Default for Behaviour {
    /// Fifteen seconds per search, random rollouts, PUCT selection.
    fn default() -> (r: Self)
        ensures
            r.limit is Time,
            r.rollout_policy == RolloutPolicy::Random,
            r.exp_factor == DEFAULT_EXP_FACTOR,
            r.selection == Selection::Puct,
            r.root_parallelism_count == 1,
            r.readout,
            !r.debug && !r.log && !r.training,
    {
        Behaviour {
            debug: false,
            readout: true,
            log: false,
            limit: Limit::Time(15_000),
            root_parallelism_count: 1,
            rollout_policy: RolloutPolicy::Random,
            exp_factor: DEFAULT_EXP_FACTOR,
            training: false,
            selection: Selection::Puct,
        }
    }
}

/// What a game contributes to the configuration of a search.
pub trait MCTSExt: Game {
    /// The number of moves after which a cut-off rollout stops.
    fn rollout_cutoff_length() -> usize;

    /// The rollout policy that suits the game.
    fn rollout_policy() -> RolloutPolicy;
}

/// A player that maps a position to the position after its move.
pub trait Agent<G: Game> {
    fn transition(&mut self, state: G) -> G
        requires
            G::valid(state.model()),
    ;
}

/// The outcome of a search.
pub struct SearchResults<G> {
    /// The visits of each child of the root, in generation order.
    pub rollout_distribution: Vec<u32>,
    /// The position after the chosen move.
    pub new_node: G,
    /// The arena index of the chosen child.
    pub new_node_idx: usize,
    /// The number of simulations.
    pub rollouts: u32,
    /// The root's accumulated value, in units of `1 / VALUE_ONE` of a win.
    pub win_value: i64,
}

/// The weight of a root child with `visits` visits when a move is sampled in
/// training: seven tenths by visits, three tenths uniform, over `10 * sum * len`.
pub open spec fn sample_weight(visits: int, sum: int, len: int) -> int {
    if sum == 0 {
        1
    } else {
        7 * visits * len + 3 * sum
    }
}

/// The weights of the first `k` entries of `dist`, summed.
pub open spec fn sample_prefix(dist: Seq<u32>, sum: int, k: int) -> int
    decreases k,
{
    if k <= 0 {
        0
    } else {
        sample_prefix(dist, sum, k - 1) + sample_weight(dist[k - 1] as int, sum, dist.len() as int)
    }
}

proof fn lemma_sample_prefix_grows(dist: Seq<u32>, sum: int, a: int, b: int)
    requires
        0 <= a <= b <= dist.len(),
        sum >= 0,
    ensures
        sample_prefix(dist, sum, a) <= sample_prefix(dist, sum, b),
    decreases b - a,
{
    if a < b {
        lemma_sample_prefix_grows(dist, sum, a, b - 1);
        assert(sample_weight(dist[b - 1] as int, sum, dist.len() as int) >= 0) by (nonlinear_arith)
            requires sum >= 0, dist[b - 1] >= 0, dist.len() >= 0;
    }
}

/// The sum of the visit counts.
fn visits_total(dist: &Vec<u32>) -> (r: u64)
    requires
        dist@.len() <= crate::game::MAX_MOVES,
    ensures
        r == total(dist@),
        r <= dist@.len() * 0x1_0000_0000,
{
    let len = dist.len();
    let mut sum: u64 = 0;
    let mut k: usize = 0;
    while k < len
        invariant
            k <= len,
            len == dist@.len(),
            len <= crate::game::MAX_MOVES,
            sum == total(dist@.subrange(0, k as int)),
            sum <= k * 0x1_0000_0000,
        decreases len - k,
    {
        assert(dist@.subrange(0, k + 1).drop_last() =~= dist@.subrange(0, k as int));
        sum = sum + dist[k] as u64;
        k = k + 1;
    }
    assert(dist@.subrange(0, len as int) =~= dist@);
    sum
}

/// The index whose share of `0 .. sample_prefix(dist, total(dist), len)`
/// holds `r`: a draw `r` picks each move with probability `0.7` times its
/// share of the visits plus `0.3` over the number of moves.
pub fn sample_index(dist: &Vec<u32>, r: u128) -> (i: usize)
    requires
        1 <= dist@.len() <= crate::game::MAX_MOVES,
        r < sample_prefix(dist@, total(dist@), dist@.len() as int),
    ensures
        i < dist@.len(),
        sample_prefix(dist@, total(dist@), i as int) <= r,
        r < sample_prefix(dist@, total(dist@), i + 1),
{
    let len = dist.len();
    let sum = visits_total(dist);
    proof {
        lemma_sample_span(dist@, sum as int);
        assert(10 * sum * len <= 10 * (len * 0x1_0000_0000) * len) by (nonlinear_arith)
            requires sum <= len * 0x1_0000_0000;
        assert(10 * (len * 0x1_0000_0000) * len <= 10 * (0x1_0000 * 0x1_0000_0000) * 0x1_0000) by (nonlinear_arith)
            requires len <= 0x1_0000;
    }
    let mut acc: u128 = 0;
    let mut i: usize = 0;
    while i < len
        invariant
            i <= len,
            len == dist@.len(),
            len <= crate::game::MAX_MOVES,
            sum == total(dist@),
            sum <= len * 0x1_0000_0000,
            acc == sample_prefix(dist@, sum as int, i as int),
            acc <= r,
            r < sample_prefix(dist@, sum as int, len as int),
            sample_prefix(dist@, sum as int, len as int) <= 10 * (0x1_0000 * 0x1_0000_0000) * 0x1_0000 + 0x1_0000,
        decreases len - i,
    {
        let w: u128 = if sum == 0 {
            1
        } else {
            assert(7 * dist[i as int] * len + 3 * sum <= 7 * 0x1_0000_0000 * 0x1_0000 + 3 * 0x1_0000 * 0x1_0000_0000) by (nonlinear_arith)
                requires dist[i as int] <= u32::MAX, len <= 0x1_0000, sum <= len * 0x1_0000_0000;
            7 * dist[i] as u128 * len as u128 + 3 * sum as u128
        };
        proof {
            lemma_sample_prefix_grows(dist@, sum as int, i + 1, len as int);
            assert(w == sample_weight(dist@[i as int] as int, sum as int, len as int));
        }
        if r < acc + w {
            return i;
        }
        acc = acc + w;
        i = i + 1;
    }
    0
}

/// Node `i` is reached from its parent by its inbound edge, a legal move in
/// the parent's position, and `states` records the position it leads to.
pub open spec fn edge_ok<G: Game>(ns: Seq<NodeModel<G::Move>>, states: Seq<G::Model>, i: int) -> bool {
    match ns[i].parent {
        Some(p) => G::legal_moves(states[p]).contains(ns[i].edge) && states[i] == G::after(
            states[p],
            ns[i].edge,
        ),
        None => false,
    }
}

/// `states` gives the position of every node: the root's is `root`, every
/// other is its parent's after its inbound edge, and a node's perspective is
/// the side that moved into it.
pub open spec fn positions_ok<G: Game>(
    ns: Seq<NodeModel<G::Move>>,
    states: Seq<G::Model>,
    root: G::Model,
) -> bool {
    &&& states.len() == ns.len()
    &&& ns.len() >= 1 ==> states[0] == root
    &&& forall|i: int|
        0 <= i < ns.len() ==> G::valid(#[trigger] states[i]) && ns[i].perspective == -G::side(states[i])
    &&& forall|i: int| 0 < i < ns.len() ==> #[trigger] edge_ok::<G>(ns, states, i)
}

/// The children of every expanded node are the legal moves of its position,
/// one each, in generation order.
pub open spec fn children_ok<G: Game>(ns: Seq<NodeModel<G::Move>>, states: Seq<G::Model>, i: int) -> bool {
    ns[i].n_children > 0 ==> {
        &&& ns[i].n_children == G::legal_moves(states[i]).len()
        &&& forall|k: int|
            0 <= k < ns[i].n_children ==> #[trigger] ns[ns[i].first_child + k].edge == G::legal_moves(
                states[i],
            )[k]
    }
}

/// An expanded node has at most one visit beyond its children's, the one
/// simulation that started at it; an unexpanded node whose game goes on has
/// been visited at most once.
pub open spec fn visits_ok<G: Game>(ns: Seq<NodeModel<G::Move>>, states: Seq<G::Model>, i: int) -> bool {
    &&& ns[i].n_children > 0 ==> excess(ns, i) <= 1
    &&& ns[i].n_children == 0 && !G::over(states[i]) ==> ns[i].visits <= 1
}

/// The growth rules of the search hold at every node.
pub open spec fn growth_ok<G: Game>(ns: Seq<NodeModel<G::Move>>, states: Seq<G::Model>) -> bool {
    &&& forall|i: int| 0 <= i < ns.len() ==> #[trigger] children_ok::<G>(ns, states, i)
    &&& forall|i: int| 0 <= i < ns.len() ==> #[trigger] visits_ok::<G>(ns, states, i)
}

/// The priors of the children of node `i`.
pub open spec fn child_priors<G: Game>(ns: Seq<NodeModel<G::Move>>, states: Seq<G::Model>, i: int) -> Seq<u32> {
    Seq::new(ns[i].n_children as nat, |k: int| G::prior(states[i], ns[ns[i].first_child + k].edge))
}

/// The node that selection reaches from node `i`: while the node has
/// children, step to the child with the best score under `rule`.
pub open spec fn descend<G: Game>(
    ns: Seq<NodeModel<G::Move>>,
    states: Seq<G::Model>,
    rule: Selection,
    explore: nat,
    i: int,
) -> int
    decreases ns.len() - i,
{
    if 0 <= i < ns.len() && ns[i].n_children > 0 {
        let child = ns[i].first_child + first_max(
            child_scores(ns, i, rule, explore, child_priors::<G>(ns, states, i)),
        );
        if i < child < ns.len() {
            descend::<G>(ns, states, rule, explore, child)
        } else {
            i
        }
    } else {
        i
    }
}

/// One simulation went as the search prescribes. It passed from the root to
/// the leaf that selection reaches in the arena `old_ns`; a leaf whose game
/// goes on was expanded with one child per legal move and the simulation
/// started at one of the new children, otherwise at the leaf. The nodes from
/// that start up to the root gained one visit and their share of the outcome
/// `q`, and no other node changed. If the start position is lost for the
/// side to move at the root, `q` is that result and the start's parent holds
/// the loss sentinel; otherwise `q` is an outcome of the rollout policy.
pub open spec fn step_ok<G: Game>(
    old_ns: Seq<NodeModel<G::Move>>,
    old_st: Seq<G::Model>,
    old_marked: Set<int>,
    flags: Behaviour,
    root: G::Model,
    ns: Seq<NodeModel<G::Move>>,
    st: Seq<G::Model>,
    marked: Set<int>,
    start: int,
    q: int,
) -> bool {
    let leaf = descend::<G>(old_ns, old_st, flags.selection, flags.exp_factor as nat, 0);
    let lost = G::result(st[start]) == -G::side(root);
    let marked_parent = lost && start != 0;
    &&& 0 <= start < ns.len()
    &&& -Q_ONE <= q <= Q_ONE
    &&& forall|i: int| 0 <= i < old_ns.len() ==> #[trigger] st[i] == old_st[i]
    &&& G::over(old_st[leaf]) ==> start == leaf && ns.len() == old_ns.len()
    &&& !G::over(old_st[leaf]) ==> {
        &&& ns[start].parent == Some(leaf)
        &&& start >= old_ns.len()
        &&& ns[leaf].n_children == G::legal_moves(old_st[leaf]).len()
    }
    &&& forall|i: int|
        0 <= i < ns.len() ==> #[trigger] ns[i].visits == (if i < old_ns.len() {
            old_ns[i].visits
        } else {
            0
        }) + (if ancestor(ns, start, i) {
            1int
        } else {
            0int
        })
    &&& forall|i: int|
        0 <= i < ns.len() && !(marked_parent && ns[start].parent == Some(i)) ==> #[trigger] ns[i].value
            == (if i < old_ns.len() {
            old_ns[i].value
        } else {
            0
        }) + (if ancestor(ns, start, i) {
            gain(q, ns[i].perspective)
        } else {
            0int
        })
    &&& lost ==> q == G::result(st[start]) * Q_ONE
    &&& marked_parent ==> {
        let p = ns[start].parent->Some_0;
        &&& marked == old_marked.insert(p)
        &&& ns[p].value == LOSS_SENTINEL + gain(q, ns[p].perspective)
    }
    &&& !marked_parent ==> marked == old_marked
    &&& !lost ==> exists|end: G::Model| #[trigger] policy_outcome::<G>(flags.rollout_policy, st[start], end, q)
}

/// The search engine: a configuration, an arena and a random source.
pub struct MCTS<G: Game> {
    flags: Behaviour,
    tree: SearchTree<G::Move>,
    rng: fastrand::Rng,
    states: Ghost<Seq<G::Model>>,
}

impl<G: Game> MCTS<G> {
    pub closed spec fn spec_tree(&self) -> SearchTree<G::Move> {
        self.tree
    }

    pub closed spec fn behaviour(&self) -> Behaviour {
        self.flags
    }

    /// The positions of the nodes of the arena.
    pub closed spec fn positions(&self) -> Seq<G::Model> {
        self.states@
    }

    /// The arena has room for a root and fits the index width.
    pub open spec fn ready(&self) -> bool {
        1 <= self.spec_tree().spec_capacity() <= u32::MAX
    }

    /// An engine with a freshly seeded random source and an arena sized to the
    /// memory budget.
    pub fn new(flags: &Behaviour) -> (r: Self)
        ensures
            r.ready(),
            r.behaviour() == *flags,
    {
        MCTS {
            flags: flags.duplicate(),
            tree: SearchTree::with_capacity(MAX_NODEPOOL_MEM / NODE_BUDGET_BYTES),
            rng: fastrand::Rng::new(),
            states: Ghost(Seq::empty()),
        }
    }

    /// An engine whose random source starts from `seed`, with room for
    /// `capacity` nodes (at least one).
    pub fn with_seed(flags: &Behaviour, capacity: usize, seed: u64) -> (r: Self)
        ensures
            r.ready(),
            r.behaviour() == *flags,
            r.spec_tree().spec_capacity() == if capacity == 0 {
                1
            } else if capacity > u32::MAX {
                u32::MAX as int
            } else {
                capacity as int
            },
    {
        let capacity = if capacity == 0 { 1 } else { capacity };
        MCTS {
            flags: flags.duplicate(),
            tree: SearchTree::with_capacity(capacity),
            rng: fastrand::Rng::with_seed(seed),
            states: Ghost(Seq::empty()),
        }
    }

    /// The arena of the last search.
    pub fn tree(&self) -> (r: &SearchTree<G::Move>)
        ensures
            *r == self.spec_tree(),
    {
        &self.tree
    }

    /// Whether the search has run long enough.
    fn limit_reached(&self, start: &std::time::Instant, rollouts: u32) -> (r: bool)
        ensures
            self.behaviour().limit matches Limit::Rollouts(n) ==> r == (rollouts >= n),
    {
        match self.flags.limit {
            Limit::Time(ms) => {
                let spent = start.elapsed();
                duration_at_least(&spent, &duration_from_millis(ms))
            },
            Limit::Rollouts(n) => rollouts >= n,
        }
    }

    /// The priors of the children of node `idx`, whose position is `state`.
    fn child_weights(&self, idx: usize, state: &G) -> (r: Vec<u32>)
        requires
            self.spec_tree().wf(),
            idx < self.spec_tree().models().len(),
            G::valid(state.model()),
        ensures
            r@.len() == self.spec_tree().models()[idx as int].n_children,
            forall|k: int|
                0 <= k < r@.len() ==> #[trigger] r@[k] <= crate::game::MAX_WEIGHT,
            forall|k: int|
                0 <= k < r@.len() ==> #[trigger] r@[k] == G::prior(
                    state.model(),
                    self.spec_tree().models()[self.spec_tree().models()[idx as int].first_child + k].edge,
                ),
    {
        let ghost ns = self.tree.models();
        assert(crate::tree::links_ok(ns, idx as int));
        let node = self.tree.get(idx).unwrap();
        let range = node.children();
        let mut r: Vec<u32> = Vec::new();
        let mut c = range.start;
        while c < range.end
            invariant
                ns == self.tree.models(),
                self.tree.wf(),
                G::valid(state.model()),
                range.start <= c <= range.end,
                range.end == range.start + ns[idx as int].n_children,
                ns[idx as int].n_children > 0 ==> range.end <= ns.len(),
                r@.len() == c - range.start,
                range.start == ns[idx as int].first_child,
                forall|k: int|
                    0 <= k < r@.len() ==> #[trigger] r@[k] <= crate::game::MAX_WEIGHT,
                forall|k: int|
                    0 <= k < r@.len() ==> #[trigger] r@[k] == G::prior(
                        state.model(),
                        ns[ns[idx as int].first_child + k].edge,
                    ),
            decreases range.end - c,
        {
            let child = self.tree.get(c).unwrap();
            r.push(state.policy(child.inbound_edge()));
            c = c + 1;
        }
        r
    }

    /// The leaf that selection reaches from the root, and its position.
    fn select(&self, root: &G) -> (r: (usize, G))
        requires
            self.spec_tree().wf(),
            self.behaviour().runnable(),
            G::valid(root.model()),
            positions_ok::<G>(self.spec_tree().models(), self.positions(), root.model()),
        ensures
            r.0 == descend::<G>(
                self.spec_tree().models(),
                self.positions(),
                self.behaviour().selection,
                self.behaviour().exp_factor as nat,
                0,
            ),
            r.0 < self.spec_tree().models().len(),
            self.spec_tree().models()[r.0 as int].n_children == 0,
            r.1.model() == self.positions()[r.0 as int],
            G::valid(r.1.model()),
    {
        let ghost ns = self.tree.models();
        let ghost st = self.states@;
        let ghost rule = self.flags.selection;
        let ghost c = self.flags.exp_factor as nat;
        let mut state = root.snapshot();
        let mut idx: usize = ROOT_IDX;
        loop
            invariant
                ns == self.tree.models(),
                st == self.states@,
                rule == self.flags.selection,
                c == self.flags.exp_factor as nat,
                self.tree.wf(),
                positions_ok::<G>(ns, st, root.model()),
                state.model() == st[idx as int],
                idx < ns.len(),
                G::valid(state.model()),
                self.flags.exp_factor <= MAX_EXPLORATION,
                descend::<G>(ns, st, rule, c, 0) == descend::<G>(ns, st, rule, c, idx as int),
            ensures
                ns[idx as int].n_children == 0,
                descend::<G>(ns, st, rule, c, 0) == idx,
            decreases ns.len() - idx,
        {
            let node = self.tree.get(idx).unwrap();
            assert(crate::tree::links_ok(ns, idx as int));
            if !node.has_children() {
                break;
            }
            let weights = self.child_weights(idx, &state);
            assert(weights@ =~= child_priors::<G>(ns, st, idx as int));
            let child = self.tree.select_child(idx, self.flags.selection, self.flags.exp_factor, &weights);
            let edge = self.tree.get(child).unwrap().inbound_edge();
            proof {
                assert(crate::tree::owns(ns, idx as int, child as int));
                assert(edge_ok::<G>(ns, st, child as int));
            }
            state.push(edge);
            idx = child;
        }
        (idx, state)
    }

    /// One simulation: descend by the selection rule to a leaf, expand it
    /// unless its game is over, play out from a random new child (or from the
    /// leaf) and count the outcome along the path. Returns the node the
    /// simulation started at and its outcome.
    ///
    /// A position in which the side to move at the root has lost is not
    /// played out: its result is the outcome, and its parent is marked with
    /// the loss sentinel.
    fn select_expand_simulate_backpropagate(&mut self, root: &G) -> (r: Result<(usize, i64), SearchError>)
        requires
            old(self).spec_tree().wf(),
            old(self).ready(),
            old(self).behaviour().runnable(),
            old(self).spec_tree().spec_rollouts() < u32::MAX,
            G::valid(root.model()),
            old(self).spec_tree().models()[0].perspective == -G::side(root.model()),
            G::over(root.model()) ==> old(self).spec_tree().models()[0].n_children == 0,
            !G::over(root.model()) ==> excess(old(self).spec_tree().models(), 0) == 0,
            positions_ok::<G>(old(self).spec_tree().models(), old(self).positions(), root.model()),
            growth_ok::<G>(old(self).spec_tree().models(), old(self).positions()),
        ensures
            positions_ok::<G>(final(self).spec_tree().models(), final(self).positions(), root.model()),
            growth_ok::<G>(final(self).spec_tree().models(), final(self).positions()),
            final(self).spec_tree().arena_ok(),
            r is Err ==> final(self).spec_tree().wf(),
            final(self).ready(),
            final(self).behaviour() == old(self).behaviour(),
            final(self).spec_tree().spec_capacity() == old(self).spec_tree().spec_capacity(),
            final(self).spec_tree().models()[0].perspective == -G::side(root.model()),
            final(self).spec_tree().spec_rollouts() == old(self).spec_tree().spec_rollouts(),
            r is Ok ==> final(self).spec_tree().models()[0].visits == old(self).spec_tree().spec_rollouts() + 1,
            r is Ok ==> final(self).spec_tree().models().len() <= old(self).spec_tree().models().len()
                + G::max_branching(),
            r is Err ==> r == Err::<(usize, i64), SearchError>(SearchError::OutOfArena)
                && final(self).spec_tree() == old(self).spec_tree()
                && final(self).positions() == old(self).positions()
                && old(self).spec_tree().models().len() + G::max_branching() > old(self).spec_tree().spec_capacity(),
            G::over(root.model()) ==> r is Ok && final(self).spec_tree().models()[0].n_children == 0
                && final(self).spec_tree().models().len() == old(self).spec_tree().models().len()
                && final(self).spec_tree().models()[0].value == old(self).spec_tree().models()[0].value
                + gain(G::result(root.model()) * Q_ONE, -G::side(root.model())),
            r is Ok && !G::over(root.model()) ==> excess(final(self).spec_tree().models(), 0) == 0
                && final(self).spec_tree().models()[0].n_children > 0,
            r matches Ok((start, q)) ==> step_ok::<G>(
                old(self).spec_tree().models(),
                old(self).positions(),
                old(self).spec_tree().marked(),
                old(self).behaviour(),
                root.model(),
                final(self).spec_tree().models(),
                final(self).positions(),
                final(self).spec_tree().marked(),
                start as int,
                q as int,
            ),
    {
        let ghost old_ns = self.tree.models();
        let ghost old_st = self.states@;
        let root_turn = root.turn();
        let (idx, mut state) = self.select(root);
        let mut start = idx;
        proof {
            assert(crate::tree::links_ok(old_ns, 0));
            assert(crate::tree::links_ok(old_ns, idx as int));
            assert(visits_ok::<G>(old_ns, old_st, idx as int));
            if idx > 0 {
                crate::tree::lemma_ancestor(old_ns, 0, idx as int);
                assert(old_ns[0].n_children > 0) by {
                    if old_ns[0].n_children == 0 {
                        assert(descend::<G>(old_ns, old_st, self.flags.selection, self.flags.exp_factor as nat, 0) == 0);
                    }
                }
            }
            if G::over(root.model()) {
                assert(descend::<G>(old_ns, old_st, self.flags.selection, self.flags.exp_factor as nat, 0) == 0);
            }
        }
        if !state.is_terminal() {
            let moves = state.generate_moves();
            proof {
                G::lemma_branching(state.model());
            }
            self.tree.expand(idx, &moves)?;
            let ghost ns = self.tree.models();
            let ghost parent_state = old_st[idx as int];
            self.states = Ghost(
                old_st + Seq::new(moves@.len(), |j: int| G::after(parent_state, moves@[j])),
            );
            proof {
                let st = self.states@;
                assert(st.len() == ns.len());
                assert forall|i: int| 0 <= i < ns.len() implies G::valid(#[trigger] st[i])
                    && ns[i].perspective == -G::side(st[i]) by {
                    if i >= old_ns.len() {
                        let j = i - old_ns.len();
                        assert(moves@[j] == G::legal_moves(parent_state)[j]);
                        assert(G::legal_moves(parent_state).contains(moves@[j]));
                        G::lemma_legal_move(parent_state, moves@[j]);
                    } else {
                        assert(st[i] == old_st[i]);
                    }
                }
                assert forall|i: int| 0 < i < ns.len() implies #[trigger] edge_ok::<G>(ns, st, i) by {
                    if i >= old_ns.len() {
                        let j = i - old_ns.len();
                        assert(moves@[j] == G::legal_moves(parent_state)[j]);
                        assert(G::legal_moves(parent_state).contains(moves@[j]));
                    } else {
                        assert(edge_ok::<G>(old_ns, old_st, i));
                        assert(crate::tree::links_ok(old_ns, i));
                        assert(st[i] == old_st[i]);
                        let p = old_ns[i].parent->Some_0;
                        assert(st[p] == old_st[p]);
                    }
                }
                assert forall|i: int| 0 <= i < ns.len() implies #[trigger] children_ok::<G>(ns, st, i) by {
                    if i < old_ns.len() && i != idx {
                        assert(children_ok::<G>(old_ns, old_st, i));
                        assert(crate::tree::links_ok(old_ns, i));
                        assert(st[i] == old_st[i]);
                        assert forall|k: int| 0 <= k < ns[i].n_children implies #[trigger] ns[ns[i].first_child + k].edge
                            == G::legal_moves(st[i])[k] by {
                            assert(old_ns[old_ns[i].first_child + k].edge == G::legal_moves(old_st[i])[k]);
                        }
                    }
                }
                assert forall|i: int| 0 <= i < ns.len() implies #[trigger] visits_ok::<G>(ns, st, i) by {
                    if i < old_ns.len() {
                        assert(visits_ok::<G>(old_ns, old_st, i));
                        assert(st[i] == old_st[i]);
                    }
                }
            }
            let node = self.tree.get(idx).unwrap();
            let range = node.children();
            let pick = draw_below(&mut self.rng, moves.len());
            start = range.start + pick;
            assert(crate::tree::links_ok(ns, idx as int));
            let edge = self.tree.get(start).unwrap().inbound_edge();
            proof {
                assert(edge_ok::<G>(self.tree.models(), self.states@, start as int));
            }
            state.push(edge);
            proof {
                if idx == 0 {
                    assert(excess(ns, 0) == 0);
                    assert(ns[0].n_children > 0);
                } else {
                    assert(ns[0] == old_ns[0]);
                    assert(excess(ns, 0) == excess(old_ns, 0));
                }
            }
        }
        assert(!G::over(root.model()) ==> start > 0);
        let ghost mid = self.tree.models();
        let ghost st = self.states@;
        assert(!G::over(root.model()) ==> excess(mid, 0) == 0 && mid[0].n_children > 0);
        assert(state.model() == st[start as int]);
        let e = state.evaluate();
        let ghost mut end_state = state.model();
        let q = if e == -root_turn {
            let node = self.tree.get(start).unwrap();
            if let Some(p) = node.parent() {
                assert(crate::tree::links_ok(self.tree.models(), start as int));
                self.tree.penalise(p);
            }
            e as i64 * Q_ONE
        } else {
            let ghost before_sim = state.model();
            let q = simulate(&self.flags.rollout_policy, &mut state, &mut self.rng);
            proof {
                end_state = state.model();
            }
            q
        };
        let ghost pre = self.tree.models();
        self.tree.backpropagate(start, q);
        proof {
            let ns = self.tree.models();
            assert(crate::tree::same_shape(ns[0], mid[0]));
            assert forall|i: int| 0 <= i < ns.len() implies crate::tree::same_shape(#[trigger] ns[i], mid[i]) by {
                assert(crate::tree::same_shape(ns[i], pre[i]));
            }
            assert forall|i: int| 0 <= i < ns.len() implies G::valid(#[trigger] st[i])
                && ns[i].perspective == -G::side(st[i]) by {
                assert(crate::tree::same_shape(ns[i], mid[i]));
            }
            assert forall|i: int| 0 < i < ns.len() implies #[trigger] edge_ok::<G>(ns, st, i) by {
                assert(crate::tree::same_shape(ns[i], mid[i]));
                assert(edge_ok::<G>(mid, st, i));
            }
            assert forall|j: int| 0 <= j < pre.len() implies #[trigger] pre[j].parent == ns[j].parent by {
                assert(crate::tree::same_shape(ns[j], pre[j]));
            }
            assert forall|i: int| 0 <= i < ns.len() implies ancestor(pre, start as int, i) == ancestor(ns, start as int, i) by {
                crate::tree::lemma_ancestor_agree(pre, ns, start as int, i);
            }
            crate::tree::lemma_ancestor_agree(pre, ns, start as int, 0);
            assert forall|i: int| 0 <= i < ns.len() implies #[trigger] children_ok::<G>(ns, st, i) by {
                assert(children_ok::<G>(mid, st, i));
                assert(crate::tree::same_shape(ns[i], mid[i]));
                assert(crate::tree::links_ok(mid, i));
                if mid[i].n_children > 0 {
                    assert forall|k: int| 0 <= k < ns[i].n_children implies #[trigger] ns[ns[i].first_child + k].edge
                        == G::legal_moves(st[i])[k] by {
                        assert(mid[mid[i].first_child + k].edge == G::legal_moves(st[i])[k]);
                        assert(crate::tree::same_shape(ns[mid[i].first_child + k], mid[mid[i].first_child + k]));
                    }
                }
            }
            assert forall|i: int| 0 <= i < ns.len() implies #[trigger] visits_ok::<G>(ns, st, i) by {
                assert(visits_ok::<G>(mid, st, i));
                assert(crate::tree::same_shape(ns[i], mid[i]));
                crate::tree::lemma_ancestor(pre, start as int, i);
                assert(excess(pre, i) == excess(mid, i));
            }
            if e == -root_turn && start != 0 {
                assert(crate::tree::links_ok(pre, start as int));
                let p = pre[start as int].parent->Some_0;
                assert(ancestor(pre, p, p));
                assert(ancestor(pre, start as int, p));
                assert(ancestor(ns, start as int, p));
            }
            assert forall|i: int| 0 <= i < ns.len() implies #[trigger] ns[i].visits == (if i < old_ns.len() {
                old_ns[i].visits
            } else {
                0
            }) + (if ancestor(ns, start as int, i) {
                1int
            } else {
                0int
            }) by {
                assert(ancestor(pre, start as int, i) == ancestor(ns, start as int, i));
            }
            let lost = G::result(st[start as int]) == -G::side(root.model());
            let marked_parent = lost && start != 0;
            if !lost {
                assert(policy_outcome::<G>(self.flags.rollout_policy, st[start as int], end_state, q as int));
            }
            if marked_parent {
                let p = ns[start as int].parent->Some_0;
                assert(pre[p].value == LOSS_SENTINEL);
                assert(ancestor(pre, start as int, p));
                assert(ns[p].value == LOSS_SENTINEL + gain(q as int, ns[p].perspective));
            }
            assert forall|i: int|
                0 <= i < ns.len() && !(marked_parent && ns[start as int].parent == Some(i))
                    implies #[trigger] ns[i].value == (if i < old_ns.len() {
                    old_ns[i].value
                } else {
                    0
                }) + (if ancestor(ns, start as int, i) {
                    gain(q as int, ns[i].perspective)
                } else {
                    0int
                }) by {
                assert(ancestor(pre, start as int, i) == ancestor(ns, start as int, i));
                assert(crate::tree::same_shape(ns[i], pre[i]));
            }
            assert(step_ok::<G>(old_ns, old_st, old(self).spec_tree().marked(), self.flags, root.model(),
                ns, st, self.tree.marked(), start as int, q as int));
        }
        Ok((start, q))
    }

    /// Runs one search from `board` and reports the visits of the root's
    /// children, the chosen move and the root's value.
    pub fn search(&mut self, board: &G) -> (r: Result<SearchResults<G>, SearchError>)
        requires
            old(self).ready(),
            G::valid(board.model()),
        ensures
            final(self).ready(),
            final(self).behaviour() == old(self).behaviour(),
            !old(self).behaviour().runnable() <==> r == Err::<SearchResults<G>, SearchError>(
                SearchError::ConfigError,
            ),
            r is Err ==> r == Err::<SearchResults<G>, SearchError>(SearchError::ConfigError) || r
                == Err::<SearchResults<G>, SearchError>(SearchError::OutOfArena),
            old(self).behaviour().runnable() && (G::over(board.model()) || (old(self).behaviour().limit matches Limit::Rollouts(n)
                && 1 + n * G::max_branching() <= old(self).spec_tree().spec_capacity())) ==> r is Ok,
            r matches Ok(res) ==> {
                let t = final(self).spec_tree();
                let ns = t.models();
                &&& t.wf()
                &&& growth_ok::<G>(ns, final(self).positions())
                &&& G::over(board.model()) ==> ns.len() == 1
                &&& !G::over(board.model()) && res.rollouts > 0 ==> {
                    &&& ns[0].n_children > 0
                    &&& res.rollout_distribution@.len() == G::legal_moves(board.model()).len()
                    &&& forall|k: int|
                        0 <= k < res.rollout_distribution@.len() ==> #[trigger] ns[ns[0].first_child + k].edge
                            == G::legal_moves(board.model())[k]
                }
                &&& res.rollouts == t.spec_rollouts()
                &&& res.rollouts == ns[0].visits
                &&& res.win_value == ns[0].value
                &&& ns[0].perspective == -G::side(board.model())
                &&& res.rollout_distribution@.len() == ns[0].n_children
                &&& forall|k: int|
                    0 <= k < res.rollout_distribution@.len()
                        ==> #[trigger] res.rollout_distribution@[k] == ns[ns[0].first_child + k].visits
                &&& (old(self).behaviour().limit matches Limit::Rollouts(n) ==> res.rollouts == n)
                &&& !G::over(board.model()) ==> total(res.rollout_distribution@) == res.rollouts
                &&& G::over(board.model()) ==> {
                    &&& res.rollout_distribution@.len() == 0
                    &&& res.win_value == res.rollouts * gain(G::result(board.model()) * Q_ONE, -G::side(board.model()))
                    &&& res.new_node.model() == board.model()
                    &&& res.new_node_idx == 0
                }
                &&& res.rollout_distribution@.len() == 0 ==> res.new_node.model() == board.model() && res.new_node_idx == 0
                &&& positions_ok::<G>(ns, final(self).positions(), board.model())
                &&& res.rollout_distribution@.len() > 0 ==> {
                    &&& is_child_slot(ns[0], res.new_node_idx as int)
                    &&& G::legal_moves(board.model()).contains(ns[res.new_node_idx as int].edge)
                    &&& res.new_node.model() == G::after(board.model(), ns[res.new_node_idx as int].edge)
                    &&& !old(self).behaviour().training ==> res.new_node_idx == best_by_visits(ns, 0)
                }
            },
    {
        if !self.flags.rollout_policy.is_runnable() || self.flags.exp_factor > MAX_EXPLORATION {
            return Err(SearchError::ConfigError);
        }
        let start_time = std::time::Instant::now();
        let turn = board.turn();
        self.tree.setup(turn, G::null_move());
        self.states = Ghost(Seq::empty().push(board.model()));
        proof {
            let ns = self.tree.models();
            assert(crate::tree::links_ok(ns, 0));
            assert(children_ok::<G>(ns, self.states@, 0));
            assert(visits_ok::<G>(ns, self.states@, 0));
            assert(visits_in(ns, ns[0].first_child, ns[0].first_child + ns[0].n_children) == 0);
        }
        while self.tree.rollouts() < u32::MAX && !self.limit_reached(&start_time, self.tree.rollouts())
            invariant
                self.tree.wf(),
                self.ready(),
                self.flags == old(self).flags,
                self.flags.runnable(),
                G::valid(board.model()),
                turn == G::side(board.model()),
                self.tree.models()[0].perspective == -G::side(board.model()),
                G::over(board.model()) ==> self.tree.models()[0].n_children == 0,
                G::over(board.model()) ==> self.tree.models()[0].value == self.tree.spec_rollouts() * gain(
                    G::result(board.model()) * Q_ONE,
                    -G::side(board.model()),
                ),
                !G::over(board.model()) ==> excess(self.tree.models(), 0) == 0,
                !G::over(board.model()) && self.tree.spec_rollouts() > 0 ==> self.tree.models()[0].n_children > 0,
                self.flags.limit matches Limit::Rollouts(n) ==> self.tree.spec_rollouts() <= n,
                positions_ok::<G>(self.tree.models(), self.states@, board.model()),
                growth_ok::<G>(self.tree.models(), self.states@),
                G::over(board.model()) ==> self.tree.models().len() == 1,
                self.tree.models().len() <= 1 + self.tree.spec_rollouts() * G::max_branching(),
                self.tree.spec_capacity() == old(self).tree.spec_capacity(),
            decreases u32::MAX - self.tree.spec_rollouts(),
        {
            let ghost before = self.tree.spec_rollouts();
            proof {
                let len = self.tree.models().len();
                let cap = self.tree.spec_capacity();
                let b = G::max_branching();
                assert(len + b <= 1 + (before + 1) * b) by (nonlinear_arith)
                    requires len <= 1 + before * b;
                if let Limit::Rollouts(n) = self.flags.limit {
                    if before + 1 <= n {
                        assert(1 + (before + 1) * b <= 1 + n * b) by (nonlinear_arith)
                            requires before + 1 <= n;
                    }
                }
            }
            let _ = self.select_expand_simulate_backpropagate(board)?;
            self.tree.inc_rollouts();
            proof {
                if G::over(board.model()) {
                    assert((before + 1) * gain(G::result(board.model()) * Q_ONE, -G::side(board.model())) == before * gain(
                        G::result(board.model()) * Q_ONE,
                        -G::side(board.model()),
                    ) + gain(G::result(board.model()) * Q_ONE, -G::side(board.model()))) by (nonlinear_arith);
                }
            }
        }
        let rollout_distribution = self.tree.root_rollout_distribution();
        let root = self.tree.root();
        let win_value = root.wins();
        let rollouts = self.tree.rollouts();
        let ghost ns = self.tree.models();
        proof {
            assert(crate::tree::links_ok(ns, 0));
            assert(children_ok::<G>(ns, self.states@, 0));
        }
        if rollout_distribution.len() == 0 {
            return Ok(SearchResults {
                rollout_distribution,
                new_node: board.snapshot(),
                new_node_idx: ROOT_IDX,
                rollouts,
                win_value,
            });
        }
        let first = root.children().start;
        let new_node_idx = if self.flags.training {
            first + sample_move_index_from_rollouts(&mut self.rng, &rollout_distribution)
        } else {
            self.tree.best_child_by_visits(ROOT_IDX)
        };
        let edge = self.tree.get(new_node_idx).unwrap().inbound_edge();
        proof {
            assert(crate::tree::owns(ns, 0, new_node_idx as int));
            assert(edge_ok::<G>(ns, self.states@, new_node_idx as int));
        }
        let mut new_node = board.snapshot();
        new_node.push(edge);
        Ok(SearchResults { rollout_distribution, new_node, new_node_idx, rollouts, win_value })
    }

    /// Searches from `board` and plays the chosen move; a search that fails
    /// leaves the position as it is.
    pub fn best_next_board(&mut self, board: &G) -> (r: G)
        requires
            old(self).ready(),
            G::valid(board.model()),
        ensures
            final(self).ready(),
            r.model() == board.model() || exists|m: G::Move|
                G::legal_moves(board.model()).contains(m) && r.model() == G::after(board.model(), m),
            old(self).behaviour().runnable() && G::over(board.model()) ==> r.model() == board.model(),
            old(self).behaviour().runnable() && !G::over(board.model())
                && (old(self).behaviour().limit matches Limit::Rollouts(n) && n >= 1 && 1 + n * G::max_branching()
                <= old(self).spec_tree().spec_capacity()) ==> {
                let ns = final(self).spec_tree().models();
                exists|c: int|
                    #[trigger] is_child_slot(ns[0], c) && G::legal_moves(board.model()).contains(ns[c].edge)
                        && r.model() == G::after(board.model(), ns[c].edge)
            },
            old(self).behaviour().runnable() && !old(self).behaviour().training && !G::over(board.model())
                && (old(self).behaviour().limit matches Limit::Rollouts(n) && n >= 1 && 1 + n * G::max_branching()
                <= old(self).spec_tree().spec_capacity()) ==> {
                let ns = final(self).spec_tree().models();
                &&& G::legal_moves(board.model()).contains(ns[best_by_visits(ns, 0)].edge)
                &&& r.model() == G::after(board.model(), ns[best_by_visits(ns, 0)].edge)
            },
    {
        match self.search(board) {
            Ok(res) => {
                proof {
                    if res.rollout_distribution@.len() > 0 {
                        let ns = self.spec_tree().models();
                        assert(res.new_node.model() == G::after(board.model(), ns[res.new_node_idx as int].edge));
                        assert(is_child_slot(ns[0], res.new_node_idx as int));
                    }
                }
                res.new_node
            },
            Err(_) => board.snapshot(),
        }
    }
}

impl<G: Game> Agent<G> for MCTS<G> {
    fn transition(&mut self, state: G) -> G {
        let capacity = self.tree.capacity();
        if capacity >= 1 && capacity <= 4294967295 {
            self.best_next_board(&state)
        } else {
            state
        }
    }
}

/// Samples a root child, seven tenths by visits and three tenths uniformly,
/// with a draw from `rng`.
fn sample_move_index_from_rollouts(rng: &mut fastrand::Rng, dist: &Vec<u32>) -> (i: usize)
    requires
        1 <= dist@.len() <= crate::game::MAX_MOVES,
    ensures
        i < dist@.len(),
        sample_prefix(dist@, total(dist@), i as int) < sample_prefix(dist@, total(dist@), i + 1),
{
    let sum = visits_total(dist);
    let len = dist.len() as u128;
    proof {
        assert(10 * sum * len <= 10 * (len * 0x1_0000_0000) * len) by (nonlinear_arith)
            requires sum <= len * 0x1_0000_0000;
        assert(10 * (len * 0x1_0000_0000) * len <= 10 * (0x1_0000 * 0x1_0000_0000) * 0x1_0000) by (nonlinear_arith)
            requires len <= 0x1_0000;
        assert(sum > 0 ==> 10 * sum * len > 0) by (nonlinear_arith)
            requires len >= 1;
    }
    let span: u128 = if sum == 0 { len } else { 10 * sum as u128 * len };
    proof {
        lemma_sample_span(dist@, sum as int);
    }
    let r = draw_below_wide(rng, span);
    sample_index(dist, r)
}

proof fn lemma_sample_span(dist: Seq<u32>, sum: int)
    requires
        sum == total(dist),
        dist.len() >= 1,
    ensures
        sample_prefix(dist, sum, dist.len() as int) == if sum == 0 {
            dist.len() as int
        } else {
            10 * sum * dist.len()
        },
{
    lemma_sample_prefix_closed(dist, sum, dist.len() as int);
    assert(dist.subrange(0, dist.len() as int) =~= dist);
    if sum != 0 {
        assert(7 * dist.len() * sum + 3 * sum * dist.len() == 10 * sum * dist.len()) by (nonlinear_arith);
    }
}

proof fn lemma_sample_prefix_closed(dist: Seq<u32>, sum: int, k: int)
    requires
        0 <= k <= dist.len(),
    ensures
        sample_prefix(dist, sum, k) == if sum == 0 {
            k
        } else {
            7 * dist.len() * total(dist.subrange(0, k)) + 3 * sum * k
        },
    decreases k,
{
    if k > 0 {
        lemma_sample_prefix_closed(dist, sum, k - 1);
        assert(dist.subrange(0, k).drop_last() =~= dist.subrange(0, k - 1));
        let t = total(dist.subrange(0, k - 1));
        let v = dist[k - 1] as int;
        let l = dist.len() as int;
        if sum != 0 {
            assert(7 * l * t + 3 * sum * (k - 1) + (7 * v * l + 3 * sum) == 7 * l * (t + v) + 3 * sum * k)
                by (nonlinear_arith);
        }
    }
}

} // verus!
