//! The search arena: a flat pool of nodes linked by indices.
use vstd::prelude::*;
use crate::error::SearchError;
use crate::game::{MAX_MOVES, MAX_WEIGHT};
use crate::select::{
    Selection, MAX_EXPLORATION, first_max, puct_score, puct_value, ucb1_score, ucb1_value,
};

verus! {

/// A rollout outcome of `+1` in fixed point; outcomes lie in `[-Q_ONE, Q_ONE]`.
pub const Q_ONE: i64 = 1_000_000;

/// One won simulation in a node's value accumulator.
pub const VALUE_ONE: i64 = 2_000_000;

/// The value written into a node whose child is a proven loss, so that its
/// parent avoids it.
pub const LOSS_SENTINEL: i64 = -4_294_967_294_000_000;

/// What one simulation with outcome `q` adds to a node of perspective `p`:
/// `(q * p + 1) / 2` of a win.
pub open spec fn gain(q: int, p: int) -> int {
    q * p + Q_ONE
}

/// The mathematical content of a node.
pub struct NodeModel<M> {
    pub first_child: int,
    pub n_children: int,
    pub parent: Option<int>,
    pub value: int,
    pub visits: int,
    pub perspective: int,
    pub edge: M,
}

/// One position visited by the search.
#[derive(Debug, Clone, Copy)]
pub struct Node<M> {
    first_child: u32,
    n_children: u16,
    parent: Option<u32>,
    value: i64,
    visits: u32,
    perspective: i8,
    inbound_edge: M,
}

impl<M> View for Node<M> {
    type V = NodeModel<M>;

    closed spec fn view(&self) -> NodeModel<M> {
        NodeModel {
            first_child: self.first_child as int,
            n_children: self.n_children as int,
            parent: match self.parent {
                Some(p) => Some(p as int),
                None => None,
            },
            value: self.value as int,
            visits: self.visits as int,
            perspective: self.perspective as int,
            edge: self.inbound_edge,
        }
    }
}

impl<M: Copy> Node<M> {
    /// A fresh node entered by the side opposite to `turn`.
    pub fn new(turn: i8, parent: Option<usize>, inbound_edge: M) -> (r: Self)
        requires
            turn == 1 || turn == -1,
            parent matches Some(p) ==> p <= u32::MAX,
        ensures
            r@.first_child == 0,
            r@.n_children == 0,
            r@.parent == (match parent {
                Some(p) => Some(p as int),
                None => None,
            }),
            r@.value == 0,
            r@.visits == 0,
            r@.perspective == -turn,
            r@.edge == inbound_edge,
    {
        let parent = match parent {
            Some(p) => Some(p as u32),
            None => None,
        };
        Node {
            first_child: 0,
            n_children: 0,
            parent,
            value: 0,
            visits: 0,
            perspective: -turn,
            inbound_edge,
        }
    }

    /// The arena indices of the children.
    pub fn children(&self) -> (r: std::ops::Range<usize>)
        requires
            self@.first_child + self@.n_children <= usize::MAX,
        ensures
            r.start == self@.first_child,
            r.end == self@.first_child + self@.n_children,
    {
        let start = self.first_child as usize;
        start..start + self.n_children as usize
    }

    pub fn parent(&self) -> (r: Option<usize>)
        ensures
            self@.parent == (match r {
                Some(p) => Some(p as int),
                None => None,
            }),
    {
        match self.parent {
            Some(p) => Some(p as usize),
            None => None,
        }
    }

    /// The side to move in this node's position.
    pub fn to_move(&self) -> (r: i8)
        requires
            self@.perspective == 1 || self@.perspective == -1,
        ensures
            r == -self@.perspective,
    {
        -self.perspective
    }

    /// The accumulated value, in units of `1 / VALUE_ONE` of a win.
    pub fn wins(&self) -> (r: i64)
        ensures
            r == self@.value,
    {
        self.value
    }

    /// The win rate from this node's perspective as a fraction: the value
    /// over one win per visit, `(0, 0)` for an unvisited node.
    pub fn win_rate(&self) -> (r: (i64, u64))
        ensures
            r.0 == self@.value,
            r.1 == self@.visits * VALUE_ONE,
    {
        assert(self.visits * VALUE_ONE <= u32::MAX * VALUE_ONE) by (nonlinear_arith)
            requires self.visits <= u32::MAX;
        (self.value, self.visits as u64 * VALUE_ONE as u64)
    }

    pub fn visits(&self) -> (r: u32)
        ensures
            r == self@.visits,
    {
        self.visits
    }

    pub fn inbound_edge(&self) -> (r: M)
        ensures
            r == self@.edge,
    {
        self.inbound_edge
    }

    pub fn has_children(&self) -> (r: bool)
        ensures
            r == (self@.n_children > 0),
    {
        self.n_children > 0
    }

    pub fn perspective(&self) -> (r: i8)
        ensures
            r == self@.perspective,
    {
        self.perspective
    }

    /// A uniformly drawn child index.
    pub fn random_child(&self, rng: &mut fastrand::Rng) -> (r: usize)
        requires
            self@.n_children > 0,
            self@.first_child + self@.n_children <= usize::MAX,
        ensures
            is_child_slot(self@, r as int),
    {
        let range = self.children();
        range.start + crate::outside::draw_below(rng, range.end - range.start)
    }

    /// Counts one simulation with outcome `q` through this node.
    pub fn update(&mut self, q: i64)
        requires
            -Q_ONE <= q <= Q_ONE,
            old(self)@.visits < u32::MAX,
            old(self)@.perspective == 1 || old(self)@.perspective == -1,
            LOSS_SENTINEL <= old(self)@.value <= old(self)@.visits * VALUE_ONE,
        ensures
            final(self)@ == (NodeModel {
                visits: old(self)@.visits + 1,
                value: old(self)@.value + gain(q as int, old(self)@.perspective),
                ..old(self)@
            }),
    {
        assert(-Q_ONE <= q * self.perspective <= Q_ONE) by (nonlinear_arith)
            requires -Q_ONE <= q <= Q_ONE, self.perspective == 1 || self.perspective == -1;
        assert(self.visits * VALUE_ONE <= u32::MAX * VALUE_ONE) by (nonlinear_arith)
            requires self.visits <= u32::MAX;
        self.visits = self.visits + 1;
        self.value = self.value + (q * self.perspective as i64 + Q_ONE);
    }

    /// Overwrites the accumulated value.
    pub fn set_win_score(&mut self, score: i64)
        ensures
            final(self)@ == (NodeModel { value: score as int, ..old(self)@ }),
    {
        self.value = score;
    }

    /// Records the children as the `count` nodes from index `start`.
    pub fn add_children(&mut self, start: usize, count: usize)
        requires
            start <= u32::MAX,
            count <= MAX_MOVES,
        ensures
            final(self)@ == (NodeModel {
                first_child: start as int,
                n_children: count as int,
                ..old(self)@
            }),
    {
        self.first_child = start as u32;
        self.n_children = count as u16;
    }
}


/// The visits of the nodes at indices `lo .. hi`.
pub open spec fn visits_in<M>(ns: Seq<NodeModel<M>>, lo: int, hi: int) -> int
    decreases hi - lo,
{
    if hi <= lo {
        0
    } else {
        visits_in(ns, lo, hi - 1) + ns[hi - 1].visits
    }
}

/// Whether `c` lies in the child range of `n`.
pub open spec fn is_child_slot<M>(n: NodeModel<M>, c: int) -> bool {
    n.first_child <= c < n.first_child + n.n_children
}

/// The visits of node `i` that none of its children accounts for.
pub open spec fn excess<M>(ns: Seq<NodeModel<M>>, i: int) -> int {
    ns[i].visits - visits_in(ns, ns[i].first_child, ns[i].first_child + ns[i].n_children)
}

/// The links of node `i`: only the root lacks a parent; a parent comes before its
/// children and lists them in its range; a child is entered by the other side.
pub open spec fn links_ok<M>(ns: Seq<NodeModel<M>>, i: int) -> bool {
    &&& (i == 0) == (ns[i].parent is None)
    &&& ns[i].parent matches Some(p) ==> {
        &&& 0 <= p < i
        &&& is_child_slot(ns[p], i)
        &&& ns[i].perspective == -ns[p].perspective
    }
    &&& 0 <= ns[i].first_child
    &&& 0 <= ns[i].n_children <= MAX_MOVES
    &&& ns[i].first_child + ns[i].n_children <= ns.len()
    &&& ns[i].n_children > 0 ==> i < ns[i].first_child
    &&& ns[i].perspective == 1 || ns[i].perspective == -1
}

/// A node in the child range of `i` names `i` as its parent.
pub open spec fn owns<M>(ns: Seq<NodeModel<M>>, i: int, c: int) -> bool {
    is_child_slot(ns[i], c) ==> ns[c].parent == Some(i)
}

/// The statistics of node `i`: its visits bound those of its children, and its
/// value lies between nothing and a win per visit, unless it was marked a loss.
pub open spec fn counts_ok<M>(ns: Seq<NodeModel<M>>, i: int, rollouts: int, marked: Set<int>) -> bool {
    &&& 0 <= ns[i].visits <= rollouts
    &&& LOSS_SENTINEL <= ns[i].value <= ns[i].visits * VALUE_ONE
    &&& !marked.contains(i) ==> 0 <= ns[i].value
    &&& excess(ns, i) >= 0
}

/// What the nodes at indices `lo .. hi` leave to their parent: per visit, a
/// win less the node's own share.
pub open spec fn returned_in<M>(ns: Seq<NodeModel<M>>, lo: int, hi: int) -> int
    decreases hi - lo,
{
    if hi <= lo {
        0
    } else {
        returned_in(ns, lo, hi - 1) + (ns[hi - 1].visits * VALUE_ONE - ns[hi - 1].value)
    }
}

/// The value of node `i` beyond what its children leave to it: the share of
/// the simulations that started at `i` itself.
pub open spec fn balance<M>(ns: Seq<NodeModel<M>>, i: int) -> int {
    ns[i].value - returned_in(ns, ns[i].first_child, ns[i].first_child + ns[i].n_children)
}

/// Neither node `i` nor any of its children holds the loss sentinel.
pub open spec fn clean<M>(ns: Seq<NodeModel<M>>, marked: Set<int>, i: int) -> bool {
    &&& !marked.contains(i)
    &&& forall|c: int| #[trigger] is_child_slot(ns[i], c) ==> !marked.contains(c)
}

/// A node's value is what its children leave to it plus a share of at most
/// one win per simulation that started at it.
pub open spec fn balance_ok<M>(ns: Seq<NodeModel<M>>, i: int, marked: Set<int>) -> bool {
    clean(ns, marked, i) ==> 0 <= balance(ns, i) <= excess(ns, i) * VALUE_ONE
}

proof fn lemma_returned_in_agree<M>(a: Seq<NodeModel<M>>, b: Seq<NodeModel<M>>, lo: int, hi: int)
    requires
        0 <= lo,
        hi <= a.len(),
        hi <= b.len(),
        forall|i: int| lo <= i < hi ==> #[trigger] a[i].visits == b[i].visits && a[i].value == b[i].value,
    ensures
        returned_in(a, lo, hi) == returned_in(b, lo, hi),
    decreases hi - lo,
{
    if lo < hi {
        lemma_returned_in_agree(a, b, lo, hi - 1);
    }
}

proof fn lemma_returned_in_zero<M>(a: Seq<NodeModel<M>>, lo: int, hi: int)
    requires
        0 <= lo,
        hi <= a.len(),
        forall|i: int| lo <= i < hi ==> #[trigger] a[i].visits == 0 && a[i].value == 0,
    ensures
        returned_in(a, lo, hi) == 0,
    decreases hi - lo,
{
    if lo < hi {
        lemma_returned_in_zero(a, lo, hi - 1);
    }
}

proof fn lemma_returned_in_bump<M>(a: Seq<NodeModel<M>>, b: Seq<NodeModel<M>>, c: int, g: int, lo: int, hi: int)
    requires
        0 <= lo,
        hi <= a.len(),
        a.len() == b.len(),
        0 <= c < a.len(),
        forall|i: int| 0 <= i < a.len() && i != c ==> #[trigger] b[i].visits == a[i].visits && b[i].value == a[i].value,
        b[c].visits == a[c].visits + 1,
        b[c].value == a[c].value + g,
    ensures
        returned_in(b, lo, hi) == returned_in(a, lo, hi) + (if lo <= c < hi { VALUE_ONE - g } else { 0int }),
    decreases hi - lo,
{
    if lo < hi {
        lemma_returned_in_bump(a, b, c, g, lo, hi - 1);
        if hi - 1 == c {
            assert(b[c].visits * VALUE_ONE == a[c].visits * VALUE_ONE + VALUE_ONE) by (nonlinear_arith)
                requires b[c].visits == a[c].visits + 1;
        }
    }
}

/// The links of a node, without its statistics.
pub open spec fn same_shape<M>(a: NodeModel<M>, b: NodeModel<M>) -> bool {
    &&& a.first_child == b.first_child
    &&& a.n_children == b.n_children
    &&& a.parent == b.parent
    &&& a.perspective == b.perspective
    &&& a.edge == b.edge
}

proof fn lemma_visits_in_agree<M>(a: Seq<NodeModel<M>>, b: Seq<NodeModel<M>>, lo: int, hi: int)
    requires
        0 <= lo,
        hi <= a.len(),
        hi <= b.len(),
        forall|i: int| lo <= i < hi ==> #[trigger] a[i].visits == b[i].visits,
    ensures
        visits_in(a, lo, hi) == visits_in(b, lo, hi),
    decreases hi - lo,
{
    if lo < hi {
        lemma_visits_in_agree(a, b, lo, hi - 1);
    }
}

proof fn lemma_visits_in_zero<M>(a: Seq<NodeModel<M>>, lo: int, hi: int)
    requires
        0 <= lo,
        hi <= a.len(),
        forall|i: int| lo <= i < hi ==> #[trigger] a[i].visits == 0,
    ensures
        visits_in(a, lo, hi) == 0,
    decreases hi - lo,
{
    if lo < hi {
        lemma_visits_in_zero(a, lo, hi - 1);
    }
}

proof fn lemma_visits_in_bump<M>(a: Seq<NodeModel<M>>, b: Seq<NodeModel<M>>, c: int, lo: int, hi: int)
    requires
        0 <= lo,
        hi <= a.len(),
        a.len() == b.len(),
        0 <= c < a.len(),
        forall|i: int| 0 <= i < a.len() && i != c ==> #[trigger] b[i].visits == a[i].visits,
        b[c].visits == a[c].visits + 1,
    ensures
        visits_in(b, lo, hi) == visits_in(a, lo, hi) + (if lo <= c < hi { 1int } else { 0int }),
    decreases hi - lo,
{
    if lo < hi {
        lemma_visits_in_bump(a, b, c, lo, hi - 1);
    }
}

/// The nodes that expansion appends below `parent`, one per move.
pub open spec fn fresh_children<M>(moves: Seq<M>, parent: int, perspective: int) -> Seq<NodeModel<M>> {
    Seq::new(
        moves.len(),
        |j: int|
            NodeModel {
                first_child: 0,
                n_children: 0,
                parent: Some(parent),
                value: 0,
                visits: 0,
                perspective,
                edge: moves[j],
            },
    )
}

/// The last index in `lo .. hi` whose visits are the largest there.
pub open spec fn last_max<M>(ns: Seq<NodeModel<M>>, lo: int, hi: int) -> int
    decreases hi - lo,
{
    if hi - lo <= 1 {
        lo
    } else {
        let m = last_max(ns, lo, hi - 1);
        if ns[hi - 1].visits >= ns[m].visits {
            hi - 1
        } else {
            m
        }
    }
}

/// The most visited child of node `i`, the later one on ties.
pub open spec fn best_by_visits<M>(ns: Seq<NodeModel<M>>, i: int) -> int {
    last_max(ns, ns[i].first_child, ns[i].first_child + ns[i].n_children)
}

/// The moves along the principal variation from node `i`: the most visited
/// child, then its most visited child, until a node without children.
pub open spec fn pv_edges<M>(ns: Seq<NodeModel<M>>, i: int) -> Seq<M>
    decreases ns.len() - i,
{
    if 0 <= i < ns.len() && ns[i].n_children > 0 && i < best_by_visits(ns, i) < ns.len() {
        let b = best_by_visits(ns, i);
        seq![ns[b].edge] + pv_edges(ns, b)
    } else {
        Seq::empty()
    }
}

/// The sum of a sequence of counts.
pub open spec fn total(s: Seq<u32>) -> int
    decreases s.len(),
{
    if s.len() == 0 {
        0
    } else {
        total(s.drop_last()) + s.last()
    }
}

proof fn lemma_last_max<M>(ns: Seq<NodeModel<M>>, lo: int, hi: int)
    requires
        lo < hi,
    ensures
        lo <= last_max(ns, lo, hi) < hi,
        forall|c: int| lo <= c < hi ==> #[trigger] ns[c].visits <= ns[last_max(ns, lo, hi)].visits,
        forall|c: int| last_max(ns, lo, hi) < c < hi ==> #[trigger] ns[c].visits < ns[last_max(ns, lo, hi)].visits,
    decreases hi - lo,
{
    if hi - lo > 1 {
        lemma_last_max(ns, lo, hi - 1);
    }
}

/// The score of child `c` of a node with `parent_visits` visits under `rule`.
pub open spec fn score_of<M>(
    rule: Selection,
    parent_visits: int,
    c: NodeModel<M>,
    explore: nat,
    weight: nat,
    weights_total: nat,
) -> int {
    match rule {
        Selection::Ucb1 => ucb1_score(parent_visits as nat, c.value, c.visits as nat, explore),
        Selection::Puct => puct_score(
            parent_visits as nat,
            c.value,
            c.visits as nat,
            weight,
            weights_total,
        ),
    }
}

/// The scores of the children of node `i`, in generation order.
pub open spec fn child_scores<M>(
    ns: Seq<NodeModel<M>>,
    i: int,
    rule: Selection,
    explore: nat,
    weights: Seq<u32>,
) -> Seq<int> {
    Seq::new(
        ns[i].n_children as nat,
        |k: int|
            score_of(
                rule,
                ns[i].visits,
                ns[ns[i].first_child + k],
                explore,
                weights[k] as nat,
                total(weights) as nat,
            ),
    )
}

proof fn lemma_first_max(s: Seq<int>)
    requires
        s.len() >= 1,
    ensures
        0 <= first_max(s) < s.len(),
        forall|k: int| 0 <= k < s.len() ==> #[trigger] s[k] <= s[first_max(s)],
        forall|k: int| 0 <= k < first_max(s) ==> #[trigger] s[k] < s[first_max(s)],
    decreases s.len(),
{
    if s.len() > 1 {
        let d = s.drop_last();
        lemma_first_max(d);
        assert forall|k: int| 0 <= k < d.len() implies #[trigger] d[k] == s[k] by {}
        let m = first_max(d);
        assert(d[m] == s[m]);
        assert forall|k: int| 0 <= k < s.len() implies #[trigger] s[k] <= s[first_max(s)] by {
            if k < d.len() {
                assert(d[k] == s[k]);
            }
        }
        assert forall|k: int| 0 <= k < first_max(s) implies #[trigger] s[k] < s[first_max(s)] by {
            if k < d.len() {
                assert(d[k] == s[k]);
            }
        }
    }
}

proof fn lemma_total_bound(w: Seq<u32>)
    requires
        forall|k: int| 0 <= k < w.len() ==> #[trigger] w[k] <= MAX_WEIGHT,
    ensures
        0 <= total(w) <= w.len() * MAX_WEIGHT,
    decreases w.len(),
{
    if w.len() > 0 {
        lemma_total_bound(w.drop_last());
    }
}

/// In a well-formed arena the root has been visited once per simulation, and
/// no node has fewer visits than its children together.
pub proof fn lemma_visit_conservation<M: Copy>(t: &SearchTree<M>)
    requires
        t.wf(),
    ensures
        t.models()[0].visits == t.spec_rollouts(),
        forall|i: int|
            0 <= i < t.models().len() ==> #[trigger] t.models()[i].visits >= visits_in(
                t.models(),
                t.models()[i].first_child,
                t.models()[i].first_child + t.models()[i].n_children,
            ),
{
    assert forall|i: int| 0 <= i < t.models().len() implies #[trigger] t.models()[i].visits >= visits_in(
        t.models(),
        t.models()[i].first_child,
        t.models()[i].first_child + t.models()[i].n_children,
    ) by {
        assert(counts_ok(t.models(), i, t.models()[0].visits, t.marked()));
    }
}

/// Every node's value lies between nothing and one win per visit, unless the
/// node was marked as a proven loss.
pub proof fn lemma_value_bounds<M: Copy>(t: &SearchTree<M>)
    requires
        t.wf(),
    ensures
        forall|i: int|
            0 <= i < t.models().len() && !t.marked().contains(i) ==> 0 <= #[trigger] t.models()[i].value
                <= t.models()[i].visits * VALUE_ONE,
        forall|i: int|
            0 <= i < t.models().len() ==> LOSS_SENTINEL <= #[trigger] t.models()[i].value
                <= t.models()[i].visits * VALUE_ONE,
{
    assert forall|i: int| 0 <= i < t.models().len() implies LOSS_SENTINEL <= #[trigger] t.models()[i].value
        <= t.models()[i].visits * VALUE_ONE && (!t.marked().contains(i) ==> 0 <= t.models()[i].value) by {
        assert(counts_ok(t.models(), i, t.models()[0].visits, t.marked()));
    }
}

/// A node's win share mirrors its children's: where neither the node nor a
/// child holds the loss sentinel, the node's value equals what its children
/// leave to it (their visits less their values, in wins) plus at most one win
/// for each simulation that started at the node itself.
pub proof fn lemma_value_balance<M: Copy>(t: &SearchTree<M>)
    requires
        t.wf(),
    ensures
        forall|i: int|
            0 <= i < t.models().len() && clean(t.models(), t.marked(), i) ==> 0 <= #[trigger] balance(
                t.models(),
                i,
            ) <= excess(t.models(), i) * VALUE_ONE,
{
    assert forall|i: int| 0 <= i < t.models().len() && clean(t.models(), t.marked(), i) implies 0
        <= #[trigger] balance(t.models(), i) <= excess(t.models(), i) * VALUE_ONE by {
        assert(balance_ok(t.models(), i, t.marked()));
    }
}

/// A child is entered by the side opposite to its parent's, so one simulation
/// adds complementary shares of a win to the two: they sum to one win.
pub proof fn lemma_perspective_symmetry<M: Copy>(t: &SearchTree<M>, c: int, q: int)
    requires
        t.wf(),
        0 < c < t.models().len(),
        -Q_ONE <= q <= Q_ONE,
    ensures
        t.models()[c].parent matches Some(p) && t.models()[c].perspective == -t.models()[p].perspective
            && gain(q, t.models()[c].perspective) + gain(q, t.models()[p].perspective) == VALUE_ONE,
{
    assert(links_ok(t.models(), c));
    let pc = t.models()[c].perspective;
    assert(q * pc + q * (-pc) == 0) by (nonlinear_arith);
}

/// Node `i` is `c` or one of its ancestors: on the path from `c` to the root.
pub open spec fn ancestor<M>(ns: Seq<NodeModel<M>>, c: int, i: int) -> bool
    decreases c,
{
    if c == i {
        true
    } else if c <= 0 {
        false
    } else {
        match ns[c].parent {
            Some(p) => if 0 <= p < c {
                ancestor(ns, p, i)
            } else {
                false
            },
            None => false,
        }
    }
}

/// In a linked arena an ancestor comes no later than its descendant, and an
/// ancestor other than the node itself has children.
pub proof fn lemma_ancestor<M>(ns: Seq<NodeModel<M>>, c: int, i: int)
    requires
        0 <= c < ns.len(),
        forall|j: int| 0 <= j < ns.len() ==> #[trigger] links_ok(ns, j),
    ensures
        ancestor(ns, c, i) ==> 0 <= i <= c,
        ancestor(ns, c, i) && i != c ==> ns[i].n_children > 0,
    decreases c,
{
    assert(links_ok(ns, c));
    if c != i && c > 0 {
        let p = ns[c].parent->Some_0;
        lemma_ancestor(ns, p, i);
        assert(links_ok(ns, p));
    }
}

/// Ancestry depends on the parent links alone.
pub proof fn lemma_ancestor_agree<M>(a: Seq<NodeModel<M>>, b: Seq<NodeModel<M>>, c: int, i: int)
    requires
        0 <= c < a.len(),
        a.len() <= b.len(),
        forall|j: int| 0 <= j < a.len() ==> #[trigger] a[j].parent == b[j].parent,
    ensures
        ancestor(a, c, i) == ancestor(b, c, i),
    decreases c,
{
    if c != i && c > 0 {
        assert(a[c].parent == b[c].parent);
        if let Some(p) = a[c].parent {
            if 0 <= p < c {
                lemma_ancestor_agree(a, b, p, i);
            }
        }
    }
}

/// The arena of a search: node 0 is the root, and nodes are only appended.
pub struct SearchTree<M> {
    nodes: Vec<Node<M>>,
    capacity: usize,
    rollouts: u32,
    marked: Ghost<Set<int>>,
}

impl<M: Copy> SearchTree<M> {
    /// The nodes, in arena order.
    pub closed spec fn models(&self) -> Seq<NodeModel<M>> {
        self.nodes@.map_values(|n: Node<M>| n@)
    }

    pub closed spec fn spec_capacity(&self) -> int {
        self.capacity as int
    }

    pub closed spec fn spec_rollouts(&self) -> int {
        self.rollouts as int
    }

    /// The nodes whose value was overwritten with the loss sentinel.
    pub closed spec fn marked(&self) -> Set<int> {
        self.marked@
    }

    /// The arena holds a tree rooted at node 0 whose statistics agree with
    /// `rollouts` simulations.
    pub open spec fn wf(&self) -> bool {
        &&& self.arena_ok()
        &&& self.models()[0].visits == self.spec_rollouts()
    }

    /// The arena holds a tree rooted at node 0 whose statistics agree with
    /// the visits of the root; the simulation counter may have to catch up.
    pub open spec fn arena_ok(&self) -> bool {
        let ns = self.models();
        &&& 1 <= ns.len() <= self.spec_capacity() <= u32::MAX
        &&& self.spec_rollouts() <= u32::MAX
        &&& ns[0].visits <= u32::MAX
        &&& forall|i: int| 0 <= i < ns.len() ==> #[trigger] links_ok(ns, i)
        &&& forall|i: int|
            0 <= i < ns.len() ==> #[trigger] counts_ok(ns, i, ns[0].visits, self.marked())
        &&& forall|i: int, c: int| 0 <= i < ns.len() && 0 <= c < ns.len() ==> #[trigger] owns(ns, i, c)
        &&& forall|i: int| 0 <= i < ns.len() ==> #[trigger] balance_ok(ns, i, self.marked())
        &&& forall|i: int| #[trigger] self.marked().contains(i) ==> 0 <= i < ns.len()
    }

    /// An empty arena with room for `capacity` nodes.
    pub fn with_capacity(capacity: usize) -> (r: Self)
        ensures
            r.models().len() == 0,
            r.spec_capacity() == if capacity <= u32::MAX { capacity as int } else { u32::MAX as int },
            r.spec_rollouts() == 0,
    {
        let capacity = if capacity <= 4294967295 { capacity } else { 4294967295 };
        let r = SearchTree { nodes: Vec::new(), capacity, rollouts: 0, marked: Ghost(Set::empty()) };
        assert(r.models() =~= Seq::<NodeModel<M>>::empty());
        r
    }

    /// Empties the arena.
    pub fn clear(&mut self)
        ensures
            final(self).models().len() == 0,
            final(self).spec_capacity() == old(self).spec_capacity(),
            final(self).spec_rollouts() == old(self).spec_rollouts(),
    {
        self.nodes.clear();
        assert(self.models() =~= Seq::<NodeModel<M>>::empty());
    }

    /// Empties the arena and inserts a root whose side to move is `turn`.
    pub fn setup(&mut self, turn: i8, edge: M)
        requires
            turn == 1 || turn == -1,
            old(self).spec_capacity() >= 1,
            old(self).spec_capacity() <= u32::MAX,
        ensures
            final(self).wf(),
            final(self).models().len() == 1,
            final(self).models()[0].visits == 0,
            final(self).models()[0].value == 0,
            final(self).models()[0].n_children == 0,
            final(self).models()[0].perspective == -turn,
            final(self).spec_rollouts() == 0,
            final(self).spec_capacity() == old(self).spec_capacity(),
            final(self).marked() == Set::<int>::empty(),
    {
        self.nodes.clear();
        let root = Node::new(turn, None, edge);
        self.nodes.push(root);
        self.rollouts = 0;
        self.marked = Ghost(Set::empty());
        let ghost ns = self.models();
        assert(ns.len() == 1);
        assert(ns[0] == root@);
        assert(visits_in(ns, 0, 0) == 0);
        assert(links_ok(ns, 0));
        assert(counts_ok(ns, 0, 0, Set::empty()));
    }

    /// The number of completed simulations.
    pub fn rollouts(&self) -> (r: u32)
        ensures
            r == self.spec_rollouts(),
    {
        self.rollouts
    }

    /// The number of nodes the arena may hold.
    pub fn capacity(&self) -> (r: usize)
        ensures
            r == self.spec_capacity(),
    {
        self.capacity
    }

    /// The number of nodes.
    pub fn len(&self) -> (r: usize)
        ensures
            r == self.models().len(),
    {
        self.nodes.len()
    }

    pub fn root(&self) -> (r: &Node<M>)
        requires
            self.models().len() >= 1,
        ensures
            r@ == self.models()[0],
    {
        &self.nodes[0]
    }

    /// Counts one simulation with outcome `q` at node `idx` and at each of its
    /// ancestors up to the root.
    pub fn backpropagate(&mut self, idx: usize, q: i64)
        requires
            old(self).arena_ok(),
            idx < old(self).models().len(),
            -Q_ONE <= q <= Q_ONE,
            old(self).models()[0].visits < u32::MAX,
        ensures
            final(self).arena_ok(),
            final(self).spec_rollouts() == old(self).spec_rollouts(),
            final(self).models()[0].visits == old(self).models()[0].visits + 1,
            final(self).spec_capacity() == old(self).spec_capacity(),
            final(self).marked() == old(self).marked(),
            final(self).models().len() == old(self).models().len(),
            forall|i: int|
                0 <= i < old(self).models().len() ==> same_shape(
                    #[trigger] final(self).models()[i],
                    old(self).models()[i],
                ),
            forall|i: int|
                0 <= i < old(self).models().len() && i != idx ==> #[trigger] excess(
                    final(self).models(),
                    i,
                ) == excess(old(self).models(), i),
            excess(final(self).models(), idx as int) == excess(old(self).models(), idx as int) + 1,
            forall|i: int|
                0 <= i < old(self).models().len() ==> #[trigger] final(self).models()[i].visits
                    == old(self).models()[i].visits + (if ancestor(old(self).models(), idx as int, i) {
                    1int
                } else {
                    0int
                }),
            forall|i: int|
                0 <= i < old(self).models().len() ==> #[trigger] final(self).models()[i].value
                    == old(self).models()[i].value + (if ancestor(old(self).models(), idx as int, i) {
                    gain(q as int, old(self).models()[i].perspective)
                } else {
                    0int
                }),
            forall|i: int|
                0 <= i < old(self).models().len() && !ancestor(old(self).models(), idx as int, i)
                    ==> #[trigger] final(self).models()[i] == old(self).models()[i],
            final(self).models()[0].value == old(self).models()[0].value + gain(
                q as int,
                old(self).models()[0].perspective,
            ),
    {
        let ghost old_ns = self.models();
        let ghost start = idx as int;
        let ghost mut done: Set<int> = Set::<int>::empty();
        let mut cur = idx;
        loop
            invariant_except_break
                0 <= cur <= idx,
                forall|i: int| #[trigger] done.contains(i) ==> cur < i < old_ns.len(),
                cur == idx ==> done == Set::<int>::empty(),
                cur != idx ==> done.contains(start),
                forall|i: int|
                    0 <= i < old_ns.len() ==> (#[trigger] done.contains(i) || ancestor(old_ns, cur as int, i))
                        == ancestor(old_ns, start, i),
                forall|i: int|
                    0 <= i < old_ns.len() && i != cur ==> #[trigger] excess(self.models(), i)
                        == excess(old_ns, i) + (if i == start && done.contains(start) {
                        1int
                    } else {
                        0int
                    }),
                excess(self.models(), cur as int) == excess(old_ns, cur as int) - (if cur != idx {
                    1int
                } else {
                    0int
                }),
                forall|i: int|
                    0 <= i < old_ns.len() && i != cur ==> #[trigger] balance(self.models(), i)
                        == balance(old_ns, i) + (if i == start && done.contains(start) {
                        gain(q as int, old_ns[start].perspective)
                    } else {
                        0int
                    }),
                balance(self.models(), cur as int) == balance(old_ns, cur as int) - (if cur != idx {
                    gain(q as int, old_ns[cur as int].perspective)
                } else {
                    0int
                }),
            invariant
                -Q_ONE <= q <= Q_ONE,
                old_ns[0].visits < u32::MAX,
                idx < old_ns.len(),
                start == idx as int,
                old_ns == old(self).models(),
                self.rollouts == old(self).rollouts,
                self.capacity == old(self).capacity,
                self.marked == old(self).marked,
                self.models().len() == old_ns.len(),
                old(self).arena_ok(),
                forall|i: int|
                    0 <= i < old_ns.len() ==> same_shape(#[trigger] self.models()[i], old_ns[i]),
                forall|i: int|
                    0 <= i < old_ns.len() ==> #[trigger] self.models()[i].visits == old_ns[i].visits
                        + (if done.contains(i) {
                        1int
                    } else {
                        0int
                    }),
                forall|i: int|
                    0 <= i < old_ns.len() ==> #[trigger] self.models()[i].value == old_ns[i].value
                        + (if done.contains(i) {
                        gain(q as int, old_ns[i].perspective)
                    } else {
                        0int
                    }),
            ensures
                done.contains(0),
                forall|i: int|
                    0 <= i < old_ns.len() ==> #[trigger] balance(self.models(), i) == balance(old_ns, i)
                        + (if i == start {
                        gain(q as int, old_ns[start].perspective)
                    } else {
                        0int
                    }),
                forall|i: int| 0 <= i < old_ns.len() ==> #[trigger] done.contains(i) == ancestor(old_ns, start, i),
                forall|i: int|
                    0 <= i < old_ns.len() ==> #[trigger] excess(self.models(), i) == excess(
                        old_ns,
                        i,
                    ) + (if i == start {
                        1int
                    } else {
                        0int
                    }),
            decreases cur,
        {
            let ghost before = self.models();
            let ghost c = cur as int;
            assert(links_ok(old_ns, c));
            assert(counts_ok(old_ns, c, old_ns[0].visits, old(self).marked()));
            let ghost done_before = done;
            assert(!done.contains(c));
            assert(before[c].visits == old_ns[c].visits);
            assert(before[c].value == old_ns[c].value);
            assert(same_shape(before[c], old_ns[c]));
            let mut node = self.nodes[cur];
            assert(node@ == before[c]);
            node.update(q);
            self.nodes.set(cur, node);
            proof {
                let after = self.models();
                assert(after[c] == node@);
                assert forall|i: int| 0 <= i < after.len() && i != c implies #[trigger] after[i]
                    == before[i] by {}
                done = done.insert(c);
                assert forall|i: int| 0 <= i < old_ns.len() implies #[trigger] excess(after, i)
                    == excess(before, i) + (if i == c { 1int } else { 0int }) - (if old_ns[c].parent
                    == Some(i) { 1int } else { 0int }) by {
                    assert(links_ok(old_ns, i));
                    assert(owns(old_ns, i, c));
                    if before[i].n_children > 0 {
                        lemma_visits_in_bump(
                            before,
                            after,
                            c,
                            before[i].first_child,
                            before[i].first_child + before[i].n_children,
                        );
                    }
                    if old_ns[c].parent == Some(i) {
                        assert(is_child_slot(old_ns[i], c));
                    }
                    if i == c {
                        assert(!is_child_slot(old_ns[c], c));
                    }
                }
                let gc = gain(q as int, old_ns[c].perspective);
                assert forall|i: int| 0 <= i < old_ns.len() implies #[trigger] balance(after, i)
                    == balance(before, i) + (if i == c { gc } else { 0int }) - (if old_ns[c].parent
                    == Some(i) { VALUE_ONE - gc } else { 0int }) by {
                    assert(links_ok(old_ns, i));
                    assert(owns(old_ns, i, c));
                    if before[i].n_children > 0 {
                        lemma_returned_in_bump(
                            before,
                            after,
                            c,
                            gc,
                            before[i].first_child,
                            before[i].first_child + before[i].n_children,
                        );
                    }
                    if old_ns[c].parent == Some(i) {
                        assert(is_child_slot(old_ns[i], c));
                    }
                    if i == c {
                        assert(!is_child_slot(old_ns[c], c));
                    }
                }
            }
            proof {
                assert(done_before.contains(start) == (c != start));
            }
            match node.parent() {
                None => {
                    proof {
                        assert(c == 0);
                        assert forall|i: int| 0 <= i < old_ns.len() implies #[trigger] done.contains(i) == ancestor(old_ns, start, i) by {
                            assert(done_before.contains(i) || ancestor(old_ns, c, i) == ancestor(old_ns, start, i));
                        }
                        let after = self.models();
                        assert forall|i: int| 0 <= i < old_ns.len() implies #[trigger] excess(after, i)
                            == excess(old_ns, i) + (if i == start { 1int } else { 0int }) by {
                            if i != c {
                                assert(excess(before, i) == excess(old_ns, i) + (if i == start
                                    && done_before.contains(start) { 1int } else { 0int }));
                            }
                        }
                        assert forall|i: int| 0 <= i < old_ns.len() implies #[trigger] balance(after, i)
                            == balance(old_ns, i) + (if i == start { gain(q as int, old_ns[start].perspective) } else { 0int }) by {
                            if i != c {
                                assert(balance(before, i) == balance(old_ns, i) + (if i == start
                                    && done_before.contains(start) { gain(q as int, old_ns[start].perspective) } else { 0int }));
                            }
                        }
                    }
                    break ;
                },
                Some(p) => {
                    proof {
                        let pp = p as int;
                        assert(pp < c);
                        assert forall|i: int| 0 <= i < old_ns.len() implies (#[trigger] done.contains(i)
                            || ancestor(old_ns, pp, i)) == ancestor(old_ns, start, i) by {
                            assert(done_before.contains(i) || ancestor(old_ns, c, i) == ancestor(old_ns, start, i));
                        }
                        let after = self.models();
                        assert(excess(before, pp) == excess(old_ns, pp));
                        assert forall|i: int| 0 <= i < old_ns.len() && i != pp implies #[trigger] excess(
                            after,
                            i,
                        ) == excess(old_ns, i) + (if i == start && done.contains(start) {
                            1int
                        } else {
                            0int
                        }) by {
                            if i != c {
                                assert(excess(before, i) == excess(old_ns, i) + (if i == start
                                    && done_before.contains(start) { 1int } else { 0int }));
                            }
                        }
                        let gc = gain(q as int, old_ns[c].perspective);
                        let gp = gain(q as int, old_ns[pp].perspective);
                        assert(old_ns[c].perspective == -old_ns[pp].perspective);
                        assert(q * old_ns[c].perspective + q * old_ns[pp].perspective == 0) by (nonlinear_arith)
                            requires old_ns[c].perspective == -old_ns[pp].perspective;
                        assert(VALUE_ONE - gc == gp);
                        assert(balance(before, pp) == balance(old_ns, pp));
                        assert forall|i: int| 0 <= i < old_ns.len() && i != pp implies #[trigger] balance(
                            after,
                            i,
                        ) == balance(old_ns, i) + (if i == start && done.contains(start) {
                            gain(q as int, old_ns[start].perspective)
                        } else {
                            0int
                        }) by {
                            if i != c {
                                assert(balance(before, i) == balance(old_ns, i) + (if i == start
                                    && done_before.contains(start) { gain(q as int, old_ns[start].perspective) } else { 0int }));
                            }
                        }
                    }
                    cur = p;
                },
            }
        }
        proof {
            let ns = self.models();
            assert forall|i: int| 0 <= i < old_ns.len() && !ancestor(old_ns, start, i)
                implies #[trigger] ns[i] == old_ns[i] by {
                assert(same_shape(ns[i], old_ns[i]));
                assert(!done.contains(i));
                assert(ns[i].visits == old_ns[i].visits);
                assert(ns[i].value == old_ns[i].value);
            }
            assert forall|i: int| 0 <= i < ns.len() implies #[trigger] counts_ok(
                ns,
                i,
                ns[0].visits,
                self.marked(),
            ) by {
                assert(counts_ok(old_ns, i, old_ns[0].visits, old(self).marked()));
                assert(links_ok(old_ns, i));
                assert(ns[i].visits * VALUE_ONE == old_ns[i].visits * VALUE_ONE + (if done.contains(
                    i,
                ) {
                    VALUE_ONE as int
                } else {
                    0int
                }));
                assert(0 <= gain(q as int, old_ns[i].perspective) <= VALUE_ONE) by (nonlinear_arith)
                    requires
                        -Q_ONE <= q <= Q_ONE,
                        old_ns[i].perspective == 1 || old_ns[i].perspective == -1,
                ;
            }
            assert forall|i: int| 0 <= i < ns.len() implies #[trigger] links_ok(ns, i) by {
                assert(links_ok(old_ns, i));
                if let Some(p) = ns[i].parent {
                    assert(same_shape(ns[p], old_ns[p]));
                }
            }
            assert forall|i: int| #[trigger] self.marked().contains(i) implies 0 <= i < ns.len() by {
                assert(old(self).marked().contains(i));
            }
            assert forall|i: int| 0 <= i < ns.len() implies #[trigger] balance_ok(ns, i, self.marked()) by {
                assert(balance_ok(old_ns, i, old(self).marked()));
                assert(links_ok(old_ns, i));
                if clean(ns, self.marked(), i) {
                    assert forall|c: int| #[trigger] is_child_slot(old_ns[i], c) implies !old(self).marked().contains(c) by {
                        assert(is_child_slot(ns[i], c));
                    }
                    assert(0 <= gain(q as int, old_ns[i].perspective) <= VALUE_ONE) by (nonlinear_arith)
                        requires
                            -Q_ONE <= q <= Q_ONE,
                            old_ns[i].perspective == 1 || old_ns[i].perspective == -1,
                    ;
                    assert((excess(old_ns, i) + 1) * VALUE_ONE == excess(old_ns, i) * VALUE_ONE + VALUE_ONE) by (nonlinear_arith);
                }
            }
            assert forall|i: int, c: int| 0 <= i < ns.len() && 0 <= c < ns.len() implies #[trigger] owns(
                ns,
                i,
                c,
            ) by {
                assert(owns(old_ns, i, c));
                assert(same_shape(ns[i], old_ns[i]));
                assert(same_shape(ns[c], old_ns[c]));
            }
        }
    }

    /// Counts a simulation whose visits backpropagation has recorded.
    pub fn inc_rollouts(&mut self)
        requires
            old(self).arena_ok(),
            old(self).models()[0].visits == old(self).spec_rollouts() + 1,
        ensures
            final(self).wf(),
            final(self).models() == old(self).models(),
            final(self).spec_rollouts() == old(self).spec_rollouts() + 1,
            final(self).spec_capacity() == old(self).spec_capacity(),
            final(self).marked() == old(self).marked(),
    {
        self.rollouts = self.rollouts + 1;
        proof {
            let ns = self.models();
            assert(ns == old(self).models());
            assert(self.marked() == old(self).marked());
            assert forall|i: int| 0 <= i < ns.len() implies #[trigger] counts_ok(ns, i, ns[0].visits, self.marked()) by {
                assert(counts_ok(old(self).models(), i, ns[0].visits, old(self).marked()));
            }
            assert forall|i: int| 0 <= i < ns.len() implies #[trigger] balance_ok(ns, i, self.marked()) by {
                assert(balance_ok(old(self).models(), i, old(self).marked()));
            }
        }
    }

    /// Appends one child of node `idx` for each of `moves`, in order. A child
    /// is entered by the side to move at its parent, the opposite of the side
    /// that entered the parent, so its perspective is the parent's negated.
    pub fn expand(&mut self, idx: usize, moves: &Vec<M>) -> (r: Result<(), SearchError>)
        requires
            old(self).wf(),
            idx < old(self).models().len(),
            moves@.len() <= MAX_MOVES,
        ensures
            old(self).models()[idx as int].n_children > 0 ==> r == Err::<(), SearchError>(
                SearchError::AlreadyExpanded,
            ),
            old(self).models()[idx as int].n_children == 0 && old(self).models().len()
                + moves@.len() > old(self).spec_capacity() ==> r == Err::<(), SearchError>(
                SearchError::OutOfArena,
            ),
            r is Err ==> *final(self) == *old(self),
            r is Ok <==> old(self).models()[idx as int].n_children == 0 && old(self).models().len()
                + moves@.len() <= old(self).spec_capacity(),
            final(self).wf(),
            r is Ok ==> final(self).models() == old(self).models().update(
                idx as int,
                NodeModel {
                    first_child: old(self).models().len() as int,
                    n_children: moves@.len() as int,
                    ..old(self).models()[idx as int]
                },
            ) + fresh_children(moves@, idx as int, -old(self).models()[idx as int].perspective),
            r is Ok ==> excess(final(self).models(), idx as int) == old(self).models()[idx as int].visits,
            r is Ok ==> forall|i: int|
                0 <= i < old(self).models().len() && i != idx ==> #[trigger] excess(
                    final(self).models(),
                    i,
                ) == excess(old(self).models(), i),
            final(self).spec_rollouts() == old(self).spec_rollouts(),
            final(self).spec_capacity() == old(self).spec_capacity(),
            final(self).marked() == old(self).marked(),
    {
        let ghost old_ns = self.models();
        let ghost i0 = idx as int;
        if self.nodes[idx].n_children > 0 {
            return Err(SearchError::AlreadyExpanded);
        }
        let start = self.nodes.len();
        if moves.len() > self.capacity - start {
            return Err(SearchError::OutOfArena);
        }
        assert(links_ok(old_ns, i0));
        let persp = self.nodes[idx].perspective;
        let ghost fresh = fresh_children(moves@, i0, -old_ns[i0].perspective);
        let mut j: usize = 0;
        while j < moves.len()
            invariant
                old_ns == old(self).models(),
                start == old_ns.len(),
                0 <= idx < start,
                persp == old_ns[i0].perspective,
                persp == 1 || persp == -1,
                i0 == idx as int,
                fresh == fresh_children(moves@, i0, -old_ns[i0].perspective),
                start + moves@.len() <= self.capacity <= u32::MAX,
                j <= moves@.len(),
                self.capacity == old(self).capacity,
                self.rollouts == old(self).rollouts,
                self.marked == old(self).marked,
                self.models() == old_ns + fresh.subrange(0, j as int),
            decreases moves@.len() - j,
        {
            let child = Node::new(persp, Some(idx), moves[j]);
            let ghost prev_nodes = self.nodes@;
            let ghost prev = self.models();
            self.nodes.push(child);
            proof {
                assert(child@ == fresh[j as int]);
                let target = old_ns + fresh.subrange(0, j + 1);
                assert(fresh.len() == moves@.len());
                assert(prev.len() == prev_nodes.len());
                assert(prev.len() == old_ns.len() + j);
                assert(self.nodes@.len() == prev_nodes.len() + 1);
                assert(target.len() == self.nodes@.len());
                assert forall|i: int| 0 <= i < self.nodes@.len() implies #[trigger] self.models()[i]
                    == target[i] by {
                    assert(self.models()[i] == self.nodes@[i]@);
                    if i < prev_nodes.len() {
                        assert(self.nodes@[i] == prev_nodes[i]);
                        assert(prev[i] == prev_nodes[i]@);
                    }
                }
                assert(self.models() =~= target);
            }
            j = j + 1;
        }
        let mut node = self.nodes[idx];
        proof {
            assert(fresh.subrange(0, j as int) =~= fresh);
            assert(self.models()[i0] == self.nodes@[i0]@);
            assert(node@ == old_ns[i0]);
        }
        let ghost prev_nodes = self.nodes@;
        let ghost prev = self.models();
        node.add_children(start, moves.len());
        self.nodes.set(idx, node);
        proof {
            let ns = self.models();
            assert forall|i: int| 0 <= i < ns.len() implies #[trigger] ns[i] == (if i == i0 {
                node@
            } else {
                prev[i]
            }) by {
                if i != i0 {
                    assert(self.nodes@[i] == prev_nodes[i]);
                    assert(prev[i] == prev_nodes[i]@);
                }
            }
            let mid = old_ns + fresh;
            assert(ns =~= old_ns.update(
                i0,
                NodeModel {
                    first_child: start as int,
                    n_children: moves@.len() as int,
                    ..old_ns[i0]
                },
            ) + fresh);
            assert forall|i: int| 0 <= i < ns.len() && i != i0 implies #[trigger] ns[i] == mid[i] by {}
            assert forall|i: int| 0 <= i < ns.len() implies #[trigger] ns[i].visits == mid[i].visits by {}
            assert forall|i: int| 0 <= i < ns.len() implies #[trigger] links_ok(ns, i) by {
                if i < start {
                    assert(links_ok(old_ns, i));
                    if let Some(p) = ns[i].parent {
                        if p == i0 {
                            assert(owns(old_ns, p, i));
                        }
                    }
                }
            }
            assert forall|i: int| 0 <= i < ns.len() implies #[trigger] counts_ok(
                ns,
                i,
                ns[0].visits,
                self.marked(),
            ) by {
                if i < start {
                    assert(links_ok(old_ns, i));
                    assert(counts_ok(old_ns, i, old_ns[0].visits, old(self).marked()));
                    if i == i0 {
                        lemma_visits_in_zero(ns, start as int, start + moves@.len());
                        if old_ns[i].n_children > 0 {
                            lemma_visits_in_agree(ns, old_ns, 0, 0);
                        }
                    } else if old_ns[i].n_children > 0 {
                        lemma_visits_in_agree(
                            ns,
                            old_ns,
                            old_ns[i].first_child,
                            old_ns[i].first_child + old_ns[i].n_children,
                        );
                    }
                }
            }
            lemma_visits_in_zero(ns, start as int, start + moves@.len());
            assert forall|i: int| 0 <= i < start && i != i0 implies #[trigger] excess(ns, i)
                == excess(old_ns, i) by {
                assert(links_ok(old_ns, i));
                if old_ns[i].n_children > 0 {
                    lemma_visits_in_agree(
                        ns,
                        old_ns,
                        old_ns[i].first_child,
                        old_ns[i].first_child + old_ns[i].n_children,
                    );
                }
            }
            assert forall|i: int, c: int| 0 <= i < ns.len() && 0 <= c < ns.len() implies #[trigger] owns(
                ns,
                i,
                c,
            ) by {
                if i < start && i != i0 && c < start {
                    assert(owns(old_ns, i, c));
                    assert(links_ok(old_ns, i));
                }
                if i < start && i != i0 && c >= start {
                    assert(links_ok(old_ns, i));
                }
            }
            assert forall|i: int| #[trigger] self.marked().contains(i) implies 0 <= i < ns.len() by {
                assert(old(self).marked().contains(i));
            }
            lemma_returned_in_zero(ns, start as int, start + moves@.len());
            assert forall|i: int| 0 <= i < ns.len() implies #[trigger] balance_ok(ns, i, self.marked()) by {
                if i < start {
                    assert(links_ok(old_ns, i));
                    assert(counts_ok(old_ns, i, old_ns[0].visits, old(self).marked()));
                    assert(balance_ok(old_ns, i, old(self).marked()));
                    if i != i0 && old_ns[i].n_children > 0 {
                        lemma_returned_in_agree(
                            ns,
                            old_ns,
                            old_ns[i].first_child,
                            old_ns[i].first_child + old_ns[i].n_children,
                        );
                        if clean(ns, self.marked(), i) {
                            assert forall|c: int| #[trigger] is_child_slot(old_ns[i], c) implies !old(self).marked().contains(c) by {
                                assert(is_child_slot(ns[i], c));
                            }
                        }
                    }
                }
            }
        }
        Ok(())
    }

    /// Marks node `idx` as a proven loss for the side that enters it.
    pub fn penalise(&mut self, idx: usize)
        requires
            old(self).wf(),
            idx < old(self).models().len(),
        ensures
            final(self).wf(),
            final(self).models() == old(self).models().update(
                idx as int,
                NodeModel { value: LOSS_SENTINEL as int, ..old(self).models()[idx as int] },
            ),
            final(self).marked() == old(self).marked().insert(idx as int),
            final(self).spec_rollouts() == old(self).spec_rollouts(),
            final(self).spec_capacity() == old(self).spec_capacity(),
            forall|i: int|
                0 <= i < old(self).models().len() ==> #[trigger] excess(final(self).models(), i)
                    == excess(old(self).models(), i),
    {
        let ghost old_ns = self.models();
        let mut node = self.nodes[idx];
        assert(node@ == old_ns[idx as int]);
        node.set_win_score(LOSS_SENTINEL);
        self.nodes.set(idx, node);
        self.marked = Ghost(self.marked@.insert(idx as int));
        proof {
            let ns = self.models();
            assert(ns =~= old_ns.update(
                idx as int,
                NodeModel { value: LOSS_SENTINEL as int, ..old_ns[idx as int] },
            ));
            assert forall|i: int| 0 <= i < ns.len() implies #[trigger] links_ok(ns, i) by {
                assert(links_ok(old_ns, i));
            }
            assert forall|i: int| 0 <= i < ns.len() implies #[trigger] counts_ok(
                ns,
                i,
                ns[0].visits,
                self.marked(),
            ) by {
                assert(links_ok(old_ns, i));
                assert(counts_ok(old_ns, i, old_ns[0].visits, old(self).marked()));
                if old_ns[i].n_children > 0 {
                    lemma_visits_in_agree(
                        ns,
                        old_ns,
                        old_ns[i].first_child,
                        old_ns[i].first_child + old_ns[i].n_children,
                    );
                }
            }
            assert forall|i: int| 0 <= i < ns.len() implies #[trigger] excess(ns, i) == excess(
                old_ns,
                i,
            ) by {
                assert(links_ok(old_ns, i));
                if old_ns[i].n_children > 0 {
                    lemma_visits_in_agree(
                        ns,
                        old_ns,
                        old_ns[i].first_child,
                        old_ns[i].first_child + old_ns[i].n_children,
                    );
                }
            }
            assert forall|i: int, c: int| 0 <= i < ns.len() && 0 <= c < ns.len() implies #[trigger] owns(
                ns,
                i,
                c,
            ) by {
                assert(owns(old_ns, i, c));
            }
            assert forall|i: int| #[trigger] self.marked().contains(i) implies 0 <= i < ns.len() by {
                assert(old(self).marked().contains(i) || i == idx);
            }
            assert forall|i: int| 0 <= i < ns.len() implies #[trigger] balance_ok(ns, i, self.marked()) by {
                assert(links_ok(old_ns, i));
                assert(balance_ok(old_ns, i, old(self).marked()));
                if clean(ns, self.marked(), i) {
                    assert(i != idx);
                    assert(!is_child_slot(ns[i], idx as int));
                    assert forall|c: int| #[trigger] is_child_slot(old_ns[i], c) implies !old(self).marked().contains(c) by {
                        assert(is_child_slot(ns[i], c));
                    }
                    if old_ns[i].n_children > 0 {
                        lemma_returned_in_agree(
                            ns,
                            old_ns,
                            old_ns[i].first_child,
                            old_ns[i].first_child + old_ns[i].n_children,
                        );
                    }
                }
            }
        }
    }

    /// The most visited child of node `idx`, the later one on ties.
    pub fn best_child_by_visits(&self, idx: usize) -> (r: usize)
        requires
            self.wf(),
            idx < self.models().len(),
            self.models()[idx as int].n_children > 0,
        ensures
            r == best_by_visits(self.models(), idx as int),
            idx < r < self.models().len(),
            is_child_slot(self.models()[idx as int], r as int),
    {
        let ghost ns = self.models();
        assert(links_ok(ns, idx as int));
        assert(ns[idx as int] == self.nodes@[idx as int]@);
        let range = self.nodes[idx].children();
        let lo = range.start;
        let hi = range.end;
        let mut best = lo;
        assert(ns[lo as int] == self.nodes@[lo as int]@);
        let mut best_visits = self.nodes[lo].visits;
        let mut c = lo + 1;
        while c < hi
            invariant
                ns == self.models(),
                idx < lo < c <= hi <= ns.len(),
                best == last_max(ns, lo as int, c as int),
                best_visits == ns[best as int].visits,
            decreases hi - c,
        {
            assert(ns[c as int] == self.nodes@[c as int]@);
            let v = self.nodes[c].visits;
            proof {
                lemma_last_max(ns, lo as int, c as int);
            }
            if v >= best_visits {
                best = c;
                best_visits = v;
            }
            c = c + 1;
        }
        proof {
            lemma_last_max(ns, lo as int, hi as int);
        }
        best
    }

    /// The visits of the root's children, in generation order.
    pub fn root_rollout_distribution(&self) -> (r: Vec<u32>)
        requires
            self.wf(),
        ensures
            r@.len() == self.models()[0].n_children,
            forall|k: int|
                0 <= k < r@.len() ==> #[trigger] r@[k] == self.models()[self.models()[0].first_child
                    + k].visits,
            total(r@) == visits_in(
                self.models(),
                self.models()[0].first_child,
                self.models()[0].first_child + self.models()[0].n_children,
            ),
    {
        let ghost ns = self.models();
        assert(links_ok(ns, 0));
        assert(ns[0] == self.nodes@[0]@);
        let range = self.nodes[0].children();
        let lo = range.start;
        let hi = range.end;
        let mut r: Vec<u32> = Vec::new();
        let mut c = lo;
        while c < hi
            invariant
                ns == self.models(),
                lo <= c <= hi,
                hi == lo + ns[0].n_children,
                lo == ns[0].first_child,
                ns[0].n_children > 0 ==> hi <= ns.len(),
                r@.len() == c - lo,
                forall|k: int| 0 <= k < r@.len() ==> #[trigger] r@[k] == ns[lo + k].visits,
                total(r@) == visits_in(ns, lo as int, c as int),
            decreases hi - c,
        {
            assert(ns[c as int] == self.nodes@[c as int]@);
            let ghost before = r@;
            r.push(self.nodes[c].visits);
            assert(r@.drop_last() =~= before);
            c = c + 1;
        }
        r
    }

    /// The moves of the principal variation from the root.
    pub fn pv_moves(&self) -> (r: Vec<M>)
        requires
            self.wf(),
        ensures
            r@ == pv_edges(self.models(), 0),
    {
        let ghost ns = self.models();
        let mut r: Vec<M> = Vec::new();
        let mut idx: usize = 0;
        while self.nodes[idx].n_children > 0
            invariant
                ns == self.models(),
                self.wf(),
                idx < ns.len(),
                r@ + pv_edges(ns, idx as int) == pv_edges(ns, 0),
            decreases ns.len() - idx,
        {
            assert(ns[idx as int] == self.nodes@[idx as int]@);
            let b = self.best_child_by_visits(idx);
            assert(ns[b as int] == self.nodes@[b as int]@);
            let ghost before = r@;
            r.push(self.nodes[b].inbound_edge);
            assert(pv_edges(ns, idx as int) == seq![ns[b as int].edge] + pv_edges(ns, b as int));
            assert(r@ + pv_edges(ns, b as int) =~= before + pv_edges(ns, idx as int));
            idx = b;
        }
        assert(ns[idx as int] == self.nodes@[idx as int]@);
        assert(r@ =~= r@ + pv_edges(ns, idx as int));
        r
    }

    /// The length of the principal variation from the root.
    pub fn pv_depth(&self) -> (r: usize)
        requires
            self.wf(),
        ensures
            r == pv_edges(self.models(), 0).len(),
    {
        self.pv_moves().len()
    }

    /// The child of node `idx` with the highest score under `rule`, the first
    /// one on ties; `weights` are the priors of the children, in order.
    pub fn select_child(&self, idx: usize, rule: Selection, explore: u64, weights: &Vec<u32>) -> (r:
        usize)
        requires
            self.wf(),
            idx < self.models().len(),
            self.models()[idx as int].n_children > 0,
            weights@.len() == self.models()[idx as int].n_children,
            forall|k: int| 0 <= k < weights@.len() ==> #[trigger] weights@[k] <= MAX_WEIGHT,
            explore <= MAX_EXPLORATION,
        ensures
            r == self.models()[idx as int].first_child + first_max(
                child_scores(self.models(), idx as int, rule, explore as nat, weights@),
            ),
            is_child_slot(self.models()[idx as int], r as int),
            idx < r < self.models().len(),
    {
        let ghost ns = self.models();
        let ghost scores = child_scores(ns, idx as int, rule, explore as nat, weights@);
        assert(links_ok(ns, idx as int));
        assert(ns[idx as int] == self.nodes@[idx as int]@);
        let parent_visits = self.nodes[idx].visits;
        let range = self.nodes[idx].children();
        let lo = range.start;
        let hi = range.end;
        let mut sum: u64 = 0;
        let mut k: usize = 0;
        proof {
            lemma_total_bound(weights@);
        }
        while k < weights.len()
            invariant
                k <= weights@.len(),
                weights@.len() <= MAX_MOVES,
                forall|j: int| 0 <= j < weights@.len() ==> #[trigger] weights@[j] <= MAX_WEIGHT,
                sum == total(weights@.subrange(0, k as int)),
            decreases weights@.len() - k,
        {
            proof {
                lemma_total_bound(weights@.subrange(0, k as int));
                assert(weights@.subrange(0, k + 1).drop_last() =~= weights@.subrange(0, k as int));
            }
            sum = sum + weights[k] as u64;
            k = k + 1;
        }
        assert(weights@.subrange(0, k as int) =~= weights@);
        let mut best = lo;
        let mut best_score: i128 = 0;
        let mut c = lo;
        while c < hi
            invariant
                ns == self.models(),
                self.wf(),
                idx < lo <= c <= hi <= ns.len(),
                lo == ns[idx as int].first_child,
                hi == lo + ns[idx as int].n_children,
                parent_visits == ns[idx as int].visits,
                scores == child_scores(ns, idx as int, rule, explore as nat, weights@),
                weights@.len() == hi - lo,
                forall|j: int| 0 <= j < weights@.len() ==> #[trigger] weights@[j] <= MAX_WEIGHT,
                sum == total(weights@),
                explore <= MAX_EXPLORATION,
                c > lo ==> best - lo == first_max(scores.subrange(0, c - lo)),
                c > lo ==> best_score == scores[best - lo],
                c > lo ==> lo <= best < c,
            decreases hi - c,
        {
            assert(ns[c as int] == self.nodes@[c as int]@);
            assert(counts_ok(ns, c as int, ns[0].visits, self.marked()));
            let node = &self.nodes[c];
            let w = weights[c - lo];
            let v = match rule {
                Selection::Ucb1 => ucb1_value(parent_visits, node.value, node.visits, explore),
                Selection::Puct => puct_value(parent_visits, node.value, node.visits, w, sum),
            };
            assert(v == scores[c - lo]);
            proof {
                let sub = scores.subrange(0, c - lo + 1);
                assert(sub.drop_last() =~= scores.subrange(0, c - lo));
                if c > lo {
                    lemma_first_max(scores.subrange(0, c - lo));
                }
            }
            if c == lo || v > best_score {
                best = c;
                best_score = v;
            }
            c = c + 1;
        }
        proof {
            assert(scores.subrange(0, hi - lo) =~= scores);
            lemma_first_max(scores);
        }
        best
    }

    pub fn get(&self, idx: usize) -> (r: Option<&Node<M>>)
        ensures
            idx < self.models().len() ==> (r matches Some(n) && n@ == self.models()[idx as int]),
            idx >= self.models().len() ==> r is None,
    {
        if idx < self.nodes.len() {
            Some(&self.nodes[idx])
        } else {
            None
        }
    }
}

} // verus!
