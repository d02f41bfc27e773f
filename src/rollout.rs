//! Simulations from a leaf to the end of the game, or to a cut-off.
use vstd::prelude::*;
use crate::game::{Game, MAX_GAME_MOVES};
use crate::outside::draw_below;
use crate::tree::Q_ONE;

verus! {

/// How moves are chosen during a simulation.
#[derive(Debug)]
pub enum RolloutPolicy {
    /// Uniformly random moves.
    Random,
    /// An immediately winning move when there is one, else a random move.
    Decisive,
    /// `Random`, with the outcome shrunk by the length of the simulation.
    RandomQualityScaled,
    /// `Decisive`, with the outcome shrunk by the length of the simulation.
    DecisiveQualityScaled,
    /// `Random`, scoring a draw once `moves` moves have been played.
    RandomCutoff { moves: usize },
    /// `Decisive`, scoring a draw once `moves` moves have been played.
    DecisiveCutoff { moves: usize },
    /// The mean of `rollouts` simulations under `policy`.
    MetaAggregated { policy: Box<RolloutPolicy>, rollouts: usize },
}

/// The shrink factor per move of a quality-scaled simulation, `exp(-0.04)`, in
/// millionths.
pub const DECAY_PER_MOVE: i64 = 960_789;

/// `Q_ONE * exp(-0.04 * moves)`, rounded down at each move.
pub open spec fn decay(moves: nat) -> int
    decreases moves,
{
    if moves == 0 {
        Q_ONE as int
    } else {
        decay((moves - 1) as nat) * DECAY_PER_MOVE / 1_000_000
    }
}

/// The outcome of a quality-scaled simulation that ended with result `q` after
/// `moves` moves.
pub open spec fn scaled(q: int, moves: nat) -> int {
    q * decay(moves)
}

impl RolloutPolicy {
    /// One of the four policies that a meta-aggregated policy may repeat.
    pub open spec fn is_base(&self) -> bool {
        match self {
            RolloutPolicy::Random | RolloutPolicy::Decisive | RolloutPolicy::RandomQualityScaled
            | RolloutPolicy::DecisiveQualityScaled => true,
            _ => false,
        }
    }

    /// The policy can be run: a meta-aggregated one repeats a base policy at
    /// least once.
    pub open spec fn runnable(&self) -> bool {
        match self {
            RolloutPolicy::MetaAggregated { policy, rollouts } => policy.is_base() && *rollouts >= 1,
            _ => true,
        }
    }

    /// Whether the policy can be run; see `runnable`.
    pub fn is_runnable(&self) -> (r: bool)
        ensures
            r == self.runnable(),
    {
        match self {
            RolloutPolicy::MetaAggregated { policy, rollouts } => {
                let base = match &**policy {
                    RolloutPolicy::Random | RolloutPolicy::Decisive
                    | RolloutPolicy::RandomQualityScaled | RolloutPolicy::DecisiveQualityScaled => true,
                    _ => false,
                };
                base && *rollouts >= 1
            },
            _ => true,
        }
    }

    /// A copy of the policy.
    pub fn duplicate(&self) -> (r: Self)
        ensures
            r == *self,
        decreases self,
    {
        match self {
            RolloutPolicy::Random => RolloutPolicy::Random,
            RolloutPolicy::Decisive => RolloutPolicy::Decisive,
            RolloutPolicy::RandomQualityScaled => RolloutPolicy::RandomQualityScaled,
            RolloutPolicy::DecisiveQualityScaled => RolloutPolicy::DecisiveQualityScaled,
            RolloutPolicy::RandomCutoff { moves } => RolloutPolicy::RandomCutoff { moves: *moves },
            RolloutPolicy::DecisiveCutoff { moves } => RolloutPolicy::DecisiveCutoff { moves: *moves },
            RolloutPolicy::MetaAggregated { policy, rollouts } => RolloutPolicy::MetaAggregated {
                policy: Box::new((&**policy).duplicate()),
                rollouts: *rollouts,
            },
        }
    }
}

/// The quality factor decreases with the number of moves, and stays between
/// nothing and one.
pub proof fn lemma_decay_bounds(moves: nat)
    ensures
        0 <= decay(moves) <= Q_ONE,
        decay(moves + 1) <= decay(moves),
    decreases moves,
{
    if moves > 0 {
        lemma_decay_bounds((moves - 1) as nat);
    }
    let d = decay(moves);
    assert(0 <= d * DECAY_PER_MOVE / 1_000_000 <= d) by (nonlinear_arith)
        requires 0 <= d;
}

/// A quality-scaled outcome is bounded by one and shrinks, in size, as the
/// simulation grows longer.
pub proof fn lemma_quality_scaling(q: int, a: nat, b: nat)
    requires
        -1 <= q <= 1,
        a <= b,
    ensures
        -Q_ONE <= scaled(q, a) <= Q_ONE,
        q >= 0 ==> scaled(q, b) <= scaled(q, a),
        q <= 0 ==> scaled(q, b) >= scaled(q, a),
    decreases b - a,
{
    lemma_decay_bounds(a);
    if a < b {
        lemma_quality_scaling(q, a, (b - 1) as nat);
        lemma_decay_bounds((b - 1) as nat);
        assert(q >= 0 ==> q * decay(b) <= q * decay((b - 1) as nat)) by (nonlinear_arith)
            requires decay(b) <= decay((b - 1) as nat);
        assert(q <= 0 ==> q * decay(b) >= q * decay((b - 1) as nat)) by (nonlinear_arith)
            requires decay(b) <= decay((b - 1) as nat);
    }
    assert(-Q_ONE <= q * decay(a) <= Q_ONE) by (nonlinear_arith)
        requires -1 <= q <= 1, 0 <= decay(a) <= Q_ONE;
}

/// `decay(moves)` computed.
pub fn decay_factor(moves: usize) -> (r: i64)
    ensures
        r == decay(moves as nat),
        0 <= r <= Q_ONE,
{
    let mut d: i64 = Q_ONE;
    let mut k: usize = 0;
    while k < moves
        invariant
            k <= moves,
            d == decay(k as nat),
            0 <= d <= Q_ONE,
        decreases moves - k,
    {
        proof {
            lemma_decay_bounds(k as nat);
        }
        assert(d * DECAY_PER_MOVE <= Q_ONE * DECAY_PER_MOVE) by (nonlinear_arith)
            requires 0 <= d <= Q_ONE;
        d = d * DECAY_PER_MOVE / 1_000_000;
        k = k + 1;
        proof {
            lemma_decay_bounds(k as nat);
        }
    }
    d
}

/// Plays a uniformly random legal move.
pub fn push_random<G: Game>(state: &mut G, rng: &mut fastrand::Rng)
    requires
        G::valid(old(state).model()),
        !G::over(old(state).model()),
    ensures
        G::valid(final(state).model()),
        G::moves_left(final(state).model()) < G::moves_left(old(state).model()),
        exists|m: G::Move| G::legal_moves(old(state).model()).contains(m) && final(state).model() == G::after(old(state).model(), m),
{
    let moves = state.generate_moves();
    let i = draw_below(rng, moves.len());
    let m = moves[i];
    assert(G::legal_moves(old(state).model())[i as int] == m);
    state.push(m);
}

/// No legal move from `s` ends the game with a win or a loss.
pub open spec fn no_decisive<G: Game>(s: G::Model) -> bool {
    forall|k: int|
        0 <= k < G::legal_moves(s).len() ==> #[trigger] G::result(G::after(s, G::legal_moves(s)[k])) == 0
}

/// Position `b` follows `a` by a legal move of a game that was not over; when
/// `decisive`, `a` offered no move that decides the game.
pub open spec fn walk_step<G: Game>(a: G::Model, b: G::Model, decisive: bool) -> bool {
    &&& !G::over(a)
    &&& exists|m: G::Move| G::legal_moves(a).contains(m) && b == #[trigger] G::after(a, m)
    &&& decisive ==> no_decisive::<G>(a)
}

/// The positions a simulation passed through, each reached from the one
/// before by a step as in `walk_step`.
pub open spec fn walk<G: Game>(path: Seq<G::Model>, decisive: bool) -> bool {
    &&& path.len() >= 1
    &&& forall|k: int| 0 <= k < path.len() - 1 ==> #[trigger] walk_step::<G>(path[k], path[k + 1], decisive)
}

/// The policy takes a deciding move whenever one is offered.
pub open spec fn is_decisive(policy: RolloutPolicy) -> bool {
    match policy {
        RolloutPolicy::Decisive | RolloutPolicy::DecisiveQualityScaled
        | RolloutPolicy::DecisiveCutoff { .. } => true,
        _ => false,
    }
}

proof fn lemma_walk_extend<G: Game>(path: Seq<G::Model>, next: G::Model, decisive: bool)
    requires
        walk::<G>(path, decisive),
        walk_step::<G>(path.last(), next, decisive),
    ensures
        walk::<G>(path.push(next), decisive),
        path.push(next)[0] == path[0],
        path.push(next).last() == next,
{
    let longer = path.push(next);
    assert forall|k: int| 0 <= k < longer.len() - 1 implies #[trigger] walk_step::<G>(longer[k], longer[k + 1], decisive) by {
        if k < path.len() - 1 {
            assert(longer[k] == path[k] && longer[k + 1] == path[k + 1]);
        } else {
            assert(longer[k] == path.last());
        }
    }
}

/// The first legal move from `s`, in generation order, that ends the game
/// with a win or a loss decides it, and `r` is that result in fixed point.
pub open spec fn decisive_at<G: Game>(s: G::Model, r: int) -> bool {
    exists|k: int|
        0 <= k < G::legal_moves(s).len() && #[trigger] first_decisive::<G>(s, k) && r == G::result(
            G::after(s, G::legal_moves(s)[k]),
        ) * Q_ONE
}

/// As `decisive_at`, with the outcome shrunk for a simulation of `n` moves.
pub open spec fn decisive_scaled_at<G: Game>(s: G::Model, r: int, n: nat) -> bool {
    exists|k: int|
        0 <= k < G::legal_moves(s).len() && #[trigger] first_decisive::<G>(s, k) && r == scaled(
            G::result(G::after(s, G::legal_moves(s)[k])) as int,
            n,
        )
}

/// The `k`-th legal move from `s` decides the game, and no earlier one does.
pub open spec fn first_decisive<G: Game>(s: G::Model, k: int) -> bool {
    &&& G::result(G::after(s, G::legal_moves(s)[k])) != 0
    &&& forall|j: int| 0 <= j < k ==> #[trigger] G::result(G::after(s, G::legal_moves(s)[j])) == 0
}

/// What a simulation under a policy other than `MetaAggregated` that walked
/// through the positions `path` may return, `n` being the moves it played:
/// - `Random`: the game is over and `r` is its result;
/// - `Decisive`: that, or the result of the first move from the last position
///   that decides the game;
/// - the quality-scaled policies: the same, shrunk for the moves played, a
///   deciding move included;
/// - the cut-off policies, with `k` the cut-off: at most `k` moves; the result
///   if the game is over, otherwise `0` after exactly `k` moves (for
///   `DecisiveCutoff`, or a decisive result found within the first `k` moves).
pub open spec fn plain_outcome<G: Game>(policy: RolloutPolicy, path: Seq<G::Model>, r: int) -> bool {
    let end = path.last();
    let n = (path.len() - 1) as nat;
    match policy {
        RolloutPolicy::Random => walk::<G>(path, false) && G::over(end) && r == G::result(end) * Q_ONE,
        RolloutPolicy::Decisive => walk::<G>(path, true) && (G::over(end) && r == G::result(end) * Q_ONE
            || !G::over(end) && r != 0 && decisive_at::<G>(end, r)),
        RolloutPolicy::RandomQualityScaled => walk::<G>(path, false) && G::over(end) && r == scaled(
            G::result(end) as int,
            n,
        ),
        RolloutPolicy::DecisiveQualityScaled => walk::<G>(path, true) && (G::over(end) && r == scaled(
            G::result(end) as int,
            n,
        ) || !G::over(end) && decisive_scaled_at::<G>(end, r, n + 1)),
        RolloutPolicy::RandomCutoff { moves } => walk::<G>(path, false) && n <= moves && if G::over(end) {
            r == G::result(end) * Q_ONE
        } else {
            r == 0 && n == moves
        },
        RolloutPolicy::DecisiveCutoff { moves } => walk::<G>(path, true) && n <= moves && if G::over(end) {
            r == G::result(end) * Q_ONE
        } else {
            r == 0 && n == moves || r != 0 && n < moves && decisive_at::<G>(end, r)
        },
        RolloutPolicy::MetaAggregated { .. } => false,
    }
}

/// What a simulation under `policy` from position `start`, stopping in `end`,
/// may return; a meta-aggregated one leaves the position as it was and
/// returns the mean of simulations under its inner policy, each from `start`.
pub open spec fn policy_outcome<G: Game>(policy: RolloutPolicy, start: G::Model, end: G::Model, r: int) -> bool {
    match policy {
        RolloutPolicy::MetaAggregated { policy: inner, rollouts } => {
            &&& end == start
            &&& exists|outs: Seq<int>, paths: Seq<Seq<G::Model>>|
                {
                    &&& outs.len() == rollouts
                    &&& paths.len() == rollouts
                    &&& forall|k: int|
                        0 <= k < rollouts ==> #[trigger] plain_outcome::<G>(*inner, paths[k], outs[k])
                            && paths[k][0] == start
                    &&& r == outcome_mean(outs)
                }
        },
        _ => exists|path: Seq<G::Model>|
            #[trigger] plain_outcome::<G>(policy, path, r) && path[0] == start && path.last() == end,
    }
}

/// The sum of a sequence of outcomes.
pub open spec fn outcome_sum(outs: Seq<int>) -> int
    decreases outs.len(),
{
    if outs.len() == 0 {
        0
    } else {
        outcome_sum(outs.drop_last()) + outs.last()
    }
}

/// The mean of outcomes in `[-Q_ONE, Q_ONE]`, rounded down.
pub open spec fn outcome_mean(outs: Seq<int>) -> int {
    (outcome_sum(outs) + outs.len() * Q_ONE) / (outs.len() as int) - Q_ONE
}

/// The sign of `q`.
pub open spec fn sign(q: int) -> int {
    if q > 0 {
        1
    } else if q < 0 {
        -1
    } else {
        0
    }
}

/// The result of the game after the first legal move, in generation order,
/// that decides it; a move that ends the game in a draw decides nothing.
pub fn decisive_result<G: Game>(state: &G, moves: &Vec<G::Move>) -> (r: i8)
    requires
        G::valid(state.model()),
        moves@ == G::legal_moves(state.model()),
    ensures
        -1 <= r <= 1,
        r != 0 ==> decisive_at::<G>(state.model(), r * Q_ONE),
        r == 0 ==> no_decisive::<G>(state.model()),
{
    let mut k: usize = 0;
    while k < moves.len()
        invariant
            G::valid(state.model()),
            moves@ == G::legal_moves(state.model()),
            k <= moves@.len(),
            forall|j: int| 0 <= j < k ==> #[trigger] G::result(G::after(state.model(), moves@[j])) == 0,
        decreases moves@.len() - k,
    {
        let mut copy = state.snapshot();
        copy.push(moves[k]);
        let e = copy.evaluate();
        if e != 0 {
            assert(first_decisive::<G>(state.model(), k as int));
            return e;
        }
        k = k + 1;
    }
    0
}

/// Plays random moves until the game is over; returns the result.
pub fn random_rollout<G: Game>(state: &mut G, rng: &mut fastrand::Rng) -> (r: i64)
    requires
        G::valid(old(state).model()),
    ensures
        G::valid(final(state).model()),
        G::over(final(state).model()),
        r == G::result(final(state).model()) * Q_ONE,
        r == Q_ONE || r == 0 || r == -Q_ONE,
        G::over(old(state).model()) ==> final(state).model() == old(state).model(),
        exists|path: Seq<G::Model>|
            #[trigger] walk::<G>(path, false) && path[0] == old(state).model() && path.last() == final(state).model(),
{
    random_rollout_cutoff(state, rng, 0, false).0
}

/// Plays until the game is over, taking a winning move whenever one exists;
/// returns the result.
pub fn decisive_rollout<G: Game>(state: &mut G, rng: &mut fastrand::Rng) -> (r: i64)
    requires
        G::valid(old(state).model()),
    ensures
        G::valid(final(state).model()),
        r == Q_ONE || r == 0 || r == -Q_ONE,
        G::over(old(state).model()) ==> r == G::result(old(state).model()) * Q_ONE
            && final(state).model() == old(state).model(),
        G::over(final(state).model()) ==> r == G::result(final(state).model()) * Q_ONE,
        !G::over(final(state).model()) ==> r != 0 && decisive_at::<G>(final(state).model(), r as int),
        exists|path: Seq<G::Model>|
            #[trigger] walk::<G>(path, true) && path[0] == old(state).model() && path.last() == final(state).model(),
{
    decisive_rollout_counted(state, rng, 0, false).0
}

/// The decisive rollout; when `bounded`, it stops with a draw once `limit`
/// moves have been played. Also returns the number of moves played, counting
/// a deciding move: one less than the positions walked through, or as many
/// when a deciding move ended the simulation.
pub fn decisive_rollout_counted<G: Game>(
    state: &mut G,
    rng: &mut fastrand::Rng,
    limit: usize,
    bounded: bool,
) -> (r: (i64, usize))
    requires
        G::valid(old(state).model()),
    ensures
        G::valid(final(state).model()),
        r.0 == Q_ONE || r.0 == 0 || r.0 == -Q_ONE,
        bounded ==> r.1 <= limit,
        G::over(old(state).model()) ==> r.0 == G::result(old(state).model()) * Q_ONE && r.1 == 0
            && final(state).model() == old(state).model(),
        G::over(final(state).model()) ==> r.0 == G::result(final(state).model()) * Q_ONE,
        !G::over(final(state).model()) ==> r.0 != 0 && decisive_at::<G>(final(state).model(), r.0 as int)
            && (bounded ==> r.1 <= limit) || r.0 == 0 && bounded && r.1 == limit,
        exists|path: Seq<G::Model>|
            #[trigger] walk::<G>(path, true) && path[0] == old(state).model() && path.last() == final(state).model()
                && path.len() == (if !G::over(final(state).model()) && r.0 != 0 {
                r.1 as int
            } else {
                r.1 + 1
            }),
{
    let mut played: usize = 0;
    let ghost mut path: Seq<G::Model> = Seq::empty().push(state.model());
    proof {
        G::lemma_moves_left_bound(state.model());
    }
    while !state.is_terminal()
        invariant
            G::valid(state.model()),
            bounded ==> played <= limit,
            G::over(old(state).model()) ==> state.model() == old(state).model() && played == 0,
            walk::<G>(path, true),
            path[0] == old(state).model(),
            path.last() == state.model(),
            path.len() == played + 1,
            played + G::moves_left(state.model()) <= G::moves_left(old(state).model()),
            G::moves_left(old(state).model()) <= MAX_GAME_MOVES,
        decreases G::moves_left(state.model()),
    {
        if bounded && played >= limit {
            return (0, played);
        }
        let moves = state.generate_moves();
        let e = decisive_result(state, &moves);
        if e != 0 {
            return (e as i64 * Q_ONE, played + 1);
        }
        let i = draw_below(rng, moves.len());
        let m = moves[i];
        assert(G::legal_moves(state.model())[i as int] == m);
        let ghost prev = state.model();
        state.push(m);
        proof {
            assert(G::legal_moves(prev).contains(m));
            assert(walk_step::<G>(prev, state.model(), true));
            lemma_walk_extend::<G>(path, state.model(), true);
            path = path.push(state.model());
        }
        played = played + 1;
    }
    (state.evaluate() as i64 * Q_ONE, played)
}

/// Plays random moves until the game is over or, when `bounded`, until
/// `limit` moves have been played, which scores a draw. Also returns the
/// number of moves played: one less than the positions walked through.
pub fn random_rollout_cutoff<G: Game>(
    state: &mut G,
    rng: &mut fastrand::Rng,
    limit: usize,
    bounded: bool,
) -> (r: (i64, usize))
    requires
        G::valid(old(state).model()),
    ensures
        G::valid(final(state).model()),
        r.0 == Q_ONE || r.0 == 0 || r.0 == -Q_ONE,
        bounded ==> r.1 <= limit,
        G::over(old(state).model()) ==> r.0 == G::result(old(state).model()) * Q_ONE && r.1 == 0
            && final(state).model() == old(state).model(),
        G::over(final(state).model()) ==> r.0 == G::result(final(state).model()) * Q_ONE,
        !G::over(final(state).model()) ==> r.0 == 0 && bounded && r.1 == limit,
        exists|path: Seq<G::Model>|
            #[trigger] walk::<G>(path, false) && path[0] == old(state).model() && path.last() == final(state).model()
                && path.len() == r.1 + 1,
{
    let mut played: usize = 0;
    let ghost mut path: Seq<G::Model> = Seq::empty().push(state.model());
    proof {
        G::lemma_moves_left_bound(state.model());
    }
    while !state.is_terminal()
        invariant
            G::valid(state.model()),
            bounded ==> played <= limit,
            G::over(old(state).model()) ==> state.model() == old(state).model() && played == 0,
            walk::<G>(path, false),
            path[0] == old(state).model(),
            path.last() == state.model(),
            path.len() == played + 1,
            played + G::moves_left(state.model()) <= G::moves_left(old(state).model()),
            G::moves_left(old(state).model()) <= MAX_GAME_MOVES,
        decreases G::moves_left(state.model()),
    {
        if bounded && played >= limit {
            return (0, played);
        }
        push_random(state, rng);
        proof {
            lemma_walk_extend::<G>(path, state.model(), false);
            path = path.push(state.model());
        }
        played = played + 1;
    }
    (state.evaluate() as i64 * Q_ONE, played)
}

/// Runs one simulation of a base policy or a cut-off one.
fn single_rollout<G: Game>(policy: &RolloutPolicy, state: &mut G, rng: &mut fastrand::Rng) -> (r: i64)
    requires
        G::valid(old(state).model()),
        !(policy is MetaAggregated),
    ensures
        G::valid(final(state).model()),
        -Q_ONE <= r <= Q_ONE,
        G::over(old(state).model()) ==> r == G::result(old(state).model()) * Q_ONE,
        exists|path: Seq<G::Model>|
            #[trigger] plain_outcome::<G>(*policy, path, r as int) && path[0] == old(state).model()
                && path.last() == final(state).model(),
{
    let ghost start = state.model();
    match policy {
        RolloutPolicy::Random => {
            let r = random_rollout(state, rng);
            proof {
                let path = choose|path: Seq<G::Model>|
                    #[trigger] walk::<G>(path, false) && path[0] == start && path.last() == state.model();
                assert(plain_outcome::<G>(*policy, path, r as int));
            }
            r
        },
        RolloutPolicy::Decisive => {
            let r = decisive_rollout(state, rng);
            proof {
                let path = choose|path: Seq<G::Model>|
                    #[trigger] walk::<G>(path, true) && path[0] == start && path.last() == state.model();
                assert(plain_outcome::<G>(*policy, path, r as int));
            }
            r
        },
        RolloutPolicy::RandomQualityScaled => {
            let (q, n) = random_rollout_cutoff(state, rng, 0, false);
            let r = quality_scale(q, n);
            proof {
                let path = choose|path: Seq<G::Model>|
                    #[trigger] walk::<G>(path, false) && path[0] == start && path.last() == state.model()
                        && path.len() == n + 1;
                assert(sign(q as int) == G::result(state.model()));
                assert(plain_outcome::<G>(*policy, path, r as int));
            }
            r
        },
        RolloutPolicy::DecisiveQualityScaled => {
            let (q, n) = decisive_rollout_counted(state, rng, 0, false);
            let r = quality_scale(q, n);
            proof {
                let s = state.model();
                let path = choose|path: Seq<G::Model>|
                    #[trigger] walk::<G>(path, true) && path[0] == start && path.last() == s && path.len() == (
                    if !G::over(s) && q != 0 {
                        n as int
                    } else {
                        n + 1
                    });
                if G::over(s) {
                    assert(sign(q as int) == G::result(s));
                } else {
                    let k = choose|k: int|
                        0 <= k < G::legal_moves(s).len() && #[trigger] first_decisive::<G>(s, k) && q
                            == G::result(G::after(s, G::legal_moves(s)[k])) * Q_ONE;
                    let e = G::result(G::after(s, G::legal_moves(s)[k]));
                    assert(sign(q as int) == e);
                    assert(decisive_scaled_at::<G>(s, r as int, n as nat));
                }
                assert(plain_outcome::<G>(*policy, path, r as int));
            }
            r
        },
        RolloutPolicy::RandomCutoff { moves } => {
            let (q, n) = random_rollout_cutoff(state, rng, *moves, true);
            proof {
                let path = choose|path: Seq<G::Model>|
                    #[trigger] walk::<G>(path, false) && path[0] == start && path.last() == state.model()
                        && path.len() == n + 1;
                assert(plain_outcome::<G>(*policy, path, q as int));
            }
            q
        },
        RolloutPolicy::DecisiveCutoff { moves } => {
            let (q, n) = decisive_rollout_counted(state, rng, *moves, true);
            proof {
                let s = state.model();
                let path = choose|path: Seq<G::Model>|
                    #[trigger] walk::<G>(path, true) && path[0] == start && path.last() == s && path.len() == (
                    if !G::over(s) && q != 0 {
                        n as int
                    } else {
                        n + 1
                    });
                assert(plain_outcome::<G>(*policy, path, q as int));
            }
            q
        },
        // Ruled out by the precondition.
        RolloutPolicy::MetaAggregated { .. } => 0,
    }
}

/// The outcome `q`, one of `-Q_ONE`, `0` and `Q_ONE`, shrunk for a simulation
/// of `moves` moves: `scaled(sign(q), moves)`.
pub fn quality_scale(q: i64, moves: usize) -> (r: i64)
    requires
        q == Q_ONE || q == 0 || q == -Q_ONE,
    ensures
        r == scaled(sign(q as int), moves as nat),
        -Q_ONE <= r <= Q_ONE,
        moves == 0 ==> r == q,
{
    let d = decay_factor(moves);
    if q > 0 {
        assert(scaled(1, moves as nat) == d);
        d
    } else if q < 0 {
        assert(scaled(-1, moves as nat) == -d);
        -d
    } else {
        assert(scaled(0, moves as nat) == 0);
        0
    }
}

/// Runs the simulation that `policy` prescribes from `state` and returns its
/// outcome in `[-Q_ONE, Q_ONE]`; a state that is over gives its result.
/// A meta-aggregated policy leaves `state` as it was and returns the mean of
/// its inner simulations, each run on a copy.
pub fn simulate<G: Game>(policy: &RolloutPolicy, state: &mut G, rng: &mut fastrand::Rng) -> (r: i64)
    requires
        G::valid(old(state).model()),
        policy.runnable(),
    ensures
        G::valid(final(state).model()),
        -Q_ONE <= r <= Q_ONE,
        G::over(old(state).model()) ==> r == G::result(old(state).model()) * Q_ONE,
        policy_outcome::<G>(*policy, old(state).model(), final(state).model(), r as int),
{
    match policy {
        RolloutPolicy::MetaAggregated { policy: inner, rollouts } => {
            let n = *rollouts;
            let mut sum: i128 = 0;
            let mut k: usize = 0;
            let ghost mut outs: Seq<int> = Seq::empty();
            let ghost mut paths: Seq<Seq<G::Model>> = Seq::empty();
            while k < n
                invariant
                    G::valid(state.model()),
                    k <= n,
                    n >= 1,
                    !(**inner is MetaAggregated),
                    -(k as int) * Q_ONE <= sum <= k * Q_ONE,
                    G::over(state.model()) ==> sum == k * (G::result(state.model()) * Q_ONE),
                    state.model() == old(state).model(),
                    outs.len() == k,
                    paths.len() == k,
                    sum == outcome_sum(outs),
                    forall|j: int|
                        0 <= j < k ==> #[trigger] plain_outcome::<G>(**inner, paths[j], outs[j])
                            && paths[j][0] == old(state).model(),
                decreases n - k,
            {
                let mut copy = state.snapshot();
                let q = single_rollout(&**inner, &mut copy, rng);
                proof {
                    if G::over(state.model()) {
                        let e = G::result(state.model()) * Q_ONE;
                        assert(sum + q == (k + 1) * e) by (nonlinear_arith)
                            requires sum == k * e, q == e;
                    }
                    let path = choose|path: Seq<G::Model>|
                        #[trigger] plain_outcome::<G>(**inner, path, q as int) && path[0] == state.model()
                            && path.last() == copy.model();
                    let prev = outs;
                    let prev_paths = paths;
                    outs = outs.push(q as int);
                    paths = paths.push(path);
                    assert(outs.drop_last() =~= prev);
                    assert forall|j: int| 0 <= j < k + 1 implies #[trigger] plain_outcome::<G>(**inner, paths[j], outs[j])
                        && paths[j][0] == old(state).model() by {
                        if j < k {
                            assert(paths[j] == prev_paths[j] && outs[j] == prev[j]);
                        }
                    }
                }
                sum = sum + q as i128;
                k = k + 1;
            }
            let shifted = sum + n as i128 * Q_ONE as i128;
            let mean = shifted / n as i128 - Q_ONE as i128;
            proof {
                let s = shifted as int;
                let nn = n as int;
                assert(0 <= s <= 2 * nn * Q_ONE) by (nonlinear_arith)
                    requires -(nn) * Q_ONE <= sum <= nn * Q_ONE, s == sum + nn * Q_ONE;
                assert(0 <= s / nn <= 2 * Q_ONE) by (nonlinear_arith)
                    requires 0 <= s <= 2 * nn * Q_ONE, nn >= 1;
                if G::over(state.model()) {
                    let e = G::result(state.model()) * Q_ONE;
                    assert(s == nn * (e + Q_ONE)) by (nonlinear_arith)
                        requires sum == nn * e, s == sum + nn * Q_ONE;
                    assert(s / nn == e + Q_ONE) by (nonlinear_arith)
                        requires s == nn * (e + Q_ONE), nn >= 1;
                }
                assert(mean == outcome_mean(outs));
            }
            mean as i64
        },
        _ => single_rollout(policy, state, rng),
    }
}

} // verus!
