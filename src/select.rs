//! The child-selection rules, in fixed point: a score is in units of
//! `1 / SCORE_ONE`.
use vstd::prelude::*;
use crate::fixed::{SCORE_ONE, isqrt, ln_fixed, ln_fx};
use crate::game::MAX_WEIGHT;
use crate::tree::{LOSS_SENTINEL, VALUE_ONE};

verus! {

/// The rule that scores the children of a node during selection.
#[derive(Debug, Clone, Copy, PartialEq, Eq, Structural)]
pub enum Selection {
    /// Mean value plus `c * sqrt(ln N / n)`.
    Ucb1,
    /// Mean value plus a prior weighted by `ln((N + 2.8) / 1.8) * sqrt(N) / (n + 1)`.
    Puct,
}

/// The score of a child that was never visited: above every other score.
pub const UNVISITED: i128 = 1 << 100;

/// The largest exploration factor, in units of `1 / SCORE_ONE`.
pub const MAX_EXPLORATION: u64 = 1 << 32;

/// The integer square root.
pub open spec fn int_sqrt(x: nat) -> nat {
    choose|r: nat| is_sqrt(x, r)
}

/// `r` is the integer square root of `x`.
pub open spec fn is_sqrt(x: nat, r: nat) -> bool {
    r * r <= x && x < (r + 1) * (r + 1)
}

/// The mean value of a child, a win being `SCORE_ONE`.
pub open spec fn exploit(value: int, visits: int) -> int {
    value * SCORE_ONE / (visits * VALUE_ONE)
}

/// The UCB1 score of a child with `visits` visits and accumulated `value`
/// below a parent with `parent_visits` visits, with exploration factor `c`.
pub open spec fn ucb1_score(parent_visits: nat, value: int, visits: nat, c: nat) -> int {
    if visits == 0 {
        UNVISITED as int
    } else {
        let n = if parent_visits == 0 { 1 } else { parent_visits };
        let explore = int_sqrt((ln_fx(n) * SCORE_ONE / (visits as int)) as nat);
        exploit(value, visits as int) + (c * explore) as int / (SCORE_ONE as int)
    }
}

/// The PUCT score of a child whose prior is `weight / total`; when every
/// prior weight is zero, the prior term is zero.
pub open spec fn puct_score(parent_visits: nat, value: int, visits: nat, weight: nat, total: nat) -> int {
    if visits == 0 {
        UNVISITED as int
    } else {
        let log_part = ln_fx(5 * parent_visits + 14) - ln_fx(9);
        let root = int_sqrt((parent_visits * SCORE_ONE * SCORE_ONE) as nat);
        let pb_c = log_part * root / (SCORE_ONE * (visits + 1));
        (if total == 0 {
            0
        } else {
            pb_c * weight / (total as int)
        }) + exploit(value, visits as int)
    }
}

/// The first index of a largest element.
pub open spec fn first_max(s: Seq<int>) -> int
    decreases s.len(),
{
    if s.len() <= 1 {
        0
    } else {
        let m = first_max(s.drop_last());
        if s.last() > s[m] {
            s.len() - 1
        } else {
            m
        }
    }
}

/// The sum of `weights[k] * SCORE_ONE / total` over the first `n` weights:
/// the priors in fixed point.
pub open spec fn prior_sum(weights: Seq<u32>, total: int, n: int) -> int
    decreases n,
{
    if n <= 0 {
        0
    } else {
        prior_sum(weights, total, n - 1) + weights[n - 1] * SCORE_ONE / total
    }
}

/// The sum of the first `n` weights.
pub open spec fn weight_sum(weights: Seq<u32>, n: int) -> int
    decreases n,
{
    if n <= 0 {
        0
    } else {
        weight_sum(weights, n - 1) + weights[n - 1]
    }
}

/// Normalised by their sum, the priors add up to one: in fixed point, to
/// `SCORE_ONE` less under one unit per move lost to rounding.
pub proof fn lemma_priors_normalised(weights: Seq<u32>)
    requires
        weight_sum(weights, weights.len() as int) >= 1,
    ensures
        SCORE_ONE - weights.len() < prior_sum(
            weights,
            weight_sum(weights, weights.len() as int),
            weights.len() as int,
        ) <= SCORE_ONE,
{
    let t = weight_sum(weights, weights.len() as int);
    lemma_prior_sum_bounds(weights, t, weights.len() as int);
    let p = prior_sum(weights, t, weights.len() as int);
    assert(p <= SCORE_ONE) by (nonlinear_arith)
        requires t * p <= t * SCORE_ONE, t >= 1;
    assert(SCORE_ONE - weights.len() < p) by (nonlinear_arith)
        requires t * SCORE_ONE < t * (p + weights.len()), t >= 1;
}

proof fn lemma_prior_sum_bounds(weights: Seq<u32>, t: int, n: int)
    requires
        t >= 1,
        0 <= n <= weights.len(),
    ensures
        t * prior_sum(weights, t, n) <= weight_sum(weights, n) * SCORE_ONE,
        weight_sum(weights, n) * SCORE_ONE < t * (prior_sum(weights, t, n) + n) || n == 0,
    decreases n,
{
    if n > 0 {
        lemma_prior_sum_bounds(weights, t, n - 1);
        let a = weights[n - 1] * SCORE_ONE;
        let f = a / t;
        assert(t * f <= a < t * (f + 1)) by (nonlinear_arith)
            requires t >= 1, f == a / t;
        let ps = prior_sum(weights, t, n - 1);
        let ws = weight_sum(weights, n - 1);
        assert(t * (ps + f) == t * ps + t * f) by (nonlinear_arith);
        assert(t * (ps + f + n) == t * (ps + n - 1) + t * (f + 1)) by (nonlinear_arith);
        assert((ws + weights[n - 1]) * SCORE_ONE == ws * SCORE_ONE + a) by (nonlinear_arith)
            requires a == weights[n - 1] * SCORE_ONE;
        if n == 1 {
            assert(ps == 0 && ws == 0);
        }
    }
}

proof fn lemma_sqrt_unique(x: nat, r: nat)
    requires
        r * r <= x,
        x < (r + 1) * (r + 1),
    ensures
        int_sqrt(x) == r,
{
    assert(is_sqrt(x, r));
    let s = int_sqrt(x);
    assert(is_sqrt(x, s));
    if s < r {
        assert((s + 1) * (s + 1) <= r * r) by (nonlinear_arith)
            requires s < r;
    } else if r < s {
        assert((r + 1) * (r + 1) <= s * s) by (nonlinear_arith)
            requires r < s;
    }
}

/// `int_sqrt` computed.
pub fn int_sqrt_exec(x: u64) -> (r: u64)
    ensures
        r == int_sqrt(x as nat),
        r * r <= x,
{
    let r = isqrt(x);
    proof {
        lemma_sqrt_unique(x as nat, r as nat);
    }
    r
}

/// `exploit(value, visits)` computed.
pub fn exploit_exec(value: i64, visits: u32) -> (r: i128)
    requires
        visits > 0,
        LOSS_SENTINEL <= value <= visits * VALUE_ONE,
    ensures
        r == exploit(value as int, visits as int),
        -0x40_0000_0000_0000_0000 <= r <= SCORE_ONE,
{
    let d: i128 = visits as i128 * VALUE_ONE as i128;
    assert(d > 0) by (nonlinear_arith)
        requires d == visits * VALUE_ONE, visits > 0;
    assert(value * SCORE_ONE <= d * SCORE_ONE) by (nonlinear_arith)
        requires value <= d;
    assert((value * SCORE_ONE) / (d as int) <= SCORE_ONE) by (nonlinear_arith)
        requires value * SCORE_ONE <= d * SCORE_ONE, d > 0;
    assert((value * SCORE_ONE) / (d as int) >= -0x40_0000_0000_0000_0000) by (nonlinear_arith)
        requires value >= LOSS_SENTINEL, d > 0;
    assert(d <= u32::MAX * VALUE_ONE) by (nonlinear_arith)
        requires d == visits * VALUE_ONE, visits <= u32::MAX;
    if value >= 0 {
        assert(value * SCORE_ONE <= u32::MAX * VALUE_ONE * SCORE_ONE) by (nonlinear_arith)
            requires 0 <= value <= d, d <= u32::MAX * VALUE_ONE;
        let num: u128 = value as u128 * SCORE_ONE as u128;
        (num / d as u128) as i128
    } else {
        let num: u128 = (-(value as i128)) as u128 * SCORE_ONE as u128;
        let q = (num + d as u128 - 1) / d as u128;
        proof {
            let v = value as int;
            let n = num as int;
            let dd = d as int;
            assert(n == -v * SCORE_ONE);
            assert(-((n + dd - 1) / dd) == (v * SCORE_ONE) / dd) by (nonlinear_arith)
                requires n == -v * SCORE_ONE, dd > 0, n > 0;
        }
        -(q as i128)
    }
}

/// The UCB1 score `ucb1_score(parent_visits, value, visits, c)`.
pub fn ucb1_value(parent_visits: u32, value: i64, visits: u32, c: u64) -> (r: i128)
    requires
        LOSS_SENTINEL <= value <= visits * VALUE_ONE,
        c <= MAX_EXPLORATION,
    ensures
        r == ucb1_score(parent_visits as nat, value as int, visits as nat, c as nat),
{
    if visits == 0 {
        return UNVISITED;
    }
    let n: u64 = if parent_visits == 0 { 1 } else { parent_visits as u64 };
    let l = ln_fixed(n);
    proof {
        crate::fixed::lemma_ln_fx_bound(n as nat);
    }
    let explore = int_sqrt_exec(l * SCORE_ONE / visits as u64);
    proof {
        assert(explore * explore <= 64 * SCORE_ONE * SCORE_ONE);
        assert(explore <= 8 * SCORE_ONE) by (nonlinear_arith)
            requires explore * explore <= 64 * SCORE_ONE * SCORE_ONE;
    }
    assert(c * explore <= MAX_EXPLORATION * 8 * SCORE_ONE) by (nonlinear_arith)
        requires c <= MAX_EXPLORATION, explore <= 8 * SCORE_ONE;
    exploit_exec(value, visits) + (c as i128 * explore as i128) / SCORE_ONE as i128
}

/// The PUCT score `puct_score(parent_visits, value, visits, weight, total)`.
pub fn puct_value(parent_visits: u32, value: i64, visits: u32, weight: u32, total: u64) -> (r: i128)
    requires
        LOSS_SENTINEL <= value <= visits * VALUE_ONE,
        weight <= MAX_WEIGHT,
    ensures
        r == puct_score(parent_visits as nat, value as int, visits as nat, weight as nat, total as nat),
{
    if visits == 0 {
        return UNVISITED;
    }
    let a = ln_fixed(5 * parent_visits as u64 + 14);
    let b = ln_fixed(9);
    proof {
        crate::fixed::lemma_ln_fx_bound((5 * parent_visits + 14) as nat);
        crate::fixed::lemma_ln_fx_monotone(9, (5 * parent_visits + 14) as nat);
    }
    let root = int_sqrt_exec(parent_visits as u64 * SCORE_ONE * SCORE_ONE);
    proof {
        assert(root * root <= u32::MAX * SCORE_ONE * SCORE_ONE);
        assert(root <= 65536 * SCORE_ONE) by (nonlinear_arith)
            requires root * root <= u32::MAX * SCORE_ONE * SCORE_ONE;
    }
    assert((a - b) * root <= 64 * SCORE_ONE * 65536 * SCORE_ONE) by (nonlinear_arith)
        requires a - b <= 64 * SCORE_ONE, root <= 65536 * SCORE_ONE, a >= b;
    let pb_c = ((a - b) as i128 * root as i128) / (SCORE_ONE as i128 * (visits as i128 + 1));
    proof {
        assert(0 <= pb_c <= 64 * SCORE_ONE * 65536 * SCORE_ONE) by (nonlinear_arith)
            requires pb_c == ((a - b) * root) / (SCORE_ONE * (visits + 1)), (a - b) * root <= 64 * SCORE_ONE * 65536 * SCORE_ONE, a >= b, visits >= 1;
        assert(pb_c * weight <= 64 * SCORE_ONE * 65536 * SCORE_ONE * MAX_WEIGHT) by (nonlinear_arith)
            requires 0 <= pb_c <= 64 * SCORE_ONE * 65536 * SCORE_ONE, weight <= MAX_WEIGHT;
    }
    let prior = if total == 0 { 0 } else { pb_c * weight as i128 / total as i128 };
    assert(0 <= prior <= 64 * SCORE_ONE * 65536 * SCORE_ONE * MAX_WEIGHT) by (nonlinear_arith)
        requires 0 <= pb_c * weight <= 64 * SCORE_ONE * 65536 * SCORE_ONE * MAX_WEIGHT, total >= 1 ==> prior == pb_c * weight / (total as int), total == 0 ==> prior == 0;
    prior + exploit_exec(value, visits)
}

} // verus!
