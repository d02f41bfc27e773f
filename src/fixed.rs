//! Integer arithmetic used in place of floating point: square roots and
//! logarithms in fixed point.
use vstd::prelude::*;

verus! {

/// Largest `r` with `r * r <= x`.
pub fn isqrt(x: u64) -> (r: u64)
    ensures
        r * r <= x,
        x < (r + 1) * (r + 1),
{
    let mut lo: u64 = 0;
    let mut hi: u64 = 4294967296;
    assert(hi * hi > x) by (nonlinear_arith)
        requires hi == 4294967296u64, x <= u64::MAX;
    while hi - lo > 1
        invariant
            lo < hi,
            hi <= 4294967296,
            lo * lo <= x,
            x < hi * hi,
        decreases hi - lo,
    {
        let mid = lo + (hi - lo) / 2;
        assert(mid * mid <= 4294967296u64 * 4294967296u64) by (nonlinear_arith)
            requires mid <= 4294967296u64;
        if (mid as u128) * (mid as u128) <= x as u128 {
            lo = mid;
        } else {
            hi = mid;
        }
    }
    assert(hi == lo + 1);
    lo
}


/// The unit of fixed-point scores: `SCORE_ONE` stands for `1.0`.
pub const SCORE_ONE: u64 = 65536;

/// `ln 2` in units of `1 / SCORE_ONE`.
pub const LN2_FX: u64 = 45426;

/// The largest argument the fixed-point logarithm takes.
pub const LOG_ARG_MAX: u64 = 1_099_511_627_776;

/// `2` to the power `k`.
pub open spec fn two_to(k: nat) -> nat
    decreases k,
{
    if k == 0 {
        1
    } else {
        2 * two_to((k - 1) as nat)
    }
}

/// The integer part of the base-2 logarithm.
pub open spec fn floor_log2(n: nat) -> nat
    decreases n,
{
    if n < 2 {
        0
    } else {
        1 + floor_log2(n / 2)
    }
}

/// The base-2 logarithm of `n >= 1` in units of `1 / SCORE_ONE`, interpolated
/// linearly between consecutive powers of two.
pub open spec fn log2_fx(n: nat) -> int {
    let k = floor_log2(n);
    k * SCORE_ONE + (n - two_to(k)) * SCORE_ONE / (two_to(k) as int)
}

/// The natural logarithm of `n >= 1` in units of `1 / SCORE_ONE`.
pub open spec fn ln_fx(n: nat) -> int {
    log2_fx(n) * LN2_FX / (SCORE_ONE as int)
}

/// The integer part of `log2 n` and the power of two below `n`.
pub fn log2_floor(n: u64) -> (r: (u64, u64))
    requires
        n >= 1,
    ensures
        r.0 == floor_log2(n as nat),
        r.1 == two_to(r.0 as nat),
        1 <= r.1 <= n,
        n < 2 * r.1,
        r.0 < r.1,
{
    let mut m = n;
    let mut k: u64 = 0;
    let mut p: u64 = 1;
    while m >= 2
        invariant
            1 <= m,
            floor_log2(n as nat) == k + floor_log2(m as nat),
            p == two_to(k as nat),
            p * m <= n,
            n < p * (m + 1),
            1 <= p <= n,
            k < p,
        decreases m,
    {
        assert(p * 2 <= p * m) by (nonlinear_arith)
            requires m >= 2, p >= 1;
        assert(2 * p * (m / 2) <= p * m && p * (m + 1) <= 2 * p * (m / 2 + 1)) by (nonlinear_arith)
            requires m >= 2, p >= 1;
        m = m / 2;
        k = k + 1;
        p = p * 2;
    }
    assert(m == 1);
    assert(p * (m + 1) == 2 * p);
    (k, p)
}

/// The fixed-point base-2 logarithm `log2_fx(n)`.
pub fn log2_fixed(n: u64) -> (r: u64)
    requires
        1 <= n <= LOG_ARG_MAX,
    ensures
        r == log2_fx(n as nat),
        r <= 41 * SCORE_ONE,
{
    let (k, p) = log2_floor(n);
    assert(k <= 40) by {
        if k > 40 {
            reveal_with_fuel(two_to, 42);
            assert(two_to(41) == 0x200_0000_0000);
            lemma_two_to_monotone(41, k as nat);
        }
    }
    assert(((n - p) * SCORE_ONE) as int / (p as int) < SCORE_ONE as int) by (nonlinear_arith)
        requires n < 2 * p, p >= 1, n >= p;
    assert((n - p) * SCORE_ONE <= LOG_ARG_MAX * SCORE_ONE) by (nonlinear_arith)
        requires n <= LOG_ARG_MAX, n >= p;
    k as u64 * SCORE_ONE + (n - p) * SCORE_ONE / p
}

/// The fixed-point natural logarithm `ln_fx(n)`.
pub fn ln_fixed(n: u64) -> (r: u64)
    requires
        1 <= n <= LOG_ARG_MAX,
    ensures
        r == ln_fx(n as nat),
{
    let l = log2_fixed(n);
    l * LN2_FX / SCORE_ONE
}

/// The fixed-point logarithm stays below `64` for every argument it takes.
pub proof fn lemma_ln_fx_bound(n: nat)
    requires
        1 <= n <= LOG_ARG_MAX,
    ensures
        0 <= ln_fx(n) <= 64 * SCORE_ONE,
{
    lemma_log2_fx_bounds(n);
    let k = floor_log2(n);
    if k > 40 {
        reveal_with_fuel(two_to, 42);
        assert(two_to(41) == 0x200_0000_0000);
        lemma_two_to_monotone(41, k);
    }
    assert(log2_fx(n) <= 41 * SCORE_ONE);
    assert(0 <= log2_fx(n) * LN2_FX / (SCORE_ONE as int) <= 64 * SCORE_ONE) by (nonlinear_arith)
        requires 0 <= log2_fx(n) <= 41 * SCORE_ONE;
}

/// The fixed-point logarithm does not decrease.
pub proof fn lemma_ln_fx_monotone(a: nat, b: nat)
    requires
        1 <= a <= b,
    ensures
        ln_fx(a) <= ln_fx(b),
{
    lemma_log2_fx_monotone(a, b);
    assert(log2_fx(a) * LN2_FX <= log2_fx(b) * LN2_FX) by (nonlinear_arith)
        requires log2_fx(a) <= log2_fx(b);
    vstd::arithmetic::div_mod::lemma_div_is_ordered(log2_fx(a) * LN2_FX, log2_fx(b) * LN2_FX, SCORE_ONE as int);
}

proof fn lemma_log2_fx_bounds(n: nat)
    requires
        1 <= n,
    ensures
        floor_log2(n) * SCORE_ONE <= log2_fx(n) < (floor_log2(n) + 1) * SCORE_ONE,
        two_to(floor_log2(n)) <= n < 2 * two_to(floor_log2(n)),
{
    lemma_floor_log2(n);
    let k = floor_log2(n);
    let p = two_to(k);
    assert(0 <= (n - p) * SCORE_ONE / (p as int) < SCORE_ONE) by (nonlinear_arith)
        requires p <= n < 2 * p, p >= 1;
}

proof fn lemma_floor_log2(n: nat)
    requires
        1 <= n,
    ensures
        two_to(floor_log2(n)) <= n < 2 * two_to(floor_log2(n)),
    decreases n,
{
    if n >= 2 {
        lemma_floor_log2(n / 2);
    }
}

proof fn lemma_log2_fx_monotone(a: nat, b: nat)
    requires
        1 <= a <= b,
    ensures
        log2_fx(a) <= log2_fx(b),
{
    lemma_log2_fx_bounds(a);
    lemma_log2_fx_bounds(b);
    let ka = floor_log2(a);
    let kb = floor_log2(b);
    if ka < kb {
        lemma_two_to_monotone(ka + 1, kb);
        assert(two_to(ka + 1) == 2 * two_to(ka));
    } else if ka == kb {
        let p = two_to(ka) as int;
        assert((a - p) * SCORE_ONE <= (b - p) * SCORE_ONE) by (nonlinear_arith)
            requires a <= b;
        vstd::arithmetic::div_mod::lemma_div_is_ordered((a - p) * SCORE_ONE, (b - p) * SCORE_ONE, p);
    } else {
        lemma_two_to_monotone(kb + 1, ka);
        assert(two_to(kb + 1) == 2 * two_to(kb));
    }
}

proof fn lemma_two_to_monotone(a: nat, b: nat)
    requires
        a <= b,
    ensures
        two_to(a) <= two_to(b),
    decreases b,
{
    if a < b {
        lemma_two_to_monotone(a, (b - 1) as nat);
    }
}

} // verus!
