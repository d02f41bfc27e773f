//! Reading a search configuration from text such as
//! `limit=rollouts:50,rollout_policy=random_cutoff.10`.
use vstd::prelude::*;
use vstd::string::StringSliceAdditionalSpecFns;
use crate::mcts::{Behaviour, DEFAULT_EXP_FACTOR, Limit};
use crate::rollout::RolloutPolicy;
use crate::select::Selection;

verus! {

/// `random`
pub const RANDOM: [u8; 6] = [114u8, 97, 110, 100, 111, 109];

/// `decisive`
pub const DECISIVE: [u8; 8] = [100u8, 101, 99, 105, 115, 105, 118, 101];

/// `random_quality_scaled`
pub const RANDOM_QS: [u8; 21] = [114u8, 97, 110, 100, 111, 109, 95, 113, 117, 97, 108, 105, 116, 121, 95, 115, 99, 97, 108, 101, 100];

/// `decisive_quality_scaled`
pub const DECISIVE_QS: [u8; 23] = [100u8, 101, 99, 105, 115, 105, 118, 101, 95, 113, 117, 97, 108, 105, 116, 121, 95, 115, 99, 97, 108, 101, 100];

/// `random_cutoff`
pub const RANDOM_CUTOFF: [u8; 13] = [114u8, 97, 110, 100, 111, 109, 95, 99, 117, 116, 111, 102, 102];

/// `decisive_cutoff`
pub const DECISIVE_CUTOFF: [u8; 15] = [100u8, 101, 99, 105, 115, 105, 118, 101, 95, 99, 117, 116, 111, 102, 102];

/// `meta_aggregated`
pub const META_AGGREGATED: [u8; 15] = [109u8, 101, 116, 97, 95, 97, 103, 103, 114, 101, 103, 97, 116, 101, 100];

/// `limit`
pub const KEY_LIMIT: [u8; 5] = [108u8, 105, 109, 105, 116];

/// `rollout_policy`
pub const KEY_ROLLOUT_POLICY: [u8; 14] = [114u8, 111, 108, 108, 111, 117, 116, 95, 112, 111, 108, 105, 99, 121];

/// `rollouts`
pub const KIND_ROLLOUTS: [u8; 8] = [114u8, 111, 108, 108, 111, 117, 116, 115];

/// `time`
pub const KIND_TIME: [u8; 4] = [116u8, 105, 109, 101];

/// `,`
pub const COMMA: u8 = 44;

/// `=`
pub const EQUALS: u8 = 61;

/// `:`
pub const COLON: u8 = 58;

/// `.`
pub const DOT: u8 = 46;

/// `+`
pub const PLUS: u8 = 43;

/// Why a configuration text was refused.
#[derive(Debug, Clone, Copy, PartialEq, Eq, Structural)]
pub enum ConfigError {
    /// The text is not of the form `limit=...,rollout_policy=...`.
    Layout,
    /// The limit is neither `rollouts:<count>` nor `time:<milliseconds>`.
    Limit,
    /// The rollout policy is not one that can be named.
    Policy,
}

impl ConfigError {
    /// A description of the error.
    pub fn message(&self) -> &'static str {
        match self {
            ConfigError::Layout => "expected limit=<limit>,rollout_policy=<policy>",
            ConfigError::Limit => "expected a limit of rollouts:<count> or time:<milliseconds>",
            ConfigError::Policy => "unknown rollout policy",
        }
    }
}

/// The index of the first `c` in `b`, or `-1`.
pub open spec fn find(b: Seq<u8>, c: u8) -> int
    decreases b.len(),
{
    if b.len() == 0 {
        -1
    } else if b[0] == c {
        0
    } else {
        let r = find(b.drop_first(), c);
        if r < 0 {
            -1
        } else {
            r + 1
        }
    }
}

/// What precedes the first `c` in `b`.
pub open spec fn head(b: Seq<u8>, c: u8) -> Seq<u8> {
    b.subrange(0, find(b, c))
}

/// What follows the first `c` in `b`.
pub open spec fn tail(b: Seq<u8>, c: u8) -> Seq<u8> {
    b.subrange(find(b, c) + 1, b.len() as int)
}

/// Every byte of `b` is a decimal digit.
pub open spec fn all_digits(b: Seq<u8>) -> bool {
    forall|j: int| 0 <= j < b.len() ==> 48 <= #[trigger] b[j] <= 57
}

/// The number that the decimal digits `b` write.
pub open spec fn digits_value(b: Seq<u8>) -> nat
    decreases b.len(),
{
    if b.len() == 0 {
        0
    } else {
        digits_value(b.drop_last()) * 10 + (b.last() - 48) as nat
    }
}

/// An unsigned integer no larger than `max`, written in decimal with an
/// optional leading `+`, as Rust's integer parsing reads it.
pub open spec fn uint_spec(b: Seq<u8>, max: nat) -> Option<nat> {
    let d = if b.len() > 0 && b[0] == PLUS {
        b.drop_first()
    } else {
        b
    };
    if d.len() > 0 && all_digits(d) && digits_value(d) <= max {
        Some(digits_value(d))
    } else {
        None
    }
}

/// One of the four policies that can be repeated, by name.
pub open spec fn base_policy_spec(b: Seq<u8>) -> Option<RolloutPolicy> {
    if b == RANDOM@ {
        Some(RolloutPolicy::Random)
    } else if b == DECISIVE@ {
        Some(RolloutPolicy::Decisive)
    } else if b == RANDOM_QS@ {
        Some(RolloutPolicy::RandomQualityScaled)
    } else if b == DECISIVE_QS@ {
        Some(RolloutPolicy::DecisiveQualityScaled)
    } else {
        None
    }
}

/// A rollout policy by name: a base policy; `random_cutoff.<moves>` or
/// `decisive_cutoff.<moves>`; or `meta_aggregated.<base policy>.<count>`.
/// The name before the first dot must be one of these exactly.
pub open spec fn policy_spec(b: Seq<u8>) -> Option<RolloutPolicy> {
    if base_policy_spec(b) is Some {
        base_policy_spec(b)
    } else if find(b, DOT) < 0 {
        None
    } else if head(b, DOT) == RANDOM_CUTOFF@ || head(b, DOT) == DECISIVE_CUTOFF@ {
        match uint_spec(tail(b, DOT), usize::MAX as nat) {
            Some(n) => if head(b, DOT) == RANDOM_CUTOFF@ {
                Some(RolloutPolicy::RandomCutoff { moves: n as usize })
            } else {
                Some(RolloutPolicy::DecisiveCutoff { moves: n as usize })
            },
            None => None,
        }
    } else if head(b, DOT) == META_AGGREGATED@ {
        let rest = tail(b, DOT);
        if find(rest, DOT) < 0 {
            None
        } else {
            match (base_policy_spec(head(rest, DOT)), uint_spec(tail(rest, DOT), usize::MAX as nat)) {
                (Some(p), Some(n)) => Some(
                    RolloutPolicy::MetaAggregated { policy: Box::new(p), rollouts: n as usize },
                ),
                _ => None,
            }
        }
    } else {
        None
    }
}

/// A limit: `rollouts:<count>` or `time:<milliseconds>`.
pub open spec fn limit_spec(b: Seq<u8>) -> Option<Limit> {
    if find(b, COLON) < 0 {
        None
    } else if head(b, COLON) == KIND_ROLLOUTS@ {
        match uint_spec(tail(b, COLON), u32::MAX as nat) {
            Some(n) => Some(Limit::Rollouts(n as u32)),
            None => None,
        }
    } else if head(b, COLON) == KIND_TIME@ {
        match uint_spec(tail(b, COLON), u64::MAX as nat) {
            Some(n) => Some(Limit::Time(n as u64)),
            None => None,
        }
    } else {
        None
    }
}

/// The text `b` has the form `limit=<limit>,rollout_policy=<policy>`.
pub open spec fn layout_ok(b: Seq<u8>) -> bool {
    let l = head(b, COMMA);
    let p = tail(b, COMMA);
    &&& find(b, COMMA) >= 0
    &&& find(l, EQUALS) >= 0
    &&& find(p, EQUALS) >= 0
    &&& head(l, EQUALS) == KEY_LIMIT@
    &&& head(p, EQUALS) == KEY_ROLLOUT_POLICY@
}

/// The limit and the rollout policy that the text `b` names.
pub open spec fn behaviour_spec(b: Seq<u8>) -> Option<(Limit, RolloutPolicy)> {
    if !layout_ok(b) {
        None
    } else {
        match (
            limit_spec(tail(head(b, COMMA), EQUALS)),
            policy_spec(tail(tail(b, COMMA), EQUALS)),
        ) {
            (Some(l), Some(p)) => Some((l, p)),
            _ => None,
        }
    }
}

proof fn lemma_find_at(s: Seq<u8>, c: u8, k: int)
    requires
        0 <= k < s.len(),
        s[k] == c,
        forall|j: int| 0 <= j < k ==> s[j] != c,
    ensures
        find(s, c) == k,
    decreases k,
{
    if k > 0 {
        let t = s.drop_first();
        assert forall|j: int| 0 <= j < k - 1 implies t[j] != c by {
            assert(t[j] == s[j + 1]);
        }
        lemma_find_at(t, c, k - 1);
    }
}

proof fn lemma_find_none(s: Seq<u8>, c: u8)
    requires
        forall|j: int| 0 <= j < s.len() ==> s[j] != c,
    ensures
        find(s, c) == -1,
    decreases s.len(),
{
    if s.len() > 0 {
        let t = s.drop_first();
        assert forall|j: int| 0 <= j < t.len() implies t[j] != c by {
            assert(t[j] == s[j + 1]);
        }
        lemma_find_none(t, c);
    }
}

proof fn lemma_find_range(s: Seq<u8>, c: u8)
    ensures
        -1 <= find(s, c) < s.len(),
        find(s, c) >= 0 ==> s[find(s, c)] == c,
    decreases s.len(),
{
    if s.len() > 0 && s[0] != c {
        lemma_find_range(s.drop_first(), c);
    }
}

proof fn lemma_digits_prefix(d: Seq<u8>, j: int)
    requires
        all_digits(d),
        0 <= j <= d.len(),
    ensures
        digits_value(d.subrange(0, j)) <= digits_value(d),
    decreases d.len() - j,
{
    if j < d.len() {
        lemma_digits_prefix(d, j + 1);
        let p = d.subrange(0, j + 1);
        assert(p.drop_last() =~= d.subrange(0, j));
        assert(48 <= d[j] <= 57);
    } else {
        assert(d.subrange(0, j) =~= d);
    }
}

/// The position of the first `c` in `b[lo..hi]`.
fn find_in(b: &[u8], lo: usize, hi: usize, c: u8) -> (r: Option<usize>)
    requires
        lo <= hi <= b@.len(),
    ensures
        match r {
            Some(i) => lo <= i < hi && find(b@.subrange(lo as int, hi as int), c) == i - lo,
            None => find(b@.subrange(lo as int, hi as int), c) == -1,
        },
{
    let ghost s = b@.subrange(lo as int, hi as int);
    let mut i = lo;
    while i < hi
        invariant
            lo <= i <= hi <= b@.len(),
            s == b@.subrange(lo as int, hi as int),
            forall|j: int| 0 <= j < i - lo ==> s[j] != c,
        decreases hi - i,
    {
        if b[i] == c {
            proof {
                lemma_find_at(s, c, i - lo);
            }
            return Some(i);
        }
        i = i + 1;
    }
    proof {
        lemma_find_none(s, c);
    }
    None
}

/// Whether `b[lo..hi]` is `lit`.
fn equals_in(b: &[u8], lo: usize, hi: usize, lit: &[u8]) -> (r: bool)
    requires
        lo <= hi <= b@.len(),
    ensures
        r == (b@.subrange(lo as int, hi as int) == lit@),
{
    if hi - lo != lit.len() {
        return false;
    }
    let mut i: usize = 0;
    while i < lit.len()
        invariant
            lo <= hi <= b@.len(),
            hi - lo == lit@.len(),
            i <= lit@.len(),
            forall|j: int| 0 <= j < i ==> b@[lo + j] == lit@[j],
        decreases lit@.len() - i,
    {
        if b[lo + i] != lit[i] {
            assert(b@.subrange(lo as int, hi as int)[i as int] != lit@[i as int]);
            return false;
        }
        i = i + 1;
    }
    assert(b@.subrange(lo as int, hi as int) =~= lit@);
    true
}

/// The unsigned integer of at most `max` that `b[lo..hi]` writes.
fn uint_in(b: &[u8], lo: usize, hi: usize, max: u64) -> (r: Option<u64>)
    requires
        lo <= hi <= b@.len(),
    ensures
        match uint_spec(b@.subrange(lo as int, hi as int), max as nat) {
            Some(n) => r == Some(n as u64),
            None => r is None,
        },
{
    let ghost s = b@.subrange(lo as int, hi as int);
    let start = if lo < hi && b[lo] == PLUS { lo + 1 } else { lo };
    let ghost d = b@.subrange(start as int, hi as int);
    assert(d =~= (if s.len() > 0 && s[0] == PLUS { s.drop_first() } else { s }));
    if start == hi {
        return None;
    }
    let mut acc: u64 = 0;
    let mut i = start;
    while i < hi
        invariant
            start <= i <= hi <= b@.len(),
            start < hi,
            d == b@.subrange(start as int, hi as int),
            s == b@.subrange(lo as int, hi as int),
            d == (if s.len() > 0 && s[0] == PLUS { s.drop_first() } else { s }),
            all_digits(d.subrange(0, i - start)),
            acc == digits_value(d.subrange(0, i - start)),
            acc <= max,
        decreases hi - i,
    {
        let c = b[i];
        if c < 48 || c > 57 {
            assert(d[i - start] == c);
            return None;
        }
        let next: u128 = acc as u128 * 10 + (c - 48) as u128;
        proof {
            let p = d.subrange(0, i - start + 1);
            assert(p.drop_last() =~= d.subrange(0, i - start));
            assert(p.last() == c);
            assert(all_digits(p));
        }
        if next > max as u128 {
            proof {
                let p = d.subrange(0, i - start + 1);
                if all_digits(d) {
                    lemma_digits_prefix(d, i - start + 1);
                }
            }
            return None;
        }
        acc = next as u64;
        i = i + 1;
    }
    assert(d.subrange(0, hi - start) =~= d);
    Some(acc)
}

/// The base policy that `b[lo..hi]` names.
fn base_policy_in(b: &[u8], lo: usize, hi: usize) -> (r: Option<RolloutPolicy>)
    requires
        lo <= hi <= b@.len(),
    ensures
        r == base_policy_spec(b@.subrange(lo as int, hi as int)),
{
    if equals_in(b, lo, hi, &RANDOM) {
        Some(RolloutPolicy::Random)
    } else if equals_in(b, lo, hi, &DECISIVE) {
        Some(RolloutPolicy::Decisive)
    } else if equals_in(b, lo, hi, &RANDOM_QS) {
        Some(RolloutPolicy::RandomQualityScaled)
    } else if equals_in(b, lo, hi, &DECISIVE_QS) {
        Some(RolloutPolicy::DecisiveQualityScaled)
    } else {
        None
    }
}

/// The rollout policy that `b[lo..hi]` names.
fn policy_in(b: &[u8], lo: usize, hi: usize) -> (r: Option<RolloutPolicy>)
    requires
        lo <= hi <= b@.len(),
    ensures
        r == policy_spec(b@.subrange(lo as int, hi as int)),
{
    let ghost s = b@.subrange(lo as int, hi as int);
    if let Some(p) = base_policy_in(b, lo, hi) {
        return Some(p);
    }
    let dot = match find_in(b, lo, hi, DOT) {
        Some(dot) => dot,
        None => return None,
    };
    assert(b@.subrange(lo as int, dot as int) =~= head(s, DOT));
    assert(b@.subrange(dot + 1, hi as int) =~= tail(s, DOT));
    let random = equals_in(b, lo, dot, &RANDOM_CUTOFF);
    if random || equals_in(b, lo, dot, &DECISIVE_CUTOFF) {
        match uint_in(b, dot + 1, hi, usize::MAX as u64) {
            Some(n) => if random {
                Some(RolloutPolicy::RandomCutoff { moves: n as usize })
            } else {
                Some(RolloutPolicy::DecisiveCutoff { moves: n as usize })
            },
            None => None,
        }
    } else if equals_in(b, lo, dot, &META_AGGREGATED) {
        let ghost rest = tail(s, DOT);
        match find_in(b, dot + 1, hi, DOT) {
            None => None,
            Some(dot2) => {
                assert(b@.subrange(dot + 1, dot2 as int) =~= head(rest, DOT));
                assert(b@.subrange(dot2 + 1, hi as int) =~= tail(rest, DOT));
                let inner = base_policy_in(b, dot + 1, dot2);
                let n = uint_in(b, dot2 + 1, hi, usize::MAX as u64);
                match (inner, n) {
                    (Some(p), Some(n)) => Some(
                        RolloutPolicy::MetaAggregated { policy: Box::new(p), rollouts: n as usize },
                    ),
                    _ => None,
                }
            },
        }
    } else {
        None
    }
}

/// The limit that `b[lo..hi]` names.
fn limit_in(b: &[u8], lo: usize, hi: usize) -> (r: Option<Limit>)
    requires
        lo <= hi <= b@.len(),
    ensures
        r == limit_spec(b@.subrange(lo as int, hi as int)),
{
    let ghost s = b@.subrange(lo as int, hi as int);
    match find_in(b, lo, hi, COLON) {
        None => None,
        Some(colon) => {
            assert(b@.subrange(lo as int, colon as int) =~= head(s, COLON));
            assert(b@.subrange(colon + 1, hi as int) =~= tail(s, COLON));
            if equals_in(b, lo, colon, &KIND_ROLLOUTS) {
                match uint_in(b, colon + 1, hi, u32::MAX as u64) {
                    Some(n) => Some(Limit::Rollouts(n as u32)),
                    None => None,
                }
            } else if equals_in(b, lo, colon, &KIND_TIME) {
                match uint_in(b, colon + 1, hi, u64::MAX) {
                    Some(n) => Some(Limit::Time(n)),
                    None => None,
                }
            } else {
                None
            }
        },
    }
}

impl RolloutPolicy {
    /// Reads a rollout policy by name; see `policy_spec`.
    pub fn parse(s: &str) -> (r: Result<RolloutPolicy, ConfigError>)
        ensures
            match policy_spec(s.spec_bytes()) {
                Some(p) => r == Ok::<RolloutPolicy, ConfigError>(p),
                None => r == Err::<RolloutPolicy, ConfigError>(ConfigError::Policy),
            },
    {
        let b = s.as_bytes();
        assert(b@.subrange(0, b@.len() as int) =~= b@);
        match policy_in(b, 0, b.len()) {
            Some(p) => Ok(p),
            None => Err(ConfigError::Policy),
        }
    }
}

impl std::str::FromStr for RolloutPolicy {
    type Err = ConfigError;

    fn from_str(s: &str) -> Result<RolloutPolicy, ConfigError> {
        RolloutPolicy::parse(s)
    }
}

impl Behaviour {
    /// Reads `limit=<limit>,rollout_policy=<policy>`; the other settings take
    /// their quiet defaults: no output, one tree, PUCT, the default
    /// exploration factor, no training.
    pub fn parse(s: &str) -> (r: Result<Behaviour, ConfigError>)
        ensures
            match behaviour_spec(s.spec_bytes()) {
                Some((l, p)) => r matches Ok(b) && b.limit == l && b.rollout_policy == p
                    && !b.debug && !b.readout && !b.log && !b.training
                    && b.root_parallelism_count == 1 && b.exp_factor == DEFAULT_EXP_FACTOR
                    && b.selection == Selection::Puct,
                None => r is Err,
            },
            !layout_ok(s.spec_bytes()) ==> r == Err::<Behaviour, ConfigError>(ConfigError::Layout),
    {
        let b = s.as_bytes();
        let ghost all = b@;
        let len = b.len();
        assert(b@.subrange(0, len as int) =~= b@);
        let comma = match find_in(b, 0, len, COMMA) {
            Some(i) => i,
            None => return Err(ConfigError::Layout),
        };
        let ghost l = head(all, COMMA);
        let ghost p = tail(all, COMMA);
        assert(b@.subrange(0, comma as int) =~= l);
        assert(b@.subrange(comma + 1, len as int) =~= p);
        let eq1 = match find_in(b, 0, comma, EQUALS) {
            Some(i) => i,
            None => return Err(ConfigError::Layout),
        };
        let eq2 = match find_in(b, comma + 1, len, EQUALS) {
            Some(i) => i,
            None => return Err(ConfigError::Layout),
        };
        assert(b@.subrange(0, eq1 as int) =~= head(l, EQUALS));
        assert(b@.subrange(comma + 1, eq2 as int) =~= head(p, EQUALS));
        assert(b@.subrange(eq1 + 1, comma as int) =~= tail(l, EQUALS));
        assert(b@.subrange(eq2 + 1, len as int) =~= tail(p, EQUALS));
        if !equals_in(b, 0, eq1, &KEY_LIMIT) || !equals_in(b, comma + 1, eq2, &KEY_ROLLOUT_POLICY) {
            return Err(ConfigError::Layout);
        }
        let limit = match limit_in(b, eq1 + 1, comma) {
            Some(limit) => limit,
            None => return Err(ConfigError::Limit),
        };
        let rollout_policy = match policy_in(b, eq2 + 1, len) {
            Some(policy) => policy,
            None => return Err(ConfigError::Policy),
        };
        Ok(Behaviour {
            debug: false,
            readout: false,
            log: false,
            limit,
            root_parallelism_count: 1,
            rollout_policy,
            exp_factor: DEFAULT_EXP_FACTOR,
            training: false,
            selection: Selection::Puct,
        })
    }
}

impl std::str::FromStr for Behaviour {
    type Err = ConfigError;

    fn from_str(s: &str) -> Result<Behaviour, ConfigError> {
        Behaviour::parse(s)
    }
}

} // verus!
