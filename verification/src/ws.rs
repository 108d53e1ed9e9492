//! Decisions of one feed connection.
//!
//! The connection loop itself (connecting, reading frames, sending, sleeping)
//! is the caller's; this module decides, after each connection ends, whether
//! to try again and after what delay, and what to do with each frame and
//! each message received.

use vstd::prelude::*;
use vstd::arithmetic::power2::{
    pow2, lemma_pow2_pos, lemma_pow2_strictly_increases, lemma_pow2_unfold, lemma2_to64,
};
use vstd::arithmetic::mul::lemma_mul_inequality;
use vstd::bits::{lemma_u64_shl_is_mul, lemma_u64_pow2_no_overflow};
use vstd::utf8::{encode_utf8, encode_utf8_decode_utf8};

use crate::models::{
    AppConfig, DataPoint, PricePayload, PriceRow, PriceRowView, ReconnectConfig, SnapshotPayload,
    SubscribeRequest, Subscription, WsMessage,
};

verus! {

// ── Backoff ──────────────────────────────────────────────────────────

/// `x`, or the largest `u64` when `x` does not fit.
pub open spec fn saturate_u64(x: int) -> int {
    if x > u64::MAX {
        u64::MAX as int
    } else {
        x
    }
}

/// Whole seconds to wait before retry number `attempt`: the initial backoff
/// doubled for each attempt after the first (saturating at the largest
/// `u64`), capped at the maximum backoff.
pub open spec fn backoff_secs(cfg: ReconnectConfig, attempt: u32) -> int {
    let e: nat = if attempt == 0 {
        0
    } else {
        (attempt - 1) as nat
    };
    let exp = saturate_u64(cfg.initial_backoff_secs * saturate_u64(pow2(e) as int));
    if exp <= cfg.max_backoff_secs {
        exp
    } else {
        cfg.max_backoff_secs as int
    }
}

/// Delay before the next connection attempt.
#[derive(Debug, Clone, Copy, PartialEq, Eq, Structural)]
pub struct Backoff {
    /// Whole seconds.
    pub secs: u64,
    /// Random milliseconds added to the seconds.
    pub jitter_millis: u64,
}

/// `2^e`, or the largest `u64` when that does not fit.
fn pow2_saturating(e: u32) -> (r: u64)
    ensures
        r == saturate_u64(pow2(e as nat) as int),
{
    if e < 64 {
        proof {
            lemma_u64_pow2_no_overflow(e as nat);
            lemma_u64_shl_is_mul(1, e as u64);
        }
        1u64 << (e as u64)
    } else {
        proof {
            lemma2_to64();
            if e > 64 {
                lemma_pow2_strictly_increases(64, e as nat);
            }
        }
        u64::MAX
    }
}

/// `x * y`, or the largest `u64` when that does not fit.
fn mul_saturating(x: u64, y: u64) -> (r: u64)
    ensures
        r == saturate_u64(x * y),
{
    match x.checked_mul(y) {
        Some(v) => v,
        None => u64::MAX,
    }
}

/// Whole seconds of the delay before retry number `attempt`.
pub fn backoff_base_secs(cfg: &ReconnectConfig, attempt: u32) -> (secs: u64)
    ensures
        secs == backoff_secs(*cfg, attempt),
        secs <= cfg.max_backoff_secs,
{
    let e = attempt.saturating_sub(1);
    let exp = mul_saturating(cfg.initial_backoff_secs, pow2_saturating(e));
    if exp <= cfg.max_backoff_secs {
        exp
    } else {
        cfg.max_backoff_secs
    }
}

/// The delay before retry number `attempt`, given the random jitter that
/// was drawn for it.
pub fn backoff_with_jitter(config: &AppConfig, attempt: u32, jitter_ms: u64) -> (b: Backoff)
    ensures
        b.secs == backoff_secs(config.reconnect, attempt),
        b.jitter_millis == jitter_ms,
{
    Backoff { secs: backoff_base_secs(&config.reconnect, attempt), jitter_millis: jitter_ms }
}

/// Calls `fastrand::u64(..bound)`, which returns a random number drawn from
/// `0..bound` by the thread-local generator (and panics when the range is
/// empty, which `requires` rules out). Claimed: the number is below `bound`.
#[verifier::external_body]
fn random_below(bound: u64) -> (r: u64)
    requires
        bound > 0,
    ensures
        r < bound,
{
    fastrand::u64(..bound)
}

/// The delay before retry number `attempt`: the backoff seconds, plus a
/// random number of milliseconds below the configured jitter (none when the
/// jitter is 0).
pub fn compute_backoff(config: &AppConfig, attempt: u32) -> (b: Backoff)
    ensures
        b.secs == backoff_secs(config.reconnect, attempt),
        config.reconnect.jitter_millis == 0 ==> b.jitter_millis == 0,
        config.reconnect.jitter_millis > 0 ==> b.jitter_millis < config.reconnect.jitter_millis,
{
    let jitter_ms = if config.reconnect.jitter_millis > 0 {
        random_below(config.reconnect.jitter_millis)
    } else {
        0
    };
    backoff_with_jitter(config, attempt, jitter_ms)
}

/// The backoff never exceeds the configured maximum, and never shrinks from
/// one attempt to a later one.
pub proof fn lemma_backoff_bounded_and_monotone(cfg: ReconnectConfig, a: u32, b: u32)
    requires
        a <= b,
    ensures
        0 <= backoff_secs(cfg, a) <= cfg.max_backoff_secs,
        backoff_secs(cfg, a) <= backoff_secs(cfg, b),
{
    let ea: nat = if a == 0 {
        0
    } else {
        (a - 1) as nat
    };
    let eb: nat = if b == 0 {
        0
    } else {
        (b - 1) as nat
    };
    if ea < eb {
        lemma_pow2_strictly_increases(ea, eb);
    }
    lemma_pow2_pos(ea);
    lemma_mul_inequality(
        saturate_u64(pow2(ea) as int),
        saturate_u64(pow2(eb) as int),
        cfg.initial_backoff_secs as int,
    );
    assert(cfg.initial_backoff_secs * saturate_u64(pow2(ea) as int) == saturate_u64(pow2(ea) as int)
        * cfg.initial_backoff_secs) by (nonlinear_arith);
    assert(cfg.initial_backoff_secs * saturate_u64(pow2(eb) as int) == saturate_u64(pow2(eb) as int)
        * cfg.initial_backoff_secs) by (nonlinear_arith);
}

/// The first retry waits the initial backoff, or the maximum when that is
/// smaller.
pub proof fn lemma_first_retry_waits_initial_backoff(cfg: ReconnectConfig)
    ensures
        backoff_secs(cfg, 1) == if cfg.initial_backoff_secs <= cfg.max_backoff_secs {
            cfg.initial_backoff_secs
        } else {
            cfg.max_backoff_secs
        },
{
    lemma2_to64();
    assert(saturate_u64(pow2(0) as int) == 1);
    assert(cfg.initial_backoff_secs * 1 == cfg.initial_backoff_secs);
}

/// Each retry waits twice as long as the one before, as long as the doubled
/// wait stays within the maximum.
pub proof fn lemma_backoff_doubles(cfg: ReconnectConfig, a: u32)
    requires
        1 <= a < u32::MAX,
        2 * backoff_secs(cfg, a) <= cfg.max_backoff_secs,
    ensures
        backoff_secs(cfg, (a + 1) as u32) == 2 * backoff_secs(cfg, a),
{
    let e = (a - 1) as nat;
    let b = cfg.initial_backoff_secs as int;
    let p = saturate_u64(pow2(e) as int);
    lemma_pow2_pos(e);
    lemma_pow2_pos(e + 1);
    lemma_pow2_unfold(e + 1);
    assert(((e + 1) as nat) - 1 == e);
    if b == 0 {
        let q = saturate_u64(pow2(e + 1) as int);
        assert(b * p == 0 && b * q == 0) by (nonlinear_arith)
            requires
                b == 0,
        ;
    } else if cfg.max_backoff_secs == 0 {
    } else {
        assert(p <= b * p) by (nonlinear_arith)
            requires
                b >= 1,
                p >= 0,
        ;
        assert(b * p <= u64::MAX / 2);
        assert(p == pow2(e));
        assert(pow2(e + 1) <= u64::MAX);
        assert(b * pow2(e + 1) == 2 * (b * p)) by (nonlinear_arith)
            requires
                pow2(e + 1) == 2 * p,
        ;
    }
}

/// Before the first retry and at the first retry the wait is the same.
pub proof fn lemma_backoff_attempt_zero_is_first(cfg: ReconnectConfig)
    ensures
        backoff_secs(cfg, 0) == backoff_secs(cfg, 1),
{
}

// ── Reconnect policy ─────────────────────────────────────────────────

/// What to do after a connection has ended.
#[derive(Debug, Clone, Copy, PartialEq, Eq, Structural)]
pub enum ReconnectDecision {
    /// Wait, then try again; this is retry number `attempt`.
    Retry { attempt: u32 },
    /// Give up on this symbol.
    GiveUp,
}

/// Whether the attempt count starts over: the last graceful close lies at
/// least the reset period back.
pub open spec fn resets_attempts(cfg: ReconnectConfig, secs_since_last_close: Option<u64>) -> bool {
    match secs_since_last_close {
        Some(s) => s >= cfg.reset_after_secs,
        None => false,
    }
}

/// The attempt count after a connection has ended.
pub open spec fn next_attempt(cfg: ReconnectConfig, attempt: nat, secs_since_last_close: Option<u64>) -> nat {
    if resets_attempts(cfg, secs_since_last_close) {
        1
    } else {
        attempt + 1
    }
}

/// The count starts over exactly when the last graceful close lies at least
/// the reset period back, whatever the other settings are: then the next
/// attempt is the first; otherwise (also when no connection closed
/// gracefully yet) it is one more than before.
pub proof fn lemma_reset_exactly_after_reset_period(cfg: ReconnectConfig, attempt: nat, s: u64)
    ensures
        s >= cfg.reset_after_secs ==> next_attempt(cfg, attempt, Some(s)) == 1,
        s < cfg.reset_after_secs ==> next_attempt(cfg, attempt, Some(s)) == attempt + 1,
        next_attempt(cfg, attempt, None) == attempt + 1,
{
}

/// The decisions taken after a series of connection ends, each given by the
/// seconds since the last graceful close at that time; `Some(a)` is retry
/// number `a`, `None` is giving up.
pub open spec fn reconnect_decisions(
    cfg: ReconnectConfig,
    attempt: nat,
    given_up: bool,
    ends: Seq<Option<u64>>,
) -> Seq<Option<nat>>
    decreases ends.len(),
{
    if ends.len() == 0 {
        Seq::empty()
    } else if given_up {
        seq![None] + reconnect_decisions(cfg, attempt, true, ends.drop_first())
    } else {
        let a = next_attempt(cfg, attempt, ends[0]);
        if a >= cfg.max_attempts {
            seq![None] + reconnect_decisions(cfg, a, true, ends.drop_first())
        } else {
            seq![Some(a)] + reconnect_decisions(cfg, a, false, ends.drop_first())
        }
    }
}

/// One decision per connection end.
pub proof fn lemma_reconnect_decisions_len(
    cfg: ReconnectConfig,
    attempt: nat,
    given_up: bool,
    ends: Seq<Option<u64>>,
)
    ensures
        reconnect_decisions(cfg, attempt, given_up, ends).len() == ends.len(),
    decreases ends.len(),
{
    if ends.len() > 0 {
        let a = next_attempt(cfg, attempt, ends[0]);
        lemma_reconnect_decisions_len(cfg, attempt, true, ends.drop_first());
        lemma_reconnect_decisions_len(cfg, a, true, ends.drop_first());
        lemma_reconnect_decisions_len(cfg, a, false, ends.drop_first());
    }
}

/// Without a long-lived connection in between, the connection is retried
/// with the attempt count rising by one each time, and given up for good
/// once the count reaches the maximum number of attempts.
pub proof fn lemma_gives_up_after_max_attempts(
    cfg: ReconnectConfig,
    attempt: nat,
    ends: Seq<Option<u64>>,
    i: int,
)
    requires
        forall|k: int| 0 <= k < ends.len() ==> !resets_attempts(cfg, #[trigger] ends[k]),
        0 <= i < ends.len(),
    ensures
        reconnect_decisions(cfg, attempt, false, ends)[i] == if attempt + i + 1 >= cfg.max_attempts {
            None::<nat>
        } else {
            Some((attempt + i + 1) as nat)
        },
    decreases i,
{
    let a = next_attempt(cfg, attempt, ends[0]);
    let rest = ends.drop_first();
    lemma_reconnect_decisions_len(cfg, a, true, rest);
    lemma_reconnect_decisions_len(cfg, a, false, rest);
    if i > 0 {
        assert(forall|k: int| 0 <= k < rest.len() ==> rest[k] == ends[k + 1]);
        if a >= cfg.max_attempts {
            lemma_given_up_stays(cfg, a, rest, i - 1);
        } else {
            lemma_gives_up_after_max_attempts(cfg, a, rest, i - 1);
        }
    }
}

/// Once given up, every later decision is to give up.
pub proof fn lemma_given_up_stays(cfg: ReconnectConfig, attempt: nat, ends: Seq<Option<u64>>, i: int)
    requires
        0 <= i < ends.len(),
    ensures
        reconnect_decisions(cfg, attempt, true, ends)[i] == None::<nat>,
    decreases i,
{
    lemma_reconnect_decisions_len(cfg, attempt, true, ends.drop_first());
    if i > 0 {
        lemma_given_up_stays(cfg, attempt, ends.drop_first(), i - 1);
    }
}

/// The reconnect state of one symbol's connection.
pub struct ReconnectState {
    config: ReconnectConfig,
    attempt: u32,
    given_up: bool,
}

impl ReconnectState {
    pub closed spec fn policy(&self) -> ReconnectConfig {
        self.config
    }

    /// Retries made since the last reset.
    pub closed spec fn attempt_count(&self) -> nat {
        self.attempt as nat
    }

    /// Whether the connection has been given up.
    pub closed spec fn has_given_up(&self) -> bool {
        self.given_up
    }

    /// Well-formedness: while retrying, the count stays below the maximum.
    pub open spec fn wf(&self) -> bool {
        self.has_given_up() || self.attempt_count() == 0 || self.attempt_count()
            < self.policy().max_attempts
    }

    /// The state before the first connection.
    pub fn new(config: &ReconnectConfig) -> (s: ReconnectState)
        ensures
            s.wf(),
            s.policy() == *config,
            s.attempt_count() == 0,
            !s.has_given_up(),
    {
        ReconnectState { config: *config, attempt: 0, given_up: false }
    }

    /// Retries made since the last reset.
    pub fn attempt(&self) -> (a: u32)
        ensures
            a == self.attempt_count(),
    {
        self.attempt
    }

    /// Decides, after a connection has ended, whether to retry. The count
    /// starts over when the last graceful close lies at least the reset
    /// period back (`secs_since_last_close`, `None` when no connection has
    /// closed gracefully yet); it then rises by one, and the connection is
    /// given up when it reaches the maximum number of attempts.
    pub fn after_connection(&mut self, secs_since_last_close: Option<u64>) -> (d: ReconnectDecision)
        requires
            old(self).wf(),
        ensures
            final(self).wf(),
            final(self).policy() == old(self).policy(),
            old(self).has_given_up() ==> d == ReconnectDecision::GiveUp && *final(self)
                == *old(self),
            !old(self).has_given_up() ==> {
                let a = next_attempt(
                    old(self).policy(),
                    old(self).attempt_count(),
                    secs_since_last_close,
                );
                &&& final(self).attempt_count() == a
                &&& final(self).has_given_up() == (a >= old(self).policy().max_attempts)
                &&& d == if a >= old(self).policy().max_attempts {
                    ReconnectDecision::GiveUp
                } else {
                    ReconnectDecision::Retry { attempt: a as u32 }
                }
            },
            !old(self).has_given_up() && (secs_since_last_close is None
                || secs_since_last_close->0 < old(self).policy().reset_after_secs)
                ==> final(self).attempt_count() == old(self).attempt_count() + 1,
            !old(self).has_given_up() && secs_since_last_close is Some
                && secs_since_last_close->0 >= old(self).policy().reset_after_secs
                ==> final(self).attempt_count() == 1,
            !old(self).has_given_up() ==> (d is GiveUp <==> final(self).attempt_count()
                >= old(self).policy().max_attempts),
            d matches ReconnectDecision::Retry { attempt } ==> attempt
                == final(self).attempt_count(),
            seq![
                match d {
                    ReconnectDecision::Retry { attempt } => Some(attempt as nat),
                    ReconnectDecision::GiveUp => None,
                },
            ] == reconnect_decisions(
                old(self).policy(),
                old(self).attempt_count(),
                old(self).has_given_up(),
                seq![secs_since_last_close],
            ),
    {
        let ghost ends = seq![secs_since_last_close];
        assert(ends.drop_first() =~= Seq::<Option<u64>>::empty());
        proof {
            let c = self.config;
            let n = next_attempt(c, self.attempt as nat, secs_since_last_close);
            assert(reconnect_decisions(c, self.attempt as nat, true, ends.drop_first())
                =~= Seq::<Option<nat>>::empty());
            assert(reconnect_decisions(c, n, true, ends.drop_first())
                =~= Seq::<Option<nat>>::empty());
            assert(reconnect_decisions(c, n, false, ends.drop_first())
                =~= Seq::<Option<nat>>::empty());
        }
        if self.given_up {
            assert(reconnect_decisions(self.config, self.attempt as nat, true, ends) =~= seq![
                None,
            ]);
            return ReconnectDecision::GiveUp;
        }
        let reset = match secs_since_last_close {
            Some(s) => s >= self.config.reset_after_secs,
            None => false,
        };
        if reset {
            self.attempt = 0;
        }
        self.attempt = self.attempt + 1;
        if self.attempt >= self.config.max_attempts {
            self.given_up = true;
            assert(reconnect_decisions(self.config, (old(self).attempt) as nat, false, ends)
                =~= seq![None]);
            ReconnectDecision::GiveUp
        } else {
            assert(reconnect_decisions(self.config, (old(self).attempt) as nat, false, ends)
                =~= seq![Some(self.attempt as nat)]);
            ReconnectDecision::Retry { attempt: self.attempt }
        }
    }
}

// ── Text helpers ─────────────────────────────────────────────────────

/// Whether two texts are equal; compares their UTF-8 bytes in one pass.
pub fn str_equals(a: &str, b: &str) -> (eq: bool)
    ensures
        eq == (a@ == b@),
{
    let x = a.as_bytes();
    let y = b.as_bytes();
    proof {
        encode_utf8_decode_utf8(a@);
        encode_utf8_decode_utf8(b@);
    }
    if x.len() != y.len() {
        return false;
    }
    let n = x.len();
    let mut i: usize = 0;
    while i < n
        invariant
            i <= n,
            n == x@.len(),
            n == y@.len(),
            x@ == encode_utf8(a@),
            y@ == encode_utf8(b@),
            forall|k: int| 0 <= k < i ==> x@[k] == y@[k],
        decreases n - i,
    {
        if x[i] != y[i] {
            return false;
        }
        i = i + 1;
    }
    assert(x@ =~= y@);
    true
}

/// Unicode `White_Space`, the characters that `str::trim` removes.
pub open spec fn is_whitespace(c: char) -> bool {
    ('\u{9}' <= c && c <= '\u{d}') || c == ' ' || c == '\u{85}' || c == '\u{a0}' || c
        == '\u{1680}' || ('\u{2000}' <= c && c <= '\u{200a}') || c == '\u{2028}' || c
        == '\u{2029}' || c == '\u{202f}' || c == '\u{205f}' || c == '\u{3000}'
}

fn char_is_whitespace(c: char) -> (b: bool)
    ensures
        b == is_whitespace(c),
{
    ('\u{9}' <= c && c <= '\u{d}') || c == ' ' || c == '\u{85}' || c == '\u{a0}' || c
        == '\u{1680}' || ('\u{2000}' <= c && c <= '\u{200a}') || c == '\u{2028}' || c
        == '\u{2029}' || c == '\u{202f}' || c == '\u{205f}' || c == '\u{3000}'
}

/// `s` without its leading whitespace.
pub open spec fn trim_start(s: Seq<char>) -> Seq<char>
    decreases s.len(),
{
    if s.len() > 0 && is_whitespace(s[0]) {
        trim_start(s.drop_first())
    } else {
        s
    }
}

/// `s` without its trailing whitespace.
pub open spec fn trim_end(s: Seq<char>) -> Seq<char>
    decreases s.len(),
{
    if s.len() > 0 && is_whitespace(s.last()) {
        trim_end(s.drop_last())
    } else {
        s
    }
}

/// `s` without leading and trailing whitespace.
pub open spec fn trimmed(s: Seq<char>) -> Seq<char> {
    trim_end(trim_start(s))
}

/// Leading whitespace can be dropped before trimming the start.
proof fn lemma_trim_start_skip(s: Seq<char>, i: int)
    requires
        0 <= i <= s.len(),
        forall|m: int| 0 <= m < i ==> is_whitespace(#[trigger] s[m]),
    ensures
        trim_start(s) == trim_start(s.subrange(i, s.len() as int)),
    decreases i,
{
    if i == 0 {
        assert(s.subrange(0, s.len() as int) =~= s);
    } else {
        let t = s.drop_first();
        assert forall|m: int| 0 <= m < i - 1 implies is_whitespace(#[trigger] t[m]) by {
            assert(t[m] == s[m + 1]);
        }
        lemma_trim_start_skip(t, i - 1);
        assert(t.subrange(i - 1, t.len() as int) =~= s.subrange(i, s.len() as int));
    }
}

/// Trailing whitespace can be dropped before trimming the end.
proof fn lemma_trim_end_skip(s: Seq<char>, j: int)
    requires
        0 <= j <= s.len(),
        forall|m: int| j <= m < s.len() ==> is_whitespace(#[trigger] s[m]),
    ensures
        trim_end(s) == trim_end(s.subrange(0, j)),
    decreases s.len() - j,
{
    if j == s.len() {
        assert(s.subrange(0, j) =~= s);
    } else {
        let t = s.drop_last();
        assert forall|m: int| j <= m < t.len() implies is_whitespace(#[trigger] t[m]) by {
            assert(t[m] == s[m]);
        }
        lemma_trim_end_skip(t, j);
        assert(t.subrange(0, j) =~= s.subrange(0, j));
    }
}

/// Where the leading whitespace ends.
proof fn lemma_trim_start_index(s: Seq<char>) -> (i: int)
    ensures
        0 <= i <= s.len(),
        trim_start(s) == s.subrange(i, s.len() as int),
        forall|m: int| 0 <= m < i ==> is_whitespace(#[trigger] s[m]),
        i < s.len() ==> !is_whitespace(s[i]),
    decreases s.len(),
{
    if s.len() > 0 && is_whitespace(s[0]) {
        let t = s.drop_first();
        let k = lemma_trim_start_index(t);
        assert(t.subrange(k, t.len() as int) =~= s.subrange(k + 1, s.len() as int));
        assert forall|m: int| 0 <= m < k + 1 implies is_whitespace(#[trigger] s[m]) by {
            if m > 0 {
                assert(s[m] == t[m - 1]);
            }
        }
        k + 1
    } else {
        assert(s.subrange(0, s.len() as int) =~= s);
        0
    }
}

/// Where the trailing whitespace starts.
proof fn lemma_trim_end_index(s: Seq<char>) -> (j: int)
    ensures
        0 <= j <= s.len(),
        trim_end(s) == s.subrange(0, j),
        forall|m: int| j <= m < s.len() ==> is_whitespace(#[trigger] s[m]),
        j > 0 ==> !is_whitespace(s[j - 1]),
    decreases s.len(),
{
    if s.len() > 0 && is_whitespace(s.last()) {
        let t = s.drop_last();
        let k = lemma_trim_end_index(t);
        assert(t.subrange(0, k) =~= s.subrange(0, k));
        assert forall|m: int| k <= m < s.len() implies is_whitespace(#[trigger] s[m]) by {
            if m < s.len() - 1 {
                assert(s[m] == t[m]);
            }
        }
        k
    } else {
        assert(s.subrange(0, s.len() as int) =~= s);
        s.len() as int
    }
}

/// Trimming removes whitespace from the two ends and nothing else: the
/// result is the run of `s` between two cut points, everything before the
/// first and after the second is whitespace, and a non-empty result starts
/// and ends with a character that is not whitespace.
pub proof fn lemma_trim_removes_only_outer_whitespace(s: Seq<char>) -> (cut: (int, int))
    ensures
        0 <= cut.0 <= cut.1 <= s.len(),
        trimmed(s) == s.subrange(cut.0, cut.1),
        forall|m: int| 0 <= m < cut.0 ==> is_whitespace(#[trigger] s[m]),
        forall|m: int| cut.1 <= m < s.len() ==> is_whitespace(#[trigger] s[m]),
        cut.0 < cut.1 ==> !is_whitespace(s[cut.0]) && !is_whitespace(s[cut.1 - 1]),
{
    let i = lemma_trim_start_index(s);
    let t = s.subrange(i, s.len() as int);
    let k = lemma_trim_end_index(t);
    assert(t.subrange(0, k) =~= s.subrange(i, i + k));
    assert forall|m: int| i + k <= m < s.len() implies is_whitespace(#[trigger] s[m]) by {
        assert(s[m] == t[m - i]);
    }
    if k > 0 {
        assert(s[i + k - 1] == t[k - 1]);
    }
    (i, i + k)
}

/// `s` without leading and trailing whitespace, as `str::trim` returns it.
/// One pass over the characters finds the first and the last that are not
/// whitespace.
pub fn trim(s: &str) -> (t: &str)
    ensures
        t@ == trimmed(s@),
{
    let len = s.unicode_len();
    let mut found = false;
    let mut first: usize = 0;
    let mut last: usize = 0;
    let mut k: usize = 0;
    for c in it: s.chars()
        invariant
            len == s@.len(),
            it.seq() == s@,
            k == it.index(),
            k <= len,
            !found ==> last == 0 && forall|m: int| 0 <= m < k ==> is_whitespace(#[trigger] s@[m]),
            found ==> {
                &&& first < last <= k
                &&& !is_whitespace(s@[first as int])
                &&& !is_whitespace(s@[last - 1])
                &&& forall|m: int| 0 <= m < first ==> is_whitespace(#[trigger] s@[m])
                &&& forall|m: int| last <= m < k ==> is_whitespace(#[trigger] s@[m])
            },
    {
        if !char_is_whitespace(c) {
            if !found {
                first = k;
                found = true;
            }
            last = k + 1;
        }
        k = k + 1;
    }
    if !found {
        proof {
            lemma_trim_start_skip(s@, len as int);
            assert(s@.subrange(len as int, len as int) =~= Seq::<char>::empty());
        }
        let e = s.substring_char(0, 0);
        assert(e@ =~= Seq::<char>::empty());
        e
    } else {
        proof {
            lemma_trim_start_skip(s@, first as int);
            let u = s@.subrange(first as int, len as int);
            assert forall|m: int| last - first <= m < u.len() implies is_whitespace(#[trigger] u[m])
                by {
                assert(u[m] == s@[m + first]);
            }
            lemma_trim_end_skip(u, last - first);
            assert(u.subrange(0, last - first) =~= s@.subrange(first as int, last as int));
        }
        s.substring_char(first, last)
    }
}

// ── Frames ───────────────────────────────────────────────────────────

/// What the connection read from the feed.
pub enum Frame {
    /// A text frame.
    Text(String),
    /// A binary frame.
    Binary(Vec<u8>),
    /// A ping, with its payload.
    Ping(Vec<u8>),
    /// A pong, with its payload.
    Pong(Vec<u8>),
    /// A close frame.
    Close,
    /// A raw frame.
    Raw,
    /// Reading failed.
    ReadError,
    /// The stream yielded nothing.
    Ended,
}

/// What to do with a frame.
pub enum FrameAction {
    /// Nothing.
    Ignore,
    /// Handle this text as a message.
    Handle(String),
    /// Answer with a pong carrying this payload.
    SendPong(Vec<u8>),
    /// Leave the connection (it ended normally).
    Stop,
}

/// Decides what to do with a frame: text is trimmed, and handled unless it
/// is then empty or the keep-alive answer `PONG`; a ping is answered with a
/// pong of the same payload; a close frame or a read error ends the
/// connection; anything else is ignored.
pub fn on_frame(frame: Frame) -> (a: FrameAction)
    ensures
        match frame {
            Frame::Text(text) => {
                let t = trimmed(text@);
                if t.len() == 0 || t == seq!['P', 'O', 'N', 'G'] {
                    a is Ignore
                } else {
                    a matches FrameAction::Handle(h) && h@ == t
                }
            },
            Frame::Ping(data) => a matches FrameAction::SendPong(p) && p@ == data@,
            Frame::Close => a is Stop,
            Frame::ReadError => a is Stop,
            _ => a is Ignore,
        },
{
    match frame {
        Frame::Text(text) => {
            let t = trim(text.as_str());
            let pong = "PONG";
            proof {
                reveal_strlit("PONG");
                assert(pong@ =~= seq!['P', 'O', 'N', 'G']);
            }
            if t.unicode_len() == 0 || str_equals(t, pong) {
                FrameAction::Ignore
            } else {
                FrameAction::Handle(t.to_string())
            }
        },
        Frame::Ping(data) => FrameAction::SendPong(data),
        Frame::Close => FrameAction::Stop,
        Frame::ReadError => FrameAction::Stop,
        _ => FrameAction::Ignore,
    }
}

// ── Messages ─────────────────────────────────────────────────────────

/// Where a parsed message goes.
pub enum MessageRoute {
    /// Snapshot of past prices, to be read as a [`SnapshotPayload`].
    Snapshot(serde_json::Value),
    /// Real-time price, to be read as a [`PricePayload`].
    Update(serde_json::Value),
    /// Any other topic and type: skipped.
    Skip { topic: String, message_type: String },
    /// No payload: nothing to do.
    NoPayload,
}

pub open spec fn is_snapshot_kind(topic: Seq<char>, message_type: Seq<char>) -> bool {
    topic == "crypto_prices"@ && message_type == "subscribe"@
}

pub open spec fn is_update_kind(topic: Seq<char>, message_type: Seq<char>) -> bool {
    topic == "crypto_prices_chainlink"@ && message_type == "update"@
}

/// Routes a message by its topic and type: a message without payload needs
/// nothing; topic `crypto_prices` of type `subscribe` carries a snapshot;
/// topic `crypto_prices_chainlink` of type `update` carries a price; the
/// rest is skipped.
pub fn route_message(msg: WsMessage) -> (r: MessageRoute)
    ensures
        msg.payload is None ==> r is NoPayload,
        msg.payload matches Some(p) ==> if is_snapshot_kind(msg.topic@, msg.message_type@) {
            r == MessageRoute::Snapshot(p)
        } else if is_update_kind(msg.topic@, msg.message_type@) {
            r == MessageRoute::Update(p)
        } else {
            r matches MessageRoute::Skip { topic, message_type } && topic@ == msg.topic@
                && message_type@ == msg.message_type@
        },
{
    let payload = match msg.payload {
        Some(p) => p,
        None => return MessageRoute::NoPayload,
    };
    if str_equals(msg.topic.as_str(), "crypto_prices") && str_equals(
        msg.message_type.as_str(),
        "subscribe",
    ) {
        MessageRoute::Snapshot(payload)
    } else if str_equals(msg.topic.as_str(), "crypto_prices_chainlink") && str_equals(
        msg.message_type.as_str(),
        "update",
    ) {
        MessageRoute::Update(payload)
    } else {
        MessageRoute::Skip { topic: msg.topic, message_type: msg.message_type }
    }
}

/// The rows of a snapshot: one per data point, in order, each with the
/// snapshot's symbol.
pub open spec fn snapshot_row_views(symbol: Seq<char>, data: Seq<DataPoint>) -> Seq<PriceRowView> {
    data.map_values(
        |p: DataPoint| PriceRowView { symbol, price_bits: p.value_bits, timestamp: p.timestamp },
    )
}

/// Row `k` of a snapshot is data point `k`, with its own price and its own
/// timestamp, under the snapshot's symbol; there is one row per point.
pub proof fn lemma_snapshot_row_is_its_point(symbol: Seq<char>, data: Seq<DataPoint>)
    ensures
        snapshot_row_views(symbol, data).len() == data.len(),
        forall|k: int|
            0 <= k < data.len() ==> {
                &&& (#[trigger] snapshot_row_views(symbol, data)[k]).symbol == symbol
                &&& snapshot_row_views(symbol, data)[k].price_bits == data[k].value_bits
                &&& snapshot_row_views(symbol, data)[k].timestamp == data[k].timestamp
            },
{
}

/// Turns a snapshot into rows to store.
pub fn snapshot_rows(snapshot: &SnapshotPayload) -> (rows: Vec<PriceRow>)
    ensures
        rows@.map_values(|r: PriceRow| r@) == snapshot_row_views(
            snapshot.symbol@,
            snapshot.data@,
        ),
        rows@.len() == snapshot.data@.len(),
        forall|k: int|
            0 <= k < rows@.len() ==> {
                &&& (#[trigger] rows@[k]).symbol@ == snapshot.symbol@
                &&& rows@[k].price_bits == snapshot.data@[k].value_bits
                &&& rows@[k].timestamp == snapshot.data@[k].timestamp
            },
{
    let n = snapshot.data.len();
    let mut rows: Vec<PriceRow> = Vec::new();
    for i in 0..n
        invariant
            n == snapshot.data@.len(),
            rows@.len() == i,
            forall|k: int|
                0 <= k < i ==> (#[trigger] rows@[k])@ == snapshot_row_views(
                    snapshot.symbol@,
                    snapshot.data@,
                )[k],
    {
        let point = &snapshot.data[i];
        rows.push(
            PriceRow {
                symbol: snapshot.symbol.clone(),
                price_bits: point.value_bits,
                timestamp: point.timestamp,
            },
        );
    }
    assert(rows@.map_values(|r: PriceRow| r@) =~= snapshot_row_views(
        snapshot.symbol@,
        snapshot.data@,
    ));
    proof {
        lemma_snapshot_row_is_its_point(snapshot.symbol@, snapshot.data@);
    }
    rows
}

/// Turns a real-time price into the row to store.
pub fn update_row(payload: PricePayload) -> (row: PriceRow)
    ensures
        row@ == (PriceRowView {
            symbol: payload.symbol@,
            price_bits: payload.value_bits,
            timestamp: payload.timestamp,
        }),
{
    PriceRow { symbol: payload.symbol, price_bits: payload.value_bits, timestamp: payload.timestamp }
}

// ── Subscription ─────────────────────────────────────────────────────

/// Lower-case hexadecimal digit of `n` (below 16).
pub open spec fn hex_digit(n: nat) -> char {
    if n < 10 {
        (48 + n) as char
    } else {
        (87 + n) as char
    }
}

/// How `serde_json` writes one character inside a JSON string: quote,
/// backslash and the control characters below U+0020 are escaped (with the
/// short forms where JSON has one), everything else is written as is.
pub open spec fn json_escape_char(c: char) -> Seq<char> {
    if c == '"' {
        seq!['\\', '"']
    } else if c == '\\' {
        seq!['\\', '\\']
    } else if c == '\u{8}' {
        seq!['\\', 'b']
    } else if c == '\t' {
        seq!['\\', 't']
    } else if c == '\n' {
        seq!['\\', 'n']
    } else if c == '\u{c}' {
        seq!['\\', 'f']
    } else if c == '\r' {
        seq!['\\', 'r']
    } else if (c as nat) < 0x20 {
        seq!['\\', 'u', '0', '0', hex_digit((c as nat) / 16), hex_digit((c as nat) % 16)]
    } else {
        seq![c]
    }
}

/// The contents of a JSON string holding `s`.
pub open spec fn json_escape(s: Seq<char>) -> Seq<char>
    decreases s.len(),
{
    if s.len() == 0 {
        Seq::empty()
    } else {
        json_escape(s.drop_last()) + json_escape_char(s.last())
    }
}

/// The compact JSON text of the object `{"symbol": symbol}`.
pub open spec fn symbol_filter_json(symbol: Seq<char>) -> Seq<char> {
    seq!['{', '"', 's', 'y', 'm', 'b', 'o', 'l', '"', ':', '"'] + json_escape(symbol) + seq![
        '"',
        '}',
    ]
}

/// A JSON string holding `s`: the escaped characters between quotes.
pub open spec fn json_string(s: Seq<char>) -> Seq<char> {
    seq!['"'] + json_escape(s) + seq!['"']
}

/// The compact JSON text of an object with one string field.
pub open spec fn json_one_field_object(key: Seq<char>, value: Seq<char>) -> Seq<char> {
    seq!['{'] + json_string(key) + seq![':'] + json_string(value) + seq!['}']
}

/// Text made only of characters that JSON strings hold as they are.
pub open spec fn json_plain(s: Seq<char>) -> bool {
    forall|i: int| 0 <= i < s.len() ==> (#[trigger] s[i] as nat) >= 0x20 && s[i] != '"' && s[i] != '\\'
}

/// Escaping leaves such text unchanged.
proof fn lemma_json_escape_plain(s: Seq<char>)
    requires
        json_plain(s),
    ensures
        json_escape(s) == s,
    decreases s.len(),
{
    if s.len() > 0 {
        let t = s.drop_last();
        assert forall|i: int| 0 <= i < t.len() implies (#[trigger] t[i] as nat) >= 0x20 && t[i] != '"'
            && t[i] != '\\' by {
            assert(t[i] == s[i]);
        }
        lemma_json_escape_plain(t);
        assert(s.last() == s[s.len() - 1]);
        assert(json_escape_char(s.last()) == seq![s.last()]);
        assert(t.push(s.last()) =~= s);
    }
}

/// Renders an object with one string field with `serde_json`: builds a
/// `serde_json::Value::Object` holding `key` mapped to the string `value`
/// and calls its `Display` (`to_string`), which writes compact JSON.
/// Claimed, as `serde_json`'s serializer writes it: `{`, the key as a JSON
/// string, `:`, the value as a JSON string, `}`, each string between quotes
/// with its characters escaped by `json_escape_char`.
#[verifier::external_body]
fn json_object_text(key: &str, value: &str) -> (text: String)
    ensures
        text@ == json_one_field_object(key@, value@),
{
    let mut map = serde_json::Map::new();
    map.insert(key.to_string(), serde_json::Value::String(value.to_string()));
    serde_json::Value::Object(map).to_string()
}

/// The request that subscribes a connection to the prices of one symbol:
/// action `subscribe`, with one subscription to topic
/// `crypto_prices_chainlink`, of every type (`*`), filtered on the symbol.
pub fn subscribe_request(symbol: &str) -> (req: SubscribeRequest)
    ensures
        req.action@ == "subscribe"@,
        req.subscriptions@.len() == 1,
        req.subscriptions@[0].topic@ == "crypto_prices_chainlink"@,
        req.subscriptions@[0].message_type@ == "*"@,
        req.subscriptions@[0].filters@ == symbol_filter_json(symbol@),
{
    let key = "symbol";
    let filters = json_object_text(key, symbol);
    proof {
        reveal_strlit("symbol");
        let word = seq!['s', 'y', 'm', 'b', 'o', 'l'];
        assert(key@ =~= word);
        assert(json_plain(word));
        lemma_json_escape_plain(word);
        assert(json_one_field_object(key@, symbol@) =~= symbol_filter_json(symbol@));
    }
    let sub = Subscription {
        topic: "crypto_prices_chainlink".to_string(),
        message_type: "*".to_string(),
        filters,
    };
    SubscribeRequest { action: "subscribe".to_string(), subscriptions: vec![sub] }
}

} // verus!
