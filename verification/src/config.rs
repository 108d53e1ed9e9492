//! Configuration from environment values.
//!
//! The caller reads the environment (after loading a `.env` file) and hands
//! over each variable as `Some(text)` when it is set to valid Unicode and
//! `None` otherwise. Numbers are parsed as Rust parses unsigned integers from
//! text: an optional `+` followed by one or more decimal digits, and nothing
//! else, whose value fits the type; anything else falls back to the default.

use vstd::prelude::*;

use crate::models::{AppConfig, BatchConfig, ReconnectConfig};

verus! {

/// Feed endpoint used when `WS_URL` is not set.
pub open spec fn default_ws_url() -> Seq<char> {
    "wss://ws-live-data.polymarket.com"@
}

/// Symbols followed when `SYMBOL_FILTER` is not set or empty.
pub open spec fn default_symbols() -> Seq<Seq<char>> {
    seq![
        "btc/usd"@,
        "eth/usd"@,
        "sol/usd"@,
        "xrp/usd"@,
        "hype/usd"@,
        "doge/usd"@,
        "bnb/usd"@,
    ]
}

/// The environment variables that the configuration reads.
pub struct EnvVars {
    /// `DATABASE_URL`
    pub database_url: Option<String>,
    /// `WS_URL`
    pub ws_url: Option<String>,
    /// `SYMBOL_FILTER`
    pub symbol_filter: Option<String>,
    /// `PING_INTERVAL_SECS`
    pub ping_interval_secs: Option<String>,
    /// `RECONNECT_MAX_ATTEMPTS`
    pub reconnect_max_attempts: Option<String>,
    /// `RECONNECT_INITIAL_BACKOFF`
    pub reconnect_initial_backoff: Option<String>,
    /// `RECONNECT_MAX_BACKOFF`
    pub reconnect_max_backoff: Option<String>,
    /// `RECONNECT_JITTER_MS`
    pub reconnect_jitter_ms: Option<String>,
    /// `RECONNECT_RESET_AFTER`
    pub reconnect_reset_after: Option<String>,
    /// `BATCH_MAX_SIZE`
    pub batch_max_size: Option<String>,
    /// `BATCH_FLUSH_MS`
    pub batch_flush_ms: Option<String>,
}

pub open spec fn is_digit(c: char) -> bool {
    '0' <= c <= '9'
}

pub open spec fn digit_value(c: char) -> nat {
    (c as int - '0' as int) as nat
}

/// Value of a sequence of decimal digits, most significant first.
pub open spec fn digits_value(s: Seq<char>) -> nat
    decreases s.len(),
{
    if s.len() == 0 {
        0
    } else {
        digits_value(s.drop_last()) * 10 + digit_value(s.last())
    }
}

/// The digits of an unsigned number: the text without its leading `+`, if any.
pub open spec fn unsigned_digits(s: Seq<char>) -> Seq<char> {
    if s.len() > 0 && s[0] == '+' {
        s.drop_first()
    } else {
        s
    }
}

/// Whether `s` is the text of an unsigned number: an optional `+`, then one
/// or more decimal digits.
pub open spec fn is_unsigned_text(s: Seq<char>) -> bool {
    let d = unsigned_digits(s);
    d.len() > 0 && forall|i: int| 0 <= i < d.len() ==> is_digit(#[trigger] d[i])
}

/// The number that `s` denotes, for an unsigned type whose largest value is
/// `max`; `None` when `s` is not such a number or its value exceeds `max`.
pub open spec fn parse_unsigned_spec(s: Seq<char>, max: nat) -> Option<nat> {
    if is_unsigned_text(s) && digits_value(unsigned_digits(s)) <= max {
        Some(digits_value(unsigned_digits(s)))
    } else {
        None
    }
}

/// The value of a variable: its number when it holds one that fits, else the
/// default.
pub open spec fn env_number(raw: Option<String>, max: nat, default: nat) -> nat {
    match raw {
        Some(s) => match parse_unsigned_spec(s@, max) {
            Some(v) => v,
            None => default,
        },
        None => default,
    }
}

/// Appending a digit never lowers the value.
proof fn lemma_digits_value_prefix(s: Seq<char>, i: int, j: int)
    requires
        0 <= i <= j <= s.len(),
    ensures
        digits_value(s.subrange(0, i)) <= digits_value(s.subrange(0, j)),
    decreases j - i,
{
    if i < j {
        lemma_digits_value_prefix(s, i, j - 1);
        assert(s.subrange(0, j).drop_last() =~= s.subrange(0, j - 1));
    }
}

/// What the text of a number means. Nothing, or a lone `+`, is no number; a
/// single decimal digit is its value; a leading `+` before the digits
/// changes nothing; appending a decimal digit to a number multiplies it by
/// ten and adds the digit (no number once that exceeds `max`); appending
/// any other character, or starting with one that is neither a digit nor
/// `+`, gives no number.
pub proof fn lemma_unsigned_text_meaning(s: Seq<char>, c: char, max: nat)
    ensures
        parse_unsigned_spec(Seq::empty(), max) is None,
        parse_unsigned_spec(seq!['+'], max) is None,
        '0' <= c <= '9' && (c as int) - 48 <= max ==> parse_unsigned_spec(seq![c], max) == Some(
            ((c as int) - 48) as nat,
        ),
        s.len() > 0 && s[0] != '+' ==> parse_unsigned_spec(seq!['+'] + s, max)
            == parse_unsigned_spec(s, max),
        parse_unsigned_spec(s, max) is Some && '0' <= c <= '9' ==> parse_unsigned_spec(
            s.push(c),
            max,
        ) == if parse_unsigned_spec(s, max)->0 * 10 + (c as int) - 48 <= max {
            Some((parse_unsigned_spec(s, max)->0 * 10 + (c as int) - 48) as nat)
        } else {
            None::<nat>
        },
        !('0' <= c <= '9') ==> parse_unsigned_spec(s.push(c), max) is None,
        !('0' <= c <= '9') && c != '+' ==> parse_unsigned_spec(seq![c] + s, max) is None,
{
    let one = seq![c];
    assert(one.drop_last() =~= Seq::<char>::empty());
    assert(one.last() == c);
    assert(unsigned_digits(seq!['+']) =~= Seq::<char>::empty());
    if s.len() > 0 && s[0] != '+' {
        assert((seq!['+'] + s)[0] == '+');
        assert(unsigned_digits(seq!['+'] + s) =~= s);
    }
    let t = s.push(c);
    if s.len() > 0 {
        assert(t[0] == s[0]);
        if s[0] == '+' {
            assert(unsigned_digits(t) =~= unsigned_digits(s).push(c));
        } else {
            assert(unsigned_digits(t) =~= unsigned_digits(s).push(c));
        }
        let d = unsigned_digits(s);
        assert(d.push(c).drop_last() =~= d);
        assert(d.push(c).last() == c);
        assert(d.push(c)[d.len() as int] == c);
        assert forall|i: int| 0 <= i < d.len() implies d.push(c)[i] == d[i] by {}
    } else {
        assert(t =~= one);
        if c == '+' {
            assert(unsigned_digits(t) =~= Seq::<char>::empty());
        } else {
            assert(unsigned_digits(t) =~= one);
            assert(one[0] == c);
        }
    }
    let u = seq![c] + s;
    assert(u[0] == c);
    if !('0' <= c <= '9') && c != '+' {
        assert(unsigned_digits(u) == u);
        assert(!is_digit(unsigned_digits(u)[0]));
    }
}

/// Parses an unsigned number no larger than `max`, as `str::parse` does for
/// an unsigned type whose largest value is `max`.
pub fn parse_unsigned(s: &str, max: u64) -> (res: Option<u64>)
    ensures
        match parse_unsigned_spec(s@, max as nat) {
            Some(v) => res == Some(v as u64),
            None => res is None,
        },
{
    let len = s.unicode_len();
    let mut start: usize = 0;
    if len > 0 && s.get_char(0) == '+' {
        start = 1;
    }
    let ghost d = unsigned_digits(s@);
    assert(d =~= s@.subrange(start as int, len as int));
    if start >= len {
        return None;
    }
    let mut value: u64 = 0;
    let mut i: usize = start;
    while i < len
        invariant
            start <= i <= len,
            len == s@.len(),
            d =~= s@.subrange(start as int, len as int),
            d == unsigned_digits(s@),
            d.len() > 0,
            forall|k: int| 0 <= k < i - start ==> is_digit(#[trigger] d[k]),
            value as nat == digits_value(d.subrange(0, i - start)),
            value <= max,
        decreases len - i,
    {
        let c = s.get_char(i);
        if !('0' <= c && c <= '9') {
            assert(!is_digit(d[i - start]));
            return None;
        }
        let digit = (c as u32 - '0' as u32) as u64;
        assert(d.subrange(0, i + 1 - start).drop_last() =~= d.subrange(0, i - start));
        let next = match value.checked_mul(10) {
            Some(tens) => tens.checked_add(digit),
            None => None,
        };
        match next {
            Some(n) => {
                if n > max {
                    proof {
                        lemma_digits_value_prefix(d, i + 1 - start, d.len() as int);
                        assert(d.subrange(0, d.len() as int) =~= d);
                    }
                    return None;
                }
                value = n;
            },
            None => {
                proof {
                    lemma_digits_value_prefix(d, i + 1 - start, d.len() as int);
                    assert(d.subrange(0, d.len() as int) =~= d);
                }
                return None;
            },
        }
        i = i + 1;
    }
    assert(d.subrange(0, d.len() as int) =~= d);
    Some(value)
}

/// A `u64` setting: the number held by `raw` when there is one, else `default`.
pub fn parse_env_u64(raw: &Option<String>, default: u64) -> (v: u64)
    ensures
        v == env_number(*raw, u64::MAX as nat, default as nat),
{
    match raw {
        Some(s) => match parse_unsigned(s.as_str(), u64::MAX) {
            Some(v) => v,
            None => default,
        },
        None => default,
    }
}

/// A `u32` setting: the number held by `raw` when there is one, else `default`.
pub fn parse_env_u32(raw: &Option<String>, default: u32) -> (v: u32)
    ensures
        v == env_number(*raw, u32::MAX as nat, default as nat),
{
    match raw {
        Some(s) => match parse_unsigned(s.as_str(), u32::MAX as u64) {
            Some(v) => v as u32,
            None => default,
        },
        None => default,
    }
}

/// A `usize` setting: the number held by `raw` when there is one, else `default`.
pub fn parse_env_usize(raw: &Option<String>, default: usize) -> (v: usize)
    ensures
        v == env_number(*raw, usize::MAX as nat, default as nat),
{
    match raw {
        Some(s) => match parse_unsigned(s.as_str(), usize::MAX as u64) {
            Some(v) => v as usize,
            None => default,
        },
        None => default,
    }
}

/// The symbols to follow: the value of `SYMBOL_FILTER` alone when it is set
/// and not empty, else the default list.
pub open spec fn configured_symbols(filter: Option<String>) -> Seq<Seq<char>> {
    match filter {
        Some(s) => if s@.len() > 0 {
            seq![s@]
        } else {
            default_symbols()
        },
        None => default_symbols(),
    }
}

fn default_symbol_list() -> (v: Vec<String>)
    ensures
        v@.map_values(|s: String| s@) == default_symbols(),
{
    let v = vec![
        "btc/usd".to_string(),
        "eth/usd".to_string(),
        "sol/usd".to_string(),
        "xrp/usd".to_string(),
        "hype/usd".to_string(),
        "doge/usd".to_string(),
        "bnb/usd".to_string(),
    ];
    assert(v@.map_values(|s: String| s@) =~= default_symbols());
    v
}

/// Builds the configuration from the environment's values. Every setting
/// that is missing or not a number that fits falls back to its default:
/// ping every 5 s; at most 10 reconnect attempts, backoff from 1 s up to
/// 60 s with up to 1000 ms of jitter, the attempt count reset after 60 s;
/// batches of 500 rows or every 100 ms.
/// `DATABASE_URL` must be set: without it there is no configuration.
pub fn load(vars: EnvVars) -> (cfg: AppConfig)
    requires
        vars.database_url is Some,
    ensures
        cfg.database_url@ == vars.database_url->0@,
        cfg.ws_url@ == match vars.ws_url {
            Some(u) => u@,
            None => default_ws_url(),
        },
        cfg.symbols@.map_values(|s: String| s@) == configured_symbols(vars.symbol_filter),
        cfg.symbols@.len() >= 1,
        cfg.ping_interval_secs == env_number(vars.ping_interval_secs, u64::MAX as nat, 5),
        cfg.reconnect.max_attempts == env_number(
            vars.reconnect_max_attempts,
            u32::MAX as nat,
            10,
        ),
        cfg.reconnect.initial_backoff_secs == env_number(
            vars.reconnect_initial_backoff,
            u64::MAX as nat,
            1,
        ),
        cfg.reconnect.max_backoff_secs == env_number(
            vars.reconnect_max_backoff,
            u64::MAX as nat,
            60,
        ),
        cfg.reconnect.jitter_millis == env_number(
            vars.reconnect_jitter_ms,
            u64::MAX as nat,
            1000,
        ),
        cfg.reconnect.reset_after_secs == env_number(
            vars.reconnect_reset_after,
            u64::MAX as nat,
            60,
        ),
        cfg.batch.max_size == env_number(vars.batch_max_size, usize::MAX as nat, 500),
        cfg.batch.flush_interval_ms == env_number(vars.batch_flush_ms, u64::MAX as nat, 100),
{
    let database_url = vars.database_url.unwrap();
    let ws_url = match vars.ws_url {
        Some(u) => u,
        None => "wss://ws-live-data.polymarket.com".to_string(),
    };
    let symbols = match vars.symbol_filter {
        Some(s) => if s.as_str().unicode_len() > 0 {
            let v = vec![s];
            assert(v@.map_values(|s: String| s@) =~= configured_symbols(vars.symbol_filter));
            v
        } else {
            default_symbol_list()
        },
        None => default_symbol_list(),
    };
    let ping_interval_secs = parse_env_u64(&vars.ping_interval_secs, 5);
    let reconnect = ReconnectConfig {
        max_attempts: parse_env_u32(&vars.reconnect_max_attempts, 10),
        initial_backoff_secs: parse_env_u64(&vars.reconnect_initial_backoff, 1),
        max_backoff_secs: parse_env_u64(&vars.reconnect_max_backoff, 60),
        jitter_millis: parse_env_u64(&vars.reconnect_jitter_ms, 1000),
        reset_after_secs: parse_env_u64(&vars.reconnect_reset_after, 60),
    };
    let batch = BatchConfig {
        max_size: parse_env_usize(&vars.batch_max_size, 500),
        flush_interval_ms: parse_env_u64(&vars.batch_flush_ms, 100),
    };
    assert(symbols@.map_values(|s: String| s@) == configured_symbols(vars.symbol_filter));
    assert(symbols@.len() >= 1) by {
        assert(symbols@.map_values(|s: String| s@).len() == symbols@.len());
    }
    AppConfig { ws_url, database_url, symbols, ping_interval_secs, reconnect, batch }
}

} // verus!
