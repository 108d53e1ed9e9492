use chainlink_ingest::config::{load, parse_env_u32, parse_env_u64, parse_env_usize, parse_unsigned, EnvVars};

fn empty_vars() -> EnvVars {
    EnvVars {
        database_url: None,
        ws_url: None,
        symbol_filter: None,
        ping_interval_secs: None,
        reconnect_max_attempts: None,
        reconnect_initial_backoff: None,
        reconnect_max_backoff: None,
        reconnect_jitter_ms: None,
        reconnect_reset_after: None,
        batch_max_size: None,
        batch_flush_ms: None,
    }
}

fn some(s: &str) -> Option<String> {
    Some(s.to_string())
}

#[test]
fn defaults_apply_when_only_database_url_is_set() {
    let mut vars = empty_vars();
    vars.database_url = some("postgres://u@h/db");
    let cfg = load(vars);
    assert_eq!(cfg.database_url, "postgres://u@h/db");
    assert_eq!(cfg.ws_url, "wss://ws-live-data.polymarket.com");
    assert_eq!(
        cfg.symbols,
        vec!["btc/usd", "eth/usd", "sol/usd", "xrp/usd", "hype/usd", "doge/usd", "bnb/usd"]
    );
    assert_eq!(cfg.ping_interval_secs, 5);
    assert_eq!(cfg.reconnect.max_attempts, 10);
    assert_eq!(cfg.reconnect.initial_backoff_secs, 1);
    assert_eq!(cfg.reconnect.max_backoff_secs, 60);
    assert_eq!(cfg.reconnect.jitter_millis, 1000);
    assert_eq!(cfg.reconnect.reset_after_secs, 60);
    assert_eq!(cfg.batch.max_size, 500);
    assert_eq!(cfg.batch.flush_interval_ms, 100);
}

#[test]
fn explicit_settings_are_used() {
    let vars = EnvVars {
        database_url: some("postgres://x"),
        ws_url: some("wss://example.org/feed"),
        symbol_filter: some("eth/usd"),
        ping_interval_secs: some("7"),
        reconnect_max_attempts: some("+3"),
        reconnect_initial_backoff: some("2"),
        reconnect_max_backoff: some("30"),
        reconnect_jitter_ms: some("0"),
        reconnect_reset_after: some("120"),
        batch_max_size: some("50"),
        batch_flush_ms: some("250"),
    };
    let cfg = load(vars);
    assert_eq!(cfg.ws_url, "wss://example.org/feed");
    assert_eq!(cfg.symbols, vec!["eth/usd"]);
    assert_eq!(cfg.ping_interval_secs, 7);
    assert_eq!(cfg.reconnect.max_attempts, 3);
    assert_eq!(cfg.reconnect.initial_backoff_secs, 2);
    assert_eq!(cfg.reconnect.max_backoff_secs, 30);
    assert_eq!(cfg.reconnect.jitter_millis, 0);
    assert_eq!(cfg.reconnect.reset_after_secs, 120);
    assert_eq!(cfg.batch.max_size, 50);
    assert_eq!(cfg.batch.flush_interval_ms, 250);
}

#[test]
fn empty_symbol_filter_falls_back_to_defaults() {
    let mut vars = empty_vars();
    vars.database_url = some("db");
    vars.symbol_filter = some("");
    let cfg = load(vars);
    assert_eq!(cfg.symbols.len(), 7);
    assert_eq!(cfg.symbols[0], "btc/usd");
}

#[test]
fn unparsable_settings_fall_back_to_defaults() {
    let mut vars = empty_vars();
    vars.database_url = some("db");
    vars.ping_interval_secs = some(" 7");
    vars.reconnect_max_attempts = some("4294967296");
    vars.batch_max_size = some("-1");
    vars.batch_flush_ms = some("1_000");
    let cfg = load(vars);
    assert_eq!(cfg.ping_interval_secs, 5);
    assert_eq!(cfg.reconnect.max_attempts, 10);
    assert_eq!(cfg.batch.max_size, 500);
    assert_eq!(cfg.batch.flush_interval_ms, 100);
}

#[test]
fn parse_unsigned_agrees_with_std() {
    let cases = [
        "", "+", "-", "0", "+0", "-0", "00042", "42", "+42", "4 2", " 42", "42 ", "4x", "x",
        "++1", "18446744073709551615", "18446744073709551616", "99999999999999999999999",
        "٣", "1٣",
    ];
    for s in cases.iter() {
        assert_eq!(parse_unsigned(s, u64::MAX), s.parse::<u64>().ok(), "u64 {:?}", s);
        assert_eq!(
            parse_unsigned(s, u32::MAX as u64).map(|v| v as u32),
            s.parse::<u32>().ok(),
            "u32 {:?}",
            s
        );
    }
}

#[test]
fn parse_unsigned_limits() {
    assert_eq!(parse_unsigned("4294967295", u32::MAX as u64), Some(4294967295));
    assert_eq!(parse_unsigned("4294967296", u32::MAX as u64), None);
    assert_eq!(parse_unsigned("100", 99), None);
    assert_eq!(parse_unsigned("99", 99), Some(99));
}

#[test]
fn parse_env_helpers_fall_back() {
    assert_eq!(parse_env_u64(&None, 9), 9);
    assert_eq!(parse_env_u64(&Some("12".to_string()), 9), 12);
    assert_eq!(parse_env_u64(&Some("twelve".to_string()), 9), 9);
    assert_eq!(parse_env_u32(&Some("5000000000".to_string()), 3), 3);
    assert_eq!(parse_env_u32(&Some("+77".to_string()), 3), 77);
    assert_eq!(parse_env_usize(&Some("64".to_string()), 1), 64);
    assert_eq!(parse_env_usize(&Some("".to_string()), 1), 1);
}
