use chainlink_ingest::models::{
    AppConfig, BatchConfig, DataPoint, PricePayload, ReconnectConfig, SnapshotPayload, WsMessage,
};
use chainlink_ingest::ws::{
    backoff_base_secs, backoff_with_jitter, compute_backoff, on_frame, route_message,
    snapshot_rows, str_equals, subscribe_request, trim, update_row, Backoff, Frame, FrameAction,
    MessageRoute, ReconnectDecision, ReconnectState,
};

fn reconnect(max_attempts: u32, base: u64, max: u64, jitter: u64, reset: u64) -> ReconnectConfig {
    ReconnectConfig {
        max_attempts,
        initial_backoff_secs: base,
        max_backoff_secs: max,
        jitter_millis: jitter,
        reset_after_secs: reset,
    }
}

fn app(reconnect: ReconnectConfig) -> AppConfig {
    AppConfig {
        ws_url: "wss://x".to_string(),
        database_url: "db".to_string(),
        symbols: vec!["btc/usd".to_string()],
        ping_interval_secs: 5,
        reconnect,
        batch: BatchConfig { max_size: 500, flush_interval_ms: 100 },
    }
}

#[test]
fn backoff_doubles_then_caps() {
    let cfg = reconnect(10, 1, 60, 0, 60);
    let secs: Vec<u64> = (0..9).map(|a| backoff_base_secs(&cfg, a)).collect();
    assert_eq!(secs, vec![1, 1, 2, 4, 8, 16, 32, 60, 60]);
}

#[test]
fn backoff_saturates_on_huge_attempts() {
    let cfg = reconnect(u32::MAX, 3, u64::MAX, 0, 60);
    assert_eq!(backoff_base_secs(&cfg, 64), u64::MAX);
    assert_eq!(backoff_base_secs(&reconnect(9, 1, u64::MAX, 0, 60), 64), 1u64 << 63);
    assert_eq!(backoff_base_secs(&reconnect(9, 1, u64::MAX, 0, 60), 65), u64::MAX);
    assert_eq!(backoff_base_secs(&cfg, 65), u64::MAX);
    assert_eq!(backoff_base_secs(&cfg, u32::MAX), u64::MAX);
    assert_eq!(backoff_base_secs(&reconnect(5, 0, 60, 0, 60), 40), 0);
}

#[test]
fn backoff_never_exceeds_max_and_never_shrinks() {
    let cfg = reconnect(100, 7, 1000, 0, 60);
    let mut last = 0;
    for a in 0..100u32 {
        let s = backoff_base_secs(&cfg, a);
        assert!(s <= 1000);
        assert!(s >= last);
        last = s;
    }
}

#[test]
fn first_retry_waits_initial_backoff() {
    assert_eq!(backoff_base_secs(&reconnect(10, 5, 60, 0, 60), 1), 5);
    assert_eq!(backoff_base_secs(&reconnect(10, 90, 60, 0, 60), 1), 60);
}

#[test]
fn jitter_stays_below_bound() {
    let cfg = app(reconnect(10, 1, 60, 1000, 60));
    for _ in 0..200 {
        let b = compute_backoff(&cfg, 3);
        assert_eq!(b.secs, 4);
        assert!(b.jitter_millis < 1000);
    }
}

#[test]
fn jitter_of_one_is_always_zero() {
    let cfg = app(reconnect(10, 1, 60, 1, 60));
    for _ in 0..50 {
        assert_eq!(compute_backoff(&cfg, 2), Backoff { secs: 2, jitter_millis: 0 });
    }
}

#[test]
fn no_jitter_when_disabled() {
    let cfg = app(reconnect(10, 2, 60, 0, 60));
    assert_eq!(compute_backoff(&cfg, 1), Backoff { secs: 2, jitter_millis: 0 });
    assert_eq!(backoff_with_jitter(&cfg, 2, 17), Backoff { secs: 4, jitter_millis: 17 });
}

#[test]
fn gives_up_after_max_attempts() {
    let mut st = ReconnectState::new(&reconnect(3, 1, 60, 0, 60));
    assert_eq!(st.after_connection(None), ReconnectDecision::Retry { attempt: 1 });
    assert_eq!(st.after_connection(Some(5)), ReconnectDecision::Retry { attempt: 2 });
    assert_eq!(st.after_connection(None), ReconnectDecision::GiveUp);
    assert_eq!(st.after_connection(None), ReconnectDecision::GiveUp);
}

#[test]
fn long_lived_connection_resets_the_count() {
    let mut st = ReconnectState::new(&reconnect(3, 1, 60, 0, 60));
    assert_eq!(st.after_connection(None), ReconnectDecision::Retry { attempt: 1 });
    assert_eq!(st.after_connection(None), ReconnectDecision::Retry { attempt: 2 });
    assert_eq!(st.after_connection(Some(60)), ReconnectDecision::Retry { attempt: 1 });
    assert_eq!(st.attempt(), 1);
}

#[test]
fn zero_or_one_max_attempts_gives_up_at_once() {
    let mut st = ReconnectState::new(&reconnect(0, 1, 60, 0, 60));
    assert_eq!(st.after_connection(None), ReconnectDecision::GiveUp);
    let mut st = ReconnectState::new(&reconnect(1, 1, 60, 0, 60));
    assert_eq!(st.after_connection(Some(1000)), ReconnectDecision::GiveUp);
}

#[test]
fn trim_removes_unicode_whitespace() {
    assert_eq!(trim("  a b \n"), "a b");
    assert_eq!(trim("\u{3000}\u{a0}x\u{2028}"), "x");
    assert_eq!(trim(" \t\r\n"), "");
    assert_eq!(trim(""), "");
    for s in ["\u{85}é\u{200a}", " ∑ x ", "\u{1680}\u{202f}\u{205f}q", "\u{b}\u{c}z\u{2029}"] {
        assert_eq!(trim(s), s.trim());
    }
}

#[test]
fn str_equals_compares_text() {
    assert!(str_equals("abc", "abc"));
    assert!(!str_equals("abc", "abd"));
    assert!(!str_equals("ab", "abc"));
    assert!(str_equals("", ""));
}

#[test]
fn frames_are_classified() {
    assert!(matches!(on_frame(Frame::Text("  PONG \n".to_string())), FrameAction::Ignore));
    assert!(matches!(on_frame(Frame::Text("   ".to_string())), FrameAction::Ignore));
    match on_frame(Frame::Text(" {\"a\":1}\n".to_string())) {
        FrameAction::Handle(t) => assert_eq!(t, "{\"a\":1}"),
        _ => panic!("expected the text to be handled"),
    }
    match on_frame(Frame::Text("pong".to_string())) {
        FrameAction::Handle(t) => assert_eq!(t, "pong"),
        _ => panic!("only PONG is a keep-alive answer"),
    }
    match on_frame(Frame::Ping(vec![1, 2, 3])) {
        FrameAction::SendPong(d) => assert_eq!(d, vec![1, 2, 3]),
        _ => panic!("expected a pong"),
    }
    assert!(matches!(on_frame(Frame::Close), FrameAction::Stop));
    assert!(matches!(on_frame(Frame::ReadError), FrameAction::Stop));
    assert!(matches!(on_frame(Frame::Pong(vec![])), FrameAction::Ignore));
    assert!(matches!(on_frame(Frame::Binary(vec![9])), FrameAction::Ignore));
    assert!(matches!(on_frame(Frame::Raw), FrameAction::Ignore));
    assert!(matches!(on_frame(Frame::Ended), FrameAction::Ignore));
}

fn msg(topic: &str, ty: &str, payload: Option<serde_json::Value>) -> WsMessage {
    WsMessage { topic: topic.to_string(), message_type: ty.to_string(), timestamp: Some(1), payload }
}

#[test]
fn messages_are_routed() {
    let v = serde_json::Value::Bool(true);
    assert!(matches!(route_message(msg("crypto_prices", "subscribe", None)), MessageRoute::NoPayload));
    match route_message(msg("crypto_prices", "subscribe", Some(v.clone()))) {
        MessageRoute::Snapshot(p) => assert_eq!(p, v),
        _ => panic!("expected a snapshot"),
    }
    match route_message(msg("crypto_prices_chainlink", "update", Some(v.clone()))) {
        MessageRoute::Update(p) => assert_eq!(p, v),
        _ => panic!("expected an update"),
    }
    match route_message(msg("crypto_prices_chainlink", "subscribe", Some(v.clone()))) {
        MessageRoute::Skip { topic, message_type } => {
            assert_eq!(topic, "crypto_prices_chainlink");
            assert_eq!(message_type, "subscribe");
        }
        _ => panic!("expected a skip"),
    }
    assert!(matches!(route_message(msg("crypto_prices", "update", Some(v))), MessageRoute::Skip { .. }));
}

#[test]
fn snapshot_becomes_rows_in_order() {
    let snap = SnapshotPayload {
        symbol: "xrp/usd".to_string(),
        data: vec![
            DataPoint { timestamp: 10, value_bits: 0.5f64.to_bits() },
            DataPoint { timestamp: 20, value_bits: 0.75f64.to_bits() },
        ],
    };
    let rows = snapshot_rows(&snap);
    assert_eq!(rows.len(), 2);
    assert_eq!(rows[0].symbol, "xrp/usd");
    assert_eq!(rows[1].symbol, "xrp/usd");
    assert_eq!(rows[0].timestamp, 10);
    assert_eq!(f64::from_bits(rows[1].price_bits), 0.75);
    let empty = SnapshotPayload { symbol: "x".to_string(), data: vec![] };
    assert!(snapshot_rows(&empty).is_empty());
}

#[test]
fn update_becomes_one_row() {
    let r = update_row(PricePayload { symbol: "bnb/usd".to_string(), timestamp: 42, value_bits: 600.25f64.to_bits() });
    assert_eq!(r.symbol, "bnb/usd");
    assert_eq!(r.timestamp, 42);
    assert_eq!(f64::from_bits(r.price_bits), 600.25);
}

#[test]
fn subscribe_request_names_the_symbol() {
    let req = subscribe_request("btc/usd");
    assert_eq!(req.action, "subscribe");
    assert_eq!(req.subscriptions.len(), 1);
    assert_eq!(req.subscriptions[0].topic, "crypto_prices_chainlink");
    assert_eq!(req.subscriptions[0].message_type, "*");
    assert_eq!(req.subscriptions[0].filters, "{\"symbol\":\"btc/usd\"}");
}

#[test]
fn subscribe_filter_escapes_json() {
    let req = subscribe_request("a\"b\\c\n\u{1}é");
    assert_eq!(req.subscriptions[0].filters, "{\"symbol\":\"a\\\"b\\\\c\\n\\u0001é\"}");
}
