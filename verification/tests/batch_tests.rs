use chainlink_ingest::batch::{BatchAction, BatchEvent, BatchWriter};
use chainlink_ingest::models::{BatchConfig, PriceRow};

fn row(symbol: &str, price: f64, ts: i64) -> PriceRow {
    PriceRow { symbol: symbol.to_string(), price_bits: price.to_bits(), timestamp: ts }
}

fn key(r: &PriceRow) -> (String, u64, i64) {
    (r.symbol.clone(), r.price_bits, r.timestamp)
}

fn writer(max_size: usize) -> BatchWriter {
    BatchWriter::new(&BatchConfig { max_size, flush_interval_ms: 100 })
}

#[test]
fn tick_with_nothing_pending_waits() {
    let mut w = writer(3);
    assert!(matches!(w.handle(BatchEvent::Tick), BatchAction::Wait));
    assert_eq!(w.pending_len(), 0);
}

#[test]
fn rows_accumulate_until_the_limit() {
    let mut w = writer(3);
    assert!(matches!(w.handle(BatchEvent::Row(row("btc/usd", 1.5, 1))), BatchAction::Wait));
    assert!(matches!(w.handle(BatchEvent::Row(row("btc/usd", 2.5, 2))), BatchAction::Wait));
    assert_eq!(w.pending_len(), 2);
    match w.handle(BatchEvent::Row(row("btc/usd", 3.5, 3))) {
        BatchAction::Flush(rows) => {
            assert_eq!(rows.len(), 3);
            assert_eq!(rows.iter().map(|r| r.timestamp).collect::<Vec<_>>(), vec![1, 2, 3]);
            assert_eq!(f64::from_bits(rows[2].price_bits), 3.5);
        }
        _ => panic!("expected a flush at the limit"),
    }
    assert_eq!(w.pending_len(), 0);
}

#[test]
fn tick_flushes_pending_rows() {
    let mut w = writer(10);
    w.handle(BatchEvent::Row(row("eth/usd", 10.0, 7)));
    match w.handle(BatchEvent::Tick) {
        BatchAction::Flush(rows) => {
            assert_eq!(rows.len(), 1);
            assert_eq!(key(&rows[0]), ("eth/usd".to_string(), 10.0f64.to_bits(), 7));
        }
        _ => panic!("expected a flush on tick"),
    }
    assert_eq!(w.pending_len(), 0);
}

#[test]
fn close_flushes_remaining_and_stops() {
    let mut w = writer(10);
    w.handle(BatchEvent::Row(row("sol/usd", 1.0, 1)));
    w.handle(BatchEvent::Row(row("sol/usd", 2.0, 2)));
    match w.handle(BatchEvent::Closed) {
        BatchAction::FlushAndStop(rows) => assert_eq!(rows.len(), 2),
        _ => panic!("expected the remaining rows on close"),
    }
    assert_eq!(w.pending_len(), 0);
}

#[test]
fn close_with_nothing_pending_stops() {
    let mut w = writer(10);
    assert!(matches!(w.handle(BatchEvent::Closed), BatchAction::Stop));
}

#[test]
fn zero_limit_flushes_every_row() {
    let mut w = writer(0);
    match w.handle(BatchEvent::Row(row("x", 0.0, 5))) {
        BatchAction::Flush(rows) => assert_eq!(rows.len(), 1),
        _ => panic!("expected an immediate flush"),
    }
    assert_eq!(w.pending_len(), 0);
}

#[test]
fn every_row_is_written_once_in_order() {
    let mut w = writer(4);
    let mut written: Vec<(String, u64, i64)> = Vec::new();
    let mut sent: Vec<(String, u64, i64)> = Vec::new();
    for i in 0..23i64 {
        let r = row("doge/usd", i as f64 * 0.25, i);
        sent.push(key(&r));
        let ev = if i % 7 == 3 { BatchEvent::Tick } else { BatchEvent::Row(r) };
        if i % 7 == 3 {
            sent.pop();
        }
        match w.handle(ev) {
            BatchAction::Flush(rows) => {
                assert!(!rows.is_empty() && rows.len() <= 4);
                written.extend(rows.iter().map(key));
            }
            BatchAction::Wait => {}
            _ => panic!("unexpected stop"),
        }
        assert!(w.pending_len() < 4);
    }
    match w.handle(BatchEvent::Closed) {
        BatchAction::FlushAndStop(rows) => written.extend(rows.iter().map(key)),
        BatchAction::Stop => {}
        _ => panic!("expected the writer to stop"),
    }
    assert_eq!(written, sent);
}
