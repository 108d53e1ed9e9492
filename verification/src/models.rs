//! Data carried between the feed, the batcher and the database writer.
//!
//! Prices arrive as IEEE-754 doubles; the library never computes on them and
//! carries each one as its exact bit pattern (`f64::to_bits`).

use vstd::prelude::*;

verus! {

/// Request sent once per connection to subscribe to one symbol.
#[derive(Debug)]
pub struct SubscribeRequest {
    pub action: String,
    pub subscriptions: Vec<Subscription>,
}

/// One subscription entry of a [`SubscribeRequest`].
#[derive(Debug)]
pub struct Subscription {
    pub topic: String,
    pub message_type: String,
    pub filters: String,
}

/// A JSON document as parsed by `serde_json`; the library only carries it.
#[verifier::external_type_specification]
#[verifier::external_body]
pub struct ExJsonValue(serde_json::Value);

/// Envelope of every message received from the feed.
#[derive(Debug)]
pub struct WsMessage {
    pub topic: String,
    pub message_type: String,
    pub timestamp: Option<i64>,
    pub payload: Option<serde_json::Value>,
}

/// Payload of a real-time price update.
#[derive(Debug)]
pub struct PricePayload {
    pub symbol: String,
    pub timestamp: i64,
    /// Bit pattern of the price.
    pub value_bits: u64,
}

/// Payload of the snapshot sent right after subscribing.
#[derive(Debug)]
pub struct SnapshotPayload {
    pub symbol: String,
    pub data: Vec<DataPoint>,
}

/// One historical point of a snapshot.
#[derive(Debug)]
pub struct DataPoint {
    pub timestamp: i64,
    /// Bit pattern of the price.
    pub value_bits: u64,
}

/// One row of the price table.
#[derive(Debug)]
pub struct PriceRow {
    pub symbol: String,
    /// Bit pattern of the price.
    pub price_bits: u64,
    pub timestamp: i64,
}

/// Mathematical content of a [`PriceRow`].
pub struct PriceRowView {
    pub symbol: Seq<char>,
    pub price_bits: u64,
    pub timestamp: i64,
}

impl View for PriceRow {
    type V = PriceRowView;

    open spec fn view(&self) -> PriceRowView {
        PriceRowView { symbol: self.symbol@, price_bits: self.price_bits, timestamp: self.timestamp }
    }
}

/// Whole configuration of the ingester.
#[derive(Debug, Clone)]
pub struct AppConfig {
    pub ws_url: String,
    pub database_url: String,
    pub symbols: Vec<String>,
    pub ping_interval_secs: u64,
    pub reconnect: ReconnectConfig,
    pub batch: BatchConfig,
}

/// Reconnect policy of one feed connection.
#[derive(Debug, Clone, Copy)]
pub struct ReconnectConfig {
    pub max_attempts: u32,
    pub initial_backoff_secs: u64,
    pub max_backoff_secs: u64,
    pub jitter_millis: u64,
    pub reset_after_secs: u64,
}

/// Batching policy of the database writer.
#[derive(Debug, Clone, Copy)]
pub struct BatchConfig {
    pub max_size: usize,
    pub flush_interval_ms: u64,
}

} // verus!
