//! Verified core of a price-feed ingester: configuration from environment
//! values, the reconnect and backoff policy of the per-symbol feed, the
//! decisions taken on each WebSocket frame and message, and the batching of
//! price rows before they are written to the database.

pub mod batch;
pub mod config;
pub mod models;
pub mod ws;
