//! Verified core of a candlestick ingestion and serving engine.
//!
//! The library stores OHLCV candles per trading symbol, backfills history
//! backward in time, interpolates gaps linearly, aggregates smaller
//! timeframes into larger ones, and tracks realtime partial candles.
//! Price-like fields are carried as integer price units; the unverified
//! shell around the library converts exchange floating-point values to
//! units and back.

pub mod api;
pub mod backfill;
pub mod candle;
pub mod gap_filler;
pub mod realtime;
pub mod retriever;
pub mod store;
pub mod timeframe;
pub mod utils;
pub mod verify;
