//! Per-symbol market monitor: a ring of kline snapshots, per-second OHLC
//! reconstruction, an EMA-seeded ATR volatility condition and a traded-volume delta.
//!
//! Prices, volumes and notionals are fixed-point integers counted in units of
//! `1 / SCALE`; timestamps are milliseconds since the Unix epoch.
use vstd::prelude::*;

pub mod atr;
pub mod buffer;
pub mod config;
pub mod event;
pub mod fixed;
pub mod monitor;
