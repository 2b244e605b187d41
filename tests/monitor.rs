use whiplash::buffer::{calc_volume_delta, BufferNode, DecodeError};
use whiplash::config::{Config, ConfigError, ConfigWarning};
use whiplash::event::{Event, Kline};
use whiplash::fixed::SCALE;
use whiplash::monitor::{decide, SymbolData, Verdict};

fn fx(x: f64) -> u64 {
    (x * SCALE as f64).round() as u64
}

fn event(e: u64, h: &str, l: &str, c: &str, v: &str, x: bool) -> Event {
    Event {
        E: e,
        k: Kline { c: c.to_string(), h: h.to_string(), l: l.to_string(), v: v.to_string(), x },
    }
}

fn config(ma: &str, threshold: f64, fraction: f64, min_vol: f64, symbols: Vec<&str>) -> Config {
    Config {
        atr_moving_average_type: ma.to_string(),
        atr_threshold: fx(threshold),
        atr_min_candles_percent: fx(fraction),
        min_vol_usdt: fx(min_vol),
        symbols: symbols.into_iter().map(|s| s.to_string()).collect(),
    }
}

#[test]
fn verdict_ready_only_when_both_conditions_hold() {
    let x = fx(1.5);
    assert_eq!(decide((true, x), 1_000, 1_000), Verdict { ready: true, atr: x, volume: 1_000 });
    assert!(!decide((false, x), 1_000, 1_000).ready);
    assert!(!decide((true, x), 999, 1_000).ready);
    assert!(decide((true, x), 5_000, 1_000).ready);
}

#[test]
fn config_coerces_moving_average_type() {
    let (c, warnings) = config("RMA", 0.5, 0.9, 10.0, vec!["BTCUSDT"]).validated().unwrap();
    assert_eq!(c.atr_moving_average_type, "EMA");
    assert_eq!(warnings, vec![ConfigWarning::MovingAverageType]);
    assert_eq!(c.atr_threshold, fx(0.5));
    assert_eq!(c.symbols, vec!["BTCUSDT".to_string()]);
}

#[test]
fn config_accepts_only_ema_itself() {
    let (c, warnings) = config("EMA", 0.5, 0.9, 10.0, vec!["BTCUSDT"]).validated().unwrap();
    assert_eq!(c.atr_moving_average_type, "EMA");
    assert!(warnings.is_empty());
    let (c, warnings) = config("ema", 0.5, 0.9, 10.0, vec!["BTCUSDT"]).validated().unwrap();
    assert_eq!(c.atr_moving_average_type, "EMA");
    assert_eq!(warnings, vec![ConfigWarning::MovingAverageType]);
}

#[test]
fn config_defaults_zero_thresholds() {
    let (c, warnings) = config("EMA", 0.0, 0.0, 10.0, vec!["BTCUSDT"]).validated().unwrap();
    assert_eq!(c.atr_threshold, fx(0.35));
    assert_eq!(c.atr_min_candles_percent, fx(0.8));
    assert_eq!(warnings, vec![ConfigWarning::MinCandlesPercent, ConfigWarning::AtrThreshold]);
}

#[test]
fn config_rejects_missing_symbols_or_volume() {
    assert_eq!(config("EMA", 0.5, 0.9, 10.0, vec![]).validated().err(), Some(ConfigError::NoSymbols));
    assert_eq!(
        config("EMA", 0.5, 0.9, 0.0, vec!["BTCUSDT"]).validated().err(),
        Some(ConfigError::NoMinVolume)
    );
}

#[test]
fn ingest_keeps_decoded_snapshot_and_skips_bad_frames() {
    let mut data = SymbolData::new("BTCUSDT", fx(0.35), fx(0.8), fx(100.0));
    assert_eq!(data.symbol, "BTCUSDT");
    let e = event(1_700_000_000_500, "101", "99", "100.5", "3", true);
    let n = data.ingest(&e).unwrap();
    assert_eq!(
        n,
        BufferNode { value: fx(300.0), ts: 1_700_000_000_500, confirmed: true, close_price: fx(100.5) }
    );
    assert_eq!(data.buffer().back(), Some(&n));
    let bad = event(1_700_000_000_600, "x", "99", "100", "3", false);
    assert_eq!(data.ingest(&bad), Err(DecodeError::InvalidNumber));
    assert_eq!(data.buffer().len(), 1);
}

#[test]
fn ring_keeps_the_newest_244_snapshots() {
    let mut data = SymbolData::new("BTCUSDT", fx(0.35), fx(0.8), fx(100.0));
    for i in 0..250u64 {
        data.ingest(&event(1_700_000_000_000 + i, "1", "1", "1", "1", false)).unwrap();
    }
    assert_eq!(data.buffer().len(), 244);
    assert_eq!(data.buffer().front().unwrap().ts, 1_700_000_000_006);
    assert_eq!(data.buffer().back().unwrap().ts, 1_700_000_000_249);
}

#[test]
fn evaluation_ticks_repeat_and_leave_the_ring() {
    let mut data = SymbolData::new("ETHUSDT", fx(0.5), fx(0.8), fx(100.0));
    let base: u64 = 1_700_000_000_000;
    data.ingest(&event(base + 900, "100", "100", "100", "1", false)).unwrap();
    data.ingest(&event(base + 1_400, "101", "100", "101", "2", false)).unwrap();
    data.ingest(&event(base + 1_600, "101", "100", "100.5", "3", false)).unwrap();
    let before = data.buffer().clone();
    let first = data.evaluate().unwrap();
    let second = data.evaluate().unwrap();
    assert_eq!(first, second);
    assert_eq!(data.buffer(), &before);
    // the volume is that of the last second of the ring
    assert_eq!(first.volume, calc_volume_delta(data.buffer(), 1));
    assert_eq!(first.volume, fx(201.5) as i128);
    assert_eq!(first.atr, fx(1.0));
    assert!(first.ready);
}

#[test]
fn evaluation_idle_below_volume_floor() {
    let mut data = SymbolData::new("ETHUSDT", fx(0.5), fx(0.8), fx(1000.0));
    let base: u64 = 1_700_000_000_000;
    data.ingest(&event(base + 900, "100", "100", "100", "1", false)).unwrap();
    data.ingest(&event(base + 1_400, "101", "100", "101", "2", false)).unwrap();
    data.ingest(&event(base + 1_600, "101", "100", "100.5", "3", false)).unwrap();
    let verdict = data.evaluate().unwrap();
    assert!(!verdict.ready);
    assert_eq!(verdict.atr, fx(1.0));
}
