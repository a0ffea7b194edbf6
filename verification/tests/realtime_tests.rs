use rust_candles_retriever::realtime::{RealtimeCandle, RealtimeManager};
use rust_candles_retriever::store::Store;

fn tick(time: i64, close: i64, is_closed: bool) -> RealtimeCandle {
    RealtimeCandle {
        time,
        open: 100,
        high: close + 2,
        low: 95,
        close,
        volume: 7,
        is_closed,
    }
}

#[test]
fn subscribe_is_idempotent() {
    let mut mgr = RealtimeManager::new(".".to_string());
    assert!(mgr.subscribe("BTCUSDT".to_string(), "5m".to_string()));
    assert!(!mgr.subscribe("BTCUSDT".to_string(), "5m".to_string()));
    assert!(mgr.subscribe("BTCUSDT".to_string(), "1h".to_string()));
    assert!(mgr.subscribe("ETHUSDT".to_string(), "5m".to_string()));
}

#[test]
fn unsubscribe_evicts_the_cache_entry() {
    let mut mgr = RealtimeManager::new(".".to_string());
    mgr.subscribe("BTCUSDT".to_string(), "5m".to_string());
    mgr.apply_tick("BTCUSDT".to_string(), "5m".to_string(), tick(600, 101, false));
    mgr.unsubscribe("BTCUSDT".to_string(), "5m".to_string());
    let snap = mgr.get_candles("BTCUSDT", &vec!["5m".to_string()]);
    assert_eq!(snap.len(), 1);
    assert_eq!(snap[0].0, "5m");
    assert!(snap[0].1.is_none());
    // unsubscribing again is a no-op
    mgr.unsubscribe("BTCUSDT".to_string(), "5m".to_string());
}

#[test]
fn cache_reflects_the_latest_tick() {
    let mut mgr = RealtimeManager::new(".".to_string());
    mgr.subscribe("BTCUSDT".to_string(), "5m".to_string());
    for (i, close) in [101, 102, 103, 104].iter().enumerate() {
        let persist = mgr.apply_tick(
            "BTCUSDT".to_string(),
            "5m".to_string(),
            tick(600, *close, false),
        );
        assert!(!persist);
        let snap = mgr.get_candles("BTCUSDT", &vec!["5m".to_string()]);
        assert_eq!(snap[0].1.unwrap().close, *close, "observation {}", i);
    }
    // a tick for one key does not disturb another
    mgr.apply_tick("BTCUSDT".to_string(), "1h".to_string(), tick(0, 500, false));
    let snap = mgr.get_candles("BTCUSDT", &vec!["5m".to_string(), "1h".to_string()]);
    assert_eq!(snap[0].1.unwrap().close, 104);
    assert_eq!(snap[1].1.unwrap().close, 500);
}

#[test]
fn closed_tick_persists_exactly_once() {
    let mut mgr = RealtimeManager::new(".".to_string());
    let mut store = Store::open(":memory:").unwrap();
    mgr.subscribe("BTCUSDT".to_string(), "5m".to_string());
    // four open ticks, then a closing one
    for close in [101, 102, 103, 104] {
        let persist = mgr.apply_tick(
            "BTCUSDT".to_string(), "5m".to_string(), tick(600, close, false));
        assert!(!persist);
    }
    let closing = tick(600, 105, true);
    let persist = mgr.apply_tick("BTCUSDT".to_string(), "5m".to_string(), closing);
    assert!(persist);
    let fresh = RealtimeManager::save_completed_candle(
        &mut store, "BTCUSDT", "5m", &closing).unwrap();
    assert!(fresh);
    let rows = store.range_scan("binance", "BTCUSDT", "5m", i64::MIN, i64::MAX).unwrap();
    assert_eq!(rows.len(), 1);
    assert_eq!(rows[0].open_time, 600_000);
    assert_eq!(rows[0].close_time, 600_000 + 300_000 - 1);
    assert_eq!(rows[0].close, 105);
    assert_eq!(rows[0].quote_asset_volume, 0);
    assert_eq!(rows[0].number_of_trades, 0);
    assert!(!rows[0].interpolated);
    // a second close with the same open time does not create a duplicate
    let second = RealtimeManager::save_completed_candle(
        &mut store, "BTCUSDT", "5m", &tick(600, 999, true)).unwrap();
    assert!(!second);
    let rows = store.range_scan("binance", "BTCUSDT", "5m", i64::MIN, i64::MAX).unwrap();
    assert_eq!(rows.len(), 1);
    assert_eq!(rows[0].close, 105);
    // a fresh open tick lands in the cache afterwards
    mgr.apply_tick("BTCUSDT".to_string(), "5m".to_string(), tick(900, 106, false));
    let snap = mgr.get_candles("BTCUSDT", &vec!["5m".to_string()]);
    assert_eq!(snap[0].1.unwrap().time, 900);
    assert_eq!(snap[0].1.unwrap().close, 106);
}

#[test]
fn helper_mappings_match_the_exchange_format() {
    assert_eq!(RealtimeManager::timeframe_to_seconds("5m"), 300);
    assert_eq!(RealtimeManager::timeframe_to_seconds("1d"), 86_400);
    assert_eq!(RealtimeManager::to_binance_interval("15m"), "15m");
}
