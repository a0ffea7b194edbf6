use rust_candles_retriever::candle::Candle;
use rust_candles_retriever::store::{Store, StoreError, TimeframeStatus};

fn bar(open_time: i64, open: i64, interval: i64) -> Candle {
    Candle {
        open_time,
        open,
        high: open + 5,
        low: open - 5,
        close: open + 2,
        volume: 100,
        close_time: open_time + interval - 1,
        quote_asset_volume: 0,
        number_of_trades: 10,
        taker_buy_base_asset_volume: 0,
        taker_buy_quote_asset_volume: 0,
        interpolated: false,
    }
}

#[test]
fn open_is_idempotent_in_memory() {
    let store = Store::open(":memory:");
    assert!(store.is_ok());
}

#[test]
fn open_of_an_impossible_path_reports_backend_error() {
    let r = Store::open("/nonexistent-dir-for-candles/sub/x.db");
    assert!(matches!(r, Err(StoreError::Backend)));
}

#[test]
fn insert_batch_counts_only_new_rows() {
    let mut store = Store::open(":memory:").unwrap();
    let iv = 3_600_000;
    let rows = vec![bar(0, 100, iv), bar(iv, 102, iv), bar(2 * iv, 104, iv)];
    let n = store.insert_batch("binance", "BTCUSDT", "1h", &rows).unwrap();
    assert_eq!(n, 3);
    let again = vec![bar(iv, 102, iv), bar(3 * iv, 106, iv)];
    let n2 = store.insert_batch("binance", "BTCUSDT", "1h", &again).unwrap();
    assert_eq!(n2, 1);
}

#[test]
fn insert_batch_is_idempotent() {
    let mut store = Store::open(":memory:").unwrap();
    let iv = 300_000;
    let rows = vec![bar(0, 100, iv), bar(iv, 101, iv), bar(2 * iv, 102, iv)];
    let n1 = store.insert_batch("binance", "ETHUSDT", "5m", &rows).unwrap();
    let scan1 = store.range_scan("binance", "ETHUSDT", "5m", i64::MIN, i64::MAX).unwrap();
    let n2 = store.insert_batch("binance", "ETHUSDT", "5m", &rows).unwrap();
    let scan2 = store.range_scan("binance", "ETHUSDT", "5m", i64::MIN, i64::MAX).unwrap();
    assert_eq!(n1, 3);
    assert_eq!(n2, 0);
    assert_eq!(scan1, scan2);
}

#[test]
fn duplicate_key_keeps_the_first_row() {
    let mut store = Store::open(":memory:").unwrap();
    let iv = 300_000;
    let first = bar(0, 100, iv);
    let mut second = bar(0, 999, iv);
    second.volume = 1;
    store.insert_batch("binance", "BTCUSDT", "5m", &vec![first]).unwrap();
    let n = store.insert_batch("binance", "BTCUSDT", "5m", &vec![second]).unwrap();
    assert_eq!(n, 0);
    let rows = store.range_scan("binance", "BTCUSDT", "5m", i64::MIN, i64::MAX).unwrap();
    assert_eq!(rows.len(), 1);
    assert_eq!(rows[0].open, 100);
}

#[test]
fn range_scan_is_sorted_and_windowed() {
    let mut store = Store::open(":memory:").unwrap();
    let iv = 300_000;
    let rows = vec![bar(2 * iv, 104, iv), bar(0, 100, iv), bar(iv, 102, iv)];
    store.insert_batch("binance", "BTCUSDT", "5m", &rows).unwrap();
    let all = store.range_scan("binance", "BTCUSDT", "5m", i64::MIN, i64::MAX).unwrap();
    assert_eq!(all.len(), 3);
    assert!(all[0].open_time < all[1].open_time && all[1].open_time < all[2].open_time);
    let window = store.range_scan("binance", "BTCUSDT", "5m", iv, 2 * iv).unwrap();
    assert_eq!(window.len(), 2);
    assert_eq!(window[0].open_time, iv);
    // other series are invisible
    let none = store.range_scan("binance", "BTCUSDT", "1h", i64::MIN, i64::MAX).unwrap();
    assert!(none.is_empty());
}

#[test]
fn cursor_rows_update_and_read_back() {
    let mut store = Store::open(":memory:").unwrap();
    assert_eq!(
        TimeframeStatus::get_last_candle_time(&store, "binance", "BTCUSDT", "1h").unwrap(),
        None
    );
    TimeframeStatus::update_progress(&mut store, "binance", "BTCUSDT", "1h", 42_000, 777).unwrap();
    assert_eq!(
        TimeframeStatus::get_last_candle_time(&store, "binance", "BTCUSDT", "1h").unwrap(),
        Some(42_000)
    );
    assert_eq!(
        TimeframeStatus::is_complete(&store, "binance", "BTCUSDT", "1h").unwrap(),
        false
    );
    TimeframeStatus::mark_complete(&mut store, "binance", "BTCUSDT", "1h", Some(42_000), 778)
        .unwrap();
    assert!(TimeframeStatus::is_complete(&store, "binance", "BTCUSDT", "1h").unwrap());
    // the cursor is per-series
    assert_eq!(
        TimeframeStatus::get_last_candle_time(&store, "binance", "BTCUSDT", "5m").unwrap(),
        None
    );
}
