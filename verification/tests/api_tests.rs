use rust_candles_retriever::api::{
    find_smaller_timeframe, floor_div_i64, get_candles_with_fallback, read_candles_page,
    resample_candles, ApiCandle,
};
use rust_candles_retriever::candle::Candle;
use rust_candles_retriever::store::Store;

const IV5M: i64 = 300_000;
const BASE_S: i64 = 1_700_000_000 - (1_700_000_000 % 3600);

fn five_min_bar(i: i64) -> Candle {
    let open_time = BASE_S * 1000 + i * IV5M;
    let open = 100 + i;
    Candle {
        open_time,
        open,
        high: open + 10,
        low: open - 10,
        close: open + 1,
        volume: 2,
        close_time: open_time + IV5M - 1,
        quote_asset_volume: 0,
        number_of_trades: 3,
        taker_buy_base_asset_volume: 0,
        taker_buy_quote_asset_volume: 0,
        interpolated: false,
    }
}

fn store_with_six_hours_of_5m() -> Store {
    let mut store = Store::open(":memory:").unwrap();
    let mut rows = Vec::new();
    for i in 0..72 {
        rows.push(five_min_bar(i));
    }
    let n = store.insert_batch("binance", "BTCUSDT", "5m", &rows).unwrap();
    assert_eq!(n, 72);
    store
}

#[test]
fn floor_division_rounds_toward_negative_infinity() {
    assert_eq!(floor_div_i64(7, 2), 3);
    assert_eq!(floor_div_i64(-7, 2), -4);
    assert_eq!(floor_div_i64(-6, 3), -2);
    assert_eq!(floor_div_i64(0, 5), 0);
    assert_eq!(floor_div_i64(i64::MIN, 1), i64::MIN);
    assert_eq!(floor_div_i64(-1, 1000), -1);
}

#[test]
fn page_read_scales_times_to_seconds() {
    let store = store_with_six_hours_of_5m();
    let page = read_candles_page(&store, "BTCUSDT", "5m", None, None, 10, 0).unwrap();
    assert_eq!(page.len(), 10);
    assert_eq!(page[0].time, BASE_S);
    assert_eq!(page[1].time, BASE_S + 300);
    assert_eq!(page[0].open, 100);
    let offset_page = read_candles_page(&store, "BTCUSDT", "5m", None, None, 10, 70).unwrap();
    assert_eq!(offset_page.len(), 2);
    assert_eq!(offset_page[0].open, 170);
    let windowed = read_candles_page(
        &store, "BTCUSDT", "5m", Some(BASE_S + 3600), Some(BASE_S + 7199), 1000, 0).unwrap();
    assert_eq!(windowed.len(), 12);
    assert_eq!(windowed[0].time, BASE_S + 3600);
}

#[test]
fn smaller_timeframe_is_the_largest_stored_one() {
    let store = store_with_six_hours_of_5m();
    let chosen = find_smaller_timeframe(&store, "BTCUSDT", "1h").unwrap();
    assert_eq!(chosen.as_deref(), Some("5m"));
    // nothing is smaller than the smallest candidate
    let none = find_smaller_timeframe(&store, "BTCUSDT", "5m").unwrap();
    assert_eq!(none, None);
    // a symbol with no data has no source either
    let empty = find_smaller_timeframe(&store, "NOUSDT", "1h").unwrap();
    assert_eq!(empty, None);
}

#[test]
fn downsample_fallback_aggregates_hours() {
    let store = store_with_six_hours_of_5m();
    let bars = get_candles_with_fallback(&store, "BTCUSDT", "1h", None, None, 2000, 0).unwrap();
    assert_eq!(bars.len(), 6);
    for (h, bar) in bars.iter().enumerate() {
        let h = h as i64;
        assert_eq!(bar.time, BASE_S + h * 3600);
        // open of the first five-minute bar of the hour
        assert_eq!(bar.open, 100 + h * 12);
        // close of the last one
        assert_eq!(bar.close, 100 + h * 12 + 11 + 1);
        // extremes over the twelve sub-bars
        assert_eq!(bar.high, 100 + h * 12 + 11 + 10);
        assert_eq!(bar.low, 100 + h * 12 - 10);
        // volumes summed
        assert_eq!(bar.volume, 24);
    }
}

#[test]
fn absent_source_gives_empty_response_not_error() {
    let store = Store::open(":memory:").unwrap();
    let bars = get_candles_with_fallback(&store, "BTCUSDT", "1h", None, None, 2000, 0).unwrap();
    assert!(bars.is_empty());
}

#[test]
fn direct_rows_win_over_the_fallback() {
    let mut store = store_with_six_hours_of_5m();
    let hour = Candle {
        open_time: BASE_S * 1000,
        open: 7,
        high: 9,
        low: 5,
        close: 8,
        volume: 1,
        close_time: BASE_S * 1000 + 3_600_000 - 1,
        quote_asset_volume: 0,
        number_of_trades: 1,
        taker_buy_base_asset_volume: 0,
        taker_buy_quote_asset_volume: 0,
        interpolated: false,
    };
    store.insert_batch("binance", "BTCUSDT", "1h", &vec![hour]).unwrap();
    let bars = get_candles_with_fallback(&store, "BTCUSDT", "1h", None, None, 2000, 0).unwrap();
    assert_eq!(bars.len(), 1);
    assert_eq!(bars[0].open, 7);
}

#[test]
fn resample_groups_and_truncates() {
    let mk = |time: i64, open: i64, close: i64, volume: i64| ApiCandle {
        time,
        open,
        high: close + 1,
        low: open - 1,
        close,
        volume,
    };
    let source = vec![
        mk(0, 10, 11, 1),
        mk(300, 11, 12, 2),
        mk(3600, 20, 21, 4),
        mk(3900, 21, 25, 8),
        mk(7200, 30, 31, 16),
    ];
    let out = resample_candles(&source, 3600, 10);
    assert_eq!(out.len(), 3);
    assert_eq!(out[0].time, 0);
    assert_eq!(out[0].open, 10);
    assert_eq!(out[0].close, 12);
    assert_eq!(out[0].high, 13);
    assert_eq!(out[0].low, 9);
    assert_eq!(out[0].volume, 3);
    assert_eq!(out[1].time, 3600);
    assert_eq!(out[1].volume, 12);
    assert_eq!(out[1].high, 26);
    assert_eq!(out[2].time, 7200);
    // the limit truncates the aggregated series
    let limited = resample_candles(&source, 3600, 2);
    assert_eq!(limited.len(), 2);
    assert_eq!(limited[1].time, 3600);
}
