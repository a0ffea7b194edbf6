use rust_candles_retriever::candle::Candle;
use rust_candles_retriever::gap_filler::GapFiller;
use rust_candles_retriever::store::Store;

const BASE: i64 = 1_700_000_000_000;
const IV: i64 = 300_000;

fn bar_at_index(idx: i64, open: i64) -> Candle {
    let open_time = BASE + idx * IV;
    Candle {
        open_time,
        open,
        high: open + 4,
        low: open - 4,
        close: open + 1,
        volume: 50,
        close_time: open_time + IV - 1,
        quote_asset_volume: 7,
        number_of_trades: 12,
        taker_buy_base_asset_volume: 3,
        taker_buy_quote_asset_volume: 4,
        interpolated: false,
    }
}

fn seeded_store() -> Store {
    let mut store = Store::open(":memory:").unwrap();
    let mut rows = Vec::new();
    let mut open = 100;
    for idx in [0i64, 1, 2, 3, 4, 10, 11, 12, 16, 17, 18] {
        rows.push(bar_at_index(idx, open));
        open += 2;
    }
    let n = store.insert_batch("binance", "BTCUSDT", "5m", &rows).unwrap();
    assert_eq!(n, 11);
    store
}

#[test]
fn count_gaps_totals_missing_bars() {
    let store = seeded_store();
    let n = GapFiller::count_gaps_in_range(
        &store, "binance", "BTCUSDT", "5m", BASE, BASE + 18 * IV).unwrap();
    assert_eq!(n, 5 + 3);
}

#[test]
fn interpolation_fills_every_missing_bar() {
    let mut store = seeded_store();
    let filled = GapFiller::fill_gaps_in_range(
        &mut store, "binance", "BTCUSDT", "5m", BASE, BASE + 18 * IV).unwrap();
    assert_eq!(filled, 8);
    let rows = store.range_scan("binance", "BTCUSDT", "5m", i64::MIN, i64::MAX).unwrap();
    assert_eq!(rows.len(), 19);
    // after the fill every adjacent pair sits exactly one interval apart
    for w in rows.windows(2) {
        assert_eq!(w[1].open_time - w[0].open_time, IV);
    }
    // synthetic bars carry the flag; fetched bars do not
    for (i, row) in rows.iter().enumerate() {
        let idx = i as i64;
        let synthetic = (5..=9).contains(&idx) || (13..=15).contains(&idx);
        assert_eq!(row.interpolated, synthetic, "index {}", idx);
        assert_eq!(row.open_time, BASE + idx * IV);
        assert_eq!(row.close_time, row.open_time + IV - 1);
    }
    // truncating linear interpolation between open 108 (index 4) and 110
    // (index 10): 108 + (110 - 108) * k / 6
    assert_eq!(rows[5].open, 108);
    assert_eq!(rows[6].open, 108);
    assert_eq!(rows[7].open, 109);
    assert_eq!(rows[8].open, 109);
    assert_eq!(rows[9].open, 109);
    // and between 114 (index 12) and 116 (index 16): 114 + 2 * k / 4
    assert_eq!(rows[13].open, 114);
    assert_eq!(rows[14].open, 115);
    assert_eq!(rows[15].open, 115);
    // a second fill finds nothing left
    let again = GapFiller::fill_gaps_in_range(
        &mut store, "binance", "BTCUSDT", "5m", BASE, BASE + 18 * IV).unwrap();
    assert_eq!(again, 0);
}

#[test]
fn gap_of_exactly_one_interval_fills_nothing() {
    let mut store = Store::open(":memory:").unwrap();
    let rows = vec![bar_at_index(0, 100), bar_at_index(1, 102), bar_at_index(2, 104)];
    store.insert_batch("binance", "BTCUSDT", "5m", &rows).unwrap();
    let counted = GapFiller::count_gaps_in_range(
        &store, "binance", "BTCUSDT", "5m", BASE, BASE + 2 * IV).unwrap();
    assert_eq!(counted, 0);
    let filled = GapFiller::fill_gaps_in_range(
        &mut store, "binance", "BTCUSDT", "5m", BASE, BASE + 2 * IV).unwrap();
    assert_eq!(filled, 0);
    let all = store.range_scan("binance", "BTCUSDT", "5m", i64::MIN, i64::MAX).unwrap();
    assert_eq!(all.len(), 3);
}

#[test]
fn interpolate_candle_fields_are_linear() {
    let a = bar_at_index(0, 100);
    let b = bar_at_index(6, 130);
    // five missing bars; position 1 of 6 steps
    let c = GapFiller::interpolate_candle(&a, &b, 1, 5, IV);
    assert_eq!(c.open_time, BASE + IV);
    assert_eq!(c.close_time, BASE + 2 * IV - 1);
    assert_eq!(c.open, 100 + (130 - 100) / 6);
    assert_eq!(c.high, 104 + (134 - 104) / 6);
    assert_eq!(c.low, 96 + (126 - 96) / 6);
    assert_eq!(c.close, 101 + (131 - 101) / 6);
    assert!(c.interpolated);
    // position 3 of 6: truncation of 30 * 3 / 6
    let mid = GapFiller::interpolate_candle(&a, &b, 3, 5, IV);
    assert_eq!(mid.open, 115);
    // the interval helper matches the shared mapping
    assert_eq!(GapFiller::timeframe_to_interval("5m"), IV);
}

#[test]
fn falling_prices_interpolate_downward() {
    let mut a = bar_at_index(0, 200);
    let mut b = bar_at_index(4, 100);
    a.low = 190;
    a.high = 210;
    b.low = 90;
    b.high = 110;
    let c = GapFiller::interpolate_candle(&a, &b, 1, 3, IV);
    // 200 - (200 - 100) * 1 / 4, truncating toward zero
    assert_eq!(c.open, 175);
    assert!(c.low <= c.open && c.open <= c.high);
}
