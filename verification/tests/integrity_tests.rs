use rust_candles_retriever::backfill::{default_timeframes, fetch_gaps_continue, BackfillOptions};
use rust_candles_retriever::candle::Candle;
use rust_candles_retriever::store::Store;
use rust_candles_retriever::utils::format_timestamp_ms;
use rust_candles_retriever::verify::verify_data_spacing;

const IV: i64 = 60_000;

fn bar(open_time: i64) -> Candle {
    Candle {
        open_time,
        open: 10,
        high: 12,
        low: 9,
        close: 11,
        volume: 1,
        close_time: open_time + IV - 1,
        quote_asset_volume: 0,
        number_of_trades: 1,
        taker_buy_base_asset_volume: 0,
        taker_buy_quote_asset_volume: 0,
        interpolated: false,
    }
}

#[test]
fn spacing_report_finds_gaps_and_overlaps() {
    let mut store = Store::open(":memory:").unwrap();
    // minute bars at 0, 1, 4 (a gap) and one at 4.5 minutes (an overlap)
    let rows = vec![bar(0), bar(IV), bar(4 * IV), bar(4 * IV + 30_000)];
    store.insert_batch("binance", "BTCUSDT", "1m", &rows).unwrap();
    let rep = verify_data_spacing(&store, "binance", "BTCUSDT", "1m").unwrap();
    assert_eq!(rep.total_count, 4);
    assert_eq!(rep.first_timestamp, Some(0));
    assert_eq!(rep.last_timestamp, Some(4 * IV + 30_000));
    assert_eq!(rep.gaps.len(), 1);
    assert_eq!(rep.gaps[0], (IV, 3 * IV as i128));
    assert_eq!(rep.overlaps.len(), 1);
    assert_eq!(rep.overlaps[0], (4 * IV, 30_000));
}

#[test]
fn spacing_report_of_clean_data_is_empty() {
    let mut store = Store::open(":memory:").unwrap();
    let rows = vec![bar(0), bar(IV), bar(2 * IV)];
    store.insert_batch("binance", "BTCUSDT", "1m", &rows).unwrap();
    let rep = verify_data_spacing(&store, "binance", "BTCUSDT", "1m").unwrap();
    assert_eq!(rep.total_count, 3);
    assert!(rep.gaps.is_empty());
    assert!(rep.overlaps.is_empty());
}

#[test]
fn timestamps_format_as_utc_text() {
    assert_eq!(format_timestamp_ms(1_700_000_000_000), "2023-11-14 22:13:20");
    assert_eq!(format_timestamp_ms(0), "1970-01-01 00:00:00");
}

#[test]
fn dates_parse_to_midnight_utc() {
    let base = BackfillOptions::new("BTCUSDT".to_string(), ".".to_string());
    let parsed = base.clone().with_start_date("2024-01-01").unwrap();
    assert_eq!(parsed.start_timestamp_ms, Some(1_704_067_200_000));
    let epoch = base.clone().with_start_date("1970-01-01").unwrap();
    assert_eq!(epoch.start_timestamp_ms, Some(0));
    assert!(base.with_start_date("not a date").is_err());
}

#[test]
fn backfill_options_compose() {
    let opts = BackfillOptions::new("btcusdt".to_string(), "/tmp/dbs".to_string());
    assert_eq!(opts.start_timestamp_ms, None);
    assert!(opts.timeframes.is_none());
    let opts = opts.with_start_timestamp(123);
    assert_eq!(opts.start_timestamp_ms, Some(123));
    let opts = opts.with_timeframes(vec!["5m".to_string()]);
    assert_eq!(opts.timeframes.as_ref().unwrap().len(), 1);
    let opts = opts.with_start_date("2024-01-01").unwrap();
    assert_eq!(opts.start_timestamp_ms, Some(1_704_067_200_000));
    assert_eq!(default_timeframes().len(), 12);
    assert_eq!(default_timeframes()[0], "3m");
}

#[test]
fn on_demand_fetch_stops_at_ten_rounds() {
    assert!(fetch_gaps_continue(1, 5, false));
    assert!(!fetch_gaps_continue(10, 5, false));
    assert!(!fetch_gaps_continue(3, 0, false));
    assert!(!fetch_gaps_continue(3, 5, true));
}
