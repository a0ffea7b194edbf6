use rust_candles_retriever::backfill::DriverState;
use rust_candles_retriever::candle::Candle;
use rust_candles_retriever::retriever::CandleRetriever;
use rust_candles_retriever::store::{Store, TimeframeStatus};

const IV: i64 = 3_600_000;

fn closed_bar(open_time: i64, open: i64, now: i64) -> Candle {
    assert!(open_time + IV - 1 < now);
    Candle {
        open_time,
        open,
        high: open + 3,
        low: open - 3,
        close: open + 1,
        volume: 10,
        close_time: open_time + IV - 1,
        quote_asset_volume: 0,
        number_of_trades: 1,
        taker_buy_base_asset_volume: 0,
        taker_buy_quote_asset_volume: 0,
        interpolated: false,
    }
}

/// A page of `count` hourly bars ending at `end_time` exclusive, ascending.
fn page_ending_at(end_time: i64, count: i64, now: i64) -> Vec<Candle> {
    let mut v = Vec::new();
    let mut t = end_time - count * IV;
    while t < end_time {
        v.push(closed_bar(t, 100 + (t / IV) % 50, now));
        t += IV;
    }
    v
}

#[test]
fn empty_batch_is_exhausted_without_writes() {
    let mut store = Store::open(":memory:").unwrap();
    let retriever = CandleRetriever::new("BTCUSDT", "1h", None);
    let now = 1_700_000_000_000;
    let (inserted, exhausted) = retriever
        .fetch_one_batch(&mut store, &Vec::new(), now)
        .unwrap();
    assert_eq!(inserted, 0);
    assert!(exhausted);
    let rows = store.range_scan("binance", "BTCUSDT", "1h", i64::MIN, i64::MAX).unwrap();
    assert!(rows.is_empty());
    assert_eq!(
        TimeframeStatus::get_last_candle_time(&store, "binance", "BTCUSDT", "1h").unwrap(),
        None
    );
}

#[test]
fn in_progress_bars_are_discarded() {
    let mut store = Store::open(":memory:").unwrap();
    let retriever = CandleRetriever::new("BTCUSDT", "1h", None);
    let now = 100 * IV + 10;
    // the second bar is still forming at `now`
    let done = closed_bar(98 * IV, 100, now);
    let forming = Candle { open_time: 100 * IV, close_time: 101 * IV - 1, ..done };
    let (inserted, exhausted) = retriever
        .fetch_one_batch(&mut store, &vec![done, forming], now)
        .unwrap();
    assert_eq!(inserted, 1);
    assert!(!exhausted);
    let rows = store.range_scan("binance", "BTCUSDT", "1h", i64::MIN, i64::MAX).unwrap();
    assert_eq!(rows.len(), 1);
    assert_eq!(rows[0].open_time, 98 * IV);
}

#[test]
fn floor_equal_to_oldest_marks_exhausted() {
    let mut store = Store::open(":memory:").unwrap();
    let now = 1_000 * IV;
    let floor = 900 * IV;
    let retriever = CandleRetriever::new("BTCUSDT", "1h", Some(floor));
    let klines = page_ending_at(903 * IV, 3, now);
    assert_eq!(klines[0].open_time, floor);
    let (inserted, exhausted) = retriever.fetch_one_batch(&mut store, &klines, now).unwrap();
    assert_eq!(inserted, 3);
    assert!(exhausted);
}

#[test]
fn duplicates_only_means_exhausted() {
    let mut store = Store::open(":memory:").unwrap();
    let now = 1_000 * IV;
    let retriever = CandleRetriever::new("BTCUSDT", "1h", None);
    let klines = page_ending_at(500 * IV, 4, now);
    let (first, ex1) = retriever.fetch_one_batch(&mut store, &klines, now).unwrap();
    assert_eq!(first, 4);
    assert!(!ex1);
    // serving the same page again inserts nothing and exhausts the series
    let (second, ex2) = retriever.fetch_one_batch(&mut store, &klines, now).unwrap();
    assert_eq!(second, 0);
    assert!(ex2);
}

#[test]
fn cursor_never_moves_forward() {
    let mut store = Store::open(":memory:").unwrap();
    let now = 1_000 * IV;
    let retriever = CandleRetriever::new("BTCUSDT", "1h", None);
    let page1 = page_ending_at(1_000 * IV, 5, now);
    retriever.fetch_one_batch(&mut store, &page1, now).unwrap();
    let c1 = TimeframeStatus::get_last_candle_time(&store, "binance", "BTCUSDT", "1h")
        .unwrap()
        .unwrap();
    assert_eq!(c1, 995 * IV);
    // the next backward page ends at the cursor
    let page2 = page_ending_at(c1, 5, now);
    retriever.fetch_one_batch(&mut store, &page2, now).unwrap();
    let c2 = TimeframeStatus::get_last_candle_time(&store, "binance", "BTCUSDT", "1h")
        .unwrap()
        .unwrap();
    assert!(c2 <= c1);
    assert_eq!(c2, 990 * IV);
    // re-serving an old page keeps the cursor where it was or older
    retriever.fetch_one_batch(&mut store, &page2, now).unwrap();
    let c3 = TimeframeStatus::get_last_candle_time(&store, "binance", "BTCUSDT", "1h")
        .unwrap()
        .unwrap();
    assert!(c3 <= c2);
}

#[test]
fn resume_continues_from_oldest_fetched() {
    // first run: two pages, then a simulated crash
    let mut store = Store::open(":memory:").unwrap();
    let now = 10_000 * IV;
    let retriever = CandleRetriever::new("BTCUSDT", "1h", None);
    let history_end = 9_000 * IV;
    let page = |end: i64| page_ending_at(end, 1_000, now);
    let end1 = retriever.determine_start_point(&store, now).unwrap();
    assert_eq!(end1, now);
    retriever.fetch_one_batch(&mut store, &page(history_end), now).unwrap();
    let end2 = retriever.determine_start_point(&store, now).unwrap();
    assert_eq!(end2, history_end - 1_000 * IV);
    retriever.fetch_one_batch(&mut store, &page(end2), now).unwrap();
    // second run resumes at the oldest fetched bar and pulls page 3 only
    let end3 = retriever.determine_start_point(&store, now).unwrap();
    assert_eq!(end3, history_end - 2_000 * IV);
    let (inserted, _) = retriever.fetch_one_batch(&mut store, &page(end3), now).unwrap();
    assert_eq!(inserted, 1_000);
    let rows = store.range_scan("binance", "BTCUSDT", "1h", i64::MIN, i64::MAX).unwrap();
    assert_eq!(rows.len(), 3_000);
    let cursor = TimeframeStatus::get_last_candle_time(&store, "binance", "BTCUSDT", "1h")
        .unwrap()
        .unwrap();
    assert_eq!(cursor, history_end - 3_000 * IV);
}

#[test]
fn idempotent_backfill_over_fixed_pages() {
    // the exchange serves three fixed pages, then nothing
    let now = 10_000 * IV;
    let history_end = 9_000 * IV;
    let pages = vec![
        page_ending_at(history_end, 1_000, now),
        page_ending_at(history_end - 1_000 * IV, 1_000, now),
        page_ending_at(history_end - 2_000 * IV, 1_000, now),
    ];
    let serve = |end_time: i64| -> Vec<Candle> {
        if end_time >= history_end {
            pages[0].clone()
        } else if end_time == history_end - 1_000 * IV {
            pages[1].clone()
        } else if end_time == history_end - 2_000 * IV {
            pages[2].clone()
        } else {
            Vec::new()
        }
    };
    let run = || -> (i64, usize) {
        let mut store = Store::open(":memory:").unwrap();
        run_driver(&mut store, &serve, now)
    };
    // two runs against fresh stores give identical outcomes
    let (count_a, iters_a) = run();
    let (count_b, iters_b) = run();
    assert_eq!(count_a, 3_000);
    assert_eq!(count_a, count_b);
    assert_eq!(iters_a, iters_b);
    // and a second driver pass over the same store inserts nothing
    let mut store = Store::open(":memory:").unwrap();
    let (c1, _) = run_driver(&mut store, &serve, now);
    let (c2, _) = run_driver(&mut store, &serve, now);
    assert_eq!(c1, 3_000);
    assert_eq!(c2, 0);
    let rows = store.range_scan("binance", "BTCUSDT", "1h", i64::MIN, i64::MAX).unwrap();
    assert_eq!(rows.len(), 3_000);
}

/// Drives one symbol's single-timeframe backfill until exhausted,
/// returning (total inserted, rounds run).
fn run_driver(
    store: &mut Store,
    serve: &dyn Fn(i64) -> Vec<Candle>,
    now: i64,
) -> (i64, usize) {
    let retriever = CandleRetriever::new("BTCUSDT", "1h", None);
    let mut state = DriverState::new(vec!["1h".to_string()]);
    let mut total = 0;
    let mut rounds = 0;
    while !state.is_done() {
        rounds += 1;
        assert!(rounds < 100, "driver failed to terminate");
        let end_time = retriever.determine_start_point(store, now).unwrap();
        let klines = serve(end_time);
        let (inserted, exhausted) = retriever.fetch_one_batch(store, &klines, now).unwrap();
        total += inserted;
        state.apply_results(&vec![("1h".to_string(), Some((inserted, exhausted)))]);
    }
    (total, rounds)
}

#[test]
fn parallel_timeframes_retire_independently() {
    // per-timeframe exchanges: "5m" serves two pages then nothing, "1h"
    // serves four pages then nothing
    let now: i64 = 1_000_000 * 300_000;
    let mut store = Store::open(":memory:").unwrap();
    let mut state = DriverState::new(vec!["5m".to_string(), "1h".to_string()]);
    let mut rounds = 0;
    let mut removed_5m_at = 0;
    let mk_page = |tf: &str, end: i64| -> Vec<Candle> {
        let iv = rust_candles_retriever::timeframe::timeframe_to_interval(tf);
        let mut v = Vec::new();
        let mut t = end - 10 * iv;
        while t < end {
            v.push(Candle {
                open_time: t,
                open: 100,
                high: 103,
                low: 97,
                close: 101,
                volume: 5,
                close_time: t + iv - 1,
                quote_asset_volume: 0,
                number_of_trades: 1,
                taker_buy_base_asset_volume: 0,
                taker_buy_quote_asset_volume: 0,
                interpolated: false,
            });
            t += iv;
        }
        v
    };
    let mut served_5m = 0;
    let mut served_1h = 0;
    while !state.is_done() {
        rounds += 1;
        assert!(rounds < 50);
        let mut results = Vec::new();
        for tf in ["5m", "1h"] {
            if !state.active.iter().any(|t| t == tf) {
                continue;
            }
            let retriever = CandleRetriever::new("BTCUSDT", tf, None);
            let end_time = retriever.determine_start_point(&store, now).unwrap();
            let pages_left = if tf == "5m" { served_5m < 2 } else { served_1h < 4 };
            let klines = if pages_left { mk_page(tf, end_time) } else { Vec::new() };
            if tf == "5m" {
                served_5m += 1;
            } else {
                served_1h += 1;
            }
            let (inserted, exhausted) =
                retriever.fetch_one_batch(&mut store, &klines, now).unwrap();
            results.push((tf.to_string(), Some((inserted, exhausted))));
        }
        let had_5m = state.active.iter().any(|t| t == "5m");
        state.apply_results(&results);
        let has_5m = state.active.iter().any(|t| t == "5m");
        if had_5m && !has_5m {
            removed_5m_at = rounds;
        }
    }
    // "5m" leaves on its first empty round (the third); "1h" continues
    assert_eq!(removed_5m_at, 3);
    assert!(rounds >= 4);
    assert!(state.is_done());
}
