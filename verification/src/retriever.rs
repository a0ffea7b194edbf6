//! The backward fetcher: one batch of exchange klines is filtered,
//! inserted, recorded in the progress ledger and gap-filled, reporting
//! how many rows were genuinely new and whether the series is exhausted.
//!
//! The exchange call itself is network work and lives outside the library;
//! the batch it returned is handed in as plain bars, together with the
//! wall-clock time.

use vstd::prelude::*;
use crate::candle::{Candle, CandleKey, SeriesId, series_id, key_in_series, candle_wf};
use crate::store::{
    Store, StoreError, CursorRow, TimeframeStatus, store_wf, insert_all, count_new, batch_key,
    lemma_insert_all_preserves, lemma_insert_all_preserves_wf, lemma_insert_all_contains,
};
use crate::gap_filler::GapFiller;
use crate::timeframe::spec_interval;

verus! {

/// The bars of a batch whose close time lies strictly in the past: an
/// in-progress bar cannot be persisted.
pub open spec fn filtered_closed(ks: Seq<Candle>, now: int) -> Seq<Candle>
    decreases ks.len(),
{
    if ks.len() == 0 {
        Seq::empty()
    } else {
        let rest = filtered_closed(ks.drop_first(), now);
        if ks[0].close_time < now {
            seq![ks[0]] + rest
        } else {
            rest
        }
    }
}

proof fn lemma_filtered_snoc(ks: Seq<Candle>, x: Candle, now: int)
    ensures
        filtered_closed(ks.push(x), now) == if x.close_time < now {
            filtered_closed(ks, now).push(x)
        } else {
            filtered_closed(ks, now)
        },
    decreases ks.len(),
{
    if ks.len() == 0 {
        assert(ks.push(x)[0] == x);
        assert(ks.push(x).drop_first() =~= ks);
        if x.close_time < now {
            assert(seq![x] + Seq::<Candle>::empty() =~= filtered_closed(ks, now).push(x));
        }
    } else {
        assert(ks.push(x)[0] == ks[0]);
        assert(ks.push(x).drop_first() =~= ks.drop_first().push(x));
        lemma_filtered_snoc(ks.drop_first(), x, now);
        let rest = filtered_closed(ks.drop_first(), now);
        if ks[0].close_time < now {
            if x.close_time < now {
                assert(seq![ks[0]] + rest.push(x) =~= (seq![ks[0]] + rest).push(x));
            }
        }
    }
}

/// Every bar of the filtered batch is a bar of the batch, and its close
/// time lies before `now`.
pub proof fn lemma_filtered_subset(ks: Seq<Candle>, now: int)
    ensures
        filtered_closed(ks, now).len() <= ks.len(),
        forall|i: int| 0 <= i < filtered_closed(ks, now).len()
            ==> (#[trigger] filtered_closed(ks, now)[i]).close_time < now
                && ks.contains(filtered_closed(ks, now)[i]),
    decreases ks.len(),
{
    if ks.len() > 0 {
        lemma_filtered_subset(ks.drop_first(), now);
        let rest = filtered_closed(ks.drop_first(), now);
        assert forall|i: int| 0 <= i < filtered_closed(ks, now).len()
            implies (#[trigger] filtered_closed(ks, now)[i]).close_time < now
                && ks.contains(filtered_closed(ks, now)[i])
        by {
            let f = filtered_closed(ks, now);
            if ks[0].close_time < now && i == 0 {
                assert(f[0] == ks[0]);
                assert(ks[0] == ks[0]);
            } else {
                let ri = if ks[0].close_time < now { i - 1 } else { i };
                assert(f[i] == rest[ri]);
                assert(ks.drop_first().contains(rest[ri]));
                let l = choose|l: int| 0 <= l < ks.drop_first().len()
                    && ks.drop_first()[l] == rest[ri];
                assert(ks[l + 1] == rest[ri]);
            }
        }
    }
}

/// The oldest open time the resume logic walks backward from: the ledger
/// cursor's oldest fetched open time if one is recorded, else now.
pub open spec fn spec_resume_point(
    cursors: Map<SeriesId, CursorRow>,
    sid: SeriesId,
    now: int,
) -> int {
    if cursors.contains_key(sid) {
        match cursors[sid].oldest_candle_time {
            Some(t) => t as int,
            None => now,
        }
    } else {
        now
    }
}

/// Whether the user-requested backfill floor has been reached.
pub open spec fn spec_floor_reached(floor: Option<i64>, oldest: i64) -> bool {
    match floor {
        Some(f) => oldest <= f,
        None => false,
    }
}

/// One backward fetch unit for a single (symbol, timeframe) series.
pub struct CandleRetriever {
    pub provider: String,
    pub symbol: String,
    pub timeframe: String,
    pub start_timestamp_ms: Option<i64>,
}

impl CandleRetriever {
    /// The series this retriever works on.
    pub open spec fn sid(self) -> SeriesId {
        series_id(self.provider@, self.symbol@, self.timeframe@)
    }

    /// Builds a retriever for the exchange's provider tag.
    pub fn new(symbol: &str, timeframe: &str, start_timestamp_ms: Option<i64>)
        -> (r: CandleRetriever)
        ensures
            r.provider@ == "binance"@,
            r.symbol@ == symbol@,
            r.timeframe@ == timeframe@,
            r.start_timestamp_ms == start_timestamp_ms,
    {
        CandleRetriever {
            provider: "binance".to_owned(),
            symbol: symbol.to_owned(),
            timeframe: timeframe.to_owned(),
            start_timestamp_ms,
        }
    }

    /// The end time the next batch should be requested with: the resume
    /// point of the series, else now on the first run.
    pub fn determine_start_point(&self, store: &Store, now_ms: i64) -> (r: Result<i64, StoreError>)
        ensures
            r matches Ok(t) ==> t as int == spec_resume_point(store.cursors(), self.sid(),
                now_ms as int),
    {
        match TimeframeStatus::get_last_candle_time(
            store, self.provider.as_str(), self.symbol.as_str(), self.timeframe.as_str())? {
            Some(t) => Ok(t),
            None => Ok(now_ms),
        }
    }

    /// Whether the user-requested floor has been reached by the oldest
    /// fetched bar.
    pub fn is_date_limit_reached(&self, oldest_kline_time: i64) -> (r: bool)
        ensures
            r == spec_floor_reached(self.start_timestamp_ms, oldest_kline_time),
    {
        match self.start_timestamp_ms {
            Some(f) => oldest_kline_time <= f,
            None => false,
        }
    }

    /// Ingests one exchange batch: drops bars still forming at `now_ms`,
    /// upsert-ignores the rest, moves the progress cursor to the oldest
    /// open time of the batch (never forward), fills gaps between the
    /// oldest and newest bar, and reports (inserted, exhausted). The
    /// series is exhausted when the filtered batch is empty, when every
    /// row was a duplicate, or when the floor is reached.
    pub fn fetch_one_batch(
        &self,
        store: &mut Store,
        klines: &Vec<Candle>,
        now_ms: i64,
    ) -> (r: Result<(i64, bool), StoreError>)
        requires
            forall|l: int| 0 <= l < klines@.len()
                ==> (#[trigger] klines@[l]).open_time as int
                    <= spec_resume_point(old(store).cursors(),
                        series_id(self.provider@, self.symbol@, self.timeframe@),
                        now_ms as int),
            klines@.len() < 0x8000_0000_0000_0000,
        ensures
            forall|k: CandleKey| #[trigger] old(store).candles().contains_key(k)
                ==> final(store).candles().contains_key(k)
                    && final(store).candles()[k] == old(store).candles()[k],
            forall|k: CandleKey| #[trigger] final(store).candles().contains_key(k)
                && !old(store).candles().contains_key(k)
                ==> key_in_series(k, self.sid()),
            (store_wf(old(store).candles()) && forall|l: int| 0 <= l < klines@.len()
                ==> candle_wf(#[trigger] klines@[l], spec_interval(self.timeframe@)))
                ==> store_wf(final(store).candles()),
            r matches Ok(res) ==> ({
                let f = filtered_closed(klines@, now_ms as int);
                &&& (f.len() == 0 ==> res == (0i64, true)
                    && final(store).candles() == old(store).candles()
                    && final(store).cursors() == old(store).cursors())
                &&& (f.len() > 0 ==> {
                    &&& res.0 == count_new(old(store).candles(), self.provider@, self.symbol@,
                        self.timeframe@, f)
                    &&& 0 <= res.0 <= f.len()
                    &&& final(store).cursors() == old(store).cursors().insert(self.sid(),
                        CursorRow {
                            oldest_candle_time: Some(f[0].open_time),
                            is_complete: false,
                            last_updated: now_ms,
                        })
                    &&& f[0].open_time as int <= spec_resume_point(old(store).cursors(),
                        self.sid(), now_ms as int)
                    &&& res.1 == (res.0 == 0
                        || spec_floor_reached(self.start_timestamp_ms, f[0].open_time))
                    &&& forall|l: int| 0 <= l < f.len()
                        ==> final(store).candles().contains_key(
                            #[trigger] batch_key(self.provider@, self.symbol@, self.timeframe@,
                                f[l]))
                })
            }),
            r is Err ==> ({
                let f = filtered_closed(klines@, now_ms as int);
                final(store).cursors() == old(store).cursors()
                    || (f.len() > 0 && final(store).cursors() == old(store).cursors().insert(
                        self.sid(),
                        CursorRow {
                            oldest_candle_time: Some(f[0].open_time),
                            is_complete: false,
                            last_updated: now_ms,
                        }))
            }),
    {
        let ghost fspec = filtered_closed(klines@, now_ms as int);
        let ghost p = self.provider@;
        let ghost s = self.symbol@;
        let ghost tf = self.timeframe@;
        let mut filtered: Vec<Candle> = Vec::new();
        let mut l: usize = 0;
        proof {
            assert(klines@.take(0) =~= Seq::<Candle>::empty());
        }
        while l < klines.len()
            invariant
                0 <= l <= klines@.len(),
                filtered@ == filtered_closed(klines@.take(l as int), now_ms as int),
            decreases klines@.len() - l,
        {
            let c = klines[l];
            proof {
                lemma_filtered_snoc(klines@.take(l as int), c, now_ms as int);
                assert(klines@.take(l as int + 1) =~= klines@.take(l as int).push(c));
            }
            if c.close_time < now_ms {
                filtered.push(c);
            }
            l = l + 1;
        }
        proof {
            assert(klines@.take(klines@.len() as int) =~= klines@);
            assert(filtered@ == fspec);
            lemma_filtered_subset(klines@, now_ms as int);
        }
        if filtered.len() == 0 {
            return Ok((0, true));
        }
        let oldest = filtered[0].open_time;
        let newest = filtered[filtered.len() - 1].open_time;
        proof {
            assert(klines@.contains(fspec[0]));
            let l0 = choose|l0: int| 0 <= l0 < klines@.len() && klines@[l0] == fspec[0];
            assert(klines@[l0].open_time as int <= spec_resume_point(old(store).cursors(),
                self.sid(), now_ms as int));
        }
        let ghost m0 = old(store).candles();
        let inserted = match store.insert_batch(
            self.provider.as_str(), self.symbol.as_str(), self.timeframe.as_str(), &filtered) {
            Ok(n) => n,
            Err(e) => {
                proof {
                    let pfx = choose|pfx: int| 0 <= pfx <= filtered@.len()
                        && store.candles() == insert_all(m0, p, s, tf,
                            #[trigger] filtered@.take(pfx));
                    lemma_insert_all_preserves(m0, p, s, tf, filtered@.take(pfx));
                    if store_wf(m0) && (forall|l2: int| 0 <= l2 < klines@.len()
                        ==> candle_wf(#[trigger] klines@[l2], spec_interval(tf))) {
                        assert forall|l2: int| 0 <= l2 < filtered@.take(pfx).len()
                            implies candle_wf(#[trigger] filtered@.take(pfx)[l2],
                                spec_interval(tf))
                        by {
                            assert(klines@.contains(fspec[l2]));
                            let lk = choose|lk: int| 0 <= lk < klines@.len()
                                && klines@[lk] == fspec[l2];
                            assert(candle_wf(klines@[lk], spec_interval(tf)));
                        }
                        lemma_insert_all_preserves_wf(m0, p, s, tf, filtered@.take(pfx));
                    }
                }
                return Err(e);
            }
        };
        proof {
            lemma_insert_all_preserves(m0, p, s, tf, filtered@);
            lemma_insert_all_contains(m0, p, s, tf, filtered@);
            if store_wf(m0) && (forall|l2: int| 0 <= l2 < klines@.len()
                ==> candle_wf(#[trigger] klines@[l2], spec_interval(tf))) {
                assert forall|l2: int| 0 <= l2 < filtered@.len()
                    implies candle_wf(#[trigger] filtered@[l2], spec_interval(tf))
                by {
                    assert(klines@.contains(fspec[l2]));
                    let lk = choose|lk: int| 0 <= lk < klines@.len()
                        && klines@[lk] == fspec[l2];
                    assert(candle_wf(klines@[lk], spec_interval(tf)));
                }
                lemma_insert_all_preserves_wf(m0, p, s, tf, filtered@);
            }
        }
        let ghost mid = *store;
        match TimeframeStatus::update_progress(
            store, self.provider.as_str(), self.symbol.as_str(), self.timeframe.as_str(),
            oldest, now_ms) {
            Ok(()) => {}
            Err(e) => {
                return Err(e);
            }
        }
        let ghost mid2 = *store;
        match GapFiller::fill_gaps_in_range(
            store, self.provider.as_str(), self.symbol.as_str(), self.timeframe.as_str(),
            oldest, newest) {
            Ok(_) => {}
            Err(e) => {
                proof {
                    assert forall|k: CandleKey| #[trigger] m0.contains_key(k)
                        implies store.candles().contains_key(k)
                            && store.candles()[k] == m0[k]
                    by {
                        assert(mid2.candles().contains_key(k)
                            && mid2.candles()[k] == m0[k]);
                    }
                }
                return Err(e);
            }
        }
        proof {
            assert forall|k: CandleKey| #[trigger] m0.contains_key(k)
                implies store.candles().contains_key(k) && store.candles()[k] == m0[k]
            by {
                assert(mid2.candles().contains_key(k) && mid2.candles()[k] == m0[k]);
            }
            assert forall|l2: int| 0 <= l2 < fspec.len()
                implies store.candles().contains_key(
                    #[trigger] batch_key(p, s, tf, fspec[l2]))
            by {
                assert(mid2.candles().contains_key(batch_key(p, s, tf, fspec[l2])));
            }
        }
        let exhausted = inserted == 0 || self.is_date_limit_reached(oldest);
        Ok((inserted, exhausted))
    }
}

} // verus!
