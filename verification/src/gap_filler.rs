//! Gap interpolation: detecting runs of missing bars inside a time window
//! and synthesizing them by truncating linear interpolation, flagged so
//! downstream readers can exclude them.

use vstd::prelude::*;
use crate::candle::{
    Candle, CandleKey, ckey, series_id, key_in_series, candle_wf, lerp, lerp_i64,
    lemma_lerp_between, lemma_lerp_le,
};
use crate::store::{Store, StoreError, store_wf};
use crate::timeframe::{spec_interval, timeframe_to_interval, lemma_interval_bounds};
use vstd::arithmetic::div_mod::{
    lemma_fundamental_div_mod, lemma_mod_division_less_than_divisor, lemma_small_mod,
    lemma_add_mod_noop, lemma_mod_multiples_basic, lemma_sub_mod_noop,
};

verus! {

/// Missing-bar count between two bars whose open times sit `b - a` apart:
/// zero unless the spacing exceeds one interval.
pub open spec fn gap_pair(a: int, b: int, iv: int) -> int {
    if b - a > iv {
        (b - a) / iv - 1
    } else {
        0
    }
}

/// Total missing bars over a sequence of open times taken pairwise.
pub open spec fn gap_count_seq(ts: Seq<int>, iv: int) -> int
    decreases ts.len(),
{
    if ts.len() < 2 {
        0
    } else {
        gap_pair(ts[0], ts[1], iv) + gap_count_seq(ts.drop_first(), iv)
    }
}

proof fn lemma_gap_count_snoc(ts: Seq<int>, x: int, iv: int)
    ensures
        gap_count_seq(ts.push(x), iv) == gap_count_seq(ts, iv)
            + if ts.len() >= 1 { gap_pair(ts.last(), x, iv) } else { 0 },
    decreases ts.len(),
{
    if ts.len() == 0 {
        assert(ts.push(x).len() == 1);
    } else if ts.len() == 1 {
        assert(ts.push(x)[0] == ts[0]);
        assert(ts.push(x)[1] == x);
        assert(ts.push(x).drop_first() =~= seq![x]);
        assert(gap_count_seq(seq![x], iv) == 0);
    } else {
        assert(ts.push(x)[0] == ts[0]);
        assert(ts.push(x)[1] == ts[1]);
        assert(ts.push(x).drop_first() =~= ts.drop_first().push(x));
        assert(gap_count_seq(ts, iv)
            == gap_pair(ts[0], ts[1], iv) + gap_count_seq(ts.drop_first(), iv));
        assert(gap_count_seq(ts.push(x), iv)
            == gap_pair(ts[0], ts[1], iv) + gap_count_seq(ts.drop_first().push(x), iv));
        lemma_gap_count_snoc(ts.drop_first(), x, iv);
        assert(ts.drop_first().last() == ts.last());
    }
}

/// Whether `ts` is the ascending enumeration of the open times one series
/// stores inside [lo, hi].
pub open spec fn is_window_seq(
    m: Map<CandleKey, Candle>,
    provider: Seq<char>,
    symbol: Seq<char>,
    timeframe: Seq<char>,
    lo: int,
    hi: int,
    ts: Seq<int>,
) -> bool {
    &&& forall|i: int, j: int| 0 <= i < j < ts.len() ==> ts[i] < ts[j]
    &&& forall|i: int| 0 <= i < ts.len()
        ==> lo <= #[trigger] ts[i] <= hi
            && m.contains_key(ckey(provider, symbol, timeframe, ts[i]))
    &&& forall|t: int| lo <= t <= hi
        && m.contains_key(#[trigger] ckey(provider, symbol, timeframe, t))
        ==> ts.contains(t)
}

/// Whether `a` and `b` are open times of two bars of the series stored
/// inside [lo, hi] with no bar strictly between them.
pub open spec fn window_adjacent(
    m: Map<CandleKey, Candle>,
    provider: Seq<char>,
    symbol: Seq<char>,
    timeframe: Seq<char>,
    lo: int,
    hi: int,
    a: int,
    b: int,
) -> bool {
    &&& lo <= a < b <= hi
    &&& m.contains_key(ckey(provider, symbol, timeframe, a))
    &&& m.contains_key(ckey(provider, symbol, timeframe, b))
    &&& forall|t: int| a < t < b ==> !m.contains_key(#[trigger] ckey(provider, symbol, timeframe, t))
}

/// Whether the series stores a bar at every grid point a, a+iv, ..., b.
pub open spec fn grid_filled(
    m: Map<CandleKey, Candle>,
    provider: Seq<char>,
    symbol: Seq<char>,
    timeframe: Seq<char>,
    a: int,
    b: int,
    iv: int,
) -> bool {
    forall|t: int| a <= t <= b && (t - a) % iv == 0
        ==> m.contains_key(#[trigger] ckey(provider, symbol, timeframe, t))
}

/// Two bars adjacent in the stored window are two consecutive entries of
/// its ascending enumeration.
proof fn lemma_window_adjacent_consecutive(
    m: Map<CandleKey, Candle>,
    provider: Seq<char>,
    symbol: Seq<char>,
    timeframe: Seq<char>,
    lo: int,
    hi: int,
    ts: Seq<int>,
    a: int,
    b: int,
)
    requires
        is_window_seq(m, provider, symbol, timeframe, lo, hi, ts),
        window_adjacent(m, provider, symbol, timeframe, lo, hi, a, b),
    ensures
        exists|l: int| 0 <= l < ts.len() - 1 && #[trigger] ts[l] == a && ts[l + 1] == b,
{
    assert(ts.contains(a));
    assert(ts.contains(b));
    let la = choose|la: int| 0 <= la < ts.len() && ts[la] == a;
    let lb = choose|lb: int| 0 <= lb < ts.len() && ts[lb] == b;
    assert(la < lb);
    if lb != la + 1 {
        assert(a < ts[la + 1] < b);
        assert(m.contains_key(ckey(provider, symbol, timeframe, ts[la + 1])));
        assert(false);
    }
    assert(ts[la] == a && ts[la + 1] == b);
}

/// The gap interpolator.
pub struct GapFiller;

impl GapFiller {
    /// Interval in milliseconds of a timeframe tag.
    pub fn timeframe_to_interval(timeframe: &str) -> (r: i64)
        ensures
            r == spec_interval(timeframe@),
    {
        timeframe_to_interval(timeframe)
    }

    /// Synthesizes the `j`-th of `missing` bars between `current` and
    /// `next`: its open time sits `j` intervals after `current`, every
    /// numeric field is linearly interpolated at position j of missing+1,
    /// and the bar carries the interpolated flag.
    pub fn interpolate_candle(
        current: &Candle,
        next: &Candle,
        j: i64,
        missing: i64,
        interval: i64,
    ) -> (r: Candle)
        requires
            1 <= j <= missing,
            missing < 0x7fff_ffff_ffff_ffff,
            1 <= interval,
            current.open_time as int + (missing as int + 1) * (interval as int)
                <= next.open_time as int,
        ensures
            r.open_time == current.open_time + j * interval,
            current.open_time < r.open_time,
            r.open_time + interval <= next.open_time,
            r.close_time == r.open_time + interval - 1,
            r.open == lerp(current.open as int, next.open as int, j as int, missing as int + 1),
            r.high == lerp(current.high as int, next.high as int, j as int, missing as int + 1),
            r.low == lerp(current.low as int, next.low as int, j as int, missing as int + 1),
            r.close == lerp(current.close as int, next.close as int, j as int, missing as int + 1),
            r.volume == lerp(current.volume as int, next.volume as int, j as int, missing as int + 1),
            r.quote_asset_volume == lerp(current.quote_asset_volume as int,
                next.quote_asset_volume as int, j as int, missing as int + 1),
            r.number_of_trades == lerp(current.number_of_trades as int,
                next.number_of_trades as int, j as int, missing as int + 1),
            r.taker_buy_base_asset_volume == lerp(current.taker_buy_base_asset_volume as int,
                next.taker_buy_base_asset_volume as int, j as int, missing as int + 1),
            r.taker_buy_quote_asset_volume == lerp(current.taker_buy_quote_asset_volume as int,
                next.taker_buy_quote_asset_volume as int, j as int, missing as int + 1),
            r.interpolated == true,
    {
        let n1 = missing + 1;
        proof {
            assert((j as int) * (interval as int) + (interval as int)
                    <= (missing as int + 1) * (interval as int)
                && 0 < (j as int) * (interval as int))
                by (nonlinear_arith)
                requires 1 <= j <= missing, 1 <= interval;
        }
        let ot = ((current.open_time as i128) + (j as i128) * (interval as i128)) as i64;
        Candle {
            open_time: ot,
            open: lerp_i64(current.open, next.open, j, n1),
            high: lerp_i64(current.high, next.high, j, n1),
            low: lerp_i64(current.low, next.low, j, n1),
            close: lerp_i64(current.close, next.close, j, n1),
            volume: lerp_i64(current.volume, next.volume, j, n1),
            close_time: ot + interval - 1,
            quote_asset_volume: lerp_i64(current.quote_asset_volume, next.quote_asset_volume, j, n1),
            number_of_trades: lerp_i64(current.number_of_trades, next.number_of_trades, j, n1),
            taker_buy_base_asset_volume: lerp_i64(
                current.taker_buy_base_asset_volume, next.taker_buy_base_asset_volume, j, n1),
            taker_buy_quote_asset_volume: lerp_i64(
                current.taker_buy_quote_asset_volume, next.taker_buy_quote_asset_volume, j, n1),
            interpolated: true,
        }
    }

    /// Counts missing bars in [start_time, end_time] without writing:
    /// the sum over consecutive stored pairs of (spacing / interval) - 1
    /// wherever the spacing exceeds one interval.
    pub fn count_gaps_in_range(
        store: &Store,
        provider: &str,
        symbol: &str,
        timeframe: &str,
        start_time: i64,
        end_time: i64,
    ) -> (r: Result<i64, StoreError>)
        ensures
            r matches Ok(n) ==> {
                &&& n >= 0
                &&& exists|ts: Seq<int>| is_window_seq(store.candles(), provider@, symbol@,
                        timeframe@, start_time as int, end_time as int, ts)
                    && n == gap_count_seq(ts, spec_interval(timeframe@))
            },
    {
        let iv = timeframe_to_interval(timeframe);
        proof {
            lemma_interval_bounds(timeframe@);
        }
        let candles = match store.query_range(provider, symbol, timeframe, start_time, end_time) {
            Ok(v) => v,
            Err(e) => {
                return Err(e);
            }
        };
        let ghost ts = candles@.map(|l: int, c: Candle| c.open_time as int);
        proof {
            store.lemma_view();
            assert forall|t: int| start_time <= t <= end_time
                && store.candles().contains_key(#[trigger] ckey(provider@, symbol@, timeframe@, t))
                implies ts.contains(t)
            by {
                let i = choose|i: int| 0 <= i < candles@.len() && candles@[i].open_time == t;
                assert(ts[i] == t);
            }
            assert(is_window_seq(store.candles(), provider@, symbol@, timeframe@,
                start_time as int, end_time as int, ts));
        }
        if candles.len() < 2 {
            proof {
                assert(gap_count_seq(ts, spec_interval(timeframe@)) == 0);
            }
            return Ok(0);
        }
        let mut total: i64 = 0;
        let mut i: usize = 0;
        proof {
            assert(ts.take(1) =~= seq![ts[0]]);
        }
        while i < candles.len() - 1
            invariant
                candles@.len() >= 2,
                0 <= i < candles@.len(),
                iv == spec_interval(timeframe@),
                60_000 <= iv <= 2_592_000_000,
                ts == candles@.map(|l: int, c: Candle| c.open_time as int),
                ts.len() == candles@.len(),
                forall|l: int, l2: int| 0 <= l < l2 < ts.len() ==> ts[l] < ts[l2],
                forall|l: int| 0 <= l < ts.len()
                    ==> -0x8000_0000_0000_0000 <= #[trigger] ts[l] < 0x8000_0000_0000_0000,
                total == gap_count_seq(ts.take(i as int + 1), iv as int),
                (total as int) * (iv as int) <= ts[i as int] - ts[0],
                total >= 0,
            decreases candles@.len() - i,
        {
            let a = candles[i].open_time;
            let b = candles[i + 1].open_time;
            proof {
                assert(ts[i as int] == a && ts[i + 1 as int] == b);
                lemma_gap_count_snoc(ts.take(i as int + 1), b as int, iv as int);
                assert(ts.take(i as int + 2) =~= ts.take(i as int + 1).push(b as int));
                assert(ts.take(i as int + 1).last() == a as int);
            }
            let diff: i128 = (b as i128) - (a as i128);
            if diff > iv as i128 {
                let missing = (((diff as u128) / (iv as u128)) - 1) as i64;
                proof {
                    let d = diff as int;
                    let ivi = iv as int;
                    lemma_fundamental_div_mod(d, ivi);
                    lemma_mod_division_less_than_divisor(d, ivi);
                    assert(1 <= d / ivi) by (nonlinear_arith)
                        requires 0 < ivi < d, d == ivi * (d / ivi) + d % ivi, 0 <= d % ivi < ivi;
                    assert(d / ivi - 1 <= d) by (nonlinear_arith)
                        requires 0 < ivi < d, d == ivi * (d / ivi) + d % ivi, 0 <= d % ivi < ivi;
                    assert(missing as int == gap_pair(a as int, b as int, ivi));
                    assert((missing as int) * ivi <= d - ivi) by (nonlinear_arith)
                        requires
                            0 < ivi < d,
                            d == ivi * (d / ivi) + d % ivi,
                            0 <= d % ivi < ivi,
                            missing as int == d / ivi - 1;
                    assert((total + missing) * ivi <= ts[i + 1 as int] - ts[0])
                        by (nonlinear_arith)
                        requires
                            (total as int) * ivi <= ts[i as int] - ts[0],
                            (missing as int) * ivi <= d - ivi,
                            0 < ivi,
                            d == ts[i + 1 as int] - ts[i as int];
                    assert((total as int) + (missing as int) < 0x7fff_ffff_ffff_ffff)
                        by (nonlinear_arith)
                        requires
                            (total + missing) * ivi
                                <= ts[i + 1 as int] - ts[0],
                            60_000 <= ivi,
                            0 <= total as int,
                            0 <= missing as int,
                            ts[i + 1 as int] < 0x8000_0000_0000_0000,
                            -0x8000_0000_0000_0000 <= ts[0];
                }
                total = total + missing;
            } else {
                proof {
                    assert(gap_pair(a as int, b as int, iv as int) == 0);
                    assert((total as int) * (iv as int) <= ts[i + 1 as int] - ts[0])
                        by (nonlinear_arith)
                        requires
                            (total as int) * (iv as int) <= ts[i as int] - ts[0],
                            ts[i as int] <= ts[i + 1 as int];
                }
            }
            i = i + 1;
        }
        proof {
            assert(ts.take(ts.len() as int) =~= ts);
        }
        Ok(total)
    }
}

/// A grid point is pinned down by which interval step it falls in.
proof fn lemma_grid_point_unique(a: int, t: int, j: int, iv: int)
    requires
        iv >= 1,
        j >= 0,
        (t - a) % iv == 0,
        j * iv <= t - a < (j + 1) * iv,
    ensures
        t == a + j * iv,
{
    let u = t - a - j * iv;
    assert(0 <= u < iv) by (nonlinear_arith)
        requires j * iv <= t - a < (j + 1) * iv, u == t - a - j * iv;
    lemma_mod_multiples_basic(j, iv);
    lemma_add_mod_noop(u, j * iv, iv);
    lemma_small_mod(u as nat, iv as nat);
    assert((u % iv + (j * iv) % iv) % iv == (t - a) % iv);
    assert(u % iv == u);
    assert(u % iv % iv == u % iv);
}

/// A bar interpolated between two well-formed bars of the same series is
/// well formed.
proof fn lemma_interp_wf(cur: Candle, nxt: Candle, r: Candle, j: int, n1: int, iv: int)
    requires
        candle_wf(cur, iv),
        candle_wf(nxt, iv),
        iv >= 1,
        1 <= j < n1,
        r.open_time == cur.open_time + j * iv,
        r.close_time == r.open_time + iv - 1,
        r.open == lerp(cur.open as int, nxt.open as int, j, n1),
        r.high == lerp(cur.high as int, nxt.high as int, j, n1),
        r.low == lerp(cur.low as int, nxt.low as int, j, n1),
        r.close == lerp(cur.close as int, nxt.close as int, j, n1),
        r.volume == lerp(cur.volume as int, nxt.volume as int, j, n1),
    ensures
        candle_wf(r, iv),
{
    lemma_mod_multiples_basic(j, iv);
    lemma_add_mod_noop(cur.open_time as int, j * iv, iv);
    assert((cur.open_time as int) % iv % iv == (cur.open_time as int) % iv);
    lemma_lerp_le(cur.low as int, nxt.low as int, cur.open as int, nxt.open as int, j, n1);
    lemma_lerp_le(cur.open as int, nxt.open as int, cur.high as int, nxt.high as int, j, n1);
    lemma_lerp_le(cur.low as int, nxt.low as int, cur.close as int, nxt.close as int, j, n1);
    lemma_lerp_le(cur.close as int, nxt.close as int, cur.high as int, nxt.high as int, j, n1);
    lemma_lerp_between(cur.volume as int, nxt.volume as int, j, n1);
}


impl GapFiller {
    /// Fills the gap between one adjacent pair of stored bars: inserts the
    /// `missing` interpolated bars at whole-interval steps after `a`.
    fn fill_pair(
        store: &mut Store,
        provider: &str,
        symbol: &str,
        timeframe: &str,
        a: &Candle,
        b: &Candle,
        iv: i64,
        missing: i64,
    ) -> (r: Result<(), StoreError>)
        requires
            iv == spec_interval(timeframe@),
            60_000 <= iv <= 2_592_000_000,
            b.open_time as int - a.open_time as int > iv,
            missing as int == gap_pair(a.open_time as int, b.open_time as int, iv as int),
            old(store).candles().contains_key(
                ckey(provider@, symbol@, timeframe@, a.open_time as int)),
            old(store).candles().contains_key(
                ckey(provider@, symbol@, timeframe@, b.open_time as int)),
            forall|t: int| a.open_time < t < b.open_time
                ==> !old(store).candles().contains_key(
                    #[trigger] ckey(provider@, symbol@, timeframe@, t)),
            store_wf(old(store).candles())
                ==> candle_wf(*a, iv as int) && candle_wf(*b, iv as int),
        ensures
            final(store).cursors() == old(store).cursors(),
            forall|k: CandleKey| #[trigger] old(store).candles().contains_key(k)
                ==> final(store).candles().contains_key(k)
                    && final(store).candles()[k] == old(store).candles()[k],
            forall|k: CandleKey| #[trigger] final(store).candles().contains_key(k)
                && !old(store).candles().contains_key(k)
                ==> key_in_series(k, series_id(provider@, symbol@, timeframe@))
                    && a.open_time < k.open_time < b.open_time
                    && final(store).candles()[k].interpolated == true
                    && final(store).candles()[k].open_time == k.open_time,
            store_wf(old(store).candles()) ==> store_wf(final(store).candles()),
            r is Ok && (b.open_time as int - a.open_time as int) % (iv as int) == 0
                ==> grid_filled(final(store).candles(), provider@, symbol@, timeframe@,
                    a.open_time as int, b.open_time as int, iv as int),
    {
        let ghost m0p = old(store).candles();
        let ghost p = provider@;
        let ghost s = symbol@;
        let ghost tf = timeframe@;
        proof {
            let d = b.open_time as int - a.open_time as int;
            let ivi = iv as int;
            lemma_fundamental_div_mod(d, ivi);
            lemma_mod_division_less_than_divisor(d, ivi);
            assert(0 <= missing
                && (missing as int + 1) * ivi <= d
                && (missing as int) * ivi <= d - ivi)
                by (nonlinear_arith)
                requires
                    0 < ivi < d,
                    d == ivi * (d / ivi) + d % ivi,
                    0 <= d % ivi < ivi,
                    missing as int == d / ivi - 1;
        }
        let mut j: i64 = 1;
        while j <= missing
            invariant
                iv == spec_interval(tf),
                60_000 <= iv <= 2_592_000_000,
                p == provider@ && s == symbol@ && tf == timeframe@,
                m0p == old(store).candles(),
                b.open_time as int - a.open_time as int > iv as int,
                missing as int == gap_pair(a.open_time as int, b.open_time as int, iv as int),
                0 <= missing,
                (missing as int) * (iv as int)
                    <= b.open_time as int - a.open_time as int - iv,
                (missing as int + 1) * (iv as int)
                    <= b.open_time as int - a.open_time as int,
                forall|t: int| a.open_time < t < b.open_time
                    ==> !m0p.contains_key(#[trigger] ckey(p, s, tf, t)),
                store_wf(m0p) ==> candle_wf(*a, iv as int) && candle_wf(*b, iv as int),
                1 <= j <= missing + 1,
                store.cursors() == old(store).cursors(),
                forall|k: CandleKey| #[trigger] m0p.contains_key(k)
                    ==> store.candles().contains_key(k) && store.candles()[k] == m0p[k],
                forall|k: CandleKey| #[trigger] store.candles().contains_key(k)
                    && !m0p.contains_key(k)
                    ==> key_in_series(k, series_id(p, s, tf))
                        && a.open_time < k.open_time
                        && (k.open_time as int)
                            < (a.open_time as int) + (j as int) * (iv as int)
                        && store.candles()[k].interpolated == true
                        && store.candles()[k].open_time == k.open_time,
                forall|t: int| a.open_time < t
                    && t < (a.open_time as int) + (j as int) * (iv as int)
                    && (t - (a.open_time as int)) % (iv as int) == 0
                    ==> store.candles().contains_key(#[trigger] ckey(p, s, tf, t)),
                store_wf(m0p) ==> store_wf(store.candles()),
            decreases missing + 1 - j,
        {
            proof {
                assert((j as int) * (iv as int) <= (missing as int) * (iv as int)
                    && (j as int + 1) * (iv as int)
                        == (j as int) * (iv as int) + (iv as int)
                    && 0 < (j as int) * (iv as int))
                    by (nonlinear_arith)
                    requires 1 <= j <= missing, 1 <= iv;
                assert(missing < 0x7fff_ffff_ffff_ffff) by (nonlinear_arith)
                    requires
                        (missing as int) * (iv as int)
                            <= b.open_time as int - a.open_time as int - iv,
                        60_000 <= iv,
                        0 <= missing,
                        b.open_time < 0x8000_0000_0000_0000,
                        -0x8000_0000_0000_0000 <= a.open_time;
            }
            let c = GapFiller::interpolate_candle(a, b, j, missing, iv);
            let ghost tnew = c.open_time as int;
            proof {
                assert(!store.candles().contains_key(ckey(p, s, tf, tnew)));
            }
            let ghost prev = *store;
            let res = store.insert_candle(provider, symbol, timeframe, &c);
            proof {
                prev.lemma_view();
                store.lemma_view();
            }
            match res {
                Ok(_) => {}
                Err(e) => {
                    return Err(e);
                }
            }
            proof {
                let ivi = iv as int;
                let anew = a.open_time as int;
                assert(store.candles() == prev.candles().insert(ckey(p, s, tf, tnew), c));
                assert forall|t: int| anew < t < anew + (j as int + 1) * ivi
                    && (t - anew) % ivi == 0
                    implies store.candles().contains_key(#[trigger] ckey(p, s, tf, t))
                by {
                    if t < anew + (j as int) * ivi {
                        assert(prev.candles().contains_key(ckey(p, s, tf, t)));
                    } else {
                        lemma_grid_point_unique(anew, t, j as int, ivi);
                    }
                }
                if store_wf(m0p) {
                    lemma_interp_wf(*a, *b, c, j as int, missing as int + 1, ivi);
                    assert forall|k: CandleKey| #[trigger] store.candles().contains_key(k)
                        implies candle_wf(store.candles()[k], spec_interval(k.timeframe))
                            && store.candles()[k].open_time == k.open_time
                    by {
                        if k != ckey(p, s, tf, tnew) {
                            assert(prev.candles().contains_key(k));
                        }
                    }
                }
            }
            j = j + 1;
        }
        proof {
            let ivi = iv as int;
            let anew = a.open_time as int;
            let bnew = b.open_time as int;
            if (bnew - anew) % ivi == 0 {
                let d = bnew - anew;
                lemma_fundamental_div_mod(d, ivi);
                assert((missing as int + 1) * ivi == d) by (nonlinear_arith)
                    requires
                        d == ivi * (d / ivi) + d % ivi,
                        d % ivi == 0,
                        missing as int == d / ivi - 1,
                        0 < ivi;
                assert forall|t: int| anew <= t <= bnew && (t - anew) % ivi == 0
                    implies store.candles().contains_key(#[trigger] ckey(p, s, tf, t))
                by {
                    if t == anew {
                        assert(m0p.contains_key(ckey(p, s, tf, anew)));
                    } else if t == bnew {
                        assert(m0p.contains_key(ckey(p, s, tf, bnew)));
                    } else {
                        assert(anew < t < anew + (missing as int + 1) * ivi);
                    }
                }
            }
        }
        Ok(())
    }

    /// Fills every gap inside [start_time, end_time]: between each pair of
    /// adjacent stored bars spaced more than one interval apart, inserts
    /// the missing bars by linear interpolation, flagged as synthetic, with
    /// upsert-ignore writes. Returns the number of bars written. Existing
    /// bars are never touched; afterwards, every adjacent stored pair of
    /// the window whose spacing was a multiple of the interval has its
    /// whole interval grid present.
    pub fn fill_gaps_in_range(
        store: &mut Store,
        provider: &str,
        symbol: &str,
        timeframe: &str,
        start_time: i64,
        end_time: i64,
    ) -> (r: Result<i64, StoreError>)
        ensures
            final(store).cursors() == old(store).cursors(),
            forall|k: CandleKey| #[trigger] old(store).candles().contains_key(k)
                ==> final(store).candles().contains_key(k)
                    && final(store).candles()[k] == old(store).candles()[k],
            forall|k: CandleKey| #[trigger] final(store).candles().contains_key(k)
                && !old(store).candles().contains_key(k)
                ==> key_in_series(k, series_id(provider@, symbol@, timeframe@))
                    && start_time <= k.open_time <= end_time
                    && final(store).candles()[k].interpolated == true
                    && final(store).candles()[k].open_time == k.open_time
                    && exists|a: int, b: int| window_adjacent(old(store).candles(), provider@,
                        symbol@, timeframe@, start_time as int, end_time as int, a, b)
                        && a < k.open_time < b,
            store_wf(old(store).candles()) ==> store_wf(final(store).candles()),
            r matches Ok(n) ==> {
                &&& n >= 0
                &&& exists|ts: Seq<int>| is_window_seq(old(store).candles(), provider@, symbol@,
                        timeframe@, start_time as int, end_time as int, ts)
                    && n == gap_count_seq(ts, spec_interval(timeframe@))
            },
            r matches Ok(n) ==> forall|a: int, b: int|
                #[trigger] window_adjacent(old(store).candles(), provider@, symbol@, timeframe@,
                    start_time as int, end_time as int, a, b)
                && (b - a) % spec_interval(timeframe@) == 0
                ==> grid_filled(final(store).candles(), provider@, symbol@, timeframe@,
                    a, b, spec_interval(timeframe@)),
    {
        let iv = timeframe_to_interval(timeframe);
        proof {
            lemma_interval_bounds(timeframe@);
        }
        let candles = match store.query_range(provider, symbol, timeframe, start_time, end_time) {
            Ok(v) => v,
            Err(e) => {
                return Err(e);
            }
        };
        let ghost m0 = old(store).candles();
        let ghost ts = candles@.map(|l: int, c: Candle| c.open_time as int);
        let ghost p = provider@;
        let ghost s = symbol@;
        let ghost tf = timeframe@;
        proof {
            old(store).lemma_view();
            assert forall|t: int| start_time <= t <= end_time
                && m0.contains_key(#[trigger] ckey(p, s, tf, t))
                implies ts.contains(t)
            by {
                let l = choose|l: int| 0 <= l < candles@.len() && candles@[l].open_time == t;
                assert(ts[l] == t);
            }
            assert(is_window_seq(m0, p, s, tf, start_time as int, end_time as int, ts));
        }
        if candles.len() < 2 {
            proof {
                assert(gap_count_seq(ts, spec_interval(tf)) == 0);
                assert forall|a: int, b: int|
                    #[trigger] window_adjacent(m0, p, s, tf,
                        start_time as int, end_time as int, a, b)
                    && (b - a) % spec_interval(tf) == 0
                    implies grid_filled(store.candles(), p, s, tf, a, b, spec_interval(tf))
                by {
                    lemma_window_adjacent_consecutive(m0, p, s, tf,
                        start_time as int, end_time as int, ts, a, b);
                    assert(false);
                }
            }
            return Ok(0);
        }
        let mut total: i64 = 0;
        let mut i: usize = 0;
        proof {
            assert(ts.take(1) =~= seq![ts[0]]);
        }
        while i < candles.len() - 1
            invariant
                candles@.len() >= 2,
                0 <= i < candles@.len(),
                iv == spec_interval(tf),
                60_000 <= iv <= 2_592_000_000,
                p == provider@ && s == symbol@ && tf == timeframe@,
                m0 == old(store).candles(),
                ts == candles@.map(|l: int, c: Candle| c.open_time as int),
                ts.len() == candles@.len(),
                is_window_seq(m0, p, s, tf, start_time as int, end_time as int, ts),
                forall|l: int| 0 <= l < candles@.len()
                    ==> (#[trigger] candles@[l]).open_time == ts[l]
                        && m0.contains_key(ckey(p, s, tf, ts[l]))
                        && m0[ckey(p, s, tf, ts[l])] == candles@[l],
                store.cursors() == old(store).cursors(),
                forall|k: CandleKey| #[trigger] m0.contains_key(k)
                    ==> store.candles().contains_key(k) && store.candles()[k] == m0[k],
                forall|k: CandleKey| #[trigger] store.candles().contains_key(k)
                    && !m0.contains_key(k)
                    ==> key_in_series(k, series_id(p, s, tf))
                        && start_time <= k.open_time <= end_time
                        && store.candles()[k].interpolated == true
                        && store.candles()[k].open_time == k.open_time
                        && k.open_time < ts[i as int]
                        && (exists|a2: int, b2: int| window_adjacent(m0, p, s, tf,
                            start_time as int, end_time as int, a2, b2)
                            && a2 < k.open_time < b2),
                store_wf(m0) ==> store_wf(store.candles()),
                forall|l: int| 0 <= l < i && ((#[trigger] ts[l + 1]) - ts[l]) % (iv as int) == 0
                    ==> grid_filled(store.candles(), p, s, tf, ts[l], ts[l + 1], iv as int),
                total == gap_count_seq(ts.take(i as int + 1), iv as int),
                total >= 0,
                (total as int) * (iv as int) <= ts[i as int] - ts[0],
            decreases candles@.len() - i,
        {
            let a = candles[i];
            let b = candles[i + 1];
            proof {
                assert(ts[i as int] == a.open_time && ts[i + 1 as int] == b.open_time);
                lemma_gap_count_snoc(ts.take(i as int + 1), b.open_time as int, iv as int);
                assert(ts.take(i as int + 2) =~= ts.take(i as int + 1).push(b.open_time as int));
                assert(ts.take(i as int + 1).last() == a.open_time as int);
            }
            let diff: i128 = (b.open_time as i128) - (a.open_time as i128);
            if diff > iv as i128 {
                let missing = (((diff as u128) / (iv as u128)) - 1) as i64;
                proof {
                    let d = diff as int;
                    let ivi = iv as int;
                    lemma_fundamental_div_mod(d, ivi);
                    lemma_mod_division_less_than_divisor(d, ivi);
                    assert(1 <= d / ivi && d / ivi - 1 <= d) by (nonlinear_arith)
                        requires 0 < ivi < d, d == ivi * (d / ivi) + d % ivi, 0 <= d % ivi < ivi;
                    assert(missing as int == gap_pair(a.open_time as int, b.open_time as int, ivi));
                    assert((missing as int) * ivi <= d - ivi) by (nonlinear_arith)
                        requires
                            0 < ivi < d,
                            d == ivi * (d / ivi) + d % ivi,
                            0 <= d % ivi < ivi,
                            missing as int == d / ivi - 1;
                    assert forall|t: int| a.open_time < t < b.open_time
                        implies !store.candles().contains_key(#[trigger] ckey(p, s, tf, t))
                    by {
                        if store.candles().contains_key(ckey(p, s, tf, t)) {
                            if m0.contains_key(ckey(p, s, tf, t)) {
                                assert(ts.contains(t));
                                let l = choose|l: int| 0 <= l < ts.len() && ts[l] == t;
                                if l <= i {
                                    assert(ts[l] <= ts[i as int]);
                                } else {
                                    assert(ts[i + 1 as int] <= ts[l]);
                                }
                                assert(false);
                            }
                            assert(false);
                        }
                    }
                    if store_wf(m0) {
                        assert(candle_wf(m0[ckey(p, s, tf, ts[i as int])], spec_interval(tf)));
                        assert(candle_wf(m0[ckey(p, s, tf, ts[i + 1 as int])], spec_interval(tf)));
                    }
                    assert forall|t: int| ts[i as int] < t < ts[i + 1 as int]
                        implies !m0.contains_key(#[trigger] ckey(p, s, tf, t))
                    by {
                        assert(!store.candles().contains_key(ckey(p, s, tf, t)));
                    }
                    assert(window_adjacent(m0, p, s, tf, start_time as int, end_time as int,
                        ts[i as int], ts[i + 1 as int]));
                }
                let ghost prev = *store;
                let res = GapFiller::fill_pair(store, provider, symbol, timeframe,
                    &a, &b, iv, missing);
                proof {
                    assert forall|k: CandleKey| #[trigger] m0.contains_key(k)
                        implies store.candles().contains_key(k) && store.candles()[k] == m0[k]
                    by {
                        assert(prev.candles().contains_key(k) && prev.candles()[k] == m0[k]);
                    }
                    assert forall|k: CandleKey| #[trigger] store.candles().contains_key(k)
                        && !m0.contains_key(k)
                        implies key_in_series(k, series_id(p, s, tf))
                            && start_time <= k.open_time <= end_time
                            && store.candles()[k].interpolated == true
                            && store.candles()[k].open_time == k.open_time
                            && k.open_time < ts[i + 1 as int]
                            && (exists|a2: int, b2: int| window_adjacent(m0, p, s, tf,
                                start_time as int, end_time as int, a2, b2)
                                && a2 < k.open_time < b2)
                    by {
                        if prev.candles().contains_key(k) {
                            assert(store.candles()[k] == prev.candles()[k]);
                        } else {
                            assert(window_adjacent(m0, p, s, tf, start_time as int,
                                end_time as int, ts[i as int], ts[i + 1 as int])
                                && ts[i as int] < k.open_time < ts[i + 1 as int]);
                        }
                    }
                }
                match res {
                    Ok(_) => {}
                    Err(e) => {
                        return Err(e);
                    }
                }
                proof {
                    let ivi = iv as int;
                    assert forall|l: int| 0 <= l < i + 1
                        && ((#[trigger] ts[l + 1]) - ts[l]) % ivi == 0
                        implies grid_filled(store.candles(), p, s, tf, ts[l], ts[l + 1], ivi)
                    by {
                        if l < i {
                            assert(grid_filled(prev.candles(), p, s, tf, ts[l], ts[l + 1], ivi));
                            assert forall|t: int| ts[l] <= t <= ts[l + 1]
                                && (t - ts[l]) % ivi == 0
                                implies store.candles().contains_key(
                                    #[trigger] ckey(p, s, tf, t))
                            by {
                                assert(prev.candles().contains_key(ckey(p, s, tf, t)));
                            }
                        }
                    }
                    assert((total as int + missing as int) * ivi <= ts[i + 1 as int] - ts[0])
                        by (nonlinear_arith)
                        requires
                            (total as int) * ivi <= ts[i as int] - ts[0],
                            (missing as int) * ivi <= (diff as int) - ivi,
                            0 < ivi,
                            diff as int == ts[i + 1 as int] - ts[i as int];
                    assert((total as int) + (missing as int) < 0x7fff_ffff_ffff_ffff)
                        by (nonlinear_arith)
                        requires
                            ((total as int) + (missing as int)) * ivi
                                <= ts[i + 1 as int] - ts[0],
                            60_000 <= ivi,
                            0 <= total,
                            0 <= missing,
                            ts[i + 1 as int] < 0x8000_0000_0000_0000,
                            -0x8000_0000_0000_0000 <= ts[0];
                }
                total = total + missing;
            } else {
                proof {
                    let ivi = iv as int;
                    let anew = ts[i as int];
                    let bnew = ts[i + 1 as int];
                    assert(gap_pair(anew, bnew, ivi) == 0);
                    if (bnew - anew) % ivi == 0 {
                        if bnew - anew < ivi {
                            lemma_small_mod((bnew - anew) as nat, ivi as nat);
                            assert(false);
                        }
                        assert(bnew - anew == ivi);
                        assert forall|t: int| anew <= t <= bnew && (t - anew) % ivi == 0
                            implies store.candles().contains_key(#[trigger] ckey(p, s, tf, t))
                        by {
                            if anew < t < bnew {
                                lemma_grid_point_unique(anew, t, 0, ivi);
                                assert(false);
                            }
                            assert(m0.contains_key(ckey(p, s, tf, t)));
                        }
                    }
                    assert forall|l: int| 0 <= l < i + 1
                        && ((#[trigger] ts[l + 1]) - ts[l]) % ivi == 0
                        implies grid_filled(store.candles(), p, s, tf, ts[l], ts[l + 1], ivi)
                    by {
                    }
                    assert((total as int) * ivi <= ts[i + 1 as int] - ts[0])
                        by (nonlinear_arith)
                        requires
                            (total as int) * ivi <= ts[i as int] - ts[0],
                            ts[i as int] <= ts[i + 1 as int];
                }
            }
            i = i + 1;
        }
        proof {
            assert(ts.take(ts.len() as int) =~= ts);
            assert forall|a2: int, b2: int|
                #[trigger] window_adjacent(m0, p, s, tf,
                    start_time as int, end_time as int, a2, b2)
                && (b2 - a2) % spec_interval(tf) == 0
                implies grid_filled(store.candles(), p, s, tf, a2, b2, spec_interval(tf))
            by {
                lemma_window_adjacent_consecutive(m0, p, s, tf,
                    start_time as int, end_time as int, ts, a2, b2);
                let l = choose|l: int| 0 <= l < ts.len() - 1
                    && #[trigger] ts[l] == a2 && ts[l + 1] == b2;
                assert(grid_filled(store.candles(), p, s, tf, ts[l], ts[l + 1], iv as int));
            }
        }
        Ok(total)
    }
}

proof fn lemma_window_bracket(ts: Seq<int>, z: int)
    requires
        forall|i: int, j: int| 0 <= i < j < ts.len() ==> ts[i] < ts[j],
        ts.len() >= 1,
        ts[0] <= z <= ts.last(),
    ensures
        ts.contains(z) || exists|l: int| 0 <= l < ts.len() - 1
            && #[trigger] ts[l] < z && z < ts[l + 1],
    decreases ts.len(),
{
    if ts[0] == z {
        assert(ts.contains(z));
    } else {
        assert(ts.len() >= 2);
        if z < ts[1] {
            assert(ts[0] < z && z < ts[0int + 1]);
        } else {
            let rest = ts.drop_first();
            assert forall|i: int, j: int| 0 <= i < j < rest.len() implies rest[i] < rest[j] by {
                assert(rest[i] == ts[i + 1] && rest[j] == ts[j + 1]);
            }
            assert(rest[0] == ts[1]);
            assert(rest.last() == ts.last());
            lemma_window_bracket(rest, z);
            if rest.contains(z) {
                let l = choose|l: int| 0 <= l < rest.len() && rest[l] == z;
                assert(ts[l + 1] == z);
                assert(ts.contains(z));
            } else {
                let l = choose|l: int| 0 <= l < rest.len() - 1
                    && #[trigger] rest[l] < z && z < rest[l + 1];
                assert(rest[l] == ts[l + 1] && rest[l + 1] == ts[l + 2]);
                assert(ts[l + 1] < z && z < ts[l + 1 + 1]);
            }
        }
    }
}

/// After a fill, the window is gapless: in a well-formed store whose fill
/// preserved every bar, added bars only strictly between previously
/// adjacent pairs, and closed the interval grid of each such pair, any
/// two bars adjacent inside the filled window sit exactly one interval
/// apart.
pub proof fn lemma_fill_gapless(
    m0: Map<CandleKey, Candle>,
    m1: Map<CandleKey, Candle>,
    provider: Seq<char>,
    symbol: Seq<char>,
    timeframe: Seq<char>,
    lo: int,
    hi: int,
    ts: Seq<int>,
    x: int,
    y: int,
)
    requires
        store_wf(m0),
        store_wf(m1),
        is_window_seq(m0, provider, symbol, timeframe, lo, hi, ts),
        forall|k: CandleKey| #[trigger] m0.contains_key(k) ==> m1.contains_key(k),
        forall|k: CandleKey| #[trigger] m1.contains_key(k) && !m0.contains_key(k)
            ==> exists|a: int, b: int| window_adjacent(m0, provider, symbol, timeframe,
                lo, hi, a, b) && a < k.open_time < b,
        forall|a: int, b: int| #[trigger] window_adjacent(m0, provider, symbol, timeframe,
            lo, hi, a, b) && (b - a) % spec_interval(timeframe) == 0
            ==> grid_filled(m1, provider, symbol, timeframe, a, b, spec_interval(timeframe)),
        window_adjacent(m1, provider, symbol, timeframe, lo, hi, x, y),
    ensures
        y - x == spec_interval(timeframe),
{
    let iv = spec_interval(timeframe);
    lemma_interval_bounds(timeframe);
    let kx = ckey(provider, symbol, timeframe, x);
    let ky = ckey(provider, symbol, timeframe, y);
    assert(m1.contains_key(kx) && m1.contains_key(ky));
    crate::store::lemma_series_spacing(m1, kx, ky);
    assert((y - x) % iv == 0 && y - x >= iv);
    if y - x > iv {
        assert(x % iv == 0) by {
            assert(candle_wf(m1[kx], spec_interval(kx.timeframe)));
        }
        let z = x + iv;
        assert(x < z && z < y);
        assert(z % iv == 0) by {
            vstd::arithmetic::div_mod::lemma_mod_add_multiples_vanish(x, iv);
        }
        // the window enumeration brackets z
        assert(ts.len() >= 1 && ts[0] <= z) by {
            if m0.contains_key(kx) {
                assert(ts.contains(kx.open_time));
                let ix = choose|ix: int| 0 <= ix < ts.len() && ts[ix] == x;
                if ix > 0 {
                    assert(ts[0] < ts[ix]);
                }
            } else {
                let (a, b) = choose|a: int, b: int| window_adjacent(m0, provider, symbol,
                    timeframe, lo, hi, a, b) && a < kx.open_time < b;
                assert(m0.contains_key(ckey(provider, symbol, timeframe, a)));
                assert(ts.contains(a));
                let ia = choose|ia: int| 0 <= ia < ts.len() && ts[ia] == a;
                if ia > 0 {
                    assert(ts[0] < ts[ia]);
                }
            }
        }
        assert(z <= ts.last()) by {
            if m0.contains_key(ky) {
                assert(ts.contains(ky.open_time));
                let iy = choose|iy: int| 0 <= iy < ts.len() && ts[iy] == y;
                if iy < ts.len() - 1 {
                    assert(ts[iy] < ts[ts.len() - 1]);
                }
            } else {
                let (a, b) = choose|a: int, b: int| window_adjacent(m0, provider, symbol,
                    timeframe, lo, hi, a, b) && a < ky.open_time < b;
                assert(m0.contains_key(ckey(provider, symbol, timeframe, b)));
                assert(ts.contains(b));
                let ib = choose|ib: int| 0 <= ib < ts.len() && ts[ib] == b;
                if ib < ts.len() - 1 {
                    assert(ts[ib] < ts[ts.len() - 1]);
                }
            }
        }
        lemma_window_bracket(ts, z);
        if ts.contains(z) {
            let iz = choose|iz: int| 0 <= iz < ts.len() && ts[iz] == z;
            assert(m0.contains_key(ckey(provider, symbol, timeframe, ts[iz])));
            assert(m1.contains_key(ckey(provider, symbol, timeframe, z)));
            assert(false);
        } else {
            let l = choose|l: int| 0 <= l < ts.len() - 1
                && #[trigger] ts[l] < z && z < ts[l + 1];
            assert(m0.contains_key(ckey(provider, symbol, timeframe, ts[l])));
            assert(m0.contains_key(ckey(provider, symbol, timeframe, ts[l + 1])));
            assert(window_adjacent(m0, provider, symbol, timeframe, lo, hi, ts[l], ts[l + 1]))
            by {
                assert forall|t: int| ts[l] < t < ts[l + 1]
                    implies !m0.contains_key(#[trigger] ckey(provider, symbol, timeframe, t))
                by {
                    if m0.contains_key(ckey(provider, symbol, timeframe, t)) {
                        assert(lo <= ts[l] && ts[l + 1] <= hi);
                        assert(ts.contains(t));
                        let it = choose|it: int| 0 <= it < ts.len() && ts[it] == t;
                        if it <= l {
                            assert(ts[it] <= ts[l]);
                        } else {
                            assert(ts[l + 1] <= ts[it]);
                        }
                        assert(false);
                    }
                }
            }
            assert(ts[l] % iv == 0 && ts[l + 1] % iv == 0) by {
                assert(candle_wf(m0[ckey(provider, symbol, timeframe, ts[l])],
                    spec_interval(timeframe)));
                assert(candle_wf(m0[ckey(provider, symbol, timeframe, ts[l + 1])],
                    spec_interval(timeframe)));
            }
            assert((ts[l + 1] - ts[l]) % iv == 0 && (z - ts[l]) % iv == 0) by {
                lemma_sub_mod_noop(ts[l + 1], ts[l], iv);
                lemma_sub_mod_noop(z, ts[l], iv);
                lemma_small_mod(0, iv as nat);
            }
            assert(grid_filled(m1, provider, symbol, timeframe, ts[l], ts[l + 1], iv));
            assert(m1.contains_key(ckey(provider, symbol, timeframe, z)));
            assert(false);
        }
    }
}

} // verus!
