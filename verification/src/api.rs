//! The read side the HTTP facade exposes: paged candle reads in epoch
//! seconds, and the downsampling fallback that aggregates a smaller
//! stored timeframe into the requested one when it has no rows itself.

use vstd::prelude::*;
use crate::candle::{Candle, ckey};
use crate::store::{Store, StoreError};
use crate::timeframe::{spec_interval_seconds, parse_timeframe_seconds};
use vstd::arithmetic::div_mod::{
    lemma_fundamental_div_mod, lemma_mod_division_less_than_divisor,
    lemma_fundamental_div_mod_converse_div,
};

verus! {

/// One bar as the facade serves it: time in epoch seconds, prices in
/// integer units.
#[derive(Clone, Copy, PartialEq, Eq, Structural, Debug)]
pub struct ApiCandle {
    pub time: i64,
    pub open: i64,
    pub high: i64,
    pub low: i64,
    pub close: i64,
    pub volume: i64,
}

/// Division rounding toward negative infinity, as the mathematical `/`.
pub fn floor_div_i64(t: i64, d: i64) -> (r: i64)
    requires
        1 <= d,
    ensures
        r == t as int / d as int,
{
    if t >= 0 {
        ((t as u64) / (d as u64)) as i64
    } else {
        let m: u128 = (-(t as i128)) as u128;
        let q0: u128 = (m + (d as u128) - 1) / (d as u128);
        proof {
            let a = m as int;
            let dd = d as int;
            lemma_fundamental_div_mod(a + dd - 1, dd);
            lemma_mod_division_less_than_divisor(a + dd - 1, dd);
            let q = (a + dd - 1) / dd;
            let r0 = (a + dd - 1) % dd;
            assert(t as int == (-q) * dd + (dd - 1 - r0)) by (nonlinear_arith)
                requires
                    t as int == -a,
                    a + dd - 1 == dd * q + r0,
                    0 <= r0 < dd;
            lemma_fundamental_div_mod_converse_div(t as int, dd, -q, dd - 1 - r0);
            assert(0 <= q) by (nonlinear_arith)
                requires 0 < a, 0 < dd, a + dd - 1 == dd * q + r0, 0 <= r0 < dd;
            assert(q <= a) by (nonlinear_arith)
                requires 0 < a, 1 <= dd, a + dd - 1 == dd * q + r0, 0 <= r0 < dd;
        }
        let neg: i128 = -(q0 as i128);
        neg as i64
    }
}

/// A stored bar as the facade serves it: open time scaled to seconds.
pub open spec fn spec_to_api(c: Candle) -> ApiCandle {
    ApiCandle {
        time: (c.open_time as int / 1000) as i64,
        open: c.open,
        high: c.high,
        low: c.low,
        close: c.close,
        volume: c.volume,
    }
}

/// Scales a stored bar's open time down to seconds.
pub fn to_api_candle(c: &Candle) -> (r: ApiCandle)
    ensures
        r == spec_to_api(*c),
{
    let t = floor_div_i64(c.open_time, 1000);
    proof {
        lemma_fundamental_div_mod(c.open_time as int, 1000);
        lemma_mod_division_less_than_divisor(c.open_time as int, 1000);
        assert(-0x8000_0000_0000_0000 <= (c.open_time as int) / 1000 < 0x8000_0000_0000_0000)
            by (nonlinear_arith)
            requires
                -0x8000_0000_0000_0000 <= c.open_time < 0x8000_0000_0000_0000,
                c.open_time as int == 1000 * ((c.open_time as int) / 1000)
                    + (c.open_time as int) % 1000,
                0 <= (c.open_time as int) % 1000 < 1000;
    }
    ApiCandle { time: t, open: c.open, high: c.high, low: c.low, close: c.close, volume: c.volume }
}

/// The start of the target-timeframe bucket a second-timestamp falls in.
pub open spec fn bucket_start(t: int, ts: int) -> int {
    (t / ts) * ts
}

/// Highest high of a group.
pub open spec fn spec_max_high(g: Seq<ApiCandle>) -> int
    decreases g.len(),
{
    if g.len() <= 1 {
        if g.len() == 1 { g[0].high as int } else { 0 }
    } else {
        let rest = spec_max_high(g.drop_first());
        if g[0].high >= rest { g[0].high as int } else { rest }
    }
}

/// Lowest low of a group.
pub open spec fn spec_min_low(g: Seq<ApiCandle>) -> int
    decreases g.len(),
{
    if g.len() <= 1 {
        if g.len() == 1 { g[0].low as int } else { 0 }
    } else {
        let rest = spec_min_low(g.drop_first());
        if g[0].low <= rest { g[0].low as int } else { rest }
    }
}

/// Exact volume sum of a group.
pub open spec fn spec_sum_volume(g: Seq<ApiCandle>) -> int
    decreases g.len(),
{
    if g.len() == 0 {
        0
    } else {
        g[0].volume + spec_sum_volume(g.drop_first())
    }
}

/// Clamps a mathematical integer into the machine range.
pub open spec fn sat_i64(x: int) -> i64 {
    if x > 0x7fff_ffff_ffff_ffff {
        0x7fff_ffff_ffff_ffffi64
    } else if x < -0x8000_0000_0000_0000 {
        -0x8000_0000_0000_0000i64
    } else {
        x as i64
    }
}

/// The aggregated bar of one bucket: open of the first bar, close of the
/// last, extremes over the group, volumes summed (clamped to the machine
/// range), timed at the bucket start.
pub open spec fn spec_agg(g: Seq<ApiCandle>, period: int) -> ApiCandle
    recommends
        g.len() > 0,
{
    ApiCandle {
        time: period as i64,
        open: g[0].open,
        high: sat_i64(spec_max_high(g)),
        low: sat_i64(spec_min_low(g)),
        close: g.last().close,
        volume: sat_i64(spec_sum_volume(g)),
    }
}

proof fn lemma_agg_snoc(g: Seq<ApiCandle>, x: ApiCandle)
    requires
        g.len() >= 1,
    ensures
        spec_max_high(g.push(x)) == if spec_max_high(g) >= x.high {
            spec_max_high(g)
        } else {
            x.high as int
        },
        spec_min_low(g.push(x)) == if spec_min_low(g) <= x.low {
            spec_min_low(g)
        } else {
            x.low as int
        },
        spec_sum_volume(g.push(x)) == spec_sum_volume(g) + x.volume,
    decreases g.len(),
{
    if g.len() == 1 {
        assert(g.push(x)[0] == g[0]);
        assert(g.push(x).drop_first() =~= seq![x]);
        lemma_sum_volume_singleton(x);
        assert(g.drop_first() =~= Seq::<ApiCandle>::empty());
        assert(spec_sum_volume(g.drop_first()) == 0);
    } else {
        assert(g.push(x)[0] == g[0]);
        assert(g.push(x).drop_first() =~= g.drop_first().push(x));
        lemma_agg_snoc(g.drop_first(), x);
    }
}

proof fn lemma_sum_volume_singleton(x: ApiCandle)
    ensures
        spec_sum_volume(seq![x]) == x.volume,
        spec_max_high(seq![x]) == x.high,
        spec_min_low(seq![x]) == x.low,
{
    assert(seq![x].len() == 1);
    assert(seq![x].drop_first() =~= Seq::<ApiCandle>::empty());
    assert(spec_sum_volume(Seq::<ApiCandle>::empty()) == 0);
}

/// How many bars at the head of `src` fall in the bucket starting at `b`.
pub open spec fn run_len(src: Seq<ApiCandle>, ts: int, b: int) -> nat
    decreases src.len(),
{
    if src.len() == 0 {
        0
    } else if bucket_start(src[0].time as int, ts) == b {
        1 + run_len(src.drop_first(), ts, b)
    } else {
        0
    }
}

proof fn lemma_run_len_bounds(src: Seq<ApiCandle>, ts: int, b: int)
    ensures
        run_len(src, ts, b) <= src.len(),
    decreases src.len(),
{
    if src.len() > 0 && bucket_start(src[0].time as int, ts) == b {
        lemma_run_len_bounds(src.drop_first(), ts, b);
    }
}

/// The index form of a run: everything before `n` is in the bucket, and
/// `n` is the end of the input or the first bar outside it.
proof fn lemma_run_len_index(src: Seq<ApiCandle>, ts: int, b: int, n: int)
    requires
        0 <= n <= src.len(),
        forall|i: int| 0 <= i < n ==> bucket_start((#[trigger] src[i]).time as int, ts) == b,
        n < src.len() ==> bucket_start(src[n as int].time as int, ts) != b,
    ensures
        run_len(src, ts, b) == n,
    decreases src.len(),
{
    if n == 0 {
    } else {
        assert(bucket_start(src[0].time as int, ts) == b);
        assert forall|i: int| 0 <= i < n - 1
            implies bucket_start((#[trigger] src.drop_first()[i]).time as int, ts) == b
        by {
            assert(src.drop_first()[i] == src[i + 1]);
        }
        if n - 1 < src.drop_first().len() {
            assert(src.drop_first()[n - 1] == src[n as int]);
        }
        lemma_run_len_index(src.drop_first(), ts, b, n - 1);
    }
}

/// The downsampled series: consecutive runs of bars sharing a bucket are
/// each aggregated into one bar.
pub open spec fn spec_resample(src: Seq<ApiCandle>, ts: int) -> Seq<ApiCandle>
    decreases src.len(),
    via spec_resample_decreases
{
    if src.len() == 0 {
        Seq::empty()
    } else {
        let b = bucket_start(src[0].time as int, ts);
        let n = run_len(src, ts, b) as int;
        seq![spec_agg(src.take(n), b)] + spec_resample(src.skip(n), ts)
    }
}

#[via_fn]
proof fn spec_resample_decreases(src: Seq<ApiCandle>, ts: int) {
    if src.len() > 0 {
        lemma_run_len_bounds(src, ts, bucket_start(src[0].time as int, ts));
    }
}

/// Aggregates `src[lo..hi]` into one bar timed at `period`.
fn aggregate_candles(src: &Vec<ApiCandle>, lo: usize, hi: usize, period: i64) -> (r: ApiCandle)
    requires
        0 <= lo < hi <= src@.len(),
        hi - lo <= 50_000,
    ensures
        r == spec_agg(src@.subrange(lo as int, hi as int), period as int),
{
    let first = src[lo];
    let mut high: i64 = first.high;
    let mut low: i64 = first.low;
    let mut vol: i128 = first.volume as i128;
    let mut close: i64 = first.close;
    let mut i: usize = lo + 1;
    proof {
        lemma_sum_volume_singleton(first);
        assert(src@.subrange(lo as int, lo as int + 1) =~= seq![first]);
    }
    while i < hi
        invariant
            0 <= lo < i <= hi <= src@.len(),
            hi - lo <= 50_000,
            high == spec_max_high(src@.subrange(lo as int, i as int)),
            low == spec_min_low(src@.subrange(lo as int, i as int)),
            vol == spec_sum_volume(src@.subrange(lo as int, i as int)),
            close == src@[i - 1].close,
            -0x8000_0000_0000_0000 * ((i - lo) as int) <= vol
                <= 0x7fff_ffff_ffff_ffff * ((i - lo) as int),
        decreases hi - i,
    {
        let c = src[i];
        proof {
            lemma_agg_snoc(src@.subrange(lo as int, i as int), c);
            assert(src@.subrange(lo as int, i as int + 1)
                =~= src@.subrange(lo as int, i as int).push(c));
            assert(src@.subrange(lo as int, i as int).len() == i - lo >= 1);
            assert(-0x8000_0000_0000_0000 * ((i + 1 - lo) as int)
                <= vol + c.volume
                <= 0x7fff_ffff_ffff_ffff * ((i + 1 - lo) as int)) by (nonlinear_arith)
                requires
                    -0x8000_0000_0000_0000 * ((i - lo) as int) <= vol
                        <= 0x7fff_ffff_ffff_ffff * ((i - lo) as int),
                    -0x8000_0000_0000_0000 <= c.volume <= 0x7fff_ffff_ffff_ffff,
                    lo < i;
            assert(vol + c.volume <= 0x7fff_ffff_ffff_ffff * 50_000
                && -0x8000_0000_0000_0000 * 50_000 <= vol + c.volume) by (nonlinear_arith)
                requires
                    -0x8000_0000_0000_0000 * ((i + 1 - lo) as int) <= vol + c.volume
                        <= 0x7fff_ffff_ffff_ffff * ((i + 1 - lo) as int),
                    0 < (i + 1 - lo) as int <= 50_000;
        }
        if c.high > high {
            high = c.high;
        }
        if c.low < low {
            low = c.low;
        }
        vol = vol + (c.volume as i128);
        close = c.close;
        i = i + 1;
    }
    let volume: i64 = if vol > 0x7fff_ffff_ffff_ffffi128 {
        0x7fff_ffff_ffff_ffffi64
    } else if vol < -0x8000_0000_0000_0000i128 {
        -0x8000_0000_0000_0000i64
    } else {
        vol as i64
    };
    proof {
        assert(src@.subrange(lo as int, hi as int)[0] == first);
        assert(src@.subrange(lo as int, hi as int).last() == src@[hi - 1]);
        assert(high as int == sat_i64(spec_max_high(src@.subrange(lo as int, hi as int))) as int);
        assert(low as int == sat_i64(spec_min_low(src@.subrange(lo as int, hi as int))) as int);
    }
    ApiCandle { time: period, open: first.open, high, low, close, volume }
}

/// The start of the bucket a nonnegative second-timestamp falls in.
pub fn bucket_of(t: i64, ts: i64) -> (r: i64)
    requires
        0 <= t,
        1 <= ts,
    ensures
        r == bucket_start(t as int, ts as int),
{
    let q: u64 = (t as u64) / (ts as u64);
    proof {
        lemma_fundamental_div_mod(t as int, ts as int);
        lemma_mod_division_less_than_divisor(t as int, ts as int);
        assert(0 <= (q as int) * (ts as int) <= t as int) by (nonlinear_arith)
            requires
                0 <= t as int,
                1 <= ts as int,
                q as int == (t as int) / (ts as int),
                t as int == (ts as int) * ((t as int) / (ts as int)) + (t as int) % (ts as int),
                0 <= (t as int) % (ts as int) < ts as int;
    }
    (q * (ts as u64)) as i64
}

/// Aggregates bars of a smaller timeframe into buckets of
/// `target_seconds`, keeping at most `limit` aggregated bars. The input
/// must be ascending by time, as a store scan returns it.
pub fn resample_candles(source: &Vec<ApiCandle>, target_seconds: i64, limit: usize)
    -> (r: Vec<ApiCandle>)
    requires
        1 <= target_seconds,
        source@.len() <= 50_000,
        forall|i: int| 0 <= i < source@.len() ==> 0 <= (#[trigger] source@[i]).time,
    ensures
        r@ == spec_resample(source@, target_seconds as int).take(
            if limit <= spec_resample(source@, target_seconds as int).len() {
                limit as int
            } else {
                spec_resample(source@, target_seconds as int).len() as int
            }),
{
    let ghost ts = target_seconds as int;
    let ghost full = spec_resample(source@, ts);
    let mut out: Vec<ApiCandle> = Vec::new();
    let mut g: usize = 0;
    proof {
        assert(source@.skip(0) =~= source@);
    }
    while g < source.len()
        invariant
            1 <= target_seconds,
            ts == target_seconds as int,
            full == spec_resample(source@, ts),
            source@.len() <= 50_000,
            forall|i: int| 0 <= i < source@.len() ==> 0 <= (#[trigger] source@[i]).time,
            0 <= g <= source@.len(),
            out@ + spec_resample(source@.skip(g as int), ts) == full,
        decreases source@.len() - g,
    {
        let t0 = source[g].time;
        let b: i64 = bucket_of(t0, target_seconds);
        let mut e: usize = g + 1;
        while e < source.len() && bucket_of(source[e].time, target_seconds) == b
            invariant
                1 <= target_seconds,
                ts == target_seconds as int,
                source@.len() <= 50_000,
                forall|i: int| 0 <= i < source@.len() ==> 0 <= (#[trigger] source@[i]).time,
                0 <= g < e <= source@.len(),
                b as int == bucket_start(source@[g as int].time as int, ts),
                forall|i: int| g <= i < e
                    ==> bucket_start((#[trigger] source@[i]).time as int, ts) == b as int,
            decreases source@.len() - e,
        {
            e = e + 1;
        }
        proof {
            assert forall|i: int| 0 <= i < e - g
                implies bucket_start((#[trigger] source@.skip(g as int)[i]).time as int, ts)
                    == b as int
            by {
                assert(source@.skip(g as int)[i] == source@[g + i]);
            }
            if e < source@.len() {
                assert(source@.skip(g as int)[e - g] == source@[e as int]);
            }
            lemma_run_len_index(source@.skip(g as int), ts, b as int, e - g);
            assert(source@.skip(g as int)[0] == source@[g as int]);
            assert(source@.skip(g as int).take(e - g)
                =~= source@.subrange(g as int, e as int));
            assert(source@.skip(g as int).skip(e - g) =~= source@.skip(e as int));
        }
        let agg = aggregate_candles(source, g, e, b);
        proof {
            assert(out@ + (seq![agg] + spec_resample(source@.skip(e as int), ts)) == full);
            assert(out@.push(agg) + spec_resample(source@.skip(e as int), ts) =~= out@
                + (seq![agg] + spec_resample(source@.skip(e as int), ts)));
        }
        out.push(agg);
        g = e;
    }
    proof {
        assert(source@.skip(source@.len() as int)
            =~= Seq::<ApiCandle>::empty());
        assert(out@ + Seq::<ApiCandle>::empty() =~= out@);
        assert(out@ == full);
    }
    let ghost pre = out@;
    out.truncate(limit);
    proof {
        if limit <= pre.len() {
            assert(out@ =~= full.take(limit as int));
        } else {
            assert(out@ =~= full.take(full.len() as int));
        }
    }
    out
}

/// The candidate source timeframes for downsampling, ascending.
pub open spec fn spec_downsample_sources() -> Seq<Seq<char>> {
    seq!["5m"@, "15m"@, "30m"@, "1h"@, "2h"@, "4h"@, "6h"@, "8h"@, "12h"@, "1d"@, "3d"@]
}

fn downsample_source(i: usize) -> (r: &'static str)
    requires
        i < 11,
    ensures
        r@ == spec_downsample_sources()[i as int],
{
    match i {
        0 => "5m",
        1 => "15m",
        2 => "30m",
        3 => "1h",
        4 => "2h",
        5 => "4h",
        6 => "6h",
        7 => "8h",
        8 => "12h",
        9 => "1d",
        _ => "3d",
    }
}

/// Whether a series stores any bar at all.
pub open spec fn series_has_bars(
    m: Map<crate::candle::CandleKey, Candle>,
    provider: Seq<char>,
    symbol: Seq<char>,
    timeframe: Seq<char>,
) -> bool {
    exists|t: int| m.contains_key(#[trigger] ckey(provider, symbol, timeframe, t))
}

/// The largest timeframe of the candidate list strictly smaller than the
/// target that has data for the symbol, if any.
pub fn find_smaller_timeframe(store: &Store, symbol: &str, target_tf: &str)
    -> (r: Result<Option<String>, StoreError>)
    ensures
        r matches Ok(opt) ==> match opt {
            Some(tf) => exists|i: int| 0 <= i < 11
                && #[trigger] spec_downsample_sources()[i] == tf@
                && spec_interval_seconds(tf@) < spec_interval_seconds(target_tf@)
                && series_has_bars(store.candles(), "binance"@, symbol@, tf@)
                && forall|j: int| i < j < 11
                    && spec_interval_seconds(#[trigger] spec_downsample_sources()[j])
                        < spec_interval_seconds(target_tf@)
                    ==> !series_has_bars(store.candles(), "binance"@, symbol@,
                        spec_downsample_sources()[j]),
            None => forall|j: int| 0 <= j < 11
                && spec_interval_seconds(#[trigger] spec_downsample_sources()[j])
                    < spec_interval_seconds(target_tf@)
                ==> !series_has_bars(store.candles(), "binance"@, symbol@,
                    spec_downsample_sources()[j]),
        },
{
    let target_seconds = parse_timeframe_seconds(target_tf);
    proof {
        store.lemma_view();
    }
    let mut idx: usize = 11;
    while idx > 0
        invariant
            idx <= 11,
            target_seconds == spec_interval_seconds(target_tf@),
            forall|j: int| idx <= j < 11
                && spec_interval_seconds(#[trigger] spec_downsample_sources()[j])
                    < spec_interval_seconds(target_tf@)
                ==> !series_has_bars(store.candles(), "binance"@, symbol@,
                    spec_downsample_sources()[j]),
        decreases idx,
    {
        idx = idx - 1;
        let tf = downsample_source(idx);
        let tf_seconds = parse_timeframe_seconds(tf);
        let mut has = false;
        if tf_seconds < target_seconds {
            has = match store.series_nonempty("binance", symbol, tf) {
                Ok(b) => b,
                Err(e) => {
                    return Err(e);
                }
            };
            if has {
                let name = tf.to_owned();
                proof {
                    store.lemma_nonempty_view("binance"@, symbol@, tf@);
                    assert(spec_downsample_sources()[idx as int] == name@
                        && spec_interval_seconds(name@) < spec_interval_seconds(target_tf@)
                        && series_has_bars(store.candles(), "binance"@, symbol@, name@));
                }
                return Ok(Some(name));
            }
        }
        proof {
            assert forall|j: int| idx <= j < 11
                && spec_interval_seconds(#[trigger] spec_downsample_sources()[j])
                    < spec_interval_seconds(target_tf@)
                implies !series_has_bars(store.candles(), "binance"@, symbol@,
                    spec_downsample_sources()[j])
            by {
                if j == idx as int {
                    assert(spec_downsample_sources()[j] == tf@);
                    assert(tf_seconds < target_seconds);
                    assert(!has);
                    store.lemma_nonempty_view("binance"@, symbol@, tf@);
                    assert(!series_has_bars(store.candles(), "binance"@, symbol@, tf@));
                }
            }
        }
    }
    Ok(None)
}

/// The lower bound in milliseconds of a read window given in seconds.
pub open spec fn spec_ms_bound_lo(start_s: Option<i64>) -> int {
    match start_s {
        Some(t) => t * 1000,
        None => -0x8000_0000_0000_0000,
    }
}

/// The upper bound in milliseconds of a read window given in seconds.
pub open spec fn spec_ms_bound_hi(end_s: Option<i64>) -> int {
    match end_s {
        Some(t) => t * 1000,
        None => 0x7fff_ffff_ffff_ffff,
    }
}

/// Whether `cs` is the ascending enumeration of the bars one series
/// stores inside [lo, hi].
pub open spec fn spec_window_rows(
    m: Map<crate::candle::CandleKey, Candle>,
    provider: Seq<char>,
    symbol: Seq<char>,
    timeframe: Seq<char>,
    lo: int,
    hi: int,
    cs: Seq<Candle>,
) -> bool {
    &&& forall|i: int, j: int| 0 <= i < j < cs.len() ==> cs[i].open_time < cs[j].open_time
    &&& forall|i: int| 0 <= i < cs.len() ==> lo <= (#[trigger] cs[i]).open_time <= hi
        && m.contains_key(ckey(provider, symbol, timeframe, cs[i].open_time as int))
        && m[ckey(provider, symbol, timeframe, cs[i].open_time as int)] == cs[i]
    &&& forall|t: int| lo <= t <= hi && m.contains_key(#[trigger] ckey(provider, symbol,
            timeframe, t))
        ==> exists|i: int| 0 <= i < cs.len() && cs[i].open_time == t
}

/// The page of a window an offset and limit select, scaled to seconds.
pub open spec fn spec_page(cs: Seq<Candle>, offset: int, limit: int) -> Seq<ApiCandle> {
    let lo = if offset <= cs.len() { offset } else { cs.len() as int };
    let hi = if offset + limit <= cs.len() { offset + limit } else { cs.len() as int };
    cs.subrange(lo, hi).map_values(|c: Candle| spec_to_api(c))
}

/// One page of stored bars of a series, ascending, in epoch seconds:
/// LIMIT and OFFSET applied to the window scan.
pub fn read_candles_page(
    store: &Store,
    symbol: &str,
    timeframe: &str,
    start_s: Option<i64>,
    end_s: Option<i64>,
    limit: usize,
    offset: usize,
) -> (r: Result<Vec<ApiCandle>, StoreError>)
    requires
        start_s matches Some(t) ==> -9_000_000_000_000 <= t <= 9_000_000_000_000,
        end_s matches Some(t) ==> -9_000_000_000_000 <= t <= 9_000_000_000_000,
    ensures
        r matches Ok(v) ==> exists|cs: Seq<Candle>|
            #[trigger] spec_window_rows(store.candles(), "binance"@, symbol@, timeframe@,
                spec_ms_bound_lo(start_s), spec_ms_bound_hi(end_s), cs)
            && v@ == spec_page(cs, offset as int, limit as int),
{
    let lo = match start_s {
        Some(t) => t * 1000,
        None => i64::MIN,
    };
    let hi = match end_s {
        Some(t) => t * 1000,
        None => i64::MAX,
    };
    let rows = match store.range_scan("binance", symbol, timeframe, lo, hi) {
        Ok(v) => v,
        Err(e) => {
            return Err(e);
        }
    };
    let n = rows.len();
    let page_lo = if offset <= n { offset } else { n };
    let page_hi = if limit <= n - page_lo { page_lo + limit } else { n };
    let mut out: Vec<ApiCandle> = Vec::new();
    let mut i: usize = page_lo;
    proof {
        assert(rows@.subrange(page_lo as int, page_lo as int)
            .map_values(|c: Candle| spec_to_api(c)) =~= Seq::<ApiCandle>::empty());
        assert(out@ =~= Seq::<ApiCandle>::empty());
    }
    while i < page_hi
        invariant
            page_lo <= i <= page_hi <= rows@.len(),
            out@ == rows@.subrange(page_lo as int, i as int)
                .map_values(|c: Candle| spec_to_api(c)),
        decreases page_hi - i,
    {
        let c = rows[i];
        let api = to_api_candle(&c);
        out.push(api);
        proof {
            assert(rows@.subrange(page_lo as int, i as int + 1)
                =~= rows@.subrange(page_lo as int, i as int).push(c));
            assert(out@ =~= rows@.subrange(page_lo as int, i as int + 1)
                .map_values(|c2: Candle| spec_to_api(c2)));
        }
        i = i + 1;
    }
    proof {
        assert(lo as int == spec_ms_bound_lo(start_s));
        assert(hi as int == spec_ms_bound_hi(end_s));
        assert(spec_window_rows(store.candles(), "binance"@, symbol@, timeframe@,
            spec_ms_bound_lo(start_s), spec_ms_bound_hi(end_s), rows@));
        assert(out@ == spec_page(rows@, offset as int, limit as int));
    }
    Ok(out)
}

fn all_times_nonneg(v: &Vec<ApiCandle>) -> (r: bool)
    ensures
        r == forall|i: int| 0 <= i < v@.len() ==> 0 <= (#[trigger] v@[i]).time,
{
    let mut i: usize = 0;
    while i < v.len()
        invariant
            0 <= i <= v@.len(),
            forall|l: int| 0 <= l < i ==> 0 <= (#[trigger] v@[l]).time,
        decreases v@.len() - i,
    {
        if v[i].time < 0 {
            return false;
        }
        i = i + 1;
    }
    true
}

/// One paged read with the downsampling fallback: the requested page when
/// the timeframe has rows in the window; otherwise the aggregation of the
/// largest smaller stored timeframe into target buckets. A symbol with no
/// data in either place gets an empty response, not an error.
pub fn get_candles_with_fallback(
    store: &Store,
    symbol: &str,
    timeframe: &str,
    start_s: Option<i64>,
    end_s: Option<i64>,
    limit: usize,
    offset: usize,
) -> (r: Result<Vec<ApiCandle>, StoreError>)
    requires
        start_s matches Some(t) ==> -9_000_000_000_000 <= t <= 9_000_000_000_000,
        end_s matches Some(t) ==> -9_000_000_000_000 <= t <= 9_000_000_000_000,
    ensures
        r matches Ok(v) ==> exists|cs: Seq<Candle>|
            #[trigger] spec_window_rows(store.candles(), "binance"@, symbol@, timeframe@,
                spec_ms_bound_lo(start_s), spec_ms_bound_hi(end_s), cs)
            && (spec_page(cs, offset as int, limit as int).len() > 0
                ==> v@ == spec_page(cs, offset as int, limit as int))
            && (spec_page(cs, offset as int, limit as int).len() == 0
                && (forall|j: int| 0 <= j < 11
                    && spec_interval_seconds(#[trigger] spec_downsample_sources()[j])
                        < spec_interval_seconds(timeframe@)
                    ==> !series_has_bars(store.candles(), "binance"@, symbol@,
                        spec_downsample_sources()[j]))
                ==> v@.len() == 0)
            && (spec_page(cs, offset as int, limit as int).len() == 0
                ==> v@.len() == 0 || exists|src_tf: Seq<char>, cs2: Seq<Candle>| {
                    &&& (exists|j: int| 0 <= j < 11
                        && #[trigger] spec_downsample_sources()[j] == src_tf)
                    &&& spec_interval_seconds(src_tf) < spec_interval_seconds(timeframe@)
                    &&& series_has_bars(store.candles(), "binance"@, symbol@, src_tf)
                    &&& #[trigger] spec_window_rows(store.candles(), "binance"@, symbol@,
                        src_tf, spec_ms_bound_lo(start_s), spec_ms_bound_hi(end_s), cs2)
                    &&& v@ == spec_resample(spec_page(cs2, 0, 50_000),
                        spec_interval_seconds(timeframe@)).take(
                        if limit <= spec_resample(spec_page(cs2, 0, 50_000),
                            spec_interval_seconds(timeframe@)).len() {
                            limit as int
                        } else {
                            spec_resample(spec_page(cs2, 0, 50_000),
                                spec_interval_seconds(timeframe@)).len() as int
                        })
                }),
{
    let page = read_candles_page(store, symbol, timeframe, start_s, end_s, limit, offset)?;
    if page.len() > 0 {
        return Ok(page);
    }
    let source_tf = match find_smaller_timeframe(store, symbol, timeframe)? {
        Some(tf) => tf,
        None => {
            return Ok(page);
        }
    };
    let source_rows = read_candles_page(store, symbol, source_tf.as_str(), start_s, end_s,
        50_000, 0)?;
    if !all_times_nonneg(&source_rows) {
        let empty: Vec<ApiCandle> = Vec::new();
        proof {
            assert(empty@.len() == 0);
        }
        return Ok(empty);
    }
    let target_seconds = parse_timeframe_seconds(timeframe);
    let resampled = resample_candles(&source_rows, target_seconds, limit);
    proof {
        let cs = choose|cs: Seq<Candle>|
            #[trigger] spec_window_rows(store.candles(), "binance"@, symbol@, timeframe@,
                spec_ms_bound_lo(start_s), spec_ms_bound_hi(end_s), cs)
            && page@ == spec_page(cs, offset as int, limit as int);
        assert(spec_window_rows(store.candles(), "binance"@, symbol@, timeframe@,
            spec_ms_bound_lo(start_s), spec_ms_bound_hi(end_s), cs)
            && (spec_page(cs, offset as int, limit as int).len() > 0
                ==> resampled@ == spec_page(cs, offset as int, limit as int))
            && (spec_page(cs, offset as int, limit as int).len() == 0
                && (forall|j: int| 0 <= j < 11
                    && spec_interval_seconds(#[trigger] spec_downsample_sources()[j])
                        < spec_interval_seconds(timeframe@)
                    ==> !series_has_bars(store.candles(), "binance"@, symbol@,
                        spec_downsample_sources()[j]))
                ==> resampled@.len() == 0));
    }
    Ok(resampled)
}


} // verus!
