//! Integrity checking of stored data: scanning one series for gaps (bars
//! spaced too far apart) and overlaps (bars spaced too close together).

use vstd::prelude::*;
use crate::candle::{Candle, ckey};
use crate::store::{Store, StoreError};
use crate::timeframe::{spec_interval, timeframe_to_interval, lemma_interval_bounds};
use crate::gap_filler::is_window_seq;

verus! {

/// The anomalies of a sorted open-time sequence: for each adjacent pair,
/// a gap entry (previous time, spacing) where the spacing exceeds the
/// interval, and an overlap entry where it falls short.
pub open spec fn spec_gap_list(ts: Seq<int>, iv: int) -> Seq<(int, int)>
    decreases ts.len(),
{
    if ts.len() < 2 {
        Seq::empty()
    } else {
        let rest = spec_gap_list(ts.drop_first(), iv);
        if ts[1] - ts[0] > iv {
            seq![(ts[0], ts[1] - ts[0])] + rest
        } else {
            rest
        }
    }
}

/// The adjacent pairs spaced closer than one interval.
pub open spec fn spec_overlap_list(ts: Seq<int>, iv: int) -> Seq<(int, int)>
    decreases ts.len(),
{
    if ts.len() < 2 {
        Seq::empty()
    } else {
        let rest = spec_overlap_list(ts.drop_first(), iv);
        if ts[1] - ts[0] < iv {
            seq![(ts[0], ts[1] - ts[0])] + rest
        } else {
            rest
        }
    }
}

proof fn lemma_anomaly_snoc(ts: Seq<int>, x: int, iv: int)
    requires
        ts.len() >= 1,
    ensures
        spec_gap_list(ts.push(x), iv) == if x - ts.last() > iv {
            spec_gap_list(ts, iv).push((ts.last(), x - ts.last()))
        } else {
            spec_gap_list(ts, iv)
        },
        spec_overlap_list(ts.push(x), iv) == if x - ts.last() < iv {
            spec_overlap_list(ts, iv).push((ts.last(), x - ts.last()))
        } else {
            spec_overlap_list(ts, iv)
        },
    decreases ts.len(),
{
    if ts.len() == 1 {
        assert(ts.push(x)[0] == ts[0]);
        assert(ts.push(x)[1] == x);
        assert(ts.push(x).drop_first() =~= seq![x]);
        assert(spec_gap_list(seq![x], iv) =~= Seq::<(int, int)>::empty());
        assert(spec_overlap_list(seq![x], iv) =~= Seq::<(int, int)>::empty());
        if x - ts[0] > iv {
            assert(seq![(ts[0], x - ts[0])] + Seq::<(int, int)>::empty()
                =~= spec_gap_list(ts, iv).push((ts[0], x - ts[0])));
        }
        if x - ts[0] < iv {
            assert(seq![(ts[0], x - ts[0])] + Seq::<(int, int)>::empty()
                =~= spec_overlap_list(ts, iv).push((ts[0], x - ts[0])));
        }
    } else {
        assert(ts.push(x)[0] == ts[0]);
        assert(ts.push(x)[1] == ts[1]);
        assert(ts.push(x).drop_first() =~= ts.drop_first().push(x));
        lemma_anomaly_snoc(ts.drop_first(), x, iv);
        assert(ts.drop_first().last() == ts.last());
        let grest = spec_gap_list(ts.drop_first(), iv);
        let orest = spec_overlap_list(ts.drop_first(), iv);
        if ts[1] - ts[0] > iv && x - ts.last() > iv {
            assert(seq![(ts[0], ts[1] - ts[0])] + grest.push((ts.last(), x - ts.last()))
                =~= (seq![(ts[0], ts[1] - ts[0])] + grest).push((ts.last(), x - ts.last())));
        }
        if ts[1] - ts[0] < iv && x - ts.last() < iv {
            assert(seq![(ts[0], ts[1] - ts[0])] + orest.push((ts.last(), x - ts.last()))
                =~= (seq![(ts[0], ts[1] - ts[0])] + orest).push((ts.last(), x - ts.last())));
        }
    }
}

/// What a spacing scan of one series found.
pub struct SpacingReport {
    /// How many bars the series stores.
    pub total_count: usize,
    /// The earliest stored open time.
    pub first_timestamp: Option<i64>,
    /// The latest stored open time.
    pub last_timestamp: Option<i64>,
    /// Adjacent pairs spaced more than one interval apart:
    /// (previous open time, spacing).
    pub gaps: Vec<(i64, i128)>,
    /// Adjacent pairs spaced less than one interval apart:
    /// (previous open time, spacing).
    pub overlaps: Vec<(i64, i128)>,
}

/// Scans one whole series and reports every gap and overlap between
/// adjacent stored bars, with the bar count and the covered range.
pub fn verify_data_spacing(
    store: &Store,
    provider: &str,
    symbol: &str,
    timeframe: &str,
) -> (r: Result<SpacingReport, StoreError>)
    ensures
        r matches Ok(rep) ==> exists|ts: Seq<int>|
            #[trigger] is_window_seq(store.candles(), provider@, symbol@, timeframe@,
                -0x8000_0000_0000_0000, 0x7fff_ffff_ffff_ffff, ts)
            && rep.total_count == ts.len()
            && (ts.len() == 0 ==> rep.first_timestamp is None && rep.last_timestamp is None)
            && (ts.len() > 0 ==> rep.first_timestamp == Some((ts[0]) as i64)
                && rep.last_timestamp == Some((ts.last()) as i64))
            && rep.gaps@.map_values(|g: (i64, i128)| (g.0 as int, g.1 as int))
                == spec_gap_list(ts, spec_interval(timeframe@))
            && rep.overlaps@.map_values(|g: (i64, i128)| (g.0 as int, g.1 as int))
                == spec_overlap_list(ts, spec_interval(timeframe@)),
{
    let expected_interval_ms = timeframe_to_interval(timeframe);
    proof {
        lemma_interval_bounds(timeframe@);
    }
    let candles = match store.query_range(provider, symbol, timeframe, i64::MIN, i64::MAX) {
        Ok(v) => v,
        Err(e) => {
            return Err(e);
        }
    };
    let ghost ts = candles@.map(|l: int, c: Candle| c.open_time as int);
    let ghost iv = spec_interval(timeframe@);
    proof {
        store.lemma_view();
        assert forall|t: int| -0x8000_0000_0000_0000 <= t <= 0x7fff_ffff_ffff_ffff
            && store.candles().contains_key(#[trigger] ckey(provider@, symbol@, timeframe@, t))
            implies ts.contains(t)
        by {
            let l = choose|l: int| 0 <= l < candles@.len() && candles@[l].open_time == t;
            assert(ts[l] == t);
        }
        assert(is_window_seq(store.candles(), provider@, symbol@, timeframe@,
            -0x8000_0000_0000_0000, 0x7fff_ffff_ffff_ffff, ts));
    }
    let mut gaps: Vec<(i64, i128)> = Vec::new();
    let mut overlaps: Vec<(i64, i128)> = Vec::new();
    if candles.len() == 0 {
        proof {
            assert(gaps@.map_values(|g: (i64, i128)| (g.0 as int, g.1 as int))
                =~= spec_gap_list(ts, iv));
            assert(overlaps@.map_values(|g: (i64, i128)| (g.0 as int, g.1 as int))
                =~= spec_overlap_list(ts, iv));
        }
        return Ok(SpacingReport {
            total_count: 0,
            first_timestamp: None,
            last_timestamp: None,
            gaps,
            overlaps,
        });
    }
    let first = candles[0].open_time;
    let last = candles[candles.len() - 1].open_time;
    let mut i: usize = 0;
    proof {
        assert(ts.take(1) =~= seq![ts[0]]);
        assert(spec_gap_list(ts.take(1), iv) =~= Seq::<(int, int)>::empty());
        assert(spec_overlap_list(ts.take(1), iv) =~= Seq::<(int, int)>::empty());
        assert(gaps@.map_values(|g: (i64, i128)| (g.0 as int, g.1 as int))
            =~= spec_gap_list(ts.take(1), iv));
        assert(overlaps@.map_values(|g: (i64, i128)| (g.0 as int, g.1 as int))
            =~= spec_overlap_list(ts.take(1), iv));
    }
    while i < candles.len() - 1
        invariant
            candles@.len() >= 1,
            0 <= i < candles@.len(),
            iv == spec_interval(timeframe@),
            60_000 <= iv <= 2_592_000_000,
            expected_interval_ms == iv,
            ts == candles@.map(|l: int, c: Candle| c.open_time as int),
            ts.len() == candles@.len(),
            forall|l: int, l2: int| 0 <= l < l2 < ts.len() ==> ts[l] < ts[l2],
            forall|l: int| 0 <= l < candles@.len()
                ==> (#[trigger] candles@[l]).open_time == ts[l],
            gaps@.map_values(|g: (i64, i128)| (g.0 as int, g.1 as int))
                == spec_gap_list(ts.take(i as int + 1), iv),
            overlaps@.map_values(|g: (i64, i128)| (g.0 as int, g.1 as int))
                == spec_overlap_list(ts.take(i as int + 1), iv),
        decreases candles@.len() - i,
    {
        let prev = candles[i].open_time;
        let cur = candles[i + 1].open_time;
        proof {
            assert(ts[i as int] == prev && ts[i + 1 as int] == cur);
            lemma_anomaly_snoc(ts.take(i as int + 1), cur as int, iv);
            assert(ts.take(i as int + 2) =~= ts.take(i as int + 1).push(cur as int));
            assert(ts.take(i as int + 1).last() == prev as int);
        }
        let diff: i128 = (cur as i128) - (prev as i128);
        if diff > expected_interval_ms as i128 {
            gaps.push((prev, diff));
            proof {
                assert(gaps@.map_values(|g: (i64, i128)| (g.0 as int, g.1 as int))
                    =~= spec_gap_list(ts.take(i as int + 2), iv));
            }
        } else if diff < expected_interval_ms as i128 {
            overlaps.push((prev, diff));
            proof {
                assert(overlaps@.map_values(|g: (i64, i128)| (g.0 as int, g.1 as int))
                    =~= spec_overlap_list(ts.take(i as int + 2), iv));
            }
        }
        i = i + 1;
    }
    proof {
        assert(ts.take(ts.len() as int) =~= ts);
    }
    Ok(SpacingReport {
        total_count: candles.len(),
        first_timestamp: Some(first),
        last_timestamp: Some(last),
        gaps,
        overlaps,
    })
}

} // verus!
