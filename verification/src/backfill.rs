//! The backfill driver's decision core: per-symbol options, the dynamic
//! set of still-active timeframes, and the termination argument.
//!
//! The driver's outer loop performs outside work (exchange calls, store
//! opening, rate-limit pauses) and so runs in the unverified shell; it
//! feeds each round's per-timeframe outcomes back into `DriverState`.

use vstd::prelude::*;
use crate::candle::{Candle, CandleKey};
use crate::store::{batch_key, count_new};
use crate::timeframe::str_eq;
use vstd::set_lib::lemma_len_subset;

verus! {

/// Options for one symbol's backfill run.
#[derive(Clone, Debug)]
pub struct BackfillOptions {
    /// The trading pair to fetch (for example BTCUSDT).
    pub symbol: String,
    /// Fetch no candles older than this epoch-millisecond floor.
    pub start_timestamp_ms: Option<i64>,
    /// Directory holding the per-symbol store files.
    pub db_dir: String,
    /// Timeframes to fetch; all supported ones when absent.
    pub timeframes: Option<Vec<String>>,
}

impl BackfillOptions {
    /// Options with the default timeframe set and no floor.
    pub fn new(symbol: String, db_dir: String) -> (r: BackfillOptions)
        ensures
            r.symbol == symbol,
            r.db_dir == db_dir,
            r.start_timestamp_ms is None,
            r.timeframes is None,
    {
        BackfillOptions { symbol, start_timestamp_ms: None, db_dir, timeframes: None }
    }

    /// Sets the backfill floor as an epoch-millisecond timestamp.
    pub fn with_start_timestamp(self, timestamp_ms: i64) -> (r: BackfillOptions)
        ensures
            r.symbol == self.symbol,
            r.db_dir == self.db_dir,
            r.timeframes == self.timeframes,
            r.start_timestamp_ms == Some(timestamp_ms),
    {
        BackfillOptions { start_timestamp_ms: Some(timestamp_ms), ..self }
    }

    /// Sets the backfill floor from a "YYYY-MM-DD" date, midnight UTC.
    pub fn with_start_date(self, date_str: &str)
        -> (r: Result<BackfillOptions, crate::utils::DateError>)
        ensures
            r matches Ok(o) ==> o.symbol == self.symbol && o.db_dir == self.db_dir
                && o.timeframes == self.timeframes
                && (o.start_timestamp_ms matches Some(t)
                    && t == crate::utils::parsed_date_ms(date_str@)),
    {
        match crate::utils::parse_start_date(date_str) {
            Ok(t) => Ok(BackfillOptions { start_timestamp_ms: Some(t), ..self }),
            Err(e) => Err(e),
        }
    }

    /// Restricts the run to the given timeframes.
    pub fn with_timeframes(self, timeframes: Vec<String>) -> (r: BackfillOptions)
        ensures
            r.symbol == self.symbol,
            r.db_dir == self.db_dir,
            r.start_timestamp_ms == self.start_timestamp_ms,
            r.timeframes == Some(timeframes),
    {
        BackfillOptions { timeframes: Some(timeframes), ..self }
    }
}

/// The default timeframe tags a backfill run works through.
pub open spec fn spec_default_timeframes() -> Seq<Seq<char>> {
    seq!["3m"@, "5m"@, "15m"@, "30m"@, "1h"@, "2h"@, "4h"@, "6h"@, "8h"@, "12h"@, "1d"@, "3d"@]
}

/// The default timeframe set: every supported tag from three minutes to
/// three days.
pub fn default_timeframes() -> (r: Vec<String>)
    ensures
        r@.map_values(|t: String| t@) == spec_default_timeframes(),
{
    let mut v: Vec<String> = Vec::new();
    v.push("3m".to_owned());
    v.push("5m".to_owned());
    v.push("15m".to_owned());
    v.push("30m".to_owned());
    v.push("1h".to_owned());
    v.push("2h".to_owned());
    v.push("4h".to_owned());
    v.push("6h".to_owned());
    v.push("8h".to_owned());
    v.push("12h".to_owned());
    v.push("1d".to_owned());
    v.push("3d".to_owned());
    proof {
        assert(v@.map_values(|t: String| t@) =~= spec_default_timeframes());
    }
    v
}

/// The outcome one round reports for one timeframe: the fetch result, or
/// nothing when the work unit failed and will be retried.
pub type RoundOutcome = (String, Option<(i64, bool)>);

/// Whether this round's outcomes retire a timeframe: its unit finished
/// with exhausted set, or inserted nothing new.
pub open spec fn spec_retired(results: Seq<(Seq<char>, Option<(i64, bool)>)>, tf: Seq<char>) -> bool {
    exists|i: int| 0 <= i < results.len() && (#[trigger] results[i]).0 == tf
        && match results[i].1 {
            Some(rr) => rr.1 || rr.0 == 0,
            None => false,
        }
}

/// The active timeframes that survive a round.
pub open spec fn spec_retain_active(
    active: Seq<Seq<char>>,
    results: Seq<(Seq<char>, Option<(i64, bool)>)>,
) -> Seq<Seq<char>>
    decreases active.len(),
{
    if active.len() == 0 {
        Seq::empty()
    } else {
        let rest = spec_retain_active(active.drop_first(), results);
        if spec_retired(results, active[0]) {
            rest
        } else {
            seq![active[0]] + rest
        }
    }
}

proof fn lemma_retain_active_snoc(
    active: Seq<Seq<char>>,
    results: Seq<(Seq<char>, Option<(i64, bool)>)>,
    x: Seq<char>,
)
    ensures
        spec_retain_active(active.push(x), results) == if spec_retired(results, x) {
            spec_retain_active(active, results)
        } else {
            spec_retain_active(active, results).push(x)
        },
    decreases active.len(),
{
    if active.len() == 0 {
        assert(active.push(x)[0] == x);
        assert(active.push(x).drop_first() =~= active);
        if !spec_retired(results, x) {
            assert(seq![x] + Seq::<Seq<char>>::empty()
                =~= spec_retain_active(active, results).push(x));
        }
    } else {
        assert(active.push(x)[0] == active[0]);
        assert(active.push(x).drop_first() =~= active.drop_first().push(x));
        lemma_retain_active_snoc(active.drop_first(), results, x);
        let rest = spec_retain_active(active.drop_first(), results);
        if !spec_retired(results, active[0]) && !spec_retired(results, x) {
            assert(seq![active[0]] + rest.push(x) =~= (seq![active[0]] + rest).push(x));
        }
    }
}

/// Retiring timeframes never grows the active set.
pub proof fn lemma_retain_active_shrinks(
    active: Seq<Seq<char>>,
    results: Seq<(Seq<char>, Option<(i64, bool)>)>,
)
    ensures
        spec_retain_active(active, results).len() <= active.len(),
    decreases active.len(),
{
    if active.len() > 0 {
        lemma_retain_active_shrinks(active.drop_first(), results);
    }
}

/// The per-symbol driver state: which timeframes still have work.
pub struct DriverState {
    pub active: Vec<String>,
}

impl DriverState {
    /// The views of the still-active timeframe tags.
    pub open spec fn active_view(self) -> Seq<Seq<char>> {
        self.active@.map_values(|t: String| t@)
    }

    /// A driver over the given timeframes.
    pub fn new(timeframes: Vec<String>) -> (r: DriverState)
        ensures
            r.active == timeframes,
    {
        DriverState { active: timeframes }
    }

    /// Whether every timeframe is exhausted, ending the driver loop.
    pub fn is_done(&self) -> (r: bool)
        ensures
            r == (self.active_view().len() == 0),
    {
        self.active.len() == 0
    }

    /// Applies one round of per-timeframe outcomes: a timeframe whose work
    /// unit reported exhausted, or inserted nothing, leaves the active
    /// set; one whose unit failed stays and is retried next round.
    pub fn apply_results(&mut self, results: &Vec<RoundOutcome>)
        ensures
            final(self).active_view() == spec_retain_active(
                old(self).active_view(),
                results@.map_values(|o: RoundOutcome| (o.0@, o.1)),
            ),
    {
        let ghost rs = results@.map_values(|o: RoundOutcome| (o.0@, o.1));
        let ghost a0 = self.active_view();
        let mut kept: Vec<String> = Vec::new();
        let mut i: usize = 0;
        proof {
            assert(a0.take(0) =~= Seq::<Seq<char>>::empty());
        }
        while i < self.active.len()
            invariant
                0 <= i <= self.active@.len(),
                a0 == self.active@.map_values(|t: String| t@),
                rs == results@.map_values(|o: RoundOutcome| (o.0@, o.1)),
                a0.len() == self.active@.len(),
                kept@.map_values(|t: String| t@) == spec_retain_active(a0.take(i as int), rs),
            decreases self.active@.len() - i,
        {
            let tf = &self.active[i];
            let retired = Self::round_retired(results, tf.as_str());
            proof {
                lemma_retain_active_snoc(a0.take(i as int), rs, tf@);
                assert(a0.take(i as int + 1) =~= a0.take(i as int).push(tf@));
            }
            if !retired {
                let cloned = tf.clone();
                kept.push(cloned);
                proof {
                    assert(kept@.map_values(|t: String| t@)
                        =~= spec_retain_active(a0.take(i as int), rs).push(tf@));
                }
            }
            i = i + 1;
        }
        proof {
            assert(a0.take(a0.len() as int) =~= a0);
        }
        self.active = kept;
    }

    /// Whether this round's outcomes retire the given timeframe.
    fn round_retired(results: &Vec<RoundOutcome>, tf: &str) -> (r: bool)
        ensures
            r == spec_retired(results@.map_values(|o: RoundOutcome| (o.0@, o.1)), tf@),
    {
        let ghost rs = results@.map_values(|o: RoundOutcome| (o.0@, o.1));
        let mut i: usize = 0;
        while i < results.len()
            invariant
                0 <= i <= results@.len(),
                rs == results@.map_values(|o: RoundOutcome| (o.0@, o.1)),
                rs.len() == results@.len(),
                forall|l: int| 0 <= l < i ==> !((#[trigger] rs[l]).0 == tf@
                    && match rs[l].1 {
                        Some(rr) => rr.1 || rr.0 == 0,
                        None => false,
                    }),
            decreases results@.len() - i,
        {
            let same = str_eq(results[i].0.as_str(), tf);
            if same {
                match results[i].1 {
                    Some((inserted, exhausted)) => {
                        if exhausted || inserted == 0 {
                            proof {
                                assert(rs[i as int].0 == tf@);
                            }
                            return true;
                        }
                    }
                    None => {}
                }
            }
            i = i + 1;
        }
        false
    }
}

/// A round that counted new rows stored a batch key that was absent.
pub proof fn lemma_count_new_positive(
    m: Map<CandleKey, Candle>,
    provider: Seq<char>,
    symbol: Seq<char>,
    timeframe: Seq<char>,
    rows: Seq<Candle>,
)
    requires
        count_new(m, provider, symbol, timeframe, rows) > 0,
    ensures
        exists|i: int| 0 <= i < rows.len()
            && !m.contains_key(#[trigger] batch_key(provider, symbol, timeframe, rows[i])),
    decreases rows.len(),
{
    let k0 = batch_key(provider, symbol, timeframe, rows[0]);
    if m.contains_key(k0) {
        lemma_count_new_positive(m, provider, symbol, timeframe, rows.drop_first());
        let i = choose|i: int| 0 <= i < rows.drop_first().len()
            && !m.contains_key(#[trigger] batch_key(provider, symbol, timeframe,
                rows.drop_first()[i]));
        assert(rows.drop_first()[i] == rows[i + 1]);
        assert(!m.contains_key(batch_key(provider, symbol, timeframe, rows[i + 1])));
    } else {
        assert(!m.contains_key(batch_key(provider, symbol, timeframe, rows[0])));
    }
}

/// The backfill driver terminates on any finite exchange history: every
/// round that stores a history key not stored before strictly shrinks the
/// set of history keys still missing, so only finitely many such rounds
/// can happen; and a round that stores nothing new reports its timeframe
/// exhausted and retires it.
pub proof fn lemma_driver_measure_decreases(
    history: Set<CandleKey>,
    stored0: Set<CandleKey>,
    stored1: Set<CandleKey>,
    k: CandleKey,
)
    requires
        history.finite(),
        forall|k2: CandleKey| stored0.contains(k2) ==> stored1.contains(k2),
        history.contains(k),
        !stored0.contains(k),
        stored1.contains(k),
    ensures
        history.difference(stored1).len() < history.difference(stored0).len(),
{
    let d0 = history.difference(stored0);
    let d1 = history.difference(stored1);
    lemma_len_subset(d0, history);
    lemma_len_subset(d1, d0.remove(k));
    assert(d0.remove(k).len() == d0.len() - 1);
}

/// Whether the bounded on-demand gap-fill loop runs another batch: at
/// most ten iterations, stopping at the first empty or exhausted batch.
pub fn fetch_gaps_continue(iterations: i32, inserted: i64, exhausted: bool) -> (r: bool)
    ensures
        r == (iterations < 10 && inserted != 0 && !exhausted),
{
    iterations < 10 && inserted != 0 && !exhausted
}

} // verus!
