//! The realtime subsystem's decision core: the subscription set, the
//! in-memory partial-candle cache, and persistence of closed bars.
//!
//! The websocket transport, the stream tasks and the broadcast channel
//! are outside work and run in the unverified shell; it feeds decoded
//! ticks into `apply_tick` and persists what that returns.

use vstd::prelude::*;
use crate::candle::{Candle, CandleKey, ckey, candle_wf};
use crate::store::{Store, StoreError, store_wf};
use crate::timeframe::{spec_interval, spec_interval_seconds, parse_timeframe_seconds, str_eq};

verus! {

/// The currently-forming bar of one (symbol, timeframe): prices in
/// integer units, time in epoch seconds.
#[derive(Clone, Copy, PartialEq, Eq, Structural, Debug)]
pub struct RealtimeCandle {
    pub time: i64,
    pub open: i64,
    pub high: i64,
    pub low: i64,
    pub close: i64,
    pub volume: i64,
    pub is_closed: bool,
}

/// One update published to viewer clients.
#[derive(Clone, Debug)]
pub struct CandleUpdate {
    pub symbol: String,
    pub timeframe: String,
    pub candle: RealtimeCandle,
}

/// First-match lookup in the cache entries.
pub open spec fn spec_lookup(
    entries: Seq<((Seq<char>, Seq<char>), RealtimeCandle)>,
    key: (Seq<char>, Seq<char>),
) -> Option<RealtimeCandle>
    decreases entries.len(),
{
    if entries.len() == 0 {
        None
    } else if entries[0].0 == key {
        Some(entries[0].1)
    } else {
        spec_lookup(entries.drop_first(), key)
    }
}

/// The cache entries with every entry of one key evicted.
pub open spec fn spec_evict(
    entries: Seq<((Seq<char>, Seq<char>), RealtimeCandle)>,
    key: (Seq<char>, Seq<char>),
) -> Seq<((Seq<char>, Seq<char>), RealtimeCandle)>
    decreases entries.len(),
{
    if entries.len() == 0 {
        Seq::empty()
    } else {
        let rest = spec_evict(entries.drop_first(), key);
        if entries[0].0 == key {
            rest
        } else {
            seq![entries[0]] + rest
        }
    }
}

/// The subscription set with one key removed.
pub open spec fn spec_drop_sub(
    subs: Seq<(Seq<char>, Seq<char>)>,
    key: (Seq<char>, Seq<char>),
) -> Seq<(Seq<char>, Seq<char>)>
    decreases subs.len(),
{
    if subs.len() == 0 {
        Seq::empty()
    } else {
        let rest = spec_drop_sub(subs.drop_first(), key);
        if subs[0] == key {
            rest
        } else {
            seq![subs[0]] + rest
        }
    }
}

proof fn lemma_evict_snoc(
    entries: Seq<((Seq<char>, Seq<char>), RealtimeCandle)>,
    x: ((Seq<char>, Seq<char>), RealtimeCandle),
    key: (Seq<char>, Seq<char>),
)
    ensures
        spec_evict(entries.push(x), key) == if x.0 == key {
            spec_evict(entries, key)
        } else {
            spec_evict(entries, key).push(x)
        },
    decreases entries.len(),
{
    if entries.len() == 0 {
        assert(entries.push(x)[0] == x);
        assert(entries.push(x).drop_first() =~= entries);
        if x.0 != key {
            assert(seq![x] + Seq::<((Seq<char>, Seq<char>), RealtimeCandle)>::empty()
                =~= spec_evict(entries, key).push(x));
        }
    } else {
        assert(entries.push(x)[0] == entries[0]);
        assert(entries.push(x).drop_first() =~= entries.drop_first().push(x));
        lemma_evict_snoc(entries.drop_first(), x, key);
        let rest = spec_evict(entries.drop_first(), key);
        if entries[0].0 != key && x.0 != key {
            assert(seq![entries[0]] + rest.push(x) =~= (seq![entries[0]] + rest).push(x));
        }
    }
}

proof fn lemma_drop_sub_snoc(
    subs: Seq<(Seq<char>, Seq<char>)>,
    x: (Seq<char>, Seq<char>),
    key: (Seq<char>, Seq<char>),
)
    ensures
        spec_drop_sub(subs.push(x), key) == if x == key {
            spec_drop_sub(subs, key)
        } else {
            spec_drop_sub(subs, key).push(x)
        },
    decreases subs.len(),
{
    if subs.len() == 0 {
        assert(subs.push(x)[0] == x);
        assert(subs.push(x).drop_first() =~= subs);
        if x != key {
            assert(seq![x] + Seq::<(Seq<char>, Seq<char>)>::empty()
                =~= spec_drop_sub(subs, key).push(x));
        }
    } else {
        assert(subs.push(x)[0] == subs[0]);
        assert(subs.push(x).drop_first() =~= subs.drop_first().push(x));
        lemma_drop_sub_snoc(subs.drop_first(), x, key);
        let rest = spec_drop_sub(subs.drop_first(), key);
        if subs[0] != key && x != key {
            assert(seq![subs[0]] + rest.push(x) =~= (seq![subs[0]] + rest).push(x));
        }
    }
}

/// After evicting a key nothing is cached under it.
pub proof fn lemma_lookup_after_evict(
    entries: Seq<((Seq<char>, Seq<char>), RealtimeCandle)>,
    key: (Seq<char>, Seq<char>),
)
    ensures
        spec_lookup(spec_evict(entries, key), key) is None,
    decreases entries.len(),
{
    if entries.len() > 0 {
        lemma_lookup_after_evict(entries.drop_first(), key);
        if entries[0].0 != key {
            let rest = spec_evict(entries.drop_first(), key);
            assert((seq![entries[0]] + rest).drop_first() =~= rest);
        }
    }
}

/// Looking up a key that never matched so far falls through to a pushed
/// entry.
pub proof fn lemma_lookup_push(
    entries: Seq<((Seq<char>, Seq<char>), RealtimeCandle)>,
    x: ((Seq<char>, Seq<char>), RealtimeCandle),
    key: (Seq<char>, Seq<char>),
)
    ensures
        spec_lookup(entries.push(x), key) == if spec_lookup(entries, key) is Some {
            spec_lookup(entries, key)
        } else if x.0 == key {
            Some(x.1)
        } else {
            None::<RealtimeCandle>
        },
    decreases entries.len(),
{
    if entries.len() == 0 {
        assert(entries.push(x)[0] == x);
        assert(entries.push(x).drop_first() =~= entries);
    } else {
        assert(entries.push(x)[0] == entries[0]);
        assert(entries.push(x).drop_first() =~= entries.drop_first().push(x));
        lemma_lookup_push(entries.drop_first(), x, key);
    }
}

/// The cache reflects the latest tick: evicting a key and caching the
/// fresh bar under it makes exactly that bar visible for the key, and
/// leaves every other key's entry untouched.
pub proof fn lemma_cache_reflects_latest_tick(
    entries: Seq<((Seq<char>, Seq<char>), RealtimeCandle)>,
    key: (Seq<char>, Seq<char>),
    candle: RealtimeCandle,
)
    ensures
        spec_lookup(spec_evict(entries, key).push((key, candle)), key) == Some(candle),
        forall|k2: (Seq<char>, Seq<char>)| k2 != key
            ==> #[trigger] spec_lookup(spec_evict(entries, key).push((key, candle)), k2)
                == spec_lookup(entries, k2),
{
    lemma_lookup_after_evict(entries, key);
    lemma_lookup_push(spec_evict(entries, key), (key, candle), key);
    assert forall|k2: (Seq<char>, Seq<char>)| k2 != key
        implies #[trigger] spec_lookup(spec_evict(entries, key).push((key, candle)), k2)
            == spec_lookup(entries, k2)
    by {
        lemma_lookup_push(spec_evict(entries, key), (key, candle), k2);
        lemma_lookup_evict_other(entries, key, k2);
    }
}

/// Evicting one key leaves every other key's first match unchanged.
pub proof fn lemma_lookup_evict_other(
    entries: Seq<((Seq<char>, Seq<char>), RealtimeCandle)>,
    key: (Seq<char>, Seq<char>),
    other: (Seq<char>, Seq<char>),
)
    requires
        other != key,
    ensures
        spec_lookup(spec_evict(entries, key), other) == spec_lookup(entries, other),
    decreases entries.len(),
{
    if entries.len() > 0 {
        lemma_lookup_evict_other(entries.drop_first(), key, other);
        if entries[0].0 != key {
            let rest = spec_evict(entries.drop_first(), key);
            assert((seq![entries[0]] + rest)[0] == entries[0]);
            assert((seq![entries[0]] + rest).drop_first() =~= rest);
        }
    }
}

/// A new subscription keeps the one-stream-per-key shape of the set.
pub proof fn lemma_subs_stay_distinct(
    subs: Seq<(Seq<char>, Seq<char>)>,
    key: (Seq<char>, Seq<char>),
)
    requires
        forall|i: int, j: int| 0 <= i < j < subs.len() ==> subs[i] != subs[j],
        !subs.contains(key),
    ensures
        forall|i: int, j: int| 0 <= i < j < subs.push(key).len()
            ==> subs.push(key)[i] != subs.push(key)[j],
{
}

/// The subscription manager: which (symbol, timeframe) streams are live,
/// and the latest partial bar seen on each.
pub struct RealtimeManager {
    /// Directory holding the per-symbol store files for persistence.
    pub db_dir: String,
    subs: Vec<(String, String)>,
    cache: Vec<((String, String), RealtimeCandle)>,
}

impl RealtimeManager {
    /// The store directory this manager persists into.
    pub closed spec fn dir(self) -> Seq<char> {
        self.db_dir@
    }

    /// The live subscription keys, in subscription order.
    pub closed spec fn subs_view(self) -> Seq<(Seq<char>, Seq<char>)> {
        self.subs@.map_values(|k: (String, String)| (k.0@, k.1@))
    }

    /// The cache entries, oldest first.
    pub closed spec fn cache_entries(self) -> Seq<((Seq<char>, Seq<char>), RealtimeCandle)> {
        self.cache@.map_values(|e: ((String, String), RealtimeCandle)| ((e.0.0@, e.0.1@), e.1))
    }

    /// The partial bar cached for a key, if any.
    pub open spec fn cached(self, key: (Seq<char>, Seq<char>)) -> Option<RealtimeCandle> {
        spec_lookup(self.cache_entries(), key)
    }

    /// A manager with no subscriptions and an empty cache.
    pub fn new(db_dir: String) -> (r: RealtimeManager)
        ensures
            r.dir() == db_dir@,
            r.subs_view() == Seq::<(Seq<char>, Seq<char>)>::empty(),
            r.cache_entries() == Seq::<((Seq<char>, Seq<char>), RealtimeCandle)>::empty(),
    {
        let r = RealtimeManager { db_dir, subs: Vec::new(), cache: Vec::new() };
        proof {
            assert(r.subs_view() =~= Seq::<(Seq<char>, Seq<char>)>::empty());
            assert(r.cache_entries()
                =~= Seq::<((Seq<char>, Seq<char>), RealtimeCandle)>::empty());
        }
        r
    }

    fn find_sub(&self, symbol: &str, timeframe: &str) -> (r: bool)
        ensures
            r == self.subs_view().contains((symbol@, timeframe@)),
    {
        let ghost sv = self.subs_view();
        let mut i: usize = 0;
        while i < self.subs.len()
            invariant
                0 <= i <= self.subs@.len(),
                sv == self.subs_view(),
                sv.len() == self.subs@.len(),
                forall|l: int| 0 <= l < i ==> #[trigger] sv[l] != (symbol@, timeframe@),
            decreases self.subs@.len() - i,
        {
            let hit_s = str_eq(self.subs[i].0.as_str(), symbol);
            let hit_t = str_eq(self.subs[i].1.as_str(), timeframe);
            if hit_s && hit_t {
                proof {
                    assert(sv[i as int] == (symbol@, timeframe@));
                }
                return true;
            }
            i = i + 1;
        }
        proof {
            if sv.contains((symbol@, timeframe@)) {
                let l = choose|l: int| 0 <= l < sv.len() && sv[l] == (symbol@, timeframe@);
                assert(false);
            }
        }
        false
    }

    /// Starts a stream for the key unless one is already live: duplicate
    /// subscriptions are no-ops. Returns whether the key is new, in which
    /// case the shell must start its stream task.
    pub fn subscribe(&mut self, symbol: String, timeframe: String) -> (r: bool)
        ensures
            r == !old(self).subs_view().contains((symbol@, timeframe@)),
            r ==> final(self).subs_view()
                == old(self).subs_view().push((symbol@, timeframe@)),
            !r ==> final(self).subs_view() == old(self).subs_view(),
            final(self).cache_entries() == old(self).cache_entries(),
            final(self).dir() == old(self).dir(),
    {
        let present = self.find_sub(symbol.as_str(), timeframe.as_str());
        if present {
            return false;
        }
        let ghost sv = self.subs_view();
        self.subs.push((symbol, timeframe));
        proof {
            assert(self.subs_view() =~= sv.push((symbol@, timeframe@)));
        }
        true
    }

    /// Stops the key's stream and evicts its cache entry. Idempotent.
    pub fn unsubscribe(&mut self, symbol: String, timeframe: String)
        ensures
            final(self).subs_view()
                == spec_drop_sub(old(self).subs_view(), (symbol@, timeframe@)),
            final(self).cache_entries()
                == spec_evict(old(self).cache_entries(), (symbol@, timeframe@)),
            final(self).dir() == old(self).dir(),
    {
        let ghost key = (symbol@, timeframe@);
        let ghost sv = self.subs_view();
        let ghost ce = self.cache_entries();
        let mut kept_subs: Vec<(String, String)> = Vec::new();
        let mut i: usize = 0;
        proof {
            assert(sv.take(0) =~= Seq::<(Seq<char>, Seq<char>)>::empty());
        }
        while i < self.subs.len()
            invariant
                0 <= i <= self.subs@.len(),
                sv == self.subs_view(),
                sv.len() == self.subs@.len(),
                key == (symbol@, timeframe@),
                kept_subs@.map_values(|k: (String, String)| (k.0@, k.1@))
                    == spec_drop_sub(sv.take(i as int), key),
            decreases self.subs@.len() - i,
        {
            proof {
                lemma_drop_sub_snoc(sv.take(i as int), sv[i as int], key);
                assert(sv.take(i as int + 1) =~= sv.take(i as int).push(sv[i as int]));
            }
            let hit_s = str_eq(self.subs[i].0.as_str(), symbol.as_str());
            let hit_t = str_eq(self.subs[i].1.as_str(), timeframe.as_str());
            if !(hit_s && hit_t) {
                let e0 = self.subs[i].0.clone();
                let e1 = self.subs[i].1.clone();
                kept_subs.push((e0, e1));
                proof {
                    assert(kept_subs@.map_values(|k: (String, String)| (k.0@, k.1@))
                        =~= spec_drop_sub(sv.take(i as int), key).push(sv[i as int]));
                }
            }
            i = i + 1;
        }
        proof {
            assert(sv.take(sv.len() as int) =~= sv);
        }
        self.subs = kept_subs;
        let mut kept_cache: Vec<((String, String), RealtimeCandle)> = Vec::new();
        let mut l: usize = 0;
        proof {
            assert(ce.take(0) =~= Seq::<((Seq<char>, Seq<char>), RealtimeCandle)>::empty());
        }
        while l < self.cache.len()
            invariant
                0 <= l <= self.cache@.len(),
                ce == self.cache_entries(),
                ce.len() == self.cache@.len(),
                key == (symbol@, timeframe@),
                kept_cache@.map_values(|e: ((String, String), RealtimeCandle)|
                    ((e.0.0@, e.0.1@), e.1)) == spec_evict(ce.take(l as int), key),
            decreases self.cache@.len() - l,
        {
            proof {
                lemma_evict_snoc(ce.take(l as int), ce[l as int], key);
                assert(ce.take(l as int + 1) =~= ce.take(l as int).push(ce[l as int]));
            }
            let hit_s = str_eq(self.cache[l].0.0.as_str(), symbol.as_str());
            let hit_t = str_eq(self.cache[l].0.1.as_str(), timeframe.as_str());
            if !(hit_s && hit_t) {
                let e0 = self.cache[l].0.0.clone();
                let e1 = self.cache[l].0.1.clone();
                let cv = self.cache[l].1;
                kept_cache.push(((e0, e1), cv));
                proof {
                    assert(kept_cache@.map_values(|e: ((String, String), RealtimeCandle)|
                        ((e.0.0@, e.0.1@), e.1))
                        =~= spec_evict(ce.take(l as int), key).push(ce[l as int]));
                }
            }
            l = l + 1;
        }
        proof {
            assert(ce.take(ce.len() as int) =~= ce);
        }
        self.cache = kept_cache;
    }

    /// Applies one decoded exchange tick: the cache entry for the key is
    /// replaced by the fresh bar, and the bar must be persisted exactly
    /// when the tick closed it.
    pub fn apply_tick(&mut self, symbol: String, timeframe: String, candle: RealtimeCandle)
        -> (persist: bool)
        ensures
            final(self).cache_entries() == spec_evict(old(self).cache_entries(),
                (symbol@, timeframe@)).push(((symbol@, timeframe@), candle)),
            final(self).cached((symbol@, timeframe@)) == Some(candle),
            forall|k2: (Seq<char>, Seq<char>)| k2 != (symbol@, timeframe@)
                ==> #[trigger] final(self).cached(k2) == old(self).cached(k2),
            final(self).subs_view() == old(self).subs_view(),
            final(self).dir() == old(self).dir(),
            persist == candle.is_closed,
    {
        let ghost key = (symbol@, timeframe@);
        let ghost ce = self.cache_entries();
        let mut kept_cache: Vec<((String, String), RealtimeCandle)> = Vec::new();
        let mut l: usize = 0;
        proof {
            assert(ce.take(0) =~= Seq::<((Seq<char>, Seq<char>), RealtimeCandle)>::empty());
        }
        while l < self.cache.len()
            invariant
                0 <= l <= self.cache@.len(),
                ce == self.cache_entries(),
                ce.len() == self.cache@.len(),
                key == (symbol@, timeframe@),
                kept_cache@.map_values(|e: ((String, String), RealtimeCandle)|
                    ((e.0.0@, e.0.1@), e.1)) == spec_evict(ce.take(l as int), key),
            decreases self.cache@.len() - l,
        {
            proof {
                lemma_evict_snoc(ce.take(l as int), ce[l as int], key);
                assert(ce.take(l as int + 1) =~= ce.take(l as int).push(ce[l as int]));
            }
            let hit_s = str_eq(self.cache[l].0.0.as_str(), symbol.as_str());
            let hit_t = str_eq(self.cache[l].0.1.as_str(), timeframe.as_str());
            if !(hit_s && hit_t) {
                let e0 = self.cache[l].0.0.clone();
                let e1 = self.cache[l].0.1.clone();
                let cv = self.cache[l].1;
                kept_cache.push(((e0, e1), cv));
                proof {
                    assert(kept_cache@.map_values(|e: ((String, String), RealtimeCandle)|
                        ((e.0.0@, e.0.1@), e.1))
                        =~= spec_evict(ce.take(l as int), key).push(ce[l as int]));
                }
            }
            l = l + 1;
        }
        proof {
            assert(ce.take(ce.len() as int) =~= ce);
        }
        kept_cache.push(((symbol, timeframe), candle));
        proof {
            assert(kept_cache@.map_values(|e: ((String, String), RealtimeCandle)|
                ((e.0.0@, e.0.1@), e.1)) =~= spec_evict(ce, key).push((key, candle)));
        }
        self.cache = kept_cache;
        proof {
            lemma_cache_reflects_latest_tick(ce, key, candle);
        }
        candle.is_closed
    }

    /// A read-only snapshot of the cache for one symbol and a list of
    /// timeframes, in the order asked.
    pub fn get_candles(&self, symbol: &str, timeframes: &Vec<String>)
        -> (r: Vec<(String, Option<RealtimeCandle>)>)
        ensures
            r@.len() == timeframes@.len(),
            forall|i: int| 0 <= i < r@.len() ==> (#[trigger] r@[i]).0@ == timeframes@[i]@
                && r@[i].1 == self.cached((symbol@, timeframes@[i]@)),
    {
        let mut out: Vec<(String, Option<RealtimeCandle>)> = Vec::new();
        let mut i: usize = 0;
        while i < timeframes.len()
            invariant
                0 <= i <= timeframes@.len(),
                out@.len() == i,
                forall|l: int| 0 <= l < i ==> (#[trigger] out@[l]).0@ == timeframes@[l]@
                    && out@[l].1 == self.cached((symbol@, timeframes@[l]@)),
            decreases timeframes@.len() - i,
        {
            let tf = &timeframes[i];
            let hit = self.lookup_cache(symbol, tf.as_str());
            let name = tf.clone();
            out.push((name, hit));
            i = i + 1;
        }
        out
    }

    fn lookup_cache(&self, symbol: &str, timeframe: &str) -> (r: Option<RealtimeCandle>)
        ensures
            r == self.cached((symbol@, timeframe@)),
    {
        let ghost ce = self.cache_entries();
        let ghost key = (symbol@, timeframe@);
        let mut l: usize = 0;
        proof {
            assert(ce.skip(0) =~= ce);
        }
        while l < self.cache.len()
            invariant
                0 <= l <= self.cache@.len(),
                ce == self.cache_entries(),
                ce.len() == self.cache@.len(),
                key == (symbol@, timeframe@),
                spec_lookup(ce.skip(l as int), key) == spec_lookup(ce, key),
            decreases self.cache@.len() - l,
        {
            proof {
                assert(ce.skip(l as int)[0] == ce[l as int]);
                assert(ce.skip(l as int).drop_first() =~= ce.skip(l as int + 1));
            }
            let hit_s = str_eq(self.cache[l].0.0.as_str(), symbol);
            let hit_t = str_eq(self.cache[l].0.1.as_str(), timeframe);
            if hit_s && hit_t {
                let found = self.cache[l].1;
                proof {
                    assert(ce[l as int].0 == key);
                }
                return Some(found);
            }
            l = l + 1;
        }
        proof {
            assert(ce.skip(ce.len() as int) =~= Seq::<((Seq<char>, Seq<char>),
                RealtimeCandle)>::empty());
        }
        None
    }

    /// Interval in whole seconds of a timeframe tag.
    pub fn timeframe_to_seconds(tf: &str) -> (r: i64)
        ensures
            r == spec_interval_seconds(tf@),
    {
        parse_timeframe_seconds(tf)
    }

    /// The exchange's stream name uses the same interval tags.
    pub fn to_binance_interval(tf: &str) -> (r: String)
        ensures
            r@ == tf@,
    {
        tf.to_owned()
    }
}

/// The bar a closed tick persists: quote and taker columns are zero (the
/// stream does not carry them), trades zero, not interpolated, timed on
/// the tick's open with a close one interval later.
pub open spec fn spec_closed_tick_candle(rc: RealtimeCandle, interval_ms: int) -> Candle {
    Candle {
        open_time: (rc.time * 1000) as i64,
        open: rc.open,
        high: rc.high,
        low: rc.low,
        close: rc.close,
        volume: rc.volume,
        close_time: (rc.time * 1000 + interval_ms - 1) as i64,
        quote_asset_volume: 0,
        number_of_trades: 0,
        taker_buy_base_asset_volume: 0,
        taker_buy_quote_asset_volume: 0,
        interpolated: false,
    }
}

/// Whether a tick carries values a well-formed stored bar can be built
/// from: an open time on the interval grid and ordered prices.
pub open spec fn spec_tick_sane(rc: RealtimeCandle, interval_ms: int) -> bool {
    &&& (rc.time * 1000) % interval_ms == 0
    &&& rc.low <= rc.open <= rc.high
    &&& rc.low <= rc.close <= rc.high
    &&& rc.volume >= 0
}

impl RealtimeManager {
    /// Persists one closed bar with upsert-ignore: the bar lands in the
    /// symbol's store exactly once, never interpolated; a second closed
    /// tick with the same open time changes nothing.
    pub fn save_completed_candle(
        store: &mut Store,
        symbol: &str,
        timeframe: &str,
        candle: &RealtimeCandle,
    ) -> (r: Result<bool, StoreError>)
        requires
            0 <= candle.time,
            candle.time * 1000 + spec_interval(timeframe@) <= 0x7fff_ffff_ffff_ffff,
        ensures
            final(store).cursors() == old(store).cursors(),
            r matches Ok(fresh) ==> ({
                let c = spec_closed_tick_candle(*candle, spec_interval(timeframe@));
                let k = ckey("binance"@, symbol@, timeframe@, c.open_time as int);
                if fresh {
                    &&& !old(store).candles().contains_key(k)
                    &&& final(store).candles() == old(store).candles().insert(k, c)
                } else {
                    &&& old(store).candles().contains_key(k)
                    &&& final(store).candles() == old(store).candles()
                }
            }),
            r is Err ==> final(store).candles() == old(store).candles(),
            (store_wf(old(store).candles())
                && spec_tick_sane(*candle, spec_interval(timeframe@)))
                ==> store_wf(final(store).candles()),
    {
        let interval_ms = crate::timeframe::timeframe_to_interval(timeframe);
        proof {
            crate::timeframe::lemma_interval_bounds(timeframe@);
        }
        let open_time = candle.time * 1000;
        let row = Candle {
            open_time,
            open: candle.open,
            high: candle.high,
            low: candle.low,
            close: candle.close,
            volume: candle.volume,
            close_time: open_time + interval_ms - 1,
            quote_asset_volume: 0,
            number_of_trades: 0,
            taker_buy_base_asset_volume: 0,
            taker_buy_quote_asset_volume: 0,
            interpolated: false,
        };
        let ghost prev = *store;
        let res = store.insert_candle("binance", symbol, timeframe, &row);
        proof {
            prev.lemma_view();
            store.lemma_view();
            if store_wf(prev.candles()) && spec_tick_sane(*candle, spec_interval(timeframe@)) {
                if res matches Ok(fresh) && fresh {
                    assert forall|k: CandleKey| #[trigger] store.candles().contains_key(k)
                        implies candle_wf(store.candles()[k], spec_interval(k.timeframe))
                            && store.candles()[k].open_time == k.open_time
                    by {
                        if k != ckey("binance"@, symbol@, timeframe@, row.open_time as int) {
                            assert(prev.candles().contains_key(k));
                        }
                    }
                }
            }
        }
        res
    }
}

} // verus!
