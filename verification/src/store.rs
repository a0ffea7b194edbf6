//! The per-symbol persistent store: candle rows with a unique
//! (provider, symbol, timeframe, open_time) key and the per-series
//! progress-cursor rows.
//!
//! The store is an SQLite file driven through rusqlite. The trusted
//! wrappers in this module give each call a contract over two abstract
//! maps: `store_candles`, the candle rows visible to a handle, and
//! `store_cursors`, its progress-cursor rows. Everything above those
//! wrappers is verified.

use vstd::prelude::*;
use rusqlite::OptionalExtension;
use crate::candle::{Candle, CandleKey, SeriesId, ckey, series_id, candle_wf};
use crate::timeframe::spec_interval;
use vstd::arithmetic::div_mod::lemma_small_mod;

verus! {

/// Failure of the underlying store engine (I/O, lock contention, or a
/// malformed database file). Retryable; never a panic.
#[derive(Clone, Copy, PartialEq, Eq, Structural, Debug)]
pub enum StoreError {
    Backend,
}

/// One progress-cursor row: the oldest open_time ever fetched for a
/// series, whether the series was marked complete, and the wall-clock
/// millisecond timestamp of the last write.
#[derive(Clone, Copy, Debug)]
pub struct CursorRow {
    pub oldest_candle_time: Option<i64>,
    pub is_complete: bool,
    pub last_updated: i64,
}

#[verifier::external_type_specification]
#[verifier::external_body]
pub struct ExConnection(rusqlite::Connection);

#[verifier::external_type_specification]
#[verifier::external_body]
pub struct ExSqlError(rusqlite::Error);

/// Maps any backend failure onto the library's retryable store error.
pub(crate) fn err_backend(e: rusqlite::Error) -> (r: StoreError)
    ensures
        r == StoreError::Backend,
{
    let _ = e;
    StoreError::Backend
}

/// The raw column tuples a candle row scan returns, in column order:
/// (open_time, open, high, low, close, volume) and (close_time,
/// quote_asset_volume, number_of_trades, taker buys base, taker buys
/// quote, interpolated).
pub(crate) type RawRow = ((i64, i64, i64, i64, i64, i64), (i64, i64, i64, i64, i64, bool));

/// The bar a raw column tuple carries.
pub open spec fn raw_candle(t: RawRow) -> Candle {
    Candle {
        open_time: t.0.0,
        open: t.0.1,
        high: t.0.2,
        low: t.0.3,
        close: t.0.4,
        volume: t.0.5,
        close_time: t.1.0,
        quote_asset_volume: t.1.1,
        number_of_trades: t.1.2,
        taker_buy_base_asset_volume: t.1.3,
        taker_buy_quote_asset_volume: t.1.4,
        interpolated: t.1.5,
    }
}

/// Every bar of the series stored inside [lo, hi] appears in the scan
/// result under its open time.
pub open spec fn scan_complete(
    m: Map<CandleKey, Candle>,
    provider: Seq<char>,
    symbol: Seq<char>,
    timeframe: Seq<char>,
    lo: int,
    hi: int,
    v: Seq<Candle>,
) -> bool {
    forall|t: int| lo <= t <= hi
        && m.contains_key(#[trigger] ckey(provider, symbol, timeframe, t))
        ==> exists|i: int| 0 <= i < v.len() && v[i].open_time == t
}

/// The candle rows visible to a store handle, keyed by their identity.
pub uninterp spec fn store_candles(conn: rusqlite::Connection) -> Map<CandleKey, Candle>;

/// The progress-cursor rows visible to a store handle.
pub uninterp spec fn store_cursors(conn: rusqlite::Connection) -> Map<SeriesId, CursorRow>;

/// A handle on one per-symbol store file. Constructed only by `open`,
/// which creates the tables and the unique index the wrapper contracts
/// rely on.
pub struct Store {
    pub(crate) conn: rusqlite::Connection,
}

impl Store {
    /// The candle rows of this store.
    pub closed spec fn candles(self) -> Map<CandleKey, Candle> {
        store_candles(self.conn)
    }

    /// The progress-cursor rows of this store.
    pub closed spec fn cursors(self) -> Map<SeriesId, CursorRow> {
        store_cursors(self.conn)
    }

    /// Connects the two public views of a store handle with the abstract
    /// maps the trusted wrappers speak of, for the crate's other modules.
    pub(crate) proof fn lemma_view(self)
        ensures
            self.candles() == store_candles(self.conn),
            self.cursors() == store_cursors(self.conn),
    {
    }

    /// Whether some bar of a series exists reads the same through the
    /// public view as through the abstract map, for the crate's modules.
    pub(crate) proof fn lemma_nonempty_view(
        self,
        provider: Seq<char>,
        symbol: Seq<char>,
        timeframe: Seq<char>,
    )
        ensures
            (exists|t: int| store_candles(self.conn).contains_key(
                #[trigger] ckey(provider, symbol, timeframe, t)))
                == (exists|t: int| self.candles().contains_key(
                    #[trigger] ckey(provider, symbol, timeframe, t))),
    {
    }

    /// Opens (creating them if absent) the store file, its candle table
    /// with the unique (provider, symbol, timeframe, open_time) index,
    /// and its progress-cursor table. Idempotent.
    ///
    /// Relies on rusqlite `Connection::open` and `Connection::execute_batch`
    /// running the CREATE statements below.
    #[verifier::external_body]
    pub fn open(path: &str) -> (r: Result<Store, StoreError>) {
        let conn = rusqlite::Connection::open(path).map_err(err_backend)?;
        conn.execute_batch(
            "CREATE TABLE IF NOT EXISTS candlesticks (
                provider TEXT NOT NULL, symbol TEXT NOT NULL, timeframe TEXT NOT NULL,
                open_time INTEGER NOT NULL, open INTEGER NOT NULL, high INTEGER NOT NULL,
                low INTEGER NOT NULL, close INTEGER NOT NULL, volume INTEGER NOT NULL,
                close_time INTEGER NOT NULL, quote_asset_volume INTEGER NOT NULL,
                number_of_trades INTEGER NOT NULL, taker_buy_base_asset_volume INTEGER NOT NULL,
                taker_buy_quote_asset_volume INTEGER NOT NULL,
                interpolated INTEGER NOT NULL DEFAULT 0,
                UNIQUE(provider, symbol, timeframe, open_time));
            CREATE INDEX IF NOT EXISTS idx_candles_query
                ON candlesticks (provider, symbol, timeframe, open_time);
            CREATE TABLE IF NOT EXISTS timeframe_status (
                provider TEXT NOT NULL, symbol TEXT NOT NULL, timeframe TEXT NOT NULL,
                oldest_candle_time INTEGER, is_complete INTEGER NOT NULL DEFAULT 0,
                last_updated INTEGER NOT NULL,
                PRIMARY KEY (provider, symbol, timeframe));",
        ).map_err(err_backend)?;
        Ok(Store { conn })
    }

    /// Inserts one bar with INSERT OR IGNORE: a duplicate of an existing
    /// (provider, symbol, timeframe, open_time) key changes nothing and
    /// reports `false`; a new key is stored and reports `true`.
    ///
    /// Relies on rusqlite `Connection::execute` returning the number of
    /// rows changed, and on the table's unique index.
    #[verifier::external_body]
    pub(crate) fn insert_candle(
        &mut self,
        provider: &str,
        symbol: &str,
        timeframe: &str,
        c: &Candle,
    ) -> (r: Result<bool, StoreError>)
        ensures
            store_cursors(final(self).conn) == store_cursors(old(self).conn),
            r matches Ok(fresh) ==> (if fresh {
                &&& !store_candles(old(self).conn).contains_key(
                    ckey(provider@, symbol@, timeframe@, c.open_time as int))
                &&& store_candles(final(self).conn) == store_candles(old(self).conn).insert(
                    ckey(provider@, symbol@, timeframe@, c.open_time as int), *c)
            } else {
                &&& store_candles(old(self).conn).contains_key(
                    ckey(provider@, symbol@, timeframe@, c.open_time as int))
                &&& store_candles(final(self).conn) == store_candles(old(self).conn)
            }),
            r is Err ==> store_candles(final(self).conn) == store_candles(old(self).conn),
    {
        let ps: [&dyn rusqlite::ToSql; 15] = [
            &provider, &symbol, &timeframe, &c.open_time, &c.open, &c.high, &c.low,
            &c.close, &c.volume, &c.close_time, &c.quote_asset_volume,
            &c.number_of_trades, &c.taker_buy_base_asset_volume,
            &c.taker_buy_quote_asset_volume, &c.interpolated,
        ];
        let n = self.conn.execute(
            "INSERT OR IGNORE INTO candlesticks (provider, symbol, timeframe, open_time, open,
                high, low, close, volume, close_time, quote_asset_volume, number_of_trades,
                taker_buy_base_asset_volume, taker_buy_quote_asset_volume, interpolated)
             VALUES (?1,?2,?3,?4,?5,?6,?7,?8,?9,?10,?11,?12,?13,?14,?15)",
            ps.as_slice(),
        ).map_err(err_backend)?;
        Ok(n > 0)
    }

    /// All bars of one series with open_time in [start_time, end_time],
    /// as raw column tuples in strictly ascending open_time order, exactly
    /// one per stored key in that window.
    ///
    /// Relies on rusqlite `Connection::prepare` and `Statement::query_map`
    /// running the SELECT with ORDER BY open_time ASC.
    #[verifier::external_body]
    fn query_range_raw(
        &self,
        provider: &str,
        symbol: &str,
        timeframe: &str,
        start_time: i64,
        end_time: i64,
    ) -> (r: Result<Vec<RawRow>, StoreError>)
        ensures
            r matches Ok(v) ==> {
                &&& forall|i: int, j: int| 0 <= i < j < v@.len() ==> v@[i].0.0 < v@[j].0.0
                &&& forall|i: int| 0 <= i < v@.len() ==> {
                    &&& start_time <= (#[trigger] v@[i]).0.0 <= end_time
                    &&& store_candles(self.conn).contains_key(
                        ckey(provider@, symbol@, timeframe@, v@[i].0.0 as int))
                    &&& store_candles(self.conn)[
                        ckey(provider@, symbol@, timeframe@, v@[i].0.0 as int)]
                        == raw_candle(v@[i])
                }
                &&& forall|t: int| start_time <= t <= end_time
                    && #[trigger] store_candles(self.conn).contains_key(
                        ckey(provider@, symbol@, timeframe@, t))
                    ==> exists|i: int| 0 <= i < v@.len() && v@[i].0.0 == t
            },
    {
        let mut stmt = self.conn.prepare(
            "SELECT open_time, open, high, low, close, volume, close_time, quote_asset_volume,
                number_of_trades, taker_buy_base_asset_volume, taker_buy_quote_asset_volume,
                interpolated
             FROM candlesticks
             WHERE provider = ?1 AND symbol = ?2 AND timeframe = ?3
                AND open_time >= ?4 AND open_time <= ?5
             ORDER BY open_time ASC",
        ).map_err(err_backend)?;
        let ps: [&dyn rusqlite::ToSql; 5] = [&provider, &symbol, &timeframe, &start_time, &end_time];
        let rows = stmt.query_map(ps.as_slice(), |r| Ok((
            (r.get(0)?, r.get(1)?, r.get(2)?, r.get(3)?, r.get(4)?, r.get(5)?),
            (r.get(6)?, r.get(7)?, r.get(8)?, r.get(9)?, r.get(10)?, r.get(11)?),
        ))).map_err(err_backend)?;
        rows.collect::<rusqlite::Result<Vec<RawRow>>>().map_err(err_backend)
    }

    /// All bars of one series with open_time in [start_time, end_time],
    /// in strictly ascending open_time order, exactly one per stored key
    /// in that window.
    #[verifier::spinoff_prover]
    #[verifier::rlimit(100)]
    pub(crate) fn query_range(
        &self,
        provider: &str,
        symbol: &str,
        timeframe: &str,
        start_time: i64,
        end_time: i64,
    ) -> (r: Result<Vec<Candle>, StoreError>)
        ensures
            r matches Ok(v) ==> forall|i: int, j: int| 0 <= i < j < v@.len()
                ==> v@[i].open_time < v@[j].open_time,
            r matches Ok(v) ==> forall|i: int| 0 <= i < v@.len() ==> {
                &&& start_time <= (#[trigger] v@[i]).open_time <= end_time
                &&& store_candles(self.conn).contains_key(
                    ckey(provider@, symbol@, timeframe@, v@[i].open_time as int))
                &&& store_candles(self.conn)[
                    ckey(provider@, symbol@, timeframe@, v@[i].open_time as int)] == v@[i]
            },
            r matches Ok(v) ==> scan_complete(store_candles(self.conn), provider@, symbol@,
                timeframe@, start_time as int, end_time as int, v@),
    {
        let raw = self.query_range_raw(provider, symbol, timeframe, start_time, end_time)?;
        let mut v: Vec<Candle> = Vec::new();
        let mut i: usize = 0;
        while i < raw.len()
            invariant
                0 <= i <= raw@.len(),
                v@.len() == i,
                forall|l: int| 0 <= l < i ==> #[trigger] v@[l] == raw_candle(raw@[l]),
            decreases raw@.len() - i,
        {
            let t = raw[i];
            v.push(Candle {
                open_time: t.0.0,
                open: t.0.1,
                high: t.0.2,
                low: t.0.3,
                close: t.0.4,
                volume: t.0.5,
                close_time: t.1.0,
                quote_asset_volume: t.1.1,
                number_of_trades: t.1.2,
                taker_buy_base_asset_volume: t.1.3,
                taker_buy_quote_asset_volume: t.1.4,
                interpolated: t.1.5,
            });
            i = i + 1;
        }
        proof {
            assert forall|l: int| 0 <= l < v@.len() implies {
                &&& start_time <= (#[trigger] v@[l]).open_time <= end_time
                &&& store_candles(self.conn).contains_key(
                    ckey(provider@, symbol@, timeframe@, v@[l].open_time as int))
                &&& store_candles(self.conn)[
                    ckey(provider@, symbol@, timeframe@, v@[l].open_time as int)] == v@[l]
            } by {
                assert(v@[l] == raw_candle(raw@[l]));
                assert((raw@[l]).0.0 == v@[l].open_time);
            }
            assert forall|i2: int, j2: int| 0 <= i2 < j2 < v@.len()
                implies v@[i2].open_time < v@[j2].open_time
            by {
                assert(v@[i2] == raw_candle(raw@[i2]));
                assert(v@[j2] == raw_candle(raw@[j2]));
            }
            assert forall|t2: int| start_time <= t2 <= end_time
                && #[trigger] store_candles(self.conn).contains_key(
                    ckey(provider@, symbol@, timeframe@, t2))
                implies exists|l: int| 0 <= l < v@.len() && v@[l].open_time == t2
            by {
                let l = choose|l: int| 0 <= l < raw@.len() && raw@[l].0.0 == t2;
                assert(v@[l] == raw_candle(raw@[l]));
                assert(v@[l].open_time == t2);
            }
            assert(scan_complete(store_candles(self.conn), provider@, symbol@, timeframe@,
                start_time as int, end_time as int, v@));
        }
        Ok(v)
    }

    /// Whether the series has any stored bar at all.
    ///
    /// Relies on rusqlite `Connection::query_row` over SELECT EXISTS.
    #[verifier::external_body]
    pub(crate) fn series_nonempty(
        &self,
        provider: &str,
        symbol: &str,
        timeframe: &str,
    ) -> (r: Result<bool, StoreError>)
        ensures
            r matches Ok(b) ==> b == (exists|t: int| store_candles(self.conn).contains_key(
                #[trigger] ckey(provider@, symbol@, timeframe@, t))),
    {
        let ps: [&dyn rusqlite::ToSql; 3] = [&provider, &symbol, &timeframe];
        let n: i64 = self.conn.query_row(
            "SELECT EXISTS(SELECT 1 FROM candlesticks
                WHERE provider = ?1 AND symbol = ?2 AND timeframe = ?3)",
            ps.as_slice(),
            |row| row.get(0),
        ).map_err(err_backend)?;
        Ok(n != 0)
    }

    /// The progress-cursor row of one series, if present.
    ///
    /// Relies on rusqlite `Connection::query_row` over the
    /// timeframe_status table, with the no-row case mapped to None.
    #[verifier::external_body]
    pub(crate) fn read_cursor(
        &self,
        provider: &str,
        symbol: &str,
        timeframe: &str,
    ) -> (r: Result<Option<CursorRow>, StoreError>)
        ensures
            r matches Ok(opt) ==> match opt {
                Some(row) => store_cursors(self.conn).contains_key(
                        series_id(provider@, symbol@, timeframe@))
                    && store_cursors(self.conn)[series_id(provider@, symbol@, timeframe@)] == row,
                None => !store_cursors(self.conn).contains_key(
                    series_id(provider@, symbol@, timeframe@)),
            },
    {
        let ps: [&dyn rusqlite::ToSql; 3] = [&provider, &symbol, &timeframe];
        self.conn.query_row(
            "SELECT oldest_candle_time, is_complete, last_updated FROM timeframe_status
             WHERE provider = ?1 AND symbol = ?2 AND timeframe = ?3",
            ps.as_slice(),
            |row| Ok(CursorRow {
                oldest_candle_time: row.get(0)?,
                is_complete: row.get(1)?,
                last_updated: row.get(2)?,
            }),
        ).optional().map_err(err_backend)
    }

    /// Writes (INSERT OR REPLACE) the progress-cursor row of one series.
    ///
    /// Relies on rusqlite `Connection::execute` and the table's primary
    /// key on (provider, symbol, timeframe).
    #[verifier::external_body]
    pub(crate) fn write_cursor(
        &mut self,
        provider: &str,
        symbol: &str,
        timeframe: &str,
        row: &CursorRow,
    ) -> (r: Result<(), StoreError>)
        ensures
            store_candles(final(self).conn) == store_candles(old(self).conn),
            r is Ok ==> store_cursors(final(self).conn) == store_cursors(old(self).conn)
                .insert(series_id(provider@, symbol@, timeframe@), *row),
            r is Err ==> store_cursors(final(self).conn) == store_cursors(old(self).conn),
    {
        let complete: i64 = if row.is_complete { 1 } else { 0 };
        let ps: [&dyn rusqlite::ToSql; 6] = [
            &provider, &symbol, &timeframe,
            &row.oldest_candle_time, &complete, &row.last_updated,
        ];
        self.conn.execute(
            "INSERT OR REPLACE INTO timeframe_status
                (provider, symbol, timeframe, oldest_candle_time, is_complete, last_updated)
             VALUES (?1, ?2, ?3, ?4, ?5, ?6)",
            ps.as_slice(),
        ).map_err(err_backend)?;
        Ok(())
    }
}

/// The identity a bar of a series gets inside the store.
pub open spec fn batch_key(
    provider: Seq<char>,
    symbol: Seq<char>,
    timeframe: Seq<char>,
    c: Candle,
) -> CandleKey {
    ckey(provider, symbol, timeframe, c.open_time as int)
}

/// The store contents after upsert-ignoring every bar of `rows` in order.
pub open spec fn insert_all(
    m: Map<CandleKey, Candle>,
    provider: Seq<char>,
    symbol: Seq<char>,
    timeframe: Seq<char>,
    rows: Seq<Candle>,
) -> Map<CandleKey, Candle>
    decreases rows.len(),
{
    if rows.len() == 0 {
        m
    } else {
        let k = batch_key(provider, symbol, timeframe, rows[0]);
        let m1 = if m.contains_key(k) { m } else { m.insert(k, rows[0]) };
        insert_all(m1, provider, symbol, timeframe, rows.drop_first())
    }
}

/// How many bars of `rows` are genuinely new when upsert-ignored in order.
pub open spec fn count_new(
    m: Map<CandleKey, Candle>,
    provider: Seq<char>,
    symbol: Seq<char>,
    timeframe: Seq<char>,
    rows: Seq<Candle>,
) -> int
    decreases rows.len(),
{
    if rows.len() == 0 {
        0
    } else {
        let k = batch_key(provider, symbol, timeframe, rows[0]);
        let m1 = if m.contains_key(k) { m } else { m.insert(k, rows[0]) };
        (if m.contains_key(k) { 0int } else { 1int })
            + count_new(m1, provider, symbol, timeframe, rows.drop_first())
    }
}

proof fn lemma_insert_all_snoc(
    m: Map<CandleKey, Candle>,
    provider: Seq<char>,
    symbol: Seq<char>,
    timeframe: Seq<char>,
    rows: Seq<Candle>,
    x: Candle,
)
    ensures
        ({
            let m1 = insert_all(m, provider, symbol, timeframe, rows);
            let k = batch_key(provider, symbol, timeframe, x);
            insert_all(m, provider, symbol, timeframe, rows.push(x))
                == (if m1.contains_key(k) { m1 } else { m1.insert(k, x) })
        }),
        ({
            let m1 = insert_all(m, provider, symbol, timeframe, rows);
            let k = batch_key(provider, symbol, timeframe, x);
            count_new(m, provider, symbol, timeframe, rows.push(x))
                == count_new(m, provider, symbol, timeframe, rows)
                    + (if m1.contains_key(k) { 0int } else { 1int })
        }),
    decreases rows.len(),
{
    let k = batch_key(provider, symbol, timeframe, x);
    if rows.len() == 0 {
        assert(rows.push(x).drop_first() =~= rows);
        assert(rows.push(x)[0] == x);
        let mstep = if m.contains_key(k) { m } else { m.insert(k, x) };
        assert(insert_all(m, provider, symbol, timeframe, rows.push(x))
            == insert_all(mstep, provider, symbol, timeframe, rows));
        assert(insert_all(mstep, provider, symbol, timeframe, rows) == mstep);
        assert(count_new(m, provider, symbol, timeframe, rows.push(x))
            == (if m.contains_key(k) { 0int } else { 1int })
                + count_new(mstep, provider, symbol, timeframe, rows));
    } else {
        let k0 = batch_key(provider, symbol, timeframe, rows[0]);
        let m1 = if m.contains_key(k0) { m } else { m.insert(k0, rows[0]) };
        assert(rows.push(x)[0] == rows[0]);
        assert(rows.push(x).drop_first() =~= rows.drop_first().push(x));
        assert(insert_all(m, provider, symbol, timeframe, rows)
            == insert_all(m1, provider, symbol, timeframe, rows.drop_first()));
        assert(count_new(m, provider, symbol, timeframe, rows)
            == (if m.contains_key(k0) { 0int } else { 1int })
                + count_new(m1, provider, symbol, timeframe, rows.drop_first()));
        assert(insert_all(m, provider, symbol, timeframe, rows.push(x))
            == insert_all(m1, provider, symbol, timeframe, rows.drop_first().push(x)));
        assert(count_new(m, provider, symbol, timeframe, rows.push(x))
            == (if m.contains_key(k0) { 0int } else { 1int })
                + count_new(m1, provider, symbol, timeframe, rows.drop_first().push(x)));
        lemma_insert_all_snoc(m1, provider, symbol, timeframe, rows.drop_first(), x);
    }
}

/// Bars already stored stay stored, with their values unchanged, across a
/// batch insert.
pub proof fn lemma_insert_all_preserves(
    m: Map<CandleKey, Candle>,
    provider: Seq<char>,
    symbol: Seq<char>,
    timeframe: Seq<char>,
    rows: Seq<Candle>,
)
    ensures
        forall|k: CandleKey| #[trigger] m.contains_key(k)
            ==> insert_all(m, provider, symbol, timeframe, rows).contains_key(k)
                && insert_all(m, provider, symbol, timeframe, rows)[k] == m[k],
        forall|k: CandleKey|
            #[trigger] insert_all(m, provider, symbol, timeframe, rows).contains_key(k)
            ==> m.contains_key(k)
                || (key_in_batch(provider, symbol, timeframe, rows, k)
                    && !m.contains_key(k)),
    decreases rows.len(),
{
    if rows.len() > 0 {
        let k0 = batch_key(provider, symbol, timeframe, rows[0]);
        let m1 = if m.contains_key(k0) { m } else { m.insert(k0, rows[0]) };
        assert(insert_all(m, provider, symbol, timeframe, rows)
            == insert_all(m1, provider, symbol, timeframe, rows.drop_first()));
        lemma_insert_all_preserves(m1, provider, symbol, timeframe, rows.drop_first());
        assert forall|k: CandleKey| #[trigger] m.contains_key(k)
            implies insert_all(m, provider, symbol, timeframe, rows).contains_key(k)
                && insert_all(m, provider, symbol, timeframe, rows)[k] == m[k]
        by {
            assert(m1.contains_key(k));
            assert(m1[k] == m[k]);
        }
        assert forall|k: CandleKey|
            #[trigger] insert_all(m, provider, symbol, timeframe, rows).contains_key(k)
            implies m.contains_key(k)
                || (key_in_batch(provider, symbol, timeframe, rows, k) && !m.contains_key(k))
        by {
            if !m.contains_key(k) {
                if m1.contains_key(k) {
                    assert(k == k0);
                    assert(rows[0] == rows[0] && 0 <= 0 < rows.len());
                } else {
                    assert(key_in_batch(provider, symbol, timeframe, rows.drop_first(), k));
                    let i = choose|i: int| 0 <= i < rows.drop_first().len()
                        && k == batch_key(provider, symbol, timeframe, rows.drop_first()[i]);
                    assert(rows.drop_first()[i] == rows[i + 1]);
                }
            }
        }
    }
}

/// Whether `k` is the identity of some bar of the batch.
pub open spec fn key_in_batch(
    provider: Seq<char>,
    symbol: Seq<char>,
    timeframe: Seq<char>,
    rows: Seq<Candle>,
    k: CandleKey,
) -> bool {
    exists|i: int| 0 <= i < rows.len() && k == batch_key(provider, symbol, timeframe, rows[i])
}

/// After a batch insert, every bar of the batch has its key stored.
pub proof fn lemma_insert_all_contains(
    m: Map<CandleKey, Candle>,
    provider: Seq<char>,
    symbol: Seq<char>,
    timeframe: Seq<char>,
    rows: Seq<Candle>,
)
    ensures
        forall|i: int| 0 <= i < rows.len()
            ==> insert_all(m, provider, symbol, timeframe, rows).contains_key(
                #[trigger] batch_key(provider, symbol, timeframe, rows[i])),
    decreases rows.len(),
{
    if rows.len() > 0 {
        let k0 = batch_key(provider, symbol, timeframe, rows[0]);
        let m1 = if m.contains_key(k0) { m } else { m.insert(k0, rows[0]) };
        assert(insert_all(m, provider, symbol, timeframe, rows)
            == insert_all(m1, provider, symbol, timeframe, rows.drop_first()));
        lemma_insert_all_contains(m1, provider, symbol, timeframe, rows.drop_first());
        lemma_insert_all_preserves(m1, provider, symbol, timeframe, rows.drop_first());
        assert forall|i: int| 0 <= i < rows.len()
            implies insert_all(m, provider, symbol, timeframe, rows).contains_key(
                #[trigger] batch_key(provider, symbol, timeframe, rows[i]))
        by {
            if i > 0 {
                assert(rows.drop_first()[i - 1] == rows[i]);
                assert(insert_all(m1, provider, symbol, timeframe, rows.drop_first())
                    .contains_key(batch_key(provider, symbol, timeframe, rows.drop_first()[i - 1])));
            } else {
                assert(m1.contains_key(batch_key(provider, symbol, timeframe, rows[0])));
            }
        }
    }
}

/// Upsert-ignoring bars whose keys are all already stored changes nothing
/// and counts zero new rows.
pub proof fn lemma_insert_all_noop(
    m: Map<CandleKey, Candle>,
    provider: Seq<char>,
    symbol: Seq<char>,
    timeframe: Seq<char>,
    rows: Seq<Candle>,
)
    requires
        forall|i: int| 0 <= i < rows.len()
            ==> m.contains_key(#[trigger] batch_key(provider, symbol, timeframe, rows[i])),
    ensures
        insert_all(m, provider, symbol, timeframe, rows) == m,
        count_new(m, provider, symbol, timeframe, rows) == 0,
    decreases rows.len(),
{
    if rows.len() > 0 {
        assert(m.contains_key(batch_key(provider, symbol, timeframe, rows[0])));
        assert forall|i: int| 0 <= i < rows.drop_first().len()
            implies m.contains_key(
                #[trigger] batch_key(provider, symbol, timeframe, rows.drop_first()[i]))
        by {
            assert(rows.drop_first()[i] == rows[i + 1]);
        }
        lemma_insert_all_noop(m, provider, symbol, timeframe, rows.drop_first());
    }
}

/// Batch insertion is idempotent: upsert-ignoring the same rows a second
/// time leaves the store as it was after the first time, and the second
/// pass counts zero new rows.
pub proof fn lemma_insert_batch_idempotent(
    m: Map<CandleKey, Candle>,
    provider: Seq<char>,
    symbol: Seq<char>,
    timeframe: Seq<char>,
    rows: Seq<Candle>,
)
    ensures
        insert_all(insert_all(m, provider, symbol, timeframe, rows),
            provider, symbol, timeframe, rows)
            == insert_all(m, provider, symbol, timeframe, rows),
        count_new(insert_all(m, provider, symbol, timeframe, rows),
            provider, symbol, timeframe, rows) == 0,
{
    lemma_insert_all_contains(m, provider, symbol, timeframe, rows);
    lemma_insert_all_noop(insert_all(m, provider, symbol, timeframe, rows),
        provider, symbol, timeframe, rows);
}

/// A nonempty batch whose first bar is not yet stored counts at least one
/// new row: on a store with no bar of the series, a batch that survives
/// filtering is never all-duplicates, so an exhausted outcome there means
/// the exchange returned nothing.
pub proof fn lemma_count_new_fresh(
    m: Map<CandleKey, Candle>,
    provider: Seq<char>,
    symbol: Seq<char>,
    timeframe: Seq<char>,
    rows: Seq<Candle>,
)
    requires
        rows.len() > 0,
        !m.contains_key(batch_key(provider, symbol, timeframe, rows[0])),
    ensures
        count_new(m, provider, symbol, timeframe, rows) >= 1,
{
    let k0 = batch_key(provider, symbol, timeframe, rows[0]);
    lemma_count_new_bounds(m.insert(k0, rows[0]), provider, symbol, timeframe,
        rows.drop_first());
}

/// The count of genuinely new rows is never negative nor larger than the
/// batch.
pub proof fn lemma_count_new_bounds(
    m: Map<CandleKey, Candle>,
    provider: Seq<char>,
    symbol: Seq<char>,
    timeframe: Seq<char>,
    rows: Seq<Candle>,
)
    ensures
        0 <= count_new(m, provider, symbol, timeframe, rows) <= rows.len(),
    decreases rows.len(),
{
    if rows.len() > 0 {
        let k0 = batch_key(provider, symbol, timeframe, rows[0]);
        let m1 = if m.contains_key(k0) { m } else { m.insert(k0, rows[0]) };
        lemma_count_new_bounds(m1, provider, symbol, timeframe, rows.drop_first());
    }
}

impl Store {
    /// Atomically upsert-ignores a whole batch of bars of one series.
    /// Duplicate keys are success-with-no-change and are not counted; the
    /// result is the number of genuinely new rows.
    pub fn insert_batch(
        &mut self,
        provider: &str,
        symbol: &str,
        timeframe: &str,
        rows: &Vec<Candle>,
    ) -> (r: Result<i64, StoreError>)
        requires
            rows@.len() < 0x8000_0000_0000_0000,
        ensures
            final(self).cursors() == old(self).cursors(),
            r matches Ok(n) ==> {
                &&& final(self).candles()
                    == insert_all(old(self).candles(), provider@, symbol@, timeframe@, rows@)
                &&& n == count_new(old(self).candles(), provider@, symbol@, timeframe@, rows@)
                &&& 0 <= n <= rows@.len()
            },
            r is Err ==> exists|p: int| 0 <= p <= rows@.len()
                && final(self).candles() == insert_all(
                    old(self).candles(), provider@, symbol@, timeframe@, #[trigger] rows@.take(p)),
    {
        let ghost m0 = store_candles(self.conn);
        let mut inserted: i64 = 0;
        let mut i: usize = 0;
        proof {
            assert(rows@.take(0) =~= Seq::<Candle>::empty());
        }
        while i < rows.len()
            invariant
                0 <= i <= rows@.len(),
                rows@.len() < 0x8000_0000_0000_0000,
                store_cursors(self.conn) == store_cursors(old(self).conn),
                m0 == store_candles(old(self).conn),
                store_candles(self.conn) == insert_all(m0, provider@, symbol@, timeframe@, rows@.take(i as int)),
                inserted == count_new(m0, provider@, symbol@, timeframe@, rows@.take(i as int)),
                0 <= inserted <= i,
            decreases rows@.len() - i,
        {
            let c = rows[i];
            let ghost pre = rows@.take(i as int);
            proof {
                lemma_insert_all_snoc(m0, provider@, symbol@, timeframe@, pre, c);
                assert(rows@.take(i + 1int) =~= pre.push(c));
            }
            match self.insert_candle(provider, symbol, timeframe, &c) {
                Ok(fresh) => {
                    if fresh {
                        inserted = inserted + 1;
                    }
                }
                Err(e) => {
                    proof {
                        assert(store_candles(self.conn) == insert_all(
                            m0, provider@, symbol@, timeframe@, rows@.take(i as int)));
                    }
                    return Err(e);
                }
            }
            i = i + 1;
        }
        proof {
            assert(rows@.take(rows@.len() as int) =~= rows@);
            lemma_count_new_bounds(m0, provider@, symbol@, timeframe@, rows@);
        }
        Ok(inserted)
    }

    /// All bars of one series with open_time in [start_time, end_time], in
    /// strictly ascending open_time order: one element per stored key in
    /// the window, carrying the stored bar.
    pub fn range_scan(
        &self,
        provider: &str,
        symbol: &str,
        timeframe: &str,
        start_time: i64,
        end_time: i64,
    ) -> (r: Result<Vec<Candle>, StoreError>)
        ensures
            r matches Ok(v) ==> {
                &&& forall|i: int, j: int| 0 <= i < j < v@.len()
                    ==> v@[i].open_time < v@[j].open_time
                &&& forall|i: int| 0 <= i < v@.len() ==> {
                    &&& start_time <= #[trigger] v@[i].open_time <= end_time
                    &&& self.candles().contains_key(
                        ckey(provider@, symbol@, timeframe@, v@[i].open_time as int))
                    &&& self.candles()[
                        ckey(provider@, symbol@, timeframe@, v@[i].open_time as int)] == v@[i]
                }
                &&& forall|t: int| start_time <= t <= end_time
                    && #[trigger] self.candles().contains_key(
                        ckey(provider@, symbol@, timeframe@, t))
                    ==> exists|i: int| 0 <= i < v@.len() && v@[i].open_time == t
            },
    {
        self.query_range(provider, symbol, timeframe, start_time, end_time)
    }
}

/// Well-formedness of a whole store: every stored bar satisfies the bar
/// invariants for its series interval, and sits under the key carrying
/// its own open time.
pub open spec fn store_wf(m: Map<CandleKey, Candle>) -> bool {
    forall|k: CandleKey| #[trigger] m.contains_key(k)
        ==> candle_wf(m[k], spec_interval(k.timeframe)) && m[k].open_time == k.open_time
}

/// Inserting only well-formed bars (keyed by their own open time)
/// preserves the stored-bar invariants.
pub proof fn lemma_insert_all_preserves_wf(
    m: Map<CandleKey, Candle>,
    provider: Seq<char>,
    symbol: Seq<char>,
    timeframe: Seq<char>,
    rows: Seq<Candle>,
)
    requires
        store_wf(m),
        forall|i: int| 0 <= i < rows.len()
            ==> candle_wf(#[trigger] rows[i], spec_interval(timeframe)),
    ensures
        store_wf(insert_all(m, provider, symbol, timeframe, rows)),
    decreases rows.len(),
{
    if rows.len() > 0 {
        let k0 = batch_key(provider, symbol, timeframe, rows[0]);
        let m1 = if m.contains_key(k0) { m } else { m.insert(k0, rows[0]) };
        assert(store_wf(m1));
        assert forall|i: int| 0 <= i < rows.drop_first().len()
            implies candle_wf(#[trigger] rows.drop_first()[i], spec_interval(timeframe))
        by {
            assert(rows.drop_first()[i] == rows[i + 1]);
        }
        lemma_insert_all_preserves_wf(m1, provider, symbol, timeframe, rows.drop_first());
    }
}

/// Any two distinct stored bars of one well-formed series sit a positive
/// multiple of the series interval apart: at least one whole interval.
pub proof fn lemma_series_spacing(m: Map<CandleKey, Candle>, k1: CandleKey, k2: CandleKey)
    requires
        store_wf(m),
        m.contains_key(k1),
        m.contains_key(k2),
        k1.timeframe == k2.timeframe,
        k1.open_time < k2.open_time,
    ensures
        (k2.open_time - k1.open_time) % spec_interval(k1.timeframe) == 0,
        k2.open_time - k1.open_time >= spec_interval(k1.timeframe),
{
    let iv = spec_interval(k1.timeframe);
    crate::timeframe::lemma_interval_bounds(k1.timeframe);
    assert(k1.open_time % iv == 0);
    assert(k2.open_time % iv == 0);
    let d = k2.open_time - k1.open_time;
    vstd::arithmetic::div_mod::lemma_sub_mod_noop(k2.open_time as int, k1.open_time as int, iv);
    lemma_small_mod(0, iv as nat);
    assert(d % iv == 0);
    if d < iv {
        lemma_small_mod(d as nat, iv as nat);
        assert(false);
    }
}

/// The progress ledger: per-series completion flag and resume point.
pub struct TimeframeStatus;

impl TimeframeStatus {
    /// Whether the series was marked complete (historical limit or the
    /// requested floor reached).
    pub fn is_complete(
        store: &Store,
        provider: &str,
        symbol: &str,
        timeframe: &str,
    ) -> (r: Result<bool, StoreError>)
        ensures
            r matches Ok(b) ==> b == {
                let s = series_id(provider@, symbol@, timeframe@);
                store.cursors().contains_key(s) && store.cursors()[s].is_complete
            },
    {
        match store.read_cursor(provider, symbol, timeframe)? {
            Some(row) => Ok(row.is_complete),
            None => Ok(false),
        }
    }

    /// Marks a series complete, recording the oldest fetched open time.
    pub fn mark_complete(
        store: &mut Store,
        provider: &str,
        symbol: &str,
        timeframe: &str,
        oldest_candle_time: Option<i64>,
        now_ms: i64,
    ) -> (r: Result<(), StoreError>)
        ensures
            final(store).candles() == old(store).candles(),
            r is Ok ==> final(store).cursors() == old(store).cursors().insert(
                series_id(provider@, symbol@, timeframe@),
                CursorRow { oldest_candle_time, is_complete: true, last_updated: now_ms }),
            r is Err ==> final(store).cursors() == old(store).cursors(),
    {
        let row = CursorRow { oldest_candle_time, is_complete: true, last_updated: now_ms };
        store.write_cursor(provider, symbol, timeframe, &row)
    }

    /// Records progress after a batch: the oldest open time reached so
    /// far, leaving the series incomplete.
    pub fn update_progress(
        store: &mut Store,
        provider: &str,
        symbol: &str,
        timeframe: &str,
        oldest_candle_time: i64,
        now_ms: i64,
    ) -> (r: Result<(), StoreError>)
        ensures
            final(store).candles() == old(store).candles(),
            r is Ok ==> final(store).cursors() == old(store).cursors().insert(
                series_id(provider@, symbol@, timeframe@),
                CursorRow {
                    oldest_candle_time: Some(oldest_candle_time),
                    is_complete: false,
                    last_updated: now_ms,
                }),
            r is Err ==> final(store).cursors() == old(store).cursors(),
    {
        let row = CursorRow {
            oldest_candle_time: Some(oldest_candle_time),
            is_complete: false,
            last_updated: now_ms,
        };
        store.write_cursor(provider, symbol, timeframe, &row)
    }

    /// The resume point of a series: the oldest open time the fetcher has
    /// reached so far, if a cursor row exists and carries one.
    pub fn get_last_candle_time(
        store: &Store,
        provider: &str,
        symbol: &str,
        timeframe: &str,
    ) -> (r: Result<Option<i64>, StoreError>)
        ensures
            r matches Ok(opt) ==> opt == {
                let s = series_id(provider@, symbol@, timeframe@);
                if store.cursors().contains_key(s) {
                    store.cursors()[s].oldest_candle_time
                } else {
                    None::<i64>
                }
            },
    {
        match store.read_cursor(provider, symbol, timeframe)? {
            Some(row) => Ok(row.oldest_candle_time),
            None => Ok(None),
        }
    }
}

} // verus!
