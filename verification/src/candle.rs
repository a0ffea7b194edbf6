//! The candle data model: one OHLCV bar, the identity of a bar inside a
//! store, well-formedness of stored bars, and integer linear interpolation
//! between two bars.
//!
//! Price-like fields (open, high, low, close, the volume columns) are
//! integer price units; timestamps are epoch milliseconds.

use vstd::prelude::*;
use vstd::arithmetic::div_mod::{
    lemma_fundamental_div_mod, lemma_mod_division_less_than_divisor,
};

verus! {

/// One completed or synthetic OHLCV bar.
#[derive(Clone, Copy, PartialEq, Eq, Structural, Debug)]
pub struct Candle {
    pub open_time: i64,
    pub open: i64,
    pub high: i64,
    pub low: i64,
    pub close: i64,
    pub volume: i64,
    pub close_time: i64,
    pub quote_asset_volume: i64,
    pub number_of_trades: i64,
    pub taker_buy_base_asset_volume: i64,
    pub taker_buy_quote_asset_volume: i64,
    pub interpolated: bool,
}

/// Identity of a stored bar: unique per store.
pub ghost struct CandleKey {
    pub provider: Seq<char>,
    pub symbol: Seq<char>,
    pub timeframe: Seq<char>,
    pub open_time: int,
}

/// Identity of a candle series and of its progress-cursor row.
pub ghost struct SeriesId {
    pub provider: Seq<char>,
    pub symbol: Seq<char>,
    pub timeframe: Seq<char>,
}

pub open spec fn ckey(
    provider: Seq<char>,
    symbol: Seq<char>,
    timeframe: Seq<char>,
    open_time: int,
) -> CandleKey {
    CandleKey { provider, symbol, timeframe, open_time }
}

pub open spec fn series_id(
    provider: Seq<char>,
    symbol: Seq<char>,
    timeframe: Seq<char>,
) -> SeriesId {
    SeriesId { provider, symbol, timeframe }
}

/// Whether a key belongs to the given series.
pub open spec fn key_in_series(k: CandleKey, s: SeriesId) -> bool {
    k.provider == s.provider && k.symbol == s.symbol && k.timeframe == s.timeframe
}

/// Invariants of a stored bar for a series whose interval is `iv`
/// milliseconds: the close time ends exactly one interval after the open,
/// the open time sits on the interval grid, open and close lie between low
/// and high, and volume is not negative.
pub open spec fn candle_wf(c: Candle, iv: int) -> bool {
    &&& c.close_time == c.open_time + iv - 1
    &&& (c.open_time as int) % iv == 0
    &&& c.low <= c.open <= c.high
    &&& c.low <= c.close <= c.high
    &&& c.volume >= 0
}

/// Truncating linear interpolation between `a` and `b` at position `k` of
/// `n1` equal steps: the integer part of a + (b - a) * k / n1.
pub open spec fn lerp(a: int, b: int, k: int, n1: int) -> int {
    if b >= a {
        a + (b - a) * k / n1
    } else {
        a - (a - b) * k / n1
    }
}

/// The interpolated value always lies between the two endpoints.
pub proof fn lemma_lerp_between(a: int, b: int, k: int, n1: int)
    requires
        1 <= n1,
        0 <= k <= n1,
    ensures
        a <= b ==> a <= lerp(a, b, k, n1) <= b,
        b <= a ==> b <= lerp(a, b, k, n1) <= a,
{
    if b >= a {
        let d = b - a;
        lemma_fundamental_div_mod(d * k, n1);
        lemma_mod_division_less_than_divisor(d * k, n1);
        assert(0 <= d * k <= d * n1) by (nonlinear_arith)
            requires 0 <= d, 0 <= k <= n1;
        assert(0 <= d * k / n1 <= d) by (nonlinear_arith)
            requires
                1 <= n1,
                0 <= d,
                0 <= d * k <= d * n1,
                d * k == n1 * (d * k / n1) + (d * k) % n1,
                0 <= (d * k) % n1 < n1;
    } else {
        let d = a - b;
        lemma_fundamental_div_mod(d * k, n1);
        lemma_mod_division_less_than_divisor(d * k, n1);
        assert(0 <= d * k <= d * n1) by (nonlinear_arith)
            requires 0 <= d, 0 <= k <= n1;
        assert(0 <= d * k / n1 <= d) by (nonlinear_arith)
            requires
                1 <= n1,
                0 <= d,
                0 <= d * k <= d * n1,
                d * k == n1 * (d * k / n1) + (d * k) % n1,
                0 <= (d * k) % n1 < n1;
    }
}

/// Interpolation preserves pointwise order: interpolating between smaller
/// endpoints gives a result no larger than interpolating between larger
/// ones at the same position.
pub proof fn lemma_lerp_le(a1: int, b1: int, a2: int, b2: int, k: int, n1: int)
    requires
        1 <= n1,
        0 <= k <= n1,
        a1 <= a2,
        b1 <= b2,
    ensures
        lerp(a1, b1, k, n1) <= lerp(a2, b2, k, n1),
{
    lemma_lerp_between(a1, b1, k, n1);
    lemma_lerp_between(a2, b2, k, n1);
    if b1 >= a1 && b2 >= a2 {
        let d1 = b1 - a1;
        let d2 = b2 - a2;
        let q1 = d1 * k / n1;
        let q2 = d2 * k / n1;
        lemma_fundamental_div_mod(d1 * k, n1);
        lemma_mod_division_less_than_divisor(d1 * k, n1);
        lemma_fundamental_div_mod(d2 * k, n1);
        lemma_mod_division_less_than_divisor(d2 * k, n1);
        // (n1 - k) * a1 + k * b1 <= (n1 - k) * a2 + k * b2
        assert(n1 * a1 + d1 * k <= n1 * a2 + d2 * k) by (nonlinear_arith)
            requires a1 <= a2, b1 <= b2, 0 <= k <= n1, d1 == b1 - a1, d2 == b2 - a2;
        assert(n1 * (a1 + q1) < n1 * (a2 + q2 + 1)) by (nonlinear_arith)
            requires
                1 <= n1,
                n1 * a1 + d1 * k <= n1 * a2 + d2 * k,
                d1 * k == n1 * q1 + (d1 * k) % n1,
                d2 * k == n1 * q2 + (d2 * k) % n1,
                0 <= (d1 * k) % n1 < n1,
                0 <= (d2 * k) % n1 < n1;
        assert(a1 + q1 < a2 + q2 + 1) by (nonlinear_arith)
            requires 1 <= n1, n1 * (a1 + q1) < n1 * (a2 + q2 + 1);
    } else if b1 < a1 && b2 >= a2 {
        // lerp(a1, b1, ..) <= a1 <= a2 <= lerp(a2, b2, ..)
    } else if b1 >= a1 && b2 < a2 {
        let d1 = b1 - a1;
        let d2 = a2 - b2;
        let q1 = d1 * k / n1;
        let q2 = d2 * k / n1;
        lemma_fundamental_div_mod(d1 * k, n1);
        lemma_mod_division_less_than_divisor(d1 * k, n1);
        lemma_fundamental_div_mod(d2 * k, n1);
        lemma_mod_division_less_than_divisor(d2 * k, n1);
        assert(n1 * a1 + d1 * k <= n1 * a2 - d2 * k) by (nonlinear_arith)
            requires a1 <= a2, b1 <= b2, 0 <= k <= n1, d1 == b1 - a1, d2 == a2 - b2;
        assert(n1 * (a1 + q1) <= n1 * (a2 - q2)) by (nonlinear_arith)
            requires
                1 <= n1,
                n1 * a1 + d1 * k <= n1 * a2 - d2 * k,
                d1 * k == n1 * q1 + (d1 * k) % n1,
                d2 * k == n1 * q2 + (d2 * k) % n1,
                0 <= (d1 * k) % n1 < n1,
                0 <= (d2 * k) % n1 < n1;
        assert(a1 + q1 <= a2 - q2) by (nonlinear_arith)
            requires 1 <= n1, n1 * (a1 + q1) <= n1 * (a2 - q2);
    } else {
        let d1 = a1 - b1;
        let d2 = a2 - b2;
        let q1 = d1 * k / n1;
        let q2 = d2 * k / n1;
        lemma_fundamental_div_mod(d1 * k, n1);
        lemma_mod_division_less_than_divisor(d1 * k, n1);
        lemma_fundamental_div_mod(d2 * k, n1);
        lemma_mod_division_less_than_divisor(d2 * k, n1);
        assert(n1 * a1 - d1 * k <= n1 * a2 - d2 * k) by (nonlinear_arith)
            requires a1 <= a2, b1 <= b2, 0 <= k <= n1, d1 == a1 - b1, d2 == a2 - b2;
        assert(n1 * (a1 - q1) < n1 * (a2 - q2 + 1)) by (nonlinear_arith)
            requires
                1 <= n1,
                n1 * a1 - d1 * k <= n1 * a2 - d2 * k,
                d1 * k == n1 * q1 + (d1 * k) % n1,
                d2 * k == n1 * q2 + (d2 * k) % n1,
                0 <= (d1 * k) % n1 < n1,
                0 <= (d2 * k) % n1 < n1;
        assert(a1 - q1 < a2 - q2 + 1) by (nonlinear_arith)
            requires 1 <= n1, n1 * (a1 - q1) < n1 * (a2 - q2 + 1);
    }
}

/// Truncating linear interpolation on machine integers; intermediate
/// products are taken in 128 bits, so any `i64` endpoints are accepted.
pub fn lerp_i64(a: i64, b: i64, k: i64, n1: i64) -> (r: i64)
    requires
        1 <= n1,
        0 <= k <= n1,
    ensures
        r == lerp(a as int, b as int, k as int, n1 as int),
        a <= b ==> a <= r <= b,
        b <= a ==> b <= r <= a,
{
    proof {
        lemma_lerp_between(a as int, b as int, k as int, n1 as int);
    }
    if b >= a {
        let d: i128 = (b as i128) - (a as i128);
        proof {
            assert((d as int) * (k as int) <= 0x7fff_ffff_ffff_ffff_ffff_ffff_ffff_ffff)
                by (nonlinear_arith)
                requires
                    0 <= (d as int) < 0x1_0000_0000_0000_0000,
                    0 <= (k as int) < 0x8000_0000_0000_0000;
        }
        let num: u128 = (d as u128) * (k as u128);
        let q: u128 = num / (n1 as u128);
        proof {
            let di = d as int;
            let ki = k as int;
            let ni = n1 as int;
            assert(di * ki <= di * ni) by (nonlinear_arith)
                requires 0 <= di, 0 <= ki <= ni;
            vstd::arithmetic::div_mod::lemma_div_is_ordered(di * ki, di * ni, ni);
            vstd::arithmetic::div_mod::lemma_div_multiples_vanish(di, ni);
            assert(ni * di == di * ni) by (nonlinear_arith);
            assert(q as int == di * ki / ni);
            assert(q <= d);
        }
        ((a as i128) + (q as i128)) as i64
    } else {
        let d: i128 = (a as i128) - (b as i128);
        proof {
            assert((d as int) * (k as int) <= 0x7fff_ffff_ffff_ffff_ffff_ffff_ffff_ffff)
                by (nonlinear_arith)
                requires
                    0 <= (d as int) < 0x1_0000_0000_0000_0000,
                    0 <= (k as int) < 0x8000_0000_0000_0000;
        }
        let num: u128 = (d as u128) * (k as u128);
        let q: u128 = num / (n1 as u128);
        proof {
            let di = d as int;
            let ki = k as int;
            let ni = n1 as int;
            assert(di * ki <= di * ni) by (nonlinear_arith)
                requires 0 <= di, 0 <= ki <= ni;
            vstd::arithmetic::div_mod::lemma_div_is_ordered(di * ki, di * ni, ni);
            vstd::arithmetic::div_mod::lemma_div_multiples_vanish(di, ni);
            assert(ni * di == di * ni) by (nonlinear_arith);
            assert(q as int == di * ki / ni);
            assert(q <= d);
        }
        ((a as i128) - (q as i128)) as i64
    }
}

} // verus!
