//! Timeframe arithmetic: mapping timeframe tags such as "5m" or "1h" to
//! their interval in milliseconds or seconds.

use vstd::prelude::*;

verus! {

/// Interval in milliseconds of a timeframe tag. Unknown tags map to the
/// five-minute interval, a conservative default; there is no failure mode.
pub open spec fn spec_interval(tf: Seq<char>) -> int {
    if tf == "1m"@ {
        60_000
    } else if tf == "3m"@ {
        180_000
    } else if tf == "5m"@ {
        300_000
    } else if tf == "15m"@ {
        900_000
    } else if tf == "30m"@ {
        1_800_000
    } else if tf == "1h"@ {
        3_600_000
    } else if tf == "2h"@ {
        7_200_000
    } else if tf == "4h"@ {
        14_400_000
    } else if tf == "6h"@ {
        21_600_000
    } else if tf == "8h"@ {
        28_800_000
    } else if tf == "12h"@ {
        43_200_000
    } else if tf == "1d"@ {
        86_400_000
    } else if tf == "3d"@ {
        259_200_000
    } else if tf == "1w"@ {
        604_800_000
    } else if tf == "1M"@ {
        2_592_000_000
    } else {
        300_000
    }
}

/// Interval in whole seconds of a timeframe tag.
pub open spec fn spec_interval_seconds(tf: Seq<char>) -> int {
    spec_interval(tf) / 1000
}

/// Every timeframe interval lies between one minute and one month.
pub proof fn lemma_interval_bounds(tf: Seq<char>)
    ensures
        60_000 <= spec_interval(tf) <= 2_592_000_000,
        60 <= spec_interval_seconds(tf) <= 2_592_000,
        spec_interval(tf) == spec_interval_seconds(tf) * 1000,
{
}

/// Character-wise string equality, usable where the views matter.
pub fn str_eq(a: &str, b: &str) -> (r: bool)
    ensures
        r == (a@ == b@),
{
    let alen = a.unicode_len();
    let blen = b.unicode_len();
    if alen != blen {
        assert(a@ != b@) by {
            assert(a@.len() != b@.len());
        }
        return false;
    }
    let mut i: usize = 0;
    while i < alen
        invariant
            alen == a@.len(),
            alen == b@.len(),
            i <= alen,
            forall|j: int| 0 <= j < i ==> a@[j] == b@[j],
        decreases alen - i,
    {
        if a.get_char(i) != b.get_char(i) {
            return false;
        }
        i = i + 1;
    }
    assert(a@ =~= b@);
    true
}

/// Maps a timeframe tag to its interval in milliseconds.
pub fn timeframe_to_interval(timeframe: &str) -> (r: i64)
    ensures
        r == spec_interval(timeframe@),
{
    if str_eq(timeframe, "1m") {
        60_000
    } else if str_eq(timeframe, "3m") {
        180_000
    } else if str_eq(timeframe, "5m") {
        300_000
    } else if str_eq(timeframe, "15m") {
        900_000
    } else if str_eq(timeframe, "30m") {
        1_800_000
    } else if str_eq(timeframe, "1h") {
        3_600_000
    } else if str_eq(timeframe, "2h") {
        7_200_000
    } else if str_eq(timeframe, "4h") {
        14_400_000
    } else if str_eq(timeframe, "6h") {
        21_600_000
    } else if str_eq(timeframe, "8h") {
        28_800_000
    } else if str_eq(timeframe, "12h") {
        43_200_000
    } else if str_eq(timeframe, "1d") {
        86_400_000
    } else if str_eq(timeframe, "3d") {
        259_200_000
    } else if str_eq(timeframe, "1w") {
        604_800_000
    } else if str_eq(timeframe, "1M") {
        2_592_000_000
    } else {
        300_000
    }
}

/// Maps a timeframe tag to its interval in whole seconds.
pub fn parse_timeframe_seconds(tf: &str) -> (r: i64)
    ensures
        r == spec_interval_seconds(tf@),
        r >= 60,
{
    let ms = timeframe_to_interval(tf);
    proof {
        lemma_interval_bounds(tf@);
    }
    let s = (ms as u64 / 1000) as i64;
    assert(s == spec_interval(tf@) / 1000);
    s
}

} // verus!
