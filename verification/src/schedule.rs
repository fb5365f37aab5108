//! Alignment of timestamps to interval boundaries, and the windows in which
//! candles are fetched.
use vstd::prelude::*;

verus! {

/// Seconds in one day.
pub const SECONDS_PER_DAY: i64 = 86_400;

/// Boundary interval of the periodic fetch, in minutes.
pub const FETCH_INTERVAL_MINUTES: i64 = 15;

/// Days of history fetched at start-up.
pub const INITIAL_HISTORY_DAYS: i64 = 7;

/// Candles requested by the first fetch.
pub const INITIAL_FETCH_LIMIT: u16 = 1000;

/// Candles requested by each later fetch.
pub const INCREMENTAL_FETCH_LIMIT: u16 = 1;

/// Length in seconds of an interval of `interval_minutes` minutes, taken
/// positive.
pub open spec fn interval_length(interval_minutes: int) -> int {
    let i = interval_minutes * 60;
    if i < 0 {
        -i
    } else {
        i
    }
}

/// The least multiple of the interval that is not before `timestamp`
/// (seconds): `timestamp` itself when it lies on a boundary.
pub open spec fn spec_next_boundary(timestamp: int, interval_minutes: int) -> int {
    let i = interval_length(interval_minutes);
    let r = timestamp % i;
    if r == 0 {
        timestamp
    } else {
        timestamp - r + i
    }
}

/// The whole second at or after the instant `seconds + subsec_nanos / 10^9`.
pub open spec fn ceil_seconds(seconds: int, subsec_nanos: int) -> int {
    if subsec_nanos > 0 {
        seconds + 1
    } else {
        seconds
    }
}

/// Aligning `timestamp` is defined (a non-zero interval) and its result
/// fits in an `i64`.
pub open spec fn alignment_fits(timestamp: int, interval_minutes: int) -> bool {
    &&& interval_minutes != 0
    &&& spec_next_boundary(timestamp, interval_minutes) <= i64::MAX
}

/// `timestamp` (seconds) rounded up to the nearest boundary of
/// `interval_minutes` minutes (see `spec_next_boundary`); `None` when the
/// interval is zero or the boundary does not fit in an `i64`.
pub fn align_to_next_boundary(timestamp: i64, interval_minutes: i64) -> (r: Option<i64>)
    ensures
        alignment_fits(timestamp as int, interval_minutes as int) ==> r == Some(
            spec_next_boundary(timestamp as int, interval_minutes as int) as i64,
        ),
        !alignment_fits(timestamp as int, interval_minutes as int) ==> r is None,
{
    if interval_minutes == 0 {
        return None;
    }
    let m = interval_minutes as i128;
    let i: i128 = if m < 0 { -m * 60 } else { m * 60 };
    let t = timestamp as i128;
    let rem = t % i;
    let r: i128 = if rem < 0 { rem + i } else { rem };
    proof {
        lemma_truncated_to_euclidean(t as int, i as int, rem as int);
    }
    let aligned: i128 = if r == 0 { t } else { t - r + i };
    if aligned > i64::MAX as i128 {
        return None;
    }
    Some(aligned as i64)
}

/// Rust's remainder of `t` by a positive `i`, shifted up by `i` when it is
/// negative, is the Euclidean remainder.
proof fn lemma_truncated_to_euclidean(t: int, i: int, rem: int)
    requires
        i > 0,
        rem == (if t >= 0 { t % i } else { -((-t) % i) }),
    ensures
        (if rem < 0 { rem + i } else { rem }) == t % i,
{
    vstd::arithmetic::div_mod::lemma_fundamental_div_mod(t, i);
    if t < 0 {
        vstd::arithmetic::div_mod::lemma_fundamental_div_mod(-t, i);
        let q = (-t) / i;
        let m = (-t) % i;
        assert(0 <= m < i);
        if m == 0 {
            vstd::arithmetic::div_mod::lemma_mod_multiples_vanish(-q, 0, i);
            assert(t == -q * i) by (nonlinear_arith)
                requires
                    -t == i * q + m,
                    m == 0,
            ;
            vstd::arithmetic::div_mod::lemma_mod_multiples_basic(-q, i);
        } else {
            assert(t == (-q - 1) * i + (i - m)) by (nonlinear_arith)
                requires
                    -t == i * q + m,
            ;
            vstd::arithmetic::div_mod::lemma_fundamental_div_mod_converse(t, i, -q - 1, i - m);
        }
    }
}

/// The instant `seconds + subsec_nanos / 10^9` rounded up to the nearest
/// boundary of `interval_minutes` minutes: the least boundary not before
/// it, in whole seconds; `None` when the interval is zero or the boundary
/// does not fit in an `i64`.
pub fn align_instant_to_next_boundary(seconds: i64, subsec_nanos: u32, interval_minutes: i64) -> (r:
    Option<i64>)
    ensures
        alignment_fits(ceil_seconds(seconds as int, subsec_nanos as int), interval_minutes as int)
            ==> r == Some(
            spec_next_boundary(ceil_seconds(seconds as int, subsec_nanos as int), interval_minutes as int) as i64,
        ),
        !alignment_fits(ceil_seconds(seconds as int, subsec_nanos as int), interval_minutes as int)
            ==> r is None,
{
    if subsec_nanos > 0 {
        if seconds == i64::MAX {
            proof {
                if interval_minutes != 0 {
                    lemma_boundary_not_before(i64::MAX + 1, interval_minutes as int);
                }
            }
            return None;
        }
        align_to_next_boundary(seconds + 1, interval_minutes)
    } else {
        align_to_next_boundary(seconds, interval_minutes)
    }
}

proof fn lemma_boundary_not_before(timestamp: int, interval_minutes: int)
    requires
        interval_minutes != 0,
    ensures
        spec_next_boundary(timestamp, interval_minutes) >= timestamp,
{
    let i = interval_length(interval_minutes);
    assert(0 <= timestamp % i < i);
}

/// Law: the aligned time is a boundary (a multiple of the interval), it is
/// not before the time and less than one interval after it, no boundary
/// lies between the two, and aligning it again changes nothing.
pub proof fn law_alignment_lands_on_next_boundary(timestamp: int, interval_minutes: int, k: int)
    requires
        interval_minutes != 0,
    ensures
        ({
            let i = interval_length(interval_minutes);
            let aligned = spec_next_boundary(timestamp, interval_minutes);
            &&& aligned % i == 0
            &&& timestamp <= aligned < timestamp + i
            &&& k * i >= timestamp ==> k * i >= aligned
            &&& spec_next_boundary(aligned, interval_minutes) == aligned
        }),
{
    let i = interval_length(interval_minutes);
    let rem = timestamp % i;
    let q = timestamp / i;
    let aligned = spec_next_boundary(timestamp, interval_minutes);
    vstd::arithmetic::div_mod::lemma_fundamental_div_mod(timestamp, i);
    assert(0 <= rem < i);
    if rem == 0 {
        assert(aligned == q * i);
    } else {
        assert(aligned == (q + 1) * i) by (nonlinear_arith)
            requires
                aligned == timestamp - rem + i,
                timestamp == i * q + rem,
        ;
    }
    let qa = if rem == 0 { q } else { q + 1 };
    assert(aligned == qa * i);
    vstd::arithmetic::div_mod::lemma_mod_multiples_basic(qa, i);
    assert(qa * i == i * qa) by (nonlinear_arith);
    if k * i >= timestamp {
        if k < qa {
            assert(k * i <= (qa - 1) * i) by (nonlinear_arith)
                requires
                    k <= qa - 1,
                    i > 0,
            ;
            assert((qa - 1) * i < timestamp) by (nonlinear_arith)
                requires
                    timestamp == i * q + rem,
                    qa == (if rem == 0 { q } else { q + 1 }),
                    0 <= rem < i,
            ;
        } else {
            assert(k * i >= qa * i) by (nonlinear_arith)
                requires
                    k >= qa,
                    i > 0,
            ;
        }
    }
}

/// One request for candles: the time window (seconds) and how many
/// candles to ask for.
#[derive(Clone, Copy, Debug, PartialEq, Eq, Structural)]
pub struct FetchRequest {
    pub start: i64,
    pub end: i64,
    pub limit: u16,
}

/// The decisions of the periodic candle fetch: where the last window ended.
#[derive(Clone, Copy, Debug, PartialEq, Eq, Structural)]
pub struct FetchSchedule {
    pub last_end: i64,
}

/// The end of the first window for a fetch at `now` (whole seconds).
pub open spec fn first_window_end(now: int) -> int {
    spec_next_boundary(now, FETCH_INTERVAL_MINUTES as int)
}

/// The first window, seven days long, fits in an `i64`.
pub open spec fn first_window_fits(now: int) -> bool {
    &&& alignment_fits(now, FETCH_INTERVAL_MINUTES as int)
    &&& i64::MIN <= first_window_end(now) - INITIAL_HISTORY_DAYS * SECONDS_PER_DAY
}

/// Law: a fetch window ends at the least quarter-hour boundary (a multiple
/// of 900 seconds) not before the time of the fetch; the first window
/// reaches seven days (604800 seconds) back for 1000 candles, each later
/// one asks for one candle.
pub proof fn law_fetch_windows_end_on_quarter_hours(now: int, k: int)
    ensures
        first_window_end(now) == spec_next_boundary(now, FETCH_INTERVAL_MINUTES as int),
        spec_next_boundary(now, FETCH_INTERVAL_MINUTES as int) % 900 == 0,
        now <= spec_next_boundary(now, FETCH_INTERVAL_MINUTES as int) < now + 900,
        k * 900 >= now ==> k * 900 >= spec_next_boundary(now, FETCH_INTERVAL_MINUTES as int),
        INITIAL_HISTORY_DAYS * SECONDS_PER_DAY == 604_800,
        INITIAL_FETCH_LIMIT == 1000,
        INCREMENTAL_FETCH_LIMIT == 1,
{
    assert(interval_length(FETCH_INTERVAL_MINUTES as int) == 900);
    law_alignment_lands_on_next_boundary(now, FETCH_INTERVAL_MINUTES as int, k);
}

/// Law: a later fetch never ends before an earlier one, so each window
/// of the schedule starts no later than it ends.
pub proof fn law_fetch_windows_ordered(now0: int, now1: int)
    requires
        now0 <= now1,
    ensures
        first_window_end(now0) <= spec_next_boundary(now1, FETCH_INTERVAL_MINUTES as int),
        spec_next_boundary(now0, FETCH_INTERVAL_MINUTES as int) <= spec_next_boundary(
            now1,
            FETCH_INTERVAL_MINUTES as int,
        ),
{
    let b1 = spec_next_boundary(now1, FETCH_INTERVAL_MINUTES as int);
    law_fetch_windows_end_on_quarter_hours(now1, 0);
    vstd::arithmetic::div_mod::lemma_fundamental_div_mod(b1, 900);
    let k = b1 / 900;
    assert(b1 == 900 * k);
    assert(k * 900 == 900 * k) by (nonlinear_arith);
    law_fetch_windows_end_on_quarter_hours(now0, k);
}

/// Law: `ceil_seconds` is the least whole second not before the instant
/// `seconds + subsec_nanos / 10^9` (for a sub-second part below 10^9).
pub proof fn law_ceil_seconds_least_not_before(seconds: int, subsec_nanos: int)
    requires
        0 <= subsec_nanos < 1_000_000_000,
    ensures
        seconds * 1_000_000_000 + subsec_nanos <= ceil_seconds(seconds, subsec_nanos) * 1_000_000_000,
        (ceil_seconds(seconds, subsec_nanos) - 1) * 1_000_000_000 < seconds * 1_000_000_000 + subsec_nanos,
{
}

impl FetchSchedule {
    /// The first fetch at the instant `now_seconds + now_nanos / 10^9`: up
    /// to 1000 candles over the seven days that end at the nearest
    /// 15-minute boundary not before it; `None` when that window does not
    /// fit in an `i64`.
    pub fn start(now_seconds: i64, now_nanos: u32) -> (r: Option<(FetchSchedule, FetchRequest)>)
        ensures
            ({
                let now = ceil_seconds(now_seconds as int, now_nanos as int);
                &&& r is None <==> !first_window_fits(now)
                &&& r matches Some((sched, req)) ==> {
                    &&& req.end == first_window_end(now)
                    &&& req.start == req.end - INITIAL_HISTORY_DAYS * SECONDS_PER_DAY
                    &&& req.limit == INITIAL_FETCH_LIMIT
                    &&& sched.last_end == req.end
                }
            }),
    {
        let end = match align_instant_to_next_boundary(now_seconds, now_nanos, FETCH_INTERVAL_MINUTES) {
            Some(e) => e,
            None => { return None; },
        };
        if end < i64::MIN + INITIAL_HISTORY_DAYS * SECONDS_PER_DAY {
            return None;
        }
        let start = end - INITIAL_HISTORY_DAYS * SECONDS_PER_DAY;
        Some((FetchSchedule { last_end: end }, FetchRequest { start, end, limit: INITIAL_FETCH_LIMIT }))
    }

    /// A later fetch at the instant `now_seconds + now_nanos / 10^9`: one
    /// candle over the window from the end of the previous window to the
    /// nearest 15-minute boundary not before it; `None`, with the schedule
    /// unchanged, when that boundary does not fit in an `i64`.
    pub fn next(&mut self, now_seconds: i64, now_nanos: u32) -> (r: Option<FetchRequest>)
        ensures
            ({
                let now = ceil_seconds(now_seconds as int, now_nanos as int);
                &&& r is None <==> !alignment_fits(now, FETCH_INTERVAL_MINUTES as int)
                &&& r is None ==> *final(self) == *old(self)
                &&& r matches Some(req) ==> {
                    &&& req.start == old(self).last_end
                    &&& req.end == spec_next_boundary(now, FETCH_INTERVAL_MINUTES as int)
                    &&& req.limit == INCREMENTAL_FETCH_LIMIT
                    &&& final(self).last_end == req.end
                }
            }),
    {
        let end = match align_instant_to_next_boundary(now_seconds, now_nanos, FETCH_INTERVAL_MINUTES) {
            Some(e) => e,
            None => { return None; },
        };
        let request = FetchRequest { start: self.last_end, end, limit: INCREMENTAL_FETCH_LIMIT };
        self.last_end = end;
        Some(request)
    }
}

} // verus!
