//! A rolling buffer of candles and the indicators computed over their
//! closing prices: simple average and exponential moving average (the
//! relative strength index is in `crate::rsi`).
use vstd::prelude::*;

verus! {

/// Maximum number of candles the buffer keeps once it is fed one candle
/// at a time.
pub const MAX_KLINES: usize = 240;

/// A candle, reduced to what the indicators read: its opening time
/// (milliseconds) and its closing price in fixed-point units.
#[derive(Clone, Copy, Debug, PartialEq, Eq, Structural)]
pub struct Kline {
    pub open_time: i64,
    pub close: u64,
}

/// The candles received so far, oldest first.
#[derive(Clone, Debug)]
pub struct KlineData {
    pub kline_vec: Vec<Kline>,
}

impl View for KlineData {
    type V = Seq<Kline>;

    open spec fn view(&self) -> Seq<Kline> {
        self.kline_vec@
    }
}

/// Closing prices of a candle sequence.
pub open spec fn closes(s: Seq<Kline>) -> Seq<u64> {
    s.map_values(|k: Kline| k.close)
}

/// The buffer after receiving candle `k`: a candle with the same opening
/// time as the newest one replaces it, any other is appended; past
/// `MAX_KLINES` candles the oldest is dropped.
pub open spec fn spec_add_kline(s: Seq<Kline>, k: Kline) -> Seq<Kline> {
    let t = if s.last().open_time == k.open_time {
        s.drop_last().push(k)
    } else {
        s.push(k)
    };
    if t.len() > MAX_KLINES {
        t.drop_first()
    } else {
        t
    }
}

pub open spec fn sum_prices(p: Seq<u64>) -> int
    decreases p.len(),
{
    if p.len() == 0 {
        0
    } else {
        sum_prices(p.drop_last()) + p.last()
    }
}

/// Every price of `p` lies in `[lo, hi]`.
pub open spec fn prices_within(p: Seq<u64>, lo: int, hi: int) -> bool {
    forall|i: int| 0 <= i < p.len() ==> lo <= #[trigger] p[i] <= hi
}

/// The floor of the mean closing price.
pub open spec fn spec_average(p: Seq<u64>) -> Option<u64> {
    if p.len() == 0 {
        None
    } else {
        Some((sum_prices(p) / (p.len() as int)) as u64)
    }
}

/// Internal precision of the moving average: it is carried in units of
/// `1 / EMA_FINE` fixed-point units and rounded down only when returned.
pub const EMA_FINE: u128 = 1_000_000_000_000_000_000;

/// Exponential moving average over the first `k` prices with smoothing
/// `2 / (n + 1)`, in units of `1 / EMA_FINE`: seeded with the simple average
/// of the first `n` prices, then `(2 * price + (n - 1) * ema) / (n + 1)` for
/// each later price, each step rounded down.
pub open spec fn ema_fine_at(p: Seq<u64>, n: nat, k: nat) -> int
    decreases k,
{
    if k <= n {
        (sum_prices(p.take(n as int)) * EMA_FINE) / (n as int)
    } else {
        (2 * EMA_FINE * p[k - 1] + (n - 1) * ema_fine_at(p, n, (k - 1) as nat)) / ((n + 1) as int)
    }
}

/// Denominator of the exact moving average after the first `k` prices.
pub open spec fn ema_den(n: nat, k: nat) -> int
    decreases k,
{
    if k <= n {
        n as int
    } else {
        (n + 1) * ema_den(n, (k - 1) as nat)
    }
}

/// Numerator of the exact moving average after the first `k` prices: the
/// exact average is `ema_num / ema_den`, seeded with the simple average of
/// the first `n` prices and moved by `(2 * price + (n - 1) * ema) / (n + 1)`.
pub open spec fn ema_num(p: Seq<u64>, n: nat, k: nat) -> int
    decreases k,
{
    if k <= n {
        sum_prices(p.take(n as int))
    } else {
        2 * p[k - 1] * ema_den(n, (k - 1) as nat) + (n - 1) * ema_num(p, n, (k - 1) as nat)
    }
}

/// The moving average over all prices, rounded down to a fixed-point unit;
/// `None` when there are no prices, fewer than `n`, or `n` is zero.
pub open spec fn spec_ema(p: Seq<u64>, n: nat) -> Option<u64> {
    if n == 0 || p.len() == 0 || p.len() < n {
        None
    } else {
        Some((ema_fine_at(p, n, p.len()) / (EMA_FINE as int)) as u64)
    }
}

/// `e` is at most the exact moving average of `p` and below it by less
/// than `1 + (n + 1) / (2 * EMA_FINE)` fixed-point units.
pub open spec fn ema_close_to_exact(p: Seq<u64>, n: nat, e: int) -> bool {
    let num = ema_num(p, n, p.len());
    let den = ema_den(n, p.len());
    &&& e * den <= num
    &&& 2 * EMA_FINE * (num - e * den) < (2 * EMA_FINE + n + 1) * den
}

/// Strictly increasing opening times.
pub open spec fn open_times_increasing(s: Seq<Kline>) -> bool {
    forall|i: int, j: int| 0 <= i < j < s.len() ==> s[i].open_time < s[j].open_time
}

/// Law: after receiving a candle, the buffer ends with that candle, is
/// never empty, and never grows past `MAX_KLINES` unless it already held
/// more (in which case it does not grow); a candle that replaces the
/// newest one leaves the length of a buffer within capacity unchanged.
pub proof fn law_add_kline_keeps_newest_and_bounded(s: Seq<Kline>, k: Kline)
    requires
        s.len() > 0,
    ensures
        spec_add_kline(s, k).len() > 0,
        spec_add_kline(s, k).last() == k,
        spec_add_kline(s, k).len() <= if s.len() > MAX_KLINES { s.len() } else { MAX_KLINES as nat },
        s.len() <= MAX_KLINES && s.last().open_time == k.open_time ==> spec_add_kline(s, k).len() == s.len(),
{
}

/// Law: candles fed in order of opening time (a repeated opening time
/// replacing the newest candle) keep the buffer strictly ordered by
/// opening time.
pub proof fn law_add_kline_keeps_order(s: Seq<Kline>, k: Kline)
    requires
        s.len() > 0,
        open_times_increasing(s),
        s.last().open_time <= k.open_time,
    ensures
        open_times_increasing(spec_add_kline(s, k)),
{
    let t = if s.last().open_time == k.open_time {
        s.drop_last().push(k)
    } else {
        s.push(k)
    };
    assert(open_times_increasing(t)) by {
        assert forall|i: int, j: int| 0 <= i < j < t.len() implies t[i].open_time < t[j].open_time by {
            if j == t.len() - 1 {
                if i < s.len() - 1 {
                    assert(s[i].open_time < s[s.len() - 1].open_time);
                }
            }
        }
    }
    if t.len() > MAX_KLINES {
        let u = t.drop_first();
        assert forall|i: int, j: int| 0 <= i < j < u.len() implies u[i].open_time < u[j].open_time by {
            assert(u[i] == t[i + 1] && u[j] == t[j + 1]);
        }
    }
}

proof fn lemma_sum_take_step(p: Seq<u64>, i: int)
    requires
        0 <= i < p.len(),
    ensures
        sum_prices(p.take(i + 1)) == sum_prices(p.take(i)) + p[i],
{
    assert(p.take(i + 1).drop_last() =~= p.take(i));
}

/// `n * lo <= s <= n * hi` implies `lo <= s / n <= hi`.
pub(crate) proof fn lemma_div_between(s: int, n: int, lo: int, hi: int)
    requires
        n > 0,
        n * lo <= s <= n * hi,
    ensures
        lo <= s / n <= hi,
{
    assert(lo <= s / n) by (nonlinear_arith)
        requires
            n > 0,
            n * lo <= s,
    ;
    assert(s / n <= hi) by (nonlinear_arith)
        requires
            n > 0,
            s <= n * hi,
    ;
}

/// The sum of `k` prices within `[lo, hi]` lies within `[k * lo, k * hi]`.
proof fn lemma_sum_between(p: Seq<u64>, lo: int, hi: int)
    requires
        prices_within(p, lo, hi),
    ensures
        p.len() * lo <= sum_prices(p) <= p.len() * hi,
    decreases p.len(),
{
    if p.len() > 0 {
        let q = p.drop_last();
        assert(prices_within(q, lo, hi)) by {
            assert forall|i: int| 0 <= i < q.len() implies lo <= #[trigger] q[i] <= hi by {
                assert(q[i] == p[i]);
            }
        }
        lemma_sum_between(q, lo, hi);
        let x = p[p.len() - 1] as int;
        assert(lo <= x <= hi);
        assert(sum_prices(p) == sum_prices(q) + x);
        let m = q.len() as int;
        let s = sum_prices(q);
        assert((m + 1) * lo <= s + x <= (m + 1) * hi) by (nonlinear_arith)
            requires
                m * lo <= s <= m * hi,
                lo <= x <= hi,
        ;
    } else {
        let m = p.len() as int;
        assert(m * lo == 0 && m * hi == 0) by (nonlinear_arith)
            requires
                m == 0,
        ;
    }
}

proof fn lemma_within_take(p: Seq<u64>, k: int, lo: int, hi: int)
    requires
        prices_within(p, lo, hi),
        0 <= k <= p.len(),
    ensures
        prices_within(p.take(k), lo, hi),
{
    assert forall|i: int| 0 <= i < k implies lo <= #[trigger] p.take(k)[i] <= hi by {
        assert(p.take(k)[i] == p[i]);
    }
}

/// One smoothing step keeps a value within the bounds of its inputs.
proof fn lemma_ema_step_between(x: int, e: int, n: int, lo: int, hi: int)
    requires
        n >= 1,
        lo <= x <= hi,
        lo <= e <= hi,
    ensures
        lo <= (2 * x + (n - 1) * e) / (n + 1) <= hi,
{
    assert((n + 1) * lo <= 2 * x + (n - 1) * e <= (n + 1) * hi) by (nonlinear_arith)
        requires
            n >= 1,
            lo <= x <= hi,
            lo <= e <= hi,
    ;
    lemma_div_between(2 * x + (n - 1) * e, n + 1, lo, hi);
}

/// The moving average stays between the lowest and highest price.
pub proof fn lemma_ema_between(p: Seq<u64>, n: nat, k: nat, lo: int, hi: int)
    requires
        1 <= n <= k <= p.len(),
        prices_within(p, lo, hi),
    ensures
        EMA_FINE * lo <= ema_fine_at(p, n, k) <= EMA_FINE * hi,
    decreases k,
{
    let f = EMA_FINE as int;
    if k == n {
        let s = sum_prices(p.take(n as int));
        lemma_within_take(p, n as int, lo, hi);
        lemma_sum_between(p.take(n as int), lo, hi);
        assert(n * (f * lo) <= s * f <= n * (f * hi)) by (nonlinear_arith)
            requires
                n * lo <= s <= n * hi,
                f > 0,
        ;
        lemma_div_between(s * f, n as int, f * lo, f * hi);
    } else {
        lemma_ema_between(p, n, (k - 1) as nat, lo, hi);
        let x = p[k - 1] as int;
        assert(lo <= x <= hi);
        assert(f * lo <= f * x <= f * hi) by (nonlinear_arith)
            requires
                lo <= x <= hi,
                f > 0,
        ;
        let y = p[k - 1];
        assert(2 * EMA_FINE * y == 2 * (f * x)) by (nonlinear_arith)
            requires
                f == EMA_FINE,
                x == y,
        ;
        lemma_ema_step_between(f * x, ema_fine_at(p, n, (k - 1) as nat), n as int, f * lo, f * hi);
    }
}

/// The returned moving average lies within the price range.
proof fn lemma_ema_output_between(p: Seq<u64>, n: nat, lo: int, hi: int)
    requires
        1 <= n <= p.len(),
        prices_within(p, lo, hi),
    ensures
        spec_ema(p, n) matches Some(e) && lo <= e <= hi,
{
    let f = EMA_FINE as int;
    lemma_ema_between(p, n, p.len(), lo, hi);
    lemma_ema_between(p, n, p.len(), 0, u64::MAX as int);
    let e = ema_fine_at(p, n, p.len());
    lemma_div_between(e, f, lo, hi);
    lemma_div_between(e, f, 0, u64::MAX as int);
}

/// Rounding error of the moving average: in units of `1 / EMA_FINE`, the
/// carried value is at most the exact one and below it by less than
/// `(n + 1) / 2`.
proof fn lemma_ema_rounding(p: Seq<u64>, n: nat, k: nat)
    requires
        1 <= n <= k <= p.len(),
    ensures
        ema_den(n, k) > 0,
        ema_fine_at(p, n, k) * ema_den(n, k) - EMA_FINE * ema_num(p, n, k) <= 0,
        2 * (ema_fine_at(p, n, k) * ema_den(n, k) - EMA_FINE * ema_num(p, n, k)) > -(n + 1) * ema_den(
            n,
            k,
        ),
    decreases k,
{
    let f = EMA_FINE as int;
    if k == n {
        let s = sum_prices(p.take(n as int));
        let e = ema_fine_at(p, n, k);
        vstd::arithmetic::div_mod::lemma_fundamental_div_mod(s * f, n as int);
        let rem = (s * f) % (n as int);
        assert(s * f == n * e + rem);
        assert(0 <= rem < n);
        assert(e * n - f * s == -rem) by (nonlinear_arith)
            requires
                s * f == n * e + rem,
        ;
        assert(-(n + 1) * n <= -2 * n) by (nonlinear_arith)
            requires
                n >= 1,
        ;
    } else {
        let k1 = (k - 1) as nat;
        lemma_ema_rounding(p, n, k1);
        let e1 = ema_fine_at(p, n, k1);
        let den1 = ema_den(n, k1);
        let num1 = ema_num(p, n, k1);
        let d1 = e1 * den1 - f * num1;
        let x = p[k - 1] as int;
        let big = 2 * f * x + (n - 1) * e1;
        let e = ema_fine_at(p, n, k);
        assert(e == big / ((n + 1) as int));
        vstd::arithmetic::div_mod::lemma_fundamental_div_mod(big, (n + 1) as int);
        let th = big % ((n + 1) as int);
        assert(big == (n + 1) * e + th);
        assert(0 <= th <= n);
        let den = ema_den(n, k);
        let num = ema_num(p, n, k);
        assert(den == (n + 1) * den1);
        assert(num == 2 * x * den1 + (n - 1) * num1);
        assert(den > 0) by (nonlinear_arith)
            requires
                den == (n + 1) * den1,
                den1 > 0,
                n >= 1,
        ;
        let d = e * den - f * num;
        let a = (n + 1) * e;
        assert(a == 2 * f * x + (n - 1) * e1 - th);
        assert(e * den == a * den1) by (nonlinear_arith)
            requires
                den == (n + 1) * den1,
                a == (n + 1) * e,
        ;
        assert(a * den1 == (2 * f * x) * den1 + ((n - 1) * e1) * den1 - th * den1) by (nonlinear_arith)
            requires
                a == 2 * f * x + (n - 1) * e1 - th,
        ;
        assert(f * num == (2 * f * x) * den1 + (n - 1) * (f * num1)) by (nonlinear_arith)
            requires
                num == 2 * x * den1 + (n - 1) * num1,
        ;
        assert(((n - 1) * e1) * den1 - (n - 1) * (f * num1) == (n - 1) * d1) by (nonlinear_arith)
            requires
                d1 == e1 * den1 - f * num1,
        ;
        assert(d == (n - 1) * d1 - th * den1);
        assert(d <= 0) by (nonlinear_arith)
            requires
                d == (n - 1) * d1 - th * den1,
                d1 <= 0,
                n >= 1,
                th >= 0,
                den1 > 0,
        ;
        assert(2 * d > -(n + 1) * den) by (nonlinear_arith)
            requires
                d == (n - 1) * d1 - th * den1,
                2 * d1 > -(n + 1) * den1,
                n >= 1,
                0 <= th <= n,
                den1 > 0,
                den == (n + 1) * den1,
        ;
    }
}

/// Law: the returned moving average is at most the exact moving average of
/// the closing prices and below it by less than
/// `1 + (period + 1) / (2 * EMA_FINE)` fixed-point units.
pub proof fn law_ema_close_to_exact(data: KlineData, period: usize)
    requires
        1 <= period <= data@.len(),
    ensures
        spec_ema(closes(data@), period as nat) matches Some(e) && ema_close_to_exact(
            closes(data@),
            period as nat,
            e as int,
        ),
{
    let p = closes(data@);
    let n = period as nat;
    let f = EMA_FINE as int;
    lemma_ema_rounding(p, n, p.len());
    assert(prices_within(p, 0, u64::MAX as int));
    lemma_ema_output_between(p, n, 0, u64::MAX as int);
    let big = ema_fine_at(p, n, p.len());
    let den = ema_den(n, p.len());
    let num = ema_num(p, n, p.len());
    lemma_ema_between(p, n, p.len(), 0, u64::MAX as int);
    lemma_div_between(big, f, 0, u64::MAX as int);
    let e = big / f;
    assert(spec_ema(p, n) == Some(e as u64));
    vstd::arithmetic::div_mod::lemma_fundamental_div_mod(big, f);
    let rem = big % f;
    assert(big == f * e + rem && 0 <= rem < f);
    assert(e * den <= num) by (nonlinear_arith)
        requires
            big == f * e + rem,
            0 <= rem,
            big * den - f * num <= 0,
            den > 0,
            f > 0,
    ;
    assert(2 * f * (num - e * den) < (2 * f + n + 1) * den) by (nonlinear_arith)
        requires
            big == f * e + rem,
            rem < f,
            2 * (big * den - f * num) > -(n + 1) * den,
            den > 0,
            f > 0,
    ;
}

/// Law: the exponential moving average of a buffer lies between its lowest
/// and highest closing price.
pub proof fn law_ema_within_price_range(data: KlineData, period: usize, lo: int, hi: int)
    requires
        1 <= period <= data@.len(),
        prices_within(closes(data@), lo, hi),
    ensures
        spec_ema(closes(data@), period as nat) matches Some(e) && lo <= e <= hi,
{
    lemma_ema_output_between(closes(data@), period as nat, lo, hi);
}

/// Law: the sum of two runs of prices is the sum of their sums, and the
/// sum of one price is that price.
pub proof fn law_sum_prices_additive(p: Seq<u64>, q: Seq<u64>, x: u64)
    ensures
        sum_prices(p + q) == sum_prices(p) + sum_prices(q),
        sum_prices(seq![x]) == x,
        sum_prices(Seq::<u64>::empty()) == 0,
    decreases q.len(),
{
    let one = seq![x];
    assert(one.len() == 1 && one.last() == x);
    assert(one.drop_last() =~= Seq::<u64>::empty());
    assert(sum_prices(one) == sum_prices(one.drop_last()) + one.last());
    if q.len() == 0 {
        assert(p + q =~= p);
    } else {
        law_sum_prices_additive(p, q.drop_last(), x);
        assert((p + q).drop_last() =~= p + q.drop_last());
        assert((p + q).last() == q.last());
    }
}

/// Law: the average of a non-empty buffer is the mean closing price
/// rounded down: `average * len <= sum < (average + 1) * len`.
pub proof fn law_average_is_floor_of_mean(data: KlineData)
    requires
        data@.len() > 0,
    ensures
        spec_average(closes(data@)) matches Some(a) && a * data@.len() <= sum_prices(closes(data@)) < (a
            + 1) * data@.len(),
{
    let p = closes(data@);
    let n = p.len() as int;
    law_average_within_price_range(data, 0, u64::MAX as int);
    assert(prices_within(p, 0, u64::MAX as int));
    lemma_sum_between(p, 0, u64::MAX as int);
    let s = sum_prices(p);
    lemma_div_between(s, n, 0, u64::MAX as int);
    vstd::arithmetic::div_mod::lemma_fundamental_div_mod(s, n);
    let a = s / n;
    assert(s == n * a + s % n && 0 <= s % n < n);
    assert(a * n <= s < (a + 1) * n) by (nonlinear_arith)
        requires
            s == n * a + s % n,
            0 <= s % n < n,
    ;
}

/// Law: how receiving a candle changes the buffer, case by case (for a
/// capacity of 240 candles).  A candle with a new opening time is appended,
/// and only once the buffer is full is its oldest candle dropped; a candle
/// with the newest candle's opening time replaces that candle, and nothing
/// else is dropped unless the buffer was over capacity.
pub proof fn law_add_kline_cases(s: Seq<Kline>, k: Kline)
    requires
        s.len() > 0,
    ensures
        s.last().open_time != k.open_time && s.len() < 240 ==> spec_add_kline(s, k) == s.push(k),
        s.last().open_time != k.open_time && s.len() >= 240 ==> spec_add_kline(s, k) == s.drop_first().push(k),
        s.last().open_time == k.open_time && s.len() <= 240 ==> spec_add_kline(s, k) == s.drop_last().push(k),
        s.last().open_time == k.open_time && s.len() > 240 ==> spec_add_kline(s, k) == s.drop_last().push(
            k,
        ).drop_first(),
{
    assert(MAX_KLINES == 240);
    if s.last().open_time != k.open_time && s.len() >= 240 {
        assert(s.push(k).drop_first() =~= s.drop_first().push(k));
    }
}

/// Law: the average of a non-empty buffer lies between its lowest and
/// highest closing price.
pub proof fn law_average_within_price_range(data: KlineData, lo: int, hi: int)
    requires
        data@.len() > 0,
        prices_within(closes(data@), lo, hi),
    ensures
        spec_average(closes(data@)) matches Some(a) && lo <= a <= hi,
{
    let p = closes(data@);
    lemma_sum_between(p, lo, hi);
    lemma_div_between(sum_prices(p), p.len() as int, lo, hi);
    assert(prices_within(p, 0, u64::MAX as int));
    lemma_sum_between(p, 0, u64::MAX as int);
    lemma_div_between(sum_prices(p), p.len() as int, 0, u64::MAX as int);
}

/// `(s * f) / n` split so that no intermediate product exceeds `f` times
/// the quotient or the remainder of `s / n`.
proof fn lemma_split_div(s: int, n: int, f: int)
    requires
        n > 0,
        s >= 0,
        f >= 0,
    ensures
        (s * f) / n == f * (s / n) + (f * (s % n)) / n,
{
    vstd::arithmetic::div_mod::lemma_fundamental_div_mod(s, n);
    let q = s / n;
    let r = s % n;
    assert(0 <= f * r) by (nonlinear_arith)
        requires
            r >= 0,
            f >= 0,
    ;
    vstd::arithmetic::div_mod::lemma_fundamental_div_mod(f * r, n);
    let a = (f * r) / n;
    let b = (f * r) % n;
    assert(s * f == (f * q + a) * n + b) by (nonlinear_arith)
        requires
            s == n * q + r,
            f * r == n * a + b,
    ;
    vstd::arithmetic::div_mod::lemma_fundamental_div_mod_converse(s * f, n, f * q + a, b);
}

/// One smoothing step `(2 * t + (m - 2) * e) / m`, computed from the
/// distance between `t` and `e` so that no large product is formed.
proof fn lemma_ema_step_div(e: int, t: int, m: int)
    requires
        m >= 2,
        e >= 0,
        t >= 0,
    ensures
        t >= e ==> (2 * t + (m - 2) * e) / m == e + (2 * (t - e)) / m,
        t < e ==> (2 * t + (m - 2) * e) / m == e - (2 * (e - t) + m - 1) / m,
        t < e ==> (2 * (e - t) + m - 1) / m <= e,
{
    let big = 2 * t + (m - 2) * e;
    if t >= e {
        let d = 2 * (t - e);
        vstd::arithmetic::div_mod::lemma_fundamental_div_mod(d, m);
        let a = d / m;
        let b = d % m;
        assert(big == (e + a) * m + b) by (nonlinear_arith)
            requires
                big == 2 * t + (m - 2) * e,
                d == 2 * (t - e),
                d == m * a + b,
        ;
        vstd::arithmetic::div_mod::lemma_fundamental_div_mod_converse(big, m, e + a, b);
    } else {
        let u = 2 * (e - t);
        vstd::arithmetic::div_mod::lemma_fundamental_div_mod(u, m);
        let a = u / m;
        let b = u % m;
        assert(0 <= b < m);
        assert(a * m <= u) by (nonlinear_arith)
            requires
                u == m * a + b,
                b >= 0,
        ;
        if b == 0 {
            assert(big == (e - a) * m + 0) by (nonlinear_arith)
                requires
                    big == 2 * t + (m - 2) * e,
                    u == 2 * (e - t),
                    u == m * a + b,
                    b == 0,
            ;
            vstd::arithmetic::div_mod::lemma_fundamental_div_mod_converse(big, m, e - a, 0);
            assert(u + m - 1 == a * m + (m - 1)) by (nonlinear_arith)
                requires
                    u == m * a + b,
                    b == 0,
            ;
            vstd::arithmetic::div_mod::lemma_fundamental_div_mod_converse(u + m - 1, m, a, m - 1);
            assert(a <= e) by (nonlinear_arith)
                requires
                    a * m <= u,
                    u == 2 * (e - t),
                    t >= 0,
                    e > t,
                    m >= 2,
            ;
        } else {
            assert(big == (e - a - 1) * m + (m - b)) by (nonlinear_arith)
                requires
                    big == 2 * t + (m - 2) * e,
                    u == 2 * (e - t),
                    u == m * a + b,
            ;
            vstd::arithmetic::div_mod::lemma_fundamental_div_mod_converse(big, m, e - a - 1, m - b);
            assert(u + m - 1 == (a + 1) * m + (b - 1)) by (nonlinear_arith)
                requires
                    u == m * a + b,
            ;
            vstd::arithmetic::div_mod::lemma_fundamental_div_mod_converse(u + m - 1, m, a + 1, b - 1);
            assert(a + 1 <= e) by (nonlinear_arith)
                requires
                    m * a + b == u,
                    b >= 1,
                    u == 2 * (e - t),
                    t >= 0,
                    m >= 2,
                    e > t,
            ;
        }
    }
}

impl KlineData {
    /// An empty buffer.
    pub fn new() -> (r: KlineData)
        ensures
            r@ == Seq::<Kline>::empty(),
    {
        KlineData { kline_vec: Vec::new() }
    }

    /// Number of candles held.
    pub fn len(&self) -> (r: usize)
        ensures
            r == self@.len(),
    {
        self.kline_vec.len()
    }

    /// Receives a candle (see `spec_add_kline`).  The buffer must hold at
    /// least one candle.
    pub fn add_kline(&mut self, kline: Kline)
        requires
            old(self)@.len() > 0,
        ensures
            final(self)@ == spec_add_kline(old(self)@, kline),
    {
        let last = self.kline_vec[self.kline_vec.len() - 1];
        if kline.open_time == last.open_time {
            self.kline_vec.pop();
            self.kline_vec.push(kline);
        } else {
            self.kline_vec.push(kline);
        }
        if self.kline_vec.len() > MAX_KLINES {
            self.kline_vec.remove(0);
        }
        proof {
            let s = old(self)@;
            let t = if s.last().open_time == kline.open_time {
                s.drop_last().push(kline)
            } else {
                s.push(kline)
            };
            if t.len() > MAX_KLINES {
                assert(self@ =~= t.drop_first());
            } else {
                assert(self@ =~= t);
            }
        }
    }

    /// Replaces the buffer's contents with `klines`.
    pub fn convert_to_kline_data(&mut self, klines: Vec<Kline>)
        ensures
            final(self)@ == klines@,
    {
        self.kline_vec = klines;
    }

    /// Floor of the mean closing price; `None` for an empty buffer.
    pub fn calculate_average(&self) -> (r: Option<u64>)
        ensures
            r == spec_average(closes(self@)),
    {
        let len = self.kline_vec.len();
        if len == 0 {
            return None;
        }
        let ghost p = closes(self@);
        let mut sum: u128 = 0;
        let mut i: usize = 0;
        while i < len
            invariant
                len == self@.len(),
                p == closes(self@),
                i <= len,
                sum == sum_prices(p.take(i as int)),
                sum <= i * (u64::MAX as int),
            decreases len - i,
        {
            proof {
                lemma_sum_take_step(p, i as int);
            }
            sum = sum + self.kline_vec[i].close as u128;
            i = i + 1;
        }
        proof {
            assert(p.take(len as int) =~= p);
            law_average_within_price_range(*self, 0, u64::MAX as int);
        }
        Some((sum / len as u128) as u64)
    }

    /// Exponential moving average of the closing prices over `period`
    /// candles (see `ema_fine_at`), rounded down to a fixed-point unit and
    /// within that unit of the exact average (see `ema_close_to_exact`);
    /// `None` when the buffer is empty or shorter than `period`, or
    /// `period` is zero.
    pub fn calculate_ema(&self, period: usize) -> (r: Option<u64>)
        ensures
            r == spec_ema(closes(self@), period as nat),
            r matches Some(e) ==> ema_close_to_exact(closes(self@), period as nat, e as int),
    {
        let len = self.kline_vec.len();
        if period == 0 || len == 0 || len < period {
            return None;
        }
        let ghost p = closes(self@);
        proof {
            assert(prices_within(p, 0, u64::MAX as int));
        }
        let mut sum: u128 = 0;
        let mut i: usize = 0;
        while i < period
            invariant
                len == self@.len(),
                p == closes(self@),
                i <= period <= len,
                sum == sum_prices(p.take(i as int)),
                sum <= i * (u64::MAX as int),
            decreases period - i,
        {
            proof {
                lemma_sum_take_step(p, i as int);
            }
            sum = sum + self.kline_vec[i].close as u128;
            i = i + 1;
        }
        proof {
            lemma_split_div(sum as int, period as int, EMA_FINE as int);
            lemma_div_between(sum as int, period as int, 0, u64::MAX as int);
            let q = (sum as int) / (period as int);
            let rm = (sum as int) % (period as int);
            assert(q == sum / (period as u128));
            assert(rm == sum % (period as u128));
            assert(EMA_FINE * q <= EMA_FINE * (u64::MAX as int)) by (nonlinear_arith)
                requires
                    q <= u64::MAX,
            ;
            assert(EMA_FINE * rm <= EMA_FINE * (u64::MAX as int)) by (nonlinear_arith)
                requires
                    0 <= rm < period,
                    period <= u64::MAX,
            ;
            lemma_ema_between(p, period as nat, period as nat, 0, u64::MAX as int);
        }
        let mut ema: u128 = EMA_FINE * (sum / period as u128) + (EMA_FINE * (sum % period as u128)) / period as u128;
        let mut k: usize = period;
        while k < len
            invariant
                len == self@.len(),
                p == closes(self@),
                prices_within(p, 0, u64::MAX as int),
                1 <= period <= k <= len,
                ema == ema_fine_at(p, period as nat, k as nat),
                ema <= EMA_FINE * (u64::MAX as int),
            decreases len - k,
        {
            let price = self.kline_vec[k].close as u128;
            proof {
                assert(price == p[k as int]);
                lemma_ema_between(p, period as nat, (k + 1) as nat, 0, u64::MAX as int);
                assert(EMA_FINE * price <= EMA_FINE * (u64::MAX as int)) by (nonlinear_arith)
                    requires
                        price <= u64::MAX,
                ;
            }
            let target: u128 = EMA_FINE * price;
            let m: u128 = period as u128 + 1;
            proof {
                lemma_ema_step_div(ema as int, target as int, m as int);
                assert(2 * EMA_FINE * p[k as int] == 2 * (target as int));
                assert((m - 2) * ema == (period - 1) * ema);
            }
            if target >= ema {
                ema = ema + (2 * (target - ema)) / m;
            } else {
                ema = ema - (2 * (ema - target) + m - 1) / m;
            }
            k = k + 1;
        }
        proof {
            law_ema_close_to_exact(*self, period);
            lemma_div_between(ema as int, EMA_FINE as int, 0, u64::MAX as int);
        }
        Some((ema / EMA_FINE) as u64)
    }
}

} // verus!
