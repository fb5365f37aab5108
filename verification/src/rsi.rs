//! The Wilder-smoothed relative strength index of a candle buffer.
//!
//! The average gain and loss are carried in units of `1 / RSI_FINE`
//! fixed-point units and rounded up at each smoothing step, so that an
//! average is zero exactly when the unrounded one is.  Each returned value
//! is within a stated distance of the exact index (see
//! `rsi_close_to_exact`).
use vstd::prelude::*;
use crate::kline::{KlineData, closes, lemma_div_between};
use crate::price::{PRICE_SCALE, pow10};

verus! {

/// Internal precision of the smoothed averages, in units of `1 / RSI_FINE`
/// fixed-point units.
pub const RSI_FINE: u128 = 100_000_000_000_000_000;

/// Rise of the price from index `i - 1` to `i` (zero when it does not rise).
pub open spec fn gain(p: Seq<u64>, i: int) -> int {
    if p[i] > p[i - 1] {
        p[i] - p[i - 1]
    } else {
        0
    }
}

/// Fall of the price from index `i - 1` to `i` (zero when it rises).
pub open spec fn loss(p: Seq<u64>, i: int) -> int {
    if p[i] > p[i - 1] {
        0
    } else {
        p[i - 1] - p[i]
    }
}

pub open spec fn gain_sum(p: Seq<u64>, k: nat) -> int
    decreases k,
{
    if k == 0 {
        0
    } else {
        gain_sum(p, (k - 1) as nat) + gain(p, k as int)
    }
}

pub open spec fn loss_sum(p: Seq<u64>, k: nat) -> int
    decreases k,
{
    if k == 0 {
        0
    } else {
        loss_sum(p, (k - 1) as nat) + loss(p, k as int)
    }
}

/// `a / b` rounded up.
pub open spec fn ceil_div(a: int, b: int) -> int {
    (a + b - 1) / b
}

/// Wilder-smoothed average gain and loss after the price at index `k`, in
/// units of `1 / RSI_FINE`: the plain averages over the first `n` moves,
/// then `avg = (avg * (n - 1) + move) / n` for each later move, each step
/// rounded up.
pub open spec fn rsi_averages(p: Seq<u64>, n: nat, k: nat) -> (int, int)
    decreases k,
{
    if k <= n {
        (ceil_div(RSI_FINE * gain_sum(p, n), n as int), ceil_div(RSI_FINE * loss_sum(p, n), n as int))
    } else {
        let prev = rsi_averages(p, n, (k - 1) as nat);
        (
            ceil_div(prev.0 * (n - 1) + RSI_FINE * gain(p, k as int), n as int),
            ceil_div(prev.1 * (n - 1) + RSI_FINE * loss(p, k as int), n as int),
        )
    }
}

/// Common denominator of the exact Wilder averages after the price at
/// index `k`.
pub open spec fn rsi_den(n: nat, k: nat) -> int
    decreases k,
{
    if k <= n {
        n as int
    } else {
        n * rsi_den(n, (k - 1) as nat)
    }
}

/// Numerator of the exact average gain after the price at index `k`: the
/// average is `rsi_gain_num / rsi_den`.
pub open spec fn rsi_gain_num(p: Seq<u64>, n: nat, k: nat) -> int
    decreases k,
{
    if k <= n {
        gain_sum(p, n)
    } else {
        rsi_gain_num(p, n, (k - 1) as nat) * (n - 1) + gain(p, k as int) * rsi_den(n, (k - 1) as nat)
    }
}

/// Numerator of the exact average loss after the price at index `k`: the
/// average is `rsi_loss_num / rsi_den`.
pub open spec fn rsi_loss_num(p: Seq<u64>, n: nat, k: nat) -> int
    decreases k,
{
    if k <= n {
        loss_sum(p, n)
    } else {
        rsi_loss_num(p, n, (k - 1) as nat) * (n - 1) + loss(p, k as int) * rsi_den(n, (k - 1) as nat)
    }
}

/// `100 - 100 / (1 + gain / loss)` in fixed-point units, which is
/// `100 * gain / (gain + loss)` rounded down; 100 when there is no loss.
pub open spec fn rsi_value(avg: (int, int)) -> int {
    if avg.1 == 0 {
        100 * PRICE_SCALE
    } else {
        (100 * PRICE_SCALE * avg.0) / (avg.0 + avg.1)
    }
}

/// One RSI value for each price from index `n` on; `None` when there are
/// fewer than `n` moves (at most `n` prices) or `n` is zero.
pub open spec fn spec_rsi(p: Seq<u64>, n: nat) -> Option<Seq<u64>> {
    if n == 0 || p.len() <= n {
        None
    } else {
        Some(Seq::new((p.len() - n) as nat, |j: int| rsi_value(rsi_averages(p, n, (n + j) as nat)) as u64))
    }
}

/// `r` is close to the exact index after the price at index `k`, which is
/// `100 * g / (g + l)` for the exact numerators `g` and `l` (100 when there
/// is no loss): exactly 100 when there is no loss, and otherwise above it
/// by less than `100 * n * d / (RSI_FINE * (g + l))` and below it by less
/// than one more unit.
pub open spec fn rsi_close_to_exact(p: Seq<u64>, n: nat, k: nat, r: int) -> bool {
    let g = rsi_gain_num(p, n, k);
    let l = rsi_loss_num(p, n, k);
    let d = rsi_den(n, k);
    let c = 100 * PRICE_SCALE;
    &&& l == 0 ==> r == c
    &&& l > 0 ==> RSI_FINE * (r * (g + l) - c * g) < c * n * d
    &&& l > 0 ==> RSI_FINE * (c * g - r * (g + l)) < RSI_FINE * (g + l) + c * n * d
}

/// No price move with index in `from..=to` is a fall.
pub open spec fn no_fall_in(p: Seq<u64>, from: int, to: int) -> bool {
    forall|i: int| from <= i <= to ==> #[trigger] loss(p, i) == 0
}

/// No price move with index in `from..=to` is a rise.
pub open spec fn no_rise_in(p: Seq<u64>, from: int, to: int) -> bool {
    forall|i: int| from <= i <= to ==> #[trigger] gain(p, i) == 0
}

/// The first move that the unrounded Wilder average after the price at
/// index `k` still weighs: with a one-move period only the latest move
/// counts, otherwise every move since the start.
pub open spec fn weighed_from(n: nat, k: nat) -> int {
    if n == 1 && k > n {
        k as int
    } else {
        1
    }
}

/// The last move that the average after the price at index `k` weighs.
pub open spec fn weighed_to(n: nat, k: nat) -> int {
    if k <= n {
        n as int
    } else {
        k as int
    }
}

proof fn lemma_moves_bounded(p: Seq<u64>, i: int)
    requires
        1 <= i < p.len(),
    ensures
        0 <= gain(p, i) <= u64::MAX,
        0 <= loss(p, i) <= u64::MAX,
{
}

proof fn lemma_move_sums_bounded(p: Seq<u64>, k: nat)
    requires
        k < p.len(),
    ensures
        0 <= gain_sum(p, k) <= k * (u64::MAX as int),
        0 <= loss_sum(p, k) <= k * (u64::MAX as int),
    decreases k,
{
    if k > 0 {
        lemma_move_sums_bounded(p, (k - 1) as nat);
        lemma_moves_bounded(p, k as int);
        assert(k * (u64::MAX as int) == (k - 1) * (u64::MAX as int) + u64::MAX) by (nonlinear_arith);
    }
}

/// `n * lo <= s <= n * hi` implies `lo <= ceil(s / n) <= hi`; for a
/// non-negative `s` the rounded-up quotient is zero exactly when `s` is.
proof fn lemma_ceil_div_between(s: int, n: int, lo: int, hi: int)
    requires
        n > 0,
        n * lo <= s <= n * hi,
    ensures
        lo <= ceil_div(s, n) <= hi,
        s >= 0 ==> (ceil_div(s, n) == 0 <==> s == 0),
{
    assert(lo <= (s + n - 1) / n) by (nonlinear_arith)
        requires
            n > 0,
            n * lo <= s,
    ;
    assert((s + n - 1) / n <= hi) by (nonlinear_arith)
        requires
            n > 0,
            s <= n * hi,
    ;
    if s >= 0 {
        if s == 0 {
            assert((n - 1) / n == 0) by (nonlinear_arith)
                requires
                    n > 0,
            ;
        } else {
            assert((s + n - 1) / n >= 1) by (nonlinear_arith)
                requires
                    n > 0,
                    s >= 1,
            ;
        }
    }
}

/// Largest value a fine average can take: the largest price move.
pub open spec fn fine_max() -> int {
    RSI_FINE * (u64::MAX as int)
}

proof fn lemma_smoothing_bounded(prev: int, x: int, n: int)
    requires
        n >= 1,
        0 <= prev <= fine_max(),
        0 <= x <= u64::MAX,
    ensures
        0 <= ceil_div(prev * (n - 1) + RSI_FINE * x, n) <= fine_max(),
        0 <= prev * (n - 1) + RSI_FINE * x <= n * fine_max(),
{
    let m = fine_max();
    let f = RSI_FINE as int;
    assert(0 <= f * x <= m) by (nonlinear_arith)
        requires
            0 <= x <= u64::MAX,
            m == f * (u64::MAX as int),
            f > 0,
    ;
    assert(0 <= prev * (n - 1) + f * x <= n * m) by (nonlinear_arith)
        requires
            n >= 1,
            0 <= prev <= m,
            0 <= f * x <= m,
    ;
    assert(n * 0 == 0);
    lemma_ceil_div_between(prev * (n - 1) + f * x, n, 0, m);
}

/// The smoothed averages never exceed the largest possible price move.
proof fn lemma_rsi_averages_bounded(p: Seq<u64>, n: nat, k: nat)
    requires
        1 <= n < p.len(),
        k < p.len(),
    ensures
        0 <= rsi_averages(p, n, k).0 <= fine_max(),
        0 <= rsi_averages(p, n, k).1 <= fine_max(),
    decreases k,
{
    let f = RSI_FINE as int;
    let m = u64::MAX as int;
    if k <= n {
        lemma_move_sums_bounded(p, n);
        let g = gain_sum(p, n);
        let l = loss_sum(p, n);
        assert(0 <= f * g <= n * (f * m)) by (nonlinear_arith)
            requires
                0 <= g <= n * m,
                f > 0,
        ;
        assert(0 <= f * l <= n * (f * m)) by (nonlinear_arith)
            requires
                0 <= l <= n * m,
                f > 0,
        ;
        assert(n * 0 == 0);
        lemma_ceil_div_between(f * g, n as int, 0, fine_max());
        lemma_ceil_div_between(f * l, n as int, 0, fine_max());
    } else {
        lemma_rsi_averages_bounded(p, n, (k - 1) as nat);
        let prev = rsi_averages(p, n, (k - 1) as nat);
        lemma_moves_bounded(p, k as int);
        lemma_smoothing_bounded(prev.0, gain(p, k as int), n as int);
        lemma_smoothing_bounded(prev.1, loss(p, k as int), n as int);
    }
}

proof fn lemma_move_sums_zero(p: Seq<u64>, m: nat)
    requires
        m < p.len(),
    ensures
        loss_sum(p, m) == 0 <==> no_fall_in(p, 1, m as int),
        gain_sum(p, m) == 0 <==> no_rise_in(p, 1, m as int),
        loss_sum(p, m) >= 0,
        gain_sum(p, m) >= 0,
    decreases m,
{
    if m > 0 {
        lemma_move_sums_zero(p, (m - 1) as nat);
        lemma_moves_bounded(p, m as int);
        if no_fall_in(p, 1, m as int) {
            assert(no_fall_in(p, 1, m - 1));
            assert(loss(p, m as int) == 0);
        }
        if no_rise_in(p, 1, m as int) {
            assert(no_rise_in(p, 1, m - 1));
            assert(gain(p, m as int) == 0);
        }
        if loss_sum(p, m) == 0 {
            assert forall|i: int| 1 <= i <= m implies #[trigger] loss(p, i) == 0 by {
                if i < m {
                    assert(no_fall_in(p, 1, m - 1));
                }
            }
        }
        if gain_sum(p, m) == 0 {
            assert forall|i: int| 1 <= i <= m implies #[trigger] gain(p, i) == 0 by {
                if i < m {
                    assert(no_rise_in(p, 1, m - 1));
                }
            }
        }
    }
}

/// One rounded-up smoothing step of a non-negative average is zero exactly
/// when the average is dropped (period one) or zero, and the move is zero.
proof fn lemma_step_zero(prev: int, x: int, n: int)
    requires
        n >= 1,
        0 <= prev <= fine_max(),
        0 <= x <= u64::MAX,
    ensures
        ceil_div(prev * (n - 1) + RSI_FINE * x, n) == 0 <==> ((n == 1 || prev == 0) && x == 0),
{
    let f = RSI_FINE as int;
    lemma_smoothing_bounded(prev, x, n);
    assert(n * 0 == 0);
    lemma_ceil_div_between(prev * (n - 1) + f * x, n, 0, fine_max());
    assert(prev * (n - 1) + f * x == 0 <==> ((n == 1 || prev == 0) && x == 0)) by (nonlinear_arith)
        requires
            prev >= 0,
            n >= 1,
            x >= 0,
            f > 0,
    ;
}

/// Law: a smoothed average is zero exactly when every move it weighs is
/// zero, that is, exactly when the unrounded average is zero.  Rounding
/// never turns a loss into no loss, nor a gain into no gain.
pub proof fn law_rsi_averages_zero_exactly_when_unrounded_zero(p: Seq<u64>, n: nat, k: nat)
    requires
        1 <= n < p.len(),
        k < p.len(),
    ensures
        rsi_averages(p, n, k).1 == 0 <==> no_fall_in(p, weighed_from(n, k), weighed_to(n, k)),
        rsi_averages(p, n, k).0 == 0 <==> no_rise_in(p, weighed_from(n, k), weighed_to(n, k)),
    decreases k,
{
    let f = RSI_FINE as int;
    lemma_rsi_averages_bounded(p, n, k);
    if k <= n {
        lemma_move_sums_zero(p, n);
        lemma_move_sums_bounded(p, n);
        let g = gain_sum(p, n);
        let l = loss_sum(p, n);
        assert(f * g == 0 <==> g == 0) by (nonlinear_arith)
            requires
                f > 0,
        ;
        assert(f * l == 0 <==> l == 0) by (nonlinear_arith)
            requires
                f > 0,
        ;
        assert(0 <= f * g && 0 <= f * l) by (nonlinear_arith)
            requires
                f > 0,
                g >= 0,
                l >= 0,
        ;
        assert(f * g <= n * (f * g) && f * l <= n * (f * l)) by (nonlinear_arith)
            requires
                f > 0,
                g >= 0,
                l >= 0,
                n >= 1,
        ;
        assert(n * 0 == 0);
        lemma_ceil_div_between(f * g, n as int, 0, f * g);
        lemma_ceil_div_between(f * l, n as int, 0, f * l);
    } else {
        law_rsi_averages_zero_exactly_when_unrounded_zero(p, n, (k - 1) as nat);
        lemma_rsi_averages_bounded(p, n, (k - 1) as nat);
        let prev = rsi_averages(p, n, (k - 1) as nat);
        let g = gain(p, k as int);
        let l = loss(p, k as int);
        lemma_moves_bounded(p, k as int);
        lemma_step_zero(prev.0, g, n as int);
        lemma_step_zero(prev.1, l, n as int);
        if n > 1 {
            assert(weighed_to(n, (k - 1) as nat) == k - 1);
            if no_fall_in(p, 1, k as int) {
                assert(no_fall_in(p, 1, k - 1));
                assert(loss(p, k as int) == 0);
            }
            if no_fall_in(p, 1, k - 1) && l == 0 {
                assert forall|i: int| 1 <= i <= k implies #[trigger] loss(p, i) == 0 by {
                    if i < k {
                        assert(no_fall_in(p, 1, k - 1));
                    }
                }
            }
            if no_rise_in(p, 1, k as int) {
                assert(no_rise_in(p, 1, k - 1));
                assert(gain(p, k as int) == 0);
            }
            if no_rise_in(p, 1, k - 1) && g == 0 {
                assert forall|i: int| 1 <= i <= k implies #[trigger] gain(p, i) == 0 by {
                    if i < k {
                        assert(no_rise_in(p, 1, k - 1));
                    }
                }
            }
        } else {
            if no_fall_in(p, k as int, k as int) {
                assert(loss(p, k as int) == 0);
            }
            if no_rise_in(p, k as int, k as int) {
                assert(gain(p, k as int) == 0);
            }
        }
    }
}

/// One rounded-up step on a carried average `a` with exact numerator `g`
/// over denominator `d`: the carried average stays at or above the exact
/// one and less than `n` fine units above it.
proof fn lemma_rounding_step(a1: int, g1: int, d1: int, x: int, n: int)
    requires
        n >= 1,
        d1 > 0,
        g1 >= 0,
        0 <= x,
        a1 >= 0,
        0 <= a1 * d1 - RSI_FINE * g1 < n * d1,
    ensures
        ({
            let a = ceil_div(a1 * (n - 1) + RSI_FINE * x, n);
            let g = g1 * (n - 1) + x * d1;
            let d = n * d1;
            &&& d > 0
            &&& g >= 0
            &&& 0 <= a * d - RSI_FINE * g < n * d
        }),
{
    let f = RSI_FINE as int;
    let s = a1 * (n - 1) + f * x;
    let a = ceil_div(s, n);
    let g = g1 * (n - 1) + x * d1;
    let d = n * d1;
    assert(d > 0 && g >= 0 && s >= 0) by (nonlinear_arith)
        requires
            n >= 1,
            d1 > 0,
            g1 >= 0,
            x >= 0,
            a1 >= 0,
            f > 0,
            s == a1 * (n - 1) + f * x,
            g == g1 * (n - 1) + x * d1,
            d == n * d1,
    ;
    vstd::arithmetic::div_mod::lemma_fundamental_div_mod(s + n - 1, n);
    let rho = (s + n - 1) % n;
    assert(s + n - 1 == n * a + rho && 0 <= rho < n);
    let th = n - 1 - rho;
    assert(n * a == s + th);
    let dd1 = a1 * d1 - f * g1;
    let dd = a * d - f * g;
    assert(a * d == (n * a) * d1) by (nonlinear_arith)
        requires
            d == n * d1,
    ;
    assert((s + th) * d1 == (a1 * (n - 1)) * d1 + (f * x) * d1 + th * d1) by (nonlinear_arith)
        requires
            s == a1 * (n - 1) + f * x,
    ;
    assert(f * g == (n - 1) * (f * g1) + (f * x) * d1) by (nonlinear_arith)
        requires
            g == g1 * (n - 1) + x * d1,
    ;
    assert((a1 * (n - 1)) * d1 - (n - 1) * (f * g1) == (n - 1) * dd1) by (nonlinear_arith)
        requires
            dd1 == a1 * d1 - f * g1,
    ;
    assert(dd == (n - 1) * dd1 + th * d1);
    assert(0 <= dd < n * d) by (nonlinear_arith)
        requires
            dd == (n - 1) * dd1 + th * d1,
            0 <= dd1 < n * d1,
            0 <= th <= n - 1,
            n >= 1,
            d1 > 0,
            d == n * d1,
    ;
}

/// Rounding error of the smoothed averages: each carried average is at or
/// above the exact one and less than `n` fine units above it; each is zero
/// exactly when its exact numerator is.
proof fn lemma_rsi_rounding(p: Seq<u64>, n: nat, k: nat)
    requires
        1 <= n < p.len(),
        k < p.len(),
    ensures
        rsi_den(n, k) > 0,
        rsi_gain_num(p, n, k) >= 0,
        rsi_loss_num(p, n, k) >= 0,
        0 <= rsi_averages(p, n, k).0 * rsi_den(n, k) - RSI_FINE * rsi_gain_num(p, n, k) < n * rsi_den(
            n,
            k,
        ),
        0 <= rsi_averages(p, n, k).1 * rsi_den(n, k) - RSI_FINE * rsi_loss_num(p, n, k) < n * rsi_den(
            n,
            k,
        ),
        rsi_averages(p, n, k).0 == 0 <==> rsi_gain_num(p, n, k) == 0,
        rsi_averages(p, n, k).1 == 0 <==> rsi_loss_num(p, n, k) == 0,
    decreases k,
{
    let f = RSI_FINE as int;
    lemma_rsi_averages_bounded(p, n, k);
    if k <= n {
        lemma_move_sums_bounded(p, n);
        let g = gain_sum(p, n);
        let l = loss_sum(p, n);
        let a = rsi_averages(p, n, k).0;
        let b = rsi_averages(p, n, k).1;
        assert(f * g >= 0 && f * l >= 0) by (nonlinear_arith)
            requires
                f > 0,
                g >= 0,
                l >= 0,
        ;
        vstd::arithmetic::div_mod::lemma_fundamental_div_mod(f * g + n - 1, n as int);
        vstd::arithmetic::div_mod::lemma_fundamental_div_mod(f * l + n - 1, n as int);
        assert(0 <= a * n - f * g < n * n) by (nonlinear_arith)
            requires
                f * g + n - 1 == n * a + (f * g + n - 1) % (n as int),
                0 <= (f * g + n - 1) % (n as int) < n,
                n >= 1,
        ;
        assert(0 <= b * n - f * l < n * n) by (nonlinear_arith)
            requires
                f * l + n - 1 == n * b + (f * l + n - 1) % (n as int),
                0 <= (f * l + n - 1) % (n as int) < n,
                n >= 1,
        ;
        assert(f * g == 0 <==> g == 0) by (nonlinear_arith)
            requires
                f > 0,
        ;
        assert(f * l == 0 <==> l == 0) by (nonlinear_arith)
            requires
                f > 0,
        ;
        assert(f * g <= n * (f * g) && f * l <= n * (f * l)) by (nonlinear_arith)
            requires
                f > 0,
                g >= 0,
                l >= 0,
                n >= 1,
        ;
        assert(n * 0 == 0);
        lemma_ceil_div_between(f * g, n as int, 0, f * g);
        lemma_ceil_div_between(f * l, n as int, 0, f * l);
    } else {
        let k1 = (k - 1) as nat;
        lemma_rsi_rounding(p, n, k1);
        lemma_rsi_averages_bounded(p, n, k1);
        lemma_moves_bounded(p, k as int);
        let prev = rsi_averages(p, n, k1);
        let d1 = rsi_den(n, k1);
        let g1 = rsi_gain_num(p, n, k1);
        let l1 = rsi_loss_num(p, n, k1);
        let x = gain(p, k as int);
        let y = loss(p, k as int);
        lemma_rounding_step(prev.0, g1, d1, x, n as int);
        lemma_rounding_step(prev.1, l1, d1, y, n as int);
        lemma_step_zero(prev.0, x, n as int);
        lemma_step_zero(prev.1, y, n as int);
        assert(g1 * (n - 1) + x * d1 == 0 <==> ((n == 1 || g1 == 0) && x == 0)) by (nonlinear_arith)
            requires
                g1 >= 0,
                x >= 0,
                d1 > 0,
                n >= 1,
        ;
        assert(l1 * (n - 1) + y * d1 == 0 <==> ((n == 1 || l1 == 0) && y == 0)) by (nonlinear_arith)
            requires
                l1 >= 0,
                y >= 0,
                d1 > 0,
                n >= 1,
        ;
    }
}

/// The index computed from carried averages `a` and `b` is close to the
/// exact one `c * g / (g + l)` when the averages are close to `g / d` and
/// `l / d`.
proof fn lemma_rsi_value_close(a: int, b: int, g: int, l: int, d: int, n: int)
    requires
        n >= 1,
        d > 0,
        g >= 0,
        l > 0,
        0 <= a * d - RSI_FINE * g < n * d,
        0 <= b * d - RSI_FINE * l < n * d,
        a >= 0,
    ensures
        ({
            let c = 100 * PRICE_SCALE;
            let r = rsi_value((a, b));
            &&& RSI_FINE * (r * (g + l) - c * g) < c * n * d
            &&& RSI_FINE * (c * g - r * (g + l)) < RSI_FINE * (g + l) + c * n * d
        }),
{
    let f = RSI_FINE as int;
    let c = 100 * PRICE_SCALE as int;
    let t = g + l;
    let d1 = a * d - f * g;
    let d2 = b * d - f * l;
    assert(b > 0) by (nonlinear_arith)
        requires
            b * d - f * l >= 0,
            f > 0,
            l > 0,
            d > 0,
    ;
    let s = a + b;
    let r = (c * a) / s;
    assert(rsi_value((a, b)) == r);
    vstd::arithmetic::div_mod::lemma_fundamental_div_mod(c * a, s);
    let rem = (c * a) % s;
    assert(c * a == s * r + rem && 0 <= rem < s);
    // the carried sum is at least the exact sum
    assert(f * t <= s * d) by (nonlinear_arith)
        requires
            d1 == a * d - f * g,
            d2 == b * d - f * l,
            d1 >= 0,
            d2 >= 0,
            t == g + l,
            s == a + b,
    ;
    // cross terms
    assert((a * l - g * b) * d == l * d1 - g * d2) by (nonlinear_arith)
        requires
            d1 == a * d - f * g,
            d2 == b * d - f * l,
    ;
    assert(a * l - g * b < l * n) by (nonlinear_arith)
        requires
            (a * l - g * b) * d == l * d1 - g * d2,
            d1 < n * d,
            d2 >= 0,
            g >= 0,
            l > 0,
            d > 0,
    ;
    assert(g * b - a * l <= g * n) by (nonlinear_arith)
        requires
            (a * l - g * b) * d == l * d1 - g * d2,
            d2 < n * d,
            d1 >= 0,
            g >= 0,
            l > 0,
            d > 0,
    ;
    // upper side
    let x = r * t - c * g;
    lemma_cross_identities(r, g, l, c, a, b);
    assert(c * a - r * (a + b) == rem) by (nonlinear_arith)
        requires
            c * a == s * r + rem,
            s == a + b,
    ;
    assert(x * s == c * (a * l - g * b) - t * rem);
    assert(t * rem >= 0) by (nonlinear_arith)
        requires
            t >= 0,
            rem >= 0,
    ;
    assert(x * s <= c * (a * l - g * b));
    if x > 0 {
        assert(x * s < c * l * n) by (nonlinear_arith)
            requires
                x * s <= c * (a * l - g * b),
                a * l - g * b < l * n,
                c > 0,
        ;
        assert(x * (f * t) < c * t * n * d) by (nonlinear_arith)
            requires
                x * s < c * l * n,
                f * t <= s * d,
                x > 0,
                d > 0,
                l <= t,
                c > 0,
                n >= 1,
        ;
        assert(f * x < c * n * d) by (nonlinear_arith)
            requires
                x * (f * t) < c * t * n * d,
                t > 0,
        ;
    } else {
        assert(f * x <= 0) by (nonlinear_arith)
            requires
                x <= 0,
                f > 0,
        ;
        assert(c * n * d > 0) by (nonlinear_arith)
            requires
                c > 0,
                n >= 1,
                d > 0,
        ;
    }
    // lower side
    let y = c * g - r * t;
    assert(y * s == c * (g * b - a * l) + t * rem);
    assert(t * rem < s * t) by (nonlinear_arith)
        requires
            rem < s,
            t > 0,
    ;
    if y > t {
        assert((y - t) * s < c * g * n) by (nonlinear_arith)
            requires
                y * s < c * (g * b - a * l) + s * t,
                g * b - a * l <= g * n,
                c > 0,
        ;
        assert((y - t) * (f * t) < c * t * n * d) by (nonlinear_arith)
            requires
                (y - t) * s < c * g * n,
                f * t <= s * d,
                y - t > 0,
                d > 0,
                g <= t,
                g >= 0,
                c > 0,
                n >= 1,
        ;
        assert(f * (y - t) < c * n * d) by (nonlinear_arith)
            requires
                (y - t) * (f * t) < c * t * n * d,
                t > 0,
        ;
    } else {
        assert(f * y <= f * t) by (nonlinear_arith)
            requires
                y <= t,
                f > 0,
        ;
        assert(c * n * d > 0) by (nonlinear_arith)
            requires
                c > 0,
                n >= 1,
                d > 0,
        ;
    }
}

proof fn lemma_mul_sub_left(u: int, v: int, w: int)
    by (nonlinear_arith)
    ensures
        (u - v) * w == u * w - v * w,
{
}

proof fn lemma_mul_add_right(w: int, u: int, v: int)
    by (nonlinear_arith)
    ensures
        w * (u + v) == w * u + w * v,
{
}

proof fn lemma_mul_swap3(x: int, y: int, z: int)
    by (nonlinear_arith)
    ensures
        (x * y) * z == y * (z * x),
        (x * y) * z == x * (y * z),
        x * (y * z) == y * (x * z),
{
}

proof fn lemma_cross_identities(r: int, g: int, l: int, c: int, a: int, b: int)
    ensures
        (r * (g + l) - c * g) * (a + b) == c * (a * l - g * b) - (g + l) * (c * a - r * (a + b)),
        (c * g - r * (g + l)) * (a + b) == c * (g * b - a * l) + (g + l) * (c * a - r * (a + b)),
{
    let t = g + l;
    let s = a + b;
    // (r t - c g) s = r t s - c g s
    lemma_mul_sub_left(r * t, c * g, s);
    lemma_mul_sub_left(c * g, r * t, s);
    // r t s = t (s r) = t (r s)
    lemma_mul_swap3(r, t, s);
    lemma_mul_swap3(t, r, s);
    // c g s = c g a + c g b
    lemma_mul_add_right(c * g, a, b);
    // t (c a - r s) = t (c a) - t (r s)
    lemma_mul_add_right(t, c * a, -(r * s));
    assert(t * (c * a - r * s) == t * (c * a) - t * (r * s)) by {
        lemma_mul_sub_left(c * a, r * s, t);
        lemma_mul_swap3(t, 1, c * a - r * s);
        assert(t * (c * a - r * s) == (c * a - r * s) * t) by {
            lemma_mul_swap3(1, t, c * a - r * s);
        }
        assert(t * (c * a) == (c * a) * t) by {
            lemma_mul_swap3(1, t, c * a);
        }
        assert(t * (r * s) == (r * s) * t) by {
            lemma_mul_swap3(1, t, r * s);
        }
    }
    // t (c a) = c a g + c a l
    lemma_mul_swap3(c, a, t);
    lemma_mul_add_right(c * a, g, l);
    // c (a l - g b) = c (a l) - c (g b)
    lemma_mul_add_right(c, a * l, -(g * b));
    lemma_mul_add_right(c, g * b, -(a * l));
    // monomials in a common form
    lemma_mul_swap3(c, g, a);
    lemma_mul_swap3(c, g, b);
    lemma_mul_swap3(c, a, g);
    lemma_mul_swap3(c, a, l);
    assert(c * (a * g) == c * (g * a)) by {
        lemma_mul_swap3(1, a, g);
    }
    assert(-(c * (g * b)) == c * -(g * b)) by (nonlinear_arith);
    assert(-(c * (a * l)) == c * -(a * l)) by (nonlinear_arith);
}

proof fn lemma_rsi_value_bounded(avg: (int, int))
    requires
        0 <= avg.0,
        0 <= avg.1,
    ensures
        0 <= rsi_value(avg) <= 100 * PRICE_SCALE,
{
    if avg.1 != 0 {
        let a = 100 * PRICE_SCALE as int;
        let g = avg.0;
        let l = avg.1;
        assert(0 <= a * g <= a * (g + l)) by (nonlinear_arith)
            requires
                a >= 0,
                g >= 0,
                l > 0,
        ;
        lemma_div_between(a * g, g + l, 0, a);
    }
}

/// Law: with no fall among the moves an RSI value weighs it is 100; with
/// no rise among them but some fall it is 0.
pub proof fn law_rsi_extremes(p: Seq<u64>, n: nat, k: nat)
    requires
        1 <= n < p.len(),
        k < p.len(),
    ensures
        no_fall_in(p, weighed_from(n, k), weighed_to(n, k)) ==> rsi_value(rsi_averages(p, n, k))
            == 10_000_000_000,
        no_rise_in(p, weighed_from(n, k), weighed_to(n, k)) && !no_fall_in(
            p,
            weighed_from(n, k),
            weighed_to(n, k),
        ) ==> rsi_value(rsi_averages(p, n, k)) == 0,
{
    law_rsi_averages_zero_exactly_when_unrounded_zero(p, n, k);
    lemma_rsi_averages_bounded(p, n, k);
    assert(PRICE_SCALE == 100_000_000);
}

/// Law: every RSI value lies between 0 and 100 (in fixed-point units).
pub proof fn law_rsi_within_percent_range(data: KlineData, period: usize)
    requires
        1 <= period < data@.len(),
    ensures
        spec_rsi(closes(data@), period as nat) matches Some(v) && forall|j: int|
            0 <= j < v.len() ==> 0 <= #[trigger] v[j] <= 100 * PRICE_SCALE,
{
    let p = closes(data@);
    let n = period as nat;
    assert forall|j: int| 0 <= j < p.len() - n implies 0 <= #[trigger] rsi_value(
        rsi_averages(p, n, (n + j) as nat),
    ) <= 100 * PRICE_SCALE by {
        lemma_rsi_averages_bounded(p, n, (n + j) as nat);
        lemma_rsi_value_bounded(rsi_averages(p, n, (n + j) as nat));
    }
}

/// Law: every RSI value is close to the exact index over the same prices
/// (see `rsi_close_to_exact`).
pub proof fn law_rsi_close_to_exact(data: KlineData, period: usize)
    requires
        1 <= period < data@.len(),
    ensures
        spec_rsi(closes(data@), period as nat) matches Some(v) && forall|j: int|
            0 <= j < v.len() ==> rsi_close_to_exact(
                closes(data@),
                period as nat,
                (period + j) as nat,
                #[trigger] v[j] as int,
            ),
{
    let p = closes(data@);
    let n = period as nat;
    assert forall|j: int| 0 <= j < p.len() - n implies rsi_close_to_exact(
        p,
        n,
        (n + j) as nat,
        #[trigger] (rsi_value(rsi_averages(p, n, (n + j) as nat)) as u64) as int,
    ) by {
        let k = (n + j) as nat;
        let avg = rsi_averages(p, n, k);
        lemma_rsi_averages_bounded(p, n, k);
        lemma_rsi_value_bounded(avg);
        lemma_rsi_rounding(p, n, k);
        if rsi_loss_num(p, n, k) > 0 {
            lemma_rsi_value_close(
                avg.0,
                avg.1,
                rsi_gain_num(p, n, k),
                rsi_loss_num(p, n, k),
                rsi_den(n, k),
                n as int,
            );
        }
    }
}

/// `ceil(f * s / n)` split so that no intermediate product exceeds `f`
/// times the quotient or the remainder of `s / n`.
proof fn lemma_split_ceil_div(s: int, n: int, f: int)
    requires
        n > 0,
        s >= 0,
        f >= 0,
    ensures
        ceil_div(f * s, n) == f * (s / n) + ceil_div(f * (s % n), n),
{
    vstd::arithmetic::div_mod::lemma_fundamental_div_mod(s, n);
    let q = s / n;
    let r = s % n;
    assert(0 <= f * r) by (nonlinear_arith)
        requires
            r >= 0,
            f >= 0,
    ;
    vstd::arithmetic::div_mod::lemma_fundamental_div_mod(f * r + n - 1, n);
    let a = (f * r + n - 1) / n;
    let b = (f * r + n - 1) % n;
    assert(f * s + n - 1 == (f * q + a) * n + b) by (nonlinear_arith)
        requires
            s == n * q + r,
            f * r + n - 1 == n * a + b,
    ;
    vstd::arithmetic::div_mod::lemma_fundamental_div_mod_converse(f * s + n - 1, n, f * q + a, b);
}

/// One rounded-up smoothing step `ceil((a * (n - 1) + x) / n)`, computed
/// from the distance between `x` and `a` so that no large product is
/// formed.
proof fn lemma_wilder_step_div(a: int, x: int, n: int)
    requires
        n >= 1,
        a >= 0,
        x >= 0,
    ensures
        x >= a ==> ceil_div(a * (n - 1) + x, n) == a + (x - a + n - 1) / n,
        x < a ==> ceil_div(a * (n - 1) + x, n) == a - (a - x) / n,
        x < a ==> (a - x) / n <= a,
{
    let big = a * (n - 1) + x + n - 1;
    if x >= a {
        let u = x - a + n - 1;
        vstd::arithmetic::div_mod::lemma_fundamental_div_mod(u, n);
        let q = u / n;
        let b = u % n;
        assert(big == (a + q) * n + b) by (nonlinear_arith)
            requires
                big == a * (n - 1) + x + n - 1,
                u == x - a + n - 1,
                u == n * q + b,
        ;
        vstd::arithmetic::div_mod::lemma_fundamental_div_mod_converse(big, n, a + q, b);
    } else {
        let u = a - x;
        vstd::arithmetic::div_mod::lemma_fundamental_div_mod(u, n);
        let q = u / n;
        let b = u % n;
        assert(big == (a - q) * n + (n - 1 - b)) by (nonlinear_arith)
            requires
                big == a * (n - 1) + x + n - 1,
                u == a - x,
                u == n * q + b,
        ;
        vstd::arithmetic::div_mod::lemma_fundamental_div_mod_converse(big, n, a - q, n - 1 - b);
        assert(q <= a) by (nonlinear_arith)
            requires
                u == n * q + b,
                0 <= b < n,
                0 <= u <= a,
                n >= 1,
        ;
    }
}

/// `floor(100 * PRICE_SCALE * a / d)`, by long division one decimal digit
/// at a time so that no product exceeds ten times `d`.
fn scaled_ratio(a: u128, d: u128) -> (q: u64)
    requires
        0 < d <= u128::MAX / 10,
        a <= d,
    ensures
        q == (100 * PRICE_SCALE * a) / (d as int),
{
    let mut q: u128 = 0;
    let mut r: u128 = a;
    let mut i: usize = 0;
    proof {
        assert(pow10(0) == 1);
        assert(a == a * pow10(0));
    }
    while i < 10
        invariant
            0 < d <= u128::MAX / 10,
            a <= d,
            i <= 10,
            q * d + r == a * pow10(i as nat),
            0 <= r <= d,
            i > 0 ==> r < d,
            q <= pow10(i as nat),
        decreases 10 - i,
    {
        let r10 = r * 10;
        let digit = r10 / d;
        let rest = r10 % d;
        proof {
            assert(pow10((i + 1) as nat) == 10 * pow10(i as nat));
            vstd::arithmetic::div_mod::lemma_fundamental_div_mod(r10 as int, d as int);
            assert(r10 == d * digit + rest && 0 <= rest < d);
            assert(digit <= 10) by (nonlinear_arith)
                requires
                    r10 == d * digit + rest,
                    rest >= 0,
                    r10 == r * 10,
                    r <= d,
                    d > 0,
            ;
            assert((10 * q + digit) * d + rest == a * pow10((i + 1) as nat)) by (nonlinear_arith)
                requires
                    q * d + r == a * pow10(i as nat),
                    r10 == r * 10,
                    r10 == d * digit + rest,
                    pow10((i + 1) as nat) == 10 * pow10(i as nat),
            ;
            assert(10 * q + digit <= pow10((i + 1) as nat)) by (nonlinear_arith)
                requires
                    (10 * q + digit) * d + rest == a * pow10((i + 1) as nat),
                    rest >= 0,
                    a <= d,
                    d > 0,
                    pow10((i + 1) as nat) >= 0,
            ;
            reveal_with_fuel(pow10, 11);
            assert(pow10(10) == 10_000_000_000);
            assert(pow10((i + 1) as nat) <= pow10(10)) by {
                lemma_pow10_monotone((i + 1) as nat, 10);
            }
        }
        q = 10 * q + digit;
        r = rest;
        i = i + 1;
    }
    proof {
        reveal_with_fuel(pow10, 11);
        assert(pow10(10) == 10_000_000_000);
        assert(100 * PRICE_SCALE == 10_000_000_000);
        let p10 = pow10(10);
        assert(a * p10 == 100 * PRICE_SCALE * a) by (nonlinear_arith)
            requires
                p10 == 10_000_000_000,
        ;
        vstd::arithmetic::div_mod::lemma_fundamental_div_mod_converse(
            100 * PRICE_SCALE * a,
            d as int,
            q as int,
            r as int,
        );
    }
    q as u64
}

proof fn lemma_pow10_monotone(i: nat, j: nat)
    requires
        i <= j,
    ensures
        0 < pow10(i) <= pow10(j),
    decreases j,
{
    if j > i {
        lemma_pow10_monotone(i, (j - 1) as nat);
    } else if i > 0 {
        lemma_pow10_monotone((i - 1) as nat, (i - 1) as nat);
    }
}

/// `rsi_value` of two carried averages.
fn rsi_of(avg_gain: u128, avg_loss: u128) -> (r: u64)
    requires
        avg_gain <= fine_max(),
        avg_loss <= fine_max(),
    ensures
        r == rsi_value((avg_gain as int, avg_loss as int)),
{
    proof {
        lemma_rsi_value_bounded((avg_gain as int, avg_loss as int));
    }
    if avg_loss == 0 {
        100 * PRICE_SCALE
    } else {
        scaled_ratio(avg_gain, avg_gain + avg_loss)
    }
}

/// The first carried average: `ceil(RSI_FINE * sum / n)`.
fn first_average(sum: u128, n: u128) -> (r: u128)
    requires
        n > 0,
        sum <= n * (u64::MAX as int),
        n <= u64::MAX,
    ensures
        r == ceil_div(RSI_FINE * sum, n as int),
{
    let q = sum / n;
    let rem = sum % n;
    proof {
        lemma_split_ceil_div(sum as int, n as int, RSI_FINE as int);
        lemma_div_between(sum as int, n as int, 0, u64::MAX as int);
        assert(RSI_FINE * q <= RSI_FINE * (u64::MAX as int)) by (nonlinear_arith)
            requires
                q <= u64::MAX,
        ;
        assert(RSI_FINE * rem <= RSI_FINE * (u64::MAX as int)) by (nonlinear_arith)
            requires
                rem < n,
                n <= u64::MAX,
        ;
    }
    RSI_FINE * q + (RSI_FINE * rem + n - 1) / n
}

/// One carried smoothing step: `ceil((a * (n - 1) + RSI_FINE * x) / n)`.
fn wilder_step(a: u128, x: u64, n: u128) -> (r: u128)
    requires
        1 <= n <= u64::MAX,
        a <= fine_max(),
    ensures
        r == ceil_div(a * (n - 1) + RSI_FINE * x, n as int),
        r <= fine_max(),
{
    proof {
        assert(RSI_FINE * x <= fine_max()) by (nonlinear_arith)
            requires
                x <= u64::MAX,
        ;
        lemma_wilder_step_div(a as int, (RSI_FINE * x) as int, n as int);
        lemma_smoothing_bounded(a as int, x as int, n as int);
    }
    let t: u128 = RSI_FINE * x as u128;
    if t >= a {
        a + (t - a + n - 1) / n
    } else {
        a - (a - t) / n
    }
}

impl KlineData {
    /// Relative strength index of the closing prices over `period` moves,
    /// one value per candle from index `period` on (see `rsi_averages` and
    /// `rsi_value`), each close to the exact index (see
    /// `rsi_close_to_exact`); `None` when there is too little data (at most
    /// `period` candles) or `period` is zero.
    pub fn calculate_rsi(&self, period: usize) -> (r: Option<Vec<u64>>)
        ensures
            match r {
                Some(v) => spec_rsi(closes(self@), period as nat) == Some(v@),
                None => spec_rsi(closes(self@), period as nat) is None,
            },
            r matches Some(v) ==> forall|j: int|
                0 <= j < v.len() ==> rsi_close_to_exact(
                    closes(self@),
                    period as nat,
                    (period + j) as nat,
                    #[trigger] v@[j] as int,
                ),
    {
        let len = self.kline_vec.len();
        if period == 0 || len <= period {
            return None;
        }
        let ghost p = closes(self@);
        let ghost n = period as nat;
        let mut gains: u128 = 0;
        let mut losses: u128 = 0;
        let mut i: usize = 1;
        while i <= period
            invariant
                len == self@.len(),
                p == closes(self@),
                n == period,
                1 <= i <= period + 1,
                period < len,
                gains == gain_sum(p, (i - 1) as nat),
                losses == loss_sum(p, (i - 1) as nat),
            decreases period + 1 - i,
        {
            proof {
                lemma_move_sums_bounded(p, i as nat);
                let m = u64::MAX as int;
                assert(i * m <= usize::MAX * m) by (nonlinear_arith)
                    requires
                        0 <= i <= usize::MAX,
                        m > 0,
                ;
                assert(usize::MAX * m <= m * m) by (nonlinear_arith)
                    requires
                        usize::MAX <= m,
                        m > 0,
                ;
            }
            let cur = self.kline_vec[i].close;
            let prev = self.kline_vec[i - 1].close;
            if cur > prev {
                gains = gains + (cur - prev) as u128;
            } else {
                losses = losses + (prev - cur) as u128;
            }
            i = i + 1;
        }
        proof {
            lemma_move_sums_bounded(p, n);
            lemma_rsi_averages_bounded(p, n, n);
        }
        let mut avg_gain: u128 = first_average(gains, period as u128);
        let mut avg_loss: u128 = first_average(losses, period as u128);
        let mut rsi_values: Vec<u64> = Vec::new();
        rsi_values.push(rsi_of(avg_gain, avg_loss));
        let mut k: usize = period + 1;
        while k < len
            invariant
                len == self@.len(),
                p == closes(self@),
                n == period,
                1 <= period < k <= len,
                (avg_gain as int, avg_loss as int) == rsi_averages(p, n, (k - 1) as nat),
                avg_gain <= fine_max(),
                avg_loss <= fine_max(),
                rsi_values@.len() == k - period,
                forall|j: int|
                    0 <= j < k - period ==> #[trigger] rsi_values@[j] == rsi_value(
                        rsi_averages(p, n, (n + j) as nat),
                    ) as u64,
            decreases len - k,
        {
            let cur = self.kline_vec[k].close;
            let prev = self.kline_vec[k - 1].close;
            let mut up: u64 = 0;
            let mut down: u64 = 0;
            if cur > prev {
                up = cur - prev;
            } else {
                down = prev - cur;
            }
            proof {
                lemma_moves_bounded(p, k as int);
            }
            avg_gain = wilder_step(avg_gain, up, period as u128);
            avg_loss = wilder_step(avg_loss, down, period as u128);
            rsi_values.push(rsi_of(avg_gain, avg_loss));
            proof {
                assert(rsi_values@[k - period] == rsi_value(rsi_averages(p, n, (n + (k - period)) as nat)) as u64);
            }
            k = k + 1;
        }
        proof {
            assert(rsi_values@ =~= Seq::new((p.len() - n) as nat, |j: int| rsi_value(rsi_averages(p, n, (n + j) as nat)) as u64));
            law_rsi_close_to_exact(*self, period);
            let v = spec_rsi(p, n)->0;
            assert(v == rsi_values@);
            assert forall|j: int| 0 <= j < rsi_values@.len() implies rsi_close_to_exact(
                p,
                n,
                (period + j) as nat,
                #[trigger] rsi_values@[j] as int,
            ) by {
                assert(rsi_values@[j] == v[j]);
            }
        }
        Some(rsi_values)
    }
}

} // verus!
