//! Trading strategies driven one price at a time, and a back-test that
//! feeds them.
use vstd::prelude::*;
use crate::backtest::{BacktestResult, Position};

verus! {

/// The text of a signal.
pub open spec fn signal_text(s: Option<String>) -> Option<Seq<char>> {
    match s {
        Some(t) => Some(t@),
        None => None,
    }
}

/// A strategy that reacts to each new price with an optional trading
/// signal and keeps a back-test record of its trades.
pub trait TradingStrategy {
    /// The strategy's back-test record.
    spec fn spec_result(&self) -> BacktestResult;

    /// `update(price)` can run without exceeding the machine types.
    spec fn update_allowed(&self, price: u64) -> bool;

    /// The back-test record and the signal text that `update(price)`
    /// produces from this state.
    spec fn spec_step(&self, price: u64) -> (BacktestResult, Option<Seq<char>>);

    /// Feeds one price; returns the trading signal, if any.
    fn update(&mut self, price: u64) -> (signal: Option<String>)
        requires
            old(self).update_allowed(price),
        ensures
            (final(self).spec_result(), signal_text(signal)) == old(self).spec_step(price),
    ;

    /// The back-test record.
    fn get_backtest_result(&self) -> (r: &BacktestResult)
        ensures
            *r == self.spec_result(),
    ;
}

/// A strategy that buys when the price falls to `lower_bound` and sells
/// the position when the price rises to `upper_bound`.
pub struct RangeStrategy {
    lower_bound: u64,
    upper_bound: u64,
    result: BacktestResult,
}

impl View for RangeStrategy {
    /// `(lower_bound, upper_bound, result)`
    type V = (u64, u64, BacktestResult);

    closed spec fn view(&self) -> (u64, u64, BacktestResult) {
        (self.lower_bound, self.upper_bound, self.result)
    }
}

/// The range strategy sells at `price`: a position is held and the price
/// has reached the upper bound.
pub open spec fn range_sells_on(upper: u64, r: BacktestResult, price: u64) -> bool {
    r.position is Some && price >= upper
}

/// One step of the range strategy on `price`: when flat and the price is at
/// or below the lower bound, open a long position at that price and signal
/// `"buy"`; when long and the price is at or above the upper bound, close
/// the position there and signal `"sell"`; otherwise nothing changes.
pub open spec fn spec_range_step(
    lower: u64,
    upper: u64,
    r: BacktestResult,
    price: u64,
) -> (BacktestResult, Option<Seq<char>>) {
    match r.position {
        None => if price <= lower {
            (r.spec_open(price), Some("buy"@))
        } else {
            (r, None)
        },
        Some(Position::Long) => if price >= upper {
            (r.spec_close(price), Some("sell"@))
        } else {
            (r, None)
        },
    }
}

impl RangeStrategy {
    /// A strategy trading the range `[lower_bound, upper_bound]` with a
    /// fresh back-test record.
    pub fn new(lower_bound: u64, upper_bound: u64) -> (r: RangeStrategy)
        ensures
            r@.0 == lower_bound,
            r@.1 == upper_bound,
            r@.2 == BacktestResult::new_spec(),
    {
        RangeStrategy { lower_bound, upper_bound, result: BacktestResult::new() }
    }

    /// Records the trade closed at `exit_price`, if a position is open; the
    /// position itself is left to the caller.
    fn update_trade_stats(&mut self, exit_price: u64)
        requires
            old(self).result.position is Some ==> old(self).result.can_close_at(exit_price),
        ensures
            final(self).lower_bound == old(self).lower_bound,
            final(self).upper_bound == old(self).upper_bound,
            final(self).result == (match old(self).result.position {
                Some(_) => old(self).result.spec_record_trade(exit_price),
                None => old(self).result,
            }),
    {
        if let Some(_) = self.result.position {
            self.result.record_trade(exit_price);
        }
    }
}

impl TradingStrategy for RangeStrategy {
    open spec fn spec_result(&self) -> BacktestResult {
        self@.2
    }

    open spec fn update_allowed(&self, price: u64) -> bool {
        range_sells_on(self@.1, self@.2, price) ==> self@.2.can_close_at(price)
    }

    open spec fn spec_step(&self, price: u64) -> (BacktestResult, Option<Seq<char>>) {
        spec_range_step(self@.0, self@.1, self@.2, price)
    }

    fn update(&mut self, price: u64) -> (signal: Option<String>)
        ensures
            final(self)@.0 == old(self)@.0,
            final(self)@.1 == old(self)@.1,
            (final(self)@.2, signal_text(signal)) == spec_range_step(old(self)@.0, old(self)@.1, old(self)@.2, price),
            old(self)@.2.wf() ==> final(self)@.2.wf(),
    {
        broadcast use vstd::string::group_string_axioms;
        let signal = match self.result.position {
            None => {
                if price <= self.lower_bound {
                    self.result.position = Some(Position::Long);
                    self.result.entry_price = price;
                    Some("buy".to_string())
                } else {
                    None
                }
            },
            Some(Position::Long) => {
                if price >= self.upper_bound {
                    self.update_trade_stats(price);
                    self.result.position = None;
                    Some("sell".to_string())
                } else {
                    None
                }
            },
        };
        signal
    }

    fn get_backtest_result(&self) -> (r: &BacktestResult)
        ensures
            *r == self@.2,
    {
        &self.result
    }
}

/// Position of a range strategy whose closed trades were all wins: any
/// open position was entered at or below the lower bound.
pub open spec fn range_invariant(lower: u64, upper: u64, r: BacktestResult) -> bool {
    &&& r.wf()
    &&& r.loss_trades == 0
    &&& r.position is Some ==> r.entry_price <= lower
}

/// Law: with a lower bound strictly below the upper bound, the range
/// strategy never loses: it buys at or below the lower bound and sells at
/// or above the upper bound, so every closed trade is a win and the total
/// profit never decreases.
pub proof fn law_range_strategy_never_loses(lower: u64, upper: u64, r: BacktestResult, price: u64)
    requires
        lower < upper,
        range_invariant(lower, upper, r),
        range_sells_on(upper, r, price) ==> r.can_close_at(price),
    ensures
        range_invariant(lower, upper, spec_range_step(lower, upper, r, price).0),
        spec_range_step(lower, upper, r, price).0.profit_loss >= r.profit_loss,
{
}

/// Law: a fresh range strategy satisfies `range_invariant`.
pub proof fn law_range_strategy_starts_clean(lower: u64, upper: u64)
    ensures
        range_invariant(lower, upper, BacktestResult::new_spec()),
{
}

/// Law: a "buy" opens a position at the price, a "sell" closes the open
/// position and records one more trade, and no signal leaves the record
/// unchanged.
pub proof fn law_range_signals(lower: u64, upper: u64, r: BacktestResult, price: u64)
    requires
        range_sells_on(upper, r, price) ==> r.can_close_at(price),
    ensures
        ({
            let (next, signal) = spec_range_step(lower, upper, r, price);
            &&& signal == Some("buy"@) ==> r.position is None && next.position == Some(Position::Long)
                && next.entry_price == price && next.total_trades == r.total_trades
            &&& signal == Some("sell"@) ==> r.position is Some && next.position is None
                && next.total_trades == r.total_trades + 1
                && next.profit_loss == r.profit_loss + (price - r.entry_price)
            &&& signal is None ==> next == r
        }),
{
    reveal_strlit("buy");
    reveal_strlit("sell");
    assert("buy"@.len() == 3);
    assert("sell"@.len() == 4);
    assert("buy"@ != "sell"@);
}

/// Law: what one price does to the range strategy's record, in terms of
/// its inputs.  When flat and the price is at or below the lower bound, a
/// position is opened at that price with the signal "buy".  When long and
/// the price is at or above the upper bound, the trade is closed with the
/// signal "sell": its profit `price - entry` (of either sign) is added to
/// the total and it is counted once, as a win exactly when that profit is
/// positive.  Otherwise nothing changes and there is no signal.
pub proof fn law_range_step_effect(lower: u64, upper: u64, r: BacktestResult, price: u64)
    requires
        r.position is Some && price >= upper ==> r.can_close_at(price),
    ensures
        ({
            let (next, signal) = spec_range_step(lower, upper, r, price);
            let buys = r.position is None && price <= lower;
            let sells = r.position is Some && price >= upper;
            let profit = price - r.entry_price;
            &&& buys ==> {
                &&& signal == Some("buy"@)
                &&& next.position == Some(Position::Long)
                &&& next.entry_price == price
                &&& next.profit_loss == r.profit_loss
                &&& next.total_trades == r.total_trades
                &&& next.win_trades == r.win_trades
                &&& next.loss_trades == r.loss_trades
            }
            &&& sells ==> {
                &&& signal == Some("sell"@)
                &&& next.position is None
                &&& next.profit_loss == r.profit_loss + profit
                &&& next.total_trades == r.total_trades + 1
                &&& profit > 0 ==> next.win_trades == r.win_trades + 1 && next.loss_trades == r.loss_trades
                &&& profit <= 0 ==> next.loss_trades == r.loss_trades + 1 && next.win_trades == r.win_trades
            }
            &&& !buys && !sells ==> signal is None && next == r
        }),
{
}

/// Law: whatever its bounds, a step of the range strategy keeps the trade
/// counts consistent (every closed trade is one win or one loss) and never
/// lowers the number of trades.
pub proof fn law_range_step_keeps_counts_consistent(
    lower: u64,
    upper: u64,
    r: BacktestResult,
    price: u64,
)
    requires
        r.wf(),
        range_sells_on(upper, r, price) ==> r.can_close_at(price),
    ensures
        spec_range_step(lower, upper, r, price).0.wf(),
        spec_range_step(lower, upper, r, price).0.total_trades >= r.total_trades,
{
}

/// The back-test record after feeding `prices`, in order, to the range
/// strategy on `[lower, upper]` starting from record `r`.
pub open spec fn spec_range_run(lower: u64, upper: u64, r: BacktestResult, prices: Seq<u64>) -> BacktestResult
    decreases prices.len(),
{
    if prices.len() == 0 {
        r
    } else {
        spec_range_run(lower, upper, spec_range_step(lower, upper, r, prices[0]).0, prices.drop_first())
    }
}

/// Every step of that run may be taken: each sale leaves room in the
/// counters and the profit total.
pub open spec fn range_run_allowed(lower: u64, upper: u64, r: BacktestResult, prices: Seq<u64>) -> bool
    decreases prices.len(),
{
    if prices.len() == 0 {
        true
    } else {
        &&& range_sells_on(upper, r, prices[0]) ==> r.can_close_at(prices[0])
        &&& range_run_allowed(lower, upper, spec_range_step(lower, upper, r, prices[0]).0, prices.drop_first())
    }
}

/// Law: feeding any sequence of prices to a range strategy whose record is
/// consistent, with room for one trade per price in the counters and the
/// profit total, can be done step by step, keeps the counts consistent, and
/// raises the number of trades by at most one per price, never lowering it.
/// A fresh strategy has that room for any run of up to
/// `i128::MAX / u64::MAX` prices.
pub proof fn law_range_run_keeps_counts_consistent(
    lower: u64,
    upper: u64,
    r: BacktestResult,
    prices: Seq<u64>,
)
    requires
        r.wf(),
        r.total_trades + prices.len() <= usize::MAX,
        i128::MIN + prices.len() * (u64::MAX as int) <= r.profit_loss,
        r.profit_loss + prices.len() * (u64::MAX as int) <= i128::MAX,
    ensures
        range_run_allowed(lower, upper, r, prices),
        spec_range_run(lower, upper, r, prices).wf(),
        r.total_trades <= spec_range_run(lower, upper, r, prices).total_trades <= r.total_trades + prices.len(),
    decreases prices.len(),
{
    if prices.len() > 0 {
        let price = prices[0];
        let m = u64::MAX as int;
        let len = prices.len() as int;
        assert(-m <= r.trade_profit(price) <= m);
        assert(len * m == (len - 1) * m + m) by (nonlinear_arith);
        assert(r.can_close_at(price));
        let next = spec_range_step(lower, upper, r, price).0;
        law_range_step_keeps_counts_consistent(lower, upper, r, price);
        assert(r.profit_loss - m <= next.profit_loss <= r.profit_loss + m);
        law_range_run_keeps_counts_consistent(lower, upper, next, prices.drop_first());
    }
}

/// Feeds prices to a strategy one at a time.
pub struct Backtest<S: TradingStrategy + ?Sized> {
    strategy: Box<S>,
}

impl<S: TradingStrategy + ?Sized> Backtest<S> {
    /// The strategy under test.
    pub closed spec fn spec_strategy(&self) -> Box<S> {
        self.strategy
    }

    /// A back-test of `strategy`.
    pub fn new(strategy: Box<S>) -> (r: Backtest<S>)
        ensures
            r.spec_strategy() == strategy,
    {
        Backtest { strategy }
    }

    /// Feeds `price` to the strategy; returns its signal, if any, and its
    /// back-test record afterwards.
    pub fn run(&mut self, price: u64) -> (r: (Option<String>, &BacktestResult))
        requires
            old(self).spec_strategy().update_allowed(price),
        ensures
            (*r.1, signal_text(r.0)) == old(self).spec_strategy().spec_step(price),
            *r.1 == final(self).spec_strategy().spec_result(),
    {
        let signal = self.strategy.update(price);
        (signal, self.strategy.get_backtest_result())
    }
}

} // verus!
