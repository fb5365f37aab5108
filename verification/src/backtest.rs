//! Back-test accounting: the open position and the record of closed trades.
use vstd::prelude::*;
use crate::price::PRICE_SCALE;

verus! {

/// An open position.
#[derive(Clone, Copy, Debug, PartialEq, Eq, Structural)]
pub enum Position {
    Long,
}

/// The state of a back-test: the open position (if any), the price it was
/// entered at, and the record of closed trades.  Prices and profits are in
/// fixed-point units (see `crate::price`).
#[derive(Clone, Copy, Debug)]
pub struct BacktestResult {
    pub position: Option<Position>,
    pub entry_price: u64,
    pub profit_loss: i128,
    pub total_trades: usize,
    pub win_trades: usize,
    pub loss_trades: usize,
}

/// What `evaluate_signal` did.
#[derive(Clone, Copy, Debug, PartialEq, Eq, Structural)]
pub enum SignalOutcome {
    /// Nothing changed.
    Hold,
    /// A long position was opened at this price.
    Bought(u64),
    /// The position was closed with this profit (positive).
    SoldWithProfit(i128),
    /// The position was closed with this result (zero or negative).
    SoldWithLoss(i128),
}

/// RSI level below which `evaluate_signal` buys (30, in fixed-point units).
pub const RSI_OVERSOLD: u64 = 30 * PRICE_SCALE;

/// RSI level above which `evaluate_signal` sells (70, in fixed-point units).
pub const RSI_OVERBOUGHT: u64 = 70 * PRICE_SCALE;

impl BacktestResult {
    /// Every closed trade is counted as exactly one win or one loss.
    pub open spec fn wf(self) -> bool {
        self.win_trades + self.loss_trades == self.total_trades
    }

    /// Profit of closing the open position at `exit`.
    pub open spec fn trade_profit(self, exit: u64) -> int {
        exit - self.entry_price
    }

    /// Recording a trade closed at `exit` keeps the trade counts and the
    /// total profit within their machine types.
    pub open spec fn can_close_at(self, exit: u64) -> bool {
        &&& self.total_trades < usize::MAX
        &&& self.trade_profit(exit) > 0 ==> self.win_trades < usize::MAX
        &&& self.trade_profit(exit) <= 0 ==> self.loss_trades < usize::MAX
        &&& i128::MIN <= self.profit_loss + self.trade_profit(exit) <= i128::MAX
    }

    /// The record after a trade closed at `exit`: one more trade, counted
    /// as a win when it made a profit and as a loss otherwise, and its
    /// profit added to the total.  The position is left as it was.
    pub open spec fn spec_record_trade(self, exit: u64) -> BacktestResult {
        let profit = self.trade_profit(exit);
        BacktestResult {
            profit_loss: (self.profit_loss + profit) as i128,
            total_trades: (self.total_trades + 1) as usize,
            win_trades: if profit > 0 { (self.win_trades + 1) as usize } else { self.win_trades },
            loss_trades: if profit > 0 { self.loss_trades } else { (self.loss_trades + 1) as usize },
            ..self
        }
    }

    /// The record after selling the open long position at `exit`: the
    /// trade is recorded and no position is left.
    pub open spec fn spec_close(self, exit: u64) -> BacktestResult {
        BacktestResult { position: None, ..self.spec_record_trade(exit) }
    }

    /// The record after opening a long position at `price`.
    pub open spec fn spec_open(self, price: u64) -> BacktestResult {
        BacktestResult { position: Some(Position::Long), entry_price: price, ..self }
    }

    /// The effect of `evaluate_signal`: buy when flat, the short average
    /// is above the long one and the RSI is below 30; sell a long position
    /// when the short average is below the long one and the RSI is above 70.
    pub open spec fn spec_evaluate(
        self,
        ema20: u64,
        ema55: u64,
        rsi: u64,
        close_price: u64,
    ) -> (BacktestResult, SignalOutcome) {
        match self.position {
            None => if ema20 > ema55 && rsi < RSI_OVERSOLD {
                (self.spec_open(close_price), SignalOutcome::Bought(close_price))
            } else {
                (self, SignalOutcome::Hold)
            },
            Some(Position::Long) => if ema20 < ema55 && rsi > RSI_OVERBOUGHT {
                let profit = self.trade_profit(close_price);
                (
                    self.spec_close(close_price),
                    if profit > 0 {
                        SignalOutcome::SoldWithProfit(profit as i128)
                    } else {
                        SignalOutcome::SoldWithLoss(profit as i128)
                    },
                )
            } else {
                (self, SignalOutcome::Hold)
            },
        }
    }

    /// `evaluate_signal` sells on these inputs.
    pub open spec fn sells_on(self, ema20: u64, ema55: u64, rsi: u64) -> bool {
        self.position is Some && ema20 < ema55 && rsi > RSI_OVERBOUGHT
    }

    /// A fresh record: no position, no trades, no profit.
    pub open spec fn new_spec() -> BacktestResult {
        BacktestResult {
            position: None,
            entry_price: 0,
            profit_loss: 0,
            total_trades: 0,
            win_trades: 0,
            loss_trades: 0,
        }
    }

    /// A fresh record (see `new_spec`).
    pub fn new() -> (r: BacktestResult)
        ensures
            r == BacktestResult::new_spec(),
    {
        BacktestResult {
            position: None,
            entry_price: 0,
            profit_loss: 0,
            total_trades: 0,
            win_trades: 0,
            loss_trades: 0,
        }
    }

    /// Records a trade closed at `exit` (see `spec_record_trade`); the
    /// position is left to the caller.
    pub fn record_trade(&mut self, exit: u64)
        requires
            old(self).can_close_at(exit),
        ensures
            *final(self) == old(self).spec_record_trade(exit),
    {
        let profit: i128 = exit as i128 - self.entry_price as i128;
        self.total_trades = self.total_trades + 1;
        if profit > 0 {
            self.win_trades = self.win_trades + 1;
        } else {
            self.loss_trades = self.loss_trades + 1;
        }
        self.profit_loss = self.profit_loss + profit;
    }

    /// Share of closed trades that were wins, in percent (fixed-point
    /// units, rounded down); zero before any trade.  At most 100 percent
    /// when the counts are consistent.
    pub fn win_rate(&self) -> (r: u128)
        ensures
            r == (if self.total_trades > 0 {
                (self.win_trades * (100 * PRICE_SCALE)) / (self.total_trades as int)
            } else {
                0
            }),
            self.wf() ==> r <= 100 * PRICE_SCALE,
    {
        if self.total_trades > 0 {
            let ghost a = 100 * PRICE_SCALE as int;
            let ghost w = self.win_trades as int;
            let ghost t = self.total_trades as int;
            proof {
                assert(0 <= w * a <= (usize::MAX as int) * a) by (nonlinear_arith)
                    requires
                        0 <= w <= usize::MAX,
                        a > 0,
                ;
                if self.wf() {
                    assert(0 <= w * a <= t * a) by (nonlinear_arith)
                        requires
                            0 <= w <= t,
                            a > 0,
                    ;
                    assert(w * a / t <= a) by (nonlinear_arith)
                        requires
                            0 <= w * a <= t * a,
                            t > 0,
                    ;
                }
            }
            (self.win_trades as u128 * (100 * PRICE_SCALE) as u128) / self.total_trades as u128
        } else {
            0
        }
    }

    /// Applies the trend-and-momentum rule of `spec_evaluate` to one
    /// observation, and says what it did.
    pub fn evaluate_signal(&mut self, ema20: u64, ema55: u64, rsi: u64, close_price: u64) -> (r:
        SignalOutcome)
        requires
            old(self).sells_on(ema20, ema55, rsi) ==> old(self).can_close_at(close_price),
        ensures
            (*final(self), r) == old(self).spec_evaluate(ema20, ema55, rsi, close_price),
            old(self).wf() ==> final(self).wf(),
    {
        match self.position {
            None => {
                if ema20 > ema55 && rsi < RSI_OVERSOLD {
                    self.position = Some(Position::Long);
                    self.entry_price = close_price;
                    SignalOutcome::Bought(close_price)
                } else {
                    SignalOutcome::Hold
                }
            },
            Some(Position::Long) => {
                if ema20 < ema55 && rsi > RSI_OVERBOUGHT {
                    let profit: i128 = close_price as i128 - self.entry_price as i128;
                    self.record_trade(close_price);
                    self.position = None;
                    if profit > 0 {
                        SignalOutcome::SoldWithProfit(profit)
                    } else {
                        SignalOutcome::SoldWithLoss(profit)
                    }
                } else {
                    SignalOutcome::Hold
                }
            },
        }
    }
}

/// Law: `evaluate_signal` keeps the trade counts consistent (every
/// closed trade is one win or one loss) and never lowers the number of
/// trades; a position is opened only when none is held and closed only when
/// one is.
pub proof fn law_evaluate_keeps_counts_consistent(
    r: BacktestResult,
    ema20: u64,
    ema55: u64,
    rsi: u64,
    close_price: u64,
)
    requires
        r.wf(),
        r.sells_on(ema20, ema55, rsi) ==> r.can_close_at(close_price),
    ensures
        ({
            let (next, outcome) = r.spec_evaluate(ema20, ema55, rsi, close_price);
            &&& next.wf()
            &&& next.total_trades >= r.total_trades
            &&& outcome matches SignalOutcome::Bought(_) ==> r.position is None && next.position is Some
            &&& (outcome matches SignalOutcome::SoldWithProfit(_) || outcome matches SignalOutcome::SoldWithLoss(_))
                ==> r.position is Some && next.position is None && next.total_trades == r.total_trades + 1
            &&& outcome == SignalOutcome::Hold ==> next == r
        }),
{
}

/// Law: what one observation does to the record, in terms of its inputs.
/// When flat, with the short average above the long one and the RSI below
/// 30, the position is opened at the close and nothing else changes.  When
/// long, with the short average below the long one and the RSI above 70,
/// the trade is closed: its profit `close - entry` (of either sign) is added
/// to the total, the trade is counted once, as a win exactly when that
/// profit is positive, and the outcome carries the profit.  Otherwise the
/// record is unchanged.
pub proof fn law_evaluate_signal_effect(
    r: BacktestResult,
    ema20: u64,
    ema55: u64,
    rsi: u64,
    close_price: u64,
)
    requires
        r.position is Some && ema20 < ema55 && rsi > 7_000_000_000 ==> r.can_close_at(close_price),
    ensures
        ({
            let (next, out) = r.spec_evaluate(ema20, ema55, rsi, close_price);
            let profit = close_price - r.entry_price;
            let buys = r.position is None && ema20 > ema55 && rsi < 3_000_000_000;
            let sells = r.position is Some && ema20 < ema55 && rsi > 7_000_000_000;
            &&& buys ==> {
                &&& out == SignalOutcome::Bought(close_price)
                &&& next.position == Some(Position::Long)
                &&& next.entry_price == close_price
                &&& next.profit_loss == r.profit_loss
                &&& next.total_trades == r.total_trades
                &&& next.win_trades == r.win_trades
                &&& next.loss_trades == r.loss_trades
            }
            &&& sells ==> {
                &&& next.position is None
                &&& next.profit_loss == r.profit_loss + profit
                &&& next.total_trades == r.total_trades + 1
                &&& profit > 0 ==> out == SignalOutcome::SoldWithProfit(profit as i128)
                    && next.win_trades == r.win_trades + 1 && next.loss_trades == r.loss_trades
                &&& profit <= 0 ==> out == SignalOutcome::SoldWithLoss(profit as i128)
                    && next.loss_trades == r.loss_trades + 1 && next.win_trades == r.win_trades
            }
            &&& !buys && !sells ==> out == SignalOutcome::Hold && next == r
        }),
{
    assert(RSI_OVERSOLD == 3_000_000_000);
    assert(RSI_OVERBOUGHT == 7_000_000_000);
}

} // verus!
