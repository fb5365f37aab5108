use trading_bots::backtest::{BacktestResult, Position, SignalOutcome, RSI_OVERBOUGHT, RSI_OVERSOLD};
use trading_bots::strategy::{Backtest, RangeStrategy, TradingStrategy};

#[test]
fn fresh_result_has_no_trades() {
    let r = BacktestResult::new();
    assert!(r.position.is_none());
    assert_eq!(r.entry_price, 0);
    assert_eq!(r.profit_loss, 0);
    assert_eq!((r.total_trades, r.win_trades, r.loss_trades), (0, 0, 0));
    assert_eq!(r.win_rate(), 0);
}

#[test]
fn range_strategy_buys_low_and_sells_high() {
    let mut s = RangeStrategy::new(100, 200);
    assert_eq!(s.update(150), None);
    assert_eq!(s.update(100).as_deref(), Some("buy"));
    assert_eq!(s.get_backtest_result().position, Some(Position::Long));
    assert_eq!(s.get_backtest_result().entry_price, 100);
    assert_eq!(s.update(90), None);
    assert_eq!(s.update(250).as_deref(), Some("sell"));
    let r = s.get_backtest_result();
    assert!(r.position.is_none());
    assert_eq!(r.profit_loss, 150);
    assert_eq!((r.total_trades, r.win_trades, r.loss_trades), (1, 1, 0));
    assert_eq!(r.win_rate(), 100 * 100_000_000);
}

#[test]
fn inverted_range_records_a_loss() {
    // lower above upper: buy at 300, sell as soon as the price is >= 100
    let mut s = RangeStrategy::new(300, 100);
    assert_eq!(s.update(300).as_deref(), Some("buy"));
    assert_eq!(s.update(150).as_deref(), Some("sell"));
    let r = s.get_backtest_result();
    assert_eq!(r.profit_loss, -150);
    assert_eq!((r.total_trades, r.win_trades, r.loss_trades), (1, 0, 1));
}

#[test]
fn backtest_runs_a_boxed_strategy() {
    let strategy: Box<dyn TradingStrategy> = Box::new(RangeStrategy::new(10, 20));
    let mut b: Backtest<dyn TradingStrategy> = Backtest::new(strategy);
    let (sig, r) = b.run(5);
    assert_eq!(sig.as_deref(), Some("buy"));
    assert_eq!(r.entry_price, 5);
    let (sig, r) = b.run(25);
    assert_eq!(sig.as_deref(), Some("sell"));
    assert_eq!(r.profit_loss, 20);
}

#[test]
fn evaluate_signal_buys_on_uptrend_and_oversold() {
    let mut r = BacktestResult::new();
    assert_eq!(r.evaluate_signal(10, 20, RSI_OVERSOLD - 1, 50), SignalOutcome::Hold);
    assert_eq!(r.evaluate_signal(20, 10, RSI_OVERSOLD, 50), SignalOutcome::Hold);
    assert_eq!(r.evaluate_signal(20, 10, RSI_OVERSOLD - 1, 50), SignalOutcome::Bought(50));
    assert_eq!(r.position, Some(Position::Long));
    assert_eq!(r.entry_price, 50);
}

#[test]
fn evaluate_signal_sells_on_downtrend_and_overbought() {
    let mut r = BacktestResult::new();
    r.evaluate_signal(20, 10, 0, 50);
    assert_eq!(r.evaluate_signal(10, 20, RSI_OVERBOUGHT, 80), SignalOutcome::Hold);
    assert_eq!(r.evaluate_signal(10, 20, RSI_OVERBOUGHT + 1, 80), SignalOutcome::SoldWithProfit(30));
    assert!(r.position.is_none());
    assert_eq!((r.total_trades, r.win_trades, r.loss_trades), (1, 1, 0));
    r.evaluate_signal(20, 10, 0, 80);
    assert_eq!(r.evaluate_signal(10, 20, RSI_OVERBOUGHT + 1, 80), SignalOutcome::SoldWithLoss(0));
    assert_eq!((r.total_trades, r.win_trades, r.loss_trades), (2, 1, 1));
    assert_eq!(r.profit_loss, 30);
    assert_eq!(r.win_rate(), 50 * 100_000_000);
}

#[test]
fn range_strategy_round_trips_are_all_wins() {
    let mut s = RangeStrategy::new(100, 200);
    let prices = [150, 100, 120, 95, 210, 80, 199, 200, 90, 300, 100];
    let mut last_profit = 0;
    for p in prices {
        s.update(p);
        let r = s.get_backtest_result();
        assert_eq!(r.loss_trades, 0);
        assert_eq!(r.win_trades, r.total_trades);
        assert!(r.profit_loss >= last_profit);
        last_profit = r.profit_loss;
    }
    let r = s.get_backtest_result();
    // trades: 100 -> 210, 80 -> 200, 90 -> 300; then bought again at 100
    assert_eq!((r.total_trades, r.win_trades), (3, 3));
    assert_eq!(r.profit_loss, 110 + 120 + 210);
    assert_eq!(r.position, Some(Position::Long));
    assert_eq!(r.entry_price, 100);
}

#[test]
fn win_rate_divides_any_counts() {
    let mut r = BacktestResult::new();
    r.total_trades = 2;
    r.win_trades = 3;
    assert_eq!(r.win_rate(), 150 * 100_000_000);
    r.total_trades = 3;
    r.win_trades = 1;
    assert_eq!(r.win_rate(), 100 * 100_000_000 / 3);
}

#[test]
fn record_trade_keeps_the_position() {
    let mut r = BacktestResult::new();
    r.position = Some(Position::Long);
    r.entry_price = 100;
    r.record_trade(90);
    assert_eq!(r.position, Some(Position::Long));
    assert_eq!(r.profit_loss, -10);
    assert_eq!((r.total_trades, r.win_trades, r.loss_trades), (1, 0, 1));
}

#[test]
fn evaluate_signal_holds_at_the_count_limit_without_selling() {
    let mut r = BacktestResult::new();
    r.position = Some(Position::Long);
    r.total_trades = usize::MAX;
    assert_eq!(r.evaluate_signal(20, 10, 0, 50), SignalOutcome::Hold);
    assert_eq!(r.total_trades, usize::MAX);
}
