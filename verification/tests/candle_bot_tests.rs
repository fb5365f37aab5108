use trading_bots::backtest::Position;
use trading_bots::candle_bot::{process_kline_data4h, RANGE_LOWER, RANGE_UPPER};
use trading_bots::kline::{Kline, KlineData};
use trading_bots::price::PRICE_SCALE;

fn buffer_of(n: usize, close: u64) -> KlineData {
    let mut d = KlineData::new();
    d.convert_to_kline_data((0..n).map(|i| Kline { open_time: i as i64 * 1000, close }).collect());
    d
}

#[test]
fn range_bounds_are_the_configured_prices() {
    assert_eq!(RANGE_LOWER, 66_400 * PRICE_SCALE);
    assert_eq!(RANGE_UPPER, 66_550 * PRICE_SCALE);
}

#[test]
fn short_buffer_gives_no_report_but_keeps_the_candle() {
    let mut d = buffer_of(1, 5);
    let r = process_kline_data4h(&mut d, Kline { open_time: 1000, close: 7 });
    assert!(r.is_none());
    assert_eq!(d.len(), 2);
    assert_eq!(d.kline_vec[1], Kline { open_time: 1000, close: 7 });
}

#[test]
fn low_close_with_full_buffer_buys() {
    let price = 66_000 * PRICE_SCALE;
    let mut d = buffer_of(54, price);
    let r = process_kline_data4h(&mut d, Kline { open_time: 54_000, close: price }).unwrap();
    assert_eq!(d.len(), 55);
    assert_eq!(r.ema55, price);
    assert_eq!(r.ema20, price);
    assert_eq!(r.rsi, 100 * PRICE_SCALE);
    assert_eq!(r.signal.as_deref(), Some("buy"));
    assert_eq!(r.result.position, Some(Position::Long));
    assert_eq!(r.result.entry_price, price);
    assert_eq!(r.result.total_trades, 0);
}

#[test]
fn close_above_the_range_gives_no_signal() {
    let mut d = buffer_of(60, 67_000 * PRICE_SCALE);
    let r = process_kline_data4h(&mut d, Kline { open_time: 59_000, close: 68_000 * PRICE_SCALE }).unwrap();
    assert_eq!(d.len(), 60);
    assert_eq!(r.signal, None);
    assert!(r.result.position.is_none());
    // the replaced candle is a rise of 1000: every RSI average is a gain
    assert_eq!(r.rsi, 100 * PRICE_SCALE);
}
