use trading_bots::kline::{Kline, KlineData, MAX_KLINES};
use trading_bots::price::PRICE_SCALE;

fn k(open_time: i64, close: u64) -> Kline {
    Kline { open_time, close }
}

fn data_of(closes: &[u64]) -> KlineData {
    let mut d = KlineData::new();
    d.convert_to_kline_data(
        closes.iter().enumerate().map(|(i, c)| k(i as i64 * 1000, *c)).collect(),
    );
    d
}

#[test]
fn new_buffer_is_empty() {
    assert_eq!(KlineData::new().len(), 0);
}

#[test]
fn candle_with_same_open_time_replaces_newest() {
    let mut d = data_of(&[10, 20]);
    d.add_kline(k(1000, 25));
    assert_eq!(d.len(), 2);
    assert_eq!(d.kline_vec[1], k(1000, 25));
}

#[test]
fn candle_with_new_open_time_is_appended() {
    let mut d = data_of(&[10, 20]);
    d.add_kline(k(2000, 30));
    assert_eq!(d.len(), 3);
    assert_eq!(d.kline_vec[2], k(2000, 30));
}

#[test]
fn buffer_drops_oldest_past_capacity() {
    let mut d = data_of(&vec![1; MAX_KLINES]);
    d.add_kline(k(999_999, 7));
    assert_eq!(d.len(), MAX_KLINES);
    assert_eq!(d.kline_vec[0].open_time, 1000);
    assert_eq!(d.kline_vec[MAX_KLINES - 1], k(999_999, 7));
}

#[test]
fn average_rounds_down() {
    assert_eq!(KlineData::new().calculate_average(), None);
    assert_eq!(data_of(&[1, 2]).calculate_average(), Some(1));
    assert_eq!(data_of(&[3, 4, 5]).calculate_average(), Some(4));
}

#[test]
fn ema_needs_enough_candles() {
    assert_eq!(KlineData::new().calculate_ema(3), None);
    assert_eq!(data_of(&[1, 2]).calculate_ema(3), None);
    assert_eq!(data_of(&[1, 2]).calculate_ema(0), None);
}

#[test]
fn ema_keeps_precision_between_steps() {
    // exact average: 0.75, 1.25, 1.55, 1.73, 1.838, 1.9028 units
    let e = data_of(&[0, 0, 1, 2, 2, 2, 2, 2, 2]).calculate_ema(4);
    assert_eq!(e, Some(1));
}

#[test]
fn ema_of_exactly_period_candles_is_their_average() {
    assert_eq!(data_of(&[10, 20, 30]).calculate_ema(3), Some(20));
}

#[test]
fn ema_smooths_later_prices() {
    // seed = (10 + 20 + 30) / 3 = 20; then (2*40 + 2*20) / 4 = 30; then (2*10 + 2*30) / 4 = 20
    assert_eq!(data_of(&[10, 20, 30, 40, 10]).calculate_ema(3), Some(20));
    // one-period EMA follows the last price
    assert_eq!(data_of(&[5, 9, 7]).calculate_ema(1), Some(7));
}

#[test]
fn ema_stays_within_price_range() {
    let closes = [70 * PRICE_SCALE, 90 * PRICE_SCALE, 80 * PRICE_SCALE, 100 * PRICE_SCALE, 60 * PRICE_SCALE];
    let e = data_of(&closes).calculate_ema(2).unwrap();
    assert!(e >= 60 * PRICE_SCALE && e <= 100 * PRICE_SCALE);
}

#[test]
fn rsi_needs_enough_candles() {
    assert_eq!(data_of(&[1, 2]).calculate_rsi(3), None);
    // exactly `period` candles hold only period - 1 moves
    assert_eq!(data_of(&[1, 2, 3]).calculate_rsi(3), None);
    assert_eq!(data_of(&[1, 2, 3]).calculate_rsi(0), None);
}

#[test]
fn rsi_never_reads_a_small_loss_as_none() {
    // one unit up, one unit down over three moves: equal averages, RSI 50
    let v = data_of(&[0, 1, 1, 0]).calculate_rsi(3).unwrap();
    assert_eq!(v, vec![50 * PRICE_SCALE]);
}

#[test]
fn rsi_of_only_rises_is_one_hundred() {
    let v = data_of(&[1, 2, 3, 4]).calculate_rsi(2).unwrap();
    assert_eq!(v, vec![100 * PRICE_SCALE, 100 * PRICE_SCALE]);
}

#[test]
fn rsi_of_only_falls_is_zero() {
    let v = data_of(&[40, 30, 20, 10]).calculate_rsi(3).unwrap();
    assert_eq!(v, vec![0]);
}

#[test]
fn rsi_uses_wilder_smoothing() {
    // period 2: moves +10, -10 -> gain 5, loss 5 -> RSI 50;
    // next move +20: gain (5 + 20) / 2 = 12.5, loss 5 / 2 = 2.5 -> 100 * 12.5 / 15
    let v = data_of(&[100, 110, 100, 120]).calculate_rsi(2).unwrap();
    assert_eq!(v, vec![50 * PRICE_SCALE, 100 * PRICE_SCALE * 125 / 150]);
}

#[test]
fn rsi_keeps_fractions_of_a_unit() {
    // moves +1, -1, -1 units: average gain 1/3, loss 2/3 -> RSI 33.33333333
    let v = data_of(&[100_000_000, 100_000_001, 100_000_000, 99_999_999]).calculate_rsi(3).unwrap();
    assert_eq!(v, vec![3_333_333_333]);
}

#[test]
fn buffer_keeps_candles_in_arrival_order() {
    let mut d = KlineData::new();
    d.convert_to_kline_data(vec![k(0, 1)]);
    d.add_kline(k(1000, 2));
    d.add_kline(k(1000, 3));
    d.add_kline(k(2000, 4));
    let times: Vec<i64> = d.kline_vec.iter().map(|c| c.open_time).collect();
    let closes: Vec<u64> = d.kline_vec.iter().map(|c| c.close).collect();
    assert_eq!(times, vec![0, 1000, 2000]);
    assert_eq!(closes, vec![1, 3, 4]);
}
