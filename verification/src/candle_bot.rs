//! One step of the four-hour candle bot: take in a streamed candle, compute
//! the indicators over the buffer and back-test the range strategy on the
//! candle's closing price.
use vstd::prelude::*;
use crate::backtest::BacktestResult;
use crate::kline::{Kline, KlineData, closes, spec_add_kline, spec_ema};
use crate::rsi::spec_rsi;
use crate::strategy::{Backtest, RangeStrategy, signal_text, spec_range_step};

verus! {

/// Period of the long exponential moving average.
pub const EMA_LONG_PERIOD: usize = 55;

/// Period of the short exponential moving average.
pub const EMA_SHORT_PERIOD: usize = 20;

/// Number of moves the RSI averages over.
pub const RSI_PERIOD: usize = 6;

/// Lower bound of the traded range: 66400 in fixed-point units.
pub const RANGE_LOWER: u64 = 6_640_000_000_000;

/// Upper bound of the traded range: 66550 in fixed-point units.
pub const RANGE_UPPER: u64 = 6_655_000_000_000;

/// Law: the bot's settings: averages over 55 and 20 candles, an RSI over
/// 6 moves, and the range from 66400 to 66550 (in fixed-point units of
/// `10^-8`).
pub proof fn law_candle_bot_settings()
    ensures
        EMA_LONG_PERIOD == 55,
        EMA_SHORT_PERIOD == 20,
        RSI_PERIOD == 6,
        RANGE_LOWER == 66_400 * 100_000_000,
        RANGE_UPPER == 66_550 * 100_000_000,
{
}

/// What one candle step computed.
#[derive(Clone, Debug)]
pub struct CandleReport {
    /// Long moving average of the closing prices.
    pub ema55: u64,
    /// Short moving average of the closing prices.
    pub ema20: u64,
    /// The newest RSI value.
    pub rsi: u64,
    /// The range strategy's signal on the candle's close, if any.
    pub signal: Option<String>,
    /// The back-test record after that signal.
    pub result: BacktestResult,
}

/// Receives `kline` into the buffer, then computes the indicators over the
/// buffer and runs a fresh range strategy on the candle's closing price.
/// The buffer is updated in every case; the report is `None` exactly when
/// the buffer then holds fewer candles than the long average needs.
pub fn process_kline_data4h(kline_data: &mut KlineData, kline: Kline) -> (r: Option<CandleReport>)
    requires
        old(kline_data)@.len() > 0,
    ensures
        final(kline_data)@ == spec_add_kline(old(kline_data)@, kline),
        r is None <==> final(kline_data)@.len() < EMA_LONG_PERIOD,
        r matches Some(rep) ==> {
            let p = closes(final(kline_data)@);
            &&& spec_ema(p, EMA_LONG_PERIOD as nat) == Some(rep.ema55)
            &&& spec_ema(p, EMA_SHORT_PERIOD as nat) == Some(rep.ema20)
            &&& spec_rsi(p, RSI_PERIOD as nat) matches Some(v) && v.len() > 0 && rep.rsi == v.last()
            &&& (rep.result, signal_text(rep.signal)) == spec_range_step(
                RANGE_LOWER,
                RANGE_UPPER,
                BacktestResult::new_spec(),
                kline.close,
            )
        },
{
    kline_data.add_kline(kline);
    if kline_data.len() < EMA_LONG_PERIOD {
        return None;
    }
    let ema55 = match kline_data.calculate_ema(EMA_LONG_PERIOD) {
        Some(e) => e,
        None => { return None; },
    };
    let ema20 = match kline_data.calculate_ema(EMA_SHORT_PERIOD) {
        Some(e) => e,
        None => { return None; },
    };
    let rsi_vec = match kline_data.calculate_rsi(RSI_PERIOD) {
        Some(v) => v,
        None => { return None; },
    };
    if rsi_vec.len() == 0 {
        return None;
    }
    let rsi = rsi_vec[rsi_vec.len() - 1];
    let strategy = Box::new(RangeStrategy::new(RANGE_LOWER, RANGE_UPPER));
    let mut backtest = Backtest::new(strategy);
    let (signal, result) = backtest.run(kline.close);
    let result = *result;
    Some(CandleReport { ema55, ema20, rsi, signal, result })
}

} // verus!
