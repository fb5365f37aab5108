//! Verified core of a set of trading bots: fixed-point price parsing,
//! candle buffers with moving-average and RSI indicators, a range trading
//! strategy with back-test accounting, the per-candle step of the bot, fetch
//! scheduling, and the decoding of
//! Raydium AMM pool accounts.
pub mod price;
pub mod kline;
pub mod rsi;
pub mod backtest;
pub mod strategy;
pub mod candle_bot;
pub mod schedule;
pub mod amm;
pub mod raydium;
pub mod error;
