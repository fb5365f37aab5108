# trading_bots

A verified core for a small family of trading bots, written in Verus.

`src/` is the library.  Every function in it carries a contract that Verus
proves, except `amm::read_words`, a trusted wrapper around
`bytemuck::pod_read_unaligned` whose contract is taken on trust:

- `price` parses decimal price strings into fixed-point integers (units of
  10^-8). All indicator and accounting arithmetic is done on these integers;
  each contract states the exact result, including how it is rounded.
- `kline` keeps a bounded buffer of candles (newest last, at most 240) and
  computes the simple average and the exponential moving average over it;
  `rsi` computes Wilder's RSI.  The moving averages are carried at a finer
  precision than the prices, and each contract bounds the distance to the
  exact value.
- `backtest` and `strategy` hold the back-test record, the
  trend-and-momentum signal rule, the range strategy and the driver that
  feeds prices to a strategy; `candle_bot` is the bot's step on each
  streamed candle (buffer update, indicators, range back-test).
- `schedule` computes the alignment of fetch times to interval boundaries
  and the windows of successive candle fetches.
- `amm` and `raydium` decode Raydium AMM pool accounts from raw bytes;
  `error` holds the error messages.

`app/` is the program around it: exchange and RPC clients, the websocket
feed, timers, printing, and the naive Bayes classifier (which works on
floating-point values), none of which is verified.

`tests/` runs the library on concrete values.
