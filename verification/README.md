# CoinDCX scalper

A mean-reversion scalping bot for one trading pair, with its logic verified in Verus.

The bot synthesises one-minute candles from the latest trade price, evaluates Bollinger Bands
and the relative strength index over the stored candles, buys what is oversold, and sells on
overbought momentum or when the price has come down to a trailing stop half a percent under the
highest price of the position. A web page on port 3000 shows what it does.

## Layout

- `src/` is the verified library.
  - `double` gives binary64 numbers, held as bit patterns, a mathematical meaning: comparison,
    correctly rounded arithmetic, reading from text and writing with two decimals.
  - `natural` and `text` hold long natural numbers and decimal notation.
  - `clock`, `candle`, `config`, `dashboard` and `db` hold points in time, candles, parameters,
    the dashboard's data and the database statements.
  - `exchange` and `orders` frame and sign requests and read replies.
  - `strategy` decides at each tick; `strategy_laws` states what the strategy guarantees.
  - `bot` is the bot as a state machine from events to actions; `bot_laws` states what holds
    over any course of events.
- `tests/` runs the library, with the real outside crates linked.
- `app/` is the program: it performs the bot's actions (HTTP, SQLite, indicators, waiting) and
  hands back the events that they bring about, and serves the dashboard.

## Running

Credentials come from the environment: `COINDCX_API_KEY` and `COINDCX_SECRET_KEY`. Trading is
simulated as long as `SIMULATION_MODE` in `src/config.rs` is set; then trades are only recorded
in `bot_data.db`.
