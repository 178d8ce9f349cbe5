//! The strategy's parameters. Binary64 parameters are given as bit patterns.

use crate::double::laws::{lemma_fraction_value, lemma_natural_value};
use crate::double::model::rounded;
use crate::double::Double;
use vstd::arithmetic::power2::*;
use vstd::prelude::*;

verus! {

/// Whether trades are only recorded, not sent to the exchange.
pub const SIMULATION_MODE: bool = true;

/// The trading pair.
pub const PAIR: &'static str = "B-BTC_USDT";

/// The length of a candle, as the exchange names it.
pub const TIMEFRAME: &'static str = "1m";

/// The market that orders are placed on.
pub const MARKET: &'static str = "BTCUSDT";

/// Number of candles that the indicators are computed from.
pub const HISTORY_CANDLES: usize = 50;

/// Period of the Bollinger Bands.
pub const BB_PERIOD: usize = 20;

/// Period of the relative strength index.
pub const RSI_PERIOD: usize = 14;

/// Seconds between two ticks.
pub const TICK_SECONDS: u64 = 5;

/// Size of a position: 10000 USDT.
pub const TRADE_CAPITAL: u64 = 0x40c3_8800_0000_0000;

/// Fraction of the highest price that the stop lies below it: the number nearest to 0.005.
pub const TRAILING_STOP_PCT: u64 = 0x3f74_7ae1_47ae_147b;

/// Relative strength below which the pair counts as oversold: 30.
pub const RSI_BUY: u64 = 0x403e_0000_0000_0000;

/// Relative strength below which the pair counts as deeply oversold: 20.
pub const RSI_CRASH: u64 = 0x4034_0000_0000_0000;

/// Relative strength above which the pair counts as overbought: 70.
pub const RSI_SELL: u64 = 0x4051_8000_0000_0000;

/// Quantity sold on shutdown: the number nearest to 0.001.
pub const SHUTDOWN_QUANTITY: u64 = 0x3f50_624d_d2f1_a9fc;

/// USDT in the simulated wallet: 10500.
pub const SIMULATED_USDT: u64 = 0x40c4_8200_0000_0000;

/// BTC in the simulated wallet: the number nearest to 0.05.
pub const SIMULATED_BTC: u64 = 0x3fa9_9999_9999_999a;

/// The number one.
pub const ONE: u64 = 0x3ff0_0000_0000_0000;

/// The number one hundred.
pub const HUNDRED: u64 = 0x4059_0000_0000_0000;

/// The parameters are the numbers that they stand for: the integers exactly, the fractions as
/// the numbers nearest to them.
pub proof fn law_parameters_are_their_numbers()
    ensures
        (Double { bits: TRADE_CAPITAL }).units() == 10000 * pow2(1074),
        (Double { bits: RSI_BUY }).units() == 30 * pow2(1074),
        (Double { bits: RSI_CRASH }).units() == 20 * pow2(1074),
        (Double { bits: RSI_SELL }).units() == 70 * pow2(1074),
        (Double { bits: SIMULATED_USDT }).units() == 10500 * pow2(1074),
        (Double { bits: ONE }).units() == pow2(1074),
        (Double { bits: HUNDRED }).units() == 100 * pow2(1074),
        TRAILING_STOP_PCT == rounded(5 * pow2(1074), 1000),
        SHUTDOWN_QUANTITY == rounded(1 * pow2(1074), 1000),
        SIMULATED_BTC == rounded(5 * pow2(1074), 100),
{
    lemma2_to64();
    lemma2_to64_rest();
    lemma_natural_value(TRADE_CAPITAL as nat, 10000, 39);
    lemma_natural_value(RSI_BUY as nat, 30, 48);
    lemma_natural_value(RSI_CRASH as nat, 20, 48);
    lemma_natural_value(RSI_SELL as nat, 70, 46);
    lemma_natural_value(SIMULATED_USDT as nat, 10500, 39);
    lemma_natural_value(ONE as nat, 1, 52);
    lemma_natural_value(HUNDRED as nat, 100, 46);
    lemma_fraction_value(5, 1000, 60, 1014, 0x14_7ae1_47ae_147b);
    lemma_fraction_value(1, 1000, 62, 1012, 0x10_624d_d2f1_a9fc);
    lemma_fraction_value(5, 100, 57, 1017, 0x19_9999_9999_999a);
}

} // verus!
