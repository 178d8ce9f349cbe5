use coindcx_scalper::config;
use coindcx_scalper::double::Double;
use coindcx_scalper::strategy::{decide, unrealized_gain, BotState, Decision};

fn d(x: f64) -> Double {
    Double { bits: x.to_bits() }
}

fn position(entry: f64, highest: f64, quantity: f64) -> BotState {
    BotState::InPosition {
        entry_price: d(entry),
        highest_price: d(highest),
        quantity: d(quantity),
    }
}

#[test]
fn parameters_have_their_values() {
    assert_eq!(config::TRADE_CAPITAL, 10000.0f64.to_bits());
    assert_eq!(config::TRAILING_STOP_PCT, 0.005f64.to_bits());
    assert_eq!(config::RSI_BUY, 30.0f64.to_bits());
    assert_eq!(config::RSI_CRASH, 20.0f64.to_bits());
    assert_eq!(config::RSI_SELL, 70.0f64.to_bits());
    assert_eq!(config::SHUTDOWN_QUANTITY, 0.001f64.to_bits());
    assert_eq!(config::SIMULATED_USDT, 10500.0f64.to_bits());
    assert_eq!(config::SIMULATED_BTC, 0.05f64.to_bits());
    assert_eq!(config::ONE, 1.0f64.to_bits());
    assert_eq!(config::HUNDRED, 100.0f64.to_bits());
    assert!(config::SIMULATION_MODE);
    assert_eq!(config::PAIR, "B-BTC_USDT");
    assert_eq!(config::TIMEFRAME, "1m");
    assert_eq!(config::MARKET, "BTCUSDT");
    assert_eq!(config::HISTORY_CANDLES, 50);
    assert_eq!(config::BB_PERIOD, 20);
    assert_eq!(config::RSI_PERIOD, 14);
    assert_eq!(config::TICK_SECONDS, 5);
}

#[test]
fn oversold_below_the_band_is_bought() {
    let (state, choice) = decide(BotState::Idle, d(40000.0), d(29.9), d(40000.5));
    assert_eq!(choice, Decision::Buy { quantity: d(0.25) });
    assert_eq!(state, position(40000.0, 40000.0, 0.25));
}

#[test]
fn oversold_above_the_band_is_not_bought() {
    let (state, choice) = decide(BotState::Idle, d(40000.0), d(29.9), d(39999.0));
    assert_eq!(choice, Decision::Scan);
    assert_eq!(state, BotState::Idle);
    let on_the_band = decide(BotState::Idle, d(40000.0), d(25.0), d(40000.0));
    assert_eq!(on_the_band.1, Decision::Scan);
}

#[test]
fn a_crash_is_bought_whatever_the_band() {
    let (_, choice) = decide(BotState::Idle, d(30000.0), d(19.99), d(100.0));
    assert_eq!(choice, Decision::Buy { quantity: d(10000.0 / 30000.0) });
}

#[test]
fn entry_bounds_are_strict() {
    assert_eq!(decide(BotState::Idle, d(100.0), d(30.0), d(200.0)).1, Decision::Scan);
    assert_eq!(decide(BotState::Idle, d(100.0), d(20.0), d(50.0)).1, Decision::Scan);
    let below = f64::from_bits(20.0f64.to_bits() - 1);
    assert!(matches!(decide(BotState::Idle, d(100.0), d(below), d(50.0)).1, Decision::Buy { .. }));
}

#[test]
fn no_number_never_triggers_a_trade() {
    let nan = d(f64::NAN);
    assert_eq!(decide(BotState::Idle, d(100.0), nan, d(200.0)).1, Decision::Scan);
    assert_eq!(decide(BotState::Idle, nan, d(25.0), d(200.0)).1, Decision::Scan);
    let (state, choice) = decide(position(100.0, 100.0, 1.0), nan, d(50.0), d(0.0));
    assert_eq!(choice, Decision::Hold);
    assert_eq!(state, position(100.0, 100.0, 1.0));
}

#[test]
fn the_stop_follows_the_highest_price() {
    let start = position(1000.0, 1000.0, 2.0);
    let (risen, choice) = decide(start, d(1100.0), d(50.0), d(0.0));
    assert_eq!(choice, Decision::Hold);
    assert_eq!(risen, position(1000.0, 1100.0, 2.0));
    let (fallen, choice) = decide(risen, d(1095.0), d(50.0), d(0.0));
    assert_eq!(choice, Decision::Hold);
    assert_eq!(fallen, position(1000.0, 1100.0, 2.0));
    let (stopped, choice) = decide(fallen, d(1094.0), d(50.0), d(0.0));
    assert_eq!(choice, Decision::StopLoss { quantity: d(2.0), profit: d(188.0) });
    assert_eq!(stopped, BotState::Idle);
}

#[test]
fn the_stop_is_half_a_percent_below_the_peak() {
    let held = position(1000.0, 1000.0, 1.0);
    let stop: f64 = 1000.0 * (1.0 - 0.005);
    assert_eq!(stop, 995.0);
    let above = f64::from_bits(stop.to_bits() + 1);
    assert_eq!(decide(held, d(above), d(50.0), d(0.0)).1, Decision::Hold);
    for price in [stop, f64::from_bits(stop.to_bits() - 1), 1.0, 0.0, -7.0] {
        assert_eq!(
            decide(held, d(price), d(50.0), d(0.0)).1,
            Decision::StopLoss { quantity: d(1.0), profit: d(price - 1000.0) },
        );
    }
}

#[test]
fn a_reversal_of_exactly_half_a_percent_is_sold() {
    for i in 1..2000 {
        let highest = 200.0 * i as f64;
        let price = 199.0 * i as f64;
        assert_eq!(
            decide(position(highest, highest, 1.0), d(price), d(50.0), d(0.0)).1,
            Decision::StopLoss { quantity: d(1.0), profit: d(price - highest) },
        );
    }
}

#[test]
fn without_a_reversal_nothing_is_stopped() {
    let held = |bits: u64| BotState::InPosition {
        entry_price: Double { bits },
        highest_price: Double { bits },
        quantity: d(1.0),
    };
    let at_peak = |bits: u64| decide(held(bits), Double { bits }, d(50.0), d(0.0)).1;
    for bits in [0, 1, 99, 100, 101, f64::MAX.to_bits(), f64::INFINITY.to_bits()] {
        assert_eq!(at_peak(bits), Decision::Hold);
    }
    assert_eq!(at_peak((-5.0f64).to_bits()), Decision::Hold);
    let fallen = decide(held(f64::INFINITY.to_bits()), d(1.0), d(50.0), d(0.0)).1;
    assert!(matches!(fallen, Decision::StopLoss { .. }));
}

#[test]
fn a_new_high_is_never_stopped() {
    for price in [1000.0, 1000.5, 5000.0, f64::MAX] {
        assert_eq!(decide(position(900.0, 1000.0, 1.0), d(price), d(70.0), d(0.0)).1, Decision::Hold);
    }
}

#[test]
fn overbought_is_sold() {
    let held = position(1000.0, 1010.0, 0.5);
    let (state, choice) = decide(held, d(1008.0), d(70.1), d(0.0));
    assert_eq!(choice, Decision::TakeProfit { quantity: d(0.5), profit: d(4.0) });
    assert_eq!(state, BotState::Idle);
    assert_eq!(decide(held, d(1008.0), d(70.0), d(0.0)).1, Decision::Hold);
}

#[test]
fn the_stop_comes_before_the_profit() {
    let held = position(1000.0, 2000.0, 1.0);
    assert_eq!(
        decide(held, d(1900.0), d(99.0), d(0.0)).1,
        Decision::StopLoss { quantity: d(1.0), profit: d(900.0) },
    );
}

#[test]
fn the_unrealized_gain_is_in_percent() {
    assert_eq!(unrealized_gain(BotState::Idle, d(123.0)), d(0.0));
    assert_eq!(unrealized_gain(position(200.0, 250.0, 1.0), d(210.0)), d(5.0));
    let gain = (65000.3 - 64123.7) / 64123.7 * 100.0;
    assert_eq!(unrealized_gain(position(64123.7, 65000.3, 1.0), d(65000.3)), d(gain));
}

#[test]
fn decisions_agree_with_machine_arithmetic() {
    let mut seed: u64 = 42;
    let mut state = BotState::Idle;
    let mut held: Option<(f64, f64, f64)> = None;
    for _ in 0..5000 {
        seed = seed.wrapping_mul(6364136223846793005).wrapping_add(1442695040888963407);
        let price = 60000.0 + ((seed >> 40) % 100_000) as f64 / 77.0;
        let rsi = ((seed >> 33) % 1000) as f64 / 10.0;
        let lower = 60000.0 + ((seed >> 22) % 100_000) as f64 / 77.0;
        let (next, choice) = decide(state, d(price), d(rsi), d(lower));
        match held {
            None => {
                if (rsi < 30.0 && price < lower) || rsi < 20.0 {
                    let quantity = 10000.0 / price;
                    assert_eq!(choice, Decision::Buy { quantity: d(quantity) });
                    held = Some((price, price, quantity));
                } else {
                    assert_eq!(choice, Decision::Scan);
                }
            }
            Some((entry, high, quantity)) => {
                let high = if price > high { price } else { high };
                let profit = d((price - entry) * quantity);
                if price < high && price <= high * (1.0 - 0.005) {
                    assert_eq!(choice, Decision::StopLoss { quantity: d(quantity), profit });
                    held = None;
                } else if rsi > 70.0 {
                    assert_eq!(choice, Decision::TakeProfit { quantity: d(quantity), profit });
                    held = None;
                } else {
                    assert_eq!(choice, Decision::Hold);
                    held = Some((entry, high, quantity));
                }
            }
        }
        state = next;
    }
}
