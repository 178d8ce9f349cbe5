use coindcx_scalper::candle::{closes, reversed, Candle};
use coindcx_scalper::clock::{
    candle_start, prune_due, prune_threshold, wallet_due, Moment, CALENDAR_END, CALENDAR_START,
};
use coindcx_scalper::dashboard::DashboardData;
use coindcx_scalper::db::{DbManager, SqlValue, Statement};
use coindcx_scalper::double::Double;
use coindcx_scalper::orders::{execute_trade, Order, Side, TradePlan};

fn d(x: f64) -> Double {
    Double { bits: x.to_bits() }
}

fn at(secs: i64) -> Moment {
    Moment { secs, nanos: 0 }
}

fn candle(open: f64, high: f64, low: f64, close: f64, time: i64) -> Candle {
    Candle { open: d(open), high: d(high), low: d(low), close: d(close), time }
}

fn texts(statement: &Statement) -> Vec<String> {
    statement
        .params
        .iter()
        .map(|p| match p {
            SqlValue::Integer(i) => format!("i {}", i),
            SqlValue::Real(x) => format!("r {:?}", f64::from_bits(x.bits)),
            SqlValue::Text(t) => format!("t {}", t),
        })
        .collect()
}

#[test]
fn log_lines_carry_the_time_of_day() {
    let mut data = DashboardData::new();
    data.add_log("first", at(0));
    data.add_log("second", at(86_399));
    data.add_log("third", Moment { secs: 1_700_000_000, nanos: 999_999_999 });
    assert_eq!(data.logs, vec!["22:13:20 | third", "23:59:59 | second", "00:00:00 | first"]);
}

#[test]
fn log_lines_before_the_epoch_carry_the_time_of_day() {
    let mut data = DashboardData::new();
    data.add_log("before", at(-1));
    assert_eq!(data.logs[0], "23:59:59 | before");
    data.add_log("start", at(CALENDAR_START));
    data.add_log("end", Moment { secs: CALENDAR_END, nanos: 999_999_999 });
    assert_eq!(data.logs[1], "00:00:00 | start");
    assert_eq!(data.logs[0], "23:59:59 | end");
}

#[test]
fn times_of_day_agree_with_the_seconds_of_the_day() {
    let mut data = DashboardData::new();
    for second in (0..86_400).step_by(977) {
        data.add_log("x", at(second + 86_400 * 19_000));
        let expected =
            format!("{:02}:{:02}:{:02} | x", second / 3600, second / 60 % 60, second % 60);
        assert_eq!(data.logs[0], expected);
    }
}

#[test]
fn the_log_keeps_thirty_lines() {
    let mut data = DashboardData::new();
    for i in 0..30 {
        data.add_log(&format!("line {}", i), at(0));
    }
    assert_eq!(data.logs.len(), 30);
    assert_eq!(data.logs[29], "00:00:00 | line 0");
    data.add_log("line 30", at(0));
    assert_eq!(data.logs.len(), 30);
    assert_eq!(data.logs[0], "00:00:00 | line 30");
    assert_eq!(data.logs[29], "00:00:00 | line 1");
}

#[test]
fn the_dashboard_starts_empty() {
    let data = DashboardData::new();
    assert_eq!(data.status, "Starting...");
    assert!(data.logs.is_empty());
    for x in [
        data.price, data.rsi, data.bb_lower, data.bb_upper, data.entry_price, data.unrealized_pl,
        data.realized_pl, data.wallet_usdt, data.wallet_btc,
    ] {
        assert_eq!(x, d(0.0));
    }
}

#[test]
fn the_calendar_is_that_of_the_clock() {
    assert!(chrono::DateTime::from_timestamp(CALENDAR_START, 0).is_some());
    assert!(chrono::DateTime::from_timestamp(CALENDAR_START - 1, 0).is_none());
    assert!(chrono::DateTime::from_timestamp(CALENDAR_END, 999_999_999).is_some());
    assert!(chrono::DateTime::from_timestamp(CALENDAR_END + 1, 0).is_none());
}

#[test]
fn points_in_time_are_checked_against_the_calendar() {
    assert_eq!(Moment::checked(0, 0), Some(at(0)));
    let end = Moment { secs: CALENDAR_END, nanos: 999_999_999 };
    assert_eq!(Moment::checked(CALENDAR_END, 999_999_999), Some(end));
    assert_eq!(Moment::checked(CALENDAR_START, 0), Some(at(CALENDAR_START)));
    assert_eq!(Moment::checked(CALENDAR_START - 1, 0), None);
    assert_eq!(Moment::checked(CALENDAR_END + 1, 0), None);
    assert_eq!(Moment::checked(0, 1_000_000_000), None);
}

#[test]
fn a_logged_line_is_given_to_be_printed() {
    let mut data = DashboardData::new();
    for _ in 0..40 {
        assert_eq!(data.add_log("again", at(61)), "00:01:01 | again");
    }
    assert_eq!(data.logs.len(), 30);
}

#[test]
fn milliseconds_are_rounded_down() {
    assert_eq!(Moment { secs: 1, nanos: 999_999 }.millis(), 1000);
    assert_eq!(Moment { secs: 1, nanos: 1_999_999 }.millis(), 1001);
    assert_eq!(Moment { secs: -1, nanos: 1_000_000 }.millis(), -999);
}

#[test]
fn candles_open_on_the_minute() {
    assert_eq!(candle_start(0), 0);
    assert_eq!(candle_start(59_999), 0);
    assert_eq!(candle_start(60_000), 60_000);
    assert_eq!(candle_start(1_700_000_012_345), 1_699_999_980_000);
    assert_eq!(candle_start(-1), 0);
    assert_eq!(candle_start(-60_001), -60_000);
    assert_eq!(candle_start(i64::MAX), i64::MAX / 60_000 * 60_000);
    assert_eq!(candle_start(i64::MIN), i64::MIN / 60_000 * 60_000);
}

#[test]
fn chores_are_due_after_their_intervals() {
    assert!(!prune_due(300_000_000_000));
    assert!(prune_due(300_000_000_001));
    assert!(!wallet_due(60_000_000_000));
    assert!(wallet_due(60_000_000_001));
}

#[test]
fn a_candle_summarises_its_minute() {
    let mut c = Candle::blank();
    assert_eq!(c, candle(0.0, 0.0, 0.0, 0.0, -1));
    c.tick(d(10.0), 120_500);
    assert_eq!(c, candle(10.0, 10.0, 10.0, 10.0, 120_000));
    c.tick(d(12.0), 125_500);
    c.tick(d(9.0), 130_500);
    c.tick(d(11.0), 179_999);
    assert_eq!(c, candle(10.0, 12.0, 9.0, 11.0, 120_000));
    c.tick(d(20.0), 180_000);
    assert_eq!(c, candle(20.0, 20.0, 20.0, 20.0, 180_000));
}

#[test]
fn a_candle_takes_no_number_as_its_close_alone() {
    let mut c = candle(10.0, 12.0, 9.0, 11.0, 60_000);
    c.tick(Double { bits: f64::NAN.to_bits() }, 61_000);
    assert_eq!(c.high, d(12.0));
    assert_eq!(c.low, d(9.0));
    assert!(f64::from_bits(c.close.bits).is_nan());
}

#[test]
fn the_first_tick_opens_a_candle_in_any_minute() {
    for millis in [0, 30_000, 59_999, -1, -30_000, 60_000, 1_700_000_012_345] {
        let mut c = Candle::blank();
        c.tick(d(5.0), millis);
        assert_eq!(c, candle(5.0, 5.0, 5.0, 5.0, candle_start(millis)));
    }
}

#[test]
fn candles_are_put_in_order() {
    let list = vec![candle(1.0, 1.0, 1.0, 3.0, 180), candle(1.0, 1.0, 1.0, 2.0, 120)];
    let forward = reversed(&list);
    assert_eq!(forward, vec![list[1], list[0]]);
    assert_eq!(closes(&forward), vec![d(2.0), d(3.0)]);
    assert!(reversed(&vec![]).is_empty());
}

#[test]
fn the_tables_are_made_anew() {
    let list = DbManager::init();
    let sql: Vec<&str> = list.iter().map(|s| s.sql).collect();
    assert_eq!(sql.len(), 5);
    assert!(sql[0].starts_with("PRAGMA journal_mode"));
    assert_eq!(sql[1], "DROP TABLE IF EXISTS candles");
    assert_eq!(sql[2], "DROP TABLE IF EXISTS trades");
    assert!(sql[3].starts_with("CREATE TABLE IF NOT EXISTS candles (time INTEGER PRIMARY KEY"));
    assert!(sql[4].starts_with("CREATE TABLE IF NOT EXISTS trades (id INTEGER PRIMARY KEY"));
    assert!(list.iter().all(|s| s.params.is_empty()));
}

#[test]
fn a_candle_is_stored_with_its_indicators() {
    let s = DbManager::save_candle(&candle(1.0, 4.0, 0.5, 2.0, 60_000), d(33.0), d(1.5), d(3.5));
    assert!(s.sql.starts_with("INSERT OR REPLACE INTO candles"));
    assert_eq!(
        texts(&s),
        vec!["i 60000", "r 1.0", "r 4.0", "r 0.5", "r 2.0", "r 33.0", "r 1.5", "r 3.5"],
    );
}

#[test]
fn recent_candles_are_read_newest_first() {
    let s = DbManager::get_recent_candles(50).unwrap();
    assert_eq!(
        s.sql,
        "SELECT time, open, high, low, close FROM candles ORDER BY time DESC LIMIT ?1",
    );
    assert_eq!(texts(&s), vec!["i 50"]);
    assert!(DbManager::get_recent_candles(0).is_some());
    assert!(DbManager::get_recent_candles(i64::MAX as usize).is_some());
    assert!(DbManager::get_recent_candles(i64::MAX as usize + 1).is_none());
}

#[test]
fn trades_are_recorded_under_the_date_and_time() {
    let when = Moment { secs: 1_700_000_000, nanos: 123_000_000 };
    let s = DbManager::log_trade("sell", d(64000.5), d(0.25), d(-12.5), when);
    assert_eq!(
        s.sql,
        "INSERT INTO trades (action, price, quantity, profit, timestamp) VALUES (?1, ?2, ?3, ?4, ?5)",
    );
    assert_eq!(
        texts(&s),
        vec!["t sell", "r 64000.5", "r 0.25", "r -12.5", "t 2023-11-14T22:13:20.123+00:00"],
    );
    let early = DbManager::log_trade("buy", d(1.0), d(1.0), d(0.0), at(0));
    assert_eq!(texts(&early)[4], "t 1970-01-01T00:00:00+00:00");
}

#[test]
fn trades_are_recorded_under_any_time_stamp() {
    let s = DbManager::trade_record("buy", d(2.0), d(3.0), d(4.0), "noon".to_string());
    assert_eq!(texts(&s), vec!["t buy", "r 2.0", "r 3.0", "r 4.0", "t noon"]);
}

#[test]
fn candles_over_an_hour_old_are_pruned() {
    let when = Moment { secs: 7200, nanos: 500_000_000 };
    let s = DbManager::prune_old_data(when);
    assert_eq!(s.sql, "DELETE FROM candles WHERE time < ?1");
    assert_eq!(texts(&s), vec!["i 3600500"]);
    assert_eq!(prune_threshold(at(3600)), 0);
}

#[test]
fn simulated_trades_are_recorded_without_profit() {
    let order = Order { side: Side::Buy, price: d(40000.0), quantity: d(0.25) };
    match execute_trade(true, order, at(0), 5) {
        TradePlan::Simulated(s) => assert_eq!(
            texts(&s),
            vec!["t buy", "r 40000.0", "r 0.25", "r 0.0", "t 1970-01-01T00:00:00+00:00"],
        ),
        TradePlan::Real(_) => panic!("not simulated"),
    }
}

#[test]
fn real_trades_are_limit_orders() {
    let order = Order { side: Side::Sell, price: d(40000.0), quantity: d(0.25) };
    match execute_trade(false, order, at(0), 1_700_000_000_123) {
        TradePlan::Real(p) => {
            assert_eq!(p.side, "sell");
            assert_eq!(p.order_type, "limit_order");
            assert_eq!(p.market, "BTCUSDT");
            assert_eq!(p.price_per_unit, Some(d(40000.0)));
            assert_eq!(p.total_quantity, d(0.25));
            assert_eq!(p.timestamp, 1_700_000_000_123);
        }
        TradePlan::Simulated(_) => panic!("simulated"),
    }
}

#[test]
fn a_shown_position_is_sold_on_shutdown() {
    let mut data = DashboardData::new();
    assert_eq!(data.shutdown_order(), None);
    data.price = d(41000.0);
    data.entry_price = d(40000.0);
    assert_eq!(
        data.shutdown_order(),
        Some(Order { side: Side::Sell, price: d(41000.0), quantity: d(0.001) }),
    );
    data.entry_price = d(-1.0);
    assert_eq!(data.shutdown_order(), None);
    data.entry_price = Double { bits: f64::NAN.to_bits() };
    assert_eq!(data.shutdown_order(), None);
}
