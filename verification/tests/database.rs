use coindcx_scalper::candle::{reversed, Candle};
use coindcx_scalper::clock::Moment;
use coindcx_scalper::db::{DbManager, SqlValue, Statement};
use coindcx_scalper::double::Double;
use rusqlite::types::Value;
use rusqlite::{params_from_iter, Connection};

fn d(x: f64) -> Double {
    Double { bits: x.to_bits() }
}

fn flat(price: f64, time: i64) -> Candle {
    Candle { open: d(price), high: d(price), low: d(price), close: d(price), time }
}

fn values(statement: &Statement) -> Vec<Value> {
    statement
        .params
        .iter()
        .map(|p| match p {
            SqlValue::Integer(i) => Value::Integer(*i),
            SqlValue::Real(x) => Value::Real(f64::from_bits(x.bits)),
            SqlValue::Text(t) => Value::Text(t.clone()),
        })
        .collect()
}

fn opened() -> Connection {
    let conn = Connection::open_in_memory().unwrap();
    for statement in DbManager::init() {
        conn.execute_batch(statement.sql).unwrap();
    }
    conn
}

fn run(conn: &Connection, statement: &Statement) -> usize {
    conn.execute(statement.sql, params_from_iter(values(statement))).unwrap()
}

fn recent(conn: &Connection, limit: usize) -> Vec<Candle> {
    let statement = DbManager::get_recent_candles(limit).unwrap();
    let mut prepared = conn.prepare(statement.sql).unwrap();
    let rows = prepared
        .query_map(params_from_iter(values(&statement)), |row| {
            Ok(Candle {
                time: row.get(0)?,
                open: d(row.get(1)?),
                high: d(row.get(2)?),
                low: d(row.get(3)?),
                close: d(row.get(4)?),
            })
        })
        .unwrap();
    rows.map(|r| r.unwrap()).collect()
}

#[test]
fn stored_candles_are_read_back_newest_first() {
    let conn = opened();
    for i in [2, 0, 1] {
        let candle = flat(i as f64 + 0.1, 60_000 * i);
        run(&conn, &DbManager::save_candle(&candle, d(50.0), d(1.0), d(2.0)));
    }
    let rows = recent(&conn, 50);
    assert_eq!(rows, vec![flat(2.1, 120_000), flat(1.1, 60_000), flat(0.1, 0)]);
    assert_eq!(recent(&conn, 2), vec![flat(2.1, 120_000), flat(1.1, 60_000)]);
    let forward = reversed(&rows);
    assert!(forward.windows(2).all(|w| w[0].time < w[1].time));
}

#[test]
fn a_candle_replaces_that_of_the_same_minute() {
    let conn = opened();
    run(&conn, &DbManager::save_candle(&flat(1.0, 60_000), d(0.0), d(0.0), d(0.0)));
    run(&conn, &DbManager::save_candle(&flat(2.0, 60_000), d(0.0), d(0.0), d(0.0)));
    assert_eq!(recent(&conn, 50), vec![flat(2.0, 60_000)]);
}

#[test]
fn pruning_keeps_the_last_hour() {
    let conn = opened();
    for time in [0, 59_999, 60_000, 3_660_000] {
        run(&conn, &DbManager::save_candle(&flat(1.0, time), d(0.0), d(0.0), d(0.0)));
    }
    let deleted = run(&conn, &DbManager::prune_old_data(Moment { secs: 3_660, nanos: 0 }));
    assert_eq!(deleted, 2);
    assert_eq!(recent(&conn, 50), vec![flat(1.0, 3_660_000), flat(1.0, 60_000)]);
}

#[test]
fn trades_are_kept_as_they_were_recorded() {
    let conn = opened();
    let at = Moment { secs: 0, nanos: 0 };
    run(&conn, &DbManager::log_trade("sell", d(1.5), d(2.5), d(-3.5), at));
    let row: (i64, String, f64, f64, f64, String) = conn
        .query_row("SELECT id, action, price, quantity, profit, timestamp FROM trades", [], |row| {
            Ok((row.get(0)?, row.get(1)?, row.get(2)?, row.get(3)?, row.get(4)?, row.get(5)?))
        })
        .unwrap();
    let time = "1970-01-01T00:00:00+00:00".to_string();
    assert_eq!(row, (1, "sell".to_string(), 1.5, 2.5, -3.5, time));
}

#[test]
fn preparing_again_empties_the_tables() {
    let conn = opened();
    run(&conn, &DbManager::save_candle(&flat(1.0, 60_000), d(0.0), d(0.0), d(0.0)));
    for statement in DbManager::init() {
        conn.execute_batch(statement.sql).unwrap();
    }
    assert!(recent(&conn, 50).is_empty());
}
