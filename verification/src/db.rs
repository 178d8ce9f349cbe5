//! The statements that the bot sends to its database.

use crate::candle::Candle;
use crate::clock::{chrono_rfc3339, prune_threshold, rfc3339, Moment, KEEP_MILLIS};
use crate::double::Double;
use vstd::prelude::*;
use vstd::string::*;

verus! {

/// A value bound to a statement.
#[derive(Clone, Debug)]
pub enum SqlValue {
    Integer(i64),
    Real(Double),
    Text(String),
}

/// A bound value as a mathematical value.
#[verifier::ext_equal]
pub enum SqlView {
    Integer(int),
    Real(Double),
    Text(Seq<char>),
}

impl View for SqlValue {
    type V = SqlView;

    open spec fn view(&self) -> SqlView {
        match self {
            SqlValue::Integer(n) => SqlView::Integer(*n as int),
            SqlValue::Real(x) => SqlView::Real(*x),
            SqlValue::Text(s) => SqlView::Text(s@),
        }
    }
}

/// A statement and the values of its parameters, in order.
#[derive(Clone, Debug)]
pub struct Statement {
    pub sql: &'static str,
    pub params: Vec<SqlValue>,
}

/// A statement as a mathematical value.
#[verifier::ext_equal]
pub struct StatementView {
    pub sql: Seq<char>,
    pub params: Seq<SqlView>,
}

impl View for Statement {
    type V = StatementView;

    open spec fn view(&self) -> StatementView {
        StatementView { sql: self.sql@, params: self.params@.map_values(|v: SqlValue| v@) }
    }
}

/// Stores a candle with its indicator values, in place of one of the same minute.
pub open spec fn save_candle_statement(
    candle: Candle,
    rsi: Double,
    bb_lower: Double,
    bb_upper: Double,
) -> StatementView {
    StatementView {
        sql: "INSERT OR REPLACE INTO candles (time, open, high, low, close, rsi, bb_lower, bb_upper) VALUES (?1, ?2, ?3, ?4, ?5, ?6, ?7, ?8)"@,
        params: seq![
            SqlView::Integer(candle.time as int),
            SqlView::Real(candle.open),
            SqlView::Real(candle.high),
            SqlView::Real(candle.low),
            SqlView::Real(candle.close),
            SqlView::Real(rsi),
            SqlView::Real(bb_lower),
            SqlView::Real(bb_upper),
        ],
    }
}

/// Reads the latest candles, the newest first.
pub open spec fn recent_candles_statement(limit: int) -> StatementView {
    StatementView {
        sql: "SELECT time, open, high, low, close FROM candles ORDER BY time DESC LIMIT ?1"@,
        params: seq![SqlView::Integer(limit)],
    }
}

/// Records a trade under a time stamp.
pub open spec fn trade_record_statement(
    action: Seq<char>,
    price: Double,
    quantity: Double,
    profit: Double,
    timestamp: Seq<char>,
) -> StatementView {
    StatementView {
        sql: "INSERT INTO trades (action, price, quantity, profit, timestamp) VALUES (?1, ?2, ?3, ?4, ?5)"@,
        params: seq![
            SqlView::Text(action),
            SqlView::Real(price),
            SqlView::Real(quantity),
            SqlView::Real(profit),
            SqlView::Text(timestamp),
        ],
    }
}

/// Records a trade under the date and time.
pub open spec fn log_trade_statement(
    action: Seq<char>,
    price: Double,
    quantity: Double,
    profit: Double,
    at: Moment,
) -> StatementView {
    trade_record_statement(
        action,
        price,
        quantity,
        profit,
        rfc3339(at.secs as int, at.nanos as int),
    )
}

/// Deletes the candles that are too old at the given time.
pub open spec fn prune_statement(at: Moment) -> StatementView {
    StatementView {
        sql: "DELETE FROM candles WHERE time < ?1"@,
        params: seq![SqlView::Integer(at.spec_millis() - KEEP_MILLIS)],
    }
}

/// A statement without parameters.
pub open spec fn plain_statement(sql: Seq<char>) -> StatementView {
    StatementView { sql, params: seq![] }
}

/// What prepares the database: the journal mode that lets others read meanwhile, then both
/// tables made anew.
pub open spec fn init_statements() -> Seq<StatementView> {
    seq![
        plain_statement("PRAGMA journal_mode='WAL'"@),
        plain_statement("DROP TABLE IF EXISTS candles"@),
        plain_statement("DROP TABLE IF EXISTS trades"@),
        plain_statement(
            "CREATE TABLE IF NOT EXISTS candles (time INTEGER PRIMARY KEY, open REAL, high REAL, low REAL, close REAL, rsi REAL, bb_lower REAL, bb_upper REAL)"@,
        ),
        plain_statement(
            "CREATE TABLE IF NOT EXISTS trades (id INTEGER PRIMARY KEY, action TEXT, price REAL, quantity REAL, profit REAL, timestamp TEXT)"@,
        ),
    ]
}

/// The contents of statements.
pub open spec fn statements(list: Seq<Statement>) -> Seq<StatementView> {
    list.map_values(|s: Statement| s@)
}

fn plain(sql: &'static str) -> (r: Statement)
    ensures
        r@ == plain_statement(sql@),
{
    let r = Statement { sql, params: Vec::new() };
    assert(r@.params =~= seq![]);
    r
}

/// The statements, one for each operation on the database.
pub struct DbManager;

impl DbManager {
    /// Prepares the database: both tables are made anew.
    pub fn init() -> (r: Vec<Statement>)
        ensures
            statements(r@) == init_statements(),
    {
        let r = vec![
            plain("PRAGMA journal_mode='WAL'"),
            plain("DROP TABLE IF EXISTS candles"),
            plain("DROP TABLE IF EXISTS trades"),
            plain("CREATE TABLE IF NOT EXISTS candles (time INTEGER PRIMARY KEY, open REAL, high REAL, low REAL, close REAL, rsi REAL, bb_lower REAL, bb_upper REAL)"),
            plain("CREATE TABLE IF NOT EXISTS trades (id INTEGER PRIMARY KEY, action TEXT, price REAL, quantity REAL, profit REAL, timestamp TEXT)"),
        ];
        assert(statements(r@) =~= init_statements());
        r
    }

    /// Stores a candle with its indicator values, in place of one of the same minute.
    pub fn save_candle(candle: &Candle, rsi: Double, bb_lower: Double, bb_upper: Double) -> (r:
        Statement)
        ensures
            r@ == save_candle_statement(*candle, rsi, bb_lower, bb_upper),
    {
        let r = Statement {
            sql: "INSERT OR REPLACE INTO candles (time, open, high, low, close, rsi, bb_lower, bb_upper) VALUES (?1, ?2, ?3, ?4, ?5, ?6, ?7, ?8)",
            params: vec![
                SqlValue::Integer(candle.time),
                SqlValue::Real(candle.open),
                SqlValue::Real(candle.high),
                SqlValue::Real(candle.low),
                SqlValue::Real(candle.close),
                SqlValue::Real(rsi),
                SqlValue::Real(bb_lower),
                SqlValue::Real(bb_upper),
            ],
        };
        assert(r@.params =~= save_candle_statement(*candle, rsi, bb_lower, bb_upper).params);
        r
    }

    /// Reads the latest candles, the newest first. A limit that is no 64-bit signed integer
    /// cannot be bound.
    pub fn get_recent_candles(limit: usize) -> (r: Option<Statement>)
        ensures
            r is Some <==> limit <= i64::MAX,
            r matches Some(statement) ==> statement@ == recent_candles_statement(limit as int),
    {
        if limit as u64 > 0x7fff_ffff_ffff_ffff {
            return None;
        }
        let r = Statement {
            sql: "SELECT time, open, high, low, close FROM candles ORDER BY time DESC LIMIT ?1",
            params: vec![SqlValue::Integer(limit as i64)],
        };
        assert(r@.params =~= recent_candles_statement(limit as int).params);
        Some(r)
    }

    /// Records a trade under a time stamp.
    pub fn trade_record(
        action: &str,
        price: Double,
        quantity: Double,
        profit: Double,
        timestamp: String,
    ) -> (r: Statement)
        ensures
            r@ == trade_record_statement(action@, price, quantity, profit, timestamp@),
    {
        let r = Statement {
            sql: "INSERT INTO trades (action, price, quantity, profit, timestamp) VALUES (?1, ?2, ?3, ?4, ?5)",
            params: vec![
                SqlValue::Text(action.to_owned()),
                SqlValue::Real(price),
                SqlValue::Real(quantity),
                SqlValue::Real(profit),
                SqlValue::Text(timestamp),
            ],
        };
        assert(r@.params =~= trade_record_statement(
            action@,
            price,
            quantity,
            profit,
            timestamp@,
        ).params);
        r
    }

    /// Records a trade at the given time.
    pub fn log_trade(
        action: &str,
        price: Double,
        quantity: Double,
        profit: Double,
        at: Moment,
    ) -> (r: Statement)
        requires
            at.valid(),
        ensures
            r@ == log_trade_statement(action@, price, quantity, profit, at),
    {
        DbManager::trade_record(action, price, quantity, profit, chrono_rfc3339(at))
    }

    /// Deletes the candles that are more than an hour old.
    pub fn prune_old_data(at: Moment) -> (r: Statement)
        requires
            at.valid(),
        ensures
            r@ == prune_statement(at),
    {
        let r = Statement {
            sql: "DELETE FROM candles WHERE time < ?1",
            params: vec![SqlValue::Integer(prune_threshold(at))],
        };
        assert(r@.params =~= prune_statement(at).params);
        r
    }
}

/// Pruning spares exactly the candles that are at most an hour old: their opening times are not
/// below the bound that the statement deletes by.
pub proof fn law_candles_of_the_last_hour_are_kept(at: Moment, opened: int)
    ensures
        prune_statement(at).params.len() == 1,
        prune_statement(at).params[0] matches SqlView::Integer(bound) && (opened >= bound
            <==> at.spec_millis() - opened <= 60 * 60 * 1000),
{
}

/// A candle is stored in the row of its minute, in place of one that is there: time, open, high,
/// low, close, relative strength, lower band and upper band, each in its column.
pub proof fn law_a_candle_is_stored_by_column(
    candle: Candle,
    rsi: Double,
    bb_lower: Double,
    bb_upper: Double,
)
    ensures
        ({
            let s = save_candle_statement(candle, rsi, bb_lower, bb_upper);
            &&& s.sql
                == "INSERT OR REPLACE INTO candles (time, open, high, low, close, rsi, bb_lower, bb_upper) VALUES (?1, ?2, ?3, ?4, ?5, ?6, ?7, ?8)"@
            &&& s.params.len() == 8
            &&& s.params[0] == SqlView::Integer(candle.time as int)
            &&& s.params[1] == SqlView::Real(candle.open)
            &&& s.params[2] == SqlView::Real(candle.high)
            &&& s.params[3] == SqlView::Real(candle.low)
            &&& s.params[4] == SqlView::Real(candle.close)
            &&& s.params[5] == SqlView::Real(rsi)
            &&& s.params[6] == SqlView::Real(bb_lower)
            &&& s.params[7] == SqlView::Real(bb_upper)
        }),
{
}

/// Candles that differ, or differ in their indicators, are stored by different statements.
pub proof fn law_stored_candles_are_told_apart(
    a: Candle,
    a_now: (Double, Double, Double),
    b: Candle,
    b_now: (Double, Double, Double),
)
    requires
        save_candle_statement(a, a_now.0, a_now.1, a_now.2) == save_candle_statement(
            b,
            b_now.0,
            b_now.1,
            b_now.2,
        ),
    ensures
        a == b,
        a_now == b_now,
{
    law_a_candle_is_stored_by_column(a, a_now.0, a_now.1, a_now.2);
    law_a_candle_is_stored_by_column(b, b_now.0, b_now.1, b_now.2);
}

/// The latest candles are read, the newest first, as many as asked for.
pub proof fn law_the_latest_candles_are_read(limit: int)
    ensures
        ({
            let s = recent_candles_statement(limit);
            &&& s.sql
                == "SELECT time, open, high, low, close FROM candles ORDER BY time DESC LIMIT ?1"@
            &&& s.params.len() == 1 && s.params[0] == SqlView::Integer(limit)
        }),
{
}

/// A trade is recorded with its action, price, quantity, profit and date and time, each in its
/// column.
pub proof fn law_a_trade_is_recorded_by_column(
    action: Seq<char>,
    price: Double,
    quantity: Double,
    profit: Double,
    at: Moment,
)
    ensures
        ({
            let s = log_trade_statement(action, price, quantity, profit, at);
            &&& s.sql
                == "INSERT INTO trades (action, price, quantity, profit, timestamp) VALUES (?1, ?2, ?3, ?4, ?5)"@
            &&& s.params.len() == 5
            &&& s.params[0] == SqlView::Text(action)
            &&& s.params[1] == SqlView::Real(price)
            &&& s.params[2] == SqlView::Real(quantity)
            &&& s.params[3] == SqlView::Real(profit)
            &&& s.params[4] == SqlView::Text(rfc3339(at.secs as int, at.nanos as int))
        }),
        forall|stamp: Seq<char>| #[trigger]
            trade_record_statement(action, price, quantity, profit, stamp).params
                =~= log_trade_statement(action, price, quantity, profit, at).params.update(
                4,
                SqlView::Text(stamp),
            ),
{
}

/// Old candles are deleted by a bound: what opened more than an hour ago.
pub proof fn law_pruning_goes_by_the_clock(at: Moment)
    ensures
        prune_statement(at).sql == "DELETE FROM candles WHERE time < ?1"@,
        prune_statement(at).params =~= seq![
            SqlView::Integer(at.secs * 1000 + at.nanos as int / 1_000_000 - 60 * 60 * 1000),
        ],
{
}

/// Preparing the database turns on write-ahead logging, drops both tables and makes them anew.
pub proof fn law_database_is_prepared()
    ensures
        ({
            let list = init_statements();
            &&& list.len() == 5
            &&& forall|i: int| 0 <= i < 5 ==> (#[trigger] list[i]).params.len() == 0
            &&& list[0].sql == "PRAGMA journal_mode='WAL'"@
            &&& list[1].sql == "DROP TABLE IF EXISTS candles"@
            &&& list[2].sql == "DROP TABLE IF EXISTS trades"@
            &&& list[3].sql
                == "CREATE TABLE IF NOT EXISTS candles (time INTEGER PRIMARY KEY, open REAL, high REAL, low REAL, close REAL, rsi REAL, bb_lower REAL, bb_upper REAL)"@
            &&& list[4].sql
                == "CREATE TABLE IF NOT EXISTS trades (id INTEGER PRIMARY KEY, action TEXT, price REAL, quantity REAL, profit REAL, timestamp TEXT)"@
        }),
{
}

/// A statement is seen as it is run.
pub proof fn law_statements_are_seen_as_they_are(statement: Statement)
    ensures
        statement@.sql == statement.sql@,
        statement@.params.len() == statement.params@.len(),
        forall|i: int|
            0 <= i < statement.params@.len() ==> #[trigger] statement@.params[i] == (
            match statement.params@[i] {
                SqlValue::Integer(number) => SqlView::Integer(number as int),
                SqlValue::Real(number) => SqlView::Real(number),
                SqlValue::Text(text) => SqlView::Text(text@),
            }),
{
}

/// Statements are seen one by one, in order.
pub proof fn law_lists_of_statements_are_seen_in_order(list: Seq<Statement>)
    ensures
        statements(list).len() == list.len(),
        forall|i: int| 0 <= i < list.len() ==> #[trigger] statements(list)[i] == list[i]@,
{
}

} // verus!
