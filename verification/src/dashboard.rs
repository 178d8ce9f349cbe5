//! What the dashboard shows: the latest figures, the wallet and the log.

use crate::clock::{chrono_time_of_day, Moment};
use crate::double::Double;
use vstd::prelude::*;
use vstd::string::*;

verus! {

/// Number of log lines that are kept.
pub const LOG_LINES: usize = 30;

/// The dashboard's figures.
#[derive(Clone, Debug)]
pub struct DashboardData {
    pub price: Double,
    pub rsi: Double,
    pub bb_lower: Double,
    pub bb_upper: Double,
    pub status: String,
    pub entry_price: Double,
    pub unrealized_pl: Double,
    pub realized_pl: Double,
    pub wallet_usdt: Double,
    pub wallet_btc: Double,
    pub logs: Vec<String>,
}

/// The dashboard's figures as mathematical values; the newest log line comes first.
#[verifier::ext_equal]
pub struct DashboardView {
    pub price: Double,
    pub rsi: Double,
    pub bb_lower: Double,
    pub bb_upper: Double,
    pub status: Seq<char>,
    pub entry_price: Double,
    pub unrealized_pl: Double,
    pub realized_pl: Double,
    pub wallet_usdt: Double,
    pub wallet_btc: Double,
    pub logs: Seq<Seq<char>>,
}

/// The contents of strings.
pub open spec fn texts(lines: Seq<String>) -> Seq<Seq<char>> {
    lines.map_values(|s: String| s@)
}

impl View for DashboardData {
    type V = DashboardView;

    open spec fn view(&self) -> DashboardView {
        DashboardView {
            price: self.price,
            rsi: self.rsi,
            bb_lower: self.bb_lower,
            bb_upper: self.bb_upper,
            status: self.status@,
            entry_price: self.entry_price,
            unrealized_pl: self.unrealized_pl,
            realized_pl: self.realized_pl,
            wallet_usdt: self.wallet_usdt,
            wallet_btc: self.wallet_btc,
            logs: texts(self.logs@),
        }
    }
}

/// A log line: the time of day, then the message.
pub open spec fn log_line(msg: Seq<char>, at: Moment) -> Seq<char> {
    at.time_of_day() + " | "@ + msg
}

/// The log with a line put first; one line beyond the limit pushes the oldest out.
pub open spec fn logged(logs: Seq<Seq<char>>, line: Seq<char>) -> Seq<Seq<char>> {
    let all = seq![line] + logs;
    if all.len() > LOG_LINES {
        all.drop_last()
    } else {
        all
    }
}

impl DashboardView {
    /// This dashboard with a message logged.
    pub open spec fn with_log(self, msg: Seq<char>, at: Moment) -> DashboardView {
        DashboardView { logs: logged(self.logs, log_line(msg, at)), ..self }
    }

    /// The dashboard before the bot has started.
    pub open spec fn initial() -> DashboardView {
        let zero = Double { bits: 0 };
        DashboardView {
            price: zero,
            rsi: zero,
            bb_lower: zero,
            bb_upper: zero,
            status: "Starting..."@,
            entry_price: zero,
            unrealized_pl: zero,
            realized_pl: zero,
            wallet_usdt: zero,
            wallet_btc: zero,
            logs: seq![],
        }
    }
}

impl DashboardData {
    /// The dashboard before the bot has started.
    pub fn new() -> (r: DashboardData)
        ensures
            r@ == DashboardView::initial(),
    {
        let zero = Double { bits: 0 };
        DashboardData {
            price: zero,
            rsi: zero,
            bb_lower: zero,
            bb_upper: zero,
            status: "Starting...".to_owned(),
            entry_price: zero,
            unrealized_pl: zero,
            realized_pl: zero,
            wallet_usdt: zero,
            wallet_btc: zero,
            logs: Vec::new(),
        }
    }

    /// Logs a message, stamped with the time of day, and gives the line to print.
    pub fn add_log(&mut self, msg: &str, at: Moment) -> (r: String)
        requires
            at.valid(),
        ensures
            final(self)@ == old(self)@.with_log(msg@, at),
            r@ == log_line(msg@, at),
    {
        let mut line: String = chrono_time_of_day(at);
        line.append(" | ");
        line.append(msg);
        let printed: String = line.as_str().to_owned();
        let ghost before = self.logs@;
        self.logs.insert(0, line);
        assert(texts(self.logs@) =~= seq![line@] + texts(before));
        if self.logs.len() > LOG_LINES {
            let ghost all = self.logs@;
            self.logs.pop();
            assert(texts(self.logs@) =~= texts(all).drop_last());
        }
        printed
    }
}

/// The log after a sequence of lines.
pub open spec fn logged_all(logs: Seq<Seq<char>>, lines: Seq<Seq<char>>) -> Seq<Seq<char>>
    decreases lines.len(),
{
    if lines.len() == 0 {
        logs
    } else {
        logged(logged_all(logs, lines.drop_last()), lines.last())
    }
}

/// The log holds the latest lines up to the limit, the newest first.
pub proof fn law_log_keeps_the_latest_lines(logs: Seq<Seq<char>>, lines: Seq<Seq<char>>)
    requires
        logs.len() <= LOG_LINES,
    ensures
        logged_all(logs, lines).len() <= LOG_LINES,
        logged_all(logs, lines) == {
            let all = lines.reverse() + logs;
            if all.len() <= LOG_LINES {
                all
            } else {
                all.take(LOG_LINES as int)
            }
        },
    decreases lines.len(),
{
    if lines.len() == 0 {
        assert(lines.reverse() + logs =~= logs);
    } else {
        let init = lines.drop_last();
        law_log_keeps_the_latest_lines(logs, init);
        let all = lines.reverse() + logs;
        assert(all =~= seq![lines.last()] + (init.reverse() + logs));
        let before = logged_all(logs, init);
        let after = logged(before, lines.last());
        if all.len() <= LOG_LINES {
            assert(after =~= all);
        } else {
            assert(after =~= all.take(LOG_LINES as int));
        }
    }
}

/// A message is logged as one more line, the newest: the time of day, a bar, the message. Nothing
/// else that the dashboard shows changes, and no more than thirty lines stay.
pub proof fn law_a_message_is_logged(dashboard: DashboardView, msg: Seq<char>, at: Moment)
    requires
        dashboard.logs.len() <= 30,
    ensures
        ({
            let after = dashboard.with_log(msg, at);
            &&& after.logs.len() > 0
            &&& after.logs[0] == at.time_of_day() + " | "@ + msg
            &&& after.logs.len() == if dashboard.logs.len() < 30 {
                dashboard.logs.len() + 1
            } else {
                30
            }
            &&& forall|i: int|
                1 <= i < after.logs.len() ==> #[trigger] after.logs[i] == dashboard.logs[i - 1]
            &&& after == (DashboardView { logs: after.logs, ..dashboard })
        }),
{
}

/// The dashboard is seen as it is.
pub proof fn law_dashboards_are_seen_as_they_are(data: DashboardData)
    ensures
        data@.price == data.price,
        data@.rsi == data.rsi,
        data@.bb_lower == data.bb_lower,
        data@.bb_upper == data.bb_upper,
        data@.status == data.status@,
        data@.entry_price == data.entry_price,
        data@.unrealized_pl == data.unrealized_pl,
        data@.realized_pl == data.realized_pl,
        data@.wallet_usdt == data.wallet_usdt,
        data@.wallet_btc == data.wallet_btc,
        data@.logs.len() == data.logs@.len(),
        forall|i: int| 0 <= i < data.logs@.len() ==> #[trigger] data@.logs[i] == data.logs@[i]@,
{
}

} // verus!
