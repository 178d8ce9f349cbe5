//! The bot as a state machine: each event from outside leads to the next state, an updated
//! dashboard and a list of actions. The last action asks for the event that follows.

use crate::candle::{blank_candle, closes, reversed, Candle};
use crate::clock::{prune_due, wallet_due, Moment, PRUNE_INTERVAL_NANOS, WALLET_INTERVAL_NANOS};
use crate::config::{HISTORY_CANDLES, TICK_SECONDS};
use crate::dashboard::{log_line, DashboardData, DashboardView};
use crate::db::{init_statements, log_trade_statement, prune_statement, recent_candles_statement};
use crate::db::{save_candle_statement, statements, DbManager, Statement, StatementView};
use crate::double::Double;
use crate::orders::{Order, Side};
use crate::strategy::{decide, decision, gain_of, unrealized_gain, BotState, Decision};
use crate::text::{decimal, decimal_text};
use vstd::prelude::*;
use vstd::string::*;

verus! {

/// The indicators at one candle.
#[derive(Clone, Copy, Debug, PartialEq, Eq, Structural)]
pub struct Indicators {
    pub rsi: Double,
    pub bb_lower: Double,
    pub bb_upper: Double,
}

/// What the bot waits for.
#[derive(Clone, Debug)]
pub enum Phase {
    /// To be started.
    New,
    /// The exchange's candles.
    AwaitingCandles,
    /// The indicators at each of these candles.
    WarmingUp { candles: Vec<Candle> },
    /// The next round.
    Resting,
    /// The latest price.
    AwaitingPrice,
    /// The stored candles; the price is that of the round.
    AwaitingHistory { price: Double },
    /// The indicators at the stored candles.
    AwaitingIndicators { price: Double },
}

/// What has happened outside.
#[derive(Clone, Debug)]
pub enum Event {
    /// The bot was started.
    Started,
    /// The exchange's candles, the newest first, or none after a failure.
    Candles(Option<Vec<Candle>>),
    /// The indicators at each of the closing prices that were asked for.
    Computed { outputs: Vec<Indicators>, at: Moment },
    /// A round begins; the times since the last deletion and the last reading of the wallet.
    Woke { since_prune: u128, since_wallet: u128, at: Moment },
    /// The latest price, or none without a trade or after a failure.
    Price { price: Option<Double>, at: Moment },
    /// The stored candles, the newest first, or none after a failure.
    History(Option<Vec<Candle>>),
}

/// What is to be done outside.
#[derive(Clone, Debug)]
pub enum Action {
    /// Prepare the database.
    Prepare(Vec<Statement>),
    /// Ask the exchange for its candles.
    FetchCandles,
    /// Compute the indicators, one closing price after the other.
    Compute(Vec<Double>),
    /// Store a candle.
    Save(Statement),
    /// Delete old candles.
    Prune(Statement),
    /// Read the wallet.
    FetchWallet,
    /// Ask the exchange for the latest price.
    FetchPrice,
    /// Read the stored candles.
    ReadCandles(Statement),
    /// Record a closed position.
    Record(Statement),
    /// Make a trade.
    Trade(Order),
    /// Print a line of the log.
    Print(String),
    /// Wait, in seconds, and begin the next round.
    Pause(u64),
}

/// What the bot waits for, as a mathematical value.
#[verifier::ext_equal]
pub enum PhaseView {
    New,
    AwaitingCandles,
    WarmingUp { candles: Seq<Candle> },
    Resting,
    AwaitingPrice,
    AwaitingHistory { price: Double },
    AwaitingIndicators { price: Double },
}

/// What has happened outside, as a mathematical value.
#[verifier::ext_equal]
pub enum EventView {
    Started,
    Candles(Option<Seq<Candle>>),
    Computed { outputs: Seq<Indicators>, at: Moment },
    Woke { since_prune: nat, since_wallet: nat, at: Moment },
    Price { price: Option<Double>, at: Moment },
    History(Option<Seq<Candle>>),
}

/// What is to be done outside, as a mathematical value.
#[verifier::ext_equal]
pub enum ActionView {
    Prepare(Seq<StatementView>),
    FetchCandles,
    Compute(Seq<Double>),
    Save(StatementView),
    Prune(StatementView),
    FetchWallet,
    FetchPrice,
    ReadCandles(StatementView),
    Record(StatementView),
    Trade(Order),
    Print(Seq<char>),
    Pause(nat),
}

impl View for Phase {
    type V = PhaseView;

    open spec fn view(&self) -> PhaseView {
        match self {
            Phase::New => PhaseView::New,
            Phase::AwaitingCandles => PhaseView::AwaitingCandles,
            Phase::WarmingUp { candles } => PhaseView::WarmingUp { candles: candles@ },
            Phase::Resting => PhaseView::Resting,
            Phase::AwaitingPrice => PhaseView::AwaitingPrice,
            Phase::AwaitingHistory { price } => PhaseView::AwaitingHistory { price: *price },
            Phase::AwaitingIndicators { price } => PhaseView::AwaitingIndicators { price: *price },
        }
    }
}

/// The candles of a reply.
pub open spec fn reply(candles: Option<Vec<Candle>>) -> Option<Seq<Candle>> {
    match candles {
        Some(list) => Some(list@),
        None => None,
    }
}

impl View for Event {
    type V = EventView;

    open spec fn view(&self) -> EventView {
        match self {
            Event::Started => EventView::Started,
            Event::Candles(candles) => EventView::Candles(reply(*candles)),
            Event::Computed { outputs, at } => EventView::Computed { outputs: outputs@, at: *at },
            Event::Woke { since_prune, since_wallet, at } => EventView::Woke {
                since_prune: *since_prune as nat,
                since_wallet: *since_wallet as nat,
                at: *at,
            },
            Event::Price { price, at } => EventView::Price { price: *price, at: *at },
            Event::History(candles) => EventView::History(reply(*candles)),
        }
    }
}

impl View for Action {
    type V = ActionView;

    open spec fn view(&self) -> ActionView {
        match self {
            Action::Prepare(list) => ActionView::Prepare(statements(list@)),
            Action::FetchCandles => ActionView::FetchCandles,
            Action::Compute(prices) => ActionView::Compute(prices@),
            Action::Save(statement) => ActionView::Save(statement@),
            Action::Prune(statement) => ActionView::Prune(statement@),
            Action::FetchWallet => ActionView::FetchWallet,
            Action::FetchPrice => ActionView::FetchPrice,
            Action::ReadCandles(statement) => ActionView::ReadCandles(statement@),
            Action::Record(statement) => ActionView::Record(statement@),
            Action::Trade(order) => ActionView::Trade(*order),
            Action::Print(line) => ActionView::Print(line@),
            Action::Pause(seconds) => ActionView::Pause(*seconds as nat),
        }
    }
}

/// The contents of actions.
pub open spec fn actions(list: Seq<Action>) -> Seq<ActionView> {
    list.map_values(|a: Action| a@)
}

impl EventView {
    /// Whether the calendar has the time of the event.
    pub open spec fn valid(self) -> bool {
        match self {
            EventView::Computed { at, .. } => at.valid(),
            EventView::Woke { at, .. } => at.valid(),
            EventView::Price { at, .. } => at.valid(),
            _ => true,
        }
    }
}

/// The bot.
#[derive(Clone, Debug)]
pub struct Bot {
    pub state: BotState,
    pub candle: Candle,
    pub phase: Phase,
}

/// The bot as a mathematical value.
#[verifier::ext_equal]
pub struct BotView {
    pub state: BotState,
    pub candle: Candle,
    pub phase: PhaseView,
}

impl View for Bot {
    type V = BotView;

    open spec fn view(&self) -> BotView {
        BotView { state: self.state, candle: self.candle, phase: self.phase@ }
    }
}

/// The bot, the dashboard and the actions after an event.
#[verifier::ext_equal]
pub struct Outcome {
    pub bot: BotView,
    pub dashboard: DashboardView,
    pub actions: Seq<ActionView>,
}

/// The indicators before any candle.
pub open spec fn no_indicators() -> Indicators {
    let zero = Double { bits: 0 };
    Indicators { rsi: zero, bb_lower: zero, bb_upper: zero }
}

/// The indicators at the last candle.
pub open spec fn latest(outputs: Seq<Indicators>) -> Indicators {
    if outputs.len() == 0 {
        no_indicators()
    } else {
        outputs.last()
    }
}

/// Stores a candle with its indicators.
pub open spec fn save(candle: Candle, at: Indicators) -> ActionView {
    ActionView::Save(save_candle_statement(candle, at.rsi, at.bb_lower, at.bb_upper))
}

/// Stores each candle with its indicators.
pub open spec fn save_all(candles: Seq<Candle>, outputs: Seq<Indicators>) -> Seq<ActionView> {
    Seq::new(
        if candles.len() <= outputs.len() {
            candles.len()
        } else {
            outputs.len()
        },
        |i: int| save(candles[i], outputs[i]),
    )
}

/// The closing prices of candles that are given the newest first, from the oldest on.
pub open spec fn closes_forward(candles: Seq<Candle>) -> Seq<Double> {
    candles.reverse().map_values(|c: Candle| c.close)
}

/// The candles of a reply that are used: the newest ones, which come first.
pub open spec fn newest(candles: Seq<Candle>) -> Seq<Candle> {
    if candles.len() > HISTORY_CANDLES {
        candles.take(HISTORY_CANDLES as int)
    } else {
        candles
    }
}

/// Asks for the stored candles.
pub open spec fn read_history() -> ActionView {
    ActionView::ReadCandles(recent_candles_statement(HISTORY_CANDLES as int))
}

/// Prints the line that a message is logged as.
pub open spec fn print(msg: Seq<char>, at: Moment) -> ActionView {
    ActionView::Print(log_line(msg, at))
}

/// The end of a round.
pub open spec fn rest() -> ActionView {
    ActionView::Pause(TICK_SECONDS as nat)
}

impl BotView {
    /// The bot before it is started.
    pub open spec fn initial() -> BotView {
        BotView {
            state: BotState::Idle,
            candle: blank_candle(),
            phase: PhaseView::New,
        }
    }

    /// The exchange's candles have arrived: the indicators of the newest ones are wanted, the oldest
    /// of these first.
    pub open spec fn on_candles(self, candles: Option<Seq<Candle>>) -> (BotView, Seq<ActionView>) {
        match candles {
            Some(list) => (
                BotView { phase: PhaseView::WarmingUp { candles: newest(list).reverse() }, ..self },
                seq![ActionView::Compute(closes_forward(newest(list)))],
            ),
            None => (
                BotView { phase: PhaseView::Resting, ..self },
                seq![ActionView::Pause(0)],
            ),
        }
    }

    /// The exchange's candles have their indicators: they are stored, and the rounds begin.
    pub open spec fn on_warm(
        self,
        dashboard: DashboardView,
        candles: Seq<Candle>,
        outputs: Seq<Indicators>,
        at: Moment,
    ) -> Outcome {
        let msg = "Synced "@ + decimal(candles.len()) + " candles to DB"@;
        Outcome {
            bot: BotView { phase: PhaseView::Resting, ..self },
            dashboard: dashboard.with_log(msg, at),
            actions: save_all(candles, outputs) + seq![print(msg, at), ActionView::Pause(0)],
        }
    }

    /// A round begins: chores that are due come first, then the price is wanted.
    pub open spec fn on_woke(
        self,
        dashboard: DashboardView,
        since_prune: nat,
        since_wallet: nat,
        at: Moment,
    ) -> Outcome {
        let prune = if since_prune > PRUNE_INTERVAL_NANOS {
            seq![ActionView::Prune(prune_statement(at)), print("Pruned old DB data"@, at)]
        } else {
            seq![]
        };
        let wallet = if since_wallet > WALLET_INTERVAL_NANOS {
            seq![ActionView::FetchWallet]
        } else {
            seq![]
        };
        Outcome {
            bot: BotView { phase: PhaseView::AwaitingPrice, ..self },
            dashboard: if since_prune > PRUNE_INTERVAL_NANOS {
                dashboard.with_log("Pruned old DB data"@, at)
            } else {
                dashboard
            },
            actions: prune + wallet + seq![ActionView::FetchPrice],
        }
    }

    /// A price has arrived: it goes into the current candle, which is stored, and the stored
    /// candles are wanted. Without a price the round is over.
    pub open spec fn on_price(self, price: Option<Double>, at: Moment) -> (
        BotView,
        Seq<ActionView>,
    ) {
        match price {
            Some(price) => {
                let candle = self.candle.ticked(price, at.spec_millis());
                (
                    BotView { candle, phase: PhaseView::AwaitingHistory { price }, ..self },
                    seq![save(candle, no_indicators()), read_history()],
                )
            },
            None => (BotView { phase: PhaseView::Resting, ..self }, seq![rest()]),
        }
    }

    /// The stored candles have arrived: their indicators are wanted, the oldest first. A failure
    /// counts as no candles.
    pub open spec fn on_history(
        self,
        candles: Option<Seq<Candle>>,
        price: Double,
    ) -> (BotView, Seq<ActionView>) {
        let list = match candles {
            Some(list) => list,
            None => seq![],
        };
        (
            BotView { phase: PhaseView::AwaitingIndicators { price }, ..self },
            seq![ActionView::Compute(closes_forward(list))],
        )
    }

    /// The indicators at the current candle are known: they are stored and shown, and the
    /// strategy decides.
    pub open spec fn on_indicators(
        self,
        dashboard: DashboardView,
        now: Indicators,
        price: Double,
        at: Moment,
    ) -> Outcome {
        let shown = DashboardView {
            price,
            rsi: now.rsi,
            bb_lower: now.bb_lower,
            bb_upper: now.bb_upper,
            unrealized_pl: gain_of(self.state, price),
            ..dashboard
        };
        let (state, choice) = decision(self.state, price, now.rsi, now.bb_lower);
        Outcome {
            bot: BotView { state, phase: PhaseView::Resting, ..self },
            dashboard: shown_decision(shown, choice, price, at),
            actions: seq![save(self.candle, now)] + decision_actions(choice, price, at)
                + seq![rest()],
        }
    }

    /// What an event leads to. One that the bot does not wait for changes nothing.
    pub open spec fn step(self, dashboard: DashboardView, event: EventView) -> Outcome {
        match (self.phase, event) {
            (PhaseView::New, EventView::Started) => Outcome {
                bot: BotView { phase: PhaseView::AwaitingCandles, ..self },
                dashboard,
                actions: seq![ActionView::Prepare(init_statements()), ActionView::FetchCandles],
            },
            (PhaseView::AwaitingCandles, EventView::Candles(candles)) => {
                let (bot, actions) = self.on_candles(candles);
                Outcome { bot, dashboard, actions }
            },
            (PhaseView::WarmingUp { candles }, EventView::Computed { outputs, at }) => {
                self.on_warm(dashboard, candles, outputs, at)
            },
            (PhaseView::Resting, EventView::Woke { since_prune, since_wallet, at }) => {
                self.on_woke(dashboard, since_prune, since_wallet, at)
            },
            (PhaseView::AwaitingPrice, EventView::Price { price, at }) => {
                let (bot, actions) = self.on_price(price, at);
                Outcome { bot, dashboard, actions }
            },
            (PhaseView::AwaitingHistory { price }, EventView::History(candles)) => {
                let (bot, actions) = self.on_history(candles, price);
                Outcome { bot, dashboard, actions }
            },
            (PhaseView::AwaitingIndicators { price }, EventView::Computed { outputs, at }) => {
                self.on_indicators(dashboard, latest(outputs), price, at)
            },
            _ => Outcome { bot: self, dashboard, actions: seq![] },
        }
    }
}

/// What is logged of a decision to trade.
pub open spec fn signal(choice: Decision, price: Double) -> Seq<char> {
    match choice {
        Decision::Scan | Decision::Hold => seq![],
        Decision::Buy { .. } => "BUY SIGNAL @ $"@ + price.fixed(),
        Decision::StopLoss { .. } => "STOP LOSS @ $"@ + price.fixed(),
        Decision::TakeProfit { .. } => "PROFIT TAKE @ $"@ + price.fixed(),
    }
}

/// What the dashboard shows of a decision.
pub open spec fn shown_decision(
    dashboard: DashboardView,
    choice: Decision,
    price: Double,
    at: Moment,
) -> DashboardView {
    match choice {
        Decision::Scan => DashboardView { status: "IDLE (Scanning)"@, ..dashboard },
        Decision::Buy { .. } => DashboardView {
            status: "IN POSITION"@,
            entry_price: price,
            ..dashboard.with_log(signal(choice, price), at)
        },
        Decision::Hold => DashboardView { status: "HOLDING"@, ..dashboard },
        Decision::StopLoss { profit, .. } => closed(
            dashboard.with_log(signal(choice, price), at),
            profit,
        ),
        Decision::TakeProfit { profit, .. } => closed(
            dashboard.with_log(signal(choice, price), at),
            profit,
        ),
    }
}

/// The dashboard after a position was closed.
pub open spec fn closed(dashboard: DashboardView, profit: Double) -> DashboardView {
    DashboardView {
        status: "IDLE"@,
        entry_price: Double { bits: 0 },
        realized_pl: dashboard.realized_pl.sum(profit),
        ..dashboard
    }
}

/// What is done about a decision: what is logged is printed, and a closed position is recorded
/// with its profit, then traded.
pub open spec fn decision_actions(choice: Decision, price: Double, at: Moment) -> Seq<ActionView> {
    match choice {
        Decision::Scan | Decision::Hold => seq![],
        Decision::Buy { quantity } => seq![
            print(signal(choice, price), at),
            ActionView::Trade(Order { side: Side::Buy, price, quantity }),
        ],
        Decision::StopLoss { quantity, profit } | Decision::TakeProfit { quantity, profit } => seq![
            print(signal(choice, price), at),
            ActionView::Record(log_trade_statement("sell"@, price, quantity, profit, at)),
            ActionView::Trade(Order { side: Side::Sell, price, quantity }),
        ],
    }
}

/// `prefix` followed by `text`.
fn joined(prefix: &str, text: &str) -> (r: String)
    ensures
        r@ == prefix@ + text@,
{
    let mut r: String = prefix.to_owned();
    r.append(text);
    r
}

/// The statement that stores a candle with its indicators.
fn save_action(candle: &Candle, at: Indicators) -> (r: Action)
    ensures
        r@ == save(*candle, at),
{
    Action::Save(DbManager::save_candle(candle, at.rsi, at.bb_lower, at.bb_upper))
}

/// Stores each candle with its indicators.
fn save_actions(candles: &Vec<Candle>, outputs: &Vec<Indicators>) -> (r: Vec<Action>)
    ensures
        actions(r@) == save_all(candles@, outputs@),
{
    let mut r: Vec<Action> = Vec::new();
    let mut i: usize = 0;
    while i < candles.len() && i < outputs.len()
        invariant
            i <= candles@.len(),
            i <= outputs@.len(),
            actions(r@) == save_all(candles@, outputs@).take(i as int),
        decreases candles@.len() - i,
    {
        let ghost before = r@;
        r.push(save_action(&candles[i], outputs[i]));
        assert(actions(r@) =~= actions(before).push(save(candles@[i as int], outputs@[i as int])));
        assert(save_all(candles@, outputs@).take(i + 1) =~= save_all(candles@, outputs@).take(
            i as int,
        ).push(save(candles@[i as int], outputs@[i as int])));
        i = i + 1;
    }
    assert(save_all(candles@, outputs@).take(i as int) =~= save_all(candles@, outputs@));
    r
}

impl DashboardData {
    /// Shows a closed position.
    fn close(&mut self, profit: Double)
        ensures
            final(self)@ == closed(old(self)@, profit),
    {
        self.status = "IDLE".to_owned();
        self.entry_price = Double { bits: 0 };
        self.realized_pl = self.realized_pl.plus(profit);
    }

    /// Shows a decision, and gives the line to print of it.
    fn show_decision(&mut self, choice: Decision, price: Double, at: Moment) -> (r: Option<String>)
        requires
            at.valid(),
        ensures
            final(self)@ == shown_decision(old(self)@, choice, price, at),
            r is None <==> choice is Scan || choice is Hold,
            r matches Some(line) ==> line@ == log_line(signal(choice, price), at),
    {
        match choice {
            Decision::Scan => {
                self.status = "IDLE (Scanning)".to_owned();
                None
            },
            Decision::Buy { .. } => {
                let msg: String = joined("BUY SIGNAL @ $", price.to_fixed().as_str());
                let line: String = self.add_log(msg.as_str(), at);
                self.status = "IN POSITION".to_owned();
                self.entry_price = price;
                Some(line)
            },
            Decision::Hold => {
                self.status = "HOLDING".to_owned();
                None
            },
            Decision::StopLoss { profit, .. } => {
                let msg: String = joined("STOP LOSS @ $", price.to_fixed().as_str());
                let line: String = self.add_log(msg.as_str(), at);
                self.close(profit);
                Some(line)
            },
            Decision::TakeProfit { profit, .. } => {
                let msg: String = joined("PROFIT TAKE @ $", price.to_fixed().as_str());
                let line: String = self.add_log(msg.as_str(), at);
                self.close(profit);
                Some(line)
            },
        }
    }
}

impl Bot {
    /// The bot before it is started.
    pub fn new() -> (r: Bot)
        ensures
            r@ == BotView::initial(),
    {
        Bot { state: BotState::Idle, candle: Candle::blank(), phase: Phase::New }
    }

    fn start(&mut self) -> (r: Vec<Action>)
        ensures
            final(self)@ == (BotView { phase: PhaseView::AwaitingCandles, ..old(self)@ }),
            actions(r@) == seq![ActionView::Prepare(init_statements()), ActionView::FetchCandles],
    {
        self.phase = Phase::AwaitingCandles;
        let r = vec![Action::Prepare(DbManager::init()), Action::FetchCandles];
        assert(actions(r@) =~= seq![
            ActionView::Prepare(init_statements()),
            ActionView::FetchCandles,
        ]);
        r
    }

    fn take_candles(&mut self, candles: Option<Vec<Candle>>) -> (r: Vec<Action>)
        ensures
            (final(self)@, actions(r@)) == old(self)@.on_candles(reply(candles)),
    {
        let ghost wanted = self@.on_candles(reply(candles)).1;
        let r = match candles {
            Some(list) => {
                let mut kept: Vec<Candle> = list;
                kept.truncate(HISTORY_CANDLES);
                assert(kept@ =~= newest(list@));
                let forward: Vec<Candle> = reversed(&kept);
                let prices: Vec<Double> = closes(&forward);
                self.phase = Phase::WarmingUp { candles: forward };
                vec![Action::Compute(prices)]
            },
            None => {
                self.phase = Phase::Resting;
                vec![Action::Pause(0)]
            },
        };
        assert(actions(r@) =~= wanted);
        r
    }

    fn finish_warm_up(
        &mut self,
        dashboard: &mut DashboardData,
        candles: &Vec<Candle>,
        outputs: &Vec<Indicators>,
        at: Moment,
    ) -> (r: Vec<Action>)
        requires
            at.valid(),
        ensures
            (Outcome { bot: final(self)@, dashboard: final(dashboard)@, actions: actions(r@) })
                == old(self)@.on_warm(old(dashboard)@, candles@, outputs@, at),
    {
        let mut r: Vec<Action> = save_actions(candles, outputs);
        let ghost outcome = self@.on_warm(dashboard@, candles@, outputs@, at);
        let mut message: String = joined("Synced ", decimal_text(candles.len() as u128).as_str());
        message.append(" candles to DB");
        r.push(Action::Print(dashboard.add_log(message.as_str(), at)));
        r.push(Action::Pause(0));
        assert(actions(r@) =~= outcome.actions);
        self.phase = Phase::Resting;
        r
    }

    fn begin_round(
        &mut self,
        dashboard: &mut DashboardData,
        since_prune: u128,
        since_wallet: u128,
        at: Moment,
    ) -> (r: Vec<Action>)
        requires
            at.valid(),
        ensures
            (Outcome { bot: final(self)@, dashboard: final(dashboard)@, actions: actions(r@) })
                == old(self)@.on_woke(
                old(dashboard)@,
                since_prune as nat,
                since_wallet as nat,
                at,
            ),
    {
        let ghost outcome = self@.on_woke(
            dashboard@,
            since_prune as nat,
            since_wallet as nat,
            at,
        );
        let mut r: Vec<Action> = Vec::new();
        if prune_due(since_prune) {
            r.push(Action::Prune(DbManager::prune_old_data(at)));
            r.push(Action::Print(dashboard.add_log("Pruned old DB data", at)));
        }
        if wallet_due(since_wallet) {
            r.push(Action::FetchWallet);
        }
        r.push(Action::FetchPrice);
        assert(actions(r@) =~= outcome.actions);
        self.phase = Phase::AwaitingPrice;
        r
    }

    fn take_price(&mut self, price: Option<Double>, at: Moment) -> (r: Vec<Action>)
        requires
            at.valid(),
        ensures
            (final(self)@, actions(r@)) == old(self)@.on_price(price, at),
    {
        let ghost wanted = self@.on_price(price, at).1;
        let zero = Double { bits: 0 };
        let r = match price {
            Some(price) => {
                self.candle.tick(price, at.millis());
                let none = Indicators { rsi: zero, bb_lower: zero, bb_upper: zero };
                let first: Action = save_action(&self.candle, none);
                self.phase = Phase::AwaitingHistory { price };
                let mut list: Vec<Action> = vec![first];
                if let Some(statement) = DbManager::get_recent_candles(HISTORY_CANDLES) {
                    list.push(Action::ReadCandles(statement));
                }
                list
            },
            None => {
                self.phase = Phase::Resting;
                vec![Action::Pause(TICK_SECONDS)]
            },
        };
        assert(actions(r@) =~= wanted);
        r
    }

    fn take_history(&mut self, candles: Option<Vec<Candle>>, price: Double) -> (r:
        Vec<Action>)
        ensures
            (final(self)@, actions(r@)) == old(self)@.on_history(reply(candles), price),
    {
        let ghost wanted = self@.on_history(reply(candles), price).1;
        let list: Vec<Candle> = match candles {
            Some(list) => list,
            None => Vec::new(),
        };
        let prices: Vec<Double> = closes(&reversed(&list));
        self.phase = Phase::AwaitingIndicators { price };
        let r = vec![Action::Compute(prices)];
        assert(actions(r@) =~= wanted);
        r
    }

    fn evaluate(
        &mut self,
        dashboard: &mut DashboardData,
        outputs: &Vec<Indicators>,
        price: Double,
        at: Moment,
    ) -> (r: Vec<Action>)
        requires
            at.valid(),
        ensures
            (Outcome { bot: final(self)@, dashboard: final(dashboard)@, actions: actions(r@) })
                == old(self)@.on_indicators(old(dashboard)@, latest(outputs@), price, at),
    {
        let ghost outcome = self@.on_indicators(
            dashboard@,
            latest(outputs@),
            price,
            at,
        );
        let zero = Double { bits: 0 };
        let now: Indicators = if outputs.len() == 0 {
            Indicators { rsi: zero, bb_lower: zero, bb_upper: zero }
        } else {
            outputs[outputs.len() - 1]
        };
        let mut r: Vec<Action> = vec![save_action(&self.candle, now)];
        dashboard.price = price;
        dashboard.rsi = now.rsi;
        dashboard.bb_lower = now.bb_lower;
        dashboard.bb_upper = now.bb_upper;
        dashboard.unrealized_pl = unrealized_gain(self.state, price);
        let (state, choice) = decide(self.state, price, now.rsi, now.bb_lower);
        if let Some(line) = dashboard.show_decision(choice, price, at) {
            r.push(Action::Print(line));
        }
        match choice {
            Decision::Scan | Decision::Hold => {},
            Decision::Buy { quantity } => {
                r.push(Action::Trade(Order { side: Side::Buy, price, quantity }));
            },
            Decision::StopLoss { quantity, profit } | Decision::TakeProfit { quantity, profit } => {
                r.push(
                    Action::Record(DbManager::log_trade("sell", price, quantity, profit, at)),
                );
                r.push(Action::Trade(Order { side: Side::Sell, price, quantity }));
            },
        }
        r.push(Action::Pause(TICK_SECONDS));
        self.state = state;
        self.phase = Phase::Resting;
        assert(actions(r@) =~= outcome.actions);
        r
    }

    /// Takes an event in, and says what is to be done about it.
    pub fn step(&mut self, dashboard: &mut DashboardData, event: Event) -> (r: Vec<Action>)
        requires
            event@.valid(),
        ensures
            (Outcome { bot: final(self)@, dashboard: final(dashboard)@, actions: actions(r@) })
                == old(self)@.step(old(dashboard)@, event@),
    {
        let phase: Phase = self.take_phase();
        match (phase, event) {
            (Phase::New, Event::Started) => self.start(),
            (Phase::AwaitingCandles, Event::Candles(candles)) => self.take_candles(candles),
            (Phase::WarmingUp { candles }, Event::Computed { outputs, at }) => {
                self.finish_warm_up(dashboard, &candles, &outputs, at)
            },
            (Phase::Resting, Event::Woke { since_prune, since_wallet, at }) => {
                self.begin_round(dashboard, since_prune, since_wallet, at)
            },
            (Phase::AwaitingPrice, Event::Price { price, at }) => {
                self.take_price(price, at)
            },
            (Phase::AwaitingHistory { price }, Event::History(candles)) => {
                self.take_history(candles, price)
            },
            (Phase::AwaitingIndicators { price }, Event::Computed { outputs, at }) => {
                self.evaluate(dashboard, &outputs, price, at)
            },
            (phase, _) => {
                self.phase = phase;
                let r: Vec<Action> = Vec::new();
                assert(actions(r@) =~= seq![]);
                r
            },
        }
    }

    /// Takes the phase out, to be set anew.
    fn take_phase(&mut self) -> (r: Phase)
        ensures
            r == old(self).phase,
            final(self).state == old(self).state,
            final(self).candle == old(self).candle,
    {
        let mut phase: Phase = Phase::Resting;
        std::mem::swap(&mut self.phase, &mut phase);
        phase
    }
}

} // verus!
