//! Orders: what is placed on the exchange, or recorded when trading is simulated.

use crate::clock::Moment;
use crate::clock::rfc3339;
use crate::config::{law_parameters_are_their_numbers, MARKET, SHUTDOWN_QUANTITY};
use crate::dashboard::{DashboardData, DashboardView};
use crate::db::{log_trade_statement, DbManager, SqlView, Statement, StatementView};
use crate::double::magnitude::lemma_parts;
use crate::double::model::rounded;
use crate::double::{law_order_is_by_value, Double};
use crate::exchange::{header_text, sign_request, signable, signed_request, HttpRequest};
use vstd::arithmetic::power2::*;
use vstd::prelude::*;
use vstd::string::*;

verus! {

/// Which way a trade goes.
#[derive(Clone, Copy, Debug, PartialEq, Eq, Structural)]
pub enum Side {
    Buy,
    Sell,
}

impl Side {
    /// The side as orders and trade records name it.
    pub open spec fn name(self) -> Seq<char> {
        match self {
            Side::Buy => "buy"@,
            Side::Sell => "sell"@,
        }
    }

    /// The side as orders and trade records name it.
    pub fn text(self) -> (r: &'static str)
        ensures
            r@ == self.name(),
    {
        match self {
            Side::Buy => "buy",
            Side::Sell => "sell",
        }
    }
}

/// A trade to be made.
#[derive(Clone, Copy, Debug, PartialEq, Eq, Structural)]
pub struct Order {
    pub side: Side,
    pub price: Double,
    pub quantity: Double,
}

/// The body of an order request, before it is written as JSON.
#[derive(Clone, Debug)]
pub struct OrderPayload {
    pub side: String,
    pub order_type: String,
    pub market: String,
    pub price_per_unit: Option<Double>,
    pub total_quantity: Double,
    pub timestamp: u128,
}

/// The body of an order request as a mathematical value.
#[verifier::ext_equal]
pub struct PayloadView {
    pub side: Seq<char>,
    pub order_type: Seq<char>,
    pub market: Seq<char>,
    pub price_per_unit: Option<Double>,
    pub total_quantity: Double,
    pub timestamp: nat,
}

impl View for OrderPayload {
    type V = PayloadView;

    open spec fn view(&self) -> PayloadView {
        PayloadView {
            side: self.side@,
            order_type: self.order_type@,
            market: self.market@,
            price_per_unit: self.price_per_unit,
            total_quantity: self.total_quantity,
            timestamp: self.timestamp as nat,
        }
    }
}

/// How a trade is made: by a record alone, or by an order at the exchange.
#[derive(Clone, Debug)]
pub enum TradePlan {
    Simulated(Statement),
    Real(OrderPayload),
}

/// How a trade is made, as a mathematical value.
#[verifier::ext_equal]
pub enum PlanView {
    Simulated(StatementView),
    Real(PayloadView),
}

impl View for TradePlan {
    type V = PlanView;

    open spec fn view(&self) -> PlanView {
        match self {
            TradePlan::Simulated(statement) => PlanView::Simulated(statement@),
            TradePlan::Real(payload) => PlanView::Real(payload@),
        }
    }
}

/// A simulated trade is recorded without a profit; a real one is a limit order at its price.
pub open spec fn trade_plan(simulation: bool, order: Order, at: Moment, timestamp: nat) -> PlanView {
    if simulation {
        PlanView::Simulated(
            log_trade_statement(
                order.side.name(),
                order.price,
                order.quantity,
                Double { bits: 0 },
                at,
            ),
        )
    } else {
        PlanView::Real(
            PayloadView {
                side: order.side.name(),
                order_type: "limit_order"@,
                market: MARKET@,
                price_per_unit: Some(order.price),
                total_quantity: order.quantity,
                timestamp,
            },
        )
    }
}

/// A simulated trade places no order at the exchange, and a real one orders just what is traded.
pub proof fn law_simulation_places_no_order(order: Order, at: Moment, timestamp: nat)
    ensures
        trade_plan(true, order, at, timestamp) is Simulated,
        trade_plan(false, order, at, timestamp) matches PlanView::Real(payload) && payload.side
            == order.side.name() && payload.price_per_unit == Some(order.price)
            && payload.total_quantity == order.quantity,
{
}

/// Plans a trade. `timestamp` is the time in milliseconds that an order carries.
pub fn execute_trade(simulation: bool, order: Order, at: Moment, timestamp: u128) -> (r: TradePlan)
    requires
        at.valid(),
    ensures
        r@ == trade_plan(simulation, order, at, timestamp as nat),
{
    if simulation {
        TradePlan::Simulated(
            DbManager::log_trade(
                order.side.text(),
                order.price,
                order.quantity,
                Double { bits: 0 },
                at,
            ),
        )
    } else {
        TradePlan::Real(
            OrderPayload {
                side: order.side.text().to_owned(),
                order_type: "limit_order".to_owned(),
                market: MARKET.to_owned(),
                price_per_unit: Some(order.price),
                total_quantity: order.quantity,
                timestamp,
            },
        )
    }
}

/// Signs the JSON text of an order and frames it as a request.
pub fn order_request(api_key: &str, api_secret: &str, body: String) -> (r: HttpRequest)
    requires
        header_text(api_key@),
        signable(api_secret@),
        signable(body@),
    ensures
        r@ == signed_request(
            "https://api.coindcx.com/exchange/v1/orders/create"@,
            body@,
            api_key@,
            api_secret@,
        ),
{
    sign_request("https://api.coindcx.com/exchange/v1/orders/create", body, api_key, api_secret)
}

/// What is sold on shutdown: a fixed quantity at the latest price, if the dashboard shows a
/// position.
pub open spec fn shutdown_sale(dashboard: DashboardView) -> Option<Order> {
    if (Double { bits: 0 }).is_below(dashboard.entry_price) {
        Some(
            Order {
                side: Side::Sell,
                price: dashboard.price,
                quantity: Double { bits: SHUTDOWN_QUANTITY },
            },
        )
    } else {
        None
    }
}

impl DashboardData {
    /// What is sold on shutdown.
    pub fn shutdown_order(&self) -> (r: Option<Order>)
        ensures
            r == shutdown_sale(self@),
    {
        if self.entry_price.gt(Double { bits: 0 }) {
            Some(
                Order {
                    side: Side::Sell,
                    price: self.price,
                    quantity: Double { bits: SHUTDOWN_QUANTITY },
                },
            )
        } else {
            None
        }
    }
}

/// A simulated trade is recorded under its own side: the action, the price and the quantity are
/// those of the order, and the profit is zero.
pub proof fn law_simulated_trade_is_recorded_as_ordered(order: Order, at: Moment, timestamp: nat)
    ensures
        trade_plan(true, order, at, timestamp) matches PlanView::Simulated(row) && {
            &&& row.sql
                == "INSERT INTO trades (action, price, quantity, profit, timestamp) VALUES (?1, ?2, ?3, ?4, ?5)"@
            &&& row.params.len() == 5
            &&& order.side == Side::Buy ==> row.params[0] == SqlView::Text("buy"@)
            &&& order.side == Side::Sell ==> row.params[0] == SqlView::Text("sell"@)
            &&& row.params[1] == SqlView::Real(order.price)
            &&& row.params[2] == SqlView::Real(order.quantity)
            &&& row.params[3] == SqlView::Real(Double { bits: 0 })
            &&& row.params[4] == SqlView::Text(rfc3339(at.secs as int, at.nanos as int))
        },
{
}

/// The names of the two sides differ.
proof fn lemma_sides_differ()
    ensures
        "buy"@ != "sell"@,
{
    reveal_strlit("buy");
    reveal_strlit("sell");
    assert("buy"@.len() == 3 && "sell"@.len() == 4);
}

/// Trades that differ are planned differently, simulated or real: nobody mistakes a sale for a
/// buy, or one price or quantity for another.
pub proof fn law_plans_tell_trades_apart(
    simulation: bool,
    a: Order,
    b: Order,
    a_at: Moment,
    b_at: Moment,
    a_time: nat,
    b_time: nat,
)
    requires
        trade_plan(simulation, a, a_at, a_time) == trade_plan(simulation, b, b_at, b_time),
    ensures
        a == b,
{
    lemma_sides_differ();
    law_simulated_trade_is_recorded_as_ordered(a, a_at, a_time);
    law_simulated_trade_is_recorded_as_ordered(b, b_at, b_time);
    law_real_trade_is_a_limit_order(a, a_at, a_time);
    law_real_trade_is_a_limit_order(b, b_at, b_time);
}

/// A real trade is a limit order on the market BTCUSDT for the quantity at the price, under the
/// given time.
pub proof fn law_real_trade_is_a_limit_order(order: Order, at: Moment, timestamp: nat)
    ensures
        trade_plan(false, order, at, timestamp) matches PlanView::Real(payload) && {
            &&& order.side == Side::Buy ==> payload.side == "buy"@
            &&& order.side == Side::Sell ==> payload.side == "sell"@
            &&& payload.order_type == "limit_order"@
            &&& payload.market == "BTCUSDT"@
            &&& payload.price_per_unit == Some(order.price)
            &&& payload.total_quantity == order.quantity
            &&& payload.timestamp == timestamp
        },
{
}

/// On shutdown a sale at the shown price is made exactly if the shown entry price is a positive
/// number; its quantity is the number nearest to one thousandth.
pub proof fn law_shutdown_sale(dashboard: DashboardView)
    ensures
        shutdown_sale(dashboard) is Some <==> !dashboard.entry_price.is_nan()
            && dashboard.entry_price.units() > 0,
        shutdown_sale(dashboard) matches Some(order) ==> {
            &&& order.side == Side::Sell
            &&& order.price == dashboard.price
            &&& order.quantity.magnitude() == rounded(pow2(1074), 1000)
            &&& !order.quantity.negative()
        },
{
    let zero = Double { bits: 0 };
    lemma_parts(0);
    assert(zero.units() == 0);
    if !dashboard.entry_price.is_nan() {
        law_order_is_by_value(zero, dashboard.entry_price);
    }
    law_parameters_are_their_numbers();
    assert(1 * pow2(1074) == pow2(1074));
}

/// An order's body is seen as it is sent, and a plan as it is carried out.
pub proof fn law_plans_are_seen_as_they_are(payload: OrderPayload, row: Statement)
    ensures
        payload@.side == payload.side@,
        payload@.order_type == payload.order_type@,
        payload@.market == payload.market@,
        payload@.price_per_unit == payload.price_per_unit,
        payload@.total_quantity == payload.total_quantity,
        payload@.timestamp == payload.timestamp,
        TradePlan::Real(payload)@ == PlanView::Real(payload@),
        TradePlan::Simulated(row)@ == PlanView::Simulated(row@),
{
}

} // verus!
