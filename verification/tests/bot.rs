use coindcx_scalper::bot::{Action, Bot, Event, Indicators, Phase};
use coindcx_scalper::candle::Candle;
use coindcx_scalper::clock::Moment;
use coindcx_scalper::dashboard::DashboardData;
use coindcx_scalper::db::{SqlValue, Statement};
use coindcx_scalper::double::Double;
use coindcx_scalper::orders::{Order, Side};
use coindcx_scalper::strategy::BotState;

fn d(x: f64) -> Double {
    Double { bits: x.to_bits() }
}

fn at(secs: i64) -> Moment {
    Moment { secs, nanos: 0 }
}

fn flat(price: f64, time: i64) -> Candle {
    Candle { open: d(price), high: d(price), low: d(price), close: d(price), time }
}

fn indicators(rsi: f64, bb_lower: f64, bb_upper: f64) -> Indicators {
    Indicators { rsi: d(rsi), bb_lower: d(bb_lower), bb_upper: d(bb_upper) }
}

fn number(statement: &Statement, i: usize) -> f64 {
    match &statement.params[i] {
        SqlValue::Real(x) => f64::from_bits(x.bits),
        other => panic!("no real number: {:?}", other),
    }
}

fn whole(statement: &Statement, i: usize) -> i64 {
    match &statement.params[i] {
        SqlValue::Integer(x) => *x,
        other => panic!("no integer: {:?}", other),
    }
}

/// A bot that has started without any candles and rests.
fn resting() -> (Bot, DashboardData) {
    let mut bot = Bot::new();
    let mut data = DashboardData::new();
    bot.step(&mut data, Event::Started);
    let actions = bot.step(&mut data, Event::Candles(None));
    assert!(matches!(actions[..], [Action::Pause(0)]));
    (bot, data)
}

/// One round, with the given price and indicators at the last candle.
fn round(
    bot: &mut Bot,
    data: &mut DashboardData,
    secs: i64,
    price: f64,
    now: Indicators,
) -> Vec<Action> {
    bot.step(data, Event::Woke { since_prune: 0, since_wallet: 0, at: at(secs) });
    bot.step(data, Event::Price { price: Some(d(price)), at: at(secs) });
    bot.step(data, Event::History(Some(vec![flat(price, 0)])));
    bot.step(data, Event::Computed { outputs: vec![indicators(1.0, 2.0, 3.0), now], at: at(secs) })
}

fn trades(actions: &[Action]) -> Vec<Order> {
    actions
        .iter()
        .filter_map(|a| match a {
            Action::Trade(order) => Some(*order),
            _ => None,
        })
        .collect()
}

#[test]
fn the_bot_prepares_and_asks_for_candles() {
    let mut bot = Bot::new();
    let mut data = DashboardData::new();
    let actions = bot.step(&mut data, Event::Started);
    assert_eq!(actions.len(), 2);
    assert!(matches!(&actions[0], Action::Prepare(list) if list.len() == 5));
    assert!(matches!(actions[1], Action::FetchCandles));
    assert!(matches!(bot.phase, Phase::AwaitingCandles));
    assert_eq!(bot.state, BotState::Idle);
}

#[test]
fn the_exchange_candles_are_stored_from_the_oldest_on() {
    let mut bot = Bot::new();
    let mut data = DashboardData::new();
    bot.step(&mut data, Event::Started);
    let newest_first = vec![flat(3.0, 180_000), flat(2.0, 120_000), flat(1.0, 60_000)];
    let actions = bot.step(&mut data, Event::Candles(Some(newest_first)));
    match &actions[..] {
        [Action::Compute(prices)] => assert_eq!(prices, &vec![d(1.0), d(2.0), d(3.0)]),
        other => panic!("{:?}", other),
    }
    let outputs =
        vec![indicators(50.0, 1.0, 1.0), indicators(60.0, 1.1, 1.9), indicators(70.0, 1.2, 2.8)];
    let actions = bot.step(&mut data, Event::Computed { outputs, at: at(3_661) });
    assert_eq!(actions.len(), 5);
    for (i, action) in actions[..3].iter().enumerate() {
        match action {
            Action::Save(s) => {
                assert_eq!(whole(s, 0), 60_000 * (i as i64 + 1));
                assert_eq!(number(s, 4), i as f64 + 1.0);
                assert_eq!(number(s, 5), 50.0 + 10.0 * i as f64);
            }
            other => panic!("{:?}", other),
        }
    }
    assert!(matches!(&actions[3], Action::Print(line) if *line == data.logs[0]));
    assert!(matches!(actions[4], Action::Pause(0)));
    assert_eq!(data.logs, vec!["01:01:01 | Synced 3 candles to DB"]);
    assert!(matches!(bot.phase, Phase::Resting));
}

#[test]
fn the_newest_fifty_candles_of_a_longer_reply_are_used() {
    let mut bot = Bot::new();
    let mut data = DashboardData::new();
    bot.step(&mut data, Event::Started);
    let newest_first: Vec<Candle> =
        (0..120).map(|i| flat(500.0 - i as f64, 60_000 * (500 - i))).collect();
    let actions = bot.step(&mut data, Event::Candles(Some(newest_first)));
    match &actions[..] {
        [Action::Compute(prices)] => {
            assert_eq!(prices.len(), 50);
            assert_eq!(prices[0], d(451.0));
            assert_eq!(prices[49], d(500.0));
        }
        other => panic!("{:?}", other),
    }
    let outputs = vec![indicators(50.0, 1.0, 2.0); 50];
    let actions = bot.step(&mut data, Event::Computed { outputs, at: at(0) });
    assert_eq!(actions.len(), 52);
    assert_eq!(data.logs, vec!["00:00:00 | Synced 50 candles to DB"]);
}

#[test]
fn a_failed_sync_is_passed_over() {
    let (bot, data) = resting();
    assert!(matches!(bot.phase, Phase::Resting));
    assert!(data.logs.is_empty());
}

#[test]
fn a_round_begins_with_the_chores_that_are_due() {
    let (mut bot, mut data) = resting();
    let woke =
        Event::Woke { since_prune: 300_000_000_001, since_wallet: 60_000_000_001, at: at(7_200) };
    let actions = bot.step(&mut data, woke);
    match &actions[..] {
        [Action::Prune(s), Action::Print(line), Action::FetchWallet, Action::FetchPrice] => {
            assert_eq!(whole(s, 0), 3_600_000);
            assert_eq!(line, "02:00:00 | Pruned old DB data");
        }
        other => panic!("{:?}", other),
    }
    assert_eq!(data.logs, vec!["02:00:00 | Pruned old DB data"]);
}

#[test]
fn a_round_begins_without_chores_that_are_not_due() {
    let (mut bot, mut data) = resting();
    let woke =
        Event::Woke { since_prune: 300_000_000_000, since_wallet: 60_000_000_000, at: at(7_200) };
    let actions = bot.step(&mut data, woke);
    assert!(matches!(actions[..], [Action::FetchPrice]));
    assert!(data.logs.is_empty());
}

#[test]
fn the_price_goes_into_the_current_candle() {
    let (mut bot, mut data) = resting();
    bot.step(&mut data, Event::Woke { since_prune: 0, since_wallet: 0, at: at(61) });
    let actions = bot.step(&mut data, Event::Price { price: Some(d(500.0)), at: at(61) });
    match &actions[..] {
        [Action::Save(s), Action::ReadCandles(r)] => {
            assert_eq!(whole(s, 0), 60_000);
            assert_eq!(number(s, 1), 500.0);
            assert_eq!(number(s, 5), 0.0);
            assert_eq!(whole(r, 0), 50);
        }
        other => panic!("{:?}", other),
    }
    assert_eq!(bot.candle, flat(500.0, 60_000));
}

#[test]
fn without_a_price_the_round_is_over() {
    let (mut bot, mut data) = resting();
    bot.step(&mut data, Event::Woke { since_prune: 0, since_wallet: 0, at: at(0) });
    let actions = bot.step(&mut data, Event::Price { price: None, at: at(0) });
    assert!(matches!(actions[..], [Action::Pause(5)]));
    assert!(matches!(bot.phase, Phase::Resting));
    assert_eq!(bot.candle, flat(0.0, -1));
}

#[test]
fn the_history_is_evaluated_from_the_oldest_on() {
    let (mut bot, mut data) = resting();
    bot.step(&mut data, Event::Woke { since_prune: 0, since_wallet: 0, at: at(61) });
    bot.step(&mut data, Event::Price { price: Some(d(5.0)), at: at(61) });
    let rows = vec![flat(5.0, 60_000), flat(4.0, 0)];
    let actions = bot.step(&mut data, Event::History(Some(rows)));
    match &actions[..] {
        [Action::Compute(prices)] => assert_eq!(prices, &vec![d(4.0), d(5.0)]),
        other => panic!("{:?}", other),
    }
}

#[test]
fn a_failed_read_counts_as_no_history() {
    let (mut bot, mut data) = resting();
    bot.step(&mut data, Event::Woke { since_prune: 0, since_wallet: 0, at: at(61) });
    bot.step(&mut data, Event::Price { price: Some(d(5.0)), at: at(61) });
    let actions = bot.step(&mut data, Event::History(None));
    assert!(matches!(&actions[..], [Action::Compute(prices)] if prices.is_empty()));
    let actions = bot.step(&mut data, Event::Computed { outputs: vec![], at: at(61) });
    assert_eq!(data.rsi, d(0.0));
    assert_eq!(trades(&actions).len(), 1, "a strength of zero counts as a crash");
}

#[test]
fn an_idle_round_is_shown_as_scanning() {
    let (mut bot, mut data) = resting();
    let actions = round(&mut bot, &mut data, 61, 500.0, indicators(50.0, 490.0, 510.0));
    match &actions[..] {
        [Action::Save(s), Action::Pause(5)] => {
            assert_eq!(number(s, 5), 50.0);
            assert_eq!(number(s, 6), 490.0);
            assert_eq!(number(s, 7), 510.0);
        }
        other => panic!("{:?}", other),
    }
    assert_eq!(data.status, "IDLE (Scanning)");
    assert_eq!(data.price, d(500.0));
    assert_eq!(data.rsi, d(50.0));
    assert_eq!(data.bb_lower, d(490.0));
    assert_eq!(data.bb_upper, d(510.0));
    assert_eq!(data.unrealized_pl, d(0.0));
    assert_eq!(data.shutdown_order(), None);
}

#[test]
fn a_position_is_opened_held_and_stopped() {
    let (mut bot, mut data) = resting();
    let actions = round(&mut bot, &mut data, 61, 500.0, indicators(25.0, 510.0, 600.0));
    let bought = Order { side: Side::Buy, price: d(500.0), quantity: d(20.0) };
    assert!(matches!(&actions[1], Action::Print(l) if l == "00:01:01 | BUY SIGNAL @ $500.00"));
    assert!(matches!(actions[2], Action::Trade(order) if order == bought));
    assert!(matches!(actions[3], Action::Pause(5)));
    assert_eq!(data.status, "IN POSITION");
    assert_eq!(data.entry_price, d(500.0));
    assert_eq!(data.logs, vec!["00:01:01 | BUY SIGNAL @ $500.00"]);
    let sale = data.shutdown_order();
    assert_eq!(sale, Some(Order { side: Side::Sell, price: d(500.0), quantity: d(0.001) }));

    let actions = round(&mut bot, &mut data, 66, 550.0, indicators(60.0, 510.0, 600.0));
    assert!(trades(&actions).is_empty());
    assert_eq!(data.status, "HOLDING");
    assert_eq!(data.unrealized_pl, d(10.0));
    assert_eq!(
        bot.state,
        BotState::InPosition {
            entry_price: d(500.0),
            highest_price: d(550.0),
            quantity: d(20.0),
        },
    );

    let actions = round(&mut bot, &mut data, 71, 540.5, indicators(60.0, 510.0, 600.0));
    match &actions[..] {
        [Action::Save(_), Action::Print(line), Action::Record(s), Action::Trade(order), Action::Pause(5)] =>
        {
            assert_eq!(line, "00:01:11 | STOP LOSS @ $540.50");
            assert_eq!(number(s, 1), 540.5);
            assert_eq!(number(s, 2), 20.0);
            assert_eq!(number(s, 3), 810.0);
            assert_eq!(*order, Order { side: Side::Sell, price: d(540.5), quantity: d(20.0) });
        }
        other => panic!("{:?}", other),
    }
    assert_eq!(bot.state, BotState::Idle);
    assert_eq!(data.status, "IDLE");
    assert_eq!(data.entry_price, d(0.0));
    assert_eq!(data.realized_pl, d(810.0));
    assert_eq!(data.unrealized_pl, d((540.5 - 500.0) / 500.0 * 100.0));
    assert_eq!(data.logs[0], "00:01:11 | STOP LOSS @ $540.50");
    assert_eq!(data.shutdown_order(), None);
}

#[test]
fn a_reversal_of_half_a_percent_closes_the_position() {
    let (mut bot, mut data) = resting();
    round(&mut bot, &mut data, 115, 400.0, indicators(50.0, 0.0, 0.0));
    round(&mut bot, &mut data, 120, 200.0, indicators(0.5, 0.0, 0.0));
    assert_eq!(data.entry_price, d(200.0));
    let actions = round(&mut bot, &mut data, 125, 199.0, indicators(0.5, 0.0, 0.0));
    assert_eq!(
        trades(&actions),
        vec![Order { side: Side::Sell, price: d(199.0), quantity: d(50.0) }],
    );
    assert_eq!(bot.state, BotState::Idle);
    assert_eq!(data.status, "IDLE");
    assert_eq!(data.entry_price, d(0.0));
    assert_eq!(data.realized_pl, d(-50.0));
}

#[test]
fn a_position_is_sold_at_a_profit() {
    let (mut bot, mut data) = resting();
    round(&mut bot, &mut data, 61, 400.0, indicators(10.0, 0.0, 0.0));
    let actions = round(&mut bot, &mut data, 66, 404.0, indicators(71.0, 0.0, 0.0));
    assert_eq!(
        trades(&actions),
        vec![Order { side: Side::Sell, price: d(404.0), quantity: d(25.0) }],
    );
    assert_eq!(data.realized_pl, d(100.0));
    assert_eq!(data.logs[0], "00:01:06 | PROFIT TAKE @ $404.00");
}

#[test]
fn events_out_of_turn_change_nothing() {
    let (mut bot, mut data) = resting();
    for event in [
        Event::Started,
        Event::Candles(Some(vec![flat(1.0, 0)])),
        Event::Price { price: Some(d(1.0)), at: at(0) },
        Event::History(None),
        Event::Computed { outputs: vec![indicators(1.0, 1.0, 1.0)], at: at(0) },
    ] {
        assert!(bot.step(&mut data, event).is_empty());
        assert!(matches!(bot.phase, Phase::Resting));
        assert_eq!(bot.state, BotState::Idle);
        assert_eq!(bot.candle, flat(0.0, -1));
        assert_eq!(data.status, "Starting...");
    }
}

#[test]
fn over_many_rounds_the_books_agree() {
    let (mut bot, mut data) = resting();
    let mut seed: u64 = 7;
    let mut made: Vec<Order> = Vec::new();
    let mut rows: Vec<(f64, f64, f64)> = Vec::new();
    let mut printed: Vec<String> = Vec::new();
    let mut total = 0.0;
    for i in 0..3000 {
        seed = seed.wrapping_mul(6364136223846793005).wrapping_add(1442695040888963407);
        let price = 60000.0 + ((seed >> 40) % 10_000) as f64 / 7.0;
        let rsi = ((seed >> 33) % 1000) as f64 / 10.0;
        let actions = round(&mut bot, &mut data, 5 * i, price, indicators(rsi, 60500.0, 61000.0));
        for action in &actions {
            if let Action::Record(s) = action {
                total += number(s, 3);
                rows.push((number(s, 1), number(s, 2), number(s, 3)));
            }
            if let Action::Print(line) = action {
                printed.insert(0, line.clone());
                printed.truncate(30);
            }
        }
        made.extend(trades(&actions));
        assert!(matches!(actions[actions.len() - 1], Action::Pause(5)));
        assert_eq!(data.realized_pl, d(total));
        assert_eq!(data.logs, printed);
        assert_ne!(data.status, "Starting...");
        let open = matches!(bot.state, BotState::InPosition { .. });
        assert_eq!(open, made.len() % 2 == 1);
        assert_eq!(open, data.shutdown_order().is_some());
        assert_eq!(open, !data.status.contains("IDLE"));
    }
    assert!(made.len() > 100);
    assert_eq!(rows.len(), made.len() / 2);
    for (i, row) in rows.iter().enumerate() {
        let (bought, sold) = (made[2 * i], made[2 * i + 1]);
        let quantity = f64::from_bits(bought.quantity.bits);
        let price = f64::from_bits(sold.price.bits);
        let profit = (price - f64::from_bits(bought.price.bits)) * quantity;
        assert_eq!(*row, (price, quantity, profit));
    }
    for (i, order) in made.iter().enumerate() {
        assert_eq!(order.side, if i % 2 == 0 { Side::Buy } else { Side::Sell });
        if i % 2 == 1 {
            assert_eq!(order.quantity, made[i - 1].quantity);
        }
    }
}
