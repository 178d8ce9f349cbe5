use coindcx_scalper::dashboard::DashboardData;
use coindcx_scalper::double::Double;
use coindcx_scalper::exchange::{
    code_text, f64_from_str_or_num, fetch_historical_candles, fetch_wallet_balance, first_price,
    frame_request, get_api_credentials, get_latest_price, is_header_text, is_signable, sign_payload,
    Balance,    HttpRequest, Method, TradeTick, Val,
};
use coindcx_scalper::orders::order_request;

fn d(x: f64) -> Double {
    Double { bits: x.to_bits() }
}

fn header<'a>(request: &'a HttpRequest, name: &str) -> &'a str {
    request.headers.iter().find(|h| h.0 == name).map(|h| h.1.as_str()).unwrap()
}

fn balance(currency: &str, amount: &str) -> Balance {
    Balance { currency: currency.to_string(), balance: amount.to_string() }
}

#[test]
fn codes_are_written_in_lower_case_hexadecimal() {
    assert_eq!(code_text(&vec![]), "");
    assert_eq!(code_text(&vec![0x00, 0x0f, 0xa0, 0xff, 0x9c]), "000fa0ff9c");
    let all: Vec<u8> = (0..=255).collect();
    let text = code_text(&all);
    assert_eq!(text.len(), 512);
    assert!(is_header_text(&text));
    assert!(text.chars().all(|c| c.is_ascii_digit() || ('a'..='f').contains(&c)));
    for (i, b) in all.iter().enumerate() {
        assert_eq!(u8::from_str_radix(&text[2 * i..2 * i + 2], 16).unwrap(), *b);
    }
}

#[test]
fn payloads_are_signed_with_hmac_sha256() {
    assert_eq!(
        sign_payload("what do ya want for nothing?", "Jefe"),
        "5bdcc146bf60754e6a042426089575c75a003f089d2739839dec58b964ec3843",
    );
    assert_eq!(
        sign_payload("The quick brown fox jumps over the lazy dog", "key"),
        "f7bc83f430538424b13298e6aa6fb143ef4d59a14946175997479dbc2d1a3cd8",
    );
    assert_eq!(
        sign_payload("", ""),
        "b613679a0814d9ec772f95d778c35fc5ff1697c493715653c6c712144292c5ad",
    );
}

#[test]
fn signatures_depend_on_payload_and_secret() {
    let one = sign_payload("{\"timestamp\":1}", "secret");
    assert_eq!(one.len(), 64);
    assert!(is_header_text(&one));
    assert_eq!(one, sign_payload("{\"timestamp\":1}", "secret"));
    assert_ne!(one, sign_payload("{\"timestamp\":2}", "secret"));
    assert_ne!(one, sign_payload("{\"timestamp\":1}", "Secret"));
}

#[test]
fn long_and_foreign_secrets_sign_too() {
    let long = "k".repeat(200);
    assert_eq!(sign_payload("x", &long).len(), 64);
    assert_ne!(sign_payload("x", &long), sign_payload("x", &long[1..]));
    assert_eq!(sign_payload("\u{20ac}\u{1f680}", "gehe\u{ef}m").len(), 64);
}

#[test]
fn texts_in_memory_are_short_enough_to_sign() {
    assert!(is_signable(""));
    assert!(is_signable(&"\u{20ac}".repeat(10_000)));
}

#[test]
fn missing_credentials_are_dummies() {
    let given = get_api_credentials(Some("k".to_string()), Some("s".to_string()));
    assert_eq!(given, ("k".to_string(), "s".to_string()));
    let none = get_api_credentials(None, None);
    assert_eq!(none, ("dummy".to_string(), "dummy".to_string()));
    let half = get_api_credentials(None, Some("".to_string()));
    assert_eq!(half, ("dummy".to_string(), "".to_string()));
}

#[test]
fn headers_carry_all_but_control_characters() {
    for text in ["", "dummy", "a b~!", "tab\there", "\u{e9}", "ok\u{20ac}", "\u{80}\u{1f680}"] {
        assert!(is_header_text(text), "{text:?}");
    }
    for text in ["line\n", "\r", "\u{7f}", "\u{0}", "\u{1f}", "\u{20ac}\u{7f}"] {
        assert!(!is_header_text(text), "{text:?}");
    }
}

#[test]
fn header_texts_are_those_that_a_header_value_takes() {
    for code in 0..0x3000u32 {
        if let Some(c) = char::from_u32(code) {
            let text = format!("k{}", c);
            let taken = reqwest::header::HeaderValue::from_str(&text).is_ok();
            assert_eq!(is_header_text(&text), taken, "{code:x}");
        }
    }
}

#[test]
fn keys_beyond_ascii_are_sent() {
    let mut data = DashboardData::new();
    let request = fetch_wallet_balance(false, &mut data, "cl\u{e9}", "s", 1).unwrap();
    assert_eq!(header(&request, "X-AUTH-APIKEY"), "cl\u{e9}");
    let order = order_request("cl\u{e9}", "s", "{}".to_string());
    assert_eq!(header(&order, "X-AUTH-APIKEY"), "cl\u{e9}");
}

#[test]
fn the_candles_are_asked_for() {
    let request = fetch_historical_candles(1_700_000_000_123);
    assert_eq!(request.method, Method::Get);
    assert_eq!(request.url, "https://public.coindcx.com/market_data/candles");
    assert_eq!(
        request.query,
        vec![
            ("pair", "B-BTC_USDT".to_string()),
            ("interval", "1m".to_string()),
            ("limit", "50".to_string()),
            ("_t", "1700000000123".to_string()),
        ],
    );
    assert_eq!(
        request.headers,
        vec![("cache-control", "no-cache".to_string()), ("pragma", "no-cache".to_string())],
    );
    assert_eq!(request.body, None);
}

#[test]
fn the_latest_trade_is_asked_for() {
    let request = get_latest_price();
    assert_eq!(request.method, Method::Get);
    assert_eq!(request.url, "https://public.coindcx.com/market_data/trade_history");
    assert_eq!(request.query, vec![("pair", "B-BTC_USDT".to_string()), ("limit", "1".to_string())]);
    assert_eq!(request.headers, vec![("cache-control", "no-cache".to_string())]);
    assert_eq!(request.body, None);
}

#[test]
fn the_first_trade_gives_the_price() {
    assert_eq!(first_price(&vec![]), None);
    let trades = vec![TradeTick { price: d(2.0) }, TradeTick { price: d(1.0) }];
    assert_eq!(first_price(&trades), Some(d(2.0)));
}

#[test]
fn numbers_come_as_texts_or_as_numbers() {
    assert_eq!(f64_from_str_or_num(&Val::String("123.45".to_string())), Some(d(123.45)));
    assert_eq!(f64_from_str_or_num(&Val::Number(d(123.45))), Some(d(123.45)));
    assert_eq!(f64_from_str_or_num(&Val::String("12x".to_string())), None);
    assert_eq!(f64_from_str_or_num(&Val::String("".to_string())), None);
}

#[test]
fn quoted_and_unquoted_numbers_agree() {
    let mut seed: u64 = 3;
    for i in 0..500 {
        seed = seed.wrapping_mul(6364136223846793005).wrapping_add(1442695040888963407);
        for x in [f64::from_bits(seed), i as f64, -(i as f64), (seed >> 30) as f64 / 100.0] {
            if x.is_finite() {
                let quoted = f64_from_str_or_num(&Val::String(x.to_string()));
                assert_eq!(quoted, f64_from_str_or_num(&Val::Number(d(x))), "{x:e}");
                assert_eq!(quoted, Some(d(x)));
            }
        }
    }
}

#[test]
fn the_balances_are_asked_for() {
    let mut data = DashboardData::new();
    let time = 1_700_000_000_123;
    let request = fetch_wallet_balance(false, &mut data, "my-key", "my-secret", time).unwrap();
    assert_eq!(data.wallet_usdt, d(0.0));
    let body = "{\"timestamp\":1700000000123}";
    assert_eq!(request.method, Method::Post);
    assert_eq!(request.url, "https://api.coindcx.com/exchange/v1/users/balances");
    assert!(request.query.is_empty());
    assert_eq!(request.body.as_deref(), Some(body));
    assert_eq!(header(&request, "content-type"), "application/json");
    assert_eq!(header(&request, "X-AUTH-APIKEY"), "my-key");
    assert_eq!(header(&request, "X-AUTH-SIGNATURE"), sign_payload(body, "my-secret"));
    assert_eq!(request.headers.len(), 3);
}

#[test]
fn the_balances_payload_holds_any_time() {
    let mut data = DashboardData::new();
    let early = fetch_wallet_balance(false, &mut data, "k", "s", 0).unwrap();
    assert_eq!(early.body.as_deref(), Some("{\"timestamp\":0}"));
    let late = fetch_wallet_balance(false, &mut data, "k", "s", u64::MAX as u128).unwrap();
    assert_eq!(late.body.as_deref(), Some("{\"timestamp\":18446744073709551615}"));
}

#[test]
fn a_simulated_wallet_is_shown_without_asking() {
    let mut data = DashboardData::new();
    assert!(fetch_wallet_balance(true, &mut data, "\n", "", u128::MAX).is_none());
    assert_eq!(data.wallet_usdt, d(10500.0));
    assert_eq!(data.wallet_btc, d(0.05));
}

#[test]
fn requests_are_framed_with_their_signature() {
    let url = "https://api.coindcx.com/exchange/v1/orders/create";
    let request = frame_request(url, "body".to_string(), "key", "sig".to_string());
    assert_eq!(request.method, Method::Post);
    assert_eq!(request.url, url);
    assert_eq!(request.body.as_deref(), Some("body"));
    assert_eq!(
        request.headers,
        vec![
            ("content-type", "application/json".to_string()),
            ("X-AUTH-APIKEY", "key".to_string()),
            ("X-AUTH-SIGNATURE", "sig".to_string()),
        ],
    );
}

#[test]
fn orders_are_signed() {
    let request = order_request("my-key", "my-secret", "{\"side\":\"buy\"}".to_string());
    assert_eq!(request.method, Method::Post);
    assert_eq!(request.url, "https://api.coindcx.com/exchange/v1/orders/create");
    assert_eq!(request.body.as_deref(), Some("{\"side\":\"buy\"}"));
    assert_eq!(header(&request, "X-AUTH-APIKEY"), "my-key");
    let signature = header(&request, "X-AUTH-SIGNATURE");
    assert_eq!(signature, sign_payload("{\"side\":\"buy\"}", "my-secret"));
}

#[test]
fn the_wallet_shows_both_currencies() {
    let mut data = DashboardData::new();
    data.show_wallet(&vec![balance("ETH", "7"), balance("USDT", "1234.5"), balance("BTC", "0.25")]);
    assert_eq!(data.wallet_usdt, d(1234.5));
    assert_eq!(data.wallet_btc, d(0.25));
}

#[test]
fn the_last_balance_of_a_currency_counts() {
    let mut data = DashboardData::new();
    data.show_wallet(&vec![balance("USDT", "1"), balance("BTC", "2"), balance("USDT", "3")]);
    assert_eq!(data.wallet_usdt, d(3.0));
    assert_eq!(data.wallet_btc, d(2.0));
}

#[test]
fn missing_and_broken_balances_count_as_nothing() {
    let mut data = DashboardData::new();
    data.show_simulated_wallet();
    data.show_wallet(&vec![balance("USDT", "much"), balance("btc", "9")]);
    assert_eq!(data.wallet_usdt, d(0.0));
    assert_eq!(data.wallet_btc, d(0.0));
}

#[test]
fn the_simulated_wallet_is_fixed() {
    let mut data = DashboardData::new();
    data.show_simulated_wallet();
    assert_eq!(data.wallet_usdt, d(10500.0));
    assert_eq!(data.wallet_btc, d(0.05));
    assert_eq!(data.status, "Starting...");
}
