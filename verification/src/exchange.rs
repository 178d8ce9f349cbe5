//! Requests to the exchange, their signatures, and what its replies say.

use crate::config::{HISTORY_CANDLES, PAIR, SIMULATED_BTC, SIMULATED_USDT, TIMEFRAME};
use crate::dashboard::{DashboardData, DashboardView};
use crate::double::parse::{law_nearest_text_reads_back, parsed, writes};
use crate::double::Double;
use crate::text::{decimal, decimal_text, lemma_decimal_digits, lemma_decimal_len};
use vstd::arithmetic::power2::*;
use vstd::prelude::*;
use vstd::string::*;
use vstd::utf8::*;

verus! {

/// Longest message that is signed, in bytes: its length in bits fits the hash's counter.
pub const MAX_MESSAGE_BYTES: u64 = 0x0fff_ffff_ffff_ffff;

/// The kind of a request.
#[derive(Clone, Copy, Debug, PartialEq, Eq, Structural)]
pub enum Method {
    Get,
    Post,
}

/// A request: query parameters and headers are pairs of name and value, in order.
#[derive(Clone, Debug)]
pub struct HttpRequest {
    pub method: Method,
    pub url: &'static str,
    pub query: Vec<(&'static str, String)>,
    pub headers: Vec<(&'static str, String)>,
    pub body: Option<String>,
}

/// A request as a mathematical value.
#[verifier::ext_equal]
pub struct RequestView {
    pub method: Method,
    pub url: Seq<char>,
    pub query: Seq<(Seq<char>, Seq<char>)>,
    pub headers: Seq<(Seq<char>, Seq<char>)>,
    pub body: Option<Seq<char>>,
}

/// The contents of pairs of strings.
pub open spec fn pairs(list: Seq<(&'static str, String)>) -> Seq<(Seq<char>, Seq<char>)> {
    list.map_values(|p: (&'static str, String)| (p.0@, p.1@))
}

impl View for HttpRequest {
    type V = RequestView;

    open spec fn view(&self) -> RequestView {
        RequestView {
            method: self.method,
            url: self.url@,
            query: pairs(self.query@),
            headers: pairs(self.headers@),
            body: match self.body {
                Some(text) => Some(text@),
                None => None,
            },
        }
    }
}

/// The lower-case hexadecimal digit that stands for `n`.
pub open spec fn hex_digit(n: nat) -> char {
    if n < 10 {
        (n + '0' as nat) as char
    } else {
        (n - 10 + 'a' as nat) as char
    }
}

/// Two lower-case hexadecimal digits for each byte.
pub open spec fn hex_text(bytes: Seq<u8>) -> Seq<char> {
    Seq::new(
        2 * bytes.len(),
        |i: int|
            hex_digit(
                (if i % 2 == 0 {
                    bytes[i / 2] / 16
                } else {
                    bytes[i / 2] % 16
                }) as nat,
            ),
    )
}

/// Calls `hex::encode`. Trusted: it gives two lower-case digits for each byte, the high half
/// first.
#[verifier::external_body]
fn hex_encode(bytes: &Vec<u8>) -> (r: String)
    requires
        bytes@.len() <= 0x3fff_ffff,
    ensures
        r@ == hex_text(bytes@),
{
    hex::encode(bytes)
}

/// The HMAC-SHA256 code of a message under a key.
pub uninterp spec fn hmac_sha256(key: Seq<u8>, message: Seq<u8>) -> Seq<u8>;

/// Calls `hmac::Hmac::<sha2::Sha256>`: `new_from_slice`, which takes keys of any length,
/// `update` and `finalize`. Trusted: the code depends on key and message alone and is 32 bytes
/// long.
#[verifier::external_body]
fn hmac_code(key: &[u8], message: &[u8]) -> (r: Vec<u8>)
    requires
        key@.len() <= MAX_MESSAGE_BYTES,
        message@.len() <= MAX_MESSAGE_BYTES,
    ensures
        r@ == hmac_sha256(key@, message@),
        r@.len() == 32,
{
    let mut mac = <hmac::Hmac<sha2::Sha256> as hmac::Mac>::new_from_slice(key).expect("Invalid Key");
    hmac::Mac::update(&mut mac, message);
    hmac::Mac::finalize(mac).into_bytes().to_vec()
}

/// Whether a text is short enough to be signed or to sign with.
pub open spec fn signable(text: Seq<char>) -> bool {
    encode_utf8(text).len() <= MAX_MESSAGE_BYTES
}

/// Whether a text is short enough to be signed or to sign with.
pub fn is_signable(text: &str) -> (r: bool)
    ensures
        r == signable(text@),
{
    text.as_bytes().len() as u64 <= MAX_MESSAGE_BYTES
}

/// The signature of a payload: the hexadecimal HMAC-SHA256 code of its UTF-8 bytes, under the
/// UTF-8 bytes of the secret.
pub open spec fn signature(payload: Seq<char>, secret: Seq<char>) -> Seq<char> {
    hex_text(hmac_sha256(encode_utf8(secret), encode_utf8(payload)))
}

/// Writes an authentication code out.
pub fn code_text(code: &Vec<u8>) -> (r: String)
    requires
        code@.len() <= 0x3fff_ffff,
    ensures
        r@ == hex_text(code@),
{
    hex_encode(code)
}

/// Hexadecimal text has two digits for each byte, all of them lower case, so any header can carry
/// it.
pub proof fn law_hex_text_fits_a_header(bytes: Seq<u8>)
    ensures
        hex_text(bytes).len() == 2 * bytes.len(),
        forall|i: int|
            0 <= i < hex_text(bytes).len() ==> '0' <= #[trigger] hex_text(bytes)[i] <= '9' || 'a'
                <= hex_text(bytes)[i] <= 'f',
        header_text(hex_text(bytes)),
{
    assert forall|i: int| 0 <= i < hex_text(bytes).len() implies '0' <= #[trigger] hex_text(
        bytes,
    )[i] <= '9' || 'a' <= hex_text(bytes)[i] <= 'f' by {
        let b = bytes[i / 2];
        assert(b / 16 < 16 && b % 16 < 16);
    }
}

proof fn lemma_hex_digits_differ(m: nat, n: nat)
    requires
        m < 16,
        n < 16,
        hex_digit(m) == hex_digit(n),
    ensures
        m == n,
{
    assert(hex_digit(m) as nat == if m < 10 {
        m + 48
    } else {
        (m + 87) as nat
    });
    assert(hex_digit(n) as nat == if n < 10 {
        n + 48
    } else {
        (n + 87) as nat
    });
}

/// Hexadecimal text tells any two codes apart.
pub proof fn law_hex_text_tells_codes_apart(a: Seq<u8>, b: Seq<u8>)
    requires
        hex_text(a) == hex_text(b),
    ensures
        a == b,
{
    assert(hex_text(a).len() == 2 * a.len() && hex_text(b).len() == 2 * b.len());
    assert forall|i: int| 0 <= i < a.len() implies a[i] == b[i] by {
        assert((2 * i) / 2 == i && (2 * i) % 2 == 0);
        assert((2 * i + 1) / 2 == i && (2 * i + 1) % 2 == 1);
        assert(hex_text(a)[2 * i] == hex_digit((a[i] / 16) as nat));
        assert(hex_text(b)[2 * i] == hex_digit((b[i] / 16) as nat));
        assert(hex_text(a)[2 * i + 1] == hex_digit((a[i] % 16) as nat));
        assert(hex_text(b)[2 * i + 1] == hex_digit((b[i] % 16) as nat));
        lemma_hex_digits_differ((a[i] / 16) as nat, (b[i] / 16) as nat);
        lemma_hex_digits_differ((a[i] % 16) as nat, (b[i] % 16) as nat);
    }
    assert(a =~= b);
}

/// Signs a payload.
pub fn sign_payload(payload: &str, secret: &str) -> (r: String)
    requires
        signable(payload@),
        signable(secret@),
    ensures
        r@ == signature(payload@, secret@),
        r@.len() == 64,
        header_text(r@),
{
    let code: Vec<u8> = hmac_code(secret.as_bytes(), payload.as_bytes());
    proof {
        law_hex_text_fits_a_header(code@);
    }
    code_text(&code)
}

/// The key and the secret of the account; what the environment does not give is `dummy`.
pub fn get_api_credentials(key: Option<String>, secret: Option<String>) -> (r: (String, String))
    ensures
        r.0@ == (match key {
            Some(text) => text@,
            None => "dummy"@,
        }),
        r.1@ == (match secret {
            Some(text) => text@,
            None => "dummy"@,
        }),
{
    let key_text = match key {
        Some(text) => text,
        None => "dummy".to_owned(),
    };
    let secret_text = match secret {
        Some(text) => text,
        None => "dummy".to_owned(),
    };
    (key_text, secret_text)
}

/// Whether a header can carry this character: all but control characters, of which the tab alone
/// is admitted.
pub open spec fn header_char(c: char) -> bool {
    ' ' <= c && c != '\u{7f}' || c == '\t'
}

/// Whether a header can carry this text.
pub open spec fn header_text(text: Seq<char>) -> bool {
    forall|i: int| 0 <= i < text.len() ==> header_char(#[trigger] text[i])
}

/// Whether a header can carry this text.
pub fn is_header_text(text: &str) -> (r: bool)
    ensures
        r == header_text(text@),
{
    let len: usize = text.unicode_len();
    let mut i: usize = 0;
    while i < len
        invariant
            i <= len,
            len == text@.len(),
            forall|j: int| 0 <= j < i ==> header_char(#[trigger] text@[j]),
        decreases len - i,
    {
        let c: char = text.get_char(i);
        if !(' ' <= c && c != '\u{7f}' || c == '\t') {
            assert(!header_char(text@[i as int]));
            return false;
        }
        i = i + 1;
    }
    true
}

/// The request for the latest candles of the pair; the time stamp keeps caches out.
pub open spec fn historical_candles_view(timestamp: nat) -> RequestView {
    RequestView {
        method: Method::Get,
        url: "https://public.coindcx.com/market_data/candles"@,
        query: seq![
            ("pair"@, PAIR@),
            ("interval"@, TIMEFRAME@),
            ("limit"@, decimal(HISTORY_CANDLES as nat)),
            ("_t"@, decimal(timestamp)),
        ],
        headers: seq![("cache-control"@, "no-cache"@), ("pragma"@, "no-cache"@)],
        body: None,
    }
}

/// Asks for the last 50 one-minute candles of the pair.
pub fn fetch_historical_candles(timestamp: u128) -> (r: HttpRequest)
    ensures
        r@ == historical_candles_view(timestamp as nat),
{
    let r = HttpRequest {
        method: Method::Get,
        url: "https://public.coindcx.com/market_data/candles",
        query: vec![
            ("pair", PAIR.to_owned()),
            ("interval", TIMEFRAME.to_owned()),
            ("limit", decimal_text(HISTORY_CANDLES as u128)),
            ("_t", decimal_text(timestamp)),
        ],
        headers: vec![
            ("cache-control", "no-cache".to_owned()),
            ("pragma", "no-cache".to_owned()),
        ],
        body: None,
    };
    assert(r@ =~= historical_candles_view(timestamp as nat));
    r
}

/// The request for the latest trade of the pair.
pub open spec fn latest_price_view() -> RequestView {
    RequestView {
        method: Method::Get,
        url: "https://public.coindcx.com/market_data/trade_history"@,
        query: seq![("pair"@, PAIR@), ("limit"@, "1"@)],
        headers: seq![("cache-control"@, "no-cache"@)],
        body: None,
    }
}

/// Asks for the latest trade of the pair.
pub fn get_latest_price() -> (r: HttpRequest)
    ensures
        r@ == latest_price_view(),
{
    let r = HttpRequest {
        method: Method::Get,
        url: "https://public.coindcx.com/market_data/trade_history",
        query: vec![("pair", PAIR.to_owned()), ("limit", "1".to_owned())],
        headers: vec![("cache-control", "no-cache".to_owned())],
        body: None,
    };
    assert(r@ =~= latest_price_view());
    r
}

/// A number in a reply, which the exchange writes as a text or as a number.
#[derive(Clone, Debug)]
pub enum Val {
    String(String),
    Number(Double),
}

/// The number that a reply holds; a text that is no number is none.
pub open spec fn number_in(val: Val) -> Option<Double> {
    match val {
        Val::String(text) => parsed(text@),
        Val::Number(number) => Some(number),
    }
}

/// Reads a number in a reply.
pub fn f64_from_str_or_num(val: &Val) -> (r: Option<Double>)
    ensures
        r == number_in(*val),
{
    match val {
        Val::String(text) => Double::parse(text.as_str()),
        Val::Number(number) => Some(*number),
    }
}

/// The quoted and the unquoted form of a finite number agree, whatever decimal text is quoted, as
/// long as it is nearer to the number than to any other one, or as near and the number even.
pub proof fn law_quoted_and_unquoted_numbers_agree(text: String, x: Double)
    requires
        x.is_finite(),
        writes(text@, x),
    ensures
        number_in(Val::String(text)) == Some(x),
        number_in(Val::Number(x)) == Some(x),
{
    law_nearest_text_reads_back(text@, x);
}

/// A trade in a reply.
#[derive(Clone, Copy, Debug, PartialEq, Eq, Structural)]
pub struct TradeTick {
    pub price: Double,
}

/// The price of the first trade in a reply, if it has one.
pub fn first_price(trades: &Vec<TradeTick>) -> (r: Option<Double>)
    ensures
        r == (if trades@.len() > 0 {
            Some(trades@[0].price)
        } else {
            None
        }),
{
    if trades.len() > 0 {
        Some(trades[0].price)
    } else {
        None
    }
}

/// Whether JSON writes a text as it stands.
pub open spec fn json_plain(text: Seq<char>) -> bool {
    forall|i: int|
        0 <= i < text.len() ==> ' ' <= #[trigger] text[i] && text[i] != '"' && text[i] != '\\'
}

/// Calls `serde_json`: the text of an object with one member, a number. Trusted: a name without
/// control characters, quotes and backslashes is written as it stands, the number in decimal
/// notation, and nothing between the parts.
#[verifier::external_body]
fn json_number_object(name: &str, value: u64) -> (r: String)
    requires
        json_plain(name@),
    ensures
        r@ == "{\""@ + name@ + "\":"@ + decimal(value as nat) + "}"@,
{
    let mut object = serde_json::Map::new();
    object.insert(name.to_owned(), serde_json::Value::from(value));
    serde_json::Value::Object(object).to_string()
}

/// What is signed to read the wallet.
pub open spec fn balances_payload(timestamp: nat) -> Seq<char> {
    "{\"timestamp\":"@ + decimal(timestamp) + "}"@
}

/// A request with a body and the signature of that body.
pub open spec fn request_with(
    url: Seq<char>,
    body: Seq<char>,
    api_key: Seq<char>,
    signature: Seq<char>,
) -> RequestView {
    RequestView {
        method: Method::Post,
        url,
        query: seq![],
        headers: seq![
            ("content-type"@, "application/json"@),
            ("X-AUTH-APIKEY"@, api_key),
            ("X-AUTH-SIGNATURE"@, signature),
        ],
        body: Some(body),
    }
}

/// A request with a body that is signed with the secret.
pub open spec fn signed_request(
    url: Seq<char>,
    body: Seq<char>,
    api_key: Seq<char>,
    api_secret: Seq<char>,
) -> RequestView {
    request_with(url, body, api_key, signature(body, api_secret))
}

/// Frames a body and its signature as a request.
pub fn frame_request(url: &'static str, body: String, api_key: &str, signature: String) -> (r:
    HttpRequest)
    ensures
        r@ == request_with(url@, body@, api_key@, signature@),
{
    let r = HttpRequest {
        method: Method::Post,
        url,
        query: Vec::new(),
        headers: vec![
            ("content-type", "application/json".to_owned()),
            ("X-AUTH-APIKEY", api_key.to_owned()),
            ("X-AUTH-SIGNATURE", signature),
        ],
        body: Some(body),
    };
    assert(r@ =~= request_with(url@, body@, api_key@, signature@));
    r
}

/// Signs a body and frames it as a request.
pub(crate) fn sign_request(url: &'static str, body: String, api_key: &str, api_secret: &str) -> (r:
    HttpRequest)
    requires
        signable(body@),
        signable(api_secret@),
    ensures
        r@ == signed_request(url@, body@, api_key@, api_secret@),
{
    let signed: String = sign_payload(body.as_str(), api_secret);
    frame_request(url, body, api_key, signed)
}

/// The request for the balances of the account.
pub open spec fn balances_view(
    api_key: Seq<char>,
    api_secret: Seq<char>,
    timestamp: nat,
) -> RequestView {
    signed_request(
        "https://api.coindcx.com/exchange/v1/users/balances"@,
        balances_payload(timestamp),
        api_key,
        api_secret,
    )
}

/// Asks for the balances of the account. When trading is simulated there is nothing to ask, and
/// the dashboard shows the simulated wallet.
pub fn fetch_wallet_balance(
    simulation: bool,
    dashboard: &mut DashboardData,
    api_key: &str,
    api_secret: &str,
    timestamp: u128,
) -> (r: Option<HttpRequest>)
    requires
        simulation || timestamp <= u64::MAX && header_text(api_key@) && signable(api_secret@),
    ensures
        simulation ==> r is None && final(dashboard)@ == old(dashboard)@.with_wallet(
            Double { bits: SIMULATED_USDT },
            Double { bits: SIMULATED_BTC },
        ),
        !simulation ==> final(dashboard)@ == old(dashboard)@,
        !simulation ==> (r matches Some(request) && request@ == balances_view(
            api_key@,
            api_secret@,
            timestamp as nat,
        )),
{
    if simulation {
        dashboard.show_simulated_wallet();
        return None;
    }
    proof {
        reveal_strlit("timestamp");
        reveal_strlit("{\"");
        reveal_strlit("\":");
        reveal_strlit("{\"timestamp\":");
        assert("{\""@ + "timestamp"@ + "\":"@ =~= "{\"timestamp\":"@);
        lemma_balances_payload_signable(timestamp as nat);
    }
    let body: String = json_number_object("timestamp", timestamp as u64);
    Some(
        sign_request(
            "https://api.coindcx.com/exchange/v1/users/balances",
            body,
            api_key,
            api_secret,
        ),
    )
}

proof fn lemma_balances_payload_signable(timestamp: nat)
    requires
        timestamp <= u64::MAX,
    ensures
        signable(balances_payload(timestamp)),
{
    let payload = balances_payload(timestamp);
    reveal_strlit("{\"timestamp\":");
    reveal_strlit("}");
    lemma_decimal_digits(timestamp);
    lemma2_to64();
    lemma_pow2_adds(64, 2);
    lemma_decimal_len(timestamp, 22);
    assert(is_ascii_chars(payload));
    is_ascii_chars_encode_utf8(payload);
}

/// What the account holds of one currency.
#[derive(Clone, Debug)]
pub struct Balance {
    pub currency: String,
    pub balance: String,
}

/// The amount that a balance tells; one that is no number counts as nothing.
pub open spec fn amount_of(balance: Seq<char>) -> Double {
    match parsed(balance) {
        Some(amount) => amount,
        None => Double { bits: 0 },
    }
}

/// The balance of a currency: that of its last entry, and zero without one.
pub open spec fn held(balances: Seq<Balance>, currency: Seq<char>) -> Double
    decreases balances.len(),
{
    if balances.len() == 0 {
        Double { bits: 0 }
    } else if balances.last().currency@ == currency {
        amount_of(balances.last().balance@)
    } else {
        held(balances.drop_last(), currency)
    }
}

impl DashboardView {
    /// This dashboard with the wallet's contents.
    pub open spec fn with_wallet(self, usdt: Double, btc: Double) -> DashboardView {
        DashboardView { wallet_usdt: usdt, wallet_btc: btc, ..self }
    }
}

impl DashboardData {
    /// Shows the simulated wallet.
    pub fn show_simulated_wallet(&mut self)
        ensures
            final(self)@ == old(self)@.with_wallet(
                Double { bits: SIMULATED_USDT },
                Double { bits: SIMULATED_BTC },
            ),
    {
        self.wallet_usdt = Double { bits: SIMULATED_USDT };
        self.wallet_btc = Double { bits: SIMULATED_BTC };
    }

    /// Shows the balances that the exchange has reported.
    pub fn show_wallet(&mut self, balances: &Vec<Balance>)
        ensures
            final(self)@ == old(self)@.with_wallet(
                held(balances@, "USDT"@),
                held(balances@, "BTC"@),
            ),
    {
        let mut usdt = Double { bits: 0 };
        let mut btc = Double { bits: 0 };
        let usdt_name: String = "USDT".to_owned();
        let btc_name: String = "BTC".to_owned();
        let mut i: usize = 0;
        while i < balances.len()
            invariant
                i <= balances@.len(),
                usdt_name@ == "USDT"@,
                btc_name@ == "BTC"@,
                usdt == held(balances@.take(i as int), "USDT"@),
                btc == held(balances@.take(i as int), "BTC"@),
            decreases balances@.len() - i,
        {
            proof {
                assert(balances@.take(i + 1).drop_last() =~= balances@.take(i as int));
            }
            let amount: Double = match Double::parse(balances[i].balance.as_str()) {
                Some(amount) => amount,
                None => Double { bits: 0 },
            };
            if balances[i].currency == usdt_name {
                usdt = amount;
            }
            if balances[i].currency == btc_name {
                btc = amount;
            }
            i = i + 1;
        }
        proof {
            assert(balances@.take(balances@.len() as int) =~= balances@);
        }
        self.wallet_usdt = usdt;
        self.wallet_btc = btc;
    }
}

/// The candles are asked for by pair, interval, count and time.
pub proof fn law_candles_request(timestamp: nat)
    ensures
        ({
            let r = historical_candles_view(timestamp);
            &&& r.method == Method::Get && r.body is None
            &&& r.url == "https://public.coindcx.com/market_data/candles"@
            &&& r.query.len() == 4
            &&& r.query[0] == ("pair"@, "B-BTC_USDT"@)
            &&& r.query[1] == ("interval"@, "1m"@)
            &&& r.query[2] == ("limit"@, "50"@)
            &&& r.query[3] == ("_t"@, decimal(timestamp))
            &&& r.headers.len() == 2
            &&& r.headers[0] == ("cache-control"@, "no-cache"@)
            &&& r.headers[1] == ("pragma"@, "no-cache"@)
        }),
{
    reveal_with_fuel(decimal, 2);
    reveal_strlit("50");
    assert(decimal(50) =~= "50"@);
}

/// The latest trade is asked for by pair and count.
pub proof fn law_price_request()
    ensures
        ({
            let r = latest_price_view();
            &&& r.method == Method::Get && r.body is None
            &&& r.url == "https://public.coindcx.com/market_data/trade_history"@
            &&& r.query.len() == 2
            &&& r.query[0] == ("pair"@, "B-BTC_USDT"@)
            &&& r.query[1] == ("limit"@, "1"@)
            &&& r.headers.len() == 1
            &&& r.headers[0] == ("cache-control"@, "no-cache"@)
        }),
{
}

/// A signed request carries the key and the signature of the very body that is sent: the
/// hexadecimal HMAC-SHA256 code of the body's bytes under the secret's bytes.
pub proof fn law_signed_request(
    url: Seq<char>,
    body: Seq<char>,
    api_key: Seq<char>,
    api_secret: Seq<char>,
)
    ensures
        ({
            let r = signed_request(url, body, api_key, api_secret);
            &&& r.method == Method::Post
            &&& r.url == url
            &&& r.query.len() == 0
            &&& r.body == Some(body)
            &&& r.headers.len() == 3
            &&& r.headers[0] == ("content-type"@, "application/json"@)
            &&& r.headers[1] == ("X-AUTH-APIKEY"@, api_key)
            &&& r.headers[2] == (
                "X-AUTH-SIGNATURE"@,
                hex_text(hmac_sha256(encode_utf8(api_secret), encode_utf8(body))),
            )
        }),
        forall|other: Seq<char>| #[trigger]
            request_with(url, body, api_key, other).headers
                =~= signed_request(url, body, api_key, api_secret).headers.update(
                2,
                ("X-AUTH-SIGNATURE"@, other),
            ),
{
}

/// The balances are asked for by a signed object that holds the time in milliseconds.
pub proof fn law_balances_request(api_key: Seq<char>, api_secret: Seq<char>, timestamp: nat)
    ensures
        ({
            let r = balances_view(api_key, api_secret, timestamp);
            let body = "{\"timestamp\":"@ + decimal(timestamp) + "}"@;
            &&& r.url == "https://api.coindcx.com/exchange/v1/users/balances"@
            &&& r.body == Some(body)
            &&& r.headers[1].1 == api_key
            &&& r.headers[2].1 == signature(body, api_secret)
        }),
{
}

/// Each byte of a code is written as two digits of base sixteen, the higher one first.
pub proof fn law_hex_text_has_place_value(bytes: Seq<u8>, i: int)
    requires
        0 <= i < bytes.len(),
    ensures
        bytes[i] == 16 * hex_value(hex_text(bytes)[2 * i]) + hex_value(hex_text(bytes)[2 * i + 1]),
{
    assert((2 * i) / 2 == i && (2 * i) % 2 == 0);
    assert((2 * i + 1) / 2 == i && (2 * i + 1) % 2 == 1);
    let (high, low) = ((bytes[i] / 16) as nat, (bytes[i] % 16) as nat);
    assert(hex_text(bytes)[2 * i] == hex_digit(high));
    assert(hex_text(bytes)[2 * i + 1] == hex_digit(low));
    lemma_hex_value(high);
    lemma_hex_value(low);
}

/// The number that a hexadecimal digit stands for.
pub open spec fn hex_value(c: char) -> int {
    if '0' <= c <= '9' {
        c as int - '0' as int
    } else {
        c as int - 'a' as int + 10
    }
}

proof fn lemma_hex_value(n: nat)
    requires
        n < 16,
    ensures
        hex_value(hex_digit(n)) == n,
{
}

/// A header carries a text exactly if it carries each part of it; and a single character unless
/// it is a control character other than the tab.
pub proof fn law_header_text(a: Seq<char>, b: Seq<char>, c: char)
    ensures
        header_text(a + b) <==> header_text(a) && header_text(b),
        header_text(seq![]),
        header_text(seq![c]) <==> c == '\t' || c as int >= 32 && c as int != 127,
{
    if header_text(a + b) {
        assert forall|i: int| 0 <= i < a.len() implies header_char(#[trigger] a[i]) by {
            assert((a + b)[i] == a[i]);
        }
        assert forall|i: int| 0 <= i < b.len() implies header_char(#[trigger] b[i]) by {
            assert((a + b)[a.len() + i] == b[i]);
        }
    }
    if header_text(seq![c]) {
        assert(header_char(seq![c][0]));
    }
}

/// The wallet shows of a currency what its last entry tells, and nothing where the entry is no
/// number.
pub proof fn law_last_balance_counts(balances: Seq<Balance>, currency: Seq<char>, i: int)
    requires
        0 <= i < balances.len(),
        balances[i].currency@ == currency,
        forall|j: int| i < j < balances.len() ==> (#[trigger] balances[j]).currency@ != currency,
    ensures
        parsed(balances[i].balance@) is None ==> held(balances, currency).bits == 0,
        parsed(balances[i].balance@) matches Some(amount) ==> held(balances, currency) == amount,
    decreases balances.len(),
{
    if i < balances.len() - 1 {
        let init = balances.drop_last();
        assert(balances[balances.len() - 1].currency@ != currency);
        assert forall|j: int| i < j < init.len() implies (#[trigger] init[j]).currency@
            != currency by {
            assert(init[j] == balances[j]);
        }
        law_last_balance_counts(init, currency, i);
    }
}

/// The wallet shows nothing of a currency without an entry.
pub proof fn law_no_balance_is_nothing(balances: Seq<Balance>, currency: Seq<char>)
    requires
        forall|i: int| 0 <= i < balances.len() ==> (#[trigger] balances[i]).currency@ != currency,
    ensures
        held(balances, currency).bits == 0,
    decreases balances.len(),
{
    if balances.len() > 0 {
        let init = balances.drop_last();
        assert(balances[balances.len() - 1].currency@ != currency);
        assert forall|i: int| 0 <= i < init.len() implies (#[trigger] init[i]).currency@
            != currency by {
            assert(init[i] == balances[i]);
        }
        law_no_balance_is_nothing(init, currency);
    }
}

/// A reading of the wallet changes the two amounts that are shown, and nothing else.
pub proof fn law_wallet_is_shown(dashboard: DashboardView, usdt: Double, btc: Double)
    ensures
        dashboard.with_wallet(usdt, btc).wallet_usdt == usdt,
        dashboard.with_wallet(usdt, btc).wallet_btc == btc,
        (DashboardView {
            wallet_usdt: dashboard.wallet_usdt,
            wallet_btc: dashboard.wallet_btc,
            ..dashboard.with_wallet(usdt, btc)
        }) == dashboard,
{
}

/// A number in a reply is read as it stands, and a text as the number that it is the text of.
pub proof fn law_both_forms_are_read(number: Double, text: String)
    ensures
        number_in(Val::Number(number)) == Some(number),
        number_in(Val::String(text)) == parsed(text@),
{
}

/// A request is seen as it is sent.
pub proof fn law_requests_are_seen_as_they_are(request: HttpRequest)
    ensures
        request@.method == request.method,
        request@.url == request.url@,
        request@.query.len() == request.query@.len(),
        forall|i: int|
            0 <= i < request.query@.len() ==> #[trigger] request@.query[i] == (
                request.query@[i].0@,
                request.query@[i].1@,
            ),
        request@.headers.len() == request.headers@.len(),
        forall|i: int|
            0 <= i < request.headers@.len() ==> #[trigger] request@.headers[i] == (
                request.headers@[i].0@,
                request.headers@[i].1@,
            ),
        request.body is None <==> request@.body is None,
        request.body matches Some(text) ==> request@.body == Some(text@),
{
}

} // verus!
