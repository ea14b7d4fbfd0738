//! Binance-style order types and request signing.
//!
//! The REST transport itself lives outside this library; here are the data
//! types, the order-type mapping, and the query-string signature, whose
//! value is pinned to the HMAC of the secret key and query text.

use vstd::prelude::*;
use crate::text::str_eq;
use hmac::Mac;

verus! {

/// The side of a Binance order.
#[allow(non_camel_case_types)]
#[derive(Clone, Copy, Debug, PartialEq, Eq, Structural)]
pub enum BinanceOrderSide {
    BUY,
    SELL,
}

/// The execution type of a Binance order.
#[allow(non_camel_case_types)]
#[derive(Clone, Copy, Debug, PartialEq, Eq, Structural)]
pub enum BinanceOrderType {
    LIMIT,
    MARKET,
    STOP_LOSS,
    TAKE_PROFIT,
    STOP_MARKET,
}

/// How long a Binance order stays working.
#[allow(non_camel_case_types)]
#[derive(Clone, Copy, Debug, PartialEq, Eq, Structural)]
pub enum BinanceTimeInForce {
    GTC,
    IOC,
    FOK,
    GTX,
}

/// The status of a Binance order, as reported by the venue.
#[allow(non_camel_case_types)]
#[derive(Clone, Copy, Debug, PartialEq, Eq, Structural)]
pub enum BinanceOrderStatus {
    NEW,
    PARTIALLY_FILLED,
    FILLED,
    CANCELED,
    PENDING_CANCEL,
    REJECTED,
    EXPIRED,
}

/// One fill reported inside an order response.
#[derive(Clone, Debug)]
pub struct BinanceFill {
    pub price: String,
    pub qty: String,
    pub commission: String,
    pub commission_asset: String,
    pub trade_id: u64,
}

/// A venue's response to a placed order.
#[derive(Clone, Debug)]
pub struct BinanceOrderResponse {
    pub symbol: String,
    pub order_id: u64,
    pub order_list_id: Option<i64>,
    pub client_order_id: String,
    pub transact_time: u64,
    pub price: String,
    pub orig_qty: String,
    pub executed_qty: String,
    pub cummulative_quote_qty: String,
    pub status: BinanceOrderStatus,
    pub time_in_force: String,
    pub order_type: String,
    pub side: String,
    pub fills: Option<Vec<BinanceFill>>,
}

/// A client for signing Binance order requests.
pub struct BinanceOrderClient {
    api_key: String,
    secret_key: String,
    base_url: String,
    recv_window: u64,
}

/// The order type and time-in-force a Polymarket order type maps to:
/// good-till-cancelled and good-till-date orders become limit orders,
/// fill-or-kill and fill-and-kill become market orders, and anything
/// unrecognised falls back to a good-till-cancelled limit order.
pub open spec fn convert_order_type_spec(s: Seq<char>) -> (BinanceOrderType, Option<
    BinanceTimeInForce,
>) {
    if s == "GTC"@ {
        (BinanceOrderType::LIMIT, Some(BinanceTimeInForce::GTC))
    } else if s == "FOK"@ {
        (BinanceOrderType::MARKET, None)
    } else if s == "FAK"@ {
        (BinanceOrderType::MARKET, None)
    } else if s == "GTD"@ {
        (BinanceOrderType::LIMIT, Some(BinanceTimeInForce::GTC))
    } else {
        (BinanceOrderType::LIMIT, Some(BinanceTimeInForce::GTC))
    }
}

/// What the tag of HMAC-SHA-256 is, as a function of key and message.
pub uninterp spec fn hmac_sha256_of(key: Seq<u8>, msg: Seq<u8>) -> Seq<u8>;

/// Relies on hmac's `Hmac<Sha256>`: HMAC accepts a key of any length (so
/// `new_from_slice` never fails), and the 32-byte tag depends on the key
/// and message alone.
#[verifier::external_body]
fn hmac_sha256(key: &[u8], msg: &[u8]) -> (r: Vec<u8>)
    ensures
        r@ == hmac_sha256_of(key@, msg@),
        r@.len() == 32,
{
    let mut mac = <hmac::Hmac<sha2::Sha256> as hmac::digest::KeyInit>::new_from_slice(key)
        .expect("HMAC accepts any key size");
    mac.update(msg);
    mac.finalize().into_bytes().to_vec()
}

/// The character for one hexadecimal digit, lowercase.
pub open spec fn hex_digit(d: int) -> char {
    if d < 10 {
        crate::text::dec_digit(d)
    } else if d == 10 {
        'a'
    } else if d == 11 {
        'b'
    } else if d == 12 {
        'c'
    } else if d == 13 {
        'd'
    } else if d == 14 {
        'e'
    } else {
        'f'
    }
}

/// The lowercase hex rendering of a byte string: two digits per byte,
/// high nibble first.
pub open spec fn hex_of(bytes: Seq<u8>) -> Seq<char> {
    Seq::new(
        bytes.len() * 2,
        |i: int|
            if i % 2 == 0 {
                hex_digit(bytes[i / 2] as int / 16)
            } else {
                hex_digit(bytes[i / 2] as int % 16)
            },
    )
}

/// Relies on hex::encode: each byte becomes two lowercase hex digits from
/// the table "0123456789abcdef", high nibble first.
#[verifier::external_body]
fn hex_encode(bytes: &[u8]) -> (r: String)
    ensures
        r@ == hex_of(bytes@),
{
    hex::encode(bytes)
}

impl BinanceOrderClient {
    /// The stored secret key, for contracts.
    pub closed spec fn secret_key_spec(&self) -> Seq<char> {
        self.secret_key@
    }

    /// The stored api key, for contracts.
    pub closed spec fn api_key_spec(&self) -> Seq<char> {
        self.api_key@
    }

    /// The venue base url, for contracts.
    pub closed spec fn base_url_spec(&self) -> Seq<char> {
        self.base_url@
    }

    /// The receive window sent with each request, for contracts.
    pub closed spec fn recv_window_spec(&self) -> u64 {
        self.recv_window
    }

    /// Makes a client for the live venue, or for the test venue when
    /// `testnet` is set.
    pub fn new(api_key: String, secret_key: String, testnet: bool) -> (r: BinanceOrderClient)
        ensures
            r.api_key_spec() == api_key@,
            r.secret_key_spec() == secret_key@,
            r.recv_window_spec() == 5000,
            testnet ==> r.base_url_spec() == "https://testnet.binancefuture.com"@,
            !testnet ==> r.base_url_spec() == "https://fapi.binance.com"@,
    {
        let base_url = if testnet {
            String::from_str("https://testnet.binancefuture.com")
        } else {
            String::from_str("https://fapi.binance.com")
        };
        BinanceOrderClient { api_key, secret_key, base_url, recv_window: 5000 }
    }

    /// Maps a Polymarket order type to the Binance order type and
    /// time-in-force it corresponds to.
    pub fn convert_polymarket_order_type(polymarket_type: &str) -> (r: (BinanceOrderType, Option<
        BinanceTimeInForce,
    >))
        ensures
            r == convert_order_type_spec(polymarket_type@),
    {
        if str_eq(polymarket_type, "GTC") {
            (BinanceOrderType::LIMIT, Some(BinanceTimeInForce::GTC))
        } else if str_eq(polymarket_type, "FOK") {
            (BinanceOrderType::MARKET, None)
        } else if str_eq(polymarket_type, "FAK") {
            (BinanceOrderType::MARKET, None)
        } else if str_eq(polymarket_type, "GTD") {
            (BinanceOrderType::LIMIT, Some(BinanceTimeInForce::GTC))
        } else {
            (BinanceOrderType::LIMIT, Some(BinanceTimeInForce::GTC))
        }
    }

    /// Signs a query string: the lowercase hex rendering of the
    /// HMAC-SHA-256 tag of the query text (as UTF-8 bytes) under the
    /// client's secret key.
    pub fn generate_signature(&self, query_string: &str) -> (r: String)
        ensures
            r@ == hex_of(
                hmac_sha256_of(
                    vstd::utf8::encode_utf8(self.secret_key_spec()),
                    vstd::utf8::encode_utf8(query_string@),
                ),
            ),
    {
        let key = self.secret_key.as_str().as_bytes();
        let msg = query_string.as_bytes();
        let tag = hmac_sha256(key, msg);
        hex_encode(tag.as_slice())
    }
}

} // verus!
