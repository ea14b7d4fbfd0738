//! Polymarket-style order construction and validation.
//!
//! Prices and sizes are fixed-point integers in micro-units; the order's
//! amount fields are decimal strings of whole micro-unit products, as the
//! venue's wire format carries them. The network transport lives outside
//! this library.

use vstd::prelude::*;
use vstd::string::StringExecFns;
use vstd::string::StrSliceExecFns;
use crate::text::{all_dec_digits, dec_str, dec_val, parse_u64_dec, str_eq, u64_to_dec};

verus! {

/// The side of a Polymarket order.
#[allow(non_camel_case_types)]
#[derive(Clone, Copy, Debug, PartialEq, Eq, Structural)]
pub enum PolymarketOrderSide {
    BUY,
    SELL,
}

/// How long a Polymarket order stays working.
#[allow(non_camel_case_types)]
#[derive(Clone, Copy, Debug, PartialEq, Eq, Structural)]
pub enum PolymarketOrderType {
    FOK,
    GTC,
    GTD,
}

/// How a Polymarket order is signed.
#[allow(non_camel_case_types)]
#[derive(Clone, Copy, Debug, PartialEq, Eq, Structural)]
pub enum PolymarketSignatureType {
    EMAIL_MAGIC,
    BROWSER_WALLET,
    EOA_DIRECT,
}

impl PolymarketOrderSide {
    /// The wire code of the side.
    pub fn code(&self) -> (r: u8)
        ensures
            r == side_code(*self),
    {
        match self {
            PolymarketOrderSide::BUY => 0,
            PolymarketOrderSide::SELL => 1,
        }
    }
}

/// The wire code of a side: 0 buys, 1 sells.
pub open spec fn side_code(s: PolymarketOrderSide) -> u8 {
    match s {
        PolymarketOrderSide::BUY => 0,
        PolymarketOrderSide::SELL => 1,
    }
}

impl PolymarketSignatureType {
    /// The wire code of the signature type.
    pub fn code(&self) -> (r: u8)
        ensures
            r == signature_code(*self),
    {
        match self {
            PolymarketSignatureType::EMAIL_MAGIC => 1,
            PolymarketSignatureType::BROWSER_WALLET => 2,
            PolymarketSignatureType::EOA_DIRECT => 3,
        }
    }
}

/// The wire code of a signature type.
pub open spec fn signature_code(s: PolymarketSignatureType) -> u8 {
    match s {
        PolymarketSignatureType::EMAIL_MAGIC => 1,
        PolymarketSignatureType::BROWSER_WALLET => 2,
        PolymarketSignatureType::EOA_DIRECT => 3,
    }
}

/// A signed order in the venue's wire shape. Amounts are decimal strings
/// of whole micro-units.
#[derive(Clone, Debug)]
pub struct PolymarketOrder {
    pub salt: u64,
    pub maker: String,
    pub signer: String,
    pub taker: String,
    pub token_id: String,
    pub maker_amount: String,
    pub taker_amount: String,
    pub expiration: String,
    pub nonce: String,
    pub fee_rate_bps: String,
    pub side: u8,
    pub signature_type: u8,
    pub signature: String,
}

/// An order wrapped for posting.
#[derive(Clone, Debug)]
pub struct PolymarketOrderRequest {
    pub order: PolymarketOrder,
    pub owner: String,
    pub order_type: String,
}

/// The venue's response to a posted order.
#[derive(Clone, Debug)]
pub struct PolymarketOrderResponse {
    pub success: bool,
    pub error_msg: Option<String>,
    pub order_id: Option<String>,
    pub order_hashes: Option<Vec<String>>,
}

/// Credentials for the venue's API.
#[derive(Clone, Debug)]
pub struct PolymarketApiCredentials {
    pub api_key: String,
    pub api_secret: String,
}

/// The arguments of one order: price and size in micro-units.
#[derive(Clone, Debug)]
pub struct PolymarketOrderArgs {
    pub price: u64,
    pub size: u64,
    pub side: PolymarketOrderSide,
    pub token_id: String,
}

/// A client for building and validating orders against the venue.
pub struct PolymarketClobClient {
    host: String,
    private_key: String,
    chain_id: u64,
    signature_type: PolymarketSignatureType,
    funder_address: Option<String>,
    api_credentials: Option<PolymarketApiCredentials>,
}

/// The maker amount of an order: what the maker gives. A buyer gives
/// price times size (scaled back to micro-units, clamped to u64); a
/// seller gives the size itself.
pub open spec fn maker_amount_spec(args: PolymarketOrderArgs) -> u64 {
    if args.side == PolymarketOrderSide::BUY {
        clamp_u64(args.price * args.size / 1000000)
    } else {
        args.size
    }
}

/// The taker amount of an order: what the taker gives in return.
pub open spec fn taker_amount_spec(args: PolymarketOrderArgs) -> u64 {
    if args.side == PolymarketOrderSide::BUY {
        args.size
    } else {
        clamp_u64(args.price * args.size / 1000000)
    }
}

/// A non-negative integer clamped to the u64 range.
pub open spec fn clamp_u64(n: int) -> u64 {
    if n > u64::MAX {
        u64::MAX
    } else {
        n as u64
    }
}

/// Relies on rand::random: a fresh value from thread-local randomness.
/// Nothing is promised about the value.
#[verifier::external_body]
fn random_u64() -> u64 {
    rand::random::<u64>()
}

impl PolymarketClobClient {
    /// The stored private key, for contracts.
    pub closed spec fn private_key_spec(&self) -> Seq<char> {
        self.private_key@
    }

    /// The stored funder address, for contracts.
    pub closed spec fn funder_address_spec(&self) -> Option<Seq<char>> {
        match self.funder_address {
            Some(a) => Some(a@),
            None => None,
        }
    }

    /// The stored signature type, for contracts.
    pub closed spec fn signature_type_spec(&self) -> PolymarketSignatureType {
        self.signature_type
    }

    /// The stored API credentials, for contracts.
    pub closed spec fn api_credentials_spec(&self) -> Option<PolymarketApiCredentials> {
        self.api_credentials
    }

    /// Makes a client from its connection and signing parameters.
    pub fn new(
        host: String,
        private_key: String,
        chain_id: u64,
        signature_type: PolymarketSignatureType,
        funder_address: Option<String>,
    ) -> (r: PolymarketClobClient)
        ensures
            r.private_key_spec() == private_key@,
            r.signature_type_spec() == signature_type,
            r.funder_address_spec() == (match funder_address {
                Some(a) => Some(a@),
                None => None::<Seq<char>>,
            }),
    {
        PolymarketClobClient {
            host,
            private_key,
            chain_id,
            signature_type,
            funder_address,
            api_credentials: None,
        }
    }

    /// Stores API credentials on the client.
    pub fn set_api_credentials(&mut self, credentials: PolymarketApiCredentials)
        ensures
            final(self).api_credentials_spec() == Some(credentials),
            final(self).private_key_spec() == old(self).private_key_spec(),
            final(self).signature_type_spec() == old(self).signature_type_spec(),
            final(self).funder_address_spec() == old(self).funder_address_spec(),
    {
        self.api_credentials = Some(credentials);
    }

    /// Derives placeholder API credentials from the first eight
    /// characters of the private key.
    pub fn create_or_derive_api_credentials(&self) -> (r: PolymarketApiCredentials)
        requires
            self.private_key_spec().len() >= 8,
        ensures
            r.api_key@ == "derived_key_"@ + self.private_key_spec().subrange(0, 8),
            r.api_secret@ == "derived_secret_"@ + self.private_key_spec().subrange(0, 8),
    {
        let prefix = self.private_key.as_str().substring_char(0, 8);
        let mut api_key = String::from_str("derived_key_");
        api_key.append(prefix);
        let mut api_secret = String::from_str("derived_secret_");
        api_secret.append(prefix);
        PolymarketApiCredentials { api_key, api_secret }
    }

    /// Bundles price, size, side and token id into order arguments.
    pub fn create_order_args(
        &self,
        price: u64,
        size: u64,
        side: PolymarketOrderSide,
        token_id: String,
    ) -> (r: PolymarketOrderArgs)
        ensures
            r.price == price,
            r.size == size,
            r.side == side,
            r.token_id@ == token_id@,
    {
        PolymarketOrderArgs { price, size, side, token_id }
    }

    /// Builds a signed order from its arguments. The salt is drawn from
    /// randomness and the expiration is an hour past the current clock,
    /// so nothing is promised of those two fields; every other field is
    /// pinned to the arguments.
    pub fn create_order(&self, order_args: PolymarketOrderArgs) -> (r: PolymarketOrder)
        ensures
            r.maker@ == (match self.funder_address_spec() {
                Some(a) => a,
                None => "0x0"@,
            }),
            r.signer@ == "0x0"@,
            r.taker@ == "0x0"@,
            r.token_id@ == order_args.token_id@,
            r.maker_amount@ == dec_str(maker_amount_spec(order_args) as int),
            r.taker_amount@ == dec_str(taker_amount_spec(order_args) as int),
            r.nonce@ == "0"@,
            r.fee_rate_bps@ == "0"@,
            r.side == side_code(order_args.side),
            r.signature_type == signature_code(self.signature_type_spec()),
            r.signature@ == "0x0"@,
    {
        let now = crate::clock::now_seconds();
        let now_u: u64 = if now > 0 {
            now as u64
        } else {
            0
        };
        proof {
            assert(now > 0 ==> now <= i64::MAX);
        }
        let expiration: u64 = now_u + 3600;
        let salt = random_u64();
        let scaled = Self::scaled_amount(order_args.price, order_args.size);
        let maker_amount = if matches!(order_args.side, PolymarketOrderSide::BUY) {
            scaled
        } else {
            order_args.size
        };
        let taker_amount = if matches!(order_args.side, PolymarketOrderSide::BUY) {
            order_args.size
        } else {
            scaled
        };
        let maker = match &self.funder_address {
            Some(a) => a.clone(),
            None => String::from_str("0x0"),
        };
        PolymarketOrder {
            salt,
            maker,
            signer: String::from_str("0x0"),
            taker: String::from_str("0x0"),
            token_id: order_args.token_id,
            maker_amount: u64_to_dec(maker_amount),
            taker_amount: u64_to_dec(taker_amount),
            expiration: u64_to_dec(expiration),
            nonce: String::from_str("0"),
            fee_rate_bps: String::from_str("0"),
            side: order_args.side.code(),
            signature_type: self.signature_type.code(),
            signature: String::from_str("0x0"),
        }
    }

    /// Price times size, scaled back from squared micro-units to
    /// micro-units, clamped to the u64 range.
    fn scaled_amount(price: u64, size: u64) -> (r: u64)
        ensures
            r == clamp_u64(price * size / 1000000),
    {
        proof {
            assert(price * size <= (u64::MAX as int) * (u64::MAX as int) && price * size >= 0
                && (u64::MAX as int) * (u64::MAX as int) < u128::MAX as int) by (nonlinear_arith)
                requires
                    price <= u64::MAX,
                    size <= u64::MAX,
            ;
        }
        let prod: u128 = (price as u128) * (size as u128);
        let scaled: u128 = prod / 1000000;
        if scaled > u64::MAX as u128 {
            u64::MAX
        } else {
            scaled as u64
        }
    }

    /// What a status string from the venue means.
    pub fn get_order_status_description(status: &str) -> (r: &'static str)
        ensures
            r@ == status_description_spec(status@),
    {
        if str_eq(status, "matched") {
            "Order placed and matched with existing resting order"
        } else if str_eq(status, "live") {
            "Order placed and resting on the book"
        } else if str_eq(status, "delayed") {
            "Order marketable, but subject to matching delay"
        } else if str_eq(status, "unmatched") {
            "Order marketable, but failure delaying, placement successful"
        } else {
            "Unknown status"
        }
    }

    /// What an error code from the venue means.
    pub fn get_error_description(error: &str) -> (r: &'static str)
        ensures
            r@ == error_description_spec(error@),
    {
        if str_eq(error, "INVALID_ORDER_MIN_TICK_SIZE") {
            "Order price breaks minimum tick size rules"
        } else if str_eq(error, "INVALID_ORDER_MIN_SIZE") {
            "Order size lower than minimum threshold"
        } else if str_eq(error, "INVALID_ORDER_DUPLICATED") {
            "Same order already placed, cannot place again"
        } else if str_eq(error, "INVALID_ORDER_NOT_ENOUGH_BALANCE") {
            "Insufficient balance or allowance"
        } else if str_eq(error, "INVALID_ORDER_EXPIRATION") {
            "Invalid expiration time"
        } else if str_eq(error, "INVALID_ORDER_ERROR") {
            "System error while inserting order"
        } else if str_eq(error, "EXECUTION_ERROR") {
            "System error while attempting to execute trade"
        } else if str_eq(error, "ORDER_DELAYED") {
            "Order placement delayed due to market conditions"
        } else if str_eq(error, "DELAYING_ORDER_ERROR") {
            "Error delaying the order"
        } else if str_eq(error, "FOK_ORDER_NOT_FILLED_ERROR") {
            "FOK order not fully filled, cannot be placed"
        } else if str_eq(error, "MARKET_NOT_READY") {
            "Market not ready to process new orders"
        } else {
            "Unknown error"
        }
    }

    /// Checks an order's expiration and amounts against the current
    /// clock. The checks against a given clock reading are in
    /// `validate_order_at`; only the reading itself comes from outside.
    pub fn validate_order(&self, order: &PolymarketOrder) -> (r: Result<(), String>)
        ensures
            (!all_dec_digits(order.expiration@) || order.expiration@.len() == 0 || dec_val(
                order.expiration@,
            ) > i64::MAX) ==> (r matches Err(e) && e@ == "Invalid expiration format"@),
    {
        let now = crate::clock::now_seconds();
        Self::validate_order_at(order, now)
    }

    /// Checks an order against a given clock reading, in seconds since
    /// the epoch: the expiration must be a decimal timestamp in the
    /// future, and both amounts must be positive decimal numbers.
    pub fn validate_order_at(order: &PolymarketOrder, now: i64) -> (r: Result<(), String>)
        ensures
            (!all_dec_digits(order.expiration@) || order.expiration@.len() == 0 || dec_val(
                order.expiration@,
            ) > i64::MAX) <==> (r matches Err(e) && e@ == "Invalid expiration format"@),
            r is Ok <==> {
                &&& all_dec_digits(order.expiration@)
                &&& order.expiration@.len() > 0
                &&& dec_val(order.expiration@) <= i64::MAX
                &&& dec_val(order.expiration@) > now
                &&& all_dec_digits(order.maker_amount@)
                &&& order.maker_amount@.len() > 0
                &&& dec_val(order.maker_amount@) <= u64::MAX
                &&& all_dec_digits(order.taker_amount@)
                &&& order.taker_amount@.len() > 0
                &&& dec_val(order.taker_amount@) <= u64::MAX
                &&& dec_val(order.maker_amount@) > 0
                &&& dec_val(order.taker_amount@) > 0
            },
    {
        proof {
            reveal_strlit("Invalid expiration format");
            reveal_strlit("Order expiration must be in the future");
            reveal_strlit("Invalid maker amount");
            reveal_strlit("Invalid taker amount");
            reveal_strlit("Order amounts must meet minimum tick size requirements");
            reveal_strlit("Order size must meet minimum size threshold");
        }
        let expiration = match parse_u64_dec(order.expiration.as_str()) {
            Some(v) => v,
            None => {
                return Err(String::from_str("Invalid expiration format"));
            },
        };
        if expiration > i64::MAX as u64 {
            return Err(String::from_str("Invalid expiration format"));
        }
        if expiration as i64 <= now {
            proof {
                assert("Order expiration must be in the future"@.len() == 38);
                assert("Invalid expiration format"@ != "Order expiration must be in the future"@);
                assert(all_dec_digits(order.expiration@));
                assert(dec_val(order.expiration@) <= i64::MAX);
            }
            return Err(String::from_str("Order expiration must be in the future"));
        }
        let maker_amount = match parse_u64_dec(order.maker_amount.as_str()) {
            Some(v) => v,
            None => {
                proof {
                    assert("Invalid maker amount"@.len() == 20);
                }
                return Err(String::from_str("Invalid maker amount"));
            },
        };
        let taker_amount = match parse_u64_dec(order.taker_amount.as_str()) {
            Some(v) => v,
            None => {
                proof {
                    assert("Invalid taker amount"@.len() == 20);
                    assert("Invalid taker amount"@ != "Invalid expiration format"@);
                }
                return Err(String::from_str("Invalid taker amount"));
            },
        };
        if maker_amount == 0 || taker_amount == 0 {
            proof {
                assert("Order amounts must meet minimum tick size requirements"@.len() == 54);
            }
            return Err(
                String::from_str("Order amounts must meet minimum tick size requirements"),
            );
        }
        let size = if order.side == 0 {
            taker_amount
        } else {
            maker_amount
        };
        if size == 0 {
            proof {
                assert("Order size must meet minimum size threshold"@.len() == 43);
            }
            return Err(String::from_str("Order size must meet minimum size threshold"));
        }
        Ok(())
    }
}

/// What a status string from the venue means, as a map over the text.
pub open spec fn status_description_spec(s: Seq<char>) -> Seq<char> {
    if s == "matched"@ {
        "Order placed and matched with existing resting order"@
    } else if s == "live"@ {
        "Order placed and resting on the book"@
    } else if s == "delayed"@ {
        "Order marketable, but subject to matching delay"@
    } else if s == "unmatched"@ {
        "Order marketable, but failure delaying, placement successful"@
    } else {
        "Unknown status"@
    }
}

/// What an error code from the venue means, as a map over the text.
pub open spec fn error_description_spec(s: Seq<char>) -> Seq<char> {
    if s == "INVALID_ORDER_MIN_TICK_SIZE"@ {
        "Order price breaks minimum tick size rules"@
    } else if s == "INVALID_ORDER_MIN_SIZE"@ {
        "Order size lower than minimum threshold"@
    } else if s == "INVALID_ORDER_DUPLICATED"@ {
        "Same order already placed, cannot place again"@
    } else if s == "INVALID_ORDER_NOT_ENOUGH_BALANCE"@ {
        "Insufficient balance or allowance"@
    } else if s == "INVALID_ORDER_EXPIRATION"@ {
        "Invalid expiration time"@
    } else if s == "INVALID_ORDER_ERROR"@ {
        "System error while inserting order"@
    } else if s == "EXECUTION_ERROR"@ {
        "System error while attempting to execute trade"@
    } else if s == "ORDER_DELAYED"@ {
        "Order placement delayed due to market conditions"@
    } else if s == "DELAYING_ORDER_ERROR"@ {
        "Error delaying the order"@
    } else if s == "FOK_ORDER_NOT_FILLED_ERROR"@ {
        "FOK order not fully filled, cannot be placed"@
    } else if s == "MARKET_NOT_READY"@ {
        "Market not ready to process new orders"@
    } else {
        "Unknown error"@
    }
}

} // verus!
