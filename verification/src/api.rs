//! The wire-facing value types and the pure response-building logic behind
//! them. The surrounding request-handling layer turns payloads into these
//! values and back; everything that is computed — fill totals, remaining
//! quantity, status words — is computed and specified here.

use vstd::prelude::*;
use crate::types::{Side, Trade, OrderError};

verus! {

/// One fill reported back to a submitter. The timestamp is the wall-clock
/// reading, in nanoseconds, that the caller handed to `submit`.
pub struct MatchDetail {
    pub price: u64,
    pub quantity: u128,
    pub timestamp: u64,
}

/// The answer to an order submission: the new order's id, how much of it
/// filled immediately, how much rests, and the individual fills.
pub struct CreateOrderResponse {
    pub status: String,
    pub order_id: u128,
    pub filled_quantity: u128,
    pub remaining_quantity: u128,
    pub matches: Vec<MatchDetail>,
}

/// The answer to a cancellation request.
pub struct CancelOrderResponse {
    pub status: String,
    pub order_id: u128,
}

/// An order submission as it arrives from the wire.
pub struct CreateOrder {
    pub buy_order: bool,
    pub price: u64,
    pub quantity: u64,
}

/// A cancellation request as it arrives from the wire.
pub struct CancelOrder {
    pub order_id: u128,
}

/// The answer to a status query: "open", "filled", or "not_found".
pub struct OrderStatusResponse {
    pub order_id: u128,
    pub status: String,
    pub current_quantity: u128,
    pub is_buy: bool,
    pub price: u64,
}

/// Total quantity filled by a run of trades.
pub open spec fn filled_of(ts: Seq<Trade>) -> int
    decreases ts.len(),
{
    if ts.len() == 0 {
        0
    } else {
        filled_of(ts.drop_last()) + ts.last().quantity
    }
}

/// Build the submission response from the engine's verdict, the order's
/// original quantity, and exactly the trades the submission produced. On
/// success the filled quantity is the sum of the fills and the remainder
/// saturates at zero; a rejected submission is reported as "invalid", never
/// mistakable for success.
pub fn create_order_response(
    submitted: Result<u128, OrderError>,
    original_quantity: u64,
    new_trades: &Vec<Trade>,
) -> (r: CreateOrderResponse)
    ensures
        match submitted {
            Result::Ok(order_id) => {
                &&& r.status@ == "ok"@
                &&& r.order_id == order_id
                &&& r.filled_quantity == filled_of(new_trades@)
                &&& r.remaining_quantity == if filled_of(new_trades@) >= original_quantity {
                    0
                } else {
                    original_quantity - filled_of(new_trades@)
                }
                &&& r.matches@.len() == new_trades@.len()
                &&& (forall|i: int|
                    0 <= i < new_trades@.len() ==> ({
                        let t = new_trades@[i];
                        (#[trigger] r.matches@[i]).price == t.price && r.matches@[i].quantity
                            == t.quantity && r.matches@[i].timestamp == t.timestamp
                    }))
            },
            Result::Err(_) => {
                &&& r.status@ == "invalid"@
                &&& r.order_id == 0
                &&& r.filled_quantity == 0
                &&& r.remaining_quantity == original_quantity
                &&& r.matches@.len() == 0
            },
        },
{
    let order_id = match submitted {
        Result::Ok(id) => id,
        Result::Err(_) => {
            return CreateOrderResponse {
                status: "invalid".to_owned(),
                order_id: 0,
                filled_quantity: 0,
                remaining_quantity: original_quantity as u128,
                matches: Vec::new(),
            };
        },
    };
    let mut filled: u128 = 0;
    let mut matches: Vec<MatchDetail> = Vec::new();
    let mut i: usize = 0;
    proof {
        assert(new_trades@.take(0) =~= Seq::<Trade>::empty());
    }
    while i < new_trades.len()
        invariant
            i <= new_trades@.len(),
            filled == filled_of(new_trades@.take(i as int)),
            filled <= (i as int) * (u64::MAX as int),
            matches@.len() == i,
            forall|m: int|
                0 <= m < i ==> ({
                    let t = new_trades@[m];
                    (#[trigger] matches@[m]).price == t.price && matches@[m].quantity
                        == t.quantity && matches@[m].timestamp == t.timestamp
                }),
        decreases new_trades@.len() - i,
    {
        let t = new_trades[i];
        proof {
            assert(new_trades@.take(i as int + 1).drop_last() =~= new_trades@.take(i as int));
            assert(new_trades@.take(i as int + 1).last() == new_trades@[i as int]);
            assert((i as int) + 1 <= u64::MAX as int + 1);
            assert(((i as int) + 1) * (u64::MAX as int) <= u128::MAX as int && filled
                + t.quantity <= ((i as int) + 1) * (u64::MAX as int)) by (nonlinear_arith)
                requires
                    filled <= (i as int) * (u64::MAX as int),
                    0 <= t.quantity <= u64::MAX as int,
                    0 <= i as int,
                    (i as int) + 1 <= u64::MAX as int + 1,
            ;
        }
        filled = filled + t.quantity as u128;
        matches.push(MatchDetail { price: t.price, quantity: t.quantity as u128, timestamp: t.timestamp });
        i = i + 1;
    }
    proof {
        assert(new_trades@.take(new_trades@.len() as int) =~= new_trades@);
    }
    let remaining: u128 = if filled >= original_quantity as u128 {
        0
    } else {
        original_quantity as u128 - filled
    };
    CreateOrderResponse {
        status: "ok".to_owned(),
        order_id,
        filled_quantity: filled,
        remaining_quantity: remaining,
        matches,
    }
}

/// Build the status response: a resting order is "open" while quantity
/// remains and "filled" at zero; an absent id is "not_found" with zeroed
/// fields.
pub fn order_status_response(order_id: u128, found: Option<(Side, u64, u64)>) -> (r:
    OrderStatusResponse)
    ensures
        r.order_id == order_id,
        match found {
            Option::Some((s, p, q)) => {
                &&& r.is_buy == (s == Side::Buy)
                &&& r.price == p
                &&& r.current_quantity == q
                &&& r.status@ == if q > 0 {
                    "open"@
                } else {
                    "filled"@
                }
            },
            Option::None => {
                &&& r.status@ == "not_found"@
                &&& r.current_quantity == 0
                &&& !r.is_buy
                &&& r.price == 0
            },
        },
{
    match found {
        Option::Some((s, p, q)) => OrderStatusResponse {
            order_id,
            status: if q > 0 {
                "open".to_owned()
            } else {
                "filled".to_owned()
            },
            current_quantity: q as u128,
            is_buy: match s {
                Side::Buy => true,
                Side::Sell => false,
            },
            price: p,
        },
        Option::None => OrderStatusResponse {
            order_id,
            status: "not_found".to_owned(),
            current_quantity: 0,
            is_buy: false,
            price: 0,
        },
    }
}

/// Build the cancellation response from the engine's verdict, echoing the
/// id. A cancelled order answers "ok"; an id with no resting order answers
/// "not_found", so a failed cancellation is never mistakable for success.
pub fn cancel_order_response(order_id: u128, cancelled: Result<
    (Side, u64, u64),
    OrderError,
>) -> (r: CancelOrderResponse)
    ensures
        r.order_id == order_id,
        r.status@ == match cancelled {
            Result::Ok(_) => "ok"@,
            Result::Err(OrderError::OrderNotFound) => "not_found"@,
            Result::Err(OrderError::InvalidOrder) => "invalid"@,
        },
{
    let status = match cancelled {
        Result::Ok(_) => "ok".to_owned(),
        Result::Err(OrderError::OrderNotFound) => "not_found".to_owned(),
        Result::Err(OrderError::InvalidOrder) => "invalid".to_owned(),
    };
    CancelOrderResponse { status, order_id }
}

} // verus!
