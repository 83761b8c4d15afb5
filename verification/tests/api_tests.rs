use clob::api::{cancel_order_response, create_order_response, order_status_response};
use clob::book::OrderBook;
use clob::types::{OrderError, Side, Trade};

#[test]
fn create_response_sums_fills_and_remainder() {
    let trades = vec![
        Trade { price: 100, quantity: 5, sequence: 1, timestamp: 42 },
        Trade { price: 101, quantity: 2, sequence: 2, timestamp: 42 },
    ];
    let r = create_order_response(Ok(9), 10, &trades);
    assert_eq!(r.status, "ok");
    assert_eq!(r.order_id, 9);
    assert_eq!(r.filled_quantity, 7);
    assert_eq!(r.remaining_quantity, 3);
    assert_eq!(r.matches.len(), 2);
    assert_eq!(r.matches[0].price, 100);
    assert_eq!(r.matches[0].quantity, 5);
    assert_eq!(r.matches[0].timestamp, 42);
    assert_eq!(r.matches[1].price, 101);
    assert_eq!(r.matches[1].quantity, 2);
}

#[test]
fn create_response_remainder_saturates_at_zero() {
    let trades = vec![Trade { price: 100, quantity: 8, sequence: 1, timestamp: 1 }];
    let r = create_order_response(Ok(1), 8, &trades);
    assert_eq!(r.filled_quantity, 8);
    assert_eq!(r.remaining_quantity, 0);
    let none: Vec<Trade> = Vec::new();
    let r2 = create_order_response(Ok(2), 6, &none);
    assert_eq!(r2.filled_quantity, 0);
    assert_eq!(r2.remaining_quantity, 6);
    assert!(r2.matches.is_empty());
}

#[test]
fn status_response_reports_open_and_not_found() {
    let open = order_status_response(5, Some((Side::Sell, 50, 3)));
    assert_eq!(open.status, "open");
    assert_eq!(open.order_id, 5);
    assert_eq!(open.current_quantity, 3);
    assert!(!open.is_buy);
    assert_eq!(open.price, 50);

    let missing = order_status_response(6, None);
    assert_eq!(missing.status, "not_found");
    assert_eq!(missing.current_quantity, 0);
    assert!(!missing.is_buy);
    assert_eq!(missing.price, 0);
}

#[test]
fn cancel_response_distinguishes_success_from_failure() {
    let ok = cancel_order_response(77, Ok((Side::Buy, 100, 5)));
    assert_eq!(ok.status, "ok");
    assert_eq!(ok.order_id, 77);

    let missing = cancel_order_response(78, Err(OrderError::OrderNotFound));
    assert_eq!(missing.status, "not_found");
    assert_eq!(missing.order_id, 78);
}

#[test]
fn create_response_reports_rejection_as_invalid() {
    // A rejected submission produced no trades and changed nothing; its
    // response must not look like success.
    let none: Vec<Trade> = Vec::new();
    let r = create_order_response(Err(OrderError::InvalidOrder), 5, &none);
    assert_eq!(r.status, "invalid");
    assert_eq!(r.order_id, 0);
    assert_eq!(r.filled_quantity, 0);
    assert_eq!(r.remaining_quantity, 5);
    assert!(r.matches.is_empty());
}

#[test]
fn double_cancel_yields_failure_response() {
    // The second cancellation of one id fails in the engine, and the
    // response carries that failure out.
    let mut book = OrderBook::new();
    let id = book.submit(Side::Buy, 100, 5, 1).unwrap();
    let first = book.cancel(id);
    assert_eq!(cancel_order_response(id, first).status, "ok");
    let second = book.cancel(id);
    assert_eq!(second, Err(OrderError::OrderNotFound));
    assert_eq!(cancel_order_response(id, second).status, "not_found");
}

#[test]
fn end_to_end_submission_report() {
    // A whole request cycle: record the count, submit, report the fills —
    // the same arithmetic the request layer performs.
    let mut book = OrderBook::new();
    book.submit(Side::Sell, 100, 4, 11).unwrap();
    let before = book.trade_count();
    let id = book.submit(Side::Buy, 100, 10, 11).unwrap();
    let new_trades = book.trades_since(before);
    let r = create_order_response(Ok(id), 10, &new_trades);
    assert_eq!(r.filled_quantity, 4);
    assert_eq!(r.remaining_quantity, 6);
    assert_eq!(r.matches.len(), 1);
    assert_eq!(r.matches[0].price, 100);
    // The rest of the order is visible through a status query.
    let looked = book.lookup(id).ok().map(|(s, p, q)| (s, p, q));
    let status = order_status_response(id, looked);
    assert_eq!(status.status, "open");
    assert_eq!(status.current_quantity, 6);
    assert!(status.is_buy);
}
