use clob::book::OrderBook;
use clob::types::{OrderError, Side};

const TS: u64 = 1_700_000_000_000_000_000;

#[test]
fn price_time_priority_exact_fills() {
    // Asks 101x5 (oldest), 100x5, 100x3; an incoming buy 101x10 fills the
    // best price first (100), oldest order first within it, then 101.
    let mut book = OrderBook::new();
    let a1 = book.submit(Side::Sell, 101, 5, TS).unwrap();
    let _a2 = book.submit(Side::Sell, 100, 5, TS).unwrap();
    let _a3 = book.submit(Side::Sell, 100, 3, TS).unwrap();
    assert_eq!(book.trade_count(), 0);

    let before = book.trade_count();
    let b = book.submit(Side::Buy, 101, 10, TS).unwrap();
    let trades = book.trades_since(before);
    let got: Vec<(u64, u64)> = trades.iter().map(|t| (t.price, t.quantity)).collect();
    assert_eq!(got, vec![(100, 5), (100, 3), (101, 2)]);

    // The incoming order was fully absorbed.
    assert_eq!(book.lookup(b), Err(OrderError::OrderNotFound));
    // The oldest ask still rests with 3 left.
    assert_eq!(book.lookup(a1), Ok((Side::Sell, 101, 3)));
}

#[test]
fn quantity_conservation() {
    // Resting 10 + 5 on the ask side; a buy of 7 moves exactly 7 into the
    // trade log and leaves exactly 8 resting.
    let mut book = OrderBook::new();
    book.submit(Side::Sell, 100, 10, TS).unwrap();
    book.submit(Side::Sell, 101, 5, TS).unwrap();
    let before = book.trade_count();
    book.submit(Side::Buy, 101, 7, TS).unwrap();
    let traded: u64 = book.trades_since(before).iter().map(|t| t.quantity).sum();
    assert_eq!(traded, 7);
    let snap = book.snapshot();
    let resting: u128 = snap.asks.iter().map(|l| l.quantity).sum();
    assert_eq!(resting, 8);
    assert_eq!(traded as u128 + resting, 15);
}

#[test]
fn resting_on_no_match() {
    // An empty book: a sell 50x10 rests entirely at its own price.
    let mut book = OrderBook::new();
    let id = book.submit(Side::Sell, 50, 10, TS).unwrap();
    assert_eq!(book.trade_count(), 0);
    let snap = book.snapshot();
    assert_eq!(snap.asks.len(), 1);
    assert_eq!(snap.asks[0].price, 50);
    assert_eq!(snap.asks[0].quantity, 10);
    assert_eq!(snap.bids.len(), 0);
    assert_eq!(book.lookup(id), Ok((Side::Sell, 50, 10)));
}

#[test]
fn cancellation_removes_and_is_not_idempotent_success() {
    let mut book = OrderBook::new();
    let id = book.submit(Side::Buy, 100, 5, TS).unwrap();
    assert_eq!(book.cancel(id), Ok((Side::Buy, 100, 5)));
    assert_eq!(book.lookup(id), Err(OrderError::OrderNotFound));
    // Cancelling the same id twice fails the second time.
    assert_eq!(book.cancel(id), Err(OrderError::OrderNotFound));
    // A crossing sell no longer matches against the cancelled bid.
    let s = book.submit(Side::Sell, 100, 5, TS).unwrap();
    assert_eq!(book.trade_count(), 0);
    assert_eq!(book.lookup(s), Ok((Side::Sell, 100, 5)));
}

#[test]
fn cancel_partially_filled_keeps_prior_fills() {
    let mut book = OrderBook::new();
    book.submit(Side::Sell, 100, 3, TS).unwrap();
    let b = book.submit(Side::Buy, 100, 10, TS).unwrap();
    assert_eq!(book.trade_count(), 1);
    assert_eq!(book.lookup(b), Ok((Side::Buy, 100, 7)));
    assert_eq!(book.cancel(b), Ok((Side::Buy, 100, 7)));
    // The fill already recorded stays in the log.
    assert_eq!(book.trade_count(), 1);
    let t = &book.trades_since(0)[0];
    assert_eq!((t.price, t.quantity), (100, 3));
}

#[test]
fn trade_log_monotonic_and_gap_free() {
    let mut book = OrderBook::new();
    book.submit(Side::Sell, 100, 1, TS).unwrap();
    book.submit(Side::Sell, 100, 1, TS).unwrap();
    book.submit(Side::Sell, 100, 1, TS).unwrap();
    book.submit(Side::Buy, 100, 3, TS).unwrap();
    let all = book.trades_since(0);
    let seqs: Vec<u64> = all.iter().map(|t| t.sequence).collect();
    assert_eq!(seqs, vec![1, 2, 3]);
    let tail = book.trades_since(1);
    let tail_seqs: Vec<u64> = tail.iter().map(|t| t.sequence).collect();
    assert_eq!(tail_seqs, vec![2, 3]);
    for t in &tail {
        assert!(t.sequence > 1);
    }
    assert!(book.trades_since(book.trade_count()).is_empty());
    assert!(book.trades_since(u64::MAX).is_empty());
}

#[test]
fn full_fill_leaves_no_residue() {
    let mut book = OrderBook::new();
    let a = book.submit(Side::Sell, 100, 5, TS).unwrap();
    let b = book.submit(Side::Buy, 100, 5, TS).unwrap();
    assert_eq!(book.trade_count(), 1);
    assert_eq!(book.lookup(b), Err(OrderError::OrderNotFound));
    assert_eq!(book.lookup(a), Err(OrderError::OrderNotFound));
    let snap = book.snapshot();
    assert!(snap.bids.is_empty());
    assert!(snap.asks.is_empty());
}

#[test]
fn invalid_order_rejected_without_state_change() {
    let mut book = OrderBook::new();
    assert_eq!(book.submit(Side::Buy, 0, 5, TS), Err(OrderError::InvalidOrder));
    assert_eq!(book.submit(Side::Sell, 100, 0, TS), Err(OrderError::InvalidOrder));
    assert_eq!(book.trade_count(), 0);
    let snap = book.snapshot();
    assert!(snap.bids.is_empty());
    assert!(snap.asks.is_empty());
    // The id counter did not move: the next accepted order gets id 1.
    assert_eq!(book.submit(Side::Buy, 100, 5, TS), Ok(1));
}

#[test]
fn execution_at_resting_price_gives_improvement() {
    // A buy limited at 100 against an ask resting at 90 prints at 90.
    let mut book = OrderBook::new();
    book.submit(Side::Sell, 90, 4, TS).unwrap();
    book.submit(Side::Buy, 100, 4, TS).unwrap();
    let t = &book.trades_since(0)[0];
    assert_eq!((t.price, t.quantity), (90, 4));

    // And symmetrically: a sell limited at 85 against a bid at 90 prints
    // at 90.
    let mut book2 = OrderBook::new();
    book2.submit(Side::Buy, 90, 2, TS).unwrap();
    book2.submit(Side::Sell, 85, 2, TS).unwrap();
    let t2 = &book2.trades_since(0)[0];
    assert_eq!((t2.price, t2.quantity), (90, 2));
}

#[test]
fn non_crossing_sides_rest_apart() {
    let mut book = OrderBook::new();
    let b = book.submit(Side::Buy, 90, 5, TS).unwrap();
    let a = book.submit(Side::Sell, 100, 5, TS).unwrap();
    assert_eq!(book.trade_count(), 0);
    assert_eq!(book.lookup(b), Ok((Side::Buy, 90, 5)));
    assert_eq!(book.lookup(a), Ok((Side::Sell, 100, 5)));
    let snap = book.snapshot();
    assert_eq!(snap.bids.len(), 1);
    assert_eq!(snap.asks.len(), 1);
}

#[test]
fn ids_are_assigned_in_order_and_never_reused() {
    let mut book = OrderBook::new();
    let first = book.submit(Side::Buy, 10, 1, TS).unwrap();
    let second = book.submit(Side::Buy, 11, 1, TS).unwrap();
    assert_eq!(first, 1);
    assert_eq!(second, 2);
    book.cancel(first).unwrap();
    // The freed id is not handed out again.
    let third = book.submit(Side::Buy, 12, 1, TS).unwrap();
    assert_eq!(third, 3);
}

#[test]
fn snapshot_reports_levels_best_first() {
    let mut book = OrderBook::new();
    book.submit(Side::Buy, 95, 1, TS).unwrap();
    book.submit(Side::Buy, 97, 2, TS).unwrap();
    book.submit(Side::Buy, 96, 3, TS).unwrap();
    book.submit(Side::Sell, 105, 4, TS).unwrap();
    book.submit(Side::Sell, 103, 5, TS).unwrap();
    let snap = book.snapshot();
    let bid_prices: Vec<u64> = snap.bids.iter().map(|l| l.price).collect();
    let ask_prices: Vec<u64> = snap.asks.iter().map(|l| l.price).collect();
    assert_eq!(bid_prices, vec![97, 96, 95]);
    assert_eq!(ask_prices, vec![103, 105]);
    assert_eq!(snap.trade_count, 0);
    assert_eq!(snap.next_order_id, 6);
}

#[test]
fn level_queue_is_fifo_across_partial_fills() {
    // Two resting asks at one price: the older one is consumed first.
    let mut book = OrderBook::new();
    let older = book.submit(Side::Sell, 100, 4, TS).unwrap();
    let newer = book.submit(Side::Sell, 100, 4, TS).unwrap();
    book.submit(Side::Buy, 100, 5, TS).unwrap();
    assert_eq!(book.lookup(older), Err(OrderError::OrderNotFound));
    assert_eq!(book.lookup(newer), Ok((Side::Sell, 100, 3)));
}

#[test]
fn timestamps_are_recorded_on_trades() {
    let mut book = OrderBook::new();
    book.submit(Side::Sell, 100, 1, 7).unwrap();
    book.submit(Side::Buy, 100, 1, 9).unwrap();
    let t = &book.trades_since(0)[0];
    assert_eq!(t.timestamp, 9);
}

#[test]
fn fresh_book_can_accept() {
    let book = OrderBook::new();
    assert!(book.can_accept());
}

#[test]
fn extreme_quantities_do_not_wrap() {
    let mut book = OrderBook::new();
    let a = book.submit(Side::Sell, 1, u64::MAX, TS).unwrap();
    let b = book.submit(Side::Buy, u64::MAX, u64::MAX, TS).unwrap();
    assert_eq!(book.trade_count(), 1);
    let t = &book.trades_since(0)[0];
    assert_eq!((t.price, t.quantity), (1, u64::MAX));
    assert_eq!(book.lookup(a), Err(OrderError::OrderNotFound));
    assert_eq!(book.lookup(b), Err(OrderError::OrderNotFound));
    assert!(book.can_accept());
}
