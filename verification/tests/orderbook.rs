use kobara_ob::orderbook::OrderBook;
use kobara_ob::types::{BookError, Order, Side};

fn order(id: u64, side: Side, price: u64, quantity: u64) -> Order {
    Order { id, side, price, quantity }
}

#[test]
fn empty_book_has_nothing() {
    let book = OrderBook::new();
    assert_eq!(book.get_order(1), None);
    assert_eq!(book.best_bid(), None);
    assert_eq!(book.best_ask(), None);
    assert_eq!(book.orders_at_price(1000, Side::Bid), vec![]);
    assert_eq!(book.orders_at_price(1000, Side::Ask), vec![]);
}

#[test]
fn added_orders_are_retrievable_unchanged() {
    let mut book = OrderBook::new();
    let a = order(7, Side::Bid, 999, 50);
    let b = order(8, Side::Ask, 1001, 25);
    let c = order(9, Side::Bid, 999, 75);
    assert_eq!(book.add_order(a), Ok(()));
    assert_eq!(book.add_order(b), Ok(()));
    assert_eq!(book.add_order(c), Ok(()));
    assert_eq!(book.get_order(7), Some(&a));
    assert_eq!(book.get_order(8), Some(&b));
    assert_eq!(book.get_order(9), Some(&c));
    // each appears exactly once at its own (side, price)
    assert_eq!(book.orders_at_price(999, Side::Bid), vec![a, c]);
    assert_eq!(book.orders_at_price(1001, Side::Ask), vec![b]);
    assert_eq!(book.orders_at_price(999, Side::Ask), vec![]);
    assert_eq!(book.orders_at_price(1001, Side::Bid), vec![]);
}

#[test]
fn duplicate_id_is_rejected_and_changes_nothing() {
    let mut book = OrderBook::new();
    let a = order(1, Side::Bid, 1000, 10);
    assert_eq!(book.add_order(a), Ok(()));
    let intruder = order(1, Side::Ask, 2000, 99);
    assert_eq!(book.add_order(intruder), Err(BookError::DuplicateId));
    assert_eq!(book.get_order(1), Some(&a));
    assert_eq!(book.best_bid(), Some(1000));
    assert_eq!(book.best_ask(), None);
    assert_eq!(book.orders_at_price(1000, Side::Bid), vec![a]);
    assert_eq!(book.orders_at_price(2000, Side::Ask), vec![]);
}

#[test]
fn cancel_removes_order_and_empty_level() {
    let mut book = OrderBook::new();
    let a = order(1, Side::Bid, 1000, 10);
    let b = order(2, Side::Bid, 1000, 20);
    assert_eq!(book.add_order(a), Ok(()));
    assert_eq!(book.add_order(b), Ok(()));
    assert_eq!(book.cancel_order(1), Ok(a));
    assert_eq!(book.get_order(1), None);
    assert_eq!(book.orders_at_price(1000, Side::Bid), vec![b]);
    assert_eq!(book.best_bid(), Some(1000));
    // canceling the level's last order empties the level
    assert_eq!(book.cancel_order(2), Ok(b));
    assert_eq!(book.orders_at_price(1000, Side::Bid), vec![]);
    assert_eq!(book.best_bid(), None);
}

#[test]
fn cancel_unknown_id_fails_and_changes_nothing() {
    let mut book = OrderBook::new();
    let a = order(1, Side::Ask, 1500, 10);
    assert_eq!(book.add_order(a), Ok(()));
    assert_eq!(book.cancel_order(2), Err(BookError::NotFound));
    assert_eq!(book.get_order(1), Some(&a));
    assert_eq!(book.best_ask(), Some(1500));
    assert_eq!(book.orders_at_price(1500, Side::Ask), vec![a]);
    // canceling twice is NotFound the second time
    assert_eq!(book.cancel_order(1), Ok(a));
    assert_eq!(book.cancel_order(1), Err(BookError::NotFound));
}

#[test]
fn best_prices_are_extremes_of_their_side() {
    let mut book = OrderBook::new();
    assert_eq!(book.add_order(order(1, Side::Bid, 990, 1)), Ok(()));
    assert_eq!(book.add_order(order(2, Side::Bid, 1010, 1)), Ok(()));
    assert_eq!(book.add_order(order(3, Side::Bid, 1000, 1)), Ok(()));
    assert_eq!(book.add_order(order(4, Side::Ask, 1030, 1)), Ok(()));
    assert_eq!(book.add_order(order(5, Side::Ask, 1020, 1)), Ok(()));
    assert_eq!(book.add_order(order(6, Side::Ask, 1040, 1)), Ok(()));
    assert_eq!(book.best_bid(), Some(1010));
    assert_eq!(book.best_ask(), Some(1020));
    // removing the best order on each side moves the best price inward
    assert_eq!(book.cancel_order(2), Ok(order(2, Side::Bid, 1010, 1)));
    assert_eq!(book.cancel_order(5), Ok(order(5, Side::Ask, 1020, 1)));
    assert_eq!(book.best_bid(), Some(1000));
    assert_eq!(book.best_ask(), Some(1030));
}

#[test]
fn levels_stay_fifo_across_cancellations() {
    let mut book = OrderBook::new();
    let a = order(1, Side::Ask, 2000, 5);
    let b = order(2, Side::Ask, 2000, 6);
    let c = order(3, Side::Ask, 2000, 7);
    assert_eq!(book.add_order(a), Ok(()));
    assert_eq!(book.add_order(b), Ok(()));
    assert_eq!(book.add_order(c), Ok(()));
    assert_eq!(book.orders_at_price(2000, Side::Ask), vec![a, b, c]);
    assert_eq!(book.cancel_order(2), Ok(b));
    assert_eq!(book.orders_at_price(2000, Side::Ask), vec![a, c]);
    let d = order(4, Side::Ask, 2000, 8);
    assert_eq!(book.add_order(d), Ok(()));
    assert_eq!(book.orders_at_price(2000, Side::Ask), vec![a, c, d]);
}

#[test]
fn snapshot_does_not_alias_book_state() {
    let mut book = OrderBook::new();
    let a = order(1, Side::Bid, 1000, 10);
    assert_eq!(book.add_order(a), Ok(()));
    let mut snapshot = book.orders_at_price(1000, Side::Bid);
    snapshot.clear();
    assert_eq!(book.orders_at_price(1000, Side::Bid), vec![a]);
}

#[test]
fn scenario_two_bids_one_ask() {
    // prices in ticks at scale 2: 10.00 -> 1000, 10.50 -> 1050
    let mut book = OrderBook::new();
    let order1 = order(1, Side::Bid, 1000, 10);
    let order2 = order(2, Side::Bid, 1000, 20);
    let order3 = order(3, Side::Ask, 1050, 30);
    assert_eq!(book.add_order(order1), Ok(()));
    assert_eq!(book.add_order(order2), Ok(()));
    assert_eq!(book.add_order(order3), Ok(()));
    assert_eq!(book.best_bid(), Some(1000));
    assert_eq!(book.best_ask(), Some(1050));
    assert_eq!(book.orders_at_price(1000, Side::Bid), vec![order1, order2]);
    assert_eq!(book.cancel_order(1), Ok(order1));
    assert_eq!(book.orders_at_price(1000, Side::Bid), vec![order2]);
    assert_eq!(book.best_bid(), Some(1000));
    assert_eq!(book.cancel_order(2), Ok(order2));
    assert_eq!(book.orders_at_price(1000, Side::Bid), vec![]);
    assert_eq!(book.best_bid(), None);
}
