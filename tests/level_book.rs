use order_book::treebook::{Order, OrderBook, PriceLevelOrders, MAX_ORDERS_PER_LEVEL};

#[test]
fn test0() {
    let mut order_book = OrderBook::new();

    order_book.add_order(100, 10, true);
    order_book.add_order(100, 15, true);
    order_book.add_order(100, 5, true);

    order_book.add_order(101, 8, false);
    order_book.add_order(101, 12, false);

    println!("Best Bid: {:?}", order_book.best_bid());
    println!("Best Ask: {:?}", order_book.best_ask());
}

#[test]
fn level_best_bid_is_largest_size() {
    let mut book = OrderBook::new();
    assert!(book.add_order(100, 10, true));
    assert!(book.add_order(100, 15, true));
    assert!(book.add_order(100, 5, true));
    assert_eq!(book.best_bid(), Some((100, Order { size: 15 })));
    assert_eq!(book.best_ask(), None);
}

#[test]
fn level_best_prices_per_side() {
    let mut book = OrderBook::new();
    book.add_order(99, 1, true);
    book.add_order(101, 2, true);
    book.add_order(100, 3, true);
    book.add_order(105, 4, false);
    book.add_order(103, 5, false);
    book.add_order(104, 6, false);
    assert_eq!(book.best_bid(), Some((101, Order { size: 2 })));
    assert_eq!(book.best_ask(), Some((103, Order { size: 5 })));
    assert_eq!(book.best(true), book.best_bid());
}

#[test]
fn level_capacity_ceiling() {
    let mut book = OrderBook::new();
    for i in 0..MAX_ORDERS_PER_LEVEL {
        assert!(book.add_order(7, i as u64, false));
    }
    assert!(!book.add_order(7, 1000, false));
    assert_eq!(book.best_ask(), Some((7, Order { size: (MAX_ORDERS_PER_LEVEL - 1) as u64 })));
    assert!(book.add_order(8, 1000, false));
}

#[test]
fn level_remove_by_price_and_size() {
    let mut book = OrderBook::new();
    book.add_order(100, 10, true);
    book.add_order(100, 15, true);
    assert_eq!(book.remove_order(100, 12, true), None);
    assert_eq!(book.remove_order(99, 10, true), None);
    assert_eq!(book.remove_order(100, 10, false), None);
    assert_eq!(book.remove_order(100, 15, true), Some(Order { size: 15 }));
    assert_eq!(book.best_bid(), Some((100, Order { size: 10 })));
}

#[test]
fn level_removed_when_emptied() {
    let mut book = OrderBook::new();
    book.add_order(100, 10, true);
    book.add_order(90, 10, true);
    assert_eq!(book.remove_order(100, 10, true), Some(Order { size: 10 }));
    assert_eq!(book.best_bid(), Some((90, Order { size: 10 })));
    assert_eq!(book.remove_order(90, 10, true), Some(Order { size: 10 }));
    assert_eq!(book.best_bid(), None);
    assert_eq!(book.remove_order(90, 10, true), None);
}

#[test]
fn level_duplicate_sizes_removed_one_at_a_time() {
    let mut book = OrderBook::new();
    book.add_order(50, 3, false);
    book.add_order(50, 3, false);
    assert_eq!(book.remove_order(50, 3, false), Some(Order { size: 3 }));
    assert_eq!(book.best_ask(), Some((50, Order { size: 3 })));
    assert_eq!(book.remove_order(50, 3, false), Some(Order { size: 3 }));
    assert_eq!(book.best_ask(), None);
}

#[test]
fn price_level_orders_sorted_by_size() {
    let mut level = PriceLevelOrders::new();
    assert_eq!(level.best_order(), None);
    for size in [4u64, 9, 1, 9, 6] {
        assert!(level.insert(Order { size }));
    }
    assert_eq!(level.count(), 5);
    assert_eq!(level.best_order(), Some(Order { size: 9 }));
    assert_eq!(level.remove(9), Some(Order { size: 9 }));
    assert_eq!(level.best_order(), Some(Order { size: 9 }));
    assert_eq!(level.remove(9), Some(Order { size: 9 }));
    assert_eq!(level.best_order(), Some(Order { size: 6 }));
    assert_eq!(level.remove(2), None);
    assert_eq!(level.count(), 3);
}

#[test]
fn price_level_full() {
    let mut level = PriceLevelOrders::new();
    for _ in 0..MAX_ORDERS_PER_LEVEL {
        assert!(level.insert(Order { size: 1 }));
    }
    assert!(!level.insert(Order { size: 2 }));
    assert_eq!(level.count(), MAX_ORDERS_PER_LEVEL);
    assert_eq!(level.best_order(), Some(Order { size: 1 }));
}
