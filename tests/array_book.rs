use order_book::stackbook;
use order_book::{OrderBook, MAX_ORDERS};
use std::hint::black_box;
use std::time::Instant;

#[test]
fn test_bench0() {
    let k = 1e4 as usize;
    let n = 1e3 as usize;
    let mut pps_sum = 0.0;
    for _ in 0..k {
        let mut book = OrderBook::new();
        let t0 = Instant::now();
        for _ in 0..n {
            black_box(book.place(12, 1, true, 32489324));
        }
        let took_s = t0.elapsed().as_micros() as f64 / 1e6;
        let pps = n as f64 / took_s;
        pps_sum += pps;
    }
    println!(
        "iterations={k}, sample={n}, avg Place / S: {:.2}",
        pps_sum / k as f64
    );
}

#[test]
fn lib_test_empty_book() {
    let book = OrderBook::new();
    assert!(book.best_bid().is_none());
    assert!(book.best_ask().is_none());
    assert_eq!(book.bid_count(), 0);
    assert_eq!(book.ask_count(), 0);
}

#[test]
fn stackbook_test_empty_book() {
    let book = stackbook::OrderBook::new();
    assert!(book.best_bid().is_none());
    assert!(book.best_ask().is_none());
    assert_eq!(book.bid_count(), 0);
    assert_eq!(book.ask_count(), 0);
}

#[test]
fn test_place_and_best_px() {
    let mut book = OrderBook::new();

    let bid1 = book.place(10000, 50, true, 1).unwrap();
    let _bid2 = book.place(9950, 100, true, 2).unwrap();
    let ask1 = book.place(10100, 75, false, 3).unwrap();
    let _ask2 = book.place(10200, 25, false, 4).unwrap();

    let best_bid = book.best_bid().unwrap();
    assert_eq!(best_bid.px, 10000);
    assert_eq!(best_bid.sz, 50);
    assert_eq!(best_bid.id, bid1);

    let best_ask = book.best_ask().unwrap();
    assert_eq!(best_ask.px, 10100);
    assert_eq!(best_ask.sz, 75);
    assert_eq!(best_ask.id, ask1);
}

#[test]
fn test_sorting_px_sz_ts() {
    let mut book = OrderBook::new();

    book.place(10000, 50, true, 1).unwrap();
    book.place(9950, 75, true, 1).unwrap();
    book.place(10000, 100, true, 1).unwrap();

    assert_eq!(book.bids()[0].px, 10000);
    assert_eq!(book.bids()[0].sz, 100);
    assert_eq!(book.bids()[1].px, 10000);
    assert_eq!(book.bids()[1].sz, 50);
    assert_eq!(book.bids()[2].px, 9950);

    let mut book = OrderBook::new();
    book.place(10000, 50, true, 3).unwrap();
    book.place(10000, 50, true, 1).unwrap();
    book.place(10000, 50, true, 2).unwrap();
    assert_eq!(book.bids()[0].ts, 1);
    assert_eq!(book.bids()[1].ts, 2);
    assert_eq!(book.bids()[2].ts, 3);
}

#[test]
fn test_cancel() {
    let mut book = OrderBook::new();
    let bid1 = book.place(10000, 50, true, 1).unwrap();
    let bid2 = book.place(9950, 100, true, 2).unwrap();
    assert_eq!(book.bid_count(), 2);
    assert!(book.cancel(bid1, true));
    assert_eq!(book.bid_count(), 1);
    assert_eq!(book.best_bid().unwrap().px, 9950);
    assert!(!book.cancel(bid1, true));
    assert!(book.cancel(bid2, true));
    assert_eq!(book.bid_count(), 0);
    assert!(book.best_bid().is_none());
}

#[test]
fn test_capacity_limit() {
    let mut book = OrderBook::new();
    for i in 0..(MAX_ORDERS - 1) {
        assert!(book.place(10000 + i as u64, 50, true, 1).is_some());
    }
    assert!(book.place(20000, 50, true, 1).is_some());
    assert!(book.place(20001, 50, true, 1).is_none());
    assert!(book.place(30000, 50, false, 1).is_some());
}

#[test]
fn test_id_uniqueness() {
    let mut book = OrderBook::new();
    let id1 = book.place(10000, 50, true, 1).unwrap();
    let id2 = book.place(9950, 100, true, 2).unwrap();
    let id3 = book.place(10100, 75, false, 3).unwrap();
    assert_ne!(id1, id2);
    assert_ne!(id2, id3);
    assert_ne!(id1, id3);
}

#[test]
fn size_outranks_time_at_equal_price() {
    let mut book = OrderBook::new();
    book.place(10000, 50, true, 1).unwrap();
    book.place(9950, 100, true, 2).unwrap();
    book.place(10000, 100, true, 1).unwrap();
    let got: Vec<(u64, u32, u64)> = book.bids().iter().map(|o| (o.px, o.sz, o.ts)).collect();
    assert_eq!(got, vec![(10000, 100, 1), (10000, 50, 1), (9950, 100, 2)]);
}

#[test]
fn equal_orders_rank_by_timestamp() {
    let mut book = OrderBook::new();
    book.place(10000, 50, true, 3).unwrap();
    book.place(10000, 50, true, 1).unwrap();
    book.place(10000, 50, true, 2).unwrap();
    let ts: Vec<u64> = book.bids().iter().map(|o| o.ts).collect();
    assert_eq!(ts, vec![1, 2, 3]);
}

#[test]
fn fully_equal_orders_keep_arrival_order() {
    let mut book = OrderBook::new();
    let a = book.place(500, 5, false, 7).unwrap();
    let b = book.place(500, 5, false, 7).unwrap();
    let ids: Vec<u32> = book.asks().iter().map(|o| o.id).collect();
    assert_eq!(ids, vec![a, b]);
}

#[test]
fn asks_rank_lowest_price_first() {
    let mut book = OrderBook::new();
    book.place(10200, 25, false, 1).unwrap();
    book.place(10100, 75, false, 2).unwrap();
    book.place(10150, 10, false, 3).unwrap();
    let px: Vec<u64> = book.asks().iter().map(|o| o.px).collect();
    assert_eq!(px, vec![10100, 10150, 10200]);
    assert_eq!(book.best_ask().unwrap().px, 10100);
    assert_eq!(book.best(false), book.best_ask());
}

#[test]
fn sides_stay_sorted_after_places_and_cancels() {
    let mut book = OrderBook::new();
    let mut ids = Vec::new();
    for i in 0..40u64 {
        let px = 1000 + (i * 37) % 11;
        let sz = ((i * 13) % 5) as u32;
        ids.push(book.place(px, sz, true, 100 - i).unwrap());
    }
    for id in ids.iter().step_by(3) {
        assert!(book.cancel(*id, true));
    }
    let bids = book.bids();
    for w in bids.windows(2) {
        let (a, b) = (w[0], w[1]);
        assert!((a.px, a.sz, u64::MAX - a.ts) >= (b.px, b.sz, u64::MAX - b.ts));
    }
    assert_eq!(book.best_bid(), Some(bids[0]));
}

#[test]
fn capacity_ceiling_on_asks() {
    let mut book = OrderBook::new();
    for i in 0..MAX_ORDERS {
        assert!(book.place(1 + i as u64, 1, false, 0).is_some());
    }
    assert_eq!(book.ask_count(), MAX_ORDERS);
    assert!(book.place(0, 1, false, 0).is_none());
    assert_eq!(book.ask_count(), MAX_ORDERS);
    assert_eq!(book.best_ask().unwrap().px, 1);
}

#[test]
fn cancel_twice_returns_true_once() {
    let mut book = OrderBook::new();
    let a = book.place(100, 1, false, 0).unwrap();
    book.place(101, 1, false, 0).unwrap();
    assert!(book.cancel(a, false));
    assert!(!book.cancel(a, false));
    assert_eq!(book.ask_count(), 1);
}

#[test]
fn cancel_on_wrong_side_is_not_found() {
    let mut book = OrderBook::new();
    let a = book.place(100, 1, true, 0).unwrap();
    assert!(!book.cancel(a, false));
    assert_eq!(book.bid_count(), 1);
}

#[test]
fn ids_count_up_across_sides() {
    let mut book = OrderBook::new();
    let mut ids = Vec::new();
    for i in 0..100u64 {
        ids.push(book.place(i, 1, i % 2 == 0, i).unwrap());
    }
    assert_eq!(ids, (0..100u32).collect::<Vec<u32>>());
}

#[test]
fn refused_place_uses_no_id() {
    let mut book = OrderBook::new();
    for i in 0..MAX_ORDERS {
        book.place(i as u64, 1, true, 0).unwrap();
    }
    assert!(book.place(0, 1, true, 0).is_none());
    assert_eq!(book.place(0, 1, false, 0), Some(MAX_ORDERS as u32));
}
