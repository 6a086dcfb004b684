use rust_decimal::Decimal;
use yonodex::clock::VectorClock;
use yonodex::decimal::Dec;
use yonodex::matcher::{extract_timestamp_from_order_id, find_matches, find_matches_at};
use yonodex::order::{Order, Side};
use yonodex::orderbook::OrderBook;

/// Build a minimal unsigned order for testing.
/// Signature verification is bypassed via `insert_for_test`.
fn order(id: &str, owner: &str, side: Side, price: &str, amount: &str) -> Order {
    Order {
        id: id.to_string(),
        owner: owner.to_string(),
        side,
        pair: "TKA/TKB".to_string(),
        price: price.to_string(),
        amount: amount.to_string(),
        expiry: 9_999_999_999,
        nonce: 1,
        signature: String::new(),
        vector_clock: VectorClock::new(),
    }
}

/// The `rust_decimal` value of a library decimal.
fn dec(d: Dec) -> Decimal {
    let mut x = Decimal::from_i128_with_scale(d.magnitude as i128, d.scale);
    x.set_sign_negative(d.negative);
    x
}

#[test]
fn matches_simple_cross() {
    let mut book = OrderBook::new("local".to_string());
    // Buy at 100, sell at 90 → should cross at 100 (resting = buy, earlier id)
    book.insert_for_test(order("a-buy", "alice", Side::Buy, "100", "5"));
    book.insert_for_test(order("b-sell", "bob", Side::Sell, "90", "5"));

    let trades = find_matches(&mut book).expect("matcher ok");
    assert_eq!(trades.len(), 1, "one trade expected");

    let t = &trades[0];
    assert_eq!(t.amount, "5");
    // Resting order = earlier id = "a-buy" → exec price = 100
    assert_eq!(t.price, "100");
    assert_eq!(t.buyer_owner, "alice");
    assert_eq!(t.seller_owner, "bob");

    // Both orders fully filled and tombstoned
    assert_eq!(dec(book.remaining("a-buy")), Decimal::ZERO);
    assert_eq!(dec(book.remaining("b-sell")), Decimal::ZERO);
}

#[test]
fn no_match_when_prices_dont_cross() {
    let mut book = OrderBook::new("local".to_string());
    book.insert_for_test(order("a-buy", "alice", Side::Buy, "90", "5"));
    book.insert_for_test(order("b-sell", "bob", Side::Sell, "100", "5"));

    let trades = find_matches(&mut book).expect("matcher ok");
    assert_eq!(trades.len(), 0, "no trade — bid below ask");
}

#[test]
fn price_time_priority_best_price_wins() {
    let mut book = OrderBook::new("local".to_string());
    // Two sellers: one at 95, one at 90. Best (lowest) price must fill first.
    book.insert_for_test(order("s1-95", "s1", Side::Sell, "95", "5"));
    book.insert_for_test(order("s2-90", "s2", Side::Sell, "90", "5"));
    // Buyer willing to cross both
    book.insert_for_test(order("buyer", "alice", Side::Buy, "100", "5"));

    let trades = find_matches(&mut book).expect("matcher ok");
    assert_eq!(trades.len(), 1);
    // Should match against s2-90 (best price for buyer)
    assert_eq!(trades[0].sell_order_id, "s2-90");
}

#[test]
fn partial_fill_leaves_remainder() {
    let mut book = OrderBook::new("local".to_string());
    // Buy 5, sell 3 → 3 traded, buy has 2 remaining
    book.insert_for_test(order("buy", "alice", Side::Buy, "100", "5"));
    book.insert_for_test(order("sell", "bob", Side::Sell, "100", "3"));

    let trades = find_matches(&mut book).expect("matcher ok");
    assert_eq!(trades.len(), 1);
    assert_eq!(trades[0].amount, "3");

    // Buy still has 2 remaining, sell fully filled
    assert_eq!(book.remaining("buy").to_string(), "2");
    assert_eq!(dec(book.remaining("sell")), Decimal::ZERO);
}

#[test]
fn large_aggressor_consumes_multiple_levels() {
    let mut book = OrderBook::new("local".to_string());
    // Sellers at 90, 95, 100 — 2 units each
    book.insert_for_test(order("s-90", "s1", Side::Sell, "90", "2"));
    book.insert_for_test(order("s-95", "s2", Side::Sell, "95", "2"));
    book.insert_for_test(order("s-100", "s3", Side::Sell, "100", "2"));
    // Buyer wants 5 at 100 → crosses all three levels
    book.insert_for_test(order("big-buy", "alice", Side::Buy, "100", "5"));

    let trades = find_matches(&mut book).expect("matcher ok");
    assert_eq!(trades.len(), 3, "three levels consumed");

    // Trade amounts: 2, 2, 1 (last partial)
    assert_eq!(trades[0].amount, "2");
    assert_eq!(trades[1].amount, "2");
    assert_eq!(trades[2].amount, "1");

    // Buyer fully filled
    assert_eq!(dec(book.remaining("big-buy")), Decimal::ZERO);
    // Last seller still has 1 remaining
    assert_eq!(book.remaining("s-100").to_string(), "1");
}

#[test]
fn deterministic_across_runs() {
    // Two identical books must produce identical match output.
    let build = || {
        let mut b = OrderBook::new("local".to_string());
        b.insert_for_test(order("b1", "a", Side::Buy, "105", "3"));
        b.insert_for_test(order("b2", "b", Side::Buy, "100", "4"));
        b.insert_for_test(order("s1", "c", Side::Sell, "98", "5"));
        b.insert_for_test(order("s2", "d", Side::Sell, "102", "3"));
        b
    };

    let mut book_a = build();
    let mut book_b = build();

    let trades_a = find_matches(&mut book_a).expect("ok");
    let trades_b = find_matches(&mut book_b).expect("ok");

    assert_eq!(trades_a.len(), trades_b.len());
    for (a, b) in trades_a.iter().zip(trades_b.iter()) {
        assert_eq!(a.id, b.id, "trade ids must match");
        assert_eq!(a.amount, b.amount, "amounts must match");
        assert_eq!(a.price, b.price, "prices must match");
        assert_eq!(a.buy_order_id, b.buy_order_id);
        assert_eq!(a.sell_order_id, b.sell_order_id);
    }
}

#[test]
fn canonical_trade_id_is_stable_regardless_of_discovery_order() {
    // Same two orders inserted in opposite order should produce the
    // same canonical trade id.
    let mut book1 = OrderBook::new("local".to_string());
    book1.insert_for_test(order("aaa-buy", "alice", Side::Buy, "100", "5"));
    book1.insert_for_test(order("bbb-sell", "bob", Side::Sell, "100", "5"));

    let mut book2 = OrderBook::new("local".to_string());
    book2.insert_for_test(order("bbb-sell", "bob", Side::Sell, "100", "5"));
    book2.insert_for_test(order("aaa-buy", "alice", Side::Buy, "100", "5"));

    let trades1 = find_matches(&mut book1).expect("ok");
    let trades2 = find_matches(&mut book2).expect("ok");

    assert_eq!(trades1.len(), 1);
    assert_eq!(trades2.len(), 1);
    assert_eq!(trades1[0].id, trades2[0].id, "canonical trade id must match");
}

// ---- further cases ----

#[test]
fn trade_id_and_timestamp_come_from_order_ids() {
    let mut book = OrderBook::new("local".to_string());
    book.insert_for_test(order("1700000000123-alice", "alice", Side::Sell, "2.5", "1.5"));
    book.insert_for_test(order("1700000009999-bob", "bob", Side::Buy, "3", "4"));

    let trades = find_matches_at(&mut book, 42).expect("ok");
    assert_eq!(trades.len(), 1);
    let t = &trades[0];
    assert_eq!(t.id, "trade-1700000000123-alice-1700000009999-bob-1.5");
    assert_eq!(t.created_at, 1_700_000_000);
    // The sell rests (earlier id): its price is the execution price.
    assert_eq!(t.price, "2.5");
    assert_eq!(t.amount, "1.5");
    assert_eq!(t.pair, "TKA/TKB");
    assert_eq!(t.buyer_signature, "");
    assert_eq!(t.seller_signature, "");
    // The sell is filled and tombstoned at the given time; the buy keeps 2.5.
    let sell = book.entry("1700000000123-alice").expect("present");
    assert_eq!(sell.tombstoned_at, Some(42));
    assert_eq!(book.remaining("1700000009999-bob").to_string(), "2.5");
    assert_eq!(book.live_count(), 1);
}

#[test]
fn equal_prices_go_by_id() {
    let mut book = OrderBook::new("local".to_string());
    book.insert_for_test(order("s-b", "s2", Side::Sell, "10", "1"));
    book.insert_for_test(order("s-a", "s1", Side::Sell, "10.0", "1"));
    book.insert_for_test(order("z-buy", "alice", Side::Buy, "10", "1"));

    let trades = find_matches(&mut book).expect("ok");
    assert_eq!(trades.len(), 1);
    assert_eq!(trades[0].sell_order_id, "s-a");
    assert_eq!(trades[0].price, "10.0");
}

#[test]
fn unparsable_prices_count_as_zero() {
    let mut book = OrderBook::new("local".to_string());
    // A sell whose price does not parse asks 0 and crosses any bid.
    book.insert_for_test(order("a-sell", "s", Side::Sell, "cheap", "1"));
    book.insert_for_test(order("b-buy", "b", Side::Buy, "1", "1"));
    let trades = find_matches(&mut book).expect("ok");
    assert_eq!(trades.len(), 1);
    assert_eq!(trades[0].price, "0");
}

#[test]
fn unparsable_amount_is_never_filled() {
    let mut book = OrderBook::new("local".to_string());
    book.insert_for_test(order("a-sell", "s", Side::Sell, "1", "lots"));
    book.insert_for_test(order("b-buy", "b", Side::Buy, "5", "1"));
    assert_eq!(dec(book.remaining("a-sell")), Decimal::ZERO);
    let trades = find_matches(&mut book).expect("ok");
    assert_eq!(trades.len(), 0);
    assert_eq!(book.live_count(), 2);
}

#[test]
fn empty_book_matches_nothing() {
    let mut book = OrderBook::new("local".to_string());
    assert_eq!(find_matches(&mut book).expect("ok").len(), 0);
}

#[test]
fn timestamp_prefix_of_order_id() {
    assert_eq!(extract_timestamp_from_order_id("1700000000123-abcdef12"), 1_700_000_000);
    assert_eq!(extract_timestamp_from_order_id("999-x"), 0);
    assert_eq!(extract_timestamp_from_order_id("+5000"), 5);
    assert_eq!(extract_timestamp_from_order_id("abc-1"), 0);
    assert_eq!(extract_timestamp_from_order_id(""), 0);
    assert_eq!(extract_timestamp_from_order_id("-1000"), 0);
    assert_eq!(extract_timestamp_from_order_id("99999999999999999999-x"), 0);
}

#[test]
fn matching_keeps_signed_orders_and_trades_cross() {
    let mut book = OrderBook::new("local".to_string());
    book.insert_for_test(order("b1", "a", Side::Buy, "105", "3"));
    book.insert_for_test(order("b2", "b", Side::Buy, "100", "4"));
    book.insert_for_test(order("s1", "c", Side::Sell, "98", "5"));
    book.insert_for_test(order("s2", "d", Side::Sell, "102", "3"));
    let trades = find_matches(&mut book).expect("ok");
    assert_eq!(trades.len(), 2);
    for t in &trades {
        let buy = book.entry(&t.buy_order_id).unwrap();
        let sell = book.entry(&t.sell_order_id).unwrap();
        let bp: Decimal = buy.order.price.parse().unwrap();
        let sp: Decimal = sell.order.price.parse().unwrap();
        assert!(bp >= sp, "bid below ask in {}", t.id);
        assert_eq!(buy.order.side, Side::Buy);
        assert_eq!(sell.order.side, Side::Sell);
        assert!(t.amount.parse::<Decimal>().unwrap() > Decimal::ZERO);
    }
    // b1 takes 3 from s1; b1 has the earlier id, so it rests and sets the price.
    assert_eq!(trades[0].buy_order_id, "b1");
    assert_eq!(trades[0].sell_order_id, "s1");
    assert_eq!(trades[0].price, "105");
    assert_eq!(trades[0].amount, "3");
    assert_eq!(trades[1].buy_order_id, "b2");
    assert_eq!(trades[1].sell_order_id, "s1");
    assert_eq!(trades[1].amount, "2");
    // Orders are untouched; only fills and tombstones changed.
    assert_eq!(book.total_count(), 4);
    assert_eq!(book.entry("s1").unwrap().order.amount, "5");
    assert_eq!(book.entry("b2").unwrap().order.price, "100");
    assert_eq!(book.remaining("b2").to_string(), "2");
    assert_eq!(book.live_count(), 2);
}

#[test]
fn rounding_that_fills_neither_order_goes_on_matching() {
    let mut book = OrderBook::new("local".to_string());
    book.insert_for_test(order("a-buy", "alice", Side::Buy, "1", "9.999999999999999999999999999"));
    book.insert_for_test(order("b-sell", "bob", Side::Sell, "1", "0.0000000000000000000000000005"));
    book.insert_for_test(order("c-sell", "carol", Side::Sell, "1", "10"));
    let trades = find_matches(&mut book).expect("matching goes on");
    assert!(!trades.is_empty());
    for t in &trades {
        assert!(t.amount.parse::<Decimal>().unwrap() > Decimal::ZERO);
    }
}
