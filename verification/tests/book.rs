use yonodex::clock::{tick, VectorClock};
use yonodex::commands::{book_stats, tombstone_label};
use yonodex::db::identity_from_secret;
use yonodex::decimal::Dec;
use yonodex::order::{sign_order, verify_order, Order, Side};
use yonodex::orderbook::{OrderBook, TombstoneKind};
use yonodex::relay::{apply_incoming_order, IncomingOutcome};

const SECRET: [u8; 32] = [
    0x9d, 0x61, 0xb1, 0x9d, 0xef, 0xfd, 0x5a, 0x60, 0xba, 0x84, 0x4a, 0xf4, 0x92, 0xec, 0x2c, 0xc4, 0x44, 0x49,
    0xc5, 0x69, 0x7b, 0x32, 0x69, 0x19, 0x70, 0x3b, 0xac, 0x03, 0x1c, 0xae, 0x7f, 0x60,
];
const PUBLIC_HEX: &str = "d75a980182b10ab7d54bfed3c964073a0ee172f3daa62325af021a68f707511a";

fn unsigned(id: &str, owner: &str, side: Side, price: &str, amount: &str, nonce: u64) -> Order {
    let mut vc = VectorClock::new();
    vc.set("peer-b", 2);
    vc.set("peer-a", 1);
    Order {
        id: id.to_string(),
        owner: owner.to_string(),
        side,
        pair: "TKA/TKB".to_string(),
        price: price.to_string(),
        amount: amount.to_string(),
        expiry: 100,
        nonce,
        signature: String::new(),
        vector_clock: vc,
    }
}

fn signed(id: &str, nonce: u64) -> Order {
    let mut o = unsigned(id, PUBLIC_HEX, Side::Sell, "1.25", "3", nonce);
    o.signature = sign_order(&o, &SECRET);
    o
}

#[test]
fn side_names() {
    assert_eq!(Side::Buy.as_str(), "buy");
    assert_eq!(Side::Sell.as_str(), "sell");
}

#[test]
fn signable_bytes_are_pipe_delimited_with_sorted_clock() {
    let o = unsigned("o-1", "own", Side::Buy, "1.5", "2", 7);
    let expected = "o-1|own|buy|TKA/TKB|1.5|2|100|7|peer-a:1,peer-b:2,";
    assert_eq!(o.signable_bytes(), expected.as_bytes().to_vec());
    let mut neg = o.clone();
    neg.expiry = -42;
    neg.vector_clock = VectorClock::new();
    assert_eq!(neg.signable_bytes(), b"o-1|own|buy|TKA/TKB|1.5|2|-42|7|".to_vec());
}

#[test]
fn signable_bytes_escape_delimiters() {
    let a = unsigned("a|b", "c", Side::Buy, "1", "2", 7);
    let b = unsigned("a", "b|c", Side::Buy, "1", "2", 7);
    assert_ne!(a.signable_bytes(), b.signable_bytes());
    let bytes = String::from_utf8(a.signable_bytes()).unwrap();
    assert!(bytes.starts_with("a\\|b|c|buy|"), "{bytes}");
    let mut c = unsigned("x", "o", Side::Sell, "1", "2", 7);
    c.vector_clock = VectorClock::new();
    c.vector_clock.set("p:1,q\\", 3);
    assert_eq!(
        String::from_utf8(c.signable_bytes()).unwrap(),
        "x|o|sell|TKA/TKB|1|2|100|7|p\\:1\\,q\\\\:3,"
    );
}

#[test]
fn public_key_of_known_secret() {
    let (owner, private) = identity_from_secret(&SECRET);
    assert_eq!(owner, PUBLIC_HEX);
    assert_eq!(private, "9d61b19deffd5a60ba844af492ec2cc44449c5697b326919703bac031cae7f60");
}

#[test]
fn signed_order_verifies() {
    let o = signed("o-1", 1);
    assert_eq!(o.signature.len(), 128);
    assert_eq!(verify_order(&o), Ok(()));
    // Signing is deterministic.
    assert_eq!(sign_order(&o, &SECRET), o.signature);
}

#[test]
fn tampered_order_fails_verification() {
    let mut o = signed("o-1", 1);
    o.price = "1.26".to_string();
    let e = verify_order(&o).unwrap_err();
    assert!(e.starts_with("signature verification failed: "), "{e}");
}

#[test]
fn verification_errors_name_the_failing_check() {
    let mut o = signed("o-1", 1);
    o.owner = "zz".to_string();
    assert_eq!(verify_order(&o).unwrap_err(), "invalid owner hex: Invalid character 'z' at position 0");
    o.owner = "abc".to_string();
    assert_eq!(verify_order(&o).unwrap_err(), "invalid owner hex: Odd number of digits");
    o.owner = "abcd".to_string();
    assert_eq!(verify_order(&o).unwrap_err(), "owner must be 32 bytes, got 2");
    o.owner = PUBLIC_HEX.to_string();
    o.signature = "0g".to_string();
    assert_eq!(verify_order(&o).unwrap_err(), "invalid signature hex: Invalid character 'g' at position 1");
    o.signature = "00".repeat(10);
    assert_eq!(verify_order(&o).unwrap_err(), "signature must be 64 bytes, got 10");
}

#[test]
fn create_local_signs_ticks_and_inserts() {
    let (owner, _) = identity_from_secret(&SECRET);
    let mut book = OrderBook::new(owner.clone());
    let o = book.create_local_at(&SECRET, &owner, Side::Buy, "TKA/TKB", "10", "2", 500, 1_700_000_000_123, 4);
    assert_eq!(o.id, "1700000000123-d75a9801");
    assert_eq!(o.nonce, 5);
    assert_eq!(o.owner, owner);
    assert_eq!(o.vector_clock.get(&owner), 1);
    assert_eq!(book.clock().get(&owner), 1);
    assert_eq!(verify_order(&o), Ok(()));
    assert_eq!(book.live_count(), 1);
    assert_eq!(book.live_orders()[0].id, o.id);
    let short = book.create_local_at(&SECRET, "ab", Side::Sell, "TKA/TKB", "10", "2", 500, 7, 0);
    assert_eq!(short.id, "7-ab");
    assert_eq!(book.total_count(), 2);
}

#[test]
fn cancel_local_tombstones_once() {
    let mut book = OrderBook::new("me".to_string());
    book.insert_for_test(unsigned("x", "o", Side::Buy, "1", "1", 1));
    assert_eq!(book.cancel_local_at("nope", 5), Err("order nope not found".to_string()));
    assert_eq!(book.cancel_local_at("x", 5), Ok(()));
    let e = book.entry("x").unwrap();
    assert_eq!(e.tombstone, Some(TombstoneKind::Cancelled));
    assert_eq!(e.tombstoned_at, Some(5));
    // `get` gives live entries only.
    assert!(book.get("x").is_none());
    assert_eq!(book.clock().get("me"), 1);
    assert_eq!(book.cancel_local_at("x", 6), Err("order x already tombstoned".to_string()));
    assert_eq!(book.live_count(), 0);
    assert_eq!(book.total_count(), 1);
}

#[test]
fn mark_filled_and_unknown_orders() {
    let mut book = OrderBook::new("me".to_string());
    book.insert_for_test(unsigned("x", "o", Side::Buy, "1", "1", 1));
    assert_eq!(book.mark_filled_at("y", 1), Err("order y not found".to_string()));
    assert_eq!(book.mark_filled_at("x", 9), Ok(()));
    assert_eq!(book.entry("x").unwrap().tombstone, Some(TombstoneKind::Filled));
    assert_eq!(book.record_fill("y", Dec::zero()), Err("unknown order y".to_string()));
}

#[test]
fn fills_accumulate_and_reduce_the_remainder() {
    let mut book = OrderBook::new("me".to_string());
    book.insert_for_test(unsigned("x", "o", Side::Buy, "1", "5", 1));
    let one_half = Dec::parse("1.5").unwrap();
    assert_eq!(book.record_fill("x", one_half), Ok(()));
    assert_eq!(book.remaining("x").to_string(), "3.5");
    assert_eq!(book.record_fill("x", one_half), Ok(()));
    assert_eq!(book.remaining("x").to_string(), "2.0");
    assert_eq!(book.fillable_orders().len(), 1);
    assert_eq!(book.record_fill("x", Dec::parse("7").unwrap()), Ok(()));
    assert_eq!(book.remaining("x").to_string(), "0");
    assert_eq!(book.fillable_orders().len(), 0);
    // An unknown order has nothing left.
    assert_eq!(book.remaining("unknown").to_string(), "0");
}

#[test]
fn apply_remote_checks_signature_and_nonce() {
    let mut book = OrderBook::new("me".to_string());
    let o = signed("r-1", 3);
    assert_eq!(book.apply_remote(o.clone(), 0), Ok(true));
    assert_eq!(book.total_count(), 1);
    assert_eq!(book.clock().get("peer-a"), 1);
    assert_eq!(book.clock().get("peer-b"), 2);
    // Already present: nothing changes.
    assert_eq!(book.apply_remote(o.clone(), 2), Ok(false));
    // Replayed nonce.
    assert_eq!(
        book.apply_remote(o.clone(), 3),
        Err(format!("sqlite: replay detected: nonce 3 <= last seen 3 for owner {PUBLIC_HEX}"))
    );
    let mut bad = signed("r-2", 9);
    bad.amount = "4".to_string();
    assert!(book.apply_remote(bad, 0).unwrap_err().starts_with("signature verification failed: "));
    assert_eq!(book.total_count(), 1);
}

#[test]
fn incoming_own_orders_are_skipped() {
    let mut book = OrderBook::new(PUBLIC_HEX.to_string());
    let o = signed("r-1", 1);
    assert_eq!(apply_incoming_order(&mut book, o, 5), Ok(IncomingOutcome::Loopback));
    assert_eq!(book.total_count(), 0);

    let mut other = OrderBook::new("someone".to_string());
    assert_eq!(apply_incoming_order(&mut other, signed("r-1", 1), 0), Ok(IncomingOutcome::Added));
    assert_eq!(apply_incoming_order(&mut other, signed("r-1", 1), 0), Ok(IncomingOutcome::Known));
    assert!(apply_incoming_order(&mut other, signed("r-1", 1), 1).is_err());
}

#[test]
fn remote_cancel_is_last_writer_wins() {
    let mut book = OrderBook::new("m".to_string());
    book.insert_for_test(unsigned("x", "o", Side::Buy, "1", "1", 1));
    let mut rc = VectorClock::new();
    rc.set("z", 4);
    assert_eq!(book.apply_remote_cancel_at("x", &rc, "z", 10), Ok(()));
    assert_eq!(book.entry("x").unwrap().tombstone, Some(TombstoneKind::Cancelled));
    assert_eq!(book.entry("x").unwrap().tombstoned_at, Some(10));
    assert_eq!(book.clock().get("z"), 4);

    // An existing tombstone whose order happened after the remote clock stays.
    let mut book2 = OrderBook::new("m".to_string());
    book2.insert_for_test(unsigned("y", "o", Side::Buy, "1", "1", 1));
    book2.mark_filled_at("y", 3).unwrap();
    let mut behind = VectorClock::new();
    behind.set("peer-a", 1);
    assert_eq!(book2.apply_remote_cancel_at("y", &behind, "a", 11), Ok(()));
    assert_eq!(book2.entry("y").unwrap().tombstone, Some(TombstoneKind::Filled));
    assert_eq!(book2.entry("y").unwrap().tombstoned_at, Some(3));

    // Concurrent clocks: the greater peer id wins.
    let mut conc = VectorClock::new();
    conc.set("q", 1);
    assert_eq!(book2.apply_remote_cancel_at("y", &conc, "a", 12), Ok(()));
    assert_eq!(book2.entry("y").unwrap().tombstone, Some(TombstoneKind::Filled));
    assert_eq!(book2.apply_remote_cancel_at("y", &conc, "zz", 13), Ok(()));
    assert_eq!(book2.entry("y").unwrap().tombstone, Some(TombstoneKind::Cancelled));
    assert_eq!(book2.entry("y").unwrap().tombstoned_at, Some(13));

    // Unknown order: only the clock merges.
    assert_eq!(book2.apply_remote_cancel_at("none", &rc, "z", 14), Ok(()));
    assert_eq!(book2.total_count(), 1);
    assert_eq!(book2.clock().get("z"), 4);
}

#[test]
fn gc_drops_tombstones_after_retention() {
    let mut book = OrderBook::new("m".to_string());
    book.insert_for_test(unsigned("live", "o", Side::Buy, "1", "1", 1));
    book.insert_for_test(unsigned("old", "o", Side::Buy, "1", "1", 1));
    book.cancel_local_at("old", 100).unwrap();
    assert_eq!(book.gc_at(100 + 86_399), 0);
    assert_eq!(book.total_count(), 2);
    assert_eq!(book.gc_at(100 + 86_400), 1);
    assert_eq!(book.total_count(), 1);
    assert!(book.entry("old").is_none());
    assert!(book.entry("live").is_some());
}

#[test]
fn merge_from_unions_books() {
    let mut a = OrderBook::new("a".to_string());
    let mut b = OrderBook::new("b".to_string());
    a.insert_for_test(unsigned("x", "o", Side::Buy, "1", "5", 1));
    b.insert_for_test(unsigned("x", "o", Side::Buy, "1", "5", 1));
    b.insert_for_test(unsigned("y", "o", Side::Sell, "1", "5", 1));
    b.record_fill("x", Dec::parse("2").unwrap()).unwrap();
    let mut later = unsigned("z", "o", Side::Sell, "1", "5", 1);
    tick(&mut later.vector_clock, "peer-a");
    a.insert_for_test(unsigned("z", "o", Side::Sell, "1", "5", 1));
    b.insert_for_test(later);
    b.cancel_local_at("z", 77).unwrap();
    a.merge_from(&b);
    assert_eq!(a.total_count(), 3);
    assert_eq!(a.remaining("x").to_string(), "3");
    // Ours happened before theirs, and theirs is a tombstone: it is adopted.
    assert_eq!(a.entry("z").unwrap().tombstone, Some(TombstoneKind::Cancelled));
    assert_eq!(a.entry("z").unwrap().tombstoned_at, Some(77));
    assert_eq!(a.clock().get("b"), 1);
    // Merging again changes nothing.
    let before = a.total_count();
    a.merge_from(&b);
    assert_eq!(a.total_count(), before);
    assert_eq!(a.remaining("x").to_string(), "3");
}

#[test]
fn restore_persisted_reads_tombstone_names() {
    let mut book = OrderBook::new("m".to_string());
    book.restore_persisted(unsigned("a", "o", Side::Buy, "1", "1", 1), Some("Filled".to_string()), Some(3));
    book.restore_persisted(unsigned("b", "o", Side::Buy, "1", "1", 1), Some("Cancelled".to_string()), Some(4));
    book.restore_persisted(unsigned("c", "o", Side::Buy, "1", "1", 1), Some("Other".to_string()), None);
    book.restore_persisted(unsigned("d", "o", Side::Buy, "1", "1", 1), None, None);
    assert_eq!(book.entry("a").unwrap().tombstone, Some(TombstoneKind::Filled));
    assert_eq!(book.entry("b").unwrap().tombstone, Some(TombstoneKind::Cancelled));
    assert_eq!(book.entry("c").unwrap().tombstone, None);
    assert_eq!(book.live_count(), 2);
    assert_eq!(book.clock().get("peer-b"), 2);
    // A stored tombstone name restores the same kind.
    for kind in [TombstoneKind::Cancelled, TombstoneKind::Filled] {
        let mut b2 = OrderBook::new("m".to_string());
        b2.restore_persisted(unsigned("k", "o", Side::Buy, "1", "1", 1), Some(tombstone_label(kind).to_string()), Some(1));
        assert_eq!(b2.entry("k").unwrap().tombstone, Some(kind));
    }
}

#[test]
fn stats_count_live_and_total() {
    let mut book = OrderBook::new("node".to_string());
    book.insert_for_test(unsigned("a", "o", Side::Buy, "1", "1", 1));
    book.insert_for_test(unsigned("b", "o", Side::Buy, "1", "1", 1));
    book.cancel_local_at("a", 1).unwrap();
    let s = book_stats(&book);
    assert_eq!(s.local_peer, "node");
    assert_eq!(s.live_count, 1);
    assert_eq!(s.total_count, 2);
}

#[test]
fn gc_by_system_time_drops_old_tombstones_only() {
    let mut book = OrderBook::new("m".to_string());
    book.insert_for_test(unsigned("old", "o", Side::Buy, "1", "1", 1));
    book.insert_for_test(unsigned("fresh", "o", Side::Buy, "1", "1", 1));
    book.insert_for_test(unsigned("live", "o", Side::Buy, "1", "1", 1));
    book.cancel_local_at("old", 100).unwrap();
    book.cancel_local("fresh").unwrap();
    assert_eq!(book.gc(), 1);
    assert!(book.entry("old").is_none());
    assert!(book.entry("fresh").is_some());
    assert!(book.entry("live").is_some());
}

#[test]
fn cancel_before_order_arrives_cancelled() {
    let mut rc = VectorClock::new();
    rc.set("z", 4);
    // Order first, then its cancellation.
    let mut first = OrderBook::new("me".to_string());
    assert_eq!(first.apply_remote(signed("r-1", 1), 0), Ok(true));
    assert_eq!(first.apply_remote_cancel_at("r-1", &rc, "z", 50), Ok(()));
    // Cancellation first, then its order.
    let mut second = OrderBook::new("me".to_string());
    assert_eq!(second.apply_remote_cancel_at("r-1", &rc, "z", 50), Ok(()));
    assert_eq!(second.total_count(), 0);
    assert_eq!(second.apply_remote(signed("r-1", 1), 0), Ok(true));
    for book in [&first, &second] {
        let e = book.entry("r-1").unwrap();
        assert_eq!(e.tombstone, Some(TombstoneKind::Cancelled));
        assert_eq!(e.tombstoned_at, Some(50));
        assert!(book.get("r-1").is_none());
        assert_eq!(book.live_count(), 0);
        assert_eq!(book.clock().get("z"), 4);
        assert_eq!(book.clock().get("peer-b"), 2);
    }
}

#[test]
fn gc_keeps_live_entries_with_old_stamps() {
    let mut book = OrderBook::new("m".to_string());
    book.restore_persisted(unsigned("live", "o", Side::Buy, "1", "1", 1), None, Some(1));
    book.restore_persisted(unsigned("dead", "o", Side::Buy, "1", "1", 1), Some("Cancelled".to_string()), Some(1));
    assert_eq!(book.gc_at(1_000_000), 1);
    assert!(book.get("live").is_some());
    assert!(book.entry("dead").is_none());
}

#[test]
fn merging_converges_on_tombstones() {
    let mut a = OrderBook::new("a".to_string());
    let mut b = OrderBook::new("b".to_string());
    a.insert_for_test(unsigned("x", "o", Side::Buy, "1", "5", 1));
    b.insert_for_test(unsigned("x", "o", Side::Buy, "1", "5", 1));
    b.cancel_local_at("x", 9).unwrap();
    let mut a2 = OrderBook::new("a".to_string());
    a2.insert_for_test(unsigned("x", "o", Side::Buy, "1", "5", 1));
    a.merge_from(&b);
    b.merge_from(&a2);
    for book in [&a, &b] {
        let e = book.entry("x").unwrap();
        assert_eq!(e.tombstone, Some(TombstoneKind::Cancelled));
        assert_eq!(e.tombstoned_at, Some(9));
    }
}

#[test]
fn awaiting_cancellations_expire_with_the_retention_window() {
    let rc = VectorClock::new();
    let mut book = OrderBook::new("me".to_string());
    book.apply_remote_cancel_at("r-1", &rc, "z", 50).unwrap();
    assert_eq!(book.gc_at(50 + 86_399), 0);
    book.apply_remote_cancel_at("r-2", &rc, "z", 60).unwrap();
    assert_eq!(book.gc_at(60 + 86_400), 0);
    assert_eq!(book.apply_remote(signed("r-1", 1), 0), Ok(true));
    assert!(book.get("r-1").is_some(), "the expired cancellation no longer applies");
}

#[test]
fn merge_follows_order_clocks_then_latest_write() {
    // Ours after theirs: ours stays, though theirs is a tombstone.
    let mut newer = unsigned("x", "o", Side::Buy, "1", "5", 1);
    tick(&mut newer.vector_clock, "peer-a");
    let mut a = OrderBook::new("a".to_string());
    a.insert_for_test(newer);
    let mut b = OrderBook::new("b".to_string());
    b.insert_for_test(unsigned("x", "o", Side::Buy, "1", "5", 1));
    b.cancel_local_at("x", 5).unwrap();
    a.merge_from(&b);
    assert_eq!(a.entry("x").unwrap().tombstone, None);

    // Ours before theirs: their tombstone replaces ours, whatever its time.
    let mut later = unsigned("y", "o", Side::Buy, "1", "5", 1);
    tick(&mut later.vector_clock, "peer-a");
    let mut c = OrderBook::new("c".to_string());
    c.insert_for_test(unsigned("y", "o", Side::Buy, "1", "5", 1));
    c.cancel_local_at("y", 50).unwrap();
    let mut d = OrderBook::new("d".to_string());
    d.insert_for_test(later);
    d.mark_filled_at("y", 10).unwrap();
    c.merge_from(&d);
    assert_eq!(c.entry("y").unwrap().tombstone, Some(TombstoneKind::Filled));
    assert_eq!(c.entry("y").unwrap().tombstoned_at, Some(10));

    // The same order on both sides: the later write wins, a fill over a
    // cancellation at the same time.
    let mut e = OrderBook::new("e".to_string());
    e.insert_for_test(unsigned("z", "o", Side::Buy, "1", "5", 1));
    e.cancel_local_at("z", 20).unwrap();
    let mut f = OrderBook::new("f".to_string());
    f.insert_for_test(unsigned("z", "o", Side::Buy, "1", "5", 1));
    f.mark_filled_at("z", 20).unwrap();
    e.merge_from(&f);
    assert_eq!(e.entry("z").unwrap().tombstone, Some(TombstoneKind::Filled));
    let mut g = OrderBook::new("g".to_string());
    g.insert_for_test(unsigned("z", "o", Side::Buy, "1", "5", 1));
    g.cancel_local_at("z", 30).unwrap();
    e.merge_from(&g);
    assert_eq!(e.entry("z").unwrap().tombstone, Some(TombstoneKind::Cancelled));
    assert_eq!(e.entry("z").unwrap().tombstoned_at, Some(30));
}
