//! The matching engine: deterministic price-time priority.
//!   - Buy orders go by price, highest first, then by id (earlier first).
//!   - Sell orders go by price, lowest first, then by id.
//!   - A pair matches while the buy price is at least the sell price.
//!   - The execution price is the resting order's (the one with the earlier id).
//!   - The amount is the smaller of the two remaining amounts.
//!
//! Trade ids and timestamps come from the two order ids, never from the
//! wall clock, so that every node produces byte-identical trades for the
//! same crossing pair.

use vstd::prelude::*;
use vstd::utf8::encode_utf8;
use vstd::seq_lib::{to_multiset_build, to_multiset_insert, to_multiset_contains};
use crate::clock::{VectorClock, tick_result, lemma_tick_result, counter};
use crate::decimal::{Dec, dec_lt, dec_eq, dec_parse, dec_less, dec_min, dec_zero, dec_to_string, decimal_text};
use crate::order::{Order, OrderView, Side};
use crate::orderbook::{now_secs, parsed_or_zero, BookView, OrderBook, remaining_of, fill_after, tombstoned, TombstoneKind,
    is_fillable, remainders_defined, fillable_listing, order_views};
use crate::text::push_str;
use crate::text::{key_lt, compare_keys, KeyOrder, lemma_key_lt_transitive, lemma_key_lt_total, lemma_key_lt_irreflexive,
    lemma_key_lt_asymmetric};

verus! {

broadcast use vstd::seq::group_seq_axioms;

/// A proposed trade between a buy and a sell order.
#[derive(Debug)]
pub struct Trade {
    pub id: String,
    pub buy_order_id: String,
    pub sell_order_id: String,
    pub buyer_owner: String,
    pub seller_owner: String,
    pub price: String,
    pub amount: String,
    pub pair: String,
    pub buyer_signature: String,
    pub seller_signature: String,
    pub vector_clock: VectorClock,
    pub created_at: i64,
}

/// A trade as plain values.
pub struct TradeView {
    pub id: Seq<char>,
    pub buy_order_id: Seq<char>,
    pub sell_order_id: Seq<char>,
    pub buyer_owner: Seq<char>,
    pub seller_owner: Seq<char>,
    pub price: Seq<char>,
    pub amount: Seq<char>,
    pub pair: Seq<char>,
    pub buyer_signature: Seq<char>,
    pub seller_signature: Seq<char>,
    pub vector_clock: Seq<(Seq<char>, u64)>,
    pub created_at: i64,
}

impl View for Trade {
    type V = TradeView;

    open spec fn view(&self) -> TradeView {
        TradeView {
            id: self.id@,
            buy_order_id: self.buy_order_id@,
            sell_order_id: self.sell_order_id@,
            buyer_owner: self.buyer_owner@,
            seller_owner: self.seller_owner@,
            price: self.price@,
            amount: self.amount@,
            pair: self.pair@,
            buyer_signature: self.buyer_signature@,
            seller_signature: self.seller_signature@,
            vector_clock: self.vector_clock@,
            created_at: self.created_at,
        }
    }
}

/// Length of the part of `b` before its first `-` (all of it where there is none).
pub open spec fn dash_free_len(b: Seq<u8>) -> nat
    decreases b.len(),
{
    if b.len() == 0 {
        0
    } else if b[0] == 45 {
        0
    } else {
        1 + dash_free_len(b.drop_first())
    }
}

pub open spec fn is_digit(c: u8) -> bool {
    48 <= c <= 57
}

/// The value of a string of decimal digits.
pub open spec fn digits_value(d: Seq<u8>) -> int
    decreases d.len(),
{
    if d.len() == 0 {
        0
    } else {
        digits_value(d.drop_last()) * 10 + (d.last() - 48)
    }
}

pub open spec fn all_digits(d: Seq<u8>) -> bool {
    forall|i: int| 0 <= i < d.len() ==> #[trigger] is_digit(d[i])
}

/// What `i64::from_str` gives for text without a `-`: an optional `+`, then
/// one or more digits, within `i64::MAX`.
pub open spec fn parse_unsigned_i64(s: Seq<u8>) -> Option<int> {
    let d = if s.len() > 0 && s[0] == 43 {
        s.drop_first()
    } else {
        s
    };
    if d.len() > 0 && all_digits(d) && digits_value(d) <= i64::MAX {
        Some(digits_value(d))
    } else {
        None
    }
}

/// Unix seconds encoded in an order id `{unix_millis}-{owner_prefix}`: the
/// part before the first `-`, parsed as an `i64` of milliseconds and divided
/// by 1000; 0 where it does not parse.
pub open spec fn order_id_timestamp(id: Seq<char>) -> i64 {
    let b = encode_utf8(id);
    match parse_unsigned_i64(b.take(dash_free_len(b) as int)) {
        Some(ms) => (ms / 1000) as i64,
        None => 0,
    }
}

proof fn lemma_dash_free_len(b: Seq<u8>, e: int)
    requires
        0 <= e <= b.len(),
        forall|j: int| 0 <= j < e ==> b[j] != 45,
        e == b.len() || b[e] == 45,
    ensures
        dash_free_len(b) == e,
    decreases e,
{
    if e > 0 {
        lemma_dash_free_len(b.drop_first(), e - 1);
    }
}

proof fn lemma_digits_value_nonneg(d: Seq<u8>)
    requires
        forall|j: int| 0 <= j < d.len() ==> #[trigger] is_digit(d[j]),
    ensures
        digits_value(d) >= 0,
    decreases d.len(),
{
    if d.len() > 0 {
        let e = d.drop_last();
        assert forall|j: int| 0 <= j < e.len() implies #[trigger] is_digit(e[j]) by {
            assert(is_digit(d[j]));
        }
        lemma_digits_value_nonneg(e);
        assert(is_digit(d[d.len() - 1]));
    }
}

proof fn lemma_digits_value_grows(d: Seq<u8>, i: int)
    requires
        0 <= i <= d.len(),
        forall|j: int| 0 <= j < d.len() ==> #[trigger] is_digit(d[j]),
    ensures
        digits_value(d) >= digits_value(d.take(i)),
    decreases d.len() - i,
{
    if i < d.len() {
        lemma_digits_value_grows(d, i + 1);
        let t = d.take(i + 1);
        assert(t.drop_last() =~= d.take(i));
        assert forall|j: int| 0 <= j < d.take(i).len() implies #[trigger] is_digit(d.take(i)[j]) by {
            assert(is_digit(d[j]));
        }
        lemma_digits_value_nonneg(d.take(i));
        assert(is_digit(d[i]));
        assert(t.last() == d[i]);
    } else {
        assert(d.take(i) =~= d);
    }
}

/// Parse the millisecond timestamp prefix from an order id.
/// Order ids are `{unix_millis}-{owner_prefix}`. Returns unix seconds.
/// Returns 0 if the prefix can't be parsed — both nodes produce the same 0
/// for the same malformed id, so canonicalization holds.
pub fn extract_timestamp_from_order_id(order_id: &str) -> (r: i64)
    ensures
        r == order_id_timestamp(order_id@),
{
    let b = order_id.as_bytes();
    let ghost bs = encode_utf8(order_id@);
    assert(b@ == bs);
    let mut end: usize = 0;
    while end < b.len() && b[end] != 45
        invariant
            b@ == bs,
            end <= bs.len(),
            forall|j: int| 0 <= j < end ==> bs[j] != 45,
        decreases bs.len() - end,
    {
        end = end + 1;
    }
    proof {
        lemma_dash_free_len(bs, end as int);
    }
    let ghost p = bs.take(end as int);
    let mut start: usize = 0;
    if end > 0 && b[0] == 43 {
        start = 1;
    }
    let ghost d = if p.len() > 0 && p[0] == 43 {
        p.drop_first()
    } else {
        p
    };
    assert(d =~= bs.subrange(start as int, end as int));
    if start == end {
        proof {
            assert(p == bs.take(dash_free_len(bs) as int));
            assert(d.len() == 0);
        }
        return 0;
    }
    let mut v: u128 = 0;
    let mut i: usize = start;
    assert(d.take(0) =~= Seq::<u8>::empty());
    while i < end
        invariant
            b@ == bs,
            start <= i <= end <= bs.len(),
            d =~= bs.subrange(start as int, end as int),
            bs == encode_utf8(order_id@),
            p == bs.take(dash_free_len(bs) as int),
            d == (if p.len() > 0 && p[0] == 43 {
                p.drop_first()
            } else {
                p
            }),
            forall|j: int| 0 <= j < i - start ==> #[trigger] is_digit(d[j]),
            v == digits_value(d.take(i - start)),
            v <= i64::MAX,
        decreases end - i,
    {
        let c = b[i];
        if c < 48 || c > 57 {
            proof {
                assert(!is_digit(d[i - start]));
                assert(!all_digits(d));
                assert(p == bs.take(dash_free_len(bs) as int));
                assert(parse_unsigned_i64(p) is None);
            }
            return 0;
        }
        proof {
            assert(d.take(i - start + 1).drop_last() =~= d.take(i - start));
            assert(d[i - start] == c);
        }
        v = v * 10 + (c - 48) as u128;
        proof {
            assert(v == digits_value(d.take(i - start + 1)));
        }
        if v > 0x7fff_ffff_ffff_ffffu128 {
            proof {
                let k = (i - start + 1) as int;
                if forall|j: int| 0 <= j < d.len() ==> #[trigger] is_digit(d[j]) {
                    lemma_digits_value_grows(d, k);
                }
                assert(p == bs.take(dash_free_len(bs) as int));
                assert(parse_unsigned_i64(p) is None);
            }
            return 0;
        }
        i = i + 1;
    }
    assert(d.take(d.len() as int) =~= d);
    let ms: i64 = v as i64;
    ms / 1000
}


/// The price of an order as a decimal, 0 where it does not parse.
pub open spec fn price_of(o: OrderView) -> Dec {
    parsed_or_zero(o.price)
}

/// Priority among orders of one side: buys by price descending, sells by
/// price ascending, then by id ascending (earlier first).
pub open spec fn precedes(buy_side: bool, a: OrderView, b: OrderView) -> bool {
    if buy_side {
        dec_lt(price_of(b), price_of(a)) || (dec_eq(price_of(a), price_of(b)) && key_lt(a.id, b.id))
    } else {
        dec_lt(price_of(a), price_of(b)) || (dec_eq(price_of(a), price_of(b)) && key_lt(a.id, b.id))
    }
}

/// A list of orders in strict priority order.
pub open spec fn in_priority_order(buy_side: bool, s: Seq<OrderView>) -> bool {
    forall|i: int, j: int| 0 <= i < j < s.len() ==> precedes(buy_side, #[trigger] s[i], #[trigger] s[j])
}

pub proof fn lemma_precedes_transitive(buy_side: bool, a: OrderView, b: OrderView, c: OrderView)
    requires
        precedes(buy_side, a, b),
        precedes(buy_side, b, c),
    ensures
        precedes(buy_side, a, c),
{
    if key_lt(a.id, b.id) && key_lt(b.id, c.id) {
        lemma_key_lt_transitive(a.id, b.id, c.id);
    }
}

pub proof fn lemma_precedes_total(buy_side: bool, a: OrderView, b: OrderView)
    requires
        a.id != b.id,
    ensures
        precedes(buy_side, a, b) || precedes(buy_side, b, a),
{
    lemma_key_lt_total(a.id, b.id);
}

pub proof fn lemma_precedes_asymmetric(buy_side: bool, a: OrderView, b: OrderView)
    requires
        precedes(buy_side, a, b),
    ensures
        !precedes(buy_side, b, a),
{
    if key_lt(a.id, b.id) {
        lemma_key_lt_asymmetric(a.id, b.id);
    }
}

/// The price of an order: `Decimal::from_str`, 0 where it does not parse.
pub fn order_price(o: &Order) -> (r: Dec)
    ensures
        r == price_of(o@),
        r.wf(),
{
    match dec_parse(o.price.as_str()) {
        Some(d) => d,
        None => Dec::zero(),
    }
}

/// Whether `a` goes before `b` in its side's priority order.
fn goes_before(buy_side: bool, a: &Order, b: &Order) -> (r: bool)
    ensures
        r == precedes(buy_side, a@, b@),
{
    let pa = order_price(a);
    let pb = order_price(b);
    let better = if buy_side {
        dec_less(pb, pa)
    } else {
        dec_less(pa, pb)
    };
    if better {
        return true;
    }
    let worse = if buy_side {
        dec_less(pa, pb)
    } else {
        dec_less(pb, pa)
    };
    if worse {
        return false;
    }
    compare_keys(a.id.as_str(), b.id.as_str()) == KeyOrder::Less
}

/// No two orders share an id.
pub open spec fn ids_distinct(s: Seq<OrderView>) -> bool {
    forall|i: int, j: int| 0 <= i < j < s.len() ==> #[trigger] s[i].id != #[trigger] s[j].id
}

/// `a` and `b` hold the same orders, in any order.
pub open spec fn same_orders(a: Seq<OrderView>, b: Seq<OrderView>) -> bool {
    a.to_multiset() == b.to_multiset()
}

pub open spec fn views(os: Seq<Order>) -> Seq<OrderView> {
    os.map_values(|o: Order| o@)
}

proof fn lemma_insert_in_order(buy_side: bool, before: Seq<OrderView>, p: int, xv: OrderView)
    requires
        in_priority_order(buy_side, before),
        ids_distinct(before),
        0 <= p <= before.len(),
        forall|k: int| 0 <= k < before.len() ==> #[trigger] before[k].id != xv.id,
        forall|k: int| 0 <= k < p ==> !precedes(buy_side, xv, #[trigger] before[k]),
        p < before.len() ==> precedes(buy_side, xv, before[p]),
    ensures
        in_priority_order(buy_side, before.insert(p, xv)),
        ids_distinct(before.insert(p, xv)),
{
    let after = before.insert(p, xv);
    assert forall|a: int, b: int| 0 <= a < b < after.len() implies precedes(buy_side, #[trigger] after[a], #[trigger] after[b]) by {
        if b < p {
            assert(after[a] == before[a] && after[b] == before[b]);
        } else if b == p {
            assert(after[a] == before[a]);
            lemma_precedes_total(buy_side, xv, before[a]);
        } else if a < p {
            assert(after[a] == before[a]);
            lemma_precedes_total(buy_side, xv, before[a]);
            assert(after[b] == before[b - 1]);
            if b - 1 > p {
                lemma_precedes_transitive(buy_side, xv, before[p], before[b - 1]);
            }
            lemma_precedes_transitive(buy_side, before[a], xv, before[b - 1]);
        } else if a == p {
            assert(after[b] == before[b - 1]);
            if b - 1 > p {
                lemma_precedes_transitive(buy_side, xv, before[p], before[b - 1]);
            }
        } else {
            assert(after[a] == before[a - 1]);
            assert(after[b] == before[b - 1]);
        }
    }
    assert forall|a: int, b: int| 0 <= a < b < after.len() implies #[trigger] after[a].id != #[trigger] after[b].id by {
        if a == p {
            assert(after[b] == before[b - 1]);
        } else if b == p {
            assert(after[a] == before[a]);
        } else {
            let a2 = if a < p { a } else { a - 1 };
            let b2 = if b < p { b } else { b - 1 };
            assert(after[a] == before[a2]);
            assert(after[b] == before[b2]);
        }
    }
}

proof fn lemma_same_orders_insert(vs: Seq<OrderView>, i: int, before: Seq<OrderView>, p: int)
    requires
        0 <= i < vs.len(),
        0 <= p <= before.len(),
        same_orders(vs.take(i), before),
    ensures
        same_orders(vs.take(i + 1), before.insert(p, vs[i])),
{
    assert(vs.take(i + 1) =~= vs.take(i).push(vs[i]));
    to_multiset_build(vs.take(i), vs[i]);
    to_multiset_insert(before, p, vs[i]);
}

/// Sorts orders of one side into priority order (insertion sort).
pub fn sort_by_priority(v: &Vec<Order>, buy_side: bool) -> (r: Vec<Order>)
    requires
        ids_distinct(views(v@)),
        forall|i: int| 0 <= i < v@.len() ==> (#[trigger] v@[i]).wf(),
    ensures
        same_orders(views(v@), views(r@)),
        in_priority_order(buy_side, views(r@)),
        ids_distinct(views(r@)),
        forall|i: int| 0 <= i < r@.len() ==> (#[trigger] r@[i]).wf(),
        forall|i: int, j: int|
            0 <= i < j < r@.len() ==> (buy_side ==> !dec_lt(price_of((#[trigger] r@[i])@), price_of((#[trigger] r@[j])@)))
                && (!buy_side ==> !dec_lt(price_of(r@[j]@), price_of(r@[i]@)))
                && (dec_eq(price_of(r@[i]@), price_of(r@[j]@)) ==> key_lt(r@[i]@.id, r@[j]@.id)),
{
    let mut out: Vec<Order> = Vec::new();
    let mut i: usize = 0;
    proof {
        assert(views(v@).take(0) =~= Seq::<OrderView>::empty());
        assert(views(out@) =~= Seq::<OrderView>::empty());
    }
    while i < v.len()
        invariant
            i <= v@.len(),
            ids_distinct(views(v@)),
            forall|k: int| 0 <= k < v@.len() ==> (#[trigger] v@[k]).wf(),
            same_orders(views(v@).take(i as int), views(out@)),
            in_priority_order(buy_side, views(out@)),
            ids_distinct(views(out@)),
            forall|k: int| 0 <= k < out@.len() ==> (#[trigger] out@[k]).wf(),
        decreases v@.len() - i,
    {
        let x = v[i].clone();
        let ghost xv = x@;
        let ghost vs = views(v@);
        let ghost before = views(out@);
        proof {
            assert(vs[i as int] == xv);
            assert(x.wf()) by {
                assert(v@[i as int].wf());
            }
            assert forall|k: int| 0 <= k < before.len() implies #[trigger] before[k].id != xv.id by {
                to_multiset_contains(before, before[k]);
                to_multiset_contains(vs.take(i as int), before[k]);
                assert(before.contains(before[k]));
                let j = choose|j: int| 0 <= j < vs.take(i as int).len() && vs.take(i as int)[j] == before[k];
                assert(vs[j] == before[k]);
            }
        }
        let mut p: usize = 0;
        while p < out.len()
            invariant
                views(out@) == before,
                x@ == xv,
                p <= before.len(),
                forall|k: int| 0 <= k < p ==> !precedes(buy_side, xv, #[trigger] before[k]),
            ensures
                p <= before.len(),
                forall|k: int| 0 <= k < p ==> !precedes(buy_side, xv, #[trigger] before[k]),
                p < before.len() ==> precedes(buy_side, xv, before[p as int]),
            decreases before.len() - p,
        {
            proof {
                assert(out@[p as int]@ == before[p as int]);
            }
            if goes_before(buy_side, &x, &out[p]) {
                break;
            }
            p = p + 1;
        }
        let ghost out_before = out@;
        out.insert(p, x);
        proof {
            assert(views(out@) =~= before.insert(p as int, xv));
            lemma_insert_in_order(buy_side, before, p as int, xv);
            lemma_same_orders_insert(vs, i as int, before, p as int);
            assert forall|k: int| 0 <= k < out@.len() implies (#[trigger] out@[k]).wf() by {
                if k < p {
                    assert(out@[k] == out_before[k]);
                } else if k > p {
                    assert(out@[k] == out_before[k - 1]);
                }
            }
        }
        i = i + 1;
    }
    proof {
        assert(views(v@).take(v@.len() as int) =~= views(v@));
        assert forall|i: int, j: int| 0 <= i < j < out@.len() implies (buy_side ==> !dec_lt(price_of((#[trigger] out@[i])@), price_of((#[trigger] out@[j])@)))
            && (!buy_side ==> !dec_lt(price_of(out@[j]@), price_of(out@[i]@)))
            && (dec_eq(price_of(out@[i]@), price_of(out@[j]@)) ==> key_lt(out@[i]@.id, out@[j]@.id)) by {
            assert(views(out@)[i] == out@[i]@ && views(out@)[j] == out@[j]@);
            assert(precedes(buy_side, views(out@)[i], views(out@)[j]));
        }
    }
    out
}


/// The id of a trade: `trade-{earlier id}-{later id}-{amount}`.
pub open spec fn trade_id_text(earlier: Seq<char>, later: Seq<char>, amount: Dec) -> Seq<char> {
    "trade-"@ + earlier + "-"@ + later + "-"@ + decimal_text(amount)
}

/// The trade between a buy and a sell order for an amount. The resting order
/// (the one with the smaller id) sets the price, and its id comes first.
pub open spec fn trade_of(buy: OrderView, sell: OrderView, amount: Dec, clock: Seq<(Seq<char>, u64)>) -> TradeView {
    let buy_rests = key_lt(buy.id, sell.id);
    let earlier = if buy_rests {
        buy.id
    } else {
        sell.id
    };
    let later = if buy_rests {
        sell.id
    } else {
        buy.id
    };
    let price = if buy_rests {
        price_of(buy)
    } else {
        price_of(sell)
    };
    TradeView {
        id: trade_id_text(earlier, later, amount),
        buy_order_id: buy.id,
        sell_order_id: sell.id,
        buyer_owner: buy.owner,
        seller_owner: sell.owner,
        price: decimal_text(price),
        amount: decimal_text(amount),
        pair: buy.pair,
        buyer_signature: Seq::empty(),
        seller_signature: Seq::empty(),
        vector_clock: clock,
        created_at: order_id_timestamp(earlier),
    }
}

/// Builds the trade between a buy and a sell order.
fn make_trade(buy: &Order, sell: &Order, amount: Dec, clock: &VectorClock) -> (t: Trade)
    requires
        amount.wf(),
    ensures
        t@ == trade_of(buy@, sell@, amount, clock@),
{
    proof {
        reveal_strlit("trade-");
        reveal_strlit("-");
    }
    let buy_rests = compare_keys(buy.id.as_str(), sell.id.as_str()) == KeyOrder::Less;
    let (earlier, later) = if buy_rests {
        (buy.id.as_str(), sell.id.as_str())
    } else {
        (sell.id.as_str(), buy.id.as_str())
    };
    let exec_price = if buy_rests {
        order_price(buy)
    } else {
        order_price(sell)
    };
    let amount_text = dec_to_string(amount);
    let mut id = String::new();
    push_str(&mut id, "trade-");
    push_str(&mut id, earlier);
    push_str(&mut id, "-");
    push_str(&mut id, later);
    push_str(&mut id, "-");
    push_str(&mut id, amount_text.as_str());
    let created_at = extract_timestamp_from_order_id(earlier);
    Trade {
        id,
        buy_order_id: buy.id.clone(),
        sell_order_id: sell.id.clone(),
        buyer_owner: buy.owner.clone(),
        seller_owner: sell.owner.clone(),
        price: dec_to_string(exec_price),
        amount: amount_text,
        pair: buy.pair.clone(),
        buyer_signature: String::new(),
        seller_signature: String::new(),
        vector_clock: clock.clone(),
        created_at,
    }
}

/// How many trades in a row may leave neither order filled before a run
/// gives up.
pub open spec fn stall_budget() -> nat {
    u64::MAX as nat
}

/// The state of a matching run: the book, the trades so far, and whether
/// the run stopped on an error.
pub struct MatchRun {
    pub book: BookView,
    pub trades: Seq<TradeView>,
    pub failed: bool,
}

pub open spec fn run_done(v: BookView) -> MatchRun {
    MatchRun { book: v, trades: Seq::empty(), failed: false }
}

pub open spec fn run_failed(v: BookView) -> MatchRun {
    MatchRun { book: v, trades: Seq::empty(), failed: true }
}

pub open spec fn run_after(t: TradeView, r: MatchRun) -> MatchRun {
    MatchRun { book: r.book, trades: seq![t] + r.trades, failed: r.failed }
}

/// A run whose earlier trades are `p`.
pub open spec fn run_extend(p: Seq<TradeView>, r: MatchRun) -> MatchRun {
    MatchRun { book: r.book, trades: p + r.trades, failed: r.failed }
}

/// The book with `amount` added to the order's cumulative fill.
pub open spec fn fill_book(v: BookView, id: Seq<char>, amount: Dec) -> Option<BookView> {
    match fill_after(v, id, amount) {
        Some(f) => Some(BookView { fills: v.fills.insert(id, f), ..v }),
        None => None,
    }
}

/// The book with the order tombstoned as filled at `now`, its clock ticked.
pub open spec fn mark_book(v: BookView, id: Seq<char>, now: i64) -> BookView {
    BookView {
        entries: v.entries.insert(id, tombstoned(v.entries[id], TombstoneKind::Filled, now)),
        clock: tick_result(v.clock, v.local_peer),
        ..v
    }
}

/// Price-time priority matching over the sorted buys `b` and sells `s`,
/// from positions `bi` and `si`:
///   - it stops where either side is exhausted or the best bid is below the best ask;
///   - an order with nothing left to fill is passed over;
///   - otherwise the pair trades the smaller remaining amount, both fills
///     are recorded, fully filled orders are tombstoned, and matching goes
///     on past the filled order.
/// Where decimal rounding leaves neither order of a trade filled, matching
/// goes on with the same pair; `fuel` bounds how often in a row that may
/// happen. The run fails where a remaining amount or a fill overflows, or
/// where the fuel runs out.
pub open spec fn match_run(
    v: BookView,
    b: Seq<OrderView>,
    s: Seq<OrderView>,
    bi: nat,
    si: nat,
    clock0: Seq<(Seq<char>, u64)>,
    now: i64,
    fuel: nat,
) -> MatchRun
    decreases (b.len() - bi) + (s.len() - si), fuel,
{
    if bi >= b.len() || si >= s.len() {
        run_done(v)
    } else {
        let buy = b[bi as int];
        let sell = s[si as int];
        if dec_lt(price_of(buy), price_of(sell)) {
            run_done(v)
        } else if remaining_of(v, buy.id) is None || remaining_of(v, sell.id) is None {
            run_failed(v)
        } else {
            let rb = remaining_of(v, buy.id).unwrap();
            let rs = remaining_of(v, sell.id).unwrap();
            if !dec_lt(dec_zero(), rb) {
                match_run(v, b, s, bi + 1, si, clock0, now, fuel)
            } else if !dec_lt(dec_zero(), rs) {
                match_run(v, b, s, bi, si + 1, clock0, now, fuel)
            } else {
                let amount = if dec_lt(rs, rb) {
                    rs
                } else {
                    rb
                };
                let t = trade_of(buy, sell, amount, clock0);
                match fill_book(v, buy.id, amount) {
                    None => run_failed(v),
                    Some(v1) => match fill_book(v1, sell.id, amount) {
                        None => run_failed(v1),
                        Some(v2) => match remaining_of(v2, buy.id) {
                            None => run_failed(v2),
                            Some(rb2) => {
                                let buy_done = !dec_lt(dec_zero(), rb2);
                                let v3 = if buy_done {
                                    mark_book(v2, buy.id, now)
                                } else {
                                    v2
                                };
                                match remaining_of(v3, sell.id) {
                                    None => run_failed(v3),
                                    Some(rs2) => {
                                        let sell_done = !dec_lt(dec_zero(), rs2);
                                        let v4 = if sell_done {
                                            mark_book(v3, sell.id, now)
                                        } else {
                                            v3
                                        };
                                        if !buy_done && !sell_done {
                                            if fuel == 0 {
                                                run_failed(v4)
                                            } else {
                                                run_after(t, match_run(v4, b, s, bi, si, clock0, now, (fuel - 1) as nat))
                                            }
                                        } else if buy_done {
                                            run_after(t, match_run(v4, b, s, bi + 1, si, clock0, now, fuel))
                                        } else {
                                            run_after(t, match_run(v4, b, s, bi, si + 1, clock0, now, fuel))
                                        }
                                    },
                                }
                            },
                        },
                    },
                }
            }
        }
    }
}

/// `s` lists the fillable orders of one side of the book, in priority order.
pub open spec fn side_listing(v: BookView, buy_side: bool, s: Seq<OrderView>) -> bool {
    &&& in_priority_order(buy_side, s)
    &&& ids_distinct(s)
    &&& forall|j: int| 0 <= j < s.len() ==> is_fillable(v, (#[trigger] s[j]).id) && v.entries[s[j].id].order == s[j]
        && (s[j].side == Side::Buy) == buy_side
    &&& forall|k: Seq<char>| #[trigger] is_fillable(v, k) && (v.entries[k].order.side == Side::Buy) == buy_side ==> exists|j: int|
        0 <= j < s.len() && (#[trigger] s[j]).id == k
}

/// The views of a list of trades.
pub open spec fn trade_views(ts: Seq<Trade>) -> Seq<TradeView> {
    ts.map_values(|t: Trade| t@)
}


proof fn lemma_distinct_ids_bounded(s: Seq<OrderView>, d: Set<Seq<char>>)
    requires
        d.finite(),
        ids_distinct(s),
        forall|i: int| 0 <= i < s.len() ==> d.contains(#[trigger] s[i].id),
    ensures
        s.len() <= d.len(),
    decreases s.len(),
{
    if s.len() > 0 {
        let t = s.drop_last();
        let k = s.last().id;
        assert forall|i: int| 0 <= i < t.len() implies d.remove(k).contains(#[trigger] t[i].id) by {
            assert(s[i].id != s[s.len() - 1].id);
        }
        lemma_distinct_ids_bounded(t, d.remove(k));
        assert(d.contains(s[s.len() - 1].id));
    }
}

proof fn lemma_side_listing(v: BookView, buy_side: bool, f: Seq<OrderView>, b: Seq<OrderView>)
    requires
        fillable_listing(v, f),
        in_priority_order(buy_side, b),
        ids_distinct(b),
        forall|j: int| 0 <= j < b.len() ==> f.contains(#[trigger] b[j]) && (b[j].side == Side::Buy) == buy_side,
        forall|m: int| 0 <= m < f.len() && (#[trigger] f[m].side == Side::Buy) == buy_side ==> b.contains(f[m]),
    ensures
        side_listing(v, buy_side, b),
{
    assert forall|j: int| 0 <= j < b.len() implies is_fillable(v, (#[trigger] b[j]).id) && v.entries[b[j].id].order == b[j] by {
        assert(f.contains(b[j]));
        let m = choose|m: int| 0 <= m < f.len() && f[m] == b[j];
        assert(is_fillable(v, f[m].id));
    }
    assert forall|k: Seq<char>| #[trigger] is_fillable(v, k) && (v.entries[k].order.side == Side::Buy) == buy_side implies exists|j: int|
        0 <= j < b.len() && (#[trigger] b[j]).id == k by {
        let m = choose|m: int| 0 <= m < f.len() && (#[trigger] f[m]).id == k;
        assert(v.entries[f[m].id].order == f[m]);
        assert(b.contains(f[m]));
        let j = choose|j: int| 0 <= j < b.len() && b[j] == f[m];
        assert(b[j].id == k);
    }
}

/// Splits orders by side, keeping their order.
fn split_sides(f: &Vec<Order>) -> (r: (Vec<Order>, Vec<Order>))
    requires
        ids_distinct(views(f@)),
        forall|i: int| 0 <= i < f@.len() ==> (#[trigger] f@[i]).wf(),
    ensures
        forall|j: int| 0 <= j < r.0@.len() ==> views(f@).contains(#[trigger] views(r.0@)[j]) && views(r.0@)[j].side == Side::Buy,
        forall|m: int| 0 <= m < f@.len() && (#[trigger] views(f@)[m]).side == Side::Buy ==> views(r.0@).contains(views(f@)[m]),
        forall|j: int| 0 <= j < r.1@.len() ==> views(f@).contains(#[trigger] views(r.1@)[j]) && views(r.1@)[j].side != Side::Buy,
        forall|m: int| 0 <= m < f@.len() && (#[trigger] views(f@)[m]).side != Side::Buy ==> views(r.1@).contains(views(f@)[m]),
        ids_distinct(views(r.0@)),
        ids_distinct(views(r.1@)),
        forall|i: int| 0 <= i < r.0@.len() ==> (#[trigger] r.0@[i]).wf(),
        forall|i: int| 0 <= i < r.1@.len() ==> (#[trigger] r.1@[i]).wf(),
{
    let ghost fv = views(f@);
    let mut buys: Vec<Order> = Vec::new();
    let mut sells: Vec<Order> = Vec::new();
    let mut i: usize = 0;
    while i < f.len()
        invariant
            fv == views(f@),
            i <= f@.len(),
            ids_distinct(fv),
            forall|k: int| 0 <= k < f@.len() ==> (#[trigger] f@[k]).wf(),
            forall|j: int| 0 <= j < buys@.len() ==> fv.take(i as int).contains(#[trigger] views(buys@)[j]) && views(buys@)[j].side == Side::Buy,
            forall|m: int| 0 <= m < i && (#[trigger] fv[m]).side == Side::Buy ==> views(buys@).contains(fv[m]),
            forall|j: int| 0 <= j < sells@.len() ==> fv.take(i as int).contains(#[trigger] views(sells@)[j]) && views(sells@)[j].side != Side::Buy,
            forall|m: int| 0 <= m < i && (#[trigger] fv[m]).side != Side::Buy ==> views(sells@).contains(fv[m]),
            ids_distinct(views(buys@)),
            ids_distinct(views(sells@)),
            forall|k: int| 0 <= k < buys@.len() ==> (#[trigger] buys@[k]).wf(),
            forall|k: int| 0 <= k < sells@.len() ==> (#[trigger] sells@[k]).wf(),
        decreases f@.len() - i,
    {
        let o = f[i].clone();
        let ghost ov = o@;
        proof {
            assert(fv[i as int] == ov);
            assert(f@[i as int].wf());
            assert(fv.take(i + 1) =~= fv.take(i as int).push(ov));
            assert forall|x: OrderView| fv.take(i as int).contains(x) implies fv.take(i + 1).contains(x) && x.id != ov.id by {
                let m = choose|m: int| 0 <= m < i && fv.take(i as int)[m] == x;
                assert(fv.take(i + 1)[m] == x);
                assert(fv[m] == x);
            }
        }
        if o.side == Side::Buy {
            let ghost before = views(buys@);
            let ghost old_b = buys@;
            buys.push(o);
            proof {
                assert(views(buys@) =~= before.push(ov));
                assert forall|m: int| 0 <= m < i + 1 && (#[trigger] fv[m]).side == Side::Buy implies views(buys@).contains(fv[m]) by {
                    if m == i {
                        assert(views(buys@)[before.len() as int] == fv[m]);
                    } else {
                        assert(before.contains(fv[m]));
                        let j = choose|j: int| 0 <= j < before.len() && before[j] == fv[m];
                        assert(views(buys@)[j] == fv[m]);
                    }
                }
                assert forall|j: int| 0 <= j < buys@.len() implies fv.take(i + 1).contains(#[trigger] views(buys@)[j]) && views(buys@)[j].side == Side::Buy by {
                    if j == before.len() {
                        assert(fv.take(i + 1)[i as int] == ov);
                    } else {
                        assert(views(buys@)[j] == before[j]);
                    }
                }
                assert forall|a: int, b: int| 0 <= a < b < buys@.len() implies #[trigger] views(buys@)[a].id != #[trigger] views(buys@)[b].id by {
                    if b == before.len() {
                        assert(views(buys@)[a] == before[a]);
                        assert(fv.take(i as int).contains(before[a]));
                    } else {
                        assert(views(buys@)[a] == before[a]);
                        assert(views(buys@)[b] == before[b]);
                    }
                }
                assert forall|j: int| 0 <= j < sells@.len() implies fv.take(i + 1).contains(#[trigger] views(sells@)[j]) && views(sells@)[j].side != Side::Buy by {
                    assert(fv.take(i as int).contains(views(sells@)[j]));
                }
                assert forall|k: int| 0 <= k < buys@.len() implies (#[trigger] buys@[k]).wf() by {
                    if k < before.len() {
                        assert(buys@[k] == old_b[k]);
                    }
                }
            }
        } else {
            let ghost before = views(sells@);
            let ghost old_s = sells@;
            sells.push(o);
            proof {
                assert(views(sells@) =~= before.push(ov));
                assert forall|m: int| 0 <= m < i + 1 && (#[trigger] fv[m]).side != Side::Buy implies views(sells@).contains(fv[m]) by {
                    if m == i {
                        assert(views(sells@)[before.len() as int] == fv[m]);
                    } else {
                        assert(before.contains(fv[m]));
                        let j = choose|j: int| 0 <= j < before.len() && before[j] == fv[m];
                        assert(views(sells@)[j] == fv[m]);
                    }
                }
                assert forall|j: int| 0 <= j < sells@.len() implies fv.take(i + 1).contains(#[trigger] views(sells@)[j]) && views(sells@)[j].side != Side::Buy by {
                    if j == before.len() {
                        assert(fv.take(i + 1)[i as int] == ov);
                    } else {
                        assert(views(sells@)[j] == before[j]);
                    }
                }
                assert forall|a: int, b: int| 0 <= a < b < sells@.len() implies #[trigger] views(sells@)[a].id != #[trigger] views(sells@)[b].id by {
                    if b == before.len() {
                        assert(views(sells@)[a] == before[a]);
                        assert(fv.take(i as int).contains(before[a]));
                    } else {
                        assert(views(sells@)[a] == before[a]);
                        assert(views(sells@)[b] == before[b]);
                    }
                }
                assert forall|j: int| 0 <= j < buys@.len() implies fv.take(i + 1).contains(#[trigger] views(buys@)[j]) && views(buys@)[j].side == Side::Buy by {
                    assert(fv.take(i as int).contains(views(buys@)[j]));
                }
                assert forall|k: int| 0 <= k < sells@.len() implies (#[trigger] sells@[k]).wf() by {
                    if k < before.len() {
                        assert(sells@[k] == old_s[k]);
                    }
                }
            }
        }
        i = i + 1;
    }
    proof {
        assert(fv.take(i as int) =~= fv);
    }
    (buys, sells)
}


/// Scan the book for crossing orders and produce trade proposals, stamping
/// tombstones with `now`. Mutates the book: records fills and tombstones
/// fully filled orders. Returns trades in the order they were matched
/// (price-then-time).
pub fn find_matches_at(book: &mut OrderBook, now: i64) -> (r: Result<Vec<Trade>, String>)
    requires
        old(book).wf(),
        counter(old(book)@.clock, old(book)@.local_peer) + 2 * old(book)@.entries.dom().len() <= u64::MAX,
    ensures
        final(book).wf(),
        !remainders_defined(old(book)@) ==> r is Err && final(book)@ == old(book)@,
        remainders_defined(old(book)@) ==> exists|b: Seq<OrderView>, s: Seq<OrderView>|
            #![trigger side_listing(old(book)@, true, b), side_listing(old(book)@, false, s)]
            side_listing(old(book)@, true, b) && side_listing(old(book)@, false, s) && {
                let run = match_run(old(book)@, b, s, 0, 0, old(book)@.clock, now, stall_budget());
                &&& final(book)@ == run.book
                &&& run.failed ==> r is Err
                &&& !run.failed ==> (r matches Ok(ts) && trade_views(ts@) == run.trades)
            },
        r is Ok ==> no_cross_left(final(book)@),
        r matches Ok(ts) ==> forall|k: int| 0 <= k < ts@.len() ==> names_earlier_order(#[trigger] ts@[k]@),
{
    proof {
        reveal_strlit("remaining amount overflow");
        book.lemma_wf();
    }
    let ghost v0 = book@;
    let fillable = match book.fillable_orders_checked() {
        Some(f) => f,
        None => {
            let mut m = String::new();
            push_str(&mut m, "remaining amount overflow");
            return Err(m);
        },
    };
    let ghost fv = views(fillable@);
    proof {
        assert(fv == order_views(fillable@));
        assert(ids_distinct(fv));
    }
    let (buys0, sells0) = split_sides(&fillable);
    let buys = sort_by_priority(&buys0, true);
    let sells = sort_by_priority(&sells0, false);
    let ghost bv = views(buys@);
    let ghost sv = views(sells@);
    proof {
        assert forall|j: int| 0 <= j < bv.len() implies fv.contains(#[trigger] bv[j]) && (bv[j].side == Side::Buy) == true by {
            to_multiset_contains(bv, bv[j]);
            to_multiset_contains(views(buys0@), bv[j]);
            assert(bv.contains(bv[j]));
            let k = choose|k: int| 0 <= k < views(buys0@).len() && views(buys0@)[k] == bv[j];
            assert(fv.contains(views(buys0@)[k]));
        }
        assert forall|m: int| 0 <= m < fv.len() && (#[trigger] fv[m].side == Side::Buy) == true implies bv.contains(fv[m]) by {
            assert(views(buys0@).contains(fv[m]));
            to_multiset_contains(views(buys0@), fv[m]);
            to_multiset_contains(bv, fv[m]);
        }
        lemma_side_listing(v0, true, fv, bv);
        assert forall|j: int| 0 <= j < sv.len() implies fv.contains(#[trigger] sv[j]) && (sv[j].side == Side::Buy) == false by {
            to_multiset_contains(sv, sv[j]);
            to_multiset_contains(views(sells0@), sv[j]);
            assert(sv.contains(sv[j]));
            let k = choose|k: int| 0 <= k < views(sells0@).len() && views(sells0@)[k] == sv[j];
            assert(fv.contains(views(sells0@)[k]));
        }
        assert forall|m: int| 0 <= m < fv.len() && (#[trigger] fv[m].side == Side::Buy) == false implies sv.contains(fv[m]) by {
            assert(views(sells0@).contains(fv[m]));
            to_multiset_contains(views(sells0@), fv[m]);
            to_multiset_contains(sv, fv[m]);
        }
        lemma_side_listing(v0, false, fv, sv);
        let both = bv + sv;
        assert forall|a: int, b: int| 0 <= a < b < both.len() implies #[trigger] both[a].id != #[trigger] both[b].id by {
            if b < bv.len() {
                assert(both[a] == bv[a] && both[b] == bv[b]);
            } else if a >= bv.len() {
                assert(both[a] == sv[a - bv.len()] && both[b] == sv[b - bv.len()]);
            } else {
                assert(both[a] == bv[a] && both[b] == sv[b - bv.len()]);
                assert(v0.entries[bv[a].id].order == bv[a]);
                assert(v0.entries[sv[b - bv.len()].id].order == sv[b - bv.len()]);
            }
        }
        assert forall|i: int| 0 <= i < both.len() implies v0.entries.dom().contains(#[trigger] both[i].id) by {
            if i < bv.len() {
                assert(both[i] == bv[i]);
                assert(is_fillable(v0, bv[i].id));
            } else {
                assert(both[i] == sv[i - bv.len()]);
                assert(is_fillable(v0, sv[i - bv.len()].id));
            }
        }
        lemma_distinct_ids_bounded(both, v0.entries.dom());
    }
    let clock_at_start = book.clock().clone();
    let ghost c0 = v0.clock;
    let ghost lp = v0.local_peer;
    let mut trades: Vec<Trade> = Vec::new();
    let mut bi: usize = 0;
    let mut si: usize = 0;
    let mut stalls_left: u64 = u64::MAX;
    proof {
        assert(trade_views(trades@) =~= Seq::<TradeView>::empty());
        assert(run_extend(Seq::empty(), match_run(v0, bv, sv, 0, 0, c0, now, stall_budget())) =~= match_run(v0, bv, sv, 0, 0, c0, now, stall_budget()));
    }
    while bi < buys.len() && si < sells.len()
        invariant
            book.wf(),
            bv == views(buys@),
            sv == views(sells@),
            clock_at_start@ == c0,
            bi <= bv.len(),
            si <= sv.len(),
            book@.local_peer == lp,
            book@.entries.dom() == v0.entries.dom(),
            side_listing(v0, true, bv),
            side_listing(v0, false, sv),
            v0 == old(book)@,
            c0 == v0.clock,
            lp == v0.local_peer,
            remainders_defined(v0),
            counter(book@.clock, lp) + 2 * ((bv.len() - bi) + (sv.len() - si)) <= u64::MAX,
            match_run(v0, bv, sv, 0, 0, c0, now, stall_budget()) == run_extend(trade_views(trades@), match_run(book@, bv, sv, bi as nat, si as nat, c0, now, stalls_left as nat)),
        ensures
            book.wf(),
            side_listing(v0, true, bv),
            side_listing(v0, false, sv),
            v0 == old(book)@,
            match_run(v0, bv, sv, 0, 0, c0, now, stall_budget()) == run_extend(trade_views(trades@), run_done(book@)),
        decreases (bv.len() - bi) + (sv.len() - si), stalls_left,
    {
        proof {
            book.lemma_wf();
        }
        let ghost v = book@;
        let buy = &buys[bi];
        let sell = &sells[si];
        let buy_price = order_price(buy);
        let sell_price = order_price(sell);
        if dec_less(buy_price, sell_price) {
            proof {
                assert(match_run(book@, bv, sv, bi as nat, si as nat, c0, now, stalls_left as nat) == run_done(book@));
            }
            break;
        }
        let buy_rem = match book.remaining_checked(buy.id.as_str()) {
            Some(d) => d,
            None => {
                proof {
                    assert(match_run(book@, bv, sv, bi as nat, si as nat, c0, now, stalls_left as nat) == run_failed(book@));
                    assert(side_listing(old(book)@, true, bv) && side_listing(old(book)@, false, sv));
                    assert(match_run(old(book)@, bv, sv, 0, 0, old(book)@.clock, now, stall_budget()).failed);
                    assert(match_run(old(book)@, bv, sv, 0, 0, old(book)@.clock, now, stall_budget()).book == book@);
                }
                let mut m = String::new();
                push_str(&mut m, "remaining amount overflow");
                return Err(m);
            },
        };
        let sell_rem = match book.remaining_checked(sell.id.as_str()) {
            Some(d) => d,
            None => {
                proof {
                    assert(match_run(book@, bv, sv, bi as nat, si as nat, c0, now, stalls_left as nat) == run_failed(book@));
                    assert(side_listing(old(book)@, true, bv) && side_listing(old(book)@, false, sv));
                    assert(match_run(old(book)@, bv, sv, 0, 0, old(book)@.clock, now, stall_budget()).failed);
                    assert(match_run(old(book)@, bv, sv, 0, 0, old(book)@.clock, now, stall_budget()).book == book@);
                }
                let mut m = String::new();
                push_str(&mut m, "remaining amount overflow");
                return Err(m);
            },
        };
        if !dec_less(Dec::zero(), buy_rem) {
            bi = bi + 1;
            continue;
        }
        if !dec_less(Dec::zero(), sell_rem) {
            si = si + 1;
            continue;
        }
        let amount = dec_min(buy_rem, sell_rem);
        let trade = make_trade(buy, sell, amount, &clock_at_start);
        proof {
            assert(is_fillable(v0, bv[bi as int].id));
            assert(book@.entries.dom().contains(bv[bi as int].id));
        }
        match book.record_fill_checked(buy.id.as_str(), amount) {
            Ok(()) => {},
            Err(e) => return Err(e),
        }
        let ghost v1 = book@;
        proof {
            assert(v1 == fill_book(v, bv[bi as int].id, amount).unwrap());
            assert(book@.entries.dom().contains(sv[si as int].id));
        }
        match book.record_fill_checked(sell.id.as_str(), amount) {
            Ok(()) => {},
            Err(e) => return Err(e),
        }
        let ghost v2 = book@;
        proof {
            assert(v2 == fill_book(v1, sv[si as int].id, amount).unwrap());
        }
        let buy_rem2 = match book.remaining_checked(buy.id.as_str()) {
            Some(d) => d,
            None => {
                let mut m = String::new();
                push_str(&mut m, "remaining amount overflow");
                return Err(m);
            },
        };
        let buy_done = !dec_less(Dec::zero(), buy_rem2);
        if buy_done {
            let _ = book.mark_filled_at(buy.id.as_str(), now);
            proof {
                lemma_tick_result(book@.clock, v2.clock, lp);
                assert(book@ == mark_book(v2, bv[bi as int].id, now));
            }
        }
        let ghost v3 = book@;
        let sell_rem2 = match book.remaining_checked(sell.id.as_str()) {
            Some(d) => d,
            None => {
                let mut m = String::new();
                push_str(&mut m, "remaining amount overflow");
                return Err(m);
            },
        };
        let sell_done = !dec_less(Dec::zero(), sell_rem2);
        if sell_done {
            let _ = book.mark_filled_at(sell.id.as_str(), now);
            proof {
                lemma_tick_result(book@.clock, v3.clock, lp);
                assert(book@ == mark_book(v3, sv[si as int].id, now));
            }
        }
        let ghost sl = stalls_left;
        if !buy_done && !sell_done {
            if stalls_left == 0 {
                proof {
                    assert(match_run(v, bv, sv, bi as nat, si as nat, c0, now, stalls_left as nat).failed);
                    assert(match_run(v, bv, sv, bi as nat, si as nat, c0, now, stalls_left as nat).book == book@);
                    assert(side_listing(old(book)@, true, bv) && side_listing(old(book)@, false, sv));
                    assert(match_run(old(book)@, bv, sv, 0, 0, old(book)@.clock, now, stall_budget()).failed);
                    assert(match_run(old(book)@, bv, sv, 0, 0, old(book)@.clock, now, stall_budget()).book == book@);
                }
                let mut m = String::new();
                push_str(&mut m, "matching stalled: neither order of the trade was filled");
                return Err(m);
            }
            stalls_left = stalls_left - 1;
        }
        let ghost before = trades@;
        trades.push(trade);
        proof {
            let nb: nat = if buy_done { (bi + 1) as nat } else { bi as nat };
            let ns: nat = if buy_done { si as nat } else if sell_done { (si + 1) as nat } else { si as nat };
            let rest = match_run(book@, bv, sv, nb, ns, c0, now, stalls_left as nat);
            assert(match_run(v, bv, sv, bi as nat, si as nat, c0, now, sl as nat) == run_after(trade@, rest));
            assert(trade_views(trades@) =~= trade_views(before).push(trade@));
            assert(trade_views(before).push(trade@) + rest.trades =~= trade_views(before) + (seq![trade@] + rest.trades));
        }
        if buy_done {
            bi = bi + 1;
        } else if sell_done {
            si = si + 1;
        }
    }
    proof {
        if bi >= buys.len() || si >= sells.len() {
        }
        assert(trade_views(trades@) + Seq::<TradeView>::empty() =~= trade_views(trades@));
        assert(side_listing(old(book)@, true, bv) && side_listing(old(book)@, false, sv));
        law_no_cross_left(old(book)@, bv, sv, now);
        law_trades_follow_resting_order(old(book)@, bv, sv, 0, 0, c0, now, stall_budget());
        assert forall|k: int| 0 <= k < trades@.len() implies names_earlier_order(#[trigger] trades@[k]@) by {
            assert(trade_views(trades@)[k] == trades@[k]@);
        }
    }
    Ok(trades)
}


/// Scan the book for crossing orders and produce trade proposals.
/// Mutates the book: records fills and tombstones fully filled orders,
/// stamped with the system time read once at the start. The trades, and
/// whether matching succeeds, do not depend on that reading.
///
/// Returns trades in the order they were matched (price-then-time).
pub fn find_matches(book: &mut OrderBook) -> (r: Result<Vec<Trade>, String>)
    requires
        old(book).wf(),
        counter(old(book)@.clock, old(book)@.local_peer) + 2 * old(book)@.entries.dom().len() <= u64::MAX,
    ensures
        final(book).wf(),
        !remainders_defined(old(book)@) ==> r is Err && final(book)@ == old(book)@,
        remainders_defined(old(book)@) ==> exists|b: Seq<OrderView>, s: Seq<OrderView>, now: i64|
            #![trigger side_listing(old(book)@, true, b), side_listing(old(book)@, false, s), match_run(old(book)@, b, s, 0, 0, old(book)@.clock, now, stall_budget())]
            side_listing(old(book)@, true, b) && side_listing(old(book)@, false, s) && {
                let run = match_run(old(book)@, b, s, 0, 0, old(book)@.clock, now, stall_budget());
                &&& final(book)@ == run.book
                &&& run.failed ==> r is Err
                &&& !run.failed ==> (r matches Ok(ts) && trade_views(ts@) == run.trades)
            },
        remainders_defined(old(book)@) ==> exists|b: Seq<OrderView>, s: Seq<OrderView>|
            #![trigger side_listing(old(book)@, true, b), side_listing(old(book)@, false, s)]
            side_listing(old(book)@, true, b) && side_listing(old(book)@, false, s) && {
                let run0 = match_run(old(book)@, b, s, 0, 0, old(book)@.clock, 0, stall_budget());
                &&& run0.failed ==> r is Err
                &&& !run0.failed ==> (r matches Ok(ts) && trade_views(ts@) == run0.trades)
            },
        r is Ok ==> no_cross_left(final(book)@),
        r matches Ok(ts) ==> forall|k: int| 0 <= k < ts@.len() ==> names_earlier_order(#[trigger] ts@[k]@),
{
    let now = now_secs();
    let r = find_matches_at(book, now);
    proof {
        if remainders_defined(old(book)@) {
            let (b, s) = choose|b: Seq<OrderView>, s: Seq<OrderView>| side_listing(old(book)@, true, b) && side_listing(old(book)@, false, s) && {
                let run = match_run(old(book)@, b, s, 0, 0, old(book)@.clock, now, stall_budget());
                &&& final(book)@ == run.book
                &&& run.failed ==> r is Err
                &&& !run.failed ==> (r matches Ok(ts) && trade_views(ts@) == run.trades)
            };
            assert(match_run(old(book)@, b, s, 0, 0, old(book)@.clock, now, stall_budget()) == match_run(old(book)@, b, s, 0, 0, old(book)@.clock, now, stall_budget()));
            law_trades_independent_of_time(old(book)@, b, s, now, 0);
        }
    }
    r
}

/// Two lists in strict priority order that hold the same orders are the same list.
pub proof fn lemma_priority_order_unique(buy_side: bool, a: Seq<OrderView>, b: Seq<OrderView>)
    requires
        in_priority_order(buy_side, a),
        in_priority_order(buy_side, b),
        forall|x: OrderView| a.contains(x) == b.contains(x),
    ensures
        a == b,
    decreases a.len(),
{
    if a.len() == 0 {
        if b.len() > 0 {
            assert(b.contains(b[0]));
        }
        assert(a =~= b);
    } else {
        assert(a.contains(a[0]));
        assert(b.len() > 0);
        assert(b.contains(b[0]));
        if a[0] != b[0] {
            let i = choose|i: int| 0 <= i < b.len() && b[i] == a[0];
            let j = choose|j: int| 0 <= j < a.len() && a[j] == b[0];
            assert(i > 0);
            assert(j > 0);
            assert(precedes(buy_side, b[0], b[i]));
            assert(precedes(buy_side, a[0], a[j]));
            lemma_precedes_asymmetric(buy_side, a[0], b[0]);
        }
        let a2 = a.drop_first();
        let b2 = b.drop_first();
        assert forall|x: OrderView| a2.contains(x) == b2.contains(x) by {
            if a2.contains(x) {
                let i = choose|i: int| 0 <= i < a2.len() && a2[i] == x;
                assert(a[i + 1] == x);
                assert(precedes(buy_side, a[0], a[i + 1]));
                if x == a[0] {
                    lemma_precedes_asymmetric(buy_side, a[0], a[0]);
                }
                assert(b.contains(x));
                let j = choose|j: int| 0 <= j < b.len() && b[j] == x;
                assert(j != 0);
                assert(b2[j - 1] == x);
            }
            if b2.contains(x) {
                let i = choose|i: int| 0 <= i < b2.len() && b2[i] == x;
                assert(b[i + 1] == x);
                assert(precedes(buy_side, b[0], b[i + 1]));
                if x == b[0] {
                    lemma_precedes_asymmetric(buy_side, b[0], b[0]);
                }
                assert(a.contains(x));
                let j = choose|j: int| 0 <= j < a.len() && a[j] == x;
                assert(j != 0);
                assert(a2[j - 1] == x);
            }
        }
        lemma_priority_order_unique(buy_side, a2, b2);
        assert(a =~= seq![a[0]] + a2);
        assert(b =~= seq![b[0]] + b2);
    }
}

/// Each side of a book has exactly one listing in priority order: matching
/// does not depend on the order in which orders arrived.
pub proof fn law_side_listing_unique(v: BookView, buy_side: bool, a: Seq<OrderView>, b: Seq<OrderView>)
    requires
        side_listing(v, buy_side, a),
        side_listing(v, buy_side, b),
    ensures
        a == b,
{
    assert forall|x: OrderView| a.contains(x) implies b.contains(x) by {
        let i = choose|i: int| 0 <= i < a.len() && a[i] == x;
        assert(is_fillable(v, a[i].id) && (v.entries[a[i].id].order.side == Side::Buy) == buy_side);
        let j = choose|j: int| 0 <= j < b.len() && (#[trigger] b[j]).id == a[i].id;
        assert(b[j] == x);
    }
    assert forall|x: OrderView| b.contains(x) implies a.contains(x) by {
        let i = choose|i: int| 0 <= i < b.len() && b[i] == x;
        assert(is_fillable(v, b[i].id) && (v.entries[b[i].id].order.side == Side::Buy) == buy_side);
        let j = choose|j: int| 0 <= j < a.len() && (#[trigger] a[j]).id == b[i].id;
        assert(a[j] == x);
    }
    lemma_priority_order_unique(buy_side, a, b);
}

/// Matching is deterministic: nodes that hold the same book at the same
/// moment run the same matching, end with the same book and propose
/// byte-identical trades, whatever order the orders arrived in.
pub proof fn law_matching_deterministic(
    v: BookView,
    now: i64,
    b1: Seq<OrderView>,
    s1: Seq<OrderView>,
    b2: Seq<OrderView>,
    s2: Seq<OrderView>,
)
    requires
        side_listing(v, true, b1),
        side_listing(v, false, s1),
        side_listing(v, true, b2),
        side_listing(v, false, s2),
    ensures
        match_run(v, b1, s1, 0, 0, v.clock, now, stall_budget()) == match_run(v, b2, s2, 0, 0, v.clock, now, stall_budget()),
{
    law_side_listing_unique(v, true, b1, b2);
    law_side_listing_unique(v, false, s1, s2);
}

/// The trade `t` pairs a buy from `b` and a sell from `s`, at or after the
/// given positions, whose prices cross, for a positive amount.
pub open spec fn crossing_trade(
    b: Seq<OrderView>,
    s: Seq<OrderView>,
    bi: nat,
    si: nat,
    clock0: Seq<(Seq<char>, u64)>,
    t: TradeView,
) -> bool {
    exists|i: int, j: int, a: Dec|
        bi <= i < b.len() && si <= j < s.len() && !dec_lt(price_of(b[i]), price_of(s[j])) && dec_lt(dec_zero(), a)
            && t == #[trigger] trade_of(b[i], s[j], a, clock0)
}

/// Every proposed trade pairs a buy with a sell whose prices cross (the bid
/// is at least the ask), for a positive amount, at the resting order's price.
pub proof fn law_trades_cross(
    v: BookView,
    b: Seq<OrderView>,
    s: Seq<OrderView>,
    bi: nat,
    si: nat,
    clock0: Seq<(Seq<char>, u64)>,
    now: i64,
    fuel: nat,
)
    ensures
        forall|k: int|
            0 <= k < match_run(v, b, s, bi, si, clock0, now, fuel).trades.len() ==> crossing_trade(
                b,
                s,
                bi,
                si,
                clock0,
                #[trigger] match_run(v, b, s, bi, si, clock0, now, fuel).trades[k],
            ),
    decreases (b.len() - bi) + (s.len() - si), fuel,
{
    let run = match_run(v, b, s, bi, si, clock0, now, fuel);
    if bi >= b.len() || si >= s.len() {
    } else {
        let buy = b[bi as int];
        let sell = s[si as int];
        if dec_lt(price_of(buy), price_of(sell)) {
        } else if remaining_of(v, buy.id) is None || remaining_of(v, sell.id) is None {
        } else {
            let rb = remaining_of(v, buy.id).unwrap();
            let rs = remaining_of(v, sell.id).unwrap();
            if !dec_lt(dec_zero(), rb) {
                law_trades_cross(v, b, s, bi + 1, si, clock0, now, fuel);
                assert(run == match_run(v, b, s, bi + 1, si, clock0, now, fuel));
                assert forall|k: int| 0 <= k < run.trades.len() implies crossing_trade(b, s, bi, si, clock0, #[trigger] run.trades[k]) by {
                    assert(crossing_trade(b, s, bi + 1, si, clock0, run.trades[k]));
                }
            } else if !dec_lt(dec_zero(), rs) {
                law_trades_cross(v, b, s, bi, si + 1, clock0, now, fuel);
                assert(run == match_run(v, b, s, bi, si + 1, clock0, now, fuel));
                assert forall|k: int| 0 <= k < run.trades.len() implies crossing_trade(b, s, bi, si, clock0, #[trigger] run.trades[k]) by {
                    assert(crossing_trade(b, s, bi, si + 1, clock0, run.trades[k]));
                }
            } else {
                let amount = if dec_lt(rs, rb) {
                    rs
                } else {
                    rb
                };
                let t = trade_of(buy, sell, amount, clock0);
                assert(crossing_trade(b, s, bi, si, clock0, t));
                match fill_book(v, buy.id, amount) {
                    None => {},
                    Some(v1) => match fill_book(v1, sell.id, amount) {
                        None => {},
                        Some(v2) => match remaining_of(v2, buy.id) {
                            None => {},
                            Some(rb2) => {
                                let buy_done = !dec_lt(dec_zero(), rb2);
                                let v3 = if buy_done {
                                    mark_book(v2, buy.id, now)
                                } else {
                                    v2
                                };
                                match remaining_of(v3, sell.id) {
                                    None => {},
                                    Some(rs2) => {
                                        let sell_done = !dec_lt(dec_zero(), rs2);
                                        let v4 = if sell_done {
                                            mark_book(v3, sell.id, now)
                                        } else {
                                            v3
                                        };
                                        if !buy_done && !sell_done && fuel == 0 {
                                        } else {
                                            let (nb, ns, nf): (nat, nat, nat) = if buy_done {
                                                (bi + 1, si, fuel)
                                            } else if sell_done {
                                                (bi, si + 1, fuel)
                                            } else {
                                                (bi, si, (fuel - 1) as nat)
                                            };
                                            let rest = match_run(v4, b, s, nb, ns, clock0, now, nf);
                                            law_trades_cross(v4, b, s, nb, ns, clock0, now, nf);
                                            assert(run.trades == seq![t] + rest.trades);
                                            assert forall|k: int| 0 <= k < run.trades.len() implies crossing_trade(b, s, bi, si, clock0, #[trigger] run.trades[k]) by {
                                                if k > 0 {
                                                    assert(run.trades[k] == rest.trades[k - 1]);
                                                    assert(crossing_trade(b, s, nb, ns, clock0, rest.trades[k - 1]));
                                                }
                                            }
                                        }
                                    },
                                }
                            },
                        },
                    },
                }
            }
        }
    }
}

/// The earlier of two order ids: the smaller in byte order.
pub open spec fn earlier_id(a: Seq<char>, b: Seq<char>) -> Seq<char> {
    if key_lt(a, b) {
        a
    } else {
        b
    }
}

/// The later of two order ids: the larger in byte order.
pub open spec fn later_id(a: Seq<char>, b: Seq<char>) -> Seq<char> {
    if key_lt(a, b) {
        b
    } else {
        a
    }
}

/// A trade names its two orders earlier id first: its id is
/// `trade-{earlier}-{later}-{amount}`, and its time is the one in the
/// earlier id, whichever side the earlier order is on.
pub open spec fn names_earlier_order(t: TradeView) -> bool {
    let first = earlier_id(t.buy_order_id, t.sell_order_id);
    &&& t.id == "trade-"@ + first + "-"@ + later_id(t.buy_order_id, t.sell_order_id) + "-"@ + t.amount
    &&& t.created_at == order_id_timestamp(first)
}

/// Every proposed trade names its orders earlier id first (the order that
/// was resting), is stamped with the time in the earlier id, pairs a buy
/// from `b` with a sell from `s` (at or after the given positions) whose
/// prices cross, and executes at the earlier order's price.
pub proof fn law_trades_follow_resting_order(
    v: BookView,
    b: Seq<OrderView>,
    s: Seq<OrderView>,
    bi: nat,
    si: nat,
    clock0: Seq<(Seq<char>, u64)>,
    now: i64,
    fuel: nat,
)
    ensures
        forall|k: int|
            0 <= k < match_run(v, b, s, bi, si, clock0, now, fuel).trades.len() ==> names_earlier_order(
                #[trigger] match_run(v, b, s, bi, si, clock0, now, fuel).trades[k],
            ) && exists|i: int, j: int|
                #![trigger b[i], s[j]]
                bi <= i < b.len() && si <= j < s.len() && b[i].id == match_run(v, b, s, bi, si, clock0, now, fuel).trades[k].buy_order_id
                    && s[j].id == match_run(v, b, s, bi, si, clock0, now, fuel).trades[k].sell_order_id
                    && !dec_lt(price_of(b[i]), price_of(s[j]))
                    && match_run(v, b, s, bi, si, clock0, now, fuel).trades[k].price == decimal_text(
                    if key_lt(b[i].id, s[j].id) {
                        price_of(b[i])
                    } else {
                        price_of(s[j])
                    },
                ),
{
    let run = match_run(v, b, s, bi, si, clock0, now, fuel);
    law_trades_cross(v, b, s, bi, si, clock0, now, fuel);
    assert forall|k: int| 0 <= k < run.trades.len() implies names_earlier_order(#[trigger] run.trades[k]) && exists|i: int, j: int|
        #![trigger b[i], s[j]]
        bi <= i < b.len() && si <= j < s.len() && b[i].id == run.trades[k].buy_order_id && s[j].id == run.trades[k].sell_order_id
            && !dec_lt(price_of(b[i]), price_of(s[j])) && run.trades[k].price == decimal_text(
            if key_lt(b[i].id, s[j].id) {
                price_of(b[i])
            } else {
                price_of(s[j])
            },
        ) by {
        assert(crossing_trade(b, s, bi, si, clock0, run.trades[k]));
        let (i, j, a) = choose|i: int, j: int, a: Dec|
            bi <= i < b.len() && si <= j < s.len() && !dec_lt(price_of(b[i]), price_of(s[j])) && dec_lt(dec_zero(), a)
                && run.trades[k] == #[trigger] trade_of(b[i], s[j], a, clock0);
        assert(b[i].id == run.trades[k].buy_order_id && s[j].id == run.trades[k].sell_order_id);
    }
}

/// The trades `ts` use each side's orders in the listed order: a later trade
/// never uses a buy listed before the buy of an earlier trade, nor a sell
/// listed before the sell of an earlier trade.
pub open spec fn trades_follow_listing(b: Seq<OrderView>, s: Seq<OrderView>, ts: Seq<TradeView>) -> bool {
    &&& forall|k: int, l: int, i1: int, i2: int|
        #![trigger ts[k], ts[l], b[i1], b[i2]]
        0 <= k < l < ts.len() && 0 <= i1 < b.len() && 0 <= i2 < b.len() && b[i1].id == ts[k].buy_order_id
            && b[i2].id == ts[l].buy_order_id ==> i1 <= i2
    &&& forall|k: int, l: int, j1: int, j2: int|
        #![trigger ts[k], ts[l], s[j1], s[j2]]
        0 <= k < l < ts.len() && 0 <= j1 < s.len() && 0 <= j2 < s.len() && s[j1].id == ts[k].sell_order_id
            && s[j2].id == ts[l].sell_order_id ==> j1 <= j2
}

proof fn lemma_trades_at_or_after(
    v: BookView,
    b: Seq<OrderView>,
    s: Seq<OrderView>,
    bi: nat,
    si: nat,
    clock0: Seq<(Seq<char>, u64)>,
    now: i64,
    fuel: nat,
)
    requires
        ids_distinct(b),
        ids_distinct(s),
    ensures
        forall|k: int, i: int|
            0 <= k < match_run(v, b, s, bi, si, clock0, now, fuel).trades.len() && 0 <= i < b.len() && #[trigger] b[i].id
                == (#[trigger] match_run(v, b, s, bi, si, clock0, now, fuel).trades[k]).buy_order_id ==> i >= bi,
        forall|k: int, j: int|
            0 <= k < match_run(v, b, s, bi, si, clock0, now, fuel).trades.len() && 0 <= j < s.len() && #[trigger] s[j].id
                == (#[trigger] match_run(v, b, s, bi, si, clock0, now, fuel).trades[k]).sell_order_id ==> j >= si,
{
    let run = match_run(v, b, s, bi, si, clock0, now, fuel);
    law_trades_cross(v, b, s, bi, si, clock0, now, fuel);
    assert forall|k: int, i: int| 0 <= k < run.trades.len() && 0 <= i < b.len() && #[trigger] b[i].id
        == (#[trigger] run.trades[k]).buy_order_id implies i >= bi by {
        assert(crossing_trade(b, s, bi, si, clock0, run.trades[k]));
        let (i0, j0, a) = choose|i0: int, j0: int, a: Dec|
            bi <= i0 < b.len() && si <= j0 < s.len() && !dec_lt(price_of(b[i0]), price_of(s[j0])) && dec_lt(dec_zero(), a)
                && run.trades[k] == #[trigger] trade_of(b[i0], s[j0], a, clock0);
        if i != i0 {
            if i < i0 {
                assert(b[i].id != b[i0].id);
            } else {
                assert(b[i0].id != b[i].id);
            }
        }
    }
    assert forall|k: int, j: int| 0 <= k < run.trades.len() && 0 <= j < s.len() && #[trigger] s[j].id
        == (#[trigger] run.trades[k]).sell_order_id implies j >= si by {
        assert(crossing_trade(b, s, bi, si, clock0, run.trades[k]));
        let (i0, j0, a) = choose|i0: int, j0: int, a: Dec|
            bi <= i0 < b.len() && si <= j0 < s.len() && !dec_lt(price_of(b[i0]), price_of(s[j0])) && dec_lt(dec_zero(), a)
                && run.trades[k] == #[trigger] trade_of(b[i0], s[j0], a, clock0);
        if j != j0 {
            if j < j0 {
                assert(s[j].id != s[j0].id);
            } else {
                assert(s[j0].id != s[j].id);
            }
        }
    }
}

/// Matching takes each side's orders in the listed order: over any run, a
/// later trade never uses a buy listed before the buy of an earlier trade,
/// nor a sell listed before the sell of an earlier trade. With
/// `law_listing_price_time_priority`, the best-priced orders, and at one
/// price the earlier ids, are matched first.
pub proof fn law_matching_follows_priority(
    v: BookView,
    b: Seq<OrderView>,
    s: Seq<OrderView>,
    bi: nat,
    si: nat,
    clock0: Seq<(Seq<char>, u64)>,
    now: i64,
    fuel: nat,
)
    requires
        ids_distinct(b),
        ids_distinct(s),
    ensures
        trades_follow_listing(b, s, match_run(v, b, s, bi, si, clock0, now, fuel).trades),
    decreases (b.len() - bi) + (s.len() - si), fuel,
{
    let run = match_run(v, b, s, bi, si, clock0, now, fuel);
    if bi >= b.len() || si >= s.len() {
    } else {
        let buy = b[bi as int];
        let sell = s[si as int];
        if dec_lt(price_of(buy), price_of(sell)) {
        } else if remaining_of(v, buy.id) is None || remaining_of(v, sell.id) is None {
        } else {
            let rb = remaining_of(v, buy.id).unwrap();
            let rs = remaining_of(v, sell.id).unwrap();
            if !dec_lt(dec_zero(), rb) {
                law_matching_follows_priority(v, b, s, bi + 1, si, clock0, now, fuel);
            } else if !dec_lt(dec_zero(), rs) {
                law_matching_follows_priority(v, b, s, bi, si + 1, clock0, now, fuel);
            } else {
                let amount = if dec_lt(rs, rb) {
                    rs
                } else {
                    rb
                };
                let t = trade_of(buy, sell, amount, clock0);
                match fill_book(v, buy.id, amount) {
                    None => {},
                    Some(v1) => match fill_book(v1, sell.id, amount) {
                        None => {},
                        Some(v2) => match remaining_of(v2, buy.id) {
                            None => {},
                            Some(rb2) => {
                                let buy_done = !dec_lt(dec_zero(), rb2);
                                let v3 = if buy_done {
                                    mark_book(v2, buy.id, now)
                                } else {
                                    v2
                                };
                                match remaining_of(v3, sell.id) {
                                    None => {},
                                    Some(rs2) => {
                                        let sell_done = !dec_lt(dec_zero(), rs2);
                                        let v4 = if sell_done {
                                            mark_book(v3, sell.id, now)
                                        } else {
                                            v3
                                        };
                                        if !buy_done && !sell_done && fuel == 0 {
                                        } else {
                                            let (nb, ns, nf): (nat, nat, nat) = if buy_done {
                                                (bi + 1, si, fuel)
                                            } else if sell_done {
                                                (bi, si + 1, fuel)
                                            } else {
                                                (bi, si, (fuel - 1) as nat)
                                            };
                                            let rest = match_run(v4, b, s, nb, ns, clock0, now, nf);
                                            law_matching_follows_priority(v4, b, s, nb, ns, clock0, now, nf);
                                            lemma_trades_at_or_after(v4, b, s, nb, ns, clock0, now, nf);
                                            assert(run.trades == seq![t] + rest.trades);
                                            let ts = run.trades;
                                            assert forall|k: int, l: int, i1: int, i2: int|
                                                #![trigger ts[k], ts[l], b[i1], b[i2]]
                                                0 <= k < l < ts.len() && 0 <= i1 < b.len() && 0 <= i2 < b.len() && b[i1].id
                                                    == ts[k].buy_order_id && b[i2].id == ts[l].buy_order_id implies i1 <= i2 by {
                                                assert(ts[l] == rest.trades[l - 1]);
                                                if k == 0 {
                                                    assert(ts[0] == t);
                                                    if i1 != bi {
                                                        if i1 < bi {
                                                            assert(b[i1].id != b[bi as int].id);
                                                        } else {
                                                            assert(b[bi as int].id != b[i1].id);
                                                        }
                                                    }
                                                    assert(b[i2].id == rest.trades[l - 1].buy_order_id);
                                                } else {
                                                    assert(ts[k] == rest.trades[k - 1]);
                                                }
                                            }
                                            assert forall|k: int, l: int, j1: int, j2: int|
                                                #![trigger ts[k], ts[l], s[j1], s[j2]]
                                                0 <= k < l < ts.len() && 0 <= j1 < s.len() && 0 <= j2 < s.len() && s[j1].id
                                                    == ts[k].sell_order_id && s[j2].id == ts[l].sell_order_id implies j1 <= j2 by {
                                                assert(ts[l] == rest.trades[l - 1]);
                                                if k == 0 {
                                                    assert(ts[0] == t);
                                                    if j1 != si {
                                                        if j1 < si {
                                                            assert(s[j1].id != s[si as int].id);
                                                        } else {
                                                            assert(s[si as int].id != s[j1].id);
                                                        }
                                                    }
                                                    assert(s[j2].id == rest.trades[l - 1].sell_order_id);
                                                } else {
                                                    assert(ts[k] == rest.trades[k - 1]);
                                                }
                                            }
                                        }
                                    },
                                }
                            },
                        },
                    },
                }
            }
        }
    }
}

/// Price-time priority within a side: buys go from the highest price to
/// the lowest, sells from the lowest to the highest, and orders at one
/// price go by id ascending (the earlier order first), on both sides.
pub proof fn law_listing_price_time_priority(v: BookView, buy_side: bool, s: Seq<OrderView>)
    requires
        side_listing(v, buy_side, s),
    ensures
        forall|i: int, j: int|
            0 <= i < j < s.len() ==> (buy_side ==> !dec_lt(price_of(#[trigger] s[i]), price_of(#[trigger] s[j])))
                && (!buy_side ==> !dec_lt(price_of(s[j]), price_of(s[i])))
                && (dec_eq(price_of(s[i]), price_of(s[j])) ==> key_lt(s[i].id, s[j].id)),
{
    assert forall|i: int, j: int| 0 <= i < j < s.len() implies (buy_side ==> !dec_lt(price_of(#[trigger] s[i]), price_of(#[trigger] s[j])))
        && (!buy_side ==> !dec_lt(price_of(s[j]), price_of(s[i])))
        && (dec_eq(price_of(s[i]), price_of(s[j])) ==> key_lt(s[i].id, s[j].id)) by {
        assert(precedes(buy_side, s[i], s[j]));
    }
}

/// The orders of the book as matching leaves them: the same ids, each with
/// its signed order untouched.
pub open spec fn keeps_orders(before: BookView, after: BookView) -> bool {
    &&& after.entries.dom() == before.entries.dom()
    &&& forall|k: Seq<char>| #[trigger] before.entries.dom().contains(k) ==> after.entries[k].order == before.entries[k].order
    &&& after.local_peer == before.local_peer
}

proof fn lemma_mark_keeps_orders(v: BookView, id: Seq<char>, now: i64)
    requires
        v.entries.dom().contains(id),
    ensures
        keeps_orders(v, mark_book(v, id, now)),
{
    assert(mark_book(v, id, now).entries.dom() =~= v.entries.dom());
}

/// Matching changes only fills and tombstones: signed orders stay immutable,
/// and no order enters or leaves the book.
pub proof fn law_matching_keeps_orders(
    v: BookView,
    b: Seq<OrderView>,
    s: Seq<OrderView>,
    bi: nat,
    si: nat,
    clock0: Seq<(Seq<char>, u64)>,
    now: i64,
    fuel: nat,
)
    requires
        forall|j: int| 0 <= j < b.len() ==> v.entries.dom().contains(#[trigger] b[j].id),
        forall|j: int| 0 <= j < s.len() ==> v.entries.dom().contains(#[trigger] s[j].id),
    ensures
        keeps_orders(v, match_run(v, b, s, bi, si, clock0, now, fuel).book),
    decreases (b.len() - bi) + (s.len() - si), fuel,
{
    let run = match_run(v, b, s, bi, si, clock0, now, fuel);
    if bi >= b.len() || si >= s.len() {
    } else {
        let buy = b[bi as int];
        let sell = s[si as int];
        assert(v.entries.dom().contains(buy.id));
        assert(v.entries.dom().contains(sell.id));
        if dec_lt(price_of(buy), price_of(sell)) {
        } else if remaining_of(v, buy.id) is None || remaining_of(v, sell.id) is None {
        } else {
            let rb = remaining_of(v, buy.id).unwrap();
            let rs = remaining_of(v, sell.id).unwrap();
            if !dec_lt(dec_zero(), rb) {
                law_matching_keeps_orders(v, b, s, bi + 1, si, clock0, now, fuel);
                assert(run == match_run(v, b, s, bi + 1, si, clock0, now, fuel));
            } else if !dec_lt(dec_zero(), rs) {
                law_matching_keeps_orders(v, b, s, bi, si + 1, clock0, now, fuel);
                assert(run == match_run(v, b, s, bi, si + 1, clock0, now, fuel));
            } else {
                let amount = if dec_lt(rs, rb) {
                    rs
                } else {
                    rb
                };
                match fill_book(v, buy.id, amount) {
                    None => {},
                    Some(v1) => match fill_book(v1, sell.id, amount) {
                        None => {},
                        Some(v2) => {
                            assert(keeps_orders(v, v2));
                            match remaining_of(v2, buy.id) {
                                None => {},
                                Some(rb2) => {
                                    let buy_done = !dec_lt(dec_zero(), rb2);
                                    let v3 = if buy_done {
                                        mark_book(v2, buy.id, now)
                                    } else {
                                        v2
                                    };
                                    if buy_done {
                                        lemma_mark_keeps_orders(v2, buy.id, now);
                                    }
                                    assert(keeps_orders(v, v3));
                                    match remaining_of(v3, sell.id) {
                                        None => {},
                                        Some(rs2) => {
                                            let sell_done = !dec_lt(dec_zero(), rs2);
                                            let v4 = if sell_done {
                                                mark_book(v3, sell.id, now)
                                            } else {
                                                v3
                                            };
                                            if sell_done {
                                                lemma_mark_keeps_orders(v3, sell.id, now);
                                            }
                                            assert(keeps_orders(v, v4));
                                            if !buy_done && !sell_done && fuel == 0 {
                                            } else {
                                                let (nb, ns, nf): (nat, nat, nat) = if buy_done {
                                                    (bi + 1, si, fuel)
                                                } else if sell_done {
                                                    (bi, si + 1, fuel)
                                                } else {
                                                    (bi, si, (fuel - 1) as nat)
                                                };
                                                law_matching_keeps_orders(v4, b, s, nb, ns, clock0, now, nf);
                                                assert(run.book == match_run(v4, b, s, nb, ns, clock0, now, nf).book);
                                            }
                                        },
                                    }
                                },
                            }
                        },
                    },
                }
            }
        }
    }
}

/// Two books that hold the same orders and fills (their tombstones, stamps
/// and clocks may differ).
pub open spec fn same_orders_and_fills(v1: BookView, v2: BookView) -> bool {
    &&& v1.entries.dom() == v2.entries.dom()
    &&& forall|k: Seq<char>| #[trigger] v1.entries[k].order == v2.entries[k].order
    &&& v1.fills == v2.fills
}

proof fn lemma_run_agrees(
    v1: BookView,
    v2: BookView,
    b: Seq<OrderView>,
    s: Seq<OrderView>,
    bi: nat,
    si: nat,
    clock0: Seq<(Seq<char>, u64)>,
    now1: i64,
    now2: i64,
    fuel: nat,
)
    requires
        same_orders_and_fills(v1, v2),
    ensures
        match_run(v1, b, s, bi, si, clock0, now1, fuel).trades == match_run(v2, b, s, bi, si, clock0, now2, fuel).trades,
        match_run(v1, b, s, bi, si, clock0, now1, fuel).failed == match_run(v2, b, s, bi, si, clock0, now2, fuel).failed,
    decreases (b.len() - bi) + (s.len() - si), fuel,
{
    if bi >= b.len() || si >= s.len() {
    } else {
        let buy = b[bi as int];
        let sell = s[si as int];
        assert(remaining_of(v1, buy.id) == remaining_of(v2, buy.id));
        assert(remaining_of(v1, sell.id) == remaining_of(v2, sell.id));
        if dec_lt(price_of(buy), price_of(sell)) {
        } else if remaining_of(v1, buy.id) is None || remaining_of(v1, sell.id) is None {
        } else {
            let rb = remaining_of(v1, buy.id).unwrap();
            let rs = remaining_of(v1, sell.id).unwrap();
            if !dec_lt(dec_zero(), rb) {
                lemma_run_agrees(v1, v2, b, s, bi + 1, si, clock0, now1, now2, fuel);
            } else if !dec_lt(dec_zero(), rs) {
                lemma_run_agrees(v1, v2, b, s, bi, si + 1, clock0, now1, now2, fuel);
            } else {
                let amount = if dec_lt(rs, rb) {
                    rs
                } else {
                    rb
                };
                assert(fill_book(v1, buy.id, amount) is Some == fill_book(v2, buy.id, amount) is Some);
                if fill_book(v1, buy.id, amount) is Some {
                    let w1 = fill_book(v1, buy.id, amount).unwrap();
                    let w2 = fill_book(v2, buy.id, amount).unwrap();
                    assert(same_orders_and_fills(w1, w2));
                    assert(fill_book(w1, sell.id, amount) is Some == fill_book(w2, sell.id, amount) is Some);
                    if fill_book(w1, sell.id, amount) is Some {
                        let x1 = fill_book(w1, sell.id, amount).unwrap();
                        let x2 = fill_book(w2, sell.id, amount).unwrap();
                        assert(same_orders_and_fills(x1, x2));
                        assert(remaining_of(x1, buy.id) == remaining_of(x2, buy.id));
                        if remaining_of(x1, buy.id) is Some {
                            let buy_done = !dec_lt(dec_zero(), remaining_of(x1, buy.id).unwrap());
                            let y1 = if buy_done { mark_book(x1, buy.id, now1) } else { x1 };
                            let y2 = if buy_done { mark_book(x2, buy.id, now2) } else { x2 };
                            assert(same_orders_and_fills(y1, y2)) by {
                                if buy_done {
                                    assert(y1.entries.dom() =~= y2.entries.dom());
                                }
                            }
                            assert(remaining_of(y1, sell.id) == remaining_of(y2, sell.id));
                            if remaining_of(y1, sell.id) is Some {
                                let sell_done = !dec_lt(dec_zero(), remaining_of(y1, sell.id).unwrap());
                                let z1 = if sell_done { mark_book(y1, sell.id, now1) } else { y1 };
                                let z2 = if sell_done { mark_book(y2, sell.id, now2) } else { y2 };
                                assert(same_orders_and_fills(z1, z2)) by {
                                    if sell_done {
                                        assert(z1.entries.dom() =~= z2.entries.dom());
                                    }
                                }
                                if !buy_done && !sell_done && fuel == 0 {
                                } else {
                                    let (nb, ns, nf): (nat, nat, nat) = if buy_done {
                                        (bi + 1, si, fuel)
                                    } else if sell_done {
                                        (bi, si + 1, fuel)
                                    } else {
                                        (bi, si, (fuel - 1) as nat)
                                    };
                                    lemma_run_agrees(z1, z2, b, s, nb, ns, clock0, now1, now2, nf);
                                }
                            }
                        }
                    }
                }
            }
        }
    }
}

/// The trades do not depend on the clock reading: matching the same book at
/// any two times proposes the same trades and fails alike; only the stamps
/// of the tombstones differ.
pub proof fn law_trades_independent_of_time(v: BookView, b: Seq<OrderView>, s: Seq<OrderView>, now1: i64, now2: i64)
    ensures
        match_run(v, b, s, 0, 0, v.clock, now1, stall_budget()).trades == match_run(
            v,
            b,
            s,
            0,
            0,
            v.clock,
            now2,
            stall_budget(),
        ).trades,
        match_run(v, b, s, 0, 0, v.clock, now1, stall_budget()).failed == match_run(
            v,
            b,
            s,
            0,
            0,
            v.clock,
            now2,
            stall_budget(),
        ).failed,
{
    lemma_run_agrees(v, v, b, s, 0, 0, v.clock, now1, now2, stall_budget());
}

/// No crossing pair is left: every live buy and live sell with something
/// left to fill have the bid below the ask.
pub open spec fn no_cross_left(v: BookView) -> bool {
    forall|kb: Seq<char>, ks: Seq<char>|
        #![trigger is_fillable(v, kb), is_fillable(v, ks)]
        is_fillable(v, kb) && is_fillable(v, ks) && v.entries[kb].order.side == Side::Buy && v.entries[ks].order.side
            != Side::Buy ==> dec_lt(price_of(v.entries[kb].order), price_of(v.entries[ks].order))
}

proof fn lemma_fillable_frame(v: BookView, w: BookView, k: Seq<char>)
    requires
        v.entries.dom().contains(k) == w.entries.dom().contains(k),
        v.entries[k] == w.entries[k],
        v.fills.dom().contains(k) == w.fills.dom().contains(k),
        v.fills[k] == w.fills[k],
    ensures
        is_fillable(v, k) == is_fillable(w, k),
        is_fillable(v, k) ==> v.entries.dom().contains(k),
{
}

/// What holds at each step of a run: the listings hold the books' orders,
/// and every order with something left to fill is still ahead in them.
pub open spec fn run_inv(v: BookView, b: Seq<OrderView>, s: Seq<OrderView>, bi: nat, si: nat) -> bool {
    &&& in_priority_order(true, b)
    &&& in_priority_order(false, s)
    &&& forall|j: int|
        0 <= j < b.len() ==> v.entries.dom().contains(#[trigger] b[j].id) && v.entries[b[j].id].order == b[j]
            && b[j].side == Side::Buy
    &&& forall|j: int|
        0 <= j < s.len() ==> v.entries.dom().contains(#[trigger] s[j].id) && v.entries[s[j].id].order == s[j]
            && s[j].side != Side::Buy
    &&& forall|k: Seq<char>|
        #[trigger] is_fillable(v, k) && v.entries[k].order.side == Side::Buy ==> exists|j: int|
            bi <= j < b.len() && (#[trigger] b[j]).id == k
    &&& forall|k: Seq<char>|
        #[trigger] is_fillable(v, k) && v.entries[k].order.side != Side::Buy ==> exists|j: int|
            si <= j < s.len() && (#[trigger] s[j]).id == k
}

proof fn lemma_run_inv_done(v: BookView, b: Seq<OrderView>, s: Seq<OrderView>, bi: nat, si: nat)
    requires
        run_inv(v, b, s, bi, si),
        bi >= b.len() || si >= s.len() || dec_lt(price_of(b[bi as int]), price_of(s[si as int])),
    ensures
        no_cross_left(v),
{
    assert forall|kb: Seq<char>, ks: Seq<char>|
        #![trigger is_fillable(v, kb), is_fillable(v, ks)]
        is_fillable(v, kb) && is_fillable(v, ks) && v.entries[kb].order.side == Side::Buy && v.entries[ks].order.side
            != Side::Buy implies dec_lt(price_of(v.entries[kb].order), price_of(v.entries[ks].order)) by {
        let j = choose|j: int| bi <= j < b.len() && (#[trigger] b[j]).id == kb;
        let j2 = choose|j: int| si <= j < s.len() && (#[trigger] s[j]).id == ks;
        assert(v.entries[kb].order == b[j]);
        assert(v.entries[ks].order == s[j2]);
        if j > bi {
            assert(precedes(true, b[bi as int], b[j]));
        }
        if j2 > si {
            assert(precedes(false, s[si as int], s[j2]));
        }
    }
}

/// The book after a trade step, as the frame of the run sees it: only the
/// two orders of the trade change.
proof fn lemma_step_frame(v: BookView, w: BookView, x: Seq<char>, y: Seq<char>)
    requires
        w.entries.dom() == v.entries.dom(),
        forall|k: Seq<char>| k != x && k != y ==> #[trigger] w.entries[k] == v.entries[k],
        forall|k: Seq<char>| k != x && k != y ==> (#[trigger] w.fills.dom().contains(k)) == v.fills.dom().contains(k),
        forall|k: Seq<char>| k != x && k != y ==> #[trigger] w.fills[k] == v.fills[k],
    ensures
        forall|k: Seq<char>| k != x && k != y ==> #[trigger] is_fillable(w, k) == is_fillable(v, k),
{
    assert forall|k: Seq<char>| k != x && k != y implies #[trigger] is_fillable(w, k) == is_fillable(v, k) by {
        lemma_fillable_frame(v, w, k);
    }
}

/// When a run over the book's listings succeeds, no crossing pair is left.
proof fn lemma_run_no_cross(
    v: BookView,
    b: Seq<OrderView>,
    s: Seq<OrderView>,
    bi: nat,
    si: nat,
    clock0: Seq<(Seq<char>, u64)>,
    now: i64,
    fuel: nat,
)
    requires
        run_inv(v, b, s, bi, si),
    ensures
        !match_run(v, b, s, bi, si, clock0, now, fuel).failed ==> no_cross_left(
            match_run(v, b, s, bi, si, clock0, now, fuel).book,
        ),
    decreases (b.len() - bi) + (s.len() - si), fuel,
{
    if bi >= b.len() || si >= s.len() {
        lemma_run_inv_done(v, b, s, bi, si);
    } else {
        let buy = b[bi as int];
        let sell = s[si as int];
        if dec_lt(price_of(buy), price_of(sell)) {
            lemma_run_inv_done(v, b, s, bi, si);
        } else if remaining_of(v, buy.id) is None || remaining_of(v, sell.id) is None {
        } else {
            let rb = remaining_of(v, buy.id).unwrap();
            let rs = remaining_of(v, sell.id).unwrap();
            if !dec_lt(dec_zero(), rb) {
                assert forall|k: Seq<char>| #[trigger] is_fillable(v, k) && v.entries[k].order.side == Side::Buy implies exists|j: int|
                    bi + 1 <= j < b.len() && (#[trigger] b[j]).id == k by {
                    let j = choose|j: int| bi <= j < b.len() && (#[trigger] b[j]).id == k;
                    assert(j != bi);
                }
                lemma_run_no_cross(v, b, s, bi + 1, si, clock0, now, fuel);
            } else if !dec_lt(dec_zero(), rs) {
                assert forall|k: Seq<char>| #[trigger] is_fillable(v, k) && v.entries[k].order.side != Side::Buy implies exists|j: int|
                    si + 1 <= j < s.len() && (#[trigger] s[j]).id == k by {
                    let j = choose|j: int| si <= j < s.len() && (#[trigger] s[j]).id == k;
                    assert(j != si);
                }
                lemma_run_no_cross(v, b, s, bi, si + 1, clock0, now, fuel);
            } else {
                let amount = if dec_lt(rs, rb) {
                    rs
                } else {
                    rb
                };
                assert(buy.id != sell.id) by {
                    assert(v.entries[buy.id].order == buy);
                    assert(v.entries[sell.id].order == sell);
                }
                match fill_book(v, buy.id, amount) {
                    None => {},
                    Some(v1) => match fill_book(v1, sell.id, amount) {
                        None => {},
                        Some(v2) => match remaining_of(v2, buy.id) {
                            None => {},
                            Some(rb2) => {
                                let buy_done = !dec_lt(dec_zero(), rb2);
                                let v3 = if buy_done {
                                    mark_book(v2, buy.id, now)
                                } else {
                                    v2
                                };
                                match remaining_of(v3, sell.id) {
                                    None => {},
                                    Some(rs2) => {
                                        let sell_done = !dec_lt(dec_zero(), rs2);
                                        let v4 = if sell_done {
                                            mark_book(v3, sell.id, now)
                                        } else {
                                            v3
                                        };
                                        if !buy_done && !sell_done && fuel == 0 {
                                        } else {
                                            let (nb, ns, nf): (nat, nat, nat) = if buy_done {
                                                (bi + 1, si, fuel)
                                            } else if sell_done {
                                                (bi, si + 1, fuel)
                                            } else {
                                                (bi, si, (fuel - 1) as nat)
                                            };
                                            assert(v4.entries.dom() =~= v.entries.dom());
                                            lemma_step_frame(v, v4, buy.id, sell.id);
                                            assert(v4.entries[buy.id].order == buy);
                                            assert(v4.entries[sell.id].order == sell);
                                            assert(buy_done ==> v4.entries[buy.id].tombstone is Some);
                                            assert(sell_done ==> v4.entries[sell.id].tombstone is Some);
                                            assert forall|j: int| 0 <= j < b.len() implies v4.entries.dom().contains(#[trigger] b[j].id)
                                                && v4.entries[b[j].id].order == b[j] && b[j].side == Side::Buy by {
                                                assert(v.entries[b[j].id].order == b[j]);
                                            }
                                            assert forall|j: int| 0 <= j < s.len() implies v4.entries.dom().contains(#[trigger] s[j].id)
                                                && v4.entries[s[j].id].order == s[j] && s[j].side != Side::Buy by {
                                                assert(v.entries[s[j].id].order == s[j]);
                                            }
                                            assert forall|k: Seq<char>| #[trigger] is_fillable(v4, k) && v4.entries[k].order.side
                                                == Side::Buy implies exists|j: int| nb <= j < b.len() && (#[trigger] b[j]).id == k by {
                                                if k == buy.id {
                                                    assert(b[bi as int].id == k);
                                                } else if k == sell.id {
                                                } else {
                                                    assert(is_fillable(v, k));
                                                    assert(v.entries[k] == v4.entries[k]);
                                                    let j = choose|j: int| bi <= j < b.len() && (#[trigger] b[j]).id == k;
                                                    assert(j != bi);
                                                }
                                            }
                                            assert forall|k: Seq<char>| #[trigger] is_fillable(v4, k) && v4.entries[k].order.side
                                                != Side::Buy implies exists|j: int| ns <= j < s.len() && (#[trigger] s[j]).id == k by {
                                                if k == sell.id {
                                                    assert(s[si as int].id == k);
                                                } else if k == buy.id {
                                                } else {
                                                    assert(is_fillable(v, k));
                                                    assert(v.entries[k] == v4.entries[k]);
                                                    let j = choose|j: int| si <= j < s.len() && (#[trigger] s[j]).id == k;
                                                    assert(j != si);
                                                }
                                            }
                                            lemma_run_no_cross(v4, b, s, nb, ns, clock0, now, nf);
                                        }
                                    },
                                }
                            },
                        },
                    },
                }
            }
        }
    }
}

/// Matching leaves no crossing pair: where a run over the book's listings
/// succeeds, every live buy and live sell with something left to fill have
/// the bid below the ask.
pub proof fn law_no_cross_left(v: BookView, b: Seq<OrderView>, s: Seq<OrderView>, now: i64)
    requires
        side_listing(v, true, b),
        side_listing(v, false, s),
    ensures
        !match_run(v, b, s, 0, 0, v.clock, now, stall_budget()).failed ==> no_cross_left(
            match_run(v, b, s, 0, 0, v.clock, now, stall_budget()).book,
        ),
{
    assert forall|k: Seq<char>| #[trigger] is_fillable(v, k) && v.entries[k].order.side == Side::Buy implies exists|j: int|
        0 <= j < b.len() && (#[trigger] b[j]).id == k by {
        let j = choose|j: int| 0 <= j < b.len() && (#[trigger] b[j]).id == k;
    }
    assert forall|k: Seq<char>| #[trigger] is_fillable(v, k) && v.entries[k].order.side != Side::Buy implies exists|j: int|
        0 <= j < s.len() && (#[trigger] s[j]).id == k by {
        let j = choose|j: int| 0 <= j < s.len() && (#[trigger] s[j]).id == k;
    }
    assert forall|j: int| 0 <= j < b.len() implies v.entries.dom().contains(#[trigger] b[j].id) && v.entries[b[j].id].order
        == b[j] && b[j].side == Side::Buy by {
        assert(is_fillable(v, b[j].id));
    }
    assert forall|j: int| 0 <= j < s.len() implies v.entries.dom().contains(#[trigger] s[j].id) && v.entries[s[j].id].order
        == s[j] && s[j].side != Side::Buy by {
        assert(is_fillable(v, s[j].id));
    }
    lemma_run_no_cross(v, b, s, 0, 0, v.clock, now, stall_budget());
}

} // verus!
