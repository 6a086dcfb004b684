//! What the desktop front end exchanges with the core: the payloads of its
//! commands, and the decisions those commands make before and after the
//! database and network work, which runs outside the library.

use vstd::prelude::*;
use crate::clock::VectorClock;
use crate::db::TradeRecord;
use crate::order::{Order, OrderView, Side, side_text};
use crate::orderbook::{live_ids, OrderBook, TombstoneKind, tombstone_kind_named};
use crate::text::{compare_keys, push_str, KeyOrder};

verus! {

broadcast use vstd::seq::group_seq_axioms;

/// The lowercase form of a string: `str::to_lowercase`, which maps each
/// character by the Unicode lowercase mapping.
pub uninterp spec fn lowercase_text(s: Seq<char>) -> Seq<char>;

/// `str::to_lowercase`.
#[verifier::external_body]
fn to_lowercase(s: &str) -> (r: String)
    ensures
        r@ == lowercase_text(s@),
{
    s.to_lowercase()
}

/// What a side named by the front end parses to: "buy" or "sell" in any
/// case, else the error text.
pub open spec fn side_parse_result(side: Seq<char>) -> Result<Side, Seq<char>> {
    if lowercase_text(side) == "buy"@ {
        Ok(Side::Buy)
    } else if lowercase_text(side) == "sell"@ {
        Ok(Side::Sell)
    } else {
        Err("invalid side: "@ + side)
    }
}

/// Parse a side named by the front end, ignoring case.
pub fn parse_side(side: &str) -> (r: Result<Side, String>)
    ensures
        match side_parse_result(side@) {
            Ok(s) => r == Ok::<Side, String>(s),
            Err(t) => r matches Err(e) && e@ == t,
        },
{
    proof {
        reveal_strlit("buy");
        reveal_strlit("sell");
        reveal_strlit("invalid side: ");
    }
    let lower = to_lowercase(side);
    if compare_keys(lower.as_str(), "buy") == KeyOrder::Equal {
        Ok(Side::Buy)
    } else if compare_keys(lower.as_str(), "sell") == KeyOrder::Equal {
        Ok(Side::Sell)
    } else {
        let mut m = String::new();
        push_str(&mut m, "invalid side: ");
        push_str(&mut m, side);
        Err(m)
    }
}

/// The stored wallet configuration, as the front end receives it.
pub struct WalletConfigPayload {
    pub address: String,
    pub chain_id: String,
    pub wallet_uuid: String,
    pub wallet_name: String,
}

impl WalletConfigPayload {
    /// The payload of a stored `(address, chain_id, wallet_uuid, wallet_name)` row.
    pub fn from_row(row: (String, String, String, String)) -> (r: WalletConfigPayload)
        ensures
            r.address@ == row.0@,
            r.chain_id@ == row.1@,
            r.wallet_uuid@ == row.2@,
            r.wallet_name@ == row.3@,
    {
        let (address, chain_id, wallet_uuid, wallet_name) = row;
        WalletConfigPayload { address, chain_id, wallet_uuid, wallet_name }
    }
}

/// An order as the front end and the network exchange it: the side as text.
pub struct OrderPayload {
    pub id: String,
    pub owner: String,
    pub side: String,
    pub pair: String,
    pub price: String,
    pub amount: String,
    pub expiry: i64,
    pub nonce: u64,
    pub signature: String,
    pub vector_clock: VectorClock,
}

/// The payload carries the order's fields, the side named in lowercase.
pub open spec fn payload_matches(p: OrderPayload, o: OrderView) -> bool {
    &&& p.id@ == o.id
    &&& p.owner@ == o.owner
    &&& p.side@ == side_text(o.side)
    &&& p.pair@ == o.pair
    &&& p.price@ == o.price
    &&& p.amount@ == o.amount
    &&& p.expiry == o.expiry
    &&& p.nonce == o.nonce
    &&& p.signature@ == o.signature
    &&& p.vector_clock@ == o.vector_clock
}

/// The order a payload stands for, with the side it names.
pub open spec fn order_of_payload(p: OrderPayload, side: Side) -> OrderView {
    OrderView {
        id: p.id@,
        owner: p.owner@,
        side,
        pair: p.pair@,
        price: p.price@,
        amount: p.amount@,
        expiry: p.expiry,
        nonce: p.nonce,
        signature: p.signature@,
        vector_clock: p.vector_clock@,
    }
}

impl OrderPayload {
    /// The payload of an order.
    pub fn from_order(o: &Order) -> (r: OrderPayload)
        ensures
            payload_matches(r, o@),
    {
        let mut side = String::new();
        push_str(&mut side, o.side.as_str());
        OrderPayload {
            id: o.id.clone(),
            owner: o.owner.clone(),
            side,
            pair: o.pair.clone(),
            price: o.price.clone(),
            amount: o.amount.clone(),
            expiry: o.expiry,
            nonce: o.nonce,
            signature: o.signature.clone(),
            vector_clock: o.vector_clock.clone(),
        }
    }

    /// The order a payload received from the front end stands for; fails
    /// where the side is neither "buy" nor "sell" in any case.
    pub fn into_order(self) -> (r: Result<Order, String>)
        ensures
            match side_parse_result(self.side@) {
                Ok(s) => r matches Ok(o) && o@ == order_of_payload(self, s),
                Err(t) => r matches Err(e) && e@ == t,
            },
    {
        let side = match parse_side(self.side.as_str()) {
            Ok(s) => s,
            Err(e) => return Err(e),
        };
        Ok(
            Order {
                id: self.id,
                owner: self.owner,
                side,
                pair: self.pair,
                price: self.price,
                amount: self.amount,
                expiry: self.expiry,
                nonce: self.nonce,
                signature: self.signature,
                vector_clock: self.vector_clock,
            },
        )
    }
}

/// The views of a list of orders' payloads.
pub open spec fn payloads_match(ps: Seq<OrderPayload>, os: Seq<Order>) -> bool {
    ps.len() == os.len() && forall|i: int| 0 <= i < ps.len() ==> payload_matches(#[trigger] ps[i], os[i]@)
}

/// The payloads of a list of orders, in the same order.
pub fn payloads_of(orders: &Vec<Order>) -> (r: Vec<OrderPayload>)
    ensures
        payloads_match(r@, orders@),
{
    let mut out: Vec<OrderPayload> = Vec::new();
    let mut i: usize = 0;
    while i < orders.len()
        invariant
            i <= orders@.len(),
            out@.len() == i,
            forall|j: int| 0 <= j < i ==> payload_matches(#[trigger] out@[j], orders@[j]@),
        decreases orders@.len() - i,
    {
        let p = OrderPayload::from_order(&orders[i]);
        out.push(p);
        i = i + 1;
    }
    out
}

/// Counts of the order book, for the front end.
pub struct BookStats {
    pub local_peer: String,
    pub live_count: usize,
    pub total_count: usize,
}

/// The statistics of an order book.
pub fn book_stats(book: &OrderBook) -> (r: BookStats)
    requires
        book.wf(),
    ensures
        r.local_peer@ == book@.local_peer,
        r.live_count == live_ids(book@).len(),
        r.total_count == book@.entries.dom().len(),
{
    let mut local_peer = String::new();
    push_str(&mut local_peer, book.local_peer());
    BookStats { local_peer, live_count: book.live_count(), total_count: book.total_count() }
}

/// A trade history row as the front end receives it.
pub struct TradeRecordPayload {
    pub id: i64,
    pub wallet_address: String,
    pub tx_hash: Option<String>,
    pub chain_id: String,
    pub pair: String,
    pub side: String,
    pub amount_in: String,
    pub amount_out: String,
    pub token_in: String,
    pub token_out: String,
    pub status: String,
    pub timestamp: i64,
    pub notes: Option<String>,
}

impl TradeRecordPayload {
    /// The payload of a trade history row, field for field.
    pub fn from_record(t: TradeRecord) -> (r: TradeRecordPayload)
        ensures
            r.id == t.id,
            r.wallet_address == t.wallet_address,
            r.tx_hash == t.tx_hash,
            r.chain_id == t.chain_id,
            r.pair == t.pair,
            r.side == t.side,
            r.amount_in == t.amount_in,
            r.amount_out == t.amount_out,
            r.token_in == t.token_in,
            r.token_out == t.token_out,
            r.status == t.status,
            r.timestamp == t.timestamp,
            r.notes == t.notes,
    {
        TradeRecordPayload {
            id: t.id,
            wallet_address: t.wallet_address,
            tx_hash: t.tx_hash,
            chain_id: t.chain_id,
            pair: t.pair,
            side: t.side,
            amount_in: t.amount_in,
            amount_out: t.amount_out,
            token_in: t.token_in,
            token_out: t.token_out,
            status: t.status,
            timestamp: t.timestamp,
            notes: t.notes,
        }
    }
}

/// The name under which a tombstone is stored.
pub open spec fn tombstone_text(k: TombstoneKind) -> Seq<char> {
    match k {
        TombstoneKind::Cancelled => "Cancelled"@,
        TombstoneKind::Filled => "Filled"@,
    }
}

/// The name under which a tombstone is stored.
pub fn tombstone_label(kind: TombstoneKind) -> (r: &'static str)
    ensures
        r@ == tombstone_text(kind),
{
    match kind {
        TombstoneKind::Cancelled => "Cancelled",
        TombstoneKind::Filled => "Filled",
    }
}

/// A tombstone survives storage: the name it is stored under restores the same kind.
pub proof fn law_tombstone_label_roundtrip(kind: TombstoneKind)
    ensures
        tombstone_kind_named(Some(tombstone_text(kind))) == Some(kind),
{
    reveal_strlit("Cancelled");
    reveal_strlit("Filled");
    assert("Cancelled"@ != "Filled"@) by {
        assert("Cancelled"@.len() != "Filled"@.len());
    }
}

/// What the UI shows of the Tor daemon.
pub open spec fn tor_state_text(running: bool, socks_open: bool) -> Seq<char> {
    if !running {
        "stopped"@
    } else if socks_open {
        "running"@
    } else {
        "starting"@
    }
}

/// Three-state query used by the UI:
///   "stopped"  - no child process
///   "starting" - child spawned, SOCKS not yet accepting
///   "running"  - child spawned, SOCKS accepting connections
/// `socks_open` is read only where the daemon runs.
pub fn tor_state(running: bool, socks_open: bool) -> (r: String)
    ensures
        r@ == tor_state_text(running, socks_open),
{
    let mut s = String::new();
    if !running {
        push_str(&mut s, "stopped");
    } else if socks_open {
        push_str(&mut s, "running");
    } else {
        push_str(&mut s, "starting");
    }
    s
}

} // verus!
