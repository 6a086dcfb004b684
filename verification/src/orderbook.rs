//! The CRDT order book.
//!
//! Operation-based CRDT. Each order is an operation that can be applied in
//! any order. Convergence rests on:
//!   - order ids are unique (no two operations conflict on identity),
//!   - cancellations and fills are tombstoned with a vector clock; a remote
//!     cancellation that arrives before its order is kept, and the order
//!     arrives cancelled (`law_order_and_cancel_commute`),
//!   - concurrent conflicting cancellations are resolved last-write-wins,
//!   - merging replicas goes by the order copies' clocks, and for the same
//!     signed order by the later write, with a fixed tie-break, so that
//!     replicas agree (`law_book_merge_converges`),
//!   - tombstones are collected after a retention window (24h); live orders
//!     never are.
//!
//! Fills are tracked apart from the orders (order id -> cumulative filled
//! amount) so that the signed orders stay immutable.

use vstd::prelude::*;
use crate::clock::{law_compare_reflexive, lemma_clock_canonical, has_peer, max_u64, clock_wf, counter, is_merge_of, is_tick_of, merge, tick, compare, clock_ordering, ClockOrdering, VectorClock};
use crate::decimal::{Dec, dec_eq, dec_zero, dec_from_parts, dec_lt, decimal_from_str, decimal_checked_add,
    decimal_checked_sub, dec_parse, dec_less, dec_checked_add, dec_checked_sub};
use crate::keyed::{keyed_map, keys_distinct, lemma_keyed_dom, lemma_keyed_index, lemma_keyed_finite,
    lemma_keyed_push, lemma_keyed_update, lemma_keyed_remove};
use crate::order::{Order, OrderView, Side, order_signature, verification_result, verify_order, sign_order, valid_identity,
    with_signature};
use crate::text::{nat_text, push_nat};
use vstd::string::StringSliceAdditionalSpecFns;
use vstd::utf8::{encode_utf8, decode_utf8, encode_utf8_decode_utf8, is_char_boundary};
use crate::text::{compare_keys, KeyOrder, key_lt, push_str};
use crate::db::{check_nonce, replay_detail};

verus! {

broadcast use {vstd::seq::group_seq_axioms, vstd::set::group_set_axioms, vstd::map::group_map_axioms};

/// Retention window for tombstones: 24 hours (in seconds).
pub const TOMBSTONE_RETENTION_SECS: i64 = 86400;

/// Tombstone reason — why an order is no longer live.
#[derive(Debug, Clone, Copy, PartialEq, Eq, Structural)]
pub enum TombstoneKind {
    Cancelled,
    Filled,
}

/// An order plus its current state in the book.
#[derive(Debug)]
pub struct BookEntry {
    pub order: Order,
    pub tombstone: Option<TombstoneKind>,
    /// When this entry was marked as tombstoned (unix seconds). Used for GC.
    pub tombstoned_at: Option<i64>,
}

/// A book entry as plain values.
pub struct EntryView {
    pub order: OrderView,
    pub tombstone: Option<TombstoneKind>,
    pub tombstoned_at: Option<i64>,
}

impl View for BookEntry {
    type V = EntryView;

    open spec fn view(&self) -> EntryView {
        EntryView { order: self.order@, tombstone: self.tombstone, tombstoned_at: self.tombstoned_at }
    }
}

impl Clone for BookEntry {
    fn clone(&self) -> (r: Self)
        ensures
            r@ == self@,
    {
        BookEntry { order: self.order.clone(), tombstone: self.tombstone, tombstoned_at: self.tombstoned_at }
    }
}

/// Cumulative filled amount of one order.
#[derive(Debug)]
struct FillEntry {
    order_id: String,
    amount: Dec,
}

/// A remote cancellation that arrived before its order, and when.
#[derive(Debug)]
struct PendingCancel {
    order_id: String,
    at: i64,
}

/// In-memory CRDT order book.
pub struct OrderBook {
    /// one entry per order id
    entries: Vec<BookEntry>,
    /// cumulative filled amount per order id (across all matches)
    fills: Vec<FillEntry>,
    /// Local vector clock — ticks on every local operation, merges on remote.
    clock: VectorClock,
    /// This node's peer identifier (used as the key in the vector clock).
    local_peer: String,
    /// Remote cancellations of orders not yet received, kept so that the
    /// order arrives cancelled.
    pending: Vec<PendingCancel>,
}

/// An order book as plain values.
pub struct BookView {
    pub entries: Map<Seq<char>, EntryView>,
    pub fills: Map<Seq<char>, Dec>,
    pub clock: Seq<(Seq<char>, u64)>,
    pub local_peer: Seq<char>,
    /// Remote cancellations awaiting their order: order id -> time of the cancellation.
    pub pending: Map<Seq<char>, i64>,
}

impl View for OrderBook {
    type V = BookView;

    closed spec fn view(&self) -> BookView {
        BookView {
            entries: keyed_map(self.entry_pairs()),
            fills: keyed_map(self.fill_pairs()),
            clock: self.clock@,
            local_peer: self.local_peer@,
            pending: keyed_map(self.pending_pairs()),
        }
    }
}

/// Each entry is filed under its order's id, every clock is in canonical
/// form, and every fill is a valid decimal.
pub open spec fn book_view_wf(v: BookView) -> bool {
    &&& v.entries.dom().finite()
    &&& forall|k: Seq<char>| #[trigger] v.entries.dom().contains(k) ==> v.entries[k].order.id == k
    &&& forall|k: Seq<char>| #[trigger] v.entries.dom().contains(k) ==> clock_wf(v.entries[k].order.vector_clock)
    &&& forall|k: Seq<char>| #[trigger] v.fills.dom().contains(k) ==> v.fills[k].wf()
    &&& clock_wf(v.clock)
}

/// The entry for `id` marked as a tombstone of the given kind at the given time.
pub open spec fn tombstoned(e: EntryView, kind: TombstoneKind, at: i64) -> EntryView {
    EntryView { order: e.order, tombstone: Some(kind), tombstoned_at: Some(at) }
}

/// A fresh, live entry for an order.
pub open spec fn live_entry(o: OrderView) -> EntryView {
    EntryView { order: o, tombstone: None, tombstoned_at: None }
}

/// Keys of the entries that are not tombstoned.
pub open spec fn live_keys(m: Map<Seq<char>, EntryView>) -> Set<Seq<char>> {
    m.dom().filter(|k: Seq<char>| m[k].tombstone is None)
}

/// Ids of the entries that are not tombstoned.
pub open spec fn live_ids(v: BookView) -> Set<Seq<char>> {
    live_keys(v.entries)
}

/// A decimal parsed with `Decimal::from_str`, 0 where it does not parse.
pub open spec fn parsed_or_zero(s: Seq<char>) -> Dec {
    match decimal_from_str(s) {
        Some(p) => dec_from_parts(p),
        None => dec_zero(),
    }
}

/// The cumulative fill of an order, 0 where none was recorded.
pub open spec fn filled_of(v: BookView, id: Seq<char>) -> Dec {
    if v.fills.dom().contains(id) {
        v.fills[id]
    } else {
        dec_zero()
    }
}

/// How much of an order is still fillable: 0 for an unknown or fully filled
/// order, else its amount less its fill; `None` where that subtraction
/// overflows (`rust_decimal` panics there).
pub open spec fn remaining_of(v: BookView, id: Seq<char>) -> Option<Dec> {
    if !v.entries.dom().contains(id) {
        Some(dec_zero())
    } else {
        let total = parsed_or_zero(v.entries[id].order.amount);
        let filled = filled_of(v, id);
        if !dec_lt(filled, total) {
            Some(dec_zero())
        } else {
            match decimal_checked_sub(total.parts(), filled.parts()) {
                Some(p) => Some(dec_from_parts(p)),
                None => None,
            }
        }
    }
}

/// The cumulative fill of an order after adding `amount`; `None` where the
/// addition overflows (`rust_decimal` panics there).
pub open spec fn fill_after(v: BookView, id: Seq<char>, amount: Dec) -> Option<Dec> {
    match decimal_checked_add(filled_of(v, id).parts(), amount.parts()) {
        Some(p) => Some(dec_from_parts(p)),
        None => None,
    }
}

/// An order that is live and still has a positive remaining amount.
pub open spec fn is_fillable(v: BookView, id: Seq<char>) -> bool {
    &&& live_ids(v).contains(id)
    &&& remaining_of(v, id) matches Some(r) && dec_lt(dec_zero(), r)
}

/// Every live order's remaining amount is defined.
pub open spec fn remainders_defined(v: BookView) -> bool {
    forall|k: Seq<char>| #[trigger] live_ids(v).contains(k) ==> remaining_of(v, k) is Some
}

/// Whether a remote cancellation overrides an entry that is already a
/// tombstone: the remote clock is not behind the order's clock, and on
/// concurrent clocks the greater peer id wins.
pub open spec fn remote_cancel_wins(
    local_peer: Seq<char>,
    e: EntryView,
    remote_clock: Seq<(Seq<char>, u64)>,
    remote_peer: Seq<char>,
) -> bool {
    match clock_ordering(e.order.vector_clock, remote_clock) {
        ClockOrdering::Before | ClockOrdering::Equal => true,
        ClockOrdering::After => false,
        ClockOrdering::Concurrent => key_lt(local_peer, remote_peer),
    }
}

/// The cancellations awaiting their orders after a remote cancellation of
/// `id` at time `now`: one for an order the book does not hold is kept (the
/// first such one), to apply when the order arrives.
pub open spec fn pending_after_remote_cancel(v: BookView, id: Seq<char>, now: i64) -> Map<Seq<char>, i64> {
    if v.entries.dom().contains(id) || v.pending.dom().contains(id) {
        v.pending
    } else {
        v.pending.insert(id, now)
    }
}

/// The entry that an order received from the network enters the book as:
/// cancelled at the awaiting cancellation's time where one awaits it, else live.
pub open spec fn arriving_entry(v: BookView, o: OrderView) -> EntryView {
    if v.pending.dom().contains(o.id) {
        tombstoned(live_entry(o), TombstoneKind::Cancelled, v.pending[o.id])
    } else {
        live_entry(o)
    }
}

/// The entries after a remote cancellation of `id` at time `now`.
pub open spec fn entries_after_remote_cancel(
    v: BookView,
    id: Seq<char>,
    remote_clock: Seq<(Seq<char>, u64)>,
    remote_peer: Seq<char>,
    now: i64,
) -> Map<Seq<char>, EntryView> {
    if !v.entries.dom().contains(id) {
        v.entries
    } else if v.entries[id].tombstone is None || remote_cancel_wins(v.local_peer, v.entries[id], remote_clock, remote_peer) {
        v.entries.insert(id, tombstoned(v.entries[id], TombstoneKind::Cancelled, now))
    } else {
        v.entries
    }
}

/// Whether garbage collection keeps an entry: it is live, or its tombstone
/// has no time or one after the cutoff.
pub open spec fn gc_keeps(e: EntryView, cutoff: int) -> bool {
    e.tombstone is None || match e.tombstoned_at {
        Some(ts) => ts > cutoff,
        None => true,
    }
}

/// The cutoff that collection at time `now` uses: `now` less the retention
/// window, as an `i64` subtraction that wraps around.
pub open spec fn retention_cutoff(now: i64) -> int {
    if now - TOMBSTONE_RETENTION_SECS >= i64::MIN {
        now - TOMBSTONE_RETENTION_SECS
    } else {
        now - TOMBSTONE_RETENTION_SECS + 0x1_0000_0000_0000_0000
    }
}

/// The awaiting cancellations that garbage collection keeps: those made
/// after the cutoff.
pub open spec fn pending_kept(p: Map<Seq<char>, i64>, cutoff: int) -> Map<Seq<char>, i64> {
    Map::new(|k: Seq<char>| p.dom().contains(k) && p[k] > cutoff, |k: Seq<char>| p[k])
}

/// The entries that garbage collection keeps.
pub open spec fn gc_kept(m: Map<Seq<char>, EntryView>, cutoff: int) -> Map<Seq<char>, EntryView> {
    Map::new(|k: Seq<char>| m.dom().contains(k) && gc_keeps(m[k], cutoff), |k: Seq<char>| m[k])
}

/// Stamp order: no stamp first, then stamps in ascending time.
pub open spec fn stamp_lt(a: Option<i64>, b: Option<i64>) -> bool {
    match (a, b) {
        (None, Some(_)) => true,
        (Some(x), Some(y)) => x < y,
        _ => false,
    }
}

/// Whether entry `x`'s state comes after `y`'s, last write winning: a
/// tombstone after no tombstone, then the later stamp (no stamp first), and
/// between two tombstones with one stamp a fill after a cancellation, so
/// that the order is strict and total and both books pick the same state.
pub open spec fn state_after(x: EntryView, y: EntryView) -> bool {
    match (x.tombstone, y.tombstone) {
        (None, Some(_)) => false,
        (Some(_), None) => true,
        _ => stamp_lt(y.tombstoned_at, x.tombstoned_at) || (x.tombstoned_at == y.tombstoned_at
            && x.tombstone == Some(TombstoneKind::Filled) && y.tombstone == Some(TombstoneKind::Cancelled)),
    }
}

/// Whether merging takes the other book's state (tombstone and its time)
/// for an id that both books hold, by comparing the two copies' order clocks:
///   - ours Before theirs, or the two Concurrent: their tombstone, if they
///     have one;
///   - ours After theirs: ours stays;
///   - Equal (the same signed order on both sides): the later state of the
///     two (`state_after`). Keeping ours here would leave two replicas that
///     tombstoned the same order differently apart for good; the book
///     promises convergence, with last-write-wins between conflicting
///     operations, so the later write wins.
pub open spec fn adopts_state(ours: EntryView, theirs: EntryView) -> bool {
    match clock_ordering(ours.order.vector_clock, theirs.order.vector_clock) {
        ClockOrdering::Equal => state_after(theirs, ours),
        ClockOrdering::Before | ClockOrdering::Concurrent => theirs.tombstone is Some,
        ClockOrdering::After => false,
    }
}

/// The entries after merging the other book's entries into ours: every id
/// of either book; for an id both hold, our order, with their state where
/// `adopts_state` says so.
pub open spec fn merged_entries(a: Map<Seq<char>, EntryView>, b: Map<Seq<char>, EntryView>) -> Map<Seq<char>, EntryView> {
    Map::new(
        |k: Seq<char>| a.dom().contains(k) || b.dom().contains(k),
        |k: Seq<char>|
            if !a.dom().contains(k) {
                b[k]
            } else if b.dom().contains(k) && adopts_state(a[k], b[k]) {
                EntryView { order: a[k].order, tombstone: b[k].tombstone, tombstoned_at: b[k].tombstoned_at }
            } else {
                a[k]
            },
    )
}

/// The fills after merging the other book's fills into ours: the larger
/// of the two, a missing fill counting as 0.
pub open spec fn merged_fills(a: Map<Seq<char>, Dec>, b: Map<Seq<char>, Dec>) -> Map<Seq<char>, Dec> {
    Map::new(
        |k: Seq<char>| a.dom().contains(k) || b.dom().contains(k),
        |k: Seq<char>|
            if b.dom().contains(k) {
                let cur = if a.dom().contains(k) {
                    a[k]
                } else {
                    dec_zero()
                };
                if dec_lt(cur, b[k]) {
                    b[k]
                } else {
                    cur
                }
            } else {
                a[k]
            },
    )
}

/// The tombstone kind that a persisted text names: "Cancelled" or "Filled".
pub open spec fn tombstone_kind_named(t: Option<Seq<char>>) -> Option<TombstoneKind> {
    match t {
        Some(s) => if s == "Cancelled"@ {
            Some(TombstoneKind::Cancelled)
        } else if s == "Filled"@ {
            Some(TombstoneKind::Filled)
        } else {
            None
        },
        None => None,
    }
}

/// The first (up to) 8 bytes of the owner's UTF-8 encoding, as text.
pub open spec fn owner_prefix(owner: Seq<char>) -> Seq<char> {
    let b = encode_utf8(owner);
    decode_utf8(b.take(if b.len() < 8 { b.len() as int } else { 8 }))
}

/// The owner's byte length, capped at 8, falls on a character boundary.
pub open spec fn owner_prefix_ok(owner: Seq<char>) -> bool {
    let b = encode_utf8(owner);
    is_char_boundary(b, if b.len() < 8 { b.len() as int } else { 8 })
}

/// The id of an order created locally: `{unix_millis}-{owner prefix}`.
pub open spec fn local_order_id(now_millis: nat, owner: Seq<char>) -> Seq<char> {
    nat_text(now_millis) + seq!['-'] + owner_prefix(owner)
}

/// An order as created locally, before it is signed.
pub open spec fn unsigned_order(
    id: Seq<char>,
    owner: Seq<char>,
    side: Side,
    pair: Seq<char>,
    price: Seq<char>,
    amount: Seq<char>,
    expiry: i64,
    nonce: u64,
    clock: Seq<(Seq<char>, u64)>,
) -> OrderView {
    OrderView { id, owner, side, pair, price, amount, expiry, nonce, signature: Seq::empty(), vector_clock: clock }
}

/// The text of the replay error for an order nonce that is not above the last one seen.
pub open spec fn replay_text(nonce: u64, last: u64, owner: Seq<char>) -> Seq<char> {
    "sqlite: "@ + replay_detail(nonce, last, owner)
}

/// `os` lists the book's fillable orders, each exactly once.
pub open spec fn fillable_listing(v: BookView, os: Seq<OrderView>) -> bool {
    &&& forall|j: int| 0 <= j < os.len() ==> is_fillable(v, (#[trigger] os[j]).id) && v.entries[os[j].id].order == os[j]
    &&& forall|k: Seq<char>| #[trigger] is_fillable(v, k) ==> exists|j: int| 0 <= j < os.len() && (#[trigger] os[j]).id == k
    &&& forall|a: int, b: int| 0 <= a < b < os.len() ==> (#[trigger] os[a]).id != (#[trigger] os[b]).id
}

/// The views of a list of orders.
pub open spec fn order_views(os: Seq<Order>) -> Seq<OrderView> {
    os.map_values(|o: Order| o@)
}

pub proof fn lemma_live_keys_insert(m: Map<Seq<char>, EntryView>, k: Seq<char>, e: EntryView)
    requires
        m.dom().finite(),
        !m.dom().contains(k),
    ensures
        live_keys(m).finite(),
        live_keys(m.insert(k, e)) == (if e.tombstone is None {
            live_keys(m).insert(k)
        } else {
            live_keys(m)
        }),
{
    m.dom().lemma_len_filter(|x: Seq<char>| m[x].tombstone is None);
    let l2 = live_keys(m.insert(k, e));
    let expected = if e.tombstone is None {
        live_keys(m).insert(k)
    } else {
        live_keys(m)
    };
    assert(l2 =~= expected);
}

impl OrderBook {
    closed spec fn entry_pairs(&self) -> Seq<(Seq<char>, EntryView)> {
        self.entries@.map_values(|e: BookEntry| (e.order.id@, e@))
    }

    closed spec fn fill_pairs(&self) -> Seq<(Seq<char>, Dec)> {
        self.fills@.map_values(|f: FillEntry| (f.order_id@, f.amount))
    }

    closed spec fn pending_pairs(&self) -> Seq<(Seq<char>, i64)> {
        self.pending@.map_values(|p: PendingCancel| (p.order_id@, p.at))
    }

    /// The book is well formed: one entry per id, canonical clocks, valid fills.
    pub closed spec fn wf(&self) -> bool {
        &&& keys_distinct(self.entry_pairs())
        &&& keys_distinct(self.fill_pairs())
        &&& keys_distinct(self.pending_pairs())
        &&& self.clock.wf()
        &&& forall|i: int| 0 <= i < self.entries@.len() ==> (#[trigger] self.entries@[i]).order.wf()
        &&& forall|i: int| 0 <= i < self.fills@.len() ==> (#[trigger] self.fills@[i]).amount.wf()
    }

    /// What well-formedness says of the view.
    pub proof fn lemma_wf(&self)
        requires
            self.wf(),
        ensures
            book_view_wf(self@),
    {
        lemma_keyed_finite(self.entry_pairs());
        assert forall|k: Seq<char>| #[trigger] self@.entries.dom().contains(k) implies self@.entries[k].order.id == k
            && clock_wf(self@.entries[k].order.vector_clock) by {
            lemma_keyed_dom(self.entry_pairs(), k);
            let i = choose|i: int| 0 <= i < self.entry_pairs().len() && #[trigger] self.entry_pairs()[i].0 == k;
            lemma_keyed_index(self.entry_pairs(), i);
            assert(self.entries@[i].order.wf());
        }
        assert forall|k: Seq<char>| #[trigger] self@.fills.dom().contains(k) implies self@.fills[k].wf() by {
            lemma_keyed_dom(self.fill_pairs(), k);
            let i = choose|i: int| 0 <= i < self.fill_pairs().len() && #[trigger] self.fill_pairs()[i].0 == k;
            lemma_keyed_index(self.fill_pairs(), i);
            assert(self.fills@[i].amount.wf());
        }
    }

    pub fn new(local_peer: String) -> (r: Self)
        ensures
            r.wf(),
            r@.entries == Map::<Seq<char>, EntryView>::empty(),
            r@.fills == Map::<Seq<char>, Dec>::empty(),
            r@.clock == Seq::<(Seq<char>, u64)>::empty(),
            r@.local_peer == local_peer@,
            r@.pending == Map::<Seq<char>, i64>::empty(),
    {
        let r = OrderBook {
            entries: Vec::new(),
            fills: Vec::new(),
            clock: VectorClock::new(),
            local_peer,
            pending: Vec::new(),
        };
        assert(r.entry_pairs() =~= Seq::<(Seq<char>, EntryView)>::empty());
        assert(r.fill_pairs() =~= Seq::<(Seq<char>, Dec)>::empty());
        assert(r.pending_pairs() =~= Seq::<(Seq<char>, i64)>::empty());
        r
    }

    pub fn local_peer(&self) -> (r: &str)
        ensures
            r@ == self@.local_peer,
    {
        self.local_peer.as_str()
    }

    pub fn clock(&self) -> (r: &VectorClock)
        ensures
            r@ == self@.clock,
    {
        &self.clock
    }

    /// Position of the entry for `order_id`.
    fn find_entry(&self, order_id: &str) -> (r: Option<usize>)
        requires
            self.wf(),
        ensures
            r is None ==> !self@.entries.dom().contains(order_id@),
            r matches Some(i) ==> i < self.entries@.len() && self.entries@[i as int].order.id@ == order_id@
                && self@.entries.dom().contains(order_id@) && self@.entries[order_id@]
                == self.entries@[i as int]@,
    {
        let mut i: usize = 0;
        while i < self.entries.len()
            invariant
                self.wf(),
                i <= self.entries@.len(),
                forall|j: int| 0 <= j < i ==> self.entries@[j].order.id@ != order_id@,
            decreases self.entries@.len() - i,
        {
            if compare_keys(self.entries[i].order.id.as_str(), order_id) == KeyOrder::Equal {
                proof {
                    lemma_keyed_index(self.entry_pairs(), i as int);
                }
                return Some(i);
            }
            i = i + 1;
        }
        proof {
            lemma_keyed_dom(self.entry_pairs(), order_id@);
            if self@.entries.dom().contains(order_id@) {
                let j = choose|j: int| 0 <= j < self.entry_pairs().len() && #[trigger] self.entry_pairs()[j].0
                    == order_id@;
                assert(self.entries@[j].order.id@ == order_id@);
            }
        }
        None
    }

    /// Position of the fill for `order_id`.
    fn find_fill(&self, order_id: &str) -> (r: Option<usize>)
        requires
            self.wf(),
        ensures
            r is None ==> !self@.fills.dom().contains(order_id@),
            r matches Some(i) ==> i < self.fills@.len() && self.fills@[i as int].order_id@ == order_id@
                && self@.fills.dom().contains(order_id@) && self@.fills[order_id@] == self.fills@[i as int].amount,
    {
        let mut i: usize = 0;
        while i < self.fills.len()
            invariant
                self.wf(),
                i <= self.fills@.len(),
                forall|j: int| 0 <= j < i ==> self.fills@[j].order_id@ != order_id@,
            decreases self.fills@.len() - i,
        {
            if compare_keys(self.fills[i].order_id.as_str(), order_id) == KeyOrder::Equal {
                proof {
                    lemma_keyed_index(self.fill_pairs(), i as int);
                }
                return Some(i);
            }
            i = i + 1;
        }
        proof {
            lemma_keyed_dom(self.fill_pairs(), order_id@);
            if self@.fills.dom().contains(order_id@) {
                let j = choose|j: int| 0 <= j < self.fill_pairs().len() && #[trigger] self.fill_pairs()[j].0
                    == order_id@;
                assert(self.fills@[j].order_id@ == order_id@);
            }
        }
        None
    }

    /// Total entries (live + tombstones).
    pub fn total_count(&self) -> (r: usize)
        requires
            self.wf(),
        ensures
            r == self@.entries.dom().len(),
    {
        proof {
            lemma_keyed_finite(self.entry_pairs());
        }
        self.entries.len()
    }

    /// Get a live entry by order id: `None` for an unknown order or a tombstone.
    pub fn get(&self, order_id: &str) -> (r: Option<&BookEntry>)
        requires
            self.wf(),
        ensures
            r is None <==> !live_ids(self@).contains(order_id@),
            r matches Some(e) ==> e@ == self@.entries[order_id@],
    {
        match self.find_entry(order_id) {
            Some(i) => if self.entries[i].tombstone.is_none() {
                Some(&self.entries[i])
            } else {
                None
            },
            None => None,
        }
    }

    /// The entry held for an order id, live or tombstone (what gets stored).
    pub fn entry(&self, order_id: &str) -> (r: Option<&BookEntry>)
        requires
            self.wf(),
        ensures
            r is None <==> !self@.entries.dom().contains(order_id@),
            r matches Some(e) ==> e@ == self@.entries[order_id@],
    {
        match self.find_entry(order_id) {
            Some(i) => Some(&self.entries[i]),
            None => None,
        }
    }
}


impl OrderBook {
    /// Files an entry under its order's id, replacing any entry there.
    fn find_pending(&self, order_id: &str) -> (r: Option<usize>)
        requires
            self.wf(),
        ensures
            r is None ==> !self@.pending.dom().contains(order_id@),
            r matches Some(i) ==> i < self.pending@.len() && self.pending@[i as int].order_id@ == order_id@
                && self@.pending.dom().contains(order_id@) && self@.pending[order_id@] == self.pending@[i as int].at,
    {
        let mut i: usize = 0;
        while i < self.pending.len()
            invariant
                self.wf(),
                i <= self.pending@.len(),
                forall|j: int| 0 <= j < i ==> self.pending@[j].order_id@ != order_id@,
            decreases self.pending@.len() - i,
        {
            if compare_keys(self.pending[i].order_id.as_str(), order_id) == KeyOrder::Equal {
                proof {
                    lemma_keyed_index(self.pending_pairs(), i as int);
                }
                return Some(i);
            }
            i = i + 1;
        }
        proof {
            lemma_keyed_dom(self.pending_pairs(), order_id@);
            if self@.pending.dom().contains(order_id@) {
                let j = choose|j: int| 0 <= j < self.pending_pairs().len() && #[trigger] self.pending_pairs()[j].0
                    == order_id@;
                assert(self.pending@[j].order_id@ == order_id@);
            }
        }
        None
    }

    /// Records a cancellation awaiting its order.
    fn push_pending(&mut self, order_id: &str, at: i64)
        requires
            old(self).wf(),
            !old(self)@.pending.dom().contains(order_id@),
        ensures
            final(self).wf(),
            final(self)@.pending == old(self)@.pending.insert(order_id@, at),
            final(self)@.entries == old(self)@.entries,
            final(self)@.fills == old(self)@.fills,
            final(self)@.clock == old(self)@.clock,
            final(self)@.local_peer == old(self)@.local_peer,
    {
        let ghost before = self.pending_pairs();
        proof {
            lemma_keyed_dom(before, order_id@);
            assert forall|j: int| 0 <= j < before.len() implies before[j].0 != order_id@ by {
                if before[j].0 == order_id@ {
                    assert(keyed_map(before).dom().contains(order_id@));
                }
            }
        }
        let mut id = String::new();
        push_str(&mut id, order_id);
        self.pending.push(PendingCancel { order_id: id, at });
        proof {
            assert(self.pending_pairs() =~= before.push((order_id@, at)));
            lemma_keyed_push(before, (order_id@, at));
        }
    }

    /// Takes the cancellation at position `i` out of the pending ones; returns its time.
    fn take_pending(&mut self, i: usize) -> (r: i64)
        requires
            old(self).wf(),
            i < old(self).pending@.len(),
        ensures
            final(self).wf(),
            r == old(self)@.pending[old(self).pending@[i as int].order_id@],
            final(self)@.pending == old(self)@.pending.remove(old(self).pending@[i as int].order_id@),
            final(self)@.entries == old(self)@.entries,
            final(self)@.fills == old(self)@.fills,
            final(self)@.clock == old(self)@.clock,
            final(self)@.local_peer == old(self)@.local_peer,
    {
        let ghost before = self.pending_pairs();
        proof {
            lemma_keyed_index(before, i as int);
            lemma_keyed_remove(before, i as int);
        }
        let p = self.pending.remove(i);
        proof {
            assert(self.pending_pairs() =~= before.remove(i as int));
        }
        p.at
    }

    fn put_entry(&mut self, e: BookEntry)
        requires
            old(self).wf(),
            e.order.wf(),
        ensures
            final(self).wf(),
            final(self)@.entries == old(self)@.entries.insert(e.order.id@, e@),
            final(self)@.fills == old(self)@.fills,
            final(self)@.clock == old(self)@.clock,
            final(self)@.local_peer == old(self)@.local_peer,
            final(self)@.pending == old(self)@.pending,
    {
        let ghost ev = e@;
        match self.find_entry(e.order.id.as_str()) {
            Some(i) => {
                let ghost before = self.entry_pairs();
                self.entries.set(i, e);
                proof {
                    assert(self.entry_pairs() =~= before.update(i as int, (before[i as int].0, ev)));
                    lemma_keyed_update(before, i as int, ev);
                    assert forall|j: int| 0 <= j < self.entries@.len() implies (#[trigger] self.entries@[j]).order.wf() by {
                        if j != i {
                            assert(self.entries@[j] == old(self).entries@[j]);
                        }
                    }
                }
            },
            None => {
                let ghost before = self.entry_pairs();
                self.entries.push(e);
                proof {
                    assert(self.entry_pairs() =~= before.push((ev.order.id, ev)));
                    lemma_keyed_push(before, (ev.order.id, ev));
                    assert forall|j: int| 0 <= j < self.entries@.len() implies (#[trigger] self.entries@[j]).order.wf() by {
                        if j < before.len() {
                            assert(self.entries@[j] == old(self).entries@[j]);
                        }
                    }
                }
            },
        }
    }

    /// Marks the entry at position `i` as a tombstone.
    fn set_state(&mut self, i: usize, tombstone: Option<TombstoneKind>, at: Option<i64>)
        requires
            old(self).wf(),
            i < old(self).entries@.len(),
        ensures
            final(self).wf(),
            final(self)@.entries == old(self)@.entries.insert(
                old(self).entries@[i as int].order.id@,
                EntryView { order: old(self).entries@[i as int].order@, tombstone, tombstoned_at: at },
            ),
            final(self)@.fills == old(self)@.fills,
            final(self)@.clock == old(self)@.clock,
            final(self)@.local_peer == old(self)@.local_peer,
            final(self)@.pending == old(self)@.pending,
            final(self).entries@.len() == old(self).entries@.len(),
    {
        let ghost before = self.entry_pairs();
        self.entries[i].tombstone = tombstone;
        self.entries[i].tombstoned_at = at;
        proof {
            let ev = EntryView { order: old(self).entries@[i as int].order@, tombstone, tombstoned_at: at };
            assert(self.entry_pairs() =~= before.update(i as int, (before[i as int].0, ev)));
            lemma_keyed_update(before, i as int, ev);
            assert forall|j: int| 0 <= j < self.entries@.len() implies (#[trigger] self.entries@[j]).order.wf() by {
                if j != i {
                    assert(self.entries@[j] == old(self).entries@[j]);
                } else {
                    assert(self.entries@[j].order == old(self).entries@[j].order);
                }
            }
        }
    }

    fn set_tombstone(&mut self, i: usize, kind: TombstoneKind, at: Option<i64>)
        requires
            old(self).wf(),
            i < old(self).entries@.len(),
        ensures
            final(self).wf(),
            final(self)@.entries == old(self)@.entries.insert(
                old(self).entries@[i as int].order.id@,
                EntryView { order: old(self).entries@[i as int].order@, tombstone: Some(kind), tombstoned_at: at },
            ),
            final(self)@.fills == old(self)@.fills,
            final(self)@.clock == old(self)@.clock,
            final(self)@.local_peer == old(self)@.local_peer,
            final(self)@.pending == old(self)@.pending,
            final(self).entries@.len() == old(self).entries@.len(),
    {
        let ghost before = self.entry_pairs();
        self.entries[i].tombstone = Some(kind);
        self.entries[i].tombstoned_at = at;
        proof {
            let ev = EntryView { order: old(self).entries@[i as int].order@, tombstone: Some(kind), tombstoned_at: at };
            assert(self.entry_pairs() =~= before.update(i as int, (before[i as int].0, ev)));
            lemma_keyed_update(before, i as int, ev);
            assert forall|j: int| 0 <= j < self.entries@.len() implies (#[trigger] self.entries@[j]).order.wf() by {
                if j != i {
                    assert(self.entries@[j] == old(self).entries@[j]);
                } else {
                    assert(self.entries@[j].order == old(self).entries@[j].order);
                }
            }
        }
    }

    /// Sets the cumulative fill of an order.
    fn put_fill(&mut self, order_id: &str, amount: Dec)
        requires
            old(self).wf(),
            amount.wf(),
        ensures
            final(self).wf(),
            final(self)@.fills == old(self)@.fills.insert(order_id@, amount),
            final(self)@.entries == old(self)@.entries,
            final(self)@.clock == old(self)@.clock,
            final(self)@.local_peer == old(self)@.local_peer,
            final(self)@.pending == old(self)@.pending,
    {
        let ghost before = self.fill_pairs();
        match self.find_fill(order_id) {
            Some(i) => {
                self.fills[i].amount = amount;
                proof {
                    assert(self.fill_pairs() =~= before.update(i as int, (before[i as int].0, amount)));
                    lemma_keyed_update(before, i as int, amount);
                    assert forall|j: int| 0 <= j < self.fills@.len() implies (#[trigger] self.fills@[j]).amount.wf() by {
                        if j != i {
                            assert(self.fills@[j] == old(self).fills@[j]);
                        }
                    }
                }
            },
            None => {
                self.fills.push(FillEntry { order_id: order_id.to_owned(), amount });
                proof {
                    assert(self.fill_pairs() =~= before.push((order_id@, amount)));
                    lemma_keyed_push(before, (order_id@, amount));
                    assert forall|j: int| 0 <= j < self.fills@.len() implies (#[trigger] self.fills@[j]).amount.wf() by {
                        if j < before.len() {
                            assert(self.fills@[j] == old(self).fills@[j]);
                        }
                    }
                }
            },
        }
    }

    /// Test-only in spirit: insert an order without signature or nonce checks.
    /// Used to build a known book state quickly.
    pub fn insert_for_test(&mut self, order: Order)
        requires
            old(self).wf(),
            order.wf(),
        ensures
            final(self).wf(),
            final(self)@.entries == old(self)@.entries.insert(order@.id, live_entry(order@)),
            final(self)@.fills == old(self)@.fills,
            final(self)@.clock == old(self)@.clock,
            final(self)@.local_peer == old(self)@.local_peer,
            final(self)@.pending == old(self)@.pending,
    {
        self.put_entry(BookEntry { order, tombstone: None, tombstoned_at: None });
    }
}


impl OrderBook {
    /// Number of live (non-tombstoned) orders.
    pub fn live_count(&self) -> (r: usize)
        requires
            self.wf(),
        ensures
            r == live_ids(self@).len(),
    {
        let ghost pairs = self.entry_pairs();
        let mut count: usize = 0;
        let mut i: usize = 0;
        proof {
            assert(pairs.take(0) =~= Seq::<(Seq<char>, EntryView)>::empty());
            assert(live_keys(keyed_map(pairs.take(0))) =~= Set::<Seq<char>>::empty());
        }
        while i < self.entries.len()
            invariant
                self.wf(),
                pairs == self.entry_pairs(),
                i <= self.entries@.len(),
                count <= i,
                live_keys(keyed_map(pairs.take(i as int))).finite(),
                count == live_keys(keyed_map(pairs.take(i as int))).len(),
            decreases self.entries@.len() - i,
        {
            proof {
                let t = pairs.take(i as int);
                assert(pairs.take(i + 1).drop_last() =~= t);
                lemma_keyed_finite(t);
                lemma_keyed_dom(t, pairs[i as int].0);
                assert(!keyed_map(t).dom().contains(pairs[i as int].0)) by {
                    if keyed_map(t).dom().contains(pairs[i as int].0) {
                        let j = choose|j: int| 0 <= j < t.len() && #[trigger] t[j].0 == pairs[i as int].0;
                        assert(pairs[j].0 == pairs[i as int].0);
                    }
                }
                lemma_live_keys_insert(keyed_map(t), pairs[i as int].0, pairs[i as int].1);
            }
            if self.entries[i].tombstone.is_none() {
                count = count + 1;
            }
            i = i + 1;
        }
        assert(pairs.take(i as int) =~= pairs);
        count
    }

    /// All live orders (each once, in no particular order).
    pub fn live_orders(&self) -> (r: Vec<Order>)
        requires
            self.wf(),
        ensures
            forall|j: int| 0 <= j < r@.len() ==> live_ids(self@).contains((#[trigger] r@[j])@.id)
                && self@.entries[r@[j]@.id].order == r@[j]@ && r@[j].wf(),
            forall|k: Seq<char>| #[trigger] live_ids(self@).contains(k) ==> exists|j: int| 0 <= j < r@.len()
                && (#[trigger] r@[j])@.id == k,
            forall|a: int, b: int| 0 <= a < b < r@.len() ==> (#[trigger] r@[a])@.id != (#[trigger] r@[b])@.id,
    {
        let ghost pairs = self.entry_pairs();
        let mut out: Vec<Order> = Vec::new();
        let ghost mut src: Seq<int> = Seq::empty();
        let mut i: usize = 0;
        while i < self.entries.len()
            invariant
                self.wf(),
                pairs == self.entry_pairs(),
                i <= self.entries@.len(),
                src.len() == out@.len(),
                forall|j: int| 0 <= j < src.len() ==> 0 <= #[trigger] src[j] < i,
                forall|j: int| 0 <= j < src.len() ==> self.entries@[#[trigger] src[j]].tombstone is None,
                forall|j: int| 0 <= j < src.len() ==> (#[trigger] out@[j])@ == self.entries@[src[j]].order@,
                forall|j: int| 0 <= j < src.len() ==> (#[trigger] out@[j]).wf(),
                forall|a: int, b: int| 0 <= a < b < src.len() ==> #[trigger] src[a] < #[trigger] src[b],
                forall|m: int| 0 <= m < i && (#[trigger] self.entries@[m]).tombstone is None ==> src.contains(m),
            decreases self.entries@.len() - i,
        {
            if self.entries[i].tombstone.is_none() {
                let o = self.entries[i].order.clone();
                proof {
                    assert(self.entries@[i as int].order.wf());
                }
                out.push(o);
                proof {
                    let old_src = src;
                    src = src.push(i as int);
                    assert forall|m: int| 0 <= m < i + 1 && (#[trigger] self.entries@[m]).tombstone is None implies src.contains(m) by {
                        if m == i {
                            assert(src[src.len() - 1] == m);
                        } else {
                            assert(old_src.contains(m));
                            let j = choose|j: int| 0 <= j < old_src.len() && old_src[j] == m;
                            assert(src[j] == m);
                        }
                    }
                }
            }
            i = i + 1;
        }
        proof {
            assert forall|j: int| 0 <= j < out@.len() implies live_ids(self@).contains((#[trigger] out@[j])@.id)
                && self@.entries[out@[j]@.id].order == out@[j]@ by {
                lemma_keyed_index(pairs, src[j]);
            }
            assert forall|k: Seq<char>| #[trigger] live_ids(self@).contains(k) implies exists|j: int| 0 <= j < out@.len()
                && (#[trigger] out@[j])@.id == k by {
                lemma_keyed_dom(pairs, k);
                let m = choose|m: int| 0 <= m < pairs.len() && #[trigger] pairs[m].0 == k;
                lemma_keyed_index(pairs, m);
                assert(self.entries@[m].tombstone is None);
                assert(src.contains(m));
                let j = choose|j: int| 0 <= j < src.len() && src[j] == m;
                assert(out@[j]@.id == k);
            }
            assert forall|a: int, b: int| 0 <= a < b < out@.len() implies (#[trigger] out@[a])@.id != (#[trigger] out@[b])@.id by {
                assert(src[a] < src[b]);
                assert(pairs[src[a]].0 != pairs[src[b]].0);
            }
        }
        out
    }

    /// The remaining amount of an order, or `None` where the subtraction overflows.
    fn remaining_inner(&self, order_id: &str) -> (r: Option<Dec>)
        requires
            self.wf(),
        ensures
            r == remaining_of(self@, order_id@),
            r matches Some(d) ==> d.wf(),
    {
        proof {
            self.lemma_wf();
        }
        let i = match self.find_entry(order_id) {
            Some(i) => i,
            None => return Some(Dec::zero()),
        };
        let total = match dec_parse(self.entries[i].order.amount.as_str()) {
            Some(d) => d,
            None => Dec::zero(),
        };
        let filled = match self.find_fill(order_id) {
            Some(j) => self.fills[j].amount,
            None => Dec::zero(),
        };
        if !dec_less(filled, total) {
            return Some(Dec::zero());
        }
        match dec_checked_sub(total, filled) {
            Some(d) => Some(d),
            None => None,
        }
    }

    /// How much of an order is still fillable.
    /// Returns 0 if the order is unknown or already fully filled.
    pub fn remaining(&self, order_id: &str) -> (r: Dec)
        requires
            self.wf(),
            remaining_of(self@, order_id@) is Some,
        ensures
            Some(r) == remaining_of(self@, order_id@),
            r.wf(),
    {
        match self.remaining_inner(order_id) {
            Some(d) => d,
            None => Dec::zero(),
        }
    }

    /// `remaining`, or `None` where the subtraction would overflow.
    pub fn remaining_checked(&self, order_id: &str) -> (r: Option<Dec>)
        requires
            self.wf(),
        ensures
            r == remaining_of(self@, order_id@),
            r matches Some(d) ==> d.wf(),
    {
        match self.remaining_inner(order_id) {
            Some(_) => Some(self.remaining(order_id)),
            None => None,
        }
    }

    /// Record a fill against an order. Fills accumulate.
    pub fn record_fill(&mut self, order_id: &str, amount: Dec) -> (r: Result<(), String>)
        requires
            old(self).wf(),
            amount.wf(),
            old(self)@.entries.dom().contains(order_id@) ==> fill_after(old(self)@, order_id@, amount) is Some,
        ensures
            final(self).wf(),
            final(self)@.entries == old(self)@.entries,
            final(self)@.clock == old(self)@.clock,
            final(self)@.local_peer == old(self)@.local_peer,
            final(self)@.pending == old(self)@.pending,
            !old(self)@.entries.dom().contains(order_id@) ==> (r matches Err(e) && e@ == "unknown order "@
                + order_id@) && final(self)@.fills == old(self)@.fills,
            old(self)@.entries.dom().contains(order_id@) ==> r is Ok && final(self)@.fills == old(self)@.fills.insert(
                order_id@,
                fill_after(old(self)@, order_id@, amount).unwrap(),
            ),
    {
        proof {
            self.lemma_wf();
            reveal_strlit("unknown order ");
        }
        if self.find_entry(order_id).is_none() {
            let mut m = String::new();
            push_str(&mut m, "unknown order ");
            push_str(&mut m, order_id);
            return Err(m);
        }
        let current = match self.find_fill(order_id) {
            Some(j) => self.fills[j].amount,
            None => Dec::zero(),
        };
        match dec_checked_add(current, amount) {
            Some(sum) => {
                self.put_fill(order_id, sum);
                Ok(())
            },
            None => {
                // `requires` asks that the new cumulative fill fits.
                proof {
                    assert(false);
                }
                Ok(())
            },
        }
    }

    /// `record_fill`, which leaves the book as it was and reports where the
    /// cumulative fill would overflow.
    pub fn record_fill_checked(&mut self, order_id: &str, amount: Dec) -> (r: Result<(), String>)
        requires
            old(self).wf(),
            amount.wf(),
        ensures
            final(self).wf(),
            final(self)@.entries == old(self)@.entries,
            final(self)@.clock == old(self)@.clock,
            final(self)@.local_peer == old(self)@.local_peer,
            final(self)@.pending == old(self)@.pending,
            !old(self)@.entries.dom().contains(order_id@) ==> (r matches Err(e) && e@ == "unknown order "@
                + order_id@) && final(self)@.fills == old(self)@.fills,
            old(self)@.entries.dom().contains(order_id@) && fill_after(old(self)@, order_id@, amount) is None
                ==> (r matches Err(e) && e@ == "fill overflow for order "@ + order_id@) && final(self)@.fills
                == old(self)@.fills,
            old(self)@.entries.dom().contains(order_id@) && fill_after(old(self)@, order_id@, amount) is Some
                ==> r is Ok && final(self)@.fills == old(self)@.fills.insert(
                order_id@,
                fill_after(old(self)@, order_id@, amount).unwrap(),
            ),
    {
        proof {
            self.lemma_wf();
            reveal_strlit("fill overflow for order ");
        }
        if self.find_entry(order_id).is_some() {
            let current = match self.find_fill(order_id) {
                Some(j) => self.fills[j].amount,
                None => Dec::zero(),
            };
            if dec_checked_add(current, amount).is_none() {
                let mut m = String::new();
                push_str(&mut m, "fill overflow for order ");
                push_str(&mut m, order_id);
                return Err(m);
            }
        }
        self.record_fill(order_id, amount)
    }
}


impl OrderBook {
    /// The live orders that still have remaining amount to fill.
    pub fn fillable_orders(&self) -> (r: Vec<Order>)
        requires
            self.wf(),
            remainders_defined(self@),
        ensures
            fillable_listing(self@, order_views(r@)),
            forall|j: int| 0 <= j < r@.len() ==> (#[trigger] r@[j]).wf(),
    {
        let ghost pairs = self.entry_pairs();
        let mut out: Vec<Order> = Vec::new();
        let ghost mut src: Seq<int> = Seq::empty();
        let mut i: usize = 0;
        while i < self.entries.len()
            invariant
                self.wf(),
                remainders_defined(self@),
                pairs == self.entry_pairs(),
                i <= self.entries@.len(),
                src.len() == out@.len(),
                forall|j: int| 0 <= j < src.len() ==> 0 <= #[trigger] src[j] < i,
                forall|j: int| 0 <= j < src.len() ==> is_fillable(self@, self.entries@[#[trigger] src[j]].order.id@),
                forall|j: int| 0 <= j < src.len() ==> (#[trigger] out@[j])@ == self.entries@[src[j]].order@,
                forall|j: int| 0 <= j < src.len() ==> (#[trigger] out@[j]).wf(),
                forall|a: int, b: int| 0 <= a < b < src.len() ==> #[trigger] src[a] < #[trigger] src[b],
                forall|m: int| 0 <= m < i && is_fillable(self@, (#[trigger] self.entries@[m]).order.id@) ==> src.contains(m),
            decreases self.entries@.len() - i,
        {
            proof {
                lemma_keyed_index(pairs, i as int);
            }
            if self.entries[i].tombstone.is_none() {
                proof {
                    assert(live_ids(self@).contains(pairs[i as int].0));
                }
                let rem = self.remaining(self.entries[i].order.id.as_str());
                if dec_less(Dec::zero(), rem) {
                    let o = self.entries[i].order.clone();
                    proof {
                        assert(self.entries@[i as int].order.wf());
                    }
                    out.push(o);
                    proof {
                        let old_src = src;
                        src = src.push(i as int);
                        assert forall|m: int| 0 <= m < i + 1 && is_fillable(self@, (#[trigger] self.entries@[m]).order.id@) implies src.contains(m) by {
                            if m == i {
                                assert(src[src.len() - 1] == m);
                            } else {
                                assert(old_src.contains(m));
                                let j = choose|j: int| 0 <= j < old_src.len() && old_src[j] == m;
                                assert(src[j] == m);
                            }
                        }
                    }
                }
            }
            i = i + 1;
        }
        proof {
            let os = order_views(out@);
            assert forall|j: int| 0 <= j < os.len() implies is_fillable(self@, (#[trigger] os[j]).id) && self@.entries[os[j].id].order == os[j] by {
                lemma_keyed_index(pairs, src[j]);
                assert(os[j] == out@[j]@);
            }
            assert forall|k: Seq<char>| #[trigger] is_fillable(self@, k) implies exists|j: int| 0 <= j < os.len() && (#[trigger] os[j]).id == k by {
                lemma_keyed_dom(pairs, k);
                let m = choose|m: int| 0 <= m < pairs.len() && #[trigger] pairs[m].0 == k;
                lemma_keyed_index(pairs, m);
                assert(self.entries@[m].order.id@ == k);
                assert(src.contains(m));
                let j = choose|j: int| 0 <= j < src.len() && src[j] == m;
                assert(os[j].id == k);
            }
            assert forall|a: int, b: int| 0 <= a < b < os.len() implies (#[trigger] os[a]).id != (#[trigger] os[b]).id by {
                assert(src[a] < src[b]);
                assert(pairs[src[a]].0 != pairs[src[b]].0);
            }
        }
        out
    }

    /// `fillable_orders`, or `None` where some live order's remaining amount
    /// cannot be computed without overflow.
    pub fn fillable_orders_checked(&self) -> (r: Option<Vec<Order>>)
        requires
            self.wf(),
        ensures
            r is None <==> !remainders_defined(self@),
            r matches Some(v) ==> fillable_listing(self@, order_views(v@)) && forall|j: int| 0 <= j < v@.len()
                ==> (#[trigger] v@[j]).wf(),
    {
        let ghost pairs = self.entry_pairs();
        let mut i: usize = 0;
        while i < self.entries.len()
            invariant
                self.wf(),
                pairs == self.entry_pairs(),
                i <= self.entries@.len(),
                forall|m: int| 0 <= m < i && live_ids(self@).contains(#[trigger] pairs[m].0) ==> remaining_of(self@, pairs[m].0) is Some,
            decreases self.entries@.len() - i,
        {
            proof {
                lemma_keyed_index(pairs, i as int);
            }
            if self.entries[i].tombstone.is_none() {
                if self.remaining_checked(self.entries[i].order.id.as_str()).is_none() {
                    proof {
                        assert(live_ids(self@).contains(pairs[i as int].0));
                    }
                    return None;
                }
            }
            i = i + 1;
        }
        proof {
            assert forall|k: Seq<char>| #[trigger] live_ids(self@).contains(k) implies remaining_of(self@, k) is Some by {
                lemma_keyed_dom(pairs, k);
                let m = choose|m: int| 0 <= m < pairs.len() && #[trigger] pairs[m].0 == k;
            }
        }
        Some(self.fillable_orders())
    }
}


/// The system clock's reading as a duration since the Unix epoch:
/// `SystemTime::now().duration_since(UNIX_EPOCH)`, as whole seconds and the
/// nanoseconds past them (`as_secs`, `subsec_nanos`, which std documents as
/// below one billion); `None` where the clock reads before the epoch.
/// Nothing else is stated of the reading.
#[verifier::external_body]
fn unix_time() -> (r: Option<(u64, u32)>)
    ensures
        r matches Some(t) ==> t.1 < 1_000_000_000,
{
    std::time::SystemTime::now().duration_since(std::time::UNIX_EPOCH).ok().map(|d| (d.as_secs(), d.subsec_nanos()))
}

/// Seconds since the Unix epoch, from the system clock (0 before the epoch).
pub(crate) fn now_secs() -> i64 {
    match unix_time() {
        Some((secs, _)) => secs as i64,
        None => 0,
    }
}

impl OrderBook {
    /// Cancel an order locally, at time `now`.
    pub fn cancel_local_at(&mut self, order_id: &str, now: i64) -> (r: Result<(), String>)
        requires
            old(self).wf(),
            counter(old(self)@.clock, old(self)@.local_peer) < u64::MAX,
        ensures
            final(self).wf(),
            final(self)@.fills == old(self)@.fills,
            final(self)@.local_peer == old(self)@.local_peer,
            final(self)@.pending == old(self)@.pending,
            !old(self)@.entries.dom().contains(order_id@) ==> (r matches Err(e) && e@ == "order "@ + order_id@
                + " not found"@) && final(self)@ == old(self)@,
            old(self)@.entries.dom().contains(order_id@) && old(self)@.entries[order_id@].tombstone is Some ==> (
            r matches Err(e) && e@ == "order "@ + order_id@ + " already tombstoned"@) && final(self)@ == old(self)@,
            old(self)@.entries.dom().contains(order_id@) && old(self)@.entries[order_id@].tombstone is None ==> r is Ok
                && final(self)@.entries == old(self)@.entries.insert(
                order_id@,
                tombstoned(old(self)@.entries[order_id@], TombstoneKind::Cancelled, now),
            ) && is_tick_of(final(self)@.clock, old(self)@.clock, old(self)@.local_peer),
    {
        proof {
            reveal_strlit("order ");
            reveal_strlit(" not found");
            reveal_strlit(" already tombstoned");
        }
        let i = match self.find_entry(order_id) {
            Some(i) => i,
            None => {
                let mut m = String::new();
                push_str(&mut m, "order ");
                push_str(&mut m, order_id);
                push_str(&mut m, " not found");
                return Err(m);
            },
        };
        if self.entries[i].tombstone.is_some() {
            let mut m = String::new();
            push_str(&mut m, "order ");
            push_str(&mut m, order_id);
            push_str(&mut m, " already tombstoned");
            return Err(m);
        }
        let ghost before = self@;
        tick(&mut self.clock, self.local_peer.as_str());
        proof {
            assert(self@.entries == before.entries);
        }
        self.set_tombstone(i, TombstoneKind::Cancelled, Some(now));
        Ok(())
    }

    /// Cancel an order locally, stamped with the system time.
    pub fn cancel_local(&mut self, order_id: &str) -> (r: Result<(), String>)
        requires
            old(self).wf(),
            counter(old(self)@.clock, old(self)@.local_peer) < u64::MAX,
        ensures
            final(self).wf(),
            final(self)@.fills == old(self)@.fills,
            final(self)@.local_peer == old(self)@.local_peer,
            final(self)@.pending == old(self)@.pending,
            !old(self)@.entries.dom().contains(order_id@) ==> (r matches Err(e) && e@ == "order "@ + order_id@
                + " not found"@) && final(self)@ == old(self)@,
            old(self)@.entries.dom().contains(order_id@) && old(self)@.entries[order_id@].tombstone is Some ==> (
            r matches Err(e) && e@ == "order "@ + order_id@ + " already tombstoned"@) && final(self)@ == old(self)@,
            old(self)@.entries.dom().contains(order_id@) && old(self)@.entries[order_id@].tombstone is None ==> r is Ok
                && (exists|now: i64| final(self)@.entries == old(self)@.entries.insert(
                order_id@,
                tombstoned(old(self)@.entries[order_id@], TombstoneKind::Cancelled, now),
            )) && is_tick_of(final(self)@.clock, old(self)@.clock, old(self)@.local_peer),
    {
        let now = now_secs();
        self.cancel_local_at(order_id, now)
    }

    /// Mark an order as filled, at time `now`.
    pub fn mark_filled_at(&mut self, order_id: &str, now: i64) -> (r: Result<(), String>)
        requires
            old(self).wf(),
            counter(old(self)@.clock, old(self)@.local_peer) < u64::MAX,
        ensures
            final(self).wf(),
            final(self)@.fills == old(self)@.fills,
            final(self)@.local_peer == old(self)@.local_peer,
            final(self)@.pending == old(self)@.pending,
            !old(self)@.entries.dom().contains(order_id@) ==> (r matches Err(e) && e@ == "order "@ + order_id@
                + " not found"@) && final(self)@ == old(self)@,
            old(self)@.entries.dom().contains(order_id@) ==> r is Ok && final(self)@.entries
                == old(self)@.entries.insert(
                order_id@,
                tombstoned(old(self)@.entries[order_id@], TombstoneKind::Filled, now),
            ) && is_tick_of(final(self)@.clock, old(self)@.clock, old(self)@.local_peer),
    {
        proof {
            reveal_strlit("order ");
            reveal_strlit(" not found");
        }
        let i = match self.find_entry(order_id) {
            Some(i) => i,
            None => {
                let mut m = String::new();
                push_str(&mut m, "order ");
                push_str(&mut m, order_id);
                push_str(&mut m, " not found");
                return Err(m);
            },
        };
        let ghost before = self@;
        tick(&mut self.clock, self.local_peer.as_str());
        proof {
            assert(self@.entries == before.entries);
        }
        self.set_tombstone(i, TombstoneKind::Filled, Some(now));
        Ok(())
    }

    /// Mark an order as filled, stamped with the system time.
    pub fn mark_filled(&mut self, order_id: &str) -> (r: Result<(), String>)
        requires
            old(self).wf(),
            counter(old(self)@.clock, old(self)@.local_peer) < u64::MAX,
        ensures
            final(self).wf(),
            final(self)@.fills == old(self)@.fills,
            final(self)@.local_peer == old(self)@.local_peer,
            final(self)@.pending == old(self)@.pending,
            !old(self)@.entries.dom().contains(order_id@) ==> (r matches Err(e) && e@ == "order "@ + order_id@
                + " not found"@) && final(self)@ == old(self)@,
            old(self)@.entries.dom().contains(order_id@) ==> r is Ok && (exists|now: i64| final(self)@.entries
                == old(self)@.entries.insert(
                order_id@,
                tombstoned(old(self)@.entries[order_id@], TombstoneKind::Filled, now),
            )) && is_tick_of(final(self)@.clock, old(self)@.clock, old(self)@.local_peer),
    {
        let now = now_secs();
        self.mark_filled_at(order_id, now)
    }

    /// Apply a remote cancellation at time `now`. Last-write-wins via vector
    /// clocks; a cancellation of an order not yet received is kept for it.
    pub fn apply_remote_cancel_at(
        &mut self,
        order_id: &str,
        remote_clock: &VectorClock,
        remote_peer: &str,
        now: i64,
    ) -> (r: Result<(), String>)
        requires
            old(self).wf(),
            remote_clock.wf(),
        ensures
            r is Ok,
            final(self).wf(),
            final(self)@.fills == old(self)@.fills,
            final(self)@.local_peer == old(self)@.local_peer,
            final(self)@.pending == pending_after_remote_cancel(old(self)@, order_id@, now),
            final(self)@.entries == entries_after_remote_cancel(old(self)@, order_id@, remote_clock@, remote_peer@, now),
            is_merge_of(final(self)@.clock, old(self)@.clock, remote_clock@),
    {
        proof {
            self.lemma_wf();
        }
        match self.find_entry(order_id) {
            None => {
                if self.find_pending(order_id).is_none() {
                    self.push_pending(order_id, now);
                }
            },
            Some(i) => {
                if self.entries[i].tombstone.is_some() {
                    let ordering = compare(&self.entries[i].order.vector_clock, remote_clock);
                    let wins = match ordering {
                        ClockOrdering::Before | ClockOrdering::Equal => true,
                        ClockOrdering::After => false,
                        ClockOrdering::Concurrent => compare_keys(self.local_peer.as_str(), remote_peer)
                            == KeyOrder::Less,
                    };
                    if wins {
                        self.set_tombstone(i, TombstoneKind::Cancelled, Some(now));
                    }
                } else {
                    self.set_tombstone(i, TombstoneKind::Cancelled, Some(now));
                }
            },
        }
        let merged = merge(&self.clock, remote_clock);
        self.clock = merged;
        Ok(())
    }

    /// Apply a remote cancellation, stamped with the system time.
    pub fn apply_remote_cancel(&mut self, order_id: &str, remote_clock: &VectorClock, remote_peer: &str) -> (r: Result<(), String>)
        requires
            old(self).wf(),
            remote_clock.wf(),
        ensures
            r is Ok,
            final(self).wf(),
            final(self)@.fills == old(self)@.fills,
            final(self)@.local_peer == old(self)@.local_peer,
            exists|now: i64| final(self)@.entries == entries_after_remote_cancel(old(self)@, order_id@, remote_clock@, remote_peer@, now)
                && final(self)@.pending == pending_after_remote_cancel(old(self)@, order_id@, now),
            is_merge_of(final(self)@.clock, old(self)@.clock, remote_clock@),
    {
        let now = now_secs();
        self.apply_remote_cancel_at(order_id, remote_clock, remote_peer, now)
    }
}


impl OrderBook {
    /// Garbage collect tombstones stamped at or before `now` less the
    /// retention window, and remote cancellations awaiting their order made
    /// then; returns how many entries were dropped.
    pub fn gc_at(&mut self, now: i64) -> (r: usize)
        requires
            old(self).wf(),
            now >= i64::MIN + TOMBSTONE_RETENTION_SECS,
        ensures
            final(self).wf(),
            final(self)@.entries == gc_kept(old(self)@.entries, now - TOMBSTONE_RETENTION_SECS),
            final(self)@.fills == old(self)@.fills,
            final(self)@.clock == old(self)@.clock,
            final(self)@.local_peer == old(self)@.local_peer,
            final(self)@.pending == pending_kept(old(self)@.pending, now - TOMBSTONE_RETENTION_SECS),
            r == old(self)@.entries.dom().len() - final(self)@.entries.dom().len(),
    {
        self.gc_before(now - TOMBSTONE_RETENTION_SECS)
    }

    /// Drops the awaiting cancellations made at or before `cutoff`.
    fn gc_pending(&mut self, cutoff: i64)
        requires
            old(self).wf(),
        ensures
            final(self).wf(),
            final(self)@.pending == pending_kept(old(self)@.pending, cutoff as int),
            final(self)@.entries == old(self)@.entries,
            final(self)@.fills == old(self)@.fills,
            final(self)@.clock == old(self)@.clock,
            final(self)@.local_peer == old(self)@.local_peer,
    {
        let ghost pairs = self.pending_pairs();
        let mut kept: Vec<PendingCancel> = Vec::new();
        let mut i: usize = 0;
        proof {
            assert(pairs.take(0) =~= Seq::<(Seq<char>, i64)>::empty());
            assert(pending_kept(keyed_map(pairs.take(0)), cutoff as int) =~= Map::<Seq<char>, i64>::empty());
            assert(kept@.map_values(|p: PendingCancel| (p.order_id@, p.at)) =~= Seq::<(Seq<char>, i64)>::empty());
        }
        while i < self.pending.len()
            invariant
                self.wf(),
                pairs == self.pending_pairs(),
                i <= self.pending@.len(),
                keys_distinct(kept@.map_values(|p: PendingCancel| (p.order_id@, p.at))),
                keyed_map(kept@.map_values(|p: PendingCancel| (p.order_id@, p.at))) == pending_kept(
                    keyed_map(pairs.take(i as int)),
                    cutoff as int,
                ),
            decreases self.pending@.len() - i,
        {
            let ghost kp = kept@.map_values(|p: PendingCancel| (p.order_id@, p.at));
            let ghost t = pairs.take(i as int);
            proof {
                assert(pairs.take(i + 1).drop_last() =~= t);
                assert(keys_distinct(t));
                lemma_keyed_dom(t, pairs[i as int].0);
                assert(!keyed_map(t).dom().contains(pairs[i as int].0)) by {
                    if keyed_map(t).dom().contains(pairs[i as int].0) {
                        let j = choose|j: int| 0 <= j < t.len() && #[trigger] t[j].0 == pairs[i as int].0;
                        assert(pairs[j].0 == pairs[i as int].0);
                    }
                }
            }
            if self.pending[i].at > cutoff {
                let mut id = String::new();
                push_str(&mut id, self.pending[i].order_id.as_str());
                let at = self.pending[i].at;
                proof {
                    assert(!keyed_map(kp).dom().contains(pairs[i as int].0));
                    lemma_keyed_push(kp, pairs[i as int]);
                }
                kept.push(PendingCancel { order_id: id, at });
                proof {
                    assert(kept@.map_values(|p: PendingCancel| (p.order_id@, p.at)) =~= kp.push(pairs[i as int]));
                    assert(pending_kept(keyed_map(pairs.take(i + 1)), cutoff as int) =~= pending_kept(
                        keyed_map(t),
                        cutoff as int,
                    ).insert(pairs[i as int].0, pairs[i as int].1));
                }
            } else {
                proof {
                    assert(pending_kept(keyed_map(pairs.take(i + 1)), cutoff as int) =~= pending_kept(
                        keyed_map(t),
                        cutoff as int,
                    ));
                }
            }
            i = i + 1;
        }
        proof {
            assert(pairs.take(i as int) =~= pairs);
        }
        self.pending = kept;
    }

    /// Drops the tombstones stamped at or before `cutoff`.
    fn gc_before(&mut self, cutoff: i64) -> (r: usize)
        requires
            old(self).wf(),
        ensures
            final(self).wf(),
            final(self)@.entries == gc_kept(old(self)@.entries, cutoff as int),
            final(self)@.fills == old(self)@.fills,
            final(self)@.clock == old(self)@.clock,
            final(self)@.local_peer == old(self)@.local_peer,
            final(self)@.pending == pending_kept(old(self)@.pending, cutoff as int),
            r == old(self)@.entries.dom().len() - final(self)@.entries.dom().len(),
    {
        self.gc_pending(cutoff);
        let ghost pairs = self.entry_pairs();
        let ghost m0 = self@.entries;
        let mut kept: Vec<BookEntry> = Vec::new();
        let mut i: usize = 0;
        proof {
            assert(pairs.take(0) =~= Seq::<(Seq<char>, EntryView)>::empty());
            assert(gc_kept(keyed_map(pairs.take(0)), cutoff as int) =~= Map::<Seq<char>, EntryView>::empty());
            assert(kept@.map_values(|e: BookEntry| (e.order.id@, e@)) =~= Seq::<(Seq<char>, EntryView)>::empty());
        }
        while i < self.entries.len()
            invariant
                self.wf(),
                pairs == self.entry_pairs(),
                m0 == self@.entries,
                i <= self.entries@.len(),
                keys_distinct(kept@.map_values(|e: BookEntry| (e.order.id@, e@))),
                keyed_map(kept@.map_values(|e: BookEntry| (e.order.id@, e@))) == gc_kept(keyed_map(pairs.take(i as int)), cutoff as int),
                forall|j: int| 0 <= j < kept@.len() ==> (#[trigger] kept@[j]).order.wf(),
                kept@.len() <= i,
            decreases self.entries@.len() - i,
        {
            let ghost kp = kept@.map_values(|e: BookEntry| (e.order.id@, e@));
            let ghost t = pairs.take(i as int);
            proof {
                assert(pairs.take(i + 1).drop_last() =~= t);
                assert(keys_distinct(t));
                lemma_keyed_dom(t, pairs[i as int].0);
                assert(!keyed_map(t).dom().contains(pairs[i as int].0)) by {
                    if keyed_map(t).dom().contains(pairs[i as int].0) {
                        let j = choose|j: int| 0 <= j < t.len() && #[trigger] t[j].0 == pairs[i as int].0;
                        assert(pairs[j].0 == pairs[i as int].0);
                    }
                }
            }
            let keep = self.entries[i].tombstone.is_none() || match self.entries[i].tombstoned_at {
                Some(ts) => ts > cutoff,
                None => true,
            };
            if keep {
                let e = self.entries[i].clone();
                proof {
                    assert(self.entries@[i as int].order.wf());
                    assert(!keyed_map(kp).dom().contains(pairs[i as int].0));
                    lemma_keyed_push(kp, pairs[i as int]);
                }
                kept.push(e);
                proof {
                    assert(kept@.map_values(|e: BookEntry| (e.order.id@, e@)) =~= kp.push(pairs[i as int]));
                    assert(gc_kept(keyed_map(pairs.take(i + 1)), cutoff as int) =~= gc_kept(keyed_map(t), cutoff as int).insert(
                        pairs[i as int].0,
                        pairs[i as int].1,
                    ));
                }
            } else {
                proof {
                    assert(gc_kept(keyed_map(pairs.take(i + 1)), cutoff as int) =~= gc_kept(keyed_map(t), cutoff as int));
                }
            }
            i = i + 1;
        }
        proof {
            assert(pairs.take(i as int) =~= pairs);
            lemma_keyed_finite(pairs);
            lemma_keyed_finite(kept@.map_values(|e: BookEntry| (e.order.id@, e@)));
        }
        let removed = self.entries.len() - kept.len();
        self.entries = kept;
        removed
    }

    /// Garbage collect tombstones older than the retention window, by the
    /// system time: those stamped at or before the reading less the window
    /// (an `i64` subtraction that wraps around, for a reading within the
    /// window of `i64::MIN`).
    pub fn gc(&mut self) -> (r: usize)
        requires
            old(self).wf(),
        ensures
            final(self).wf(),
            final(self)@.fills == old(self)@.fills,
            final(self)@.clock == old(self)@.clock,
            final(self)@.local_peer == old(self)@.local_peer,
            exists|now: i64| final(self)@.entries == #[trigger] gc_kept(old(self)@.entries, retention_cutoff(now))
                && final(self)@.pending == pending_kept(old(self)@.pending, retention_cutoff(now)),
            r == old(self)@.entries.dom().len() - final(self)@.entries.dom().len(),
    {
        let now = now_secs();
        let cutoff: i64 = if now >= i64::MIN + TOMBSTONE_RETENTION_SECS {
            now - TOMBSTONE_RETENTION_SECS
        } else {
            (now as i128 - TOMBSTONE_RETENTION_SECS as i128 + 0x1_0000_0000_0000_0000i128) as i64
        };
        assert(cutoff == retention_cutoff(now));
        self.gc_before(cutoff)
    }
}


/// Whether the first entry's state comes after the second's (`state_after`).
fn later_state(x: &BookEntry, y: &BookEntry) -> (r: bool)
    ensures
        r == state_after(x@, y@),
{
    let sx = match x.tombstoned_at {
        Some(t) => match y.tombstoned_at {
            Some(u) => if t > u {
                2i8
            } else if t == u {
                1i8
            } else {
                0i8
            },
            None => 2i8,
        },
        None => match y.tombstoned_at {
            Some(_) => 0i8,
            None => 1i8,
        },
    };
    match x.tombstone {
        None => y.tombstone.is_none() && sx == 2,
        Some(kx) => match y.tombstone {
            None => true,
            Some(ky) => sx == 2 || (sx == 1 && kx == TombstoneKind::Filled && ky == TombstoneKind::Cancelled),
        },
    }
}

impl OrderBook {
    /// Merge another OrderBook's state into this one: new ids are added, a
    /// shared id takes the other book's state where `adopts_state` says so,
    /// fills take the larger amount, clocks the element-wise max. The other
    /// book's awaiting cancellations are not taken over.
    pub fn merge_from(&mut self, other: &OrderBook)
        requires
            old(self).wf(),
            other.wf(),
        ensures
            final(self).wf(),
            final(self)@.entries == merged_entries(old(self)@.entries, other@.entries),
            final(self)@.fills == merged_fills(old(self)@.fills, other@.fills),
            is_merge_of(final(self)@.clock, old(self)@.clock, other@.clock),
            final(self)@.local_peer == old(self)@.local_peer,
            final(self)@.pending == old(self)@.pending,
    {
        proof {
            self.lemma_wf();
            other.lemma_wf();
        }
        let ghost a = self@.entries;
        let ghost op = other.entry_pairs();
        let mut i: usize = 0;
        proof {
            assert(op.take(0) =~= Seq::<(Seq<char>, EntryView)>::empty());
            assert(merged_entries(a, keyed_map(op.take(0))) =~= a);
        }
        while i < other.entries.len()
            invariant
                self.wf(),
                other.wf(),
                book_view_wf(other@),
                op == other.entry_pairs(),
                a == old(self)@.entries,
                i <= other.entries@.len(),
                self@.entries == merged_entries(a, keyed_map(op.take(i as int))),
                self@.fills == old(self)@.fills,
                self@.clock == old(self)@.clock,
                self@.local_peer == old(self)@.local_peer,
                self@.pending == old(self)@.pending,
                forall|k: Seq<char>| #[trigger] a.dom().contains(k) ==> clock_wf(a[k].order.vector_clock),
            decreases other.entries@.len() - i,
        {
            let ghost t = op.take(i as int);
            let ghost k = op[i as int].0;
            let ghost theirs = op[i as int].1;
            proof {
                assert(op.take(i + 1).drop_last() =~= t);
                assert(keys_distinct(t));
                lemma_keyed_dom(t, k);
                assert(!keyed_map(t).dom().contains(k)) by {
                    if keyed_map(t).dom().contains(k) {
                        let j = choose|j: int| 0 <= j < t.len() && #[trigger] t[j].0 == k;
                        assert(op[j].0 == k);
                    }
                }
                lemma_keyed_index(op, i as int);
                assert(other.entries@[i as int].order.wf());
            }
            let id = other.entries[i].order.id.as_str();
            match self.find_entry(id) {
                None => {
                    let e = other.entries[i].clone();
                    self.put_entry(e);
                    proof {
                        assert(self@.entries =~= merged_entries(a, keyed_map(op.take(i + 1))));
                    }
                },
                Some(j) => {
                    proof {
                        self.lemma_wf();
                        assert(self@.entries[k] == a[k]);
                    }
                    let ord = compare(&self.entries[j].order.vector_clock, &other.entries[i].order.vector_clock);
                    let adopt = match ord {
                        ClockOrdering::Equal => later_state(&other.entries[i], &self.entries[j]),
                        ClockOrdering::Before | ClockOrdering::Concurrent => other.entries[i].tombstone.is_some(),
                        ClockOrdering::After => false,
                    };
                    if adopt {
                        self.set_state(j, other.entries[i].tombstone, other.entries[i].tombstoned_at);
                    }
                    proof {
                        assert(self@.entries =~= merged_entries(a, keyed_map(op.take(i + 1))));
                    }
                },
            }
            i = i + 1;
        }
        proof {
            assert(op.take(i as int) =~= op);
        }
        let ghost f = self@.fills;
        let ghost fp = other.fill_pairs();
        let mut i: usize = 0;
        proof {
            assert(fp.take(0) =~= Seq::<(Seq<char>, Dec)>::empty());
            assert(merged_fills(f, keyed_map(fp.take(0))) =~= f);
        }
        while i < other.fills.len()
            invariant
                self.wf(),
                other.wf(),
                fp == other.fill_pairs(),
                f == old(self)@.fills,
                i <= other.fills@.len(),
                self@.fills == merged_fills(f, keyed_map(fp.take(i as int))),
                self@.entries == merged_entries(old(self)@.entries, other@.entries),
                self@.clock == old(self)@.clock,
                self@.local_peer == old(self)@.local_peer,
                self@.pending == old(self)@.pending,
            decreases other.fills@.len() - i,
        {
            let ghost t = fp.take(i as int);
            let ghost k = fp[i as int].0;
            proof {
                assert(fp.take(i + 1).drop_last() =~= t);
                assert(keys_distinct(t));
                lemma_keyed_dom(t, k);
                assert(!keyed_map(t).dom().contains(k)) by {
                    if keyed_map(t).dom().contains(k) {
                        let j = choose|j: int| 0 <= j < t.len() && #[trigger] t[j].0 == k;
                        assert(fp[j].0 == k);
                    }
                }
                assert(other.fills@[i as int].amount.wf());
                self.lemma_wf();
            }
            let id = other.fills[i].order_id.as_str();
            let amount = other.fills[i].amount;
            let cur = match self.find_fill(id) {
                Some(j) => self.fills[j].amount,
                None => Dec::zero(),
            };
            if dec_less(cur, amount) {
                self.put_fill(id, amount);
            } else {
                self.put_fill(id, cur);
            }
            proof {
                assert(self@.fills =~= merged_fills(f, keyed_map(fp.take(i + 1))));
            }
            i = i + 1;
        }
        proof {
            assert(fp.take(i as int) =~= fp);
        }
        let merged = merge(&self.clock, &other.clock);
        self.clock = merged;
    }

    /// Restore a single order from the encrypted DB on app startup.
    /// Merges the persisted order's vector clock into the local clock so
    /// the clock resumes from where it left off, not from empty.
    pub fn restore_persisted(&mut self, order: Order, tombstone: Option<String>, tombstoned_at: Option<i64>)
        requires
            old(self).wf(),
            order.wf(),
        ensures
            final(self).wf(),
            is_merge_of(final(self)@.clock, old(self)@.clock, order@.vector_clock),
            final(self)@.entries == old(self)@.entries.insert(
                order@.id,
                EntryView {
                    order: order@,
                    tombstone: tombstone_kind_named(
                        match tombstone {
                            Some(t) => Some(t@),
                            None => None,
                        },
                    ),
                    tombstoned_at,
                },
            ),
            final(self)@.fills == old(self)@.fills,
            final(self)@.local_peer == old(self)@.local_peer,
            final(self)@.pending == old(self)@.pending,
    {
        proof {
            reveal_strlit("Cancelled");
            reveal_strlit("Filled");
        }
        let merged = merge(&self.clock, &order.vector_clock);
        self.clock = merged;
        let kind = match &tombstone {
            Some(t) => {
                if compare_keys(t.as_str(), "Cancelled") == KeyOrder::Equal {
                    Some(TombstoneKind::Cancelled)
                } else if compare_keys(t.as_str(), "Filled") == KeyOrder::Equal {
                    Some(TombstoneKind::Filled)
                } else {
                    None
                }
            },
            None => None,
        };
        self.put_entry(BookEntry { order, tombstone: kind, tombstoned_at });
    }
}


/// Whole milliseconds since the Unix epoch, from the system clock (0 before
/// the epoch): those of a duration of at most `u64::MAX` seconds.
fn now_millis() -> (r: u128)
    ensures
        r < (u64::MAX as u128 + 1) * 1000,
{
    match unix_time() {
        Some((secs, nanos)) => secs as u128 * 1000 + (nanos / 1_000_000) as u128,
        None => 0,
    }
}

impl OrderBook {
    /// Create a new order locally at time `now_millis`: tick the clock,
    /// sign, add to the book. The nonce is one above `last_nonce`.
    pub fn create_local_at(
        &mut self,
        signing_key: &[u8],
        owner: &str,
        side: Side,
        pair: &str,
        price: &str,
        amount: &str,
        expiry: i64,
        now_millis: u128,
        last_nonce: u64,
    ) -> (r: Order)
        requires
            old(self).wf(),
            counter(old(self)@.clock, old(self)@.local_peer) < u64::MAX,
            last_nonce < u64::MAX,
            signing_key@.len() == 32,
            owner_prefix_ok(owner@),
        ensures
            final(self).wf(),
            r.wf(),
            is_tick_of(final(self)@.clock, old(self)@.clock, old(self)@.local_peer),
            ({
                let u = unsigned_order(
                    local_order_id(now_millis as nat, owner@),
                    owner@,
                    side,
                    pair@,
                    price@,
                    amount@,
                    expiry,
                    (last_nonce + 1) as u64,
                    final(self)@.clock,
                );
                r@ == with_signature(u, order_signature(u, signing_key@))
            }),
            valid_identity(signing_key@, owner@) ==> verification_result(r@) is Ok,
            final(self)@.entries == old(self)@.entries.insert(r@.id, live_entry(r@)),
            final(self)@.fills == old(self)@.fills,
            final(self)@.local_peer == old(self)@.local_peer,
            final(self)@.pending == old(self)@.pending,
    {
        proof {
            reveal_strlit("-");
        }
        let n = owner.as_bytes().len();
        proof {
            assert(owner.spec_bytes() == encode_utf8(owner@));
        }
        let m = if n < 8 {
            n
        } else {
            8
        };
        let (prefix, _) = owner.split_at(m);
        proof {
            encode_utf8_decode_utf8(prefix@);
            assert(prefix.spec_bytes() == encode_utf8(prefix@));
            assert(encode_utf8(owner@).take(m as int) =~= encode_utf8(owner@).subrange(0, m as int));
            assert(prefix@ == owner_prefix(owner@));
        }
        let mut id = String::new();
        push_nat(&mut id, now_millis);
        push_str(&mut id, "-");
        push_str(&mut id, prefix);
        let nonce = last_nonce + 1;
        tick(&mut self.clock, self.local_peer.as_str());
        let mut order = Order {
            id,
            owner: owner.to_owned(),
            side,
            pair: pair.to_owned(),
            price: price.to_owned(),
            amount: amount.to_owned(),
            expiry,
            nonce,
            signature: String::new(),
            vector_clock: self.clock.clone(),
        };
        let ghost u = unsigned_order(
            local_order_id(now_millis as nat, owner@),
            owner@,
            side,
            pair@,
            price@,
            amount@,
            expiry,
            (last_nonce + 1) as u64,
            self.clock@,
        );
        assert(order@.id == u.id);
        assert(order@.signature == u.signature);
        assert(order@ == u);
        let sig = sign_order(&order, signing_key);
        order.signature = sig;
        self.put_entry(BookEntry { order: order.clone(), tombstone: None, tombstoned_at: None });
        assert(order@ == with_signature(u, order_signature(u, signing_key@)));
        order
    }

    /// Create a new order locally, its id stamped with the system time.
    pub fn create_local(
        &mut self,
        signing_key: &[u8],
        owner: &str,
        side: Side,
        pair: &str,
        price: &str,
        amount: &str,
        expiry: i64,
        last_nonce: u64,
    ) -> (r: Order)
        requires
            old(self).wf(),
            counter(old(self)@.clock, old(self)@.local_peer) < u64::MAX,
            last_nonce < u64::MAX,
            signing_key@.len() == 32,
            owner_prefix_ok(owner@),
        ensures
            final(self).wf(),
            r.wf(),
            is_tick_of(final(self)@.clock, old(self)@.clock, old(self)@.local_peer),
            exists|t: u128|
                {
                    let u = unsigned_order(
                        #[trigger] local_order_id(t as nat, owner@),
                        owner@,
                        side,
                        pair@,
                        price@,
                        amount@,
                        expiry,
                        (last_nonce + 1) as u64,
                        final(self)@.clock,
                    );
                    r@ == with_signature(u, order_signature(u, signing_key@))
                },
            valid_identity(signing_key@, owner@) ==> verification_result(r@) is Ok,
            final(self)@.entries == old(self)@.entries.insert(r@.id, live_entry(r@)),
            final(self)@.fills == old(self)@.fills,
            final(self)@.local_peer == old(self)@.local_peer,
            final(self)@.pending == old(self)@.pending,
    {
        let t = now_millis();
        let r = self.create_local_at(signing_key, owner, side, pair, price, amount, expiry, t, last_nonce);
        assert(local_order_id(t as nat, owner@) == local_order_id(t as nat, owner@));
        r
    }

    /// Apply a remote order received from the network. `last_nonce` is the
    /// last nonce seen from the order's owner. Returns whether the order was
    /// new to the book (and its nonce should be recorded).
    pub fn apply_remote(&mut self, incoming: Order, last_nonce: u64) -> (r: Result<bool, String>)
        requires
            old(self).wf(),
            incoming.wf(),
        ensures
            final(self).wf(),
            final(self)@.fills == old(self)@.fills,
            final(self)@.local_peer == old(self)@.local_peer,
            verification_result(incoming@) matches Err(t) ==> (r matches Err(e) && e@ == t) && final(self)@ == old(self)@,
            verification_result(incoming@) is Ok && incoming.nonce <= last_nonce ==> (r matches Err(e) && e@
                == replay_text(incoming.nonce, last_nonce, incoming@.owner)) && final(self)@ == old(self)@,
            verification_result(incoming@) is Ok && incoming.nonce > last_nonce && old(self)@.entries.dom().contains(
                incoming@.id,
            ) ==> r == Ok::<bool, String>(false) && final(self)@ == old(self)@,
            verification_result(incoming@) is Ok && incoming.nonce > last_nonce && !old(self)@.entries.dom().contains(
                incoming@.id,
            ) ==> r == Ok::<bool, String>(true) && final(self)@.entries == old(self)@.entries.insert(
                incoming@.id,
                arriving_entry(old(self)@, incoming@),
            ) && final(self)@.pending == old(self)@.pending.remove(incoming@.id) && is_merge_of(
                final(self)@.clock,
                old(self)@.clock,
                incoming@.vector_clock,
            ),
    {
        match verify_order(&incoming) {
            Ok(()) => {},
            Err(e) => return Err(e),
        }
        match check_nonce(last_nonce, incoming.owner.as_str(), incoming.nonce) {
            Ok(()) => {},
            Err(e) => return Err(e.to_string()),
        }
        if self.find_entry(incoming.id.as_str()).is_some() {
            return Ok(false);
        }
        let merged = merge(&self.clock, &incoming.vector_clock);
        self.clock = merged;
        match self.find_pending(incoming.id.as_str()) {
            Some(j) => {
                let at = self.take_pending(j);
                self.put_entry(BookEntry { order: incoming, tombstone: Some(TombstoneKind::Cancelled), tombstoned_at: Some(at) });
            },
            None => {
                proof {
                    assert(self@.pending.remove(incoming@.id) =~= self@.pending);
                }
                self.put_entry(BookEntry { order: incoming, tombstone: None, tombstoned_at: None });
            },
        }
        Ok(true)
    }
}

/// Merging a book with itself changes nothing: its entries and fills stay
/// as they are (and its clock, by `law_merge_idempotent`).
pub proof fn law_book_merge_idempotent(v: BookView)
    ensures
        merged_entries(v.entries, v.entries) == v.entries,
        merged_fills(v.fills, v.fills) == v.fills,
{
    assert forall|k: Seq<char>| v.entries.dom().contains(k) implies merged_entries(v.entries, v.entries)[k]
        == v.entries[k] by {
        law_compare_reflexive(v.entries[k].order.vector_clock);
    }
    assert(merged_entries(v.entries, v.entries) =~= v.entries);
    assert(merged_fills(v.fills, v.fills) =~= v.fills);
}

/// A merge loses nothing: the merged book holds every order of both books,
/// keeps our signed orders as they are, never revives a tombstone, and each
/// fill is at least as large as in either book.
pub proof fn law_book_merge_keeps_everything(a: BookView, b: BookView)
    ensures
        merged_entries(a.entries, b.entries).dom() == a.entries.dom().union(b.entries.dom()),
        forall|k: Seq<char>| #[trigger] a.entries.dom().contains(k) ==> merged_entries(a.entries, b.entries)[k].order
            == a.entries[k].order,
        forall|k: Seq<char>|
            #[trigger] a.entries.dom().contains(k) && a.entries[k].tombstone is Some ==> merged_entries(
                a.entries,
                b.entries,
            )[k].tombstone is Some,
        merged_fills(a.fills, b.fills).dom() == a.fills.dom().union(b.fills.dom()),
        forall|k: Seq<char>| #[trigger]
            a.fills.dom().contains(k) ==> !dec_lt(merged_fills(a.fills, b.fills)[k], a.fills[k]),
        forall|k: Seq<char>| #[trigger]
            b.fills.dom().contains(k) ==> !dec_lt(merged_fills(a.fills, b.fills)[k], b.fills[k]),
{
    assert(merged_entries(a.entries, b.entries).dom() =~= a.entries.dom().union(b.entries.dom()));
    assert(merged_fills(a.fills, b.fills).dom() =~= a.fills.dom().union(b.fills.dom()));
}

/// Orders arriving in either order give the same book: inserting two orders
/// with different ids commutes.
pub proof fn law_order_inserts_commute(m: Map<Seq<char>, EntryView>, x: OrderView, y: OrderView)
    requires
        x.id != y.id,
    ensures
        m.insert(x.id, live_entry(x)).insert(y.id, live_entry(y)) == m.insert(y.id, live_entry(y)).insert(
            x.id,
            live_entry(x),
        ),
{
    assert(m.insert(x.id, live_entry(x)).insert(y.id, live_entry(y)) =~= m.insert(y.id, live_entry(y)).insert(
        x.id,
        live_entry(x),
    ));
}

/// Garbage collection only drops tombstones stamped at or before the
/// cutoff: it keeps every live entry and every unstamped one, drops every
/// tombstone stamped at or before the cutoff, and leaves kept entries unchanged.
pub proof fn law_gc_keeps_live(m: Map<Seq<char>, EntryView>, cutoff: int)
    ensures
        gc_kept(m, cutoff).dom().subset_of(m.dom()),
        forall|k: Seq<char>| #[trigger]
            gc_kept(m, cutoff).dom().contains(k) ==> gc_kept(m, cutoff)[k] == m[k],
        forall|k: Seq<char>|
            #[trigger] m.dom().contains(k) && (m[k].tombstone is None || m[k].tombstoned_at is None)
                ==> gc_kept(m, cutoff).dom().contains(k),
        forall|k: Seq<char>|
            #[trigger] m.dom().contains(k) && m[k].tombstone is Some && m[k].tombstoned_at is Some
                && m[k].tombstoned_at.unwrap() <= cutoff ==> !gc_kept(m, cutoff).dom().contains(k),
{
}

/// A remote cancellation always cancels a live order; an existing tombstone
/// is overridden only where the remote cancellation wins.
pub proof fn law_remote_cancel(
    v: BookView,
    id: Seq<char>,
    remote_clock: Seq<(Seq<char>, u64)>,
    remote_peer: Seq<char>,
    now: i64,
)
    requires
        v.entries.dom().contains(id),
    ensures
        v.entries[id].tombstone is None ==> entries_after_remote_cancel(v, id, remote_clock, remote_peer, now)[id]
            == tombstoned(v.entries[id], TombstoneKind::Cancelled, now),
        v.entries[id].tombstone is Some && !remote_cancel_wins(v.local_peer, v.entries[id], remote_clock, remote_peer)
            ==> entries_after_remote_cancel(v, id, remote_clock, remote_peer, now) == v.entries,
        entries_after_remote_cancel(v, id, remote_clock, remote_peer, now).dom() == v.entries.dom(),
{
    assert(entries_after_remote_cancel(v, id, remote_clock, remote_peer, now).dom() =~= v.entries.dom());
}

/// Receiving the same book twice is the same as receiving it once: merging
/// it again into the merged book changes nothing.
pub proof fn law_book_merge_absorbs(a: BookView, b: BookView)
    ensures
        merged_entries(merged_entries(a.entries, b.entries), b.entries) == merged_entries(a.entries, b.entries),
        merged_fills(merged_fills(a.fills, b.fills), b.fills) == merged_fills(a.fills, b.fills),
{
    let m = merged_entries(a.entries, b.entries);
    assert forall|k: Seq<char>| m.dom().contains(k) implies merged_entries(m, b.entries)[k] == m[k] by {
        if b.entries.dom().contains(k) {
            law_compare_reflexive(b.entries[k].order.vector_clock);
        }
    }
    assert(merged_entries(m, b.entries) =~= m);
    let f = merged_fills(a.fills, b.fills);
    assert(merged_fills(f, b.fills) =~= f);
}

/// Replicas converge: where two books hold the same signed order under every
/// id they share, merging either into the other gives the same entries, and
/// (for fills that are not negative) the same order ids with numerically
/// equal fills; and a tombstone in either book survives the merge.
pub proof fn law_book_merge_converges(a: BookView, b: BookView)
    requires
        forall|k: Seq<char>|
            a.entries.dom().contains(k) && b.entries.dom().contains(k) ==> #[trigger] a.entries[k].order
                == #[trigger] b.entries[k].order,
        forall|k: Seq<char>| #[trigger] a.fills.dom().contains(k) ==> !dec_lt(a.fills[k], dec_zero()),
        forall|k: Seq<char>| #[trigger] b.fills.dom().contains(k) ==> !dec_lt(b.fills[k], dec_zero()),
    ensures
        merged_entries(a.entries, b.entries) == merged_entries(b.entries, a.entries),
        forall|k: Seq<char>|
            (a.entries.dom().contains(k) && a.entries[k].tombstone is Some) || (b.entries.dom().contains(k)
                && b.entries[k].tombstone is Some) ==> #[trigger] merged_entries(a.entries, b.entries)[k].tombstone is Some,
        merged_fills(a.fills, b.fills).dom() == merged_fills(b.fills, a.fills).dom(),
        forall|k: Seq<char>| #[trigger]
            merged_fills(a.fills, b.fills).dom().contains(k) ==> dec_eq(
                merged_fills(a.fills, b.fills)[k],
                merged_fills(b.fills, a.fills)[k],
            ),
{
    let ab = merged_entries(a.entries, b.entries);
    let ba = merged_entries(b.entries, a.entries);
    assert forall|k: Seq<char>| ab.dom().contains(k) implies ab[k] == ba[k] by {
        if a.entries.dom().contains(k) && b.entries.dom().contains(k) {
            let x = a.entries[k];
            let y = b.entries[k];
            assert(x.order == y.order);
            lemma_state_order(x, y);
            if state_after(y, x) {
                assert(ab[k] == y);
                assert(ba[k] == y);
            } else if state_after(x, y) {
                assert(ab[k] == x);
                assert(ba[k] == x);
            } else {
                assert(x == y);
            }
        }
    }
    assert(ab =~= ba);
    let fab = merged_fills(a.fills, b.fills);
    let fba = merged_fills(b.fills, a.fills);
    assert(fab.dom() =~= fba.dom());
    assert forall|k: Seq<char>| #[trigger] fab.dom().contains(k) implies dec_eq(fab[k], fba[k]) by {
        if a.fills.dom().contains(k) && b.fills.dom().contains(k) {
            if dec_lt(a.fills[k], b.fills[k]) {
                assert(fab[k] == b.fills[k]);
                assert(fba[k] == b.fills[k]);
            } else if dec_lt(b.fills[k], a.fills[k]) {
                assert(fab[k] == a.fills[k]);
                assert(fba[k] == a.fills[k]);
            } else {
                assert(fab[k] == a.fills[k]);
                assert(fba[k] == b.fills[k]);
            }
        } else if a.fills.dom().contains(k) {
            assert(fab[k] == a.fills[k]);
            assert(fba[k] == a.fills[k] || fba[k] == dec_zero());
            if dec_lt(dec_zero(), a.fills[k]) {
                assert(fba[k] == a.fills[k]);
            } else {
                assert(fba[k] == dec_zero());
                assert(!dec_lt(a.fills[k], dec_zero()));
            }
        } else {
            assert(fba[k] == b.fills[k]);
            if dec_lt(dec_zero(), b.fills[k]) {
                assert(fab[k] == b.fills[k]);
            } else {
                assert(fab[k] == dec_zero());
                assert(!dec_lt(b.fills[k], dec_zero()));
            }
        }
    }
}

proof fn lemma_state_order(x: EntryView, y: EntryView)
    ensures
        state_after(x, y) ==> !state_after(y, x),
        !state_after(x, y) && !state_after(y, x) ==> x.tombstone == y.tombstone && x.tombstoned_at
            == y.tombstoned_at,
{
}

/// An order and its remote cancellation commute: received in either order,
/// they leave the same entries (the order cancelled at the cancellation's
/// time), the same awaiting cancellations and the same clock.
pub proof fn law_order_and_cancel_commute(
    v: BookView,
    o: OrderView,
    remote_clock: Seq<(Seq<char>, u64)>,
    remote_peer: Seq<char>,
    now: i64,
    c1: Seq<(Seq<char>, u64)>,
    c12: Seq<(Seq<char>, u64)>,
    c2: Seq<(Seq<char>, u64)>,
    c21: Seq<(Seq<char>, u64)>,
)
    requires
        !v.entries.dom().contains(o.id),
        !v.pending.dom().contains(o.id),
        is_merge_of(c1, v.clock, o.vector_clock),
        is_merge_of(c12, c1, remote_clock),
        is_merge_of(c2, v.clock, remote_clock),
        is_merge_of(c21, c2, o.vector_clock),
    ensures
        ({
            let v1 = BookView {
                entries: v.entries.insert(o.id, arriving_entry(v, o)),
                pending: v.pending.remove(o.id),
                clock: c1,
                ..v
            };
            let v2 = BookView {
                entries: entries_after_remote_cancel(v, o.id, remote_clock, remote_peer, now),
                pending: pending_after_remote_cancel(v, o.id, now),
                clock: c2,
                ..v
            };
            &&& entries_after_remote_cancel(v1, o.id, remote_clock, remote_peer, now) == v2.entries.insert(
                o.id,
                arriving_entry(v2, o),
            )
            &&& pending_after_remote_cancel(v1, o.id, now) == v2.pending.remove(o.id)
            &&& c12 == c21
            &&& v2.entries.insert(o.id, arriving_entry(v2, o))[o.id] == tombstoned(
                live_entry(o),
                TombstoneKind::Cancelled,
                now,
            )
        }),
{
    let v1 = BookView {
        entries: v.entries.insert(o.id, arriving_entry(v, o)),
        pending: v.pending.remove(o.id),
        clock: c1,
        ..v
    };
    let v2 = BookView {
        entries: entries_after_remote_cancel(v, o.id, remote_clock, remote_peer, now),
        pending: pending_after_remote_cancel(v, o.id, now),
        clock: c2,
        ..v
    };
    assert(v.pending.remove(o.id) =~= v.pending);
    assert(v2.pending.remove(o.id) =~= v.pending);
    assert(entries_after_remote_cancel(v1, o.id, remote_clock, remote_peer, now) =~= v2.entries.insert(
        o.id,
        arriving_entry(v2, o),
    ));
    assert forall|k: Seq<char>| #[trigger] has_peer(c12, k) == has_peer(c21, k) by {}
    assert forall|k: Seq<char>| #[trigger] counter(c12, k) == counter(c21, k) by {
        assert(counter(c12, k) == max_u64(counter(c1, k), counter(remote_clock, k)));
        assert(counter(c21, k) == max_u64(counter(c2, k), counter(o.vector_clock, k)));
        assert(counter(c1, k) == max_u64(counter(v.clock, k), counter(o.vector_clock, k)));
        assert(counter(c2, k) == max_u64(counter(v.clock, k), counter(remote_clock, k)));
    }
    lemma_clock_canonical(c12, c21);
}

} // verus!
