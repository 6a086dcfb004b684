//! Decisions on what the network relay delivers. The relay itself (a child
//! process speaking JSON lines) runs outside the library.

use vstd::prelude::*;
use crate::clock::is_merge_of;
use crate::order::{Order, verification_result};
use crate::orderbook::{arriving_entry, replay_text, OrderBook};
use crate::text::{compare_keys, KeyOrder};

verus! {

/// What became of an order received from the network.
#[derive(Debug, Clone, Copy, PartialEq, Eq, Structural)]
pub enum IncomingOutcome {
    /// One of this node's own orders, echoed back: nothing was done.
    Loopback,
    /// Already in the book: the book is unchanged; the order is stored again.
    Known,
    /// Added to the book (cancelled where its cancellation came first): the
    /// order and its nonce are to be stored.
    Added,
}

/// Apply an order received from the network. `last_nonce` is the last nonce
/// stored for the order's owner. The gossip layer echoes this node's own
/// orders back; those are already in the book and are skipped rather than
/// failing the nonce check.
pub fn apply_incoming_order(book: &mut OrderBook, order: Order, last_nonce: u64) -> (r: Result<IncomingOutcome, String>)
    requires
        old(book).wf(),
        order.wf(),
    ensures
        final(book).wf(),
        order@.owner == old(book)@.local_peer ==> r == Ok::<IncomingOutcome, String>(IncomingOutcome::Loopback)
            && final(book)@ == old(book)@,
        order@.owner != old(book)@.local_peer ==> {
            &&& final(book)@.fills == old(book)@.fills
            &&& final(book)@.local_peer == old(book)@.local_peer
            &&& verification_result(order@) matches Err(t) ==> (r matches Err(e) && e@ == t) && final(book)@ == old(book)@
            &&& verification_result(order@) is Ok && order.nonce <= last_nonce ==> (r matches Err(e) && e@ == replay_text(
                order.nonce,
                last_nonce,
                order@.owner,
            )) && final(book)@ == old(book)@
            &&& verification_result(order@) is Ok && order.nonce > last_nonce && old(book)@.entries.dom().contains(order@.id)
                ==> r == Ok::<IncomingOutcome, String>(IncomingOutcome::Known) && final(book)@ == old(book)@
            &&& verification_result(order@) is Ok && order.nonce > last_nonce && !old(book)@.entries.dom().contains(
                order@.id,
            ) ==> r == Ok::<IncomingOutcome, String>(IncomingOutcome::Added) && final(book)@.entries == old(
                book,
            )@.entries.insert(order@.id, arriving_entry(old(book)@, order@)) && final(book)@.pending == old(
                book,
            )@.pending.remove(order@.id) && is_merge_of(
                final(book)@.clock,
                old(book)@.clock,
                order@.vector_clock,
            )
        },
{
    if compare_keys(order.owner.as_str(), book.local_peer()) == KeyOrder::Equal {
        return Ok(IncomingOutcome::Loopback);
    }
    match book.apply_remote(order, last_nonce) {
        Ok(true) => Ok(IncomingOutcome::Added),
        Ok(false) => Ok(IncomingOutcome::Known),
        Err(e) => Err(e),
    }
}

} // verus!
