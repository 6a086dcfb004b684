//! Signed orders of the shared order book.
//!
//! The `signature` field covers the canonical bytes of all other fields:
//! pipe-delimited, each field escaped so that the bytes determine every
//! field, with the vector clock listed in ascending peer order.

use vstd::prelude::*;
use vstd::utf8::encode_utf8;
use vstd::string::StrSliceExecFns;
use crate::clock::{VectorClock, clock_wf};
use crate::hexcode::{hex_decode, hex_decode_error, hex_decoded, hex_encode, hex_text, law_hex_roundtrip};
use crate::text::{digit_char, int_text, nat_text, push_int, push_nat, push_str, lemma_encode_injective};
use ed25519_dalek::{Signer, Verifier};

verus! {

broadcast use vstd::seq::group_seq_axioms;

/// Which side of the book — buy or sell.
#[derive(Debug, Clone, Copy, PartialEq, Eq, Structural)]
pub enum Side {
    Buy,
    Sell,
}

/// The lowercase name of a side.
pub open spec fn side_text(s: Side) -> Seq<char> {
    match s {
        Side::Buy => seq!['b', 'u', 'y'],
        Side::Sell => seq!['s', 'e', 'l', 'l'],
    }
}

impl Side {
    pub fn as_str(&self) -> (r: &'static str)
        ensures
            r@ == side_text(*self),
    {
        match self {
            Side::Buy => {
                proof {
                    reveal_strlit("buy");
                }
                "buy"
            },
            Side::Sell => {
                proof {
                    reveal_strlit("sell");
                }
                "sell"
            },
        }
    }
}

/// A signed order in the shared order book.
#[derive(Debug)]
pub struct Order {
    /// Unique order identifier (client-generated).
    pub id: String,
    /// Ed25519 public key of the creator, hex-encoded.
    pub owner: String,
    /// Buy or sell.
    pub side: Side,
    /// Trading pair, e.g. "TKA/TKB".
    pub pair: String,
    /// Limit price as a decimal string (to preserve precision).
    pub price: String,
    /// Order quantity as a decimal string.
    pub amount: String,
    /// Unix timestamp (seconds) when the order expires.
    pub expiry: i64,
    /// Per-owner monotonically increasing counter. Rejects replays.
    pub nonce: u64,
    /// Ed25519 signature of the signable bytes, hex-encoded.
    pub signature: String,
    /// Logical timestamp used for CRDT ordering.
    pub vector_clock: VectorClock,
}

/// An order as plain values.
pub struct OrderView {
    pub id: Seq<char>,
    pub owner: Seq<char>,
    pub side: Side,
    pub pair: Seq<char>,
    pub price: Seq<char>,
    pub amount: Seq<char>,
    pub expiry: i64,
    pub nonce: u64,
    pub signature: Seq<char>,
    pub vector_clock: Seq<(Seq<char>, u64)>,
}

impl View for Order {
    type V = OrderView;

    open spec fn view(&self) -> OrderView {
        OrderView {
            id: self.id@,
            owner: self.owner@,
            side: self.side,
            pair: self.pair@,
            price: self.price@,
            amount: self.amount@,
            expiry: self.expiry,
            nonce: self.nonce,
            signature: self.signature@,
            vector_clock: self.vector_clock@,
        }
    }
}

impl Order {
    /// The order's vector clock is in canonical form.
    pub open spec fn wf(&self) -> bool {
        self.vector_clock.wf()
    }
}

impl Clone for Order {
    fn clone(&self) -> (r: Self)
        ensures
            r@ == self@,
    {
        Order {
            id: self.id.clone(),
            owner: self.owner.clone(),
            side: self.side,
            pair: self.pair.clone(),
            price: self.price.clone(),
            amount: self.amount.clone(),
            expiry: self.expiry,
            nonce: self.nonce,
            signature: self.signature.clone(),
            vector_clock: self.vector_clock.clone(),
        }
    }
}

/// The bytes that `signable_bytes` escapes: `\`, `|`, `:` and `,`.
pub open spec fn is_special(c: u8) -> bool {
    c == 92 || c == 124 || c == 58 || c == 44
}

/// One byte as written in a field: a special byte after a `\`.
pub open spec fn esc_byte(c: u8) -> Seq<u8> {
    if is_special(c) {
        seq![92u8, c]
    } else {
        seq![c]
    }
}

/// Bytes with every special byte escaped by a `\`.
pub open spec fn escaped(b: Seq<u8>) -> Seq<u8>
    decreases b.len(),
{
    if b.len() == 0 {
        Seq::empty()
    } else {
        escaped(b.drop_last()) + esc_byte(b.last())
    }
}

/// A text field as signed: its UTF-8 bytes, escaped.
pub open spec fn field(t: Seq<char>) -> Seq<u8> {
    escaped(encode_utf8(t))
}

/// The bytes of one clock entry: `peer:counter,`, both parts as fields.
pub open spec fn clock_entry_bytes(e: (Seq<char>, u64)) -> Seq<u8> {
    field(e.0) + seq![58u8] + field(nat_text(e.1 as nat)) + seq![44u8]
}

/// The vector clock as signed: its entries in ascending peer order.
pub open spec fn clock_bytes(c: Seq<(Seq<char>, u64)>) -> Seq<u8>
    decreases c.len(),
{
    if c.len() == 0 {
        Seq::empty()
    } else {
        clock_bytes(c.drop_last()) + clock_entry_bytes(c.last())
    }
}

/// The bytes that a signature covers: every field but the signature, each
/// escaped and followed by `|`, then the clock. Escaping keeps the format
/// unambiguous: the bytes determine every field (`law_signable_unambiguous`).
pub open spec fn signable_message(o: OrderView) -> Seq<u8> {
    delimited(field(o.id), tail_owner(o))
}

/// A field followed by `|` and the rest.
pub open spec fn delimited(f: Seq<u8>, rest: Seq<u8>) -> Seq<u8> {
    f + (seq![124u8] + rest)
}

pub open spec fn tail_owner(o: OrderView) -> Seq<u8> {
    delimited(field(o.owner), tail_side(o))
}

pub open spec fn tail_side(o: OrderView) -> Seq<u8> {
    delimited(field(side_text(o.side)), tail_pair(o))
}

pub open spec fn tail_pair(o: OrderView) -> Seq<u8> {
    delimited(field(o.pair), tail_price(o))
}

pub open spec fn tail_price(o: OrderView) -> Seq<u8> {
    delimited(field(o.price), tail_amount(o))
}

pub open spec fn tail_amount(o: OrderView) -> Seq<u8> {
    delimited(field(o.amount), tail_expiry(o))
}

pub open spec fn tail_expiry(o: OrderView) -> Seq<u8> {
    delimited(field(int_text(o.expiry as int)), tail_nonce(o))
}

pub open spec fn tail_nonce(o: OrderView) -> Seq<u8> {
    delimited(field(nat_text(o.nonce as nat)), clock_bytes(o.vector_clock))
}

proof fn lemma_escaped_concat(x: Seq<u8>, y: Seq<u8>)
    ensures
        escaped(x + y) == escaped(x) + escaped(y),
    decreases y.len(),
{
    if y.len() == 0 {
        assert(x + y =~= x);
        assert(escaped(x) + escaped(y) =~= escaped(x));
    } else {
        lemma_escaped_concat(x, y.drop_last());
        assert((x + y).drop_last() =~= x + y.drop_last());
        assert((x + y).last() == y.last());
        assert(escaped(x + y) =~= escaped(x) + escaped(y));
    }
}

/// Reads one escaped field from the front: its unescaped bytes, and what
/// follows the first unescaped special byte.
pub open spec fn read_field(m: Seq<u8>) -> (Seq<u8>, Seq<u8>)
    decreases m.len(),
{
    if m.len() == 0 {
        (Seq::empty(), Seq::empty())
    } else if m[0] == 92 && m.len() >= 2 {
        let (f, r) = read_field(m.skip(2));
        (seq![m[1]] + f, r)
    } else if is_special(m[0]) {
        (Seq::empty(), m.skip(1))
    } else {
        let (f, r) = read_field(m.skip(1));
        (seq![m[0]] + f, r)
    }
}

proof fn lemma_read_field(x: Seq<u8>, d: u8, r: Seq<u8>)
    requires
        is_special(d),
        d != 92,
    ensures
        read_field(escaped(x) + (seq![d] + r)) == (x, r),
    decreases x.len(),
{
    let m = escaped(x) + (seq![d] + r);
    if x.len() == 0 {
        assert(m =~= seq![d] + r);
        assert(m.skip(1) =~= r);
    } else {
        let x0 = x[0];
        let xs = x.skip(1);
        assert(x =~= seq![x0] + xs);
        lemma_escaped_concat(seq![x0], xs);
        assert(seq![x0].drop_last() =~= Seq::<u8>::empty());
        assert(escaped(seq![x0].drop_last()) == Seq::<u8>::empty());
        assert(Seq::<u8>::empty() + esc_byte(x0) =~= esc_byte(x0));
        assert(escaped(seq![x0]) =~= esc_byte(x0));
        lemma_read_field(xs, d, r);
        if is_special(x0) {
            assert(m =~= seq![92u8, x0] + (escaped(xs) + (seq![d] + r)));
            assert(m.skip(2) =~= escaped(xs) + (seq![d] + r));
            assert(seq![x0] + xs =~= x);
        } else {
            assert(m =~= seq![x0] + (escaped(xs) + (seq![d] + r)));
            assert(m.skip(1) =~= escaped(xs) + (seq![d] + r));
            assert(seq![x0] + xs =~= x);
        }
    }
}

/// Reads a text field followed by the delimiter `d` from the front of two
/// equal byte strings: the texts are equal, and so are the rests.
proof fn lemma_field_prefix(a: Seq<char>, b: Seq<char>, d: u8, ra: Seq<u8>, rb: Seq<u8>)
    requires
        is_special(d),
        d != 92,
        field(a) + (seq![d] + ra) == field(b) + (seq![d] + rb),
    ensures
        a == b,
        ra == rb,
{
    lemma_read_field(encode_utf8(a), d, ra);
    lemma_read_field(encode_utf8(b), d, rb);
    lemma_encode_injective(a, b);
}

proof fn lemma_digit_char(d: int)
    requires
        0 <= d < 10,
    ensures
        '0' <= digit_char(d) <= '9',
        digit_char(d) as int - '0' as int == d,
{
}

proof fn lemma_nat_text_shape(n: nat)
    ensures
        nat_text(n).len() >= 1,
        '0' <= nat_text(n)[0] <= '9',
        n >= 10 ==> nat_text(n).len() >= 2,
    decreases n,
{
    if n < 10 {
        lemma_digit_char(n as int);
    } else {
        lemma_nat_text_shape(n / 10);
    }
}

proof fn lemma_nat_text_injective(a: nat, b: nat)
    requires
        nat_text(a) == nat_text(b),
    ensures
        a == b,
    decreases a,
{
    lemma_nat_text_shape(a);
    lemma_nat_text_shape(b);
    if a < 10 && b < 10 {
        lemma_digit_char(a as int);
        lemma_digit_char(b as int);
    } else if a >= 10 && b >= 10 {
        let ta = nat_text(a);
        assert(ta.last() == digit_char((a % 10) as int));
        assert(ta.last() == digit_char((b % 10) as int));
        lemma_digit_char((a % 10) as int);
        lemma_digit_char((b % 10) as int);
        assert(ta.drop_last() =~= nat_text(a / 10));
        assert(ta.drop_last() =~= nat_text(b / 10));
        lemma_nat_text_injective(a / 10, b / 10);
    }
}

proof fn lemma_int_text_injective(a: int, b: int)
    requires
        int_text(a) == int_text(b),
    ensures
        a == b,
{
    if a < 0 && b < 0 {
        assert(nat_text((-a) as nat) =~= int_text(a).skip(1));
        assert(nat_text((-b) as nat) =~= int_text(b).skip(1));
        lemma_nat_text_injective((-a) as nat, (-b) as nat);
    } else if a >= 0 && b >= 0 {
        lemma_nat_text_injective(a as nat, b as nat);
    } else if a < 0 {
        lemma_nat_text_shape(b as nat);
        assert(int_text(a)[0] == '-');
    } else {
        lemma_nat_text_shape(a as nat);
        assert(int_text(b)[0] == '-');
    }
}

proof fn lemma_clock_bytes_front(c: Seq<(Seq<char>, u64)>)
    requires
        c.len() > 0,
    ensures
        clock_bytes(c) == clock_entry_bytes(c[0]) + clock_bytes(c.drop_first()),
    decreases c.len(),
{
    if c.len() == 1 {
        assert(c.drop_last() =~= Seq::<(Seq<char>, u64)>::empty());
        assert(c.drop_first() =~= Seq::<(Seq<char>, u64)>::empty());
        assert(clock_bytes(c) =~= clock_entry_bytes(c[0]) + clock_bytes(c.drop_first()));
    } else {
        lemma_clock_bytes_front(c.drop_last());
        assert(c.drop_last().drop_first() =~= c.drop_first().drop_last());
        assert(c.drop_first().last() == c.last());
        assert(clock_bytes(c) =~= clock_entry_bytes(c[0]) + clock_bytes(c.drop_first()));
    }
}

proof fn lemma_entry_prefix(ea: (Seq<char>, u64), eb: (Seq<char>, u64), ra: Seq<u8>, rb: Seq<u8>)
    requires
        clock_entry_bytes(ea) + ra == clock_entry_bytes(eb) + rb,
    ensures
        ea == eb,
        ra == rb,
{
    let ta = field(nat_text(ea.1 as nat)) + (seq![44u8] + ra);
    let tb = field(nat_text(eb.1 as nat)) + (seq![44u8] + rb);
    assert(clock_entry_bytes(ea) + ra =~= field(ea.0) + (seq![58u8] + ta));
    assert(clock_entry_bytes(eb) + rb =~= field(eb.0) + (seq![58u8] + tb));
    lemma_field_prefix(ea.0, eb.0, 58u8, ta, tb);
    lemma_field_prefix(nat_text(ea.1 as nat), nat_text(eb.1 as nat), 44u8, ra, rb);
    lemma_nat_text_injective(ea.1 as nat, eb.1 as nat);
}

proof fn lemma_clock_bytes_injective(a: Seq<(Seq<char>, u64)>, b: Seq<(Seq<char>, u64)>)
    requires
        clock_bytes(a) == clock_bytes(b),
    ensures
        a == b,
    decreases a.len(),
{
    if a.len() == 0 && b.len() == 0 {
        assert(a =~= b);
    } else if a.len() == 0 {
        lemma_clock_bytes_front(b);
        assert(clock_bytes(b).len() > 0);
    } else if b.len() == 0 {
        lemma_clock_bytes_front(a);
        assert(clock_bytes(a).len() > 0);
    } else {
        lemma_clock_bytes_front(a);
        lemma_clock_bytes_front(b);
        lemma_entry_prefix(a[0], b[0], clock_bytes(a.drop_first()), clock_bytes(b.drop_first()));
        lemma_clock_bytes_injective(a.drop_first(), b.drop_first());
        assert(a =~= seq![a[0]] + a.drop_first());
        assert(b =~= seq![b[0]] + b.drop_first());
    }
}

/// The signed bytes are unambiguous: orders whose signable bytes are equal
/// agree on every field but the signature, so a signature binds them all.
pub proof fn law_signable_unambiguous(a: OrderView, b: OrderView)
    requires
        signable_message(a) == signable_message(b),
    ensures
        a == with_signature(b, a.signature),
{
    let d = 124u8;
    lemma_field_prefix(a.id, b.id, d, tail_owner(a), tail_owner(b));
    lemma_field_prefix(a.owner, b.owner, d, tail_side(a), tail_side(b));
    lemma_field_prefix(side_text(a.side), side_text(b.side), d, tail_pair(a), tail_pair(b));
    lemma_field_prefix(a.pair, b.pair, d, tail_price(a), tail_price(b));
    lemma_field_prefix(a.price, b.price, d, tail_amount(a), tail_amount(b));
    lemma_field_prefix(a.amount, b.amount, d, tail_expiry(a), tail_expiry(b));
    lemma_field_prefix(int_text(a.expiry as int), int_text(b.expiry as int), d, tail_nonce(a), tail_nonce(b));
    lemma_field_prefix(nat_text(a.nonce as nat), nat_text(b.nonce as nat), d, clock_bytes(a.vector_clock), clock_bytes(
        b.vector_clock,
    ));
    lemma_int_text_injective(a.expiry as int, b.expiry as int);
    lemma_nat_text_injective(a.nonce as nat, b.nonce as nat);
    lemma_clock_bytes_injective(a.vector_clock, b.vector_clock);
    assert(a.side == b.side) by {
        reveal_strlit("buy");
    }
}

/// The signed bytes before the clock, as `signable_bytes` writes them.
pub open spec fn signable_prefix(o: OrderView) -> Seq<u8> {
    Seq::<u8>::empty() + field(o.id) + seq![124u8] + field(o.owner) + seq![124u8] + field(side_text(o.side)) + seq![124u8]
        + field(o.pair) + seq![124u8] + field(o.price) + seq![124u8] + field(o.amount) + seq![124u8] + field(
        int_text(o.expiry as int),
    ) + seq![124u8] + field(nat_text(o.nonce as nat)) + seq![124u8]
}

proof fn lemma_delim_step(x: Seq<u8>, f: Seq<u8>, rest: Seq<u8>)
    ensures
        x + f + seq![124u8] + rest == x + delimited(f, rest),
{
    assert(x + f + seq![124u8] + rest =~= x + delimited(f, rest));
}

proof fn lemma_signable_layout(o: OrderView)
    ensures
        signable_prefix(o) + clock_bytes(o.vector_clock) == signable_message(o),
{
    let e = Seq::<u8>::empty();
    let p1 = e + field(o.id) + seq![124u8];
    let p2 = p1 + field(o.owner) + seq![124u8];
    let p3 = p2 + field(side_text(o.side)) + seq![124u8];
    let p4 = p3 + field(o.pair) + seq![124u8];
    let p5 = p4 + field(o.price) + seq![124u8];
    let p6 = p5 + field(o.amount) + seq![124u8];
    let p7 = p6 + field(int_text(o.expiry as int)) + seq![124u8];
    lemma_delim_step(p7, field(nat_text(o.nonce as nat)), clock_bytes(o.vector_clock));
    lemma_delim_step(p6, field(int_text(o.expiry as int)), tail_nonce(o));
    lemma_delim_step(p5, field(o.amount), tail_expiry(o));
    lemma_delim_step(p4, field(o.price), tail_amount(o));
    lemma_delim_step(p3, field(o.pair), tail_price(o));
    lemma_delim_step(p2, field(side_text(o.side)), tail_pair(o));
    lemma_delim_step(p1, field(o.owner), tail_side(o));
    lemma_delim_step(e, field(o.id), tail_owner(o));
    assert(e + signable_message(o) =~= signable_message(o));
}

/// Appends a text field, escaped.
fn push_field(out: &mut Vec<u8>, t: &str)
    ensures
        final(out)@ == old(out)@ + field(t@),
{
    let bytes = t.as_bytes();
    let ghost head = out@;
    let ghost bs = bytes@;
    proof {
        assert(bs == encode_utf8(t@));
        assert(bs.take(0) =~= Seq::<u8>::empty());
        assert(head =~= head + escaped(bs.take(0)));
    }
    let mut i: usize = 0;
    while i < bytes.len()
        invariant
            bs == bytes@,
            bs == encode_utf8(t@),
            i <= bs.len(),
            out@ == head + escaped(bs.take(i as int)),
        decreases bs.len() - i,
    {
        let c = bytes[i];
        if c == 92 || c == 124 || c == 58 || c == 44 {
            out.push(92u8);
        }
        out.push(c);
        proof {
            assert(bs.take(i + 1).drop_last() =~= bs.take(i as int));
            assert(out@ =~= head + escaped(bs.take(i + 1)));
        }
        i = i + 1;
    }
    proof {
        assert(bs.take(i as int) =~= bs);
    }
}

impl Order {
    /// The canonical byte sequence that gets signed.
    ///
    /// Deterministic order of fields so all peers sign the same bytes.
    /// Format: each field escaped (`\` before `\`, `|`, `:` and `,`) and
    /// followed by `|`; then `peer:counter,` per clock entry in ascending
    /// peer order. The escaping leaves no ambiguity.
    pub fn signable_bytes(&self) -> (r: Vec<u8>)
        ensures
            r@ == signable_message(self@),
    {
        let mut out: Vec<u8> = Vec::new();
        push_field(&mut out, self.id.as_str());
        out.push(124u8);
        push_field(&mut out, self.owner.as_str());
        out.push(124u8);
        push_field(&mut out, self.side.as_str());
        out.push(124u8);
        push_field(&mut out, self.pair.as_str());
        out.push(124u8);
        push_field(&mut out, self.price.as_str());
        out.push(124u8);
        push_field(&mut out, self.amount.as_str());
        out.push(124u8);
        let mut e = String::new();
        push_int(&mut e, self.expiry);
        push_field(&mut out, e.as_str());
        out.push(124u8);
        let mut n = String::new();
        push_nat(&mut n, self.nonce as u128);
        push_field(&mut out, n.as_str());
        out.push(124u8);
        let ghost head = out@;
        assert(head == signable_prefix(self@));
        let ghost c = self.vector_clock@;
        let len = self.vector_clock.len();
        let mut i: usize = 0;
        proof {
            assert(c.take(0) =~= Seq::<(Seq<char>, u64)>::empty());
            assert(head =~= head + clock_bytes(c.take(0)));
        }
        while i < len
            invariant
                len == c.len(),
                c == self.vector_clock@,
                i <= len,
                out@ == head + clock_bytes(c.take(i as int)),
            decreases len - i,
        {
            let (k, v) = self.vector_clock.entry_at(i);
            push_field(&mut out, k);
            out.push(58u8);
            let mut cv = String::new();
            push_nat(&mut cv, v as u128);
            push_field(&mut out, cv.as_str());
            out.push(44u8);
            proof {
                assert(c.take(i + 1).drop_last() =~= c.take(i as int));
                assert(c.take(i + 1).last() == c[i as int]);
                assert(out@ =~= head + clock_bytes(c.take(i + 1)));
            }
            i = i + 1;
        }
        proof {
            assert(c.take(len as int) =~= c);
            lemma_signable_layout(self@);
        }
        out
    }
}

/// The Ed25519 signature (RFC 8032, deterministic) that `ed25519-dalek`
/// computes for a 32-byte secret key and a message.
pub uninterp spec fn ed25519_signature(secret: Seq<u8>, message: Seq<u8>) -> Seq<u8>;

/// The Ed25519 public key that `ed25519-dalek` derives from a 32-byte secret key.
pub uninterp spec fn ed25519_public_key(secret: Seq<u8>) -> Seq<u8>;

/// The text of the error that `VerifyingKey::from_bytes` reports for 32 bytes
/// that are no valid public key; `None` where they are one.
pub uninterp spec fn ed25519_key_error(public: Seq<u8>) -> Option<Seq<char>>;

/// The text of the error that `VerifyingKey::verify` reports for a public key,
/// a message and a 64-byte signature; `None` where the signature is valid.
pub uninterp spec fn ed25519_verify_error(public: Seq<u8>, message: Seq<u8>, signature: Seq<u8>) -> Option<
    Seq<char>,
>;

/// Signs a message: `SigningKey::from_bytes(secret).sign(message)`, as bytes.
/// As the crate documents, the signature verifies under the key's public key.
#[verifier::external_body]
pub(crate) fn ed25519_sign(secret: &[u8], message: &[u8]) -> (r: Vec<u8>)
    requires
        secret@.len() == 32,
    ensures
        r@ == ed25519_signature(secret@, message@),
        r@.len() == 64,
        ed25519_verify_error(ed25519_public_key(secret@), message@, r@) is None,
{
    let key: [u8; 32] = secret.try_into().unwrap();
    ed25519_dalek::SigningKey::from_bytes(&key).sign(message).to_bytes().to_vec()
}

/// The public key of a secret key: `SigningKey::from_bytes(secret).verifying_key()`,
/// as bytes. As the crate documents, `VerifyingKey::from_bytes` accepts those bytes.
#[verifier::external_body]
pub(crate) fn ed25519_derive_public(secret: &[u8]) -> (r: Vec<u8>)
    requires
        secret@.len() == 32,
    ensures
        r@ == ed25519_public_key(secret@),
        r@.len() == 32,
        ed25519_key_error(r@) is None,
{
    let key: [u8; 32] = secret.try_into().unwrap();
    ed25519_dalek::SigningKey::from_bytes(&key).verifying_key().to_bytes().to_vec()
}

/// Checks 32 bytes as a public key: `VerifyingKey::from_bytes`, the error as its text.
#[verifier::external_body]
pub(crate) fn ed25519_check_public(public: &[u8]) -> (r: Result<(), String>)
    requires
        public@.len() == 32,
    ensures
        match ed25519_key_error(public@) {
            None => r is Ok,
            Some(t) => r matches Err(e) && e@ == t,
        },
{
    let key: [u8; 32] = public.try_into().unwrap();
    match ed25519_dalek::VerifyingKey::from_bytes(&key) {
        Ok(_) => Ok(()),
        Err(e) => Err(e.to_string()),
    }
}

/// Verifies a signature: `VerifyingKey::verify`, the error as its text.
#[verifier::external_body]
pub(crate) fn ed25519_verify(public: &[u8], message: &[u8], signature: &[u8]) -> (r: Result<(), String>)
    requires
        public@.len() == 32,
        signature@.len() == 64,
        ed25519_key_error(public@) is None,
    ensures
        match ed25519_verify_error(public@, message@, signature@) {
            None => r is Ok,
            Some(t) => r matches Err(e) && e@ == t,
        },
{
    let key: [u8; 32] = public.try_into().unwrap();
    let sig: [u8; 64] = signature.try_into().unwrap();
    let vk = ed25519_dalek::VerifyingKey::from_bytes(&key).unwrap();
    vk.verify(message, &ed25519_dalek::Signature::from_bytes(&sig)).map_err(|e| e.to_string())
}

/// The hex-encoded signature of an order under a secret key.
pub open spec fn order_signature(o: OrderView, secret: Seq<u8>) -> Seq<char> {
    hex_text(ed25519_signature(secret, signable_message(o)))
}

/// The same order carrying the given signature.
pub open spec fn with_signature(o: OrderView, signature: Seq<char>) -> OrderView {
    OrderView { signature, ..o }
}

/// A signing identity: a 32-byte secret key whose public key is valid, and
/// the owner text that names it (the public key in hex).
pub open spec fn valid_identity(secret: Seq<u8>, owner: Seq<char>) -> bool {
    &&& secret.len() == 32
    &&& ed25519_public_key(secret).len() == 32
    &&& ed25519_key_error(ed25519_public_key(secret)) is None
    &&& owner == hex_text(ed25519_public_key(secret))
}

/// Sign the order with the given Ed25519 secret key.
/// Returns the hex-encoded signature. Does NOT mutate the order —
/// the caller is responsible for setting `order.signature` on the result.
/// An order whose owner is the key's identity, carrying that signature,
/// passes `verify_order`.
pub fn sign_order(order: &Order, signing_key: &[u8]) -> (r: String)
    requires
        signing_key@.len() == 32,
    ensures
        r@ == order_signature(order@, signing_key@),
        valid_identity(signing_key@, order@.owner) ==> verification_result(with_signature(order@, r@)) is Ok,
{
    let bytes = order.signable_bytes();
    let signature = ed25519_sign(signing_key, bytes.as_slice());
    let r = hex_encode(signature.as_slice());
    proof {
        let o = with_signature(order@, r@);
        assert(signable_message(o) == signable_message(order@));
        law_hex_roundtrip(signature@);
        law_hex_roundtrip(ed25519_public_key(signing_key@));
    }
    r
}

/// `prefix` followed by the decimal rendering of `n`.
pub open spec fn text_with_number(prefix: Seq<char>, n: nat) -> Seq<char> {
    prefix + nat_text(n)
}

/// What `verify_order` returns for an order: the first check that fails, in
/// the order owner hex, owner length, owner key, signature hex, signature
/// length, signature validity.
pub open spec fn verification_result(o: OrderView) -> Result<(), Seq<char>> {
    let owner_raw = encode_utf8(o.owner);
    let sig_raw = encode_utf8(o.signature);
    match hex_decoded(owner_raw) {
        None => Err("invalid owner hex: "@ + hex_decode_error(owner_raw)),
        Some(owner) => if owner.len() != 32 {
            Err(text_with_number("owner must be 32 bytes, got "@, owner.len()))
        } else {
            match ed25519_key_error(owner) {
                Some(t) => Err("invalid owner public key: "@ + t),
                None => match hex_decoded(sig_raw) {
                    None => Err("invalid signature hex: "@ + hex_decode_error(sig_raw)),
                    Some(sig) => if sig.len() != 64 {
                        Err(text_with_number("signature must be 64 bytes, got "@, sig.len()))
                    } else {
                        match ed25519_verify_error(owner, signable_message(o), sig) {
                            Some(t) => Err("signature verification failed: "@ + t),
                            None => Ok(()),
                        }
                    },
                },
            }
        },
    }
}

/// Verify the order's signature against the public key embedded in `order.owner`.
///
/// Returns Ok(()) if the signature is valid, Err with a description otherwise.
pub fn verify_order(order: &Order) -> (r: Result<(), String>)
    ensures
        match verification_result(order@) {
            Ok(()) => r is Ok,
            Err(t) => r matches Err(e) && e@ == t,
        },
{
    proof {
        reveal_strlit("invalid owner hex: ");
        reveal_strlit("owner must be 32 bytes, got ");
        reveal_strlit("invalid owner public key: ");
        reveal_strlit("invalid signature hex: ");
        reveal_strlit("signature must be 64 bytes, got ");
        reveal_strlit("signature verification failed: ");
    }
    let owner_bytes = match hex_decode(order.owner.as_str()) {
        Ok(b) => b,
        Err(e) => {
            let mut m = String::new();
            push_str(&mut m, "invalid owner hex: ");
            push_str(&mut m, e.as_str());
            return Err(m);
        },
    };
    if owner_bytes.len() != 32 {
        let mut m = String::new();
        push_str(&mut m, "owner must be 32 bytes, got ");
        push_nat(&mut m, owner_bytes.len() as u128);
        return Err(m);
    }
    match ed25519_check_public(owner_bytes.as_slice()) {
        Ok(()) => {},
        Err(e) => {
            let mut m = String::new();
            push_str(&mut m, "invalid owner public key: ");
            push_str(&mut m, e.as_str());
            return Err(m);
        },
    }
    let sig_bytes = match hex_decode(order.signature.as_str()) {
        Ok(b) => b,
        Err(e) => {
            let mut m = String::new();
            push_str(&mut m, "invalid signature hex: ");
            push_str(&mut m, e.as_str());
            return Err(m);
        },
    };
    if sig_bytes.len() != 64 {
        let mut m = String::new();
        push_str(&mut m, "signature must be 64 bytes, got ");
        push_nat(&mut m, sig_bytes.len() as u128);
        return Err(m);
    }
    let bytes = order.signable_bytes();
    match ed25519_verify(owner_bytes.as_slice(), bytes.as_slice(), sig_bytes.as_slice()) {
        Ok(()) => Ok(()),
        Err(e) => {
            let mut m = String::new();
            push_str(&mut m, "signature verification failed: ");
            push_str(&mut m, e.as_str());
            Err(m)
        },
    }
}

} // verus!
