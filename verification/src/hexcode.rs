//! Hexadecimal text, through the `hex` crate.

use vstd::prelude::*;
use vstd::utf8::{encode_utf8, is_ascii_chars, is_ascii_chars_encode_utf8};

verus! {

/// The lowercase hex digit for a value below 16.
pub open spec fn hex_digit(v: int) -> char {
    if v < 10 {
        (48 + v) as char
    } else {
        (87 + v) as char
    }
}

/// Lowercase hex text of a byte string, two digits per byte, high nibble first.
pub open spec fn hex_text(b: Seq<u8>) -> Seq<char>
    decreases b.len(),
{
    if b.len() == 0 {
        Seq::empty()
    } else {
        hex_text(b.drop_last()) + seq![hex_digit(b.last() as int / 16), hex_digit(b.last() as int % 16)]
    }
}

/// The value of one hex digit byte (either case), if it is one.
pub open spec fn hex_value(c: u8) -> Option<int> {
    if 48 <= c <= 57 {
        Some(c - 48)
    } else if 97 <= c <= 102 {
        Some(c - 87)
    } else if 65 <= c <= 70 {
        Some(c - 55)
    } else {
        None
    }
}

/// The bytes that hex text of even length, made of hex digits only, stands for.
pub open spec fn hex_decoded(s: Seq<u8>) -> Option<Seq<u8>> {
    if s.len() % 2 == 0 && forall|i: int| 0 <= i < s.len() ==> #[trigger] hex_value(s[i]) is Some {
        Some(
            Seq::new(
                (s.len() / 2) as nat,
                |i: int| (hex_value(s[2 * i]).unwrap() * 16 + hex_value(s[2 * i + 1]).unwrap()) as u8,
            ),
        )
    } else {
        None
    }
}

/// The text of the error that `hex::decode` reports for bytes it does not accept.
pub uninterp spec fn hex_decode_error(s: Seq<u8>) -> Seq<char>;

/// `hex::encode`: lowercase hex text of the bytes.
#[verifier::external_body]
pub(crate) fn hex_encode(data: &[u8]) -> (r: String)
    ensures
        r@ == hex_text(data@),
{
    hex::encode(data)
}

/// `hex::decode` of the text's bytes: the bytes it stands for, or the error's text.
#[verifier::external_body]
pub(crate) fn hex_decode(s: &str) -> (r: Result<Vec<u8>, String>)
    ensures
        match hex_decoded(encode_utf8(s@)) {
            Some(v) => r matches Ok(b) && b@ == v,
            None => r matches Err(e) && e@ == hex_decode_error(encode_utf8(s@)),
        },
{
    hex::decode(s).map_err(|e| e.to_string())
}

proof fn lemma_hex_digit(v: int)
    requires
        0 <= v < 16,
    ensures
        '\0' <= hex_digit(v) <= '\u{7f}',
        hex_value(hex_digit(v) as u8) == Some(v),
{
}

proof fn lemma_hex_text_shape(b: Seq<u8>)
    ensures
        hex_text(b).len() == 2 * b.len(),
        is_ascii_chars(hex_text(b)),
        forall|k: int| 0 <= k < hex_text(b).len() ==> #[trigger] hex_value(hex_text(b)[k] as u8) is Some,
        forall|i: int|
            0 <= i < b.len() ==> hex_value(hex_text(b)[2 * i] as u8) == Some(b[i] as int / 16) && hex_value(
                hex_text(b)[2 * i + 1] as u8,
            ) == Some(b[i] as int % 16),
    decreases b.len(),
{
    if b.len() > 0 {
        let p = b.drop_last();
        let x = b.last() as int;
        lemma_hex_text_shape(p);
        lemma_hex_digit(x / 16);
        lemma_hex_digit(x % 16);
        let t = hex_text(b);
        let tp = hex_text(p);
        assert(t == tp + seq![hex_digit(x / 16), hex_digit(x % 16)]);
        assert forall|k: int| 0 <= k < t.len() implies '\0' <= #[trigger] t[k] <= '\u{7f}' && hex_value(t[k] as u8) is Some by {
            if k < tp.len() {
                assert(t[k] == tp[k]);
                assert(hex_value(tp[k] as u8) is Some);
            }
        }
        assert forall|i: int| 0 <= i < b.len() implies hex_value(t[2 * i] as u8) == Some(b[i] as int / 16)
            && hex_value(t[2 * i + 1] as u8) == Some(b[i] as int % 16) by {
            if i < p.len() {
                assert(b[i] == p[i]);
                assert(t[2 * i] == tp[2 * i]);
                assert(t[2 * i + 1] == tp[2 * i + 1]);
            } else {
                assert(i == p.len());
                assert(t[2 * i] == hex_digit(x / 16));
                assert(t[2 * i + 1] == hex_digit(x % 16));
            }
        }
    }
}

proof fn lemma_byte_split(x: u8)
    ensures
        x as int / 16 * 16 + x as int % 16 == x,
{
}

/// Hex decoding undoes hex encoding: the text that `hex::encode` gives for
/// some bytes decodes to those bytes.
pub proof fn law_hex_roundtrip(b: Seq<u8>)
    ensures
        hex_decoded(encode_utf8(hex_text(b))) == Some(b),
{
    let t = hex_text(b);
    lemma_hex_text_shape(b);
    is_ascii_chars_encode_utf8(t);
    let s = encode_utf8(t);
    assert(s.len() == 2 * b.len());
    assert forall|k: int| 0 <= k < s.len() implies #[trigger] hex_value(s[k]) is Some by {
        assert(t[k] as u8 == s[k]);
        assert(hex_value(t[k] as u8) is Some);
    }
    let d = Seq::new(
        (s.len() / 2) as nat,
        |i: int| (hex_value(s[2 * i]).unwrap() * 16 + hex_value(s[2 * i + 1]).unwrap()) as u8,
    );
    assert forall|i: int| 0 <= i < b.len() implies d[i] == b[i] by {
        assert(t[2 * i] as u8 == s[2 * i]);
        assert(t[2 * i + 1] as u8 == s[2 * i + 1]);
        lemma_byte_split(b[i]);
    }
    assert(d =~= b);
}

} // verus!
