//! Decimal amounts and prices. The arithmetic is `rust_decimal`'s: the
//! library holds a decimal as the plain parts that `rust_decimal` keeps
//! (magnitude, sign flag, scale) and hands every operation to that crate.

use vstd::prelude::*;
use vstd::arithmetic::power::pow;
use crate::text::nat_text;
use rust_decimal::Decimal;
use std::str::FromStr;

verus! {

/// Largest magnitude a decimal can hold: 2^96 - 1.
pub const MAX_MAGNITUDE: u128 = 0xffff_ffff_ffff_ffff_ffff_ffffu128;

/// Largest scale (digits after the point) a decimal can hold.
pub const MAX_SCALE: u32 = 28;

/// A decimal number `(-1)^negative * magnitude / 10^scale`, in the parts
/// that `rust_decimal::Decimal` holds. A zero magnitude may carry the sign
/// flag ("-0"), as in that crate.
#[derive(Debug, Clone, Copy)]
pub struct Dec {
    pub magnitude: u128,
    pub negative: bool,
    pub scale: u32,
}

/// The parts of a decimal as plain values.
pub type DecParts = (nat, bool, nat);

impl Dec {
    /// The parts lie in the range that `rust_decimal` represents.
    pub open spec fn wf(self) -> bool {
        self.magnitude <= MAX_MAGNITUDE && self.scale <= MAX_SCALE
    }

    pub open spec fn parts(self) -> DecParts {
        (self.magnitude as nat, self.negative, self.scale as nat)
    }

    /// The signed magnitude (the mantissa).
    pub open spec fn mantissa(self) -> int {
        if self.negative {
            -(self.magnitude as int)
        } else {
            self.magnitude as int
        }
    }

    /// The value times 10^28, an integer for every well-formed decimal.
    pub open spec fn scaled(self) -> int {
        self.mantissa() * pow(10, (MAX_SCALE - self.scale) as nat)
    }

    /// Zero, as `Decimal::ZERO` holds it.
    pub fn zero() -> (r: Dec)
        ensures
            r == dec_zero(),
            r.wf(),
    {
        Dec { magnitude: 0, negative: false, scale: 0 }
    }

    /// Parses a decimal as `Decimal::from_str` does; `None` where it reports an error.
    pub fn parse(s: &str) -> (r: Option<Dec>)
        ensures
            r matches Some(d) ==> d.wf() && decimal_from_str(s@) == Some(d.parts()),
            r is None ==> decimal_from_str(s@) is None,
    {
        dec_parse(s)
    }

    /// The decimal as `Decimal` displays it.
    pub fn to_string(&self) -> (r: String)
        requires
            self.wf(),
        ensures
            r@ == decimal_text(*self),
    {
        dec_to_string(*self)
    }
}

pub open spec fn dec_zero() -> Dec {
    Dec { magnitude: 0, negative: false, scale: 0 }
}

pub open spec fn dec_from_parts(p: DecParts) -> Dec {
    Dec { magnitude: p.0 as u128, negative: p.1, scale: p.2 as u32 }
}

/// Numeric order of decimals, as `rust_decimal` compares them.
pub open spec fn dec_lt(a: Dec, b: Dec) -> bool {
    a.scaled() < b.scaled()
}

/// Numeric equality of decimals: "-0" equals "0", and "2.0" equals "2".
pub open spec fn dec_eq(a: Dec, b: Dec) -> bool {
    a.scaled() == b.scaled()
}

/// What `rust_decimal` parses from a string (`Decimal::from_str`), as parts;
/// `None` where it reports an error.
pub uninterp spec fn decimal_from_str(s: Seq<char>) -> Option<DecParts>;

/// What `Decimal::checked_add` returns for two decimals, as parts.
pub uninterp spec fn decimal_checked_add(a: DecParts, b: DecParts) -> Option<DecParts>;

/// What `Decimal::checked_sub` returns for two decimals, as parts.
pub uninterp spec fn decimal_checked_sub(a: DecParts, b: DecParts) -> Option<DecParts>;

/// `n` zero characters.
pub open spec fn zeros(n: nat) -> Seq<char> {
    Seq::new(n, |i: int| '0')
}

/// The digits of the magnitude, with leading zeros up to `scale` digits.
pub open spec fn padded_digits(magnitude: nat, scale: nat) -> Seq<char> {
    let d = if magnitude == 0 {
        Seq::<char>::empty()
    } else {
        nat_text(magnitude)
    };
    if d.len() < scale {
        zeros((scale - d.len()) as nat) + d
    } else {
        d
    }
}

/// How `Decimal` displays: the sign, the whole part ("0" where empty) and,
/// for a positive scale, a point followed by exactly `scale` digits.
pub open spec fn decimal_text(d: Dec) -> Seq<char> {
    let p = padded_digits(d.magnitude as nat, d.scale as nat);
    let whole_len = p.len() - d.scale;
    let whole = if whole_len == 0 {
        seq!['0']
    } else {
        p.take(whole_len)
    };
    let body = if d.scale == 0 {
        whole
    } else {
        whole + seq!['.'] + p.skip(whole_len)
    };
    if d.negative {
        seq!['-'] + body
    } else {
        body
    }
}

/// Parses a decimal with `Decimal::from_str`.
#[verifier::external_body]
pub(crate) fn dec_parse(s: &str) -> (r: Option<Dec>)
    ensures
        r matches Some(d) ==> d.wf() && decimal_from_str(s@) == Some(d.parts()),
        r is None ==> decimal_from_str(s@) is None,
{
    match Decimal::from_str(s) {
        Ok(x) => Some(Dec { magnitude: x.mantissa().unsigned_abs(), negative: x.is_sign_negative(), scale: x.scale() }),
        Err(_) => None,
    }
}

/// `a < b` on `Decimal`, which compares the numeric values.
#[verifier::external_body]
pub(crate) fn dec_less(a: Dec, b: Dec) -> (r: bool)
    requires
        a.wf(),
        b.wf(),
    ensures
        r == dec_lt(a, b),
{
    let mut x = Decimal::from_i128_with_scale(a.magnitude as i128, a.scale);
    x.set_sign_negative(a.negative);
    let mut y = Decimal::from_i128_with_scale(b.magnitude as i128, b.scale);
    y.set_sign_negative(b.negative);
    x < y
}

/// The smaller of two decimals, as `Decimal::min` (`Ord::min`) gives it:
/// the second where it is numerically smaller, else the first.
pub(crate) fn dec_min(a: Dec, b: Dec) -> (r: Dec)
    requires
        a.wf(),
        b.wf(),
    ensures
        r == (if dec_lt(b, a) {
            b
        } else {
            a
        }),
{
    if dec_less(b, a) {
        b
    } else {
        a
    }
}

/// `Decimal::checked_add`: the sum, or `None` on overflow.
#[verifier::external_body]
pub(crate) fn dec_checked_add(a: Dec, b: Dec) -> (r: Option<Dec>)
    requires
        a.wf(),
        b.wf(),
    ensures
        r matches Some(d) ==> d.wf() && decimal_checked_add(a.parts(), b.parts()) == Some(d.parts()),
        r is None ==> decimal_checked_add(a.parts(), b.parts()) is None,
{
    let mut x = Decimal::from_i128_with_scale(a.magnitude as i128, a.scale);
    x.set_sign_negative(a.negative);
    let mut y = Decimal::from_i128_with_scale(b.magnitude as i128, b.scale);
    y.set_sign_negative(b.negative);
    match x.checked_add(y) {
        Some(m) => Some(Dec { magnitude: m.mantissa().unsigned_abs(), negative: m.is_sign_negative(), scale: m.scale() }),
        None => None,
    }
}

/// `Decimal::checked_sub`: the difference, or `None` on overflow.
#[verifier::external_body]
pub(crate) fn dec_checked_sub(a: Dec, b: Dec) -> (r: Option<Dec>)
    requires
        a.wf(),
        b.wf(),
    ensures
        r matches Some(d) ==> d.wf() && decimal_checked_sub(a.parts(), b.parts()) == Some(d.parts()),
        r is None ==> decimal_checked_sub(a.parts(), b.parts()) is None,
{
    let mut x = Decimal::from_i128_with_scale(a.magnitude as i128, a.scale);
    x.set_sign_negative(a.negative);
    let mut y = Decimal::from_i128_with_scale(b.magnitude as i128, b.scale);
    y.set_sign_negative(b.negative);
    match x.checked_sub(y) {
        Some(m) => Some(Dec { magnitude: m.mantissa().unsigned_abs(), negative: m.is_sign_negative(), scale: m.scale() }),
        None => None,
    }
}

/// `Decimal`'s `Display` rendering.
#[verifier::external_body]
pub(crate) fn dec_to_string(a: Dec) -> (r: String)
    requires
        a.wf(),
    ensures
        r@ == decimal_text(a),
{
    let mut x = Decimal::from_i128_with_scale(a.magnitude as i128, a.scale);
    x.set_sign_negative(a.negative);
    x.to_string()
}

} // verus!
