//! Integers of any size, held as a sign and the bytes of the magnitude.

use crate::decimal::{int_text, is_signed_decimal, is_signed_text, signed_value};
use vstd::prelude::*;

verus! {

/// The sign of a [`BigNum`].
#[derive(Debug, Clone, Copy, PartialEq, Eq)]
pub enum Sign {
    Minus,
    NoSign,
    Plus,
}

/// An integer of any size: a sign and the magnitude in base 256, most
/// significant byte first.
///
/// Every pair of a sign and bytes stands for a number, see [`BigNum::view`];
/// the values that [`BigNum::parse_decimal`] returns carry the sign and bytes
/// that `num_bigint` gives the number.
#[derive(Debug, Clone, PartialEq, Eq)]
pub struct BigNum {
    pub sign: Sign,
    pub magnitude: Vec<u8>,
}

/// The number that `bytes` write in base 256, most significant byte first.
pub open spec fn be_value(bytes: Seq<u8>) -> nat
    decreases bytes.len(),
{
    if bytes.len() == 0 {
        0
    } else {
        256 * be_value(bytes.drop_last()) + bytes.last() as nat
    }
}

impl View for BigNum {
    type V = int;

    /// The integer: zero under `NoSign` whatever the bytes, else the magnitude
    /// with the sign.
    open spec fn view(&self) -> int {
        match self.sign {
            Sign::NoSign => 0,
            Sign::Plus => be_value(self.magnitude@) as int,
            Sign::Minus => -(be_value(self.magnitude@) as int),
        }
    }
}

/// `num_bigint::BigInt::parse_bytes` in base ten, and `BigInt::to_bytes_be` on
/// what it gives. Trusted: a signed decimal is accepted, and the sign and bytes
/// handed back stand for the number that the decimal writes.
#[verifier::external_body]
fn bigint_parse_decimal(text: &[u8]) -> (res: Option<BigNum>)
    ensures
        is_signed_text(text@) ==> res is Some && res->Some_0@ == signed_value(text@),
{
    let n = num_bigint::BigInt::parse_bytes(text, 10)?;
    let (sign, magnitude) = n.to_bytes_be();
    let sign = match sign {
        num_bigint::Sign::Minus => Sign::Minus,
        num_bigint::Sign::NoSign => Sign::NoSign,
        num_bigint::Sign::Plus => Sign::Plus,
    };
    Some(BigNum { sign, magnitude })
}

/// `num_bigint::BigInt::from_bytes_be`, and `BigInt::to_str_radix` in base ten
/// on what it gives. Trusted: the text is the canonical decimal of the number
/// that the sign and bytes stand for.
#[verifier::external_body]
fn bigint_format_decimal(n: &BigNum) -> (text: Vec<u8>)
    ensures
        text@ == int_text(n@),
{
    let sign = match n.sign {
        Sign::Minus => num_bigint::Sign::Minus,
        Sign::NoSign => num_bigint::Sign::NoSign,
        Sign::Plus => num_bigint::Sign::Plus,
    };
    num_bigint::BigInt::from_bytes_be(sign, &n.magnitude).to_str_radix(10).into_bytes()
}

impl BigNum {
    /// The number with the given sign and magnitude.
    pub fn new(sign: Sign, magnitude: Vec<u8>) -> (n: BigNum)
        ensures
            n.sign == sign,
            n.magnitude == magnitude,
    {
        BigNum { sign, magnitude }
    }

    /// Reads a signed decimal: an optional `+` or `-` and at least one digit.
    /// Any other text is refused.
    pub fn parse_decimal(text: &[u8]) -> (res: Option<BigNum>)
        ensures
            res is Some <==> is_signed_text(text@),
            res matches Some(n) ==> n@ == signed_value(text@),
    {
        if is_signed_decimal(text) {
            bigint_parse_decimal(text)
        } else {
            None
        }
    }

    /// The canonical decimal text of the number.
    pub fn to_decimal(&self) -> (text: Vec<u8>)
        ensures
            text@ == int_text(self@),
    {
        bigint_format_decimal(self)
    }
}

} // verus!
