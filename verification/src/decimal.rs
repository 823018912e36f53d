//! Decimal text: the digits of lengths, counts and integers as they stand on
//! the wire, with their values as mathematical integers.

use vstd::prelude::*;

verus! {

/// `+`
pub const PLUS: u8 = 43;

/// `-`
pub const MINUS: u8 = 45;

/// `0`
pub const ZERO: u8 = 48;

/// Whether `b` is one of the ASCII digits `0` to `9`.
pub open spec fn is_digit(b: u8) -> bool {
    48 <= b <= 57
}

/// Whether every byte of `s` is an ASCII digit.
pub open spec fn all_digits(s: Seq<u8>) -> bool {
    forall|i: int| 0 <= i < s.len() ==> is_digit(#[trigger] s[i])
}

/// The number that a run of ASCII digits writes in base ten, most significant
/// digit first. The empty run is worth zero.
pub open spec fn digits_value(s: Seq<u8>) -> nat
    decreases s.len(),
{
    if s.len() == 0 {
        0
    } else {
        10 * digits_value(s.drop_last()) + (s.last() - 48) as nat
    }
}

/// The number of leading bytes of `s` taken by a sign: one if `s` starts with
/// `+` or `-`, else none.
pub open spec fn sign_len(s: Seq<u8>) -> int {
    if s.len() > 0 && (s[0] == 43 || s[0] == 45) {
        1
    } else {
        0
    }
}

/// The number of leading bytes of `s` taken by a `+`.
pub open spec fn plus_len(s: Seq<u8>) -> int {
    if s.len() > 0 && s[0] == 43 {
        1
    } else {
        0
    }
}

/// An unsigned decimal: an optional `+`, then at least one digit and nothing else.
pub open spec fn is_unsigned_text(s: Seq<u8>) -> bool {
    let d = s.skip(plus_len(s));
    d.len() > 0 && all_digits(d)
}

/// The value of an unsigned decimal.
pub open spec fn unsigned_value(s: Seq<u8>) -> nat {
    digits_value(s.skip(plus_len(s)))
}

/// A signed decimal: an optional `+` or `-`, then at least one digit and nothing else.
pub open spec fn is_signed_text(s: Seq<u8>) -> bool {
    let d = s.skip(sign_len(s));
    d.len() > 0 && all_digits(d)
}

/// The value of a signed decimal.
pub open spec fn signed_value(s: Seq<u8>) -> int {
    let magnitude = digits_value(s.skip(sign_len(s)));
    if s.len() > 0 && s[0] == 45 {
        -magnitude
    } else {
        magnitude as int
    }
}

/// The digits of `n` in base ten, without leading zeros; zero is written `0`.
pub open spec fn nat_digits(n: nat) -> Seq<u8>
    decreases n,
{
    if n < 10 {
        seq![(48 + n) as u8]
    } else {
        nat_digits(n / 10).push((48 + n % 10) as u8)
    }
}

/// The canonical decimal text of `n`: a `-` for a negative number, no `+`, no
/// leading zeros.
pub open spec fn int_text(n: int) -> Seq<u8> {
    if n < 0 {
        seq![45u8] + nat_digits((-n) as nat)
    } else {
        nat_digits(n as nat)
    }
}

/// What an unsigned decimal text denotes when the value has to fit under `limit`.
pub open spec fn bounded_unsigned(s: Seq<u8>, limit: nat) -> Option<nat> {
    if is_unsigned_text(s) && unsigned_value(s) <= limit {
        Some(unsigned_value(s))
    } else {
        None
    }
}

/// What a text denotes as a `u64`: its value if it is an unsigned decimal that fits.
pub open spec fn u64_of_text(s: Seq<u8>) -> Option<u64> {
    match bounded_unsigned(s, u64::MAX as nat) {
        Some(v) => Some(v as u64),
        None => None,
    }
}

/// What a text denotes as a `usize`: its value if it is an unsigned decimal that fits.
pub open spec fn usize_of_text(s: Seq<u8>) -> Option<usize> {
    match bounded_unsigned(s, usize::MAX as nat) {
        Some(v) => Some(v as usize),
        None => None,
    }
}

/// What a text denotes as a `u16`: its value if it is an unsigned decimal that fits.
pub open spec fn u16_of_text(s: Seq<u8>) -> Option<u16> {
    match bounded_unsigned(s, u16::MAX as nat) {
        Some(v) => Some(v as u16),
        None => None,
    }
}

/// What a text denotes as an `i64`: its value if it is a signed decimal in range.
pub open spec fn i64_of_text(s: Seq<u8>) -> Option<i64> {
    if is_signed_text(s) && i64::MIN <= signed_value(s) <= i64::MAX {
        Some(signed_value(s) as i64)
    } else {
        None
    }
}

/// A longer run of digits is worth at least as much as any of its prefixes.
pub proof fn lemma_digits_value_prefix(s: Seq<u8>, k: int)
    requires
        0 <= k <= s.len(),
    ensures
        digits_value(s.take(k)) <= digits_value(s),
    decreases s.len(),
{
    if k < s.len() {
        assert(s.drop_last().take(k) == s.take(k));
        lemma_digits_value_prefix(s.drop_last(), k);
    } else {
        assert(s.take(k) == s);
    }
}

/// One more digit at the end multiplies the value by ten and adds the digit.
pub proof fn lemma_digits_value_push(s: Seq<u8>, d: u8)
    ensures
        digits_value(s.push(d)) == 10 * digits_value(s) + (d - 48) as nat,
{
    assert(s.push(d).drop_last() == s);
}

/// The digits of a number are digits, at least one of them, and are worth the
/// number.
pub proof fn lemma_nat_digits(n: nat)
    ensures
        nat_digits(n).len() >= 1,
        all_digits(nat_digits(n)),
        digits_value(nat_digits(n)) == n,
        n > 0 ==> nat_digits(n)[0] != 48,
    decreases n,
{
    if n < 10 {
        let s = seq![(48 + n) as u8];
        assert(s.drop_last().len() == 0);
        assert(digits_value(s) == 10 * digits_value(s.drop_last()) + (s.last() - 48) as nat);
    } else {
        lemma_nat_digits(n / 10);
        lemma_digits_value_push(nat_digits(n / 10), (48 + n % 10) as u8);
    }
}

/// Reading the canonical text of an integer gives the integer back.
pub proof fn lemma_int_text_round_trip(n: int)
    ensures
        is_signed_text(int_text(n)),
        signed_value(int_text(n)) == n,
        n >= 0 ==> is_unsigned_text(int_text(n)) && unsigned_value(int_text(n)) == n,
{
    if n < 0 {
        let d = nat_digits((-n) as nat);
        lemma_nat_digits((-n) as nat);
        let s = seq![45u8] + d;
        assert(s.skip(1) == d);
    } else {
        let d = nat_digits(n as nat);
        lemma_nat_digits(n as nat);
        assert(d.skip(0) == d);
    }
}

/// Reads the digits of `text` from `start` to its end as a number no greater
/// than `limit`.
fn parse_digits(text: &[u8], start: usize, limit: u64) -> (res: Option<u64>)
    requires
        start <= text@.len(),
    ensures
        ({
            let d = text@.skip(start as int);
            res == if d.len() > 0 && all_digits(d) && digits_value(d) <= limit {
                Some(digits_value(d) as u64)
            } else {
                None
            }
        }),
{
    let ghost d = text@.skip(start as int);
    let n = text.len();
    if start == n {
        return None;
    }
    let mut acc: u64 = 0;
    let mut i: usize = start;
    while i < n
        invariant
            start <= i <= n,
            n == text@.len(),
            d == text@.skip(start as int),
            all_digits(d.take(i - start)),
            acc == digits_value(d.take(i - start)),
            acc <= limit,
        decreases n - i,
    {
        let b = text[i];
        let ghost k = i - start;
        proof {
            assert(d[k] == b);
            assert(d.take(k + 1) == d.take(k).push(b));
            lemma_digits_value_push(d.take(k), b);
            lemma_digits_value_prefix(d, k + 1);
        }
        if b < 48 || b > 57 {
            assert(!all_digits(d));
            return None;
        }
        let digit: u64 = (b - 48) as u64;
        if digit > limit || acc > (limit - digit) / 10 {
            return None;
        }
        acc = acc * 10 + digit;
        i = i + 1;
        proof {
            assert forall|j: int| 0 <= j < d.take(k + 1).len() implies is_digit(
                #[trigger] d.take(k + 1)[j],
            ) by {
                if j < k {
                    assert(d.take(k)[j] == d.take(k + 1)[j]);
                }
            }
        }
    }
    proof {
        assert(d.take(n - start) == d);
    }
    Some(acc)
}

/// Whether `text` is a signed decimal.
pub fn is_signed_decimal(text: &[u8]) -> (res: bool)
    ensures
        res == is_signed_text(text@),
{
    let n = text.len();
    let start: usize = if n > 0 && (text[0] == PLUS || text[0] == MINUS) {
        1
    } else {
        0
    };
    let ghost d = text@.skip(start as int);
    if start == n {
        return false;
    }
    let mut i: usize = start;
    while i < n
        invariant
            start <= i <= n,
            n == text@.len(),
            start == sign_len(text@),
            d == text@.skip(start as int),
            forall|j: int| 0 <= j < i - start ==> is_digit(#[trigger] d[j]),
        decreases n - i,
    {
        let b = text[i];
        assert(d[i - start] == b);
        if b < 48 || b > 57 {
            assert(!is_digit(d[i - start]));
            return false;
        }
        i = i + 1;
    }
    true
}

/// Reads an unsigned decimal that fits in a `u64`.
pub fn parse_u64(text: &[u8]) -> (res: Option<u64>)
    ensures
        res == u64_of_text(text@),
{
    let start: usize = if text.len() > 0 && text[0] == PLUS {
        1
    } else {
        0
    };
    parse_digits(text, start, u64::MAX)
}

/// Reads an unsigned decimal that fits in a `usize`.
pub fn parse_usize(text: &[u8]) -> (res: Option<usize>)
    ensures
        res == usize_of_text(text@),
{
    let start: usize = if text.len() > 0 && text[0] == PLUS {
        1
    } else {
        0
    };
    match parse_digits(text, start, usize::MAX as u64) {
        Some(v) => Some(v as usize),
        None => None,
    }
}

/// Reads an unsigned decimal that fits in a `u16`.
pub fn parse_u16(text: &[u8]) -> (res: Option<u16>)
    ensures
        res == u16_of_text(text@),
{
    let start: usize = if text.len() > 0 && text[0] == PLUS {
        1
    } else {
        0
    };
    match parse_digits(text, start, 0xffff) {
        Some(v) => Some(v as u16),
        None => None,
    }
}

/// Reads a signed decimal that fits in an `i64`.
pub fn parse_i64(text: &[u8]) -> (res: Option<i64>)
    ensures
        res == i64_of_text(text@),
{
    let negative = text.len() > 0 && text[0] == MINUS;
    let start: usize = if text.len() > 0 && (text[0] == PLUS || text[0] == MINUS) {
        1
    } else {
        0
    };
    if negative {
        match parse_digits(text, start, 0x8000_0000_0000_0000) {
            Some(v) => {
                if v == 0x8000_0000_0000_0000 {
                    Some(i64::MIN)
                } else {
                    Some(-(v as i64))
                }
            },
            None => None,
        }
    } else {
        match parse_digits(text, start, 0x7fff_ffff_ffff_ffff) {
            Some(v) => Some(v as i64),
            None => None,
        }
    }
}

/// Appends the digits of `n` to `out`.
pub fn push_digits(n: u64, out: &mut Vec<u8>)
    ensures
        final(out)@ == old(out)@ + nat_digits(n as nat),
    decreases n,
{
    if n >= 10 {
        push_digits(n / 10, out);
    }
    out.push(ZERO + (n % 10) as u8);
    proof {
        if n < 10 {
            assert(old(out)@.push((48 + n) as u8) == old(out)@ + seq![(48 + n) as u8]);
        } else {
            let head = nat_digits((n / 10) as nat);
            let last = (48 + n % 10) as u8;
            assert((old(out)@ + head).push(last) == old(out)@ + head.push(last));
        }
    }
}

/// Appends the canonical decimal text of `n` to `out`.
pub fn push_int(n: i64, out: &mut Vec<u8>)
    ensures
        final(out)@ == old(out)@ + int_text(n as int),
{
    if n < 0 {
        out.push(MINUS);
        let magnitude: u64 = if n == i64::MIN {
            0x8000_0000_0000_0000
        } else {
            (-n) as u64
        };
        push_digits(magnitude, out);
        proof {
            let digits = nat_digits((-n) as nat);
            assert(old(out)@.push(45u8) + digits == old(out)@ + (seq![45u8] + digits));
        }
    } else {
        push_digits(n as u64, out);
    }
}

} // verus!
