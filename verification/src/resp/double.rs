//! The text of a double on the wire.
//!
//! A double is carried as the text that was sent for it, and the text says
//! which number it is. After an optional sign the text is one of the words
//! `inf`, `infinity` and `nan`, in any case, or a decimal number: digits with
//! at most one `.` among them and at least one digit on one side of it, and
//! an optional exponent, which is `e` or `E`, an optional sign and at least
//! one digit. The words `inf`, `-inf` and `nan` are the ones that an encoder
//! of numbers writes.

use crate::decimal::{is_digit, sign_len};
use crate::text::{lower, lower_byte, to_lower};
use vstd::prelude::*;

verus! {

/// `.`
pub const DOT: u8 = 46;

/// The word `inf`.
pub open spec fn inf_text() -> Seq<u8> {
    seq![105u8, 110u8, 102u8]
}

/// The word `-inf`.
pub open spec fn neg_inf_text() -> Seq<u8> {
    seq![45u8, 105u8, 110u8, 102u8]
}

/// The word `infinity`.
pub open spec fn infinity_text() -> Seq<u8> {
    seq![105u8, 110u8, 102u8, 105u8, 110u8, 105u8, 116u8, 121u8]
}

/// The word `nan`.
pub open spec fn nan_text() -> Seq<u8> {
    seq![110u8, 97u8, 110u8]
}

/// Whether `s` is, after an optional sign, one of the words `inf`,
/// `infinity` and `nan` in any case.
pub open spec fn is_word_text(s: Seq<u8>) -> bool {
    let word = lower(s.skip(sign_len(s)));
    word == inf_text() || word == infinity_text() || word == nan_text()
}

/// The number of digits that stand in `s` from index `from` on without a break.
pub open spec fn digit_run(s: Seq<u8>, from: int) -> nat
    decreases s.len() - from,
{
    if 0 <= from < s.len() && is_digit(s[from]) {
        1 + digit_run(s, from + 1)
    } else {
        0
    }
}

/// Whether `s` holds, from index `at` to its end, an exponent: `e` or `E`, an
/// optional sign and at least one digit.
pub open spec fn is_exponent(s: Seq<u8>, at: int) -> bool {
    let digits = at + 1 + sign_len(s.skip(at + 1));
    &&& 0 <= at < s.len()
    &&& (s[at] == 101 || s[at] == 69)
    &&& digit_run(s, digits) >= 1
    &&& digits + digit_run(s, digits) == s.len()
}

/// The index behind the sign and the digits before the `.`.
pub open spec fn whole_end(s: Seq<u8>) -> int {
    sign_len(s) + digit_run(s, sign_len(s))
}

/// Whether a `.` follows the digits before it.
pub open spec fn has_dot(s: Seq<u8>) -> bool {
    whole_end(s) < s.len() && s[whole_end(s)] == 46
}

/// The number of digits behind the `.`; none where there is no `.`.
pub open spec fn fraction_len(s: Seq<u8>) -> nat {
    if has_dot(s) {
        digit_run(s, whole_end(s) + 1)
    } else {
        0
    }
}

/// The index behind the sign, the digits and the `.`: where an exponent begins
/// if there is one.
pub open spec fn mantissa_end(s: Seq<u8>) -> int {
    if has_dot(s) {
        whole_end(s) + 1 + fraction_len(s)
    } else {
        whole_end(s)
    }
}

/// Whether `s` is a decimal number.
pub open spec fn is_number_text(s: Seq<u8>) -> bool {
    &&& digit_run(s, sign_len(s)) + fraction_len(s) >= 1
    &&& (mantissa_end(s) == s.len() || is_exponent(s, mantissa_end(s)))
}

/// Whether `s` is the text of a double.
pub open spec fn is_double_text(s: Seq<u8>) -> bool {
    is_word_text(s) || is_number_text(s)
}

/// The bytes that a double's text can hold: digits, signs, `.` and letters.
pub open spec fn is_double_byte(b: u8) -> bool {
    is_digit(b) || b == 43 || b == 45 || b == 46 || 65 <= b <= 90 || 97 <= b <= 122
}

/// The words `inf`, `-inf` and `nan` are texts of doubles.
pub proof fn lemma_plain_words()
    ensures
        is_double_text(inf_text()),
        is_double_text(neg_inf_text()),
        is_double_text(nan_text()),
{
    assert(lower(inf_text().skip(0)) =~= inf_text());
    assert(lower(neg_inf_text().skip(1)) =~= inf_text());
    assert(lower(nan_text().skip(0)) =~= nan_text());
}

/// A run of digits stays inside the text and holds digits only.
pub proof fn lemma_digit_run(s: Seq<u8>, from: int)
    requires
        0 <= from,
    ensures
        from + digit_run(s, from) <= s.len() || digit_run(s, from) == 0,
        forall|i: int| from <= i < from + digit_run(s, from) ==> is_digit(#[trigger] s[i]),
    decreases s.len() - from,
{
    if from < s.len() && is_digit(s[from]) {
        lemma_digit_run(s, from + 1);
    }
}

/// The text of a double holds none but the bytes of [`is_double_byte`]: in
/// particular no line break and nothing outside ASCII.
pub proof fn lemma_double_text_bytes(s: Seq<u8>)
    requires
        is_double_text(s),
    ensures
        forall|i: int| 0 <= i < s.len() ==> is_double_byte(#[trigger] s[i]),
{
    if is_word_text(s) {
        let a = sign_len(s);
        let tail = s.skip(a);
        let word = lower(tail);
        assert(forall|j: int| 0 <= j < 3 ==> 97 <= #[trigger] inf_text()[j] <= 122);
        assert(forall|j: int| 0 <= j < 3 ==> 97 <= #[trigger] nan_text()[j] <= 122);
        assert(forall|j: int| 0 <= j < 8 ==> 97 <= #[trigger] infinity_text()[j] <= 122);
        assert forall|i: int| 0 <= i < s.len() implies is_double_byte(#[trigger] s[i]) by {
            if i >= a {
                assert(tail[i - a] == s[i]);
                assert(word[i - a] == lower_byte(s[i]));
                assert(word.len() == s.len() - a);
                assert(inf_text().len() == 3 && nan_text().len() == 3);
                assert(infinity_text().len() == 8);
                if word == inf_text() {
                    assert(97 <= inf_text()[i - a] <= 122);
                } else if word == nan_text() {
                    assert(97 <= nan_text()[i - a] <= 122);
                } else {
                    assert(97 <= infinity_text()[i - a] <= 122);
                }
            }
        }
    } else {
        let a = sign_len(s);
        let b = whole_end(s);
        let c = mantissa_end(s);
        lemma_digit_run(s, a);
        if has_dot(s) {
            lemma_digit_run(s, b + 1);
        }
        if c == s.len() {
            assert forall|i: int| 0 <= i < s.len() implies is_double_byte(#[trigger] s[i]) by {
                if i < a {
                } else if i < b {
                } else if i == b {
                } else {
                }
            }
        } else {
            let t = s.skip(c + 1);
            let d = c + 1 + sign_len(t);
            lemma_digit_run(s, d);
            assert forall|i: int| 0 <= i < s.len() implies is_double_byte(#[trigger] s[i]) by {
                if i < a {
                } else if i < b {
                } else if i < c {
                } else if i == c {
                } else if i < d {
                    assert(t[0] == s[c + 1]);
                } else {
                }
            }
        }
    }
}

/// Counts the digits that stand in `text` from `from` on without a break.
fn count_digits(text: &[u8], from: usize) -> (run: usize)
    requires
        from <= text@.len(),
    ensures
        run == digit_run(text@, from as int),
        from + run <= text@.len(),
{
    let n = text.len();
    let mut i: usize = from;
    while i < n && 48 <= text[i] && text[i] <= 57
        invariant
            from <= i <= n,
            n == text@.len(),
            digit_run(text@, from as int) == (i - from) + digit_run(text@, i as int),
        decreases n - i,
    {
        i = i + 1;
    }
    i - from
}

/// Whether `text` is a decimal number.
pub fn is_number(text: &[u8]) -> (res: bool)
    ensures
        res == is_number_text(text@),
{
    let n = text.len();
    let a: usize = if n > 0 && (text[0] == 43 || text[0] == 45) {
        1
    } else {
        0
    };
    let whole = count_digits(text, a);
    let b = a + whole;
    let dot = b < n && text[b] == DOT;
    let fraction = if dot {
        count_digits(text, b + 1)
    } else {
        0
    };
    let c = if dot {
        b + 1 + fraction
    } else {
        b
    };
    if whole == 0 && fraction == 0 {
        return false;
    }
    if c == n {
        return true;
    }
    if text[c] != 101 && text[c] != 69 {
        return false;
    }
    let ghost t = text@.skip(c as int + 1);
    let d: usize = if c + 1 < n && (text[c + 1] == 43 || text[c + 1] == 45) {
        c + 2
    } else {
        c + 1
    };
    proof {
        if c + 1 < n {
            assert(t[0] == text@[c as int + 1]);
        }
    }
    let digits = count_digits(text, d);
    digits >= 1 && d + digits == n
}

/// Whether `text` is, after an optional sign, one of the words `inf`,
/// `infinity` and `nan` in any case.
pub fn is_word(text: &[u8]) -> (res: bool)
    ensures
        res == is_word_text(text@),
{
    let n = text.len();
    let a: usize = if n > 0 && (text[0] == 43 || text[0] == 45) {
        1
    } else {
        0
    };
    let ghost word = lower(text@.skip(a as int));
    if n - a == 3 {
        let b0 = to_lower(text[a]);
        let b1 = to_lower(text[a + 1]);
        let b2 = to_lower(text[a + 2]);
        proof {
            assert(word.len() == 3);
            assert(word[0] == b0 && word[1] == b1 && word[2] == b2);
            assert(infinity_text().len() == 8);
        }
        if b0 == 105 && b1 == 110 && b2 == 102 {
            assert(word =~= inf_text());
            true
        } else if b0 == 110 && b1 == 97 && b2 == 110 {
            assert(word =~= nan_text());
            true
        } else {
            assert(word != inf_text()) by {
                assert(inf_text()[0] == 105 && inf_text()[1] == 110 && inf_text()[2] == 102);
            }
            assert(word != nan_text()) by {
                assert(nan_text()[0] == 110 && nan_text()[1] == 97 && nan_text()[2] == 110);
            }
            false
        }
    } else if n - a == 8 {
        let b0 = to_lower(text[a]);
        let b1 = to_lower(text[a + 1]);
        let b2 = to_lower(text[a + 2]);
        let b3 = to_lower(text[a + 3]);
        let b4 = to_lower(text[a + 4]);
        let b5 = to_lower(text[a + 5]);
        let b6 = to_lower(text[a + 6]);
        let b7 = to_lower(text[a + 7]);
        proof {
            assert(word.len() == 8);
            assert(word[0] == b0 && word[1] == b1 && word[2] == b2 && word[3] == b3);
            assert(word[4] == b4 && word[5] == b5 && word[6] == b6 && word[7] == b7);
            assert(inf_text().len() == 3 && nan_text().len() == 3);
        }
        if b0 == 105 && b1 == 110 && b2 == 102 && b3 == 105 && b4 == 110 && b5 == 105 && b6
            == 116 && b7 == 121 {
            assert(word =~= infinity_text());
            true
        } else {
            assert(word != infinity_text()) by {
                let w = infinity_text();
                assert(w[0] == 105 && w[1] == 110 && w[2] == 102 && w[3] == 105);
                assert(w[4] == 110 && w[5] == 105 && w[6] == 116 && w[7] == 121);
            }
            false
        }
    } else {
        proof {
            assert(word.len() == n - a);
            assert(inf_text().len() == 3 && nan_text().len() == 3);
            assert(infinity_text().len() == 8);
        }
        false
    }
}

/// Whether `text` is the text of a double.
pub fn is_double(text: &[u8]) -> (res: bool)
    ensures
        res == is_double_text(text@),
{
    is_word(text) || is_number(text)
}

} // verus!
