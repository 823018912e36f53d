//! What holds of the encoder and the decoder together.

use crate::decimal::{
    int_text, is_digit, is_unsigned_text, lemma_int_text_round_trip, lemma_nat_digits,
    nat_digits, unsigned_value, usize_of_text,
};
use crate::resp::double::{is_double_byte, is_double_text, lemma_double_text_bytes};
use crate::resp::parser::{
    array_spec, behind_tag, big_number_spec, boolean_spec, bulk_error_spec, bulk_payload,
    bulk_string_spec, crlf_at, double_spec, elements_spec, first_crlf, integer_spec, invalid,
    invalid_buffer, invalid_integer, lemma_crlf_from, lemma_elements_bounds, lemma_line_span,
    line_of, line_span, minus_one, null_spec, parse_spec, simple_error_spec, simple_string_spec,
};
use crate::resp::value::{bulk_wire, crlf, line_wire, wire, wire_all, Frame};
use vstd::prelude::*;
use vstd::utf8::{decode_utf8, encode_utf8, valid_utf8};

verus! {

/// Whether `s` holds no terminator.
pub open spec fn no_crlf(s: Seq<u8>) -> bool {
    forall|j: int| !crlf_at(s, j)
}

impl Frame {
    /// Whether the value survives a line: no simple string and no simple
    /// error in it holds a terminator. One that does is cut short at the
    /// terminator when it is read back.
    pub open spec fn line_safe(self) -> bool
        decreases self,
    {
        match self {
            Frame::SimpleString(t) => no_crlf(encode_utf8(t)),
            Frame::SimpleError(t) => no_crlf(encode_utf8(t)),
            Frame::Array(items) => forall|i: int|
                0 <= i < items.len() ==> (#[trigger] items[i]).line_safe(),
            _ => true,
        }
    }
}

/// A line without a terminator in it, then a terminator: the line is read
/// back whole, whatever follows.
pub proof fn lemma_first_line(line: Seq<u8>, rest: Seq<u8>)
    requires
        no_crlf(line),
    ensures
        first_crlf(line + crlf() + rest) == Some(line.len() as int),
        line_of(line + crlf() + rest) == line,
        line_span(line + crlf() + rest) == line.len() + 2,
{
    let s = line + crlf() + rest;
    let n = line.len() as int;
    lemma_crlf_from(s, 0);
    assert(s[n] == 13 && s[n + 1] == 10);
    assert(crlf_at(s, n));
    assert forall|j: int| 0 <= j < n implies !crlf_at(s, j) by {
        if j + 1 < n {
            assert(!crlf_at(line, j));
            assert(s[j] == line[j] && s[j + 1] == line[j + 1]);
        } else {
            assert(s[j + 1] == 13);
        }
    }
    assert(s.take(n) =~= line);
}

/// Behind the tag of a line stand the body, the terminator and what follows.
pub proof fn lemma_line_body(tag: u8, body: Seq<u8>, rest: Seq<u8>)
    ensures
        (line_wire(tag, body) + rest).len() == body.len() + 3 + rest.len(),
        (line_wire(tag, body) + rest)[0] == tag,
        (line_wire(tag, body) + rest).skip(1) == body + crlf() + rest,
{
    assert((line_wire(tag, body) + rest).skip(1) =~= body + crlf() + rest);
}

/// The digits of a number hold no terminator, start with no sign and are not
/// the length of the null.
pub proof fn lemma_digits_plain(n: nat)
    ensures
        no_crlf(nat_digits(n)),
        nat_digits(n) != minus_one(),
        is_unsigned_text(nat_digits(n)),
        unsigned_value(nat_digits(n)) == n,
{
    lemma_nat_digits(n);
    let d = nat_digits(n);
    assert forall|j: int| !crlf_at(d, j) by {
        if 0 <= j < d.len() {
            assert(is_digit(d[j]));
        }
    }
    assert(is_digit(d[0]));
    assert(minus_one()[0] == 45);
    assert(d.skip(0) =~= d);
}

/// The text of an integer holds no terminator.
pub proof fn lemma_int_text_plain(n: int)
    ensures
        no_crlf(int_text(n)),
{
    let t = int_text(n);
    if n < 0 {
        let d = nat_digits((-n) as nat);
        lemma_nat_digits((-n) as nat);
        assert forall|j: int| !crlf_at(t, j) by {
            if 1 <= j < t.len() {
                assert(t[j] == d[j - 1]);
                assert(is_digit(d[j - 1]));
            }
        }
    } else {
        lemma_digits_plain(n as nat);
    }
}

/// A bulk is read back whole, whatever follows: its payload and all its bytes.
pub proof fn lemma_bulk_body(tag: u8, payload: Seq<u8>, rest: Seq<u8>)
    requires
        payload.len() <= usize::MAX,
    ensures
        (bulk_wire(tag, payload) + rest).len() > 0,
        (bulk_wire(tag, payload) + rest)[0] == tag,
        line_of((bulk_wire(tag, payload) + rest).skip(1)) != minus_one(),
        bulk_payload((bulk_wire(tag, payload) + rest).skip(1)) == (
            bulk_wire(tag, payload).len() - 1,
            Some(payload),
        ),
{
    let digits = nat_digits(payload.len());
    let b = bulk_wire(tag, payload) + rest;
    let body = b.skip(1);
    let tail = payload + crlf() + rest;
    lemma_digits_plain(payload.len());
    assert(body =~= digits + crlf() + tail);
    lemma_first_line(digits, tail);
    let start = digits.len() as int + 2;
    let end = start + payload.len() as int;
    assert(usize_of_text(digits) == Some(payload.len() as usize));
    assert(body.subrange(start, end) =~= payload);
    assert(body[end] == 13 && body[end + 1] == 10);
    assert(crlf_at(body, end));
}

/// Every encoding has at least its tag and a terminator.
pub proof fn lemma_wire_len(f: Frame)
    ensures
        wire(f).len() >= 3,
{
}

proof fn lemma_parse_text_line(f: Frame, rest: Seq<u8>)
    requires
        f is SimpleString || f is SimpleError,
        f.line_safe(),
    ensures
        parse_spec(wire(f) + rest) == (wire(f).len() as int, f),
{
    let b = wire(f) + rest;
    match f {
        Frame::SimpleString(t) => {
            let bytes = encode_utf8(t);
            lemma_line_body(43, bytes, rest);
            lemma_first_line(bytes, rest);
            vstd::utf8::encode_utf8_valid_utf8(t);
            vstd::utf8::encode_utf8_decode_utf8(t);
            assert(parse_spec(b) == behind_tag(simple_string_spec(b.skip(1))));
        },
        Frame::SimpleError(t) => {
            let bytes = encode_utf8(t);
            lemma_line_body(45, bytes, rest);
            lemma_first_line(bytes, rest);
            vstd::utf8::encode_utf8_valid_utf8(t);
            vstd::utf8::encode_utf8_decode_utf8(t);
            assert(parse_spec(b) == behind_tag(simple_error_spec(b.skip(1))));
        },
        _ => {},
    }
}

proof fn lemma_parse_number_line(f: Frame, rest: Seq<u8>)
    requires
        f is Integer || f is BigNumber,
    ensures
        parse_spec(wire(f) + rest) == (wire(f).len() as int, f),
{
    let b = wire(f) + rest;
    match f {
        Frame::Integer(i) => {
            let bytes = int_text(i as int);
            lemma_line_body(58, bytes, rest);
            lemma_int_text_plain(i as int);
            lemma_first_line(bytes, rest);
            lemma_int_text_round_trip(i as int);
            assert(parse_spec(b) == behind_tag(integer_spec(b.skip(1))));
        },
        Frame::BigNumber(n) => {
            let bytes = int_text(n);
            lemma_line_body(40, bytes, rest);
            lemma_int_text_plain(n);
            lemma_first_line(bytes, rest);
            lemma_int_text_round_trip(n);
            assert(parse_spec(b) == behind_tag(big_number_spec(b.skip(1))));
        },
        _ => {},
    }
}

proof fn lemma_parse_bulk(f: Frame, rest: Seq<u8>)
    requires
        f is BulkString || f is BulkError,
        f.wf(),
    ensures
        parse_spec(wire(f) + rest) == (wire(f).len() as int, f),
{
    let b = wire(f) + rest;
    match f {
        Frame::BulkString(t) => {
            let bytes = encode_utf8(t);
            lemma_bulk_body(36, bytes, rest);
            vstd::utf8::encode_utf8_valid_utf8(t);
            vstd::utf8::encode_utf8_decode_utf8(t);
            assert(parse_spec(b) == behind_tag(bulk_string_spec(b.skip(1))));
        },
        Frame::BulkError(t) => {
            let bytes = encode_utf8(t);
            lemma_bulk_body(33, bytes, rest);
            vstd::utf8::encode_utf8_valid_utf8(t);
            vstd::utf8::encode_utf8_decode_utf8(t);
            assert(parse_spec(b) == behind_tag(bulk_error_spec(b.skip(1))));
        },
        _ => {},
    }
}

proof fn lemma_parse_short_line(f: Frame, rest: Seq<u8>)
    requires
        f is Null || f is Boolean,
    ensures
        parse_spec(wire(f) + rest) == (wire(f).len() as int, f),
{
    let b = wire(f) + rest;
    match f {
        Frame::Null => {
            lemma_line_body(95, Seq::empty(), rest);
            lemma_first_line(Seq::empty(), rest);
            assert(parse_spec(b) == behind_tag(null_spec(b.skip(1))));
        },
        Frame::Boolean(v) => {
            let bytes = seq![if v {
                116u8
            } else {
                102u8
            }];
            lemma_line_body(35, bytes, rest);
            lemma_first_line(bytes, rest);
            assert(parse_spec(b) == behind_tag(boolean_spec(b.skip(1))));
        },
        _ => {},
    }
}

proof fn lemma_parse_double(f: Frame, rest: Seq<u8>)
    requires
        f is Double,
        f.wf(),
    ensures
        parse_spec(wire(f) + rest) == (wire(f).len() as int, f),
{
    let b = wire(f) + rest;
    let t = f->Double_0;
    let bytes = encode_utf8(t);
    lemma_line_body(44, bytes, rest);
    lemma_double_text_bytes(bytes);
    assert forall|j: int| !crlf_at(bytes, j) by {
        if 0 <= j < bytes.len() {
            assert(is_double_byte(bytes[j]));
        }
    }
    lemma_first_line(bytes, rest);
    vstd::utf8::encode_utf8_decode_utf8(t);
    assert(parse_spec(b) == behind_tag(double_spec(b.skip(1))));
}

/// Decoding the encoding of a value gives the value back and takes exactly
/// its bytes, whatever follows them in the buffer.
pub proof fn lemma_parse_wire_then(f: Frame, rest: Seq<u8>)
    requires
        f.wf(),
        f.line_safe(),
    ensures
        parse_spec(wire(f) + rest) == (wire(f).len() as int, f),
    decreases f,
{
    let b = wire(f) + rest;
    match f {
        Frame::SimpleString(_) | Frame::SimpleError(_) => {
            lemma_parse_text_line(f, rest);
        },
        Frame::Integer(_) | Frame::BigNumber(_) => {
            lemma_parse_number_line(f, rest);
        },
        Frame::BulkString(_) | Frame::BulkError(_) => {
            lemma_parse_bulk(f, rest);
        },
        Frame::Null | Frame::Boolean(_) => {
            lemma_parse_short_line(f, rest);
        },
        Frame::Double(_) => {
            lemma_parse_double(f, rest);
        },
        Frame::Array(items) => {
            let digits = nat_digits(items.len());
            let tail = wire_all(items) + (crlf() + rest);
            let body = b.skip(1);
            lemma_digits_plain(items.len());
            assert(body =~= digits + crlf() + tail);
            lemma_first_line(digits, tail);
            let start = digits.len() as int + 2;
            assert(usize_of_text(digits) == Some(items.len() as usize));
            assert(body.subrange(start, body.len() as int) =~= tail);
            lemma_elements_wire_then(items, crlf() + rest);
            let end = start + wire_all(items).len() as int;
            assert(body[end] == 13 && body[end + 1] == 10);
            assert(crlf_at(body, end));
            assert(b[0] == 42);
            assert(parse_spec(b) == behind_tag(array_spec(body)));
            assert(wire(f).len() == 1 + digits.len() + 2 + wire_all(items).len() + 2);
        },
    }
}

/// Decoding as many values as were encoded one behind the other gives them
/// back and takes exactly their bytes, whatever follows.
pub proof fn lemma_elements_wire_then(items: Seq<Frame>, rest: Seq<u8>)
    requires
        forall|i: int| 0 <= i < items.len() ==> (#[trigger] items[i]).wf(),
        forall|i: int| 0 <= i < items.len() ==> (#[trigger] items[i]).line_safe(),
    ensures
        elements_spec(wire_all(items) + rest, items.len()) == (
            wire_all(items).len() as int,
            items,
        ),
    decreases items,
{
    let b = wire_all(items) + rest;
    if items.len() == 0 {
        assert(elements_spec(b, 0).1 =~= items);
    } else {
        let first = items.first();
        let others = items.drop_first();
        let tail = wire_all(others) + rest;
        assert(first.wf() && first.line_safe());
        assert forall|i: int| 0 <= i < others.len() implies (#[trigger] others[i]).wf()
            && others[i].line_safe() by {
            assert(others[i] == items[i + 1]);
        }
        assert(b =~= wire(first) + tail);
        lemma_parse_wire_then(first, tail);
        lemma_wire_len(first);
        let used = wire(first).len() as int;
        assert(b.subrange(used, b.len() as int) =~= tail);
        lemma_elements_wire_then(others, rest);
        assert(seq![first] + others =~= items);
    }
}

/// Decoding the encoding of a value gives the value back, and takes all the
/// bytes of the encoding.
///
/// This holds of every value that can be held ([`Frame::wf`]) but those with
/// a terminator inside a simple string or a simple error
/// ([`Frame::line_safe`]).
pub proof fn lemma_round_trip(f: Frame)
    requires
        f.wf(),
        f.line_safe(),
    ensures
        parse_spec(wire(f)) == (wire(f).len() as int, f),
{
    lemma_parse_wire_then(f, Seq::empty());
    assert(wire(f) + Seq::<u8>::empty() =~= wire(f));
}

/// The null has one encoding and three spellings that decode to it: `_`,
/// the bulk of length `-1` and the array of count `-1`.
pub proof fn lemma_null_spellings()
    ensures
        wire(Frame::Null) == seq![95u8, 13u8, 10u8],
        parse_spec(seq![95u8, 13u8, 10u8]) == (3int, Frame::Null),
        parse_spec(seq![36u8, 45u8, 49u8, 13u8, 10u8]) == (5int, Frame::Null),
        parse_spec(seq![42u8, 45u8, 49u8, 13u8, 10u8]) == (5int, Frame::Null),
{
    assert(wire(Frame::Null) =~= seq![95u8, 13u8, 10u8]);
    lemma_round_trip(Frame::Null);
    let bulk = seq![36u8, 45u8, 49u8, 13u8, 10u8];
    let array = seq![42u8, 45u8, 49u8, 13u8, 10u8];
    let rest = Seq::<u8>::empty();
    assert(no_crlf(minus_one()));
    lemma_first_line(minus_one(), rest);
    assert(bulk.skip(1) =~= minus_one() + crlf() + rest);
    assert(array.skip(1) =~= minus_one() + crlf() + rest);
    assert(!is_unsigned_text(minus_one())) by {
        let d = minus_one().skip(0);
        assert(d =~= minus_one());
        assert(!is_digit(d[0]));
    }
    assert(parse_spec(bulk) == behind_tag(bulk_string_spec(bulk.skip(1))));
    assert(parse_spec(array) == behind_tag(array_spec(array.skip(1))));
}

/// The simple errors that stand for what cannot be read are well-formed.
pub proof fn lemma_invalid_wf()
    ensures
        invalid().wf(),
        invalid_buffer().wf(),
        invalid_integer().wf(),
{
    reveal_strlit("INVALID");
    reveal_strlit("INVALID BUFFER");
    reveal_strlit("INVALID_INTEGER");
    vstd::utf8::is_ascii_chars_encode_utf8("INVALID"@);
    vstd::utf8::is_ascii_chars_encode_utf8("INVALID BUFFER"@);
    vstd::utf8::is_ascii_chars_encode_utf8("INVALID_INTEGER"@);
}

/// A text that was read from a line or a payload is as long as its bytes.
proof fn lemma_text_len(bytes: Seq<u8>)
    requires
        valid_utf8(bytes),
    ensures
        encode_utf8(decode_utf8(bytes)) == bytes,
{
    vstd::utf8::decode_utf8_encode_utf8(bytes);
}

/// What is read behind the tag of a line or of a bulk is well-formed.
proof fn lemma_flat_wf(body: Seq<u8>)
    requires
        body.len() <= usize::MAX,
    ensures
        simple_string_spec(body).1.wf(),
        simple_error_spec(body).1.wf(),
        integer_spec(body).1.wf(),
        null_spec(body).1.wf(),
        boolean_spec(body).1.wf(),
        double_spec(body).1.wf(),
        big_number_spec(body).1.wf(),
        bulk_string_spec(body).1.wf(),
        bulk_error_spec(body).1.wf(),
{
    lemma_invalid_wf();
    lemma_line_span(body);
    let line = line_of(body);
    if valid_utf8(line) {
        lemma_text_len(line);
    }
    if is_double_text(line) {
        lemma_double_text_bytes(line);
        assert(crate::text::all_ascii(line)) by {
            assert forall|i: int| 0 <= i < line.len() implies #[trigger] line[i] < 128 by {
                assert(is_double_byte(line[i]));
            }
        }
        crate::text::lemma_ascii_is_utf8(line);
        lemma_text_len(line);
    }
    match bulk_payload(body).1 {
        Some(payload) => {
            if valid_utf8(payload) {
                lemma_text_len(payload);
            }
        },
        None => {},
    }
}

/// Every value that is read is well-formed: its doubles have the text of a
/// double, and its lengths and counts fit.
pub proof fn lemma_parse_wf(b: Seq<u8>)
    requires
        b.len() <= usize::MAX,
    ensures
        parse_spec(b).1.wf(),
    decreases b.len(), 0int,
{
    lemma_invalid_wf();
    if b.len() > 0 {
        let body = b.skip(1);
        lemma_flat_wf(body);
        if b[0] == 42 {
            lemma_line_span(body);
            let start = line_span(body);
            if line_of(body) != minus_one() && usize_of_text(line_of(body)) is Some {
                let count = usize_of_text(line_of(body))->Some_0 as nat;
                lemma_elements_wf(body.subrange(start, body.len() as int), count);
                lemma_elements_bounds(body.subrange(start, body.len() as int), count);
            }
        }
    }
}

/// Every item that is read for an array is well-formed.
pub proof fn lemma_elements_wf(b: Seq<u8>, count: nat)
    requires
        b.len() <= usize::MAX,
    ensures
        forall|i: int|
            0 <= i < elements_spec(b, count).1.len() ==> (#[trigger] elements_spec(
                b,
                count,
            ).1[i]).wf(),
    decreases b.len(), 1int,
{
    if count > 0 && b.len() > 0 {
        lemma_parse_wf(b);
        let (used, item) = parse_spec(b);
        let step = if used > 0 {
            used
        } else {
            line_span(b)
        };
        if 0 < step <= b.len() {
            let rest = b.subrange(step, b.len() as int);
            lemma_elements_wf(rest, (count - 1) as nat);
            let tail = elements_spec(rest, (count - 1) as nat).1;
            let all = seq![item] + tail;
            assert forall|i: int| 0 <= i < all.len() implies (#[trigger] all[i]).wf() by {
                if i > 0 {
                    assert(all[i] == tail[i - 1]);
                }
            }
        }
    }
}

/// The simple errors that stand for what cannot be read hold no terminator.
proof fn lemma_invalid_line_safe()
    ensures
        invalid().line_safe(),
        invalid_buffer().line_safe(),
        invalid_integer().line_safe(),
{
    reveal_strlit("INVALID");
    reveal_strlit("INVALID BUFFER");
    reveal_strlit("INVALID_INTEGER");
    vstd::utf8::is_ascii_chars_encode_utf8("INVALID"@);
    vstd::utf8::is_ascii_chars_encode_utf8("INVALID BUFFER"@);
    vstd::utf8::is_ascii_chars_encode_utf8("INVALID_INTEGER"@);
    assert(no_crlf(encode_utf8("INVALID"@)));
    assert(no_crlf(encode_utf8("INVALID BUFFER"@)));
    assert(no_crlf(encode_utf8("INVALID_INTEGER"@)));
}

/// What is read behind the tag of a line or of a bulk survives a line.
proof fn lemma_flat_line_safe(body: Seq<u8>)
    ensures
        simple_string_spec(body).1.line_safe(),
        simple_error_spec(body).1.line_safe(),
        integer_spec(body).1.line_safe(),
        null_spec(body).1.line_safe(),
        boolean_spec(body).1.line_safe(),
        double_spec(body).1.line_safe(),
        big_number_spec(body).1.line_safe(),
        bulk_string_spec(body).1.line_safe(),
        bulk_error_spec(body).1.line_safe(),
{
    lemma_invalid_line_safe();
    lemma_line_span(body);
    let line = line_of(body);
    if valid_utf8(line) {
        lemma_text_len(line);
        assert forall|j: int| !crlf_at(line, j) by {
            if crlf_at(line, j) {
                assert(crlf_at(body, j));
            }
        }
    }
}

/// Every value that is read survives a line: no simple string and no simple
/// error in it holds a terminator.
pub proof fn lemma_parse_line_safe(b: Seq<u8>)
    ensures
        parse_spec(b).1.line_safe(),
    decreases b.len(), 0int,
{
    lemma_invalid_line_safe();
    if b.len() > 0 {
        let body = b.skip(1);
        lemma_flat_line_safe(body);
        if b[0] == 42 {
            lemma_line_span(body);
            let start = line_span(body);
            if line_of(body) != minus_one() && usize_of_text(line_of(body)) is Some {
                let count = usize_of_text(line_of(body))->Some_0 as nat;
                let items = elements_spec(body.subrange(start, body.len() as int), count).1;
                lemma_elements_line_safe(body.subrange(start, body.len() as int), count);
                assert(array_spec(body).1 == Frame::Array(items));
                assert(Frame::Array(items).line_safe());
            }
        }
    }
}

/// Every item that is read for an array survives a line.
pub proof fn lemma_elements_line_safe(b: Seq<u8>, count: nat)
    ensures
        forall|i: int|
            0 <= i < elements_spec(b, count).1.len() ==> (#[trigger] elements_spec(
                b,
                count,
            ).1[i]).line_safe(),
    decreases b.len(), 1int,
{
    if count > 0 && b.len() > 0 {
        lemma_parse_line_safe(b);
        let (used, item) = parse_spec(b);
        let step = if used > 0 {
            used
        } else {
            line_span(b)
        };
        if 0 < step <= b.len() {
            let rest = b.subrange(step, b.len() as int);
            lemma_elements_line_safe(rest, (count - 1) as nat);
            let tail = elements_spec(rest, (count - 1) as nat).1;
            let all = seq![item] + tail;
            assert forall|i: int| 0 <= i < all.len() implies (#[trigger] all[i]).line_safe() by {
                if i > 0 {
                    assert(all[i] == tail[i - 1]);
                }
            }
        }
    }
}

/// Decoding settles a value: whatever the bytes, the value that is read from
/// them is read again from its own encoding.
pub proof fn lemma_parse_settles(b: Seq<u8>)
    requires
        b.len() <= usize::MAX,
    ensures
        parse_spec(wire(parse_spec(b).1)).1 == parse_spec(b).1,
{
    lemma_parse_wf(b);
    lemma_parse_line_safe(b);
    lemma_round_trip(parse_spec(b).1);
}

} // verus!
