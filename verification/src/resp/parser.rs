//! The decoder.
//!
//! [`parse`] reads one value from the front of a buffer and says how many
//! bytes it took: the tag, the payload and each terminator that it found. It
//! never fails. An empty buffer or an unknown tag gives a simple error and
//! takes no bytes; a payload that cannot be read gives a simple error in place
//! of the value. A buffer that ends early is read as far as it goes. Inside
//! an array an item with an unknown tag becomes the simple error and takes
//! its line, and the items behind it are read as usual.

use crate::bignum::BigNum;
use crate::decimal::{
    i64_of_text, is_signed_text, parse_i64, parse_usize, signed_value, usize_of_text,
};
use crate::resp::double::{is_double, is_double_text, lemma_double_text_bytes};
use crate::resp::laws::lemma_parse_wf;
use crate::resp::value::{
    lemma_array_model, models, Frame, Value, CR, LF, TAG_ARRAY, TAG_BIG_NUMBER, TAG_BOOLEAN, TAG_BULK_ERROR,
    TAG_BULK_STRING, TAG_DOUBLE, TAG_INTEGER, TAG_NULL, TAG_SIMPLE_ERROR, TAG_SIMPLE_STRING,
};
use crate::text::{lemma_ascii_is_utf8, text_of};
use vstd::prelude::*;
use vstd::slice::slice_subrange;
use vstd::utf8::{decode_utf8, valid_utf8};

verus! {

/// Whether a terminator stands in `s` at index `i`.
pub open spec fn crlf_at(s: Seq<u8>, i: int) -> bool {
    0 <= i && i + 1 < s.len() && s[i] == 13 && s[i + 1] == 10
}

/// The index of the first terminator of `s` at or behind `from`.
pub open spec fn crlf_from(s: Seq<u8>, from: int) -> Option<int>
    decreases s.len() - from,
{
    if from < 0 || from + 1 >= s.len() {
        None
    } else if s[from] == 13 && s[from + 1] == 10 {
        Some(from)
    } else {
        crlf_from(s, from + 1)
    }
}

/// The index of the first terminator of `s`.
pub open spec fn first_crlf(s: Seq<u8>) -> Option<int> {
    crlf_from(s, 0)
}

/// The first line of `s`: the bytes before its first terminator, or all of
/// `s` where it has none.
pub open spec fn line_of(s: Seq<u8>) -> Seq<u8> {
    match first_crlf(s) {
        Some(i) => s.take(i),
        None => s,
    }
}

/// The number of bytes that the first line of `s` takes with its terminator;
/// all of `s` where it has none.
pub open spec fn line_span(s: Seq<u8>) -> int {
    match first_crlf(s) {
        Some(i) => i + 2,
        None => s.len() as int,
    }
}

/// The simple error for an empty buffer.
pub open spec fn invalid_buffer() -> Frame {
    Frame::SimpleError("INVALID BUFFER"@)
}

/// The simple error for an unknown tag and for a payload that cannot be read.
pub open spec fn invalid() -> Frame {
    Frame::SimpleError("INVALID"@)
}

/// The simple error for an integer that cannot be read.
pub open spec fn invalid_integer() -> Frame {
    Frame::SimpleError("INVALID_INTEGER"@)
}

/// The length `-1`, which stands for the null in a bulk and in an array.
pub open spec fn minus_one() -> Seq<u8> {
    seq![45u8, 49u8]
}

/// A simple string behind its tag: the text of the first line.
pub open spec fn simple_string_spec(body: Seq<u8>) -> (int, Frame) {
    let line = line_of(body);
    (
        line_span(body),
        if valid_utf8(line) {
            Frame::SimpleString(decode_utf8(line))
        } else {
            invalid()
        },
    )
}

/// A simple error behind its tag: the text of the first line.
pub open spec fn simple_error_spec(body: Seq<u8>) -> (int, Frame) {
    let line = line_of(body);
    (
        line_span(body),
        if valid_utf8(line) {
            Frame::SimpleError(decode_utf8(line))
        } else {
            invalid()
        },
    )
}

/// An integer behind its tag: the first line as a signed decimal.
pub open spec fn integer_spec(body: Seq<u8>) -> (int, Frame) {
    (
        line_span(body),
        match i64_of_text(line_of(body)) {
            Some(i) => Frame::Integer(i),
            None => invalid_integer(),
        },
    )
}

/// The null behind its tag: whatever the first line holds.
pub open spec fn null_spec(body: Seq<u8>) -> (int, Frame) {
    (line_span(body), Frame::Null)
}

/// A boolean behind its tag: true if the first line starts with `t`, else false.
pub open spec fn boolean_spec(body: Seq<u8>) -> (int, Frame) {
    let line = line_of(body);
    (line_span(body), Frame::Boolean(line.len() > 0 && line[0] == 116))
}

/// A double behind its tag: the first line, if it is the text of a double.
pub open spec fn double_spec(body: Seq<u8>) -> (int, Frame) {
    let line = line_of(body);
    (
        line_span(body),
        if is_double_text(line) {
            Frame::Double(decode_utf8(line))
        } else {
            invalid()
        },
    )
}

/// A big number behind its tag: the first line as a signed decimal of any size.
pub open spec fn big_number_spec(body: Seq<u8>) -> (int, Frame) {
    let line = line_of(body);
    (
        line_span(body),
        if is_signed_text(line) {
            Frame::BigNumber(signed_value(line))
        } else {
            invalid()
        },
    )
}

/// The payload of a bulk behind its tag, and the bytes that the bulk takes.
///
/// The first line is the length. `-1` gives no payload: the bulk is the null.
/// A length `n` gives the `n` bytes behind the line, or those that are left
/// where the buffer ends early, and takes the terminator behind them if it
/// is there. Any other first line gives no payload, and only the line is
/// taken.
pub open spec fn bulk_payload(body: Seq<u8>) -> (int, Option<Seq<u8>>) {
    let start = line_span(body);
    match usize_of_text(line_of(body)) {
        Some(n) => {
            let end = if start + n <= body.len() {
                start + n
            } else {
                body.len() as int
            };
            (
                if crlf_at(body, end) {
                    end + 2
                } else {
                    end
                },
                Some(body.subrange(start, end)),
            )
        },
        None => (start, None),
    }
}

/// A bulk string behind its tag.
pub open spec fn bulk_string_spec(body: Seq<u8>) -> (int, Frame) {
    (
        bulk_payload(body).0,
        if line_of(body) == minus_one() {
            Frame::Null
        } else {
            match bulk_payload(body).1 {
                Some(payload) => if valid_utf8(payload) {
                    Frame::BulkString(decode_utf8(payload))
                } else {
                    invalid()
                },
                None => invalid(),
            }
        },
    )
}

/// A bulk error behind its tag.
pub open spec fn bulk_error_spec(body: Seq<u8>) -> (int, Frame) {
    (
        bulk_payload(body).0,
        if line_of(body) == minus_one() {
            Frame::Null
        } else {
            match bulk_payload(body).1 {
                Some(payload) => if valid_utf8(payload) {
                    Frame::BulkError(decode_utf8(payload))
                } else {
                    invalid()
                },
                None => invalid(),
            }
        },
    )
}

/// What was read behind a tag, with the tag's byte counted in.
pub open spec fn behind_tag(read: (int, Frame)) -> (int, Frame) {
    (read.0 + 1, read.1)
}

/// What [`parse`] returns: the number of bytes taken from the front of `b`,
/// and the value.
pub open spec fn parse_spec(b: Seq<u8>) -> (int, Frame)
    decreases b.len(), 0int,
{
    if b.len() == 0 {
        (0, invalid_buffer())
    } else {
        let body = b.skip(1);
        let tag = b[0];
        if tag == 43 {
            behind_tag(simple_string_spec(body))
        } else if tag == 45 {
            behind_tag(simple_error_spec(body))
        } else if tag == 58 {
            behind_tag(integer_spec(body))
        } else if tag == 36 {
            behind_tag(bulk_string_spec(body))
        } else if tag == 42 {
            behind_tag(array_spec(body))
        } else if tag == 95 {
            behind_tag(null_spec(body))
        } else if tag == 35 {
            behind_tag(boolean_spec(body))
        } else if tag == 44 {
            behind_tag(double_spec(body))
        } else if tag == 40 {
            behind_tag(big_number_spec(body))
        } else if tag == 33 {
            behind_tag(bulk_error_spec(body))
        } else {
            (0, invalid())
        }
    }
}

/// An array behind its tag.
///
/// The first line is the count. `-1` gives the null, any other line that is
/// no count a simple error. The items follow the line, see
/// [`elements_spec`]; the terminator behind the last of them is taken if it
/// is there.
pub open spec fn array_spec(body: Seq<u8>) -> (int, Frame)
    decreases body.len(), 2int,
    via array_spec_decreases
{
    let start = line_span(body);
    if line_of(body) == minus_one() {
        (start, Frame::Null)
    } else {
        match usize_of_text(line_of(body)) {
            Some(count) => {
                let (used, items) = elements_spec(
                    body.subrange(start, body.len() as int),
                    count as nat,
                );
                let end = start + used;
                (
                    if crlf_at(body, end) {
                        end + 2
                    } else {
                        end
                    },
                    Frame::Array(items),
                )
            },
            None => (start, invalid()),
        }
    }
}

/// Up to `count` values read one behind the other from the front of `b`, and
/// the bytes that they take together. Reading ends with the buffer. An item
/// without a tag is the simple error that [`parse_spec`] gives for it, and
/// takes its line, so that reading goes on behind the next terminator.
pub open spec fn elements_spec(b: Seq<u8>, count: nat) -> (int, Seq<Frame>)
    decreases b.len(), 1int,
{
    if count == 0 || b.len() == 0 {
        (0, Seq::empty())
    } else {
        let (used, item) = parse_spec(b);
        let step = if used > 0 {
            used
        } else {
            line_span(b)
        };
        if 0 < step <= b.len() {
            let (more, rest) = elements_spec(b.subrange(step, b.len() as int), (count - 1) as nat);
            (step + more, seq![item] + rest)
        } else {
            (0, seq![item])
        }
    }
}

/// An item of an array takes at least one byte and no more than there are.
pub proof fn lemma_item_step(b: Seq<u8>)
    requires
        b.len() > 0,
    ensures
        parse_spec(b).0 > 0 || 0 < line_span(b) <= b.len(),
        parse_spec(b).0 <= b.len(),
{
    lemma_parse_bounds(b);
    lemma_crlf_from(b, 0);
}

/// The first terminator behind `from` is a terminator, and none stands before it.
pub proof fn lemma_crlf_from(s: Seq<u8>, from: int)
    requires
        0 <= from,
    ensures
        match crlf_from(s, from) {
            Some(i) => from <= i && crlf_at(s, i) && forall|j: int|
                from <= j < i ==> !crlf_at(s, j),
            None => forall|j: int| from <= j ==> !crlf_at(s, j),
        },
    decreases s.len() - from,
{
    if from + 1 < s.len() && !(s[from] == 13 && s[from + 1] == 10) {
        lemma_crlf_from(s, from + 1);
    }
}

/// A line lies inside its buffer.
pub proof fn lemma_line_span(s: Seq<u8>)
    ensures
        0 <= line_span(s) <= s.len(),
        line_of(s).len() <= line_span(s),
        line_of(s) == s.take(line_of(s).len() as int),
        forall|j: int| 0 <= j < line_of(s).len() ==> !crlf_at(s, j),
{
    lemma_crlf_from(s, 0);
    if first_crlf(s) is None {
        assert(s.take(s.len() as int) == s);
    }
}

#[via_fn]
proof fn array_spec_decreases(body: Seq<u8>) {
    lemma_line_span(body);
}

fn invalid_value() -> (v: Value)
    ensures
        v@ == invalid(),
{
    Value::SimpleError("INVALID".to_owned())
}

/// The index of the first terminator in `buffer`: a terminator stands there
/// and none before it. There is no index where there is no terminator.
pub fn find_crlf(buffer: &[u8]) -> (res: Option<usize>)
    ensures
        match res {
            Some(i) => {
                &&& first_crlf(buffer@) == Some(i as int)
                &&& crlf_at(buffer@, i as int)
                &&& forall|j: int| 0 <= j < i ==> !crlf_at(buffer@, j)
            },
            None => first_crlf(buffer@) is None && forall|j: int| !crlf_at(buffer@, j),
        },
{
    proof {
        lemma_crlf_from(buffer@, 0);
    }
    let n = buffer.len();
    if n < 2 {
        return None;
    }
    let mut i: usize = 0;
    while i < n - 1
        invariant
            2 <= n == buffer@.len(),
            i <= n - 1,
            first_crlf(buffer@) == crlf_from(buffer@, i as int),
        decreases n - i,
    {
        if buffer[i] == CR && buffer[i + 1] == LF {
            proof {
                lemma_crlf_from(buffer@, 0);
            }
            return Some(i);
        }
        i = i + 1;
    }
    None
}

/// The first line of `body` and the number of bytes that it takes with its
/// terminator.
fn split_line(body: &[u8]) -> (res: (&[u8], usize))
    ensures
        res.0@ == line_of(body@),
        res.1 == line_span(body@),
        res.0@.len() <= res.1 <= body@.len(),
{
    proof {
        lemma_line_span(body@);
    }
    let n = body.len();
    match find_crlf(body) {
        Some(i) => (slice_subrange(body, 0, i), i + 2),
        None => {
            assert(body@.subrange(0, n as int) == body@);
            (slice_subrange(body, 0, n), n)
        },
    }
}

fn parse_simple_string(body: &[u8]) -> (res: (usize, Value))
    ensures
        res.0 == simple_string_spec(body@).0,
        res.1@ == simple_string_spec(body@).1,
{
    let (line, span) = split_line(body);
    match text_of(line) {
        Some(text) => (span, Value::SimpleString(text)),
        None => (span, invalid_value()),
    }
}

fn parse_simple_error(body: &[u8]) -> (res: (usize, Value))
    ensures
        res.0 == simple_error_spec(body@).0,
        res.1@ == simple_error_spec(body@).1,
{
    let (line, span) = split_line(body);
    match text_of(line) {
        Some(text) => (span, Value::SimpleError(text)),
        None => (span, invalid_value()),
    }
}

fn parse_integer(body: &[u8]) -> (res: (usize, Value))
    ensures
        res.0 == integer_spec(body@).0,
        res.1@ == integer_spec(body@).1,
{
    let (line, span) = split_line(body);
    match parse_i64(line) {
        Some(i) => (span, Value::Integer(i)),
        None => (span, Value::SimpleError("INVALID_INTEGER".to_owned())),
    }
}

fn parse_null(body: &[u8]) -> (res: (usize, Value))
    ensures
        res.0 == null_spec(body@).0,
        res.1@ == null_spec(body@).1,
{
    let (_, span) = split_line(body);
    (span, Value::Null)
}

fn parse_boolean(body: &[u8]) -> (res: (usize, Value))
    ensures
        res.0 == boolean_spec(body@).0,
        res.1@ == boolean_spec(body@).1,
{
    let (line, span) = split_line(body);
    (span, Value::Boolean(line.len() > 0 && line[0] == 116))
}

fn parse_double(body: &[u8]) -> (res: (usize, Value))
    ensures
        res.0 == double_spec(body@).0,
        res.1@ == double_spec(body@).1,
{
    let (line, span) = split_line(body);
    if is_double(line) {
        proof {
            lemma_double_text_bytes(line@);
            lemma_ascii_is_utf8(line@);
        }
        match text_of(line) {
            Some(text) => (span, Value::Double(text)),
            None => (span, invalid_value()),
        }
    } else {
        (span, invalid_value())
    }
}

fn parse_big_number(body: &[u8]) -> (res: (usize, Value))
    ensures
        res.0 == big_number_spec(body@).0,
        res.1@ == big_number_spec(body@).1,
{
    let (line, span) = split_line(body);
    match BigNum::parse_decimal(line) {
        Some(n) => (span, Value::BigNumber(n)),
        None => (span, invalid_value()),
    }
}

fn is_minus_one(line: &[u8]) -> (res: bool)
    ensures
        res == (line@ == minus_one()),
{
    if line.len() == 2 && line[0] == 45 && line[1] == 49 {
        assert(line@ =~= minus_one());
        true
    } else {
        false
    }
}

/// Reads the length of a bulk and the payload behind it.
pub fn parse_element_length(body: &[u8]) -> (res: (usize, Option<&[u8]>))
    ensures
        res.0 == bulk_payload(body@).0,
        res.0 <= body@.len(),
        match res.1 {
            Some(payload) => bulk_payload(body@).1 == Some(payload@),
            None => bulk_payload(body@).1 is None,
        },
{
    let (line, start) = split_line(body);
    match parse_usize(line) {
        Some(n) => {
            let end = if n <= body.len() - start {
                start + n
            } else {
                body.len()
            };
            let stop = if body.len() - end >= 2 && body[end] == CR && body[end + 1] == LF {
                end + 2
            } else {
                end
            };
            (stop, Some(slice_subrange(body, start, end)))
        },
        None => (start, None),
    }
}

fn parse_bulk_string(body: &[u8]) -> (res: (usize, Value))
    ensures
        res.0 == bulk_string_spec(body@).0,
        res.1@ == bulk_string_spec(body@).1,
{
    let (line, _) = split_line(body);
    let (used, payload) = parse_element_length(body);
    if is_minus_one(line) {
        return (used, Value::Null);
    }
    match payload {
        Some(bytes) => match text_of(bytes) {
            Some(text) => (used, Value::BulkString(text)),
            None => (used, invalid_value()),
        },
        None => (used, invalid_value()),
    }
}

fn parse_bulk_error(body: &[u8]) -> (res: (usize, Value))
    ensures
        res.0 == bulk_error_spec(body@).0,
        res.1@ == bulk_error_spec(body@).1,
{
    let (line, _) = split_line(body);
    let (used, payload) = parse_element_length(body);
    if is_minus_one(line) {
        return (used, Value::Null);
    }
    match payload {
        Some(bytes) => match text_of(bytes) {
            Some(text) => (used, Value::BulkError(text)),
            None => (used, invalid_value()),
        },
        None => (used, invalid_value()),
    }
}

/// Reads one value from the front of `buffer`: the number of bytes taken, and
/// the value, which is well-formed.
///
/// The first byte is the tag and says what follows: `+` a simple string, `-`
/// a simple error, `:` an integer, `$` a bulk string, `*` an array, `_` the
/// null, `#` a boolean, `,` a double, `(` a big number, `!` a bulk error.
/// [`parse_spec`] says what is read for each.
pub fn parse(buffer: &[u8]) -> (res: (usize, Value))
    ensures
        res.0 == parse_spec(buffer@).0,
        res.1@ == parse_spec(buffer@).1,
        res.0 <= buffer@.len(),
        res.1.wf(),
    decreases buffer@.len(), 0int,
{
    let n = buffer.len();
    proof {
        lemma_parse_wf(buffer@);
    }
    if n == 0 {
        return (0, Value::SimpleError("INVALID BUFFER".to_owned()));
    }
    let body = slice_subrange(buffer, 1, n);
    let tag = buffer[0];
    proof {
        lemma_parse_bounds(buffer@);
    }
    let (used, value) = if tag == TAG_SIMPLE_STRING {
        parse_simple_string(body)
    } else if tag == TAG_SIMPLE_ERROR {
        parse_simple_error(body)
    } else if tag == TAG_INTEGER {
        parse_integer(body)
    } else if tag == TAG_BULK_STRING {
        parse_bulk_string(body)
    } else if tag == TAG_ARRAY {
        parse_array(body)
    } else if tag == TAG_NULL {
        parse_null(body)
    } else if tag == TAG_BOOLEAN {
        parse_boolean(body)
    } else if tag == TAG_DOUBLE {
        parse_double(body)
    } else if tag == TAG_BIG_NUMBER {
        parse_big_number(body)
    } else if tag == TAG_BULK_ERROR {
        parse_bulk_error(body)
    } else {
        return (0, invalid_value());
    };
    (used + 1, value)
}

fn parse_array(body: &[u8]) -> (res: (usize, Value))
    ensures
        res.0 == array_spec(body@).0,
        res.1@ == array_spec(body@).1,
    decreases body@.len(), 2int,
{
    let (line, start) = split_line(body);
    if is_minus_one(line) {
        return (start, Value::Null);
    }
    match parse_usize(line) {
        Some(count) => {
            let rest = slice_subrange(body, start, body.len());
            let (used, items) = parse_elements(rest, count);
            let end = start + used;
            let stop = if body.len() - end >= 2 && body[end] == CR && body[end + 1] == LF {
                end + 2
            } else {
                end
            };
            proof {
                lemma_array_model(items);
            }
            (stop, Value::Array(items))
        },
        None => (start, invalid_value()),
    }
}

fn parse_elements(b: &[u8], count: usize) -> (res: (usize, Vec<Value>))
    ensures
        res.0 == elements_spec(b@, count as nat).0,
        models(res.1@) == elements_spec(b@, count as nat).1,
        res.0 <= b@.len(),
    decreases b@.len(), 1int,
{
    let n = b.len();
    let mut items: Vec<Value> = Vec::new();
    let mut pos: usize = 0;
    let mut left: usize = count;
    proof {
        assert(b@.subrange(0, n as int) == b@);
        assert(models(items@) =~= Seq::<Frame>::empty());
    }
    while left > 0 && pos < n
        invariant
            0 <= pos <= n,
            n == b@.len(),
            elements_spec(b@, count as nat).0 == pos + elements_spec(
                b@.subrange(pos as int, n as int),
                left as nat,
            ).0,
            elements_spec(b@, count as nat).1 == models(items@) + elements_spec(
                b@.subrange(pos as int, n as int),
                left as nat,
            ).1,
        decreases n - pos,
    {
        let rest = slice_subrange(b, pos, n);
        let (used, item) = parse(rest);
        let step = if used > 0 {
            used
        } else {
            split_line(rest).1
        };
        let ghost before = items@;
        items.push(item);
        proof {
            lemma_item_step(rest@);
            let tail = elements_spec(
                rest@.subrange(step as int, rest@.len() as int),
                (left - 1) as nat,
            );
            assert(rest@.subrange(step as int, rest@.len() as int) == b@.subrange(
                pos + step,
                n as int,
            ));
            assert(models(items@) =~= models(before) + seq![item@]);
            assert(models(before) + (seq![item@] + tail.1) =~= models(items@) + tail.1);
        }
        pos = pos + step;
        left = left - 1;
    }
    proof {
        assert(models(items@) + Seq::<Frame>::empty() =~= models(items@));
    }
    (pos, items)
}

/// What is read lies inside the buffer.
pub proof fn lemma_parse_bounds(b: Seq<u8>)
    ensures
        0 <= parse_spec(b).0 <= b.len(),
    decreases b.len(), 0int,
{
    if b.len() > 0 {
        let body = b.skip(1);
        lemma_line_span(body);
        if b[0] == 42 {
            lemma_array_bounds(body);
        }
    }
}

/// What an array takes behind its tag lies inside the buffer.
pub proof fn lemma_array_bounds(body: Seq<u8>)
    ensures
        0 <= array_spec(body).0 <= body.len(),
    decreases body.len(), 2int,
{
    lemma_line_span(body);
    let start = line_span(body);
    if line_of(body) != minus_one() && usize_of_text(line_of(body)) is Some {
        lemma_elements_bounds(
            body.subrange(start, body.len() as int),
            usize_of_text(line_of(body))->Some_0 as nat,
        );
    }
}

/// What the items of an array take lies inside the buffer.
pub proof fn lemma_elements_bounds(b: Seq<u8>, count: nat)
    ensures
        0 <= elements_spec(b, count).0 <= b.len(),
        elements_spec(b, count).1.len() <= count,
    decreases b.len(), 1int, count,
{
    if count > 0 && b.len() > 0 {
        lemma_parse_bounds(b);
        lemma_line_span(b);
        let used = parse_spec(b).0;
        let step = if used > 0 {
            used
        } else {
            line_span(b)
        };
        if 0 < step {
            lemma_elements_bounds(b.subrange(step, b.len() as int), (count - 1) as nat);
        }
    }
}

} // verus!
