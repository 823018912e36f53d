//! The values of the protocol and their encoding.

use crate::bignum::BigNum;
use crate::decimal::{int_text, nat_digits, push_digits, push_int};
use crate::resp::double::{is_double, is_double_text};
use crate::text::push_bytes;
use vstd::prelude::*;
use vstd::utf8::encode_utf8;

verus! {

/// Carriage return.
pub const CR: u8 = 13;

/// Line feed.
pub const LF: u8 = 10;

/// The tag of a simple string, `+`.
pub const TAG_SIMPLE_STRING: u8 = 43;

/// The tag of a simple error, `-`.
pub const TAG_SIMPLE_ERROR: u8 = 45;

/// The tag of an integer, `:`.
pub const TAG_INTEGER: u8 = 58;

/// The tag of a bulk string, `$`.
pub const TAG_BULK_STRING: u8 = 36;

/// The tag of an array, `*`.
pub const TAG_ARRAY: u8 = 42;

/// The tag of the null, `_`.
pub const TAG_NULL: u8 = 95;

/// The tag of a boolean, `#`.
pub const TAG_BOOLEAN: u8 = 35;

/// The tag of a double, `,`.
pub const TAG_DOUBLE: u8 = 44;

/// The tag of a big number, `(`.
pub const TAG_BIG_NUMBER: u8 = 40;

/// The tag of a bulk error, `!`.
pub const TAG_BULK_ERROR: u8 = 33;

/// The terminator of a line: carriage return, line feed.
pub open spec fn crlf() -> Seq<u8> {
    seq![13u8, 10u8]
}

/// One element of a request or a reply.
///
/// A double holds the text that stands for it on the wire (see
/// [`crate::resp::double`]); a value is well-formed when that text is the text
/// of a double, see [`Value::wf`].
#[derive(Debug, PartialEq, Eq)]
pub enum Value {
    SimpleString(String),
    SimpleError(String),
    Integer(i64),
    BulkString(String),
    Array(Vec<Value>),
    Null,
    Boolean(bool),
    Double(String),
    BigNumber(BigNum),
    BulkError(String),
}

/// The mathematical model of a [`Value`]: texts are sequences of characters, a
/// big number is an integer, an array is a sequence of models.
pub enum Frame {
    SimpleString(Seq<char>),
    SimpleError(Seq<char>),
    Integer(i64),
    BulkString(Seq<char>),
    Array(Seq<Frame>),
    Null,
    Boolean(bool),
    Double(Seq<char>),
    BigNumber(int),
    BulkError(Seq<char>),
}

/// A line: the tag, the body and the terminator.
pub open spec fn line_wire(tag: u8, body: Seq<u8>) -> Seq<u8> {
    seq![tag] + body + crlf()
}

/// A bulk: the tag, the length of the payload in decimal, the terminator, the
/// payload and the terminator again.
pub open spec fn bulk_wire(tag: u8, payload: Seq<u8>) -> Seq<u8> {
    seq![tag] + nat_digits(payload.len()) + crlf() + payload + crlf()
}

/// The one encoding of a value.
pub open spec fn wire(f: Frame) -> Seq<u8>
    decreases f,
{
    match f {
        Frame::SimpleString(t) => line_wire(43, encode_utf8(t)),
        Frame::SimpleError(t) => line_wire(45, encode_utf8(t)),
        Frame::Integer(i) => line_wire(58, int_text(i as int)),
        Frame::BulkString(t) => bulk_wire(36, encode_utf8(t)),
        Frame::Array(items) => seq![42u8] + nat_digits(items.len()) + crlf() + wire_all(items)
            + crlf(),
        Frame::Null => line_wire(95, Seq::empty()),
        Frame::Boolean(b) => line_wire(
            35,
            seq![if b {
                116u8
            } else {
                102u8
            }],
        ),
        Frame::Double(t) => line_wire(44, encode_utf8(t)),
        Frame::BigNumber(n) => line_wire(40, int_text(n)),
        Frame::BulkError(t) => bulk_wire(33, encode_utf8(t)),
    }
}

/// The encodings of the items, one after the other.
pub open spec fn wire_all(items: Seq<Frame>) -> Seq<u8>
    decreases items,
{
    if items.len() == 0 {
        Seq::empty()
    } else {
        wire(items.first()) + wire_all(items.drop_first())
    }
}

impl Frame {
    /// Whether the value can be held: every double has the text of a double,
    /// and every length and count fits in a `usize`.
    pub open spec fn wf(self) -> bool
        decreases self,
    {
        match self {
            Frame::SimpleString(t) => encode_utf8(t).len() <= usize::MAX,
            Frame::SimpleError(t) => encode_utf8(t).len() <= usize::MAX,
            Frame::BulkString(t) => encode_utf8(t).len() <= usize::MAX,
            Frame::BulkError(t) => encode_utf8(t).len() <= usize::MAX,
            Frame::Double(t) => is_double_text(encode_utf8(t)),
            Frame::Array(items) => items.len() <= usize::MAX && forall|i: int|
                0 <= i < items.len() ==> (#[trigger] items[i]).wf(),
            _ => true,
        }
    }
}

/// The model of a value.
pub open spec fn model(v: Value) -> Frame
    decreases v,
{
    match v {
        Value::SimpleString(t) => Frame::SimpleString(t@),
        Value::SimpleError(t) => Frame::SimpleError(t@),
        Value::Integer(i) => Frame::Integer(i),
        Value::BulkString(t) => Frame::BulkString(t@),
        Value::Array(items) => Frame::Array(
            Seq::new(
                items.len() as nat,
                |i: int|
                    if 0 <= i < items.len() {
                        model(items[i])
                    } else {
                        Frame::Null
                    },
            ),
        ),
        Value::Null => Frame::Null,
        Value::Boolean(b) => Frame::Boolean(b),
        Value::Double(t) => Frame::Double(t@),
        Value::BigNumber(n) => Frame::BigNumber(n@),
        Value::BulkError(t) => Frame::BulkError(t@),
    }
}

impl View for Value {
    type V = Frame;

    open spec fn view(&self) -> Frame {
        model(*self)
    }
}

/// The models of the values of a sequence.
pub open spec fn models(items: Seq<Value>) -> Seq<Frame> {
    Seq::new(items.len(), |i: int| items[i]@)
}

/// The model of an array is the array of its items' models.
pub proof fn lemma_array_model(items: Vec<Value>)
    ensures
        Value::Array(items)@ == Frame::Array(models(items@)),
{
    assert(Value::Array(items)@->Array_0 =~= models(items@));
}

/// The encoding of the first `k + 1` items is that of the first `k` and then
/// that of item `k`.
pub proof fn lemma_wire_all_push(items: Seq<Frame>, k: int)
    requires
        0 <= k < items.len(),
    ensures
        wire_all(items.take(k + 1)) == wire_all(items.take(k)) + wire(items[k]),
    decreases k,
{
    let more = items.take(k + 1);
    if k == 0 {
        assert(more.drop_first() =~= items.take(0));
        assert(wire_all(items.take(0)) =~= Seq::<u8>::empty());
        assert(wire_all(more) =~= wire(items[0]));
    } else {
        let rest = items.drop_first();
        lemma_wire_all_push(rest, k - 1);
        assert(more.drop_first() =~= rest.take(k));
        assert(items.take(k).drop_first() =~= rest.take(k - 1));
        assert(rest[k - 1] == items[k]);
        assert(wire_all(more) =~= wire_all(items.take(k)) + wire(items[k]));
    }
}

/// Appends a terminator to `out`.
pub fn push_crlf(out: &mut Vec<u8>)
    ensures
        final(out)@ == old(out)@ + crlf(),
{
    out.push(CR);
    out.push(LF);
    assert(out@ =~= old(out)@ + crlf());
}

/// A line with the given tag and body.
pub fn encode_line(tag: u8, body: &[u8]) -> (out: Vec<u8>)
    ensures
        out@ == line_wire(tag, body@),
{
    let mut out: Vec<u8> = Vec::new();
    out.push(tag);
    push_bytes(&mut out, body);
    push_crlf(&mut out);
    assert(out@ =~= line_wire(tag, body@));
    out
}

/// A bulk with the given tag and payload.
pub fn encode_bulk(tag: u8, payload: &[u8]) -> (out: Vec<u8>)
    ensures
        out@ == bulk_wire(tag, payload@),
{
    let mut out: Vec<u8> = Vec::new();
    out.push(tag);
    push_digits(payload.len() as u64, &mut out);
    push_crlf(&mut out);
    push_bytes(&mut out, payload);
    push_crlf(&mut out);
    assert(out@ =~= bulk_wire(tag, payload@));
    out
}

/// A text in memory is short enough to have its length written down.
fn fits(text: &String) -> (res: bool)
    ensures
        res,
        encode_utf8(text@).len() <= usize::MAX,
{
    text.as_str().as_bytes().len() <= usize::MAX
}

impl Value {
    /// Whether the value is well-formed: its model is, see [`Frame::wf`]. For
    /// a value in memory this says that every double in it has the text of a
    /// double.
    pub open spec fn wf(&self) -> bool {
        self@.wf()
    }

    /// Tells whether the value is well-formed.
    pub fn is_wf(&self) -> (res: bool)
        ensures
            res == self.wf(),
        decreases self,
    {
        match self {
            Value::SimpleString(t) | Value::SimpleError(t) | Value::BulkString(t)
            | Value::BulkError(t) => fits(t),
            Value::Double(t) => is_double(t.as_str().as_bytes()),
            Value::Array(items) => {
                let ghost frames = self@->Array_0;
                let n = items.len();
                assert(frames.len() == n);
                assert(forall|j: int| 0 <= j < n ==> #[trigger] frames[j] == items[j]@);
                let mut i: usize = 0;
                while i < n
                    invariant
                        0 <= i <= n,
                        n == items.len(),
                        frames.len() == n,
                        self@ == Frame::Array(frames),
                        forall|j: int| 0 <= j < n ==> #[trigger] frames[j] == items[j]@,
                        forall|j: int| 0 <= j < n ==> decreases_to!(self => #[trigger] items[j]),
                        forall|j: int| 0 <= j < i ==> (#[trigger] frames[j]).wf(),
                    decreases n - i,
                {
                    if !items[i].is_wf() {
                        assert(!frames[i as int].wf());
                        return false;
                    }
                    i = i + 1;
                }
                true
            },
            _ => true,
        }
    }

    /// The bytes that stand for the value on the wire. Every value has exactly
    /// one encoding; the null is always written `_`.
    pub fn to_resp(&self) -> (out: Vec<u8>)
        ensures
            out@ == wire(self@),
        decreases self,
    {
        match self {
            Value::SimpleString(t) => encode_line(TAG_SIMPLE_STRING, t.as_str().as_bytes()),
            Value::SimpleError(t) => encode_line(TAG_SIMPLE_ERROR, t.as_str().as_bytes()),
            Value::Integer(i) => {
                let mut out: Vec<u8> = Vec::new();
                out.push(TAG_INTEGER);
                push_int(*i, &mut out);
                push_crlf(&mut out);
                assert(out@ =~= line_wire(58, int_text(*i as int)));
                out
            },
            Value::BulkString(t) => encode_bulk(TAG_BULK_STRING, t.as_str().as_bytes()),
            Value::Array(items) => {
                let mut out: Vec<u8> = Vec::new();
                out.push(TAG_ARRAY);
                push_digits(items.len() as u64, &mut out);
                push_crlf(&mut out);
                let ghost head = out@;
                let ghost models = self@->Array_0;
                let n = items.len();
                assert(models.len() == n);
                assert(forall|j: int| 0 <= j < n ==> #[trigger] models[j] == items[j]@);
                assert(head =~= seq![42u8] + nat_digits(models.len()) + crlf());
                assert(models.take(0) =~= Seq::<Frame>::empty());
                let mut i: usize = 0;
                while i < n
                    invariant
                        0 <= i <= n,
                        n == items.len(),
                        models.len() == n,
                        forall|j: int| 0 <= j < n ==> #[trigger] models[j] == items[j]@,
                        forall|j: int| 0 <= j < n ==> decreases_to!(self => #[trigger] items[j]),
                        out@ == head + wire_all(models.take(i as int)),
                    decreases n - i,
                {
                    let item = items[i].to_resp();
                    push_bytes(&mut out, item.as_slice());
                    proof {
                        lemma_wire_all_push(models, i as int);
                    }
                    i = i + 1;
                    assert(out@ =~= head + wire_all(models.take(i as int)));
                }
                assert(models.take(n as int) =~= models);
                push_crlf(&mut out);
                assert(out@ =~= wire(self@));
                out
            },
            Value::Null => {
                let mut out: Vec<u8> = Vec::new();
                out.push(TAG_NULL);
                push_crlf(&mut out);
                assert(out@ =~= line_wire(95, Seq::empty()));
                out
            },
            Value::Boolean(b) => {
                let mut out: Vec<u8> = Vec::new();
                out.push(TAG_BOOLEAN);
                out.push(
                    if *b {
                        116
                    } else {
                        102
                    },
                );
                push_crlf(&mut out);
                assert(out@ =~= line_wire(
                    35,
                    seq![if *b {
                        116u8
                    } else {
                        102u8
                    }],
                ));
                out
            },
            Value::Double(t) => encode_line(TAG_DOUBLE, t.as_str().as_bytes()),
            Value::BigNumber(n) => {
                let digits = n.to_decimal();
                encode_line(TAG_BIG_NUMBER, digits.as_slice())
            },
            Value::BulkError(t) => encode_bulk(TAG_BULK_ERROR, t.as_str().as_bytes()),
        }
    }
}

} // verus!
