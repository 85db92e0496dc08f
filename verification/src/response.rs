//! Responses in RESP form, and a decoder that reads them back.
use std::num::ParseIntError;
use std::str::Utf8Error;
use vstd::prelude::*;
use vstd::slice::slice_subrange;
use vstd::slice::slice_to_vec;
use vstd::utf8::*;

use crate::text::{
    ascii_bytes, decimal, is_digit, lemma_ascii_chars_round_trip, lemma_ascii_utf8, lemma_decimal,
    lemma_encode_utf8_concat, lemma_parse_signed_decimal, lemma_signed_decimal_ascii, parse_i64, parse_i64_spec, push_decimal, push_signed_decimal,
    signed_decimal, str_from_utf8, string_bytes, string_from_utf8_lossy, utf8_lossy,
    utf8_to_string,
};
use crate::util::{
    append_bytes, crlf, crlf_at, first_crlf, lemma_first_crlf, lemma_first_crlf_extend, is_line_end, parse_line, Bytes, CR, CSTRING_BYTE, LF,
    MAX_COMPLEX_STRING_LENGTH,
};

verus! {

pub const SSTR_BYTE: u8 = 43u8;

pub const ERROR_BYTE: u8 = 45u8;

pub const INTEGER_BYTE: u8 = 58u8;

pub const ARRAY_BYTE: u8 = 42u8;

/// The length a bulk string announces to stand for no value.
pub const NULL_CSTR_LEN: i64 = -1i64;

/// A reply to a request.
#[derive(Debug, PartialEq)]
pub enum Response {
    Okay,
    Error(String),
    Cstr(Bytes),
    Null,
    Integer(i64),
    Array(Vec<Response>),
}

/// What a response says, as a mathematical value.
pub ghost enum RespView {
    Okay,
    Error(Seq<char>),
    Cstr(Seq<u8>),
    Null,
    Integer(int),
    Array(Seq<RespView>),
}

pub open spec fn view_of(r: Response) -> RespView
    decreases r,
{
    match r {
        Response::Okay => RespView::Okay,
        Response::Error(m) => RespView::Error(m@),
        Response::Cstr(b) => RespView::Cstr(b@),
        Response::Null => RespView::Null,
        Response::Integer(n) => RespView::Integer(n as int),
        Response::Array(items) => RespView::Array(views_of(items@)),
    }
}

pub open spec fn views_of(s: Seq<Response>) -> Seq<RespView>
    decreases s,
{
    if s.len() == 0 {
        Seq::empty()
    } else {
        views_of(s.drop_last()).push(view_of(s.last()))
    }
}

impl View for Response {
    type V = RespView;

    open spec fn view(&self) -> RespView {
        view_of(*self)
    }
}

/// `OK`, the one simple string a reply may carry.
pub open spec fn ok_body() -> Seq<u8> {
    seq![79u8, 75u8]
}

/// The wire form of a response.
pub open spec fn encode_resp(v: RespView) -> Seq<u8>
    decreases v,
{
    match v {
        RespView::Okay => seq![SSTR_BYTE] + ok_body() + crlf(),
        RespView::Error(m) => seq![ERROR_BYTE] + encode_utf8(m) + crlf(),
        RespView::Cstr(b) => seq![CSTRING_BYTE] + ascii_bytes(decimal(b.len())) + crlf() + b + crlf(),
        RespView::Null => seq![CSTRING_BYTE, 45u8, 49u8] + crlf(),
        RespView::Integer(n) => seq![INTEGER_BYTE] + ascii_bytes(signed_decimal(n)) + crlf(),
        RespView::Array(items) => seq![ARRAY_BYTE] + ascii_bytes(decimal(items.len())) + crlf()
            + encode_resps(items),
    }
}

pub open spec fn encode_resps(items: Seq<RespView>) -> Seq<u8>
    decreases items,
{
    if items.len() == 0 {
        Seq::empty()
    } else {
        encode_resps(items.drop_last()) + encode_resp(items.last())
    }
}

#[derive(Debug)]
pub enum ParseError {
    MissingCrlf,
    InvalidUtf8(Utf8Error),
    InvalidInt(ParseIntError),
    UnexpectedPrefix(u8),
    UnexpectedSstr(String),
    CStringTooLong(usize),
    InvalidCStringLength(i64),
    InvalidArrayLength(i64),
    Io(std::io::Error),
    Poisoned,
    UnexpectedEof,
}

/// The ways a response can be malformed, as the format defines them.
pub ghost enum ResponseFault {
    MissingCrlf,
    InvalidUtf8,
    InvalidInt,
    UnexpectedPrefix(u8),
    UnexpectedSstr(Seq<char>),
    CStringTooLong(usize),
    InvalidCStringLength(i64),
    InvalidArrayLength(i64),
}

/// What some bytes amount to when read as (part of) a response.
pub ghost enum RespOutcome<T> {
    Incomplete,
    Fault(ResponseFault),
    /// The value and the bytes it takes.
    Complete(T, int),
}

/// `e` is the error that reports `f`.
pub open spec fn reports_fault(e: ParseError, f: ResponseFault) -> bool {
    match f {
        ResponseFault::MissingCrlf => e is MissingCrlf,
        ResponseFault::InvalidUtf8 => e is InvalidUtf8,
        ResponseFault::InvalidInt => e is InvalidInt,
        ResponseFault::UnexpectedPrefix(b) => e == ParseError::UnexpectedPrefix(b),
        ResponseFault::UnexpectedSstr(s) => e matches ParseError::UnexpectedSstr(m) && m@ == s,
        ResponseFault::CStringTooLong(n) => e == ParseError::CStringTooLong(n),
        ResponseFault::InvalidCStringLength(n) => e == ParseError::InvalidCStringLength(n),
        ResponseFault::InvalidArrayLength(n) => e == ParseError::InvalidArrayLength(n),
    }
}

/// The number on a line after its first byte, as `str::parse::<i64>` reads it.
pub open spec fn line_number(line: Seq<u8>) -> RespOutcome<int> {
    if !valid_utf8(line) {
        RespOutcome::Fault(ResponseFault::InvalidUtf8)
    } else {
        match parse_i64_spec(decode_utf8(line)) {
            None => RespOutcome::Fault(ResponseFault::InvalidInt),
            Some(n) => RespOutcome::Complete(n, 0),
        }
    }
}

/// What a response at the start of `bytes` amounts to.
pub open spec fn resp_outcome(bytes: Seq<u8>) -> RespOutcome<RespView>
    decreases bytes.len(), 1nat, 0nat,
{
    if bytes.len() == 0 {
        RespOutcome::Incomplete
    } else if bytes[0] != SSTR_BYTE && bytes[0] != ERROR_BYTE && bytes[0] != CSTRING_BYTE
        && bytes[0] != INTEGER_BYTE && bytes[0] != ARRAY_BYTE {
        RespOutcome::Fault(ResponseFault::UnexpectedPrefix(bytes[0]))
    } else {
        match first_crlf(bytes) {
            None => RespOutcome::Incomplete,
            Some(i) => {
                let line = bytes.subrange(1, i);
                let end = i + 2;
                if bytes[0] == SSTR_BYTE {
                    if line == ok_body() {
                        RespOutcome::Complete(RespView::Okay, end)
                    } else {
                        RespOutcome::Fault(ResponseFault::UnexpectedSstr(utf8_lossy(line)))
                    }
                } else if bytes[0] == ERROR_BYTE {
                    if valid_utf8(line) {
                        RespOutcome::Complete(RespView::Error(decode_utf8(line)), end)
                    } else {
                        RespOutcome::Fault(ResponseFault::InvalidUtf8)
                    }
                } else {
                    match line_number(line) {
                        RespOutcome::Fault(f) => RespOutcome::Fault(f),
                        RespOutcome::Incomplete => RespOutcome::Incomplete,
                        RespOutcome::Complete(n, _) => {
                            if bytes[0] == INTEGER_BYTE {
                                RespOutcome::Complete(RespView::Integer(n), end)
                            } else if bytes[0] == CSTRING_BYTE {
                                if n == -1 {
                                    RespOutcome::Complete(RespView::Null, end)
                                } else if n < 0 {
                                    RespOutcome::Fault(ResponseFault::InvalidCStringLength(n as i64))
                                } else if n > MAX_COMPLEX_STRING_LENGTH {
                                    RespOutcome::Fault(ResponseFault::CStringTooLong(n as usize))
                                } else if end + n + 2 > bytes.len() {
                                    RespOutcome::Incomplete
                                } else if bytes.subrange(end + n, end + n + 2) != crlf() {
                                    RespOutcome::Fault(ResponseFault::MissingCrlf)
                                } else {
                                    RespOutcome::Complete(
                                        RespView::Cstr(bytes.subrange(end, end + n)),
                                        end + n + 2,
                                    )
                                }
                            } else {
                                if n < 0 {
                                    RespOutcome::Fault(ResponseFault::InvalidArrayLength(n as i64))
                                } else {
                                    match items_outcome(bytes, end, n as nat) {
                                        RespOutcome::Complete(items, pos) => RespOutcome::Complete(
                                            RespView::Array(items),
                                            pos,
                                        ),
                                        RespOutcome::Incomplete => RespOutcome::Incomplete,
                                        RespOutcome::Fault(f) => RespOutcome::Fault(f),
                                    }
                                }
                            }
                        },
                    }
                }
            },
        }
    }
}

/// The first `k` responses of `bytes` from position `start`.
pub open spec fn items_outcome(bytes: Seq<u8>, start: int, k: nat) -> RespOutcome<Seq<RespView>>
    decreases bytes.len(), 0nat, k,
{
    if k == 0 {
        RespOutcome::Complete(Seq::empty(), start)
    } else {
        match items_outcome(bytes, start, (k - 1) as nat) {
            RespOutcome::Complete(items, pos) => {
                if pos <= 0 || pos > bytes.len() {
                    RespOutcome::Incomplete
                } else {
                    match resp_outcome(bytes.subrange(pos, bytes.len() as int)) {
                        RespOutcome::Complete(v, m) => RespOutcome::Complete(items.push(v), pos + m),
                        RespOutcome::Incomplete => RespOutcome::Incomplete,
                        RespOutcome::Fault(f) => RespOutcome::Fault(f),
                    }
                }
            },
            RespOutcome::Incomplete => RespOutcome::Incomplete,
            RespOutcome::Fault(f) => RespOutcome::Fault(f),
        }
    }
}

pub proof fn lemma_views_of_push(s: Seq<Response>, r: Response)
    ensures
        views_of(s.push(r)) == views_of(s).push(view_of(r)),
{
    assert(s.push(r).drop_last() =~= s);
}

pub proof fn lemma_encode_resps_push(items: Seq<RespView>, v: RespView)
    ensures
        encode_resps(items.push(v)) == encode_resps(items) + encode_resp(v),
{
    assert(items.push(v).drop_last() =~= items);
}

pub proof fn lemma_views_of_len(s: Seq<Response>)
    ensures
        views_of(s).len() == s.len(),
    decreases s.len(),
{
    if s.len() > 0 {
        lemma_views_of_len(s.drop_last());
    }
}

impl Response {
    /// The byte that starts the response's wire form.
    pub fn prefix_byte(&self) -> (b: u8)
        ensures
            b == encode_resp(self@)[0],
    {
        match self {
            Response::Okay => SSTR_BYTE,
            Response::Error(_) => ERROR_BYTE,
            Response::Cstr(_) | Response::Null => CSTRING_BYTE,
            Response::Integer(_) => INTEGER_BYTE,
            Response::Array(_) => ARRAY_BYTE,
        }
    }

    /// The response in RESP form.
    pub fn to_bytes(&self) -> (buf: Vec<u8>)
        ensures
            buf@ == encode_resp(self@),
    {
        let mut buf: Vec<u8> = Vec::new();
        self.write_into(&mut buf);
        proof {
            assert(buf@ =~= encode_resp(self@));
        }
        buf
    }

    /// Appends the response's wire form to `buf`.
    fn write_into(&self, buf: &mut Vec<u8>)
        ensures
            final(buf)@ == old(buf)@ + encode_resp(self@),
        decreases self,
    {
        let ghost start = buf@;
        buf.push(self.prefix_byte());
        match self {
            Response::Okay => {
                buf.push(79u8);
                buf.push(75u8);
            },
            Response::Error(msg) => {
                append_bytes(buf, string_bytes(msg));
            },
            Response::Cstr(bytes) => {
                push_decimal(buf, bytes.len() as u64);
                buf.push(CR);
                buf.push(LF);
                append_bytes(buf, bytes.as_slice());
            },
            Response::Null => {
                buf.push(45u8);
                buf.push(49u8);
            },
            Response::Integer(n) => {
                push_signed_decimal(buf, *n);
            },
            Response::Array(responses) => {
                push_decimal(buf, responses.len() as u64);
                buf.push(CR);
                buf.push(LF);
                let ghost head = buf@;
                proof {
                    lemma_views_of_len(responses@);
                    assert(responses@.take(0) =~= Seq::<Response>::empty());
                    assert(views_of(Seq::<Response>::empty()) =~= Seq::<RespView>::empty());
                    assert(head + encode_resps(views_of(responses@.take(0))) =~= head);
                }
                let mut i: usize = 0;
                while i < responses.len()
                    invariant
                        *self == Response::Array(*responses),
                        i <= responses@.len(),
                        buf@ == head + encode_resps(views_of(responses@.take(i as int))),
                    decreases responses@.len() - i,
                {
                    let item = &responses[i];
                    proof {
                        assert(responses@[i as int] == *item);
                        assert((*self)->Array_0 == *responses);
                        assert(decreases_to!(*self => (*self)->Array_0));
                        assert(decreases_to!(*responses => responses@));
                        assert(decreases_to!(responses@ => responses@[i as int]));
                    }
                    item.write_into(buf);
                    proof {
                        assert(responses@.take(i + 1) =~= responses@.take(i as int).push(*item));
                        lemma_views_of_push(responses@.take(i as int), *item);
                        lemma_encode_resps_push(views_of(responses@.take(i as int)), view_of(*item));
                        assert(buf@ =~= head + encode_resps(views_of(responses@.take(i + 1))));
                    }
                    i += 1;
                }
                proof {
                    assert(responses@.take(i as int) =~= responses@);
                    assert(buf@ =~= start + encode_resp(self@));
                }
                return;
            },
        }
        buf.push(CR);
        buf.push(LF);
        proof {
            assert(final(buf)@ =~= old(buf)@ + encode_resp(self@));
        }
    }
}

/// A complete response takes at least one byte, and no more than there are.
pub proof fn lemma_resp_bounds(bytes: Seq<u8>)
    ensures
        resp_outcome(bytes) matches RespOutcome::Complete(v, m) ==> 0 < m <= bytes.len(),
    decreases bytes.len(), 1nat, 0nat,
{
    if bytes.len() > 0 && first_crlf(bytes) is Some {
        let i = first_crlf(bytes)->0;
        assert(is_line_end(bytes, i));
        if bytes[0] == ARRAY_BYTE {
            match line_number(bytes.subrange(1, i)) {
                RespOutcome::Complete(n, _) => {
                    if n >= 0 {
                        lemma_items_bounds(bytes, i + 2, n as nat);
                    }
                },
                _ => {},
            }
        }
    }
}

/// Complete responses read from `start` end within the bytes.
pub proof fn lemma_items_bounds(bytes: Seq<u8>, start: int, k: nat)
    requires
        0 < start <= bytes.len(),
    ensures
        items_outcome(bytes, start, k) matches RespOutcome::Complete(items, pos) ==> start <= pos
            <= bytes.len() && items.len() == k,
    decreases bytes.len(), 0nat, k,
{
    if k > 0 {
        lemma_items_bounds(bytes, start, (k - 1) as nat);
        match items_outcome(bytes, start, (k - 1) as nat) {
            RespOutcome::Complete(items, pos) => {
                if 0 < pos <= bytes.len() {
                    lemma_resp_bounds(bytes.subrange(pos, bytes.len() as int));
                }
            },
            _ => {},
        }
    }
}

/// Once reading the responses of an array stops short or fails, reading more
/// of them stops at the same place.
pub proof fn lemma_items_propagate(bytes: Seq<u8>, start: int, k: nat, n: nat)
    requires
        k <= n,
        !(items_outcome(bytes, start, k) is Complete),
    ensures
        items_outcome(bytes, start, n) == items_outcome(bytes, start, k),
    decreases n - k,
{
    if k < n {
        lemma_items_propagate(bytes, start, k, (n - 1) as nat);
    }
}

/// What the decoder reads back exactly as it was written: an error message
/// holds no CRLF, a bulk string is within the length limit, an integer fits
/// in an `i64`, and an array's items are themselves such values.
pub open spec fn encodable(v: RespView) -> bool
    decreases v,
{
    match v {
        RespView::Error(m) => forall|j: int| !crlf_at(encode_utf8(m), j),
        RespView::Cstr(b) => b.len() <= MAX_COMPLEX_STRING_LENGTH,
        RespView::Integer(n) => i64::MIN <= n <= i64::MAX,
        RespView::Array(items) => items.len() <= i64::MAX && forall|i: int|
            0 <= i < items.len() ==> encodable(#[trigger] items[i]),
        _ => true,
    }
}

/// A line written as a first byte, a body without CRLF, and CRLF ends where
/// the body does.
proof fn lemma_line_encoded(b: u8, body: Seq<u8>, tail: Seq<u8>)
    requires
        b != CR,
        forall|j: int| !crlf_at(body, j),
    ensures
        first_crlf(seq![b] + body + crlf() + tail) == Some(1 + body.len() as int),
        (seq![b] + body + crlf() + tail).subrange(1, 1 + body.len() as int) == body,
        (seq![b] + body + crlf() + tail)[0] == b,
{
    let bytes = seq![b] + body + crlf() + tail;
    let i = 1 + body.len() as int;
    assert forall|j: int| 0 <= j < i implies !crlf_at(bytes, j) by {
        if j > 0 && j + 1 < i {
            assert(bytes[j] == body[j - 1] && bytes[j + 1] == body[j]);
            assert(!crlf_at(body, j - 1));
        }
    }
    assert(crlf_at(bytes, i));
    lemma_first_crlf(bytes, i);
    assert(bytes.subrange(1, i) =~= body);
}

/// The written form of a number: its characters are ASCII with no CRLF, and
/// they read back as the number.
proof fn lemma_number_line(n: int)
    requires
        i64::MIN <= n <= i64::MAX,
    ensures
        forall|j: int| !crlf_at(ascii_bytes(signed_decimal(n)), j),
        line_number(ascii_bytes(signed_decimal(n))) == RespOutcome::<int>::Complete(n, 0),
{
    let s = signed_decimal(n);
    let d = ascii_bytes(s);
    if n < 0 {
        lemma_decimal((-n) as nat);
    } else {
        lemma_decimal(n as nat);
    }
    assert(is_ascii_chars(s)) by {
        if n < 0 {
            assert forall|i: int| 0 <= i < s.len() implies '\0' <= #[trigger] s[i] <= '\u{7f}' by {
                if i > 0 {
                    assert(s[i] == decimal((-n) as nat)[i - 1]);
                }
            }
        }
    }
    assert forall|j: int| !crlf_at(d, j) by {
        if 0 <= j && j + 1 < d.len() {
            if n < 0 {
                if j > 0 {
                    assert(s[j] == decimal((-n) as nat)[j - 1]);
                    assert(is_digit(decimal((-n) as nat)[j - 1]));
                }
            } else {
                assert(is_digit(decimal(n as nat)[j]));
            }
        }
    }
    lemma_ascii_chars_round_trip(s);
    lemma_ascii_utf8(d);
    lemma_parse_signed_decimal(n as i64);
}

/// Encoding two runs of responses one after the other encodes each in turn.
proof fn lemma_encode_resps_concat(a: Seq<RespView>, b: Seq<RespView>)
    ensures
        encode_resps(a + b) == encode_resps(a) + encode_resps(b),
    decreases b.len(),
{
    if b.len() == 0 {
        assert(a + b =~= a);
        assert(encode_resps(a) + encode_resps(b) =~= encode_resps(a));
    } else {
        lemma_encode_resps_concat(a, b.drop_last());
        assert((a + b).drop_last() =~= a + b.drop_last());
        assert(encode_resps(a + b) =~= encode_resps(a) + encode_resps(b));
    }
}

/// The central property of the format: a response that can be written reads
/// back as itself, taking exactly its written bytes, whatever follows it.
pub proof fn lemma_response_round_trip(v: RespView, rest: Seq<u8>)
    requires
        encodable(v),
    ensures
        resp_outcome(encode_resp(v) + rest) == RespOutcome::Complete(v, encode_resp(v).len() as int),
    decreases v, 0nat,
{
    let bytes = encode_resp(v) + rest;
    match v {
        RespView::Okay => {
            lemma_line_encoded(SSTR_BYTE, ok_body(), rest);
            assert(bytes =~= seq![SSTR_BYTE] + ok_body() + crlf() + rest);
        },
        RespView::Error(m) => {
            let body = encode_utf8(m);
            lemma_line_encoded(ERROR_BYTE, body, rest);
            assert(bytes =~= seq![ERROR_BYTE] + body + crlf() + rest);
            encode_utf8_valid_utf8(m);
            encode_utf8_decode_utf8(m);
        },
        RespView::Integer(n) => {
            let body = ascii_bytes(signed_decimal(n));
            lemma_number_line(n);
            lemma_line_encoded(INTEGER_BYTE, body, rest);
            assert(bytes =~= seq![INTEGER_BYTE] + body + crlf() + rest);
        },
        RespView::Null => {
            let body = seq![45u8, 49u8];
            assert(body =~= ascii_bytes(signed_decimal(-1)));
            lemma_number_line(-1);
            lemma_line_encoded(CSTRING_BYTE, body, rest);
            assert(bytes =~= seq![CSTRING_BYTE] + body + crlf() + rest);
        },
        RespView::Cstr(b) => {
            let n = b.len() as int;
            let body = ascii_bytes(signed_decimal(n));
            lemma_number_line(n);
            lemma_line_encoded(CSTRING_BYTE, body, b + crlf() + rest);
            assert(bytes =~= seq![CSTRING_BYTE] + body + crlf() + (b + crlf() + rest));
            let end = body.len() as int + 3;
            assert(bytes.subrange(end + n, end + n + 2) =~= crlf());
            assert(bytes.subrange(end, end + n) =~= b);
        },
        RespView::Array(items) => {
            let n = items.len() as int;
            let body = ascii_bytes(signed_decimal(n));
            let tail = encode_resps(items) + rest;
            lemma_number_line(n);
            lemma_line_encoded(ARRAY_BYTE, body, tail);
            let p = seq![ARRAY_BYTE] + body + crlf();
            assert(bytes =~= p + tail);
            assert(bytes =~= seq![ARRAY_BYTE] + body + crlf() + tail);
            assert(decreases_to!(v => items));
            lemma_items_encoded(items, p, rest, items.len());
            assert(items.take(n) =~= items);
            assert(bytes =~= p + encode_resps(items) + rest);
        },
    }
}

/// Reading the items of a written array gives them back one by one.
proof fn lemma_items_encoded(items: Seq<RespView>, p: Seq<u8>, rest: Seq<u8>, k: nat)
    requires
        k <= items.len(),
        p.len() > 0,
        forall|i: int| 0 <= i < items.len() ==> encodable(#[trigger] items[i]),
    ensures
        items_outcome(p + encode_resps(items) + rest, p.len() as int, k) == RespOutcome::Complete(
            items.take(k as int),
            p.len() + encode_resps(items.take(k as int)).len() as int,
        ),
    decreases items, k,
{
    let full = p + encode_resps(items) + rest;
    if k == 0 {
        assert(items.take(0) =~= Seq::<RespView>::empty());
    } else {
        let j = (k - 1) as int;
        lemma_items_encoded(items, p, rest, (k - 1) as nat);
        let pos = p.len() as int + encode_resps(items.take(j)).len() as int;
        let later = items.subrange(k as int, items.len() as int);
        assert(items =~= items.take(j) + seq![items[j]] + later);
        lemma_encode_resps_concat(items.take(j) + seq![items[j]], later);
        lemma_encode_resps_concat(items.take(j), seq![items[j]]);
        assert(encode_resps(seq![items[j]]) =~= encode_resp(items[j])) by {
            assert(seq![items[j]].drop_last() =~= Seq::<RespView>::empty());
            assert(encode_resps(Seq::<RespView>::empty()) == Seq::<u8>::empty());
            assert(Seq::<u8>::empty() + encode_resp(items[j]) =~= encode_resp(items[j]));
        }
        assert(items.take(k as int) =~= items.take(j) + seq![items[j]]);
        assert(full.subrange(pos, full.len() as int) =~= encode_resp(items[j]) + (encode_resps(later)
            + rest));
        assert(decreases_to!(items => items[j]));
        lemma_response_round_trip(items[j], encode_resps(later) + rest);
        assert(items.take(j).push(items[j]) =~= items.take(k as int));
    }
}

/// Decoding does not depend on how the bytes arrive: once the bytes so far
/// decide a response, complete or wrong, more bytes do not change it.
pub proof fn lemma_response_stable(b: Seq<u8>, x: Seq<u8>)
    requires
        !(resp_outcome(b) is Incomplete),
    ensures
        resp_outcome(b + x) == resp_outcome(b),
    decreases b.len(), 1nat, 0nat,
{
    let bx = b + x;
    assert(bx[0] == b[0]);
    if b[0] == SSTR_BYTE || b[0] == ERROR_BYTE || b[0] == CSTRING_BYTE || b[0] == INTEGER_BYTE
        || b[0] == ARRAY_BYTE {
        let i = first_crlf(b)->0;
        assert(is_line_end(b, i));
        lemma_first_crlf_extend(b, x, i);
        assert(bx.subrange(1, i) =~= b.subrange(1, i));
        let end = i + 2;
        if b[0] == CSTRING_BYTE {
            match line_number(b.subrange(1, i)) {
                RespOutcome::Complete(n, _) => {
                    if 0 <= n && end + n + 2 <= b.len() {
                        assert(bx.subrange(end + n, end + n + 2) =~= b.subrange(end + n, end + n + 2));
                        assert(bx.subrange(end, end + n) =~= b.subrange(end, end + n));
                    }
                },
                _ => {},
            }
        } else if b[0] == ARRAY_BYTE {
            match line_number(b.subrange(1, i)) {
                RespOutcome::Complete(n, _) => {
                    if n >= 0 {
                        lemma_items_decided(b, x, end, n as nat);
                    }
                },
                _ => {},
            }
        }
    }
}

/// Responses of an array that were complete, or already wrong, stay so as bytes arrive.
pub proof fn lemma_items_decided(b: Seq<u8>, x: Seq<u8>, start: int, k: nat)
    requires
        0 < start <= b.len(),
        !(items_outcome(b, start, k) is Incomplete),
    ensures
        items_outcome(b + x, start, k) == items_outcome(b, start, k),
    decreases b.len(), 0nat, k,
{
    if k > 0 {
        lemma_items_decided(b, x, start, (k - 1) as nat);
        lemma_items_bounds(b, start, (k - 1) as nat);
        match items_outcome(b, start, (k - 1) as nat) {
            RespOutcome::Complete(_, pos) => {
                let rest = b.subrange(pos, b.len() as int);
                assert((b + x).subrange(pos, (b + x).len() as int) =~= rest + x);
                lemma_response_stable(rest, x);
            },
            _ => {},
        }
    }
}

/// Decodes responses out of the bytes received so far.
pub struct ResponseDecoder {
    buffer: Vec<u8>,
    poisoned: bool,
}

/// Reads responses out of a byte source: the bytes are handed to it in chunks,
/// and it hands back each response once its last byte has arrived.
pub struct ResponseReader<R> {
    reader: R,
    decoder: ResponseDecoder,
}

/// The number written on a header line, after its first byte.
fn line_number_of(line: &[u8]) -> (r: Result<i64, ParseError>)
    ensures
        match line_number(line@) {
            RespOutcome::Fault(f) => r matches Err(e) && reports_fault(e, f),
            RespOutcome::Complete(n, _) => r matches Ok(x) && x as int == n,
            RespOutcome::Incomplete => false,
        },
{
    let text = match str_from_utf8(line) {
        Ok(text) => text,
        Err(e) => {
            return Err(ParseError::InvalidUtf8(e));
        },
    };
    match parse_i64(text) {
        Ok(n) => Ok(n),
        Err(e) => Err(ParseError::InvalidInt(e)),
    }
}

impl Default for ResponseDecoder {
    /// A decoder with nothing buffered.
    fn default() -> (d: Self)
        ensures
            d.spec_buffer() == Seq::<u8>::empty(),
            !d.spec_poisoned(),
    {
        ResponseDecoder::new()
    }
}

impl ResponseDecoder {
    pub closed spec fn spec_buffer(&self) -> Seq<u8> {
        self.buffer@
    }

    pub closed spec fn spec_poisoned(&self) -> bool {
        self.poisoned
    }

    /// A decoder with nothing buffered.
    pub fn new() -> (d: Self)
        ensures
            d.spec_buffer() == Seq::<u8>::empty(),
            !d.spec_poisoned(),
    {
        ResponseDecoder { buffer: Vec::new(), poisoned: false }
    }

    /// Adds received bytes to the buffer.
    pub fn push_bytes(&mut self, bytes: &[u8])
        ensures
            final(self).spec_buffer() == old(self).spec_buffer() + bytes@,
            final(self).spec_poisoned() == old(self).spec_poisoned(),
    {
        append_bytes(&mut self.buffer, bytes);
    }

    /// What the end of input means: fine when nothing is left over, an error
    /// when a response was cut short or decoding had already failed.
    pub fn validate_eof(&self) -> (r: Result<(), ParseError>)
        ensures
            self.spec_poisoned() ==> r matches Err(ParseError::Poisoned),
            !self.spec_poisoned() && self.spec_buffer().len() > 0 ==> r matches Err(
                ParseError::UnexpectedEof,
            ),
            !self.spec_poisoned() && self.spec_buffer().len() == 0 ==> r is Ok,
    {
        if self.poisoned {
            return Err(ParseError::Poisoned);
        }
        if self.buffer.len() != 0 {
            return Err(ParseError::UnexpectedEof);
        }
        Ok(())
    }

    /// The next response, once all of its bytes have arrived; `Ok(None)` while
    /// more bytes are needed. After an error every call fails with `Poisoned`.
    pub fn decode_next(&mut self) -> (r: Result<Option<Response>, ParseError>)
        ensures
            old(self).spec_poisoned() ==> (r matches Err(ParseError::Poisoned) && final(self).spec_buffer() == old(self).spec_buffer() && final(self).spec_poisoned()),
            !old(self).spec_poisoned() ==> match resp_outcome(old(self).spec_buffer()) {
                RespOutcome::Incomplete => r matches Ok(None) && final(self).spec_buffer() == old(self).spec_buffer() && !final(self).spec_poisoned(),
                RespOutcome::Fault(f) => r matches Err(e) && reports_fault(e, f) && final(self).spec_buffer() == old(self).spec_buffer() && final(self).spec_poisoned(),
                RespOutcome::Complete(v, n) => r matches Ok(Some(x)) && x@ == v && final(self).spec_buffer() == old(self).spec_buffer().subrange(
                    n,
                    old(self).spec_buffer().len() as int,
                ) && !final(self).spec_poisoned(),
            },
    {
        if self.poisoned {
            return Err(ParseError::Poisoned);
        }
        let result = self.decode_buffered();
        if result.is_err() {
            self.poisoned = true;
        }
        result
    }

    /// Decodes the next response from the buffered bytes, if all of it has arrived.
    fn decode_buffered(&mut self) -> (r: Result<Option<Response>, ParseError>)
        ensures
            final(self).poisoned == old(self).poisoned,
            match resp_outcome(old(self).buffer@) {
                RespOutcome::Incomplete => r matches Ok(None) && final(self).buffer@ == old(self).buffer@,
                RespOutcome::Fault(f) => r matches Err(e) && reports_fault(e, f) && final(self).buffer@ == old(self).buffer@,
                RespOutcome::Complete(v, n) => r matches Ok(Some(x)) && x@ == v && final(self).buffer@ == old(self).buffer@.subrange(n, old(self).buffer@.len() as int),
            },
        decreases old(self).buffer@.len(), 1nat,
    {
        if self.buffer.len() == 0 {
            return Ok(None);
        }
        let first = self.buffer[0];
        if first == SSTR_BYTE {
            self.parse_sstr()
        } else if first == ERROR_BYTE {
            self.parse_error()
        } else if first == CSTRING_BYTE {
            self.parse_cstr()
        } else if first == INTEGER_BYTE {
            self.parse_integer()
        } else if first == ARRAY_BYTE {
            self.parse_array()
        } else {
            Err(ParseError::UnexpectedPrefix(first))
        }
    }

    /// The first line of the buffer, split into its prefix byte and the rest.
    fn first_line(&self) -> (r: Option<(&[u8], usize)>)
        requires
            self.buffer@.len() > 0,
            self.buffer@[0] != CR,
        ensures
            match first_crlf(self.buffer@) {
                None => r is None,
                Some(i) => r matches Some((line, end)) && line@ == self.buffer@.subrange(1, i)
                    && end == i + 2 && 1 <= i && end <= self.buffer@.len(),
            },
    {
        match parse_line(self.buffer.as_slice()) {
            None => None,
            Some(header) => {
                proof {
                    assert(is_line_end(self.buffer@, first_crlf(self.buffer@)->0));
                }
                let line = slice_subrange(header.data, 1, header.data.len());
                Some((line, header.num_bytes_parsed))
            },
        }
    }

    fn parse_sstr(&mut self) -> (r: Result<Option<Response>, ParseError>)
        requires
            old(self).buffer@.len() > 0,
            old(self).buffer@[0] == SSTR_BYTE,
        ensures
            final(self).poisoned == old(self).poisoned,
            match resp_outcome(old(self).buffer@) {
                RespOutcome::Incomplete => r matches Ok(None) && final(self).buffer@ == old(self).buffer@,
                RespOutcome::Fault(f) => r matches Err(e) && reports_fault(e, f) && final(self).buffer@ == old(self).buffer@,
                RespOutcome::Complete(v, n) => r matches Ok(Some(x)) && x@ == v && final(self).buffer@ == old(self).buffer@.subrange(n, old(self).buffer@.len() as int),
            },
    {
        let (line, end) = match self.first_line() {
            None => {
                return Ok(None);
            },
            Some(found) => found,
        };
        if !(line.len() == 2 && line[0] == 79u8 && line[1] == 75u8) {
            proof {
                if line@ == ok_body() {
                    assert(line@[0] == 79u8 && line@[1] == 75u8);
                }
            }
            return Err(ParseError::UnexpectedSstr(string_from_utf8_lossy(line)));
        }
        proof {
            assert(line@ =~= ok_body());
        }
        self.take(end);
        Ok(Some(Response::Okay))
    }

    fn parse_error(&mut self) -> (r: Result<Option<Response>, ParseError>)
        requires
            old(self).buffer@.len() > 0,
            old(self).buffer@[0] == ERROR_BYTE,
        ensures
            final(self).poisoned == old(self).poisoned,
            match resp_outcome(old(self).buffer@) {
                RespOutcome::Incomplete => r matches Ok(None) && final(self).buffer@ == old(self).buffer@,
                RespOutcome::Fault(f) => r matches Err(e) && reports_fault(e, f) && final(self).buffer@ == old(self).buffer@,
                RespOutcome::Complete(v, n) => r matches Ok(Some(x)) && x@ == v && final(self).buffer@ == old(self).buffer@.subrange(n, old(self).buffer@.len() as int),
            },
    {
        let (line, end) = match self.first_line() {
            None => {
                return Ok(None);
            },
            Some(found) => found,
        };
        let msg = match str_from_utf8(line) {
            Ok(text) => text.to_owned(),
            Err(e) => {
                return Err(ParseError::InvalidUtf8(e));
            },
        };
        self.take(end);
        Ok(Some(Response::Error(msg)))
    }

    fn parse_integer(&mut self) -> (r: Result<Option<Response>, ParseError>)
        requires
            old(self).buffer@.len() > 0,
            old(self).buffer@[0] == INTEGER_BYTE,
        ensures
            final(self).poisoned == old(self).poisoned,
            match resp_outcome(old(self).buffer@) {
                RespOutcome::Incomplete => r matches Ok(None) && final(self).buffer@ == old(self).buffer@,
                RespOutcome::Fault(f) => r matches Err(e) && reports_fault(e, f) && final(self).buffer@ == old(self).buffer@,
                RespOutcome::Complete(v, n) => r matches Ok(Some(x)) && x@ == v && final(self).buffer@ == old(self).buffer@.subrange(n, old(self).buffer@.len() as int),
            },
    {
        let (line, end) = match self.first_line() {
            None => {
                return Ok(None);
            },
            Some(found) => found,
        };
        let n = match line_number_of(line) {
            Ok(n) => n,
            Err(e) => {
                return Err(e);
            },
        };
        self.take(end);
        Ok(Some(Response::Integer(n)))
    }

    fn parse_cstr(&mut self) -> (r: Result<Option<Response>, ParseError>)
        requires
            old(self).buffer@.len() > 0,
            old(self).buffer@[0] == CSTRING_BYTE,
        ensures
            final(self).poisoned == old(self).poisoned,
            match resp_outcome(old(self).buffer@) {
                RespOutcome::Incomplete => r matches Ok(None) && final(self).buffer@ == old(self).buffer@,
                RespOutcome::Fault(f) => r matches Err(e) && reports_fault(e, f) && final(self).buffer@ == old(self).buffer@,
                RespOutcome::Complete(v, n) => r matches Ok(Some(x)) && x@ == v && final(self).buffer@ == old(self).buffer@.subrange(n, old(self).buffer@.len() as int),
            },
    {
        let ghost b = self.buffer@;
        let (line, end) = match self.first_line() {
            None => {
                return Ok(None);
            },
            Some(found) => found,
        };
        let len = match line_number_of(line) {
            Ok(n) => n,
            Err(e) => {
                return Err(e);
            },
        };
        if len == NULL_CSTR_LEN {
            self.take(end);
            return Ok(Some(Response::Null));
        }
        if len < 0 {
            return Err(ParseError::InvalidCStringLength(len));
        }
        if len > 536870912i64 {
            return Err(ParseError::CStringTooLong(len as usize));
        }
        let n = len as usize;
        let available = self.buffer.len() - end;
        if n > available || available - n < 2 {
            return Ok(None);
        }
        let crlf_idx = end + n;
        proof {
            assert(b.subrange(end + n, end + n + 2) =~= seq![b[crlf_idx as int], b[crlf_idx + 1]]);
        }
        if self.buffer[crlf_idx] != CR || self.buffer[crlf_idx + 1] != LF {
            return Err(ParseError::MissingCrlf);
        }
        let cstr = slice_to_vec(slice_subrange(self.buffer.as_slice(), end, crlf_idx));
        self.take(crlf_idx + 2);
        Ok(Some(Response::Cstr(cstr)))
    }

    fn parse_array(&mut self) -> (r: Result<Option<Response>, ParseError>)
        requires
            old(self).buffer@.len() > 0,
            old(self).buffer@[0] == ARRAY_BYTE,
        ensures
            final(self).poisoned == old(self).poisoned,
            match resp_outcome(old(self).buffer@) {
                RespOutcome::Incomplete => r matches Ok(None) && final(self).buffer@ == old(self).buffer@,
                RespOutcome::Fault(f) => r matches Err(e) && reports_fault(e, f) && final(self).buffer@ == old(self).buffer@,
                RespOutcome::Complete(v, n) => r matches Ok(Some(x)) && x@ == v && final(self).buffer@ == old(self).buffer@.subrange(n, old(self).buffer@.len() as int),
            },
        decreases old(self).buffer@.len(), 0nat,
    {
        let ghost b = self.buffer@;
        let (line, end) = match self.first_line() {
            None => {
                return Ok(None);
            },
            Some(found) => found,
        };
        let len = match line_number_of(line) {
            Ok(n) => n,
            Err(e) => {
                return Err(e);
            },
        };
        if len < 0 {
            return Err(ParseError::InvalidArrayLength(len));
        }
        let mut responses: Vec<Response> = Vec::new();
        let mut num_bytes_parsed: usize = end;
        let mut i: i64 = 0;
        proof {
            assert(views_of(responses@) =~= Seq::<RespView>::empty());
        }
        while i < len
            invariant
                self.buffer@ == b,
                self.poisoned == old(self).poisoned,
                b == old(self).buffer@,
                b.len() > 0,
                b[0] == ARRAY_BYTE,
                2 <= end <= num_bytes_parsed <= b.len(),
                0 <= i <= len,
                resp_outcome(b) == match items_outcome(b, end as int, len as nat) {
                    RespOutcome::Complete(items, pos) => RespOutcome::Complete(
                        RespView::Array(items),
                        pos,
                    ),
                    RespOutcome::Incomplete => RespOutcome::Incomplete,
                    RespOutcome::Fault(f) => RespOutcome::Fault(f),
                },
                items_outcome(b, end as int, i as nat) == RespOutcome::Complete(
                    views_of(responses@),
                    num_bytes_parsed as int,
                ),
            decreases len - i,
        {
            let remaining = slice_to_vec(
                slice_subrange(self.buffer.as_slice(), num_bytes_parsed, self.buffer.len()),
            );
            let remaining_len = remaining.len();
            let mut decoder = ResponseDecoder { buffer: remaining, poisoned: false };
            let ghost rest = decoder.buffer@;
            proof {
                lemma_resp_bounds(rest);
            }
            match decoder.decode_buffered() {
                Err(e) => {
                    proof {
                        lemma_items_propagate(b, end as int, (i + 1) as nat, len as nat);
                    }
                    return Err(e);
                },
                Ok(None) => {
                    proof {
                        lemma_items_propagate(b, end as int, (i + 1) as nat, len as nat);
                    }
                    return Ok(None);
                },
                Ok(Some(response)) => {
                    let ghost prev = responses@;
                    num_bytes_parsed = num_bytes_parsed + (remaining_len - decoder.buffer.len());
                    responses.push(response);
                    proof {
                        lemma_views_of_push(prev, response);
                    }
                },
            }
            i += 1;
        }
        self.take(num_bytes_parsed);
        Ok(Some(Response::Array(responses)))
    }

    /// Drops the first `num_bytes` bytes of the buffer.
    fn take(&mut self, num_bytes: usize)
        requires
            num_bytes <= old(self).buffer@.len(),
        ensures
            final(self).buffer@ == old(self).buffer@.subrange(
                num_bytes as int,
                old(self).buffer@.len() as int,
            ),
            final(self).poisoned == old(self).poisoned,
    {
        let rest = self.buffer.split_off(num_bytes);
        self.buffer = rest;
    }
}

impl<R> ResponseReader<R> {
    pub closed spec fn spec_buffer(&self) -> Seq<u8> {
        self.decoder.buffer@
    }

    pub closed spec fn spec_poisoned(&self) -> bool {
        self.decoder.poisoned
    }

    pub closed spec fn spec_reader(&self) -> R {
        self.reader
    }

    pub fn new(reader: R) -> (r: Self)
        ensures
            r.spec_buffer() == Seq::<u8>::empty(),
            !r.spec_poisoned(),
            r.spec_reader() == reader,
    {
        Self { reader, decoder: ResponseDecoder::new() }
    }

    /// The byte source, for reading the next chunk from it.
    pub fn get_reader_mut(&mut self) -> (r: &mut R)
        ensures
            *r == old(self).spec_reader(),
            final(self).spec_reader() == *final(r),
            final(self).spec_buffer() == old(self).spec_buffer(),
            final(self).spec_poisoned() == old(self).spec_poisoned(),
    {
        &mut self.reader
    }

    pub fn into_inner(self) -> (r: R)
        ensures
            r == self.spec_reader(),
    {
        self.reader
    }

    /// Adds a chunk of received bytes.
    pub fn push_bytes(&mut self, bytes: &[u8])
        ensures
            final(self).spec_buffer() == old(self).spec_buffer() + bytes@,
            final(self).spec_poisoned() == old(self).spec_poisoned(),
            final(self).spec_reader() == old(self).spec_reader(),
    {
        self.decoder.push_bytes(bytes);
    }

    /// The next response, once all of its bytes have arrived; see `ResponseDecoder::decode_next`.
    pub fn decode_next(&mut self) -> (r: Result<Option<Response>, ParseError>)
        ensures
            final(self).spec_reader() == old(self).spec_reader(),
            old(self).spec_poisoned() ==> (r matches Err(ParseError::Poisoned) && final(self).spec_buffer() == old(self).spec_buffer() && final(self).spec_poisoned()),
            !old(self).spec_poisoned() ==> match resp_outcome(old(self).spec_buffer()) {
                RespOutcome::Incomplete => r matches Ok(None) && final(self).spec_buffer() == old(self).spec_buffer() && !final(self).spec_poisoned(),
                RespOutcome::Fault(f) => r matches Err(e) && reports_fault(e, f) && final(self).spec_buffer() == old(self).spec_buffer() && final(self).spec_poisoned(),
                RespOutcome::Complete(v, n) => r matches Ok(Some(x)) && x@ == v && final(self).spec_buffer() == old(self).spec_buffer().subrange(
                    n,
                    old(self).spec_buffer().len() as int,
                ) && !final(self).spec_poisoned(),
            },
    {
        self.decoder.decode_next()
    }

    /// What the end of input means; see `ResponseDecoder::validate_eof`.
    pub fn validate_eof(&self) -> (r: Result<(), ParseError>)
        ensures
            self.spec_poisoned() ==> r matches Err(ParseError::Poisoned),
            !self.spec_poisoned() && self.spec_buffer().len() > 0 ==> r matches Err(
                ParseError::UnexpectedEof,
            ),
            !self.spec_poisoned() && self.spec_buffer().len() == 0 ==> r is Ok,
    {
        self.decoder.validate_eof()
    }
}

/// How a response is shown: `OK`, the message, the bytes as text (invalid
/// UTF-8 replaced), `(nil)`, the number, or the items separated by commas.
pub open spec fn resp_text(v: RespView) -> Seq<char>
    decreases v,
{
    match v {
        RespView::Okay => seq!['O', 'K'],
        RespView::Error(m) => m,
        RespView::Cstr(b) => utf8_lossy(b),
        RespView::Null => seq!['(', 'n', 'i', 'l', ')'],
        RespView::Integer(n) => signed_decimal(n),
        RespView::Array(items) => items_text(items),
    }
}

/// The texts of some responses, separated by commas.
pub open spec fn items_text(items: Seq<RespView>) -> Seq<char>
    decreases items,
{
    if items.len() == 0 {
        Seq::empty()
    } else if items.len() == 1 {
        resp_text(items[0])
    } else {
        items_text(items.drop_last()) + seq![',', ' '] + resp_text(items.last())
    }
}

proof fn lemma_items_text_push(items: Seq<RespView>, v: RespView)
    ensures
        items_text(items.push(v)) == if items.len() == 0 {
            resp_text(v)
        } else {
            items_text(items) + seq![',', ' '] + resp_text(v)
        },
{
    assert(items.push(v).drop_last() =~= items);
}

proof fn lemma_ascii_text(chars: Seq<char>, bytes: Seq<u8>)
    requires
        is_ascii_chars(chars),
        ascii_bytes(chars) =~= bytes,
    ensures
        encode_utf8(chars) == bytes,
{
    lemma_ascii_chars_round_trip(chars);
}

impl Response {
    /// How the response is shown.
    pub fn to_string(&self) -> (r: String)
        ensures
            r@ == resp_text(self@),
    {
        let mut buf: Vec<u8> = Vec::new();
        self.write_text(&mut buf);
        proof {
            assert(buf@ =~= encode_utf8(resp_text(self@)));
            encode_utf8_valid_utf8(resp_text(self@));
            encode_utf8_decode_utf8(resp_text(self@));
        }
        utf8_to_string(buf.as_slice())
    }

    /// Appends the UTF-8 bytes of the response's text to `buf`.
    fn write_text(&self, buf: &mut Vec<u8>)
        ensures
            final(buf)@ == old(buf)@ + encode_utf8(resp_text(self@)),
        decreases self,
    {
        let ghost start = buf@;
        match self {
            Response::Okay => {
                buf.push(79u8);
                buf.push(75u8);
                proof {
                    lemma_ascii_text(seq!['O', 'K'], seq![79u8, 75u8]);
                }
            },
            Response::Error(msg) => {
                append_bytes(buf, string_bytes(msg));
            },
            Response::Cstr(bytes) => {
                let text = string_from_utf8_lossy(bytes.as_slice());
                append_bytes(buf, string_bytes(&text));
            },
            Response::Null => {
                buf.push(40u8);
                buf.push(110u8);
                buf.push(105u8);
                buf.push(108u8);
                buf.push(41u8);
                proof {
                    lemma_ascii_text(
                        seq!['(', 'n', 'i', 'l', ')'],
                        seq![40u8, 110u8, 105u8, 108u8, 41u8],
                    );
                }
            },
            Response::Integer(n) => {
                push_signed_decimal(buf, *n);
                proof {
                    lemma_signed_decimal_ascii(*n as int);
                }
            },
            Response::Array(responses) => {
                let ghost sep = seq![',', ' '];
                proof {
                    lemma_ascii_text(sep, seq![44u8, 32u8]);
                    lemma_views_of_len(responses@);
                    assert(responses@.take(0) =~= Seq::<Response>::empty());
                    assert(views_of(Seq::<Response>::empty()) =~= Seq::<RespView>::empty());
                }
                let mut i: usize = 0;
                while i < responses.len()
                    invariant
                        *self == Response::Array(*responses),
                        i <= responses@.len(),
                        sep == seq![',', ' '],
                        encode_utf8(sep) == seq![44u8, 32u8],
                        buf@ == start + encode_utf8(items_text(views_of(responses@.take(i as int)))),
                    decreases responses@.len() - i,
                {
                    let item = &responses[i];
                    let ghost done = views_of(responses@.take(i as int));
                    let ghost before = buf@;
                    proof {
                        assert(responses@[i as int] == *item);
                        assert((*self)->Array_0 == *responses);
                        assert(decreases_to!(*self => (*self)->Array_0));
                        assert(decreases_to!(*responses => responses@));
                        assert(decreases_to!(responses@ => responses@[i as int]));
                        lemma_views_of_len(responses@.take(i as int));
                    }
                    if i > 0 {
                        buf.push(44u8);
                        buf.push(32u8);
                    }
                    let ghost mid = buf@;
                    item.write_text(buf);
                    proof {
                        assert(responses@.take(i + 1) =~= responses@.take(i as int).push(*item));
                        lemma_views_of_push(responses@.take(i as int), *item);
                        lemma_items_text_push(done, view_of(*item));
                        if i > 0 {
                            lemma_encode_utf8_concat(items_text(done), sep);
                            lemma_encode_utf8_concat(items_text(done) + sep, resp_text(view_of(*item)));
                        }
                        assert(buf@ =~= start + encode_utf8(items_text(views_of(responses@.take(i + 1)))));
                    }
                    i += 1;
                }
                proof {
                    assert(responses@.take(i as int) =~= responses@);
                }
            },
        }
        proof {
            assert(final(buf)@ =~= old(buf)@ + encode_utf8(resp_text(self@)));
        }
    }
}

} // verus!
