//! Requests in RESP form: a top-level array of bulk strings.
use std::num::ParseIntError;
use std::str::Utf8Error;
use vstd::prelude::*;
use vstd::slice::slice_subrange;
use vstd::slice::slice_to_vec;
use vstd::utf8::*;

use crate::text::{
    ascii_bytes, decimal, is_digit, lemma_ascii_chars_round_trip, lemma_decimal,
    joined, lemma_encode_utf8_concat, lemma_joined_push, lemma_parse_decimal, parse_unsigned,
    parse_usize, push_decimal, str_from_utf8, string_bytes, string_from_utf8_lossy, utf8_lossy,
    utf8_to_string,
};
use crate::util::{
    append_bytes, crlf, crlf_at, first_crlf, is_line_end, lemma_first_crlf,
    lemma_first_crlf_extend, parse_line,
    Bytes, Parsed, CR, CSTRING_BYTE, LF, MAX_COMPLEX_STRING_LENGTH,
};

verus! {

/// `std::io::Error`, carried through without a look inside.
#[verifier::external_type_specification]
#[verifier::external_body]
pub struct ExIoError(std::io::Error);

/// The `*` that starts an array.
pub const ARRAY_BYTE: u8 = 42u8;

/// The most elements a request may announce.
pub const MAX_ARRAY_LENGTH: usize = 1048576usize;

/// How many bytes a reader asks for at a time.
pub const READ_CHUNK_SIZE: usize = 8192usize;

/// A request: the bulk strings of one top-level array.
#[derive(Debug)]
pub struct Request {
    cstrs: Vec<Bytes>,
}

pub open spec fn views(v: Seq<Vec<u8>>) -> Seq<Seq<u8>> {
    v.map_values(|b: Vec<u8>| b@)
}

impl View for Request {
    type V = Seq<Seq<u8>>;

    closed spec fn view(&self) -> Seq<Seq<u8>> {
        views(self.cstrs@)
    }
}

#[derive(Debug)]
pub enum RequestParseError {
    MissingFirstByte,
    ExpectedArray(u8),
    MissingCrlf,
    InvalidUtf8(Utf8Error),
    InvalidInt(ParseIntError),
    Io(std::io::Error),
    ArrayTooLong(usize),
    ExpectedCString(u8),
    CStringTooLong(usize),
    Poisoned,
    UnexpectedEof,
}

/// The ways a request can be malformed, as the format defines them.
pub enum RequestFault {
    MissingFirstByte,
    ExpectedArray(u8),
    MissingCrlf,
    InvalidUtf8,
    InvalidInt,
    ArrayTooLong(usize),
    ExpectedCString(u8),
    CStringTooLong(usize),
}

/// `e` is the error that reports `f`.
pub open spec fn reports(e: RequestParseError, f: RequestFault) -> bool {
    match f {
        RequestFault::MissingFirstByte => e is MissingFirstByte,
        RequestFault::ExpectedArray(b) => e == RequestParseError::ExpectedArray(b),
        RequestFault::MissingCrlf => e is MissingCrlf,
        RequestFault::InvalidUtf8 => e is InvalidUtf8,
        RequestFault::InvalidInt => e is InvalidInt,
        RequestFault::ArrayTooLong(n) => e == RequestParseError::ArrayTooLong(n),
        RequestFault::ExpectedCString(b) => e == RequestParseError::ExpectedCString(b),
        RequestFault::CStringTooLong(n) => e == RequestParseError::CStringTooLong(n),
    }
}

/// What a header line (`*<n>` or `$<n>`, then CRLF) at the start of some bytes amounts to.
pub enum HeaderOutcome {
    Incomplete,
    MissingFirstByte,
    Unexpected(u8),
    InvalidUtf8,
    InvalidInt,
    TooLong(usize),
    /// The announced length and the bytes the header line takes.
    Complete(usize, usize),
}

/// A header line: the first line of `bytes` is `header_byte` followed by a
/// decimal length of at most `max`.
pub open spec fn header_outcome(bytes: Seq<u8>, header_byte: u8, max: nat) -> HeaderOutcome {
    match first_crlf(bytes) {
        None => HeaderOutcome::Incomplete,
        Some(i) => {
            if i == 0 {
                HeaderOutcome::MissingFirstByte
            } else if bytes[0] != header_byte {
                HeaderOutcome::Unexpected(bytes[0])
            } else if !valid_utf8(bytes.subrange(1, i)) {
                HeaderOutcome::InvalidUtf8
            } else {
                match parse_unsigned(decode_utf8(bytes.subrange(1, i)), usize::MAX as nat) {
                    None => HeaderOutcome::InvalidInt,
                    Some(n) => {
                        if n > max {
                            HeaderOutcome::TooLong(n as usize)
                        } else {
                            HeaderOutcome::Complete(n as usize, (i + 2) as usize)
                        }
                    },
                }
            }
        },
    }
}

/// What some bytes amount to when read as one part of a request.
pub enum PartOutcome<T> {
    Incomplete,
    Fault(RequestFault),
    /// The part and the bytes it takes.
    Complete(T, int),
}

/// A bulk string at the start of `bytes`: `$<n>` CRLF, `n` bytes, CRLF.
pub open spec fn cstr_outcome(bytes: Seq<u8>) -> PartOutcome<Seq<u8>> {
    match header_outcome(bytes, CSTRING_BYTE, MAX_COMPLEX_STRING_LENGTH as nat) {
        HeaderOutcome::Incomplete => PartOutcome::Incomplete,
        HeaderOutcome::MissingFirstByte => PartOutcome::Fault(RequestFault::MissingFirstByte),
        HeaderOutcome::Unexpected(b) => PartOutcome::Fault(RequestFault::ExpectedCString(b)),
        HeaderOutcome::InvalidUtf8 => PartOutcome::Fault(RequestFault::InvalidUtf8),
        HeaderOutcome::InvalidInt => PartOutcome::Fault(RequestFault::InvalidInt),
        HeaderOutcome::TooLong(n) => PartOutcome::Fault(RequestFault::CStringTooLong(n)),
        HeaderOutcome::Complete(n, h) => {
            if h + n + 2 > bytes.len() {
                PartOutcome::Incomplete
            } else if bytes.subrange(h + n, h + n + 2) != crlf() {
                PartOutcome::Fault(RequestFault::MissingCrlf)
            } else {
                PartOutcome::Complete(bytes.subrange(h as int, h + n), h + n + 2)
            }
        },
    }
}

/// The first `k` bulk strings of `bytes` from position `start`.
pub open spec fn args_outcome(bytes: Seq<u8>, start: int, k: nat) -> PartOutcome<Seq<Seq<u8>>>
    decreases k,
{
    if k == 0 {
        PartOutcome::Complete(Seq::empty(), start)
    } else {
        match args_outcome(bytes, start, (k - 1) as nat) {
            PartOutcome::Complete(args, pos) => match cstr_outcome(bytes.subrange(pos, bytes.len() as int)) {
                PartOutcome::Complete(c, m) => PartOutcome::Complete(args.push(c), pos + m),
                PartOutcome::Incomplete => PartOutcome::Incomplete,
                PartOutcome::Fault(f) => PartOutcome::Fault(f),
            },
            other => other,
        }
    }
}

/// A request at the start of `bytes`: `*<n>` CRLF, then `n` bulk strings.
pub open spec fn request_outcome(bytes: Seq<u8>) -> PartOutcome<Seq<Seq<u8>>> {
    match header_outcome(bytes, ARRAY_BYTE, MAX_ARRAY_LENGTH as nat) {
        HeaderOutcome::Incomplete => PartOutcome::Incomplete,
        HeaderOutcome::MissingFirstByte => PartOutcome::Fault(RequestFault::MissingFirstByte),
        HeaderOutcome::Unexpected(b) => PartOutcome::Fault(RequestFault::ExpectedArray(b)),
        HeaderOutcome::InvalidUtf8 => PartOutcome::Fault(RequestFault::InvalidUtf8),
        HeaderOutcome::InvalidInt => PartOutcome::Fault(RequestFault::InvalidInt),
        HeaderOutcome::TooLong(n) => PartOutcome::Fault(RequestFault::ArrayTooLong(n)),
        HeaderOutcome::Complete(n, h) => args_outcome(bytes, h as int, n as nat),
    }
}

/// The wire form of one bulk string.
pub open spec fn encode_bulk(arg: Seq<u8>) -> Seq<u8> {
    seq![CSTRING_BYTE] + ascii_bytes(decimal(arg.len())) + crlf() + arg + crlf()
}

pub open spec fn encode_bulks(args: Seq<Seq<u8>>) -> Seq<u8>
    decreases args.len(),
{
    if args.len() == 0 {
        Seq::empty()
    } else {
        encode_bulks(args.drop_last()) + encode_bulk(args.last())
    }
}

/// The wire form of a request made of `args`.
pub open spec fn encode_request(args: Seq<Seq<u8>>) -> Seq<u8> {
    seq![ARRAY_BYTE] + ascii_bytes(decimal(args.len())) + crlf() + encode_bulks(args)
}

/// A header line that is complete, or already wrong, stays so as bytes arrive.
pub proof fn lemma_header_stable(b: Seq<u8>, x: Seq<u8>, hb: u8, max: nat)
    requires
        !(header_outcome(b, hb, max) is Incomplete),
    ensures
        header_outcome(b + x, hb, max) == header_outcome(b, hb, max),
{
    let i = first_crlf(b)->0;
    assert(is_line_end(b, i));
    lemma_first_crlf_extend(b, x, i);
    if i > 0 {
        assert((b + x).subrange(1, i) =~= b.subrange(1, i));
    }
}

/// A complete header line lies within the bytes.
pub proof fn lemma_header_bounds(b: Seq<u8>, hb: u8, max: nat)
    requires
        b.len() <= usize::MAX,
    ensures
        header_outcome(b, hb, max) matches HeaderOutcome::Complete(n, h) ==> 2 <= h <= b.len(),
{
    if first_crlf(b) is Some {
        assert(is_line_end(b, first_crlf(b)->0));
    }
}

/// A bulk string that is complete, or already wrong, stays so as bytes arrive.
pub proof fn lemma_cstr_stable(b: Seq<u8>, x: Seq<u8>)
    requires
        !(cstr_outcome(b) is Incomplete),
    ensures
        cstr_outcome(b + x) == cstr_outcome(b),
{
    lemma_header_stable(b, x, CSTRING_BYTE, MAX_COMPLEX_STRING_LENGTH as nat);
    match header_outcome(b, CSTRING_BYTE, MAX_COMPLEX_STRING_LENGTH as nat) {
        HeaderOutcome::Complete(n, h) => {
            assert((b + x).subrange(h + n, h + n + 2) =~= b.subrange(h + n, h + n + 2));
            assert((b + x).subrange(h as int, h + n) =~= b.subrange(h as int, h + n));
        },
        _ => {},
    }
}

/// A complete bulk string takes some, but not more than all, of the bytes.
pub proof fn lemma_cstr_bounds(b: Seq<u8>)
    ensures
        cstr_outcome(b) matches PartOutcome::Complete(c, m) ==> 0 < m <= b.len(),
{
}

/// Parsed bulk strings end within the bytes.
pub proof fn lemma_args_bounds(b: Seq<u8>, start: int, k: nat)
    requires
        0 <= start <= b.len(),
    ensures
        args_outcome(b, start, k) matches PartOutcome::Complete(a, pos) ==> start <= pos <= b.len()
            && a.len() == k,
    decreases k,
{
    if k > 0 {
        lemma_args_bounds(b, start, (k - 1) as nat);
        match args_outcome(b, start, (k - 1) as nat) {
            PartOutcome::Complete(a, pos) => {
                lemma_cstr_bounds(b.subrange(pos, b.len() as int));
            },
            _ => {},
        }
    }
}

/// Bulk strings that were complete stay so as bytes arrive.
pub proof fn lemma_args_stable(b: Seq<u8>, x: Seq<u8>, start: int, k: nat)
    requires
        0 <= start <= b.len(),
        args_outcome(b, start, k) is Complete,
    ensures
        args_outcome(b + x, start, k) == args_outcome(b, start, k),
    decreases k,
{
    if k > 0 {
        lemma_args_stable(b, x, start, (k - 1) as nat);
        lemma_args_bounds(b, start, (k - 1) as nat);
        let pos = args_outcome(b, start, (k - 1) as nat)->Complete_1;
        let rest = b.subrange(pos, b.len() as int);
        assert((b + x).subrange(pos, (b + x).len() as int) =~= rest + x);
        lemma_cstr_stable(rest, x);
    }
}

/// Once parsing the bulk strings stops short or fails, reading more of them
/// stops at the same place.
pub proof fn lemma_args_propagate(b: Seq<u8>, start: int, k: nat, n: nat)
    requires
        k <= n,
        !(args_outcome(b, start, k) is Complete),
    ensures
        args_outcome(b, start, n) == args_outcome(b, start, k),
    decreases n - k,
{
    if k < n {
        lemma_args_propagate(b, start, k, (n - 1) as nat);
    }
}

/// Bulk strings that were complete, or already wrong, stay so as bytes arrive.
pub proof fn lemma_args_decided(b: Seq<u8>, x: Seq<u8>, start: int, k: nat)
    requires
        0 <= start <= b.len(),
        !(args_outcome(b, start, k) is Incomplete),
    ensures
        args_outcome(b + x, start, k) == args_outcome(b, start, k),
    decreases k,
{
    if k > 0 {
        let prev = args_outcome(b, start, (k - 1) as nat);
        lemma_args_decided(b, x, start, (k - 1) as nat);
        lemma_args_bounds(b, start, (k - 1) as nat);
        match prev {
            PartOutcome::Complete(_, pos) => {
                let rest = b.subrange(pos, b.len() as int);
                assert((b + x).subrange(pos, (b + x).len() as int) =~= rest + x);
                lemma_cstr_stable(rest, x);
            },
            _ => {},
        }
    }
}

/// Decoding does not depend on how the bytes arrive: once the bytes so far
/// decide a request, complete or wrong, more bytes do not change it.
pub proof fn lemma_request_stable(b: Seq<u8>, x: Seq<u8>)
    requires
        b.len() <= usize::MAX,
        !(request_outcome(b) is Incomplete),
    ensures
        request_outcome(b + x) == request_outcome(b),
{
    lemma_header_stable(b, x, ARRAY_BYTE, MAX_ARRAY_LENGTH as nat);
    lemma_header_bounds(b, ARRAY_BYTE, MAX_ARRAY_LENGTH as nat);
    match header_outcome(b, ARRAY_BYTE, MAX_ARRAY_LENGTH as nat) {
        HeaderOutcome::Complete(n, h) => {
            lemma_args_decided(b, x, h as int, n as nat);
        },
        _ => {},
    }
}

/// A complete request takes some of the bytes, and no more than all of them.
pub proof fn lemma_request_taken(b: Seq<u8>)
    requires
        b.len() <= usize::MAX,
    ensures
        request_outcome(b) matches PartOutcome::Complete(_, taken) ==> 0 < taken <= b.len(),
{
    lemma_header_bounds(b, ARRAY_BYTE, MAX_ARRAY_LENGTH as nat);
    match header_outcome(b, ARRAY_BYTE, MAX_ARRAY_LENGTH as nat) {
        HeaderOutcome::Complete(n, h) => {
            lemma_args_bounds(b, h as int, n as nat);
        },
        _ => {},
    }
}

/// What a decoder holding `buf` hands out before it needs more bytes: the
/// requests (their bulk strings), one after another, then the bytes left
/// over, or the fault that ends decoding for good. This is what calling
/// `decode_next` until it answers `Ok(None)` or an error gives.
pub open spec fn drain(buf: Seq<u8>) -> (Seq<Seq<Seq<u8>>>, Seq<u8>, Option<RequestFault>)
    decreases buf.len(),
{
    match request_outcome(buf) {
        PartOutcome::Incomplete => (Seq::empty(), buf, None),
        PartOutcome::Fault(f) => (Seq::empty(), buf, Some(f)),
        PartOutcome::Complete(args, taken) => if 0 < taken <= buf.len() {
            let d = drain(buf.subrange(taken, buf.len() as int));
            (seq![args] + d.0, d.1, d.2)
        } else {
            (Seq::empty(), buf, None)
        },
    }
}

/// What a decoder holding `pending` hands out as `chunks` arrive one after
/// another, drained after each: the requests in order, then what is left over
/// at the end, or the fault that stopped it.
pub open spec fn drain_chunks(pending: Seq<u8>, chunks: Seq<Seq<u8>>) -> (
    Seq<Seq<Seq<u8>>>,
    Seq<u8>,
    Option<RequestFault>,
)
    decreases chunks.len(),
{
    let d = drain(pending);
    if d.2 is Some || chunks.len() == 0 {
        d
    } else {
        let e = drain_chunks(d.1 + chunks[0], chunks.drop_first());
        (d.0 + e.0, e.1, e.2)
    }
}

/// Draining never leaves more bytes than there were.
pub proof fn lemma_drain_len(b: Seq<u8>)
    requires
        b.len() <= usize::MAX,
    ensures
        drain(b).1.len() <= b.len(),
    decreases b.len(),
{
    lemma_request_taken(b);
    if let PartOutcome::Complete(_, taken) = request_outcome(b) {
        lemma_drain_len(b.subrange(taken, b.len() as int));
    }
}

/// Draining `b` and then more bytes `x` is draining `b`, then what it left
/// over followed by `x`; a fault in `b` stays the fault, after the same requests.
pub proof fn lemma_drain_append(b: Seq<u8>, x: Seq<u8>)
    requires
        b.len() + x.len() <= usize::MAX,
    ensures
        drain(b).2 is Some ==> drain(b + x).0 == drain(b).0 && drain(b + x).2 == drain(b).2,
        drain(b).2 is None ==> drain(b + x) == (
            drain(b).0 + drain(drain(b).1 + x).0,
            drain(drain(b).1 + x).1,
            drain(drain(b).1 + x).2,
        ),
    decreases b.len(),
{
    lemma_request_taken(b);
    lemma_request_taken(b + x);
    match request_outcome(b) {
        PartOutcome::Incomplete => {
            assert(Seq::<Seq<Seq<u8>>>::empty() + drain(b + x).0 =~= drain(b + x).0);
        },
        PartOutcome::Fault(_) => {
            lemma_request_stable(b, x);
        },
        PartOutcome::Complete(args, taken) => {
            lemma_request_stable(b, x);
            let rest = b.subrange(taken, b.len() as int);
            assert((b + x).subrange(taken, (b + x).len() as int) =~= rest + x);
            lemma_drain_append(rest, x);
            if drain(rest).2 is None {
                let g = drain(drain(rest).1 + x);
                assert(seq![args] + (drain(rest).0 + g.0) =~= (seq![args] + drain(rest).0) + g.0);
            }
        },
    }
}

/// Decoding does not depend on how the bytes arrive: however the bytes are
/// cut into chunks, a decoder drained after each chunk hands out the same
/// requests in the same order, stops at the same fault, and is left holding
/// the same bytes as one given all of them at once.
pub proof fn lemma_chunking(pending: Seq<u8>, chunks: Seq<Seq<u8>>)
    requires
        pending.len() + chunks.flatten().len() <= usize::MAX,
    ensures
        drain_chunks(pending, chunks).0 == drain(pending + chunks.flatten()).0,
        drain_chunks(pending, chunks).2 == drain(pending + chunks.flatten()).2,
        drain_chunks(pending, chunks).2 is None ==> drain_chunks(pending, chunks).1 == drain(
            pending + chunks.flatten(),
        ).1,
    decreases chunks.len(),
{
    let d = drain(pending);
    lemma_drain_append(pending, chunks.flatten());
    lemma_drain_len(pending);
    if chunks.len() == 0 {
        assert(pending + chunks.flatten() =~= pending);
    } else if d.2 is None {
        let rest = chunks.drop_first();
        assert(chunks.flatten() == chunks[0] + rest.flatten());
        assert(d.1 + chunks.flatten() =~= (d.1 + chunks[0]) + rest.flatten());
        lemma_chunking(d.1 + chunks[0], rest);
    }
}

/// A header line written by the encoder: its byte, the decimal length, CRLF.
pub proof fn lemma_header_encoded(hb: u8, n: nat, max: nat, tail: Seq<u8>)
    requires
        hb != CR,
        n <= max,
        max <= usize::MAX,
        decimal(n).len() + 3 + tail.len() <= usize::MAX,
    ensures
        header_outcome(seq![hb] + ascii_bytes(decimal(n)) + crlf() + tail, hb, max)
            == HeaderOutcome::Complete(n as usize, (decimal(n).len() + 3) as usize),
{
    let d = ascii_bytes(decimal(n));
    let bytes = seq![hb] + d + crlf() + tail;
    let i = 1 + d.len() as int;
    lemma_decimal(n);
    lemma_ascii_chars_round_trip(decimal(n));
    assert forall|j: int| 0 <= j < i implies !crlf_at(bytes, j) by {
        if j > 0 {
            assert(bytes[j] == d[j - 1]);
            assert(is_digit(decimal(n)[j - 1]));
        }
    }
    assert(crlf_at(bytes, i));
    lemma_first_crlf(bytes, i);
    assert(bytes.subrange(1, i) =~= d);
    encode_utf8_valid_utf8(decimal(n));
    encode_utf8_decode_utf8(decimal(n));
    assert(valid_utf8(d));
    assert(decode_utf8(d) == decimal(n));
    lemma_parse_decimal(n, usize::MAX as nat);
}

/// A bulk string written by the encoder reads back as itself.
pub proof fn lemma_cstr_encoded(arg: Seq<u8>, tail: Seq<u8>)
    requires
        arg.len() <= MAX_COMPLEX_STRING_LENGTH,
        encode_bulk(arg).len() + tail.len() <= usize::MAX,
    ensures
        cstr_outcome(encode_bulk(arg) + tail) == PartOutcome::Complete(arg, encode_bulk(arg).len() as int),
{
    let d = ascii_bytes(decimal(arg.len()));
    let bytes = encode_bulk(arg) + tail;
    lemma_decimal(arg.len());
    lemma_ascii_chars_round_trip(decimal(arg.len()));
    assert(bytes =~= seq![CSTRING_BYTE] + d + crlf() + (arg + crlf() + tail));
    lemma_header_encoded(CSTRING_BYTE, arg.len(), MAX_COMPLEX_STRING_LENGTH as nat, arg + crlf() + tail);
    lemma_decimal(arg.len());
    lemma_ascii_chars_round_trip(decimal(arg.len()));
    let h = d.len() as int + 3;
    let n = arg.len() as int;
    assert(bytes.subrange(h + n, h + n + 2) =~= crlf());
    assert(bytes.subrange(h, h + n) =~= arg);
}

/// Encoding a sequence of bulk strings encodes each in turn.
pub proof fn lemma_encode_bulks_concat(a: Seq<Seq<u8>>, b: Seq<Seq<u8>>)
    ensures
        encode_bulks(a + b) == encode_bulks(a) + encode_bulks(b),
    decreases b.len(),
{
    if b.len() == 0 {
        assert(a + b =~= a);
        assert(encode_bulks(a) + encode_bulks(b) =~= encode_bulks(a));
    } else {
        lemma_encode_bulks_concat(a, b.drop_last());
        assert((a + b).drop_last() =~= a + b.drop_last());
        assert(encode_bulks(a + b) =~= encode_bulks(a) + encode_bulks(b));
    }
}

/// Reading the bulk strings of an encoded request gives them back one by one.
#[verifier::rlimit(40)]
#[verifier::spinoff_prover]
proof fn lemma_args_encoded(args: Seq<Seq<u8>>, p: Seq<u8>, rest: Seq<u8>, k: nat)
    requires
        k <= args.len(),
        forall|i: int| 0 <= i < args.len() ==> #[trigger] args[i].len() <= MAX_COMPLEX_STRING_LENGTH,
        p.len() + encode_bulks(args).len() + rest.len() <= usize::MAX,
    ensures
        args_outcome(p + encode_bulks(args) + rest, p.len() as int, k) == PartOutcome::Complete(
            args.take(k as int),
            p.len() + encode_bulks(args.take(k as int)).len() as int,
        ),
    decreases k,
{
    let full = p + encode_bulks(args) + rest;
    if k == 0 {
        assert(args.take(0) =~= Seq::<Seq<u8>>::empty());
    } else {
        let j = (k - 1) as int;
        lemma_args_encoded(args, p, rest, (k - 1) as nat);
        let pos = p.len() as int + encode_bulks(args.take(j)).len() as int;
        let later = args.subrange(k as int, args.len() as int);
        assert(args =~= args.take(j) + seq![args[j]] + later);
        lemma_encode_bulks_concat(args.take(j) + seq![args[j]], later);
        lemma_encode_bulks_concat(args.take(j), seq![args[j]]);
        assert(encode_bulks(seq![args[j]]) =~= encode_bulk(args[j])) by {
            assert(seq![args[j]].drop_last() =~= Seq::<Seq<u8>>::empty());
            assert(encode_bulks(Seq::<Seq<u8>>::empty()) == Seq::<u8>::empty());
            assert(Seq::<u8>::empty() + encode_bulk(args[j]) =~= encode_bulk(args[j]));
        }
        assert(args.take(k as int) =~= args.take(j) + seq![args[j]]);
        assert(full.subrange(pos, full.len() as int) =~= encode_bulk(args[j]) + (encode_bulks(later)
            + rest));
        lemma_cstr_encoded(args[j], encode_bulks(later) + rest);
        assert(args.take(j).push(args[j]) =~= args.take(k as int));
    }
}

/// The central property of the format: a request reads back as the bulk
/// strings it was written from, whatever follows it.
#[verifier::rlimit(40)]
pub proof fn lemma_request_round_trip(args: Seq<Seq<u8>>, rest: Seq<u8>)
    requires
        args.len() <= MAX_ARRAY_LENGTH,
        forall|i: int| 0 <= i < args.len() ==> #[trigger] args[i].len() <= MAX_COMPLEX_STRING_LENGTH,
        encode_request(args).len() + rest.len() <= usize::MAX,
    ensures
        request_outcome(encode_request(args) + rest) == PartOutcome::Complete(
            args,
            encode_request(args).len() as int,
        ),
{
    let p = seq![ARRAY_BYTE] + ascii_bytes(decimal(args.len())) + crlf();
    let bytes = encode_request(args) + rest;
    assert(bytes =~= seq![ARRAY_BYTE] + ascii_bytes(decimal(args.len())) + crlf() + (encode_bulks(
        args,
    ) + rest));
    lemma_header_encoded(ARRAY_BYTE, args.len(), MAX_ARRAY_LENGTH as nat, encode_bulks(args) + rest);
    lemma_decimal(args.len());
    lemma_ascii_chars_round_trip(decimal(args.len()));
    assert(bytes =~= p + encode_bulks(args) + rest);
    lemma_args_encoded(args, p, rest, args.len());
    assert(args.take(args.len() as int) =~= args);
}

impl Request {
    /// The request in RESP form.
    pub fn to_bytes(&self) -> (buf: Vec<u8>)
        ensures
            buf@ == encode_request(self@),
    {
        let mut buf: Vec<u8> = Vec::new();
        buf.push(ARRAY_BYTE);
        push_decimal(&mut buf, self.cstrs.len() as u64);
        buf.push(CR);
        buf.push(LF);
        let ghost head = buf@;
        proof {
            assert(head =~= seq![ARRAY_BYTE] + ascii_bytes(decimal(self@.len())) + crlf());
        }
        let mut i: usize = 0;
        while i < self.cstrs.len()
            invariant
                i <= self.cstrs@.len(),
                buf@ == head + encode_bulks(self@.take(i as int)),
            decreases self.cstrs@.len() - i,
        {
            let cstr = &self.cstrs[i];
            let ghost before = buf@;
            buf.push(CSTRING_BYTE);
            push_decimal(&mut buf, cstr.len() as u64);
            buf.push(CR);
            buf.push(LF);
            let mut j: usize = 0;
            while j < cstr.len()
                invariant
                    j <= cstr@.len(),
                    buf@ == before + seq![CSTRING_BYTE] + ascii_bytes(decimal(cstr@.len())) + crlf()
                        + cstr@.take(j as int),
                decreases cstr@.len() - j,
            {
                buf.push(cstr[j]);
                j += 1;
                proof {
                    assert(cstr@.take(j as int) =~= cstr@.take(j - 1).push(cstr@[j - 1]));
                }
            }
            buf.push(CR);
            buf.push(LF);
            proof {
                assert(cstr@.take(j as int) =~= cstr@);
                assert(self@[i as int] == cstr@);
                let t = self@.take(i + 1);
                assert(t.drop_last() =~= self@.take(i as int));
                assert(buf@ =~= head + encode_bulks(t));
            }
            i += 1;
        }
        proof {
            assert(self@.take(i as int) =~= self@);
        }
        buf
    }

    /// The request's bulk strings.
    pub fn into_args(self) -> (args: Vec<Bytes>)
        ensures
            views(args@) == self@,
    {
        self.cstrs
    }

    /// A request made of the given bulk strings.
    pub fn from_args(cstrs: Vec<Bytes>) -> (r: Request)
        ensures
            r@ == views(cstrs@),
    {
        Request { cstrs }
    }
}

/// The two kinds of header line a request contains.
enum HeaderKind {
    Array,
    CString,
}

spec fn header_byte(kind: HeaderKind) -> u8 {
    match kind {
        HeaderKind::Array => ARRAY_BYTE,
        HeaderKind::CString => CSTRING_BYTE,
    }
}

spec fn header_max(kind: HeaderKind) -> nat {
    match kind {
        HeaderKind::Array => MAX_ARRAY_LENGTH as nat,
        HeaderKind::CString => MAX_COMPLEX_STRING_LENGTH as nat,
    }
}

/// The incremental state of decoding requests out of the bytes received so far.
struct RequestDecoder {
    cursor: usize,
    expected_arg_count: Option<usize>,
    buffer: Vec<u8>,
    args: Vec<Bytes>,
    poisoned: bool,
}

/// Reads requests out of a byte source: the bytes are handed to it in chunks,
/// and it hands back each request once its last byte has arrived.
pub struct RequestReader<R> {
    reader: R,
    decoder: RequestDecoder,
}

impl RequestDecoder {
    /// The cached progress agrees with parsing the buffer from its start.
    spec fn wf(&self) -> bool {
        let b = self.buffer@;
        &&& self.cursor <= b.len()
        &&& match self.expected_arg_count {
            None => self.cursor == 0 && self.args@.len() == 0,
            Some(n) => match header_outcome(b, ARRAY_BYTE, MAX_ARRAY_LENGTH as nat) {
                HeaderOutcome::Complete(n2, h) => {
                    &&& n2 == n
                    &&& self.args@.len() <= n
                    &&& args_outcome(b, h as int, self.args@.len()) == PartOutcome::Complete(
                        views(self.args@),
                        self.cursor as int,
                    )
                },
                _ => false,
            },
        }
    }

    fn new() -> (d: Self)
        ensures
            d.wf(),
            d.buffer@ == Seq::<u8>::empty(),
            !d.poisoned,
            d.expected_arg_count is None,
    {
        RequestDecoder {
            cursor: 0,
            expected_arg_count: None,
            buffer: Vec::new(),
            args: Vec::new(),
            poisoned: false,
        }
    }

    fn validate_eof(&self) -> (r: Result<(), RequestParseError>)
        ensures
            self.poisoned ==> r matches Err(RequestParseError::Poisoned),
            !self.poisoned && self.buffer@.len() > 0 ==> r matches Err(RequestParseError::UnexpectedEof),
            !self.poisoned && self.buffer@.len() == 0 ==> r is Ok,
    {
        if self.poisoned {
            return Err(RequestParseError::Poisoned);
        }
        if self.buffer.len() != 0 {
            return Err(RequestParseError::UnexpectedEof);
        }
        Ok(())
    }

    /// The next bulk string at the cursor, once all of it has arrived.
    fn parse_cstr(&mut self) -> (r: Result<Option<Bytes>, RequestParseError>)
        requires
            old(self).cursor <= old(self).buffer@.len(),
        ensures
            final(self).buffer@ == old(self).buffer@,
            final(self).expected_arg_count == old(self).expected_arg_count,
            final(self).args == old(self).args,
            final(self).poisoned == old(self).poisoned,
            match cstr_outcome(
                old(self).buffer@.subrange(old(self).cursor as int, old(self).buffer@.len() as int),
            ) {
                PartOutcome::Incomplete => r matches Ok(None) && final(self).cursor == old(self).cursor,
                PartOutcome::Fault(f) => r matches Err(e) && reports(e, f) && final(self).cursor
                    == old(self).cursor,
                PartOutcome::Complete(c, m) => r matches Ok(Some(v)) && v@ == c && final(self).cursor == old(self).cursor + m,
            },
    {
        let ghost rest = self.buffer@.subrange(self.cursor as int, self.buffer@.len() as int);
        if self.cursor >= self.buffer.len() {
            proof {
                assert(rest.len() == 0);
                assert(first_crlf(rest) is None);
            }
            return Ok(None);
        }
        let tail = slice_subrange(self.buffer.as_slice(), self.cursor, self.buffer.len());
        let header = match Self::parse_header(tail, HeaderKind::CString) {
            Err(e) => {
                return Err(e);
            },
            Ok(None) => {
                return Ok(None);
            },
            Ok(Some(header)) => header,
        };
        let cstr_len = header.data;
        let data_start = self.cursor + header.num_bytes_parsed;
        let available = self.buffer.len() - data_start;
        if cstr_len > available || available - cstr_len < 2 {
            return Ok(None);
        }
        let crlf_idx = data_start + cstr_len;
        proof {
            let h = header.num_bytes_parsed as int;
            let n = cstr_len as int;
            assert(rest.subrange(h + n, h + n + 2) =~= seq![
                self.buffer@[crlf_idx as int],
                self.buffer@[crlf_idx + 1],
            ]);
        }
        if self.buffer[crlf_idx] != CR || self.buffer[crlf_idx + 1] != LF {
            return Err(RequestParseError::MissingCrlf);
        }
        let cstr = slice_to_vec(slice_subrange(self.buffer.as_slice(), data_start, crlf_idx));
        proof {
            let h = header.num_bytes_parsed as int;
            let n = cstr_len as int;
            assert(cstr@ =~= rest.subrange(h, h + n));
        }
        self.cursor = crlf_idx + 2;
        Ok(Some(cstr))
    }

    /// Hands the completed request out and drops its bytes from the buffer.
    fn take_request(&mut self) -> (args: Vec<Bytes>)
        requires
            old(self).cursor <= old(self).buffer@.len(),
        ensures
            args == old(self).args,
            final(self).buffer@ == old(self).buffer@.subrange(
                old(self).cursor as int,
                old(self).buffer@.len() as int,
            ),
            final(self).cursor == 0,
            final(self).expected_arg_count is None,
            final(self).args@.len() == 0,
            final(self).poisoned == old(self).poisoned,
    {
        let rest = self.buffer.split_off(self.cursor);
        self.buffer = rest;
        self.cursor = 0;
        self.expected_arg_count = None;
        let mut args: Vec<Bytes> = Vec::new();
        std::mem::swap(&mut self.args, &mut args);
        args
    }

    /// Decodes the next request from the buffered bytes, if all of it has arrived.
    fn decode_buffered(&mut self) -> (r: Result<Option<Request>, RequestParseError>)
        requires
            old(self).wf(),
        ensures
            final(self).wf(),
            final(self).poisoned == old(self).poisoned,
            match request_outcome(old(self).buffer@) {
                PartOutcome::Incomplete => r matches Ok(None) && final(self).buffer@ == old(self).buffer@,
                PartOutcome::Fault(f) => r matches Err(e) && reports(e, f) && final(self).buffer@
                    == old(self).buffer@,
                PartOutcome::Complete(args, consumed) => r matches Ok(Some(req)) && req@ == args
                    && final(self).buffer@ == old(self).buffer@.subrange(
                    consumed,
                    old(self).buffer@.len() as int,
                ) && final(self).expected_arg_count is None,
            },
    {
        let ghost b = self.buffer@;
        let _ = self.buffer.len();
        if self.expected_arg_count.is_none() {
            match Self::parse_header(self.buffer.as_slice(), HeaderKind::Array) {
                Err(e) => {
                    return Err(e);
                },
                Ok(None) => {
                    return Ok(None);
                },
                Ok(Some(header)) => {
                    self.expected_arg_count = Some(header.data);
                    self.cursor = header.num_bytes_parsed;
                    proof {
                        assert(views(self.args@) =~= Seq::<Seq<u8>>::empty());
                    }
                },
            }
        }
        let n = match self.expected_arg_count {
            Some(n) => n,
            None => 0,
        };
        let ghost h = header_outcome(b, ARRAY_BYTE, MAX_ARRAY_LENGTH as nat)->Complete_1 as int;
        proof {
            lemma_header_bounds(b, ARRAY_BYTE, MAX_ARRAY_LENGTH as nat);
        }
        while self.args.len() < n
            invariant
                self.wf(),
                self.buffer@ == b,
                b == old(self).buffer@,
                self.poisoned == old(self).poisoned,
                self.expected_arg_count == Some(n),
                header_outcome(b, ARRAY_BYTE, MAX_ARRAY_LENGTH as nat) == HeaderOutcome::Complete(
                    n,
                    h as usize,
                ),
                0 <= h <= b.len(),
                b.len() <= usize::MAX,
            decreases n - self.args@.len(),
        {
            let ghost k = self.args@.len();
            let ghost before = self.cursor as int;
            proof {
                assert(args_outcome(b, h, k) == PartOutcome::Complete(views(self.args@), before));
            }
            match self.parse_cstr() {
                Err(e) => {
                    proof {
                        lemma_args_propagate(b, h, (k + 1) as nat, n as nat);
                        assert(h as usize as int == h);
                        assert(request_outcome(b) == args_outcome(b, h, n as nat));
                        let co = cstr_outcome(b.subrange(before, b.len() as int));
                        assert(co is Fault);
                        assert(args_outcome(b, h, (k + 1) as nat) == PartOutcome::<Seq<Seq<u8>>>::Fault(co->Fault_0));
                    }
                    return Err(e);
                },
                Ok(None) => {
                    proof {
                        lemma_args_propagate(b, h, (k + 1) as nat, n as nat);
                    }
                    return Ok(None);
                },
                Ok(Some(cstr)) => {
                    let ghost c = cstr@;
                    let ghost prev_args = self.args@;
                    self.args.push(cstr);
                    proof {
                        assert(views(self.args@) =~= views(prev_args).push(c));
                    }
                },
            }
        }
        let ghost consumed = self.cursor as int;
        let cstrs = self.take_request();
        Ok(Some(Request { cstrs }))
    }

    /// Decodes the next request, unless an earlier error ended decoding for good.
    fn decode_next(&mut self) -> (r: Result<Option<Request>, RequestParseError>)
        requires
            old(self).wf(),
        ensures
            final(self).wf(),
            old(self).poisoned ==> (r matches Err(RequestParseError::Poisoned) && final(self).buffer@
                == old(self).buffer@ && final(self).poisoned),
            !old(self).poisoned ==> match request_outcome(old(self).buffer@) {
                PartOutcome::Incomplete => r matches Ok(None) && final(self).buffer@ == old(self).buffer@ && !final(self).poisoned,
                PartOutcome::Fault(f) => r matches Err(e) && reports(e, f) && final(self).buffer@
                    == old(self).buffer@ && final(self).poisoned,
                PartOutcome::Complete(args, consumed) => r matches Ok(Some(req)) && req@ == args
                    && final(self).buffer@ == old(self).buffer@.subrange(
                    consumed,
                    old(self).buffer@.len() as int,
                ) && final(self).expected_arg_count is None && !final(self).poisoned,
            },
    {
        if self.poisoned {
            return Err(RequestParseError::Poisoned);
        }
        let result = self.decode_buffered();
        if result.is_err() {
            self.poisoned = true;
        }
        result
    }

    /// Adds received bytes to the buffer.
    fn push_bytes(&mut self, bytes: &[u8])
        requires
            old(self).wf(),
        ensures
            final(self).wf(),
            final(self).buffer@ == old(self).buffer@ + bytes@,
            final(self).poisoned == old(self).poisoned,
            final(self).expected_arg_count == old(self).expected_arg_count,
            final(self).cursor == old(self).cursor,
            final(self).args == old(self).args,
    {
        let ghost b = self.buffer@;
        let _ = self.buffer.len();
        append_bytes(&mut self.buffer, bytes);
        let _ = self.buffer.len();
        proof {
            match self.expected_arg_count {
                Some(n) => {
                    lemma_header_stable(b, bytes@, ARRAY_BYTE, MAX_ARRAY_LENGTH as nat);
                    let h = header_outcome(b, ARRAY_BYTE, MAX_ARRAY_LENGTH as nat)->Complete_1 as int;
                    lemma_header_bounds(b, ARRAY_BYTE, MAX_ARRAY_LENGTH as nat);
                    lemma_args_stable(b, bytes@, h, self.args@.len());
                },
                None => {},
            }
        }
    }

    fn parse_header(bytes: &[u8], kind: HeaderKind) -> (r: Result<
        Option<Parsed<usize>>,
        RequestParseError,
    >)
        ensures
            match header_outcome(bytes@, header_byte(kind), header_max(kind)) {
                HeaderOutcome::Incomplete => r matches Ok(None),
                HeaderOutcome::MissingFirstByte => r matches Err(
                    RequestParseError::MissingFirstByte,
                ),
                HeaderOutcome::Unexpected(b) => match kind {
                    HeaderKind::Array => r == Err::<Option<Parsed<usize>>, RequestParseError>(
                        RequestParseError::ExpectedArray(b),
                    ),
                    HeaderKind::CString => r == Err::<Option<Parsed<usize>>, RequestParseError>(
                        RequestParseError::ExpectedCString(b),
                    ),
                },
                HeaderOutcome::InvalidUtf8 => r matches Err(RequestParseError::InvalidUtf8(_)),
                HeaderOutcome::InvalidInt => r matches Err(RequestParseError::InvalidInt(_)),
                HeaderOutcome::TooLong(n) => match kind {
                    HeaderKind::Array => r == Err::<Option<Parsed<usize>>, RequestParseError>(
                        RequestParseError::ArrayTooLong(n),
                    ),
                    HeaderKind::CString => r == Err::<Option<Parsed<usize>>, RequestParseError>(
                        RequestParseError::CStringTooLong(n),
                    ),
                },
                HeaderOutcome::Complete(n, c) => r matches Ok(Some(p)) && p.data == n
                    && p.num_bytes_parsed == c,
            },
    {
        let header = match parse_line(bytes) {
            None => {
                return Ok(None);
            },
            Some(header) => header,
        };
        let line = header.data;
        if line.len() == 0 {
            return Err(RequestParseError::MissingFirstByte);
        }
        let first = line[0];
        let (expected, max) = match kind {
            HeaderKind::Array => (ARRAY_BYTE, MAX_ARRAY_LENGTH),
            HeaderKind::CString => (CSTRING_BYTE, MAX_COMPLEX_STRING_LENGTH),
        };
        if first != expected {
            return match kind {
                HeaderKind::Array => Err(RequestParseError::ExpectedArray(first)),
                HeaderKind::CString => Err(RequestParseError::ExpectedCString(first)),
            };
        }
        let digits = slice_subrange(line, 1, line.len());
        proof {
            assert(digits@ =~= bytes@.subrange(1, header.num_bytes_parsed - 2));
        }
        let text = match str_from_utf8(digits) {
            Ok(text) => text,
            Err(e) => {
                return Err(RequestParseError::InvalidUtf8(e));
            },
        };
        let header_len = match parse_usize(text) {
            Ok(n) => n,
            Err(e) => {
                return Err(RequestParseError::InvalidInt(e));
            },
        };
        if header_len > max {
            return match kind {
                HeaderKind::Array => Err(RequestParseError::ArrayTooLong(header_len)),
                HeaderKind::CString => Err(RequestParseError::CStringTooLong(header_len)),
            };
        }
        Ok(Some(Parsed::new(header_len, header.num_bytes_parsed)))
    }
}

impl<R> RequestReader<R> {
    /// The decoder's cached progress agrees with its buffered bytes.
    pub closed spec fn wf(&self) -> bool {
        self.decoder.wf()
    }

    /// The bytes received and not yet handed out as requests.
    pub closed spec fn spec_buffer(&self) -> Seq<u8> {
        self.decoder.buffer@
    }

    /// Whether an error has ended decoding for good.
    pub closed spec fn spec_poisoned(&self) -> bool {
        self.decoder.poisoned
    }

    pub closed spec fn spec_reader(&self) -> R {
        self.reader
    }

    pub closed spec fn spec_expected_arg_count(&self) -> Option<usize> {
        self.decoder.expected_arg_count
    }

    pub closed spec fn spec_cursor(&self) -> usize {
        self.decoder.cursor
    }

    /// The bulk strings of the current request decoded so far.
    pub closed spec fn spec_pending_args(&self) -> Seq<Seq<u8>> {
        views(self.decoder.args@)
    }

    pub fn new(reader: R) -> (r: Self)
        ensures
            r.wf(),
            r.spec_buffer() == Seq::<u8>::empty(),
            !r.spec_poisoned(),
            r.spec_reader() == reader,
    {
        Self { reader, decoder: RequestDecoder::new() }
    }

    pub fn into_inner(self) -> (r: R)
        ensures
            r == self.spec_reader(),
    {
        self.reader
    }

    /// The byte source, for reading the next chunk from it.
    pub fn get_reader_mut(&mut self) -> (r: &mut R)
        ensures
            *r == old(self).spec_reader(),
            final(self).spec_reader() == *final(r),
            final(self).spec_buffer() == old(self).spec_buffer(),
            final(self).spec_poisoned() == old(self).spec_poisoned(),
            final(self).wf() == old(self).wf(),
    {
        &mut self.reader
    }

    /// Adds a chunk of received bytes.
    pub fn push_bytes(&mut self, bytes: &[u8])
        requires
            old(self).wf(),
        ensures
            final(self).wf(),
            final(self).spec_buffer() == old(self).spec_buffer() + bytes@,
            final(self).spec_poisoned() == old(self).spec_poisoned(),
            final(self).spec_reader() == old(self).spec_reader(),
    {
        self.decoder.push_bytes(bytes);
    }

    /// The next request, once all of its bytes have arrived; `Ok(None)` while
    /// more bytes are needed. After an error every call fails with `Poisoned`.
    pub fn decode_next(&mut self) -> (r: Result<Option<Request>, RequestParseError>)
        requires
            old(self).wf(),
        ensures
            final(self).wf(),
            final(self).spec_reader() == old(self).spec_reader(),
            old(self).spec_poisoned() ==> (r matches Err(RequestParseError::Poisoned)
                && final(self).spec_buffer() == old(self).spec_buffer() && final(self).spec_poisoned()),
            !old(self).spec_poisoned() ==> match request_outcome(old(self).spec_buffer()) {
                PartOutcome::Incomplete => r matches Ok(None) && final(self).spec_buffer() == old(self).spec_buffer() && !final(self).spec_poisoned(),
                PartOutcome::Fault(f) => r matches Err(e) && reports(e, f) && final(self).spec_buffer() == old(self).spec_buffer() && final(self).spec_poisoned(),
                PartOutcome::Complete(args, consumed) => r matches Ok(Some(req)) && req@ == args
                    && final(self).spec_buffer() == old(self).spec_buffer().subrange(
                    consumed,
                    old(self).spec_buffer().len() as int,
                ) && !final(self).spec_poisoned(),
            },
    {
        self.decoder.decode_next()
    }

    /// What the end of input means: fine when nothing is left over, an error
    /// when a request was cut short or decoding had already failed.
    pub fn validate_eof(&self) -> (r: Result<(), RequestParseError>)
        ensures
            self.spec_poisoned() ==> r matches Err(RequestParseError::Poisoned),
            !self.spec_poisoned() && self.spec_buffer().len() > 0 ==> r matches Err(
                RequestParseError::UnexpectedEof,
            ),
            !self.spec_poisoned() && self.spec_buffer().len() == 0 ==> r is Ok,
    {
        self.decoder.validate_eof()
    }

    /// The element count of the array being decoded, once its header has arrived.
    pub fn expected_arg_count(&self) -> (r: Option<usize>)
        ensures
            r == self.spec_expected_arg_count(),
    {
        self.decoder.expected_arg_count
    }

    /// Where decoding of the current request has got to in the buffer.
    pub fn cursor(&self) -> (r: usize)
        ensures
            r == self.spec_cursor(),
    {
        self.decoder.cursor
    }

    /// The bytes received and not yet handed out as requests.
    pub fn buffered(&self) -> (r: &[u8])
        ensures
            r@ == self.spec_buffer(),
    {
        self.decoder.buffer.as_slice()
    }

    /// The bulk strings of the current request decoded so far.
    pub fn pending_args(&self) -> (r: &Vec<Bytes>)
        ensures
            views(r@) == self.spec_pending_args(),
    {
        &self.decoder.args
    }

    pub fn is_poisoned(&self) -> (r: bool)
        ensures
            r == self.spec_poisoned(),
    {
        self.decoder.poisoned
    }
}

/// How a request is shown: its bulk strings as text, invalid UTF-8 replaced,
/// separated by spaces.
pub open spec fn request_text(args: Seq<Seq<u8>>) -> Seq<char> {
    joined(args.map_values(|b: Seq<u8>| utf8_lossy(b)), seq![' '])
}

impl Request {
    /// How the request is shown.
    pub fn to_string(&self) -> (r: String)
        ensures
            r@ == request_text(self@),
    {
        let mut buf: Vec<u8> = Vec::new();
        let ghost words: Seq<Seq<char>> = Seq::empty();
        let mut i: usize = 0;
        proof {
            assert(encode_utf8(seq![' ']) =~= seq![32u8]) by {
                lemma_ascii_chars_round_trip(seq![' ']);
                assert(ascii_bytes(seq![' ']) =~= seq![32u8]);
            }
        }
        while i < self.cstrs.len()
            invariant
                i <= self.cstrs@.len(),
                encode_utf8(seq![' ']) == seq![32u8],
                words == views(self.cstrs@.take(i as int)).map_values(|b: Seq<u8>| utf8_lossy(b)),
                buf@ == encode_utf8(joined(words, seq![' '])),
            decreases self.cstrs@.len() - i,
        {
            let text = string_from_utf8_lossy(self.cstrs[i].as_slice());
            let ghost before = joined(words, seq![' ']);
            if i > 0 {
                buf.push(32u8);
            }
            append_bytes(&mut buf, string_bytes(&text));
            proof {
                lemma_joined_push(words, seq![' '], text@);
                if i > 0 {
                    lemma_encode_utf8_concat(before, seq![' ']);
                    lemma_encode_utf8_concat(before + seq![' '], text@);
                }
                words = words.push(text@);
                assert(words =~= views(self.cstrs@.take(i + 1)).map_values(
                    |b: Seq<u8>| utf8_lossy(b),
                ));
            }
            i += 1;
        }
        proof {
            assert(self.cstrs@.take(i as int) =~= self.cstrs@);
            encode_utf8_valid_utf8(joined(words, seq![' ']));
            encode_utf8_decode_utf8(joined(words, seq![' ']));
        }
        utf8_to_string(buf.as_slice())
    }
}

} // verus!
