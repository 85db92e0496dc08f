//! Requests of the line protocol: an operation line, then length-prefixed key
//! (and, for `Put`, value) fields, each line ending in CRLF.
use std::num::ParseIntError;
use std::str::Utf8Error;
use vstd::prelude::*;
use vstd::utf8::*;

use crate::key_store::bytes_equal;
use crate::slice_reader::{
    lemma_line_len, lemma_line_of_crlf, line_len, line_of, read_exact, read_line, strip_crlf,
    strip_crlf_spec,
};
use crate::text::{
    ascii_bytes, decimal, is_digit, lemma_ascii_chars_round_trip, lemma_ascii_utf8,
    lemma_decimal, lemma_encode_utf8_concat, lemma_parse_decimal, parse_unsigned, parse_usize,
    push_decimal, push_str, str_from_utf8, string_bytes, string_from_utf8_lossy, utf8_lossy,
    utf8_to_string,
};
use crate::util::{append_bytes, crlf, CR, LF};

verus! {

broadcast use vstd::utf8::group_utf8_lib;

/// An operation on the store.
#[derive(Debug, Clone, PartialEq)]
pub enum KvCommand {
    Put(Vec<u8>, Vec<u8>),
    Get(Vec<u8>),
    Del(Vec<u8>),
}

pub ghost enum KvCommandView {
    Put(Seq<u8>, Seq<u8>),
    Get(Seq<u8>),
    Del(Seq<u8>),
}

impl View for KvCommand {
    type V = KvCommandView;

    open spec fn view(&self) -> KvCommandView {
        match *self {
            KvCommand::Put(k, v) => KvCommandView::Put(k@, v@),
            KvCommand::Get(k) => KvCommandView::Get(k@),
            KvCommand::Del(k) => KvCommandView::Del(k@),
        }
    }
}

/// A request: the command it carries.
pub struct KvRequest {
    pub command: KvCommand,
}

#[derive(Debug)]
pub enum KvRequestError {
    MissingCrlf(String),
    BadOperation(String),
    BadUtf8Bytes(Utf8Error),
    IoError(std::io::Error),
    NonIntLength(ParseIntError),
}

/// The ways a request can be malformed.
pub ghost enum KvRequestFault {
    /// No CRLF where one belongs; says where.
    MissingCrlf(Seq<char>),
    BadOperation(Seq<char>),
    BadUtf8Bytes,
    /// The bytes ran out.
    IoError,
    NonIntLength,
}

/// `e` is the error that reports `f`.
pub open spec fn reports_kv_fault(e: KvRequestError, f: KvRequestFault) -> bool {
    match f {
        KvRequestFault::MissingCrlf(at) => e matches KvRequestError::MissingCrlf(m) && m@ == at,
        KvRequestFault::BadOperation(op) => e matches KvRequestError::BadOperation(m) && m@ == op,
        KvRequestFault::BadUtf8Bytes => e is BadUtf8Bytes,
        KvRequestFault::IoError => e is IoError,
        KvRequestFault::NonIntLength => e is NonIntLength,
    }
}

/// `after` is what is left of `before` once some bytes were taken off its front.
pub open spec fn suffix_of(after: Seq<u8>, before: Seq<u8>) -> bool {
    after.len() <= before.len() && after == before.skip(before.len() - after.len())
}

pub proof fn lemma_suffix_trans(a: Seq<u8>, b: Seq<u8>, c: Seq<u8>)
    requires
        suffix_of(a, b),
        suffix_of(b, c),
    ensures
        suffix_of(a, c),
{
    assert(a =~= c.skip(c.len() - a.len()));
}

pub proof fn lemma_skip_suffix(b: Seq<u8>, n: int)
    requires
        0 <= n <= b.len(),
    ensures
        suffix_of(b.skip(n), b),
{
    assert(b.skip(n) =~= b.skip(b.len() - b.skip(n).len()));
}

/// The operation names, as bytes.
pub open spec fn put_name() -> Seq<u8> {
    seq![80u8, 117u8, 116u8]
}

pub open spec fn get_name() -> Seq<u8> {
    seq![71u8, 101u8, 116u8]
}

pub open spec fn del_name() -> Seq<u8> {
    seq![68u8, 101u8, 108u8]
}

/// A length line: decimal digits, then CRLF. Gives the length and what follows.
pub open spec fn length_outcome(b: Seq<u8>, at: Seq<char>) -> Result<(nat, Seq<u8>), KvRequestFault> {
    match strip_crlf_spec(line_of(b)) {
        None => Err(KvRequestFault::MissingCrlf(at)),
        Some(t) => if !valid_utf8(t) {
            Err(KvRequestFault::BadUtf8Bytes)
        } else {
            match parse_unsigned(decode_utf8(t), usize::MAX as nat) {
                None => Err(KvRequestFault::NonIntLength),
                Some(n) => Ok((n, b.skip(line_len(b)))),
            }
        },
    }
}

/// `n` bytes, then CRLF. Gives the bytes and what follows.
pub open spec fn payload_outcome(b: Seq<u8>, n: nat, at: Seq<char>) -> Result<(Seq<u8>, Seq<u8>), KvRequestFault> {
    if n + 2 > b.len() {
        Err(KvRequestFault::IoError)
    } else if b.subrange(n as int, n as int + 2) != crlf() {
        Err(KvRequestFault::MissingCrlf(at))
    } else {
        Ok((b.take(n as int), b.skip(n as int + 2)))
    }
}

/// A length line and then that many bytes and CRLF.
pub open spec fn field_outcome(b: Seq<u8>, len_at: Seq<char>, at: Seq<char>) -> Result<(Seq<u8>, Seq<u8>), KvRequestFault> {
    match length_outcome(b, len_at) {
        Err(f) => Err(f),
        Ok((n, rest)) => payload_outcome(rest, n, at),
    }
}

/// The command at the front of `b`, and the bytes after it.
pub open spec fn kv_command_outcome(b: Seq<u8>) -> Result<(KvCommandView, Seq<u8>), KvRequestFault> {
    match strip_crlf_spec(line_of(b)) {
        None => Err(KvRequestFault::MissingCrlf("after operation"@)),
        Some(op) => {
            let rest = b.skip(line_len(b));
            if !valid_utf8(op) {
                Err(KvRequestFault::BadUtf8Bytes)
            } else if op != put_name() && op != get_name() && op != del_name() {
                Err(KvRequestFault::BadOperation(decode_utf8(op)))
            } else {
                match field_outcome(rest, "after key length"@, "after key"@) {
                    Err(f) => Err(f),
                    Ok((key, rest)) => if op == get_name() {
                        Ok((KvCommandView::Get(key), rest))
                    } else if op == del_name() {
                        Ok((KvCommandView::Del(key), rest))
                    } else {
                        match field_outcome(rest, "after value length"@, "after put value"@) {
                            Err(f) => Err(f),
                            Ok((value, rest)) => Ok((KvCommandView::Put(key, value), rest)),
                        }
                    },
                }
            }
        },
    }
}

/// What reading a length line leaves: the bytes after the line.
pub open spec fn length_rest(b: Seq<u8>) -> Seq<u8> {
    b.skip(line_len(b))
}

/// What reading `n` bytes and CRLF leaves: nothing, when the bytes run out first.
pub open spec fn payload_rest(b: Seq<u8>, n: nat) -> Seq<u8> {
    if n + 2 > b.len() {
        Seq::empty()
    } else {
        b.skip(n as int + 2)
    }
}

/// What reading a length-prefixed field leaves.
pub open spec fn field_rest(b: Seq<u8>) -> Seq<u8> {
    match length_outcome(b, Seq::empty()) {
        Err(_) => length_rest(b),
        Ok((n, rest)) => payload_rest(rest, n),
    }
}

/// What reading a command off the front of `b` leaves, whether or not it succeeds.
pub open spec fn kv_command_rest(b: Seq<u8>) -> Seq<u8> {
    let after_op = b.skip(line_len(b));
    match strip_crlf_spec(line_of(b)) {
        None => after_op,
        Some(op) => if !valid_utf8(op) || (op != put_name() && op != get_name() && op
            != del_name()) {
            after_op
        } else {
            match field_outcome(after_op, Seq::empty(), Seq::empty()) {
                Err(_) => field_rest(after_op),
                Ok((_, after_key)) => if op == put_name() {
                    field_rest(after_key)
                } else {
                    after_key
                },
            }
        },
    }
}

/// The wire form of a length-prefixed field.
pub open spec fn encode_field(b: Seq<u8>) -> Seq<u8> {
    ascii_bytes(decimal(b.len())) + crlf() + b + crlf()
}

/// The wire form of a command.
pub open spec fn encode_kv_command(c: KvCommandView) -> Seq<u8> {
    match c {
        KvCommandView::Put(k, v) => put_name() + crlf() + encode_field(k) + encode_field(v),
        KvCommandView::Get(k) => get_name() + crlf() + encode_field(k),
        KvCommandView::Del(k) => del_name() + crlf() + encode_field(k),
    }
}

/// Reads a length line off the front of `reader`.
pub(crate) fn read_length(reader: &mut &[u8], at: &str) -> (r: Result<usize, KvRequestError>)
    ensures
        match length_outcome(old(reader)@, at@) {
            Ok((n, rest)) => r == Ok::<usize, KvRequestError>(n as usize) && final(reader)@ == rest,
            Err(f) => r matches Err(e) && reports_kv_fault(e, f) && suffix_of(
                final(reader)@,
                old(reader)@,
            ),
        },
        final(reader)@ == length_rest(old(reader)@),
{
    proof {
        lemma_line_len(old(reader)@);
        lemma_skip_suffix(old(reader)@, line_len(old(reader)@));
    }
    let line = read_line(reader);
    let digits = match strip_crlf(line.as_slice()) {
        Some(digits) => digits,
        None => return Err(KvRequestError::MissingCrlf(at.to_owned())),
    };
    let text = match str_from_utf8(digits) {
        Ok(text) => text,
        Err(e) => return Err(KvRequestError::BadUtf8Bytes(e)),
    };
    match parse_usize(text) {
        Ok(n) => Ok(n),
        Err(e) => Err(KvRequestError::NonIntLength(e)),
    }
}

/// Reads `n` bytes and the CRLF after them off the front of `reader`.
pub(crate) fn read_payload(reader: &mut &[u8], n: usize, at: &str) -> (r: Result<Vec<u8>, KvRequestError>)
    ensures
        match payload_outcome(old(reader)@, n as nat, at@) {
            Ok((bytes, rest)) => r matches Ok(v) && v@ == bytes && final(reader)@ == rest,
            Err(f) => r matches Err(e) && reports_kv_fault(e, f) && suffix_of(
                final(reader)@,
                old(reader)@,
            ),
        },
        final(reader)@ == payload_rest(old(reader)@, n as nat),
{
    let ghost b = old(reader)@;
    let bytes = match read_exact(reader, n) {
        Ok(bytes) => bytes,
        Err(e) => {
            proof {
                assert(final(reader)@ =~= b.skip(b.len() as int));
            }
            return Err(KvRequestError::IoError(e));
        },
    };
    let ghost mid = reader@;
    let end = match read_exact(reader, 2) {
        Ok(end) => end,
        Err(e) => {
            proof {
                assert(final(reader)@ =~= b.skip(b.len() as int));
            }
            return Err(KvRequestError::IoError(e));
        },
    };
    proof {
        assert(end@ =~= b.subrange(n as int, n + 2));
        assert(final(reader)@ =~= b.skip(n + 2));
        lemma_skip_suffix(b, n + 2);
    }
    if end[0] != CR || end[1] != LF {
        proof {
            assert(b.subrange(n as int, n + 2) != crlf()) by {
                if b.subrange(n as int, n + 2) == crlf() {
                    assert(end@[0] == CR && end@[1] == LF);
                }
            }
        }
        return Err(KvRequestError::MissingCrlf(at.to_owned()));
    }
    proof {
        assert(end@ =~= crlf());
    }
    Ok(bytes)
}

/// Reads a length line, then that many bytes and CRLF.
pub(crate) fn read_field(reader: &mut &[u8], len_at: &str, at: &str) -> (r: Result<Vec<u8>, KvRequestError>)
    ensures
        match field_outcome(old(reader)@, len_at@, at@) {
            Ok((bytes, rest)) => r matches Ok(v) && v@ == bytes && final(reader)@ == rest,
            Err(f) => r matches Err(e) && reports_kv_fault(e, f) && suffix_of(
                final(reader)@,
                old(reader)@,
            ),
        },
        final(reader)@ == field_rest(old(reader)@),
{
    let ghost b = old(reader)@;
    let n = match read_length(reader, len_at) {
        Ok(n) => n,
        Err(e) => return Err(e),
    };
    let ghost mid = reader@;
    proof {
        lemma_line_len(b);
        lemma_skip_suffix(b, line_len(b));
    }
    let r = read_payload(reader, n, at);
    proof {
        if r is Err {
            lemma_suffix_trans(final(reader)@, mid, b);
        }
    }
    r
}

impl KvCommand {
    /// Reads a command off the front of `reader`. On success exactly its bytes
    /// are taken; on failure, some of the bytes are.
    pub fn from_reader(reader: &mut &[u8]) -> (r: Result<KvCommand, KvRequestError>)
        ensures
            match kv_command_outcome(old(reader)@) {
                Ok((c, rest)) => r matches Ok(cmd) && cmd@ == c && final(reader)@ == rest,
                Err(f) => r matches Err(e) && reports_kv_fault(e, f) && suffix_of(
                    final(reader)@,
                    old(reader)@,
                ),
            },
            final(reader)@ == kv_command_rest(old(reader)@),
    {
        let ghost b = old(reader)@;
        proof {
            lemma_line_len(b);
            lemma_skip_suffix(b, line_len(b));
        }
        let line = read_line(reader);
        let op = match strip_crlf(line.as_slice()) {
            Some(op) => op,
            None => return Err(KvRequestError::MissingCrlf("after operation".to_owned())),
        };
        let text = match str_from_utf8(op) {
            Ok(text) => text,
            Err(e) => return Err(KvRequestError::BadUtf8Bytes(e)),
        };
        proof {
            reveal_strlit("Put");
            reveal_strlit("Get");
            reveal_strlit("Del");
            lemma_kv_names();
        }
        let is_put = bytes_equal(op, "Put".as_bytes());
        let is_get = bytes_equal(op, "Get".as_bytes());
        let is_del = bytes_equal(op, "Del".as_bytes());
        if !is_put && !is_get && !is_del {
            return Err(KvRequestError::BadOperation(text.to_owned()));
        }
        let ghost after_op = reader@;
        let key = match read_field(reader, "after key length", "after key") {
            Ok(key) => key,
            Err(e) => {
                proof {
                    lemma_suffix_trans(final(reader)@, after_op, b);
                }
                return Err(e);
            },
        };
        if is_get {
            return Ok(KvCommand::Get(key));
        }
        if is_del {
            return Ok(KvCommand::Del(key));
        }
        let ghost after_key = reader@;
        proof {
            lemma_field_suffix(after_op, "after key length"@, "after key"@);
        }
        match read_field(reader, "after value length", "after put value") {
            Ok(value) => Ok(KvCommand::Put(key, value)),
            Err(e) => {
                proof {
                    lemma_suffix_trans(final(reader)@, after_key, after_op);
                    lemma_suffix_trans(final(reader)@, after_op, b);
                }
                Err(e)
            },
        }
    }

    /// The command in wire form.
    pub fn into_bytes(self) -> (buf: Vec<u8>)
        ensures
            buf@ == encode_kv_command(self@),
    {
        let mut buf: Vec<u8> = Vec::new();
        proof {
            reveal_strlit("Put");
            reveal_strlit("Get");
            reveal_strlit("Del");
            lemma_kv_names();
        }
        match self {
            KvCommand::Put(key, value) => {
                append_bytes(&mut buf, "Put".as_bytes());
                push_crlf(&mut buf);
                push_field(&mut buf, key.as_slice());
                push_field(&mut buf, value.as_slice());
            },
            KvCommand::Get(key) => {
                append_bytes(&mut buf, "Get".as_bytes());
                push_crlf(&mut buf);
                push_field(&mut buf, key.as_slice());
            },
            KvCommand::Del(key) => {
                append_bytes(&mut buf, "Del".as_bytes());
                push_crlf(&mut buf);
                push_field(&mut buf, key.as_slice());
            },
        }
        proof {
            assert(buf@ =~= encode_kv_command(self@));
        }
        buf
    }
}

pub(crate) fn push_crlf(buf: &mut Vec<u8>)
    ensures
        final(buf)@ == old(buf)@ + crlf(),
{
    buf.push(CR);
    buf.push(LF);
    proof {
        assert(final(buf)@ =~= old(buf)@ + crlf());
    }
}

/// Appends the wire form of a length-prefixed field.
pub(crate) fn push_field(buf: &mut Vec<u8>, bytes: &[u8])
    ensures
        final(buf)@ == old(buf)@ + encode_field(bytes@),
{
    push_decimal(buf, bytes.len() as u64);
    push_crlf(buf);
    append_bytes(buf, bytes);
    push_crlf(buf);
    proof {
        assert(final(buf)@ =~= old(buf)@ + encode_field(bytes@));
    }
}

pub proof fn lemma_kv_names()
    ensures
        encode_utf8("Put"@) == put_name(),
        encode_utf8("Get"@) == get_name(),
        encode_utf8("Del"@) == del_name(),
        put_name() != get_name(),
        put_name() != del_name(),
        get_name() != del_name(),
{
    reveal_strlit("Put");
    reveal_strlit("Get");
    reveal_strlit("Del");
    lemma_ascii_chars_round_trip("Put"@);
    lemma_ascii_chars_round_trip("Get"@);
    lemma_ascii_chars_round_trip("Del"@);
    assert(ascii_bytes("Put"@) =~= put_name());
    assert(ascii_bytes("Get"@) =~= get_name());
    assert(ascii_bytes("Del"@) =~= del_name());
    assert(put_name()[0] != get_name()[0]);
    assert(put_name()[0] != del_name()[0]);
    assert(get_name()[0] != del_name()[0]);
}

/// A field that reads completely leaves a suffix of the bytes.
proof fn lemma_field_suffix(b: Seq<u8>, len_at: Seq<char>, at: Seq<char>)
    requires
        field_outcome(b, len_at, at) is Ok,
    ensures
        suffix_of(field_outcome(b, len_at, at)->Ok_0.1, b),
{
    lemma_line_len(b);
    let rest = b.skip(line_len(b));
    let n = length_outcome(b, len_at)->Ok_0.0;
    lemma_skip_suffix(b, line_len(b));
    lemma_skip_suffix(rest, n as int + 2);
    lemma_suffix_trans(rest.skip(n as int + 2), rest, b);
}

impl KvRequest {
    /// Reads a request off the front of `reader`.
    pub fn from_reader(reader: &mut &[u8]) -> (r: Result<KvRequest, KvRequestError>)
        ensures
            match kv_command_outcome(old(reader)@) {
                Ok((c, rest)) => r matches Ok(req) && req.command@ == c && final(reader)@ == rest,
                Err(f) => r matches Err(e) && reports_kv_fault(e, f) && suffix_of(
                    final(reader)@,
                    old(reader)@,
                ),
            },
            final(reader)@ == kv_command_rest(old(reader)@),
    {
        match KvCommand::from_reader(reader) {
            Ok(command) => Ok(KvRequest { command }),
            Err(e) => Err(e),
        }
    }
}

/// The decimal digits of a length hold no LF and read back as the length.
pub proof fn lemma_digits_line(n: nat)
    requires
        n <= usize::MAX,
    ensures
        forall|j: int|
            0 <= j < ascii_bytes(decimal(n)).len() ==> #[trigger] ascii_bytes(decimal(n))[j] != LF,
        valid_utf8(ascii_bytes(decimal(n))),
        parse_unsigned(decode_utf8(ascii_bytes(decimal(n))), usize::MAX as nat) == Some(n),
{
    let d = ascii_bytes(decimal(n));
    lemma_decimal(n);
    lemma_ascii_chars_round_trip(decimal(n));
    lemma_ascii_utf8(d);
    lemma_parse_decimal(n, usize::MAX as nat);
    assert forall|j: int| 0 <= j < d.len() implies #[trigger] d[j] != LF by {
        assert(is_digit(decimal(n)[j]));
    }
}

/// A field written by the encoder reads back as its bytes.
pub proof fn lemma_field_encoded(k: Seq<u8>, more: Seq<u8>, len_at: Seq<char>, at: Seq<char>)
    requires
        k.len() <= usize::MAX,
    ensures
        field_outcome(encode_field(k) + more, len_at, at) == Ok::<(Seq<u8>, Seq<u8>), KvRequestFault>(
            (k, more),
        ),
{
    let d = ascii_bytes(decimal(k.len()));
    let b = encode_field(k) + more;
    lemma_digits_line(k.len());
    assert(b =~= d + seq![CR, LF] + (k + crlf() + more));
    lemma_line_of_crlf(d, k + crlf() + more);
    assert(b.skip(line_len(b)) =~= k + crlf() + more);
    let rest = k + crlf() + more;
    assert(rest.subrange(k.len() as int, k.len() as int + 2) =~= crlf());
    assert(rest.take(k.len() as int) =~= k);
    assert(rest.skip(k.len() as int + 2) =~= more);
}

/// An operation line written by the encoder reads back as the operation.
pub proof fn lemma_op_line(name: Seq<u8>, tail: Seq<u8>)
    requires
        name == put_name() || name == get_name() || name == del_name(),
    ensures
        strip_crlf_spec(line_of(name + crlf() + tail)) == Some(name),
        (name + crlf() + tail).skip(line_len(name + crlf() + tail)) == tail,
        valid_utf8(name),
{
    lemma_kv_names();
    let b = name + crlf() + tail;
    assert(crlf() =~= seq![CR, LF]);
    lemma_line_of_crlf(name, tail);
    assert(b.skip(line_len(b)) =~= tail);
    reveal_strlit("Put");
    reveal_strlit("Get");
    reveal_strlit("Del");
    encode_utf8_valid_utf8("Put"@);
    encode_utf8_valid_utf8("Get"@);
    encode_utf8_valid_utf8("Del"@);
}

/// A command of one key and possibly a value, read back from its wire form.
proof fn lemma_round_trip_parts(name: Seq<u8>, k: Seq<u8>, v: Option<Seq<u8>>, rest: Seq<u8>)
    requires
        name == put_name() <==> v is Some,
        name == put_name() || name == get_name() || name == del_name(),
        k.len() <= usize::MAX,
        v matches Some(v) ==> v.len() <= usize::MAX,
    ensures
        ({
            let after = match v {
                Some(v) => encode_field(v) + rest,
                None => rest,
            };
            let b = name + crlf() + (encode_field(k) + after);
            &&& strip_crlf_spec(line_of(b)) == Some(name)
            &&& b.skip(line_len(b)) == encode_field(k) + after
            &&& valid_utf8(name)
            &&& field_outcome(encode_field(k) + after, "after key length"@, "after key"@) == Ok::<
                (Seq<u8>, Seq<u8>),
                KvRequestFault,
            >((k, after))
            &&& v matches Some(v) ==> field_outcome(
                after,
                "after value length"@,
                "after put value"@,
            ) == Ok::<(Seq<u8>, Seq<u8>), KvRequestFault>((v, rest))
        }),
{
    let after = match v {
        Some(v) => encode_field(v) + rest,
        None => rest,
    };
    lemma_op_line(name, encode_field(k) + after);
    lemma_field_encoded(k, after, "after key length"@, "after key"@);
    if let Some(v) = v {
        lemma_field_encoded(v, rest, "after value length"@, "after put value"@);
    }
}

proof fn lemma_get_round_trip(k: Seq<u8>, rest: Seq<u8>)
    requires
        k.len() <= usize::MAX,
    ensures
        kv_command_outcome(encode_kv_command(KvCommandView::Get(k)) + rest) == Ok::<
            (KvCommandView, Seq<u8>),
            KvRequestFault,
        >((KvCommandView::Get(k), rest)),
{
    lemma_kv_names();
    lemma_round_trip_parts(get_name(), k, None, rest);
    let b = encode_kv_command(KvCommandView::Get(k)) + rest;
    assert(b =~= get_name() + crlf() + (encode_field(k) + rest));
    let op = strip_crlf_spec(line_of(b))->0;
    assert(op == get_name());
}

proof fn lemma_del_round_trip(k: Seq<u8>, rest: Seq<u8>)
    requires
        k.len() <= usize::MAX,
    ensures
        kv_command_outcome(encode_kv_command(KvCommandView::Del(k)) + rest) == Ok::<
            (KvCommandView, Seq<u8>),
            KvRequestFault,
        >((KvCommandView::Del(k), rest)),
{
    lemma_kv_names();
    lemma_round_trip_parts(del_name(), k, None, rest);
    let b = encode_kv_command(KvCommandView::Del(k)) + rest;
    assert(b =~= del_name() + crlf() + (encode_field(k) + rest));
    let op = strip_crlf_spec(line_of(b))->0;
    assert(op == del_name());
}

proof fn lemma_put_round_trip(k: Seq<u8>, v: Seq<u8>, rest: Seq<u8>)
    requires
        k.len() <= usize::MAX,
        v.len() <= usize::MAX,
    ensures
        kv_command_outcome(encode_kv_command(KvCommandView::Put(k, v)) + rest) == Ok::<
            (KvCommandView, Seq<u8>),
            KvRequestFault,
        >((KvCommandView::Put(k, v), rest)),
{
    lemma_kv_names();
    let after = encode_field(v) + rest;
    let tail = encode_field(k) + after;
    let b = encode_kv_command(KvCommandView::Put(k, v)) + rest;
    assert(b =~= put_name() + crlf() + tail);
    lemma_op_line(put_name(), tail);
    lemma_field_encoded(k, after, "after key length"@, "after key"@);
    lemma_field_encoded(v, rest, "after value length"@, "after put value"@);
    let op = strip_crlf_spec(line_of(b))->0;
    assert(op == put_name());
    assert(b.skip(line_len(b)) == tail);
    let r1 = field_outcome(tail, "after key length"@, "after key"@);
    assert(r1 == Ok::<(Seq<u8>, Seq<u8>), KvRequestFault>((k, after)));
    let r2 = field_outcome(after, "after value length"@, "after put value"@);
    assert(r2 == Ok::<(Seq<u8>, Seq<u8>), KvRequestFault>((v, rest)));
}

/// Writing a command and reading it back gives the same command and leaves
/// whatever followed it.
pub proof fn lemma_kv_command_round_trip(c: KvCommandView, rest: Seq<u8>)
    requires
        c matches KvCommandView::Put(k, v) ==> k.len() <= usize::MAX && v.len() <= usize::MAX,
        c matches KvCommandView::Get(k) ==> k.len() <= usize::MAX,
        c matches KvCommandView::Del(k) ==> k.len() <= usize::MAX,
    ensures
        kv_command_outcome(encode_kv_command(c) + rest) == Ok::<
            (KvCommandView, Seq<u8>),
            KvRequestFault,
        >((c, rest)),
{
    match c {
        KvCommandView::Put(k, v) => lemma_put_round_trip(k, v, rest),
        KvCommandView::Get(k) => lemma_get_round_trip(k, rest),
        KvCommandView::Del(k) => lemma_del_round_trip(k, rest),
    }
}

/// How a command is shown, bytes as text with invalid UTF-8 replaced.
pub open spec fn kv_command_text(c: KvCommandView) -> Seq<char> {
    match c {
        KvCommandView::Put(k, v) => "Put key="@ + utf8_lossy(k) + " value="@ + utf8_lossy(v),
        KvCommandView::Get(k) => "Get key="@ + utf8_lossy(k),
        KvCommandView::Del(k) => "Del key="@ + utf8_lossy(k),
    }
}

impl KvCommand {
    /// How the command is shown; not meant to be read back.
    pub fn to_string(&self) -> (r: String)
        ensures
            r@ == kv_command_text(self@),
    {
        let mut buf: Vec<u8> = Vec::new();
        let ghost text: Seq<char>;
        match self {
            KvCommand::Put(key, value) => {
                let k = string_from_utf8_lossy(key.as_slice());
                let v = string_from_utf8_lossy(value.as_slice());
                push_str(&mut buf, "Put key=");
                append_bytes(&mut buf, string_bytes(&k));
                push_str(&mut buf, " value=");
                append_bytes(&mut buf, string_bytes(&v));
                proof {
                    text = "Put key="@ + k@ + " value="@ + v@;
                    lemma_encode_utf8_concat("Put key="@, k@);
                    lemma_encode_utf8_concat("Put key="@ + k@, " value="@);
                    lemma_encode_utf8_concat("Put key="@ + k@ + " value="@, v@);
                }
            },
            KvCommand::Get(key) => {
                let k = string_from_utf8_lossy(key.as_slice());
                push_str(&mut buf, "Get key=");
                append_bytes(&mut buf, string_bytes(&k));
                proof {
                    text = "Get key="@ + k@;
                    lemma_encode_utf8_concat("Get key="@, k@);
                }
            },
            KvCommand::Del(key) => {
                let k = string_from_utf8_lossy(key.as_slice());
                push_str(&mut buf, "Del key=");
                append_bytes(&mut buf, string_bytes(&k));
                proof {
                    text = "Del key="@ + k@;
                    lemma_encode_utf8_concat("Del key="@, k@);
                }
            },
        }
        proof {
            assert(buf@ =~= encode_utf8(text));
            encode_utf8_valid_utf8(text);
            encode_utf8_decode_utf8(text);
        }
        utf8_to_string(buf.as_slice())
    }
}

} // verus!
