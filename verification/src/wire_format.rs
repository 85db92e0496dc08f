//! A framed wire format: a type line (`op` or `sstr`), then an operation in
//! the line protocol, or a simple string ending in CRLF.
use vstd::prelude::*;
use vstd::utf8::*;

use crate::key_store::bytes_equal;
use crate::kv_request::{
    encode_field, encode_kv_command, length_outcome, lemma_field_encoded, lemma_kv_names,
    lemma_op_line, lemma_skip_suffix, lemma_suffix_trans, payload_outcome, push_crlf,
    push_field, read_length, read_payload, suffix_of, KvCommandView, del_name, get_name,
    put_name,
};
use crate::slice_reader::{
    lemma_line_len, lemma_line_of_crlf, line_len, line_of, read_line, strip_crlf,
    strip_crlf_spec,
};
use crate::text::{
    ascii_bytes, decimal, lemma_ascii_chars_round_trip, lemma_decimal, lemma_encode_utf8_concat,
    join_text, push_str, str_from_utf8, string_bytes, string_from_utf8_lossy, utf8_lossy, utf8_to_string,
};
use crate::kv_request::KvCommand;
use crate::kv_response::KvResponse;
use crate::kv_session::{kv_next, kv_reply};
use crate::kv_store::KvStore;
use crate::util::{append_bytes, crlf, Bytes, CR, LF};

verus! {

broadcast use vstd::utf8::group_utf8_lib;

/// A borrowed look at an operation's parts.
pub enum OperationView<'a> {
    Put { key: &'a [u8], value: &'a [u8] },
    Get { key: &'a [u8] },
    Del { key: &'a [u8] },
}

impl<'a> OperationView<'a> {
    pub closed spec fn spec_name(&self) -> Seq<char> {
        match self {
            OperationView::Put { .. } => seq!['P', 'u', 't'],
            OperationView::Get { .. } => seq!['G', 'e', 't'],
            OperationView::Del { .. } => seq!['D', 'e', 'l'],
        }
    }

    /// The name of the operation looked at.
    pub fn name(&self) -> (r: &'static str)
        ensures
            r@ == self.spec_name(),
    {
        proof {
            reveal_strlit("Put");
            reveal_strlit("Get");
            reveal_strlit("Del");
        }
        match self {
            OperationView::Put { .. } => "Put",
            OperationView::Get { .. } => "Get",
            OperationView::Del { .. } => "Del",
        }
    }
}

#[derive(Debug, Clone, PartialEq)]
enum OperationKind {
    Put(Vec<u8>, Vec<u8>),
    Get(Vec<u8>),
    Del(Vec<u8>),
}

/// An operation on the store.
#[derive(Debug, Clone, PartialEq)]
pub struct Operation {
    kind: OperationKind,
}

impl View for Operation {
    type V = KvCommandView;

    closed spec fn view(&self) -> KvCommandView {
        match self.kind {
            OperationKind::Put(k, v) => KvCommandView::Put(k@, v@),
            OperationKind::Get(k) => KvCommandView::Get(k@),
            OperationKind::Del(k) => KvCommandView::Del(k@),
        }
    }
}

#[derive(Debug, PartialEq)]
pub enum OperationParseError {
    InvalidOperationEncoding,
    InvalidKeyLenEncoding,
    InvalidKeyEncoding,
    InvalidValueLenEncoding,
    InvalidValueEncoding,
    UnknownOperation(String),
}

/// The ways an operation can be malformed.
pub ghost enum OperationFault {
    InvalidOperationEncoding,
    InvalidKeyLenEncoding,
    InvalidKeyEncoding,
    InvalidValueLenEncoding,
    InvalidValueEncoding,
    UnknownOperation(Seq<char>),
}

/// `e` is the error that reports `f`.
pub open spec fn reports_operation_fault(e: OperationParseError, f: OperationFault) -> bool {
    match f {
        OperationFault::InvalidOperationEncoding => e is InvalidOperationEncoding,
        OperationFault::InvalidKeyLenEncoding => e is InvalidKeyLenEncoding,
        OperationFault::InvalidKeyEncoding => e is InvalidKeyEncoding,
        OperationFault::InvalidValueLenEncoding => e is InvalidValueLenEncoding,
        OperationFault::InvalidValueEncoding => e is InvalidValueEncoding,
        OperationFault::UnknownOperation(s) => e matches OperationParseError::UnknownOperation(m)
            && m@ == s,
    }
}

/// An operation's name.
pub open spec fn operation_name(c: KvCommandView) -> Seq<char> {
    match c {
        KvCommandView::Put(_, _) => seq!['P', 'u', 't'],
        KvCommandView::Get(_) => seq!['G', 'e', 't'],
        KvCommandView::Del(_) => seq!['D', 'e', 'l'],
    }
}

/// A length line and then that many bytes and CRLF; any fault in the length
/// is `len_fault`, any in the bytes is `body_fault`.
pub open spec fn op_field_outcome(
    b: Seq<u8>,
    len_fault: OperationFault,
    body_fault: OperationFault,
) -> Result<(Seq<u8>, Seq<u8>), OperationFault> {
    match length_outcome(b, Seq::empty()) {
        Err(_) => Err(len_fault),
        Ok((n, rest)) => match payload_outcome(rest, n, Seq::empty()) {
            Err(_) => Err(body_fault),
            Ok(field) => Ok(field),
        },
    }
}

/// The operation at the front of `b`, and the bytes after it.
pub open spec fn operation_outcome(b: Seq<u8>) -> Result<(KvCommandView, Seq<u8>), OperationFault> {
    match strip_crlf_spec(line_of(b)) {
        None => Err(OperationFault::InvalidOperationEncoding),
        Some(op) => {
            let rest = b.skip(line_len(b));
            if !valid_utf8(op) {
                Err(OperationFault::InvalidOperationEncoding)
            } else if op != put_name() && op != get_name() && op != del_name() {
                Err(OperationFault::UnknownOperation(decode_utf8(op)))
            } else {
                match op_field_outcome(
                    rest,
                    OperationFault::InvalidKeyLenEncoding,
                    OperationFault::InvalidKeyEncoding,
                ) {
                    Err(f) => Err(f),
                    Ok((key, rest)) => if op == get_name() {
                        Ok((KvCommandView::Get(key), rest))
                    } else if op == del_name() {
                        Ok((KvCommandView::Del(key), rest))
                    } else {
                        match op_field_outcome(
                            rest,
                            OperationFault::InvalidValueLenEncoding,
                            OperationFault::InvalidValueEncoding,
                        ) {
                            Err(f) => Err(f),
                            Ok((value, rest)) => Ok((KvCommandView::Put(key, value), rest)),
                        }
                    },
                }
            }
        },
    }
}

/// Reads a field, reporting its faults as `len_fault` or `body_fault`.
fn read_op_field(
    reader: &mut &[u8],
    len_err: OperationParseError,
    body_err: OperationParseError,
    Ghost(len_fault): Ghost<OperationFault>,
    Ghost(body_fault): Ghost<OperationFault>,
) -> (r: Result<Vec<u8>, OperationParseError>)
    requires
        reports_operation_fault(len_err, len_fault),
        reports_operation_fault(body_err, body_fault),
    ensures
        match op_field_outcome(old(reader)@, len_fault, body_fault) {
            Ok((bytes, rest)) => r matches Ok(v) && v@ == bytes && final(reader)@ == rest,
            Err(f) => r matches Err(e) && reports_operation_fault(e, f) && suffix_of(
                final(reader)@,
                old(reader)@,
            ),
        },
{
    let ghost b = old(reader)@;
    proof {
        reveal_strlit("");
        assert(""@ =~= Seq::<char>::empty());
    }
    let n = match read_length(reader, "") {
        Ok(n) => n,
        Err(_) => return Err(len_err),
    };
    let ghost mid = reader@;
    proof {
        lemma_line_len(b);
        lemma_skip_suffix(b, line_len(b));
    }
    match read_payload(reader, n, "") {
        Ok(bytes) => Ok(bytes),
        Err(_) => {
            proof {
                lemma_suffix_trans(final(reader)@, mid, b);
            }
            Err(body_err)
        },
    }
}

impl Operation {
    pub fn put(key: Vec<u8>, value: Vec<u8>) -> (r: Self)
        ensures
            r@ == KvCommandView::Put(key@, value@),
    {
        Operation { kind: OperationKind::Put(key, value) }
    }

    pub fn get(key: Vec<u8>) -> (r: Self)
        ensures
            r@ == KvCommandView::Get(key@),
    {
        Operation { kind: OperationKind::Get(key) }
    }

    pub fn del(key: Vec<u8>) -> (r: Self)
        ensures
            r@ == KvCommandView::Del(key@),
    {
        Operation { kind: OperationKind::Del(key) }
    }

    /// Reads an operation off the front of `reader`. On success exactly its
    /// bytes are taken; on failure, some of the bytes are.
    pub fn from_reader(reader: &mut &[u8]) -> (r: Result<Operation, OperationParseError>)
        ensures
            match operation_outcome(old(reader)@) {
                Ok((c, rest)) => r matches Ok(op) && op@ == c && final(reader)@ == rest,
                Err(f) => r matches Err(e) && reports_operation_fault(e, f) && suffix_of(
                    final(reader)@,
                    old(reader)@,
                ),
            },
    {
        let ghost b = old(reader)@;
        proof {
            lemma_line_len(b);
            lemma_skip_suffix(b, line_len(b));
        }
        let line = read_line(reader);
        let op = match strip_crlf(line.as_slice()) {
            Some(op) => op,
            None => return Err(OperationParseError::InvalidOperationEncoding),
        };
        let text = match str_from_utf8(op) {
            Ok(text) => text,
            Err(_) => return Err(OperationParseError::InvalidOperationEncoding),
        };
        proof {
            reveal_strlit("Put");
            reveal_strlit("Get");
            reveal_strlit("Del");
            lemma_kv_names();
        }
        let is_put = bytes_equal(op, "Put".as_bytes());
        let is_get = bytes_equal(op, "Get".as_bytes());
        let is_del = bytes_equal(op, "Del".as_bytes());
        if !is_put && !is_get && !is_del {
            return Err(OperationParseError::UnknownOperation(text.to_owned()));
        }
        let ghost after_op = reader@;
        let key = match read_op_field(
            reader,
            OperationParseError::InvalidKeyLenEncoding,
            OperationParseError::InvalidKeyEncoding,
            Ghost(OperationFault::InvalidKeyLenEncoding),
            Ghost(OperationFault::InvalidKeyEncoding),
        ) {
            Ok(key) => key,
            Err(e) => {
                proof {
                    lemma_suffix_trans(final(reader)@, after_op, b);
                }
                return Err(e);
            },
        };
        if is_get {
            return Ok(Operation::get(key));
        }
        if is_del {
            return Ok(Operation::del(key));
        }
        let ghost after_key = reader@;
        proof {
            let n = length_outcome(after_op, Seq::empty())->Ok_0.0;
            let rest = after_op.skip(line_len(after_op));
            lemma_line_len(after_op);
            lemma_skip_suffix(after_op, line_len(after_op));
            lemma_skip_suffix(rest, n as int + 2);
            lemma_suffix_trans(after_key, rest, after_op);
        }
        match read_op_field(
            reader,
            OperationParseError::InvalidValueLenEncoding,
            OperationParseError::InvalidValueEncoding,
            Ghost(OperationFault::InvalidValueLenEncoding),
            Ghost(OperationFault::InvalidValueEncoding),
        ) {
            Ok(value) => Ok(Operation::put(key, value)),
            Err(e) => {
                proof {
                    lemma_suffix_trans(final(reader)@, after_key, after_op);
                    lemma_suffix_trans(final(reader)@, after_op, b);
                }
                Err(e)
            },
        }
    }

    /// The operation's name.
    pub fn name(&self) -> (r: &'static str)
        ensures
            r@ == operation_name(self@),
    {
        proof {
            reveal_strlit("Put");
            reveal_strlit("Get");
            reveal_strlit("Del");
        }
        match &self.kind {
            OperationKind::Put(_, _) => "Put",
            OperationKind::Get(_) => "Get",
            OperationKind::Del(_) => "Del",
        }
    }

    /// A borrowed look at the operation's parts.
    pub fn as_view(&self) -> (r: OperationView<'_>)
        ensures
            match (self@, r) {
                (KvCommandView::Put(k, v), OperationView::Put { key, value }) => key@ == k && value@
                    == v,
                (KvCommandView::Get(k), OperationView::Get { key }) => key@ == k,
                (KvCommandView::Del(k), OperationView::Del { key }) => key@ == k,
                _ => false,
            },
            r.spec_name() == operation_name(self@),
    {
        match &self.kind {
            OperationKind::Put(key, value) => OperationView::Put {
                key: key.as_slice(),
                value: value.as_slice(),
            },
            OperationKind::Get(key) => OperationView::Get { key: key.as_slice() },
            OperationKind::Del(key) => OperationView::Del { key: key.as_slice() },
        }
    }

    /// The operation in wire form.
    pub fn into_bytes(self) -> (buf: Vec<u8>)
        ensures
            buf@ == encode_kv_command(self@),
    {
        let mut buf: Vec<u8> = Vec::new();
        self.write_into(&mut buf);
        proof {
            assert(buf@ =~= encode_kv_command(self@));
        }
        buf
    }

    /// Appends the operation's wire form to `buf`.
    fn write_into(&self, buf: &mut Vec<u8>)
        ensures
            final(buf)@ == old(buf)@ + encode_kv_command(self@),
    {
        proof {
            reveal_strlit("Put");
            reveal_strlit("Get");
            reveal_strlit("Del");
            lemma_kv_names();
        }
        match &self.kind {
            OperationKind::Put(key, value) => {
                append_bytes(buf, "Put".as_bytes());
                push_crlf(buf);
                push_field(buf, key.as_slice());
                push_field(buf, value.as_slice());
            },
            OperationKind::Get(key) => {
                append_bytes(buf, "Get".as_bytes());
                push_crlf(buf);
                push_field(buf, key.as_slice());
            },
            OperationKind::Del(key) => {
                append_bytes(buf, "Del".as_bytes());
                push_crlf(buf);
                push_field(buf, key.as_slice());
            },
        }
        proof {
            assert(final(buf)@ =~= old(buf)@ + encode_kv_command(self@));
        }
    }
}

proof fn lemma_put_round_trip(k: Seq<u8>, v: Seq<u8>, rest: Seq<u8>)
    requires
        k.len() <= usize::MAX,
        v.len() <= usize::MAX,
    ensures
        operation_outcome(encode_kv_command(KvCommandView::Put(k, v)) + rest) == Ok::<
            (KvCommandView, Seq<u8>),
            OperationFault,
        >((KvCommandView::Put(k, v), rest)),
{
    lemma_kv_names();
    let b = encode_kv_command(KvCommandView::Put(k, v)) + rest;
    let after = encode_field(v) + rest;
    let tail = encode_field(k) + after;
    assert(b =~= put_name() + crlf() + tail);
    lemma_op_line(put_name(), tail);
    lemma_field_encoded(k, after, Seq::empty(), Seq::empty());
    lemma_field_encoded(v, rest, Seq::empty(), Seq::empty());
    assert(strip_crlf_spec(line_of(b))->0 == put_name());
    assert(b.skip(line_len(b)) == tail);
    let r1 = op_field_outcome(
        tail,
        OperationFault::InvalidKeyLenEncoding,
        OperationFault::InvalidKeyEncoding,
    );
    assert(r1 == Ok::<(Seq<u8>, Seq<u8>), OperationFault>((k, after)));
    let r2 = op_field_outcome(
        after,
        OperationFault::InvalidValueLenEncoding,
        OperationFault::InvalidValueEncoding,
    );
    assert(r2 == Ok::<(Seq<u8>, Seq<u8>), OperationFault>((v, rest)));
}

proof fn lemma_key_round_trip(c: KvCommandView, k: Seq<u8>, rest: Seq<u8>)
    requires
        k.len() <= usize::MAX,
        c == KvCommandView::Get(k) || c == KvCommandView::Del(k),
    ensures
        operation_outcome(encode_kv_command(c) + rest) == Ok::<
            (KvCommandView, Seq<u8>),
            OperationFault,
        >((c, rest)),
{
    lemma_kv_names();
    let name = if c is Get {
        get_name()
    } else {
        del_name()
    };
    let b = encode_kv_command(c) + rest;
    let tail = encode_field(k) + rest;
    assert(b =~= name + crlf() + tail);
    lemma_op_line(name, tail);
    lemma_field_encoded(k, rest, Seq::empty(), Seq::empty());
    assert(strip_crlf_spec(line_of(b))->0 == name);
    assert(b.skip(line_len(b)) == tail);
    let r1 = op_field_outcome(
        tail,
        OperationFault::InvalidKeyLenEncoding,
        OperationFault::InvalidKeyEncoding,
    );
    assert(r1 == Ok::<(Seq<u8>, Seq<u8>), OperationFault>((k, rest)));
}

/// Writing an operation and reading it back gives the same operation and
/// leaves whatever followed it.
pub proof fn lemma_operation_round_trip(c: KvCommandView, rest: Seq<u8>)
    requires
        c matches KvCommandView::Put(k, v) ==> k.len() <= usize::MAX && v.len() <= usize::MAX,
        c matches KvCommandView::Get(k) ==> k.len() <= usize::MAX,
        c matches KvCommandView::Del(k) ==> k.len() <= usize::MAX,
    ensures
        operation_outcome(encode_kv_command(c) + rest) == Ok::<
            (KvCommandView, Seq<u8>),
            OperationFault,
        >((c, rest)),
{
    match c {
        KvCommandView::Put(k, v) => lemma_put_round_trip(k, v, rest),
        KvCommandView::Get(k) => lemma_key_round_trip(c, k, rest),
        KvCommandView::Del(k) => lemma_key_round_trip(c, k, rest),
    }
}

#[derive(Debug, Clone, PartialEq)]
enum WireFormatKind {
    Cmd(Operation),
    SimpleString(String),
}

/// A framed message: an operation or a simple string.
#[derive(Debug, Clone, PartialEq)]
pub struct WireFormat {
    kind: WireFormatKind,
}

pub ghost enum WireFormatView {
    Cmd(KvCommandView),
    SimpleString(Seq<char>),
}

impl View for WireFormat {
    type V = WireFormatView;

    closed spec fn view(&self) -> WireFormatView {
        match self.kind {
            WireFormatKind::Cmd(op) => WireFormatView::Cmd(op@),
            WireFormatKind::SimpleString(s) => WireFormatView::SimpleString(s@),
        }
    }
}

#[derive(Debug, PartialEq)]
pub enum WireFormatParseError {
    InvalidTypeEncoding,
    UnknownType(String),
    InvalidCmdEncoding(OperationParseError),
    InvalidSimpleStringEncoding,
}

/// The ways a framed message can be malformed.
pub ghost enum WireFormatFault {
    InvalidTypeEncoding,
    UnknownType(Seq<char>),
    InvalidCmdEncoding(OperationFault),
    InvalidSimpleStringEncoding,
}

/// `e` is the error that reports `f`.
pub open spec fn reports_wire_fault(e: WireFormatParseError, f: WireFormatFault) -> bool {
    match f {
        WireFormatFault::InvalidTypeEncoding => e is InvalidTypeEncoding,
        WireFormatFault::UnknownType(s) => e matches WireFormatParseError::UnknownType(m) && m@
            == s,
        WireFormatFault::InvalidCmdEncoding(g) => e matches WireFormatParseError::InvalidCmdEncoding(
            inner,
        ) && reports_operation_fault(inner, g),
        WireFormatFault::InvalidSimpleStringEncoding => e is InvalidSimpleStringEncoding,
    }
}

/// The type names, as bytes.
pub open spec fn op_type() -> Seq<u8> {
    seq![111u8, 112u8]
}

pub open spec fn sstr_type() -> Seq<u8> {
    seq![115u8, 115u8, 116u8, 114u8]
}

/// The framed message at the front of `b`, and the bytes after it.
pub open spec fn wire_format_outcome(b: Seq<u8>) -> Result<(WireFormatView, Seq<u8>), WireFormatFault> {
    match strip_crlf_spec(line_of(b)) {
        None => Err(WireFormatFault::InvalidTypeEncoding),
        Some(t) => {
            let rest = b.skip(line_len(b));
            if !valid_utf8(t) {
                Err(WireFormatFault::InvalidTypeEncoding)
            } else if t == op_type() {
                match operation_outcome(rest) {
                    Ok((c, after)) => Ok((WireFormatView::Cmd(c), after)),
                    Err(f) => Err(WireFormatFault::InvalidCmdEncoding(f)),
                }
            } else if t == sstr_type() {
                match strip_crlf_spec(line_of(rest)) {
                    None => Err(WireFormatFault::InvalidSimpleStringEncoding),
                    Some(s) => if valid_utf8(s) {
                        Ok((WireFormatView::SimpleString(decode_utf8(s)), rest.skip(line_len(rest))))
                    } else {
                        Err(WireFormatFault::InvalidSimpleStringEncoding)
                    },
                }
            } else {
                Err(WireFormatFault::UnknownType(decode_utf8(t)))
            }
        },
    }
}

/// The wire form of a framed message.
pub open spec fn encode_wire_format(w: WireFormatView) -> Seq<u8> {
    match w {
        WireFormatView::Cmd(c) => op_type() + crlf() + encode_kv_command(c),
        WireFormatView::SimpleString(s) => sstr_type() + crlf() + encode_utf8(s) + crlf(),
    }
}

proof fn lemma_type_names()
    ensures
        encode_utf8("op"@) == op_type(),
        encode_utf8("sstr"@) == sstr_type(),
        op_type() != sstr_type(),
{
    reveal_strlit("op");
    reveal_strlit("sstr");
    lemma_ascii_chars_round_trip("op"@);
    lemma_ascii_chars_round_trip("sstr"@);
    assert(ascii_bytes("op"@) =~= op_type());
    assert(ascii_bytes("sstr"@) =~= sstr_type());
}

impl WireFormat {
    pub fn cmd(op: Operation) -> (r: Self)
        ensures
            r@ == WireFormatView::Cmd(op@),
    {
        WireFormat { kind: WireFormatKind::Cmd(op) }
    }

    pub fn simple_string(s: String) -> (r: Self)
        ensures
            r@ == WireFormatView::SimpleString(s@),
    {
        WireFormat { kind: WireFormatKind::SimpleString(s) }
    }

    /// The operation, when the message carries one.
    pub fn into_command(self) -> (r: Option<Operation>)
        ensures
            match self@ {
                WireFormatView::Cmd(c) => r matches Some(op) && op@ == c,
                WireFormatView::SimpleString(_) => r is None,
            },
    {
        match self.kind {
            WireFormatKind::Cmd(op) => Some(op),
            WireFormatKind::SimpleString(_) => None,
        }
    }

    /// The message in wire form.
    pub fn into_bytes(self) -> (buf: Vec<u8>)
        ensures
            buf@ == encode_wire_format(self@),
    {
        let mut buf: Vec<u8> = Vec::new();
        proof {
            lemma_type_names();
        }
        match &self.kind {
            WireFormatKind::Cmd(op) => {
                append_bytes(&mut buf, "op".as_bytes());
                push_crlf(&mut buf);
                op.write_into(&mut buf);
            },
            WireFormatKind::SimpleString(s) => {
                append_bytes(&mut buf, "sstr".as_bytes());
                push_crlf(&mut buf);
                append_bytes(&mut buf, string_bytes(s));
                push_crlf(&mut buf);
            },
        }
        proof {
            assert(buf@ =~= encode_wire_format(self@));
        }
        buf
    }

    /// Reads a framed message off the front of `reader`. On success exactly
    /// its bytes are taken; on failure, some of the bytes are.
    pub fn from_reader(reader: &mut &[u8]) -> (r: Result<Self, WireFormatParseError>)
        ensures
            match wire_format_outcome(old(reader)@) {
                Ok((w, rest)) => r matches Ok(wf) && wf@ == w && final(reader)@ == rest,
                Err(f) => r matches Err(e) && reports_wire_fault(e, f) && suffix_of(
                    final(reader)@,
                    old(reader)@,
                ),
            },
    {
        let ghost b = old(reader)@;
        proof {
            lemma_line_len(b);
            lemma_skip_suffix(b, line_len(b));
        }
        let line = read_line(reader);
        let t = match strip_crlf(line.as_slice()) {
            Some(t) => t,
            None => return Err(WireFormatParseError::InvalidTypeEncoding),
        };
        let text = match str_from_utf8(t) {
            Ok(text) => text,
            Err(_) => return Err(WireFormatParseError::InvalidTypeEncoding),
        };
        proof {
            lemma_type_names();
        }
        let ghost rest = reader@;
        if bytes_equal(t, "op".as_bytes()) {
            match Operation::from_reader(reader) {
                Ok(op) => Ok(WireFormat::cmd(op)),
                Err(e) => {
                    proof {
                        lemma_suffix_trans(final(reader)@, rest, b);
                    }
                    Err(WireFormatParseError::InvalidCmdEncoding(e))
                },
            }
        } else if bytes_equal(t, "sstr".as_bytes()) {
            proof {
                lemma_line_len(rest);
                lemma_skip_suffix(rest, line_len(rest));
            }
            let line = read_line(reader);
            proof {
                lemma_suffix_trans(final(reader)@, rest, b);
            }
            let s = match strip_crlf(line.as_slice()) {
                Some(s) => s,
                None => return Err(WireFormatParseError::InvalidSimpleStringEncoding),
            };
            match str_from_utf8(s) {
                Ok(text) => Ok(WireFormat::simple_string(text.to_owned())),
                Err(_) => Err(WireFormatParseError::InvalidSimpleStringEncoding),
            }
        } else {
            Err(WireFormatParseError::UnknownType(text.to_owned()))
        }
    }
}

/// A framed message that reads back as itself: a simple string without LF.
pub open spec fn wire_encodable(w: WireFormatView) -> bool {
    match w {
        WireFormatView::Cmd(c) => match c {
            KvCommandView::Put(k, v) => k.len() <= usize::MAX && v.len() <= usize::MAX,
            KvCommandView::Get(k) => k.len() <= usize::MAX,
            KvCommandView::Del(k) => k.len() <= usize::MAX,
        },
        WireFormatView::SimpleString(s) => forall|j: int|
            0 <= j < encode_utf8(s).len() ==> #[trigger] encode_utf8(s)[j] != LF,
    }
}

/// Writing a framed message and reading it back gives the same message and
/// leaves whatever followed it.
pub proof fn lemma_wire_format_round_trip(w: WireFormatView, rest: Seq<u8>)
    requires
        wire_encodable(w),
    ensures
        wire_format_outcome(encode_wire_format(w) + rest) == Ok::<
            (WireFormatView, Seq<u8>),
            WireFormatFault,
        >((w, rest)),
{
    lemma_type_names();
    reveal_strlit("op");
    reveal_strlit("sstr");
    encode_utf8_valid_utf8("op"@);
    encode_utf8_valid_utf8("sstr"@);
    let b = encode_wire_format(w) + rest;
    match w {
        WireFormatView::Cmd(c) => {
            let tail = encode_kv_command(c) + rest;
            assert(b =~= op_type() + seq![CR, LF] + tail);
            lemma_line_of_crlf(op_type(), tail);
            assert(b.skip(line_len(b)) =~= tail);
            lemma_operation_round_trip(c, rest);
        },
        WireFormatView::SimpleString(s) => {
            let body = encode_utf8(s);
            let tail = body + seq![CR, LF] + rest;
            assert(b =~= sstr_type() + seq![CR, LF] + tail);
            lemma_line_of_crlf(sstr_type(), tail);
            assert(b.skip(line_len(b)) =~= tail);
            lemma_line_of_crlf(body, rest);
            assert(tail.skip(body.len() as int + 2) =~= rest);
            encode_utf8_valid_utf8(s);
            encode_utf8_decode_utf8(s);
        },
    }
}

/// CR and LF as text.
pub open spec fn crlf_chars() -> Seq<char> {
    seq!['\r', '\n']
}

/// A field as text: its bytes shown with invalid UTF-8 replaced, after the
/// length of that text in UTF-8 bytes.
pub open spec fn field_text(b: Seq<u8>) -> Seq<char> {
    decimal(encode_utf8(utf8_lossy(b)).len()) + crlf_chars() + utf8_lossy(b) + crlf_chars()
}

/// How an operation is shown: its wire form, with the bytes shown as text.
pub open spec fn operation_text(c: KvCommandView) -> Seq<char> {
    operation_name(c) + crlf_chars() + match c {
        KvCommandView::Put(k, v) => field_text(k) + field_text(v),
        KvCommandView::Get(k) => field_text(k),
        KvCommandView::Del(k) => field_text(k),
    }
}

/// How a framed message is shown.
pub open spec fn wire_format_text(w: WireFormatView) -> Seq<char> {
    match w {
        WireFormatView::Cmd(c) => seq!['o', 'p'] + crlf_chars() + operation_text(c),
        WireFormatView::SimpleString(s) => seq!['s', 's', 't', 'r'] + crlf_chars() + s + crlf_chars(),
    }
}

/// Every key and value of the operation is valid UTF-8.
pub open spec fn utf8_fields(c: KvCommandView) -> bool {
    match c {
        KvCommandView::Put(k, v) => valid_utf8(k) && valid_utf8(v),
        KvCommandView::Get(k) => valid_utf8(k),
        KvCommandView::Del(k) => valid_utf8(k),
    }
}

proof fn lemma_crlf_chars()
    ensures
        encode_utf8(crlf_chars()) == crlf(),
{
    lemma_ascii_chars_round_trip(crlf_chars());
    assert(ascii_bytes(crlf_chars()) =~= crlf());
}

proof fn lemma_name_text(c: KvCommandView)
    ensures
        encode_utf8(operation_name(c)) == match c {
            KvCommandView::Put(_, _) => put_name(),
            KvCommandView::Get(_) => get_name(),
            KvCommandView::Del(_) => del_name(),
        },
{
    lemma_ascii_chars_round_trip(operation_name(c));
    assert(ascii_bytes(operation_name(c)) =~= match c {
        KvCommandView::Put(_, _) => put_name(),
        KvCommandView::Get(_) => get_name(),
        KvCommandView::Del(_) => del_name(),
    });
}

/// Appends the text of a field as UTF-8; for a field that is valid UTF-8 it is
/// the field's wire form.
fn push_field_text(buf: &mut Vec<u8>, bytes: &[u8])
    ensures
        final(buf)@ == old(buf)@ + encode_utf8(field_text(bytes@)),
        valid_utf8(bytes@) ==> encode_utf8(field_text(bytes@)) == encode_field(bytes@),
{
    let text = string_from_utf8_lossy(bytes);
    let shown = string_bytes(&text);
    push_field(buf, shown);
    proof {
        let l = utf8_lossy(bytes@);
        let d = decimal(encode_utf8(l).len());
        lemma_decimal(encode_utf8(l).len());
        lemma_ascii_chars_round_trip(d);
        lemma_crlf_chars();
        lemma_encode_utf8_concat(d, crlf_chars());
        lemma_encode_utf8_concat(d + crlf_chars(), l);
        lemma_encode_utf8_concat(d + crlf_chars() + l, crlf_chars());
        assert(encode_utf8(field_text(bytes@)) =~= encode_field(encode_utf8(l)));
        if valid_utf8(bytes@) {
            decode_utf8_encode_utf8(bytes@);
        }
    }
}

impl Operation {
    /// How the operation is shown: its wire form with keys and values as
    /// text, invalid UTF-8 replaced. For keys and values that are valid UTF-8
    /// the text is the wire form exactly.
    pub fn to_string(&self) -> (r: String)
        ensures
            r@ == operation_text(self@),
            utf8_fields(self@) ==> encode_utf8(r@) == encode_kv_command(self@),
    {
        let mut buf: Vec<u8> = Vec::new();
        let name = self.name();
        push_str(&mut buf, name);
        push_crlf(&mut buf);
        match &self.kind {
            OperationKind::Put(key, value) => {
                push_field_text(&mut buf, key.as_slice());
                push_field_text(&mut buf, value.as_slice());
            },
            OperationKind::Get(key) => {
                push_field_text(&mut buf, key.as_slice());
            },
            OperationKind::Del(key) => {
                push_field_text(&mut buf, key.as_slice());
            },
        }
        proof {
            let c = self@;
            let t = operation_text(c);
            lemma_crlf_chars();
            lemma_name_text(c);
            lemma_encode_utf8_concat(operation_name(c), crlf_chars());
            match c {
                KvCommandView::Put(k, v) => {
                    lemma_encode_utf8_concat(field_text(k), field_text(v));
                    lemma_encode_utf8_concat(operation_name(c) + crlf_chars(), field_text(k) + field_text(v));
                },
                KvCommandView::Get(k) => {
                    lemma_encode_utf8_concat(operation_name(c) + crlf_chars(), field_text(k));
                },
                KvCommandView::Del(k) => {
                    lemma_encode_utf8_concat(operation_name(c) + crlf_chars(), field_text(k));
                },
            }
            assert(buf@ =~= encode_utf8(t));
            encode_utf8_valid_utf8(t);
            encode_utf8_decode_utf8(t);
        }
        utf8_to_string(buf.as_slice())
    }
}

impl WireFormat {
    /// How the message is shown; a simple string, or an operation whose keys
    /// and values are valid UTF-8, shows as exactly its wire form.
    pub fn to_string(&self) -> (r: String)
        ensures
            r@ == wire_format_text(self@),
            (self@ matches WireFormatView::Cmd(c) ==> utf8_fields(c)) ==> encode_utf8(r@)
                == encode_wire_format(self@),
    {
        let mut buf: Vec<u8> = Vec::new();
        let ghost head: Seq<char>;
        proof {
            lemma_type_names();
            lemma_crlf_chars();
            reveal_strlit("op");
            reveal_strlit("sstr");
        }
        match &self.kind {
            WireFormatKind::Cmd(op) => {
                push_str(&mut buf, "op");
                push_crlf(&mut buf);
                let text = op.to_string();
                append_bytes(&mut buf, string_bytes(&text));
                proof {
                    head = seq!['o', 'p'] + crlf_chars();
                    assert("op"@ =~= seq!['o', 'p']);
                    lemma_encode_utf8_concat(seq!['o', 'p'], crlf_chars());
                    lemma_encode_utf8_concat(head, text@);
                }
            },
            WireFormatKind::SimpleString(s) => {
                push_str(&mut buf, "sstr");
                push_crlf(&mut buf);
                append_bytes(&mut buf, string_bytes(s));
                push_crlf(&mut buf);
                proof {
                    head = seq!['s', 's', 't', 'r'] + crlf_chars();
                    assert("sstr"@ =~= seq!['s', 's', 't', 'r']);
                    lemma_encode_utf8_concat(seq!['s', 's', 't', 'r'], crlf_chars());
                    lemma_encode_utf8_concat(head, s@);
                    lemma_encode_utf8_concat(head + s@, crlf_chars());
                }
            },
        }
        proof {
            let t = wire_format_text(self@);
            assert(buf@ =~= encode_utf8(t));
            encode_utf8_valid_utf8(t);
            encode_utf8_decode_utf8(t);
        }
        utf8_to_string(buf.as_slice())
    }
}

/// The message of an operation error.
pub open spec fn operation_error_text(e: OperationParseError) -> Seq<char> {
    match e {
        OperationParseError::InvalidOperationEncoding => "Failed to deserialize Operation, expected a command (e.g. Put, Get, etc) followed by a CRLF!"@,
        OperationParseError::InvalidKeyLenEncoding => "Failed to deserialize Operation, expected usize for key length followed by a CRLF!"@,
        OperationParseError::InvalidKeyEncoding => "Failed to deserialize Operation, expected bytes of <key_length> length followed by a CRLF!"@,
        OperationParseError::InvalidValueEncoding => "Failed to deserialize Operation, expected bytes of <value_length> length followed by a CRLF!"@,
        OperationParseError::InvalidValueLenEncoding => "Failed to deserialize Operation, expected usize for value length followed by a CRLF!"@,
        OperationParseError::UnknownOperation(op) => "Failed to deserialize Operation, expected one of [\"Put\", \"Get\", \"Del\"], got: "@
            + op@,
    }
}

/// The message of a framed-message error.
pub open spec fn wire_error_text(e: WireFormatParseError) -> Seq<char> {
    match e {
        WireFormatParseError::InvalidTypeEncoding => "Failed to deserialize WireFormat, expected a type identifier (one of [\"Cmd\", \"SimpleString\"]) followed by a CRLF!"@,
        WireFormatParseError::UnknownType(t) => "Failed to deserialize WireFormat, expected one of [\"Cmd\", \"SimpleString\"], got: "@
            + t@,
        WireFormatParseError::InvalidCmdEncoding(inner) => operation_error_text(inner),
        WireFormatParseError::InvalidSimpleStringEncoding => "Failed to deserialize WireFormat, expected a UTF-8 string followed by a CRLF!"@,
    }
}

impl OperationParseError {
    /// The error's message.
    pub fn to_string(&self) -> (r: String)
        ensures
            r@ == operation_error_text(*self),
    {
        match self {
            OperationParseError::InvalidOperationEncoding => "Failed to deserialize Operation, expected a command (e.g. Put, Get, etc) followed by a CRLF!".to_owned(),
            OperationParseError::InvalidKeyLenEncoding => "Failed to deserialize Operation, expected usize for key length followed by a CRLF!".to_owned(),
            OperationParseError::InvalidKeyEncoding => "Failed to deserialize Operation, expected bytes of <key_length> length followed by a CRLF!".to_owned(),
            OperationParseError::InvalidValueEncoding => "Failed to deserialize Operation, expected bytes of <value_length> length followed by a CRLF!".to_owned(),
            OperationParseError::InvalidValueLenEncoding => "Failed to deserialize Operation, expected usize for value length followed by a CRLF!".to_owned(),
            OperationParseError::UnknownOperation(op) => join_text(
                "Failed to deserialize Operation, expected one of [\"Put\", \"Get\", \"Del\"], got: ",
                op.as_str(),
            ),
        }
    }
}

impl WireFormatParseError {
    /// The error's message.
    pub fn to_string(&self) -> (r: String)
        ensures
            r@ == wire_error_text(*self),
    {
        match self {
            WireFormatParseError::InvalidTypeEncoding => "Failed to deserialize WireFormat, expected a type identifier (one of [\"Cmd\", \"SimpleString\"]) followed by a CRLF!".to_owned(),
            WireFormatParseError::UnknownType(t) => join_text(
                "Failed to deserialize WireFormat, expected one of [\"Cmd\", \"SimpleString\"], got: ",
                t.as_str(),
            ),
            WireFormatParseError::InvalidCmdEncoding(inner) => inner.to_string(),
            WireFormatParseError::InvalidSimpleStringEncoding => "Failed to deserialize WireFormat, expected a UTF-8 string followed by a CRLF!".to_owned(),
        }
    }
}

impl Operation {
    /// Runs the operation on the store, as the line server runs the command
    /// it stands for: `Put` stores the value (unless the store is full), `Del`
    /// removes the key, `Get` answers the value, lent out of the store.
    pub fn execute<'a>(self, store: &'a mut KvStore<Bytes>) -> (r: KvResponse<'a>)
        requires
            old(store).wf(),
        ensures
            final(store).wf(),
            final(store)@.map_values(|v: Bytes| v@) == kv_next(old(store)@, self@),
            r@ == kv_reply(old(store)@, self@),
    {
        let command = match self.kind {
            OperationKind::Put(key, value) => KvCommand::Put(key, value),
            OperationKind::Get(key) => KvCommand::Get(key),
            OperationKind::Del(key) => KvCommand::Del(key),
        };
        command.execute(store)
    }
}

} // verus!
