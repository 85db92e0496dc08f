//! Responses of the line protocol: a prefix byte, then a body that ends in CRLF.
use std::borrow::Cow;
use std::num::ParseIntError;
use std::str::Utf8Error;
use vstd::prelude::*;
use vstd::utf8::*;

use crate::kv_request::{lemma_digits_line, lemma_skip_suffix, lemma_suffix_trans, suffix_of};
use crate::slice_reader::{
    lemma_line_len, lemma_line_of_crlf, line_len, line_of, read_exact, read_line, strip_crlf,
    strip_crlf_spec,
};
use crate::text::{
    ascii_bytes, decimal, is_digit, lemma_ascii_chars_round_trip, lemma_ascii_utf8,
    lemma_decimal, lemma_encode_utf8_concat, lemma_parse_decimal, parse_unsigned, parse_usize,
    push_decimal, push_str, str_from_utf8, string_bytes, string_from_utf8_lossy, utf8_lossy,
    utf8_to_string,
};
use crate::util::{append_bytes, crlf, CR, LF};

verus! {

broadcast use vstd::utf8::group_utf8_lib;

pub const OKAY_PREFIX: u8 = 43u8;

pub const ERROR_PREFIX: u8 = 45u8;

pub const VALUE_PREFIX: u8 = 36u8;

pub const NOTFOUND_PREFIX: u8 = 33u8;

/// A reply to a request.
#[derive(Debug, PartialEq)]
pub enum KvResponse<'a> {
    Okay,
    Error(String),
    Value(Cow<'a, [u8]>),
    NotFound,
}

pub ghost enum KvResponseView {
    Okay,
    Error(Seq<char>),
    Value(Seq<u8>),
    NotFound,
}

impl<'a> View for KvResponse<'a> {
    type V = KvResponseView;

    open spec fn view(&self) -> KvResponseView {
        match *self {
            KvResponse::Okay => KvResponseView::Okay,
            KvResponse::Error(m) => KvResponseView::Error(m@),
            KvResponse::Value(v) => KvResponseView::Value(v@),
            KvResponse::NotFound => KvResponseView::NotFound,
        }
    }
}

#[derive(Debug)]
pub enum KvResponseError {
    BadFirstChar(char),
    BadUtf8(Utf8Error),
    MissingCrlf,
    Io(std::io::Error),
    NonIntLength(ParseIntError),
}

/// The ways a response can be malformed.
pub ghost enum KvResponseFault {
    BadFirstChar(char),
    BadUtf8,
    MissingCrlf,
    /// The bytes ran out.
    Io,
    NonIntLength,
}

/// `e` is the error that reports `f`.
pub open spec fn reports_response_fault(e: KvResponseError, f: KvResponseFault) -> bool {
    match f {
        KvResponseFault::BadFirstChar(c) => e == KvResponseError::BadFirstChar(c),
        KvResponseFault::BadUtf8 => e is BadUtf8,
        KvResponseFault::MissingCrlf => e is MissingCrlf,
        KvResponseFault::Io => e is Io,
        KvResponseFault::NonIntLength => e is NonIntLength,
    }
}

/// Two bytes that must be CRLF.
pub open spec fn crlf_outcome(b: Seq<u8>) -> Result<Seq<u8>, KvResponseFault> {
    if b.len() < 2 {
        Err(KvResponseFault::Io)
    } else if b.take(2) != crlf() {
        Err(KvResponseFault::MissingCrlf)
    } else {
        Ok(b.skip(2))
    }
}

/// The response at the front of `b`, and the bytes after it.
pub open spec fn kv_response_outcome(b: Seq<u8>) -> Result<(KvResponseView, Seq<u8>), KvResponseFault> {
    if b.len() < 1 {
        Err(KvResponseFault::Io)
    } else {
        let rest = b.skip(1);
        if b[0] == OKAY_PREFIX {
            match crlf_outcome(rest) {
                Ok(after) => Ok((KvResponseView::Okay, after)),
                Err(f) => Err(f),
            }
        } else if b[0] == NOTFOUND_PREFIX {
            match crlf_outcome(rest) {
                Ok(after) => Ok((KvResponseView::NotFound, after)),
                Err(f) => Err(f),
            }
        } else if b[0] == ERROR_PREFIX {
            match strip_crlf_spec(line_of(rest)) {
                None => Err(KvResponseFault::MissingCrlf),
                Some(m) => if valid_utf8(m) {
                    Ok((KvResponseView::Error(decode_utf8(m)), rest.skip(line_len(rest))))
                } else {
                    Err(KvResponseFault::BadUtf8)
                },
            }
        } else if b[0] == VALUE_PREFIX {
            match strip_crlf_spec(line_of(rest)) {
                None => Err(KvResponseFault::MissingCrlf),
                Some(d) => if !valid_utf8(d) {
                    Err(KvResponseFault::BadUtf8)
                } else {
                    match parse_unsigned(decode_utf8(d), usize::MAX as nat) {
                        None => Err(KvResponseFault::NonIntLength),
                        Some(n) => {
                            let body = rest.skip(line_len(rest));
                            if n > body.len() {
                                Err(KvResponseFault::Io)
                            } else {
                                match crlf_outcome(body.skip(n as int)) {
                                    Ok(after) => Ok(
                                        (KvResponseView::Value(body.take(n as int)), after),
                                    ),
                                    Err(f) => Err(f),
                                }
                            }
                        },
                    }
                },
            }
        } else {
            Err(KvResponseFault::BadFirstChar(b[0] as char))
        }
    }
}

/// The wire form of a response.
pub open spec fn encode_kv_response(r: KvResponseView) -> Seq<u8> {
    match r {
        KvResponseView::Okay => seq![OKAY_PREFIX] + crlf(),
        KvResponseView::Error(m) => seq![ERROR_PREFIX] + encode_utf8(m) + crlf(),
        KvResponseView::Value(v) => seq![VALUE_PREFIX] + ascii_bytes(decimal(v.len())) + crlf() + v
            + crlf(),
        KvResponseView::NotFound => seq![NOTFOUND_PREFIX] + crlf(),
    }
}

/// Reads two bytes that must be CRLF.
fn expect_crlf(reader: &mut &[u8]) -> (r: Result<(), KvResponseError>)
    ensures
        match crlf_outcome(old(reader)@) {
            Ok(after) => r is Ok && final(reader)@ == after,
            Err(f) => r matches Err(e) && reports_response_fault(e, f) && suffix_of(
                final(reader)@,
                old(reader)@,
            ),
        },
{
    let ghost b = old(reader)@;
    let end = match read_exact(reader, 2) {
        Ok(end) => end,
        Err(e) => {
            proof {
                assert(final(reader)@ =~= b.skip(b.len() as int));
            }
            return Err(KvResponseError::Io(e));
        },
    };
    proof {
        lemma_skip_suffix(b, 2);
    }
    if end[0] != CR || end[1] != LF {
        proof {
            assert(b.take(2) != crlf()) by {
                if b.take(2) == crlf() {
                    assert(end@[0] == CR && end@[1] == LF);
                }
            }
        }
        return Err(KvResponseError::MissingCrlf);
    }
    proof {
        assert(b.take(2) =~= crlf());
    }
    Ok(())
}

impl<'a> KvResponse<'a> {
    fn prefix(&self) -> (b: u8)
        ensures
            b == encode_kv_response(self@)[0],
    {
        match self {
            KvResponse::Okay => OKAY_PREFIX,
            KvResponse::Error(_) => ERROR_PREFIX,
            KvResponse::Value(_) => VALUE_PREFIX,
            KvResponse::NotFound => NOTFOUND_PREFIX,
        }
    }

    /// Reads a response off the front of `reader`. On success exactly its bytes
    /// are taken; on failure, some of the bytes are.
    pub fn from_reader(reader: &mut &[u8]) -> (r: Result<KvResponse<'a>, KvResponseError>)
        ensures
            match kv_response_outcome(old(reader)@) {
                Ok((v, rest)) => r matches Ok(resp) && resp@ == v && final(reader)@ == rest,
                Err(f) => r matches Err(e) && reports_response_fault(e, f) && suffix_of(
                    final(reader)@,
                    old(reader)@,
                ),
            },
    {
        let ghost b = old(reader)@;
        let first = match read_exact(reader, 1) {
            Ok(first) => first,
            Err(e) => {
                proof {
                    assert(final(reader)@ =~= b.skip(b.len() as int));
                }
                return Err(KvResponseError::Io(e));
            },
        };
        let ghost rest = reader@;
        proof {
            assert(first@[0] == b[0]);
            lemma_skip_suffix(b, 1);
            lemma_line_len(rest);
            lemma_skip_suffix(rest, line_len(rest));
        }
        let prefix = first[0];
        if prefix == OKAY_PREFIX || prefix == NOTFOUND_PREFIX {
            match expect_crlf(reader) {
                Ok(()) => {},
                Err(e) => {
                    proof {
                        lemma_suffix_trans(final(reader)@, rest, b);
                    }
                    return Err(e);
                },
            }
            if prefix == OKAY_PREFIX {
                Ok(KvResponse::Okay)
            } else {
                Ok(KvResponse::NotFound)
            }
        } else if prefix == ERROR_PREFIX {
            let line = read_line(reader);
            proof {
                lemma_suffix_trans(final(reader)@, rest, b);
            }
            let msg = match strip_crlf(line.as_slice()) {
                Some(msg) => msg,
                None => return Err(KvResponseError::MissingCrlf),
            };
            match str_from_utf8(msg) {
                Ok(text) => Ok(KvResponse::Error(text.to_owned())),
                Err(e) => Err(KvResponseError::BadUtf8(e)),
            }
        } else if prefix == VALUE_PREFIX {
            let line = read_line(reader);
            let ghost body = reader@;
            proof {
                lemma_suffix_trans(body, rest, b);
            }
            let digits = match strip_crlf(line.as_slice()) {
                Some(digits) => digits,
                None => return Err(KvResponseError::MissingCrlf),
            };
            let text = match str_from_utf8(digits) {
                Ok(text) => text,
                Err(e) => return Err(KvResponseError::BadUtf8(e)),
            };
            let n = match parse_usize(text) {
                Ok(n) => n,
                Err(e) => return Err(KvResponseError::NonIntLength(e)),
            };
            let value = match read_exact(reader, n) {
                Ok(value) => value,
                Err(e) => {
                    proof {
                        assert(final(reader)@ =~= b.skip(b.len() as int));
                    }
                    return Err(KvResponseError::Io(e));
                },
            };
            let ghost tail = reader@;
            proof {
                lemma_skip_suffix(body, n as int);
                lemma_suffix_trans(tail, body, b);
            }
            match expect_crlf(reader) {
                Ok(()) => {},
                Err(e) => {
                    proof {
                        lemma_suffix_trans(final(reader)@, tail, b);
                    }
                    return Err(e);
                },
            }
            Ok(KvResponse::Value(Cow::Owned(value)))
        } else {
            proof {
                assert(final(reader)@ == rest);
            }
            Err(KvResponseError::BadFirstChar(prefix as char))
        }
    }

    /// Appends the response's wire form to `w`; writing to a vector cannot fail.
    pub fn write_to(&self, w: &mut Vec<u8>) -> (r: Result<(), std::io::Error>)
        ensures
            r is Ok,
            final(w)@ == old(w)@ + encode_kv_response(self@),
    {
        w.push(self.prefix());
        match self {
            KvResponse::Okay => {},
            KvResponse::Error(e) => {
                append_bytes(w, string_bytes(e));
            },
            KvResponse::Value(bytes) => {
                let slice: &[u8] = match bytes {
                    Cow::Borrowed(b) => b,
                    Cow::Owned(o) => o.as_slice(),
                };
                push_decimal(w, slice.len() as u64);
                w.push(CR);
                w.push(LF);
                append_bytes(w, slice);
            },
            KvResponse::NotFound => {},
        }
        w.push(CR);
        w.push(LF);
        proof {
            assert(final(w)@ =~= old(w)@ + encode_kv_response(self@));
        }
        Ok(())
    }
}

/// A response that reads back as itself: an error message without LF.
pub open spec fn kv_encodable(r: KvResponseView) -> bool {
    match r {
        KvResponseView::Error(m) => forall|j: int|
            0 <= j < encode_utf8(m).len() ==> #[trigger] encode_utf8(m)[j] != LF,
        KvResponseView::Value(v) => v.len() <= usize::MAX,
        _ => true,
    }
}

/// Writing a response and reading it back gives the same response and leaves
/// whatever followed it.
pub proof fn lemma_kv_response_round_trip(r: KvResponseView, rest: Seq<u8>)
    requires
        kv_encodable(r),
    ensures
        kv_response_outcome(encode_kv_response(r) + rest) == Ok::<
            (KvResponseView, Seq<u8>),
            KvResponseFault,
        >((r, rest)),
{
    let b = encode_kv_response(r) + rest;
    assert(b.skip(1) =~= encode_kv_response(r).skip(1) + rest);
    match r {
        KvResponseView::Okay => {
            assert(b.skip(1) =~= crlf() + rest);
            assert((crlf() + rest).take(2) =~= crlf());
            assert((crlf() + rest).skip(2) =~= rest);
        },
        KvResponseView::NotFound => {
            assert(b.skip(1) =~= crlf() + rest);
            assert((crlf() + rest).take(2) =~= crlf());
            assert((crlf() + rest).skip(2) =~= rest);
        },
        KvResponseView::Error(m) => {
            let body = encode_utf8(m);
            assert(b.skip(1) =~= body + seq![CR, LF] + rest);
            lemma_line_of_crlf(body, rest);
            assert((body + seq![CR, LF] + rest).skip(body.len() as int + 2) =~= rest);
            encode_utf8_valid_utf8(m);
            encode_utf8_decode_utf8(m);
        },
        KvResponseView::Value(v) => {
            let d = ascii_bytes(decimal(v.len()));
            let after = v + crlf() + rest;
            lemma_digits_line(v.len());
            assert(b.skip(1) =~= d + seq![CR, LF] + after);
            lemma_line_of_crlf(d, after);
            let rest1 = d + seq![CR, LF] + after;
            assert(rest1.skip(line_len(rest1)) =~= after);
            assert(after.take(v.len() as int) =~= v);
            assert(after.skip(v.len() as int) =~= crlf() + rest);
            assert((crlf() + rest).take(2) =~= crlf());
            assert((crlf() + rest).skip(2) =~= rest);
        },
    }
}

/// How a response is shown; a value's invalid UTF-8 is replaced.
pub open spec fn kv_response_text(r: KvResponseView) -> Seq<char> {
    match r {
        KvResponseView::Okay => "Okay"@,
        KvResponseView::Error(m) => "Error: "@ + m,
        KvResponseView::Value(v) => "Value: "@ + utf8_lossy(v),
        KvResponseView::NotFound => "NotFound"@,
    }
}

impl<'a> KvResponse<'a> {
    /// How the response is shown; not meant to be read back.
    pub fn to_string(&self) -> (r: String)
        ensures
            r@ == kv_response_text(self@),
    {
        let mut buf: Vec<u8> = Vec::new();
        let ghost text: Seq<char>;
        match self {
            KvResponse::Okay => {
                push_str(&mut buf, "Okay");
                proof {
                    text = "Okay"@;
                }
            },
            KvResponse::Error(e) => {
                push_str(&mut buf, "Error: ");
                append_bytes(&mut buf, string_bytes(e));
                proof {
                    text = "Error: "@ + e@;
                    lemma_encode_utf8_concat("Error: "@, e@);
                }
            },
            KvResponse::Value(bytes) => {
                let slice: &[u8] = match bytes {
                    Cow::Borrowed(b) => b,
                    Cow::Owned(o) => o.as_slice(),
                };
                let v = string_from_utf8_lossy(slice);
                push_str(&mut buf, "Value: ");
                append_bytes(&mut buf, string_bytes(&v));
                proof {
                    text = "Value: "@ + v@;
                    lemma_encode_utf8_concat("Value: "@, v@);
                }
            },
            KvResponse::NotFound => {
                push_str(&mut buf, "NotFound");
                proof {
                    text = "NotFound"@;
                }
            },
        }
        proof {
            assert(buf@ =~= encode_utf8(text));
            encode_utf8_valid_utf8(text);
            encode_utf8_decode_utf8(text);
        }
        utf8_to_string(buf.as_slice())
    }
}

} // verus!
