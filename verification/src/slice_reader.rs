//! Reading lines and fixed-size chunks off the front of a byte slice, as
//! `BufRead::read_until` and `Read::read_exact` do on `&[u8]`.
use vstd::prelude::*;
use vstd::slice::slice_subrange;
use vstd::slice::slice_to_vec;

use crate::util::{CR, LF};

verus! {

/// `i` is where the first LF of `b` is.
pub open spec fn is_first_lf(b: Seq<u8>, i: int) -> bool {
    0 <= i < b.len() && b[i] == LF && forall|j: int| 0 <= j < i ==> b[j] != LF
}

/// How many bytes `read_until(b'\n', ..)` takes: up to and including the first
/// LF, or all of them when there is none.
pub open spec fn line_len(b: Seq<u8>) -> int {
    if exists|i: int| is_first_lf(b, i) {
        (choose|i: int| is_first_lf(b, i)) + 1
    } else {
        b.len() as int
    }
}

/// The line `read_until(b'\n', ..)` takes off the front of `b`.
pub open spec fn line_of(b: Seq<u8>) -> Seq<u8> {
    b.take(line_len(b))
}

/// A line without its CRLF, when it ends with one.
pub open spec fn strip_crlf_spec(line: Seq<u8>) -> Option<Seq<u8>> {
    if line.len() >= 2 && line[line.len() - 2] == CR && line[line.len() - 1] == LF {
        Some(line.take(line.len() - 2))
    } else {
        None
    }
}

pub proof fn lemma_first_lf(b: Seq<u8>, i: int)
    requires
        is_first_lf(b, i),
    ensures
        line_len(b) == i + 1,
{
    let j = choose|j: int| is_first_lf(b, j);
    assert(is_first_lf(b, j));
    if j < i {
        assert(b[j] != LF);
    } else if i < j {
        assert(b[i] != LF);
    }
}

/// A line is never longer than the bytes it is read from.
pub proof fn lemma_line_len(b: Seq<u8>)
    ensures
        0 <= line_len(b) <= b.len(),
{
    if exists|i: int| is_first_lf(b, i) {
        let i = choose|i: int| is_first_lf(b, i);
        assert(is_first_lf(b, i));
    }
}

/// A line that a CRLF ends, followed by anything, reads as that line.
pub proof fn lemma_line_of_crlf(body: Seq<u8>, tail: Seq<u8>)
    requires
        forall|j: int| 0 <= j < body.len() ==> body[j] != LF,
    ensures
        line_len(body + seq![CR, LF] + tail) == body.len() + 2,
        line_of(body + seq![CR, LF] + tail) == body + seq![CR, LF],
        strip_crlf_spec(body + seq![CR, LF]) == Some(body),
{
    let b = body + seq![CR, LF] + tail;
    assert(is_first_lf(b, body.len() as int + 1)) by {
        assert forall|j: int| 0 <= j < body.len() + 1 implies b[j] != LF by {
            if j < body.len() {
                assert(b[j] == body[j]);
            }
        }
    }
    lemma_first_lf(b, body.len() as int + 1);
    assert(line_of(b) =~= body + seq![CR, LF]);
    assert((body + seq![CR, LF]).take(body.len() as int) =~= body);
}

/// `read_until(b'\n', ..)` on a slice: takes the first line off the front of `reader`.
pub fn read_line(reader: &mut &[u8]) -> (line: Vec<u8>)
    ensures
        line@ == line_of(old(reader)@),
        final(reader)@ == old(reader)@.skip(line_len(old(reader)@)),
{
    let bytes: &[u8] = *reader;
    let mut i: usize = 0;
    while i < bytes.len()
        invariant
            bytes@ == old(reader)@,
            i <= bytes@.len(),
            forall|j: int| 0 <= j < i ==> bytes@[j] != LF,
        decreases bytes@.len() - i,
    {
        if bytes[i] == LF {
            proof {
                lemma_first_lf(bytes@, i as int);
            }
            let line = slice_to_vec(slice_subrange(bytes, 0, i + 1));
            *reader = slice_subrange(bytes, i + 1, bytes.len());
            proof {
                assert(line@ =~= line_of(bytes@));
                assert(final(reader)@ =~= bytes@.skip(i + 1));
            }
            return line;
        }
        i += 1;
    }
    proof {
        assert(!exists|k: int| is_first_lf(bytes@, k));
        assert(bytes@.take(bytes@.len() as int) =~= bytes@);
    }
    let line = slice_to_vec(bytes);
    *reader = slice_subrange(bytes, bytes.len(), bytes.len());
    proof {
        assert(final(reader)@ =~= bytes@.skip(bytes@.len() as int));
    }
    line
}

/// The line without its CRLF, when it ends with one.
pub fn strip_crlf(line: &[u8]) -> (r: Option<&[u8]>)
    ensures
        match r {
            Some(s) => strip_crlf_spec(line@) == Some(s@),
            None => strip_crlf_spec(line@) is None,
        },
{
    let n = line.len();
    if n >= 2 && line[n - 2] == CR && line[n - 1] == LF {
        let s = slice_subrange(line, 0, n - 2);
        proof {
            assert(s@ =~= line@.take(n - 2));
        }
        Some(s)
    } else {
        None
    }
}

/// The error `read_exact` reports when the bytes run out: a new
/// `std::io::Error` of kind `UnexpectedEof`. What the error holds is opaque here.
#[verifier::external_body]
pub(crate) fn unexpected_eof() -> (e: std::io::Error) {
    std::io::Error::from(std::io::ErrorKind::UnexpectedEof)
}

/// `read_exact` of `n` bytes on a slice: the next `n` bytes, or an error when
/// fewer remain, in which case the rest of the slice is used up.
pub fn read_exact(reader: &mut &[u8], n: usize) -> (r: Result<Vec<u8>, std::io::Error>)
    ensures
        n <= old(reader)@.len() ==> r is Ok && r->Ok_0@ == old(reader)@.take(n as int)
            && final(reader)@ == old(reader)@.skip(n as int),
        n > old(reader)@.len() ==> r is Err && final(reader)@.len() == 0,
{
    let bytes: &[u8] = *reader;
    if n > bytes.len() {
        *reader = slice_subrange(bytes, bytes.len(), bytes.len());
        return Err(unexpected_eof());
    }
    let chunk = slice_to_vec(slice_subrange(bytes, 0, n));
    *reader = slice_subrange(bytes, n, bytes.len());
    proof {
        assert(chunk@ =~= bytes@.take(n as int));
        assert(final(reader)@ =~= bytes@.skip(n as int));
    }
    Ok(chunk)
}

} // verus!
