use vstd::prelude::*;
use vstd::slice::slice_subrange;

verus! {

/// Raw bytes as they travel over the wire and live in the store.
pub type Bytes = Vec<u8>;

/// The `$` that starts a bulk string.
pub const CSTRING_BYTE: u8 = 36u8;

/// The longest bulk string a peer may announce: 512 MiB.
pub const MAX_COMPLEX_STRING_LENGTH: usize = 536870912usize;

/// `\r`, then `\n`.
pub const CR: u8 = 13u8;
pub const LF: u8 = 10u8;

/// The bytes `\r\n` that end every line of the protocols.
pub open spec fn crlf() -> Seq<u8> {
    seq![CR, LF]
}

/// Whether a CRLF starts at index `i` of `s`.
pub open spec fn crlf_at(s: Seq<u8>, i: int) -> bool {
    0 <= i && i + 1 < s.len() && s[i] == CR && s[i + 1] == LF
}

/// `i` is where the first CRLF of `s` starts.
pub open spec fn is_line_end(s: Seq<u8>, i: int) -> bool {
    crlf_at(s, i) && forall|j: int| 0 <= j < i ==> !crlf_at(s, j)
}

/// Where the first CRLF of `s` starts, if there is one.
pub open spec fn first_crlf(s: Seq<u8>) -> Option<int> {
    if exists|i: int| is_line_end(s, i) {
        Some(choose|i: int| is_line_end(s, i))
    } else {
        None
    }
}

/// A bytes sequence has at most one first CRLF.
pub proof fn lemma_first_crlf(s: Seq<u8>, i: int)
    requires
        is_line_end(s, i),
    ensures
        first_crlf(s) == Some(i),
{
    let j = choose|j: int| is_line_end(s, j);
    assert(is_line_end(s, j));
    if j < i {
        assert(!crlf_at(s, j));
    } else if i < j {
        assert(!crlf_at(s, i));
    }
}

/// Without any CRLF there is no first one.
pub proof fn lemma_no_crlf(s: Seq<u8>)
    requires
        forall|i: int| !crlf_at(s, i),
    ensures
        first_crlf(s) is None,
{
}

/// Extending a sequence past its first CRLF does not move that CRLF.
pub proof fn lemma_first_crlf_extend(s: Seq<u8>, t: Seq<u8>, i: int)
    requires
        is_line_end(s, i),
    ensures
        is_line_end(s + t, i),
        first_crlf(s + t) == Some(i),
{
    assert forall|j: int| 0 <= j < i implies !crlf_at(s + t, j) by {
        assert(!crlf_at(s, j));
        assert((s + t)[j] == s[j] && (s + t)[j + 1] == s[j + 1]);
    }
    lemma_first_crlf(s + t, i);
}

/// A parsed value together with how many input bytes it took.
pub struct Parsed<T> {
    pub data: T,
    pub num_bytes_parsed: usize,
}

impl<T> Parsed<T> {
    pub fn new(data: T, num_bytes_parsed: usize) -> (p: Parsed<T>)
        ensures
            p.data == data,
            p.num_bytes_parsed == num_bytes_parsed,
    {
        Parsed { data, num_bytes_parsed }
    }
}

/// Appends the bytes of `s` to `v`.
pub fn append_bytes(v: &mut Vec<u8>, s: &[u8])
    ensures
        final(v)@ == old(v)@ + s@,
{
    v.extend_from_slice(s);
    proof {
        assert(final(v)@ =~= old(v)@ + s@);
    }
}

/// Find the first CRLF-terminated line in `bytes`, returning the line contents
/// (without the trailing CRLF) and the number of bytes consumed (including it).
pub fn parse_line(bytes: &[u8]) -> (r: Option<Parsed<&[u8]>>)
    ensures
        match r {
            Some(p) => first_crlf(bytes@) == Some(p.num_bytes_parsed - 2) && p.num_bytes_parsed >= 2
                && p.data@ == bytes@.subrange(0, p.num_bytes_parsed - 2),
            None => first_crlf(bytes@) is None,
        },
{
    let mut i: usize = 0;
    while i < bytes.len() && i + 1 < bytes.len()
        invariant
            i <= bytes@.len(),
            forall|j: int| 0 <= j < i ==> !crlf_at(bytes@, j),
        decreases bytes@.len() - i,
    {
        if bytes[i] == CR && bytes[i + 1] == LF {
            proof {
                lemma_first_crlf(bytes@, i as int);
            }
            return Some(Parsed::new(slice_subrange(bytes, 0, i), i + 2));
        }
        i += 1;
    }
    proof {
        lemma_no_crlf(bytes@);
    }
    None
}

/// `std::time::SystemTime::now`, as whole seconds since the Unix epoch (zero
/// for a clock set before the epoch). The time is read from the machine, so
/// nothing is stated of the value.
#[verifier::external_body]
pub fn get_unix_timestamp() -> (t: u64) {
    match std::time::SystemTime::now().duration_since(std::time::UNIX_EPOCH) {
        Ok(elapsed) => elapsed.as_secs(),
        Err(_) => 0,
    }
}

} // verus!
