//! One client's session of the line protocol: requests framed out of the bytes
//! received so far, and run on the client's store.
use std::borrow::Cow;
use vstd::prelude::*;
use vstd::utf8::*;

use crate::command::STORE_FULL;
use crate::kv_request::{
    del_name, field_outcome, field_rest, get_name, kv_command_outcome, kv_command_rest,
    length_outcome, length_rest, payload_outcome, payload_rest, put_name, read_field, read_length,
    reports_kv_fault, KvCommand, KvCommandView, KvRequest, KvRequestError, KvRequestFault,
};
use crate::key_store::bytes_equal;
use crate::text::lemma_ascii_utf8;
use crate::kv_response::{KvResponse, KvResponseView};
use crate::kv_store::KvStore;
use crate::slice_reader::{
    is_first_lf, lemma_first_lf, lemma_line_len, line_len, line_of, read_line, strip_crlf, strip_crlf_spec,
};
use crate::util::LF;
use crate::util::Bytes;

verus! {

proof fn lemma_field_rest_len(b: Seq<u8>)
    ensures
        field_rest(b).len() <= b.len(),
        length_rest(b).len() <= b.len(),
{
    lemma_line_len(b);
    let r = length_rest(b);
    assert forall|n: nat| payload_rest(r, n).len() <= r.len() by {}
}

/// Reading a command never leaves more bytes than there were.
pub proof fn lemma_kv_rest_len(b: Seq<u8>)
    ensures
        kv_command_rest(b).len() <= b.len(),
{
    lemma_line_len(b);
    let after_op = b.skip(line_len(b));
    lemma_field_rest_len(after_op);
    lemma_line_len(after_op);
    let after_key_len = after_op.skip(line_len(after_op));
    assert forall|n: nat| n + 2 <= after_key_len.len() implies #[trigger] after_key_len.skip(
        n as int + 2,
    ).len() <= b.len() by {}
    assert forall|t: Seq<u8>| t.len() <= b.len() implies field_rest(t).len() <= b.len() by {
        lemma_field_rest_len(t);
    }
}

/// `b` holds an LF: its first line is complete.
pub open spec fn has_lf(b: Seq<u8>) -> bool {
    exists|i: int| is_first_lf(b, i)
}

proof fn lemma_some_lf(b: Seq<u8>, j: int)
    requires
        0 <= j < b.len(),
        b[j] == LF,
    ensures
        has_lf(b),
    decreases j,
{
    if forall|k: int| 0 <= k < j ==> b[k] != LF {
        assert(is_first_lf(b, j));
    } else {
        let k = choose|k: int| 0 <= k < j && b[k] == LF;
        lemma_some_lf(b, k);
    }
}

/// A complete first line reads the same with more bytes after it.
proof fn lemma_line_extend(b: Seq<u8>, x: Seq<u8>)
    requires
        has_lf(b),
    ensures
        line_len(b + x) == line_len(b),
        line_of(b + x) == line_of(b),
        (b + x).skip(line_len(b)) == b.skip(line_len(b)) + x,
        0 < line_len(b) <= b.len(),
{
    let i = choose|i: int| is_first_lf(b, i);
    assert(is_first_lf(b, i));
    assert(is_first_lf(b + x, i));
    lemma_first_lf(b, i);
    lemma_first_lf(b + x, i);
    assert(line_of(b + x) =~= line_of(b));
    assert((b + x).skip(line_len(b)) =~= b.skip(line_len(b)) + x);
}

/// A line that ends with CRLF holds an LF; a line without one is all the bytes.
proof fn lemma_line_cases(b: Seq<u8>)
    ensures
        strip_crlf_spec(line_of(b)) is Some ==> has_lf(b),
        !has_lf(b) ==> line_len(b) == b.len(),
{
    lemma_line_len(b);
    if strip_crlf_spec(line_of(b)) is Some {
        let l = line_of(b);
        assert(l[l.len() - 1] == LF);
        assert(b[l.len() - 1] == LF);
        lemma_some_lf(b, l.len() - 1);
    }
}

/// A length-prefixed field that its bytes decide, successfully or not, reads
/// the same with more bytes after it.
proof fn lemma_field_extend(a: Seq<u8>, x: Seq<u8>, len_at: Seq<char>, at: Seq<char>)
    requires
        !field_ran_out(a),
    ensures
        match field_outcome(a, len_at, at) {
            Ok((v, r)) => field_outcome(a + x, len_at, at) == Ok::<
                (Seq<u8>, Seq<u8>),
                KvRequestFault,
            >((v, r + x)),
            Err(f) => field_outcome(a + x, len_at, at) == Err::<
                (Seq<u8>, Seq<u8>),
                KvRequestFault,
            >(f),
        },
        field_rest(a + x) == field_rest(a) + x,
{
    lemma_line_len(a);
    lemma_line_extend(a, x);
    let r = a.skip(line_len(a));
    match length_outcome(a, len_at) {
        Err(_) => {},
        Ok((n, _)) => {
            if n + 2 <= r.len() {
                let m = n as int;
                assert((r + x).subrange(m, m + 2) =~= r.subrange(m, m + 2));
                assert((r + x).take(m) =~= r.take(m));
                assert((r + x).skip(m + 2) =~= r.skip(m + 2) + x);
            }
        },
    }
}

/// The framing of the line protocol does not depend on how the bytes arrive:
/// unless reading the request at the front of the bytes received so far ran
/// out of them (see `kv_ran_out`), any bytes that follow leave its outcome as
/// it is and come after what it leaves. This is what lets `next_request`
/// answer before the peer has finished sending.
#[verifier::rlimit(60)]
#[verifier::spinoff_prover]
pub proof fn lemma_kv_command_stable(b: Seq<u8>, x: Seq<u8>)
    requires
        !kv_ran_out(b),
    ensures
        match kv_command_outcome(b) {
            Ok((c, r)) => kv_command_outcome(b + x) == Ok::<
                (KvCommandView, Seq<u8>),
                KvRequestFault,
            >((c, r + x)),
            Err(f) => kv_command_outcome(b + x) == Err::<
                (KvCommandView, Seq<u8>),
                KvRequestFault,
            >(f),
        },
        kv_command_rest(b + x) == kv_command_rest(b) + x,
{
    lemma_line_len(b);
    lemma_line_extend(b, x);
    let after_op = b.skip(line_len(b));
    match strip_crlf_spec(line_of(b)) {
        None => {},
        Some(op) => {
            if valid_utf8(op) && (op == put_name() || op == get_name() || op == del_name()) {
                lemma_field_extend(after_op, x, Seq::empty(), Seq::empty());
                lemma_field_extend(after_op, x, "after key length"@, "after key"@);
                let key_ok = field_outcome(after_op, Seq::empty(), Seq::empty());
                if key_ok is Ok && op == put_name() {
                    let after_key = key_ok->Ok_0.1;
                    lemma_field_extend(after_key, x, Seq::empty(), Seq::empty());
                    lemma_field_extend(after_key, x, "after value length"@, "after put value"@);
                }
            }
        },
    }
}

/// Reading a length-prefixed field off `a` ran out of bytes: its length line
/// has no LF yet, or fewer bytes than it announces (and CRLF) follow it.
pub open spec fn field_ran_out(a: Seq<u8>) -> bool {
    ||| !has_lf(a)
    ||| match length_outcome(a, Seq::empty()) {
        Ok((n, r)) => n + 2 > r.len(),
        Err(_) => false,
    }
}

/// Reading a command off `b` ran out of bytes before its outcome was decided:
/// a line it needed has no LF yet, or a key or value is cut short. Any other
/// failure is decided by the bytes read so far.
pub open spec fn kv_ran_out(b: Seq<u8>) -> bool {
    let after_op = b.skip(line_len(b));
    ||| !has_lf(b)
    ||| match strip_crlf_spec(line_of(b)) {
        None => false,
        Some(op) => {
            &&& valid_utf8(op)
            &&& op == put_name() || op == get_name() || op == del_name()
            &&& {
                ||| field_ran_out(after_op)
                ||| op == put_name() && match field_outcome(after_op, Seq::empty(), Seq::empty()) {
                    Ok((_, after_key)) => field_ran_out(after_key),
                    Err(_) => false,
                }
            }
        },
    }
}

/// Whether `b` holds an LF.
fn contains_lf(b: &[u8]) -> (r: bool)
    ensures
        r == has_lf(b@),
{
    let mut i: usize = 0;
    while i < b.len()
        invariant
            i <= b@.len(),
            forall|j: int| 0 <= j < i ==> b@[j] != LF,
        decreases b.len() - i,
    {
        if b[i] == LF {
            proof {
                assert(is_first_lf(b@, i as int));
            }
            return true;
        }
        i += 1;
    }
    proof {
        assert forall|j: int| !is_first_lf(b@, j) by {
            if is_first_lf(b@, j) {
                assert(b@[j] == LF);
            }
        }
    }
    false
}

/// Whether reading a length-prefixed field off `a` runs out of bytes.
fn field_runs_out(a: &[u8]) -> (r: bool)
    ensures
        r == field_ran_out(a@),
{
    if !contains_lf(a) {
        return true;
    }
    proof {
        reveal_strlit("");
        assert(""@ =~= Seq::<char>::empty());
    }
    let mut rest: &[u8] = a;
    match read_length(&mut rest, "") {
        Ok(n) => n > rest.len() || rest.len() - n < 2,
        Err(_) => false,
    }
}

/// Whether reading a command off `b` runs out of bytes.
fn runs_out(b: &[u8]) -> (r: bool)
    ensures
        r == kv_ran_out(b@),
{
    if !contains_lf(b) {
        return true;
    }
    let mut rest: &[u8] = b;
    let line = read_line(&mut rest);
    let op = match strip_crlf(line.as_slice()) {
        Some(op) => op,
        None => return false,
    };
    proof {
        reveal_strlit("Put");
        reveal_strlit("Get");
        reveal_strlit("Del");
        reveal_strlit("");
        assert(""@ =~= Seq::<char>::empty());
        crate::kv_request::lemma_kv_names();
        lemma_ascii_utf8(put_name());
        lemma_ascii_utf8(get_name());
        lemma_ascii_utf8(del_name());
    }
    let is_put = bytes_equal(op, "Put".as_bytes());
    let is_get = bytes_equal(op, "Get".as_bytes());
    let is_del = bytes_equal(op, "Del".as_bytes());
    if !is_put && !is_get && !is_del {
        return false;
    }
    if field_runs_out(rest) {
        return true;
    }
    if !is_put {
        return false;
    }
    match read_field(&mut rest, "", "") {
        Ok(_) => field_runs_out(rest),
        Err(_) => false,
    }
}

/// Running out of bytes is a failure.
proof fn lemma_ran_out_fails(b: Seq<u8>)
    ensures
        kv_ran_out(b) ==> kv_command_outcome(b) is Err,
{
    lemma_line_cases(b);
    lemma_line_len(b);
    let after_op = b.skip(line_len(b));
    lemma_line_cases(after_op);
    lemma_line_len(after_op);
    match field_outcome(after_op, Seq::empty(), Seq::empty()) {
        Ok((_, after_key)) => {
            lemma_line_cases(after_key);
            lemma_line_len(after_key);
        },
        Err(_) => {},
    }
}

/// The next request out of the bytes received so far, and how many of them it
/// took. While the peer may still send more (`!at_eof`), a read that failed
/// because it ran out of bytes is no answer yet: `None`. A failure that the
/// bytes already decide is answered at once.
pub fn next_request(pending: &[u8], at_eof: bool) -> (r: Option<
    (Result<KvRequest, KvRequestError>, usize),
>)
    ensures
        r is None <==> !at_eof && kv_ran_out(pending@),
        kv_ran_out(pending@) ==> kv_command_outcome(pending@) is Err,
        r matches Some((res, used)) ==> used == pending@.len() - kv_command_rest(pending@).len()
            && match kv_command_outcome(pending@) {
            Ok((c, _)) => res matches Ok(req) && req.command@ == c,
            Err(f) => res matches Err(e) && reports_kv_fault(e, f),
        },
{
    proof {
        lemma_kv_rest_len(pending@);
    }
    let mut rest: &[u8] = pending;
    let result = KvRequest::from_reader(&mut rest);
    let used = pending.len() - rest.len();
    proof {
        lemma_ran_out_fails(pending@);
    }
    if !at_eof && runs_out(pending) {
        None
    } else {
        Some((result, used))
    }
}

/// What running `c` on a store holding `m` answers.
pub open spec fn kv_reply(m: Map<Seq<u8>, Bytes>, c: KvCommandView) -> KvResponseView {
    match c {
        KvCommandView::Put(_, _) => if m.len() < usize::MAX / 16 {
            KvResponseView::Okay
        } else {
            KvResponseView::Error(STORE_FULL@)
        },
        KvCommandView::Get(k) => if m.contains_key(k) {
            KvResponseView::Value(m[k]@)
        } else {
            KvResponseView::NotFound
        },
        KvCommandView::Del(_) => KvResponseView::Okay,
    }
}

/// The key a command names.
pub open spec fn kv_key(c: KvCommandView) -> Seq<u8> {
    match c {
        KvCommandView::Put(k, _) => k,
        KvCommandView::Get(k) => k,
        KvCommandView::Del(k) => k,
    }
}

/// What the store holds after running `c` on it.
pub open spec fn kv_next(m: Map<Seq<u8>, Bytes>, c: KvCommandView) -> Map<Seq<u8>, Seq<u8>> {
    let views = m.map_values(|v: Bytes| v@);
    match c {
        KvCommandView::Put(k, v) => if m.len() < usize::MAX / 16 {
            views.insert(k, v)
        } else {
            views
        },
        KvCommandView::Get(_) => views,
        KvCommandView::Del(k) => views.remove(k),
    }
}

impl KvCommand {
    /// Runs the command on the store: `Put` stores the value (unless the store
    /// is full), `Del` removes the key, both answering `Okay`; `Get` answers the
    /// value, lent out of the store, or `NotFound`.
    pub fn execute<'a>(self, store: &'a mut KvStore<Bytes>) -> (r: KvResponse<'a>)
        requires
            old(store).wf(),
        ensures
            final(store).wf(),
            final(store)@.map_values(|v: Bytes| v@) == kv_next(old(store)@, self@),
            r@ == kv_reply(old(store)@, self@),
            self@ matches KvCommandView::Put(k, v) ==> (old(store)@.len() < usize::MAX / 16
                ==> final(store)@.contains_key(k) && final(store)@[k]@ == v),
            self@ matches KvCommandView::Del(k) ==> !final(store)@.contains_key(k),
            self@ is Get ==> final(store)@ == old(store)@,
            forall|k2: Seq<u8>|
                k2 != kv_key(self@) ==> (#[trigger] final(store)@.contains_key(k2)
                    == old(store)@.contains_key(k2) && (old(store)@.contains_key(k2)
                    ==> final(store)@[k2] == old(store)@[k2])),
    {
        match self {
            KvCommand::Put(key, value) => {
                if store.len() < usize::MAX / 16 {
                    store.put(key, value);
                    proof {
                        assert(final(store)@.map_values(|v: Bytes| v@) =~= old(store)@.map_values(
                            |v: Bytes| v@,
                        ).insert(key@, value@));
                    }
                    KvResponse::Okay
                } else {
                    proof {
                        assert(final(store)@.map_values(|v: Bytes| v@) =~= old(store)@.map_values(
                            |v: Bytes| v@,
                        ));
                    }
                    KvResponse::Error(STORE_FULL.to_string())
                }
            },
            KvCommand::Del(key) => {
                let _ = store.del(&key);
                proof {
                    assert(final(store)@.map_values(|v: Bytes| v@) =~= old(store)@.map_values(
                        |v: Bytes| v@,
                    ).remove(key@));
                }
                KvResponse::Okay
            },
            KvCommand::Get(key) => {
                let shared: &'a KvStore<Bytes> = store;
                proof {
                    assert(final(store)@.map_values(|v: Bytes| v@) =~= old(store)@.map_values(
                        |v: Bytes| v@,
                    ));
                }
                match shared.get(&key) {
                    None => KvResponse::NotFound,
                    Some(value) => KvResponse::Value(Cow::Borrowed(value.as_slice())),
                }
            },
        }
    }
}

/// What the line server does with what it read off a connection.
pub enum KvStep<'a> {
    /// Send this answer, then read the next request.
    Reply(KvResponse<'a>),
    /// Answer the malformed request with its error, then read the next one.
    Reject(KvRequestError),
    /// The bytes ran out inside a request: close the connection.
    Close(std::io::Error),
}

/// The server's step on one read: a request runs on the store and its answer
/// is sent; a malformed request is answered with its error and the session
/// goes on; running out of bytes inside a request ends the session. Only a
/// request changes the store.
pub fn step<'a>(read: Result<KvRequest, KvRequestError>, store: &'a mut KvStore<Bytes>) -> (r: KvStep<'a>)
    requires
        old(store).wf(),
    ensures
        final(store).wf(),
        match read {
            Ok(request) => r matches KvStep::Reply(response) && response@ == kv_reply(
                old(store)@,
                request.command@,
            ) && final(store)@.map_values(|v: Bytes| v@) == kv_next(old(store)@, request.command@),
            Err(KvRequestError::IoError(e)) => r == KvStep::Close(e) && final(store)@ == old(store)@,
            Err(e) => r == KvStep::Reject(e) && final(store)@ == old(store)@,
        },
{
    match read {
        Ok(request) => KvStep::Reply(request.command.execute(store)),
        Err(KvRequestError::IoError(e)) => KvStep::Close(e),
        Err(e) => KvStep::Reject(e),
    }
}

/// A read gives back a write on the line protocol: after `Put(k, v)` on a
/// store that is not full, `k` holds `v` whether or not it held a value
/// before, a `Get(k)` answers `v`, and every other key keeps what it held.
pub proof fn lemma_kv_get_after_put(m: Map<Seq<u8>, Bytes>, k: Seq<u8>, v: Bytes, k2: Seq<u8>)
    requires
        m.len() < usize::MAX / 16,
    ensures
        kv_next(m, KvCommandView::Put(k, v@)).contains_key(k),
        kv_next(m, KvCommandView::Put(k, v@))[k] == v@,
        kv_reply(m.insert(k, v), KvCommandView::Get(k)) == KvResponseView::Value(v@),
        k2 != k ==> kv_next(m, KvCommandView::Put(k, v@)).contains_key(k2) == m.contains_key(k2),
        k2 != k && m.contains_key(k2) ==> kv_next(m, KvCommandView::Put(k, v@))[k2] == m[k2]@,
        kv_reply(m, KvCommandView::Put(k, v@)) == KvResponseView::Okay,
{
}

/// After `Del(k)` the key is gone and a `Get(k)` finds nothing; every other
/// key keeps what it held.
pub proof fn lemma_kv_get_after_del(m: Map<Seq<u8>, Bytes>, k: Seq<u8>, k2: Seq<u8>)
    ensures
        !kv_next(m, KvCommandView::Del(k)).contains_key(k),
        kv_reply(m.remove(k), KvCommandView::Get(k)) == KvResponseView::NotFound,
        k2 != k ==> kv_next(m, KvCommandView::Del(k)).contains_key(k2) == m.contains_key(k2),
        k2 != k && m.contains_key(k2) ==> kv_next(m, KvCommandView::Del(k))[k2] == m[k2]@,
{
}

} // verus!
