//! Rebuilding the store from its append-only log: the wire forms of the
//! write commands the server ran, one after another.
use vstd::prelude::*;

use crate::command::{
    added_keys, can_apply, command_parts, next_store, parse_command, readable, reports_command_fault,
    stored, Command, CommandError, CommandFault, CommandView, StoredValue, StoredView,
    lemma_command_round_trip,
};
use crate::key_store::KeyStore;
use crate::request::{
    encode_request, lemma_request_taken, reports, request_outcome, PartOutcome, RequestFault,
    RequestParseError, RequestReader, ARRAY_BYTE, MAX_ARRAY_LENGTH,
};
use crate::util::{first_crlf, MAX_COMPLEX_STRING_LENGTH};

verus! {

/// Why a log cannot be replayed.
#[derive(Debug)]
pub enum RestoreError {
    /// The log holds bytes that are not a request.
    Request(RequestParseError),
    /// A request in the log is not a command.
    Command(CommandError),
}

/// The ways a log can be unreadable, as the formats define them.
pub ghost enum RestoreFault {
    Request(RequestFault),
    UnexpectedEof,
    Command(CommandFault),
}

/// `e` is the error that reports `f`.
pub open spec fn restore_reports(e: RestoreError, f: RestoreFault) -> bool {
    match f {
        RestoreFault::Request(rf) => e matches RestoreError::Request(re) && reports(re, rf),
        RestoreFault::UnexpectedEof => e matches RestoreError::Request(
            RequestParseError::UnexpectedEof,
        ),
        RestoreFault::Command(cf) => e matches RestoreError::Command(ce) && reports_command_fault(
            ce,
            cf,
        ),
    }
}

/// The command fits in the store: what running it requires.
pub open spec fn fits(m: Map<Seq<u8>, StoredView>, c: CommandView) -> bool {
    &&& m.len() + added_keys(c) < usize::MAX / 16
    &&& c matches CommandView::Del(ks) ==> ks.len() <= i64::MAX
}

/// One command of a log run on the store at `now`; one that does not fit
/// leaves the store as it is.
pub open spec fn replay_step(m: Map<Seq<u8>, StoredView>, c: CommandView, now: u64) -> Map<
    Seq<u8>,
    StoredView,
> {
    if fits(m, c) {
        next_store(m, c, now)
    } else {
        m
    }
}

/// The store that replaying `log` onto `m` gives, every command run at `now`:
/// requests are read off the front of the log one by one, each must be a
/// command, and the log must end where a request ends. (A request always
/// takes some of the log and no more than all of it, so the last branch is
/// never taken; see `lemma_request_taken`.)
pub open spec fn replay(log: Seq<u8>, m: Map<Seq<u8>, StoredView>, now: u64) -> Result<
    Map<Seq<u8>, StoredView>,
    RestoreFault,
>
    decreases log.len(),
{
    match request_outcome(log) {
        PartOutcome::Incomplete => if log.len() == 0 {
            Ok(m)
        } else {
            Err(RestoreFault::UnexpectedEof)
        },
        PartOutcome::Fault(f) => Err(RestoreFault::Request(f)),
        PartOutcome::Complete(args, taken) => match parse_command(args, now) {
            Err(f) => Err(RestoreFault::Command(f)),
            Ok(c) => if 0 < taken <= log.len() {
                replay(log.subrange(taken, log.len() as int), replay_step(m, c, now), now)
            } else {
                Ok(m)
            },
        },
    }
}

proof fn lemma_fits(m: Map<Seq<u8>, StoredValue>, c: CommandView)
    ensures
        can_apply(m, c) == fits(stored(m), c),
{
    assert(stored(m).dom() =~= m.dom());
    assert(stored(m).len() == m.len());
}

/// Rebuilds the store a log describes, running every command at `now`.
pub fn restore_key_store(log: &[u8], now: u64) -> (r: Result<KeyStore<StoredValue>, RestoreError>)
    ensures
        match replay(log@, Map::empty(), now) {
            Ok(m) => r matches Ok(ks) && ks.wf() && stored(ks@) == m,
            Err(f) => r matches Err(e) && restore_reports(e, f),
        },
{
    let log_len = log.len();
    let mut requests: RequestReader<()> = RequestReader::new(());
    requests.push_bytes(log);
    let mut key_store: KeyStore<StoredValue> = KeyStore::default();
    proof {
        assert(requests.spec_buffer() =~= log@);
        assert(log@.len() == log_len);
        assert(stored(key_store@) =~= Map::empty());
    }
    loop
        invariant
            requests.wf(),
            !requests.spec_poisoned(),
            requests.spec_buffer().len() <= usize::MAX,
            key_store.wf(),
            replay(log@, Map::empty(), now) == replay(
                requests.spec_buffer(),
                stored(key_store@),
                now,
            ),
        decreases requests.spec_buffer().len(),
    {
        let ghost buf = requests.spec_buffer();
        let ghost m = stored(key_store@);
        proof {
            lemma_request_taken(buf);
        }
        match requests.decode_next() {
            Err(e) => {
                return Err(RestoreError::Request(e));
            },
            Ok(None) => {
                return match requests.validate_eof() {
                    Ok(()) => Ok(key_store),
                    Err(e) => Err(RestoreError::Request(e)),
                };
            },
            Ok(Some(request)) => {
                let command = match Command::from_request_at(request, now) {
                    Ok(c) => c,
                    Err(e) => {
                        return Err(RestoreError::Command(e));
                    },
                };
                proof {
                    lemma_fits(key_store@, command@);
                }
                if command.can_apply_to(&key_store) {
                    let _ = command.apply_at(&mut key_store, now);
                }
            },
        }
    }
}

/// The wire forms of commands, one after another: what the server appends to
/// its log as it runs them.
pub open spec fn encode_commands(cs: Seq<CommandView>) -> Seq<u8>
    decreases cs.len(),
{
    if cs.len() == 0 {
        Seq::empty()
    } else {
        encode_request(command_parts(cs[0])) + encode_commands(cs.drop_first())
    }
}

/// The store the commands build from `m`, one after another, at `now`.
pub open spec fn apply_all(m: Map<Seq<u8>, StoredView>, cs: Seq<CommandView>, now: u64) -> Map<
    Seq<u8>,
    StoredView,
>
    decreases cs.len(),
{
    if cs.len() == 0 {
        m
    } else {
        apply_all(replay_step(m, cs[0], now), cs.drop_first(), now)
    }
}

/// A command whose wire form reads back as itself: it names what it needs to,
/// and its parts are within the format's limits.
pub open spec fn loggable(c: CommandView) -> bool {
    &&& readable(c)
    &&& command_parts(c).len() <= MAX_ARRAY_LENGTH
    &&& forall|i: int|
        0 <= i < command_parts(c).len() ==> #[trigger] command_parts(c)[i].len()
            <= MAX_COMPLEX_STRING_LENGTH
}

/// Replaying a log made of the wire forms of commands rebuilds the store those
/// commands build, in the order they were written: what a restart gives back
/// of the writes before it.
pub proof fn lemma_replay_commands(cs: Seq<CommandView>, m: Map<Seq<u8>, StoredView>, now: u64)
    requires
        forall|i: int| 0 <= i < cs.len() ==> loggable(#[trigger] cs[i]),
        encode_commands(cs).len() <= usize::MAX,
    ensures
        replay(encode_commands(cs), m, now) == Ok::<Map<Seq<u8>, StoredView>, RestoreFault>(
            apply_all(m, cs, now),
        ),
    decreases cs.len(),
{
    if cs.len() == 0 {
        assert(first_crlf(Seq::<u8>::empty()) is None);
    } else {
        let c = cs[0];
        let rest = encode_commands(cs.drop_first());
        let enc = encode_request(command_parts(c));
        assert(loggable(cs[0]));
        lemma_command_round_trip(c, rest, now);
        let log = encode_commands(cs);
        assert(log == enc + rest);
        assert(enc.len() > 0) by {
            assert(enc[0] == ARRAY_BYTE);
        }
        assert(log.subrange(enc.len() as int, log.len() as int) =~= rest);
        assert forall|i: int| 0 <= i < cs.drop_first().len() implies loggable(
            #[trigger] cs.drop_first()[i],
        ) by {
            assert(cs.drop_first()[i] == cs[i + 1]);
        }
        lemma_replay_commands(cs.drop_first(), replay_step(m, c, now), now);
    }
}

/// Replaying a command runs it as the live server does: on a store it fits
/// in, the store becomes what running the command there gives.
pub proof fn lemma_replay_step_runs(m: Map<Seq<u8>, StoredView>, c: CommandView, now: u64)
    requires
        fits(m, c),
    ensures
        replay_step(m, c, now) == next_store(m, c, now),
{
}

/// The store the commands build when each is run in turn at `now`.
pub open spec fn run_commands(m: Map<Seq<u8>, StoredView>, cs: Seq<CommandView>, now: u64) -> Map<
    Seq<u8>,
    StoredView,
>
    decreases cs.len(),
{
    if cs.len() == 0 {
        m
    } else {
        run_commands(next_store(m, cs[0], now), cs.drop_first(), now)
    }
}

/// Every command fits in the store as the commands run in turn.
pub open spec fn all_fit(m: Map<Seq<u8>, StoredView>, cs: Seq<CommandView>, now: u64) -> bool
    decreases cs.len(),
{
    cs.len() == 0 || (fits(m, cs[0]) && all_fit(next_store(m, cs[0], now), cs.drop_first(), now))
}

/// Restoring a log of written commands gives the store that running those
/// commands, in order, gives: every command in the log is run, `MSET` and
/// `DEL` included, as long as each fits in the store.
pub proof fn lemma_replay_runs_commands(cs: Seq<CommandView>, m: Map<Seq<u8>, StoredView>, now: u64)
    requires
        forall|i: int| 0 <= i < cs.len() ==> loggable(#[trigger] cs[i]),
        encode_commands(cs).len() <= usize::MAX,
        all_fit(m, cs, now),
    ensures
        replay(encode_commands(cs), m, now) == Ok::<Map<Seq<u8>, StoredView>, RestoreFault>(
            run_commands(m, cs, now),
        ),
{
    lemma_replay_commands(cs, m, now);
    lemma_apply_all_runs(cs, m, now);
}

proof fn lemma_apply_all_runs(cs: Seq<CommandView>, m: Map<Seq<u8>, StoredView>, now: u64)
    requires
        all_fit(m, cs, now),
    ensures
        apply_all(m, cs, now) == run_commands(m, cs, now),
    decreases cs.len(),
{
    if cs.len() > 0 {
        lemma_replay_step_runs(m, cs[0], now);
        lemma_apply_all_runs(cs.drop_first(), next_store(m, cs[0], now), now);
    }
}

} // verus!
