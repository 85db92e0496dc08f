//! The commands a client sends: how they are read out of a request, how they
//! are written back as one, and what each does to the key store.
use std::str::Utf8Error;
use vstd::prelude::*;
use vstd::slice::slice_to_vec;
use vstd::utf8::*;

use crate::key_store::{bytes_equal, KeyStore};
use crate::request::{
    encode_request, lemma_request_round_trip, request_outcome, views, PartOutcome, Request,
};
use crate::response::{lemma_views_of_len, lemma_views_of_push, views_of, RespView, Response};
use crate::text::{
    ascii_bytes, decimal, lemma_ascii_chars_round_trip, lemma_ascii_utf8, lemma_decimal,
    lemma_encode_utf8_concat, lemma_parse_decimal, parse_u64, push_str, string_bytes,
    utf8_lossy, utf8_to_string, parse_unsigned, push_decimal,
    str_from_utf8, string_from_utf8_lossy,
};
use crate::util::{append_bytes, get_unix_timestamp, Bytes};

verus! {

broadcast use vstd::utf8::group_utf8_lib;

/// A stored value and the Unix time, in seconds, at which it expires.
#[derive(Debug, PartialEq, Eq)]
pub struct StoredValue {
    pub bytes: Bytes,
    pub expires_at: Option<u64>,
}

/// What a stored value holds, as a mathematical value.
pub ghost struct StoredView {
    pub bytes: Seq<u8>,
    pub expires_at: Option<u64>,
}

impl View for StoredValue {
    type V = StoredView;

    open spec fn view(&self) -> StoredView {
        StoredView { bytes: self.bytes@, expires_at: self.expires_at }
    }
}

/// A value has expired once its expiry time is not after `now`.
pub open spec fn expired_at(v: StoredView, now: u64) -> bool {
    v.expires_at matches Some(t) && t <= now
}

impl StoredValue {
    /// A value that never expires.
    pub fn new(bytes: Bytes) -> (r: Self)
        ensures
            r.bytes == bytes,
            r.expires_at is None,
    {
        Self { bytes, expires_at: None }
    }

    /// Whether the value has expired at the Unix time `now`.
    pub fn is_expired_at(&self, now: u64) -> (r: bool)
        ensures
            r == expired_at(self@, now),
    {
        match self.expires_at {
            Some(t) => t <= now,
            None => false,
        }
    }

    /// Whether the value has expired by the clock. A value without an expiry
    /// time never has, and one that expires at time zero always has.
    pub fn is_expired(&self) -> (r: bool)
        ensures
            exists|now: u64| r == expired_at(self@, now),
            self.expires_at is None ==> !r,
            self.expires_at == Some(0u64) ==> r,
    {
        let now = get_unix_timestamp();
        self.is_expired_at(now)
    }
}

/// A command.
#[derive(Debug, PartialEq)]
pub enum Command {
    Get(Bytes),
    SetKey(Bytes, Bytes),
    MGet(Vec<Bytes>),
    MSet(Vec<(Bytes, Bytes)>),
    Del(Vec<Bytes>),
    GetAll,
    ExpireAt(Bytes, u64),
}

/// What a command says, as a mathematical value.
pub ghost enum CommandView {
    Get(Seq<u8>),
    SetKey(Seq<u8>, Seq<u8>),
    MGet(Seq<Seq<u8>>),
    MSet(Seq<(Seq<u8>, Seq<u8>)>),
    Del(Seq<Seq<u8>>),
    GetAll,
    ExpireAt(Seq<u8>, u64),
}

pub open spec fn pair_views(entries: Seq<(Bytes, Bytes)>) -> Seq<(Seq<u8>, Seq<u8>)> {
    entries.map_values(|p: (Bytes, Bytes)| (p.0@, p.1@))
}

impl View for Command {
    type V = CommandView;

    open spec fn view(&self) -> CommandView {
        match *self {
            Command::Get(k) => CommandView::Get(k@),
            Command::SetKey(k, v) => CommandView::SetKey(k@, v@),
            Command::MGet(ks) => CommandView::MGet(views(ks@)),
            Command::MSet(es) => CommandView::MSet(pair_views(es@)),
            Command::Del(ks) => CommandView::Del(views(ks@)),
            Command::GetAll => CommandView::GetAll,
            Command::ExpireAt(k, t) => CommandView::ExpireAt(k@, t),
        }
    }
}

#[derive(Debug)]
pub enum CommandError {
    InvalidUtf8(Utf8Error),
    UnrecognizedCommand(String),
    TooFewArguments(usize),
    TooManyArguments(usize),
    UnevenArgumentLength(usize),
    InvalidExpiration(String),
}

/// The ways a request can fail to be a command.
pub ghost enum CommandFault {
    InvalidUtf8,
    UnrecognizedCommand(Seq<char>),
    TooFewArguments(nat),
    TooManyArguments(nat),
    UnevenArgumentLength(nat),
    InvalidExpiration(Seq<char>),
}

/// `e` is the error that reports `f`.
pub open spec fn reports_command_fault(e: CommandError, f: CommandFault) -> bool {
    match f {
        CommandFault::InvalidUtf8 => e is InvalidUtf8,
        CommandFault::UnrecognizedCommand(s) => e matches CommandError::UnrecognizedCommand(m)
            && m@ == s,
        CommandFault::TooFewArguments(n) => e == CommandError::TooFewArguments(n as usize),
        CommandFault::TooManyArguments(n) => e == CommandError::TooManyArguments(n as usize),
        CommandFault::UnevenArgumentLength(n) => e == CommandError::UnevenArgumentLength(
            n as usize,
        ),
        CommandFault::InvalidExpiration(s) => e matches CommandError::InvalidExpiration(m) && m@
            == s,
    }
}

/// The command names as bytes.
pub open spec fn get_name() -> Seq<u8> {
    seq![71u8, 69u8, 84u8]
}

pub open spec fn set_name() -> Seq<u8> {
    seq![83u8, 69u8, 84u8]
}

pub open spec fn mget_name() -> Seq<u8> {
    seq![77u8, 71u8, 69u8, 84u8]
}

pub open spec fn mset_name() -> Seq<u8> {
    seq![77u8, 83u8, 69u8, 84u8]
}

pub open spec fn del_name() -> Seq<u8> {
    seq![68u8, 69u8, 76u8]
}

pub open spec fn getall_name() -> Seq<u8> {
    seq![71u8, 69u8, 84u8, 65u8, 76u8, 76u8]
}

/// `EXPIRE` takes a number of seconds from now; it becomes an `EXPIREAT`.
pub open spec fn expire_name() -> Seq<u8> {
    seq![69u8, 88u8, 80u8, 73u8, 82u8, 69u8]
}

pub open spec fn expireat_name() -> Seq<u8> {
    seq![69u8, 88u8, 80u8, 73u8, 82u8, 69u8, 65u8, 84u8]
}

/// Consecutive arguments taken as key/value pairs.
pub open spec fn pairs_of(args: Seq<Seq<u8>>) -> Seq<(Seq<u8>, Seq<u8>)> {
    Seq::new(args.len() / 2, |i: int| (args[2 * i], args[2 * i + 1]))
}

/// `a + b`, or `u64::MAX` when that overflows.
pub open spec fn saturating_add(a: u64, b: u64) -> u64 {
    if a + b > u64::MAX {
        u64::MAX
    } else {
        (a + b) as u64
    }
}

/// The key and the number of an `EXPIRE` or `EXPIREAT`, from the arguments
/// after the name; `total` counts the name too.
pub open spec fn expiration_of(rest: Seq<Seq<u8>>, total: nat) -> Result<(Seq<u8>, u64), CommandFault> {
    if rest.len() < 2 {
        Err(CommandFault::TooFewArguments(total))
    } else if rest.len() > 2 {
        Err(CommandFault::TooManyArguments(total))
    } else if !valid_utf8(rest[1]) {
        Err(CommandFault::InvalidUtf8)
    } else {
        match parse_unsigned(decode_utf8(rest[1]), u64::MAX as nat) {
            Some(n) => Ok((rest[0], n as u64)),
            None => Err(CommandFault::InvalidExpiration(decode_utf8(rest[1]))),
        }
    }
}

pub open spec fn parse_get_args(rest: Seq<Seq<u8>>, total: nat) -> Result<CommandView, CommandFault> {
    if rest.len() == 0 {
        Err(CommandFault::TooFewArguments(total))
    } else if rest.len() > 1 {
        Err(CommandFault::TooManyArguments(total))
    } else {
        Ok(CommandView::Get(rest[0]))
    }
}

pub open spec fn parse_set_args(rest: Seq<Seq<u8>>, total: nat) -> Result<CommandView, CommandFault> {
    if rest.len() < 2 {
        Err(CommandFault::TooFewArguments(total))
    } else if rest.len() > 2 {
        Err(CommandFault::TooManyArguments(total))
    } else {
        Ok(CommandView::SetKey(rest[0], rest[1]))
    }
}

pub open spec fn parse_mget_args(rest: Seq<Seq<u8>>, total: nat) -> Result<CommandView, CommandFault> {
    if rest.len() == 0 {
        Err(CommandFault::TooFewArguments(total))
    } else {
        Ok(CommandView::MGet(rest))
    }
}

pub open spec fn parse_mset_args(rest: Seq<Seq<u8>>, total: nat) -> Result<CommandView, CommandFault> {
    if rest.len() < 2 {
        Err(CommandFault::TooFewArguments(total))
    } else if rest.len() % 2 != 0 {
        Err(CommandFault::UnevenArgumentLength(rest.len()))
    } else {
        Ok(CommandView::MSet(pairs_of(rest)))
    }
}

pub open spec fn parse_del_args(rest: Seq<Seq<u8>>, total: nat) -> Result<CommandView, CommandFault> {
    if rest.len() == 0 {
        Err(CommandFault::TooFewArguments(total))
    } else {
        Ok(CommandView::Del(rest))
    }
}

pub open spec fn parse_getall_args(rest: Seq<Seq<u8>>, total: nat) -> Result<CommandView, CommandFault> {
    if rest.len() != 0 {
        Err(CommandFault::TooManyArguments(total))
    } else {
        Ok(CommandView::GetAll)
    }
}

/// `EXPIRE key seconds`: the key expires `seconds` after `now`.
pub open spec fn parse_expire_args(rest: Seq<Seq<u8>>, total: nat, now: u64) -> Result<CommandView, CommandFault> {
    match expiration_of(rest, total) {
        Ok((k, s)) => Ok(CommandView::ExpireAt(k, saturating_add(now, s))),
        Err(f) => Err(f),
    }
}

/// `EXPIREAT key timestamp`: the key expires at the Unix time `timestamp`.
pub open spec fn parse_expire_at_args(rest: Seq<Seq<u8>>, total: nat) -> Result<CommandView, CommandFault> {
    match expiration_of(rest, total) {
        Ok((k, t)) => Ok(CommandView::ExpireAt(k, t)),
        Err(f) => Err(f),
    }
}

/// The command that the request `args` makes at the Unix time `now`.
pub open spec fn parse_command(args: Seq<Seq<u8>>, now: u64) -> Result<CommandView, CommandFault> {
    let total = args.len();
    if total == 0 {
        Err(CommandFault::TooFewArguments(0))
    } else if !valid_utf8(args[0]) {
        Err(CommandFault::InvalidUtf8)
    } else {
        let name = args[0];
        let rest = args.drop_first();
        if name == get_name() {
            parse_get_args(rest, total)
        } else if name == set_name() {
            parse_set_args(rest, total)
        } else if name == mget_name() {
            parse_mget_args(rest, total)
        } else if name == mset_name() {
            parse_mset_args(rest, total)
        } else if name == del_name() {
            parse_del_args(rest, total)
        } else if name == getall_name() {
            parse_getall_args(rest, total)
        } else if name == expire_name() {
            parse_expire_args(rest, total, now)
        } else if name == expireat_name() {
            parse_expire_at_args(rest, total)
        } else {
            Err(CommandFault::UnrecognizedCommand(decode_utf8(name)))
        }
    }
}

/// `r` is the outcome `o`: the same command, or an error that reports the same fault.
pub open spec fn outcome_is(r: Result<Command, CommandError>, o: Result<CommandView, CommandFault>) -> bool {
    match r {
        Ok(c) => o == Ok::<CommandView, CommandFault>(c@),
        Err(e) => o matches Err(f) && reports_command_fault(e, f),
    }
}


/// A command's name, as text.
pub open spec fn name_chars(c: CommandView) -> Seq<char> {
    match c {
        CommandView::Get(_) => seq!['G', 'E', 'T'],
        CommandView::SetKey(_, _) => seq!['S', 'E', 'T'],
        CommandView::MGet(_) => seq!['M', 'G', 'E', 'T'],
        CommandView::MSet(_) => seq!['M', 'S', 'E', 'T'],
        CommandView::Del(_) => seq!['D', 'E', 'L'],
        CommandView::GetAll => seq!['G', 'E', 'T', 'A', 'L', 'L'],
        CommandView::ExpireAt(_, _) => seq!['E', 'X', 'P', 'I', 'R', 'E', 'A', 'T'],
    }
}

/// The name a command is written with, as bytes.
pub open spec fn name_bytes(c: CommandView) -> Seq<u8> {
    match c {
        CommandView::Get(_) => get_name(),
        CommandView::SetKey(_, _) => set_name(),
        CommandView::MGet(_) => mget_name(),
        CommandView::MSet(_) => mset_name(),
        CommandView::Del(_) => del_name(),
        CommandView::GetAll => getall_name(),
        CommandView::ExpireAt(_, _) => expireat_name(),
    }
}

/// Key/value pairs laid out one after the other.
pub open spec fn flatten_pairs(es: Seq<(Seq<u8>, Seq<u8>)>) -> Seq<Seq<u8>> {
    Seq::new(2 * es.len(), |i: int| if i % 2 == 0 { es[i / 2].0 } else { es[i / 2].1 })
}

/// The bulk strings a command is written as: its name, then its arguments.
pub open spec fn command_parts(c: CommandView) -> Seq<Seq<u8>> {
    seq![name_bytes(c)] + match c {
        CommandView::Get(k) => seq![k],
        CommandView::SetKey(k, v) => seq![k, v],
        CommandView::MGet(ks) => ks,
        CommandView::MSet(es) => flatten_pairs(es),
        CommandView::Del(ks) => ks,
        CommandView::GetAll => Seq::empty(),
        CommandView::ExpireAt(k, t) => seq![k, ascii_bytes(decimal(t as nat))],
    }
}

/// The ASCII bytes of a name are its UTF-8 encoding.
proof fn lemma_ascii_name(chars: Seq<char>, bytes: Seq<u8>)
    requires
        is_ascii_chars(chars),
        ascii_bytes(chars) =~= bytes,
    ensures
        encode_utf8(chars) == bytes,
        valid_utf8(bytes),
        decode_utf8(bytes) == chars,
{
    lemma_ascii_chars_round_trip(chars);
    encode_utf8_valid_utf8(chars);
    encode_utf8_decode_utf8(chars);
}

/// Each command's name encodes to the bytes it is recognised by.
pub proof fn lemma_name_bytes(c: CommandView)
    ensures
        encode_utf8(name_chars(c)) == name_bytes(c),
        valid_utf8(name_bytes(c)),
{
    lemma_ascii_name(name_chars(c), name_bytes(c));
}

/// Whether `name` is the UTF-8 encoding of `expected`.
fn name_is(name: &[u8], expected: &str) -> (r: bool)
    ensures
        r == (name@ == encode_utf8(expected@)),
{
    bytes_equal(name, expected.as_bytes())
}

impl Command {
    fn parse_get(args: Vec<Bytes>, total: usize) -> (r: Result<Self, CommandError>)
        ensures
            outcome_is(r, parse_get_args(views(args@), total as nat)),
    {
        let mut args = args;
        if args.len() == 0 {
            return Err(CommandError::TooFewArguments(total));
        }
        if args.len() > 1 {
            return Err(CommandError::TooManyArguments(total));
        }
        let key = args.pop().unwrap();
        Ok(Command::Get(key))
    }

    fn parse_set(args: Vec<Bytes>, total: usize) -> (r: Result<Self, CommandError>)
        ensures
            outcome_is(r, parse_set_args(views(args@), total as nat)),
    {
        let mut args = args;
        if args.len() < 2 {
            return Err(CommandError::TooFewArguments(total));
        }
        if args.len() > 2 {
            return Err(CommandError::TooManyArguments(total));
        }
        let value = args.pop().unwrap();
        let key = args.pop().unwrap();
        Ok(Command::SetKey(key, value))
    }

    fn parse_mget(args: Vec<Bytes>, total: usize) -> (r: Result<Self, CommandError>)
        ensures
            outcome_is(r, parse_mget_args(views(args@), total as nat)),
    {
        if args.len() == 0 {
            return Err(CommandError::TooFewArguments(total));
        }
        Ok(Command::MGet(args))
    }

    fn parse_mset(args: Vec<Bytes>, total: usize) -> (r: Result<Self, CommandError>)
        ensures
            outcome_is(r, parse_mset_args(views(args@), total as nat)),
    {
        let mut args = args;
        let n = args.len();
        if n < 2 {
            return Err(CommandError::TooFewArguments(total));
        }
        if n % 2 != 0 {
            return Err(CommandError::UnevenArgumentLength(n));
        }
        let ghost orig = args@;
        let mut entries: Vec<(Bytes, Bytes)> = Vec::new();
        let mut i: usize = 0;
        while i < n
            invariant
                n == orig.len(),
                n % 2 == 0,
                i % 2 == 0,
                i <= n,
                args@.len() == n,
                forall|j: int| i <= j < n ==> #[trigger] args@[j] == orig[j],
                entries@.len() * 2 == i,
                forall|j: int|
                    0 <= j < entries@.len() ==> (#[trigger] entries@[j]).0@ == orig[2 * j]@
                        && entries@[j].1@ == orig[2 * j + 1]@,
            decreases n - i,
        {
            let mut key: Vec<u8> = Vec::new();
            args.set_and_swap(i, &mut key);
            let mut value: Vec<u8> = Vec::new();
            args.set_and_swap(i + 1, &mut value);
            entries.push((key, value));
            i += 2;
        }
        proof {
            assert(pair_views(entries@) =~= pairs_of(views(orig)));
        }
        Ok(Command::MSet(entries))
    }

    fn parse_del(args: Vec<Bytes>, total: usize) -> (r: Result<Self, CommandError>)
        ensures
            outcome_is(r, parse_del_args(views(args@), total as nat)),
    {
        if args.len() == 0 {
            return Err(CommandError::TooFewArguments(total));
        }
        Ok(Command::Del(args))
    }

    fn parse_getall(args: Vec<Bytes>, total: usize) -> (r: Result<Self, CommandError>)
        ensures
            outcome_is(r, parse_getall_args(views(args@), total as nat)),
    {
        if args.len() != 0 {
            return Err(CommandError::TooManyArguments(total));
        }
        Ok(Command::GetAll)
    }

    fn parse_expiration(args: Vec<Bytes>, total: usize) -> (r: Result<(Bytes, u64), CommandError>)
        ensures
            match r {
                Ok((k, t)) => expiration_of(views(args@), total as nat) == Ok::<
                    (Seq<u8>, u64),
                    CommandFault,
                >((k@, t)),
                Err(e) => expiration_of(views(args@), total as nat) matches Err(f)
                    && reports_command_fault(e, f),
            },
    {
        let mut args = args;
        if args.len() < 2 {
            return Err(CommandError::TooFewArguments(total));
        }
        if args.len() > 2 {
            return Err(CommandError::TooManyArguments(total));
        }
        let expiration = args.pop().unwrap();
        let key = args.pop().unwrap();
        let text = match str_from_utf8(expiration.as_slice()) {
            Ok(text) => text,
            Err(e) => return Err(CommandError::InvalidUtf8(e)),
        };
        match parse_u64(text) {
            Ok(n) => Ok((key, n)),
            Err(_) => Err(CommandError::InvalidExpiration(text.to_owned())),
        }
    }

    fn parse_expire(args: Vec<Bytes>, total: usize, now: u64) -> (r: Result<Self, CommandError>)
        ensures
            outcome_is(r, parse_expire_args(views(args@), total as nat, now)),
    {
        match Self::parse_expiration(args, total) {
            Ok((key, seconds)) => Ok(Command::ExpireAt(key, now.saturating_add(seconds))),
            Err(e) => Err(e),
        }
    }

    fn parse_expire_at(args: Vec<Bytes>, total: usize) -> (r: Result<Self, CommandError>)
        ensures
            outcome_is(r, parse_expire_at_args(views(args@), total as nat)),
    {
        match Self::parse_expiration(args, total) {
            Ok((key, timestamp)) => Ok(Command::ExpireAt(key, timestamp)),
            Err(e) => Err(e),
        }
    }

    /// The command a request makes, `EXPIRE` counting from the Unix time `now`.
    pub fn from_request_at(request: Request, now: u64) -> (r: Result<Self, CommandError>)
        ensures
            outcome_is(r, parse_command(request@, now)),
    {
        let ghost args0 = request@;
        let mut args = request.into_args();
        if args.len() == 0 {
            return Err(CommandError::TooFewArguments(0));
        }
        let total = args.len();
        let rest = args.split_off(1);
        let name = args[0].as_slice();
        proof {
            assert(views(rest@) =~= args0.drop_first());
            assert(name@ == args0[0]);
        }
        let text = match str_from_utf8(name) {
            Ok(text) => text,
            Err(e) => return Err(CommandError::InvalidUtf8(e)),
        };
        proof {
            reveal_strlit("GET");
            reveal_strlit("SET");
            reveal_strlit("MGET");
            reveal_strlit("MSET");
            reveal_strlit("DEL");
            reveal_strlit("GETALL");
            reveal_strlit("EXPIRE");
            reveal_strlit("EXPIREAT");
            lemma_name_bytes(CommandView::Get(Seq::empty()));
            lemma_name_bytes(CommandView::SetKey(Seq::empty(), Seq::empty()));
            lemma_name_bytes(CommandView::MGet(Seq::empty()));
            lemma_name_bytes(CommandView::MSet(Seq::empty()));
            lemma_name_bytes(CommandView::Del(Seq::empty()));
            lemma_name_bytes(CommandView::GetAll);
            lemma_name_bytes(CommandView::ExpireAt(Seq::empty(), 0));
            lemma_ascii_name(seq!['E', 'X', 'P', 'I', 'R', 'E'], expire_name());
            assert("GET"@ =~= seq!['G', 'E', 'T']);
            assert("SET"@ =~= seq!['S', 'E', 'T']);
            assert("MGET"@ =~= seq!['M', 'G', 'E', 'T']);
            assert("MSET"@ =~= seq!['M', 'S', 'E', 'T']);
            assert("DEL"@ =~= seq!['D', 'E', 'L']);
            assert("GETALL"@ =~= seq!['G', 'E', 'T', 'A', 'L', 'L']);
            assert("EXPIRE"@ =~= seq!['E', 'X', 'P', 'I', 'R', 'E']);
            assert("EXPIREAT"@ =~= seq!['E', 'X', 'P', 'I', 'R', 'E', 'A', 'T']);
        }
        if name_is(name, "GET") {
            Self::parse_get(rest, total)
        } else if name_is(name, "SET") {
            Self::parse_set(rest, total)
        } else if name_is(name, "MGET") {
            Self::parse_mget(rest, total)
        } else if name_is(name, "MSET") {
            Self::parse_mset(rest, total)
        } else if name_is(name, "DEL") {
            Self::parse_del(rest, total)
        } else if name_is(name, "GETALL") {
            Self::parse_getall(rest, total)
        } else if name_is(name, "EXPIRE") {
            Self::parse_expire(rest, total, now)
        } else if name_is(name, "EXPIREAT") {
            Self::parse_expire_at(rest, total)
        } else {
            Err(CommandError::UnrecognizedCommand(text.to_owned()))
        }
    }

    /// The command a request makes; `EXPIRE` counts from the clock. Whatever
    /// the clock reads, the outcome is the request's at some time, and a request
    /// that is not an `EXPIRE` does not depend on the time at all.
    pub fn from_request(request: Request) -> (r: Result<Self, CommandError>)
        ensures
            exists|now: u64| outcome_is(r, parse_command(request@, now)),
            !(request@.len() > 0 && request@[0] == expire_name()) ==> outcome_is(
                r,
                parse_command(request@, 0),
            ),
    {
        let now = get_unix_timestamp();
        let r = Self::from_request_at(request, now);
        proof {
            if !(request@.len() > 0 && request@[0] == expire_name()) {
                assert(parse_command(request@, now) == parse_command(request@, 0));
            }
        }
        r
    }

    /// The command's name.
    pub fn name(&self) -> (r: &'static str)
        ensures
            r@ == name_chars(self@),
    {
        proof {
            reveal_strlit("GET");
            reveal_strlit("SET");
            reveal_strlit("MGET");
            reveal_strlit("MSET");
            reveal_strlit("DEL");
            reveal_strlit("GETALL");
            reveal_strlit("EXPIREAT");
        }
        match self {
            Command::Del(_) => "DEL",
            Command::SetKey(_, _) => "SET",
            Command::Get(_) => "GET",
            Command::MGet(_) => "MGET",
            Command::MSet(_) => "MSET",
            Command::GetAll => "GETALL",
            Command::ExpireAt(_, _) => "EXPIREAT",
        }
    }

    pub fn is_set(&self) -> (r: bool)
        ensures
            r == (self@ is SetKey),
    {
        matches!(self, Command::SetKey(_, _))
    }

    pub fn is_del(&self) -> (r: bool)
        ensures
            r == (self@ is Del),
    {
        matches!(self, Command::Del(_))
    }

    pub fn is_get(&self) -> (r: bool)
        ensures
            r == (self@ is Get),
    {
        matches!(self, Command::Get(_))
    }

    pub fn is_mset(&self) -> (r: bool)
        ensures
            r == (self@ is MSet),
    {
        matches!(self, Command::MSet(_))
    }

    pub fn is_mget(&self) -> (r: bool)
        ensures
            r == (self@ is MGet),
    {
        matches!(self, Command::MGet(_))
    }

    pub fn is_expire_at(&self) -> (r: bool)
        ensures
            r == (self@ is ExpireAt),
    {
        matches!(self, Command::ExpireAt(_, _))
    }

    /// Whether the command changes the store: `DEL`, `SET`, `MSET` and `EXPIREAT` do.
    pub fn is_write_op(&self) -> (r: bool)
        ensures
            r == (self@ is Del || self@ is SetKey || self@ is MSet || self@ is ExpireAt),
    {
        self.is_del() || self.is_set() || self.is_mset() || self.is_expire_at()
    }

    /// The command in RESP form: a request of its name and its arguments.
    pub fn to_bytes(&self) -> (buf: Vec<u8>)
        ensures
            buf@ == encode_request(command_parts(self@)),
    {
        let mut parts: Vec<Bytes> = Vec::new();
        let name = self.name();
        parts.push(slice_to_vec(name.as_bytes()));
        proof {
            lemma_name_bytes(self@);
        }
        match self {
            Command::Get(key) => {
                parts.push(slice_to_vec(key.as_slice()));
            },
            Command::SetKey(key, value) => {
                parts.push(slice_to_vec(key.as_slice()));
                parts.push(slice_to_vec(value.as_slice()));
            },
            Command::MGet(keys) => {
                push_all(&mut parts, keys);
            },
            Command::Del(keys) => {
                push_all(&mut parts, keys);
            },
            Command::MSet(entries) => {
                let ghost head = views(parts@);
                let mut i: usize = 0;
                while i < entries.len()
                    invariant
                        i <= entries@.len(),
                        views(parts@) == head + flatten_pairs(pair_views(entries@.take(i as int))),
                    decreases entries@.len() - i,
                {
                    let (key, value) = &entries[i];
                    let ghost before = parts@;
                    let key_copy = slice_to_vec(key.as_slice());
                    let value_copy = slice_to_vec(value.as_slice());
                    parts.push(key_copy);
                    parts.push(value_copy);
                    proof {
                        let done = pair_views(entries@.take(i as int));
                        let more = pair_views(entries@.take(i + 1));
                        assert(more =~= done.push((key@, value@)));
                        assert(flatten_pairs(more) =~= flatten_pairs(done).push(key@).push(value@));
                        assert(views(parts@) =~= views(before).push(key_copy@).push(value_copy@));
                        assert(views(parts@) =~= head + flatten_pairs(more));
                    }
                    i += 1;
                }
                proof {
                    assert(entries@.take(i as int) =~= entries@);
                }
            },
            Command::GetAll => {},
            Command::ExpireAt(key, timestamp) => {
                parts.push(slice_to_vec(key.as_slice()));
                let mut digits: Vec<u8> = Vec::new();
                push_decimal(&mut digits, *timestamp);
                parts.push(digits);
            },
        }
        proof {
            assert(views(parts@) =~= command_parts(self@));
        }
        Request::from_args(parts).to_bytes()
    }
}

/// Appends copies of `items` to `parts`.
fn push_all(parts: &mut Vec<Bytes>, items: &Vec<Bytes>)
    ensures
        views(final(parts)@) == views(old(parts)@) + views(items@),
{
    let ghost head = views(parts@);
    let mut i: usize = 0;
    while i < items.len()
        invariant
            i <= items@.len(),
            views(parts@) == head + views(items@.take(i as int)),
        decreases items@.len() - i,
    {
        let ghost before = parts@;
        let copy = slice_to_vec(items[i].as_slice());
        parts.push(copy);
        proof {
            assert(items@.take(i + 1) =~= items@.take(i as int).push(items@[i as int]));
            assert(views(items@.take(i + 1)) =~= views(items@.take(i as int)).push(items@[i as int]@));
            assert(views(parts@) =~= views(before).push(copy@));
            assert(views(parts@) =~= head + views(items@.take(i + 1)));
        }
        i += 1;
    }
    proof {
        assert(items@.take(i as int) =~= items@);
    }
}

/// Turning a request into a command reads the clock for `EXPIRE`, so no
/// function of the request alone gives the outcome: the conversion claims none,
/// and `Command::from_request` states what holds.
impl vstd::std_specs::convert::TryFromSpecImpl<Request> for Command {
    open spec fn obeys_try_from_spec() -> bool {
        false
    }

    open spec fn try_from_spec(v: Request) -> Result<Self, CommandError> {
        vstd::pervasive::arbitrary()
    }
}

impl TryFrom<Request> for Command {
    type Error = CommandError;

    /// `Command::from_request`: the outcome is the request's at some time,
    /// and at any time for a request that is not an `EXPIRE`.
    fn try_from(request: Request) -> (r: Result<Self, CommandError>)
        ensures
            exists|now: u64| outcome_is(r, parse_command(request@, now)),
            !(request@.len() > 0 && request@[0] == expire_name()) ==> outcome_is(
                r,
                parse_command(request@, 0),
            ),
    {
        Self::from_request(request)
    }
}

/// What a store holds, each value by its view.
pub open spec fn stored(m: Map<Seq<u8>, StoredValue>) -> Map<Seq<u8>, StoredView> {
    m.map_values(|v: StoredValue| v@)
}

/// `k` holds a value that has not expired at `now`.
pub open spec fn live(m: Map<Seq<u8>, StoredView>, k: Seq<u8>, now: u64) -> bool {
    m.contains_key(k) && !expired_at(m[k], now)
}

/// The store once the expired values under the keys `ks` are dropped.
pub open spec fn purged(m: Map<Seq<u8>, StoredView>, ks: Set<Seq<u8>>, now: u64) -> Map<Seq<u8>, StoredView> {
    Map::new(
        |k: Seq<u8>| m.contains_key(k) && !(ks.contains(k) && expired_at(m[k], now)),
        |k: Seq<u8>| m[k],
    )
}

/// What `GET k` answers: the value, unless there is none or it has expired.
pub open spec fn get_reply(m: Map<Seq<u8>, StoredView>, k: Seq<u8>, now: u64) -> RespView {
    if live(m, k, now) {
        RespView::Cstr(m[k].bytes)
    } else {
        RespView::Null
    }
}

/// One key and its value, as `GETALL` lists them.
pub open spec fn pair_reply(k: Seq<u8>, v: Seq<u8>) -> RespView {
    RespView::Array(seq![RespView::Cstr(k), RespView::Cstr(v)])
}

/// `r` lists every key of `m` once, each with its value, in some order.
pub open spec fn lists_all(m: Map<Seq<u8>, StoredView>, r: RespView) -> bool {
    r matches RespView::Array(items) && exists|ks: Seq<Seq<u8>>|
        #![trigger ks.len()]
        ks.len() == items.len() && ks.no_duplicates() && (forall|i: int|
            0 <= i < ks.len() ==> m.contains_key(#[trigger] ks[i]) && items[i] == pair_reply(
                ks[i],
                m[ks[i]].bytes,
            )) && (forall|k: Seq<u8>| m.contains_key(k) ==> #[trigger] ks.contains(k))
}

/// The keys among `ks` that hold a value that has not expired at `now`.
pub open spec fn live_keys(m: Map<Seq<u8>, StoredView>, ks: Seq<Seq<u8>>, now: u64) -> Set<Seq<u8>> {
    ks.to_set().filter(|k: Seq<u8>| live(m, k, now))
}

/// `MSET`: each pair stored in turn, a later one replacing an earlier one.
pub open spec fn set_all(m: Map<Seq<u8>, StoredView>, es: Seq<(Seq<u8>, Seq<u8>)>) -> Map<Seq<u8>, StoredView>
    decreases es.len(),
{
    if es.len() == 0 {
        m
    } else {
        set_all(m, es.drop_last()).insert(
            es.last().0,
            StoredView { bytes: es.last().1, expires_at: None },
        )
    }
}

/// `EXPIREAT k t`: a live value gets the expiry time `t`; an expired one is dropped.
pub open spec fn expire_store(m: Map<Seq<u8>, StoredView>, k: Seq<u8>, t: u64, now: u64) -> Map<Seq<u8>, StoredView> {
    if live(m, k, now) {
        m.insert(k, StoredView { bytes: m[k].bytes, expires_at: Some(t) })
    } else {
        m.remove(k)
    }
}

/// The store after the command runs at `now`.
pub open spec fn next_store(m: Map<Seq<u8>, StoredView>, c: CommandView, now: u64) -> Map<Seq<u8>, StoredView> {
    match c {
        CommandView::Get(k) => purged(m, set![k], now),
        CommandView::MGet(ks) => purged(m, ks.to_set(), now),
        CommandView::GetAll => purged(m, m.dom(), now),
        CommandView::Del(ks) => m.remove_keys(ks.to_set()),
        CommandView::SetKey(k, v) => m.insert(k, StoredView { bytes: v, expires_at: None }),
        CommandView::MSet(es) => set_all(m, es),
        CommandView::ExpireAt(k, t) => expire_store(m, k, t, now),
    }
}

/// `r` is what the command answers when it runs at `now` on `m`.
pub open spec fn replies(m: Map<Seq<u8>, StoredView>, c: CommandView, now: u64, r: RespView) -> bool {
    match c {
        CommandView::Get(k) => r == get_reply(m, k, now),
        CommandView::MGet(ks) => r == RespView::Array(ks.map_values(|k: Seq<u8>| get_reply(m, k, now))),
        CommandView::GetAll => lists_all(purged(m, m.dom(), now), r),
        CommandView::Del(ks) => r == RespView::Integer(live_keys(m, ks, now).len() as int),
        CommandView::SetKey(_, _) => r == RespView::Okay,
        CommandView::MSet(_) => r == RespView::Okay,
        CommandView::ExpireAt(k, _) => r == RespView::Integer(
            if live(m, k, now) {
                1
            } else {
                0
            },
        ),
    }
}

/// How many keys the command may add to the store.
pub open spec fn added_keys(c: CommandView) -> nat {
    match c {
        CommandView::SetKey(_, _) => 1,
        CommandView::MSet(es) => es.len(),
        _ => 0,
    }
}

/// What a run of the command needs: the store's size stays well within
/// memory, and a `DEL` count fits in the reply's integer.
pub open spec fn can_apply(m: Map<Seq<u8>, StoredValue>, c: CommandView) -> bool {
    &&& m.len() + added_keys(c) < usize::MAX / 16
    &&& c matches CommandView::Del(ks) ==> ks.len() <= i64::MAX
}

proof fn lemma_stored_insert(m: Map<Seq<u8>, StoredValue>, k: Seq<u8>, v: StoredValue)
    ensures
        stored(m.insert(k, v)) == stored(m).insert(k, v@),
{
    assert(stored(m.insert(k, v)) =~= stored(m).insert(k, v@));
}

proof fn lemma_stored_remove(m: Map<Seq<u8>, StoredValue>, k: Seq<u8>)
    ensures
        stored(m.remove(k)) == stored(m).remove(k),
{
    assert(stored(m.remove(k)) =~= stored(m).remove(k));
}

impl Command {
    /// Drops the value under `key` if it has expired at `now`.
    fn eject_if_expired(key_store: &mut KeyStore<StoredValue>, key: &Bytes, now: u64)
        requires
            old(key_store).wf(),
        ensures
            final(key_store).wf(),
            stored(final(key_store)@) == purged(stored(old(key_store)@), set![key@], now),
            final(key_store)@.len() <= old(key_store)@.len(),
    {
        let ghost m0 = stored(key_store@);
        let expired = match key_store.get(key) {
            Some(value) => value.is_expired_at(now),
            None => false,
        };
        if expired {
            proof {
                key_store.lemma_view_finite();
            }
            let _ = key_store.del(key);
            proof {
                lemma_stored_remove(old(key_store)@, key@);
                assert(key_store@.dom() =~= old(key_store)@.dom().remove(key@));
            }
        }
        proof {
            assert(stored(key_store@) =~= purged(m0, set![key@], now));
        }
    }

    fn apply_get(key: &Bytes, key_store: &mut KeyStore<StoredValue>, now: u64) -> (r: Response)
        requires
            old(key_store).wf(),
        ensures
            final(key_store).wf(),
            stored(final(key_store)@) == purged(stored(old(key_store)@), set![key@], now),
            r@ == get_reply(stored(old(key_store)@), key@, now),
            final(key_store)@.len() <= old(key_store)@.len(),
    {
        let ghost m0 = stored(key_store@);
        Self::eject_if_expired(key_store, key, now);
        match key_store.get(key) {
            Some(value) => {
                proof {
                    assert(stored(key_store@).contains_key(key@));
                    assert(stored(key_store@)[key@] == key_store@[key@]@);
                    assert(live(m0, key@, now));
                }
                Response::Cstr(slice_to_vec(value.bytes.as_slice()))
            },
            None => {
                proof {
                    assert(!stored(key_store@).contains_key(key@));
                }
                Response::Null
            },
        }
    }

    fn apply_mget(keys: &Vec<Bytes>, key_store: &mut KeyStore<StoredValue>, now: u64) -> (r: Response)
        requires
            old(key_store).wf(),
        ensures
            final(key_store).wf(),
            stored(final(key_store)@) == purged(stored(old(key_store)@), views(keys@).to_set(), now),
            r@ == RespView::Array(
                views(keys@).map_values(|k: Seq<u8>| get_reply(stored(old(key_store)@), k, now)),
            ),
            final(key_store)@.len() <= old(key_store)@.len(),
    {
        let ghost m0 = stored(key_store@);
        let ghost ks = views(keys@);
        let mut items: Vec<Response> = Vec::new();
        let mut i: usize = 0;
        proof {
            assert(purged(m0, ks.take(0).to_set(), now) =~= m0);
        }
        while i < keys.len()
            invariant
                key_store.wf(),
                ks == views(keys@),
                i <= keys@.len(),
                stored(key_store@) == purged(m0, ks.take(i as int).to_set(), now),
                key_store@.len() <= old(key_store)@.len(),
                m0 == stored(old(key_store)@),
                views_of(items@) == ks.take(i as int).map_values(
                    |k: Seq<u8>| get_reply(m0, k, now),
                ),
            decreases keys@.len() - i,
        {
            let ghost before = stored(key_store@);
            let ghost k = ks[i as int];
            let item = Self::apply_get(&keys[i], key_store, now);
            proof {
                assert(keys@[i as int]@ == k);
                assert(get_reply(before, k, now) == get_reply(m0, k, now));
                lemma_views_of_push(items@, item);
                assert(ks.take(i + 1) =~= ks.take(i as int).push(k));
                ks.take(i as int).lemma_push_to_set_commute(k);
                assert(purged(before, set![k], now) =~= purged(m0, ks.take(i + 1).to_set(), now));
            }
            items.push(item);
            proof {
                assert(views_of(items@) =~= ks.take(i + 1).map_values(
                    |k: Seq<u8>| get_reply(m0, k, now),
                ));
            }
            i += 1;
        }
        proof {
            assert(ks.take(i as int) =~= ks);
        }
        Response::Array(items)
    }

    fn apply_set(key: Bytes, value: Bytes, key_store: &mut KeyStore<StoredValue>) -> (r: Response)
        requires
            old(key_store).wf(),
            old(key_store)@.len() + 1 < usize::MAX / 16,
        ensures
            final(key_store).wf(),
            stored(final(key_store)@) == stored(old(key_store)@).insert(
                key@,
                StoredView { bytes: value@, expires_at: None },
            ),
            r@ == RespView::Okay,
    {
        let ghost k = key@;
        let v = StoredValue::new(value);
        let ghost vv = v;
        let _ = key_store.insert(key, v);
        proof {
            lemma_stored_insert(old(key_store)@, k, vv);
        }
        Response::Okay
    }

    fn apply_mset(entries: Vec<(Bytes, Bytes)>, key_store: &mut KeyStore<StoredValue>) -> (r: Response)
        requires
            old(key_store).wf(),
            old(key_store)@.len() + entries@.len() < usize::MAX / 16,
        ensures
            final(key_store).wf(),
            stored(final(key_store)@) == set_all(stored(old(key_store)@), pair_views(entries@)),
            r@ == RespView::Okay,
    {
        let ghost m0 = stored(key_store@);
        let ghost es = pair_views(entries@);
        let n = entries.len();
        let mut entries = entries;
        let mut i: usize = 0;
        while i < n
            invariant
                key_store.wf(),
                n == entries@.len(),
                es.len() == n,
                i <= n,
                forall|j: int| i <= j < n ==> (#[trigger] entries@[j]).0@ == es[j].0 && entries@[j].1@
                    == es[j].1,
                stored(key_store@) == set_all(m0, es.take(i as int)),
                key_store@.len() <= old(key_store)@.len() + i,
                old(key_store)@.len() + n < usize::MAX / 16,
            decreases n - i,
        {
            let mut pair: (Bytes, Bytes) = (Vec::new(), Vec::new());
            entries.set_and_swap(i, &mut pair);
            let (key, value) = pair;
            let ghost before = key_store@;
            proof {
                key_store.lemma_view_finite();
            }
            let r = Self::apply_set(key, value, key_store);
            proof {
                assert(es.take(i + 1).drop_last() =~= es.take(i as int));
                assert(es.take(i + 1).last() == es[i as int]);
                assert(stored(key_store@).dom() =~= stored(before).dom().insert(es[i as int].0));
                assert(key_store@.dom() =~= stored(key_store@).dom());
                assert(before.dom() =~= stored(before).dom());
            }
            i += 1;
        }
        proof {
            assert(es.take(n as int) =~= es);
        }
        Response::Okay
    }

    fn apply_del(keys: &Vec<Bytes>, key_store: &mut KeyStore<StoredValue>, now: u64) -> (r: Response)
        requires
            old(key_store).wf(),
            keys@.len() <= i64::MAX,
        ensures
            final(key_store).wf(),
            stored(final(key_store)@) == stored(old(key_store)@).remove_keys(views(keys@).to_set()),
            r@ == RespView::Integer(live_keys(stored(old(key_store)@), views(keys@), now).len() as int),
    {
        let ghost m0 = stored(key_store@);
        let ghost ks = views(keys@);
        let mut count: usize = 0;
        let mut i: usize = 0;
        proof {
            assert(m0.remove_keys(ks.take(0).to_set()) =~= m0);
            assert(live_keys(m0, ks.take(0), now) =~= Set::<Seq<u8>>::empty());
        }
        while i < keys.len()
            invariant
                key_store.wf(),
                ks == views(keys@),
                m0 == stored(old(key_store)@),
                i <= keys@.len(),
                keys@.len() <= i64::MAX,
                stored(key_store@) == m0.remove_keys(ks.take(i as int).to_set()),
                count == live_keys(m0, ks.take(i as int), now).len(),
                live_keys(m0, ks.take(i as int), now).finite(),
                count <= i,
            decreases keys@.len() - i,
        {
            let ghost k = ks[i as int];
            let ghost before = stored(key_store@);
            let ghost seen = ks.take(i as int).to_set();
            proof {
                assert(keys@[i as int]@ == k);
                assert(ks.take(i + 1) =~= ks.take(i as int).push(k));
                ks.take(i as int).lemma_push_to_set_commute(k);
            }
            Self::eject_if_expired(key_store, &keys[i], now);
            let ghost s1 = key_store@;
            let removed = key_store.del(&keys[i]);
            proof {
                lemma_stored_remove(s1, k);
                assert(stored(s1).dom() =~= s1.dom());
                assert(stored(key_store@) =~= m0.remove_keys(ks.take(i + 1).to_set()));
                let old_live = live_keys(m0, ks.take(i as int), now);
                let new_live = live_keys(m0, ks.take(i + 1), now);
                if live(m0, k, now) && !seen.contains(k) {
                    assert(new_live =~= old_live.insert(k));
                    assert(!old_live.contains(k));
                    assert(stored(s1).contains_key(k));
                    assert(removed is Some);
                } else {
                    assert(new_live =~= old_live);
                    assert(!stored(s1).contains_key(k));
                    assert(removed is None);
                }
            }
            if removed.is_some() {
                count += 1;
            }
            i += 1;
        }
        proof {
            assert(ks.take(i as int) =~= ks);
        }
        Response::Integer(count as i64)
    }

    fn apply_expire_at(key: Bytes, timestamp: u64, key_store: &mut KeyStore<StoredValue>, now: u64) -> (r: Response)
        requires
            old(key_store).wf(),
            old(key_store)@.len() < usize::MAX / 16,
        ensures
            final(key_store).wf(),
            stored(final(key_store)@) == expire_store(stored(old(key_store)@), key@, timestamp, now),
            r@ == RespView::Integer(
                if live(stored(old(key_store)@), key@, now) {
                    1
                } else {
                    0
                },
            ),
    {
        let ghost m0 = stored(key_store@);
        Self::eject_if_expired(key_store, &key, now);
        let ghost m1 = stored(key_store@);
        let ghost s1 = key_store@;
        let ghost k = key@;
        proof {
            key_store.lemma_view_finite();
            assert(m1.dom() =~= s1.dom());
        }
        match key_store.del(&key) {
            Some(value) => {
                proof {
                    assert(s1.contains_key(k) && s1[k] == value);
                    assert(m1[k] == value@);
                    assert(live(m0, k, now));
                }
                let updated = StoredValue { bytes: value.bytes, expires_at: Some(timestamp) };
                let ghost u = updated;
                let ghost m2 = key_store@;
                let _ = key_store.insert(key, updated);
                proof {
                    lemma_stored_insert(m2, k, u);
                    lemma_stored_remove(s1, k);
                    assert(stored(key_store@) =~= expire_store(m0, k, timestamp, now));
                }
                Response::Integer(1)
            },
            None => {
                proof {
                    lemma_stored_remove(s1, k);
                    assert(!m1.contains_key(k));
                    assert(!live(m0, k, now));
                    assert(stored(key_store@) =~= expire_store(m0, k, timestamp, now));
                }
                Response::Integer(0)
            },
        }
    }

    fn apply_getall(key_store: &mut KeyStore<StoredValue>, now: u64) -> (r: Response)
        requires
            old(key_store).wf(),
        ensures
            final(key_store).wf(),
            stored(final(key_store)@) == purged(
                stored(old(key_store)@),
                stored(old(key_store)@).dom(),
                now,
            ),
            lists_all(purged(stored(old(key_store)@), stored(old(key_store)@).dom(), now), r@),
    {
        let ghost m0 = stored(key_store@);
        let keys = key_store.keys();
        let ghost kv = views(keys@);
        let n = keys.len();
        let mut items: Vec<Response> = Vec::new();
        let ghost mut listed: Seq<Seq<u8>> = Seq::empty();
        let ghost mut idx: Seq<int> = Seq::empty();
        let mut i: usize = 0;
        proof {
            assert(m0.dom() =~= old(key_store)@.dom());
            assert(purged(m0, kv.take(0).to_set(), now) =~= m0);
        }
        while i < n
            invariant
                key_store.wf(),
                n == keys@.len(),
                kv == views(keys@),
                m0 == stored(old(key_store)@),
                i <= n,
                forall|j: int| 0 <= j < n ==> m0.contains_key(#[trigger] kv[j]),
                forall|p: int, q: int| 0 <= p < q < n ==> kv[p] != kv[q],
                stored(key_store@) == purged(m0, kv.take(i as int).to_set(), now),
                listed.len() == items@.len(),
                views_of(items@).len() == items@.len(),
                idx.len() == listed.len(),
                forall|p: int|
                    0 <= p < listed.len() ==> 0 <= #[trigger] idx[p] < i && listed[p] == kv[idx[p]]
                        && live(m0, listed[p], now) && views_of(items@)[p] == pair_reply(
                        listed[p],
                        m0[listed[p]].bytes,
                    ),
                forall|p: int, q: int| 0 <= p < q < idx.len() ==> idx[p] < idx[q],
                forall|j: int|
                    0 <= j < i && live(m0, #[trigger] kv[j], now) ==> exists|p: int|
                        0 <= p < idx.len() && idx[p] == j,
            decreases n - i,
        {
            let ghost k = kv[i as int];
            let ghost before = stored(key_store@);
            let ghost old_idx = idx;
            let ghost old_listed = listed;
            let ghost old_views = views_of(items@);
            proof {
                assert(keys@[i as int]@ == k);
                assert(kv.take(i + 1) =~= kv.take(i as int).push(k));
                kv.take(i as int).lemma_push_to_set_commute(k);
                assert(!kv.take(i as int).to_set().contains(k)) by {
                    if kv.take(i as int).to_set().contains(k) {
                        let j = choose|j: int| 0 <= j < i && kv.take(i as int)[j] == k;
                        assert(kv[j] == kv[i as int]);
                    }
                }
                assert(before.contains_key(k) && before[k] == m0[k]);
            }
            let found = match key_store.get(&keys[i]) {
                Some(value) => {
                    proof {
                        assert(stored(key_store@)[k] == key_store@[k]@);
                    }
                    if value.is_expired_at(now) {
                        None
                    } else {
                        Some(slice_to_vec(value.bytes.as_slice()))
                    }
                },
                None => None,
            };
            match found {
                Some(bytes) => {
                    let mut pair: Vec<Response> = Vec::new();
                    let key_copy = Response::Cstr(slice_to_vec(keys[i].as_slice()));
                    let value_copy = Response::Cstr(bytes);
                    proof {
                        assert(views_of(pair@) =~= Seq::<RespView>::empty());
                        lemma_views_of_push(pair@, key_copy);
                    }
                    pair.push(key_copy);
                    proof {
                        lemma_views_of_push(pair@, value_copy);
                    }
                    pair.push(value_copy);
                    let item = Response::Array(pair);
                    proof {
                        assert(views_of(pair@) =~= seq![RespView::Cstr(k), RespView::Cstr(m0[k].bytes)]);
                        assert(item@ == pair_reply(k, m0[k].bytes));
                        lemma_views_of_push(items@, item);
                        listed = listed.push(k);
                        idx = idx.push(i as int);
                        assert(live(m0, k, now));
                        assert(stored(key_store@) =~= purged(m0, kv.take(i + 1).to_set(), now));
                    }
                    items.push(item);
                },
                None => {
                    proof {
                        key_store.lemma_view_finite();
                        assert(!live(m0, k, now));
                    }
                    let ghost s1 = key_store@;
                    let _ = key_store.del(&keys[i]);
                    proof {
                        lemma_stored_remove(s1, k);
                        assert(stored(key_store@) =~= purged(m0, kv.take(i + 1).to_set(), now));
                    }
                },
            }
            proof {
                assert forall|p: int| 0 <= p < listed.len() implies 0 <= #[trigger] idx[p] < i + 1
                    && listed[p] == kv[idx[p]] && live(m0, listed[p], now) && views_of(items@)[p]
                    == pair_reply(listed[p], m0[listed[p]].bytes) by {
                    if p < old_listed.len() {
                        assert(0 <= old_idx[p] < i);
                        assert(idx[p] == old_idx[p] && listed[p] == old_listed[p]);
                        assert(views_of(items@)[p] == old_views[p]);
                    }
                }
                assert forall|j: int| 0 <= j < i + 1 && live(m0, #[trigger] kv[j], now) implies exists|p: int|
                    0 <= p < idx.len() && idx[p] == j by {
                    if j < i {
                        let p = choose|p: int| 0 <= p < old_idx.len() && old_idx[p] == j;
                        assert(idx[p] == old_idx[p]);
                    } else {
                        assert(idx[idx.len() - 1] == j);
                    }
                }
            }
            i += 1;
        }
        let r = Response::Array(items);
        proof {
            let live_map = purged(m0, m0.dom(), now);
            assert(kv.take(n as int) =~= kv);
            assert(kv.to_set() =~= m0.dom()) by {
                assert forall|k: Seq<u8>| m0.contains_key(k) implies kv.to_set().contains(k) by {
                    assert(old(key_store)@.contains_key(k));
                    let j = choose|j: int| 0 <= j < keys@.len() && #[trigger] keys@[j]@ == k;
                    assert(kv[j] == k);
                }
            }
            assert(stored(key_store@) =~= live_map);
            assert(listed.no_duplicates()) by {
                assert forall|p: int, q: int| 0 <= p < listed.len() && 0 <= q < listed.len() && p
                    != q implies listed[p] != listed[q] by {
                    if p < q {
                        assert(idx[p] < idx[q]);
                    } else {
                        assert(idx[q] < idx[p]);
                    }
                }
            }
            assert forall|k: Seq<u8>| live_map.contains_key(k) implies #[trigger] listed.contains(k) by {
                let j = choose|j: int| 0 <= j < n && kv[j] == k;
                assert(live(m0, kv[j], now));
                let p = choose|p: int| 0 <= p < idx.len() && idx[p] == j;
                assert(listed[p] == k);
            }
            assert forall|p: int| 0 <= p < listed.len() implies live_map.contains_key(
                #[trigger] listed[p],
            ) && views_of(items@)[p] == pair_reply(listed[p], live_map[listed[p]].bytes) by {
                assert(0 <= idx[p] < i);
                assert(live(m0, listed[p], now));
            }
            assert(r@ == RespView::Array(views_of(items@)));
            lemma_views_of_len(items@);
            assert(lists_all(live_map, r@));
        }
        r
    }

    /// Runs the command on the store at the Unix time `now`, as of which
    /// expired values count as absent: the keys a command touches lose their
    /// expired values, and `GETALL` drops every expired value.
    pub fn apply_at(self, key_store: &mut KeyStore<StoredValue>, now: u64) -> (r: Response)
        requires
            old(key_store).wf(),
            can_apply(old(key_store)@, self@),
        ensures
            final(key_store).wf(),
            stored(final(key_store)@) == next_store(stored(old(key_store)@), self@, now),
            replies(stored(old(key_store)@), self@, now, r@),
    {
        proof {
            assert(stored(old(key_store)@).len() == old(key_store)@.len()) by {
                assert(stored(old(key_store)@).dom() =~= old(key_store)@.dom());
            }
        }
        match self {
            Command::Get(key) => Self::apply_get(&key, key_store, now),
            Command::MGet(keys) => Self::apply_mget(&keys, key_store, now),
            Command::GetAll => Self::apply_getall(key_store, now),
            Command::Del(keys) => Self::apply_del(&keys, key_store, now),
            Command::SetKey(key, value) => Self::apply_set(key, value, key_store),
            Command::MSet(entries) => {
                proof {
                    assert(pair_views(entries@).len() == entries@.len());
                }
                Self::apply_mset(entries, key_store)
            },
            Command::ExpireAt(key, timestamp) => Self::apply_expire_at(key, timestamp, key_store, now),
        }
    }

    /// Runs the command on the store at the time the clock reads.
    pub fn apply(self, key_store: &mut KeyStore<StoredValue>) -> (r: Response)
        requires
            old(key_store).wf(),
            can_apply(old(key_store)@, self@),
        ensures
            final(key_store).wf(),
            exists|now: u64|
                stored(final(key_store)@) == next_store(stored(old(key_store)@), self@, now)
                    && replies(stored(old(key_store)@), self@, now, r@),
    {
        let now = get_unix_timestamp();
        self.apply_at(key_store, now)
    }
}

/// A command that reading can give back: `MGET`, `MSET` and `DEL` name at least one key.
pub open spec fn readable(c: CommandView) -> bool {
    match c {
        CommandView::MGet(ks) => ks.len() > 0,
        CommandView::MSet(es) => es.len() > 0,
        CommandView::Del(ks) => ks.len() > 0,
        _ => true,
    }
}

proof fn lemma_names_distinct()
    ensures
        get_name() != set_name(),
        get_name() != del_name(),
        set_name() != del_name(),
        mget_name() != mset_name(),
        getall_name() != expire_name(),
        get_name().len() == 3 && set_name().len() == 3 && del_name().len() == 3,
        mget_name().len() == 4 && mset_name().len() == 4,
        getall_name().len() == 6 && expire_name().len() == 6,
        expireat_name().len() == 8,
{
    assert(get_name()[0] != set_name()[0]);
    assert(get_name()[0] != del_name()[0]);
    assert(set_name()[0] != del_name()[0]);
    assert(mget_name()[1] != mset_name()[1]);
    assert(getall_name()[0] != expire_name()[0]);
}

/// Writing a command and reading the bytes back gives the same command: the
/// request holds the command's parts, and those parts make the command again,
/// whatever the time of reading.
pub proof fn lemma_command_round_trip(c: CommandView, rest: Seq<u8>, now: u64)
    requires
        readable(c),
        command_parts(c).len() <= crate::request::MAX_ARRAY_LENGTH,
        forall|i: int|
            0 <= i < command_parts(c).len() ==> #[trigger] command_parts(c)[i].len()
                <= crate::util::MAX_COMPLEX_STRING_LENGTH,
        encode_request(command_parts(c)).len() + rest.len() <= usize::MAX,
    ensures
        request_outcome(encode_request(command_parts(c)) + rest) == PartOutcome::Complete(
            command_parts(c),
            encode_request(command_parts(c)).len() as int,
        ),
        parse_command(command_parts(c), now) == Ok::<CommandView, CommandFault>(c),
{
    lemma_request_round_trip(command_parts(c), rest);
    lemma_name_bytes(c);
    lemma_names_distinct();
    let parts = command_parts(c);
    let args = parts.drop_first();
    assert(parts[0] == name_bytes(c));
    match c {
        CommandView::Get(k) => {
            assert(args =~= seq![k]);
        },
        CommandView::SetKey(k, v) => {
            assert(args =~= seq![k, v]);
        },
        CommandView::MGet(ks) => {
            assert(args =~= ks);
        },
        CommandView::Del(ks) => {
            assert(args =~= ks);
        },
        CommandView::MSet(es) => {
            assert(args =~= flatten_pairs(es));
            assert(args.len() % 2 == 0);
            assert(pairs_of(args) =~= es);
        },
        CommandView::GetAll => {
            assert(args =~= Seq::<Seq<u8>>::empty());
        },
        CommandView::ExpireAt(k, t) => {
            let digits = ascii_bytes(decimal(t as nat));
            assert(args =~= seq![k, digits]);
            lemma_decimal(t as nat);
            lemma_ascii_chars_round_trip(decimal(t as nat));
            lemma_ascii_utf8(digits);
            lemma_parse_decimal(t as nat, u64::MAX as nat);
            assert(expireat_name() != expire_name());
        },
    }
}

/// After `MSET`, a key it names holds the value of the last pair that names
/// it, with no expiry, whether or not the key held a value before; a key it
/// does not name keeps what it held.
pub proof fn lemma_mset_stores_every_pair(
    m: Map<Seq<u8>, StoredView>,
    es: Seq<(Seq<u8>, Seq<u8>)>,
    i: int,
    k2: Seq<u8>,
    now: u64,
)
    ensures
        0 <= i < es.len() && (forall|j: int| i < j < es.len() ==> es[j].0 != es[i].0) ==> {
            &&& next_store(m, CommandView::MSet(es), now).contains_key(es[i].0)
            &&& next_store(m, CommandView::MSet(es), now)[es[i].0] == StoredView {
                bytes: es[i].1,
                expires_at: None,
            }
        },
        (forall|j: int| 0 <= j < es.len() ==> es[j].0 != k2) ==> {
            &&& next_store(m, CommandView::MSet(es), now).contains_key(k2) == m.contains_key(k2)
            &&& m.contains_key(k2) ==> next_store(m, CommandView::MSet(es), now)[k2] == m[k2]
        },
    decreases es.len(),
{
    if es.len() > 0 {
        let init = es.drop_last();
        lemma_mset_stores_every_pair(m, init, i, k2, now);
        if 0 <= i < es.len() - 1 && (forall|j: int| i < j < es.len() ==> es[j].0 != es[i].0) {
            assert(es[es.len() - 1].0 != es[i].0);
            assert(init[i] == es[i]);
            assert forall|j: int| i < j < init.len() implies init[j].0 != init[i].0 by {
                assert(init[j] == es[j]);
            }
        }
        if forall|j: int| 0 <= j < es.len() ==> es[j].0 != k2 {
            assert(es[es.len() - 1].0 != k2);
            assert forall|j: int| 0 <= j < init.len() implies init[j].0 != k2 by {
                assert(init[j] == es[j]);
            }
        }
    }
}

/// A read gives back a write of `MSET`: a `GET` of a key it names answers the
/// value of the last pair naming that key, at any time.
pub proof fn lemma_get_after_mset(
    m: Map<Seq<u8>, StoredView>,
    es: Seq<(Seq<u8>, Seq<u8>)>,
    i: int,
    t1: u64,
    t2: u64,
)
    requires
        0 <= i < es.len(),
        forall|j: int| i < j < es.len() ==> es[j].0 != es[i].0,
    ensures
        replies(
            next_store(m, CommandView::MSet(es), t1),
            CommandView::Get(es[i].0),
            t2,
            RespView::Cstr(es[i].1),
        ),
{
    lemma_mset_stores_every_pair(m, es, i, es[i].0, t1);
}

/// A read gives back a write: after `SET k v`, `GET k` answers `v`, at any time.
pub proof fn lemma_get_after_set(m: Map<Seq<u8>, StoredView>, k: Seq<u8>, v: Seq<u8>, t1: u64, t2: u64)
    ensures
        replies(next_store(m, CommandView::SetKey(k, v), t1), CommandView::Get(k), t2, RespView::Cstr(v)),
{
}

/// A write to one key leaves what `GET` answers for another key as it was.
pub proof fn lemma_set_keeps_other_keys(
    m: Map<Seq<u8>, StoredView>,
    k: Seq<u8>,
    v: Seq<u8>,
    other: Seq<u8>,
    t1: u64,
    t2: u64,
)
    requires
        k != other,
    ensures
        get_reply(next_store(m, CommandView::SetKey(k, v), t1), other, t2) == get_reply(m, other, t2),
{
}

/// After `DEL`, each key it names reads as absent.
pub proof fn lemma_get_after_del(m: Map<Seq<u8>, StoredView>, ks: Seq<Seq<u8>>, k: Seq<u8>, t1: u64, t2: u64)
    requires
        ks.contains(k),
    ensures
        replies(next_store(m, CommandView::Del(ks), t1), CommandView::Get(k), t2, RespView::Null),
{
}

/// After `EXPIREAT k t` on a live key, `GET k` answers the value before `t`
/// and nothing from `t` on.
pub proof fn lemma_get_after_expire_at(m: Map<Seq<u8>, StoredView>, k: Seq<u8>, t: u64, t1: u64, t2: u64)
    requires
        live(m, k, t1),
    ensures
        replies(
            next_store(m, CommandView::ExpireAt(k, t), t1),
            CommandView::Get(k),
            t2,
            if t <= t2 {
                RespView::Null
            } else {
                RespView::Cstr(m[k].bytes)
            },
        ),
{
}

/// Dropping expired values is invisible to readers: after a `GET`, `MGET` or
/// `GETALL` at some time, `GET` of any key at that time answers as before.
pub proof fn lemma_reads_keep_replies(m: Map<Seq<u8>, StoredView>, c: CommandView, k: Seq<u8>, now: u64)
    requires
        c is Get || c is MGet || c is GetAll,
    ensures
        get_reply(next_store(m, c, now), k, now) == get_reply(m, k, now),
{
}

/// `DEL` counts each key it names at most once, so it never answers more
/// than the number of keys named.
pub proof fn lemma_del_count_bound(m: Map<Seq<u8>, StoredView>, ks: Seq<Seq<u8>>, now: u64)
    ensures
        live_keys(m, ks, now).finite(),
        live_keys(m, ks, now).len() <= ks.len(),
{
    ks.lemma_cardinality_of_set();
    vstd::seq_lib::seq_to_set_is_finite(ks);
    ks.to_set().lemma_len_filter(|k: Seq<u8>| live(m, k, now));
}

/// The text after a command's name: each argument preceded by a space.
pub open spec fn spaced(words: Seq<Seq<char>>) -> Seq<char>
    decreases words.len(),
{
    if words.len() == 0 {
        Seq::empty()
    } else {
        spaced(words.drop_last()) + seq![' '] + words.last()
    }
}

/// The arguments of a command as they are shown: bytes as text, with any
/// invalid UTF-8 replaced, and an expiry time in decimal.
pub open spec fn shown_args(c: CommandView) -> Seq<Seq<char>> {
    match c {
        CommandView::ExpireAt(k, t) => seq![utf8_lossy(k), decimal(t as nat)],
        _ => command_parts(c).drop_first().map_values(|b: Seq<u8>| utf8_lossy(b)),
    }
}

/// How a command is shown: its name, then its arguments.
pub open spec fn command_text(c: CommandView) -> Seq<char> {
    name_chars(c) + spaced(shown_args(c))
}

/// The message of an error.
pub open spec fn error_text(e: CommandError) -> Seq<char> {
    match e {
        CommandError::InvalidUtf8(_) => "command name was not valid utf-8"@,
        CommandError::UnrecognizedCommand(name) => "unrecognized command name: "@ + name@
            + ", expected one of: [\"GET\", \"SET\", \"MGET\", \"MSET\", \"DEL\", \"GETALL\", \"EXPIRE\", \"EXPIREAT\"]"@,
        CommandError::TooFewArguments(n) => "command has too few arguments; request had "@
            + decimal(n as nat) + " elements"@,
        CommandError::TooManyArguments(n) => "request had too many elements: "@ + decimal(n as nat),
        CommandError::UnevenArgumentLength(n) => "expected even length, got len: "@ + decimal(
            n as nat,
        ),
        CommandError::InvalidExpiration(value) => "expiration must be a valid integer, got: "@
            + value@,
    }
}

/// Appends the decimal digits of `n` to `out`, as UTF-8.
fn push_number(out: &mut Vec<u8>, n: u64)
    ensures
        final(out)@ == old(out)@ + encode_utf8(decimal(n as nat)),
{
    push_decimal(out, n);
    proof {
        lemma_decimal(n as nat);
        lemma_ascii_chars_round_trip(decimal(n as nat));
    }
}

/// Appends the UTF-8 bytes of `s` to `out`.
fn push_string(out: &mut Vec<u8>, s: &String)
    ensures
        final(out)@ == old(out)@ + encode_utf8(s@),
{
    append_bytes(out, string_bytes(s));
}

impl CommandError {
    /// The error's message.
    pub fn to_string(&self) -> (r: String)
        ensures
            r@ == error_text(*self),
    {
        let mut buf: Vec<u8> = Vec::new();
        let ghost text: Seq<char>;
        match self {
            CommandError::InvalidUtf8(_) => {
                push_str(&mut buf, "command name was not valid utf-8");
                proof {
                    text = "command name was not valid utf-8"@;
                }
            },
            CommandError::UnrecognizedCommand(name) => {
                let head = "unrecognized command name: ";
                let tail = ", expected one of: [\"GET\", \"SET\", \"MGET\", \"MSET\", \"DEL\", \"GETALL\", \"EXPIRE\", \"EXPIREAT\"]";
                push_str(&mut buf, head);
                push_string(&mut buf, name);
                push_str(&mut buf, tail);
                proof {
                    text = head@ + name@ + tail@;
                    lemma_encode_utf8_concat(head@, name@);
                    lemma_encode_utf8_concat(head@ + name@, tail@);
                }
            },
            CommandError::TooFewArguments(n) => {
                let head = "command has too few arguments; request had ";
                let tail = " elements";
                push_str(&mut buf, head);
                push_number(&mut buf, *n as u64);
                push_str(&mut buf, tail);
                proof {
                    text = head@ + decimal(*n as nat) + tail@;
                    lemma_encode_utf8_concat(head@, decimal(*n as nat));
                    lemma_encode_utf8_concat(head@ + decimal(*n as nat), tail@);
                }
            },
            CommandError::TooManyArguments(n) => {
                let head = "request had too many elements: ";
                push_str(&mut buf, head);
                push_number(&mut buf, *n as u64);
                proof {
                    text = head@ + decimal(*n as nat);
                    lemma_encode_utf8_concat(head@, decimal(*n as nat));
                }
            },
            CommandError::UnevenArgumentLength(n) => {
                let head = "expected even length, got len: ";
                push_str(&mut buf, head);
                push_number(&mut buf, *n as u64);
                proof {
                    text = head@ + decimal(*n as nat);
                    lemma_encode_utf8_concat(head@, decimal(*n as nat));
                }
            },
            CommandError::InvalidExpiration(value) => {
                let head = "expiration must be a valid integer, got: ";
                push_str(&mut buf, head);
                push_string(&mut buf, value);
                proof {
                    text = head@ + value@;
                    lemma_encode_utf8_concat(head@, value@);
                }
            },
        }
        proof {
            assert(buf@ =~= encode_utf8(text));
            encode_utf8_valid_utf8(text);
            encode_utf8_decode_utf8(text);
        }
        utf8_to_string(buf.as_slice())
    }
}

/// Appends a space and then `word` to the text in `out`.
fn push_word(
    out: &mut Vec<u8>,
    word: &String,
    Ghost(name): Ghost<Seq<char>>,
    Ghost(words): Ghost<Seq<Seq<char>>>,
)
    requires
        old(out)@ == encode_utf8(name + spaced(words)),
    ensures
        final(out)@ == encode_utf8(name + spaced(words.push(word@))),
{
    out.push(32u8);
    push_string(out, word);
    proof {
        let w = words.push(word@);
        assert(w.drop_last() =~= words);
        lemma_ascii_name(seq![' '], seq![32u8]);
        lemma_encode_utf8_concat(name + spaced(words), seq![' ']);
        lemma_encode_utf8_concat(name + spaced(words) + seq![' '], word@);
        assert(name + spaced(w) =~= name + spaced(words) + seq![' '] + word@);
    }
}

impl Command {
    /// How the command is shown: its name, then each argument after a space,
    /// bytes as text with invalid UTF-8 replaced.
    pub fn to_string(&self) -> (r: String)
        ensures
            r@ == command_text(self@),
    {
        let mut buf: Vec<u8> = Vec::new();
        let name = self.name();
        push_str(&mut buf, name);
        let ghost n = name_chars(self@);
        proof {
            assert(n + spaced(Seq::<Seq<char>>::empty()) =~= n);
        }
        let ghost words: Seq<Seq<char>> = Seq::empty();
        match self {
            Command::Get(key) => {
                let k = string_from_utf8_lossy(key.as_slice());
                push_word(&mut buf, &k, Ghost(n), Ghost(words));
                proof {
                    words = words.push(k@);
                }
            },
            Command::SetKey(key, value) => {
                let k = string_from_utf8_lossy(key.as_slice());
                push_word(&mut buf, &k, Ghost(n), Ghost(words));
                proof {
                    words = words.push(k@);
                }
                let v = string_from_utf8_lossy(value.as_slice());
                push_word(&mut buf, &v, Ghost(n), Ghost(words));
                proof {
                    words = words.push(v@);
                }
            },
            Command::MGet(keys) | Command::Del(keys) => {
                let mut i: usize = 0;
                while i < keys.len()
                    invariant
                        i <= keys@.len(),
                        words == views(keys@.take(i as int)).map_values(|b: Seq<u8>| utf8_lossy(b)),
                        buf@ == encode_utf8(n + spaced(words)),
                    decreases keys@.len() - i,
                {
                    let k = string_from_utf8_lossy(keys[i].as_slice());
                    push_word(&mut buf, &k, Ghost(n), Ghost(words));
                    proof {
                        words = words.push(k@);
                        assert(words =~= views(keys@.take(i + 1)).map_values(
                            |b: Seq<u8>| utf8_lossy(b),
                        ));
                    }
                    i += 1;
                }
                proof {
                    assert(keys@.take(i as int) =~= keys@);
                }
            },
            Command::MSet(entries) => {
                let mut i: usize = 0;
                while i < entries.len()
                    invariant
                        i <= entries@.len(),
                        words == flatten_pairs(pair_views(entries@.take(i as int))).map_values(
                            |b: Seq<u8>| utf8_lossy(b),
                        ),
                        buf@ == encode_utf8(n + spaced(words)),
                    decreases entries@.len() - i,
                {
                    let (key, value) = &entries[i];
                    let k = string_from_utf8_lossy(key.as_slice());
                    push_word(&mut buf, &k, Ghost(n), Ghost(words));
                    proof {
                        words = words.push(k@);
                    }
                    let v = string_from_utf8_lossy(value.as_slice());
                    push_word(&mut buf, &v, Ghost(n), Ghost(words));
                    proof {
                        words = words.push(v@);
                        assert(pair_views(entries@.take(i + 1)) =~= pair_views(
                            entries@.take(i as int),
                        ).push((key@, value@)));
                        assert(words =~= flatten_pairs(pair_views(entries@.take(i + 1))).map_values(
                            |b: Seq<u8>| utf8_lossy(b),
                        ));
                    }
                    i += 1;
                }
                proof {
                    assert(entries@.take(i as int) =~= entries@);
                }
            },
            Command::GetAll => {},
            Command::ExpireAt(key, timestamp) => {
                let k = string_from_utf8_lossy(key.as_slice());
                push_word(&mut buf, &k, Ghost(n), Ghost(words));
                proof {
                    words = words.push(k@);
                }
                let mut digits: Vec<u8> = Vec::new();
                push_number(&mut digits, *timestamp);
                proof {
                    encode_utf8_valid_utf8(decimal(*timestamp as nat));
                    encode_utf8_decode_utf8(decimal(*timestamp as nat));
                }
                let t = utf8_to_string(digits.as_slice());
                push_word(&mut buf, &t, Ghost(n), Ghost(words));
                proof {
                    words = words.push(t@);
                }
            },
        }
        proof {
            assert(words =~= shown_args(self@));
            encode_utf8_valid_utf8(command_text(self@));
            encode_utf8_decode_utf8(command_text(self@));
        }
        utf8_to_string(buf.as_slice())
    }
}

/// Drops every value that has expired at `now`, handing back how many were dropped.
pub fn remove_expired_at(key_store: &mut KeyStore<StoredValue>, now: u64) -> (removed: usize)
    requires
        old(key_store).wf(),
    ensures
        final(key_store).wf(),
        stored(final(key_store)@) == purged(
            stored(old(key_store)@),
            stored(old(key_store)@).dom(),
            now,
        ),
        removed == old(key_store)@.len() - final(key_store)@.len(),
{
    let ghost m0 = stored(key_store@);
    let keys = key_store.keys();
    let ghost kv = views(keys@);
    let n = keys.len();
    let mut removed: usize = 0;
    let mut i: usize = 0;
    proof {
        assert(m0.dom() =~= old(key_store)@.dom());
        assert(purged(m0, kv.take(0).to_set(), now) =~= m0);
    }
    while i < n
        invariant
            key_store.wf(),
            n == keys@.len(),
            kv == views(keys@),
            m0 == stored(old(key_store)@),
            i <= n,
            forall|j: int| 0 <= j < n ==> m0.contains_key(#[trigger] kv[j]),
            forall|p: int, q: int| 0 <= p < q < n ==> kv[p] != kv[q],
            stored(key_store@) == purged(m0, kv.take(i as int).to_set(), now),
            removed <= i,
            removed + key_store@.len() == old(key_store)@.len(),
        decreases n - i,
    {
        let ghost k = kv[i as int];
        let ghost before = stored(key_store@);
        proof {
            assert(keys@[i as int]@ == k);
            assert(kv.take(i + 1) =~= kv.take(i as int).push(k));
            kv.take(i as int).lemma_push_to_set_commute(k);
            assert(!kv.take(i as int).to_set().contains(k)) by {
                if kv.take(i as int).to_set().contains(k) {
                    let j = choose|j: int| 0 <= j < i && kv.take(i as int)[j] == k;
                    assert(kv[j] == kv[i as int]);
                }
            }
            assert(before.contains_key(k) && before[k] == m0[k]);
        }
        let expired = match key_store.get(&keys[i]) {
            Some(value) => {
                proof {
                    assert(stored(key_store@)[k] == key_store@[k]@);
                }
                value.is_expired_at(now)
            },
            None => false,
        };
        if expired {
            proof {
                key_store.lemma_view_finite();
            }
            let ghost s1 = key_store@;
            let _ = key_store.del(&keys[i]);
            proof {
                lemma_stored_remove(s1, k);
                assert(stored(s1).dom() =~= s1.dom());
                assert(key_store@.dom() =~= s1.dom().remove(k));
            }
            removed += 1;
        }
        proof {
            assert(stored(key_store@) =~= purged(m0, kv.take(i + 1).to_set(), now));
        }
        i += 1;
    }
    proof {
        assert(kv.take(n as int) =~= kv);
        assert(kv.to_set() =~= m0.dom()) by {
            assert forall|k: Seq<u8>| m0.contains_key(k) implies kv.to_set().contains(k) by {
                assert(old(key_store)@.contains_key(k));
                let j = choose|j: int| 0 <= j < keys@.len() && #[trigger] keys@[j]@ == k;
                assert(kv[j] == k);
            }
        }
    }
    removed
}

/// Drops every value that has expired by the clock, handing back how many were
/// dropped; whatever the clock reads, the store is as `remove_expired_at` leaves
/// it at some time.
pub fn remove_expired(key_store: &mut KeyStore<StoredValue>) -> (removed: usize)
    requires
        old(key_store).wf(),
    ensures
        final(key_store).wf(),
        exists|now: u64|
            stored(final(key_store)@) == purged(
                stored(old(key_store)@),
                stored(old(key_store)@).dom(),
                now,
            ),
        removed == old(key_store)@.len() - final(key_store)@.len(),
{
    let now = get_unix_timestamp();
    remove_expired_at(key_store, now)
}

/// What a command that would take the store past its limits is answered.
pub const STORE_FULL: &'static str = "the store is full";

impl Command {
    /// Runs the command on the store at `now` when it fits there; otherwise
    /// leaves the store alone and answers with `STORE_FULL`.
    pub fn run_at(self, key_store: &mut KeyStore<StoredValue>, now: u64) -> (r: Response)
        requires
            old(key_store).wf(),
        ensures
            final(key_store).wf(),
            can_apply(old(key_store)@, self@) ==> stored(final(key_store)@) == next_store(
                stored(old(key_store)@),
                self@,
                now,
            ) && replies(stored(old(key_store)@), self@, now, r@),
            !can_apply(old(key_store)@, self@) ==> final(key_store)@ == old(key_store)@ && r@
                == RespView::Error(STORE_FULL@),
    {
        if self.can_apply_to(key_store) {
            self.apply_at(key_store, now)
        } else {
            Response::Error(STORE_FULL.to_string())
        }
    }

    /// Whether the command may run on the store: what `apply` requires.
    pub fn can_apply_to(&self, key_store: &KeyStore<StoredValue>) -> (r: bool)
        requires
            key_store.wf(),
        ensures
            r == can_apply(key_store@, self@),
    {
        let limit: usize = usize::MAX / 16;
        let len = key_store.len();
        let added: usize = match self {
            Command::SetKey(_, _) => 1,
            Command::MSet(entries) => entries.len(),
            _ => 0,
        };
        proof {
            if self@ is MSet {
                assert(pair_views(self->MSet_0@).len() == self->MSet_0@.len());
            }
        }
        let fits = added < limit && len < limit - added;
        let counts_fit = match self {
            Command::Del(keys) => keys.len() as u64 <= i64::MAX as u64,
            _ => true,
        };
        proof {
            if self@ is Del {
                assert(views(self->Del_0@).len() == self->Del_0@.len());
            }
        }
        fits && counts_fit
    }
}

} // verus!
