//! Decimal numbers and UTF-8 text as the protocols carry them.
use std::num::ParseIntError;
use std::str::Utf8Error;
use vstd::prelude::*;
use vstd::utf8::*;

use crate::util::append_bytes;

verus! {

broadcast use vstd::utf8::group_utf8_lib;

/// `std::str::Utf8Error`, carried through without a look inside.
#[verifier::external_type_specification]
#[verifier::external_body]
pub struct ExUtf8Error(Utf8Error);

/// `std::num::ParseIntError`, carried through without a look inside.
#[verifier::external_type_specification]
#[verifier::external_body]
pub struct ExParseIntError(ParseIntError);

/// The ASCII bytes of a sequence of characters below 128.
pub open spec fn ascii_bytes(chars: Seq<char>) -> Seq<u8> {
    chars.map_values(|c: char| c as u8)
}

/// The characters of a sequence of ASCII bytes.
pub open spec fn ascii_chars(bytes: Seq<u8>) -> Seq<char> {
    bytes.map_values(|b: u8| b as char)
}

pub open spec fn is_ascii_bytes(bytes: Seq<u8>) -> bool {
    forall|i: int| 0 <= i < bytes.len() ==> #[trigger] bytes[i] < 128
}

pub open spec fn is_digit(c: char) -> bool {
    '0' <= c <= '9'
}

pub open spec fn digit_value(c: char) -> nat {
    (c as nat - '0' as nat) as nat
}

pub open spec fn digit_char(d: nat) -> char {
    ((d + '0' as nat) as u8) as char
}

pub open spec fn all_digits(s: Seq<char>) -> bool {
    forall|i: int| 0 <= i < s.len() ==> is_digit(#[trigger] s[i])
}

/// The number a string of decimal digits spells.
pub open spec fn digits_value(s: Seq<char>) -> nat
    decreases s.len(),
{
    if s.len() == 0 {
        0
    } else {
        digits_value(s.drop_last()) * 10 + digit_value(s.last())
    }
}

/// The decimal digits of `n`, without leading zeros.
pub open spec fn decimal(n: nat) -> Seq<char>
    decreases n,
{
    if n < 10 {
        seq![digit_char(n)]
    } else {
        decimal(n / 10).push(digit_char(n % 10))
    }
}

/// `i` written in decimal, with a leading `-` when negative.
pub open spec fn signed_decimal(i: int) -> Seq<char> {
    if i < 0 {
        seq!['-'] + decimal((-i) as nat)
    } else {
        decimal(i as nat)
    }
}

/// What `str::parse` gives for an unsigned integer type whose largest value is
/// `max`: an optional `+`, then one or more ASCII digits whose value is at most `max`.
pub open spec fn parse_unsigned(s: Seq<char>, max: nat) -> Option<nat> {
    let d = if s.len() > 0 && s[0] == '+' {
        s.drop_first()
    } else {
        s
    };
    if d.len() > 0 && all_digits(d) && digits_value(d) <= max {
        Some(digits_value(d))
    } else {
        None
    }
}

/// What `str::parse::<i64>` gives: an optional `+` or `-`, then one or more
/// ASCII digits, the value within the range of `i64`.
pub open spec fn parse_i64_spec(s: Seq<char>) -> Option<int> {
    if s.len() > 0 && s[0] == '-' {
        let d = s.drop_first();
        if d.len() > 0 && all_digits(d) && digits_value(d) <= 0x8000_0000_0000_0000 {
            Some(-digits_value(d))
        } else {
            None
        }
    } else {
        match parse_unsigned(s, 0x7fff_ffff_ffff_ffff) {
            Some(n) => Some(n as int),
            None => None,
        }
    }
}

pub proof fn lemma_digit_char(d: nat)
    requires
        d < 10,
    ensures
        is_digit(digit_char(d)),
        digit_value(digit_char(d)) == d,
        (digit_char(d) as u8) as char == digit_char(d),
        (digit_char(d) as u8) < 128,
{
}

/// `decimal(n)` is a non-empty string of digits that spells `n`.
pub proof fn lemma_decimal(n: nat)
    ensures
        decimal(n).len() > 0,
        all_digits(decimal(n)),
        digits_value(decimal(n)) == n,
        decimal(n)[0] != '+' && decimal(n)[0] != '-',
        is_ascii_chars(decimal(n)),
    decreases n,
{
    if n < 10 {
        lemma_digit_char(n);
        assert(decimal(n).drop_last() =~= Seq::<char>::empty());
        assert(digits_value(Seq::<char>::empty()) == 0);
    } else {
        lemma_decimal(n / 10);
        lemma_digit_char(n % 10);
        let s = decimal(n);
        assert(s.drop_last() =~= decimal(n / 10));
        assert(s.last() == digit_char(n % 10));
        assert(n == (n / 10) * 10 + n % 10) by (nonlinear_arith);
        assert(all_digits(s)) by {
            assert forall|i: int| 0 <= i < s.len() implies is_digit(#[trigger] s[i]) by {
                if i < s.len() - 1 {
                    assert(s[i] == decimal(n / 10)[i]);
                }
            }
        }
        assert(is_ascii_chars(s)) by {
            assert forall|i: int| 0 <= i < s.len() implies '\0' <= #[trigger] s[i] <= '\u{7f}' by {
                if i < s.len() - 1 {
                    assert(s[i] == decimal(n / 10)[i]);
                }
            }
        }
    }
}

/// Parsing the decimal form of a number in range gives the number back.
pub proof fn lemma_parse_decimal(n: nat, max: nat)
    requires
        n <= max,
    ensures
        parse_unsigned(decimal(n), max) == Some(n),
{
    lemma_decimal(n);
}

/// Parsing the signed decimal form of an `i64` gives it back.
pub proof fn lemma_parse_signed_decimal(i: i64)
    ensures
        parse_i64_spec(signed_decimal(i as int)) == Some(i as int),
{
    if i < 0 {
        let d = decimal((-i) as nat);
        lemma_decimal((-i) as nat);
        assert((seq!['-'] + d).drop_first() =~= d);
    } else {
        lemma_decimal(i as nat);
    }
}

/// ASCII bytes are valid UTF-8 and decode to the same characters.
pub proof fn lemma_ascii_utf8(bytes: Seq<u8>)
    requires
        is_ascii_bytes(bytes),
    ensures
        valid_utf8(bytes),
        decode_utf8(bytes) == ascii_chars(bytes),
        is_ascii_chars(ascii_chars(bytes)),
        encode_utf8(ascii_chars(bytes)) == bytes,
{
    let chars = ascii_chars(bytes);
    assert(is_ascii_chars(chars)) by {
        assert forall|i: int| 0 <= i < chars.len() implies '\0' <= #[trigger] chars[i] <= '\u{7f}' by {
            assert(bytes[i] < 128);
        }
    }
    is_ascii_chars_encode_utf8(chars);
    assert forall|i: int| 0 <= i < bytes.len() implies encode_utf8(chars)[i] == bytes[i] by {
        assert(chars[i] as u8 == encode_utf8(chars)[i]);
        assert(bytes[i] < 128);
    }
    assert(encode_utf8(chars) =~= bytes);
    encode_utf8_valid_utf8(chars);
    encode_utf8_decode_utf8(chars);
}

/// The bytes of ASCII characters are ASCII and decode back to the characters.
pub proof fn lemma_ascii_chars_round_trip(chars: Seq<char>)
    requires
        is_ascii_chars(chars),
    ensures
        is_ascii_bytes(ascii_bytes(chars)),
        ascii_chars(ascii_bytes(chars)) == chars,
        encode_utf8(chars) == ascii_bytes(chars),
{
    is_ascii_chars_encode_utf8(chars);
    assert forall|i: int| 0 <= i < chars.len() implies #[trigger] ascii_bytes(chars)[i] < 128 by {
        assert('\0' <= chars[i] <= '\u{7f}');
    }
    assert forall|i: int| 0 <= i < chars.len() implies ascii_chars(ascii_bytes(chars))[i]
        == chars[i] by {
        assert('\0' <= chars[i] <= '\u{7f}');
    }
    assert(ascii_chars(ascii_bytes(chars)) =~= chars);
    assert(encode_utf8(chars) =~= ascii_bytes(chars));
}

/// Appends the decimal digits of `n` to `out`.
pub fn push_decimal(out: &mut Vec<u8>, n: u64)
    ensures
        final(out)@ == old(out)@ + ascii_bytes(decimal(n as nat)),
    decreases n,
{
    if n >= 10 {
        push_decimal(out, n / 10);
    }
    let d = (n % 10) as u8;
    proof {
        lemma_digit_char(d as nat);
    }
    out.push(d + 48u8);
    proof {
        if n >= 10 {
            assert(decimal(n as nat) == decimal((n / 10) as nat).push(digit_char((n % 10) as nat)));
        }
        assert(final(out)@ =~= old(out)@ + ascii_bytes(decimal(n as nat)));
    }
}

/// Appends `n` in decimal, with a leading `-` when negative.
pub fn push_signed_decimal(out: &mut Vec<u8>, n: i64)
    ensures
        final(out)@ == old(out)@ + ascii_bytes(signed_decimal(n as int)),
{
    if n < 0 {
        out.push(45u8);
        let magnitude: u64 = if n == i64::MIN {
            0x8000_0000_0000_0000u64
        } else {
            (-n) as u64
        };
        push_decimal(out, magnitude);
        proof {
            assert(ascii_bytes(signed_decimal(n as int)) =~= seq![45u8] + ascii_bytes(
                decimal((-n) as nat),
            ));
            assert(final(out)@ =~= old(out)@ + ascii_bytes(signed_decimal(n as int)));
        }
    } else {
        push_decimal(out, n as u64);
    }
}

/// `std::str::from_utf8`: claimed to succeed exactly on valid UTF-8, giving
/// the characters the bytes encode.
#[verifier::external_body]
pub(crate) fn str_from_utf8(bytes: &[u8]) -> (r: Result<&str, Utf8Error>)
    ensures
        r is Ok <==> valid_utf8(bytes@),
        r is Ok ==> r->Ok_0@ == decode_utf8(bytes@),
{
    std::str::from_utf8(bytes)
}

/// `str::parse::<usize>`: claimed to succeed exactly on an optional `+` then one
/// or more ASCII digits whose value fits in `usize`, giving that value.
#[verifier::external_body]
pub(crate) fn parse_usize(s: &str) -> (r: Result<usize, ParseIntError>)
    ensures
        match r {
            Ok(n) => parse_unsigned(s@, usize::MAX as nat) == Some(n as nat),
            Err(_) => parse_unsigned(s@, usize::MAX as nat) is None,
        },
{
    s.parse::<usize>()
}

/// `str::parse::<u16>`: claimed to succeed exactly on an optional `+` then one
/// or more ASCII digits whose value fits in `u16`, giving that value.
#[verifier::external_body]
pub(crate) fn parse_u16(s: &str) -> (r: Result<u16, ParseIntError>)
    ensures
        match r {
            Ok(n) => parse_unsigned(s@, u16::MAX as nat) == Some(n as nat),
            Err(_) => parse_unsigned(s@, u16::MAX as nat) is None,
        },
{
    s.parse::<u16>()
}

/// `str::parse::<u64>`: claimed to succeed exactly on an optional `+` then one
/// or more ASCII digits whose value fits in `u64`, giving that value.
#[verifier::external_body]
pub(crate) fn parse_u64(s: &str) -> (r: Result<u64, ParseIntError>)
    ensures
        match r {
            Ok(n) => parse_unsigned(s@, u64::MAX as nat) == Some(n as nat),
            Err(_) => parse_unsigned(s@, u64::MAX as nat) is None,
        },
{
    s.parse::<u64>()
}

/// `str::parse::<i64>`: claimed to succeed exactly on an optional `+` or `-`
/// then one or more ASCII digits whose value fits in `i64`, giving that value.
#[verifier::external_body]
pub(crate) fn parse_i64(s: &str) -> (r: Result<i64, ParseIntError>)
    ensures
        match r {
            Ok(n) => parse_i64_spec(s@) == Some(n as int),
            Err(_) => parse_i64_spec(s@) is None,
        },
{
    s.parse::<i64>()
}

/// What `String::from_utf8_lossy` makes of a byte string: its characters, with
/// each maximal invalid sequence replaced by U+FFFD.
pub uninterp spec fn utf8_lossy(bytes: Seq<u8>) -> Seq<char>;

/// `String::from_utf8_lossy`, made into an owned `String`. Valid UTF-8 decodes
/// exactly; what the replacement does to other input is left to the name.
#[verifier::external_body]
pub(crate) fn string_from_utf8_lossy(bytes: &[u8]) -> (s: String)
    ensures
        s@ == utf8_lossy(bytes@),
        valid_utf8(bytes@) ==> s@ == decode_utf8(bytes@),
{
    String::from_utf8_lossy(bytes).into_owned()
}

/// The bytes of a `String`: its UTF-8 encoding.
pub fn string_bytes(s: &String) -> (r: &[u8])
    ensures
        r@ == encode_utf8(s@),
{
    s.as_str().as_bytes()
}

/// Encoding two strings one after the other encodes each in turn.
pub proof fn lemma_encode_utf8_concat(a: Seq<char>, b: Seq<char>)
    ensures
        encode_utf8(a + b) == encode_utf8(a) + encode_utf8(b),
    decreases a.len(),
{
    if a.len() == 0 {
        assert(a + b =~= b);
        assert(encode_utf8(a) + encode_utf8(b) =~= encode_utf8(b));
    } else {
        lemma_encode_utf8_concat(a.drop_first(), b);
        assert((a + b).drop_first() =~= a.drop_first() + b);
        assert((a + b)[0] == a[0]);
        assert(encode_utf8(a + b) =~= encode_utf8(a) + encode_utf8(b));
    }
}

/// Appends the UTF-8 bytes of `s` to `out`.
pub fn push_str(out: &mut Vec<u8>, s: &str)
    ensures
        final(out)@ == old(out)@ + encode_utf8(s@),
{
    append_bytes(out, s.as_bytes());
}

/// The text that valid UTF-8 bytes spell.
pub fn utf8_to_string(bytes: &[u8]) -> (s: String)
    requires
        valid_utf8(bytes@),
    ensures
        s@ == decode_utf8(bytes@),
{
    match str_from_utf8(bytes) {
        Ok(text) => text.to_owned(),
        Err(_) => String::new(),
    }
}

/// The text `a` followed by the text `b`.
pub fn join_text(a: &str, b: &str) -> (r: String)
    ensures
        r@ == a@ + b@,
{
    let mut buf: Vec<u8> = Vec::new();
    push_str(&mut buf, a);
    push_str(&mut buf, b);
    proof {
        lemma_encode_utf8_concat(a@, b@);
        encode_utf8_valid_utf8(a@ + b@);
        encode_utf8_decode_utf8(a@ + b@);
    }
    utf8_to_string(buf.as_slice())
}

/// Texts joined, with `sep` between each two.
pub open spec fn joined(words: Seq<Seq<char>>, sep: Seq<char>) -> Seq<char>
    decreases words.len(),
{
    if words.len() == 0 {
        Seq::empty()
    } else if words.len() == 1 {
        words[0]
    } else {
        joined(words.drop_last(), sep) + sep + words.last()
    }
}

/// Appending one more word to joined text.
pub proof fn lemma_joined_push(words: Seq<Seq<char>>, sep: Seq<char>, w: Seq<char>)
    ensures
        joined(words.push(w), sep) == if words.len() == 0 {
            w
        } else {
            joined(words, sep) + sep + w
        },
{
    assert(words.push(w).drop_last() =~= words);
}

/// A number written in decimal is ASCII, and its UTF-8 bytes are those ASCII bytes.
pub proof fn lemma_signed_decimal_ascii(n: int)
    ensures
        is_ascii_chars(signed_decimal(n)),
        encode_utf8(signed_decimal(n)) == ascii_bytes(signed_decimal(n)),
{
    let s = signed_decimal(n);
    if n < 0 {
        lemma_decimal((-n) as nat);
        assert forall|i: int| 0 <= i < s.len() implies '\0' <= #[trigger] s[i] <= '\u{7f}' by {
            if i > 0 {
                assert(s[i] == decimal((-n) as nat)[i - 1]);
            }
        }
    } else {
        lemma_decimal(n as nat);
    }
    lemma_ascii_chars_round_trip(s);
}

} // verus!
