//! Text built from bytes: hexadecimal digits, UUID strings, Bluetooth
//! addresses and decimal numbers.

use vstd::prelude::*;
use vstd::utf8::{decode_utf8, valid_utf8};

verus! {

/// Appends one character to a string.
///
/// Calls `String::push`, which the standard library documents as appending
/// the character to the end of the string. That is all this contract claims.
#[verifier::external_body]
pub(crate) fn push_char(s: &mut String, c: char)
    ensures
        final(s)@ == old(s)@.push(c),
{
    s.push(c)
}

/// The lower-case hexadecimal digit for `n`, which is below 16.
pub open spec fn hex_digit_lower(n: u8) -> char {
    if n < 10 {
        (n + 48) as char
    } else {
        (n + 87) as char
    }
}

/// The upper-case hexadecimal digit for `n`, which is below 16.
pub open spec fn hex_digit_upper(n: u8) -> char {
    if n < 10 {
        (n + 48) as char
    } else {
        (n + 55) as char
    }
}

/// A byte as two lower-case hexadecimal digits, most significant first.
pub open spec fn hex_pair_lower(b: u8) -> Seq<char> {
    seq![hex_digit_lower(b / 16), hex_digit_lower(b % 16)]
}

/// A byte as two upper-case hexadecimal digits, most significant first.
pub open spec fn hex_pair_upper(b: u8) -> Seq<char> {
    seq![hex_digit_upper(b / 16), hex_digit_upper(b % 16)]
}

/// Bytes as lower-case hexadecimal, two digits each, in order.
pub open spec fn hex_lower(bytes: Seq<u8>) -> Seq<char>
    decreases bytes.len(),
{
    if bytes.len() == 0 {
        seq![]
    } else {
        hex_lower(bytes.drop_last()) + hex_pair_lower(bytes.last())
    }
}

/// Sixteen bytes, most significant first, as a canonical UUID:
/// `xxxxxxxx-xxxx-xxxx-xxxx-xxxxxxxxxxxx`, lower case.
pub open spec fn uuid_text(b: Seq<u8>) -> Seq<char> {
    hex_lower(b.subrange(0, 4)) + seq!['-'] + hex_lower(b.subrange(4, 6)) + seq!['-']
        + hex_lower(b.subrange(6, 8)) + seq!['-'] + hex_lower(b.subrange(8, 10)) + seq!['-']
        + hex_lower(b.subrange(10, 16))
}

/// Bytes as upper-case hexadecimal pairs joined by `:`, in order.
pub open spec fn colon_hex_upper(bytes: Seq<u8>) -> Seq<char>
    decreases bytes.len(),
{
    if bytes.len() == 0 {
        seq![]
    } else if bytes.len() == 1 {
        hex_pair_upper(bytes[0])
    } else {
        colon_hex_upper(bytes.drop_last()) + seq![':'] + hex_pair_upper(bytes.last())
    }
}

/// The decimal digits of `n`, most significant first, with no sign.
pub open spec fn decimal_digits(n: nat) -> Seq<char>
    decreases n,
{
    if n < 10 {
        seq![(n + 48) as char]
    } else {
        decimal_digits(n / 10) + seq![((n % 10) + 48) as char]
    }
}

/// A signed integer as Rust's `Display` writes it: a `-` for negatives,
/// then the decimal digits of the magnitude.
pub open spec fn decimal_text(n: int) -> Seq<char> {
    if n < 0 {
        seq!['-'] + decimal_digits((-n) as nat)
    } else {
        decimal_digits(n as nat)
    }
}

pub fn hex_char_lower(n: u8) -> (c: char)
    requires
        n < 16,
    ensures
        c == hex_digit_lower(n),
{
    if n < 10 {
        (n + 48) as char
    } else {
        (n + 87) as char
    }
}

pub fn hex_char_upper(n: u8) -> (c: char)
    requires
        n < 16,
    ensures
        c == hex_digit_upper(n),
{
    if n < 10 {
        (n + 48) as char
    } else {
        (n + 55) as char
    }
}

/// Append `bytes[from..to]` as lower-case hexadecimal.
pub fn push_hex_lower(out: &mut String, bytes: &[u8], from: usize, to: usize)
    requires
        from <= to <= bytes@.len(),
    ensures
        final(out)@ == old(out)@ + hex_lower(bytes@.subrange(from as int, to as int)),
{
    let mut i = from;
    while i < to
        invariant
            from <= i <= to <= bytes@.len(),
            out@ == old(out)@ + hex_lower(bytes@.subrange(from as int, i as int)),
        decreases to - i,
    {
        let b = bytes[i];
        push_char(out, hex_char_lower(b / 16));
        push_char(out, hex_char_lower(b % 16));
        assert(bytes@.subrange(from as int, i + 1).drop_last() =~= bytes@.subrange(
            from as int,
            i as int,
        ));
        i = i + 1;
        assert(out@ =~= old(out)@ + hex_lower(bytes@.subrange(from as int, i as int)));
    }
}

/// Sixteen bytes, most significant first, as a canonical UUID string.
pub fn uuid_string(bytes: &[u8]) -> (s: String)
    requires
        bytes@.len() == 16,
    ensures
        s@ == uuid_text(bytes@),
{
    let mut s = String::new();
    push_hex_lower(&mut s, bytes, 0, 4);
    push_char(&mut s, '-');
    push_hex_lower(&mut s, bytes, 4, 6);
    push_char(&mut s, '-');
    push_hex_lower(&mut s, bytes, 6, 8);
    push_char(&mut s, '-');
    push_hex_lower(&mut s, bytes, 8, 10);
    push_char(&mut s, '-');
    push_hex_lower(&mut s, bytes, 10, 16);
    assert(s@ =~= uuid_text(bytes@));
    s
}

/// Append the decimal digits of `n`.
pub fn push_decimal(out: &mut String, n: u64)
    ensures
        final(out)@ == old(out)@ + decimal_digits(n as nat),
    decreases n,
{
    if n >= 10 {
        push_decimal(out, n / 10);
    }
    push_char(out, ((n % 10) as u8 + 48) as char);
    assert(final(out)@ =~= old(out)@ + decimal_digits(n as nat));
}

/// Append a signed integer as `Display` writes it.
pub fn push_signed_decimal(out: &mut String, n: i64)
    ensures
        final(out)@ == old(out)@ + decimal_text(n as int),
{
    if n < 0 {
        push_char(out, '-');
        let magnitude: u64 = if n == i64::MIN {
            9223372036854775808u64
        } else {
            (-n) as u64
        };
        push_decimal(out, magnitude);
        assert(final(out)@ =~= old(out)@ + decimal_text(n as int));
    } else {
        push_decimal(out, n as u64);
    }
}

/// Append the characters of `s`.
pub fn push_str(out: &mut String, s: &str)
    ensures
        final(out)@ == old(out)@ + s@,
{
    let ghost start = out@;
    proof {
        broadcast use vstd::string::axiom_spec_iter;
    }
    for c in it: s.chars()
        invariant
            it.seq() == s@,
            out@ == start + s@.take(it.index() as int),
    {
        push_char(out, c);
        assert(out@ =~= start + s@.take(it.index() as int + 1));
    }
    assert(s@.take(s@.len() as int) =~= s@);
}

/// Bytes as a string, if they are valid UTF-8.
///
/// Calls `std::str::from_utf8`, which the standard library documents as
/// succeeding exactly on valid UTF-8 and then holding the characters that the
/// bytes encode. The contract says that, in vstd's terms for UTF-8.
#[verifier::external_body]
pub(crate) fn utf8_string(bytes: &[u8]) -> (r: Option<String>)
    ensures
        match r {
            Some(s) => valid_utf8(bytes@) && s@ == decode_utf8(bytes@),
            None => !valid_utf8(bytes@),
        },
{
    match std::str::from_utf8(bytes) {
        Ok(s) => Some(s.to_owned()),
        Err(_) => None,
    }
}

/// Bytes, least significant first, as upper-case pairs joined by `:` in
/// written order: the wire form of a Bluetooth address as it is written.
pub open spec fn address_text(wire: Seq<u8>) -> Seq<char> {
    colon_hex_upper(wire.reverse())
}

/// Format a wire-order address as it is written.
pub fn format_wire_address(wire: &[u8]) -> (s: String)
    ensures
        s@ == address_text(wire@),
{
    let mut s = String::new();
    let n = wire.len();
    let mut k: usize = 0;
    while k < n
        invariant
            k <= n == wire@.len(),
            s@ == colon_hex_upper(wire@.reverse().subrange(0, k as int)),
        decreases n - k,
    {
        let b = wire[n - 1 - k];
        if k > 0 {
            push_char(&mut s, ':');
        }
        push_char(&mut s, hex_char_upper(b / 16));
        push_char(&mut s, hex_char_upper(b % 16));
        let ghost r = wire@.reverse();
        assert(r.subrange(0, k + 1).drop_last() =~= r.subrange(0, k as int));
        assert(r[k as int] == b);
        k = k + 1;
        assert(s@ =~= colon_hex_upper(r.subrange(0, k as int)));
    }
    assert(wire@.reverse().subrange(0, n as int) =~= wire@.reverse());
    s
}

/// What `String::from_utf8_lossy` makes of some bytes: each invalid sequence
/// replaced by U+FFFD. Depends on the bytes alone.
pub uninterp spec fn utf8_lossy(bytes: Seq<u8>) -> Seq<char>;

/// Bytes as a string, with invalid sequences replaced.
///
/// Calls `String::from_utf8_lossy`. The contract names its result
/// `utf8_lossy`, and states the one fact the standard library documents
/// plainly: valid UTF-8 comes back unchanged, as the characters it encodes.
/// Which replacement characters stand where for invalid input is left
/// unsaid.
#[verifier::external_body]
pub(crate) fn lossy_string(bytes: &[u8]) -> (s: String)
    ensures
        s@ == utf8_lossy(bytes@),
        valid_utf8(bytes@) ==> s@ == decode_utf8(bytes@),
{
    String::from_utf8_lossy(bytes).into_owned()
}

/// An ASCII letter or digit, which `Debug` writes as itself.
pub open spec fn plain_char(c: char) -> bool {
    ('a' <= c && c <= 'z') || ('A' <= c && c <= 'Z') || ('0' <= c && c <= '9')
}

/// What `Debug` writes for a character: the character quoted, escaped where
/// the standard library escapes it. Depends on the character alone.
pub uninterp spec fn char_debug(c: char) -> Seq<char>;

/// What `Debug` writes for a string: the string in double quotes, escaped
/// where the standard library escapes it. Depends on the characters alone.
pub uninterp spec fn str_debug(s: Seq<char>) -> Seq<char>;

/// A character as `Debug` writes it.
///
/// Formats with `{:?}`, which the standard library documents as the
/// character in single quotes with `char::escape_debug` applied. The contract
/// names the result `char_debug` and states the case that needs no escape:
/// an ASCII letter or digit comes back between quotes, as itself. Which
/// characters are escaped, and how, is left unsaid.
#[verifier::external_body]
pub(crate) fn debug_char(c: char) -> (s: String)
    ensures
        s@ == char_debug(c),
        plain_char(c) ==> s@ == seq!['\'', c, '\''],
{
    format!("{c:?}")
}

/// A string as `Debug` writes it.
///
/// Formats with `{:?}`, which the standard library documents as the string
/// in double quotes with each character passed through `char::escape_debug`.
/// The contract names the result `str_debug` and states the case that needs
/// no escape: a string of ASCII letters and digits comes back between
/// quotes, as itself. Which characters are escaped, and how, is left unsaid.
#[verifier::external_body]
pub(crate) fn debug_str(t: &str) -> (s: String)
    ensures
        s@ == str_debug(t@),
        (forall|i: int| 0 <= i < t@.len() ==> plain_char(#[trigger] t@[i])) ==> s@ == seq!['"']
            + t@ + seq!['"'],
{
    format!("{t:?}")
}

} // verus!
