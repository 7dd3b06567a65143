//! Characters and strings: trimming, searching and decimal/hex rendering.

use vstd::prelude::*;
use vstd::utf8::{decode_utf8, valid_utf8};

verus! {

/// The characters with the Unicode `White_Space` property (PropList.txt),
/// which is what `char::is_whitespace` tests.
pub open spec fn is_white_space(c: char) -> bool {
    ||| c == '\t'
    ||| c == '\n'
    ||| c == '\u{0B}'
    ||| c == '\u{0C}'
    ||| c == '\r'
    ||| c == ' '
    ||| c == '\u{85}'
    ||| c == '\u{A0}'
    ||| c == '\u{1680}'
    ||| ('\u{2000}' <= c && c <= '\u{200A}')
    ||| c == '\u{2028}'
    ||| c == '\u{2029}'
    ||| c == '\u{202F}'
    ||| c == '\u{205F}'
    ||| c == '\u{3000}'
}

/// `s` without the leading characters that satisfy `p`.
pub open spec fn drop_front_while(s: Seq<char>, p: spec_fn(char) -> bool) -> Seq<char>
    decreases s.len(),
{
    if s.len() > 0 && p(s[0]) {
        drop_front_while(s.drop_first(), p)
    } else {
        s
    }
}

/// `s` without the trailing characters that satisfy `p`.
pub open spec fn drop_back_while(s: Seq<char>, p: spec_fn(char) -> bool) -> Seq<char>
    decreases s.len(),
{
    if s.len() > 0 && p(s.last()) {
        drop_back_while(s.drop_last(), p)
    } else {
        s
    }
}

/// `s` without the leading and trailing characters that satisfy `p`.
pub open spec fn trim_by(s: Seq<char>, p: spec_fn(char) -> bool) -> Seq<char> {
    drop_back_while(drop_front_while(s, p), p)
}

/// `s` without leading and trailing white space.
pub open spec fn trim_white(s: Seq<char>) -> Seq<char> {
    trim_by(s, |c: char| is_white_space(c))
}

/// `s` without leading and trailing NUL characters.
pub open spec fn trim_nul(s: Seq<char>) -> Seq<char> {
    trim_by(s, |c: char| c == '\0')
}

/// `needle` occurs in `hay` as a contiguous part.
pub open spec fn has_infix<T>(hay: Seq<T>, needle: Seq<T>) -> bool {
    exists|i: int|
        0 <= i && i + needle.len() <= hay.len() && #[trigger] hay.subrange(i, i + needle.len())
            == needle
}

/// Calls `str::trim`, which removes the leading and trailing characters that
/// have the Unicode `White_Space` property.
#[verifier::external_body]
pub(crate) fn str_trim(s: &str) -> (r: &str)
    ensures
        r@ == trim_white(s@),
{
    s.trim()
}

/// Calls `str::trim_matches` with the NUL character: every leading and every
/// trailing `'\0'` is removed.
#[verifier::external_body]
pub(crate) fn str_trim_nul(s: &str) -> (r: &str)
    ensures
        r@ == trim_nul(s@),
{
    s.trim_matches('\0')
}

/// Calls `str::contains` with a string pattern: true iff `pat` occurs in `s`.
#[verifier::external_body]
pub(crate) fn str_contains(s: &str, pat: &str) -> (r: bool)
    ensures
        r == has_infix(s@, pat@),
{
    s.contains(pat)
}

/// Calls `String::push`, which appends one character.
#[verifier::external_body]
pub(crate) fn push_char(s: &mut String, c: char)
    ensures
        final(s)@ == old(s)@.push(c),
{
    s.push(c)
}

/// The decimal digit `d`.
pub open spec fn digit_char(d: nat) -> char {
    if d == 0 {
        '0'
    } else if d == 1 {
        '1'
    } else if d == 2 {
        '2'
    } else if d == 3 {
        '3'
    } else if d == 4 {
        '4'
    } else if d == 5 {
        '5'
    } else if d == 6 {
        '6'
    } else if d == 7 {
        '7'
    } else if d == 8 {
        '8'
    } else {
        '9'
    }
}

/// The lower-case hexadecimal digit `d`.
pub open spec fn hex_char(d: nat) -> char {
    if d < 10 {
        digit_char(d)
    } else if d == 10 {
        'a'
    } else if d == 11 {
        'b'
    } else if d == 12 {
        'c'
    } else if d == 13 {
        'd'
    } else if d == 14 {
        'e'
    } else {
        'f'
    }
}

/// The decimal representation of `n`, without leading zeros.
pub open spec fn dec_digits(n: nat) -> Seq<char>
    decreases n,
{
    if n < 10 {
        seq![digit_char(n)]
    } else {
        dec_digits(n / 10).push(digit_char(n % 10))
    }
}

/// `k` copies of `'0'`.
pub open spec fn zeros(k: nat) -> Seq<char> {
    Seq::new(k, |i: int| '0')
}

/// The decimal representation of `n`, padded with zeros on the left to at
/// least `width` characters (what `{:0width$}` prints).
pub open spec fn padded_decimal(n: nat, width: nat) -> Seq<char> {
    let d = dec_digits(n);
    if d.len() < width {
        zeros((width - d.len()) as nat) + d
    } else {
        d
    }
}

/// Two lower-case hexadecimal digits of a byte (what `{:02x}` prints).
pub open spec fn byte_hex(b: u8) -> Seq<char> {
    seq![hex_char((b / 16) as nat), hex_char((b % 16) as nat)]
}

pub fn digit(d: u64) -> (c: char)
    requires
        d < 10,
    ensures
        c == digit_char(d as nat),
{
    match d {
        0 => '0',
        1 => '1',
        2 => '2',
        3 => '3',
        4 => '4',
        5 => '5',
        6 => '6',
        7 => '7',
        8 => '8',
        _ => '9',
    }
}

pub fn hex_digit(d: u8) -> (c: char)
    requires
        d < 16,
    ensures
        c == hex_char(d as nat),
{
    if d < 10 {
        digit(d as u64)
    } else {
        match d {
            10 => 'a',
            11 => 'b',
            12 => 'c',
            13 => 'd',
            14 => 'e',
            _ => 'f',
        }
    }
}

/// Appends the decimal digits of `n` to `s`.
pub fn push_decimal_digits(s: &mut String, n: u64)
    ensures
        final(s)@ == old(s)@ + dec_digits(n as nat),
    decreases n,
{
    if n < 10 {
        push_char(s, digit(n));
        assert(old(s)@.push(digit_char(n as nat)) =~= old(s)@ + dec_digits(n as nat));
    } else {
        push_decimal_digits(s, n / 10);
        push_char(s, digit(n % 10));
        assert(old(s)@ + dec_digits((n / 10) as nat) + seq![digit_char((n % 10) as nat)]
            =~= old(s)@ + dec_digits(n as nat));
    }
}

/// Number of decimal digits of `n`.
pub fn decimal_len(n: u64) -> (r: u64)
    ensures
        r == dec_digits(n as nat).len(),
        1 <= r <= n as int + 1,
    decreases n,
{
    if n < 10 {
        1
    } else {
        let k = decimal_len(n / 10);
        proof {
            assert(dec_digits(n as nat).len() == dec_digits((n / 10) as nat).len() + 1);
        }
        k + 1
    }
}

/// Appends `n` in decimal, padded with zeros on the left to at least `width`
/// characters.
pub fn push_padded_decimal(s: &mut String, n: u64, width: u64)
    ensures
        final(s)@ == old(s)@ + padded_decimal(n as nat, width as nat),
{
    let len = decimal_len(n);
    let mut i: u64 = len;
    while i < width
        invariant
            len <= i,
            len < width ==> i <= width,
            len >= width ==> i == len,
            s@ == old(s)@ + zeros((i - len) as nat),
        decreases width - i,
    {
        push_char(s, '0');
        assert(zeros((i - len) as nat).push('0') =~= zeros((i + 1 - len) as nat));
        i = i + 1;
    }
    let ghost before = s@;
    push_decimal_digits(s, n);
    if len < width {
        assert(i == width);
        assert(before == old(s)@ + zeros((width - len) as nat));
        assert(s@ == before + dec_digits(n as nat));
        assert(s@ =~= old(s)@ + (zeros((width - len) as nat) + dec_digits(n as nat)));
    } else {
        assert(zeros(0) =~= Seq::<char>::empty());
        assert(before =~= old(s)@);
    }
}

/// Calls `std::str::from_utf8`, which accepts exactly the well-formed UTF-8
/// byte sequences and then yields the characters they encode.
#[verifier::external_body]
pub(crate) fn utf8_str(b: &[u8]) -> (r: Option<&str>)
    ensures
        r is Some <==> valid_utf8(b@),
        r matches Some(s) ==> s@ == decode_utf8(b@),
{
    std::str::from_utf8(b).ok()
}

} // verus!
