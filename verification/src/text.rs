//! Decimal rendering, byte assembly and string helpers used across the crate.
use vstd::prelude::*;
use vstd::string::*;
use vstd::utf8::encode_utf8;

verus! {

/// The character of a decimal digit.
pub open spec fn digit_char(d: nat) -> char {
    if d == 0 {
        '0'
    } else if d == 1 {
        '1'
    } else if d == 2 {
        '2'
    } else if d == 3 {
        '3'
    } else if d == 4 {
        '4'
    } else if d == 5 {
        '5'
    } else if d == 6 {
        '6'
    } else if d == 7 {
        '7'
    } else if d == 8 {
        '8'
    } else {
        '9'
    }
}

/// The decimal digits of `n`, most significant first, without leading zeros.
pub open spec fn decimal_digits(n: nat) -> Seq<char>
    decreases n,
{
    if n < 10 {
        seq![digit_char(n)]
    } else {
        decimal_digits(n / 10).push(digit_char(n % 10))
    }
}

/// The one-character string of a decimal digit.
fn digit_str(d: u64) -> (s: &'static str)
    requires
        d < 10,
    ensures
        s@ == seq![digit_char(d as nat)],
{
    if d == 0 {
        proof { reveal_strlit("0"); }
        "0"
    } else if d == 1 {
        proof { reveal_strlit("1"); }
        "1"
    } else if d == 2 {
        proof { reveal_strlit("2"); }
        "2"
    } else if d == 3 {
        proof { reveal_strlit("3"); }
        "3"
    } else if d == 4 {
        proof { reveal_strlit("4"); }
        "4"
    } else if d == 5 {
        proof { reveal_strlit("5"); }
        "5"
    } else if d == 6 {
        proof { reveal_strlit("6"); }
        "6"
    } else if d == 7 {
        proof { reveal_strlit("7"); }
        "7"
    } else if d == 8 {
        proof { reveal_strlit("8"); }
        "8"
    } else {
        proof { reveal_strlit("9"); }
        "9"
    }
}

/// Render an unsigned integer in decimal, as `format!("{}", n)` does.
pub fn u64_decimal(n: u64) -> (s: String)
    ensures
        s@ == decimal_digits(n as nat),
    decreases n,
{
    if n < 10 {
        String::from_str(digit_str(n))
    } else {
        let mut s = u64_decimal(n / 10);
        s.append(digit_str(n % 10));
        s
    }
}

/// Render a 128-bit unsigned integer in decimal, as `format!("{}", n)` does.
pub fn u128_decimal(n: u128) -> (s: String)
    ensures
        s@ == decimal_digits(n as nat),
    decreases n,
{
    if n < 10 {
        String::from_str(digit_str(n as u64))
    } else {
        let mut s = u128_decimal(n / 10);
        s.append(digit_str((n % 10) as u64));
        s
    }
}

/// Append `bytes` to `out`.
pub fn push_bytes(out: &mut Vec<u8>, bytes: &[u8])
    ensures
        final(out)@ == old(out)@ + bytes@,
{
    let mut i: usize = 0;
    while i < bytes.len()
        invariant
            i <= bytes@.len(),
            out@ == old(out)@ + bytes@.subrange(0, i as int),
        decreases bytes@.len() - i,
    {
        out.push(bytes[i]);
        i = i + 1;
        assert(bytes@.subrange(0, i as int) == bytes@.subrange(0, i - 1).push(bytes@[i - 1]));
    }
    assert(bytes@.subrange(0, bytes@.len() as int) == bytes@);
}

/// The bytes of `s`, its UTF-8 encoding, in a fresh vector.
pub fn utf8_bytes(s: &str) -> (bytes: Vec<u8>)
    ensures
        bytes@ == encode_utf8(s@),
{
    let mut out: Vec<u8> = Vec::new();
    push_bytes(&mut out, s.as_bytes());
    out
}

/// Whether two texts are the same, character for character.
pub fn same_text(a: &str, b: &str) -> (same: bool)
    ensures
        same == (a@ == b@),
{
    let x = a.as_bytes();
    let y = b.as_bytes();
    proof {
        vstd::utf8::encode_utf8_decode_utf8(a@);
        vstd::utf8::encode_utf8_decode_utf8(b@);
    }
    if x.len() != y.len() {
        return false;
    }
    let mut i: usize = 0;
    while i < x.len()
        invariant
            x@ == encode_utf8(a@),
            y@ == encode_utf8(b@),
            x@.len() == y@.len(),
            i <= x@.len(),
            forall|j: int| 0 <= j < i ==> x@[j] == y@[j],
        decreases x@.len() - i,
    {
        if x[i] != y[i] {
            return false;
        }
        i = i + 1;
    }
    assert(x@ =~= y@);
    true
}

/// `s` starts with `count` ASCII zeros.
pub open spec fn has_leading_zeros(s: Seq<char>, count: nat) -> bool {
    count <= s.len() && forall|i: int| 0 <= i < count ==> s[i] == '0'
}

/// Whether `s` starts with `count` zero digits, as `s.starts_with(&"0".repeat(count))` does.
pub fn starts_with_zeros(s: &str, count: usize) -> (b: bool)
    ensures
        b == has_leading_zeros(s@, count as nat),
{
    let len = s.unicode_len();
    if count > len {
        return false;
    }
    let mut i: usize = 0;
    while i < count
        invariant
            count <= len,
            len == s@.len(),
            i <= count,
            forall|j: int| 0 <= j < i ==> s@[j] == '0',
        decreases count - i,
    {
        if s.get_char(i) != '0' {
            return false;
        }
        i = i + 1;
    }
    true
}

} // verus!

verus! {

/// How `{:?}` renders a character (quoted, with escapes).
pub uninterp spec fn spec_char_debug(c: char) -> Seq<char>;

/// `format!("{:?}", c)`: the character quoted, with Rust's escapes.
///
/// Trusted: the text is the named function of the character; its exact
/// escaping rules are std's and are not restated here.
#[verifier::external_body]
pub(crate) fn char_debug(c: char) -> (text: String)
    ensures
        text@ == spec_char_debug(c),
{
    format!("{:?}", c)
}

/// How `{:?}` renders a string (quoted, with escapes).
pub uninterp spec fn spec_str_debug(s: Seq<char>) -> Seq<char>;

/// `format!("{:?}", s)`: the string quoted, with Rust's escapes.
///
/// Trusted: the text is the named function of the string; its exact
/// escaping rules are std's and are not restated here.
#[verifier::external_body]
pub(crate) fn str_debug(s: &str) -> (text: String)
    ensures
        text@ == spec_str_debug(s@),
{
    format!("{:?}", s)
}

} // verus!
