//! Access to std's character and string functions: the trusted wrappers around them, the names
//! of what they return, and the conversions that are proved here.
use vstd::prelude::*;

verus! {

/// Whether a character has the Unicode `White_Space` property, which is what
/// `char::is_whitespace` tests: the control characters from tab to carriage return, space,
/// next line, no-break space, ogham space mark, the spaces from en quad to hair space, line and
/// paragraph separator, narrow no-break space, medium mathematical space and ideographic space.
pub open spec fn is_whitespace_char(c: char) -> bool {
    let u = c as u32;
    ||| 0x9 <= u <= 0xD
    ||| u == 0x20
    ||| u == 0x85
    ||| u == 0xA0
    ||| u == 0x1680
    ||| 0x2000 <= u <= 0x200A
    ||| u == 0x2028
    ||| u == 0x2029
    ||| u == 0x202F
    ||| u == 0x205F
    ||| u == 0x3000
}

/// Whether a character is an ASCII letter.
pub open spec fn is_ascii_letter(c: char) -> bool {
    ('A' as u32 <= c as u32 <= 'Z' as u32) || ('a' as u32 <= c as u32 <= 'z' as u32)
}

/// Whether a character is an ASCII digit.
pub open spec fn is_ascii_digit_char(c: char) -> bool {
    '0' as u32 <= c as u32 <= '9' as u32
}

/// Whether a character is ASCII.
pub open spec fn is_ascii_char(c: char) -> bool {
    (c as u32) < 128
}

/// What `char::is_alphanumeric` returns for a character outside ASCII (Unicode `Alphabetic`
/// or `Numeric`).
pub uninterp spec fn non_ascii_alphanumeric(c: char) -> bool;

/// What `char::is_uppercase` returns for a character outside ASCII (Unicode `Uppercase`).
pub uninterp spec fn non_ascii_uppercase(c: char) -> bool;

/// What `char::is_lowercase` returns for a character outside ASCII (Unicode `Lowercase`).
pub uninterp spec fn non_ascii_lowercase(c: char) -> bool;

/// What `str::to_uppercase` returns for characters that are not all ASCII (Unicode full case
/// mapping).
pub uninterp spec fn non_ascii_uppercase_chars(s: Seq<char>) -> Seq<char>;

/// Whether a character is alphanumeric, as `char::is_alphanumeric` decides: among ASCII
/// characters exactly the letters and digits.
pub open spec fn is_alphanumeric_char(c: char) -> bool {
    if is_ascii_char(c) {
        is_ascii_letter(c) || is_ascii_digit_char(c)
    } else {
        non_ascii_alphanumeric(c)
    }
}

/// Whether a character is upper case, as `char::is_uppercase` decides: among ASCII characters
/// exactly `A` to `Z`.
pub open spec fn is_uppercase_char(c: char) -> bool {
    if is_ascii_char(c) {
        'A' as u32 <= c as u32 <= 'Z' as u32
    } else {
        non_ascii_uppercase(c)
    }
}

/// Whether a character is lower case, as `char::is_lowercase` decides: among ASCII characters
/// exactly `a` to `z`.
pub open spec fn is_lowercase_char(c: char) -> bool {
    if is_ascii_char(c) {
        'a' as u32 <= c as u32 <= 'z' as u32
    } else {
        non_ascii_lowercase(c)
    }
}

/// The upper-case form of an ASCII character: `a` to `z` become `A` to `Z`, the others stay.
pub open spec fn ascii_upper(c: char) -> char {
    if 'a' as u32 <= c as u32 <= 'z' as u32 {
        ((c as u32) - 32) as char
    } else {
        c
    }
}

/// The characters of `str::to_uppercase`: for an all-ASCII string each letter is upper-cased
/// in place.
pub open spec fn uppercase_chars(s: Seq<char>) -> Seq<char> {
    if forall|i: int| 0 <= i < s.len() ==> is_ascii_char(#[trigger] s[i]) {
        s.map_values(|c: char| ascii_upper(c))
    } else {
        non_ascii_uppercase_chars(s)
    }
}

/// The characters of a string, in order.
pub(crate) fn str_to_chars(s: &str) -> (chars: Vec<char>)
    ensures
        chars@ == s@,
{
    let mut chars: Vec<char> = Vec::new();
    for c in it: s.chars()
        invariant
            it.seq() == s@,
            chars@ == it.seq().take(it.index() as int),
    {
        chars.push(c);
    }
    chars
}

/// A string made of the given characters: `String::from_iter` over the characters.
/// The contract claims that the string's characters are exactly the given ones.
#[verifier::external_body]
pub(crate) fn chars_to_string(chars: &Vec<char>) -> (s: String)
    ensures
        s@ == chars@,
{
    chars.iter().collect()
}

/// Whether a character is white space, as `char::is_whitespace` decides: see
/// `is_whitespace_char`.
pub(crate) fn char_is_whitespace(c: char) -> (b: bool)
    ensures
        b == is_whitespace_char(c),
{
    let u: u32 = c as u32;
    (0x9 <= u && u <= 0xD) || u == 0x20 || u == 0x85 || u == 0xA0 || u == 0x1680 || (0x2000 <= u && u
        <= 0x200A) || u == 0x2028 || u == 0x2029 || u == 0x202F || u == 0x205F || u == 0x3000
}

/// `char::is_alphanumeric`; the contract claims that among ASCII characters it holds of
/// exactly the letters and digits, and names its result on the others.
#[verifier::external_body]
pub(crate) fn char_is_alphanumeric(c: char) -> (b: bool)
    ensures
        b == if is_ascii_char(c) {
            is_ascii_letter(c) || is_ascii_digit_char(c)
        } else {
            non_ascii_alphanumeric(c)
        },
{
    c.is_alphanumeric()
}

/// `char::is_uppercase`; the contract claims that among ASCII characters it holds of exactly
/// `A` to `Z`, and names its result on the others.
#[verifier::external_body]
pub(crate) fn char_is_uppercase(c: char) -> (b: bool)
    ensures
        b == if is_ascii_char(c) {
            'A' as u32 <= c as u32 <= 'Z' as u32
        } else {
            non_ascii_uppercase(c)
        },
{
    c.is_uppercase()
}

/// `char::is_lowercase`; the contract claims that among ASCII characters it holds of exactly
/// `a` to `z`, and names its result on the others.
#[verifier::external_body]
pub(crate) fn char_is_lowercase(c: char) -> (b: bool)
    ensures
        b == if is_ascii_char(c) {
            'a' as u32 <= c as u32 <= 'z' as u32
        } else {
            non_ascii_lowercase(c)
        },
{
    c.is_lowercase()
}

/// `str::to_uppercase`; the contract claims that an all-ASCII string has each letter upper-cased
/// in place, and names the result on other strings.
#[verifier::external_body]
pub(crate) fn str_to_uppercase(s: &str) -> (upper: String)
    ensures
        upper@ == if forall|i: int| 0 <= i < s@.len() ==> is_ascii_char(#[trigger] s@[i]) {
            s@.map_values(|c: char| ascii_upper(c))
        } else {
            non_ascii_uppercase_chars(s@)
        },
{
    s.to_uppercase()
}

/// Whether `code` is a Unicode scalar value, the range of `char`.
pub open spec fn is_scalar_value(code: u32) -> bool {
    code <= 0xD7FF || (0xE000 <= code && code <= 0x10FFFF)
}

/// `char::from_u32`: the character whose scalar value is `code`, or `None` where `code` is not a
/// Unicode scalar value. The contract claims that it returns a character exactly for the scalar
/// values, and that the returned character has the given code.
#[verifier::external_body]
pub(crate) fn char_from_code(code: u32) -> (c: Option<char>)
    ensures
        c matches Some(ch) ==> ch as u32 == code,
        c is Some <==> is_scalar_value(code),
{
    char::from_u32(code)
}

/// The character of decimal digit `d`.
pub open spec fn digit_char(d: usize) -> char {
    ((48 + d) as u32) as char
}

/// The decimal digits of a number, most significant first, without leading zeros.
pub open spec fn decimal_digits(n: usize) -> Seq<char>
    decreases n,
{
    if n < 10 {
        seq![digit_char(n)]
    } else {
        decimal_digits((n / 10) as usize) + seq![digit_char(n % 10)]
    }
}

/// The decimal representation of a number, as `ToString::to_string` writes it.
pub(crate) fn usize_to_string(n: usize) -> (s: String)
    ensures
        s@ == decimal_digits(n),
{
    let mut digits: Vec<char> = Vec::new();
    let mut m: usize = n;
    while m >= 10
        invariant
            decimal_digits(n) == decimal_digits(m) + digits@,
        decreases m,
    {
        let d: usize = m % 10;
        let c: char = (48u8 + d as u8) as char;
        assert(c == digit_char(d));
        digits.insert(0, c);
        assert(decimal_digits(m) == decimal_digits((m / 10) as usize) + seq![digit_char(d)]);
        m = m / 10;
    }
    let c: char = (48u8 + m as u8) as char;
    assert(c == digit_char(m));
    digits.insert(0, c);
    assert(decimal_digits(n) =~= digits@);
    chars_to_string(&digits)
}

} // verus!
