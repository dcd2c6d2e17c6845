//! Unicode character classes and case mapping, as the outside crates that
//! own the Unicode tables compute them.

use vstd::prelude::*;

verus! {

/// Whether `c` is a decimal digit (general category `Nd`): what regex `\d`
/// matches.
pub uninterp spec fn unicode_digit(c: char) -> bool;

/// Whether `c` is a letter or a number (`\p{L}` or `\p{N}`).
pub uninterp spec fn letter_or_number(c: char) -> bool;

/// Whether `c` is a word character: what regex `\w` matches.
pub uninterp spec fn word_char(c: char) -> bool;

pub open spec fn is_ascii_digit(c: char) -> bool {
    '0' <= c && c <= '9'
}

pub open spec fn is_ascii_letter(c: char) -> bool {
    ('a' <= c && c <= 'z') || ('A' <= c && c <= 'Z')
}

/// Regex `\d`: among ASCII characters exactly `0`..`9`; beyond ASCII,
/// the decimal digits, none of which is whitespace.
pub open spec fn is_decimal(c: char) -> bool {
    if (c as u32) < 128 {
        is_ascii_digit(c)
    } else {
        unicode_digit(c) && !crate::text::is_ws(c)
    }
}

/// Regex `[\p{L}\p{N}]`: among ASCII characters exactly letters and digits.
pub open spec fn is_letter_or_number_spec(c: char) -> bool {
    if (c as u32) < 128 {
        is_ascii_digit(c) || is_ascii_letter(c)
    } else {
        letter_or_number(c)
    }
}

/// Regex `\w`: among ASCII characters exactly letters, digits and `_`.
pub open spec fn is_word_spec(c: char) -> bool {
    if (c as u32) < 128 {
        is_ascii_digit(c) || is_ascii_letter(c) || c == '_'
    } else {
        word_char(c)
    }
}

/// What `char::is_alphanumeric` says of a character beyond ASCII.
pub uninterp spec fn alphanumeric(c: char) -> bool;

/// `char::is_alphanumeric` (alphabetic or numeric): among ASCII characters
/// exactly letters and digits.
pub open spec fn is_alnum_spec(c: char) -> bool {
    if (c as u32) < 128 {
        is_ascii_digit(c) || is_ascii_letter(c)
    } else {
        alphanumeric(c)
    }
}

/// What `str::to_lowercase` gives for `s`.
pub uninterp spec fn lowercase(s: Seq<char>) -> Seq<char>;

/// `regex::Regex::is_match` with the pattern `\A\d\z` on the one-character
/// string `c`: a function of `c`; among ASCII characters true exactly for
/// `0`..`9` (the only ASCII members of `Nd`), and never for whitespace
/// (regex-syntax's `Decimal_Number` table holds none of the White_Space
/// characters).
#[verifier::external_body]
pub fn is_digit_char(c: char) -> (r: bool)
    ensures
        r == (if (c as u32) < 128 {
            is_ascii_digit(c)
        } else {
            unicode_digit(c) && !crate::text::is_ws(c)
        }),
{
    regex::Regex::new(r"\A\d\z").unwrap().is_match(c.encode_utf8(&mut [0u8; 4]))
}

/// `regex::Regex::is_match` with the pattern `\A[\p{L}\p{N}]\z` on the
/// one-character string `c`: a function of `c`, and among ASCII characters
/// true exactly for letters and digits.
#[verifier::external_body]
pub fn is_letter_or_number(c: char) -> (r: bool)
    ensures
        r == (if (c as u32) < 128 {
            is_ascii_digit(c) || is_ascii_letter(c)
        } else {
            letter_or_number(c)
        }),
{
    regex::Regex::new(r"\A[\p{L}\p{N}]\z").unwrap().is_match(c.encode_utf8(&mut [0u8; 4]))
}

/// `regex::Regex::is_match` with the pattern `\A\w\z` on the one-character
/// string `c`: a function of `c`, and among ASCII characters true exactly
/// for letters, digits and `_`.
#[verifier::external_body]
pub fn is_word_char(c: char) -> (r: bool)
    ensures
        r == (if (c as u32) < 128 {
            is_ascii_digit(c) || is_ascii_letter(c) || c == '_'
        } else {
            word_char(c)
        }),
{
    regex::Regex::new(r"\A\w\z").unwrap().is_match(c.encode_utf8(&mut [0u8; 4]))
}

/// `char::is_alphanumeric`: true for alphabetic or numeric characters,
/// which among ASCII characters are exactly the letters and digits; beyond
/// ASCII, the claim is only that the answer is a function of `c`.
#[verifier::external_body]
pub fn is_alphanumeric_char(c: char) -> (r: bool)
    ensures
        r == (if (c as u32) < 128 {
            is_ascii_digit(c) || is_ascii_letter(c)
        } else {
            alphanumeric(c)
        }),
{
    c.is_alphanumeric()
}

/// `str::to_lowercase`; the claim is only that the result is a function
/// of `s`.
#[verifier::external_body]
pub fn to_lowercase(s: &str) -> (r: String)
    ensures
        r@ == lowercase(s@),
{
    s.to_lowercase()
}

} // verus!
