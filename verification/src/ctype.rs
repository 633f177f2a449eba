//! Character classification and case mapping of the C library, on `int`
//! arguments, as the C++ code built for the web calls them.
//!
//! The classifications look only at the low byte of their argument, and
//! answer 1 or 0; the case mappings change only the ASCII letters.

use vstd::prelude::*;

verus! {

/// Whether byte `b` is ASCII white space: space, tab, line feed, form feed
/// or carriage return.
pub open spec fn is_space_byte(b: u8) -> bool {
    b == 32 || b == 9 || b == 10 || b == 12 || b == 13
}

/// Whether byte `b` is an ASCII digit.
pub open spec fn is_digit_byte(b: u8) -> bool {
    48 <= b <= 57
}

/// Whether byte `b` is an ASCII lowercase letter.
pub open spec fn is_lower_byte(b: u8) -> bool {
    97 <= b <= 122
}

/// Whether byte `b` is an ASCII uppercase letter.
pub open spec fn is_upper_byte(b: u8) -> bool {
    65 <= b <= 90
}

/// Whether byte `b` is an ASCII hexadecimal digit.
pub open spec fn is_xdigit_byte(b: u8) -> bool {
    is_digit_byte(b) || 65 <= b <= 70 || 97 <= b <= 102
}

/// 1 for true, 0 for false.
pub open spec fn flag(b: bool) -> i32 {
    if b {
        1
    } else {
        0
    }
}

/// `c` with an uppercase ASCII letter mapped to its lowercase letter.
pub open spec fn lower(c: int) -> int {
    if 65 <= c <= 90 {
        c + 32
    } else {
        c
    }
}

/// `c` with a lowercase ASCII letter mapped to its uppercase letter.
pub open spec fn upper(c: int) -> int {
    if 97 <= c <= 122 {
        c - 32
    } else {
        c
    }
}

/// The lowercase letter of an uppercase ASCII letter; any other value as it is.
pub fn tolower(c: i32) -> (r: i32)
    ensures
        r == lower(c as int),
{
    if c >= 65 && c <= 90 {
        c + 32
    } else {
        c
    }
}

/// The uppercase letter of a lowercase ASCII letter; any other value as it is.
pub fn toupper(c: i32) -> (r: i32)
    ensures
        r == upper(c as int),
{
    if c >= 97 && c <= 122 {
        c - 32
    } else {
        c
    }
}

/// 1 when the low byte of `c` is ASCII white space, else 0.
pub fn isspace(c: i32) -> (r: i32)
    ensures
        r == flag(is_space_byte(c as u8)),
{
    let b = c as u8;
    if b == 32 || b == 9 || b == 10 || b == 12 || b == 13 {
        1
    } else {
        0
    }
}

/// 1 when `c` is an ASCII value (0 to 127), else 0.
pub fn isascii(c: i32) -> (r: i32)
    ensures
        r == flag(0 <= c <= 127),
{
    if c >= 0 && c <= 127 {
        1
    } else {
        0
    }
}

/// 1 when the low byte of `c` is an ASCII letter, else 0.
pub fn isalpha(c: i32) -> (r: i32)
    ensures
        r == flag(is_lower_byte(c as u8) || is_upper_byte(c as u8)),
{
    let b = c as u8;
    if (b >= 97 && b <= 122) || (b >= 65 && b <= 90) {
        1
    } else {
        0
    }
}

/// 1 when the low byte of `c` is an ASCII hexadecimal digit, else 0; the
/// locale is not read.
pub fn isxdigit_l(c: i32, _locale: i32) -> (r: i32)
    ensures
        r == flag(is_xdigit_byte(c as u8)),
{
    let b = c as u8;
    if (b >= 48 && b <= 57) || (b >= 65 && b <= 70) || (b >= 97 && b <= 102) {
        1
    } else {
        0
    }
}

/// 1 when the low byte of `c` is an ASCII digit, else 0; the locale is not read.
pub fn isdigit_l(c: i32, _locale: i32) -> (r: i32)
    ensures
        r == flag(is_digit_byte(c as u8)),
{
    let b = c as u8;
    if b >= 48 && b <= 57 {
        1
    } else {
        0
    }
}

/// 1 when the low byte of `c` is an ASCII lowercase letter, else 0; the
/// locale is not read.
pub fn islower_l(c: i32, _locale: i32) -> (r: i32)
    ensures
        r == flag(is_lower_byte(c as u8)),
{
    let b = c as u8;
    if b >= 97 && b <= 122 {
        1
    } else {
        0
    }
}

/// The wide-character form of [`islower_l`], which also looks at the low
/// byte only.
pub fn iswlower_l(c: i32, locale: i32) -> (r: i32)
    ensures
        r == flag(is_lower_byte(c as u8)),
{
    islower_l(c, locale)
}

/// 1 when the low byte of `c` is an ASCII uppercase letter, else 0; the
/// locale is not read.
pub fn isupper_l(c: i32, _locale: i32) -> (r: i32)
    ensures
        r == flag(is_upper_byte(c as u8)),
{
    let b = c as u8;
    if b >= 65 && b <= 90 {
        1
    } else {
        0
    }
}

/// Mapping an uppercase letter to lowercase and back gives it back, and
/// the other way round; mapping twice changes nothing more than once.
pub proof fn lemma_case_round_trip(c: int)
    ensures
        65 <= c <= 90 ==> upper(lower(c)) == c,
        97 <= c <= 122 ==> lower(upper(c)) == c,
        lower(lower(c)) == lower(c),
        upper(upper(c)) == upper(c),
{
}

/// A hexadecimal digit is a decimal digit or a letter from `a` to `f` in
/// either case: [`isxdigit_l`] answers 1 exactly where [`isdigit_l`] does,
/// or where [`tolower`] maps the byte to one of `a` to `f`.
pub proof fn lemma_xdigit_is_digit_or_hex_letter(b: u8)
    ensures
        is_xdigit_byte(b) <==> is_digit_byte(b) || 97 <= lower(b as int) <= 102,
        is_digit_byte(b) ==> is_xdigit_byte(b),
{
}

/// The letters are exactly the bytes that case mapping changes: a byte is
/// lowercase exactly when [`toupper`] changes it, uppercase exactly when
/// [`tolower`] changes it, and a letter for [`isalpha`] exactly when the two
/// mappings differ on it; no digit is a letter.
pub proof fn lemma_letters_are_what_case_mapping_changes(b: u8)
    ensures
        is_lower_byte(b) <==> upper(b as int) != b,
        is_upper_byte(b) <==> lower(b as int) != b,
        (is_lower_byte(b) || is_upper_byte(b)) <==> lower(b as int) != upper(b as int),
        is_digit_byte(b) ==> !is_lower_byte(b) && !is_upper_byte(b),
{
}

/// The classes by their characters: [`isdigit_l`] answers 1 exactly on
/// `'0'` to `'9'`, [`islower_l`] on `'a'` to `'z'`, [`isupper_l`] on `'A'` to
/// `'Z'`, and [`isspace`] on space, tab, line feed, form feed and carriage
/// return; no white space is a letter or a digit.
pub proof fn lemma_classes_by_characters(b: u8)
    ensures
        is_digit_byte(b) <==> '0' as u8 <= b <= '9' as u8,
        is_lower_byte(b) <==> 'a' as u8 <= b <= 'z' as u8,
        is_upper_byte(b) <==> 'A' as u8 <= b <= 'Z' as u8,
        is_space_byte(b) <==> (b == ' ' as u8 || b == '\t' as u8 || b == '\n' as u8 || b == '\x0c' as u8 || b
            == '\r' as u8),
        is_space_byte(b) ==> !is_digit_byte(b) && !is_lower_byte(b) && !is_upper_byte(b),
{
}

/// Case mapping pairs the letters in alphabetical order: [`tolower`] maps
/// the `n`-th uppercase letter to the `n`-th lowercase one, [`toupper`] the
/// other way, and neither changes any other value.
pub proof fn lemma_case_mapping_pairs_letters(c: int)
    ensures
        'A' as int <= c <= 'Z' as int ==> lower(c) - 'a' as int == c - 'A' as int,
        'a' as int <= c <= 'z' as int ==> upper(c) - 'A' as int == c - 'a' as int,
        !('A' as int <= c <= 'Z' as int) ==> lower(c) == c,
        !('a' as int <= c <= 'z' as int) ==> upper(c) == c,
{
}

} // verus!
