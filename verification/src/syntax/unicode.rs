//! Character classes: UTF-8 decoding at a byte position, JS `\s` whitespace,
//! Unicode punctuation-or-symbol and alphanumerics.
use vstd::prelude::*;
use vstd::utf8::*;
use super::is_ascii_punct;
use unicode_properties::{GeneralCategoryGroup, UnicodeGeneralCategory};

verus! {

/// The character encoded at byte `i` (`None` past the end or when no scalar starts there).
pub open spec fn spec_char_at(b: Seq<u8>, i: int) -> Option<char> {
    if 0 <= i < b.len() && valid_first_scalar(b.skip(i)) {
        Some(decode_first_scalar(b.skip(i)) as char)
    } else {
        None
    }
}

/// The encoded length of the character at byte `i`.
pub open spec fn spec_char_len(b: Seq<u8>, i: int) -> int {
    length_of_first_scalar(b.skip(i))
}

/// The position of the last non-continuation byte before `i`, looking at most four bytes back.
pub open spec fn lead_before(b: Seq<u8>, i: int) -> int
    decreases i,
{
    if i <= 0 {
        -1
    } else if !is_continuation_byte(b[i - 1]) {
        i - 1
    } else {
        lead_before(b, i - 1)
    }
}

/// The character that ends just before byte `i`.
pub open spec fn spec_char_before(b: Seq<u8>, i: int) -> Option<char> {
    let k = lead_before(b, i);
    if 0 < i <= b.len() && 0 <= k && spec_char_at(b, k) is Some && k + spec_char_len(b, k) == i {
        spec_char_at(b, k)
    } else {
        None
    }
}

/// `char::from_u32`: the char with the given code, if it is a Unicode scalar value.
#[verifier::external_body]
pub(crate) fn char_from_u32(v: u32) -> (r: Option<char>)
    ensures
        r is Some <==> is_scalar(v),
        r matches Some(c) ==> c as u32 == v,
{
    char::from_u32(v)
}

/// The character encoded at byte `i`, with its encoded length.
pub fn char_at(b: &[u8], i: usize) -> (r: Option<(char, usize)>)
    ensures
        r is Some <==> spec_char_at(b@, i as int) is Some,
        r matches Some((c, n)) ==> spec_char_at(b@, i as int) == Some(c) && n == spec_char_len(
            b@,
            i as int,
        ) && 1 <= n <= 4 && i + n <= b@.len(),
{
    if i >= b.len() {
        return None;
    }
    let ghost s = b@.skip(i as int);
    let b0 = b[i];
    let (v, n): (u32, usize) = if b0 <= 0x7f {
        ((b0 & 0x7f) as u32, 1)
    } else if 0xc0 <= b0 && b0 <= 0xdf {
        if b.len() - i < 2 || !(0x80 <= b[i + 1] && b[i + 1] <= 0xbf) {
            return None;
        }
        ((((b0 & 0x1f) as u32) << 6) | ((b[i + 1] & 0x3f) as u32), 2)
    } else if 0xe0 <= b0 && b0 <= 0xef {
        if b.len() - i < 3 || !(0x80 <= b[i + 1] && b[i + 1] <= 0xbf) || !(0x80 <= b[i + 2]
            && b[i + 2] <= 0xbf) {
            return None;
        }
        (
            (((b0 & 0x0f) as u32) << 12) | (((b[i + 1] & 0x3f) as u32) << 6) | ((b[i + 2] & 0x3f) as u32),
            3,
        )
    } else if 0xf0 <= b0 && b0 <= 0xf7 {
        if b.len() - i < 4 || !(0x80 <= b[i + 1] && b[i + 1] <= 0xbf) || !(0x80 <= b[i + 2]
            && b[i + 2] <= 0xbf) || !(0x80 <= b[i + 3] && b[i + 3] <= 0xbf) {
            return None;
        }
        (
            (((b0 & 0x07) as u32) << 18) | (((b[i + 1] & 0x3f) as u32) << 12) | (((b[i + 2] & 0x3f) as u32) << 6)
                | ((b[i + 3] & 0x3f) as u32),
            4,
        )
    } else {
        return None;
    };
    proof {
        assert(s[0] == b0);
        if n >= 2 { assert(s[1] == b@[i + 1]); }
        if n >= 3 { assert(s[2] == b@[i + 2]); }
        if n >= 4 { assert(s[3] == b@[i + 3]); }
        assert(valid_leading_and_continuation_bytes_first_codepoint(s));
        assert(v == decode_first_codepoint(s));
        assert(n == length_of_first_codepoint(s));
    }
    let ok = (n != 2 || 0x80 <= v) && (n != 3 || 0x800 <= v) && (n != 4 || (0x10000 <= v && v <= 0x10ffff))
        && !(0xD800 <= v && v <= 0xDFFF);
    if !ok {
        return None;
    }
    proof {
        assert(valid_first_scalar(s));
        reveal(is_scalar);
        assert(is_scalar(v)) by {
            if n == 1 {
                assert(v == (b0 & 0x7f) as u32);
                assert((b0 & 0x7f) <= 0x7f) by (bit_vector);
            } else if n == 2 {
                let x = b0;
                let y = b@[i + 1];
                assert((((x & 0x1f) as u32) << 6) | ((y & 0x3f) as u32) <= 0x7ff) by (bit_vector);
            } else if n == 3 {
                let x = b0;
                let y = b@[i + 1];
                let z = b@[i + 2];
                assert((((x & 0x0f) as u32) << 12) | (((y & 0x3f) as u32) << 6) | ((z & 0x3f) as u32) <= 0xffff) by (bit_vector);
            }
        }
    }
    match char_from_u32(v) {
        Some(c) => {
            proof {
                char_u32_cast(c, v);
            }
            Some((c, n))
        },
        None => None,
    }
}

/// An ASCII byte is a character of its own.
pub proof fn lemma_ascii_at(b: Seq<u8>, i: int)
    requires
        0 <= i < b.len(),
        b[i] < 128,
    ensures
        spec_char_at(b, i) is Some,
        spec_char_at(b, i)->0 as u32 == b[i] as u32,
        spec_char_len(b, i) == 1,
{
    let s = b.skip(i);
    assert(s[0] == b[i]);
    let x = b[i];
    assert(x & 0x7f == x) by (bit_vector)
        requires
            x < 128,
    ;
    assert(valid_first_scalar(s));
    assert(decode_first_scalar(s) == x as u32);
}

/// A character below 128 stands at a byte of the same value.
pub proof fn lemma_char_ascii(b: Seq<u8>, i: int)
    requires
        spec_char_at(b, i) is Some,
        (spec_char_at(b, i)->0 as u32) < 128,
    ensures
        0 <= i < b.len(),
        b[i] as u32 == spec_char_at(b, i)->0 as u32,
        spec_char_len(b, i) == 1,
{
    let s = b.skip(i);
    assert(s[0] == b[i]);
    let x = b[i];
    if x < 128 {
        lemma_ascii_at(b, i);
    } else {
        assert(!is_leading_byte_width_1(s[0]));
        let d = decode_first_scalar(s);
        assert(d >= 0x80);
        if is_leading_byte_width_2(x) {
            let y = s[1];
            assert((((x & 0x1f) as u32) << 6) | ((y & 0x3f) as u32) <= 0x7ff) by (bit_vector);
        } else if is_leading_byte_width_3(x) {
            let y = s[1];
            let z = s[2];
            assert((((x & 0x0f) as u32) << 12) | (((y & 0x3f) as u32) << 6) | ((z & 0x3f) as u32) <= 0xffff) by (bit_vector);
        }
        assert(d <= 0x10ffff);
        assert((d as char) as u32 == d);
    }
}

/// The character ending just before byte `i`.
pub fn char_before(b: &[u8], i: usize) -> (r: Option<char>)
    ensures
        r == spec_char_before(b@, i as int),
{
    if i == 0 || i > b.len() {
        return None;
    }
    let mut k = i;
    while k > 0 && 0x80 <= b[k - 1] && b[k - 1] <= 0xbf
        invariant
            k <= i <= b.len(),
            lead_before(b@, k as int) == lead_before(b@, i as int),
        decreases k,
    {
        k = k - 1;
    }
    if k == 0 {
        return None;
    }
    let lead = k - 1;
    match char_at(b, lead) {
        Some((c, n)) => if lead + n == i {
            Some(c)
        } else {
            None
        },
        None => None,
    }
}

/// JS `\s`: tab, line feed, vertical tab, form feed, carriage return, space, U+00A0, U+1680,
/// U+2000–U+200A, U+2028, U+2029, U+202F, U+205F, U+3000, U+FEFF.
pub open spec fn spec_is_whitespace(c: char) -> bool {
    let v = c as u32;
    (9 <= v <= 13) || v == 32 || v == 0xA0 || v == 0x1680 || (0x2000 <= v <= 0x200A) || v == 0x2028
        || v == 0x2029 || v == 0x202F || v == 0x205F || v == 0x3000 || v == 0xFEFF
}

/// micromark's `unicodeWhitespace` (JS `\s`), which differs from Rust's `char::is_whitespace`.
pub fn is_whitespace(c: char) -> (r: bool)
    ensures
        r == spec_is_whitespace(c),
{
    let v = c as u32;
    (9 <= v && v <= 13) || v == 32 || v == 0xA0 || v == 0x1680 || (0x2000 <= v && v <= 0x200A) || v
        == 0x2028 || v == 0x2029 || v == 0x202F || v == 0x205F || v == 0x3000 || v == 0xFEFF
}

/// Whether the Unicode general category of `c` is a punctuation (P*) or symbol (S*) category,
/// as `unicode_properties::UnicodeGeneralCategory::general_category_group` reports it.
pub uninterp spec fn unicode_punct_or_symbol(c: char) -> bool;

/// `unicode_properties`' general category group of `c` is `Punctuation` or `Symbol`.
#[verifier::external_body]
fn category_punct_or_symbol(c: char) -> (r: bool)
    ensures
        r == unicode_punct_or_symbol(c),
{
    match c.general_category_group() {
        GeneralCategoryGroup::Punctuation => true,
        GeneralCategoryGroup::Symbol => true,
        _ => false,
    }
}

/// Unicode punctuation for the flanking rules: ASCII punctuation, or a non-ASCII
/// character in a punctuation (P) or symbol (S) category.
pub open spec fn spec_is_punctuation(c: char) -> bool {
    if (c as u32) < 128 {
        is_ascii_punct((c as u32) as u8)
    } else {
        unicode_punct_or_symbol(c)
    }
}

pub fn is_punctuation(c: char) -> (r: bool)
    ensures
        r == spec_is_punctuation(c),
{
    let v = c as u32;
    if v < 128 {
        let b = v as u8;
        (33 <= b && b <= 47) || (58 <= b && b <= 64) || (91 <= b && b <= 96) || (123 <= b && b <= 126)
    } else {
        category_punct_or_symbol(c)
    }
}

/// Whether `char::is_alphanumeric` holds of `c`.
pub uninterp spec fn std_alphanumeric(c: char) -> bool;

/// `char::is_alphanumeric`: alphabetic or numeric per the Unicode properties.
#[verifier::external_body]
fn char_alphanumeric(c: char) -> (r: bool)
    ensures
        r == std_alphanumeric(c),
{
    c.is_alphanumeric()
}

/// Alphanumeric: an ASCII letter or digit, or a non-ASCII alphanumeric character.
pub open spec fn spec_is_alphanumeric(c: char) -> bool {
    if (c as u32) < 128 {
        crate::syntax::is_alnum((c as u32) as u8)
    } else {
        std_alphanumeric(c)
    }
}

pub fn is_alphanumeric(c: char) -> (r: bool)
    ensures
        r == spec_is_alphanumeric(c),
{
    let v = c as u32;
    if v < 128 {
        crate::syntax::alnum(v as u8)
    } else {
        char_alphanumeric(c)
    }
}

} // verus!
