//! Link label normalization (CommonMark's "matches" relation),
//! micromark's `normalizeIdentifier` equivalence:
//!
//! ```js
//! value
//!   .replace(/[\t\n\r ]+/g, ' ')
//!   .replace(/^ | $/g, '')
//!   .toLowerCase()
//!   .toUpperCase()
//! ```
//!
//! Only markdown whitespace collapses (never NBSP / U+3000),
//! and the fold is lowercase-then-uppercase
//! (unifies ß/ẞ/SS, σ/ς, ﬀ/FF, which lowercasing alone does not).
//! The key here is that fold lowercased once more:
//! it induces the same equivalence,
//! keeps ordinary lowercase labels on the borrowing fast path,
//! and is exactly the id micromark's footnote HTML derives (`normalizeIdentifier(x).toLowerCase()`).
//! An opaque key for equality, not display text.
//! Public because resolving reference links from `Definition` nodes needs
//! the same normalization the parser used.
use std::borrow::Cow;
use vstd::prelude::*;
use vstd::string::StringSliceAdditionalSpecFns;
use vstd::utf8::*;
use crate::utf::{lemma_valid_skip_char, push_char};

verus! {

broadcast use {encode_utf8_valid_utf8, encode_utf8_decode_utf8};

/// What `char::to_lowercase` yields for `c`.
pub uninterp spec fn std_lowercase(c: char) -> Seq<char>;

/// What `char::to_uppercase` yields for `c`.
pub uninterp spec fn std_uppercase(c: char) -> Seq<char>;

/// `char::to_lowercase`, collected.
#[verifier::external_body]
fn lowercase(c: char) -> (r: Vec<char>)
    ensures
        r@ == std_lowercase(c),
{
    c.to_lowercase().collect()
}

/// `char::to_uppercase`, collected.
#[verifier::external_body]
fn uppercase(c: char) -> (r: Vec<char>)
    ensures
        r@ == std_uppercase(c),
{
    c.to_uppercase().collect()
}

/// Every character of `s` uppercased, in order.
pub open spec fn flat_upper(s: Seq<char>) -> Seq<char>
    decreases s.len(),
{
    if s.len() == 0 {
        Seq::empty()
    } else {
        flat_upper(s.drop_last()) + std_uppercase(s.last())
    }
}

/// Every character of `s` lowercased, in order.
pub open spec fn flat_lower(s: Seq<char>) -> Seq<char>
    decreases s.len(),
{
    if s.len() == 0 {
        Seq::empty()
    } else {
        flat_lower(s.drop_last()) + std_lowercase(s.last())
    }
}

/// `c.toLowerCase().toUpperCase().toLowerCase()`.
pub open spec fn spec_fold(c: char) -> Seq<char> {
    flat_lower(flat_upper(std_lowercase(c)))
}

/// JS `[\t\n\r ]`.
pub open spec fn is_md_space(c: char) -> bool {
    c == ' ' || c == '\t' || c == '\n' || c == '\r'
}

/// ASCII uppercase letter.
pub open spec fn is_ascii_upper(c: char) -> bool {
    65 <= (c as u32) <= 90
}

/// The ASCII lowercase of an ASCII character.
pub open spec fn ascii_lower(c: char) -> char {
    if is_ascii_upper(c) {
        ((c as u32) + 32) as char
    } else {
        c
    }
}

/// The key built from the first `n` characters, and whether a space is pending:
/// runs of markdown whitespace become one space between words (none at either end),
/// ASCII is lowercased, everything else folded.
pub open spec fn key_prefix(raw: Seq<char>, n: int) -> (Seq<char>, bool)
    decreases n,
{
    if n <= 0 {
        (Seq::empty(), false)
    } else {
        let (out, pending) = key_prefix(raw, n - 1);
        let c = raw[n - 1];
        if is_md_space(c) {
            (out, true)
        } else {
            let spaced = if pending && out.len() > 0 { out.push(' ') } else { out };
            if (c as u32) < 128 {
                (spaced.push(ascii_lower(c)), false)
            } else {
                (spaced + spec_fold(c), false)
            }
        }
    }
}

/// A character the key keeps as it is.
pub open spec fn char_keeps(c: char) -> bool {
    c == ' ' || (!is_md_space(c) && if (c as u32) < 128 {
        !is_ascii_upper(c)
    } else {
        spec_fold(c) == seq![c]
    })
}

/// Whether trimming, collapsing and folding would all leave `raw` unchanged.
pub open spec fn spec_is_normalized(raw: Seq<char>) -> bool {
    &&& raw.len() > 0 ==> raw[0] != ' ' && raw.last() != ' '
    &&& forall|i: int| 0 <= i < raw.len() - 1 ==> !(#[trigger] raw[i] == ' ' && raw[i + 1] == ' ')
    &&& forall|i: int| 0 <= i < raw.len() ==> char_keeps(#[trigger] raw[i])
}

/// The normalized key of a label.
pub open spec fn spec_normalize(raw: Seq<char>) -> Seq<char> {
    if spec_is_normalized(raw) {
        raw
    } else {
        key_prefix(raw, raw.len() as int).0
    }
}

/// The borrowing fast path and the building loop agree:
/// a label in key form builds to itself.
pub proof fn lemma_normalized_builds_to_itself(raw: Seq<char>)
    requires
        spec_is_normalized(raw),
    ensures
        key_prefix(raw, raw.len() as int).0 == raw,
{
    lemma_normalized_prefix(raw, raw.len() as int);
    if raw.len() > 0 {
        assert(raw[raw.len() - 1] != ' ');
    }
    assert(raw.subrange(0, raw.len() as int) =~= raw);
}

proof fn lemma_normalized_prefix(raw: Seq<char>, n: int)
    requires
        spec_is_normalized(raw),
        0 <= n <= raw.len(),
    ensures
        n > 0 && raw[n - 1] == ' ' ==> key_prefix(raw, n) == (raw.subrange(0, n - 1), true),
        !(n > 0 && raw[n - 1] == ' ') ==> key_prefix(raw, n) == (raw.subrange(0, n), false),
    decreases n,
{
    if n > 0 {
        lemma_normalized_prefix(raw, n - 1);
        let c = raw[n - 1];
        assert(char_keeps(c));
        if c == ' ' {
            if n >= 2 {
                assert(!(raw[n - 2] == ' ' && raw[n - 1] == ' '));
            }
        } else {
            if n >= 2 && raw[n - 2] == ' ' {
                assert(raw[0] != ' ');
                assert(n - 2 > 0);
                assert(raw.subrange(0, n - 2).push(' ') =~= raw.subrange(0, n - 1));
            }
            assert(raw.subrange(0, n - 1).push(c) =~= raw.subrange(0, n));
            assert(raw.subrange(0, n - 1) + seq![c] =~= raw.subrange(0, n));
        }
    } else {
        assert(raw.subrange(0, 0) =~= Seq::<char>::empty());
    }
}

/// The character at byte `i` and what follows it.
fn next_char(b: &[u8], i: usize) -> (r: (char, usize))
    requires
        i < b@.len(),
        valid_utf8(b@.skip(i as int)),
    ensures
        i + r.1 <= b@.len(),
        r.1 >= 1,
        valid_utf8(b@.skip(i + r.1)),
        decode_utf8(b@.skip(i as int)) == seq![r.0] + decode_utf8(b@.skip(i + r.1)),
{
    proof {
        lemma_valid_skip_char(b@, i as int);
    }
    let r = match crate::syntax::unicode::char_at(b, i) {
        Some(p) => p,
        None => {
            assert(false);
            (' ', 1)
        },
    };
    proof {
        let s = b@.skip(i as int);
        assert(pop_first_scalar(s) =~= b@.skip(i + r.1));
    }
    r
}

/// JS `[\t\n\r ]`.
fn markdown_space(c: char) -> (r: bool)
    ensures
        r == is_md_space(c),
{
    c == ' ' || c == '\t' || c == '\n' || c == '\r'
}

/// Appends `c.toLowerCase().toUpperCase().toLowerCase()`.
fn push_fold(out: &mut String, c: char) -> (any: bool)
    ensures
        final(out)@ == old(out)@ + spec_fold(c),
        any == (spec_fold(c).len() > 0),
{
    let lower = lowercase(c);
    let mut ups: Vec<char> = Vec::new();
    let mut k: usize = 0;
    proof {
        assert(lower@.subrange(0, 0) =~= Seq::<char>::empty());
    }
    while k < lower.len()
        invariant
            k <= lower@.len(),
            lower@ == std_lowercase(c),
            ups@ == flat_upper(lower@.subrange(0, k as int)),
        decreases lower.len() - k,
    {
        let up = uppercase(lower[k]);
        let mut m: usize = 0;
        let ghost start = ups@;
        while m < up.len()
            invariant
                m <= up@.len(),
                ups@ == start + up@.subrange(0, m as int),
            decreases up.len() - m,
        {
            ups.push(up[m]);
            proof {
                assert(up@.subrange(0, m + 1) =~= up@.subrange(0, m as int).push(up@[m as int]));
            }
            m = m + 1;
        }
        proof {
            assert(up@.subrange(0, up@.len() as int) =~= up@);
            assert(lower@.subrange(0, k + 1).drop_last() =~= lower@.subrange(0, k as int));
        }
        k = k + 1;
    }
    proof {
        assert(lower@.subrange(0, lower@.len() as int) =~= lower@);
    }
    let ghost base = out@;
    let mut any = false;
    let mut j: usize = 0;
    proof {
        assert(ups@.subrange(0, 0) =~= Seq::<char>::empty());
        assert(out@ =~= base + flat_lower(ups@.subrange(0, 0)));
    }
    while j < ups.len()
        invariant
            j <= ups@.len(),
            out@ == base + flat_lower(ups@.subrange(0, j as int)),
            any == (out@.len() > base.len()),
        decreases ups.len() - j,
    {
        let low = lowercase(ups[j]);
        let mut m: usize = 0;
        let ghost start = out@;
        while m < low.len()
            invariant
                m <= low@.len(),
                out@ == start + low@.subrange(0, m as int),
                start.len() >= base.len(),
                any == (out@.len() > base.len()),
            decreases low.len() - m,
        {
            push_char(out, low[m]);
            any = true;
            proof {
                assert(low@.subrange(0, m + 1) =~= low@.subrange(0, m as int).push(low@[m as int]));
            }
            m = m + 1;
        }
        proof {
            assert(low@.subrange(0, low@.len() as int) =~= low@);
            assert(ups@.subrange(0, j + 1).drop_last() =~= ups@.subrange(0, j as int));
        }
        j = j + 1;
    }
    proof {
        assert(ups@.subrange(0, ups@.len() as int) =~= ups@);
    }
    any
}

/// Whether `c` folds to itself alone.
fn folds_to_itself(c: char) -> (r: bool)
    ensures
        r == (spec_fold(c) == seq![c]),
{
    let mut s = String::new();
    let _ = push_fold(&mut s, c);
    let b = s.as_str().as_bytes();
    proof {
        assert(s@ =~= spec_fold(c));
    }
    // compare one char
    if b.len() == 0 {
        proof {
            if spec_fold(c) == seq![c] {
                assert(encode_utf8(seq![c]).len() > 0) by {
                    vstd::utf8::encode_utf8_first_scalar(seq![c]);
                }
            }
        }
        return false;
    }
    proof {
        assert(b@.skip(0) =~= b@);
    }
    let (d, n) = next_char(b, 0);
    let r = d == c && n == b.len();
    proof {
        let rest = decode_utf8(b@.skip(n as int));
        assert(s@ == seq![d] + rest);
        if n == b.len() {
            assert(b@.skip(n as int) =~= Seq::<u8>::empty());
            assert(rest =~= Seq::<char>::empty());
            assert(s@ =~= seq![d]);
        } else {
            assert(b@.skip(n as int).len() > 0);
            assert(rest.len() > 0);
        }
    }
    r
}

/// Whether trim/collapse/fold would all be no-ops.
fn is_normalized(raw: &str) -> (r: bool)
    ensures
        r == spec_is_normalized(raw@),
{
    let b = raw.as_bytes();
    let ghost chars = raw@;
    let mut i: usize = 0;
    let mut k: usize = 0;
    let mut prev_space = false;
    proof {
        assert(b@.skip(0) =~= b@);
    }
    while i < b.len()
        invariant
            i <= b@.len(),
            chars == raw@,
            b@ == encode_utf8(chars),
            valid_utf8(b@.skip(i as int)),
            k <= chars.len(),
            k <= i,
            decode_utf8(b@.skip(i as int)) == chars.skip(k as int),
            prev_space == (k > 0 && chars[k - 1] == ' '),
            k > 0 ==> chars[0] != ' ',
            forall|q: int| 0 <= q < k - 1 ==> !(#[trigger] chars[q] == ' ' && chars[q + 1] == ' '),
            forall|q: int| 0 <= q < k ==> char_keeps(#[trigger] chars[q]),
        decreases b@.len() - i,
    {
        let (c, n) = next_char(b, i);
        proof {
            assert(chars.skip(k as int).len() > 0) by {
                assert(decode_utf8(b@.skip(i as int)).len() > 0);
            }
            assert(chars.skip(k as int)[0] == c);
            assert(chars.skip(k + 1) =~= chars.skip(k as int).drop_first());
        }
        let keeps = if c == ' ' {
            !(k == 0 || prev_space)
        } else if markdown_space(c) {
            false
        } else if (c as u32) < 128 {
            !(65 <= (c as u32) && (c as u32) <= 90)
        } else {
            folds_to_itself(c)
        };
        if !keeps {
            proof {
                if c == ' ' {
                    if k == 0 {
                        assert(chars[0] == ' ');
                    } else {
                        assert(chars[k - 1] == ' ' && chars[k as int] == ' ');
                    }
                } else {
                    assert(!char_keeps(chars[k as int]));
                }
            }
            return false;
        }
        prev_space = c == ' ';
        i = i + n;
        k = k + 1;
    }
    proof {
        assert(b@.skip(i as int) =~= Seq::<u8>::empty());
        assert(chars.skip(k as int).len() == 0);
    }
    !prev_space
}

/// Borrow-through fast path for labels that are already in key form.
///
/// Lookups happen per reference candidate;
/// `is_normalized` is an exact mirror of the building loop
/// ([`lemma_normalized_builds_to_itself`]).
pub fn normalize(raw: &str) -> (r: Cow<'_, str>)
    ensures
        r@ == spec_normalize(raw@),
        r is Borrowed <==> spec_is_normalized(raw@),
{
    if is_normalized(raw) {
        return Cow::Borrowed(raw);
    }
    let b = raw.as_bytes();
    let ghost chars = raw@;
    let mut out = String::new();
    let mut nonempty = false;
    let mut pending_space = false;
    let mut i: usize = 0;
    let mut k: usize = 0;
    proof {
        assert(b@.skip(0) =~= b@);
    }
    while i < b.len()
        invariant
            i <= b@.len(),
            chars == raw@,
            b@ == encode_utf8(chars),
            valid_utf8(b@.skip(i as int)),
            k <= chars.len(),
            k <= i,
            decode_utf8(b@.skip(i as int)) == chars.skip(k as int),
            key_prefix(chars, k as int) == (out@, pending_space),
            nonempty == (out@.len() > 0),
        decreases b@.len() - i,
    {
        let (c, n) = next_char(b, i);
        proof {
            assert(chars.skip(k as int).len() > 0) by {
                assert(decode_utf8(b@.skip(i as int)).len() > 0);
            }
            assert(chars.skip(k as int)[0] == c);
            assert(chars[k as int] == c);
            assert(chars.skip(k + 1) =~= chars.skip(k as int).drop_first());
        }
        if markdown_space(c) {
            pending_space = true;
        } else {
            if pending_space && nonempty {
                push_char(&mut out, ' ');
            }
            pending_space = false;
            if (c as u32) < 128 {
                let v = c as u32;
                let lower = if 65 <= v && v <= 90 {
                    char_from_ascii(v + 32)
                } else {
                    c
                };
                push_char(&mut out, lower);
                nonempty = true;
            } else {
                let any = push_fold(&mut out, c);
                nonempty = nonempty || any;
            }
        }
        i = i + n;
        k = k + 1;
    }
    proof {
        assert(b@.skip(i as int) =~= Seq::<u8>::empty());
        assert(chars.skip(k as int).len() == 0);
    }
    Cow::Owned(out)
}

/// The char of an ASCII code.
fn char_from_ascii(v: u32) -> (c: char)
    requires
        v < 128,
    ensures
        c as u32 == v,
        c == v as char,
{
    let b = v as u8;
    let c = b as char;
    c
}

} // verus!
