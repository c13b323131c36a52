//! Backslash-escape and character-reference decoding.
//!
//! The AST carries raw source spans only;
//! this is the shared decoder that turns a raw slice into its cooked text.
//! It is public because a printer needs the very same recognition to judge escape removal safely
//! (an escape whose removal forms an entity changes meaning).
use std::borrow::Cow;
use vstd::prelude::*;
use vstd::string::StringExecFns;
use vstd::string::StringSliceAdditionalSpecFns;
use vstd::utf8::*;
use entities::ENTITIES;
use crate::pos::{pieces_on_boundaries, spaces, span_bytes, Segment};
use crate::ast::Destination;
use crate::utf::{
    lemma_boundary_of_valid_rest, substr,
    lemma_encode_ascii, lemma_encode_push, lemma_encode_utf8_concat, lemma_valid_char_at,
    lemma_valid_skip_ascii, lemma_valid_skip_ascii_run, lemma_valid_skip_char, push_char,
};
use super::{alnum, digit, escapes_next, is_alnum, is_digit, lemma_run_end, run_end, spec_escapes_next};
use super::unicode::{char_at, char_from_u32, spec_char_at, spec_char_len};

verus! {

broadcast use {encode_utf8_valid_utf8, is_char_boundary_start_end_of_seq, valid_utf8_split};

/// Row `k` of the HTML5 named character references: the reference as written
/// (`&name;`, or a legacy form without `;`) and the characters it stands for.
pub uninterp spec fn html5_entity(k: int) -> (Seq<char>, Seq<char>);

/// `entities::ENTITIES[k]`: the reference as written and its characters.
#[verifier::external_body]
fn entity_row(k: usize) -> (r: (&'static str, &'static str))
    requires
        k < 2231,
    ensures
        (r.0@, r.1@) == html5_entity(k as int),
{
    (ENTITIES[k].entity, ENTITIES[k].characters)
}

/// The number of rows of `entities::ENTITIES` (its type is `[Entity; 2231]`).
#[verifier::external_body]
fn entity_count() -> (n: usize)
    ensures
        n == 2231,
{
    ENTITIES.len()
}

/// The characters of the first row at or after `k` written `&name;`.
pub open spec fn lookup_from(name: Seq<u8>, k: int) -> Option<Seq<char>>
    decreases 2231 - k,
{
    if k < 0 || k >= 2231 {
        None
    } else if encode_utf8(html5_entity(k).0) == seq![38u8] + name + seq![59u8] {
        Some(html5_entity(k).1)
    } else {
        lookup_from(name, k + 1)
    }
}

/// An ASCII hexadecimal digit.
pub open spec fn is_hex(x: u8) -> bool {
    is_digit(x) || (97 <= x <= 102) || (65 <= x <= 70)
}

/// The value of a decimal or hexadecimal digit.
pub open spec fn digit_value(x: u8) -> int {
    if is_digit(x) {
        x - 48
    } else if 97 <= x <= 102 {
        x - 87
    } else {
        x - 55
    }
}

/// The number `b[from..to]` spells in base `radix`.
pub open spec fn digits_value(b: Seq<u8>, from: int, to: int, radix: int) -> int
    decreases to - from,
{
    if to <= from {
        0
    } else {
        digits_value(b, from, to - 1, radix) * radix + digit_value(b[to - 1])
    }
}

pub open spec fn dec_pred() -> spec_fn(u8) -> bool {
    |x: u8| is_digit(x)
}

pub open spec fn hex_pred() -> spec_fn(u8) -> bool {
    |x: u8| is_hex(x)
}

pub open spec fn alnum_pred() -> spec_fn(u8) -> bool {
    |x: u8| is_alnum(x)
}

/// The character a numeric reference stands for: U+FFFD for zero and for non-scalars.
pub open spec fn numeric_char(value: int) -> char {
    if value != 0 && 0 <= value <= u32::MAX && is_scalar(value as u32) {
        (value as u32) as char
    } else {
        '\u{FFFD}'
    }
}

/// A character reference at `at` (which holds `&`): its replacement bytes and the position past `;`.
/// Numeric: `#` then 1–7 decimal digits, or `x`/`X` then 1–6 hex digits.
/// Named: 1–48 letters and digits naming an HTML5 reference.
pub open spec fn spec_entity(b: Seq<u8>, at: int) -> Option<(Seq<u8>, int)> {
    if at + 1 < b.len() && b[at + 1] == 35 {
        let hex = at + 2 < b.len() && (b[at + 2] == 120 || b[at + 2] == 88);
        let start = if hex { at + 3 } else { at + 2 };
        let e = run_end(b, start, if hex { hex_pred() } else { dec_pred() });
        let len = e - start;
        if len == 0 || len > (if hex { 6int } else { 7int }) || e >= b.len() || b[e] != 59 {
            None
        } else {
            let c = numeric_char(digits_value(b, start, e, if hex { 16 } else { 10 }));
            Some((encode_utf8(seq![c]), e + 1))
        }
    } else {
        let e = run_end(b, at + 1, alnum_pred());
        let len = e - (at + 1);
        if len == 0 || len > 48 || e >= b.len() || b[e] != 59 {
            None
        } else {
            match lookup_from(b.subrange(at + 1, e), 0) {
                Some(v) => Some((encode_utf8(v), e + 1)),
                None => None,
            }
        }
    }
}

/// The decoded bytes of `b[i..]`: an escaped ASCII punctuation byte loses its backslash
/// (when `escapes`), a recognized character reference becomes its characters,
/// every other byte is kept.
pub open spec fn decode_from(b: Seq<u8>, i: int, escapes: bool) -> Seq<u8>
    decreases b.len() - i,
{
    if i < 0 || i >= b.len() {
        Seq::empty()
    } else if b[i] == 92 && escapes && spec_escapes_next(b, i) {
        seq![b[i + 1]] + decode_from(b, i + 2, escapes)
    } else if b[i] == 38 {
        match spec_entity(b, i) {
            Some((t, e)) => if e > i {
                t + decode_from(b, e, escapes)
            } else {
                Seq::empty()
            },
            None => seq![38u8] + decode_from(b, i + 1, escapes),
        }
    } else {
        seq![b[i]] + decode_from(b, i + 1, escapes)
    }
}

/// The decoded text of `raw`.
pub open spec fn spec_decode(b: Seq<u8>, escapes: bool) -> Seq<u8> {
    decode_from(b, 0, escapes)
}

/// Whether `b` holds a backslash or an ampersand.
pub open spec fn has_special(b: Seq<u8>) -> bool {
    exists|k: int| 0 <= k < b.len() && (b[k] == 92 || b[k] == 38)
}

/// A reference spans ASCII bytes only, and ends past its start.
pub proof fn lemma_entity_ascii(b: Seq<u8>, at: int)
    requires
        0 <= at < b.len(),
        b[at] == 38,
    ensures
        spec_entity(b, at) matches Some((t, e)) ==> at < e <= b.len() && forall|k: int| at <= k < e ==> b[k] < 128,
{
    if at + 1 < b.len() && b[at + 1] == 35 {
        let hex = at + 2 < b.len() && (b[at + 2] == 120 || b[at + 2] == 88);
        let start = if hex { at + 3 } else { at + 2 };
        lemma_run_end(b, start, if hex { hex_pred() } else { dec_pred() });
    } else {
        lemma_run_end(b, at + 1, alnum_pred());
    }
}

/// Bytes of multi-byte characters are copied one by one.
pub proof fn lemma_decode_copy(b: Seq<u8>, i: int, j: int, escapes: bool)
    requires
        0 <= i <= j <= b.len(),
        forall|k: int| i <= k < j ==> b[k] >= 128,
    ensures
        decode_from(b, i, escapes) == b.subrange(i, j) + decode_from(b, j, escapes),
    decreases j - i,
{
    if i < j {
        lemma_decode_copy(b, i + 1, j, escapes);
        assert(b.subrange(i, j) =~= seq![b[i]] + b.subrange(i + 1, j));
    } else {
        assert(b.subrange(i, j) =~= Seq::<u8>::empty());
    }
}

/// Text without backslashes or ampersands decodes to itself.
pub proof fn lemma_decode_plain(b: Seq<u8>, i: int, escapes: bool)
    requires
        0 <= i <= b.len(),
        !has_special(b),
    ensures
        decode_from(b, i, escapes) == b.subrange(i, b.len() as int),
    decreases b.len() - i,
{
    if i < b.len() {
        lemma_decode_plain(b, i + 1, escapes);
        assert(b.subrange(i, b.len() as int) =~= seq![b[i]] + b.subrange(i + 1, b.len() as int));
    } else {
        assert(b.subrange(i, b.len() as int) =~= Seq::<u8>::empty());
    }
}

/// With escapes off, a backslash is copied through and decoding goes on right after it.
pub proof fn lemma_decode_copies_backslash(b: Seq<u8>, i: int)
    requires
        0 <= i < b.len(),
        b[i] == 92,
    ensures
        decode_from(b, i, false) == seq![92u8] + decode_from(b, i + 1, false),
{
}

/// With escapes off, backslashes are copied through: text without ampersands decodes to itself.
pub proof fn lemma_decode_keeps_backslashes(b: Seq<u8>, i: int)
    requires
        0 <= i <= b.len(),
        forall|k: int| 0 <= k < b.len() ==> b[k] != 38,
    ensures
        decode_from(b, i, false) == b.subrange(i, b.len() as int),
    decreases b.len() - i,
{
    if i < b.len() {
        lemma_decode_keeps_backslashes(b, i + 1);
        assert(b.subrange(i, b.len() as int) =~= seq![b[i]] + b.subrange(i + 1, b.len() as int));
    } else {
        assert(b.subrange(i, b.len() as int) =~= Seq::<u8>::empty());
    }
}

fn is_hex_exec(x: u8) -> (r: bool)
    ensures
        r == is_hex(x),
{
    digit(x) || (97 <= x && x <= 102) || (65 <= x && x <= 70)
}

/// A digit of a numeric reference: hexadecimal or decimal.
fn num_digit(x: u8, hex: bool) -> (r: bool)
    ensures
        r == (if hex { hex_pred() } else { dec_pred() })(x),
{
    if hex {
        is_hex_exec(x)
    } else {
        digit(x)
    }
}

fn digit_value_exec(x: u8) -> (v: u32)
    requires
        is_hex(x),
    ensures
        v as int == digit_value(x),
        v < 16,
{
    if 48 <= x && x <= 57 {
        (x - 48) as u32
    } else if 97 <= x && x <= 102 {
        (x - 87) as u32
    } else {
        (x - 55) as u32
    }
}

/// `16^k`.
spec fn p16(k: nat) -> nat
    decreases k,
{
    if k == 0 {
        1
    } else {
        16 * p16((k - 1) as nat)
    }
}

/// The characters of the named reference `&name;`.
fn lookup(name: &[u8]) -> (r: Option<&'static str>)
    ensures
        r matches Some(v) ==> lookup_from(name@, 0) == Some(v@),
        r is None ==> lookup_from(name@, 0) is None,
{
    let n = entity_count();
    let mut k: usize = 0;
    while k < n
        invariant
            n == 2231,
            k <= n,
            lookup_from(name@, k as int) == lookup_from(name@, 0),
        decreases n - k,
    {
        let (written, chars) = entity_row(k);
        let w = written.as_bytes();
        let ghost target = seq![38u8] + name@ + seq![59u8];
        let pre = w.len() >= 2 && w.len() - 2 == name.len() && w[0] == 38 && w[w.len() - 1] == 59;
        let mut same = pre;
        let ghost mut bad: int = 0;
        if pre {
            let mut m: usize = 0;
            while m < name.len()
                invariant
                    m <= name.len(),
                    w@.len() == name@.len() + 2,
                    same ==> forall|q: int| 0 <= q < m ==> w@[q + 1] == name@[q],
                    !same ==> 0 <= bad < name@.len() && w@[bad + 1] != name@[bad],
                decreases name.len() - m,
            {
                if w[m + 1] != name[m] {
                    same = false;
                    proof {
                        bad = m as int;
                    }
                }
                m = m + 1;
            }
        }
        proof {
            if same {
                assert(w@ =~= target);
            } else if pre {
                assert(w@[bad + 1] != target[bad + 1]);
            } else if w@ == target {
                assert(w@[0] == 38 && w@[w@.len() - 1] == 59);
            }
        }
        if same {
            return Some(chars);
        }
        k = k + 1;
    }
    None
}

/// A character reference at `at` in `b`.
fn entity_at(b: &[u8], at: usize) -> (r: Option<(Cow<'static, str>, usize)>)
    requires
        at < b.len(),
    ensures
        r matches Some((t, e)) ==> spec_entity(b@, at as int) == Some((encode_utf8(t@), e as int)),
        r is None ==> spec_entity(b@, at as int) is None,
{
    if at + 1 < b.len() && b[at + 1] == 35 {
        let hex = at + 2 < b.len() && (b[at + 2] == 120 || b[at + 2] == 88);
        let start = if hex { at + 3 } else { at + 2 };
        let ghost pred = if hex { hex_pred() } else { dec_pred() };
        let mut e = start;
        let mut value: u32 = 0;
        let radix: u32 = if hex { 16 } else { 10 };
        let max_len: usize = if hex { 6 } else { 7 };
        proof {
            lemma_p16_mono(0, 8);
        }
        while e < b.len() && num_digit(b[e], hex) && e - start <= max_len
            invariant
                start <= e <= b.len(),
                start == if hex { at + 3 } else { at + 2 },
                pred == if hex { hex_pred() } else { dec_pred() },
                radix == if hex { 16u32 } else { 10u32 },
                max_len == if hex { 6usize } else { 7usize },
                e - start <= max_len + 1,
                e - start <= max_len ==> run_end(b@, e as int, pred) == run_end(b@, start as int, pred),
                e - start == max_len + 1 ==> run_end(b@, start as int, pred) >= e,
                forall|k: int| start <= k < e ==> pred(#[trigger] b@[k]),
                value as int == digits_value(b@, start as int, e as int, radix as int),
                value < p16((e - start) as nat),
                p16((e - start) as nat) <= p16(8),
            decreases b.len() - e,
        {
            let d = digit_value_exec(b[e]);
            proof {
                let k = (e - start) as nat;
                assert(p16(k + 1) == 16 * p16(k));
                assert(value * radix + d < p16(k + 1)) by (nonlinear_arith)
                    requires
                        value < p16(k),
                        radix <= 16,
                        d < 16,
                        p16(k + 1) == 16 * p16(k),
                ;
                assert(p16(8) == 4294967296) by {
                    reveal_with_fuel(p16, 9);
                }
                if e - start == max_len {
                    lemma_run_end(b@, e + 1, pred);
                }
                assert(p16(k + 1) <= p16(8)) by {
                    lemma_p16_mono(k + 1, 8);
                }
            }
            value = value * radix + d;
            e = e + 1;
        }
        proof {
            lemma_run_end(b@, start as int, pred);
        }
        let len = e - start;
        if len == 0 || len > max_len || e >= b.len() || b[e] != 59 {
            return None;
        }
        assert(e as int == run_end(b@, start as int, pred));
        let c = if value != 0 {
            match char_from_u32(value) {
                Some(c) => c,
                None => '\u{FFFD}',
            }
        } else {
            '\u{FFFD}'
        };
        proof {
            if value != 0 && is_scalar(value) {
                assert(c as u32 == value);
                vstd::utf8::char_u32_cast(c, value);
            }
        }
        let mut s = String::new();
        push_char(&mut s, c);
        proof {
            assert(s@ =~= seq![c]);
        }
        return Some((Cow::Owned(s), e + 1));
    }
    // Named: letters/digits then `;`. micromark caps the scan at 31 chars;
    // any larger bound behaves the same because the lookup rejects unknown
    // names and the longest real entity is 31 chars. 48 leaves slack.
    let mut e = at + 1;
    while e < b.len() && alnum(b[e])
        invariant
            at + 1 <= e <= b.len(),
            run_end(b@, e as int, alnum_pred()) == run_end(b@, at + 1, alnum_pred()),
        decreases b.len() - e,
    {
        e = e + 1;
    }
    let len = e - (at + 1);
    if len == 0 || len > 48 || e >= b.len() || b[e] != 59 {
        return None;
    }
    let name = slice_of(b, at + 1, e);
    match lookup(name) {
        Some(v) => Some((Cow::Borrowed(v), e + 1)),
        None => None,
    }
}

proof fn lemma_p16_mono(a: nat, b: nat)
    requires
        a <= b,
    ensures
        p16(a) <= p16(b),
    decreases b,
{
    if a < b {
        lemma_p16_mono(a, (b - 1) as nat);
    }
}

/// `b[from..to]`.
fn slice_of(b: &[u8], from: usize, to: usize) -> (s: &[u8])
    requires
        from <= to <= b.len(),
    ensures
        s@ == b@.subrange(from as int, to as int),
{
    vstd::slice::slice_subrange(b, from, to)
}

/// Recognizes a character reference at `at` (which holds `&`).
/// Returns the replacement text and the position just past the `;`.
pub fn entity(raw: &str, at: usize) -> (r: Option<(Cow<'static, str>, usize)>)
    requires
        at < raw.spec_bytes().len(),
    ensures
        r matches Some((t, e)) ==> spec_entity(raw.spec_bytes(), at as int) == Some((encode_utf8(t@), e as int)),
        r is None ==> spec_entity(raw.spec_bytes(), at as int) is None,
{
    entity_at(raw.as_bytes(), at)
}

/// Decoding an escape emits the escaped byte.
proof fn lemma_step_escape(bs: Seq<u8>, i: int, escapes: bool, before: Seq<char>, after: Seq<char>)
    requires
        0 <= i,
        i + 1 < bs.len(),
        valid_utf8(bs.skip(i)),
        bs[i] == 92 && escapes && spec_escapes_next(bs, i),
        after == before.push(bs[i + 1] as char),
    ensures
        valid_utf8(bs.skip(i + 2)),
        encode_utf8(after) + decode_from(bs, i + 2, escapes) == encode_utf8(before) + decode_from(bs, i, escapes),
{
    let y = bs[i + 1];
    lemma_encode_push(before, y as char);
    lemma_encode_ascii(y as char);
    lemma_valid_skip_ascii(bs, i);
    lemma_valid_skip_ascii(bs, i + 1);
    assert(encode_utf8(after) + decode_from(bs, i + 2, escapes) =~= encode_utf8(before) + decode_from(bs, i, escapes));
}

/// Decoding a recognized reference emits its characters.
proof fn lemma_step_entity(
    bs: Seq<u8>,
    i: int,
    escapes: bool,
    before: Seq<char>,
    text: Seq<char>,
    after: Seq<char>,
    end: int,
)
    requires
        0 <= i < bs.len(),
        valid_utf8(bs.skip(i)),
        bs[i] == 38,
        spec_entity(bs, i) == Some((encode_utf8(text), end)),
        after == before + text,
    ensures
        i < end <= bs.len(),
        valid_utf8(bs.skip(end)),
        encode_utf8(after) + decode_from(bs, end, escapes) == encode_utf8(before) + decode_from(bs, i, escapes),
{
    lemma_entity_ascii(bs, i);
    lemma_encode_utf8_concat(before, text);
    lemma_valid_skip_ascii_run(bs, i, end);
    assert(encode_utf8(after) + decode_from(bs, end, escapes) =~= encode_utf8(before) + decode_from(bs, i, escapes));
}

/// An unrecognized `&` is kept.
proof fn lemma_step_amp(bs: Seq<u8>, i: int, escapes: bool, before: Seq<char>, after: Seq<char>)
    requires
        0 <= i < bs.len(),
        valid_utf8(bs.skip(i)),
        bs[i] == 38,
        spec_entity(bs, i) is None,
        after == before.push('&'),
    ensures
        valid_utf8(bs.skip(i + 1)),
        encode_utf8(after) + decode_from(bs, i + 1, escapes) == encode_utf8(before) + decode_from(bs, i, escapes),
{
    lemma_encode_push(before, '&');
    lemma_encode_ascii('&');
    lemma_valid_skip_ascii(bs, i);
    assert(encode_utf8(after) + decode_from(bs, i + 1, escapes) =~= encode_utf8(before) + decode_from(bs, i, escapes));
}

/// Any other character is kept.
proof fn lemma_step_char(bs: Seq<u8>, i: int, escapes: bool, before: Seq<char>, c: char, after: Seq<char>)
    requires
        0 <= i < bs.len(),
        valid_utf8(bs.skip(i)),
        bs[i] != 38,
        !(bs[i] == 92 && escapes && spec_escapes_next(bs, i)),
        spec_char_at(bs, i) == Some(c),
        after == before.push(c),
    ensures
        valid_utf8(bs.skip(i + spec_char_len(bs, i))),
        encode_utf8(after) + decode_from(bs, i + spec_char_len(bs, i), escapes) == encode_utf8(before) + decode_from(
            bs,
            i,
            escapes,
        ),
{
    let n = spec_char_len(bs, i);
    lemma_valid_skip_char(bs, i);
    lemma_encode_push(before, c);
    lemma_valid_char_at(bs, i);
    let s = bs.skip(i);
    assert forall|k: int| i + 1 <= k < i + n implies bs[k] >= 128 by {
        assert(s[k - i] == bs[k]);
    }
    lemma_decode_copy(bs, i + 1, i + n, escapes);
    assert(bs.subrange(i, i + n) =~= seq![bs[i]] + bs.subrange(i + 1, i + n));
    assert(encode_utf8(after) + decode_from(bs, i + n, escapes) =~= encode_utf8(before) + decode_from(bs, i, escapes));
}

/// Decodes into a new string.
#[verifier::loop_isolation(false)]
fn decode_owned(raw: &str, escapes: bool) -> (out: String)
    ensures
        encode_utf8(out@) == spec_decode(raw.spec_bytes(), escapes),
{
    let b = raw.as_bytes();
    let ghost bs = b@;
    let mut out = String::new();
    let mut i: usize = 0;
    proof {
        assert(bs.skip(0) =~= bs);
        assert(encode_utf8(out@) =~= Seq::<u8>::empty());
    }
    while i < b.len()
        invariant
            i <= bs.len(),
            bs == b@,
            valid_utf8(bs.skip(i as int)),
            encode_utf8(out@) + decode_from(bs, i as int, escapes) == decode_from(bs, 0, escapes),
        decreases bs.len() - i,
    {
        let ghost before = out@;
        let x = b[i];
        if x == 92 && escapes && escapes_next(b, i) {
            let y = b[i + 1];
            push_char(&mut out, y as char);
            proof {
                lemma_step_escape(bs, i as int, escapes, before, out@);
            }
            i = i + 2;
        } else if x == 38 {
            proof {
                lemma_entity_ascii(bs, i as int);
            }
            match entity_at(b, i) {
                Some((text, end)) => {
                    match text {
                        Cow::Borrowed(t) => out.append(t),
                        Cow::Owned(t) => out.append(t.as_str()),
                    }
                    proof {
                        lemma_step_entity(bs, i as int, escapes, before, text@, out@, end as int);
                    }
                    i = end;
                },
                None => {
                    push_char(&mut out, '&');
                    proof {
                        lemma_step_amp(bs, i as int, escapes, before, out@);
                    }
                    i = i + 1;
                },
            }
        } else {
            proof {
                lemma_valid_skip_char(bs, i as int);
            }
            let (c, n) = match char_at(b, i) {
                Some(p) => p,
                None => {
                    // `raw` is a `str`: a character starts here
                    assert(false);
                    (' ', 1)
                },
            };
            push_char(&mut out, c);
            proof {
                lemma_step_char(bs, i as int, escapes, before, c, out@);
            }
            i = i + n;
        }
    }
    proof {
        assert(decode_from(bs, i as int, escapes) =~= Seq::<u8>::empty());
        assert(encode_utf8(out@) =~= encode_utf8(out@) + Seq::<u8>::empty());
    }
    out
}

/// Decodes backslash escapes and entities.
/// `escapes: false` decodes only entities
/// (autolink contents; backslash escapes don't work there).
/// Text with neither a backslash nor an ampersand is borrowed.
pub fn decode(raw: &str, escapes: bool) -> (r: Cow<'_, str>)
    ensures
        encode_utf8(r@) == spec_decode(raw.spec_bytes(), escapes),
        !has_special(raw.spec_bytes()) ==> r is Borrowed,
        has_special(raw.spec_bytes()) ==> r is Owned,
{
    let b = raw.as_bytes();
    let mut k: usize = 0;
    while k < b.len()
        invariant
            k <= b@.len(),
            b@ == raw.spec_bytes(),
            forall|q: int| 0 <= q < k ==> !(b@[q] == 92 || b@[q] == 38),
        decreases b.len() - k,
    {
        if b[k] == 92 || b[k] == 38 {
            assert(has_special(b@)) by {
                assert(b@[k as int] == 92 || b@[k as int] == 38);
            }
            return Cow::Owned(decode_owned(raw, escapes));
        }
        k = k + 1;
    }
    proof {
        lemma_decode_plain(b@, 0, escapes);
        assert(b@.subrange(0, b@.len() as int) =~= b@);
    }
    Cow::Borrowed(raw)
}

/// How far stripping leading spaces and tabs from `t[k..]` reaches,
/// `cols` columns being stripped already, until `max` columns are.
pub open spec fn strip_end(t: Seq<u8>, k: int, cols: int, max: int) -> int
    decreases t.len() - k,
{
    if k < 0 || k >= t.len() || cols >= max {
        k
    } else if t[k] == 32 {
        strip_end(t, k + 1, cols + 1, max)
    } else if t[k] == 9 {
        strip_end(t, k + 1, cols + 4 - cols % 4, max)
    } else {
        k
    }
}

/// One piece as joined: a continuation piece loses up to `max` leading whitespace columns,
/// its padding counting first.
pub open spec fn stripped_piece(source: Seq<u8>, piece: Segment, first: bool, max: int) -> Seq<u8> {
    let t = span_bytes(source, piece.span);
    if first {
        spaces(piece.padding as nat) + t
    } else {
        let cols = if piece.padding <= max { piece.padding as int } else { max };
        spaces((piece.padding - cols) as nat) + t.skip(strip_end(t, 0, cols, max))
    }
}

/// Pieces joined with `\n`, each continuation piece minus up to `max` leading whitespace columns.
pub open spec fn spec_join_stripped(source: Seq<u8>, pieces: Seq<Segment>, max: int) -> Seq<u8>
    decreases pieces.len(),
{
    if pieces.len() == 0 {
        Seq::empty()
    } else if pieces.len() == 1 {
        stripped_piece(source, pieces[0], true, max)
    } else {
        spec_join_stripped(source, pieces.drop_last(), max) + seq![10u8] + stripped_piece(
            source,
            pieces.last(),
            false,
            max,
        )
    }
}

proof fn lemma_strip_end(t: Seq<u8>, k: int, cols: int, max: int)
    requires
        0 <= k <= t.len(),
    ensures
        k <= strip_end(t, k, cols, max) <= t.len(),
        forall|q: int| k <= q < strip_end(t, k, cols, max) ==> t[q] == 32 || t[q] == 9,
    decreases t.len() - k,
{
    if k < t.len() && cols < max && (t[k] == 32 || t[k] == 9) {
        if t[k] == 32 {
            lemma_strip_end(t, k + 1, cols + 1, max);
        } else {
            lemma_strip_end(t, k + 1, cols + 4 - cols % 4, max);
        }
    }
}

/// Pieces joined with `\n`, each continuation piece minus up to `max` leading whitespace columns
/// (padding counts as spaces).
/// Tabs are counted from the piece start, not from the source column micromark uses,
/// and a partially consumed tab is not re-emitted as spaces:
/// `<b\n\t\tc=1>` gives `\tc=1` here and ` \tc=1` in micromark.
/// Exact tab columns would need the segment's start column, which `Segment` does not carry;
/// the shape (a tab-indented continuation line of an inline tag) is rare.
fn join_stripped(source: &str, pieces: &[Segment], max: usize) -> (out: String)
    requires
        pieces_on_boundaries(source.spec_bytes(), pieces@),
    ensures
        encode_utf8(out@) == spec_join_stripped(source.spec_bytes(), pieces@, max as int),
{
    let ghost src = source.spec_bytes();
    let mut out = String::new();
    proof {
        assert(encode_utf8(out@) =~= Seq::<u8>::empty());
    }
    let mut i: usize = 0;
    while i < pieces.len()
        invariant
            i <= pieces@.len(),
            src == source.spec_bytes(),
            pieces_on_boundaries(src, pieces@),
            encode_utf8(out@) == spec_join_stripped(src, pieces@.subrange(0, i as int), max as int),
        decreases pieces.len() - i,
    {
        let ghost before = out@;
        let piece = pieces[i];
        let text = piece.span.slice(source);
        let tb = text.as_bytes();
        let ghost t = tb@;
        let mut padding = piece.padding;
        let mut k: usize = 0;
        if i > 0 {
            push_char(&mut out, '\n');
            proof {
                lemma_encode_push(before, '\n');
                lemma_encode_ascii('\n');
            }
            let cols0: u8 = if (piece.padding as usize) <= max { piece.padding } else { max as u8 };
            padding = piece.padding - cols0;
            let mut cols: u64 = cols0 as u64;
            while k < tb.len() && cols < max as u64 && (tb[k] == 32 || tb[k] == 9)
                invariant
                    k <= t.len(),
                    t == tb@,
                    t.len() <= u32::MAX,
                    cols <= 255 + 4 * k,
                    strip_end(t, k as int, cols as int, max as int) == strip_end(t, 0, cols0 as int, max as int),
                decreases tb.len() - k,
            {
                if tb[k] == 32 {
                    cols = cols + 1;
                } else {
                    cols = cols + 4 - cols % 4;
                }
                k = k + 1;
            }
            proof {
                lemma_strip_end(t, 0, cols0 as int, max as int);
            }
        }
        push_spaces(&mut out, padding);
        let ghost mid = out@;
        proof {
            lemma_strip_end(t, 0, if i > 0 { (piece.padding - padding) as int } else { 0 }, max as int);
            assert forall|q: int| 0 <= q < k implies t[q] < 128 by {
                lemma_strip_end(t, 0, (piece.padding - padding) as int, max as int);
            }
            assert(t.skip(0) =~= t);
            lemma_valid_skip_ascii_run(t, 0, k as int);
            lemma_boundary_of_valid_rest(t, k as int);
        }
        let rest = substr(text, k, tb.len());
        out.append(rest);
        proof {
            lemma_encode_utf8_concat(mid, rest@);
            let prefix = pieces@.subrange(0, i as int);
            let next = pieces@.subrange(0, i + 1);
            assert(next.drop_last() =~= prefix);
            assert(next.last() == pieces@[i as int]);
            assert(rest.spec_bytes() =~= t.skip(k as int));
            if i == 0 {
                assert(next.len() == 1);
                assert(encode_utf8(out@) =~= stripped_piece(src, pieces@[0], true, max as int));
            } else {
                assert(encode_utf8(out@) =~= spec_join_stripped(src, prefix, max as int) + seq![10u8]
                    + stripped_piece(src, pieces@[i as int], false, max as int));
            }
        }
        i = i + 1;
    }
    proof {
        assert(pieces@.subrange(0, pieces@.len() as int) =~= pieces@);
    }
    out
}

/// Appends `n` spaces.
fn push_spaces(out: &mut String, n: u8)
    ensures
        encode_utf8(final(out)@) == encode_utf8(old(out)@) + spaces(n as nat),
{
    let mut k: u8 = 0;
    proof {
        assert(encode_utf8(out@) =~= encode_utf8(old(out)@) + spaces(0));
    }
    while k < n
        invariant
            k <= n,
            encode_utf8(out@) == encode_utf8(old(out)@) + spaces(k as nat),
        decreases n - k,
    {
        let ghost before = out@;
        push_char(out, ' ');
        proof {
            lemma_encode_push(before, ' ');
            lemma_encode_ascii(' ');
            assert(spaces(k as nat) + seq![32u8] =~= spaces((k + 1) as nat));
        }
        k = k + 1;
    }
}

/// The cooked value of a link or definition title held as line pieces:
/// quotes stripped, continuation lines' leading whitespace removed (micromark strips all of it),
/// escapes and entities decoded.
pub fn title(source: &str, pieces: &[Segment]) -> (r: String)
    requires
        pieces_on_boundaries(source.spec_bytes(), pieces@),
        spec_join_stripped(source.spec_bytes(), pieces@, usize::MAX as int).len() >= 2,
        spec_join_stripped(source.spec_bytes(), pieces@, usize::MAX as int)[0] < 128,
        spec_join_stripped(source.spec_bytes(), pieces@, usize::MAX as int).last() < 128,
    ensures
        ({
            let j = spec_join_stripped(source.spec_bytes(), pieces@, usize::MAX as int);
            encode_utf8(r@) == spec_decode(j.subrange(1, j.len() - 1), true)
        }),
{
    let joined = join_stripped(source, pieces, usize::MAX);
    let js = joined.as_str();
    let ghost jb = js.spec_bytes();
    let n = js.as_bytes().len();
    proof {
        assert(jb.skip(0) =~= jb);
        lemma_valid_skip_ascii(jb, 0);
        lemma_boundary_of_valid_rest(jb, 1);
        is_char_boundary_iff_not_is_continuation_byte(jb, n - 1);
    }
    let inner = substr(js, 1, n - 1);
    decode_owned(inner, true)
}

/// Inline HTML as micromark's HTML compiler emits it.
///
/// The pieces joined with `\n`, continuation lines minus up to 3 columns of leading whitespace.
/// For the mdast `value` (what a formatter prints) use [`Segment::join`]: it keeps that whitespace.
pub fn html_inline(source: &str, pieces: &[Segment]) -> (r: String)
    requires
        pieces_on_boundaries(source.spec_bytes(), pieces@),
    ensures
        encode_utf8(r@) == spec_join_stripped(source.spec_bytes(), pieces@, 3),
{
    join_stripped(source, pieces, 3)
}

/// The cooked value of a link, image or definition destination (mdast's `url`):
/// angle brackets stripped, escapes and entities decoded.
pub fn destination<'s>(source: &'s str, dest: &Destination) -> (r: Cow<'s, str>)
    requires
        dest.span.start <= dest.span.end <= source.spec_bytes().len(),
        is_char_boundary(source.spec_bytes(), dest.span.start as int),
        is_char_boundary(source.spec_bytes(), dest.span.end as int),
        dest.angle_bracketed ==> dest.span.end - dest.span.start >= 2
            && source.spec_bytes()[dest.span.start as int] < 128
            && source.spec_bytes()[dest.span.end - 1] < 128,
    ensures
        ({
            let raw = span_bytes(source.spec_bytes(), dest.span);
            encode_utf8(r@) == spec_decode(
                if dest.angle_bracketed { raw.subrange(1, raw.len() - 1) } else { raw },
                true,
            )
        }),
{
    let raw = dest.span.slice(source);
    if dest.angle_bracketed {
        let ghost rb = raw.spec_bytes();
        let n = raw.as_bytes().len();
        proof {
            assert(rb.skip(0) =~= rb);
            assert(rb[0] == source.spec_bytes()[dest.span.start as int]);
            assert(rb[n - 1] == source.spec_bytes()[dest.span.end - 1]);
            lemma_valid_skip_ascii(rb, 0);
            lemma_boundary_of_valid_rest(rb, 1);
            is_char_boundary_iff_not_is_continuation_byte(rb, n - 1);
        }
        let inner = substr(raw, 1, n - 1);
        decode(inner, true)
    } else {
        decode(raw, true)
    }
}

} // verus!
