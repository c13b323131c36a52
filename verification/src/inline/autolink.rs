//! Autolink scanning: `<scheme:uri>` and `<email@example.com>`.
use vstd::prelude::*;
use crate::syntax::{alnum, alpha, is_alnum, is_alpha, lemma_run_end, run_end};

verus! {

/// A byte that may continue a URI scheme: a letter, a digit, `+`, `.` or `-`.
pub open spec fn is_scheme_byte(c: u8) -> bool {
    is_alnum(c) || c == 43 || c == 46 || c == 45
}

pub open spec fn scheme_pred() -> spec_fn(u8) -> bool {
    |c: u8| is_scheme_byte(c)
}

/// A byte that may stand inside a URI autolink: none of `<`, `>`, space, controls, DEL.
pub open spec fn is_uri_byte(c: u8) -> bool {
    c != 60 && c != 62 && c != 32 && c >= 32 && c != 127
}

pub open spec fn uri_pred() -> spec_fn(u8) -> bool {
    |c: u8| is_uri_byte(c)
}

/// A byte of the local part of an email address:
/// a letter, a digit, or one of ``.!#$%&'*+/=?^_`{|}~-``.
pub open spec fn is_local_byte(c: u8) -> bool {
    is_alnum(c) || c == 46 || c == 33 || c == 35 || c == 36 || c == 37 || c == 38 || c == 39
        || c == 42 || c == 43 || c == 47 || c == 61 || c == 63 || c == 94 || c == 95
        || c == 96 || c == 123 || c == 124 || c == 125 || c == 126 || c == 45
}

pub open spec fn local_pred() -> spec_fn(u8) -> bool {
    |c: u8| is_local_byte(c)
}

/// A byte of a domain label: a letter, a digit or `-`.
pub open spec fn is_label_byte(c: u8) -> bool {
    is_alnum(c) || c == 45
}

pub open spec fn label_pred() -> spec_fn(u8) -> bool {
    |c: u8| is_label_byte(c)
}

/// `scheme:` then bytes other than whitespace, controls, `<` and `>`, closed by `>`;
/// the scheme is a letter then 1 to 31 letters, digits, `+`, `.` or `-`.
/// The position past the `>`.
pub open spec fn spec_scan_uri(b: Seq<u8>, start: int) -> Option<int> {
    if start < 0 || start >= b.len() || !is_alpha(b[start]) {
        None
    } else {
        let i = run_end(b, start + 1, scheme_pred());
        let scheme_len = i - start;
        if scheme_len < 2 || scheme_len > 32 || i >= b.len() || b[i] != 58 {
            None
        } else {
            let e = run_end(b, i + 1, uri_pred());
            if e < b.len() && b[e] == 62 {
                Some(e + 1)
            } else {
                None
            }
        }
    }
}

/// Dot-separated domain labels from `s` (each 1 to 63 letters, digits or hyphens,
/// neither starting nor ending with a hyphen), closed by `>`. The position past the `>`.
pub open spec fn spec_domain(b: Seq<u8>, s: int) -> Option<int>
    decreases b.len() - s,
{
    if s < 0 || s > b.len() {
        None
    } else {
        let e = run_end(b, s, label_pred());
        let len = e - s;
        if len == 0 || len > 63 || b[s] == 45 || b[e - 1] == 45 || e >= b.len() {
            None
        } else if b[e] == 62 {
            Some(e + 1)
        } else if b[e] == 46 {
            if s < e + 1 {
                spec_domain(b, e + 1)
            } else {
                None
            }
        } else {
            None
        }
    }
}

/// The email production: a non-empty local part, `@`, then the domain closed by `>`.
pub open spec fn spec_scan_email(b: Seq<u8>, start: int) -> Option<int> {
    if start < 0 || start > b.len() {
        None
    } else {
        let i = run_end(b, start, local_pred());
        if i == start || i >= b.len() || b[i] != 64 {
            None
        } else {
            spec_domain(b, i + 1)
        }
    }
}

/// An autolink at `pos` (which holds `<`): the position past its `>`, and whether it is an email.
pub open spec fn spec_scan(b: Seq<u8>, pos: int) -> Option<(int, bool)> {
    match spec_scan_uri(b, pos + 1) {
        Some(e) => Some((e, false)),
        None => match spec_scan_email(b, pos + 1) {
            Some(e) => Some((e, true)),
            None => None,
        },
    }
}

/// Scans an autolink at `pos` (which holds `<`).
/// Returns (position past `>`, is-email).
pub fn scan(t: &[u8], pos: usize) -> (r: Option<(usize, bool)>)
    requires
        pos < t.len(),
        t@[pos as int] == 60,
    ensures
        r matches Some((e, email)) ==> spec_scan(t@, pos as int) == Some((e as int, email)),
        r is None ==> spec_scan(t@, pos as int) is None,
        r matches Some((e, _)) ==> pos < e <= t.len(),
{
    let inner_start = pos + 1;
    if let Some(end) = scan_uri(t, inner_start) {
        return Some((end, false));
    }
    match scan_email(t, inner_start) {
        Some(end) => Some((end, true)),
        None => None,
    }
}

fn scheme_byte(c: u8) -> (r: bool)
    ensures
        r == is_scheme_byte(c),
{
    alnum(c) || c == 43 || c == 46 || c == 45
}

fn uri_byte(c: u8) -> (r: bool)
    ensures
        r == is_uri_byte(c),
{
    c != 60 && c != 62 && c != 32 && c >= 32 && c != 127
}

fn local_byte(c: u8) -> (r: bool)
    ensures
        r == is_local_byte(c),
{
    alnum(c) || c == 46 || c == 33 || c == 35 || c == 36 || c == 37 || c == 38 || c == 39
        || c == 42 || c == 43 || c == 47 || c == 61 || c == 63 || c == 94 || c == 95
        || c == 96 || c == 123 || c == 124 || c == 125 || c == 126 || c == 45
}

/// `scheme:` then anything but whitespace/controls/`<`/`>`, closed by `>`.
/// Scheme: a letter then 1–31 letters/digits/`+.-`.
fn scan_uri(bytes: &[u8], start: usize) -> (r: Option<usize>)
    requires
        start <= bytes.len(),
    ensures
        r matches Some(e) ==> spec_scan_uri(bytes@, start as int) == Some(e as int) && start < e <= bytes.len(),
        r is None ==> spec_scan_uri(bytes@, start as int) is None,
{
    if start >= bytes.len() || !alpha(bytes[start]) {
        return None;
    }
    let mut i = start + 1;
    while i < bytes.len() && scheme_byte(bytes[i])
        invariant
            start < i <= bytes.len(),
            run_end(bytes@, i as int, scheme_pred()) == run_end(bytes@, start + 1, scheme_pred()),
        decreases bytes.len() - i,
    {
        i = i + 1;
    }
    let scheme_len = i - start;
    if scheme_len < 2 || scheme_len > 32 || i >= bytes.len() || bytes[i] != 58 {
        return None;
    }
    let ghost colon = i;
    i = i + 1;
    while i < bytes.len() && uri_byte(bytes[i])
        invariant
            colon < i <= bytes.len(),
            run_end(bytes@, i as int, uri_pred()) == run_end(bytes@, colon + 1, uri_pred()),
        decreases bytes.len() - i,
    {
        i = i + 1;
    }
    if i < bytes.len() && bytes[i] == 62 {
        Some(i + 1)
    } else {
        None
    }
}

/// The spec's email production, closed by `>`.
#[verifier::loop_isolation(false)]
fn scan_email(bytes: &[u8], start: usize) -> (r: Option<usize>)
    requires
        start <= bytes.len(),
    ensures
        r matches Some(e) ==> spec_scan_email(bytes@, start as int) == Some(e as int) && start < e <= bytes.len(),
        r is None ==> spec_scan_email(bytes@, start as int) is None,
{
    let mut i = start;
    while i < bytes.len() && local_byte(bytes[i])
        invariant
            start <= i <= bytes.len(),
            run_end(bytes@, i as int, local_pred()) == run_end(bytes@, start as int, local_pred()),
        decreases bytes.len() - i,
    {
        i = i + 1;
    }
    if i == start || i >= bytes.len() || bytes[i] != 64 {
        return None;
    }
    i = i + 1;
    // Domain: labels of alphanumerics/hyphens (≤63, no leading/trailing hyphen),
    // dot-separated.
    loop
        invariant
            start < i <= bytes.len(),
            spec_domain(bytes@, i as int) == spec_scan_email(bytes@, start as int),
        decreases bytes.len() - i,
    {
        let label_start = i;
        let mut last_hyphen = false;
        while i < bytes.len()
            invariant
                label_start <= i <= bytes.len(),
                run_end(bytes@, i as int, label_pred()) == run_end(bytes@, label_start as int, label_pred()),
                forall|k: int| label_start <= k < i ==> is_label_byte(#[trigger] bytes@[k]),
                i > label_start ==> (last_hyphen <==> bytes@[i - 1] == 45),
            decreases bytes.len() - i,
        {
            let c = bytes[i];
            if alnum(c) {
                last_hyphen = false;
                i = i + 1;
            } else if c == 45 {
                last_hyphen = true;
                i = i + 1;
            } else {
                break;
            }
        }
        proof {
            lemma_run_end(bytes@, label_start as int, label_pred());
        }
        assert(i as int == run_end(bytes@, label_start as int, label_pred()));
        let len = i - label_start;
        if len == 0 || len > 63 || last_hyphen || bytes[label_start] == 45 {
            return None;
        }
        if i >= bytes.len() {
            return None;
        }
        if bytes[i] == 46 {
            i = i + 1;
        } else if bytes[i] == 62 {
            return Some(i + 1);
        } else {
            return None;
        }
    }
}

} // verus!
