//! HTML tag grammar past the tag name (CommonMark 6.4 / 4.6),
//! shared by inline raw HTML and single-line HTML block starts.
use vstd::prelude::*;
use super::{alnum, alpha, is_alnum, is_alpha, lemma_run_end, lemma_skip_ws_bounds, run_end, skip_ws, spec_skip_ws};

verus! {

/// The line-ending allowance for intra-tag whitespace.
pub open spec fn nl_max(newlines: bool) -> int {
    if newlines { usize::MAX as int } else { 0 }
}

/// A byte that may start an attribute name.
pub open spec fn is_attr_start(b: u8) -> bool {
    is_alpha(b) || b == 95 || b == 58
}

/// A byte that may continue an attribute name.
pub open spec fn is_attr_name(b: u8) -> bool {
    is_alnum(b) || b == 95 || b == 58 || b == 46 || b == 45
}

/// A byte of an unquoted attribute value: none of space, tab, line ending, `"`, `'`, `=`, `<`, `>`, `` ` ``.
pub open spec fn is_unquoted(b: u8) -> bool {
    !(b == 32 || b == 9 || b == 10 || b == 34 || b == 39 || b == 61 || b == 60 || b == 62 || b == 96)
}

pub open spec fn attr_name_pred() -> spec_fn(u8) -> bool {
    |b: u8| is_attr_name(b)
}

pub open spec fn unquoted_pred() -> spec_fn(u8) -> bool {
    |b: u8| is_unquoted(b)
}

/// Position of the first `q` at or after `i`.
pub open spec fn find_byte(bytes: Seq<u8>, i: int, q: u8) -> Option<int>
    decreases bytes.len() - i,
{
    if i < 0 || i >= bytes.len() {
        None
    } else if bytes[i] == q {
        Some(i)
    } else {
        find_byte(bytes, i + 1, q)
    }
}

pub proof fn lemma_find_byte(bytes: Seq<u8>, i: int, q: u8)
    requires
        0 <= i,
    ensures
        find_byte(bytes, i, q) matches Some(k) ==> i <= k < bytes.len() && bytes[k] == q
            && forall|j: int| i <= j < k ==> bytes[j] != q,
        find_byte(bytes, i, q) is None ==> forall|j: int| i <= j < bytes.len() ==> bytes[j] != q,
    decreases bytes.len() - i,
{
    if i < bytes.len() && bytes[i] != q {
        lemma_find_byte(bytes, i + 1, q);
    }
}

/// One tag attribute at `i`: a name, optionally `= value`.
/// The position past it (past the name for a valueless attribute).
pub open spec fn spec_attribute(bytes: Seq<u8>, i: int, newlines: bool) -> Option<int> {
    if i < 0 || i >= bytes.len() || !is_attr_start(bytes[i]) {
        None
    } else {
        let after_name = run_end(bytes, i + 1, attr_name_pred());
        let k = spec_skip_ws(bytes, after_name, nl_max(newlines));
        if k >= bytes.len() || bytes[k] != 61 {
            Some(after_name)
        } else {
            let v = spec_skip_ws(bytes, k + 1, nl_max(newlines));
            if v >= bytes.len() {
                None
            } else if bytes[v] == 34 || bytes[v] == 39 {
                match find_byte(bytes, v + 1, bytes[v]) {
                    Some(close) => Some(close + 1),
                    None => None,
                }
            } else {
                let e = run_end(bytes, v, unquoted_pred());
                if e > v {
                    Some(e)
                } else {
                    None
                }
            }
        }
    }
}

pub proof fn lemma_attribute_progress(bytes: Seq<u8>, i: int, newlines: bool)
    requires
        0 <= i,
    ensures
        spec_attribute(bytes, i, newlines) matches Some(j) ==> i < j <= bytes.len(),
{
    if 0 <= i < bytes.len() && is_attr_start(bytes[i]) {
        let after_name = run_end(bytes, i + 1, attr_name_pred());
        lemma_run_end(bytes, i + 1, attr_name_pred());
        lemma_skip_ws_bounds(bytes, after_name, nl_max(newlines));
        let k = spec_skip_ws(bytes, after_name, nl_max(newlines));
        if k < bytes.len() && bytes[k] == 61 {
            lemma_skip_ws_bounds(bytes, k + 1, nl_max(newlines));
            let v = spec_skip_ws(bytes, k + 1, nl_max(newlines));
            if v < bytes.len() {
                lemma_find_byte(bytes, v + 1, bytes[v]);
                lemma_run_end(bytes, v, unquoted_pred());
            }
        }
    }
}

/// The rest of an open tag from `i`: whitespace-separated attributes, then `>` or `/>`.
pub open spec fn spec_open_tag_end(bytes: Seq<u8>, i: int, newlines: bool) -> Option<int>
    decreases bytes.len() - i,
{
    if i < 0 || i > bytes.len() {
        None
    } else {
        let k = spec_skip_ws(bytes, i, nl_max(newlines));
        if k >= bytes.len() {
            None
        } else if bytes[k] == 62 {
            Some(k + 1)
        } else if bytes[k] == 47 {
            if k + 1 < bytes.len() && bytes[k + 1] == 62 {
                Some(k + 2)
            } else {
                None
            }
        } else if k == i {
            None
        } else {
            match spec_attribute(bytes, k, newlines) {
                None => None,
                Some(j) => if i < j <= bytes.len() {
                    spec_open_tag_end(bytes, j, newlines)
                } else {
                    None
                },
            }
        }
    }
}

/// The end of a tag from `i` (just past its name), through its `>`:
/// only whitespace for a closing tag, attributes and an optional `/` for an open tag.
pub open spec fn spec_tag_end(bytes: Seq<u8>, i: int, closing: bool, newlines: bool) -> Option<int> {
    if closing {
        let k = spec_skip_ws(bytes, i, nl_max(newlines));
        if 0 <= i <= bytes.len() && k < bytes.len() && bytes[k] == 62 {
            Some(k + 1)
        } else {
            None
        }
    } else {
        spec_open_tag_end(bytes, i, newlines)
    }
}

fn attr_name(b: u8) -> (r: bool)
    ensures
        r == is_attr_name(b),
{
    alnum(b) || b == 95 || b == 58 || b == 46 || b == 45
}

fn unquoted(b: u8) -> (r: bool)
    ensures
        r == is_unquoted(b),
{
    !(b == 32 || b == 9 || b == 10 || b == 34 || b == 39 || b == 61 || b == 60 || b == 62 || b == 96)
}

/// One tag attribute: name, optionally `= value`.
fn attribute(bytes: &[u8], i: usize, newlines: bool) -> (r: Option<usize>)
    requires
        i <= bytes.len(),
    ensures
        r matches Some(j) ==> spec_attribute(bytes@, i as int, newlines) == Some(j as int),
        r is None ==> spec_attribute(bytes@, i as int, newlines) is None,
{
    let max_newlines = if newlines { usize::MAX } else { 0 };
    if i >= bytes.len() {
        return None;
    }
    let first = bytes[i];
    if !alpha(first) && first != 95 && first != 58 {
        return None;
    }
    let mut j = i + 1;
    while j < bytes.len() && attr_name(bytes[j])
        invariant
            i < j <= bytes.len(),
            run_end(bytes@, j as int, attr_name_pred()) == run_end(
                bytes@,
                i + 1,
                attr_name_pred(),
            ),
        decreases bytes.len() - j,
    {
        j = j + 1;
    }
    let after_name = j;
    let k = skip_ws(bytes, after_name, max_newlines);
    if k >= bytes.len() || bytes[k] != 61 {
        return Some(after_name);
    }
    let v = skip_ws(bytes, k + 1, max_newlines);
    if v >= bytes.len() {
        return None;
    }
    let quote = bytes[v];
    if quote == 34 || quote == 39 {
        let mut c = v + 1;
        while c < bytes.len()
            invariant
                v < c <= bytes.len(),
                quote == bytes@[v as int],
                quote == 34 || quote == 39,
                v as int == spec_skip_ws(bytes@, k + 1, nl_max(newlines)),
                k as int == spec_skip_ws(bytes@, after_name as int, nl_max(newlines)),
                k < bytes.len() && bytes@[k as int] == 61,
                after_name as int == run_end(bytes@, i + 1, attr_name_pred()),
                i < bytes.len() && is_attr_start(bytes@[i as int]),
                find_byte(bytes@, c as int, quote) == find_byte(bytes@, v + 1, quote),
            decreases bytes.len() - c,
        {
            if bytes[c] == quote {
                return Some(c + 1);
            }
            c = c + 1;
        }
        None
    } else {
        let mut e = v;
        while e < bytes.len() && unquoted(bytes[e])
            invariant
                v <= e <= bytes.len(),
                run_end(bytes@, e as int, unquoted_pred()) == run_end(
                    bytes@,
                    v as int,
                    unquoted_pred(),
                ),
            decreases bytes.len() - e,
        {
            e = e + 1;
        }
        if e > v {
            Some(e)
        } else {
            None
        }
    }
}

/// Scans the remainder of a tag at `i` (just past the name) through its `>`:
/// whitespace only for a closing tag, whitespace-separated attributes and an optional `/` for an open tag.
/// Returns the position past the `>`.
/// `newlines` says whether intra-tag whitespace may include line endings.
pub fn tag_end(bytes: &[u8], i: usize, closing: bool, newlines: bool) -> (r: Option<usize>)
    requires
        i <= bytes.len(),
    ensures
        r matches Some(j) ==> spec_tag_end(bytes@, i as int, closing, newlines) == Some(j as int),
        r is None ==> spec_tag_end(bytes@, i as int, closing, newlines) is None,
        r matches Some(j) ==> i < j <= bytes.len(),
{
    let max_newlines = if newlines { usize::MAX } else { 0 };
    if closing {
        let k = skip_ws(bytes, i, max_newlines);
        if k < bytes.len() && bytes[k] == 62 {
            return Some(k + 1);
        }
        return None;
    }
    let mut p = i;
    loop
        invariant
            i <= p <= bytes.len(),
            max_newlines as int == nl_max(newlines),
            !closing,
            spec_open_tag_end(bytes@, p as int, newlines) == spec_open_tag_end(
                bytes@,
                i as int,
                newlines,
            ),
        decreases bytes.len() - p,
    {
        let before_ws = p;
        let k = skip_ws(bytes, p, max_newlines);
        if k >= bytes.len() {
            return None;
        }
        if bytes[k] == 62 {
            return Some(k + 1);
        }
        if bytes[k] == 47 {
            if k + 1 < bytes.len() && bytes[k + 1] == 62 {
                return Some(k + 2);
            }
            return None;
        }
        if k == before_ws {
            return None;
        }
        match attribute(bytes, k, newlines) {
            None => return None,
            Some(j) => {
                proof {
                    lemma_attribute_progress(bytes@, k as int, newlines);
                }
                p = j;
            },
        }
    }
}

} // verus!
