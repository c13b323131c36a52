//! The reference maps handed from the block phase to the inline phase:
//! link-definition labels and footnote-definition labels, keyed by [`crate::syntax::label::normalize`].
//!
//! Only existence matters here: the parser decides link-vs-literal,
//! while destinations/titles stay on the `Definition` nodes
//! (consumers resolve from the AST with the same normalization).
//!
//! Sorted vecs, not hash sets: keeps the crate dependency-free,
//! and definitions are few enough that binary search wins anyway.
//! [`RefMap::finish`] sorts once, between the block and inline phases.
use vstd::prelude::*;
use vstd::string::StringSliceAdditionalSpecFns;
use vstd::utf8::*;

verus! {

broadcast use encode_utf8_decode_utf8;

/// The bytes a label is ordered by.
pub open spec fn key(s: Seq<char>) -> Seq<u8> {
    encode_utf8(s)
}

/// Byte-wise lexicographic order (the order of `str`).
pub open spec fn lex_lt(a: Seq<u8>, b: Seq<u8>) -> bool
    decreases a.len(),
{
    if a.len() == 0 {
        b.len() > 0
    } else if b.len() == 0 {
        false
    } else if a[0] != b[0] {
        a[0] < b[0]
    } else {
        lex_lt(a.drop_first(), b.drop_first())
    }
}

/// Labels in strictly increasing order: sorted, no label twice.
pub open spec fn strictly_sorted(v: Seq<String>) -> bool {
    forall|i: int, j: int| 0 <= i < j < v.len() ==> lex_lt(key(#[trigger] v[i]@), key(#[trigger] v[j]@))
}

/// The labels a list holds.
pub open spec fn label_set(v: Seq<String>) -> Set<Seq<char>> {
    Set::new(|s: Seq<char>| exists|i: int| 0 <= i < v.len() && #[trigger] v[i]@ == s)
}

pub proof fn lemma_lex_irreflexive(a: Seq<u8>)
    ensures
        !lex_lt(a, a),
    decreases a.len(),
{
    if a.len() > 0 {
        lemma_lex_irreflexive(a.drop_first());
    }
}

pub proof fn lemma_lex_transitive(a: Seq<u8>, b: Seq<u8>, c: Seq<u8>)
    requires
        lex_lt(a, b),
        lex_lt(b, c),
    ensures
        lex_lt(a, c),
    decreases a.len(),
{
    if a.len() > 0 && b.len() > 0 && c.len() > 0 && a[0] == b[0] && b[0] == c[0] {
        lemma_lex_transitive(a.drop_first(), b.drop_first(), c.drop_first());
    }
}

pub proof fn lemma_lex_total(a: Seq<u8>, b: Seq<u8>)
    ensures
        a == b || lex_lt(a, b) || lex_lt(b, a),
        !(lex_lt(a, b) && lex_lt(b, a)),
    decreases a.len(),
{
    if a.len() > 0 && b.len() > 0 && a[0] == b[0] {
        lemma_lex_total(a.drop_first(), b.drop_first());
        if a.drop_first() == b.drop_first() {
            assert(a =~= seq![a[0]] + a.drop_first());
            assert(b =~= seq![b[0]] + b.drop_first());
        }
    } else if a.len() == 0 && b.len() == 0 {
        assert(a =~= b);
    }
}

/// Byte-wise comparison of two strings: `(a < b, a == b)`.
fn compare(a: &str, b: &str) -> (r: (bool, bool))
    ensures
        r.0 == lex_lt(key(a@), key(b@)),
        r.1 == (a@ == b@),
{
    let x = a.as_bytes();
    let y = b.as_bytes();
    let mut i: usize = 0;
    proof {
        assert(x@.skip(0) =~= x@);
        assert(y@.skip(0) =~= y@);
    }
    while i < x.len() && i < y.len() && x[i] == y[i]
        invariant
            i <= x@.len(),
            i <= y@.len(),
            x@ == key(a@),
            y@ == key(b@),
            x@.subrange(0, i as int) == y@.subrange(0, i as int),
            lex_lt(x@.skip(i as int), y@.skip(i as int)) == lex_lt(x@, y@),
        decreases x.len() - i,
    {
        proof {
            assert(x@.skip(i as int).drop_first() =~= x@.skip(i + 1));
            assert(y@.skip(i as int).drop_first() =~= y@.skip(i + 1));
            assert(x@.subrange(0, i + 1) =~= x@.subrange(0, i as int).push(x@[i as int]));
            assert(y@.subrange(0, i + 1) =~= y@.subrange(0, i as int).push(y@[i as int]));
        }
        i = i + 1;
    }
    let lt = if i < x.len() && i < y.len() {
        x[i] < y[i]
    } else {
        i == x.len() && i < y.len()
    };
    let eq = i == x.len() && i == y.len();
    proof {
        if eq {
            assert(x@ =~= x@.subrange(0, i as int));
            assert(y@ =~= y@.subrange(0, i as int));
            assert(decode_utf8(key(a@)) == a@);
            assert(decode_utf8(key(b@)) == b@);
        } else if i < x.len() && i < y.len() {
            assert(x@[i as int] != y@[i as int]);
            assert(x@ != y@);
        } else {
            assert(x@.len() != y@.len());
        }
    }
    (lt, eq)
}

/// Whether `label` is among strictly sorted `labels` (binary search).
fn contains_sorted(labels: &Vec<String>, label: &str) -> (r: bool)
    requires
        strictly_sorted(labels@),
    ensures
        r == label_set(labels@).contains(label@),
{
    let mut lo: usize = 0;
    let mut hi: usize = labels.len();
    while lo < hi
        invariant
            lo <= hi <= labels@.len(),
            strictly_sorted(labels@),
            forall|k: int| 0 <= k < lo ==> lex_lt(key(#[trigger] labels@[k]@), key(label@)),
            forall|k: int| hi <= k < labels@.len() ==> lex_lt(key(label@), key(#[trigger] labels@[k]@)),
        decreases hi - lo,
    {
        let mid = lo + (hi - lo) / 2;
        let (less, equal) = compare(labels[mid].as_str(), label);
        if equal {
            assert(label_set(labels@).contains(label@)) by {
                assert(labels@[mid as int]@ == label@);
            }
            return true;
        }
        if less {
            proof {
                assert forall|k: int| 0 <= k <= mid implies lex_lt(key(#[trigger] labels@[k]@), key(label@)) by {
                    if k < mid {
                        lemma_lex_transitive(key(labels@[k]@), key(labels@[mid as int]@), key(label@));
                    }
                }
            }
            lo = mid + 1;
        } else {
            proof {
                lemma_lex_total(key(labels@[mid as int]@), key(label@));
                assert(key(labels@[mid as int]@) != key(label@)) by {
                    if key(labels@[mid as int]@) == key(label@) {
                        assert(decode_utf8(key(labels@[mid as int]@)) == labels@[mid as int]@);
                        assert(decode_utf8(key(label@)) == label@);
                    }
                }
                assert forall|k: int| mid <= k < labels@.len() implies lex_lt(key(label@), key(#[trigger] labels@[k]@)) by {
                    if k > mid {
                        lemma_lex_transitive(key(label@), key(labels@[mid as int]@), key(labels@[k]@));
                    }
                }
            }
            hi = mid;
        }
    }
    proof {
        if label_set(labels@).contains(label@) {
            let k = choose|k: int| 0 <= k < labels@.len() && #[trigger] labels@[k]@ == label@;
            lemma_lex_irreflexive(key(label@));
        }
    }
    false
}

/// Sorts and deduplicates: the result is strictly sorted and holds the same labels.
fn sort_dedup(v: &mut Vec<String>)
    ensures
        strictly_sorted(final(v)@),
        label_set(final(v)@) == label_set(old(v)@),
{
    let ghost original = v@;
    let mut out: Vec<String> = Vec::new();
    while v.len() > 0
        invariant
            strictly_sorted(out@),
            original == old(v)@,
            v@.len() <= original.len(),
            v@ == original.subrange(0, v@.len() as int),
            label_set(out@) == label_set(original.subrange(v@.len() as int, original.len() as int)),
        decreases v@.len(),
    {
        let s = v.pop().unwrap();
        let ghost n: int = v@.len() as int;
        // where `s` goes: past every smaller label
        let mut lo: usize = 0;
        let mut hi: usize = out.len();
        let mut found = false;
        while lo < hi
            invariant
                lo <= hi <= out@.len(),
                strictly_sorted(out@),
                found ==> lo == hi && lo < out@.len() && out@[lo as int]@ == s@,
                !found ==> forall|k: int| 0 <= k < lo ==> lex_lt(key(#[trigger] out@[k]@), key(s@)),
                !found ==> forall|k: int| hi <= k < out@.len() ==> lex_lt(key(s@), key(#[trigger] out@[k]@)),
            decreases hi - lo,
        {
            let mid = lo + (hi - lo) / 2;
            let (less, equal) = compare(out[mid].as_str(), s.as_str());
            if equal {
                found = true;
                lo = mid;
                hi = mid;
            } else if less {
                proof {
                    assert forall|k: int| 0 <= k <= mid implies lex_lt(key(#[trigger] out@[k]@), key(s@)) by {
                        if k < mid {
                            lemma_lex_transitive(key(out@[k]@), key(out@[mid as int]@), key(s@));
                        }
                    }
                }
                lo = mid + 1;
            } else {
                proof {
                    lemma_lex_total(key(out@[mid as int]@), key(s@));
                    assert(key(out@[mid as int]@) != key(s@)) by {
                        if key(out@[mid as int]@) == key(s@) {
                            assert(decode_utf8(key(out@[mid as int]@)) == out@[mid as int]@);
                            assert(decode_utf8(key(s@)) == s@);
                        }
                    }
                    assert forall|k: int| mid <= k < out@.len() implies lex_lt(key(s@), key(#[trigger] out@[k]@)) by {
                        if k > mid {
                            lemma_lex_transitive(key(s@), key(out@[mid as int]@), key(out@[k]@));
                        }
                    }
                }
                hi = mid;
            }
        }
        let ghost before = out@;
        let ghost rest_old = original.subrange(n + 1, original.len() as int);
        let ghost rest_new = original.subrange(n, original.len() as int);
        proof {
            assert(rest_new =~= seq![s].add(rest_old)) by {
                assert(original[n] == s);
            }
            assert(label_set(rest_new) =~= label_set(rest_old).insert(s@)) by {
                assert forall|x: Seq<char>| label_set(rest_new).contains(x) implies label_set(rest_old).insert(s@).contains(x) by {
                    let k = choose|k: int| 0 <= k < rest_new.len() && #[trigger] rest_new[k]@ == x;
                    if k > 0 {
                        assert(rest_old[k - 1]@ == x);
                    }
                }
                assert forall|x: Seq<char>| label_set(rest_old).insert(s@).contains(x) implies label_set(rest_new).contains(x) by {
                    if x == s@ {
                        assert(rest_new[0]@ == x);
                    } else {
                        let k = choose|k: int| 0 <= k < rest_old.len() && #[trigger] rest_old[k]@ == x;
                        assert(rest_new[k + 1]@ == x);
                    }
                }
            }
        }
        if found {
            proof {
                assert(label_set(before) =~= label_set(before).insert(s@)) by {
                    assert(before[lo as int]@ == s@);
                }
            }
        } else {
            out.insert(lo, s);
            proof {
                let after = out@;
                assert(after =~= before.subrange(0, lo as int).push(s).add(before.subrange(lo as int, before.len() as int)));
                assert forall|i: int, j: int| 0 <= i < j < after.len() implies lex_lt(key(#[trigger] after[i]@), key(#[trigger] after[j]@)) by {
                    if j < lo {
                    } else if j == lo {
                        assert(after[j] == s);
                    } else if i < lo {
                        assert(after[j] == before[j - 1]);
                        lemma_lex_transitive(key(before[i]@), key(s@), key(before[j - 1]@));
                    } else if i == lo {
                        assert(after[j] == before[j - 1]);
                    } else {
                        assert(after[i] == before[i - 1]);
                        assert(after[j] == before[j - 1]);
                    }
                }
                assert(label_set(after) =~= label_set(before).insert(s@)) by {
                    assert forall|x: Seq<char>| label_set(after).contains(x) implies label_set(before).insert(s@).contains(x) by {
                        let k = choose|k: int| 0 <= k < after.len() && #[trigger] after[k]@ == x;
                        if k < lo {
                            assert(before[k]@ == x);
                        } else if k > lo {
                            assert(before[k - 1]@ == x);
                        }
                    }
                    assert forall|x: Seq<char>| label_set(before).insert(s@).contains(x) implies label_set(after).contains(x) by {
                        if x == s@ {
                            assert(after[lo as int]@ == x);
                        } else {
                            let k = choose|k: int| 0 <= k < before.len() && #[trigger] before[k]@ == x;
                            if k < lo {
                                assert(after[k]@ == x);
                            } else {
                                assert(after[k + 1]@ == x);
                            }
                        }
                    }
                }
            }
        }
    }
    proof {
        assert(v@.len() == 0);
        assert(original.subrange(0, original.len() as int) =~= original);
    }
    *v = out;
}

/// A history step that pushes the link label `l`.
pub open spec fn pushes(step: Option<String>, l: Seq<char>) -> bool {
    step matches Some(x) && x@ == l
}

/// Over a history of maps, each step a `push` of a link label (`Some`) or something that leaves
/// the link labels alone (`None`: a `push_footnote`, a `finish`), starting empty: the last map's
/// link labels are exactly those pushed. With `finish` and `contains` this is the lookup law:
/// `contains` finds a label if and only if `push` was given it.
pub proof fn lemma_lookup_history(maps: Seq<RefMap>, steps: Seq<Option<String>>, l: Seq<char>)
    requires
        maps.len() == steps.len() + 1,
        maps[0].labels_view() == Set::<Seq<char>>::empty(),
        forall|k: int|
            0 <= k < steps.len() ==> #[trigger] maps[k + 1].labels_view() == match steps[k] {
                Some(x) => maps[k].labels_view().insert(x@),
                None => maps[k].labels_view(),
            },
    ensures
        maps.last().labels_view().contains(l) <==> exists|k: int|
            0 <= k < steps.len() && #[trigger] pushes(steps[k], l),
    decreases steps.len(),
{
    if steps.len() > 0 {
        let n = steps.len() - 1;
        lemma_lookup_history(maps.drop_last(), steps.drop_last(), l);
        assert(maps.drop_last().last() == maps[n]);
        assert(maps[n + 1].labels_view() == match steps[n] {
            Some(x) => maps[n].labels_view().insert(x@),
            None => maps[n].labels_view(),
        });
        if maps.last().labels_view().contains(l) {
            if !maps[n].labels_view().contains(l) {
                assert(pushes(steps[n], l));
            } else {
                let k = choose|k: int| 0 <= k < n && #[trigger] pushes(steps.drop_last()[k], l);
                assert(steps[k] == steps.drop_last()[k]);
            }
        }
        if exists|k: int| 0 <= k < steps.len() && #[trigger] pushes(steps[k], l) {
            let k = choose|k: int| 0 <= k < steps.len() && #[trigger] pushes(steps[k], l);
            if k < n {
                assert(steps.drop_last()[k] == steps[k]);
            }
        }
    }
}

/// Labels of link definitions and of footnote definitions, each kept apart.
pub struct RefMap {
    pub labels: Vec<String>,
    pub footnotes: Vec<String>,
}

impl RefMap {
    /// The link-definition labels.
    pub open spec fn labels_view(&self) -> Set<Seq<char>> {
        label_set(self.labels@)
    }

    /// The footnote-definition labels.
    pub open spec fn footnotes_view(&self) -> Set<Seq<char>> {
        label_set(self.footnotes@)
    }

    /// Both lists are sorted and deduplicated, ready for lookups.
    pub open spec fn finished(&self) -> bool {
        strictly_sorted(self.labels@) && strictly_sorted(self.footnotes@)
    }

    pub fn push(&mut self, label: String)
        ensures
            final(self).labels_view() == old(self).labels_view().insert(label@),
            final(self).footnotes@ == old(self).footnotes@,
            final(self).labels@ == old(self).labels@.push(label),
    {
        let ghost before = self.labels@;
        self.labels.push(label);
        proof {
            let after = self.labels@;
            assert(label_set(after) =~= label_set(before).insert(label@)) by {
                assert forall|x: Seq<char>| label_set(after).contains(x) implies label_set(before).insert(label@).contains(x) by {
                    let k = choose|k: int| 0 <= k < after.len() && #[trigger] after[k]@ == x;
                    if k < before.len() {
                        assert(before[k]@ == x);
                    }
                }
                assert forall|x: Seq<char>| label_set(before).insert(label@).contains(x) implies label_set(after).contains(x) by {
                    if x == label@ {
                        assert(after[before.len() as int]@ == x);
                    } else {
                        let k = choose|k: int| 0 <= k < before.len() && #[trigger] before[k]@ == x;
                        assert(after[k]@ == x);
                    }
                }
            }
        }
    }

    /// Sorts and deduplicates both lists; what they hold is unchanged.
    pub fn finish(&mut self)
        ensures
            final(self).finished(),
            final(self).labels_view() == old(self).labels_view(),
            final(self).footnotes_view() == old(self).footnotes_view(),
    {
        sort_dedup(&mut self.labels);
        sort_dedup(&mut self.footnotes);
    }

    pub fn contains(&self, label: &str) -> (r: bool)
        requires
            self.finished(),
        ensures
            r == self.labels_view().contains(label@),
    {
        contains_sorted(&self.labels, label)
    }

    pub fn is_empty(&self) -> (r: bool)
        ensures
            r == (self.labels@.len() == 0),
            r == (self.labels_view() == Set::<Seq<char>>::empty()),
    {
        proof {
            if self.labels@.len() > 0 {
                assert(self.labels_view().contains(self.labels@[0]@));
            } else {
                assert(self.labels_view() =~= Set::<Seq<char>>::empty());
            }
        }
        self.labels.len() == 0
    }

    pub fn push_footnote(&mut self, label: String)
        ensures
            final(self).footnotes_view() == old(self).footnotes_view().insert(label@),
            final(self).labels@ == old(self).labels@,
            final(self).footnotes@ == old(self).footnotes@.push(label),
    {
        let ghost before = self.footnotes@;
        self.footnotes.push(label);
        proof {
            let after = self.footnotes@;
            assert(label_set(after) =~= label_set(before).insert(label@)) by {
                assert forall|x: Seq<char>| label_set(after).contains(x) implies label_set(before).insert(label@).contains(x) by {
                    let k = choose|k: int| 0 <= k < after.len() && #[trigger] after[k]@ == x;
                    if k < before.len() {
                        assert(before[k]@ == x);
                    }
                }
                assert forall|x: Seq<char>| label_set(before).insert(label@).contains(x) implies label_set(after).contains(x) by {
                    if x == label@ {
                        assert(after[before.len() as int]@ == x);
                    } else {
                        let k = choose|k: int| 0 <= k < before.len() && #[trigger] before[k]@ == x;
                        assert(after[k]@ == x);
                    }
                }
            }
        }
    }

    pub fn contains_footnote(&self, label: &str) -> (r: bool)
        requires
            self.finished(),
        ensures
            r == self.footnotes_view().contains(label@),
    {
        contains_sorted(&self.footnotes, label)
    }

    pub fn footnotes_is_empty(&self) -> (r: bool)
        ensures
            r == (self.footnotes@.len() == 0),
            r == (self.footnotes_view() == Set::<Seq<char>>::empty()),
    {
        proof {
            if self.footnotes@.len() > 0 {
                assert(self.footnotes_view().contains(self.footnotes@[0]@));
            } else {
                assert(self.footnotes_view() =~= Set::<Seq<char>>::empty());
            }
        }
        self.footnotes.len() == 0
    }
}

impl Default for RefMap {
    fn default() -> (m: Self)
        ensures
            m.labels@.len() == 0,
            m.footnotes@.len() == 0,
            m.finished(),
    {
        RefMap { labels: Vec::new(), footnotes: Vec::new() }
    }
}

} // verus!
