//! UTF-8 facts the text-producing functions rely on.
use vstd::prelude::*;
use vstd::utf8::*;
use vstd::string::StringSliceAdditionalSpecFns;

verus! {

broadcast use {encode_utf8_valid_utf8, is_char_boundary_start_end_of_seq, valid_utf8_split};

/// UTF-8 encoding distributes over concatenation.
pub proof fn lemma_encode_utf8_concat(a: Seq<char>, b: Seq<char>)
    ensures
        encode_utf8(a + b) == encode_utf8(a) + encode_utf8(b),
    decreases a.len(),
{
    if a.len() == 0 {
        assert(a + b =~= b);
        assert(encode_utf8(a) =~= Seq::<u8>::empty());
    } else {
        assert((a + b).drop_first() =~= a.drop_first() + b);
        lemma_encode_utf8_concat(a.drop_first(), b);
        assert((a + b)[0] == a[0]);
    }
}

/// An ASCII char encodes as its own code.
pub proof fn lemma_encode_ascii(c: char)
    requires
        (c as u32) < 128,
    ensures
        encode_utf8(seq![c]) == seq![(c as u32) as u8],
{
    let v = c as u32;
    assert((v & 0x7F) == v) by (bit_vector)
        requires
            v < 128,
    ;
    assert(seq![c].drop_first() =~= Seq::<char>::empty());
    assert(encode_utf8(seq![c].drop_first()) =~= Seq::<u8>::empty());
    assert(encode_utf8(seq![c]) =~= encode_scalar(v));
}

/// Appending one char to a string's chars appends its encoding.
pub proof fn lemma_encode_push(a: Seq<char>, c: char)
    ensures
        encode_utf8(a.push(c)) == encode_utf8(a) + encode_utf8(seq![c]),
{
    assert(a.push(c) =~= a + seq![c]);
    lemma_encode_utf8_concat(a, seq![c]);
}

/// `String::push`: appends one char.
#[verifier::external_body]
pub(crate) fn push_char(s: &mut String, c: char)
    ensures
        final(s)@ == old(s)@.push(c),
{
    s.push(c)
}

/// Valid UTF-8 from a position on stays valid past the next character.
pub proof fn lemma_valid_skip_char(b: Seq<u8>, i: int)
    requires
        0 <= i < b.len(),
        valid_utf8(b.skip(i)),
    ensures
        valid_first_scalar(b.skip(i)),
        i + length_of_first_scalar(b.skip(i)) <= b.len(),
        valid_utf8(b.skip(i + length_of_first_scalar(b.skip(i)))),
        1 <= length_of_first_scalar(b.skip(i)) <= 4,
{
    let s = b.skip(i);
    let n = length_of_first_scalar(s);
    assert(pop_first_scalar(s) =~= b.skip(i + n));
}

/// Valid UTF-8 from a position on stays valid past an ASCII byte there.
pub proof fn lemma_valid_skip_ascii(b: Seq<u8>, i: int)
    requires
        0 <= i < b.len(),
        valid_utf8(b.skip(i)),
        b[i] < 128,
    ensures
        valid_utf8(b.skip(i + 1)),
{
    lemma_valid_skip_char(b, i);
    assert(b.skip(i)[0] == b[i]);
}

/// Valid UTF-8 from a position on stays valid past a run of ASCII bytes.
pub proof fn lemma_valid_skip_ascii_run(b: Seq<u8>, i: int, j: int)
    requires
        0 <= i <= j <= b.len(),
        valid_utf8(b.skip(i)),
        forall|k: int| i <= k < j ==> b[k] < 128,
    ensures
        valid_utf8(b.skip(j)),
    decreases j - i,
{
    if i < j {
        lemma_valid_skip_ascii(b, i);
        lemma_valid_skip_ascii_run(b, i + 1, j);
    }
}

/// Where the rest of a text is valid UTF-8, a character starts.
pub proof fn lemma_valid_char_at(b: Seq<u8>, i: int)
    requires
        0 <= i < b.len(),
        valid_utf8(b.skip(i)),
    ensures
        encode_utf8(seq![decode_first_scalar(b.skip(i)) as char]) == b.subrange(i, i + length_of_first_scalar(b.skip(i))),
{
    let s = b.skip(i);
    lemma_valid_skip_char(b, i);
    decode_utf8_first_scalar(s);
    let c = decode_first_scalar(s) as char;
    assert(seq![c].drop_first() =~= Seq::<char>::empty());
    assert(encode_utf8(seq![c].drop_first()) =~= Seq::<u8>::empty());
    assert(encode_utf8(seq![c]) =~= encode_scalar(c as u32));
    assert(take_first_scalar(s) =~= b.subrange(i, i + length_of_first_scalar(s)));
}

/// Where the rest of a valid text is valid, a character boundary stands.
pub proof fn lemma_boundary_of_valid_rest(b: Seq<u8>, k: int)
    requires
        valid_utf8(b),
        0 <= k <= b.len(),
        valid_utf8(b.skip(k)),
    ensures
        is_char_boundary(b, k),
{
    if k < b.len() {
        let s = b.skip(k);
        assert(s[0] == b[k]);
        assert(valid_first_scalar(s));
        is_char_boundary_iff_not_is_continuation_byte(b, k);
    } else {
        is_char_boundary_start_end_of_seq(b);
    }
}

/// In valid UTF-8, an ASCII byte starts a character, and so does the byte after it.
pub proof fn lemma_ascii_boundaries(b: Seq<u8>, i: int)
    requires
        valid_utf8(b),
        0 <= i < b.len(),
        b[i] < 128,
    ensures
        is_char_boundary(b, i),
        is_char_boundary(b, i + 1),
{
    is_char_boundary_iff_not_is_continuation_byte(b, i);
    valid_utf8_split(b, i);
    assert(b.subrange(i, b.len() as int) =~= b.skip(i));
    lemma_valid_skip_ascii(b, i);
    lemma_boundary_of_valid_rest(b, i + 1);
}

/// `s[from..to]` between two character boundaries.
pub fn substr(s: &str, from: usize, to: usize) -> (r: &str)
    requires
        from <= to <= s.spec_bytes().len(),
        is_char_boundary(s.spec_bytes(), from as int),
        is_char_boundary(s.spec_bytes(), to as int),
    ensures
        r.spec_bytes() == s.spec_bytes().subrange(from as int, to as int),
{
    let ghost bytes = s.spec_bytes();
    let (_, rest) = s.split_at(from);
    proof {
        let rb = rest.spec_bytes();
        assert(rb =~= bytes.subrange(from as int, bytes.len() as int));
        if to < bytes.len() {
            is_char_boundary_iff_not_is_continuation_byte(bytes, to as int);
            is_char_boundary_iff_not_is_continuation_byte(rb, (to - from) as int);
            assert(rb[(to - from) as int] == bytes[to as int]);
        } else {
            assert(rb.len() == to - from);
        }
    }
    let (mid, _) = rest.split_at(to - from);
    proof {
        assert(mid.spec_bytes() =~= bytes.subrange(from as int, to as int));
    }
    mid
}

} // verus!
