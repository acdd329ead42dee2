//! Facts about character boundaries in UTF-8 text, over vstd's model of UTF-8.
use vstd::prelude::*;
use vstd::utf8::*;

verus! {

broadcast use vstd::utf8::encode_utf8_valid_utf8;

/// The first byte of a non-empty encoded text is a leading byte.
pub proof fn lemma_encoded_first_byte(m: Seq<char>)
    requires
        m.len() > 0,
    ensures
        encode_utf8(m).len() > 0,
        !is_continuation_byte(encode_utf8(m)[0]),
{
    encode_utf8_first_scalar(m);
}

/// Boundaries after a boundary `j` are the boundaries of the text that starts at `j`.
pub proof fn lemma_boundary_shift(b: Seq<u8>, j: int, k: int)
    requires
        valid_utf8(b),
        is_char_boundary(b, j),
        0 <= k,
        j + k <= b.len(),
    ensures
        valid_utf8(b.subrange(j, b.len() as int)),
        is_char_boundary(b, j + k) == is_char_boundary(b.subrange(j, b.len() as int), k),
    decreases b.len(),
{
    broadcast use valid_utf8_split;

    if j == 0 {
        assert(b.subrange(0, b.len() as int) =~= b);
    } else {
        let l = length_of_first_scalar(b);
        let p = pop_first_scalar(b);
        assert(is_char_boundary(b, j) == is_char_boundary(p, j - l));
        assert(j - l >= 0);
        assert(valid_utf8(p));
        assert(p.len() < b.len());
        lemma_boundary_shift(p, j - l, k);
        assert(p.subrange(j - l, p.len() as int) =~= b.subrange(j, b.len() as int));
        assert(is_char_boundary(b, j + k) == is_char_boundary(p, j + k - l));
    }
}

/// In a valid text that begins with the valid text `e`, the end of `e` is a boundary.
pub proof fn lemma_boundary_after_prefix(e: Seq<u8>, r: Seq<u8>)
    requires
        valid_utf8(e),
        valid_utf8(e + r),
    ensures
        is_char_boundary(e + r, e.len() as int),
    decreases e.len(),
{
    if e.len() > 0 {
        let b = e + r;
        let l = length_of_first_scalar(e);
        assert(b[0] == e[0]);
        assert(valid_first_scalar(e));
        assert(l <= e.len());
        assert(b.subrange(0, l) =~= e.subrange(0, l));
        assert(length_of_first_scalar(b) == l);
        assert(pop_first_scalar(b) =~= pop_first_scalar(e) + r);
        assert(pop_first_scalar(e).len() < e.len());
        lemma_boundary_after_prefix(pop_first_scalar(e), r);
    }
}

/// After an encoded text that starts at a boundary comes another boundary.
pub proof fn lemma_boundary_after_encoded(b: Seq<u8>, j: int, m: Seq<char>)
    requires
        valid_utf8(b),
        is_char_boundary(b, j),
        0 <= j,
        j + encode_utf8(m).len() <= b.len(),
        b.subrange(j, j + encode_utf8(m).len()) == encode_utf8(m),
    ensures
        is_char_boundary(b, j + encode_utf8(m).len()),
{
    let e = encode_utf8(m);
    lemma_boundary_shift(b, j, e.len() as int);
    let s = b.subrange(j, b.len() as int);
    let r = s.subrange(e.len() as int, s.len() as int);
    assert(s =~= e + r);
    lemma_boundary_after_prefix(e, r);
}

/// An encoded text that occurs in a valid text starts at a boundary, if it is not empty.
pub proof fn lemma_boundary_at_encoded(b: Seq<u8>, j: int, m: Seq<char>)
    requires
        valid_utf8(b),
        m.len() > 0,
        0 <= j,
        j + encode_utf8(m).len() <= b.len(),
        b.subrange(j, j + encode_utf8(m).len()) == encode_utf8(m),
    ensures
        is_char_boundary(b, j),
{
    lemma_encoded_first_byte(m);
    assert(b[j] == encode_utf8(m)[0]);
    is_char_boundary_iff_not_is_continuation_byte(b, j);
}

/// A position that holds an ASCII byte is a boundary, and so is the next one.
pub proof fn lemma_boundary_around_ascii(b: Seq<u8>, i: int)
    requires
        valid_utf8(b),
        0 <= i < b.len(),
        b[i] < 128,
    ensures
        is_char_boundary(b, i),
        is_char_boundary(b, i + 1),
{
    is_char_boundary_iff_not_is_continuation_byte(b, i);
    lemma_boundary_shift(b, i, 1);
    let s = b.subrange(i, b.len() as int);
    assert(s[0] == b[i]);
    assert(length_of_first_scalar(s) == 1);
    assert(is_char_boundary(s, 1) == is_char_boundary(pop_first_scalar(s), 0));
}

/// The start and the end of a valid text are boundaries.
pub proof fn lemma_boundary_ends(b: Seq<u8>)
    requires
        valid_utf8(b),
    ensures
        is_char_boundary(b, 0),
        is_char_boundary(b, b.len() as int),
{
    is_char_boundary_start_end_of_seq(b);
}

/// The text between two boundaries decodes to the characters that the bytes encode.
pub proof fn lemma_piece_valid(b: Seq<u8>, s: int, e: int)
    requires
        valid_utf8(b),
        0 <= s <= e <= b.len(),
        is_char_boundary(b, s),
        is_char_boundary(b, e),
    ensures
        valid_utf8(b.subrange(s, e)),
        is_char_boundary(b.subrange(s, b.len() as int), e - s),
{
    lemma_boundary_shift(b, s, e - s);
    let t = b.subrange(s, b.len() as int);
    valid_utf8_split(t, e - s);
    assert(t.subrange(0, e - s) =~= b.subrange(s, e));
}

} // verus!
