//! Facts about UTF-8 text needed to cut a string at the ends of a match.
use vstd::prelude::*;
use vstd::utf8::{
    encode_utf8, encode_utf8_decode_utf8, encode_utf8_first_scalar,
    encode_utf8_valid_utf8, is_char_boundary, is_char_boundary_iff_not_is_continuation_byte,
    is_char_boundary_start_end_of_seq, is_continuation_byte, length_of_first_scalar,
    pop_first_scalar, valid_first_scalar, valid_utf8, valid_utf8_split,
};

verus! {

/// Encoding distributes over concatenation.
pub proof fn lemma_encode_concat(a: Seq<char>, b: Seq<char>)
    ensures
        encode_utf8(a + b) == encode_utf8(a) + encode_utf8(b),
    decreases a.len(),
{
    if a.len() == 0 {
        assert(a + b =~= b);
        assert(encode_utf8(a) + encode_utf8(b) =~= encode_utf8(b));
    } else {
        lemma_encode_concat(a.drop_first(), b);
        assert((a + b).drop_first() =~= a.drop_first() + b);
        assert((a + b)[0] == a[0]);
        assert(encode_utf8(a + b) =~= encode_utf8(a) + encode_utf8(b));
    }
}

/// Distinct strings have distinct encodings.
pub proof fn lemma_encode_injective(a: Seq<char>, b: Seq<char>)
    requires
        encode_utf8(a) == encode_utf8(b),
    ensures
        a == b,
{
    encode_utf8_decode_utf8(a);
    encode_utf8_decode_utf8(b);
}

/// A non-empty string has a non-empty encoding.
pub proof fn lemma_encode_nonempty(a: Seq<char>)
    requires
        a.len() > 0,
    ensures
        encode_utf8(a).len() > 0,
{
    encode_utf8_first_scalar(a);
}

/// The first byte of a non-empty valid encoding is not a continuation byte.
proof fn lemma_valid_first_byte(p: Seq<u8>)
    requires
        valid_utf8(p),
        p.len() > 0,
    ensures
        !is_continuation_byte(p[0]),
{
    is_char_boundary_start_end_of_seq(p);
    is_char_boundary_iff_not_is_continuation_byte(p, 0);
}

/// A valid prefix of valid text ends on a character boundary.
proof fn lemma_prefix_boundary(t: Seq<u8>, p: Seq<u8>)
    requires
        valid_utf8(t),
        valid_utf8(p),
        p.len() <= t.len(),
        t.subrange(0, p.len() as int) == p,
    ensures
        is_char_boundary(t, p.len() as int),
    decreases p.len(),
{
    if p.len() > 0 {
        assert(t[0] == p[0]);
        assert(valid_first_scalar(p));
        let k = length_of_first_scalar(p);
        assert(valid_first_scalar(t)) by {
            assert(t.len() > 0);
        }
        assert(length_of_first_scalar(t) == k);
        assert forall|j: int| 0 <= j < k implies t[j] == p[j] by {
            assert(t.subrange(0, p.len() as int)[j] == t[j]);
        }
        let tp = pop_first_scalar(t);
        let pp = pop_first_scalar(p);
        assert(tp.subrange(0, pp.len() as int) =~= pp) by {
            assert forall|j: int| 0 <= j < pp.len() implies tp[j] == pp[j] by {
                assert(t.subrange(0, p.len() as int)[k + j] == t[k + j]);
            }
        }
        lemma_prefix_boundary(tp, pp);
    }
}

/// The bytes of a non-empty valid pattern found in valid text start and end
/// on character boundaries.
pub proof fn lemma_match_boundaries(h: Seq<u8>, p: Seq<u8>, s: int)
    requires
        valid_utf8(h),
        valid_utf8(p),
        p.len() > 0,
        0 <= s,
        s + p.len() <= h.len(),
        h.subrange(s, s + p.len()) == p,
    ensures
        is_char_boundary(h, s),
        is_char_boundary(h, s + p.len()),
{
    lemma_valid_first_byte(p);
    assert(h[s] == p[0]) by {
        assert(h.subrange(s, s + p.len())[0] == h[s]);
    }
    is_char_boundary_iff_not_is_continuation_byte(h, s);
    valid_utf8_split(h, s);
    let t = h.subrange(s, h.len() as int);
    assert(t.subrange(0, p.len() as int) =~= p) by {
        assert forall|j: int| 0 <= j < p.len() implies t[j] == p[j] by {
            assert(h.subrange(s, s + p.len())[j] == h[s + j]);
        }
    }
    lemma_prefix_boundary(t, p);
    let e = s + p.len();
    if e < h.len() {
        is_char_boundary_iff_not_is_continuation_byte(t, p.len() as int);
        assert(t[p.len() as int] == h[e]);
        is_char_boundary_iff_not_is_continuation_byte(h, e);
    } else {
        is_char_boundary_start_end_of_seq(h);
    }
}

/// A boundary of valid text is a boundary of any of its suffixes that starts
/// on a boundary at or before it.
proof fn lemma_suffix_boundary(h: Seq<u8>, a: int, b: int)
    requires
        valid_utf8(h),
        0 <= a <= b <= h.len(),
        is_char_boundary(h, a),
        is_char_boundary(h, b),
    ensures
        valid_utf8(h.subrange(a, h.len() as int)),
        is_char_boundary(h.subrange(a, h.len() as int), b - a),
{
    valid_utf8_split(h, a);
    let t = h.subrange(a, h.len() as int);
    if b == h.len() {
        is_char_boundary_start_end_of_seq(t);
        assert(t.len() == b - a);
    } else {
        is_char_boundary_iff_not_is_continuation_byte(h, b);
        assert(t[b - a] == h[b]);
        is_char_boundary_iff_not_is_continuation_byte(t, b - a);
    }
}

/// The part of `text` between the byte offsets `a` and `b` (`&text[a..b]`),
/// both on character boundaries.
pub fn substring(text: &str, a: usize, b: usize) -> (r: &str)
    requires
        a <= b <= encode_utf8(text@).len(),
        is_char_boundary(encode_utf8(text@), a as int),
        is_char_boundary(encode_utf8(text@), b as int),
    ensures
        encode_utf8(r@) == encode_utf8(text@).subrange(a as int, b as int),
{
    let ghost h = encode_utf8(text@);
    proof {
        encode_utf8_valid_utf8(text@);
        lemma_suffix_boundary(h, a as int, b as int);
    }
    let (_, tail) = text.split_at(a);
    assert(encode_utf8(tail@) =~= h.subrange(a as int, h.len() as int));
    let (piece, _) = tail.split_at(b - a);
    assert(encode_utf8(piece@) =~= h.subrange(a as int, b as int));
    piece
}

} // verus!
