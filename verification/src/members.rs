//! Where the member names of a JSON text lie, so that replacing values never
//! touches them.
use vstd::prelude::*;

use crate::replacer::is_space_byte;

verus! {

/// The lexical state after the first `n` bytes of `hay`: whether they end
/// inside a string, and whether its last byte is a backslash that escapes
/// the next one.
pub open spec fn lex_state(hay: Seq<u8>, n: int) -> (bool, bool)
    decreases n,
{
    if n <= 0 {
        (false, false)
    } else {
        let (inside, escaped) = lex_state(hay, n - 1);
        let b = hay[n - 1];
        if !inside {
            (b == 0x22, false)
        } else if escaped {
            (true, false)
        } else if b == 0x5c {
            (true, true)
        } else if b == 0x22 {
            (false, false)
        } else {
            (true, false)
        }
    }
}

/// Byte `o` is the quote that opens a string.
pub open spec fn opens_at(hay: Seq<u8>, o: int) -> bool {
    &&& 0 <= o < hay.len()
    &&& hay[o] == 0x22
    &&& !lex_state(hay, o).0
}

/// Byte `c` is the quote that closes a string.
pub open spec fn closes_at(hay: Seq<u8>, c: int) -> bool {
    &&& 0 <= c < hay.len()
    &&& hay[c] == 0x22
    &&& lex_state(hay, c) == (true, false)
}

/// From byte `j` on, white space and then `:`.
pub open spec fn colon_follows(hay: Seq<u8>, j: int) -> bool
    decreases hay.len() - j,
{
    if 0 <= j < hay.len() {
        hay[j] == 0x3a || (is_space_byte(hay[j]) && colon_follows(hay, j + 1))
    } else {
        false
    }
}

/// Bytes `o` to `c` (both quotes included) are a string followed by `:`,
/// that is, the name of an object member.
pub open spec fn member_name(hay: Seq<u8>, o: int, c: int) -> bool {
    &&& opens_at(hay, o)
    &&& o < c
    &&& closes_at(hay, c)
    &&& forall|j: int| o < j < c ==> !#[trigger] closes_at(hay, j)
    &&& colon_follows(hay, c + 1)
}

/// Byte `k` belongs to the name of an object member.
pub open spec fn in_member_name(hay: Seq<u8>, k: int) -> bool {
    exists|o: int, c: int| o <= k <= c && #[trigger] member_name(hay, o, c)
}

/// No byte of `[s, e)` belongs to the name of an object member.
pub open spec fn outside_member_names(hay: Seq<u8>, s: int, e: int) -> bool {
    forall|k: int| s <= k < e ==> !#[trigger] in_member_name(hay, k)
}

/// After an opening quote, the text stays inside the string up to its
/// closing quote.
proof fn lemma_inside(hay: Seq<u8>, o: int, j: int)
    requires
        opens_at(hay, o),
        o < j <= hay.len(),
        forall|i: int| o < i < j ==> !#[trigger] closes_at(hay, i),
    ensures
        lex_state(hay, j).0,
    decreases j,
{
    if j > o + 1 {
        lemma_inside(hay, o, j - 1);
        assert(!closes_at(hay, j - 1));
    }
}

/// A string that opens at `open` and has not closed before `i` is the only
/// candidate for a member name around a byte in `[open, i)` (or at `i`).
proof fn lemma_same_string(hay: Seq<u8>, open: int, i: int, o: int, c: int, k: int)
    requires
        opens_at(hay, open),
        open <= k,
        k <= i < hay.len(),
        forall|j: int| open < j < i ==> !#[trigger] closes_at(hay, j),
        o <= k <= c,
        member_name(hay, o, c),
    ensures
        o == open,
{
    if o < open {
        lemma_inside(hay, o, open);
    } else if o > open {
        lemma_inside(hay, open, o);
    }
}

/// Whether, from byte `j` on, white space and then `:` follow.
fn colon_after(bytes: &[u8], j: usize) -> (r: bool)
    ensures
        r == colon_follows(bytes@, j as int),
{
    let mut k = j;
    while k < bytes.len()
        invariant
            colon_follows(bytes@, j as int) == colon_follows(bytes@, k as int),
            j <= k,
        decreases bytes@.len() - k,
    {
        let b = bytes[k];
        if b == 0x3a {
            return true;
        }
        if !(b == 0x20 || b == 0x09 || b == 0x0a || b == 0x0c || b == 0x0d) {
            return false;
        }
        k = k + 1;
    }
    false
}

/// For each byte of the text, whether it belongs to the name of an object
/// member (quotes included). A string left open at the end is no name.
pub fn member_name_mask(bytes: &[u8]) -> (r: Vec<bool>)
    ensures
        r@.len() == bytes@.len(),
        forall|k: int| 0 <= k < bytes@.len() ==> #[trigger] r@[k] == in_member_name(bytes@, k),
{
    let ghost hay = bytes@;
    let len = bytes.len();
    let mut mask: Vec<bool> = Vec::new();
    let mut inside = false;
    let mut escaped = false;
    let mut open: usize = 0;
    let mut i: usize = 0;
    while i < len
        invariant
            hay == bytes@,
            len == hay.len(),
            i <= len,
            (inside, escaped) == lex_state(hay, i as int),
            inside ==> {
                &&& open < i
                &&& opens_at(hay, open as int)
                &&& forall|j: int| open < j < i ==> !#[trigger] closes_at(hay, j)
                &&& mask@.len() == open
            },
            !inside ==> mask@.len() == i,
            forall|k: int| 0 <= k < mask@.len() ==> #[trigger] mask@[k] == in_member_name(hay, k),
        decreases len - i,
    {
        let b = bytes[i];
        if !inside {
            if b == 0x22 {
                inside = true;
                open = i;
            } else {
                proof {
                    if in_member_name(hay, i as int) {
                        let (o, c) = choose|o: int, c: int|
                            o <= i <= c && #[trigger] member_name(hay, o, c);
                        lemma_inside(hay, o, i as int);
                    }
                }
                mask.push(false);
            }
        } else if escaped {
            escaped = false;
        } else if b == 0x5c {
            escaped = true;
        } else if b == 0x22 {
            let key = colon_after(bytes, i + 1);
            let ghost before = mask@.len();
            proof {
                assert(closes_at(hay, i as int));
                if key {
                    assert(member_name(hay, open as int, i as int));
                }
            }
            let mut j = open;
            while j <= i
                invariant
                    hay == bytes@,
                    open <= j <= i + 1,
                    i < len,
                    len == hay.len(),
                    mask@.len() == j,
                    opens_at(hay, open as int),
                    closes_at(hay, i as int),
                    forall|l: int| open < l < i ==> !#[trigger] closes_at(hay, l),
                    key == colon_follows(hay, i + 1),
                    key ==> member_name(hay, open as int, i as int),
                    forall|k: int| 0 <= k < mask@.len() ==> #[trigger] mask@[k] == in_member_name(hay, k),
                decreases i + 1 - j,
            {
                proof {
                    if in_member_name(hay, j as int) {
                        let (o, c) = choose|o: int, c: int|
                            o <= j <= c && #[trigger] member_name(hay, o, c);
                        lemma_same_string(hay, open as int, i as int, o, c, j as int);
                        if c < i {
                            assert(closes_at(hay, c));
                        } else if c > i {
                            assert(!closes_at(hay, i as int));
                        }
                    }
                }
                mask.push(key);
                j = j + 1;
            }
            inside = false;
        }
        i = i + 1;
    }
    while mask.len() < len
        invariant
            hay == bytes@,
            len == hay.len(),
            mask@.len() <= len,
            inside ==> {
                &&& opens_at(hay, open as int)
                &&& forall|j: int| open < j < len ==> !#[trigger] closes_at(hay, j)
                &&& mask@.len() >= open
            },
            !inside ==> mask@.len() == len,
            forall|k: int| 0 <= k < mask@.len() ==> #[trigger] mask@[k] == in_member_name(hay, k),
        decreases len - mask@.len(),
    {
        proof {
            let k = mask@.len() as int;
            if in_member_name(hay, k) {
                let (o, c) = choose|o: int, c: int| o <= k <= c && #[trigger] member_name(hay, o, c);
                lemma_same_string(hay, open as int, k, o, c, k);
                assert(closes_at(hay, c));
            }
        }
        mask.push(false);
    }
    mask
}

/// Whether no byte of `[s, e)` belongs to a member name, by the mask of
/// [`member_name_mask`].
pub fn outside_names(mask: &Vec<bool>, s: usize, e: usize) -> (r: bool)
    requires
        s <= e <= mask@.len(),
    ensures
        r == forall|k: int| s <= k < e ==> !#[trigger] mask@[k],
{
    let mut k = s;
    while k < e
        invariant
            s <= k <= e,
            e <= mask@.len(),
            forall|l: int| s <= l < k ==> !#[trigger] mask@[l],
        decreases e - k,
    {
        if mask[k] {
            return false;
        }
        k = k + 1;
    }
    true
}

/// Inside a string without quotes or backslashes, the text stays inside the
/// string and nothing is escaped.
proof fn lemma_plain_inside(hay: Seq<u8>, o: int, j: int)
    requires
        0 <= o < j <= hay.len(),
        hay[o] == 0x22,
        !lex_state(hay, o).0,
        forall|i: int| o < i < j ==> #[trigger] hay[i] != 0x22 && hay[i] != 0x5c,
    ensures
        lex_state(hay, j) == (true, false),
    decreases j,
{
    if j > o + 1 {
        lemma_plain_inside(hay, o, j - 1);
    }
}

/// A string written without escapes, opened outside any string and
/// followed right away by `:`, is a member name: none of its bytes (quotes
/// included) is ever replaced. Followed instead by a byte that is neither
/// `:` nor white space (such as `,`, `}` or `]`), it is a value and none of
/// its bytes belongs to a member name.
pub proof fn lemma_plain_string_member(hay: Seq<u8>, o: int, c: int)
    requires
        0 <= o < c,
        c + 1 < hay.len(),
        hay[o] == 0x22,
        !lex_state(hay, o).0,
        forall|i: int| o < i < c ==> #[trigger] hay[i] != 0x22 && hay[i] != 0x5c,
        hay[c] == 0x22,
    ensures
        hay[c + 1] == 0x3a ==> forall|k: int| o <= k <= c ==> #[trigger] in_member_name(hay, k),
        hay[c + 1] != 0x3a && hay[c + 1] != 0x20 && hay[c + 1] != 0x09 && hay[c + 1] != 0x0a
            && hay[c + 1] != 0x0c && hay[c + 1] != 0x0d ==> forall|k: int|
            o <= k <= c ==> !#[trigger] in_member_name(hay, k),
{
    lemma_plain_inside(hay, o, c);
    assert(closes_at(hay, c));
    assert forall|j: int| o < j < c implies !#[trigger] closes_at(hay, j) by {}
    if hay[c + 1] == 0x3a {
        assert(colon_follows(hay, c + 1));
        assert(member_name(hay, o, c));
        assert forall|k: int| o <= k <= c implies #[trigger] in_member_name(hay, k) by {
            assert(o <= k <= c && member_name(hay, o, c));
        }
    }
    if hay[c + 1] != 0x3a && hay[c + 1] != 0x20 && hay[c + 1] != 0x09 && hay[c + 1] != 0x0a
        && hay[c + 1] != 0x0c && hay[c + 1] != 0x0d {
        assert(!colon_follows(hay, c + 1));
        assert forall|k: int| o <= k <= c implies !#[trigger] in_member_name(hay, k) by {
            if in_member_name(hay, k) {
                let (o2, c2) = choose|o2: int, c2: int| o2 <= k <= c2 && #[trigger] member_name(hay, o2, c2);
                lemma_same_string(hay, o, c, o2, c2, k);
                if c2 < c {
                    assert(closes_at(hay, c2));
                } else if c2 > c {
                    assert(!closes_at(hay, c));
                }
            }
        }
    }
}

} // verus!
