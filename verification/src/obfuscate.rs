//! Turning a value into its obfuscated shape, and stepping to the next
//! candidate when that shape is already taken.
use vstd::prelude::*;

use crate::chars::{
    alnum, ascii_digit, ascii_lowercase, ascii_uppercase, chars_of, is_alnum, is_ascii_digit,
    is_ascii_lower, is_ascii_upper, is_letter, is_upper, letter, string_of, upper,
};

verus! {

/// The obfuscated form of one character: digits become `'1'`, upper-case
/// letters `'A'`, every other letter `'a'`; anything else is kept.
pub open spec fn obfuscate_char(c: char) -> char {
    if is_ascii_digit(c) {
        '1'
    } else if is_letter(c) {
        if is_upper(c) {
            'A'
        } else {
            'a'
        }
    } else {
        c
    }
}

/// The obfuscated form of a value, character by character.
pub open spec fn obfuscated(s: Seq<char>) -> Seq<char> {
    s.map_values(|c: char| obfuscate_char(c))
}

/// A character that the carry step can raise by one: a digit below `'9'`,
/// or an ASCII letter below `'z'` / `'Z'`.
pub open spec fn is_bumpable(c: char) -> bool {
    ||| (is_ascii_digit(c) && c != '9')
    ||| (is_ascii_lower(c) && c != 'z')
    ||| (is_ascii_upper(c) && c != 'Z')
}

/// The next character in its class.
pub open spec fn bump(c: char) -> char {
    ((c as u32) + 1) as char
}

/// The first character of a character's class (`'1'`, `'a'`, `'A'`);
/// characters outside the three classes are kept.
pub open spec fn reset(c: char) -> char {
    if is_ascii_digit(c) {
        '1'
    } else if is_ascii_lower(c) {
        'a'
    } else if is_ascii_upper(c) {
        'A'
    } else {
        c
    }
}

/// The last index below `n` holding a bumpable character, or `-1`.
pub open spec fn last_bumpable(s: Seq<char>, n: int) -> int
    decreases n,
{
    if n <= 0 {
        -1
    } else if is_bumpable(s[n - 1]) {
        n - 1
    } else {
        last_bumpable(s, n - 1)
    }
}

/// The character prepended on a full carry, chosen by the class of the
/// first alphanumeric character at or after `i` (`'1'` when there is none).
pub open spec fn lead_from(t: Seq<char>, i: int) -> char
    decreases t.len() - i,
{
    if i < 0 || i >= t.len() {
        '1'
    } else if is_alnum(t[i]) {
        if is_ascii_digit(t[i]) {
            '1'
        } else if is_ascii_upper(t[i]) {
            'A'
        } else {
            'a'
        }
    } else {
        lead_from(t, i + 1)
    }
}

/// The candidate that follows `s`: the last bumpable character is raised by
/// one and every class character after it starts its class over; when no
/// character can be raised, every class character starts over and one more
/// character, of the class of the first alphanumeric one, is put in front.
pub open spec fn successor(s: Seq<char>) -> Seq<char> {
    let k = last_bumpable(s, s.len() as int);
    if k >= 0 {
        Seq::new(
            s.len(),
            |j: int|
                if j < k {
                    s[j]
                } else if j == k {
                    bump(s[j])
                } else {
                    reset(s[j])
                },
        )
    } else {
        let t = s.map_values(|c: char| reset(c));
        seq![lead_from(t, 0)] + t
    }
}

/// `a` comes before `b` in dictionary order, at some position `i` where they
/// first differ.
pub open spec fn lex_lt_at(a: Seq<char>, b: Seq<char>, i: int) -> bool {
    &&& 0 <= i < a.len()
    &&& i < b.len()
    &&& a.take(i) == b.take(i)
    &&& (a[i] as u32) < (b[i] as u32)
}

/// Shorter strings first; strings of one length in dictionary order.
pub open spec fn shortlex_lt(a: Seq<char>, b: Seq<char>) -> bool {
    ||| a.len() < b.len()
    ||| (a.len() == b.len() && exists|i: int| lex_lt_at(a, b, i))
}

proof fn lemma_last_bumpable(s: Seq<char>, n: int, k: int)
    requires
        -1 <= k < n <= s.len(),
        k >= 0 ==> is_bumpable(s[k]),
        forall|j: int| k < j < n ==> !is_bumpable(#[trigger] s[j]),
    ensures
        last_bumpable(s, n) == k,
    decreases n,
{
    if n > 0 && n - 1 != k {
        lemma_last_bumpable(s, n - 1, k);
    }
}

proof fn lemma_last_bumpable_bounds(s: Seq<char>, n: int)
    requires
        0 <= n <= s.len(),
    ensures
        -1 <= last_bumpable(s, n) < n,
        last_bumpable(s, n) >= 0 ==> is_bumpable(s[last_bumpable(s, n)]),
        forall|j: int| last_bumpable(s, n) < j < n ==> !is_bumpable(#[trigger] s[j]),
    decreases n,
{
    if n > 0 && !is_bumpable(s[n - 1]) {
        lemma_last_bumpable_bounds(s, n - 1);
    }
}

proof fn lemma_lead_from_skip(t: Seq<char>, i: int, j: int)
    requires
        0 <= i <= j <= t.len(),
        forall|m: int| i <= m < j ==> !is_alnum(#[trigger] t[m]),
    ensures
        lead_from(t, i) == lead_from(t, j),
    decreases j - i,
{
    if i < j {
        lemma_lead_from_skip(t, i + 1, j);
    }
}

/// The next character after an ASCII digit or letter.
fn next_char(c: char) -> (r: char)
    requires
        is_bumpable(c),
    ensures
        r == bump(c),
{
    ((c as u8) + 1) as char
}

/// The obfuscated form of a value: digits become `'1'`, upper-case letters
/// `'A'`, other letters `'a'`, and every other character is kept.
pub fn obfuscate_str(value: &str) -> (r: String)
    ensures
        r@ == obfuscated(value@),
{
    let cs = chars_of(value);
    let mut out: Vec<char> = Vec::new();
    for i in 0..cs.len()
        invariant
            cs@ == value@,
            out@ == obfuscated(value@.take(i as int)),
    {
        let c = cs[i];
        let o = if ascii_digit(c) {
            '1'
        } else if letter(c) {
            if upper(c) {
                'A'
            } else {
                'a'
            }
        } else {
            c
        };
        out.push(o);
        assert(obfuscated(value@.take(i + 1)) == obfuscated(value@.take(i as int)).push(
            obfuscate_char(c),
        ));
    }
    assert(value@.take(cs@.len() as int) == value@);
    string_of(&out)
}

/// The candidate that follows `s` (see [`successor`]): counting upwards with
/// digits `1..9` and letters `a..z` / `A..Z`, carrying leftwards past the
/// other characters, and growing by one character on a full carry.
pub fn increment_obfuscated(s: &str) -> (r: String)
    ensures
        r@ == successor(s@),
{
    let mut chars = chars_of(s);
    let n = chars.len();
    let ghost orig = s@;
    let mut i: usize = n;
    proof {
        lemma_last_bumpable_bounds(orig, n as int);
    }
    loop
        invariant
            n == orig.len(),
            orig == s@,
            i <= n,
            chars@.len() == n,
            forall|j: int| 0 <= j < i ==> chars@[j] == orig[j],
            forall|j: int| i <= j < n ==> !is_bumpable(#[trigger] orig[j]),
            forall|j: int| i <= j < n ==> chars@[j] == reset(#[trigger] orig[j]),
        decreases i,
    {
        if i == 0 {
            // Full carry: prepend a character of the first alphanumeric's class.
            let ghost t = orig.map_values(|c: char| reset(c));
            assert(chars@ == t);
            let mut p: usize = 0;
            while p < n && !alnum(chars[p])
                invariant
                    p <= n,
                    chars@ == t,
                    n == t.len(),
                    forall|m: int| 0 <= m < p ==> !is_alnum(#[trigger] t[m]),
                decreases n - p,
            {
                p = p + 1;
            }
            proof {
                lemma_lead_from_skip(t, 0, p as int);
            }
            let prefix = if p == n {
                '1'
            } else {
                let c = chars[p];
                if ascii_digit(c) {
                    '1'
                } else if ascii_uppercase(c) {
                    'A'
                } else {
                    'a'
                }
            };
            chars.insert(0, prefix);
            proof {
                lemma_last_bumpable(orig, n as int, -1);
                assert(chars@ == seq![lead_from(t, 0)] + t);
            }
            return string_of(&chars);
        }
        i = i - 1;
        let c = chars[i];
        if ascii_digit(c) {
            if c != '9' {
                let b = next_char(c);
                chars.set(i, b);
                proof {
                    lemma_last_bumpable(orig, n as int, i as int);
                    assert(chars@ == successor(orig));
                }
                return string_of(&chars);
            }
            chars.set(i, '1');
        } else if ascii_lowercase(c) {
            if c != 'z' {
                let b = next_char(c);
                chars.set(i, b);
                proof {
                    lemma_last_bumpable(orig, n as int, i as int);
                    assert(chars@ == successor(orig));
                }
                return string_of(&chars);
            }
            chars.set(i, 'a');
        } else if ascii_uppercase(c) {
            if c != 'Z' {
                let b = next_char(c);
                chars.set(i, b);
                proof {
                    lemma_last_bumpable(orig, n as int, i as int);
                    assert(chars@ == successor(orig));
                }
                return string_of(&chars);
            }
            chars.set(i, 'A');
        }
    }
}

/// Obfuscation is idempotent: obfuscating an obfuscated value changes nothing.
pub proof fn lemma_obfuscated_idempotent(s: Seq<char>)
    ensures
        obfuscated(obfuscated(s)) == obfuscated(s),
        obfuscated(s).len() == s.len(),
{
    assert(obfuscated(obfuscated(s)) =~= obfuscated(s));
}

/// Each candidate comes strictly after the one it follows (shorter strings
/// first, then dictionary order), so stepping never revisits a candidate.
pub proof fn lemma_successor_increases(s: Seq<char>)
    ensures
        shortlex_lt(s, successor(s)),
{
    lemma_last_bumpable_bounds(s, s.len() as int);
    let k = last_bumpable(s, s.len() as int);
    if k >= 0 {
        let t = successor(s);
        assert(s.take(k) =~= t.take(k));
        assert(lex_lt_at(s, t, k));
    }
}

proof fn lemma_bump_keeps_class(c: char)
    requires
        is_bumpable(c),
    ensures
        obfuscate_char(bump(c)) == obfuscate_char(c),
{
    let b = bump(c);
    assert(b as u32 == c as u32 + 1);
    if is_ascii_digit(c) {
        assert(is_ascii_digit(b));
    } else if is_ascii_lower(c) {
        assert(is_ascii_lower(b));
    } else {
        assert(is_ascii_upper(b));
    }
}

/// Stepping to the next candidate keeps every character's class: the
/// obfuscated form stays the same, or, on a full carry, gains one leading
/// `'1'`, `'a'` or `'A'` in front of the same form.
pub proof fn lemma_successor_keeps_shape(s: Seq<char>)
    ensures
        obfuscated(successor(s)) == obfuscated(s) || {
            &&& successor(s).len() == s.len() + 1
            &&& obfuscated(successor(s)).subrange(1, s.len() + 1int) == obfuscated(s)
            &&& obfuscated(successor(s))[0] == '1' || obfuscated(successor(s))[0] == 'a'
                || obfuscated(successor(s))[0] == 'A'
        },
{
    lemma_last_bumpable_bounds(s, s.len() as int);
    let k = last_bumpable(s, s.len() as int);
    let t = successor(s);
    if k >= 0 {
        assert forall|j: int| 0 <= j < s.len() implies obfuscated(t)[j] == obfuscated(s)[j] by {
            if j == k {
                lemma_bump_keeps_class(s[j]);
            }
        }
        assert(obfuscated(t) =~= obfuscated(s));
    } else {
        let r = s.map_values(|c: char| reset(c));
        let l = lead_from(r, 0);
        assert(l == '1' || l == 'a' || l == 'A') by {
            lemma_lead_from_values(r, 0);
        }
        assert(obfuscated(t).subrange(1, s.len() + 1int) =~= obfuscated(s));
    }
}

proof fn lemma_lead_from_values(t: Seq<char>, i: int)
    ensures
        lead_from(t, i) == '1' || lead_from(t, i) == 'a' || lead_from(t, i) == 'A',
    decreases t.len() - i,
{
    if 0 <= i < t.len() && !is_alnum(t[i]) {
        lemma_lead_from_values(t, i + 1);
    }
}

/// A character that can stand in a candidate: an ASCII digit or letter, or
/// a character that obfuscation keeps as it is.
pub open spec fn candidate_char(c: char) -> bool {
    is_ascii_digit(c) || is_ascii_lower(c) || is_ascii_upper(c) || obfuscate_char(c) == c
}

/// Every character of `s` can stand in a candidate.
pub open spec fn candidate_chars(s: Seq<char>) -> bool {
    forall|i: int| 0 <= i < s.len() ==> #[trigger] candidate_char(s[i])
}

/// An obfuscated value is made of candidate characters.
pub proof fn lemma_obfuscated_candidate(s: Seq<char>)
    ensures
        candidate_chars(obfuscated(s)),
{
    assert forall|i: int| 0 <= i < obfuscated(s).len() implies #[trigger] candidate_char(
        obfuscated(s)[i],
    ) by {
        let c = s[i];
        if !is_ascii_digit(c) && !is_letter(c) {
            assert(obfuscate_char(c) == c);
        }
    }
}

/// One step keeps a candidate made of candidate characters; it either keeps
/// the length and the obfuscated form, or (on a full carry) grows by one
/// character into a value that is its own obfuscated form.
pub proof fn lemma_successor_step(s: Seq<char>)
    requires
        candidate_chars(s),
    ensures
        candidate_chars(successor(s)),
        (successor(s).len() == s.len() && obfuscated(successor(s)) == obfuscated(s)) || (
        successor(s).len() == s.len() + 1 && obfuscated(successor(s)) == successor(s)),
{
    lemma_last_bumpable_bounds(s, s.len() as int);
    let k = last_bumpable(s, s.len() as int);
    let t = successor(s);
    if k >= 0 {
        lemma_successor_keeps_shape(s);
        assert forall|j: int| 0 <= j < t.len() implies #[trigger] candidate_char(t[j]) by {
            assert(candidate_char(s[j]));
            if j == k {
                let b = bump(s[j]);
                assert(b as u32 == s[j] as u32 + 1);
            }
        }
        assert(obfuscated(t) =~= obfuscated(s));
    } else {
        let r = s.map_values(|c: char| reset(c));
        let l = lead_from(r, 0);
        lemma_lead_from_values(r, 0);
        assert(t =~= seq![l] + r);
        assert forall|j: int| 0 <= j < t.len() implies #[trigger] candidate_char(t[j]) by {
            if j > 0 {
                assert(candidate_char(s[j - 1]));
            }
        }
        assert forall|j: int| 0 <= j < t.len() implies #[trigger] obfuscated(t)[j] == t[j] by {
            if j > 0 {
                assert(candidate_char(s[j - 1]));
            }
        }
        assert(obfuscated(t) =~= t);
    }
}

/// No string comes before itself.
pub proof fn lemma_shortlex_irreflexive(a: Seq<char>)
    ensures
        !shortlex_lt(a, a),
{
    if exists|i: int| lex_lt_at(a, a, i) {
        let i = choose|i: int| lex_lt_at(a, a, i);
        assert(a[i] == a[i]);
    }
}

/// The order is transitive.
pub proof fn lemma_shortlex_transitive(a: Seq<char>, b: Seq<char>, c: Seq<char>)
    requires
        shortlex_lt(a, b),
        shortlex_lt(b, c),
    ensures
        shortlex_lt(a, c),
{
    if a.len() == b.len() && b.len() == c.len() {
        let i = choose|i: int| lex_lt_at(a, b, i);
        let j = choose|j: int| lex_lt_at(b, c, j);
        if i < j {
            assert(b.take(j).take(i) =~= b.take(i));
            assert(c.take(j).take(i) =~= c.take(i));
            assert(b[i] == b.take(j)[i]);
            assert(c[i] == c.take(j)[i]);
            assert(lex_lt_at(a, c, i));
        } else if j < i {
            assert(a.take(i).take(j) =~= a.take(j));
            assert(b.take(i).take(j) =~= b.take(j));
            assert(a[j] == a.take(i)[j]);
            assert(b[j] == b.take(i)[j]);
            assert(lex_lt_at(a, c, j));
        } else {
            assert(lex_lt_at(a, c, i));
        }
    }
}

/// What obfuscation does to each character. An ASCII digit becomes `'1'`,
/// an ASCII upper-case letter `'A'`, an ASCII lower-case letter `'a'`, and
/// every other ASCII character (punctuation such as `'@'` or `'.'`, space,
/// control characters) is kept. Beyond ASCII, a character that `std` does
/// not call alphabetic is kept and an alphabetic one becomes `'A'` or `'a'`.
/// The length never changes.
pub proof fn lemma_obfuscated_char_rule(s: Seq<char>, i: int)
    requires
        0 <= i < s.len(),
    ensures
        obfuscated(s).len() == s.len(),
        '0' <= s[i] && s[i] <= '9' ==> obfuscated(s)[i] == '1',
        'A' <= s[i] && s[i] <= 'Z' ==> obfuscated(s)[i] == 'A',
        'a' <= s[i] && s[i] <= 'z' ==> obfuscated(s)[i] == 'a',
        s[i] <= '\x7f' && !('0' <= s[i] && s[i] <= '9') && !('A' <= s[i] && s[i] <= 'Z') && !('a'
            <= s[i] && s[i] <= 'z') ==> obfuscated(s)[i] == s[i],
        s[i] > '\x7f' && !crate::chars::unicode_alphabetic(s[i]) ==> obfuscated(s)[i] == s[i],
        s[i] > '\x7f' && crate::chars::unicode_alphabetic(s[i]) ==> (obfuscated(s)[i] == 'A'
            || obfuscated(s)[i] == 'a'),
{
}

/// One step from `s`, when `k` is the last position holding an ASCII digit
/// below `'9'` or an ASCII letter below `'z'` / `'Z'`: that character is
/// raised by one, everything before it is kept, and after it every digit
/// becomes `'1'`, every lower-case letter `'a'`, every upper-case letter
/// `'A'`, other characters being kept. The length does not change.
pub proof fn lemma_successor_rule(s: Seq<char>, k: int)
    requires
        0 <= k < s.len(),
        ('0' <= s[k] && s[k] < '9') || ('a' <= s[k] && s[k] < 'z') || ('A' <= s[k] && s[k] < 'Z'),
        forall|j: int|
            k < j < s.len() ==> !(('0' <= #[trigger] s[j] && s[j] < '9') || ('a' <= s[j] && s[j]
                < 'z') || ('A' <= s[j] && s[j] < 'Z')),
    ensures
        successor(s).len() == s.len(),
        successor(s)[k] as u32 == s[k] as u32 + 1,
        forall|j: int| 0 <= j < k ==> #[trigger] successor(s)[j] == s[j],
        forall|j: int|
            k < j < s.len() ==> #[trigger] successor(s)[j] == (if '0' <= s[j] && s[j] <= '9' {
                '1'
            } else if 'a' <= s[j] && s[j] <= 'z' {
                'a'
            } else if 'A' <= s[j] && s[j] <= 'Z' {
                'A'
            } else {
                s[j]
            }),
{
    assert forall|j: int| k < j < s.len() implies !is_bumpable(#[trigger] s[j]) by {}
    lemma_last_bumpable(s, s.len() as int, k);
}

/// One step from `s` when no character can be raised (every ASCII digit is
/// `'9'`, every ASCII letter `'z'` or `'Z'`): every digit becomes `'1'`,
/// every letter `'a'` / `'A'`, and one character is put in front, of the
/// class of the first character when that is an ASCII digit or letter
/// (`'1'` for an empty value).
pub proof fn lemma_successor_full_carry(s: Seq<char>)
    requires
        forall|j: int|
            0 <= j < s.len() ==> !(('0' <= #[trigger] s[j] && s[j] < '9') || ('a' <= s[j] && s[j]
                < 'z') || ('A' <= s[j] && s[j] < 'Z')),
    ensures
        successor(s).len() == s.len() + 1,
        forall|j: int|
            0 <= j < s.len() ==> #[trigger] successor(s)[j + 1] == (if '0' <= s[j] && s[j] <= '9' {
                '1'
            } else if 'a' <= s[j] && s[j] <= 'z' {
                'a'
            } else if 'A' <= s[j] && s[j] <= 'Z' {
                'A'
            } else {
                s[j]
            }),
        s.len() == 0 ==> successor(s)[0] == '1',
        s.len() > 0 && '0' <= s[0] && s[0] <= '9' ==> successor(s)[0] == '1',
        s.len() > 0 && 'a' <= s[0] && s[0] <= 'z' ==> successor(s)[0] == 'a',
        s.len() > 0 && 'A' <= s[0] && s[0] <= 'Z' ==> successor(s)[0] == 'A',
{
    assert forall|j: int| -1 < j < s.len() implies !is_bumpable(#[trigger] s[j]) by {}
    lemma_last_bumpable(s, s.len() as int, -1);
    let t = s.map_values(|c: char| reset(c));
    assert(successor(s) == seq![lead_from(t, 0)] + t);
    if s.len() > 0 {
        assert(t[0] == reset(s[0]));
    }
}

} // verus!
