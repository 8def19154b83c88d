//! Replacing the collected values in a document's text, in one pass, only
//! where an occurrence stands on its own (a whole number, a whole word) and
//! outside the names of object members.
use aho_corasick::{AhoCorasick, BuildError};
use vstd::prelude::*;
use vstd::string::StringExecFns;
use vstd::utf8::{encode_utf8, encode_utf8_valid_utf8, is_char_boundary, valid_utf8};

use crate::mapping::{
    assign_all, distinct_keys, lemma_pairs_to_map_lookup, lemma_second_table_identity,
    lemma_view_is_pairs, Mapping,
};
use crate::members::{in_member_name, member_name_mask, outside_member_names, outside_names};
use crate::order::strictly_sorted;
use crate::matcher::{
    automaton_builds, automaton_leftmost_longest, automaton_patterns, build_leftmost_longest,
    find_in_span, is_leftmost_longest, occurs_in,
};
use crate::text::{
    lemma_encode_concat, lemma_encode_injective, lemma_encode_nonempty, lemma_match_boundaries,
    substring,
};

verus! {

/// `u8::is_ascii_whitespace`: space, tab, line feed, form feed, carriage return.
pub open spec fn is_space_byte(b: u8) -> bool {
    b == 0x20 || b == 0x09 || b == 0x0a || b == 0x0c || b == 0x0d
}

/// `u8::is_ascii_digit`.
pub open spec fn is_digit_byte(b: u8) -> bool {
    0x30 <= b <= 0x39
}

/// A byte that may stand right before a replaced number: `"`, `:`, `/` or
/// white space.
pub open spec fn numeric_prefix_byte(b: u8) -> bool {
    b == 0x22 || b == 0x3a || b == 0x2f || is_space_byte(b)
}

/// A byte that may stand right after a replaced number: `"`, `,`, `/`, `}`,
/// `]` or white space.
pub open spec fn numeric_suffix_byte(b: u8) -> bool {
    b == 0x22 || b == 0x2c || b == 0x2f || b == 0x7d || b == 0x5d || is_space_byte(b)
}

/// A byte of a word: an ASCII letter or digit, or `_`.
pub open spec fn word_byte(b: u8) -> bool {
    is_digit_byte(b) || (0x41 <= b <= 0x5a) || (0x61 <= b <= 0x7a) || b == 0x5f
}

/// Non-empty and made of ASCII digits only.
pub open spec fn pure_numeric(p: Seq<u8>) -> bool {
    p.len() > 0 && forall|i: int| 0 <= i < p.len() ==> is_digit_byte(#[trigger] p[i])
}

/// Whether the occurrence of `pat` at bytes `[s, e)` of `hay` stands on its
/// own. A number must be preceded by the start, `"`, `:`, `/` or white space
/// and followed by the end, `"`, `,`, `/`, `}`, `]` or white space. Any
/// other value that starts (ends) with a word byte must not be preceded
/// (followed) by a word byte.
pub open spec fn boundary_accepts(pat: Seq<u8>, hay: Seq<u8>, s: int, e: int) -> bool {
    if pure_numeric(pat) {
        &&& (s == 0 || numeric_prefix_byte(hay[s - 1]))
        &&& (e >= hay.len() || numeric_suffix_byte(hay[e]))
    } else {
        &&& (!word_byte(pat[0]) || s == 0 || !word_byte(hay[s - 1]))
        &&& (!word_byte(pat.last()) || e >= hay.len() || !word_byte(hay[e]))
    }
}

/// The occurrence of `pat` at bytes `[s, e)` of `hay` may be replaced: it
/// stands on its own and no byte of it belongs to a member name (names are
/// never rewritten).
pub open spec fn accepted_at(pat: Seq<u8>, hay: Seq<u8>, s: int, e: int) -> bool {
    &&& boundary_accepts(pat, hay, s, e)
    &&& outside_member_names(hay, s, e)
}

/// Pattern `p` occurs at byte `i` of `hay` and may be replaced there.
pub open spec fn valid_at(pats: Seq<Seq<u8>>, hay: Seq<u8>, i: int, p: int) -> bool {
    &&& occurs_in(pats, hay, 0, hay.len() as int, i, p)
    &&& accepted_at(pats[p], hay, i, i + pats[p].len())
}

/// `m = (start, end, pattern)` is the replacement to make at or after byte
/// `from`: the leftmost start at or after `from` where some pattern stands
/// on its own, with the longest such pattern at that start.
pub open spec fn is_first_valid(pats: Seq<Seq<u8>>, hay: Seq<u8>, from: int, m: (usize, usize, usize)) -> bool {
    &&& from <= m.0
    &&& valid_at(pats, hay, m.0 as int, m.2 as int)
    &&& m.1 == m.0 + pats[m.2 as int].len()
    &&& forall|i: int, p: int|
        from <= i && #[trigger] valid_at(pats, hay, i, p) ==> m.0 < i || (m.0 == i
            && pats[p].len() <= pats[m.2 as int].len())
}

/// The next replacement at or after byte `from` (see [`is_first_valid`]),
/// if any pattern stands on its own there.
pub open spec fn find_from(pats: Seq<Seq<u8>>, hay: Seq<u8>, from: nat) -> Option<
    (usize, usize, usize),
> {
    if exists|m: (usize, usize, usize)| is_first_valid(pats, hay, from as int, m) {
        Some(choose|m: (usize, usize, usize)| is_first_valid(pats, hay, from as int, m))
    } else {
        None
    }
}

/// The bytes of the text from `cursor` on, each accepted occurrence of
/// pattern `i` replaced by the encoding of `tos[i]`.
pub open spec fn replaced_from(
    pats: Seq<Seq<u8>>,
    tos: Seq<Seq<char>>,
    hay: Seq<u8>,
    cursor: nat,
) -> Seq<u8>
    decreases hay.len() - cursor,
{
    match find_from(pats, hay, cursor) {
        // With non-empty patterns a found occurrence always satisfies the
        // test (see `lemma_found_stands_alone`); it keeps the definition total.
        Some(m) => if cursor <= m.0 < m.1 <= hay.len() {
            hay.subrange(cursor as int, m.0 as int) + encode_utf8(tos[m.2 as int]) + replaced_from(
                pats,
                tos,
                hay,
                m.1 as nat,
            )
        } else {
            hay.subrange(cursor as int, hay.len() as int)
        },
        None => hay.subrange(cursor as int, hay.len() as int),
    }
}

/// With distinct patterns there is at most one next replacement.
proof fn lemma_first_valid_unique(
    pats: Seq<Seq<u8>>,
    hay: Seq<u8>,
    from: int,
    m1: (usize, usize, usize),
    m2: (usize, usize, usize),
)
    requires
        forall|i: int, j: int| 0 <= i < j < pats.len() ==> #[trigger] pats[i] != #[trigger] pats[j],
        is_first_valid(pats, hay, from, m1),
        is_first_valid(pats, hay, from, m2),
    ensures
        m1 == m2,
{
    assert(valid_at(pats, hay, m1.0 as int, m1.2 as int));
    assert(valid_at(pats, hay, m2.0 as int, m2.2 as int));
    assert(pats[m1.2 as int] == pats[m2.2 as int]);
    if m1.2 < m2.2 {
        assert(pats[m1.2 as int] != pats[m2.2 as int]);
    } else if m2.2 < m1.2 {
        assert(pats[m2.2 as int] != pats[m1.2 as int]);
    }
}

/// Every replacement found stands on its own: the pattern occurs there,
/// passes the boundary rule and lies outside every member name, so a value
/// inside a longer number or word, or in the name of a member, is never
/// replaced.
pub proof fn lemma_found_stands_alone(pats: Seq<Seq<u8>>, hay: Seq<u8>, from: nat)
    ensures
        find_from(pats, hay, from) matches Some(m) ==> {
            &&& from <= m.0
            &&& m.2 < pats.len()
            &&& m.1 == m.0 + pats[m.2 as int].len()
            &&& m.1 <= hay.len()
            &&& hay.subrange(m.0 as int, m.1 as int) == pats[m.2 as int]
            &&& boundary_accepts(pats[m.2 as int], hay, m.0 as int, m.1 as int)
            &&& outside_member_names(hay, m.0 as int, m.1 as int)
        },
{
}

/// A text in which no searched value occurs is left as it is.
pub proof fn lemma_replace_without_occurrence(pats: Seq<Seq<u8>>, tos: Seq<Seq<char>>, hay: Seq<u8>)
    requires
        forall|i: int, p: int| !#[trigger] occurs_in(pats, hay, 0, hay.len() as int, i, p),
    ensures
        replaced_from(pats, tos, hay, 0) == hay,
{
    assert(!exists|m: (usize, usize, usize)| is_first_valid(pats, hay, 0, m));
    assert(hay.subrange(0, hay.len() as int) =~= hay);
}

/// Replacing every searched value by itself leaves the text as it is.
pub proof fn lemma_replace_by_itself(pats: Seq<Seq<u8>>, tos: Seq<Seq<char>>, hay: Seq<u8>, cursor: nat)
    requires
        tos.len() == pats.len(),
        forall|i: int| 0 <= i < pats.len() ==> encode_utf8(#[trigger] tos[i]) == pats[i],
        cursor <= hay.len(),
    ensures
        replaced_from(pats, tos, hay, cursor) == hay.subrange(cursor as int, hay.len() as int),
    decreases hay.len() - cursor,
{
    lemma_found_stands_alone(pats, hay, cursor);
    match find_from(pats, hay, cursor) {
        Some(m) => {
            if cursor <= m.0 < m.1 <= hay.len() {
                lemma_replace_by_itself(pats, tos, hay, m.1 as nat);
                assert(encode_utf8(tos[m.2 as int]) == hay.subrange(m.0 as int, m.1 as int));
                assert(hay.subrange(cursor as int, m.0 as int) + hay.subrange(m.0 as int, m.1 as int)
                    + hay.subrange(m.1 as int, hay.len() as int) =~= hay.subrange(
                    cursor as int,
                    hay.len() as int,
                ));
            }
        },
        None => {},
    }
}

/// The table pairs that are searched for: those with a non-empty sensitive
/// value, in table order.
pub open spec fn searched(e: Seq<(Seq<char>, Seq<char>)>) -> Seq<(Seq<char>, Seq<char>)>
    decreases e.len(),
{
    if e.len() == 0 {
        e
    } else {
        searched(e.drop_last()) + if e.last().0.len() > 0 {
            seq![e.last()]
        } else {
            Seq::empty()
        }
    }
}

/// The byte patterns searched for with a table.
pub open spec fn searched_patterns(e: Seq<(Seq<char>, Seq<char>)>) -> Seq<Seq<u8>> {
    searched(e).map_values(|p: (Seq<char>, Seq<char>)| encode_utf8(p.0))
}

/// The replacements of the searched patterns, pattern by pattern.
pub open spec fn searched_replacements(e: Seq<(Seq<char>, Seq<char>)>) -> Seq<Seq<char>> {
    searched(e).map_values(|p: (Seq<char>, Seq<char>)| p.1)
}

/// The text `text` with the table's values replaced (see [`replaced_from`]).
pub open spec fn replaced_text(e: Seq<(Seq<char>, Seq<char>)>, text: Seq<char>) -> Seq<u8> {
    replaced_from(searched_patterns(e), searched_replacements(e), encode_utf8(text), 0)
}

proof fn lemma_searched(e: Seq<(Seq<char>, Seq<char>)>)
    requires
        distinct_keys(e),
    ensures
        distinct_keys(searched(e)),
        forall|i: int| 0 <= i < searched(e).len() ==> #[trigger] searched(e)[i].0.len() > 0,
        forall|i: int| 0 <= i < searched(e).len() ==> e.contains(#[trigger] searched(e)[i]),
    decreases e.len(),
{
    if e.len() > 0 {
        let p = e.drop_last();
        assert(distinct_keys(p)) by {
            assert forall|a: int, b: int| 0 <= a < b < p.len() implies #[trigger] p[a].0
                != #[trigger] p[b].0 by {
                assert(e[a].0 != e[b].0);
            }
        }
        lemma_searched(p);
        let sp = searched(p);
        let s = searched(e);
        assert forall|i: int| 0 <= i < s.len() implies e.contains(#[trigger] s[i]) by {
            if i < sp.len() {
                assert(p.contains(sp[i]));
                let j = choose|j: int| 0 <= j < p.len() && p[j] == sp[i];
                assert(e[j] == p[j]);
            } else {
                assert(e[e.len() - 1] == s[i]);
            }
        }
        assert forall|a: int, b: int| 0 <= a < b < s.len() implies #[trigger] s[a].0
            != #[trigger] s[b].0 by {
            if b >= sp.len() {
                assert(s[a] == sp[a]);
                assert(p.contains(sp[a]));
                let j = choose|j: int| 0 <= j < p.len() && p[j] == sp[a];
                assert(e[j] == sp[a]);
                assert(e[j].0 != e[e.len() - 1].0);
            } else {
                assert(s[a] == sp[a]);
                assert(s[b] == sp[b]);
            }
        }
    }
}

/// Whether a value is made of ASCII digits only (and is not empty).
pub fn is_pure_numeric(s: &str) -> (r: bool)
    ensures
        r == pure_numeric(encode_utf8(s@)),
{
    let bytes = s.as_bytes();
    if bytes.len() == 0 {
        return false;
    }
    let mut i: usize = 0;
    while i < bytes.len()
        invariant
            bytes@ == encode_utf8(s@),
            i <= bytes@.len(),
            forall|j: int| 0 <= j < i ==> is_digit_byte(#[trigger] bytes@[j]),
        decreases bytes@.len() - i,
    {
        if !(bytes[i] >= 0x30 && bytes[i] <= 0x39) {
            return false;
        }
        i = i + 1;
    }
    true
}

fn is_space(b: u8) -> (r: bool)
    ensures
        r == is_space_byte(b),
{
    b == 0x20 || b == 0x09 || b == 0x0a || b == 0x0c || b == 0x0d
}

/// Whether `b` may stand right before a replaced number.
pub fn is_numeric_boundary_prefix(b: u8) -> (r: bool)
    ensures
        r == numeric_prefix_byte(b),
{
    b == 0x22 || b == 0x3a || b == 0x2f || is_space(b)
}

/// Whether `b` may stand right after a replaced number.
pub fn is_numeric_boundary_suffix(b: u8) -> (r: bool)
    ensures
        r == numeric_suffix_byte(b),
{
    b == 0x22 || b == 0x2c || b == 0x2f || b == 0x7d || b == 0x5d || is_space(b)
}

/// Whether `b` is a byte of a word (ASCII letter or digit, or `_`).
pub fn is_word_char(b: u8) -> (r: bool)
    ensures
        r == word_byte(b),
{
    (b >= 0x30 && b <= 0x39) || (b >= 0x41 && b <= 0x5a) || (b >= 0x61 && b <= 0x7a) || b == 0x5f
}

/// How to judge and replace one searched value.
pub struct ReplMeta {
    to: String,
    is_numeric: bool,
    starts_word: bool,
    ends_word: bool,
}

/// Why a replacer could not be built.
#[derive(Debug)]
pub enum ReplacerError {
    /// The search automaton could not be built.
    Automaton(BuildError),
}

/// A single-pass replacer for a table of values: one automaton over all the
/// values, reused for every text.
pub struct Replacer {
    ac: AhoCorasick,
    meta: Vec<ReplMeta>,
}

impl Replacer {
    #[verifier::type_invariant]
    spec fn well_formed(self) -> bool {
        let pats = automaton_patterns(self.ac);
        &&& automaton_leftmost_longest(self.ac)
        &&& pats.len() == self.meta@.len()
        &&& forall|i: int| 0 <= i < pats.len() ==> #[trigger] pats[i].len() > 0
        &&& forall|i: int| 0 <= i < pats.len() ==> valid_utf8(#[trigger] pats[i])
        &&& forall|i: int, j: int| 0 <= i < j < pats.len() ==> #[trigger] pats[i] != #[trigger] pats[j]
        &&& forall|i: int|
            0 <= i < pats.len() ==> {
                &&& (#[trigger] self.meta@[i]).is_numeric == pure_numeric(pats[i])
                &&& self.meta@[i].starts_word == word_byte(pats[i][0])
                &&& self.meta@[i].ends_word == word_byte(pats[i].last())
            }
    }

    /// The byte patterns searched for, by pattern number.
    pub closed spec fn patterns(self) -> Seq<Seq<u8>> {
        automaton_patterns(self.ac)
    }

    /// The replacement of each pattern, by pattern number.
    pub closed spec fn replacements(self) -> Seq<Seq<char>> {
        self.meta@.map_values(|m: ReplMeta| m.to@)
    }

    /// Builds a replacer for a table: every pair with a non-empty sensitive
    /// value is searched for (empty values would match everywhere). Fails
    /// exactly when the search automaton cannot be built over those values
    /// (never when there are none).
    pub fn new(mapping: &Mapping) -> (r: Result<Replacer, ReplacerError>)
        ensures
            r is Ok <==> automaton_builds(searched_patterns(mapping.entries())),
            searched_patterns(mapping.entries()).len() == 0 ==> r is Ok,
            r matches Ok(rep) ==> {
                &&& rep.patterns() == searched_patterns(mapping.entries())
                &&& rep.replacements() == searched_replacements(mapping.entries())
            },
    {
        let pairs = mapping.pairs();
        let ghost e = mapping.entries();
        proof {
            lemma_searched(e);
        }
        let mut froms: Vec<String> = Vec::new();
        let mut meta: Vec<ReplMeta> = Vec::new();
        for i in 0..pairs.len()
            invariant
                crate::mapping::pair_views(pairs@) == e,
                distinct_keys(e),
                froms@.map_values(|s: String| s@) == searched(e.take(i as int)).map_values(
                    |p: (Seq<char>, Seq<char>)| p.0,
                ),
                meta@.map_values(|m: ReplMeta| m.to@) == searched(e.take(i as int)).map_values(
                    |p: (Seq<char>, Seq<char>)| p.1,
                ),
                meta@.len() == froms@.len(),
                forall|j: int|
                    0 <= j < froms@.len() ==> {
                        let pat = encode_utf8((#[trigger] froms@[j])@);
                        &&& pat.len() > 0
                        &&& meta@[j].is_numeric == pure_numeric(pat)
                        &&& meta@[j].starts_word == word_byte(pat[0])
                        &&& meta@[j].ends_word == word_byte(pat.last())
                    },
        {
            let from = &pairs[i].0;
            let to = &pairs[i].1;
            let ghost before_f = froms@;
            let ghost before_m = meta@;
            assert(e.take(i + 1).drop_last() =~= e.take(i as int));
            assert(e.take(i + 1).last() == e[i as int]);
            assert(e[i as int] == (from@, to@));
            if !from.as_str().is_empty() {
                let bytes = from.as_str().as_bytes();
                proof {
                    lemma_encode_nonempty(from@);
                }
                let m = ReplMeta {
                    to: to.clone(),
                    is_numeric: is_pure_numeric(from.as_str()),
                    starts_word: is_word_char(bytes[0]),
                    ends_word: is_word_char(bytes[bytes.len() - 1]),
                };
                meta.push(m);
                froms.push(from.clone());
                proof {
                    assert(froms@.map_values(|s: String| s@) =~= before_f.map_values(
                        |s: String| s@,
                    ).push(from@));
                    assert(meta@.map_values(|m: ReplMeta| m.to@) =~= before_m.map_values(
                        |m: ReplMeta| m.to@,
                    ).push(to@));
                    assert(searched(e.take(i + 1)) =~= searched(e.take(i as int)).push(e[i as int]));
                    assert(searched(e.take(i + 1)).map_values(|p: (Seq<char>, Seq<char>)| p.0)
                        =~= searched(e.take(i as int)).map_values(
                        |p: (Seq<char>, Seq<char>)| p.0,
                    ).push(from@));
                    assert(searched(e.take(i + 1)).map_values(|p: (Seq<char>, Seq<char>)| p.1)
                        =~= searched(e.take(i as int)).map_values(
                        |p: (Seq<char>, Seq<char>)| p.1,
                    ).push(to@));
                    assert forall|j: int| 0 <= j < froms@.len() implies {
                        let pat = encode_utf8((#[trigger] froms@[j])@);
                        &&& pat.len() > 0
                        &&& meta@[j].is_numeric == pure_numeric(pat)
                        &&& meta@[j].starts_word == word_byte(pat[0])
                        &&& meta@[j].ends_word == word_byte(pat.last())
                    } by {
                        if j < before_f.len() {
                            assert(froms@[j] == before_f[j]);
                            assert(meta@[j] == before_m[j]);
                        }
                    }
                }
            } else {
                proof {
                    assert(searched(e.take(i + 1)) =~= searched(e.take(i as int)));
                }
            }
        }
        assert(e.take(pairs@.len() as int) =~= e);
        proof {
            let s = searched(e);
            let enc = froms@.map_values(|p: String| encode_utf8(p@));
            assert(enc =~= searched_patterns(e)) by {
                assert forall|j: int| 0 <= j < enc.len() implies enc[j] == searched_patterns(e)[j] by {
                    assert(froms@.map_values(|s: String| s@)[j] == froms@[j]@);
                    assert(s.map_values(|p: (Seq<char>, Seq<char>)| p.0)[j] == s[j].0);
                }
            }
        }
        match build_leftmost_longest(&froms) {
            Ok(ac) => {
                proof {
                    let pats = automaton_patterns(ac);
                    let s = searched(e);
                    assert forall|a: int, b: int| 0 <= a < b < pats.len() implies #[trigger] pats[a]
                        != #[trigger] pats[b] by {
                        assert(s[a].0 != s[b].0);
                        if pats[a] == pats[b] {
                            lemma_encode_injective(s[a].0, s[b].0);
                        }
                    }
                    assert forall|j: int| 0 <= j < pats.len() implies valid_utf8(#[trigger] pats[j]) by {
                        encode_utf8_valid_utf8(froms@[j]@);
                    }
                    assert(meta@.map_values(|m: ReplMeta| m.to@) =~= searched_replacements(e));
                }
                Ok(Replacer { ac, meta })
            },
            Err(err) => Err(ReplacerError::Automaton(err)),
        }
    }

    /// Whether the occurrence of pattern `pid` at bytes `[start, end)` of
    /// `bytes` stands on its own (see [`boundary_accepts`]).
    pub fn boundary_ok(&self, pid: usize, bytes: &[u8], start: usize, end: usize) -> (r: bool)
        requires
            pid < self.patterns().len(),
            start <= bytes@.len(),
        ensures
            r == boundary_accepts(self.patterns()[pid as int], bytes@, start as int, end as int),
    {
        proof {
            use_type_invariant(self);
        }
        let m = &self.meta[pid];
        if m.is_numeric {
            let prefix_ok = start == 0 || is_numeric_boundary_prefix(bytes[start - 1]);
            let suffix_ok = end >= bytes.len() || is_numeric_boundary_suffix(bytes[end]);
            prefix_ok && suffix_ok
        } else {
            let prefix_ok = !m.starts_word || start == 0 || !is_word_char(bytes[start - 1]);
            let suffix_ok = !m.ends_word || end >= bytes.len() || !is_word_char(bytes[end]);
            prefix_ok && suffix_ok
        }
    }

    /// The next replacement at or after byte `from` of `text` (whose bytes
    /// are `bytes`), as `(start, end, pattern)`: the leftmost start where some
    /// searched value stands on its own outside the member names, with the
    /// longest such value there (see [`is_first_valid`]); `None` when there
    /// is none.
    pub fn find_replacement(&self, text: &str, bytes: &[u8], from: usize) -> (r: Option<
        (usize, usize, usize),
    >)
        requires
            bytes@ == encode_utf8(text@),
        ensures
            r == find_from(self.patterns(), bytes@, from as nat),
            r is None <==> !exists|i: int, p: int|
                from <= i && #[trigger] valid_at(self.patterns(), bytes@, i, p),
            r matches Some(m) ==> {
                &&& from <= m.0 < m.1 <= bytes@.len()
                &&& m.2 < self.patterns().len()
                &&& bytes@.subrange(m.0 as int, m.1 as int) == self.patterns()[m.2 as int]
                &&& boundary_accepts(self.patterns()[m.2 as int], bytes@, m.0 as int, m.1 as int)
                &&& outside_member_names(bytes@, m.0 as int, m.1 as int)
            },
    {
        let mask = member_name_mask(bytes);
        self.find_replacement_in(text, bytes, &mask, from)
    }

    /// [`Replacer::find_replacement`], with the member-name mask of the text
    /// computed once by the caller.
    fn find_replacement_in(&self, text: &str, bytes: &[u8], mask: &Vec<bool>, from: usize) -> (r: Option<
        (usize, usize, usize),
    >)
        requires
            bytes@ == encode_utf8(text@),
            mask@.len() == bytes@.len(),
            forall|k: int| 0 <= k < bytes@.len() ==> #[trigger] mask@[k] == in_member_name(bytes@, k),
        ensures
            r == find_from(self.patterns(), bytes@, from as nat),
            r is None <==> !exists|i: int, p: int|
                from <= i && #[trigger] valid_at(self.patterns(), bytes@, i, p),
            r matches Some(m) ==> {
                &&& from <= m.0 < m.1 <= bytes@.len()
                &&& m.2 < self.patterns().len()
                &&& bytes@.subrange(m.0 as int, m.1 as int) == self.patterns()[m.2 as int]
                &&& boundary_accepts(self.patterns()[m.2 as int], bytes@, m.0 as int, m.1 as int)
                &&& outside_member_names(bytes@, m.0 as int, m.1 as int)
            },
    {
        proof {
            use_type_invariant(self);
        }
        let ghost pats = self.patterns();
        let ghost hay = bytes@;
        let len = bytes.len();
        let mut pos = from;
        while pos < len
            invariant
                len == hay.len(),
                hay == bytes@,
                hay == encode_utf8(text@),
                pats == self.patterns(),
                mask@.len() == len,
                forall|k: int| 0 <= k < len ==> #[trigger] mask@[k] == in_member_name(hay, k),
                pats == automaton_patterns(self.ac),
                automaton_leftmost_longest(self.ac),
                forall|i: int| 0 <= i < pats.len() ==> #[trigger] pats[i].len() > 0,
                forall|i: int, j: int|
                    0 <= i < j < pats.len() ==> #[trigger] pats[i] != #[trigger] pats[j],
                from <= pos,
                forall|i: int, p: int| from <= i < pos ==> !#[trigger] valid_at(pats, hay, i, p),
            decreases len - pos,
        {
            let first = match find_in_span(&self.ac, text, pos, len) {
                Some(m) => m,
                None => {
                    proof {
                        assert forall|i: int, p: int| from <= i implies !#[trigger] valid_at(
                            pats,
                            hay,
                            i,
                            p,
                        ) by {
                            if i >= pos && valid_at(pats, hay, i, p) {
                                assert(occurs_in(pats, hay, pos as int, len as int, i, p));
                            }
                        }
                        assert(!exists|m: (usize, usize, usize)|
                            is_first_valid(pats, hay, from as int, m));
                    }
                    return None;
                },
            };
            let s = first.0;
            proof {
                assert forall|i: int, p: int| from <= i < s implies !#[trigger] valid_at(
                    pats,
                    hay,
                    i,
                    p,
                ) by {
                    if i >= pos && valid_at(pats, hay, i, p) {
                        assert(occurs_in(pats, hay, pos as int, len as int, i, p));
                    }
                }
                assert(pats[first.2 as int].len() > 0);
                assert forall|i: int, p: int| #[trigger]
                    occurs_in(pats, hay, s as int, len as int, i, p) implies first.0 < i || (first.0
                    == i && pats[p].len() <= pats[first.2 as int].len()) by {
                    assert(occurs_in(pats, hay, pos as int, len as int, i, p));
                }
                assert(is_leftmost_longest(pats, hay, s as int, len as int, first));
            }
            let mut win = len;
            let mut cand: Option<(usize, usize, usize)> = Some(first);
            loop
                invariant
                    len == hay.len(),
                    hay == bytes@,
                    hay == encode_utf8(text@),
                    pats == self.patterns(),
                    mask@.len() == len,
                    forall|k: int| 0 <= k < len ==> #[trigger] mask@[k] == in_member_name(hay, k),
                    pats == automaton_patterns(self.ac),
                    automaton_leftmost_longest(self.ac),
                    forall|i: int| 0 <= i < pats.len() ==> #[trigger] pats[i].len() > 0,
                    forall|i: int, j: int|
                        0 <= i < j < pats.len() ==> #[trigger] pats[i] != #[trigger] pats[j],
                    from <= pos <= s < win <= len,
                    forall|i: int, p: int| from <= i < s ==> !#[trigger] valid_at(pats, hay, i, p),
                    forall|p: int|
                        #[trigger] occurs_in(pats, hay, 0, len as int, s as int, p) && s + pats[p].len()
                            > win ==> !accepted_at(
                            pats[p],
                            hay,
                            s as int,
                            s + pats[p].len(),
                        ),
                    match cand {
                        Some(c) => is_leftmost_longest(pats, hay, s as int, win as int, c),
                        None => !exists|i: int, p: int| occurs_in(pats, hay, s as int, win as int, i, p),
                    },
                ensures
                    forall|p: int| !#[trigger] valid_at(pats, hay, s as int, p),
                decreases win,
            {
                match cand {
                    None => {
                        proof {
                            assert forall|p: int| !#[trigger] valid_at(pats, hay, s as int, p) by {
                                if valid_at(pats, hay, s as int, p) && s + pats[p].len() <= win {
                                    assert(occurs_in(pats, hay, s as int, win as int, s as int, p));
                                }
                            }
                        }
                        break ;
                    },
                    Some(c) => {
                        if c.0 != s {
                            proof {
                                assert forall|p: int| !#[trigger] valid_at(pats, hay, s as int, p) by {
                                    if valid_at(pats, hay, s as int, p) && s + pats[p].len() <= win {
                                        assert(occurs_in(pats, hay, s as int, win as int, s as int, p));
                                    }
                                }
                            }
                            break ;
                        }
                        proof {
                            assert(pats[c.2 as int].len() > 0);
                        }
                        let bounded = self.boundary_ok(c.2, bytes, c.0, c.1);
                        let ok = bounded && outside_names(mask, c.0, c.1);
                        if ok {
                            proof {
                                assert forall|k: int| c.0 <= k < c.1 implies !#[trigger] in_member_name(
                                    hay,
                                    k,
                                ) by {
                                    assert(!mask@[k]);
                                }
                                assert(valid_at(pats, hay, s as int, c.2 as int));
                                assert forall|i: int, p: int|
                                    from <= i && #[trigger] valid_at(pats, hay, i, p) implies c.0 < i
                                    || (c.0 == i && pats[p].len() <= pats[c.2 as int].len()) by {
                                    if i == s && s + pats[p].len() <= win {
                                        assert(occurs_in(pats, hay, s as int, win as int, i, p));
                                    }
                                }
                                assert(is_first_valid(pats, hay, from as int, c));
                                let d = choose|m: (usize, usize, usize)|
                                    is_first_valid(pats, hay, from as int, m);
                                lemma_first_valid_unique(pats, hay, from as int, c, d);
                            }
                            return Some(c);
                        }
                        let ghost old_win = win;
                        proof {
                            assert(!accepted_at(pats[c.2 as int], hay, c.0 as int, c.1 as int)) by {
                                if bounded {
                                    let k = choose|k: int| c.0 <= k < c.1 && #[trigger] mask@[k];
                                    assert(in_member_name(hay, k));
                                }
                            }
                            assert forall|p: int|
                                #[trigger] occurs_in(pats, hay, 0, len as int, s as int, p) && s
                                    + pats[p].len() > c.1 - 1 implies !accepted_at(
                                pats[p],
                                hay,
                                s as int,
                                s + pats[p].len(),
                            ) by {
                                if s + pats[p].len() <= old_win {
                                    assert(occurs_in(pats, hay, s as int, old_win as int, s as int, p));
                                    assert(pats[p] == hay.subrange(s as int, c.1 as int));
                                }
                            }
                        }
                        if c.1 - 1 <= s {
                            proof {
                                assert forall|p: int| !#[trigger] valid_at(pats, hay, s as int, p) by {
                                    if valid_at(pats, hay, s as int, p) {
                                        assert(occurs_in(pats, hay, 0, len as int, s as int, p));
                                    }
                                }
                            }
                            break ;
                        }
                        win = c.1 - 1;
                        cand = find_in_span(&self.ac, text, s, win);
                    },
                }
            }
            pos = s + 1;
        }
        proof {
            assert forall|i: int, p: int| from <= i implies !#[trigger] valid_at(pats, hay, i, p) by {
                if i >= pos && valid_at(pats, hay, i, p) {
                    assert(pats[p].len() > 0);
                }
            }
            assert(!exists|m: (usize, usize, usize)| is_first_valid(pats, hay, from as int, m));
        }
        None
    }

    /// The text with every accepted occurrence of a searched value replaced
    /// by that value's replacement, scanning left to right and resuming
    /// after each replacement; everything else, the names of object members
    /// among it, is copied unchanged.
    pub fn replace(&self, text: &str) -> (r: String)
        ensures
            encode_utf8(r@) == replaced_from(
                self.patterns(),
                self.replacements(),
                encode_utf8(text@),
                0,
            ),
    {
        proof {
            use_type_invariant(self);
            encode_utf8_valid_utf8(text@);
            vstd::utf8::is_char_boundary_start_end_of_seq(encode_utf8(text@));
        }
        let ghost pats = self.patterns();
        let ghost tos = self.replacements();
        let bytes = text.as_bytes();
        let ghost hay = bytes@;
        let mask = member_name_mask(bytes);
        let mut result = String::new();
        let mut cursor: usize = 0;
        loop
            invariant
                hay == bytes@,
                mask@.len() == hay.len(),
                forall|k: int| 0 <= k < hay.len() ==> #[trigger] mask@[k] == in_member_name(hay, k),
                hay == encode_utf8(text@),
                valid_utf8(hay),
                pats == self.patterns(),
                tos == self.replacements(),
                cursor <= hay.len(),
                is_char_boundary(hay, cursor as int),
                encode_utf8(result@) + replaced_from(pats, tos, hay, cursor as nat)
                    == replaced_from(pats, tos, hay, 0),
            ensures
                find_from(pats, hay, cursor as nat) == None::<(usize, usize, usize)>,
            decreases hay.len() - cursor,
        {
            match self.find_replacement_in(text, bytes, &mask, cursor) {
                Some((start, end, pid)) => {
                    proof {
                        use_type_invariant(self);
                        lemma_match_boundaries(hay, pats[pid as int], start as int);
                    }
                    let ghost before = result@;
                    let piece = substring(text, cursor, start);
                    result.append(piece);
                    let to = self.meta[pid].to.as_str();
                    result.append(to);
                    proof {
                        lemma_encode_concat(before, piece@);
                        lemma_encode_concat(before + piece@, to@);
                        assert(tos[pid as int] == to@);
                        assert(replaced_from(pats, tos, hay, cursor as nat) == hay.subrange(
                            cursor as int,
                            start as int,
                        ) + encode_utf8(tos[pid as int]) + replaced_from(pats, tos, hay, end as nat));
                        assert(encode_utf8(result@) + replaced_from(pats, tos, hay, end as nat)
                            =~= encode_utf8(before) + replaced_from(pats, tos, hay, cursor as nat));
                    }
                    cursor = end;
                },
                None => {
                    break ;
                },
            }
        }
        let ghost before = result@;
        proof {
            vstd::utf8::is_char_boundary_start_end_of_seq(hay);
        }
        let rest = substring(text, cursor, bytes.len());
        result.append(rest);
        proof {
            lemma_encode_concat(before, rest@);
            assert(hay.subrange(cursor as int, hay.len() as int) == replaced_from(
                pats,
                tos,
                hay,
                cursor as nat,
            ));
        }
        result
    }
}

/// Replaces the table's values in a document's text (see
/// [`Replacer::replace`]); when no replacer can be built, the text is
/// returned unchanged.
pub fn obfuscate_jsontxt(json_txt: &str, mapping: &Mapping) -> (r: String)
    ensures
        automaton_builds(searched_patterns(mapping.entries())) ==> encode_utf8(r@)
            == replaced_text(mapping.entries(), json_txt@),
        !automaton_builds(searched_patterns(mapping.entries())) ==> r@ == json_txt@,
{
    match Replacer::new(mapping) {
        Ok(replacer) => replacer.replace(json_txt),
        Err(_) => json_txt.to_owned(),
    }
}

/// A table that gives every value itself leaves every text as it is.
pub proof fn lemma_identity_table_keeps_text(e: Seq<(Seq<char>, Seq<char>)>, text: Seq<char>)
    requires
        distinct_keys(e),
        forall|i: int| 0 <= i < e.len() ==> (#[trigger] e[i]).0 == e[i].1,
    ensures
        replaced_text(e, text) == encode_utf8(text),
{
    lemma_searched(e);
    let pats = searched_patterns(e);
    let tos = searched_replacements(e);
    assert forall|i: int| 0 <= i < pats.len() implies encode_utf8(#[trigger] tos[i]) == pats[i] by {
        assert(e.contains(searched(e)[i]));
    }
    lemma_replace_by_itself(pats, tos, encode_utf8(text), 0);
    assert(encode_utf8(text).subrange(0, encode_utf8(text).len() as int) =~= encode_utf8(text));
}

/// A second run changes nothing. When the values of a second run are the
/// replacements that the first table (built from distinct `values`) gave,
/// listed in the order of strings, the second table gives each of them
/// itself, and replacing with it leaves any text, the first run's output
/// among them, as it is.
pub proof fn lemma_second_run_keeps_text(
    values: Seq<Seq<char>>,
    names: Seq<Seq<char>>,
    second: Mapping,
    text: Seq<char>,
)
    requires
        values.no_duplicates(),
        strictly_sorted(names),
        forall|x: Seq<char>|
            #[trigger] names.to_set().contains(x) <==> exists|v: Seq<char>|
                assign_all(values).0.dom().contains(v) && #[trigger] assign_all(values).0[v] == x,
        second@ == assign_all(names).0,
        distinct_keys(second.entries()),
    ensures
        second@.dom() == names.to_set(),
        forall|i: int| 0 <= i < names.len() ==> #[trigger] second@[names[i]] == names[i],
        replaced_text(second.entries(), text) == encode_utf8(text),
{
    lemma_second_table_identity(values, names);
    lemma_view_is_pairs(second);
    let e = second.entries();
    lemma_pairs_to_map_lookup(e);
    assert forall|i: int| 0 <= i < e.len() implies (#[trigger] e[i]).0 == e[i].1 by {
        assert(second@.dom().contains(e[i].0));
        let h = choose|h: int| 0 <= h < names.len() && names[h] == e[i].0;
        assert(second@[names[h]] == names[h]);
    }
    lemma_identity_table_keeps_text(e, text);
}

/// The boundary rule, byte by byte. An all-digit value is accepted at
/// `[s, e)` exactly when it starts the text or follows `"`, `:`, `/` or
/// ASCII white space, and ends the text or is followed by `"`, `,`, `/`,
/// `}`, `]` or ASCII white space (so a digit next to it blocks it). Any other
/// value is accepted exactly when no word byte (ASCII letter or digit, `_`)
/// stands right before it if it starts with a word byte, and none right
/// after it if it ends with one.
pub proof fn lemma_boundary_rule(pat: Seq<u8>, hay: Seq<u8>, s: int, e: int)
    requires
        pat.len() > 0,
    ensures
        (forall|i: int| 0 <= i < pat.len() ==> 0x30 <= #[trigger] pat[i] <= 0x39) ==> (
        boundary_accepts(pat, hay, s, e) <==> {
            &&& (s == 0 || hay[s - 1] == 0x22 || hay[s - 1] == 0x3a || hay[s - 1] == 0x2f
                || hay[s - 1] == 0x20 || hay[s - 1] == 0x09 || hay[s - 1] == 0x0a || hay[s - 1]
                == 0x0c || hay[s - 1] == 0x0d)
            &&& (e >= hay.len() || hay[e] == 0x22 || hay[e] == 0x2c || hay[e] == 0x2f || hay[e]
                == 0x7d || hay[e] == 0x5d || hay[e] == 0x20 || hay[e] == 0x09 || hay[e] == 0x0a
                || hay[e] == 0x0c || hay[e] == 0x0d)
        }),
        !(forall|i: int| 0 <= i < pat.len() ==> 0x30 <= #[trigger] pat[i] <= 0x39) ==> (
        boundary_accepts(pat, hay, s, e) <==> {
            &&& ((0x30 <= pat[0] <= 0x39 || 0x41 <= pat[0] <= 0x5a || 0x61 <= pat[0] <= 0x7a
                || pat[0] == 0x5f) && s != 0 ==> !(0x30 <= hay[s - 1] <= 0x39 || 0x41 <= hay[s
                - 1] <= 0x5a || 0x61 <= hay[s - 1] <= 0x7a || hay[s - 1] == 0x5f))
            &&& ((0x30 <= pat.last() <= 0x39 || 0x41 <= pat.last() <= 0x5a || 0x61 <= pat.last()
                <= 0x7a || pat.last() == 0x5f) && e < hay.len() ==> !(0x30 <= hay[e] <= 0x39
                || 0x41 <= hay[e] <= 0x5a || 0x61 <= hay[e] <= 0x7a || hay[e] == 0x5f))
        }),
{
}

/// A replacement of an all-digit value is only ever made on a whole
/// number: the byte before it is none, `"`, `:`, `/` or ASCII white space
/// (never a digit), and the byte after it is none, `"`, `,`, `/`, `}`, `]`
/// or ASCII white space.
pub proof fn lemma_found_number_is_whole(pats: Seq<Seq<u8>>, hay: Seq<u8>, from: nat)
    ensures
        find_from(pats, hay, from) matches Some(m) ==> (pats[m.2 as int].len() > 0 && (forall|
            i: int,
        | 0 <= i < pats[m.2 as int].len() ==> 0x30 <= #[trigger] pats[m.2 as int][i] <= 0x39))
            ==> {
            &&& (m.0 == 0 || hay[m.0 - 1] == 0x22 || hay[m.0 - 1] == 0x3a || hay[m.0 - 1] == 0x2f
                || hay[m.0 - 1] == 0x20 || hay[m.0 - 1] == 0x09 || hay[m.0 - 1] == 0x0a || hay[m.0
                - 1] == 0x0c || hay[m.0 - 1] == 0x0d)
            &&& (m.1 >= hay.len() || hay[m.1 as int] == 0x22 || hay[m.1 as int] == 0x2c
                || hay[m.1 as int] == 0x2f || hay[m.1 as int] == 0x7d || hay[m.1 as int] == 0x5d
                || hay[m.1 as int] == 0x20 || hay[m.1 as int] == 0x09 || hay[m.1 as int] == 0x0a
                || hay[m.1 as int] == 0x0c || hay[m.1 as int] == 0x0d)
        },
{
    lemma_found_stands_alone(pats, hay, from);
    if let Some(m) = find_from(pats, hay, from) {
        let p = pats[m.2 as int];
        if p.len() > 0 {
            lemma_boundary_rule(p, hay, m.0 as int, m.1 as int);
        }
    }
}

/// A replacement of any other value that starts (ends) with a word byte
/// (ASCII letter or digit, `_`) is only ever made where no word byte stands
/// right before (after) it: a value is never replaced inside a longer word.
pub proof fn lemma_found_word_is_whole(pats: Seq<Seq<u8>>, hay: Seq<u8>, from: nat)
    ensures
        find_from(pats, hay, from) matches Some(m) ==> (pats[m.2 as int].len() > 0 && !(forall|
            i: int,
        | 0 <= i < pats[m.2 as int].len() ==> 0x30 <= #[trigger] pats[m.2 as int][i] <= 0x39))
            ==> {
            &&& ((0x30 <= pats[m.2 as int][0] <= 0x39 || 0x41 <= pats[m.2 as int][0] <= 0x5a || 0x61
                <= pats[m.2 as int][0] <= 0x7a || pats[m.2 as int][0] == 0x5f) && m.0 > 0 ==> !(
            0x30 <= hay[m.0 - 1] <= 0x39 || 0x41 <= hay[m.0 - 1] <= 0x5a || 0x61 <= hay[m.0 - 1]
                <= 0x7a || hay[m.0 - 1] == 0x5f))
            &&& ((0x30 <= pats[m.2 as int].last() <= 0x39 || 0x41 <= pats[m.2 as int].last() <= 0x5a
                || 0x61 <= pats[m.2 as int].last() <= 0x7a || pats[m.2 as int].last() == 0x5f) && m.1
                < hay.len() ==> !(0x30 <= hay[m.1 as int] <= 0x39 || 0x41 <= hay[m.1 as int] <= 0x5a
                || 0x61 <= hay[m.1 as int] <= 0x7a || hay[m.1 as int] == 0x5f))
        },
{
    lemma_found_stands_alone(pats, hay, from);
    if let Some(m) = find_from(pats, hay, from) {
        let p = pats[m.2 as int];
        if p.len() > 0 {
            lemma_boundary_rule(p, hay, m.0 as int, m.1 as int);
        }
    }
}

} // verus!
