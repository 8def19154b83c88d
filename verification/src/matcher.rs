//! The multi-pattern search that the replacer runs on, provided by the
//! `aho_corasick` crate, and what this library relies on it to do.
use aho_corasick::{AhoCorasick, BuildError, Input, MatchKind};
use vstd::prelude::*;
use vstd::utf8::encode_utf8;

verus! {

#[verifier::external_type_specification]
#[verifier::external_body]
pub struct ExAhoCorasick(AhoCorasick);

#[verifier::external_type_specification]
#[verifier::external_body]
pub struct ExBuildError(BuildError);

/// The patterns an automaton searches for, by pattern number.
pub uninterp spec fn automaton_patterns(ac: AhoCorasick) -> Seq<Seq<u8>>;

/// Whether an automaton was built for leftmost-longest matching.
pub uninterp spec fn automaton_leftmost_longest(ac: AhoCorasick) -> bool;

/// Whether an automaton can be built over the given byte patterns (with the
/// configuration used here, this depends on the patterns alone).
pub uninterp spec fn automaton_builds(patterns: Seq<Seq<u8>>) -> bool;

/// Pattern `p` of `pats` occurs in `hay` at byte `i`, inside the window
/// `[a, b)`.
pub open spec fn occurs_in(pats: Seq<Seq<u8>>, hay: Seq<u8>, a: int, b: int, i: int, p: int) -> bool {
    &&& 0 <= p < pats.len()
    &&& a <= i
    &&& i + pats[p].len() <= b
    &&& hay.subrange(i, i + pats[p].len()) == pats[p]
}

/// `m = (start, end, pattern)` is the leftmost-longest occurrence in the
/// window `[a, b)`: no occurrence starts earlier, and none starting at the
/// same byte is longer.
pub open spec fn is_leftmost_longest(
    pats: Seq<Seq<u8>>,
    hay: Seq<u8>,
    a: int,
    b: int,
    m: (usize, usize, usize),
) -> bool {
    &&& occurs_in(pats, hay, a, b, m.0 as int, m.2 as int)
    &&& m.1 == m.0 + pats[m.2 as int].len()
    &&& forall|i: int, p: int|
        #[trigger] occurs_in(pats, hay, a, b, i, p) ==> m.0 < i || (m.0 == i && pats[p].len()
            <= pats[m.2 as int].len())
}

/// Builds an automaton over `patterns` with
/// `AhoCorasick::builder().match_kind(MatchKind::LeftmostLongest).build(..)`.
/// On success the automaton searches for the UTF-8 bytes of each pattern,
/// pattern `i` being `patterns[i]`, with leftmost-longest semantics. Whether
/// building succeeds depends on the patterns alone and is only named
/// ([`automaton_builds`]): it fails when the patterns need more pattern or
/// state identifiers than the crate's limits allow, which is not written out
/// here. With no patterns at all it succeeds.
#[verifier::external_body]
pub(crate) fn build_leftmost_longest(patterns: &Vec<String>) -> (r: Result<AhoCorasick, BuildError>)
    ensures
        r is Ok <==> automaton_builds(patterns@.map_values(|p: String| encode_utf8(p@))),
        patterns@.len() == 0 ==> r is Ok,
        r matches Ok(ac) ==> {
            &&& automaton_patterns(ac) == patterns@.map_values(|p: String| encode_utf8(p@))
            &&& automaton_leftmost_longest(ac)
        },
{
    AhoCorasick::builder().match_kind(MatchKind::LeftmostLongest).build(patterns)
}

/// Runs `AhoCorasick::find` on `haystack` restricted to the byte span
/// `start..end` (`Input::span`). With leftmost-longest semantics the answer
/// is `None` exactly when no pattern occurs inside the span, and otherwise
/// the occurrence inside the span that starts first, the longest among
/// those, as `(start, end, pattern number)`.
#[verifier::external_body]
pub(crate) fn find_in_span(ac: &AhoCorasick, haystack: &str, start: usize, end: usize) -> (r:
    Option<(usize, usize, usize)>)
    requires
        automaton_leftmost_longest(*ac),
        start <= end <= encode_utf8(haystack@).len(),
    ensures
        match r {
            None => !exists|i: int, p: int|
                occurs_in(
                    automaton_patterns(*ac),
                    encode_utf8(haystack@),
                    start as int,
                    end as int,
                    i,
                    p,
                ),
            Some(m) => is_leftmost_longest(
                automaton_patterns(*ac),
                encode_utf8(haystack@),
                start as int,
                end as int,
                m,
            ),
        },
{
    match ac.find(Input::new(haystack).span(start..end)) {
        Some(m) => Some((m.start(), m.end(), m.pattern().as_usize())),
        None => None,
    }
}

} // verus!
