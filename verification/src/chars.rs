//! Character classes and the few `std` text routines the obfuscator relies on.
//!
//! ASCII classes are stated directly. Where a class reaches beyond ASCII
//! (Unicode `Alphabetic`, `Alphanumeric`, lower-casing) the answer for a
//! non-ASCII input comes from `std`, and is named here rather than written out.
use vstd::prelude::*;

verus! {

/// `char::is_ascii_digit`: `'0'..='9'`.
pub open spec fn is_ascii_digit(c: char) -> bool {
    '0' <= c && c <= '9'
}

/// `char::is_ascii_lowercase`: `'a'..='z'`.
pub open spec fn is_ascii_lower(c: char) -> bool {
    'a' <= c && c <= 'z'
}

/// `char::is_ascii_uppercase`: `'A'..='Z'`.
pub open spec fn is_ascii_upper(c: char) -> bool {
    'A' <= c && c <= 'Z'
}

/// A character of the 7-bit ASCII range.
pub open spec fn is_ascii_char(c: char) -> bool {
    c <= '\x7f'
}

/// What `char::is_alphabetic` answers (the Unicode `Alphabetic` property).
pub uninterp spec fn unicode_alphabetic(c: char) -> bool;

/// What `char::is_alphanumeric` answers (`Alphabetic` or `Numeric`).
pub uninterp spec fn unicode_alphanumeric(c: char) -> bool;

/// What `char::is_uppercase` answers (the Unicode `Uppercase` property).
pub uninterp spec fn unicode_uppercase(c: char) -> bool;

/// What `str::to_lowercase` returns for a string (Unicode lower-casing).
pub uninterp spec fn unicode_lowercase(s: Seq<char>) -> Seq<char>;

/// Whether a character is a letter: the ASCII letters within ASCII,
/// the Unicode `Alphabetic` property beyond it.
pub open spec fn is_letter(c: char) -> bool {
    if is_ascii_char(c) {
        is_ascii_lower(c) || is_ascii_upper(c)
    } else {
        unicode_alphabetic(c)
    }
}

/// Whether a character is upper-case: `'A'..='Z'` within ASCII, the Unicode
/// `Uppercase` property beyond it.
pub open spec fn is_upper(c: char) -> bool {
    if is_ascii_char(c) {
        is_ascii_upper(c)
    } else {
        unicode_uppercase(c)
    }
}

/// Whether a character is alphanumeric: ASCII digits and letters within ASCII,
/// the Unicode `Alphabetic`/`Numeric` properties beyond it.
pub open spec fn is_alnum(c: char) -> bool {
    if is_ascii_char(c) {
        is_ascii_digit(c) || is_ascii_lower(c) || is_ascii_upper(c)
    } else {
        unicode_alphanumeric(c)
    }
}

/// ASCII lower-casing of one character (`char::to_ascii_lowercase`).
pub open spec fn ascii_lower(c: char) -> char {
    if is_ascii_upper(c) {
        ((c as u32) + 32) as char
    } else {
        c
    }
}

/// The lower-case form of a string as `str::to_lowercase` gives it:
/// ASCII lower-casing of an ASCII string, Unicode lower-casing otherwise.
pub open spec fn lowercase(s: Seq<char>) -> Seq<char> {
    if vstd::utf8::is_ascii_chars(s) {
        s.map_values(|c: char| ascii_lower(c))
    } else {
        unicode_lowercase(s)
    }
}

/// Calls `char::is_alphabetic`; the result is the Unicode `Alphabetic`
/// property of `c`, which is only named here, not written out.
#[verifier::external_body]
fn std_is_alphabetic(c: char) -> (r: bool)
    ensures
        r == unicode_alphabetic(c),
{
    c.is_alphabetic()
}

/// Calls `char::is_alphanumeric`; the result is whether `c` has the Unicode
/// `Alphabetic` or `Numeric` property, which is only named here.
#[verifier::external_body]
fn std_is_alphanumeric(c: char) -> (r: bool)
    ensures
        r == unicode_alphanumeric(c),
{
    c.is_alphanumeric()
}

/// Calls `char::is_uppercase`; the result is the Unicode `Uppercase`
/// property of `c`, which is only named here, not written out.
#[verifier::external_body]
fn std_is_uppercase(c: char) -> (r: bool)
    ensures
        r == unicode_uppercase(c),
{
    c.is_uppercase()
}

/// Calls `str::to_lowercase`; the result is the Unicode lower-case mapping of
/// `s`, which is only named here (it depends on `s` alone).
#[verifier::external_body]
fn std_to_lowercase(s: &str) -> (r: String)
    ensures
        r@ == unicode_lowercase(s@),
{
    s.to_lowercase()
}

/// Calls `String::push`: appends one character.
#[verifier::external_body]
pub(crate) fn push_char(s: &mut String, c: char)
    ensures
        final(s)@ == old(s)@.push(c),
{
    s.push(c)
}

/// `char::is_ascii_digit`.
pub fn ascii_digit(c: char) -> (r: bool)
    ensures
        r == is_ascii_digit(c),
{
    '0' <= c && c <= '9'
}

/// `char::is_ascii_lowercase`.
pub fn ascii_lowercase(c: char) -> (r: bool)
    ensures
        r == is_ascii_lower(c),
{
    'a' <= c && c <= 'z'
}

/// `char::is_ascii_uppercase`.
pub fn ascii_uppercase(c: char) -> (r: bool)
    ensures
        r == is_ascii_upper(c),
{
    'A' <= c && c <= 'Z'
}

/// Whether `c` is a letter (`char::is_alphabetic`).
pub fn letter(c: char) -> (r: bool)
    ensures
        r == is_letter(c),
{
    if c <= '\x7f' {
        ascii_lowercase(c) || ascii_uppercase(c)
    } else {
        std_is_alphabetic(c)
    }
}

/// Whether `c` is upper-case (`char::is_uppercase`).
pub fn upper(c: char) -> (r: bool)
    ensures
        r == is_upper(c),
{
    if c <= '\x7f' {
        ascii_uppercase(c)
    } else {
        std_is_uppercase(c)
    }
}

/// Whether `c` is alphanumeric (`char::is_alphanumeric`).
pub fn alnum(c: char) -> (r: bool)
    ensures
        r == is_alnum(c),
{
    if c <= '\x7f' {
        ascii_digit(c) || ascii_lowercase(c) || ascii_uppercase(c)
    } else {
        std_is_alphanumeric(c)
    }
}

/// The characters of a string, in order.
pub fn chars_of(s: &str) -> (r: Vec<char>)
    ensures
        r@ == s@,
{
    let n = s.unicode_len();
    let mut r: Vec<char> = Vec::new();
    for i in 0..n
        invariant
            n == s@.len(),
            r@ == s@.take(i as int),
    {
        r.push(s.get_char(i));
        assert(s@.take(i + 1) == s@.take(i as int).push(s@[i as int]));
    }
    assert(s@.take(n as int) == s@);
    r
}

/// The string made of the given characters, in order.
pub fn string_of(cs: &Vec<char>) -> (r: String)
    ensures
        r@ == cs@,
{
    let mut r = String::new();
    for i in 0..cs.len()
        invariant
            r@ == cs@.take(i as int),
    {
        push_char(&mut r, cs[i]);
        assert(cs@.take(i + 1) == cs@.take(i as int).push(cs@[i as int]));
    }
    assert(cs@.take(cs@.len() as int) == cs@);
    r
}

/// Lower-cases a string as `str::to_lowercase` does.
pub fn to_lowercase(s: &str) -> (r: String)
    ensures
        r@ == lowercase(s@),
{
    if s.is_ascii() {
        let cs = chars_of(s);
        let mut out: Vec<char> = Vec::new();
        for i in 0..cs.len()
            invariant
                cs@ == s@,
                vstd::utf8::is_ascii_chars(s@),
                out@ == s@.take(i as int).map_values(|c: char| ascii_lower(c)),
        {
            let c = cs[i];
            let l = if ascii_uppercase(c) {
                ((c as u8) + 32) as char
            } else {
                c
            };
            out.push(l);
            assert(s@.take(i + 1).map_values(|c: char| ascii_lower(c)) == s@.take(
                i as int,
            ).map_values(|c: char| ascii_lower(c)).push(ascii_lower(c)));
        }
        assert(s@.take(cs@.len() as int) == s@);
        string_of(&out)
    } else {
        std_to_lowercase(s)
    }
}

/// Whether `s` is one of the strings of `v` (`Vec::contains`).
pub fn contains_string(v: &Vec<String>, s: &String) -> (r: bool)
    ensures
        r == v@.map_values(|x: String| x@).contains(s@),
{
    let ghost vs = v@.map_values(|x: String| x@);
    let mut i: usize = 0;
    while i < v.len()
        invariant
            i <= v@.len(),
            vs == v@.map_values(|x: String| x@),
            forall|j: int| 0 <= j < i ==> vs[j] != s@,
        decreases v@.len() - i,
    {
        if v[i] == *s {
            assert(vs[i as int] == s@);
            return true;
        }
        i = i + 1;
    }
    false
}

} // verus!
