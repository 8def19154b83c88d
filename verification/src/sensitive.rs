//! Which JSON fields are sensitive, and collecting their values.
use vstd::prelude::*;

use crate::chars::{chars_of, contains_string, lowercase, to_lowercase};
use vstd::multiset::Multiset;
use vstd::utf8::encode_utf8;

verus! {

/// A JSON document. Numbers are held as the text that denotes them; object
/// members keep the order in which the document's reader hands them over.
#[derive(Debug)]
pub enum JsonValue {
    Null,
    Bool(bool),
    Number(String),
    String(String),
    Array(Vec<JsonValue>),
    Object(Vec<(String, JsonValue)>),
}

/// `pat` occurs in `s` starting at `i`.
pub open spec fn occurs_at(s: Seq<char>, pat: Seq<char>, i: int) -> bool {
    0 <= i && i + pat.len() <= s.len() && s.subrange(i, i + pat.len()) == pat
}

/// `pat` occurs somewhere in `s` (`str::contains`).
pub open spec fn has_infix(s: Seq<char>, pat: Seq<char>) -> bool {
    exists|i: int| occurs_at(s, pat, i)
}

/// `s` ends with `pat` (`str::ends_with`).
pub open spec fn has_suffix(s: Seq<char>, pat: Seq<char>) -> bool {
    pat.len() <= s.len() && occurs_at(s, pat, s.len() - pat.len())
}

/// The built-in rule for sensitive field names, given the name and its
/// lower-case form: the lower-case name contains `password`, `secret`,
/// `token`, `phone` or `email`, ends with `name`, `_id` or `-id`, or is
/// `user`, `login`, `address` or `id`; or the name itself ends with `Id`.
pub open spec fn sensitive_name(key: Seq<char>, lower: Seq<char>) -> bool {
    ||| has_infix(lower, "password"@)
    ||| has_infix(lower, "secret"@)
    ||| has_infix(lower, "token"@)
    ||| has_infix(lower, "phone"@)
    ||| has_suffix(lower, "name"@)
    ||| lower == "user"@
    ||| lower == "login"@
    ||| lower == "address"@
    ||| has_infix(lower, "email"@)
    ||| lower == "id"@
    ||| has_suffix(lower, "_id"@)
    ||| has_suffix(lower, "-id"@)
    ||| has_suffix(key, "Id"@)
}

fn occurs_at_exec(s: &Vec<char>, pat: &Vec<char>, i: usize) -> (r: bool)
    requires
        i + pat@.len() <= s@.len(),
    ensures
        r == occurs_at(s@, pat@, i as int),
{
    let n = s.len();
    let mut j: usize = 0;
    while j < pat.len()
        invariant
            n == s@.len(),
            i + pat@.len() <= s@.len(),
            j <= pat@.len(),
            forall|m: int| 0 <= m < j ==> s@[i + m] == pat@[m],
        decreases pat@.len() - j,
    {
        if s[i + j] != pat[j] {
            assert(s@.subrange(i as int, i + pat@.len())[j as int] != pat@[j as int]);
            return false;
        }
        j = j + 1;
    }
    assert(s@.subrange(i as int, i + pat@.len()) =~= pat@);
    true
}

fn infix(s: &Vec<char>, pat: &Vec<char>) -> (r: bool)
    ensures
        r == has_infix(s@, pat@),
{
    if pat.len() > s.len() {
        return false;
    }
    let last = s.len() - pat.len();
    let mut i: usize = 0;
    loop
        invariant
            last + pat@.len() == s@.len(),
            i <= last,
            forall|m: int| 0 <= m < i ==> !occurs_at(s@, pat@, m),
        decreases last - i,
    {
        if occurs_at_exec(s, pat, i) {
            return true;
        }
        if i == last {
            return false;
        }
        i = i + 1;
    }
}

fn suffix(s: &Vec<char>, pat: &Vec<char>) -> (r: bool)
    ensures
        r == has_suffix(s@, pat@),
{
    if pat.len() > s.len() {
        return false;
    }
    occurs_at_exec(s, pat, s.len() - pat.len())
}

fn same(s: &Vec<char>, pat: &Vec<char>) -> (r: bool)
    ensures
        r == (s@ == pat@),
{
    if pat.len() != s.len() {
        return false;
    }
    let r = occurs_at_exec(s, pat, 0);
    assert(s@.subrange(0, s@.len() as int) =~= s@);
    r
}

/// The built-in rule for sensitive field names, applied to `key` whose
/// lower-case form is `lower` (see [`sensitive_name`]).
pub fn is_sensitive_lowered(key: &str, lower: &str) -> (r: bool)
    ensures
        r == sensitive_name(key@, lower@),
{
    let k = chars_of(key);
    let l = chars_of(lower);
    infix(&l, &chars_of("password")) || infix(&l, &chars_of("secret")) || infix(
        &l,
        &chars_of("token"),
    ) || infix(&l, &chars_of("phone")) || suffix(&l, &chars_of("name")) || same(
        &l,
        &chars_of("user"),
    ) || same(&l, &chars_of("login")) || same(&l, &chars_of("address")) || infix(
        &l,
        &chars_of("email"),
    ) || same(&l, &chars_of("id")) || suffix(&l, &chars_of("_id")) || suffix(
        &l,
        &chars_of("-id"),
    ) || suffix(&k, &chars_of("Id"))
}

/// Whether a field name is sensitive by the built-in rule: its lower-case form
/// contains `password`, `secret`, `token`, `phone` or `email`, ends with
/// `name`, `_id` or `-id`, or is `user`, `login`, `address` or `id`; or the
/// name ends with `Id`.
pub fn is_sensitive(key: &str) -> (r: bool)
    ensures
        r == sensitive_name(key@, lowercase(key@)),
{
    let lower = to_lowercase(key);
    is_sensitive_lowered(key, lower.as_str())
}

/// The length of a value in bytes, as `str::len` reports it (the length of
/// its UTF-8 encoding).
pub open spec fn byte_len(s: Seq<char>) -> nat {
    (encode_utf8(s).len() as usize) as nat
}

/// The values of `s` whose byte length is `n`, in their order in `s`.
pub open spec fn len_class(s: Seq<Seq<char>>, n: nat) -> Seq<Seq<char>>
    decreases s.len(),
{
    if s.len() == 0 {
        s
    } else {
        len_class(s.drop_last(), n) + if byte_len(s.last()) == n {
            seq![s.last()]
        } else {
            Seq::empty()
        }
    }
}

/// Longer values (in bytes) come first.
pub open spec fn longest_first(s: Seq<Seq<char>>) -> bool {
    forall|i: int, j: int| 0 <= i < j < s.len() ==> byte_len(#[trigger] s[i]) >= byte_len(#[trigger] s[j])
}

/// `r` is `s` stably sorted by decreasing byte length: longest first, and
/// values of one length in the order they have in `s`.
pub open spec fn is_longest_first_sort(s: Seq<Seq<char>>, r: Seq<Seq<char>>) -> bool {
    &&& r.len() == s.len()
    &&& longest_first(r)
    &&& forall|n: nat| #[trigger] len_class(r, n) == len_class(s, n)
}

/// Whether the member named `key` is sensitive: by the built-in rule when it
/// is in use, or because its lower-case form is one of the `extra` names.
pub open spec fn key_selected(key: Seq<char>, extra: Seq<Seq<char>>, use_default: bool) -> bool {
    (use_default && sensitive_name(key, lowercase(key))) || extra.contains(lowercase(key))
}

/// The values of sensitive members in document order: the string or number
/// under a sensitive member (other kinds are ignored there), and the
/// sensitive values inside every other member and every array element.
pub open spec fn flat(j: JsonValue, extra: Seq<Seq<char>>, use_default: bool) -> Seq<Seq<char>>
    decreases j,
{
    match j {
        JsonValue::Object(members) => flat_members(members@, extra, use_default),
        JsonValue::Array(items) => flat_items(items@, extra, use_default),
        _ => Seq::empty(),
    }
}

/// What a sensitive member contributes: its string, or its number's text;
/// nothing for other kinds of value.
pub open spec fn leaf_value(value: JsonValue) -> Seq<Seq<char>> {
    match value {
        JsonValue::String(s) => seq![s@],
        JsonValue::Number(n) => seq![n@],
        _ => Seq::empty(),
    }
}

/// [`flat`] over the members of an object.
pub open spec fn flat_members(
    ms: Seq<(String, JsonValue)>,
    extra: Seq<Seq<char>>,
    use_default: bool,
) -> Seq<Seq<char>>
    decreases ms,
{
    if ms.len() == 0 {
        Seq::empty()
    } else {
        let (key, value) = ms.last();
        flat_members(ms.drop_last(), extra, use_default) + if key_selected(
            key@,
            extra,
            use_default,
        ) {
            leaf_value(value)
        } else {
            flat(value, extra, use_default)
        }
    }
}

/// [`flat`] over the elements of an array.
pub open spec fn flat_items(
    items: Seq<JsonValue>,
    extra: Seq<Seq<char>>,
    use_default: bool,
) -> Seq<Seq<char>>
    decreases items,
{
    if items.len() == 0 {
        Seq::empty()
    } else {
        flat_items(items.drop_last(), extra, use_default) + flat(items.last(), extra, use_default)
    }
}

/// The extra field names in the form they are matched in: lower-cased.
pub fn lowercase_field_names(fields: &Vec<String>) -> (r: Vec<String>)
    ensures
        views(r@) == views(fields@).map_values(|f: Seq<char>| lowercase(f)),
{
    let mut r: Vec<String> = Vec::new();
    for i in 0..fields.len()
        invariant
            views(r@) == views(fields@.take(i as int)).map_values(|f: Seq<char>| lowercase(f)),
    {
        let l = to_lowercase(fields[i].as_str());
        let ghost before = r@;
        r.push(l);
        assert(views(r@) =~= views(before).push(l@));
        assert(fields@.take(i + 1) =~= fields@.take(i as int).push(fields@[i as int]));
        assert(views(fields@.take(i + 1)).map_values(|f: Seq<char>| lowercase(f)) =~= views(
            fields@.take(i as int),
        ).map_values(|f: Seq<char>| lowercase(f)).push(lowercase(fields@[i as int]@)));
    }
    assert(fields@.take(fields@.len() as int) =~= fields@);
    r
}

/// The character sequences of a list of strings.
pub open spec fn views(v: Seq<String>) -> Seq<Seq<char>> {
    v.map_values(|s: String| s@)
}

proof fn lemma_len_class_concat(a: Seq<Seq<char>>, b: Seq<Seq<char>>, n: nat)
    ensures
        len_class(a + b, n) == len_class(a, n) + len_class(b, n),
    decreases b.len(),
{
    if b.len() == 0 {
        assert(a + b =~= a);
        assert(len_class(a, n) + len_class(b, n) =~= len_class(a, n));
    } else {
        lemma_len_class_concat(a, b.drop_last(), n);
        assert((a + b).drop_last() =~= a + b.drop_last());
        assert((a + b).last() == b.last());
        assert(len_class(a + b, n) =~= len_class(a, n) + len_class(b, n));
    }
}

proof fn lemma_len_class_none(b: Seq<Seq<char>>, n: nat)
    requires
        forall|i: int| 0 <= i < b.len() ==> byte_len(#[trigger] b[i]) != n,
    ensures
        len_class(b, n) == Seq::<Seq<char>>::empty(),
    decreases b.len(),
{
    if b.len() > 0 {
        lemma_len_class_none(b.drop_last(), n);
        assert(byte_len(b[b.len() - 1]) != n);
        assert(len_class(b, n) =~= Seq::<Seq<char>>::empty());
    }
}

proof fn lemma_len_class_insert(r: Seq<Seq<char>>, p: int, x: Seq<char>, n: nat)
    requires
        0 <= p <= r.len(),
        forall|i: int| p <= i < r.len() ==> byte_len(#[trigger] r[i]) < byte_len(x),
    ensures
        len_class(r.insert(p, x), n) == len_class(r.push(x), n),
{
    let a = r.take(p);
    let b = r.skip(p);
    assert(r =~= a + b);
    assert(r.insert(p, x) =~= (a + seq![x]) + b);
    assert(r.push(x) =~= (a + b) + seq![x]);
    lemma_len_class_concat(a + seq![x], b, n);
    lemma_len_class_concat(a, seq![x], n);
    lemma_len_class_concat(a + b, seq![x], n);
    lemma_len_class_concat(a, b, n);
    if byte_len(x) == n {
        assert forall|i: int| 0 <= i < b.len() implies byte_len(#[trigger] b[i]) != n by {
            assert(b[i] == r[p + i]);
        }
        lemma_len_class_none(b, n);
    } else {
        assert(len_class(seq![x], n) =~= Seq::<Seq<char>>::empty()) by {
            reveal_with_fuel(len_class, 2);
            assert(seq![x].drop_last() =~= Seq::<Seq<char>>::empty());
        }
    }
    assert(len_class(r.insert(p, x), n) =~= len_class(r.push(x), n));
}

/// Sorts values by decreasing byte length, keeping the order of values of
/// one length (a stable sort).
fn sort_longest_first(values: Vec<String>) -> (r: Vec<String>)
    ensures
        is_longest_first_sort(views(values@), views(r@)),
{
    let ghost vs = views(values@);
    let mut r: Vec<String> = Vec::new();
    for i in 0..values.len()
        invariant
            vs == views(values@),
            r@.len() == i,
            longest_first(views(r@)),
            forall|n: nat| #[trigger] len_class(views(r@), n) == len_class(vs.take(i as int), n),
    {
        let x = values[i].clone();
        let xl = x.as_str().len();
        let mut p: usize = 0;
        while p < r.len() && r[p].as_str().len() >= xl
            invariant
                p <= r@.len(),
                xl == byte_len(x@),
                forall|k: int| 0 <= k < p ==> byte_len(#[trigger] views(r@)[k]) >= byte_len(x@),
            decreases r@.len() - p,
        {
            p = p + 1;
        }
        let ghost old_r = views(r@);
        proof {
            assert forall|k: int| p <= k < old_r.len() implies byte_len(#[trigger] old_r[k])
                < byte_len(x@) by {
                assert(byte_len(old_r[p as int]) < byte_len(x@));
                if k > p {
                    assert(byte_len(old_r[p as int]) >= byte_len(old_r[k]));
                }
            }
        }
        r.insert(p, x);
        proof {
            let new_r = views(r@);
            assert(new_r =~= old_r.insert(p as int, values@[i as int]@));
            assert(vs.take(i + 1) =~= vs.take(i as int).push(vs[i as int]));
            assert forall|n: nat| #[trigger] len_class(new_r, n) == len_class(vs.take(i + 1), n) by {
                lemma_len_class_insert(old_r, p as int, vs[i as int], n);
                assert(old_r.push(vs[i as int]).drop_last() =~= old_r);
                assert(old_r.push(vs[i as int]).last() == vs[i as int]);
                assert(vs.take(i + 1).drop_last() =~= vs.take(i as int));
                assert(vs.take(i + 1).last() == vs[i as int]);
                assert(len_class(old_r, n) == len_class(vs.take(i as int), n));
            }
            assert forall|a: int, b: int| 0 <= a < b < new_r.len() implies byte_len(
                #[trigger] new_r[a],
            ) >= byte_len(#[trigger] new_r[b]) by {
                if a < p && b > p {
                    assert(new_r[a] == old_r[a]);
                    assert(new_r[b] == old_r[b - 1]);
                } else if a < p && b == p {
                    assert(new_r[a] == old_r[a]);
                } else if a < p {
                    assert(new_r[a] == old_r[a]);
                    assert(new_r[b] == old_r[b]);
                } else if a == p {
                    assert(new_r[b] == old_r[b - 1]);
                } else {
                    assert(new_r[a] == old_r[a - 1]);
                    assert(new_r[b] == old_r[b - 1]);
                }
            }
        }
    }
    assert(vs.take(values@.len() as int) =~= vs);
    r
}

proof fn lemma_class_step(a: Seq<Seq<char>>, b: Seq<Seq<char>>, c: Seq<Seq<char>>, d: Seq<Seq<char>>)
    requires
        forall|n: nat| #[trigger] len_class(a, n) == len_class(b, n),
        forall|n: nat| #[trigger] len_class(c, n) == len_class(d, n),
    ensures
        forall|n: nat| #[trigger] len_class(a + c, n) == len_class(b + d, n),
{
    assert forall|n: nat| #[trigger] len_class(a + c, n) == len_class(b + d, n) by {
        lemma_len_class_concat(a, c, n);
        lemma_len_class_concat(b, d, n);
        assert(len_class(a, n) == len_class(b, n));
        assert(len_class(c, n) == len_class(d, n));
    }
}

proof fn lemma_len_class_count(a: Seq<Seq<char>>, x: Seq<char>)
    ensures
        a.to_multiset().count(x) == len_class(a, byte_len(x)).to_multiset().count(x),
    decreases a.len(),
{
    broadcast use vstd::multiset::group_multiset_axioms;

    if a.len() == 0 {
        assert(a.to_multiset() =~= Multiset::empty()) by {
            a.to_multiset_ensures();
        }
        assert(len_class(a, byte_len(x)).to_multiset() =~= Multiset::empty()) by {
            len_class(a, byte_len(x)).to_multiset_ensures();
        }
    } else {
        let p = a.drop_last();
        let y = a.last();
        lemma_len_class_count(p, x);
        assert(a =~= p.push(y));
        vstd::seq_lib::to_multiset_build(p, y);
        let cp = len_class(p, byte_len(x));
        if byte_len(y) == byte_len(x) {
            assert(len_class(a, byte_len(x)) =~= cp.push(y));
            vstd::seq_lib::to_multiset_build(cp, y);
        } else {
            assert(len_class(a, byte_len(x)) =~= cp);
        }
    }
}

/// Lists with the same length classes hold the same values, as many times
/// each: one is a reordering of the other.
pub proof fn lemma_same_classes_permutation(a: Seq<Seq<char>>, b: Seq<Seq<char>>)
    requires
        forall|n: nat| #[trigger] len_class(a, n) == len_class(b, n),
    ensures
        a.to_multiset() == b.to_multiset(),
{
    assert forall|x: Seq<char>| a.to_multiset().count(x) == b.to_multiset().count(x) by {
        lemma_len_class_count(a, x);
        lemma_len_class_count(b, x);
        assert(len_class(a, byte_len(x)) == len_class(b, byte_len(x)));
    }
    assert(a.to_multiset() =~= b.to_multiset());
}

/// Whether the member named `key` is sensitive (see [`key_selected`]).
fn member_selected(key: &String, extra_fields: &Vec<String>, use_default: bool) -> (r: bool)
    ensures
        r == key_selected(key@, views(extra_fields@), use_default),
{
    if use_default && is_sensitive(key.as_str()) {
        return true;
    }
    let lower = to_lowercase(key.as_str());
    let r = contains_string(extra_fields, &lower);
    assert(views(extra_fields@) == extra_fields@.map_values(|x: String| x@));
    r
}

/// Collects the values of sensitive members anywhere in `json`: a member is
/// sensitive by the built-in rule (when `use_default`) or when its
/// lower-case name is one of `extra_fields`. The string or number under a
/// sensitive member is collected (numbers by their text); other members and
/// array elements are searched. The values come longest (in bytes) first,
/// values of one length in document order.
pub fn collect_sensitive_values(
    json: &JsonValue,
    extra_fields: &Vec<String>,
    use_default: bool,
) -> (r: Vec<String>)
    ensures
        is_longest_first_sort(flat(*json, views(extra_fields@), use_default), views(r@)),
        views(r@).to_multiset() == flat(*json, views(extra_fields@), use_default).to_multiset(),
    decreases json,
{
    let ghost extra = views(extra_fields@);
    let mut values: Vec<String> = Vec::new();
    match json {
        JsonValue::Object(members) => {
            for i in 0..members.len()
                invariant
                    extra == views(extra_fields@),
                    *json == JsonValue::Object(*members),
                    values@.len() == flat_members(members@.take(i as int), extra, use_default).len(),
                    forall|n: nat| #[trigger] len_class(views(values@), n) == len_class(
                        flat_members(members@.take(i as int), extra, use_default),
                        n,
                    ),
            {
                let key = &members[i].0;
                let value = &members[i].1;
                let ghost before = views(values@);
                let ghost ms = members@.take(i + 1);
                assert(ms.drop_last() =~= members@.take(i as int));
                assert(ms.last() == members@[i as int]);
                let ghost prev = flat_members(members@.take(i as int), extra, use_default);
                if member_selected(key, extra_fields, use_default) {
                    let ghost piece = leaf_value(*value);
                    match value {
                        JsonValue::String(s) => {
                            values.push(s.clone());
                        },
                        JsonValue::Number(n) => {
                            values.push(n.clone());
                        },
                        _ => {},
                    }
                    proof {
                        assert(views(values@) =~= before + piece);
                        assert(flat_members(ms, extra, use_default) == prev + piece);
                        lemma_class_step(before, prev, piece, piece);
                    }
                } else {
                    proof {
                        assert(*json == JsonValue::Object(*members));
                        assert(decreases_to!(*json => (*json)->Object_0));
                        assert(decreases_to!(members => members@));
                        assert(decreases_to!(members@ => members@[i as int]));
                        assert(decreases_to!(members@[i as int] => members@[i as int].1));
                    }
                    let mut sub = collect_sensitive_values(value, extra_fields, use_default);
                    let ghost subv = views(sub@);
                    values.append(&mut sub);
                    proof {
                        assert(views(values@) =~= before + subv);
                        assert(flat_members(ms, extra, use_default) == prev + flat(
                            *value,
                            extra,
                            use_default,
                        ));
                        lemma_class_step(before, prev, subv, flat(*value, extra, use_default));
                    }
                }
            }
            assert(members@.take(members@.len() as int) =~= members@);
        },
        JsonValue::Array(items) => {
            for i in 0..items.len()
                invariant
                    extra == views(extra_fields@),
                    *json == JsonValue::Array(*items),
                    values@.len() == flat_items(items@.take(i as int), extra, use_default).len(),
                    forall|n: nat| #[trigger] len_class(views(values@), n) == len_class(
                        flat_items(items@.take(i as int), extra, use_default),
                        n,
                    ),
            {
                let item = &items[i];
                let ghost before = views(values@);
                assert(items@.take(i + 1).drop_last() =~= items@.take(i as int));
                assert(items@.take(i + 1).last() == items@[i as int]);
                proof {
                    assert(*json == JsonValue::Array(*items));
                    assert(decreases_to!(*json => (*json)->Array_0));
                    assert(decreases_to!(items => items@));
                    assert(decreases_to!(items@ => items@[i as int]));
                }
                let mut sub = collect_sensitive_values(item, extra_fields, use_default);
                let ghost subv = views(sub@);
                values.append(&mut sub);
                proof {
                    assert(views(values@) =~= before + subv);
                    lemma_class_step(
                        before,
                        flat_items(items@.take(i as int), extra, use_default),
                        subv,
                        flat(*item, extra, use_default),
                    );
                }
            }
            assert(items@.take(items@.len() as int) =~= items@);
        },
        _ => {},
    }
    let r = sort_longest_first(values);
    proof {
        let f = flat(*json, extra, use_default);
        assert forall|n: nat| #[trigger] len_class(views(r@), n) == len_class(f, n) by {
            assert(len_class(views(r@), n) == len_class(views(values@), n));
            assert(len_class(views(values@), n) == len_class(f, n));
        }
        lemma_same_classes_permutation(views(r@), f);
    }
    r
}

proof fn lemma_infix_at(s: Seq<char>, pat: Seq<char>, n: int)
    requires
        pat.len() == n,
    ensures
        has_infix(s, pat) <==> exists|i: int|
            0 <= i && i + n <= s.len() && #[trigger] s.subrange(i, i + n) == pat,
{
    if has_infix(s, pat) {
        let i = choose|i: int| occurs_at(s, pat, i);
        assert(s.subrange(i, i + n) == pat);
    }
    if exists|i: int| 0 <= i && i + n <= s.len() && #[trigger] s.subrange(i, i + n) == pat {
        let i = choose|i: int| 0 <= i && i + n <= s.len() && #[trigger] s.subrange(i, i + n) == pat;
        assert(occurs_at(s, pat, i));
    }
}

/// The built-in rule for sensitive field names, stated letter by letter:
/// the lower-case name contains `password`, `secret`, `token`, `phone` or
/// `email` anywhere, ends with `name`, `_id` or `-id`, or is exactly
/// `user`, `login`, `address` or `id`; or the name itself ends with `Id`.
/// Nothing else is sensitive by this rule.
pub proof fn lemma_builtin_rule(key: Seq<char>, lower: Seq<char>)
    ensures
        sensitive_name(key, lower) <==> {
            ||| exists|i: int|
                0 <= i && i + 8 <= lower.len() && #[trigger] lower.subrange(i, i + 8) == seq![
                    'p', 'a', 's', 's', 'w', 'o', 'r', 'd'
                ]
            ||| exists|i: int|
                0 <= i && i + 6 <= lower.len() && #[trigger] lower.subrange(i, i + 6) == seq![
                    's', 'e', 'c', 'r', 'e', 't'
                ]
            ||| exists|i: int|
                0 <= i && i + 5 <= lower.len() && #[trigger] lower.subrange(i, i + 5) == seq![
                    't', 'o', 'k', 'e', 'n'
                ]
            ||| exists|i: int|
                0 <= i && i + 5 <= lower.len() && #[trigger] lower.subrange(i, i + 5) == seq![
                    'p', 'h', 'o', 'n', 'e'
                ]
            ||| exists|i: int|
                0 <= i && i + 5 <= lower.len() && #[trigger] lower.subrange(i, i + 5) == seq![
                    'e', 'm', 'a', 'i', 'l'
                ]
            ||| (lower.len() >= 4 && lower.subrange(lower.len() - 4, lower.len() as int) == seq![
                'n', 'a', 'm', 'e'
            ])
            ||| (lower.len() >= 3 && lower.subrange(lower.len() - 3, lower.len() as int) == seq![
                '_', 'i', 'd'
            ])
            ||| (lower.len() >= 3 && lower.subrange(lower.len() - 3, lower.len() as int) == seq![
                '-', 'i', 'd'
            ])
            ||| lower == seq!['u', 's', 'e', 'r']
            ||| lower == seq!['l', 'o', 'g', 'i', 'n']
            ||| lower == seq!['a', 'd', 'd', 'r', 'e', 's', 's']
            ||| lower == seq!['i', 'd']
            ||| (key.len() >= 2 && key.subrange(key.len() - 2, key.len() as int) == seq!['I', 'd'])
        },
{
    reveal_strlit("password");
    reveal_strlit("secret");
    reveal_strlit("token");
    reveal_strlit("phone");
    reveal_strlit("email");
    reveal_strlit("name");
    reveal_strlit("_id");
    reveal_strlit("-id");
    reveal_strlit("user");
    reveal_strlit("login");
    reveal_strlit("address");
    reveal_strlit("id");
    reveal_strlit("Id");
    assert("password"@ =~= seq!['p', 'a', 's', 's', 'w', 'o', 'r', 'd']);
    assert("secret"@ =~= seq!['s', 'e', 'c', 'r', 'e', 't']);
    assert("token"@ =~= seq!['t', 'o', 'k', 'e', 'n']);
    assert("phone"@ =~= seq!['p', 'h', 'o', 'n', 'e']);
    assert("email"@ =~= seq!['e', 'm', 'a', 'i', 'l']);
    assert("name"@ =~= seq!['n', 'a', 'm', 'e']);
    assert("_id"@ =~= seq!['_', 'i', 'd']);
    assert("-id"@ =~= seq!['-', 'i', 'd']);
    assert("user"@ =~= seq!['u', 's', 'e', 'r']);
    assert("login"@ =~= seq!['l', 'o', 'g', 'i', 'n']);
    assert("address"@ =~= seq!['a', 'd', 'd', 'r', 'e', 's', 's']);
    assert("id"@ =~= seq!['i', 'd']);
    assert("Id"@ =~= seq!['I', 'd']);
    lemma_infix_at(lower, "password"@, 8);
    lemma_infix_at(lower, "secret"@, 6);
    lemma_infix_at(lower, "token"@, 5);
    lemma_infix_at(lower, "phone"@, 5);
    lemma_infix_at(lower, "email"@, 5);
}

/// Which members are sensitive: those the built-in rule selects (when it is
/// in use), and those whose whole lower-case name equals one of the extra
/// field names. A name that merely contains an extra name, or that equals
/// one only up to case of the extra name, is not selected by it.
pub proof fn lemma_member_selection_rule(key: Seq<char>, extra: Seq<Seq<char>>, use_default: bool)
    ensures
        key_selected(key, extra, use_default) <==> ((use_default && sensitive_name(
            key,
            lowercase(key),
        )) || exists|i: int| 0 <= i < extra.len() && #[trigger] extra[i] == lowercase(key)),
        !use_default ==> (key_selected(key, extra, use_default) <==> exists|i: int|
            0 <= i < extra.len() && #[trigger] extra[i] == lowercase(key)),
{
}

} // verus!
