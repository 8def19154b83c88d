//! The order of strings (`Ord` for `String`) and sorting values into it.
use vstd::prelude::*;

use crate::chars::chars_of;
use crate::obfuscate::lex_lt_at;

verus! {

/// `a` comes before `b` as `String`s are ordered: they first differ at a
/// position where `a` has the smaller character, or `a` is a proper prefix
/// of `b`. (Comparing UTF-8 bytes, as `String` does, gives the same order as
/// comparing characters.)
pub open spec fn str_lt(a: Seq<char>, b: Seq<char>) -> bool {
    ||| exists|i: int| lex_lt_at(a, b, i)
    ||| (a.len() < b.len() && b.take(a.len() as int) == a)
}

/// Every value comes before the ones after it (so none occurs twice).
pub open spec fn strictly_sorted(s: Seq<Seq<char>>) -> bool {
    forall|i: int, j: int| 0 <= i < j < s.len() ==> str_lt(#[trigger] s[i], #[trigger] s[j])
}

/// No string comes before itself.
pub proof fn lemma_str_lt_irreflexive(a: Seq<char>)
    ensures
        !str_lt(a, a),
{
    if exists|i: int| lex_lt_at(a, a, i) {
        let i = choose|i: int| lex_lt_at(a, a, i);
        assert(a[i] == a[i]);
    }
}

proof fn lemma_str_lt_total(a: Seq<char>, b: Seq<char>)
    requires
        a != b,
    ensures
        str_lt(a, b) || str_lt(b, a),
{
    let n = if a.len() < b.len() {
        a.len()
    } else {
        b.len()
    };
    if exists|i: int| 0 <= i < n && a[i] != b[i] {
        let i = choose|i: int| 0 <= i < n && a[i] != b[i];
        // take the first difference
        let k = first_difference(a, b, i);
        assert(a.take(k) =~= b.take(k));
        vstd::utf8::char_u32_cast(a[k], a[k] as u32);
        vstd::utf8::char_u32_cast(b[k], b[k] as u32);
        if (a[k] as u32) < (b[k] as u32) {
            assert(lex_lt_at(a, b, k));
        } else {
            assert(a[k] as u32 != b[k] as u32);
            assert(lex_lt_at(b, a, k));
        }
    } else {
        if a.len() < b.len() {
            assert(b.take(a.len() as int) =~= a);
        } else if b.len() < a.len() {
            assert(a.take(b.len() as int) =~= b);
        } else {
            assert(a =~= b);
        }
    }
}

/// The first position at or below `i` where `a` and `b` differ.
proof fn first_difference(a: Seq<char>, b: Seq<char>, i: int) -> (k: int)
    requires
        0 <= i < a.len(),
        i < b.len(),
        a[i] != b[i],
    ensures
        0 <= k <= i,
        a[k] != b[k],
        forall|j: int| 0 <= j < k ==> a[j] == b[j],
    decreases i,
{
    if exists|j: int| 0 <= j < i && a[j] != b[j] {
        let j = choose|j: int| 0 <= j < i && a[j] != b[j];
        first_difference(a, b, j)
    } else {
        i
    }
}

/// The order of strings is transitive.
pub proof fn lemma_str_lt_transitive(a: Seq<char>, b: Seq<char>, c: Seq<char>)
    requires
        str_lt(a, b),
        str_lt(b, c),
    ensures
        str_lt(a, c),
{
    if exists|i: int| lex_lt_at(a, b, i) {
        let i = choose|i: int| lex_lt_at(a, b, i);
        if exists|j: int| lex_lt_at(b, c, j) {
            let j = choose|j: int| lex_lt_at(b, c, j);
            if i < j {
                assert(b.take(j)[i] == b[i]);
                assert(c.take(j)[i] == c[i]);
                assert(a.take(i) =~= c.take(i)) by {
                    assert forall|m: int| 0 <= m < i implies a.take(i)[m] == c.take(i)[m] by {
                        assert(a.take(i)[m] == b.take(i)[m]);
                        assert(b.take(j)[m] == c.take(j)[m]);
                    }
                }
                assert(lex_lt_at(a, c, i));
            } else if j == i {
                assert(a.take(i) =~= c.take(i)) by {
                    assert forall|m: int| 0 <= m < i implies a.take(i)[m] == c.take(i)[m] by {
                        assert(a.take(i)[m] == b.take(i)[m]);
                        assert(b.take(j)[m] == c.take(j)[m]);
                    }
                }
                assert(lex_lt_at(a, c, i));
            } else {
                assert(a.take(i)[j] == a[j]);
                assert(b.take(i)[j] == b[j]);
                assert(a.take(j) =~= c.take(j)) by {
                    assert forall|m: int| 0 <= m < j implies a.take(j)[m] == c.take(j)[m] by {
                        assert(a.take(i)[m] == b.take(i)[m]);
                        assert(b.take(j)[m] == c.take(j)[m]);
                    }
                }
                assert(lex_lt_at(a, c, j));
            }
        } else {
            // b is a proper prefix of c
            assert(c.take(b.len() as int)[i] == b[i]);
            assert(a.take(i) =~= c.take(i)) by {
                assert forall|m: int| 0 <= m < i implies a.take(i)[m] == c.take(i)[m] by {
                    assert(a.take(i)[m] == b.take(i)[m]);
                    assert(c.take(b.len() as int)[m] == b[m]);
                }
            }
            assert(lex_lt_at(a, c, i));
        }
    } else {
        // a is a proper prefix of b
        if exists|j: int| lex_lt_at(b, c, j) {
            let j = choose|j: int| lex_lt_at(b, c, j);
            if j < a.len() {
                assert(b.take(a.len() as int)[j] == b[j]);
                assert(a.take(j) =~= c.take(j)) by {
                    assert forall|m: int| 0 <= m < j implies a.take(j)[m] == c.take(j)[m] by {
                        assert(b.take(a.len() as int)[m] == b[m]);
                        assert(b.take(j)[m] == c.take(j)[m]);
                    }
                }
                assert(lex_lt_at(a, c, j));
            } else {
                assert(c.take(a.len() as int) =~= a) by {
                    assert forall|m: int| 0 <= m < a.len() implies c.take(a.len() as int)[m]
                        == a[m] by {
                        assert(b.take(a.len() as int)[m] == b[m]);
                        assert(b.take(j)[m] == c.take(j)[m]);
                    }
                }
            }
        } else {
            assert(c.take(a.len() as int) =~= a) by {
                assert forall|m: int| 0 <= m < a.len() implies c.take(a.len() as int)[m] == a[m] by {
                    assert(b.take(a.len() as int)[m] == b[m]);
                    assert(c.take(b.len() as int)[m] == b[m]);
                }
            }
        }
    }
}

/// Sorting makes the list of distinct values depend on their set alone: two
/// strictly sorted lists with the same values are equal (so the table built
/// from them is the same, whatever order the values were collected in).
pub proof fn lemma_sorted_determined(a: Seq<Seq<char>>, b: Seq<Seq<char>>)
    requires
        strictly_sorted(a),
        strictly_sorted(b),
        a.to_set() == b.to_set(),
    ensures
        a == b,
    decreases a.len(),
{
    if a.len() == 0 {
        if b.len() > 0 {
            assert(b.to_set().contains(b[0]));
        }
        assert(a =~= b);
    } else {
        assert(a.to_set().contains(a[0]));
        assert(b.len() > 0);
        assert(b.to_set().contains(b[0]));
        let j = choose|j: int| 0 <= j < b.len() && b[j] == a[0];
        let i = choose|i: int| 0 <= i < a.len() && a[i] == b[0];
        if j > 0 {
            assert(str_lt(b[0], b[j]));
            if i > 0 {
                assert(str_lt(a[0], a[i]));
                lemma_str_lt_transitive(a[0], b[0], a[0]);
                lemma_str_lt_irreflexive(a[0]);
            } else {
                lemma_str_lt_irreflexive(b[0]);
            }
        }
        assert(a[0] == b[0]);
        let ra = a.drop_first();
        let rb = b.drop_first();
        assert(strictly_sorted(ra)) by {
            assert forall|x: int, y: int| 0 <= x < y < ra.len() implies str_lt(
                #[trigger] ra[x],
                #[trigger] ra[y],
            ) by {
                assert(ra[x] == a[x + 1]);
                assert(ra[y] == a[y + 1]);
            }
        }
        assert(strictly_sorted(rb)) by {
            assert forall|x: int, y: int| 0 <= x < y < rb.len() implies str_lt(
                #[trigger] rb[x],
                #[trigger] rb[y],
            ) by {
                assert(rb[x] == b[x + 1]);
                assert(rb[y] == b[y + 1]);
            }
        }
        assert(ra.to_set() =~= rb.to_set()) by {
            assert forall|v: Seq<char>| ra.to_set().contains(v) implies rb.to_set().contains(v) by {
                let x = choose|x: int| 0 <= x < ra.len() && ra[x] == v;
                assert(a[x + 1] == v);
                assert(a.to_set().contains(v));
                let y = choose|y: int| 0 <= y < b.len() && b[y] == v;
                if y == 0 {
                    assert(str_lt(a[0], a[x + 1]));
                    lemma_str_lt_irreflexive(a[0]);
                }
                assert(rb[y - 1] == v);
            }
            assert forall|v: Seq<char>| rb.to_set().contains(v) implies ra.to_set().contains(v) by {
                let y = choose|y: int| 0 <= y < rb.len() && rb[y] == v;
                assert(b[y + 1] == v);
                assert(b.to_set().contains(v));
                let x = choose|x: int| 0 <= x < a.len() && a[x] == v;
                if x == 0 {
                    assert(str_lt(b[0], b[y + 1]));
                    lemma_str_lt_irreflexive(b[0]);
                }
                assert(ra[x - 1] == v);
            }
        }
        lemma_sorted_determined(ra, rb);
        assert(a =~= seq![a[0]] + ra);
        assert(b =~= seq![b[0]] + rb);
    }
}

/// Whether `a` comes before `b` (`a < b` for `String`s).
fn chars_lt(a: &Vec<char>, b: &Vec<char>) -> (r: bool)
    ensures
        r == str_lt(a@, b@),
{
    let n = if a.len() < b.len() {
        a.len()
    } else {
        b.len()
    };
    let mut i: usize = 0;
    while i < n
        invariant
            n <= a@.len(),
            n <= b@.len(),
            n == a@.len() || n == b@.len(),
            i <= n,
            forall|j: int| 0 <= j < i ==> a@[j] == b@[j],
        decreases n - i,
    {
        if a[i] != b[i] {
            proof {
                assert(a@.take(i as int) =~= b@.take(i as int));
                vstd::utf8::char_u32_cast(a@[i as int], a@[i as int] as u32);
                vstd::utf8::char_u32_cast(b@[i as int], b@[i as int] as u32);
                if (a@[i as int] as u32) < (b@[i as int] as u32) {
                    assert(lex_lt_at(a@, b@, i as int));
                } else {
                    assert(lex_lt_at(b@, a@, i as int));
                    lemma_not_both(a@, b@);
                }
            }
            return (a[i] as u32) < (b[i] as u32);
        }
        i = i + 1;
    }
    proof {
        if a@.len() < b@.len() {
            assert(b@.take(a@.len() as int) =~= a@);
        } else {
            assert(a@.take(b@.len() as int) =~= b@.take(b@.len() as int));
            if exists|k: int| lex_lt_at(a@, b@, k) {
                let k = choose|k: int| lex_lt_at(a@, b@, k);
                assert(a@[k] == b@[k]);
            }
        }
    }
    a.len() < b.len()
}

proof fn lemma_not_both(a: Seq<char>, b: Seq<char>)
    requires
        str_lt(b, a),
    ensures
        !str_lt(a, b),
{
    if str_lt(a, b) {
        lemma_str_lt_transitive(a, b, a);
        lemma_str_lt_irreflexive(a);
    }
}

/// The distinct values, sorted (`sort` followed by `dedup`).
pub fn sort_unique(values: Vec<String>) -> (r: Vec<String>)
    ensures
        strictly_sorted(r@.map_values(|s: String| s@)),
        r@.map_values(|s: String| s@).to_set() == values@.map_values(|s: String| s@).to_set(),
{
    let ghost vs = values@.map_values(|s: String| s@);
    let mut r: Vec<String> = Vec::new();
    let mut rc: Vec<Vec<char>> = Vec::new();
    for i in 0..values.len()
        invariant
            vs == values@.map_values(|s: String| s@),
            rc@.len() == r@.len(),
            forall|k: int| 0 <= k < r@.len() ==> (#[trigger] rc@[k])@ == r@[k]@,
            strictly_sorted(r@.map_values(|s: String| s@)),
            r@.map_values(|s: String| s@).to_set() == vs.take(i as int).to_set(),
    {
        let x = values[i].clone();
        let xc = chars_of(x.as_str());
        let ghost rv = r@.map_values(|s: String| s@);
        let mut p: usize = 0;
        while p < rc.len() && chars_lt(&rc[p], &xc)
            invariant
                p <= rc@.len(),
                rc@.len() == r@.len(),
                rv == r@.map_values(|s: String| s@),
                forall|k: int| 0 <= k < r@.len() ==> (#[trigger] rc@[k])@ == r@[k]@,
                xc@ == x@,
                forall|k: int| 0 <= k < p ==> str_lt(#[trigger] rv[k], x@),
            decreases rc@.len() - p,
        {
            p = p + 1;
        }
        proof {
            assert(vs.take(i + 1) =~= vs.take(i as int).push(x@));
            vs.take(i as int).lemma_push_to_set_commute(x@);
        }
        let dup = p < rc.len() && chars_eq(&rc[p], &xc);
        if dup {
            assert(rv[p as int] == x@);
            assert(rv.to_set().insert(x@) =~= rv.to_set());
        } else {
            proof {
                assert forall|k: int| p <= k < rv.len() implies str_lt(x@, #[trigger] rv[k]) by {
                    assert(!str_lt(rv[p as int], x@));
                    assert(rv[p as int] != x@);
                    lemma_str_lt_total(rv[p as int], x@);
                    if k > p {
                        lemma_str_lt_transitive(x@, rv[p as int], rv[k]);
                    }
                }
            }
            let ghost old_rc = rc@;
            r.insert(p, x);
            rc.insert(p, xc);
            proof {
                let nv = r@.map_values(|s: String| s@);
                assert(nv =~= rv.insert(p as int, x@));
                rv.lemma_push_to_set_commute(x@);
                assert(nv.to_set() =~= rv.to_set().insert(x@)) by {
                    assert forall|y: Seq<char>| nv.contains(y) <==> rv.push(x@).contains(y) by {
                        if nv.contains(y) {
                            let k = choose|k: int| 0 <= k < nv.len() && nv[k] == y;
                            if k < p {
                                assert(rv.push(x@)[k] == y);
                            } else if k > p {
                                assert(rv.push(x@)[k - 1] == y);
                            } else {
                                assert(rv.push(x@)[rv.len() as int] == y);
                            }
                        }
                        if rv.push(x@).contains(y) {
                            let k = choose|k: int| 0 <= k < rv.len() + 1 && rv.push(x@)[k] == y;
                            if k < p {
                                assert(nv[k] == y);
                            } else if k < rv.len() {
                                assert(nv[k + 1] == y);
                            } else {
                                assert(nv[p as int] == y);
                            }
                        }
                    }
                }
                assert forall|a: int, b: int| 0 <= a < b < nv.len() implies str_lt(
                    #[trigger] nv[a],
                    #[trigger] nv[b],
                ) by {
                    if a < p && b == p {
                    } else if a < p && b > p {
                        assert(nv[b] == rv[b - 1]);
                    } else if a == p {
                        assert(nv[b] == rv[b - 1]);
                    } else if b < p {
                    } else {
                        assert(nv[a] == rv[a - 1]);
                        assert(nv[b] == rv[b - 1]);
                    }
                }
                assert forall|k: int| 0 <= k < r@.len() implies (#[trigger] rc@[k])@ == r@[k]@ by {
                    if k < p {
                    } else if k > p {
                        assert(rc@[k] == old_rc[k - 1]);
                    }
                }
            }
        }
    }
    assert(vs.take(values@.len() as int) =~= vs);
    r
}

/// Whether two character sequences are equal.
fn chars_eq(a: &Vec<char>, b: &Vec<char>) -> (r: bool)
    ensures
        r == (a@ == b@),
{
    if a.len() != b.len() {
        return false;
    }
    let mut i: usize = 0;
    while i < a.len()
        invariant
            a@.len() == b@.len(),
            i <= a@.len(),
            forall|j: int| 0 <= j < i ==> a@[j] == b@[j],
        decreases a@.len() - i,
    {
        if a[i] != b[i] {
            return false;
        }
        i = i + 1;
    }
    assert(a@ =~= b@);
    true
}

} // verus!
