//! The table from sensitive values to their obfuscated replacements, and how
//! it is built so that distinct values never share a replacement.
use vstd::prelude::*;

use crate::chars::contains_string;
use crate::sensitive::views;
use crate::obfuscate::{
    candidate_chars, increment_obfuscated, lemma_obfuscated_candidate,
    lemma_obfuscated_idempotent, lemma_shortlex_irreflexive, lemma_shortlex_transitive,
    lemma_successor_increases, lemma_successor_step, obfuscate_str, obfuscated, shortlex_lt,
    successor,
};
use crate::order::{lemma_str_lt_irreflexive, lemma_str_lt_transitive, str_lt, strictly_sorted};

verus! {

/// The pairs of a list of string pairs, as character sequences.
pub open spec fn pair_views(e: Seq<(String, String)>) -> Seq<(Seq<char>, Seq<char>)> {
    e.map_values(|p: (String, String)| (p.0@, p.1@))
}

/// The map that a list of pairs with distinct keys describes.
pub open spec fn pairs_to_map(e: Seq<(Seq<char>, Seq<char>)>) -> Map<Seq<char>, Seq<char>>
    decreases e.len(),
{
    if e.len() == 0 {
        Map::empty()
    } else {
        pairs_to_map(e.drop_last()).insert(e.last().0, e.last().1)
    }
}

/// No key occurs twice.
pub open spec fn distinct_keys(e: Seq<(Seq<char>, Seq<char>)>) -> bool {
    forall|i: int, j: int| 0 <= i < j < e.len() ==> #[trigger] e[i].0 != #[trigger] e[j].0
}

/// A map that sends distinct keys to distinct values.
pub open spec fn injective(m: Map<Seq<char>, Seq<char>>) -> bool {
    forall|a: Seq<char>, b: Seq<char>|
        #![trigger m[a], m[b]]
        m.dom().contains(a) && m.dom().contains(b) && a != b ==> m[a] != m[b]
}

/// A table from sensitive values to replacements, kept in insertion order;
/// no value occurs twice.
pub struct Mapping {
    entries: Vec<(String, String)>,
}

impl Mapping {
    #[verifier::type_invariant]
    spec fn keys_distinct(self) -> bool {
        distinct_keys(pair_views(self.entries@))
    }

    /// The pairs of the table, in insertion order.
    pub closed spec fn entries(self) -> Seq<(Seq<char>, Seq<char>)> {
        pair_views(self.entries@)
    }

    /// The pairs of the table (their order is the insertion order).
    pub fn pairs(&self) -> (r: &Vec<(String, String)>)
        ensures
            pair_views(r@) == self.entries(),
            distinct_keys(self.entries()),
    {
        proof {
            use_type_invariant(self);
        }
        &self.entries
    }

    /// An empty table.
    pub fn new() -> (r: Mapping)
        ensures
            r.entries() == Seq::<(Seq<char>, Seq<char>)>::empty(),
            r@ == Map::<Seq<char>, Seq<char>>::empty(),
    {
        let r = Mapping { entries: Vec::new() };
        assert(r.entries() =~= Seq::<(Seq<char>, Seq<char>)>::empty());
        r
    }

    /// The number of pairs.
    pub fn len(&self) -> (r: usize)
        ensures
            r == self.entries().len(),
            r == self@.dom().len(),
    {
        proof {
            use_type_invariant(self);
            lemma_pairs_to_map_len(self.entries());
        }
        self.entries.len()
    }

    /// The index of `key` among the pairs, if present.
    fn position(&self, key: &String) -> (r: Option<usize>)
        ensures
            match r {
                Some(i) => i < self.entries().len() && self.entries()[i as int].0 == key@,
                None => forall|i: int|
                    0 <= i < self.entries().len() ==> #[trigger] self.entries()[i].0 != key@,
            },
    {
        let mut i: usize = 0;
        while i < self.entries.len()
            invariant
                i <= self.entries@.len(),
                forall|j: int| 0 <= j < i ==> #[trigger] self.entries()[j].0 != key@,
            decreases self.entries@.len() - i,
        {
            if self.entries[i].0 == *key {
                return Some(i);
            }
            i = i + 1;
        }
        None
    }

    /// The replacement recorded for `key`, if any.
    pub fn get(&self, key: &String) -> (r: Option<&String>)
        ensures
            match r {
                Some(v) => self@.dom().contains(key@) && self@[key@] == v@,
                None => !self@.dom().contains(key@),
            },
    {
        proof {
            use_type_invariant(self);
            lemma_pairs_to_map_lookup(self.entries());
        }
        match self.position(key) {
            Some(i) => Some(&self.entries[i].1),
            None => None,
        }
    }

    /// Records `value` as the replacement of `key`, replacing an earlier one.
    pub fn insert(&mut self, key: String, value: String)
        ensures
            final(self)@ == old(self)@.insert(key@, value@),
            old(self)@.dom().contains(key@) ==> final(self).entries().len() == old(
                self,
            ).entries().len(),
            !old(self)@.dom().contains(key@) ==> final(self).entries() == old(
                self,
            ).entries().push((key@, value@)),
    {
        proof {
            use_type_invariant(&*self);
            lemma_pairs_to_map_lookup(self.entries());
        }
        let ghost e0 = self.entries();
        let pos = self.position(&key);
        let mut entries: Vec<(String, String)> = Vec::new();
        std::mem::swap(&mut entries, &mut self.entries);
        match pos {
            Some(i) => {
                let ghost e1 = e0.update(i as int, (key@, value@));
                proof {
                    lemma_pairs_to_map_update(e0, i as int, value@);
                }
                entries.set(i, (key, value));
                assert(pair_views(entries@) =~= e1);
                self.entries = entries;
            },
            None => {
                entries.push((key, value));
                let ghost e2 = pair_views(entries@);
                assert(e2.drop_last() =~= e0);
                assert(distinct_keys(e2)) by {
                    assert forall|a: int, b: int| 0 <= a < b < e2.len() implies #[trigger] e2[a].0
                        != #[trigger] e2[b].0 by {
                        assert(e2[a] == e0[a]);
                        if b < e0.len() {
                            assert(e2[b] == e0[b]);
                        }
                    }
                }
                self.entries = entries;
            },
        }
    }
}

impl View for Mapping {
    type V = Map<Seq<char>, Seq<char>>;

    closed spec fn view(&self) -> Map<Seq<char>, Seq<char>> {
        pairs_to_map(self.entries())
    }
}

/// A table's map is the one its pairs describe.
pub proof fn lemma_view_is_pairs(m: Mapping)
    ensures
        m@ == pairs_to_map(m.entries()),
{
}

/// With distinct keys, the map of a list of pairs holds exactly its keys,
/// each with its own value.
pub proof fn lemma_pairs_to_map_lookup(e: Seq<(Seq<char>, Seq<char>)>)
    requires
        distinct_keys(e),
    ensures
        forall|k: Seq<char>|
            #[trigger] pairs_to_map(e).dom().contains(k) <==> exists|i: int|
                0 <= i < e.len() && #[trigger] e[i].0 == k,
        forall|i: int|
            0 <= i < e.len() ==> pairs_to_map(e).dom().contains(#[trigger] e[i].0)
                && pairs_to_map(e)[e[i].0] == e[i].1,
    decreases e.len(),
{
    if e.len() > 0 {
        let p = e.drop_last();
        lemma_pairs_to_map_lookup(p);
        assert forall|k: Seq<char>|
            #[trigger] pairs_to_map(e).dom().contains(k) <==> exists|i: int|
                0 <= i < e.len() && #[trigger] e[i].0 == k by {
            if pairs_to_map(e).dom().contains(k) {
                if k != e.last().0 {
                    assert(pairs_to_map(e) == pairs_to_map(p).insert(e.last().0, e.last().1));
                    assert(pairs_to_map(p).dom().contains(k));
                    let i = choose|i: int| 0 <= i < p.len() && #[trigger] p[i].0 == k;
                    assert(p[i] == e[i]);
                    assert(e[i].0 == k);
                } else {
                    assert(e[e.len() - 1].0 == k);
                }
            }
            if exists|i: int| 0 <= i < e.len() && #[trigger] e[i].0 == k {
                let i = choose|i: int| 0 <= i < e.len() && #[trigger] e[i].0 == k;
                if i < e.len() - 1 {
                    assert(p[i] == e[i]);
                    assert(p[i].0 == k);
                }
            }
        }
        assert forall|i: int| 0 <= i < e.len() implies pairs_to_map(e).dom().contains(
            #[trigger] e[i].0,
        ) && pairs_to_map(e)[e[i].0] == e[i].1 by {
            if i < e.len() - 1 {
                assert(p[i] == e[i]);
                assert(e[i].0 != e[e.len() - 1].0);
            }
        }
    }
}

proof fn lemma_pairs_to_map_len(e: Seq<(Seq<char>, Seq<char>)>)
    requires
        distinct_keys(e),
    ensures
        pairs_to_map(e).dom().finite(),
        pairs_to_map(e).dom().len() == e.len(),
    decreases e.len(),
{
    if e.len() > 0 {
        let p = e.drop_last();
        lemma_pairs_to_map_len(p);
        lemma_pairs_to_map_lookup(p);
        if pairs_to_map(p).dom().contains(e.last().0) {
            let i = choose|i: int| 0 <= i < p.len() && #[trigger] p[i].0 == e.last().0;
            assert(e[i].0 == e[e.len() - 1].0);
        }
    }
}

proof fn lemma_pairs_to_map_update(e: Seq<(Seq<char>, Seq<char>)>, i: int, v: Seq<char>)
    requires
        distinct_keys(e),
        0 <= i < e.len(),
    ensures
        distinct_keys(e.update(i, (e[i].0, v))),
        pairs_to_map(e.update(i, (e[i].0, v))) == pairs_to_map(e).insert(e[i].0, v),
    decreases e.len(),
{
    let u = e.update(i, (e[i].0, v));
    assert(distinct_keys(u)) by {
        assert forall|a: int, b: int| 0 <= a < b < u.len() implies #[trigger] u[a].0
            != #[trigger] u[b].0 by {
            assert(e[a].0 != e[b].0);
        }
    }
    if i == e.len() - 1 {
        assert(u.drop_last() =~= e.drop_last());
        assert(pairs_to_map(u) =~= pairs_to_map(e).insert(e[i].0, v));
    } else {
        let p = e.drop_last();
        lemma_pairs_to_map_update(p, i, v);
        assert(u.drop_last() =~= p.update(i, (p[i].0, v)));
        assert(p[i].0 != e.last().0);
        assert(pairs_to_map(u) =~= pairs_to_map(e).insert(e[i].0, v));
    }
}

/// The candidate reached from `start` after `n` steps.
pub open spec fn iterate(start: Seq<char>, n: nat) -> Seq<char>
    decreases n,
{
    if n == 0 {
        start
    } else {
        successor(iterate(start, (n - 1) as nat))
    }
}

/// `n` is the first number of steps from `start` that reaches a candidate
/// not in `used`.
pub open spec fn is_first_free(used: Set<Seq<char>>, start: Seq<char>, n: nat) -> bool {
    &&& !used.contains(iterate(start, n))
    &&& forall|j: nat| j < n ==> used.contains(#[trigger] iterate(start, j))
}

/// The replacement given to `value` when the replacements in `used` are
/// taken: its obfuscated form, stepped forward until it is free.
pub open spec fn fresh_name(used: Set<Seq<char>>, value: Seq<char>) -> Seq<char> {
    let start = obfuscated(value);
    iterate(start, choose|n: nat| is_first_free(used, start, n))
}

/// The table and the set of taken replacements after assigning `values`
/// one after the other.
pub open spec fn assign_all(values: Seq<Seq<char>>) -> (Map<Seq<char>, Seq<char>>, Set<Seq<char>>)
    decreases values.len(),
{
    if values.len() == 0 {
        (Map::empty(), Set::empty())
    } else {
        let (m, used) = assign_all(values.drop_last());
        let name = fresh_name(used, values.last());
        (m.insert(values.last(), name), used.insert(name))
    }
}

/// A value already in obfuscated form keeps itself as replacement when no
/// earlier value took that replacement (so obfuscating obfuscated values
/// changes nothing where they do not collide).
pub proof fn lemma_fresh_name_fixed_point(used: Set<Seq<char>>, value: Seq<char>)
    requires
        obfuscated(value) == value,
        !used.contains(value),
    ensures
        fresh_name(used, value) == value,
{
    assert(is_first_free(used, value, 0));
    let n = choose|n: nat| is_first_free(used, obfuscated(value), n);
    lemma_first_free_unique(used, value, 0, n);
}

/// Distinct values that are each their own obfuscated form are each given
/// themselves. (Replacements stepped past a taken one, such as `aaaaB`, are
/// not their own obfuscated form; see [`lemma_second_table_identity`] for
/// the table built from a whole table's replacements.)
pub proof fn lemma_assign_all_fixed_points(values: Seq<Seq<char>>)
    requires
        forall|i: int| 0 <= i < values.len() ==> obfuscated(#[trigger] values[i]) == values[i],
        forall|i: int, j: int| 0 <= i < j < values.len() ==> #[trigger] values[i] != #[trigger] values[j],
    ensures
        assign_all(values).1 == values.to_set(),
        forall|i: int|
            0 <= i < values.len() ==> #[trigger] assign_all(values).0[values[i]] == values[i],
        assign_all(values).0.dom() == values.to_set(),
    decreases values.len(),
{
    if values.len() > 0 {
        let p = values.drop_last();
        let v = values.last();
        lemma_assign_all_fixed_points(p);
        let (m, used) = assign_all(p);
        assert(!used.contains(v)) by {
            if p.to_set().contains(v) {
                let j = choose|j: int| 0 <= j < p.len() && p[j] == v;
                assert(values[j] == values[values.len() - 1]);
            }
        }
        assert(obfuscated(values[values.len() - 1]) == values[values.len() - 1]);
        lemma_fresh_name_fixed_point(used, v);
        assert(values =~= p.push(v));
        p.lemma_push_to_set_commute(v);
        assert forall|i: int| 0 <= i < values.len() implies #[trigger] assign_all(values).0[values[i]]
            == values[i] by {
            if i < values.len() - 1 {
                assert(values[i] == p[i]);
                assert(values[i] != v);
            }
        }
    }
}

/// Each replacement is the value's obfuscated form or a later candidate
/// reached from it, and no earlier candidate was free.
pub proof fn lemma_fresh_name_is_first_free(used: Set<Seq<char>>, value: Seq<char>, n: nat)
    requires
        is_first_free(used, obfuscated(value), n),
    ensures
        fresh_name(used, value) == iterate(obfuscated(value), n),
        !used.contains(fresh_name(used, value)),
{
    let c = choose|k: nat| is_first_free(used, obfuscated(value), k);
    lemma_first_free_unique(used, obfuscated(value), n, c);
}

/// Stepping from the obfuscated form of `values[h]` reaches a replacement
/// not taken by the values before it.
pub open spec fn has_free_step(values: Seq<Seq<char>>, h: int) -> bool {
    exists|k: nat| #[trigger] is_first_free(assign_all(values.take(h)).1, obfuscated(values[h]), k)
}

/// The replacement `m` gives `values[i]` is the first candidate, stepping
/// from its obfuscated form, that differs from the replacements of the
/// values before it.
pub open spec fn takes_first_free(m: Map<Seq<char>, Seq<char>>, values: Seq<Seq<char>>, i: int) -> bool {
    exists|k: nat|
        #[trigger] is_first_free(earlier_names(m, values, i), obfuscated(values[i]), k) && m[values[i]]
            == iterate(obfuscated(values[i]), k)
}

/// The replacements given to the first `i` of `values` in the map `m`.
pub open spec fn earlier_names(m: Map<Seq<char>, Seq<char>>, values: Seq<Seq<char>>, i: int) -> Set<Seq<char>> {
    Set::new(|x: Seq<char>| exists|h: int| 0 <= h < i && m[values[h]] == x)
}

proof fn lemma_assign_all_used(values: Seq<Seq<char>>)
    requires
        values.no_duplicates(),
    ensures
        assign_all(values).1 == earlier_names(assign_all(values).0, values, values.len() as int),
        assign_all(values).0.dom() == values.to_set(),
    decreases values.len(),
{
    if values.len() > 0 {
        let p = values.drop_last();
        let v = values.last();
        lemma_assign_all_used(p);
        let (mp, up) = assign_all(p);
        let (m, u) = assign_all(values);
        assert forall|h: int| 0 <= h < p.len() implies m[#[trigger] values[h]] == mp[p[h]] by {
            assert(values[h] == p[h]);
            assert(values[h] != values[values.len() - 1]);
        }
        assert(u =~= earlier_names(m, values, values.len() as int)) by {
            assert forall|x: Seq<char>| u.contains(x) implies earlier_names(
                m,
                values,
                values.len() as int,
            ).contains(x) by {
                if up.contains(x) {
                    let h = choose|h: int| 0 <= h < p.len() && mp[p[h]] == x;
                    assert(m[values[h]] == x);
                } else {
                    assert(m[values[values.len() - 1]] == x);
                }
            }
            assert forall|x: Seq<char>| earlier_names(m, values, values.len() as int).contains(
                x,
            ) implies u.contains(x) by {
                let h = choose|h: int| 0 <= h < values.len() && m[values[h]] == x;
                if h < p.len() {
                    assert(earlier_names(mp, p, p.len() as int).contains(x));
                }
            }
        }
        assert(values =~= p.push(v));
        p.lemma_push_to_set_commute(v);
    }
}

/// For distinct values, the replacement of each value is [`fresh_name`]
/// given the replacements of the values before it.
proof fn lemma_assign_all_entry(values: Seq<Seq<char>>, i: int)
    requires
        values.no_duplicates(),
        0 <= i < values.len(),
    ensures
        assign_all(values).0[values[i]] == fresh_name(assign_all(values.take(i)).1, values[i]),
        assign_all(values.take(i)).1 == earlier_names(assign_all(values).0, values, i),
    decreases values.len(),
{
    let p = values.drop_last();
    let (m, u) = assign_all(values);
    let (mp, up) = assign_all(p);
    if i == values.len() - 1 {
        assert(values.take(i) =~= p);
        lemma_assign_all_used(p);
        assert(assign_all(values.take(i)).1 =~= earlier_names(m, values, i)) by {
            assert forall|h: int| 0 <= h < i implies m[#[trigger] values[h]] == mp[p[h]] by {
                assert(values[h] == p[h]);
                assert(values[h] != values[i]);
            }
            assert forall|x: Seq<char>| up.contains(x) <==> earlier_names(m, values, i).contains(x) by {
                if up.contains(x) {
                    let h = choose|h: int| 0 <= h < p.len() && mp[p[h]] == x;
                    assert(m[values[h]] == x);
                }
                if earlier_names(m, values, i).contains(x) {
                    let h = choose|h: int| 0 <= h < i && m[values[h]] == x;
                    assert(earlier_names(mp, p, p.len() as int).contains(x));
                }
            }
        }
    } else {
        assert(p.no_duplicates());
        lemma_assign_all_entry(p, i);
        assert(values.take(i) =~= p.take(i));
        assert(values[i] == p[i]);
        assert(values[i] != values[values.len() - 1]);
        assert forall|h: int| 0 <= h < i implies m[#[trigger] values[h]] == mp[p[h]] by {
            assert(values[h] == p[h]);
            assert(values[h] != values[values.len() - 1]);
        }
        assert(earlier_names(m, values, i) =~= earlier_names(mp, p, i)) by {
            assert forall|x: Seq<char>| earlier_names(m, values, i).contains(x) <==> earlier_names(
                mp,
                p,
                i,
            ).contains(x) by {
                if earlier_names(m, values, i).contains(x) {
                    let h = choose|h: int| 0 <= h < i && m[values[h]] == x;
                    assert(mp[p[h]] == x);
                }
                if earlier_names(mp, p, i).contains(x) {
                    let h = choose|h: int| 0 <= h < i && mp[p[h]] == x;
                    assert(m[values[h]] == x);
                }
            }
        }
    }
}

/// How many of `us` do not come before `s`.
pub open spec fn count_not_below(us: Seq<Seq<char>>, s: Seq<char>) -> nat
    decreases us.len(),
{
    if us.len() == 0 {
        0
    } else {
        count_not_below(us.drop_last(), s) + if shortlex_lt(us.last(), s) {
            0nat
        } else {
            1nat
        }
    }
}

proof fn lemma_count_decreases(us: Seq<Seq<char>>, s: Seq<char>, t: Seq<char>)
    requires
        shortlex_lt(s, t),
    ensures
        count_not_below(us, t) <= count_not_below(us, s),
        us.contains(s) ==> count_not_below(us, t) < count_not_below(us, s),
    decreases us.len(),
{
    if us.len() > 0 {
        let p = us.drop_last();
        let u = us.last();
        lemma_count_decreases(p, s, t);
        if shortlex_lt(u, s) {
            lemma_shortlex_transitive(u, s, t);
        }
        if u == s {
            lemma_shortlex_irreflexive(s);
        }
        if us.contains(s) && u != s {
            let i = choose|i: int| 0 <= i < us.len() && us[i] == s;
            assert(p[i] == s);
        }
    }
}

proof fn lemma_first_free_unique(used: Set<Seq<char>>, start: Seq<char>, a: nat, b: nat)
    requires
        is_first_free(used, start, a),
        is_first_free(used, start, b),
    ensures
        a == b,
{
    if a < b {
        assert(used.contains(iterate(start, a)));
    } else if b < a {
        assert(used.contains(iterate(start, b)));
    }
}

/// Builds the table from sensitive values to replacements. Each value gets
/// its obfuscated form, stepped forward while that form is already given to
/// an earlier value, so the table never sends two values to one replacement.
/// The values are handled in the order given (sorted input makes the table
/// reproducible).
pub fn build_mapping(sorted_unique: Vec<String>) -> (r: Mapping)
    ensures
        r@ == assign_all(sorted_unique@.map_values(|s: String| s@)).0,
        r@.dom() == sorted_unique@.map_values(|s: String| s@).to_set(),
        injective(r@),
        distinct_keys(r.entries()),
        sorted_unique@.map_values(|s: String| s@).no_duplicates() ==> r@.dom().len()
            == sorted_unique@.len(),
        sorted_unique@.map_values(|s: String| s@).no_duplicates() ==> forall|i: int|
            0 <= i < sorted_unique@.len() ==> #[trigger] takes_first_free(
                r@,
                views(sorted_unique@),
                i,
            ),
{
    let ghost values = sorted_unique@.map_values(|s: String| s@);
    let mut used: Vec<String> = Vec::new();
    let mut mapping = Mapping::new();
    let n = sorted_unique.len();
    let mut idx: usize = 0;
    while idx < n
        invariant
            n == values.len(),
            idx <= n,
            values == sorted_unique@.map_values(|s: String| s@),
            mapping@ == assign_all(values.take(idx as int)).0,
            used@.map_values(|x: String| x@).to_set() == assign_all(values.take(idx as int)).1,
            mapping@.dom() == values.take(idx as int).to_set(),
            injective(mapping@),
            forall|k: Seq<char>| #[trigger]
                mapping@.dom().contains(k) ==> used@.map_values(|x: String| x@).contains(
                    mapping@[k],
                ),
            forall|h: int| 0 <= h < idx ==> #[trigger] has_free_step(values, h),
        decreases n - idx,
    {
        let ghost prefix = values.take(idx as int);
        let ghost state = assign_all(prefix);
        let ghost uv = used@.map_values(|x: String| x@);
        let value = sorted_unique[idx].clone();
        assert(value@ == values[idx as int]);
        let mut candidate = obfuscate_str(value.as_str());
        let ghost start = candidate@;
        let ghost mut steps: nat = 0;
        while contains_string(&used, &candidate)
            invariant
                uv == used@.map_values(|x: String| x@),
                candidate@ == iterate(start, steps),
                forall|j: nat| j < steps ==> uv.contains(#[trigger] iterate(start, j)),
            decreases count_not_below(uv, candidate@),
        {
            proof {
                lemma_successor_increases(candidate@);
                lemma_count_decreases(uv, candidate@, successor(candidate@));
            }
            candidate = increment_obfuscated(candidate.as_str());
            proof {
                steps = steps + 1;
            }
        }
        proof {
            assert(is_first_free(state.1, start, steps));
            assert(is_first_free(assign_all(values.take(idx as int)).1, obfuscated(values[idx as int]), steps));
            assert(has_free_step(values, idx as int));
            let c = choose|n: nat| is_first_free(state.1, start, n);
            lemma_first_free_unique(state.1, start, steps, c);
            assert(values.take(idx + 1).drop_last() =~= prefix);
            assert(values.take(idx + 1).last() == value@);
        }
        let ghost old_map = mapping@;
        used.push(candidate.clone());
        mapping.insert(value, candidate);
        proof {
            let uv2 = used@.map_values(|x: String| x@);
            assert(uv2 =~= uv.push(candidate@));
            uv.lemma_push_to_set_commute(candidate@);
            assert(values.take(idx + 1).to_set() =~= prefix.to_set().insert(value@));
            assert forall|k: Seq<char>| #[trigger] mapping@.dom().contains(k) implies uv2.contains(
                mapping@[k],
            ) by {
                if k != value@ {
                    let i = choose|i: int| 0 <= i < uv.len() && uv[i] == old_map[k];
                    assert(uv2[i] == old_map[k]);
                } else {
                    assert(uv2[uv.len() as int] == candidate@);
                }
            }
            assert forall|a: Seq<char>, b: Seq<char>|
                mapping@.dom().contains(a) && mapping@.dom().contains(b) && a
                    != b implies #[trigger] mapping@[a] != #[trigger] mapping@[b] by {
                if a == value@ && old_map.dom().contains(b) {
                    assert(uv.contains(old_map[b]));
                } else if b == value@ && old_map.dom().contains(a) {
                    assert(uv.contains(old_map[a]));
                }
            }
        }
        idx = idx + 1;
    }
    assert(values.take(n as int) =~= values);
    proof {
        use_type_invariant(&mapping);
        if values.no_duplicates() {
            values.unique_seq_to_set();
            assert forall|i: int| 0 <= i < n implies #[trigger] takes_first_free(
                mapping@,
                views(sorted_unique@),
                i,
            ) by {
                lemma_assign_all_entry(values, i);
                assert(has_free_step(values, i));
                let k = choose|k: nat|
                    is_first_free(assign_all(values.take(i)).1, obfuscated(values[i]), k);
                lemma_fresh_name_is_first_free(assign_all(values.take(i)).1, values[i], k);
                assert(is_first_free(earlier_names(mapping@, values, i), obfuscated(values[i]), k));
            }
        }
    }
    mapping
}

/// Stepping `a` times and then `j` more is stepping `a + j` times.
proof fn lemma_iterate_add(s: Seq<char>, a: nat, j: nat)
    ensures
        iterate(iterate(s, a), j) == iterate(s, a + j),
    decreases j,
{
    if j > 0 {
        lemma_iterate_add(s, a, (j - 1) as nat);
    }
}

/// Later steps reach later candidates.
proof fn lemma_iterate_increases(s: Seq<char>, a: nat, c: nat)
    requires
        a < c,
    ensures
        shortlex_lt(iterate(s, a), iterate(s, c)),
    decreases c,
{
    lemma_successor_increases(iterate(s, (c - 1) as nat));
    if a < c - 1 {
        lemma_iterate_increases(s, a, (c - 1) as nat);
        lemma_shortlex_transitive(iterate(s, a), iterate(s, (c - 1) as nat), iterate(s, c));
    }
}

/// Stepping from a value that is its own obfuscated form: the candidate
/// reached after `k` steps is reached from its own obfuscated form (reached
/// after `b` steps) by steps that all keep its length.
proof fn lemma_chain_tail(start: Seq<char>, k: nat) -> (b: nat)
    requires
        candidate_chars(start),
        obfuscated(start) == start,
    ensures
        b <= k,
        candidate_chars(iterate(start, k)),
        iterate(start, b) == obfuscated(iterate(start, k)),
        forall|j: nat| b <= j <= k ==> (#[trigger] iterate(start, j)).len() == iterate(start, k).len(),
    decreases k,
{
    if k == 0 {
        0
    } else {
        let b0 = lemma_chain_tail(start, (k - 1) as nat);
        let p = iterate(start, (k - 1) as nat);
        lemma_successor_step(p);
        if successor(p).len() == p.len() && obfuscated(successor(p)) == obfuscated(p) {
            b0
        } else {
            k
        }
    }
}

/// Some candidate reached from `s` is not in the finite set `u`.
proof fn lemma_some_step_free(u: Set<Seq<char>>, s: Seq<char>) -> (k: nat)
    requires
        u.finite(),
    ensures
        !u.contains(iterate(s, k)),
    decreases u.len(),
{
    if !u.contains(s) {
        0
    } else {
        let k = lemma_some_step_free(u.remove(s), successor(s));
        lemma_iterate_add(s, 1, k);
        lemma_iterate_increases(s, 0, k + 1);
        lemma_shortlex_irreflexive(s);
        k + 1
    }
}

/// Where some candidate is free, a first free one exists.
proof fn lemma_first_free_exists(u: Set<Seq<char>>, s: Seq<char>, k: nat)
    requires
        !u.contains(iterate(s, k)),
    ensures
        exists|n: nat| is_first_free(u, s, n),
    decreases k,
{
    if forall|j: nat| j < k ==> u.contains(#[trigger] iterate(s, j)) {
        assert(is_first_free(u, s, k));
    } else {
        let j = choose|j: nat| j < k && !u.contains(#[trigger] iterate(s, j));
        lemma_first_free_exists(u, s, j);
    }
}

proof fn lemma_assign_all_finite(values: Seq<Seq<char>>)
    ensures
        assign_all(values).1.finite(),
    decreases values.len(),
{
    if values.len() > 0 {
        lemma_assign_all_finite(values.drop_last());
    }
}

/// Every value has a free replacement to step to: the taken ones are
/// finitely many.
pub proof fn lemma_has_free_step(values: Seq<Seq<char>>, h: int)
    requires
        0 <= h < values.len(),
    ensures
        has_free_step(values, h),
{
    let u = assign_all(values.take(h)).1;
    lemma_assign_all_finite(values.take(h));
    let k = lemma_some_step_free(u, obfuscated(values[h]));
    lemma_first_free_exists(u, obfuscated(values[h]), k);
}

/// `n` is reached from its own obfuscated form through candidates that are
/// all in `o` and all come before `n`.
pub open spec fn reached_through(o: Set<Seq<char>>, n: Seq<char>) -> bool {
    exists|k: nat|
        #![trigger iterate(obfuscated(n), k)]
        iterate(obfuscated(n), k) == n && forall|j: nat|
            j < k ==> o.contains(#[trigger] iterate(obfuscated(n), j)) && str_lt(
                iterate(obfuscated(n), j),
                n,
            )
}

/// Every taken replacement is reached from its own obfuscated form through
/// replacements taken too, all of them earlier in the order of strings.
proof fn lemma_taken_reached_through(values: Seq<Seq<char>>)
    ensures
        forall|n: Seq<char>| #[trigger]
            assign_all(values).1.contains(n) ==> reached_through(assign_all(values).1, n),
    decreases values.len(),
{
    if values.len() > 0 {
        let p = values.drop_last();
        let v = values.last();
        lemma_taken_reached_through(p);
        let (m, used) = assign_all(p);
        let o = assign_all(values).1;
        lemma_has_free_step(values, values.len() - 1);
        assert(values.take(values.len() - 1) =~= p);
        let start = obfuscated(v);
        let k = choose|k: nat| is_first_free(used, start, k);
        lemma_fresh_name_is_first_free(used, v, k);
        let name = fresh_name(used, v);
        assert(o == used.insert(name));
        assert forall|n: Seq<char>| #[trigger] o.contains(n) implies reached_through(o, n) by {
            if used.contains(n) {
                let kn = choose|kn: nat|
                    #![trigger iterate(obfuscated(n), kn)]
                    iterate(obfuscated(n), kn) == n && forall|j: nat|
                        j < kn ==> used.contains(#[trigger] iterate(obfuscated(n), j)) && str_lt(
                            iterate(obfuscated(n), j),
                            n,
                        );
                assert(iterate(obfuscated(n), kn) == n);
            } else {
                assert(n == name);
                lemma_obfuscated_candidate(v);
                lemma_obfuscated_idempotent(v);
                let b = lemma_chain_tail(start, k);
                let d = (k - b) as nat;
                lemma_iterate_add(start, b, d);
                assert forall|j: nat| j < d implies o.contains(#[trigger] iterate(obfuscated(n), j))
                    && str_lt(iterate(obfuscated(n), j), n) by {
                    lemma_iterate_add(start, b, j);
                    let x = iterate(start, b + j);
                    assert(used.contains(iterate(start, (b + j) as nat)));
                    lemma_iterate_increases(start, (b + j) as nat, k);
                    assert(x.len() == n.len());
                    assert(shortlex_lt(x, n));
                    let i = choose|i: int| crate::obfuscate::lex_lt_at(x, n, i);
                    assert(crate::obfuscate::lex_lt_at(x, n, i));
                }
                assert(iterate(obfuscated(n), d) == n);
            }
        }
    }
}

/// Assigning sorted distinct values, each reached from its own obfuscated
/// form through values before it, gives each value itself.
proof fn lemma_sorted_reached_prefix(names: Seq<Seq<char>>, o: Set<Seq<char>>, i: int)
    requires
        strictly_sorted(names),
        names.to_set() == o,
        forall|n: Seq<char>| #[trigger] o.contains(n) ==> reached_through(o, n),
        0 <= i <= names.len(),
    ensures
        assign_all(names.take(i)).1 == names.take(i).to_set(),
        forall|h: int| 0 <= h < i ==> #[trigger] assign_all(names.take(i)).0[names[h]] == names[h],
        assign_all(names.take(i)).0.dom() == names.take(i).to_set(),
    decreases i,
{
    if i > 0 {
        lemma_sorted_reached_prefix(names, o, i - 1);
        let t = names.take(i);
        let p = names.take(i - 1);
        let n = names[i - 1];
        assert(t.drop_last() =~= p);
        assert(t.last() == n);
        let used = assign_all(p).1;
        assert(o.contains(n));
        assert(reached_through(o, n));
        let k = choose|k: nat|
            #![trigger iterate(obfuscated(n), k)]
            iterate(obfuscated(n), k) == n && forall|j: nat|
                j < k ==> o.contains(#[trigger] iterate(obfuscated(n), j)) && str_lt(
                    iterate(obfuscated(n), j),
                    n,
                );
        assert(!used.contains(n)) by {
            if p.to_set().contains(n) {
                let h = choose|h: int| 0 <= h < p.len() && p[h] == n;
                assert(str_lt(names[h], names[i - 1]));
                lemma_str_lt_irreflexive(n);
            }
        }
        assert forall|j: nat| j < k implies used.contains(#[trigger] iterate(obfuscated(n), j)) by {
            let x = iterate(obfuscated(n), j);
            assert(o.contains(x) && str_lt(x, n));
            let h = choose|h: int| 0 <= h < names.len() && names[h] == x;
            if h >= i - 1 {
                if h == i - 1 {
                    lemma_str_lt_irreflexive(n);
                } else {
                    assert(str_lt(names[i - 1], names[h]));
                    lemma_str_lt_transitive(n, x, n);
                    lemma_str_lt_irreflexive(n);
                }
            }
            assert(p[h] == x);
        }
        assert(is_first_free(used, obfuscated(n), k));
        lemma_fresh_name_is_first_free(used, n, k);
        assert(t =~= p.push(n));
        p.lemma_push_to_set_commute(n);
        assert forall|h: int| 0 <= h < i implies #[trigger] assign_all(t).0[names[h]] == names[h] by {
            if h < i - 1 {
                assert(str_lt(names[h], names[i - 1]));
                lemma_str_lt_irreflexive(n);
            }
        }
    }
}

/// Building the table a second time, from the replacements of the first
/// table listed in the order of strings, gives every replacement itself.
pub proof fn lemma_second_table_identity(values: Seq<Seq<char>>, names: Seq<Seq<char>>)
    requires
        values.no_duplicates(),
        strictly_sorted(names),
        forall|x: Seq<char>|
            #[trigger] names.to_set().contains(x) <==> exists|v: Seq<char>|
                assign_all(values).0.dom().contains(v) && #[trigger] assign_all(values).0[v] == x,
    ensures
        forall|i: int| 0 <= i < names.len() ==> #[trigger] assign_all(names).0[names[i]] == names[i],
        assign_all(names).0.dom() == names.to_set(),
{
    let (m, o) = assign_all(values);
    lemma_assign_all_used(values);
    assert(names.to_set() =~= o) by {
        assert forall|x: Seq<char>| names.to_set().contains(x) <==> o.contains(x) by {
            if names.to_set().contains(x) {
                let v = choose|v: Seq<char>| m.dom().contains(v) && #[trigger] m[v] == x;
                let h = choose|h: int| 0 <= h < values.len() && values[h] == v;
                assert(earlier_names(m, values, values.len() as int).contains(x));
            }
            if o.contains(x) {
                let h = choose|h: int| 0 <= h < values.len() && m[values[h]] == x;
                assert(m.dom().contains(values[h]));
            }
        }
    }
    lemma_taken_reached_through(values);
    lemma_sorted_reached_prefix(names, o, names.len() as int);
    assert(names.take(names.len() as int) =~= names);
}

/// The table holds exactly the values assigned.
pub proof fn lemma_assign_all_dom(values: Seq<Seq<char>>)
    ensures
        assign_all(values).0.dom() == values.to_set(),
    decreases values.len(),
{
    if values.len() > 0 {
        let p = values.drop_last();
        lemma_assign_all_dom(p);
        assert(values =~= p.push(values.last()));
        p.lemma_push_to_set_commute(values.last());
    } else {
        assert(values.to_set() =~= Set::<Seq<char>>::empty());
    }
}

} // verus!
