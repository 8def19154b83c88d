//! Running the obfuscation again on its own output changes nothing.
use vstd::prelude::*;
use vstd::utf8::encode_utf8;

use crate::mapping::{assign_all, distinct_keys, Mapping};
use crate::order::strictly_sorted;
use crate::replacer::{lemma_second_run_keeps_text, replaced_text};
use crate::sensitive::{flat, flat_items, flat_members, key_selected, leaf_value, JsonValue};

verus! {

/// The value `after` under a sensitive member is `before` replaced through
/// `m`: a string for a string, a number for a number, its text being the
/// replacement of the old one; other kinds of value hold nothing to replace.
pub open spec fn leaf_replaced(before: JsonValue, after: JsonValue, m: Map<Seq<char>, Seq<char>>) -> bool {
    match (before, after) {
        (JsonValue::String(s), JsonValue::String(t)) => t@ == m[s@],
        (JsonValue::Number(s), JsonValue::Number(t)) => t@ == m[s@],
        _ => leaf_value(before) == Seq::<Seq<char>>::empty() && leaf_value(after) == Seq::<
            Seq<char>,
        >::empty(),
    }
}

/// The document `after` is `before` with the value of every sensitive
/// member replaced through `m`: same objects with the same member names,
/// same arrays, each sensitive value replaced (see [`leaf_replaced`]).
pub open spec fn leaves_replaced(
    before: JsonValue,
    after: JsonValue,
    m: Map<Seq<char>, Seq<char>>,
    extra: Seq<Seq<char>>,
    use_default: bool,
) -> bool
    decreases before,
{
    match before {
        JsonValue::Object(a) => match after {
            JsonValue::Object(b) => members_replaced(a@, b@, m, extra, use_default),
            _ => false,
        },
        JsonValue::Array(a) => match after {
            JsonValue::Array(b) => items_replaced(a@, b@, m, extra, use_default),
            _ => false,
        },
        _ => !(after is Object) && !(after is Array),
    }
}

/// [`leaves_replaced`] over the members of an object.
pub open spec fn members_replaced(
    a: Seq<(String, JsonValue)>,
    b: Seq<(String, JsonValue)>,
    m: Map<Seq<char>, Seq<char>>,
    extra: Seq<Seq<char>>,
    use_default: bool,
) -> bool
    decreases a,
{
    if a.len() == 0 {
        b.len() == 0
    } else {
        &&& b.len() == a.len()
        &&& members_replaced(a.drop_last(), b.drop_last(), m, extra, use_default)
        &&& a.last().0@ == b.last().0@
        &&& if key_selected(a.last().0@, extra, use_default) {
            leaf_replaced(a.last().1, b.last().1, m)
        } else {
            leaves_replaced(a.last().1, b.last().1, m, extra, use_default)
        }
    }
}

/// [`leaves_replaced`] over the elements of an array.
pub open spec fn items_replaced(
    a: Seq<JsonValue>,
    b: Seq<JsonValue>,
    m: Map<Seq<char>, Seq<char>>,
    extra: Seq<Seq<char>>,
    use_default: bool,
) -> bool
    decreases a,
{
    if a.len() == 0 {
        b.len() == 0
    } else {
        &&& b.len() == a.len()
        &&& items_replaced(a.drop_last(), b.drop_last(), m, extra, use_default)
        &&& leaves_replaced(a.last(), b.last(), m, extra, use_default)
    }
}

/// The sensitive values of a document whose sensitive values were replaced
/// through `m` are the old ones replaced through `m`, in the same order.
pub proof fn lemma_flat_replaced(
    before: JsonValue,
    after: JsonValue,
    m: Map<Seq<char>, Seq<char>>,
    extra: Seq<Seq<char>>,
    use_default: bool,
)
    requires
        leaves_replaced(before, after, m, extra, use_default),
    ensures
        flat(after, extra, use_default) == flat(before, extra, use_default).map_values(
            |s: Seq<char>| m[s],
        ),
    decreases before,
{
    match before {
        JsonValue::Object(a) => match after {
            JsonValue::Object(b) => {
                lemma_members_replaced(a@, b@, m, extra, use_default);
            },
            _ => {},
        },
        JsonValue::Array(a) => match after {
            JsonValue::Array(b) => {
                lemma_items_replaced(a@, b@, m, extra, use_default);
            },
            _ => {},
        },
        _ => {
            assert(flat(before, extra, use_default).map_values(|s: Seq<char>| m[s]) =~= Seq::<
                Seq<char>,
            >::empty());
        },
    }
}

proof fn lemma_members_replaced(
    a: Seq<(String, JsonValue)>,
    b: Seq<(String, JsonValue)>,
    m: Map<Seq<char>, Seq<char>>,
    extra: Seq<Seq<char>>,
    use_default: bool,
)
    requires
        members_replaced(a, b, m, extra, use_default),
    ensures
        flat_members(b, extra, use_default) == flat_members(a, extra, use_default).map_values(
            |s: Seq<char>| m[s],
        ),
    decreases a,
{
    if a.len() > 0 {
        lemma_members_replaced(a.drop_last(), b.drop_last(), m, extra, use_default);
        let x = flat_members(a.drop_last(), extra, use_default);
        let (key, va) = a.last();
        let vb = b.last().1;
        let y = if key_selected(key@, extra, use_default) {
            leaf_value(va)
        } else {
            flat(va, extra, use_default)
        };
        let z = if key_selected(key@, extra, use_default) {
            leaf_value(vb)
        } else {
            flat(vb, extra, use_default)
        };
        if key_selected(key@, extra, use_default) {
            assert(z =~= y.map_values(|s: Seq<char>| m[s]));
        } else {
            lemma_flat_replaced(va, vb, m, extra, use_default);
        }
        assert((x + y).map_values(|s: Seq<char>| m[s]) =~= x.map_values(|s: Seq<char>| m[s])
            + y.map_values(|s: Seq<char>| m[s]));
    } else {
        assert(flat_members(a, extra, use_default).map_values(|s: Seq<char>| m[s]) =~= Seq::<
            Seq<char>,
        >::empty());
    }
}

proof fn lemma_items_replaced(
    a: Seq<JsonValue>,
    b: Seq<JsonValue>,
    m: Map<Seq<char>, Seq<char>>,
    extra: Seq<Seq<char>>,
    use_default: bool,
)
    requires
        items_replaced(a, b, m, extra, use_default),
    ensures
        flat_items(b, extra, use_default) == flat_items(a, extra, use_default).map_values(
            |s: Seq<char>| m[s],
        ),
    decreases a,
{
    if a.len() > 0 {
        lemma_items_replaced(a.drop_last(), b.drop_last(), m, extra, use_default);
        lemma_flat_replaced(a.last(), b.last(), m, extra, use_default);
        let x = flat_items(a.drop_last(), extra, use_default);
        let y = flat(a.last(), extra, use_default);
        assert((x + y).map_values(|s: Seq<char>| m[s]) =~= x.map_values(|s: Seq<char>| m[s])
            + y.map_values(|s: Seq<char>| m[s]));
    } else {
        assert(flat_items(a, extra, use_default).map_values(|s: Seq<char>| m[s]) =~= Seq::<
            Seq<char>,
        >::empty());
    }
}

/// A second run on the output changes nothing. A first run collects the
/// sensitive values of `before` (listed without repetition as `values`)
/// and builds its table from them; `after` is `before` with each sensitive
/// value replaced through that table. The second run collects the sensitive
/// values of `after` (listed in the order of strings as `names`) and builds
/// `second` from them. Then `second` gives each of them itself, so
/// replacing with it leaves any text, the first run's output among them, as
/// it is.
pub proof fn lemma_second_run_fixed_point(
    before: JsonValue,
    after: JsonValue,
    extra: Seq<Seq<char>>,
    use_default: bool,
    values: Seq<Seq<char>>,
    names: Seq<Seq<char>>,
    second: Mapping,
    text: Seq<char>,
)
    requires
        values.no_duplicates(),
        values.to_set() == flat(before, extra, use_default).to_set(),
        leaves_replaced(before, after, assign_all(values).0, extra, use_default),
        strictly_sorted(names),
        names.to_set() == flat(after, extra, use_default).to_set(),
        second@ == assign_all(names).0,
        distinct_keys(second.entries()),
    ensures
        second@.dom() == names.to_set(),
        forall|i: int| 0 <= i < names.len() ==> #[trigger] second@[names[i]] == names[i],
        replaced_text(second.entries(), text) == encode_utf8(text),
{
    let m = assign_all(values).0;
    let f = flat(before, extra, use_default);
    lemma_flat_replaced(before, after, m, extra, use_default);
    crate::mapping::lemma_assign_all_dom(values);
    assert forall|x: Seq<char>|
        #[trigger] names.to_set().contains(x) <==> exists|v: Seq<char>|
            m.dom().contains(v) && #[trigger] m[v] == x by {
        let g = f.map_values(|s: Seq<char>| m[s]);
        if names.to_set().contains(x) {
            assert(g.to_set().contains(x));
            let i = choose|i: int| 0 <= i < g.len() && g[i] == x;
            assert(f.to_set().contains(f[i]));
            assert(m.dom().contains(f[i]) && m[f[i]] == x);
        }
        if exists|v: Seq<char>| m.dom().contains(v) && #[trigger] m[v] == x {
            let v = choose|v: Seq<char>| m.dom().contains(v) && #[trigger] m[v] == x;
            assert(f.to_set().contains(v));
            let i = choose|i: int| 0 <= i < f.len() && f[i] == v;
            assert(g[i] == x);
            assert(g.to_set().contains(x));
        }
    }
    lemma_second_run_keeps_text(values, names, second, text);
}

} // verus!
