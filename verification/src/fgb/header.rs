//! What the FlatGeobuf header records of a feature collection: the column
//! schema inferred from all features' properties, and the one geometry type
//! the features share.
use super::properties::{
    col_specs, cols_sorted, col_type, entries_map, entries_wf, lemma_entries_map, spec_col_type, ColSpec, PropType,
    PropValue, Property, Schema,
};
use vstd::prelude::*;

verus! {

/// The type a value contributes to the collection schema: nothing for a null
/// or for a number that is neither a float nor an `i64`.
pub open spec fn value_kind(v: PropValue) -> Option<PropType> {
    match v {
        PropValue::Null => None,
        PropValue::Bool(_) => Some(PropType::Boolean),
        PropValue::Number(n) => if n.is_f64 {
            Some(PropType::Double)
        } else if n.as_i64 is Some {
            Some(PropType::Long)
        } else {
            None
        },
        PropValue::Str(_) => Some(PropType::String),
        PropValue::Array => Some(PropType::JsonVal),
        PropValue::Object => Some(PropType::JsonVal),
    }
}

/// The type a column keeps when a value of type `t` meets it: unchanged for
/// the same type, for JSON, and for a long in a double column; JSON for any
/// other disagreement.
pub open spec fn widen(cur: PropType, t: PropType) -> PropType {
    if cur == t || cur == PropType::JsonVal || (t == PropType::Long && cur == PropType::Double) {
        cur
    } else {
        PropType::JsonVal
    }
}

/// The schema after one more property.
pub open spec fn absorb(m: Map<Seq<char>, PropType>, p: Property) -> Map<Seq<char>, PropType> {
    match value_kind(p.value) {
        None => m,
        Some(t) => if m.contains_key(p.key@) {
            m.insert(p.key@, widen(m[p.key@], t))
        } else {
            m.insert(p.key@, t)
        },
    }
}

/// The schema after a feature's properties, in order.
pub open spec fn absorb_props(m: Map<Seq<char>, PropType>, ps: Seq<Property>) -> Map<
    Seq<char>,
    PropType,
>
    decreases ps.len(),
{
    if ps.len() == 0 {
        m
    } else {
        absorb(absorb_props(m, ps.drop_last()), ps.last())
    }
}

/// The schema of a sequence of features, each with or without properties.
pub open spec fn schema_map(fs: Seq<Option<Vec<Property>>>) -> Map<Seq<char>, PropType>
    decreases fs.len(),
{
    if fs.len() == 0 {
        Map::empty()
    } else {
        match fs.last() {
            None => schema_map(fs.drop_last()),
            Some(ps) => absorb_props(schema_map(fs.drop_last()), ps@),
        }
    }
}

/// Property `j` of feature `i` gives key `k` a type.
pub open spec fn typed_at(fs: Seq<Option<Vec<Property>>>, i: int, j: int, k: Seq<char>) -> bool {
    &&& 0 <= i < fs.len()
    &&& fs[i] is Some
    &&& 0 <= j < fs[i]->0@.len()
    &&& fs[i]->0@[j].key@ == k
    &&& value_kind(fs[i]->0@[j].value) is Some
}

/// Setting the type of a present key changes the map at that key alone.
proof fn lemma_entries_update(e: Seq<(String, PropType)>, k: int, x: (String, PropType))
    requires
        entries_wf(e),
        0 <= k < e.len(),
        x.0@ == e[k].0@,
    ensures
        entries_wf(e.update(k, x)),
        entries_map(e.update(k, x)) == entries_map(e).insert(x.0@, x.1),
    decreases e.len(),
{
    let e2 = e.update(k, x);
    assert(entries_wf(e2)) by {
        assert forall|a: int, b: int|
            0 <= a < e2.len() && 0 <= b < e2.len() && a != b implies #[trigger] e2[a].0@
            != #[trigger] e2[b].0@ by {
            assert(e[a].0@ != e[b].0@);
        }
    }
    let d = e.drop_last();
    assert(entries_wf(d)) by {
        assert forall|a: int, b: int|
            0 <= a < d.len() && 0 <= b < d.len() && a != b implies #[trigger] d[a].0@
            != #[trigger] d[b].0@ by {
            assert(e[a].0@ != e[b].0@);
        }
    }
    if k == e.len() - 1 {
        assert(e2.drop_last() =~= d);
        assert(entries_map(e2) =~= entries_map(e).insert(x.0@, x.1));
    } else {
        assert(e2.drop_last() =~= d.update(k, x));
        lemma_entries_update(d, k, x);
        assert(e[k].0@ != e.last().0@);
        assert(entries_map(e2) =~= entries_map(e).insert(x.0@, x.1));
    }
}

/// Finds the entry for a key.
fn find_entry(entries: &Vec<(String, PropType)>, key: &String) -> (r: Option<usize>)
    ensures
        r matches Some(k) ==> k < entries@.len() && entries@[k as int].0@ == key@,
        r is None ==> forall|k: int| 0 <= k < entries@.len() ==> (#[trigger] entries@[k]).0@ != key@,
{
    let mut k: usize = 0;
    while k < entries.len()
        invariant
            k <= entries@.len(),
            forall|m: int| 0 <= m < k ==> (#[trigger] entries@[m]).0@ != key@,
        decreases entries@.len() - k,
    {
        if entries[k].0 == *key {
            return Some(k);
        }
        k = k + 1;
    }
    None
}

/// Adds one property to the schema entries.
fn absorb_entry(entries: &mut Vec<(String, PropType)>, p: &Property)
    requires
        entries_wf(old(entries)@),
    ensures
        entries_wf(final(entries)@),
        entries_map(final(entries)@) == absorb(entries_map(old(entries)@), *p),
{
    let ghost e = entries@;
    proof {
        lemma_entries_map(e);
    }
    let t = match &p.value {
        PropValue::Null => None,
        PropValue::Bool(_) => Some(PropType::Boolean),
        PropValue::Number(n) => {
            if n.is_f64 {
                Some(PropType::Double)
            } else if n.as_i64.is_some() {
                Some(PropType::Long)
            } else {
                None
            }
        },
        PropValue::Str(_) => Some(PropType::String),
        PropValue::Array => Some(PropType::JsonVal),
        PropValue::Object => Some(PropType::JsonVal),
    };
    if let Some(t) = t {
        match find_entry(entries, &p.key) {
            Some(k) => {
                let cur = entries[k].1;
                let w = if cur == t || cur == PropType::JsonVal || (t == PropType::Long && cur
                    == PropType::Double) {
                    cur
                } else {
                    PropType::JsonVal
                };
                assert(entries_map(e)[p.key@] == cur) by {
                    assert(e[k as int].0@ == p.key@);
                }
                let x = (p.key.clone(), w);
                proof {
                    lemma_entries_update(e, k as int, x);
                }
                entries.set(k, x);
            },
            None => {
                assert(!entries_map(e).contains_key(p.key@)) by {
                    if entries_map(e).contains_key(p.key@) {
                        let i = choose|i: int| 0 <= i < e.len() && #[trigger] e[i].0@ == p.key@;
                    }
                }
                entries.push((p.key.clone(), t));
                proof {
                    let e2 = entries@;
                    assert(e2.drop_last() =~= e);
                    assert forall|a: int, b: int|
                        0 <= a < e2.len() && 0 <= b < e2.len() && a != b implies #[trigger] e2[a].0@
                        != #[trigger] e2[b].0@ by {
                        if a < e.len() && b < e.len() {
                            assert(e[a].0@ != e[b].0@);
                        }
                    }
                }
            },
        }
    }
}

/// The schema of a feature collection: every key that some feature gives a
/// typed (non-null) value, in the order first met, with its type widened
/// over all the features.
pub fn schema(features: &Vec<Option<Vec<Property>>>) -> (r: Schema)
    ensures
        r.wf(),
        r.spec_map() == schema_map(features@),
{
    let mut entries: Vec<(String, PropType)> = Vec::new();
    let mut i: usize = 0;
    while i < features.len()
        invariant
            i <= features@.len(),
            entries_wf(entries@),
            entries_map(entries@) == schema_map(features@.take(i as int)),
        decreases features@.len() - i,
    {
        assert(features@.take(i + 1).drop_last() =~= features@.take(i as int));
        match &features[i] {
            None => {},
            Some(ps) => {
                let ghost start = entries_map(entries@);
                let mut j: usize = 0;
                while j < ps.len()
                    invariant
                        j <= ps@.len(),
                        entries_wf(entries@),
                        entries_map(entries@) == absorb_props(start, ps@.take(j as int)),
                    decreases ps@.len() - j,
                {
                    assert(ps@.take(j + 1).drop_last() =~= ps@.take(j as int));
                    absorb_entry(&mut entries, &ps[j]);
                    j = j + 1;
                }
                assert(ps@.take(j as int) =~= ps@);
            },
        }
        i = i + 1;
    }
    assert(features@.take(i as int) =~= features@);
    Schema { entries }
}

/// The keys of a feature's absorbed schema are the keys before it and the
/// keys its properties give a type.
proof fn lemma_absorb_props_keys(m: Map<Seq<char>, PropType>, ps: Seq<Property>, k: Seq<char>)
    ensures
        absorb_props(m, ps).contains_key(k) <==> (m.contains_key(k) || exists|j: int|
            0 <= j < ps.len() && #[trigger] ps[j].key@ == k && value_kind(ps[j].value) is Some),
    decreases ps.len(),
{
    if ps.len() > 0 {
        let d = ps.drop_last();
        lemma_absorb_props_keys(m, d, k);
        if exists|j: int|
            0 <= j < d.len() && #[trigger] d[j].key@ == k && value_kind(d[j].value) is Some {
            let j = choose|j: int|
                0 <= j < d.len() && #[trigger] d[j].key@ == k && value_kind(d[j].value) is Some;
            assert(ps[j] == d[j]);
        }
        if exists|j: int|
            0 <= j < ps.len() && #[trigger] ps[j].key@ == k && value_kind(ps[j].value) is Some {
            let j = choose|j: int|
                0 <= j < ps.len() && #[trigger] ps[j].key@ == k && value_kind(ps[j].value) is Some;
            if j < d.len() {
                assert(d[j] == ps[j]);
            }
        }
    }
}

/// Where every typed occurrence of a key has type `t`, and the key was absent
/// or of type `t` before, the key keeps type `t`.
proof fn lemma_absorb_props_uniform(
    m: Map<Seq<char>, PropType>,
    ps: Seq<Property>,
    k: Seq<char>,
    t: PropType,
)
    requires
        m.contains_key(k) ==> m[k] == t,
        forall|j: int|
            0 <= j < ps.len() && #[trigger] ps[j].key@ == k && value_kind(ps[j].value) is Some
                ==> value_kind(ps[j].value) == Some(t),
    ensures
        absorb_props(m, ps).contains_key(k) ==> absorb_props(m, ps)[k] == t,
    decreases ps.len(),
{
    if ps.len() > 0 {
        let d = ps.drop_last();
        assert forall|j: int|
            0 <= j < d.len() && #[trigger] d[j].key@ == k && value_kind(d[j].value) is Some
                implies value_kind(d[j].value) == Some(t) by {
            assert(d[j] == ps[j]);
        }
        lemma_absorb_props_uniform(m, d, k, t);
        if ps.last().key@ == k {
            assert(ps[ps.len() - 1] == ps.last());
        }
    }
}

/// Law: a key is in the schema of a feature collection exactly when some
/// feature gives it a typed (non-null) value.
pub proof fn lemma_schema_keys(fs: Seq<Option<Vec<Property>>>, k: Seq<char>)
    ensures
        schema_map(fs).contains_key(k) <==> exists|i: int, j: int| #[trigger] typed_at(fs, i, j, k),
    decreases fs.len(),
{
    if fs.len() > 0 {
        let d = fs.drop_last();
        lemma_schema_keys(d, k);
        if exists|i: int, j: int| #[trigger] typed_at(d, i, j, k) {
            let (i, j) = choose|i: int, j: int| #[trigger] typed_at(d, i, j, k);
            assert(typed_at(fs, i, j, k));
        }
        match fs.last() {
            None => {
                if exists|i: int, j: int| #[trigger] typed_at(fs, i, j, k) {
                    let (i, j) = choose|i: int, j: int| #[trigger] typed_at(fs, i, j, k);
                    assert(typed_at(d, i, j, k));
                }
            },
            Some(ps) => {
                lemma_absorb_props_keys(schema_map(d), ps@, k);
                let last = fs.len() - 1;
                if exists|j: int|
                    0 <= j < ps@.len() && #[trigger] ps@[j].key@ == k && value_kind(
                        ps@[j].value,
                    ) is Some {
                    let j = choose|j: int|
                        0 <= j < ps@.len() && #[trigger] ps@[j].key@ == k && value_kind(
                            ps@[j].value,
                        ) is Some;
                    assert(typed_at(fs, last, j, k));
                }
                if exists|i: int, j: int| #[trigger] typed_at(fs, i, j, k) {
                    let (i, j) = choose|i: int, j: int| #[trigger] typed_at(fs, i, j, k);
                    if i < last {
                        assert(typed_at(d, i, j, k));
                    } else {
                        assert(ps@[j].key@ == k);
                    }
                }
            },
        }
    }
}

/// Law: a key that every feature types alike keeps that type in the schema.
pub proof fn lemma_schema_uniform_type(fs: Seq<Option<Vec<Property>>>, k: Seq<char>, t: PropType)
    requires
        forall|i: int, j: int|
            #[trigger] typed_at(fs, i, j, k) ==> value_kind(fs[i]->0@[j].value) == Some(t),
    ensures
        schema_map(fs).contains_key(k) ==> schema_map(fs)[k] == t,
    decreases fs.len(),
{
    if fs.len() > 0 {
        let d = fs.drop_last();
        assert forall|i: int, j: int| #[trigger] typed_at(d, i, j, k) implies value_kind(
            d[i]->0@[j].value,
        ) == Some(t) by {
            assert(typed_at(fs, i, j, k));
        }
        lemma_schema_uniform_type(d, k, t);
        match fs.last() {
            None => {},
            Some(ps) => {
                let last = fs.len() - 1;
                assert forall|j: int|
                    0 <= j < ps@.len() && #[trigger] ps@[j].key@ == k && value_kind(
                        ps@[j].value,
                    ) is Some implies value_kind(ps@[j].value) == Some(t) by {
                    assert(typed_at(fs, last, j, k));
                }
                lemma_absorb_props_uniform(schema_map(d), ps@, k, t);
            },
        }
    }
}

/// The type a typed property gives its key.
pub open spec fn kind_at(fs: Seq<Option<Vec<Property>>>, i: int, j: int) -> PropType {
    value_kind(fs[i]->0@[j].value)->0
}

/// Property `j` of feature `i` comes before property `j2` of feature `i2`.
pub open spec fn earlier(i: int, j: int, i2: int, j2: int) -> bool {
    i < i2 || (i == i2 && j < j2)
}

/// A column first typed `f` keeps that type for a value of type `t`: the
/// same type, or a long in a double column.
pub open spec fn keeps(f: PropType, t: PropType) -> bool {
    t == f || (f == PropType::Double && t == PropType::Long)
}

/// A column's final type: the first type while every value keeps it (and
/// it is not JSON already), JSON otherwise.
pub open spec fn settled(f: PropType, all_keep: bool) -> PropType {
    if f != PropType::JsonVal && all_keep {
        f
    } else {
        PropType::JsonVal
    }
}

/// A property typed at a key.
spec fn ptyped(ps: Seq<Property>, j: int, k: Seq<char>) -> bool {
    0 <= j < ps.len() && ps[j].key@ == k && value_kind(ps[j].value) is Some
}

/// One more property at a column whose type so far is `settled(f, ok)`.
proof fn lemma_widen_step(m: Map<Seq<char>, PropType>, p: Property, k: Seq<char>, f: PropType, ok: bool)
    requires
        m.contains_key(k),
        m[k] == settled(f, ok),
    ensures
        absorb(m, p).contains_key(k),
        absorb(m, p)[k] == settled(
            f,
            ok && ((p.key@ == k && value_kind(p.value) is Some) ==> keeps(f, value_kind(p.value)->0)),
        ),
{
}

/// The properties of one feature on a column already present.
proof fn lemma_props_present(m: Map<Seq<char>, PropType>, ps: Seq<Property>, k: Seq<char>, f: PropType, ok: bool)
    requires
        m.contains_key(k),
        m[k] == settled(f, ok),
    ensures
        absorb_props(m, ps).contains_key(k),
        absorb_props(m, ps)[k] == settled(
            f,
            ok && forall|j: int| #[trigger] ptyped(ps, j, k) ==> keeps(f, value_kind(ps[j].value)->0),
        ),
    decreases ps.len(),
{
    if ps.len() > 0 {
        let d = ps.drop_last();
        lemma_props_present(m, d, k, f, ok);
        let okd = ok && forall|j: int| #[trigger] ptyped(d, j, k) ==> keeps(f, value_kind(d[j].value)->0);
        lemma_widen_step(absorb_props(m, d), ps.last(), k, f, okd);
        let last = ps.len() - 1;
        assert forall|j: int| #[trigger] ptyped(d, j, k) <==> ptyped(ps, j, k) && j < last by {
            if 0 <= j < d.len() {
                assert(d[j] == ps[j]);
            }
        }
        assert(ps.last() == ps[last]);
        if ok && forall|j: int| #[trigger] ptyped(ps, j, k) ==> keeps(f, value_kind(ps[j].value)->0) {
            assert forall|j: int| #[trigger] ptyped(d, j, k) implies keeps(f, value_kind(d[j].value)->0) by {
                assert(ptyped(ps, j, k));
            }
            if ptyped(ps, last, k) {
            }
        }
        if okd && ((ps.last().key@ == k && value_kind(ps.last().value) is Some) ==> keeps(
            f,
            value_kind(ps.last().value)->0,
        )) {
            assert forall|j: int| #[trigger] ptyped(ps, j, k) implies keeps(f, value_kind(ps[j].value)->0) by {
                if j < last {
                    assert(ptyped(d, j, k));
                }
            }
        }
    }
}

/// The properties of one feature on a column not yet present, `j0` being
/// the feature's first property typed at the key.
proof fn lemma_props_absent(m: Map<Seq<char>, PropType>, ps: Seq<Property>, k: Seq<char>, j0: int)
    requires
        !m.contains_key(k),
        ptyped(ps, j0, k),
        forall|j: int| #[trigger] ptyped(ps, j, k) ==> j >= j0,
    ensures
        absorb_props(m, ps).contains_key(k),
        absorb_props(m, ps)[k] == settled(
            value_kind(ps[j0].value)->0,
            forall|j: int| #[trigger] ptyped(ps, j, k) ==> keeps(
                value_kind(ps[j0].value)->0,
                value_kind(ps[j].value)->0,
            ),
        ),
    decreases ps.len(),
{
    let f = value_kind(ps[j0].value)->0;
    let d = ps.drop_last();
    let last = ps.len() - 1;
    assert(ps.last() == ps[last]);
    assert forall|j: int| #[trigger] ptyped(d, j, k) <==> ptyped(ps, j, k) && j < last by {
        if 0 <= j < d.len() {
            assert(d[j] == ps[j]);
        }
    }
    if j0 < last {
        assert(ptyped(d, j0, k));
        assert(d[j0] == ps[j0]);
        lemma_props_absent(m, d, k, j0);
        let okd = forall|j: int| #[trigger] ptyped(d, j, k) ==> keeps(f, value_kind(d[j].value)->0);
        lemma_widen_step(absorb_props(m, d), ps.last(), k, f, okd);
        if forall|j: int| #[trigger] ptyped(ps, j, k) ==> keeps(f, value_kind(ps[j].value)->0) {
            assert forall|j: int| #[trigger] ptyped(d, j, k) implies keeps(f, value_kind(d[j].value)->0) by {
                assert(ptyped(ps, j, k));
            }
            if ptyped(ps, last, k) {
                assert(keeps(f, value_kind(ps[last].value)->0));
            }
        }
        if okd && ((ps.last().key@ == k && value_kind(ps.last().value) is Some) ==> keeps(
            f,
            value_kind(ps.last().value)->0,
        )) {
            assert forall|j: int| #[trigger] ptyped(ps, j, k) implies keeps(f, value_kind(ps[j].value)->0) by {
                if j < last {
                    assert(ptyped(d, j, k));
                }
            }
        }
    } else {
        lemma_absorb_props_keys(m, d, k);
        assert(!absorb_props(m, d).contains_key(k)) by {
            if exists|j: int| 0 <= j < d.len() && #[trigger] d[j].key@ == k && value_kind(d[j].value) is Some {
                let j = choose|j: int| 0 <= j < d.len() && #[trigger] d[j].key@ == k && value_kind(d[j].value) is Some;
                assert(ptyped(d, j, k));
            }
        }
        assert forall|j: int| #[trigger] ptyped(ps, j, k) implies j == j0 by {}
        assert(keeps(f, f));
        let md = absorb_props(m, d);
        assert(absorb_props(m, ps) == absorb(md, ps.last()));
        assert(value_kind(ps.last().value) == Some(f));
        assert(absorb(md, ps.last()) == md.insert(k, f));
        assert(forall|j: int| #[trigger] ptyped(ps, j, k) ==> keeps(f, value_kind(ps[j].value)->0));
        assert(settled(f, true) == f);
    }
}

/// The first typed occurrence of a key, before which no feature types it.
proof fn lemma_first_occurrence(fs: Seq<Option<Vec<Property>>>, k: Seq<char>, i: int, j: int)
    requires
        typed_at(fs, i, j, k),
    ensures
        exists|i0: int, j0: int|
            #[trigger] typed_at(fs, i0, j0, k) && forall|i2: int, j2: int|
                #[trigger] typed_at(fs, i2, j2, k) ==> !earlier(i2, j2, i0, j0),
    decreases i, j,
{
    if exists|i2: int, j2: int| #[trigger] typed_at(fs, i2, j2, k) && earlier(i2, j2, i, j) {
        let (i2, j2) = choose|i2: int, j2: int| #[trigger] typed_at(fs, i2, j2, k) && earlier(i2, j2, i, j);
        lemma_first_occurrence(fs, k, i2, j2);
    } else {
        assert(typed_at(fs, i, j, k));
    }
}

/// Law: a column's type is its first type while every later value keeps
/// it (the same type, or a long in a double column), and JSON as soon as
/// one value disagrees; a column first typed JSON stays JSON.
pub proof fn lemma_schema_widening(fs: Seq<Option<Vec<Property>>>, k: Seq<char>, i0: int, j0: int)
    requires
        typed_at(fs, i0, j0, k),
        forall|i: int, j: int| #[trigger] typed_at(fs, i, j, k) ==> !earlier(i, j, i0, j0),
    ensures
        schema_map(fs).contains_key(k),
        schema_map(fs)[k] == settled(
            kind_at(fs, i0, j0),
            forall|i: int, j: int| #[trigger] typed_at(fs, i, j, k) ==> keeps(kind_at(fs, i0, j0), kind_at(fs, i, j)),
        ),
    decreases fs.len(),
{
    let f = kind_at(fs, i0, j0);
    let d = fs.drop_last();
    let last = fs.len() - 1;
    assert forall|i: int, j: int| #[trigger] typed_at(d, i, j, k) <==> typed_at(fs, i, j, k) && i < last by {
        if 0 <= i < d.len() {
            assert(d[i] == fs[i]);
        }
    }
    let all = forall|i: int, j: int| #[trigger] typed_at(fs, i, j, k) ==> keeps(f, kind_at(fs, i, j));
    let alld = forall|i: int, j: int| #[trigger] typed_at(d, i, j, k) ==> keeps(f, kind_at(d, i, j));
    if i0 < last {
        assert(typed_at(d, i0, j0, k));
        assert(kind_at(d, i0, j0) == f);
        lemma_schema_widening(d, k, i0, j0);
        assert(alld == forall|i: int, j: int| #[trigger] typed_at(fs, i, j, k) && i < last ==> keeps(f, kind_at(fs, i, j))) by {
            assert forall|i: int, j: int| #[trigger] typed_at(d, i, j, k) implies kind_at(d, i, j) == kind_at(fs, i, j) by {}
            if alld {
                assert forall|i: int, j: int| #[trigger] typed_at(fs, i, j, k) && i < last implies keeps(f, kind_at(fs, i, j)) by {
                    assert(typed_at(d, i, j, k));
                }
            }
        }
        match fs.last() {
            None => {
                assert(fs[last] is None);
                assert forall|i: int, j: int| #[trigger] typed_at(fs, i, j, k) implies i < last by {}
            },
            Some(ps) => {
                assert(fs[last] == Some(ps));
                lemma_props_present(schema_map(d), ps@, k, f, alld);
                assert forall|j: int| #[trigger] ptyped(ps@, j, k) <==> typed_at(fs, last, j, k) by {}
                if all {
                    assert forall|j: int| #[trigger] ptyped(ps@, j, k) implies keeps(f, value_kind(ps@[j].value)->0) by {
                        assert(typed_at(fs, last, j, k));
                    }
                }
                if alld && forall|j: int| #[trigger] ptyped(ps@, j, k) ==> keeps(f, value_kind(ps@[j].value)->0) {
                    assert forall|i: int, j: int| #[trigger] typed_at(fs, i, j, k) implies keeps(f, kind_at(fs, i, j)) by {
                        if i == last {
                            assert(ptyped(ps@, j, k));
                        }
                    }
                }
            },
        }
    } else {
        assert(i0 == last);
        assert forall|i: int, j: int| #[trigger] typed_at(d, i, j, k) implies false by {
            assert(typed_at(fs, i, j, k));
        }
        lemma_schema_keys(d, k);
        let ps = fs[last]->0;
        assert(fs.last() == Some(ps));
        assert forall|j: int| #[trigger] ptyped(ps@, j, k) <==> typed_at(fs, last, j, k) by {}
        assert forall|j: int| #[trigger] ptyped(ps@, j, k) implies j >= j0 by {
            assert(typed_at(fs, last, j, k));
        }
        lemma_props_absent(schema_map(d), ps@, k, j0);
        assert(value_kind(ps@[j0].value)->0 == f);
        let allp = forall|j: int| #[trigger] ptyped(ps@, j, k) ==> keeps(f, value_kind(ps@[j].value)->0);
        if all {
            assert forall|j: int| #[trigger] ptyped(ps@, j, k) implies keeps(f, value_kind(ps@[j].value)->0) by {
                assert(typed_at(fs, last, j, k));
            }
        }
        if allp {
            assert forall|i: int, j: int| #[trigger] typed_at(fs, i, j, k) implies keeps(f, kind_at(fs, i, j)) by {
                assert(ptyped(ps@, j, k));
            }
        }
    }
}

/// Law: a key that some feature gives a JSON value (an array or an object)
/// has the JSON type in the schema, whatever the other features give it.
pub proof fn lemma_schema_json_wins(fs: Seq<Option<Vec<Property>>>, k: Seq<char>, i: int, j: int)
    requires
        typed_at(fs, i, j, k),
        kind_at(fs, i, j) == PropType::JsonVal,
    ensures
        schema_map(fs).contains_key(k),
        schema_map(fs)[k] == PropType::JsonVal,
{
    lemma_first_occurrence(fs, k, i, j);
    let (i0, j0) = choose|i0: int, j0: int|
        #[trigger] typed_at(fs, i0, j0, k) && forall|i2: int, j2: int|
            #[trigger] typed_at(fs, i2, j2, k) ==> !earlier(i2, j2, i0, j0);
    lemma_schema_widening(fs, k, i0, j0);
}

/// The columns of a feature collection's schema, sorted by name.
pub fn header_col_specs(features: &Vec<Option<Vec<Property>>>) -> (r: Vec<ColSpec>)
    ensures
        cols_sorted(r@),
        forall|i: int|
            0 <= i < r@.len() ==> schema_map(features@).contains_key((#[trigger] r@[i]).name@)
                && r@[i].type_ == spec_col_type(schema_map(features@)[r@[i].name@]),
        forall|k: Seq<char>|
            #[trigger] schema_map(features@).contains_key(k) ==> exists|i: int|
                0 <= i < r@.len() && #[trigger] r@[i].name@ == k,
{
    let s = schema(features);
    col_specs(&s)
}

/// The geometry types a FlatGeobuf header can declare.
#[derive(Debug, Clone, Copy, PartialEq, Eq, Structural)]
pub enum GeometryType {
    Unknown,
    Point,
    LineString,
    Polygon,
    MultiPoint,
    MultiLineString,
    MultiPolygon,
    GeometryCollection,
}

/// Some feature has a geometry, and all features with one share its type.
pub open spec fn one_kind(kinds: Seq<Option<GeometryType>>) -> bool {
    &&& exists|i: int| 0 <= i < kinds.len() && (#[trigger] kinds[i]) is Some
    &&& forall|i: int, j: int|
        0 <= i < kinds.len() && 0 <= j < kinds.len() && (#[trigger] kinds[i]) is Some && (
        #[trigger] kinds[j]) is Some ==> kinds[i] == kinds[j]
}

/// The geometry type of a collection given each feature's geometry type
/// (none for a feature without geometry): the shared type where there is
/// exactly one, else unknown.
pub fn geometry_type(kinds: &Vec<Option<GeometryType>>) -> (r: GeometryType)
    ensures
        one_kind(kinds@) ==> exists|i: int| 0 <= i < kinds@.len() && kinds@[i] == Some(r),
        !one_kind(kinds@) ==> r == GeometryType::Unknown,
{
    let mut first: Option<GeometryType> = None;
    let mut mixed = false;
    let mut i: usize = 0;
    while i < kinds.len()
        invariant
            i <= kinds@.len(),
            first is None <==> forall|m: int| 0 <= m < i ==> (#[trigger] kinds@[m]) is None,
            first matches Some(f) ==> exists|m: int| 0 <= m < i && kinds@[m] == Some(f),
            !mixed ==> forall|m: int| 0 <= m < i && (#[trigger] kinds@[m]) is Some ==> kinds@[m] == first,
            mixed ==> exists|a: int, b: int|
                0 <= a < i && 0 <= b < i && (#[trigger] kinds@[a]) is Some && (
                #[trigger] kinds@[b]) is Some && kinds@[a] != kinds@[b],
        decreases kinds@.len() - i,
    {
        if let Some(k) = kinds[i] {
            match first {
                None => {
                    first = Some(k);
                },
                Some(f) => {
                    if f != k {
                        let ghost m = choose|m: int| 0 <= m < i && kinds@[m] == Some(f);
                        assert(kinds@[m] is Some && kinds@[i as int] is Some);
                        mixed = true;
                    }
                },
            }
        }
        i = i + 1;
    }
    match first {
        None => {
            assert(!one_kind(kinds@));
            GeometryType::Unknown
        },
        Some(f) => {
            if mixed {
                assert(!one_kind(kinds@));
                GeometryType::Unknown
            } else {
                f
            }
        },
    }
}

} // verus!
