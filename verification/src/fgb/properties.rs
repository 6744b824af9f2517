//! Feature properties: their inferred types, the column schema built from
//! them and the binary property buffer stored with each feature.
//!
//! A property value is held as what the logic reads of a JSON value: its kind,
//! for a number its `i64` form (when it has one), whether it is stored as a
//! float and the bits of its `f64` form, for a string its text, and for every
//! value its JSON text.
use crate::order::{lemma_str_lt_order, str_less, str_lt};
use vstd::bytes::*;
use vstd::prelude::*;
use vstd::slice::slice_to_vec;
use vstd::utf8::*;

verus! {

/// The type inferred for a property value.
#[derive(Debug, Clone, Copy, PartialEq, Eq, Structural)]
pub enum PropType {
    Boolean,
    Long,
    Double,
    String,
    JsonVal,
    Null,
}

/// The column types a schema uses.
#[derive(Debug, Clone, Copy, PartialEq, Eq, Structural)]
pub enum ColumnType {
    Bool,
    Long,
    Double,
    String,
    Json,
}

/// A column of the schema: its name and type.
#[derive(Debug)]
pub struct ColSpec {
    pub name: String,
    pub type_: ColumnType,
}

impl Clone for ColSpec {
    fn clone(&self) -> (r: Self)
        ensures
            r == *self,
    {
        ColSpec { name: self.name.clone(), type_: self.type_ }
    }
}

/// A JSON number as the property logic reads it.
#[derive(Debug, Clone, Copy, PartialEq, Eq, Structural)]
pub struct NumberValue {
    /// The number as an `i64`, if it is an integer in that range.
    pub as_i64: Option<i64>,
    /// Whether the number is stored as a float.
    pub is_f64: bool,
    /// The IEEE-754 bits of the number converted to `f64`.
    pub f64_bits: u64,
}

/// A JSON property value.
#[derive(Debug)]
pub enum PropValue {
    Null,
    Bool(bool),
    Number(NumberValue),
    Str(String),
    Array,
    Object,
}

/// A property of a feature: its key, its value, and the value's JSON text.
#[derive(Debug)]
pub struct Property {
    pub key: String,
    pub value: PropValue,
    pub json: String,
}

/// No two properties share a key, as in a JSON object.
pub open spec fn props_wf(props: Seq<Property>) -> bool {
    forall|i: int, j: int|
        0 <= i < props.len() && 0 <= j < props.len() && i != j ==> #[trigger] props[i].key@
            != #[trigger] props[j].key@
}

/// The column type used for a property type; null-only columns are JSON.
pub open spec fn spec_col_type(p: PropType) -> ColumnType {
    match p {
        PropType::Boolean => ColumnType::Bool,
        PropType::Long => ColumnType::Long,
        PropType::Double => ColumnType::Double,
        PropType::String => ColumnType::String,
        PropType::JsonVal => ColumnType::Json,
        PropType::Null => ColumnType::Json,
    }
}

/// Maps a property type to the column type that stores it.
pub fn col_type(prop_type: &PropType) -> (c: ColumnType)
    ensures
        c == spec_col_type(*prop_type),
{
    match *prop_type {
        PropType::Boolean => ColumnType::Bool,
        PropType::Long => ColumnType::Long,
        PropType::Double => ColumnType::Double,
        PropType::String => ColumnType::String,
        PropType::JsonVal => ColumnType::Json,
        PropType::Null => ColumnType::Json,
    }
}

/// A schema: property types by key, each key once, in the order the keys
/// were first met.
#[derive(Debug)]
pub struct Schema {
    pub entries: Vec<(String, PropType)>,
}

/// No key occurs twice among the entries.
pub open spec fn entries_wf(e: Seq<(String, PropType)>) -> bool {
    forall|i: int, j: int|
        0 <= i < e.len() && 0 <= j < e.len() && i != j ==> #[trigger] e[i].0@ != #[trigger] e[j].0@
}

/// The entries as a map from key to type.
pub open spec fn entries_map(e: Seq<(String, PropType)>) -> Map<Seq<char>, PropType>
    decreases e.len(),
{
    if e.len() == 0 {
        Map::empty()
    } else {
        entries_map(e.drop_last()).insert(e.last().0@, e.last().1)
    }
}

impl Schema {
    /// Each key occurs once.
    pub open spec fn wf(&self) -> bool {
        entries_wf(self.entries@)
    }

    /// The schema as a map from key to type.
    pub open spec fn spec_map(&self) -> Map<Seq<char>, PropType> {
        entries_map(self.entries@)
    }
}

/// The map of a list of distinct entries holds exactly their keys, each with
/// its type.
pub proof fn lemma_entries_map(e: Seq<(String, PropType)>)
    requires
        entries_wf(e),
    ensures
        forall|i: int|
            0 <= i < e.len() ==> entries_map(e).contains_key(#[trigger] e[i].0@) && entries_map(
                e,
            )[e[i].0@] == e[i].1,
        forall|k: Seq<char>|
            #[trigger] entries_map(e).contains_key(k) ==> exists|i: int|
                0 <= i < e.len() && #[trigger] e[i].0@ == k,
        entries_map(e).dom().finite(),
        entries_map(e).dom().len() == e.len(),
    decreases e.len(),
{
    if e.len() > 0 {
        let d = e.drop_last();
        assert(entries_wf(d)) by {
            assert forall|i: int, j: int|
                0 <= i < d.len() && 0 <= j < d.len() && i != j implies #[trigger] d[i].0@
                != #[trigger] d[j].0@ by {
                assert(d[i] == e[i] && d[j] == e[j]);
            }
        }
        lemma_entries_map(d);
        let last = e.last();
        assert(!entries_map(d).contains_key(last.0@)) by {
            if entries_map(d).contains_key(last.0@) {
                let i = choose|i: int| 0 <= i < d.len() && #[trigger] d[i].0@ == last.0@;
                assert(e[i].0@ == e[e.len() - 1].0@);
            }
        }
        assert forall|i: int| 0 <= i < e.len() implies entries_map(e).contains_key(
            #[trigger] e[i].0@,
        ) && entries_map(e)[e[i].0@] == e[i].1 by {
            if i < e.len() - 1 {
                assert(d[i] == e[i]);
                assert(e[i].0@ != last.0@);
            }
        }
        assert forall|k: Seq<char>| #[trigger] entries_map(e).contains_key(k) implies exists|i: int|
            0 <= i < e.len() && #[trigger] e[i].0@ == k by {
            if k != last.0@ {
                let i = choose|i: int| 0 <= i < d.len() && #[trigger] d[i].0@ == k;
                assert(e[i] == d[i]);
            } else {
                assert(e[e.len() - 1].0@ == k);
            }
        }
    }
}

/// Orders two column specs by name, as `str` orders strings.
pub open spec fn cols_sorted(cols: Seq<ColSpec>) -> bool {
    forall|i: int, j: int|
        0 <= i < j < cols.len() ==> str_lt(#[trigger] cols[i].name@, #[trigger] cols[j].name@)
}

/// Inserts a column into a list sorted by name, before the first column whose
/// name comes after it.
fn insert_sorted(out: &mut Vec<ColSpec>, c: ColSpec)
    requires
        cols_sorted(old(out)@),
        forall|i: int| 0 <= i < old(out)@.len() ==> (#[trigger] old(out)@[i]).name@ != c.name@,
    ensures
        cols_sorted(final(out)@),
        exists|p: int| 0 <= p <= old(out)@.len() && final(out)@ == old(out)@.insert(p, c),
{
    let mut p: usize = 0;
    while p < out.len() && !str_less(c.name.as_str(), out[p].name.as_str())
        invariant
            p <= out@.len(),
            forall|i: int| 0 <= i < p ==> !str_lt(c.name@, (#[trigger] out@[i]).name@),
        decreases out@.len() - p,
    {
        p = p + 1;
    }
    let ghost before = out@;
    let ghost name = c.name@;
    out.insert(p, c);
    proof {
        assert forall|a: int, b: int| 0 <= a < b < out@.len() implies str_lt(
            #[trigger] out@[a].name@,
            #[trigger] out@[b].name@,
        ) by {
            if a < p && b == p {
                lemma_str_lt_order(before[a].name@, name, name);
            } else if a == p && b > p {
                lemma_str_lt_order(name, before[b - 1].name@, name);
                if p < before.len() {
                    lemma_str_lt_order(name, before[p as int].name@, before[b - 1].name@);
                    if b - 1 > p {
                        assert(str_lt(before[p as int].name@, before[b - 1].name@));
                    }
                }
            } else if a < p && b > p {
                assert(str_lt(before[a].name@, before[b - 1].name@));
            } else if b < p {
                assert(str_lt(before[a].name@, before[b].name@));
            } else {
                assert(str_lt(before[a - 1].name@, before[b - 1].name@));
            }
        }
        assert(out@ == before.insert(p as int, c));
    }
}

/// The columns of a schema sorted by name, each with the column type of its
/// property type.
pub fn col_specs(schema: &Schema) -> (r: Vec<ColSpec>)
    requires
        schema.wf(),
    ensures
        r@.len() == schema.entries@.len(),
        cols_sorted(r@),
        forall|i: int|
            0 <= i < r@.len() ==> schema.spec_map().contains_key((#[trigger] r@[i]).name@)
                && r@[i].type_ == spec_col_type(schema.spec_map()[r@[i].name@]),
        forall|k: Seq<char>|
            #[trigger] schema.spec_map().contains_key(k) ==> exists|i: int|
                0 <= i < r@.len() && #[trigger] r@[i].name@ == k,
{
    let ghost e = schema.entries@;
    proof {
        lemma_entries_map(e);
    }
    let mut out: Vec<ColSpec> = Vec::new();
    // `src[i]` is the entry that column `i` came from; `pos[m]` is the column
    // that entry `m` became.
    let ghost mut src: Seq<int> = Seq::empty();
    let ghost mut pos: Seq<int> = Seq::empty();
    let mut j: usize = 0;
    while j < schema.entries.len()
        invariant
            j <= e.len(),
            e == schema.entries@,
            entries_wf(e),
            out@.len() == j,
            src.len() == j,
            pos.len() == j,
            cols_sorted(out@),
            forall|i: int|
                0 <= i < j ==> 0 <= #[trigger] src[i] < j && e[src[i]].0@ == out@[i].name@
                    && out@[i].type_ == spec_col_type(e[src[i]].1),
            forall|m: int|
                0 <= m < j ==> 0 <= #[trigger] pos[m] < j && out@[pos[m]].name@ == e[m].0@,
        decreases e.len() - j,
    {
        let name = schema.entries[j].0.clone();
        let t = col_type(&schema.entries[j].1);
        let c = ColSpec { name, type_: t };
        let ghost before = out@;
        proof {
            assert forall|i: int| 0 <= i < before.len() implies (#[trigger] before[i]).name@
                != c.name@ by {
                assert(src[i] != j);
            }
        }
        insert_sorted(&mut out, c);
        proof {
            let p = choose|p: int| 0 <= p <= before.len() && out@ == before.insert(p, c);
            let src2 = src.insert(p, j as int);
            let pos2 = Seq::new((j + 1) as nat, |m: int| if m == j { p } else if pos[m] < p { pos[m] } else { pos[m] + 1 });
            assert forall|i: int| 0 <= i < j + 1 implies 0 <= #[trigger] src2[i] < j + 1 && e[src2[i]].0@ == out@[i].name@
                    && out@[i].type_ == spec_col_type(e[src2[i]].1) by {
                if i < p {
                    assert(out@[i] == before[i] && src2[i] == src[i]);
                } else if i > p {
                    assert(out@[i] == before[i - 1] && src2[i] == src[i - 1]);
                }
            }
            assert forall|m: int| 0 <= m < j + 1 implies 0 <= #[trigger] pos2[m] < j + 1 && out@[pos2[m]].name@ == e[m].0@ by {
                if m < j {
                    if pos[m] < p {
                        assert(out@[pos[m]] == before[pos[m]]);
                    } else {
                        assert(out@[pos[m] + 1] == before[pos[m]]);
                    }
                }
            }
            src = src2;
            pos = pos2;
        }
        j = j + 1;
    }
    proof {
        assert forall|i: int|
            0 <= i < out@.len() implies schema.spec_map().contains_key((#[trigger] out@[i]).name@)
            && out@[i].type_ == spec_col_type(schema.spec_map()[out@[i].name@]) by {
            assert(e[src[i]].0@ == out@[i].name@);
        }
        assert forall|k: Seq<char>| #[trigger] schema.spec_map().contains_key(k) implies exists|
            i: int,
        | 0 <= i < out@.len() && #[trigger] out@[i].name@ == k by {
            let m = choose|m: int| 0 <= m < e.len() && #[trigger] e[m].0@ == k;
            assert(out@[pos[m]].name@ == k);
        }
    }
    out
}

/// The type inferred for one property value: a float number is a double, any
/// other number a long.
pub open spec fn prop_type(v: PropValue) -> PropType {
    match v {
        PropValue::Null => PropType::Null,
        PropValue::Bool(_) => PropType::Boolean,
        PropValue::Number(n) => if n.is_f64 {
            PropType::Double
        } else {
            PropType::Long
        },
        PropValue::Str(_) => PropType::String,
        PropValue::Array => PropType::JsonVal,
        PropValue::Object => PropType::JsonVal,
    }
}

/// A number that is neither stored as a float nor fits an `i64` (a large
/// unsigned integer) has no property type.
pub open spec fn typeable(v: PropValue) -> bool {
    match v {
        PropValue::Number(n) => n.is_f64 || n.as_i64 is Some,
        _ => true,
    }
}

/// Infers the type of one property value.
pub fn value_type(v: &PropValue) -> (r: PropType)
    requires
        typeable(*v),
    ensures
        r == prop_type(*v),
{
    match v {
        PropValue::Null => PropType::Null,
        PropValue::Bool(_) => PropType::Boolean,
        PropValue::Number(n) => {
            if n.is_f64 {
                PropType::Double
            } else {
                PropType::Long
            }
        },
        PropValue::Str(_) => PropType::String,
        PropValue::Array => PropType::JsonVal,
        PropValue::Object => PropType::JsonVal,
    }
}

/// The schema of one feature: each of its properties with the type of its
/// value, nulls included; none for a feature without properties.
pub fn feature_schema(props: &Option<Vec<Property>>) -> (r: Schema)
    requires
        props matches Some(ps) ==> props_wf(ps@) && forall|i: int|
            0 <= i < ps@.len() ==> typeable(#[trigger] ps@[i].value),
    ensures
        r.wf(),
        props is None ==> r.entries@.len() == 0,
        props matches Some(ps) ==> {
            &&& r.entries@.len() == ps@.len()
            &&& forall|i: int|
                0 <= i < ps@.len() ==> (#[trigger] r.entries@[i]).0@ == ps@[i].key@
                    && r.entries@[i].1 == prop_type(ps@[i].value)
        },
{
    let mut entries: Vec<(String, PropType)> = Vec::new();
    match props {
        None => {},
        Some(ps) => {
            let mut i: usize = 0;
            while i < ps.len()
                invariant
                    i <= ps@.len(),
                    props_wf(ps@),
                    forall|m: int| 0 <= m < ps@.len() ==> typeable(#[trigger] ps@[m].value),
                    entries@.len() == i,
                    forall|m: int|
                        0 <= m < i ==> (#[trigger] entries@[m]).0@ == ps@[m].key@
                            && entries@[m].1 == prop_type(ps@[m].value),
                decreases ps@.len() - i,
            {
                let t = value_type(&ps[i].value);
                entries.push((ps[i].key.clone(), t));
                i = i + 1;
            }
        },
    }
    Schema { entries }
}

/// The first property with the given key, if any.
pub open spec fn find_prop(props: Seq<Property>, key: Seq<char>) -> Option<int>
    decreases props.len(),
{
    if props.len() == 0 {
        None
    } else {
        match find_prop(props.drop_last(), key) {
            Some(i) => Some(i),
            None => if props.last().key@ == key {
                Some(props.len() - 1)
            } else {
                None
            },
        }
    }
}

/// A length and then the UTF-8 bytes of a text.
pub open spec fn text_bytes(t: Seq<char>) -> Seq<u8> {
    spec_u32_to_le_bytes(encode_utf8(t).len() as u32) + encode_utf8(t)
}

/// What a column of the given type stores of a property: a byte for a
/// boolean, eight little-endian bytes for a long or a double, and the
/// length-prefixed UTF-8 text of a string or of the value's JSON.
pub open spec fn value_bytes(t: ColumnType, p: Property) -> Seq<u8> {
    match t {
        ColumnType::Bool => match p.value {
            PropValue::Bool(b) => seq![if b { 1u8 } else { 0u8 }],
            _ => Seq::empty(),
        },
        ColumnType::Long => match p.value {
            PropValue::Number(n) => spec_u64_to_le_bytes(n.as_i64->0 as u64),
            _ => Seq::empty(),
        },
        ColumnType::Double => match p.value {
            PropValue::Number(n) => spec_u64_to_le_bytes(n.f64_bits),
            _ => Seq::empty(),
        },
        ColumnType::String => match p.value {
            PropValue::Str(s) => text_bytes(s@),
            _ => Seq::empty(),
        },
        ColumnType::Json => text_bytes(p.json@),
    }
}

/// Whether a column of the given type can store the property: the value has
/// the column's kind and a text fits a 32-bit length.
pub open spec fn storable(t: ColumnType, p: Property) -> bool {
    match t {
        ColumnType::Bool => p.value is Bool,
        ColumnType::Long => p.value matches PropValue::Number(n) && n.as_i64 is Some,
        ColumnType::Double => p.value is Number,
        ColumnType::String => p.value matches PropValue::Str(s) && encode_utf8(s@).len()
            <= u32::MAX,
        ColumnType::Json => encode_utf8(p.json@).len() <= u32::MAX,
    }
}

/// The bytes column `idx` contributes: nothing where the feature lacks the
/// property or holds null there, else the column index and the value.
pub open spec fn column_bytes(props: Seq<Property>, col: ColSpec, idx: int) -> Seq<u8> {
    match find_prop(props, col.name@) {
        None => Seq::empty(),
        Some(i) => if props[i].value is Null {
            Seq::empty()
        } else {
            spec_u16_to_le_bytes(idx as u16) + value_bytes(col.type_, props[i])
        },
    }
}

/// Every non-null property a column names can be stored in that column.
pub open spec fn props_storable(props: Seq<Property>, specs: Seq<ColSpec>) -> bool {
    forall|c: int|
        0 <= c < specs.len() ==> match find_prop(props, (#[trigger] specs[c]).name@) {
            None => true,
            Some(i) => props[i].value is Null || storable(specs[c].type_, props[i]),
        }
}

/// The property buffer of a feature: the columns' bytes in column order.
pub open spec fn props_bytes(props: Seq<Property>, specs: Seq<ColSpec>) -> Seq<u8>
    decreases specs.len(),
{
    if specs.len() == 0 {
        Seq::empty()
    } else {
        props_bytes(props, specs.drop_last()) + column_bytes(
            props,
            specs.last(),
            specs.len() - 1,
        )
    }
}

/// The property a lookup by key finds, if any.
pub open spec fn lookup(props: Seq<Property>, key: Seq<char>) -> Option<Property> {
    match find_prop(props, key) {
        Some(i) => Some(props[i]),
        None => None,
    }
}

/// `find_prop` gives the first position holding the key.
proof fn lemma_find_prop_first(props: Seq<Property>, key: Seq<char>)
    ensures
        find_prop(props, key) matches Some(i) ==> 0 <= i < props.len() && props[i].key@ == key
            && forall|j: int| 0 <= j < i ==> props[j].key@ != key,
        find_prop(props, key) is None ==> forall|j: int| 0 <= j < props.len() ==> props[j].key@ != key,
    decreases props.len(),
{
    if props.len() > 0 {
        let d = props.drop_last();
        lemma_find_prop_first(d, key);
        assert forall|j: int| 0 <= j < d.len() implies d[j] == props[j] by {}
    }
}

/// Two lists with the same first position for a key (as properties found)
/// look it up alike.
proof fn lemma_lookup_by_first(p1: Seq<Property>, p2: Seq<Property>, key: Seq<char>)
    requires
        (exists|j: int| 0 <= j < p1.len() && p1[j].key@ == key) <==> (exists|j: int|
            0 <= j < p2.len() && p2[j].key@ == key),
        forall|i1: int, i2: int|
            0 <= i1 < p1.len() && 0 <= i2 < p2.len() && p1[i1].key@ == key && p2[i2].key@ == key
                && (forall|j: int| 0 <= j < i1 ==> p1[j].key@ != key) && (forall|j: int|
                0 <= j < i2 ==> p2[j].key@ != key) ==> p1[i1] == p2[i2],
    ensures
        lookup(p1, key) == lookup(p2, key),
{
    lemma_find_prop_first(p1, key);
    lemma_find_prop_first(p2, key);
}

/// Inserting a property with another key does not change a lookup.
proof fn lemma_lookup_insert_other(props: Seq<Property>, pos: int, extra: Property, key: Seq<char>)
    requires
        0 <= pos <= props.len(),
        extra.key@ != key,
    ensures
        lookup(props.insert(pos, extra), key) == lookup(props, key),
{
    let q = props.insert(pos, extra);
    assert forall|j: int| 0 <= j < props.len() implies #[trigger] props[j] == q[if j < pos {
        j
    } else {
        j + 1
    }] by {}
    if exists|j: int| 0 <= j < props.len() && props[j].key@ == key {
        let j = choose|j: int| 0 <= j < props.len() && props[j].key@ == key;
        let jj = if j < pos { j } else { j + 1 };
        assert(q[jj] == props[j]);
    }
    if exists|j: int| 0 <= j < q.len() && q[j].key@ == key {
        let j = choose|j: int| 0 <= j < q.len() && q[j].key@ == key;
        assert(j != pos);
        let jj = if j < pos { j } else { j - 1 };
        assert(props[jj] == q[j]);
    }
    assert forall|i1: int, i2: int|
        0 <= i1 < q.len() && 0 <= i2 < props.len() && q[i1].key@ == key && props[i2].key@ == key
            && (forall|j: int| 0 <= j < i1 ==> q[j].key@ != key) && (forall|j: int|
            0 <= j < i2 ==> props[j].key@ != key) implies q[i1] == props[i2] by {
        let m2 = if i2 < pos { i2 } else { i2 + 1 };
        assert(q[m2] == props[i2]);
        assert(i1 != pos);
        let m1 = if i1 < pos { i1 } else { i1 - 1 };
        assert(props[m1] == q[i1]);
        if i1 < m2 {
            if m1 < i2 {
                assert(props[m1].key@ != key);
            }
        } else if m2 < i1 {
            assert(q[m2].key@ != key);
        }
    }
    lemma_lookup_by_first(q, props, key);
}

/// The bytes of the columns depend on the properties only through what a
/// lookup of each column's name finds.
proof fn lemma_props_bytes_lookups(p1: Seq<Property>, p2: Seq<Property>, specs: Seq<ColSpec>)
    requires
        forall|c: int| 0 <= c < specs.len() ==> lookup(p1, (#[trigger] specs[c]).name@) == lookup(
            p2,
            specs[c].name@,
        ),
    ensures
        props_bytes(p1, specs) == props_bytes(p2, specs),
    decreases specs.len(),
{
    if specs.len() > 0 {
        let d = specs.drop_last();
        assert forall|c: int| 0 <= c < d.len() implies lookup(p1, (#[trigger] d[c]).name@) == lookup(
            p2,
            d[c].name@,
        ) by {
            assert(d[c] == specs[c]);
        }
        lemma_props_bytes_lookups(p1, p2, d);
        assert(lookup(p1, specs[specs.len() - 1].name@) == lookup(p2, specs[specs.len() - 1].name@));
    }
}

/// Law: a property whose key names no column is never written: adding it
/// anywhere to a feature's properties leaves the property buffer as it was.
/// (A feature without properties has no buffer: `feature_props` gives none.)
pub proof fn lemma_unknown_key_ignored(props: Seq<Property>, pos: int, extra: Property, specs: Seq<ColSpec>)
    requires
        0 <= pos <= props.len(),
        forall|c: int| 0 <= c < specs.len() ==> (#[trigger] specs[c]).name@ != extra.key@,
    ensures
        props_bytes(props.insert(pos, extra), specs) == props_bytes(props, specs),
        props_storable(props.insert(pos, extra), specs) == props_storable(props, specs),
{
    assert forall|c: int| 0 <= c < specs.len() implies lookup(
        props.insert(pos, extra),
        (#[trigger] specs[c]).name@,
    ) == lookup(props, specs[c].name@) by {
        lemma_lookup_insert_other(props, pos, extra, specs[c].name@);
    }
    lemma_props_bytes_lookups(props.insert(pos, extra), props, specs);
    assert forall|c: int| 0 <= c < specs.len() implies (match find_prop(
        props.insert(pos, extra),
        (#[trigger] specs[c]).name@,
    ) {
        None => true,
        Some(i) => props.insert(pos, extra)[i].value is Null || storable(
            specs[c].type_,
            props.insert(pos, extra)[i],
        ),
    }) == (match find_prop(props, specs[c].name@) {
        None => true,
        Some(i) => props[i].value is Null || storable(specs[c].type_, props[i]),
    }) by {
        lemma_lookup_insert_other(props, pos, extra, specs[c].name@);
    }
}

/// Finds the first property with the given key.
fn find_property(props: &Vec<Property>, key: &String) -> (r: Option<usize>)
    ensures
        r matches Some(i) ==> find_prop(props@, key@) == Some(i as int) && i < props@.len(),
        r is None ==> find_prop(props@, key@) is None,
{
    let mut i: usize = 0;
    while i < props.len()
        invariant
            i <= props@.len(),
            find_prop(props@.take(i as int), key@) is None,
        decreases props@.len() - i,
    {
        assert(props@.take(i + 1).drop_last() =~= props@.take(i as int));
        if props[i].key == *key {
            proof {
                lemma_find_prop_prefix(props@, i as int + 1, key@);
            }
            return Some(i);
        }
        i = i + 1;
    }
    assert(props@.take(i as int) =~= props@);
    None
}

/// A key found in a prefix is found at the same place in the whole list.
proof fn lemma_find_prop_prefix(props: Seq<Property>, n: int, key: Seq<char>)
    requires
        0 <= n <= props.len(),
        find_prop(props.take(n), key) is Some,
    ensures
        find_prop(props, key) == find_prop(props.take(n), key),
    decreases props.len() - n,
{
    if n < props.len() {
        assert(props.take(n + 1).drop_last() =~= props.take(n));
        lemma_find_prop_prefix(props, n + 1, key);
    } else {
        assert(props.take(n) =~= props);
    }
}

/// Appends a length-prefixed UTF-8 text.
fn push_text(bytes: &mut Vec<u8>, t: &str)
    requires
        encode_utf8(t@).len() <= u32::MAX,
    ensures
        final(bytes)@ == old(bytes)@ + text_bytes(t@),
{
    let b = t.as_bytes();
    let len: u32 = b.len() as u32;
    let mut part = u32_to_le_bytes(len);
    bytes.append(&mut part);
    let mut body = slice_to_vec(b);
    bytes.append(&mut body);
}

/// Appends what a column of the given type stores of a property.
fn push_value(bytes: &mut Vec<u8>, t: ColumnType, p: &Property)
    requires
        storable(t, *p),
    ensures
        final(bytes)@ == old(bytes)@ + value_bytes(t, *p),
{
    match t {
        ColumnType::Bool => {
            if let PropValue::Bool(b) = &p.value {
                if *b {
                    bytes.push(1u8);
                } else {
                    bytes.push(0u8);
                }
            }
        },
        ColumnType::Long => {
            if let PropValue::Number(n) = &p.value {
                if let Some(x) = n.as_i64 {
                    let mut part = u64_to_le_bytes(x as u64);
                    bytes.append(&mut part);
                }
            }
        },
        ColumnType::Double => {
            if let PropValue::Number(n) = &p.value {
                let mut part = u64_to_le_bytes(n.f64_bits);
                bytes.append(&mut part);
            }
        },
        ColumnType::String => {
            if let PropValue::Str(s) = &p.value {
                push_text(bytes, s.as_str());
            }
        },
        ColumnType::Json => {
            push_text(bytes, p.json.as_str());
        },
    }
}

/// The property buffer of a feature for the given columns: for each column
/// in turn whose property the feature holds with a non-null value, the
/// column's index as two little-endian bytes and then the value. None where
/// the feature has no properties or the buffer would be empty.
pub fn feature_props(props: &Option<Vec<Property>>, specs: &Vec<ColSpec>) -> (r: Option<Vec<u8>>)
    requires
        specs@.len() <= u16::MAX,
        props matches Some(ps) ==> props_storable(ps@, specs@),
    ensures
        props is None ==> r is None,
        props matches Some(ps) ==> {
            let b = props_bytes(ps@, specs@);
            &&& b.len() == 0 ==> r is None
            &&& b.len() > 0 ==> (r matches Some(v) && v@ == b)
        },
{
    match props {
        None => None,
        Some(ps) => {
            let mut bytes: Vec<u8> = Vec::new();
            let mut idx: usize = 0;
            while idx < specs.len()
                invariant
                    idx <= specs@.len(),
                    specs@.len() <= u16::MAX,
                    props_storable(ps@, specs@),
                    bytes@ == props_bytes(ps@, specs@.take(idx as int)),
                decreases specs@.len() - idx,
            {
                let col = &specs[idx];
                assert(specs@.take(idx + 1).drop_last() =~= specs@.take(idx as int));
                match find_property(ps, &col.name) {
                    None => {},
                    Some(i) => {
                        let p = &ps[i];
                        if !matches!(p.value, PropValue::Null) {
                            let mut part = u16_to_le_bytes(idx as u16);
                            bytes.append(&mut part);
                            push_value(&mut bytes, col.type_, p);
                        }
                    },
                }
                assert(bytes@ =~= props_bytes(ps@, specs@.take(idx + 1)));
                idx = idx + 1;
            }
            assert(specs@.take(idx as int) =~= specs@);
            if bytes.len() == 0 {
                None
            } else {
                Some(bytes)
            }
        },
    }
}

/// Whether every non-null property a column names can be stored in that
/// column.
pub fn props_fit_columns(props: &Vec<Property>, specs: &Vec<ColSpec>) -> (r: bool)
    ensures
        r == props_storable(props@, specs@),
{
    let mut c: usize = 0;
    while c < specs.len()
        invariant
            c <= specs@.len(),
            forall|j: int|
                0 <= j < c ==> match find_prop(props@, (#[trigger] specs@[j]).name@) {
                    None => true,
                    Some(i) => props@[i].value is Null || storable(specs@[j].type_, props@[i]),
                },
        decreases specs@.len() - c,
    {
        let col = &specs[c];
        match find_property(props, &col.name) {
            None => {},
            Some(i) => {
                let p = &props[i];
                let ok = if matches!(p.value, PropValue::Null) {
                    true
                } else {
                    match col.type_ {
                        ColumnType::Bool => matches!(p.value, PropValue::Bool(_)),
                        ColumnType::Long => match &p.value {
                            PropValue::Number(n) => n.as_i64.is_some(),
                            _ => false,
                        },
                        ColumnType::Double => matches!(p.value, PropValue::Number(_)),
                        ColumnType::String => match &p.value {
                            PropValue::Str(s) => s.as_str().as_bytes().len() <= 0xffff_ffff,
                            _ => false,
                        },
                        ColumnType::Json => p.json.as_str().as_bytes().len() <= 0xffff_ffff,
                    }
                };
                assert(ok == (props@[i as int].value is Null || storable(
                    specs@[c as int].type_,
                    props@[i as int],
                )));
                if !ok {
                    return false;
                }
            },
        }
        c = c + 1;
    }
    true
}

} // verus!
