use geoq::fgb::header::{geometry_type, header_col_specs, schema, GeometryType};
use geoq::fgb::properties::{
    col_specs, col_type, feature_props, feature_schema, value_type, ColSpec, ColumnType,
    NumberValue, PropType, PropValue, Property, Schema,
};

fn prop(key: &str, value: PropValue, json: &str) -> Property {
    Property { key: key.to_string(), value, json: json.to_string() }
}

fn long(v: i64) -> PropValue {
    PropValue::Number(NumberValue { as_i64: Some(v), is_f64: false, f64_bits: (v as f64).to_bits() })
}

fn float(v: f64) -> PropValue {
    PropValue::Number(NumberValue { as_i64: None, is_f64: true, f64_bits: v.to_bits() })
}

fn text(s: &str) -> PropValue {
    PropValue::Str(s.to_string())
}

fn get(s: &Schema, k: &str) -> Option<PropType> {
    s.entries.iter().find(|(key, _)| key == k).map(|(_, t)| *t)
}

#[test]
fn test_schema_inference() {
    let feats = vec![Some(vec![prop("age", long(123), "123"), prop("name", text("pizza"), "\"pizza\"")])];
    let sch = schema(&feats);
    assert_eq!(2, sch.entries.len());
    assert_eq!(Some(PropType::Long), get(&sch, "age"));
    assert_eq!(Some(PropType::String), get(&sch, "name"));
}

#[test]
fn test_schema_inference_mixed() {
    let feats = vec![
        Some(vec![prop("n", text("null"), "\"null\""), prop("name", text("pizza"), "\"pizza\"")]),
        Some(vec![prop("foo", PropValue::Array, "[\"pizza\"]"), prop("n", long(123), "123")]),
        Some(vec![prop("foo", PropValue::Object, "{\"a\":\"b\"}")]),
        Some(vec![prop("name", float(1.0), "1.0")]),
        Some(vec![prop("name", long(1), "1")]),
    ];
    let sch = schema(&feats);
    assert_eq!(3, sch.entries.len());
    assert_eq!(Some(PropType::JsonVal), get(&sch, "name"));
    assert_eq!(Some(PropType::JsonVal), get(&sch, "foo"));
    assert_eq!(Some(PropType::JsonVal), get(&sch, "n"));
}

#[test]
fn schema_widens_long_into_double_only_after_double() {
    let double_then_long = vec![Some(vec![prop("x", float(1.5), "1.5")]), Some(vec![prop("x", long(2), "2")])];
    assert_eq!(Some(PropType::Double), get(&schema(&double_then_long), "x"));
    let long_then_double = vec![Some(vec![prop("x", long(2), "2")]), Some(vec![prop("x", float(1.5), "1.5")])];
    assert_eq!(Some(PropType::JsonVal), get(&schema(&long_then_double), "x"));
}

#[test]
fn schema_skips_nulls_and_missing_properties() {
    let feats = vec![None, Some(vec![prop("a", PropValue::Null, "null")]), Some(vec![prop("b", PropValue::Bool(true), "true")])];
    let sch = schema(&feats);
    assert_eq!(sch.entries.len(), 1);
    assert_eq!(get(&sch, "a"), None);
    assert_eq!(get(&sch, "b"), Some(PropType::Boolean));
}

#[test]
fn schema_keeps_uniform_types() {
    let feats = vec![
        Some(vec![prop("s", text("a"), "\"a\""), prop("b", PropValue::Bool(false), "false")]),
        Some(vec![prop("s", text("b"), "\"b\""), prop("b", PropValue::Null, "null")]),
        Some(vec![prop("b", PropValue::Bool(true), "true")]),
    ];
    let sch = schema(&feats);
    assert_eq!(get(&sch, "s"), Some(PropType::String));
    assert_eq!(get(&sch, "b"), Some(PropType::Boolean));
}

#[test]
fn feature_schema_records_every_property() {
    let props = Some(vec![prop("a", PropValue::Null, "null"), prop("b", float(2.5), "2.5"), prop("c", PropValue::Object, "{}")]);
    let sch = feature_schema(&props);
    assert_eq!(sch.entries.len(), 3);
    assert_eq!(get(&sch, "a"), Some(PropType::Null));
    assert_eq!(get(&sch, "b"), Some(PropType::Double));
    assert_eq!(get(&sch, "c"), Some(PropType::JsonVal));
    assert_eq!(feature_schema(&None).entries.len(), 0);
}

#[test]
fn column_types() {
    assert_eq!(col_type(&PropType::Boolean), ColumnType::Bool);
    assert_eq!(col_type(&PropType::Long), ColumnType::Long);
    assert_eq!(col_type(&PropType::Double), ColumnType::Double);
    assert_eq!(col_type(&PropType::String), ColumnType::String);
    assert_eq!(col_type(&PropType::JsonVal), ColumnType::Json);
    assert_eq!(col_type(&PropType::Null), ColumnType::Json);
    assert_eq!(value_type(&long(3)), PropType::Long);
    assert_eq!(value_type(&PropValue::Array), PropType::JsonVal);
}

#[test]
fn col_specs_sorted_by_name() {
    let sch = Schema {
        entries: vec![
            ("name".to_string(), PropType::String),
            ("age".to_string(), PropType::Long),
            ("Zed".to_string(), PropType::Null),
        ],
    };
    let cols = col_specs(&sch);
    let names: Vec<&str> = cols.iter().map(|c| c.name.as_str()).collect();
    assert_eq!(names, vec!["Zed", "age", "name"]);
    assert_eq!(cols[0].type_, ColumnType::Json);
    assert_eq!(cols[1].type_, ColumnType::Long);
    assert_eq!(cols[2].type_, ColumnType::String);
}

#[test]
fn header_columns_from_features() {
    let feats = vec![Some(vec![prop("name", text("pizza"), "\"pizza\""), prop("age", long(1), "1")])];
    let cols = header_col_specs(&feats);
    assert_eq!(cols.len(), 2);
    assert_eq!(cols[0].name, "age");
    assert_eq!(cols[0].type_, ColumnType::Long);
    assert_eq!(cols[1].name, "name");
    assert_eq!(cols[1].type_, ColumnType::String);
}

fn spec(name: &str, t: ColumnType) -> ColSpec {
    ColSpec { name: name.to_string(), type_: t }
}

#[test]
fn feature_props_encodes_each_column() {
    let specs = vec![
        spec("a", ColumnType::Bool),
        spec("b", ColumnType::Long),
        spec("c", ColumnType::Double),
        spec("d", ColumnType::String),
        spec("e", ColumnType::Json),
    ];
    let props = Some(vec![
        prop("e", PropValue::Array, "[1]"),
        prop("d", text("hé"), "\"hé\""),
        prop("c", long(2), "2"),
        prop("b", long(-1), "-1"),
        prop("a", PropValue::Bool(true), "true"),
    ]);
    let bytes = feature_props(&props, &specs).unwrap();
    let mut expected: Vec<u8> = vec![];
    expected.extend_from_slice(&0u16.to_le_bytes());
    expected.push(1);
    expected.extend_from_slice(&1u16.to_le_bytes());
    expected.extend_from_slice(&(-1i64).to_le_bytes());
    expected.extend_from_slice(&2u16.to_le_bytes());
    expected.extend_from_slice(&2.0f64.to_le_bytes());
    expected.extend_from_slice(&3u16.to_le_bytes());
    expected.extend_from_slice(&3u32.to_le_bytes());
    expected.extend_from_slice("hé".as_bytes());
    expected.extend_from_slice(&4u16.to_le_bytes());
    expected.extend_from_slice(&3u32.to_le_bytes());
    expected.extend_from_slice(b"[1]");
    assert_eq!(bytes, expected);
}

#[test]
fn feature_props_skips_missing_and_null() {
    let specs = vec![spec("a", ColumnType::Bool), spec("b", ColumnType::Long), spec("c", ColumnType::Bool)];
    let props = Some(vec![prop("b", PropValue::Null, "null"), prop("c", PropValue::Bool(false), "false")]);
    assert_eq!(feature_props(&props, &specs).unwrap(), vec![2, 0, 0]);
    let only_nulls = Some(vec![prop("b", PropValue::Null, "null")]);
    assert_eq!(feature_props(&only_nulls, &specs), None);
    assert_eq!(feature_props(&None, &specs), None);
    assert_eq!(feature_props(&Some(vec![]), &specs), None);
}

#[test]
fn geometry_type_of_collection() {
    let same = vec![Some(GeometryType::Point), None, Some(GeometryType::Point)];
    assert_eq!(geometry_type(&same), GeometryType::Point);
    let mixed = vec![Some(GeometryType::Point), Some(GeometryType::Polygon)];
    assert_eq!(geometry_type(&mixed), GeometryType::Unknown);
    assert_eq!(geometry_type(&vec![None, None]), GeometryType::Unknown);
    assert_eq!(geometry_type(&vec![]), GeometryType::Unknown);
}

#[test]
fn feature_props_ignores_keys_outside_the_schema() {
    let specs = vec![spec("a", ColumnType::Bool), spec("b", ColumnType::Long)];
    let base = vec![prop("a", PropValue::Bool(true), "true"), prop("b", long(7), "7")];
    let extra = vec![
        prop("a", PropValue::Bool(true), "true"),
        prop("zzz", text("x"), "\"x\""),
        prop("b", long(7), "7"),
        prop("other", long(1), "1"),
    ];
    assert_eq!(feature_props(&Some(base), &specs), feature_props(&Some(extra), &specs));
}
