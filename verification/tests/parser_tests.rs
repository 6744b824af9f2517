use geoq::parser::{coord_pair, coord_seq, coord_seq_seq, primitive_geometry, root, Coordinates, Geometry, Parsed};

fn c(x: f64, y: f64) -> Coordinates {
    Coordinates(x.to_bits(), y.to_bits())
}

/// The outcome of reading all of `input` but the last `left` bytes.
fn done<T>(input: &str, left: &str, value: T) -> Parsed<T> {
    Parsed::Done(input.len() - left.len(), value)
}

#[test]
fn test_coord_pair() {
    assert_eq!(coord_pair("[0.0,0.0]"), done("[0.0,0.0]", "", c(0.0, 0.0)));
    assert_eq!(coord_pair(" [ 0.0 , 0.0 ]"), done(" [ 0.0 , 0.0 ]", "", c(0.0, 0.0)));
    assert_eq!(coord_pair(" [ 0.0 , 0.0 ] "), done(" [ 0.0 , 0.0 ] ", " ", c(0.0, 0.0)));
}

#[test]
fn test_coord_seq() {
    let input = "[[0.0,0.0],[1.0,2.0]]";
    assert_eq!(coord_seq(input), done(input, "", vec![c(0.0, 0.0), c(1.0, 2.0)]));
}

#[test]
fn test_coord_seq_seq() {
    let input = "[[[0.0,0],[1.0,-2.0]],[[3.567,4.0],[5.0,6.0]]]";
    assert_eq!(
        coord_seq_seq(input),
        done(input, "", vec![vec![c(0.0, 0.0), c(1.0, -2.0)], vec![c(3.567, 4.0), c(5.0, 6.0)]])
    );
}

#[test]
fn parser_test_point() {
    let a = "{\"type\":\"Point\",\"coordinates\":[0.0,0.0]}";
    let b = "{\"coordinates\":[0.0,0.0],\"type\":\"Point\"}";
    let d = "{\"coordinates\":[0.0,0.0], \"type\" : \"Point\" }";
    assert_eq!(root(a), done(a, "", Geometry::Point(c(0.0, 0.0))));
    assert_eq!(root(b), done(b, "", Geometry::Point(c(0.0, 0.0))));
    assert_eq!(root(d), done(d, "", Geometry::Point(c(0.0, 0.0))));
}

#[test]
fn parser_test_linestring() {
    let coords = vec![c(0.0, 0.0), c(1.0, 2.0)];
    let a = "{\"type\":\"LineString\",\"coordinates\":[[0.0,0.0],[1.0,2.0]]}";
    let b = "{\"coordinates\":[[0.0,0.0],[1.0,2.0]],\"type\":\"LineString\"}";
    assert_eq!(root(a), done(a, "", Geometry::LineString(coords.clone())));
    assert_eq!(root(b), done(b, "", Geometry::LineString(coords.clone())));
}

#[test]
fn parser_test_multipoint() {
    let coords = vec![c(0.0, 0.0), c(1.0, 2.0)];
    let a = "{\"type\":\"MultiPoint\",\"coordinates\":[[0.0,0.0],[1.0,2.0]]}";
    let b = "{\"coordinates\":[[0.0,0.0],[1.0,2.0]],\"type\":\"MultiPoint\"}";
    assert_eq!(root(a), done(a, "", Geometry::MultiPoint(coords.clone())));
    assert_eq!(root(b), done(b, "", Geometry::MultiPoint(coords.clone())));
}

#[test]
fn parser_test_multilinestring() {
    let coords = vec![vec![c(0.0, 0.0), c(1.0, 2.0)], vec![c(3.0, 4.0), c(5.0, 6.0)]];
    let a = "{\"type\":\"MultiLineString\",\"coordinates\":[[[0.0,0.0],[1.0,2.0]],[[3.0,4.0],[5.0,6.0]]]}";
    let b = "{\"coordinates\":[[[0.0,0.0],[1.0,2.0]],[[3.0,4.0],[5.0,6.0]]],\"type\":\"MultiLineString\"}";
    assert_eq!(root(a), done(a, "", Geometry::MultiLineString(coords.clone())));
    assert_eq!(root(b), done(b, "", Geometry::MultiLineString(coords.clone())));
}

#[test]
fn parser_test_polygon() {
    let poly_str = r#"
          {
            "type": "Polygon",
            "coordinates": [
                [ [100.0, 0.0], [101.0, 0.0], [101.0, 1.0], [100.0, 1.0], [100.0, 0.0] ],
                [ [100.2, 0.2], [100.8, 0.2], [100.8, 0.8], [100.2, 0.8], [100.2, 0.2] ]
            ]
          }"#;
    let coords = vec![
        vec![c(100.0, 0.0), c(101.0, 0.0), c(101.0, 1.0), c(100.0, 1.0), c(100.0, 0.0)],
        vec![c(100.2, 0.2), c(100.8, 0.2), c(100.8, 0.8), c(100.2, 0.8), c(100.2, 0.2)],
    ];
    assert_eq!(root(poly_str), done(poly_str, "", Geometry::Polygon(coords.clone())));
}

#[test]
fn parser_test_multipolygon() {
    let mp_str = r#"
        {
          "type": "MultiPolygon",
          "coordinates": [
              [
                  [ [102.0, 2.0], [103.0, 2.0], [103.0, 3.0], [102.0, 3.0], [102.0, 2.0] ]
              ],
              [
                  [ [100.0, 0.0], [101.0, 0.0], [101.0, 1.0], [100.0, 1.0], [100.0, 0.0] ],
                  [ [100.2, 0.2], [100.8, 0.2], [100.8, 0.8], [100.2, 0.8], [100.2, 0.2] ]
              ]
          ]
        }"#;
    let coords = vec![
        vec![vec![c(102.0, 2.0), c(103.0, 2.0), c(103.0, 3.0), c(102.0, 3.0), c(102.0, 2.0)]],
        vec![
            vec![c(100.0, 0.0), c(101.0, 0.0), c(101.0, 1.0), c(100.0, 1.0), c(100.0, 0.0)],
            vec![c(100.2, 0.2), c(100.8, 0.2), c(100.8, 0.8), c(100.2, 0.8), c(100.2, 0.2)],
        ],
    ];
    assert_eq!(root(mp_str), done(mp_str, "", Geometry::MultiPolygon(coords.clone())));
}

#[test]
fn test_geometry_collection() {
    let gc_str = r#"
        {
          "type": "GeometryCollection",
          "geometries": [
              {"type": "Point", "coordinates": [100.0, 0.0]},
              {"type": "LineString", "coordinates": [[101.0, 0.0], [102.0, 1.0]]}
          ]
        }"#;
    let geoms = vec![
        Geometry::Point(c(100.0, 0.0)),
        Geometry::LineString(vec![c(101.0, 0.0), c(102.0, 1.0)]),
    ];
    assert_eq!(root(gc_str), done(gc_str, "", Geometry::GeometryCollection(geoms)));
}

#[test]
fn parser_fails_on_other_types_and_shapes() {
    assert_eq!(root("{\"type\":\"Circle\",\"coordinates\":[0,0]}"), Parsed::Fail);
    assert_eq!(root("[0,0]"), Parsed::Fail);
    // a point's coordinates under a line string's type
    assert_eq!(primitive_geometry("{\"type\":\"LineString\",\"coordinates\":[0,0]}"), Parsed::Fail);
    assert_eq!(coord_pair("[0.0;0.0]"), Parsed::Fail);
}

#[test]
fn parser_reports_input_that_ends_early() {
    assert_eq!(root(""), Parsed::Incomplete);
    assert_eq!(root("{\"type\":\"Poi"), Parsed::Incomplete);
    // a number that runs to the end of the input may go on
    assert_eq!(coord_pair("[0.0,1"), Parsed::Incomplete);
    assert_eq!(coord_pair("   "), Parsed::Incomplete);
}

#[test]
fn parser_reads_empty_arrays() {
    assert_eq!(coord_seq("[]"), done("[]", "", vec![]));
    assert_eq!(coord_seq("[ ] x"), done("[ ] x", " x", vec![]));
    let e = "{\"type\":\"MultiPoint\",\"coordinates\":[]}";
    assert_eq!(root(e), done(e, "", Geometry::MultiPoint(vec![])));
}

#[test]
fn parser_stops_list_at_trailing_comma() {
    // the list ends before a comma not followed by a member, so the
    // closing bracket is missing there
    assert_eq!(coord_seq("[[0,0],]"), Parsed::Fail);
}
