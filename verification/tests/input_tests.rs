use geoq::error::Error;
use geoq::input::{read_inputs, read_line, GeoqRule, Input, InputPatterns};
use geoq::reader;

#[test]
fn reading_input_formats() {
    match read_line("12,34".to_string()) {
        Ok(Input::LatLon(_)) => assert!(true),
        _ => assert!(false),
    }
    match read_line("12\t34".to_string()) {
        Ok(Input::LatLon(_)) => assert!(true),
        _ => assert!(false),
    }
}

#[test]
fn h3_regex_format() {
    let patterns = InputPatterns::new().unwrap();
    assert!(patterns.matches_h3("862749967ffffff"));
    assert!(patterns.matches_h3("8027ffffffffffff"));
    // too short
    assert!(!patterns.matches_h3("8027fffffffff"));
    // too long
    assert!(!patterns.matches_h3("8027fffffffffffff"));
    // optional leading 0
    assert!(patterns.matches_h3("08027ffffffffffff"));
}

#[test]
fn detects_each_format() {
    assert!(matches!(read_line("9q5".to_string()), Ok(Input::Geohash(s)) if s == "9q5"));
    assert!(matches!(read_line("8928308280fffff".to_string()), Ok(Input::H3(_))));
    assert!(matches!(
        read_line("{\"type\":\"Point\",\"coordinates\":[1,2]}".to_string()),
        Ok(Input::GeoJSON(_))
    ));
    assert!(matches!(read_line("LINESTRING (30 10, 10 30)".to_string()), Ok(Input::WKT(_))));
    assert!(matches!(read_line("point(1 2)".to_string()), Ok(Input::WKT(_))));
    assert!(matches!(read_line("-12.5,34".to_string()), Ok(Input::LatLon(_))));
}

#[test]
fn unparseable_line_is_an_unknown_format() {
    assert!(matches!(read_line("pizza".to_string()), Err(Error::UnknownEntityFormat)));
    assert!(matches!(read_line("pizza!".to_string()), Err(Error::UnknownEntityFormat)));
}

#[test]
fn latlon_wins_over_geohash() {
    // digits only: both patterns could apply, lat/lon is tried first
    assert!(matches!(read_line("12,34".to_string()), Ok(Input::LatLon(_))));
    assert!(matches!(read_line("1234".to_string()), Ok(Input::Geohash(_))));
}

#[test]
fn input_display_names_format() {
    assert_eq!(Input::Geohash("9q5".to_string()).display(), "Geohash(9q5)");
    assert_eq!(Input::LatLon("1,2".to_string()).display(), "LatLon(1,2)");
    assert_eq!(Input::H3("8928308280fffff".to_string()).display(), "H3Cell(8928308280fffff)");
}

#[test]
fn reader_trims_lines() {
    assert_eq!(reader::read_line(Some("  9q5 \n".to_string())), Some("9q5".to_string()));
    assert_eq!(reader::read_line(Some("\t\r\n".to_string())), Some("".to_string()));
    assert_eq!(reader::read_line(Some("a b".to_string())), Some("a b".to_string()));
    assert_eq!(reader::read_line(None), None);
}

#[test]
fn grammar_matches_become_inputs() {
    let pairs = vec![
        (GeoqRule::Geohash, "9q5".to_string()),
        (GeoqRule::Other, " ".to_string()),
        (GeoqRule::JsonObject, "{}".to_string()),
        (GeoqRule::Wkt, "POINT(0 0)".to_string()),
        (GeoqRule::LatLon, "12,34".to_string()),
    ];
    let inputs: Vec<String> = read_inputs(&pairs).iter().map(|i| i.display()).collect();
    assert_eq!(inputs, vec!["Geohash(9q5)", "GeoJSON({})", "WKT(POINT(0 0))", "LatLon(12,34)"]);
    assert!(read_inputs(&vec![]).is_empty());
}
