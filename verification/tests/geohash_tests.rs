use geoq::error::Error;
use geoq::geohash::{children, encode_long, is_valid_geohash, neighbors, read_level};
use geoq::geohash_covering::GeohashCovering;
use geoq::order::str_less;

#[test]
fn geohash_children_in_alphabet_order() {
    let c = children(&"9q5".to_string());
    assert_eq!(c.len(), 32);
    assert_eq!(c[0], "9q50");
    assert_eq!(c[10], "9q5b");
    assert_eq!(c[31], "9q5z");
}

#[test]
fn geohash_neighbors_clockwise_from_north() {
    let n = neighbors(&"9g3m".to_string(), false);
    assert_eq!(n, vec!["9g3q", "9g3w", "9g3t", "9g3s", "9g3k", "9g3h", "9g3j", "9g3n"]);
    let with_self = neighbors(&"9g3m".to_string(), true);
    assert_eq!(
        with_self,
        vec!["9g3m", "9g3q", "9g3w", "9g3t", "9g3s", "9g3k", "9g3h", "9g3j", "9g3n"]
    );
}

#[test]
fn encode_long_twelve_digits() {
    assert_eq!(encode_long(0), "000000000000");
    assert_eq!(encode_long(31), "00000000000z");
    assert_eq!(encode_long(32), "000000000010");
    assert_eq!(encode_long(u64::MAX), "zzzzzzzzzzzz");
}

#[test]
fn encode_long_gives_valid_geohash() {
    for x in [0u64, 1, 12345, 0xdead_beef, u64::MAX] {
        assert!(is_valid_geohash(&encode_long(x)));
    }
}

#[test]
fn children_are_valid_geohashes() {
    for c in children(&"u4pruyd".to_string()) {
        assert!(is_valid_geohash(&c));
    }
}

#[test]
fn geohash_validity() {
    assert!(is_valid_geohash("9q5"));
    assert!(!is_valid_geohash(""));
    assert!(!is_valid_geohash("9qa"));
    assert!(!is_valid_geohash("9Q5"));
    assert!(!is_valid_geohash("0123456789bcd"));
}

#[test]
fn geohash_level_argument() {
    assert!(matches!(read_level(None), Err(Error::MissingArgument)));
    assert_eq!(read_level(Some("7")).unwrap(), 7);
    assert_eq!(read_level(Some("+3")).unwrap(), 3);
    match read_level(Some("pizza")) {
        Err(Error::InvalidNumberFormat(m)) => assert_eq!(m, "Expected integer geohash level: pizza"),
        _ => panic!("expected an error"),
    }
}

#[test]
fn string_order_is_byte_order() {
    assert!(str_less("age", "name"));
    assert!(!str_less("name", "age"));
    assert!(str_less("a", "ab"));
    assert!(!str_less("ab", "ab"));
    assert!(str_less("Z", "a"));
    assert!(str_less("z", "é"));
}

fn run_covering(level: usize, related: impl Fn(&str) -> bool) -> Vec<String> {
    let mut cover = GeohashCovering::new(level);
    let mut steps = 0;
    while let Some(gh) = cover.current() {
        let r = related(gh.as_str());
        cover.advance(r);
        steps += 1;
        assert!(steps < 100_000);
    }
    cover.cells()
}

#[test]
fn covering_at_level_zero_is_the_world() {
    assert_eq!(run_covering(0, |_| true), vec![""]);
    assert!(run_covering(0, |_| false).is_empty());
}

#[test]
fn covering_examines_last_child_first() {
    let cells = run_covering(1, |_| true);
    assert_eq!(cells.len(), 32);
    assert_eq!(cells[0], "z");
    assert_eq!(cells[1], "y");
    assert_eq!(cells[31], "0");
}

#[test]
fn covering_refines_only_related_cells() {
    let cells = run_covering(2, |gh| gh.is_empty() || gh.starts_with('9'));
    assert_eq!(cells.len(), 32);
    assert_eq!(cells[0], "9z");
    assert_eq!(cells[31], "90");
    let single = run_covering(3, |gh| "9q5".starts_with(gh));
    assert_eq!(single, vec!["9q5"]);
}

#[test]
fn encode_long_reads_low_sixty_bits() {
    let x: u64 = 0x0123_4567_89ab_cdef;
    assert_eq!(encode_long(x), encode_long(x & ((1u64 << 60) - 1)));
    assert_eq!(encode_long(0xf000_0000_0000_0001), "000000000001");
    assert_eq!(encode_long(31), "00000000000z");
    assert_ne!(encode_long(1), encode_long(2));
}
