use geoq::digits::{decimal, hex, parse_unsigned};
use geoq::error::Error;
use geoq::h3::{
    cell_children, cell_disk, cell_from_str, cell_parent, cell_resolution, covering_step,
    h3_from_int, int_to_cell_text, parse_resolution, polyfill_res, read_radius, read_resolution,
    CellGroup, CellRelation, H3Covering, LineCellSearch,
};

const CELL: u64 = 0x08928308280fffff;

#[test]
fn parses_unsigned_text() {
    assert_eq!(parse_unsigned("0", 255), Some(0));
    assert_eq!(parse_unsigned("+42", 255), Some(42));
    assert_eq!(parse_unsigned("255", 255), Some(255));
    assert_eq!(parse_unsigned("256", 255), None);
    assert_eq!(parse_unsigned("", 255), None);
    assert_eq!(parse_unsigned("+", 255), None);
    assert_eq!(parse_unsigned("-1", 255), None);
    assert_eq!(parse_unsigned(" 1", 255), None);
    assert_eq!(parse_unsigned("18446744073709551615", u64::MAX), Some(u64::MAX));
    assert_eq!(parse_unsigned("18446744073709551616", u64::MAX), None);
    for s in ["7", "+7", "0007", "300", "x", "", "+", "-0"] {
        assert_eq!(parse_unsigned(s, 255).map(|v| v as u8), s.parse::<u8>().ok());
    }
}

#[test]
fn renders_decimal_and_hex() {
    assert_eq!(decimal(0), "0");
    assert_eq!(decimal(617700169958293503), "617700169958293503");
    assert_eq!(hex(0), "0");
    assert_eq!(hex(255), "ff");
    assert_eq!(hex(CELL), "8928308280fffff");
    assert_eq!(hex(u64::MAX), format!("{:x}", u64::MAX));
}

#[test]
fn resolution_arguments() {
    assert_eq!(parse_resolution("9").unwrap(), 9);
    assert_eq!(parse_resolution("15").unwrap(), 15);
    match parse_resolution("16") {
        Err(Error::InvalidInput(m)) => {
            assert_eq!(m, "Invalid H3 cell resolution: 16. Expected number from 0 to 15.")
        }
        _ => panic!("expected an error"),
    }
    match parse_resolution("nine") {
        Err(Error::InvalidNumberFormat(m)) => assert_eq!(m, "Expected valid H3 cell resolution: nine"),
        _ => panic!("expected an error"),
    }
    assert!(matches!(read_resolution(None), Err(Error::MissingArgument)));
    assert_eq!(read_resolution(Some("3")).unwrap(), 3);
}

#[test]
fn radius_argument() {
    assert_eq!(read_radius(None).unwrap(), None);
    assert_eq!(read_radius(Some("2")).unwrap(), Some(2));
    match read_radius(Some("two")) {
        Err(Error::InvalidNumberFormat(m)) => assert_eq!(m, "Expected integer radius, got: two"),
        _ => panic!("expected an error"),
    }
}

#[test]
fn polyfill_resolution_range() {
    assert_eq!(polyfill_res(None, None).unwrap(), (0, 15));
    assert_eq!(polyfill_res(Some("3"), Some("7")).unwrap(), (3, 7));
    match polyfill_res(Some("8"), Some("7")) {
        Err(Error::InvalidInput(m)) => assert_eq!(
            m,
            "Min resolution must be less than or equal to max resolution. Got min: 8, max: 7"
        ),
        _ => panic!("expected an error"),
    }
    assert!(matches!(polyfill_res(Some("x"), None), Err(Error::InvalidNumberFormat(_))));
    assert!(matches!(polyfill_res(None, Some("99")), Err(Error::InvalidInput(_))));
}

#[test]
fn cell_resolution_from_index() {
    assert_eq!(cell_resolution(CELL), 9);
    assert_eq!(cell_resolution(0x0802_7fff_ffff_ffff), 0);
}

#[test]
fn children_of_a_cell() {
    let kids = cell_children(CELL, None).unwrap();
    assert_eq!(kids.len(), 7);
    for k in &kids {
        let c = u64::from_str_radix(k, 16).unwrap();
        assert_eq!(cell_resolution(c), 10);
    }
    let grandkids = cell_children(CELL, Some(11)).unwrap();
    assert_eq!(grandkids.len(), 49);
    match cell_children(CELL, Some(9)) {
        Err(Error::InvalidInput(m)) => {
            assert_eq!(m, "Resolution must be greater than provided cell resolution.")
        }
        _ => panic!("expected an error"),
    }
    assert!(matches!(cell_children(CELL, Some(16)), Err(Error::InvalidInput(_))));
}

#[test]
fn parent_of_a_cell() {
    assert_eq!(cell_parent(CELL, None).unwrap(), vec!["8828308281fffff".to_string()]);
    let p = u64::from_str_radix(&cell_parent(CELL, Some(5)).unwrap()[0], 16).unwrap();
    assert_eq!(cell_resolution(p), 5);
    assert!(matches!(cell_parent(CELL, Some(9)), Err(Error::InvalidInput(_))));
    assert!(matches!(cell_parent(0x0802_7fff_ffff_ffff, None), Err(Error::InvalidInput(_))));
}

#[test]
fn disk_around_a_cell() {
    let disk = cell_disk(CELL, 1).unwrap();
    assert_eq!(disk.len(), 7);
    assert!(disk.contains(&"8928308280fffff".to_string()));
    assert_eq!(cell_disk(CELL, 0).unwrap(), vec!["8928308280fffff".to_string()]);
}

#[test]
fn cells_from_integers_and_text() {
    assert_eq!(h3_from_int(CELL).unwrap(), CELL);
    assert!(matches!(h3_from_int(1), Err(Error::InvalidInput(_))));
    assert_eq!(int_to_cell_text("617700169958293503").unwrap(), "8928308280fffff");
    match int_to_cell_text("abc") {
        Err(Error::InvalidInput(m)) => assert_eq!(m, "Expected valid H3 integer cell index. Got: abc"),
        _ => panic!("expected an error"),
    }
    assert_eq!(cell_from_str("8928308280fffff").unwrap(), CELL);
    assert!(matches!(cell_from_str("zzz"), Err(Error::InvalidInput(_))));
}

fn rel(cell: u64, intersects: bool, centroid: bool) -> CellRelation {
    CellRelation { cell, is_contained: false, intersects, centroid_contained: centroid }
}

#[test]
fn covering_step_decisions() {
    // whole group inside: replaced by its parent
    let g = CellGroup { cells: vec![1, 2], res: 10, parent: Some(77) };
    let step = covering_step(&g, &vec![rel(1, true, true), rel(2, true, true)], 5, 12);
    assert_eq!(step.cells, vec![77]);
    assert!(step.groups.is_empty());
    // at the maximum resolution: intersecting cells with centers inside
    let g = CellGroup { cells: vec![1, 2, 3], res: 12, parent: Some(77) };
    let step = covering_step(&g, &vec![rel(1, true, true), rel(2, true, false), rel(3, false, true)], 5, 12);
    assert_eq!(step.cells, vec![1]);
    assert!(step.groups.is_empty());
    // below the maximum: children of the intersecting cells
    let g = CellGroup { cells: vec![CELL], res: 9, parent: None };
    let step = covering_step(&g, &vec![rel(CELL, true, false)], 5, 12);
    assert!(step.cells.is_empty());
    assert_eq!(step.groups.len(), 1);
    assert_eq!(step.groups[0].res, 10);
    assert_eq!(step.groups[0].parent, Some(CELL));
    assert_eq!(step.groups[0].cells.len(), 7);
}

#[test]
fn line_search_keeps_only_meeting_cells() {
    let mut search = LineCellSearch::new(CELL);
    assert_eq!(search.current(), Some(CELL));
    let mut steps = 0;
    while let Some(c) = search.current() {
        search.advance(c == CELL).unwrap();
        steps += 1;
        assert!(steps < 100);
    }
    // The start cell, then its disk of seven cells (itself included).
    assert_eq!(steps, 8);
    assert_eq!(search.cells(), vec![CELL]);
}

#[test]
fn line_search_stops_when_start_misses() {
    let mut search = LineCellSearch::new(CELL);
    search.advance(false).unwrap();
    assert_eq!(search.current(), None);
    assert!(search.cells().is_empty());
}

#[test]
fn line_search_spreads_through_meeting_cells() {
    let disk: Vec<u64> = cell_disk(CELL, 1)
        .unwrap()
        .iter()
        .map(|t| cell_from_str(t).unwrap())
        .collect();
    let mut search = LineCellSearch::new(CELL);
    while let Some(c) = search.current() {
        search.advance(disk.contains(&c)).unwrap();
    }
    let mut cells = search.cells();
    cells.sort();
    let mut want = disk.clone();
    want.sort();
    assert_eq!(cells, want);
}

#[test]
fn h3_covering_refines_then_keeps_cells() {
    // Start from a resolution-8 cell; its children at 9 all intersect, and
    // only the first has its center inside: at the maximum resolution 9
    // that child alone is kept.
    let parent = 0x0882_8308_281f_ffff_u64;
    let mut cover = H3Covering::new(vec![parent], 8, 5, 9);
    let mut steps = 0;
    let mut first_child: Option<u64> = None;
    while let Some(group) = cover.current() {
        let rels: Vec<CellRelation> = group
            .cells
            .iter()
            .enumerate()
            .map(|(i, &c)| rel(c, true, group.res == 8 || i == 0))
            .collect();
        if group.res == 9 {
            first_child = Some(group.cells[0]);
        }
        cover.advance(&rels);
        steps += 1;
        assert!(steps < 10);
    }
    assert_eq!(steps, 2);
    assert_eq!(cover.cells(), vec![first_child.unwrap()]);
}

#[test]
fn h3_covering_takes_parent_of_inner_group() {
    let parent = 0x0882_8308_281f_ffff_u64;
    let mut cover = H3Covering::new(vec![parent], 8, 5, 10);
    let mut steps = 0;
    while let Some(group) = cover.current() {
        let rels: Vec<CellRelation> = group.cells.iter().map(|&c| rel(c, true, true)).collect();
        cover.advance(&rels);
        steps += 1;
        assert!(steps < 10);
    }
    // The start group has no parent, so it is refined; the group of its
    // children then lies inside and is replaced by the start cell.
    assert_eq!(steps, 2);
    assert_eq!(cover.cells(), vec![parent]);
}
