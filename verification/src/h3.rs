//! H3 cell commands: resolution arguments, children, parents and grid disks
//! of cells, and the conversions between a cell's 64-bit index and its text.
//!
//! A cell is handled as its 64-bit H3 index. The hierarchy and neighborhood
//! computations are those of the `h3ron` crate.
use crate::digits::{decimal, digits_value, hex, unsigned_digits, unsigned_text, parse_unsigned, parsed_unsigned, radix_text};
use crate::error::Error;
use h3ron::Error as H3Error;
use h3ron::Index;
use std::collections::HashSet;
use vstd::prelude::*;

verus! {

/// The error type of the `h3ron` crate.
#[verifier::external_type_specification]
#[verifier::external_body]
pub struct ExH3Error(H3Error);

/// The resolution of a cell: bits 52 to 55 of its index.
pub open spec fn spec_cell_resolution(cell: u64) -> u8 {
    ((cell >> 52u64) & 0xfu64) as u8
}

/// The index of the ancestor of a cell at resolution `p` (at most the cell's
/// own): the resolution field set to `p` and every digit below `p` set to
/// 7, the unused-digit marker.
pub open spec fn spec_parent(cell: u64, p: u8) -> u64 {
    let cr = spec_cell_resolution(cell) as u64;
    let digits: u64 = (((1u64 << (3 * (cr - p) as u64)) - 1) as u64) << (3 * (15 - cr) as u64);
    (cell & 0xff0f_ffff_ffff_ffffu64) | ((p as u64) << 52u64) | digits
}

/// The children of a cell at a finer resolution, in the order
/// `H3Cell::get_children` lists them.
pub uninterp spec fn h3_children(cell: u64, res: u8) -> Seq<u64>;

/// The cells within `k` steps of a cell, in the order `H3Cell::grid_disk`
/// lists them; none where the crate reports an error.
pub uninterp spec fn h3_grid_disk(cell: u64, k: u32) -> Option<Seq<u64>>;

/// Whether an index is a valid H3 cell (`Index::is_valid`).
pub uninterp spec fn h3_is_valid(index: u64) -> bool;

/// The cell a text denotes, as `H3Cell::from_str` reads it (a hexadecimal
/// number as C's `sscanf` reads one, which allows leading whitespace, a `0x`
/// prefix and trailing characters); none where that reading fails or gives
/// no valid cell.
pub uninterp spec fn h3_cell_text(s: Seq<char>) -> Option<u64>;

/// Calls `H3Cell::get_children` and lists the children's indexes.
/// Claimed from the crate's C source (`cellToChildrenSize`): it fails exactly
/// when the child resolution is below the cell's or above 15. The children
/// themselves are left to the name `h3_children`.
#[verifier::external_body]
fn children_of(cell: u64, res: u8) -> (r: Result<Vec<u64>, H3Error>)
    ensures
        r is Ok <==> spec_cell_resolution(cell) <= res <= 15,
        r matches Ok(v) ==> v@ == h3_children(cell, res),
{
    h3ron::H3Cell::new(cell).get_children(res).map(|v| v.iter().map(|c| c.h3index()).collect())
}

/// Calls `H3Cell::get_parent`. Claimed from the crate's C source
/// (`cellToParent`): it fails exactly when the parent resolution is above 15
/// or above the cell's, and otherwise sets the resolution field and marks the
/// digits below it unused.
#[verifier::external_body]
fn parent_of(cell: u64, p: u8) -> (r: Result<u64, H3Error>)
    ensures
        r is Ok <==> (p <= 15 && p <= spec_cell_resolution(cell)),
        r matches Ok(v) ==> v == spec_parent(cell, p),
{
    h3ron::H3Cell::new(cell).get_parent(p).map(|c| c.h3index())
}

/// Calls `H3Cell::grid_disk` and lists the indexes of the cells it returns.
#[verifier::external_body]
pub(crate) fn disk_of(cell: u64, k: u32) -> (r: Result<Vec<u64>, H3Error>)
    ensures
        r is Ok <==> h3_grid_disk(cell, k) is Some,
        r matches Ok(v) ==> v@ == h3_grid_disk(cell, k)->0,
{
    h3ron::H3Cell::new(cell).grid_disk(k).map(|v| v.iter().map(|c| c.h3index()).collect())
}

/// Calls `Index::is_valid` on the cell with the given index.
#[verifier::external_body]
fn is_valid_cell(index: u64) -> (r: bool)
    ensures
        r == h3_is_valid(index),
{
    h3ron::H3Cell::new(index).is_valid()
}

/// Calls `H3Cell::from_str` and gives the index of the cell read.
#[verifier::external_body]
fn cell_of_text(s: &str) -> (r: Result<u64, H3Error>)
    ensures
        r is Ok <==> h3_cell_text(s@) is Some,
        r matches Ok(v) ==> v == h3_cell_text(s@)->0,
{
    s.parse::<h3ron::H3Cell>().map(|c| c.h3index())
}

/// The text of an `h3ron` error (its `Display` form).
#[verifier::external_body]
fn error_text(e: &H3Error) -> String {
    e.to_string()
}

/// The resolution of a cell.
pub fn cell_resolution(cell: u64) -> (r: u8)
    ensures
        r == spec_cell_resolution(cell),
        r <= 15,
{
    assert(((cell >> 52u64) & 0xfu64) <= 15) by (bit_vector);
    ((cell >> 52u64) & 0xfu64) as u8
}

/// Two texts one after the other.
fn concat(a: &str, b: &str) -> (r: String)
    ensures
        r@ == a@ + b@,
{
    let mut out = String::from_str(a);
    out.append(b);
    out
}

/// Message for a resolution argument that is not a number.
pub const RESOLUTION_FORMAT_MSG: &'static str = "Expected valid H3 cell resolution: ";

/// Message parts for a resolution above 15.
pub const RESOLUTION_RANGE_MSG: &'static str = "Invalid H3 cell resolution: ";

/// Closing part of the message for a resolution above 15.
pub const RESOLUTION_RANGE_END: &'static str = ". Expected number from 0 to 15.";

/// Parses an H3 resolution: a number from 0 to 15.
pub fn parse_resolution(resolution_str: &str) -> (r: Result<u8, Error>)
    ensures
        parsed_unsigned(resolution_str@, 255) is None ==> (r matches Err(
            Error::InvalidNumberFormat(m),
        ) && m@ == RESOLUTION_FORMAT_MSG@ + resolution_str@),
        parsed_unsigned(resolution_str@, 255) matches Some(v) ==> (v > 15 ==> (r matches Err(
            Error::InvalidInput(m),
        ) && m@ == RESOLUTION_RANGE_MSG@ + resolution_str@ + RESOLUTION_RANGE_END@)),
        parsed_unsigned(resolution_str@, 255) matches Some(v) ==> (v <= 15 ==> r == Ok::<
            u8,
            Error,
        >(v as u8)),
{
    match parse_unsigned(resolution_str, 255) {
        None => {
            let m = concat(RESOLUTION_FORMAT_MSG, resolution_str);
            Err(Error::InvalidNumberFormat(m))
        },
        Some(v) => {
            if v > 15 {
                let mut m = concat(RESOLUTION_RANGE_MSG, resolution_str);
                m.append(RESOLUTION_RANGE_END);
                Err(Error::InvalidInput(m))
            } else {
                Ok(v as u8)
            }
        },
    }
}

/// Reads the resolution argument: missing, or a number from 0 to 15.
pub fn read_resolution(arg: Option<&str>) -> (r: Result<u8, Error>)
    ensures
        arg is None ==> r matches Err(Error::MissingArgument),
        arg matches Some(s) ==> {
            &&& (parsed_unsigned(s@, 255) is None ==> (r matches Err(Error::InvalidNumberFormat(m))
                && m@ == RESOLUTION_FORMAT_MSG@ + s@))
            &&& (parsed_unsigned(s@, 255) matches Some(v) ==> (v > 15 ==> (r matches Err(
                Error::InvalidInput(m),
            ) && m@ == RESOLUTION_RANGE_MSG@ + s@ + RESOLUTION_RANGE_END@)))
            &&& (parsed_unsigned(s@, 255) matches Some(v) ==> (v <= 15 ==> r == Ok::<
                u8,
                Error,
            >(v as u8)))
        },
{
    match arg {
        None => Err(Error::MissingArgument),
        Some(s) => parse_resolution(s),
    }
}

/// Message for a radius argument that is not a number.
pub const RADIUS_FORMAT_MSG: &'static str = "Expected integer radius, got: ";

/// Reads the optional grid-disk radius argument, a 32-bit unsigned number.
pub fn read_radius(arg: Option<&str>) -> (r: Result<Option<u32>, Error>)
    ensures
        arg is None ==> r == Ok::<Option<u32>, Error>(None),
        arg matches Some(s) ==> {
            &&& (parsed_unsigned(s@, u32::MAX as nat) is None ==> (r matches Err(
                Error::InvalidNumberFormat(m),
            ) && m@ == RADIUS_FORMAT_MSG@ + s@))
            &&& (parsed_unsigned(s@, u32::MAX as nat) matches Some(v) ==> r == Ok::<
                Option<u32>,
                Error,
            >(Some(v as u32)))
        },
{
    match arg {
        None => Ok(None),
        Some(s) => match parse_unsigned(s, 0xffff_ffff) {
            None => Err(Error::InvalidNumberFormat(concat(RADIUS_FORMAT_MSG, s))),
            Some(v) => Ok(Some(v as u32)),
        },
    }
}

/// Message for a minimum resolution above the maximum.
pub const RES_ORDER_MSG: &'static str =
    "Min resolution must be less than or equal to max resolution. Got min: ";

/// Reads the resolution range of a polyfill: minimum (default 0) and maximum
/// (default 15), each a resolution, the minimum not above the maximum.
pub fn polyfill_res(min: Option<&str>, max: Option<&str>) -> (r: Result<(u8, u8), Error>)
    ensures
        ({
            let lo = match min {
                Some(s) => parsed_unsigned(s@, 255),
                None => Some(0nat),
            };
            let hi = match max {
                Some(s) => parsed_unsigned(s@, 255),
                None => Some(15nat),
            };
            &&& (lo is None ==> r matches Err(Error::InvalidNumberFormat(_)))
            &&& (lo matches Some(a) ==> (a > 15 ==> r matches Err(Error::InvalidInput(_))))
            &&& (lo matches Some(a) ==> (a <= 15 ==> (hi is None ==> r matches Err(
                Error::InvalidNumberFormat(_),
            ))))
            &&& (lo matches Some(a) ==> (a <= 15 ==> (hi matches Some(b) ==> (b > 15 ==> r matches Err(
                Error::InvalidInput(_),
            )))))
            &&& (lo matches Some(a) ==> (a <= 15 ==> (hi matches Some(b) ==> (b <= 15 ==> (a
                > b ==> (r matches Err(Error::InvalidInput(m)) && m@ == RES_ORDER_MSG@ + radix_text(
                a,
                10,
            ) + ", max: "@ + radix_text(b, 10)))))))
            &&& (lo matches Some(a) ==> (a <= 15 ==> (hi matches Some(b) ==> (b <= 15 ==> (a
                <= b ==> r == Ok::<(u8, u8), Error>((a as u8, b as u8)))))))
        }),
{
    let min_str = match min {
        Some(s) => s,
        None => "0",
    };
    let max_str = match max {
        Some(s) => s,
        None => "15",
    };
    proof {
        reveal_strlit("0");
        reveal_strlit("15");
        assert("15"@ =~= seq!['1', '5']);
        assert(seq!['1', '5'].drop_last() =~= seq!['1']);
        assert(seq!['1'].drop_last() =~= Seq::<char>::empty());
        assert("0"@ =~= seq!['0']);
        assert(seq!['0'].drop_last() =~= Seq::<char>::empty());
        assert(unsigned_digits("0"@) =~= seq!['0']);
        assert(digits_value(Seq::<char>::empty()) == 0);
        assert(('0' as nat) == 48 && ('1' as nat) == 49 && ('5' as nat) == 53);
        assert(digits_value(seq!['0']) == 0);
        assert(unsigned_text("0"@) == Some(0nat));
        assert(parsed_unsigned("0"@, 255) == Some(0nat));
        assert(unsigned_digits("15"@) =~= seq!['1', '5']);
        assert(digits_value(seq!['1']) == 1);
        assert(digits_value(seq!['1', '5']) == 15);
        assert(unsigned_text("15"@) == Some(15nat));
        assert(parsed_unsigned("15"@, 255) == Some(15nat));
    }
    let min_parsed = match parse_resolution(min_str) {
        Ok(v) => v,
        Err(e) => return Err(e),
    };
    let max_parsed = match parse_resolution(max_str) {
        Ok(v) => v,
        Err(e) => return Err(e),
    };
    if min_parsed <= max_parsed {
        Ok((min_parsed, max_parsed))
    } else {
        let mut m = concat(RES_ORDER_MSG, decimal(min_parsed as u64).as_str());
        m.append(", max: ");
        m.append(decimal(max_parsed as u64).as_str());
        Err(Error::InvalidInput(m))
    }
}

/// The hexadecimal texts of cells, as `H3Cell::to_string` renders them.
pub open spec fn hex_texts(cells: Seq<u64>) -> Seq<Seq<char>> {
    cells.map_values(|c: u64| radix_text(c as nat, 16))
}

/// Renders cells as hexadecimal texts.
fn cell_texts(cells: &Vec<u64>) -> (r: Vec<String>)
    ensures
        r.deep_view() == hex_texts(cells@),
{
    let mut out: Vec<String> = Vec::new();
    let mut i: usize = 0;
    while i < cells.len()
        invariant
            i <= cells@.len(),
            out@.len() == i,
            forall|j: int| 0 <= j < i ==> (#[trigger] out@[j])@ == radix_text(cells@[j] as nat, 16),
        decreases cells@.len() - i,
    {
        out.push(hex(cells[i]));
        i = i + 1;
    }
    assert(out.deep_view() =~= hex_texts(cells@));
    out
}

/// Message for a child resolution not finer than the cell's.
pub const CHILD_RES_MSG: &'static str = "Resolution must be greater than provided cell resolution.";

/// Message for a cell at the finest resolution.
pub const CHILD_OF_FINEST_MSG: &'static str = "Can't get children for resolution 15 cell. Cell: ";

/// Message prefix for a failed children computation.
pub const CHILDREN_FAILED_MSG: &'static str = "Unable to compute children for H3 Cell: ";

/// The children of a cell at the given resolution (by default the next
/// finer one), as hexadecimal texts.
pub fn cell_children(cell: u64, res: Option<u8>) -> (r: Result<Vec<String>, Error>)
    ensures
        ({
            let cr = spec_cell_resolution(cell);
            let target: int = match res {
                Some(x) => x as int,
                None => cr + 1,
            };
            &&& ((res matches Some(x) && x <= cr) ==> (r matches Err(Error::InvalidInput(m)) && m@
                == CHILD_RES_MSG@))
            &&& (!(res matches Some(x) && x <= cr) && cr == 15 ==> (r matches Err(
                Error::InvalidInput(m),
            ) && m@ == CHILD_OF_FINEST_MSG@ + radix_text(cell as nat, 16)))
            &&& (!(res matches Some(x) && x <= cr) && cr < 15 && target > 15 ==> r matches Err(
                Error::InvalidInput(_),
            ))
            &&& (!(res matches Some(x) && x <= cr) && cr < 15 && target <= 15 ==> (r matches Ok(v)
                && v.deep_view() == hex_texts(h3_children(cell, target as u8))))
        }),
{
    let cell_res = cell_resolution(cell);
    if let Some(x) = res {
        if x <= cell_res {
            return Err(Error::InvalidInput(String::from_str(CHILD_RES_MSG)));
        }
    }
    if cell_res == 15 {
        return Err(Error::InvalidInput(concat(CHILD_OF_FINEST_MSG, hex(cell).as_str())));
    }
    let target: u8 = match res {
        Some(x) => x,
        None => cell_res + 1,
    };
    match children_of(cell, target) {
        Ok(cells) => Ok(cell_texts(&cells)),
        Err(e) => {
            let mut m = concat(CHILDREN_FAILED_MSG, hex(cell).as_str());
            m.append(" -- ");
            m.append(error_text(&e).as_str());
            Err(Error::InvalidInput(m))
        },
    }
}

/// Message prefix for a resolution-0 cell without a requested resolution.
pub const NO_PARENT_MSG: &'static str = "Can't get parent or ancestor for cell ";

/// Message prefix for a parent resolution not coarser than the cell's.
pub const PARENT_RES_MSG: &'static str =
    "Parent resolution must be less than or equal to cell resolution. Can't get parent at res ";

/// The ancestor of a cell at the given resolution (by default the next
/// coarser one), as a hexadecimal text.
pub fn cell_parent(cell: u64, res: Option<u8>) -> (r: Result<Vec<String>, Error>)
    ensures
        ({
            let cr = spec_cell_resolution(cell);
            &&& ((res is None && cr == 0) ==> (r matches Err(Error::InvalidInput(m)) && m@
                == NO_PARENT_MSG@ + radix_text(cell as nat, 16) + " at res "@ + radix_text(0, 10)
                + " -- Can't go below res 0."@))
            &&& (res matches Some(p) ==> (p >= cr ==> (r matches Err(Error::InvalidInput(m)) && m@
                == PARENT_RES_MSG@ + radix_text(p as nat, 10) + " for cell "@ + radix_text(
                cell as nat,
                16,
            ) + " at res "@ + radix_text(cr as nat, 10) + "."@)))
            &&& (res matches Some(p) ==> (p < cr ==> (r matches Ok(v) && v.deep_view() == seq![
                radix_text(spec_parent(cell, p) as nat, 16),
            ])))
            &&& ((res is None && cr > 0) ==> (r matches Ok(v) && v.deep_view() == seq![
                radix_text(spec_parent(cell, (cr - 1) as u8) as nat, 16),
            ]))
        }),
{
    let cell_res = cell_resolution(cell);
    if res.is_none() && cell_res == 0 {
        let mut m = concat(NO_PARENT_MSG, hex(cell).as_str());
        m.append(" at res ");
        m.append(decimal(cell_res as u64).as_str());
        m.append(" -- Can't go below res 0.");
        return Err(Error::InvalidInput(m));
    }
    let parent_res: u8 = match res {
        Some(p) => p,
        None => cell_res - 1,
    };
    if parent_res >= cell_res {
        let mut m = concat(PARENT_RES_MSG, decimal(parent_res as u64).as_str());
        m.append(" for cell ");
        m.append(hex(cell).as_str());
        m.append(" at res ");
        m.append(decimal(cell_res as u64).as_str());
        m.append(".");
        return Err(Error::InvalidInput(m));
    }
    match parent_of(cell, parent_res) {
        Ok(p) => {
            let mut v: Vec<String> = Vec::new();
            v.push(hex(p));
            assert(v.deep_view() =~= seq![radix_text(p as nat, 16)]);
            Ok(v)
        },
        Err(e) => Err(Error::ProgramError(concat("H3 error: ", error_text(&e).as_str()))),
    }
}

/// The cells within `radius` steps of a cell, as hexadecimal texts.
pub fn cell_disk(cell: u64, radius: u32) -> (r: Result<Vec<String>, Error>)
    ensures
        h3_grid_disk(cell, radius) is None ==> (r matches Err(Error::ProgramError(m)) && m@
            == "Unable to compute H3 grid disk for cell: "@ + radix_text(cell as nat, 16)
            + ", radius: "@ + radix_text(radius as nat, 10) + "."@),
        h3_grid_disk(cell, radius) matches Some(cells) ==> (r matches Ok(v) && v.deep_view()
            == hex_texts(cells)),
{
    match disk_of(cell, radius) {
        Ok(cells) => Ok(cell_texts(&cells)),
        Err(_) => {
            let mut m = concat("Unable to compute H3 grid disk for cell: ", hex(cell).as_str());
            m.append(", radius: ");
            m.append(decimal(radius as u64).as_str());
            m.append(".");
            Err(Error::ProgramError(m))
        },
    }
}

/// The cell with the given 64-bit index, if the index is a valid cell.
pub fn h3_from_int(i: u64) -> (r: Result<u64, Error>)
    ensures
        h3_is_valid(i) ==> r == Ok::<u64, Error>(i),
        !h3_is_valid(i) ==> (r matches Err(Error::InvalidInput(m)) && m@ == "Invalid H3 Index: "@
            + radix_text(i as nat, 10) + " -- Is not a valid 64-bit integer H3 cell representation."@),
{
    if is_valid_cell(i) {
        Ok(i)
    } else {
        let mut m = concat("Invalid H3 Index: ", decimal(i).as_str());
        m.append(" -- Is not a valid 64-bit integer H3 cell representation.");
        Err(Error::InvalidInput(m))
    }
}

/// Message prefix for a line that is not a 64-bit number.
pub const CELL_INT_MSG: &'static str = "Expected valid H3 integer cell index. Got: ";

/// The hexadecimal text of the cell whose 64-bit index a line holds in
/// decimal.
pub fn int_to_cell_text(line: &str) -> (r: Result<String, Error>)
    ensures
        parsed_unsigned(line@, u64::MAX as nat) is None ==> (r matches Err(Error::InvalidInput(m))
            && m@ == CELL_INT_MSG@ + line@),
        parsed_unsigned(line@, u64::MAX as nat) matches Some(i) ==> (h3_is_valid(i as u64) ==> (r matches Ok(t)
            && t@ == radix_text(i, 16))),
        parsed_unsigned(line@, u64::MAX as nat) matches Some(i) ==> (!h3_is_valid(i as u64) ==> r matches Err(
            Error::InvalidInput(_),
        )),
{
    match parse_unsigned(line, 0xffff_ffff_ffff_ffff) {
        None => Err(Error::InvalidInput(concat(CELL_INT_MSG, line))),
        Some(i) => match h3_from_int(i) {
            Ok(c) => Ok(hex(c)),
            Err(e) => Err(e),
        },
    }
}

/// Message prefix for a text that is not an H3 cell.
pub const CELL_TEXT_MSG: &'static str = "Invalid H3 cell: ";

/// Reads an H3 cell from its hexadecimal text.
pub fn cell_from_str(s: &str) -> (r: Result<u64, Error>)
    ensures
        h3_cell_text(s@) matches Some(c) ==> r == Ok::<u64, Error>(c),
        h3_cell_text(s@) is None ==> (r matches Err(Error::InvalidInput(m)) && m@ == CELL_TEXT_MSG@
            + s@),
{
    match cell_of_text(s) {
        Ok(c) => Ok(c),
        Err(_) => Err(Error::InvalidInput(concat(CELL_TEXT_MSG, s))),
    }
}

/// Law: the ancestor of a cell at resolution `p` has resolution `p`.
pub proof fn lemma_parent_resolution(cell: u64, p: u8)
    requires
        p <= spec_cell_resolution(cell),
    ensures
        spec_cell_resolution(spec_parent(cell, p)) == p,
{
    let cr = ((cell >> 52u64) & 0xfu64);
    let q = p as u64;
    assert(cr <= 15) by (bit_vector)
        requires
            cr == ((cell >> 52u64) & 0xfu64),
    ;
    let digits: u64 = (((1u64 << (3 * (cr - q)) as u64) - 1) as u64) << (3 * (15 - cr)) as u64;
    assert(digits >> 52u64 == 0) by (bit_vector)
        requires
            q <= cr,
            cr <= 15,
            digits == (((1u64 << (3 * (cr - q)) as u64) - 1) as u64) << (3 * (15 - cr)) as u64,
    ;
    assert(((((cell & 0xff0f_ffff_ffff_ffffu64) | (q << 52u64) | digits) >> 52u64) & 0xfu64) == q)
        by (bit_vector)
        requires
            q <= 15,
            digits >> 52u64 == 0,
    ;
}

/// A group of cells to examine in a top-down covering: sibling cells at one
/// resolution and the parent they refine (none for the starting group).
#[derive(Debug)]
pub struct CellGroup {
    pub cells: Vec<u64>,
    pub res: u8,
    pub parent: Option<u64>,
}

/// How a cell relates to the geometry being covered.
#[derive(Debug, Clone, Copy)]
pub struct CellRelation {
    pub cell: u64,
    pub is_contained: bool,
    pub intersects: bool,
    pub centroid_contained: bool,
}

/// A group as plain values: its cells, resolution and parent.
pub open spec fn group_view(g: CellGroup) -> (Seq<u64>, u8, Option<u64>) {
    (g.cells@, g.res, g.parent)
}

/// What examining one group decides: cells to add to the covering and
/// groups to examine next.
#[derive(Debug)]
pub struct CoveringStep {
    pub cells: Vec<u64>,
    pub groups: Vec<CellGroup>,
}

/// Every cell of the group has its center inside the geometry.
pub open spec fn all_centroids_contained(rels: Seq<CellRelation>) -> bool {
    forall|i: int| 0 <= i < rels.len() ==> (#[trigger] rels[i]).centroid_contained
}

/// The group is replaced by its parent: it is finer than the minimum
/// resolution, has a parent, and every cell's center lies in the geometry.
pub open spec fn takes_parent(res: u8, parent: Option<u64>, rels: Seq<CellRelation>, min_res: u8) -> bool {
    res > min_res && all_centroids_contained(rels) && parent is Some
}

/// At the maximum resolution, the intersecting cells whose centers lie in
/// the geometry, in order.
pub open spec fn kept_cells(rels: Seq<CellRelation>) -> Seq<u64>
    decreases rels.len(),
{
    if rels.len() == 0 {
        Seq::empty()
    } else {
        let r = rels.last();
        let rest = kept_cells(rels.drop_last());
        if r.intersects && r.centroid_contained {
            rest.push(r.cell)
        } else {
            rest
        }
    }
}

/// Below the maximum resolution, the children groups of the intersecting
/// cells (those whose children the crate can compute), in order.
pub open spec fn refined_groups(rels: Seq<CellRelation>, res: u8) -> Seq<(Seq<u64>, u8, Option<u64>)>
    decreases rels.len(),
{
    if rels.len() == 0 {
        Seq::empty()
    } else {
        let r = rels.last();
        let rest = refined_groups(rels.drop_last(), res);
        if r.intersects && spec_cell_resolution(r.cell) <= res + 1 <= 15 {
            rest.push((h3_children(r.cell, (res + 1) as u8), (res + 1) as u8, Some(r.cell)))
        } else {
            rest
        }
    }
}

/// What examining one group contributes: the cells added to the covering
/// and the groups (as plain values) to examine next.
pub open spec fn step_result(
    group: (Seq<u64>, u8, Option<u64>),
    rels: Seq<CellRelation>,
    min_res: u8,
    max_res: u8,
) -> (Seq<u64>, Seq<(Seq<u64>, u8, Option<u64>)>) {
    let (cells, res, parent) = group;
    if takes_parent(res, parent, rels, min_res) {
        (seq![parent->0], Seq::empty())
    } else if res == max_res {
        (kept_cells(rels), Seq::empty())
    } else if res < 15 {
        (Seq::empty(), refined_groups(rels, res))
    } else {
        (Seq::empty(), Seq::empty())
    }
}

/// Decides what one group of a top-down covering contributes, given how its
/// cells relate to the geometry: its parent where the whole group lies
/// inside; else, at the maximum resolution, its intersecting cells whose
/// centers are inside; else, below resolution 15, the children of its
/// intersecting cells as groups to examine next.
pub fn covering_step(
    group: &CellGroup,
    rels: &Vec<CellRelation>,
    min_res: u8,
    max_res: u8,
) -> (r: CoveringStep)
    ensures
        (r.cells@, r.groups@.map_values(|g: CellGroup| group_view(g))) == step_result(
            group_view(*group),
            rels@,
            min_res,
            max_res,
        ),
{
    let mut all = true;
    let mut i: usize = 0;
    while i < rels.len()
        invariant
            i <= rels@.len(),
            all == forall|j: int| 0 <= j < i ==> (#[trigger] rels@[j]).centroid_contained,
        decreases rels@.len() - i,
    {
        if !rels[i].centroid_contained {
            all = false;
        }
        i = i + 1;
    }
    let mut cells: Vec<u64> = Vec::new();
    let mut groups: Vec<CellGroup> = Vec::new();
    if group.res > min_res && all && group.parent.is_some() {
        match group.parent {
            Some(p) => cells.push(p),
            None => {},
        }
        assert(cells@ =~= seq![group.parent->0]);
        return CoveringStep { cells, groups };
    }
    let mut i: usize = 0;
    while i < rels.len()
        invariant
            i <= rels@.len(),
            group.res == max_res ==> cells@ == kept_cells(rels@.take(i as int)),
            group.res == max_res ==> groups@.len() == 0,
            group.res != max_res ==> cells@.len() == 0,
            group.res != max_res && group.res < 15 ==> groups@.map_values(|g: CellGroup| group_view(g))
                == refined_groups(rels@.take(i as int), group.res),
            group.res != max_res && group.res >= 15 ==> groups@.len() == 0,
        decreases rels@.len() - i,
    {
        let rel = rels[i];
        assert(rels@.take(i + 1).drop_last() =~= rels@.take(i as int));
        let ghost before = groups@;
        if rel.intersects {
            if group.res == max_res {
                if rel.centroid_contained {
                    cells.push(rel.cell);
                }
            } else if group.res < 15 {
                match children_of(rel.cell, group.res + 1) {
                    Ok(children) => {
                        groups.push(CellGroup { cells: children, res: group.res + 1, parent: Some(rel.cell) });
                    },
                    Err(_) => {},
                }
            }
        }
        assert(groups@.map_values(|g: CellGroup| group_view(g)) =~= before.map_values(|g: CellGroup| group_view(g)) + (if groups@.len() > before.len() { seq![group_view(groups@.last())] } else { Seq::empty() }));
        i = i + 1;
    }
    assert(rels@.take(i as int) =~= rels@);
    CoveringStep { cells, groups }
}

/// A top-down covering in progress: the groups still to examine, first in
/// first out, and the cells of the covering found so far. The caller
/// computes how the cells of the group `current` names relate to the
/// geometry and hands the relations to `advance`.
pub struct H3Covering {
    groups: Vec<CellGroup>,
    next: usize,
    cells: Vec<u64>,
    min_res: u8,
    max_res: u8,
}

impl H3Covering {
    /// The groups still to examine, the next one first.
    pub closed spec fn pending(&self) -> Seq<(Seq<u64>, u8, Option<u64>)> {
        self.groups@.skip(self.next as int).map_values(|g: CellGroup| group_view(g))
    }

    /// The cells of the covering found so far.
    pub closed spec fn found(&self) -> Seq<u64> {
        self.cells@
    }

    /// The coarsest resolution the covering may use.
    pub closed spec fn min_res(&self) -> u8 {
        self.min_res
    }

    /// The finest resolution the covering may use.
    pub closed spec fn max_res(&self) -> u8 {
        self.max_res
    }

    /// The covering's invariant.
    pub closed spec fn wf(&self) -> bool {
        self.next <= self.groups@.len()
    }

    /// Starts a covering from a group of cells at one resolution, with no
    /// parent.
    pub fn new(start: Vec<u64>, start_res: u8, min_res: u8, max_res: u8) -> (r: H3Covering)
        ensures
            r.wf(),
            r.pending() == seq![(start@, start_res, None::<u64>)],
            r.found() == Seq::<u64>::empty(),
            r.min_res() == min_res,
            r.max_res() == max_res,
    {
        let mut groups: Vec<CellGroup> = Vec::new();
        groups.push(CellGroup { cells: start, res: start_res, parent: None });
        let r = H3Covering { groups, next: 0, cells: Vec::new(), min_res, max_res };
        assert(r.groups@.skip(0) =~= r.groups@);
        assert(r.pending() =~= seq![group_view(r.groups@[0])]);
        r
    }

    /// The group to examine next, if any is pending.
    pub fn current(&self) -> (r: Option<&CellGroup>)
        requires
            self.wf(),
        ensures
            self.pending().len() == 0 ==> r is None,
            self.pending().len() > 0 ==> (r matches Some(g) && group_view(*g) == self.pending()[0]),
    {
        if self.next < self.groups.len() {
            Some(&self.groups[self.next])
        } else {
            None
        }
    }

    /// Examines the next group, given how each of its cells relates to the
    /// geometry: adds what `covering_step` decides.
    pub fn advance(&mut self, rels: &Vec<CellRelation>)
        requires
            old(self).wf(),
            old(self).pending().len() > 0,
        ensures
            final(self).wf(),
            final(self).min_res() == old(self).min_res(),
            final(self).max_res() == old(self).max_res(),
            ({
                let (cells, groups) = step_result(
                    old(self).pending()[0],
                    rels@,
                    old(self).min_res(),
                    old(self).max_res(),
                );
                &&& final(self).found() == old(self).found() + cells
                &&& final(self).pending() == old(self).pending().drop_first() + groups
            }),
    {
        let ghost g0 = self.groups@;
        let ghost n0 = self.next as int;
        let len = self.groups.len();
        assert(self.next < len);
        let mut step = covering_step(&self.groups[self.next], rels, self.min_res, self.max_res);
        let ghost added = step.groups@;
        self.next = self.next + 1;
        self.cells.append(&mut step.cells);
        self.groups.append(&mut step.groups);
        proof {
            let view = |g: CellGroup| group_view(g);
            assert(g0.skip(n0).map_values(view)[0] == group_view(g0[n0]));
            assert(self.groups@.skip(self.next as int) =~= g0.skip(n0).drop_first() + added);
            assert(self.groups@.skip(self.next as int).map_values(view) =~= g0.skip(n0).map_values(
                view,
            ).drop_first() + added.map_values(view));
        }
    }

    /// The cells of the covering, in the order they were found.
    pub fn cells(self) -> (r: Vec<u64>)
        ensures
            r@ == self.found(),
    {
        self.cells
    }
}

/// The cells of a disk not yet seen, each once, in the disk's order.
pub open spec fn unseen_cells(disk: Seq<u64>, seen: Set<u64>) -> Seq<u64>
    decreases disk.len(),
{
    if disk.len() == 0 {
        Seq::empty()
    } else {
        let rest = unseen_cells(disk.drop_last(), seen);
        let c = disk.last();
        if seen.contains(c) || rest.contains(c) {
            rest
        } else {
            rest.push(c)
        }
    }
}

/// The cells along a line, found breadth first from the cell of its first
/// point: a cell whose outline meets the line is kept, and the cells of its
/// disk of radius 1 not seen before are queued. The outline test is the
/// caller's; the cell first queued is not marked seen, so it can be queued
/// once more.
pub struct LineCellSearch {
    queue: Vec<u64>,
    next: usize,
    seen: HashSet<u64>,
    found: Vec<u64>,
    found_set: HashSet<u64>,
}

impl LineCellSearch {
    /// The cells queued and not yet examined, the next one first.
    pub closed spec fn pending(&self) -> Seq<u64> {
        self.queue@.skip(self.next as int)
    }

    /// The cells queued from disks so far.
    pub closed spec fn seen(&self) -> Set<u64> {
        self.seen@
    }

    /// The cells kept so far, in the order they were found.
    pub closed spec fn found(&self) -> Seq<u64> {
        self.found@
    }

    /// The search's invariant: the kept cells are distinct, and every cell
    /// queued after the first was queued once and is marked seen.
    pub closed spec fn wf(&self) -> bool {
        &&& self.next <= self.queue@.len()
        &&& self.queue@.len() >= 1
        &&& self.found_set@ == self.found@.to_set()
        &&& self.found@.no_duplicates()
        &&& self.queue@.drop_first().no_duplicates()
        &&& self.queue@.drop_first().to_set() == self.seen@
    }

    /// A search starting from the given cell.
    pub fn new(start: u64) -> (r: LineCellSearch)
        ensures
            r.wf(),
            r.pending() == seq![start],
            r.seen() == Set::<u64>::empty(),
            r.found() == Seq::<u64>::empty(),
    {
        broadcast use vstd::std_specs::hash::group_hash_axioms;

        let mut queue: Vec<u64> = Vec::new();
        queue.push(start);
        let r = LineCellSearch {
            queue,
            next: 0,
            seen: HashSet::new(),
            found: Vec::new(),
            found_set: HashSet::new(),
        };
        assert(r.queue@.skip(0) =~= seq![start]);
        assert(r.queue@.drop_first() =~= Seq::<u64>::empty());
        assert(r.queue@.drop_first().to_set() =~= Set::<u64>::empty());
        assert(r.found@.to_set() =~= Set::<u64>::empty());
        r
    }

    /// The cell to examine next, if any is queued.
    pub fn current(&self) -> (r: Option<u64>)
        requires
            self.wf(),
        ensures
            self.pending().len() == 0 ==> r is None,
            self.pending().len() > 0 ==> r == Some(self.pending()[0]),
    {
        if self.next < self.queue.len() {
            Some(self.queue[self.next])
        } else {
            None
        }
    }

    /// Examines the next cell, given whether its outline meets the line.
    pub fn advance(&mut self, intersects: bool) -> (r: Result<(), Error>)
        requires
            old(self).wf(),
            old(self).pending().len() > 0,
        ensures
            final(self).wf(),
            final(self).found().no_duplicates(),
            ({
                let c = old(self).pending()[0];
                let kept = if old(self).found().contains(c) {
                    old(self).found()
                } else {
                    old(self).found().push(c)
                };
                &&& !intersects ==> (r is Ok && final(self).pending() == old(self).pending().drop_first()
                    && final(self).seen() == old(self).seen() && final(self).found() == old(self).found())
                &&& (intersects && h3_grid_disk(c, 1) is None) ==> (r matches Err(Error::ProgramError(_)))
                &&& (intersects && h3_grid_disk(c, 1) is Some) ==> ({
                    let fresh = unseen_cells(h3_grid_disk(c, 1)->0, old(self).seen());
                    &&& r is Ok
                    &&& final(self).found() == kept
                    &&& final(self).pending() == old(self).pending().drop_first() + fresh
                    &&& final(self).seen() == old(self).seen() + fresh.to_set()
                })
            }),
    {
        broadcast use vstd::std_specs::hash::group_hash_axioms;

        let ghost q0 = self.queue@;
        let ghost seen0 = self.seen@;
        let ghost found0 = self.found@;
        let ghost n0 = self.next as int;
        let len = self.queue.len();
        assert(self.next < len);
        let c = self.queue[self.next];
        self.next = self.next + 1;
        assert(self.queue@.skip(self.next as int) =~= q0.skip(n0).drop_first());
        if !intersects {
            return Ok(());
        }
        if !self.found_set.contains(&c) {
            self.found.push(c);
            self.found_set.insert(c);
            assert forall|a: u64| self.found@.to_set().contains(a) == found0.to_set().insert(c).contains(a) by {
                vstd::seq_lib::lemma_seq_contains_after_push(found0, c, a);
            }
            assert(self.found@.to_set() =~= found0.to_set().insert(c));
            assert forall|i: int, j: int|
                0 <= i < self.found@.len() && 0 <= j < self.found@.len() && i != j implies self.found@[i]
                != self.found@[j] by {
                if i == found0.len() {
                    assert(found0.contains(self.found@[j]));
                } else if j == found0.len() {
                    assert(found0.contains(self.found@[i]));
                }
            }
        }
        assert(self.found@ == (if found0.contains(c) { found0 } else { found0.push(c) }));
        match disk_of(c, 1) {
            Err(e) => Err(Error::ProgramError(concat("H3 error: ", error_text(&e).as_str()))),
            Ok(disk) => {
                let mut i: usize = 0;
                while i < disk.len()
                    invariant
                        i <= disk@.len(),
                        q0.len() >= 1,
                        n0 < q0.len(),
                        self.next == n0 + 1,
                        q0.drop_first().no_duplicates(),
                        q0.drop_first().to_set() == seen0,
                        self.queue@ == q0 + unseen_cells(disk@.take(i as int), seen0),
                        self.seen@ == seen0 + unseen_cells(disk@.take(i as int), seen0).to_set(),
                        self.found@ == (if found0.contains(c) { found0 } else { found0.push(c) }),
                        self.found_set@ == self.found@.to_set(),
                        self.found@.no_duplicates(),
                    decreases disk@.len() - i,
                {
                    let x = disk[i];
                    let ghost before = unseen_cells(disk@.take(i as int), seen0);
                    assert(disk@.take(i + 1).drop_last() =~= disk@.take(i as int));
                    assert(disk@.take(i + 1).last() == x);
                    if !self.seen.contains(&x) {
                        self.queue.push(x);
                        self.seen.insert(x);
                        assert(self.queue@ =~= q0 + unseen_cells(disk@.take(i + 1), seen0));
                        assert(unseen_cells(disk@.take(i + 1), seen0) == before.push(x));
                        assert forall|a: u64| self.seen@.contains(a) == (seen0 + before.push(x).to_set()).contains(a) by {
                            vstd::seq_lib::lemma_seq_contains_after_push(before, x, a);
                        }
                        assert(self.seen@ =~= seen0 + unseen_cells(disk@.take(i + 1), seen0).to_set());
                    } else {
                        assert(unseen_cells(disk@.take(i + 1), seen0) == before);
                    }
                    i = i + 1;
                }
                assert(disk@.take(disk@.len() as int) =~= disk@);
                proof {
                    let fresh = unseen_cells(disk@, seen0);
                    lemma_unseen_cells(disk@, seen0);
                    assert(self.queue@.skip(self.next as int) =~= q0.skip(n0).drop_first() + fresh);
                    assert(self.queue@.drop_first() =~= q0.drop_first() + fresh);
                    assert forall|a: int, b: int|
                        0 <= a < self.queue@.drop_first().len() && 0 <= b < self.queue@.drop_first().len()
                        && a != b implies self.queue@.drop_first()[a] != self.queue@.drop_first()[b] by {
                        let d = q0.drop_first();
                        if a < d.len() && b >= d.len() {
                            assert(seen0.contains(d[a]));
                            assert(fresh.contains(self.queue@.drop_first()[b]));
                        } else if b < d.len() && a >= d.len() {
                            assert(seen0.contains(d[b]));
                            assert(fresh.contains(self.queue@.drop_first()[a]));
                        } else if a >= d.len() {
                            assert(self.queue@.drop_first()[a] == fresh[a - d.len()]);
                            assert(self.queue@.drop_first()[b] == fresh[b - d.len()]);
                        }
                    }
                    assert forall|a: u64| self.queue@.drop_first().to_set().contains(a) == (seen0
                        + fresh.to_set()).contains(a) by {
                        vstd::seq_lib::lemma_seq_concat_contains_all_elements(q0.drop_first(), fresh, a);
                        assert(q0.drop_first().to_set().contains(a) == q0.drop_first().contains(a));
                    }
                    assert(self.queue@.drop_first().to_set() =~= seen0 + fresh.to_set());
                }
                Ok(())
            },
        }
    }

    /// The cells kept, in the order they were found.
    pub fn cells(self) -> (r: Vec<u64>)
        ensures
            r@ == self.found(),
    {
        self.found
    }
}

/// Law: the cells a disk adds to a search are distinct, none of them was
/// seen before, each is in the disk, and every cell of the disk is seen
/// afterwards.
pub proof fn lemma_unseen_cells(disk: Seq<u64>, seen: Set<u64>)
    ensures
        unseen_cells(disk, seen).no_duplicates(),
        forall|x: u64| #[trigger] unseen_cells(disk, seen).contains(x) ==> !seen.contains(x) && disk.contains(x),
        forall|x: u64| disk.contains(x) ==> seen.contains(x) || #[trigger] unseen_cells(disk, seen).contains(x),
    decreases disk.len(),
{
    if disk.len() > 0 {
        let rest = unseen_cells(disk.drop_last(), seen);
        let c = disk.last();
        lemma_unseen_cells(disk.drop_last(), seen);
        assert forall|x: u64| #[trigger] unseen_cells(disk, seen).contains(x) implies !seen.contains(x)
            && disk.contains(x) by {
            if rest.contains(x) {
                let k = choose|k: int| 0 <= k < disk.drop_last().len() && disk.drop_last()[k] == x;
                assert(disk[k] == x);
            } else {
                assert(disk[disk.len() - 1] == x);
            }
        }
        assert forall|x: u64| disk.contains(x) implies seen.contains(x) || #[trigger] unseen_cells(
            disk,
            seen,
        ).contains(x) by {
            let k = choose|k: int| 0 <= k < disk.len() && disk[k] == x;
            if k < disk.len() - 1 {
                assert(disk.drop_last()[k] == x);
                assert(disk.drop_last().contains(x));
            }
            if !seen.contains(c) && !rest.contains(c) {
                assert(rest.push(c)[rest.len() as int] == c);
                if rest.contains(x) {
                    let m = choose|m: int| 0 <= m < rest.len() && rest[m] == x;
                    assert(rest.push(c)[m] == x);
                }
            }
        }
        if !seen.contains(c) && !rest.contains(c) {
            let s = rest.push(c);
            assert forall|a: int, b: int| 0 <= a < s.len() && 0 <= b < s.len() && a != b implies s[a]
                != s[b] by {
                if a == rest.len() {
                    assert(rest.contains(s[b]));
                } else if b == rest.len() {
                    assert(rest.contains(s[a]));
                }
            }
        }
    }
}

} // verus!
