//! Detection of the text format of a single input line.
//!
//! Each line is tested in turn against the patterns for a comma- or
//! tab-separated latitude/longitude pair, an H3 cell in hexadecimal, a base-32
//! geohash, GeoJSON (anything holding a `{`) and WKT; the first pattern that
//! matches decides the format.
use crate::error::Error;
use crate::pattern::{compile, is_match, regex_compiles, regex_is_match, Pattern};
use vstd::prelude::*;

verus! {

/// Latitude and longitude separated by a comma or a tab, e.g. `12,34`.
pub const LATLON_PATTERN: &'static str = r"^-?\d+\.?\d*[,\t]-?\d+\.?\d*$";

/// Base-32 geohash characters (digits and letters except a, i, l, o).
pub const GEOHASH_PATTERN: &'static str = r"(?i)^[0-9a-z--a--i--l--o]+$";

/// An H3 cell index in hexadecimal, 15 or 16 digits with an optional leading 0.
pub const H3_PATTERN: &'static str = r"(?i)^0?[0-9a-f]{15,16}$";

/// Anything holding an opening brace is taken for GeoJSON.
pub const JSON_PATTERN: &'static str = r"\{";

/// WKT geometry keywords.
pub const WKT_PATTERN: &'static str = r"(?ix)^point|linestring|polygon|multipoint|multilinestring|multipolygon";

/// A line of input tagged with the format it was detected as.
#[derive(Debug, Clone)]
pub enum Input {
    LatLon(String),
    Geohash(String),
    WKT(String),
    GeoJSON(String),
    H3(String),
}

/// The text formats an input line can be detected as.
#[derive(Debug, Clone, Copy, PartialEq, Eq)]
pub enum InputFormat {
    LatLon,
    Geohash,
    Wkt,
    GeoJson,
    H3,
}

impl Input {
    /// The format the line was detected as.
    pub open spec fn format(self) -> InputFormat {
        match self {
            Input::LatLon(_) => InputFormat::LatLon,
            Input::Geohash(_) => InputFormat::Geohash,
            Input::WKT(_) => InputFormat::Wkt,
            Input::GeoJSON(_) => InputFormat::GeoJson,
            Input::H3(_) => InputFormat::H3,
        }
    }

    /// The text of the line.
    pub open spec fn raw_view(self) -> Seq<char> {
        match self {
            Input::LatLon(s) => s@,
            Input::Geohash(s) => s@,
            Input::WKT(s) => s@,
            Input::GeoJSON(s) => s@,
            Input::H3(s) => s@,
        }
    }

    /// The text shown for an input: the format's name with the raw line in
    /// parentheses, e.g. `LatLon(12,34)`.
    pub open spec fn spec_display(self) -> Seq<char> {
        match self {
            Input::LatLon(s) => "LatLon("@ + s@ + ")"@,
            Input::Geohash(s) => "Geohash("@ + s@ + ")"@,
            Input::WKT(s) => "WKT("@ + s@ + ")"@,
            Input::GeoJSON(s) => "GeoJSON("@ + s@ + ")"@,
            Input::H3(s) => "H3Cell("@ + s@ + ")"@,
        }
    }

    /// Renders the input as its format's name with the raw line in parentheses.
    pub fn display(&self) -> (r: String)
        ensures
            r@ == self.spec_display(),
    {
        let (name, raw) = match self {
            Input::LatLon(s) => ("LatLon(", s),
            Input::Geohash(s) => ("Geohash(", s),
            Input::WKT(s) => ("WKT(", s),
            Input::GeoJSON(s) => ("GeoJSON(", s),
            Input::H3(s) => ("H3Cell(", s),
        };
        let mut out = String::from_str(name);
        out.append(raw.as_str());
        out.append(")");
        out
    }
}

/// The format a line is detected as, if any: the first of the
/// latitude/longitude, H3, geohash, GeoJSON and WKT patterns that matches.
pub open spec fn detected_format(line: Seq<char>) -> Option<InputFormat> {
    if regex_is_match(LATLON_PATTERN@, line) {
        Some(InputFormat::LatLon)
    } else if regex_is_match(H3_PATTERN@, line) {
        Some(InputFormat::H3)
    } else if regex_is_match(GEOHASH_PATTERN@, line) {
        Some(InputFormat::Geohash)
    } else if regex_is_match(JSON_PATTERN@, line) {
        Some(InputFormat::GeoJson)
    } else if regex_is_match(WKT_PATTERN@, line) {
        Some(InputFormat::Wkt)
    } else {
        None
    }
}

/// Whether the `regex` crate accepts the patterns of all input formats.
pub open spec fn patterns_compile() -> bool {
    &&& regex_compiles(LATLON_PATTERN@)
    &&& regex_compiles(GEOHASH_PATTERN@)
    &&& regex_compiles(H3_PATTERN@)
    &&& regex_compiles(JSON_PATTERN@)
    &&& regex_compiles(WKT_PATTERN@)
}

/// The compiled patterns for every input format.
pub struct InputPatterns {
    latlon: Pattern,
    geohash: Pattern,
    h3: Pattern,
    json: Pattern,
    wkt: Pattern,
}

impl InputPatterns {
    /// Each pattern is compiled from its format's pattern text.
    pub closed spec fn wf(&self) -> bool {
        &&& self.latlon@ == LATLON_PATTERN@
        &&& self.geohash@ == GEOHASH_PATTERN@
        &&& self.h3@ == H3_PATTERN@
        &&& self.json@ == JSON_PATTERN@
        &&& self.wkt@ == WKT_PATTERN@
    }

    /// Compiles the patterns of all input formats. Fails only if the `regex`
    /// crate rejects one of them.
    pub fn new() -> (r: Result<InputPatterns, Error>)
        ensures
            r is Ok <==> patterns_compile(),
            r matches Ok(p) ==> p.wf(),
            r matches Err(e) ==> (e matches Error::ProgramError(m) && m@
                == "invalid input format pattern"@),
    {
        let latlon = compile(LATLON_PATTERN);
        let geohash = compile(GEOHASH_PATTERN);
        let h3 = compile(H3_PATTERN);
        let json = compile(JSON_PATTERN);
        let wkt = compile(WKT_PATTERN);
        match (latlon, geohash, h3, json, wkt) {
            (Ok(latlon), Ok(geohash), Ok(h3), Ok(json), Ok(wkt)) => Ok(
                InputPatterns { latlon, geohash, h3, json, wkt },
            ),
            _ => Err(Error::ProgramError(String::from_str("invalid input format pattern"))),
        }
    }

    /// Whether the line looks like a latitude/longitude pair.
    pub fn matches_latlon(&self, line: &str) -> (r: bool)
        requires
            self.wf(),
        ensures
            r == regex_is_match(LATLON_PATTERN@, line@),
    {
        is_match(&self.latlon, line)
    }

    /// Whether the line looks like an H3 cell index in hexadecimal.
    pub fn matches_h3(&self, line: &str) -> (r: bool)
        requires
            self.wf(),
        ensures
            r == regex_is_match(H3_PATTERN@, line@),
    {
        is_match(&self.h3, line)
    }

    /// Whether the line looks like a base-32 geohash.
    pub fn matches_geohash(&self, line: &str) -> (r: bool)
        requires
            self.wf(),
        ensures
            r == regex_is_match(GEOHASH_PATTERN@, line@),
    {
        is_match(&self.geohash, line)
    }

    /// Whether the line looks like JSON.
    pub fn matches_json(&self, line: &str) -> (r: bool)
        requires
            self.wf(),
        ensures
            r == regex_is_match(JSON_PATTERN@, line@),
    {
        is_match(&self.json, line)
    }

    /// Whether the line looks like WKT.
    pub fn matches_wkt(&self, line: &str) -> (r: bool)
        requires
            self.wf(),
        ensures
            r == regex_is_match(WKT_PATTERN@, line@),
    {
        is_match(&self.wkt, line)
    }
}

/// The result `read_line` gives for a line: the detected format with the
/// line's text, or `UnknownEntityFormat` when no format matches.
pub open spec fn read_line_result(line: Seq<char>, r: Result<Input, Error>) -> bool {
    match detected_format(line) {
        Some(f) => r matches Ok(i) && i.format() == f && i.raw_view() == line,
        None => r matches Err(Error::UnknownEntityFormat),
    }
}

/// Law: the formats are tried in a fixed order. A lat/lon match wins over
/// everything; an H3 match over all but lat/lon; a geohash match over JSON
/// and WKT; and a line matching the JSON pattern (it holds a `{`) is GeoJSON
/// whatever the WKT pattern says, so WKT is taken only for lines the JSON
/// pattern does not match. `read_line_with` gives exactly that input.
pub proof fn lemma_format_priority(line: Seq<char>, r: Result<Input, Error>)
    requires
        read_line_result(line, r),
    ensures
        regex_is_match(LATLON_PATTERN@, line) ==> (r matches Ok(Input::LatLon(l)) && l@ == line),
        !regex_is_match(LATLON_PATTERN@, line) && regex_is_match(H3_PATTERN@, line) ==> (r matches Ok(
            Input::H3(l),
        ) && l@ == line),
        !regex_is_match(LATLON_PATTERN@, line) && !regex_is_match(H3_PATTERN@, line)
            && regex_is_match(GEOHASH_PATTERN@, line) ==> (r matches Ok(Input::Geohash(l)) && l@
            == line),
        !regex_is_match(LATLON_PATTERN@, line) && !regex_is_match(H3_PATTERN@, line)
            && !regex_is_match(GEOHASH_PATTERN@, line) && regex_is_match(JSON_PATTERN@, line) ==> (
        r matches Ok(Input::GeoJSON(l)) && l@ == line),
        r matches Ok(Input::WKT(_)) ==> !regex_is_match(JSON_PATTERN@, line) && regex_is_match(
            WKT_PATTERN@,
            line,
        ),
        r matches Err(Error::UnknownEntityFormat) ==> !regex_is_match(JSON_PATTERN@, line)
            && !regex_is_match(WKT_PATTERN@, line) && !regex_is_match(LATLON_PATTERN@, line),
{
}

/// Detects the format of one input line with already compiled patterns.
pub fn read_line_with(patterns: &InputPatterns, line: String) -> (r: Result<Input, Error>)
    requires
        patterns.wf(),
    ensures
        read_line_result(line@, r),
{
    if patterns.matches_latlon(line.as_str()) {
        Ok(Input::LatLon(line))
    } else if patterns.matches_h3(line.as_str()) {
        Ok(Input::H3(line))
    } else if patterns.matches_geohash(line.as_str()) {
        Ok(Input::Geohash(line))
    } else if patterns.matches_json(line.as_str()) {
        Ok(Input::GeoJSON(line))
    } else if patterns.matches_wkt(line.as_str()) {
        Ok(Input::WKT(line))
    } else {
        Err(Error::UnknownEntityFormat)
    }
}

/// Detects the format of one input line. Fails with `UnknownEntityFormat` when no
/// format matches, or with `ProgramError` if the patterns cannot be compiled.
pub fn read_line(line: String) -> (r: Result<Input, Error>)
    ensures
        patterns_compile() ==> read_line_result(line@, r),
        !patterns_compile() ==> (r matches Err(Error::ProgramError(m)) && m@
            == "invalid input format pattern"@),
{
    match InputPatterns::new() {
        Ok(patterns) => read_line_with(&patterns, line),
        Err(e) => Err(e),
    }
}

/// The grammar rules whose matches name an input's format; every other rule
/// of the grammar is `Other`.
#[derive(Debug, Clone, Copy, PartialEq, Eq)]
pub enum GeoqRule {
    Geohash,
    LatLon,
    Wkt,
    JsonObject,
    Other,
}

/// The input a grammar match stands for, if its rule names a format.
pub open spec fn input_of(rule: GeoqRule, raw: Seq<char>) -> Option<(InputFormat, Seq<char>)> {
    match rule {
        GeoqRule::Geohash => Some((InputFormat::Geohash, raw)),
        GeoqRule::LatLon => Some((InputFormat::LatLon, raw)),
        GeoqRule::Wkt => Some((InputFormat::Wkt, raw)),
        GeoqRule::JsonObject => Some((InputFormat::GeoJson, raw)),
        GeoqRule::Other => None,
    }
}

/// The inputs the matches stand for, in order.
pub open spec fn inputs_of(pairs: Seq<(GeoqRule, Seq<char>)>) -> Seq<(InputFormat, Seq<char>)>
    decreases pairs.len(),
{
    if pairs.len() == 0 {
        Seq::empty()
    } else {
        let rest = inputs_of(pairs.drop_last());
        match input_of(pairs.last().0, pairs.last().1) {
            Some(x) => rest.push(x),
            None => rest,
        }
    }
}

/// Grammar matches as values.
pub open spec fn pairs_view(pairs: Seq<(GeoqRule, String)>) -> Seq<(GeoqRule, Seq<char>)> {
    pairs.map_values(|p: (GeoqRule, String)| (p.0, p.1@))
}

/// Inputs as values: each one's format and text.
pub open spec fn inputs_view(inputs: Seq<Input>) -> Seq<(InputFormat, Seq<char>)> {
    inputs.map_values(|i: Input| (i.format(), i.raw_view()))
}

/// Turns the top-level matches of the input grammar, each a rule and the
/// text it matched, into inputs: geohash, lat/lon, WKT and JSON-object
/// matches in order, other matches left out.
pub fn read_inputs(pairs: &Vec<(GeoqRule, String)>) -> (r: Vec<Input>)
    ensures
        inputs_view(r@) == inputs_of(pairs_view(pairs@)),
{
    let mut out: Vec<Input> = Vec::new();
    let mut k: usize = 0;
    while k < pairs.len()
        invariant
            k <= pairs@.len(),
            inputs_view(out@) == inputs_of(pairs_view(pairs@).take(k as int)),
        decreases pairs@.len() - k,
    {
        let rule = pairs[k].0;
        let raw = pairs[k].1.clone();
        let ghost before = out@;
        match rule {
            GeoqRule::Geohash => out.push(Input::Geohash(raw)),
            GeoqRule::LatLon => out.push(Input::LatLon(raw)),
            GeoqRule::Wkt => out.push(Input::WKT(raw)),
            GeoqRule::JsonObject => out.push(Input::GeoJSON(raw)),
            GeoqRule::Other => {},
        }
        proof {
            let t = pairs_view(pairs@).take(k + 1);
            assert(t.drop_last() =~= pairs_view(pairs@).take(k as int));
            assert(t.last() == pairs_view(pairs@)[k as int]);
            assert(t.last() == (rule, raw@));
            if out@.len() > before.len() {
                assert(inputs_view(out@) =~= inputs_view(before).push(
                    (out@.last().format(), out@.last().raw_view()),
                ));
            } else {
                assert(out@ =~= before);
            }
        }
        k = k + 1;
    }
    assert(pairs_view(pairs@).take(k as int) =~= pairs_view(pairs@));
    out
}

} // verus!
