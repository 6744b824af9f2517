//! A parser for GeoJSON geometry objects: `{"type": ..., "coordinates": ...}`
//! in either key order, for the six primitive geometry types, and geometry
//! collections of primitive geometries.
//!
//! The parser reads bytes and, like a streaming parser, distinguishes input
//! that cannot be a geometry (`Fail`) from input that ends too early to tell
//! (`Incomplete`). Numbers are read by `nom`'s streaming `double`; each
//! coordinate keeps the bit pattern of the number read. Whitespace (space,
//! tab, carriage return, line feed) is skipped before every token.
use vstd::prelude::*;
use vstd::slice::slice_subrange;
use vstd::string::StringSliceAdditionalSpecFns;

verus! {

/// The outcome of a parser run from a byte position: the position after
/// what was read and the value read; or the bytes cannot start what was
/// expected; or the input ends before that can be decided.
#[derive(Debug, PartialEq)]
pub enum Parsed<T> {
    Done(usize, T),
    Fail,
    Incomplete,
}

/// The outcome of a parser in the specification, positions as naturals.
pub enum SParse<T> {
    Done(nat, T),
    Fail,
    Incomplete,
}

/// A position with its coordinates: the bit patterns of `x` and `y`.
#[derive(Debug, Clone, Copy, PartialEq, Eq)]
pub struct Coordinates(pub u64, pub u64);

/// The number `nom::number::streaming::double` reads at the start of the
/// bytes: none where it fails; `Some(None)` where the input ends before the
/// number does; else the count of bytes left after the number and the bit
/// pattern of its value.
pub uninterp spec fn double_scan(input: Seq<u8>) -> Option<Option<(nat, u64)>>;

/// Calls `nom::number::streaming::double` on the bytes and reports, on
/// success, how many bytes are left and the value's bit pattern.
/// Claimed from nom's source: on success at least one byte is left (a
/// number that reaches the end of the input is reported incomplete) and no
/// more than the input held.
#[verifier::external_body]
fn scan_double(input: &[u8]) -> (r: Parsed<u64>)
    ensures
        double_scan(input@) is None <==> r is Fail,
        double_scan(input@) == Some(None::<(nat, u64)>) <==> r is Incomplete,
        r matches Parsed::Done(rest, bits) ==> double_scan(input@) == Some(Some((rest as nat, bits))),
        r matches Parsed::Done(rest, _) ==> 1 <= rest <= input@.len(),
{
    match nom::number::streaming::double::<&[u8], (&[u8], nom::error::ErrorKind)>(input) {
        Ok((rest, value)) => Parsed::Done(rest.len(), value.to_bits()),
        Err(nom::Err::Incomplete(_)) => Parsed::Incomplete,
        Err(_) => Parsed::Fail,
    }
}

/// The whitespace skipped before tokens.
pub open spec fn is_ws(b: u8) -> bool {
    b == 0x20 || b == 0x09 || b == 0x0d || b == 0x0a
}

/// The first position at or after `i` that holds no whitespace; none if
/// the input ends first.
pub open spec fn skip_ws(s: Seq<u8>, i: nat) -> Option<nat>
    decreases s.len() - i,
{
    if i >= s.len() {
        None
    } else if is_ws(s[i as int]) {
        skip_ws(s, i + 1)
    } else {
        Some(i)
    }
}

/// The byte `c` at position `i`.
pub open spec fn char_at(s: Seq<u8>, i: nat, c: u8) -> SParse<()> {
    if i >= s.len() {
        SParse::Incomplete
    } else if s[i as int] == c {
        SParse::Done(i + 1, ())
    } else {
        SParse::Fail
    }
}

/// The byte `c` after whitespace.
pub open spec fn spaced_char(s: Seq<u8>, i: nat, c: u8) -> SParse<()> {
    match skip_ws(s, i) {
        None => SParse::Incomplete,
        Some(j) => char_at(s, j, c),
    }
}

/// The bytes `t` at position `i`: a mismatch where input and `t` overlap
/// fails; input that ends inside `t` is incomplete.
pub open spec fn tag_at(s: Seq<u8>, i: nat, t: Seq<u8>) -> SParse<()> {
    let avail: int = if i <= s.len() { s.len() - i } else { 0 };
    let m: int = if avail < t.len() { avail } else { t.len() as int };
    if s.subrange(i as int, i + m) != t.subrange(0, m) {
        SParse::Fail
    } else if avail >= t.len() {
        SParse::Done(i + t.len(), ())
    } else {
        SParse::Incomplete
    }
}

/// The bytes `t` after whitespace.
pub open spec fn spaced_tag(s: Seq<u8>, i: nat, t: Seq<u8>) -> SParse<()> {
    match skip_ws(s, i) {
        None => SParse::Incomplete,
        Some(j) => tag_at(s, j, t),
    }
}

/// A number after whitespace, as `double` reads it.
pub open spec fn spaced_number(s: Seq<u8>, i: nat) -> SParse<u64> {
    match skip_ws(s, i) {
        None => SParse::Incomplete,
        Some(j) => match double_scan(s.subrange(j as int, s.len() as int)) {
            None => SParse::Fail,
            Some(None) => SParse::Incomplete,
            Some(Some((rest, bits))) => SParse::Done((s.len() - rest) as nat, bits),
        },
    }
}

/// The outcome of an executable parser agrees with the specification's,
/// values compared through `view`.
pub open spec fn agrees<A, B>(r: Parsed<A>, p: SParse<B>, view: spec_fn(A) -> B) -> bool {
    match (r, p) {
        (Parsed::Done(j, a), SParse::Done(k, b)) => j == k && view(a) == b,
        (Parsed::Fail, SParse::Fail) => true,
        (Parsed::Incomplete, SParse::Incomplete) => true,
        _ => false,
    }
}

/// A successful parser ends between its start and the end of the input.
pub open spec fn advances<T>(r: Parsed<T>, i: nat, len: nat) -> bool {
    r matches Parsed::Done(j, _) ==> i <= j <= len
}

/// Skips whitespace from `i`.
fn ws_end(s: &[u8], i: usize) -> (r: Option<usize>)
    requires
        i <= s@.len(),
    ensures
        r is None <==> skip_ws(s@, i as nat) is None,
        r matches Some(j) ==> skip_ws(s@, i as nat) == Some(j as nat) && i <= j < s@.len(),
    decreases s@.len() - i,
{
    if i >= s.len() {
        None
    } else {
        let b = s[i];
        if b == 0x20 || b == 0x09 || b == 0x0d || b == 0x0a {
            ws_end(s, i + 1)
        } else {
            Some(i)
        }
    }
}

/// Reads the byte `c` after whitespace.
fn p_char(s: &[u8], i: usize, c: u8) -> (r: Parsed<()>)
    requires
        i <= s@.len(),
    ensures
        agrees(r, spaced_char(s@, i as nat, c), |u: ()| u),
        advances(r, i as nat, s@.len()),
{
    match ws_end(s, i) {
        None => Parsed::Incomplete,
        Some(j) => if s[j] == c {
            Parsed::Done(j + 1, ())
        } else {
            Parsed::Fail
        },
    }
}

/// Reads the bytes `t` at position `i`.
fn p_tag_raw(s: &[u8], i: usize, t: &[u8]) -> (r: Parsed<()>)
    requires
        i <= s@.len(),
    ensures
        agrees(r, tag_at(s@, i as nat, t@), |u: ()| u),
        advances(r, i as nat, s@.len()),
{
    let n = s.len();
    let avail = n - i;
    let m = if avail < t.len() {
        avail
    } else {
        t.len()
    };
    let mut k: usize = 0;
    while k < m
        invariant
            k <= m,
            m <= avail,
            m <= t@.len(),
            avail == s@.len() - i,
            n == s@.len(),
            s@.subrange(i as int, i + k) == t@.subrange(0, k as int),
        decreases m - k,
    {
        if s[i + k] != t[k] {
            assert(s@.subrange(i as int, i + m)[k as int] != t@.subrange(0, m as int)[k as int]);
            return Parsed::Fail;
        }
        assert(s@.subrange(i as int, i + k + 1) =~= s@.subrange(i as int, i + k).push(s@[i + k]));
        assert(t@.subrange(0, k + 1) =~= t@.subrange(0, k as int).push(t@[k as int]));
        k = k + 1;
    }
    if avail >= t.len() {
        Parsed::Done(i + t.len(), ())
    } else {
        Parsed::Incomplete
    }
}

/// Reads the bytes `t` after whitespace.
fn p_tag(s: &[u8], i: usize, t: &[u8]) -> (r: Parsed<()>)
    requires
        i <= s@.len(),
    ensures
        agrees(r, spaced_tag(s@, i as nat, t@), |u: ()| u),
        advances(r, i as nat, s@.len()),
{
    match ws_end(s, i) {
        None => Parsed::Incomplete,
        Some(j) => p_tag_raw(s, j, t),
    }
}

/// Reads a number after whitespace.
fn p_number(s: &[u8], i: usize) -> (r: Parsed<u64>)
    requires
        i <= s@.len(),
    ensures
        agrees(r, spaced_number(s@, i as nat), |u: u64| u),
        advances(r, i as nat, s@.len()),
{
    match ws_end(s, i) {
        None => Parsed::Incomplete,
        Some(j) => {
            let rest = slice_subrange(s, j, s.len());
            match scan_double(rest) {
                Parsed::Fail => Parsed::Fail,
                Parsed::Incomplete => Parsed::Incomplete,
                Parsed::Done(left, bits) => Parsed::Done(s.len() - left, bits),
            }
        },
    }
}

/// `[`, the start of a coordinate array.
pub const OPEN_BRACKET: u8 = 0x5b;

/// `]`, the end of a coordinate array.
pub const CLOSE_BRACKET: u8 = 0x5d;

/// `,`, between array members and object members.
pub const COMMA: u8 = 0x2c;

/// The outcome of a parser that failed or ran out of input, for a parser of
/// another value.
pub open spec fn fail_of<A, B>(p: SParse<A>) -> SParse<B> {
    match p {
        SParse::Incomplete => SParse::Incomplete,
        _ => SParse::Fail,
    }
}

/// A position: `[x, y]`.
pub open spec fn coord_pair_spec(s: Seq<u8>, i: nat) -> SParse<Coordinates> {
    match spaced_char(s, i, OPEN_BRACKET) {
        SParse::Done(i1, _) => match spaced_number(s, i1) {
            SParse::Done(i2, x) => match spaced_char(s, i2, COMMA) {
                SParse::Done(i3, _) => match spaced_number(s, i3) {
                    SParse::Done(i4, y) => match spaced_char(s, i4, CLOSE_BRACKET) {
                        SParse::Done(i5, _) => SParse::Done(i5, Coordinates(x, y)),
                        p => fail_of(p),
                    },
                    p => fail_of(p),
                },
                p => fail_of(p),
            },
            p => fail_of(p),
        },
        p => fail_of(p),
    }
}

/// The rest of a comma-separated list after the members in `acc`, which
/// end at `i`: a comma and a member continue it; where either is missing
/// the list ends at `i`. A step that reads nothing fails.
pub open spec fn list_from<T>(s: Seq<u8>, i: nat, elem: spec_fn(nat) -> SParse<T>, acc: Seq<T>) -> SParse<Seq<T>>
    decreases s.len() - i,
{
    match spaced_char(s, i, COMMA) {
        SParse::Fail => SParse::Done(i, acc),
        SParse::Incomplete => SParse::Incomplete,
        SParse::Done(i1, _) => if i1 == i {
            SParse::Fail
        } else {
            match elem(i1) {
                SParse::Fail => SParse::Done(i, acc),
                SParse::Incomplete => SParse::Incomplete,
                SParse::Done(i2, o) => if i2 == i || i2 < i || i2 > s.len() {
                    SParse::Fail
                } else {
                    list_from(s, i2, elem, acc.push(o))
                },
            }
        },
    }
}

/// A comma-separated list of members, possibly empty.
pub open spec fn sep_list<T>(s: Seq<u8>, i: nat, elem: spec_fn(nat) -> SParse<T>) -> SParse<Seq<T>> {
    match elem(i) {
        SParse::Fail => SParse::Done(i, Seq::empty()),
        SParse::Incomplete => SParse::Incomplete,
        SParse::Done(i1, o) => if i1 == i || i1 < i || i1 > s.len() {
            SParse::Fail
        } else {
            list_from(s, i1, elem, seq![o])
        },
    }
}

/// A list in brackets.
pub open spec fn bracketed<T>(s: Seq<u8>, i: nat, elem: spec_fn(nat) -> SParse<T>) -> SParse<Seq<T>> {
    match spaced_char(s, i, OPEN_BRACKET) {
        SParse::Done(i1, _) => match sep_list(s, i1, elem) {
            SParse::Done(i2, v) => match spaced_char(s, i2, CLOSE_BRACKET) {
                SParse::Done(i3, _) => SParse::Done(i3, v),
                p => fail_of(p),
            },
            p => fail_of(p),
        },
        p => fail_of(p),
    }
}

/// Positions as list members.
pub open spec fn pair_elem(s: Seq<u8>) -> spec_fn(nat) -> SParse<Coordinates> {
    |k: nat| coord_pair_spec(s, k)
}

/// An array of positions.
pub open spec fn coord_seq_spec(s: Seq<u8>, i: nat) -> SParse<Seq<Coordinates>> {
    bracketed(s, i, pair_elem(s))
}

/// Arrays of positions as list members.
pub open spec fn seq_elem(s: Seq<u8>) -> spec_fn(nat) -> SParse<Seq<Coordinates>> {
    |k: nat| coord_seq_spec(s, k)
}

/// An array of arrays of positions.
pub open spec fn coord_seq_seq_spec(s: Seq<u8>, i: nat) -> SParse<Seq<Seq<Coordinates>>> {
    bracketed(s, i, seq_elem(s))
}

/// Arrays of arrays of positions as list members.
pub open spec fn seq_seq_elem(s: Seq<u8>) -> spec_fn(nat) -> SParse<Seq<Seq<Coordinates>>> {
    |k: nat| coord_seq_seq_spec(s, k)
}

/// An array of arrays of arrays of positions.
pub open spec fn coord_seq_seq_seq_spec(s: Seq<u8>, i: nat) -> SParse<Seq<Seq<Seq<Coordinates>>>> {
    bracketed(s, i, seq_seq_elem(s))
}

/// Reads a position at `i`.
fn pair_at(s: &[u8], i: usize) -> (r: Parsed<Coordinates>)
    requires
        i <= s@.len(),
    ensures
        agrees(r, coord_pair_spec(s@, i as nat), |c: Coordinates| c),
        advances(r, i as nat, s@.len()),
{
    let i1 = match p_char(s, i, OPEN_BRACKET) {
        Parsed::Done(k, _) => k,
        Parsed::Fail => return Parsed::Fail,
        Parsed::Incomplete => return Parsed::Incomplete,
    };
    let (i2, x) = match p_number(s, i1) {
        Parsed::Done(k, v) => (k, v),
        Parsed::Fail => return Parsed::Fail,
        Parsed::Incomplete => return Parsed::Incomplete,
    };
    let i3 = match p_char(s, i2, COMMA) {
        Parsed::Done(k, _) => k,
        Parsed::Fail => return Parsed::Fail,
        Parsed::Incomplete => return Parsed::Incomplete,
    };
    let (i4, y) = match p_number(s, i3) {
        Parsed::Done(k, v) => (k, v),
        Parsed::Fail => return Parsed::Fail,
        Parsed::Incomplete => return Parsed::Incomplete,
    };
    match p_char(s, i4, CLOSE_BRACKET) {
        Parsed::Done(k, _) => Parsed::Done(k, Coordinates(x, y)),
        Parsed::Fail => Parsed::Fail,
        Parsed::Incomplete => Parsed::Incomplete,
    }
}

/// The positions of a list, as values.
pub open spec fn view1(v: Vec<Coordinates>) -> Seq<Coordinates> {
    v@
}

/// The arrays of positions of a list, as values.
pub open spec fn view2(v: Vec<Vec<Coordinates>>) -> Seq<Seq<Coordinates>> {
    v@.map_values(|w: Vec<Coordinates>| w@)
}

/// The arrays of arrays of positions of a list, as values.
pub open spec fn view3(v: Vec<Vec<Vec<Coordinates>>>) -> Seq<Seq<Seq<Coordinates>>> {
    v@.map_values(|w: Vec<Vec<Coordinates>>| view2(w))
}

/// Reads a comma-separated list at `i`, members as `pair_at` reads them.
fn pair_list(s: &[u8], i: usize) -> (r: Parsed<Vec<Coordinates>>)
    requires
        i <= s@.len(),
    ensures
        agrees(r, sep_list(s@, i as nat, pair_elem(s@)), |v: Vec<Coordinates>| view1(v)),
        advances(r, i as nat, s@.len()),
{
    let mut res: Vec<Coordinates> = Vec::new();
    let mut pos = match pair_at(s, i) {
        Parsed::Fail => {
            assert(view1(res) =~= Seq::empty());
            return Parsed::Done(i, res);
        },
        Parsed::Incomplete => return Parsed::Incomplete,
        Parsed::Done(j, o) => {
            if j == i {
                return Parsed::Fail;
            }
            let ghost ov = o;
            res.push(o);
            assert(view1(res) =~= seq![ov]);
            j
        },
    };
    loop
        invariant
            i < pos <= s@.len(),
            list_from(s@, pos as nat, pair_elem(s@), view1(res)) == sep_list(s@, i as nat, pair_elem(s@)),
        ensures
            i < pos <= s@.len(),
            sep_list(s@, i as nat, pair_elem(s@)) == SParse::Done(pos as nat, view1(res)),
        decreases s@.len() - pos,
    {
        let k = match p_char(s, pos, COMMA) {
            Parsed::Fail => break,
            Parsed::Incomplete => return Parsed::Incomplete,
            Parsed::Done(k, _) => k,
        };
        if k == pos {
            return Parsed::Fail;
        }
        match pair_at(s, k) {
            Parsed::Fail => break,
            Parsed::Incomplete => return Parsed::Incomplete,
            Parsed::Done(k2, o) => {
                if k2 == pos {
                    return Parsed::Fail;
                }
                let ghost before = view1(res);
                let ghost ov = o;
                res.push(o);
                assert(view1(res) =~= before.push(ov));
                pos = k2;
            },
        }
    }
    Parsed::Done(pos, res)
}

/// Reads an array of positions at `i`.
fn seq1_at(s: &[u8], i: usize) -> (r: Parsed<Vec<Coordinates>>)
    requires
        i <= s@.len(),
    ensures
        agrees(r, coord_seq_spec(s@, i as nat), |v: Vec<Coordinates>| view1(v)),
        advances(r, i as nat, s@.len()),
{
    let i1 = match p_char(s, i, OPEN_BRACKET) {
        Parsed::Done(k, _) => k,
        Parsed::Fail => return Parsed::Fail,
        Parsed::Incomplete => return Parsed::Incomplete,
    };
    let (i2, v) = match pair_list(s, i1) {
        Parsed::Done(k, v) => (k, v),
        Parsed::Fail => return Parsed::Fail,
        Parsed::Incomplete => return Parsed::Incomplete,
    };
    match p_char(s, i2, CLOSE_BRACKET) {
        Parsed::Done(k, _) => Parsed::Done(k, v),
        Parsed::Fail => Parsed::Fail,
        Parsed::Incomplete => Parsed::Incomplete,
    }
}

/// Reads a comma-separated list at `i`, members as `seq1_at` reads them.
fn seq_list(s: &[u8], i: usize) -> (r: Parsed<Vec<Vec<Coordinates>>>)
    requires
        i <= s@.len(),
    ensures
        agrees(r, sep_list(s@, i as nat, seq_elem(s@)), |v: Vec<Vec<Coordinates>>| view2(v)),
        advances(r, i as nat, s@.len()),
{
    let mut res: Vec<Vec<Coordinates>> = Vec::new();
    let mut pos = match seq1_at(s, i) {
        Parsed::Fail => {
            assert(view2(res) =~= Seq::empty());
            return Parsed::Done(i, res);
        },
        Parsed::Incomplete => return Parsed::Incomplete,
        Parsed::Done(j, o) => {
            if j == i {
                return Parsed::Fail;
            }
            let ghost ov = view1(o);
            res.push(o);
            assert(view2(res) =~= seq![ov]);
            j
        },
    };
    loop
        invariant
            i < pos <= s@.len(),
            list_from(s@, pos as nat, seq_elem(s@), view2(res)) == sep_list(s@, i as nat, seq_elem(s@)),
        ensures
            i < pos <= s@.len(),
            sep_list(s@, i as nat, seq_elem(s@)) == SParse::Done(pos as nat, view2(res)),
        decreases s@.len() - pos,
    {
        let k = match p_char(s, pos, COMMA) {
            Parsed::Fail => break,
            Parsed::Incomplete => return Parsed::Incomplete,
            Parsed::Done(k, _) => k,
        };
        if k == pos {
            return Parsed::Fail;
        }
        match seq1_at(s, k) {
            Parsed::Fail => break,
            Parsed::Incomplete => return Parsed::Incomplete,
            Parsed::Done(k2, o) => {
                if k2 == pos {
                    return Parsed::Fail;
                }
                let ghost before = view2(res);
                let ghost ov = view1(o);
                res.push(o);
                assert(view2(res) =~= before.push(ov));
                pos = k2;
            },
        }
    }
    Parsed::Done(pos, res)
}

/// Reads an array of arrays of positions at `i`.
fn seq2_at(s: &[u8], i: usize) -> (r: Parsed<Vec<Vec<Coordinates>>>)
    requires
        i <= s@.len(),
    ensures
        agrees(r, coord_seq_seq_spec(s@, i as nat), |v: Vec<Vec<Coordinates>>| view2(v)),
        advances(r, i as nat, s@.len()),
{
    let i1 = match p_char(s, i, OPEN_BRACKET) {
        Parsed::Done(k, _) => k,
        Parsed::Fail => return Parsed::Fail,
        Parsed::Incomplete => return Parsed::Incomplete,
    };
    let (i2, v) = match seq_list(s, i1) {
        Parsed::Done(k, v) => (k, v),
        Parsed::Fail => return Parsed::Fail,
        Parsed::Incomplete => return Parsed::Incomplete,
    };
    match p_char(s, i2, CLOSE_BRACKET) {
        Parsed::Done(k, _) => Parsed::Done(k, v),
        Parsed::Fail => Parsed::Fail,
        Parsed::Incomplete => Parsed::Incomplete,
    }
}

/// Reads a comma-separated list at `i`, members as `seq2_at` reads them.
fn seq_seq_list(s: &[u8], i: usize) -> (r: Parsed<Vec<Vec<Vec<Coordinates>>>>)
    requires
        i <= s@.len(),
    ensures
        agrees(r, sep_list(s@, i as nat, seq_seq_elem(s@)), |v: Vec<Vec<Vec<Coordinates>>>| view3(v)),
        advances(r, i as nat, s@.len()),
{
    let mut res: Vec<Vec<Vec<Coordinates>>> = Vec::new();
    let mut pos = match seq2_at(s, i) {
        Parsed::Fail => {
            assert(view3(res) =~= Seq::empty());
            return Parsed::Done(i, res);
        },
        Parsed::Incomplete => return Parsed::Incomplete,
        Parsed::Done(j, o) => {
            if j == i {
                return Parsed::Fail;
            }
            let ghost ov = view2(o);
            res.push(o);
            assert(view3(res) =~= seq![ov]);
            j
        },
    };
    loop
        invariant
            i < pos <= s@.len(),
            list_from(s@, pos as nat, seq_seq_elem(s@), view3(res)) == sep_list(s@, i as nat, seq_seq_elem(s@)),
        ensures
            i < pos <= s@.len(),
            sep_list(s@, i as nat, seq_seq_elem(s@)) == SParse::Done(pos as nat, view3(res)),
        decreases s@.len() - pos,
    {
        let k = match p_char(s, pos, COMMA) {
            Parsed::Fail => break,
            Parsed::Incomplete => return Parsed::Incomplete,
            Parsed::Done(k, _) => k,
        };
        if k == pos {
            return Parsed::Fail;
        }
        match seq2_at(s, k) {
            Parsed::Fail => break,
            Parsed::Incomplete => return Parsed::Incomplete,
            Parsed::Done(k2, o) => {
                if k2 == pos {
                    return Parsed::Fail;
                }
                let ghost before = view3(res);
                let ghost ov = view2(o);
                res.push(o);
                assert(view3(res) =~= before.push(ov));
                pos = k2;
            },
        }
    }
    Parsed::Done(pos, res)
}

/// Reads an array of arrays of arrays of positions at `i`.
fn seq3_at(s: &[u8], i: usize) -> (r: Parsed<Vec<Vec<Vec<Coordinates>>>>)
    requires
        i <= s@.len(),
    ensures
        agrees(r, coord_seq_seq_seq_spec(s@, i as nat), |v: Vec<Vec<Vec<Coordinates>>>| view3(v)),
        advances(r, i as nat, s@.len()),
{
    let i1 = match p_char(s, i, OPEN_BRACKET) {
        Parsed::Done(k, _) => k,
        Parsed::Fail => return Parsed::Fail,
        Parsed::Incomplete => return Parsed::Incomplete,
    };
    let (i2, v) = match seq_seq_list(s, i1) {
        Parsed::Done(k, v) => (k, v),
        Parsed::Fail => return Parsed::Fail,
        Parsed::Incomplete => return Parsed::Incomplete,
    };
    match p_char(s, i2, CLOSE_BRACKET) {
        Parsed::Done(k, _) => Parsed::Done(k, v),
        Parsed::Fail => Parsed::Fail,
        Parsed::Incomplete => Parsed::Incomplete,
    }
}

/// `{`, the start of a geometry object.
pub const OPEN_BRACE: u8 = 0x7b;

/// `}`, the end of a geometry object.
pub const CLOSE_BRACE: u8 = 0x7d;

/// `:`, between a member's key and its value.
pub const COLON: u8 = 0x3a;

/// `"`, around the geometry type's name.
pub const QUOTE: u8 = 0x22;

/// The key of the geometry type member, with its quotes.
pub const TYPE_KEY: &'static str = "\"type\"";

/// The separator after the type key, read as a tag.
pub const COLON_TAG: &'static str = ":";

/// The key of the coordinates member, with its quotes.
pub const COORDINATES_KEY: &'static str = "\"coordinates\"";

/// The key of a collection's geometries member, with its quotes.
pub const GEOMETRIES_KEY: &'static str = "\"geometries\"";

/// The type name of a geometry collection.
pub const COLLECTION_NAME: &'static str = "GeometryCollection";

/// The six primitive geometry types, in the order they are tried.
#[derive(Debug, Clone, Copy, PartialEq, Eq)]
pub enum GeomType {
    Point,
    MultiPoint,
    LineString,
    MultiLineString,
    Polygon,
    MultiPolygon,
}

/// The type's name as it stands in the `type` member.
pub open spec fn geom_type_name(t: GeomType) -> &'static str {
    match t {
        GeomType::Point => "Point",
        GeomType::MultiPoint => "MultiPoint",
        GeomType::LineString => "LineString",
        GeomType::MultiLineString => "MultiLineString",
        GeomType::Polygon => "Polygon",
        GeomType::MultiPolygon => "MultiPolygon",
    }
}

/// How deeply a coordinates member nests positions.
#[derive(Debug, Clone, Copy, PartialEq, Eq)]
pub enum CoordKind {
    Position,
    Positions,
    Rings,
    Polygons,
}

/// The coordinates member each type has.
pub open spec fn kind_of(t: GeomType) -> CoordKind {
    match t {
        GeomType::Point => CoordKind::Position,
        GeomType::MultiPoint => CoordKind::Positions,
        GeomType::LineString => CoordKind::Positions,
        GeomType::MultiLineString => CoordKind::Rings,
        GeomType::Polygon => CoordKind::Rings,
        GeomType::MultiPolygon => CoordKind::Polygons,
    }
}

/// A coordinates member as read.
#[derive(Debug, PartialEq)]
pub enum Coords {
    Position(Coordinates),
    Positions(Vec<Coordinates>),
    Rings(Vec<Vec<Coordinates>>),
    Polygons(Vec<Vec<Vec<Coordinates>>>),
}

/// A coordinates member as values.
pub enum CoordsView {
    Position(Coordinates),
    Positions(Seq<Coordinates>),
    Rings(Seq<Seq<Coordinates>>),
    Polygons(Seq<Seq<Seq<Coordinates>>>),
}

/// The values of a coordinates member.
pub open spec fn coords_view(c: Coords) -> CoordsView {
    match c {
        Coords::Position(p) => CoordsView::Position(p),
        Coords::Positions(v) => CoordsView::Positions(view1(v)),
        Coords::Rings(v) => CoordsView::Rings(view2(v)),
        Coords::Polygons(v) => CoordsView::Polygons(view3(v)),
    }
}

/// A coordinates member of the given nesting.
pub open spec fn coords_spec(s: Seq<u8>, i: nat, kind: CoordKind) -> SParse<CoordsView> {
    match kind {
        CoordKind::Position => match coord_pair_spec(s, i) {
            SParse::Done(j, c) => SParse::Done(j, CoordsView::Position(c)),
            p => fail_of(p),
        },
        CoordKind::Positions => match coord_seq_spec(s, i) {
            SParse::Done(j, c) => SParse::Done(j, CoordsView::Positions(c)),
            p => fail_of(p),
        },
        CoordKind::Rings => match coord_seq_seq_spec(s, i) {
            SParse::Done(j, c) => SParse::Done(j, CoordsView::Rings(c)),
            p => fail_of(p),
        },
        CoordKind::Polygons => match coord_seq_seq_seq_spec(s, i) {
            SParse::Done(j, c) => SParse::Done(j, CoordsView::Polygons(c)),
            p => fail_of(p),
        },
    }
}

/// The type member: `"type"`, a colon, and the name in quotes (no space
/// inside the quotes).
pub open spec fn type_spec(s: Seq<u8>, i: nat, name: Seq<u8>) -> SParse<()> {
    match spaced_tag(s, i, TYPE_KEY.spec_bytes()) {
        SParse::Done(i1, _) => match spaced_tag(s, i1, COLON_TAG.spec_bytes()) {
            SParse::Done(i2, _) => match skip_ws(s, i2) {
                None => SParse::Incomplete,
                Some(j) => match char_at(s, j, QUOTE) {
                    SParse::Done(j1, _) => match tag_at(s, j1, name) {
                        SParse::Done(j2, _) => char_at(s, j2, QUOTE),
                        p => fail_of(p),
                    },
                    p => fail_of(p),
                },
            },
            p => fail_of(p),
        },
        p => fail_of(p),
    }
}

/// The coordinates member: its key, a colon and the coordinates.
pub open spec fn coords_member(s: Seq<u8>, i: nat, kind: CoordKind) -> SParse<CoordsView> {
    match spaced_tag(s, i, COORDINATES_KEY.spec_bytes()) {
        SParse::Done(i1, _) => match spaced_char(s, i1, COLON) {
            SParse::Done(i2, _) => coords_spec(s, i2, kind),
            p => fail_of(p),
        },
        p => fail_of(p),
    }
}

/// The two members with the type first.
pub open spec fn type_first(s: Seq<u8>, i: nat, name: Seq<u8>, kind: CoordKind) -> SParse<CoordsView> {
    match type_spec(s, i, name) {
        SParse::Done(i1, _) => match spaced_char(s, i1, COMMA) {
            SParse::Done(i2, _) => coords_member(s, i2, kind),
            p => fail_of(p),
        },
        p => fail_of(p),
    }
}

/// The two members with the coordinates first.
pub open spec fn coords_first(s: Seq<u8>, i: nat, name: Seq<u8>, kind: CoordKind) -> SParse<CoordsView> {
    match coords_member(s, i, kind) {
        SParse::Done(i1, c) => match spaced_char(s, i1, COMMA) {
            SParse::Done(i2, _) => match type_spec(s, i2, name) {
                SParse::Done(i3, _) => SParse::Done(i3, c),
                p => fail_of(p),
            },
            p => fail_of(p),
        },
        p => fail_of(p),
    }
}

/// The first outcome unless it fails, else the second.
pub open spec fn or_else<T>(p: SParse<T>, q: SParse<T>) -> SParse<T> {
    match p {
        SParse::Fail => q,
        _ => p,
    }
}

/// A geometry object of the named type: braces around its two members,
/// in either order.
pub open spec fn geometry_spec(s: Seq<u8>, i: nat, name: Seq<u8>, kind: CoordKind) -> SParse<CoordsView> {
    match spaced_char(s, i, OPEN_BRACE) {
        SParse::Done(i1, _) => match or_else(type_first(s, i1, name, kind), coords_first(s, i1, name, kind)) {
            SParse::Done(i2, c) => match spaced_char(s, i2, CLOSE_BRACE) {
                SParse::Done(i3, _) => SParse::Done(i3, c),
                p => fail_of(p),
            },
            p => fail_of(p),
        },
        p => fail_of(p),
    }
}

/// Reads the type member.
fn p_type(s: &[u8], i: usize, name: &[u8]) -> (r: Parsed<()>)
    requires
        i <= s@.len(),
    ensures
        agrees(r, type_spec(s@, i as nat, name@), |u: ()| u),
        advances(r, i as nat, s@.len()),
{
    let i1 = match p_tag(s, i, TYPE_KEY.as_bytes()) {
        Parsed::Done(k, _) => k,
        Parsed::Fail => return Parsed::Fail,
        Parsed::Incomplete => return Parsed::Incomplete,
    };
    let i2 = match p_tag(s, i1, COLON_TAG.as_bytes()) {
        Parsed::Done(k, _) => k,
        Parsed::Fail => return Parsed::Fail,
        Parsed::Incomplete => return Parsed::Incomplete,
    };
    let j = match ws_end(s, i2) {
        Some(j) => j,
        None => return Parsed::Incomplete,
    };
    if s[j] != QUOTE {
        return Parsed::Fail;
    }
    let j2 = match p_tag_raw(s, j + 1, name) {
        Parsed::Done(k, _) => k,
        Parsed::Fail => return Parsed::Fail,
        Parsed::Incomplete => return Parsed::Incomplete,
    };
    if j2 >= s.len() {
        Parsed::Incomplete
    } else if s[j2] == QUOTE {
        Parsed::Done(j2 + 1, ())
    } else {
        Parsed::Fail
    }
}

/// Reads a coordinates member of the given nesting.
fn p_coords(s: &[u8], i: usize, kind: CoordKind) -> (r: Parsed<Coords>)
    requires
        i <= s@.len(),
    ensures
        agrees(r, coords_spec(s@, i as nat, kind), |c: Coords| coords_view(c)),
        advances(r, i as nat, s@.len()),
{
    match kind {
        CoordKind::Position => match pair_at(s, i) {
            Parsed::Done(j, c) => Parsed::Done(j, Coords::Position(c)),
            Parsed::Fail => Parsed::Fail,
            Parsed::Incomplete => Parsed::Incomplete,
        },
        CoordKind::Positions => match seq1_at(s, i) {
            Parsed::Done(j, c) => Parsed::Done(j, Coords::Positions(c)),
            Parsed::Fail => Parsed::Fail,
            Parsed::Incomplete => Parsed::Incomplete,
        },
        CoordKind::Rings => match seq2_at(s, i) {
            Parsed::Done(j, c) => Parsed::Done(j, Coords::Rings(c)),
            Parsed::Fail => Parsed::Fail,
            Parsed::Incomplete => Parsed::Incomplete,
        },
        CoordKind::Polygons => match seq3_at(s, i) {
            Parsed::Done(j, c) => Parsed::Done(j, Coords::Polygons(c)),
            Parsed::Fail => Parsed::Fail,
            Parsed::Incomplete => Parsed::Incomplete,
        },
    }
}

/// Reads the coordinates member.
fn p_coords_member(s: &[u8], i: usize, kind: CoordKind) -> (r: Parsed<Coords>)
    requires
        i <= s@.len(),
    ensures
        agrees(r, coords_member(s@, i as nat, kind), |c: Coords| coords_view(c)),
        advances(r, i as nat, s@.len()),
{
    let i1 = match p_tag(s, i, COORDINATES_KEY.as_bytes()) {
        Parsed::Done(k, _) => k,
        Parsed::Fail => return Parsed::Fail,
        Parsed::Incomplete => return Parsed::Incomplete,
    };
    let i2 = match p_char(s, i1, COLON) {
        Parsed::Done(k, _) => k,
        Parsed::Fail => return Parsed::Fail,
        Parsed::Incomplete => return Parsed::Incomplete,
    };
    p_coords(s, i2, kind)
}

/// Reads the two members with the type first.
fn p_type_first(s: &[u8], i: usize, name: &[u8], kind: CoordKind) -> (r: Parsed<Coords>)
    requires
        i <= s@.len(),
    ensures
        agrees(r, type_first(s@, i as nat, name@, kind), |c: Coords| coords_view(c)),
        advances(r, i as nat, s@.len()),
{
    let i1 = match p_type(s, i, name) {
        Parsed::Done(k, _) => k,
        Parsed::Fail => return Parsed::Fail,
        Parsed::Incomplete => return Parsed::Incomplete,
    };
    let i2 = match p_char(s, i1, COMMA) {
        Parsed::Done(k, _) => k,
        Parsed::Fail => return Parsed::Fail,
        Parsed::Incomplete => return Parsed::Incomplete,
    };
    p_coords_member(s, i2, kind)
}

/// Reads the two members with the coordinates first.
fn p_coords_first(s: &[u8], i: usize, name: &[u8], kind: CoordKind) -> (r: Parsed<Coords>)
    requires
        i <= s@.len(),
    ensures
        agrees(r, coords_first(s@, i as nat, name@, kind), |c: Coords| coords_view(c)),
        advances(r, i as nat, s@.len()),
{
    let (i1, c) = match p_coords_member(s, i, kind) {
        Parsed::Done(k, c) => (k, c),
        Parsed::Fail => return Parsed::Fail,
        Parsed::Incomplete => return Parsed::Incomplete,
    };
    let i2 = match p_char(s, i1, COMMA) {
        Parsed::Done(k, _) => k,
        Parsed::Fail => return Parsed::Fail,
        Parsed::Incomplete => return Parsed::Incomplete,
    };
    match p_type(s, i2, name) {
        Parsed::Done(k, _) => Parsed::Done(k, c),
        Parsed::Fail => Parsed::Fail,
        Parsed::Incomplete => Parsed::Incomplete,
    }
}

/// Reads a geometry object of the named type.
fn p_geometry(s: &[u8], i: usize, name: &[u8], kind: CoordKind) -> (r: Parsed<Coords>)
    requires
        i <= s@.len(),
    ensures
        agrees(r, geometry_spec(s@, i as nat, name@, kind), |c: Coords| coords_view(c)),
        advances(r, i as nat, s@.len()),
{
    let i1 = match p_char(s, i, OPEN_BRACE) {
        Parsed::Done(k, _) => k,
        Parsed::Fail => return Parsed::Fail,
        Parsed::Incomplete => return Parsed::Incomplete,
    };
    let body = match p_type_first(s, i1, name, kind) {
        Parsed::Fail => p_coords_first(s, i1, name, kind),
        other => other,
    };
    let (i2, c) = match body {
        Parsed::Done(k, c) => (k, c),
        Parsed::Fail => return Parsed::Fail,
        Parsed::Incomplete => return Parsed::Incomplete,
    };
    match p_char(s, i2, CLOSE_BRACE) {
        Parsed::Done(k, _) => Parsed::Done(k, c),
        Parsed::Fail => Parsed::Fail,
        Parsed::Incomplete => Parsed::Incomplete,
    }
}

/// A geometry as read.
#[derive(Debug, PartialEq)]
pub enum Geometry {
    Point(Coordinates),
    MultiPoint(Vec<Coordinates>),
    LineString(Vec<Coordinates>),
    MultiLineString(Vec<Vec<Coordinates>>),
    Polygon(Vec<Vec<Coordinates>>),
    MultiPolygon(Vec<Vec<Vec<Coordinates>>>),
    GeometryCollection(Vec<Geometry>),
}

/// A geometry as values.
pub enum GeomView {
    Point(Coordinates),
    MultiPoint(Seq<Coordinates>),
    LineString(Seq<Coordinates>),
    MultiLineString(Seq<Seq<Coordinates>>),
    Polygon(Seq<Seq<Coordinates>>),
    MultiPolygon(Seq<Seq<Seq<Coordinates>>>),
    Collection(Seq<GeomView>),
}

/// The values of a primitive geometry; a collection shows as an empty one.
pub open spec fn prim_view(g: Geometry) -> GeomView {
    match g {
        Geometry::Point(c) => GeomView::Point(c),
        Geometry::MultiPoint(v) => GeomView::MultiPoint(view1(v)),
        Geometry::LineString(v) => GeomView::LineString(view1(v)),
        Geometry::MultiLineString(v) => GeomView::MultiLineString(view2(v)),
        Geometry::Polygon(v) => GeomView::Polygon(view2(v)),
        Geometry::MultiPolygon(v) => GeomView::MultiPolygon(view3(v)),
        Geometry::GeometryCollection(_) => GeomView::Collection(Seq::empty()),
    }
}

/// The values of a geometry; the members of a collection are taken as
/// primitive geometries (a member that is itself a collection, which the
/// parser never reads, shows as an empty one).
pub open spec fn geom_view(g: Geometry) -> GeomView {
    match g {
        Geometry::GeometryCollection(v) => GeomView::Collection(
            v@.map_values(|m: Geometry| prim_view(m)),
        ),
        _ => prim_view(g),
    }
}

/// The geometry of a type with its coordinates member; an empty collection
/// where the member does not fit the type.
pub open spec fn with_coords(t: GeomType, c: CoordsView) -> GeomView {
    match (t, c) {
        (GeomType::Point, CoordsView::Position(p)) => GeomView::Point(p),
        (GeomType::MultiPoint, CoordsView::Positions(v)) => GeomView::MultiPoint(v),
        (GeomType::LineString, CoordsView::Positions(v)) => GeomView::LineString(v),
        (GeomType::MultiLineString, CoordsView::Rings(v)) => GeomView::MultiLineString(v),
        (GeomType::Polygon, CoordsView::Rings(v)) => GeomView::Polygon(v),
        (GeomType::MultiPolygon, CoordsView::Polygons(v)) => GeomView::MultiPolygon(v),
        _ => GeomView::Collection(Seq::empty()),
    }
}

/// A geometry object of the given primitive type.
pub open spec fn typed_spec(s: Seq<u8>, i: nat, t: GeomType) -> SParse<GeomView> {
    match geometry_spec(s, i, geom_type_name(t).spec_bytes(), kind_of(t)) {
        SParse::Done(j, c) => SParse::Done(j, with_coords(t, c)),
        p => fail_of(p),
    }
}

/// A primitive geometry: the types tried in turn, point first.
pub open spec fn primitive_spec(s: Seq<u8>, i: nat) -> SParse<GeomView> {
    or_else(
        typed_spec(s, i, GeomType::Point),
        or_else(
            typed_spec(s, i, GeomType::MultiPoint),
            or_else(
                typed_spec(s, i, GeomType::LineString),
                or_else(
                    typed_spec(s, i, GeomType::MultiLineString),
                    or_else(typed_spec(s, i, GeomType::Polygon), typed_spec(s, i, GeomType::MultiPolygon)),
                ),
            ),
        ),
    )
}

/// The name of a geometry type.
fn name_of(t: GeomType) -> (r: &'static str)
    ensures
        r == geom_type_name(t),
{
    match t {
        GeomType::Point => "Point",
        GeomType::MultiPoint => "MultiPoint",
        GeomType::LineString => "LineString",
        GeomType::MultiLineString => "MultiLineString",
        GeomType::Polygon => "Polygon",
        GeomType::MultiPolygon => "MultiPolygon",
    }
}

/// The geometry of a type with its coordinates member.
fn into_geometry(t: GeomType, c: Coords) -> (r: Geometry)
    ensures
        geom_view(r) == with_coords(t, coords_view(c)),
        geom_view(r) == prim_view(r),
{
    match (t, c) {
        (GeomType::Point, Coords::Position(p)) => Geometry::Point(p),
        (GeomType::MultiPoint, Coords::Positions(v)) => Geometry::MultiPoint(v),
        (GeomType::LineString, Coords::Positions(v)) => Geometry::LineString(v),
        (GeomType::MultiLineString, Coords::Rings(v)) => Geometry::MultiLineString(v),
        (GeomType::Polygon, Coords::Rings(v)) => Geometry::Polygon(v),
        (GeomType::MultiPolygon, Coords::Polygons(v)) => Geometry::MultiPolygon(v),
        _ => {
            let v: Vec<Geometry> = Vec::new();
            assert(v@.map_values(|m: Geometry| prim_view(m)) =~= Seq::<GeomView>::empty());
            Geometry::GeometryCollection(v)
        },
    }
}

/// Reads a geometry object of the given primitive type.
fn p_typed(s: &[u8], i: usize, t: GeomType) -> (r: Parsed<Geometry>)
    requires
        i <= s@.len(),
    ensures
        agrees(r, typed_spec(s@, i as nat, t), |g: Geometry| geom_view(g)),
        advances(r, i as nat, s@.len()),
        r matches Parsed::Done(_, g) ==> geom_view(g) == prim_view(g),
{
    match p_geometry(s, i, name_of(t).as_bytes(), t_kind(t)) {
        Parsed::Done(j, c) => Parsed::Done(j, into_geometry(t, c)),
        Parsed::Fail => Parsed::Fail,
        Parsed::Incomplete => Parsed::Incomplete,
    }
}

/// The coordinates member of a geometry type.
fn t_kind(t: GeomType) -> (r: CoordKind)
    ensures
        r == kind_of(t),
{
    match t {
        GeomType::Point => CoordKind::Position,
        GeomType::MultiPoint => CoordKind::Positions,
        GeomType::LineString => CoordKind::Positions,
        GeomType::MultiLineString => CoordKind::Rings,
        GeomType::Polygon => CoordKind::Rings,
        GeomType::MultiPolygon => CoordKind::Polygons,
    }
}

/// Reads a primitive geometry at `i`: a point, multipoint, line string,
/// multi-line string, polygon or multipolygon object, tried in that order.
fn primitive_at(s: &[u8], i: usize) -> (r: Parsed<Geometry>)
    requires
        i <= s@.len(),
    ensures
        agrees(r, primitive_spec(s@, i as nat), |g: Geometry| geom_view(g)),
        advances(r, i as nat, s@.len()),
        r matches Parsed::Done(_, g) ==> geom_view(g) == prim_view(g),
{
    match p_typed(s, i, GeomType::Point) {
        Parsed::Fail => {},
        r => return r,
    }
    match p_typed(s, i, GeomType::MultiPoint) {
        Parsed::Fail => {},
        r => return r,
    }
    match p_typed(s, i, GeomType::LineString) {
        Parsed::Fail => {},
        r => return r,
    }
    match p_typed(s, i, GeomType::MultiLineString) {
        Parsed::Fail => {},
        r => return r,
    }
    match p_typed(s, i, GeomType::Polygon) {
        Parsed::Fail => {},
        r => return r,
    }
    p_typed(s, i, GeomType::MultiPolygon)
}

/// Primitive geometries as list members.
pub open spec fn prim_elem(s: Seq<u8>) -> spec_fn(nat) -> SParse<GeomView> {
    |k: nat| primitive_spec(s, k)
}

/// The members of a collection as values.
pub open spec fn members_view(v: Vec<Geometry>) -> Seq<GeomView> {
    v@.map_values(|m: Geometry| prim_view(m))
}

/// The geometries member of a collection: its key, a colon, and a list of
/// primitive geometries in brackets.
pub open spec fn geometries_member(s: Seq<u8>, i: nat) -> SParse<Seq<GeomView>> {
    match spaced_tag(s, i, GEOMETRIES_KEY.spec_bytes()) {
        SParse::Done(i1, _) => match spaced_char(s, i1, COLON) {
            SParse::Done(i2, _) => bracketed(s, i2, prim_elem(s)),
            p => fail_of(p),
        },
        p => fail_of(p),
    }
}

/// A collection's two members with the type first.
pub open spec fn coll_type_first(s: Seq<u8>, i: nat) -> SParse<Seq<GeomView>> {
    match type_spec(s, i, COLLECTION_NAME.spec_bytes()) {
        SParse::Done(i1, _) => match spaced_char(s, i1, COMMA) {
            SParse::Done(i2, _) => geometries_member(s, i2),
            p => fail_of(p),
        },
        p => fail_of(p),
    }
}

/// A collection's two members with the geometries first.
pub open spec fn coll_geoms_first(s: Seq<u8>, i: nat) -> SParse<Seq<GeomView>> {
    match geometries_member(s, i) {
        SParse::Done(i1, g) => match spaced_char(s, i1, COMMA) {
            SParse::Done(i2, _) => match type_spec(s, i2, COLLECTION_NAME.spec_bytes()) {
                SParse::Done(i3, _) => SParse::Done(i3, g),
                p => fail_of(p),
            },
            p => fail_of(p),
        },
        p => fail_of(p),
    }
}

/// A geometry collection object.
pub open spec fn collection_spec(s: Seq<u8>, i: nat) -> SParse<GeomView> {
    match spaced_char(s, i, OPEN_BRACE) {
        SParse::Done(i1, _) => match or_else(coll_type_first(s, i1), coll_geoms_first(s, i1)) {
            SParse::Done(i2, g) => match spaced_char(s, i2, CLOSE_BRACE) {
                SParse::Done(i3, _) => SParse::Done(i3, GeomView::Collection(g)),
                p => fail_of(p),
            },
            p => fail_of(p),
        },
        p => fail_of(p),
    }
}

/// Any geometry: a collection, else a primitive geometry.
pub open spec fn root_spec(s: Seq<u8>, i: nat) -> SParse<GeomView> {
    or_else(collection_spec(s, i), primitive_spec(s, i))
}

/// Reads a comma-separated list of primitive geometries at `i`.
fn prim_list(s: &[u8], i: usize) -> (r: Parsed<Vec<Geometry>>)
    requires
        i <= s@.len(),
    ensures
        agrees(r, sep_list(s@, i as nat, prim_elem(s@)), |v: Vec<Geometry>| members_view(v)),
        advances(r, i as nat, s@.len()),
{
    let mut res: Vec<Geometry> = Vec::new();
    let mut pos = match primitive_at(s, i) {
        Parsed::Fail => {
            assert(members_view(res) =~= Seq::empty());
            return Parsed::Done(i, res);
        },
        Parsed::Incomplete => return Parsed::Incomplete,
        Parsed::Done(j, o) => {
            if j == i {
                return Parsed::Fail;
            }
            let ghost ov = geom_view(o);
            res.push(o);
            assert(members_view(res) =~= seq![ov]);
            j
        },
    };
    loop
        invariant
            i < pos <= s@.len(),
            list_from(s@, pos as nat, prim_elem(s@), members_view(res)) == sep_list(s@, i as nat, prim_elem(s@)),
        ensures
            i < pos <= s@.len(),
            sep_list(s@, i as nat, prim_elem(s@)) == SParse::Done(pos as nat, members_view(res)),
        decreases s@.len() - pos,
    {
        let k = match p_char(s, pos, COMMA) {
            Parsed::Fail => break,
            Parsed::Incomplete => return Parsed::Incomplete,
            Parsed::Done(k, _) => k,
        };
        if k == pos {
            return Parsed::Fail;
        }
        match primitive_at(s, k) {
            Parsed::Fail => break,
            Parsed::Incomplete => return Parsed::Incomplete,
            Parsed::Done(k2, o) => {
                if k2 == pos {
                    return Parsed::Fail;
                }
                let ghost before = members_view(res);
                let ghost ov = geom_view(o);
                res.push(o);
                assert(members_view(res) =~= before.push(ov));
                pos = k2;
            },
        }
    }
    Parsed::Done(pos, res)
}

/// Reads the geometries member of a collection.
fn p_geometries_member(s: &[u8], i: usize) -> (r: Parsed<Vec<Geometry>>)
    requires
        i <= s@.len(),
    ensures
        agrees(r, geometries_member(s@, i as nat), |v: Vec<Geometry>| members_view(v)),
        advances(r, i as nat, s@.len()),
{
    let i1 = match p_tag(s, i, GEOMETRIES_KEY.as_bytes()) {
        Parsed::Done(k, _) => k,
        Parsed::Fail => return Parsed::Fail,
        Parsed::Incomplete => return Parsed::Incomplete,
    };
    let i2 = match p_char(s, i1, COLON) {
        Parsed::Done(k, _) => k,
        Parsed::Fail => return Parsed::Fail,
        Parsed::Incomplete => return Parsed::Incomplete,
    };
    let i3 = match p_char(s, i2, OPEN_BRACKET) {
        Parsed::Done(k, _) => k,
        Parsed::Fail => return Parsed::Fail,
        Parsed::Incomplete => return Parsed::Incomplete,
    };
    let (i4, v) = match prim_list(s, i3) {
        Parsed::Done(k, v) => (k, v),
        Parsed::Fail => return Parsed::Fail,
        Parsed::Incomplete => return Parsed::Incomplete,
    };
    match p_char(s, i4, CLOSE_BRACKET) {
        Parsed::Done(k, _) => Parsed::Done(k, v),
        Parsed::Fail => Parsed::Fail,
        Parsed::Incomplete => Parsed::Incomplete,
    }
}

/// Reads a collection's two members with the type first.
fn p_coll_type_first(s: &[u8], i: usize) -> (r: Parsed<Vec<Geometry>>)
    requires
        i <= s@.len(),
    ensures
        agrees(r, coll_type_first(s@, i as nat), |v: Vec<Geometry>| members_view(v)),
        advances(r, i as nat, s@.len()),
{
    let i1 = match p_type(s, i, COLLECTION_NAME.as_bytes()) {
        Parsed::Done(k, _) => k,
        Parsed::Fail => return Parsed::Fail,
        Parsed::Incomplete => return Parsed::Incomplete,
    };
    let i2 = match p_char(s, i1, COMMA) {
        Parsed::Done(k, _) => k,
        Parsed::Fail => return Parsed::Fail,
        Parsed::Incomplete => return Parsed::Incomplete,
    };
    p_geometries_member(s, i2)
}

/// Reads a collection's two members with the geometries first.
fn p_coll_geoms_first(s: &[u8], i: usize) -> (r: Parsed<Vec<Geometry>>)
    requires
        i <= s@.len(),
    ensures
        agrees(r, coll_geoms_first(s@, i as nat), |v: Vec<Geometry>| members_view(v)),
        advances(r, i as nat, s@.len()),
{
    let (i1, g) = match p_geometries_member(s, i) {
        Parsed::Done(k, g) => (k, g),
        Parsed::Fail => return Parsed::Fail,
        Parsed::Incomplete => return Parsed::Incomplete,
    };
    let i2 = match p_char(s, i1, COMMA) {
        Parsed::Done(k, _) => k,
        Parsed::Fail => return Parsed::Fail,
        Parsed::Incomplete => return Parsed::Incomplete,
    };
    match p_type(s, i2, COLLECTION_NAME.as_bytes()) {
        Parsed::Done(k, _) => Parsed::Done(k, g),
        Parsed::Fail => Parsed::Fail,
        Parsed::Incomplete => Parsed::Incomplete,
    }
}

/// Reads a geometry collection object at `i`.
fn collection_at(s: &[u8], i: usize) -> (r: Parsed<Geometry>)
    requires
        i <= s@.len(),
    ensures
        agrees(r, collection_spec(s@, i as nat), |g: Geometry| geom_view(g)),
        advances(r, i as nat, s@.len()),
{
    let i1 = match p_char(s, i, OPEN_BRACE) {
        Parsed::Done(k, _) => k,
        Parsed::Fail => return Parsed::Fail,
        Parsed::Incomplete => return Parsed::Incomplete,
    };
    let body = match p_coll_type_first(s, i1) {
        Parsed::Fail => p_coll_geoms_first(s, i1),
        other => other,
    };
    let (i2, g) = match body {
        Parsed::Done(k, g) => (k, g),
        Parsed::Fail => return Parsed::Fail,
        Parsed::Incomplete => return Parsed::Incomplete,
    };
    match p_char(s, i2, CLOSE_BRACE) {
        Parsed::Done(k, _) => Parsed::Done(k, Geometry::GeometryCollection(g)),
        Parsed::Fail => Parsed::Fail,
        Parsed::Incomplete => Parsed::Incomplete,
    }
}

/// Reads any geometry at `i`: a collection, else a primitive geometry.
fn root_at(s: &[u8], i: usize) -> (r: Parsed<Geometry>)
    requires
        i <= s@.len(),
    ensures
        agrees(r, root_spec(s@, i as nat), |g: Geometry| geom_view(g)),
        advances(r, i as nat, s@.len()),
{
    match collection_at(s, i) {
        Parsed::Fail => primitive_at(s, i),
        other => other,
    }
}

/// Reads a position, `[x, y]`, from the start of the text; a `Done`
/// outcome gives how many bytes were read.
pub fn coord_pair(input: &str) -> (r: Parsed<Coordinates>)
    ensures
        agrees(r, coord_pair_spec(input.spec_bytes(), 0), |c: Coordinates| c),
        advances(r, 0, input.spec_bytes().len()),
{
    pair_at(input.as_bytes(), 0)
}

/// Reads an array of positions from the start of the text.
pub fn coord_seq(input: &str) -> (r: Parsed<Vec<Coordinates>>)
    ensures
        agrees(r, coord_seq_spec(input.spec_bytes(), 0), |v: Vec<Coordinates>| view1(v)),
        advances(r, 0, input.spec_bytes().len()),
{
    seq1_at(input.as_bytes(), 0)
}

/// Reads an array of arrays of positions from the start of the text.
pub fn coord_seq_seq(input: &str) -> (r: Parsed<Vec<Vec<Coordinates>>>)
    ensures
        agrees(r, coord_seq_seq_spec(input.spec_bytes(), 0), |v: Vec<Vec<Coordinates>>| view2(v)),
        advances(r, 0, input.spec_bytes().len()),
{
    seq2_at(input.as_bytes(), 0)
}

/// Reads a primitive geometry object from the start of the text.
pub fn primitive_geometry(input: &str) -> (r: Parsed<Geometry>)
    ensures
        agrees(r, primitive_spec(input.spec_bytes(), 0), |g: Geometry| geom_view(g)),
        advances(r, 0, input.spec_bytes().len()),
{
    primitive_at(input.as_bytes(), 0)
}

/// Reads a geometry object, a collection or a primitive one, from the start
/// of the text.
pub fn root(input: &str) -> (r: Parsed<Geometry>)
    ensures
        agrees(r, root_spec(input.spec_bytes(), 0), |g: Geometry| geom_view(g)),
        advances(r, 0, input.spec_bytes().len()),
{
    root_at(input.as_bytes(), 0)
}

/// The type key and the geometries key differ in their second byte: where
/// the geometries key stands, the type key fails.
proof fn lemma_keys_differ(s: Seq<u8>, i: nat)
    ensures
        spaced_tag(s, i, GEOMETRIES_KEY.spec_bytes()) is Done ==> spaced_tag(
            s,
            i,
            TYPE_KEY.spec_bytes(),
        ) is Fail,
{
    reveal_strlit("\"type\"");
    reveal_strlit("\"geometries\"");
    vstd::string::is_ascii_spec_bytes(TYPE_KEY);
    vstd::string::is_ascii_spec_bytes(GEOMETRIES_KEY);
    let t = TYPE_KEY.spec_bytes();
    let g = GEOMETRIES_KEY.spec_bytes();
    assert(t.len() == 6 && t[1] == 0x74u8);
    assert(g.len() == 12 && g[1] == 0x67u8);
    match skip_ws(s, i) {
        None => {},
        Some(j) => {
            if tag_at(s, j, g) is Done {
                assert(s.subrange(j as int, j as int + 12)[1] == g[1]);
                assert(s.subrange(j as int, j as int + 6)[1] == s[j as int + 1]);
                assert(s.subrange(j as int, j as int + 6) != t.subrange(0, 6));
            }
        },
    }
}

/// Law: a collection's two members may come in either order. An object
/// whose members read as the type `GeometryCollection` and a geometries
/// list `g`, in that order or the other, reads as the collection of `g`,
/// both as a collection and as any geometry.
pub proof fn lemma_collection_key_order(s: Seq<u8>, i: nat, type_first_order: bool)
    requires
        spaced_char(s, i, OPEN_BRACE) is Done,
        ({
            let i1 = spaced_char(s, i, OPEN_BRACE)->0;
            if type_first_order {
                &&& type_spec(s, i1, COLLECTION_NAME.spec_bytes()) is Done
                &&& spaced_char(s, type_spec(s, i1, COLLECTION_NAME.spec_bytes())->0, COMMA) is Done
                &&& geometries_member(
                    s,
                    spaced_char(s, type_spec(s, i1, COLLECTION_NAME.spec_bytes())->0, COMMA)->0,
                ) is Done
            } else {
                &&& geometries_member(s, i1) is Done
                &&& spaced_char(s, geometries_member(s, i1)->0, COMMA) is Done
                &&& type_spec(
                    s,
                    spaced_char(s, geometries_member(s, i1)->0, COMMA)->0,
                    COLLECTION_NAME.spec_bytes(),
                ) is Done
            }
        }),
    ensures
        ({
            let i1 = spaced_char(s, i, OPEN_BRACE)->0;
            let (end, g) = if type_first_order {
                let m = geometries_member(
                    s,
                    spaced_char(s, type_spec(s, i1, COLLECTION_NAME.spec_bytes())->0, COMMA)->0,
                );
                (m->0, m->1)
            } else {
                let m = geometries_member(s, i1);
                (
                    type_spec(
                        s,
                        spaced_char(s, m->0, COMMA)->0,
                        COLLECTION_NAME.spec_bytes(),
                    )->0,
                    m->1,
                )
            };
            spaced_char(s, end, CLOSE_BRACE) is Done ==> {
                &&& collection_spec(s, i) == SParse::Done(
                    spaced_char(s, end, CLOSE_BRACE)->0,
                    GeomView::Collection(g),
                )
                &&& root_spec(s, i) == collection_spec(s, i)
            }
        }),
{
    let i1 = spaced_char(s, i, OPEN_BRACE)->0;
    if !type_first_order {
        lemma_keys_differ(s, i1);
        assert(spaced_tag(s, i1, GEOMETRIES_KEY.spec_bytes()) is Done);
        assert(type_spec(s, i1, COLLECTION_NAME.spec_bytes()) is Fail);
        assert(coll_type_first(s, i1) is Fail);
    }
}

/// Where the coordinates key stands, the type key fails.
proof fn lemma_coords_key_not_type(s: Seq<u8>, i: nat)
    ensures
        spaced_tag(s, i, COORDINATES_KEY.spec_bytes()) is Done ==> spaced_tag(
            s,
            i,
            TYPE_KEY.spec_bytes(),
        ) is Fail,
{
    reveal_strlit("\"type\"");
    reveal_strlit("\"coordinates\"");
    vstd::string::is_ascii_spec_bytes(TYPE_KEY);
    vstd::string::is_ascii_spec_bytes(COORDINATES_KEY);
    let t = TYPE_KEY.spec_bytes();
    let c = COORDINATES_KEY.spec_bytes();
    assert(t.len() == 6 && t[1] == 0x74u8);
    assert(c.len() == 13 && c[1] == 0x63u8);
    match skip_ws(s, i) {
        None => {},
        Some(j) => {
            if tag_at(s, j, c) is Done {
                assert(s.subrange(j as int, j as int + 13)[1] == c[1]);
                assert(s.subrange(j as int, j as int + 6)[1] == s[j as int + 1]);
                assert(s.subrange(j as int, j as int + 6) != t.subrange(0, 6));
            }
        },
    }
}

/// Law: a primitive geometry's two members may come in either order. An
/// object whose members read as the type `name` and coordinates `c`, in
/// that order or the other, reads as a geometry of that type with `c`.
pub proof fn lemma_geometry_key_order(s: Seq<u8>, i: nat, name: Seq<u8>, kind: CoordKind, type_first_order: bool)
    requires
        spaced_char(s, i, OPEN_BRACE) is Done,
        ({
            let i1 = spaced_char(s, i, OPEN_BRACE)->0;
            if type_first_order {
                &&& type_spec(s, i1, name) is Done
                &&& spaced_char(s, type_spec(s, i1, name)->0, COMMA) is Done
                &&& coords_member(s, spaced_char(s, type_spec(s, i1, name)->0, COMMA)->0, kind) is Done
            } else {
                &&& coords_member(s, i1, kind) is Done
                &&& spaced_char(s, coords_member(s, i1, kind)->0, COMMA) is Done
                &&& type_spec(s, spaced_char(s, coords_member(s, i1, kind)->0, COMMA)->0, name) is Done
            }
        }),
    ensures
        ({
            let i1 = spaced_char(s, i, OPEN_BRACE)->0;
            let (end, c) = if type_first_order {
                let m = coords_member(s, spaced_char(s, type_spec(s, i1, name)->0, COMMA)->0, kind);
                (m->0, m->1)
            } else {
                let m = coords_member(s, i1, kind);
                (type_spec(s, spaced_char(s, m->0, COMMA)->0, name)->0, m->1)
            };
            spaced_char(s, end, CLOSE_BRACE) is Done ==> geometry_spec(s, i, name, kind)
                == SParse::Done(spaced_char(s, end, CLOSE_BRACE)->0, c)
        }),
{
    let i1 = spaced_char(s, i, OPEN_BRACE)->0;
    if !type_first_order {
        lemma_coords_key_not_type(s, i1);
        assert(spaced_tag(s, i1, COORDINATES_KEY.spec_bytes()) is Done);
        assert(type_spec(s, i1, name) is Fail);
        assert(type_first(s, i1, name, kind) is Fail);
    }
}

} // verus!
