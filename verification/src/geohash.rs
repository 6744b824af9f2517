//! Geohash helpers: the base-32 alphabet, children and neighbors of a geohash
//! cell, and the base-32 rendering of a 64-bit geohash.
use crate::digits::{parse_unsigned, parsed_unsigned};
use crate::error::Error;
use vstd::prelude::*;

verus! {

/// The geohash base-32 alphabet, in digit order.
pub const BASE_32: [char; 32] = [
    '0', '1', '2', '3', '4', '5', '6', '7', '8', '9', 'b', 'c', 'd', 'e', 'f', 'g', 'h', 'j', 'k',
    'm', 'n', 'p', 'q', 'r', 's', 't', 'u', 'v', 'w', 'x', 'y', 'z',
];

/// The geohash base-32 alphabet as a sequence.
pub open spec fn base32_alphabet() -> Seq<char> {
    seq![
        '0', '1', '2', '3', '4', '5', '6', '7', '8', '9', 'b', 'c', 'd', 'e', 'f', 'g', 'h', 'j',
        'k', 'm', 'n', 'p', 'q', 'r', 's', 't', 'u', 'v', 'w', 'x', 'y', 'z',
    ]
}

/// Whether `c` is a digit of the geohash base-32 alphabet: a decimal digit or
/// a lower-case letter other than a, i, l and o.
pub open spec fn is_base32_char(c: char) -> bool {
    ||| ('0' <= c && c <= '9')
    ||| ('b' <= c && c <= 'h')
    ||| c == 'j'
    ||| c == 'k'
    ||| c == 'm'
    ||| c == 'n'
    ||| ('p' <= c && c <= 'z')
}

/// A geohash the `geohash` crate can decode: one to twelve base-32 digits.
pub open spec fn valid_geohash(s: Seq<char>) -> bool {
    &&& 1 <= s.len() <= 12
    &&& forall|i: int| 0 <= i < s.len() ==> is_base32_char(#[trigger] s[i])
}

/// The eight cells around a geohash, as `geohash::neighbors` computes them, in
/// the order north, north-east, east, south-east, south, south-west, west,
/// north-west.
pub uninterp spec fn geohash_neighbors(hash: Seq<char>) -> Seq<Seq<char>>;

/// The error type of the `geohash` crate.
#[verifier::external_type_specification]
#[verifier::external_body]
pub struct ExGeohashError(::geohash::GeohashError);

/// Calls `geohash::neighbors` and lists the eight neighbors north first,
/// clockwise.
/// Claimed from the crate's source: it succeeds exactly on hashes of at most
/// twelve base-32 digits (its decoder table rejects every other byte), and
/// each neighbor it returns is a hash of the same length over the base-32
/// alphabet (`encode` writes one alphabet digit per requested position). The
/// empty hash is left out: decoding it shifts a `u64` by 64 bits, which
/// panics in debug builds.
#[verifier::external_body]
fn neighbor_hashes(hash: &str) -> (r: Result<Vec<String>, ::geohash::GeohashError>)
    requires
        hash@.len() >= 1,
    ensures
        r is Ok <==> valid_geohash(hash@),
        r matches Ok(v) ==> {
            &&& v.deep_view() == geohash_neighbors(hash@)
            &&& v.deep_view().len() == 8
            &&& forall|i: int|
                0 <= i < 8 ==> (#[trigger] v.deep_view()[i]).len() == hash@.len() && valid_geohash(
                    v.deep_view()[i],
                )
        },
{
    match ::geohash::neighbors(hash) {
        Ok(n) => Ok(vec![n.n, n.ne, n.e, n.se, n.s, n.sw, n.w, n.nw]),
        Err(e) => Err(e),
    }
}

/// Appends a character to a string (`String::push`).
#[verifier::external_body]
pub(crate) fn push_char(s: &mut String, c: char)
    ensures
        final(s)@ == old(s)@.push(c),
{
    s.push(c)
}

/// Every letter of the alphabet table is a base-32 digit, and the table is
/// the alphabet sequence.
pub(crate) proof fn lemma_base32_table()
    ensures
        BASE_32@ == base32_alphabet(),
        forall|i: int| 0 <= i < 32 ==> is_base32_char(#[trigger] base32_alphabet()[i]),
{
    assert(BASE_32@ =~= base32_alphabet());
}

/// Whether `s` is a geohash the `geohash` crate can decode.
pub fn is_valid_geohash(s: &str) -> (r: bool)
    ensures
        r == valid_geohash(s@),
{
    let mut count: usize = 0;
    for c in it: s.chars()
        invariant
            count == it.index(),
            count <= 12,
            it.seq() == s@,
            forall|i: int| 0 <= i < count ==> is_base32_char(#[trigger] s@[i]),
    {
        if count == 12 {
            return false;
        }
        let is_digit = ('0' <= c && c <= '9') || ('b' <= c && c <= 'h') || c == 'j' || c == 'k'
            || c == 'm' || c == 'n' || ('p' <= c && c <= 'z');
        if !is_digit {
            return false;
        }
        count = count + 1;
    }
    count >= 1
}

/// The 32 children of a geohash: the hash followed by each base-32 digit, in
/// alphabet order.
pub fn children(gh: &String) -> (r: Vec<String>)
    ensures
        r.deep_view() == Seq::new(32, |i: int| gh@.push(base32_alphabet()[i])),
{
    proof {
        lemma_base32_table();
    }
    let mut out: Vec<String> = Vec::new();
    let mut i: usize = 0;
    while i < 32
        invariant
            i <= 32,
            BASE_32@ == base32_alphabet(),
            out@.len() == i,
            forall|j: int| 0 <= j < i ==> (#[trigger] out@[j])@ == gh@.push(base32_alphabet()[j]),
        decreases 32 - i,
    {
        let mut child = gh.clone();
        push_char(&mut child, BASE_32[i]);
        out.push(child);
        i = i + 1;
    }
    assert(out.deep_view() =~= Seq::new(32, |i: int| gh@.push(base32_alphabet()[i])));
    out
}

/// The neighbors of a geohash, north first and clockwise, preceded by the
/// hash itself when `include_self` is set (giving the 3x3 block centered on
/// it).
pub fn neighbors(gh: &String, include_self: bool) -> (r: Vec<String>)
    requires
        valid_geohash(gh@),
    ensures
        r.deep_view() == (if include_self {
            seq![gh@]
        } else {
            Seq::<Seq<char>>::empty()
        }) + geohash_neighbors(gh@),
        geohash_neighbors(gh@).len() == 8,
        forall|i: int|
            0 <= i < 8 ==> (#[trigger] geohash_neighbors(gh@)[i]).len() == gh@.len() && valid_geohash(
                geohash_neighbors(gh@)[i],
            ),
{
    let mut output: Vec<String> = Vec::new();
    if include_self {
        output.push(gh.clone());
    }
    match neighbor_hashes(gh.as_str()) {
        Ok(neighbs) => {
            let mut i: usize = 0;
            let ghost base = output@;
            while i < neighbs.len()
                invariant
                    i <= neighbs.len(),
                    output@.len() == base.len() + i,
                    forall|j: int| 0 <= j < base.len() ==> #[trigger] output@[j] == base[j],
                    forall|j: int|
                        0 <= j < i ==> (#[trigger] output@[base.len() + j])@ == neighbs@[j]@,
                decreases neighbs.len() - i,
            {
                output.push(neighbs[i].clone());
                i = i + 1;
            }
            let ghost want = (if include_self {
                seq![gh@]
            } else {
                Seq::<Seq<char>>::empty()
            }).add(geohash_neighbors(gh@));
            assert forall|k: int| 0 <= k < want.len() implies #[trigger] output.deep_view()[k]
                == want[k] by {
                if k >= base.len() {
                    assert(output@[base.len() + (k - base.len())]@ == neighbs@[k - base.len()]@);
                    assert(neighbs.deep_view()[k - base.len()] == neighbs@[k - base.len()]@);
                }
            }
            assert(output.deep_view() =~= want);
            output
        },
        Err(_) => {
            proof {
                assert(false);
            }
            output
        },
    }
}

/// The base-32 digit for the 5-bit group of `x` that ends `shift` bits from
/// the least significant bit.
pub open spec fn base32_digit(x: u64, shift: u64) -> char {
    base32_alphabet()[((x >> shift) & 0x1f) as int]
}

/// The twelve base-32 digits of the low 60 bits of `x`, most significant
/// group first.
pub open spec fn encode_long_spec(x: u64) -> Seq<char> {
    Seq::new(12, |j: int| base32_digit(x, (5 * (11 - j)) as u64))
}

proof fn lemma_digit_index(x: u64, shift: u64)
    ensures
        ((x >> shift) & 0x1f) < 32,
{
    assert(((x >> shift) & 0x1f) < 32) by (bit_vector);
}

/// Converts a 64-bit geohash to its twelve-character base-32 form.
pub fn encode_long(x: u64) -> (r: String)
    ensures
        r@ == encode_long_spec(x),
{
    proof {
        lemma_base32_table();
    }
    let mut out = String::new();
    let mut j: u64 = 0;
    while j < 12
        invariant
            j <= 12,
            BASE_32@ == base32_alphabet(),
            out@ == encode_long_spec(x).take(j as int),
        decreases 12 - j,
    {
        let shift: u64 = 5 * (11 - j);
        proof {
            lemma_digit_index(x, shift);
        }
        let idx = ((x >> shift) & 0x1f) as usize;
        push_char(&mut out, BASE_32[idx]);
        assert(out@ =~= encode_long_spec(x).take(j + 1));
        j = j + 1;
    }
    assert(encode_long_spec(x).take(12) =~= encode_long_spec(x));
    out
}

/// Every long geohash renders as a valid twelve-character geohash, so its
/// neighbors can be taken.
pub proof fn lemma_encode_long_valid(x: u64)
    ensures
        encode_long_spec(x).len() == 12,
        valid_geohash(encode_long_spec(x)),
{
    lemma_base32_table();
    assert forall|i: int| 0 <= i < 12 implies is_base32_char(#[trigger] encode_long_spec(x)[i]) by {
        lemma_digit_index(x, (5 * (11 - i)) as u64);
    }
}

/// Every child of a geohash of at most eleven digits is a valid geohash one
/// digit longer, and no two children coincide.
pub proof fn lemma_children_valid(gh: Seq<char>)
    requires
        valid_geohash(gh),
        gh.len() <= 11,
    ensures
        forall|i: int|
            0 <= i < 32 ==> valid_geohash(#[trigger] gh.push(base32_alphabet()[i])) && gh.push(
                base32_alphabet()[i],
            ).len() == gh.len() + 1,
        forall|i: int, j: int|
            0 <= i < 32 && 0 <= j < 32 && i != j ==> #[trigger] gh.push(base32_alphabet()[i])
                != #[trigger] gh.push(base32_alphabet()[j]),
{
    lemma_base32_table();
    assert forall|i: int| 0 <= i < 32 implies valid_geohash(
        #[trigger] gh.push(base32_alphabet()[i]),
    ) by {
        let c = gh.push(base32_alphabet()[i]);
        assert forall|k: int| 0 <= k < c.len() implies is_base32_char(#[trigger] c[k]) by {
            if k < gh.len() {
                assert(c[k] == gh[k]);
            }
        }
    }
    assert forall|i: int, j: int|
        0 <= i < 32 && 0 <= j < 32 && i != j implies #[trigger] gh.push(base32_alphabet()[i])
        != #[trigger] gh.push(base32_alphabet()[j]) by {
        assert(gh.push(base32_alphabet()[i])[gh.len() as int] == base32_alphabet()[i]);
        assert(gh.push(base32_alphabet()[j])[gh.len() as int] == base32_alphabet()[j]);
    }
}

/// The value of a base-32 digit: its position in the alphabet.
pub open spec fn digit_value(c: char) -> nat {
    if '0' <= c <= '9' {
        (c as nat - '0' as nat) as nat
    } else if 'b' <= c <= 'h' {
        (c as nat - 'b' as nat + 10) as nat
    } else if c == 'j' {
        17
    } else if c == 'k' {
        18
    } else if c == 'm' {
        19
    } else if c == 'n' {
        20
    } else {
        (c as nat - 'p' as nat + 21) as nat
    }
}

/// The number a text of base-32 digits writes, most significant first.
pub open spec fn base32_value(s: Seq<char>) -> nat
    decreases s.len(),
{
    if s.len() == 0 {
        0
    } else {
        base32_value(s.drop_last()) * 32 + digit_value(s.last())
    }
}

/// Each digit of the alphabet has its position as value.
proof fn lemma_digit_values()
    ensures
        forall|k: int| 0 <= k < 32 ==> digit_value(#[trigger] base32_alphabet()[k]) == k,
{
    assert forall|k: int| 0 <= k < 32 implies digit_value(#[trigger] base32_alphabet()[k]) == k by {
        let a = base32_alphabet();
        if k < 10 {
            assert(a[k] as nat == '0' as nat + k);
        } else if k < 17 {
            assert(a[k] as nat == 'b' as nat + (k - 10));
        } else if k >= 21 {
            assert(a[k] as nat == 'p' as nat + (k - 21));
        }
    }
}

/// One more digit: the value of the first `j + 1` digits of `encode_long`.
proof fn lemma_prefix_bits(x: u64, j: u64)
    requires
        j < 12,
    ensures
        ((x >> (60 - 5 * j) as u64) & (((1u64 << (5 * j) as u64) - 1) as u64)) * 32 + ((x >> (55
            - 5 * j) as u64) & 0x1f) == (x >> (55 - 5 * j) as u64) & (((1u64 << (5 * (j + 1))
            as u64) - 1) as u64),
{
    assert(((x >> (60 - 5 * j) as u64) & (((1u64 << (5 * j) as u64) - 1) as u64)) * 32 + ((x >> (
    55 - 5 * j) as u64) & 0x1f) == (x >> (55 - 5 * j) as u64) & (((1u64 << (5 * (j + 1)) as u64)
        - 1) as u64)) by (bit_vector)
        requires
            j < 12,
    ;
}

/// The first `j` digits of `encode_long` write the top `5 * j` of the low
/// 60 bits of `x`.
proof fn lemma_encode_prefix(x: u64, j: u64)
    requires
        j <= 12,
    ensures
        base32_value(encode_long_spec(x).take(j as int)) == (x >> (60 - 5 * j) as u64) & (((1u64
            << (5 * j) as u64) - 1) as u64),
    decreases j,
{
    if j == 0 {
        assert(encode_long_spec(x).take(0) =~= Seq::<char>::empty());
        assert((x >> 60u64) & ((1u64 << 0u64) - 1) as u64 == 0) by (bit_vector);
    } else {
        let i = (j - 1) as u64;
        lemma_encode_prefix(x, i);
        let t = encode_long_spec(x).take(j as int);
        assert(t.drop_last() =~= encode_long_spec(x).take(i as int));
        lemma_digit_values();
        lemma_digit_index(x, (55 - 5 * i) as u64);
        assert(t.last() == base32_digit(x, (5 * (11 - i)) as u64));
        assert((5 * (11 - i)) as u64 == (55 - 5 * i) as u64);
        lemma_prefix_bits(x, i);
        assert((5 * (i + 1)) as u64 == (5 * j) as u64);
        assert((55 - 5 * i) as u64 == (60 - 5 * j) as u64);
    }
}

/// Law: `encode_long` writes the low 60 bits of `x` in base 32, most
/// significant digit first; so it depends on those bits alone, and numbers
/// below 2^60 get distinct texts.
pub proof fn lemma_encode_long_value(x: u64, y: u64)
    ensures
        base32_value(encode_long_spec(x)) == x % 0x1000_0000_0000_0000,
        encode_long_spec(x) == encode_long_spec(x % 0x1000_0000_0000_0000),
        x < 0x1000_0000_0000_0000 && y < 0x1000_0000_0000_0000 && x != y ==> encode_long_spec(x)
            != encode_long_spec(y),
{
    lemma_encode_prefix(x, 12);
    assert(encode_long_spec(x).take(12) =~= encode_long_spec(x));
    assert((x >> 0u64) & (((1u64 << 60u64) - 1) as u64) == x % 0x1000_0000_0000_0000) by (bit_vector);
    let lo = (x % 0x1000_0000_0000_0000) as u64;
    assert forall|j: int| 0 <= j < 12 implies #[trigger] encode_long_spec(x)[j] == encode_long_spec(
        lo,
    )[j] by {
        let sh = (5 * (11 - j)) as u64;
        assert(sh <= 55);
        assert((x >> sh) & 0x1f == ((x % 0x1000_0000_0000_0000) as u64 >> sh) & 0x1f) by (bit_vector)
            requires
                sh <= 55,
        ;
    }
    assert(encode_long_spec(x) =~= encode_long_spec(lo));
    lemma_encode_prefix(y, 12);
    assert(encode_long_spec(y).take(12) =~= encode_long_spec(y));
    assert((y >> 0u64) & (((1u64 << 60u64) - 1) as u64) == y % 0x1000_0000_0000_0000) by (bit_vector);
}

/// Message prefix for a level argument that is not a number.
pub const LEVEL_FORMAT_MSG: &'static str = "Expected integer geohash level: ";

/// Reads the geohash level argument: a non-negative number.
pub fn read_level(arg: Option<&str>) -> (r: Result<usize, Error>)
    ensures
        arg is None ==> r matches Err(Error::MissingArgument),
        arg matches Some(s) ==> (parsed_unsigned(s@, usize::MAX as nat) is None ==> (r matches Err(
            Error::InvalidNumberFormat(m),
        ) && m@ == LEVEL_FORMAT_MSG@ + s@)),
        arg matches Some(s) ==> (parsed_unsigned(s@, usize::MAX as nat) matches Some(v) ==> r
            == Ok::<usize, Error>(v as usize)),
{
    match arg {
        None => Err(Error::MissingArgument),
        Some(s) => match parse_unsigned(s, usize::MAX as u64) {
            None => {
                let mut m = String::from_str(LEVEL_FORMAT_MSG);
                m.append(s);
                Err(Error::InvalidNumberFormat(m))
            },
            Some(v) => Ok(v as usize),
        },
    }
}

} // verus!
