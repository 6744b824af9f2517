//! Unsigned integers as text: decimal parsing as `str::parse` accepts it, and
//! decimal and lower-case hexadecimal rendering.
use crate::geohash::push_char;
use vstd::prelude::*;

verus! {

/// Digit characters for bases up to sixteen, in value order.
pub const DIGITS: [char; 16] = [
    '0', '1', '2', '3', '4', '5', '6', '7', '8', '9', 'a', 'b', 'c', 'd', 'e', 'f',
];

/// The digit characters as a sequence.
pub open spec fn digit_chars() -> Seq<char> {
    seq!['0', '1', '2', '3', '4', '5', '6', '7', '8', '9', 'a', 'b', 'c', 'd', 'e', 'f']
}

/// A decimal digit character.
pub open spec fn is_digit(c: char) -> bool {
    '0' <= c <= '9'
}

/// The value of a run of decimal digits.
pub open spec fn digits_value(s: Seq<char>) -> nat
    decreases s.len(),
{
    if s.len() == 0 {
        0
    } else {
        digits_value(s.drop_last()) * 10 + (s.last() as nat - '0' as nat) as nat
    }
}

/// The digits of an unsigned number's text: the text after an optional `+`.
pub open spec fn unsigned_digits(s: Seq<char>) -> Seq<char> {
    if s.len() > 0 && s[0] == '+' {
        s.drop_first()
    } else {
        s
    }
}

/// The value of an unsigned number's text: an optional `+` and then one or
/// more decimal digits; none for any other text.
pub open spec fn unsigned_text(s: Seq<char>) -> Option<nat> {
    let d = unsigned_digits(s);
    if d.len() > 0 && forall|i: int| 0 <= i < d.len() ==> is_digit(#[trigger] d[i]) {
        Some(digits_value(d))
    } else {
        None
    }
}

/// What parsing the text as an unsigned integer type with largest value
/// `max` gives: its value, where it has one that fits.
pub open spec fn parsed_unsigned(s: Seq<char>, max: nat) -> Option<nat> {
    match unsigned_text(s) {
        Some(v) => if v <= max {
            Some(v)
        } else {
            None
        },
        None => None,
    }
}

proof fn lemma_digit_step(acc: u64, d: u64, max: u64)
    by (nonlinear_arith)
    requires
        d <= 9,
    ensures
        d <= max && acc <= (max - d) / 10 <==> acc * 10 + d <= max,
{
}

/// Parses unsigned decimal text as `str::parse` does for an unsigned type
/// whose largest value is `max`.
pub fn parse_unsigned(s: &str, max: u64) -> (r: Option<u64>)
    ensures
        r matches Some(v) ==> parsed_unsigned(s@, max as nat) == Some(v as nat),
        r is None ==> parsed_unsigned(s@, max as nat) is None,
{
    let len = s.unicode_len();
    let plus = len > 0 && s.get_char(0) == '+';
    let start: usize = if plus { 1 } else { 0 };
    let ghost d = unsigned_digits(s@);
    proof {
        assert(d =~= s@.subrange(start as int, s@.len() as int));
    }
    let mut i: usize = start;
    let mut acc: u64 = 0;
    let mut over = false;
    while i < len
        invariant
            len == s@.len(),
            start <= i <= len,
            d == s@.subrange(start as int, len as int),
            d == unsigned_digits(s@),
            forall|j: int| start <= j < i ==> is_digit(#[trigger] s@[j]),
            !over ==> acc == digits_value(s@.subrange(start as int, i as int)) && acc <= max,
            over ==> digits_value(s@.subrange(start as int, i as int)) > max,
        decreases len - i,
    {
        let c = s.get_char(i);
        if !('0' <= c && c <= '9') {
            assert(d[i - start] == c);
            assert(!is_digit(d[i - start]));
            assert(unsigned_digits(s@) == d);
            assert(unsigned_text(s@) is None);
            return None;
        }
        let ghost prev = s@.subrange(start as int, i as int);
        let ghost next = s@.subrange(start as int, i + 1);
        let dv: u64 = if c == '0' {
            0
        } else if c == '1' {
            1
        } else if c == '2' {
            2
        } else if c == '3' {
            3
        } else if c == '4' {
            4
        } else if c == '5' {
            5
        } else if c == '6' {
            6
        } else if c == '7' {
            7
        } else if c == '8' {
            8
        } else {
            9
        };
        proof {
            assert(next.drop_last() =~= prev);
            assert(digits_value(next) == digits_value(prev) * 10 + dv);
        }
        if !over {
            proof {
                lemma_digit_step(acc, dv, max);
            }
            if dv <= max && acc <= (max - dv) / 10 {
                acc = acc * 10 + dv;
            } else {
                over = true;
            }
        } else {
            let ghost p = digits_value(prev);
            assert(p * 10 + dv >= p) by (nonlinear_arith)
                requires
                    p >= 0,
                    dv >= 0,
            ;
        }
        i = i + 1;
    }
    proof {
        assert forall|j: int| 0 <= j < d.len() implies is_digit(#[trigger] d[j]) by {
            assert(d[j] == s@[j + start]);
        }
        assert(s@.subrange(start as int, i as int) =~= d);
    }
    if i == start || over {
        None
    } else {
        Some(acc)
    }
}

/// The digits of `n` in the given base, most significant first, without
/// leading zeros ("0" for zero).
pub open spec fn radix_text(n: nat, base: nat) -> Seq<char>
    decreases n,
{
    if base < 2 || n < base {
        seq![digit_chars()[n as int]]
    } else {
        proof {
            assert(n / base < n) by (nonlinear_arith)
                requires
                    base >= 2,
                    n >= base,
            ;
        }
        radix_text(n / base, base).push(digit_chars()[(n % base) as int])
    }
}

/// Appends the digits of `n` in the given base.
fn push_radix(out: &mut String, n: u64, base: u64)
    requires
        2 <= base <= 16,
    ensures
        final(out)@ == old(out)@ + radix_text(n as nat, base as nat),
    decreases n,
{
    assert(DIGITS@ =~= digit_chars());
    if n >= base {
        assert(n / base < n) by (nonlinear_arith)
            requires
                base >= 2,
                n >= base,
        ;
        push_radix(out, n / base, base);
    }
    let ghost before = out@;
    push_char(out, DIGITS[(n % base) as usize]);
    proof {
        if n >= base {
            assert(out@ =~= old(out)@ + radix_text(n as nat, base as nat));
        } else {
            assert(n % base == n) by (nonlinear_arith)
                requires
                    n < base,
            ;
            assert(out@ =~= old(out)@ + radix_text(n as nat, base as nat));
        }
    }
}

/// The decimal text of `n`.
pub fn decimal(n: u64) -> (r: String)
    ensures
        r@ == radix_text(n as nat, 10),
{
    let mut s = String::new();
    push_radix(&mut s, n, 10);
    assert(s@ =~= radix_text(n as nat, 10));
    s
}

/// The lower-case hexadecimal text of `n`, as `{:x}` formats it.
pub fn hex(n: u64) -> (r: String)
    ensures
        r@ == radix_text(n as nat, 16),
{
    let mut s = String::new();
    push_radix(&mut s, n, 16);
    assert(s@ =~= radix_text(n as nat, 16));
    s
}

} // verus!
