//! Arithmetic, comparison and rendering of the language's numbers.
//!
//! A number is an IEEE-754 binary64 value, carried everywhere as its 64-bit
//! pattern.  The operations themselves are performed by the software
//! floating-point implementation of the `rustc_apfloat` crate, behind
//! trusted wrappers; each result is named by an uninterpreted spec function,
//! since spelling out IEEE-754 arithmetic here would state nothing that a
//! reader could check.  Rendering is the library's own logic: the shortest
//! decimal string that parses back to the same bit pattern.

use rustc_apfloat::ieee::Double;
use rustc_apfloat::Float;
use std::time::SystemTime;
use std::time::UNIX_EPOCH;
use vstd::prelude::*;

verus! {

pub uninterp spec fn num_add(a: u64, b: u64) -> u64;

pub uninterp spec fn num_sub(a: u64, b: u64) -> u64;

pub uninterp spec fn num_mul(a: u64, b: u64) -> u64;

pub uninterp spec fn num_div(a: u64, b: u64) -> u64;

pub uninterp spec fn num_neg(a: u64) -> u64;

pub uninterp spec fn num_lt(a: u64, b: u64) -> bool;

pub uninterp spec fn num_le(a: u64, b: u64) -> bool;

pub uninterp spec fn num_eq(a: u64, b: u64) -> bool;

pub uninterp spec fn num_fmt(a: u64, precision: u64) -> Seq<char>;

pub uninterp spec fn num_parse(s: Seq<char>) -> Option<u64>;

pub uninterp spec fn num_of_int(n: u64) -> u64;

/// Relies on rustc_apfloat's `Double` addition: IEEE-754 binary64 addition,
/// rounding to nearest, ties to even; a function of the two bit patterns.
#[verifier::external_body]
pub(crate) fn number_add(a: u64, b: u64) -> (r: u64)
    ensures
        r == num_add(a, b),
{
    (Double::from_bits(a as u128) + Double::from_bits(b as u128)).value.to_bits() as u64
}

/// Relies on rustc_apfloat's `Double` subtraction (IEEE-754 binary64).
#[verifier::external_body]
pub(crate) fn number_sub(a: u64, b: u64) -> (r: u64)
    ensures
        r == num_sub(a, b),
{
    (Double::from_bits(a as u128) - Double::from_bits(b as u128)).value.to_bits() as u64
}

/// Relies on rustc_apfloat's `Double` multiplication (IEEE-754 binary64).
#[verifier::external_body]
pub(crate) fn number_mul(a: u64, b: u64) -> (r: u64)
    ensures
        r == num_mul(a, b),
{
    (Double::from_bits(a as u128) * Double::from_bits(b as u128)).value.to_bits() as u64
}

/// Relies on rustc_apfloat's `Double` division (IEEE-754 binary64, so a zero
/// divisor yields an infinity or NaN, never an error).
#[verifier::external_body]
pub(crate) fn number_div(a: u64, b: u64) -> (r: u64)
    ensures
        r == num_div(a, b),
{
    (Double::from_bits(a as u128) / Double::from_bits(b as u128)).value.to_bits() as u64
}

/// Relies on rustc_apfloat's `Double` negation: flips the sign bit.
#[verifier::external_body]
pub(crate) fn number_neg(a: u64) -> (r: u64)
    ensures
        r == num_neg(a),
{
    (-Double::from_bits(a as u128)).to_bits() as u64
}

/// Relies on rustc_apfloat's `Double` ordering: IEEE-754 `<`, which is false
/// whenever either operand is NaN.
#[verifier::external_body]
pub(crate) fn number_lt(a: u64, b: u64) -> (r: bool)
    ensures
        r == num_lt(a, b),
{
    Double::from_bits(a as u128) < Double::from_bits(b as u128)
}

/// Relies on rustc_apfloat's `Double` ordering: IEEE-754 `<=`, false
/// whenever either operand is NaN.
#[verifier::external_body]
pub(crate) fn number_le(a: u64, b: u64) -> (r: bool)
    ensures
        r == num_le(a, b),
{
    Double::from_bits(a as u128) <= Double::from_bits(b as u128)
}

/// Relies on rustc_apfloat's `Double` equality: IEEE-754 equality, so NaN
/// compares unequal to itself and the two zeroes compare equal.
#[verifier::external_body]
pub(crate) fn number_eq(a: u64, b: u64) -> (r: bool)
    ensures
        r == num_eq(a, b),
{
    Double::from_bits(a as u128) == Double::from_bits(b as u128)
}

/// Relies on rustc_apfloat's decimal rendering of a `Double` at a given
/// number of significant digits; a function of the two arguments.  The
/// formatter width is the number of zeros it may insert before falling
/// back to scientific notation; 400 covers every finite binary64 value,
/// and the formatter writes directly, so no padding ever happens.
#[verifier::external_body]
pub(crate) fn number_fmt(a: u64, precision: u64) -> (r: String)
    ensures
        r@ == num_fmt(a, precision),
{
    format!("{:1$.2$}", Double::from_bits(a as u128), 400usize, precision as usize)
}

/// Relies on rustc_apfloat's decimal parsing of a `Double` (correctly
/// rounded); a function of the text alone.
#[verifier::external_body]
pub(crate) fn number_parse(s: &str) -> (r: Option<u64>)
    ensures
        r == num_parse(s@),
{
    match s.parse::<Double>() {
        Ok(d) => Some(d.to_bits() as u64),
        Err(_) => None,
    }
}

/// Relies on rustc_apfloat's integer conversion: the binary64 value nearest
/// to the given integer.
#[verifier::external_body]
pub(crate) fn number_from_int(n: u64) -> (r: u64)
    ensures
        r == num_of_int(n),
{
    Double::from_u128(n as u128).value.to_bits() as u64
}

/// Relies on std's `SystemTime`: milliseconds since the Unix epoch, or 0 for
/// a clock set before it.  The result depends on the wall clock, so nothing
/// is promised of it.
#[verifier::external_body]
pub(crate) fn now_unix_millis() -> u64 {
    match SystemTime::now().duration_since(UNIX_EPOCH) {
        Ok(d) => d.as_millis() as u64,
        Err(_) => 0,
    }
}

/// The most significant digits a binary64 value can need to be read back
/// exactly.
pub const MAX_DIGITS: u64 = 17;

/// The bit pattern of positive infinity.
pub const POS_INF_BITS: u64 = 0x7FF0_0000_0000_0000;

/// The bit pattern of negative infinity.
pub const NEG_INF_BITS: u64 = 0xFFF0_0000_0000_0000;

/// Whether the text contains the character.
fn text_contains(s: &str, c: char) -> (r: bool)
    ensures
        r == s@.contains(c),
{
    let n = s.unicode_len();
    let mut i: usize = 0;
    while i < n
        invariant
            n == s@.len(),
            i <= n,
            forall|j: int| 0 <= j < i ==> s@[j] != c,
        decreases n - i,
    {
        if s.get_char(i) == c {
            proof {
                assert(s@[i as int] == c);
            }
            return true;
        }
        i = i + 1;
    }
    false
}

/// The decimal digit a character denotes.
pub open spec fn digit_of(c: char) -> Option<int> {
    if c == '0' {
        Some(0int)
    } else if c == '1' {
        Some(1int)
    } else if c == '2' {
        Some(2int)
    } else if c == '3' {
        Some(3int)
    } else if c == '4' {
        Some(4int)
    } else if c == '5' {
        Some(5int)
    } else if c == '6' {
        Some(6int)
    } else if c == '7' {
        Some(7int)
    } else if c == '8' {
        Some(8int)
    } else if c == '9' {
        Some(9int)
    } else {
        None
    }
}

/// The value of a non-empty run of decimal digits.
pub open spec fn digits_value(s: Seq<char>) -> Option<int>
    decreases s.len(),
{
    if s.len() == 0 {
        None
    } else if s.len() == 1 {
        digit_of(s[0])
    } else {
        match digits_value(s.drop_last()) {
            None => None,
            Some(v) => match digit_of(s.last()) {
                None => None,
                Some(d) => Some(v * 10 + d),
            },
        }
    }
}

/// The first position of `c` in `s` at or after `from`.
pub open spec fn find_char_from(s: Seq<char>, c: char, from: int) -> Option<int>
    decreases s.len() - from,
{
    if !(0 <= from < s.len()) {
        None
    } else if s[from] == c {
        Some(from)
    } else {
        find_char_from(s, c, from + 1)
    }
}

/// The significant digits of a scientific mantissa `D.R`: the leading digit
/// and the fraction digits, with the single filler zero of a one-digit
/// mantissa dropped (the formatter never ends real digits in zero).
pub open spec fn mantissa_digits(m: Seq<char>) -> Option<Seq<char>> {
    if m.len() < 3 || m[1] != '.' || digit_of(m[0]) is None {
        None
    } else if m.len() == 3 && m[2] == '0' {
        Some(m.subrange(0, 1))
    } else if forall|i: int| 2 <= i < m.len() ==> digit_of(#[trigger] m[i]) is Some {
        Some(m.subrange(0, 1) + m.subrange(2, m.len() as int))
    } else {
        None
    }
}

/// A run of `n` zero characters.
pub open spec fn zeros(n: int) -> Seq<char> {
    Seq::new(n as nat, |i| '0')
}

/// A scientific rendering `D.RE+k`, optionally signed, rewritten in plain
/// positional notation: the sign, the significant digits, and the zeros
/// the exponent calls for.
pub open spec fn sci_to_plain_spec(s: Seq<char>) -> Option<Seq<char>> {
    if s.len() >= 1000 {
        None
    } else {
        sci_to_plain_at(s)
    }
}

/// The body of the rewrite, for texts of sane length.
pub open spec fn sci_to_plain_at(s: Seq<char>) -> Option<Seq<char>> {
    let neg = s.len() > 0 && s[0] == '-';
    let off: int = if neg {
        1
    } else {
        0
    };
    match find_char_from(s, 'E', off) {
        None => None,
        Some(ei) => {
            if ei + 2 >= s.len() || s[ei + 1] != '+' || s.len() - (ei + 2) > 3 {
                None
            } else {
                match digits_value(s.subrange(ei + 2, s.len() as int)) {
                    None => None,
                    Some(k) => match mantissa_digits(s.subrange(off, ei)) {
                        None => None,
                        Some(ds) => if k <= 400 && k + 1 >= ds.len() {
                            Some(s.subrange(0, off) + ds + zeros(k + 1 - ds.len()))
                        } else {
                            None
                        },
                    },
                }
            }
        },
    }
}

/// A run holding any non-digit has no value.
proof fn lemma_digits_value_bad(s: Seq<char>, b: int)
    requires
        0 <= b < s.len(),
        digit_of(s[b]) is None,
    ensures
        digits_value(s) is None,
    decreases s.len(),
{
    if s.len() > 1 && b < s.len() - 1 {
        lemma_digits_value_bad(s.drop_last(), b);
    }
}

/// Walking past non-matches pins down where the first match stands.
proof fn lemma_find_char_from(s: Seq<char>, c: char, lo: int, i: int)
    requires
        0 <= lo <= i <= s.len(),
        forall|m: int| lo <= m < i ==> s[m] != c,
        i < s.len() ==> s[i] == c,
    ensures
        find_char_from(s, c, lo) == if i < s.len() {
            Some(i)
        } else {
            None::<int>
        },
    decreases i - lo,
{
    if lo < i {
        lemma_find_char_from(s, c, lo + 1, i);
    }
}

/// The decimal digit a character denotes.
fn digit_exec(c: char) -> (r: Option<u64>)
    ensures
        match digit_of(c) {
            Some(d) => r matches Some(v) && v as int == d,
            None => r is None,
        },
{
    if c == '0' {
        Some(0)
    } else if c == '1' {
        Some(1)
    } else if c == '2' {
        Some(2)
    } else if c == '3' {
        Some(3)
    } else if c == '4' {
        Some(4)
    } else if c == '5' {
        Some(5)
    } else if c == '6' {
        Some(6)
    } else if c == '7' {
        Some(7)
    } else if c == '8' {
        Some(8)
    } else if c == '9' {
        Some(9)
    } else {
        None
    }
}

/// Rewrites a scientific rendering in plain positional notation.
#[verifier::loop_isolation(false)]
#[verifier::rlimit(60)]
fn sci_to_plain(s: &str) -> (r: Option<String>)
    ensures
        match sci_to_plain_spec(s@) {
            Some(p) => r matches Some(out) && out@ == p,
            None => r is None,
        },
{
    let n = s.unicode_len();
    if n >= 1000 {
        return None;
    }
    let neg = n > 0 && s.get_char(0) == '-';
    let off: usize = if neg {
        1
    } else {
        0
    };
    let mut i = off;
    while i < n && s.get_char(i) != 'E'
        invariant
            n == s@.len(),
            n < 1000,
            off <= i <= n,
            forall|m: int| off <= m < i ==> s@[m] != 'E',
        decreases n - i,
    {
        i = i + 1;
    }
    proof {
        lemma_find_char_from(s@, 'E', off as int, i as int);
    }
    if i >= n {
        return None;
    }
    let ei = i;
    if ei + 2 >= n || s.get_char(ei + 1) != '+' || n - (ei + 2) > 3 {
        return None;
    }
    let ghost exrun = s@.subrange(ei + 2, n as int);
    let first = match digit_exec(s.get_char(ei + 2)) {
        Some(d) => d,
        None => {
            proof {
                assert(ei + 2 < n);
                assert(exrun.len() == n - (ei + 2));
                assert(0 < exrun.len());
                assert(exrun[0] == s@[ei + 2]);
                lemma_digits_value_bad(exrun, 0);
            }
            return None;
        },
    };
    let mut k: u64 = first;
    let mut j = ei + 3;
    proof {
        assert(s@.subrange(ei + 2, j as int) =~= seq![s@[ei + 2]]);
    }
    while j < n
        invariant
            n == s@.len(),
            ei + 3 <= j <= n,
            n - (ei + 2) <= 3,
            j - (ei + 2) == 1 ==> k < 10,
            j - (ei + 2) == 2 ==> k < 100,
            k < 1000,
            digits_value(s@.subrange(ei + 2, j as int)) == Some(k as int),
        decreases n - j,
    {
        let d = match digit_exec(s.get_char(j)) {
            Some(d) => d,
            None => {
                proof {
                    let ghost b = j as int - (ei + 2);
                    assert(exrun.len() == n - (ei + 2));
                    assert(0 <= b < exrun.len());
                    assert(exrun[b] == s@[j as int]);
                    lemma_digits_value_bad(exrun, b);
                }
                return None;
            },
        };
        proof {
            assert(s@.subrange(ei + 2, j + 1).last() == s@[j as int]);
            assert(s@.subrange(ei + 2, j + 1).drop_last() =~= s@.subrange(ei + 2, j as int));
        }
        k = k * 10 + d;
        j = j + 1;
    }
    proof {
        assert(exrun =~= s@.subrange(ei + 2, j as int));
    }
    if k > 400 {
        return None;
    }
    let ghost m = s@.subrange(off as int, ei as int);
    let m_len = ei - off;
    if m_len < 3 {
        return None;
    }
    proof {
        assert(m[1] == s@[off + 1]);
        assert(m[0] == s@[off as int]);
        assert(m.len() == m_len);
    }
    if s.get_char(off + 1) != '.' {
        return None;
    }
    if digit_exec(s.get_char(off)).is_none() {
        return None;
    }
    let filler = m_len == 3 && s.get_char(off + 2) == '0';
    proof {
        if m_len == 3 {
            assert(m[2] == s@[off + 2]);
        }
    }
    let ds_len: usize;
    if filler {
        ds_len = 1;
    } else {
        let mut t = off + 2;
        while t < ei
            invariant
                n == s@.len(),
                ei <= n,
                off + 2 <= t <= ei,
                forall|q: int| off + 2 <= q < t ==> digit_of(#[trigger] s@[q]) is Some,
            decreases ei - t,
        {
            if digit_exec(s.get_char(t)).is_none() {
                proof {
                    let ghost b = t as int - off as int;
                    assert(2 <= b < m.len());
                    assert(m[b] == s@[t as int]);
                    assert(digit_of(m[b]) is None);
                    if m.len() == 3 {
                        assert(m[2] == s@[off + 2]);
                        assert(!(m[2] == '0'));
                    }
                    assert(mantissa_digits(m) is None);
                }
                return None;
            }
            t = t + 1;
        }
        proof {
            assert forall|q: int| 2 <= q < m.len() implies digit_of(#[trigger] m[q]) is Some by {
                assert(m[q] == s@[off + q]);
            }
        }
        ds_len = m_len - 1;
    }
    let ghost ds = mantissa_digits(m).unwrap();
    proof {
        if filler {
            assert(mantissa_digits(m) == Some(m.subrange(0, 1)));
        } else {
            assert(mantissa_digits(m) == Some(m.subrange(0, 1) + m.subrange(2, m.len() as int)));
        }
        assert(ds.len() == ds_len);
    }
    if (k as usize) + 1 < ds_len {
        return None;
    }
    let zc = (k as usize) + 1 - ds_len;
    let mut out: String = s.substring_char(0, off).to_owned();
    out.append(s.substring_char(off, off + 1));
    if !filler {
        out.append(s.substring_char(off + 2, ei));
    }
    proof {
        assert(s@.subrange(off as int, off + 1) =~= m.subrange(0, 1));
        if !filler {
            assert(s@.subrange(off + 2, ei as int) =~= m.subrange(2, m.len() as int));
        }
        assert(zeros(0) =~= Seq::<char>::empty());
        assert(out@ =~= s@.subrange(0, off as int) + ds + zeros(0));
    }
    let mut z: usize = 0;
    while z < zc
        invariant
            out@ == s@.subrange(0, off as int) + ds + zeros(z as int),
            z <= zc,
        decreases zc - z,
    {
        out.append("0");
        proof {
            reveal_strlit("0");
            assert(zeros(z + 1) =~= zeros(z as int).push('0'));
            assert(out@ =~= s@.subrange(0, off as int) + ds + zeros(z + 1));
        }
        z = z + 1;
    }
    proof {
        assert(zc as int == k + 1 - ds.len());
    }
    Some(out)
}

/// The rendering of a number from the first precision at or above `p` whose
/// output parses back to the same bit pattern (falling back to the full 17
/// significant digits).
pub open spec fn num_text_from(bits: u64, p: int) -> Seq<char>
    decreases 17 - p,
{
    if p < 1 || p >= 17 {
        num_fmt(bits, 17)
    } else if num_parse(num_fmt(bits, p as u64)) == Some(bits) {
        num_fmt(bits, p as u64)
    } else {
        num_text_from(bits, p + 1)
    }
}

/// The rendering of a number: infinities as `inf`/`-inf`; otherwise the
/// shortest decimal form that denotes exactly this binary64 value, spelled
/// in plain positional notation — a shortest form that came out in
/// scientific notation (a large integer) is rewritten as its significant
/// digits followed by the zeros the exponent calls for.
pub open spec fn num_text(bits: u64) -> Seq<char> {
    if bits == POS_INF_BITS {
        "inf"@
    } else if bits == NEG_INF_BITS {
        "-inf"@
    } else {
        let s = num_text_from(bits, 1);
        if s.contains('E') {
            match sci_to_plain_spec(s) {
                Some(p) => p,
                None => s,
            }
        } else {
            s
        }
    }
}

/// The shortest decimal string that parses back to the very same binary64
/// bit pattern.
fn shortest_digits(bits: u64) -> (r: String)
    ensures
        r@ == num_text_from(bits, 1),
{
    let mut p: u64 = 1;
    while p < MAX_DIGITS
        invariant
            1 <= p <= 17,
            forall|q: int| 1 <= q < p ==> num_parse(#[trigger] num_fmt(bits, q as u64)) != Some(bits),
        decreases 17 - p,
    {
        let s = number_fmt(bits, p);
        if let Some(back) = number_parse(s.as_str()) {
            if back == bits {
                proof {
                    lemma_num_text_from(bits, 1, p as int);
                }
                return s;
            }
        }
        p = p + 1;
    }
    proof {
        lemma_num_text_from(bits, 1, 17);
    }
    number_fmt(bits, MAX_DIGITS)
}

/// Renders a number as the print statement shows it: `inf`/`-inf` for the
/// infinities, otherwise the shortest decimal string that parses back to
/// the very same binary64 bit pattern, in plain positional notation.
pub fn number_text(bits: u64) -> (r: String)
    ensures
        r@ == num_text(bits),
{
    if bits == POS_INF_BITS {
        return "inf".to_owned();
    }
    if bits == NEG_INF_BITS {
        return "-inf".to_owned();
    }
    let short = shortest_digits(bits);
    if text_contains(short.as_str(), 'E') {
        match sci_to_plain(short.as_str()) {
            Some(plain) => plain,
            None => short,
        }
    } else {
        short
    }
}

/// If no precision below `p` round-trips, the shortest rendering is the one
/// found at `p` (or the full-precision fallback at 17).
proof fn lemma_num_text_from(bits: u64, lo: int, p: int)
    requires
        1 <= lo <= p <= 17,
        forall|q: int| lo <= q < p ==> num_parse(#[trigger] num_fmt(bits, q as u64)) != Some(bits),
        p < 17 ==> num_parse(num_fmt(bits, p as u64)) == Some(bits),
    ensures
        num_text_from(bits, lo) == if p < 17 {
            num_fmt(bits, p as u64)
        } else {
            num_fmt(bits, 17)
        },
    decreases p - lo,
{
    if lo < p {
        lemma_num_text_from(bits, lo + 1, p);
    }
}

} // verus!
