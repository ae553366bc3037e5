//! Decimal notation: integers read and written, and numbers of the binary64
//! format written with a fixed count of digits behind the point.

use crate::binary64::{
    lemma_pow2_monotonic, lemma_powers, lemma_round_half_even_by, lemma_round_half_even_scaled, one_units,
    power_of_two, round_half_even, Number, Parts, Real,
};
use crate::text::chars_of;
use vstd::arithmetic::div_mod::lemma_fundamental_div_mod_converse;
use vstd::arithmetic::power2::{lemma_pow2_adds, lemma_pow2_pos, lemma_pow2_unfold, pow2};
use vstd::prelude::*;

verus! {

// ---------------------------------------------------------------------------
// Integers
// ---------------------------------------------------------------------------

/// The character of a decimal digit.
pub open spec fn digit(d: nat) -> char {
    (48 + d) as char
}

/// The decimal notation of an integer.
pub open spec fn decimal_of(n: nat) -> Seq<char>
    decreases n,
{
    if n < 10 {
        seq![digit(n)]
    } else {
        decimal_of(n / 10).push(digit(n % 10))
    }
}

/// The decimal notation of an integer with zeros before it, `width` digits or more.
pub open spec fn zero_filled(n: nat, width: nat) -> Seq<char> {
    let plain = decimal_of(n);
    if plain.len() >= width {
        plain
    } else {
        Seq::new((width - plain.len()) as nat, |i: int| '0') + plain
    }
}

/// The character is a decimal digit.
pub open spec fn is_digit(c: char) -> bool {
    '0' <= c <= '9'
}

/// The integer that a row of decimal digits stands for.
pub open spec fn digits_value(s: Seq<char>) -> nat
    decreases s.len(),
{
    if s.len() == 0 {
        0
    } else {
        10 * digits_value(s.drop_last()) + (s.last() as nat - 48) as nat
    }
}

/// All characters are decimal digits.
pub open spec fn all_digits(s: Seq<char>) -> bool {
    forall|i: int| 0 <= i < s.len() ==> is_digit(#[trigger] s[i])
}

/// A text without the one plus sign that may stand before an integer.
pub open spec fn unsigned(s: Seq<char>) -> Seq<char> {
    if s.len() > 0 && s[0] == '+' {
        s.skip(1)
    } else {
        s
    }
}

/// The integer, up to `max`, that a text stands for: one or more decimal digits,
/// with or without a plus sign before them.
pub open spec fn parsed(s: Seq<char>, max: nat) -> Option<nat> {
    let digits = unsigned(s);
    if digits.len() > 0 && all_digits(digits) && digits_value(digits) <= max {
        Some(digits_value(digits))
    } else {
        None
    }
}

fn digit_char(d: u8) -> (c: char)
    requires
        d < 10,
    ensures
        c == digit(d as nat),
{
    (48 + d) as char
}

/// The number of a row of digits, the last of them first.
spec fn rows_value(d: Seq<u8>) -> nat
    decreases d.len(),
{
    if d.len() == 0 {
        0
    } else {
        d[0] as nat + 10 * rows_value(d.skip(1))
    }
}

/// A row of digits, the last of them first, that does not end in a zero.
spec fn is_row(d: Seq<u8>) -> bool {
    &&& d.len() > 0
    &&& forall|i: int| 0 <= i < d.len() ==> #[trigger] d[i] < 10
    &&& (d.len() > 1 ==> d.last() > 0)
}

/// The text of a row of digits, the last of them first.
spec fn row_text(d: Seq<u8>) -> Seq<char> {
    Seq::new(d.len(), |i: int| digit(d[d.len() - 1 - i] as nat))
}

proof fn lemma_row_text(d: Seq<u8>)
    requires
        is_row(d),
    ensures
        row_text(d) == decimal_of(rows_value(d)),
        d.len() > 1 ==> rows_value(d) >= 10,
    decreases d.len(),
{
    let rest = d.skip(1);
    if d.len() == 1 {
        assert(rest =~= Seq::empty());
        assert(row_text(d) =~= seq![digit(d[0] as nat)]);
    } else {
        assert forall|i: int| 0 <= i < rest.len() implies #[trigger] rest[i] < 10 by {
            assert(rest[i] == d[i + 1]);
        }
        assert(rest.last() == d.last());
        lemma_row_text(rest);
        if rest.len() == 1 {
            assert(rest.skip(1) =~= Seq::empty());
        }
        assert(row_text(d) =~= row_text(rest).push(digit(d[0] as nat)));
    }
}

/// The digits of an integer, the last of them first.
fn rows(n: u128) -> (d: Vec<u8>)
    ensures
        is_row(d@),
        rows_value(d@) == n,
    decreases n,
{
    let mut d: Vec<u8> = Vec::new();
    let low: u8 = (n % 10) as u8;
    d.push(low);
    if n >= 10 {
        let mut rest: Vec<u8> = rows(n / 10);
        let ghost above = rest@;
        d.append(&mut rest);
        proof {
            assert(d@ =~= seq![low] + above);
            assert(d@.skip(1) =~= above);
            assert(d@.last() == above.last());
            assert forall|i: int| 0 <= i < d@.len() implies #[trigger] d@[i] < 10 by {
                if i > 0 {
                    assert(d@[i] == above[i - 1]);
                }
            }
            if above.len() == 1 {
                assert(above.skip(1) =~= Seq::empty());
                assert(rows_value(above.skip(1)) == 0);
            }
        }
    } else {
        proof {
            assert(d@.skip(1) =~= Seq::empty());
            assert(rows_value(d@.skip(1)) == 0);
        }
    }
    d
}

/// The text of a row of digits, the last of them first.
fn written(d: &Vec<u8>) -> (s: String)
    requires
        is_row(d@),
    ensures
        s@ == decimal_of(rows_value(d@)),
{
    let mut s = String::new();
    let mut i: usize = d.len();
    while i > 0
        invariant
            i <= d.len(),
            is_row(d@),
            s@ == row_text(d@).take(d.len() - i),
        decreases i,
    {
        i = i - 1;
        let ghost before = s@;
        s.push(digit_char(d[i]));
        proof {
            assert(s@ =~= row_text(d@).take(d.len() - i));
        }
    }
    proof {
        assert(row_text(d@).take(d.len() as int) =~= row_text(d@));
        lemma_row_text(d@);
    }
    s
}

/// The decimal notation of an integer.
pub fn decimal(n: u128) -> (s: String)
    ensures
        s@ == decimal_of(n as nat),
{
    written(&rows(n))
}

/// The decimal notation of an integer with zeros before it.
pub fn decimal_filled(n: u128, width: usize) -> (s: String)
    ensures
        s@ == zero_filled(n as nat, width as nat),
{
    let plain = decimal(n);
    let count: usize = plain.as_str().unicode_len();
    if count >= width {
        return plain;
    }
    let mut s = String::new();
    let mut i: usize = 0;
    while i < width - count
        invariant
            i <= width - count,
            count < width,
            s@ == Seq::new(i as nat, |k: int| '0'),
        decreases width - count - i,
    {
        s.push('0');
        i = i + 1;
        proof {
            assert(s@ =~= Seq::new(i as nat, |k: int| '0'));
        }
    }
    s.append(plain.as_str());
    s
}

/// The integer, up to `max`, that a text stands for.
pub fn parse(s: &str, max: u64) -> (r: Option<u64>)
    ensures
        match r {
            Some(n) => parsed(s@, max as nat) == Some(n as nat),
            None => parsed(s@, max as nat) is None,
        },
{
    let v: Vec<char> = chars_of(s);
    let start: usize = if v.len() > 0 && v[0] == '+' {
        1
    } else {
        0
    };
    let ghost digits = unsigned(v@);
    proof {
        assert(digits =~= v@.skip(start as int));
    }
    if v.len() == start {
        return None;
    }
    let mut value: u128 = 0;
    let mut i: usize = start;
    proof {
        assert(digits.take(0).len() == 0);
    }
    while i < v.len()
        invariant
            start <= i <= v.len(),
            digits == v@.skip(start as int),
            digits == unsigned(s@),
            all_digits(digits.take(i - start)),
            value == digits_value(digits.take(i - start)),
            value <= max,
        decreases v.len() - i,
    {
        let c: char = v[i];
        proof {
            assert(digits.take(i - start + 1).drop_last() =~= digits.take(i - start));
            assert(digits.take(i - start + 1).last() == c);
        }
        if c < '0' || c > '9' {
            proof {
                assert(digits[i - start] == c);
            }
            return None;
        }
        let d: u32 = c as u32 - 48;
        value = 10 * value + d as u128;
        i = i + 1;
        proof {
            assert forall|k: int| 0 <= k < i - start implies is_digit(#[trigger] digits.take(i - start)[k]) by {
                if k < i - start - 1 {
                    assert(digits.take(i - start - 1)[k] == digits.take(i - start)[k]);
                }
            }
        }
        if value > max as u128 {
            proof {
                lemma_prefix_value(digits, i - start);
            }
            return None;
        }
    }
    proof {
        assert(digits.take(v.len() - start) =~= digits);
    }
    Some(value as u64)
}

/// A row of digits stands for no less than its first digits do.
proof fn lemma_prefix_value(s: Seq<char>, n: int)
    requires
        0 <= n <= s.len(),
    ensures
        digits_value(s.take(n)) <= digits_value(s),
    decreases s.len() - n,
{
    if n == s.len() {
        assert(s.take(n) =~= s);
    } else {
        assert(s.drop_last().take(n) =~= s.take(n));
        lemma_prefix_value(s.drop_last(), n);
    }
}

/// The number in a text, or zero where it holds none.
pub open spec fn count_in(s: Seq<char>) -> nat {
    match parsed(s, u64::MAX as nat) {
        Some(n) => n,
        None => 0,
    }
}

/// The number in a text, or zero where it holds none.
pub fn count(s: &str) -> (n: u64)
    ensures
        n == count_in(s@),
{
    match parse(s, u64::MAX) {
        Some(n) => n,
        None => 0,
    }
}

/// What is written in decimal notation is read back.
pub proof fn law_decimal_round_trip(n: nat, max: nat)
    requires
        n <= max,
    ensures
        parsed(decimal_of(n), max) == Some(n),
{
    lemma_decimal_digits(n);
    assert(unsigned(decimal_of(n)) == decimal_of(n)) by {
        assert(is_digit(decimal_of(n)[0]));
    }
}

/// Decimal notation is made of digits, and stands for the integer.
pub proof fn lemma_decimal_digits(n: nat)
    ensures
        decimal_of(n).len() > 0,
        all_digits(decimal_of(n)),
        digits_value(decimal_of(n)) == n,
    decreases n,
{
    let s = decimal_of(n);
    assert(s.last() == digit(n % 10));
    assert(digit(n % 10) as nat == 48 + n % 10);
    if n < 10 {
        assert(s.drop_last() =~= Seq::empty());
        assert(digits_value(s.drop_last()) == 0);
    } else {
        lemma_decimal_digits(n / 10);
        assert(s.drop_last() =~= decimal_of(n / 10));
        assert forall|i: int| 0 <= i < s.len() implies is_digit(#[trigger] s[i]) by {
            if i < s.len() - 1 {
                assert(s[i] == decimal_of(n / 10)[i]);
            }
        }
    }
}

// ---------------------------------------------------------------------------
// Fixed point
// ---------------------------------------------------------------------------

/// A power of ten.
pub open spec fn ten_to(p: nat) -> nat
    decreases p,
{
    if p == 0 {
        1
    } else {
        10 * ten_to((p - 1) as nat)
    }
}

/// `k / 10^p` with `p` digits behind the point.
pub open spec fn with_point(k: nat, p: nat) -> Seq<char> {
    if p == 0 {
        decimal_of(k)
    } else {
        decimal_of(k / ten_to(p)).push('.') + zero_filled(k % ten_to(p), p)
    }
}

/// A number written with `p` digits behind the point: the nearest such decimal
/// fraction, the one with the even last digit of two equally near.
pub open spec fn fixed_of(x: Number, p: nat) -> Seq<char> {
    match x {
        Number::Nan => "NaN"@,
        Number::Infinite { negative } => if negative {
            "-inf"@
        } else {
            "inf"@
        },
        Number::Finite { negative, .. } => {
            let body = with_point(round_half_even(x.units() * ten_to(p), one_units()), p);
            if negative {
                seq!['-'] + body
            } else {
                body
            }
        },
    }
}

/// `10^p`, for up to nine digits.
fn power_of_ten(p: usize) -> (r: u128)
    requires
        p <= 9,
    ensures
        r == ten_to(p as nat),
        1 <= r <= 1_000_000_000,
{
    proof {
        reveal_with_fuel(ten_to, 10);
    }
    match p {
        0 => 1,
        1 => 10,
        2 => 100,
        3 => 1_000,
        4 => 10_000,
        5 => 100_000,
        6 => 1_000_000,
        7 => 10_000_000,
        8 => 100_000_000,
        _ => 1_000_000_000,
    }
}

/// Twice the integer of a row of digits, the last of them first.
fn doubled(d: &Vec<u8>) -> (r: Vec<u8>)
    requires
        is_row(d@),
        rows_value(d@) > 0,
    ensures
        is_row(r@),
        rows_value(r@) == 2 * rows_value(d@),
{
    let mut r: Vec<u8> = Vec::new();
    let mut carry: u8 = 0;
    let mut i: usize = 0;
    proof {
        assert(d@.skip(0) =~= d@);
        assert(rows_value(r@) == 0);
        assert(ten_to(0) * (carry + 2 * rows_value(d@)) == 2 * rows_value(d@)) by (nonlinear_arith)
            requires
                ten_to(0) == 1,
                carry == 0,
        ;
    }
    while i < d.len()
        invariant
            i == r.len() <= d.len(),
            is_row(d@),
            carry <= 1,
            forall|k: int| 0 <= k < r.len() ==> #[trigger] r@[k] < 10,
            rows_value(r@) + ten_to(i as nat) * (carry + 2 * rows_value(d@.skip(i as int))) == 2 * rows_value(d@),
            i == d.len() && d.len() > 1 ==> r@.last() > 0 || carry > 0,
            i == d.len() && d.len() == 1 ==> r@.last() > 0 || carry > 0 || d@[0] == 0,
        decreases d.len() - i,
    {
        let t: u8 = 2 * d[i] + carry;
        let low: u8 = t % 10;
        let high: u8 = t / 10;
        let ghost before = r@;
        r.push(low);
        proof {
            let rest = rows_value(d@.skip(i as int));
            let above = rows_value(d@.skip(i + 1));
            assert(d@.skip(i as int).skip(1) =~= d@.skip(i + 1));
            assert(rest == d@[i as int] + 10 * above);
            lemma_rows_push(before, low);
            let unit = ten_to(i as nat);
            assert(unit * (carry + 2 * rest) == unit * low + (10 * unit) * (high + 2 * above)) by (nonlinear_arith)
                requires
                    carry + 2 * rest == low + 10 * high + 20 * above,
            ;
        }
        carry = high;
        i = i + 1;
    }
    proof {
        assert(d@.skip(i as int) =~= Seq::empty());
        assert(rows_value(d@.skip(i as int)) == 0);
        if d.len() == 1 {
            assert(d@.skip(1) =~= Seq::empty());
        }
    }
    if carry > 0 {
        proof {
            lemma_rows_push(r@, carry);
            assert(ten_to(i as nat) * (carry + 2 * 0) == ten_to(i as nat) * carry);
        }
        r.push(carry);
    } else {
        proof {
            assert(ten_to(i as nat) * (0 + 2 * 0) == 0) by (nonlinear_arith);
        }
    }
    r
}

proof fn lemma_rows_push(d: Seq<u8>, x: u8)
    ensures
        rows_value(d.push(x)) == rows_value(d) + ten_to(d.len()) * x,
    decreases d.len(),
{
    if d.len() == 0 {
        assert(d.push(x).skip(1) =~= Seq::empty());
        assert(rows_value(d.push(x).skip(1)) == 0);
        assert(ten_to(0) * x == x) by (nonlinear_arith)
            requires
                ten_to(0) == 1,
        ;
    } else {
        assert(d.push(x).skip(1) =~= d.skip(1).push(x));
        lemma_rows_push(d.skip(1), x);
        let unit = ten_to((d.len() - 1) as nat);
        assert(10 * (rows_value(d.skip(1)) + unit * x) == 10 * rows_value(d.skip(1)) + (10 * unit) * x)
            by (nonlinear_arith);
    }
}

/// The decimal notation of `m * 2^n`.
fn decimal_shifted(m: u64, n: u32) -> (s: String)
    requires
        m > 0,
    ensures
        s@ == decimal_of(m as nat * pow2(n as nat)),
{
    let mut d: Vec<u8> = rows(m as u128);
    let mut i: u32 = 0;
    proof {
        lemma_powers();
    }
    while i < n
        invariant
            i <= n,
            m > 0,
            is_row(d@),
            rows_value(d@) == m as nat * pow2(i as nat),
        decreases n - i,
    {
        proof {
            lemma_pow2_pos(i as nat);
            lemma_pow2_unfold((i + 1) as nat);
            assert(m as nat * pow2(i as nat) > 0) by (nonlinear_arith)
                requires
                    m > 0,
                    pow2(i as nat) > 0,
            ;
            assert(m as nat * pow2((i + 1) as nat) == 2 * (m as nat * pow2(i as nat))) by (nonlinear_arith)
                requires
                    pow2((i + 1) as nat) == 2 * pow2(i as nat),
            ;
        }
        d = doubled(&d);
        i = i + 1;
    }
    written(&d)
}

/// A number written with `precision` digits behind the point.
pub fn fixed(x: &Real, precision: usize) -> (s: String)
    requires
        precision <= 9,
    ensures
        s@ == fixed_of(x@, precision as nat),
{
    match x.parts() {
        Parts::Nan => "NaN".to_owned(),
        Parts::Infinite { negative } => if negative {
            "-inf".to_owned()
        } else {
            "inf".to_owned()
        },
        Parts::Finite { negative, mantissa, scale } => {
            let body: String = if scale >= 1074 {
                proof {
                    lemma_whole_number(mantissa as nat, scale as nat, precision as nat);
                }
                let mut text: String = decimal_shifted(mantissa, scale - 1074);
                if precision > 0 {
                    text.push('.');
                    text.append(decimal_filled(0, precision).as_str());
                }
                text
            } else {
                let k: u128 = scaled_to_integer(mantissa, scale, precision);
                if precision == 0 {
                    decimal(k)
                } else {
                    let unit: u128 = power_of_ten(precision);
                    let mut text: String = decimal(k / unit);
                    text.push('.');
                    text.append(decimal_filled(k % unit, precision).as_str());
                    text
                }
            };
            if negative {
                let mut text = String::new();
                text.push('-');
                text.append(body.as_str());
                proof {
                    assert(text@ =~= seq!['-'] + body@);
                }
                text
            } else {
                body
            }
        },
    }
}

/// The integer nearest to `10^precision` times the number.
fn scaled_to_integer(m: u64, scale: u32, precision: usize) -> (k: u128)
    requires
        m < crate::binary64::MANTISSA_LIMIT,
        scale < 1074,
        precision <= 9,
    ensures
        k == round_half_even((m as nat * pow2(scale as nat)) * ten_to(precision as nat), one_units()),
{
    let down: u32 = 1074 - scale;
    let unit: u128 = power_of_ten(precision);
    proof {
        assert(m * unit <= 0x20_0000_0000_0000 * 1_000_000_000) by (nonlinear_arith)
            requires
                m < 0x20_0000_0000_0000,
                unit <= 1_000_000_000,
        ;
    }
    let v: u128 = m as u128 * unit;
    proof {
        lemma_pow2_adds(down as nat, scale as nat);
        lemma_pow2_pos(down as nat);
        lemma_pow2_pos(scale as nat);
        assert((m as nat * pow2(scale as nat)) * ten_to(precision as nat) == v as nat * pow2(scale as nat))
            by (nonlinear_arith)
            requires
                v == m * ten_to(precision as nat),
        ;
        lemma_round_half_even_scaled(v as nat, pow2(down as nat), pow2(scale as nat));
        lemma_powers();
    }
    if down > 127 {
        proof {
            lemma_pow2_monotonic(128, down as nat);
            assert(0 * pow2(down as nat) == 0) by (nonlinear_arith);
            lemma_round_half_even_by(v as nat, pow2(down as nat), 0, v as nat);
        }
        0
    } else {
        let d: u128 = power_of_two(down);
        let quotient: u128 = v / d;
        let rest: u128 = v % d;
        let half: u128 = d / 2;
        proof {
            lemma_pow2_unfold(down as nat);
            assert(quotient <= v) by (nonlinear_arith)
                requires
                    quotient == v / d,
                    d >= 1,
            ;
        }
        if rest > half || (rest == half && quotient % 2 == 1) {
            quotient + 1
        } else {
            quotient
        }
    }
}

/// An integer has only zeros behind the point.
proof fn lemma_whole_number(m: nat, scale: nat, p: nat)
    requires
        scale >= 1074,
    ensures
        with_point(round_half_even((m * pow2(scale)) * ten_to(p), one_units()), p) == (if p == 0 {
            decimal_of(m * pow2((scale - 1074) as nat))
        } else {
            decimal_of(m * pow2((scale - 1074) as nat)).push('.') + zero_filled(0, p)
        }),
{
    let up = (scale - 1074) as nat;
    let whole = m * pow2(up);
    let unit = ten_to(p);
    lemma_ten_to_pos(p);
    lemma_pow2_pos(1074);
    lemma_pow2_adds(up, 1074);
    assert((m * pow2(scale)) * unit == (whole * unit) * one_units()) by (nonlinear_arith)
        requires
            pow2(scale) == pow2(up) * one_units(),
            whole == m * pow2(up),
    ;
    lemma_round_half_even_by((whole * unit) * one_units(), one_units(), whole * unit, 0);
    lemma_fundamental_div_mod_converse((whole * unit) as int, unit as int, whole as int, 0);
    assert(whole * 1 == whole);
}

proof fn lemma_ten_to_pos(p: nat)
    ensures
        ten_to(p) > 0,
    decreases p,
{
    if p > 0 {
        lemma_ten_to_pos((p - 1) as nat);
    }
}

} // verus!
