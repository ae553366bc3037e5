//! Figures as they are read: what is written of a size, a speed, a frequency or a time
//! reads back to it.

use crate::binary64::{
    at_most, below, ceiling, clamped, fraction, integer, law_integers_are_exact, law_rounding_keeps_order,
    lemma_exact, lemma_integer_bound, lemma_mantissa_bound, lemma_nearest_is_valid, lemma_pow2_monotonic,
    lemma_powers, lemma_product_bounds, lemma_quotient_bound, lemma_scale_of_bounds, nearest, one_units,
    product, quotient, round_half_even, scale_of, Number, HIDDEN_BIT, MANTISSA_LIMIT,
};
use crate::decimal::{
    all_digits, decimal_of, digits_value, fixed_of, is_digit, lemma_decimal_digits, ten_to, with_point,
    zero_filled,
};
use crate::layout::repeated;
use crate::seen::{decimal_read, Decimal};
use crate::telling::frequency_read;
use crate::text::{finishes_with, is_space, lemma_place_of, place_of, trimmed_start};
use crate::units::{
    days_in, disk_speed_text, dynamic_text, fitted_text, hours_in, integer_length, law_dynamic_width,
    law_idle_time_adds_up, law_size_width, lemma_decimal_length, lemma_point_text, minutes_in, months_in,
    net_speed_text, number_text, overclock_text, years_in, FormatIdleTime, FormatSize, GIGA, KILO, MEGA,
    PETA, TERA,
};
use vstd::arithmetic::div_mod::lemma_fundamental_div_mod;
use vstd::arithmetic::power2::{
    lemma2_to64, lemma2_to64_rest, lemma_pow2_adds, lemma_pow2_pos, lemma_pow2_strictly_increases,
    lemma_pow2_unfold, pow2,
};
use vstd::prelude::*;

verus! {

// ---------------------------------------------------------------------------
// Numbers
// ---------------------------------------------------------------------------

/// Rounding moves a quotient by at most a half, and of two equally near integers it
/// takes the even one.
pub proof fn law_rounded_to_the_nearest(p: nat, d: nat)
    requires
        d > 0,
    ensures
        -(d as int) <= 2 * (round_half_even(p, d) * d - p) <= d,
        2 * (round_half_even(p, d) * d - p) == d || 2 * (p - round_half_even(p, d) * d) == d ==> round_half_even(p, d)
            % 2 == 0,
{
    lemma_fundamental_div_mod(p as int, d as int);
    let k = p / d;
    assert((k + 1) * d == k * d + d) by (nonlinear_arith);
    assert(d * k == k * d) by (nonlinear_arith);
}

proof fn lemma_zeros_before(n: nat, s: Seq<char>)
    requires
        all_digits(s),
    ensures
        all_digits(Seq::new(n, |i: int| '0') + s),
        digits_value(Seq::new(n, |i: int| '0') + s) == digits_value(s),
    decreases s.len(), n,
{
    let zeros = Seq::new(n, |i: int| '0');
    let t = zeros + s;
    if s.len() > 0 {
        assert(t.drop_last() =~= zeros + s.drop_last());
        assert(t.last() == s.last());
        assert forall|i: int| 0 <= i < s.drop_last().len() implies is_digit(#[trigger] s.drop_last()[i]) by {
            assert(is_digit(s[i]));
        }
        lemma_zeros_before(n, s.drop_last());
    } else if n > 0 {
        let fewer = Seq::new((n - 1) as nat, |i: int| '0');
        assert(t.drop_last() =~= fewer + s);
        lemma_zeros_before((n - 1) as nat, s);
        assert(t.last() == '0');
    } else {
        assert(t =~= s);
    }
}

/// A number filled with zeros reads as itself, and is as long as asked for.
pub proof fn law_zero_filled_reads_back(n: nat, width: nat)
    ensures
        all_digits(zero_filled(n, width)),
        digits_value(zero_filled(n, width)) == n,
        zero_filled(n, width).len() >= width,
        n < ten_to(width) && width > 0 ==> zero_filled(n, width).len() == width,
{
    lemma_decimal_digits(n);
    let text = decimal_of(n);
    if text.len() < width {
        lemma_zeros_before((width - text.len()) as nat, text);
    }
    if n < ten_to(width) && width > 0 {
        lemma_decimal_length(n, width);
    }
}

proof fn lemma_ten_to_positive(p: nat)
    ensures
        ten_to(p) > 0,
    decreases p,
{
    if p > 0 {
        lemma_ten_to_positive((p - 1) as nat);
    }
}

proof fn lemma_point_reads(k: nat, p: nat)
    ensures
        decimal_read(with_point(k, p)) == Some(Decimal { digits: k, places: p }),
        with_point(k, p).len() > 0,
        is_digit(with_point(k, p)[0]),
{
    let t = with_point(k, p);
    lemma_ten_to_positive(p);
    if p == 0 {
        lemma_decimal_digits(k);
        assert(is_digit(t[0]));
        assert forall|i: int| 0 <= i < t.len() implies t[i] != '.' by {
            assert(is_digit(t[i]));
        }
        lemma_place_of(t, '.', t.len());
        assert(trimmed_start(t) == t);
    } else {
        let unit = ten_to(p);
        let whole = decimal_of(k / unit);
        let part = zero_filled(k % unit, p);
        lemma_fundamental_div_mod(k as int, unit as int);
        lemma_decimal_digits(k / unit);
        law_zero_filled_reads_back(k % unit, p);
        assert(t[0] == whole[0]);
        assert(is_digit(whole[0]));
        assert forall|i: int| 0 <= i < whole.len() implies t[i] != '.' by {
            assert(t[i] == whole[i]);
            assert(is_digit(whole[i]));
        }
        lemma_place_of(t, '.', whole.len());
        assert(trimmed_start(t) == t);
        assert(t.take(whole.len() as int) =~= whole);
        assert(t.skip(whole.len() as int + 1) =~= part);
        assert((k / unit) * unit == unit * (k / unit)) by (nonlinear_arith);
    }
}

/// A number that is not negative, written with so many digits behind the point, reads
/// back to within half of the last digit.
pub proof fn law_fixed_reads_back(x: Number, p: nat)
    requires
        x is Finite,
        !x->Finite_negative,
    ensures
        decimal_read(fixed_of(x, p)) matches Some(d) && d.places == p && d.rounds(x.units(), one_units()),
        fixed_of(x, p).len() > 0,
        is_digit(fixed_of(x, p)[0]),
{
    lemma_pow2_pos(1074);
    let k = round_half_even(x.units() * ten_to(p), one_units());
    lemma_point_reads(k, p);
    law_rounded_to_the_nearest(x.units() * ten_to(p), one_units());
}

proof fn lemma_spaces_before(n: nat, t: Seq<char>)
    requires
        t.len() > 0,
        !is_space(t[0]),
    ensures
        trimmed_start(repeated(' ', n) + t) == t,
    decreases n,
{
    let s = repeated(' ', n) + t;
    if n == 0 {
        assert(s =~= t);
    } else {
        assert(s.skip(1) =~= repeated(' ', (n - 1) as nat) + t);
        assert(s[0] == ' ');
        lemma_spaces_before((n - 1) as nat, t);
    }
}

/// Spaces before a number do not change what is read.
pub proof fn law_aligned_number_reads_back(x: Number, width: nat, p: nat)
    requires
        x is Finite,
        !x->Finite_negative,
    ensures
        decimal_read(number_text(x, width, p)) matches Some(d) && d.places == p && d.rounds(x.units(), one_units()),
{
    law_fixed_reads_back(x, p);
    let t = fixed_of(x, p);
    assert(!is_space(t[0]));
    assert(trimmed_start(t) == t);
    if t.len() < width {
        lemma_spaces_before((width - t.len()) as nat, t);
    }
}

/// The digits behind the point that a fitted number has: the most that fit.
pub open spec fn places_fitted(x: Number, width: nat, precision: nat) -> nat
    decreases precision,
{
    if precision == 0 || fixed_of(x, precision).len() <= width {
        precision
    } else {
        places_fitted(x, width, (precision - 1) as nat)
    }
}

pub(crate) proof fn lemma_fitted(x: Number, width: nat, precision: nat)
    ensures
        fitted_text(x, width, precision) == number_text(x, width, places_fitted(x, width, precision)),
        places_fitted(x, width, precision) <= precision,
    decreases precision,
{
    if precision > 0 && fixed_of(x, precision).len() > width {
        lemma_fitted(x, width, (precision - 1) as nat);
    }
}

// ---------------------------------------------------------------------------
// Units
// ---------------------------------------------------------------------------

/// The bytes of a unit, by its letters.
pub open spec fn bytes_in_unit(unit: Seq<char>) -> nat {
    if unit == "B"@ {
        1
    } else if unit == "KB"@ || unit == "K"@ {
        1024
    } else if unit == "MB"@ || unit == "M"@ {
        1024 * 1024
    } else if unit == "GB"@ || unit == "G"@ {
        1024 * 1024 * 1024
    } else if unit == "TB"@ || unit == "T"@ {
        1024 * 1024 * 1024 * 1024
    } else if unit == "PB"@ || unit == "P"@ {
        1024 * 1024 * 1024 * 1024 * 1024
    } else {
        0
    }
}

/// The bytes of the unit that a text names behind spaces, as it stands or by the second.
pub open spec fn unit_read(s: Seq<char>) -> nat {
    let t = trimmed_start(s);
    bytes_in_unit(t.take(place_of(t, '/') as int))
}

/// The quotient by a power of two that the number reaches is exact.
proof fn lemma_exact_quotient(x: Number, j: nat)
    requires
        x is Finite,
        x.valid(),
        !x->Finite_negative,
        x->mantissa >= HIDDEN_BIT,
        x->scale >= j,
        j <= 52,
    ensures
        quotient(x, integer(pow2(j))) is Finite,
        !quotient(x, integer(pow2(j)))->Finite_negative,
        quotient(x, integer(pow2(j))).units() * pow2(j) == x.units(),
        quotient(x, integer(pow2(j))).valid(),
{
    let one = one_units();
    lemma_pow2_pos(1074);
    lemma_pow2_pos(j);
    lemma_powers();
    lemma_pow2_monotonic(j, 52);
    law_integers_are_exact(pow2(j));
    let b = integer(pow2(j));
    let s = (x->scale - j) as nat;
    let y = Number::Finite { negative: false, mantissa: x->mantissa, scale: s };
    lemma_pow2_adds(s, j);
    lemma_exact(y);
    assert(y.units() * pow2(j) == x.units()) by (nonlinear_arith)
        requires
            y.units() == x->mantissa * pow2(s),
            x.units() == x->mantissa * pow2(x->scale),
            pow2(s) * pow2(j) == pow2(x->scale),
    ;
    assert(b.units() == pow2(j) * one);
    assert(b.units() > 0) by (nonlinear_arith)
        requires
            b.units() == pow2(j) * one,
            pow2(j) > 0,
            one > 0,
    ;
    assert(b->mantissa != 0) by {
        if b->mantissa == 0 {
            assert(0 * pow2(b->scale) == 0) by (nonlinear_arith);
        }
    }
    assert(x.units() * one * 1 == y.units() * b.units()) by (nonlinear_arith)
        requires
            y.units() * pow2(j) == x.units(),
            b.units() == pow2(j) * one,
    ;
    law_rounding_keeps_order(x.units() * one, b.units(), y.units(), 1);
    law_rounding_keeps_order(y.units(), 1, x.units() * one, b.units());
    lemma_nearest_is_valid(false, x.units() * one, b.units());
}

/// A number of one or more has a full mantissa and a large scale.
proof fn lemma_full(x: Number)
    requires
        x is Finite,
        x.valid(),
        x.units() >= one_units(),
    ensures
        x->mantissa >= HIDDEN_BIT,
        x->scale >= 52,
{
    lemma_powers();
    lemma_pow2_pos(x->scale);
    if x->scale < 52 {
        lemma_pow2_monotonic(x->scale, 51);
        lemma_pow2_adds(53, 51);
        lemma_pow2_monotonic(104, 1074);
        assert(x->mantissa * pow2(x->scale) < pow2(53) * pow2(51)) by (nonlinear_arith)
            requires
                x->mantissa < pow2(53),
                0 < pow2(x->scale) <= pow2(51),
        ;
    }
}

/// Half of the last digit of a number of units is half of that digit of the unit.
proof fn lemma_rounds_in_units(d: Decimal, v: nat, u: nat, x: nat)
    requires
        d.rounds(v, one_units()),
        v * u == x,
    ensures
        d.rounds(x, u * one_units()),
{
    let one = one_units();
    let t = ten_to(d.places);
    let gap = d.digits * one - v * t;
    assert(d.digits * (u * one) - x * t == gap * u) by (nonlinear_arith)
        requires
            v * u == x,
            gap == d.digits * one - v * t,
    ;
    assert(-(u * one) <= 2 * (gap * u) <= u * one) by (nonlinear_arith)
        requires
            -(one as int) <= 2 * gap <= one,
    ;
}

proof fn lemma_rounds_divided(d: Decimal, n: nat, u: nat)
    requires
        d.rounds(n * one_units(), u * one_units()),
    ensures
        d.rounds(n, u),
{
    let one = one_units();
    let t = ten_to(d.places);
    lemma_pow2_pos(1074);
    let gap = d.digits * u - n * t;
    assert(d.digits * (u * one) - n * one * t == gap * one) by (nonlinear_arith)
        requires
            gap == d.digits * u - n * t,
    ;
    assert(-(u as int) <= 2 * gap <= u) by (nonlinear_arith)
        requires
            -(u * one) <= 2 * (gap * one) <= u * one,
            one > 0,
    ;
}

/// The powers of two that units stand for.
proof fn lemma_unit_powers()
    ensures
        pow2(0) == 1,
        pow2(10) == KILO,
        pow2(20) == MEGA,
        pow2(30) == GIGA,
        pow2(40) == TERA,
        pow2(50) == PETA,
{
    lemma2_to64();
    lemma2_to64_rest();
}

/// What a reader takes from a number of some unit: the number, and the bytes of the
/// unit.
proof fn lemma_unit_letters()
    ensures
        bytes_in_unit("B"@) == 1,
        bytes_in_unit("KB"@) == KILO && bytes_in_unit("K"@) == KILO,
        bytes_in_unit("MB"@) == MEGA && bytes_in_unit("M"@) == MEGA,
        bytes_in_unit("GB"@) == GIGA && bytes_in_unit("G"@) == GIGA,
        bytes_in_unit("TB"@) == TERA && bytes_in_unit("T"@) == TERA,
        bytes_in_unit("PB"@) == PETA && bytes_in_unit("P"@) == PETA,
{
    reveal_strlit("B");
    reveal_strlit("KB");
    reveal_strlit("MB");
    reveal_strlit("GB");
    reveal_strlit("TB");
    reveal_strlit("PB");
    reveal_strlit("K");
    reveal_strlit("M");
    reveal_strlit("G");
    reveal_strlit("T");
    reveal_strlit("P");
    assert("B"@[0] == 'B' && "K"@[0] == 'K' && "M"@[0] == 'M' && "G"@[0] == 'G' && "T"@[0] == 'T' && "P"@[0] == 'P');
    assert("KB"@[0] == 'K' && "MB"@[0] == 'M' && "GB"@[0] == 'G' && "TB"@[0] == 'T' && "PB"@[0] == 'P');
}

/// The nearest number to an integer of 64 binary digits is at most 1024 away, and
/// exact up to 53 digits.
proof fn lemma_integer_error(n: nat)
    requires
        n <= u64::MAX,
    ensures
        integer(n) is Finite,
        !integer(n)->Finite_negative,
        integer(n).valid(),
        n <= MANTISSA_LIMIT ==> integer(n).units() == n * one_units(),
        -(1024 * one_units()) <= integer(n).units() - n * one_units() <= 1024 * one_units(),
        n > MANTISSA_LIMIT ==> integer(n).units() >= MANTISSA_LIMIT * one_units(),
{
    let one = one_units();
    lemma_pow2_pos(1074);
    lemma_integer_bound(n);
    if n <= MANTISSA_LIMIT {
        law_integers_are_exact(n);
    } else {
        law_integers_are_exact(MANTISSA_LIMIT as nat);
        assert(MANTISSA_LIMIT * one * 1 <= n * one * 1) by (nonlinear_arith)
            requires
                n > MANTISSA_LIMIT,
        ;
        law_rounding_keeps_order((MANTISSA_LIMIT * one) as nat, 1, n * one, 1);
        let k = scale_of(n * one, 1);
        lemma_scale_of_bounds(n * one, 1);
        lemma_powers();
        lemma2_to64();
        lemma2_to64_rest();
        assert(k <= 1085) by {
            if k > 1085 {
                lemma_pow2_monotonic(1138, (52 + k) as nat);
                lemma_pow2_adds(64, 1074);
                assert(n * one < pow2(64) * one) by (nonlinear_arith)
                    requires
                        n < pow2(64),
                        one > 0,
                ;
            }
        }
        lemma_pow2_pos(k);
        lemma_pow2_monotonic(k, 1085);
        lemma_pow2_adds(11, 1074);
        law_rounded_to_the_nearest(n * one, pow2(k));
        let m = round_half_even(n * one, pow2(k));
        assert(1 * pow2(k) == pow2(k));
        assert(integer(n).units() == m * pow2(k)) by {
            if m == MANTISSA_LIMIT {
                lemma_pow2_adds(1, k);
                assert(HIDDEN_BIT * pow2(k + 1) == MANTISSA_LIMIT * pow2(k)) by (nonlinear_arith)
                    requires
                        pow2(k + 1) == 2 * pow2(k),
                ;
            }
        }
    }
}

proof fn lemma_cut(number: Seq<char>, rest: Seq<char>, width: nat)
    requires
        number.len() == width,
    ensures
        (number + rest).take(width as int) == number,
        (number + rest).skip(width as int) == rest,
{
    assert((number + rest).take(width as int) =~= number);
    assert((number + rest).skip(width as int) =~= rest);
}

/// A number of one or more units, divided by the unit.
proof fn lemma_in_units(x: Number, j: nat)
    requires
        x is Finite,
        x.valid(),
        !x->Finite_negative,
        j <= 50,
        x.units() >= pow2(j) * one_units(),
    ensures
        ({
            let v = quotient(x, integer(pow2(j)));
            &&& v is Finite
            &&& !v->Finite_negative
            &&& v.valid()
            &&& v.units() * pow2(j) == x.units()
        }),
{
    lemma_pow2_pos(j);
    lemma_pow2_pos(1074);
    assert(x.units() >= one_units()) by (nonlinear_arith)
        requires
            x.units() >= pow2(j) * one_units(),
            pow2(j) >= 1,
    ;
    lemma_full(x);
    lemma_exact_quotient(x, j);
}

/// The quotient is below a number of units exactly where the number is.
proof fn lemma_unit_order(v: nat, u: nat, x: nat, n: nat)
    requires
        v * u == x,
        u > 0,
    ensures
        v < n * one_units() <==> x < n * (u * one_units()),
{
    let one = one_units();
    assert(v < n * one <==> v * u < n * one * u) by (nonlinear_arith)
        requires
            u > 0,
    ;
    assert(n * one * u == n * (u * one)) by (nonlinear_arith);
}

/// The unit that letters behind spaces name.
proof fn lemma_unit_read(s: Seq<char>, n: nat, letters: Seq<char>, suffix: Seq<char>)
    requires
        s =~= repeated(' ', n) + (letters + suffix),
        letters.len() > 0,
        !is_space(letters[0]),
        forall|i: int| 0 <= i < letters.len() ==> letters[i] != '/',
        suffix.len() == 0 || suffix[0] == '/',
    ensures
        unit_read(s) == bytes_in_unit(letters),
{
    let t = letters + suffix;
    lemma_spaces_before(n, t);
    assert(s == repeated(' ', n) + t);
    lemma_place_of(t, '/', letters.len());
    assert(t.take(letters.len() as int) =~= letters);
}

/// The letters behind a size.
proof fn lemma_size_units()
    ensures
        unit_read("  "@ + " B"@) == 1 && " B"@.len() == 2,
        unit_read("  "@ + "KB"@) == KILO && "KB"@.len() == 2,
        unit_read("  "@ + "MB"@) == MEGA && "MB"@.len() == 2,
        unit_read("  "@ + "GB"@) == GIGA && "GB"@.len() == 2,
        unit_read("  "@ + "TB"@) == TERA && "TB"@.len() == 2,
        unit_read("  "@ + "PB"@) == PETA && "PB"@.len() == 2,
{
    lemma_unit_letters();
    reveal_strlit("  ");
    reveal_strlit(" B");
    reveal_strlit("B");
    lemma_unit_read("  "@ + " B"@, 3, "B"@, Seq::empty());
    reveal_strlit("KB");
    lemma_unit_read("  "@ + "KB"@, 2, "KB"@, Seq::empty());
    reveal_strlit("MB");
    lemma_unit_read("  "@ + "MB"@, 2, "MB"@, Seq::empty());
    reveal_strlit("GB");
    lemma_unit_read("  "@ + "GB"@, 2, "GB"@, Seq::empty());
    reveal_strlit("TB");
    lemma_unit_read("  "@ + "TB"@, 2, "TB"@, Seq::empty());
    reveal_strlit("PB");
    lemma_unit_read("  "@ + "PB"@, 2, "PB"@, Seq::empty());
}

/// The letters behind the speed of a disk.
proof fn lemma_disk_units()
    ensures
        unit_read(" "@ + "B/s"@) == 1 && "B/s"@.len() == 3,
        unit_read(" "@ + "K/s"@) == KILO && "K/s"@.len() == 3,
        unit_read(" "@ + "M/s"@) == MEGA && "M/s"@.len() == 3,
        unit_read(" "@ + "G/s"@) == GIGA && "G/s"@.len() == 3,
        unit_read(" "@ + "T/s"@) == TERA && "T/s"@.len() == 3,
        unit_read(" "@ + "P/s"@) == PETA && "P/s"@.len() == 3,
{
    lemma_unit_letters();
    reveal_strlit(" ");
    reveal_strlit("/s");
    reveal_strlit("B/s");
    reveal_strlit("B");
    lemma_unit_read(" "@ + "B/s"@, 1, "B"@, "/s"@);
    reveal_strlit("K/s");
    reveal_strlit("K");
    lemma_unit_read(" "@ + "K/s"@, 1, "K"@, "/s"@);
    reveal_strlit("M/s");
    reveal_strlit("M");
    lemma_unit_read(" "@ + "M/s"@, 1, "M"@, "/s"@);
    reveal_strlit("G/s");
    reveal_strlit("G");
    lemma_unit_read(" "@ + "G/s"@, 1, "G"@, "/s"@);
    reveal_strlit("T/s");
    reveal_strlit("T");
    lemma_unit_read(" "@ + "T/s"@, 1, "T"@, "/s"@);
    reveal_strlit("P/s");
    reveal_strlit("P");
    lemma_unit_read(" "@ + "P/s"@, 1, "P"@, "/s"@);
}

/// The letters behind the speed of an interface.
proof fn lemma_net_units()
    ensures
        unit_read("   B/s"@) == 1 && "   B/s"@.len() == 6,
        unit_read("  KB/s"@) == KILO && "  KB/s"@.len() == 6,
        unit_read("  MB/s"@) == MEGA && "  MB/s"@.len() == 6,
        unit_read("  GB/s"@) == GIGA && "  GB/s"@.len() == 6,
        unit_read("  TB/s"@) == TERA && "  TB/s"@.len() == 6,
{
    lemma_unit_letters();
    reveal_strlit("/s");
    reveal_strlit("   B/s");
    reveal_strlit("B");
    lemma_unit_read("   B/s"@, 3, "B"@, "/s"@);
    reveal_strlit("  KB/s");
    reveal_strlit("KB");
    lemma_unit_read("  KB/s"@, 2, "KB"@, "/s"@);
    reveal_strlit("  MB/s");
    reveal_strlit("MB");
    lemma_unit_read("  MB/s"@, 2, "MB"@, "/s"@);
    reveal_strlit("  GB/s");
    reveal_strlit("GB");
    lemma_unit_read("  GB/s"@, 2, "GB"@, "/s"@);
    reveal_strlit("  TB/s");
    reveal_strlit("TB");
    lemma_unit_read("  TB/s"@, 2, "TB"@, "/s"@);
}

/// A number of units is read with its unit.
proof fn lemma_size_read(size: FormatSize, v: Number, u: nat, unit: Seq<char>)
    requires
        v is Finite,
        !v->Finite_negative,
        u > 0,
        v.units() * u == integer(size.0 as nat).units(),
        size.shown() == fitted_text(
            v,
            6,
            if at_most(integer(1000), v) {
                0
            } else {
                1
            },
        ) + "  "@ + unit,
        unit.len() == 2,
        unit_read("  "@ + unit) == u,
    ensures
        unit_read(size.shown().skip(6)) == u,
        decimal_read(size.shown().take(6)) matches Some(d) && d.rounds(
            integer(size.0 as nat).units(),
            u * one_units(),
        ) && d.places == (if integer(size.0 as nat).units() < 1000 * (u * one_units()) {
            1nat
        } else {
            0
        }),
{
    let precision: nat = if at_most(integer(1000), v) {
        0
    } else {
        1
    };
    let b = integer(size.0 as nat);
    law_integers_are_exact(1000);
    lemma_fitted(v, 6, precision);
    lemma_pow2_pos(1074);
    if precision == 1 {
        lemma_point_text(v, 1);
    }
    law_aligned_number_reads_back(v, 6, places_fitted(v, 6, precision));
    law_size_width(size);
    reveal_strlit("  ");
    let number = fitted_text(v, 6, precision);
    assert(size.shown() =~= number + ("  "@ + unit));
    lemma_cut(number, "  "@ + unit, 6);
    lemma_rounds_in_units(decimal_read(number)->0, v.units(), u, b.units());
    lemma_unit_order(v.units(), u, b.units(), 1000);
}

/// A size reads back: the six characters of the number times the bytes of the unit behind
/// them are the size, but for half of the last digit. The unit is the largest that the
/// size reaches, and below a thousand of it one digit stands behind the point. Beyond 53
/// binary digits another 1024 bytes may be lost.
pub proof fn law_size_reads_back(size: FormatSize)
    ensures
        ({
            let n = size.0 as nat;
            let u = unit_read(size.shown().skip(6));
            &&& decimal_read(size.shown().take(6)) is Some
            &&& ({
                let d = decimal_read(size.shown().take(6))->0;
                &&& n <= MANTISSA_LIMIT ==> d.rounds(n, u) && d.places == (if n < 1000 * u {
                    1nat
                } else {
                    0
                })
                &&& d.places <= 1
                &&& -(u + 2048 * ten_to(d.places)) <= 2 * (d.digits * u - n * ten_to(d.places)) <= u + 2048 * ten_to(
                    d.places,
                )
            })
            &&& u == 1 || (u > 1 && u <= n)
            &&& n < 1024 * u || u == 1024 * 1024 * 1024 * 1024 * 1024
        }),
{
    let n = size.0 as nat;
    let one = one_units();
    let b = integer(n);
    lemma_integer_error(n);
    lemma_unit_powers();
    lemma_size_units();
    lemma_pow2_pos(1074);
    law_integers_are_exact(KILO as nat);
    law_integers_are_exact(MEGA as nat);
    law_integers_are_exact(GIGA as nat);
    law_integers_are_exact(TERA as nat);
    law_integers_are_exact(PETA as nat);
    assert(1 * one == one);
    let u: nat = if below(b, integer(KILO as nat)) {
        lemma_size_read(size, b, 1, " B"@);
        1
    } else if below(b, integer(MEGA as nat)) {
        lemma_in_units(b, 10);
        lemma_size_read(size, quotient(b, integer(KILO as nat)), KILO as nat, "KB"@);
        KILO as nat
    } else if below(b, integer(GIGA as nat)) {
        lemma_in_units(b, 20);
        lemma_size_read(size, quotient(b, integer(MEGA as nat)), MEGA as nat, "MB"@);
        MEGA as nat
    } else if below(b, integer(TERA as nat)) {
        lemma_in_units(b, 30);
        lemma_size_read(size, quotient(b, integer(GIGA as nat)), GIGA as nat, "GB"@);
        GIGA as nat
    } else if below(b, integer(PETA as nat)) {
        lemma_in_units(b, 40);
        lemma_size_read(size, quotient(b, integer(TERA as nat)), TERA as nat, "TB"@);
        TERA as nat
    } else {
        lemma_in_units(b, 50);
        lemma_size_read(size, quotient(b, integer(PETA as nat)), PETA as nat, "PB"@);
        PETA as nat
    };
    let d = decimal_read(size.shown().take(6))->0;
    if n <= MANTISSA_LIMIT {
        lemma_rounds_divided(d, n, u);
        lemma_units_order(n, u, one);
        lemma_units_order(n, 1000 * u, one);
        lemma_units_order(n, 1024 * u, one);
        assert(1000 * (u * one) == 1000 * u * one) by (nonlinear_arith);
        assert(1024 * (u * one) == 1024 * u * one) by (nonlinear_arith);
    } else {
        assert(u == PETA);
    }
    lemma_rounds_nearly(d, n, b.units(), u);
}

proof fn lemma_units_order(n: nat, m: nat, one: nat)
    requires
        one > 0,
    ensures
        n * one < m * one <==> n < m,
{
    assert(n * one < m * one <==> n < m) by (nonlinear_arith)
        requires
            one > 0,
    ;
}

proof fn lemma_rounds_nearly(d: Decimal, n: nat, b: nat, u: nat)
    requires
        d.rounds(b, u * one_units()),
        -(1024 * one_units()) <= b - n * one_units() <= 1024 * one_units(),
    ensures
        -(u + 2048 * ten_to(d.places)) <= 2 * (d.digits * u - n * ten_to(d.places)) <= u + 2048 * ten_to(d.places),
{
    let one = one_units();
    let t = ten_to(d.places);
    lemma_pow2_pos(1074);
    lemma_ten_to_positive(d.places);
    let off = b - n * one;
    let gap = d.digits * u - n * t;
    assert(d.digits * (u * one) - b * t == gap * one - off * t) by (nonlinear_arith)
        requires
            off == b - n * one,
            gap == d.digits * u - n * t,
    ;
    assert(-(1024 * one * t) <= off * t <= 1024 * one * t) by (nonlinear_arith)
        requires
            -(1024 * one) <= off <= 1024 * one,
            t > 0,
    ;
    assert(-(u + 2048 * t) <= 2 * gap <= u + 2048 * t) by (nonlinear_arith)
        requires
            -(u * one) <= 2 * (gap * one - off * t) <= u * one,
            -(1024 * one * t) <= off * t <= 1024 * one * t,
            one > 0,
    ;
}

/// The number and the unit of a text whose unit takes up its last characters.
proof fn lemma_speed_read(x: Number, v: Number, u: nat, number: Seq<char>, unit: Seq<char>, width: nat, places: nat)
    requires
        v is Finite,
        !v->Finite_negative,
        u > 0,
        v.units() * u == x.units(),
        number == number_text(v, width, places),
    ensures
        (number + unit).take((number + unit).len() - unit.len()) == number,
        (number + unit).skip((number + unit).len() - unit.len()) == unit,
        decimal_read(number) matches Some(d) && d.places == places && d.rounds(x.units(), u * one_units()),
{
    lemma_cut(number, unit, number.len());
    law_aligned_number_reads_back(v, width, places);
    lemma_rounds_in_units(decimal_read(number)->0, v.units(), u, x.units());
}

/// The unit of this many bytes is the one for the number: the largest that it reaches.
pub open spec fn fits_unit(units: nat, u: nat, largest: nat) -> bool {
    &&& u == 1 || u * one_units() <= units
    &&& units < 1024 * (u * one_units()) || u == largest
}

/// The speed of an interface reads back: what stands before the six characters of the
/// unit is a number that, times the bytes of the unit, is the speed but for half of the
/// last digit; from gigabytes on two digits stand behind the point, else one.
pub proof fn law_net_speed_reads_back(x: Number)
    requires
        x is Finite,
        x.valid(),
        !x->Finite_negative,
    ensures
        ({
            let s = net_speed_text(x);
            let u = unit_read(s.skip(s.len() - 6));
            &&& decimal_read(s.take(s.len() - 6)) matches Some(d) && d.rounds(x.units(), u * one_units()) && d.places
                == (if u >= 1024 * 1024 * 1024 {
                2nat
            } else {
                1
            })
            &&& fits_unit(x.units(), u, 1024 * 1024 * 1024 * 1024)
            &&& finishes_with(s, "/s"@)
        }),
{
    let one = one_units();
    let s = net_speed_text(x);
    lemma_unit_powers();
    lemma_net_units();
    lemma_pow2_pos(1074);
    law_integers_are_exact(KILO as nat);
    law_integers_are_exact(MEGA as nat);
    law_integers_are_exact(GIGA as nat);
    law_integers_are_exact(TERA as nat);
    reveal_strlit("/s");
    reveal_strlit("   B/s");
    reveal_strlit("  KB/s");
    reveal_strlit("  MB/s");
    reveal_strlit("  GB/s");
    reveal_strlit("  TB/s");
    assert(x.units() * 1 == x.units());
    if below(x, integer(KILO as nat)) {
        lemma_speed_read(x, x, 1, number_text(x, 6, 1), "   B/s"@, 6, 1);
    } else if below(x, integer(MEGA as nat)) {
        lemma_in_units(x, 10);
        let v = quotient(x, integer(KILO as nat));
        lemma_speed_read(x, v, KILO as nat, number_text(v, 6, 1), "  KB/s"@, 6, 1);
    } else if below(x, integer(GIGA as nat)) {
        lemma_in_units(x, 20);
        let v = quotient(x, integer(MEGA as nat));
        lemma_speed_read(x, v, MEGA as nat, number_text(v, 6, 1), "  MB/s"@, 6, 1);
    } else if below(x, integer(TERA as nat)) {
        lemma_in_units(x, 30);
        let v = quotient(x, integer(GIGA as nat));
        lemma_speed_read(x, v, GIGA as nat, number_text(v, 6, 2), "  GB/s"@, 6, 2);
    } else {
        lemma_in_units(x, 40);
        let v = quotient(x, integer(TERA as nat));
        lemma_speed_read(x, v, TERA as nat, number_text(v, 6, 2), "  TB/s"@, 6, 2);
    }
    assert(s.subrange(s.len() - 2, s.len() as int) =~= "/s"@);
}

/// The speed of a disk, in the unit that it reaches.
proof fn lemma_disk_speed(x: Number, v: Number, u: nat, unit: Seq<char>)
    requires
        v is Finite,
        !v->Finite_negative,
        u > 0,
        v.units() * u == x.units(),
        disk_speed_text(x) == fitted_text(
            v,
            5,
            if at_most(integer(1000), v) {
                0
            } else {
                1
            },
        ) + " "@ + unit,
        unit.len() == 3,
        unit_read(" "@ + unit) == u,
    ensures
        ({
            let s = disk_speed_text(x);
            &&& unit_read(s.skip(s.len() - 4)) == u
            &&& s.skip(s.len() - 4) == " "@ + unit
            &&& decimal_read(s.take(s.len() - 4)) matches Some(d) && d.rounds(x.units(), u * one_units()) && d.places
                <= 1 && (20 * x.units() < 19999 * (u * one_units()) ==> d.places == 1)
        }),
{
    let precision: nat = if at_most(integer(1000), v) {
        0
    } else {
        1
    };
    let one = one_units();
    law_integers_are_exact(1000);
    lemma_fitted(v, 5, precision);
    lemma_pow2_pos(1074);
    let places = places_fitted(v, 5, precision);
    let number = fitted_text(v, 5, precision);
    reveal_strlit(" ");
    assert(disk_speed_text(x) =~= number + (" "@ + unit));
    lemma_speed_read(x, v, u, number, " "@ + unit, 5, places);
    if 20 * x.units() < 19999 * (u * one) {
        assert(20 * v.units() < 19999 * one) by (nonlinear_arith)
            requires
                20 * (v.units() * u) < 19999 * (u * one),
                u > 0,
        ;
        lemma_five_characters(v);
    }
}

/// A number that rounds to at most 999.9 is five characters long.
proof fn lemma_five_characters(x: Number)
    requires
        x is Finite,
        !x->Finite_negative,
        20 * x.units() < 19999 * one_units(),
    ensures
        fixed_of(x, 1).len() <= 5,
{
    let one = one_units();
    lemma_pow2_pos(1074);
    reveal_with_fuel(ten_to, 5);
    assert(ten_to(1) == 10 && ten_to(2) == 100 && ten_to(3) == 1000);
    let scaled = x.units() * ten_to(1);
    law_rounded_to_the_nearest(scaled, one);
    let k = round_half_even(scaled, one);
    assert(k <= 9999) by (nonlinear_arith)
        requires
            2 * (k * one - scaled) <= one,
            2 * scaled < 19999 * one,
            one > 0,
    ;
    lemma_decimal_length(k / ten_to(1), 3);
    lemma_decimal_length(k % ten_to(1), 1);
}

/// The speed of a disk reads back: what stands before the four characters of the unit is a
/// number that, times the bytes of the unit, is the speed but for half of the last digit;
/// where it rounds to less than a thousand, one digit stands behind the point.
pub proof fn law_disk_speed_reads_back(x: Number)
    requires
        x is Finite,
        x.valid(),
        !x->Finite_negative,
    ensures
        ({
            let s = disk_speed_text(x);
            let u = unit_read(s.skip(s.len() - 4));
            &&& decimal_read(s.take(s.len() - 4)) matches Some(d) && d.rounds(x.units(), u * one_units()) && d.places
                <= 1 && (20 * x.units() < 19999 * (u * one_units()) ==> d.places == 1)
            &&& fits_unit(x.units(), u, 1024 * 1024 * 1024 * 1024 * 1024)
            &&& finishes_with(s, "/s"@)
        }),
{
    let one = one_units();
    let s = disk_speed_text(x);
    lemma_unit_powers();
    lemma_disk_units();
    lemma_pow2_pos(1074);
    law_integers_are_exact(KILO as nat);
    law_integers_are_exact(MEGA as nat);
    law_integers_are_exact(GIGA as nat);
    law_integers_are_exact(TERA as nat);
    law_integers_are_exact(PETA as nat);
    reveal_strlit("/s");
    reveal_strlit(" ");
    reveal_strlit("B/s");
    reveal_strlit("K/s");
    reveal_strlit("M/s");
    reveal_strlit("G/s");
    reveal_strlit("T/s");
    reveal_strlit("P/s");
    assert(x.units() * 1 == x.units());
    if below(x, integer(KILO as nat)) {
        lemma_disk_speed(x, x, 1, "B/s"@);
    } else if below(x, integer(MEGA as nat)) {
        lemma_in_units(x, 10);
        lemma_disk_speed(x, quotient(x, integer(KILO as nat)), KILO as nat, "K/s"@);
    } else if below(x, integer(GIGA as nat)) {
        lemma_in_units(x, 20);
        lemma_disk_speed(x, quotient(x, integer(MEGA as nat)), MEGA as nat, "M/s"@);
    } else if below(x, integer(TERA as nat)) {
        lemma_in_units(x, 30);
        lemma_disk_speed(x, quotient(x, integer(GIGA as nat)), GIGA as nat, "G/s"@);
    } else if below(x, integer(PETA as nat)) {
        lemma_in_units(x, 40);
        lemma_disk_speed(x, quotient(x, integer(TERA as nat)), TERA as nat, "T/s"@);
    } else {
        lemma_in_units(x, 50);
        lemma_disk_speed(x, quotient(x, integer(PETA as nat)), PETA as nat, "P/s"@);
    }
    let tail = s.skip(s.len() - 4);
    assert(s.subrange(s.len() - 2, s.len() as int) =~= tail.skip(2));
    assert(tail.skip(2) =~= "/s"@);
}

// ---------------------------------------------------------------------------
// Times
// ---------------------------------------------------------------------------

/// A text that says a time in years of 365 days, months of 30 days, days, hours, minutes
/// and seconds, begun at the largest of them that is not nothing.
pub open spec fn says_time(s: Seq<char>, years: nat, months: nat, days: nat, hours: nat, minutes: nat, secs: nat) -> bool {
    let clock = zero_filled(hours, 2) + ":"@ + zero_filled(minutes, 2) + ":"@ + zero_filled(secs, 2);
    s == (if years > 0 {
        decimal_of(years) + " Years "@ + decimal_of(months) + " Months "@ + decimal_of(days) + " Days "@ + clock
    } else if months > 0 {
        decimal_of(months) + " Months "@ + decimal_of(days) + " Days "@ + clock
    } else if days > 0 {
        decimal_of(days) + " Days "@ + clock
    } else if hours > 0 {
        clock
    } else if minutes > 0 {
        zero_filled(minutes, 2) + ":"@ + zero_filled(secs, 2)
    } else {
        decimal_of(secs) + "s"@
    })
}

/// An idle time reads back: what is said of years, months, days, hours, minutes and
/// seconds adds up to it, and none of them holds a larger one.
pub proof fn law_idle_time_reads_back(t: FormatIdleTime)
    ensures
        exists|y: nat, mo: nat, d: nat, h: nat, m: nat, s: nat|
            #[trigger] says_time(t.shown(), y, mo, d, h, m, s) && y * 31536000 + mo * 2592000 + d * 86400 + h * 3600
                + m * 60 + s == t.0 && mo * 2592000 + d * 86400 + h * 3600 + m * 60 + s < 31536000 && d < 30 && h < 24
                && m < 60 && s < 60,
{
    let n = t.0 as nat;
    law_idle_time_adds_up(n);
    let y = years_in(n);
    let mo = months_in(n);
    let d = days_in(n);
    let h = hours_in(n);
    let m = minutes_in(n);
    assert(says_time(t.shown(), y, mo, d, h, m, n % 60));
}

// ---------------------------------------------------------------------------
// Frequencies
// ---------------------------------------------------------------------------

/// The digits behind the point of a number with few digits before it.
proof fn lemma_short(x: Number, w: nat, a: nat, p: nat)
    requires
        x is Finite,
        !x->Finite_negative,
        x.units() <= w * one_units(),
        w < ten_to(a),
        a > 0,
        p > 0,
    ensures
        fixed_of(x, p).len() <= a + 1 + p,
{
    let one = one_units();
    let t = ten_to(p);
    lemma_pow2_pos(1074);
    lemma_ten_to_positive(p);
    law_rounded_to_the_nearest(x.units() * t, one);
    let k = round_half_even(x.units() * t, one);
    assert(k <= w * t) by (nonlinear_arith)
        requires
            2 * (k * one - x.units() * t) <= one,
            x.units() <= w * one,
            one > 0,
            t > 0,
    ;
    lemma_fundamental_div_mod(k as int, t as int);
    assert(k / t <= w) by (nonlinear_arith)
        requires
            k <= w * t,
            k == t * (k / t) + k % t,
            0 <= k % t < t,
            t > 0,
    ;
    lemma_decimal_length(k / t, a);
    law_zero_filled_reads_back(k % t, p);
}

/// A number of six characters reads back to within half of its last digit, up to 999999.
/// Up to 9 it has four digits behind the point, up to 99 three, up to 999 two and up to
/// 9999 one.
pub proof fn law_dynamic_reads_back(x: Number)
    requires
        x is Finite,
        x.valid(),
        !x->Finite_negative,
        x.units() <= 999999 * one_units(),
    ensures
        decimal_read(dynamic_text(x)) matches Some(d) && d.rounds(x.units(), one_units()) && d.places <= 4 && (
        x.units() <= 9 * one_units() ==> d.places >= 3) && (x.units() < 9 * one_units() ==> d.places == 4) && (x.units()
            < 99 * one_units() ==> d.places >= 3) && (x.units() < 999 * one_units() ==> d.places >= 2) && (x.units()
            < 9999 * one_units() ==> d.places >= 1),
{
    let one = one_units();
    lemma_pow2_pos(1074);
    let n = integer_length(x);
    let whole = x.units() / one;
    lemma_fundamental_div_mod(x.units() as int, one as int);
    reveal_with_fuel(ten_to, 7);
    lemma_decimal_digits(whole);
    if n >= 6 {
        law_integers_are_exact(0);
        law_integers_are_exact(999999);
        assert(0 * one == 0) by (nonlinear_arith);
        assert(clamped(x, integer(0), integer(999999)) == x);
        law_aligned_number_reads_back(x, 6, 0);
        if x.units() < 9999 * one {
            assert(whole < 9999) by (nonlinear_arith)
                requires
                    x.units() == one * whole + x.units() % one,
                    0 <= x.units() % one < one,
                    x.units() < 9999 * one,
                    one > 0,
            ;
            lemma_decimal_length(whole, 4);
        }
    } else {
        lemma_fitted(x, 6, (5 - n) as nat);
        let p = places_fitted(x, 6, (5 - n) as nat);
        law_aligned_number_reads_back(x, 6, p);
        if x.units() <= 9 * one {
            assert(whole <= 9) by (nonlinear_arith)
                requires
                    x.units() == one * whole + x.units() % one,
                    0 <= x.units() % one < one,
                    x.units() <= 9 * one,
                    one > 0,
            ;
            lemma_decimal_length(whole, 1);
            lemma_short(x, 9, 1, 4);
            lemma_places_kept(x, 6, 4);
        } else if x.units() < 99 * one {
            lemma_whole_below(x.units(), whole, 99);
            lemma_decimal_length(whole, 2);
            lemma_short(x, 99, 2, 3);
            lemma_places_kept(x, 6, (5 - n) as nat);
        } else if x.units() < 999 * one {
            lemma_whole_below(x.units(), whole, 999);
            lemma_decimal_length(whole, 3);
            lemma_short(x, 999, 3, 2);
            lemma_places_kept(x, 6, (5 - n) as nat);
        } else if x.units() < 9999 * one {
            lemma_whole_below(x.units(), whole, 9999);
            lemma_decimal_length(whole, 4);
            lemma_short(x, 9999, 4, 1);
            lemma_places_kept(x, 6, (5 - n) as nat);
        }
    }
}

proof fn lemma_whole_below(units: nat, whole: nat, n: nat)
    requires
        whole == units / one_units(),
        units < n * one_units(),
    ensures
        whole < n,
{
    let one = one_units();
    lemma_pow2_pos(1074);
    lemma_fundamental_div_mod(units as int, one as int);
    assert(whole < n) by (nonlinear_arith)
        requires
            units == one * whole + units % one,
            0 <= units % one,
            units < n * one,
            one > 0,
    ;
}

/// A fitted number keeps every digit that fits.
proof fn lemma_places_kept(x: Number, width: nat, precision: nat)
    ensures
        forall|p: nat|
            p <= precision && (#[trigger] fixed_of(x, p)).len() <= width ==> places_fitted(x, width, precision) >= p,
    decreases precision,
{
    if precision > 0 && fixed_of(x, precision).len() > width {
        lemma_places_kept(x, width, (precision - 1) as nat);
    }
}

/// A quotient that is at most a million is off by less than one part in eight milliards of
/// one.
proof fn lemma_quotient_error(a: Number, b: Number)
    requires
        a is Finite,
        b is Finite,
        !a->Finite_negative,
        !b->Finite_negative,
        b.units() > 0,
        a.units() <= 1_000_000 * b.units(),
    ensures
        ({
            let q = quotient(a, b);
            &&& q is Finite
            &&& !q->Finite_negative
            &&& q.valid()
            &&& q.units() <= 1_000_000 * one_units()
            &&& -(b.units() * one_units()) <= 0x2_0000_0000 * (q.units() * b.units() - a.units() * one_units())
                <= b.units() * one_units()
        }),
{
    let one = one_units();
    lemma_pow2_pos(1074);
    lemma_quotient_bound(a, b, 1_000_000);
    assert(b->mantissa != 0) by {
        if b->mantissa == 0 {
            assert(0 * pow2(b->scale) == 0) by (nonlinear_arith);
        }
    }
    let p = a.units() * one;
    let d = b.units();
    let q = quotient(a, b);
    let k = scale_of(p, d);
    lemma_scale_of_bounds(p, d);
    lemma_powers();
    lemma2_to64();
    lemma_pow2_pos(k);
    assert(k <= 1042) by {
        if k > 1042 {
            lemma_pow2_monotonic(1095, (52 + k) as nat);
            lemma_pow2_adds(21, 1074);
            assert(d * pow2((52 + k) as nat) >= d * (0x20_0000 * one)) by (nonlinear_arith)
                requires
                    pow2((52 + k) as nat) >= 0x20_0000 * one,
            ;
            assert(p < d * (0x20_0000 * one)) by (nonlinear_arith)
                requires
                    p == a.units() * one,
                    a.units() <= 1_000_000 * d,
                    d > 0,
                    one > 0,
            ;
        }
    }
    let g = pow2(k);
    lemma_pow2_monotonic(k, 1042);
    lemma_pow2_adds(32, 1042);
    lemma2_to64_rest();
    assert(0x1_0000_0000 * g <= one) by (nonlinear_arith)
        requires
            one == pow2(32) * pow2(1042),
            pow2(32) == 0x1_0000_0000,
            g <= pow2(1042),
    ;
    let m = round_half_even(p, d * g);
    assert(d * g > 0) by (nonlinear_arith)
        requires
            d > 0,
            g > 0,
    ;
    law_rounded_to_the_nearest(p, d * g);
    assert(q.units() == m * g) by {
        if m == MANTISSA_LIMIT {
            lemma_pow2_adds(1, k);
            assert(HIDDEN_BIT * pow2(k + 1) == MANTISSA_LIMIT * g) by (nonlinear_arith)
                requires
                    pow2(k + 1) == 2 * g,
            ;
        }
    }
    assert(m * (d * g) == q.units() * d) by (nonlinear_arith)
        requires
            q.units() == m * g,
    ;
    let off = q.units() * d - p;
    assert(-(d * one) <= 0x2_0000_0000 * off <= d * one) by (nonlinear_arith)
        requires
            -(d * g) <= 2 * off <= d * g,
            0x1_0000_0000 * g <= one,
            d > 0,
    ;
}

/// The hertz of a unit of frequency in megahertz, by its letters.
pub open spec fn megahertz_in_unit(unit: Seq<char>) -> nat {
    if unit == " MHz"@ {
        1
    } else if unit == " GHz"@ {
        1000
    } else if unit == " THz"@ {
        1_000_000
    } else {
        0
    }
}

/// The frequency of a core reads back: the six characters of the number times the unit
/// behind them are the frequency, but for half of the last digit and a thousandth of it.
pub proof fn law_frequency_reads_back(freq: Number)
    requires
        freq is Finite,
        freq.valid(),
        !freq->Finite_negative,
        freq.units() <= 999_000_000_000 * one_units(),
    ensures
        ({
            let s = frequency_read(freq);
            let u = megahertz_in_unit(s.skip(6));
            &&& u > 0
            &&& decimal_read(s.take(6)) matches Some(d) && -(1001 * (u * one_units())) <= 2000 * (d.digits * (u
                * one_units()) - freq.units() * ten_to(d.places)) <= 1001 * (u * one_units())
            &&& u == 1 || u * one_units() <= freq.units()
            &&& freq.units() < 1000 * (u * one_units()) || u == 1_000_000
        }),
{
    let one = one_units();
    lemma_pow2_pos(1074);
    law_integers_are_exact(1000);
    law_integers_are_exact(1_000_000);
    reveal_strlit(" MHz");
    reveal_strlit(" GHz");
    reveal_strlit(" THz");
    assert(" MHz"@[1] == 'M' && " GHz"@[1] == 'G' && " THz"@[1] == 'T');
    assert(1 * one == one);
    if below(freq, integer(1000)) {
        law_dynamic_reads_back(freq);
        law_dynamic_width(freq);
        lemma_cut(dynamic_text(freq), " MHz"@, 6);
        lemma_looser(decimal_read(dynamic_text(freq))->0, freq.units());
    } else if below(freq, integer(1_000_000)) {
        let v = quotient(freq, integer(1000));
        assert(freq.units() <= 1_000_000 * (1000 * one)) by (nonlinear_arith)
            requires
                freq.units() < 1_000_000 * one,
        ;
        lemma_quotient_error(freq, integer(1000));
        lemma_quotient_bound_here(freq, integer(1000), 1000);
        law_dynamic_reads_back(v);
        law_dynamic_width(v);
        lemma_cut(dynamic_text(v), " GHz"@, 6);
        lemma_near(decimal_read(dynamic_text(v))->0, v.units(), 1000, freq.units());
    } else {
        let v = quotient(freq, integer(1_000_000));
        assert(freq.units() <= 1_000_000 * (1_000_000 * one) && freq.units() <= 999_000 * (1_000_000 * one))
            by (nonlinear_arith)
            requires
                freq.units() <= 999_000_000_000 * one,
        ;
        lemma_quotient_error(freq, integer(1_000_000));
        lemma_quotient_bound_here(freq, integer(1_000_000), 999_000);
        law_dynamic_reads_back(v);
        law_dynamic_width(v);
        lemma_cut(dynamic_text(v), " THz"@, 6);
        lemma_near(decimal_read(dynamic_text(v))->0, v.units(), 1_000_000, freq.units());
    }
}

proof fn lemma_quotient_bound_here(a: Number, b: Number, n: nat)
    requires
        a is Finite,
        b is Finite,
        !a->Finite_negative,
        !b->Finite_negative,
        b.units() > 0,
        n <= 999_999,
        a.units() <= n * b.units(),
    ensures
        quotient(a, b).units() <= 999_999 * one_units(),
{
    lemma_quotient_bound(a, b, n);
    assert(n * one_units() <= 999_999 * one_units()) by (nonlinear_arith)
        requires
            n <= 999_999,
    ;
}

proof fn lemma_looser(d: Decimal, x: nat)
    requires
        d.rounds(x, one_units()),
    ensures
        -(1001 * one_units()) <= 2000 * (d.digits * one_units() - x * ten_to(d.places)) <= 1001 * one_units(),
{
}

proof fn lemma_near(d: Decimal, v: nat, u: nat, x: nat)
    requires
        d.rounds(v, one_units()),
        d.places <= 4,
        u > 0,
        -((u * one_units()) * one_units()) <= 0x2_0000_0000 * (v * (u * one_units()) - x * one_units()) <= (u
            * one_units()) * one_units(),
    ensures
        -(1001 * (u * one_units())) <= 2000 * (d.digits * (u * one_units()) - x * ten_to(d.places)) <= 1001 * (u
            * one_units()),
{
    let one = one_units();
    let t = ten_to(d.places);
    lemma_pow2_pos(1074);
    lemma_ten_to_positive(d.places);
    reveal_with_fuel(ten_to, 5);
    assert(t <= 10000);
    let off = v * u - x;
    assert(v * (u * one) - x * one == off * one) by (nonlinear_arith)
        requires
            off == v * u - x,
    ;
    assert(-(u * one) <= 0x2_0000_0000 * off <= u * one) by (nonlinear_arith)
        requires
            -((u * one) * one) <= 0x2_0000_0000 * (off * one) <= (u * one) * one,
            one > 0,
    ;
    let gap = d.digits * one - v * t;
    assert(d.digits * (u * one) - x * t == gap * u + off * t) by (nonlinear_arith)
        requires
            gap == d.digits * one - v * t,
            off == v * u - x,
    ;
    assert(-(u * one) <= 2 * (gap * u) <= u * one) by (nonlinear_arith)
        requires
            -(one as int) <= 2 * gap <= one,
            u > 0,
    ;
    assert(-(10000 * (u * one)) <= 0x2_0000_0000 * (off * t) <= 10000 * (u * one)) by (nonlinear_arith)
        requires
            -(u * one) <= 0x2_0000_0000 * off <= u * one,
            0 < t <= 10000,
            u > 0,
            one > 0,
    ;
}

/// Rounding a quotient of at most `2^n` moves it by at most half of the last binary digit.
pub(crate) proof fn lemma_nearest_error(p: nat, d: nat, n: nat)
    requires
        d > 0,
        p <= pow2(n) * one_units() * d,
        n <= 60,
    ensures
        ({
            let x = nearest(false, p, d);
            &&& x is Finite
            &&& !x->Finite_negative
            &&& x.valid()
            &&& -(d * pow2((1022 + n) as nat)) <= x.units() * d - p <= d * pow2((1022 + n) as nat)
        }),
{
    let one = one_units();
    lemma_pow2_pos(1074);
    lemma_pow2_pos(n);
    lemma_powers();
    let k = scale_of(p, d);
    lemma_scale_of_bounds(p, d);
    lemma_mantissa_bound(p, d, k);
    lemma_pow2_pos(k);
    assert(k <= 1022 + n + 1) by {
        if k > 1023 + n {
            lemma_pow2_strictly_increases((1074 + n) as nat, (52 + k) as nat);
            lemma_pow2_adds(n, 1074);
            assert(p < d * pow2((52 + k) as nat)) by (nonlinear_arith)
                requires
                    p <= pow2(n) * one * d,
                    pow2(n) * one < pow2((52 + k) as nat),
                    d > 0,
            ;
        }
    }
    let g = pow2(k);
    lemma_pow2_monotonic(k, (1023 + n) as nat);
    lemma_pow2_unfold((1023 + n) as nat);
    let m = round_half_even(p, d * g);
    assert(d * g > 0) by (nonlinear_arith)
        requires
            d > 0,
            g > 0,
    ;
    law_rounded_to_the_nearest(p, d * g);
    let x = nearest(false, p, d);
    assert(x is Finite);
    assert(x.units() == m * g) by {
        if m == MANTISSA_LIMIT {
            lemma_pow2_adds(1, k);
            lemma2_to64();
            assert(HIDDEN_BIT * pow2(k + 1) == MANTISSA_LIMIT * g) by (nonlinear_arith)
                requires
                    pow2(k + 1) == 2 * g,
            ;
        }
    }
    assert(m * (d * g) == x.units() * d) by (nonlinear_arith)
        requires
            x.units() == m * g,
    ;
    let h = pow2((1022 + n) as nat);
    assert(-(d * h) <= x.units() * d - p <= d * h) by (nonlinear_arith)
        requires
            -(d * g) <= 2 * (x.units() * d - p) <= d * g,
            g <= 2 * h,
            d > 0,
    ;
    lemma_nearest_is_valid(false, p, d);
}

/// The product with an integer, off by at most a part of one.
proof fn lemma_product_error(a: Number, b: nat, n: nat)
    requires
        a is Finite,
        !a->Finite_negative,
        b <= MANTISSA_LIMIT,
        a.units() * b <= pow2(n) * one_units(),
        n <= 60,
    ensures
        ({
            let x = product(a, integer(b));
            &&& x is Finite
            &&& !x->Finite_negative
            &&& x.valid()
            &&& -pow2((1022 + n) as nat) <= x.units() - a.units() * b <= pow2((1022 + n) as nat)
        }),
{
    let one = one_units();
    lemma_pow2_pos(1074);
    law_integers_are_exact(b);
    let p = a.units() * (b * one);
    assert(p == a.units() * b * one) by (nonlinear_arith)
        requires
            p == a.units() * (b * one),
    ;
    assert(p <= pow2(n) * one * one) by (nonlinear_arith)
        requires
            p == a.units() * b * one,
            a.units() * b <= pow2(n) * one,
    ;
    lemma_nearest_error(p, one, n);
    let x = nearest(false, p, one);
    let h = pow2((1022 + n) as nat);
    assert(-(h as int) <= x.units() - a.units() * b <= h) by (nonlinear_arith)
        requires
            -(one * h) <= x.units() * one - p <= one * h,
            p == a.units() * b * one,
            one > 0,
    ;
}

/// The quotient by an integer, off by at most a part of one.
proof fn lemma_division_error(a: Number, b: nat, n: nat)
    requires
        a is Finite,
        !a->Finite_negative,
        0 < b <= MANTISSA_LIMIT,
        a.units() <= pow2(n) * one_units() * b,
        n <= 60,
    ensures
        ({
            let x = quotient(a, integer(b));
            &&& x is Finite
            &&& !x->Finite_negative
            &&& x.valid()
            &&& -(b * pow2((1022 + n) as nat)) <= x.units() * b - a.units() <= b * pow2((1022 + n) as nat)
        }),
{
    let one = one_units();
    lemma_pow2_pos(1074);
    law_integers_are_exact(b);
    let y = integer(b);
    assert(y.units() > 0) by (nonlinear_arith)
        requires
            y.units() == b * one,
            b > 0,
            one > 0,
    ;
    assert(y->mantissa != 0) by {
        if y->mantissa == 0 {
            assert(0 * pow2(y->scale) == 0) by (nonlinear_arith);
        }
    }
    let p = a.units() * one;
    assert(p <= pow2(n) * one * y.units()) by (nonlinear_arith)
        requires
            p == a.units() * one,
            a.units() <= pow2(n) * one * b,
            y.units() == b * one,
    ;
    lemma_nearest_error(p, y.units(), n);
    let x = nearest(false, p, y.units());
    let h = pow2((1022 + n) as nat);
    assert(-(b * h) <= x.units() * b - a.units() <= b * h) by (nonlinear_arith)
        requires
            -((b * one) * h) <= x.units() * (b * one) - a.units() * one <= (b * one) * h,
            one > 0,
    ;
}

/// Rounding up goes to the next integer.
proof fn lemma_rounded_to_integer(v: Number) -> (w: nat)
    requires
        v is Finite,
        !v->Finite_negative,
        v.units() <= 100000 * one_units(),
    ensures
        ceiling(v) == integer(w),
        ceiling(v) is Finite,
        !ceiling(v)->Finite_negative,
        ceiling(v).units() == w * one_units(),
        v.units() <= w * one_units() < v.units() + one_units(),
        w <= 100000,
{
    let one = one_units() as int;
    lemma_pow2_pos(1074);
    let w = (v.units() + one - 1) / one;
    lemma_fundamental_div_mod(v.units() + one - 1, one);
    assert(0 <= w <= 100000 && v.units() <= w * one < v.units() + one) by (nonlinear_arith)
        requires
            v.units() + one - 1 == one * w + (v.units() + one - 1) % one,
            0 <= (v.units() + one - 1) % one < one,
            0 <= v.units() <= 100000 * one,
            one > 0,
    ;
    law_integers_are_exact(w as nat);
    w as nat
}

/// The kilohertz that the letter of an overclock stands for.
pub open spec fn kilohertz_in(letter: char) -> nat {
    if letter == 'K' {
        1
    } else if letter == 'M' {
        1000
    } else if letter == 'G' {
        1_000_000
    } else if letter == 'T' {
        1_000_000_000
    } else if letter == 'P' {
        1_000_000_000_000
    } else {
        0
    }
}

/// A text of a number and a letter tells this many megahertz, rounded up: it is not one
/// last digit below and not two above.
pub open spec fn tells_overclock(s: Seq<char>, mhz: Number) -> bool {
    let u = kilohertz_in(s.last());
    &&& s.len() > 0
    &&& u > 0
    &&& decimal_read(s.drop_last()) matches Some(d) && -(u * one_units()) <= d.digits * (u * one_units()) - 1000
        * mhz.units() * ten_to(d.places) <= 2 * (u * one_units())
}

proof fn lemma_whole_overclock(w: nat, letter: Seq<char>, u: nat, mhz: Number)
    requires
        letter.len() == 1,
        kilohertz_in(letter[0]) == u,
        u > 0,
        w <= 100000,
        -(u * one_units()) <= w * (u * one_units()) - 1000 * mhz.units() <= 2 * (u * one_units()),
    ensures
        tells_overclock(fitted_text(integer(w), 4, 0) + letter, mhz),
{
    let one = one_units();
    lemma_pow2_pos(1074);
    law_integers_are_exact(w);
    let number = fitted_text(integer(w), 4, 0);
    law_aligned_number_reads_back(integer(w), 4, 0);
    let s = number + letter;
    assert(s.drop_last() =~= number);
    assert(s.last() == letter[0]);
    let d = decimal_read(number)->0;
    assert(ten_to(0) == 1);
    assert(d.digits == w) by (nonlinear_arith)
        requires
            -(one as int) <= 2 * (d.digits * one - w * one * 1) <= one,
            one > 0,
    ;
    assert(1000 * mhz.units() * ten_to(d.places) == 1000 * mhz.units());
}

/// An overclock reads back: the number times the unit of its letter is the frequency,
/// rounded up to the last digit.
pub proof fn law_overclock_reads_back(mhz: Number)
    requires
        mhz is Finite,
        mhz.valid(),
        !mhz->Finite_negative,
        mhz.units() <= 9_000_000_000_000 * one_units(),
    ensures
        tells_overclock(overclock_text(mhz), mhz),
{
    let one = one_units();
    let khz = product(mhz, integer(1000));
    lemma_pow2_pos(1074);
    lemma2_to64();
    lemma2_to64_rest();
    law_integers_are_exact(1000);
    law_integers_are_exact(1_000_000);
    law_integers_are_exact(1_000_000_000);
    law_integers_are_exact(1_000_000_000_000);
    reveal_strlit("P");
    reveal_strlit("T");
    reveal_strlit("G");
    reveal_strlit("M");
    reveal_strlit("K");
    assert(mhz.units() * 1000 <= pow2(53) * one) by (nonlinear_arith)
        requires
            mhz.units() <= 9_000_000_000_000 * one,
            pow2(53) == 9007199254740992,
    ;
    lemma_product_error(mhz, 1000, 53);
    lemma_pow2_adds(1, 1074);
    assert(pow2(1075) == 2 * one);
    if at_most(integer(1_000_000_000_000), khz) {
        lemma_large_overclock(mhz, 1_000_000_000_000);
        let w = lemma_rounded_to_integer(quotient(khz, integer(1_000_000_000_000)));
        lemma_large_bounds(mhz.units(), khz.units(), quotient(khz, integer(1_000_000_000_000)).units(), w, 1_000_000_000_000);
        lemma_whole_overclock(w, "P"@, 1_000_000_000_000, mhz);
    } else if at_most(integer(1_000_000_000), khz) {
        lemma_large_overclock(mhz, 1_000_000_000);
        let w = lemma_rounded_to_integer(quotient(khz, integer(1_000_000_000)));
        lemma_large_bounds(mhz.units(), khz.units(), quotient(khz, integer(1_000_000_000)).units(), w, 1_000_000_000);
        lemma_whole_overclock(w, "T"@, 1_000_000_000, mhz);
    } else if at_most(integer(1_000_000), khz) {
        lemma_gigahertz(mhz);
    } else if at_most(integer(1000), khz) {
        let w = lemma_rounded_to_integer(mhz);
        assert(w * (1000 * one) == 1000 * (w * one)) by (nonlinear_arith);
        lemma_whole_overclock(w, "M"@, 1000, mhz);
    } else {
        let w = lemma_rounded_to_integer(khz);
        assert(1 * one == one);
        lemma_small_error(mhz);
        lemma_whole_overclock(w, "K"@, 1, mhz);
    }
}

/// Below a thousand kilohertz the product is off by less than a thousandth.
proof fn lemma_small_error(mhz: Number)
    requires
        mhz is Finite,
        !mhz->Finite_negative,
        product(mhz, integer(1000)) is Finite,
        !product(mhz, integer(1000))->Finite_negative,
        product(mhz, integer(1000)).units() < 1000 * one_units(),
        mhz.units() * 1000 <= pow2(53) * one_units(),
    ensures
        -(one_units() as int) <= product(mhz, integer(1000)).units() - 1000 * mhz.units() <= one_units(),
{
    let one = one_units();
    lemma_pow2_pos(1074);
    lemma2_to64();
    law_integers_are_exact(1000);
    if mhz.units() * 1000 > 1000 * one {
        assert(mhz.units() * (1000 * one) >= 1000 * one * one) by (nonlinear_arith)
            requires
                mhz.units() * 1000 > 1000 * one,
                one > 0,
        ;
        lemma_product_bounds(mhz, integer(1000), 1000);
    }
    assert(mhz.units() * 1000 <= pow2(10) * one) by (nonlinear_arith)
        requires
            mhz.units() * 1000 <= 1000 * one,
            pow2(10) == 1024,
    ;
    lemma_product_error(mhz, 1000, 10);
    lemma_pow2_monotonic(1032, 1074);
}

proof fn lemma_large_overclock(mhz: Number, u: nat)
    requires
        mhz is Finite,
        mhz.valid(),
        !mhz->Finite_negative,
        mhz.units() <= 9_000_000_000_000 * one_units(),
        u == 1_000_000_000_000 || (u == 1_000_000_000 && product(mhz, integer(1000)).units() < 1_000_000_000_000
            * one_units()),
        product(mhz, integer(1000)) is Finite,
        !product(mhz, integer(1000))->Finite_negative,
        product(mhz, integer(1000)).units() - mhz.units() * 1000 <= 2 * one_units(),
    ensures
        ({
            let khz = product(mhz, integer(1000));
            let v = quotient(khz, integer(u));
            &&& v is Finite
            &&& !v->Finite_negative
            &&& v.units() <= 100000 * one_units()
            &&& -(u * one_units()) <= 0x4_0000_0000 * (v.units() * u - khz.units()) <= u * one_units()
        }),
{
    let one = one_units();
    let khz = product(mhz, integer(1000));
    lemma_pow2_pos(1074);
    lemma2_to64();
    lemma2_to64_rest();
    law_integers_are_exact(u);
    assert(khz.units() <= pow2(14) * one * u) by (nonlinear_arith)
        requires
            khz.units() <= 1000 * (9_000_000_000_000 * one) + 2 * one,
            u == 1_000_000_000_000 || (u == 1_000_000_000 && khz.units() < 1_000_000_000_000 * one),
            pow2(14) == 16384,
            one > 0,
    ;
    lemma_division_error(khz, u, 14);
    lemma_pow2_adds(38, 1036);
    let h = pow2(1036);
    let v = quotient(khz, integer(u));
    assert(0x4_0000_0000 * h <= one) by (nonlinear_arith)
        requires
            one == pow2(38) * h,
            pow2(38) == 274877906944,
    ;
    assert(-(u * one) <= 0x4_0000_0000 * (v.units() * u - khz.units()) <= u * one) by (nonlinear_arith)
        requires
            -(u * h) <= v.units() * u - khz.units() <= u * h,
            0x4_0000_0000 * h <= one,
            u > 0,
    ;
    assert(v.units() <= 100000 * one) by (nonlinear_arith)
        requires
            v.units() * u - khz.units() <= u * h,
            khz.units() <= 16384 * one * u,
            h <= one,
            u > 0,
    ;
}

proof fn lemma_large_bounds(mhz: nat, khz: nat, v: nat, w: nat, u: nat)
    requires
        u >= 1_000_000_000,
        -(u * one_units()) <= 0x4_0000_0000 * (v * u - khz) <= u * one_units(),
        -(2 * one_units()) <= khz - mhz * 1000 <= 2 * one_units(),
        v <= w * one_units() < v + one_units(),
    ensures
        -(u * one_units()) <= w * (u * one_units()) - 1000 * mhz <= 2 * (u * one_units()),
{
    let one = one_units();
    lemma_pow2_pos(1074);
    let c = w * one;
    assert(w * (u * one) == c * u) by (nonlinear_arith)
        requires
            c == w * one,
    ;
    assert(v * u <= c * u <= (v + one) * u) by (nonlinear_arith)
        requires
            v <= c < v + one,
            u > 0,
    ;
    assert((v + one) * u == v * u + u * one) by (nonlinear_arith);
    assert(u * one >= 1_000_000_000 * one) by (nonlinear_arith)
        requires
            u >= 1_000_000_000,
    ;
}

/// An overclock in gigahertz.
proof fn lemma_gigahertz(mhz: Number)
    requires
        mhz is Finite,
        mhz.valid(),
        !mhz->Finite_negative,
        mhz.units() <= 9_000_000_000_000 * one_units(),
        at_most(integer(1_000_000), product(mhz, integer(1000))),
        below(product(mhz, integer(1000)), integer(1_000_000_000)),
    ensures
        tells_overclock(overclock_text(mhz), mhz),
{
    let one = one_units();
    let khz = product(mhz, integer(1000));
    lemma_pow2_pos(1074);
    lemma2_to64();
    lemma2_to64_rest();
    law_integers_are_exact(10);
    law_integers_are_exact(100);
    law_integers_are_exact(1000);
    law_integers_are_exact(1_000_000);
    law_integers_are_exact(1_000_000_000);
    law_integers_are_exact(1_000_000_000_000);
    reveal_strlit("G");
    if mhz.units() * 1000 > 1_000_000_000 * one {
        assert(mhz.units() * (1000 * one) >= 1_000_000_000 * one * one) by (nonlinear_arith)
            requires
                mhz.units() * 1000 > 1_000_000_000 * one,
                one > 0,
        ;
        lemma_product_bounds(mhz, integer(1000), 1_000_000_000);
    }
    assert(mhz.units() <= 1_000_000 * one);
    assert(mhz.units() <= pow2(10) * one * 1000) by (nonlinear_arith)
        requires
            mhz.units() <= 1_000_000 * one,
            pow2(10) == 1024,
    ;
    lemma_division_error(mhz, 1000, 10);
    let g = quotient(mhz, integer(1000));
    let h = pow2(1032);
    lemma_pow2_adds(42, 1032);
    assert(0x100_0000_0000 * h <= one) by (nonlinear_arith)
        requires
            one == pow2(42) * h,
            pow2(42) == 4398046511104,
    ;
    assert(g.units() <= 1001 * one);
    if below(g, integer(10)) {
        lemma_fraction_overclock(mhz, g, 100, 2);
    } else if below(g, integer(100)) {
        lemma_fraction_overclock(mhz, g, 10, 1);
    } else {
        let w = lemma_rounded_to_integer(g);
        assert(w * (1_000_000 * one) == 1_000_000 * (w * one)) by (nonlinear_arith);
        lemma_whole_overclock(w, "G"@, 1_000_000, mhz);
    }
}

/// An overclock in gigahertz with digits behind the point.
proof fn lemma_fraction_overclock(mhz: Number, g: Number, factor: nat, precision: nat)
    requires
        mhz is Finite,
        !mhz->Finite_negative,
        g is Finite,
        g.valid(),
        !g->Finite_negative,
        (factor == 100 && precision == 2 && g.units() < 10 * one_units()) || (factor == 10 && precision == 1
            && g.units() < 100 * one_units()),
        -(1000 * pow2(1032)) <= g.units() * 1000 - mhz.units() <= 1000 * pow2(1032),
        0x100_0000_0000 * pow2(1032) <= one_units(),
    ensures
        tells_overclock(
            fitted_text(quotient(ceiling(product(g, integer(factor))), integer(factor)), 4, precision) + "G"@,
            mhz,
        ),
{
    let one = one_units();
    let h = pow2(1032);
    lemma_pow2_pos(1074);
    lemma_pow2_pos(1032);
    lemma2_to64();
    reveal_strlit("G");
    assert(g.units() * factor <= pow2(10) * one) by (nonlinear_arith)
        requires
            (factor == 100 && g.units() < 10 * one) || (factor == 10 && g.units() < 100 * one),
            pow2(10) == 1024,
    ;
    lemma_product_error(g, factor, 10);
    let f = product(g, integer(factor));
    let w = lemma_rounded_to_integer(f);
    let c = ceiling(f);
    assert(c.units() <= pow2(10) * one * factor) by (nonlinear_arith)
        requires
            c.units() < f.units() + one,
            f.units() - g.units() * factor <= h,
            g.units() * factor <= 1000 * one,
            0x100_0000_0000 * h <= one,
            factor >= 10,
            pow2(10) == 1024,
    ;
    lemma_division_error(c, factor, 10);
    let x = quotient(c, integer(factor));
    lemma_fitted(x, 4, precision);
    let p = places_fitted(x, 4, precision);
    law_aligned_number_reads_back(x, 4, p);
    let number = fitted_text(x, 4, precision);
    let s = number + "G"@;
    assert(s.drop_last() =~= number);
    assert(s.last() == 'G');
    let d = decimal_read(number)->0;
    reveal_with_fuel(ten_to, 4);
    let t = ten_to(p);
    assert(t == 1 || t == 10 || (t == 100 && factor == 100));
    assert(d.digits * (1_000_000 * one) == 1_000_000 * (d.digits * one)) by (nonlinear_arith);
    if factor == 100 {
        if t == 1 {
            assert(x.units() * t == x.units());
            assert(1000 * mhz.units() * t == 1000 * mhz.units());
        } else if t == 10 {
            assert(x.units() * t == 10 * x.units());
            assert(1000 * mhz.units() * t == 10000 * mhz.units());
        } else {
            assert(x.units() * t == 100 * x.units());
            assert(1000 * mhz.units() * t == 100000 * mhz.units());
        }
    } else {
        if t == 1 {
            assert(x.units() * t == x.units());
            assert(1000 * mhz.units() * t == 1000 * mhz.units());
        } else {
            assert(x.units() * t == 10 * x.units());
            assert(1000 * mhz.units() * t == 10000 * mhz.units());
        }
    }
}

/// Fractions of small denominators that differ have numbers of the format that differ.
pub(crate) proof fn lemma_between_fractions(a: nat, b: nat, c: nat, d: nat)
    requires
        0 < a <= b <= 100,
        0 < c <= d <= 100,
        a * d < c * b,
    ensures
        below(fraction(a, b), fraction(c, d)),
{
    let one = one_units();
    lemma_pow2_pos(1074);
    lemma_powers();
    assert(pow2(0) * one * b == one * b);
    assert(a * one <= pow2(0) * one * b) by (nonlinear_arith)
        requires
            a <= b,
            pow2(0) == 1,
    ;
    assert(c * one <= pow2(0) * one * d) by (nonlinear_arith)
        requires
            c <= d,
            pow2(0) == 1,
    ;
    lemma_nearest_error(a * one, b, 0);
    lemma_nearest_error(c * one, d, 0);
    let h = pow2(1022);
    lemma_pow2_adds(52, 1022);
    assert(0x10_0000 * h < one) by (nonlinear_arith)
        requires
            one == pow2(52) * h,
            pow2(52) == 4503599627370496,
            one > 0,
    ;
    let x = fraction(a, b).units();
    let y = fraction(c, d).units();
    // x * b <= a * one + b * h and y * d >= c * one - d * h
    assert(x * b * d <= a * one * d + b * h * d) by (nonlinear_arith)
        requires
            x * b - a * one <= b * h,
            d > 0,
    ;
    assert(y * d * b >= c * one * b - d * h * b) by (nonlinear_arith)
        requires
            -(d * h) <= y * d - c * one,
            b > 0,
    ;
    assert(c * one * b >= a * one * d + one) by (nonlinear_arith)
        requires
            a * d + 1 <= c * b,
            one > 0,
    ;
    assert(2 * (b * h * d) < one) by (nonlinear_arith)
        requires
            0x10_0000 * h < one,
            0 < b <= 100,
            0 < d <= 100,
    ;
    assert(d * h * b == b * h * d) by (nonlinear_arith);
    assert(x < y) by (nonlinear_arith)
        requires
            x * b * d < y * d * b,
            b > 0,
            d > 0,
    ;
}

/// Halves are numbers of the format.
pub(crate) proof fn lemma_halves(n: nat)
    requires
        n <= 100,
    ensures
        2 * fraction(n, 2).units() == n * one_units(),
        fraction(n, 2) is Finite,
        !fraction(n, 2)->Finite_negative,
{
    let one = one_units();
    lemma_pow2_pos(1074);
    law_integers_are_exact(n);
    lemma2_to64();
    if n == 0 {
        lemma_exact(integer(0));
        law_integers_are_exact(0);
        assert(0 * one == 0) by (nonlinear_arith);
        law_rounding_keeps_order(0, 2, 0, 1);
    } else {
        assert(n * one >= one) by (nonlinear_arith)
            requires
                n >= 1,
        ;
        lemma_full(integer(n));
        let x = integer(n);
        let y = Number::Finite { negative: false, mantissa: x->mantissa, scale: (x->scale - 1) as nat };
        lemma_pow2_unfold(x->scale);
        lemma_exact(y);
        assert(2 * y.units() == x.units()) by (nonlinear_arith)
            requires
                y.units() == x->mantissa * pow2((x->scale - 1) as nat),
                x.units() == x->mantissa * pow2(x->scale),
                pow2(x->scale) == 2 * pow2((x->scale - 1) as nat),
        ;
        law_rounding_keeps_order(n * one, 2, y.units(), 1);
        law_rounding_keeps_order(y.units(), 1, n * one, 2);
    }
}

/// A thousandth above an integer is a number above it.
pub(crate) proof fn lemma_thousandth_above(n: nat)
    requires
        n < 0x40_0000_0000,
    ensures
        below(integer(n), nearest(false, (1000 * n + 1) * one_units(), 1000)),
        nearest(false, (1000 * n + 1) * one_units(), 1000).valid(),
{
    let one = one_units();
    lemma_pow2_pos(1074);
    law_integers_are_exact(n);
    lemma2_to64();
    lemma_pow2_adds(7, 32);
    lemma_pow2_adds(13, 1061);
    let h = pow2(1061);
    lemma_pow2_pos(1061);
    let p = (1000 * n + 1) * one;
    assert(p <= pow2(39) * one * 1000) by (nonlinear_arith)
        requires
            p == (1000 * n + 1) * one,
            n < 0x40_0000_0000,
            pow2(39) == 0x80_0000_0000,
    ;
    lemma_nearest_error(p, 1000, 39);
    let x = nearest(false, p, 1000).units();
    assert(n * one < x) by (nonlinear_arith)
        requires
            p == (1000 * n + 1) * one,
            -(1000 * h) <= x * 1000 - p,
            one == 8192 * h,
            h > 0,
    ;
}

} // verus!
