//! Sizes, speeds, frequencies and times as they stand on the screen.

use crate::binary64::{
    at_most, below, ceiling, clamped, integer, law_integers_are_exact, law_rounding_keeps_order,
    lemma_ceiling_bound, lemma_exact, lemma_integer_bound, lemma_pow2_monotonic, lemma_powers,
    lemma_product_bounds, lemma_quotient_bound, one_units, power_of_two, product, quotient,
    round_half_even, Number, Parts, Real, HIDDEN_BIT, MANTISSA_LIMIT,
};
use crate::decimal::{decimal, decimal_filled, decimal_of, fixed, fixed_of, ten_to, zero_filled};
use crate::layout::{align_right, right_aligned};
use vstd::arithmetic::div_mod::{lemma_fundamental_div_mod, lemma_fundamental_div_mod_converse};
use vstd::arithmetic::power2::{lemma2_to64, lemma2_to64_rest, lemma_pow2_adds, lemma_pow2_pos, pow2};
use vstd::prelude::*;

verus! {

pub const KILO: u64 = 1024;

pub const MEGA: u64 = 1048576;

pub const GIGA: u64 = 1073741824;

pub const TERA: u64 = 1099511627776;

pub const PETA: u64 = 1125899906842624;

/// A number right-aligned in `width` characters with `precision` digits behind
/// the point.
pub open spec fn number_text(x: Number, width: nat, precision: nat) -> Seq<char> {
    right_aligned(fixed_of(x, precision), width)
}

/// A number right-aligned in `width` characters with as many digits behind the
/// point, up to `precision`, as fit.
pub open spec fn fitted_text(x: Number, width: nat, precision: nat) -> Seq<char>
    decreases precision,
{
    if precision == 0 || fixed_of(x, precision).len() <= width {
        number_text(x, width, precision)
    } else {
        fitted_text(x, width, (precision - 1) as nat)
    }
}

fn fitted(x: &Real, width: usize, precision: usize) -> (s: String)
    requires
        precision <= 9,
    ensures
        s@ == fitted_text(x@, width as nat, precision as nat),
    decreases precision,
{
    let s = fixed(x, precision);
    if precision == 0 || s.as_str().unicode_len() <= width {
        align_right(s.as_str(), width)
    } else {
        fitted(x, width, precision - 1)
    }
}

/// A number right-aligned in `width` characters.
pub fn number(x: &Real, width: usize, precision: usize) -> (s: String)
    requires
        precision <= 9,
    ensures
        s@ == number_text(x@, width as nat, precision as nat),
{
    align_right(fixed(x, precision).as_str(), width)
}

/// A part of a whole as a number; nothing of nothing is none of it.
pub open spec fn share(part: nat, whole: nat) -> Number {
    if whole > 0 {
        quotient(integer(part), integer(whole))
    } else {
        integer(0)
    }
}

/// A part of a whole as a number.
pub fn share_of(part: u64, whole: u64) -> (r: Real)
    ensures
        r@ == share(part as nat, whole as nat),
{
    if whole > 0 {
        Real::from_u64(part).over(Real::from_u64(whole))
    } else {
        Real::from_u64(0)
    }
}

/// A count of bytes.
pub struct FormatSize(pub u64);

impl FormatSize {
    /// The count in the unit that it reaches, ten characters wide: no digit
    /// behind the point from a thousand units on, one before.
    pub open spec fn shown(self) -> Seq<char> {
        let bytes = integer(self.0 as nat);
        let (v, unit) = if below(bytes, integer(KILO as nat)) {
            (bytes, " B"@)
        } else if below(bytes, integer(MEGA as nat)) {
            (quotient(bytes, integer(KILO as nat)), "KB"@)
        } else if below(bytes, integer(GIGA as nat)) {
            (quotient(bytes, integer(MEGA as nat)), "MB"@)
        } else if below(bytes, integer(TERA as nat)) {
            (quotient(bytes, integer(GIGA as nat)), "GB"@)
        } else if below(bytes, integer(PETA as nat)) {
            (quotient(bytes, integer(TERA as nat)), "TB"@)
        } else {
            (quotient(bytes, integer(PETA as nat)), "PB"@)
        };
        let precision: nat = if at_most(integer(1000), v) {
            0
        } else {
            1
        };
        fitted_text(v, 6, precision) + "  "@ + unit
    }

    /// The text of the size.
    pub fn text(&self) -> (s: String)
        ensures
            s@ == self.shown(),
    {
        let bytes = Real::from_u64(self.0);
        let kilo = Real::from_u64(KILO);
        let mega = Real::from_u64(MEGA);
        let giga = Real::from_u64(GIGA);
        let tera = Real::from_u64(TERA);
        let peta = Real::from_u64(PETA);
        let (v, unit): (Real, &str) = if bytes.less_than(&kilo) {
            (bytes, " B")
        } else if bytes.less_than(&mega) {
            (bytes.over(kilo), "KB")
        } else if bytes.less_than(&giga) {
            (bytes.over(mega), "MB")
        } else if bytes.less_than(&tera) {
            (bytes.over(giga), "GB")
        } else if bytes.less_than(&peta) {
            (bytes.over(tera), "TB")
        } else {
            (bytes.over(peta), "PB")
        };
        let precision: usize = if Real::from_u64(1000).is_at_most(&v) {
            0
        } else {
            1
        };
        let mut s = fitted(&v, 6, precision);
        s.append("  ");
        s.append(unit);
        s
    }
}

/// A network speed in bytes per second.
pub struct FormatNetSpeed(pub Real);

/// The speed in the unit that it reaches: one digit behind the point, and two
/// from gigabytes on.
pub open spec fn net_speed_text(speed: Number) -> Seq<char> {
    if below(speed, integer(KILO as nat)) {
        number_text(speed, 6, 1) + "   B/s"@
    } else if below(speed, integer(MEGA as nat)) {
        number_text(quotient(speed, integer(KILO as nat)), 6, 1) + "  KB/s"@
    } else if below(speed, integer(GIGA as nat)) {
        number_text(quotient(speed, integer(MEGA as nat)), 6, 1) + "  MB/s"@
    } else if below(speed, integer(TERA as nat)) {
        number_text(quotient(speed, integer(GIGA as nat)), 6, 2) + "  GB/s"@
    } else {
        number_text(quotient(speed, integer(TERA as nat)), 6, 2) + "  TB/s"@
    }
}

impl FormatNetSpeed {
    /// The speed as it is shown.
    pub open spec fn shown(self) -> Seq<char> {
        net_speed_text(self.0@)
    }

    /// The text of the speed.
    pub fn text(&self) -> (s: String)
        ensures
            s@ == self.shown(),
    {
        let speed = self.0;
        let kilo = Real::from_u64(KILO);
        let mega = Real::from_u64(MEGA);
        let giga = Real::from_u64(GIGA);
        let tera = Real::from_u64(TERA);
        if speed.less_than(&kilo) {
            number(&speed, 6, 1).concat("   B/s")
        } else if speed.less_than(&mega) {
            number(&speed.over(kilo), 6, 1).concat("  KB/s")
        } else if speed.less_than(&giga) {
            number(&speed.over(mega), 6, 1).concat("  MB/s")
        } else if speed.less_than(&tera) {
            number(&speed.over(giga), 6, 2).concat("  GB/s")
        } else {
            number(&speed.over(tera), 6, 2).concat("  TB/s")
        }
    }
}

/// A disk speed in bytes per second.
pub struct FormatDiskSpeed(pub Real);

/// The speed in the unit that it reaches, nine characters wide: no digit
/// behind the point from a thousand units on, one before.
pub open spec fn disk_speed_text(speed: Number) -> Seq<char> {
    let (v, unit) = if below(speed, integer(KILO as nat)) {
        (speed, "B/s"@)
    } else if below(speed, integer(MEGA as nat)) {
        (quotient(speed, integer(KILO as nat)), "K/s"@)
    } else if below(speed, integer(GIGA as nat)) {
        (quotient(speed, integer(MEGA as nat)), "M/s"@)
    } else if below(speed, integer(TERA as nat)) {
        (quotient(speed, integer(GIGA as nat)), "G/s"@)
    } else if below(speed, integer(PETA as nat)) {
        (quotient(speed, integer(TERA as nat)), "T/s"@)
    } else {
        (quotient(speed, integer(PETA as nat)), "P/s"@)
    };
    let precision: nat = if at_most(integer(1000), v) {
        0
    } else {
        1
    };
    fitted_text(v, 5, precision) + " "@ + unit
}

impl FormatDiskSpeed {
    /// The speed as it is shown.
    pub open spec fn shown(self) -> Seq<char> {
        disk_speed_text(self.0@)
    }

    /// The text of the speed.
    pub fn text(&self) -> (s: String)
        ensures
            s@ == self.shown(),
    {
        let speed = self.0;
        let kilo = Real::from_u64(KILO);
        let mega = Real::from_u64(MEGA);
        let giga = Real::from_u64(GIGA);
        let tera = Real::from_u64(TERA);
        let peta = Real::from_u64(PETA);
        let (v, unit): (Real, &str) = if speed.less_than(&kilo) {
            (speed, "B/s")
        } else if speed.less_than(&mega) {
            (speed.over(kilo), "K/s")
        } else if speed.less_than(&giga) {
            (speed.over(mega), "M/s")
        } else if speed.less_than(&tera) {
            (speed.over(giga), "G/s")
        } else if speed.less_than(&peta) {
            (speed.over(tera), "T/s")
        } else {
            (speed.over(peta), "P/s")
        };
        let precision: usize = if Real::from_u64(1000).is_at_most(&v) {
            0
        } else {
            1
        };
        let mut s = fitted(&v, 5, precision);
        s.append(" ");
        s.append(unit);
        s
    }
}

/// A time without activity, in seconds.
pub struct FormatIdleTime(pub u64);

/// The whole years in a time, of 365 days.
pub open spec fn years_in(secs: nat) -> nat {
    secs / 31536000
}

/// The whole months behind the years in a time, of 30 days.
pub open spec fn months_in(secs: nat) -> nat {
    (secs % 31536000) / 2592000
}

/// The whole days behind the months in a time.
pub open spec fn days_in(secs: nat) -> nat {
    (secs % 31536000 % 2592000) / 86400
}

/// The whole hours behind the days in a time.
pub open spec fn hours_in(secs: nat) -> nat {
    (secs % 86400) / 3600
}

/// The whole minutes behind the hours in a time.
pub open spec fn minutes_in(secs: nat) -> nat {
    (secs % 3600) / 60
}

/// Hours, minutes and seconds of a day.
pub open spec fn clock_text(secs: nat) -> Seq<char> {
    zero_filled(hours_in(secs), 2) + ":"@ + zero_filled(minutes_in(secs), 2) + ":"@ + zero_filled(secs % 60, 2)
}

impl FormatIdleTime {
    /// Years of 365 days, months of 30 days, days and the time of day, begun at
    /// the largest of them that is not zero.
    pub open spec fn shown(self) -> Seq<char> {
        let secs = self.0 as nat;
        let years = years_in(secs);
        let months = months_in(secs);
        let days = days_in(secs);
        let hours = hours_in(secs);
        let minutes = minutes_in(secs);
        if years > 0 {
            decimal_of(years) + " Years "@ + decimal_of(months) + " Months "@ + decimal_of(days) + " Days "@
                + clock_text(secs)
        } else if months > 0 {
            decimal_of(months) + " Months "@ + decimal_of(days) + " Days "@ + clock_text(secs)
        } else if days > 0 {
            decimal_of(days) + " Days "@ + clock_text(secs)
        } else if hours > 0 {
            clock_text(secs)
        } else if minutes > 0 {
            zero_filled(minutes, 2) + ":"@ + zero_filled(secs % 60, 2)
        } else {
            decimal_of(secs % 60) + "s"@
        }
    }

    /// The text of the time.
    pub fn text(&self) -> (s: String)
        ensures
            s@ == self.shown(),
    {
        let secs: u64 = self.0;
        let years: u64 = secs / 31536000;
        let months: u64 = (secs % 31536000) / 2592000;
        let days: u64 = (secs % 31536000 % 2592000) / 86400;
        let hours: u64 = (secs % 86400) / 3600;
        let minutes: u64 = (secs % 3600) / 60;
        if years > 0 {
            let mut s = decimal(years as u128);
            s.append(" Years ");
            s.append(decimal(months as u128).as_str());
            s.append(" Months ");
            s.append(decimal(days as u128).as_str());
            s.append(" Days ");
            s.append(clock(secs).as_str());
            s
        } else if months > 0 {
            let mut s = decimal(months as u128);
            s.append(" Months ");
            s.append(decimal(days as u128).as_str());
            s.append(" Days ");
            s.append(clock(secs).as_str());
            s
        } else if days > 0 {
            let mut s = decimal(days as u128);
            s.append(" Days ");
            s.append(clock(secs).as_str());
            s
        } else if hours > 0 {
            clock(secs)
        } else if minutes > 0 {
            let mut s = decimal_filled(minutes as u128, 2);
            s.append(":");
            s.append(decimal_filled((secs % 60) as u128, 2).as_str());
            s
        } else {
            decimal((secs % 60) as u128).concat("s")
        }
    }
}

fn clock(secs: u64) -> (s: String)
    ensures
        s@ == clock_text(secs as nat),
{
    let mut s = decimal_filled(((secs % 86400) / 3600) as u128, 2);
    s.append(":");
    s.append(decimal_filled(((secs % 3600) / 60) as u128, 2).as_str());
    s.append(":");
    s.append(decimal_filled((secs % 60) as u128, 2).as_str());
    s
}

/// A frequency in megahertz.
pub struct FormatHoc(pub Real);

/// The frequency rounded up, in the unit that it reaches, five characters
/// wide where it fits.
pub open spec fn overclock_text(mhz: Number) -> Seq<char> {
    let khz = product(mhz, integer(1000));
    if at_most(integer(1_000_000_000_000), khz) {
        fitted_text(ceiling(quotient(khz, integer(1_000_000_000_000))), 4, 0) + "P"@
    } else if at_most(integer(1_000_000_000), khz) {
        fitted_text(ceiling(quotient(khz, integer(1_000_000_000))), 4, 0) + "T"@
    } else if at_most(integer(1_000_000), khz) {
        let ghz = quotient(mhz, integer(1000));
        if below(ghz, integer(10)) {
            fitted_text(quotient(ceiling(product(ghz, integer(100))), integer(100)), 4, 2) + "G"@
        } else if below(ghz, integer(100)) {
            fitted_text(quotient(ceiling(product(ghz, integer(10))), integer(10)), 4, 1) + "G"@
        } else {
            fitted_text(ceiling(ghz), 4, 0) + "G"@
        }
    } else if at_most(integer(1000), khz) {
        fitted_text(ceiling(mhz), 4, 0) + "M"@
    } else {
        fitted_text(ceiling(khz), 4, 0) + "K"@
    }
}

impl FormatHoc {
    /// The frequency as it is shown.
    pub open spec fn shown(self) -> Seq<char> {
        overclock_text(self.0@)
    }

    /// The text of the frequency.
    pub fn text(&self) -> (s: String)
        ensures
            s@ == self.shown(),
    {
        let mhz = self.0;
        let thousand = Real::from_u64(1000);
        let khz = mhz.times(thousand);
        let peta = Real::from_u64(1_000_000_000_000);
        let tera = Real::from_u64(1_000_000_000);
        if peta.is_at_most(&khz) {
            fitted(&khz.over(peta).ceil(), 4, 0).concat("P")
        } else if tera.is_at_most(&khz) {
            fitted(&khz.over(tera).ceil(), 4, 0).concat("T")
        } else if Real::from_u64(1_000_000).is_at_most(&khz) {
            let ghz = mhz.over(thousand);
            let ten = Real::from_u64(10);
            let hundred = Real::from_u64(100);
            if ghz.less_than(&ten) {
                fitted(&ghz.times(hundred).ceil().over(hundred), 4, 2).concat("G")
            } else if ghz.less_than(&hundred) {
                fitted(&ghz.times(ten).ceil().over(ten), 4, 1).concat("G")
            } else {
                fitted(&ghz.ceil(), 4, 0).concat("G")
            }
        } else if thousand.is_at_most(&khz) {
            fitted(&mhz.ceil(), 4, 0).concat("M")
        } else {
            fitted(&khz.ceil(), 4, 0).concat("K")
        }
    }
}

/// A number in six characters.
pub struct FormatDynamic6(pub Real);

/// The count of decimal digits before the point.
pub open spec fn integer_length(x: Number) -> nat {
    decimal_of((x.units() / one_units()) as nat).len()
}

/// The number with as many digits behind the point as fit; from six digits
/// before the point on, none, and no more than 999999.
pub open spec fn dynamic_text(x: Number) -> Seq<char> {
    let n = integer_length(x);
    if n >= 6 {
        fitted_text(clamped(x, integer(0), integer(999999)), 6, 0)
    } else {
        fitted_text(x, 6, (5 - n) as nat)
    }
}

impl FormatDynamic6 {
    /// The number as it is shown.
    pub open spec fn shown(self) -> Seq<char> {
        dynamic_text(self.0@)
    }

    /// The text of the number.
    pub fn text(&self) -> (s: String)
        ensures
            s@ == self.shown(),
    {
        let x = self.0;
        match x.parts() {
            Parts::Finite { mantissa, scale, .. } => {
                let whole: u64 = whole_part(mantissa, scale);
                proof {
                    lemma_integer_length(mantissa as nat, scale as nat, whole as nat);
                }
                if whole >= 100000 {
                    fitted(&x.clamp(Real::from_u64(0), Real::from_u64(999999)), 6, 0)
                } else if whole >= 10000 {
                    fitted(&x, 6, 0)
                } else if whole >= 1000 {
                    fitted(&x, 6, 1)
                } else if whole >= 100 {
                    fitted(&x, 6, 2)
                } else if whole >= 10 {
                    fitted(&x, 6, 3)
                } else {
                    fitted(&x, 6, 4)
                }
            },
            _ => {
                proof {
                    lemma_pow2_pos(1074);
                    lemma_fundamental_div_mod_converse(0, one_units() as int, 0, 0);
                    assert(decimal_of(0).len() == 1);
                }
                fitted(&x, 6, 4)
            },
        }
    }
}

/// The integer part of a finite number, or some integer of at least six digits
/// where the integer part has that many.
fn whole_part(m: u64, scale: u32) -> (w: u64)
    requires
        scale > 0 ==> m >= HIDDEN_BIT,
    ensures
        ({
            let exact = (m as nat * pow2(scale as nat)) / one_units();
            w == exact || (w >= 100000 && exact >= 100000)
        }),
{
    proof {
        lemma_pow2_pos(1074);
        lemma_pow2_pos(scale as nat);
    }
    if scale >= 1074 {
        proof {
            lemma_pow2_monotonic(1074, scale as nat);
            let one = one_units() as int;
            let units = (m as nat * pow2(scale as nat)) as int;
            assert(units >= 100000 * one) by (nonlinear_arith)
                requires
                    units == m * pow2(scale as nat),
                    m >= 100000,
                    pow2(scale as nat) >= one,
                    one > 0,
            ;
            assert(units / one >= 100000) by (nonlinear_arith)
                requires
                    units >= 100000 * one,
                    one > 0,
            ;
        }
        return 100000;
    }
    let down: u32 = 1074 - scale;
    proof {
        lemma_powers();
        lemma_pow2_adds(scale as nat, down as nat);
        lemma_pow2_pos(down as nat);
    }
    if down > 127 {
        proof {
            lemma_pow2_monotonic(128, down as nat);
            let units = m as nat * pow2(scale as nat);
            assert(units < one_units()) by (nonlinear_arith)
                requires
                    units == m * pow2(scale as nat),
                    one_units() == pow2(scale as nat) * pow2(down as nat),
                    m < pow2(down as nat),
                    pow2(scale as nat) > 0,
            ;
            lemma_fundamental_div_mod_converse(units as int, one_units() as int, 0, units as int);
        }
        return 0;
    }
    let d: u128 = power_of_two(down);
    let w: u128 = m as u128 / d;
    proof {
        let u = pow2(scale as nat) as int;
        lemma_fundamental_div_mod(m as int, d as int);
        assert(w <= m) by (nonlinear_arith)
            requires
                w == m as int / d as int,
                d >= 1,
        ;
        let r = m as int % d as int;
        let units = (m as nat * pow2(scale as nat)) as int;
        assert(units == w * (u * d) + u * r && 0 <= u * r < u * d) by (nonlinear_arith)
            requires
                units == m * u,
                m == d * w + r,
                0 <= r < d,
                u > 0,
        ;
        lemma_fundamental_div_mod_converse(units, u * d, w as int, u * r);
    }
    w as u64
}

/// The count of digits of an integer by its size.
proof fn lemma_integer_length(m: nat, scale: nat, whole: nat)
    requires
        ({
            let exact = (m * pow2(scale)) / one_units();
            whole == exact || (whole >= 100000 && exact >= 100000)
        }),
    ensures
        ({
            let n = decimal_of(((m * pow2(scale)) / one_units()) as nat).len();
            &&& whole < 10 ==> n == 1
            &&& 10 <= whole < 100 ==> n == 2
            &&& 100 <= whole < 1000 ==> n == 3
            &&& 1000 <= whole < 10000 ==> n == 4
            &&& 10000 <= whole < 100000 ==> n == 5
            &&& whole >= 100000 ==> n >= 6
        }),
{
    let exact = (m * pow2(scale)) / one_units();
    reveal_with_fuel(decimal_of, 7);
}

// ---------------------------------------------------------------------------
// Laws of widths
// ---------------------------------------------------------------------------

pub(crate) proof fn lemma_decimal_length(k: nat, w: nat)
    requires
        w > 0,
        k < ten_to(w),
    ensures
        0 < decimal_of(k).len() <= w,
    decreases w,
{
    if k >= 10 {
        reveal_with_fuel(ten_to, 2);
        assert(w > 1);
        lemma_decimal_length(k / 10, (w - 1) as nat);
    }
}

/// The parts of an idle time add up to it, and each stays below the next larger one.
pub proof fn law_idle_time_adds_up(secs: nat)
    ensures
        years_in(secs) * 31536000 + months_in(secs) * 2592000 + days_in(secs) * 86400 + hours_in(secs) * 3600
            + minutes_in(secs) * 60 + secs % 60 == secs,
        months_in(secs) <= 12,
        days_in(secs) < 30,
        hours_in(secs) < 24,
        minutes_in(secs) < 60,
{
    let rest = secs % 31536000;
    let day = rest % 2592000;
    assert(secs % 86400 == day % 86400);
    assert(secs % 3600 == day % 86400 % 3600);
    assert(secs % 60 == day % 86400 % 3600 % 60);
}

/// A number fits where its integer part does.
pub proof fn law_fitted_fills_the_width(x: Number, width: nat, precision: nat)
    requires
        fixed_of(x, 0).len() <= width,
    ensures
        fitted_text(x, width, precision).len() == width,
    decreases precision,
{
    if precision > 0 && fixed_of(x, precision).len() > width {
        law_fitted_fills_the_width(x, width, (precision - 1) as nat);
    }
}

/// The integer nearest to a number that is not negative and at most `n` is at most `n`.
proof fn lemma_whole_text(x: Number, n: nat, width: nat)
    requires
        x is Finite,
        !x->Finite_negative,
        x.units() <= n * one_units(),
        n < ten_to(width),
        width > 0,
    ensures
        fixed_of(x, 0).len() <= width,
{
    let one = one_units();
    lemma_pow2_pos(1074);
    let units = x.units();
    assert(units * ten_to(0) == units) by (nonlinear_arith)
        requires
            ten_to(0) == 1,
    ;
    lemma_fundamental_div_mod(units as int, one as int);
    let k = round_half_even(units, one);
    assert(k <= n) by (nonlinear_arith)
        requires
            units == one * (units / one) + units % one,
            0 <= units % one < one,
            units <= n * one,
            one > 0,
            k == units / one || (k == units / one + 1 && 2 * (units % one) >= one),
    ;
    lemma_decimal_length(k, width);
}

/// A negative number whose nearest integer is at most `n` has that many digits behind
/// its sign.
proof fn lemma_negative_text(x: Number, n: nat, width: nat)
    requires
        x is Finite,
        x->Finite_negative,
        2 * x.units() < (2 * n + 1) * one_units(),
        n < ten_to(width),
        width > 0,
    ensures
        fixed_of(x, 0).len() <= width + 1,
{
    let one = one_units();
    lemma_pow2_pos(1074);
    let units = x.units();
    assert(units * ten_to(0) == units) by (nonlinear_arith)
        requires
            ten_to(0) == 1,
    ;
    lemma_fundamental_div_mod(units as int, one as int);
    let k = round_half_even(units, one);
    assert(k <= n) by (nonlinear_arith)
        requires
            units == one * (units / one) + units % one,
            0 <= units % one < one,
            2 * units < (2 * n + 1) * one,
            one > 0,
            k == units / one || (k == units / one + 1 && 2 * (units % one) >= one),
    ;
    lemma_decimal_length(k, width);
}

/// A size is ten characters wide.
pub proof fn law_size_width(size: FormatSize)
    ensures
        size.shown().len() == 10,
{
    let bytes = integer(size.0 as nat);
    lemma_integer_bound(size.0 as nat);
    law_integers_are_exact(KILO as nat);
    law_integers_are_exact(MEGA as nat);
    law_integers_are_exact(GIGA as nat);
    law_integers_are_exact(TERA as nat);
    law_integers_are_exact(PETA as nat);
    lemma_pow2_pos(1074);
    reveal_with_fuel(ten_to, 7);
    reveal_strlit(" B");
    reveal_strlit("KB");
    reveal_strlit("MB");
    reveal_strlit("GB");
    reveal_strlit("TB");
    reveal_strlit("PB");
    reveal_strlit("  ");
    let v = if below(bytes, integer(KILO as nat)) {
        bytes
    } else if below(bytes, integer(MEGA as nat)) {
        lemma_quotient_bound(bytes, integer(KILO as nat), 1024);
        quotient(bytes, integer(KILO as nat))
    } else if below(bytes, integer(GIGA as nat)) {
        lemma_quotient_bound(bytes, integer(MEGA as nat), 1024);
        quotient(bytes, integer(MEGA as nat))
    } else if below(bytes, integer(TERA as nat)) {
        lemma_quotient_bound(bytes, integer(GIGA as nat), 1024);
        quotient(bytes, integer(GIGA as nat))
    } else if below(bytes, integer(PETA as nat)) {
        lemma_quotient_bound(bytes, integer(TERA as nat), 1024);
        quotient(bytes, integer(TERA as nat))
    } else {
        lemma_quotient_bound(bytes, integer(PETA as nat), 16384);
        quotient(bytes, integer(PETA as nat))
    };
    let precision: nat = if at_most(integer(1000), v) {
        0
    } else {
        1
    };
    lemma_whole_text(v, 16384, 6);
    law_fitted_fills_the_width(v, 6, precision);
}

/// A disk speed is nine characters wide, unless it is not above -9999.5 bytes or above
/// 99999 petabytes per second.
pub proof fn law_disk_speed_width(x: Number)
    requires
        x is Finite && !x->Finite_negative ==> x.units() <= 99999 * (PETA * one_units()),
        x is Finite && x->Finite_negative ==> 2 * x.units() < 19999 * one_units(),
    ensures
        disk_speed_text(x).len() == 9,
{
    if x is Finite && !x->Finite_negative {
        lemma_finite_speed(x);
    } else if x is Finite {
        law_integers_are_exact(KILO as nat);
        law_integers_are_exact(1000);
        lemma_pow2_pos(1074);
        reveal_with_fuel(ten_to, 6);
        reveal_strlit("B/s");
        reveal_strlit(" ");
        lemma_negative_text(x, 9999, 4);
        law_fitted_fills_the_width(x, 5, 1);
    } else {
        law_integers_are_exact(KILO as nat);
        law_integers_are_exact(PETA as nat);
        lemma_pow2_pos(1074);
        reveal_strlit("NaN");
        reveal_strlit("inf");
        reveal_strlit("-inf");
        reveal_strlit("B/s");
        reveal_strlit("P/s");
        reveal_strlit(" ");
        let v = if below(x, integer(KILO as nat)) {
            x
        } else {
            quotient(x, integer(PETA as nat))
        };
        law_fitted_fills_the_width(v, 5, 0);
        law_fitted_fills_the_width(v, 5, 1);
    }
}

proof fn lemma_finite_speed(x: Number)
    requires
        x is Finite,
        !x->Finite_negative,
        x.units() <= 99999 * (PETA * one_units()),
    ensures
        disk_speed_text(x).len() == 9,
{
    law_integers_are_exact(KILO as nat);
    law_integers_are_exact(MEGA as nat);
    law_integers_are_exact(GIGA as nat);
    law_integers_are_exact(TERA as nat);
    law_integers_are_exact(PETA as nat);
    lemma_pow2_pos(1074);
    reveal_with_fuel(ten_to, 7);
    reveal_strlit("B/s");
    reveal_strlit("K/s");
    reveal_strlit("M/s");
    reveal_strlit("G/s");
    reveal_strlit("T/s");
    reveal_strlit("P/s");
    reveal_strlit(" ");
    let v = if below(x, integer(KILO as nat)) {
        x
    } else if below(x, integer(MEGA as nat)) {
        lemma_quotient_bound(x, integer(KILO as nat), 1024);
        quotient(x, integer(KILO as nat))
    } else if below(x, integer(GIGA as nat)) {
        lemma_quotient_bound(x, integer(MEGA as nat), 1024);
        quotient(x, integer(MEGA as nat))
    } else if below(x, integer(TERA as nat)) {
        lemma_quotient_bound(x, integer(GIGA as nat), 1024);
        quotient(x, integer(GIGA as nat))
    } else if below(x, integer(PETA as nat)) {
        lemma_quotient_bound(x, integer(TERA as nat), 1024);
        quotient(x, integer(TERA as nat))
    } else {
        lemma_quotient_bound(x, integer(PETA as nat), 99999);
        quotient(x, integer(PETA as nat))
    };
    let precision: nat = if at_most(integer(1000), v) {
        0
    } else {
        1
    };
    lemma_whole_text(v, 99999, 5);
    law_fitted_fills_the_width(v, 5, precision);
}

/// A number with one digit or two behind the point that rounds to five digits in all
/// is six characters wide.
pub(crate) proof fn lemma_point_text(x: Number, p: nat)
    requires
        x is Finite,
        !x->Finite_negative,
        p == 1 || p == 2,
        p == 1 ==> 20 * x.units() < 199999 * one_units(),
        p == 2 ==> 200 * x.units() < 199999 * one_units(),
    ensures
        fixed_of(x, p).len() <= 6,
{
    let one = one_units();
    lemma_pow2_pos(1074);
    reveal_with_fuel(ten_to, 6);
    assert(ten_to(1) == 10 && ten_to(2) == 100 && ten_to(3) == 1000 && ten_to(4) == 10000);
    let scaled = x.units() * ten_to(p);
    let k = round_half_even(scaled, one);
    lemma_fundamental_div_mod(scaled as int, one as int);
    assert(2 * scaled < 199999 * one) by {
        assert(x.units() * 10 == 10 * x.units() && x.units() * 100 == 100 * x.units());
    }
    assert(k <= 99999) by (nonlinear_arith)
        requires
            scaled == one * (scaled / one) + scaled % one,
            0 <= scaled % one < one,
            2 * scaled < 199999 * one,
            one > 0,
            k == scaled / one || (k == scaled / one + 1 && 2 * (scaled % one) >= one),
    ;
    if p == 1 {
        lemma_decimal_length(k / ten_to(p), 4);
    } else {
        lemma_decimal_length(k / ten_to(p), 3);
    }
    lemma_decimal_length(k % ten_to(p), p);
}

/// The quotient by a unit of a number below a thousand units is below a thousand.
proof fn lemma_below_thousand(x: Number, unit: nat)
    requires
        x is Finite,
        !x->Finite_negative,
        0 < unit < MANTISSA_LIMIT,
        100 * x.units() < 99999 * (unit * one_units()),
    ensures
        quotient(x, integer(unit)) is Finite,
        !quotient(x, integer(unit))->Finite_negative,
        256 * quotient(x, integer(unit)).units() <= 255998 * one_units(),
{
    let one = one_units();
    law_integers_are_exact(unit);
    lemma_pow2_pos(1074);
    lemma_pow2_pos(8);
    lemma_powers();
    lemma2_to64();
    lemma2_to64_rest();
    // 255998 / 256 is a number of the format, a little above 999.99.
    let bound = Number::Finite { negative: false, mantissa: (255998 * pow2(35)) as nat, scale: 1031 };
    lemma_pow2_adds(35, 1031);
    lemma_pow2_adds(8, 1066);
    assert(256 * bound.units() == 255998 * one) by (nonlinear_arith)
        requires
            bound.units() == 255998 * pow2(35) * pow2(1031),
            pow2(35) * pow2(1031) == pow2(1066),
            pow2(8) * pow2(1066) == one,
            pow2(8) == 256,
    ;
    lemma_exact(bound);
    let b = integer(unit);
    assert(b.units() == unit * one);
    assert(b.units() > 0) by (nonlinear_arith)
        requires
            b.units() == unit * one,
            unit > 0,
            one > 0,
    ;
    assert(b->mantissa != 0) by {
        if b->mantissa == 0 {
            assert(0 * pow2(b->scale) == 0) by (nonlinear_arith);
        }
    }
    assert(x.units() * one * 1 <= bound.units() * b.units()) by (nonlinear_arith)
        requires
            100 * x.units() < 99999 * b.units(),
            256 * bound.units() == 255998 * one,
            one > 0,
    ;
    law_rounding_keeps_order(x.units() * one, b.units(), bound.units(), 1);
}

/// A negative number that rounds to three digits before the point and one behind it is
/// six characters wide.
proof fn lemma_negative_point_text(x: Number)
    requires
        x is Finite,
        x->Finite_negative,
        20 * x.units() < 19999 * one_units(),
    ensures
        fixed_of(x, 1).len() <= 6,
{
    let one = one_units();
    lemma_pow2_pos(1074);
    reveal_with_fuel(ten_to, 6);
    assert(ten_to(1) == 10 && ten_to(2) == 100 && ten_to(3) == 1000);
    let scaled = x.units() * ten_to(1);
    let k = round_half_even(scaled, one);
    lemma_fundamental_div_mod(scaled as int, one as int);
    assert(scaled == 10 * x.units());
    assert(k <= 9999) by (nonlinear_arith)
        requires
            scaled == one * (scaled / one) + scaled % one,
            0 <= scaled % one < one,
            2 * scaled < 19999 * one,
            one > 0,
            k == scaled / one || (k == scaled / one + 1 && 2 * (scaled % one) >= one),
    ;
    lemma_decimal_length(k / ten_to(1), 3);
    lemma_decimal_length(k % ten_to(1), 1);
}

/// A network speed is twelve characters wide, unless it is not above -999.95 bytes, or
/// from 999.99 gigabytes up to a terabyte, or not below 999.99 terabytes per second.
pub proof fn law_net_speed_width(x: Number)
    requires
        x is Finite && !x->Finite_negative ==> 100 * x.units() < 99999 * (GIGA * one_units()) || (TERA * one_units()
            <= x.units() && 100 * x.units() < 99999 * (TERA * one_units())),
        x is Finite && x->Finite_negative ==> 20 * x.units() < 19999 * one_units(),
    ensures
        net_speed_text(x).len() == 12,
{
    let one = one_units();
    law_integers_are_exact(KILO as nat);
    law_integers_are_exact(MEGA as nat);
    law_integers_are_exact(GIGA as nat);
    law_integers_are_exact(TERA as nat);
    lemma_pow2_pos(1074);
    reveal_with_fuel(ten_to, 6);
    reveal_strlit("   B/s");
    reveal_strlit("  KB/s");
    reveal_strlit("  MB/s");
    reveal_strlit("  GB/s");
    reveal_strlit("  TB/s");
    reveal_strlit("NaN");
    reveal_strlit("inf");
    reveal_strlit("-inf");
    if x is Finite {
        if x->Finite_negative {
            lemma_negative_point_text(x);
        } else if below(x, integer(KILO as nat)) {
            lemma_point_text(x, 1);
        } else if below(x, integer(MEGA as nat)) {
            lemma_quotient_bound(x, integer(KILO as nat), 1024);
            lemma_point_text(quotient(x, integer(KILO as nat)), 1);
        } else if below(x, integer(GIGA as nat)) {
            lemma_quotient_bound(x, integer(MEGA as nat), 1024);
            lemma_point_text(quotient(x, integer(MEGA as nat)), 1);
        } else if below(x, integer(TERA as nat)) {
            lemma_below_thousand(x, GIGA as nat);
            lemma_point_text(quotient(x, integer(GIGA as nat)), 2);
        } else {
            lemma_below_thousand(x, TERA as nat);
            lemma_point_text(quotient(x, integer(TERA as nat)), 2);
        }
    }
}

/// A number is six characters wide, unless it is below zero and rounds to -100000 though
/// it has five digits before the point.
pub proof fn law_dynamic_width(x: Number)
    requires
        x.valid(),
        x is Finite && x->Finite_negative && x.units() < 100000 * one_units() ==> 2 * x.units() < 199999
            * one_units(),
    ensures
        dynamic_text(x).len() == 6,
{
    let one = one_units();
    let n = integer_length(x);
    reveal_with_fuel(ten_to, 8);
    lemma_pow2_pos(1074);
    reveal_strlit("NaN");
    reveal_strlit("inf");
    reveal_strlit("-inf");
    if x is Finite {
        let whole = (x.units() / one) as nat;
        lemma_fundamental_div_mod(x.units() as int, one as int);
        if n >= 6 {
            law_integers_are_exact(0);
            law_integers_are_exact(999999);
            let held = clamped(x, integer(0), integer(999999));
            if x->Finite_negative {
                lemma_whole_above(x.units(), whole);
                assert(held == integer(0));
            }
            lemma_whole_text(held, 999999, 6);
            law_fitted_fills_the_width(held, 6, 0);
        } else {
            if whole >= 100000 {
                lemma_many_digits(whole);
            }
            assert(x.units() <= 100000 * one) by (nonlinear_arith)
                requires
                    x.units() == one * whole + x.units() % one,
                    0 <= x.units() % one < one,
                    whole + 1 <= 100000,
                    one > 0,
            ;
            if x->Finite_negative {
                assert(x.units() < 100000 * one) by (nonlinear_arith)
                    requires
                        x.units() == one * whole + x.units() % one,
                        0 <= x.units() % one < one,
                        whole + 1 <= 100000,
                        one > 0,
                ;
                lemma_negative_text(x, 99999, 5);
            } else {
                lemma_whole_text(x, 100000, 6);
            }
            law_fitted_fills_the_width(x, 6, (5 - n) as nat);
        }
    } else {
        lemma_fundamental_div_mod_converse(0, one as int, 0, 0);
        assert(decimal_of(0).len() == 1);
        law_fitted_fills_the_width(x, 6, (5 - n) as nat);
    }
}

/// A number with digits before the point is not zero.
proof fn lemma_whole_above(units: nat, whole: nat)
    requires
        whole == units / one_units(),
        decimal_of(whole).len() >= 6,
    ensures
        units > 0,
{
    lemma_pow2_pos(1074);
    if units == 0 {
        lemma_fundamental_div_mod_converse(0, one_units() as int, 0, 0);
        assert(decimal_of(0).len() == 1);
    }
}

proof fn lemma_many_digits(k: nat)
    requires
        k >= 100000,
    ensures
        decimal_of(k).len() >= 6,
{
    reveal_with_fuel(decimal_of, 7);
}

/// An overclock from above minus one megahertz to nine exahertz is five characters wide,
/// and so is one that is not finite.
pub proof fn law_overclock_width(mhz: Number)
    requires
        mhz.valid(),
        mhz is Finite && !mhz->Finite_negative ==> at_most(product(mhz, integer(1000)), integer(9_000_000_000_000_000)),
        mhz is Finite && mhz->Finite_negative ==> below(integer(1000).negated(), product(mhz, integer(1000))),
    ensures
        overclock_text(mhz).len() == 5,
{
    if mhz is Finite && !mhz->Finite_negative {
        lemma_overclock(mhz);
    } else {
        lemma_odd_overclock(mhz);
    }
}

/// The text of an overclock that is below zero or not finite.
proof fn lemma_odd_overclock(mhz: Number)
    requires
        mhz is Finite ==> mhz->Finite_negative && below(integer(1000).negated(), product(mhz, integer(1000))),
    ensures
        overclock_text(mhz).len() == 5,
{
    let one = one_units();
    let khz = product(mhz, integer(1000));
    lemma_pow2_pos(1074);
    reveal_with_fuel(ten_to, 8);
    reveal_strlit("P");
    reveal_strlit("K");
    reveal_strlit("NaN");
    reveal_strlit("inf");
    reveal_strlit("-inf");
    law_integers_are_exact(1000);
    law_integers_are_exact(1_000_000);
    law_integers_are_exact(1_000_000_000);
    law_integers_are_exact(1_000_000_000_000);
    if mhz is Finite {
        let whole = khz.units() as int / one as int;
        assert(0 <= whole <= 999) by (nonlinear_arith)
            requires
                whole == khz.units() as int / one as int,
                0 <= khz.units() < 1000 * one,
                one > 0,
        ;
        law_integers_are_exact(whole as nat);
        let up = ceiling(khz);
        assert(up is Finite && up->Finite_negative && up.units() == whole * one);
        assert(2 * (whole * one) < 1999 * one) by (nonlinear_arith)
            requires
                0 <= whole <= 999,
                one > 0,
        ;
        lemma_negative_text(up, 999, 3);
        law_fitted_fills_the_width(up, 4, 0);
    } else {
        assert(integer(1000)->Finite_mantissa != 0) by {
            if integer(1000)->Finite_mantissa == 0 {
                assert(0 * pow2(integer(1000)->scale) == 0) by (nonlinear_arith);
            }
        }
        assert(integer(1_000_000_000_000)->Finite_mantissa != 0) by {
            if integer(1_000_000_000_000)->Finite_mantissa == 0 {
                assert(0 * pow2(integer(1_000_000_000_000)->scale) == 0) by (nonlinear_arith);
            }
        }
        if khz is Infinite && !khz->Infinite_negative {
            law_fitted_fills_the_width(quotient(khz, integer(1_000_000_000_000)), 4, 0);
        } else {
            law_fitted_fills_the_width(khz, 4, 0);
        }
    }
}

proof fn lemma_overclock(mhz: Number)
    requires
        mhz.valid(),
        mhz is Finite,
        !mhz->Finite_negative,
        at_most(product(mhz, integer(1000)), integer(9_000_000_000_000_000)),
    ensures
        overclock_text(mhz).len() == 5,
{
    let one = one_units();
    let khz = product(mhz, integer(1000));
    lemma_pow2_pos(1074);
    reveal_with_fuel(ten_to, 8);
    reveal_strlit("P");
    reveal_strlit("T");
    reveal_strlit("G");
    reveal_strlit("M");
    reveal_strlit("K");
    law_integers_are_exact(10);
    law_integers_are_exact(100);
    law_integers_are_exact(1000);
    law_integers_are_exact(1_000_000);
    law_integers_are_exact(1_000_000_000);
    law_integers_are_exact(1_000_000_000_000);
    law_integers_are_exact(9_000_000_000_000_000);
    lemma_product_bounds(mhz, integer(1000), 0);
    // A frequency whose product with a thousand is below `n` is not above `n / 1000`.
    lemma_frequency_bound(mhz, 1000, 1_000_000);
    lemma_frequency_bound(mhz, 1_000_000, 1_000_000_000);
    if at_most(integer(1_000_000_000_000), khz) {
        lemma_quotient_bound(khz, integer(1_000_000_000_000), 9000);
        lemma_four(quotient(khz, integer(1_000_000_000_000)), 9000);
    } else if at_most(integer(1_000_000_000), khz) {
        lemma_quotient_bound(khz, integer(1_000_000_000), 1000);
        lemma_four(quotient(khz, integer(1_000_000_000)), 1000);
    } else if at_most(integer(1_000_000), khz) {
        lemma_quotient_bound(mhz, integer(1000), 1000);
        let ghz = quotient(mhz, integer(1000));
        if below(ghz, integer(10)) {
            lemma_rounded_up(ghz, 100, 1000, 10, 2);
        } else if below(ghz, integer(100)) {
            lemma_rounded_up(ghz, 10, 1000, 100, 1);
        } else {
            lemma_four(ghz, 1000);
        }
    } else if at_most(integer(1000), khz) {
        lemma_four(mhz, 1000);
    } else {
        lemma_four(khz, 1000);
    }
}

/// What rounds up to an integer of four digits is four characters wide.
proof fn lemma_four(x: Number, n: nat)
    requires
        x is Finite,
        !x->Finite_negative,
        x.units() <= n * one_units(),
        n <= 9999,
    ensures
        fitted_text(ceiling(x), 4, 0).len() == 4,
{
    reveal_with_fuel(ten_to, 8);
    lemma_ceiling_bound(x, n);
    lemma_whole_text(ceiling(x), n, 4);
    law_fitted_fills_the_width(ceiling(x), 4, 0);
}

proof fn lemma_frequency_bound(mhz: Number, n: nat, khz: nat)
    requires
        mhz is Finite,
        !mhz->Finite_negative,
        khz == 1000 * n,
        khz <= 9007199254740992,
    ensures
        below(product(mhz, integer(1000)), integer(khz)) ==> mhz.units() <= n * one_units(),
{
    let one = one_units();
    law_integers_are_exact(1000);
    law_integers_are_exact(khz);
    if mhz.units() > n * one {
        assert(mhz.units() * (1000 * one) >= khz * one * one) by (nonlinear_arith)
            requires
                mhz.units() >= n * one,
                khz == 1000 * n,
        ;
        lemma_product_bounds(mhz, integer(1000), khz);
    }
}

/// A frequency rounded up to a fraction of one digit or two is four characters wide.
proof fn lemma_rounded_up(ghz: Number, factor: nat, most: nat, bound: nat, precision: nat)
    requires
        ghz is Finite,
        !ghz->Finite_negative,
        below(ghz, integer(bound)),
        most == factor * bound,
        most <= 1000,
        1 <= factor <= 100,
        bound <= 100,
    ensures
        fitted_text(
            quotient(ceiling(product(ghz, integer(factor))), integer(factor)),
            4,
            precision,
        ).len() == 4,
{
    let one = one_units();
    lemma_pow2_pos(1074);
    reveal_with_fuel(ten_to, 8);
    law_integers_are_exact(factor);
    law_integers_are_exact(bound);
    law_integers_are_exact(most);
    assert(ghz.units() * (factor * one) <= most * one * one) by (nonlinear_arith)
        requires
            ghz.units() <= bound * one,
            most == factor * bound,
    ;
    lemma_product_bounds(ghz, integer(factor), most);
    let scaled = product(ghz, integer(factor));
    lemma_ceiling_bound(scaled, most);
    let up = ceiling(scaled);
    assert(up.units() <= bound * (factor * one)) by (nonlinear_arith)
        requires
            up.units() <= most * one,
            most == factor * bound,
    ;
    assert(factor * one > 0) by (nonlinear_arith)
        requires
            factor >= 1,
            one > 0,
    ;
    lemma_quotient_bound(up, integer(factor), bound);
    let x = quotient(up, integer(factor));
    lemma_whole_text(x, bound, 4);
    law_fitted_fills_the_width(x, 4, precision);
}

} // verus!
