//! Colours of loads, speeds, temperatures and times, as escape sequences.

use crate::binary64::{
    at_most, below, clamped, difference, fraction, integer, larger, law_integers_are_exact,
    law_rounding_keeps_order, nearest, one_units, product, quotient, rounded_byte, sum, Number, Real,
};
use crate::decimal::{decimal, decimal_of, lemma_decimal_digits};
use crate::layout::{ends_at, is_closed, is_final, visible_length, width_of, Place, ESCAPE};
use crate::text::equal;
use vstd::arithmetic::power2::{lemma_pow2_pos, pow2};
use vstd::prelude::*;

verus! {

/// Red, green and blue.
pub type Rgb = (u8, u8, u8);

pub const GREEN: Rgb = (0, 200, 0);

pub const YELLOW: Rgb = (255, 255, 0);

pub const ORANGE: Rgb = (255, 165, 0);

pub const DARK_RED: Rgb = (200, 30, 30);

pub const RED: Rgb = (255, 0, 0);

pub const LIGHT_RED: Rgb = (255, 100, 100);

pub const FLAME: Rgb = (255, 50, 0);

pub const VIOLET: Rgb = (238, 130, 238);

/// Ends every colour.
pub const RESET: &'static str = "\x1b[0m";

/// Bold type in the current colour.
pub const BOLD: &'static str = "\x1b[1m";

/// Bold white.
pub const WHITE_BOLD: &'static str = "\x1b[1;37m";

/// Bold violet: beyond the top of a scale.
pub const VIOLET_BOLD: &'static str = "\x1b[1;38;2;238;130;238m";

/// Bold red of the terminal's own palette.
pub const PEAK_RED: &'static str = "\x1b[1;31m";

/// The seconds of a year of 365 days.
pub const YEAR: u64 = 31536000;

// ---------------------------------------------------------------------------
// Blending
// ---------------------------------------------------------------------------

/// One channel on the way from `a` to `b`.
pub open spec fn blended_channel(a: u8, b: u8, t: Number) -> int {
    rounded_byte(sum(integer(a as nat), product(difference(integer(b as nat), integer(a as nat)), t)))
}

/// The colour on the way from `a` to `b` at `t`, which is held between 0 and 1.
pub open spec fn blended(a: Rgb, b: Rgb, t: Number) -> Rgb {
    let held = clamped(t, integer(0), integer(1));
    (
        blended_channel(a.0, b.0, held) as u8,
        blended_channel(a.1, b.1, held) as u8,
        blended_channel(a.2, b.2, held) as u8,
    )
}

/// The escape sequence that sets a colour.
pub open spec fn color_sequence(bold: bool, c: Rgb) -> Seq<char> {
    let start = if bold {
        "\x1b[1;38;2;"@
    } else {
        "\x1b[38;2;"@
    };
    start + decimal_of(c.0 as nat) + ";"@ + decimal_of(c.1 as nat) + ";"@ + decimal_of(c.2 as nat) + "m"@
}

fn blend_channel(a: u8, b: u8, t: Real) -> (r: u8)
    ensures
        r == blended_channel(a, b, t@),
{
    let low = Real::from_u64(a as u64);
    let high = Real::from_u64(b as u64);
    low.plus(high.minus(low).times(t)).round_to_byte()
}

/// The colour on the way from `c1` to `c2` at `t`.
pub fn lerp_color(c1: Rgb, c2: Rgb, t: Real) -> (r: Rgb)
    ensures
        r == blended(c1, c2, t@),
{
    let held = t.clamp(Real::from_u64(0), Real::from_u64(1));
    (blend_channel(c1.0, c2.0, held), blend_channel(c1.1, c2.1, held), blend_channel(c1.2, c2.2, held))
}

fn sequence(bold: bool, c: Rgb) -> (s: String)
    ensures
        s@ == color_sequence(bold, c),
{
    let mut s = if bold {
        "\x1b[1;38;2;".to_owned()
    } else {
        "\x1b[38;2;".to_owned()
    };
    s.append(decimal(c.0 as u128).as_str());
    s.append(";");
    s.append(decimal(c.1 as u128).as_str());
    s.append(";");
    s.append(decimal(c.2 as u128).as_str());
    s.append("m");
    s
}

/// The share of the way from `from` on that `t` has gone, in steps of `width`.
pub open spec fn progress(t: Number, from: Number, width: Number) -> Number {
    quotient(difference(t, from), width)
}

fn gone(t: Real, from: Real, width: Real) -> (r: Real)
    ensures
        r@ == progress(t@, from@, width@),
{
    t.minus(from).over(width)
}

// ---------------------------------------------------------------------------
// Loads
// ---------------------------------------------------------------------------

/// Where a load turns yellow, orange and hot, and how wide the ways to yellow,
/// to orange, to hot and on to red are.
pub struct Ramp {
    pub yellow: Number,
    pub orange: Number,
    pub hot: Number,
    pub to_yellow: Number,
    pub to_orange: Number,
    pub to_hot: Number,
    pub to_red: Number,
}

impl Ramp {
    /// Green to yellow, on to orange, on to dark red, and on to red, in bold from
    /// where it is hot.
    pub open spec fn color(self, load: Number) -> Seq<char> {
        let t = clamped(load, integer(0), integer(1));
        let c = if at_most(t, self.yellow) {
            blended(GREEN, YELLOW, quotient(t, self.to_yellow))
        } else if at_most(t, self.orange) {
            blended(YELLOW, ORANGE, progress(t, self.yellow, self.to_orange))
        } else if at_most(t, self.hot) {
            blended(ORANGE, DARK_RED, progress(t, self.orange, self.to_hot))
        } else {
            blended(DARK_RED, RED, progress(t, self.hot, self.to_red))
        };
        color_sequence(at_most(self.hot, t), c)
    }
}

/// The points and widths of a ramp.
struct RampPoints {
    yellow: Real,
    orange: Real,
    hot: Real,
    to_yellow: Real,
    to_orange: Real,
    to_hot: Real,
    to_red: Real,
}

impl View for RampPoints {
    type V = Ramp;

    closed spec fn view(&self) -> Ramp {
        Ramp {
            yellow: self.yellow@,
            orange: self.orange@,
            hot: self.hot@,
            to_yellow: self.to_yellow@,
            to_orange: self.to_orange@,
            to_hot: self.to_hot@,
            to_red: self.to_red@,
        }
    }
}

impl RampPoints {
    fn paint(&self, load: &Real) -> (s: String)
        ensures
            s@ == self@.color(load@),
    {
        let t = load.clamp(Real::from_u64(0), Real::from_u64(1));
        let c: Rgb = if t.is_at_most(&self.yellow) {
            lerp_color(GREEN, YELLOW, t.over(self.to_yellow))
        } else if t.is_at_most(&self.orange) {
            lerp_color(YELLOW, ORANGE, gone(t, self.yellow, self.to_orange))
        } else if t.is_at_most(&self.hot) {
            lerp_color(ORANGE, DARK_RED, gone(t, self.orange, self.to_hot))
        } else {
            lerp_color(DARK_RED, RED, gone(t, self.hot, self.to_red))
        };
        sequence(self.hot.is_at_most(&t), c)
    }
}

/// Yellow at 50%, orange at 70%, hot at 85%, red at 100%.
pub open spec fn cpu_ramp() -> Ramp {
    Ramp {
        yellow: fraction(1, 2),
        orange: fraction(7, 10),
        hot: fraction(85, 100),
        to_yellow: fraction(1, 2),
        to_orange: fraction(2, 10),
        to_hot: fraction(15, 100),
        to_red: fraction(15, 100),
    }
}

/// Yellow at 50%, orange at 70%, hot at 85%, red at 95%.
pub open spec fn ram_ramp() -> Ramp {
    Ramp { to_red: fraction(1, 10), ..cpu_ramp() }
}

/// Yellow at 50%, orange at 70%, hot at 80%, red at 90%.
pub open spec fn swap_ramp() -> Ramp {
    Ramp { hot: fraction(8, 10), to_hot: fraction(1, 10), to_red: fraction(1, 10), ..cpu_ramp() }
}

/// Yellow at 33%, orange at 66%, hot at 83%, red at 100%.
pub open spec fn net_ramp() -> Ramp {
    Ramp {
        yellow: fraction(33, 100),
        orange: fraction(66, 100),
        hot: fraction(83, 100),
        to_yellow: fraction(33, 100),
        to_orange: fraction(33, 100),
        to_hot: fraction(17, 100),
        to_red: fraction(17, 100),
    }
}

/// The colour of a share of the highest frequency, or of the highest temperature:
/// violet above the limit.
pub open spec fn cpu_color(t: Number) -> Seq<char> {
    if below(integer(1), t) {
        VIOLET_BOLD@
    } else {
        cpu_ramp().color(t)
    }
}

/// The colour of a share of the memory: violet from 95% on.
pub open spec fn ram_color(t: Number) -> Seq<char> {
    if at_most(fraction(95, 100), t) {
        VIOLET_BOLD@
    } else {
        ram_ramp().color(t)
    }
}

/// The colour of a share of the swap space: violet from 90% on.
pub open spec fn swap_color(t: Number) -> Seq<char> {
    if at_most(fraction(9, 10), t) {
        VIOLET_BOLD@
    } else {
        swap_ramp().color(t)
    }
}

/// The colour of a network speed under the highest speed of the interface, which
/// is taken for at least one: violet above it.
pub open spec fn net_color(speed: Number, max_speed: Number) -> Seq<char> {
    let t = quotient(speed, larger(max_speed, integer(1)));
    if below(integer(1), t) {
        VIOLET_BOLD@
    } else {
        net_ramp().color(t)
    }
}

/// The colour of a share of the highest frequency or temperature.
pub fn get_cpu_color(t: &Real) -> (s: String)
    ensures
        s@ == cpu_color(t@),
{
    if Real::from_u64(1).less_than(t) {
        return VIOLET_BOLD.to_owned();
    }
    let points = RampPoints {
        yellow: Real::ratio(1, 2),
        orange: Real::ratio(7, 10),
        hot: Real::ratio(85, 100),
        to_yellow: Real::ratio(1, 2),
        to_orange: Real::ratio(2, 10),
        to_hot: Real::ratio(15, 100),
        to_red: Real::ratio(15, 100),
    };
    points.paint(t)
}

/// The colour of a share of the memory.
pub fn get_ram_color(t: &Real) -> (s: String)
    ensures
        s@ == ram_color(t@),
{
    if Real::ratio(95, 100).is_at_most(t) {
        return VIOLET_BOLD.to_owned();
    }
    let points = RampPoints {
        yellow: Real::ratio(1, 2),
        orange: Real::ratio(7, 10),
        hot: Real::ratio(85, 100),
        to_yellow: Real::ratio(1, 2),
        to_orange: Real::ratio(2, 10),
        to_hot: Real::ratio(15, 100),
        to_red: Real::ratio(1, 10),
    };
    points.paint(t)
}

/// The colour of a share of the swap space.
pub fn get_swap_color(t: &Real) -> (s: String)
    ensures
        s@ == swap_color(t@),
{
    if Real::ratio(9, 10).is_at_most(t) {
        return VIOLET_BOLD.to_owned();
    }
    let points = RampPoints {
        yellow: Real::ratio(1, 2),
        orange: Real::ratio(7, 10),
        hot: Real::ratio(8, 10),
        to_yellow: Real::ratio(1, 2),
        to_orange: Real::ratio(2, 10),
        to_hot: Real::ratio(1, 10),
        to_red: Real::ratio(1, 10),
    };
    points.paint(t)
}

/// The colour of a network speed.
pub fn get_net_color(speed: &Real, max_speed: &Real) -> (s: String)
    ensures
        s@ == net_color(speed@, max_speed@),
{
    let one = Real::from_u64(1);
    let t = speed.over(max_speed.max(one));
    if one.less_than(&t) {
        return VIOLET_BOLD.to_owned();
    }
    let points = RampPoints {
        yellow: Real::ratio(33, 100),
        orange: Real::ratio(66, 100),
        hot: Real::ratio(83, 100),
        to_yellow: Real::ratio(33, 100),
        to_orange: Real::ratio(33, 100),
        to_hot: Real::ratio(17, 100),
        to_red: Real::ratio(17, 100),
    };
    points.paint(&t)
}

// ---------------------------------------------------------------------------
// Storage
// ---------------------------------------------------------------------------

/// Where a filesystem turns yellow, orange, red and violet: at 75%, 85%, 90% and
/// 95%, and each ten points earlier where it copies on write.
pub open spec fn disk_limits(is_cow: bool) -> (Number, Number, Number, Number) {
    if is_cow {
        (fraction(65, 100), fraction(75, 100), fraction(80, 100), fraction(85, 100))
    } else {
        (fraction(75, 100), fraction(85, 100), fraction(90, 100), fraction(95, 100))
    }
}

/// The colour of a share of the storage space.
pub open spec fn disk_capacity_color(percent: Number, is_cow: bool) -> Seq<char> {
    let (green, yellow, orange, red) = disk_limits(is_cow);
    if at_most(red, percent) {
        VIOLET_BOLD@
    } else {
        let t = clamped(percent, integer(0), integer(1));
        let c = if at_most(t, green) {
            GREEN
        } else if at_most(t, yellow) {
            blended(GREEN, YELLOW, progress(t, green, difference(yellow, green)))
        } else if at_most(t, orange) {
            blended(YELLOW, ORANGE, progress(t, yellow, difference(orange, yellow)))
        } else {
            blended(ORANGE, RED, progress(t, orange, difference(red, orange)))
        };
        color_sequence(at_most(orange, t), c)
    }
}

/// The colour of a share of the storage space.
pub fn get_disk_capacity_color(percent: &Real, is_cow: bool) -> (s: String)
    ensures
        s@ == disk_capacity_color(percent@, is_cow),
{
    let (green, yellow, orange, red): (Real, Real, Real, Real) = if is_cow {
        (Real::ratio(65, 100), Real::ratio(75, 100), Real::ratio(80, 100), Real::ratio(85, 100))
    } else {
        (Real::ratio(75, 100), Real::ratio(85, 100), Real::ratio(90, 100), Real::ratio(95, 100))
    };
    if red.is_at_most(percent) {
        return VIOLET_BOLD.to_owned();
    }
    let t = percent.clamp(Real::from_u64(0), Real::from_u64(1));
    let c: Rgb = if t.is_at_most(&green) {
        GREEN
    } else if t.is_at_most(&yellow) {
        lerp_color(GREEN, YELLOW, gone(t, green, yellow.minus(green)))
    } else if t.is_at_most(&orange) {
        lerp_color(YELLOW, ORANGE, gone(t, yellow, orange.minus(yellow)))
    } else {
        lerp_color(ORANGE, RED, gone(t, orange, red.minus(orange)))
    };
    sequence(orange.is_at_most(&t), c)
}

/// The cube of a number.
pub open spec fn cube(x: Number) -> Number {
    product(product(x, x), x)
}

/// The colour of a disk speed under the highest known speed: violet above it, red
/// from 98% of it on, both once it is above a kilobyte; below, by the cube of the
/// share.
pub open spec fn disk_speed_color(speed: Number, highest: Number) -> Seq<char> {
    if below(highest, speed) && below(integer(1024), highest) {
        VIOLET_BOLD@
    } else if at_most(product(highest, fraction(98, 100)), speed) && below(integer(1024), highest) {
        PEAK_RED@
    } else {
        let t = if below(integer(0), highest) {
            cube(clamped(quotient(speed, highest), integer(0), integer(1)))
        } else {
            integer(0)
        };
        let c = if at_most(t, fraction(4, 10)) {
            blended(GREEN, YELLOW, quotient(t, fraction(4, 10)))
        } else if at_most(t, fraction(8, 10)) {
            blended(YELLOW, ORANGE, progress(t, fraction(4, 10), fraction(4, 10)))
        } else {
            blended(ORANGE, DARK_RED, progress(t, fraction(8, 10), fraction(2, 10)))
        };
        color_sequence(false, c)
    }
}

/// The colour of a disk speed under the highest known speed.
pub fn get_exp_disk_speed_color(speed: &Real, current_hw: &Real) -> (s: String)
    ensures
        s@ == disk_speed_color(speed@, current_hw@),
{
    let known: bool = Real::from_u64(1024).less_than(current_hw);
    if current_hw.less_than(speed) && known {
        return VIOLET_BOLD.to_owned();
    }
    if current_hw.times(Real::ratio(98, 100)).is_at_most(speed) && known {
        return PEAK_RED.to_owned();
    }
    let zero = Real::from_u64(0);
    let t = if zero.less_than(current_hw) {
        let share = speed.over(*current_hw).clamp(zero, Real::from_u64(1));
        share.times(share).times(share)
    } else {
        zero
    };
    let first = Real::ratio(4, 10);
    let second = Real::ratio(8, 10);
    let c: Rgb = if t.is_at_most(&first) {
        lerp_color(GREEN, YELLOW, t.over(first))
    } else if t.is_at_most(&second) {
        lerp_color(YELLOW, ORANGE, gone(t, first, first))
    } else {
        lerp_color(ORANGE, DARK_RED, gone(t, second, Real::ratio(2, 10)))
    };
    sequence(false, c)
}

// ---------------------------------------------------------------------------
// Times, temperatures and compression
// ---------------------------------------------------------------------------

/// The colour of a time without activity: green, by quarters of a year to yellow,
/// orange and red, and to violet in the last.
pub open spec fn idle_color(secs: nat) -> Seq<char> {
    let t = clamped(quotient(integer(secs), integer(YEAR as nat)), integer(0), integer(1));
    let quarter = fraction(1, 4);
    let c = if at_most(t, quarter) {
        blended(GREEN, YELLOW, quotient(t, quarter))
    } else if at_most(t, fraction(1, 2)) {
        blended(YELLOW, ORANGE, progress(t, quarter, quarter))
    } else if at_most(t, fraction(3, 4)) {
        blended(ORANGE, RED, progress(t, fraction(1, 2), quarter))
    } else {
        blended(RED, VIOLET, progress(t, fraction(3, 4), quarter))
    };
    color_sequence(false, c)
}

/// The colour of a time without activity.
pub fn get_idle_color(secs: u64) -> (s: String)
    ensures
        s@ == idle_color(secs as nat),
{
    let share = Real::from_u64(secs).over(Real::from_u64(YEAR));
    let t = share.clamp(Real::from_u64(0), Real::from_u64(1));
    let quarter = Real::ratio(1, 4);
    let half = Real::ratio(1, 2);
    let last = Real::ratio(3, 4);
    let c: Rgb = if t.is_at_most(&quarter) {
        lerp_color(GREEN, YELLOW, t.over(quarter))
    } else if t.is_at_most(&half) {
        lerp_color(YELLOW, ORANGE, gone(t, quarter, quarter))
    } else if t.is_at_most(&last) {
        lerp_color(ORANGE, RED, gone(t, half, quarter))
    } else {
        lerp_color(RED, VIOLET, gone(t, last, quarter))
    };
    sequence(false, c)
}

/// The colour of a room temperature: green up to 24 degrees, yellow at 27, orange
/// at 31, light red at 35, violet from 40 on.
pub open spec fn room_temp_color(temp: Number) -> Seq<char> {
    let c = if at_most(temp, integer(24)) {
        GREEN
    } else if at_most(temp, integer(27)) {
        blended(GREEN, YELLOW, progress(temp, integer(24), integer(3)))
    } else if at_most(temp, integer(31)) {
        blended(YELLOW, ORANGE, progress(temp, integer(27), integer(4)))
    } else if at_most(temp, integer(35)) {
        blended(ORANGE, LIGHT_RED, progress(temp, integer(31), integer(4)))
    } else if below(temp, integer(40)) {
        blended(LIGHT_RED, VIOLET, progress(temp, integer(35), integer(5)))
    } else {
        VIOLET
    };
    color_sequence(false, c)
}

/// The colour of a room temperature.
pub fn get_room_temp_color(temp: &Real) -> (s: String)
    ensures
        s@ == room_temp_color(temp@),
{
    let t = *temp;
    let c: Rgb = if t.is_at_most(&Real::from_u64(24)) {
        GREEN
    } else if t.is_at_most(&Real::from_u64(27)) {
        lerp_color(GREEN, YELLOW, gone(t, Real::from_u64(24), Real::from_u64(3)))
    } else if t.is_at_most(&Real::from_u64(31)) {
        lerp_color(YELLOW, ORANGE, gone(t, Real::from_u64(27), Real::from_u64(4)))
    } else if t.is_at_most(&Real::from_u64(35)) {
        lerp_color(ORANGE, LIGHT_RED, gone(t, Real::from_u64(31), Real::from_u64(4)))
    } else if t.less_than(&Real::from_u64(40)) {
        lerp_color(LIGHT_RED, VIOLET, gone(t, Real::from_u64(35), Real::from_u64(5)))
    } else {
        VIOLET
    };
    sequence(false, c)
}

/// The colour of a compression ratio: violet below one, red at one, orange at one
/// and a half, yellow at two and a half, green from four on.
pub open spec fn ratio_color(ratio: Number) -> Seq<char> {
    let c = if below(ratio, integer(1)) {
        VIOLET
    } else if at_most(ratio, fraction(3, 2)) {
        blended(FLAME, ORANGE, progress(ratio, integer(1), fraction(1, 2)))
    } else if at_most(ratio, fraction(5, 2)) {
        blended(ORANGE, YELLOW, progress(ratio, fraction(3, 2), integer(1)))
    } else if at_most(ratio, integer(4)) {
        blended(YELLOW, GREEN, progress(ratio, fraction(5, 2), fraction(3, 2)))
    } else {
        GREEN
    };
    color_sequence(false, c)
}

/// The colour of a compression ratio.
pub fn get_ratio_color(ratio: &Real) -> (s: String)
    ensures
        s@ == ratio_color(ratio@),
{
    let t = *ratio;
    let one = Real::from_u64(1);
    let low = Real::ratio(3, 2);
    let high = Real::ratio(5, 2);
    let c: Rgb = if t.less_than(&one) {
        VIOLET
    } else if t.is_at_most(&low) {
        lerp_color(FLAME, ORANGE, gone(t, one, Real::ratio(1, 2)))
    } else if t.is_at_most(&high) {
        lerp_color(ORANGE, YELLOW, gone(t, low, one))
    } else if t.is_at_most(&Real::from_u64(4)) {
        lerp_color(YELLOW, GREEN, gone(t, high, low))
    } else {
        GREEN
    };
    sequence(false, c)
}

/// The colour of a compression algorithm: from the best, green, to one that is
/// not known, violet.
pub open spec fn zswap_algo_color(algo: Seq<char>) -> Seq<char> {
    if algo == "zstd"@ {
        "\x1b[38;2;0;200;0m"@
    } else if algo == "lz4"@ {
        "\x1b[38;2;255;255;0m"@
    } else if algo == "lzo"@ {
        "\x1b[38;2;255;165;0m"@
    } else if algo == "deflate"@ {
        "\x1b[38;2;255;0;0m"@
    } else {
        "\x1b[38;2;238;130;238m"@
    }
}

/// The colour of a compression algorithm.
pub fn get_zswap_algo_color(algo: &str) -> (s: String)
    ensures
        s@ == zswap_algo_color(algo@),
{
    if equal(algo, "zstd") {
        "\x1b[38;2;0;200;0m".to_owned()
    } else if equal(algo, "lz4") {
        "\x1b[38;2;255;255;0m".to_owned()
    } else if equal(algo, "lzo") {
        "\x1b[38;2;255;165;0m".to_owned()
    } else if equal(algo, "deflate") {
        "\x1b[38;2;255;0;0m".to_owned()
    } else {
        "\x1b[38;2;238;130;238m".to_owned()
    }
}

// ---------------------------------------------------------------------------
// Laws of colours
// ---------------------------------------------------------------------------

/// A colour has no width: what follows it is shown as if it were not there.
pub proof fn law_color_has_no_width(bold: bool, c: Rgb)
    ensures
        width_of(color_sequence(bold, c)) == 0,
        is_closed(color_sequence(bold, c)),
{
    reveal_strlit("\x1b[1;38;2;");
    reveal_strlit("\x1b[38;2;");
    reveal_strlit(";");
    reveal_strlit("m");
    lemma_decimal_digits(c.0 as nat);
    lemma_decimal_digits(c.1 as nat);
    lemma_decimal_digits(c.2 as nat);
    let s = color_sequence(bold, c);
    assert(s.last() == 'm');
    assert(s[1] == '[');
    assert forall|i: int| 1 < i < s.len() - 1 implies s[i] != ESCAPE && !is_final(s[i]) by {
        let start = if bold {
            "\x1b[1;38;2;"@
        } else {
            "\x1b[38;2;"@
        };
        let a = start + decimal_of(c.0 as nat);
        let b = a + ";"@ + decimal_of(c.1 as nat);
        let d = b + ";"@ + decimal_of(c.2 as nat);
        assert(s =~= d + "m"@);
        assert(s[i] == d[i]);
        if i >= b.len() + 1 {
            assert(d[i] == decimal_of(c.2 as nat)[i - b.len() - 1]);
        } else if i < b.len() {
            assert(d[i] == b[i]);
            if i >= a.len() + 1 {
                assert(b[i] == decimal_of(c.1 as nat)[i - a.len() - 1]);
            } else if i < a.len() {
                assert(b[i] == a[i]);
                if i >= start.len() {
                    assert(a[i] == decimal_of(c.0 as nat)[i - start.len()]);
                }
            }
        }
    }
    law_sequence_has_no_width(s);
}

/// A control sequence has no width, up to its first final character.
pub proof fn law_sequence_has_no_width(s: Seq<char>)
    requires
        s.len() >= 3,
        s[0] == ESCAPE,
        s[1] == '[',
        is_final(s.last()),
        forall|i: int| 1 < i < s.len() - 1 ==> s[i] != ESCAPE && !is_final(s[i]),
    ensures
        width_of(s) == 0,
        is_closed(s),
{
    let rest = s.skip(1).skip(1);
    assert forall|i: int| 0 <= i < rest.len() - 1 implies rest[i] != ESCAPE && !is_final(rest[i]) by {
        assert(rest[i] == s[i + 2]);
    }
    assert(rest.last() == s.last());
    reveal_with_fuel(visible_length, 3);
    reveal_with_fuel(ends_at, 3);
    lemma_rest_of_sequence(rest);
}

proof fn lemma_rest_of_sequence(s: Seq<char>)
    requires
        s.len() >= 1,
        is_final(s.last()),
        forall|i: int| 0 <= i < s.len() - 1 ==> s[i] != ESCAPE && !is_final(s[i]),
    ensures
        visible_length(s, Place::Inside) == 0,
        ends_at(s, Place::Inside) == Place::Plain,
    decreases s.len(),
{
    let rest = s.skip(1);
    reveal_with_fuel(visible_length, 2);
    reveal_with_fuel(ends_at, 2);
    if s.len() > 1 {
        assert forall|i: int| 0 <= i < rest.len() - 1 implies rest[i] != ESCAPE && !is_final(rest[i]) by {
            assert(rest[i] == s[i + 1]);
        }
        assert(rest.last() == s.last());
        lemma_rest_of_sequence(rest);
    } else {
        assert(rest =~= Seq::empty());
    }
}

/// A blend lies between its two ends.
pub proof fn law_blend_lies_between(a: u8, b: u8, t: Number)
    requires
        t.valid(),
        at_most(integer(0), t),
        at_most(t, integer(1)),
    ensures
        a <= b ==> a <= blended_channel(a, b, t) <= b,
        b <= a ==> b <= blended_channel(a, b, t) <= a,
{
    lemma_blend(a, b, t);
}

/// How far two channels are apart.
pub open spec fn apart(x: u8, y: u8) -> int {
    if x <= y {
        y - x
    } else {
        x - y
    }
}

/// A blend never goes back: where `t` is larger, no channel is farther from the second
/// colour.
pub proof fn law_blend_never_goes_back(a: Rgb, b: Rgb, t: Number, u: Number)
    requires
        t.valid(),
        u.valid(),
        at_most(t, u),
    ensures
        apart(blended(a, b, u).0, b.0) <= apart(blended(a, b, t).0, b.0),
        apart(blended(a, b, u).1, b.1) <= apart(blended(a, b, t).1, b.1),
        apart(blended(a, b, u).2, b.2) <= apart(blended(a, b, t).2, b.2),
{
    law_integers_are_exact(0);
    law_integers_are_exact(1);
    lemma_pow2_pos(1074);
    assert(0 * one_units() == 0) by (nonlinear_arith);
    let x = clamped(t, integer(0), integer(1));
    let y = clamped(u, integer(0), integer(1));
    lemma_blend_in_order(a.0, b.0, x, y);
    lemma_blend_in_order(a.1, b.1, x, y);
    lemma_blend_in_order(a.2, b.2, x, y);
    lemma_blend(a.0, b.0, x);
    lemma_blend(a.1, b.1, x);
    lemma_blend(a.2, b.2, x);
    lemma_blend(a.0, b.0, y);
    lemma_blend(a.1, b.1, y);
    lemma_blend(a.2, b.2, y);
}

/// A blend begins at its first end and comes to its second.
pub proof fn law_blend_meets_its_ends(a: Rgb, b: Rgb)
    ensures
        blended(a, b, integer(0)) == a,
        blended(a, b, integer(1)) == b,
{
    law_integers_are_exact(0);
    law_integers_are_exact(1);
    lemma_pow2_pos(1074);
    lemma_blend(a.0, b.0, integer(0));
    lemma_blend(a.1, b.1, integer(0));
    lemma_blend(a.2, b.2, integer(0));
    lemma_blend(a.0, b.0, integer(1));
    lemma_blend(a.1, b.1, integer(1));
    lemma_blend(a.2, b.2, integer(1));
}

/// How far a channel has come on the way from `a` to `b`, in units.
spec fn way_gone(a: u8, b: u8, t: Number) -> nat {
    nearest(false, ((apart(a, b) * one_units()) as nat) * t.units(), one_units()).units()
}

/// Where a channel is on the way from `a` to `b` before its last rounding, in units.
spec fn place_between(a: u8, b: u8, t: Number) -> int {
    if a <= b {
        a * one_units() + way_gone(a, b, t)
    } else {
        a * one_units() - way_gone(a, b, t)
    }
}

/// A channel on the way from `a` to `b` before it is rounded to an integer.
spec fn blend_value(a: u8, b: u8, t: Number) -> Number {
    sum(integer(a as nat), product(difference(integer(b as nat), integer(a as nat)), t))
}

proof fn lemma_blend(a: u8, b: u8, t: Number)
    requires
        t.valid(),
        at_most(integer(0), t),
        at_most(t, integer(1)),
    ensures
        blend_value(a, b, t) is Finite,
        blend_value(a, b, t).units() > 0 ==> !blend_value(a, b, t)->Finite_negative,
        place_between(a, b, t) >= 0,
        nearest(false, place_between(a, b, t) as nat, 1) is Finite,
        blend_value(a, b, t).units() == nearest(false, place_between(a, b, t) as nat, 1).units(),
        a <= b ==> a <= blended_channel(a, b, t) <= b,
        b <= a ==> b <= blended_channel(a, b, t) <= a,
        t.units() == 0 ==> blended_channel(a, b, t) == a,
        t.units() == one_units() ==> blended_channel(a, b, t) == b,
{
    let one = one_units();
    law_integers_are_exact(0);
    law_integers_are_exact(1);
    law_integers_are_exact(a as nat);
    law_integers_are_exact(b as nat);
    lemma_pow2_pos(1074);
    let low = integer(a as nat);
    let high = integer(b as nat);
    let far: nat = if a <= b {
        (b - a) as nat
    } else {
        (a - b) as nat
    };
    law_integers_are_exact(far);
    let d = difference(high, low);
    assert(b * one - a * one == (b - a) * one) by (nonlinear_arith);
    assert(d is Finite && d.units() == far * one && (d.units() > 0 ==> d->Finite_negative == (b < a))) by {
        assert(high.signed() + low.negated().signed() == (b - a) * one);
        assert((b - a) * one == 0 <==> b == a) by (nonlinear_arith)
            requires
                one > 0,
        ;
        assert((b - a) * one < 0 <==> b < a) by (nonlinear_arith)
            requires
                one > 0,
        ;
        assert(-((b - a) * one) == (a - b) * one) by (nonlinear_arith);
        if b == a {
            assert(0 * one == 0 && 0 * pow2(0) == 0) by (nonlinear_arith);
        } else {
            lemma_sign_apart(far * one, 1);
        }
    }
    // The product, without its sign, lies between zero and the distance.
    let p = product(d, t);
    let exact = d.units() * t.units();
    assert(exact * 1 <= far * one * one) by (nonlinear_arith)
        requires
            exact == far * one * t.units(),
            t.units() <= one,
    ;
    law_rounding_keeps_order(exact, one, far * one, 1);
    lemma_sign_apart(exact, one);
    let magnitude = nearest(false, exact, one).units();
    assert(p is Finite && p.units() == magnitude && magnitude <= far * one);
    if t.units() == 0 {
        assert(exact == 0) by (nonlinear_arith)
            requires
                exact == far * one * t.units(),
                t.units() == 0,
        ;
        assert(0 * 1 <= 0 * one && 0 * one == 0);
        law_rounding_keeps_order(exact, one, 0, 1);
        assert(integer(0).units() == 0);
    }
    if t.units() == one {
        assert(far * one * one <= exact * 1) by (nonlinear_arith)
            requires
                exact == far * one * t.units(),
                t.units() == one,
        ;
        law_rounding_keeps_order(far * one, 1, exact, one);
    }
    // The sum lies between the two ends.
    let total = low.signed() + p.signed();
    assert(d.units() == 0 ==> magnitude == 0) by {
        if d.units() == 0 {
            assert(far == 0) by (nonlinear_arith)
                requires
                    far * one == 0,
                    one > 0,
            ;
            assert(0 * one == 0) by (nonlinear_arith);
        }
    }
    assert(p.signed() == (if d->Finite_negative { -(magnitude as int) } else { magnitude as int }));
    assert(far * one == b * one - a * one || far * one == a * one - b * one) by (nonlinear_arith)
        requires
            far == b - a || far == a - b,
    ;
    let v = sum(low, p);
    assert(a <= b ==> a * one <= total <= b * one);
    assert(b <= a ==> b * one <= total <= a * one);
    assert(v is Finite && (v.units() > 0 ==> !v->Finite_negative) && (a <= b ==> a * one <= v.units() <= b * one) && (b
        <= a ==> b * one <= v.units() <= a * one) && (total == a * one ==> v.units() == a * one) && (total == b * one
        ==> v.units() == b * one)) by {
        if total == 0 {
            assert(0 * pow2(0) == 0) by (nonlinear_arith);
        } else {
            let n = total as nat;
            if a <= b {
                law_rounding_keeps_order(a as nat * one, 1, n, 1);
                law_rounding_keeps_order(n, 1, b as nat * one, 1);
            } else {
                law_rounding_keeps_order(b as nat * one, 1, n, 1);
                law_rounding_keeps_order(n, 1, a as nat * one, 1);
            }
        }
    }
    lemma_byte_between(v, a, b);
    assert(magnitude == way_gone(a, b, t));
    assert(total == place_between(a, b, t));
    assert(nearest(false, total as nat, 1) is Finite && v.units() == nearest(false, total as nat, 1).units()) by {
        assert(0 * one == 0) by (nonlinear_arith);
        assert(total == 0 ==> nearest(false, total as nat, 1) == integer(0));
    }
}

/// A channel comes on its way as `t` grows.
proof fn lemma_blend_in_order(a: u8, b: u8, t: Number, u: Number)
    requires
        t.valid(),
        u.valid(),
        at_most(integer(0), t),
        at_most(t, u),
        at_most(u, integer(1)),
    ensures
        a <= b ==> blended_channel(a, b, t) <= blended_channel(a, b, u),
        b <= a ==> blended_channel(a, b, u) <= blended_channel(a, b, t),
{
    let one = one_units();
    law_integers_are_exact(0);
    law_integers_are_exact(1);
    lemma_pow2_pos(1074);
    assert(0 * one == 0) by (nonlinear_arith);
    lemma_blend(a, b, t);
    lemma_blend(a, b, u);
    let d = (apart(a, b) * one) as nat;
    assert(d * t.units() * one <= d * u.units() * one) by (nonlinear_arith)
        requires
            t.units() <= u.units(),
    ;
    law_rounding_keeps_order(d * t.units(), one, d * u.units(), one);
    lemma_gone_is_finite(a, b, u);
    let p = place_between(a, b, t) as nat;
    let q = place_between(a, b, u) as nat;
    if a <= b {
        law_rounding_keeps_order(p, 1, q, 1);
        lemma_bytes_in_order(blend_value(a, b, t), blend_value(a, b, u));
    }
    if b < a {
        law_rounding_keeps_order(q, 1, p, 1);
        lemma_bytes_in_order(blend_value(a, b, u), blend_value(a, b, t));
    }
}

proof fn lemma_gone_is_finite(a: u8, b: u8, t: Number)
    requires
        t.units() <= one_units(),
    ensures
        nearest(false, ((apart(a, b) * one_units()) as nat) * t.units(), one_units()) is Finite,
{
    let one = one_units();
    let n = apart(a, b) as nat;
    lemma_pow2_pos(1074);
    law_integers_are_exact(n);
    assert(n * one * t.units() * 1 <= n * one * one) by (nonlinear_arith)
        requires
            t.units() <= one,
    ;
    law_rounding_keeps_order(n * one * t.units(), one, n * one, 1);
}

proof fn lemma_bytes_in_order(v: Number, w: Number)
    requires
        v is Finite,
        w is Finite,
        v.units() > 0 ==> !v->Finite_negative,
        w.units() > 0 ==> !w->Finite_negative,
        v.units() <= w.units(),
    ensures
        rounded_byte(v) <= rounded_byte(w),
{
    let one = one_units();
    lemma_pow2_pos(1074);
    let x = (2 * v.units() + one) as int / (2 * one) as int;
    let y = (2 * w.units() + one) as int / (2 * one) as int;
    assert(0 <= x <= y) by (nonlinear_arith)
        requires
            x == (2 * v.units() + one) as int / (2 * one) as int,
            y == (2 * w.units() + one) as int / (2 * one) as int,
            v.units() <= w.units(),
            one > 0,
    ;
    assert(w.units() == 0 ==> x == 0) by (nonlinear_arith)
        requires
            x == (2 * v.units() + one) as int / (2 * one) as int,
            v.units() <= w.units(),
            one > 0,
    ;
}

/// A rounded magnitude does not depend on its sign.
proof fn lemma_sign_apart(p: nat, q: nat)
    ensures
        nearest(true, p, q) is Finite <==> nearest(false, p, q) is Finite,
        nearest(true, p, q).units() == nearest(false, p, q).units(),
        nearest(true, p, q) is Finite ==> nearest(true, p, q)->Finite_negative,
        nearest(false, p, q) is Finite ==> !nearest(false, p, q)->Finite_negative,
{
}

proof fn lemma_whole_between(units: nat, one: nat, k: nat)
    requires
        one > 0,
    ensures
        k * one <= units ==> k <= (2 * units + one) as int / (2 * one) as int,
        units <= k * one ==> (2 * units + one) as int / (2 * one) as int <= k,
{
    let whole = (2 * units + one) as int / (2 * one) as int;
    assert(k * one <= units ==> k <= whole) by (nonlinear_arith)
        requires
            whole == (2 * units + one) as int / (2 * one) as int,
            one > 0,
    ;
    assert(units <= k * one ==> whole <= k) by (nonlinear_arith)
        requires
            whole == (2 * units + one) as int / (2 * one) as int,
            one > 0,
    ;
}

proof fn lemma_byte_between(v: Number, a: u8, b: u8)
    requires
        v is Finite,
        v.units() > 0 ==> !v->Finite_negative,
        a <= b ==> a * one_units() <= v.units() <= b * one_units(),
        b <= a ==> b * one_units() <= v.units() <= a * one_units(),
    ensures
        a <= b ==> a <= rounded_byte(v) <= b,
        b <= a ==> b <= rounded_byte(v) <= a,
        v.units() == a * one_units() ==> rounded_byte(v) == a,
        v.units() == b * one_units() ==> rounded_byte(v) == b,
{
    let one = one_units();
    lemma_pow2_pos(1074);
    let whole = (2 * v.units() + one) as int / (2 * one) as int;
    lemma_whole_between(v.units(), one, a as nat);
    lemma_whole_between(v.units(), one, b as nat);
    assert(a as int * one == a * one && b as int * one == b * one);
    if v->Finite_negative {
        assert(v.units() == 0);
        assert(a * one == 0 ==> a == 0) by (nonlinear_arith)
            requires
                one > 0,
        ;
        assert(b * one == 0 ==> b == 0) by (nonlinear_arith)
            requires
                one > 0,
        ;
        assert(0 <= a as int * one && 0 <= b as int * one) by (nonlinear_arith)
            requires
                one > 0,
        ;
        assert(a as int * one <= 0 ==> a == 0) by (nonlinear_arith)
            requires
                one > 0,
        ;
        assert(b as int * one <= 0 ==> b == 0) by (nonlinear_arith)
            requires
                one > 0,
        ;
    }
}

/// What is at its limit is violet: a core above its highest frequency, memory from
/// 95 percent on, swap from 90 percent on, an interface above what it can take, a
/// volume from 95 percent on and one that copies on write from 85 percent on, and a
/// device that is faster than it has ever been.
pub proof fn law_limits_are_violet(t: Number, max: Number)
    ensures
        below(integer(1), t) ==> cpu_color(t) == VIOLET_BOLD@,
        at_most(fraction(95, 100), t) ==> ram_color(t) == VIOLET_BOLD@,
        at_most(fraction(9, 10), t) ==> swap_color(t) == VIOLET_BOLD@,
        below(integer(1), quotient(t, larger(max, integer(1)))) ==> net_color(t, max) == VIOLET_BOLD@,
        at_most(fraction(95, 100), t) ==> disk_capacity_color(t, false) == VIOLET_BOLD@,
        at_most(fraction(85, 100), t) ==> disk_capacity_color(t, true) == VIOLET_BOLD@,
        below(max, t) && below(integer(1024), max) ==> disk_speed_color(t, max) == VIOLET_BOLD@,
{
}

} // verus!
