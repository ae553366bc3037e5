//! What colours say: which colours a value lies between.

use crate::binary64::{
    at_most, below, clamped, difference, fraction, integer, larger, law_integers_are_exact,
    law_numbers_are_ordered, law_rounding_keeps_order, lemma_exact, lemma_nearest_is_valid, one_units,
    quotient, Number,
};
use crate::color::{
    blended, color_sequence, cpu_color, cpu_ramp, disk_capacity_color, disk_limits, idle_color,
    law_blend_lies_between, net_color, net_ramp, progress, ram_color, ram_ramp, ratio_color,
    room_temp_color, swap_color, swap_ramp, Ramp, Rgb, DARK_RED, FLAME, GREEN, LIGHT_RED, ORANGE, RED,
    VIOLET, VIOLET_BOLD, YELLOW,
};
use vstd::arithmetic::power2::{lemma_pow2_pos, pow2};
use vstd::prelude::*;

verus! {

/// The channel lies between two others.
pub open spec fn lies_between(x: u8, a: u8, b: u8) -> bool {
    (a <= x <= b) || (b <= x <= a)
}

/// The text is a colour between two others, bold or not.
pub open spec fn tinted(s: Seq<char>, a: Rgb, b: Rgb, bold: bool) -> bool {
    exists|c: Rgb|
        s == #[trigger] color_sequence(bold, c) && lies_between(c.0, a.0, b.0) && lies_between(c.1, a.1, b.1)
            && lies_between(c.2, a.2, b.2)
}

/// A number that is one, and of the format.
pub open spec fn fair(x: Number) -> bool {
    x.valid() && x !is Nan
}

/// A number above nothing, and of the format.
pub(crate) open spec fn positive(x: Number) -> bool {
    x.valid() && x is Finite && !x->Finite_negative && x.units() > 0
}

pub(crate) proof fn lemma_fraction(n: nat, d: nat)
    requires
        0 < n <= d * 100,
        0 < d <= 1000,
    ensures
        positive(fraction(n, d)),
        at_most(integer(0), fraction(n, d)),
        n <= d ==> at_most(fraction(n, d), integer(1)),
{
    let one = one_units();
    lemma_pow2_pos(1074);
    law_integers_are_exact(1);
    law_integers_are_exact(100);
    law_integers_are_exact(0);
    let p = n * one;
    assert(p * 1 <= 100 * one * d) by (nonlinear_arith)
        requires
            p == n * one,
            n <= d * 100,
    ;
    law_rounding_keeps_order(p, d, 100 * one, 1);
    if n <= d {
        assert(p * 1 <= 1 * one * d) by (nonlinear_arith)
            requires
                p == n * one,
                n <= d,
        ;
        law_rounding_keeps_order(p, d, 1 * one, 1);
    }
    lemma_nearest_is_valid(false, p, d);
    let least = Number::Finite { negative: false, mantissa: 1, scale: 0 };
    vstd::arithmetic::power2::lemma2_to64();
    lemma_exact(least);
    assert(least.units() == 1);
    crate::binary64::lemma_pow2_monotonic(10, 1074);
    assert(1 * d <= p * 1) by (nonlinear_arith)
        requires
            p == n * one,
            n >= 1,
            one >= 1024,
            d <= 1000,
    ;
    law_rounding_keeps_order(1, 1, p, d);
}

pub(crate) proof fn lemma_quotient_fair(a: Number, b: Number)
    requires
        fair(a),
        positive(b),
    ensures
        fair(quotient(a, b)),
{
    assert(b->mantissa != 0) by {
        if b->mantissa == 0 {
            assert(0 * pow2(b->scale) == 0) by (nonlinear_arith);
        }
    }
    if a is Finite {
        lemma_nearest_is_valid(a->Finite_negative, a.units() * one_units(), b.units());
    }
}

pub(crate) proof fn lemma_difference_fair(a: Number, b: Number)
    requires
        fair(a),
        b.valid(),
        b is Finite,
    ensures
        fair(difference(a, b)),
{
    if a is Finite {
        let total = a.signed() + b.negated().signed();
        if total < 0 {
            lemma_nearest_is_valid(true, (-total) as nat, 1);
        } else if total > 0 {
            lemma_nearest_is_valid(false, total as nat, 1);
        }
    }
}

/// A blend is a colour between its ends.
pub(crate) proof fn lemma_blend_tinted(a: Rgb, b: Rgb, x: Number, bold: bool)
    requires
        fair(x),
    ensures
        tinted(color_sequence(bold, blended(a, b, x)), a, b, bold),
{
    law_integers_are_exact(0);
    law_integers_are_exact(1);
    lemma_pow2_pos(1074);
    let held = clamped(x, integer(0), integer(1));
    assert(0 * one_units() == 0 && 1 * one_units() == one_units());
    law_numbers_are_ordered(x, integer(0), integer(1));
    law_numbers_are_ordered(integer(1), x, integer(0));
    law_numbers_are_ordered(integer(0), integer(1), integer(1));
    law_blend_lies_between(a.0, b.0, held);
    law_blend_lies_between(a.1, b.1, held);
    law_blend_lies_between(a.2, b.2, held);
    let c = blended(a, b, x);
    assert(lies_between(c.0, a.0, b.0) && lies_between(c.1, a.1, b.1) && lies_between(c.2, a.2, b.2));
}

/// A scale of four parts: up to its first point from green to yellow, then to orange, then
/// to dark red, and from there bold to red.
proof fn lemma_ramp(ramp: Ramp, t: Number)
    requires
        fair(t),
        at_most(integer(0), t),
        at_most(t, integer(1)),
        positive(ramp.yellow),
        positive(ramp.orange),
        positive(ramp.hot),
        positive(ramp.to_yellow),
        positive(ramp.to_orange),
        positive(ramp.to_hot),
        positive(ramp.to_red),
        below(ramp.yellow, ramp.orange),
        below(ramp.orange, ramp.hot),
    ensures
        at_most(t, ramp.yellow) ==> tinted(ramp.color(t), GREEN, YELLOW, false),
        below(ramp.yellow, t) && at_most(t, ramp.orange) ==> tinted(ramp.color(t), YELLOW, ORANGE, false),
        below(ramp.orange, t) && below(t, ramp.hot) ==> tinted(ramp.color(t), ORANGE, DARK_RED, false),
        below(ramp.hot, t) ==> tinted(ramp.color(t), DARK_RED, RED, true),
{
    law_integers_are_exact(0);
    law_integers_are_exact(1);
    law_numbers_are_ordered(t, integer(0), integer(1));
    law_numbers_are_ordered(integer(1), t, integer(0));
    law_numbers_are_ordered(integer(0), t, t);
    law_numbers_are_ordered(t, integer(1), integer(1));
    assert(clamped(t, integer(0), integer(1)) == t);
    law_numbers_are_ordered(t, ramp.yellow, ramp.orange);
    law_numbers_are_ordered(t, ramp.orange, ramp.hot);
    law_numbers_are_ordered(t, ramp.yellow, ramp.hot);
    law_numbers_are_ordered(ramp.yellow, t, ramp.orange);
    law_numbers_are_ordered(ramp.orange, t, ramp.hot);
    law_numbers_are_ordered(ramp.hot, t, ramp.orange);
    law_numbers_are_ordered(ramp.orange, ramp.hot, t);
    law_numbers_are_ordered(ramp.yellow, ramp.orange, ramp.hot);
    law_numbers_are_ordered(ramp.yellow, ramp.hot, t);
    law_numbers_are_ordered(ramp.hot, t, t);
    lemma_quotient_fair(t, ramp.to_yellow);
    lemma_difference_fair(t, ramp.yellow);
    lemma_difference_fair(t, ramp.orange);
    lemma_difference_fair(t, ramp.hot);
    lemma_quotient_fair(difference(t, ramp.yellow), ramp.to_orange);
    lemma_quotient_fair(difference(t, ramp.orange), ramp.to_hot);
    lemma_quotient_fair(difference(t, ramp.hot), ramp.to_red);
    lemma_blend_tinted(GREEN, YELLOW, quotient(t, ramp.to_yellow), false);
    lemma_blend_tinted(YELLOW, ORANGE, progress(t, ramp.yellow, ramp.to_orange), false);
    lemma_blend_tinted(ORANGE, DARK_RED, progress(t, ramp.orange, ramp.to_hot), false);
    lemma_blend_tinted(DARK_RED, RED, progress(t, ramp.hot, ramp.to_red), true);
}

/// Fractions of one denominator are in the order of their numerators.
proof fn lemma_fractions_in_order(a: nat, b: nat, c: nat, d: nat)
    requires
        0 < a <= b <= 100,
        0 < c <= d <= 100,
        a * d < c * b,
    ensures
        below(fraction(a, b), fraction(c, d)),
{
    let one = one_units();
    lemma_fraction(a, b);
    lemma_fraction(c, d);
    // Two such fractions are more than a ten-thousandth apart, so that a number of the
    // format lies between.
    crate::figures::lemma_between_fractions(a, b, c, d);
}

/// The colours of a processor: green to yellow up to half of its range, to orange up to
/// seven tenths, to dark red up to 85 hundredths, then bold to red, and violet above it.
pub proof fn law_cpu_scale(t: Number)
    requires
        fair(t),
        at_most(integer(0), t),
    ensures
        at_most(t, fraction(1, 2)) ==> tinted(cpu_color(t), GREEN, YELLOW, false),
        below(fraction(1, 2), t) && at_most(t, fraction(7, 10)) ==> tinted(cpu_color(t), YELLOW, ORANGE, false),
        below(fraction(7, 10), t) && below(t, fraction(85, 100)) ==> tinted(cpu_color(t), ORANGE, DARK_RED, false),
        below(fraction(85, 100), t) && at_most(t, integer(1)) ==> tinted(cpu_color(t), DARK_RED, RED, true),
        below(integer(1), t) ==> cpu_color(t) == VIOLET_BOLD@,
{
    lemma_scale(cpu_ramp(), t, 1, 2, 7, 10, 85, 100);
}

proof fn lemma_scale(ramp: Ramp, t: Number, a: nat, b: nat, c: nat, d: nat, e: nat, f: nat)
    requires
        fair(t),
        at_most(integer(0), t),
        ramp.yellow == fraction(a, b),
        ramp.orange == fraction(c, d),
        ramp.hot == fraction(e, f),
        positive(ramp.to_yellow) || ramp.to_yellow == fraction(1, 2) || ramp.to_yellow == fraction(33, 100),
        ramp.to_orange == fraction(2, 10) || ramp.to_orange == fraction(33, 100),
        ramp.to_hot == fraction(15, 100) || ramp.to_hot == fraction(1, 10) || ramp.to_hot == fraction(17, 100),
        ramp.to_red == fraction(15, 100) || ramp.to_red == fraction(1, 10) || ramp.to_red == fraction(17, 100),
        0 < a <= b <= 100,
        0 < c <= d <= 100,
        0 < e <= f <= 100,
        a * d < c * b,
        c * f < e * d,
    ensures
        at_most(t, integer(1)) ==> {
            &&& at_most(t, ramp.yellow) ==> tinted(ramp.color(t), GREEN, YELLOW, false)
            &&& below(ramp.yellow, t) && at_most(t, ramp.orange) ==> tinted(ramp.color(t), YELLOW, ORANGE, false)
            &&& below(ramp.orange, t) && below(t, ramp.hot) ==> tinted(ramp.color(t), ORANGE, DARK_RED, false)
            &&& below(ramp.hot, t) ==> tinted(ramp.color(t), DARK_RED, RED, true)
        },
        at_most(t, ramp.yellow) || at_most(t, ramp.orange) || below(t, ramp.hot) ==> at_most(t, integer(1)),
{
    lemma_fraction(a, b);
    lemma_fraction(c, d);
    lemma_fraction(e, f);
    lemma_fraction(1, 2);
    lemma_fraction(33, 100);
    lemma_fraction(2, 10);
    lemma_fraction(15, 100);
    lemma_fraction(1, 10);
    lemma_fraction(17, 100);
    lemma_fractions_in_order(a, b, c, d);
    lemma_fractions_in_order(c, d, e, f);
    law_integers_are_exact(1);
    law_numbers_are_ordered(t, ramp.yellow, integer(1));
    law_numbers_are_ordered(t, ramp.orange, integer(1));
    law_numbers_are_ordered(t, ramp.hot, integer(1));
    if at_most(t, integer(1)) {
        lemma_ramp(ramp, t);
    }
}

/// The colours of the memory: like those of a processor, and violet from 95 hundredths on.
pub proof fn law_ram_scale(t: Number)
    requires
        fair(t),
        at_most(integer(0), t),
    ensures
        at_most(t, fraction(1, 2)) ==> tinted(ram_color(t), GREEN, YELLOW, false),
        below(fraction(1, 2), t) && at_most(t, fraction(7, 10)) ==> tinted(ram_color(t), YELLOW, ORANGE, false),
        below(fraction(7, 10), t) && below(t, fraction(85, 100)) ==> tinted(ram_color(t), ORANGE, DARK_RED, false),
        below(fraction(85, 100), t) && below(t, fraction(95, 100)) ==> tinted(ram_color(t), DARK_RED, RED, true),
        at_most(fraction(95, 100), t) ==> ram_color(t) == VIOLET_BOLD@,
{
    lemma_scale(ram_ramp(), t, 1, 2, 7, 10, 85, 100);
    lemma_below_limit(t, 1, 2, 95);
    lemma_below_limit(t, 7, 10, 95);
    lemma_below_limit(t, 85, 100, 95);
}

/// What is at a point of a scale is below a later limit of it.
proof fn lemma_below_limit(t: Number, a: nat, b: nat, limit: nat)
    requires
        fair(t),
        0 < a <= b <= 100,
        a * 100 < limit * b,
        limit <= 100,
    ensures
        at_most(t, fraction(a, b)) ==> !at_most(fraction(limit, 100), t),
        below(t, fraction(limit, 100)) ==> at_most(t, integer(1)),
{
    lemma_fraction(a, b);
    assert(0 < limit) by (nonlinear_arith)
        requires
            a * 100 < limit * b,
            a > 0,
    ;
    lemma_fraction(limit, 100);
    law_integers_are_exact(1);
    lemma_fractions_in_order(a, b, limit, 100);
    law_numbers_are_ordered(t, fraction(a, b), fraction(limit, 100));
    law_numbers_are_ordered(fraction(limit, 100), t, fraction(a, b));
    law_numbers_are_ordered(fraction(a, b), fraction(limit, 100), t);
    law_numbers_are_ordered(t, fraction(limit, 100), integer(1));
}

/// The colours of swap: dark red at eight tenths, and violet from nine tenths on.
pub proof fn law_swap_scale(t: Number)
    requires
        fair(t),
        at_most(integer(0), t),
    ensures
        at_most(t, fraction(1, 2)) ==> tinted(swap_color(t), GREEN, YELLOW, false),
        below(fraction(1, 2), t) && at_most(t, fraction(7, 10)) ==> tinted(swap_color(t), YELLOW, ORANGE, false),
        below(fraction(7, 10), t) && below(t, fraction(8, 10)) ==> tinted(swap_color(t), ORANGE, DARK_RED, false),
        below(fraction(8, 10), t) && below(t, fraction(9, 10)) ==> tinted(swap_color(t), DARK_RED, RED, true),
        at_most(fraction(9, 10), t) ==> swap_color(t) == VIOLET_BOLD@,
{
    lemma_scale(swap_ramp(), t, 1, 2, 7, 10, 8, 10);
    lemma_below_tenth(t, 1, 2);
    lemma_below_tenth(t, 7, 10);
    lemma_below_tenth(t, 8, 10);
}

proof fn lemma_below_tenth(t: Number, a: nat, b: nat)
    requires
        fair(t),
        0 < a <= b <= 100,
        a * 10 < 9 * b,
    ensures
        at_most(t, fraction(a, b)) ==> !at_most(fraction(9, 10), t),
        below(t, fraction(9, 10)) ==> at_most(t, integer(1)),
{
    lemma_fraction(a, b);
    lemma_fraction(9, 10);
    law_integers_are_exact(1);
    lemma_fractions_in_order(a, b, 9, 10);
    law_numbers_are_ordered(t, fraction(a, b), fraction(9, 10));
    law_numbers_are_ordered(fraction(9, 10), t, fraction(a, b));
    law_numbers_are_ordered(fraction(a, b), fraction(9, 10), t);
    law_numbers_are_ordered(t, fraction(9, 10), integer(1));
}

/// The colours of an interface, by its share of what it can take: orange at two thirds, dark
/// red at 83 hundredths, and violet beyond all.
pub proof fn law_net_scale(speed: Number, max: Number)
    requires
        fair(quotient(speed, larger(max, integer(1)))),
        at_most(integer(0), quotient(speed, larger(max, integer(1)))),
    ensures
        ({
            let t = quotient(speed, larger(max, integer(1)));
            &&& at_most(t, fraction(33, 100)) ==> tinted(net_color(speed, max), GREEN, YELLOW, false)
            &&& below(fraction(33, 100), t) && at_most(t, fraction(66, 100)) ==> tinted(
                net_color(speed, max),
                YELLOW,
                ORANGE,
                false,
            )
            &&& below(fraction(66, 100), t) && below(t, fraction(83, 100)) ==> tinted(
                net_color(speed, max),
                ORANGE,
                DARK_RED,
                false,
            )
            &&& below(fraction(83, 100), t) && at_most(t, integer(1)) ==> tinted(
                net_color(speed, max),
                DARK_RED,
                RED,
                true,
            )
            &&& below(integer(1), t) ==> net_color(speed, max) == VIOLET_BOLD@
        }),
{
    let t = quotient(speed, larger(max, integer(1)));
    law_integers_are_exact(1);
    law_numbers_are_ordered(t, integer(1), integer(1));
    lemma_scale(net_ramp(), t, 33, 100, 66, 100, 83, 100);
}

/// The colours of a volume: green up to its first limit, then to yellow, to orange and bold
/// to red, and violet from the last on; the limits are three quarters, 85, 90 and 95
/// hundredths, and where it copies on write, ten hundredths earlier.
pub proof fn law_capacity_scale(t: Number, cow: bool)
    requires
        fair(t),
        at_most(integer(0), t),
    ensures
        ({
            let less: nat = if cow {
                10
            } else {
                0
            };
            let a = fraction((75 - less) as nat, 100);
            let b = fraction((85 - less) as nat, 100);
            let c = fraction((90 - less) as nat, 100);
            let d = fraction((95 - less) as nat, 100);
            &&& at_most(t, a) ==> disk_capacity_color(t, cow) == color_sequence(false, GREEN)
            &&& below(a, t) && at_most(t, b) ==> tinted(disk_capacity_color(t, cow), GREEN, YELLOW, false)
            &&& below(b, t) && below(t, c) ==> tinted(disk_capacity_color(t, cow), YELLOW, ORANGE, false)
            &&& below(c, t) && below(t, d) ==> tinted(disk_capacity_color(t, cow), ORANGE, RED, true)
            &&& at_most(d, t) ==> disk_capacity_color(t, cow) == VIOLET_BOLD@
        }),
{
    let less: nat = if cow {
        10
    } else {
        0
    };
    let i = (75 - less) as nat;
    let j = (85 - less) as nat;
    let k = (90 - less) as nat;
    let l = (95 - less) as nat;
    let a = fraction(i, 100);
    let b = fraction(j, 100);
    let c = fraction(k, 100);
    let d = fraction(l, 100);
    assert(disk_limits(cow) == (a, b, c, d));
    lemma_fraction(i, 100);
    lemma_fraction(j, 100);
    lemma_fraction(k, 100);
    lemma_fraction(l, 100);
    lemma_fractions_in_order(i, 100, j, 100);
    lemma_fractions_in_order(j, 100, k, 100);
    lemma_fractions_in_order(k, 100, l, 100);
    law_integers_are_exact(0);
    law_integers_are_exact(1);
    law_numbers_are_ordered(a, b, c);
    law_numbers_are_ordered(b, c, d);
    law_numbers_are_ordered(a, c, d);
    law_numbers_are_ordered(t, a, d);
    law_numbers_are_ordered(t, b, d);
    law_numbers_are_ordered(t, c, d);
    law_numbers_are_ordered(d, t, a);
    law_numbers_are_ordered(d, t, b);
    law_numbers_are_ordered(d, t, c);
    law_numbers_are_ordered(t, d, integer(1));
    law_numbers_are_ordered(a, t, t);
    law_numbers_are_ordered(b, t, t);
    law_numbers_are_ordered(t, a, c);
    law_numbers_are_ordered(t, b, c);
    law_numbers_are_ordered(c, t, b);
    law_numbers_are_ordered(c, t, a);
    law_numbers_are_ordered(c, t, t);
    law_numbers_are_ordered(b, t, a);
    law_numbers_are_ordered(a, b, t);
    law_numbers_are_ordered(b, c, t);
    law_numbers_are_ordered(a, c, t);
    if !at_most(d, t) {
        law_numbers_are_ordered(t, integer(0), integer(1));
        law_numbers_are_ordered(integer(1), t, d);
        law_numbers_are_ordered(t, integer(1), integer(1));
        law_numbers_are_ordered(integer(0), t, t);
        assert(clamped(t, integer(0), integer(1)) == t);
        lemma_difference_fair(t, a);
        lemma_difference_fair(t, b);
        lemma_difference_fair(t, c);
        lemma_gap(b, a);
        lemma_gap(c, b);
        lemma_gap(d, c);
        lemma_quotient_fair(difference(t, a), difference(b, a));
        lemma_quotient_fair(difference(t, b), difference(c, b));
        lemma_quotient_fair(difference(t, c), difference(d, c));
        lemma_blend_tinted(GREEN, YELLOW, progress(t, a, difference(b, a)), false);
        lemma_blend_tinted(YELLOW, ORANGE, progress(t, b, difference(c, b)), false);
        lemma_blend_tinted(ORANGE, RED, progress(t, c, difference(d, c)), true);
    }
}

/// The difference of a larger number and a smaller one is above nothing.
proof fn lemma_gap(high: Number, low: Number)
    requires
        positive(high),
        positive(low),
        below(low, high),
        at_most(high, integer(1)),
    ensures
        positive(difference(high, low)),
{
    let one = one_units();
    law_integers_are_exact(1);
    lemma_pow2_pos(1074);
    let total = high.signed() + low.negated().signed();
    assert(total == high.units() - low.units());
    let n = total as nat;
    lemma_nearest_is_valid(false, n, 1);
    assert(n * 1 <= 1 * one * 1) by (nonlinear_arith)
        requires
            n <= one,
    ;
    law_rounding_keeps_order(n, 1, 1 * one, 1);
    let least = Number::Finite { negative: false, mantissa: 1, scale: 0 };
    vstd::arithmetic::power2::lemma2_to64();
    lemma_exact(least);
    assert(least.units() == 1);
    law_rounding_keeps_order(1, 1, n, 1);
}

/// The colours of the room: green up to 24 degrees, then to yellow up to 27, to orange up
/// to 31, to light red up to 35, to violet below 40, and violet from there on.
pub proof fn law_room_scale(t: Number)
    requires
        fair(t),
    ensures
        at_most(t, integer(24)) ==> room_temp_color(t) == color_sequence(false, GREEN),
        below(integer(24), t) && at_most(t, integer(27)) ==> tinted(room_temp_color(t), GREEN, YELLOW, false),
        below(integer(27), t) && at_most(t, integer(31)) ==> tinted(room_temp_color(t), YELLOW, ORANGE, false),
        below(integer(31), t) && at_most(t, integer(35)) ==> tinted(room_temp_color(t), ORANGE, LIGHT_RED, false),
        below(integer(35), t) && below(t, integer(40)) ==> tinted(room_temp_color(t), LIGHT_RED, VIOLET, false),
        at_most(integer(40), t) ==> room_temp_color(t) == color_sequence(false, VIOLET),
{
    lemma_whole(24);
    lemma_whole(27);
    lemma_whole(31);
    lemma_whole(35);
    lemma_whole(40);
    lemma_whole(3);
    lemma_whole(4);
    lemma_whole(5);
    lemma_pow2_pos(1074);
    lemma_difference_fair(t, integer(24));
    lemma_difference_fair(t, integer(27));
    lemma_difference_fair(t, integer(31));
    lemma_difference_fair(t, integer(35));
    lemma_quotient_fair(difference(t, integer(24)), integer(3));
    lemma_quotient_fair(difference(t, integer(27)), integer(4));
    lemma_quotient_fair(difference(t, integer(31)), integer(4));
    lemma_quotient_fair(difference(t, integer(35)), integer(5));
    lemma_blend_tinted(GREEN, YELLOW, progress(t, integer(24), integer(3)), false);
    lemma_blend_tinted(YELLOW, ORANGE, progress(t, integer(27), integer(4)), false);
    lemma_blend_tinted(ORANGE, LIGHT_RED, progress(t, integer(31), integer(4)), false);
    lemma_blend_tinted(LIGHT_RED, VIOLET, progress(t, integer(35), integer(5)), false);
    law_numbers_are_ordered(t, integer(24), integer(27));
    law_numbers_are_ordered(t, integer(27), integer(31));
    law_numbers_are_ordered(t, integer(31), integer(35));
    law_numbers_are_ordered(t, integer(35), integer(40));
}

proof fn lemma_whole(n: nat)
    requires
        0 < n <= 1000,
    ensures
        positive(integer(n)),
        integer(n).units() == n * one_units(),
{
    law_integers_are_exact(n);
    lemma_pow2_pos(1074);
    assert(n * one_units() > 0) by (nonlinear_arith)
        requires
            n > 0,
            one_units() > 0,
    ;
}

/// The colours of a ratio of compression: violet below one, then from flame to orange up to
/// 1.5, to yellow up to 2.5, to green up to 4, and green from there on.
pub proof fn law_ratio_scale(t: Number)
    requires
        fair(t),
    ensures
        below(t, integer(1)) ==> ratio_color(t) == color_sequence(false, VIOLET),
        at_most(integer(1), t) && at_most(t, fraction(3, 2)) ==> tinted(ratio_color(t), FLAME, ORANGE, false),
        below(fraction(3, 2), t) && at_most(t, fraction(5, 2)) ==> tinted(ratio_color(t), ORANGE, YELLOW, false),
        below(fraction(5, 2), t) && at_most(t, integer(4)) ==> tinted(ratio_color(t), YELLOW, GREEN, false),
        below(integer(4), t) ==> ratio_color(t) == color_sequence(false, GREEN),
{
    lemma_whole(1);
    lemma_whole(4);
    lemma_fraction(1, 2);
    lemma_fraction(3, 2);
    lemma_fraction(5, 2);
    lemma_difference_fair(t, integer(1));
    lemma_difference_fair(t, fraction(3, 2));
    lemma_difference_fair(t, fraction(5, 2));
    lemma_quotient_fair(difference(t, integer(1)), fraction(1, 2));
    lemma_quotient_fair(difference(t, fraction(3, 2)), integer(1));
    lemma_quotient_fair(difference(t, fraction(5, 2)), fraction(3, 2));
    lemma_blend_tinted(FLAME, ORANGE, progress(t, integer(1), fraction(1, 2)), false);
    lemma_blend_tinted(ORANGE, YELLOW, progress(t, fraction(3, 2), integer(1)), false);
    lemma_blend_tinted(YELLOW, GREEN, progress(t, fraction(5, 2), fraction(3, 2)), false);
    lemma_half_steps();
    law_numbers_are_ordered(t, integer(1), fraction(3, 2));
    law_numbers_are_ordered(t, fraction(3, 2), fraction(5, 2));
    law_numbers_are_ordered(t, fraction(5, 2), integer(4));
    law_numbers_are_ordered(t, fraction(3, 2), integer(4));
    law_numbers_are_ordered(integer(1), fraction(3, 2), t);
    law_numbers_are_ordered(fraction(3, 2), fraction(5, 2), t);
    law_numbers_are_ordered(fraction(5, 2), integer(4), t);
    law_numbers_are_ordered(fraction(3, 2), integer(4), t);
    law_numbers_are_ordered(integer(1), integer(4), t);
    law_numbers_are_ordered(integer(1), fraction(5, 2), t);
    law_numbers_are_ordered(integer(1), t, t);
}

proof fn lemma_half_steps()
    ensures
        below(integer(1), fraction(3, 2)),
        below(fraction(3, 2), fraction(5, 2)),
        below(fraction(5, 2), integer(4)),
        below(integer(1), fraction(5, 2)),
        below(fraction(3, 2), integer(4)),
{
    let one = one_units();
    lemma_pow2_pos(1074);
    law_integers_are_exact(1);
    law_integers_are_exact(4);
    crate::figures::lemma_halves(3);
    crate::figures::lemma_halves(5);
}

/// The colours of an idle time: over a year from green by yellow, orange and red to violet, a
/// quarter of the year each.
pub proof fn law_idle_scale(secs: nat)
    requires
        secs <= u64::MAX,
    ensures
        ({
            let t = clamped(quotient(integer(secs), integer(31_536_000)), integer(0), integer(1));
            &&& at_most(t, fraction(1, 4)) ==> tinted(idle_color(secs), GREEN, YELLOW, false)
            &&& below(fraction(1, 4), t) && at_most(t, fraction(1, 2)) ==> tinted(
                idle_color(secs),
                YELLOW,
                ORANGE,
                false,
            )
            &&& below(fraction(1, 2), t) && at_most(t, fraction(3, 4)) ==> tinted(idle_color(secs), ORANGE, RED, false)
            &&& below(fraction(3, 4), t) ==> tinted(idle_color(secs), RED, VIOLET, false)
        }),
{
    let year = integer(31_536_000);
    law_integers_are_exact(0);
    law_integers_are_exact(1);
    law_integers_are_exact(31_536_000);
    lemma_pow2_pos(1074);
    assert(31_536_000 * one_units() > 0) by (nonlinear_arith)
        requires
            one_units() > 0,
    ;
    crate::binary64::lemma_integer_bound(secs);
    lemma_quotient_fair(integer(secs), year);
    let t = clamped(quotient(integer(secs), year), integer(0), integer(1));
    assert(fair(t));
    lemma_fraction(1, 4);
    lemma_fraction(1, 2);
    lemma_fraction(3, 4);
    lemma_fractions_in_order(1, 4, 1, 2);
    lemma_fractions_in_order(1, 2, 3, 4);
    lemma_difference_fair(t, fraction(1, 4));
    lemma_difference_fair(t, fraction(1, 2));
    lemma_difference_fair(t, fraction(3, 4));
    lemma_quotient_fair(t, fraction(1, 4));
    lemma_quotient_fair(difference(t, fraction(1, 4)), fraction(1, 4));
    lemma_quotient_fair(difference(t, fraction(1, 2)), fraction(1, 4));
    lemma_quotient_fair(difference(t, fraction(3, 4)), fraction(1, 4));
    lemma_blend_tinted(GREEN, YELLOW, quotient(t, fraction(1, 4)), false);
    lemma_blend_tinted(YELLOW, ORANGE, progress(t, fraction(1, 4), fraction(1, 4)), false);
    lemma_blend_tinted(ORANGE, RED, progress(t, fraction(1, 2), fraction(1, 4)), false);
    lemma_blend_tinted(RED, VIOLET, progress(t, fraction(3, 4), fraction(1, 4)), false);
    law_numbers_are_ordered(t, fraction(1, 4), fraction(1, 2));
    law_numbers_are_ordered(t, fraction(1, 2), fraction(3, 4));
    law_numbers_are_ordered(fraction(1, 4), fraction(1, 2), t);
    law_numbers_are_ordered(fraction(1, 2), fraction(3, 4), t);
    law_numbers_are_ordered(fraction(1, 4), fraction(3, 4), t);
}

} // verus!
