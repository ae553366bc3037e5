//! The colours of the lines: each figure is coloured by its own share of its own whole.

use crate::binary64::{
    at_most, below, clamped, difference, fraction, integer, larger, law_integers_are_exact,
    law_numbers_are_ordered, law_rounding_keeps_order, lemma_exact, lemma_nearest_is_valid, nearest,
    one_units, product, quotient, Number,
};
use crate::color::{
    color_sequence, cpu_color, cube, disk_capacity_color, disk_speed_color, net_color, progress, ram_color,
    swap_color, zswap_algo_color, Rgb, BOLD, DARK_RED, GREEN, ORANGE, PEAK_RED, RED, VIOLET, VIOLET_BOLD,
    WHITE_BOLD, YELLOW,
};
use crate::figures::{lemma_nearest_error, lemma_thousandth_above};
use crate::heat::{
    fair, law_capacity_scale, law_cpu_scale, law_net_scale, law_ram_scale, law_swap_scale,
    lemma_blend_tinted, lemma_difference_fair, lemma_fraction, lemma_quotient_fair, positive, tinted,
};
use crate::layout::left_aligned;
use crate::memory::{ram_shown, swap_shown, swap_total_shown, used_kilobytes, Swap};
use crate::peaks::watermark_text;
use crate::render::{core_cell, speeds_text, storage_total_text};
use crate::state::Status;
use crate::storage::{copies_on_write, node_of, FileSystem, Paces};
use crate::text::begins_with;
use crate::units::share;
use vstd::arithmetic::power2::{lemma2_to64, lemma_pow2_adds, lemma_pow2_pos, pow2};
use vstd::prelude::*;

verus! {

/// Whole numbers of this size and all their sums are exact.
pub open spec fn small(n: nat) -> bool {
    n < 0x1_0000_0000_0000
}

/// A share of whole numbers is on the same side of a fraction as they are.
pub proof fn law_share_by_fraction(n: nat, m: nat, a: nat, b: nat)
    requires
        small(n),
        small(m),
        m > 0,
        0 < a <= 1000,
        0 < b <= 1000,
        a <= b,
    ensures
        fair(quotient(integer(n), integer(m))),
        at_most(integer(0), quotient(integer(n), integer(m))),
        n * b <= a * m ==> at_most(quotient(integer(n), integer(m)), fraction(a, b)),
        a * m <= n * b ==> at_most(fraction(a, b), quotient(integer(n), integer(m))),
        n <= m ==> at_most(quotient(integer(n), integer(m)), integer(1)),
        m < n ==> below(integer(1), quotient(integer(n), integer(m))),
{
    let one = one_units();
    lemma_pow2_pos(1074);
    law_integers_are_exact(n);
    law_integers_are_exact(m);
    law_integers_are_exact(1);
    law_integers_are_exact(0);
    lemma_fraction(a, b);
    assert(m * one > 0) by (nonlinear_arith)
        requires
            m > 0,
            one > 0,
    ;
    let t = quotient(integer(n), integer(m));
    lemma_quotient_fair(integer(n), integer(m));
    let p = n * one * one;
    let q = m * one;
    assert(0 * one == 0) by (nonlinear_arith);
    law_rounding_keeps_order(0, 1, p, q);
    if n * b <= a * m {
        assert(p * b <= a * one * q) by (nonlinear_arith)
            requires
                n * b <= a * m,
                p == n * one * one,
                q == m * one,
        ;
        law_rounding_keeps_order(p, q, a * one, b);
    }
    if a * m <= n * b {
        assert(a * one * q <= p * b) by (nonlinear_arith)
            requires
                a * m <= n * b,
                p == n * one * one,
                q == m * one,
        ;
        law_rounding_keeps_order(a * one, b, p, q);
    }
    if n <= m {
        assert(p * 1 <= 1 * one * q) by (nonlinear_arith)
            requires
                n <= m,
                p == n * one * one,
                q == m * one,
        ;
        law_rounding_keeps_order(p, q, 1 * one, 1);
    } else {
        let next = Number::Finite { negative: false, mantissa: 0x10_0000_0000_0001, scale: 1022 };
        lemma2_to64();
        lemma_exact(next);
        lemma_pow2_adds(52, 1022);
        lemma_pow2_adds(20, 32);
        let h = pow2(1022);
        lemma_pow2_pos(1022);
        assert(next.units() == one + h) by (nonlinear_arith)
            requires
                next.units() == 0x10_0000_0000_0001 * h,
                one == 0x10_0000_0000_0000 * h,
        ;
        assert((one + h) * m <= n * one) by (nonlinear_arith)
            requires
                one == 0x10_0000_0000_0000 * h,
                m + 1 <= n,
                m < 0x10_0000_0000_0000,
                h > 0,
        ;
        assert((one + h) * q <= p * 1) by (nonlinear_arith)
            requires
                (one + h) * m <= n * one,
                q == m * one,
                p == n * one * one,
                one > 0,
        ;
        law_rounding_keeps_order(one + h, 1, p, q);
        law_numbers_are_ordered(integer(1), next, t);
    }
}

// ---------------------------------------------------------------------------
// Memory
// ---------------------------------------------------------------------------

/// The line of the memory begins in the colour of what is used: no more than yellow up to half
/// of the memory, and violet from 95 hundredths on.
pub proof fn law_memory_is_colored_by_use(total: nat, avail: nat) -> (c: Seq<char>)
    requires
        small(total),
        0 < total,
        avail <= total,
    ensures
        begins_with(ram_shown(total, avail), c),
        2 * (total - avail) <= total ==> tinted(c, GREEN, YELLOW, false),
        100 * (total - avail) >= 95 * total ==> c == VIOLET_BOLD@,
{
    let used = used_kilobytes(total, avail);
    let t = share(used, total);
    law_share_by_fraction(used, total, 1, 2);
    law_share_by_fraction(used, total, 95, 100);
    law_ram_scale(t);
    let c = ram_color(t);
    assert(ram_shown(total, avail).subrange(0, c.len() as int) =~= c);
    c
}

/// The line of all swap devices begins in the colour of what is used: no more than yellow up to
/// half, and violet from nine tenths on.
pub proof fn law_swap_is_colored_by_use(used: nat, whole: nat) -> (c: Seq<char>)
    requires
        small(used),
        small(whole),
        0 < whole,
    ensures
        begins_with(swap_total_shown(used, whole), c),
        2 * used <= whole ==> tinted(c, GREEN, YELLOW, false),
        10 * used >= 9 * whole ==> c == VIOLET_BOLD@,
{
    let t = share(used, whole);
    law_share_by_fraction(used, whole, 1, 2);
    law_share_by_fraction(used, whole, 9, 10);
    law_swap_scale(t);
    let c = swap_color(t);
    assert(swap_total_shown(used, whole).subrange(0, c.len() as int) =~= c);
    c
}

/// The line of a swap device is, behind its name, in the colour of what is used of it.
pub proof fn law_swap_device_is_colored_by_use(swap: Swap, width: nat) -> (c: Seq<char>)
    requires
        small(swap.used * 1024),
        small(swap.size * 1024),
        0 < swap.size,
    ensures
        begins_with(swap_shown(swap, width), " "@ + left_aligned(swap.name, width) + ": "@ + c),
        2 * swap.used <= swap.size ==> tinted(c, GREEN, YELLOW, false),
        10 * swap.used >= 9 * swap.size ==> c == VIOLET_BOLD@,
{
    let t = share(swap.used * 1024, swap.size * 1024);
    law_share_by_fraction(swap.used * 1024, swap.size * 1024, 1, 2);
    law_share_by_fraction(swap.used * 1024, swap.size * 1024, 9, 10);
    law_swap_scale(t);
    let c = swap_color(t);
    let start = " "@ + left_aligned(swap.name, width) + ": "@ + c;
    assert(swap_shown(swap, width).subrange(0, start.len() as int) =~= start);
    c
}

// ---------------------------------------------------------------------------
// Storage
// ---------------------------------------------------------------------------

/// A volume is in the colour of what is used of it: green up to three quarters, and violet from
/// 95 hundredths on; ten hundredths earlier where it copies on write.
pub proof fn law_volume_is_colored_by_use(v: FileSystem, paces: Paces, width: nat)
    requires
        small(v.used),
        small(v.total),
        0 < v.total,
    ensures
        ({
            let less: nat = if copies_on_write(v.kind) {
                10
            } else {
                0
            };
            let c = node_of(v, paces, width).capacity_color;
            &&& 100 * v.used <= (75 - less) * v.total ==> c == color_sequence(false, GREEN)
            &&& 100 * v.used >= (95 - less) * v.total ==> c == VIOLET_BOLD@
        }),
{
    let cow = copies_on_write(v.kind);
    let less: nat = if cow {
        10
    } else {
        0
    };
    let t = share(v.used, v.total);
    law_share_by_fraction(v.used, v.total, (75 - less) as nat, 100);
    law_share_by_fraction(v.used, v.total, (95 - less) as nat, 100);
    law_capacity_scale(t, cow);
}

/// All volumes together are violet as soon as one of them is at 95 hundredths, however much
/// room there is in all; else they are in the colour of what is used of all.
pub proof fn law_storage_is_colored_by_its_fullest(s: Status, i: int) -> (c: Seq<char>)
    requires
        0 <= i < s.disk_nodes.len(),
        small(s.disk_nodes[i].used_bytes as nat),
        small(s.disk_nodes[i].total_bytes as nat),
        0 < s.disk_nodes[i].total_bytes,
    ensures
        begins_with(storage_total_text(s), c),
        100 * s.disk_nodes[i].used_bytes >= 95 * s.disk_nodes[i].total_bytes ==> c == VIOLET_BOLD@,
{
    let n = s.disk_nodes[i];
    law_share_by_fraction(n.used_bytes as nat, n.total_bytes as nat, 95, 100);
    let load = share(s.disk_agg_used as nat, s.disk_agg_total as nat);
    let c = if exists|i: int| 0 <= i < s.disk_nodes.len() && crate::render::nearly_full(#[trigger] s.disk_nodes[i]) {
        VIOLET_BOLD@
    } else {
        disk_capacity_color(load, false)
    };
    if 100 * n.used_bytes >= 95 * n.total_bytes {
        assert(crate::render::nearly_full(s.disk_nodes[i]));
    }
    assert(storage_total_text(s).subrange(0, c.len() as int) =~= c);
    c
}

/// A product of two numbers is not above that of two bounds, with a thousandth to spare.
proof fn lemma_product_below(x: Number, y: Number, a: nat, b: nat, c: nat)
    requires
        x.valid(),
        y.valid(),
        at_most(integer(0), x),
        at_most(integer(0), y),
        at_most(x, fraction(a, 1000)),
        at_most(y, fraction(b, 1000)),
        0 < a <= 1000,
        0 < b <= 1000,
        0 < c <= 1000,
        a * b + a + b + 1 <= c * 1000,
    ensures
        at_most(product(x, y), fraction(c, 1000)),
        at_most(integer(0), product(x, y)),
        product(x, y).valid(),
{
    let one = one_units();
    lemma_thousandths(a);
    lemma_thousandths(b);
    lemma_fraction(c, 1000);
    law_integers_are_exact(0);
    assert(0 * one == 0) by (nonlinear_arith);
    law_numbers_are_ordered(x, fraction(a, 1000), fraction(a, 1000));
    let u = x.signed();
    let v = y.signed();
    assert(0 <= u && 1000 * u <= (a + 1) * one);
    assert(0 <= v && 1000 * v <= (b + 1) * one);
    let p = x.units() * y.units();
    lemma_signs(x, y);
    assert(p == u * v);
    assert(1000 * p <= c * one * one) by (nonlinear_arith)
        requires
            p == u * v,
            0 <= u,
            0 <= v,
            1000 * u <= (a + 1) * one,
            1000 * v <= (b + 1) * one,
            a * b + a + b + 1 <= c * 1000,
            one > 0,
    ;
    lemma_pow2_pos(1074);
    law_rounding_keeps_order(p, one, c * one, 1000);
    law_rounding_keeps_order(0, 1, p, one);
    let negative = x->Finite_negative != y->Finite_negative;
    lemma_nearest_is_valid(negative, p, one);
    lemma_nearest_negated(negative, p, one);
}

/// A product of two numbers is not below that of two bounds, with a thousandth to spare.
proof fn lemma_product_above(x: Number, y: Number, a: nat, b: nat, c: nat)
    requires
        x.valid(),
        y.valid(),
        x is Finite,
        y is Finite,
        at_most(fraction(a, 1000), x),
        at_most(fraction(b, 1000), y),
        1 < a <= 1000,
        1 < b <= 1000,
        0 < c <= 1000,
        (a - 1) * (b - 1) >= c * 1000,
    ensures
        at_most(fraction(c, 1000), product(x, y)),
{
    let one = one_units();
    lemma_thousandths(a);
    lemma_thousandths(b);
    lemma_fraction(c, 1000);
    let u = x.signed();
    let v = y.signed();
    assert(1000 * u >= (a - 1) * one);
    assert(1000 * v >= (b - 1) * one);
    lemma_pow2_pos(1074);
    assert(u >= 0 && v >= 0) by (nonlinear_arith)
        requires
            1000 * u >= (a - 1) * one,
            1000 * v >= (b - 1) * one,
            a > 1,
            b > 1,
            one > 0,
    ;
    assert(u > 0 && v > 0) by (nonlinear_arith)
        requires
            1000 * u >= (a - 1) * one,
            1000 * v >= (b - 1) * one,
            a > 1,
            b > 1,
            one > 0,
    ;
    let p = x.units() * y.units();
    assert(p == u * v);
    assert(c * one * one <= 1000 * p) by (nonlinear_arith)
        requires
            p == u * v,
            1000 * u >= (a - 1) * one,
            1000 * v >= (b - 1) * one,
            (a - 1) * (b - 1) >= c * 1000,
            a > 1,
            b > 1,
            one > 0,
    ;
    law_rounding_keeps_order(c * one, 1000, p, one);
}

/// Thousandths are exact but for a small part of a thousandth.
proof fn lemma_thousandths(a: nat)
    requires
        0 < a <= 1000,
    ensures
        fraction(a, 1000) is Finite,
        positive(fraction(a, 1000)),
        (a - 1) * one_units() <= 1000 * fraction(a, 1000).signed() <= (a + 1) * one_units(),
        one_units() > 0,
{
    let one = one_units();
    lemma_pow2_pos(1074);
    lemma2_to64();
    lemma_fraction(a, 1000);
    assert(a * one <= pow2(0) * one * 1000) by (nonlinear_arith)
        requires
            a <= 1000,
            pow2(0) == 1,
    ;
    lemma_nearest_error(a * one, 1000, 0);
    lemma_pow2_adds(52, 1022);
    lemma_pow2_adds(20, 32);
    let h = pow2(1022);
    lemma_pow2_pos(1022);
    assert(1000 * h <= one) by (nonlinear_arith)
        requires
            one == 0x10_0000_0000_0000 * h,
    ;
    let x = fraction(a, 1000).units();
    assert((a - 1) * one <= 1000 * x <= (a + 1) * one) by (nonlinear_arith)
        requires
            1000 * h <= one,
            -(1000 * h) <= x * 1000 - a * one <= 1000 * h,
    ;
}

/// Numbers that are not below nothing: their units are what they count.
proof fn lemma_signs(x: Number, y: Number)
    requires
        x is Finite,
        y is Finite,
        x.signed() >= 0,
        y.signed() >= 0,
        x.valid(),
        y.valid(),
    ensures
        x.units() * y.units() == x.signed() * y.signed(),
        x.units() == x.signed(),
        y.units() == y.signed(),
        x->Finite_negative != y->Finite_negative ==> x.units() * y.units() == 0,
{
    if x->Finite_negative != y->Finite_negative {
        assert(x.units() == 0 || y.units() == 0);
        assert(x.units() * y.units() == 0) by (nonlinear_arith)
            requires
                x.units() == 0 || y.units() == 0,
        ;
    }
}

/// The share of a whole speed in the highest one, between none and all.
proof fn lemma_speed_share(speed: nat, highest: nat, a: nat)
    requires
        small(speed),
        small(highest),
        0 < speed <= highest,
        0 < a <= 1000,
    ensures
        ({
            let x = clamped(quotient(integer(speed), integer(highest)), integer(0), integer(1));
            &&& x.valid()
            &&& x is Finite
            &&& at_most(integer(0), x)
            &&& at_most(x, integer(1))
            &&& speed * 1000 <= a * highest ==> at_most(x, fraction(a, 1000))
            &&& a * highest <= speed * 1000 ==> at_most(fraction(a, 1000), x)
        }),
{
    let t = quotient(integer(speed), integer(highest));
    law_share_by_fraction(speed, highest, a, 1000);
    law_integers_are_exact(0);
    law_integers_are_exact(1);
    law_numbers_are_ordered(t, integer(0), integer(1));
    law_numbers_are_ordered(integer(0), t, t);
    law_numbers_are_ordered(t, integer(1), integer(1));
}

/// The colours of a device, by the cube of its share in the highest known speed: no more than
/// yellow up to 70 hundredths of it, orange at most from 75 to 92, dark red at most from 94 to
/// 97, bright red from 99 on, and violet above it.
#[verifier::spinoff_prover]
pub proof fn law_device_speed_scale(speed: nat, highest: nat)
    requires
        small(1000 * speed),
        small(1000 * highest),
        1024 < highest,
        0 < speed,
    ensures
        ({
            let c = disk_speed_color(integer(speed), integer(highest));
            &&& 100 * speed <= 70 * highest ==> tinted(c, GREEN, YELLOW, false)
            &&& 75 * highest <= 100 * speed <= 92 * highest ==> tinted(c, YELLOW, ORANGE, false)
            &&& 94 * highest <= 100 * speed <= 97 * highest ==> tinted(c, ORANGE, DARK_RED, false)
            &&& 99 * highest <= 100 * speed <= 100 * highest ==> c == PEAK_RED@
            &&& highest < speed ==> c == VIOLET_BOLD@
        }),
{
    let one = one_units();
    lemma_pow2_pos(1074);
    law_integers_are_exact(speed);
    law_integers_are_exact(highest);
    law_integers_are_exact(1024);
    law_integers_are_exact(0);
    law_integers_are_exact(1);
    assert(1024 * one < highest * one && 0 < speed * one) by (nonlinear_arith)
        requires
            1024 < highest,
            0 < speed,
            one > 0,
    ;
    assert(highest < speed <==> highest * one < speed * one) by (nonlinear_arith)
        requires
            one > 0,
    ;
    assert(0 * one == 0) by (nonlinear_arith);
    lemma_peak_line(speed, highest);
    if speed <= highest && 100 * speed <= 97 * highest {
        lemma_cube_of_share(speed, highest);
        let x = clamped(quotient(integer(speed), integer(highest)), integer(0), integer(1));
        let t = cube(x);
        let four = fraction(4, 10);
        let eight = fraction(8, 10);
        lemma_fraction(4, 10);
        lemma_fraction(8, 10);
        lemma_fraction(2, 10);
        lemma_quotient_fair(t, four);
        lemma_difference_fair(t, four);
        lemma_difference_fair(t, eight);
        lemma_quotient_fair(difference(t, four), four);
        lemma_quotient_fair(difference(t, eight), fraction(2, 10));
        lemma_blend_tinted(GREEN, YELLOW, quotient(t, four), false);
        lemma_blend_tinted(YELLOW, ORANGE, progress(t, four, four), false);
        lemma_blend_tinted(ORANGE, DARK_RED, progress(t, eight, fraction(2, 10)), false);
    }
}

/// What 98 hundredths of the highest speed are.
proof fn lemma_peak_line(speed: nat, highest: nat)
    requires
        small(1000 * speed),
        small(1000 * highest),
        0 < highest,
    ensures
        99 * highest <= 100 * speed ==> at_most(product(integer(highest), fraction(98, 100)), integer(speed)),
        100 * speed <= 97 * highest ==> !at_most(product(integer(highest), fraction(98, 100)), integer(speed)),
{
    let one = one_units();
    lemma_pow2_pos(1074);
    lemma2_to64();
    law_integers_are_exact(speed);
    law_integers_are_exact(highest);
    lemma_fraction(98, 100);
    assert(98 * one <= pow2(0) * one * 100) by (nonlinear_arith)
        requires
            pow2(0) == 1,
    ;
    lemma_nearest_error(98 * one, 100, 0);
    lemma_pow2_adds(52, 1022);
    lemma_pow2_adds(20, 32);
    let h = pow2(1022);
    lemma_pow2_pos(1022);
    assert(1000 * h <= one) by (nonlinear_arith)
        requires
            one == 0x10_0000_0000_0000 * h,
    ;
    let f = fraction(98, 100).units();
    assert(979 * one <= 1000 * f <= 981 * one) by (nonlinear_arith)
        requires
            1000 * h <= one,
            -(100 * h) <= f * 100 - 98 * one <= 100 * h,
    ;
    let p = integer(highest).units() * f;
    lemma_nearest_is_valid(false, p, one);
    if 99 * highest <= 100 * speed {
        assert(p * 1 <= speed * one * one) by (nonlinear_arith)
            requires
                p == highest * one * f,
                1000 * f <= 981 * one,
                99 * highest <= 100 * speed,
                one > 0,
        ;
        law_rounding_keeps_order(p, one, speed * one, 1);
    }
    if 100 * speed <= 97 * highest {
        lemma_strictly_above(speed, highest, p, f);
    }
}

proof fn lemma_strictly_above(speed: nat, highest: nat, p: nat, f: nat)
    requires
        small(1000 * speed),
        small(1000 * highest),
        0 < highest,
        100 * speed <= 97 * highest,
        979 * one_units() <= 1000 * f,
        p == highest * one_units() * f,
    ensures
        !at_most(nearest(false, p, one_units()), integer(speed)),
{
    let one = one_units();
    lemma_pow2_pos(1074);
    law_integers_are_exact(speed);
    // A thousandth above the speed lies between the two.
    lemma_thousandth_above(speed);
    let middle = nearest(false, (1000 * speed + 1) * one, 1000);
    assert((1000 * speed + 1) * one * one <= p * 1000) by (nonlinear_arith)
        requires
            p == highest * one * f,
            979 * one <= 1000 * f,
            100 * speed <= 97 * highest,
            highest >= 1,
            one > 0,
    ;
    law_rounding_keeps_order((1000 * speed + 1) * one, 1000, p, one);
    lemma_nearest_is_valid(false, p, one);
    law_numbers_are_ordered(middle, nearest(false, p, one), integer(speed));
}

proof fn lemma_cube_of_share(speed: nat, highest: nat)
    requires
        small(1000 * speed),
        small(1000 * highest),
        0 < speed <= highest,
    ensures
        ({
            let t = cube(clamped(quotient(integer(speed), integer(highest)), integer(0), integer(1)));
            &&& fair(t)
            &&& 100 * speed <= 70 * highest ==> at_most(t, fraction(4, 10))
            &&& 75 * highest <= 100 * speed ==> below(fraction(4, 10), t)
            &&& 100 * speed <= 92 * highest ==> at_most(t, fraction(8, 10))
            &&& 94 * highest <= 100 * speed ==> below(fraction(8, 10), t)
        }),
{
    let x = clamped(quotient(integer(speed), integer(highest)), integer(0), integer(1));
    let y = product(x, x);
    let t = cube(x);
    lemma_speed_share(speed, highest, 1000);
    lemma_plain_cube(x);
    if 100 * speed <= 70 * highest {
        lemma_speed_share(speed, highest, 700);
        lemma_product_below(x, x, 700, 700, 492);
        lemma_product_below(y, x, 492, 700, 346);
        lemma_order_of_thousandths(346, 4, t);
    }
    if 75 * highest <= 100 * speed {
        lemma_speed_share(speed, highest, 750);
        lemma_product_above(x, x, 750, 750, 561);
        lemma_product_above(y, x, 561, 750, 419);
        lemma_order_of_thousandths(419, 4, t);
    }
    if 100 * speed <= 92 * highest {
        lemma_speed_share(speed, highest, 920);
        lemma_product_below(x, x, 920, 920, 849);
        lemma_product_below(y, x, 849, 920, 783);
        lemma_order_of_thousandths(783, 8, t);
    }
    if 94 * highest <= 100 * speed {
        lemma_speed_share(speed, highest, 940);
        lemma_product_above(x, x, 940, 940, 881);
        lemma_product_above(y, x, 881, 940, 826);
        lemma_order_of_thousandths(826, 8, t);
    }
}

/// The cube of a share is a share.
proof fn lemma_plain_cube(x: Number)
    requires
        x.valid(),
        x is Finite,
        at_most(integer(0), x),
        at_most(x, integer(1)),
    ensures
        product(x, x).valid(),
        product(x, x) is Finite,
        at_most(integer(0), product(x, x)),
        cube(x).valid(),
        cube(x) is Finite,
{
    let one = one_units();
    lemma_pow2_pos(1074);
    law_integers_are_exact(0);
    law_integers_are_exact(1);
    assert(0 * one == 0) by (nonlinear_arith);
    lemma_shares_multiplied(x, x);
    lemma_shares_multiplied(product(x, x), x);
}

proof fn lemma_shares_multiplied(x: Number, y: Number)
    requires
        x.valid(),
        y.valid(),
        x is Finite,
        y is Finite,
        0 <= x.signed() <= one_units(),
        0 <= y.signed() <= one_units(),
    ensures
        product(x, y).valid(),
        product(x, y) is Finite,
        0 <= product(x, y).signed() <= one_units(),
        at_most(integer(0), product(x, y)),
{
    let one = one_units();
    lemma_pow2_pos(1074);
    law_integers_are_exact(0);
    law_integers_are_exact(1);
    lemma_signs(x, y);
    let p = x.units() * y.units();
    let negative = x->Finite_negative != y->Finite_negative;
    assert(p <= one * one && p >= 0) by (nonlinear_arith)
        requires
            p == x.units() * y.units(),
            0 <= x.units() <= one,
            0 <= y.units() <= one,
    ;
    lemma_nearest_is_valid(negative, p, one);
    law_rounding_keeps_order(p, one, 1 * one, 1);
    law_rounding_keeps_order(0, 1, p, one);
    assert(0 * one == 0) by (nonlinear_arith);
    lemma_nearest_negated(negative, p, one);
}

/// Rounding does not depend on the sign.
proof fn lemma_nearest_negated(negative: bool, p: nat, q: nat)
    requires
        q > 0,
        nearest(false, p, q) is Finite,
        negative ==> p == 0,
    ensures
        nearest(negative, p, q) is Finite,
        nearest(negative, p, q).units() == nearest(false, p, q).units(),
        negative ==> nearest(negative, p, q).units() == 0,
{
    if negative {
        law_rounding_keeps_order(0, q, 0, 1);
        law_integers_are_exact(0);
    }
}

/// Thousandths against tenths.
proof fn lemma_order_of_thousandths(a: nat, tenths: nat, t: Number)
    requires
        fair(t),
        0 < a < 1000,
        0 < tenths < 10,
    ensures
        a <= 100 * tenths && at_most(t, fraction(a, 1000)) ==> at_most(t, fraction(tenths, 10)),
        100 * tenths + 2 < a && at_most(fraction(a, 1000), t) ==> below(fraction(tenths, 10), t),
{
    let one = one_units();
    lemma_pow2_pos(1074);
    lemma_fraction(a, 1000);
    lemma_fraction(tenths, 10);
    if a <= 100 * tenths {
        assert(a * one * 10 <= tenths * one * 1000) by (nonlinear_arith)
            requires
                a <= 100 * tenths,
                one > 0,
        ;
        law_rounding_keeps_order(a * one, 1000, tenths * one, 10);
        law_numbers_are_ordered(t, fraction(a, 1000), fraction(tenths, 10));
    }
    if 100 * tenths + 2 < a {
        lemma_thousandths(a);
        let m = 100 * tenths;
        lemma_thousandths(m);
        assert(tenths * one * 1000 <= m * one * 10) by (nonlinear_arith)
            requires
                m == 100 * tenths,
        ;
        law_rounding_keeps_order(tenths * one, 10, m * one, 1000);
        assert((m + 1) * one < (a - 1) * one) by (nonlinear_arith)
            requires
                m + 2 < a,
                one > 0,
        ;
        assert(below(fraction(m, 1000), fraction(a, 1000)));
        law_numbers_are_ordered(fraction(tenths, 10), fraction(m, 1000), fraction(a, 1000));
        law_numbers_are_ordered(fraction(tenths, 10), fraction(a, 1000), t);
    }
}

// ---------------------------------------------------------------------------
// Network and cores
// ---------------------------------------------------------------------------

/// The speeds of an interface are each in the colour of its own share of what the interface
/// can take: receiving first, then sending; no more than yellow up to a third, and violet
/// beyond all.
pub proof fn law_speeds_are_colored_by_share(rx: nat, tx: nat, max: nat) -> (r: (Seq<char>, Seq<char>, Seq<char>))
    requires
        small(rx),
        small(tx),
        small(max),
        0 < max,
    ensures
        begins_with(speeds_text(integer(rx), integer(tx), integer(max)), r.0 + r.1 + r.2),
        100 * rx <= 33 * max ==> tinted(r.0, GREEN, YELLOW, false),
        max < rx ==> r.0 == VIOLET_BOLD@,
        100 * tx <= 33 * max ==> tinted(r.2, GREEN, YELLOW, false),
        max < tx ==> r.2 == VIOLET_BOLD@,
{
    lemma_speed_tint(rx, max);
    lemma_speed_tint(tx, max);
    let a = net_color(integer(rx), integer(max));
    let b = net_color(integer(tx), integer(max));
    let middle = BOLD@ + crate::units::net_speed_text(integer(rx)) + "\x1b[0m \x1b[1;37m↓\x1b[0m  "@;
    lemma_regrouped(
        a,
        BOLD@,
        crate::units::net_speed_text(integer(rx)),
        "\x1b[0m \x1b[1;37m↓\x1b[0m  "@,
        b,
        crate::units::net_speed_text(integer(tx)),
        "\x1b[0m \x1b[1;37m↑\x1b[0m  "@,
    );
    (a, middle, b)
}

proof fn lemma_regrouped(
    a: Seq<char>,
    bold: Seq<char>,
    x: Seq<char>,
    down: Seq<char>,
    b: Seq<char>,
    y: Seq<char>,
    up: Seq<char>,
)
    ensures
        begins_with(a + bold + x + down + b + bold + y + up, a + (bold + x + down) + b),
{
    let start = a + (bold + x + down) + b;
    assert((a + bold + x + down + b + bold + y + up).subrange(0, start.len() as int) =~= start);
}

proof fn lemma_speed_tint(speed: nat, max: nat)
    requires
        small(speed),
        small(max),
        0 < max,
    ensures
        100 * speed <= 33 * max ==> tinted(net_color(integer(speed), integer(max)), GREEN, YELLOW, false),
        max < speed ==> net_color(integer(speed), integer(max)) == VIOLET_BOLD@,
{
    let one = one_units();
    lemma_pow2_pos(1074);
    law_integers_are_exact(max);
    law_integers_are_exact(1);
    assert(1 * one <= max * one) by (nonlinear_arith)
        requires
            max >= 1,
            one > 0,
    ;
    assert(larger(integer(max), integer(1)) == integer(max));
    law_share_by_fraction(speed, max, 33, 100);
    law_net_scale(integer(speed), integer(max));
}

/// A core is in the colour of its place between the limits: no more than yellow in the lower
/// half, and violet above the upper one.
pub proof fn law_core_is_colored_between_limits(s: Status, i: int, low: nat, high: nat, freq: nat) -> (c: Seq<char>)
    requires
        0 <= i < s.freqs.len(),
        s.limits == (Some(integer(low)), Some(integer(high))),
        s.freqs[i] == integer(freq),
        small(high),
        small(freq),
        low < high,
        low <= freq,
    ensures
        begins_with(core_cell(s, i), "C"@ + crate::decimal::zero_filled(i as nat, 2) + ": "@ + c),
        2 * (freq - low) <= high - low ==> tinted(c, GREEN, YELLOW, false),
        high < freq ==> c == VIOLET_BOLD@,
{
    lemma_whole_difference(freq, low);
    lemma_whole_difference(high, low);
    let n = (freq - low) as nat;
    let m = (high - low) as nat;
    let t = quotient(integer(n), integer(m));
    law_share_by_fraction(n, m, 1, 2);
    law_cpu_scale(t);
    let c = cpu_color(t);
    let start = "C"@ + crate::decimal::zero_filled(i as nat, 2) + ": "@ + c;
    assert(core_cell(s, i).subrange(0, start.len() as int) =~= start);
    c
}

/// The difference of whole numbers is their difference.
proof fn lemma_whole_difference(a: nat, b: nat)
    requires
        b <= a,
        small(a),
    ensures
        difference(integer(a), integer(b)) == integer((a - b) as nat),
{
    let one = one_units();
    lemma_pow2_pos(1074);
    law_integers_are_exact(a);
    law_integers_are_exact(b);
    law_integers_are_exact((a - b) as nat);
    crate::binary64::lemma_integer_zero();
    assert(a * one - b * one == (a - b) * one) by (nonlinear_arith);
    assert((a - b) * one == 0 ==> a == b) by (nonlinear_arith)
        requires
            one > 0,
    ;
    assert((a - b) * one >= 0) by (nonlinear_arith)
        requires
            b <= a,
            one > 0,
    ;
}

// ---------------------------------------------------------------------------
// Peaks
// ---------------------------------------------------------------------------

/// A peak strobes between its colour and white; at rest its value is in its colour, and its
/// name is white unless it keeps the colour.
pub proof fn law_peaks_strobe(key: Seq<char>, value: Seq<char>, color: Seq<char>, bright: bool, stays: bool)
    ensures
        begins_with(watermark_text(key, value, color, true, true, stays), color),
        begins_with(watermark_text(key, value, color, true, false, stays), WHITE_BOLD@),
        begins_with(watermark_text(key, value, color, false, bright, true), color),
        begins_with(
            watermark_text(key, value, color, false, bright, false),
            WHITE_BOLD@ + key + " "@ + color,
        ),
{
    let a = watermark_text(key, value, color, true, true, stays);
    let b = watermark_text(key, value, color, true, false, stays);
    let c = watermark_text(key, value, color, false, bright, true);
    let d = watermark_text(key, value, color, false, bright, false);
    assert(a.subrange(0, color.len() as int) =~= color);
    assert(b.subrange(0, WHITE_BOLD@.len() as int) =~= WHITE_BOLD@);
    assert(c.subrange(0, color.len() as int) =~= color);
    let start = WHITE_BOLD@ + key + " "@ + color;
    assert(d.subrange(0, start.len() as int) =~= start);
}

// ---------------------------------------------------------------------------
// The compressed swap cache
// ---------------------------------------------------------------------------

/// A colour that is not bold, in characters.
proof fn lemma_written(c: Rgb)
    ensures
        c == GREEN ==> color_sequence(false, c) == "\x1b[38;2;0;200;0m"@,
        c == YELLOW ==> color_sequence(false, c) == "\x1b[38;2;255;255;0m"@,
        c == ORANGE ==> color_sequence(false, c) == "\x1b[38;2;255;165;0m"@,
        c == RED ==> color_sequence(false, c) == "\x1b[38;2;255;0;0m"@,
        c == VIOLET ==> color_sequence(false, c) == "\x1b[38;2;238;130;238m"@,
{
    reveal_with_fuel(crate::decimal::decimal_of, 4);
    reveal_strlit("\x1b[38;2;");
    reveal_strlit(";");
    reveal_strlit("m");
    reveal_strlit("\x1b[38;2;0;200;0m");
    reveal_strlit("\x1b[38;2;255;255;0m");
    reveal_strlit("\x1b[38;2;255;165;0m");
    reveal_strlit("\x1b[38;2;255;0;0m");
    reveal_strlit("\x1b[38;2;238;130;238m");
    if c == GREEN {
        assert(color_sequence(false, c) =~= "\x1b[38;2;0;200;0m"@);
    } else if c == YELLOW {
        assert(color_sequence(false, c) =~= "\x1b[38;2;255;255;0m"@);
    } else if c == ORANGE {
        assert(color_sequence(false, c) =~= "\x1b[38;2;255;165;0m"@);
    } else if c == RED {
        assert(color_sequence(false, c) =~= "\x1b[38;2;255;0;0m"@);
    } else if c == VIOLET {
        assert(color_sequence(false, c) =~= "\x1b[38;2;238;130;238m"@);
    }
}

/// The ways of compressing from the best to the worst go from green by yellow and orange to
/// red; what is not known is violet.
pub proof fn law_algorithms_are_ranked(algo: Seq<char>)
    ensures
        zswap_algo_color("zstd"@) == color_sequence(false, GREEN),
        zswap_algo_color("lz4"@) == color_sequence(false, YELLOW),
        zswap_algo_color("lzo"@) == color_sequence(false, ORANGE),
        zswap_algo_color("deflate"@) == color_sequence(false, RED),
        algo != "zstd"@ && algo != "lz4"@ && algo != "lzo"@ && algo != "deflate"@ ==> zswap_algo_color(algo)
            == color_sequence(false, VIOLET),
{
    lemma_written(GREEN);
    lemma_written(YELLOW);
    lemma_written(ORANGE);
    lemma_written(RED);
    lemma_written(VIOLET);
    reveal_strlit("zstd");
    reveal_strlit("lz4");
    reveal_strlit("lzo");
    reveal_strlit("deflate");
    assert("zstd"@[1] == 's' && "lz4"@[1] == 'z' && "lz4"@[2] == '4' && "lzo"@[2] == 'o' && "lzo"@[0] == 'l');
}

} // verus!
