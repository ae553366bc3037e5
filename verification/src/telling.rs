//! What the lines of the screen tell a reader: the texts of figures, each beside its
//! name.

use crate::binary64::{integer, larger, product, quotient, Number};
use crate::color::{
    color_sequence, cpu_color, disk_capacity_color, disk_speed_color, idle_color, law_color_has_no_width,
    law_sequence_has_no_width, net_color, ram_color, ratio_color, room_temp_color, swap_color,
    zswap_algo_color, BOLD, PEAK_RED, RESET, VIOLET_BOLD, WHITE_BOLD,
};
use crate::decimal::{decimal_of, fixed_of, is_digit, lemma_decimal_digits, with_point, zero_filled};
use crate::figures::{law_zero_filled_reads_back, lemma_fitted, places_fitted};
use crate::layout::{left_aligned, right_aligned, ESCAPE};
use crate::memory::{
    ram_shown, size, swap_shown, swap_total_shown, used_kilobytes, zswap_shown, Swap, Zswap, AVAIL,
    CYAN_BOLD, PAGE, TOTAL, USED,
};
use crate::network::{Change, Traffic};
use crate::peaks::{fresh, watermark_text, Peaks, Watermarks};
use crate::render::{
    activity_text, capacity_text, core_cell, degrees, iface_text, iface_width, limits_text, net_peaks_text,
    net_total_text, overclock_line, pace_text, speeds_text, storage_total_text, temperature_cell,
    thermometer_text,
};
use crate::seen::{law_plain_reads, law_reads_joined, law_silent_reads, plain, reads, silent};
use crate::span::whole_seconds;
use crate::state::{told, Status};
use crate::storage::DiskNode;
use crate::table::value_of;
use crate::thermal::Temperature;
use crate::units::{
    disk_speed_text, dynamic_text, fitted_text, net_speed_text, number_text, overclock_text, share,
    FormatIdleTime, FormatSize,
};
use vstd::prelude::*;

verus! {

// ---------------------------------------------------------------------------
// Colours are not seen
// ---------------------------------------------------------------------------

proof fn lemma_marks()
    ensures
        reads(BOLD@, Seq::empty()),
        reads(RESET@, Seq::empty()),
        reads(WHITE_BOLD@, Seq::empty()),
        reads(VIOLET_BOLD@, Seq::empty()),
        reads(PEAK_RED@, Seq::empty()),
        reads(CYAN_BOLD@, Seq::empty()),
        silent(WHITE_BOLD@),
        silent(VIOLET_BOLD@),
{
    reveal_strlit("\x1b[1m");
    reveal_strlit("\x1b[0m");
    reveal_strlit("\x1b[1;37m");
    reveal_strlit("\x1b[1;38;2;238;130;238m");
    reveal_strlit("\x1b[1;31m");
    reveal_strlit("\x1b[1;38;2;0;255;255m");
    law_sequence_has_no_width(BOLD@);
    law_sequence_has_no_width(RESET@);
    law_sequence_has_no_width(WHITE_BOLD@);
    law_sequence_has_no_width(VIOLET_BOLD@);
    law_sequence_has_no_width(PEAK_RED@);
    law_sequence_has_no_width(CYAN_BOLD@);
    law_silent_reads(BOLD@);
    law_silent_reads(RESET@);
    law_silent_reads(WHITE_BOLD@);
    law_silent_reads(VIOLET_BOLD@);
    law_silent_reads(PEAK_RED@);
    law_silent_reads(CYAN_BOLD@);
}

/// Whatever the colour, it is not seen.
proof fn lemma_color_silent(c: Seq<char>)
    requires
        is_color(c),
    ensures
        silent(c),
        reads(c, Seq::empty()),
{
    lemma_marks();
    if exists|bold: bool, r: u8, g: u8, b: u8| c == color_sequence(bold, (r, g, b)) {
        let (bold, r, g, b) = choose|bold: bool, r: u8, g: u8, b: u8| c == color_sequence(bold, (r, g, b));
        law_color_has_no_width(bold, (r, g, b));
    } else {
        reveal_strlit("\x1b[1;38;2;238;130;238m");
        reveal_strlit("\x1b[1;31m");
        law_sequence_has_no_width(VIOLET_BOLD@);
        law_sequence_has_no_width(PEAK_RED@);
    }
    law_silent_reads(c);
}

/// The text is a colour of a scale.
spec fn is_color(c: Seq<char>) -> bool {
    ||| c == VIOLET_BOLD@
    ||| c == PEAK_RED@
    ||| exists|bold: bool, r: u8, g: u8, b: u8| c == color_sequence(bold, (r, g, b))
}

proof fn lemma_is_color(bold: bool, c: (u8, u8, u8))
    ensures
        is_color(color_sequence(bold, c)),
{
    assert(color_sequence(bold, c) == color_sequence(bold, (c.0, c.1, c.2)));
}

proof fn lemma_ramp_is_color(ramp: crate::color::Ramp, load: Number)
    ensures
        is_color(ramp.color(load)),
{
    let t = crate::binary64::clamped(load, integer(0), integer(1));
    let bold = crate::binary64::at_most(ramp.hot, t);
    let c = choose|c: (u8, u8, u8)| #[trigger] color_sequence(bold, c) == ramp.color(load);
    lemma_is_color(bold, c);
}

proof fn lemma_cpu_color_silent(t: Number)
    ensures
        silent(cpu_color(t)),
        reads(cpu_color(t), Seq::empty()),
{
    lemma_ramp_is_color(crate::color::cpu_ramp(), t);
    lemma_color_silent(cpu_color(t));
}

proof fn lemma_ram_color_silent(t: Number)
    ensures
        silent(ram_color(t)),
        reads(ram_color(t), Seq::empty()),
{
    lemma_ramp_is_color(crate::color::ram_ramp(), t);
    lemma_color_silent(ram_color(t));
}

proof fn lemma_swap_color_silent(t: Number)
    ensures
        silent(swap_color(t)),
        reads(swap_color(t), Seq::empty()),
{
    lemma_ramp_is_color(crate::color::swap_ramp(), t);
    lemma_color_silent(swap_color(t));
}

proof fn lemma_net_color_silent(x: Number, max: Number)
    ensures
        silent(net_color(x, max)),
        reads(net_color(x, max), Seq::empty()),
{
    lemma_ramp_is_color(crate::color::net_ramp(), quotient(x, larger(max, integer(1))));
    lemma_color_silent(net_color(x, max));
}

proof fn lemma_disk_capacity_color_silent(t: Number, cow: bool)
    ensures
        silent(disk_capacity_color(t, cow)),
        reads(disk_capacity_color(t, cow), Seq::empty()),
{
    if exists|bold: bool, c: (u8, u8, u8)| #[trigger] color_sequence(bold, c) == disk_capacity_color(t, cow) {
        let (bold, c) = choose|bold: bool, c: (u8, u8, u8)| #[trigger] color_sequence(bold, c) == disk_capacity_color(
            t,
            cow,
        );
        lemma_is_color(bold, c);
    }
    lemma_color_silent(disk_capacity_color(t, cow));
}

proof fn lemma_disk_speed_color_silent(x: Number, high: Number)
    ensures
        silent(disk_speed_color(x, high)),
        reads(disk_speed_color(x, high), Seq::empty()),
{
    if exists|bold: bool, c: (u8, u8, u8)| #[trigger] color_sequence(bold, c) == disk_speed_color(x, high) {
        let (bold, c) = choose|bold: bool, c: (u8, u8, u8)| #[trigger] color_sequence(bold, c) == disk_speed_color(
            x,
            high,
        );
        lemma_is_color(bold, c);
    }
    lemma_color_silent(disk_speed_color(x, high));
}

proof fn lemma_idle_color_silent(secs: nat)
    ensures
        silent(idle_color(secs)),
        reads(idle_color(secs), Seq::empty()),
{
    if exists|bold: bool, c: (u8, u8, u8)| #[trigger] color_sequence(bold, c) == idle_color(secs) {
        let (bold, c) = choose|bold: bool, c: (u8, u8, u8)| #[trigger] color_sequence(bold, c) == idle_color(secs);
        lemma_is_color(bold, c);
    }
    lemma_color_silent(idle_color(secs));
}

proof fn lemma_room_temp_color_silent(t: Number)
    ensures
        silent(room_temp_color(t)),
        reads(room_temp_color(t), Seq::empty()),
{
    if exists|bold: bool, c: (u8, u8, u8)| #[trigger] color_sequence(bold, c) == room_temp_color(t) {
        let (bold, c) = choose|bold: bool, c: (u8, u8, u8)| #[trigger] color_sequence(bold, c) == room_temp_color(t);
        lemma_is_color(bold, c);
    }
    lemma_color_silent(room_temp_color(t));
}

proof fn lemma_ratio_color_silent(t: Number)
    ensures
        silent(ratio_color(t)),
        reads(ratio_color(t), Seq::empty()),
{
    if exists|bold: bool, c: (u8, u8, u8)| #[trigger] color_sequence(bold, c) == ratio_color(t) {
        let (bold, c) = choose|bold: bool, c: (u8, u8, u8)| #[trigger] color_sequence(bold, c) == ratio_color(t);
        lemma_is_color(bold, c);
    }
    lemma_color_silent(ratio_color(t));
}

proof fn lemma_zswap_algo_color_silent(algo: Seq<char>)
    ensures
        silent(zswap_algo_color(algo)),
        reads(zswap_algo_color(algo), Seq::empty()),
{
    reveal_strlit("\x1b[38;2;0;200;0m");
    law_sequence_has_no_width("\x1b[38;2;0;200;0m"@);
    reveal_strlit("\x1b[38;2;255;255;0m");
    law_sequence_has_no_width("\x1b[38;2;255;255;0m"@);
    reveal_strlit("\x1b[38;2;255;165;0m");
    law_sequence_has_no_width("\x1b[38;2;255;165;0m"@);
    reveal_strlit("\x1b[38;2;255;0;0m");
    law_sequence_has_no_width("\x1b[38;2;255;0;0m"@);
    reveal_strlit("\x1b[38;2;238;130;238m");
    law_sequence_has_no_width("\x1b[38;2;238;130;238m"@);
    law_silent_reads(zswap_algo_color(algo));
}

// ---------------------------------------------------------------------------
// Figures are seen as they are
// ---------------------------------------------------------------------------

/// The characters of figures: letters, digits and signs of the first 128 characters.
pub open spec fn simple(s: Seq<char>) -> bool {
    forall|i: int| 0 <= i < s.len() ==> ' ' <= #[trigger] s[i] <= '~'
}

pub(crate) proof fn lemma_simple_plain(s: Seq<char>)
    requires
        simple(s),
    ensures
        reads(s, s),
{
    assert forall|i: int| 0 <= i < s.len() implies #[trigger] s[i] != ESCAPE by {
        assert(' ' <= s[i]);
    }
    law_plain_reads(s);
}

pub(crate) proof fn lemma_fixed_simple(x: Number, p: nat)
    ensures
        simple(fixed_of(x, p)),
{
    reveal_strlit("NaN");
    reveal_strlit("inf");
    reveal_strlit("-inf");
    if x is Finite {
        let k = crate::binary64::round_half_even(
            x.units() * crate::decimal::ten_to(p),
            crate::binary64::one_units(),
        );
        let unit = crate::decimal::ten_to(p);
        lemma_decimal_digits(k);
        lemma_decimal_digits(k / unit);
        law_zero_filled_reads_back(k % unit, p);
        let body = with_point(k, p);
        assert forall|i: int| 0 <= i < body.len() implies is_digit(#[trigger] body[i]) || body[i] == '.' by {
            if p == 0 {
                assert(is_digit(decimal_of(k)[i]));
            } else {
                let whole = decimal_of(k / unit);
                let part = zero_filled(k % unit, p);
                if i < whole.len() {
                    assert(is_digit(whole[i]));
                } else if i > whole.len() {
                    assert(is_digit(part[i - whole.len() - 1]));
                }
            }
        }
    }
}

proof fn lemma_fixed_plain(x: Number, p: nat)
    ensures
        simple(fixed_of(x, p)),
        reads(fixed_of(x, p), fixed_of(x, p)),
{
    lemma_fixed_simple(x, p);
    lemma_simple_plain(fixed_of(x, p));
}

proof fn lemma_number_plain(x: Number, width: nat, p: nat)
    ensures
        simple(number_text(x, width, p)),
        reads(number_text(x, width, p), number_text(x, width, p)),
{
    lemma_fixed_simple(x, p);
    lemma_simple_plain(number_text(x, width, p));
}

proof fn lemma_fitted_simple(x: Number, width: nat, p: nat)
    ensures
        simple(fitted_text(x, width, p)),
{
    lemma_fitted(x, width, p);
    lemma_number_plain(x, width, places_fitted(x, width, p));
}

pub(crate) proof fn lemma_net_speed_plain(x: Number)
    ensures
        simple(net_speed_text(x)),
        reads(net_speed_text(x), net_speed_text(x)),
{
    reveal_strlit("   B/s");
    reveal_strlit("  KB/s");
    reveal_strlit("  MB/s");
    reveal_strlit("  GB/s");
    reveal_strlit("  TB/s");
    lemma_number_plain(x, 6, 1);
    lemma_number_plain(quotient(x, integer(crate::units::KILO as nat)), 6, 1);
    lemma_number_plain(quotient(x, integer(crate::units::MEGA as nat)), 6, 1);
    lemma_number_plain(quotient(x, integer(crate::units::GIGA as nat)), 6, 2);
    lemma_number_plain(quotient(x, integer(crate::units::TERA as nat)), 6, 2);
    lemma_simple_plain(net_speed_text(x));
}

pub(crate) proof fn lemma_simple_joined(a: Seq<char>, b: Seq<char>)
    requires
        simple(a),
        simple(b),
    ensures
        simple(a + b),
{
    let s = a + b;
    assert forall|i: int| 0 <= i < s.len() implies ' ' <= #[trigger] s[i] <= '~' by {
        if i < a.len() {
            assert(s[i] == a[i]);
        } else {
            assert(s[i] == b[i - a.len()]);
        }
    }
}

pub(crate) proof fn lemma_disk_speed_plain(x: Number)
    ensures
        simple(disk_speed_text(x)),
        reads(disk_speed_text(x), disk_speed_text(x)),
{
    let (v, unit) = if crate::binary64::below(x, integer(crate::units::KILO as nat)) {
        (x, "B/s"@)
    } else if crate::binary64::below(x, integer(crate::units::MEGA as nat)) {
        (quotient(x, integer(crate::units::KILO as nat)), "K/s"@)
    } else if crate::binary64::below(x, integer(crate::units::GIGA as nat)) {
        (quotient(x, integer(crate::units::MEGA as nat)), "M/s"@)
    } else if crate::binary64::below(x, integer(crate::units::TERA as nat)) {
        (quotient(x, integer(crate::units::GIGA as nat)), "G/s"@)
    } else if crate::binary64::below(x, integer(crate::units::PETA as nat)) {
        (quotient(x, integer(crate::units::TERA as nat)), "T/s"@)
    } else {
        (quotient(x, integer(crate::units::PETA as nat)), "P/s"@)
    };
    let precision: nat = if crate::binary64::at_most(integer(1000), v) {
        0
    } else {
        1
    };
    assert(simple(unit) && simple(" "@)) by {
        reveal_strlit("B/s");
        reveal_strlit("K/s");
        reveal_strlit("M/s");
        reveal_strlit("G/s");
        reveal_strlit("T/s");
        reveal_strlit("P/s");
        reveal_strlit(" ");
    }
    lemma_fitted_simple(v, 5, precision);
    lemma_simple_joined(fitted_text(v, 5, precision), " "@);
    lemma_simple_joined(fitted_text(v, 5, precision) + " "@, unit);
    lemma_simple_plain(disk_speed_text(x));
}

pub(crate) proof fn lemma_size_plain(z: FormatSize)
    ensures
        simple(z.shown()),
        reads(z.shown(), z.shown()),
{
    let x = integer(z.0 as nat);
    let (v, unit) = if crate::binary64::below(x, integer(crate::units::KILO as nat)) {
        (x, " B"@)
    } else if crate::binary64::below(x, integer(crate::units::MEGA as nat)) {
        (quotient(x, integer(crate::units::KILO as nat)), "KB"@)
    } else if crate::binary64::below(x, integer(crate::units::GIGA as nat)) {
        (quotient(x, integer(crate::units::MEGA as nat)), "MB"@)
    } else if crate::binary64::below(x, integer(crate::units::TERA as nat)) {
        (quotient(x, integer(crate::units::GIGA as nat)), "GB"@)
    } else if crate::binary64::below(x, integer(crate::units::PETA as nat)) {
        (quotient(x, integer(crate::units::TERA as nat)), "TB"@)
    } else {
        (quotient(x, integer(crate::units::PETA as nat)), "PB"@)
    };
    let precision: nat = if crate::binary64::at_most(integer(1000), v) {
        0
    } else {
        1
    };
    assert(simple(unit) && simple("  "@)) by {
        reveal_strlit(" B");
        reveal_strlit("KB");
        reveal_strlit("MB");
        reveal_strlit("GB");
        reveal_strlit("TB");
        reveal_strlit("PB");
        reveal_strlit("  ");
    }
    lemma_fitted_simple(v, 6, precision);
    lemma_simple_joined(fitted_text(v, 6, precision), "  "@);
    lemma_simple_joined(fitted_text(v, 6, precision) + "  "@, unit);
    lemma_simple_plain(z.shown());
}

proof fn lemma_dynamic_plain(x: Number)
    ensures
        simple(dynamic_text(x)),
        reads(dynamic_text(x), dynamic_text(x)),
{
    let n = crate::units::integer_length(x);
    lemma_fitted_simple(crate::binary64::clamped(x, integer(0), integer(999999)), 6, 0);
    if n < 6 {
        lemma_fitted_simple(x, 6, (5 - n) as nat);
    }
    lemma_simple_plain(dynamic_text(x));
}

proof fn lemma_overclock_number(x: Number)
    ensures
        exists|v: Number, p: nat| #[trigger] fitted_text(v, 4, p) == overclock_text(x).drop_last(),
{
    reveal_strlit("P");
    reveal_strlit("T");
    reveal_strlit("G");
    reveal_strlit("M");
    reveal_strlit("K");
    let s = overclock_text(x);
    let khz = product(x, integer(1000));
    let ghz = quotient(x, integer(1000));
    assert(s.drop_last() =~= fitted_text(crate::binary64::ceiling(quotient(khz, integer(1_000_000_000_000))), 4, 0)
        || s.drop_last() =~= fitted_text(crate::binary64::ceiling(quotient(khz, integer(1_000_000_000))), 4, 0)
        || s.drop_last() =~= fitted_text(
        quotient(crate::binary64::ceiling(product(ghz, integer(100))), integer(100)),
        4,
        2,
    ) || s.drop_last() =~= fitted_text(
        quotient(crate::binary64::ceiling(product(ghz, integer(10))), integer(10)),
        4,
        1,
    ) || s.drop_last() =~= fitted_text(crate::binary64::ceiling(ghz), 4, 0) || s.drop_last() =~= fitted_text(
        crate::binary64::ceiling(x),
        4,
        0,
    ) || s.drop_last() =~= fitted_text(crate::binary64::ceiling(khz), 4, 0));
}

proof fn lemma_overclock_plain(x: Number)
    ensures
        simple(overclock_text(x)),
        reads(overclock_text(x), overclock_text(x)),
{
    reveal_strlit("P");
    reveal_strlit("T");
    reveal_strlit("G");
    reveal_strlit("M");
    reveal_strlit("K");
    let s = overclock_text(x);
    let (v, p) = choose|v: Number, p: nat| #[trigger] fitted_text(v, 4, p) == s.drop_last();
    assert(exists|v: Number, p: nat| #[trigger] fitted_text(v, 4, p) == s.drop_last()) by {
        lemma_overclock_number(x);
    }
    lemma_fitted_simple(v, 4, p);
    assert forall|i: int| 0 <= i < s.len() implies ' ' <= #[trigger] s[i] <= '~' by {
        if i < s.len() - 1 {
            assert(s[i] == s.drop_last()[i]);
        }
    }
    lemma_simple_plain(s);
}

// ---------------------------------------------------------------------------
// Fixed texts
// ---------------------------------------------------------------------------

/// A line, and what it tells, with one more part.
proof fn lemma_then(line: (Seq<char>, Seq<char>), part: Seq<char>, told: Seq<char>) -> (longer: (Seq<char>, Seq<char>))
    requires
        reads(line.0, line.1),
        reads(part, told),
    ensures
        longer == (line.0 + part, line.1 + told),
        reads(longer.0, longer.1),
{
    law_reads_joined(line.0, part, line.1, told);
    (line.0 + part, line.1 + told)
}

proof fn lemma_down_reads()
    ensures
        reads("\x1b[0m \x1b[1;37m↓\x1b[0m  "@, " ↓  "@),
{
    reveal_strlit("\x1b[0m \x1b[1;37m↓\x1b[0m  ");
    reveal_strlit(" ↓  ");
    reveal_strlit("\x1b[0m");
    reveal_strlit(" ");
    reveal_strlit("\x1b[1;37m");
    reveal_strlit("↓");
    reveal_strlit("  ");
    law_sequence_has_no_width("\x1b[0m"@);
    law_silent_reads("\x1b[0m"@);
    law_plain_reads(" "@);
    law_sequence_has_no_width("\x1b[1;37m"@);
    law_silent_reads("\x1b[1;37m"@);
    law_plain_reads("↓"@);
    law_sequence_has_no_width("\x1b[0m"@);
    law_silent_reads("\x1b[0m"@);
    law_plain_reads("  "@);
    let line = ("\x1b[0m"@, Seq::<char>::empty());
    let line = lemma_then(line, " "@, " "@);
    let line = lemma_then(line, "\x1b[1;37m"@, Seq::<char>::empty());
    let line = lemma_then(line, "↓"@, "↓"@);
    let line = lemma_then(line, "\x1b[0m"@, Seq::<char>::empty());
    let line = lemma_then(line, "  "@, "  "@);
    assert("\x1b[0m \x1b[1;37m↓\x1b[0m  "@ =~= line.0);
    assert(" ↓  "@ =~= line.1);
}

proof fn lemma_up_reads()
    ensures
        reads("\x1b[0m \x1b[1;37m↑\x1b[0m  "@, " ↑  "@),
{
    reveal_strlit("\x1b[0m \x1b[1;37m↑\x1b[0m  ");
    reveal_strlit(" ↑  ");
    reveal_strlit("\x1b[0m");
    reveal_strlit(" ");
    reveal_strlit("\x1b[1;37m");
    reveal_strlit("↑");
    reveal_strlit("  ");
    law_sequence_has_no_width("\x1b[0m"@);
    law_silent_reads("\x1b[0m"@);
    law_plain_reads(" "@);
    law_sequence_has_no_width("\x1b[1;37m"@);
    law_silent_reads("\x1b[1;37m"@);
    law_plain_reads("↑"@);
    law_sequence_has_no_width("\x1b[0m"@);
    law_silent_reads("\x1b[0m"@);
    law_plain_reads("  "@);
    let line = ("\x1b[0m"@, Seq::<char>::empty());
    let line = lemma_then(line, " "@, " "@);
    let line = lemma_then(line, "\x1b[1;37m"@, Seq::<char>::empty());
    let line = lemma_then(line, "↑"@, "↑"@);
    let line = lemma_then(line, "\x1b[0m"@, Seq::<char>::empty());
    let line = lemma_then(line, "  "@, "  "@);
    assert("\x1b[0m \x1b[1;37m↑\x1b[0m  "@ =~= line.0);
    assert(" ↑  "@ =~= line.1);
}

proof fn lemma_gap_reads()
    ensures
        reads("  "@, "  "@),
{
    reveal_strlit("  ");
    law_plain_reads("  "@);
    assert("  "@ =~= "  "@);
}

proof fn lemma_colon_reads()
    ensures
        reads(": "@, ": "@),
{
    reveal_strlit(": ");
    law_plain_reads(": "@);
    assert(": "@ =~= ": "@);
}

proof fn lemma_bold_colon_reads()
    ensures
        reads(":\x1b[0m "@, ": "@),
{
    reveal_strlit(":\x1b[0m ");
    reveal_strlit(": ");
    reveal_strlit(":");
    reveal_strlit("\x1b[0m");
    reveal_strlit(" ");
    law_plain_reads(":"@);
    law_sequence_has_no_width("\x1b[0m"@);
    law_silent_reads("\x1b[0m"@);
    law_plain_reads(" "@);
    let line = (":"@, ":"@);
    let line = lemma_then(line, "\x1b[0m"@, Seq::<char>::empty());
    let line = lemma_then(line, " "@, " "@);
    assert(":\x1b[0m "@ =~= line.0);
    assert(": "@ =~= line.1);
}

proof fn lemma_colon_before_bold_reads()
    ensures
        reads(": \x1b[1m"@, ": "@),
{
    reveal_strlit(": \x1b[1m");
    reveal_strlit(": ");
    reveal_strlit("\x1b[1m");
    law_plain_reads(": "@);
    law_sequence_has_no_width("\x1b[1m"@);
    law_silent_reads("\x1b[1m"@);
    let line = (": "@, ": "@);
    let line = lemma_then(line, "\x1b[1m"@, Seq::<char>::empty());
    assert(": \x1b[1m"@ =~= line.0);
    assert(": "@ =~= line.1);
}

proof fn lemma_green_reads()
    ensures
        reads("\x1b[38;2;0;200;0m"@, Seq::<char>::empty()),
{
    reveal_strlit("\x1b[38;2;0;200;0m");
    law_sequence_has_no_width("\x1b[38;2;0;200;0m"@);
    law_silent_reads("\x1b[38;2;0;200;0m"@);
    assert(Seq::<char>::empty() =~= Seq::<char>::empty());
}

proof fn lemma_activated_reads()
    ensures
        reads("ACTIVATED"@, "ACTIVATED"@),
{
    reveal_strlit("ACTIVATED");
    law_plain_reads("ACTIVATED"@);
    assert("ACTIVATED"@ =~= "ACTIVATED"@);
}

proof fn lemma_end_reads()
    ensures
        reads("\x1b[0m\x1b[0m"@, Seq::<char>::empty()),
{
    reveal_strlit("\x1b[0m\x1b[0m");
    reveal_strlit("\x1b[0m");
    law_sequence_has_no_width("\x1b[0m"@);
    law_silent_reads("\x1b[0m"@);
    law_sequence_has_no_width("\x1b[0m"@);
    law_silent_reads("\x1b[0m"@);
    let line = ("\x1b[0m"@, Seq::<char>::empty());
    let line = lemma_then(line, "\x1b[0m"@, Seq::<char>::empty());
    assert("\x1b[0m\x1b[0m"@ =~= line.0);
    assert(Seq::<char>::empty() =~= line.1);
}

proof fn lemma_yellow_reads()
    ensures
        reads("\x1b[38;2;255;255;0m"@, Seq::<char>::empty()),
{
    reveal_strlit("\x1b[38;2;255;255;0m");
    law_sequence_has_no_width("\x1b[38;2;255;255;0m"@);
    law_silent_reads("\x1b[38;2;255;255;0m"@);
    assert(Seq::<char>::empty() =~= Seq::<char>::empty());
}

proof fn lemma_deactivated_reads()
    ensures
        reads("DEACTIVATED"@, "DEACTIVATED"@),
{
    reveal_strlit("DEACTIVATED");
    law_plain_reads("DEACTIVATED"@);
    assert("DEACTIVATED"@ =~= "DEACTIVATED"@);
}

proof fn lemma_r_up_reads()
    ensures
        reads("\x1b[0m \x1b[1;37mR↑\x1b[0m  "@, " R↑  "@),
{
    reveal_strlit("\x1b[0m \x1b[1;37mR↑\x1b[0m  ");
    reveal_strlit(" R↑  ");
    reveal_strlit("\x1b[0m");
    reveal_strlit(" ");
    reveal_strlit("\x1b[1;37m");
    reveal_strlit("R↑");
    reveal_strlit("  ");
    law_sequence_has_no_width("\x1b[0m"@);
    law_silent_reads("\x1b[0m"@);
    law_plain_reads(" "@);
    law_sequence_has_no_width("\x1b[1;37m"@);
    law_silent_reads("\x1b[1;37m"@);
    law_plain_reads("R↑"@);
    law_sequence_has_no_width("\x1b[0m"@);
    law_silent_reads("\x1b[0m"@);
    law_plain_reads("  "@);
    let line = ("\x1b[0m"@, Seq::<char>::empty());
    let line = lemma_then(line, " "@, " "@);
    let line = lemma_then(line, "\x1b[1;37m"@, Seq::<char>::empty());
    let line = lemma_then(line, "R↑"@, "R↑"@);
    let line = lemma_then(line, "\x1b[0m"@, Seq::<char>::empty());
    let line = lemma_then(line, "  "@, "  "@);
    assert("\x1b[0m \x1b[1;37mR↑\x1b[0m  "@ =~= line.0);
    assert(" R↑  "@ =~= line.1);
}

proof fn lemma_w_down_reads()
    ensures
        reads("\x1b[0m \x1b[1;37mW↓\x1b[0m  "@, " W↓  "@),
{
    reveal_strlit("\x1b[0m \x1b[1;37mW↓\x1b[0m  ");
    reveal_strlit(" W↓  ");
    reveal_strlit("\x1b[0m");
    reveal_strlit(" ");
    reveal_strlit("\x1b[1;37m");
    reveal_strlit("W↓");
    reveal_strlit("  ");
    law_sequence_has_no_width("\x1b[0m"@);
    law_silent_reads("\x1b[0m"@);
    law_plain_reads(" "@);
    law_sequence_has_no_width("\x1b[1;37m"@);
    law_silent_reads("\x1b[1;37m"@);
    law_plain_reads("W↓"@);
    law_sequence_has_no_width("\x1b[0m"@);
    law_silent_reads("\x1b[0m"@);
    law_plain_reads("  "@);
    let line = ("\x1b[0m"@, Seq::<char>::empty());
    let line = lemma_then(line, " "@, " "@);
    let line = lemma_then(line, "\x1b[1;37m"@, Seq::<char>::empty());
    let line = lemma_then(line, "W↓"@, "W↓"@);
    let line = lemma_then(line, "\x1b[0m"@, Seq::<char>::empty());
    let line = lemma_then(line, "  "@, "  "@);
    assert("\x1b[0m \x1b[1;37mW↓\x1b[0m  "@ =~= line.0);
    assert(" W↓  "@ =~= line.1);
}

proof fn lemma_used_of_reads()
    ensures
        reads("\x1b[0m \x1b[0;37mUsed\x1b[0m / \x1b[1;38;2;0;255;255m"@, " Used / "@),
{
    reveal_strlit("\x1b[0m \x1b[0;37mUsed\x1b[0m / \x1b[1;38;2;0;255;255m");
    reveal_strlit(" Used / ");
    reveal_strlit("\x1b[0m");
    reveal_strlit(" ");
    reveal_strlit("\x1b[0;37m");
    reveal_strlit("Used");
    reveal_strlit(" / ");
    reveal_strlit("\x1b[1;38;2;0;255;255m");
    law_sequence_has_no_width("\x1b[0m"@);
    law_silent_reads("\x1b[0m"@);
    law_plain_reads(" "@);
    law_sequence_has_no_width("\x1b[0;37m"@);
    law_silent_reads("\x1b[0;37m"@);
    law_plain_reads("Used"@);
    law_sequence_has_no_width("\x1b[0m"@);
    law_silent_reads("\x1b[0m"@);
    law_plain_reads(" / "@);
    law_sequence_has_no_width("\x1b[1;38;2;0;255;255m"@);
    law_silent_reads("\x1b[1;38;2;0;255;255m"@);
    let line = ("\x1b[0m"@, Seq::<char>::empty());
    let line = lemma_then(line, " "@, " "@);
    let line = lemma_then(line, "\x1b[0;37m"@, Seq::<char>::empty());
    let line = lemma_then(line, "Used"@, "Used"@);
    let line = lemma_then(line, "\x1b[0m"@, Seq::<char>::empty());
    let line = lemma_then(line, " / "@, " / "@);
    let line = lemma_then(line, "\x1b[1;38;2;0;255;255m"@, Seq::<char>::empty());
    assert("\x1b[0m \x1b[0;37mUsed\x1b[0m / \x1b[1;38;2;0;255;255m"@ =~= line.0);
    assert(" Used / "@ =~= line.1);
}

proof fn lemma_total_reads()
    ensures
        reads("\x1b[0m \x1b[0;37mTotal\x1b[0m"@, " Total"@),
{
    reveal_strlit("\x1b[0m \x1b[0;37mTotal\x1b[0m");
    reveal_strlit(" Total");
    reveal_strlit("\x1b[0m");
    reveal_strlit(" ");
    reveal_strlit("\x1b[0;37m");
    reveal_strlit("Total");
    law_sequence_has_no_width("\x1b[0m"@);
    law_silent_reads("\x1b[0m"@);
    law_plain_reads(" "@);
    law_sequence_has_no_width("\x1b[0;37m"@);
    law_silent_reads("\x1b[0;37m"@);
    law_plain_reads("Total"@);
    law_sequence_has_no_width("\x1b[0m"@);
    law_silent_reads("\x1b[0m"@);
    let line = ("\x1b[0m"@, Seq::<char>::empty());
    let line = lemma_then(line, " "@, " "@);
    let line = lemma_then(line, "\x1b[0;37m"@, Seq::<char>::empty());
    let line = lemma_then(line, "Total"@, "Total"@);
    let line = lemma_then(line, "\x1b[0m"@, Seq::<char>::empty());
    assert("\x1b[0m \x1b[0;37mTotal\x1b[0m"@ =~= line.0);
    assert(" Total"@ =~= line.1);
}

proof fn lemma_used_bar_reads()
    ensures
        reads("\x1b[0m \x1b[1;37mUsed\x1b[0m | \x1b[1;38;2;0;255;255m"@, " Used | "@),
{
    reveal_strlit("\x1b[0m \x1b[1;37mUsed\x1b[0m | \x1b[1;38;2;0;255;255m");
    reveal_strlit(" Used | ");
    reveal_strlit("\x1b[0m");
    reveal_strlit(" ");
    reveal_strlit("\x1b[1;37m");
    reveal_strlit("Used");
    reveal_strlit(" | ");
    reveal_strlit("\x1b[1;38;2;0;255;255m");
    law_sequence_has_no_width("\x1b[0m"@);
    law_silent_reads("\x1b[0m"@);
    law_plain_reads(" "@);
    law_sequence_has_no_width("\x1b[1;37m"@);
    law_silent_reads("\x1b[1;37m"@);
    law_plain_reads("Used"@);
    law_sequence_has_no_width("\x1b[0m"@);
    law_silent_reads("\x1b[0m"@);
    law_plain_reads(" | "@);
    law_sequence_has_no_width("\x1b[1;38;2;0;255;255m"@);
    law_silent_reads("\x1b[1;38;2;0;255;255m"@);
    let line = ("\x1b[0m"@, Seq::<char>::empty());
    let line = lemma_then(line, " "@, " "@);
    let line = lemma_then(line, "\x1b[1;37m"@, Seq::<char>::empty());
    let line = lemma_then(line, "Used"@, "Used"@);
    let line = lemma_then(line, "\x1b[0m"@, Seq::<char>::empty());
    let line = lemma_then(line, " | "@, " | "@);
    let line = lemma_then(line, "\x1b[1;38;2;0;255;255m"@, Seq::<char>::empty());
    assert("\x1b[0m \x1b[1;37mUsed\x1b[0m | \x1b[1;38;2;0;255;255m"@ =~= line.0);
    assert(" Used | "@ =~= line.1);
}

proof fn lemma_total_bar_reads()
    ensures
        reads("\x1b[0m \x1b[1;37mTotal\x1b[0m | "@, " Total | "@),
{
    reveal_strlit("\x1b[0m \x1b[1;37mTotal\x1b[0m | ");
    reveal_strlit(" Total | ");
    reveal_strlit("\x1b[0m");
    reveal_strlit(" ");
    reveal_strlit("\x1b[1;37m");
    reveal_strlit("Total");
    reveal_strlit(" | ");
    law_sequence_has_no_width("\x1b[0m"@);
    law_silent_reads("\x1b[0m"@);
    law_plain_reads(" "@);
    law_sequence_has_no_width("\x1b[1;37m"@);
    law_silent_reads("\x1b[1;37m"@);
    law_plain_reads("Total"@);
    law_sequence_has_no_width("\x1b[0m"@);
    law_silent_reads("\x1b[0m"@);
    law_plain_reads(" | "@);
    let line = ("\x1b[0m"@, Seq::<char>::empty());
    let line = lemma_then(line, " "@, " "@);
    let line = lemma_then(line, "\x1b[1;37m"@, Seq::<char>::empty());
    let line = lemma_then(line, "Total"@, "Total"@);
    let line = lemma_then(line, "\x1b[0m"@, Seq::<char>::empty());
    let line = lemma_then(line, " | "@, " | "@);
    assert("\x1b[0m \x1b[1;37mTotal\x1b[0m | "@ =~= line.0);
    assert(" Total | "@ =~= line.1);
}

proof fn lemma_percent_percent_used_reads()
    ensures
        reads("%\x1b[0m \x1b[0;37m%Used\x1b[0m"@, "% %Used"@),
{
    reveal_strlit("%\x1b[0m \x1b[0;37m%Used\x1b[0m");
    reveal_strlit("% %Used");
    reveal_strlit("%");
    reveal_strlit("\x1b[0m");
    reveal_strlit(" ");
    reveal_strlit("\x1b[0;37m");
    reveal_strlit("%Used");
    law_plain_reads("%"@);
    law_sequence_has_no_width("\x1b[0m"@);
    law_silent_reads("\x1b[0m"@);
    law_plain_reads(" "@);
    law_sequence_has_no_width("\x1b[0;37m"@);
    law_silent_reads("\x1b[0;37m"@);
    law_plain_reads("%Used"@);
    law_sequence_has_no_width("\x1b[0m"@);
    law_silent_reads("\x1b[0m"@);
    let line = ("%"@, "%"@);
    let line = lemma_then(line, "\x1b[0m"@, Seq::<char>::empty());
    let line = lemma_then(line, " "@, " "@);
    let line = lemma_then(line, "\x1b[0;37m"@, Seq::<char>::empty());
    let line = lemma_then(line, "%Used"@, "%Used"@);
    let line = lemma_then(line, "\x1b[0m"@, Seq::<char>::empty());
    assert("%\x1b[0m \x1b[0;37m%Used\x1b[0m"@ =~= line.0);
    assert("% %Used"@ =~= line.1);
}

proof fn lemma_word_used_reads()
    ensures
        reads("\x1b[1;37mUsed\x1b[0m"@, "Used"@),
{
    reveal_strlit("\x1b[1;37mUsed\x1b[0m");
    reveal_strlit("Used");
    reveal_strlit("\x1b[1;37m");
    reveal_strlit("\x1b[0m");
    law_sequence_has_no_width("\x1b[1;37m"@);
    law_silent_reads("\x1b[1;37m"@);
    law_plain_reads("Used"@);
    law_sequence_has_no_width("\x1b[0m"@);
    law_silent_reads("\x1b[0m"@);
    let line = ("\x1b[1;37m"@, Seq::<char>::empty());
    let line = lemma_then(line, "Used"@, "Used"@);
    let line = lemma_then(line, "\x1b[0m"@, Seq::<char>::empty());
    assert("\x1b[1;37mUsed\x1b[0m"@ =~= line.0);
    assert("Used"@ =~= line.1);
}

proof fn lemma_avail_reads()
    ensures
        reads("\x1b[1;37mAvail\x1b[0m"@, "Avail"@),
{
    reveal_strlit("\x1b[1;37mAvail\x1b[0m");
    reveal_strlit("Avail");
    reveal_strlit("\x1b[1;37m");
    reveal_strlit("\x1b[0m");
    law_sequence_has_no_width("\x1b[1;37m"@);
    law_silent_reads("\x1b[1;37m"@);
    law_plain_reads("Avail"@);
    law_sequence_has_no_width("\x1b[0m"@);
    law_silent_reads("\x1b[0m"@);
    let line = ("\x1b[1;37m"@, Seq::<char>::empty());
    let line = lemma_then(line, "Avail"@, "Avail"@);
    let line = lemma_then(line, "\x1b[0m"@, Seq::<char>::empty());
    assert("\x1b[1;37mAvail\x1b[0m"@ =~= line.0);
    assert("Avail"@ =~= line.1);
}

proof fn lemma_word_total_reads()
    ensures
        reads("\x1b[1;37mTotal\x1b[0m"@, "Total"@),
{
    reveal_strlit("\x1b[1;37mTotal\x1b[0m");
    reveal_strlit("Total");
    reveal_strlit("\x1b[1;37m");
    reveal_strlit("\x1b[0m");
    law_sequence_has_no_width("\x1b[1;37m"@);
    law_silent_reads("\x1b[1;37m"@);
    law_plain_reads("Total"@);
    law_sequence_has_no_width("\x1b[0m"@);
    law_silent_reads("\x1b[0m"@);
    let line = ("\x1b[1;37m"@, Seq::<char>::empty());
    let line = lemma_then(line, "Total"@, "Total"@);
    let line = lemma_then(line, "\x1b[0m"@, Seq::<char>::empty());
    assert("\x1b[1;37mTotal\x1b[0m"@ =~= line.0);
    assert("Total"@ =~= line.1);
}

proof fn lemma_end_and_space_reads()
    ensures
        reads("\x1b[0m "@, " "@),
{
    reveal_strlit("\x1b[0m ");
    reveal_strlit(" ");
    reveal_strlit("\x1b[0m");
    law_sequence_has_no_width("\x1b[0m"@);
    law_silent_reads("\x1b[0m"@);
    law_plain_reads(" "@);
    let line = ("\x1b[0m"@, Seq::<char>::empty());
    let line = lemma_then(line, " "@, " "@);
    assert("\x1b[0m "@ =~= line.0);
    assert(" "@ =~= line.1);
}

proof fn lemma_bar_reads()
    ensures
        reads(" | "@, " | "@),
{
    reveal_strlit(" | ");
    law_plain_reads(" | "@);
    assert(" | "@ =~= " | "@);
}

proof fn lemma_space_reads()
    ensures
        reads(" "@, " "@),
{
    reveal_strlit(" ");
    law_plain_reads(" "@);
    assert(" "@ =~= " "@);
}

proof fn lemma_used_of_swap_reads()
    ensures
        reads("\x1b[0m \x1b[0;37mUsed\x1b[0m / \x1b[38;2;0;255;255m"@, " Used / "@),
{
    reveal_strlit("\x1b[0m \x1b[0;37mUsed\x1b[0m / \x1b[38;2;0;255;255m");
    reveal_strlit(" Used / ");
    reveal_strlit("\x1b[0m");
    reveal_strlit(" ");
    reveal_strlit("\x1b[0;37m");
    reveal_strlit("Used");
    reveal_strlit(" / ");
    reveal_strlit("\x1b[38;2;0;255;255m");
    law_sequence_has_no_width("\x1b[0m"@);
    law_silent_reads("\x1b[0m"@);
    law_plain_reads(" "@);
    law_sequence_has_no_width("\x1b[0;37m"@);
    law_silent_reads("\x1b[0;37m"@);
    law_plain_reads("Used"@);
    law_sequence_has_no_width("\x1b[0m"@);
    law_silent_reads("\x1b[0m"@);
    law_plain_reads(" / "@);
    law_sequence_has_no_width("\x1b[38;2;0;255;255m"@);
    law_silent_reads("\x1b[38;2;0;255;255m"@);
    let line = ("\x1b[0m"@, Seq::<char>::empty());
    let line = lemma_then(line, " "@, " "@);
    let line = lemma_then(line, "\x1b[0;37m"@, Seq::<char>::empty());
    let line = lemma_then(line, "Used"@, "Used"@);
    let line = lemma_then(line, "\x1b[0m"@, Seq::<char>::empty());
    let line = lemma_then(line, " / "@, " / "@);
    let line = lemma_then(line, "\x1b[38;2;0;255;255m"@, Seq::<char>::empty());
    assert("\x1b[0m \x1b[0;37mUsed\x1b[0m / \x1b[38;2;0;255;255m"@ =~= line.0);
    assert(" Used / "@ =~= line.1);
}

proof fn lemma_gray_reads()
    ensures
        reads("\x1b[38;2;150;150;150m"@, Seq::<char>::empty()),
{
    reveal_strlit("\x1b[38;2;150;150;150m");
    law_sequence_has_no_width("\x1b[38;2;150;150;150m"@);
    law_silent_reads("\x1b[38;2;150;150;150m"@);
    assert(Seq::<char>::empty() =~= Seq::<char>::empty());
}

proof fn lemma_enabled_bar_algo_reads()
    ensures
        reads("\x1b[38;2;0;200;0m\x1b[1mEnabled\x1b[0m | \x1b[1mAlgo:\x1b[0m "@, "Enabled | Algo: "@),
{
    reveal_strlit("\x1b[38;2;0;200;0m\x1b[1mEnabled\x1b[0m | \x1b[1mAlgo:\x1b[0m ");
    reveal_strlit("Enabled | Algo: ");
    reveal_strlit("\x1b[38;2;0;200;0m");
    reveal_strlit("\x1b[1m");
    reveal_strlit("Enabled");
    reveal_strlit("\x1b[0m");
    reveal_strlit(" | ");
    reveal_strlit("Algo:");
    reveal_strlit(" ");
    law_sequence_has_no_width("\x1b[38;2;0;200;0m"@);
    law_silent_reads("\x1b[38;2;0;200;0m"@);
    law_sequence_has_no_width("\x1b[1m"@);
    law_silent_reads("\x1b[1m"@);
    law_plain_reads("Enabled"@);
    law_sequence_has_no_width("\x1b[0m"@);
    law_silent_reads("\x1b[0m"@);
    law_plain_reads(" | "@);
    law_sequence_has_no_width("\x1b[1m"@);
    law_silent_reads("\x1b[1m"@);
    law_plain_reads("Algo:"@);
    law_sequence_has_no_width("\x1b[0m"@);
    law_silent_reads("\x1b[0m"@);
    law_plain_reads(" "@);
    let line = ("\x1b[38;2;0;200;0m"@, Seq::<char>::empty());
    let line = lemma_then(line, "\x1b[1m"@, Seq::<char>::empty());
    let line = lemma_then(line, "Enabled"@, "Enabled"@);
    let line = lemma_then(line, "\x1b[0m"@, Seq::<char>::empty());
    let line = lemma_then(line, " | "@, " | "@);
    let line = lemma_then(line, "\x1b[1m"@, Seq::<char>::empty());
    let line = lemma_then(line, "Algo:"@, "Algo:"@);
    let line = lemma_then(line, "\x1b[0m"@, Seq::<char>::empty());
    let line = lemma_then(line, " "@, " "@);
    assert("\x1b[38;2;0;200;0m\x1b[1mEnabled\x1b[0m | \x1b[1mAlgo:\x1b[0m "@ =~= line.0);
    assert("Enabled | Algo: "@ =~= line.1);
}

proof fn lemma_bar_pool_reads()
    ensures
        reads("\x1b[0m | \x1b[1mPool:\x1b[0m "@, " | Pool: "@),
{
    reveal_strlit("\x1b[0m | \x1b[1mPool:\x1b[0m ");
    reveal_strlit(" | Pool: ");
    reveal_strlit("\x1b[0m");
    reveal_strlit(" | ");
    reveal_strlit("\x1b[1m");
    reveal_strlit("Pool:");
    reveal_strlit(" ");
    law_sequence_has_no_width("\x1b[0m"@);
    law_silent_reads("\x1b[0m"@);
    law_plain_reads(" | "@);
    law_sequence_has_no_width("\x1b[1m"@);
    law_silent_reads("\x1b[1m"@);
    law_plain_reads("Pool:"@);
    law_sequence_has_no_width("\x1b[0m"@);
    law_silent_reads("\x1b[0m"@);
    law_plain_reads(" "@);
    let line = ("\x1b[0m"@, Seq::<char>::empty());
    let line = lemma_then(line, " | "@, " | "@);
    let line = lemma_then(line, "\x1b[1m"@, Seq::<char>::empty());
    let line = lemma_then(line, "Pool:"@, "Pool:"@);
    let line = lemma_then(line, "\x1b[0m"@, Seq::<char>::empty());
    let line = lemma_then(line, " "@, " "@);
    assert("\x1b[0m | \x1b[1mPool:\x1b[0m "@ =~= line.0);
    assert(" | Pool: "@ =~= line.1);
}

proof fn lemma_bar_ratio_reads()
    ensures
        reads("\x1b[0m | \x1b[1mRatio:\x1b[0m "@, " | Ratio: "@),
{
    reveal_strlit("\x1b[0m | \x1b[1mRatio:\x1b[0m ");
    reveal_strlit(" | Ratio: ");
    reveal_strlit("\x1b[0m");
    reveal_strlit(" | ");
    reveal_strlit("\x1b[1m");
    reveal_strlit("Ratio:");
    reveal_strlit(" ");
    law_sequence_has_no_width("\x1b[0m"@);
    law_silent_reads("\x1b[0m"@);
    law_plain_reads(" | "@);
    law_sequence_has_no_width("\x1b[1m"@);
    law_silent_reads("\x1b[1m"@);
    law_plain_reads("Ratio:"@);
    law_sequence_has_no_width("\x1b[0m"@);
    law_silent_reads("\x1b[0m"@);
    law_plain_reads(" "@);
    let line = ("\x1b[0m"@, Seq::<char>::empty());
    let line = lemma_then(line, " | "@, " | "@);
    let line = lemma_then(line, "\x1b[1m"@, Seq::<char>::empty());
    let line = lemma_then(line, "Ratio:"@, "Ratio:"@);
    let line = lemma_then(line, "\x1b[0m"@, Seq::<char>::empty());
    let line = lemma_then(line, " "@, " "@);
    assert("\x1b[0m | \x1b[1mRatio:\x1b[0m "@ =~= line.0);
    assert(" | Ratio: "@ =~= line.1);
}

proof fn lemma_to_one_reads()
    ensures
        reads(":1\x1b[0m"@, ":1"@),
{
    reveal_strlit(":1\x1b[0m");
    reveal_strlit(":1");
    reveal_strlit("\x1b[0m");
    law_plain_reads(":1"@);
    law_sequence_has_no_width("\x1b[0m"@);
    law_silent_reads("\x1b[0m"@);
    let line = (":1"@, ":1"@);
    let line = lemma_then(line, "\x1b[0m"@, Seq::<char>::empty());
    assert(":1\x1b[0m"@ =~= line.0);
    assert(":1"@ =~= line.1);
}

proof fn lemma_not_present_reads()
    ensures
        reads("\x1b[38;2;238;130;238m\x1b[1mNot Present\x1b[0m"@, "Not Present"@),
{
    reveal_strlit("\x1b[38;2;238;130;238m\x1b[1mNot Present\x1b[0m");
    reveal_strlit("Not Present");
    reveal_strlit("\x1b[38;2;238;130;238m");
    reveal_strlit("\x1b[1m");
    reveal_strlit("\x1b[0m");
    law_sequence_has_no_width("\x1b[38;2;238;130;238m"@);
    law_silent_reads("\x1b[38;2;238;130;238m"@);
    law_sequence_has_no_width("\x1b[1m"@);
    law_silent_reads("\x1b[1m"@);
    law_plain_reads("Not Present"@);
    law_sequence_has_no_width("\x1b[0m"@);
    law_silent_reads("\x1b[0m"@);
    let line = ("\x1b[38;2;238;130;238m"@, Seq::<char>::empty());
    let line = lemma_then(line, "\x1b[1m"@, Seq::<char>::empty());
    let line = lemma_then(line, "Not Present"@, "Not Present"@);
    let line = lemma_then(line, "\x1b[0m"@, Seq::<char>::empty());
    assert("\x1b[38;2;238;130;238m\x1b[1mNot Present\x1b[0m"@ =~= line.0);
    assert("Not Present"@ =~= line.1);
}

proof fn lemma_unknown_reads()
    ensures
        reads("\x1b[38;2;255;255;0m\x1b[1mUnknown\x1b[0m"@, "Unknown"@),
{
    reveal_strlit("\x1b[38;2;255;255;0m\x1b[1mUnknown\x1b[0m");
    reveal_strlit("Unknown");
    reveal_strlit("\x1b[38;2;255;255;0m");
    reveal_strlit("\x1b[1m");
    reveal_strlit("\x1b[0m");
    law_sequence_has_no_width("\x1b[38;2;255;255;0m"@);
    law_silent_reads("\x1b[38;2;255;255;0m"@);
    law_sequence_has_no_width("\x1b[1m"@);
    law_silent_reads("\x1b[1m"@);
    law_plain_reads("Unknown"@);
    law_sequence_has_no_width("\x1b[0m"@);
    law_silent_reads("\x1b[0m"@);
    let line = ("\x1b[38;2;255;255;0m"@, Seq::<char>::empty());
    let line = lemma_then(line, "\x1b[1m"@, Seq::<char>::empty());
    let line = lemma_then(line, "Unknown"@, "Unknown"@);
    let line = lemma_then(line, "\x1b[0m"@, Seq::<char>::empty());
    assert("\x1b[38;2;255;255;0m\x1b[1mUnknown\x1b[0m"@ =~= line.0);
    assert("Unknown"@ =~= line.1);
}

proof fn lemma_disabled_reads()
    ensures
        reads("\x1b[38;2;255;0;0m\x1b[1mDisabled\x1b[0m"@, "Disabled"@),
{
    reveal_strlit("\x1b[38;2;255;0;0m\x1b[1mDisabled\x1b[0m");
    reveal_strlit("Disabled");
    reveal_strlit("\x1b[38;2;255;0;0m");
    reveal_strlit("\x1b[1m");
    reveal_strlit("\x1b[0m");
    law_sequence_has_no_width("\x1b[38;2;255;0;0m"@);
    law_silent_reads("\x1b[38;2;255;0;0m"@);
    law_sequence_has_no_width("\x1b[1m"@);
    law_silent_reads("\x1b[1m"@);
    law_plain_reads("Disabled"@);
    law_sequence_has_no_width("\x1b[0m"@);
    law_silent_reads("\x1b[0m"@);
    let line = ("\x1b[38;2;255;0;0m"@, Seq::<char>::empty());
    let line = lemma_then(line, "\x1b[1m"@, Seq::<char>::empty());
    let line = lemma_then(line, "Disabled"@, "Disabled"@);
    let line = lemma_then(line, "\x1b[0m"@, Seq::<char>::empty());
    assert("\x1b[38;2;255;0;0m\x1b[1mDisabled\x1b[0m"@ =~= line.0);
    assert("Disabled"@ =~= line.1);
}

proof fn lemma_enabled_requires_sudo_for_detailed_stats_reads()
    ensures
        reads(
            "\x1b[38;2;0;200;0m\x1b[1mEnabled\x1b[0m (\x1b[38;2;255;255;0m\x1b[1mRequires sudo for detailed stats\x1b[0m)"@,
            "Enabled (Requires sudo for detailed stats)"@,
        ),
{
    reveal_strlit(
        "\x1b[38;2;0;200;0m\x1b[1mEnabled\x1b[0m (\x1b[38;2;255;255;0m\x1b[1mRequires sudo for detailed stats\x1b[0m)",
    );
    reveal_strlit("Enabled (Requires sudo for detailed stats)");
    reveal_strlit("\x1b[38;2;0;200;0m");
    reveal_strlit("\x1b[1m");
    reveal_strlit("Enabled");
    reveal_strlit("\x1b[0m");
    reveal_strlit(" (");
    reveal_strlit("\x1b[38;2;255;255;0m");
    reveal_strlit("Requires sudo for detailed stats");
    reveal_strlit(")");
    law_sequence_has_no_width("\x1b[38;2;0;200;0m"@);
    law_silent_reads("\x1b[38;2;0;200;0m"@);
    law_sequence_has_no_width("\x1b[1m"@);
    law_silent_reads("\x1b[1m"@);
    law_plain_reads("Enabled"@);
    law_sequence_has_no_width("\x1b[0m"@);
    law_silent_reads("\x1b[0m"@);
    law_plain_reads(" ("@);
    law_sequence_has_no_width("\x1b[38;2;255;255;0m"@);
    law_silent_reads("\x1b[38;2;255;255;0m"@);
    law_sequence_has_no_width("\x1b[1m"@);
    law_silent_reads("\x1b[1m"@);
    law_plain_reads("Requires sudo for detailed stats"@);
    law_sequence_has_no_width("\x1b[0m"@);
    law_silent_reads("\x1b[0m"@);
    law_plain_reads(")"@);
    let line = ("\x1b[38;2;0;200;0m"@, Seq::<char>::empty());
    let line = lemma_then(line, "\x1b[1m"@, Seq::<char>::empty());
    let line = lemma_then(line, "Enabled"@, "Enabled"@);
    let line = lemma_then(line, "\x1b[0m"@, Seq::<char>::empty());
    let line = lemma_then(line, " ("@, " ("@);
    let line = lemma_then(line, "\x1b[38;2;255;255;0m"@, Seq::<char>::empty());
    let line = lemma_then(line, "\x1b[1m"@, Seq::<char>::empty());
    let line = lemma_then(line, "Requires sudo for detailed stats"@, "Requires sudo for detailed stats"@);
    let line = lemma_then(line, "\x1b[0m"@, Seq::<char>::empty());
    let line = lemma_then(line, ")"@, ")"@);
    assert("\x1b[38;2;0;200;0m\x1b[1mEnabled\x1b[0m (\x1b[38;2;255;255;0m\x1b[1mRequires sudo for detailed stats\x1b[0m)"@
            =~= line.0);
    assert("Enabled (Requires sudo for detailed stats)"@ =~= line.1);
}

proof fn lemma_hardware_limits_reads()
    ensures
        reads("\x1b[1mHardware Limits:\x1b[0m \x1b[1;38;2;100;255;100m"@, "Hardware Limits: "@),
{
    reveal_strlit("\x1b[1mHardware Limits:\x1b[0m \x1b[1;38;2;100;255;100m");
    reveal_strlit("Hardware Limits: ");
    reveal_strlit("\x1b[1m");
    reveal_strlit("Hardware Limits:");
    reveal_strlit("\x1b[0m");
    reveal_strlit(" ");
    reveal_strlit("\x1b[1;38;2;100;255;100m");
    law_sequence_has_no_width("\x1b[1m"@);
    law_silent_reads("\x1b[1m"@);
    law_plain_reads("Hardware Limits:"@);
    law_sequence_has_no_width("\x1b[0m"@);
    law_silent_reads("\x1b[0m"@);
    law_plain_reads(" "@);
    law_sequence_has_no_width("\x1b[1;38;2;100;255;100m"@);
    law_silent_reads("\x1b[1;38;2;100;255;100m"@);
    let line = ("\x1b[1m"@, Seq::<char>::empty());
    let line = lemma_then(line, "Hardware Limits:"@, "Hardware Limits:"@);
    let line = lemma_then(line, "\x1b[0m"@, Seq::<char>::empty());
    let line = lemma_then(line, " "@, " "@);
    let line = lemma_then(line, "\x1b[1;38;2;100;255;100m"@, Seq::<char>::empty());
    assert("\x1b[1mHardware Limits:\x1b[0m \x1b[1;38;2;100;255;100m"@ =~= line.0);
    assert("Hardware Limits: "@ =~= line.1);
}

proof fn lemma_mhz_min_bar_reads()
    ensures
        reads("\x1b[0m MHz Min | \x1b[1;38;2;255;0;0m"@, " MHz Min | "@),
{
    reveal_strlit("\x1b[0m MHz Min | \x1b[1;38;2;255;0;0m");
    reveal_strlit(" MHz Min | ");
    reveal_strlit("\x1b[0m");
    reveal_strlit("\x1b[1;38;2;255;0;0m");
    law_sequence_has_no_width("\x1b[0m"@);
    law_silent_reads("\x1b[0m"@);
    law_plain_reads(" MHz Min | "@);
    law_sequence_has_no_width("\x1b[1;38;2;255;0;0m"@);
    law_silent_reads("\x1b[1;38;2;255;0;0m"@);
    let line = ("\x1b[0m"@, Seq::<char>::empty());
    let line = lemma_then(line, " MHz Min | "@, " MHz Min | "@);
    let line = lemma_then(line, "\x1b[1;38;2;255;0;0m"@, Seq::<char>::empty());
    assert("\x1b[0m MHz Min | \x1b[1;38;2;255;0;0m"@ =~= line.0);
    assert(" MHz Min | "@ =~= line.1);
}

proof fn lemma_mhz_max_reads()
    ensures
        reads("\x1b[0m MHz Max"@, " MHz Max"@),
{
    reveal_strlit("\x1b[0m MHz Max");
    reveal_strlit(" MHz Max");
    reveal_strlit("\x1b[0m");
    law_sequence_has_no_width("\x1b[0m"@);
    law_silent_reads("\x1b[0m"@);
    law_plain_reads(" MHz Max"@);
    let line = ("\x1b[0m"@, Seq::<char>::empty());
    let line = lemma_then(line, " MHz Max"@, " MHz Max"@);
    assert("\x1b[0m MHz Max"@ =~= line.0);
    assert(" MHz Max"@ =~= line.1);
}

proof fn lemma_room_temp_reads()
    ensures
        reads("\x1b[1mRoom Temp:\x1b[0m "@, "Room Temp: "@),
{
    reveal_strlit("\x1b[1mRoom Temp:\x1b[0m ");
    reveal_strlit("Room Temp: ");
    reveal_strlit("\x1b[1m");
    reveal_strlit("Room Temp:");
    reveal_strlit("\x1b[0m");
    reveal_strlit(" ");
    law_sequence_has_no_width("\x1b[1m"@);
    law_silent_reads("\x1b[1m"@);
    law_plain_reads("Room Temp:"@);
    law_sequence_has_no_width("\x1b[0m"@);
    law_silent_reads("\x1b[0m"@);
    law_plain_reads(" "@);
    let line = ("\x1b[1m"@, Seq::<char>::empty());
    let line = lemma_then(line, "Room Temp:"@, "Room Temp:"@);
    let line = lemma_then(line, "\x1b[0m"@, Seq::<char>::empty());
    let line = lemma_then(line, " "@, " "@);
    assert("\x1b[1mRoom Temp:\x1b[0m "@ =~= line.0);
    assert("Room Temp: "@ =~= line.1);
}

proof fn lemma_degrees_bar_reads()
    ensures
        reads("°C\x1b[0m | "@, "°C | "@),
{
    reveal_strlit("°C\x1b[0m | ");
    reveal_strlit("°C | ");
    reveal_strlit("°C");
    reveal_strlit("\x1b[0m");
    reveal_strlit(" | ");
    law_plain_reads("°C"@);
    law_sequence_has_no_width("\x1b[0m"@);
    law_silent_reads("\x1b[0m"@);
    law_plain_reads(" | "@);
    let line = ("°C"@, "°C"@);
    let line = lemma_then(line, "\x1b[0m"@, Seq::<char>::empty());
    let line = lemma_then(line, " | "@, " | "@);
    assert("°C\x1b[0m | "@ =~= line.0);
    assert("°C | "@ =~= line.1);
}

proof fn lemma_degrees_reads()
    ensures
        reads("°C\x1b[0m"@, "°C"@),
{
    reveal_strlit("°C\x1b[0m");
    reveal_strlit("°C");
    reveal_strlit("\x1b[0m");
    law_plain_reads("°C"@);
    law_sequence_has_no_width("\x1b[0m"@);
    law_silent_reads("\x1b[0m"@);
    let line = ("°C"@, "°C"@);
    let line = lemma_then(line, "\x1b[0m"@, Seq::<char>::empty());
    assert("°C\x1b[0m"@ =~= line.0);
    assert("°C"@ =~= line.1);
}

proof fn lemma_letter_reads()
    ensures
        reads("C"@, "C"@),
{
    reveal_strlit("C");
    law_plain_reads("C"@);
    assert("C"@ =~= "C"@);
}

proof fn lemma_user_activity_active_reads()
    ensures
        reads("\x1b[1mUser Activity:\x1b[0m \x1b[1m\x1b[38;2;0;255;255mACTIVE\x1b[0m"@, "User Activity: ACTIVE"@),
{
    reveal_strlit("\x1b[1mUser Activity:\x1b[0m \x1b[1m\x1b[38;2;0;255;255mACTIVE\x1b[0m");
    reveal_strlit("User Activity: ACTIVE");
    reveal_strlit("\x1b[1m");
    reveal_strlit("User Activity:");
    reveal_strlit("\x1b[0m");
    reveal_strlit(" ");
    reveal_strlit("\x1b[38;2;0;255;255m");
    reveal_strlit("ACTIVE");
    law_sequence_has_no_width("\x1b[1m"@);
    law_silent_reads("\x1b[1m"@);
    law_plain_reads("User Activity:"@);
    law_sequence_has_no_width("\x1b[0m"@);
    law_silent_reads("\x1b[0m"@);
    law_plain_reads(" "@);
    law_sequence_has_no_width("\x1b[1m"@);
    law_silent_reads("\x1b[1m"@);
    law_sequence_has_no_width("\x1b[38;2;0;255;255m"@);
    law_silent_reads("\x1b[38;2;0;255;255m"@);
    law_plain_reads("ACTIVE"@);
    law_sequence_has_no_width("\x1b[0m"@);
    law_silent_reads("\x1b[0m"@);
    let line = ("\x1b[1m"@, Seq::<char>::empty());
    let line = lemma_then(line, "User Activity:"@, "User Activity:"@);
    let line = lemma_then(line, "\x1b[0m"@, Seq::<char>::empty());
    let line = lemma_then(line, " "@, " "@);
    let line = lemma_then(line, "\x1b[1m"@, Seq::<char>::empty());
    let line = lemma_then(line, "\x1b[38;2;0;255;255m"@, Seq::<char>::empty());
    let line = lemma_then(line, "ACTIVE"@, "ACTIVE"@);
    let line = lemma_then(line, "\x1b[0m"@, Seq::<char>::empty());
    assert("\x1b[1mUser Activity:\x1b[0m \x1b[1m\x1b[38;2;0;255;255mACTIVE\x1b[0m"@ =~= line.0);
    assert("User Activity: ACTIVE"@ =~= line.1);
}

proof fn lemma_user_activity_reads()
    ensures
        reads("\x1b[1mUser Activity:\x1b[0m \x1b[1m"@, "User Activity: "@),
{
    reveal_strlit("\x1b[1mUser Activity:\x1b[0m \x1b[1m");
    reveal_strlit("User Activity: ");
    reveal_strlit("\x1b[1m");
    reveal_strlit("User Activity:");
    reveal_strlit("\x1b[0m");
    reveal_strlit(" ");
    law_sequence_has_no_width("\x1b[1m"@);
    law_silent_reads("\x1b[1m"@);
    law_plain_reads("User Activity:"@);
    law_sequence_has_no_width("\x1b[0m"@);
    law_silent_reads("\x1b[0m"@);
    law_plain_reads(" "@);
    law_sequence_has_no_width("\x1b[1m"@);
    law_silent_reads("\x1b[1m"@);
    let line = ("\x1b[1m"@, Seq::<char>::empty());
    let line = lemma_then(line, "User Activity:"@, "User Activity:"@);
    let line = lemma_then(line, "\x1b[0m"@, Seq::<char>::empty());
    let line = lemma_then(line, " "@, " "@);
    let line = lemma_then(line, "\x1b[1m"@, Seq::<char>::empty());
    assert("\x1b[1mUser Activity:\x1b[0m \x1b[1m"@ =~= line.0);
    assert("User Activity: "@ =~= line.1);
}

proof fn lemma_idle_reads()
    ensures
        reads("IDLE "@, "IDLE "@),
{
    reveal_strlit("IDLE ");
    law_plain_reads("IDLE "@);
    assert("IDLE "@ =~= "IDLE "@);
}

/// No size holds the letters that begin the words beside it.
pub(crate) proof fn lemma_size_letters(z: FormatSize)
    ensures
        !z.shown().contains('U'),
        !z.shown().contains('A'),
{
    let x = integer(z.0 as nat);
    let (v, unit) = if crate::binary64::below(x, integer(crate::units::KILO as nat)) {
        (x, " B"@)
    } else if crate::binary64::below(x, integer(crate::units::MEGA as nat)) {
        (quotient(x, integer(crate::units::KILO as nat)), "KB"@)
    } else if crate::binary64::below(x, integer(crate::units::GIGA as nat)) {
        (quotient(x, integer(crate::units::MEGA as nat)), "MB"@)
    } else if crate::binary64::below(x, integer(crate::units::TERA as nat)) {
        (quotient(x, integer(crate::units::GIGA as nat)), "GB"@)
    } else if crate::binary64::below(x, integer(crate::units::PETA as nat)) {
        (quotient(x, integer(crate::units::TERA as nat)), "TB"@)
    } else {
        (quotient(x, integer(crate::units::PETA as nat)), "PB"@)
    };
    let precision: nat = if crate::binary64::at_most(integer(1000), v) {
        0
    } else {
        1
    };
    lemma_fitted(v, 6, precision);
    lemma_number_letters(v, 6, places_fitted(v, 6, precision));
    let number = fitted_text(v, 6, precision);
    let s = z.shown();
    assert forall|i: int| 0 <= i < s.len() implies #[trigger] s[i] != 'U' && s[i] != 'A' by {
        reveal_strlit("  ");
        reveal_strlit(" B");
        reveal_strlit("KB");
        reveal_strlit("MB");
        reveal_strlit("GB");
        reveal_strlit("TB");
        reveal_strlit("PB");
        if i < number.len() {
            assert(s[i] == number[i]);
        } else if i < number.len() + 2 {
            assert(s[i] == "  "@[i - number.len()]);
        } else {
            assert(s[i] == unit[i - number.len() - 2]);
        }
    }
}

/// A number is written without capital letters but the one of what is no number.
proof fn lemma_number_letters(x: Number, width: nat, p: nat)
    ensures
        forall|i: int|
            0 <= i < number_text(x, width, p).len() ==> #[trigger] number_text(x, width, p)[i] != 'U' && number_text(
                x,
                width,
                p,
            )[i] != 'A',
{
    reveal_strlit("NaN");
    reveal_strlit("inf");
    reveal_strlit("-inf");
    let text = fixed_of(x, p);
    assert forall|i: int| 0 <= i < text.len() implies #[trigger] text[i] != 'U' && text[i] != 'A' by {
        if x is Finite {
            lemma_finite_letters(x, p, i);
        }
    }
}

proof fn lemma_finite_letters(x: Number, p: nat, i: int)
    requires
        x is Finite,
        0 <= i < fixed_of(x, p).len(),
    ensures
        is_digit(fixed_of(x, p)[i]) || fixed_of(x, p)[i] == '.' || fixed_of(x, p)[i] == '-',
{
    let k = crate::binary64::round_half_even(x.units() * crate::decimal::ten_to(p), crate::binary64::one_units());
    let unit = crate::decimal::ten_to(p);
    lemma_decimal_digits(k);
    lemma_decimal_digits(k / unit);
    law_zero_filled_reads_back(k % unit, p);
    let body = with_point(k, p);
    let j = if x->Finite_negative {
        i - 1
    } else {
        i
    };
    if j >= 0 {
        assert(fixed_of(x, p)[i] == body[j]);
        if p == 0 {
            assert(is_digit(decimal_of(k)[j]));
        } else {
            let whole = decimal_of(k / unit);
            let part = zero_filled(k % unit, p);
            if j < whole.len() {
                assert(is_digit(whole[j]));
            } else if j > whole.len() {
                assert(is_digit(part[j - whole.len() - 1]));
            }
        }
    }
}

// ---------------------------------------------------------------------------
// Peaks
// ---------------------------------------------------------------------------

/// A peak is read as its name, a space and its value, whatever its colour and the strobe.
pub proof fn law_peak_reads(key: Seq<char>, value: Seq<char>, color: Seq<char>, blinks: bool, bright: bool, stays: bool)
    requires
        plain(key),
        plain(value),
        silent(color),
    ensures
        reads(watermark_text(key, value, color, blinks, bright, stays), key + " "@ + value),
{
    lemma_marks();
    reveal_strlit(" ");
    law_plain_reads(key);
    law_plain_reads(value);
    law_plain_reads(" "@);
    law_silent_reads(color);
    if (blinks && bright) || (!blinks && stays) {
        lemma_marks();
        let line = (color, Seq::<char>::empty());
        let line = lemma_then(line, BOLD@, Seq::<char>::empty());
        let line = lemma_then(line, key, key);
        let line = lemma_then(line, " "@, " "@);
        let line = lemma_then(line, color, Seq::<char>::empty());
        let line = lemma_then(line, BOLD@, Seq::<char>::empty());
        let line = lemma_then(line, value, value);
        let line = lemma_then(line, RESET@, Seq::<char>::empty());
        assert(line.1 =~= key + " "@ + value);
    }
    if !((blinks && bright) || (!blinks && stays)) && blinks {
        lemma_marks();
        let line = (WHITE_BOLD@, Seq::<char>::empty());
        let line = lemma_then(line, key, key);
        let line = lemma_then(line, " "@, " "@);
        let line = lemma_then(line, WHITE_BOLD@, Seq::<char>::empty());
        let line = lemma_then(line, value, value);
        let line = lemma_then(line, RESET@, Seq::<char>::empty());
        assert(line.1 =~= key + " "@ + value);
    }
    if !((blinks && bright) || (!blinks && stays)) && !blinks {
        lemma_marks();
        let line = (WHITE_BOLD@, Seq::<char>::empty());
        let line = lemma_then(line, key, key);
        let line = lemma_then(line, " "@, " "@);
        let line = lemma_then(line, color, Seq::<char>::empty());
        let line = lemma_then(line, BOLD@, Seq::<char>::empty());
        let line = lemma_then(line, value, value);
        let line = lemma_then(line, RESET@, Seq::<char>::empty());
        assert(line.1 =~= key + " "@ + value);
    }
}

pub(crate) proof fn lemma_reads_plain(s: Seq<char>)
    requires
        simple(s),
    ensures
        plain(s),
{
    assert forall|i: int| 0 <= i < s.len() implies #[trigger] s[i] != ESCAPE by {
        assert(' ' <= s[i]);
    }
}

// ---------------------------------------------------------------------------
// Network
// ---------------------------------------------------------------------------

proof fn lemma_speeds_read(rx: Number, tx: Number, max: Number)
    ensures
        reads(speeds_text(rx, tx, max), net_speed_text(rx) + " ↓  "@ + net_speed_text(tx) + " ↑  "@),
{
    lemma_net_color_silent(rx, max);
    lemma_marks();
    lemma_net_speed_plain(rx);
    lemma_down_reads();
    lemma_net_color_silent(tx, max);
    lemma_net_speed_plain(tx);
    lemma_up_reads();
    let line = (net_color(rx, max), Seq::<char>::empty());
    let line = lemma_then(line, BOLD@, Seq::<char>::empty());
    let line = lemma_then(line, net_speed_text(rx), net_speed_text(rx));
    let line = lemma_then(line, "\x1b[0m \x1b[1;37m↓\x1b[0m  "@, " ↓  "@);
    let line = lemma_then(line, net_color(tx, max), Seq::<char>::empty());
    let line = lemma_then(line, BOLD@, Seq::<char>::empty());
    let line = lemma_then(line, net_speed_text(tx), net_speed_text(tx));
    let line = lemma_then(line, "\x1b[0m \x1b[1;37m↑\x1b[0m  "@, " ↑  "@);
    assert(line.1 =~= net_speed_text(rx) + " ↓  "@ + net_speed_text(tx) + " ↑  "@);
}

proof fn lemma_net_peaks_read(pair: (Peaks, Peaks), now: u64, bright: bool)
    requires
        silent(pair.0.max_color),
        silent(pair.1.max_color),
    ensures
        reads(
            net_peaks_text(pair, now, bright),
            "H↓:"@ + " "@ + net_speed_text(pair.0.max_val) + "  "@
                + ("H↑:"@ + " "@ + net_speed_text(pair.1.max_val)),
        ),
{
    reveal_strlit("H↓:");
    lemma_net_speed_plain(pair.0.max_val);
    lemma_reads_plain(net_speed_text(pair.0.max_val));
    law_peak_reads(
        "H↓:"@,
        net_speed_text(pair.0.max_val),
        pair.0.max_color,
        fresh(pair.0.last_max_peak, now),
        bright,
        false,
    );
    lemma_gap_reads();
    reveal_strlit("H↑:");
    lemma_net_speed_plain(pair.1.max_val);
    lemma_reads_plain(net_speed_text(pair.1.max_val));
    law_peak_reads(
        "H↑:"@,
        net_speed_text(pair.1.max_val),
        pair.1.max_color,
        fresh(pair.1.last_max_peak, now),
        bright,
        false,
    );
    let line = (
        watermark_text(
            "H↓:"@,
            net_speed_text(pair.0.max_val),
            pair.0.max_color,
            fresh(pair.0.last_max_peak, now),
            bright,
            false,
        ),
        ("H↓:"@ + " "@ + net_speed_text(pair.0.max_val)),
    );
    let line = lemma_then(line, "  "@, "  "@);
    let line = lemma_then(
        line,
        watermark_text(
            "H↑:"@,
            net_speed_text(pair.1.max_val),
            pair.1.max_color,
            fresh(pair.1.last_max_peak, now),
            bright,
            false,
        ),
        ("H↑:"@ + " "@ + net_speed_text(pair.1.max_val)),
    );
    assert(line.1
            =~= "H↓:"@ + " "@ + net_speed_text(pair.0.max_val) + "  "@
                + ("H↑:"@ + " "@ + net_speed_text(pair.1.max_val)));
}

/// What is read of two speeds and their peaks: download at the down arrow, upload at the
/// up arrow.
pub open spec fn traffic_read(rx: Number, tx: Number, pair: (Peaks, Peaks)) -> Seq<char> {
    net_speed_text(rx) + " ↓  "@ + net_speed_text(tx) + " ↑  "@ + ("H↓:"@ + " "@ + net_speed_text(pair.0.max_val)
        + "  "@ + ("H↑:"@ + " "@ + net_speed_text(pair.1.max_val)))
}

/// The row of an interface that is not announced tells its name, what it receives at the
/// down arrow, what it sends at the up arrow, and the highest of each.
pub proof fn law_interface_reads(s: Status, node: Traffic, pair: (Peaks, Peaks), now: u64, bright: bool)
    requires
        value_of(s.net_trackers, node.iface) == Some(pair),
        !(value_of(s.net_events, node.iface) matches Some(note) && told(note.time, now)),
        plain(node.iface),
        silent(pair.0.max_color),
        silent(pair.1.max_color),
    ensures
        reads(
            iface_text(s, node, now, bright),
            right_aligned(node.iface, iface_width(s.raw_net_nodes)) + ": "@
                + traffic_read(node.rx, node.tx, pair),
        ),
{
    let name = right_aligned(node.iface, iface_width(s.raw_net_nodes));
    law_plain_reads(name);
    lemma_speeds_read(node.rx, node.tx, node.max);
    lemma_net_peaks_read(pair, now, bright);
    lemma_colon_reads();
    let line = (name, name);
    let line = lemma_then(line, ": "@, ": "@);
    let line = lemma_then(
        line,
        speeds_text(node.rx, node.tx, node.max),
        (net_speed_text(node.rx) + " ↓  "@ + net_speed_text(node.tx) + " ↑  "@),
    );
    let line = lemma_then(
        line,
        net_peaks_text(pair, now, bright),
        ("H↓:"@ + " "@ + net_speed_text(pair.0.max_val) + "  "@
             + ("H↑:"@ + " "@ + net_speed_text(pair.1.max_val))),
    );
    assert(line.1
            =~= right_aligned(node.iface, iface_width(s.raw_net_nodes)) + ": "@
                + traffic_read(node.rx, node.tx, pair));
}

/// The row of all interfaces together tells the same of their totals.
pub proof fn law_net_total_reads(s: Status, now: u64, bright: bool)
    requires
        silent(s.net_total_tracker.0.max_color),
        silent(s.net_total_tracker.1.max_color),
    ensures
        reads(
            net_total_text(s, now, bright),
            right_aligned("Net Total"@, iface_width(s.raw_net_nodes)) + ": "@
                + traffic_read(s.net_total_rx, s.net_total_tx, s.net_total_tracker),
        ),
{
    let name = right_aligned("Net Total"@, iface_width(s.raw_net_nodes));
    let max = larger(s.net_total_max, integer(1));
    let pair = s.net_total_tracker;
    reveal_strlit("Net Total");
    law_plain_reads(name);
    lemma_speeds_read(s.net_total_rx, s.net_total_tx, max);
    lemma_net_peaks_read(pair, now, bright);
    lemma_marks();
    lemma_bold_colon_reads();
    let line = (BOLD@, Seq::<char>::empty());
    let line = lemma_then(line, name, name);
    let line = lemma_then(line, ":\x1b[0m "@, ": "@);
    let line = lemma_then(
        line,
        speeds_text(s.net_total_rx, s.net_total_tx, max),
        (net_speed_text(s.net_total_rx) + " ↓  "@ + net_speed_text(s.net_total_tx) + " ↑  "@),
    );
    let line = lemma_then(
        line,
        net_peaks_text(pair, now, bright),
        ("H↓:"@ + " "@ + net_speed_text(pair.0.max_val) + "  "@
             + ("H↑:"@ + " "@ + net_speed_text(pair.1.max_val))),
    );
    assert(line.1
            =~= right_aligned("Net Total"@, iface_width(s.raw_net_nodes)) + ": "@
                + traffic_read(s.net_total_rx, s.net_total_tx, s.net_total_tracker));
}

/// The row of an interface that came or went tells so in a word.
pub proof fn law_announced_interface_reads(s: Status, node: Traffic, change: Change, now: u64, bright: bool)
    requires
        value_of(s.net_events, node.iface) matches Some(note) && told(note.time, now) && note.change == change,
        plain(node.iface),
    ensures
        reads(
            iface_text(s, node, now, bright),
            right_aligned(node.iface, iface_width(s.raw_net_nodes)) + ": "@
                + (if change == Change::Activated { "ACTIVATED"@ } else { "DEACTIVATED"@ }),
        ),
{
    let name = right_aligned(node.iface, iface_width(s.raw_net_nodes));
    law_plain_reads(name);
    if change == Change::Activated {
        lemma_colon_before_bold_reads();
        lemma_green_reads();
        lemma_activated_reads();
        lemma_end_reads();
        let line = (name, name);
        let line = lemma_then(line, ": \x1b[1m"@, ": "@);
        let line = lemma_then(line, "\x1b[38;2;0;200;0m"@, Seq::<char>::empty());
        let line = lemma_then(line, "ACTIVATED"@, "ACTIVATED"@);
        let line = lemma_then(line, "\x1b[0m\x1b[0m"@, Seq::<char>::empty());
        assert(line.1
                =~= right_aligned(node.iface, iface_width(s.raw_net_nodes)) + ": "@
                    + (if change == Change::Activated { "ACTIVATED"@ } else { "DEACTIVATED"@ }));
    }
    if change != Change::Activated {
        lemma_colon_before_bold_reads();
        lemma_yellow_reads();
        lemma_deactivated_reads();
        lemma_end_reads();
        let line = (name, name);
        let line = lemma_then(line, ": \x1b[1m"@, ": "@);
        let line = lemma_then(line, "\x1b[38;2;255;255;0m"@, Seq::<char>::empty());
        let line = lemma_then(line, "DEACTIVATED"@, "DEACTIVATED"@);
        let line = lemma_then(line, "\x1b[0m\x1b[0m"@, Seq::<char>::empty());
        assert(line.1
                =~= right_aligned(node.iface, iface_width(s.raw_net_nodes)) + ": "@
                    + (if change == Change::Activated { "ACTIVATED"@ } else { "DEACTIVATED"@ }));
    }
}

// ---------------------------------------------------------------------------
// Storage
// ---------------------------------------------------------------------------

/// What is read of a device: reading at the up arrow, writing at the down arrow, and the
/// highest of each that has settled.
pub open spec fn pace_read(r: Number, w: Number, marks: Watermarks) -> Seq<char> {
    disk_speed_text(r) + " R↑  "@ + disk_speed_text(w) + " W↓  "@ + ("HR:"@ + " "@ + disk_speed_text(
        marks.read.current,
    )) + "  "@ + ("HW:"@ + " "@ + disk_speed_text(marks.write.current))
}

/// A device tells how fast it is read and written, and the highest of each.
pub proof fn law_pace_reads(r: Number, w: Number, marks: Watermarks, now: u64, bright: bool)
    ensures
        reads(pace_text(r, w, marks, now, bright), pace_read(r, w, marks)),
{
    lemma_marks();
    lemma_disk_speed_color_silent(r, marks.read.current);
    lemma_marks();
    lemma_disk_speed_plain(r);
    lemma_r_up_reads();
    lemma_disk_speed_color_silent(w, marks.write.current);
    lemma_disk_speed_plain(w);
    lemma_w_down_reads();
    reveal_strlit("HR:");
    lemma_disk_speed_plain(marks.read.current);
    lemma_reads_plain(disk_speed_text(marks.read.current));
    law_peak_reads(
        "HR:"@,
        disk_speed_text(marks.read.current),
        VIOLET_BOLD@,
        fresh(marks.read.last_peak, now),
        bright,
        false,
    );
    lemma_gap_reads();
    reveal_strlit("HW:");
    lemma_disk_speed_plain(marks.write.current);
    lemma_reads_plain(disk_speed_text(marks.write.current));
    law_peak_reads(
        "HW:"@,
        disk_speed_text(marks.write.current),
        VIOLET_BOLD@,
        fresh(marks.write.last_peak, now),
        bright,
        false,
    );
    let line = (disk_speed_color(r, marks.read.current), Seq::<char>::empty());
    let line = lemma_then(line, BOLD@, Seq::<char>::empty());
    let line = lemma_then(line, disk_speed_text(r), disk_speed_text(r));
    let line = lemma_then(line, "\x1b[0m \x1b[1;37mR↑\x1b[0m  "@, " R↑  "@);
    let line = lemma_then(line, disk_speed_color(w, marks.write.current), Seq::<char>::empty());
    let line = lemma_then(line, BOLD@, Seq::<char>::empty());
    let line = lemma_then(line, disk_speed_text(w), disk_speed_text(w));
    let line = lemma_then(line, "\x1b[0m \x1b[1;37mW↓\x1b[0m  "@, " W↓  "@);
    let line = lemma_then(
        line,
        watermark_text(
            "HR:"@,
            disk_speed_text(marks.read.current),
            VIOLET_BOLD@,
            fresh(marks.read.last_peak, now),
            bright,
            false,
        ),
        ("HR:"@ + " "@ + disk_speed_text(marks.read.current)),
    );
    let line = lemma_then(line, "  "@, "  "@);
    let line = lemma_then(
        line,
        watermark_text(
            "HW:"@,
            disk_speed_text(marks.write.current),
            VIOLET_BOLD@,
            fresh(marks.write.last_peak, now),
            bright,
            false,
        ),
        ("HW:"@ + " "@ + disk_speed_text(marks.write.current)),
    );
    assert(line.1 =~= pace_read(r, w, marks));
}

/// A volume tells its path, what is used of it and how large it is.
pub proof fn law_capacity_reads(n: DiskNode)
    requires
        plain(n.mount_padded),
        silent(n.capacity_color),
    ensures
        reads(
            capacity_text(n),
            n.mount_padded + FormatSize(n.used_bytes).shown() + " Used / "@ + FormatSize(n.total_bytes).shown()
                + " Total"@,
        ),
{
    law_plain_reads(n.mount_padded);
    law_silent_reads(n.capacity_color);
    lemma_size_plain(FormatSize(n.used_bytes));
    lemma_used_of_reads();
    lemma_size_plain(FormatSize(n.total_bytes));
    lemma_total_reads();
    let line = (n.mount_padded, n.mount_padded);
    let line = lemma_then(line, n.capacity_color, Seq::<char>::empty());
    let line = lemma_then(line, FormatSize(n.used_bytes).shown(), FormatSize(n.used_bytes).shown());
    let line = lemma_then(line, "\x1b[0m \x1b[0;37mUsed\x1b[0m / \x1b[1;38;2;0;255;255m"@, " Used / "@);
    let line = lemma_then(line, FormatSize(n.total_bytes).shown(), FormatSize(n.total_bytes).shown());
    let line = lemma_then(line, "\x1b[0m \x1b[0;37mTotal\x1b[0m"@, " Total"@);
    assert(line.1
            =~= n.mount_padded + FormatSize(n.used_bytes).shown() + " Used / "@ + FormatSize(n.total_bytes).shown()
                + " Total"@);
}

proof fn lemma_total_color(s: Status) -> (color: Seq<char>)
    ensures
        silent(color),
        reads(color, Seq::empty()),
        ({
            let load = share(s.disk_agg_used as nat, s.disk_agg_total as nat);
            storage_total_text(s) == color + BOLD@ + FormatSize(s.disk_agg_used).shown()
                + "\x1b[0m \x1b[1;37mUsed\x1b[0m | \x1b[1;38;2;0;255;255m"@ + FormatSize(s.disk_agg_total).shown()
                + "\x1b[0m \x1b[1;37mTotal\x1b[0m | "@ + color + BOLD@ + fixed_of(product(load, integer(100)), 1)
                + "%\x1b[0m \x1b[0;37m%Used\x1b[0m"@
        }),
{
    let load = share(s.disk_agg_used as nat, s.disk_agg_total as nat);
    lemma_marks();
    lemma_disk_capacity_color_silent(load, false);
    if exists|i: int| 0 <= i < s.disk_nodes.len() && crate::render::nearly_full(#[trigger] s.disk_nodes[i]) {
        VIOLET_BOLD@
    } else {
        disk_capacity_color(load, false)
    }
}

/// All volumes together tell what is used, how large they are and the share in use.
pub proof fn law_storage_total_reads(s: Status)
    ensures
        reads(
            storage_total_text(s),
            FormatSize(s.disk_agg_used).shown() + " Used | "@ + FormatSize(s.disk_agg_total).shown()
                + " Total | "@
                + fixed_of(product(share(s.disk_agg_used as nat, s.disk_agg_total as nat), integer(100)), 1)
                + "% %Used"@,
        ),
{
    let color = lemma_total_color(s);
    lemma_marks();
    lemma_size_plain(FormatSize(s.disk_agg_used));
    lemma_used_bar_reads();
    lemma_size_plain(FormatSize(s.disk_agg_total));
    lemma_total_bar_reads();
    lemma_fixed_plain(product(share(s.disk_agg_used as nat, s.disk_agg_total as nat), integer(100)), 1);
    lemma_percent_percent_used_reads();
    let line = (color, Seq::<char>::empty());
    let line = lemma_then(line, BOLD@, Seq::<char>::empty());
    let line = lemma_then(line, FormatSize(s.disk_agg_used).shown(), FormatSize(s.disk_agg_used).shown());
    let line = lemma_then(line, "\x1b[0m \x1b[1;37mUsed\x1b[0m | \x1b[1;38;2;0;255;255m"@, " Used | "@);
    let line = lemma_then(line, FormatSize(s.disk_agg_total).shown(), FormatSize(s.disk_agg_total).shown());
    let line = lemma_then(line, "\x1b[0m \x1b[1;37mTotal\x1b[0m | "@, " Total | "@);
    let line = lemma_then(line, color, Seq::<char>::empty());
    let line = lemma_then(line, BOLD@, Seq::<char>::empty());
    let line = lemma_then(
        line,
        fixed_of(product(share(s.disk_agg_used as nat, s.disk_agg_total as nat), integer(100)), 1),
        fixed_of(product(share(s.disk_agg_used as nat, s.disk_agg_total as nat), integer(100)), 1),
    );
    let line = lemma_then(line, "%\x1b[0m \x1b[0;37m%Used\x1b[0m"@, "% %Used"@);
    assert(line.1
            =~= FormatSize(s.disk_agg_used).shown() + " Used | "@ + FormatSize(s.disk_agg_total).shown()
                + " Total | "@
                + fixed_of(product(share(s.disk_agg_used as nat, s.disk_agg_total as nat), integer(100)), 1)
                + "% %Used"@);
}

// ---------------------------------------------------------------------------
// Memory
// ---------------------------------------------------------------------------

proof fn lemma_memory_words()
    ensures
        reads(USED@, "Used"@),
        reads(AVAIL@, "Avail"@),
        reads(TOTAL@, "Total"@),
{
    lemma_word_used_reads();
    lemma_avail_reads();
    lemma_word_total_reads();
}

/// The line of the memory tells what is in use, what is available and how much there is.
pub proof fn law_memory_reads(total: nat, avail: nat)
    ensures
        reads(
            ram_shown(total, avail),
            size(used_kilobytes(total, avail) * 1024) + " "@ + "Used"@ + " | "@ + size(avail * 1024) + " "@
                + "Avail"@ + " | "@ + size(total * 1024) + " "@ + "Total"@,
        ),
{
    let used = used_kilobytes(total, avail);
    let color = ram_color(share(used, total));
    lemma_ram_color_silent(share(used, total));
    lemma_marks();
    lemma_size_plain(FormatSize((used * 1024) as u64));
    lemma_end_and_space_reads();
    lemma_memory_words();
    lemma_bar_reads();
    lemma_size_plain(FormatSize((avail * 1024) as u64));
    lemma_size_plain(FormatSize((total * 1024) as u64));
    let line = (color, Seq::<char>::empty());
    let line = lemma_then(line, BOLD@, Seq::<char>::empty());
    let line = lemma_then(line, size(used * 1024), size(used * 1024));
    let line = lemma_then(line, "\x1b[0m "@, " "@);
    let line = lemma_then(line, USED@, "Used"@);
    let line = lemma_then(line, " | "@, " | "@);
    let line = lemma_then(line, color, Seq::<char>::empty());
    let line = lemma_then(line, BOLD@, Seq::<char>::empty());
    let line = lemma_then(line, size(avail * 1024), size(avail * 1024));
    let line = lemma_then(line, "\x1b[0m "@, " "@);
    let line = lemma_then(line, AVAIL@, "Avail"@);
    let line = lemma_then(line, " | "@, " | "@);
    let line = lemma_then(line, CYAN_BOLD@, Seq::<char>::empty());
    let line = lemma_then(line, size(total * 1024), size(total * 1024));
    let line = lemma_then(line, "\x1b[0m "@, " "@);
    let line = lemma_then(line, TOTAL@, "Total"@);
    assert(line.1
            =~= size(used_kilobytes(total, avail) * 1024) + " "@ + "Used"@ + " | "@ + size(avail * 1024) + " "@
                + "Avail"@ + " | "@ + size(total * 1024) + " "@ + "Total"@);
}

/// The line of all swap devices tells what is in use, how much there is and the share in use.
pub proof fn law_swap_total_reads(used: nat, whole: nat)
    ensures
        reads(
            swap_total_shown(used, whole),
            size(used) + " Used | "@ + size(whole) + " Total | "@
                + fixed_of(product(share(used, whole), integer(100)), 1) + "% %Used"@,
        ),
{
    let color = swap_color(share(used, whole));
    lemma_swap_color_silent(share(used, whole));
    reveal_strlit(" Used | ");
    reveal_strlit(" Total | ");
    reveal_strlit("Used");
    reveal_strlit("Total");
    reveal_strlit(" ");
    reveal_strlit(" | ");
    lemma_marks();
    lemma_size_plain(FormatSize((used) as u64));
    lemma_end_and_space_reads();
    lemma_memory_words();
    lemma_bar_reads();
    lemma_size_plain(FormatSize((whole) as u64));
    lemma_fixed_plain(product(share(used, whole), integer(100)), 1);
    lemma_percent_percent_used_reads();
    let line = (color, Seq::<char>::empty());
    let line = lemma_then(line, BOLD@, Seq::<char>::empty());
    let line = lemma_then(line, size(used), size(used));
    let line = lemma_then(line, "\x1b[0m "@, " "@);
    let line = lemma_then(line, USED@, "Used"@);
    let line = lemma_then(line, " | "@, " | "@);
    let line = lemma_then(line, CYAN_BOLD@, Seq::<char>::empty());
    let line = lemma_then(line, BOLD@, Seq::<char>::empty());
    let line = lemma_then(line, size(whole), size(whole));
    let line = lemma_then(line, "\x1b[0m "@, " "@);
    let line = lemma_then(line, TOTAL@, "Total"@);
    let line = lemma_then(line, " | "@, " | "@);
    let line = lemma_then(line, color, Seq::<char>::empty());
    let line = lemma_then(line, BOLD@, Seq::<char>::empty());
    let line = lemma_then(
        line,
        fixed_of(product(share(used, whole), integer(100)), 1),
        fixed_of(product(share(used, whole), integer(100)), 1),
    );
    let line = lemma_then(line, "%\x1b[0m \x1b[0;37m%Used\x1b[0m"@, "% %Used"@);
    assert(line.1
            =~= size(used) + " Used | "@ + size(whole) + " Total | "@
                + fixed_of(product(share(used, whole), integer(100)), 1) + "% %Used"@);
}

/// The line of a swap device tells its name, what is in use and how much there is.
pub proof fn law_swap_reads(swap: Swap, width: nat)
    requires
        plain(swap.name),
    ensures
        reads(
            swap_shown(swap, width),
            " "@ + left_aligned(swap.name, width) + ": "@ + size(swap.used * 1024) + " Used / "@
                + size(swap.size * 1024) + " Total"@,
        ),
{
    let name = left_aligned(swap.name, width);
    law_plain_reads(name);
    lemma_space_reads();
    lemma_colon_reads();
    lemma_swap_color_silent(share(swap.used * 1024, swap.size * 1024));
    lemma_size_plain(FormatSize((swap.used * 1024) as u64));
    lemma_used_of_swap_reads();
    lemma_size_plain(FormatSize((swap.size * 1024) as u64));
    lemma_total_reads();
    let line = (" "@, " "@);
    let line = lemma_then(line, name, name);
    let line = lemma_then(line, ": "@, ": "@);
    let line = lemma_then(line, swap_color(share(swap.used * 1024, swap.size * 1024)), Seq::<char>::empty());
    let line = lemma_then(line, size(swap.used * 1024), size(swap.used * 1024));
    let line = lemma_then(line, "\x1b[0m \x1b[0;37mUsed\x1b[0m / \x1b[38;2;0;255;255m"@, " Used / "@);
    let line = lemma_then(line, size(swap.size * 1024), size(swap.size * 1024));
    let line = lemma_then(line, "\x1b[0m \x1b[0;37mTotal\x1b[0m"@, " Total"@);
    assert(line.1
            =~= " "@ + left_aligned(swap.name, width) + ": "@ + size(swap.used * 1024) + " Used / "@
                + size(swap.size * 1024) + " Total"@);
}

/// The line of the compressed swap tells its algorithm, the size of the pool and how often
/// what it holds fits into it.
pub proof fn law_zswap_reads(pool: nat, pages: nat, algo: Seq<char>)
    requires
        plain(algo),
    ensures
        reads(
            zswap_shown(Zswap::Detailed { pool, pages, algo }),
            "Enabled | Algo: "@ + algo + " | Pool: "@ + size(pool) + " | Ratio: "@
                + fixed_of(share(if pool > 0 { pages * 4096 } else { 0 }, pool), 1) + ":1"@,
        ),
{
    let ratio = share(if pool > 0 { pages * PAGE as nat } else { 0 }, pool);
    assert(ratio == share(if pool > 0 { pages * 4096 } else { 0 }, pool));
    law_plain_reads(algo);
    let pool_color = if pool > 0 { "\x1b[38;2;0;200;0m"@ } else { "\x1b[38;2;150;150;150m"@ };
    lemma_green_reads();
    lemma_gray_reads();
    let color = if crate::binary64::below(integer(0), ratio) { ratio_color(ratio) } else { RESET@ };
    lemma_ratio_color_silent(ratio);
    lemma_marks();
    lemma_enabled_bar_algo_reads();
    lemma_zswap_algo_color_silent(algo);
    lemma_marks();
    lemma_bar_pool_reads();
    lemma_size_plain(FormatSize((pool) as u64));
    lemma_bar_ratio_reads();
    lemma_fixed_plain(ratio, 1);
    lemma_to_one_reads();
    let line = ("\x1b[38;2;0;200;0m\x1b[1mEnabled\x1b[0m | \x1b[1mAlgo:\x1b[0m "@, "Enabled | Algo: "@);
    let line = lemma_then(line, zswap_algo_color(algo), Seq::<char>::empty());
    let line = lemma_then(line, BOLD@, Seq::<char>::empty());
    let line = lemma_then(line, algo, algo);
    let line = lemma_then(line, "\x1b[0m | \x1b[1mPool:\x1b[0m "@, " | Pool: "@);
    let line = lemma_then(line, pool_color, Seq::<char>::empty());
    let line = lemma_then(line, BOLD@, Seq::<char>::empty());
    let line = lemma_then(line, size(pool), size(pool));
    let line = lemma_then(line, "\x1b[0m | \x1b[1mRatio:\x1b[0m "@, " | Ratio: "@);
    let line = lemma_then(line, color, Seq::<char>::empty());
    let line = lemma_then(line, BOLD@, Seq::<char>::empty());
    let line = lemma_then(line, fixed_of(ratio, 1), fixed_of(ratio, 1));
    let line = lemma_then(line, ":1\x1b[0m"@, ":1"@);
    assert(line.1
            =~= "Enabled | Algo: "@ + algo + " | Pool: "@ + size(pool) + " | Ratio: "@
                + fixed_of(share(if pool > 0 { pages * 4096 } else { 0 }, pool), 1) + ":1"@);
}

/// The line of the compressed swap tells how it stands where its figures are not known.
pub proof fn law_zswap_state_reads()
    ensures
        reads(zswap_shown(Zswap::NotPresent), "Not Present"@),
        reads(zswap_shown(Zswap::Unknown), "Unknown"@),
        reads(zswap_shown(Zswap::Disabled), "Disabled"@),
        reads(zswap_shown(Zswap::Enabled), "Enabled (Requires sudo for detailed stats)"@),
{
    lemma_not_present_reads();
    lemma_unknown_reads();
    lemma_disabled_reads();
    lemma_enabled_requires_sudo_for_detailed_stats_reads();
}

// ---------------------------------------------------------------------------
// Processor and room
// ---------------------------------------------------------------------------

/// The limits of the hardware are told with the lower one as least and the upper one as most.
pub proof fn law_limits_read(s: Status, low: Number, high: Number)
    requires
        s.limits == (Some(low), Some(high)),
    ensures
        reads(
            limits_text(s),
            "Hardware Limits: "@ + fixed_of(low, 0) + " MHz Min | "@ + fixed_of(high, 0) + " MHz Max"@,
        ),
{
    lemma_hardware_limits_reads();
    lemma_fixed_plain(low, 0);
    lemma_mhz_min_bar_reads();
    lemma_fixed_plain(high, 0);
    lemma_mhz_max_reads();
    let line = ("\x1b[1mHardware Limits:\x1b[0m \x1b[1;38;2;100;255;100m"@, "Hardware Limits: "@);
    let line = lemma_then(line, fixed_of(low, 0), fixed_of(low, 0));
    let line = lemma_then(line, "\x1b[0m MHz Min | \x1b[1;38;2;255;0;0m"@, " MHz Min | "@);
    let line = lemma_then(line, fixed_of(high, 0), fixed_of(high, 0));
    let line = lemma_then(line, "\x1b[0m MHz Max"@, " MHz Max"@);
    assert(line.1 =~= "Hardware Limits: "@ + fixed_of(low, 0) + " MHz Min | "@ + fixed_of(high, 0) + " MHz Max"@);
}

/// Where there was an overclock, the highest stands behind the limits.
pub proof fn law_overclock_reads(s: Status, limits: Seq<char>, hoc: Number, now: u64, bright: bool)
    requires
        reads(limits_text(s), limits),
        s.highest_overclock == Some(hoc),
    ensures
        reads(overclock_line(s, now, bright), limits + " | "@ + ("HOC:"@ + " "@ + overclock_text(hoc))),
{
    lemma_marks();
    lemma_bar_reads();
    reveal_strlit("HOC:");
    lemma_overclock_plain(hoc);
    lemma_reads_plain(overclock_text(hoc));
    law_peak_reads("HOC:"@, overclock_text(hoc), VIOLET_BOLD@, fresh(s.hoc_last_peak, now), bright, true);
    let line = (limits_text(s), limits);
    let line = lemma_then(line, " | "@, " | "@);
    let line = lemma_then(
        line,
        watermark_text("HOC:"@, overclock_text(hoc), VIOLET_BOLD@, fresh(s.hoc_last_peak, now), bright, true),
        ("HOC:"@ + " "@ + overclock_text(hoc)),
    );
    assert(line.1 =~= limits + " | "@ + ("HOC:"@ + " "@ + overclock_text(hoc)));
}

/// The room is told with its temperature, the lowest and the highest.
pub proof fn law_room_reads(s: Status, temp: Number, now: u64, bright: bool)
    requires
        s.room_temp_val == Some(temp),
        silent(s.room_temp_tracker.min_color),
        silent(s.room_temp_tracker.max_color),
    ensures
        reads(
            thermometer_text(s, now, bright),
            "Room Temp: "@ + fixed_of(temp, 1) + "°C | "@
                + ("LRT:"@ + " "@ + degrees(s.room_temp_tracker.min_val)) + " | "@
                + ("HRT:"@ + " "@ + degrees(s.room_temp_tracker.max_val)),
        ),
{
    let p = s.room_temp_tracker;
    lemma_degrees_plain(p.min_val);
    lemma_degrees_plain(p.max_val);
    lemma_room_temp_reads();
    lemma_room_temp_color_silent(temp);
    lemma_marks();
    lemma_fixed_plain(temp, 1);
    lemma_degrees_bar_reads();
    reveal_strlit("LRT:");
    law_peak_reads("LRT:"@, degrees(p.min_val), p.min_color, fresh(p.last_min_peak, now), bright, false);
    lemma_bar_reads();
    reveal_strlit("HRT:");
    law_peak_reads("HRT:"@, degrees(p.max_val), p.max_color, fresh(p.last_max_peak, now), bright, false);
    let line = ("\x1b[1mRoom Temp:\x1b[0m "@, "Room Temp: "@);
    let line = lemma_then(line, room_temp_color(temp), Seq::<char>::empty());
    let line = lemma_then(line, BOLD@, Seq::<char>::empty());
    let line = lemma_then(line, fixed_of(temp, 1), fixed_of(temp, 1));
    let line = lemma_then(line, "°C\x1b[0m | "@, "°C | "@);
    let line = lemma_then(
        line,
        watermark_text("LRT:"@, degrees(p.min_val), p.min_color, fresh(p.last_min_peak, now), bright, false),
        ("LRT:"@ + " "@ + degrees(p.min_val)),
    );
    let line = lemma_then(line, " | "@, " | "@);
    let line = lemma_then(
        line,
        watermark_text("HRT:"@, degrees(p.max_val), p.max_color, fresh(p.last_max_peak, now), bright, false),
        ("HRT:"@ + " "@ + degrees(p.max_val)),
    );
    assert(line.1
            =~= "Room Temp: "@ + fixed_of(temp, 1) + "°C | "@
                + ("LRT:"@ + " "@ + degrees(s.room_temp_tracker.min_val)) + " | "@
                + ("HRT:"@ + " "@ + degrees(s.room_temp_tracker.max_val)));
}

proof fn lemma_degrees_plain(x: Number)
    ensures
        plain(degrees(x)),
{
    lemma_fixed_simple(x, 1);
    lemma_reads_plain(fixed_of(x, 1));
    reveal_strlit("°C");
    let s = degrees(x);
    assert forall|i: int| 0 <= i < s.len() implies #[trigger] s[i] != ESCAPE by {
        if i < fixed_of(x, 1).len() {
            assert(s[i] == fixed_of(x, 1)[i]);
        }
    }
}

/// A temperature is told with its label.
pub proof fn law_temperature_reads(
    t: Temperature,
    width: nat,
    highest: (Number, Seq<char>, Option<u64>),
    now: u64,
    bright: bool,
)
    requires
        plain(t.label),
        silent(t.color),
        silent(highest.1),
    ensures
        reads(
            temperature_cell(t, width, highest, now, bright),
            right_aligned(t.label, width) + ": "@ + number_text(t.val, 4, 1) + "°C"@
                + (if t.is_parent {
                     " | "@ + ("HT:"@ + " "@ + (number_text(highest.0, 4, 1) + "°C"@))
                 } else {
                     Seq::<char>::empty()
                 }),
        ),
{
    let name = right_aligned(t.label, width);
    law_plain_reads(name);
    law_silent_reads(t.color);
    lemma_heat_plain(highest.0);
    reveal_strlit("");
    law_plain_reads(""@);
    assert(""@ =~= Seq::<char>::empty());
    if t.is_parent {
        lemma_marks();
        lemma_colon_reads();
        lemma_number_plain(t.val, 4, 1);
        lemma_degrees_reads();
        lemma_bar_reads();
        reveal_strlit("HT:");
        law_peak_reads("HT:"@, number_text(highest.0, 4, 1) + "°C"@, highest.1, fresh(highest.2, now), bright, false);
        let line = (BOLD@, Seq::<char>::empty());
        let line = lemma_then(line, name, name);
        let line = lemma_then(line, ": "@, ": "@);
        let line = lemma_then(line, t.color, Seq::<char>::empty());
        let line = lemma_then(line, number_text(t.val, 4, 1), number_text(t.val, 4, 1));
        let line = lemma_then(line, "°C\x1b[0m"@, "°C"@);
        let line = lemma_then(line, " | "@, " | "@);
        let line = lemma_then(
            line,
            watermark_text(
                "HT:"@,
                number_text(highest.0, 4, 1) + "°C"@,
                highest.1,
                fresh(highest.2, now),
                bright,
                false,
            ),
            ("HT:"@ + " "@ + (number_text(highest.0, 4, 1) + "°C"@)),
        );
        assert(line.1
                =~= right_aligned(t.label, width) + ": "@ + number_text(t.val, 4, 1) + "°C"@
                    + (if t.is_parent {
                         " | "@ + ("HT:"@ + " "@ + (number_text(highest.0, 4, 1) + "°C"@))
                     } else {
                         Seq::<char>::empty()
                     }));
    }
    if !t.is_parent {
        lemma_colon_reads();
        lemma_number_plain(t.val, 4, 1);
        lemma_degrees_reads();
        let line = (""@, Seq::<char>::empty());
        let line = lemma_then(line, name, name);
        let line = lemma_then(line, ": "@, ": "@);
        let line = lemma_then(line, t.color, Seq::<char>::empty());
        let line = lemma_then(line, number_text(t.val, 4, 1), number_text(t.val, 4, 1));
        let line = lemma_then(line, "°C\x1b[0m"@, "°C"@);
        assert(line.1
                =~= right_aligned(t.label, width) + ": "@ + number_text(t.val, 4, 1) + "°C"@
                    + (if t.is_parent {
                         " | "@ + ("HT:"@ + " "@ + (number_text(highest.0, 4, 1) + "°C"@))
                     } else {
                         Seq::<char>::empty()
                     }));
    }
}

proof fn lemma_heat_plain(x: Number)
    ensures
        plain(number_text(x, 4, 1) + "°C"@),
{
    lemma_number_plain(x, 4, 1);
    lemma_reads_plain(number_text(x, 4, 1));
    reveal_strlit("°C");
    let s = number_text(x, 4, 1) + "°C"@;
    assert forall|i: int| 0 <= i < s.len() implies #[trigger] s[i] != ESCAPE by {
        if i < number_text(x, 4, 1).len() {
            assert(s[i] == number_text(x, 4, 1)[i]);
        }
    }
}

/// What is read of the frequency of a core, in megahertz up to a thousand, in gigahertz up
/// to a million of them and in terahertz from there on.
pub open spec fn frequency_read(freq: Number) -> Seq<char> {
    if crate::binary64::below(freq, integer(1000)) {
        dynamic_text(freq) + " MHz"@
    } else if crate::binary64::below(freq, integer(1_000_000)) {
        dynamic_text(quotient(freq, integer(1000))) + " GHz"@
    } else {
        dynamic_text(quotient(freq, integer(1_000_000))) + " THz"@
    }
}

proof fn lemma_core_line(n: Seq<char>, color: Seq<char>, shown: Seq<char>, unit: Seq<char>)
    requires
        reads(n, n),
        reads(color, Seq::empty()),
        reads(shown, shown),
        reads(unit, unit),
    ensures
        reads("C"@ + n + ": "@ + color + shown + " "@ + unit + RESET@, "C"@ + n + ": "@ + (shown + (" "@ + unit))),
{
    lemma_letter_reads();
    lemma_colon_reads();
    lemma_space_reads();
    lemma_marks();
    let line = ("C"@, "C"@);
    let line = lemma_then(line, n, n);
    let line = lemma_then(line, ": "@, ": "@);
    let line = lemma_then(line, color, Seq::<char>::empty());
    let line = lemma_then(line, shown, shown);
    let line = lemma_then(line, " "@, " "@);
    let line = lemma_then(line, unit, unit);
    let line = lemma_then(line, RESET@, Seq::<char>::empty());
    assert(line.1 =~= "C"@ + n + ": "@ + (shown + (" "@ + unit)));
}

proof fn lemma_hertz()
    ensures
        " "@ + "MHz"@ == " MHz"@ && reads("MHz"@, "MHz"@),
        " "@ + "GHz"@ == " GHz"@ && reads("GHz"@, "GHz"@),
        " "@ + "THz"@ == " THz"@ && reads("THz"@, "THz"@),
{
    reveal_strlit(" ");
    reveal_strlit("MHz");
    reveal_strlit("GHz");
    reveal_strlit("THz");
    reveal_strlit(" MHz");
    reveal_strlit(" GHz");
    reveal_strlit(" THz");
    assert(" "@ + "MHz"@ =~= " MHz"@);
    assert(" "@ + "GHz"@ =~= " GHz"@);
    assert(" "@ + "THz"@ =~= " THz"@);
    law_plain_reads("MHz"@);
    law_plain_reads("GHz"@);
    law_plain_reads("THz"@);
}

/// A core is told with its number and its frequency.
pub proof fn law_core_reads(s: Status, i: int)
    requires
        0 <= i < s.freqs.len(),
        s.freqs[i] !is Nan,
    ensures
        reads(core_cell(s, i), "C"@ + zero_filled(i as nat, 2) + ": "@ + frequency_read(s.freqs[i])),
{
    let freq = s.freqs[i];
    let load = quotient(
        crate::binary64::difference(freq, s.limits.0->0),
        crate::binary64::difference(s.limits.1->0, s.limits.0->0),
    );
    let color = if s.limits.0 is Some && s.limits.1 is Some {
        cpu_color(load)
    } else {
        ""@
    };
    lemma_cpu_color_silent(load);
    assert(reads(""@, Seq::empty())) by {
        reveal_strlit("");
        law_plain_reads(""@);
        assert(""@ =~= Seq::<char>::empty());
    }
    let n = zero_filled(i as nat, 2);
    lemma_digits_simple(i as nat);
    lemma_simple_plain(n);
    lemma_hertz();
    crate::binary64::law_integers_are_exact(1000);
    crate::binary64::law_integers_are_exact(1_000_000);
    vstd::arithmetic::power2::lemma_pow2_pos(1074);
    crate::binary64::law_numbers_are_ordered(freq, integer(1000), integer(1_000_000));
    crate::binary64::law_numbers_are_ordered(freq, integer(1_000_000), integer(1000));
    let (v, unit) = if crate::binary64::below(freq, integer(1000)) {
        (freq, "MHz"@)
    } else if crate::binary64::below(freq, integer(1_000_000)) {
        (quotient(freq, integer(1000)), "GHz"@)
    } else {
        (quotient(freq, integer(1_000_000)), "THz"@)
    };
    lemma_dynamic_plain(v);
    lemma_core_line(n, color, dynamic_text(v), unit);
}

proof fn lemma_idle_plain(t: FormatIdleTime)
    ensures
        simple(t.shown()),
        reads(t.shown(), t.shown()),
{
    let secs = t.0 as nat;
    reveal_strlit(" Years ");
    reveal_strlit(" Months ");
    reveal_strlit(" Days ");
    reveal_strlit(":");
    reveal_strlit("s");
    lemma_digits_simple(crate::units::years_in(secs));
    lemma_digits_simple(crate::units::months_in(secs));
    lemma_digits_simple(crate::units::days_in(secs));
    lemma_digits_simple(crate::units::hours_in(secs));
    lemma_digits_simple(crate::units::minutes_in(secs));
    lemma_digits_simple(secs % 60);
    assert(simple(crate::units::clock_text(secs)));
    lemma_simple_plain(t.shown());
}

pub(crate) proof fn lemma_digits_simple(n: nat)
    ensures
        simple(decimal_of(n)),
        simple(zero_filled(n, 2)),
{
    lemma_decimal_digits(n);
    law_zero_filled_reads_back(n, 2);
    assert forall|i: int| 0 <= i < decimal_of(n).len() implies ' ' <= #[trigger] decimal_of(n)[i] <= '~' by {
        assert(is_digit(decimal_of(n)[i]));
    }
    assert forall|i: int| 0 <= i < zero_filled(n, 2).len() implies ' ' <= #[trigger] zero_filled(n, 2)[i] <= '~' by {
        assert(is_digit(zero_filled(n, 2)[i]));
    }
}

/// The user is told to be active for five seconds, and behind them for how long there was no
/// activity.
pub proof fn law_activity_reads(s: Status)
    requires
        whole_seconds(s.idle_time) <= u64::MAX,
    ensures
        reads(
            activity_text(s),
            "User Activity: "@
                + (if whole_seconds(s.idle_time) < 5 {
                     "ACTIVE"@
                 } else {
                     "IDLE "@ + FormatIdleTime(whole_seconds(s.idle_time) as u64).shown()
                 }),
        ),
{
    let secs = whole_seconds(s.idle_time);
    reveal_strlit("User Activity: ACTIVE");
    reveal_strlit("User Activity: ");
    reveal_strlit("ACTIVE");
    if secs < 5 {
        lemma_user_activity_active_reads();
        assert("User Activity: ACTIVE"@
                =~= "User Activity: "@
                    + (if whole_seconds(s.idle_time) < 5 {
                         "ACTIVE"@
                     } else {
                         "IDLE "@ + FormatIdleTime(whole_seconds(s.idle_time) as u64).shown()
                     }));
    }
    if secs >= 5 {
        lemma_user_activity_reads();
        lemma_idle_color_silent(secs);
        lemma_idle_reads();
        lemma_idle_plain(FormatIdleTime(secs as u64));
        lemma_marks();
        let line = ("\x1b[1mUser Activity:\x1b[0m \x1b[1m"@, "User Activity: "@);
        let line = lemma_then(line, idle_color(secs), Seq::<char>::empty());
        let line = lemma_then(line, "IDLE "@, "IDLE "@);
        let line = lemma_then(line, FormatIdleTime(secs as u64).shown(), FormatIdleTime(secs as u64).shown());
        let line = lemma_then(line, RESET@, Seq::<char>::empty());
        assert(line.1
                =~= "User Activity: "@
                    + (if whole_seconds(s.idle_time) < 5 {
                         "ACTIVE"@
                     } else {
                         "IDLE "@ + FormatIdleTime(whole_seconds(s.idle_time) as u64).shown()
                     }));
    }
}

} // verus!
