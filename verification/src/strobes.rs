//! Which peak strobes and in which colour: each by its own time and its own value.

use crate::binary64::Number;
use crate::color::{disk_speed_color, room_temp_color, BOLD, VIOLET_BOLD};
use crate::layout::right_aligned;
use crate::network::{Change, Traffic};
use crate::peaks::{fresh, watermark_text, Peaks, Watermarks};
use crate::render::{
    degrees, highest_heat, iface_text, iface_width, net_peaks_text, overclock_line, pace_text,
    temperature_cell, thermometer_text,
};
use crate::state::{Note, Status};
use crate::table::value_of;
use crate::text::{begins_with, finishes_with, holds, occurs_at};
use crate::thermal::Temperature;
use crate::units::{disk_speed_text, net_speed_text, number_text, overclock_text};
use vstd::prelude::*;

verus! {

proof fn lemma_start(a: Seq<char>, b: Seq<char>)
    ensures
        begins_with(a + b, a),
{
    assert((a + b).subrange(0, a.len() as int) =~= a);
}

proof fn lemma_end(a: Seq<char>, b: Seq<char>)
    ensures
        finishes_with(a + b, b),
{
    let s = a + b;
    assert(s.subrange(s.len() - b.len(), s.len() as int) =~= b);
}

proof fn lemma_middle(a: Seq<char>, b: Seq<char>, c: Seq<char>)
    ensures
        holds(a + b + c, b),
{
    let s = a + b + c;
    let at = a.len() as int;
    assert(s.subrange(at, at + b.len()) =~= b);
    assert(occurs_at(s, b, at));
}

/// The peak of reading strobes by its own time, and so does that of writing; each is that of
/// its own direction. Each speed is coloured by the peak of its own direction.
#[verifier::spinoff_prover]
pub proof fn law_device_strobes(r: Number, w: Number, marks: Watermarks, now: u64, bright: bool)
    ensures
        begins_with(pace_text(r, w, marks, now, bright), disk_speed_color(r, marks.read.current)),
        holds(
            pace_text(r, w, marks, now, bright),
            disk_speed_color(w, marks.write.current) + BOLD@ + disk_speed_text(w),
        ),
        holds(
            pace_text(r, w, marks, now, bright),
            watermark_text(
                "HR:"@,
                disk_speed_text(marks.read.current),
                VIOLET_BOLD@,
                fresh(marks.read.last_peak, now),
                bright,
                false,
            ),
        ),
        finishes_with(
            pace_text(r, w, marks, now, bright),
            watermark_text(
                "HW:"@,
                disk_speed_text(marks.write.current),
                VIOLET_BOLD@,
                fresh(marks.write.last_peak, now),
                bright,
                false,
            ),
        ),
{
    let read = watermark_text(
        "HR:"@,
        disk_speed_text(marks.read.current),
        VIOLET_BOLD@,
        fresh(marks.read.last_peak, now),
        bright,
        false,
    );
    let write = watermark_text(
        "HW:"@,
        disk_speed_text(marks.write.current),
        VIOLET_BOLD@,
        fresh(marks.write.last_peak, now),
        bright,
        false,
    );
    lemma_pace_parts(
        disk_speed_color(r, marks.read.current),
        BOLD@,
        disk_speed_text(r),
        "\x1b[0m \x1b[1;37mR↑\x1b[0m  "@,
        disk_speed_color(w, marks.write.current),
        disk_speed_text(w),
        "\x1b[0m \x1b[1;37mW↓\x1b[0m  "@,
        read,
        "  "@,
        write,
    );
}

proof fn lemma_pace_parts(
    a: Seq<char>,
    bold: Seq<char>,
    x: Seq<char>,
    up: Seq<char>,
    b: Seq<char>,
    y: Seq<char>,
    down: Seq<char>,
    read: Seq<char>,
    gap: Seq<char>,
    write: Seq<char>,
)
    ensures
        ({
            let s = a + bold + x + up + b + bold + y + down + read + gap + write;
            &&& begins_with(s, a)
            &&& holds(s, b + bold + y)
            &&& holds(s, read)
            &&& finishes_with(s, write)
        }),
{
    let s = a + bold + x + up + b + bold + y + down + read + gap + write;
    lemma_start(a, bold + x + up + b + bold + y + down + read + gap + write);
    assert(s =~= a + (bold + x + up + b + bold + y + down + read + gap + write));
    lemma_middle(a + bold + x + up, b + bold + y, down + read + gap + write);
    assert(s =~= a + bold + x + up + (b + bold + y) + (down + read + gap + write));
    lemma_middle(a + bold + x + up + b + bold + y + down, read, gap + write);
    assert(s =~= a + bold + x + up + b + bold + y + down + read + (gap + write));
    lemma_end(a + bold + x + up + b + bold + y + down + read + gap, write);
}

/// The peak of receiving strobes by its own time and in its own colour, and so does that of
/// sending.
pub proof fn law_interface_strobes(pair: (Peaks, Peaks), now: u64, bright: bool)
    ensures
        begins_with(
            net_peaks_text(pair, now, bright),
            watermark_text(
                "H↓:"@,
                net_speed_text(pair.0.max_val),
                pair.0.max_color,
                fresh(pair.0.last_max_peak, now),
                bright,
                false,
            ),
        ),
        finishes_with(
            net_peaks_text(pair, now, bright),
            watermark_text(
                "H↑:"@,
                net_speed_text(pair.1.max_val),
                pair.1.max_color,
                fresh(pair.1.last_max_peak, now),
                bright,
                false,
            ),
        ),
{
    let down = watermark_text(
        "H↓:"@,
        net_speed_text(pair.0.max_val),
        pair.0.max_color,
        fresh(pair.0.last_max_peak, now),
        bright,
        false,
    );
    let up = watermark_text(
        "H↑:"@,
        net_speed_text(pair.1.max_val),
        pair.1.max_color,
        fresh(pair.1.last_max_peak, now),
        bright,
        false,
    );
    let s = net_peaks_text(pair, now, bright);
    assert(s.subrange(0, down.len() as int) =~= down);
    assert(s.subrange(s.len() - up.len(), s.len() as int) =~= up);
}

/// The lowest and the highest temperature of the room strobe each by its own time and in its
/// own colour; the temperature itself is in the colour of what it is.
pub proof fn law_room_strobes(s: Status, temp: Number, now: u64, bright: bool)
    requires
        s.room_temp_val == Some(temp),
    ensures
        ({
            let p = s.room_temp_tracker;
            let text = thermometer_text(s, now, bright);
            &&& begins_with(text, "\x1b[1mRoom Temp:\x1b[0m "@ + room_temp_color(temp))
            &&& holds(
                text,
                watermark_text(
                    "LRT:"@,
                    degrees(p.min_val),
                    p.min_color,
                    fresh(p.last_min_peak, now),
                    bright,
                    false,
                ),
            )
            &&& finishes_with(
                text,
                watermark_text(
                    "HRT:"@,
                    degrees(p.max_val),
                    p.max_color,
                    fresh(p.last_max_peak, now),
                    bright,
                    false,
                ),
            )
        }),
{
    let p = s.room_temp_tracker;
    let low = watermark_text("LRT:"@, degrees(p.min_val), p.min_color, fresh(p.last_min_peak, now), bright, false);
    let high = watermark_text("HRT:"@, degrees(p.max_val), p.max_color, fresh(p.last_max_peak, now), bright, false);
    let start = "\x1b[1mRoom Temp:\x1b[0m "@ + room_temp_color(temp);
    lemma_room_parts(
        start,
        BOLD@,
        crate::decimal::fixed_of(temp, 1),
        "°C\x1b[0m | "@,
        low,
        " | "@,
        high,
    );
}

proof fn lemma_room_parts(
    start: Seq<char>,
    bold: Seq<char>,
    x: Seq<char>,
    unit: Seq<char>,
    low: Seq<char>,
    bar: Seq<char>,
    high: Seq<char>,
)
    ensures
        ({
            let s = start + bold + x + unit + low + bar + high;
            begins_with(s, start) && holds(s, low) && finishes_with(s, high)
        }),
{
    let s = start + bold + x + unit + low + bar + high;
    lemma_start(start, bold + x + unit + low + bar + high);
    assert(s =~= start + (bold + x + unit + low + bar + high));
    lemma_middle(start + bold + x + unit, low, bar + high);
    assert(s =~= start + bold + x + unit + low + (bar + high));
    lemma_end(start + bold + x + unit + low + bar, high);
}

/// The highest overclock strobes by its own time, and the highest temperature of a chip by
/// that of the chip, in its colour.
pub proof fn law_highest_strobe(
    s: Status,
    hoc: Number,
    chip: Seq<char>,
    t: Temperature,
    p: Peaks,
    width: nat,
    now: u64,
    bright: bool,
)
    requires
        s.highest_overclock == Some(hoc),
        t.is_parent,
        value_of(s.parent_ht_trackers, chip) == Some(p),
    ensures
        finishes_with(
            overclock_line(s, now, bright),
            watermark_text("HOC:"@, overclock_text(hoc), VIOLET_BOLD@, fresh(s.hoc_last_peak, now), bright, true),
        ),
        finishes_with(
            temperature_cell(t, width, highest_heat(s.parent_ht_trackers, chip), now, bright),
            watermark_text(
                "HT:"@,
                number_text(p.max_val, 4, 1) + "°C"@,
                p.max_color,
                fresh(p.last_max_peak, now),
                bright,
                false,
            ),
        ),
{
    let hoc_text = watermark_text(
        "HOC:"@,
        overclock_text(hoc),
        VIOLET_BOLD@,
        fresh(s.hoc_last_peak, now),
        bright,
        true,
    );
    lemma_end(crate::render::limits_text(s) + " | "@, hoc_text);
    let heat = watermark_text(
        "HT:"@,
        number_text(p.max_val, 4, 1) + "°C"@,
        p.max_color,
        fresh(p.last_max_peak, now),
        bright,
        false,
    );
    let shown = BOLD@ + right_aligned(t.label, width) + ": "@ + t.color + number_text(t.val, 4, 1) + "°C\x1b[0m"@;
    lemma_end(shown + " | "@, heat);
}

/// An interface that has come is announced in green, one that has gone in yellow.
pub proof fn law_announcements_are_colored(s: Status, node: Traffic, change: Change, time: u64, now: u64, bright: bool)
    requires
        value_of(s.net_events, node.iface) == Some(Note { change, time }),
        time <= now,
        now - time < 5_000_000_000,
    ensures
        begins_with(
            iface_text(s, node, now, bright),
            right_aligned(node.iface, iface_width(s.raw_net_nodes)) + ": \x1b[1m"@ + (if change
                == Change::Activated {
                "\x1b[38;2;0;200;0m"@
            } else {
                "\x1b[38;2;255;255;0m"@
            }),
        ),
{
    let color = if change == Change::Activated {
        "\x1b[38;2;0;200;0m"@
    } else {
        "\x1b[38;2;255;255;0m"@
    };
    let start = right_aligned(node.iface, iface_width(s.raw_net_nodes)) + ": \x1b[1m"@ + color;
    let s = iface_text(s, node, now, bright);
    assert(s.subrange(0, start.len() as int) =~= start);
}

} // verus!
