//! The screen: what stands in its rows.

use crate::binary64::{at_most, difference, fraction, integer, larger, product, quotient, Number, Real};
use crate::cli::{title, title_text};
use crate::color::{
    cpu_color, disk_capacity_color, disk_speed_color, get_cpu_color, get_disk_capacity_color,
    get_exp_disk_speed_color, get_idle_color, get_net_color, get_room_temp_color, idle_color, net_color,
    room_temp_color, BOLD, RESET, VIOLET_BOLD, WHITE_BOLD,
};
use crate::decimal::{decimal_filled, fixed, fixed_of, zero_filled};
use crate::grid::{aligned_2col_grid, column_count, columns, grid, grid_rows, two_columns, MIN_CELL_WIDTH};
use crate::layout::{
    align_right, dashed_line, get_dashed_line, repeat, repeated, right_aligned, strip_ansi, width_of,
};
use crate::network::{Change, NetNode, Traffic};
use crate::order::views;
use crate::peaks::{
    elapsed, fresh, is_blink_active, time_since, watermark_text, write_watermark_buf,
    write_watermark_inline, Peaks, StorageHrHwState, ValuePeakTracker, Watermarks, SECOND,
};
use crate::span::whole_seconds;
use crate::state::{
    after_all, law_heat_outlasts_messages, told, Msg, Note, Status, SystemState, HOT, NOTE_SECONDS,
};
use crate::storage::{DiskNode, DiskNodeRaw};
use crate::table::{find, lemma_slot, rows_of, value_of, Entry};
use crate::text::{byte_length, bytes_in, texts};
use crate::thermal::{Chiplets, TempStat, Temperature, Zones};
use crate::units::{
    disk_speed_text, dynamic_text, net_speed_text, number, number_text, overclock_text, share, share_of,
    FormatDiskSpeed, FormatDynamic6, FormatHoc, FormatIdleTime, FormatNetSpeed, FormatSize,
};
use vstd::prelude::*;

verus! {

// ---------------------------------------------------------------------------
// Rows
// ---------------------------------------------------------------------------

/// When the rest of a row is cleared: before its text is written, after it, or not
/// at all.
#[derive(Clone, Copy, Debug, PartialEq, Eq, Structural)]
pub enum Erase {
    Before,
    After,
    Never,
}

/// A row of the screen.
pub struct Row {
    pub text: String,
    pub erase: Erase,
}

/// A row of the screen.
#[verifier::ext_equal]
pub struct Line {
    pub text: Seq<char>,
    pub erase: Erase,
}

impl View for Row {
    type V = Line;

    open spec fn view(&self) -> Line {
        Line { text: self.text@, erase: self.erase }
    }
}

/// A row whose rest is cleared behind its text.
pub open spec fn line(text: Seq<char>) -> Line {
    Line { text, erase: Erase::After }
}

/// A row that is cleared before its text is written.
pub open spec fn fresh_line(text: Seq<char>) -> Line {
    Line { text, erase: Erase::Before }
}

/// Rows with these texts.
pub open spec fn lines_with(texts: Seq<Seq<char>>, erase: Erase) -> Seq<Line> {
    Seq::new(texts.len(), |i: int| Line { text: texts[i], erase })
}

fn push_row(rows: &mut Vec<Row>, text: String, erase: Erase)
    ensures
        views(final(rows)@) == views(old(rows)@).push(Line { text: text@, erase }),
{
    let ghost before = rows@;
    let row = Row { text, erase };
    rows.push(row);
    proof {
        assert(views(rows@) =~= views(before).push(row@));
    }
}

fn push_rows(rows: &mut Vec<Row>, list: &Vec<String>, erase: Erase)
    ensures
        views(final(rows)@) == views(old(rows)@) + lines_with(texts(list@), erase),
{
    let ghost start = views(rows@);
    let ghost more = lines_with(texts(list@), erase);
    let mut i: usize = 0;
    proof {
        assert(start + more.take(0) =~= start);
    }
    while i < list.len()
        invariant
            i <= list.len(),
            more == lines_with(texts(list@), erase),
            views(rows@) == start + more.take(i as int),
        decreases list.len() - i,
    {
        push_row(rows, list[i].clone(), erase);
        proof {
            assert(more[i as int] == (Line { text: list@[i as int]@, erase }));
            assert(start + more.take(i + 1) =~= (start + more.take(i as int)).push(more[i as int]));
        }
        i = i + 1;
    }
    proof {
        assert(more.take(list.len() as int) =~= more);
    }
}

fn push_section(rows: &mut Vec<Row>, more: Vec<Row>)
    ensures
        views(final(rows)@) == views(old(rows)@) + views(more@),
{
    let ghost before = rows@;
    let mut more = more;
    let ghost added = more@;
    rows.append(&mut more);
    proof {
        assert(views(rows@) =~= views(before) + views(added));
    }
}

/// The rule above a section, with its name in gold.
pub open spec fn section_rule(width: nat, name: Seq<char>) -> Line {
    fresh_line(dashed_line(width, "\x1b[1;38;2;255;215;0m"@ + name + RESET@))
}

fn push_rule(rows: &mut Vec<Row>, width: u16, name: &str)
    ensures
        views(final(rows)@) == views(old(rows)@).push(section_rule(width as nat, name@)),
{
    let mut text = "\x1b[1;38;2;255;215;0m".to_owned();
    text.append(name);
    text.append(RESET);
    push_row(rows, get_dashed_line(width as usize, text.as_str()), Erase::Before);
}

/// A section: the rule above it, a line on the whole, and its items in two columns.
#[verifier::opaque]
pub open spec fn section_rows(width: u16, name: Seq<char>, total: Seq<char>, items: Seq<Seq<char>>) -> Seq<Line> {
    seq![section_rule(width as nat, name), line(total)] + lines_with(two_columns(items, width as nat), Erase::After)
}

fn section(width: u16, name: &str, total: String, items: &Vec<String>) -> (rows: Vec<Row>)
    ensures
        views(rows@) == section_rows(width, name@, total@, texts(items@)),
{
    proof {
        reveal(section_rows);
    }
    let mut rows: Vec<Row> = Vec::new();
    proof {
        assert(views(rows@) =~= Seq::empty());
    }
    push_rule(&mut rows, width, name);
    push_row(&mut rows, total, Erase::After);
    push_rows(&mut rows, &aligned_2col_grid(items, width), Erase::After);
    rows
}

// ---------------------------------------------------------------------------
// Header
// ---------------------------------------------------------------------------

/// The frequencies between which the hardware is meant to run.
pub open spec fn limits_text(s: Status) -> Seq<char> {
    if s.limits.0 is Some && s.limits.1 is Some {
        "\x1b[1mHardware Limits:\x1b[0m \x1b[1;38;2;100;255;100m"@ + fixed_of(s.limits.0->0, 0)
            + "\x1b[0m MHz Min | \x1b[1;38;2;255;0;0m"@ + fixed_of(s.limits.1->0, 0) + "\x1b[0m MHz Max"@
    } else if s.is_vm {
        "\x1b[1mHardware Limits:\x1b[0m \x1b[38;2;255;165;0mVM detected, limits not exposed\x1b[0m"@
    } else {
        "\x1b[1mHardware Limits:\x1b[0m \x1b[38;2;255;0;0mUnavailable\x1b[0m"@
    }
}

/// The limits, and the highest overclock where there was one.
pub open spec fn overclock_line(s: Status, now: u64, bright: bool) -> Seq<char> {
    match s.highest_overclock {
        Some(hoc) => limits_text(s) + " | "@ + watermark_text(
            "HOC:"@,
            overclock_text(hoc),
            VIOLET_BOLD@,
            fresh(s.hoc_last_peak, now),
            bright,
            true,
        ),
        None => limits_text(s),
    }
}

/// A user is active up to this many seconds.
pub const ACTIVE_SECONDS: u64 = 5;

/// Whether the user is active, or for how long they have been idle.
pub open spec fn activity_text(s: Status) -> Seq<char> {
    let secs = whole_seconds(s.idle_time);
    if secs < ACTIVE_SECONDS {
        "\x1b[1mUser Activity:\x1b[0m \x1b[1m\x1b[38;2;0;255;255mACTIVE\x1b[0m"@
    } else {
        "\x1b[1mUser Activity:\x1b[0m \x1b[1m"@ + idle_color(secs) + "IDLE "@ + FormatIdleTime(
            secs as u64,
        ).shown() + RESET@
    }
}

/// The rows above the sections.
#[verifier::opaque]
pub open spec fn header_rows(s: Status, version: Seq<char>, now: u64, bright: bool) -> Seq<Line> {
    seq![
        line(title_text(version)),
        line(BOLD@ + s.cpu_model_display + RESET@),
        line("\x1b[1;35mType 'Q' or Ctrl+C to quit.\x1b[0m"@),
        line(overclock_line(s, now, bright)),
        line(activity_text(s)),
    ]
}

impl SystemState {
    fn limits_line(&self) -> (s: String)
        ensures
            s@ == limits_text(self@),
    {
        proof {
            self.lemma_status();
        }
        match self.limits {
            (Some(min), Some(max)) => {
                let mut s = "\x1b[1mHardware Limits:\x1b[0m \x1b[1;38;2;100;255;100m".to_owned();
                s.append(fixed(&min, 0).as_str());
                s.append("\x1b[0m MHz Min | \x1b[1;38;2;255;0;0m");
                s.append(fixed(&max, 0).as_str());
                s.append("\x1b[0m MHz Max");
                s
            },
            _ => {
                if self.is_vm {
                    "\x1b[1mHardware Limits:\x1b[0m \x1b[38;2;255;165;0mVM detected, limits not exposed\x1b[0m".to_owned()
                } else {
                    "\x1b[1mHardware Limits:\x1b[0m \x1b[38;2;255;0;0mUnavailable\x1b[0m".to_owned()
                }
            },
        }
    }

    fn header(&self, version: &str, now: u64, bright: bool) -> (rows: Vec<Row>)
        ensures
            views(rows@) == header_rows(self@, version@, now, bright),
    {
        proof {
            self.lemma_status();
            reveal(header_rows);
        }
        let mut rows: Vec<Row> = Vec::new();
        proof {
            assert(views(rows@) =~= Seq::empty());
        }
        push_row(&mut rows, title(version), Erase::After);
        let mut model = BOLD.to_owned();
        model.append(self.cpu_model_display.as_str());
        model.append(RESET);
        push_row(&mut rows, model, Erase::After);
        push_row(&mut rows, "\x1b[1;35mType 'Q' or Ctrl+C to quit.\x1b[0m".to_owned(), Erase::After);
        let mut limits = self.limits_line();
        match self.highest_overclock {
            Some(hoc) => {
                limits.append(" | ");
                limits.append(
                    write_watermark_inline(
                        "HOC:",
                        FormatHoc(hoc).text().as_str(),
                        VIOLET_BOLD,
                        is_blink_active(self.hoc_last_peak, now),
                        bright,
                        true,
                    ).as_str(),
                );
            },
            None => {},
        }
        push_row(&mut rows, limits, Erase::After);
        let idle: u64 = self.idle_time.as_secs();
        let activity = if idle < ACTIVE_SECONDS {
            "\x1b[1mUser Activity:\x1b[0m \x1b[1m\x1b[38;2;0;255;255mACTIVE\x1b[0m".to_owned()
        } else {
            let mut s = "\x1b[1mUser Activity:\x1b[0m \x1b[1m".to_owned();
            s.append(get_idle_color(idle).as_str());
            s.append("IDLE ");
            s.append(FormatIdleTime(idle).text().as_str());
            s.append(RESET);
            s
        };
        push_row(&mut rows, activity, Erase::After);
        rows
    }
}

// ---------------------------------------------------------------------------
// Temperatures
// ---------------------------------------------------------------------------

/// How long the warning of a hot room stands, in seconds.
pub const WARNING_SECONDS: u64 = 300;

/// The room was hot not long ago.
pub open spec fn warns(s: Status, now: u64) -> bool {
    match s.last_room_hot_time {
        Some(t) => elapsed(t, now) / (SECOND as int) < WARNING_SECONDS,
        None => false,
    }
}

/// A peak in degrees.
pub open spec fn degrees(x: Number) -> Seq<char> {
    fixed_of(x, 1) + "°C"@
}

/// The temperature of the room, its lowest and its highest.
pub open spec fn thermometer_text(s: Status, now: u64, bright: bool) -> Seq<char> {
    match s.room_temp_val {
        Some(temp) => {
            let p = s.room_temp_tracker;
            "\x1b[1mRoom Temp:\x1b[0m "@ + room_temp_color(temp) + BOLD@ + fixed_of(temp, 1) + "°C\x1b[0m | "@
                + watermark_text(
                "LRT:"@,
                degrees(p.min_val),
                p.min_color,
                fresh(p.last_min_peak, now),
                bright,
                false,
            ) + " | "@ + watermark_text(
                "HRT:"@,
                degrees(p.max_val),
                p.max_color,
                fresh(p.last_max_peak, now),
                bright,
                false,
            )
        },
        None => "\x1b[1mRoom Temp:\x1b[0m \x1b[38;2;255;0;0mNo thermometer detected\x1b[0m"@,
    }
}

/// The warning of a hot room.
pub open spec fn warning_text(bright: bool) -> Seq<char> {
    " "@ + (if bright {
        "\x1b[1;38;2;255;165;0mWARNING:\x1b[0m"@
    } else {
        "\x1b[38;2;255;165;0mWARNING:\x1b[0m"@
    }) + " \x1b[1;38;2;238;130;238mAmbient Temp is too HOT! Consider Shutting Down!\x1b[0m"@
}

/// The room, and the warning while it stands, also where the thermometer is gone.
pub open spec fn room_text(s: Status, now: u64, bright: bool) -> Seq<char> {
    if warns(s, now) {
        thermometer_text(s, now, bright) + warning_text(bright)
    } else {
        thermometer_text(s, now, bright)
    }
}

/// The widest label, in bytes, and at least four.
pub open spec fn label_width(stats: Seq<Temperature>) -> nat
    decreases stats.len(),
{
    if stats.len() == 0 {
        4
    } else {
        let front = label_width(stats.drop_last());
        if byte_length(stats.last().label) > front {
            byte_length(stats.last().label)
        } else {
            front
        }
    }
}

/// The highest temperature of a chip with its colour and time, or what stands in its
/// place.
pub open spec fn highest_heat(trackers: Seq<(Seq<char>, Peaks)>, chip: Seq<char>) -> (
    Number,
    Seq<char>,
    Option<u64>,
) {
    match value_of(trackers, chip) {
        Some(p) => (p.max_val, p.max_color, p.last_max_peak),
        None => (integer(0), WHITE_BOLD@, None),
    }
}

/// A temperature; beside that of a package stands the highest of the chip.
pub open spec fn temperature_cell(
    t: Temperature,
    width: nat,
    highest: (Number, Seq<char>, Option<u64>),
    now: u64,
    bright: bool,
) -> Seq<char> {
    let shown = (if t.is_parent {
        BOLD@
    } else {
        ""@
    }) + right_aligned(t.label, width) + ": "@ + t.color + number_text(t.val, 4, 1) + "°C\x1b[0m"@;
    if t.is_parent {
        shown + " | "@ + watermark_text(
            "HT:"@,
            number_text(highest.0, 4, 1) + "°C"@,
            highest.1,
            fresh(highest.2, now),
            bright,
            false,
        )
    } else {
        shown
    }
}

/// The temperatures of a chip.
pub open spec fn temperature_cells(
    stats: Seq<Temperature>,
    highest: (Number, Seq<char>, Option<u64>),
    now: u64,
    bright: bool,
) -> Seq<Seq<char>> {
    Seq::new(stats.len(), |i: int| temperature_cell(stats[i], label_width(stats), highest, now, bright))
}

/// The rows of a chip: its name, and the grid of its temperatures.
pub open spec fn zone_rows(s: Status, zone: (Seq<char>, Seq<Temperature>), now: u64, bright: bool) -> Seq<Line> {
    if zone.1.len() == 0 {
        Seq::empty()
    } else {
        let cells = temperature_cells(zone.1, highest_heat(s.parent_ht_trackers, zone.0), now, bright);
        seq![line("\x1b[1mCPU Temps ("@ + zone.0 + "):\x1b[0m"@)] + lines_with(
            grid_rows(cells, columns(s.width as nat, zone.1.len())),
            Erase::Before,
        )
    }
}

/// The rows of these chips.
pub open spec fn zones_rows(s: Status, zones: Zones, now: u64, bright: bool) -> Seq<Line>
    decreases zones.len(),
{
    if zones.len() == 0 {
        Seq::empty()
    } else {
        zones_rows(s, zones.drop_last(), now, bright) + zone_rows(s, zones.last(), now, bright)
    }
}

/// The rows of the temperatures.
#[verifier::opaque]
pub open spec fn temperature_rows(s: Status, now: u64, bright: bool) -> Seq<Line> {
    seq![section_rule(s.width as nat, "Temperature Heat-Map"@), line(room_text(s, now, bright))] + zones_rows(
        s,
        s.cpu_temps,
        now,
        bright,
    )
}

fn degrees_text(x: &Real) -> (s: String)
    ensures
        s@ == degrees(x@),
{
    let mut s = fixed(x, 1);
    s.append("°C");
    s
}

fn warning_shown(bright: bool) -> (s: String)
    ensures
        s@ == warning_text(bright),
{
    let mut s = " ".to_owned();
    if bright {
        s.append("\x1b[1;38;2;255;165;0mWARNING:\x1b[0m");
    } else {
        s.append("\x1b[38;2;255;165;0mWARNING:\x1b[0m");
    }
    s.append(" \x1b[1;38;2;238;130;238mAmbient Temp is too HOT! Consider Shutting Down!\x1b[0m");
    s
}

fn cell_of(
    t: &TempStat,
    width: usize,
    val: &Real,
    color: &str,
    peak: Option<u64>,
    now: u64,
    bright: bool,
) -> (s: String)
    ensures
        s@ == temperature_cell(t@, width as nat, (val@, color@, peak), now, bright),
{
    let mut s = if t.is_parent {
        BOLD.to_owned()
    } else {
        "".to_owned()
    };
    s.append(align_right(t.label.as_str(), width).as_str());
    s.append(": ");
    s.append(t.color.as_str());
    s.append(number(&t.val, 4, 1).as_str());
    s.append("°C\x1b[0m");
    if t.is_parent {
        s.append(" | ");
        let mut highest = number(val, 4, 1);
        highest.append("°C");
        write_watermark_buf(&mut s, "HT:", highest.as_str(), color, is_blink_active(peak, now), bright, false);
    }
    s
}

fn cells_of(
    stats: &Vec<TempStat>,
    val: &Real,
    color: &str,
    peak: Option<u64>,
    now: u64,
    bright: bool,
) -> (cells: Vec<String>)
    ensures
        texts(cells@) == temperature_cells(views(stats@), (val@, color@, peak), now, bright),
{
    let ghost all = views(stats@);
    let mut width: usize = 4;
    let mut k: usize = 0;
    proof {
        assert(all.take(0) =~= Seq::empty());
    }
    while k < stats.len()
        invariant
            k <= stats.len(),
            all == views(stats@),
            width == label_width(all.take(k as int)),
        decreases stats.len() - k,
    {
        proof {
            assert(all.take(k + 1).drop_last() =~= all.take(k as int));
            assert(all.take(k + 1).last() == stats@[k as int]@);
        }
        let n: usize = bytes_in(stats[k].label.as_str());
        if n > width {
            width = n;
        }
        k = k + 1;
    }
    proof {
        assert(all.take(all.len() as int) =~= all);
    }
    let mut cells: Vec<String> = Vec::new();
    let mut i: usize = 0;
    while i < stats.len()
        invariant
            i <= stats.len(),
            all == views(stats@),
            width == label_width(all),
            cells.len() == i,
            forall|j: int|
                0 <= j < i ==> (#[trigger] cells@[j])@ == temperature_cell(
                    all[j],
                    label_width(all),
                    (val@, color@, peak),
                    now,
                    bright,
                ),
        decreases stats.len() - i,
    {
        cells.push(cell_of(&stats[i], width, val, color, peak, now, bright));
        i = i + 1;
    }
    proof {
        assert(texts(cells@) =~= temperature_cells(all, (val@, color@, peak), now, bright));
    }
    cells
}

impl SystemState {
    fn thermometer(&self, now: u64, bright: bool) -> (s: String)
        ensures
            s@ == thermometer_text(self@, now, bright),
    {
        proof {
            self.lemma_status();
        }
        match self.room_temp_val {
            Some(temp) => {
                let p = &self.room_temp_tracker;
                let mut s = "\x1b[1mRoom Temp:\x1b[0m ".to_owned();
                s.append(get_room_temp_color(&temp).as_str());
                s.append(BOLD);
                s.append(fixed(&temp, 1).as_str());
                s.append("°C\x1b[0m | ");
                write_watermark_buf(
                    &mut s,
                    "LRT:",
                    degrees_text(&p.min_val).as_str(),
                    p.min_color.as_str(),
                    is_blink_active(p.last_min_peak, now),
                    bright,
                    false,
                );
                s.append(" | ");
                write_watermark_buf(
                    &mut s,
                    "HRT:",
                    degrees_text(&p.max_val).as_str(),
                    p.max_color.as_str(),
                    is_blink_active(p.last_max_peak, now),
                    bright,
                    false,
                );
                s
            },
            None => "\x1b[1mRoom Temp:\x1b[0m \x1b[38;2;255;0;0mNo thermometer detected\x1b[0m".to_owned(),
        }
    }

    fn room_line(&self, now: u64, bright: bool) -> (s: String)
        ensures
            s@ == room_text(self@, now, bright),
    {
        proof {
            self.lemma_status();
        }
        let mut s = self.thermometer(now, bright);
        let warning: bool = match self.last_room_hot_time {
            Some(t) => time_since(t, now) / SECOND < WARNING_SECONDS,
            None => false,
        };
        if warning {
            s.append(warning_shown(bright).as_str());
        }
        s
    }

    fn zone(&self, zone: &Entry<Chiplets>, now: u64, bright: bool) -> (rows: Vec<Row>)
        ensures
            views(rows@) == zone_rows(self@, zone@, now, bright),
    {
        proof {
            self.lemma_status();
        }
        let mut rows: Vec<Row> = Vec::new();
        proof {
            assert(views(rows@) =~= Seq::empty());
        }
        if zone.value.stats.len() == 0 {
            return rows;
        }
        let mut name = "\x1b[1mCPU Temps (".to_owned();
        name.append(zone.name.as_str());
        name.append("):\x1b[0m");
        push_row(&mut rows, name, Erase::After);
        let i: usize = find(&self.parent_ht_trackers, zone.name.as_str());
        let cells = if i < self.parent_ht_trackers.len() {
            let p = &self.parent_ht_trackers[i].value;
            cells_of(&zone.value.stats, &p.max_val, p.max_color.as_str(), p.last_max_peak, now, bright)
        } else {
            cells_of(&zone.value.stats, &Real::from_u64(0), WHITE_BOLD, None, now, bright)
        };
        let cols: usize = column_count(self.width, zone.value.stats.len());
        push_rows(&mut rows, &grid(&cells, cols), Erase::Before);
        rows
    }

    fn temperatures(&self, now: u64, bright: bool) -> (rows: Vec<Row>)
        ensures
            views(rows@) == temperature_rows(self@, now, bright),
    {
        proof {
            self.lemma_status();
            reveal(temperature_rows);
        }
        let ghost st = self@;
        let ghost all = st.cpu_temps;
        let mut rows: Vec<Row> = Vec::new();
        proof {
            assert(views(rows@) =~= Seq::empty());
        }
        push_rule(&mut rows, self.width, "Temperature Heat-Map");
        push_row(&mut rows, self.room_line(now, bright), Erase::After);
        let ghost top = views(rows@);
        let mut i: usize = 0;
        proof {
            assert(all.take(0) =~= Seq::empty());
            assert(top + zones_rows(st, all.take(0), now, bright) =~= top);
        }
        while i < self.cpu_temps.len()
            invariant
                i <= self.cpu_temps.len(),
                st == self@,
                all == st.cpu_temps,
                all == rows_of(self.cpu_temps@),
                views(rows@) == top + zones_rows(st, all.take(i as int), now, bright),
            decreases self.cpu_temps.len() - i,
        {
            proof {
                assert(all.take(i + 1).drop_last() =~= all.take(i as int));
                assert(all.take(i + 1).last() == self.cpu_temps@[i as int]@);
            }
            push_section(&mut rows, self.zone(&self.cpu_temps[i], now, bright));
            proof {
                assert(views(rows@) =~= top + zones_rows(st, all.take(i + 1), now, bright));
            }
            i = i + 1;
        }
        proof {
            assert(all.take(all.len() as int) =~= all);
        }
        rows
    }
}

// ---------------------------------------------------------------------------
// Cores
// ---------------------------------------------------------------------------

/// The name of the section of the cores, or what stands in its place.
pub open spec fn core_title(s: Status) -> Seq<char> {
    if s.freqs.len() == 0 {
        "Error: Core Frequencies cannot be accessed"@
    } else if s.is_vm {
        "VM Guest Detected"@
    } else {
        "Core Heat-Map"@
    }
}

/// The frequency of a core in the colour of its place between the limits.
pub open spec fn core_cell(s: Status, i: int) -> Seq<char> {
    let freq = s.freqs[i];
    let color = if s.limits.0 is Some && s.limits.1 is Some {
        cpu_color(quotient(difference(freq, s.limits.0->0), difference(s.limits.1->0, s.limits.0->0)))
    } else {
        ""@
    };
    let (shown, unit) = if at_most(integer(1_000_000), freq) {
        (quotient(freq, integer(1_000_000)), "THz"@)
    } else if at_most(integer(1000), freq) {
        (quotient(freq, integer(1000)), "GHz"@)
    } else {
        (freq, "MHz"@)
    };
    "C"@ + zero_filled(i as nat, 2) + ": "@ + color + dynamic_text(shown) + " "@ + unit + RESET@
}

/// The frequencies of the cores.
pub open spec fn core_cells(s: Status) -> Seq<Seq<char>> {
    Seq::new(s.freqs.len(), |i: int| core_cell(s, i))
}

/// The rows of the cores.
#[verifier::opaque]
pub open spec fn core_rows(s: Status) -> Seq<Line> {
    seq![section_rule(s.width as nat, core_title(s))] + lines_with(
        grid_rows(core_cells(s), columns(s.width as nat, s.freqs.len())),
        Erase::Before,
    )
}

impl SystemState {
    fn core_text(&self, i: usize) -> (s: String)
        requires
            i < self@.freqs.len(),
        ensures
            s@ == core_cell(self@, i as int),
    {
        proof {
            self.lemma_status();
        }
        let freq: Real = self.freqs[i];
        let color = match self.limits {
            (Some(min), Some(max)) => get_cpu_color(&freq.minus(min).over(max.minus(min))),
            _ => "".to_owned(),
        };
        let tera: Real = Real::from_u64(1_000_000);
        let giga: Real = Real::from_u64(1000);
        let (shown, unit): (Real, &str) = if tera.is_at_most(&freq) {
            (freq.over(tera), "THz")
        } else if giga.is_at_most(&freq) {
            (freq.over(giga), "GHz")
        } else {
            (freq, "MHz")
        };
        let mut s = "C".to_owned();
        s.append(decimal_filled(i as u128, 2).as_str());
        s.append(": ");
        s.append(color.as_str());
        s.append(FormatDynamic6(shown).text().as_str());
        s.append(" ");
        s.append(unit);
        s.append(RESET);
        s
    }

    fn cores(&self) -> (rows: Vec<Row>)
        ensures
            views(rows@) == core_rows(self@),
    {
        proof {
            self.lemma_status();
            reveal(core_rows);
        }
        let ghost st = self@;
        let name: &str = if self.freqs.len() == 0 {
            "Error: Core Frequencies cannot be accessed"
        } else if self.is_vm {
            "VM Guest Detected"
        } else {
            "Core Heat-Map"
        };
        let mut rows: Vec<Row> = Vec::new();
        proof {
            assert(views(rows@) =~= Seq::empty());
        }
        push_rule(&mut rows, self.width, name);
        let mut cells: Vec<String> = Vec::new();
        let mut i: usize = 0;
        while i < self.freqs.len()
            invariant
                i <= self.freqs.len(),
                st == self@,
                st.freqs.len() == self.freqs.len(),
                cells.len() == i,
                forall|j: int| 0 <= j < i ==> (#[trigger] cells@[j])@ == core_cell(st, j),
            decreases self.freqs.len() - i,
        {
            cells.push(self.core_text(i));
            i = i + 1;
        }
        proof {
            assert(texts(cells@) =~= core_cells(st));
        }
        let cols: usize = column_count(self.width, self.freqs.len());
        push_rows(&mut rows, &grid(&cells, cols), Erase::Before);
        rows
    }
}

// ---------------------------------------------------------------------------
// Memory
// ---------------------------------------------------------------------------

/// The rows of the memory.
#[verifier::opaque]
pub open spec fn memory_rows(s: Status) -> Seq<Line> {
    seq![
        section_rule(s.width as nat, "Memory Heat-Map"@),
        line("\x1b[1mRAM:\x1b[0m "@ + s.mem_ram_str),
        line("\x1b[1mZswap:\x1b[0m "@ + s.mem_zswap_str),
        line("\x1b[1mSwap:\x1b[0m "@ + s.mem_swap_total_str),
    ] + lines_with(two_columns(s.swaps_formatted, s.width as nat), Erase::After)
}

impl SystemState {
    fn memory(&self) -> (rows: Vec<Row>)
        ensures
            views(rows@) == memory_rows(self@),
    {
        proof {
            self.lemma_status();
            reveal(memory_rows);
        }
        let mut rows: Vec<Row> = Vec::new();
        proof {
            assert(views(rows@) =~= Seq::empty());
        }
        push_rule(&mut rows, self.width, "Memory Heat-Map");
        push_row(&mut rows, "\x1b[1mRAM:\x1b[0m ".to_owned().concat(self.mem_ram_str.as_str()), Erase::After);
        push_row(&mut rows, "\x1b[1mZswap:\x1b[0m ".to_owned().concat(self.mem_zswap_str.as_str()), Erase::After);
        push_row(
            &mut rows,
            "\x1b[1mSwap:\x1b[0m ".to_owned().concat(self.mem_swap_total_str.as_str()),
            Erase::After,
        );
        push_rows(&mut rows, &aligned_2col_grid(&self.swaps_formatted, self.width), Erase::After);
        rows
    }
}

// ---------------------------------------------------------------------------
// Network
// ---------------------------------------------------------------------------

/// The width of the names of interfaces: in bytes, and at least that of the total.
pub open spec fn iface_width(nodes: Seq<Traffic>) -> nat
    decreases nodes.len(),
{
    if nodes.len() == 0 {
        9
    } else {
        let front = iface_width(nodes.drop_last());
        if byte_length(nodes.last().iface) > front {
            byte_length(nodes.last().iface)
        } else {
            front
        }
    }
}

/// Speeds of receiving and sending.
pub open spec fn speeds_text(rx: Number, tx: Number, max: Number) -> Seq<char> {
    net_color(rx, max) + BOLD@ + net_speed_text(rx) + "\x1b[0m \x1b[1;37m↓\x1b[0m  "@ + net_color(tx, max) + BOLD@
        + net_speed_text(tx) + "\x1b[0m \x1b[1;37m↑\x1b[0m  "@
}

/// The highest speeds of receiving and sending.
pub open spec fn net_peaks_text(pair: (Peaks, Peaks), now: u64, bright: bool) -> Seq<char> {
    watermark_text(
        "H↓:"@,
        net_speed_text(pair.0.max_val),
        pair.0.max_color,
        fresh(pair.0.last_max_peak, now),
        bright,
        false,
    ) + "  "@ + watermark_text(
        "H↑:"@,
        net_speed_text(pair.1.max_val),
        pair.1.max_color,
        fresh(pair.1.last_max_peak, now),
        bright,
        false,
    )
}

/// The word for what an interface has done.
pub open spec fn change_word(change: Change) -> Seq<char> {
    match change {
        Change::Activated => "ACTIVATED"@,
        Change::Deactivated => "DEACTIVATED"@,
    }
}

/// An interface: for a while that it has come or gone, else its speeds and peaks.
pub open spec fn iface_text(s: Status, node: Traffic, now: u64, bright: bool) -> Seq<char> {
    let width = iface_width(s.raw_net_nodes);
    let note = value_of(s.net_events, node.iface);
    if note is Some && told(note->0.time, now) {
        right_aligned(node.iface, width) + ": \x1b[1m"@ + (if note->0.change == Change::Activated {
            "\x1b[38;2;0;200;0m"@
        } else {
            "\x1b[38;2;255;255;0m"@
        }) + change_word(note->0.change) + "\x1b[0m\x1b[0m"@
    } else {
        right_aligned(node.iface, width) + ": "@ + speeds_text(node.rx, node.tx, node.max) + net_peaks_text(
            value_of(s.net_trackers, node.iface)->0,
            now,
            bright,
        )
    }
}

/// The interfaces that are there.
pub open spec fn iface_texts(s: Status, now: u64, bright: bool) -> Seq<Seq<char>> {
    Seq::new(s.raw_net_nodes.len(), |i: int| iface_text(s, s.raw_net_nodes[i], now, bright))
}

/// The interfaces that have just gone.
pub open spec fn gone_texts(notes: Seq<(Seq<char>, Note)>, width: nat, now: u64) -> Seq<Seq<char>>
    decreases notes.len(),
{
    if notes.len() == 0 {
        Seq::empty()
    } else {
        let front = gone_texts(notes.drop_last(), width, now);
        let (iface, note) = notes.last();
        if note.change == Change::Deactivated && told(note.time, now) {
            front.push(right_aligned(iface, width) + ": \x1b[38;2;255;255;0m\x1b[1mDEACTIVATED\x1b[0m"@)
        } else {
            front
        }
    }
}

/// All interfaces together.
pub open spec fn net_total_text(s: Status, now: u64, bright: bool) -> Seq<char> {
    BOLD@ + right_aligned("Net Total"@, iface_width(s.raw_net_nodes)) + ":\x1b[0m "@ + speeds_text(
        s.net_total_rx,
        s.net_total_tx,
        larger(s.net_total_max, integer(1)),
    ) + net_peaks_text(s.net_total_tracker, now, bright)
}

/// The rows of the network.
#[verifier::opaque]
pub open spec fn network_rows(s: Status, now: u64, bright: bool) -> Seq<Line> {
    let items = iface_texts(s, now, bright) + gone_texts(s.net_events, iface_width(s.raw_net_nodes), now);
    seq![section_rule(s.width as nat, "Network Heat-Map"@), line(net_total_text(s, now, bright))] + lines_with(
        two_columns(items, s.width as nat),
        Erase::After,
    )
}

fn width_of_names(nodes: &Vec<NetNode>) -> (width: usize)
    ensures
        width == iface_width(views(nodes@)),
{
    let ghost all = views(nodes@);
    let mut width: usize = 9;
    let mut i: usize = 0;
    proof {
        assert(all.take(0) =~= Seq::empty());
    }
    while i < nodes.len()
        invariant
            i <= nodes.len(),
            all == views(nodes@),
            width == iface_width(all.take(i as int)),
        decreases nodes.len() - i,
    {
        proof {
            assert(all.take(i + 1).drop_last() =~= all.take(i as int));
            assert(all.take(i + 1).last() == nodes@[i as int]@);
        }
        let n: usize = bytes_in(nodes[i].iface.as_str());
        if n > width {
            width = n;
        }
        i = i + 1;
    }
    proof {
        assert(all.take(all.len() as int) =~= all);
    }
    width
}

fn speeds_shown(rx: &Real, tx: &Real, max: &Real) -> (s: String)
    ensures
        s@ == speeds_text(rx@, tx@, max@),
{
    let mut s = get_net_color(rx, max);
    s.append(BOLD);
    s.append(FormatNetSpeed(*rx).text().as_str());
    s.append("\x1b[0m \x1b[1;37m↓\x1b[0m  ");
    s.append(get_net_color(tx, max).as_str());
    s.append(BOLD);
    s.append(FormatNetSpeed(*tx).text().as_str());
    s.append("\x1b[0m \x1b[1;37m↑\x1b[0m  ");
    s
}

fn net_peaks_shown(pair: &(ValuePeakTracker, ValuePeakTracker), now: u64, bright: bool) -> (s: String)
    ensures
        s@ == net_peaks_text(pair@, now, bright),
{
    let mut s = write_watermark_inline(
        "H↓:",
        FormatNetSpeed(pair.0.max_val).text().as_str(),
        pair.0.max_color.as_str(),
        is_blink_active(pair.0.last_max_peak, now),
        bright,
        false,
    );
    s.append("  ");
    write_watermark_buf(
        &mut s,
        "H↑:",
        FormatNetSpeed(pair.1.max_val).text().as_str(),
        pair.1.max_color.as_str(),
        is_blink_active(pair.1.last_max_peak, now),
        bright,
        false,
    );
    s
}

impl SystemState {
    fn iface_shown(&self, i: usize, width: usize, now: u64, bright: bool) -> (s: String)
        requires
            self@.consistent(),
            i < self@.raw_net_nodes.len(),
            width == iface_width(self@.raw_net_nodes),
        ensures
            s@ == iface_text(self@, self@.raw_net_nodes[i as int], now, bright),
    {
        proof {
            self.lemma_status();
        }
        let node = &self.raw_net_nodes[i];
        proof {
            assert(self@.raw_net_nodes[i as int] == node@);
            lemma_slot(self@.net_trackers, node@.iface);
        }
        let mut s = align_right(node.iface.as_str(), width);
        let k: usize = find(&self.net_events, node.iface.as_str());
        if k < self.net_events.len() {
            let note = &self.net_events[k].value;
            if time_since(note.time, now) / SECOND < NOTE_SECONDS {
                s.append(": \x1b[1m");
                match note.change {
                    Change::Activated => {
                        s.append("\x1b[38;2;0;200;0m");
                        s.append("ACTIVATED");
                    },
                    Change::Deactivated => {
                        s.append("\x1b[38;2;255;255;0m");
                        s.append("DEACTIVATED");
                    },
                }
                s.append("\x1b[0m\x1b[0m");
                return s;
            }
        }
        s.append(": ");
        s.append(speeds_shown(&node.rx, &node.tx, &node.max).as_str());
        let t: usize = find(&self.net_trackers, node.iface.as_str());
        s.append(net_peaks_shown(&self.net_trackers[t].value, now, bright).as_str());
        s
    }

    fn net_items(&self, width: usize, now: u64, bright: bool) -> (items: Vec<String>)
        requires
            self@.consistent(),
            width == iface_width(self@.raw_net_nodes),
        ensures
            texts(items@) == iface_texts(self@, now, bright) + gone_texts(self@.net_events, width as nat, now),
    {
        proof {
            self.lemma_status();
        }
        let ghost st = self@;
        let ghost notes = st.net_events;
        let mut items: Vec<String> = Vec::new();
        let mut i: usize = 0;
        while i < self.raw_net_nodes.len()
            invariant
                i <= self.raw_net_nodes.len(),
                st == self@,
                st.consistent(),
                st.raw_net_nodes.len() == self.raw_net_nodes.len(),
                width == iface_width(st.raw_net_nodes),
                items.len() == i,
                forall|j: int|
                    0 <= j < i ==> (#[trigger] items@[j])@ == iface_text(st, st.raw_net_nodes[j], now, bright),
            decreases self.raw_net_nodes.len() - i,
        {
            items.push(self.iface_shown(i, width, now, bright));
            i = i + 1;
        }
        let ghost there = iface_texts(st, now, bright);
        let mut k: usize = 0;
        proof {
            assert(texts(items@) =~= there);
            assert(notes.take(0) =~= Seq::empty());
            assert(there + gone_texts(notes.take(0), width as nat, now) =~= there);
        }
        while k < self.net_events.len()
            invariant
                k <= self.net_events.len(),
                notes == rows_of(self.net_events@),
                texts(items@) == there + gone_texts(notes.take(k as int), width as nat, now),
            decreases self.net_events.len() - k,
        {
            let entry = &self.net_events[k];
            let ghost before = items@;
            proof {
                assert(notes.take(k + 1).drop_last() =~= notes.take(k as int));
                assert(notes.take(k + 1).last() == entry@);
            }
            let gone: bool = match entry.value.change {
                Change::Deactivated => true,
                Change::Activated => false,
            };
            if gone && time_since(entry.value.time, now) / SECOND < NOTE_SECONDS {
                let mut s = align_right(entry.name.as_str(), width);
                s.append(": \x1b[38;2;255;255;0m\x1b[1mDEACTIVATED\x1b[0m");
                proof {
                    assert(texts(before.push(s)) =~= texts(before).push(s@));
                    assert(there + gone_texts(notes.take(k + 1), width as nat, now) =~= (there + gone_texts(
                        notes.take(k as int),
                        width as nat,
                        now,
                    )).push(s@));
                }
                items.push(s);
            }
            k = k + 1;
        }
        proof {
            assert(notes.take(notes.len() as int) =~= notes);
        }
        items
    }

    fn network(&self, now: u64, bright: bool) -> (rows: Vec<Row>)
        requires
            self@.consistent(),
        ensures
            views(rows@) == network_rows(self@, now, bright),
    {
        proof {
            self.lemma_status();
            reveal(network_rows);
        }
        let width: usize = width_of_names(&self.raw_net_nodes);
        let mut rows: Vec<Row> = Vec::new();
        proof {
            assert(views(rows@) =~= Seq::empty());
        }
        push_rule(&mut rows, self.width, "Network Heat-Map");
        let mut total = BOLD.to_owned();
        total.append(align_right("Net Total", width).as_str());
        total.append(":\x1b[0m ");
        let max: Real = self.net_total_max.max(Real::from_u64(1));
        total.append(speeds_shown(&self.net_total_rx, &self.net_total_tx, &max).as_str());
        total.append(net_peaks_shown(&self.net_total_tracker, now, bright).as_str());
        push_row(&mut rows, total, Erase::After);
        let items = self.net_items(width, now, bright);
        push_rows(&mut rows, &aligned_2col_grid(&items, self.width), Erase::After);
        rows
    }
}

// ---------------------------------------------------------------------------
// Storage
// ---------------------------------------------------------------------------

/// How full a volume is.
pub open spec fn capacity_text(n: DiskNode) -> Seq<char> {
    n.mount_padded + n.capacity_color + FormatSize(n.used_bytes).shown()
        + "\x1b[0m \x1b[0;37mUsed\x1b[0m / \x1b[1;38;2;0;255;255m"@ + FormatSize(n.total_bytes).shown()
        + "\x1b[0m \x1b[0;37mTotal\x1b[0m"@
}

/// Speeds of reading and writing with their peaks.
pub open spec fn pace_text(r: Number, w: Number, marks: Watermarks, now: u64, bright: bool) -> Seq<char> {
    disk_speed_color(r, marks.read.current) + BOLD@ + disk_speed_text(r) + "\x1b[0m \x1b[1;37mR↑\x1b[0m  "@
        + disk_speed_color(w, marks.write.current) + BOLD@ + disk_speed_text(w) + "\x1b[0m \x1b[1;37mW↓\x1b[0m  "@
        + watermark_text(
        "HR:"@,
        disk_speed_text(marks.read.current),
        VIOLET_BOLD@,
        fresh(marks.read.last_peak, now),
        bright,
        false,
    ) + "  "@ + watermark_text(
        "HW:"@,
        disk_speed_text(marks.write.current),
        VIOLET_BOLD@,
        fresh(marks.write.last_peak, now),
        bright,
        false,
    )
}

/// How fast the device of a volume is.
pub open spec fn device_text(s: Status, n: DiskNode, now: u64, bright: bool) -> Seq<char> {
    pace_text(n.r_speed, n.w_speed, value_of(s.disk_trackers, n.raw_dev_name)->0, now, bright)
}

/// How full the volumes are.
pub open spec fn capacity_texts(s: Status) -> Seq<Seq<char>> {
    Seq::new(s.disk_nodes.len(), |i: int| capacity_text(s.disk_nodes[i]))
}

/// How fast the devices of the volumes are.
pub open spec fn device_texts(s: Status, now: u64, bright: bool) -> Seq<Seq<char>> {
    Seq::new(s.disk_nodes.len(), |i: int| device_text(s, s.disk_nodes[i], now, bright))
}

/// The width of the widest of these texts.
pub open spec fn widest_text(items: Seq<Seq<char>>) -> nat
    decreases items.len(),
{
    if items.len() == 0 {
        0
    } else {
        let front = widest_text(items.drop_last());
        let w = width_of(items.last());
        if w > front {
            w
        } else {
            front
        }
    }
}

/// A volume is all but full.
pub open spec fn nearly_full(n: DiskNode) -> bool {
    at_most(fraction(95, 100), quotient(integer(n.used_bytes as nat), integer(n.total_bytes as nat)))
}

/// How full all volumes together are; violet where one of them is all but full.
pub open spec fn storage_total_text(s: Status) -> Seq<char> {
    let load = share(s.disk_agg_used as nat, s.disk_agg_total as nat);
    let color = if exists|i: int| 0 <= i < s.disk_nodes.len() && nearly_full(#[trigger] s.disk_nodes[i]) {
        VIOLET_BOLD@
    } else {
        disk_capacity_color(load, false)
    };
    color + BOLD@ + FormatSize(s.disk_agg_used).shown()
        + "\x1b[0m \x1b[1;37mUsed\x1b[0m | \x1b[1;38;2;0;255;255m"@ + FormatSize(s.disk_agg_total).shown()
        + "\x1b[0m \x1b[1;37mTotal\x1b[0m | "@ + color + BOLD@ + fixed_of(product(load, integer(100)), 1)
        + "%\x1b[0m \x1b[0;37m%Used\x1b[0m"@
}

/// How fast all devices together are.
pub open spec fn storage_pace_text(s: Status, now: u64, bright: bool) -> Seq<char> {
    pace_text(s.disk_agg_read, s.disk_agg_write, s.disk_global_hw, now, bright)
}

/// The volumes with their devices beside them.
#[verifier::opaque]
pub open spec fn combined_texts(s: Status, now: u64, bright: bool) -> Seq<Seq<char>> {
    let caps = capacity_texts(s);
    Seq::new(
        s.disk_nodes.len(),
        |i: int|
            caps[i] + crate::grid::filler(caps[i], widest_text(caps)) + " | "@ + device_texts(s, now, bright)[i],
    )
}

/// The devices behind the paths of their volumes.
pub open spec fn split_texts(s: Status, now: u64, bright: bool) -> Seq<Seq<char>> {
    Seq::new(
        s.disk_nodes.len(),
        |i: int| s.disk_nodes[i].mount_padded + device_text(s, s.disk_nodes[i], now, bright),
    )
}

/// Volumes and devices fit side by side.
pub open spec fn fits_combined(s: Status, now: u64, bright: bool) -> bool {
    widest_text(capacity_texts(s)) + 3 + widest_text(device_texts(s, now, bright)) <= s.width
}

/// How full and how fast the storage is in all.
pub open spec fn combined_total_text(s: Status, now: u64, bright: bool) -> Seq<char> {
    "\x1b[1mStorage Total:\x1b[0m "@ + storage_total_text(s) + " | "@ + storage_pace_text(s, now, bright)
}

/// The rows of volumes and devices side by side.
pub open spec fn combined_rows(s: Status, now: u64, bright: bool) -> Seq<Line> {
    section_rows(s.width, "Storage Heat-Map"@, combined_total_text(s, now, bright), combined_texts(s, now, bright))
}

/// The rows of the volumes alone.
pub open spec fn space_rows(s: Status) -> Seq<Line> {
    section_rows(
        s.width,
        "Storage Space Heat-Map"@,
        "\x1b[1mStorage Space Total:\x1b[0m "@ + storage_total_text(s),
        capacity_texts(s),
    )
}

/// The rows of the devices alone.
pub open spec fn pace_rows(s: Status, now: u64, bright: bool) -> Seq<Line> {
    section_rows(
        s.width,
        "Storage \x1b[1m↓↑\x1b[0m \x1b[1;38;2;255;215;0mHeat-Map"@,
        "\x1b[1mStorage \x1b[1m↓↑\x1b[0m \x1b[1mTotal:\x1b[0m "@ + storage_pace_text(s, now, bright),
        split_texts(s, now, bright),
    )
}

/// The rows of the storage: in one section where volumes and devices fit side by
/// side, else in two.
#[verifier::opaque]
pub open spec fn storage_rows(s: Status, now: u64, bright: bool) -> Seq<Line> {
    if fits_combined(s, now, bright) {
        combined_rows(s, now, bright)
    } else {
        space_rows(s) + pace_rows(s, now, bright)
    }
}

fn capacity_shown(n: &DiskNodeRaw) -> (s: String)
    ensures
        s@ == capacity_text(n@),
{
    let mut s = n.mount_padded.clone();
    s.append(n.capacity_color.as_str());
    s.append(FormatSize(n.used_bytes).text().as_str());
    s.append("\x1b[0m \x1b[0;37mUsed\x1b[0m / \x1b[1;38;2;0;255;255m");
    s.append(FormatSize(n.total_bytes).text().as_str());
    s.append("\x1b[0m \x1b[0;37mTotal\x1b[0m");
    s
}

fn pace_shown(r: &Real, w: &Real, marks: &StorageHrHwState, now: u64, bright: bool) -> (s: String)
    ensures
        s@ == pace_text(r@, w@, marks@, now, bright),
{
    let mut s = get_exp_disk_speed_color(r, &marks.current_r);
    s.append(BOLD);
    s.append(FormatDiskSpeed(*r).text().as_str());
    s.append("\x1b[0m \x1b[1;37mR↑\x1b[0m  ");
    s.append(get_exp_disk_speed_color(w, &marks.current_w).as_str());
    s.append(BOLD);
    s.append(FormatDiskSpeed(*w).text().as_str());
    s.append("\x1b[0m \x1b[1;37mW↓\x1b[0m  ");
    write_watermark_buf(
        &mut s,
        "HR:",
        FormatDiskSpeed(marks.current_r).text().as_str(),
        VIOLET_BOLD,
        is_blink_active(marks.last_r_peak, now),
        bright,
        false,
    );
    s.append("  ");
    write_watermark_buf(
        &mut s,
        "HW:",
        FormatDiskSpeed(marks.current_w).text().as_str(),
        VIOLET_BOLD,
        is_blink_active(marks.last_w_peak, now),
        bright,
        false,
    );
    s
}

fn width_of_widest(items: &Vec<String>) -> (width: usize)
    ensures
        width == widest_text(texts(items@)),
{
    let ghost all = texts(items@);
    let mut width: usize = 0;
    let mut i: usize = 0;
    proof {
        assert(all.take(0) =~= Seq::empty());
    }
    while i < items.len()
        invariant
            i <= items.len(),
            all == texts(items@),
            width == widest_text(all.take(i as int)),
        decreases items.len() - i,
    {
        proof {
            assert(all.take(i + 1).drop_last() =~= all.take(i as int));
            assert(all.take(i + 1).last() == items@[i as int]@);
        }
        let w: usize = strip_ansi(items[i].as_str());
        if w > width {
            width = w;
        }
        i = i + 1;
    }
    proof {
        assert(all.take(all.len() as int) =~= all);
    }
    width
}

impl SystemState {
    fn capacities_shown(&self) -> (r: Vec<String>)
        ensures
            texts(r@) == capacity_texts(self@),
    {
        proof {
            self.lemma_status();
        }
        let ghost st = self@;
        let mut r: Vec<String> = Vec::new();
        let mut i: usize = 0;
        while i < self.disk_nodes.len()
            invariant
                i <= self.disk_nodes.len(),
                st.disk_nodes == views(self.disk_nodes@),
                r.len() == i,
                forall|j: int| 0 <= j < i ==> (#[trigger] r@[j])@ == capacity_text(st.disk_nodes[j]),
            decreases self.disk_nodes.len() - i,
        {
            r.push(capacity_shown(&self.disk_nodes[i]));
            i = i + 1;
        }
        proof {
            assert(texts(r@) =~= capacity_texts(st));
        }
        r
    }

    fn devices_shown(&self, now: u64, bright: bool) -> (r: Vec<String>)
        requires
            self@.consistent(),
        ensures
            texts(r@) == device_texts(self@, now, bright),
    {
        proof {
            self.lemma_status();
        }
        let ghost st = self@;
        let mut r: Vec<String> = Vec::new();
        let mut i: usize = 0;
        while i < self.disk_nodes.len()
            invariant
                i <= self.disk_nodes.len(),
                st.consistent(),
                st.disk_nodes == views(self.disk_nodes@),
                st.disk_trackers == rows_of(self.disk_trackers@),
                r.len() == i,
                forall|j: int|
                    0 <= j < i ==> (#[trigger] r@[j])@ == device_text(st, st.disk_nodes[j], now, bright),
            decreases self.disk_nodes.len() - i,
        {
            let n = &self.disk_nodes[i];
            proof {
                assert(st.disk_nodes[i as int] == n@);
                lemma_slot(st.disk_trackers, n@.raw_dev_name);
            }
            let t: usize = find(&self.disk_trackers, n.raw_dev_name.as_str());
            r.push(pace_shown(&n.r_speed, &n.w_speed, &self.disk_trackers[t].value, now, bright));
            i = i + 1;
        }
        proof {
            assert(texts(r@) =~= device_texts(st, now, bright));
        }
        r
    }

    fn storage_total(&self) -> (s: String)
        ensures
            s@ == storage_total_text(self@),
    {
        proof {
            self.lemma_status();
        }
        let ghost st = self@;
        let load: Real = share_of(self.disk_agg_used, self.disk_agg_total);
        let mut full: bool = false;
        let mut i: usize = 0;
        while i < self.disk_nodes.len()
            invariant
                i <= self.disk_nodes.len(),
                st.disk_nodes == views(self.disk_nodes@),
                full <==> exists|j: int| 0 <= j < i && nearly_full(#[trigger] st.disk_nodes[j]),
            decreases self.disk_nodes.len() - i,
        {
            let n = &self.disk_nodes[i];
            proof {
                assert(st.disk_nodes[i as int] == n@);
            }
            let part: Real = Real::from_u64(n.used_bytes).over(Real::from_u64(n.total_bytes));
            if Real::ratio(95, 100).is_at_most(&part) {
                proof {
                    assert(nearly_full(st.disk_nodes[i as int]));
                }
                full = true;
            }
            i = i + 1;
        }
        let color = if full {
            VIOLET_BOLD.to_owned()
        } else {
            get_disk_capacity_color(&load, false)
        };
        let mut s = color.clone();
        s.append(BOLD);
        s.append(FormatSize(self.disk_agg_used).text().as_str());
        s.append("\x1b[0m \x1b[1;37mUsed\x1b[0m | \x1b[1;38;2;0;255;255m");
        s.append(FormatSize(self.disk_agg_total).text().as_str());
        s.append("\x1b[0m \x1b[1;37mTotal\x1b[0m | ");
        s.append(color.as_str());
        s.append(BOLD);
        s.append(fixed(&load.times(Real::from_u64(100)), 1).as_str());
        s.append("%\x1b[0m \x1b[0;37m%Used\x1b[0m");
        s
    }

    fn combine(&self, caps: &Vec<String>, paces: &Vec<String>, width: usize, now: u64, bright: bool) -> (r: Vec<String>)
        requires
            texts(caps@) == capacity_texts(self@),
            texts(paces@) == device_texts(self@, now, bright),
            width == widest_text(texts(caps@)),
        ensures
            texts(r@) == combined_texts(self@, now, bright),
    {
        let ghost st = self@;
        let ghost wanted = combined_texts(st, now, bright);
        proof {
            reveal(combined_texts);
            assert(texts(caps@).len() == caps.len() && texts(paces@).len() == paces.len());
        }
        let mut r: Vec<String> = Vec::new();
        let mut i: usize = 0;
        while i < caps.len()
            invariant
                i <= caps.len(),
                caps.len() == paces.len(),
                caps.len() == wanted.len(),
                texts(caps@) == capacity_texts(st),
                texts(paces@) == device_texts(st, now, bright),
                width == widest_text(capacity_texts(st)),
                wanted == combined_texts(st, now, bright),
                r.len() == i,
                forall|j: int| 0 <= j < i ==> (#[trigger] r@[j])@ == wanted[j],
            decreases caps.len() - i,
        {
            proof {
                reveal(combined_texts);
                assert(texts(caps@)[i as int] == caps@[i as int]@);
                assert(texts(paces@)[i as int] == paces@[i as int]@);
            }
            let own: usize = strip_ansi(caps[i].as_str());
            let gap: usize = if own < width {
                width - own
            } else {
                0
            };
            let mut s = caps[i].clone();
            s.append(repeat(' ', gap).as_str());
            s.append(" | ");
            s.append(paces[i].as_str());
            r.push(s);
            i = i + 1;
        }
        proof {
            assert(texts(r@) =~= wanted);
        }
        r
    }

    fn split(&self, paces: &Vec<String>, now: u64, bright: bool) -> (r: Vec<String>)
        requires
            texts(paces@) == device_texts(self@, now, bright),
        ensures
            texts(r@) == split_texts(self@, now, bright),
    {
        proof {
            self.lemma_status();
        }
        let ghost st = self@;
        let ghost wanted = split_texts(st, now, bright);
        proof {
            assert(texts(paces@).len() == paces.len());
        }
        let mut r: Vec<String> = Vec::new();
        let mut i: usize = 0;
        while i < paces.len()
            invariant
                i <= paces.len(),
                paces.len() == wanted.len(),
                paces.len() == self.disk_nodes.len(),
                st.disk_nodes == views(self.disk_nodes@),
                texts(paces@) == device_texts(st, now, bright),
                wanted == split_texts(st, now, bright),
                r.len() == i,
                forall|j: int| 0 <= j < i ==> (#[trigger] r@[j])@ == wanted[j],
            decreases paces.len() - i,
        {
            proof {
                assert(texts(paces@)[i as int] == paces@[i as int]@);
                assert(st.disk_nodes[i as int] == self.disk_nodes@[i as int]@);
            }
            let mut s = self.disk_nodes[i].mount_padded.clone();
            s.append(paces[i].as_str());
            r.push(s);
            i = i + 1;
        }
        proof {
            assert(texts(r@) =~= wanted);
        }
        r
    }

    fn storage_pace(&self, now: u64, bright: bool) -> (s: String)
        ensures
            s@ == storage_pace_text(self@, now, bright),
    {
        proof {
            self.lemma_status();
        }
        pace_shown(&self.disk_agg_read, &self.disk_agg_write, &self.disk_global_hw, now, bright)
    }

    fn combined_total(&self, now: u64, bright: bool) -> (s: String)
        ensures
            s@ == combined_total_text(self@, now, bright),
    {
        let mut s = "\x1b[1mStorage Total:\x1b[0m ".to_owned();
        s.append(self.storage_total().as_str());
        s.append(" | ");
        s.append(self.storage_pace(now, bright).as_str());
        s
    }

    fn side_by_side(&self, items: &Vec<String>, now: u64, bright: bool) -> (rows: Vec<Row>)
        requires
            texts(items@) == combined_texts(self@, now, bright),
        ensures
            views(rows@) == combined_rows(self@, now, bright),
    {
        proof {
            self.lemma_status();
        }
        section(self.width, "Storage Heat-Map", self.combined_total(now, bright), items)
    }

    fn space(&self, caps: &Vec<String>) -> (rows: Vec<Row>)
        requires
            texts(caps@) == capacity_texts(self@),
        ensures
            views(rows@) == space_rows(self@),
    {
        proof {
            self.lemma_status();
        }
        let mut total = "\x1b[1mStorage Space Total:\x1b[0m ".to_owned();
        total.append(self.storage_total().as_str());
        section(self.width, "Storage Space Heat-Map", total, caps)
    }

    #[verifier::spinoff_prover]
    fn paces(&self, paces: &Vec<String>, now: u64, bright: bool) -> (rows: Vec<Row>)
        requires
            texts(paces@) == device_texts(self@, now, bright),
        ensures
            views(rows@) == pace_rows(self@, now, bright),
    {
        proof {
            self.lemma_status();
        }
        let mut total = "\x1b[1mStorage \x1b[1m↓↑\x1b[0m \x1b[1mTotal:\x1b[0m ".to_owned();
        total.append(self.storage_pace(now, bright).as_str());
        let items = self.split(paces, now, bright);
        section(self.width, "Storage \x1b[1m↓↑\x1b[0m \x1b[1;38;2;255;215;0mHeat-Map", total, &items)
    }

    fn storage(&self, now: u64, bright: bool) -> (rows: Vec<Row>)
        requires
            self@.consistent(),
        ensures
            views(rows@) == storage_rows(self@, now, bright),
    {
        proof {
            self.lemma_status();
            reveal(storage_rows);
        }
        let caps = self.capacities_shown();
        let paces = self.devices_shown(now, bright);
        let cap_width: usize = width_of_widest(&caps);
        let pace_width: usize = width_of_widest(&paces);
        if cap_width as u128 + 3 + pace_width as u128 <= self.width as u128 {
            let items = self.combine(&caps, &paces, cap_width, now, bright);
            self.side_by_side(&items, now, bright)
        } else {
            let mut rows = self.space(&caps);
            push_section(&mut rows, self.paces(&paces, now, bright));
            rows
        }
    }
}

// ---------------------------------------------------------------------------
// The whole screen
// ---------------------------------------------------------------------------

/// What the screen is to show.
pub enum Screen {
    /// The terminal is too narrow for anything.
    TooSmall,
    /// These rows from the top, and where `erase_below`, nothing below them.
    Rows { rows: Vec<Row>, erase_below: bool },
}

/// What the screen is to show.
#[verifier::ext_equal]
pub enum Picture {
    TooSmall,
    Rows { rows: Seq<Line>, erase_below: bool },
}

impl View for Screen {
    type V = Picture;

    open spec fn view(&self) -> Picture {
        match self {
            Screen::TooSmall => Picture::TooSmall,
            Screen::Rows { rows, erase_below } => Picture::Rows { rows: views(rows@), erase_below: *erase_below },
        }
    }
}

/// What a terminal shows that is too narrow for anything.
pub const TOO_SMALL: &'static str = "Terminal too small!";

/// All rows, however many the terminal has.
pub open spec fn all_rows(s: Status, version: Seq<char>, now: u64, bright: bool) -> Seq<Line> {
    header_rows(s, version, now, bright) + temperature_rows(s, now, bright) + core_rows(s) + memory_rows(s)
        + network_rows(s, now, bright) + storage_rows(s, now, bright)
}

/// The rows with the rule that ends the screen, as many as the terminal has. In the
/// last row of the terminal the rule stops one column short and nothing is
/// cleared, so that the terminal does not scroll.
pub open spec fn fitted_rows(rows: Seq<Line>, width: nat, height: nat) -> Seq<Line> {
    if rows.len() >= height {
        rows.take(height as int)
    } else if rows.len() + 1 == height {
        rows.push(
            Line {
                text: repeated(
                    '-',
                    if width > 0 {
                        (width - 1) as nat
                    } else {
                        0
                    },
                ),
                erase: Erase::Never,
            },
        )
    } else {
        rows.push(line(repeated('-', width)))
    }
}

/// The picture of what is known.
pub open spec fn picture(s: Status, version: Seq<char>, now: u64, bright: bool) -> Picture {
    if s.width < MIN_CELL_WIDTH {
        Picture::TooSmall
    } else {
        let rows = fitted_rows(all_rows(s, version, now, bright), s.width as nat, s.height as nat);
        Picture::Rows { rows, erase_below: rows.len() < s.height }
    }
}

fn fit_rows(rows: &mut Vec<Row>, width: u16, height: u16)
    ensures
        views(final(rows)@) == fitted_rows(views(old(rows)@), width as nat, height as nat),
{
    let ghost all = views(rows@);
    let wanted: usize = height as usize;
    if rows.len() >= wanted {
        rows.truncate(wanted);
        proof {
            assert(views(rows@) =~= all.take(wanted as int));
        }
    } else if rows.len() + 1 == wanted {
        let dashes: usize = if width > 0 {
            width as usize - 1
        } else {
            0
        };
        push_row(rows, repeat('-', dashes), Erase::Never);
    } else {
        push_row(rows, repeat('-', width as usize), Erase::After);
    }
}

impl SystemState {
    #[verifier::spinoff_prover]
    fn sections(&self, version: &str, now: u64, bright: bool) -> (rows: Vec<Row>)
        requires
            self@.consistent(),
        ensures
            views(rows@) == all_rows(self@, version@, now, bright),
    {
        let mut rows: Vec<Row> = self.header(version, now, bright);
        push_section(&mut rows, self.temperatures(now, bright));
        push_section(&mut rows, self.cores());
        push_section(&mut rows, self.memory());
        push_section(&mut rows, self.network(now, bright));
        push_section(&mut rows, self.storage(now, bright));
        rows
    }

    #[verifier::spinoff_prover]
    fn screen(&self, version: &str, now: u64, bright: bool) -> (r: Screen)
        requires
            self@.consistent(),
        ensures
            r@ == picture(self@, version@, now, bright),
    {
        proof {
            self.lemma_status();
        }
        if self.width < MIN_CELL_WIDTH {
            return Screen::TooSmall;
        }
        let mut rows = self.sections(version, now, bright);
        fit_rows(&mut rows, self.width, self.height);
        let erase_below: bool = rows.len() < self.height as usize;
        Screen::Rows { rows, erase_below }
    }

    /// Draws what is known, unless nothing has changed since it was last drawn. What
    /// is not needed any more is forgotten first.
    pub fn draw(&mut self, version: &str, now: u64, bright: bool) -> (r: Option<Screen>)
        requires
            old(self)@.consistent(),
        ensures
            final(self)@.consistent(),
            match r {
                Some(screen) => old(self)@.screen_is_dirty && final(self)@ == (Status {
                    screen_is_dirty: false,
                    ..old(self)@.tidied(now)
                }) && screen@ == picture(old(self)@.tidied(now), version@, now, bright),
                None => !old(self)@.screen_is_dirty && final(self)@ == old(self)@,
            },
    {
        proof {
            self.lemma_status();
        }
        if !self.screen_is_dirty {
            return None;
        }
        self.tidy(now);
        let screen = self.screen(version, now, bright);
        proof {
            self.lemma_status();
        }
        self.screen_is_dirty = false;
        proof {
            self.lemma_status();
        }
        Some(screen)
    }
}

// ---------------------------------------------------------------------------
// Laws
// ---------------------------------------------------------------------------

/// The screen never has more rows than the terminal, and where the terminal has
/// rows left, they are cleared.
pub proof fn law_rows_fit_the_terminal(s: Status, version: Seq<char>, now: u64, bright: bool)
    requires
        s.width >= MIN_CELL_WIDTH,
    ensures
        picture(s, version, now, bright) matches Picture::Rows { rows, erase_below } && rows.len() <= s.height
            && erase_below == (rows.len() < s.height),
{
}

/// Once the room was too hot, the warning stands for five minutes, whatever messages
/// come meanwhile, and no longer unless it is too hot again.
pub proof fn law_hot_room_warns(s: Status, temp: Number, hot: u64, msgs: Seq<(Msg, u64)>, now: u64)
    requires
        at_most(integer(HOT as nat), temp),
        hot <= now,
        forall|i: int| 0 <= i < msgs.len() ==> hot <= (#[trigger] msgs[i]).1 <= now,
    ensures
        warns(s.after_room(Some(temp), hot), now) <==> now - hot < WARNING_SECONDS * SECOND,
        now - hot < WARNING_SECONDS * SECOND ==> warns(after_all(s.after_room(Some(temp), hot), msgs), now),
{
    law_heat_outlasts_messages(s.after_room(Some(temp), hot), msgs, now);
}

} // verus!
