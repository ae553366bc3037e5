//! What the sections of the screen tell: their names, and each line under its own.

use crate::cli::title_text;
use crate::layout::{dashed_line, repeated, right_aligned, width_of};
use crate::network::Change;
use crate::peaks::{Peaks, Watermarks, SECOND};
use crate::render::{
    capacity_texts, combined_texts, core_title, device_text, device_texts, gone_texts, highest_heat,
    room_text, section_rule, split_texts, storage_pace_text, temperature_cell, thermometer_text,
    warning_text, widest_text,
};
use crate::seen::{law_plain_reads, law_reads_joined, law_silent_reads, plain, reads, silent};
use crate::state::{Note, Status};
use crate::storage::DiskNode;
use crate::table::value_of;
use crate::telling::{law_capacity_reads, law_pace_reads, law_temperature_reads, pace_read};
use crate::thermal::Temperature;
use crate::units::{number_text, FormatSize};
use vstd::prelude::*;

verus! {

/// The device of a volume tells the volume's own speeds, and the peaks that are kept under
/// the device's name.
pub proof fn law_device_reads(s: Status, n: DiskNode, marks: Watermarks, now: u64, bright: bool)
    requires
        value_of(s.disk_trackers, n.raw_dev_name) == Some(marks),
    ensures
        reads(device_text(s, n, now, bright), pace_read(n.r_speed, n.w_speed, marks)),
{
    law_pace_reads(n.r_speed, n.w_speed, marks, now, bright);
}

/// All devices together tell how much is read and written in all, and the peaks of that.
pub proof fn law_storage_pace_reads(s: Status, now: u64, bright: bool)
    ensures
        reads(
            storage_pace_text(s, now, bright),
            pace_read(s.disk_agg_read, s.disk_agg_write, s.disk_global_hw),
        ),
{
    law_pace_reads(s.disk_agg_read, s.disk_agg_write, s.disk_global_hw, now, bright);
}

/// A volume and its device in one line: how full the volume is, and behind the bar how fast
/// its device.
pub proof fn law_volume_with_device_reads(s: Status, i: int, marks: Watermarks, now: u64, bright: bool)
    requires
        0 <= i < s.disk_nodes.len(),
        plain(s.disk_nodes[i].mount_padded),
        silent(s.disk_nodes[i].capacity_color),
        value_of(s.disk_trackers, s.disk_nodes[i].raw_dev_name) == Some(marks),
    ensures
        ({
            let n = s.disk_nodes[i];
            exists|gap: nat|
                reads(
                    combined_texts(s, now, bright)[i],
                    n.mount_padded + FormatSize(n.used_bytes).shown() + " Used / "@ + FormatSize(
                        n.total_bytes,
                    ).shown() + " Total"@ + #[trigger] repeated(' ', gap) + " | "@ + pace_read(
                        n.r_speed,
                        n.w_speed,
                        marks,
                    ),
                )
        }),
        reads(
            split_texts(s, now, bright)[i],
            s.disk_nodes[i].mount_padded + pace_read(s.disk_nodes[i].r_speed, s.disk_nodes[i].w_speed, marks),
        ),
{
    reveal(combined_texts);
    let n = s.disk_nodes[i];
    let cap = capacity_texts(s)[i];
    let wide = widest_text(capacity_texts(s));
    law_capacity_reads(n);
    law_device_reads(s, n, marks, now, bright);
    let told = n.mount_padded + FormatSize(n.used_bytes).shown() + " Used / "@ + FormatSize(n.total_bytes).shown()
        + " Total"@;
    let gap: nat = if width_of(cap) < wide {
        (wide - width_of(cap)) as nat
    } else {
        0
    };
    reveal_strlit(" | ");
    law_plain_reads(repeated(' ', gap));
    law_plain_reads(" | "@);
    law_plain_reads(n.mount_padded);
    law_reads_joined(cap, repeated(' ', gap), told, repeated(' ', gap));
    law_reads_joined(cap + repeated(' ', gap), " | "@, told + repeated(' ', gap), " | "@);
    let pace = pace_read(n.r_speed, n.w_speed, marks);
    let device = device_text(s, n, now, bright);
    law_reads_joined(cap + repeated(' ', gap) + " | "@, device, told + repeated(' ', gap) + " | "@, pace);
    law_reads_joined(n.mount_padded, device, n.mount_padded, pace);
    assert(device_texts(s, now, bright)[i] == device);
    assert(combined_texts(s, now, bright)[i] == cap + repeated(' ', gap) + " | "@ + device);
}

/// The rule above a section tells its name in the middle of dashes, where it fits.
pub proof fn law_rule_reads(width: nat, name: Seq<char>)
    requires
        plain(name),
        name.len() + 2 < width,
    ensures
        exists|left: nat, right: nat|
            left + right + name.len() + 2 == width && left <= right <= left + 1 && reads(
                section_rule(width, name).text,
                #[trigger] repeated('-', left) + " "@ + name + " "@ + #[trigger] repeated('-', right),
            ),
{
    let gold = "\x1b[1;38;2;255;215;0m"@;
    let reset = crate::color::RESET@;
    let middle = gold + name + reset;
    assert(silent(gold) && silent(reset)) by {
        reveal_strlit("\x1b[1;38;2;255;215;0m");
        reveal_strlit("\x1b[0m");
        crate::color::law_sequence_has_no_width(gold);
        crate::color::law_sequence_has_no_width(reset);
    }
    law_silent_reads(gold);
    law_silent_reads(reset);
    law_plain_reads(name);
    law_reads_joined(gold, name, Seq::empty(), name);
    law_reads_joined(gold + name, reset, Seq::<char>::empty() + name, Seq::empty());
    assert(Seq::<char>::empty() + name + Seq::<char>::empty() =~= name);
    crate::seen::law_seen_is_as_long_as_wide(middle, crate::layout::Place::Plain);
    assert(width_of(middle) == name.len());
    let content = name.len() + 2;
    let left = ((width - content) / 2) as nat;
    let right = (width - content - left) as nat;
    let l = repeated('-', left);
    let r = repeated('-', right);
    reveal_strlit(" ");
    law_plain_reads(l);
    law_plain_reads(r);
    law_plain_reads(" "@);
    law_reads_joined(l, " "@, l, " "@);
    law_reads_joined(l + " "@, middle, l + " "@, name);
    law_reads_joined(l + " "@ + middle, " "@, l + " "@ + name, " "@);
    law_reads_joined(l + " "@ + middle + " "@, r, l + " "@ + name + " "@, r);
    assert(section_rule(width, name).text == dashed_line(width, middle));
}

/// The warning stands behind the room for five minutes after it was hot, and at no other time.
pub proof fn law_warning_reads(s: Status, hot: u64, told: Seq<char>, now: u64, bright: bool)
    requires
        s.last_room_hot_time == Some(hot),
        hot <= now,
        reads(thermometer_text(s, now, bright), told),
    ensures
        now - hot < 300_000_000_000 ==> reads(
            room_text(s, now, bright),
            told + " WARNING: Ambient Temp is too HOT! Consider Shutting Down!"@,
        ),
        now - hot >= 300_000_000_000 ==> reads(room_text(s, now, bright), told),
{
    lemma_warning(bright);
    law_reads_joined(
        thermometer_text(s, now, bright),
        warning_text(bright),
        told,
        " WARNING: Ambient Temp is too HOT! Consider Shutting Down!"@,
    );
    assert(SECOND == 1_000_000_000);
}

proof fn lemma_warning(bright: bool)
    ensures
        reads(warning_text(bright), " WARNING: Ambient Temp is too HOT! Consider Shutting Down!"@),
{
    let word = "WARNING:"@;
    let rest = "Ambient Temp is too HOT! Consider Shutting Down!"@;
    let strong = "\x1b[1;38;2;255;165;0m"@;
    let weak = "\x1b[38;2;255;165;0m"@;
    let color = if bright {
        strong
    } else {
        weak
    };
    let violet = "\x1b[1;38;2;238;130;238m"@;
    let reset = "\x1b[0m"@;
    reveal_strlit(" ");
    reveal_strlit("WARNING:");
    reveal_strlit("Ambient Temp is too HOT! Consider Shutting Down!");
    reveal_strlit("\x1b[1;38;2;255;165;0m");
    reveal_strlit("\x1b[38;2;255;165;0m");
    reveal_strlit("\x1b[1;38;2;238;130;238m");
    reveal_strlit("\x1b[0m");
    crate::color::law_sequence_has_no_width(color);
    crate::color::law_sequence_has_no_width(violet);
    crate::color::law_sequence_has_no_width(reset);
    law_silent_reads(color);
    law_silent_reads(violet);
    law_silent_reads(reset);
    law_plain_reads(" "@);
    law_plain_reads(word);
    law_plain_reads(rest);
    law_reads_joined(" "@, color, " "@, Seq::empty());
    law_reads_joined(" "@ + color, word, " "@ + Seq::<char>::empty(), word);
    law_reads_joined(" "@ + color + word, reset, " "@ + Seq::<char>::empty() + word, Seq::empty());
    let a = " "@ + color + word + reset;
    let b = " "@ + Seq::<char>::empty() + word + Seq::<char>::empty();
    law_reads_joined(a, " "@, b, " "@);
    law_reads_joined(a + " "@, violet, b + " "@, Seq::empty());
    law_reads_joined(a + " "@ + violet, rest, b + " "@ + Seq::<char>::empty(), rest);
    law_reads_joined(
        a + " "@ + violet + rest,
        reset,
        b + " "@ + Seq::<char>::empty() + rest,
        Seq::empty(),
    );
    assert(warning_text(bright) =~= a + " "@ + violet + rest + reset) by {
        reveal_strlit("\x1b[1;38;2;255;165;0mWARNING:\x1b[0m");
        reveal_strlit("\x1b[38;2;255;165;0mWARNING:\x1b[0m");
        reveal_strlit(" \x1b[1;38;2;238;130;238mAmbient Temp is too HOT! Consider Shutting Down!\x1b[0m");
    }
    assert(b + " "@ + Seq::<char>::empty() + rest + Seq::<char>::empty()
        =~= " WARNING: Ambient Temp is too HOT! Consider Shutting Down!"@) by {
        reveal_strlit(" WARNING: Ambient Temp is too HOT! Consider Shutting Down!");
    }
}

/// Without a thermometer the room says so.
pub proof fn law_no_thermometer_reads(s: Status, now: u64, bright: bool)
    requires
        s.room_temp_val is None,
    ensures
        reads(thermometer_text(s, now, bright), "Room Temp: No thermometer detected"@),
{
    let bold = "\x1b[1m"@;
    let reset = "\x1b[0m"@;
    let red = "\x1b[38;2;255;0;0m"@;
    let room = "Room Temp:"@;
    let none = "No thermometer detected"@;
    reveal_strlit("\x1b[1m");
    reveal_strlit("\x1b[0m");
    reveal_strlit("\x1b[38;2;255;0;0m");
    reveal_strlit("Room Temp:");
    reveal_strlit("No thermometer detected");
    reveal_strlit(" ");
    crate::color::law_sequence_has_no_width(bold);
    crate::color::law_sequence_has_no_width(reset);
    crate::color::law_sequence_has_no_width(red);
    law_silent_reads(bold);
    law_silent_reads(reset);
    law_silent_reads(red);
    law_plain_reads(room);
    law_plain_reads(none);
    law_plain_reads(" "@);
    let e = Seq::<char>::empty();
    law_reads_joined(bold, room, e, room);
    law_reads_joined(bold + room, reset, e + room, e);
    law_reads_joined(bold + room + reset, " "@, e + room + e, " "@);
    law_reads_joined(bold + room + reset + " "@, red, e + room + e + " "@, e);
    law_reads_joined(bold + room + reset + " "@ + red, none, e + room + e + " "@ + e, none);
    law_reads_joined(bold + room + reset + " "@ + red + none, reset, e + room + e + " "@ + e + none, e);
    assert(thermometer_text(s, now, bright) =~= bold + room + reset + " "@ + red + none + reset) by {
        reveal_strlit("\x1b[1mRoom Temp:\x1b[0m \x1b[38;2;255;0;0mNo thermometer detected\x1b[0m");
    }
    assert(e + room + e + " "@ + e + none + e =~= "Room Temp: No thermometer detected"@) by {
        reveal_strlit("Room Temp: No thermometer detected");
    }
}

/// An interface that has gone is told to be deactivated, under its name, for five seconds.
pub proof fn law_gone_interface_reads(notes: Seq<(Seq<char>, Note)>, width: nat, now: u64, i: int)
    requires
        0 <= i < notes.len(),
        plain(notes[i].0),
        notes[i].1.change == Change::Deactivated,
        notes[i].1.time <= now,
        now - notes[i].1.time < 5_000_000_000,
    ensures
        exists|k: int|
            0 <= k < gone_texts(notes, width, now).len() && reads(
                #[trigger] gone_texts(notes, width, now)[k],
                right_aligned(notes[i].0, width) + ": DEACTIVATED"@,
            ),
    decreases notes.len(),
{
    let front = gone_texts(notes.drop_last(), width, now);
    let all = gone_texts(notes, width, now);
    if i == notes.len() - 1 {
        lemma_gone(notes[i].0, width);
        assert(all[front.len() as int] == right_aligned(notes[i].0, width)
            + ": \x1b[38;2;255;255;0m\x1b[1mDEACTIVATED\x1b[0m"@);
    } else {
        assert(notes.drop_last()[i] == notes[i]);
        law_gone_interface_reads(notes.drop_last(), width, now, i);
        let k = choose|k: int|
            0 <= k < front.len() && reads(#[trigger] front[k], right_aligned(notes[i].0, width) + ": DEACTIVATED"@);
        assert(all[k] == front[k]);
    }
}

proof fn lemma_gone(name: Seq<char>, width: nat)
    requires
        plain(name),
    ensures
        reads(
            right_aligned(name, width) + ": \x1b[38;2;255;255;0m\x1b[1mDEACTIVATED\x1b[0m"@,
            right_aligned(name, width) + ": DEACTIVATED"@,
        ),
{
    let shown = right_aligned(name, width);
    let yellow = "\x1b[38;2;255;255;0m"@;
    let bold = "\x1b[1m"@;
    let reset = "\x1b[0m"@;
    let word = "DEACTIVATED"@;
    reveal_strlit("\x1b[38;2;255;255;0m");
    reveal_strlit("\x1b[1m");
    reveal_strlit("\x1b[0m");
    reveal_strlit("DEACTIVATED");
    reveal_strlit(": ");
    crate::color::law_sequence_has_no_width(yellow);
    crate::color::law_sequence_has_no_width(bold);
    crate::color::law_sequence_has_no_width(reset);
    law_silent_reads(yellow);
    law_silent_reads(bold);
    law_silent_reads(reset);
    law_plain_reads(word);
    law_plain_reads(": "@);
    assert(plain(shown));
    law_plain_reads(shown);
    let e = Seq::<char>::empty();
    law_reads_joined(": "@, yellow, ": "@, e);
    law_reads_joined(": "@ + yellow, bold, ": "@ + e, e);
    law_reads_joined(": "@ + yellow + bold, word, ": "@ + e + e, word);
    law_reads_joined(": "@ + yellow + bold + word, reset, ": "@ + e + e + word, e);
    assert(": \x1b[38;2;255;255;0m\x1b[1mDEACTIVATED\x1b[0m"@ =~= ": "@ + yellow + bold + word + reset) by {
        reveal_strlit(": \x1b[38;2;255;255;0m\x1b[1mDEACTIVATED\x1b[0m");
    }
    assert(": DEACTIVATED"@ =~= ": "@ + e + e + word + e) by {
        reveal_strlit(": DEACTIVATED");
    }
    law_reads_joined(
        shown,
        ": \x1b[38;2;255;255;0m\x1b[1mDEACTIVATED\x1b[0m"@,
        shown,
        ": DEACTIVATED"@,
    );
}

/// The title tells the name of the program and its version.
pub proof fn law_title_reads(version: Seq<char>)
    requires
        plain(version),
    ensures
        reads(title_text(version), "CPU-Grid ver:"@ + version),
{
    let gold = "\x1b[1;38;2;255;215;0m"@;
    let reset = "\x1b[0m"@;
    let name = "CPU-Grid ver:"@;
    reveal_strlit("\x1b[1;38;2;255;215;0m");
    reveal_strlit("\x1b[0m");
    reveal_strlit("CPU-Grid ver:");
    crate::color::law_sequence_has_no_width(gold);
    crate::color::law_sequence_has_no_width(reset);
    law_silent_reads(gold);
    law_silent_reads(reset);
    law_plain_reads(name);
    law_plain_reads(version);
    let e = Seq::<char>::empty();
    law_reads_joined(gold, name, e, name);
    law_reads_joined(gold + name, version, e + name, version);
    law_reads_joined(gold + name + version, reset, e + name + version, e);
    assert(crate::cli::TITLE_START@ =~= gold + name) by {
        reveal_strlit("\x1b[1;38;2;255;215;0mCPU-Grid ver:");
    }
    assert(e + name + version + e =~= name + version);
}

/// A package tells its own temperature, and as the highest what is kept of its chip.
pub proof fn law_package_reads(s: Status, chip: Seq<char>, t: Temperature, p: Peaks, width: nat, now: u64, bright: bool)
    requires
        t.is_parent,
        plain(t.label),
        silent(t.color),
        silent(p.max_color),
        value_of(s.parent_ht_trackers, chip) == Some(p),
    ensures
        reads(
            temperature_cell(t, width, highest_heat(s.parent_ht_trackers, chip), now, bright),
            right_aligned(t.label, width) + ": "@ + number_text(t.val, 4, 1) + "°C"@ + (" | "@ + ("HT:"@ + " "@ + (
            number_text(p.max_val, 4, 1) + "°C"@))),
        ),
{
    law_temperature_reads(t, width, highest_heat(s.parent_ht_trackers, chip), now, bright);
}

/// The section of the cores is named after them; where there are none, or they are those of a
/// guest, it says so.
pub proof fn law_cores_are_named(s: Status)
    ensures
        s.freqs.len() > 0 && !s.is_vm ==> core_title(s) == "Core Heat-Map"@,
        s.freqs.len() > 0 && s.is_vm ==> core_title(s) == "VM Guest Detected"@,
        s.freqs.len() == 0 ==> core_title(s) == "Error: Core Frequencies cannot be accessed"@,
{
}

} // verus!
