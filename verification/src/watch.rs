//! What is kept of the messages: the highest values, each under its own name, and what is
//! still told of them.

use crate::binary64::{
    at_most, below, highest, integer, larger, law_integers_are_exact, law_numbers_are_ordered, lowest,
    same, Number, MANTISSA_LIMIT,
};
use crate::color::{net_color, room_temp_color};
use crate::flows::{altogether, law_capacities_add_up, law_disk_totals_are_sums, law_net_totals_are_sums};
use crate::network::{Change, Traffic};
use crate::peaks::{fresh, law_max_is_highest, Peaks, Watermark, Watermarks};
use crate::state::{
    after_all, disks_after, heat_after, heats_after, law_overclock_is_highest, lemma_disks_tracked,
    lemma_heat_distinct, lemma_heats_distinct, lemma_nets_tracked, marks_in, net_after, net_totals,
    pair_after, pair_in, peaks_in, quits, recorded, told_notes, Input, Msg, Note, Status,
};
use crate::storage::DiskNode;
use crate::table::{distinct, law_stored, lemma_slot};
use crate::text::texts;
use crate::thermal::{Temperature, Zones};
use vstd::prelude::*;

verus! {

/// One more value: none that was below the peak is above it now.
proof fn lemma_one_more(p: Peaks, val: Number, color: Seq<char>, now: u64)
    requires
        p.max_val !is Nan,
        recorded(val),
    ensures
        p.with_max(val, color, now).max_val !is Nan,
        at_most(val, p.with_max(val, color, now).max_val),
        forall|x: Number|
            recorded(x) && #[trigger] at_most(x, p.max_val) ==> at_most(x, p.with_max(val, color, now).max_val),
        p.with_max(val, color, now).max_val == p.max_val || (p.with_max(val, color, now).max_val == val && p.with_max(
            val,
            color,
            now,
        ).max_color == color),
{
    law_max_is_highest(p, val, color, now);
    let new = p.with_max(val, color, now).max_val;
    assert forall|x: Number| recorded(x) && #[trigger] at_most(x, p.max_val) implies at_most(x, new) by {
        law_numbers_are_ordered(x, p.max_val, new);
        if same(p.max_val, lowest()) {
            law_numbers_are_ordered(x, p.max_val, lowest());
            law_numbers_are_ordered(lowest(), x, x);
        }
    }
}

/// What is kept of an interface is the highest speed of receiving, and apart from it the
/// highest speed of sending: no speed of the interface is above it, and it is one of them, in
/// its colour, or was known.
pub proof fn law_peaks_of_an_interface(
    trackers: Seq<(Seq<char>, (Peaks, Peaks))>,
    nodes: Seq<Traffic>,
    now: u64,
    name: Seq<char>,
)
    requires
        distinct(trackers),
        pair_in(trackers, name).0.max_val !is Nan,
        pair_in(trackers, name).1.max_val !is Nan,
        forall|i: int| 0 <= i < nodes.len() ==> recorded((#[trigger] nodes[i]).rx) && recorded(nodes[i].tx),
    ensures
        ({
            let start = pair_in(trackers, name);
            let (down, up) = pair_in(net_after(trackers, nodes, now), name);
            &&& down.max_val !is Nan
            &&& up.max_val !is Nan
            &&& forall|i: int|
                0 <= i < nodes.len() && (#[trigger] nodes[i]).iface == name ==> at_most(nodes[i].rx, down.max_val)
                    && at_most(nodes[i].tx, up.max_val)
            &&& down.max_val == start.0.max_val || exists|i: int|
                0 <= i < nodes.len() && (#[trigger] nodes[i]).iface == name && nodes[i].rx == down.max_val
                    && down.max_color == net_color(nodes[i].rx, nodes[i].max)
            &&& up.max_val == start.1.max_val || exists|i: int|
                0 <= i < nodes.len() && (#[trigger] nodes[i]).iface == name && nodes[i].tx == up.max_val
                    && up.max_color == net_color(nodes[i].tx, nodes[i].max)
        }),
    decreases nodes.len(),
{
    if nodes.len() > 0 {
        let front = nodes.drop_last();
        assert forall|i: int| 0 <= i < front.len() implies recorded((#[trigger] front[i]).rx) && recorded(
            front[i].tx,
        ) by {
            assert(front[i] == nodes[i]);
        }
        law_peaks_of_an_interface(trackers, front, now, name);
        lemma_nets_tracked(trackers, front, now);
        let before = net_after(trackers, front, now);
        let n = nodes.last();
        assert(nodes[nodes.len() - 1] == n);
        let (p, q) = pair_in(before, name);
        let value = pair_after(pair_in(before, n.iface), n.rx, n.tx, n.max, now);
        law_stored(before, n.iface, value, name);
        let start = pair_in(trackers, name);
        let (down, up) = pair_in(net_after(trackers, nodes, now), name);
        if n.iface == name {
            lemma_one_more(p, n.rx, net_color(n.rx, n.max), now);
            lemma_one_more(q, n.tx, net_color(n.tx, n.max), now);
        }
        assert forall|i: int| 0 <= i < nodes.len() && (#[trigger] nodes[i]).iface == name implies at_most(
            nodes[i].rx,
            down.max_val,
        ) && at_most(nodes[i].tx, up.max_val) by {
            if i < front.len() {
                assert(front[i] == nodes[i]);
            }
        }
        lemma_speed_is_one_of_them(front, nodes, name, start, (p, q), (down, up));
    }
}

proof fn lemma_speed_is_one_of_them(
    front: Seq<Traffic>,
    nodes: Seq<Traffic>,
    name: Seq<char>,
    start: (Peaks, Peaks),
    before: (Peaks, Peaks),
    after: (Peaks, Peaks),
)
    requires
        nodes.len() > 0,
        front == nodes.drop_last(),
        before.0.max_val == start.0.max_val || exists|i: int|
            0 <= i < front.len() && (#[trigger] front[i]).iface == name && front[i].rx == before.0.max_val
                && before.0.max_color == net_color(front[i].rx, front[i].max),
        before.1.max_val == start.1.max_val || exists|i: int|
            0 <= i < front.len() && (#[trigger] front[i]).iface == name && front[i].tx == before.1.max_val
                && before.1.max_color == net_color(front[i].tx, front[i].max),
        after == before || nodes.last().iface == name,
        after.0 == before.0 || (after.0.max_val == nodes.last().rx && after.0.max_color == net_color(
            nodes.last().rx,
            nodes.last().max,
        )),
        after.1 == before.1 || (after.1.max_val == nodes.last().tx && after.1.max_color == net_color(
            nodes.last().tx,
            nodes.last().max,
        )),
    ensures
        after.0.max_val == start.0.max_val || exists|i: int|
            0 <= i < nodes.len() && (#[trigger] nodes[i]).iface == name && nodes[i].rx == after.0.max_val
                && after.0.max_color == net_color(nodes[i].rx, nodes[i].max),
        after.1.max_val == start.1.max_val || exists|i: int|
            0 <= i < nodes.len() && (#[trigger] nodes[i]).iface == name && nodes[i].tx == after.1.max_val
                && after.1.max_color == net_color(nodes[i].tx, nodes[i].max),
{
    assert(nodes[nodes.len() - 1] == nodes.last());
    assert forall|i: int| 0 <= i < front.len() implies #[trigger] front[i] == nodes[i] by {}
}

/// The temperature kept of a chip is the highest of its packages: none of them is above it.
pub proof fn law_heat_of_a_chip(
    trackers: Seq<(Seq<char>, Peaks)>,
    zones: Zones,
    now: u64,
    name: Seq<char>,
)
    requires
        distinct(trackers),
        peaks_in(trackers, name).max_val !is Nan,
        forall|z: int, i: int|
            0 <= z < zones.len() && 0 <= i < zones[z].1.len() ==> recorded((#[trigger] zones[z].1[i]).val),
    ensures
        ({
            let start = peaks_in(trackers, name);
            let heat = peaks_in(heats_after(trackers, zones, now), name);
            &&& heat.max_val !is Nan
            &&& forall|x: Number| recorded(x) && #[trigger] at_most(x, start.max_val) ==> at_most(x, heat.max_val)
            &&& forall|z: int, i: int|
                0 <= z < zones.len() && 0 <= i < zones[z].1.len() && zones[z].0 == name && (
                #[trigger] zones[z].1[i]).is_parent ==> at_most(zones[z].1[i].val, heat.max_val)
            &&& heat.max_val == start.max_val || exists|z: int, i: int|
                0 <= z < zones.len() && 0 <= i < zones[z].1.len() && zones[z].0 == name && (
                #[trigger] zones[z].1[i]).is_parent && zones[z].1[i].val == heat.max_val && zones[z].1[i].color
                    == heat.max_color
        }),
    decreases zones.len(),
{
    if zones.len() > 0 {
        let front = zones.drop_last();
        let last = zones.last();
        assert(zones[zones.len() - 1] == last);
        assert forall|z: int, i: int| 0 <= z < front.len() && 0 <= i < front[z].1.len() implies recorded(
            (#[trigger] front[z].1[i]).val,
        ) by {
            assert(recorded(zones[z].1[i].val));
        }
        law_heat_of_a_chip(trackers, front, now, name);
        lemma_heats_distinct(trackers, front, now);
        let before = heats_after(trackers, front, now);
        assert forall|i: int| 0 <= i < last.1.len() implies recorded((#[trigger] last.1[i]).val) by {
            assert(recorded(zones[zones.len() - 1].1[i].val));
        }
        lemma_heat_of_a_zone(before, last.0, last.1, now, name);
        let start = peaks_in(trackers, name);
        let middle = peaks_in(before, name);
        let heat = peaks_in(heats_after(trackers, zones, now), name);
        assert forall|z: int, i: int|
            0 <= z < zones.len() && 0 <= i < zones[z].1.len() && zones[z].0 == name && (
            #[trigger] zones[z].1[i]).is_parent implies at_most(zones[z].1[i].val, heat.max_val) by {
            assert(recorded(zones[z].1[i].val));
            if z < front.len() {
                assert(front[z].1[i].is_parent);
            } else {
                assert(last.1[i].is_parent);
            }
        }
        if heat != middle {
            let i = choose|i: int|
                0 <= i < last.1.len() && last.0 == name && (#[trigger] last.1[i]).is_parent && last.1[i].val
                    == heat.max_val && last.1[i].color == heat.max_color;
            assert(zones[zones.len() - 1].1[i].is_parent);
        } else if middle.max_val != start.max_val {
            let (z, i) = choose|z: int, i: int|
                0 <= z < front.len() && 0 <= i < front[z].1.len() && front[z].0 == name && (
                #[trigger] front[z].1[i]).is_parent && front[z].1[i].val == middle.max_val && front[z].1[i].color
                    == middle.max_color;
            assert(zones[z].1[i].is_parent);
        }
    }
}

proof fn lemma_heat_of_a_zone(
    trackers: Seq<(Seq<char>, Peaks)>,
    chip: Seq<char>,
    stats: Seq<Temperature>,
    now: u64,
    name: Seq<char>,
)
    requires
        distinct(trackers),
        peaks_in(trackers, name).max_val !is Nan,
        forall|i: int| 0 <= i < stats.len() ==> recorded((#[trigger] stats[i]).val),
    ensures
        ({
            let start = peaks_in(trackers, name);
            let heat = peaks_in(heat_after(trackers, chip, stats, now), name);
            &&& heat.max_val !is Nan
            &&& forall|x: Number| recorded(x) && #[trigger] at_most(x, start.max_val) ==> at_most(x, heat.max_val)
            &&& forall|i: int|
                0 <= i < stats.len() && chip == name && (#[trigger] stats[i]).is_parent ==> at_most(
                    stats[i].val,
                    heat.max_val,
                )
            &&& heat == start || exists|i: int|
                0 <= i < stats.len() && chip == name && (#[trigger] stats[i]).is_parent && stats[i].val
                    == heat.max_val && stats[i].color == heat.max_color
        }),
    decreases stats.len(),
{
    if stats.len() > 0 {
        let front = stats.drop_last();
        let t = stats.last();
        assert(stats[stats.len() - 1] == t);
        assert forall|i: int| 0 <= i < front.len() implies recorded((#[trigger] front[i]).val) by {
            assert(front[i] == stats[i]);
        }
        lemma_heat_of_a_zone(trackers, chip, front, now, name);
        lemma_heat_distinct(trackers, chip, front, now);
        let before = heat_after(trackers, chip, front, now);
        let start = peaks_in(trackers, name);
        let middle = peaks_in(before, name);
        let heat = peaks_in(heat_after(trackers, chip, stats, now), name);
        if t.is_parent {
            let value = peaks_in(before, chip).with_max(t.val, t.color, now);
            law_stored(before, chip, value, name);
            if chip == name {
                lemma_one_more(middle, t.val, t.color, now);
            }
        }
        assert forall|i: int| 0 <= i < stats.len() && chip == name && (#[trigger] stats[i]).is_parent implies at_most(
            stats[i].val,
            heat.max_val,
        ) by {
            assert(recorded(stats[i].val));
            if i < front.len() {
                assert(front[i] == stats[i]);
            }
        }
        if heat == middle && middle != start {
            let i = choose|i: int|
                0 <= i < front.len() && chip == name && (#[trigger] front[i]).is_parent && front[i].val
                    == middle.max_val && front[i].color == middle.max_color;
            assert(stats[i] == front[i]);
        }
    }
}

/// One more speed: what waits to become a peak is the highest.
proof fn lemma_one_more_speed(w: Watermark, speed: Number, now: u64)
    requires
        w.pending !is Nan,
        speed !is Nan,
    ensures
        w.after(speed, now).pending !is Nan,
        at_most(speed, w.after(speed, now).pending),
        forall|x: Number| #[trigger] at_most(x, w.pending) ==> at_most(x, w.after(speed, now).pending),
        w.after(speed, now).pending == w.pending || w.after(speed, now).pending == speed,
{
    law_numbers_are_ordered(w.pending, speed, speed);
    law_numbers_are_ordered(speed, w.pending, w.pending);
    assert forall|x: Number| #[trigger] at_most(x, w.pending) implies at_most(x, w.after(speed, now).pending) by {
        law_numbers_are_ordered(x, w.pending, speed);
    }
}

/// What waits to become a peak of a device is the highest speed of reading, and apart from it
/// the highest speed of writing: no speed of the device is above it, and it is one of them or
/// was known.
pub proof fn law_peaks_of_a_device(
    trackers: Seq<(Seq<char>, Watermarks)>,
    nodes: Seq<DiskNode>,
    now: u64,
    name: Seq<char>,
)
    requires
        distinct(trackers),
        marks_in(trackers, name, now).read.pending !is Nan,
        marks_in(trackers, name, now).write.pending !is Nan,
        forall|i: int|
            0 <= i < nodes.len() ==> (#[trigger] nodes[i]).r_speed !is Nan && nodes[i].w_speed !is Nan,
    ensures
        ({
            let start = marks_in(trackers, name, now);
            let marks = marks_in(disks_after(trackers, nodes, now), name, now);
            &&& marks.read.pending !is Nan
            &&& marks.write.pending !is Nan
            &&& forall|i: int|
                0 <= i < nodes.len() && (#[trigger] nodes[i]).raw_dev_name == name ==> at_most(
                    nodes[i].r_speed,
                    marks.read.pending,
                ) && at_most(nodes[i].w_speed, marks.write.pending)
            &&& marks.read.pending == start.read.pending || exists|i: int|
                0 <= i < nodes.len() && (#[trigger] nodes[i]).raw_dev_name == name && nodes[i].r_speed
                    == marks.read.pending
            &&& marks.write.pending == start.write.pending || exists|i: int|
                0 <= i < nodes.len() && (#[trigger] nodes[i]).raw_dev_name == name && nodes[i].w_speed
                    == marks.write.pending
        }),
    decreases nodes.len(),
{
    if nodes.len() > 0 {
        let front = nodes.drop_last();
        assert forall|i: int| 0 <= i < front.len() implies (#[trigger] front[i]).r_speed !is Nan
            && front[i].w_speed !is Nan by {
            assert(front[i] == nodes[i]);
        }
        law_peaks_of_a_device(trackers, front, now, name);
        lemma_disks_tracked(trackers, front, now);
        let before = disks_after(trackers, front, now);
        let n = nodes.last();
        assert(nodes[nodes.len() - 1] == n);
        let middle = marks_in(before, name, now);
        let value = marks_in(before, n.raw_dev_name, now).after(n.r_speed, n.w_speed, now);
        law_stored(before, n.raw_dev_name, value, name);
        let start = marks_in(trackers, name, now);
        let marks = marks_in(disks_after(trackers, nodes, now), name, now);
        if n.raw_dev_name == name {
            lemma_one_more_speed(middle.read, n.r_speed, now);
            lemma_one_more_speed(middle.write, n.w_speed, now);
        }
        assert forall|i: int| 0 <= i < nodes.len() && (#[trigger] nodes[i]).raw_dev_name == name implies at_most(
            nodes[i].r_speed,
            marks.read.pending,
        ) && at_most(nodes[i].w_speed, marks.write.pending) by {
            if i < front.len() {
                assert(front[i] == nodes[i]);
            }
        }
        assert forall|i: int| 0 <= i < front.len() implies #[trigger] front[i] == nodes[i] by {}
    }
}

/// A peak that is shown has stood for a second and a half, and is fresh for the three seconds
/// after it first shows.
pub proof fn law_peaks_stand_and_strobe(w: Watermark, speed: Number, now: u64, later: u64)
    requires
        now <= later,
    ensures
        w.after(speed, now).current != w.current ==> {
            &&& now - w.after(speed, now).pending_time >= 1_500_000_000
            &&& w.after(speed, now).current == w.after(speed, now).pending
            &&& (fresh(w.after(speed, now).last_peak, later) <==> later - now < 3_000_000_000)
        },
        below(w.pending, speed) ==> w.after(speed, now).current == w.current && w.after(speed, now).pending == speed,
{
}

proof fn lemma_told_notes(notes: Seq<(Seq<char>, Note)>, now: u64, name: Seq<char>, note: Note)
    requires
        forall|i: int| 0 <= i < notes.len() ==> (#[trigger] notes[i]).1.time <= now,
    ensures
        told_notes(notes, now).contains((name, note)) <==> notes.contains((name, note)) && now - note.time
            < 5_000_000_000,
    decreases notes.len(),
{
    if notes.len() > 0 {
        let front = notes.drop_last();
        let last = notes.last();
        assert(notes[notes.len() - 1] == last);
        assert forall|i: int| 0 <= i < front.len() implies (#[trigger] front[i]).1.time <= now by {
            assert(front[i] == notes[i]);
        }
        lemma_told_notes(front, now, name, note);
        let rest = told_notes(front, now);
        assert(front.push(last) =~= notes);
        if notes.contains((name, note)) && last != (name, note) {
            let i = choose|i: int| 0 <= i < notes.len() && notes[i] == (name, note);
            assert(front[i] == (name, note));
        }
        if front.contains((name, note)) {
            let i = choose|i: int| 0 <= i < front.len() && front[i] == (name, note);
            assert(notes[i] == (name, note));
        }
        let grown = rest.push(last);
        assert(grown[rest.len() as int] == last);
        if rest.contains((name, note)) {
            let i = choose|i: int| 0 <= i < rest.len() && rest[i] == (name, note);
            assert(grown[i] == (name, note));
        }
        if grown.contains((name, note)) && last != (name, note) {
            let i = choose|i: int| 0 <= i < grown.len() && grown[i] == (name, note);
            assert(rest[i] == (name, note));
        }
    }
}

/// That an interface came or went is told for five seconds, and then no more.
pub proof fn law_told_for_five_seconds(s: Status, iface: Seq<char>, change: Change, now: u64, later: u64)
    requires
        s.consistent(),
        now <= later,
        forall|i: int| 0 <= i < s.net_events.len() ==> (#[trigger] s.net_events[i]).1.time <= later,
    ensures
        s.after_event(iface, change, now).tidied(later).net_events.contains((iface, Note { change, time: now }))
            <==> later - now < 5_000_000_000,
{
    let note = Note { change, time: now };
    let after = s.after_event(iface, change, now).net_events;
    law_stored(s.net_events, iface, note, iface);
    lemma_slot(after, iface);
    lemma_slot(s.net_events, iface);
    let k = crate::table::slot(after, iface) as int;
    assert(after[k] == (iface, note));
    assert(after.contains((iface, note)));
    lemma_told_notes(after, later, iface, note);
}

/// Whatever has a fresh peak, a tick has the screen drawn again; nothing else does.
pub proof fn law_fresh_peaks_are_drawn_again(s: Status, now: u64)
    requires
        !s.screen_is_dirty,
    ensures
        ({
            let drawn = s.after(Msg::Tick, now).screen_is_dirty;
            &&& fresh(s.hoc_last_peak, now) ==> drawn
            &&& fresh(s.room_temp_tracker.last_min_peak, now) ==> drawn
            &&& fresh(s.room_temp_tracker.last_max_peak, now) ==> drawn
            &&& forall|i: int|
                0 <= i < s.parent_ht_trackers.len() && fresh(
                    (#[trigger] s.parent_ht_trackers[i]).1.last_max_peak,
                    now,
                ) ==> drawn
            &&& forall|i: int|
                0 <= i < s.net_trackers.len() && (fresh((#[trigger] s.net_trackers[i]).1.0.last_max_peak, now)
                    || fresh(s.net_trackers[i].1.1.last_max_peak, now)) ==> drawn
            &&& fresh(s.net_total_tracker.0.last_max_peak, now) ==> drawn
            &&& fresh(s.net_total_tracker.1.last_max_peak, now) ==> drawn
            &&& forall|i: int|
                0 <= i < s.disk_trackers.len() && (fresh((#[trigger] s.disk_trackers[i]).1.read.last_peak, now)
                    || fresh(s.disk_trackers[i].1.write.last_peak, now)) ==> drawn
            &&& fresh(s.disk_global_hw.read.last_peak, now) ==> drawn
            &&& fresh(s.disk_global_hw.write.last_peak, now) ==> drawn
        }),
{
}

/// A peak is fresh for three seconds; what never was is not.
pub proof fn law_fresh_for_three_seconds(t: u64, now: u64)
    requires
        t <= now,
    ensures
        fresh(Some(t), now) <==> now - t < 3_000_000_000,
        !fresh(None, now),
{
}

/// The monitor ends with q, small or large, and with c where the control key is held; with no
/// other key.
pub proof fn law_keys_that_quit(code: char, control: bool)
    ensures
        quits('q', control),
        quits('Q', control),
        quits('c', true),
        !quits('c', false),
        code != 'q' && code != 'Q' && code != 'c' ==> !quits(code, control),
{
}

/// What a message tells is what is known after it, whatever came before.
pub proof fn law_what_is_told_is_known(s: Status, msgs: Seq<(Msg, u64)>, msg: Msg, now: u64)
    ensures
        ({
            let after = after_all(s, msgs.push((msg, now)));
            &&& msg matches Msg::MemStats(m) ==> {
                &&& after.mem_ram_str == m.ram_str@
                &&& after.mem_zswap_str == m.zswap_str@
                &&& after.mem_swap_total_str == m.swap_total_str@
                &&& after.swaps_formatted == texts(m.swaps_formatted@)
            }
            &&& msg matches Msg::UserIdle(time) ==> after.idle_time == time@
            &&& msg matches Msg::DiskStats(d) ==> after.disk_agg_total == d.agg_total && after.disk_agg_used
                == d.agg_used
            &&& msg matches Msg::InputEvent(Input::Resize(columns, rows)) ==> after.width == columns && after.height
                == rows
            &&& msg matches Msg::RoomTemp(None) ==> after.room_temp_val is None && after.room_temp_tracker
                == after_all(s, msgs).room_temp_tracker
            &&& msg matches Msg::RoomTemp(Some(t)) ==> after.room_temp_val == Some(t@)
            &&& (msg !is InputEvent && msg !is Tick ==> after.screen_is_dirty)
        }),
{
    let all = msgs.push((msg, now));
    assert(all.drop_last() =~= msgs);
    assert(all.last() == (msg, now));
}

/// From 40 degrees on the room is hot, and the time of it is kept; below it that stays as it
/// was, and so it does where there is no thermometer.
pub proof fn law_room_is_hot_from_forty(s: Status, temp: Number, now: u64)
    ensures
        at_most(integer(40), temp) ==> s.after_room(Some(temp), now).last_room_hot_time == Some(now),
        !at_most(integer(40), temp) ==> s.after_room(Some(temp), now).last_room_hot_time == s.last_room_hot_time,
        s.after_room(None, now).last_room_hot_time == s.last_room_hot_time,
{
}

/// A core that is faster than the upper limit of the hardware is an overclock, and the highest
/// of them is kept; a core within the limits is none.
pub proof fn law_overclocks_are_above_the_limit(s: Status, high: Number, freqs: Seq<Number>, now: u64, i: int)
    requires
        s.limits.1 == Some(high),
        high !is Nan,
        s.highest_overclock is None,
        0 <= i < freqs.len(),
        forall|k: int| 0 <= k < freqs.len() ==> (#[trigger] freqs[k]) !is Nan,
    ensures
        below(high, freqs[i]) ==> s.after_freqs(freqs, now).highest_overclock is Some && at_most(
            freqs[i],
            s.after_freqs(freqs, now).highest_overclock->0,
        ),
        s.after_freqs(freqs, now).highest_overclock is Some ==> below(
            high,
            s.after_freqs(freqs, now).highest_overclock->0,
        ) && freqs.contains(s.after_freqs(freqs, now).highest_overclock->0),
{
    law_overclock_is_highest(Some(high), (None, s.hoc_last_peak), freqs, now);
}

/// What only equals a peak is no new one: the value, its colour and its time stay, and so do
/// those of a speed that waits to become one.
pub proof fn law_ties_change_nothing(p: Peaks, w: Watermark, val: Number, color: Seq<char>, now: u64)
    requires
        val !is Nan,
        w.pending !is Nan,
        recorded(p.max_val),
        below(p.min_val, highest()),
    ensures
        at_most(val, p.max_val) ==> p.with_max(val, color, now) == p,
        at_most(p.min_val, val) ==> p.with_min(val, color, now) == p,
        at_most(val, w.pending) ==> w.after(val, now).pending == w.pending && w.after(val, now).pending_time
            == w.pending_time,
{
    law_numbers_are_ordered(val, p.max_val, p.max_val);
    law_numbers_are_ordered(p.min_val, val, val);
    law_numbers_are_ordered(val, w.pending, w.pending);
    law_numbers_are_ordered(lowest(), p.max_val, p.max_val);
    law_numbers_are_ordered(p.min_val, highest(), highest());
    law_numbers_are_ordered(p.max_val, lowest(), lowest());
    law_numbers_are_ordered(highest(), p.min_val, p.min_val);
}

/// A new highest temperature of the room is kept in its colour with its time, and so is a new
/// lowest one; each leaves the other as it was.
pub proof fn law_new_extremes_of_the_room(s: Status, temp: Number, now: u64)
    requires
        temp !is Nan,
        recorded(s.room_temp_tracker.max_val),
        below(s.room_temp_tracker.min_val, highest()),
        at_most(s.room_temp_tracker.min_val, s.room_temp_tracker.max_val),
    ensures
        ({
            let p = s.room_temp_tracker;
            let q = s.after_room(Some(temp), now).room_temp_tracker;
            &&& below(p.max_val, temp) ==> q.max_val == temp && q.max_color == room_temp_color(temp) && q.last_max_peak
                == Some(now) && q.min_val == p.min_val && q.last_min_peak == p.last_min_peak
            &&& below(temp, p.min_val) ==> q.min_val == temp && q.min_color == room_temp_color(temp) && q.last_min_peak
                == Some(now) && q.max_val == p.max_val && q.last_max_peak == p.last_max_peak
        }),
{
    let p = s.room_temp_tracker;
    law_numbers_are_ordered(p.min_val, p.max_val, temp);
    law_numbers_are_ordered(temp, p.min_val, p.max_val);
    law_numbers_are_ordered(p.min_val, temp, temp);
    law_numbers_are_ordered(temp, p.max_val, p.max_val);
    law_numbers_are_ordered(lowest(), p.max_val, p.max_val);
    law_numbers_are_ordered(p.max_val, lowest(), lowest());
    law_numbers_are_ordered(p.min_val, highest(), highest());
    law_numbers_are_ordered(highest(), p.min_val, p.min_val);
}

/// The peaks of all interfaces together are those of the sums: what all received goes to the
/// one of receiving, what all sent to the one of sending.
pub proof fn law_peaks_of_all_interfaces(
    s: Status,
    nodes: Seq<Traffic>,
    rx: Seq<nat>,
    tx: Seq<nat>,
    max: Seq<nat>,
    now: u64,
)
    requires
        rx.len() == nodes.len(),
        tx.len() == nodes.len(),
        max.len() == nodes.len(),
        forall|i: int|
            0 <= i < nodes.len() ==> (#[trigger] nodes[i]).rx == integer(rx[i]) && nodes[i].tx == integer(tx[i])
                && nodes[i].max == integer(max[i]),
        altogether(rx) <= MANTISSA_LIMIT,
        altogether(tx) <= MANTISSA_LIMIT,
        altogether(max) <= MANTISSA_LIMIT,
        s.net_total_tracker.0.max_val !is Nan,
        s.net_total_tracker.1.max_val !is Nan,
    ensures
        ({
            let after = s.after_network(nodes, now);
            let (down, up) = after.net_total_tracker;
            &&& after.net_total_max == integer(altogether(max))
            &&& at_most(integer(altogether(rx)), down.max_val)
            &&& at_most(integer(altogether(tx)), up.max_val)
            &&& down.max_val == s.net_total_tracker.0.max_val || down.max_val == integer(altogether(rx))
            &&& up.max_val == s.net_total_tracker.1.max_val || up.max_val == integer(altogether(tx))
        }),
{
    law_net_totals_are_sums(nodes, rx, tx);
    law_capacities_add_up(nodes, max);
    law_integers_are_exact(altogether(rx));
    law_integers_are_exact(altogether(tx));
    let (r, t, m) = net_totals(nodes);
    let all = larger(m, integer(1));
    law_max_is_highest(s.net_total_tracker.0, r, net_color(r, all), now);
    law_max_is_highest(s.net_total_tracker.1, t, net_color(t, all), now);
}

/// The speeds of all devices together, and what waits to become their peaks, are those of the
/// sums: of what all were read, and apart from it of what all were written.
pub proof fn law_peaks_of_all_devices(
    s: Status,
    nodes: Seq<DiskNode>,
    read: Seq<nat>,
    written: Seq<nat>,
    total: u64,
    used: u64,
    now: u64,
)
    requires
        read.len() == nodes.len(),
        written.len() == nodes.len(),
        forall|i: int|
            0 <= i < nodes.len() ==> (#[trigger] nodes[i]).r_speed == integer(read[i]) && nodes[i].w_speed
                == integer(written[i]),
        altogether(read) <= MANTISSA_LIMIT,
        altogether(written) <= MANTISSA_LIMIT,
        s.disk_global_hw.read.pending !is Nan,
        s.disk_global_hw.write.pending !is Nan,
    ensures
        ({
            let after = s.after_disks(nodes, total, used, now);
            let marks = after.disk_global_hw;
            &&& after.disk_nodes == nodes
            &&& after.disk_agg_total == total
            &&& after.disk_agg_used == used
            &&& after.disk_agg_read == integer(altogether(read))
            &&& after.disk_agg_write == integer(altogether(written))
            &&& at_most(integer(altogether(read)), marks.read.pending)
            &&& at_most(integer(altogether(written)), marks.write.pending)
            &&& marks.read.pending == s.disk_global_hw.read.pending || marks.read.pending == integer(altogether(read))
            &&& marks.write.pending == s.disk_global_hw.write.pending || marks.write.pending == integer(
                altogether(written),
            )
        }),
{
    if nodes.len() > 0 {
        law_disk_totals_are_sums(nodes, read, written, nodes[0]);
    } else {
        assert(read.len() == 0 && written.len() == 0);
        assert(altogether(read) == 0 && altogether(written) == 0);
    }
    law_integers_are_exact(altogether(read));
    law_integers_are_exact(altogether(written));
    lemma_one_more_speed(s.disk_global_hw.read, integer(altogether(read)), now);
    lemma_one_more_speed(s.disk_global_hw.write, integer(altogether(written)), now);
}

} // verus!
