//! What is on the screen: everything that is known, in its place.

use crate::grid::{columns, filler, grid_rows, pair_rows, row_text, two_columns};
use crate::network::Change;
use crate::render::{
    activity_text, all_rows, capacity_text, capacity_texts, combined_rows, combined_texts,
    combined_total_text, core_cell, core_cells, core_rows, device_text, device_texts, fits_combined,
    gone_texts, header_rows, highest_heat, iface_text, iface_texts, iface_width, label_width, line,
    lines_with, memory_rows, net_total_text, network_rows, overclock_line, pace_rows, picture, room_text,
    section_rows, section_rule, space_rows, split_texts, storage_pace_text, storage_rows,
    storage_total_text, temperature_cell, temperature_cells, temperature_rows, zone_rows, zones_rows,
    Erase, Line, Picture,
};
use crate::state::{told, Status};
use crate::text::{holds, occurs_at};
use vstd::prelude::*;

verus! {

// ---------------------------------------------------------------------------
// Texts in texts
// ---------------------------------------------------------------------------

proof fn lemma_holds_part(a: Seq<char>, t: Seq<char>, b: Seq<char>)
    ensures
        holds(a + t + b, t),
{
    let s = a + t + b;
    assert(s.subrange(a.len() as int, (a.len() + t.len()) as int) =~= t);
    assert(occurs_at(s, t, a.len() as int));
}

proof fn lemma_holds_itself(t: Seq<char>)
    ensures
        holds(t, t),
{
    lemma_holds_part(Seq::empty(), t, Seq::empty());
    assert(Seq::<char>::empty() + t + Seq::<char>::empty() =~= t);
}

proof fn lemma_holds_end(a: Seq<char>, t: Seq<char>)
    ensures
        holds(a + t, t),
{
    lemma_holds_part(a, t, Seq::empty());
    assert(a + t + Seq::<char>::empty() =~= a + t);
}

proof fn lemma_holds_start(t: Seq<char>, b: Seq<char>)
    ensures
        holds(t + b, t),
{
    lemma_holds_part(Seq::empty(), t, b);
    assert(Seq::<char>::empty() + t + b =~= t + b);
}

/// What a part of a text holds, the text holds.
proof fn lemma_holds_within(s: Seq<char>, t: Seq<char>, u: Seq<char>)
    requires
        holds(s, t),
        holds(t, u),
    ensures
        holds(s, u),
{
    let i = choose|i: int| occurs_at(s, t, i);
    let j = choose|j: int| occurs_at(t, u, j);
    assert(s.subrange(i + j, i + j + u.len()) =~= s.subrange(i, i + t.len()).subrange(j, j + u.len()));
    assert(occurs_at(s, u, i + j));
}

// ---------------------------------------------------------------------------
// Cells and items
// ---------------------------------------------------------------------------

/// Every item stands in a row of two columns.
pub proof fn law_every_item_has_a_row(items: Seq<Seq<char>>, first: nat, width: nat, i: int) -> (r: int)
    requires
        0 <= i < items.len(),
    ensures
        0 <= r < pair_rows(items, first, width).len(),
        holds(pair_rows(items, first, width)[r], items[i]),
    decreases items.len(),
{
    let rows = pair_rows(items, first, width);
    if items.len() >= 2 && first + 3 + crate::layout::width_of(items[1]) <= width {
        let rest = items.skip(2);
        if i == 0 {
            assert(items[0] + filler(items[0], first) + " | "@ + items[1] =~= items[0] + (filler(items[0], first)
                + " | "@ + items[1]));
            lemma_holds_start(items[0], filler(items[0], first) + " | "@ + items[1]);
            0
        } else if i == 1 {
            lemma_holds_end(items[0] + filler(items[0], first) + " | "@, items[1]);
            0
        } else {
            let r = law_every_item_has_a_row(rest, first, width, i - 2);
            assert(rest[i - 2] == items[i]);
            assert(rows[r + 1] == pair_rows(rest, first, width)[r]);
            r + 1
        }
    } else {
        let rest = items.skip(1);
        if i == 0 {
            lemma_holds_itself(items[0]);
            0
        } else {
            let r = law_every_item_has_a_row(rest, first, width, i - 1);
            assert(rest[i - 1] == items[i]);
            assert(rows[r + 1] == pair_rows(rest, first, width)[r]);
            r + 1
        }
    }
}

proof fn lemma_row_holds(cells: Seq<Seq<char>>, cols: nat, i: int)
    requires
        0 <= i < cells.len(),
    ensures
        holds(row_text(cells, cols), cells[i]),
    decreases cells.len(),
{
    let front = row_text(cells.drop_last(), cols);
    let last = cells.last();
    let tail = if cells.len() < cols {
        " | "@
    } else {
        Seq::empty()
    };
    assert(row_text(cells, cols) =~= front + last + tail);
    if i == cells.len() - 1 {
        lemma_holds_part(front, last, tail);
    } else {
        lemma_row_holds(cells.drop_last(), cols, i);
        assert(front + last + tail =~= front + (last + tail));
        lemma_holds_start(front, last + tail);
        assert(cells.drop_last()[i] == cells[i]);
        lemma_holds_within(row_text(cells, cols), front, cells[i]);
    }
}

/// Every cell stands in the row of the grid that its number gives.
pub proof fn law_every_cell_has_a_row(cells: Seq<Seq<char>>, cols: nat, i: int)
    requires
        0 <= i < cells.len(),
        cols > 0,
    ensures
        0 <= i / (cols as int) < grid_rows(cells, cols).len(),
        holds(grid_rows(cells, cols)[i / (cols as int)], cells[i]),
    decreases cells.len(),
{
    let n = cols as int;
    if cells.len() <= cols {
        assert(i / n == 0) by (nonlinear_arith)
            requires
                0 <= i < n,
        ;
        lemma_row_holds(cells, cols, i);
    } else if i < cols {
        assert(i / n == 0) by (nonlinear_arith)
            requires
                0 <= i < n,
        ;
        lemma_row_holds(cells.take(n), cols, i);
        assert(cells.take(n)[i] == cells[i]);
    } else {
        let rest = cells.skip(n);
        law_every_cell_has_a_row(rest, cols, i - n);
        assert(rest[i - n] == cells[i]);
        assert((i - n) / n == i / n - 1) by (nonlinear_arith)
            requires
                n > 0,
                i >= n,
        ;
    }
}

// ---------------------------------------------------------------------------
// Rows
// ---------------------------------------------------------------------------

/// A row of these holds the text.
pub open spec fn among(rows: Seq<Line>, text: Seq<char>) -> bool {
    exists|r: int| 0 <= r < rows.len() && holds((#[trigger] rows[r]).text, text)
}

proof fn lemma_among(rows: Seq<Line>, r: int, text: Seq<char>)
    requires
        0 <= r < rows.len(),
        holds(rows[r].text, text),
    ensures
        among(rows, text),
{
}

proof fn lemma_among_joined(a: Seq<Line>, b: Seq<Line>, text: Seq<char>)
    ensures
        among(a, text) ==> among(a + b, text),
        among(b, text) ==> among(a + b, text),
{
    if among(a, text) {
        let r = choose|r: int| 0 <= r < a.len() && holds((#[trigger] a[r]).text, text);
        assert((a + b)[r] == a[r]);
    }
    if among(b, text) {
        let r = choose|r: int| 0 <= r < b.len() && holds((#[trigger] b[r]).text, text);
        assert((a + b)[r + a.len()] == b[r]);
    }
}

proof fn lemma_among_within(rows: Seq<Line>, text: Seq<char>, part: Seq<char>)
    requires
        among(rows, text),
        holds(text, part),
    ensures
        among(rows, part),
{
    let r = choose|r: int| 0 <= r < rows.len() && holds((#[trigger] rows[r]).text, text);
    lemma_holds_within(rows[r].text, text, part);
}

proof fn lemma_items_among(items: Seq<Seq<char>>, width: nat, erase: Erase, i: int)
    requires
        0 <= i < items.len(),
    ensures
        among(lines_with(two_columns(items, width), erase), items[i]),
{
    let first = crate::grid::first_width(items);
    let r = law_every_item_has_a_row(items, first, width, i);
    lemma_among(lines_with(two_columns(items, width), erase), r, items[i]);
}

proof fn lemma_cells_among(cells: Seq<Seq<char>>, cols: nat, erase: Erase, i: int)
    requires
        0 <= i < cells.len(),
        cols > 0,
    ensures
        among(lines_with(grid_rows(cells, cols), erase), cells[i]),
{
    law_every_cell_has_a_row(cells, cols, i);
    lemma_among(lines_with(grid_rows(cells, cols), erase), i / (cols as int), cells[i]);
}

/// A line in one of the six parts of the screen is on the screen.
proof fn lemma_drawn(s: Status, version: Seq<char>, now: u64, bright: bool, text: Seq<char>)
    requires
        among(header_rows(s, version, now, bright), text) || among(temperature_rows(s, now, bright), text) || among(
            core_rows(s),
            text,
        ) || among(memory_rows(s), text) || among(network_rows(s, now, bright), text) || among(
            storage_rows(s, now, bright),
            text,
        ),
    ensures
        among(all_rows(s, version, now, bright), text),
{
    let a = header_rows(s, version, now, bright);
    let b = temperature_rows(s, now, bright);
    let c = core_rows(s);
    let d = memory_rows(s);
    let e = network_rows(s, now, bright);
    let f = storage_rows(s, now, bright);
    lemma_among_joined(a, b, text);
    lemma_among_joined(a + b, c, text);
    lemma_among_joined(a + b + c, d, text);
    lemma_among_joined(a + b + c + d, e, text);
    lemma_among_joined(a + b + c + d + e, f, text);
}

/// The header of the screen: the title in the first row, then the model, the keys, the
/// limits and the activity of the user.
pub proof fn law_header_is_drawn(s: Status, version: Seq<char>, now: u64, bright: bool)
    ensures
        all_rows(s, version, now, bright).len() >= 5,
        holds(all_rows(s, version, now, bright)[0].text, version),
        holds(all_rows(s, version, now, bright)[1].text, s.cpu_model_display),
        all_rows(s, version, now, bright)[3].text == overclock_line(s, now, bright),
        all_rows(s, version, now, bright)[4].text == activity_text(s),
{
    reveal(header_rows);
    let rows = all_rows(s, version, now, bright);
    let head = header_rows(s, version, now, bright);
    assert(rows[0] == head[0] && rows[1] == head[1] && rows[3] == head[3] && rows[4] == head[4]);
    lemma_holds_part(crate::cli::TITLE_START@, version, "\x1b[0m"@);
    lemma_holds_part(crate::color::BOLD@, s.cpu_model_display, crate::color::RESET@);
}

/// The room is on the screen, and every temperature of every chip under the name of its
/// chip.
pub proof fn law_temperatures_are_drawn(s: Status, version: Seq<char>, now: u64, bright: bool, z: int, i: int)
    requires
        s.width > 0,
    ensures
        among(all_rows(s, version, now, bright), room_text(s, now, bright)),
        0 <= z < s.cpu_temps.len() && 0 <= i < s.cpu_temps[z].1.len() ==> among(
            all_rows(s, version, now, bright),
            s.cpu_temps[z].0,
        ) && among(
            all_rows(s, version, now, bright),
            temperature_cell(
                s.cpu_temps[z].1[i],
                label_width(s.cpu_temps[z].1),
                highest_heat(s.parent_ht_trackers, s.cpu_temps[z].0),
                now,
                bright,
            ),
        ),
{
    reveal(temperature_rows);
    let top = seq![
        section_rule(s.width as nat, "Temperature Heat-Map"@),
        line(room_text(s, now, bright)),
    ];
    let zones = zones_rows(s, s.cpu_temps, now, bright);
    lemma_holds_itself(room_text(s, now, bright));
    lemma_among(top, 1, room_text(s, now, bright));
    lemma_among_joined(top, zones, room_text(s, now, bright));
    lemma_drawn(s, version, now, bright, room_text(s, now, bright));
    if 0 <= z < s.cpu_temps.len() && 0 <= i < s.cpu_temps[z].1.len() {
        let zone = s.cpu_temps[z];
        let highest = highest_heat(s.parent_ht_trackers, zone.0);
        let cells = temperature_cells(zone.1, highest, now, bright);
        let cols = columns(s.width as nat, zone.1.len());
        let head = seq![line("\x1b[1mCPU Temps ("@ + zone.0 + "):\x1b[0m"@)];
        let grid = lines_with(grid_rows(cells, cols), Erase::Before);
        lemma_holds_part("\x1b[1mCPU Temps ("@, zone.0, "):\x1b[0m"@);
        lemma_among(head, 0, zone.0);
        lemma_among_joined(head, grid, zone.0);
        lemma_cells_among(cells, cols, Erase::Before, i);
        lemma_among_joined(head, grid, cells[i]);
        lemma_zone_among(s, s.cpu_temps, now, bright, z, zone.0);
        lemma_zone_among(s, s.cpu_temps, now, bright, z, cells[i]);
        lemma_among_joined(top, zones, zone.0);
        lemma_among_joined(top, zones, cells[i]);
        lemma_drawn(s, version, now, bright, zone.0);
        lemma_drawn(s, version, now, bright, cells[i]);
    }
}

proof fn lemma_zone_among(
    s: Status,
    zones: crate::thermal::Zones,
    now: u64,
    bright: bool,
    z: int,
    text: Seq<char>,
)
    requires
        0 <= z < zones.len(),
        among(zone_rows(s, zones[z], now, bright), text),
    ensures
        among(zones_rows(s, zones, now, bright), text),
    decreases zones.len(),
{
    let front = zones_rows(s, zones.drop_last(), now, bright);
    let last = zone_rows(s, zones.last(), now, bright);
    lemma_among_joined(front, last, text);
    if z < zones.len() - 1 {
        assert(zones.drop_last()[z] == zones[z]);
        lemma_zone_among(s, zones.drop_last(), now, bright, z, text);
    }
}

/// Every core is on the screen.
pub proof fn law_cores_are_drawn(s: Status, version: Seq<char>, now: u64, bright: bool, i: int)
    requires
        0 <= i < s.freqs.len(),
    ensures
        among(all_rows(s, version, now, bright), core_cell(s, i)),
{
    reveal(core_rows);
    let cells = core_cells(s);
    let cols = columns(s.width as nat, s.freqs.len());
    let top = seq![section_rule(s.width as nat, crate::render::core_title(s))];
    lemma_cells_among(cells, cols, Erase::Before, i);
    lemma_among_joined(top, lines_with(grid_rows(cells, cols), Erase::Before), cells[i]);
    lemma_drawn(s, version, now, bright, core_cell(s, i));
}

/// The lines of the memory are on the screen, each behind its name, and every swap device.
pub proof fn law_memory_is_drawn(s: Status, version: Seq<char>, now: u64, bright: bool, i: int)
    ensures
        among(all_rows(s, version, now, bright), "\x1b[1mRAM:\x1b[0m "@ + s.mem_ram_str),
        among(all_rows(s, version, now, bright), "\x1b[1mZswap:\x1b[0m "@ + s.mem_zswap_str),
        among(all_rows(s, version, now, bright), "\x1b[1mSwap:\x1b[0m "@ + s.mem_swap_total_str),
        0 <= i < s.swaps_formatted.len() ==> among(all_rows(s, version, now, bright), s.swaps_formatted[i]),
{
    reveal(memory_rows);
    let ram = "\x1b[1mRAM:\x1b[0m "@ + s.mem_ram_str;
    let zswap = "\x1b[1mZswap:\x1b[0m "@ + s.mem_zswap_str;
    let swap = "\x1b[1mSwap:\x1b[0m "@ + s.mem_swap_total_str;
    let top = seq![section_rule(s.width as nat, "Memory Heat-Map"@), line(ram), line(zswap), line(swap)];
    let items = lines_with(two_columns(s.swaps_formatted, s.width as nat), Erase::After);
    lemma_holds_itself(ram);
    lemma_holds_itself(zswap);
    lemma_holds_itself(swap);
    lemma_among(top, 1, ram);
    lemma_among(top, 2, zswap);
    lemma_among(top, 3, swap);
    lemma_among_joined(top, items, ram);
    lemma_among_joined(top, items, zswap);
    lemma_among_joined(top, items, swap);
    lemma_drawn(s, version, now, bright, ram);
    lemma_drawn(s, version, now, bright, zswap);
    lemma_drawn(s, version, now, bright, swap);
    if 0 <= i < s.swaps_formatted.len() {
        lemma_items_among(s.swaps_formatted, s.width as nat, Erase::After, i);
        lemma_among_joined(top, items, s.swaps_formatted[i]);
        lemma_drawn(s, version, now, bright, s.swaps_formatted[i]);
    }
}

/// The network as a whole is on the screen, every interface, and for a while every
/// interface that went.
pub proof fn law_network_is_drawn(s: Status, version: Seq<char>, now: u64, bright: bool, i: int)
    ensures
        among(all_rows(s, version, now, bright), net_total_text(s, now, bright)),
        0 <= i < s.raw_net_nodes.len() ==> among(
            all_rows(s, version, now, bright),
            iface_text(s, s.raw_net_nodes[i], now, bright),
        ),
        0 <= i < s.net_events.len() && s.net_events[i].1.change == Change::Deactivated && told(
            s.net_events[i].1.time,
            now,
        ) ==> among(all_rows(s, version, now, bright), s.net_events[i].0),
{
    reveal(network_rows);
    let width = iface_width(s.raw_net_nodes);
    let gone = gone_texts(s.net_events, width, now);
    let items = iface_texts(s, now, bright) + gone;
    let top = seq![section_rule(s.width as nat, "Network Heat-Map"@), line(net_total_text(s, now, bright))];
    let rows = lines_with(two_columns(items, s.width as nat), Erase::After);
    lemma_holds_itself(net_total_text(s, now, bright));
    lemma_among(top, 1, net_total_text(s, now, bright));
    lemma_among_joined(top, rows, net_total_text(s, now, bright));
    lemma_drawn(s, version, now, bright, net_total_text(s, now, bright));
    if 0 <= i < s.raw_net_nodes.len() {
        let text = iface_text(s, s.raw_net_nodes[i], now, bright);
        lemma_items_among(items, s.width as nat, Erase::After, i);
        assert(items[i] == text);
        lemma_among_joined(top, rows, text);
        lemma_drawn(s, version, now, bright, text);
    }
    if 0 <= i < s.net_events.len() && s.net_events[i].1.change == Change::Deactivated && told(
        s.net_events[i].1.time,
        now,
    ) {
        let k = lemma_gone(s.net_events, width, now, i);
        let at = s.raw_net_nodes.len() + k;
        lemma_items_among(items, s.width as nat, Erase::After, at);
        assert(items[at] == gone[k]);
        lemma_among_within(rows, gone[k], s.net_events[i].0);
        lemma_among_joined(top, rows, s.net_events[i].0);
        lemma_drawn(s, version, now, bright, s.net_events[i].0);
    }
}

proof fn lemma_gone(notes: Seq<(Seq<char>, crate::state::Note)>, width: nat, now: u64, i: int) -> (k: int)
    requires
        0 <= i < notes.len(),
        notes[i].1.change == Change::Deactivated,
        told(notes[i].1.time, now),
    ensures
        0 <= k < gone_texts(notes, width, now).len(),
        holds(gone_texts(notes, width, now)[k], notes[i].0),
        holds(gone_texts(notes, width, now)[k], "DEACTIVATED"@),
    decreases notes.len(),
{
    let front = gone_texts(notes.drop_last(), width, now);
    if i == notes.len() - 1 {
        let name = crate::layout::right_aligned(notes[i].0, width);
        let word = ": \x1b[38;2;255;255;0m\x1b[1mDEACTIVATED\x1b[0m"@;
        lemma_holds_start(name, word);
        lemma_aligned_holds(notes[i].0, width);
        lemma_holds_within(name + word, name, notes[i].0);
        reveal_strlit(": \x1b[38;2;255;255;0m\x1b[1mDEACTIVATED\x1b[0m");
        reveal_strlit("DEACTIVATED");
        let start = word.len() - 4 - 11;
        assert(word.subrange(start, start + 11) =~= "DEACTIVATED"@);
        assert(occurs_at(word, "DEACTIVATED"@, start));
        lemma_holds_end(name, word);
        lemma_holds_within(name + word, word, "DEACTIVATED"@);
        front.len() as int
    } else {
        assert(notes.drop_last()[i] == notes[i]);
        let k = lemma_gone(notes.drop_last(), width, now, i);
        assert(gone_texts(notes, width, now)[k] == front[k]);
        k
    }
}

proof fn lemma_aligned_holds(t: Seq<char>, width: nat)
    ensures
        holds(crate::layout::right_aligned(t, width), t),
{
    if t.len() < width {
        lemma_holds_end(crate::layout::repeated(' ', (width - t.len()) as nat), t);
    } else {
        lemma_holds_itself(t);
    }
}

/// The storage as a whole is on the screen, and of every volume how full it is and how
/// fast its device.
pub proof fn law_storage_is_drawn(s: Status, version: Seq<char>, now: u64, bright: bool, i: int)
    ensures
        among(all_rows(s, version, now, bright), storage_total_text(s)),
        among(all_rows(s, version, now, bright), storage_pace_text(s, now, bright)),
        0 <= i < s.disk_nodes.len() ==> among(all_rows(s, version, now, bright), capacity_text(s.disk_nodes[i]))
            && among(all_rows(s, version, now, bright), device_text(s, s.disk_nodes[i], now, bright)),
{
    reveal(storage_rows);
    let total = storage_total_text(s);
    let pace = storage_pace_text(s, now, bright);
    if fits_combined(s, now, bright) {
        lemma_side_by_side(s, now, bright, i);
    } else {
        lemma_one_below_the_other(s, now, bright, i);
    }
    lemma_drawn(s, version, now, bright, total);
    lemma_drawn(s, version, now, bright, pace);
    if 0 <= i < s.disk_nodes.len() {
        lemma_drawn(s, version, now, bright, capacity_text(s.disk_nodes[i]));
        lemma_drawn(s, version, now, bright, device_text(s, s.disk_nodes[i], now, bright));
    }
}

proof fn lemma_holds_both(a: Seq<char>, t: Seq<char>, b: Seq<char>, u: Seq<char>)
    ensures
        holds(a + t + b + u, t),
        holds(a + t + b + u, u),
{
    lemma_holds_part(a, t, b + u);
    assert(a + t + b + u =~= a + t + (b + u));
    lemma_holds_end(a + t + b, u);
}

proof fn lemma_holds_first(t: Seq<char>, a: Seq<char>, b: Seq<char>, u: Seq<char>)
    ensures
        holds(t + a + b + u, t),
        holds(t + a + b + u, u),
{
    lemma_holds_start(t, a + b + u);
    assert(t + a + b + u =~= t + (a + b + u));
    lemma_holds_end(t + a + b, u);
}

#[verifier::spinoff_prover]
proof fn lemma_side_by_side(s: Status, now: u64, bright: bool, i: int)
    ensures
        among(combined_rows(s, now, bright), storage_total_text(s)),
        among(combined_rows(s, now, bright), storage_pace_text(s, now, bright)),
        0 <= i < s.disk_nodes.len() ==> among(combined_rows(s, now, bright), capacity_text(s.disk_nodes[i])) && among(
            combined_rows(s, now, bright),
            device_text(s, s.disk_nodes[i], now, bright),
        ),
{
    let total = storage_total_text(s);
    let pace = storage_pace_text(s, now, bright);
    let text = combined_total_text(s, now, bright);
    let items = combined_texts(s, now, bright);
    let rows = combined_rows(s, now, bright);
    lemma_section(s.width, "Storage Heat-Map"@, text, items, i);
    lemma_holds_both("\x1b[1mStorage Total:\x1b[0m "@, total, " | "@, pace);
    lemma_among_within(rows, text, total);
    lemma_among_within(rows, text, pace);
    if 0 <= i < s.disk_nodes.len() {
        lemma_combined_item(s, now, bright, i);
        lemma_among_within(rows, items[i], capacity_text(s.disk_nodes[i]));
        lemma_among_within(rows, items[i], device_text(s, s.disk_nodes[i], now, bright));
    }
}

proof fn lemma_combined_item(s: Status, now: u64, bright: bool, i: int)
    requires
        0 <= i < s.disk_nodes.len(),
    ensures
        i < combined_texts(s, now, bright).len(),
        holds(combined_texts(s, now, bright)[i], capacity_text(s.disk_nodes[i])),
        holds(combined_texts(s, now, bright)[i], device_text(s, s.disk_nodes[i], now, bright)),
{
    reveal(combined_texts);
    let caps = capacity_texts(s);
    lemma_holds_first(
        caps[i],
        filler(caps[i], crate::render::widest_text(caps)),
        " | "@,
        device_texts(s, now, bright)[i],
    );
}

#[verifier::spinoff_prover]
proof fn lemma_one_below_the_other(s: Status, now: u64, bright: bool, i: int)
    ensures
        ({
            let rows = space_rows(s) + pace_rows(s, now, bright);
            &&& among(rows, storage_total_text(s))
            &&& among(rows, storage_pace_text(s, now, bright))
            &&& 0 <= i < s.disk_nodes.len() ==> among(rows, capacity_text(s.disk_nodes[i])) && among(
                rows,
                device_text(s, s.disk_nodes[i], now, bright),
            )
        }),
{
    let total = storage_total_text(s);
    let pace = storage_pace_text(s, now, bright);
    let text = "\x1b[1mStorage Space Total:\x1b[0m "@ + total;
    let speed = "\x1b[1mStorage \x1b[1m↓↑\x1b[0m \x1b[1mTotal:\x1b[0m "@ + pace;
    let a = space_rows(s);
    let b = pace_rows(s, now, bright);
    lemma_section(s.width, "Storage Space Heat-Map"@, text, capacity_texts(s), i);
    lemma_section(
        s.width,
        "Storage \x1b[1m↓↑\x1b[0m \x1b[1;38;2;255;215;0mHeat-Map"@,
        speed,
        split_texts(s, now, bright),
        i,
    );
    lemma_holds_end("\x1b[1mStorage Space Total:\x1b[0m "@, total);
    lemma_holds_end("\x1b[1mStorage \x1b[1m↓↑\x1b[0m \x1b[1mTotal:\x1b[0m "@, pace);
    lemma_among_within(a, text, total);
    lemma_among_within(b, speed, pace);
    lemma_among_joined(a, b, total);
    lemma_among_joined(a, b, pace);
    if 0 <= i < s.disk_nodes.len() {
        let n = s.disk_nodes[i];
        let device = device_text(s, n, now, bright);
        lemma_holds_end(n.mount_padded, device);
        lemma_among_within(b, split_texts(s, now, bright)[i], device);
        lemma_among_joined(a, b, capacity_text(n));
        lemma_among_joined(a, b, device);
    }
}

proof fn lemma_section(width: u16, name: Seq<char>, total: Seq<char>, items: Seq<Seq<char>>, i: int)
    ensures
        among(section_rows(width, name, total, items), total),
        0 <= i < items.len() ==> among(section_rows(width, name, total, items), items[i]),
{
    reveal(section_rows);
    let top = seq![section_rule(width as nat, name), line(total)];
    let rows = lines_with(two_columns(items, width as nat), Erase::After);
    lemma_holds_itself(total);
    lemma_among(top, 1, total);
    lemma_among_joined(top, rows, total);
    if 0 <= i < items.len() {
        lemma_items_among(items, width as nat, Erase::After, i);
        lemma_among_joined(top, rows, items[i]);
    }
}

/// The rows come from the top, as many as the terminal has.
pub proof fn law_rows_come_from_the_top(s: Status, version: Seq<char>, now: u64, bright: bool, r: int)
    requires
        s.width >= crate::grid::MIN_CELL_WIDTH,
        0 <= r < all_rows(s, version, now, bright).len(),
        r < s.height,
    ensures
        picture(s, version, now, bright) matches Picture::Rows { rows, .. } && r < rows.len() && rows[r] == all_rows(
            s,
            version,
            now,
            bright,
        )[r],
{
}

/// Where the terminal has rows for all, all lines that were drawn are seen.
pub proof fn law_tall_terminals_show_all(s: Status, version: Seq<char>, now: u64, bright: bool, text: Seq<char>)
    requires
        s.width >= crate::grid::MIN_CELL_WIDTH,
        all_rows(s, version, now, bright).len() <= s.height,
        among(all_rows(s, version, now, bright), text),
    ensures
        picture(s, version, now, bright) matches Picture::Rows { rows, .. } && among(rows, text),
{
    let all = all_rows(s, version, now, bright);
    let r = choose|r: int| 0 <= r < all.len() && holds((#[trigger] all[r]).text, text);
    law_rows_come_from_the_top(s, version, now, bright, r);
    let rows = picture(s, version, now, bright)->rows;
    assert(holds(rows[r].text, text));
}

/// The rows of sections come in this order: the room, the memory, the network, the storage.
pub proof fn law_sections_in_order(s: Status, version: Seq<char>, now: u64, bright: bool)
    ensures
        ({
            let rows = all_rows(s, version, now, bright);
            exists|a: int, b: int, c: int, d: int|
                4 < a < b < c < d < rows.len() && (#[trigger] rows[a]).text == room_text(s, now, bright)
                    && holds((#[trigger] rows[b]).text, s.mem_ram_str) && (#[trigger] rows[c]).text == net_total_text(
                    s,
                    now,
                    bright,
                ) && holds((#[trigger] rows[d]).text, storage_total_text(s))
        }),
{
    reveal(header_rows);
    reveal(temperature_rows);
    reveal(memory_rows);
    reveal(network_rows);
    let head = header_rows(s, version, now, bright);
    let temps = temperature_rows(s, now, bright);
    let cores = core_rows(s);
    let memory = memory_rows(s);
    let network = network_rows(s, now, bright);
    let storage = storage_rows(s, now, bright);
    let rows = all_rows(s, version, now, bright);
    let total = storage_total_text(s);
    assert(among(storage, total)) by {
        lemma_storage_total(s, now, bright);
    }
    let k = choose|k: int| 0 <= k < storage.len() && holds((#[trigger] storage[k]).text, total);
    let a: int = head.len() as int + 1;
    let b: int = head.len() as int + temps.len() + cores.len() + 1;
    let c: int = head.len() as int + temps.len() + cores.len() + memory.len() + 1;
    let d: int = head.len() as int + temps.len() + cores.len() + memory.len() + network.len() + k;
    assert(rows[a] == temps[1]);
    assert(rows[b] == memory[1]);
    assert(rows[c] == network[1]);
    assert(rows[d] == storage[k]);
    lemma_holds_end("\x1b[1mRAM:\x1b[0m "@, s.mem_ram_str);
}

proof fn lemma_storage_total(s: Status, now: u64, bright: bool)
    ensures
        among(storage_rows(s, now, bright), storage_total_text(s)),
{
    reveal(storage_rows);
    let total = storage_total_text(s);
    let pace = storage_pace_text(s, now, bright);
    if fits_combined(s, now, bright) {
        let text = combined_total_text(s, now, bright);
        lemma_section(s.width, "Storage Heat-Map"@, text, combined_texts(s, now, bright), 0);
        lemma_holds_part("\x1b[1mStorage Total:\x1b[0m "@, total, " | "@ + pace);
        assert(text =~= "\x1b[1mStorage Total:\x1b[0m "@ + total + (" | "@ + pace));
        lemma_among_within(combined_rows(s, now, bright), text, total);
    } else {
        let text = "\x1b[1mStorage Space Total:\x1b[0m "@ + total;
        lemma_section(s.width, "Storage Space Heat-Map"@, text, capacity_texts(s), 0);
        lemma_holds_end("\x1b[1mStorage Space Total:\x1b[0m "@, total);
        lemma_among_within(space_rows(s), text, total);
        lemma_among_joined(space_rows(s), pace_rows(s, now, bright), total);
    }
}

} // verus!
