//! What stands beside the marks of a line: which figure is at which arrow and before
//! which word.

use crate::binary64::Number;
use crate::figures::{law_size_reads_back, unit_read};
use crate::layout::right_aligned;
use crate::memory::{ram_shown, size, used_kilobytes};
use crate::network::Traffic;
use crate::peaks::{Peaks, Watermarks};
use crate::render::{iface_text, iface_width, net_total_text, pace_text};
use crate::seen::{decimal_read, plain, seen, silent};
use crate::state::{told, Status};
use crate::table::value_of;
use crate::telling::{
    law_interface_reads, law_memory_reads, law_net_total_reads, law_pace_reads, lemma_disk_speed_plain,
    lemma_net_speed_plain, simple, traffic_read,
};
use crate::text::{finishes_with, lemma_place_of, place_of};
use crate::units::{disk_speed_text, net_speed_text, FormatSize};
use vstd::prelude::*;

verus! {

/// What stands before the first of these characters.
pub open spec fn before(s: Seq<char>, mark: char) -> Seq<char> {
    s.take(place_of(s, mark) as int)
}

/// What stands behind the first of these characters.
pub open spec fn beyond(s: Seq<char>, mark: char) -> Seq<char> {
    s.skip(place_of(s, mark) as int + 1)
}

proof fn lemma_cut_at(a: Seq<char>, mark: char, b: Seq<char>)
    requires
        !a.contains(mark),
    ensures
        before(a + seq![mark] + b, mark) == a,
        beyond(a + seq![mark] + b, mark) == b,
        place_of(a + seq![mark] + b, mark) == a.len(),
{
    let s = a + seq![mark] + b;
    assert forall|i: int| 0 <= i < a.len() implies s[i] != mark by {
        assert(a.contains(a[i]));
    }
    lemma_place_of(s, mark, a.len());
    assert(s.take(a.len() as int) =~= a);
    assert(s.skip(a.len() as int + 1) =~= b);
}

proof fn lemma_simple_lacks(s: Seq<char>, mark: char)
    requires
        simple(s),
        mark > '~',
    ensures
        !s.contains(mark),
{
    if s.contains(mark) {
        let i = choose|i: int| 0 <= i < s.len() && s[i] == mark;
        assert(s[i] <= '~');
    }
}

proof fn lemma_joined_lacks(a: Seq<char>, b: Seq<char>, mark: char)
    requires
        !a.contains(mark),
        !b.contains(mark),
    ensures
        !(a + b).contains(mark),
{
    let s = a + b;
    if s.contains(mark) {
        let i = choose|i: int| 0 <= i < s.len() && s[i] == mark;
        if i < a.len() {
            assert(a[i] == mark);
        } else {
            assert(b[i - a.len()] == mark);
        }
    }
}

// ---------------------------------------------------------------------------
// Network
// ---------------------------------------------------------------------------

/// A row behind its name: received bytes stand at the first down arrow, sent bytes at the
/// first up arrow, and the highest of each at theirs.
pub open spec fn arrows_tell(row: Seq<char>, rx: Number, tx: Number, pair: (Peaks, Peaks)) -> bool {
    &&& finishes_with(before(row, '↓'), net_speed_text(rx) + " "@)
    &&& before(beyond(row, '↓'), '↑') == "  "@ + net_speed_text(tx) + " "@
    &&& beyond(beyond(row, '↓'), '↑') == "  H↓: "@ + net_speed_text(pair.0.max_val) + "  H↑: "@ + net_speed_text(
        pair.1.max_val,
    )
}

/// The parts of a row, whatever its four figures are.
#[verifier::spinoff_prover]
proof fn lemma_arrow_row(name: Seq<char>, x: Seq<char>, y: Seq<char>, u: Seq<char>, v: Seq<char>)
    requires
        !name.contains('↓'),
        !x.contains('↓'),
        !y.contains('↓'),
        !y.contains('↑'),
    ensures
        ({
            let row = name + ": "@ + (x + " ↓  "@ + y + " ↑  "@ + ("H↓:"@ + " "@ + u + "  "@ + ("H↑:"@ + " "@ + v)));
            &&& before(row, '↓') == name + ": "@ + x + " "@
            &&& finishes_with(before(row, '↓'), x + " "@)
            &&& before(beyond(row, '↓'), '↑') == "  "@ + y + " "@
            &&& beyond(beyond(row, '↓'), '↑') == "  H↓: "@ + u + "  H↑: "@ + v
        }),
{
    let row = name + ": "@ + (x + " ↓  "@ + y + " ↑  "@ + ("H↓:"@ + " "@ + u + "  "@ + ("H↑:"@ + " "@ + v)));
    let peaks = "  H↓: "@ + u + "  H↑: "@ + v;
    let a = name + ": "@ + x + " "@;
    let b = "  "@ + y + " "@;
    let rest = b + seq!['↑'] + peaks;
    assert(row == a + seq!['↓'] + rest) by {
        reveal_strlit(" ");
        reveal_strlit("  ");
        reveal_strlit(" ↓  ");
        reveal_strlit(" ↑  ");
        reveal_strlit("H↓:");
        reveal_strlit("H↑:");
        reveal_strlit("  H↓: ");
        reveal_strlit("  H↑: ");
        assert(" ↓  "@ =~= " "@ + seq!['↓'] + "  "@);
        assert(" ↑  "@ =~= " "@ + seq!['↑'] + "  "@);
        assert("  H↓: "@ =~= "  "@ + "H↓:"@ + " "@);
        assert("  H↑: "@ =~= "  "@ + "H↑:"@ + " "@);
        lemma_regrouped(name + ": "@, x, " "@, seq!['↓'], "  "@, y, " "@, seq!['↑'], "  "@, "H↓:"@, u, "H↑:"@, v);
    }
    assert(!": "@.contains('↓') && !" "@.contains('↓') && !"  "@.contains('↑') && !" "@.contains('↑')
        && !"  "@.contains('↓')) by {
        reveal_strlit(": ");
        reveal_strlit(" ");
        reveal_strlit("  ");
    }
    lemma_joined_lacks(name, ": "@, '↓');
    lemma_joined_lacks(name + ": "@, x, '↓');
    lemma_joined_lacks(name + ": "@ + x, " "@, '↓');
    lemma_joined_lacks("  "@, y, '↑');
    lemma_joined_lacks("  "@ + y, " "@, '↑');
    lemma_cut_at(a, '↓', rest);
    lemma_cut_at(b, '↑', peaks);
    let end = x + " "@;
    assert(a.subrange(a.len() - end.len(), a.len() as int) =~= end);
}

proof fn lemma_regrouped(
    n: Seq<char>,
    x: Seq<char>,
    s: Seq<char>,
    d: Seq<char>,
    t: Seq<char>,
    y: Seq<char>,
    s2: Seq<char>,
    e: Seq<char>,
    t2: Seq<char>,
    h: Seq<char>,
    u: Seq<char>,
    k: Seq<char>,
    v: Seq<char>,
)
    ensures
        n + (x + (s + d + t) + y + (s2 + e + t2) + (h + s + u + t + (k + s + v))) == n + x + s + d + ((t + y + s2) + e
            + ((t2 + h + s) + u + (t + k + s) + v)),
{
    assert(n + (x + (s + d + t) + y + (s2 + e + t2) + (h + s + u + t + (k + s + v))) =~= n + x + s + d + ((t + y + s2)
        + e + ((t2 + h + s) + u + (t + k + s) + v)));
}

proof fn lemma_arrows(name: Seq<char>, rx: Number, tx: Number, pair: (Peaks, Peaks))
    requires
        !name.contains('↓'),
        !name.contains('↑'),
    ensures
        arrows_tell(name + ": "@ + traffic_read(rx, tx, pair), rx, tx, pair),
        before(name + ": "@ + traffic_read(rx, tx, pair), '↓') == name + ": "@ + net_speed_text(rx) + " "@,
{
    lemma_net_speed_plain(rx);
    lemma_net_speed_plain(tx);
    lemma_simple_lacks(net_speed_text(rx), '↓');
    lemma_simple_lacks(net_speed_text(tx), '↑');
    lemma_simple_lacks(net_speed_text(tx), '↓');
    lemma_arrow_row(
        name,
        net_speed_text(rx),
        net_speed_text(tx),
        net_speed_text(pair.0.max_val),
        net_speed_text(pair.1.max_val),
    );
}

/// In the row of an interface that is not announced, what it receives stands at the down
/// arrow and what it sends at the up arrow, and behind them the highest of each.
pub proof fn law_arrows_of_an_interface(s: Status, node: Traffic, pair: (Peaks, Peaks), now: u64, bright: bool)
    requires
        value_of(s.net_trackers, node.iface) == Some(pair),
        !(value_of(s.net_events, node.iface) matches Some(note) && told(note.time, now)),
        plain(node.iface),
        !node.iface.contains('↓'),
        !node.iface.contains('↑'),
        silent(pair.0.max_color),
        silent(pair.1.max_color),
    ensures
        arrows_tell(seen(iface_text(s, node, now, bright)), node.rx, node.tx, pair),
{
    law_interface_reads(s, node, pair, now, bright);
    let name = right_aligned(node.iface, iface_width(s.raw_net_nodes));
    lemma_aligned_lacks(node.iface, iface_width(s.raw_net_nodes), '↓');
    lemma_aligned_lacks(node.iface, iface_width(s.raw_net_nodes), '↑');
    lemma_arrows(name, node.rx, node.tx, pair);
}

proof fn lemma_aligned_lacks(s: Seq<char>, width: nat, mark: char)
    requires
        !s.contains(mark),
        mark != ' ',
    ensures
        !right_aligned(s, width).contains(mark),
{
    let t = right_aligned(s, width);
    if t.contains(mark) {
        let i = choose|i: int| 0 <= i < t.len() && t[i] == mark;
        if s.len() < width {
            let n = width - s.len();
            if i >= n {
                assert(s[i - n] == mark);
            }
        } else {
            assert(s[i] == mark);
        }
    }
}

/// The same holds of the row of all interfaces together.
pub proof fn law_arrows_of_the_total(s: Status, now: u64, bright: bool)
    requires
        silent(s.net_total_tracker.0.max_color),
        silent(s.net_total_tracker.1.max_color),
    ensures
        arrows_tell(seen(net_total_text(s, now, bright)), s.net_total_rx, s.net_total_tx, s.net_total_tracker),
{
    law_net_total_reads(s, now, bright);
    reveal_strlit("Net Total");
    let name = right_aligned("Net Total"@, iface_width(s.raw_net_nodes));
    assert(!"Net Total"@.contains('↓') && !"Net Total"@.contains('↑'));
    lemma_aligned_lacks("Net Total"@, iface_width(s.raw_net_nodes), '↓');
    lemma_aligned_lacks("Net Total"@, iface_width(s.raw_net_nodes), '↑');
    lemma_arrows(name, s.net_total_rx, s.net_total_tx, s.net_total_tracker);
}

/// What an interface sends does not change its row up to the down arrow, whatever its
/// peaks.
pub proof fn law_sending_leaves_the_down_arrow(
    s: Status,
    t: Status,
    node: Traffic,
    tx: Number,
    pair: (Peaks, Peaks),
    other: (Peaks, Peaks),
    now: u64,
    bright: bool,
)
    requires
        value_of(s.net_trackers, node.iface) == Some(pair),
        value_of(t.net_trackers, node.iface) == Some(other),
        !(value_of(s.net_events, node.iface) matches Some(note) && told(note.time, now)),
        !(value_of(t.net_events, node.iface) matches Some(note) && told(note.time, now)),
        iface_width(s.raw_net_nodes) == iface_width(t.raw_net_nodes),
        plain(node.iface),
        !node.iface.contains('↓'),
        !node.iface.contains('↑'),
        silent(pair.0.max_color),
        silent(pair.1.max_color),
        silent(other.0.max_color),
        silent(other.1.max_color),
    ensures
        before(seen(iface_text(s, node, now, bright)), '↓') == before(
            seen(iface_text(t, Traffic { tx, ..node }, now, bright)),
            '↓',
        ),
{
    let sent = Traffic { tx, ..node };
    law_interface_reads(s, node, pair, now, bright);
    law_interface_reads(t, sent, other, now, bright);
    let name = right_aligned(node.iface, iface_width(s.raw_net_nodes));
    lemma_aligned_lacks(node.iface, iface_width(s.raw_net_nodes), '↓');
    lemma_aligned_lacks(node.iface, iface_width(s.raw_net_nodes), '↑');
    lemma_arrows(name, node.rx, node.tx, pair);
    lemma_arrows(name, node.rx, tx, other);
}

// ---------------------------------------------------------------------------
// Storage
// ---------------------------------------------------------------------------

/// In the row of a device what is read of it stands at `R↑`, what is written at `W↓`, and
/// behind `HR:` and `HW:` the highest of each that has settled.
pub proof fn law_marks_of_a_device(r: Number, w: Number, marks: Watermarks, now: u64, bright: bool)
    ensures
        ({
            let row = seen(pace_text(r, w, marks, now, bright));
            &&& before(row, '↑') == disk_speed_text(r) + " R"@
            &&& before(beyond(row, '↑'), '↓') == "  "@ + disk_speed_text(w) + " W"@
            &&& beyond(beyond(row, '↑'), '↓') == "  HR: "@ + disk_speed_text(marks.read.current) + "  HW: "@
                + disk_speed_text(marks.write.current)
        }),
{
    law_pace_reads(r, w, marks, now, bright);
    lemma_disk_speed_plain(r);
    lemma_disk_speed_plain(w);
    lemma_simple_lacks(disk_speed_text(r), '↑');
    lemma_simple_lacks(disk_speed_text(w), '↓');
    lemma_pace_row(
        disk_speed_text(r),
        disk_speed_text(w),
        disk_speed_text(marks.read.current),
        disk_speed_text(marks.write.current),
    );
}

#[verifier::spinoff_prover]
proof fn lemma_pace_row(x: Seq<char>, y: Seq<char>, u: Seq<char>, v: Seq<char>)
    requires
        !x.contains('↑'),
        !y.contains('↓'),
    ensures
        ({
            let row = x + " R↑  "@ + y + " W↓  "@ + ("HR:"@ + " "@ + u) + "  "@ + ("HW:"@ + " "@ + v);
            &&& before(row, '↑') == x + " R"@
            &&& before(beyond(row, '↑'), '↓') == "  "@ + y + " W"@
            &&& beyond(beyond(row, '↑'), '↓') == "  HR: "@ + u + "  HW: "@ + v
        }),
{
    let row = x + " R↑  "@ + y + " W↓  "@ + ("HR:"@ + " "@ + u) + "  "@ + ("HW:"@ + " "@ + v);
    let a = x + " R"@;
    let b = "  "@ + y + " W"@;
    let c = "  HR: "@ + u + "  HW: "@ + v;
    assert(row == a + seq!['↑'] + (b + seq!['↓'] + c)) by {
        reveal_strlit(" R");
        reveal_strlit(" W");
        reveal_strlit(" ");
        reveal_strlit("  ");
        reveal_strlit(" R↑  ");
        reveal_strlit(" W↓  ");
        reveal_strlit("HR:");
        reveal_strlit("HW:");
        reveal_strlit("  HR: ");
        reveal_strlit("  HW: ");
        assert(" R↑  "@ =~= " R"@ + seq!['↑'] + "  "@);
        assert(" W↓  "@ =~= " W"@ + seq!['↓'] + "  "@);
        assert("  HR: "@ =~= "  "@ + "HR:"@ + " "@);
        assert("  HW: "@ =~= "  "@ + "HW:"@ + " "@);
        lemma_regrouped_pace(x, " R"@, seq!['↑'], "  "@, y, " W"@, seq!['↓'], "HR:"@, " "@, u, "HW:"@, v);
    }
    assert(!" R"@.contains('↑') && !"  "@.contains('↓') && !" W"@.contains('↓')) by {
        reveal_strlit(" R");
        reveal_strlit(" W");
        reveal_strlit("  ");
    }
    lemma_joined_lacks(x, " R"@, '↑');
    lemma_joined_lacks("  "@, y, '↓');
    lemma_joined_lacks("  "@ + y, " W"@, '↓');
    lemma_cut_at(a, '↑', b + seq!['↓'] + c);
    lemma_cut_at(b, '↓', c);
}

proof fn lemma_regrouped_pace(
    x: Seq<char>,
    r: Seq<char>,
    d: Seq<char>,
    t: Seq<char>,
    y: Seq<char>,
    w: Seq<char>,
    e: Seq<char>,
    h: Seq<char>,
    s: Seq<char>,
    u: Seq<char>,
    k: Seq<char>,
    v: Seq<char>,
)
    ensures
        x + (r + d + t) + y + (w + e + t) + (h + s + u) + t + (k + s + v) == x + r + d + ((t + y + w) + e + ((t + h + s)
            + u + (t + k + s) + v)),
{
    assert(x + (r + d + t) + y + (w + e + t) + (h + s + u) + t + (k + s + v) =~= x + r + d + ((t + y + w) + e + ((t + h
        + s) + u + (t + k + s) + v)));
}

// ---------------------------------------------------------------------------
// Memory
// ---------------------------------------------------------------------------

/// In the line of the memory the size before `Used` is that of what is not available, the
/// one before `Avail` that of what is, and the line ends with the size of the whole.
pub proof fn law_marks_of_the_memory(total: nat, avail: nat)
    requires
        avail <= total,
    ensures
        ({
            let row = seen(ram_shown(total, avail));
            &&& before(row, 'U') == FormatSize(((total - avail) * 1024) as u64).shown() + " "@
            &&& before(beyond(row, 'U'), 'A') == "sed | "@ + FormatSize((avail * 1024) as u64).shown() + " "@
            &&& beyond(beyond(row, 'U'), 'A') == "vail | "@ + FormatSize((total * 1024) as u64).shown() + " Total"@
        }),
{
    law_memory_reads(total, avail);
    let used = used_kilobytes(total, avail);
    lemma_size_lacks(FormatSize((used * 1024) as u64));
    lemma_size_lacks(FormatSize((avail * 1024) as u64));
    lemma_memory_row(size(used * 1024), size(avail * 1024), size(total * 1024));
}

#[verifier::spinoff_prover]
proof fn lemma_memory_row(x: Seq<char>, y: Seq<char>, z: Seq<char>)
    requires
        !x.contains('U'),
        !y.contains('A'),
    ensures
        ({
            let row = x + " "@ + "Used"@ + " | "@ + y + " "@ + "Avail"@ + " | "@ + z + " "@ + "Total"@;
            &&& before(row, 'U') == x + " "@
            &&& before(beyond(row, 'U'), 'A') == "sed | "@ + y + " "@
            &&& beyond(beyond(row, 'U'), 'A') == "vail | "@ + z + " Total"@
        }),
{
    let row = x + " "@ + "Used"@ + " | "@ + y + " "@ + "Avail"@ + " | "@ + z + " "@ + "Total"@;
    let a = x + " "@;
    let b = "sed | "@ + y + " "@;
    let c = "vail | "@ + z + " Total"@;
    assert(row == a + seq!['U'] + (b + seq!['A'] + c)) by {
        reveal_strlit(" ");
        reveal_strlit(" | ");
        reveal_strlit("Used");
        reveal_strlit("Avail");
        reveal_strlit("Total");
        reveal_strlit("sed");
        reveal_strlit("vail");
        reveal_strlit("sed | ");
        reveal_strlit("vail | ");
        reveal_strlit(" Total");
        assert("Used"@ =~= seq!['U'] + "sed"@);
        assert("Avail"@ =~= seq!['A'] + "vail"@);
        assert("sed | "@ =~= "sed"@ + " | "@);
        assert("vail | "@ =~= "vail"@ + " | "@);
        assert(" Total"@ =~= " "@ + "Total"@);
        lemma_regrouped_memory(x, " "@, seq!['U'], "sed"@, " | "@, y, seq!['A'], "vail"@, z, "Total"@);
    }
    assert(!" "@.contains('U') && !" "@.contains('A') && !"sed | "@.contains('A')) by {
        reveal_strlit(" ");
        reveal_strlit("sed | ");
    }
    lemma_joined_lacks(x, " "@, 'U');
    lemma_joined_lacks("sed | "@, y, 'A');
    lemma_joined_lacks("sed | "@ + y, " "@, 'A');
    lemma_cut_at(a, 'U', b + seq!['A'] + c);
    lemma_cut_at(b, 'A', c);
}

proof fn lemma_regrouped_memory(
    x: Seq<char>,
    s: Seq<char>,
    d: Seq<char>,
    p: Seq<char>,
    t: Seq<char>,
    y: Seq<char>,
    e: Seq<char>,
    q: Seq<char>,
    z: Seq<char>,
    w: Seq<char>,
)
    ensures
        x + s + (d + p) + t + y + s + (e + q) + t + z + s + w == x + s + d + (((p + t) + y + s) + e + ((q + t) + z + (s
            + w))),
{
    assert(x + s + (d + p) + t + y + s + (e + q) + t + z + s + w =~= x + s + d + (((p + t) + y + s) + e + ((q + t) + z
        + (s + w))));
}

proof fn lemma_size_lacks(z: FormatSize)
    ensures
        !z.shown().contains('U'),
        !z.shown().contains('A'),
{
    crate::telling::lemma_size_letters(z);
}

/// The size before `Used` reads back to the bytes that are not available, to within half
/// of its last digit: it is nothing where all is available, and never falls where less
/// is.
pub proof fn law_used_memory_reads_back(total: nat, avail: nat)
    requires
        avail <= total,
        total * 1024 <= crate::binary64::MANTISSA_LIMIT,
    ensures
        ({
            let text = before(seen(ram_shown(total, avail)), 'U');
            let unit = unit_read(text.subrange(6, 10));
            &&& text.len() == 11
            &&& decimal_read(text.take(6)) matches Some(d) && d.rounds(((total - avail) * 1024) as nat, unit)
        }),
        ({
            let text = before(beyond(seen(ram_shown(total, avail)), 'U'), 'A').skip(6);
            let unit = unit_read(text.subrange(6, 10));
            &&& text.len() == 11
            &&& decimal_read(text.take(6)) matches Some(d) && d.rounds(avail * 1024, unit)
        }),
{
    law_marks_of_the_memory(total, avail);
    let used = FormatSize(((total - avail) * 1024) as u64);
    let free = FormatSize((avail * 1024) as u64);
    law_size_reads_back(used);
    law_size_reads_back(free);
    crate::units::law_size_width(used);
    crate::units::law_size_width(free);
    reveal_strlit(" ");
    reveal_strlit("sed | ");
    let a = used.shown() + " "@;
    let b = free.shown() + " "@;
    assert(("sed | "@ + free.shown() + " "@).skip(6) =~= b);
    assert(a.take(6) =~= used.shown().take(6));
    assert(a.subrange(6, 10) =~= used.shown().skip(6));
    assert(b.take(6) =~= free.shown().take(6));
    assert(b.subrange(6, 10) =~= free.shown().skip(6));
}

} // verus!
