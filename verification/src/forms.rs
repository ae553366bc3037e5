//! How the screen is laid out, and the forms of what the system says.

use crate::decimal::{decimal_of, is_digit, law_decimal_round_trip, lemma_decimal_digits};
use crate::grid::columns;
use crate::hardware::{frequency_texts, gives_frequency, is_emulated, is_guest};
use crate::idle::{command_of, spaced, Query};
use crate::layout::{left_aligned, repeated, right_aligned};
use crate::memory::{zswap_known, Zswap};
use crate::sources::{law_first_line_is_cut_off, law_last_part_of_a_path};
use crate::span::{time_between, whole_seconds};
use crate::storage::{copies_on_write, device_name, is_storage, FileSystem};
use crate::text::{
    begins_with, finishes_with, first_marked, holds, is_space, lemma_place_of, lines_of, marked, occurs_at,
    precedes, replaced, trimmed, trimmed_end, trimmed_start, without_return,
};
use crate::thermal::sensor_of;
use crate::warmth::lemma_holds;
use vstd::prelude::*;

verus! {

// ---------------------------------------------------------------------------
// Columns
// ---------------------------------------------------------------------------

/// A grid has as many columns as fit with 17 characters each: one more would not fit, or would
/// be empty. It always has one.
pub proof fn law_columns(width: nat, cells: nat)
    ensures
        columns(width, cells) >= 1,
        columns(width, cells) > 1 ==> 17 * columns(width, cells) <= width && columns(width, cells) <= cells,
        columns(width, cells) < cells ==> width < 17 * (columns(width, cells) + 1),
{
    let fit = width / 17;
    assert(17 * fit <= width < 17 * (fit + 1)) by (nonlinear_arith)
        requires
            fit == width / 17,
    ;
    assert(columns(width, cells) <= fit || columns(width, cells) == 1);
    if columns(width, cells) <= fit {
        assert(17 * columns(width, cells) <= 17 * fit);
    }
}

/// What is aligned to the right stands at the right, and what is aligned to the left at the
/// left; the rest are spaces.
pub proof fn law_alignment(s: Seq<char>, width: nat, i: int)
    ensures
        finishes_with(right_aligned(s, width), s),
        begins_with(left_aligned(s, width), s),
        0 <= i < right_aligned(s, width).len() - s.len() ==> right_aligned(s, width)[i] == ' ',
        s.len() <= i < left_aligned(s, width).len() ==> left_aligned(s, width)[i] == ' ',
{
    let r = right_aligned(s, width);
    let l = left_aligned(s, width);
    assert(r.subrange(r.len() - s.len(), r.len() as int) =~= s);
    assert(l.subrange(0, s.len() as int) =~= s);
}

/// Texts are in the order of a dictionary: by their first characters that differ, and what is
/// shorter first where there are none.
pub proof fn law_dictionary_order(start: Seq<char>, a: char, b: char, x: Seq<char>, y: Seq<char>)
    ensures
        a < b ==> precedes(start + seq![a] + x, start + seq![b] + y),
        b < a ==> !precedes(start + seq![a] + x, start + seq![b] + y),
        precedes(start, start + seq![a] + x),
        !precedes(start + seq![a] + x, start),
    decreases start.len(),
{
    let s = start + seq![a] + x;
    let t = start + seq![b] + y;
    if start.len() == 0 {
        assert(s[0] == a && t[0] == b);
    } else {
        let rest = start.skip(1);
        law_dictionary_order(rest, a, b, x, y);
        assert(s[0] == start[0] && t[0] == start[0]);
        assert(s.skip(1) =~= rest + seq![a] + x);
        assert(t.skip(1) =~= rest + seq![b] + y);
    }
}

// ---------------------------------------------------------------------------
// Sensors, processors and the compressed swap cache
// ---------------------------------------------------------------------------

proof fn lemma_suffix_taken_out(a: Seq<char>, suffix: Seq<char>)
    requires
        suffix.len() > 0,
        !a.contains(suffix[0]),
    ensures
        replaced(a + suffix, suffix, Seq::empty()) == a,
    decreases a.len(),
{
    let s = a + suffix;
    if a.len() == 0 {
        assert(s.subrange(0, suffix.len() as int) =~= suffix);
        assert(s.skip(suffix.len() as int) =~= Seq::empty());
        assert(replaced(Seq::empty(), suffix, Seq::empty()) =~= Seq::<char>::empty());
        assert(Seq::<char>::empty() + Seq::<char>::empty() =~= a);
    } else {
        assert(a.contains(a[0]));
        assert(s[0] == a[0]);
        assert(!begins_with(s, suffix)) by {
            assert(s.subrange(0, suffix.len() as int)[0] == s[0]);
        }
        let rest = a.skip(1);
        assert(!rest.contains(suffix[0])) by {
            if rest.contains(suffix[0]) {
                let i = choose|i: int| 0 <= i < rest.len() && rest[i] == suffix[0];
                assert(a[i + 1] == suffix[0]);
            }
        }
        assert(s.skip(1) =~= rest + suffix);
        lemma_suffix_taken_out(rest, suffix);
        assert(seq![a[0]] + rest =~= a);
    }
}

proof fn lemma_trimmed_word(w: Seq<char>)
    requires
        w.len() > 0,
        !is_space(w[0]),
        !is_space(w.last()),
    ensures
        trimmed(w) == w,
        trimmed(w + seq!['\n']) == w,
        trimmed(seq![' '] + w) == w,
{
    let a = w + seq!['\n'];
    assert(a[0] == w[0]);
    assert(a.last() == '\n');
    assert(a.drop_last() =~= w);
    let b = seq![' '] + w;
    assert(b[0] == ' ');
    assert(b.skip(1) =~= w);
    reveal_with_fuel(trimmed_end, 2);
    reveal_with_fuel(trimmed_start, 2);
}

proof fn lemma_number_trims(n: nat)
    ensures
        trimmed(decimal_of(n) + seq!['\n']) == decimal_of(n),
{
    lemma_decimal_digits(n);
    let s = decimal_of(n);
    assert(is_digit(s[0]));
    assert(is_digit(s[s.len() - 1]));
    lemma_trimmed_word(s);
}

/// A sensor without a label is named after its file.
pub proof fn law_unlabelled_sensor(
    chip: Seq<char>,
    n: nat,
    path: Seq<char>,
    max: Option<crate::binary64::Number>,
    crit: Option<crate::binary64::Number>,
)
    ensures
        sensor_of(chip, "temp"@ + decimal_of(n) + "_input"@, path, max, crit, None).label == "temp"@ + decimal_of(n),
        n == 1 ==> sensor_of(chip, "temp"@ + decimal_of(n) + "_input"@, path, max, crit, None).is_parent,
{
    reveal_strlit("temp");
    reveal_strlit("_input");
    reveal_strlit("");
    let digits = decimal_of(n);
    lemma_decimal_digits(n);
    let name = "temp"@ + digits;
    assert forall|i: int| 0 <= i < name.len() implies name[i] != '_' by {
        if i >= 4 {
            assert(name[i] == digits[i - 4]);
            assert(is_digit(digits[i - 4]));
        }
    }
    lemma_suffix_taken_out(name, "_input"@);
    assert(""@ =~= Seq::<char>::empty());
    assert(is_digit(digits[digits.len() - 1]));
    assert(name.last() == digits[digits.len() - 1]);
    lemma_trimmed_word(name);
    if n == 1 {
        reveal_with_fuel(decimal_of, 2);
        reveal_strlit("temp1");
        assert(name =~= "temp1"@);
    }
}

/// The description of the processors reads back: a line of a frequency adds what stands behind
/// its colon.
pub proof fn law_frequency_line_reads_back(lines: Seq<Seq<char>>, key: Seq<char>, tabs: nat, w: Seq<char>)
    requires
        key == "cpu MHz"@ || key == "BogoMIPS"@,
        w.len() > 0,
        !is_space(w[0]),
        !is_space(w.last()),
        !w.contains(':'),
    ensures
        frequency_texts(lines.push(key + repeated('\t', tabs) + ": "@ + w)) == frequency_texts(lines).push(w),
{
    reveal_strlit("cpu MHz");
    reveal_strlit("BogoMIPS");
    reveal_strlit(": ");
    let line = key + repeated('\t', tabs) + ": "@ + w;
    let all = lines.push(line);
    assert(all.drop_last() =~= lines);
    assert(all.last() == line);
    assert(line.subrange(0, key.len() as int) =~= key);
    assert(gives_frequency(line));
    let n = key.len() + tabs;
    assert forall|i: int| 0 <= i < n implies line[i] != ':' by {
        if i < key.len() {
            assert(line[i] == key[i]);
        }
    }
    assert(line[n as int] == ':');
    lemma_place_of(line, ':', n);
    let behind = line.skip(n as int + 1);
    assert(behind =~= seq![' '] + w);
    assert forall|i: int| 0 <= i < behind.len() implies behind[i] != ':' by {
        if i > 0 {
            assert(behind[i] == w[i - 1]);
            assert(w.contains(w[i - 1]));
        }
    }
    lemma_place_of(behind, ':', behind.len());
    assert(behind.take(behind.len() as int) =~= behind);
    lemma_trimmed_word(w);
}

/// A processor is a guest where its flags name a hypervisor, wherever they do.
pub proof fn law_guest_is_found(before: Seq<char>, after: Seq<char>, rest: Seq<char>)
    requires
        !before.contains('\n'),
        !after.contains('\n'),
        after.len() > 0,
        after.last() != '\r',
    ensures
        is_guest("flags"@ + before + "hypervisor"@ + after + seq!['\n'] + rest),
{
    reveal_strlit("flags");
    reveal_strlit("hypervisor");
    let line = "flags"@ + before + "hypervisor"@ + after;
    assert(!line.contains('\n')) by {
        assert forall|i: int| 0 <= i < line.len() implies line[i] != '\n' by {
            let b = 5 + before.len();
            if 5 <= i < b {
                assert(line[i] == before[i - 5]);
                assert(before.contains(before[i - 5]));
            } else if b + 10 <= i {
                assert(line[i] == after[i - b - 10]);
                assert(after.contains(after[i - b - 10]));
            } else if i < 5 {
                assert(line[i] == "flags"@[i]);
            } else {
                assert(line[i] == "hypervisor"@[i - b]);
            }
        }
    }
    law_first_line_is_cut_off(line, rest);
    assert(line.last() == after.last());
    assert(without_return(line) == line);
    let text = line + seq!['\n'] + rest;
    assert(lines_of(text)[0] == line);
    assert(line.subrange(0, 5) =~= "flags"@);
    let at = 5 + before.len() as int;
    assert(line.subrange(at, at + 10) =~= "hypervisor"@);
    assert(occurs_at(line, "hypervisor"@, at));
    assert(begins_with(lines_of(text)[0], "flags"@) && holds(lines_of(text)[0], "hypervisor"@));
}

/// What the system says of the compressed swap cache reads back: the bytes of its pool and its
/// pages, each as its own.
pub proof fn law_cache_reads_back(pool: nat, pages: nat, algo: Seq<char>)
    requires
        pool <= u64::MAX,
        pages <= u64::MAX,
        algo.len() > 0,
        !is_space(algo[0]),
        !is_space(algo.last()),
    ensures
        zswap_known(
            true,
            Some("Y"@ + seq!['\n']),
            Some(decimal_of(pool) + seq!['\n']),
            Some(decimal_of(pages) + seq!['\n']),
            Some(algo + seq!['\n']),
        ) == (Zswap::Detailed { pool, pages, algo }),
        zswap_known(true, Some("N"@ + seq!['\n']), None, None, None) is Disabled,
        zswap_known(true, Some("Y"@ + seq!['\n']), None, None, None) is Enabled,
        zswap_known(false, None, None, None, None) is NotPresent,
        zswap_known(true, None, None, None, None) is Unknown,
{
    reveal_strlit("Y");
    reveal_strlit("N");
    lemma_trimmed_word("Y"@);
    lemma_trimmed_word("N"@);
    assert("Y"@[0] != "N"@[0]);
    lemma_trimmed_word(algo);
    lemma_number_trims(pool);
    lemma_number_trims(pages);
    law_decimal_round_trip(pool, u64::MAX as nat);
    law_decimal_round_trip(pages, u64::MAX as nat);
}

// ---------------------------------------------------------------------------
// Asking desktops
// ---------------------------------------------------------------------------

/// In the session of another user the same is asked as in one's own.
pub proof fn law_same_question_for_another_user(query: Query, user: Seq<char>)
    ensures
        command_of(query, Some(user)).len() == 6,
        command_of(query, Some(user))[0] == "sudo"@,
        command_of(query, Some(user))[2] == user,
        holds(command_of(query, Some(user))[5], spaced(command_of(query, None))),
{
    let own = command_of(query, None);
    let text = command_of(query, Some(user))[5];
    let program = crate::idle::program(query);
    let arguments = crate::idle::arguments(query);
    let start = "XDG_RUNTIME_DIR=/run/user/$(id -u "@ + user + ") DISPLAY=${DISPLAY:-:0} "@;
    assert(own =~= seq![program] + arguments);
    assert(text == start + program + " "@ + spaced(arguments));
    let asked = spaced(own);
    if query == Query::X11 {
        assert(own.len() == 1);
        assert(asked == program);
    } else {
        lemma_spaced_behind(program, arguments);
        assert(asked == program + " "@ + spaced(arguments));
    }
    let at = start.len() as int;
    assert(text.subrange(at, at + asked.len()) =~= asked);
    assert(occurs_at(text, asked, at));
}

proof fn lemma_spaced_behind(first: Seq<char>, rest: Seq<Seq<char>>)
    requires
        rest.len() > 0,
    ensures
        spaced(seq![first] + rest) == first + " "@ + spaced(rest),
    decreases rest.len(),
{
    let all = seq![first] + rest;
    assert(all.last() == rest.last());
    if rest.len() == 1 {
        assert(all.drop_last() =~= seq![first]);
        assert(spaced(seq![first]) == first);
    } else {
        let front = rest.drop_last();
        assert(all.drop_last() =~= seq![first] + front);
        lemma_spaced_behind(first, front);
        assert(first + " "@ + spaced(front) + " "@ + rest.last() =~= first + " "@ + (spaced(front) + " "@
            + rest.last()));
    }
}

// ---------------------------------------------------------------------------
// Names
// ---------------------------------------------------------------------------

/// The names of virtual machines, and the kinds of file systems that copy on write, whatever
/// stands around them.
pub proof fn law_known_names(before: Seq<char>, after: Seq<char>)
    ensures
        is_emulated(before + "virtualbox"@ + after),
        is_emulated(before + "vmware"@ + after),
        is_emulated(before + "kvm"@ + after),
        is_emulated(before + "qemu"@ + after),
        copies_on_write(before + "btrfs"@ + after),
        copies_on_write(before + "zfs"@ + after),
{
    lemma_holds(before, "virtualbox"@, after);
    lemma_holds(before, "vmware"@, after);
    lemma_holds(before, "kvm"@, after);
    lemma_holds(before, "qemu"@, after);
    lemma_holds(before, "btrfs"@, after);
    lemma_holds(before, "zfs"@, after);
}

/// A device is named by what it was found to be, and where it was not found, by the last part
/// of its path.
pub proof fn law_device_names(v: FileSystem, directory: Seq<char>, name: Seq<char>)
    requires
        !name.contains('/'),
    ensures
        device_name(FileSystem { device: directory + seq!['/'] + name, resolved: None, ..v }) == name,
        device_name(FileSystem { resolved: Some(name), ..v }) == name,
{
    law_last_part_of_a_path(directory, name);
}

/// File systems on storage devices are shown, and none of the kernel's own.
pub proof fn law_kinds_of_storage()
    ensures
        is_storage("ext4"@) && is_storage("ext3"@) && is_storage("ext2"@) && is_storage("xfs"@) && is_storage("btrfs"@),
        is_storage("zfs"@) && is_storage("vfat"@) && is_storage("exfat"@) && is_storage("ntfs"@),
        is_storage("ntfs3"@) && is_storage("f2fs"@),
        forall|kind: Seq<char>| #[trigger] is_storage(kind) ==> 3 <= kind.len() <= 5,
{
    reveal_strlit("ext4");
    reveal_strlit("ext3");
    reveal_strlit("ext2");
    reveal_strlit("xfs");
    reveal_strlit("btrfs");
    reveal_strlit("zfs");
    reveal_strlit("vfat");
    reveal_strlit("exfat");
    reveal_strlit("ntfs");
    reveal_strlit("ntfs3");
    reveal_strlit("f2fs");
}

/// A text is picked out where its mark is set, and the first such text is the first that is
/// picked out.
pub proof fn law_marked_texts(s: Seq<Seq<char>>, marks: Seq<bool>, i: int)
    requires
        0 <= i < s.len(),
        i < marks.len(),
        marks[i],
    ensures
        marked(s, marks).contains(s[i]),
        first_marked(s, marks) is Some,
        (forall|j: int| 0 <= j < i ==> !#[trigger] marks[j]) ==> first_marked(s, marks) == Some(s[i]),
    decreases s.len(),
{
    let front = s.drop_last();
    let all = marked(s, marks);
    let rest = marked(front, marks);
    if i == s.len() - 1 {
        assert(all.last() == s[i]);
        if forall|j: int| 0 <= j < i ==> !#[trigger] marks[j] {
            lemma_none_marked(front, marks);
        }
    } else {
        assert(front[i] == s[i]);
        law_marked_texts(front, marks, i);
        let k = choose|k: int| 0 <= k < rest.len() && rest[k] == s[i];
        assert(all[k] == s[i]);
        assert(all[0] == rest[0]);
    }
}

proof fn lemma_none_marked(s: Seq<Seq<char>>, marks: Seq<bool>)
    requires
        forall|j: int| 0 <= j < s.len() && j < marks.len() ==> !#[trigger] marks[j],
    ensures
        marked(s, marks).len() == 0,
    decreases s.len(),
{
    if s.len() > 0 {
        lemma_none_marked(s.drop_last(), marks);
    }
}

/// Between two points in time lies what was added to the first, and nothing backwards; whole
/// seconds leave out what is less than one.
pub proof fn law_time_passes(from: nat, nanos: nat, secs: nat)
    requires
        nanos < 1_000_000_000,
    ensures
        time_between(from, from + nanos) == nanos,
        time_between(from + nanos, from) == 0,
        whole_seconds(secs * 1_000_000_000 + nanos) == secs,
{
}

/// Each desktop is asked under its own name, at an interface that is named like the service,
/// for the time without activity; the server of the screen by a program of its own.
pub proof fn law_desktops_are_asked_by_name()
    ensures
        command_of(Query::Gnome, None)[0] == "busctl"@,
        command_of(Query::Kde, None)[0] == "busctl"@,
        command_of(Query::X11, None) == seq!["xprintidle"@],
        command_of(Query::Gnome, None)[3] == command_of(Query::Gnome, None)[5],
        command_of(Query::Kde, None)[3] == command_of(Query::Kde, None)[5],
        begins_with(command_of(Query::Gnome, None)[3], "org.gnome."@),
        begins_with(command_of(Query::Kde, None)[3], "org.kde."@),
        finishes_with(command_of(Query::Gnome, None)[6], "Idletime"@),
        finishes_with(command_of(Query::Kde, None)[6], "IdleTime"@),
{
    let gnome = command_of(Query::Gnome, None);
    let kde = command_of(Query::Kde, None);
    reveal_strlit("org.gnome.Mutter.IdleMonitor");
    reveal_strlit("org.gnome.");
    reveal_strlit("org.kde.Screensaver");
    reveal_strlit("org.kde.");
    reveal_strlit("GetIdletime");
    reveal_strlit("Idletime");
    reveal_strlit("GetSessionIdleTime");
    reveal_strlit("IdleTime");
    assert(command_of(Query::X11, None) =~= seq!["xprintidle"@]);
    assert(gnome[3].subrange(0, 10) =~= "org.gnome."@);
    assert(kde[3].subrange(0, 8) =~= "org.kde."@);
    assert(gnome[6].subrange(3, 11) =~= "Idletime"@);
    assert(kde[6].subrange(10, 18) =~= "IdleTime"@);
}

} // verus!
