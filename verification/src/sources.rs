//! What is read of the system is what the system wrote: lines and figures come back from
//! the texts that hold them.

use crate::decimal::{count_in, decimal_of, is_digit, law_decimal_round_trip, lemma_decimal_digits};
use crate::hardware::{cpu_number, model_of, names_model};
use crate::idle::{idle_in, spaced, Query};
use crate::layout::repeated;
use crate::memory::{kilobytes, swap_in, swaps_in, Swap};
use crate::network::{all_counters, counters_in, Count};
use crate::storage::{device_in, devices_in, is_storage, mount_in, mounts_in, Device, MountPoint};
use crate::text::{
    behind, is_space, last_part, lemma_place_of, lines_of, occurs_at, place_of, second_part, seek, trimmed,
    trimmed_end, trimmed_start, without_return, without_trailing, word_length, words_of,
};
use vstd::prelude::*;

verus! {

// ---------------------------------------------------------------------------
// Words and lines
// ---------------------------------------------------------------------------

/// A word: at least one character, and no space.
pub open spec fn is_word(w: Seq<char>) -> bool {
    w.len() > 0 && forall|i: int| 0 <= i < w.len() ==> !is_space(#[trigger] w[i])
}

proof fn lemma_word_length_is(s: Seq<char>, n: nat)
    requires
        n <= s.len(),
        forall|i: int| 0 <= i < n ==> !is_space(s[i]),
        n < s.len() ==> is_space(s[n as int]),
    ensures
        word_length(s) == n,
    decreases n,
{
    if n > 0 {
        assert forall|i: int| 0 <= i < n - 1 implies !is_space(s.skip(1)[i]) by {
            assert(s.skip(1)[i] == s[i + 1]);
        }
        if n < s.len() {
            assert(s.skip(1)[n - 1] == s[n as int]);
        }
        lemma_word_length_is(s.skip(1), (n - 1) as nat);
    }
}

proof fn lemma_word_length_bounds(s: Seq<char>)
    ensures
        word_length(s) <= s.len(),
        word_length(s) < s.len() ==> is_space(s[word_length(s) as int]),
        forall|i: int| 0 <= i < word_length(s) ==> !is_space(#[trigger] s[i]),
    decreases s.len(),
{
    if s.len() > 0 && !is_space(s[0]) {
        lemma_word_length_bounds(s.skip(1));
        let n = word_length(s.skip(1));
        assert forall|i: int| 0 <= i < n + 1 implies !is_space(#[trigger] s[i]) by {
            if i > 0 {
                assert(s.skip(1)[i - 1] == s[i]);
            }
        }
        if n + 1 < s.len() {
            assert(s.skip(1)[n as int] == s[n as int + 1]);
        }
    }
}

proof fn lemma_one_word(w: Seq<char>)
    requires
        is_word(w),
    ensures
        words_of(w) == seq![w],
{
    lemma_word_length_is(w, w.len());
}

proof fn lemma_one_more_word(a: Seq<char>, w: Seq<char>)
    requires
        is_word(w),
    ensures
        words_of(a + " "@ + w) == words_of(a).push(w),
    decreases a.len(),
{
    reveal_strlit(" ");
    let s = a + " "@ + w;
    if a.len() == 0 {
        assert(s[0] == ' ');
        assert(s.skip(1) =~= w);
        lemma_one_word(w);
        assert(words_of(s) =~= words_of(a).push(w));
    } else if is_space(a[0]) {
        assert(s[0] == a[0]);
        assert(s.skip(1) =~= a.skip(1) + " "@ + w);
        lemma_one_more_word(a.skip(1), w);
    } else {
        lemma_word_length_bounds(a);
        let n = word_length(a);
        assert(s[0] == a[0]);
        if n >= a.len() {
            assert forall|i: int| 0 <= i < n implies !is_space(s[i]) by {
                assert(s[i] == a[i]);
            }
            assert(s[n as int] == ' ');
            lemma_word_length_is(s, n);
            assert(s.take(n as int) =~= a);
            let e = Seq::<char>::empty();
            assert(s.skip(n as int) =~= e + " "@ + w);
            lemma_one_more_word(e, w);
            assert(words_of(s) =~= words_of(a).push(w));
        } else {
            assert forall|i: int| 0 <= i < n implies !is_space(s[i]) by {
                assert(s[i] == a[i]);
            }
            assert(s[n as int] == a[n as int]);
            lemma_word_length_is(s, n);
            assert(s.take(n as int) =~= a.take(n as int));
            assert(s.skip(n as int) =~= a.skip(n as int) + " "@ + w);
            assert(n > 0);
            lemma_one_more_word(a.skip(n as int), w);
            assert(words_of(s) =~= words_of(a).push(w));
        }
    }
}

/// Words with a space between each two are read as those words.
pub proof fn law_words_round_trip(words: Seq<Seq<char>>)
    requires
        forall|i: int| 0 <= i < words.len() ==> is_word(#[trigger] words[i]),
    ensures
        words_of(spaced(words)) == words,
    decreases words.len(),
{
    if words.len() == 1 {
        lemma_one_word(words[0]);
        assert(seq![words[0]] =~= words);
    } else if words.len() > 1 {
        let front = words.drop_last();
        assert forall|i: int| 0 <= i < front.len() implies is_word(#[trigger] front[i]) by {
            assert(front[i] == words[i]);
        }
        law_words_round_trip(front);
        assert(is_word(words[words.len() - 1]));
        lemma_one_more_word(spaced(front), words.last());
        assert(front.push(words.last()) =~= words);
    } else {
        assert(words_of(spaced(words)) =~= words);
    }
}

/// A line is cut off at its end.
pub proof fn law_first_line_is_cut_off(line: Seq<char>, rest: Seq<char>)
    requires
        !line.contains('\n'),
    ensures
        lines_of(line + seq!['\n'] + rest) == seq![without_return(line)] + lines_of(rest),
        line.len() > 0 ==> lines_of(line) == seq![line],
{
    let s = line + seq!['\n'] + rest;
    assert forall|i: int| 0 <= i < line.len() implies s[i] != '\n' && line[i] != '\n' by {
        assert(line.contains(line[i]));
        assert(s[i] == line[i]);
    }
    lemma_place_of(s, '\n', line.len());
    lemma_place_of(line, '\n', line.len());
    assert(s.take(line.len() as int) =~= line);
    assert(s.skip(line.len() as int + 1) =~= rest);
}

proof fn lemma_number_is_word(n: nat)
    ensures
        is_word(decimal_of(n)),
{
    lemma_decimal_digits(n);
    let s = decimal_of(n);
    assert forall|i: int| 0 <= i < s.len() implies !is_space(#[trigger] s[i]) by {
        assert(is_digit(s[i]));
    }
}

proof fn lemma_count_back(n: nat)
    requires
        n <= u64::MAX,
    ensures
        count_in(decimal_of(n)) == n,
{
    law_decimal_round_trip(n, u64::MAX as nat);
}

/// Numbers as words.
pub open spec fn numbers(s: Seq<nat>) -> Seq<Seq<char>> {
    Seq::new(s.len(), |i: int| decimal_of(s[i]))
}

// ---------------------------------------------------------------------------
// Tables of the system
// ---------------------------------------------------------------------------

/// The line of an interface: its name, eight figures of what it received, of which the
/// first is in bytes, and eight of what it sent, of which the first is in bytes.
pub proof fn law_interface_line_reads_back(name: Seq<char>, received: Seq<nat>, sent: Seq<nat>)
    requires
        is_word(name),
        name.last() != ':',
        name != "lo"@,
        received.len() == 8,
        sent.len() == 8,
        received[0] <= u64::MAX,
        sent[0] <= u64::MAX,
    ensures
        counters_in(spaced(seq![name + ":"@] + numbers(received) + numbers(sent))) == Some(
            Count { iface: name, rx: received[0], tx: sent[0], mbps: None },
        ),
{
    let words = seq![name + ":"@] + numbers(received) + numbers(sent);
    reveal_strlit(":");
    let head = name + ":"@;
    assert(is_word(head)) by {
        assert forall|i: int| 0 <= i < head.len() implies !is_space(#[trigger] head[i]) by {
            if i < name.len() {
                assert(head[i] == name[i]);
            }
        }
    }
    assert forall|i: int| 0 <= i < words.len() implies is_word(#[trigger] words[i]) by {
        if 1 <= i < 9 {
            lemma_number_is_word(received[i - 1]);
        } else if i >= 9 {
            lemma_number_is_word(sent[i - 9]);
        }
    }
    law_words_round_trip(words);
    assert(head.drop_last() =~= name);
    assert(head.last() == ':');
    reveal_with_fuel(without_trailing, 2);
    lemma_count_back(received[0]);
    lemma_count_back(sent[0]);
    assert(words[1] == decimal_of(received[0]));
    assert(words[9] == decimal_of(sent[0]));
}

/// The loopback interface is left out, whatever its figures.
pub proof fn law_loopback_is_left_out(figures: Seq<nat>)
    ensures
        counters_in(spaced(seq!["lo:"@] + numbers(figures))) is None,
{
    let words = seq!["lo:"@] + numbers(figures);
    reveal_strlit("lo:");
    reveal_strlit("lo");
    assert forall|i: int| 0 <= i < words.len() implies is_word(#[trigger] words[i]) by {
        if i >= 1 {
            lemma_number_is_word(figures[i - 1]);
        } else {
            assert forall|j: int| 0 <= j < words[i].len() implies !is_space(#[trigger] words[i][j]) by {}
        }
    }
    law_words_round_trip(words);
    assert("lo:"@.drop_last() =~= "lo"@);
    reveal_with_fuel(without_trailing, 2);
}

/// The line of a device: two numbers, its name, four figures of reading and four of
/// writing, the third of each in sectors, and more.
pub proof fn law_device_line_reads_back(
    major: nat,
    minor: nat,
    name: Seq<char>,
    reading: Seq<nat>,
    writing: Seq<nat>,
    more: Seq<nat>,
)
    requires
        is_word(name),
        reading.len() == 4,
        writing.len() == 4,
        more.len() >= 3,
        reading[2] <= u64::MAX,
        writing[2] <= u64::MAX,
    ensures
        device_in(
            spaced(seq![decimal_of(major), decimal_of(minor), name] + numbers(reading) + numbers(writing) + numbers(more)),
        ) == Some(Device { name, read: reading[2], written: writing[2] }),
{
    let words = seq![decimal_of(major), decimal_of(minor), name] + numbers(reading) + numbers(writing) + numbers(more);
    lemma_number_is_word(major);
    lemma_number_is_word(minor);
    assert forall|i: int| 0 <= i < words.len() implies is_word(#[trigger] words[i]) by {
        if 3 <= i < 7 {
            lemma_number_is_word(reading[i - 3]);
        } else if 7 <= i < 11 {
            lemma_number_is_word(writing[i - 7]);
        } else if i >= 11 {
            lemma_number_is_word(more[i - 11]);
        }
    }
    law_words_round_trip(words);
    lemma_count_back(reading[2]);
    lemma_count_back(writing[2]);
    assert(words[5] == decimal_of(reading[2]));
    assert(words[9] == decimal_of(writing[2]));
}

/// The line of a mount: the device, the path, the kind of file system and three words more.
pub proof fn law_mount_line_reads_back(
    device: Seq<char>,
    path: Seq<char>,
    kind: Seq<char>,
    options: Seq<char>,
    dump: nat,
    pass: nat,
)
    requires
        is_word(device),
        is_word(path),
        is_word(kind),
        is_word(options),
        !path.contains('\0'),
    ensures
        mount_in(spaced(seq![device, path, kind, options, decimal_of(dump), decimal_of(pass)])) == (if is_storage(
            kind,
        ) {
            Some(MountPoint { device, path, kind })
        } else {
            None
        }),
{
    let words = seq![device, path, kind, options, decimal_of(dump), decimal_of(pass)];
    lemma_number_is_word(dump);
    lemma_number_is_word(pass);
    law_words_round_trip(words);
}

/// The line of a swap device: its path, its kind, its size, what is in use and its rank.
pub proof fn law_swap_line_reads_back(
    directory: Seq<char>,
    name: Seq<char>,
    kind: Seq<char>,
    size: nat,
    used: nat,
    rank: Seq<char>,
)
    requires
        is_word(directory + seq!['/'] + name),
        !name.contains('/'),
        is_word(kind),
        is_word(rank),
        size <= u64::MAX,
        used <= u64::MAX,
    ensures
        swap_in(spaced(seq![directory + seq!['/'] + name, kind, decimal_of(size), decimal_of(used), rank])) == Some(
            Swap { name, used, size },
        ),
{
    let path = directory + seq!['/'] + name;
    let words = seq![path, kind, decimal_of(size), decimal_of(used), rank];
    lemma_number_is_word(size);
    lemma_number_is_word(used);
    law_words_round_trip(words);
    lemma_count_back(size);
    lemma_count_back(used);
    law_last_part_of_a_path(directory, name);
}

/// The last part of a path is what stands behind its last slash.
pub proof fn law_last_part_of_a_path(directory: Seq<char>, name: Seq<char>)
    requires
        !name.contains('/'),
    ensures
        last_part(directory + seq!['/'] + name, '/') == name,
    decreases directory.len(),
{
    let s = directory + seq!['/'] + name;
    if directory.contains('/') {
        let n = place_of(directory, '/');
        lemma_first_place(directory, '/');
        assert forall|i: int| 0 <= i < n implies s[i] != '/' by {
            assert(s[i] == directory[i]);
        }
        assert(s[n as int] == directory[n as int]);
        lemma_place_of(s, '/', n);
        let rest = directory.skip(n as int + 1);
        assert(s.skip(n as int + 1) =~= rest + seq!['/'] + name);
        law_last_part_of_a_path(rest, name);
    } else {
        assert forall|i: int| 0 <= i < directory.len() implies s[i] != '/' by {
            assert(directory.contains(directory[i]));
            assert(s[i] == directory[i]);
        }
        lemma_place_of(s, '/', directory.len());
        assert(s.skip(directory.len() as int + 1) =~= name);
        assert forall|i: int| 0 <= i < name.len() implies name[i] != '/' by {
            assert(name.contains(name[i]));
        }
        lemma_place_of(name, '/', name.len());
        reveal_with_fuel(last_part, 2);
    }
}

proof fn lemma_first_place(s: Seq<char>, c: char)
    requires
        s.contains(c),
    ensures
        place_of(s, c) < s.len(),
        s[place_of(s, c) as int] == c,
        forall|i: int| 0 <= i < place_of(s, c) ==> s[i] != c,
    decreases s.len(),
{
    let k = choose|k: int| 0 <= k < s.len() && s[k] == c;
    if s[0] != c {
        assert(s.skip(1)[k - 1] == c);
        lemma_first_place(s.skip(1), c);
        let n = place_of(s.skip(1), c);
        assert(s.skip(1)[n as int] == s[n as int + 1]);
        assert forall|i: int| 0 <= i < n + 1 implies s[i] != c by {
            if i > 0 {
                assert(s.skip(1)[i - 1] == s[i]);
            }
        }
    }
}

// ---------------------------------------------------------------------------
// Figures of the memory
// ---------------------------------------------------------------------------

proof fn lemma_seek_at(s: Seq<char>, pattern: Seq<char>, from: nat, at: nat)
    requires
        from <= at,
        occurs_at(s, pattern, at as int),
        forall|i: int| from <= i < at ==> !#[trigger] occurs_at(s, pattern, i),
    ensures
        seek(s, pattern, from) == Some(at),
    decreases at - from,
{
    if from < at {
        assert(!occurs_at(s, pattern, from as int));
        lemma_seek_at(s, pattern, from + 1, at);
    }
}

/// The figure behind its name, where the name stands for the first time, and before its
/// unit is what is read under that name.
pub proof fn law_memory_figure_reads_back(
    before: Seq<char>,
    key: Seq<char>,
    gap: nat,
    n: nat,
    rest: Seq<char>,
)
    requires
        n <= u64::MAX,
        ({
            let s = before + key + repeated(' ', gap) + decimal_of(n) + " kB"@ + rest;
            forall|i: int| 0 <= i < before.len() ==> !#[trigger] occurs_at(s, key, i)
        }),
    ensures
        kilobytes(before + key + repeated(' ', gap) + decimal_of(n) + " kB"@ + rest, key) == n,
{
    let s = before + key + repeated(' ', gap) + decimal_of(n) + " kB"@ + rest;
    let at = before.len();
    reveal_strlit(" kB");
    reveal_strlit("kB");
    assert(s.subrange(at as int, (at + key.len()) as int) =~= key);
    lemma_seek_at(s, key, 0, at);
    let digits = decimal_of(n);
    let behind = s.skip((at + key.len()) as int);
    let text = repeated(' ', gap) + digits + seq![' '];
    assert(behind =~= text + "kB"@ + rest);
    lemma_decimal_digits(n);
    assert forall|i: int| 0 <= i < text.len() implies !#[trigger] occurs_at(behind, "kB"@, i) by {
        if occurs_at(behind, "kB"@, i) {
            assert(behind.subrange(i, i + 2)[0] == "kB"@[0]);
            assert(behind[i] == 'k');
            assert(text[i] == 'k');
            if gap <= i < gap + digits.len() {
                assert(is_digit(digits[i - gap]));
            }
        }
    }
    assert(behind.subrange(text.len() as int, text.len() as int + 2) =~= "kB"@);
    lemma_seek_at(behind, "kB"@, 0, text.len());
    assert(behind.take(text.len() as int) =~= text);
    lemma_trimmed_number(gap, n);
    lemma_count_back(n);
}

proof fn lemma_trimmed_number(gap: nat, n: nat)
    ensures
        trimmed(repeated(' ', gap) + decimal_of(n) + seq![' ']) == decimal_of(n),
{
    let digits = decimal_of(n);
    lemma_decimal_digits(n);
    let t = digits + seq![' '];
    assert(repeated(' ', gap) + digits + seq![' '] =~= repeated(' ', gap) + t);
    assert(is_digit(digits[0]));
    assert(!is_space(t[0]));
    lemma_trimmed_spaces(gap, t);
    assert(t.last() == ' ');
    assert(t.drop_last() =~= digits);
    assert(is_digit(digits[digits.len() - 1]));
    reveal_with_fuel(trimmed_end, 2);
}

proof fn lemma_trimmed_spaces(n: nat, t: Seq<char>)
    requires
        t.len() > 0,
        !is_space(t[0]),
    ensures
        trimmed_start(repeated(' ', n) + t) == t,
    decreases n,
{
    let s = repeated(' ', n) + t;
    if n == 0 {
        assert(s =~= t);
    } else {
        assert(s.skip(1) =~= repeated(' ', (n - 1) as nat) + t);
        assert(s[0] == ' ');
        lemma_trimmed_spaces((n - 1) as nat, t);
    }
}

// ---------------------------------------------------------------------------
// Desktops and processors
// ---------------------------------------------------------------------------

/// Gnome and X11 speak of milliseconds where KDE speaks of seconds: what they say of the
/// same time is the same.
pub proof fn law_desktops_agree(word: Seq<char>, secs: nat)
    requires
        is_word(word),
        secs <= u32::MAX,
    ensures
        idle_in(Query::Kde, spaced(seq![word, decimal_of(secs)])) == Some(secs * 1_000_000_000),
        idle_in(Query::Gnome, spaced(seq![word, decimal_of(1000 * secs)])) == Some(secs * 1_000_000_000),
        idle_in(Query::X11, decimal_of(1000 * secs)) == Some(secs * 1_000_000_000),
{
    lemma_number_is_word(secs);
    lemma_number_is_word(1000 * secs);
    law_words_round_trip(seq![word, decimal_of(secs)]);
    law_words_round_trip(seq![word, decimal_of(1000 * secs)]);
    law_decimal_round_trip(secs, u32::MAX as nat);
    law_decimal_round_trip(1000 * secs, u64::MAX as nat);
    lemma_decimal_digits(1000 * secs);
    let t = decimal_of(1000 * secs);
    assert(is_digit(t[0]));
    assert(is_digit(t[t.len() - 1]));
    assert(trimmed(t) == t);
}

/// A processor is found by its number.
pub proof fn law_processor_number_reads_back(n: nat)
    requires
        n <= usize::MAX,
    ensures
        cpu_number("cpu"@ + decimal_of(n)) == Some(n),
{
    reveal_strlit("cpu");
    let s = "cpu"@ + decimal_of(n);
    assert(s.subrange(0, 3) =~= "cpu"@);
    assert(s.skip(3) =~= decimal_of(n));
    law_decimal_round_trip(n, usize::MAX as nat);
}

/// The model is what stands behind the first colon of the first line that names it, up to
/// the next colon.
pub proof fn law_model_reads_back(key: Seq<char>, gap: nat, model: Seq<char>, rest: Seq<char>)
    requires
        key == "model name"@ || key == "Processor"@ || key == "Hardware"@,
        model.len() > 0,
        !is_space(model[0]),
        !is_space(model.last()),
        !model.contains(':'),
        !model.contains('\n'),
    ensures
        model_of(key + repeated(' ', gap) + ": "@ + model + seq!['\n'] + rest) == model,
{
    reveal_strlit("model name");
    reveal_strlit("Processor");
    reveal_strlit("Hardware");
    reveal_strlit(": ");
    let line = key + repeated(' ', gap) + ": "@ + model;
    let n = key.len() + gap;
    assert forall|i: int| 0 <= i < line.len() implies line[i] != '\n' && (i < n ==> line[i] != ':') by {
        if i < key.len() {
            assert(line[i] == key[i]);
        } else if i >= n + 2 {
            assert(line[i] == model[i - n - 2]);
            assert(model.contains(model[i - n - 2]));
        }
    }
    assert(!line.contains('\n'));
    law_first_line_is_cut_off(line, rest);
    assert(line.last() == model.last());
    assert(without_return(line) == line);
    let all = lines_of(line + seq!['\n'] + rest);
    assert(all[0] == line);
    assert(line.subrange(0, key.len() as int) =~= key);
    assert(names_model(line));
    assert(line[n as int] == ':');
    lemma_place_of(line, ':', n);
    let behind = line.skip(n as int + 1);
    assert(behind =~= seq![' '] + model);
    assert forall|i: int| 0 <= i < behind.len() implies behind[i] != ':' by {
        if i > 0 {
            assert(behind[i] == model[i - 1]);
            assert(model.contains(model[i - 1]));
        }
    }
    lemma_place_of(behind, ':', behind.len());
    assert(behind.take(behind.len() as int) =~= behind);
    assert(second_part(line, ':') == Some(behind));
    assert(repeated(' ', 1) =~= seq![' ']);
    lemma_trimmed_spaces(1, model);
    assert(trimmed_end(model) == model);
    reveal_with_fuel(crate::hardware::model_line, 1);
}

// ---------------------------------------------------------------------------
// Whole tables
// ---------------------------------------------------------------------------

/// Each line of a table that says something of an interface, a device, a mount or a swap device
/// gives a row, and lines that say nothing change nothing.
pub proof fn law_every_line_gives_its_row(lines: Seq<Seq<char>>, line: Seq<char>)
    ensures
        counters_in(line) matches Some(c) ==> all_counters(lines.push(line)) == all_counters(lines).push(c),
        counters_in(line) is None ==> all_counters(lines.push(line)) == all_counters(lines),
        device_in(line) matches Some(d) ==> devices_in(lines.push(line)) == devices_in(lines).push(d),
        device_in(line) is None ==> devices_in(lines.push(line)) == devices_in(lines),
        mount_in(line) matches Some(m) ==> mounts_in(lines.push(line)) == mounts_in(lines).push(m),
        mount_in(line) is None ==> mounts_in(lines.push(line)) == mounts_in(lines),
        swap_in(line) matches Some(s) ==> swaps_in(lines.push(line)) == swaps_in(lines).push(s),
        swap_in(line) is None ==> swaps_in(lines.push(line)) == swaps_in(lines),
{
    assert(lines.push(line).drop_last() =~= lines);
}

/// The lines behind those of headings are what follows them.
pub proof fn law_headings_are_left_out(headings: Seq<Seq<char>>, lines: Seq<Seq<char>>)
    ensures
        behind(headings + lines, headings.len()) == lines,
{
    assert((headings + lines).skip(headings.len() as int) =~= lines);
}

} // verus!
