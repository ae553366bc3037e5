//! From what the sensors say to the temperatures that are shown.

use crate::binary64::{integer, quotient, Number, Real};
use crate::color::{cpu_color, GREEN, VIOLET_BOLD, YELLOW};
use crate::heat::{law_cpu_scale, tinted};
use crate::idle::spaced;
use crate::order::in_order;
use crate::sources::{is_word, law_first_line_is_cut_off, law_words_round_trip};
use crate::table::{law_stored, lemma_slot, value_of};
use crate::text::{
    begins_with, holds, is_space, lines_of, occurs_at, precedes, replaced, trimmed, without_return,
};
use crate::thermal::{
    arranged, first_holding, is_cpu_chip, is_input, is_sensor, law_zones_in_order, lemma_zones_distinct,
    must_heal, reading, room_temperature_text, said, sensor_of, sensors_of, sensors_of_chip, sound,
    temperatures_of, zones_of, FileOfChip, Sensor, Temperature,
};
use crate::tints::law_share_by_fraction;
use vstd::prelude::*;

verus! {

// ---------------------------------------------------------------------------
// Which sensors there are
// ---------------------------------------------------------------------------

/// A text holds what stands in it.
pub(crate) proof fn lemma_holds(before: Seq<char>, pattern: Seq<char>, after: Seq<char>)
    ensures
        holds(before + pattern + after, pattern),
{
    let s = before + pattern + after;
    assert(s.subrange(before.len() as int, (before.len() + pattern.len()) as int) =~= pattern);
    assert(occurs_at(s, pattern, before.len() as int));
}

/// The chips that measure a processor, whatever stands around their names, and the files of
/// temperatures.
pub proof fn law_known_chips(before: Seq<char>, after: Seq<char>, middle: Seq<char>)
    ensures
        is_cpu_chip(before + "k10temp"@ + after),
        is_cpu_chip(before + "coretemp"@ + after),
        is_cpu_chip(before + "cpu_thermal"@ + after),
        is_cpu_chip(before + "soc_thermal"@ + after),
        is_cpu_chip(before + "pnv_thermal"@ + after),
        is_input("temp"@ + middle + "_input"@),
{
    lemma_holds(before, "k10temp"@, after);
    lemma_holds(before, "coretemp"@, after);
    lemma_holds(before, "cpu_thermal"@, after);
    lemma_holds(before, "soc_thermal"@, after);
    lemma_holds(before, "pnv_thermal"@, after);
    let s = "temp"@ + middle + "_input"@;
    assert(s.subrange(0, "temp"@.len() as int) =~= "temp"@);
    assert(s.subrange(s.len() - "_input"@.len(), s.len() as int) =~= "_input"@);
}

/// The sensor of a file: it is read at the file's path, under the name of its chip and its own
/// label, and may get as hot as it states, first by its highest temperature, then by its
/// critical one, and 95 degrees where it states neither.
pub open spec fn is_sensor_of(s: Sensor, chip: Seq<char>, f: FileOfChip) -> bool {
    &&& s.parent_name == trimmed(chip)
    &&& s.input_path == f.path
    &&& f.label matches Some(l) ==> s.label == trimmed(l)
    &&& f.max matches Some(m) ==> s.limit == m
    &&& f.max is None && f.crit is Some ==> s.limit == f.crit->0
    &&& f.max is None && f.crit is None ==> s.limit == integer(95_000)
}

/// Each file of a temperature of a chip that measures the processor gives a sensor.
pub proof fn law_every_file_gives_a_sensor(chips: Seq<(Seq<char>, Seq<FileOfChip>)>, c: int, i: int)
    requires
        0 <= c < chips.len(),
        0 <= i < chips[c].1.len(),
        is_cpu_chip(trimmed(chips[c].0)),
        is_input(chips[c].1[i].name),
    ensures
        exists|k: int|
            0 <= k < sensors_of(chips).len() && is_sensor_of(
                #[trigger] sensors_of(chips)[k],
                chips[c].0,
                chips[c].1[i],
            ),
    decreases chips.len(),
{
    let front = sensors_of(chips.drop_last());
    let last = sensors_of_chip(chips.last().0, chips.last().1);
    if c == chips.len() - 1 {
        lemma_file_gives_a_sensor(chips[c].0, chips[c].1, i);
        let k = choose|k: int| 0 <= k < last.len() && is_sensor_of(#[trigger] last[k], chips[c].0, chips[c].1[i]);
        assert(sensors_of(chips)[front.len() + k] == last[k]);
    } else {
        assert(chips.drop_last()[c] == chips[c]);
        law_every_file_gives_a_sensor(chips.drop_last(), c, i);
        let k = choose|k: int| 0 <= k < front.len() && is_sensor_of(#[trigger] front[k], chips[c].0, chips[c].1[i]);
        assert(sensors_of(chips)[k] == front[k]);
    }
}

proof fn lemma_file_gives_a_sensor(chip: Seq<char>, files: Seq<FileOfChip>, i: int)
    requires
        0 <= i < files.len(),
        is_cpu_chip(trimmed(chip)),
        is_input(files[i].name),
    ensures
        exists|k: int|
            0 <= k < sensors_of_chip(chip, files).len() && is_sensor_of(
                #[trigger] sensors_of_chip(chip, files)[k],
                chip,
                files[i],
            ),
    decreases files.len(),
{
    let front = sensors_of_chip(chip, files.drop_last());
    let all = sensors_of_chip(chip, files);
    if i == files.len() - 1 {
        assert(is_sensor(chip, files.last().name));
        assert(is_sensor_of(all[front.len() as int], chip, files[i]));
    } else {
        assert(files.drop_last()[i] == files[i]);
        lemma_file_gives_a_sensor(chip, files.drop_last(), i);
        let k = choose|k: int| 0 <= k < front.len() && is_sensor_of(#[trigger] front[k], chip, files[i]);
        assert(all[k] == front[k]);
    }
}

/// A label is that of a whole package where it names one of these, and the first temperature
/// of a chip without labels is.
pub proof fn law_packages(
    chip: Seq<char>,
    file: Seq<char>,
    path: Seq<char>,
    max: Option<Number>,
    crit: Option<Number>,
    name: Seq<char>,
    after: Seq<char>,
)
    requires
        name == "Tctl"@ || name == "Package"@ || name == "Tdie"@ || name == "SoC"@ || name == "cpu_thermal"@,
        trimmed(name + after) == name + after,
    ensures
        sensor_of(chip, file, path, max, crit, Some(name + after)).is_parent,
{
    lemma_holds(Seq::empty(), name, after);
    assert(Seq::<char>::empty() + name + after =~= name + after);
}

// ---------------------------------------------------------------------------
// What they say
// ---------------------------------------------------------------------------

/// Above its limit a sensor shows violet, and up to half of it no more than yellow.
pub proof fn law_heat_by_the_limit(sensor: Sensor, limit: nat, milli: nat)
    requires
        sensor.limit == integer(limit),
        0 < limit < 0x1_0000_0000_0000,
        milli < 0x1_0000_0000_0000,
    ensures
        limit < milli ==> said(sensor, integer(milli)).color == VIOLET_BOLD@,
        2 * milli <= limit ==> tinted(said(sensor, integer(milli)).color, GREEN, YELLOW, false),
{
    law_share_by_fraction(milli, limit, 1, 2);
    law_cpu_scale(quotient(integer(milli), integer(limit)));
}

proof fn lemma_every_reading(sensors: Seq<Sensor>, readings: Seq<Option<Real>>, n: nat, i: int)
    requires
        0 <= i < n <= sensors.len(),
    ensures
        value_of(zones_of(sensors, readings, n), sensors[i].parent_name) matches Some(zone) && zone.contains(
            said(sensors[i], reading(readings, i)->0),
        ),
    decreases n,
{
    let m = (n - 1) as nat;
    let zones = zones_of(sensors, readings, m);
    let chip = sensors[n - 1].parent_name;
    let t = said(sensors[n - 1], reading(readings, n - 1)->0);
    let wanted = said(sensors[i], reading(readings, i)->0);
    let value = match value_of(zones, chip) {
        Some(earlier) => earlier.push(t),
        None => seq![t],
    };
    lemma_zones_distinct(sensors, readings, m);
    law_stored(zones, chip, value, sensors[i].parent_name);
    assert(value.last() == t);
    assert(value[value.len() - 1] == t);
    if i < m {
        lemma_every_reading(sensors, readings, m, i);
        if sensors[i].parent_name == chip {
            let earlier = value_of(zones, chip)->0;
            let k = choose|k: int| 0 <= k < earlier.len() && earlier[k] == wanted;
            assert(value[k] == wanted);
        }
    }
}

/// Where every sensor can be read, each of them is shown under its chip: its label, its
/// temperature in degrees, and whether it is a package.
pub proof fn law_every_reading_is_shown(sensors: Seq<Sensor>, readings: Seq<Option<Real>>, is_vm: bool, i: int)
    requires
        0 <= i < sensors.len(),
        !must_heal(sensors, readings),
    ensures
        ({
            let shown = temperatures_of(sensors, readings, is_vm);
            exists|z: int, k: int|
                0 <= z < shown.len() && 0 <= k < shown[z].1.len() && shown[z].0 == sensors[i].parent_name && (
                #[trigger] shown[z].1[k]).label == sensors[i].label && shown[z].1[k].is_parent == sensors[i].is_parent
                    && shown[z].1[k].val == quotient(reading(readings, i)->0, integer(1000)) && shown[z].1[k].color
                    == cpu_color(quotient(reading(readings, i)->0, sensors[i].limit))
        }),
{
    let n = sensors.len();
    lemma_sound_bound(readings, n);
    let zones = zones_of(sensors, readings, n);
    let shown = temperatures_of(sensors, readings, is_vm);
    lemma_every_reading(sensors, readings, n, i);
    let chip = sensors[i].parent_name;
    lemma_slot(zones, chip);
    let z = crate::table::slot(zones, chip) as int;
    let ahead = |a: Temperature, b: Temperature| a.comes_first(b);
    let wanted = said(sensors[i], reading(readings, i)->0);
    crate::order::law_order_keeps_all(zones[z].1, ahead);
    let sorted = in_order(zones[z].1, ahead);
    assert(zones[z].1.to_multiset().count(wanted) > 0) by {
        zones[z].1.to_multiset_ensures();
    }
    assert(sorted.contains(wanted)) by {
        sorted.to_multiset_ensures();
    }
    let k = choose|k: int| 0 <= k < sorted.len() && sorted[k] == wanted;
    assert(shown[z].1 == sorted);
    assert(shown[z].1[k] == wanted);
}

proof fn lemma_sound_bound(readings: Seq<Option<Real>>, n: nat)
    ensures
        sound(readings, n) <= n,
    decreases n,
{
    if n > 0 {
        lemma_sound_bound(readings, (n - 1) as nat);
    }
}

/// Where a sensor cannot be read, or there is none, a row stands in its place: VM in a virtual
/// machine, and N/A elsewhere.
pub proof fn law_missing_temperatures(sensors: Seq<Sensor>, readings: Seq<Option<Real>>, is_vm: bool)
    requires
        sensors.len() == 0 || exists|i: int| 0 <= i < sensors.len() && (#[trigger] reading(readings, i)) is None,
    ensures
        ({
            let shown = temperatures_of(sensors, readings, is_vm);
            exists|z: int|
                0 <= z < shown.len() && (#[trigger] shown[z]).0 == "CPU Temps"@ && shown[z].1.len() == 1
                    && shown[z].1[0].label == (if is_vm {
                    "VM"@
                } else {
                    "N/A"@
                }) && shown[z].1[0].is_parent
        }),
{
    let n = sound(readings, sensors.len());
    if sensors.len() > 0 {
        let i = choose|i: int| 0 <= i < sensors.len() && (#[trigger] reading(readings, i)) is None;
        lemma_unsound(readings, sensors.len(), i);
    }
    let zones = zones_of(sensors, readings, n);
    lemma_zones_distinct(sensors, readings, n);
    let row = seq![crate::thermal::no_temperature(is_vm)];
    law_stored(zones, "CPU Temps"@, row, "CPU Temps"@);
    let all = crate::table::stored(zones, "CPU Temps"@, row);
    lemma_slot(all, "CPU Temps"@);
    let z = crate::table::slot(all, "CPU Temps"@) as int;
    let ahead = |a: Temperature, b: Temperature| a.comes_first(b);
    crate::order::law_order_keeps_all(row, ahead);
    let sorted = in_order(row, ahead);
    let shown = temperatures_of(sensors, readings, is_vm);
    assert(shown == arranged(all));
    assert(shown[z].1 == sorted);
    assert(sorted.len() == 1 && sorted[0] == row[0]) by {
        row.to_multiset_ensures();
        sorted.to_multiset_ensures();
        assert(row.contains(row[0]));
        assert(row.to_multiset().count(row[0]) > 0);
        assert(sorted.to_multiset().count(row[0]) > 0);
        assert(sorted.contains(row[0]));
    }
}

proof fn lemma_unsound(readings: Seq<Option<Real>>, n: nat, i: int)
    requires
        0 <= i < n,
        reading(readings, i) is None,
    ensures
        sound(readings, n) <= i,
    decreases n,
{
    lemma_sound_bound(readings, (n - 1) as nat);
    if i < n - 1 {
        lemma_unsound(readings, (n - 1) as nat, i);
    }
}

// ---------------------------------------------------------------------------
// The thermometer of the room
// ---------------------------------------------------------------------------

/// What holds one character nowhere stays as it is when that is taken out.
proof fn lemma_nothing_taken_out(s: Seq<char>, c: char)
    requires
        !s.contains(c),
    ensures
        replaced(s, seq![c], Seq::empty()) == s,
    decreases s.len(),
{
    if s.len() > 0 {
        assert(s.contains(s[0]));
        assert(s.subrange(0, 1)[0] == s[0]);
        assert(!begins_with(s, seq![c])) by {
            assert(seq![c][0] == c);
        }
        let rest = s.skip(1);
        assert(!rest.contains(c)) by {
            if rest.contains(c) {
                let i = choose|i: int| 0 <= i < rest.len() && rest[i] == c;
                assert(s[i + 1] == c);
            }
        }
        lemma_nothing_taken_out(rest, c);
        assert(seq![s[0]] + rest =~= s);
    }
}

/// A character that stands once is taken out.
proof fn lemma_taken_out(a: Seq<char>, c: char, b: Seq<char>)
    requires
        !a.contains(c),
        !b.contains(c),
    ensures
        replaced(a + seq![c] + b, seq![c], Seq::empty()) == a + b,
    decreases a.len(),
{
    let s = a + seq![c] + b;
    if a.len() == 0 {
        assert(s.subrange(0, 1) =~= seq![c]);
        assert(s.skip(1) =~= b);
        lemma_nothing_taken_out(b, c);
        assert(Seq::<char>::empty() + b =~= a + b);
    } else {
        assert(a.contains(a[0]));
        assert(s[0] == a[0]);
        assert(s.subrange(0, 1)[0] == s[0]);
        assert(!begins_with(s, seq![c])) by {
            assert(seq![c][0] == c);
        }
        let rest = a.skip(1);
        assert(!rest.contains(c)) by {
            if rest.contains(c) {
                let i = choose|i: int| 0 <= i < rest.len() && rest[i] == c;
                assert(a[i + 1] == c);
            }
        }
        assert(s.skip(1) =~= rest + seq![c] + b);
        lemma_taken_out(rest, c, b);
        assert(seq![a[0]] + (rest + b) =~= a + b);
    }
}

/// What the thermometer says reads back: the temperature in the line of its first device is
/// what stands before the sign of degrees, whatever follows.
pub proof fn law_thermometer_reads_back(w: Seq<char>, more: Seq<Seq<char>>, rest: Seq<char>)
    requires
        is_word(w),
        !w.contains('°'),
        !w.contains('C'),
        forall|i: int| 0 <= i < more.len() ==> is_word(#[trigger] more[i]),
        ({
            let line = spaced(seq!["Device"@, "#0:"@, w + "°C"@] + more);
            !line.contains('\n') && without_return(line) == line
        }),
    ensures
        room_temperature_text(spaced(seq!["Device"@, "#0:"@, w + "°C"@] + more) + seq!['\n'] + rest) == Some(w),
{
    let words = seq!["Device"@, "#0:"@, w + "°C"@] + more;
    let line = spaced(words);
    let output = line + seq!['\n'] + rest;
    reveal_strlit("Device");
    reveal_strlit("#0:");
    reveal_strlit("°C");
    reveal_strlit("°");
    reveal_strlit("C");
    reveal_strlit("");
    reveal_strlit("Device #0:");
    reveal_strlit(" ");
    assert forall|i: int| 0 <= i < words.len() implies is_word(#[trigger] words[i]) by {
        if i < 2 {
            assert forall|j: int| 0 <= j < words[i].len() implies !is_space(#[trigger] words[i][j]) by {}
        } else if i == 2 {
            assert forall|j: int| 0 <= j < words[i].len() implies !is_space(#[trigger] words[i][j]) by {
                if j < w.len() {
                    assert(words[i][j] == w[j]);
                }
            }
        } else {
            assert(words[i] == more[i - 3]);
        }
    }
    law_words_round_trip(words);
    law_first_line_is_cut_off(line, rest);
    lemma_line_start("Device"@, "#0:"@, seq![w + "°C"@] + more);
    assert(seq!["Device"@, "#0:"@] + (seq![w + "°C"@] + more) =~= words);
    assert(begins_with(line, "Device"@ + " "@ + "#0:"@));
    assert("Device"@ + " "@ + "#0:"@ =~= "Device #0:"@);
    assert(holds(line, "Device #0:"@)) by {
        assert(occurs_at(line, "Device #0:"@, 0));
    }
    assert(lines_of(output)[0] == line);
    assert(first_holding(lines_of(output), "Device #0:"@) == Some(line));
    assert(!holds("Device"@, "°"@)) by {
        assert forall|i: int| !occurs_at("Device"@, "°"@, i) by {
            if occurs_at("Device"@, "°"@, i) {
                assert("Device"@.subrange(i, i + 1)[0] == "Device"@[i]);
            }
        }
    }
    assert(!holds("#0:"@, "°"@)) by {
        assert forall|i: int| !occurs_at("#0:"@, "°"@, i) by {
            if occurs_at("#0:"@, "°"@, i) {
                assert("#0:"@.subrange(i, i + 1)[0] == "#0:"@[i]);
            }
        }
    }
    let word = w + "°C"@;
    assert(holds(word, "°"@)) by {
        assert(word.subrange(w.len() as int, (w.len() + 1) as int) =~= "°"@);
        assert(occurs_at(word, "°"@, w.len() as int));
    }
    assert(words[0] == "Device"@);
    assert(words.skip(1)[0] == "#0:"@);
    assert(words.skip(1).skip(1)[0] == word);
    reveal_with_fuel(first_holding, 4);
    assert(first_holding(words, "°"@) == Some(word));
    assert("°"@ =~= seq!['°']);
    assert("C"@ =~= seq!['C']);
    assert(""@ =~= Seq::<char>::empty());
    assert(word =~= w + seq!['°'] + seq!['C']);
    assert(!seq!['C'].contains('°'));
    lemma_taken_out(w, '°', seq!['C']);
    assert(w + seq!['C'] =~= w + seq!['C'] + Seq::<char>::empty());
    lemma_taken_out(w, 'C', Seq::empty());
    assert(w + Seq::<char>::empty() =~= w);
}

/// Words that stand in a line begin it as they are.
proof fn lemma_line_start(a: Seq<char>, b: Seq<char>, more: Seq<Seq<char>>)
    ensures
        begins_with(spaced(seq![a, b] + more), a + " "@ + b),
    decreases more.len(),
{
    let words = seq![a, b] + more;
    let start = a + " "@ + b;
    if more.len() == 0 {
        assert(words.drop_last() =~= seq![a]);
        assert(words.last() == b);
        assert(spaced(seq![a]) == a);
        assert(spaced(words).subrange(0, start.len() as int) =~= start);
    } else {
        assert(words.drop_last() =~= seq![a, b] + more.drop_last());
        lemma_line_start(a, b, more.drop_last());
        let front = spaced(words.drop_last());
        assert(spaced(words).subrange(0, start.len() as int) =~= front.subrange(0, start.len() as int));
    }
}

/// Packages stand before the other sensors of their chip, and within each kind the labels are
/// in the order of a dictionary.
pub proof fn law_packages_come_first(
    sensors: Seq<Sensor>,
    readings: Seq<Option<Real>>,
    is_vm: bool,
    z: int,
    i: int,
    j: int,
)
    requires
        0 <= z < temperatures_of(sensors, readings, is_vm).len(),
        0 <= i < j < temperatures_of(sensors, readings, is_vm)[z].1.len(),
    ensures
        ({
            let zone = temperatures_of(sensors, readings, is_vm)[z].1;
            &&& zone[j].is_parent ==> zone[i].is_parent
            &&& zone[i].is_parent == zone[j].is_parent ==> !precedes(zone[j].label, zone[i].label)
        }),
{
    law_zones_in_order(sensors, readings, is_vm);
    let zone = temperatures_of(sensors, readings, is_vm)[z].1;
    assert(!zone[j].comes_first(zone[i]));
}

} // verus!
