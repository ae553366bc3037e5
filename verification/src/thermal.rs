//! Temperatures: the sensors of the processor, what they say, and the thermometer
//! of the room.

use crate::binary64::{integer, quotient, read_number, Number, Real};
use crate::color::{cpu_color, get_cpu_color};
use crate::order::{in_order, put_in_order, views, Ranked};
use crate::table::{distinct, find, lemma_slot, rows_of, store, stored, value_of, Entry};
use crate::text::{
    begins_with, contains, ends_with, equal, finishes_with, holds, is_before, lines, lines_of, precedes,
    read_text, replace, replaced, starts_with, text_of, texts, trim, trimmed, words, words_of,
};
use vstd::prelude::*;

verus! {

// ---------------------------------------------------------------------------
// Sensors
// ---------------------------------------------------------------------------

/// A sensor of the processor: where it is read, and how hot it may get, in
/// thousandths of a degree.
pub struct ThermalSensorDef {
    pub parent_name: String,
    pub label: String,
    pub input_path: String,
    pub limit: Real,
    pub is_parent: bool,
}

/// A sensor of the processor.
#[verifier::ext_equal]
pub struct Sensor {
    pub parent_name: Seq<char>,
    pub label: Seq<char>,
    pub input_path: Seq<char>,
    pub limit: Number,
    pub is_parent: bool,
}

impl View for ThermalSensorDef {
    type V = Sensor;

    open spec fn view(&self) -> Sensor {
        Sensor {
            parent_name: self.parent_name@,
            label: self.label@,
            input_path: self.input_path@,
            limit: self.limit@,
            is_parent: self.is_parent,
        }
    }
}

/// The chip with this name measures the processor.
pub open spec fn is_cpu_chip(name: Seq<char>) -> bool {
    holds(name, "k10temp"@) || holds(name, "coretemp"@) || holds(name, "cpu_thermal"@) || holds(name, "soc_thermal"@)
        || holds(name, "pnv_thermal"@)
}

/// The chip with this name measures the processor.
fn measures_cpu(name: &str) -> (r: bool)
    ensures
        r == is_cpu_chip(name@),
{
    contains(name, "k10temp") || contains(name, "coretemp") || contains(name, "cpu_thermal") || contains(
        name,
        "soc_thermal",
    ) || contains(name, "pnv_thermal")
}

/// The file of this name holds a temperature.
pub open spec fn is_input(file: Seq<char>) -> bool {
    begins_with(file, "temp"@) && finishes_with(file, "_input"@)
}

/// The file of this name holds a temperature.
fn holds_temperature(file: &str) -> (r: bool)
    ensures
        r == is_input(file@),
{
    starts_with(file, "temp") && ends_with(file, "_input")
}

/// The file that belongs to the file of a temperature: with this in place of
/// "_input" in its name.
pub fn companion(file: &str, part: &str) -> (r: String)
    ensures
        r@ == replaced(file@, "_input"@, part@),
{
    proof {
        reveal_strlit("_input");
    }
    replace(file, "_input", part)
}

/// The label is that of a whole package.
pub open spec fn is_package(label: Seq<char>) -> bool {
    holds(label, "Tctl"@) || holds(label, "Package"@) || holds(label, "Tdie"@) || holds(label, "SoC"@) || holds(
        label,
        "cpu_thermal"@,
    ) || label == "temp1"@
}

/// The limit of a sensor that states none.
pub const DEFAULT_LIMIT: u64 = 95000;

/// The sensor of a file, by what could be read of its highest and its critical
/// temperature and of its label.
pub open spec fn sensor_of(
    chip: Seq<char>,
    file: Seq<char>,
    path: Seq<char>,
    max: Option<Number>,
    crit: Option<Number>,
    label: Option<Seq<char>>,
) -> Sensor {
    let named = match label {
        Some(l) => trimmed(l),
        None => trimmed(replaced(file, "_input"@, ""@)),
    };
    Sensor {
        parent_name: chip,
        label: named,
        input_path: path,
        limit: match max {
            Some(limit) => limit,
            None => match crit {
                Some(limit) => limit,
                None => integer(DEFAULT_LIMIT as nat),
            },
        },
        is_parent: is_package(named),
    }
}

/// The sensor of a file.
pub fn sensor(
    chip: &str,
    file: &str,
    path: &str,
    max: Option<Real>,
    crit: Option<Real>,
    label: Option<&str>,
) -> (r: ThermalSensorDef)
    ensures
        r@ == sensor_of(chip@, file@, path@, read_number(max), read_number(crit), read_text(label)),
{
    let named = match label {
        Some(l) => trim(l),
        None => trim(companion(file, "").as_str()),
    };
    let limit: Real = match max {
        Some(limit) => limit,
        None => match crit {
            Some(limit) => limit,
            None => Real::from_u64(DEFAULT_LIMIT),
        },
    };
    let l: &str = named.as_str();
    let is_parent: bool = contains(l, "Tctl") || contains(l, "Package") || contains(l, "Tdie") || contains(l, "SoC")
        || contains(l, "cpu_thermal") || equal(l, "temp1");
    ThermalSensorDef {
        parent_name: chip.to_owned(),
        label: named,
        input_path: path.to_owned(),
        limit,
        is_parent,
    }
}

/// A file of a chip: its name and its path, and where it holds a temperature, what
/// could be read of the highest and the critical one and of its label.
pub struct ChipFile {
    pub name: String,
    pub path: String,
    pub max: Option<Real>,
    pub crit: Option<Real>,
    pub label: Option<String>,
}

/// A file of a chip.
#[verifier::ext_equal]
pub struct FileOfChip {
    pub name: Seq<char>,
    pub path: Seq<char>,
    pub max: Option<Number>,
    pub crit: Option<Number>,
    pub label: Option<Seq<char>>,
}

impl View for ChipFile {
    type V = FileOfChip;

    open spec fn view(&self) -> FileOfChip {
        FileOfChip {
            name: self.name@,
            path: self.path@,
            max: read_number(self.max),
            crit: read_number(self.crit),
            label: text_of(self.label),
        }
    }
}

/// A chip that measures something: its name as it was read, and its files.
pub struct Chip {
    pub name: String,
    pub files: Vec<ChipFile>,
}

impl View for Chip {
    type V = (Seq<char>, Seq<FileOfChip>);

    open spec fn view(&self) -> (Seq<char>, Seq<FileOfChip>) {
        (self.name@, views(self.files@))
    }
}

/// The file is that of a sensor of the processor.
pub open spec fn is_sensor(chip: Seq<char>, file: Seq<char>) -> bool {
    is_cpu_chip(trimmed(chip)) && is_input(file)
}

/// The file is that of a sensor of the processor, by its name and that of its chip as
/// it was read.
pub fn is_cpu_sensor(chip: &str, file: &str) -> (r: bool)
    ensures
        r == is_sensor(chip@, file@),
{
    measures_cpu(trim(chip).as_str()) && holds_temperature(file)
}

/// The sensors among these files of a chip.
pub open spec fn sensors_of_chip(chip: Seq<char>, files: Seq<FileOfChip>) -> Seq<Sensor>
    decreases files.len(),
{
    if files.len() == 0 {
        Seq::empty()
    } else {
        let front = sensors_of_chip(chip, files.drop_last());
        let f = files.last();
        if is_sensor(chip, f.name) {
            front.push(sensor_of(trimmed(chip), f.name, f.path, f.max, f.crit, f.label))
        } else {
            front
        }
    }
}

/// The sensors of the processor among these chips: one for each file of a temperature
/// of each chip that measures the processor, in the order in which they are listed.
pub open spec fn sensors_of(chips: Seq<(Seq<char>, Seq<FileOfChip>)>) -> Seq<Sensor>
    decreases chips.len(),
{
    if chips.len() == 0 {
        Seq::empty()
    } else {
        sensors_of(chips.drop_last()) + sensors_of_chip(chips.last().0, chips.last().1)
    }
}

fn chip_sensors(chip: &Chip) -> (r: Vec<ThermalSensorDef>)
    ensures
        views(r@) == sensors_of_chip(chip@.0, chip@.1),
{
    let ghost all = chip@.1;
    let name = trim(chip.name.as_str());
    let mut r: Vec<ThermalSensorDef> = Vec::new();
    let mut i: usize = 0;
    proof {
        assert(all.take(0) =~= Seq::empty());
        assert(views(r@) =~= Seq::empty());
    }
    while i < chip.files.len()
        invariant
            i <= chip.files.len(),
            all == chip@.1,
            all == views(chip.files@),
            name@ == trimmed(chip@.0),
            views(r@) == sensors_of_chip(chip@.0, all.take(i as int)),
        decreases chip.files.len() - i,
    {
        let f = &chip.files[i];
        proof {
            assert(all.take(i + 1).drop_last() =~= all.take(i as int));
            assert(all.take(i + 1).last() == f@);
        }
        if is_cpu_sensor(chip.name.as_str(), f.name.as_str()) {
            let label: Option<&str> = match &f.label {
                Some(l) => Some(l.as_str()),
                None => None,
            };
            let s = sensor(name.as_str(), f.name.as_str(), f.path.as_str(), f.max, f.crit, label);
            proof {
                assert(views(r@.push(s)) =~= views(r@).push(s@));
            }
            r.push(s);
        }
        i = i + 1;
    }
    proof {
        assert(all.take(all.len() as int) =~= all);
    }
    r
}

/// The sensors of the processor among these chips.
pub fn sensors(chips: &Vec<Chip>) -> (r: Vec<ThermalSensorDef>)
    ensures
        views(r@) == sensors_of(views(chips@)),
{
    let ghost all = views(chips@);
    let mut r: Vec<ThermalSensorDef> = Vec::new();
    let mut i: usize = 0;
    proof {
        assert(all.take(0) =~= Seq::empty());
        assert(views(r@) =~= Seq::empty());
    }
    while i < chips.len()
        invariant
            i <= chips.len(),
            all == views(chips@),
            views(r@) == sensors_of(all.take(i as int)),
        decreases chips.len() - i,
    {
        proof {
            assert(all.take(i + 1).drop_last() =~= all.take(i as int));
            assert(all.take(i + 1).last() == chips@[i as int]@);
        }
        let mut more = chip_sensors(&chips[i]);
        proof {
            assert(views(r@ + more@) =~= views(r@) + views(more@));
        }
        r.append(&mut more);
        i = i + 1;
    }
    proof {
        assert(all.take(all.len() as int) =~= all);
    }
    r
}

// ---------------------------------------------------------------------------
// Readings
// ---------------------------------------------------------------------------

/// What a sensor says.
pub struct TempStat {
    pub label: String,
    pub val: Real,
    pub color: String,
    pub is_parent: bool,
}

/// What a sensor says.
#[verifier::ext_equal]
pub struct Temperature {
    pub label: Seq<char>,
    pub val: Number,
    pub color: Seq<char>,
    pub is_parent: bool,
}

impl View for TempStat {
    type V = Temperature;

    open spec fn view(&self) -> Temperature {
        Temperature { label: self.label@, val: self.val@, color: self.color@, is_parent: self.is_parent }
    }
}

impl Temperature {
    /// Packages come first; within each kind the labels stand in order.
    pub open spec fn comes_first(self, other: Temperature) -> bool {
        if self.is_parent != other.is_parent {
            self.is_parent
        } else {
            precedes(self.label, other.label)
        }
    }
}

impl Ranked for TempStat {
    open spec fn ahead(a: Temperature, b: Temperature) -> bool {
        a.comes_first(b)
    }

    fn is_ahead(&self, other: &TempStat) -> (r: bool) {
        if self.is_parent != other.is_parent {
            self.is_parent
        } else {
            is_before(self.label.as_str(), other.label.as_str())
        }
    }
}

/// What the sensors of one chip say.
pub struct Chiplets {
    pub stats: Vec<TempStat>,
}

impl View for Chiplets {
    type V = Seq<Temperature>;

    open spec fn view(&self) -> Seq<Temperature> {
        views(self.stats@)
    }
}

/// The temperatures by chip.
pub type Zones = Seq<(Seq<char>, Seq<Temperature>)>;

/// What a sensor says when it is read, in thousandths of a degree.
pub open spec fn said(sensor: Sensor, milli: Number) -> Temperature {
    Temperature {
        label: sensor.label,
        val: quotient(milli, integer(1000)),
        color: cpu_color(quotient(milli, sensor.limit)),
        is_parent: sensor.is_parent,
    }
}

/// The temperatures with one more of a chip.
pub open spec fn with_temperature(zones: Zones, chip: Seq<char>, t: Temperature) -> Zones {
    stored(
        zones,
        chip,
        match value_of(zones, chip) {
            Some(earlier) => earlier.push(t),
            None => seq![t],
        },
    )
}

/// The reading of the `i`th sensor.
pub open spec fn reading(readings: Seq<Option<Real>>, i: int) -> Option<Number> {
    if 0 <= i < readings.len() {
        read_number(readings[i])
    } else {
        None
    }
}

/// The number of sensors that were read before the first that could not be.
pub open spec fn sound(readings: Seq<Option<Real>>, n: nat) -> nat
    decreases n,
{
    if n == 0 {
        0
    } else {
        let front = sound(readings, (n - 1) as nat);
        if front == n - 1 && reading(readings, n - 1) is Some {
            n
        } else {
            front
        }
    }
}

/// The temperatures that the first `n` sensors say, by chip.
pub open spec fn zones_of(sensors: Seq<Sensor>, readings: Seq<Option<Real>>, n: nat) -> Zones
    decreases n,
{
    if n == 0 {
        Seq::empty()
    } else {
        with_temperature(
            zones_of(sensors, readings, (n - 1) as nat),
            sensors[n - 1].parent_name,
            said(sensors[n - 1], reading(readings, n - 1)->0),
        )
    }
}

/// What stands in place of a temperature where none can be read.
pub open spec fn no_temperature(is_vm: bool) -> Temperature {
    Temperature {
        label: if is_vm {
            "VM"@
        } else {
            "N/A"@
        },
        val: integer(0),
        color: if is_vm {
            "\x1b[38;2;255;165;0m"@
        } else {
            "\x1b[38;2;255;0;0m"@
        },
        is_parent: true,
    }
}

/// The chips with the temperatures of each in order.
pub open spec fn arranged(zones: Zones) -> Zones {
    Seq::new(
        zones.len(),
        |i: int| (zones[i].0, in_order(zones[i].1, |a: Temperature, b: Temperature| a.comes_first(b))),
    )
}

/// The sensors must be looked for again: there are none, or one could not be read.
pub open spec fn must_heal(sensors: Seq<Sensor>, readings: Seq<Option<Real>>) -> bool {
    sensors.len() == 0 || sound(readings, sensors.len()) < sensors.len()
}

/// The temperatures by chip: what the sensors say before the first that could not be
/// read, and where there is such a one, or no sensor at all, a row in its place.
pub open spec fn temperatures_of(sensors: Seq<Sensor>, readings: Seq<Option<Real>>, is_vm: bool) -> Zones {
    let zones = zones_of(sensors, readings, sound(readings, sensors.len()));
    if must_heal(sensors, readings) {
        arranged(stored(zones, "CPU Temps"@, seq![no_temperature(is_vm)]))
    } else {
        arranged(zones)
    }
}

proof fn lemma_sound(readings: Seq<Option<Real>>, k: nat, n: nat)
    requires
        k <= n,
        forall|i: int| 0 <= i < k ==> (#[trigger] reading(readings, i)) is Some,
        k < n ==> reading(readings, k as int) is None,
    ensures
        sound(readings, n) == k,
    decreases n,
{
    if n > k {
        lemma_sound(readings, k, (n - 1) as nat);
    } else if n > 0 {
        lemma_sound(readings, (n - 1) as nat, (n - 1) as nat);
    }
}

fn add_temperature(zones: &mut Vec<Entry<Chiplets>>, chip: &str, t: TempStat)
    ensures
        rows_of(final(zones)@) == with_temperature(rows_of(old(zones)@), chip@, t@),
{
    let i: usize = find(zones, chip);
    proof {
        lemma_slot(rows_of(zones@), chip@);
    }
    if i < zones.len() {
        let ghost before = rows_of(zones@);
        let mut entry = zones.remove(i);
        let ghost stats = entry.value.stats@;
        entry.value.stats.push(t);
        proof {
            assert(views(stats.push(t)) =~= views(stats).push(t@));
            assert(entry@ == (chip@, before[i as int].1.push(t@)));
        }
        zones.insert(i, entry);
        proof {
            assert(rows_of(zones@) =~= before.update(i as int, entry@));
        }
    } else {
        let mut stats: Vec<TempStat> = Vec::new();
        stats.push(t);
        let chiplets = Chiplets { stats };
        proof {
            assert(chiplets@ =~= seq![t@]);
        }
        store(zones, chip, chiplets);
    }
}

fn put_zones_in_order(zones: Vec<Entry<Chiplets>>) -> (r: Vec<Entry<Chiplets>>)
    ensures
        rows_of(r@) == arranged(rows_of(zones@)),
{
    let ghost all = rows_of(zones@);
    let mut rest = zones;
    let mut r: Vec<Entry<Chiplets>> = Vec::new();
    proof {
        assert(all.skip(0) =~= all);
    }
    while rest.len() > 0
        invariant
            r.len() + rest.len() == all.len(),
            rows_of(rest@) == all.skip(r.len() as int),
            rows_of(r@) == arranged(all).take(r.len() as int),
        decreases rest.len(),
    {
        let ghost before = rest@;
        let ghost done = r@;
        let entry = rest.remove(0);
        proof {
            assert(rows_of(before)[0] == entry@);
            assert forall|i: int| 0 <= i < rest.len() implies rows_of(rest@)[i] == all.skip(done.len() as int + 1)[i] by {
                assert(rows_of(before)[i + 1] == before[i + 1]@);
            }
            assert(rows_of(rest@) =~= all.skip(done.len() as int + 1));
        }
        let Entry { name, value } = entry;
        let Chiplets { stats } = value;
        let stats = put_in_order(stats);
        let entry = Entry { name, value: Chiplets { stats } };
        proof {
            assert((|a: Temperature, b: Temperature| TempStat::ahead(a, b)) =~= (|a: Temperature, b: Temperature|
                a.comes_first(b)));
            assert(entry@ == arranged(all)[done.len() as int]);
            assert(rows_of(done.push(entry)) =~= rows_of(done).push(entry@));
            assert(arranged(all).take(done.len() as int + 1) =~= arranged(all).take(done.len() as int).push(
                arranged(all)[done.len() as int],
            ));
        }
        r.push(entry);
    }
    proof {
        assert(arranged(all).take(all.len() as int) =~= arranged(all));
    }
    r
}

/// The temperatures by chip, and whether the sensors must be looked for again.
pub fn temperatures(sensors: &Vec<ThermalSensorDef>, readings: &Vec<Option<Real>>, is_vm: bool) -> (r: (
    Vec<Entry<Chiplets>>,
    bool,
))
    ensures
        rows_of(r.0@) == temperatures_of(views(sensors@), readings@, is_vm),
        r.1 == must_heal(views(sensors@), readings@),
{
    let ghost all = views(sensors@);
    let mut zones: Vec<Entry<Chiplets>> = Vec::new();
    let mut heal: bool = sensors.len() == 0;
    let mut i: usize = 0;
    proof {
        assert(rows_of(zones@) =~= Seq::empty());
    }
    while i < sensors.len() && !heal
        invariant
            i <= sensors.len(),
            all == views(sensors@),
            rows_of(zones@) == zones_of(all, readings@, i as nat),
            forall|j: int| 0 <= j < i ==> (#[trigger] reading(readings@, j)) is Some,
            heal ==> sensors.len() == 0 || (i < sensors.len() && reading(readings@, i as int) is None),
            sensors.len() == 0 ==> heal,
        decreases sensors.len() - i, (if heal { 0int } else { 1 }),
    {
        let s: &ThermalSensorDef = &sensors[i];
        proof {
            assert(all[i as int] == s@);
        }
        let milli: Option<Real> = if i < readings.len() {
            readings[i]
        } else {
            None
        };
        match milli {
            Some(milli) => {
                let stat = TempStat {
                    label: s.label.clone(),
                    val: milli.over(Real::from_u64(1000)),
                    color: get_cpu_color(&milli.over(s.limit)),
                    is_parent: s.is_parent,
                };
                proof {
                    assert(reading(readings@, i as int) == Some(milli@));
                    assert(stat@ == said(s@, milli@));
                }
                add_temperature(&mut zones, s.parent_name.as_str(), stat);
                i = i + 1;
            },
            None => {
                heal = true;
            },
        }
    }
    proof {
        lemma_sound(readings@, i as nat, all.len());
    }
    if heal {
        let stat = if is_vm {
            TempStat {
                label: "VM".to_owned(),
                val: Real::from_u64(0),
                color: "\x1b[38;2;255;165;0m".to_owned(),
                is_parent: true,
            }
        } else {
            TempStat {
                label: "N/A".to_owned(),
                val: Real::from_u64(0),
                color: "\x1b[38;2;255;0;0m".to_owned(),
                is_parent: true,
            }
        };
        let mut stats: Vec<TempStat> = Vec::new();
        proof {
            assert(stat@ == no_temperature(is_vm));
            assert(views(stats@.push(stat)) =~= seq![stat@]);
        }
        stats.push(stat);
        store(&mut zones, "CPU Temps", Chiplets { stats });
    }
    (put_zones_in_order(zones), heal)
}

// ---------------------------------------------------------------------------
// The thermometer of the room
// ---------------------------------------------------------------------------

/// The first text that holds a pattern.
pub open spec fn first_holding(s: Seq<Seq<char>>, pattern: Seq<char>) -> Option<Seq<char>>
    decreases s.len(),
{
    if s.len() == 0 {
        None
    } else if holds(s[0], pattern) {
        Some(s[0])
    } else {
        first_holding(s.skip(1), pattern)
    }
}

fn find_holding(v: &Vec<String>, pattern: &str) -> (r: Option<String>)
    ensures
        match r {
            Some(s) => first_holding(texts(v@), pattern@) == Some(s@),
            None => first_holding(texts(v@), pattern@) is None,
        },
{
    let ghost all = texts(v@);
    let mut i: usize = 0;
    proof {
        assert(all.skip(0) =~= all);
    }
    while i < v.len()
        invariant
            i <= v.len(),
            all == texts(v@),
            first_holding(all, pattern@) == first_holding(all.skip(i as int), pattern@),
        decreases v.len() - i,
    {
        proof {
            assert(all.skip(i as int)[0] == v@[i as int]@);
            assert(all.skip(i as int).skip(1) =~= all.skip(i + 1));
        }
        if contains(v[i].as_str(), pattern) {
            return Some(v[i].clone());
        }
        i = i + 1;
    }
    None
}

/// The text of the temperature in what the thermometer's program printed: the first
/// word with a degree sign in the line of the first device, without the sign and
/// the unit.
pub open spec fn room_temperature_text(output: Seq<char>) -> Option<Seq<char>> {
    match first_holding(lines_of(output), "Device #0:"@) {
        Some(line) => match first_holding(words_of(line), "°"@) {
            Some(word) => Some(replaced(replaced(word, "°"@, ""@), "C"@, ""@)),
            None => None,
        },
        None => None,
    }
}

/// The text of the temperature in what the thermometer's program printed.
pub fn thermometer_reading(output: &str) -> (r: Option<String>)
    ensures
        match r {
            Some(s) => room_temperature_text(output@) == Some(s@),
            None => room_temperature_text(output@) is None,
        },
{
    proof {
        reveal_strlit("°");
        reveal_strlit("C");
    }
    let all = lines(output);
    match find_holding(&all, "Device #0:") {
        Some(line) => {
            let parts = words(line.as_str());
            match find_holding(&parts, "°") {
                Some(word) => {
                    let bare = replace(word.as_str(), "°", "");
                    Some(replace(bare.as_str(), "C", ""))
                },
                None => None,
            }
        },
        None => None,
    }
}

/// A path below a directory.
pub open spec fn below_directory(directory: Seq<char>, path: Seq<char>) -> Seq<char> {
    if directory.len() == 0 || directory.last() == '/' {
        directory + path
    } else {
        directory + "/"@ + path
    }
}

/// Where the thermometer's program may be, in the order in which it is looked for.
pub open spec fn thermometer_places(sudo_user: Option<Seq<char>>, home: Option<Seq<char>>) -> Seq<Seq<char>> {
    let fixed = seq![
        "/usr/local/bin/temper-poll"@,
        "/usr/bin/temper-poll"@,
        "/bin/temper-poll"@,
        "/opt/bin/temper-poll"@,
    ];
    let of_user = match sudo_user {
        Some(user) => seq!["/home/"@ + user + "/.local/bin/temper-poll"@],
        None => Seq::empty(),
    };
    let of_home = match home {
        Some(home) => seq![below_directory(home, ".local/bin/temper-poll"@)],
        None => Seq::empty(),
    };
    fixed + of_user + of_home
}

/// Where the thermometer's program may be, in the order in which it is looked for.
pub fn thermometer_candidates(sudo_user: Option<&str>, home: Option<&str>) -> (r: Vec<String>)
    ensures
        texts(r@) == thermometer_places(read_text(sudo_user), read_text(home)),
{
    let mut r: Vec<String> = Vec::new();
    r.push("/usr/local/bin/temper-poll".to_owned());
    r.push("/usr/bin/temper-poll".to_owned());
    r.push("/bin/temper-poll".to_owned());
    r.push("/opt/bin/temper-poll".to_owned());
    match sudo_user {
        Some(user) => {
            let mut path = "/home/".to_owned();
            path.append(user);
            path.append("/.local/bin/temper-poll");
            r.push(path);
        },
        None => {},
    }
    match home {
        Some(home) => {
            let n: usize = home.unicode_len();
            let mut path = home.to_owned();
            if n > 0 && home.get_char(n - 1) != '/' {
                path.append("/");
            }
            path.append(".local/bin/temper-poll");
            r.push(path);
        },
        None => {},
    }
    proof {
        assert(texts(r@) =~= thermometer_places(read_text(sudo_user), read_text(home)));
    }
    r
}

// ---------------------------------------------------------------------------
// Laws
// ---------------------------------------------------------------------------

pub(crate) proof fn lemma_zones_distinct(sensors: Seq<Sensor>, readings: Seq<Option<Real>>, n: nat)
    ensures
        distinct(zones_of(sensors, readings, n)),
    decreases n,
{
    if n > 0 {
        lemma_zones_distinct(sensors, readings, (n - 1) as nat);
        let zones = zones_of(sensors, readings, (n - 1) as nat);
        let chip = sensors[n - 1].parent_name;
        let t = said(sensors[n - 1], reading(readings, n - 1)->0);
        let value = match value_of(zones, chip) {
            Some(earlier) => earlier.push(t),
            None => seq![t],
        };
        crate::table::law_stored(zones, chip, value, chip);
    }
}

/// No chip is listed twice, and the temperatures of each are in order: packages
/// first, then by label.
pub proof fn law_zones_in_order(sensors: Seq<Sensor>, readings: Seq<Option<Real>>, is_vm: bool)
    ensures
        distinct(temperatures_of(sensors, readings, is_vm)),
        forall|z: int, i: int, j: int|
            #![trigger temperatures_of(sensors, readings, is_vm)[z].1[i], temperatures_of(sensors, readings, is_vm)[z].1[j]]
            0 <= z < temperatures_of(sensors, readings, is_vm).len() && 0 <= i < j < temperatures_of(
                sensors,
                readings,
                is_vm,
            )[z].1.len() ==> !temperatures_of(sensors, readings, is_vm)[z].1[j].comes_first(
                temperatures_of(sensors, readings, is_vm)[z].1[i],
            ),
{
    let n = sound(readings, sensors.len());
    lemma_zones_distinct(sensors, readings, n);
    let zones = zones_of(sensors, readings, n);
    let last = seq![no_temperature(is_vm)];
    crate::table::law_stored(zones, "CPU Temps"@, last, "CPU Temps"@);
    let all = if must_heal(sensors, readings) {
        stored(zones, "CPU Temps"@, last)
    } else {
        zones
    };
    let r = temperatures_of(sensors, readings, is_vm);
    assert(r == arranged(all));
    assert forall|i: int, j: int| 0 <= i < j < r.len() implies (#[trigger] r[i]).0 != (#[trigger] r[j]).0 by {
        assert(r[i].0 == all[i].0 && r[j].0 == all[j].0);
    }
    let ahead = |a: Temperature, b: Temperature| a.comes_first(b);
    assert forall|a: Temperature, b: Temperature, c: Temperature|
        #![trigger ahead(a, b), ahead(b, c)]
        !ahead(a, b) && !ahead(b, c) implies !ahead(a, c) by {
        crate::text::law_texts_are_ordered(a.label, b.label, c.label);
        crate::text::law_texts_are_ordered(a.label, c.label, b.label);
        crate::text::law_texts_are_ordered(b.label, c.label, a.label);
        crate::text::law_texts_are_ordered(c.label, b.label, a.label);
    }
    assert forall|a: Temperature, b: Temperature| #[trigger] ahead(a, b) implies !ahead(b, a) by {
        crate::text::law_texts_are_ordered(a.label, b.label, a.label);
    }
    assert forall|z: int, i: int, j: int| 0 <= z < r.len() && 0 <= i < j < r[z].1.len() implies !r[z].1[j].comes_first(
        r[z].1[i],
    ) by {
        crate::order::law_order_is_kept(all[z].1, ahead);
        assert(!ahead(in_order(all[z].1, ahead)[j], in_order(all[z].1, ahead)[i]));
    }
}

/// There is always a temperature to show, or a row in its place.
pub proof fn law_something_is_shown(sensors: Seq<Sensor>, readings: Seq<Option<Real>>, is_vm: bool)
    ensures
        temperatures_of(sensors, readings, is_vm).len() > 0,
{
}

/// The number of files of temperatures of a chip.
pub open spec fn inputs_in(chip: Seq<char>, files: Seq<FileOfChip>) -> nat
    decreases files.len(),
{
    if files.len() == 0 {
        0
    } else {
        inputs_in(chip, files.drop_last()) + (if is_sensor(chip, files.last().name) {
            1nat
        } else {
            0
        })
    }
}

/// A chip has one sensor for each file of a temperature where it measures the
/// processor, and none where it does not.
pub proof fn law_one_sensor_per_file(chip: Seq<char>, files: Seq<FileOfChip>)
    ensures
        sensors_of_chip(chip, files).len() == inputs_in(chip, files),
        !is_cpu_chip(trimmed(chip)) ==> sensors_of_chip(chip, files).len() == 0,
        forall|i: int|
            0 <= i < sensors_of_chip(chip, files).len() ==> (#[trigger] sensors_of_chip(chip, files)[i]).parent_name
                == trimmed(chip),
    decreases files.len(),
{
    if files.len() > 0 {
        law_one_sensor_per_file(chip, files.drop_last());
    }
}

} // verus!
