//! What the monitor knows, and how messages change it.

use crate::binary64::{
    at_most, below, highest, integer, larger, law_numbers_are_ordered, lowest, read_number, sum, Number,
    Real,
};
use crate::color::{get_net_color, get_room_temp_color, net_color, room_temp_color};
use crate::network::{Change, NetEvent, NetNode, Traffic};
use crate::order::views;
use crate::peaks::{
    elapsed, fresh, is_blink_active, law_max_is_highest, law_min_is_lowest, law_storage_peak_never_falls,
    time_since, Peaks, StorageHrHwState, ValuePeakTracker, Watermarks, SECOND,
};
use crate::span::Span;
use crate::storage::{DiskNode, DiskNodeRaw, DiskStats};
use crate::table::{
    distinct, find, keep_only, law_only, law_stored, listed, only, rows_of, store, stored, value_of, Entry,
};
use crate::text::texts;
use crate::thermal::{Chiplets, Temperature, Zones};
use vstd::prelude::*;

verus! {

// ---------------------------------------------------------------------------
// What is known
// ---------------------------------------------------------------------------

/// That an interface has come or gone, and when.
#[derive(Clone, Copy, Debug, PartialEq, Eq, Structural)]
pub struct Note {
    pub change: Change,
    pub time: u64,
}

impl View for Note {
    type V = Note;

    open spec fn view(&self) -> Note {
        *self
    }
}

/// What the monitor knows.
#[verifier::ext_equal]
pub struct Status {
    pub cpu_model_display: Seq<char>,
    pub is_vm: bool,
    pub limits: (Option<Number>, Option<Number>),
    pub highest_overclock: Option<Number>,
    pub hoc_last_peak: Option<u64>,
    pub freqs: Seq<Number>,
    pub cpu_temps: Zones,
    pub parent_ht_trackers: Seq<(Seq<char>, Peaks)>,
    pub room_temp_val: Option<Number>,
    pub room_temp_tracker: Peaks,
    pub last_room_hot_time: Option<u64>,
    pub mem_ram_str: Seq<char>,
    pub mem_zswap_str: Seq<char>,
    pub mem_swap_total_str: Seq<char>,
    pub swaps_formatted: Seq<Seq<char>>,
    pub net_events: Seq<(Seq<char>, Note)>,
    pub raw_net_nodes: Seq<Traffic>,
    pub net_trackers: Seq<(Seq<char>, (Peaks, Peaks))>,
    pub net_total_tracker: (Peaks, Peaks),
    pub net_total_rx: Number,
    pub net_total_tx: Number,
    pub net_total_max: Number,
    pub disk_nodes: Seq<DiskNode>,
    pub disk_trackers: Seq<(Seq<char>, Watermarks)>,
    pub disk_global_hw: Watermarks,
    pub disk_agg_total: u64,
    pub disk_agg_used: u64,
    pub disk_agg_read: Number,
    pub disk_agg_write: Number,
    pub idle_time: nat,
    pub width: u16,
    pub height: u16,
    pub screen_is_dirty: bool,
}

/// The memory as it is shown.
pub struct MemStats {
    pub ram_str: String,
    pub zswap_str: String,
    pub swap_total_str: String,
    pub swaps_formatted: Vec<String>,
}

/// What the user does.
#[derive(Clone, Copy, Debug, PartialEq, Eq, Structural)]
pub enum Input {
    /// A character, with or without the control key.
    Key { code: char, control: bool },
    /// The terminal has this many columns and rows now.
    Resize(u16, u16),
    /// Anything else.
    Other,
}

/// A message to the monitor.
pub enum Msg {
    CpuFreqs(Vec<Real>),
    CpuTemps(Vec<Entry<Chiplets>>),
    RoomTemp(Option<Real>),
    MemStats(MemStats),
    NetStats(Vec<NetNode>),
    NetEvent(NetEvent),
    DiskStats(DiskStats),
    UserIdle(Span),
    InputEvent(Input),
    Tick,
}

/// Whether the monitor goes on.
#[derive(Clone, Copy, Debug, PartialEq, Eq, Structural)]
pub enum Flow {
    Continue,
    Quit,
}

/// These keys end the monitor.
pub open spec fn quits(code: char, control: bool) -> bool {
    code == 'q' || code == 'Q' || (code == 'c' && control)
}

// ---------------------------------------------------------------------------
// How each message changes what is known
// ---------------------------------------------------------------------------

/// The highest overclock and its time after these frequencies: a frequency above the
/// limit of the hardware that is above all earlier ones replaces them.
pub open spec fn overclock_after(
    limit: Option<Number>,
    known: (Option<Number>, Option<u64>),
    freqs: Seq<Number>,
    now: u64,
) -> (Option<Number>, Option<u64>)
    decreases freqs.len(),
{
    if freqs.len() == 0 {
        known
    } else {
        let before = overclock_after(limit, known, freqs.drop_last(), now);
        let freq = freqs.last();
        if limit is Some && below(limit->0, freq) && (before.0 is None || below(before.0->0, freq)) {
            (Some(freq), Some(now))
        } else {
            before
        }
    }
}

/// The highest temperatures of chips after those of one chip: its packages count.
pub open spec fn heat_after(
    trackers: Seq<(Seq<char>, Peaks)>,
    chip: Seq<char>,
    stats: Seq<Temperature>,
    now: u64,
) -> Seq<(Seq<char>, Peaks)>
    decreases stats.len(),
{
    if stats.len() == 0 {
        trackers
    } else {
        let before = heat_after(trackers, chip, stats.drop_last(), now);
        let stat = stats.last();
        if stat.is_parent {
            stored(before, chip, peaks_in(before, chip).with_max(stat.val, stat.color, now))
        } else {
            before
        }
    }
}

/// What is remembered under a name.
pub open spec fn peaks_in(trackers: Seq<(Seq<char>, Peaks)>, name: Seq<char>) -> Peaks {
    match value_of(trackers, name) {
        Some(p) => p,
        None => Peaks::none(),
    }
}

/// The highest temperatures of chips after these temperatures.
pub open spec fn heats_after(trackers: Seq<(Seq<char>, Peaks)>, zones: Zones, now: u64) -> Seq<(Seq<char>, Peaks)>
    decreases zones.len(),
{
    if zones.len() == 0 {
        trackers
    } else {
        heat_after(heats_after(trackers, zones.drop_last(), now), zones.last().0, zones.last().1, now)
    }
}

/// What is remembered of an interface: receiving, then sending.
pub open spec fn pair_in(trackers: Seq<(Seq<char>, (Peaks, Peaks))>, name: Seq<char>) -> (Peaks, Peaks) {
    match value_of(trackers, name) {
        Some(p) => p,
        None => (Peaks::none(), Peaks::none()),
    }
}

/// A pair of trackers after speeds of receiving and sending.
pub open spec fn pair_after(pair: (Peaks, Peaks), rx: Number, tx: Number, max: Number, now: u64) -> (Peaks, Peaks) {
    (pair.0.with_max(rx, net_color(rx, max), now), pair.1.with_max(tx, net_color(tx, max), now))
}

/// The highest speeds of interfaces after these speeds.
pub open spec fn net_after(
    trackers: Seq<(Seq<char>, (Peaks, Peaks))>,
    nodes: Seq<Traffic>,
    now: u64,
) -> Seq<(Seq<char>, (Peaks, Peaks))>
    decreases nodes.len(),
{
    if nodes.len() == 0 {
        trackers
    } else {
        let before = net_after(trackers, nodes.drop_last(), now);
        let n = nodes.last();
        stored(before, n.iface, pair_after(pair_in(before, n.iface), n.rx, n.tx, n.max, now))
    }
}

/// The speeds of all interfaces together, and the most they can take.
pub open spec fn net_totals(nodes: Seq<Traffic>) -> (Number, Number, Number)
    decreases nodes.len(),
{
    if nodes.len() == 0 {
        (integer(0), integer(0), integer(0))
    } else {
        let before = net_totals(nodes.drop_last());
        (sum(before.0, nodes.last().rx), sum(before.1, nodes.last().tx), sum(before.2, nodes.last().max))
    }
}

/// What is remembered of a device.
pub open spec fn marks_in(trackers: Seq<(Seq<char>, Watermarks)>, name: Seq<char>, now: u64) -> Watermarks {
    match value_of(trackers, name) {
        Some(w) => w,
        None => Watermarks::none(now),
    }
}

/// The highest speeds of devices after these speeds.
pub open spec fn disks_after(
    trackers: Seq<(Seq<char>, Watermarks)>,
    nodes: Seq<DiskNode>,
    now: u64,
) -> Seq<(Seq<char>, Watermarks)>
    decreases nodes.len(),
{
    if nodes.len() == 0 {
        trackers
    } else {
        let before = disks_after(trackers, nodes.drop_last(), now);
        let n = nodes.last();
        stored(before, n.raw_dev_name, marks_in(before, n.raw_dev_name, now).after(n.r_speed, n.w_speed, now))
    }
}

/// The speeds of all devices together: reading, then writing.
pub open spec fn disk_totals(nodes: Seq<DiskNode>) -> (Number, Number)
    decreases nodes.len(),
{
    if nodes.len() == 0 {
        (integer(0), integer(0))
    } else {
        let before = disk_totals(nodes.drop_last());
        (sum(before.0, nodes.last().r_speed), sum(before.1, nodes.last().w_speed))
    }
}

/// How long it is told that an interface has come or gone, in seconds.
pub const NOTE_SECONDS: u64 = 5;

/// A thing that happened then is still told.
pub open spec fn told(time: u64, now: u64) -> bool {
    elapsed(time, now) / (SECOND as int) < NOTE_SECONDS
}

/// The notes that are still told.
pub open spec fn told_notes(notes: Seq<(Seq<char>, Note)>, now: u64) -> Seq<(Seq<char>, Note)>
    decreases notes.len(),
{
    if notes.len() == 0 {
        Seq::empty()
    } else if told(notes.last().1.time, now) {
        told_notes(notes.drop_last(), now).push(notes.last())
    } else {
        told_notes(notes.drop_last(), now)
    }
}

/// The names of the devices of these volumes.
pub open spec fn device_names(nodes: Seq<DiskNode>) -> Seq<Seq<char>> {
    Seq::new(nodes.len(), |i: int| nodes[i].raw_dev_name)
}

impl Status {
    /// A peak is fresh, so that the screen strobes.
    pub open spec fn strobes(self, now: u64) -> bool {
        ||| fresh(self.hoc_last_peak, now)
        ||| fresh(self.room_temp_tracker.last_min_peak, now)
        ||| fresh(self.room_temp_tracker.last_max_peak, now)
        ||| exists|i: int|
            0 <= i < self.parent_ht_trackers.len() && fresh(
                (#[trigger] self.parent_ht_trackers[i]).1.last_max_peak,
                now,
            )
        ||| exists|i: int|
            0 <= i < self.net_trackers.len() && pair_strobes((#[trigger] self.net_trackers[i]).1, now)
        ||| pair_strobes(self.net_total_tracker, now)
        ||| exists|i: int|
            0 <= i < self.disk_trackers.len() && marks_strobe((#[trigger] self.disk_trackers[i]).1, now)
        ||| marks_strobe(self.disk_global_hw, now)
    }

    /// No name is tracked twice, and what is shown of interfaces and devices is
    /// tracked.
    pub open spec fn consistent(self) -> bool {
        &&& distinct(self.parent_ht_trackers)
        &&& distinct(self.net_events)
        &&& distinct(self.net_trackers)
        &&& distinct(self.disk_trackers)
        &&& forall|i: int|
            0 <= i < self.raw_net_nodes.len() ==> listed(
                self.net_trackers,
                (#[trigger] self.raw_net_nodes[i]).iface,
            )
        &&& forall|i: int|
            0 <= i < self.disk_nodes.len() ==> listed(
                self.disk_trackers,
                (#[trigger] self.disk_nodes[i]).raw_dev_name,
            )
    }

    /// Before anything is known.
    pub open spec fn initial(
        model: Seq<char>,
        is_vm: bool,
        limits: (Option<Number>, Option<Number>),
        width: u16,
        height: u16,
        now: u64,
    ) -> Status {
        Status {
            cpu_model_display: model,
            is_vm,
            limits,
            highest_overclock: None,
            hoc_last_peak: None,
            freqs: Seq::empty(),
            cpu_temps: Seq::empty(),
            parent_ht_trackers: Seq::empty(),
            room_temp_val: None,
            room_temp_tracker: Peaks::none(),
            last_room_hot_time: None,
            mem_ram_str: "Loading..."@,
            mem_zswap_str: "Loading..."@,
            mem_swap_total_str: "Loading..."@,
            swaps_formatted: Seq::empty(),
            net_events: Seq::empty(),
            raw_net_nodes: Seq::empty(),
            net_trackers: Seq::empty(),
            net_total_tracker: (Peaks::none(), Peaks::none()),
            net_total_rx: integer(0),
            net_total_tx: integer(0),
            net_total_max: integer(0),
            disk_nodes: Seq::empty(),
            disk_trackers: Seq::empty(),
            disk_global_hw: Watermarks::none(now),
            disk_agg_total: 0,
            disk_agg_used: 0,
            disk_agg_read: integer(0),
            disk_agg_write: integer(0),
            idle_time: 0,
            width,
            height,
            screen_is_dirty: true,
        }
    }

    /// After frequencies.
    pub open spec fn after_freqs(self, freqs: Seq<Number>, now: u64) -> Status {
        let (hoc, peak) = overclock_after(
            self.limits.1,
            (self.highest_overclock, self.hoc_last_peak),
            freqs,
            now,
        );
        Status { highest_overclock: hoc, hoc_last_peak: peak, freqs, screen_is_dirty: true, ..self }
    }

    /// After temperatures.
    pub open spec fn after_temps(self, zones: Zones, now: u64) -> Status {
        Status {
            parent_ht_trackers: heats_after(self.parent_ht_trackers, zones, now),
            cpu_temps: zones,
            screen_is_dirty: true,
            ..self
        }
    }

    /// After a reading of the thermometer of the room.
    pub open spec fn after_room(self, temp: Option<Number>, now: u64) -> Status {
        match temp {
            Some(val) => {
                let color = room_temp_color(val);
                Status {
                    room_temp_val: temp,
                    room_temp_tracker: self.room_temp_tracker.with_max(val, color, now).with_min(val, color, now),
                    last_room_hot_time: if at_most(integer(HOT as nat), val) {
                        Some(now)
                    } else {
                        self.last_room_hot_time
                    },
                    screen_is_dirty: true,
                    ..self
                }
            },
            None => Status { room_temp_val: None, screen_is_dirty: true, ..self },
        }
    }

    /// After the texts of the memory.
    pub open spec fn after_memory(
        self,
        ram: Seq<char>,
        zswap: Seq<char>,
        swap_total: Seq<char>,
        swaps: Seq<Seq<char>>,
    ) -> Status {
        Status {
            mem_ram_str: ram,
            mem_zswap_str: zswap,
            mem_swap_total_str: swap_total,
            swaps_formatted: swaps,
            screen_is_dirty: true,
            ..self
        }
    }

    /// After speeds of interfaces.
    pub open spec fn after_network(self, nodes: Seq<Traffic>, now: u64) -> Status {
        let (rx, tx, max) = net_totals(nodes);
        Status {
            raw_net_nodes: nodes,
            net_trackers: net_after(self.net_trackers, nodes, now),
            net_total_tracker: pair_after(self.net_total_tracker, rx, tx, larger(max, integer(1)), now),
            net_total_rx: rx,
            net_total_tx: tx,
            net_total_max: max,
            screen_is_dirty: true,
            ..self
        }
    }

    /// After an interface has come or gone.
    pub open spec fn after_event(self, iface: Seq<char>, change: Change, now: u64) -> Status {
        Status {
            net_events: stored(self.net_events, iface, Note { change, time: now }),
            screen_is_dirty: true,
            ..self
        }
    }

    /// After what is shown of the volumes.
    pub open spec fn after_disks(self, nodes: Seq<DiskNode>, total: u64, used: u64, now: u64) -> Status {
        let (read, write) = disk_totals(nodes);
        Status {
            disk_nodes: nodes,
            disk_trackers: disks_after(self.disk_trackers, nodes, now),
            disk_global_hw: self.disk_global_hw.after(read, write, now),
            disk_agg_total: total,
            disk_agg_used: used,
            disk_agg_read: read,
            disk_agg_write: write,
            screen_is_dirty: true,
            ..self
        }
    }

    /// After what the user does.
    pub open spec fn after_input(self, input: Input) -> Status {
        match input {
            Input::Resize(width, height) => Status { width, height, screen_is_dirty: true, ..self },
            _ => self,
        }
    }

    /// After a message.
    pub open spec fn after(self, msg: Msg, now: u64) -> Status {
        match msg {
            Msg::CpuFreqs(f) => self.after_freqs(views(f@), now),
            Msg::CpuTemps(t) => self.after_temps(rows_of(t@), now),
            Msg::RoomTemp(t) => self.after_room(read_number(t), now),
            Msg::MemStats(m) => self.after_memory(
                m.ram_str@,
                m.zswap_str@,
                m.swap_total_str@,
                texts(m.swaps_formatted@),
            ),
            Msg::NetStats(n) => self.after_network(views(n@), now),
            Msg::NetEvent(e) => self.after_event(e.iface@, e.change, now),
            Msg::DiskStats(d) => self.after_disks(views(d.disk_nodes@), d.agg_total, d.agg_used, now),
            Msg::UserIdle(time) => Status { idle_time: time@, screen_is_dirty: true, ..self },
            Msg::InputEvent(input) => self.after_input(input),
            Msg::Tick => Status { screen_is_dirty: self.screen_is_dirty || self.strobes(now), ..self },
        }
    }

    /// What is forgotten before the screen is drawn: that an interface came or went
    /// long ago, and the peaks of devices that are not shown.
    pub open spec fn tidied(self, now: u64) -> Status {
        Status {
            net_events: told_notes(self.net_events, now),
            disk_trackers: only(self.disk_trackers, device_names(self.disk_nodes)),
            ..self
        }
    }
}

/// A pair of trackers strobes.
pub open spec fn pair_strobes(pair: (Peaks, Peaks), now: u64) -> bool {
    fresh(pair.0.last_max_peak, now) || fresh(pair.1.last_max_peak, now)
}

/// The peaks of a device strobe.
pub open spec fn marks_strobe(w: Watermarks, now: u64) -> bool {
    fresh(w.read.last_peak, now) || fresh(w.write.last_peak, now)
}

/// From this temperature of the room on, in degrees, there is a warning.
pub const HOT: u64 = 40;

// ---------------------------------------------------------------------------
// The monitor
// ---------------------------------------------------------------------------

/// The state of the monitor.
pub struct SystemState {
    pub(crate) cpu_model_display: String,
    pub(crate) is_vm: bool,
    pub(crate) limits: (Option<Real>, Option<Real>),
    pub(crate) highest_overclock: Option<Real>,
    pub(crate) hoc_last_peak: Option<u64>,
    pub(crate) freqs: Vec<Real>,
    pub(crate) cpu_temps: Vec<Entry<Chiplets>>,
    pub(crate) parent_ht_trackers: Vec<Entry<ValuePeakTracker>>,
    pub(crate) room_temp_val: Option<Real>,
    pub(crate) room_temp_tracker: ValuePeakTracker,
    pub(crate) last_room_hot_time: Option<u64>,
    pub(crate) mem_ram_str: String,
    pub(crate) mem_zswap_str: String,
    pub(crate) mem_swap_total_str: String,
    pub(crate) swaps_formatted: Vec<String>,
    pub(crate) net_events: Vec<Entry<Note>>,
    pub(crate) raw_net_nodes: Vec<NetNode>,
    pub(crate) net_trackers: Vec<Entry<(ValuePeakTracker, ValuePeakTracker)>>,
    pub(crate) net_total_tracker: (ValuePeakTracker, ValuePeakTracker),
    pub(crate) net_total_rx: Real,
    pub(crate) net_total_tx: Real,
    pub(crate) net_total_max: Real,
    pub(crate) disk_nodes: Vec<DiskNodeRaw>,
    pub(crate) disk_trackers: Vec<Entry<StorageHrHwState>>,
    pub(crate) disk_global_hw: StorageHrHwState,
    pub(crate) disk_agg_total: u64,
    pub(crate) disk_agg_used: u64,
    pub(crate) disk_agg_read: Real,
    pub(crate) disk_agg_write: Real,
    pub(crate) idle_time: Span,
    pub(crate) width: u16,
    pub(crate) height: u16,
    pub(crate) screen_is_dirty: bool,
}

impl View for SystemState {
    type V = Status;

    closed spec fn view(&self) -> Status {
        self.status()
    }
}

impl SystemState {
    /// What the monitor knows.
    pub(crate) open spec fn status(&self) -> Status {
        Status {
            cpu_model_display: self.cpu_model_display@,
            is_vm: self.is_vm,
            limits: (read_number(self.limits.0), read_number(self.limits.1)),
            highest_overclock: read_number(self.highest_overclock),
            hoc_last_peak: self.hoc_last_peak,
            freqs: views(self.freqs@),
            cpu_temps: rows_of(self.cpu_temps@),
            parent_ht_trackers: rows_of(self.parent_ht_trackers@),
            room_temp_val: read_number(self.room_temp_val),
            room_temp_tracker: self.room_temp_tracker@,
            last_room_hot_time: self.last_room_hot_time,
            mem_ram_str: self.mem_ram_str@,
            mem_zswap_str: self.mem_zswap_str@,
            mem_swap_total_str: self.mem_swap_total_str@,
            swaps_formatted: texts(self.swaps_formatted@),
            net_events: rows_of(self.net_events@),
            raw_net_nodes: views(self.raw_net_nodes@),
            net_trackers: rows_of(self.net_trackers@),
            net_total_tracker: self.net_total_tracker@,
            net_total_rx: self.net_total_rx@,
            net_total_tx: self.net_total_tx@,
            net_total_max: self.net_total_max@,
            disk_nodes: views(self.disk_nodes@),
            disk_trackers: rows_of(self.disk_trackers@),
            disk_global_hw: self.disk_global_hw@,
            disk_agg_total: self.disk_agg_total,
            disk_agg_used: self.disk_agg_used,
            disk_agg_read: self.disk_agg_read@,
            disk_agg_write: self.disk_agg_write@,
            idle_time: self.idle_time@,
            width: self.width,
            height: self.height,
            screen_is_dirty: self.screen_is_dirty,
        }
    }

    pub(crate) proof fn lemma_status(&self)
        ensures
            self@ == self.status(),
    {
    }

    /// A monitor that knows nothing but the machine and the terminal.
    pub fn new(
        cpu_model_display: String,
        is_vm: bool,
        limits: (Option<Real>, Option<Real>),
        width: u16,
        height: u16,
        now: u64,
    ) -> (r: SystemState)
        ensures
            r@ == Status::initial(
                cpu_model_display@,
                is_vm,
                (read_number(limits.0), read_number(limits.1)),
                width,
                height,
                now,
            ),
            r@.consistent(),
    {
        let r = SystemState {
            cpu_model_display,
            is_vm,
            limits,
            highest_overclock: None,
            hoc_last_peak: None,
            freqs: Vec::new(),
            cpu_temps: Vec::new(),
            parent_ht_trackers: Vec::new(),
            room_temp_val: None,
            room_temp_tracker: ValuePeakTracker::new(),
            last_room_hot_time: None,
            mem_ram_str: "Loading...".to_owned(),
            mem_zswap_str: "Loading...".to_owned(),
            mem_swap_total_str: "Loading...".to_owned(),
            swaps_formatted: Vec::new(),
            net_events: Vec::new(),
            raw_net_nodes: Vec::new(),
            net_trackers: Vec::new(),
            net_total_tracker: (ValuePeakTracker::new(), ValuePeakTracker::new()),
            net_total_rx: Real::from_u64(0),
            net_total_tx: Real::from_u64(0),
            net_total_max: Real::from_u64(0),
            disk_nodes: Vec::new(),
            disk_trackers: Vec::new(),
            disk_global_hw: StorageHrHwState::new(now),
            disk_agg_total: 0,
            disk_agg_used: 0,
            disk_agg_read: Real::from_u64(0),
            disk_agg_write: Real::from_u64(0),
            idle_time: Span::from_secs(0),
            width,
            height,
            screen_is_dirty: true,
        };
        proof {
            assert(r@ =~= Status::initial(
                cpu_model_display@,
                is_vm,
                (read_number(limits.0), read_number(limits.1)),
                width,
                height,
                now,
            ));
        }
        r
    }

    /// A peak is fresh, so that the screen strobes.
    pub fn is_any_blink_active(&self, now: u64) -> (r: bool)
        ensures
            r == self@.strobes(now),
    {
        let ghost st = self@;
        if is_blink_active(self.hoc_last_peak, now) {
            return true;
        }
        if is_blink_active(self.room_temp_tracker.last_min_peak, now) || is_blink_active(
            self.room_temp_tracker.last_max_peak,
            now,
        ) {
            return true;
        }
        let mut i: usize = 0;
        while i < self.parent_ht_trackers.len()
            invariant
                i <= self.parent_ht_trackers.len(),
                st == self@,
                forall|j: int| 0 <= j < i ==> !fresh((#[trigger] st.parent_ht_trackers[j]).1.last_max_peak, now),
            decreases self.parent_ht_trackers.len() - i,
        {
            proof {
                assert(st.parent_ht_trackers[i as int] == self.parent_ht_trackers@[i as int]@);
            }
            if is_blink_active(self.parent_ht_trackers[i].value.last_max_peak, now) {
                return true;
            }
            i = i + 1;
        }
        let mut i: usize = 0;
        while i < self.net_trackers.len()
            invariant
                i <= self.net_trackers.len(),
                st == self@,
                forall|j: int| 0 <= j < i ==> !pair_strobes((#[trigger] st.net_trackers[j]).1, now),
            decreases self.net_trackers.len() - i,
        {
            proof {
                assert(st.net_trackers[i as int] == self.net_trackers@[i as int]@);
            }
            if is_blink_active(self.net_trackers[i].value.0.last_max_peak, now) || is_blink_active(
                self.net_trackers[i].value.1.last_max_peak,
                now,
            ) {
                return true;
            }
            i = i + 1;
        }
        if is_blink_active(self.net_total_tracker.0.last_max_peak, now) || is_blink_active(
            self.net_total_tracker.1.last_max_peak,
            now,
        ) {
            return true;
        }
        let mut i: usize = 0;
        while i < self.disk_trackers.len()
            invariant
                i <= self.disk_trackers.len(),
                st == self@,
                forall|j: int| 0 <= j < i ==> !marks_strobe((#[trigger] st.disk_trackers[j]).1, now),
            decreases self.disk_trackers.len() - i,
        {
            proof {
                assert(st.disk_trackers[i as int] == self.disk_trackers@[i as int]@);
            }
            if is_blink_active(self.disk_trackers[i].value.last_r_peak, now) || is_blink_active(
                self.disk_trackers[i].value.last_w_peak,
                now,
            ) {
                return true;
            }
            i = i + 1;
        }
        is_blink_active(self.disk_global_hw.last_r_peak, now) || is_blink_active(
            self.disk_global_hw.last_w_peak,
            now,
        )
    }
}

// ---------------------------------------------------------------------------
// Messages
// ---------------------------------------------------------------------------

fn track_heat(trackers: &mut Vec<Entry<ValuePeakTracker>>, chip: &str, val: &Real, color: &str, now: u64)
    ensures
        rows_of(final(trackers)@) == stored(
            rows_of(old(trackers)@),
            chip@,
            peaks_in(rows_of(old(trackers)@), chip@).with_max(val@, color@, now),
        ),
{
    let ghost before = rows_of(trackers@);
    let i: usize = find(trackers, chip);
    if i < trackers.len() {
        let mut entry = trackers.remove(i);
        proof {
            assert(entry@ == before[i as int]);
        }
        let _ = entry.value.update_max(val, color, now);
        trackers.insert(i, entry);
        proof {
            assert(rows_of(trackers@) =~= before.update(i as int, entry@));
        }
    } else {
        let mut tracker = ValuePeakTracker::new();
        let _ = tracker.update_max(val, color, now);
        store(trackers, chip, tracker);
    }
}

fn track_zone(trackers: &mut Vec<Entry<ValuePeakTracker>>, zone: &Entry<Chiplets>, now: u64)
    ensures
        rows_of(final(trackers)@) == heat_after(rows_of(old(trackers)@), zone@.0, zone@.1, now),
{
    let ghost start = rows_of(trackers@);
    let ghost all = zone@.1;
    let mut i: usize = 0;
    proof {
        assert(all.take(0) =~= Seq::empty());
    }
    while i < zone.value.stats.len()
        invariant
            i <= zone.value.stats.len(),
            all == zone@.1,
            rows_of(trackers@) == heat_after(start, zone@.0, all.take(i as int), now),
        decreases zone.value.stats.len() - i,
    {
        let stat = &zone.value.stats[i];
        proof {
            assert(all.take(i + 1).drop_last() =~= all.take(i as int));
            assert(all.take(i + 1).last() == stat@);
        }
        if stat.is_parent {
            track_heat(trackers, zone.name.as_str(), &stat.val, stat.color.as_str(), now);
        }
        i = i + 1;
    }
    proof {
        assert(all.take(all.len() as int) =~= all);
    }
}

fn track_zones(trackers: &mut Vec<Entry<ValuePeakTracker>>, zones: &Vec<Entry<Chiplets>>, now: u64)
    ensures
        rows_of(final(trackers)@) == heats_after(rows_of(old(trackers)@), rows_of(zones@), now),
{
    let ghost start = rows_of(trackers@);
    let ghost all = rows_of(zones@);
    let mut i: usize = 0;
    proof {
        assert(all.take(0) =~= Seq::empty());
    }
    while i < zones.len()
        invariant
            i <= zones.len(),
            all == rows_of(zones@),
            rows_of(trackers@) == heats_after(start, all.take(i as int), now),
        decreases zones.len() - i,
    {
        proof {
            assert(all.take(i + 1).drop_last() =~= all.take(i as int));
            assert(all.take(i + 1).last() == zones@[i as int]@);
        }
        track_zone(trackers, &zones[i], now);
        i = i + 1;
    }
    proof {
        assert(all.take(all.len() as int) =~= all);
    }
}

fn track_pair(pair: &mut (ValuePeakTracker, ValuePeakTracker), rx: &Real, tx: &Real, max: &Real, now: u64)
    ensures
        final(pair)@ == pair_after(old(pair)@, rx@, tx@, max@, now),
{
    let rx_color = get_net_color(rx, max);
    let tx_color = get_net_color(tx, max);
    let _ = pair.0.update_max(rx, rx_color.as_str(), now);
    let _ = pair.1.update_max(tx, tx_color.as_str(), now);
}

fn track_net(trackers: &mut Vec<Entry<(ValuePeakTracker, ValuePeakTracker)>>, n: &NetNode, now: u64)
    ensures
        rows_of(final(trackers)@) == stored(
            rows_of(old(trackers)@),
            n@.iface,
            pair_after(pair_in(rows_of(old(trackers)@), n@.iface), n@.rx, n@.tx, n@.max, now),
        ),
{
    let ghost before = rows_of(trackers@);
    let i: usize = find(trackers, n.iface.as_str());
    if i < trackers.len() {
        let mut entry = trackers.remove(i);
        proof {
            assert(entry@ == before[i as int]);
        }
        track_pair(&mut entry.value, &n.rx, &n.tx, &n.max, now);
        trackers.insert(i, entry);
        proof {
            assert(rows_of(trackers@) =~= before.update(i as int, entry@));
        }
    } else {
        let mut pair: (ValuePeakTracker, ValuePeakTracker) = (ValuePeakTracker::new(), ValuePeakTracker::new());
        track_pair(&mut pair, &n.rx, &n.tx, &n.max, now);
        store(trackers, n.iface.as_str(), pair);
    }
}

fn track_nets(trackers: &mut Vec<Entry<(ValuePeakTracker, ValuePeakTracker)>>, nodes: &Vec<NetNode>, now: u64)
    ensures
        rows_of(final(trackers)@) == net_after(rows_of(old(trackers)@), views(nodes@), now),
{
    let ghost start = rows_of(trackers@);
    let ghost all = views(nodes@);
    let mut i: usize = 0;
    proof {
        assert(all.take(0) =~= Seq::empty());
    }
    while i < nodes.len()
        invariant
            i <= nodes.len(),
            all == views(nodes@),
            rows_of(trackers@) == net_after(start, all.take(i as int), now),
        decreases nodes.len() - i,
    {
        proof {
            assert(all.take(i + 1).drop_last() =~= all.take(i as int));
            assert(all.take(i + 1).last() == nodes@[i as int]@);
        }
        track_net(trackers, &nodes[i], now);
        i = i + 1;
    }
    proof {
        assert(all.take(all.len() as int) =~= all);
    }
}

fn total_traffic(nodes: &Vec<NetNode>) -> (r: (Real, Real, Real))
    ensures
        (r.0@, r.1@, r.2@) == net_totals(views(nodes@)),
{
    let ghost all = views(nodes@);
    let mut rx: Real = Real::from_u64(0);
    let mut tx: Real = Real::from_u64(0);
    let mut max: Real = Real::from_u64(0);
    let mut i: usize = 0;
    proof {
        assert(all.take(0) =~= Seq::empty());
    }
    while i < nodes.len()
        invariant
            i <= nodes.len(),
            all == views(nodes@),
            (rx@, tx@, max@) == net_totals(all.take(i as int)),
        decreases nodes.len() - i,
    {
        proof {
            assert(all.take(i + 1).drop_last() =~= all.take(i as int));
            assert(all.take(i + 1).last() == nodes@[i as int]@);
        }
        rx = rx.plus(nodes[i].rx);
        tx = tx.plus(nodes[i].tx);
        max = max.plus(nodes[i].max);
        i = i + 1;
    }
    proof {
        assert(all.take(all.len() as int) =~= all);
    }
    (rx, tx, max)
}

fn track_disk(trackers: &mut Vec<Entry<StorageHrHwState>>, n: &DiskNodeRaw, now: u64)
    ensures
        rows_of(final(trackers)@) == stored(
            rows_of(old(trackers)@),
            n@.raw_dev_name,
            marks_in(rows_of(old(trackers)@), n@.raw_dev_name, now).after(n@.r_speed, n@.w_speed, now),
        ),
{
    let ghost before = rows_of(trackers@);
    let i: usize = find(trackers, n.raw_dev_name.as_str());
    if i < trackers.len() {
        let mut entry = trackers.remove(i);
        proof {
            assert(entry@ == before[i as int]);
        }
        entry.value.update(&n.r_speed, &n.w_speed, now);
        trackers.insert(i, entry);
        proof {
            assert(rows_of(trackers@) =~= before.update(i as int, entry@));
        }
    } else {
        let mut tracker = StorageHrHwState::new(now);
        tracker.update(&n.r_speed, &n.w_speed, now);
        store(trackers, n.raw_dev_name.as_str(), tracker);
    }
}

fn track_disks(trackers: &mut Vec<Entry<StorageHrHwState>>, nodes: &Vec<DiskNodeRaw>, now: u64)
    ensures
        rows_of(final(trackers)@) == disks_after(rows_of(old(trackers)@), views(nodes@), now),
{
    let ghost start = rows_of(trackers@);
    let ghost all = views(nodes@);
    let mut i: usize = 0;
    proof {
        assert(all.take(0) =~= Seq::empty());
    }
    while i < nodes.len()
        invariant
            i <= nodes.len(),
            all == views(nodes@),
            rows_of(trackers@) == disks_after(start, all.take(i as int), now),
        decreases nodes.len() - i,
    {
        proof {
            assert(all.take(i + 1).drop_last() =~= all.take(i as int));
            assert(all.take(i + 1).last() == nodes@[i as int]@);
        }
        track_disk(trackers, &nodes[i], now);
        i = i + 1;
    }
    proof {
        assert(all.take(all.len() as int) =~= all);
    }
}

fn total_speeds(nodes: &Vec<DiskNodeRaw>) -> (r: (Real, Real))
    ensures
        (r.0@, r.1@) == disk_totals(views(nodes@)),
{
    let ghost all = views(nodes@);
    let mut read: Real = Real::from_u64(0);
    let mut write: Real = Real::from_u64(0);
    let mut i: usize = 0;
    proof {
        assert(all.take(0) =~= Seq::empty());
    }
    while i < nodes.len()
        invariant
            i <= nodes.len(),
            all == views(nodes@),
            (read@, write@) == disk_totals(all.take(i as int)),
        decreases nodes.len() - i,
    {
        proof {
            assert(all.take(i + 1).drop_last() =~= all.take(i as int));
            assert(all.take(i + 1).last() == nodes@[i as int]@);
        }
        read = read.plus(nodes[i].r_speed);
        write = write.plus(nodes[i].w_speed);
        i = i + 1;
    }
    proof {
        assert(all.take(all.len() as int) =~= all);
    }
    (read, write)
}

pub(crate) proof fn lemma_heat_distinct(trackers: Seq<(Seq<char>, Peaks)>, chip: Seq<char>, stats: Seq<Temperature>, now: u64)
    requires
        distinct(trackers),
    ensures
        distinct(heat_after(trackers, chip, stats, now)),
    decreases stats.len(),
{
    if stats.len() > 0 {
        lemma_heat_distinct(trackers, chip, stats.drop_last(), now);
        let before = heat_after(trackers, chip, stats.drop_last(), now);
        let value = peaks_in(before, chip).with_max(stats.last().val, stats.last().color, now);
        law_stored(before, chip, value, chip);
    }
}

pub(crate) proof fn lemma_heats_distinct(trackers: Seq<(Seq<char>, Peaks)>, zones: Zones, now: u64)
    requires
        distinct(trackers),
    ensures
        distinct(heats_after(trackers, zones, now)),
    decreases zones.len(),
{
    if zones.len() > 0 {
        lemma_heats_distinct(trackers, zones.drop_last(), now);
        lemma_heat_distinct(
            heats_after(trackers, zones.drop_last(), now),
            zones.last().0,
            zones.last().1,
            now,
        );
    }
}

pub(crate) proof fn lemma_nets_tracked(trackers: Seq<(Seq<char>, (Peaks, Peaks))>, nodes: Seq<Traffic>, now: u64)
    requires
        distinct(trackers),
    ensures
        distinct(net_after(trackers, nodes, now)),
        forall|i: int|
            0 <= i < nodes.len() ==> listed(net_after(trackers, nodes, now), (#[trigger] nodes[i]).iface),
    decreases nodes.len(),
{
    if nodes.len() > 0 {
        let front = nodes.drop_last();
        lemma_nets_tracked(trackers, front, now);
        let before = net_after(trackers, front, now);
        let n = nodes.last();
        let value = pair_after(pair_in(before, n.iface), n.rx, n.tx, n.max, now);
        assert forall|i: int| 0 <= i < nodes.len() implies listed(
            net_after(trackers, nodes, now),
            (#[trigger] nodes[i]).iface,
        ) by {
            law_stored(before, n.iface, value, nodes[i].iface);
            if i < front.len() {
                assert(front[i] == nodes[i]);
            }
        }
        law_stored(before, n.iface, value, n.iface);
    }
}

pub(crate) proof fn lemma_disks_tracked(trackers: Seq<(Seq<char>, Watermarks)>, nodes: Seq<DiskNode>, now: u64)
    requires
        distinct(trackers),
    ensures
        distinct(disks_after(trackers, nodes, now)),
        forall|i: int|
            0 <= i < nodes.len() ==> listed(disks_after(trackers, nodes, now), (#[trigger] nodes[i]).raw_dev_name),
    decreases nodes.len(),
{
    if nodes.len() > 0 {
        let front = nodes.drop_last();
        lemma_disks_tracked(trackers, front, now);
        let before = disks_after(trackers, front, now);
        let n = nodes.last();
        let value = marks_in(before, n.raw_dev_name, now).after(n.r_speed, n.w_speed, now);
        assert forall|i: int| 0 <= i < nodes.len() implies listed(
            disks_after(trackers, nodes, now),
            (#[trigger] nodes[i]).raw_dev_name,
        ) by {
            law_stored(before, n.raw_dev_name, value, nodes[i].raw_dev_name);
            if i < front.len() {
                assert(front[i] == nodes[i]);
            }
        }
        law_stored(before, n.raw_dev_name, value, n.raw_dev_name);
    }
}

/// Whatever the monitor is told, no name is tracked twice, and what is shown of
/// interfaces and devices is tracked.
pub proof fn law_messages_keep_consistency(s: Status, msg: Msg, now: u64)
    requires
        s.consistent(),
    ensures
        s.after(msg, now).consistent(),
{
    match msg {
        Msg::CpuTemps(t) => {
            lemma_heats_distinct(s.parent_ht_trackers, rows_of(t@), now);
        },
        Msg::NetStats(n) => {
            lemma_nets_tracked(s.net_trackers, views(n@), now);
        },
        Msg::NetEvent(e) => {
            law_stored(s.net_events, e.iface@, Note { change: e.change, time: now }, e.iface@);
        },
        Msg::DiskStats(d) => {
            lemma_disks_tracked(s.disk_trackers, views(d.disk_nodes@), now);
        },
        _ => {},
    }
}

proof fn lemma_told(notes: Seq<(Seq<char>, Note)>, now: u64)
    requires
        distinct(notes),
    ensures
        distinct(told_notes(notes, now)),
        forall|i: int|
            0 <= i < told_notes(notes, now).len() ==> notes.contains(#[trigger] told_notes(notes, now)[i]) && told(
                told_notes(notes, now)[i].1.time,
                now,
            ),
    decreases notes.len(),
{
    if notes.len() > 0 {
        let front = notes.drop_last();
        let last = notes.last();
        lemma_told(front, now);
        let f = told_notes(front, now);
        let r = told_notes(notes, now);
        assert forall|i: int| 0 <= i < f.len() implies notes.contains(#[trigger] f[i]) && f[i].0 != last.0 by {
            let k = choose|k: int| 0 <= k < front.len() && front[k] == f[i];
            assert(notes[k] == f[i]);
            assert(notes[k].0 != notes[notes.len() - 1].0);
        }
        assert(notes[notes.len() - 1] == last);
        assert forall|i: int| 0 <= i < r.len() implies notes.contains(#[trigger] r[i]) && told(
            r[i].1.time,
            now,
        ) by {
            if i < f.len() {
                assert(r[i] == f[i]);
            }
        }
        assert forall|i: int, j: int| 0 <= i < j < r.len() implies (#[trigger] r[i]).0 != (#[trigger] r[j]).0 by {
            assert(r[i] == f[i]);
            if j < f.len() {
                assert(r[j] == f[j]);
            }
        }
    }
}

/// What is forgotten before the screen is drawn is not needed to draw it.
pub proof fn law_tidying_keeps_consistency(s: Status, now: u64)
    requires
        s.consistent(),
    ensures
        s.tidied(now).consistent(),
{
    lemma_told(s.net_events, now);
    let names = device_names(s.disk_nodes);
    law_only(s.disk_trackers, names, Seq::empty());
    assert forall|i: int| 0 <= i < s.disk_nodes.len() implies listed(
        s.tidied(now).disk_trackers,
        (#[trigger] s.disk_nodes[i]).raw_dev_name,
    ) by {
        assert(names[i] == s.disk_nodes[i].raw_dev_name);
        law_only(s.disk_trackers, names, s.disk_nodes[i].raw_dev_name);
    }
}

impl SystemState {
    fn take_freqs(&mut self, freqs: Vec<Real>, now: u64)
        ensures
            final(self)@ == old(self)@.after_freqs(views(freqs@), now),
    {
        let ghost start = self@;
        let ghost all = views(freqs@);
        let limit: Option<Real> = self.limits.1;
        let mut hoc: Option<Real> = self.highest_overclock;
        let mut peak: Option<u64> = self.hoc_last_peak;
        let mut i: usize = 0;
        proof {
            assert(all.take(0) =~= Seq::empty());
        }
        while i < freqs.len()
            invariant
                i <= freqs.len(),
                all == views(freqs@),
                read_number(limit) == start.limits.1,
                (read_number(hoc), peak) == overclock_after(
                    start.limits.1,
                    (start.highest_overclock, start.hoc_last_peak),
                    all.take(i as int),
                    now,
                ),
            decreases freqs.len() - i,
        {
            let freq: Real = freqs[i];
            proof {
                assert(all.take(i + 1).drop_last() =~= all.take(i as int));
                assert(all.take(i + 1).last() == freq@);
            }
            let over: bool = match limit {
                Some(max) => max.less_than(&freq),
                None => false,
            };
            let higher: bool = match hoc {
                Some(known) => known.less_than(&freq),
                None => true,
            };
            if over && higher {
                hoc = Some(freq);
                peak = Some(now);
            }
            i = i + 1;
        }
        proof {
            assert(all.take(all.len() as int) =~= all);
        }
        self.highest_overclock = hoc;
        self.hoc_last_peak = peak;
        self.freqs = freqs;
        self.screen_is_dirty = true;
    }

    fn take_room(&mut self, temp: Option<Real>, now: u64)
        ensures
            final(self)@ == old(self)@.after_room(read_number(temp), now),
    {
        self.room_temp_val = temp;
        match temp {
            Some(val) => {
                let color = get_room_temp_color(&val);
                let _ = self.room_temp_tracker.update_max(&val, color.as_str(), now);
                let _ = self.room_temp_tracker.update_min(&val, color.as_str(), now);
                if Real::from_u64(HOT).is_at_most(&val) {
                    self.last_room_hot_time = Some(now);
                }
            },
            None => {},
        }
        self.screen_is_dirty = true;
    }

    fn take_network(&mut self, nodes: Vec<NetNode>, now: u64)
        ensures
            final(self)@ == old(self)@.after_network(views(nodes@), now),
    {
        let (rx, tx, max) = total_traffic(&nodes);
        self.net_total_rx = rx;
        self.net_total_tx = tx;
        self.net_total_max = max;
        track_nets(&mut self.net_trackers, &nodes, now);
        track_pair(&mut self.net_total_tracker, &rx, &tx, &max.max(Real::from_u64(1)), now);
        self.raw_net_nodes = nodes;
        self.screen_is_dirty = true;
    }

    fn take_disks(&mut self, stats: DiskStats, now: u64)
        ensures
            final(self)@ == old(self)@.after_disks(
                views(stats.disk_nodes@),
                stats.agg_total,
                stats.agg_used,
                now,
            ),
    {
        let DiskStats { disk_nodes, agg_total, agg_used } = stats;
        let (read, write) = total_speeds(&disk_nodes);
        track_disks(&mut self.disk_trackers, &disk_nodes, now);
        self.disk_global_hw.update(&read, &write, now);
        self.disk_nodes = disk_nodes;
        self.disk_agg_total = agg_total;
        self.disk_agg_used = agg_used;
        self.disk_agg_read = read;
        self.disk_agg_write = write;
        self.screen_is_dirty = true;
    }

    /// Takes a message in, and says whether the monitor goes on.
    pub fn handle(&mut self, msg: Msg, now: u64) -> (r: Flow)
        requires
            old(self)@.consistent(),
        ensures
            final(self)@ == old(self)@.after(msg, now),
            final(self)@.consistent(),
            r == if msg matches Msg::InputEvent(Input::Key { code, control }) && quits(code, control) {
                Flow::Quit
            } else {
                Flow::Continue
            },
    {
        proof {
            law_messages_keep_consistency(self@, msg, now);
        }
        match msg {
            Msg::InputEvent(input) => {
                match input {
                    Input::Key { code, control } => {
                        if code == 'q' || code == 'Q' || (code == 'c' && control) {
                            return Flow::Quit;
                        }
                    },
                    Input::Resize(width, height) => {
                        self.width = width;
                        self.height = height;
                        self.screen_is_dirty = true;
                    },
                    Input::Other => {},
                }
            },
            Msg::Tick => {
                if self.is_any_blink_active(now) {
                    self.screen_is_dirty = true;
                }
            },
            Msg::CpuFreqs(freqs) => {
                self.take_freqs(freqs, now);
            },
            Msg::CpuTemps(zones) => {
                track_zones(&mut self.parent_ht_trackers, &zones, now);
                self.cpu_temps = zones;
                self.screen_is_dirty = true;
            },
            Msg::RoomTemp(temp) => {
                self.take_room(temp, now);
            },
            Msg::MemStats(m) => {
                let MemStats { ram_str, zswap_str, swap_total_str, swaps_formatted } = m;
                self.mem_ram_str = ram_str;
                self.mem_zswap_str = zswap_str;
                self.mem_swap_total_str = swap_total_str;
                self.swaps_formatted = swaps_formatted;
                self.screen_is_dirty = true;
            },
            Msg::NetStats(nodes) => {
                self.take_network(nodes, now);
            },
            Msg::NetEvent(event) => {
                store(&mut self.net_events, event.iface.as_str(), Note { change: event.change, time: now });
                self.screen_is_dirty = true;
            },
            Msg::DiskStats(stats) => {
                self.take_disks(stats, now);
            },
            Msg::UserIdle(time) => {
                self.idle_time = time;
                self.screen_is_dirty = true;
            },
        }
        Flow::Continue
    }

    fn forget_notes(&mut self, now: u64)
        ensures
            final(self)@ == (Status { net_events: told_notes(old(self)@.net_events, now), ..old(self)@ }),
    {
        let ghost all = rows_of(self.net_events@);
        let mut rest: Vec<Entry<Note>> = Vec::new();
        std::mem::swap(&mut rest, &mut self.net_events);
        let mut kept: Vec<Entry<Note>> = Vec::new();
        let ghost mut done: int = 0;
        proof {
            assert(all.skip(0) =~= all);
            assert(all.take(0) =~= Seq::empty());
            assert(rows_of(kept@) =~= Seq::empty());
        }
        while rest.len() > 0
            invariant
                0 <= done <= all.len(),
                rows_of(rest@) == all.skip(done),
                rows_of(kept@) == told_notes(all.take(done), now),
            decreases rest.len(),
        {
            let ghost before = rest@;
            let entry = rest.remove(0);
            proof {
                assert(rows_of(before).len() == before.len());
                assert(rows_of(before)[0] == entry@);
                assert forall|i: int| 0 <= i < rest.len() implies rows_of(rest@)[i] == all.skip(done + 1)[i] by {
                    assert(rows_of(before)[i + 1] == before[i + 1]@);
                }
                assert(rows_of(rest@) =~= all.skip(done + 1));
                assert(all.take(done + 1).drop_last() =~= all.take(done));
                assert(all.take(done + 1).last() == entry@);
                assert(rows_of(kept@.push(entry)) =~= rows_of(kept@).push(entry@));
                done = done + 1;
            }
            if time_since(entry.value.time, now) / SECOND < NOTE_SECONDS {
                kept.push(entry);
            }
        }
        proof {
            assert(rows_of(rest@).len() == 0);
            assert(all.take(done) =~= all);
        }
        self.net_events = kept;
    }

    fn forget_disks(&mut self)
        ensures
            final(self)@ == (Status {
                disk_trackers: only(old(self)@.disk_trackers, device_names(old(self)@.disk_nodes)),
                ..old(self)@
            }),
    {
        let ghost start = self@;
        let mut names: Vec<String> = Vec::new();
        let mut i: usize = 0;
        while i < self.disk_nodes.len()
            invariant
                i <= self.disk_nodes.len(),
                start == self@,
                names.len() == i,
                forall|j: int| 0 <= j < i ==> (#[trigger] names@[j])@ == start.disk_nodes[j].raw_dev_name,
            decreases self.disk_nodes.len() - i,
        {
            names.push(self.disk_nodes[i].raw_dev_name.clone());
            i = i + 1;
        }
        proof {
            assert(texts(names@) =~= device_names(start.disk_nodes));
        }
        let mut trackers: Vec<Entry<StorageHrHwState>> = Vec::new();
        std::mem::swap(&mut trackers, &mut self.disk_trackers);
        let (kept, _) = keep_only(trackers, &names);
        self.disk_trackers = kept;
    }

    /// Forgets what is not needed any more before the screen is drawn.
    pub(crate) fn tidy(&mut self, now: u64)
        requires
            old(self)@.consistent(),
        ensures
            final(self)@ == old(self)@.tidied(now),
            final(self)@.consistent(),
    {
        proof {
            law_tidying_keeps_consistency(self@, now);
        }
        self.forget_notes(now);
        self.forget_disks();
    }
}

// ---------------------------------------------------------------------------
// Laws
// ---------------------------------------------------------------------------

/// A value that was recorded: it is above the lowest number there is.
pub open spec fn recorded(x: Number) -> bool {
    below(lowest(), x)
}

/// The highest overclock is above the limit of the hardware, or it was known before;
/// without a limit there is none. No frequency above the limit is above it.
pub proof fn law_overclock_is_highest(
    limit: Option<Number>,
    known: (Option<Number>, Option<u64>),
    freqs: Seq<Number>,
    now: u64,
)
    requires
        limit matches Some(l) ==> l !is Nan,
        known.0 matches Some(h) ==> h !is Nan,
        forall|i: int| 0 <= i < freqs.len() ==> (#[trigger] freqs[i]) !is Nan,
    ensures
        overclock_after(limit, known, freqs, now).0 matches Some(h) ==> h !is Nan && (known.0 == Some(h) || (limit
            is Some && below(limit->0, h) && freqs.contains(h))),
        limit is None ==> overclock_after(limit, known, freqs, now) == known,
        known.0 is Some ==> overclock_after(limit, known, freqs, now).0 is Some && at_most(
            known.0->0,
            overclock_after(limit, known, freqs, now).0->0,
        ),
        forall|i: int|
            0 <= i < freqs.len() && limit is Some && below(limit->0, #[trigger] freqs[i]) ==> overclock_after(
                limit,
                known,
                freqs,
                now,
            ).0 is Some && at_most(freqs[i], overclock_after(limit, known, freqs, now).0->0),
    decreases freqs.len(),
{
    if known.0 is Some {
        law_numbers_are_ordered(known.0->0, known.0->0, known.0->0);
    }
    if freqs.len() > 0 {
        let front = freqs.drop_last();
        let last = freqs.last();
        assert forall|i: int| 0 <= i < front.len() implies (#[trigger] front[i]) !is Nan by {
            assert(front[i] == freqs[i]);
        }
        assert(freqs[freqs.len() - 1] == last);
        law_overclock_is_highest(limit, known, front, now);
        let before = overclock_after(limit, known, front, now);
        let after = overclock_after(limit, known, freqs, now);
        law_numbers_are_ordered(last, last, last);
        if before.0 is Some {
            let h = before.0->0;
            law_numbers_are_ordered(h, last, last);
            law_numbers_are_ordered(last, h, h);
            if known.0 is Some {
                law_numbers_are_ordered(known.0->0, h, last);
            }
            if front.contains(h) {
                let k = choose|k: int| 0 <= k < front.len() && front[k] == h;
                assert(freqs[k] == h);
            }
        }
        assert forall|i: int|
            0 <= i < freqs.len() && limit is Some && below(limit->0, #[trigger] freqs[i]) implies after.0 is Some
            && at_most(freqs[i], after.0->0) by {
            if i < front.len() {
                assert(front[i] == freqs[i]);
                law_numbers_are_ordered(freqs[i], before.0->0, last);
            }
        }
    }
}

proof fn lemma_recorded(p: Peaks, val: Number, color: Seq<char>, now: u64)
    requires
        recorded(p.max_val),
        val !is Nan,
    ensures
        recorded(p.with_max(val, color, now).max_val),
        at_most(p.max_val, p.with_max(val, color, now).max_val),
{
    law_numbers_are_ordered(lowest(), p.max_val, val);
    law_numbers_are_ordered(p.max_val, p.max_val, p.max_val);
    law_max_is_highest(p, val, color, now);
    law_numbers_are_ordered(lowest(), p.max_val, p.with_max(val, color, now).max_val);
}

/// The highest speeds of an interface never fall, whatever speeds are seen.
pub proof fn law_highest_speeds_never_fall(
    trackers: Seq<(Seq<char>, (Peaks, Peaks))>,
    nodes: Seq<Traffic>,
    now: u64,
    name: Seq<char>,
)
    requires
        distinct(trackers),
        value_of(trackers, name) matches Some(p) && recorded(p.0.max_val) && recorded(p.1.max_val),
        forall|i: int| 0 <= i < nodes.len() ==> (#[trigger] nodes[i]).rx !is Nan && nodes[i].tx !is Nan,
    ensures
        value_of(net_after(trackers, nodes, now), name) matches Some(q) && recorded(q.0.max_val) && recorded(
            q.1.max_val,
        ) && at_most((value_of(trackers, name)->0).0.max_val, q.0.max_val) && at_most(
            (value_of(trackers, name)->0).1.max_val,
            q.1.max_val,
        ),
    decreases nodes.len(),
{
    let p = value_of(trackers, name)->0;
    law_numbers_are_ordered(p.0.max_val, p.0.max_val, p.0.max_val);
    law_numbers_are_ordered(p.1.max_val, p.1.max_val, p.1.max_val);
    if nodes.len() > 0 {
        let front = nodes.drop_last();
        assert forall|i: int| 0 <= i < front.len() implies (#[trigger] front[i]).rx !is Nan && front[i].tx
            !is Nan by {
            assert(front[i] == nodes[i]);
        }
        let n = nodes.last();
        assert(nodes[nodes.len() - 1] == n);
        law_highest_speeds_never_fall(trackers, front, now, name);
        lemma_nets_tracked(trackers, front, now);
        let before = net_after(trackers, front, now);
        let q = value_of(before, name)->0;
        let value = pair_after(pair_in(before, n.iface), n.rx, n.tx, n.max, now);
        law_stored(before, n.iface, value, name);
        if n.iface == name {
            lemma_recorded(q.0, n.rx, net_color(n.rx, n.max), now);
            lemma_recorded(q.1, n.tx, net_color(n.tx, n.max), now);
            law_numbers_are_ordered(p.0.max_val, q.0.max_val, value.0.max_val);
            law_numbers_are_ordered(p.1.max_val, q.1.max_val, value.1.max_val);
        }
    }
}

/// The highest temperature of a chip never falls, whatever temperatures are seen.
pub proof fn law_highest_heat_never_falls(
    trackers: Seq<(Seq<char>, Peaks)>,
    zones: Zones,
    now: u64,
    name: Seq<char>,
)
    requires
        distinct(trackers),
        value_of(trackers, name) matches Some(p) && recorded(p.max_val),
        forall|z: int, i: int|
            0 <= z < zones.len() && 0 <= i < zones[z].1.len() ==> (#[trigger] zones[z].1[i]).val !is Nan,
    ensures
        value_of(heats_after(trackers, zones, now), name) matches Some(q) && recorded(q.max_val) && at_most(
            value_of(trackers, name)->0.max_val,
            q.max_val,
        ),
    decreases zones.len(),
{
    let p = value_of(trackers, name)->0;
    law_numbers_are_ordered(p.max_val, p.max_val, p.max_val);
    if zones.len() > 0 {
        let front = zones.drop_last();
        assert forall|z: int, i: int| 0 <= z < front.len() && 0 <= i < front[z].1.len() implies (
        #[trigger] front[z].1[i]).val !is Nan by {
            assert(front[z] == zones[z]);
            assert(zones[z].1[i].val !is Nan);
        }
        law_highest_heat_never_falls(trackers, front, now, name);
        lemma_heats_distinct(trackers, front, now);
        let before = heats_after(trackers, front, now);
        assert forall|i: int| 0 <= i < zones.last().1.len() implies (#[trigger] zones.last().1[i]).val !is Nan by {
            assert(zones[zones.len() - 1].1[i].val !is Nan);
        }
        lemma_zone_never_falls(before, zones.last().0, zones.last().1, now, name);
        let q = value_of(before, name)->0;
        let r = value_of(heats_after(trackers, zones, now), name)->0;
        law_numbers_are_ordered(p.max_val, q.max_val, r.max_val);
    }
}

proof fn lemma_zone_never_falls(
    trackers: Seq<(Seq<char>, Peaks)>,
    chip: Seq<char>,
    stats: Seq<Temperature>,
    now: u64,
    name: Seq<char>,
)
    requires
        distinct(trackers),
        value_of(trackers, name) matches Some(p) && recorded(p.max_val),
        forall|i: int| 0 <= i < stats.len() ==> (#[trigger] stats[i]).val !is Nan,
    ensures
        value_of(heat_after(trackers, chip, stats, now), name) matches Some(q) && recorded(q.max_val) && at_most(
            value_of(trackers, name)->0.max_val,
            q.max_val,
        ),
    decreases stats.len(),
{
    let p = value_of(trackers, name)->0;
    law_numbers_are_ordered(p.max_val, p.max_val, p.max_val);
    if stats.len() > 0 {
        let front = stats.drop_last();
        assert forall|i: int| 0 <= i < front.len() implies (#[trigger] front[i]).val !is Nan by {
            assert(front[i] == stats[i]);
        }
        let t = stats.last();
        assert(stats[stats.len() - 1] == t);
        lemma_zone_never_falls(trackers, chip, front, now, name);
        lemma_heat_distinct(trackers, chip, front, now);
        let before = heat_after(trackers, chip, front, now);
        let q = value_of(before, name)->0;
        if t.is_parent {
            let value = peaks_in(before, chip).with_max(t.val, t.color, now);
            law_stored(before, chip, value, name);
            if chip == name {
                lemma_recorded(q, t.val, t.color, now);
                law_numbers_are_ordered(p.max_val, q.max_val, value.max_val);
            }
        }
    }
}

/// The peaks of a device never fall, whatever speeds are seen.
pub proof fn law_disk_peaks_never_fall(
    trackers: Seq<(Seq<char>, Watermarks)>,
    nodes: Seq<DiskNode>,
    now: u64,
    name: Seq<char>,
)
    requires
        distinct(trackers),
        value_of(trackers, name) matches Some(w) && w.read.settled() && w.write.settled(),
        forall|i: int|
            0 <= i < nodes.len() ==> (#[trigger] nodes[i]).r_speed !is Nan && nodes[i].w_speed !is Nan,
    ensures
        value_of(disks_after(trackers, nodes, now), name) matches Some(q) && q.read.settled() && q.write.settled()
            && at_most(value_of(trackers, name)->0.read.current, q.read.current) && at_most(
            value_of(trackers, name)->0.write.current,
            q.write.current,
        ),
    decreases nodes.len(),
{
    let p = value_of(trackers, name)->0;
    law_numbers_are_ordered(p.read.current, p.read.current, p.read.current);
    law_numbers_are_ordered(p.write.current, p.write.current, p.write.current);
    if nodes.len() > 0 {
        let front = nodes.drop_last();
        assert forall|i: int| 0 <= i < front.len() implies (#[trigger] front[i]).r_speed !is Nan
            && front[i].w_speed !is Nan by {
            assert(front[i] == nodes[i]);
        }
        let n = nodes.last();
        assert(nodes[nodes.len() - 1] == n);
        law_disk_peaks_never_fall(trackers, front, now, name);
        lemma_disks_tracked(trackers, front, now);
        let before = disks_after(trackers, front, now);
        let q = value_of(before, name)->0;
        let value = marks_in(before, n.raw_dev_name, now).after(n.r_speed, n.w_speed, now);
        law_stored(before, n.raw_dev_name, value, name);
        if n.raw_dev_name == name {
            law_storage_peak_never_falls(q.read, n.r_speed, now);
            law_storage_peak_never_falls(q.write, n.w_speed, now);
            law_numbers_are_ordered(p.read.current, q.read.current, value.read.current);
            law_numbers_are_ordered(p.write.current, q.write.current, value.write.current);
        }
    }
}

/// A message changes nothing but what it tells of: the frequencies, temperatures,
/// memory, network, volumes and idle time are each those of the last message on
/// them.
pub proof fn law_messages_are_separate(s: Status, msg: Msg, now: u64)
    ensures
        msg !is CpuFreqs ==> s.after(msg, now).freqs == s.freqs && s.after(msg, now).highest_overclock
            == s.highest_overclock,
        msg !is CpuTemps ==> s.after(msg, now).cpu_temps == s.cpu_temps && s.after(msg, now).parent_ht_trackers
            == s.parent_ht_trackers,
        msg !is RoomTemp ==> s.after(msg, now).room_temp_val == s.room_temp_val && s.after(
            msg,
            now,
        ).room_temp_tracker == s.room_temp_tracker,
        msg !is MemStats ==> s.after(msg, now).mem_ram_str == s.mem_ram_str && s.after(msg, now).swaps_formatted
            == s.swaps_formatted,
        msg !is NetStats ==> s.after(msg, now).raw_net_nodes == s.raw_net_nodes && s.after(msg, now).net_trackers
            == s.net_trackers,
        msg !is NetEvent ==> s.after(msg, now).net_events == s.net_events,
        msg !is DiskStats ==> s.after(msg, now).disk_nodes == s.disk_nodes && s.after(msg, now).disk_trackers
            == s.disk_trackers,
        msg !is UserIdle ==> s.after(msg, now).idle_time == s.idle_time,
        s.screen_is_dirty ==> s.after(msg, now).screen_is_dirty,
{
}

/// The lowest temperature of the room is never above the highest, and the last
/// reading is between them.
pub proof fn law_room_extremes(s: Status, temp: Number, now: u64)
    requires
        temp !is Nan,
        s.room_temp_tracker == Peaks::none() || (recorded(s.room_temp_tracker.max_val) && below(
            s.room_temp_tracker.min_val,
            highest(),
        ) && at_most(s.room_temp_tracker.min_val, s.room_temp_tracker.max_val)),
    ensures
        at_most(s.after_room(Some(temp), now).room_temp_tracker.min_val, temp),
        at_most(temp, s.after_room(Some(temp), now).room_temp_tracker.max_val),
        at_most(
            s.after_room(Some(temp), now).room_temp_tracker.min_val,
            s.after_room(Some(temp), now).room_temp_tracker.max_val,
        ),
{
    let p = s.room_temp_tracker;
    let color = room_temp_color(temp);
    law_numbers_are_ordered(temp, temp, temp);
    law_max_is_highest(p, temp, color, now);
    law_min_is_lowest(p.with_max(temp, color, now), temp, color, now);
    let q = s.after_room(Some(temp), now).room_temp_tracker;
    law_numbers_are_ordered(q.min_val, temp, q.max_val);
}

/// What is known after messages, each at its time.
pub open spec fn after_all(s: Status, msgs: Seq<(Msg, u64)>) -> Status
    decreases msgs.len(),
{
    if msgs.len() == 0 {
        s
    } else {
        after_all(s, msgs.drop_last()).after(msgs.last().0, msgs.last().1)
    }
}

/// That the room was hot is never forgotten: whatever is told or drawn, the last time
/// that is known of it is not before the one that was known.
pub proof fn law_heat_is_remembered(s: Status, msg: Msg, now: u64)
    requires
        s.last_room_hot_time matches Some(t) && t <= now,
    ensures
        s.after(msg, now).last_room_hot_time matches Some(t) && s.last_room_hot_time->0 <= t <= now,
        s.tidied(now).last_room_hot_time == s.last_room_hot_time,
{
}

/// That the room was hot is never forgotten, however many messages come.
pub proof fn law_heat_outlasts_messages(s: Status, msgs: Seq<(Msg, u64)>, now: u64)
    requires
        s.last_room_hot_time matches Some(t) && t <= now,
        forall|i: int|
            0 <= i < msgs.len() ==> s.last_room_hot_time->0 <= (#[trigger] msgs[i]).1 <= now,
    ensures
        after_all(s, msgs).last_room_hot_time matches Some(t) && s.last_room_hot_time->0 <= t <= now,
    decreases msgs.len(),
{
    if msgs.len() > 0 {
        let front = msgs.drop_last();
        assert forall|i: int| 0 <= i < front.len() implies s.last_room_hot_time->0 <= (#[trigger] front[i]).1
            <= now by {
            assert(front[i] == msgs[i]);
        }
        law_heat_outlasts_messages(s, front, now);
        assert(msgs[msgs.len() - 1] == msgs.last());
    }
}

} // verus!
