//! Peaks: the highest and lowest values seen, how they are shown, and how they
//! strobe while they are fresh. Times are nanoseconds of a clock that never
//! goes back.

use crate::binary64::{at_most, below, highest, integer, law_numbers_are_ordered, lowest, same, Number, Real};
use crate::color::{BOLD, RESET, WHITE_BOLD};
use crate::layout::{is_closed, law_width_of_joined, law_width_of_plain, width_of, Place, ESCAPE};
use vstd::prelude::*;

verus! {

pub const SECOND: u64 = 1_000_000_000;

/// How long a fresh peak strobes.
pub const STROBE: u64 = 3_000_000_000;

/// How long a storage speed must stand before it counts as a peak.
pub const SETTLE: u64 = 1_500_000_000;

/// The time from `t` to `now`; none where `t` is still to come.
pub open spec fn elapsed(t: u64, now: u64) -> int {
    if now >= t {
        now - t
    } else {
        0
    }
}

/// The time from `t` to `now`.
pub fn time_since(t: u64, now: u64) -> (r: u64)
    ensures
        r == elapsed(t, now),
{
    if now >= t {
        now - t
    } else {
        0
    }
}

// ---------------------------------------------------------------------------
// Strobing
// ---------------------------------------------------------------------------

/// The strobe is in its bright half: it changes every 250 milliseconds.
pub open spec fn bright(epoch_millis: nat) -> bool {
    (epoch_millis / 250) % 2 == 0
}

/// A peak of this time is fresh.
pub open spec fn fresh(last_peak: Option<u64>, now: u64) -> bool {
    match last_peak {
        Some(t) => elapsed(t, now) < STROBE,
        None => false,
    }
}

/// The strobe is in its bright half.
pub fn get_blink_toggle(epoch_millis: u128) -> (r: bool)
    ensures
        r == bright(epoch_millis as nat),
{
    (epoch_millis / 250) % 2 == 0
}

/// A peak of this time is fresh.
pub fn is_blink_active(last_peak: Option<u64>, now: u64) -> (r: bool)
    ensures
        r == fresh(last_peak, now),
{
    match last_peak {
        Some(t) => time_since(t, now) < STROBE,
        None => false,
    }
}

// ---------------------------------------------------------------------------
// Highest and lowest values
// ---------------------------------------------------------------------------

/// What a tracker of values remembers.
#[verifier::ext_equal]
pub struct Peaks {
    pub max_val: Number,
    pub min_val: Number,
    pub max_color: Seq<char>,
    pub min_color: Seq<char>,
    pub last_max_peak: Option<u64>,
    pub last_min_peak: Option<u64>,
}

impl Peaks {
    /// Nothing seen yet.
    pub open spec fn none() -> Peaks {
        Peaks {
            max_val: lowest(),
            min_val: highest(),
            max_color: WHITE_BOLD@,
            min_color: WHITE_BOLD@,
            last_max_peak: None,
            last_min_peak: None,
        }
    }

    /// The value is a new highest one: there was one, and it is above that.
    pub open spec fn is_new_max(self, val: Number) -> bool {
        below(self.max_val, val) && !same(self.max_val, lowest())
    }

    /// The value is a new lowest one: there was one, and it is below that.
    pub open spec fn is_new_min(self, val: Number) -> bool {
        below(val, self.min_val) && !same(self.min_val, highest())
    }

    /// After a value: the first one is kept in silence, a new highest one with its
    /// time.
    pub open spec fn with_max(self, val: Number, color: Seq<char>, now: u64) -> Peaks {
        if self.is_new_max(val) {
            Peaks { max_val: val, max_color: color, last_max_peak: Some(now), ..self }
        } else if same(self.max_val, lowest()) {
            Peaks { max_val: val, max_color: color, ..self }
        } else {
            self
        }
    }

    /// After a value: the first one is kept in silence, a new lowest one with its
    /// time.
    pub open spec fn with_min(self, val: Number, color: Seq<char>, now: u64) -> Peaks {
        if self.is_new_min(val) {
            Peaks { min_val: val, min_color: color, last_min_peak: Some(now), ..self }
        } else if same(self.min_val, highest()) {
            Peaks { min_val: val, min_color: color, ..self }
        } else {
            self
        }
    }
}

/// The highest and the lowest value seen, with their colours and times.
pub struct ValuePeakTracker {
    pub max_val: Real,
    pub min_val: Real,
    pub max_color: String,
    pub min_color: String,
    pub last_max_peak: Option<u64>,
    pub last_min_peak: Option<u64>,
}

impl View for ValuePeakTracker {
    type V = Peaks;

    open spec fn view(&self) -> Peaks {
        Peaks {
            max_val: self.max_val@,
            min_val: self.min_val@,
            max_color: self.max_color@,
            min_color: self.min_color@,
            last_max_peak: self.last_max_peak,
            last_min_peak: self.last_min_peak,
        }
    }
}

impl ValuePeakTracker {
    /// A tracker that has seen nothing.
    pub fn new() -> (r: ValuePeakTracker)
        ensures
            r@ == Peaks::none(),
    {
        ValuePeakTracker {
            max_val: Real::lowest(),
            min_val: Real::highest(),
            max_color: WHITE_BOLD.to_owned(),
            min_color: WHITE_BOLD.to_owned(),
            last_max_peak: None,
            last_min_peak: None,
        }
    }

    /// Takes a value in for the highest one; true where it is a new one.
    pub fn update_max(&mut self, val: &Real, color: &str, now: u64) -> (r: bool)
        ensures
            r == old(self)@.is_new_max(val@),
            final(self)@ == old(self)@.with_max(val@, color@, now),
    {
        let unset: bool = self.max_val.equals(&Real::lowest());
        if self.max_val.less_than(val) && !unset {
            self.max_val = *val;
            self.max_color = color.to_owned();
            self.last_max_peak = Some(now);
            true
        } else if unset {
            self.max_val = *val;
            self.max_color = color.to_owned();
            false
        } else {
            false
        }
    }

    /// Takes a value in for the lowest one; true where it is a new one.
    pub fn update_min(&mut self, val: &Real, color: &str, now: u64) -> (r: bool)
        ensures
            r == old(self)@.is_new_min(val@),
            final(self)@ == old(self)@.with_min(val@, color@, now),
    {
        let unset: bool = self.min_val.equals(&Real::highest());
        if val.less_than(&self.min_val) && !unset {
            self.min_val = *val;
            self.min_color = color.to_owned();
            self.last_min_peak = Some(now);
            true
        } else if unset {
            self.min_val = *val;
            self.min_color = color.to_owned();
            false
        } else {
            false
        }
    }
}

// ---------------------------------------------------------------------------
// Storage speeds
// ---------------------------------------------------------------------------

/// What is remembered of one direction of a storage device: the peak that is
/// shown, and the highest speed seen with its time.
pub struct Watermark {
    pub current: Number,
    pub pending: Number,
    pub pending_time: u64,
    pub last_peak: Option<u64>,
}

impl Watermark {
    /// Nothing seen yet.
    pub open spec fn none(now: u64) -> Watermark {
        Watermark { current: integer(0), pending: integer(0), pending_time: now, last_peak: None }
    }

    /// After a speed: a higher one than all before waits, and the one that waits
    /// becomes the peak when it has stood long enough.
    pub open spec fn after(self, speed: Number, now: u64) -> Watermark {
        let (pending, pending_time) = if below(self.pending, speed) {
            (speed, now)
        } else {
            (self.pending, self.pending_time)
        };
        if below(self.current, pending) && elapsed(pending_time, now) >= SETTLE {
            Watermark { current: pending, pending, pending_time, last_peak: Some(now) }
        } else {
            Watermark { current: self.current, pending, pending_time, last_peak: self.last_peak }
        }
    }

    /// The peak that is shown is a number that none waiting is below.
    pub open spec fn settled(self) -> bool {
        at_most(self.current, self.pending)
    }
}

/// What is remembered of a storage device: reading, then writing.
pub struct Watermarks {
    pub read: Watermark,
    pub write: Watermark,
}

impl Watermarks {
    /// Nothing seen yet.
    pub open spec fn none(now: u64) -> Watermarks {
        Watermarks { read: Watermark::none(now), write: Watermark::none(now) }
    }

    /// After a speed of reading and one of writing.
    pub open spec fn after(self, r: Number, w: Number, now: u64) -> Watermarks {
        Watermarks { read: self.read.after(r, now), write: self.write.after(w, now) }
    }
}

/// The peaks of a storage device.
pub struct StorageHrHwState {
    pub current_r: Real,
    pub pending_r: Real,
    pub pending_time_r: u64,
    pub last_r_peak: Option<u64>,
    pub current_w: Real,
    pub pending_w: Real,
    pub pending_time_w: u64,
    pub last_w_peak: Option<u64>,
}

impl View for StorageHrHwState {
    type V = Watermarks;

    open spec fn view(&self) -> Watermarks {
        Watermarks {
            read: Watermark {
                current: self.current_r@,
                pending: self.pending_r@,
                pending_time: self.pending_time_r,
                last_peak: self.last_r_peak,
            },
            write: Watermark {
                current: self.current_w@,
                pending: self.pending_w@,
                pending_time: self.pending_time_w,
                last_peak: self.last_w_peak,
            },
        }
    }
}

impl StorageHrHwState {
    /// A state that has seen nothing.
    pub fn new(now: u64) -> (r: StorageHrHwState)
        ensures
            r@ == Watermarks::none(now),
    {
        let zero = Real::from_u64(0);
        StorageHrHwState {
            current_r: zero,
            pending_r: zero,
            pending_time_r: now,
            last_r_peak: None,
            current_w: zero,
            pending_w: zero,
            pending_time_w: now,
            last_w_peak: None,
        }
    }

    /// Takes a speed of reading and one of writing in.
    pub fn update(&mut self, r: &Real, w: &Real, now: u64)
        ensures
            final(self)@ == old(self)@.after(r@, w@, now),
    {
        if self.pending_r.less_than(r) {
            self.pending_r = *r;
            self.pending_time_r = now;
        }
        if self.current_r.less_than(&self.pending_r) && time_since(self.pending_time_r, now) >= SETTLE {
            self.current_r = self.pending_r;
            self.last_r_peak = Some(now);
        }
        if self.pending_w.less_than(w) {
            self.pending_w = *w;
            self.pending_time_w = now;
        }
        if self.current_w.less_than(&self.pending_w) && time_since(self.pending_time_w, now) >= SETTLE {
            self.current_w = self.pending_w;
            self.last_w_peak = Some(now);
        }
    }
}

// ---------------------------------------------------------------------------
// Showing a peak
// ---------------------------------------------------------------------------

/// A peak with its name: both in the colour of the value where the strobe is
/// bright, both white where it is dark; while it is at rest the name is white,
/// or in the colour too where `key_stays_target`.
pub open spec fn watermark_text(
    key: Seq<char>,
    value: Seq<char>,
    target_color: Seq<char>,
    is_blinking: bool,
    toggle: bool,
    key_stays_target: bool,
) -> Seq<char> {
    if (is_blinking && toggle) || (!is_blinking && key_stays_target) {
        target_color + BOLD@ + key + " "@ + target_color + BOLD@ + value + RESET@
    } else if is_blinking {
        WHITE_BOLD@ + key + " "@ + WHITE_BOLD@ + value + RESET@
    } else {
        WHITE_BOLD@ + key + " "@ + target_color + BOLD@ + value + RESET@
    }
}

/// A peak with its name.
pub fn write_watermark_inline(
    key: &str,
    value: &str,
    target_color: &str,
    is_blinking: bool,
    toggle: bool,
    key_stays_target: bool,
) -> (s: String)
    ensures
        s@ == watermark_text(key@, value@, target_color@, is_blinking, toggle, key_stays_target),
{
    if (is_blinking && toggle) || (!is_blinking && key_stays_target) {
        let mut s = target_color.to_owned();
        s.append(BOLD);
        s.append(key);
        s.append(" ");
        s.append(target_color);
        s.append(BOLD);
        s.append(value);
        s.append(RESET);
        s
    } else if is_blinking {
        let mut s = WHITE_BOLD.to_owned();
        s.append(key);
        s.append(" ");
        s.append(WHITE_BOLD);
        s.append(value);
        s.append(RESET);
        s
    } else {
        let mut s = WHITE_BOLD.to_owned();
        s.append(key);
        s.append(" ");
        s.append(target_color);
        s.append(BOLD);
        s.append(value);
        s.append(RESET);
        s
    }
}

/// Appends a peak with its name.
pub fn write_watermark_buf(
    buf: &mut String,
    key: &str,
    value: &str,
    target_color: &str,
    is_blinking: bool,
    toggle: bool,
    key_stays_target: bool,
)
    ensures
        final(buf)@ == old(buf)@ + watermark_text(
            key@,
            value@,
            target_color@,
            is_blinking,
            toggle,
            key_stays_target,
        ),
{
    let s = write_watermark_inline(key, value, target_color, is_blinking, toggle, key_stays_target);
    buf.append(s.as_str());
}

// ---------------------------------------------------------------------------
// Laws of peaks
// ---------------------------------------------------------------------------

/// The highest value kept is not below any value taken in, and never falls.
pub proof fn law_max_is_highest(p: Peaks, val: Number, color: Seq<char>, now: u64)
    requires
        p.max_val !is Nan,
        val !is Nan,
    ensures
        at_most(val, p.with_max(val, color, now).max_val),
        !same(p.max_val, lowest()) ==> at_most(p.max_val, p.with_max(val, color, now).max_val),
        p.with_max(val, color, now).max_val !is Nan,
        p.with_max(val, color, now).min_val == p.min_val,
{
    law_numbers_are_ordered(p.max_val, val, val);
}

/// The lowest value kept is not above any value taken in, and never rises.
pub proof fn law_min_is_lowest(p: Peaks, val: Number, color: Seq<char>, now: u64)
    requires
        p.min_val !is Nan,
        val !is Nan,
    ensures
        at_most(p.with_min(val, color, now).min_val, val),
        !same(p.min_val, highest()) ==> at_most(p.with_min(val, color, now).min_val, p.min_val),
        p.with_min(val, color, now).min_val !is Nan,
        p.with_min(val, color, now).max_val == p.max_val,
{
    law_numbers_are_ordered(p.min_val, val, val);
}

/// After values, each with its colour and time, taken in for the highest one.
pub open spec fn after_maxima(p: Peaks, values: Seq<(Number, Seq<char>, u64)>) -> Peaks
    decreases values.len(),
{
    if values.len() == 0 {
        p
    } else {
        let v = values.last();
        after_maxima(p, values.drop_last()).with_max(v.0, v.1, v.2)
    }
}

/// After values, each with its colour and time, taken in for the lowest one.
pub open spec fn after_minima(p: Peaks, values: Seq<(Number, Seq<char>, u64)>) -> Peaks
    decreases values.len(),
{
    if values.len() == 0 {
        p
    } else {
        let v = values.last();
        after_minima(p, values.drop_last()).with_min(v.0, v.1, v.2)
    }
}

/// The value at `k` is the first of those that none is above.
pub open spec fn first_highest(values: Seq<(Number, Seq<char>, u64)>, k: int) -> bool {
    &&& 0 <= k < values.len()
    &&& forall|j: int| 0 <= j < values.len() ==> at_most((#[trigger] values[j]).0, values[k].0)
    &&& forall|j: int| 0 <= j < k ==> below((#[trigger] values[j]).0, values[k].0)
}

/// The value at `k` is the first of those that none is below.
pub open spec fn first_lowest(values: Seq<(Number, Seq<char>, u64)>, k: int) -> bool {
    &&& 0 <= k < values.len()
    &&& forall|j: int| 0 <= j < values.len() ==> at_most(values[k].0, (#[trigger] values[j]).0)
    &&& forall|j: int| 0 <= j < k ==> below(values[k].0, (#[trigger] values[j]).0)
}

/// However many values a new tracker takes in, it keeps the highest of all, with the
/// colour and the time of the first that reached it; the very first value has no
/// time. What is not a number is left out, and so is the lowest number of all, which
/// stands for no value.
pub proof fn law_highest_of_all(values: Seq<(Number, Seq<char>, u64)>, k: int)
    requires
        forall|i: int|
            0 <= i < values.len() ==> (#[trigger] values[i]).0 !is Nan && !same(values[i].0, lowest()),
        first_highest(values, k),
    ensures
        after_maxima(Peaks::none(), values).max_val == values[k].0,
        after_maxima(Peaks::none(), values).max_color == values[k].1,
        after_maxima(Peaks::none(), values).last_max_peak == if k == 0 {
            None
        } else {
            Some(values[k].2)
        },
    decreases values.len(),
{
    let front = values.drop_last();
    let n = front.len();
    reveal_with_fuel(after_maxima, 2);
    if n > 0 {
        assert forall|i: int| 0 <= i < n implies (#[trigger] front[i]).0 !is Nan && !same(front[i].0, lowest()) by {
            assert(front[i] == values[i]);
        }
        let f = lemma_first_highest(front);
        law_highest_of_all(front, f);
        assert(front[f] == values[f]);
        law_numbers_are_ordered(values[f].0, values[n as int].0, values[k].0);
        law_numbers_are_ordered(values[f].0, values[k].0, values[f].0);
        if k < n {
            assert(front[k] == values[k]);
            if f < k {
                assert(below(values[f].0, values[k].0));
            } else if k < f {
                assert(below(front[k].0, front[f].0));
            }
        } else {
            assert(below(values[f].0, values[k].0));
        }
    }
}

/// Among numbers there is a first of those that none is above.
pub proof fn lemma_first_highest(values: Seq<(Number, Seq<char>, u64)>) -> (k: int)
    requires
        values.len() > 0,
        forall|i: int| 0 <= i < values.len() ==> (#[trigger] values[i]).0 !is Nan,
    ensures
        first_highest(values, k),
    decreases values.len(),
{
    let last = values.len() - 1;
    let front = values.drop_last();
    if front.len() == 0 {
        law_numbers_are_ordered(values[0].0, values[0].0, values[0].0);
        0
    } else {
        assert forall|i: int| 0 <= i < front.len() implies (#[trigger] front[i]).0 !is Nan by {
            assert(front[i] == values[i]);
        }
        let f = lemma_first_highest(front);
        let k = if below(values[f].0, values[last].0) {
            last
        } else {
            f
        };
        law_numbers_are_ordered(values[f].0, values[last].0, values[last].0);
        law_numbers_are_ordered(values[last].0, values[last].0, values[last].0);
        assert(front[f] == values[f]);
        assert forall|j: int| 0 <= j < values.len() implies at_most((#[trigger] values[j]).0, values[k].0) by {
            if j < last {
                assert(front[j] == values[j]);
                law_numbers_are_ordered(values[j].0, values[f].0, values[last].0);
            }
        }
        assert forall|j: int| 0 <= j < k implies below((#[trigger] values[j]).0, values[k].0) by {
            assert(front[j] == values[j]);
            law_numbers_are_ordered(values[j].0, values[f].0, values[last].0);
        }
        k
    }
}

/// However many values a new tracker takes in, it keeps the lowest of all, with the
/// colour and the time of the first that reached it; the very first value has no
/// time. What is not a number is left out, and so is the highest number of all, which
/// stands for no value.
pub proof fn law_lowest_of_all(values: Seq<(Number, Seq<char>, u64)>, k: int)
    requires
        forall|i: int|
            0 <= i < values.len() ==> (#[trigger] values[i]).0 !is Nan && !same(values[i].0, highest()),
        first_lowest(values, k),
    ensures
        after_minima(Peaks::none(), values).min_val == values[k].0,
        after_minima(Peaks::none(), values).min_color == values[k].1,
        after_minima(Peaks::none(), values).last_min_peak == if k == 0 {
            None
        } else {
            Some(values[k].2)
        },
    decreases values.len(),
{
    let front = values.drop_last();
    let n = front.len();
    reveal_with_fuel(after_minima, 2);
    if n > 0 {
        assert forall|i: int| 0 <= i < n implies (#[trigger] front[i]).0 !is Nan && !same(front[i].0, highest()) by {
            assert(front[i] == values[i]);
        }
        let f = lemma_first_lowest(front);
        law_lowest_of_all(front, f);
        assert(front[f] == values[f]);
        law_numbers_are_ordered(values[k].0, values[n as int].0, values[f].0);
        law_numbers_are_ordered(values[f].0, values[k].0, values[f].0);
        law_numbers_are_ordered(values[n as int].0, values[f].0, values[n as int].0);
        if k < n {
            assert(front[k] == values[k]);
            if f < k {
                assert(below(values[k].0, values[f].0));
            } else if k < f {
                assert(below(front[f].0, front[k].0));
            }
        } else {
            assert(below(values[k].0, values[f].0));
        }
    }
}

/// Among numbers there is a first of those that none is below.
pub proof fn lemma_first_lowest(values: Seq<(Number, Seq<char>, u64)>) -> (k: int)
    requires
        values.len() > 0,
        forall|i: int| 0 <= i < values.len() ==> (#[trigger] values[i]).0 !is Nan,
    ensures
        first_lowest(values, k),
    decreases values.len(),
{
    let last = values.len() - 1;
    let front = values.drop_last();
    if front.len() == 0 {
        law_numbers_are_ordered(values[0].0, values[0].0, values[0].0);
        0
    } else {
        assert forall|i: int| 0 <= i < front.len() implies (#[trigger] front[i]).0 !is Nan by {
            assert(front[i] == values[i]);
        }
        let f = lemma_first_lowest(front);
        let k = if below(values[last].0, values[f].0) {
            last
        } else {
            f
        };
        law_numbers_are_ordered(values[f].0, values[last].0, values[last].0);
        law_numbers_are_ordered(values[last].0, values[last].0, values[last].0);
        assert(front[f] == values[f]);
        assert forall|j: int| 0 <= j < values.len() implies at_most(values[k].0, (#[trigger] values[j]).0) by {
            if j < last {
                assert(front[j] == values[j]);
                law_numbers_are_ordered(values[last].0, values[f].0, values[j].0);
            }
        }
        assert forall|j: int| 0 <= j < k implies below(values[k].0, (#[trigger] values[j]).0) by {
            assert(front[j] == values[j]);
            law_numbers_are_ordered(values[last].0, values[f].0, values[j].0);
        }
        k
    }
}

/// A tracker strobes at once after a new highest value, and only until the time
/// of a strobe has gone.
pub proof fn law_new_max_strobes(p: Peaks, val: Number, color: Seq<char>, now: u64, later: u64)
    requires
        p.is_new_max(val),
        later >= now,
    ensures
        fresh(p.with_max(val, color, now).last_max_peak, later) <==> later - now < STROBE,
{
}

/// The first value a tracker sees does not strobe.
pub proof fn law_first_value_is_silent(val: Number, color: Seq<char>, now: u64)
    ensures
        Peaks::none().with_max(val, color, now).max_val == val,
        Peaks::none().with_max(val, color, now).last_max_peak is None,
        Peaks::none().with_min(val, color, now).min_val == val,
        Peaks::none().with_min(val, color, now).last_min_peak is None,
{
}

/// The peak of a storage device never falls, what waits is never below it or
/// below any speed taken in, and it rises only to a speed that has stood long
/// enough.
pub proof fn law_storage_peak_never_falls(w: Watermark, speed: Number, now: u64)
    requires
        w.settled(),
        speed !is Nan,
    ensures
        w.after(speed, now).settled(),
        at_most(w.current, w.after(speed, now).current),
        at_most(speed, w.after(speed, now).pending),
        w.after(speed, now).current != w.current ==> {
            &&& below(w.current, w.after(speed, now).current)
            &&& w.after(speed, now).current == w.pending
            &&& elapsed(w.pending_time, now) >= SETTLE
            &&& fresh(w.after(speed, now).last_peak, now)
        },
{
    law_numbers_are_ordered(w.current, w.pending, speed);
    law_numbers_are_ordered(w.pending, speed, speed);
    law_numbers_are_ordered(speed, speed, w.pending);
    law_numbers_are_ordered(w.current, w.current, w.current);
    law_numbers_are_ordered(w.pending, w.pending, w.pending);
}

/// A storage device that has seen nothing is settled.
pub proof fn law_new_storage_is_settled(now: u64)
    ensures
        Watermark::none(now).settled(),
{
    crate::binary64::lemma_integer_zero();
}

/// The strobe does not move the text beside it: a peak is as wide as its name,
/// a space and its value, whatever its colour and the state of the strobe.
pub proof fn law_watermark_width(
    key: Seq<char>,
    value: Seq<char>,
    target_color: Seq<char>,
    is_blinking: bool,
    toggle: bool,
    key_stays_target: bool,
)
    requires
        forall|i: int| 0 <= i < key.len() ==> key[i] != ESCAPE,
        forall|i: int| 0 <= i < value.len() ==> value[i] != ESCAPE,
        width_of(target_color) == 0,
        is_closed(target_color),
    ensures
        width_of(watermark_text(key, value, target_color, is_blinking, toggle, key_stays_target)) == key.len() + 1 + value.len(),
        is_closed(watermark_text(key, value, target_color, is_blinking, toggle, key_stays_target)),
{
    lemma_marks();
    reveal_strlit(" ");
    law_width_of_plain(key);
    law_width_of_plain(value);
    law_width_of_plain(" "@);
    if (is_blinking && toggle) || (!is_blinking && key_stays_target) {
        let a = target_color + BOLD@;
        law_width_of_joined(target_color, BOLD@, Place::Plain);
        law_width_of_joined(a, key, Place::Plain);
        law_width_of_joined(a + key, " "@, Place::Plain);
        law_width_of_joined(a + key + " "@, target_color, Place::Plain);
        law_width_of_joined(a + key + " "@ + target_color, BOLD@, Place::Plain);
        law_width_of_joined(a + key + " "@ + target_color + BOLD@, value, Place::Plain);
        law_width_of_joined(a + key + " "@ + target_color + BOLD@ + value, RESET@, Place::Plain);
    } else {
        let a = WHITE_BOLD@ + key + " "@;
        law_width_of_joined(WHITE_BOLD@, key, Place::Plain);
        law_width_of_joined(WHITE_BOLD@ + key, " "@, Place::Plain);
        let b = if is_blinking {
            a + WHITE_BOLD@
        } else {
            a + target_color + BOLD@
        };
        law_width_of_joined(a, WHITE_BOLD@, Place::Plain);
        law_width_of_joined(a, target_color, Place::Plain);
        law_width_of_joined(a + target_color, BOLD@, Place::Plain);
        law_width_of_joined(b, value, Place::Plain);
        law_width_of_joined(b + value, RESET@, Place::Plain);
    }
}

/// The fixed sequences have no width.
proof fn lemma_marks()
    ensures
        width_of(BOLD@) == 0 && is_closed(BOLD@),
        width_of(RESET@) == 0 && is_closed(RESET@),
        width_of(WHITE_BOLD@) == 0 && is_closed(WHITE_BOLD@),
{
    reveal_strlit("\x1b[1m");
    reveal_strlit("\x1b[0m");
    reveal_strlit("\x1b[1;37m");
    crate::color::law_sequence_has_no_width(BOLD@);
    crate::color::law_sequence_has_no_width(RESET@);
    crate::color::law_sequence_has_no_width(WHITE_BOLD@);
}

/// The strobe changes every quarter of a second, so that it is twice a second at the
/// same point.
pub proof fn law_strobe_is_two_hertz(epoch_millis: nat)
    ensures
        bright(epoch_millis + 250) == !bright(epoch_millis),
        bright(epoch_millis + 500) == bright(epoch_millis),
{
    let k = (epoch_millis / 250) as int;
    assert((epoch_millis + 250) / 250 == k + 1);
    assert((epoch_millis + 500) / 250 == k + 2);
}

} // verus!
