//! The command line: options, intervals, and the texts of help and version.

use crate::binary64::{
    at_most, below, clamped, fraction, integer, law_numbers_are_ordered, Number, Parts, Real,
};
use crate::text::{begins_with, equal, starts_with, text_of, texts};
use vstd::prelude::*;

verus! {

/// What is polled at an interval of its own.
#[derive(Clone, Copy, Debug, PartialEq, Eq, Structural)]
pub enum Poll {
    Cpu,
    Room,
    Mem,
    Net,
    Disk,
}

/// The intervals as they were given: the text of a number, or nothing.
pub struct Given {
    pub cpu: Option<String>,
    pub room: Option<String>,
    pub mem: Option<String>,
    pub net: Option<String>,
    pub disk: Option<String>,
}

/// The intervals as they were given.
#[verifier::ext_equal]
pub struct GivenTexts {
    pub cpu: Option<Seq<char>>,
    pub room: Option<Seq<char>>,
    pub mem: Option<Seq<char>>,
    pub net: Option<Seq<char>>,
    pub disk: Option<Seq<char>>,
}

impl View for Given {
    type V = GivenTexts;

    open spec fn view(&self) -> GivenTexts {
        GivenTexts {
            cpu: text_of(self.cpu),
            room: text_of(self.room),
            mem: text_of(self.mem),
            net: text_of(self.net),
            disk: text_of(self.disk),
        }
    }
}

impl GivenTexts {
    /// Nothing given.
    pub open spec fn none() -> GivenTexts {
        GivenTexts { cpu: None, room: None, mem: None, net: None, disk: None }
    }

    /// After an option: what it gives replaces what was given before.
    pub open spec fn with(self, poll: Poll, value: Option<Seq<char>>) -> GivenTexts {
        match poll {
            Poll::Cpu => GivenTexts { cpu: value, ..self },
            Poll::Room => GivenTexts { room: value, ..self },
            Poll::Mem => GivenTexts { mem: value, ..self },
            Poll::Net => GivenTexts { net: value, ..self },
            Poll::Disk => GivenTexts { disk: value, ..self },
        }
    }
}

/// What the command line asks for.
pub enum Command {
    Help,
    Version,
    Run(Given),
}

/// What the command line asks for.
#[verifier::ext_equal]
pub enum Asked {
    Help,
    Version,
    Run(GivenTexts),
}

impl View for Command {
    type V = Asked;

    open spec fn view(&self) -> Asked {
        match self {
            Command::Help => Asked::Help,
            Command::Version => Asked::Version,
            Command::Run(given) => Asked::Run(given@),
        }
    }
}

/// The interval whose option this argument is; its value is the next argument.
pub open spec fn option_named(arg: Seq<char>) -> Option<Poll> {
    if arg == "-n"@ || arg == "--cpu-stats-interval"@ {
        Some(Poll::Cpu)
    } else if arg == "-r"@ || arg == "--room-temp-interval"@ {
        Some(Poll::Room)
    } else if arg == "-m"@ || arg == "--mem-stats-interval"@ {
        Some(Poll::Mem)
    } else if arg == "-t"@ || arg == "--net-interval"@ {
        Some(Poll::Net)
    } else if arg == "-d"@ || arg == "--disk-interval"@ {
        Some(Poll::Disk)
    } else {
        None
    }
}

/// The interval whose short option this argument begins with; its value is the
/// rest of the argument.
pub open spec fn option_joined(arg: Seq<char>) -> Option<Poll> {
    if begins_with(arg, "-n"@) {
        Some(Poll::Cpu)
    } else if begins_with(arg, "-r"@) {
        Some(Poll::Room)
    } else if begins_with(arg, "-m"@) {
        Some(Poll::Mem)
    } else if begins_with(arg, "-t"@) {
        Some(Poll::Net)
    } else if begins_with(arg, "-d"@) {
        Some(Poll::Disk)
    } else {
        None
    }
}

/// What the arguments ask for, read from the left: help or version at the first
/// word of either, else the intervals, the last word on each; other arguments say
/// nothing.
pub open spec fn asked(args: Seq<Seq<char>>, given: GivenTexts) -> Asked
    decreases args.len(),
{
    if args.len() == 0 {
        Asked::Run(given)
    } else {
        let arg = args[0];
        let rest = args.skip(1);
        if arg == "-h"@ || arg == "--help"@ {
            Asked::Help
        } else if arg == "-v"@ || arg == "--version"@ {
            Asked::Version
        } else if option_named(arg) is Some {
            let poll = option_named(arg)->0;
            if rest.len() == 0 {
                asked(rest, given.with(poll, None))
            } else {
                asked(rest.skip(1), given.with(poll, Some(rest[0])))
            }
        } else if option_joined(arg) is Some {
            asked(rest, given.with(option_joined(arg)->0, Some(arg.skip(2))))
        } else {
            asked(rest, given)
        }
    }
}

fn named(arg: &str) -> (r: Option<Poll>)
    ensures
        r == option_named(arg@),
{
    if equal(arg, "-n") || equal(arg, "--cpu-stats-interval") {
        Some(Poll::Cpu)
    } else if equal(arg, "-r") || equal(arg, "--room-temp-interval") {
        Some(Poll::Room)
    } else if equal(arg, "-m") || equal(arg, "--mem-stats-interval") {
        Some(Poll::Mem)
    } else if equal(arg, "-t") || equal(arg, "--net-interval") {
        Some(Poll::Net)
    } else if equal(arg, "-d") || equal(arg, "--disk-interval") {
        Some(Poll::Disk)
    } else {
        None
    }
}

fn joined(arg: &str) -> (r: Option<Poll>)
    ensures
        r == option_joined(arg@),
        r is Some ==> arg@.len() >= 2,
{
    proof {
        reveal_strlit("-n");
        reveal_strlit("-r");
        reveal_strlit("-m");
        reveal_strlit("-t");
        reveal_strlit("-d");
    }
    if starts_with(arg, "-n") {
        Some(Poll::Cpu)
    } else if starts_with(arg, "-r") {
        Some(Poll::Room)
    } else if starts_with(arg, "-m") {
        Some(Poll::Mem)
    } else if starts_with(arg, "-t") {
        Some(Poll::Net)
    } else if starts_with(arg, "-d") {
        Some(Poll::Disk)
    } else {
        None
    }
}

impl Given {
    fn set(&mut self, poll: Poll, value: Option<String>)
        ensures
            final(self)@ == old(self)@.with(poll, text_of(value)),
    {
        match poll {
            Poll::Cpu => {
                self.cpu = value;
            },
            Poll::Room => {
                self.room = value;
            },
            Poll::Mem => {
                self.mem = value;
            },
            Poll::Net => {
                self.net = value;
            },
            Poll::Disk => {
                self.disk = value;
            },
        }
    }
}

/// What the arguments, without the name of the program, ask for.
pub fn read_arguments(args: &Vec<String>) -> (r: Command)
    ensures
        r@ == asked(texts(args@), GivenTexts::none()),
{
    let mut given = Given { cpu: None, room: None, mem: None, net: None, disk: None };
    let mut i: usize = 0;
    let ghost all = texts(args@);
    proof {
        assert(all.skip(0) =~= all);
    }
    while i < args.len()
        invariant
            i <= args.len(),
            all == texts(args@),
            asked(all.skip(i as int), given@) == asked(all, GivenTexts::none()),
        decreases args.len() - i,
    {
        let arg: &str = args[i].as_str();
        proof {
            assert(all.skip(i as int)[0] == arg@);
            assert(all.skip(i as int).skip(1) =~= all.skip(i + 1));
        }
        if equal(arg, "-h") || equal(arg, "--help") {
            return Command::Help;
        }
        if equal(arg, "-v") || equal(arg, "--version") {
            return Command::Version;
        }
        i = i + 1;
        match named(arg) {
            Some(poll) => {
                if i < args.len() {
                    proof {
                        assert(all.skip(i as int)[0] == args@[i as int]@);
                        assert(all.skip(i as int).skip(1) =~= all.skip(i + 1));
                    }
                    given.set(poll, Some(args[i].clone()));
                    i = i + 1;
                } else {
                    given.set(poll, None);
                }
            },
            None => {
                match joined(arg) {
                    Some(poll) => {
                        let n: usize = arg.unicode_len();
                        let value: &str = arg.substring_char(2, n);
                        proof {
                            assert(value@ =~= arg@.skip(2));
                        }
                        given.set(poll, Some(value.to_owned()));
                    },
                    None => {},
                }
            },
        }
    }
    Command::Run(given)
}

// ---------------------------------------------------------------------------
// Intervals
// ---------------------------------------------------------------------------

/// The interval without an option, in seconds.
pub const DEFAULT_INTERVAL: u64 = 2;

/// The shortest and the longest interval, in seconds.
pub open spec fn interval_bounds(poll: Poll) -> (Number, Number) {
    match poll {
        Poll::Cpu => (fraction(1, 10), integer(60)),
        Poll::Room => (integer(1), integer(3600)),
        _ => (fraction(1, 2), integer(60)),
    }
}

/// The interval at which something is polled: what was given, or the default
/// where that is no number, held between the bounds.
pub open spec fn interval_of(poll: Poll, given: Option<Number>) -> Number {
    let (low, high) = interval_bounds(poll);
    match given {
        Some(x) => if x is Nan {
            clamped(integer(DEFAULT_INTERVAL as nat), low, high)
        } else {
            clamped(x, low, high)
        },
        None => clamped(integer(DEFAULT_INTERVAL as nat), low, high),
    }
}

/// The interval at which something is polled.
pub fn interval(poll: Poll, given: Option<Real>) -> (r: Real)
    ensures
        r@ == interval_of(
            poll,
            match given {
                Some(x) => Some(x@),
                None => None,
            },
        ),
{
    let (low, high): (Real, Real) = match poll {
        Poll::Cpu => (Real::ratio(1, 10), Real::from_u64(60)),
        Poll::Room => (Real::from_u64(1), Real::from_u64(3600)),
        _ => (Real::ratio(1, 2), Real::from_u64(60)),
    };
    match given {
        Some(x) => match x.parts() {
            Parts::Nan => Real::from_u64(DEFAULT_INTERVAL).clamp(low, high),
            _ => x.clamp(low, high),
        },
        None => Real::from_u64(DEFAULT_INTERVAL).clamp(low, high),
    }
}

/// An interval is within its bounds, whatever was given: what is below them falls
/// back to the lower one, what is above them to the upper one, and what is between
/// them stays.
pub proof fn law_interval_within_bounds(poll: Poll, given: Option<Number>)
    ensures
        at_most(interval_bounds(poll).0, interval_of(poll, given)),
        at_most(interval_of(poll, given), interval_bounds(poll).1),
        given matches Some(x) ==> {
            &&& below(x, interval_bounds(poll).0) ==> interval_of(poll, given) == interval_bounds(poll).0
            &&& below(interval_bounds(poll).1, x) ==> interval_of(poll, given) == interval_bounds(poll).1
            &&& at_most(interval_bounds(poll).0, x) && at_most(x, interval_bounds(poll).1) ==> interval_of(
                poll,
                given,
            ) == x
        },
{
    let (low, high) = interval_bounds(poll);
    crate::binary64::law_integers_are_exact(1);
    crate::binary64::law_integers_are_exact(2);
    crate::binary64::law_integers_are_exact(60);
    crate::binary64::law_integers_are_exact(3600);
    let one = crate::binary64::one_units();
    vstd::arithmetic::power2::lemma_pow2_pos(1074);
    assert(1 * one * 1 <= 60 * one * 10 && 1 * one * 1 <= 60 * one * 2);
    crate::binary64::law_rounding_keeps_order(1 * one, 10, 60 * one, 1);
    crate::binary64::law_rounding_keeps_order(1 * one, 2, 60 * one, 1);
    let x = match given {
        Some(x) => if x is Nan {
            integer(DEFAULT_INTERVAL as nat)
        } else {
            x
        },
        None => integer(DEFAULT_INTERVAL as nat),
    };
    law_numbers_are_ordered(x, low, high);
    law_numbers_are_ordered(low, x, high);
    law_numbers_are_ordered(x, high, high);
    law_numbers_are_ordered(high, x, x);
    law_numbers_are_ordered(low, low, low);
    law_numbers_are_ordered(high, high, high);
}

// ---------------------------------------------------------------------------
// Texts
// ---------------------------------------------------------------------------

/// Stands before the version in every title.
pub const TITLE_START: &'static str = "\x1b[1;38;2;255;215;0mCPU-Grid ver:";

/// The copyright.
pub const COPYRIGHT: &'static str = "Copyright (C) 2026 StatusCode404 https://github.com/StatusCode404";

/// The help behind its title.
pub const HELP: &'static str = "Copyright (C) 2026 StatusCode404 https://github.com/StatusCode404
Project: https://github.com/StatusCode404/CPU-Grid
Compatibility: Full support for x86, ARM (incl. Apple Silicon), RISC-V, and IBM processor architectures via standard Linux kernel sysfs interfaces.

Usage (Values are in seconds. Parameters given less than or greater than the boundary ranges will fall back to the nearest boundary range.):
  -n, --cpu-stats-interval <secs>    Interval for CPU stats (0.1 - 60s, default 2.0)
  -r, --room-temp-interval <secs>    Interval for Room Temp (1 - 3600s, default 2.0)
  -m, --mem-stats-interval <secs>    Interval for Memory stats (0.5 - 60s, default 2.0)
  -t, --net-interval <secs>          Interval for Network traffic (0.5 - 60s, default 2.0)
  -d, --disk-interval <secs>         Interval for Storage telemetry (0.5 - 60s, default 2.0)
  -h, --help                         Prints this help document
  -v, --version                      Prints version and copyright

Tips:
  If running with \x1b[38;2;255;0;0msudo\x1b[0m and Room Temp fails, use '\x1b[38;2;255;0;0msudo -E\x1b[0m' to preserve your user environment.

Color Legend (Color shade gradually changes between the ranges defined underneath):
  CPU Freq:       \x1b[38;2;0;200;0mGreen\x1b[0m(0-50%) -> \x1b[38;2;255;255;0mYellow\x1b[0m(50-70%) -> \x1b[38;2;255;165;0mOrange\x1b[0m(70-85%) -> \x1b[38;2;255;0;0mHot Red\x1b[0m(85-100%) -> \x1b[38;2;238;130;238mViolet\x1b[0m(>100% overclock)
  RAM Load:       \x1b[38;2;0;200;0mGreen\x1b[0m(0-50%) -> \x1b[38;2;255;255;0mYellow\x1b[0m(50-70%) -> \x1b[38;2;255;165;0mOrange\x1b[0m(70-85%) -> \x1b[38;2;255;0;0mHot Red\x1b[0m(85-95%) -> \x1b[38;2;238;130;238mViolet\x1b[0m(>=95%)
                  (Used and Available values share the same color to indicate total memory pressure)
  Swap Load:      \x1b[38;2;0;200;0mGreen\x1b[0m(0-50%) -> \x1b[38;2;255;255;0mYellow\x1b[0m(50-70%) -> \x1b[38;2;255;165;0mOrange\x1b[0m(70-80%) -> \x1b[38;2;255;0;0mHot Red\x1b[0m(80-90%) -> \x1b[38;2;238;130;238mViolet\x1b[0m(>=90%)
  Network Load:   \x1b[38;2;0;200;0mGreen\x1b[0m(Low) -> \x1b[38;2;255;255;0mYellow\x1b[0m -> \x1b[38;2;255;165;0mOrange\x1b[0m -> \x1b[38;2;255;0;0mHot Red\x1b[0m(Near Interface Max) -> \x1b[38;2;238;130;238mViolet\x1b[0m(Exceeds Theoretical)
  Storage Space:  \x1b[38;2;0;200;0mGreen\x1b[0m(0-75%) -> \x1b[38;2;255;255;0mYellow\x1b[0m(75-85%) -> \x1b[38;2;255;165;0mOrange\x1b[0m(85-90%) -> \x1b[38;2;255;0;0mHot Red\x1b[0m(90-95%) -> \x1b[38;2;238;130;238mViolet\x1b[0m(>=95%)
                  (Note: BTRFS/ZFS limits scale earlier to account for Copy-on-Write fragmentation degradation)
  Storage \x1b[1m↓↑\x1b[0m:     \x1b[38;2;0;200;0mGreen\x1b[0m(Baseline) -> \x1b[38;2;255;255;0mYellow\x1b[0m -> \x1b[38;2;255;165;0mOrange\x1b[0m -> \x1b[38;2;255;0;0mHot Red\x1b[0m(Highest Known HW/HR) -> \x1b[38;2;238;130;238mViolet\x1b[0m(Spiking to New Max)
  CPU Temp:       \x1b[38;2;0;200;0mGreen\x1b[0m (Cool) -> \x1b[38;2;255;0;0mRed\x1b[0m (Thermal Throttle Limit) -> \x1b[38;2;238;130;238mViolet\x1b[0m (Exceeds Limit)
  Room Temp:      \x1b[38;2;0;200;0mGreen\x1b[0m (<=24) -> \x1b[38;2;255;255;0mYellow\x1b[0m(27) -> \x1b[38;2;255;165;0mOrange\x1b[0m(31) -> \x1b[38;2;255;100;100mLtRed\x1b[0m(35) -> \x1b[38;2;238;130;238mViolet\x1b[0m(>=40)
  Zswap Status:   \x1b[38;2;0;200;0mGreen\x1b[0m (Enabled) -> \x1b[38;2;255;0;0mBright Red\x1b[0m (Disabled) -> \x1b[38;2;255;255;0mYellow\x1b[0m (Unknown Status) -> \x1b[38;2;238;130;238mViolet\x1b[0m (Not Present)
  Zswap Algo:     \x1b[38;2;0;200;0mzstd\x1b[0m (Best) -> \x1b[38;2;255;255;0mlz4\x1b[0m -> \x1b[38;2;255;165;0mlzo\x1b[0m -> \x1b[38;2;255;0;0mdeflate\x1b[0m -> \x1b[38;2;238;130;238mOther\x1b[0m
  Zswap Ratio:    \x1b[38;2;238;130;238mViolet\x1b[0m (<1:1) -> \x1b[38;2;255;0;0mRed\x1b[0m (1:1) -> \x1b[38;2;255;165;0mOrange\x1b[0m (1.5:1) -> \x1b[38;2;255;255;0mYellow\x1b[0m (2.5:1) -> \x1b[38;2;0;200;0mGreen\x1b[0m (4:1+)
  User Activity:  \x1b[38;2;0;255;255mCyan\x1b[0m (Active) -> \x1b[38;2;0;200;0mGreen\x1b[0m -> \x1b[38;2;255;255;0mYellow\x1b[0m -> \x1b[38;2;255;165;0mOrange\x1b[0m -> \x1b[38;2;255;0;0mRed\x1b[0m -> \x1b[38;2;238;130;238mViolet\x1b[0m (1+ Year Idle)

High-Watermark Stats Legend (Peak records strobe at 2Hz for 3s upon breaking record):
  \x1b[1;37mHOC:\x1b[0m  Highest Overclock frequency recorded across all CPU cores. (Dynamically hidden; this metric will only appear if an overclock is actively achieved).
  \x1b[1;37mHT:\x1b[0m   Highest Temperature recorded for a thermal zone parent package/chiplet.
  \x1b[1;37mLRT:\x1b[0m  Lowest Room Temperature recorded since application launch.
  \x1b[1;37mHRT:\x1b[0m  Highest Room Temperature recorded since application launch.
  \x1b[1;37mH↓:\x1b[0m   Highest Download (Receive) network bandwidth recorded.
  \x1b[1;37mH↑:\x1b[0m   Highest Upload (Transmit) network bandwidth recorded.
  \x1b[1;37mHR:\x1b[0m   Highest Read throughput rate recorded for a storage device.
  \x1b[1;37mHW:\x1b[0m   Highest Write throughput rate recorded for a storage device.

Room Temperature Monitor (Optional TEMPer USB Thermometer):
  Requires a compatible TEMPer USB device and 'temper-poll' executable in PATH.
  Displays live room ambient temperature alongside LRT (Lowest) and HRT (Highest) records.
  Warning Threshold Behavior:
    - Reaching or exceeding 40.0°C (104.0°F) triggers an ambient overheat alert.
    - Displays an urgent warning banner advising thermal shutdown considerations.
    - The overheat alert banner remains actively displayed for 5 minutes (300s) post-event.
";

/// The name of the program with its version.
pub open spec fn title_text(version: Seq<char>) -> Seq<char> {
    TITLE_START@ + version + "\x1b[0m"@
}

/// The name of the program with its version.
pub fn title(version: &str) -> (s: String)
    ensures
        s@ == title_text(version@),
{
    let mut s = TITLE_START.to_owned();
    s.append(version);
    s.append("\x1b[0m");
    s
}

/// The answer to a call for help: the title, and the help below it.
pub fn help_text(version: &str) -> (s: String)
    ensures
        s@ == title_text(version@) + "\n"@ + HELP@,
{
    let mut s = title(version);
    s.append("\n");
    s.append(HELP);
    s
}

/// The answer to a call for the version: the title, and the copyright below it.
pub fn version_text(version: &str) -> (s: String)
    ensures
        s@ == title_text(version@) + "\n"@ + COPYRIGHT@ + "\n"@,
{
    let mut s = title(version);
    s.append("\n");
    s.append(COPYRIGHT);
    s.append("\n");
    s
}

} // verus!
