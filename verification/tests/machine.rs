use cpu_grid::binary64::Real;
use cpu_grid::cli::{help_text, interval, read_arguments, version_text, Command, Given, Poll};
use cpu_grid::hardware::{
    brand, cpu_frequency_paths, cpu_model, described_frequencies, frequencies, has_hypervisor_flag,
    is_virtual_machine, names_emulator, to_megahertz,
};
use cpu_grid::idle::{
    command, Answer, DesktopIdle, Devices, IdleAction, IdleEvent, IdleWatch, Listed, Query, Touch, UserIdleTracker,
};
use cpu_grid::layout::strip_ansi;
use cpu_grid::memory::{
    memory_kilobytes, ram_text, swap_devices, swap_lines, swap_total_text, swap_totals, zswap_status, SwapDevice,
    ZswapStatus,
};
use cpu_grid::span::Span;
use cpu_grid::text::{first_marked_text, marked_texts};
use cpu_grid::thermal::{
    companion, is_cpu_sensor, sensor, sensors, temperatures, thermometer_candidates, thermometer_reading, Chip,
    ChipFile, ThermalSensorDef,
};

fn num(x: f64) -> Real {
    Real::from_bits(x.to_bits())
}

fn back(x: &Real) -> f64 {
    f64::from_bits(x.to_bits())
}

fn strings(v: &[&str]) -> Vec<String> {
    v.iter().map(|s| s.to_string()).collect()
}

fn given(args: &[&str]) -> Given {
    match read_arguments(&strings(args)) {
        Command::Run(g) => g,
        _ => panic!("not a run"),
    }
}

#[test]
fn options_take_their_values() {
    let g = given(&["-n", "0.5", "--room-temp-interval", "60", "-m3", "-t", "7", "-d1.5", "other"]);
    assert_eq!(g.cpu.as_deref(), Some("0.5"));
    assert_eq!(g.room.as_deref(), Some("60"));
    assert_eq!(g.mem.as_deref(), Some("3"));
    assert_eq!(g.net.as_deref(), Some("7"));
    assert_eq!(g.disk.as_deref(), Some("1.5"));
    let g = given(&["--cpu-stats-interval", "1", "-n2", "-d"]);
    assert_eq!(g.cpu.as_deref(), Some("2"));
    assert_eq!(g.disk, None);
    let g = given(&["-n", "-r"]);
    assert_eq!(g.cpu.as_deref(), Some("-r"));
    assert_eq!(g.room, None);
    let g = given(&["--mem-stats-interval", "4", "--net-interval", "5", "--disk-interval", "6"]);
    assert_eq!(g.mem.as_deref(), Some("4"));
    assert_eq!(g.net.as_deref(), Some("5"));
    assert_eq!(g.disk.as_deref(), Some("6"));
}

#[test]
fn help_and_version_come_first() {
    assert!(matches!(read_arguments(&strings(&["-n", "1", "--help", "-v"])), Command::Help));
    assert!(matches!(read_arguments(&strings(&["-v", "-h"])), Command::Version));
    assert!(matches!(read_arguments(&strings(&["-n", "-h"])), Command::Run(_)));
}

#[test]
fn intervals_stay_within_bounds() {
    let at = |poll, x: f64| back(&interval(poll, Some(num(x))));
    assert_eq!(at(Poll::Cpu, 0.01), 0.1);
    assert_eq!(at(Poll::Cpu, 100.0), 60.0);
    assert_eq!(at(Poll::Cpu, 0.25), 0.25);
    assert_eq!(at(Poll::Room, 0.5), 1.0);
    assert_eq!(at(Poll::Room, 4000.0), 3600.0);
    assert_eq!(at(Poll::Mem, 0.1), 0.5);
    assert_eq!(at(Poll::Net, f64::INFINITY), 60.0);
    assert_eq!(at(Poll::Disk, f64::NEG_INFINITY), 0.5);
    assert_eq!(at(Poll::Disk, f64::NAN), 2.0);
    assert_eq!(back(&interval(Poll::Net, None)), 2.0);
}

#[test]
fn help_and_version_texts() {
    assert_eq!(
        version_text("4.0.0"),
        "\x1b[1;38;2;255;215;0mCPU-Grid ver:4.0.0\x1b[0m\nCopyright (C) 2026 StatusCode404 https://github.com/StatusCode404\n"
    );
    let help = help_text("4.0.0");
    assert!(help.starts_with("\x1b[1;38;2;255;215;0mCPU-Grid ver:4.0.0\x1b[0m\nCopyright (C) 2026"));
    assert!(help.contains("  -n, --cpu-stats-interval <secs>    Interval for CPU stats (0.1 - 60s, default 2.0)\n"));
    assert!(help.contains("\x1b[1;37mH↓:\x1b[0m   Highest Download (Receive) network bandwidth recorded.\n"));
    assert!(help.ends_with("remains actively displayed for 5 minutes (300s) post-event.\n"));
}

#[test]
fn virtual_machines_are_seen() {
    let guest = "processor : 0\nflags\t\t: fpu vme hypervisor lahf\n";
    let host = "processor : 0\nflags : fpu vme\nbugs : hypervisor\n";
    assert!(has_hypervisor_flag(guest));
    assert!(!has_hypervisor_flag(host));
    assert!(is_virtual_machine(Some(guest), None));
    assert!(!is_virtual_machine(Some(host), Some("ThinkPad X1")));
    assert!(is_virtual_machine(Some(host), Some("VirtualBox\n")));
    assert!(is_virtual_machine(None, Some("VMware7,1")));
    assert!(is_virtual_machine(None, Some("Standard PC (QEMU)")));
    assert!(is_virtual_machine(None, Some("KVM")));
    assert!(!is_virtual_machine(None, None));
    assert!(names_emulator("a kvm guest"));
    assert!(!names_emulator("KVM"));
}

#[test]
fn models_and_their_makers() {
    assert_eq!(cpu_model("vendor : x\nmodel name\t: AMD Ryzen 9 : odd\n"), "AMD Ryzen 9");
    assert_eq!(cpu_model("Hardware : BCM2711\nmodel name : later\n"), "BCM2711");
    assert_eq!(cpu_model("Processor without colon\nmodel name : later"), "Unknown");
    assert_eq!(cpu_model(""), "Unknown");
    assert_eq!(
        brand("AMD or Intel"),
        "\x1b[1;38;2;237;28;36mAMD\x1b[0m\x1b[1m or \x1b[1;38;2;0;113;197mIntel\x1b[0m\x1b[1m"
    );
    assert_eq!(brand("Apple ARM RISC-V IBM"), "Apple ARM RISC-V IBM"
        .replace("Apple", "\x1b[1;38;2;192;192;192mApple\x1b[0m\x1b[1m")
        .replace("ARM", "\x1b[1;38;2;0;193;222mARM\x1b[0m\x1b[1m")
        .replace("RISC-V", "\x1b[1;38;2;155;81;224mRISC-V\x1b[0m\x1b[1m")
        .replace("IBM", "\x1b[1;38;2;31;112;193mIBM\x1b[0m\x1b[1m"));
    assert_eq!(brand("plain"), "plain");
}

#[test]
fn processors_in_order() {
    let names = strings(&["cpu10", "cpufreq", "cpu2", "online", "cpu0", "cpu"]);
    assert_eq!(
        cpu_frequency_paths(&names),
        strings(&[
            "/sys/devices/system/cpu/cpu0/cpufreq/scaling_cur_freq",
            "/sys/devices/system/cpu/cpu2/cpufreq/scaling_cur_freq",
            "/sys/devices/system/cpu/cpu10/cpufreq/scaling_cur_freq",
        ])
    );
}

#[test]
fn frequencies_from_either_source() {
    let f = frequencies(&vec![Some(num(3600000.0)), Some(num(800500.0))]).unwrap();
    assert_eq!(back(&f[0]), 3600.0);
    assert_eq!(back(&f[1]), 800.5);
    assert!(frequencies(&vec![Some(num(1.0)), None]).is_none());
    assert!(frequencies(&Vec::new()).is_none());
    assert_eq!(back(&to_megahertz(num(4200000.0))), 4200.0);
    let info = "processor : 0\ncpu MHz\t\t: 2400.123\nBogoMIPS : 48.00\ncpu MHz\n";
    assert_eq!(described_frequencies(info), strings(&["2400.123", "48.00"]));
}

#[test]
fn sensors_by_their_files() {
    for chip in ["k10temp\n", "coretemp", " cpu_thermal", "soc_thermal", "pnv_thermal"] {
        assert!(is_cpu_sensor(chip, "temp12_input"), "{}", chip);
    }
    assert!(!is_cpu_sensor("nvme", "temp1_input"));
    assert!(!is_cpu_sensor("k10temp", "temp1_max") && !is_cpu_sensor("k10temp", "fan1_input"));
    assert_eq!(companion("temp1_input", "_crit"), "temp1_crit");
    let s = sensor("k10temp", "temp1_input", "/x/temp1_input", None, None, Some("Tctl\n"));
    assert_eq!(s.label, "Tctl");
    assert_eq!(back(&s.limit), 95000.0);
    assert!(s.is_parent);
    let s = sensor("coretemp", "temp3_input", "/x", Some(num(80000.0)), Some(num(100000.0)), Some("Core 1"));
    assert_eq!(back(&s.limit), 80000.0);
    assert!(!s.is_parent);
    let s = sensor("cpu_thermal", "temp1_input", "/x", None, Some(num(90000.0)), None);
    assert_eq!(s.label, "temp1");
    assert_eq!(back(&s.limit), 90000.0);
    assert!(s.is_parent);
}

fn chip(name: &str, files: &[(&str, Option<&str>)]) -> Chip {
    let file = |f: &(&str, Option<&str>)| ChipFile {
        name: f.0.to_string(),
        path: format!("/{}", f.0),
        max: Some(num(90000.0)),
        crit: None,
        label: f.1.map(String::from),
    };
    Chip { name: name.to_string(), files: files.iter().map(file).collect() }
}

#[test]
fn one_sensor_for_each_file_of_a_chip() {
    let chips = vec![
        chip("nvme\n", &[("temp1_input", None)]),
        chip("k10temp\n", &[("temp1_input", Some("Tctl\n")), ("temp1_max", None), ("name", None), ("temp3_input", None)]),
        chip("coretemp", &[("temp2_input", Some("Core 0"))]),
    ];
    let found = sensors(&chips);
    let told: Vec<(&str, &str, &str, bool)> = found
        .iter()
        .map(|s| (s.parent_name.as_str(), s.label.as_str(), s.input_path.as_str(), s.is_parent))
        .collect();
    assert_eq!(
        told,
        vec![
            ("k10temp", "Tctl", "/temp1_input", true),
            ("k10temp", "temp3", "/temp3_input", false),
            ("coretemp", "Core 0", "/temp2_input", false),
        ]
    );
    assert_eq!(back(&found[0].limit), 90000.0);
    assert!(sensors(&Vec::new()).is_empty());
}

fn two_chips() -> Vec<ThermalSensorDef> {
    vec![
        sensor("coretemp", "temp3_input", "/c3", Some(num(100000.0)), None, Some("Core 1")),
        sensor("coretemp", "temp1_input", "/c1", Some(num(100000.0)), None, Some("Package id 0")),
        sensor("k10temp", "temp1_input", "/k1", None, None, Some("Tdie")),
        sensor("coretemp", "temp2_input", "/c2", Some(num(100000.0)), None, Some("Core 0")),
    ]
}

#[test]
fn zones_by_chip_with_packages_first() {
    let readings = vec![Some(num(45000.0)), Some(num(50000.0)), Some(num(95001.0)), Some(num(40500.0))];
    let (zones, heal) = temperatures(&two_chips(), &readings, false);
    assert!(!heal);
    assert_eq!(zones.len(), 2);
    assert_eq!(zones[0].name, "coretemp");
    let labels: Vec<&str> = zones[0].value.stats.iter().map(|s| s.label.as_str()).collect();
    assert_eq!(labels, vec!["Package id 0", "Core 0", "Core 1"]);
    assert_eq!(back(&zones[0].value.stats[1].val), 40.5);
    assert_eq!(zones[0].value.stats[0].color, "\x1b[38;2;255;255;0m");
    assert_eq!(zones[1].value.stats[0].color, "\x1b[1;38;2;238;130;238m");
}

#[test]
fn unread_sensors_leave_a_mark() {
    let (zones, heal) = temperatures(&two_chips(), &vec![Some(num(45000.0)), None, Some(num(1.0))], true);
    assert!(heal);
    assert_eq!(zones.len(), 2);
    assert_eq!(zones[0].value.stats.len(), 1);
    assert_eq!(zones[1].name, "CPU Temps");
    assert_eq!(zones[1].value.stats[0].label, "VM");
    let (zones, heal) = temperatures(&Vec::new(), &Vec::new(), false);
    assert!(heal);
    assert_eq!(zones[0].value.stats[0].label, "N/A");
    assert_eq!(zones[0].value.stats[0].color, "\x1b[38;2;255;0;0m");
    assert_eq!(back(&zones[0].value.stats[0].val), 0.0);
}

#[test]
fn thermometers_are_read() {
    let out = "Found 1 devices\nDevice #0: 23.4°C 74.1°F\nDevice #1: 30.0°C\n";
    assert_eq!(thermometer_reading(out).as_deref(), Some("23.4"));
    assert_eq!(thermometer_reading("Device #0: broken"), None);
    assert_eq!(thermometer_reading("No devices"), None);
    assert_eq!(
        thermometer_candidates(Some("ann"), Some("/home/bob"))[4..],
        strings(&["/home/ann/.local/bin/temper-poll", "/home/bob/.local/bin/temper-poll"])
    );
    assert_eq!(thermometer_candidates(None, Some("/root/"))[4], "/root/.local/bin/temper-poll");
    assert_eq!(
        thermometer_candidates(None, None),
        strings(&[
            "/usr/local/bin/temper-poll",
            "/usr/bin/temper-poll",
            "/bin/temper-poll",
            "/opt/bin/temper-poll",
        ])
    );
}

#[test]
fn memory_lines() {
    let info = "MemTotal:       16777216 kB\nMemFree:  1 kB\nMemAvailable:    8388608 kB\n";
    assert_eq!(memory_kilobytes(info), (16777216, 8388608));
    assert_eq!(memory_kilobytes("MemTotal: x kB"), (0, 0));
    assert_eq!(memory_kilobytes(""), (0, 0));
    assert_eq!(
        ram_text(16777216, 8388608),
        "\x1b[38;2;255;255;0m\x1b[1m   8.0  GB\x1b[0m \x1b[1;37mUsed\x1b[0m | \x1b[38;2;255;255;0m\x1b[1m   8.0  GB\x1b[0m \
         \x1b[1;37mAvail\x1b[0m | \x1b[1;38;2;0;255;255m  16.0  GB\x1b[0m \x1b[1;37mTotal\x1b[0m"
    );
    assert!(ram_text(0, 0).starts_with("\x1b[38;2;0;200;0m\x1b[1m   0.0   B"));
}

#[test]
fn swap_lines_stand_below_each_other() {
    let text = "Filename Type Size Used Priority\n/dev/nvme0n1p3 partition 8388604 4194302 -2\n/swap file 1024 1023 -3\nbad\n";
    let devices = swap_devices(text);
    assert_eq!(devices.len(), 2);
    assert_eq!(devices[0].name, "nvme0n1p3");
    assert_eq!((devices[0].used, devices[0].size), (4194302, 8388604));
    let (used, whole) = swap_totals(&devices).unwrap();
    assert_eq!((used, whole), ((4194302 + 1023) * 1024, (8388604 + 1024) * 1024));
    let lines = swap_lines(&devices);
    assert_eq!(
        lines[0],
        " nvme0n1p3: \x1b[38;2;255;255;0m   4.0  GB\x1b[0m \x1b[0;37mUsed\x1b[0m / \x1b[38;2;0;255;255m   8.0  GB\x1b[0m \x1b[0;37mTotal\x1b[0m"
    );
    assert!(lines[1].starts_with(" swap     : \x1b[1;38;2;238;130;238m  1023  KB"));
    assert_eq!(strip_ansi(&lines[0]), strip_ansi(&lines[1]));
    assert!(swap_devices("").is_empty());
}

#[test]
fn swap_totals_in_one_line() {
    assert_eq!(
        swap_total_text(1024, 4096),
        "\x1b[38;2;128;228;0m\x1b[1m   1.0  KB\x1b[0m \x1b[1;37mUsed\x1b[0m | \x1b[1;38;2;0;255;255m\x1b[1m   4.0  KB\x1b[0m \
         \x1b[1;37mTotal\x1b[0m | \x1b[38;2;128;228;0m\x1b[1m25.0%\x1b[0m \x1b[0;37m%Used\x1b[0m"
    );
    let huge = vec![SwapDevice { name: "x".to_string(), used: 0, size: u64::MAX / 1024 + 1 }];
    assert_eq!(swap_totals(&huge), None);
}

#[test]
fn compressed_swap_in_each_state() {
    let text = |present, enabled, pool, pages, algo| zswap_status(present, enabled, pool, pages, algo).text();
    assert_eq!(text(false, None, None, None, None), "\x1b[38;2;238;130;238m\x1b[1mNot Present\x1b[0m");
    assert_eq!(text(true, None, None, None, None), "\x1b[38;2;255;255;0m\x1b[1mUnknown\x1b[0m");
    assert_eq!(text(true, Some("maybe"), None, None, None), "\x1b[38;2;255;255;0m\x1b[1mUnknown\x1b[0m");
    assert_eq!(text(true, Some("N\n"), None, None, None), "\x1b[38;2;255;0;0m\x1b[1mDisabled\x1b[0m");
    assert_eq!(
        text(true, Some("Y\n"), Some("1"), None, None),
        "\x1b[38;2;0;200;0m\x1b[1mEnabled\x1b[0m (\x1b[38;2;255;255;0m\x1b[1mRequires sudo for detailed stats\x1b[0m)"
    );
    assert_eq!(
        text(true, Some("Y"), Some("4096\n"), Some("4\n"), Some("zstd\n")),
        "\x1b[38;2;0;200;0m\x1b[1mEnabled\x1b[0m | \x1b[1mAlgo:\x1b[0m \x1b[38;2;0;200;0m\x1b[1mzstd\x1b[0m | \
         \x1b[1mPool:\x1b[0m \x1b[38;2;0;200;0m\x1b[1m   4.0  KB\x1b[0m | \x1b[1mRatio:\x1b[0m \
         \x1b[38;2;0;200;0m\x1b[1m4.0:1\x1b[0m"
    );
    assert_eq!(
        text(true, Some("Y"), Some("0"), Some("9"), None),
        "\x1b[38;2;0;200;0m\x1b[1mEnabled\x1b[0m | \x1b[1mAlgo:\x1b[0m \x1b[38;2;238;130;238m\x1b[1munknown\x1b[0m | \
         \x1b[1mPool:\x1b[0m \x1b[38;2;150;150;150m\x1b[1m   0.0   B\x1b[0m | \x1b[1mRatio:\x1b[0m \
         \x1b[0m\x1b[1m0.0:1\x1b[0m"
    );
    assert!(matches!(zswap_status(true, Some("Y"), Some("x"), Some("y"), None), ZswapStatus::Detailed { pool: 0, pages: 0, .. }));
}

#[test]
fn desktops_are_asked_in_turn() {
    let mut d = DesktopIdle::new();
    assert_eq!(d.first(), Some(Query::Gnome));
    assert_eq!(d.answer(Query::Gnome, Some("t 61500\n")), Answer::Idle(Span::new(61, 500_000_000)));
    assert_eq!(d.answer(Query::Gnome, None), Answer::Ask(Query::Kde));
    assert_eq!(d.answer(Query::Kde, Some("u 42")), Answer::Idle(Span::from_secs(42)));
    assert_eq!(d.answer(Query::Kde, Some("u 4294967296")), Answer::Ask(Query::X11));
    assert_eq!(d.answer(Query::X11, Some(" 999\n")), Answer::Idle(Span::from_millis(999)));
    assert_eq!(d.first(), Some(Query::Gnome));
    assert_eq!(d.answer(Query::X11, Some("t 5")), Answer::Unavailable);
    assert_eq!(d.first(), None);
}

#[test]
fn commands_for_desktops() {
    assert_eq!(command(Query::X11, None), strings(&["xprintidle"]));
    assert_eq!(
        command(Query::Kde, None),
        strings(&[
            "busctl",
            "--user",
            "call",
            "org.kde.Screensaver",
            "/ScreenSaver",
            "org.kde.Screensaver",
            "GetSessionIdleTime",
        ])
    );
    let sudo = command(Query::Gnome, Some("ann"));
    assert_eq!(sudo[..5], strings(&["sudo", "-u", "ann", "sh", "-c"]));
    assert_eq!(
        sudo[5],
        "XDG_RUNTIME_DIR=/run/user/$(id -u ann) DISPLAY=${DISPLAY:-:0} busctl --user call \
         org.gnome.Mutter.IdleMonitor /org/gnome/Mutter/IdleMonitor/Core org.gnome.Mutter.IdleMonitor GetIdletime"
    );
    assert_eq!(command(Query::X11, Some("ann"))[5], "XDG_RUNTIME_DIR=/run/user/$(id -u ann) DISPLAY=${DISPLAY:-:0} xprintidle ");
}

fn listed(names: &[&str]) -> Vec<Listed> {
    names.iter().map(|n| Listed { name: n.to_string(), path: n.as_bytes().to_vec(), files: Vec::new() }).collect()
}

#[test]
fn devices_tell_of_a_user() {
    let mut t = UserIdleTracker::new(&listed(&["event0"]), &listed(&["0", "ptmx"]), &listed(&["sda", "tty1", "ttyS0"]));
    let paths: Vec<Vec<u8>> = ["event0", "0", "ptmx", "tty1", "ttyS0"].iter().map(|n| n.as_bytes().to_vec()).collect();
    assert_eq!(t.paths(), &paths);
    let early = Span::new(100, 5);
    assert!(t.input_changed(early));
    assert!(!t.input_changed(early));
    assert!(!t.input_changed(Span::new(99, 9)));
    assert!(t.input_changed(Span::new(100, 6)));
    t.discover_idle_paths(&listed(&["event1", "event2"]), &Vec::new(), &listed(&["tty0"]));
    assert_eq!(t.paths(), &vec![b"event1".to_vec(), b"event2".to_vec(), b"tty0".to_vec()]);
    let now = Span::from_secs(1000);
    let newest = |a, b, c| t.newest_touch(&vec![a, b, c]);
    let at = |secs, nanos| Touch::At(Span::new(secs, nanos));
    assert_eq!(newest(Touch::Timeless, at(900, 1), at(400, 0)), (Span::new(900, 1), false));
    assert_eq!(newest(at(900, 0), at(900, 250), Touch::Timeless), (Span::new(900, 250), false));
    assert_eq!(newest(Touch::Missing, Touch::At(now), Touch::Timeless), (now, true));
    assert_eq!(newest(Touch::Timeless, Touch::Timeless, Touch::Timeless), (Span::from_secs(0), false));
    let none = UserIdleTracker::new(&Vec::new(), &Vec::new(), &Vec::new());
    assert_eq!(none.newest_touch(&Vec::new()), (Span::from_secs(0), false));
    assert_eq!(UserIdleTracker::get_user_idle_time(Span::new(900, 250), now), Span::new(99, 999_999_750));
    assert_eq!(UserIdleTracker::get_user_idle_time(Span::from_secs(2000), now), Span::from_secs(0));
}

#[test]
fn spans_to_the_nanosecond() {
    let t = Span::from_millis(61_500);
    assert_eq!((t.as_secs(), t.subsec_nanos()), (61, 500_000_000));
    assert_eq!(Span::from_millis(u64::MAX).as_secs(), u64::MAX / 1000);
    assert_eq!(Span::new(5, 2).beyond(&Span::new(3, 7)), Span::new(1, 999_999_995));
    assert_eq!(Span::new(5, 7).beyond(&Span::new(3, 2)), Span::new(2, 5));
    assert_eq!(Span::new(3, 7).beyond(&Span::new(5, 2)), Span::from_secs(0));
    assert!(Span::new(3, 7).exceeds(&Span::new(3, 6)) && !Span::new(3, 7).exceeds(&Span::new(3, 7)));
    assert!(!Span::new(3, 7).exceeds(&Span::new(4, 0)));
}

fn found(input: &[&str]) -> Devices {
    Devices { input: listed(input), terminals: Vec::new(), all: Vec::new() }
}

#[test]
fn rounds_of_asking() {
    let replied = |s: Option<&str>| IdleEvent::Replied(s.map(String::from));
    let mut w = IdleWatch::new(&found(&["event0"]));
    // The desktop answers, and the devices are left alone.
    assert_eq!(w.step(IdleEvent::Wanted), IdleAction::Ask(Query::Gnome));
    assert_eq!(w.step(replied(Some("t 1500"))), IdleAction::Done(Span::from_millis(1500)));
    assert_eq!(w.paths(), &vec![b"event0".to_vec()]);
    // No desktop knows: the directory is news, and its files are listed before they are read.
    assert_eq!(w.step(IdleEvent::Wanted), IdleAction::Ask(Query::Gnome));
    assert_eq!(w.step(replied(None)), IdleAction::Ask(Query::Kde));
    assert_eq!(w.step(replied(Some("no"))), IdleAction::Ask(Query::X11));
    assert_eq!(w.step(replied(None)), IdleAction::Date);
    assert_eq!(w.step(IdleEvent::Dated(Some(Span::from_secs(7)))), IdleAction::Look);
    assert_eq!(w.step(IdleEvent::Found(found(&["event1", "event2"]))), IdleAction::Touch);
    assert_eq!(w.paths(), &vec![b"event1".to_vec(), b"event2".to_vec()]);
    let now = Span::new(100, 5);
    // What does not fit changes nothing.
    assert_eq!(w.step(IdleEvent::Touched(vec![Touch::Timeless])), IdleAction::Touch);
    assert_eq!(w.step(IdleEvent::Wanted), IdleAction::Touch);
    let touches = vec![Touch::At(Span::from_secs(90)), Touch::At(Span::from_secs(80))];
    assert_eq!(w.step(IdleEvent::Touched(touches)), IdleAction::Time(Span::from_secs(90)));
    assert_eq!(w.step(IdleEvent::Timed(now)), IdleAction::Done(Span::new(10, 5)));
    // No desktop is asked again, the directory is no news, and a missing path heals.
    assert_eq!(w.step(IdleEvent::Wanted), IdleAction::Date);
    assert_eq!(w.step(IdleEvent::Dated(Some(Span::from_secs(7)))), IdleAction::Touch);
    let touches = vec![Touch::Missing, Touch::At(Span::from_secs(99))];
    assert_eq!(w.step(IdleEvent::Touched(touches)), IdleAction::Heal(Span::from_secs(99)));
    assert_eq!(w.step(IdleEvent::Timed(now)), IdleAction::Heal(Span::from_secs(99)));
    assert_eq!(w.step(IdleEvent::Found(found(&["event2"]))), IdleAction::Time(Span::from_secs(99)));
    assert_eq!(w.step(IdleEvent::Timed(now)), IdleAction::Done(Span::new(1, 5)));
    assert_eq!(w.paths(), &vec![b"event2".to_vec()]);
    assert_eq!(w.step(IdleEvent::Wanted), IdleAction::Date);
    assert_eq!(w.step(IdleEvent::Dated(None)), IdleAction::Touch);
}

#[test]
fn marked_ones_in_order() {
    let list = strings(&["a", "b", "c", "d"]);
    assert_eq!(marked_texts(&list, &vec![false, true, false, true]), strings(&["b", "d"]));
    assert_eq!(marked_texts(&list, &vec![true]), strings(&["a"]));
    assert_eq!(first_marked_text(&list, &vec![false, false, true, true]).as_deref(), Some("c"));
    assert_eq!(first_marked_text(&list, &vec![false, false]), None);
}

#[test]
fn devices_below_a_directory_tell_too() {
    let mut input = listed(&["by-id", "event0"]);
    input[0].files = listed(&["mouse", "deep"]);
    input[0].files[1].files = listed(&["deeper"]);
    let mut devices = listed(&["serial", "tty0"]);
    devices[0].files = listed(&["ttyUSB0", "port"]);
    let t = UserIdleTracker::new(&input, &Vec::new(), &devices);
    let paths: Vec<Vec<u8>> = ["by-id", "mouse", "deep", "deeper", "event0", "ttyUSB0", "tty0"]
        .iter()
        .map(|n| n.as_bytes().to_vec())
        .collect();
    assert_eq!(t.paths(), &paths);
}
