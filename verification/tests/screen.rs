use cpu_grid::binary64::Real;
use cpu_grid::layout::strip_ansi;
use cpu_grid::network::{Change, NetEvent, NetNode};
use cpu_grid::render::{Erase, Row, Screen};
use cpu_grid::span::Span;
use cpu_grid::state::{Flow, Input, MemStats, Msg, SystemState};
use cpu_grid::storage::{DiskNodeRaw, DiskStats};
use cpu_grid::table::Entry;
use cpu_grid::thermal::{Chiplets, TempStat};

const SECOND: u64 = 1_000_000_000;
const GOLD: &str = "\x1b[1;38;2;255;215;0m";
const VIOLET: &str = "\x1b[1;38;2;238;130;238m";

fn num(x: f64) -> Real {
    Real::from_bits(x.to_bits())
}

fn nums(v: &[f64]) -> Vec<Real> {
    v.iter().map(|x| num(*x)).collect()
}

fn state(width: u16, height: u16) -> SystemState {
    SystemState::new("Model".to_string(), false, (Some(num(400.0)), Some(num(4400.0))), width, height, 0)
}

fn drawn(s: &mut SystemState, now: u64, bright: bool) -> (Vec<Row>, bool) {
    match s.draw("4.0.0", now, bright) {
        Some(Screen::Rows { rows, erase_below }) => (rows, erase_below),
        Some(Screen::TooSmall) => panic!("too small"),
        None => panic!("nothing to draw"),
    }
}

fn find<'a>(rows: &'a [Row], part: &str) -> &'a Row {
    rows.iter().find(|r| r.text.contains(part)).unwrap()
}

fn node(iface: &str, rx: f64, tx: f64, max: f64) -> NetNode {
    NetNode { iface: iface.to_string(), rx: num(rx), tx: num(tx), max: num(max) }
}

fn disk(mount: &str, used: u64, total: u64, r: f64, w: f64, dev: &str) -> DiskNodeRaw {
    DiskNodeRaw {
        mount_padded: format!(" {}: ", mount),
        used_bytes: used,
        total_bytes: total,
        capacity_color: "\x1b[38;2;0;200;0m".to_string(),
        r_speed: num(r),
        w_speed: num(w),
        raw_dev_name: dev.to_string(),
    }
}

fn stat(label: &str, val: f64, is_parent: bool) -> TempStat {
    TempStat { label: label.to_string(), val: num(val), color: "\x1b[32m".to_string(), is_parent }
}

fn zone(name: &str, stats: Vec<TempStat>) -> Entry<Chiplets> {
    Entry { name: name.to_string(), value: Chiplets { stats } }
}

#[test]
fn first_screen_says_what_is_missing() {
    let mut s = state(80, 40);
    let (rows, erase_below) = drawn(&mut s, 0, true);
    let texts: Vec<&str> = rows.iter().map(|r| r.text.as_str()).collect();
    assert_eq!(texts[0], format!("{}CPU-Grid ver:4.0.0\x1b[0m", GOLD));
    assert_eq!(texts[1], "\x1b[1mModel\x1b[0m");
    assert_eq!(texts[2], "\x1b[1;35mType 'Q' or Ctrl+C to quit.\x1b[0m");
    assert_eq!(
        texts[3],
        "\x1b[1mHardware Limits:\x1b[0m \x1b[1;38;2;100;255;100m400\x1b[0m MHz Min | \x1b[1;38;2;255;0;0m4400\x1b[0m MHz Max"
    );
    assert_eq!(texts[4], "\x1b[1mUser Activity:\x1b[0m \x1b[1m\x1b[38;2;0;255;255mACTIVE\x1b[0m");
    assert_eq!(texts[5], format!("{} {}Temperature Heat-Map\x1b[0m {}", "-".repeat(29), GOLD, "-".repeat(29)));
    assert_eq!(rows[5].erase, Erase::Before);
    assert_eq!(texts[6], "\x1b[1mRoom Temp:\x1b[0m \x1b[38;2;255;0;0mNo thermometer detected\x1b[0m");
    assert!(texts[7].contains("Error: Core Frequencies cannot be accessed"));
    assert!(texts[8].contains("Memory Heat-Map"));
    assert_eq!(texts[9], "\x1b[1mRAM:\x1b[0m Loading...");
    assert_eq!(texts[10], "\x1b[1mZswap:\x1b[0m Loading...");
    assert_eq!(texts[11], "\x1b[1mSwap:\x1b[0m Loading...");
    assert!(texts[12].contains("Network Heat-Map"));
    assert!(texts[14].contains("Storage Heat-Map"));
    assert_eq!(texts[16], "-".repeat(80));
    assert_eq!(rows.len(), 17);
    assert_eq!(rows[16].erase, Erase::After);
    assert!(erase_below);
}

#[test]
fn screens_are_drawn_when_something_changes() {
    let mut s = state(80, 40);
    assert!(s.draw("4.0.0", 0, true).is_some());
    assert!(s.draw("4.0.0", 0, true).is_none());
    assert_eq!(s.handle(Msg::Tick, 1), Flow::Continue);
    assert!(s.draw("4.0.0", 1, true).is_none());
    assert_eq!(s.handle(Msg::InputEvent(Input::Other), 1), Flow::Continue);
    assert!(s.draw("4.0.0", 1, true).is_none());
    s.handle(Msg::UserIdle(Span::new(65, 999_999_999)), 2);
    let (rows, _) = drawn(&mut s, 2, true);
    assert_eq!(rows[4].text, "\x1b[1mUser Activity:\x1b[0m \x1b[1m\x1b[38;2;0;200;0mIDLE 01:05\x1b[0m");
    s.handle(Msg::InputEvent(Input::Resize(100, 50)), 3);
    let (rows, _) = drawn(&mut s, 3, true);
    assert_eq!(strip_ansi(&rows[5].text), 100);
}

#[test]
fn keys_that_quit() {
    let mut s = state(80, 24);
    let key = |code, control| Msg::InputEvent(Input::Key { code, control });
    assert_eq!(s.handle(key('q', false), 0), Flow::Quit);
    assert_eq!(s.handle(key('Q', false), 0), Flow::Quit);
    assert_eq!(s.handle(key('c', true), 0), Flow::Quit);
    assert_eq!(s.handle(key('c', false), 0), Flow::Continue);
    assert_eq!(s.handle(key('x', true), 0), Flow::Continue);
}

#[test]
fn narrow_and_short_terminals() {
    let mut s = state(16, 24);
    assert!(matches!(s.draw("4.0.0", 0, true), Some(Screen::TooSmall)));
    let mut s = state(17, 3);
    let (rows, erase_below) = drawn(&mut s, 0, true);
    assert_eq!(rows.len(), 3);
    assert!(!erase_below);
    let mut s = state(80, 0);
    assert_eq!(drawn(&mut s, 0, true).0.len(), 0);
    let mut s = state(80, 17);
    let (rows, erase_below) = drawn(&mut s, 0, true);
    assert_eq!(rows.len(), 17);
    assert_eq!(rows[16].text, "-".repeat(79));
    assert_eq!(rows[16].erase, Erase::Never);
    assert!(!erase_below);
}

#[test]
fn cores_in_their_grid() {
    let mut s = state(40, 60);
    s.handle(Msg::CpuFreqs(nums(&[400.0, 2400.0, 4500.0])), SECOND);
    let (rows, _) = drawn(&mut s, SECOND, true);
    let at = rows.iter().position(|r| r.text.contains("Core Heat-Map")).unwrap();
    assert_eq!(
        rows[at + 1].text,
        "C00: \x1b[38;2;0;200;0m400.00 MHz\x1b[0m | C01: \x1b[38;2;255;255;0m2.4000 GHz\x1b[0m"
    );
    assert_eq!(rows[at + 2].text, format!("C02: {}4.5000 GHz\x1b[0m | ", VIOLET));
    assert_eq!(rows[at + 1].erase, Erase::Before);
    assert_eq!(
        rows[3].text,
        format!(
            "\x1b[1mHardware Limits:\x1b[0m \x1b[1;38;2;100;255;100m400\x1b[0m MHz Min | \x1b[1;38;2;255;0;0m4400\x1b[0m MHz Max | {}\x1b[1mHOC: {}\x1b[1m4.50G\x1b[0m",
            VIOLET, VIOLET
        )
    );
}

#[test]
fn overclocks_are_kept() {
    let mut s = state(80, 60);
    s.handle(Msg::CpuFreqs(nums(&[4400.0])), SECOND);
    assert!(!drawn(&mut s, SECOND, true).0[3].text.contains("HOC"));
    s.handle(Msg::CpuFreqs(nums(&[4600.0, 4450.0])), SECOND);
    s.handle(Msg::CpuFreqs(nums(&[4500.0])), 9 * SECOND);
    assert!(drawn(&mut s, 9 * SECOND, false).0[3].text.contains("4.60G"));
    s.handle(Msg::Tick, 10 * SECOND);
    assert!(s.draw("4.0.0", 10 * SECOND, true).is_none());
    s.handle(Msg::CpuFreqs(nums(&[4700.0])), 11 * SECOND);
    s.draw("4.0.0", 11 * SECOND, true);
    s.handle(Msg::Tick, 12 * SECOND);
    assert!(drawn(&mut s, 12 * SECOND, false).0[3].text.ends_with("\x1b[1;37mHOC: \x1b[1;37m4.70G\x1b[0m"));
}

#[test]
fn machines_without_limits() {
    let mut s = SystemState::new("M".to_string(), true, (None, Some(num(1.0))), 80, 40, 0);
    s.handle(Msg::CpuFreqs(nums(&[2_500_000.0])), 0);
    let (rows, _) = drawn(&mut s, 0, true);
    assert!(rows[3].text.starts_with("\x1b[1mHardware Limits:\x1b[0m \x1b[38;2;255;165;0mVM detected, limits not exposed\x1b[0m"));
    find(&rows, "VM Guest Detected");
    assert_eq!(find(&rows, "C00").text, "C00: 2.5000 THz\x1b[0m");
    let mut s = SystemState::new("M".to_string(), false, (None, None), 80, 40, 0);
    let (rows, _) = drawn(&mut s, 0, true);
    assert_eq!(rows[3].text, "\x1b[1mHardware Limits:\x1b[0m \x1b[38;2;255;0;0mUnavailable\x1b[0m");
}

#[test]
fn temperatures_with_their_highest() {
    let mut s = state(80, 60);
    let zones = |pkg: f64| {
        vec![zone("coretemp", vec![stat("Package id 0", pkg, true), stat("Core 0", 44.5, false)]), zone("none", vec![])]
    };
    s.handle(Msg::CpuTemps(zones(50.0)), SECOND);
    s.handle(Msg::CpuTemps(zones(55.25)), 2 * SECOND);
    s.handle(Msg::CpuTemps(zones(48.0)), 10 * SECOND);
    let (rows, _) = drawn(&mut s, 10 * SECOND, true);
    let at = rows.iter().position(|r| r.text == "\x1b[1mCPU Temps (coretemp):\x1b[0m").unwrap();
    assert_eq!(
        rows[at + 1].text,
        "\x1b[1mPackage id 0: \x1b[32m48.0°C\x1b[0m | \x1b[1;37mHT: \x1b[32m\x1b[1m55.2°C\x1b[0m |       Core 0: \x1b[32m44.5°C\x1b[0m"
    );
    assert!(rows[at + 2].text.contains("Core Freq"));
}

#[test]
fn rooms_and_their_warning() {
    let mut s = state(120, 60);
    s.handle(Msg::RoomTemp(Some(num(24.0))), SECOND);
    let (rows, _) = drawn(&mut s, SECOND, true);
    assert_eq!(
        rows[6].text,
        "\x1b[1mRoom Temp:\x1b[0m \x1b[38;2;0;200;0m\x1b[1m24.0°C\x1b[0m | \x1b[1;37mLRT: \x1b[38;2;0;200;0m\x1b[1m24.0°C\x1b[0m | \x1b[1;37mHRT: \x1b[38;2;0;200;0m\x1b[1m24.0°C\x1b[0m"
    );
    s.handle(Msg::RoomTemp(Some(num(40.0))), 10 * SECOND);
    s.handle(Msg::RoomTemp(Some(num(23.5))), 20 * SECOND);
    let (rows, _) = drawn(&mut s, 20 * SECOND, false);
    assert!(rows[6].text.contains("\x1b[1;37mLRT: \x1b[1;37m23.5°C"));
    assert!(rows[6].text.contains("40.0°C"));
    assert!(rows[6].text.ends_with(
        " \x1b[38;2;255;165;0mWARNING:\x1b[0m \x1b[1;38;2;238;130;238mAmbient Temp is too HOT! Consider Shutting Down!\x1b[0m"
    ));
    s.handle(Msg::RoomTemp(None), 30 * SECOND);
    assert_eq!(
        drawn(&mut s, 30 * SECOND, true).0[6].text,
        "\x1b[1mRoom Temp:\x1b[0m \x1b[38;2;255;0;0mNo thermometer detected\x1b[0m \x1b[1;38;2;255;165;0mWARNING:\x1b[0m \x1b[1;38;2;238;130;238mAmbient Temp is too HOT! Consider Shutting Down!\x1b[0m"
    );
    s.handle(Msg::RoomTemp(Some(num(23.5))), 40 * SECOND);
    s.handle(Msg::UserIdle(Span::from_secs(0)), 309 * SECOND);
    assert!(drawn(&mut s, 309 * SECOND, true).0[6].text.contains("\x1b[1;38;2;255;165;0mWARNING:"));
    s.handle(Msg::UserIdle(Span::from_secs(0)), 310 * SECOND);
    assert!(!drawn(&mut s, 310 * SECOND, true).0[6].text.contains("WARNING"));
    s.handle(Msg::RoomTemp(None), 311 * SECOND);
    assert!(drawn(&mut s, 311 * SECOND, true).0[6].text.contains("No thermometer detected"));
}

#[test]
fn memory_in_two_columns() {
    let mut s = state(30, 60);
    s.handle(
        Msg::MemStats(MemStats {
            ram_str: "ram".to_string(),
            zswap_str: "zswap".to_string(),
            swap_total_str: "swap".to_string(),
            swaps_formatted: vec![" a: 1".to_string(), " b: 22".to_string(), " c".to_string()],
        }),
        0,
    );
    let (rows, _) = drawn(&mut s, 0, true);
    assert_eq!(find(&rows, "RAM").text, "\x1b[1mRAM:\x1b[0m ram");
    assert_eq!(find(&rows, "Zswap").text, "\x1b[1mZswap:\x1b[0m zswap");
    let at = rows.iter().position(|r| r.text == "\x1b[1mSwap:\x1b[0m swap").unwrap();
    assert_eq!(rows[at + 1].text, " a: 1 |  b: 22");
    assert_eq!(rows[at + 2].text, " c");
    assert_eq!(rows[at + 2].erase, Erase::After);
}

#[test]
fn networks_with_their_peaks() {
    let mut s = state(120, 60);
    s.handle(Msg::NetStats(vec![node("eth0", 1024.0, 0.0, 125000000.0)]), SECOND);
    s.handle(Msg::NetStats(vec![node("eth0", 2048.0, 512.0, 125000000.0)]), 20 * SECOND);
    s.handle(Msg::NetStats(vec![node("eth0", 0.0, 0.0, 125000000.0)]), 30 * SECOND);
    let (rows, _) = drawn(&mut s, 30 * SECOND, true);
    let green = "\x1b[38;2;0;200;0m\x1b[1m";
    let tail = format!(
        "{g}   0.0   B/s\x1b[0m \x1b[1;37m↓\x1b[0m  {g}   0.0   B/s\x1b[0m \x1b[1;37m↑\x1b[0m  \x1b[1;37mH↓: {g}   2.0  KB/s\x1b[0m  \x1b[1;37mH↑: {g} 512.0   B/s\x1b[0m",
        g = green
    );
    assert_eq!(find(&rows, "Net Total").text, format!("\x1b[1mNet Total:\x1b[0m {}", tail));
    assert_eq!(find(&rows, "eth0").text, format!("     eth0: {}", tail));
}

#[test]
fn comings_and_goings_are_told_for_five_seconds() {
    let mut s = state(120, 60);
    s.handle(Msg::NetStats(vec![node("eth0", 0.0, 0.0, 1.0)]), SECOND);
    s.handle(Msg::NetEvent(NetEvent { iface: "eth0".to_string(), change: Change::Activated }), SECOND);
    s.handle(Msg::NetEvent(NetEvent { iface: "usb0".to_string(), change: Change::Deactivated }), SECOND);
    let (rows, _) = drawn(&mut s, 6 * SECOND - 1, true);
    assert_eq!(
        find(&rows, "eth0").text,
        "     eth0: \x1b[1m\x1b[38;2;0;200;0mACTIVATED\x1b[0m\x1b[0m |      usb0: \x1b[38;2;255;255;0m\x1b[1mDEACTIVATED\x1b[0m"
    );
    s.handle(Msg::UserIdle(Span::from_secs(0)), 6 * SECOND);
    let (rows, _) = drawn(&mut s, 6 * SECOND, true);
    assert!(find(&rows, "eth0").text.contains("↓"));
    assert!(!rows.iter().any(|r| r.text.contains("usb0")));
}

fn two_disks() -> DiskStats {
    DiskStats {
        disk_nodes: vec![
            disk("/    ", 512, 1024, 0.0, 4096.0, "sda1"),
            disk("/boot", 10, 1024, 0.0, 0.0, "sda2"),
        ],
        agg_total: 2048,
        agg_used: 522,
    }
}

#[test]
fn storage_side_by_side_or_split() {
    let mut s = state(200, 60);
    s.handle(Msg::DiskStats(two_disks()), SECOND);
    let (rows, _) = drawn(&mut s, SECOND, true);
    let green = "\x1b[38;2;0;200;0m\x1b[1m";
    let quiet = format!(
        "{g}  0.0 B/s\x1b[0m \x1b[1;37mR↑\x1b[0m  {g}  4.0 K/s\x1b[0m \x1b[1;37mW↓\x1b[0m  \x1b[1;37mHR: {v}\x1b[1m  0.0 B/s\x1b[0m  \x1b[1;37mHW: {v}\x1b[1m  0.0 B/s\x1b[0m",
        g = green,
        v = VIOLET
    );
    let total = format!(
        "{g} 522.0   B\x1b[0m \x1b[1;37mUsed\x1b[0m | \x1b[1;38;2;0;255;255m   2.0  KB\x1b[0m \x1b[1;37mTotal\x1b[0m | {g}25.5%\x1b[0m \x1b[0;37m%Used\x1b[0m",
        g = green
    );
    let cap = " /    : \x1b[38;2;0;200;0m 512.0   B\x1b[0m \x1b[0;37mUsed\x1b[0m / \x1b[1;38;2;0;255;255m   1.0  KB\x1b[0m \x1b[0;37mTotal\x1b[0m";
    assert_eq!(
        find(&rows, "Storage Total").text,
        format!("\x1b[1mStorage Total:\x1b[0m {} | {}", total, quiet)
    );
    assert!(find(&rows, " /    : ").text.starts_with(&format!("{} | {}", cap, quiet)));
    find(&rows, "Storage Heat-Map");

    s.handle(Msg::InputEvent(Input::Resize(60, 60)), 2 * SECOND);
    let (rows, _) = drawn(&mut s, 2 * SECOND, true);
    assert_eq!(find(&rows, "Storage Space Total").text, format!("\x1b[1mStorage Space Total:\x1b[0m {}", total));
    assert_eq!(
        find(&rows, "\x1b[1mTotal:").text,
        format!("\x1b[1mStorage \x1b[1m↓↑\x1b[0m \x1b[1mTotal:\x1b[0m {}", quiet)
    );
    assert!(rows.iter().any(|r| r.text == cap));
    assert!(rows.iter().any(|r| r.text == format!(" /    : {}", quiet)));
    assert_eq!(strip_ansi(&find(&rows, "Storage Space Heat-Map").text), 60);
    find(&rows, "Storage \x1b[1m↓↑\x1b[0m \x1b[1;38;2;255;215;0mHeat-Map\x1b[0m");
}

#[test]
fn storage_peaks_on_the_screen() {
    let mut s = state(200, 60);
    s.handle(Msg::DiskStats(two_disks()), SECOND);
    s.handle(Msg::DiskStats(two_disks()), 3 * SECOND);
    let (rows, _) = drawn(&mut s, 3 * SECOND, false);
    assert!(find(&rows, " /    : ").text.contains("\x1b[1;37mHW: \x1b[1;37m  4.0 K/s\x1b[0m"));
    assert!(find(&rows, " /    : ").text.contains("\x1b[1;31m\x1b[1m  4.0 K/s"));
    s.handle(Msg::Tick, 5 * SECOND);
    assert!(s.draw("4.0.0", 5 * SECOND, true).is_some());
    s.handle(Msg::Tick, 7 * SECOND);
    assert!(s.draw("4.0.0", 7 * SECOND, true).is_none());
    let mut full = two_disks();
    full.disk_nodes[1].used_bytes = 1000;
    s.handle(Msg::DiskStats(full), 8 * SECOND);
    let (rows, _) = drawn(&mut s, 8 * SECOND, true);
    assert!(find(&rows, "Storage Total").text.starts_with(&format!("\x1b[1mStorage Total:\x1b[0m {}\x1b[1m", VIOLET)));
}

#[test]
fn devices_that_leave_are_forgotten() {
    let mut s = state(200, 60);
    s.handle(Msg::DiskStats(two_disks()), SECOND);
    s.handle(Msg::DiskStats(two_disks()), 3 * SECOND);
    s.draw("4.0.0", 3 * SECOND, true);
    s.handle(Msg::DiskStats(DiskStats { disk_nodes: Vec::new(), agg_total: 0, agg_used: 0 }), 4 * SECOND);
    s.draw("4.0.0", 4 * SECOND, true);
    s.handle(Msg::DiskStats(two_disks()), 20 * SECOND);
    let (rows, _) = drawn(&mut s, 20 * SECOND, true);
    assert!(find(&rows, " /    : ").text.contains("HW: \x1b[1;38;2;238;130;238m\x1b[1m  0.0 B/s"));
}
