use cpu_grid::binary64::Real;
use cpu_grid::network::{interface_counters, Change, Counters, NetMeter};
use cpu_grid::storage::{
    device_counters, is_countable, mounts_are_stale, storage_mounts, volumes, DeviceCounters, DiskMeter, Mount, Usage,
    Volume,
};

const SECOND: u64 = 1_000_000_000;

fn num(x: f64) -> Real {
    Real::from_bits(x.to_bits())
}

fn back(x: &Real) -> f64 {
    f64::from_bits(x.to_bits())
}

fn counters(iface: &str, rx: u64, tx: u64, mbps: Option<f64>) -> Counters {
    Counters { iface: iface.to_string(), rx, tx, mbps: mbps.map(num) }
}

#[test]
fn counters_of_interfaces() {
    let table = "Inter-|   Receive  |  Transmit\n face |bytes    packets errs drop fifo frame compressed multicast|bytes packets errs drop fifo colls carrier compressed\n\
                 \x20   lo: 9 1 0 0 0 0 0 0 9 1 0 0 0 0 0 0\n\
                 \x20 eth0: 1000 1 0 0 0 0 0 0 2000 1 0 0 0 0 0 0\n\
                 wlan0: x 1 0 0 0 0 0 0 7 1 0 0 0 0 0 0\n\
                 short: 1 2 3\n";
    let all = interface_counters(table);
    assert_eq!(all.len(), 2);
    assert_eq!((all[0].iface.as_str(), all[0].rx, all[0].tx), ("eth0", 1000, 2000));
    assert_eq!((all[1].iface.as_str(), all[1].rx, all[1].tx), ("wlan0", 0, 7));
    assert!(all[0].mbps.is_none());
    assert!(interface_counters("one line").is_empty());
}

#[test]
fn interfaces_come_and_go() {
    let mut m = NetMeter::new();
    assert!(!m.knows("eth0"));
    let (nodes, events) = m.step(&vec![counters("eth0", 1000, 0, None), counters("wlan0", 5, 5, Some(300.0))], SECOND);
    assert_eq!(back(&nodes[0].rx), 0.0);
    assert_eq!(back(&nodes[0].max), 125000000.0);
    assert_eq!(back(&nodes[1].max), 37500000.0);
    let told: Vec<(&str, Change)> = events.iter().map(|e| (e.iface.as_str(), e.change)).collect();
    assert_eq!(told, vec![("eth0", Change::Activated), ("wlan0", Change::Activated)]);
    assert!(m.knows("eth0") && m.knows("wlan0"));

    let (nodes, events) = m.step(&vec![counters("eth0", 5000, 100, Some(10.0))], 3 * SECOND);
    assert_eq!(nodes.len(), 1);
    assert_eq!(back(&nodes[0].rx), 2000.0);
    assert_eq!(back(&nodes[0].tx), 50.0);
    assert_eq!(back(&nodes[0].max), 125000000.0);
    let told: Vec<(&str, Change)> = events.iter().map(|e| (e.iface.as_str(), e.change)).collect();
    assert_eq!(told, vec![("wlan0", Change::Deactivated)]);
    assert!(!m.knows("wlan0"));

    let (nodes, _) = m.step(&vec![counters("eth0", 10, 100, None)], 4 * SECOND);
    assert_eq!(back(&nodes[0].rx), 0.0);
}

#[test]
fn interfaces_that_come_back_state_their_speed_anew() {
    let mut m = NetMeter::new();
    m.step(&vec![counters("usb0", 1, 1, Some(100.0))], 0);
    m.step(&Vec::new(), SECOND);
    let (nodes, events) = m.step(&vec![counters("usb0", 9, 9, Some(1000.0))], 2 * SECOND);
    assert_eq!(back(&nodes[0].max), 125000000.0);
    assert_eq!(back(&nodes[0].rx), 0.0);
    assert_eq!(events[0].change, Change::Activated);
}

#[test]
fn mounts_of_storage() {
    let list = "/dev/sda2 / ext4 rw 0 0\nproc /proc proc rw 0 0\n/dev/sdb1 /mnt/a\\040b vfat rw 0 0\ntank /tank zfs rw\n";
    let all = storage_mounts(list);
    assert_eq!(all.len(), 2);
    assert_eq!((all[0].device.as_str(), all[0].path.as_str(), all[0].kind.as_str()), ("/dev/sda2", "/", "ext4"));
    assert_eq!(all[1].path, "/mnt/a\\040b");
    assert!(storage_mounts("/dev/x /a\0b ext4 rw 0 0").is_empty());
}

#[test]
fn mounts_are_read_every_ten_seconds() {
    assert!(mounts_are_stale(None, 0));
    assert!(!mounts_are_stale(Some(SECOND), 11 * SECOND - 1));
    assert!(mounts_are_stale(Some(SECOND), 11 * SECOND));
}

fn mount(device: &str, path: &str, kind: &str) -> Mount {
    Mount { device: device.to_string(), path: path.to_string(), kind: kind.to_string() }
}

fn usage(blocks: u64, free: u64, fsid: u64) -> Option<Usage> {
    Some(Usage { blocks, free, unit: 1024, fsid })
}

fn some_volumes() -> Vec<Volume> {
    let mounts = vec![
        mount("/dev/sda2", "/var/lib/data", "btrfs"),
        mount("/dev/sda2", "/", "btrfs"),
        mount("/dev/sdb1", "/boot", "vfat"),
        mount("/dev/gone", "/gone", "ext4"),
        mount("/dev/sda2", "/home", "btrfs"),
        mount("none", "/empty", "xfs"),
    ];
    volumes(&mounts, &vec![usage(1000, 100, 1), usage(1000, 100, 1), usage(50, 60, 2), None, usage(1000, 100, 1), usage(0, 0, 3)])
}

#[test]
fn file_systems_count_once() {
    let v = some_volumes();
    assert_eq!(v.iter().map(|x| x.mount.as_str()).collect::<Vec<&str>>(), vec!["/", "/boot", "/empty"]);
    assert_eq!((v[0].total, v[0].used), (1024000, 921600));
    assert_eq!((v[1].total, v[1].used), (51200, 0));
    assert_eq!(v[0].kind, "btrfs");
    let big = volumes(&vec![mount("a", "/", "ext4")], &vec![Some(Usage { blocks: u64::MAX, free: 1, unit: 4096, fsid: 9 })]);
    assert_eq!(big[0].total, u64::MAX);
    assert_eq!(big[0].used, u64::MAX - 4096);
}

#[test]
fn counters_of_devices() {
    let stats = "   8       0 sda 100 0 2000 50 60 0 4000 70 0 80 90\n   8 1 sda1 1 2 3\n";
    let all = device_counters(stats);
    assert_eq!(all.len(), 1);
    assert_eq!((all[0].name.as_str(), all[0].read, all[0].written), ("sda", 2000, 4000));
}

fn device(name: &str, read: u64, written: u64) -> DeviceCounters {
    DeviceCounters { name: name.to_string(), read, written }
}

#[test]
fn volumes_with_the_speeds_of_their_devices() {
    let mut m = DiskMeter::new();
    let mut v = some_volumes();
    v[1].resolved = Some("mapped".to_string());
    let first = vec![device("sda2", 100, 0), device("mapped", 10, 10), device("sdz", 1, 1)];
    assert!(is_countable(&v, &first));
    let stats = m.step(&v, &first, SECOND);
    assert_eq!(stats.disk_nodes.len(), 2);
    assert_eq!(stats.agg_total, 1024000 + 51200);
    assert_eq!(stats.agg_used, 921600);
    assert_eq!(stats.disk_nodes[0].mount_padded, " /     : ");
    assert_eq!(stats.disk_nodes[1].mount_padded, " /boot : ");
    assert_eq!(stats.disk_nodes[0].raw_dev_name, "sda2");
    assert_eq!(stats.disk_nodes[1].raw_dev_name, "mapped");
    assert_eq!(stats.disk_nodes[0].capacity_color, "\x1b[1;38;2;238;130;238m");
    assert_eq!(back(&stats.disk_nodes[0].r_speed), 0.0);
    let stats = m.step(&v, &vec![device("sda2", 300, 40), device("mapped", 9, 30), device("sdz", 9, 9)], 3 * SECOND);
    assert_eq!(back(&stats.disk_nodes[0].r_speed), 51200.0);
    assert_eq!(back(&stats.disk_nodes[0].w_speed), 10240.0);
    assert_eq!(back(&stats.disk_nodes[1].r_speed), 0.0);
    assert_eq!(back(&stats.disk_nodes[1].w_speed), 5120.0);
    let stats = m.step(&v, &Vec::new(), 4 * SECOND);
    assert_eq!(back(&stats.disk_nodes[0].r_speed), 0.0);
    assert!(!is_countable(&v, &vec![device("sda2", u64::MAX / 512 + 1, 0)]));
}
