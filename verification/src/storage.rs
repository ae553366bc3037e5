//! Storage: the mounted volumes, how full they are, and how fast their devices are
//! read and written.

use crate::binary64::{integer, Number, Real};
use crate::color::{disk_capacity_color, get_disk_capacity_color};
use crate::decimal::{count, count_in};
use crate::layout::{align_left, left_aligned};
use crate::order::{in_order, put_in_order, views, Ranked};
use crate::peaks::{elapsed, time_since, SECOND};
use crate::rates::{rate, rate_of};
use crate::table::{
    distinct, find, keep_only, law_only, law_stored, lemma_slot, listed, only, rows_of, store, stored,
    value_of, Entry,
};
use crate::text::{
    byte_length, bytes_in, chars_of, contains, equal, holds, is_before, last_part, lines, lines_of,
    part_after_last, precedes, text_of, texts, words, words_of,
};
use crate::units::{share, share_of};
use vstd::prelude::*;

verus! {

// ---------------------------------------------------------------------------
// Mounts
// ---------------------------------------------------------------------------

/// A mounted file system.
pub struct Mount {
    pub device: String,
    pub path: String,
    pub kind: String,
}

/// A mounted file system.
#[verifier::ext_equal]
pub struct MountPoint {
    pub device: Seq<char>,
    pub path: Seq<char>,
    pub kind: Seq<char>,
}

impl View for Mount {
    type V = MountPoint;

    open spec fn view(&self) -> MountPoint {
        MountPoint { device: self.device@, path: self.path@, kind: self.kind@ }
    }
}

/// File systems of this kind are on storage devices.
pub open spec fn is_storage(kind: Seq<char>) -> bool {
    kind == "ext2"@ || kind == "ext3"@ || kind == "ext4"@ || kind == "xfs"@ || kind == "btrfs"@ || kind == "zfs"@
        || kind == "vfat"@ || kind == "exfat"@ || kind == "ntfs"@ || kind == "ntfs3"@ || kind == "f2fs"@
}

fn check_storage(kind: &str) -> (r: bool)
    ensures
        r == is_storage(kind@),
{
    equal(kind, "ext2") || equal(kind, "ext3") || equal(kind, "ext4") || equal(kind, "xfs") || equal(kind, "btrfs")
        || equal(kind, "zfs") || equal(kind, "vfat") || equal(kind, "exfat") || equal(kind, "ntfs") || equal(
        kind,
        "ntfs3",
    ) || equal(kind, "f2fs")
}

/// The mount of a line: one of storage, whose path holds no null character.
pub open spec fn mount_in(line: Seq<char>) -> Option<MountPoint> {
    let w = words_of(line);
    if w.len() >= 6 && is_storage(w[2]) && !w[1].contains('\0') {
        Some(MountPoint { device: w[0], path: w[1], kind: w[2] })
    } else {
        None
    }
}

/// The mounts of these lines.
pub open spec fn mounts_in(lines: Seq<Seq<char>>) -> Seq<MountPoint>
    decreases lines.len(),
{
    if lines.len() == 0 {
        Seq::empty()
    } else {
        match mount_in(lines.last()) {
            Some(m) => mounts_in(lines.drop_last()).push(m),
            None => mounts_in(lines.drop_last()),
        }
    }
}

fn has_null(s: &str) -> (r: bool)
    ensures
        r == s@.contains('\0'),
{
    let v: Vec<char> = chars_of(s);
    let mut i: usize = 0;
    while i < v.len()
        invariant
            i <= v.len(),
            v@ == s@,
            forall|j: int| 0 <= j < i ==> v@[j] != '\0',
        decreases v.len() - i,
    {
        if v[i] == '\0' {
            proof {
                assert(s@[i as int] == '\0');
            }
            return true;
        }
        i = i + 1;
    }
    false
}

/// The mounts of storage in the list of mounts.
pub fn storage_mounts(list: &str) -> (r: Vec<Mount>)
    ensures
        views(r@) == mounts_in(lines_of(list@)),
{
    let all = lines(list);
    let ghost wanted = lines_of(list@);
    let mut r: Vec<Mount> = Vec::new();
    let mut i: usize = 0;
    proof {
        assert(wanted.take(0) =~= Seq::empty());
        assert(views(r@) =~= Seq::empty());
    }
    while i < all.len()
        invariant
            i <= all.len(),
            wanted == texts(all@),
            views(r@) == mounts_in(wanted.take(i as int)),
        decreases all.len() - i,
    {
        let line: &str = all[i].as_str();
        let ghost before = r@;
        proof {
            assert(wanted.take(i + 1).drop_last() =~= wanted.take(i as int));
            assert(wanted.take(i + 1).last() == line@);
        }
        let w = words(line);
        proof {
            assert(texts(w@) == words_of(line@));
        }
        if w.len() >= 6 {
            proof {
                assert(texts(w@)[0] == w@[0]@ && texts(w@)[1] == w@[1]@ && texts(w@)[2] == w@[2]@);
            }
            if check_storage(w[2].as_str()) && !has_null(w[1].as_str()) {
                let m = Mount { device: w[0].clone(), path: w[1].clone(), kind: w[2].clone() };
                proof {
                    assert(views(before.push(m)) =~= views(before).push(m@));
                }
                r.push(m);
            }
        }
        i = i + 1;
    }
    proof {
        assert(wanted.take(wanted.len() as int) =~= wanted);
    }
    r
}

/// How long the list of mounts is good for, in seconds.
pub const MOUNTS_AGE: u64 = 10;

/// The list of mounts must be read again: it never was, or long ago.
pub open spec fn stale(read: Option<u64>, now: u64) -> bool {
    match read {
        Some(t) => elapsed(t, now) / SECOND as int >= MOUNTS_AGE,
        None => true,
    }
}

/// The list of mounts must be read again.
pub fn mounts_are_stale(read: Option<u64>, now: u64) -> (r: bool)
    ensures
        r == stale(read, now),
{
    match read {
        Some(t) => time_since(t, now) / SECOND >= MOUNTS_AGE,
        None => true,
    }
}

// ---------------------------------------------------------------------------
// Volumes
// ---------------------------------------------------------------------------

/// What the system says of a mounted file system: its blocks, how many of them are
/// free, the bytes of each, and the number of the file system.
#[derive(Clone, Copy)]
pub struct Usage {
    pub blocks: u64,
    pub free: u64,
    pub unit: u64,
    pub fsid: u64,
}

/// A file system with what is used of it, in bytes, where it is mounted, and what
/// its device is found to be.
pub struct Volume {
    pub fsid: u64,
    pub total: u64,
    pub used: u64,
    pub mount: String,
    pub kind: String,
    pub device: String,
    pub resolved: Option<String>,
}

/// A file system.
#[verifier::ext_equal]
pub struct FileSystem {
    pub fsid: u64,
    pub total: nat,
    pub used: nat,
    pub mount: Seq<char>,
    pub kind: Seq<char>,
    pub device: Seq<char>,
    pub resolved: Option<Seq<char>>,
}

impl View for Volume {
    type V = FileSystem;

    open spec fn view(&self) -> FileSystem {
        FileSystem {
            fsid: self.fsid,
            total: self.total as nat,
            used: self.used as nat,
            mount: self.mount@,
            kind: self.kind@,
            device: self.device@,
            resolved: text_of(self.resolved),
        }
    }
}

impl Ranked for Volume {
    open spec fn ahead(a: FileSystem, b: FileSystem) -> bool {
        precedes(a.mount, b.mount)
    }

    fn is_ahead(&self, other: &Volume) -> (r: bool) {
        is_before(self.mount.as_str(), other.mount.as_str())
    }
}

/// The bytes of blocks, up to the most that can be counted.
pub open spec fn block_bytes(blocks: u64, unit: u64) -> nat {
    if blocks * unit <= u64::MAX {
        (blocks * unit) as nat
    } else {
        u64::MAX as nat
    }
}

fn bytes_of_blocks(blocks: u64, unit: u64) -> (r: u64)
    ensures
        r == block_bytes(blocks, unit),
{
    match blocks.checked_mul(unit) {
        Some(n) => n,
        None => u64::MAX,
    }
}

/// The file system of a mount.
pub open spec fn volume_of(m: MountPoint, u: Usage) -> FileSystem {
    let total = block_bytes(u.blocks, u.unit);
    let free = block_bytes(u.free, u.unit);
    FileSystem {
        fsid: u.fsid,
        total,
        used: if free <= total {
            (total - free) as nat
        } else {
            0
        },
        mount: m.path,
        kind: m.kind,
        device: m.device,
        resolved: None,
    }
}

/// The place of the file system with this number, or the number of file systems.
pub open spec fn place_of_volume(s: Seq<FileSystem>, fsid: u64) -> nat
    decreases s.len(),
{
    if s.len() == 0 || s[0].fsid == fsid {
        0
    } else {
        1 + place_of_volume(s.skip(1), fsid)
    }
}

/// The file systems with one more mount: a file system that is mounted twice is
/// kept once, under the shorter path.
pub open spec fn with_mount(s: Seq<FileSystem>, m: MountPoint, u: Usage) -> Seq<FileSystem> {
    let i = place_of_volume(s, u.fsid) as int;
    if i < s.len() {
        if byte_length(m.path) < byte_length(s[i].mount) {
            s.update(i, (FileSystem { mount: m.path, ..s[i] }))
        } else {
            s
        }
    } else {
        s.push(volume_of(m, u))
    }
}

/// What the system says of the `i`th mount.
pub open spec fn usage_at(usages: Seq<Option<Usage>>, i: int) -> Option<Usage> {
    if 0 <= i < usages.len() {
        usages[i]
    } else {
        None
    }
}

/// The file systems of the first `n` mounts.
pub open spec fn volumes_of(mounts: Seq<MountPoint>, usages: Seq<Option<Usage>>, n: nat) -> Seq<FileSystem>
    decreases n,
{
    if n == 0 {
        Seq::empty()
    } else {
        let before = volumes_of(mounts, usages, (n - 1) as nat);
        match usage_at(usages, n - 1) {
            Some(u) => with_mount(before, mounts[n - 1], u),
            None => before,
        }
    }
}

proof fn lemma_place(s: Seq<FileSystem>, fsid: u64, n: nat)
    requires
        n <= s.len(),
        n < s.len() ==> s[n as int].fsid == fsid,
        forall|i: int| 0 <= i < n ==> (#[trigger] s[i]).fsid != fsid,
    ensures
        place_of_volume(s, fsid) == n,
    decreases n,
{
    if n > 0 {
        assert(s[0].fsid != fsid);
        assert forall|i: int| 0 <= i < n - 1 implies (#[trigger] s.skip(1)[i]).fsid != fsid by {
            assert(s.skip(1)[i] == s[i + 1]);
        }
        lemma_place(s.skip(1), fsid, (n - 1) as nat);
    }
}

fn add_mount(v: &mut Vec<Volume>, m: &Mount, u: Usage)
    ensures
        views(final(v)@) == with_mount(views(old(v)@), m@, u),
{
    let ghost all = views(v@);
    let mut i: usize = 0;
    while i < v.len() && v[i].fsid != u.fsid
        invariant
            i <= v.len(),
            all == views(v@),
            forall|j: int| 0 <= j < i ==> (#[trigger] all[j]).fsid != u.fsid,
        decreases v.len() - i,
    {
        i = i + 1;
    }
    proof {
        lemma_place(all, u.fsid, i as nat);
    }
    if i < v.len() {
        proof {
            assert(all[i as int] == v@[i as int]@);
        }
        if bytes_in(m.path.as_str()) < bytes_in(v[i].mount.as_str()) {
            let mut volume = v.remove(i);
            volume.mount = m.path.clone();
            proof {
                assert(volume@ == (FileSystem { mount: m@.path, ..all[i as int] }));
            }
            v.insert(i, volume);
            proof {
                assert(views(v@) =~= all.update(i as int, volume@));
            }
        }
    } else {
        let total: u64 = bytes_of_blocks(u.blocks, u.unit);
        let free: u64 = bytes_of_blocks(u.free, u.unit);
        let used: u64 = if free <= total {
            total - free
        } else {
            0
        };
        let volume = Volume {
            fsid: u.fsid,
            total,
            used,
            mount: m.path.clone(),
            kind: m.kind.clone(),
            device: m.device.clone(),
            resolved: None,
        };
        proof {
            assert(volume@ == volume_of(m@, u));
            assert(views(v@.push(volume)) =~= all.push(volume@));
        }
        v.push(volume);
    }
}

/// The file systems of these mounts, as far as the system says something of them,
/// by the paths where they are mounted.
pub fn volumes(mounts: &Vec<Mount>, usages: &Vec<Option<Usage>>) -> (r: Vec<Volume>)
    ensures
        views(r@) == in_order(
            volumes_of(views(mounts@), usages@, mounts@.len()),
            |a: FileSystem, b: FileSystem| precedes(a.mount, b.mount),
        ),
{
    let ghost all = views(mounts@);
    let mut v: Vec<Volume> = Vec::new();
    let mut i: usize = 0;
    proof {
        assert(views(v@) =~= Seq::empty());
    }
    while i < mounts.len()
        invariant
            i <= mounts.len(),
            all == views(mounts@),
            views(v@) == volumes_of(all, usages@, i as nat),
        decreases mounts.len() - i,
    {
        proof {
            assert(all[i as int] == mounts@[i as int]@);
        }
        let usage: Option<Usage> = if i < usages.len() {
            usages[i]
        } else {
            None
        };
        match usage {
            Some(u) => {
                add_mount(&mut v, &mounts[i], u);
            },
            None => {},
        }
        i = i + 1;
    }
    proof {
        assert((|a: FileSystem, b: FileSystem| Volume::ahead(a, b)) =~= (|a: FileSystem, b: FileSystem|
            precedes(a.mount, b.mount)));
    }
    put_in_order(v)
}

// ---------------------------------------------------------------------------
// Devices
// ---------------------------------------------------------------------------

/// What has been read from a device and written to it, in sectors.
pub struct DeviceCounters {
    pub name: String,
    pub read: u64,
    pub written: u64,
}

/// What has been read from a device and written to it, in sectors.
#[verifier::ext_equal]
pub struct Device {
    pub name: Seq<char>,
    pub read: nat,
    pub written: nat,
}

impl View for DeviceCounters {
    type V = Device;

    open spec fn view(&self) -> Device {
        Device { name: self.name@, read: self.read as nat, written: self.written as nat }
    }
}

/// The device of a line.
pub open spec fn device_in(line: Seq<char>) -> Option<Device> {
    let w = words_of(line);
    if w.len() >= 14 {
        Some(Device { name: w[2], read: count_in(w[5]), written: count_in(w[9]) })
    } else {
        None
    }
}

/// The devices of these lines.
pub open spec fn devices_in(lines: Seq<Seq<char>>) -> Seq<Device>
    decreases lines.len(),
{
    if lines.len() == 0 {
        Seq::empty()
    } else {
        match device_in(lines.last()) {
            Some(d) => devices_in(lines.drop_last()).push(d),
            None => devices_in(lines.drop_last()),
        }
    }
}

/// The devices in their statistics.
pub fn device_counters(diskstats: &str) -> (r: Vec<DeviceCounters>)
    ensures
        views(r@) == devices_in(lines_of(diskstats@)),
{
    let all = lines(diskstats);
    let ghost wanted = lines_of(diskstats@);
    let mut r: Vec<DeviceCounters> = Vec::new();
    let mut i: usize = 0;
    proof {
        assert(wanted.take(0) =~= Seq::empty());
        assert(views(r@) =~= Seq::empty());
    }
    while i < all.len()
        invariant
            i <= all.len(),
            wanted == texts(all@),
            views(r@) == devices_in(wanted.take(i as int)),
        decreases all.len() - i,
    {
        let line: &str = all[i].as_str();
        let ghost before = r@;
        proof {
            assert(wanted.take(i + 1).drop_last() =~= wanted.take(i as int));
            assert(wanted.take(i + 1).last() == line@);
        }
        let w = words(line);
        proof {
            assert(texts(w@) == words_of(line@));
        }
        if w.len() >= 14 {
            proof {
                assert(texts(w@)[2] == w@[2]@ && texts(w@)[5] == w@[5]@ && texts(w@)[9] == w@[9]@);
            }
            let d = DeviceCounters {
                name: w[2].clone(),
                read: count(w[5].as_str()),
                written: count(w[9].as_str()),
            };
            proof {
                assert(views(before.push(d)) =~= views(before).push(d@));
            }
            r.push(d);
        }
        i = i + 1;
    }
    proof {
        assert(wanted.take(wanted.len() as int) =~= wanted);
    }
    r
}

/// The bytes of a sector.
pub const SECTOR: u64 = 512;

/// The bytes read from and written to a device when it was last seen.
pub struct DeviceState {
    pub read: u64,
    pub written: u64,
    pub seen: u64,
}

/// The bytes read from and written to a device when it was last seen.
#[verifier::ext_equal]
pub struct Transfer {
    pub read: nat,
    pub written: nat,
    pub seen: u64,
}

impl View for DeviceState {
    type V = Transfer;

    open spec fn view(&self) -> Transfer {
        Transfer { read: self.read as nat, written: self.written as nat, seen: self.seen }
    }
}

/// The devices that are remembered.
pub type Transfers = Seq<(Seq<char>, Transfer)>;

/// The speeds of devices, in bytes per second: of reading and of writing.
pub type Paces = Seq<(Seq<char>, (Number, Number))>;

/// What is remembered after the first `n` devices.
pub open spec fn transfers_after(t: Transfers, devices: Seq<Device>, n: nat, now: u64) -> Transfers
    decreases n,
{
    if n == 0 {
        t
    } else {
        let d = devices[n - 1];
        stored(
            transfers_after(t, devices, (n - 1) as nat, now),
            d.name,
            Transfer { read: d.read * SECTOR as nat, written: d.written * SECTOR as nat, seen: now },
        )
    }
}

/// The speeds of a device since it was last seen; none at first sight.
pub open spec fn pace_of(t: Transfers, d: Device, now: u64) -> (Number, Number) {
    match value_of(t, d.name) {
        Some(before) => (
            rate(before.read, before.seen, d.read * SECTOR as nat, now),
            rate(before.written, before.seen, d.written * SECTOR as nat, now),
        ),
        None => (integer(0), integer(0)),
    }
}

/// The speeds of the first `n` devices.
pub open spec fn paces_after(t: Transfers, devices: Seq<Device>, n: nat, now: u64) -> Paces
    decreases n,
{
    if n == 0 {
        Seq::empty()
    } else {
        let d = devices[n - 1];
        stored(
            paces_after(t, devices, (n - 1) as nat, now),
            d.name,
            pace_of(transfers_after(t, devices, (n - 1) as nat, now), d, now),
        )
    }
}

// ---------------------------------------------------------------------------
// What is shown of a volume
// ---------------------------------------------------------------------------

/// What is shown of a volume.
pub struct DiskNodeRaw {
    pub mount_padded: String,
    pub used_bytes: u64,
    pub total_bytes: u64,
    pub capacity_color: String,
    pub r_speed: Real,
    pub w_speed: Real,
    pub raw_dev_name: String,
}

/// What is shown of a volume.
#[verifier::ext_equal]
pub struct DiskNode {
    pub mount_padded: Seq<char>,
    pub used_bytes: u64,
    pub total_bytes: u64,
    pub capacity_color: Seq<char>,
    pub r_speed: Number,
    pub w_speed: Number,
    pub raw_dev_name: Seq<char>,
}

impl View for DiskNodeRaw {
    type V = DiskNode;

    open spec fn view(&self) -> DiskNode {
        DiskNode {
            mount_padded: self.mount_padded@,
            used_bytes: self.used_bytes,
            total_bytes: self.total_bytes,
            capacity_color: self.capacity_color@,
            r_speed: self.r_speed@,
            w_speed: self.w_speed@,
            raw_dev_name: self.raw_dev_name@,
        }
    }
}

/// The name of a volume's device: what the device was found to be, or the last part
/// of its path.
pub open spec fn device_name(v: FileSystem) -> Seq<char> {
    match v.resolved {
        Some(name) => name,
        None => last_part(v.device, '/'),
    }
}

/// File systems of this kind copy on write.
pub open spec fn copies_on_write(kind: Seq<char>) -> bool {
    holds(kind, "btrfs"@) || holds(kind, "zfs"@)
}

/// What is shown of a volume among others.
pub open spec fn node_of(v: FileSystem, paces: Paces, width: nat) -> DiskNode {
    let pace = match value_of(paces, device_name(v)) {
        Some(p) => p,
        None => (integer(0), integer(0)),
    };
    DiskNode {
        mount_padded: " "@ + left_aligned(v.mount, width) + ": "@,
        used_bytes: v.used as u64,
        total_bytes: v.total as u64,
        capacity_color: disk_capacity_color(share(v.used, v.total), copies_on_write(v.kind)),
        r_speed: pace.0,
        w_speed: pace.1,
        raw_dev_name: device_name(v),
    }
}

/// The widest of the paths, in characters.
pub open spec fn widest_mount(s: Seq<FileSystem>) -> nat
    decreases s.len(),
{
    if s.len() == 0 {
        0
    } else {
        let front = widest_mount(s.drop_last());
        if s.last().mount.len() > front {
            s.last().mount.len()
        } else {
            front
        }
    }
}

/// What is shown of the volumes: of each that holds anything.
pub open spec fn nodes_in(s: Seq<FileSystem>, paces: Paces, width: nat) -> Seq<DiskNode>
    decreases s.len(),
{
    if s.len() == 0 {
        Seq::empty()
    } else if s.last().total > 0 {
        nodes_in(s.drop_last(), paces, width).push(node_of(s.last(), paces, width))
    } else {
        nodes_in(s.drop_last(), paces, width)
    }
}

/// What is shown of the volumes, with their paths equally wide.
pub open spec fn nodes_of(s: Seq<FileSystem>, paces: Paces) -> Seq<DiskNode> {
    nodes_in(s, paces, widest_mount(s))
}

/// The bytes of all volumes.
pub open spec fn total_of(s: Seq<FileSystem>) -> nat
    decreases s.len(),
{
    if s.len() == 0 {
        0
    } else {
        total_of(s.drop_last()) + s.last().total
    }
}

/// The bytes in use of all volumes that hold anything.
pub open spec fn used_of(s: Seq<FileSystem>) -> nat
    decreases s.len(),
{
    if s.len() == 0 {
        0
    } else if s.last().total > 0 {
        used_of(s.drop_last()) + s.last().used
    } else {
        used_of(s.drop_last())
    }
}

/// The names of the devices of the volumes that hold anything.
pub open spec fn active(s: Seq<FileSystem>) -> Seq<Seq<char>>
    decreases s.len(),
{
    if s.len() == 0 {
        Seq::empty()
    } else if s.last().total > 0 {
        active(s.drop_last()).push(device_name(s.last()))
    } else {
        active(s.drop_last())
    }
}

/// All bytes can be counted.
pub open spec fn countable(volumes: Seq<FileSystem>, devices: Seq<Device>) -> bool {
    &&& total_of(volumes) <= u64::MAX
    &&& used_of(volumes) <= u64::MAX
    &&& forall|i: int|
        0 <= i < devices.len() ==> (#[trigger] devices[i]).read * SECTOR <= u64::MAX && devices[i].written * SECTOR
            <= u64::MAX
}

/// All bytes can be counted.
pub fn is_countable(volumes: &Vec<Volume>, devices: &Vec<DeviceCounters>) -> (r: bool)
    ensures
        r == countable(views(volumes@), views(devices@)),
{
    let ghost all = views(volumes@);
    let ghost disks = views(devices@);
    let mut total: u128 = 0;
    let mut used: u128 = 0;
    let mut i: usize = 0;
    proof {
        assert(all.take(0) =~= Seq::empty());
    }
    while i < volumes.len()
        invariant
            i <= volumes.len(),
            all == views(volumes@),
            total == total_of(all.take(i as int)),
            used == used_of(all.take(i as int)),
            total <= i * u64::MAX,
            used <= i * u64::MAX,
        decreases volumes.len() - i,
    {
        proof {
            assert(all.take(i + 1).drop_last() =~= all.take(i as int));
            assert(all.take(i + 1).last() == volumes@[i as int]@);
            assert((i + 1) * u64::MAX == i * u64::MAX + u64::MAX) by (nonlinear_arith);
            assert((i + 1) * u64::MAX <= u64::MAX * u64::MAX) by (nonlinear_arith)
                requires
                    i + 1 <= u64::MAX,
            ;
        }
        total = total + volumes[i].total as u128;
        if volumes[i].total > 0 {
            used = used + volumes[i].used as u128;
        }
        i = i + 1;
    }
    proof {
        assert(all.take(all.len() as int) =~= all);
    }
    if total > u64::MAX as u128 || used > u64::MAX as u128 {
        return false;
    }
    let most: u64 = u64::MAX / SECTOR;
    let mut k: usize = 0;
    while k < devices.len()
        invariant
            k <= devices.len(),
            disks == views(devices@),
            most == u64::MAX / SECTOR,
            forall|j: int|
                0 <= j < k ==> (#[trigger] disks[j]).read * SECTOR <= u64::MAX && disks[j].written * SECTOR
                    <= u64::MAX,
        decreases devices.len() - k,
    {
        proof {
            assert(disks[k as int] == devices@[k as int]@);
        }
        if devices[k].read > most || devices[k].written > most {
            return false;
        }
        k = k + 1;
    }
    true
}

/// What a reading of the volumes and the devices gives.
pub struct DiskStats {
    pub disk_nodes: Vec<DiskNodeRaw>,
    pub agg_total: u64,
    pub agg_used: u64,
}

/// The devices that are remembered from one reading to the next.
pub struct DiskMeter {
    devices: Vec<Entry<DeviceState>>,
}

impl View for DiskMeter {
    type V = Transfers;

    closed spec fn view(&self) -> Transfers {
        rows_of(self.devices@)
    }
}

impl DiskMeter {
    /// No device is remembered.
    pub fn new() -> (r: DiskMeter)
        ensures
            r@ == Seq::<(Seq<char>, Transfer)>::empty(),
    {
        let devices: Vec<Entry<DeviceState>> = Vec::new();
        proof {
            assert(rows_of(devices@) =~= Seq::empty());
        }
        DiskMeter { devices }
    }

    fn read(&mut self, d: &DeviceCounters, now: u64) -> (r: (Real, Real))
        requires
            d.read * SECTOR <= u64::MAX,
            d.written * SECTOR <= u64::MAX,
        ensures
            final(self)@ == stored(
                old(self)@,
                d@.name,
                Transfer { read: d@.read * SECTOR as nat, written: d@.written * SECTOR as nat, seen: now },
            ),
            r@ == pace_of(old(self)@, d@, now),
    {
        let read: u64 = d.read * SECTOR;
        let written: u64 = d.written * SECTOR;
        let i: usize = find(&self.devices, d.name.as_str());
        let pace: (Real, Real) = if i < self.devices.len() {
            let before = &self.devices[i].value;
            (
                rate_of(before.read, before.seen, read, now),
                rate_of(before.written, before.seen, written, now),
            )
        } else {
            (Real::from_u64(0), Real::from_u64(0))
        };
        store(&mut self.devices, d.name.as_str(), DeviceState { read, written, seen: now });
        pace
    }

    fn read_all(&mut self, devices: &Vec<DeviceCounters>, now: u64) -> (paces: Vec<Entry<(Real, Real)>>)
        requires
            forall|i: int|
                0 <= i < devices.len() ==> (#[trigger] views(devices@)[i]).read * SECTOR <= u64::MAX && views(
                    devices@,
                )[i].written * SECTOR <= u64::MAX,
        ensures
            final(self)@ == transfers_after(old(self)@, views(devices@), devices@.len(), now),
            rows_of(paces@) == paces_after(old(self)@, views(devices@), devices@.len(), now),
    {
        let ghost start = self@;
        let ghost all = views(devices@);
        let mut paces: Vec<Entry<(Real, Real)>> = Vec::new();
        let mut i: usize = 0;
        proof {
            assert(rows_of(paces@) =~= Seq::empty());
        }
        while i < devices.len()
            invariant
                i <= devices.len(),
                all == views(devices@),
                forall|j: int|
                    0 <= j < devices.len() ==> (#[trigger] all[j]).read * SECTOR <= u64::MAX && all[j].written * SECTOR
                        <= u64::MAX,
                self@ == transfers_after(start, all, i as nat, now),
                rows_of(paces@) == paces_after(start, all, i as nat, now),
            decreases devices.len() - i,
        {
            let d: &DeviceCounters = &devices[i];
            proof {
                assert(all[i as int] == d@);
            }
            let pace = self.read(d, now);
            store(&mut paces, d.name.as_str(), pace);
            i = i + 1;
        }
        paces
    }

    /// Reads all devices: gives what is shown of the volumes, and remembers the
    /// devices of those that hold anything.
    pub fn step(&mut self, volumes: &Vec<Volume>, devices: &Vec<DeviceCounters>, now: u64) -> (r: DiskStats)
        requires
            countable(views(volumes@), views(devices@)),
        ensures
            final(self)@ == only(
                transfers_after(old(self)@, views(devices@), devices@.len(), now),
                active(views(volumes@)),
            ),
            views(r.disk_nodes@) == nodes_of(
                views(volumes@),
                paces_after(old(self)@, views(devices@), devices@.len(), now),
            ),
            r.agg_total == total_of(views(volumes@)),
            r.agg_used == used_of(views(volumes@)),
    {
        let paces = self.read_all(devices, now);
        let width: usize = mount_width(volumes);
        let (disk_nodes, names) = all_nodes(volumes, &paces, width);
        let (agg_total, agg_used) = totals(volumes);
        let mut kept: Vec<Entry<DeviceState>> = Vec::new();
        std::mem::swap(&mut kept, &mut self.devices);
        let (kept, _) = keep_only(kept, &names);
        self.devices = kept;
        DiskStats { disk_nodes, agg_total, agg_used }
    }
}

proof fn lemma_sums_grow(s: Seq<FileSystem>, n: int)
    requires
        0 <= n <= s.len(),
    ensures
        total_of(s.take(n)) <= total_of(s),
        used_of(s.take(n)) <= used_of(s),
    decreases s.len(),
{
    if n < s.len() {
        lemma_sums_grow(s.drop_last(), n);
        assert(s.drop_last().take(n) =~= s.take(n));
    } else {
        assert(s.take(n) =~= s);
    }
}

fn mount_width(volumes: &Vec<Volume>) -> (width: usize)
    ensures
        width == widest_mount(views(volumes@)),
{
    let ghost all = views(volumes@);
    let mut width: usize = 0;
    let mut i: usize = 0;
    proof {
        assert(all.take(0) =~= Seq::empty());
    }
    while i < volumes.len()
        invariant
            i <= volumes.len(),
            all == views(volumes@),
            width == widest_mount(all.take(i as int)),
        decreases volumes.len() - i,
    {
        proof {
            assert(all.take(i + 1).drop_last() =~= all.take(i as int));
            assert(all.take(i + 1).last() == volumes@[i as int]@);
        }
        let n: usize = volumes[i].mount.as_str().unicode_len();
        if n > width {
            width = n;
        }
        i = i + 1;
    }
    proof {
        assert(all.take(all.len() as int) =~= all);
    }
    width
}

fn node(v: &Volume, paces: &Vec<Entry<(Real, Real)>>, width: usize) -> (r: DiskNodeRaw)
    ensures
        r@ == node_of(v@, rows_of(paces@), width as nat),
{
    let name = match &v.resolved {
        Some(name) => name.clone(),
        None => part_after_last(v.device.as_str(), '/'),
    };
    let i: usize = find(paces, name.as_str());
    let (r_speed, w_speed): (Real, Real) = if i < paces.len() {
        paces[i].value
    } else {
        (Real::from_u64(0), Real::from_u64(0))
    };
    let is_cow: bool = contains(v.kind.as_str(), "btrfs") || contains(v.kind.as_str(), "zfs");
    let mut mount_padded = " ".to_owned();
    mount_padded.append(align_left(v.mount.as_str(), width).as_str());
    mount_padded.append(": ");
    DiskNodeRaw {
        mount_padded,
        used_bytes: v.used,
        total_bytes: v.total,
        capacity_color: get_disk_capacity_color(&share_of(v.used, v.total), is_cow),
        r_speed,
        w_speed,
        raw_dev_name: name,
    }
}

fn all_nodes(volumes: &Vec<Volume>, paces: &Vec<Entry<(Real, Real)>>, width: usize) -> (r: (
    Vec<DiskNodeRaw>,
    Vec<String>,
))
    ensures
        views(r.0@) == nodes_in(views(volumes@), rows_of(paces@), width as nat),
        texts(r.1@) == active(views(volumes@)),
{
    let ghost all = views(volumes@);
    let mut nodes: Vec<DiskNodeRaw> = Vec::new();
    let mut names: Vec<String> = Vec::new();
    let mut i: usize = 0;
    proof {
        assert(all.take(0) =~= Seq::empty());
        assert(views(nodes@) =~= Seq::empty());
        assert(texts(names@) =~= Seq::empty());
    }
    while i < volumes.len()
        invariant
            i <= volumes.len(),
            all == views(volumes@),
            views(nodes@) == nodes_in(all.take(i as int), rows_of(paces@), width as nat),
            texts(names@) == active(all.take(i as int)),
        decreases volumes.len() - i,
    {
        let v: &Volume = &volumes[i];
        proof {
            assert(all.take(i + 1).drop_last() =~= all.take(i as int));
            assert(all.take(i + 1).last() == v@);
        }
        if v.total > 0 {
            let shown = node(v, paces, width);
            let name = shown.raw_dev_name.clone();
            proof {
                assert(views(nodes@.push(shown)) =~= views(nodes@).push(shown@));
                assert(texts(names@.push(name)) =~= texts(names@).push(name@));
            }
            names.push(name);
            nodes.push(shown);
        }
        i = i + 1;
    }
    proof {
        assert(all.take(all.len() as int) =~= all);
    }
    (nodes, names)
}

fn totals(volumes: &Vec<Volume>) -> (r: (u64, u64))
    requires
        total_of(views(volumes@)) <= u64::MAX,
        used_of(views(volumes@)) <= u64::MAX,
    ensures
        r.0 == total_of(views(volumes@)),
        r.1 == used_of(views(volumes@)),
{
    let ghost all = views(volumes@);
    let mut total: u64 = 0;
    let mut used: u64 = 0;
    let mut i: usize = 0;
    proof {
        assert(all.take(0) =~= Seq::empty());
    }
    while i < volumes.len()
        invariant
            i <= volumes.len(),
            all == views(volumes@),
            total_of(all) <= u64::MAX,
            used_of(all) <= u64::MAX,
            total == total_of(all.take(i as int)),
            used == used_of(all.take(i as int)),
        decreases volumes.len() - i,
    {
        proof {
            assert(all.take(i + 1).drop_last() =~= all.take(i as int));
            assert(all.take(i + 1).last() == volumes@[i as int]@);
            lemma_sums_grow(all, i + 1);
        }
        total = total + volumes[i].total;
        if volumes[i].total > 0 {
            used = used + volumes[i].used;
        }
        i = i + 1;
    }
    proof {
        assert(all.take(all.len() as int) =~= all);
    }
    (total, used)
}

// ---------------------------------------------------------------------------
// Laws
// ---------------------------------------------------------------------------

/// No two of these are the same file system.
pub open spec fn separate(s: Seq<FileSystem>) -> bool {
    forall|i: int, j: int| 0 <= i < j < s.len() ==> (#[trigger] s[i]).fsid != (#[trigger] s[j]).fsid
}

proof fn lemma_place_found(s: Seq<FileSystem>, fsid: u64)
    ensures
        place_of_volume(s, fsid) <= s.len(),
        place_of_volume(s, fsid) < s.len() ==> s[place_of_volume(s, fsid) as int].fsid == fsid,
        forall|i: int| 0 <= i < place_of_volume(s, fsid) ==> (#[trigger] s[i]).fsid != fsid,
    decreases s.len(),
{
    if s.len() > 0 && s[0].fsid != fsid {
        lemma_place_found(s.skip(1), fsid);
        assert forall|i: int| 0 <= i < place_of_volume(s, fsid) implies (#[trigger] s[i]).fsid != fsid by {
            if i > 0 {
                assert(s.skip(1)[i - 1] == s[i]);
            }
        }
    }
}

/// One of the first `n` mounts is of this file system, at this path.
pub open spec fn mounted_at(
    mounts: Seq<MountPoint>,
    usages: Seq<Option<Usage>>,
    n: nat,
    fsid: u64,
    path: Seq<char>,
) -> bool {
    exists|j: int|
        0 <= j < n && (#[trigger] usage_at(usages, j)) is Some && usage_at(usages, j)->0.fsid == fsid
            && mounts[j].path == path
}

proof fn lemma_mounted(mounts: Seq<MountPoint>, usages: Seq<Option<Usage>>, n: nat, i: int)
    requires
        0 <= i < volumes_of(mounts, usages, n).len(),
    ensures
        mounted_at(
            mounts,
            usages,
            n,
            volumes_of(mounts, usages, n)[i].fsid,
            volumes_of(mounts, usages, n)[i].mount,
        ),
    decreases n,
{
    if n > 0 {
        let before = volumes_of(mounts, usages, (n - 1) as nat);
        let all = volumes_of(mounts, usages, n);
        if usage_at(usages, n - 1) is Some {
            lemma_place_found(before, usage_at(usages, n - 1)->0.fsid);
        }
        if i < before.len() && all[i] == before[i] {
            lemma_mounted(mounts, usages, (n - 1) as nat, i);
            let j = choose|j: int|
                0 <= j < n - 1 && (#[trigger] usage_at(usages, j)) is Some && usage_at(usages, j)->0.fsid
                    == before[i].fsid && mounts[j].path == before[i].mount;
            assert(usage_at(usages, j) is Some);
        } else {
            assert(usage_at(usages, n - 1) is Some);
            assert(mounts[n - 1].path == all[i].mount);
        }
    }
}

/// However often a file system is mounted, it counts once: under a path where it is
/// mounted, none of whose others is shorter.
pub proof fn law_file_systems_count_once(mounts: Seq<MountPoint>, usages: Seq<Option<Usage>>, n: nat, k: int)
    requires
        0 <= k < n <= mounts.len(),
        usage_at(usages, k) is Some,
    ensures
        separate(volumes_of(mounts, usages, n)),
        ({
            let fsid = usage_at(usages, k)->0.fsid;
            let all = volumes_of(mounts, usages, n);
            let i = place_of_volume(all, fsid) as int;
            &&& 0 <= i < all.len()
            &&& all[i].fsid == fsid
            &&& byte_length(all[i].mount) <= byte_length(mounts[k].path)
            &&& mounted_at(mounts, usages, n, fsid, all[i].mount)
        }),
    decreases n,
{
    lemma_separate(mounts, usages, n);
    let before = volumes_of(mounts, usages, (n - 1) as nat);
    let all = volumes_of(mounts, usages, n);
    let fsid = usage_at(usages, k)->0.fsid;
    lemma_separate(mounts, usages, (n - 1) as nat);
    lemma_place_found(before, fsid);
    lemma_place_found(all, fsid);
    if place_of_volume(all, fsid) < all.len() {
        lemma_mounted(mounts, usages, n, place_of_volume(all, fsid) as int);
    }
    if k < n - 1 {
        law_file_systems_count_once(mounts, usages, (n - 1) as nat, k);
    }
    match usage_at(usages, n - 1) {
        Some(u) => {
            lemma_place_found(before, u.fsid);
            let i = place_of_volume(before, fsid) as int;
            if i < before.len() {
                assert(all[i].fsid == fsid);
                if place_of_volume(all, fsid) < i {
                    assert(before[place_of_volume(all, fsid) as int].fsid != fsid);
                }
                lemma_place(all, fsid, i as nat);
            } else {
                assert(k == n - 1);
                assert(all == before.push(volume_of(mounts[k], u)));
                assert(all[before.len() as int].fsid == fsid);
                assert forall|j: int| 0 <= j < before.len() implies (#[trigger] all[j]).fsid != fsid by {
                    assert(all[j] == before[j]);
                }
                lemma_place(all, fsid, before.len());
            }
        },
        None => {},
    }
}

proof fn lemma_separate(mounts: Seq<MountPoint>, usages: Seq<Option<Usage>>, n: nat)
    ensures
        separate(volumes_of(mounts, usages, n)),
    decreases n,
{
    if n > 0 {
        lemma_separate(mounts, usages, (n - 1) as nat);
        let before = volumes_of(mounts, usages, (n - 1) as nat);
        let all = volumes_of(mounts, usages, n);
        match usage_at(usages, n - 1) {
            Some(u) => {
                lemma_place_found(before, u.fsid);
                assert forall|i: int, j: int| 0 <= i < j < all.len() implies (#[trigger] all[i]).fsid != (
                #[trigger] all[j]).fsid by {
                    if j < before.len() {
                        assert(before[i].fsid != before[j].fsid);
                    } else {
                        assert(before[i].fsid != u.fsid);
                    }
                }
            },
            None => {},
        }
    }
}

/// What is used of a volume is never more than there is.
pub proof fn law_used_within_total(mounts: Seq<MountPoint>, usages: Seq<Option<Usage>>, n: nat, i: int)
    requires
        0 <= i < volumes_of(mounts, usages, n).len(),
    ensures
        volumes_of(mounts, usages, n)[i].used <= volumes_of(mounts, usages, n)[i].total <= u64::MAX,
    decreases n,
{
    if n > 0 {
        let before = volumes_of(mounts, usages, (n - 1) as nat);
        if i < before.len() {
            law_used_within_total(mounts, usages, (n - 1) as nat, i);
        }
        match usage_at(usages, n - 1) {
            Some(u) => {
                lemma_place_found(before, u.fsid);
            },
            None => {},
        }
    }
}

/// A device that is seen for the first time has no speed yet.
pub proof fn law_first_sight_has_no_speed(t: Transfers, d: Device, now: u64)
    requires
        !listed(t, d.name),
    ensures
        pace_of(t, d, now) == (integer(0), integer(0)),
{
    lemma_slot(t, d.name);
}

/// Only devices of volumes that hold anything are remembered, each once.
pub proof fn law_active_devices_are_remembered(
    t: Transfers,
    volumes: Seq<FileSystem>,
    devices: Seq<Device>,
    now: u64,
    name: Seq<char>,
)
    requires
        distinct(t),
    ensures
        distinct(only(transfers_after(t, devices, devices.len(), now), active(volumes))),
        listed(only(transfers_after(t, devices, devices.len(), now), active(volumes)), name) ==> active(
            volumes,
        ).contains(name),
{
    lemma_transfers_distinct(t, devices, devices.len(), now);
    law_only(transfers_after(t, devices, devices.len(), now), active(volumes), name);
}

proof fn lemma_transfers_distinct(t: Transfers, devices: Seq<Device>, n: nat, now: u64)
    requires
        distinct(t),
    ensures
        distinct(transfers_after(t, devices, n, now)),
    decreases n,
{
    if n > 0 {
        lemma_transfers_distinct(t, devices, (n - 1) as nat, now);
        let d = devices[n - 1];
        let transfer = Transfer { read: d.read * SECTOR as nat, written: d.written * SECTOR as nat, seen: now };
        law_stored(transfers_after(t, devices, (n - 1) as nat, now), d.name, transfer, d.name);
    }
}

/// What stands behind the paths of volumes stands below each other: the paths are
/// all filled up to the widest.
pub proof fn law_mounts_line_up(s: Seq<FileSystem>, paces: Paces, i: int)
    requires
        0 <= i < nodes_of(s, paces).len(),
    ensures
        nodes_of(s, paces)[i].mount_padded.len() == widest_mount(s) + 3,
{
    reveal_strlit(" ");
    reveal_strlit(": ");
    lemma_padded(s, paces, widest_mount(s), i);
}

proof fn lemma_padded(s: Seq<FileSystem>, paces: Paces, width: nat, i: int)
    requires
        0 <= i < nodes_in(s, paces, width).len(),
        widest_mount(s) <= width,
        " "@.len() == 1,
        ": "@.len() == 2,
    ensures
        nodes_in(s, paces, width)[i].mount_padded.len() == width + 3,
    decreases s.len(),
{
    if s.len() > 0 {
        let front = nodes_in(s.drop_last(), paces, width);
        if i < front.len() {
            lemma_padded(s.drop_last(), paces, width, i);
        }
    }
}

} // verus!
