//! From one reading to the next: speeds over two readings of the counters, and what is shown
//! of the volumes.

use crate::binary64::{integer, MANTISSA_LIMIT};
use crate::color::disk_capacity_color;
use crate::flows::{law_device_rates, law_interface_rates};
use crate::network::{links_after, links_next, names_of, speeds, Count, Link, Links};
use crate::peaks::SECOND;
use crate::storage::{
    active, device_name, nodes_in, nodes_of, pace_of, paces_after, stale, transfers_after, widest_mount,
    Device, DiskNode, FileSystem, Paces, Transfer, Transfers,
};
use crate::table::{distinct, law_only, law_stored, only, value_of};
use crate::units::share;
use vstd::prelude::*;

verus! {

// ---------------------------------------------------------------------------
// Interfaces
// ---------------------------------------------------------------------------

/// No interface is listed twice.
pub open spec fn single_interfaces(counts: Seq<Count>) -> bool {
    forall|i: int, j: int| 0 <= i < j < counts.len() ==> (#[trigger] counts[i]).iface != (#[trigger] counts[j]).iface
}

proof fn lemma_link_after(links: Links, counts: Seq<Count>, n: nat, i: int, now: u64)
    requires
        distinct(links),
        single_interfaces(counts),
        0 <= i < counts.len(),
        n <= counts.len(),
    ensures
        distinct(links_after(links, counts, n, now)),
        n <= i ==> value_of(links_after(links, counts, n, now), counts[i].iface) == value_of(links, counts[i].iface),
        i < n ==> (value_of(links_after(links, counts, n, now), counts[i].iface) matches Some(link) && link.rx
            == counts[i].rx && link.tx == counts[i].tx && link.seen == now),
    decreases n,
{
    if n > 0 {
        let m = (n - 1) as nat;
        lemma_link_after(links, counts, m, i, now);
        let before = links_after(links, counts, m, now);
        let c = counts[n - 1];
        let link = Link { rx: c.rx, tx: c.tx, seen: now, max: crate::network::capacity_of(before, c) };
        law_stored(before, c.iface, link, counts[i].iface);
        if i < m {
            assert(counts[i].iface != counts[n - 1].iface);
        } else if i > n - 1 {
            assert(counts[n - 1].iface != counts[i].iface);
        }
    }
}

/// Over two readings of the counters, an interface that received and sent so many bytes by the
/// second is shown with these speeds: receiving with what it received, sending with what it
/// sent.
pub proof fn law_speeds_over_two_readings(
    links: Links,
    first: Seq<Count>,
    second: Seq<Count>,
    i: int,
    j: int,
    rx: nat,
    tx: nat,
    secs: nat,
    then: u64,
    now: u64,
)
    requires
        distinct(links),
        single_interfaces(first),
        single_interfaces(second),
        0 <= i < first.len(),
        0 <= j < second.len(),
        second[j].iface == first[i].iface,
        secs > 0,
        now == then + secs * SECOND,
        rx * secs <= MANTISSA_LIMIT,
        tx * secs <= MANTISSA_LIMIT,
        second[j].rx == first[i].rx + rx * secs,
        second[j].tx == first[i].tx + tx * secs,
    ensures
        ({
            let shown = speeds(links_next(links, first, then), second, now)[j];
            shown.iface == first[i].iface && shown.rx == integer(rx) && shown.tx == integer(tx)
        }),
{
    let name = first[i].iface;
    lemma_link_after(links, first, first.len(), i, then);
    let all = links_after(links, first, first.len(), then);
    let kept = links_next(links, first, then);
    assert(names_of(first)[i] == name);
    law_only(all, names_of(first), name);
    lemma_link_after(kept, second, j as nat, j, now);
    let before = links_after(kept, second, j as nat, now);
    law_interface_rates(before, value_of(before, name)->0, second[j], rx, tx, secs, now);
}

// ---------------------------------------------------------------------------
// Devices
// ---------------------------------------------------------------------------

/// No device is listed twice.
pub open spec fn single_devices(devices: Seq<Device>) -> bool {
    forall|i: int, j: int| 0 <= i < j < devices.len() ==> (#[trigger] devices[i]).name != (#[trigger] devices[j]).name
}

proof fn lemma_transfer_after(t: Transfers, devices: Seq<Device>, n: nat, i: int, now: u64)
    requires
        distinct(t),
        single_devices(devices),
        0 <= i < devices.len(),
        n <= devices.len(),
    ensures
        distinct(transfers_after(t, devices, n, now)),
        n <= i ==> value_of(transfers_after(t, devices, n, now), devices[i].name) == value_of(t, devices[i].name),
        i < n ==> value_of(transfers_after(t, devices, n, now), devices[i].name) == Some(
            Transfer { read: devices[i].read * 512, written: devices[i].written * 512, seen: now },
        ),
    decreases n,
{
    if n > 0 {
        let m = (n - 1) as nat;
        lemma_transfer_after(t, devices, m, i, now);
        let before = transfers_after(t, devices, m, now);
        let d = devices[n - 1];
        let transfer = Transfer { read: d.read * 512, written: d.written * 512, seen: now };
        law_stored(before, d.name, transfer, devices[i].name);
        if i < m {
            assert(devices[i].name != devices[n - 1].name);
        } else if i > n - 1 {
            assert(devices[n - 1].name != devices[i].name);
        }
    }
}

proof fn lemma_pace_after(t: Transfers, devices: Seq<Device>, n: nat, i: int, now: u64)
    requires
        distinct(t),
        single_devices(devices),
        0 <= i < n <= devices.len(),
    ensures
        distinct(paces_after(t, devices, n, now)),
        value_of(paces_after(t, devices, n, now), devices[i].name) == Some(
            pace_of(transfers_after(t, devices, i as nat, now), devices[i], now),
        ),
    decreases n,
{
    let m = (n - 1) as nat;
    let before = paces_after(t, devices, m, now);
    let d = devices[n - 1];
    let pace = pace_of(transfers_after(t, devices, m, now), d, now);
    if i < m {
        lemma_pace_after(t, devices, m, i, now);
        assert(devices[i].name != devices[n - 1].name);
    } else if m > 0 {
        lemma_pace_after(t, devices, m, 0, now);
    }
    law_stored(before, d.name, pace, devices[i].name);
}

/// Over two readings of the counters, a device that was read and written so many sectors by
/// the second has these speeds in bytes, of 512 for each sector: reading with what was read,
/// writing with what was written.
pub proof fn law_paces_over_two_readings(
    t: Transfers,
    volumes: Seq<FileSystem>,
    first: Seq<Device>,
    second: Seq<Device>,
    i: int,
    j: int,
    read: nat,
    written: nat,
    secs: nat,
    then: u64,
    now: u64,
)
    requires
        distinct(t),
        single_devices(first),
        single_devices(second),
        0 <= i < first.len(),
        0 <= j < second.len(),
        second[j].name == first[i].name,
        active(volumes).contains(first[i].name),
        secs > 0,
        now == then + secs * SECOND,
        512 * read * secs <= MANTISSA_LIMIT,
        512 * written * secs <= MANTISSA_LIMIT,
        second[j].read == first[i].read + read * secs,
        second[j].written == first[i].written + written * secs,
    ensures
        value_of(
            paces_after(
                only(transfers_after(t, first, first.len(), then), active(volumes)),
                second,
                second.len(),
                now,
            ),
            first[i].name,
        ) == Some((integer(512 * read), integer(512 * written))),
{
    let name = first[i].name;
    lemma_transfer_after(t, first, first.len(), i, then);
    let all = transfers_after(t, first, first.len(), then);
    law_only(all, active(volumes), name);
    let kept = only(all, active(volumes));
    lemma_transfer_after(kept, second, j as nat, j, now);
    let before = transfers_after(kept, second, j as nat, now);
    lemma_pace_after(kept, second, second.len(), j, now);
    assert(512 * (first[i].read + read * secs) == first[i].read * 512 + 512 * read * secs) by (nonlinear_arith);
    assert(512 * (first[i].written + written * secs) == first[i].written * 512 + 512 * written * secs)
        by (nonlinear_arith);
    law_device_rates(before, value_of(before, name)->0, second[j], read, written, secs, now);
}

// ---------------------------------------------------------------------------
// Volumes
// ---------------------------------------------------------------------------

/// What is shown is that of a volume: its path, its bytes, and the speeds of its device.
pub open spec fn shows_volume(n: DiskNode, v: FileSystem, paces: Paces) -> bool {
    &&& n.used_bytes == v.used
    &&& n.total_bytes == v.total
    &&& n.raw_dev_name == device_name(v)
    &&& v.mount.len() + 3 <= n.mount_padded.len()
    &&& n.mount_padded.subrange(1, (1 + v.mount.len()) as int) == v.mount
    &&& value_of(paces, device_name(v)) matches Some(pace) ==> n.r_speed == pace.0 && n.w_speed == pace.1
    &&& value_of(paces, device_name(v)) is None ==> n.r_speed == integer(0) && n.w_speed == integer(0)
}

/// Each volume that holds anything is shown, with its own bytes and the speeds of its own
/// device, in the colour of its share.
pub proof fn law_every_volume_is_shown(s: Seq<FileSystem>, paces: Paces, i: int)
    requires
        0 <= i < s.len(),
        0 < s[i].total <= u64::MAX,
        s[i].used <= u64::MAX,
    ensures
        exists|k: int|
            0 <= k < nodes_of(s, paces).len() && shows_volume(#[trigger] nodes_of(s, paces)[k], s[i], paces)
                && nodes_of(s, paces)[k].capacity_color == disk_capacity_color(
                share(s[i].used, s[i].total),
                crate::storage::copies_on_write(s[i].kind),
            ),
{
    let all = nodes_in(s, paces, widest_mount(s));
    lemma_volume_is_shown(s, paces, widest_mount(s), i);
    let k = choose|k: int|
        0 <= k < all.len() && shows_volume(#[trigger] all[k], s[i], paces) && all[k].capacity_color
            == disk_capacity_color(share(s[i].used, s[i].total), crate::storage::copies_on_write(s[i].kind));
    assert(nodes_of(s, paces)[k] == all[k]);
}

proof fn lemma_volume_is_shown(s: Seq<FileSystem>, paces: Paces, width: nat, i: int)
    requires
        0 <= i < s.len(),
        0 < s[i].total <= u64::MAX,
        s[i].used <= u64::MAX,
    ensures
        exists|k: int|
            0 <= k < nodes_in(s, paces, width).len() && shows_volume(
                #[trigger] nodes_in(s, paces, width)[k],
                s[i],
                paces,
            ) && nodes_in(s, paces, width)[k].capacity_color == disk_capacity_color(
                share(s[i].used, s[i].total),
                crate::storage::copies_on_write(s[i].kind),
            ),
    decreases s.len(),
{
    let front = nodes_in(s.drop_last(), paces, width);
    let all = nodes_in(s, paces, width);
    if i == s.len() - 1 {
        let v = s[i];
        let n = all[front.len() as int];
        reveal_strlit(" ");
        reveal_strlit(": ");
        assert(n.mount_padded.subrange(1, (1 + v.mount.len()) as int) =~= v.mount);
        assert(shows_volume(all[front.len() as int], v, paces));
    } else {
        assert(s.drop_last()[i] == s[i]);
        lemma_volume_is_shown(s.drop_last(), paces, width, i);
        let k = choose|k: int|
            0 <= k < front.len() && shows_volume(#[trigger] front[k], s[i], paces) && front[k].capacity_color
                == disk_capacity_color(share(s[i].used, s[i].total), crate::storage::copies_on_write(s[i].kind));
        assert(all[k] == front[k]);
    }
}

/// The list of mounts is read at first, and again when it is ten seconds old.
pub proof fn law_mounts_are_read_again(read: u64, now: u64)
    requires
        read <= now,
    ensures
        stale(None, now),
        stale(Some(read), now) <==> now - read >= 10_000_000_000,
{
}

} // verus!
