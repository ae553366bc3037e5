//! What speeds, totals and peaks amount to, in whole numbers.

use crate::binary64::{
    at_most, below, integer, law_integers_are_exact, law_numbers_are_ordered, law_rounding_keeps_order,
    lemma_exact, lemma_integer_zero, nearest, one_units, product, quotient, same, sum, Number,
    MANTISSA_LIMIT,
};
use crate::hardware::megahertz;
use crate::memory::{swap_size, swap_used, Swap};
use crate::network::{capacity, traffic_of, Count, Link, Links, Traffic};
use crate::peaks::{elapsed, Watermark, Watermarks, SECOND, SETTLE};
use crate::rates::{growth, rate, seconds};
use crate::state::{disk_totals, net_totals, Status};
use crate::storage::{
    pace_of, total_of, used_of, volume_of, Device, DiskNode, FileSystem, MountPoint, Transfer, Transfers,
    Usage,
};
use crate::table::value_of;
use crate::thermal::{said, Sensor};
use vstd::arithmetic::power2::{lemma_pow2_pos, pow2};
use vstd::prelude::*;

verus! {

// ---------------------------------------------------------------------------
// Whole numbers
// ---------------------------------------------------------------------------

/// The sum of integers is their sum.
pub proof fn law_whole_sum(a: nat, b: nat)
    requires
        a + b <= MANTISSA_LIMIT,
    ensures
        sum(integer(a), integer(b)) == integer(a + b),
{
    law_integers_are_exact(a);
    law_integers_are_exact(b);
    lemma_integer_zero();
    lemma_pow2_pos(1074);
    let one = one_units();
    assert(a * one + b * one == (a + b) * one) by (nonlinear_arith);
    assert((a + b) * one == 0 ==> a + b == 0) by (nonlinear_arith)
        requires
            one > 0,
    ;
}

/// A quotient that is an integer is that integer.
pub proof fn law_whole_quotient(a: nat, b: nat)
    requires
        b > 0,
        a * b <= MANTISSA_LIMIT,
        b <= MANTISSA_LIMIT,
    ensures
        quotient(integer(a * b), integer(b)) == integer(a),
{
    let one = one_units();
    lemma_pow2_pos(1074);
    assert(a <= a * b) by (nonlinear_arith)
        requires
            b > 0,
    ;
    law_integers_are_exact(a);
    law_integers_are_exact(b);
    law_integers_are_exact(a * b);
    let y = integer(b);
    assert(y.units() > 0) by (nonlinear_arith)
        requires
            y.units() == b * one,
            b > 0,
            one > 0,
    ;
    assert(y->mantissa != 0) by {
        if y->mantissa == 0 {
            assert(0 * pow2(y->scale) == 0) by (nonlinear_arith);
        }
    }
    let p = integer(a * b).units() * one;
    let q = y.units();
    assert(p * 1 == a * one * q) by (nonlinear_arith)
        requires
            p == a * b * one * one,
            q == b * one,
    ;
    lemma_rounds_to(integer(a), p, q);
}

/// What is a number of the format is rounded to itself.
proof fn lemma_rounds_to(x: Number, p: nat, q: nat)
    requires
        x is Finite,
        x.valid(),
        !x->Finite_negative,
        q > 0,
        p * 1 == x.units() * q,
    ensures
        nearest(false, p, q) == x,
{
    lemma_exact(x);
    law_rounding_keeps_order(p, q, x.units(), 1);
    law_rounding_keeps_order(x.units(), 1, p, q);
    let y = nearest(false, p, q);
    crate::binary64::lemma_nearest_is_valid(false, p, q);
    lemma_exact(y);
    assert(y.units() == x.units());
}

/// The product of integers is their product.
pub proof fn law_whole_product(a: nat, b: nat)
    requires
        a * b <= MANTISSA_LIMIT,
        a <= MANTISSA_LIMIT,
        b <= MANTISSA_LIMIT,
    ensures
        product(integer(a), integer(b)) == integer(a * b),
{
    let one = one_units();
    lemma_pow2_pos(1074);
    law_integers_are_exact(a);
    law_integers_are_exact(b);
    law_integers_are_exact(a * b);
    let p = integer(a).units() * integer(b).units();
    assert(p * 1 == a * b * one * one) by (nonlinear_arith)
        requires
            p == (a * one) * (b * one),
    ;
    lemma_rounds_to(integer(a * b), p, one);
}

/// All of these numbers together.
pub open spec fn altogether(s: Seq<nat>) -> nat
    decreases s.len(),
{
    if s.len() == 0 {
        0
    } else {
        altogether(s.drop_last()) + s.last()
    }
}

proof fn lemma_part(s: Seq<nat>)
    requires
        s.len() > 0,
    ensures
        altogether(s.drop_last()) <= altogether(s),
        s.last() <= altogether(s),
{
}

// ---------------------------------------------------------------------------
// Totals
// ---------------------------------------------------------------------------

/// One more interface adds what it receives, sends and can take to the totals.
pub proof fn law_one_more_interface(nodes: Seq<Traffic>, n: Traffic)
    ensures
        net_totals(nodes.push(n)).0 == sum(net_totals(nodes).0, n.rx),
        net_totals(nodes.push(n)).1 == sum(net_totals(nodes).1, n.tx),
        net_totals(nodes.push(n)).2 == sum(net_totals(nodes).2, n.max),
        net_totals(seq![n]).0 == sum(integer(0), n.rx),
        net_totals(seq![n]).1 == sum(integer(0), n.tx),
{
    assert(nodes.push(n).drop_last() =~= nodes);
    assert(seq![n].drop_last() =~= Seq::<Traffic>::empty());
    reveal_with_fuel(net_totals, 2);
}

/// Where interfaces receive and send whole bytes by the second, the totals are their sums.
pub proof fn law_net_totals_are_sums(nodes: Seq<Traffic>, rx: Seq<nat>, tx: Seq<nat>)
    requires
        rx.len() == nodes.len(),
        tx.len() == nodes.len(),
        forall|i: int|
            0 <= i < nodes.len() ==> (#[trigger] nodes[i]).rx == integer(rx[i]) && nodes[i].tx == integer(tx[i]),
        altogether(rx) <= MANTISSA_LIMIT,
        altogether(tx) <= MANTISSA_LIMIT,
    ensures
        net_totals(nodes).0 == integer(altogether(rx)),
        net_totals(nodes).1 == integer(altogether(tx)),
    decreases nodes.len(),
{
    if nodes.len() > 0 {
        lemma_part(rx);
        lemma_part(tx);
        let n = nodes.len() - 1;
        assert forall|i: int| 0 <= i < n implies (#[trigger] nodes.drop_last()[i]).rx == integer(rx.drop_last()[i])
            && nodes.drop_last()[i].tx == integer(tx.drop_last()[i]) by {
            assert(nodes.drop_last()[i] == nodes[i]);
        }
        law_net_totals_are_sums(nodes.drop_last(), rx.drop_last(), tx.drop_last());
        law_whole_sum(altogether(rx.drop_last()), rx.last());
        law_whole_sum(altogether(tx.drop_last()), tx.last());
        assert(nodes[n] == nodes.last());
    }
}

/// What the monitor knows of all interfaces together, after their speeds, are the sums.
pub proof fn law_network_is_summed_up(s: Status, nodes: Seq<Traffic>, rx: Seq<nat>, tx: Seq<nat>, now: u64)
    requires
        rx.len() == nodes.len(),
        tx.len() == nodes.len(),
        forall|i: int|
            0 <= i < nodes.len() ==> (#[trigger] nodes[i]).rx == integer(rx[i]) && nodes[i].tx == integer(tx[i]),
        altogether(rx) <= MANTISSA_LIMIT,
        altogether(tx) <= MANTISSA_LIMIT,
    ensures
        s.after_network(nodes, now).net_total_rx == integer(altogether(rx)),
        s.after_network(nodes, now).net_total_tx == integer(altogether(tx)),
        s.after_network(nodes, now).raw_net_nodes == nodes,
{
    law_net_totals_are_sums(nodes, rx, tx);
}

/// What all interfaces together can take is the sum of what each can take.
pub proof fn law_capacities_add_up(nodes: Seq<Traffic>, max: Seq<nat>)
    requires
        max.len() == nodes.len(),
        forall|i: int| 0 <= i < nodes.len() ==> (#[trigger] nodes[i]).max == integer(max[i]),
        altogether(max) <= MANTISSA_LIMIT,
    ensures
        net_totals(nodes).2 == integer(altogether(max)),
    decreases nodes.len(),
{
    if nodes.len() > 0 {
        lemma_part(max);
        let n = nodes.len() - 1;
        assert forall|i: int| 0 <= i < n implies (#[trigger] nodes.drop_last()[i]).max == integer(max.drop_last()[i]) by {
            assert(nodes.drop_last()[i] == nodes[i]);
        }
        law_capacities_add_up(nodes.drop_last(), max.drop_last());
        law_whole_sum(altogether(max.drop_last()), max.last());
        assert(nodes[n] == nodes.last());
    }
}

/// One more volume adds the speeds of its device to the totals, and where devices are
/// read and written whole bytes by the second, the totals are their sums.
pub proof fn law_disk_totals_are_sums(nodes: Seq<DiskNode>, read: Seq<nat>, written: Seq<nat>, n: DiskNode)
    ensures
        disk_totals(nodes.push(n)).0 == sum(disk_totals(nodes).0, n.r_speed),
        disk_totals(nodes.push(n)).1 == sum(disk_totals(nodes).1, n.w_speed),
        read.len() == nodes.len() && written.len() == nodes.len() && altogether(read) <= MANTISSA_LIMIT && altogether(
            written,
        ) <= MANTISSA_LIMIT && (forall|i: int|
            0 <= i < nodes.len() ==> (#[trigger] nodes[i]).r_speed == integer(read[i]) && nodes[i].w_speed == integer(
                written[i],
            )) ==> disk_totals(nodes) == (integer(altogether(read)), integer(altogether(written))),
{
    assert(nodes.push(n).drop_last() =~= nodes);
    if read.len() == nodes.len() && written.len() == nodes.len() && altogether(read) <= MANTISSA_LIMIT && altogether(
        written,
    ) <= MANTISSA_LIMIT && (forall|i: int|
        0 <= i < nodes.len() ==> (#[trigger] nodes[i]).r_speed == integer(read[i]) && nodes[i].w_speed == integer(
            written[i],
        )) {
        lemma_disk_sums(nodes, read, written);
    }
}

proof fn lemma_disk_sums(nodes: Seq<DiskNode>, read: Seq<nat>, written: Seq<nat>)
    requires
        read.len() == nodes.len(),
        written.len() == nodes.len(),
        forall|i: int|
            0 <= i < nodes.len() ==> (#[trigger] nodes[i]).r_speed == integer(read[i]) && nodes[i].w_speed == integer(
                written[i],
            ),
        altogether(read) <= MANTISSA_LIMIT,
        altogether(written) <= MANTISSA_LIMIT,
    ensures
        disk_totals(nodes) == (integer(altogether(read)), integer(altogether(written))),
    decreases nodes.len(),
{
    if nodes.len() > 0 {
        lemma_part(read);
        lemma_part(written);
        let n = nodes.len() - 1;
        assert forall|i: int| 0 <= i < n implies (#[trigger] nodes.drop_last()[i]).r_speed == integer(
            read.drop_last()[i],
        ) && nodes.drop_last()[i].w_speed == integer(written.drop_last()[i]) by {
            assert(nodes.drop_last()[i] == nodes[i]);
        }
        lemma_disk_sums(nodes.drop_last(), read.drop_last(), written.drop_last());
        law_whole_sum(altogether(read.drop_last()), read.last());
        law_whole_sum(altogether(written.drop_last()), written.last());
        assert(nodes[n] == nodes.last());
    }
}

/// The sizes of swap devices and of volumes add up.
pub proof fn law_sizes_add_up(swaps: Seq<Swap>, swap: Swap, volumes: Seq<FileSystem>, v: FileSystem)
    ensures
        swap_used(swaps.push(swap)) == swap_used(swaps) + swap.used,
        swap_size(swaps.push(swap)) == swap_size(swaps) + swap.size,
        swap_used(Seq::empty()) == 0,
        swap_size(Seq::empty()) == 0,
        total_of(volumes.push(v)) == total_of(volumes) + v.total,
        used_of(volumes.push(v)) == used_of(volumes) + (if v.total > 0 {
            v.used
        } else {
            0
        }),
        total_of(Seq::empty()) == 0,
        used_of(Seq::empty()) == 0,
{
    assert(swaps.push(swap).drop_last() =~= swaps);
    assert(volumes.push(v).drop_last() =~= volumes);
}

/// A volume has the bytes of its blocks, and those that are not free are used.
pub proof fn law_volume_is_used_or_free(m: MountPoint, u: Usage)
    requires
        u.free <= u.blocks,
        u.blocks * u.unit <= u64::MAX,
    ensures
        volume_of(m, u).total == u.blocks * u.unit,
        volume_of(m, u).used + u.free * u.unit == u.blocks * u.unit,
        volume_of(m, u).mount == m.path,
        volume_of(m, u).device == m.device,
        volume_of(m, u).kind == m.kind,
        volume_of(m, u).fsid == u.fsid,
{
    assert(u.free * u.unit <= u.blocks * u.unit) by (nonlinear_arith)
        requires
            u.free <= u.blocks,
    ;
}

// ---------------------------------------------------------------------------
// Rates
// ---------------------------------------------------------------------------

/// Whole seconds are as many seconds.
pub proof fn law_whole_seconds(n: nat)
    requires
        n <= MANTISSA_LIMIT,
    ensures
        seconds(n * SECOND as nat) == integer(n),
{
    let nanos = n * SECOND as nat;
    assert(nanos / SECOND as nat == n && nanos % SECOND as nat == 0);
    law_whole_quotient(0, SECOND as nat);
    assert(0 * SECOND as nat == 0);
    law_whole_sum(n, 0);
}

/// A counter that grew by the same every second has that rate.
pub proof fn law_rate_by_the_second(before: nat, then: u64, each: nat, secs: nat, now: u64)
    requires
        secs > 0,
        now == then + secs * SECOND,
        each * secs <= MANTISSA_LIMIT,
    ensures
        rate(before, then, before + each * secs, now) == integer(each),
{
    assert(secs <= MANTISSA_LIMIT);
    assert(elapsed(then, now) == secs * SECOND as nat);
    law_whole_seconds(secs);
    law_integers_are_exact(secs);
    law_integers_are_exact(0);
    lemma_pow2_pos(1074);
    assert(secs * one_units() > 0 * one_units()) by (nonlinear_arith)
        requires
            secs > 0,
            one_units() > 0,
    ;
    assert(growth(before, before + each * secs) == each * secs);
    law_whole_quotient(each, secs);
}

/// A counter that fell, and one that was read twice at one time, has no rate.
pub proof fn law_no_rate(before: nat, then: u64, after: nat, now: u64)
    ensures
        now <= then ==> rate(before, then, after, now) == integer(0),
        after < before && now - then >= SECOND && (now - then) % (SECOND as int) == 0 ==> rate(before, then, after, now)
            == integer(0),
{
    law_integers_are_exact(0);
    if now <= then {
        law_whole_seconds(0);
        assert(0 * SECOND as nat == 0);
    } else if after < before && now - then >= SECOND && (now - then) % (SECOND as int) == 0 {
        let secs = ((now - then) / (SECOND as int)) as nat;
        assert(now == then + secs * SECOND);
        assert(0 * secs == 0);
        law_rate_by_the_second(before, then, 0, secs, now);
        assert(growth(before, after) == growth(before, before + 0 * secs));
    }
}

/// An interface receives at the rate of the bytes that it received and sends at the rate
/// of those that it sent.
pub proof fn law_interface_rates(links: Links, link: Link, c: Count, rx: nat, tx: nat, secs: nat, now: u64)
    requires
        value_of(links, c.iface) == Some(link),
        secs > 0,
        now == link.seen + secs * SECOND,
        rx * secs <= MANTISSA_LIMIT,
        tx * secs <= MANTISSA_LIMIT,
        c.rx == link.rx + rx * secs,
        c.tx == link.tx + tx * secs,
    ensures
        traffic_of(links, c, now).rx == integer(rx),
        traffic_of(links, c, now).tx == integer(tx),
        traffic_of(links, c, now).iface == c.iface,
{
    law_rate_by_the_second(link.rx, link.seen, rx, secs, now);
    law_rate_by_the_second(link.tx, link.seen, tx, secs, now);
}

/// A device is read and written at the rates of its sectors, of 512 bytes each.
pub proof fn law_device_rates(t: Transfers, before: Transfer, d: Device, read: nat, written: nat, secs: nat, now: u64)
    requires
        value_of(t, d.name) == Some(before),
        secs > 0,
        now == before.seen + secs * SECOND,
        512 * read * secs <= MANTISSA_LIMIT,
        512 * written * secs <= MANTISSA_LIMIT,
        512 * d.read == before.read + 512 * read * secs,
        512 * d.written == before.written + 512 * written * secs,
    ensures
        pace_of(t, d, now) == (integer(512 * read), integer(512 * written)),
{
    law_rate_by_the_second(before.read, before.seen, 512 * read, secs, now);
    law_rate_by_the_second(before.written, before.seen, 512 * written, secs, now);
}

/// What an interface can take, in bytes, is an eighth of its bits by the second; it is a
/// gigabit where nothing is said.
pub proof fn law_capacity_in_bytes(mbps: nat)
    requires
        mbps * 1_000_000 <= MANTISSA_LIMIT,
    ensures
        capacity(Some(integer(mbps))) == integer(mbps * 125_000),
        capacity(None) == integer(125_000_000),
{
    law_whole_product(mbps, 1_000_000);
    assert(mbps * 1_000_000 == mbps * 125_000 * 8) by (nonlinear_arith);
    law_whole_quotient(mbps * 125_000, 8);
    law_whole_product(1000, 1_000_000);
    law_whole_quotient(125_000_000, 8);
}

/// Temperatures come in thousandths of a degree and frequencies in kilohertz.
pub proof fn law_thousandths(sensor: Sensor, k: nat)
    requires
        k * 1000 <= MANTISSA_LIMIT,
    ensures
        said(sensor, integer(k * 1000)).val == integer(k),
        said(sensor, integer(k * 1000)).label == sensor.label,
        said(sensor, integer(k * 1000)).is_parent == sensor.is_parent,
        megahertz(integer(k * 1000)) == integer(k),
{
    law_whole_quotient(k, 1000);
}

// ---------------------------------------------------------------------------
// Peaks of storage
// ---------------------------------------------------------------------------

/// Reading does not change what is remembered of writing, nor writing what is remembered
/// of reading.
pub proof fn law_reading_apart_from_writing(m: Watermarks, r: Number, w: Number, other: Number, now: u64)
    ensures
        m.after(r, w, now).read == m.after(r, other, now).read,
        m.after(r, w, now).write == m.after(other, w, now).write,
        r !is Nan && m.read.settled() ==> at_most(r, m.after(r, w, now).read.pending),
        w !is Nan && m.write.settled() ==> at_most(w, m.after(r, w, now).write.pending),
{
    if r !is Nan && m.read.settled() {
        law_numbers_are_ordered(m.read.pending, r, r);
        law_numbers_are_ordered(r, r, r);
    }
    if w !is Nan && m.write.settled() {
        law_numbers_are_ordered(m.write.pending, w, w);
        law_numbers_are_ordered(w, w, w);
    }
}

/// After speeds of a device, each of reading and of writing with its time.
pub open spec fn after_speeds(m: Watermarks, speeds: Seq<(Number, Number, u64)>) -> Watermarks
    decreases speeds.len(),
{
    if speeds.len() == 0 {
        m
    } else {
        let x = speeds.last();
        after_speeds(m, speeds.drop_last()).after(x.0, x.1, x.2)
    }
}

/// What a reader is told of a device that was only read: no writing at all, and the other
/// way round.
pub proof fn law_only_read_or_written(start: u64, speeds: Seq<(Number, Number, u64)>)
    ensures
        (forall|i: int| 0 <= i < speeds.len() ==> (#[trigger] speeds[i]).1 == integer(0)) ==> after_speeds(
            Watermarks::none(start),
            speeds,
        ).write.current == integer(0),
        (forall|i: int| 0 <= i < speeds.len() ==> (#[trigger] speeds[i]).0 == integer(0)) ==> after_speeds(
            Watermarks::none(start),
            speeds,
        ).read.current == integer(0),
{
    if forall|i: int| 0 <= i < speeds.len() ==> (#[trigger] speeds[i]).1 == integer(0) {
        lemma_never_written(start, speeds);
    }
    if forall|i: int| 0 <= i < speeds.len() ==> (#[trigger] speeds[i]).0 == integer(0) {
        lemma_never_read(start, speeds);
    }
}

proof fn lemma_never_written(start: u64, speeds: Seq<(Number, Number, u64)>)
    requires
        forall|i: int| 0 <= i < speeds.len() ==> (#[trigger] speeds[i]).1 == integer(0),
    ensures
        after_speeds(Watermarks::none(start), speeds).write.current == integer(0),
        after_speeds(Watermarks::none(start), speeds).write.pending == integer(0),
    decreases speeds.len(),
{
    law_integers_are_exact(0);
    if speeds.len() > 0 {
        assert forall|i: int| 0 <= i < speeds.len() - 1 implies (#[trigger] speeds.drop_last()[i]).1 == integer(0) by {
            assert(speeds.drop_last()[i] == speeds[i]);
        }
        lemma_never_written(start, speeds.drop_last());
        assert(speeds[speeds.len() - 1] == speeds.last());
    }
}

proof fn lemma_never_read(start: u64, speeds: Seq<(Number, Number, u64)>)
    requires
        forall|i: int| 0 <= i < speeds.len() ==> (#[trigger] speeds[i]).0 == integer(0),
    ensures
        after_speeds(Watermarks::none(start), speeds).read.current == integer(0),
        after_speeds(Watermarks::none(start), speeds).read.pending == integer(0),
    decreases speeds.len(),
{
    law_integers_are_exact(0);
    if speeds.len() > 0 {
        assert forall|i: int| 0 <= i < speeds.len() - 1 implies (#[trigger] speeds.drop_last()[i]).0 == integer(0) by {
            assert(speeds.drop_last()[i] == speeds[i]);
        }
        lemma_never_read(start, speeds.drop_last());
        assert(speeds[speeds.len() - 1] == speeds.last());
    }
}

/// After speeds in one direction, each with its time.
pub open spec fn after_paces(w: Watermark, speeds: Seq<(Number, u64)>) -> Watermark
    decreases speeds.len(),
{
    if speeds.len() == 0 {
        w
    } else {
        after_paces(w, speeds.drop_last()).after(speeds.last().0, speeds.last().1)
    }
}

/// Each direction of a device goes by its own speeds alone.
pub proof fn law_directions_are_apart(start: u64, speeds: Seq<(Number, Number, u64)>)
    ensures
        after_speeds(Watermarks::none(start), speeds).read == after_paces(
            Watermark::none(start),
            Seq::new(speeds.len(), |i: int| (speeds[i].0, speeds[i].2)),
        ),
        after_speeds(Watermarks::none(start), speeds).write == after_paces(
            Watermark::none(start),
            Seq::new(speeds.len(), |i: int| (speeds[i].1, speeds[i].2)),
        ),
    decreases speeds.len(),
{
    if speeds.len() > 0 {
        let front = speeds.drop_last();
        law_directions_are_apart(start, front);
        let r = Seq::new(speeds.len(), |i: int| (speeds[i].0, speeds[i].2));
        let w = Seq::new(speeds.len(), |i: int| (speeds[i].1, speeds[i].2));
        assert(r.drop_last() =~= Seq::new(front.len(), |i: int| (front[i].0, front[i].2)));
        assert(w.drop_last() =~= Seq::new(front.len(), |i: int| (front[i].1, front[i].2)));
    }
}

/// The speed at `k` is the first of those that none is above.
pub open spec fn fastest(speeds: Seq<(Number, u64)>, k: int) -> bool {
    &&& 0 <= k < speeds.len()
    &&& forall|j: int| 0 <= j < speeds.len() ==> at_most((#[trigger] speeds[j]).0, speeds[k].0)
    &&& forall|j: int| 0 <= j < k ==> below((#[trigger] speeds[j]).0, speeds[k].0)
}

/// What waits is no number that was not seen, and the peak is not above it.
proof fn lemma_waiting(start: u64, speeds: Seq<(Number, u64)>)
    requires
        forall|i: int| 0 <= i < speeds.len() ==> (#[trigger] speeds[i]).0 !is Nan,
    ensures
        ({
            let w = after_paces(Watermark::none(start), speeds);
            &&& w.settled()
            &&& w.pending !is Nan
            &&& w.current !is Nan
            &&& w.pending == integer(0) || exists|i: int| 0 <= i < speeds.len() && w.pending == (#[trigger] speeds[i]).0
        }),
    decreases speeds.len(),
{
    law_integers_are_exact(0);
    if speeds.len() > 0 {
        let front = speeds.drop_last();
        assert forall|i: int| 0 <= i < front.len() implies (#[trigger] front[i]).0 !is Nan by {
            assert(front[i] == speeds[i]);
        }
        lemma_waiting(start, front);
        let w = after_paces(Watermark::none(start), front);
        let x = speeds.last().0;
        assert(speeds[speeds.len() - 1] == speeds.last());
        law_numbers_are_ordered(w.current, w.pending, x);
        law_numbers_are_ordered(w.pending, w.pending, w.pending);
        law_numbers_are_ordered(x, x, x);
        if !below(w.pending, x) && w.pending != integer(0) {
            let i = choose|i: int| 0 <= i < front.len() && w.pending == (#[trigger] front[i]).0;
            assert(speeds[i] == front[i]);
        }
    }
}

/// The peak of a direction is the fastest speed of all, once it has stood long enough.
pub proof fn law_fastest_speed_settles(start: u64, speeds: Seq<(Number, u64)>, k: int)
    requires
        forall|i: int| 0 <= i < speeds.len() ==> (#[trigger] speeds[i]).0 !is Nan,
        forall|i: int, j: int| 0 <= i <= j < speeds.len() ==> (#[trigger] speeds[i]).1 <= (#[trigger] speeds[j]).1,
        fastest(speeds, k),
        below(integer(0), speeds[k].0),
    ensures
        after_paces(Watermark::none(start), speeds).pending == speeds[k].0,
        after_paces(Watermark::none(start), speeds).pending_time == speeds[k].1,
        at_most(after_paces(Watermark::none(start), speeds).current, speeds[k].0),
        speeds.last().1 - speeds[k].1 >= SETTLE ==> same(
            after_paces(Watermark::none(start), speeds).current,
            speeds[k].0,
        ),
    decreases speeds.len(),
{
    let n = speeds.len() - 1;
    let front = speeds.drop_last();
    assert(speeds[n] == speeds.last());
    assert forall|i: int| 0 <= i < front.len() implies (#[trigger] front[i]).0 !is Nan by {
        assert(front[i] == speeds[i]);
    }
    law_integers_are_exact(0);
    lemma_waiting(start, front);
    lemma_waiting(start, speeds);
    let w = after_paces(Watermark::none(start), front);
    let x = speeds[k].0;
    if k == n {
        if w.pending != integer(0) {
            let i = choose|i: int| 0 <= i < front.len() && w.pending == (#[trigger] front[i]).0;
            assert(front[i] == speeds[i]);
            assert(below(speeds[i].0, x));
        }
        assert(below(w.pending, x));
    } else {
        assert forall|i: int, j: int| 0 <= i <= j < front.len() implies (#[trigger] front[i]).1 <= (
        #[trigger] front[j]).1 by {
            assert(front[i] == speeds[i] && front[j] == speeds[j]);
        }
        assert(front[k] == speeds[k]);
        assert(fastest(front, k)) by {
            assert forall|j: int| 0 <= j < front.len() implies at_most((#[trigger] front[j]).0, front[k].0) by {
                assert(front[j] == speeds[j]);
            }
            assert forall|j: int| 0 <= j < k implies below((#[trigger] front[j]).0, front[k].0) by {
                assert(front[j] == speeds[j]);
            }
        }
        law_fastest_speed_settles(start, front, k);
        assert(at_most(speeds[n].0, x));
        law_numbers_are_ordered(speeds[n].0, x, x);
        law_numbers_are_ordered(w.current, x, x);
        law_numbers_are_ordered(x, w.current, x);
        assert(elapsed(speeds[k].1, speeds[n].1) == speeds[n].1 - speeds[k].1);
    }
}

} // verus!
