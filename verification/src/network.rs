//! Network interfaces: their counters, how fast they can be, and how they come and
//! go.

use crate::binary64::{integer, product, quotient, read_number, Number, Real};
use crate::decimal::{count, count_in};
use crate::order::views;
use crate::rates::{rate, rate_of};
use crate::table::{
    distinct, find, keep_only, law_only, law_stored, lemma_slot, listed, missing, only, rows_of, store,
    stored, value_of, Entry,
};
use crate::text::{behind, equal, lines, lines_of, texts, trim_trailing, without_trailing, words, words_of};
use vstd::prelude::*;

verus! {

// ---------------------------------------------------------------------------
// Counters
// ---------------------------------------------------------------------------

/// The counters of an interface, and what its driver says of its speed, in
/// megabits per second.
pub struct Counters {
    pub iface: String,
    pub rx: u64,
    pub tx: u64,
    pub mbps: Option<Real>,
}

/// The counters of an interface.
#[verifier::ext_equal]
pub struct Count {
    pub iface: Seq<char>,
    pub rx: nat,
    pub tx: nat,
    pub mbps: Option<Number>,
}

impl View for Counters {
    type V = Count;

    open spec fn view(&self) -> Count {
        Count { iface: self.iface@, rx: self.rx as nat, tx: self.tx as nat, mbps: read_number(self.mbps) }
    }
}

/// The counters of a line, unless it is that of the loopback interface.
pub open spec fn counters_in(line: Seq<char>) -> Option<Count> {
    let w = words_of(line);
    if w.len() >= 17 && without_trailing(w[0], ':') != "lo"@ {
        Some(
            Count { iface: without_trailing(w[0], ':'), rx: count_in(w[1]), tx: count_in(w[9]), mbps: None },
        )
    } else {
        None
    }
}

/// The counters of these lines.
pub open spec fn all_counters(lines: Seq<Seq<char>>) -> Seq<Count>
    decreases lines.len(),
{
    if lines.len() == 0 {
        Seq::empty()
    } else {
        match counters_in(lines.last()) {
            Some(c) => all_counters(lines.drop_last()).push(c),
            None => all_counters(lines.drop_last()),
        }
    }
}

/// The counters of the interfaces, from their table with its two lines of headings.
/// The speeds are still to be asked for.
pub fn interface_counters(table: &str) -> (r: Vec<Counters>)
    ensures
        views(r@) == all_counters(behind(lines_of(table@), 2)),
{
    let all = lines(table);
    let ghost wanted = behind(lines_of(table@), 2);
    let mut r: Vec<Counters> = Vec::new();
    let mut i: usize = 2;
    proof {
        assert(wanted.take(0) =~= Seq::empty());
        assert(views(r@) =~= Seq::empty());
    }
    while i < all.len()
        invariant
            2 <= i,
            i <= all.len() || i == 2,
            wanted == behind(texts(all@), 2),
            views(r@) == all_counters(wanted.take(i - 2)),
        decreases all.len() - i,
    {
        let line: &str = all[i].as_str();
        let ghost before = r@;
        proof {
            assert(wanted.take(i - 1).drop_last() =~= wanted.take(i - 2));
            assert(wanted.take(i - 1).last() == line@);
        }
        let w = words(line);
        proof {
            assert(texts(w@) == words_of(line@));
        }
        if w.len() >= 17 {
            proof {
                assert(texts(w@)[0] == w@[0]@ && texts(w@)[1] == w@[1]@ && texts(w@)[9] == w@[9]@);
            }
            let iface = trim_trailing(w[0].as_str(), ':');
            if !equal(iface.as_str(), "lo") {
                let c = Counters { iface, rx: count(w[1].as_str()), tx: count(w[9].as_str()), mbps: None };
                proof {
                    assert(views(before.push(c)) =~= views(before).push(c@));
                }
                r.push(c);
            }
        }
        i = i + 1;
    }
    proof {
        assert(wanted.take(wanted.len() as int) =~= wanted);
    }
    r
}

// ---------------------------------------------------------------------------
// From counters to speeds
// ---------------------------------------------------------------------------

/// What is remembered of an interface: its counters, when they were read, and how
/// many bytes per second it can take.
pub struct LinkState {
    pub rx: u64,
    pub tx: u64,
    pub seen: u64,
    pub max: Real,
}

/// What is remembered of an interface.
#[verifier::ext_equal]
pub struct Link {
    pub rx: nat,
    pub tx: nat,
    pub seen: u64,
    pub max: Number,
}

impl View for LinkState {
    type V = Link;

    open spec fn view(&self) -> Link {
        Link { rx: self.rx as nat, tx: self.tx as nat, seen: self.seen, max: self.max@ }
    }
}

/// The speeds of an interface and the most it can take, in bytes per second.
pub struct NetNode {
    pub iface: String,
    pub rx: Real,
    pub tx: Real,
    pub max: Real,
}

/// The speeds of an interface.
#[verifier::ext_equal]
pub struct Traffic {
    pub iface: Seq<char>,
    pub rx: Number,
    pub tx: Number,
    pub max: Number,
}

impl View for NetNode {
    type V = Traffic;

    open spec fn view(&self) -> Traffic {
        Traffic { iface: self.iface@, rx: self.rx@, tx: self.tx@, max: self.max@ }
    }
}

/// An interface has come or gone.
#[derive(Clone, Copy, Debug, PartialEq, Eq, Structural)]
pub enum Change {
    Activated,
    Deactivated,
}

/// An interface that has come or gone.
pub struct NetEvent {
    pub iface: String,
    pub change: Change,
}

impl View for NetEvent {
    type V = (Seq<char>, Change);

    open spec fn view(&self) -> (Seq<char>, Change) {
        (self.iface@, self.change)
    }
}

/// The interfaces that are remembered.
pub type Links = Seq<(Seq<char>, Link)>;

/// The speed of an interface whose driver states none, in megabits per second.
pub const DEFAULT_MBPS: u64 = 1000;

/// The most an interface can take, in bytes per second.
pub open spec fn capacity(mbps: Option<Number>) -> Number {
    let stated = match mbps {
        Some(x) => x,
        None => integer(DEFAULT_MBPS as nat),
    };
    quotient(product(stated, integer(1_000_000)), integer(8))
}

/// The most an interface can take: what is remembered, or what is stated now.
pub open spec fn capacity_of(links: Links, c: Count) -> Number {
    match value_of(links, c.iface) {
        Some(link) => link.max,
        None => capacity(c.mbps),
    }
}

/// The speeds of an interface since it was last seen; none at first sight.
pub open spec fn traffic_of(links: Links, c: Count, now: u64) -> Traffic {
    match value_of(links, c.iface) {
        Some(link) => Traffic {
            iface: c.iface,
            rx: rate(link.rx, link.seen, c.rx, now),
            tx: rate(link.tx, link.seen, c.tx, now),
            max: link.max,
        },
        None => Traffic { iface: c.iface, rx: integer(0), tx: integer(0), max: capacity(c.mbps) },
    }
}

/// What is remembered after the first `n` interfaces.
pub open spec fn links_after(links: Links, counts: Seq<Count>, n: nat, now: u64) -> Links
    decreases n,
{
    if n == 0 {
        links
    } else {
        let before = links_after(links, counts, (n - 1) as nat, now);
        let c = counts[n - 1];
        stored(before, c.iface, Link { rx: c.rx, tx: c.tx, seen: now, max: capacity_of(before, c) })
    }
}

/// The speeds of the interfaces.
pub open spec fn speeds(links: Links, counts: Seq<Count>, now: u64) -> Seq<Traffic> {
    Seq::new(counts.len(), |i: int| traffic_of(links_after(links, counts, i as nat, now), counts[i], now))
}

/// The first `n` interfaces that are seen for the first time.
pub open spec fn arrivals(links: Links, counts: Seq<Count>, n: nat, now: u64) -> Seq<(Seq<char>, Change)>
    decreases n,
{
    if n == 0 {
        Seq::empty()
    } else {
        let front = arrivals(links, counts, (n - 1) as nat, now);
        let iface = counts[n - 1].iface;
        if value_of(links_after(links, counts, (n - 1) as nat, now), iface) is None {
            front.push((iface, Change::Activated))
        } else {
            front
        }
    }
}

/// The names of the interfaces.
pub open spec fn names_of(counts: Seq<Count>) -> Seq<Seq<char>> {
    Seq::new(counts.len(), |i: int| counts[i].iface)
}

/// The interfaces that are no longer there.
pub open spec fn departures(names: Seq<Seq<char>>) -> Seq<(Seq<char>, Change)> {
    Seq::new(names.len(), |i: int| (names[i], Change::Deactivated))
}

/// What is remembered after all interfaces: of those that are still there.
pub open spec fn links_next(links: Links, counts: Seq<Count>, now: u64) -> Links {
    only(links_after(links, counts, counts.len(), now), names_of(counts))
}

/// The interfaces that have come, and those that have gone.
pub open spec fn changes(links: Links, counts: Seq<Count>, now: u64) -> Seq<(Seq<char>, Change)> {
    arrivals(links, counts, counts.len(), now) + departures(
        missing(links_after(links, counts, counts.len(), now), names_of(counts)),
    )
}

/// The interfaces that are remembered from one reading to the next.
pub struct NetMeter {
    links: Vec<Entry<LinkState>>,
}

impl View for NetMeter {
    type V = Links;

    closed spec fn view(&self) -> Links {
        rows_of(self.links@)
    }
}

impl NetMeter {
    /// No interface is remembered.
    pub fn new() -> (r: NetMeter)
        ensures
            r@ == Seq::<(Seq<char>, Link)>::empty(),
    {
        let links: Vec<Entry<LinkState>> = Vec::new();
        proof {
            assert(rows_of(links@) =~= Seq::empty());
        }
        NetMeter { links }
    }

    /// The interface is remembered, and so is how much it can take.
    pub fn knows(&self, iface: &str) -> (r: bool)
        ensures
            r == listed(self@, iface@),
    {
        proof {
            lemma_slot(rows_of(self.links@), iface@);
        }
        find(&self.links, iface) < self.links.len()
    }

    fn read(&mut self, c: &Counters, now: u64) -> (r: (NetNode, bool))
        ensures
            final(self)@ == stored(
                old(self)@,
                c@.iface,
                Link { rx: c@.rx, tx: c@.tx, seen: now, max: capacity_of(old(self)@, c@) },
            ),
            r.0@ == traffic_of(old(self)@, c@, now),
            r.1 == (value_of(old(self)@, c@.iface) is None),
    {
        let i: usize = find(&self.links, c.iface.as_str());
        let (rx, tx, max, new): (Real, Real, Real, bool) = if i < self.links.len() {
            let link = &self.links[i].value;
            (rate_of(link.rx, link.seen, c.rx, now), rate_of(link.tx, link.seen, c.tx, now), link.max, false)
        } else {
            let stated: Real = match c.mbps {
                Some(x) => x,
                None => Real::from_u64(DEFAULT_MBPS),
            };
            let max = stated.times(Real::from_u64(1_000_000)).over(Real::from_u64(8));
            (Real::from_u64(0), Real::from_u64(0), max, true)
        };
        let link = LinkState { rx: c.rx, tx: c.tx, seen: now, max };
        store(&mut self.links, c.iface.as_str(), link);
        (NetNode { iface: c.iface.clone(), rx, tx, max }, new)
    }

    /// Reads all counters: gives the speeds, and the interfaces that have come or
    /// gone.
    pub fn step(&mut self, counts: &Vec<Counters>, now: u64) -> (r: (Vec<NetNode>, Vec<NetEvent>))
        ensures
            final(self)@ == links_next(old(self)@, views(counts@), now),
            views(r.0@) == speeds(old(self)@, views(counts@), now),
            views(r.1@) == changes(old(self)@, views(counts@), now),
    {
        let ghost start = self@;
        let ghost all = views(counts@);
        let mut nodes: Vec<NetNode> = Vec::new();
        let mut events: Vec<NetEvent> = Vec::new();
        let mut names: Vec<String> = Vec::new();
        let mut i: usize = 0;
        proof {
            assert(views(nodes@) =~= speeds(start, all, now).take(0));
            assert(views(events@) =~= Seq::empty());
            assert(texts(names@) =~= names_of(all).take(0));
        }
        while i < counts.len()
            invariant
                i <= counts.len(),
                all == views(counts@),
                self@ == links_after(start, all, i as nat, now),
                views(nodes@) == speeds(start, all, now).take(i as int),
                views(events@) == arrivals(start, all, i as nat, now),
                texts(names@) == names_of(all).take(i as int),
            decreases counts.len() - i,
        {
            let ghost old_nodes = nodes@;
            let ghost old_events = events@;
            let ghost old_names = names@;
            let c: &Counters = &counts[i];
            proof {
                assert(all[i as int] == c@);
            }
            let (node, new) = self.read(c, now);
            names.push(c.iface.clone());
            proof {
                assert(texts(names@) =~= texts(old_names).push(c@.iface));
                assert(names_of(all).take(i + 1) =~= names_of(all).take(i as int).push(c@.iface));
                assert(views(old_nodes.push(node)) =~= views(old_nodes).push(node@));
                assert(speeds(start, all, now).take(i + 1) =~= speeds(start, all, now).take(i as int).push(node@));
            }
            nodes.push(node);
            if new {
                let event = NetEvent { iface: c.iface.clone(), change: Change::Activated };
                proof {
                    assert(views(old_events.push(event)) =~= views(old_events).push(event@));
                }
                events.push(event);
            }
            i = i + 1;
        }
        proof {
            assert(speeds(start, all, now).take(all.len() as int) =~= speeds(start, all, now));
            assert(names_of(all).take(all.len() as int) =~= names_of(all));
        }
        let mut links: Vec<Entry<LinkState>> = Vec::new();
        std::mem::swap(&mut links, &mut self.links);
        let (kept, gone) = keep_only(links, &names);
        self.links = kept;
        let ghost came = views(events@);
        let mut k: usize = 0;
        proof {
            assert(came + departures(texts(gone@)).take(0) =~= came);
        }
        while k < gone.len()
            invariant
                k <= gone.len(),
                views(events@) == came + departures(texts(gone@)).take(k as int),
            decreases gone.len() - k,
        {
            let ghost old_events = events@;
            let event = NetEvent { iface: gone[k].clone(), change: Change::Deactivated };
            proof {
                assert(departures(texts(gone@))[k as int] == event@);
                assert(views(old_events.push(event)) =~= views(old_events).push(event@));
                assert(departures(texts(gone@)).take(k + 1) =~= departures(texts(gone@)).take(k as int).push(event@));
                assert(came + departures(texts(gone@)).take(k + 1) =~= (came + departures(texts(gone@)).take(
                    k as int,
                )).push(event@));
            }
            events.push(event);
            k = k + 1;
        }
        proof {
            assert(departures(texts(gone@)).take(gone.len() as int) =~= departures(texts(gone@)));
        }
        (nodes, events)
    }
}

// ---------------------------------------------------------------------------
// Laws
// ---------------------------------------------------------------------------

proof fn lemma_links_after(links: Links, counts: Seq<Count>, n: nat, now: u64, name: Seq<char>)
    requires
        distinct(links),
        n <= counts.len(),
    ensures
        distinct(links_after(links, counts, n, now)),
        listed(links_after(links, counts, n, now), name) <==> listed(links, name) || names_of(counts).take(
            n as int,
        ).contains(name),
        arrivals(links, counts, n, now).contains((name, Change::Activated)) <==> !listed(links, name) && names_of(
            counts,
        ).take(n as int).contains(name),
        forall|i: int|
            0 <= i < arrivals(links, counts, n, now).len() ==> (#[trigger] arrivals(links, counts, n, now)[i]).1
                == Change::Activated,
    decreases n,
{
    let names = names_of(counts);
    if n > 0 {
        let m = (n - 1) as nat;
        lemma_links_after(links, counts, m, now, name);
        let before = links_after(links, counts, m, now);
        let c = counts[n - 1];
        let link = Link { rx: c.rx, tx: c.tx, seen: now, max: capacity_of(before, c) };
        law_stored(before, c.iface, link, name);
        lemma_slot(before, c.iface);
        lemma_links_after(links, counts, m, now, c.iface);
        assert(names.take(n as int) =~= names.take(m as int).push(c.iface));
        lemma_contains_push(names.take(m as int), c.iface, name);
        lemma_contains_push(
            arrivals(links, counts, m, now),
            (c.iface, Change::Activated),
            (name, Change::Activated),
        );
    } else {
        assert(names.take(0).len() == 0);
    }
}

proof fn lemma_contains_push<A>(s: Seq<A>, x: A, y: A)
    ensures
        s.push(x).contains(y) <==> s.contains(y) || x == y,
{
    let r = s.push(x);
    if s.contains(y) {
        let i = choose|i: int| 0 <= i < s.len() && s[i] == y;
        assert(r[i] == y);
    }
    if x == y {
        assert(r[s.len() as int] == y);
    }
    if r.contains(y) {
        let i = choose|i: int| 0 <= i < r.len() && r[i] == y;
        if i < s.len() {
            assert(s[i] == y);
        }
    }
}

/// An interface is reported as activated if and only if it was not there before and
/// is there now, as deactivated if and only if it was there before and is not
/// there now; afterwards exactly the interfaces that are there are remembered, each
/// once.
pub proof fn law_changes_are_reported(links: Links, counts: Seq<Count>, now: u64, name: Seq<char>)
    requires
        distinct(links),
    ensures
        changes(links, counts, now).contains((name, Change::Activated)) <==> !listed(links, name) && names_of(
            counts,
        ).contains(name),
        changes(links, counts, now).contains((name, Change::Deactivated)) <==> listed(links, name) && !names_of(
            counts,
        ).contains(name),
        listed(links_next(links, counts, now), name) <==> names_of(counts).contains(name),
        distinct(links_next(links, counts, now)),
{
    let n = counts.len();
    let names = names_of(counts);
    let after = links_after(links, counts, n, now);
    lemma_links_after(links, counts, n, now, name);
    assert(names.take(n as int) =~= names);
    law_only(after, names, name);
    let a = arrivals(links, counts, n, now);
    let gone = missing(after, names);
    let d = departures(gone);
    let all = changes(links, counts, now);
    assert(all == a + d);
    if a.contains((name, Change::Activated)) {
        let i = choose|i: int| 0 <= i < a.len() && a[i] == (name, Change::Activated);
        assert(all[i] == (name, Change::Activated));
    }
    if all.contains((name, Change::Activated)) {
        let i = choose|i: int| 0 <= i < all.len() && all[i] == (name, Change::Activated);
        if i < a.len() {
            assert(a[i] == (name, Change::Activated));
        } else {
            assert(d[i - a.len()] == all[i]);
        }
    }
    if gone.contains(name) {
        let i = choose|i: int| 0 <= i < gone.len() && gone[i] == name;
        assert(d[i] == (name, Change::Deactivated));
        assert(all[a.len() + i] == d[i]);
    }
    if all.contains((name, Change::Deactivated)) {
        let i = choose|i: int| 0 <= i < all.len() && all[i] == (name, Change::Deactivated);
        if i < a.len() {
            assert(a[i].1 == Change::Activated);
        } else {
            assert(d[i - a.len()] == all[i]);
            assert(gone[i - a.len()] == name);
        }
    }
}

/// Each interface is shown once for each line of its counters, under its name, in
/// the order of the lines.
pub proof fn law_every_interface_has_speeds(links: Links, counts: Seq<Count>, now: u64)
    ensures
        speeds(links, counts, now).len() == counts.len(),
        forall|i: int| 0 <= i < counts.len() ==> (#[trigger] speeds(links, counts, now)[i]).iface == counts[i].iface,
{
}

/// An interface that is seen for the first time has no speed yet, and while it is
/// there the most it can take stays what it was at first.
pub proof fn law_capacity_is_remembered(links: Links, c: Count, now: u64)
    ensures
        !listed(links, c.iface) ==> traffic_of(links, c, now).rx == integer(0) && traffic_of(links, c, now).tx
            == integer(0) && traffic_of(links, c, now).max == capacity(c.mbps),
        value_of(links, c.iface) matches Some(link) ==> traffic_of(links, c, now).max == link.max,
        traffic_of(links, c, now).max == capacity_of(links, c),
{
    lemma_slot(links, c.iface);
}

} // verus!
