//! Memory: what is used of it, of the swap devices, and of the compressed swap
//! cache.

use crate::binary64::{below, integer, product, Real};
use crate::color::{
    get_ram_color, get_ratio_color, get_swap_color, get_zswap_algo_color, ram_color, ratio_color,
    swap_color, zswap_algo_color, BOLD, RESET,
};
use crate::decimal::{count, count_in, fixed, fixed_of};
use crate::layout::{align_left, left_aligned};
use crate::order::views;
use crate::text::{
    behind, between, byte_length, bytes_in, enclosed, equal, last_part, lines, lines_of, part_after_last,
    read_text, texts, trim, trimmed, words, words_of,
};
use crate::units::{share, share_of, FormatSize};
use vstd::prelude::*;

verus! {

pub const USED: &'static str = "\x1b[1;37mUsed\x1b[0m";

pub const AVAIL: &'static str = "\x1b[1;37mAvail\x1b[0m";

pub const TOTAL: &'static str = "\x1b[1;37mTotal\x1b[0m";

pub const CYAN_BOLD: &'static str = "\x1b[1;38;2;0;255;255m";

/// A count of bytes as it is shown.
pub open spec fn size(bytes: nat) -> Seq<char> {
    FormatSize(bytes as u64).shown()
}

// ---------------------------------------------------------------------------
// Main memory
// ---------------------------------------------------------------------------

/// The number of kilobytes under a key: what stands between the first occurrence of
/// the key and the next unit.
pub open spec fn kilobytes(meminfo: Seq<char>, key: Seq<char>) -> nat {
    match enclosed(meminfo, key, "kB"@) {
        Some(s) => count_in(trimmed(s)),
        None => 0,
    }
}

fn kilobytes_under(meminfo: &str, key: &str) -> (n: u64)
    ensures
        n == kilobytes(meminfo@, key@),
{
    match between(meminfo, key, "kB") {
        Some(s) => count(trim(s.as_str()).as_str()),
        None => 0,
    }
}

/// The kilobytes of memory in all, and those that are available.
pub fn memory_kilobytes(meminfo: &str) -> (r: (u64, u64))
    ensures
        r.0 == kilobytes(meminfo@, "MemTotal:"@),
        r.1 == kilobytes(meminfo@, "MemAvailable:"@),
{
    (kilobytes_under(meminfo, "MemTotal:"), kilobytes_under(meminfo, "MemAvailable:"))
}

/// What of the memory is in use, in kilobytes; never below none.
pub open spec fn used_kilobytes(total: nat, avail: nat) -> nat {
    if avail <= total {
        (total - avail) as nat
    } else {
        0
    }
}

/// What is used, what is available and what there is in all. Used and available
/// memory share the colour of the load.
pub open spec fn ram_shown(total: nat, avail: nat) -> Seq<char> {
    let used = used_kilobytes(total, avail);
    let color = ram_color(share(used, total));
    color + BOLD@ + size(used * 1024) + "\x1b[0m "@ + USED@ + " | "@ + color + BOLD@ + size(avail * 1024)
        + "\x1b[0m "@ + AVAIL@ + " | "@ + CYAN_BOLD@ + size(total * 1024) + "\x1b[0m "@ + TOTAL@
}

/// The line of the memory, from kilobytes.
pub fn ram_text(total: u64, avail: u64) -> (s: String)
    requires
        total * 1024 <= u64::MAX,
        avail * 1024 <= u64::MAX,
        total > 0 ==> avail <= total,
    ensures
        s@ == ram_shown(total as nat, avail as nat),
{
    let used: u64 = if avail <= total {
        total - avail
    } else {
        0
    };
    let color = get_ram_color(&share_of(used, total));
    let mut s = color.clone();
    s.append(BOLD);
    s.append(FormatSize(used * 1024).text().as_str());
    s.append("\x1b[0m ");
    s.append(USED);
    s.append(" | ");
    s.append(color.as_str());
    s.append(BOLD);
    s.append(FormatSize(avail * 1024).text().as_str());
    s.append("\x1b[0m ");
    s.append(AVAIL);
    s.append(" | ");
    s.append(CYAN_BOLD);
    s.append(FormatSize(total * 1024).text().as_str());
    s.append("\x1b[0m ");
    s.append(TOTAL);
    s
}

// ---------------------------------------------------------------------------
// Swap devices
// ---------------------------------------------------------------------------

/// A swap device, in kilobytes.
pub struct SwapDevice {
    pub name: String,
    pub used: u64,
    pub size: u64,
}

/// A swap device, in kilobytes.
#[verifier::ext_equal]
pub struct Swap {
    pub name: Seq<char>,
    pub used: nat,
    pub size: nat,
}

impl View for SwapDevice {
    type V = Swap;

    open spec fn view(&self) -> Swap {
        Swap { name: self.name@, used: self.used as nat, size: self.size as nat }
    }
}

/// The swap device of a line.
pub open spec fn swap_in(line: Seq<char>) -> Option<Swap> {
    let w = words_of(line);
    if w.len() >= 4 {
        Some(Swap { name: last_part(w[0], '/'), used: count_in(w[3]), size: count_in(w[2]) })
    } else {
        None
    }
}

/// The swap devices of these lines.
pub open spec fn swaps_in(lines: Seq<Seq<char>>) -> Seq<Swap>
    decreases lines.len(),
{
    if lines.len() == 0 {
        Seq::empty()
    } else {
        match swap_in(lines.last()) {
            Some(swap) => swaps_in(lines.drop_last()).push(swap),
            None => swaps_in(lines.drop_last()),
        }
    }
}

/// The swap devices in their description, which starts with a line of headings.
pub fn swap_devices(swaps: &str) -> (r: Vec<SwapDevice>)
    ensures
        views(r@) == swaps_in(behind(lines_of(swaps@), 1)),
{
    let all = lines(swaps);
    let ghost wanted = behind(lines_of(swaps@), 1);
    let mut r: Vec<SwapDevice> = Vec::new();
    let mut i: usize = 1;
    proof {
        assert(wanted.take(0) =~= Seq::empty());
        assert(views(r@) =~= Seq::empty());
    }
    while i < all.len()
        invariant
            1 <= i,
            i <= all.len() || i == 1,
            wanted == behind(texts(all@), 1),
            views(r@) == swaps_in(wanted.take(i - 1)),
        decreases all.len() - i,
    {
        let line: &str = all[i].as_str();
        let ghost before = r@;
        proof {
            assert(wanted.take(i as int).drop_last() =~= wanted.take(i - 1));
            assert(wanted.take(i as int).last() == line@);
        }
        let w = words(line);
        proof {
            assert(texts(w@) == words_of(line@));
        }
        if w.len() >= 4 {
            let device = SwapDevice {
                name: part_after_last(w[0].as_str(), '/'),
                used: count(w[3].as_str()),
                size: count(w[2].as_str()),
            };
            proof {
                assert(texts(w@)[0] == w@[0]@ && texts(w@)[2] == w@[2]@ && texts(w@)[3] == w@[3]@);
                assert(views(before.push(device)) =~= views(before).push(device@));
            }
            r.push(device);
        }
        i = i + 1;
    }
    proof {
        assert(wanted.take(wanted.len() as int) =~= wanted);
    }
    r
}

/// The kilobytes in use of these devices.
pub open spec fn swap_used(s: Seq<Swap>) -> nat
    decreases s.len(),
{
    if s.len() == 0 {
        0
    } else {
        swap_used(s.drop_last()) + s.last().used
    }
}

/// The kilobytes of these devices.
pub open spec fn swap_size(s: Seq<Swap>) -> nat
    decreases s.len(),
{
    if s.len() == 0 {
        0
    } else {
        swap_size(s.drop_last()) + s.last().size
    }
}

/// The bytes of these devices can be counted.
pub open spec fn swaps_countable(s: Seq<Swap>) -> bool {
    swap_used(s) * 1024 <= u64::MAX && swap_size(s) * 1024 <= u64::MAX
}

/// The bytes in use and the bytes in all, where they can be counted.
pub fn swap_totals(devices: &Vec<SwapDevice>) -> (r: Option<(u64, u64)>)
    ensures
        r is Some <==> swaps_countable(views(devices@)),
        r matches Some(t) ==> t.0 == swap_used(views(devices@)) * 1024 && t.1 == swap_size(views(devices@)) * 1024,
{
    let ghost all = views(devices@);
    let mut used: u128 = 0;
    let mut size: u128 = 0;
    let mut i: usize = 0;
    proof {
        assert(all.take(0) =~= Seq::empty());
    }
    while i < devices.len()
        invariant
            i <= devices.len(),
            all == views(devices@),
            used == swap_used(all.take(i as int)),
            size == swap_size(all.take(i as int)),
            used <= i * u64::MAX,
            size <= i * u64::MAX,
        decreases devices.len() - i,
    {
        proof {
            assert(all.take(i + 1).drop_last() =~= all.take(i as int));
            assert(all.take(i + 1).last() == devices@[i as int]@);
            assert((i + 1) * u64::MAX == i * u64::MAX + u64::MAX) by (nonlinear_arith);
            assert((i + 1) * u64::MAX <= u64::MAX * u64::MAX) by (nonlinear_arith)
                requires
                    i + 1 <= u64::MAX,
            ;
        }
        used = used + devices[i].used as u128;
        size = size + devices[i].size as u128;
        i = i + 1;
    }
    proof {
        assert(all.take(devices.len() as int) =~= all);
    }
    let most: u128 = u64::MAX as u128 / 1024;
    if used <= most && size <= most {
        Some((used as u64 * 1024, size as u64 * 1024))
    } else {
        None
    }
}

/// The widest of these names, in bytes.
pub open spec fn widest(s: Seq<Swap>) -> nat
    decreases s.len(),
{
    if s.len() == 0 {
        0
    } else {
        let front = widest(s.drop_last());
        if byte_length(s.last().name) > front {
            byte_length(s.last().name)
        } else {
            front
        }
    }
}

/// The line of a swap device among others.
pub open spec fn swap_shown(swap: Swap, width: nat) -> Seq<char> {
    " "@ + left_aligned(swap.name, width) + ": "@ + swap_color(share(swap.used * 1024, swap.size * 1024)) + size(
        swap.used * 1024,
    ) + "\x1b[0m \x1b[0;37mUsed\x1b[0m / \x1b[38;2;0;255;255m"@ + size(swap.size * 1024)
        + "\x1b[0m \x1b[0;37mTotal\x1b[0m"@
}

/// The lines of the swap devices.
pub open spec fn swaps_shown(s: Seq<Swap>) -> Seq<Seq<char>> {
    Seq::new(s.len(), |i: int| swap_shown(s[i], widest(s)))
}

proof fn lemma_swap_within(s: Seq<Swap>, i: int)
    requires
        0 <= i < s.len(),
    ensures
        s[i].used <= swap_used(s),
        s[i].size <= swap_size(s),
    decreases s.len(),
{
    if i < s.len() - 1 {
        lemma_swap_within(s.drop_last(), i);
        assert(s.drop_last()[i] == s[i]);
    }
}

/// The lines of the swap devices.
pub fn swap_lines(devices: &Vec<SwapDevice>) -> (r: Vec<String>)
    requires
        swaps_countable(views(devices@)),
    ensures
        texts(r@) == swaps_shown(views(devices@)),
{
    let ghost all = views(devices@);
    let mut width: usize = 0;
    let mut i: usize = 0;
    proof {
        assert(all.take(0) =~= Seq::empty());
    }
    while i < devices.len()
        invariant
            i <= devices.len(),
            all == views(devices@),
            width == widest(all.take(i as int)),
        decreases devices.len() - i,
    {
        proof {
            assert(all.take(i + 1).drop_last() =~= all.take(i as int));
            assert(all.take(i + 1).last() == devices@[i as int]@);
        }
        let n: usize = bytes_in(devices[i].name.as_str());
        if n > width {
            width = n;
        }
        i = i + 1;
    }
    proof {
        assert(all.take(devices.len() as int) =~= all);
    }
    let mut r: Vec<String> = Vec::new();
    let mut k: usize = 0;
    while k < devices.len()
        invariant
            k <= devices.len(),
            all == views(devices@),
            swaps_countable(all),
            width == widest(all),
            r.len() == k,
            forall|j: int| 0 <= j < k ==> (#[trigger] r@[j])@ == swap_shown(all[j], widest(all)),
        decreases devices.len() - k,
    {
        proof {
            lemma_swap_within(all, k as int);
            assert(all[k as int] == devices@[k as int]@);
        }
        let used: u64 = devices[k].used * 1024;
        let whole: u64 = devices[k].size * 1024;
        let mut s = " ".to_owned();
        s.append(align_left(devices[k].name.as_str(), width).as_str());
        s.append(": ");
        s.append(get_swap_color(&share_of(used, whole)).as_str());
        s.append(FormatSize(used).text().as_str());
        s.append("\x1b[0m \x1b[0;37mUsed\x1b[0m / \x1b[38;2;0;255;255m");
        s.append(FormatSize(whole).text().as_str());
        s.append("\x1b[0m \x1b[0;37mTotal\x1b[0m");
        r.push(s);
        k = k + 1;
    }
    proof {
        assert(texts(r@) =~= swaps_shown(all));
    }
    r
}

/// The line of all swap devices together, from bytes.
pub open spec fn swap_total_shown(used: nat, whole: nat) -> Seq<char> {
    let load = share(used, whole);
    let color = swap_color(load);
    color + BOLD@ + size(used) + "\x1b[0m "@ + USED@ + " | "@ + CYAN_BOLD@ + BOLD@ + size(whole) + "\x1b[0m "@
        + TOTAL@ + " | "@ + color + BOLD@ + fixed_of(product(load, integer(100)), 1)
        + "%\x1b[0m \x1b[0;37m%Used\x1b[0m"@
}

/// The line of all swap devices together, from bytes.
pub fn swap_total_text(used: u64, whole: u64) -> (s: String)
    ensures
        s@ == swap_total_shown(used as nat, whole as nat),
{
    let load: Real = share_of(used, whole);
    let color = get_swap_color(&load);
    let mut s = color.clone();
    s.append(BOLD);
    s.append(FormatSize(used).text().as_str());
    s.append("\x1b[0m ");
    s.append(USED);
    s.append(" | ");
    s.append(CYAN_BOLD);
    s.append(BOLD);
    s.append(FormatSize(whole).text().as_str());
    s.append("\x1b[0m ");
    s.append(TOTAL);
    s.append(" | ");
    s.append(color.as_str());
    s.append(BOLD);
    s.append(fixed(&load.times(Real::from_u64(100)), 1).as_str());
    s.append("%\x1b[0m \x1b[0;37m%Used\x1b[0m");
    s
}

// ---------------------------------------------------------------------------
// The compressed swap cache
// ---------------------------------------------------------------------------

/// What is known of the compressed swap cache: the size of its pool in bytes, the
/// pages stored in it, and the way it compresses them are for privileged users.
pub enum ZswapStatus {
    NotPresent,
    Unknown,
    Disabled,
    Enabled,
    Detailed { pool: u64, pages: u64, algo: String },
}

/// What is known of the compressed swap cache.
#[verifier::ext_equal]
pub enum Zswap {
    NotPresent,
    Unknown,
    Disabled,
    Enabled,
    Detailed { pool: nat, pages: nat, algo: Seq<char> },
}

impl View for ZswapStatus {
    type V = Zswap;

    open spec fn view(&self) -> Zswap {
        match self {
            ZswapStatus::NotPresent => Zswap::NotPresent,
            ZswapStatus::Unknown => Zswap::Unknown,
            ZswapStatus::Disabled => Zswap::Disabled,
            ZswapStatus::Enabled => Zswap::Enabled,
            ZswapStatus::Detailed { pool, pages, algo } => Zswap::Detailed {
                pool: *pool as nat,
                pages: *pages as nat,
                algo: algo@,
            },
        }
    }
}

/// What is known of the cache, by what could be read of its switch, its pool, its
/// pages and its way of compressing.
pub open spec fn zswap_known(
    present: bool,
    enabled: Option<Seq<char>>,
    pool: Option<Seq<char>>,
    pages: Option<Seq<char>>,
    algo: Option<Seq<char>>,
) -> Zswap {
    if !present {
        Zswap::NotPresent
    } else {
        match enabled {
            Some(switch) => if trimmed(switch) == "Y"@ {
                if pool is Some && pages is Some {
                    Zswap::Detailed {
                        pool: count_in(trimmed(pool->0)),
                        pages: count_in(trimmed(pages->0)),
                        algo: match algo {
                            Some(a) => trimmed(a),
                            None => "unknown"@,
                        },
                    }
                } else {
                    Zswap::Enabled
                }
            } else if trimmed(switch) == "N"@ {
                Zswap::Disabled
            } else {
                Zswap::Unknown
            },
            None => Zswap::Unknown,
        }
    }
}

/// What is known of the cache.
pub fn zswap_status(
    present: bool,
    enabled: Option<&str>,
    pool: Option<&str>,
    pages: Option<&str>,
    algo: Option<&str>,
) -> (r: ZswapStatus)
    ensures
        r@ == zswap_known(present, read_text(enabled), read_text(pool), read_text(pages), read_text(algo)),
{
    if !present {
        return ZswapStatus::NotPresent;
    }
    match enabled {
        Some(switch) => {
            let switch = trim(switch);
            if equal(switch.as_str(), "Y") {
                match (pool, pages) {
                    (Some(pool), Some(pages)) => ZswapStatus::Detailed {
                        pool: count(trim(pool).as_str()),
                        pages: count(trim(pages).as_str()),
                        algo: match algo {
                            Some(a) => trim(a),
                            None => "unknown".to_owned(),
                        },
                    },
                    _ => ZswapStatus::Enabled,
                }
            } else if equal(switch.as_str(), "N") {
                ZswapStatus::Disabled
            } else {
                ZswapStatus::Unknown
            }
        },
        None => ZswapStatus::Unknown,
    }
}

/// The bytes of a page.
pub const PAGE: u64 = 4096;

/// The line of the compressed swap cache.
pub open spec fn zswap_shown(z: Zswap) -> Seq<char> {
    match z {
        Zswap::NotPresent => "\x1b[38;2;238;130;238m\x1b[1mNot Present\x1b[0m"@,
        Zswap::Unknown => "\x1b[38;2;255;255;0m\x1b[1mUnknown\x1b[0m"@,
        Zswap::Disabled => "\x1b[38;2;255;0;0m\x1b[1mDisabled\x1b[0m"@,
        Zswap::Enabled =>
        "\x1b[38;2;0;200;0m\x1b[1mEnabled\x1b[0m (\x1b[38;2;255;255;0m\x1b[1mRequires sudo for detailed stats\x1b[0m)"@,
        Zswap::Detailed { pool, pages, algo } => {
            let ratio = share(if pool > 0 {
                pages * PAGE as nat
            } else {
                0
            }, pool);
            let pool_color = if pool > 0 {
                "\x1b[38;2;0;200;0m"@
            } else {
                "\x1b[38;2;150;150;150m"@
            };
            let color = if below(integer(0), ratio) {
                ratio_color(ratio)
            } else {
                RESET@
            };
            "\x1b[38;2;0;200;0m\x1b[1mEnabled\x1b[0m | \x1b[1mAlgo:\x1b[0m "@ + zswap_algo_color(algo) + BOLD@ + algo
                + "\x1b[0m | \x1b[1mPool:\x1b[0m "@ + pool_color + BOLD@ + size(pool)
                + "\x1b[0m | \x1b[1mRatio:\x1b[0m "@ + color + BOLD@ + fixed_of(ratio, 1) + ":1\x1b[0m"@
        },
    }
}

impl ZswapStatus {
    /// The bytes that the pages of the cache hold can be counted.
    pub open spec fn countable(self) -> bool {
        self matches ZswapStatus::Detailed { pool, pages, algo } ==> pool > 0 ==> pages * PAGE <= u64::MAX
    }

    /// The line of the compressed swap cache.
    pub fn text(&self) -> (s: String)
        requires
            self.countable(),
        ensures
            s@ == zswap_shown(self@),
    {
        match self {
            ZswapStatus::NotPresent => "\x1b[38;2;238;130;238m\x1b[1mNot Present\x1b[0m".to_owned(),
            ZswapStatus::Unknown => "\x1b[38;2;255;255;0m\x1b[1mUnknown\x1b[0m".to_owned(),
            ZswapStatus::Disabled => "\x1b[38;2;255;0;0m\x1b[1mDisabled\x1b[0m".to_owned(),
            ZswapStatus::Enabled => {
                "\x1b[38;2;0;200;0m\x1b[1mEnabled\x1b[0m (\x1b[38;2;255;255;0m\x1b[1mRequires sudo for detailed stats\x1b[0m)".to_owned()
            },
            ZswapStatus::Detailed { pool, pages, algo } => {
                let stored: u64 = if *pool > 0 {
                    *pages * PAGE
                } else {
                    0
                };
                let ratio: Real = share_of(stored, *pool);
                let mut s = "\x1b[38;2;0;200;0m\x1b[1mEnabled\x1b[0m | \x1b[1mAlgo:\x1b[0m ".to_owned();
                s.append(get_zswap_algo_color(algo.as_str()).as_str());
                s.append(BOLD);
                s.append(algo.as_str());
                s.append("\x1b[0m | \x1b[1mPool:\x1b[0m ");
                s.append(
                    if *pool > 0 {
                        "\x1b[38;2;0;200;0m"
                    } else {
                        "\x1b[38;2;150;150;150m"
                    },
                );
                s.append(BOLD);
                s.append(FormatSize(*pool).text().as_str());
                s.append("\x1b[0m | \x1b[1mRatio:\x1b[0m ");
                if Real::from_u64(0).less_than(&ratio) {
                    s.append(get_ratio_color(&ratio).as_str());
                } else {
                    s.append(RESET);
                }
                s.append(BOLD);
                s.append(fixed(&ratio, 1).as_str());
                s.append(":1\x1b[0m");
                s
            },
        }
    }
}

// ---------------------------------------------------------------------------
// Laws
// ---------------------------------------------------------------------------

/// Where no more is available than there is, used and available memory make up all
/// of it.
pub proof fn law_memory_adds_up(total: nat, avail: nat)
    requires
        avail <= total,
    ensures
        used_kilobytes(total, avail) + avail == total,
{
}

/// The sizes of swap devices stand below each other: the names before them are all
/// filled up to the widest.
pub proof fn law_swap_names_line_up(s: Seq<Swap>, i: int)
    requires
        0 <= i < s.len(),
    ensures
        left_aligned(s[i].name, widest(s)).len() == widest(s),
{
    lemma_widest(s, i);
    lemma_chars_within_bytes(s[i].name);
}

proof fn lemma_widest(s: Seq<Swap>, i: int)
    requires
        0 <= i < s.len(),
    ensures
        byte_length(s[i].name) <= widest(s),
    decreases s.len(),
{
    if i < s.len() - 1 {
        lemma_widest(s.drop_last(), i);
        assert(s.drop_last()[i] == s[i]);
    }
}

proof fn lemma_chars_within_bytes(s: Seq<char>)
    ensures
        s.len() <= byte_length(s),
    decreases s.len(),
{
    if s.len() > 0 {
        lemma_chars_within_bytes(s.drop_first());
    }
}

} // verus!
