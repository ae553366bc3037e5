//! The processor: its model, whether it is a virtual one, and its frequencies.

use crate::binary64::{integer, quotient, read_number, Number, Real};
use crate::decimal::{decimal, decimal_of, parse, parsed};
use crate::order::{in_order, put_in_order, views, Ranked};
use crate::text::{
    begins_with, contains, holds, lines, lines_of, part_behind, read_text, replace, replaced, second_part,
    starts_with, texts, trim, trimmed,
};
use vstd::prelude::*;

verus! {

// ---------------------------------------------------------------------------
// Virtual machines
// ---------------------------------------------------------------------------

/// What `str::to_lowercase` makes of a text.
pub uninterp spec fn lowercase(s: Seq<char>) -> Seq<char>;

/// `str::to_lowercase`: the lowercase equivalent of the text by the Unicode tables,
/// which is a function of the text alone. Nothing more is claimed of it.
#[verifier::external_body]
fn to_lowercase(s: &str) -> (r: String)
    ensures
        r@ == lowercase(s@),
{
    s.to_lowercase()
}

/// The processor says that it runs under a hypervisor: a line of flags names it.
pub open spec fn is_guest(cpuinfo: Seq<char>) -> bool {
    exists|i: int|
        0 <= i < lines_of(cpuinfo).len() && begins_with(#[trigger] lines_of(cpuinfo)[i], "flags"@) && holds(
            lines_of(cpuinfo)[i],
            "hypervisor"@,
        )
}

/// The product name in lower case is that of a virtual machine.
pub open spec fn is_emulated(product: Seq<char>) -> bool {
    holds(product, "virtualbox"@) || holds(product, "vmware"@) || holds(product, "kvm"@) || holds(product, "qemu"@)
}

/// The processor says that it runs under a hypervisor.
pub fn has_hypervisor_flag(cpuinfo: &str) -> (r: bool)
    ensures
        r == is_guest(cpuinfo@),
{
    let all = lines(cpuinfo);
    let ghost wanted = lines_of(cpuinfo@);
    let mut i: usize = 0;
    while i < all.len()
        invariant
            i <= all.len(),
            wanted == texts(all@),
            wanted == lines_of(cpuinfo@),
            forall|j: int|
                0 <= j < i ==> !(begins_with(#[trigger] wanted[j], "flags"@) && holds(wanted[j], "hypervisor"@)),
        decreases all.len() - i,
    {
        let line: &str = all[i].as_str();
        proof {
            assert(wanted[i as int] == line@);
        }
        if starts_with(line, "flags") && contains(line, "hypervisor") {
            return true;
        }
        i = i + 1;
    }
    false
}

/// The product name in lower case is that of a virtual machine.
pub fn names_emulator(product: &str) -> (r: bool)
    ensures
        r == is_emulated(product@),
{
    contains(product, "virtualbox") || contains(product, "vmware") || contains(product, "kvm") || contains(
        product,
        "qemu",
    )
}

/// The machine is a virtual one, by what could be read of its processor and of its
/// product name.
pub fn is_virtual_machine(cpuinfo: Option<&str>, product: Option<&str>) -> (r: bool)
    ensures
        r == ((read_text(cpuinfo) matches Some(c) && is_guest(c)) || (read_text(product) matches Some(p)
            && is_emulated(lowercase(p)))),
{
    let guest: bool = match cpuinfo {
        Some(c) => has_hypervisor_flag(c),
        None => false,
    };
    if guest {
        return true;
    }
    match product {
        Some(p) => {
            let lowered = to_lowercase(p);
            names_emulator(lowered.as_str())
        },
        None => false,
    }
}

// ---------------------------------------------------------------------------
// The model
// ---------------------------------------------------------------------------

/// The line names the model of the processor.
pub open spec fn names_model(line: Seq<char>) -> bool {
    begins_with(line, "model name"@) || begins_with(line, "Processor"@) || begins_with(line, "Hardware"@)
}

/// The first line that names the model.
pub open spec fn model_line(lines: Seq<Seq<char>>) -> Option<Seq<char>>
    decreases lines.len(),
{
    if lines.len() == 0 {
        None
    } else if names_model(lines[0]) {
        Some(lines[0])
    } else {
        model_line(lines.skip(1))
    }
}

/// The model of the processor: what stands behind the first colon of the first line
/// that names it, up to a second colon.
pub open spec fn model_of(cpuinfo: Seq<char>) -> Seq<char> {
    match model_line(lines_of(cpuinfo)) {
        Some(line) => match second_part(line, ':') {
            Some(model) => trimmed(model),
            None => "Unknown"@,
        },
        None => "Unknown"@,
    }
}

/// The model of the processor.
pub fn cpu_model(cpuinfo: &str) -> (r: String)
    ensures
        r@ == model_of(cpuinfo@),
{
    let all = lines(cpuinfo);
    let ghost wanted = lines_of(cpuinfo@);
    let mut i: usize = 0;
    proof {
        assert(wanted.skip(0) =~= wanted);
    }
    while i < all.len()
        invariant
            i <= all.len(),
            wanted == texts(all@),
            wanted == lines_of(cpuinfo@),
            model_line(wanted) == model_line(wanted.skip(i as int)),
        decreases all.len() - i,
    {
        let line: &str = all[i].as_str();
        proof {
            assert(wanted.skip(i as int)[0] == line@);
            assert(wanted.skip(i as int).skip(1) =~= wanted.skip(i + 1));
        }
        if starts_with(line, "model name") || starts_with(line, "Processor") || starts_with(line, "Hardware") {
            return match part_behind(line, ':') {
                Some(model) => trim(model.as_str()),
                None => "Unknown".to_owned(),
            };
        }
        i = i + 1;
    }
    "Unknown".to_owned()
}

/// The model with the names of makers in their colours.
pub open spec fn branded(model: Seq<char>) -> Seq<char> {
    let amd = replaced(model, "AMD"@, "\x1b[1;38;2;237;28;36mAMD\x1b[0m\x1b[1m"@);
    let intel = replaced(amd, "Intel"@, "\x1b[1;38;2;0;113;197mIntel\x1b[0m\x1b[1m"@);
    let apple = replaced(intel, "Apple"@, "\x1b[1;38;2;192;192;192mApple\x1b[0m\x1b[1m"@);
    let arm = replaced(apple, "ARM"@, "\x1b[1;38;2;0;193;222mARM\x1b[0m\x1b[1m"@);
    let risc = replaced(arm, "RISC-V"@, "\x1b[1;38;2;155;81;224mRISC-V\x1b[0m\x1b[1m"@);
    replaced(risc, "IBM"@, "\x1b[1;38;2;31;112;193mIBM\x1b[0m\x1b[1m"@)
}

/// The model with the names of makers in their colours.
pub fn brand(model: &str) -> (r: String)
    ensures
        r@ == branded(model@),
{
    proof {
        reveal_strlit("AMD");
        reveal_strlit("Intel");
        reveal_strlit("Apple");
        reveal_strlit("ARM");
        reveal_strlit("RISC-V");
        reveal_strlit("IBM");
    }
    let amd = replace(model, "AMD", "\x1b[1;38;2;237;28;36mAMD\x1b[0m\x1b[1m");
    let intel = replace(amd.as_str(), "Intel", "\x1b[1;38;2;0;113;197mIntel\x1b[0m\x1b[1m");
    let apple = replace(intel.as_str(), "Apple", "\x1b[1;38;2;192;192;192mApple\x1b[0m\x1b[1m");
    let arm = replace(apple.as_str(), "ARM", "\x1b[1;38;2;0;193;222mARM\x1b[0m\x1b[1m");
    let risc = replace(arm.as_str(), "RISC-V", "\x1b[1;38;2;155;81;224mRISC-V\x1b[0m\x1b[1m");
    replace(risc.as_str(), "IBM", "\x1b[1;38;2;31;112;193mIBM\x1b[0m\x1b[1m")
}

// ---------------------------------------------------------------------------
// Where the frequencies stand
// ---------------------------------------------------------------------------

impl Ranked for u64 {
    open spec fn ahead(a: u64, b: u64) -> bool {
        a < b
    }

    fn is_ahead(&self, other: &u64) -> (r: bool) {
        *self < *other
    }
}

/// The number of the processor whose directory has this name.
pub open spec fn cpu_number(name: Seq<char>) -> Option<nat> {
    if begins_with(name, "cpu"@) {
        parsed(name.skip(3), usize::MAX as nat)
    } else {
        None
    }
}

/// The numbers of the processors among these directories.
pub open spec fn cpu_numbers(names: Seq<Seq<char>>) -> Seq<u64>
    decreases names.len(),
{
    if names.len() == 0 {
        Seq::empty()
    } else {
        let front = cpu_numbers(names.drop_last());
        match cpu_number(names.last()) {
            Some(n) => front.push(n as u64),
            None => front,
        }
    }
}

/// Where the frequency of a processor stands.
pub open spec fn frequency_path(cpu: nat) -> Seq<char> {
    "/sys/devices/system/cpu/cpu"@ + decimal_of(cpu) + "/cpufreq/scaling_cur_freq"@
}

/// Where the frequencies of the processors among these directories may stand, by
/// the processors' numbers.
pub open spec fn frequency_paths(names: Seq<Seq<char>>) -> Seq<Seq<char>> {
    let cpus = in_order(cpu_numbers(names), |a: u64, b: u64| a < b);
    Seq::new(cpus.len(), |i: int| frequency_path(cpus[i] as nat))
}

fn number_in(name: &str) -> (r: Option<u64>)
    ensures
        match r {
            Some(n) => cpu_number(name@) == Some(n as nat),
            None => cpu_number(name@) is None,
        },
{
    proof {
        reveal_strlit("cpu");
    }
    if starts_with(name, "cpu") {
        let n: usize = name.unicode_len();
        let rest: &str = name.substring_char(3, n);
        proof {
            assert(rest@ =~= name@.skip(3));
        }
        parse(rest, usize::MAX as u64)
    } else {
        None
    }
}

/// Where the frequencies of the processors among these directories may stand, by
/// the processors' numbers.
pub fn cpu_frequency_paths(names: &Vec<String>) -> (r: Vec<String>)
    ensures
        texts(r@) == frequency_paths(texts(names@)),
{
    let ghost all = texts(names@);
    let mut numbers: Vec<u64> = Vec::new();
    let mut i: usize = 0;
    proof {
        assert(all.take(0) =~= Seq::empty());
    }
    while i < names.len()
        invariant
            i <= names.len(),
            all == texts(names@),
            numbers@ == cpu_numbers(all.take(i as int)),
        decreases names.len() - i,
    {
        proof {
            assert(all.take(i + 1).drop_last() =~= all.take(i as int));
            assert(all.take(i + 1).last() == names@[i as int]@);
        }
        match number_in(names[i].as_str()) {
            Some(n) => {
                numbers.push(n);
            },
            None => {},
        }
        i = i + 1;
    }
    proof {
        assert(all.take(names.len() as int) =~= all);
        assert(views(numbers@) =~= numbers@);
    }
    let cpus = put_in_order(numbers);
    proof {
        assert(views(cpus@) =~= cpus@);
        assert((|a: u64, b: u64| u64::ahead(a, b)) =~= (|a: u64, b: u64| a < b));
    }
    let mut r: Vec<String> = Vec::new();
    let mut k: usize = 0;
    while k < cpus.len()
        invariant
            k <= cpus.len(),
            r.len() == k,
            forall|j: int| 0 <= j < k ==> (#[trigger] r@[j])@ == frequency_path(cpus@[j] as nat),
        decreases cpus.len() - k,
    {
        let mut path = "/sys/devices/system/cpu/cpu".to_owned();
        path.append(decimal(cpus[k] as u128).as_str());
        path.append("/cpufreq/scaling_cur_freq");
        r.push(path);
        k = k + 1;
    }
    proof {
        assert(texts(r@) =~= frequency_paths(all));
    }
    r
}

// ---------------------------------------------------------------------------
// Frequencies
// ---------------------------------------------------------------------------

/// Kilohertz in megahertz.
pub open spec fn megahertz(khz: Number) -> Number {
    quotient(khz, integer(1000))
}

/// Kilohertz in megahertz.
pub fn to_megahertz(khz: Real) -> (r: Real)
    ensures
        r@ == megahertz(khz@),
{
    khz.over(Real::from_u64(1000))
}

/// The frequencies in megahertz of what was read in kilohertz. There are none where
/// nothing was to be read, or where something could not be read.
pub fn frequencies(readings: &Vec<Option<Real>>) -> (r: Option<Vec<Real>>)
    ensures
        r is Some <==> readings.len() > 0 && forall|i: int|
            0 <= i < readings.len() ==> (#[trigger] readings@[i]) is Some,
        r matches Some(f) ==> f.len() == readings.len() && forall|i: int|
            0 <= i < f.len() ==> (#[trigger] f@[i])@ == megahertz(read_number(readings@[i])->0),
{
    if readings.len() == 0 {
        return None;
    }
    let mut r: Vec<Real> = Vec::new();
    let mut i: usize = 0;
    while i < readings.len()
        invariant
            i <= readings.len(),
            r.len() == i,
            forall|j: int| 0 <= j < i ==> (#[trigger] readings@[j]) is Some,
            forall|j: int| 0 <= j < i ==> (#[trigger] r@[j])@ == megahertz(read_number(readings@[j])->0),
        decreases readings.len() - i,
    {
        match readings[i] {
            Some(khz) => {
                r.push(to_megahertz(khz));
            },
            None => {
                return None;
            },
        }
        i = i + 1;
    }
    Some(r)
}

/// The line gives a frequency in megahertz.
pub open spec fn gives_frequency(line: Seq<char>) -> bool {
    begins_with(line, "cpu MHz"@) || begins_with(line, "BogoMIPS"@)
}

/// The texts of the frequencies in megahertz that these lines give.
pub open spec fn frequency_texts(lines: Seq<Seq<char>>) -> Seq<Seq<char>>
    decreases lines.len(),
{
    if lines.len() == 0 {
        Seq::empty()
    } else {
        let front = frequency_texts(lines.drop_last());
        if gives_frequency(lines.last()) {
            match second_part(lines.last(), ':') {
                Some(value) => front.push(trimmed(value)),
                None => front,
            }
        } else {
            front
        }
    }
}

/// The texts of the frequencies in megahertz that the description of the
/// processors gives.
pub fn described_frequencies(cpuinfo: &str) -> (r: Vec<String>)
    ensures
        texts(r@) == frequency_texts(lines_of(cpuinfo@)),
{
    let all = lines(cpuinfo);
    let ghost wanted = lines_of(cpuinfo@);
    let mut r: Vec<String> = Vec::new();
    let mut i: usize = 0;
    proof {
        assert(wanted.take(0) =~= Seq::empty());
        assert(texts(r@) =~= Seq::empty());
    }
    while i < all.len()
        invariant
            i <= all.len(),
            wanted == texts(all@),
            texts(r@) == frequency_texts(wanted.take(i as int)),
        decreases all.len() - i,
    {
        let line: &str = all[i].as_str();
        let ghost before = r@;
        proof {
            assert(wanted.take(i + 1).drop_last() =~= wanted.take(i as int));
            assert(wanted.take(i + 1).last() == line@);
        }
        if starts_with(line, "cpu MHz") || starts_with(line, "BogoMIPS") {
            match part_behind(line, ':') {
                Some(value) => {
                    let value = trim(value.as_str());
                    proof {
                        assert(texts(before.push(value)) =~= texts(before).push(value@));
                    }
                    r.push(value);
                },
                None => {},
            }
        }
        i = i + 1;
    }
    proof {
        assert(wanted.take(all.len() as int) =~= wanted);
    }
    r
}

/// The frequencies are looked up by the number of the processor, from the lowest to
/// the highest, one for each directory of a processor.
pub proof fn law_processors_in_order(names: Seq<Seq<char>>)
    ensures
        frequency_paths(names).len() == cpu_numbers(names).len(),
        ({
            let cpus = in_order(cpu_numbers(names), |a: u64, b: u64| a < b);
            &&& cpus.to_multiset() == cpu_numbers(names).to_multiset()
            &&& forall|i: int, j: int| 0 <= i < j < cpus.len() ==> #[trigger] cpus[i] <= #[trigger] cpus[j]
        }),
{
    let ahead = |a: u64, b: u64| a < b;
    crate::order::law_order_keeps_all(cpu_numbers(names), ahead);
    crate::order::law_order_is_kept(cpu_numbers(names), ahead);
    let cpus = in_order(cpu_numbers(names), ahead);
    assert forall|i: int, j: int| 0 <= i < j < cpus.len() implies #[trigger] cpus[i] <= #[trigger] cpus[j] by {
        assert(!ahead(cpus[j], cpus[i]));
    }
}

} // verus!
