//! GPU identity: every hardware adapter with its vendor and device id,
//! dedicated memory and driver version, and the one that the widgets describe.

use crate::text;
use crate::util;
use vstd::prelude::*;
use vstd::string::StringExecFns;

verus! {

/// Flag of an adapter that is software.
pub const ADAPTER_FLAG_SOFTWARE: u32 = 2;

#[derive(Clone, Debug)]
pub struct AdapterInfo {
    pub name: String,
    pub vendor_id: u32,
    pub device_id: u32,
    pub dedicated: u64,
    /// Driver version, such as "32.0.101.6790".
    pub driver: String,
}

/// An adapter as the system lists it.
pub struct RawAdapter {
    pub description: Vec<u16>,
    pub vendor_id: u32,
    pub device_id: u32,
    pub dedicated: u64,
    pub flags: u32,
    /// The driver's version as four numbers of 16 bits, the first highest.
    pub driver: Option<u64>,
}

pub open spec fn vendor_text(id: u32) -> Seq<char> {
    if id == 0x10de {
        "NVIDIA"@
    } else if id == 0x1002 || id == 0x1022 {
        "AMD"@
    } else if id == 0x8086 {
        "Intel"@
    } else if id == 0x1414 {
        "Microsoft"@
    } else if id == 0x5143 {
        "Qualcomm"@
    } else if id == 0x15ad {
        "VMware"@
    } else if id == 0x1ab8 {
        "Parallels"@
    } else if id == 0x80ee {
        "VirtualBox"@
    } else {
        ""@
    }
}

impl AdapterInfo {
    pub fn vendor(&self) -> (r: &'static str)
        ensures
            r@ == vendor_text(self.vendor_id),
    {
        match self.vendor_id {
            0x10de => "NVIDIA",
            0x1002 | 0x1022 => "AMD",
            0x8086 => "Intel",
            0x1414 => "Microsoft",
            0x5143 => "Qualcomm",
            0x15ad => "VMware",
            0x1ab8 => "Parallels",
            0x80ee => "VirtualBox",
            _ => "",
        }
    }

    pub fn copy(&self) -> (r: AdapterInfo)
        ensures
            r == *self,
    {
        AdapterInfo {
            name: self.name.clone(),
            vendor_id: self.vendor_id,
            device_id: self.device_id,
            dedicated: self.dedicated,
            driver: self.driver.clone(),
        }
    }
}

/// A driver version: its four numbers with dots between them.
pub open spec fn version_text(v: nat) -> Seq<char> {
    text::decimal(v / 0x1_0000_0000_0000 % 0x1_0000) + "."@ + text::decimal(
        v / 0x1_0000_0000 % 0x1_0000,
    ) + "."@ + text::decimal(v / 0x1_0000 % 0x1_0000) + "."@ + text::decimal(v % 0x1_0000)
}

pub fn driver_version(v: u64) -> (r: String)
    ensures
        r@ == version_text(v as nat),
{
    let mut r: String = text::number(v / 0x1_0000_0000_0000 % 0x1_0000);
    r.append(".");
    r.append(text::number(v / 0x1_0000_0000 % 0x1_0000).as_str());
    r.append(".");
    r.append(text::number(v / 0x1_0000 % 0x1_0000).as_str());
    r.append(".");
    r.append(text::number(v % 0x1_0000).as_str());
    r
}

/// The name of an adapter: its description without closing zeros and without
/// white space at the ends.
pub open spec fn adapter_name(description: Seq<u16>) -> Seq<char> {
    text::trimmed(util::without_zeros(util::utf16_lossy(description)))
}

/// `a` is the adapter as it is shown.
pub open spec fn is_adapter(raw: RawAdapter, a: AdapterInfo) -> bool {
    &&& a.name@ == adapter_name(raw.description@)
    &&& a.vendor_id == raw.vendor_id
    &&& a.device_id == raw.device_id
    &&& a.dedicated == raw.dedicated
    &&& match raw.driver {
        Some(v) => a.driver@ == version_text(v as nat),
        None => a.driver@.len() == 0,
    }
}

fn shown(raw: &RawAdapter) -> (r: AdapterInfo)
    ensures
        is_adapter(*raw, r),
{
    let full: String = util::wide_text(raw.description.as_slice());
    AdapterInfo {
        name: text::trim(full.as_str()),
        vendor_id: raw.vendor_id,
        device_id: raw.device_id,
        dedicated: raw.dedicated,
        driver: match raw.driver {
            Some(v) => driver_version(v),
            None => String::new(),
        },
    }
}

/// An adapter is hardware.
pub open spec fn is_hardware(a: RawAdapter) -> bool {
    a.flags & ADAPTER_FLAG_SOFTWARE == 0
}

/// The positions below `n` of the adapters that are hardware.
pub open spec fn hardware(list: Seq<RawAdapter>, n: nat) -> Seq<usize>
    decreases n,
{
    if n == 0 {
        Seq::empty()
    } else if is_hardware(list[n - 1]) {
        hardware(list, (n - 1) as nat).push((n - 1) as usize)
    } else {
        hardware(list, (n - 1) as nat)
    }
}

/// `b` is the hardware adapter with the most dedicated memory, the first of
/// several.
pub open spec fn is_largest(list: Seq<RawAdapter>, b: int) -> bool {
    &&& 0 <= b < list.len()
    &&& is_hardware(list[b])
    &&& forall|i: int|
        0 <= i < list.len() && is_hardware(#[trigger] list[i]) ==> list[i].dedicated
            <= list[b].dedicated && (i < b ==> list[i].dedicated < list[b].dedicated)
}

pub struct Gpu {
    pub name: String,
    pub vram_total: u64,
    pub vram_used: u64,
    pub vram_budget: u64,
    pub adapters: Vec<AdapterInfo>,
}

/// The hardware adapters of a list, each as it is shown.
pub open spec fn lists_hardware(list: Seq<RawAdapter>, adapters: Seq<AdapterInfo>) -> bool {
    let h = hardware(list, list.len());
    &&& adapters.len() == h.len()
    &&& forall|i: int|
        0 <= i < h.len() ==> is_adapter(list[h[i] as int], #[trigger] adapters[i])
}

/// Adapter `b` has the most dedicated memory, and is the first of several.
pub open spec fn has_most(adapters: Seq<AdapterInfo>, b: int) -> bool {
    &&& 0 <= b < adapters.len()
    &&& forall|i: int|
        0 <= i < adapters.len() ==> (#[trigger] adapters[i]).dedicated <= adapters[b].dedicated && (
        i < b ==> adapters[i].dedicated < adapters[b].dedicated)
}

/// `a` is the adapter with the most dedicated memory, where there is one.
pub open spec fn is_primary(adapters: Seq<AdapterInfo>, a: Option<AdapterInfo>) -> bool {
    match a {
        None => adapters.len() == 0,
        Some(x) => exists|b: int| #[trigger] has_most(adapters, b) && x == adapters[b],
    }
}

/// Graphics `b` are graphics `a` with the memory in use and the budget.
pub open spec fn is_updated(a: Gpu, usage: Option<(u64, u64)>, b: Gpu) -> bool {
    b == (match usage {
        Some((used, budget)) => Gpu { vram_used: used, vram_budget: budget, ..a },
        None => a,
    })
}

impl Gpu {
    /// The hardware adapters of the system's list, and the position of the
    /// one that the widgets describe: the one with the most dedicated memory.
    pub fn new(list: &Vec<RawAdapter>) -> (r: (Gpu, Option<usize>))
        ensures
            lists_hardware(list@, r.0.adapters@),
            r.0.vram_used == 0,
            r.0.vram_budget == 0,
            match r.1 {
                None => {
                    &&& forall|i: int| 0 <= i < list@.len() ==> !is_hardware(#[trigger] list@[i])
                    &&& r.0.name@.len() == 0
                    &&& r.0.vram_total == 0
                },
                Some(b) => {
                    &&& is_largest(list@, b as int)
                    &&& r.0.name@ == adapter_name(list@[b as int].description@)
                    &&& r.0.vram_total == list@[b as int].dedicated
                },
            },
    {
        let mut adapters: Vec<AdapterInfo> = Vec::new();
        let mut best: Option<usize> = None;
        let mut name: String = String::new();
        let mut total: u64 = 0;
        let mut i: usize = 0;
        while i < list.len()
            invariant
                i <= list.len(),
                adapters@.len() == hardware(list@, i as nat).len(),
                forall|j: int|
                    0 <= j < adapters@.len() ==> is_adapter(
                        list@[hardware(list@, i as nat)[j] as int],
                        #[trigger] adapters@[j],
                    ),
                match best {
                    None => {
                        &&& forall|j: int| 0 <= j < i ==> !is_hardware(#[trigger] list@[j])
                        &&& name@.len() == 0
                        &&& total == 0
                    },
                    Some(b) => {
                        &&& b < i
                        &&& is_hardware(list@[b as int])
                        &&& name@ == adapter_name(list@[b as int].description@)
                        &&& total == list@[b as int].dedicated
                        &&& forall|j: int|
                            0 <= j < i && is_hardware(#[trigger] list@[j]) ==> list@[j].dedicated
                                <= total && (j < b ==> list@[j].dedicated < total)
                    },
                },
            decreases list.len() - i,
        {
            if list[i].flags & ADAPTER_FLAG_SOFTWARE == 0 {
                let a: AdapterInfo = shown(&list[i]);
                let better: bool = match best {
                    None => true,
                    Some(_) => list[i].dedicated > total,
                };
                if better {
                    best = Some(i);
                    name = a.name.clone();
                    total = list[i].dedicated;
                }
                adapters.push(a);
            }
            i += 1;
        }
        (Gpu { name, vram_total: total, vram_used: 0, vram_budget: 0, adapters }, best)
    }

    /// The adapter that the widgets describe: the one with the most dedicated
    /// memory.
    pub fn primary(&self) -> (r: Option<&AdapterInfo>)
        ensures
            match r {
                None => is_primary(self.adapters@, None),
                Some(a) => is_primary(self.adapters@, Some(*a)),
            },
    {
        if self.adapters.len() == 0 {
            return None;
        }
        let mut best: usize = 0;
        let mut i: usize = 1;
        while i < self.adapters.len()
            invariant
                1 <= i <= self.adapters.len(),
                best < i,
                has_most(self.adapters@.take(i as int), best as int),
            decreases self.adapters.len() - i,
        {
            let ghost before = self.adapters@.take(i as int);
            let ghost after = self.adapters@.take(i + 1);
            proof {
                assert forall|j: int| 0 <= j < i implies after[j] == before[j] by {}
            }
            if self.adapters[i].dedicated > self.adapters[best].dedicated {
                best = i;
            }
            i += 1;
            assert(has_most(after, best as int)) by {
                assert forall|j: int| 0 <= j < after.len() implies (#[trigger] after[j]).dedicated
                    <= after[best as int].dedicated && (j < best ==> after[j].dedicated
                    < after[best as int].dedicated) by {
                    if j < i - 1 {
                        assert(after[j] == before[j]);
                    }
                }
            }
        }
        assert(self.adapters@.take(i as int) =~= self.adapters@);
        assert(has_most(self.adapters@, best as int));
        Some(&self.adapters[best])
    }

    /// Takes the memory in use and the budget, where the system tells them.
    pub fn update(&mut self, usage: Option<(u64, u64)>)
        ensures
            is_updated(*old(self), usage, *final(self)),
    {
        if let Some((used, budget)) = usage {
            self.vram_used = used;
            self.vram_budget = budget;
        }
    }
}

/// The positions of the hardware adapters rise, and are those of all of them.
proof fn lemma_hardware(list: Seq<RawAdapter>, n: nat)
    requires
        n <= list.len() <= usize::MAX,
    ensures
        ({
            let h = hardware(list, n);
            &&& forall|i: int| 0 <= i < h.len() ==> (#[trigger] h[i]) < n && is_hardware(list[h[i] as int])
            &&& forall|i: int, j: int| 0 <= i < j < h.len() ==> #[trigger] h[i] < #[trigger] h[j]
            &&& forall|p: int|
                0 <= p < n && is_hardware(#[trigger] list[p]) ==> exists|i: int|
                    0 <= i < h.len() && #[trigger] h[i] == p
        }),
    decreases n,
{
    if n > 0 {
        lemma_hardware(list, (n - 1) as nat);
        let o = hardware(list, (n - 1) as nat);
        let h = hardware(list, n);
        assert forall|p: int| 0 <= p < n && is_hardware(#[trigger] list[p]) implies exists|i: int|
            0 <= i < h.len() && #[trigger] h[i] == p by {
            if p < n - 1 {
                let i = choose|i: int| 0 <= i < o.len() && #[trigger] o[i] == p;
                assert(h[i] == p);
            } else {
                assert(h[o.len() as int] == p);
            }
        }
    }
}

/// The adapter that the widgets describe is the one whose name and memory the
/// GPU has.
pub proof fn law_described_adapter_is_primary(
    list: Seq<RawAdapter>,
    adapters: Seq<AdapterInfo>,
    b: int,
    a: AdapterInfo,
)
    requires
        list.len() <= usize::MAX,
        lists_hardware(list, adapters),
        is_largest(list, b),
        is_primary(adapters, Some(a)),
    ensures
        is_adapter(list[b], a),
{
    let h = hardware(list, list.len());
    lemma_hardware(list, list.len());
    let k = choose|k: int| #[trigger] has_most(adapters, k) && a == adapters[k];
    assert(is_hardware(list[b]));
    let m = choose|i: int| 0 <= i < h.len() && #[trigger] h[i] == b;
    assert(is_adapter(list[h[m] as int], adapters[m]));
    assert(is_adapter(list[h[k] as int], adapters[k]));
    if k < m {
        assert(h[k] < h[m]);
    } else if m < k {
        assert(h[m] < h[k]);
    }
}

/// Every adapter that is hardware is listed with what the system says of it, and
/// no other is.
pub proof fn law_hardware_is_listed(list: Seq<RawAdapter>, adapters: Seq<AdapterInfo>, p: int, i: int) -> (r: (
    int,
    int,
))
    requires
        list.len() <= usize::MAX,
        lists_hardware(list, adapters),
    ensures
        0 <= p < list.len() && is_hardware(list[p]) ==> 0 <= r.0 < adapters.len()
            && adapters[r.0].vendor_id == list[p].vendor_id && adapters[r.0].device_id
            == list[p].device_id && adapters[r.0].dedicated == list[p].dedicated
            && adapters[r.0].name@ == adapter_name(list[p].description@),
        0 <= i < adapters.len() ==> 0 <= r.1 < list.len() && is_hardware(list[r.1])
            && adapters[i].vendor_id == list[r.1].vendor_id && adapters[i].device_id
            == list[r.1].device_id && adapters[i].dedicated == list[r.1].dedicated
            && adapters[i].name@ == adapter_name(list[r.1].description@),
        adapters.len() <= list.len(),
{
    let h = hardware(list, list.len());
    lemma_hardware(list, list.len());
    lemma_hardware_len(list, list.len());
    let a = if 0 <= p < list.len() && is_hardware(list[p]) {
        let k = choose|k: int| 0 <= k < h.len() && #[trigger] h[k] == p;
        assert(is_adapter(list[h[k] as int], adapters[k]));
        k
    } else {
        0
    };
    let b = if 0 <= i < adapters.len() {
        assert(is_adapter(list[h[i] as int], adapters[i]));
        assert(h[i] < list.len());
        h[i] as int
    } else {
        0
    };
    (a, b)
}

proof fn lemma_hardware_len(list: Seq<RawAdapter>, n: nat)
    ensures
        hardware(list, n).len() <= n,
    decreases n,
{
    if n > 0 {
        lemma_hardware_len(list, (n - 1) as nat);
    }
}

proof fn lemma_four(v: nat, a: nat, b: nat, c: nat, d: nat)
    requires
        a < 0x1_0000 && b < 0x1_0000 && c < 0x1_0000 && d < 0x1_0000,
        v == a * 0x1_0000_0000_0000 + b * 0x1_0000_0000 + c * 0x1_0000 + d,
    ensures
        v / 0x1_0000_0000_0000 % 0x1_0000 == a,
        v / 0x1_0000_0000 % 0x1_0000 == b,
        v / 0x1_0000 % 0x1_0000 == c,
        v % 0x1_0000 == d,
{
    let (x, y, z, w) = (a as int, b as int, c as int, d as int);
    text::lemma_quotient(x, y * 0x1_0000_0000 + z * 0x1_0000 + w, 0x1_0000_0000_0000);
    text::lemma_quotient(0, x, 0x1_0000);
    text::lemma_quotient(x * 0x1_0000 + y, z * 0x1_0000 + w, 0x1_0000_0000);
    text::lemma_quotient(x, y, 0x1_0000);
    text::lemma_quotient(x * 0x1_0000_0000 + y * 0x1_0000 + z, w, 0x1_0000);
    text::lemma_quotient(x * 0x1_0000 + y, z, 0x1_0000);
}

/// A driver's version is written as its four numbers, the highest first.
pub proof fn law_version_is_its_four_numbers(v: nat, a: nat, b: nat, c: nat, d: nat)
    requires
        a < 0x1_0000 && b < 0x1_0000 && c < 0x1_0000 && d < 0x1_0000,
        v == a * 0x1_0000_0000_0000 + b * 0x1_0000_0000 + c * 0x1_0000 + d,
    ensures
        version_text(v) == text::decimal(a) + "."@ + text::decimal(b) + "."@ + text::decimal(c)
            + "."@ + text::decimal(d),
{
    lemma_four(v, a, b, c, d);
}

/// What the system tells is taken over, each number in its place; where it tells
/// nothing, all stays.
pub proof fn law_memory_in_use_is_as_told(a: Gpu, usage: Option<(u64, u64)>, b: Gpu)
    requires
        is_updated(a, usage, b),
    ensures
        usage.is_some() ==> b.vram_used == (usage->0).0 && b.vram_budget == (usage->0).1,
        usage.is_none() ==> b.vram_used == a.vram_used && b.vram_budget == a.vram_budget,
        b.vram_total == a.vram_total && b.name == a.name && b.adapters == a.adapters,
{
}

} // verus!
