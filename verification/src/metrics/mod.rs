//! What the machine is and how it is doing: the values that the widgets and
//! popups read, filled from the local counters or from an agent's snapshots.

pub mod battery;
pub mod cpu;
pub mod disks;
pub mod drives;
pub mod gpu;
pub mod local;
pub mod mem;
pub mod net;
pub mod pdh;
pub mod processes;
pub mod smbios;

use crate::metrics::battery::{Battery, BatteryDetail};
use crate::metrics::disks::PhysicalDisk;
use crate::metrics::drives::Drive;
use crate::metrics::gpu::AdapterInfo;
use crate::metrics::mem::Mem;
use crate::metrics::net::NetIface;
use crate::metrics::processes::ProcInfo;
use crate::metrics::smbios::MemModule;
use crate::number::{Double, Single};
use crate::order::{self, Descending, Pair};
use std::collections::VecDeque;
use vstd::prelude::*;

verus! {

/// Samples that a history keeps.
pub const HISTORY: usize = 120;

/// Everything the widgets and the popups read: current values, histories,
/// hardware lists. Filled by the local collector or by a remote agent's
/// snapshots; the drawing code does not know which.
#[derive(Clone, Debug)]
pub struct MetricsData {
    pub mem: Mem,
    pub cpu_cores: Vec<Single>,
    pub cpu_total: Single,
    pub cpu_system: Single,
    pub cpu_user: Single,
    pub cpu_name: String,
    /// Efficiency class per displayed core; all equal on non-hybrid CPUs.
    pub cpu_classes: Vec<u8>,
    /// Package (socket) index per displayed core.
    pub cpu_packages: Vec<u8>,
    pub cpu_sockets: usize,
    pub cpu_history: VecDeque<Single>,
    pub mem_history: VecDeque<Single>,
    pub net_rx: Double,
    pub net_tx: Double,
    pub net_total_rx: u64,
    pub net_total_tx: u64,
    pub net_iface: String,
    pub net_ip: String,
    /// Every hardware interface with its own rate.
    pub net_ifaces: Vec<NetIface>,
    pub net_history: VecDeque<(Single, Single)>,
    pub disk_read: Double,
    pub disk_write: Double,
    pub disk_history: VecDeque<(Single, Single)>,
    pub disk_free: u64,
    pub disk_total: u64,
    pub drives: Vec<Drive>,
    pub gpu: Option<Single>,
    pub gpu_history: VecDeque<Single>,
    pub gpu_name: String,
    pub gpu_adapters: Vec<AdapterInfo>,
    pub gpu_primary: Option<AdapterInfo>,
    /// Physical disks with model, bus and size.
    pub disks: Vec<PhysicalDisk>,
    pub mem_modules: Vec<MemModule>,
    pub mem_summary: Option<String>,
    /// Memory channels in use.
    pub mem_channels: Option<usize>,
    pub vram_used: u64,
    pub vram_budget: u64,
    pub vram_total: u64,
    pub battery: Option<Battery>,
    pub battery_detail: Option<BatteryDetail>,
    pub top_cpu: Vec<ProcInfo>,
    pub top_mem: Vec<ProcInfo>,
    pub top_io: Vec<ProcInfo>,
    pub top_n: usize,
    /// Memory breakdown for the popup.
    pub mem_processes: u64,
    pub mem_kernel_paged: u64,
    pub mem_kernel_nonpaged: u64,
    pub mem_cache: u64,
    /// False where there are no GPU counters.
    pub gpu_available: bool,
    /// False on machines without a battery.
    pub battery_available: bool,
    /// Remote machine's name; empty for the local machine.
    pub host: String,
    /// Remote machine not reachable right now (its last values stay).
    pub offline: bool,
    /// CPU package temperature where the source has one.
    pub cpu_temp: Option<Single>,
    /// Current clock per displayed core in MHz; empty when unknown.
    pub cpu_freq: Vec<u32>,
    /// Load averages over 1, 5 and 15 minutes.
    pub load_avg: Vec<Single>,
}

/// No histories, lists or texts, and every value zero or absent.
pub open spec fn is_empty(d: MetricsData) -> bool {
    &&& d.mem == (Mem {
        total: 0,
        used: 0,
        pct: Single::zero(),
        commit_used: 0,
        commit_total: 0,
    })
    &&& d.cpu_cores@.len() == 0
    &&& d.cpu_total == Single::zero()
    &&& d.cpu_system == Single::zero()
    &&& d.cpu_user == Single::zero()
    &&& d.cpu_name@.len() == 0
    &&& d.cpu_classes@.len() == 0
    &&& d.cpu_packages@.len() == 0
    &&& d.cpu_sockets == 0
    &&& d.cpu_history@.len() == 0
    &&& d.mem_history@.len() == 0
    &&& d.net_rx == Double::zero()
    &&& d.net_tx == Double::zero()
    &&& d.net_total_rx == 0
    &&& d.net_total_tx == 0
    &&& d.net_iface@.len() == 0
    &&& d.net_ip@.len() == 0
    &&& d.net_ifaces@.len() == 0
    &&& d.net_history@.len() == 0
    &&& d.disk_read == Double::zero()
    &&& d.disk_write == Double::zero()
    &&& d.disk_history@.len() == 0
    &&& d.disk_free == 0
    &&& d.disk_total == 0
    &&& d.drives@.len() == 0
    &&& d.gpu.is_none()
    &&& d.gpu_history@.len() == 0
    &&& d.gpu_name@.len() == 0
    &&& d.gpu_adapters@.len() == 0
    &&& d.gpu_primary.is_none()
    &&& d.disks@.len() == 0
    &&& d.mem_modules@.len() == 0
    &&& d.mem_summary.is_none()
    &&& d.mem_channels.is_none()
    &&& d.vram_used == 0
    &&& d.vram_budget == 0
    &&& d.vram_total == 0
    &&& d.battery.is_none()
    &&& d.battery_detail.is_none()
    &&& d.top_cpu@.len() == 0
    &&& d.top_mem@.len() == 0
    &&& d.top_io@.len() == 0
    &&& d.top_n == 0
    &&& d.mem_processes == 0
    &&& d.mem_kernel_paged == 0
    &&& d.mem_kernel_nonpaged == 0
    &&& d.mem_cache == 0
    &&& !d.gpu_available
    &&& !d.battery_available
    &&& d.host@.len() == 0
    &&& !d.offline
    &&& d.cpu_temp.is_none()
    &&& d.cpu_freq@.len() == 0
    &&& d.load_avg@.len() == 0
}

impl Default for MetricsData {
    fn default() -> (r: MetricsData)
        ensures
            is_empty(r),
    {
        MetricsData::empty()
    }
}

// ---------------------------------------------------------------------------
// Histories

/// A bounded history with one sample more: the oldest leaves where it is full.
pub open spec fn pushed<T>(q: Seq<T>, v: T) -> Seq<T> {
    if q.len() >= HISTORY {
        q.skip(1).push(v)
    } else {
        q.push(v)
    }
}

/// Appends to a bounded history.
pub fn push<T>(q: &mut VecDeque<T>, v: T)
    ensures
        final(q)@ == pushed(old(q)@, v),
{
    if q.len() >= HISTORY {
        let _oldest: Option<T> = q.pop_front();
    }
    q.push_back(v);
    assert(q@ =~= pushed(old(q)@, v));
}

/// Two rates as a history keeps them.
pub open spec fn narrowed_pair(a: Double, b: Double) -> (Single, Single) {
    (a.narrowed(), b.narrowed())
}

pub fn narrow_pair(a: Double, b: Double) -> (r: (Single, Single))
    ensures
        r == narrowed_pair(a, b),
{
    (a.narrow(), b.narrow())
}

/// A history never outgrows its bound, ends in the newest sample, and keeps
/// the order of the others.
pub proof fn law_history_is_bounded<T>(q: Seq<T>, v: T)
    requires
        q.len() <= HISTORY,
    ensures
        pushed(q, v).len() <= HISTORY,
        pushed(q, v).last() == v,
        pushed(q, v).drop_last() == (if q.len() == HISTORY {
            q.skip(1)
        } else {
            q
        }),
{
    assert(pushed(q, v).drop_last() =~= (if q.len() == HISTORY {
        q.skip(1)
    } else {
        q
    }));
}

// ---------------------------------------------------------------------------
// Cores

/// An entry of a list of bytes, where there is one.
pub open spec fn entry(s: Seq<u8>, i: int) -> Option<u8> {
    if 0 <= i < s.len() {
        Some(s[i])
    } else {
        None
    }
}

/// An entry of a list, or zero.
pub open spec fn entry_or_zero(s: Seq<u8>, i: int) -> u8 {
    if 0 <= i < s.len() {
        s[i]
    } else {
        0
    }
}

fn get_or_zero(v: &Vec<u8>, i: usize) -> (r: u8)
    ensures
        r == entry_or_zero(v@, i as int),
{
    if i < v.len() {
        v[i]
    } else {
        0
    }
}

/// A divider stands before core `i`: its socket or its class differs from
/// that of the core before it.
pub open spec fn break_before(classes: Seq<u8>, packages: Seq<u8>, i: int) -> bool {
    i > 0 && (entry(classes, i) != entry(classes, i - 1) || entry(packages, i) != entry(
        packages,
        i - 1,
    ))
}

fn differs(v: &Vec<u8>, i: usize) -> (r: bool)
    requires
        i > 0,
    ensures
        r == (entry(v@, i as int) != entry(v@, i - 1)),
{
    if i < v.len() {
        v[i] != v[i - 1]
    } else {
        i - 1 < v.len()
    }
}

/// The clock of core `i` counts for the class: it is known, and the core is
/// of the class (any class where none is given).
pub open spec fn clock_counts(freq: Seq<u32>, classes: Seq<u8>, class: Option<u8>, i: int) -> bool {
    freq[i] != 0 && (class matches Some(c) ==> entry_or_zero(classes, i) == c)
}

/// How many of the first `n` clocks count, and their sum.
pub open spec fn clock_sum(freq: Seq<u32>, classes: Seq<u8>, class: Option<u8>, n: nat) -> (nat, nat)
    decreases n,
{
    if n == 0 {
        (0, 0)
    } else {
        let (c, s) = clock_sum(freq, classes, class, (n - 1) as nat);
        if clock_counts(freq, classes, class, n - 1) {
            (c + 1, s + freq[n - 1] as nat)
        } else {
            (c, s)
        }
    }
}

/// The highest class of a list, zero of none.
pub open spec fn top_class(classes: Seq<u8>) -> u8
    decreases classes.len(),
{
    if classes.len() == 0 {
        0
    } else {
        let rest = top_class(classes.drop_last());
        if classes.last() > rest {
            classes.last()
        } else {
            rest
        }
    }
}

/// Core `i` is a performance core: its class is the highest, or not known.
pub open spec fn is_performance(classes: Seq<u8>, i: int) -> bool {
    entry(classes, i) matches Some(c) ==> c == top_class(classes)
}

/// The loads of the first `n` cores that are performance cores, or that are
/// not.
pub open spec fn loads_of(
    cores: Seq<Single>,
    classes: Seq<u8>,
    performance: bool,
    n: nat,
) -> Seq<Single>
    decreases n,
{
    if n == 0 {
        Seq::empty()
    } else {
        let rest = loads_of(cores, classes, performance, (n - 1) as nat);
        if is_performance(classes, n - 1) == performance {
            rest.push(cores[n - 1])
        } else {
            rest
        }
    }
}

proof fn lemma_clock_sum(freq: Seq<u32>, classes: Seq<u8>, class: Option<u8>, n: nat)
    requires
        n <= freq.len(),
    ensures
        clock_sum(freq, classes, class, n).0 <= n,
        clock_sum(freq, classes, class, n).1 <= clock_sum(freq, classes, class, n).0 * u32::MAX,
    decreases n,
{
    if n > 0 {
        lemma_clock_sum(freq, classes, class, (n - 1) as nat);
        let (c, s) = clock_sum(freq, classes, class, (n - 1) as nat);
        assert((c + 1) * u32::MAX == c * u32::MAX + u32::MAX) by (nonlinear_arith);
    }
}

impl MetricsData {
    /// Nothing is known yet.
    pub fn empty() -> (r: MetricsData)
        ensures
            is_empty(r),
    {
        MetricsData {
            mem: Mem {
                total: 0,
                used: 0,
                pct: Single::zero(),
                commit_used: 0,
                commit_total: 0,
            },
            cpu_cores: Vec::new(),
            cpu_total: Single::zero(),
            cpu_system: Single::zero(),
            cpu_user: Single::zero(),
            cpu_name: String::new(),
            cpu_classes: Vec::new(),
            cpu_packages: Vec::new(),
            cpu_sockets: 0,
            cpu_history: VecDeque::new(),
            mem_history: VecDeque::new(),
            net_rx: Double::zero(),
            net_tx: Double::zero(),
            net_total_rx: 0,
            net_total_tx: 0,
            net_iface: String::new(),
            net_ip: String::new(),
            net_ifaces: Vec::new(),
            net_history: VecDeque::new(),
            disk_read: Double::zero(),
            disk_write: Double::zero(),
            disk_history: VecDeque::new(),
            disk_free: 0,
            disk_total: 0,
            drives: Vec::new(),
            gpu: None,
            gpu_history: VecDeque::new(),
            gpu_name: String::new(),
            gpu_adapters: Vec::new(),
            gpu_primary: None,
            disks: Vec::new(),
            mem_modules: Vec::new(),
            mem_summary: None,
            mem_channels: None,
            vram_used: 0,
            vram_budget: 0,
            vram_total: 0,
            battery: None,
            battery_detail: None,
            top_cpu: Vec::new(),
            top_mem: Vec::new(),
            top_io: Vec::new(),
            top_n: 0,
            mem_processes: 0,
            mem_kernel_paged: 0,
            mem_kernel_nonpaged: 0,
            mem_cache: 0,
            gpu_available: false,
            battery_available: false,
            host: String::new(),
            offline: false,
            cpu_temp: None,
            cpu_freq: Vec::new(),
            load_avg: Vec::new(),
        }
    }

    /// Where to draw a divider in the core charts.
    pub fn cpu_breaks(&self) -> (r: Vec<bool>)
        ensures
            r@ == Seq::new(
                self.cpu_cores@.len(),
                |i: int| break_before(self.cpu_classes@, self.cpu_packages@, i),
            ),
    {
        let mut r: Vec<bool> = Vec::new();
        let mut i: usize = 0;
        while i < self.cpu_cores.len()
            invariant
                i <= self.cpu_cores.len(),
                r@ == Seq::new(
                    i as nat,
                    |j: int| break_before(self.cpu_classes@, self.cpu_packages@, j),
                ),
            decreases self.cpu_cores.len() - i,
        {
            let b: bool = i > 0 && (differs(&self.cpu_classes, i) || differs(
                &self.cpu_packages,
                i,
            ));
            r.push(b);
            i += 1;
        }
        r
    }

    /// Average current clock in MHz, rounded down, over the displayed cores
    /// of `class` (`None` for all cores) whose clock is known.
    pub fn cpu_clock(&self, class: Option<u8>) -> (r: Option<u32>)
        ensures
            r == mean_clock(self.cpu_freq@, self.cpu_classes@, class),
    {
        let mut sum: u128 = 0;
        let mut n: u128 = 0;
        let mut i: usize = 0;
        while i < self.cpu_freq.len()
            invariant
                i <= self.cpu_freq.len(),
                (n as nat, sum as nat) == clock_sum(
                    self.cpu_freq@,
                    self.cpu_classes@,
                    class,
                    i as nat,
                ),
                n <= i,
                sum <= n * u32::MAX,
            decreases self.cpu_freq.len() - i,
        {
            proof {
                lemma_clock_sum(self.cpu_freq@, self.cpu_classes@, class, (i + 1) as nat);
                assert(n * u32::MAX <= 0xffff_ffff_ffff_ffff * u32::MAX) by (nonlinear_arith)
                    requires
                        n <= 0xffff_ffff_ffff_ffff,
                ;
            }
            let of_class: bool = match class {
                Some(c) => get_or_zero(&self.cpu_classes, i) == c,
                None => true,
            };
            if self.cpu_freq[i] != 0 && of_class {
                sum = sum + self.cpu_freq[i] as u128;
                n = n + 1;
            }
            i += 1;
        }
        if n > 0 {
            assert(sum / n <= u32::MAX) by (nonlinear_arith)
                requires
                    sum <= n * u32::MAX,
                    n > 0,
            ;
            Some((sum / n) as u32)
        } else {
            None
        }
    }

    /// Whether the CPU has cores of different efficiency classes.
    pub fn cpu_hybrid(&self) -> (r: bool)
        ensures
            r == exists|i: int|
                0 <= i < self.cpu_classes@.len() && #[trigger] self.cpu_classes@[i]
                    != self.cpu_classes@[0],
    {
        let mut i: usize = 0;
        while i < self.cpu_classes.len()
            invariant
                i <= self.cpu_classes.len(),
                forall|j: int|
                    0 <= j < i ==> #[trigger] self.cpu_classes@[j] == self.cpu_classes@[0],
            decreases self.cpu_classes.len() - i,
        {
            if self.cpu_classes[i] != self.cpu_classes[0] {
                return true;
            }
            i += 1;
        }
        false
    }

    /// The loads of the performance cores and those of the others.
    pub fn cpu_pe(&self) -> (r: (Vec<Single>, Vec<Single>))
        ensures
            r.0@ == loads_of(self.cpu_cores@, self.cpu_classes@, true, self.cpu_cores@.len()),
            r.1@ == loads_of(self.cpu_cores@, self.cpu_classes@, false, self.cpu_cores@.len()),
    {
        let mut top: u8 = 0;
        let mut k: usize = 0;
        while k < self.cpu_classes.len()
            invariant
                k <= self.cpu_classes.len(),
                top == top_class(self.cpu_classes@.take(k as int)),
            decreases self.cpu_classes.len() - k,
        {
            assert(self.cpu_classes@.take(k + 1).drop_last() =~= self.cpu_classes@.take(k as int));
            assert(self.cpu_classes@.take(k + 1).last() == self.cpu_classes@[k as int]);
            if self.cpu_classes[k] > top {
                top = self.cpu_classes[k];
            }
            k += 1;
        }
        assert(self.cpu_classes@.take(self.cpu_classes@.len() as int) =~= self.cpu_classes@);
        let mut p: Vec<Single> = Vec::new();
        let mut e: Vec<Single> = Vec::new();
        let mut i: usize = 0;
        while i < self.cpu_cores.len()
            invariant
                i <= self.cpu_cores.len(),
                top == top_class(self.cpu_classes@),
                p@ == loads_of(self.cpu_cores@, self.cpu_classes@, true, i as nat),
                e@ == loads_of(self.cpu_cores@, self.cpu_classes@, false, i as nat),
            decreases self.cpu_cores.len() - i,
        {
            if i >= self.cpu_classes.len() || self.cpu_classes[i] == top {
                p.push(self.cpu_cores[i]);
            } else {
                e.push(self.cpu_cores[i]);
            }
            i += 1;
        }
        (p, e)
    }
}

/// Every core is counted once, as a performance core or as another.
pub proof fn law_cores_are_split(cores: Seq<Single>, classes: Seq<u8>, n: nat)
    requires
        n <= cores.len(),
    ensures
        loads_of(cores, classes, true, n).len() + loads_of(cores, classes, false, n).len() == n,
    decreases n,
{
    if n > 0 {
        law_cores_are_split(cores, classes, (n - 1) as nat);
    }
}

// ---------------------------------------------------------------------------
// Display order of the cores

/// The sort key of a core when cores are grouped: socket or cluster first,
/// then the faster class.
pub open spec fn core_key(
    packages: Seq<u8>,
    classes: Seq<u8>,
    i: int,
) -> Pair<u64, Descending<u64>> {
    Pair(entry_or_zero(packages, i) as u64, Descending(entry_or_zero(classes, i) as u64))
}

pub open spec fn core_keys(packages: Seq<u8>, classes: Seq<u8>, n: nat) -> Seq<
    Pair<u64, Descending<u64>>,
> {
    Seq::new(n, |i: int| core_key(packages, classes, i))
}

/// `p` is the display order of `n` cores: as the hardware numbers them, or
/// grouped by socket with the faster cores first.
pub open spec fn is_core_order(
    packages: Seq<u8>,
    classes: Seq<u8>,
    n: nat,
    group: bool,
    p: Seq<usize>,
) -> bool {
    if group {
        order::is_stable_order(core_keys(packages, classes, n), p)
    } else {
        p == Seq::new(n, |i: int| i as usize)
    }
}

/// The display order of `n` cores.
pub fn core_order(packages: &Vec<u8>, classes: &Vec<u8>, n: usize, group: bool) -> (r: Vec<usize>)
    ensures
        is_core_order(packages@, classes@, n as nat, group, r@),
        r@.len() == n,
        order::is_permutation(r@),
{
    let mut plain: Vec<usize> = Vec::new();
    let mut keys: Vec<Pair<u64, Descending<u64>>> = Vec::new();
    let mut i: usize = 0;
    while i < n
        invariant
            i <= n,
            plain@ == Seq::new(i as nat, |j: int| j as usize),
            keys@ == core_keys(packages@, classes@, i as nat),
        decreases n - i,
    {
        plain.push(i);
        keys.push(
            Pair(
                get_or_zero(packages, i) as u64,
                Descending(get_or_zero(classes, i) as u64),
            ),
        );
        i += 1;
    }
    if group {
        order::stable_order(&keys)
    } else {
        assert forall|a: int| 0 <= a < plain@.len() implies (#[trigger] plain@[a]) < plain@.len() by {
            assert(plain@[a] == a as usize);
        }
        plain
    }
}

/// The bytes of a list at the positions that `p` lists.
pub open spec fn bytes_at(s: Seq<u8>, p: Seq<usize>) -> Seq<u8> {
    Seq::new(p.len(), |i: int| entry_or_zero(s, p[i] as int))
}

pub fn pick_bytes(v: &Vec<u8>, p: &Vec<usize>) -> (r: Vec<u8>)
    ensures
        r@ == bytes_at(v@, p@),
{
    let mut r: Vec<u8> = Vec::new();
    let mut i: usize = 0;
    while i < p.len()
        invariant
            i <= p.len(),
            r@ == bytes_at(v@, p@).take(i as int),
        decreases p.len() - i,
    {
        r.push(get_or_zero(v, p[i]));
        i += 1;
    }
    r
}

/// The loads of a list at the positions that `p` lists; nothing for a core
/// that the list does not have.
pub open spec fn loads_at(s: Seq<Single>, p: Seq<usize>) -> Seq<Single> {
    Seq::new(
        p.len(),
        |i: int|
            if (p[i] as int) < s.len() {
                s[p[i] as int]
            } else {
                Single::zero()
            },
    )
}

pub fn pick_loads(v: &Vec<Single>, p: &Vec<usize>) -> (r: Vec<Single>)
    ensures
        r@ == loads_at(v@, p@),
{
    let mut r: Vec<Single> = Vec::new();
    let mut i: usize = 0;
    while i < p.len()
        invariant
            i <= p.len(),
            r@ == loads_at(v@, p@).take(i as int),
        decreases p.len() - i,
    {
        let k: usize = p[i];
        if k < v.len() {
            r.push(v[k]);
        } else {
            r.push(Single::zero());
        }
        i += 1;
    }
    r
}

/// The clocks of a list at the positions that `p` lists; zero for a core that
/// the list does not have.
pub open spec fn clocks_at(s: Seq<u32>, p: Seq<usize>) -> Seq<u32> {
    Seq::new(
        p.len(),
        |i: int|
            if (p[i] as int) < s.len() {
                s[p[i] as int]
            } else {
                0
            },
    )
}

pub fn pick_clocks(v: &Vec<u32>, p: &Vec<usize>) -> (r: Vec<u32>)
    ensures
        r@ == clocks_at(v@, p@),
{
    let mut r: Vec<u32> = Vec::new();
    let mut i: usize = 0;
    while i < p.len()
        invariant
            i <= p.len(),
            r@ == clocks_at(v@, p@).take(i as int),
        decreases p.len() - i,
    {
        let k: usize = p[i];
        if k < v.len() {
            r.push(v[k]);
        } else {
            r.push(0);
        }
        i += 1;
    }
    r
}

/// In the grouped order no core stands before one of an earlier socket, nor
/// before a faster one of its own socket; equal cores keep their order.
pub proof fn law_grouped_order(
    packages: Seq<u8>,
    classes: Seq<u8>,
    n: nat,
    p: Seq<usize>,
    a: int,
    b: int,
)
    requires
        is_core_order(packages, classes, n, true, p),
        0 <= a < b < n,
    ensures
        ({
            let (x, y) = (p[a] as int, p[b] as int);
            let (px, py) = (entry_or_zero(packages, x), entry_or_zero(packages, y));
            let (cx, cy) = (entry_or_zero(classes, x), entry_or_zero(classes, y));
            &&& px <= py
            &&& px == py ==> cx >= cy
            &&& px == py && cx == cy ==> x < y
        }),
{
    let keys = core_keys(packages, classes, n);
    assert(order::goes_first(keys, p[a] as int, p[b] as int));
    assert(keys[p[a] as int] == core_key(packages, classes, p[a] as int));
    assert(keys[p[b] as int] == core_key(packages, classes, p[b] as int));
}

/// A divider stands before a core exactly where its class or its socket is
/// another than that of the core before it, and never before the first.
pub proof fn law_dividers_stand_where_the_kind_changes(
    classes: Seq<u8>,
    packages: Seq<u8>,
    breaks: Seq<bool>,
    i: int,
)
    requires
        breaks == Seq::new(classes.len(), |j: int| break_before(classes, packages, j)),
        packages.len() == classes.len(),
        0 <= i < classes.len(),
    ensures
        breaks.len() == classes.len(),
        i == 0 ==> !breaks[i],
        i > 0 ==> (breaks[i] <==> classes[i] != classes[i - 1] || packages[i] != packages[i - 1]),
{
}

/// The mean clock of a class, where one is known.
pub open spec fn mean_clock(freq: Seq<u32>, classes: Seq<u8>, class: Option<u8>) -> Option<u32> {
    let (n, sum) = clock_sum(freq, classes, class, freq.len());
    if n > 0 {
        Some((sum / n) as u32)
    } else {
        None
    }
}

/// Whether a core's clock is known and the core is of the class that is asked
/// for.
pub open spec fn asked_for(freq: Seq<u32>, classes: Seq<u8>, class: Option<u8>, i: int) -> bool {
    0 <= i < freq.len() && i < classes.len() && freq[i] != 0 && (class == Some(classes[i])
        || class.is_none())
}

proof fn lemma_clock_bounds(
    freq: Seq<u32>,
    classes: Seq<u8>,
    class: Option<u8>,
    n: nat,
    low: nat,
    high: nat,
)
    requires
        n <= freq.len() == classes.len(),
        forall|i: int| #[trigger] asked_for(freq, classes, class, i) ==> low <= freq[i] <= high,
    ensures
        ({
            let (c, s) = clock_sum(freq, classes, class, n);
            &&& c * low <= s <= c * high
            &&& c > 0 <==> exists|i: int| i < n && #[trigger] asked_for(freq, classes, class, i)
        }),
    decreases n,
{
    if n > 0 {
        lemma_clock_bounds(freq, classes, class, (n - 1) as nat, low, high);
        let (c, s) = clock_sum(freq, classes, class, (n - 1) as nat);
        assert(clock_counts(freq, classes, class, n - 1) == asked_for(freq, classes, class, n - 1));
        assert((c + 1) * low == c * low + low) by (nonlinear_arith);
        assert((c + 1) * high == c * high + high) by (nonlinear_arith);
        if exists|i: int| i < n && #[trigger] asked_for(freq, classes, class, i) {
            let i = choose|i: int| i < n && #[trigger] asked_for(freq, classes, class, i);
            if i < n - 1 {
                assert(i < (n - 1) as nat && asked_for(freq, classes, class, i));
            }
        }
        let m = (n - 1) as nat;
        if exists|i: int| i < m && #[trigger] asked_for(freq, classes, class, i) {
            let i = choose|i: int| i < m && #[trigger] asked_for(freq, classes, class, i);
            assert(i < n && asked_for(freq, classes, class, i));
        }
        if asked_for(freq, classes, class, n - 1) {
            assert(low <= freq[n - 1] <= high);
            assert(n - 1 < n && asked_for(freq, classes, class, n - 1));
        }
    } else {
        assert(0 * low == 0 && 0 * high == 0);
    }
}

/// The clock that is shown of a class lies between the lowest and the highest
/// clock of its cores, so that where they all run alike it is theirs; cores of
/// other classes and cores whose clock is not known do not count, and nothing is
/// shown where no core counts.
pub proof fn law_clock_is_that_of_the_class(
    freq: Seq<u32>,
    classes: Seq<u8>,
    class: Option<u8>,
    low: u32,
    high: u32,
)
    requires
        freq.len() == classes.len(),
        forall|i: int| #[trigger] asked_for(freq, classes, class, i) ==> low <= freq[i] <= high,
    ensures
        mean_clock(freq, classes, class).is_none() <==> forall|i: int|
            !#[trigger] asked_for(freq, classes, class, i),
        mean_clock(freq, classes, class) matches Some(r) ==> low <= r <= high,
{
    lemma_clock_bounds(freq, classes, class, freq.len(), low as nat, high as nat);
    let (n, sum) = clock_sum(freq, classes, class, freq.len());
    if n > 0 {
        assert(low <= sum / n <= high) by (nonlinear_arith)
            requires
                n > 0,
                n * (low as nat) <= sum <= n * (high as nat),
        ;
    } else {
        assert forall|i: int| !#[trigger] asked_for(freq, classes, class, i) by {
            if asked_for(freq, classes, class, i) {
                assert(i < freq.len() && asked_for(freq, classes, class, i));
            }
        }
    }
}

proof fn lemma_top_class(classes: Seq<u8>)
    ensures
        forall|i: int| 0 <= i < classes.len() ==> #[trigger] classes[i] <= top_class(classes),
        classes.len() > 0 ==> exists|i: int|
            0 <= i < classes.len() && #[trigger] classes[i] == top_class(classes),
    decreases classes.len(),
{
    if classes.len() > 0 {
        let rest = classes.drop_last();
        lemma_top_class(rest);
        assert forall|i: int| 0 <= i < classes.len() implies #[trigger] classes[i] <= top_class(
            classes,
        ) by {
            if i < rest.len() {
                assert(rest[i] == classes[i]);
            }
        }
        if classes.last() > top_class(rest) || rest.len() == 0 {
            assert(classes[classes.len() - 1] == top_class(classes));
        } else {
            let i = choose|i: int| 0 <= i < rest.len() && #[trigger] rest[i] == top_class(rest);
            assert(classes[i] == top_class(classes));
        }
    }
}

proof fn lemma_loads_of(cores: Seq<Single>, classes: Seq<u8>, performance: bool, n: nat)
    requires
        n <= cores.len(),
    ensures
        forall|i: int|
            0 <= i < n && is_performance(classes, i) == performance ==> loads_of(
                cores,
                classes,
                performance,
                n,
            ).contains(#[trigger] cores[i]),
    decreases n,
{
    if n > 0 {
        lemma_loads_of(cores, classes, performance, (n - 1) as nat);
        let (s, r) = (
            loads_of(cores, classes, performance, (n - 1) as nat),
            loads_of(cores, classes, performance, n),
        );
        assert forall|i: int| 0 <= i < n && is_performance(classes, i) == performance implies r.contains(
            #[trigger] cores[i],
        ) by {
            if i < n - 1 {
                assert(s.contains(cores[i]));
                let w = choose|w: int| 0 <= w < s.len() && s[w] == cores[i];
                assert(r[w] == cores[i]);
            } else {
                assert(r[r.len() - 1] == cores[i]);
            }
        }
    }
}

/// The cores of the highest class are the performance cores, and the others are
/// not: each core's load stands in the list of its kind, and the lists have
/// together as many loads as there are cores.
pub proof fn law_fastest_cores_are_performance_cores(cores: Seq<Single>, classes: Seq<u8>, i: int)
    requires
        cores.len() == classes.len(),
        0 <= i < cores.len(),
    ensures
        (forall|j: int| 0 <= j < classes.len() ==> #[trigger] classes[j] <= classes[i]) ==> loads_of(
            cores,
            classes,
            true,
            cores.len(),
        ).contains(cores[i]),
        (exists|j: int| 0 <= j < classes.len() && #[trigger] classes[j] > classes[i]) ==> loads_of(
            cores,
            classes,
            false,
            cores.len(),
        ).contains(cores[i]),
        loads_of(cores, classes, true, cores.len()).len() + loads_of(
            cores,
            classes,
            false,
            cores.len(),
        ).len() == cores.len(),
{
    lemma_top_class(classes);
    lemma_loads_of(cores, classes, true, cores.len());
    lemma_loads_of(cores, classes, false, cores.len());
    law_cores_are_split(cores, classes, cores.len());
}

/// Cores that are shown in another order keep what belongs to them: place `i` shows
/// the class, the load and the clock of the core that stands there.
pub proof fn law_order_takes_everything_along(
    classes: Seq<u8>,
    loads: Seq<Single>,
    clocks: Seq<u32>,
    order: Seq<usize>,
    i: int,
)
    requires
        0 <= i < order.len(),
        order[i] < classes.len(),
        order[i] < loads.len(),
        order[i] < clocks.len(),
    ensures
        bytes_at(classes, order).len() == order.len() && bytes_at(classes, order)[i]
            == classes[order[i] as int],
        loads_at(loads, order).len() == order.len() && loads_at(loads, order)[i]
            == loads[order[i] as int],
        clocks_at(clocks, order).len() == order.len() && clocks_at(clocks, order)[i]
            == clocks[order[i] as int],
{
}

} // verus!
