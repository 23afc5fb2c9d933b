//! The local machine: what its counters said last, and the values that the
//! widgets read from it.

use crate::metrics::battery::{Battery, BatteryDetail};
use crate::metrics::disks::{self, PhysicalDisk};
use crate::metrics::drives::Drive;
use crate::metrics::gpu::{self, AdapterInfo, Gpu};
use crate::metrics::net::{self, Net};
use crate::metrics::processes::{self, Processes};
use crate::metrics::smbios::{self, MemModule};
use crate::metrics::{self, cpu, mem, MetricsData};
use crate::number::{Double, Single};
use vstd::prelude::*;

verus! {

/// The local machine. `cores`, `classes` and `packages` are in the order in
/// which the hardware numbers the cores.
pub struct Metrics {
    pub data: MetricsData,
    pub cores: Vec<Single>,
    pub classes: Vec<u8>,
    pub packages: Vec<u8>,
    pub net: Net,
    pub gpu_dev: Gpu,
    pub procs: Processes,
    pub disk_letter: String,
    /// Display order: hardware number of each displayed core.
    pub cpu_order: Vec<usize>,
    /// Read the counters of each disk on every tick, not only for the popup.
    pub want_per_disk: bool,
}

/// What is found on the machine at the start.
pub struct Hardware {
    pub cpu_name: String,
    pub cores: usize,
    pub classes: Vec<u8>,
    pub packages: Vec<u8>,
    pub gpu: Gpu,
    pub disks: Vec<PhysicalDisk>,
    pub modules: Vec<MemModule>,
    pub gpu_available: bool,
    pub battery_available: bool,
}

pub open spec fn at_least_one(n: usize) -> usize {
    if n > 0 {
        n
    } else {
        1
    }
}

fn copy_bytes(v: &Vec<u8>) -> (r: Vec<u8>)
    ensures
        r@ == v@,
{
    let mut r: Vec<u8> = Vec::new();
    let mut i: usize = 0;
    while i < v.len()
        invariant
            i <= v.len(),
            r@ == v@.take(i as int),
        decreases v.len() - i,
    {
        r.push(v[i]);
        i += 1;
    }
    r
}

fn copy_adapters(v: &Vec<AdapterInfo>) -> (r: Vec<AdapterInfo>)
    ensures
        r@ == v@,
{
    let mut r: Vec<AdapterInfo> = Vec::new();
    let mut i: usize = 0;
    while i < v.len()
        invariant
            i <= v.len(),
            r@ == v@.take(i as int),
        decreases v.len() - i,
    {
        r.push(v[i].copy());
        i += 1;
    }
    r
}

fn zeros(n: usize) -> (r: Vec<Single>)
    ensures
        r@ == Seq::new(n as nat, |i: int| Single::zero()),
{
    let mut r: Vec<Single> = Vec::new();
    let mut i: usize = 0;
    while i < n
        invariant
            i <= n,
            r@ == Seq::new(i as nat, |j: int| Single::zero()),
        decreases n - i,
    {
        r.push(Single::zero());
        i += 1;
    }
    r
}

/// The data of a machine of which only the hardware is known.
pub open spec fn hardware_known(h: Hardware, top_n: usize, disks_disabled: Seq<String>, d: MetricsData) -> bool {
    &&& exists|blank: MetricsData| #[trigger]
        metrics::is_empty(blank) && d == (MetricsData {
            cpu_name: d.cpu_name,
            cpu_classes: d.cpu_classes,
            cpu_packages: d.cpu_packages,
            cpu_sockets: d.cpu_sockets,
            gpu_name: d.gpu_name,
            gpu_adapters: d.gpu_adapters,
            gpu_primary: d.gpu_primary,
            disks: d.disks,
            mem_modules: d.mem_modules,
            mem_summary: d.mem_summary,
            mem_channels: d.mem_channels,
            vram_total: d.vram_total,
            top_n: d.top_n,
            gpu_available: d.gpu_available,
            battery_available: d.battery_available,
            ..blank
        })
    &&& d.cpu_name@ == h.cpu_name@
    &&& d.cpu_classes@ == h.classes@
    &&& d.cpu_packages@ == h.packages@
    &&& d.cpu_sockets == cpu::socket_count(h.packages@)
    &&& d.gpu_name@ == h.gpu.name@
    &&& d.gpu_adapters@ == h.gpu.adapters@
    &&& gpu::is_primary(h.gpu.adapters@, d.gpu_primary)
    &&& d.disks@ == disks::switched(h.disks@, disks_disabled)
    &&& d.mem_modules == h.modules
    &&& smbios::opt_view(d.mem_summary) == smbios::summary_of(h.modules@)
    &&& smbios::is_channel_count(h.modules@, d.mem_channels)
    &&& d.vram_total == h.gpu.vram_total
    &&& d.top_n == at_least_one(top_n)
    &&& d.gpu_available == h.gpu_available
    &&& d.battery_available == h.battery_available
}

/// One tick's readings.
pub struct Reading {
    /// Loads in the hardware's order.
    pub cores: Vec<Single>,
    pub total: Single,
    pub system: Single,
    pub user: Single,
    /// Total and available memory, total and available page file, and the
    /// part of the memory in use; none where the system does not tell.
    pub mem: Option<(u64, u64, u64, u64, Single)>,
    /// The GPU's load, the clocks in the hardware's order, and what the
    /// counted disks read and write; none where there are no counters.
    pub counters: Option<(Option<Single>, Vec<u32>, Double, Double)>,
    /// Free and total space of the widget's drive, where it has a medium.
    pub space: Option<(u64, u64)>,
    pub battery: Option<Battery>,
}

pub open spec fn or_zero(s: Option<Single>) -> Single {
    match s {
        Some(v) => v,
        None => Single::zero(),
    }
}

/// The memory after a tick.
pub open spec fn mem_after(m: mem::Mem, r: Option<(u64, u64, u64, u64, Single)>) -> mem::Mem {
    match r {
        None => m,
        Some((total, avail, page_total, page_avail, pct)) => mem::Mem {
            total,
            used: mem::minus(total, avail),
            pct: if total > 0 {
                pct
            } else {
                Single::zero()
            },
            commit_total: page_total,
            commit_used: mem::minus(page_total, page_avail),
        },
    }
}

/// The clocks after a tick: in display order, or none where the counters do
/// not have all the displayed cores.
pub open spec fn clocks_after(order: Seq<usize>, raw: Seq<u32>) -> Seq<u32> {
    if raw.len() >= order.len() {
        metrics::clocks_at(raw, order)
    } else {
        Seq::empty()
    }
}

/// The values after a tick.
pub open spec fn ticked(m: Metrics, r: Reading, d: MetricsData) -> bool {
    let o = m.data;
    let n = m.net;
    &&& d == (MetricsData {
        cpu_cores: d.cpu_cores,
        cpu_total: r.total,
        cpu_system: r.system,
        cpu_user: r.user,
        cpu_history: d.cpu_history,
        mem: mem_after(o.mem, r.mem),
        mem_history: d.mem_history,
        net_rx: n.rx_bps,
        net_tx: n.tx_bps,
        net_total_rx: n.total_rx,
        net_total_tx: n.total_tx,
        net_ifaces: d.net_ifaces,
        net_history: d.net_history,
        gpu: d.gpu,
        cpu_freq: d.cpu_freq,
        disk_read: d.disk_read,
        disk_write: d.disk_write,
        disk_history: d.disk_history,
        gpu_history: d.gpu_history,
        disk_free: d.disk_free,
        disk_total: d.disk_total,
        battery: r.battery,
        ..o
    })
    &&& d.cpu_cores@ == metrics::loads_at(r.cores@, m.cpu_order@)
    &&& d.cpu_history@ == metrics::pushed(o.cpu_history@, r.total)
    &&& d.mem_history@ == metrics::pushed(o.mem_history@, d.mem.pct)
    &&& d.net_ifaces@ == n.ifaces@
    &&& d.net_history@ == metrics::pushed(
        o.net_history@,
        metrics::narrowed_pair(d.net_rx, d.net_tx),
    )
    &&& match r.counters {
        Some((gpu, clocks, read, write)) => {
            &&& d.gpu == gpu
            &&& d.cpu_freq@ == clocks_after(m.cpu_order@, clocks@)
            &&& d.disk_read == read
            &&& d.disk_write == write
        },
        None => {
            &&& d.gpu == o.gpu
            &&& d.cpu_freq == o.cpu_freq
            &&& d.disk_read == o.disk_read
            &&& d.disk_write == o.disk_write
        },
    }
    &&& d.disk_history@ == metrics::pushed(
        o.disk_history@,
        metrics::narrowed_pair(d.disk_read, d.disk_write),
    )
    &&& d.gpu_history@ == metrics::pushed(o.gpu_history@, or_zero(d.gpu))
    &&& match r.space {
        Some((free, total)) => d.disk_free == free && d.disk_total == total,
        None => d.disk_free == o.disk_free && d.disk_total == o.disk_total,
    }
}

/// The histories of `b` are those of `a`.
pub open spec fn same_histories(a: MetricsData, b: MetricsData) -> bool {
    &&& a.cpu_history@ == b.cpu_history@
    &&& a.mem_history@ == b.mem_history@
    &&& a.net_history@ == b.net_history@
    &&& a.disk_history@ == b.disk_history@
    &&& a.gpu_history@ == b.gpu_history@
}

/// One tick: the machine before it, what was read, and the values after it.
pub struct Tick {
    pub before: Metrics,
    pub reading: Reading,
    pub after: MetricsData,
}

/// Ticks that follow each other from the values `start` on; between two of them
/// anything but the histories may change.
pub open spec fn is_run(start: MetricsData, ticks: Seq<Tick>) -> bool {
    &&& forall|i: int|
        0 <= i < ticks.len() ==> ticked(
            (#[trigger] ticks[i]).before,
            ticks[i].reading,
            ticks[i].after,
        )
    &&& forall|i: int|
        0 <= i < ticks.len() ==> same_histories(
            if i == 0 {
                start
            } else {
                ticks[i - 1].after
            },
            (#[trigger] ticks[i]).before.data,
        )
}

pub open spec fn at_most_history(n: nat) -> nat {
    if n < metrics::HISTORY {
        n
    } else {
        metrics::HISTORY as nat
    }
}

/// Every history of `d` has `n` entries.
pub open spec fn histories_have(d: MetricsData, n: nat) -> bool {
    &&& d.cpu_history@.len() == n
    &&& d.mem_history@.len() == n
    &&& d.net_history@.len() == n
    &&& d.disk_history@.len() == n
    &&& d.gpu_history@.len() == n
}

/// After any number of ticks from the start on, every history has as many
/// entries, up to its bound, and ends in what the last tick showed.
pub proof fn law_histories_fill(
    h: Hardware,
    top_n: usize,
    disks_disabled: Seq<String>,
    start: MetricsData,
    ticks: Seq<Tick>,
)
    requires
        hardware_known(h, top_n, disks_disabled, start),
        is_run(start, ticks),
    ensures
        ticks.len() == 0 ==> histories_have(start, 0),
        ticks.len() > 0 ==> {
            let d = ticks.last().after;
            &&& histories_have(d, at_most_history(ticks.len()))
            &&& d.cpu_history@.last() == d.cpu_total
            &&& d.mem_history@.last() == d.mem.pct
            &&& d.net_history@.last() == metrics::narrowed_pair(d.net_rx, d.net_tx)
            &&& d.disk_history@.last() == metrics::narrowed_pair(d.disk_read, d.disk_write)
            &&& d.gpu_history@.last() == or_zero(d.gpu)
        },
    decreases ticks.len(),
{
    if ticks.len() > 0 {
        let n = ticks.len() - 1;
        let t = ticks[n];
        assert(ticked(t.before, t.reading, t.after));
        let rest = ticks.drop_last();
        assert forall|i: int| 0 <= i < rest.len() implies same_histories(
            if i == 0 {
                start
            } else {
                rest[i - 1].after
            },
            (#[trigger] rest[i]).before.data,
        ) by {
            assert(rest[i] == ticks[i]);
        }
        assert(is_run(start, rest)) by {
            assert forall|i: int| 0 <= i < rest.len() implies ticked(
                (#[trigger] rest[i]).before,
                rest[i].reading,
                rest[i].after,
            ) by {
                assert(rest[i] == ticks[i]);
            }
        }
        law_histories_fill(h, top_n, disks_disabled, start, rest);
        assert(same_histories(
            if n == 0 {
                start
            } else {
                ticks[n - 1].after
            },
            t.before.data,
        ));
    }
}

/// The position of the first disk with a number, or the number of disks.
pub open spec fn disk_at(disks: Seq<PhysicalDisk>, index: u32) -> int
    decreases disks.len(),
{
    if disks.len() == 0 || disks[0].index == index {
        0
    } else {
        1 + disk_at(disks.skip(1), index)
    }
}

proof fn lemma_disk_at(disks: Seq<PhysicalDisk>, index: u32, k: int)
    requires
        0 <= k <= disks.len(),
        forall|j: int| 0 <= j < k ==> (#[trigger] disks[j]).index != index,
        k < disks.len() ==> disks[k].index == index,
    ensures
        disk_at(disks, index) == k,
    decreases disks.len(),
{
    if k > 0 {
        assert(disks[0].index != index);
        assert forall|j: int| 0 <= j < k - 1 implies (#[trigger] disks.skip(1)[j]).index != index by {
            assert(disks.skip(1)[j] == disks[j + 1]);
        }
        lemma_disk_at(disks.skip(1), index, k - 1);
    }
}

/// The disks with the rates of `rows` entered.
pub open spec fn rated(disks: Seq<PhysicalDisk>, rows: Seq<(u32, Double, Double)>) -> Seq<PhysicalDisk>
    decreases rows.len(),
{
    if rows.len() == 0 {
        disks
    } else {
        let d = rated(disks, rows.drop_last());
        let (index, r, w) = rows.last();
        let k = disk_at(d, index);
        if k < d.len() {
            d.update(k, PhysicalDisk { read_bps: r, write_bps: w, ..d[k] })
        } else {
            d
        }
    }
}

/// The rates of `rows` that are of disks that count.
pub open spec fn counted(disks: Seq<PhysicalDisk>, rows: Seq<(u32, Double, Double)>) -> Seq<
    (Double, Double),
>
    decreases rows.len(),
{
    if rows.len() == 0 {
        Seq::empty()
    } else {
        let rest = counted(disks, rows.drop_last());
        let d = rated(disks, rows.drop_last());
        let (index, r, w) = rows.last();
        let k = disk_at(d, index);
        if k < d.len() && d[k].enabled {
            rest.push((r, w))
        } else {
            rest
        }
    }
}

/// Enters the rates of the disks by their numbers; returns those that count.
pub fn enter_rates(disks: &mut Vec<PhysicalDisk>, rows: &Vec<(u32, Double, Double)>) -> (r: Vec<
    (Double, Double),
>)
    ensures
        final(disks)@ == rated(old(disks)@, rows@),
        r@ == counted(old(disks)@, rows@),
{
    let ghost d0 = disks@;
    let mut r: Vec<(Double, Double)> = Vec::new();
    let mut i: usize = 0;
    assert(rows@.take(0) =~= Seq::<(u32, Double, Double)>::empty());
    while i < rows.len()
        invariant
            i <= rows.len(),
            disks@ == rated(d0, rows@.take(i as int)),
            r@ == counted(d0, rows@.take(i as int)),
        decreases rows.len() - i,
    {
        assert(rows@.take(i + 1).drop_last() =~= rows@.take(i as int));
        assert(rows@.take(i + 1).last() == rows@[i as int]);
        let (index, read, write) = rows[i];
        let mut k: usize = 0;
        while k < disks.len() && disks[k].index != index
            invariant
                k <= disks.len(),
                forall|j: int| 0 <= j < k ==> (#[trigger] disks@[j]).index != index,
            decreases disks.len() - k,
        {
            k += 1;
        }
        proof {
            lemma_disk_at(disks@, index, k as int);
        }
        let ghost before = disks@;
        if k < disks.len() {
            disks[k].read_bps = read;
            disks[k].write_bps = write;
            assert(disks@ =~= before.update(
                k as int,
                PhysicalDisk { read_bps: read, write_bps: write, ..before[k as int] },
            ));
            if disks[k].enabled {
                r.push((read, write));
            }
        }
        i += 1;
    }
    assert(rows@.take(rows@.len() as int) =~= rows@);
    r
}

/// Machine `b` is machine `a` with its cores put in order anew.
pub open spec fn regrouped(a: Metrics, group: bool, b: Metrics) -> bool {
    &&& metrics::is_core_order(
        a.packages@,
        a.classes@,
        a.cores@.len(),
        group,
        b.cpu_order@,
    )
    &&& b.data.cpu_classes@ == metrics::bytes_at(a.classes@, b.cpu_order@)
    &&& b.data.cpu_packages@ == metrics::bytes_at(a.packages@, b.cpu_order@)
    &&& b.data.cpu_cores@ == metrics::loads_at(a.cores@, b.cpu_order@)
    &&& ({
        let (from, to) = (a.cpu_order@, b.cpu_order@);
        let (s, t) = (a.data.cpu_freq@, b.data.cpu_freq@);
        if s.len() == from.len() && s.len() == to.len() {
            crate::order::is_moved(s, from, to, t)
        } else {
            t == s
        }
    })
    &&& b == (Metrics {
        cpu_order: b.cpu_order,
        data: MetricsData {
            cpu_classes: b.data.cpu_classes,
            cpu_packages: b.data.cpu_packages,
            cpu_cores: b.data.cpu_cores,
            cpu_freq: b.data.cpu_freq,
            ..a.data
        },
        ..a
    })
}

/// Machine `b` is machine `a` with its leading processes shown.
pub open spec fn processes_shown(a: Metrics, kernel: Option<(u64, u64, u64, u64)>, b: Metrics) -> bool {
    &&& b.data.top_cpu@ == a.procs.top_cpu@
    &&& b.data.top_mem@ == a.procs.top_mem@
    &&& b.data.top_io@ == a.procs.top_io@
    &&& match kernel {
        Some((paged, nonpaged, cache, page)) => {
            &&& b.data.mem_kernel_paged == paged * page
            &&& b.data.mem_kernel_nonpaged == nonpaged * page
            &&& b.data.mem_cache == cache * page
        },
        None => {
            &&& b.data.mem_kernel_paged == a.data.mem_kernel_paged
            &&& b.data.mem_kernel_nonpaged == a.data.mem_kernel_nonpaged
            &&& b.data.mem_cache == a.data.mem_cache
        },
    }
    &&& b == (Metrics {
        data: MetricsData {
            top_cpu: b.data.top_cpu,
            top_mem: b.data.top_mem,
            top_io: b.data.top_io,
            mem_processes: a.procs.mem_total,
            mem_kernel_paged: b.data.mem_kernel_paged,
            mem_kernel_nonpaged: b.data.mem_kernel_nonpaged,
            mem_cache: b.data.mem_cache,
            ..a.data
        },
        ..a
    })
}

/// Machine `b` is machine `a` with the popup's material shown.
pub open spec fn details_shown(
    a: Metrics,
    ips: Seq<(u64, String)>,
    ssids: Seq<(u128, String)>,
    vram: Option<(u64, u64)>,
    drives: Vec<Drive>,
    battery: Option<BatteryDetail>,
    rows: Option<Seq<(u32, Double, Double)>>,
    b: Metrics,
) -> bool {
    let d = b.data;
    let o = a.data;
    &&& d.net_iface@ == b.net.iface_name@
    &&& d.net_ip@ == b.net.iface_ip@
    &&& d.net_ifaces@ == b.net.ifaces@
    &&& d.vram_used == b.gpu_dev.vram_used
    &&& d.vram_budget == b.gpu_dev.vram_budget
    &&& d.drives == drives
    &&& d.battery_detail == battery
    &&& d.disks@ == (match rows {
        Some(v) => rated(o.disks@, v),
        None => o.disks@,
    })
    &&& d == (MetricsData {
        net_iface: d.net_iface,
        net_ip: d.net_ip,
        net_ifaces: d.net_ifaces,
        vram_used: d.vram_used,
        vram_budget: d.vram_budget,
        drives,
        battery_detail: battery,
        disks: d.disks,
        ..o
    })
    &&& b.gpu_dev == (match vram {
        Some((used, budget)) => Gpu { vram_used: used, vram_budget: budget, ..a.gpu_dev },
        None => a.gpu_dev,
    })
    &&& b.net.ifaces@.len() == a.net.ifaces@.len()
    &&& forall|i: int|
        0 <= i < a.net.ifaces@.len() ==> net::detailed(
            a.net.ifaces@[i],
            ips,
            ssids,
            #[trigger] b.net.ifaces@[i],
        )
    &&& match a.net.busiest {
        Some((luid, alias)) => {
            &&& b.net.iface_name@ == alias@
            &&& b.net.iface_ip@ == net::text_for(ips, luid)
        },
        None => {
            &&& b.net.iface_name@.len() == 0
            &&& b.net.iface_ip@.len() == 0
        },
    }
    &&& b == (Metrics { data: d, net: b.net, gpu_dev: b.gpu_dev, ..a })
}

impl Metrics {
    /// The display order lists every core once.
    pub open spec fn wf(self) -> bool {
        crate::order::is_permutation(self.cpu_order@)
    }

    /// The machine with its hardware known and no reading taken.
    pub fn new(
        h: Hardware,
        disk_letter: &str,
        top_n: usize,
        net_disabled: &Vec<String>,
        disks_disabled: &Vec<String>,
    ) -> (r: Metrics)
        ensures
            r.wf(),
            hardware_known(h, top_n, disks_disabled@, r.data),
            r.cores@ == Seq::new(h.cores as nat, |i: int| Single::zero()),
            r.classes@ == h.classes@,
            r.packages@ == h.packages@,
            r.cpu_order@ == Seq::new(h.cores as nat, |i: int| i as usize),
            r.disk_letter@ == disk_letter@,
            !r.want_per_disk,
            r.net.disabled@ == net_disabled@,
            r.net.ifaces@.len() == 0,
            r.net.prev.is_none(),
            r.procs.cores == at_least_one(h.cores),
            r.procs.top_n == at_least_one(top_n),
            r.gpu_dev == h.gpu,
    {
        let order: Vec<usize> = metrics::core_order(&h.packages, &h.classes, h.cores, false);
        let mut data: MetricsData = MetricsData::empty();
        let ghost blank = data;
        data.cpu_name = h.cpu_name.clone();
        data.cpu_classes = copy_bytes(&h.classes);
        data.cpu_packages = copy_bytes(&h.packages);
        data.cpu_sockets = cpu::sockets(&h.packages);
        data.gpu_name = h.gpu.name.clone();
        data.gpu_adapters = copy_adapters(&h.gpu.adapters);
        data.gpu_primary = match h.gpu.primary() {
            Some(a) => Some(a.copy()),
            None => None,
        };
        data.mem_summary = smbios::summary(h.modules.as_slice());
        data.mem_channels = smbios::channels(h.modules.as_slice());
        data.disks = disks::with_disabled(h.disks, disks_disabled);
        data.mem_modules = h.modules;
        data.vram_total = h.gpu.vram_total;
        data.top_n = if top_n > 0 {
            top_n
        } else {
            1
        };
        data.gpu_available = h.gpu_available;
        data.battery_available = h.battery_available;
        assert(metrics::is_empty(blank));
        Metrics {
            data,
            cores: zeros(h.cores),
            classes: h.classes,
            packages: h.packages,
            net: Net::new(net_disabled),
            gpu_dev: h.gpu,
            procs: Processes::new(h.cores, top_n),
            disk_letter: disk_letter.to_string(),
            cpu_order: order,
            want_per_disk: false,
        }
    }

    /// Sets the display order of the cores: as the hardware numbers them, or
    /// socket by socket with the faster cores first. The clocks move with their
    /// cores.
    pub fn set_group_pe(&mut self, group: bool)
        requires
            old(self).wf(),
        ensures
            final(self).wf(),
            regrouped(*old(self), group, *final(self)),
    {
        let order: Vec<usize> = metrics::core_order(
            &self.packages,
            &self.classes,
            self.cores.len(),
            group,
        );
        self.data.cpu_classes = metrics::pick_bytes(&self.classes, &order);
        self.data.cpu_packages = metrics::pick_bytes(&self.packages, &order);
        self.data.cpu_cores = metrics::pick_loads(&self.cores, &order);
        if self.data.cpu_freq.len() == order.len() && self.cpu_order.len() == order.len() {
            self.data.cpu_freq = crate::order::move_items(
                &self.data.cpu_freq,
                &self.cpu_order,
                &order,
            );
        }
        self.cpu_order = order;
    }

    /// Switches network interfaces by name.
    pub fn set_net_disabled(&mut self, disabled: &Vec<String>)
        ensures
            final(self).net.disabled@ == disabled@,
            final(self).net.ifaces@ == net::switched(old(self).net.ifaces@, disabled@),
            final(self).data.net_ifaces@ == final(self).net.ifaces@,
            *final(self) == (Metrics {
                net: final(self).net,
                data: MetricsData { net_ifaces: final(self).data.net_ifaces, ..old(self).data },
                ..*old(self)
            }),
    {
        self.net.set_disabled(disabled);
        self.data.net_ifaces = net::copy_ifaces(&self.net.ifaces);
    }

    /// Switches disks by model.
    pub fn set_disks_disabled(&mut self, disabled: &Vec<String>)
        ensures
            final(self).data.disks@ == disks::switched(old(self).data.disks@, disabled@),
            *final(self) == (Metrics {
                data: MetricsData { disks: final(self).data.disks, ..old(self).data },
                ..*old(self)
            }),
    {
        let mut list: Vec<PhysicalDisk> = Vec::new();
        std::mem::swap(&mut list, &mut self.data.disks);
        self.data.disks = disks::with_disabled(list, disabled);
    }

    /// Sets the number of rows in the process lists, at least one.
    pub fn set_top_n(&mut self, n: usize)
        ensures
            *final(self) == (Metrics {
                procs: Processes { top_n: at_least_one(n), ..old(self).procs },
                data: MetricsData { top_n: at_least_one(n), ..old(self).data },
                ..*old(self)
            }),
    {
        let m: usize = if n > 0 {
            n
        } else {
            1
        };
        self.procs.top_n = m;
        self.data.top_n = m;
    }

    /// Whether the disk totals are summed over the single disks: some disk is
    /// switched off, or the single rates are wanted anyway.
    pub fn sums_disks(&self) -> (r: bool)
        ensures
            r == (self.want_per_disk || exists|i: int|
                0 <= i < self.data.disks@.len() && !(#[trigger] self.data.disks@[i]).enabled),
    {
        if self.want_per_disk {
            return true;
        }
        let mut i: usize = 0;
        while i < self.data.disks.len()
            invariant
                i <= self.data.disks.len(),
                forall|j: int| 0 <= j < i ==> (#[trigger] self.data.disks@[j]).enabled,
            decreases self.data.disks.len() - i,
        {
            if !self.data.disks[i].enabled {
                return true;
            }
            i += 1;
        }
        false
    }

    /// Enters the rates of the single disks; returns those that count, for
    /// the totals.
    pub fn enter_disk_rates(&mut self, rows: &Vec<(u32, Double, Double)>) -> (r: Vec<
        (Double, Double),
    >)
        ensures
            final(self).data.disks@ == rated(old(self).data.disks@, rows@),
            r@ == counted(old(self).data.disks@, rows@),
            *final(self) == (Metrics {
                data: MetricsData { disks: final(self).data.disks, ..old(self).data },
                ..*old(self)
            }),
    {
        enter_rates(&mut self.data.disks, rows)
    }

    /// Takes one tick's readings. Every history gets one value more, as
    /// `law_histories_fill` states for any number of ticks.
    pub fn update(&mut self, r: Reading)
        ensures
            ticked(*old(self), r, final(self).data),
            *final(self) == (Metrics { data: final(self).data, cores: r.cores, ..*old(self) }),
    {
        self.data.cpu_cores = metrics::pick_loads(&r.cores, &self.cpu_order);
        self.data.cpu_total = r.total;
        self.data.cpu_system = r.system;
        self.data.cpu_user = r.user;
        metrics::push(&mut self.data.cpu_history, r.total);
        if let Some((total, avail, page_total, page_avail, pct)) = r.mem {
            self.data.mem.update(total, avail, page_total, page_avail, pct);
        }
        let pct: Single = self.data.mem.pct;
        metrics::push(&mut self.data.mem_history, pct);
        self.data.net_rx = self.net.rx_bps;
        self.data.net_tx = self.net.tx_bps;
        self.data.net_total_rx = self.net.total_rx;
        self.data.net_total_tx = self.net.total_tx;
        self.data.net_ifaces = net::copy_ifaces(&self.net.ifaces);
        metrics::push(
            &mut self.data.net_history,
            metrics::narrow_pair(self.data.net_rx, self.data.net_tx),
        );
        if let Some((gpu, clocks, read, write)) = &r.counters {
            self.data.gpu = *gpu;
            self.data.cpu_freq = if clocks.len() >= self.cpu_order.len() {
                metrics::pick_clocks(clocks, &self.cpu_order)
            } else {
                Vec::new()
            };
            self.data.disk_read = *read;
            self.data.disk_write = *write;
        }
        metrics::push(
            &mut self.data.disk_history,
            metrics::narrow_pair(self.data.disk_read, self.data.disk_write),
        );
        let load: Single = match self.data.gpu {
            Some(v) => v,
            None => Single::zero(),
        };
        metrics::push(&mut self.data.gpu_history, load);
        if let Some((free, total)) = r.space {
            self.data.disk_free = free;
            self.data.disk_total = total;
        }
        self.data.battery = r.battery;
        self.cores = r.cores;
    }

    /// Takes the leading processes and, where the system tells them, the
    /// kernel's paged and unpaged memory and the cache in pages, with the
    /// size of a page.
    pub fn update_processes(&mut self, kernel: Option<(u64, u64, u64, u64)>)
        requires
            kernel matches Some((paged, nonpaged, cache, page)) ==> {
                &&& paged * page <= u64::MAX
                &&& nonpaged * page <= u64::MAX
                &&& cache * page <= u64::MAX
            },
        ensures
            processes_shown(*old(self), kernel, *final(self)),
    {
        self.data.top_cpu = processes::copy_first(&self.procs.top_cpu, self.procs.top_cpu.len());
        self.data.top_mem = processes::copy_first(&self.procs.top_mem, self.procs.top_mem.len());
        self.data.top_io = processes::copy_first(&self.procs.top_io, self.procs.top_io.len());
        self.data.mem_processes = self.procs.mem_total;
        if let Some((paged, nonpaged, cache, page)) = kernel {
            self.data.mem_kernel_paged = paged * page;
            self.data.mem_kernel_nonpaged = nonpaged * page;
            self.data.mem_cache = cache * page;
        }
    }

    /// Takes the popup's material: addresses by interface number, Wi-Fi
    /// networks by interface id, the GPU's memory, the drives, the battery's
    /// capacities, and the rates of the single disks where there are counters.
    pub fn update_details(
        &mut self,
        ips: &Vec<(u64, String)>,
        ssids: &Vec<(u128, String)>,
        vram: Option<(u64, u64)>,
        drives: Vec<Drive>,
        battery: Option<BatteryDetail>,
        rows: Option<&Vec<(u32, Double, Double)>>,
    )
        ensures
            details_shown(
                *old(self),
                ips@,
                ssids@,
                vram,
                drives,
                battery,
                match rows {
                    Some(v) => Some(v@),
                    None => None,
                },
                *final(self),
            ),
    {
        self.net.update_details(ips, ssids);
        self.data.net_iface = self.net.iface_name.clone();
        self.data.net_ip = self.net.iface_ip.clone();
        self.data.net_ifaces = net::copy_ifaces(&self.net.ifaces);
        self.gpu_dev.update(vram);
        self.data.vram_used = self.gpu_dev.vram_used;
        self.data.vram_budget = self.gpu_dev.vram_budget;
        self.data.drives = drives;
        self.data.battery_detail = battery;
        if let Some(v) = rows {
            let _counted: Vec<(Double, Double)> = enter_rates(&mut self.data.disks, v);
        }
    }
}

/// A tick shows its reading: each value stands in its own place, what is used
/// and what is available make up the memory, and what is not told stays as it
/// was.
pub proof fn law_tick_shows_the_reading(m: Metrics, r: Reading, d: MetricsData, i: int)
    requires
        ticked(m, r, d),
    ensures
        d.cpu_total == r.total && d.cpu_system == r.system && d.cpu_user == r.user,
        d.cpu_cores@.len() == m.cpu_order@.len(),
        0 <= i < m.cpu_order@.len() && m.cpu_order@[i] < r.cores@.len() ==> d.cpu_cores@[i]
            == r.cores@[m.cpu_order@[i] as int],
        r.mem matches Some((total, avail, page_total, page_avail, pct)) ==> {
            &&& d.mem.total == total && d.mem.commit_total == page_total
            &&& avail <= total ==> d.mem.used + avail == total
            &&& page_avail <= page_total ==> d.mem.commit_used + page_avail == page_total
            &&& total > 0 ==> d.mem.pct == pct
        },
        r.mem.is_none() ==> d.mem == m.data.mem,
        d.net_rx == m.net.rx_bps && d.net_tx == m.net.tx_bps,
        d.net_total_rx == m.net.total_rx && d.net_total_tx == m.net.total_tx,
        r.counters matches Some((gpu, clocks, read, write)) ==> {
            &&& d.gpu == gpu && d.disk_read == read && d.disk_write == write
            &&& clocks@.len() >= m.cpu_order@.len() && 0 <= i < m.cpu_order@.len()
                && m.cpu_order@[i] < clocks@.len() ==> d.cpu_freq@[i]
                == clocks@[m.cpu_order@[i] as int]
            &&& clocks@.len() < m.cpu_order@.len() ==> d.cpu_freq@.len() == 0
        },
        r.counters.is_none() ==> d.gpu == m.data.gpu && d.disk_read == m.data.disk_read
            && d.disk_write == m.data.disk_write,
        r.space matches Some((free, total)) ==> d.disk_free == free && d.disk_total == total,
        r.space.is_none() ==> d.disk_free == m.data.disk_free && d.disk_total == m.data.disk_total,
        d.battery == r.battery,
        d.drives == m.data.drives && d.disks == m.data.disks && d.cpu_name == m.data.cpu_name,
{
}

/// However the cores are grouped, each displayed core has the load, the class,
/// the socket and the clock of the core that stands there.
pub proof fn law_grouping_keeps_cores_whole(a: Metrics, group: bool, b: Metrics, i: int, k: int)
    requires
        a.wf(),
        b.wf(),
        regrouped(a, group, b),
        a.classes@.len() == a.cores@.len(),
        a.packages@.len() == a.cores@.len(),
        a.cpu_order@.len() == a.cores@.len(),
        0 <= i < a.cores@.len(),
        0 <= k < a.cores@.len(),
        a.cpu_order@[k] == b.cpu_order@[i],
        b.cpu_order@.len() == a.cores@.len(),
    ensures
        b.data.cpu_cores@[i] == a.cores@[b.cpu_order@[i] as int],
        b.data.cpu_classes@[i] == a.classes@[b.cpu_order@[i] as int],
        b.data.cpu_packages@[i] == a.packages@[b.cpu_order@[i] as int],
        a.data.cpu_freq@.len() == a.cores@.len() ==> b.data.cpu_freq@[i] == a.data.cpu_freq@[k],
        !group ==> b.cpu_order@[i] == i,
        b.data.cpu_total == a.data.cpu_total && b.cores == a.cores,
{
    assert(a.cores.len() == a.cores@.len());
    assert(b.cpu_order@[i] < b.cpu_order@.len());
    if a.data.cpu_freq@.len() == a.cores@.len() {
        assert(crate::order::is_moved(
            a.data.cpu_freq@,
            a.cpu_order@,
            b.cpu_order@,
            b.data.cpu_freq@,
        ));
    }
}

proof fn lemma_disk_found(disks: Seq<PhysicalDisk>, index: u32)
    ensures
        0 <= disk_at(disks, index) <= disks.len(),
        disk_at(disks, index) < disks.len() ==> disks[disk_at(disks, index)].index == index,
    decreases disks.len(),
{
    if disks.len() > 0 && disks[0].index != index {
        lemma_disk_found(disks.skip(1), index);
    }
}

/// No two disks have a number in common.
pub open spec fn numbers_differ(disks: Seq<PhysicalDisk>) -> bool {
    forall|i: int, j: int|
        0 <= i < j < disks.len() ==> (#[trigger] disks[i]).index != (#[trigger] disks[j]).index
}

/// Row `j` is the last of a disk.
pub open spec fn last_row(rows: Seq<(u32, Double, Double)>, index: u32, j: int) -> bool {
    &&& 0 <= j < rows.len()
    &&& rows[j].0 == index
    &&& forall|q: int| j < q < rows.len() ==> (#[trigger] rows[q]).0 != index
}

/// Each disk gets the rates of the row with its number, what is read first, and
/// keeps its own where there is none; nothing else of it changes.
pub proof fn law_rates_go_by_number(
    disks: Seq<PhysicalDisk>,
    rows: Seq<(u32, Double, Double)>,
    i: int,
    j: int,
)
    requires
        numbers_differ(disks),
        0 <= i < disks.len(),
    ensures
        rated(disks, rows).len() == disks.len(),
        rated(disks, rows)[i].index == disks[i].index,
        rated(disks, rows)[i].model == disks[i].model,
        rated(disks, rows)[i].enabled == disks[i].enabled,
        rated(disks, rows)[i].size == disks[i].size,
        last_row(rows, disks[i].index, j) ==> rated(disks, rows)[i].read_bps == rows[j].1 && rated(
            disks,
            rows,
        )[i].write_bps == rows[j].2,
        (forall|q: int| 0 <= q < rows.len() ==> (#[trigger] rows[q]).0 != disks[i].index) ==> rated(
            disks,
            rows,
        )[i] == disks[i],
    decreases rows.len(),
{
    if rows.len() > 0 {
        let front = rows.drop_last();
        let d = rated(disks, front);
        let (index, r, w) = rows.last();
        let k = disk_at(d, index);
        law_rates_go_by_number(disks, front, i, j);
        lemma_disk_found(d, index);
        if index == disks[i].index {
            assert forall|q: int| 0 <= q < i implies (#[trigger] d[q]).index != index by {
                law_rates_go_by_number(disks, front, q, j);
                assert(disks[q].index != disks[i].index);
            }
            lemma_disk_at(d, index, i);
        } else {
            assert(k != i);
        }
        if last_row(rows, disks[i].index, j) && j < front.len() {
            assert(rows[rows.len() - 1].0 != disks[i].index);
            assert(front[j] == rows[j]);
            assert forall|q: int| j < q < front.len() implies (#[trigger] front[q]).0
                != disks[i].index by {
                assert(front[q] == rows[q]);
            }
        }
        if forall|q: int| 0 <= q < rows.len() ==> (#[trigger] rows[q]).0 != disks[i].index {
            assert(rows[rows.len() - 1].0 != disks[i].index);
            assert forall|q: int| 0 <= q < front.len() implies (#[trigger] front[q]).0
                != disks[i].index by {
                assert(front[q] == rows[q]);
            }
        }
    }
}

/// The rates that count in the totals are those of the rows whose disk is
/// switched on: with one row more, they get its rates where its disk is on, and
/// stay where it is off or not there.
pub proof fn law_rates_of_disks_that_are_on_count(
    disks: Seq<PhysicalDisk>,
    rows: Seq<(u32, Double, Double)>,
    row: (u32, Double, Double),
    i: int,
)
    requires
        numbers_differ(disks),
    ensures
        0 <= i < disks.len() && disks[i].index == row.0 && disks[i].enabled ==> counted(
            disks,
            rows.push(row),
        ) == counted(disks, rows).push((row.1, row.2)),
        0 <= i < disks.len() && disks[i].index == row.0 && !disks[i].enabled ==> counted(
            disks,
            rows.push(row),
        ) == counted(disks, rows),
        (forall|q: int| 0 <= q < disks.len() ==> (#[trigger] disks[q]).index != row.0) ==> counted(
            disks,
            rows.push(row),
        ) == counted(disks, rows),
        counted(disks, Seq::empty()).len() == 0,
{
    let all = rows.push(row);
    assert(all.drop_last() =~= rows);
    assert(all.last() == row);
    let d = rated(disks, rows);
    lemma_disk_found(d, row.0);
    lemma_rated_len(disks, rows);
    assert forall|q: int| 0 <= q < disks.len() implies (#[trigger] d[q]).index == disks[q].index
        && d[q].enabled == disks[q].enabled by {
        law_rates_go_by_number(disks, rows, q, 0);
    }
    if 0 <= i < disks.len() && disks[i].index == row.0 {
        assert forall|q: int| 0 <= q < i implies (#[trigger] d[q]).index != row.0 by {
            assert(disks[q].index != disks[i].index);
        }
        assert(d[i].index == row.0);
        lemma_disk_at(d, row.0, i);
    }
}

proof fn lemma_rated_len(disks: Seq<PhysicalDisk>, rows: Seq<(u32, Double, Double)>)
    ensures
        rated(disks, rows).len() == disks.len(),
    decreases rows.len(),
{
    if rows.len() > 0 {
        lemma_rated_len(disks, rows.drop_last());
        lemma_disk_found(rated(disks, rows.drop_last()), rows.last().0);
    }
}

/// The popup's lists are the leading processes, each list in its own place, and
/// the kernel's memory is counted in pages.
pub proof fn law_leading_processes_are_shown(
    a: Metrics,
    kernel: Option<(u64, u64, u64, u64)>,
    b: Metrics,
)
    requires
        processes_shown(a, kernel, b),
    ensures
        b.data.top_cpu@ == a.procs.top_cpu@,
        b.data.top_mem@ == a.procs.top_mem@,
        b.data.top_io@ == a.procs.top_io@,
        b.data.mem_processes == a.procs.mem_total,
        kernel matches Some((paged, nonpaged, cache, page)) ==> {
            &&& b.data.mem_kernel_paged == paged * page
            &&& b.data.mem_kernel_nonpaged == nonpaged * page
            &&& b.data.mem_cache == cache * page
            &&& page == 1 ==> b.data.mem_kernel_paged == paged && b.data.mem_cache == cache
        },
        b.data.mem == a.data.mem && b.procs == a.procs,
{
}

/// The popup's material is shown as it was read: the drives, the battery, the
/// graphics memory with what is used first, and the name and the address of the
/// interface that is the busiest.
pub proof fn law_details_are_as_read(
    a: Metrics,
    ips: Seq<(u64, String)>,
    ssids: Seq<(u128, String)>,
    vram: Option<(u64, u64)>,
    drives: Vec<Drive>,
    battery: Option<BatteryDetail>,
    rows: Option<Seq<(u32, Double, Double)>>,
    b: Metrics,
    i: int,
)
    requires
        details_shown(a, ips, ssids, vram, drives, battery, rows, b),
    ensures
        b.data.drives@ == drives@,
        b.data.battery_detail == battery,
        vram matches Some((used, budget)) ==> b.data.vram_used == used && b.data.vram_budget
            == budget,
        vram.is_none() ==> b.data.vram_used == a.gpu_dev.vram_used && b.data.vram_budget
            == a.gpu_dev.vram_budget,
        a.net.busiest matches Some((luid, alias)) ==> b.data.net_iface@ == alias@,
        a.net.busiest.is_none() ==> b.data.net_iface@.len() == 0 && b.data.net_ip@.len() == 0,
        b.data.net_ifaces@.len() == a.net.ifaces@.len(),
        0 <= i < a.net.ifaces@.len() ==> b.data.net_ifaces@[i].alias == a.net.ifaces@[i].alias
            && b.data.net_ifaces@[i].rx_bps == a.net.ifaces@[i].rx_bps
            && b.data.net_ifaces@[i].tx_bps == a.net.ifaces@[i].tx_bps,
        rows.is_none() ==> b.data.disks@ == a.data.disks@,
        b.data.mem == a.data.mem && b.data.cpu_total == a.data.cpu_total,
{
    if 0 <= i < a.net.ifaces@.len() {
        assert(net::detailed(a.net.ifaces@[i], ips, ssids, b.net.ifaces@[i]));
    }
}

/// The charts of the network and of the disks end with the rates that are shown,
/// what comes in before what goes out and what is read before what is written.
pub proof fn law_charts_end_with_the_rates(m: Metrics, r: Reading, d: MetricsData)
    requires
        ticked(m, r, d),
    ensures
        d.net_history@.len() > 0 && d.net_history@.last() == (
        d.net_rx.narrowed(),
        d.net_tx.narrowed(),
        ),
        r.counters.is_some() ==> d.disk_history@.len() > 0 && d.disk_history@.last() == (
        d.disk_read.narrowed(),
        d.disk_write.narrowed(),
        ),
{
}

} // verus!
