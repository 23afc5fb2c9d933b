//! What the agent tells: what the machine is, a snapshot per interval, and the
//! details on request. What the system says comes in as plain rows; rates and
//! shares are worked out where they are measured.

use crate::agent::names;
use crate::metrics::net::{self, ipv4_text};
use crate::metrics::processes;
use crate::number::{self, Double, Single};
use crate::order::{self, Descending, SortKey};
use crate::proto::{
    CpuSample, Details, DiskInfo, DiskSample, DriveSample, IfaceInfo, Info, MemSample, NetSample,
    ProcSample, Snapshot, TempSample, VERSION,
};
use crate::text;
use vstd::prelude::*;
use vstd::string::StringExecFns;

verus! {

/// A network interface as the system lists it.
pub struct RawIface {
    pub name: String,
    pub mac: String,
    /// IPv4 addresses with their prefix lengths.
    pub ips: Vec<(u32, u8)>,
    /// Bytes per second.
    pub rx: Double,
    pub tx: Double,
}

/// What a disk is made of.
#[derive(Clone, Copy, Debug, PartialEq, Eq, Structural)]
pub enum DiskKind {
    Ssd,
    Hdd,
    Unknown,
}

/// A mounted volume as the system lists it.
pub struct RawDisk {
    pub name: String,
    pub mount: String,
    pub fs: String,
    pub removable: bool,
    pub readonly: bool,
    pub kind: DiskKind,
    pub total: u64,
    pub free: u64,
    /// Bytes per second.
    pub read: Double,
    pub write: Double,
}

// ---------------------------------------------------------------------------
// What the machine is

pub const NO_MAC: &'static str = "00:00:00:00:00:00";

/// An interface that counts: hardware with an address of its own and an IPv4
/// address; not bridge members, unplugged ports, virtual leftovers.
pub open spec fn is_hardware(i: RawIface) -> bool {
    !names::is_virtual(i.name@) && i.mac@ != NO_MAC@ && i.ips@.len() > 0
}

pub open spec fn counts() -> spec_fn(RawIface) -> bool {
    |i: RawIface| is_hardware(i)
}

pub open spec fn tells_iface(i: RawIface, r: IfaceInfo) -> bool {
    r.id@ == i.name@ && r.kind@ == names::kind_text(i.name@) && r.mac@ == i.mac@
}

pub open spec fn iface_ids(v: Seq<IfaceInfo>) -> Seq<String> {
    v.map_values(|i: IfaceInfo| i.id)
}

/// `r` lists the interfaces that count, by name.
pub open spec fn lists_ifaces(v: Seq<RawIface>, r: Seq<IfaceInfo>) -> bool {
    exists|items: Seq<IfaceInfo>|
        {
            &&& items.len() == v.filter(counts()).len()
            &&& forall|i: int|
                0 <= i < items.len() ==> tells_iface(v.filter(counts())[i], #[trigger] items[i])
            &&& #[trigger] order::is_sorted_copy(items, iface_ids(items), r)
        }
}

fn list_ifaces(v: &Vec<RawIface>) -> (r: Vec<IfaceInfo>)
    ensures
        lists_ifaces(v@, r@),
{
    let mut items: Vec<IfaceInfo> = Vec::new();
    let mut keys: Vec<String> = Vec::new();
    let mut i: usize = 0;
    proof {
        reveal(Seq::filter);
        assert(v@.take(0) =~= Seq::<RawIface>::empty());
    }
    while i < v.len()
        invariant
            i <= v.len(),
            items@.len() == v@.take(i as int).filter(counts()).len(),
            keys@ == iface_ids(items@),
            forall|j: int|
                0 <= j < items@.len() ==> tells_iface(
                    v@.take(i as int).filter(counts())[j],
                    #[trigger] items@[j],
                ),
        decreases v.len() - i,
    {
        proof {
            order::lemma_filter_step(v@, counts(), i as int);
        }
        let x: &RawIface = &v[i];
        if !names::skip_iface(x.name.as_str()) && !text::same(x.mac.as_str(), NO_MAC)
            && x.ips.len() > 0 {
            keys.push(x.name.clone());
            items.push(
                IfaceInfo {
                    id: x.name.clone(),
                    kind: names::iface_kind(x.name.as_str()).to_string(),
                    mac: x.mac.clone(),
                },
            );
            assert(keys@ =~= iface_ids(items@));
        }
        i += 1;
    }
    assert(v@.take(v@.len() as int) =~= v@);
    let ghost g = items@;
    let r: Vec<IfaceInfo> = order::sort_by_keys(items, &keys);
    assert(order::is_sorted_copy(g, iface_ids(g), r@));
    r
}

/// How a disk is attached or made, as far as it is known.
pub open spec fn bus_text(d: RawDisk) -> Seq<char> {
    if d.removable {
        "USB"@
    } else {
        match d.kind {
            DiskKind::Ssd => "SSD"@,
            DiskKind::Hdd => "HDD"@,
            DiskKind::Unknown => ""@,
        }
    }
}

pub open spec fn disk_key(d: RawDisk) -> Seq<char> {
    names::device_text(d.name@, d.mount@)
}

/// A volume that is storage.
pub open spec fn is_storage(d: RawDisk) -> bool {
    !names::is_no_storage(d.fs@, disk_key(d), d.mount@)
}

/// The device, with the mount point where that is another text.
pub open spec fn model_text(d: RawDisk) -> Seq<char> {
    if disk_key(d) == d.mount@ {
        d.mount@
    } else {
        disk_key(d) + " ("@ + d.mount@ + ")"@
    }
}

pub struct DiskView {
    pub id: Seq<char>,
    pub model: Seq<char>,
    pub bus: Seq<char>,
    pub size: u64,
}

pub open spec fn disk_view(d: DiskInfo) -> DiskView {
    DiskView { id: d.id@, model: d.model@, bus: d.bus@, size: d.size }
}

pub open spec fn disk_views(v: Seq<DiskInfo>) -> Seq<DiskView> {
    v.map_values(|d: DiskInfo| disk_view(d))
}

pub open spec fn has_disk(v: Seq<DiskView>, id: Seq<char>) -> bool {
    exists|i: int| 0 <= i < v.len() && (#[trigger] v[i]).id == id
}

/// The storage devices among the first `n` volumes, each once.
pub open spec fn storage(v: Seq<RawDisk>, n: int) -> Seq<DiskView>
    decreases n,
{
    if n <= 0 {
        Seq::empty()
    } else {
        let d = v[n - 1];
        let r = storage(v, n - 1);
        if is_storage(d) && !has_disk(r, disk_key(d)) {
            r.push(
                DiskView { id: disk_key(d), model: model_text(d), bus: bus_text(d), size: d.total },
            )
        } else {
            r
        }
    }
}

fn knows_disk(v: &Vec<DiskInfo>, id: &str) -> (r: bool)
    ensures
        r == has_disk(disk_views(v@), id@),
{
    let ghost d = disk_views(v@);
    let mut i: usize = 0;
    while i < v.len()
        invariant
            d == disk_views(v@),
            i <= v.len(),
            forall|j: int| 0 <= j < i ==> (#[trigger] d[j]).id != id@,
        decreases v.len() - i,
    {
        assert(d[i as int] == disk_view(v@[i as int]));
        if text::same(v[i].id.as_str(), id) {
            return true;
        }
        i += 1;
    }
    false
}

fn list_disks(v: &Vec<RawDisk>) -> (r: Vec<DiskInfo>)
    ensures
        disk_views(r@) == storage(v@, v@.len() as int),
{
    let mut r: Vec<DiskInfo> = Vec::new();
    let mut i: usize = 0;
    assert(disk_views(r@) =~= storage(v@, 0));
    while i < v.len()
        invariant
            i <= v.len(),
            disk_views(r@) == storage(v@, i as int),
        decreases v.len() - i,
    {
        let d: &RawDisk = &v[i];
        let id: String = names::disk_id(d.name.as_str(), d.mount.as_str());
        if !names::skip_mount(d.fs.as_str(), id.as_str(), d.mount.as_str()) && !knows_disk(
            &r,
            id.as_str(),
        ) {
            let bus: &'static str = if d.removable {
                "USB"
            } else {
                match d.kind {
                    DiskKind::Ssd => "SSD",
                    DiskKind::Hdd => "HDD",
                    DiskKind::Unknown => "",
                }
            };
            let mut model: String = id.clone();
            if !text::same(id.as_str(), d.mount.as_str()) {
                model.append(" (");
                model.append(d.mount.as_str());
                model.append(")");
            }
            let ghost o = r@;
            let x: DiskInfo = DiskInfo { id, model, bus: bus.to_string(), size: d.total };
            r.push(x);
            assert(disk_views(r@) =~= disk_views(o).push(disk_view(x)));
        }
        i += 1;
    }
    r
}

/// What the system says of the machine.
pub struct Facts {
    pub id: String,
    /// The configured name.
    pub name: String,
    pub host: Option<String>,
    pub os: String,
    pub os_name: Option<String>,
    pub os_version: Option<String>,
    pub arch: String,
    /// The version of the agent.
    pub agent: String,
    /// The name of each core's processor.
    pub brands: Vec<String>,
    pub classes: Vec<u8>,
    pub clusters: Vec<u8>,
    pub sockets: usize,
    pub mem_total: u64,
    pub swap_total: u64,
    /// There are temperature sensors.
    pub sensors: bool,
}

pub open spec fn modules_of(sensors: bool) -> Seq<Seq<char>> {
    let base = seq!["cpu"@, "mem"@, "net"@, "disk"@];
    if sensors {
        base.push("temp"@)
    } else {
        base
    }
}

/// Process reads and writes at a moment.
#[derive(Clone, Copy)]
pub struct IoEntry {
    pub pid: u32,
    pub read: u64,
    pub written: u64,
    /// Nanoseconds of a clock that never goes back.
    pub at: u64,
}

pub struct Collector {
    pub info: Info,
    pub seq: u64,
    /// When the process table was read.
    pub procs_at: Option<u64>,
    pub prev_io: Vec<IoEntry>,
}

impl Facts {
    /// A class and a cluster are known of every core.
    pub open spec fn wf(self) -> bool {
        &&& self.classes@.len() == self.brands@.len()
        &&& self.clusters@.len() == self.brands@.len()
    }
}

/// `r` is the collector of a machine of which no sample was taken.
pub open spec fn is_new(
    f: Facts,
    ifaces: Seq<RawIface>,
    disks: Seq<RawDisk>,
    r: Collector,
) -> bool {
    &&& r.seq == 0
    &&& r.procs_at.is_none()
    &&& r.prev_io@.len() == 0
    &&& r.info.v == VERSION
    &&& r.info.id == f.id
    &&& r.info.name@ == names::machine_text(f.name@, names::opt(f.host))
    &&& r.info.os == f.os
    &&& r.info.os_version@ == names::system_text(names::opt(f.os_name), names::opt(f.os_version))
    &&& r.info.arch == f.arch
    &&& r.info.agent == f.agent
    &&& r.info.cpu_name@ == names::processor_text(text::views(f.brands@), f.brands@.len() as int)
    &&& r.info.cores == f.brands@.len()
    &&& r.info.classes == f.classes
    &&& r.info.clusters == f.clusters
    &&& r.info.classes@.len() == r.info.cores
    &&& r.info.clusters@.len() == r.info.cores
    &&& r.info.sockets == f.sockets
    &&& r.info.mem_total == f.mem_total
    &&& r.info.swap_total == f.swap_total
    &&& lists_ifaces(ifaces, r.info.ifaces@)
    &&& disk_views(r.info.disks@) == storage(disks, disks.len() as int)
    &&& text::views(r.info.has@) == modules_of(f.sensors)
}

impl Collector {
    pub fn new(f: Facts, ifaces: &Vec<RawIface>, disks: &Vec<RawDisk>) -> (r: Collector)
        requires
            f.wf(),
        ensures
            is_new(f, ifaces@, disks@, r),
    {
        let mut has: Vec<String> = Vec::new();
        has.push("cpu".to_string());
        has.push("mem".to_string());
        has.push("net".to_string());
        has.push("disk".to_string());
        if f.sensors {
            has.push("temp".to_string());
        }
        assert(text::views(has@) =~= modules_of(f.sensors));
        let info: Info = Info {
            v: VERSION,
            id: f.id,
            name: names::machine_name(f.name.as_str(), &f.host),
            os: f.os,
            os_version: names::os_version(&f.os_name, &f.os_version),
            arch: f.arch,
            agent: f.agent,
            cpu_name: names::cpu_name(&f.brands),
            cores: f.brands.len(),
            classes: f.classes,
            clusters: f.clusters,
            sockets: f.sockets,
            mem_total: f.mem_total,
            swap_total: f.swap_total,
            disks: list_disks(disks),
            ifaces: list_ifaces(ifaces),
            has,
        };
        Collector { info, seq: 0, procs_at: None, prev_io: Vec::new() }
    }
}

/// Two entries of the disk list are never of the same device.
pub proof fn law_disks_are_listed_once(v: Seq<RawDisk>, n: int, i: int, j: int)
    requires
        0 <= n <= v.len(),
        0 <= i < j < storage(v, n).len(),
    ensures
        storage(v, n)[i].id != storage(v, n)[j].id,
    decreases n,
{
    if n > 0 {
        let r = storage(v, n - 1);
        let s = storage(v, n);
        if j < r.len() {
            law_disks_are_listed_once(v, n - 1, i, j);
        } else {
            assert(r[i] == s[i]);
        }
    }
}

// ---------------------------------------------------------------------------
// Snapshots

/// An interface that the machine told of.
pub open spec fn is_told(ifaces: Seq<IfaceInfo>, name: Seq<char>) -> bool {
    exists|i: int| 0 <= i < ifaces.len() && (#[trigger] ifaces[i]).id@ == name
}

fn told(ifaces: &Vec<IfaceInfo>, name: &str) -> (r: bool)
    ensures
        r == is_told(ifaces@, name@),
{
    let mut i: usize = 0;
    while i < ifaces.len()
        invariant
            i <= ifaces.len(),
            forall|j: int| 0 <= j < i ==> (#[trigger] ifaces@[j]).id@ != name@,
        decreases ifaces.len() - i,
    {
        if text::same(ifaces[i].id.as_str(), name) {
            return true;
        }
        i += 1;
    }
    false
}

pub open spec fn told_in(ifaces: Seq<IfaceInfo>) -> spec_fn(RawIface) -> bool {
    |i: RawIface| is_told(ifaces, i.name@)
}

pub open spec fn samples_iface(i: RawIface, r: NetSample) -> bool {
    r.id@ == i.name@ && r.rx == i.rx && r.tx == i.tx && r.up
}

pub open spec fn sample_ids(v: Seq<NetSample>) -> Seq<String> {
    v.map_values(|i: NetSample| i.id)
}

/// `r` holds the rates of the interfaces that the machine told of, by name.
pub open spec fn samples_net(ifaces: Seq<IfaceInfo>, v: Seq<RawIface>, r: Seq<NetSample>) -> bool {
    exists|items: Seq<NetSample>|
        {
            &&& items.len() == v.filter(told_in(ifaces)).len()
            &&& forall|i: int|
                0 <= i < items.len() ==> samples_iface(
                    v.filter(told_in(ifaces))[i],
                    #[trigger] items[i],
                )
            &&& #[trigger] order::is_sorted_copy(items, sample_ids(items), r)
        }
}

fn net_samples(ifaces: &Vec<IfaceInfo>, v: &Vec<RawIface>) -> (r: Vec<NetSample>)
    ensures
        samples_net(ifaces@, v@, r@),
{
    let ghost keep = told_in(ifaces@);
    let mut items: Vec<NetSample> = Vec::new();
    let mut keys: Vec<String> = Vec::new();
    let mut i: usize = 0;
    proof {
        reveal(Seq::filter);
        assert(v@.take(0) =~= Seq::<RawIface>::empty());
    }
    while i < v.len()
        invariant
            keep == told_in(ifaces@),
            i <= v.len(),
            items@.len() == v@.take(i as int).filter(keep).len(),
            keys@ == sample_ids(items@),
            forall|j: int|
                0 <= j < items@.len() ==> samples_iface(
                    v@.take(i as int).filter(keep)[j],
                    #[trigger] items@[j],
                ),
        decreases v.len() - i,
    {
        proof {
            order::lemma_filter_step(v@, keep, i as int);
        }
        if told(ifaces, v[i].name.as_str()) {
            keys.push(v[i].name.clone());
            items.push(NetSample { id: v[i].name.clone(), rx: v[i].rx, tx: v[i].tx, up: true });
            assert(keys@ =~= sample_ids(items@));
        }
        i += 1;
    }
    assert(v@.take(v@.len() as int) =~= v@);
    let ghost g = items@;
    let r: Vec<NetSample> = order::sort_by_keys(items, &keys);
    assert(order::is_sorted_copy(g, sample_ids(g), r@));
    r
}

pub struct DiskRates {
    pub id: Seq<char>,
    pub r: Double,
    pub w: Double,
}

pub open spec fn rates_view(v: Seq<DiskSample>) -> Seq<DiskRates> {
    v.map_values(|d: DiskSample| DiskRates { id: d.id@, r: d.r, w: d.w })
}

pub open spec fn has_rates(v: Seq<DiskRates>, id: Seq<char>) -> bool {
    exists|i: int| 0 <= i < v.len() && (#[trigger] v[i]).id == id
}

/// The rates of the told disks among the first `n` volumes, each once.
pub open spec fn disk_rates(disks: Seq<DiskView>, v: Seq<RawDisk>, n: int) -> Seq<DiskRates>
    decreases n,
{
    if n <= 0 {
        Seq::empty()
    } else {
        let d = v[n - 1];
        let r = disk_rates(disks, v, n - 1);
        if has_disk(disks, disk_key(d)) && !has_rates(r, disk_key(d)) {
            r.push(DiskRates { id: disk_key(d), r: d.read, w: d.write })
        } else {
            r
        }
    }
}

fn knows_rates(v: &Vec<DiskSample>, id: &str) -> (r: bool)
    ensures
        r == has_rates(rates_view(v@), id@),
{
    let ghost d = rates_view(v@);
    let mut i: usize = 0;
    while i < v.len()
        invariant
            d == rates_view(v@),
            i <= v.len(),
            forall|j: int| 0 <= j < i ==> (#[trigger] d[j]).id != id@,
        decreases v.len() - i,
    {
        assert(d[i as int].id == v@[i as int].id@);
        if text::same(v[i].id.as_str(), id) {
            return true;
        }
        i += 1;
    }
    false
}

fn disk_samples(disks: &Vec<DiskInfo>, v: &Vec<RawDisk>) -> (r: Vec<DiskSample>)
    ensures
        rates_view(r@) == disk_rates(disk_views(disks@), v@, v@.len() as int),
{
    let ghost dv = disk_views(disks@);
    let mut r: Vec<DiskSample> = Vec::new();
    let mut i: usize = 0;
    assert(rates_view(r@) =~= disk_rates(dv, v@, 0));
    while i < v.len()
        invariant
            dv == disk_views(disks@),
            i <= v.len(),
            rates_view(r@) == disk_rates(dv, v@, i as int),
        decreases v.len() - i,
    {
        let d: &RawDisk = &v[i];
        let id: String = names::disk_id(d.name.as_str(), d.mount.as_str());
        if knows_disk(disks, id.as_str()) && !knows_rates(&r, id.as_str()) {
            let ghost o = r@;
            let ghost k = id@;
            r.push(DiskSample { id, r: d.read, w: d.write });
            assert(rates_view(r@) =~= rates_view(o).push(
                DiskRates { id: k, r: d.read, w: d.write },
            ));
        }
        i += 1;
    }
    r
}

/// A temperature that counts: finite and above zero.
pub open spec fn is_warm() -> spec_fn(TempSample) -> bool {
    |t: TempSample| 0 < t.c.bits < 0x7f80_0000
}

fn warm(v: Vec<TempSample>) -> (r: Vec<TempSample>)
    ensures
        r@ == v@.filter(is_warm()),
{
    let mut r: Vec<TempSample> = Vec::new();
    let mut i: usize = 0;
    proof {
        reveal(Seq::filter);
        assert(v@.take(0) =~= Seq::<TempSample>::empty());
        assert(r@ =~= v@.take(0).filter(is_warm()));
    }
    while i < v.len()
        invariant
            i <= v.len(),
            r@ == v@.take(i as int).filter(is_warm()),
        decreases v.len() - i,
    {
        proof {
            order::lemma_filter_step(v@, is_warm(), i as int);
        }
        if v[i].c.bits > 0 && v[i].c.bits < 0x7f80_0000 {
            r.push(TempSample { id: v[i].id.clone(), c: v[i].c });
        }
        i += 1;
    }
    assert(v@.take(v@.len() as int) =~= v@);
    r
}

/// A reading of the machine at a moment.
pub struct Reading {
    pub cpu: CpuSample,
    pub mem: MemSample,
    pub temps: Vec<TempSample>,
    /// Load averages over one and five minutes, which say whether the system
    /// has them.
    pub load_one: Double,
    pub load_five: Double,
    pub load: Vec<Single>,
}

/// `r` is the sample that collector `c` takes from a reading; `after` is the
/// collector then.
pub open spec fn is_sample(
    c: Collector,
    m: Reading,
    ifaces: Seq<RawIface>,
    disks: Seq<RawDisk>,
    after: Collector,
    r: Snapshot,
) -> bool {
    &&& after == (Collector { seq: (c.seq + 1) as u64, ..c })
    &&& r.seq == c.seq + 1
    &&& r.cpu == (CpuSample { cores: r.cpu.cores, ..m.cpu })
    &&& r.cpu.cores@ == number::clamped_all(m.cpu.cores@)
    &&& r.mem == m.mem
    &&& samples_net(c.info.ifaces@, ifaces, r.net@)
    &&& rates_view(r.disk@) == disk_rates(disk_views(c.info.disks@), disks, disks.len() as int)
    &&& r.gpu.is_none()
    &&& r.battery.is_none()
    &&& r.temp@ == m.temps@.filter(is_warm())
    &&& r.load@ == (if m.load_one.positive() || m.load_five.positive() {
        m.load@
    } else {
        Seq::empty()
    })
}

impl Collector {
    /// One sample; called once per interval. Loads are limited to the range from
    /// zero to one.
    pub fn sample(&mut self, m: Reading, ifaces: &Vec<RawIface>, disks: &Vec<RawDisk>) -> (r:
        Snapshot)
        requires
            old(self).seq < u64::MAX,
        ensures
            is_sample(*old(self), m, ifaces@, disks@, *final(self), r),
    {
        self.seq = self.seq + 1;
        let load: Vec<Single> = if m.load_one.is_positive() || m.load_five.is_positive() {
            m.load
        } else {
            Vec::new()
        };
        Snapshot {
            seq: self.seq,
            cpu: CpuSample {
                total: m.cpu.total,
                sys: m.cpu.sys,
                user: m.cpu.user,
                cores: number::clamp_all(&m.cpu.cores),
                freq: m.cpu.freq,
            },
            mem: m.mem,
            net: net_samples(&self.info.ifaces, ifaces),
            disk: disk_samples(&self.info.disks, disks),
            gpu: None,
            battery: None,
            temp: warm(m.temps),
            load,
        }
    }
}

/// Consecutive samples are numbered one by one, from one on where the collector
/// is new.
pub proof fn law_samples_are_numbered(
    c: Collector,
    m1: Reading,
    ifaces1: Seq<RawIface>,
    disks1: Seq<RawDisk>,
    between: Collector,
    s1: Snapshot,
    m2: Reading,
    ifaces2: Seq<RawIface>,
    disks2: Seq<RawDisk>,
    after: Collector,
    s2: Snapshot,
)
    requires
        is_sample(c, m1, ifaces1, disks1, between, s1),
        is_sample(between, m2, ifaces2, disks2, after, s2),
    ensures
        s2.seq == s1.seq + 1,
        c.seq == 0 ==> s1.seq == 1,
{
}

proof fn lemma_rates(disks: Seq<DiskView>, v: Seq<RawDisk>, n: int)
    requires
        n <= v.len(),
    ensures
        ({
            let r = disk_rates(disks, v, n);
            &&& forall|i: int| 0 <= i < r.len() ==> has_disk(disks, (#[trigger] r[i]).id)
            &&& forall|i: int, j: int|
                0 <= i < j < r.len() ==> (#[trigger] r[i]).id != (#[trigger] r[j]).id
        }),
    decreases n,
{
    if n > 0 {
        lemma_rates(disks, v, n - 1);
        let o = disk_rates(disks, v, n - 1);
        let r = disk_rates(disks, v, n);
        assert forall|i: int| 0 <= i < r.len() implies has_disk(disks, (#[trigger] r[i]).id) by {
            if i < o.len() {
                assert(r[i] == o[i]);
            }
        }
        assert forall|i: int, j: int| 0 <= i < j < r.len() implies (#[trigger] r[i]).id != (
        #[trigger] r[j]).id by {
            assert(r[i] == o[i]);
            if j < o.len() {
                assert(r[j] == o[j]);
            }
        }
    }
}

/// In every sample the interfaces stand by name and are ones that the machine
/// told of, every disk is one that it told of and is listed once, and every load
/// that is a number lies between zero and one.
pub proof fn law_samples_are_sane(
    c: Collector,
    m: Reading,
    ifaces: Seq<RawIface>,
    disks: Seq<RawDisk>,
    after: Collector,
    s: Snapshot,
)
    requires
        is_sample(c, m, ifaces, disks, after, s),
    ensures
        forall|i: int|
            0 <= i < s.net@.len() ==> is_told(c.info.ifaces@, (#[trigger] s.net@[i]).id@),
        forall|i: int, j: int|
            0 <= i < j < s.net@.len() ==> !text::before(
                (#[trigger] s.net@[j]).id@,
                (#[trigger] s.net@[i]).id@,
            ),
        forall|i: int|
            0 <= i < s.disk@.len() ==> has_disk(
                disk_views(c.info.disks@),
                (#[trigger] s.disk@[i]).id@,
            ),
        forall|i: int, j: int|
            0 <= i < j < s.disk@.len() ==> (#[trigger] s.disk@[i]).id@ != (#[trigger] s.disk@[j]).id@,
        s.cpu.cores@.len() == m.cpu.cores@.len(),
        forall|i: int|
            0 <= i < s.cpu.cores@.len() && !m.cpu.cores@[i].nan() ==> (
            #[trigger] s.cpu.cores@[i]).in_unit(),
{
    let told = told_in(c.info.ifaces@);
    let items = choose|items: Seq<NetSample>|
        {
            &&& items.len() == ifaces.filter(told).len()
            &&& forall|i: int|
                0 <= i < items.len() ==> samples_iface(ifaces.filter(told)[i], #[trigger] items[i])
            &&& #[trigger] order::is_sorted_copy(items, sample_ids(items), s.net@)
        };
    let keys = sample_ids(items);
    let p = choose|p: Seq<usize>| #[trigger]
        order::is_stable_order(keys, p) && s.net@ == order::arranged(items, p);
    assert forall|i: int| 0 <= i < s.net@.len() implies is_told(
        c.info.ifaces@,
        (#[trigger] s.net@[i]).id@,
    ) by {
        let k = p[i] as int;
        assert(s.net@[i] == items[k]);
        assert(samples_iface(ifaces.filter(told)[k], items[k]));
        ifaces.lemma_filter_pred(told, k);
    }
    assert forall|i: int, j: int| 0 <= i < j < s.net@.len() implies !text::before(
        (#[trigger] s.net@[j]).id@,
        (#[trigger] s.net@[i]).id@,
    ) by {
        assert(order::goes_first(keys, p[i] as int, p[j] as int));
        assert(keys[p[i] as int] == s.net@[i].id && keys[p[j] as int] == s.net@[j].id);
        text::lemma_before_total(s.net@[i].id@, s.net@[j].id@);
    }
    let rates = rates_view(s.disk@);
    lemma_rates(disk_views(c.info.disks@), disks, disks.len() as int);
    assert forall|i: int| 0 <= i < s.disk@.len() implies has_disk(
        disk_views(c.info.disks@),
        (#[trigger] s.disk@[i]).id@,
    ) by {
        assert(rates[i].id == s.disk@[i].id@);
    }
    assert forall|i: int, j: int| 0 <= i < j < s.disk@.len() implies (#[trigger] s.disk@[i]).id@
        != (#[trigger] s.disk@[j]).id@ by {
        assert(rates[i].id == s.disk@[i].id@ && rates[j].id == s.disk@[j].id@);
    }
}

// ---------------------------------------------------------------------------
// Details

/// A process as the system lists it; threads may be listed too.
pub struct RawProc {
    pub pid: u32,
    pub thread: bool,
    pub read: u64,
    pub written: u64,
}

/// The process table is read at most so often, in nanoseconds.
pub const FRESH_NS: u64 = 1_000_000_000;

pub open spec fn is_fresh(at: Option<u64>, now: u64) -> bool {
    match at {
        Some(t) => now - t < FRESH_NS,
        None => false,
    }
}

/// However often it is asked, the process table is read again only when a whole
/// second has gone by since it was read.
pub proof fn law_table_is_read_once_a_second(at: u64, now: u64)
    ensures
        is_fresh(Some(at), now) == (now - at < 1_000_000_000),
{
}

/// The first entry of a process.
pub open spec fn entry_of(v: Seq<IoEntry>, pid: u32, i: int) -> Option<IoEntry>
    decreases v.len() - i,
{
    if i < 0 || i >= v.len() {
        None
    } else if v[i].pid == pid {
        Some(v[i])
    } else {
        entry_of(v, pid, i + 1)
    }
}

pub open spec fn more(a: u64, b: u64) -> int {
    if a > b {
        a - b
    } else {
        0
    }
}

/// What a process read and wrote since its entry, and the nanoseconds since;
/// `None` for one that was not there.
pub open spec fn io_since(prev: Seq<IoEntry>, p: RawProc, now: u64) -> Option<(int, int)> {
    match entry_of(prev, p.pid, 0) {
        Some(e) => Some((more(p.read, e.read) + more(p.written, e.written), now - e.at)),
        None => None,
    }
}

/// Processes rather than threads.
pub open spec fn is_process() -> spec_fn(RawProc) -> bool {
    |p: RawProc| !p.thread
}

pub open spec fn entry(now: u64) -> spec_fn(RawProc) -> IoEntry {
    |p: RawProc| IoEntry { pid: p.pid, read: p.read, written: p.written, at: now }
}

fn find_entry(v: &Vec<IoEntry>, pid: u32) -> (r: Option<IoEntry>)
    ensures
        r == entry_of(v@, pid, 0),
{
    let mut i: usize = 0;
    while i < v.len()
        invariant
            i <= v.len(),
            entry_of(v@, pid, 0) == entry_of(v@, pid, i as int),
        decreases v.len() - i,
    {
        if v[i].pid == pid {
            return Some(v[i]);
        }
        i += 1;
    }
    None
}

/// What a process moved, and in how many nanoseconds.
#[derive(Clone, Copy)]
pub struct Moved {
    pub bytes: u128,
    pub nanos: u64,
}

/// A process and what it moved; nothing is known of one that is new.
#[derive(Clone, Copy)]
pub struct ProcIo {
    pub pid: u32,
    pub moved: Option<Moved>,
}

/// `x` says what process `p` moved since the entries of `prev`.
pub open spec fn is_moved(x: ProcIo, prev: Seq<IoEntry>, p: RawProc, now: u64) -> bool {
    &&& x.pid == p.pid
    &&& match (x.moved, io_since(prev, p, now)) {
        (Some(m), Some(s)) => m.bytes == s.0 && m.nanos == (if s.1 > 0 {
            s.1
        } else {
            0
        }),
        (None, None) => true,
        _ => false,
    }
}

/// The table of processes has led from one collector to the next; `r` is what
/// they moved.
pub open spec fn io_read(
    before: Collector,
    procs: Seq<RawProc>,
    now: u64,
    r: Seq<ProcIo>,
    after: Collector,
) -> bool {
    let p = procs.filter(is_process());
    &&& r.len() == p.len()
    &&& forall|i: int| 0 <= i < p.len() ==> is_moved(#[trigger] r[i], before.prev_io@, p[i], now)
    &&& after.prev_io@ == p.map_values(entry(now))
    &&& after == (Collector { prev_io: after.prev_io, ..before })
}

impl Collector {
    /// Whether the process table has to be read anew: at most once a second,
    /// however many masters ask. Notes the time where it has.
    pub fn must_refresh(&mut self, now: u64) -> (r: bool)
        ensures
            r == !is_fresh(old(self).procs_at, now),
            *final(self) == (Collector {
                procs_at: if r {
                    Some(now)
                } else {
                    old(self).procs_at
                },
                ..*old(self)
            }),
    {
        let fresh: bool = match self.procs_at {
            Some(t) => now < t || now - t < FRESH_NS,
            None => false,
        };
        if !fresh {
            self.procs_at = Some(now);
        }
        !fresh
    }

    /// What each process of the table (threads left out) read and wrote since
    /// the table was last looked at, which is noted for the next time.
    pub fn io_deltas(&mut self, procs: &Vec<RawProc>, now: u64) -> (r: Vec<ProcIo>)
        ensures
            io_read(*old(self), procs@, now, r@, *final(self)),
    {
        let ghost keep = is_process();
        let mut out: Vec<ProcIo> = Vec::new();
        let mut next: Vec<IoEntry> = Vec::new();
        let mut i: usize = 0;
        proof {
            reveal(Seq::filter);
            assert(procs@.take(0) =~= Seq::<RawProc>::empty());
            assert(next@ =~= procs@.take(0).filter(keep).map_values(entry(now)));
        }
        while i < procs.len()
            invariant
                keep == is_process(),
                i <= procs.len(),
                *self == *old(self),
                out@.len() == procs@.take(i as int).filter(keep).len(),
                next@ == procs@.take(i as int).filter(keep).map_values(entry(now)),
                forall|j: int|
                    0 <= j < out@.len() ==> is_moved(
                        #[trigger] out@[j],
                        old(self).prev_io@,
                        procs@.take(i as int).filter(keep)[j],
                        now,
                    ),
            decreases procs.len() - i,
        {
            proof {
                order::lemma_filter_step(procs@, keep, i as int);
            }
            let p: &RawProc = &procs[i];
            if !p.thread {
                let m: Option<Moved> = match find_entry(&self.prev_io, p.pid) {
                    Some(e) => {
                        let r: u64 = if p.read > e.read {
                            p.read - e.read
                        } else {
                            0
                        };
                        let w: u64 = if p.written > e.written {
                            p.written - e.written
                        } else {
                            0
                        };
                        let nanos: u64 = if now > e.at {
                            now - e.at
                        } else {
                            0
                        };
                        Some(Moved { bytes: r as u128 + w as u128, nanos })
                    },
                    None => None,
                };
                let e: IoEntry = IoEntry {
                    pid: p.pid,
                    read: p.read,
                    written: p.written,
                    at: now,
                };
                out.push(ProcIo { pid: p.pid, moved: m });
                next.push(e);
                assert(next@ =~= procs@.take(i as int + 1).filter(keep).map_values(entry(now)));
            }
            i += 1;
        }
        assert(procs@.take(procs@.len() as int) =~= procs@);
        self.prev_io = next;
        out
    }
}

/// As many rows as a master may ask for.
pub open spec fn limited_rows(n: usize) -> usize {
    if n < 1 {
        1
    } else if n > 50 {
        50
    } else {
        n
    }
}

pub fn copy_proc(p: &ProcSample) -> (r: ProcSample)
    ensures
        r == *p,
{
    ProcSample { pid: p.pid, name: p.name.clone(), cpu: p.cpu, mem: p.mem, io: p.io }
}

pub open spec fn cpu_keys(v: Seq<ProcSample>) -> Seq<Descending<Single>> {
    v.map_values(|p: ProcSample| Descending(p.cpu))
}

pub open spec fn mem_keys(v: Seq<ProcSample>) -> Seq<Descending<u64>> {
    v.map_values(|p: ProcSample| Descending(p.mem))
}

pub open spec fn io_keys(v: Seq<ProcSample>) -> Seq<Descending<Double>> {
    v.map_values(|p: ProcSample| Descending(p.io))
}

pub open spec fn moves() -> spec_fn(ProcSample) -> bool {
    |p: ProcSample| p.io.positive()
}

/// `r` holds the first `n` rows in the order of the keys.
pub open spec fn is_top<K: SortKey>(
    rows: Seq<ProcSample>,
    keys: Seq<K>,
    n: int,
    r: Seq<ProcSample>,
) -> bool {
    exists|s: Seq<ProcSample>| #[trigger]
        order::is_sorted_copy(rows, keys, s) && r == processes::first(s, n)
}

/// The order in which the rows of a list stand.
proof fn lemma_top<K: SortKey>(
    rows: Seq<ProcSample>,
    keys: Seq<K>,
    n: int,
    r: Seq<ProcSample>,
) -> (p: Seq<usize>)
    requires
        n >= 0,
        keys.len() == rows.len() <= usize::MAX,
        is_top(rows, keys, n, r),
    ensures
        order::is_permutation(p),
        p.len() == rows.len(),
        r.len() == (if n < rows.len() {
            n
        } else {
            rows.len() as int
        }),
        forall|i: int| 0 <= i < r.len() ==> #[trigger] r[i] == rows[p[i] as int],
        forall|i: int, j: int|
            0 <= i < j < rows.len() ==> keys[#[trigger] p[i] as int].le(
                keys[#[trigger] p[j] as int],
            ),
{
    let s = choose|s: Seq<ProcSample>| #[trigger]
        order::is_sorted_copy(rows, keys, s) && r == processes::first(s, n);
    let p = choose|p: Seq<usize>| #[trigger]
        order::is_stable_order(keys, p) && s == order::arranged(rows, p);
    assert forall|i: int, j: int| 0 <= i < j < rows.len() implies keys[#[trigger] p[i] as int].le(
        keys[#[trigger] p[j] as int],
    ) by {
        assert(order::goes_first(keys, p[i] as int, p[j] as int));
    }
    p
}

/// The list `r` leads with what `of` measures: no row is below one behind it,
/// and the first is not below any row of the table.
pub open spec fn leads(
    rows: Seq<ProcSample>,
    r: Seq<ProcSample>,
    of: spec_fn(ProcSample) -> int,
) -> bool {
    &&& forall|i: int, j: int|
        0 <= i < j < r.len() ==> of(#[trigger] r[j]) <= of(#[trigger] r[i])
    &&& forall|k: int| 0 <= k < rows.len() && r.len() > 0 ==> of(#[trigger] rows[k]) <= of(r[0])
}

/// Every list has as many rows as are asked for, as far as there are any, and
/// leads with the busiest: by CPU, by memory, and by I/O, the last only with
/// processes that have any.
pub proof fn law_lists_lead_with_the_busiest(
    rows: Seq<ProcSample>,
    n: int,
    cpu: Seq<ProcSample>,
    mem: Seq<ProcSample>,
    io: Seq<ProcSample>,
)
    requires
        n >= 0,
        rows.len() <= usize::MAX,
        is_top(rows, cpu_keys(rows), n, cpu),
        is_top(rows, mem_keys(rows), n, mem),
        is_top(rows.filter(moves()), io_keys(rows.filter(moves())), n, io),
    ensures
        cpu.len() == mem.len() == (if n < rows.len() {
            n
        } else {
            rows.len() as int
        }),
        io.len() <= n,
        leads(rows, cpu, |p: ProcSample| p.cpu.rank()),
        leads(rows, mem, |p: ProcSample| p.mem as int),
        leads(rows.filter(moves()), io, |p: ProcSample| p.io.rank()),
        forall|i: int| 0 <= i < io.len() ==> (#[trigger] io[i]).io.positive(),
{
    let moving = rows.filter(moves());
    rows.lemma_filter_len(moves());
    let p = lemma_top(rows, cpu_keys(rows), n, cpu);
    let q = lemma_top(rows, mem_keys(rows), n, mem);
    let o = lemma_top(moving, io_keys(moving), n, io);
    assert forall|k: int| 0 <= k < rows.len() && cpu.len() > 0 implies (#[trigger] rows[k]).cpu.rank()
        <= cpu[0].cpu.rank() by {
        order::lemma_permutation_covers(p, k);
        let w = choose|w: int| 0 <= w < p.len() && p[w] == k;
        assert(cpu[0] == rows[p[0] as int]);
        if w > 0 {
            assert(cpu_keys(rows)[p[0] as int].le(cpu_keys(rows)[p[w] as int]));
        }
    }
    assert forall|i: int, j: int| 0 <= i < j < cpu.len() implies (#[trigger] cpu[j]).cpu.rank() <= (
    #[trigger] cpu[i]).cpu.rank() by {
        assert(cpu_keys(rows)[p[i] as int].le(cpu_keys(rows)[p[j] as int]));
    }
    assert forall|k: int| 0 <= k < rows.len() && mem.len() > 0 implies (#[trigger] rows[k]).mem
        <= mem[0].mem by {
        order::lemma_permutation_covers(q, k);
        let w = choose|w: int| 0 <= w < q.len() && q[w] == k;
        assert(mem[0] == rows[q[0] as int]);
        if w > 0 {
            assert(mem_keys(rows)[q[0] as int].le(mem_keys(rows)[q[w] as int]));
        }
    }
    assert forall|i: int, j: int| 0 <= i < j < mem.len() implies (#[trigger] mem[j]).mem <= (
    #[trigger] mem[i]).mem by {
        assert(mem_keys(rows)[q[i] as int].le(mem_keys(rows)[q[j] as int]));
    }
    assert forall|k: int| 0 <= k < moving.len() && io.len() > 0 implies (
    #[trigger] moving[k]).io.rank() <= io[0].io.rank() by {
        order::lemma_permutation_covers(o, k);
        let w = choose|w: int| 0 <= w < o.len() && o[w] == k;
        assert(io[0] == moving[o[0] as int]);
        if w > 0 {
            assert(io_keys(moving)[o[0] as int].le(io_keys(moving)[o[w] as int]));
        }
    }
    assert forall|i: int, j: int| 0 <= i < j < io.len() implies (#[trigger] io[j]).io.rank() <= (
    #[trigger] io[i]).io.rank() by {
        assert(io_keys(moving)[o[i] as int].le(io_keys(moving)[o[j] as int]));
    }
    assert forall|i: int| 0 <= i < io.len() implies (#[trigger] io[i]).io.positive() by {
        rows.lemma_filter_pred(moves(), o[i] as int);
    }
}

fn first_rows(v: Vec<ProcSample>, n: usize) -> (r: Vec<ProcSample>)
    ensures
        r@ == processes::first(v@, n as int),
{
    let mut v: Vec<ProcSample> = v;
    if n < v.len() {
        v.truncate(n);
    }
    v
}

fn top_by_cpu(rows: &Vec<ProcSample>, n: usize) -> (r: Vec<ProcSample>)
    ensures
        is_top(rows@, cpu_keys(rows@), n as int, r@),
{
    let mut items: Vec<ProcSample> = Vec::new();
    let mut keys: Vec<Descending<Single>> = Vec::new();
    let mut i: usize = 0;
    while i < rows.len()
        invariant
            i <= rows.len(),
            items@ == rows@.take(i as int),
            keys@ == cpu_keys(items@),
        decreases rows.len() - i,
    {
        items.push(copy_proc(&rows[i]));
        keys.push(Descending(rows[i].cpu));
        i += 1;
        assert(items@ =~= rows@.take(i as int));
        assert(keys@ =~= cpu_keys(items@));
    }
    assert(items@ =~= rows@);
    let s: Vec<ProcSample> = order::sort_by_keys(items, &keys);
    assert(order::is_sorted_copy(rows@, cpu_keys(rows@), s@));
    first_rows(s, n)
}

fn top_by_mem(rows: &Vec<ProcSample>, n: usize) -> (r: Vec<ProcSample>)
    ensures
        is_top(rows@, mem_keys(rows@), n as int, r@),
{
    let mut items: Vec<ProcSample> = Vec::new();
    let mut keys: Vec<Descending<u64>> = Vec::new();
    let mut i: usize = 0;
    while i < rows.len()
        invariant
            i <= rows.len(),
            items@ == rows@.take(i as int),
            keys@ == mem_keys(items@),
        decreases rows.len() - i,
    {
        items.push(copy_proc(&rows[i]));
        keys.push(Descending(rows[i].mem));
        i += 1;
        assert(items@ =~= rows@.take(i as int));
        assert(keys@ =~= mem_keys(items@));
    }
    assert(items@ =~= rows@);
    let s: Vec<ProcSample> = order::sort_by_keys(items, &keys);
    assert(order::is_sorted_copy(rows@, mem_keys(rows@), s@));
    first_rows(s, n)
}

fn top_by_io(rows: &Vec<ProcSample>, n: usize) -> (r: Vec<ProcSample>)
    ensures
        is_top(rows@.filter(moves()), io_keys(rows@.filter(moves())), n as int, r@),
{
    let ghost keep = moves();
    let mut items: Vec<ProcSample> = Vec::new();
    let mut keys: Vec<Descending<Double>> = Vec::new();
    let mut i: usize = 0;
    proof {
        reveal(Seq::filter);
        assert(rows@.take(0) =~= Seq::<ProcSample>::empty());
        assert(items@ =~= rows@.take(0).filter(keep));
    }
    while i < rows.len()
        invariant
            keep == moves(),
            i <= rows.len(),
            items@ == rows@.take(i as int).filter(keep),
            keys@ == io_keys(items@),
        decreases rows.len() - i,
    {
        proof {
            order::lemma_filter_step(rows@, keep, i as int);
        }
        if rows[i].io.is_positive() {
            items.push(copy_proc(&rows[i]));
            keys.push(Descending(rows[i].io));
            assert(keys@ =~= io_keys(items@));
        }
        i += 1;
    }
    assert(rows@.take(rows@.len() as int) =~= rows@);
    let ghost g = items@;
    let s: Vec<ProcSample> = order::sort_by_keys(items, &keys);
    assert(order::is_sorted_copy(g, io_keys(g), s@));
    first_rows(s, n)
}

pub open spec fn storage_only() -> spec_fn(RawDisk) -> bool {
    |d: RawDisk| is_storage(d)
}

pub open spec fn samples_drive(d: RawDisk, r: DriveSample) -> bool {
    &&& r.id@ == d.mount@
    &&& r.label@ == disk_key(d)
    &&& r.fs@ == d.fs@
    &&& r.kind@ == (if d.removable {
        "USB"@
    } else {
        ""@
    })
    &&& r.readonly == d.readonly
    &&& r.total == d.total
    &&& r.free == d.free
}

fn drives(v: &Vec<RawDisk>) -> (r: Vec<DriveSample>)
    ensures
        r@.len() == v@.filter(storage_only()).len(),
        forall|i: int|
            0 <= i < r@.len() ==> samples_drive(v@.filter(storage_only())[i], #[trigger] r@[i]),
{
    let ghost keep = storage_only();
    let mut r: Vec<DriveSample> = Vec::new();
    let mut i: usize = 0;
    proof {
        reveal(Seq::filter);
        assert(v@.take(0) =~= Seq::<RawDisk>::empty());
    }
    while i < v.len()
        invariant
            keep == storage_only(),
            i <= v.len(),
            r@.len() == v@.take(i as int).filter(keep).len(),
            forall|j: int|
                0 <= j < r@.len() ==> samples_drive(
                    v@.take(i as int).filter(keep)[j],
                    #[trigger] r@[j],
                ),
        decreases v.len() - i,
    {
        proof {
            order::lemma_filter_step(v@, keep, i as int);
        }
        let d: &RawDisk = &v[i];
        let id: String = names::disk_id(d.name.as_str(), d.mount.as_str());
        if !names::skip_mount(d.fs.as_str(), id.as_str(), d.mount.as_str()) {
            let kind: &'static str = if d.removable {
                "USB"
            } else {
                ""
            };
            r.push(
                DriveSample {
                    id: d.mount.clone(),
                    label: id,
                    fs: d.fs.clone(),
                    kind: kind.to_string(),
                    readonly: d.readonly,
                    total: d.total,
                    free: d.free,
                },
            );
        }
        i += 1;
    }
    assert(v@.take(v@.len() as int) =~= v@);
    r
}

/// The text of an address.
pub open spec fn address(ip: u32) -> Seq<char> {
    net::dotted(
        (ip as int / 0x100_0000) as u8,
        (ip as int / 0x1_0000 % 256) as u8,
        (ip as int / 0x100 % 256) as u8,
        (ip as int % 256) as u8,
    )
}

fn address_text(ip: u32) -> (r: String)
    ensures
        r@ == address(ip),
{
    ipv4_text(
        (ip / 0x100_0000) as u8,
        (ip / 0x1_0000 % 256) as u8,
        (ip / 0x100 % 256) as u8,
        (ip % 256) as u8,
    )
}

/// The first address of each told interface that has one.
pub open spec fn told_ips(ifaces: Seq<IfaceInfo>, v: Seq<RawIface>, n: int) -> Seq<
    (Seq<char>, Seq<char>),
>
    decreases n,
{
    if n <= 0 {
        Seq::empty()
    } else {
        let i = v[n - 1];
        let r = told_ips(ifaces, v, n - 1);
        if is_told(ifaces, i.name@) && i.ips@.len() > 0 {
            r.push((i.name@, address(i.ips@[0].0)))
        } else {
            r
        }
    }
}

pub open spec fn pair_views(v: Seq<(String, String)>) -> Seq<(Seq<char>, Seq<char>)> {
    v.map_values(|p: (String, String)| (p.0@, p.1@))
}

fn ips(ifaces: &Vec<IfaceInfo>, v: &Vec<RawIface>) -> (r: Vec<(String, String)>)
    ensures
        pair_views(r@) == told_ips(ifaces@, v@, v@.len() as int),
{
    let mut r: Vec<(String, String)> = Vec::new();
    let mut i: usize = 0;
    assert(pair_views(r@) =~= told_ips(ifaces@, v@, 0));
    while i < v.len()
        invariant
            i <= v.len(),
            pair_views(r@) == told_ips(ifaces@, v@, i as int),
        decreases v.len() - i,
    {
        if told(ifaces, v[i].name.as_str()) && v[i].ips.len() > 0 {
            let ghost o = r@;
            let a: String = address_text(v[i].ips[0].0);
            r.push((v[i].name.clone(), a));
            assert(pair_views(r@) =~= pair_views(o).push((v@[i as int].name@, a@)));
        }
        i += 1;
    }
    r
}

/// The addresses, with their prefix lengths, of the told interfaces among the
/// first `n`.
pub open spec fn told_addresses(ifaces: Seq<IfaceInfo>, v: Seq<RawIface>, n: int) -> Seq<(u32, u8)>
    decreases n,
{
    if n <= 0 {
        Seq::empty()
    } else if is_told(ifaces, v[n - 1].name@) {
        told_addresses(ifaces, v, n - 1) + v[n - 1].ips@
    } else {
        told_addresses(ifaces, v, n - 1)
    }
}

/// `r` is the popup's material.
pub open spec fn are_details(
    c: Collector,
    n: usize,
    rows: Seq<ProcSample>,
    ifaces: Seq<RawIface>,
    disks: Seq<RawDisk>,
    r: Details,
) -> bool {
    &&& r.n == limited_rows(n)
    &&& is_top(rows, cpu_keys(rows), r.n as int, r.top_cpu@)
    &&& is_top(rows, mem_keys(rows), r.n as int, r.top_mem@)
    &&& is_top(rows.filter(moves()), io_keys(rows.filter(moves())), r.n as int, r.top_io@)
    &&& r.drives@.len() == disks.filter(storage_only()).len()
    &&& forall|i: int|
        0 <= i < r.drives@.len() ==> samples_drive(
            disks.filter(storage_only())[i],
            #[trigger] r.drives@[i],
        )
    &&& pair_views(r.ips@) == told_ips(c.info.ifaces@, ifaces, ifaces.len() as int)
    &&& r.ssids@.len() == 0
}

impl Collector {
    /// Popup material: top processes and mounted volumes.
    pub fn details(
        &self,
        n: usize,
        rows: &Vec<ProcSample>,
        ifaces: &Vec<RawIface>,
        disks: &Vec<RawDisk>,
    ) -> (r: Details)
        requires
            forall|i: int|
                0 <= i < rows@.len() ==> !(#[trigger] rows@[i]).cpu.nan() && !rows@[i].io.nan(),
        ensures
            are_details(*self, n, rows@, ifaces@, disks@, r),
    {
        let n: usize = if n < 1 {
            1
        } else if n > 50 {
            50
        } else {
            n
        };
        Details {
            n,
            top_cpu: top_by_cpu(rows, n),
            top_mem: top_by_mem(rows, n),
            top_io: top_by_io(rows, n),
            drives: drives(disks),
            ips: ips(&self.info.ifaces, ifaces),
            ssids: Vec::new(),
        }
    }

    /// Address and prefix length of every IPv4 address on the told interfaces,
    /// for the announcements on each of them.
    pub fn local_ipv4s(&self, ifaces: &Vec<RawIface>) -> (r: Vec<(u32, u8)>)
        ensures
            r@ == told_addresses(self.info.ifaces@, ifaces@, ifaces@.len() as int),
    {
        let mut r: Vec<(u32, u8)> = Vec::new();
        let mut i: usize = 0;
        while i < ifaces.len()
            invariant
                i <= ifaces.len(),
                r@ == told_addresses(self.info.ifaces@, ifaces@, i as int),
            decreases ifaces.len() - i,
        {
            if told(&self.info.ifaces, ifaces[i].name.as_str()) {
                let ghost o = r@;
                let mut j: usize = 0;
                assert(o + ifaces@[i as int].ips@.take(0) =~= o);
                while j < ifaces[i as usize].ips.len()
                    invariant
                        i < ifaces.len(),
                        j <= ifaces@[i as int].ips@.len(),
                        r@ == o + ifaces@[i as int].ips@.take(j as int),
                    decreases ifaces@[i as int].ips@.len() - j,
                {
                    r.push(ifaces[i].ips[j]);
                    j += 1;
                    assert(r@ =~= o + ifaces@[i as int].ips@.take(j as int));
                }
                assert(ifaces@[i as int].ips@.take(j as int) =~= ifaces@[i as int].ips@);
            }
            i += 1;
        }
        r
    }
}

// ---------------------------------------------------------------------------
// What holds of what is told

/// `p` is the process with its number in a table, and no thread.
pub open spec fn is_only(procs: Seq<RawProc>, p: RawProc) -> bool {
    &&& procs.contains(p)
    &&& !p.thread
    &&& forall|i: int| 0 <= i < procs.len() && (#[trigger] procs[i]).pid == p.pid ==> procs[i] == p
}

proof fn lemma_entry_of(v: Seq<IoEntry>, pid: u32, i: int)
    requires
        0 <= i <= v.len(),
    ensures
        match entry_of(v, pid, i) {
            Some(e) => exists|k: int| i <= k < v.len() && #[trigger] v[k] == e && e.pid == pid,
            None => forall|k: int| i <= k < v.len() ==> (#[trigger] v[k]).pid != pid,
        },
    decreases v.len() - i,
{
    if i < v.len() && v[i].pid != pid {
        lemma_entry_of(v, pid, i + 1);
    }
}

proof fn lemma_entry_is_own(procs: Seq<RawProc>, p: RawProc, at: u64)
    requires
        is_only(procs, p),
    ensures
        entry_of(procs.filter(is_process()).map_values(entry(at)), p.pid, 0) == Some(
            IoEntry { pid: p.pid, read: p.read, written: p.written, at },
        ),
{
    let f = procs.filter(is_process());
    let v = f.map_values(entry(at));
    lemma_entry_of(v, p.pid, 0);
    let w = choose|w: int| 0 <= w < procs.len() && procs[w] == p;
    procs.lemma_filter_contains(is_process(), w);
    let k = choose|k: int| 0 <= k < f.len() && f[k] == p;
    assert(v[k].pid == p.pid);
    let e = entry_of(v, p.pid, 0)->0;
    let m = choose|m: int| 0 <= m < v.len() && #[trigger] v[m] == e && e.pid == p.pid;
    assert(f.contains(f[m]));
    procs.lemma_filter_contains_rev(is_process(), f[m]);
    let x = choose|x: int| 0 <= x < procs.len() && procs[x] == f[m];
    assert(procs[x].pid == p.pid);
}

proof fn lemma_reports(before: Collector, procs: Seq<RawProc>, now: u64, r: Seq<ProcIo>, after: Collector, q: RawProc)
    requires
        io_read(before, procs, now, r, after),
        is_only(procs, q),
    ensures
        exists|k: int| 0 <= k < r.len() && (#[trigger] r[k]).pid == q.pid,
        forall|k: int|
            0 <= k < r.len() && (#[trigger] r[k]).pid == q.pid ==> is_moved(
                r[k],
                before.prev_io@,
                q,
                now,
            ),
{
    let f = procs.filter(is_process());
    let w = choose|w: int| 0 <= w < procs.len() && procs[w] == q;
    procs.lemma_filter_contains(is_process(), w);
    let k = choose|k: int| 0 <= k < f.len() && f[k] == q;
    assert(is_moved(r[k], before.prev_io@, f[k], now));
    assert forall|k: int| 0 <= k < r.len() && (#[trigger] r[k]).pid == q.pid implies is_moved(
        r[k],
        before.prev_io@,
        q,
        now,
    ) by {
        assert(is_moved(r[k], before.prev_io@, f[k], now));
        assert(f.contains(f[k]));
        procs.lemma_filter_contains_rev(is_process(), f[k]);
        let x = choose|x: int| 0 <= x < procs.len() && procs[x] == f[k];
        assert(procs[x].pid == q.pid);
    }
}

/// A process that two tables in a row list has moved the bytes that it read and
/// wrote between them, in the time between them; counters that did not go on give
/// nothing, and of a process that is new nothing is said.
pub proof fn law_moved_is_how_far_the_counters_went(
    c0: Collector,
    first_table: Seq<RawProc>,
    earlier: u64,
    first_report: Seq<ProcIo>,
    c1: Collector,
    second_table: Seq<RawProc>,
    now: u64,
    second_report: Seq<ProcIo>,
    c2: Collector,
    p: RawProc,
    q: RawProc,
)
    requires
        io_read(c0, first_table, earlier, first_report, c1),
        io_read(c1, second_table, now, second_report, c2),
        is_only(first_table, p),
        is_only(second_table, q),
        p.pid == q.pid,
        earlier <= now,
    ensures
        exists|k: int| 0 <= k < second_report.len() && (#[trigger] second_report[k]).pid == q.pid,
        forall|k: int|
            0 <= k < second_report.len() && (#[trigger] second_report[k]).pid == q.pid ==> {
                &&& second_report[k].moved matches Some(m)
                &&& earlier + m.nanos == now
                &&& p.read <= q.read && p.written <= q.written ==> p.read + p.written + m.bytes
                    == q.read + q.written
                &&& q.read <= p.read && q.written <= p.written ==> m.bytes == 0
                &&& q.read <= p.read && p.written <= q.written ==> p.written + m.bytes == q.written
                &&& p.read <= q.read && q.written <= p.written ==> p.read + m.bytes == q.read
            },
{
    lemma_entry_is_own(first_table, p, earlier);
    lemma_reports(c1, second_table, now, second_report, c2, q);
}

/// Of a process that the last table did not list nothing is said yet.
pub proof fn law_new_processes_have_moved_nothing_yet(
    c0: Collector,
    first_table: Seq<RawProc>,
    earlier: u64,
    first_report: Seq<ProcIo>,
    c1: Collector,
    second_table: Seq<RawProc>,
    now: u64,
    second_report: Seq<ProcIo>,
    c2: Collector,
    q: RawProc,
)
    requires
        io_read(c0, first_table, earlier, first_report, c1),
        io_read(c1, second_table, now, second_report, c2),
        is_only(second_table, q),
        forall|i: int| 0 <= i < first_table.len() ==> (#[trigger] first_table[i]).pid != q.pid,
    ensures
        exists|k: int| 0 <= k < second_report.len() && (#[trigger] second_report[k]).pid == q.pid,
        forall|k: int|
            0 <= k < second_report.len() && (#[trigger] second_report[k]).pid == q.pid ==> second_report[k].moved.is_none(),
        second_report.len() <= second_table.len(),
{
    let f = first_table.filter(is_process());
    let v = f.map_values(entry(earlier));
    assert forall|k: int| 0 <= k < v.len() implies (#[trigger] v[k]).pid != q.pid by {
        assert(f.contains(f[k]));
        first_table.lemma_filter_contains_rev(is_process(), f[k]);
        let x = choose|x: int| 0 <= x < first_table.len() && first_table[x] == f[k];
        assert(first_table[x].pid != q.pid);
    }
    lemma_entry_of(v, q.pid, 0);
    lemma_reports(c1, second_table, now, second_report, c2, q);
    second_table.lemma_filter_len(is_process());
}

proof fn lemma_same_items<T, K: SortKey>(items: Seq<T>, keys: Seq<K>, r: Seq<T>)
    requires
        order::is_sorted_copy(items, keys, r),
        keys.len() == items.len() <= usize::MAX,
    ensures
        r.len() == items.len(),
        forall|k: int| 0 <= k < r.len() ==> items.contains(#[trigger] r[k]),
        forall|i: int| 0 <= i < items.len() ==> r.contains(#[trigger] items[i]),
{
    let p = choose|p: Seq<usize>| #[trigger]
        order::is_stable_order(keys, p) && r == order::arranged(items, p);
    assert forall|k: int| 0 <= k < r.len() implies items.contains(#[trigger] r[k]) by {
        assert(p[k] < p.len());
        assert(r[k] == items[p[k] as int]);
    }
    assert forall|i: int| 0 <= i < items.len() implies r.contains(#[trigger] items[i]) by {
        order::lemma_permutation_covers(p, i);
        let w = choose|w: int| 0 <= w < p.len() && p[w] == i;
        assert(r[w] == items[i]);
    }
}

/// Each interface that the machine told of has one sample, under its name, with
/// what it receives and what it sends; and there is no other sample.
pub proof fn law_interfaces_are_sampled(
    c: Collector,
    m: Reading,
    ifaces: Seq<RawIface>,
    disks: Seq<RawDisk>,
    after: Collector,
    s: Snapshot,
    i: int,
)
    requires
        is_sample(c, m, ifaces, disks, after, s),
        ifaces.len() <= usize::MAX,
        0 <= i < ifaces.len(),
        is_told(c.info.ifaces@, ifaces[i].name@),
        forall|x: int, y: int|
            0 <= x < y < ifaces.len() ==> (#[trigger] ifaces[x]).name@ != (
            #[trigger] ifaces[y]).name@,
    ensures
        exists|k: int| 0 <= k < s.net@.len() && (#[trigger] s.net@[k]).id@ == ifaces[i].name@,
        forall|k: int|
            0 <= k < s.net@.len() && (#[trigger] s.net@[k]).id@ == ifaces[i].name@ ==> {
                &&& s.net@[k].rx == ifaces[i].rx
                &&& s.net@[k].tx == ifaces[i].tx
                &&& s.net@[k].up
            },
        s.net@.len() <= ifaces.len(),
{
    let told = told_in(c.info.ifaces@);
    let f = ifaces.filter(told);
    let items = choose|items: Seq<NetSample>|
        {
            &&& items.len() == f.len()
            &&& forall|j: int| 0 <= j < items.len() ==> samples_iface(f[j], #[trigger] items[j])
            &&& #[trigger] order::is_sorted_copy(items, sample_ids(items), s.net@)
        };
    ifaces.lemma_filter_len(told);
    lemma_same_items(items, sample_ids(items), s.net@);
    ifaces.lemma_filter_contains(told, i);
    let w = choose|w: int| 0 <= w < f.len() && f[w] == ifaces[i];
    assert(samples_iface(f[w], items[w]));
    assert(s.net@.contains(items[w]));
    let k0 = choose|k: int| 0 <= k < s.net@.len() && s.net@[k] == items[w];
    assert(s.net@[k0].id@ == ifaces[i].name@);
    assert forall|k: int|
        0 <= k < s.net@.len() && (#[trigger] s.net@[k]).id@ == ifaces[i].name@ implies {
        &&& s.net@[k].rx == ifaces[i].rx
        &&& s.net@[k].tx == ifaces[i].tx
        &&& s.net@[k].up
    } by {
        assert(items.contains(s.net@[k]));
        let v = choose|v: int| 0 <= v < items.len() && items[v] == s.net@[k];
        assert(samples_iface(f[v], items[v]));
        assert(f.contains(f[v]));
        ifaces.lemma_filter_contains_rev(told, f[v]);
        let x = choose|x: int| 0 <= x < ifaces.len() && ifaces[x] == f[v];
        if x < i {
            assert(ifaces[x].name@ != ifaces[i].name@);
        } else if i < x {
            assert(ifaces[i].name@ != ifaces[x].name@);
        }
    }
}

proof fn lemma_disk_rates(disks: Seq<DiskView>, v: Seq<RawDisk>, n: int, i: int)
    requires
        0 <= i < n <= v.len(),
        has_disk(disks, disk_key(v[i])),
        forall|x: int| 0 <= x < i ==> disk_key(#[trigger] v[x]) != disk_key(v[i]),
    ensures
        exists|k: int|
            0 <= k < disk_rates(disks, v, n).len() && #[trigger] disk_rates(disks, v, n)[k] == (
            DiskRates { id: disk_key(v[i]), r: v[i].read, w: v[i].write }),
    decreases n,
{
    let o = disk_rates(disks, v, n - 1);
    let r = disk_rates(disks, v, n);
    let want = DiskRates { id: disk_key(v[i]), r: v[i].read, w: v[i].write };
    if i < n - 1 {
        lemma_disk_rates(disks, v, n - 1, i);
        let k = choose|k: int| 0 <= k < o.len() && #[trigger] o[k] == want;
        assert(r[k] == want);
    } else {
        lemma_rates_are_of_volumes(disks, v, n - 1);
        assert(!has_rates(o, disk_key(v[i]))) by {
            if has_rates(o, disk_key(v[i])) {
                let k = choose|k: int| 0 <= k < o.len() && (#[trigger] o[k]).id == disk_key(v[i]);
                let x = choose|x: int| 0 <= x < n - 1 && disk_key(#[trigger] v[x]) == o[k].id;
                assert(disk_key(v[x]) != disk_key(v[i]));
            }
        }
        assert(r[r.len() - 1] == want);
    }
}

proof fn lemma_rates_are_of_volumes(disks: Seq<DiskView>, v: Seq<RawDisk>, n: int)
    requires
        n <= v.len(),
    ensures
        forall|k: int|
            0 <= k < disk_rates(disks, v, n).len() ==> exists|x: int|
                0 <= x < n && disk_key(#[trigger] v[x]) == (
                #[trigger] disk_rates(disks, v, n)[k]).id,
    decreases n,
{
    if n > 0 {
        lemma_rates_are_of_volumes(disks, v, n - 1);
        let (o, r) = (disk_rates(disks, v, n - 1), disk_rates(disks, v, n));
        assert forall|k: int| 0 <= k < r.len() implies exists|x: int|
            0 <= x < n && disk_key(#[trigger] v[x]) == (#[trigger] r[k]).id by {
            if k < o.len() {
                assert(r[k] == o[k]);
                let x = choose|x: int| 0 <= x < n - 1 && disk_key(#[trigger] v[x]) == o[k].id;
                assert(disk_key(v[x]) == r[k].id);
            } else {
                assert(disk_key(v[n - 1]) == r[k].id);
            }
        }
    }
}

/// A disk that the machine told of has a sample with what its first volume reads
/// and what it writes.
pub proof fn law_disks_are_sampled(
    c: Collector,
    m: Reading,
    ifaces: Seq<RawIface>,
    disks: Seq<RawDisk>,
    after: Collector,
    s: Snapshot,
    i: int,
)
    requires
        is_sample(c, m, ifaces, disks, after, s),
        0 <= i < disks.len(),
        has_disk(disk_views(c.info.disks@), disk_key(disks[i])),
        forall|x: int| 0 <= x < i ==> disk_key(#[trigger] disks[x]) != disk_key(disks[i]),
    ensures
        exists|k: int|
            0 <= k < s.disk@.len() && (#[trigger] s.disk@[k]).id@ == disk_key(disks[i])
                && s.disk@[k].r == disks[i].read && s.disk@[k].w == disks[i].write,
        s.mem == m.mem && s.cpu.total == m.cpu.total && s.cpu.sys == m.cpu.sys && s.cpu.user
            == m.cpu.user,
{
    let v = rates_view(s.disk@);
    lemma_disk_rates(disk_views(c.info.disks@), disks, disks.len() as int, i);
    let k = choose|k: int|
        0 <= k < v.len() && #[trigger] v[k] == (DiskRates {
            id: disk_key(disks[i]),
            r: disks[i].read,
            w: disks[i].write,
        });
    assert(v[k].id == s.disk@[k].id@);
}

/// Every volume that is storage is listed as a drive with its own mount point,
/// file system and space, in the order of the system's list, and no other volume
/// is; a master gets between one and fifty rows.
pub proof fn law_volumes_are_listed(
    c: Collector,
    n: usize,
    rows: Seq<ProcSample>,
    ifaces: Seq<RawIface>,
    disks: Seq<RawDisk>,
    r: Details,
    i: int,
)
    requires
        are_details(c, n, rows, ifaces, disks, r),
        0 <= i < disks.len(),
    ensures
        is_storage(disks[i]) ==> exists|k: int|
            0 <= k < r.drives@.len() && (#[trigger] r.drives@[k]).id@ == disks[i].mount@
                && r.drives@[k].fs@ == disks[i].fs@ && r.drives@[k].total == disks[i].total
                && r.drives@[k].free == disks[i].free && r.drives@[k].readonly == disks[i].readonly,
        (forall|x: int| 0 <= x < disks.len() ==> is_storage(#[trigger] disks[x])) ==> {
            &&& r.drives@.len() == disks.len()
            &&& r.drives@[i].id@ == disks[i].mount@
            &&& r.drives@[i].total == disks[i].total
            &&& r.drives@[i].free == disks[i].free
        },
        r.drives@.len() <= disks.len(),
        1 <= r.n <= 50,
        1 <= n <= 50 ==> r.n == n,
{
    let keep = storage_only();
    let f = disks.filter(keep);
    disks.lemma_filter_len(keep);
    if is_storage(disks[i]) {
        disks.lemma_filter_contains(keep, i);
        let k = choose|k: int| 0 <= k < f.len() && f[k] == disks[i];
        assert(samples_drive(f[k], r.drives@[k]));
    }
    if forall|x: int| 0 <= x < disks.len() ==> is_storage(#[trigger] disks[x]) {
        lemma_filter_all(disks, keep);
        assert(samples_drive(f[i], r.drives@[i]));
    }
}

proof fn lemma_filter_all<T>(s: Seq<T>, keep: spec_fn(T) -> bool)
    requires
        forall|x: int| 0 <= x < s.len() ==> keep(#[trigger] s[x]),
    ensures
        s.filter(keep) == s,
    decreases s.len(),
{
    reveal(Seq::filter);
    if s.len() > 0 {
        let t = s.drop_last();
        assert forall|x: int| 0 <= x < t.len() implies keep(#[trigger] t[x]) by {
            assert(t[x] == s[x]);
        }
        lemma_filter_all(t, keep);
        assert(s.last() == s[s.len() - 1]);
        assert(t.push(s.last()) =~= s);
    } else {
        assert(s.filter(keep) =~= s);
    }
}

/// An interface with this name and address is among those of the system, has an
/// IPv4 address and is not virtual.
pub open spec fn has_source(ifaces: Seq<RawIface>, t: IfaceInfo) -> bool {
    exists|x: int|
        0 <= x < ifaces.len() && (#[trigger] ifaces[x]).name@ == t.id@ && ifaces[x].mac@ == t.mac@
            && ifaces[x].ips@.len() > 0 && !names::is_virtual(ifaces[x].name@)
}

/// A new collector tells of the machine what the system says of it, and of every
/// interface that is hardware.
pub proof fn law_new_collector_tells_the_facts(
    f: Facts,
    ifaces: Seq<RawIface>,
    disks: Seq<RawDisk>,
    c: Collector,
    i: int,
)
    requires
        is_new(f, ifaces, disks, c),
        ifaces.len() <= usize::MAX,
        0 <= i < ifaces.len(),
    ensures
        c.seq == 0 && c.info.id@ == f.id@ && c.info.os@ == f.os@ && c.info.arch@ == f.arch@,
        c.info.cores == f.brands@.len(),
        c.info.classes@ == f.classes@ && c.info.clusters@ == f.clusters@,
        c.info.sockets == f.sockets,
        c.info.mem_total == f.mem_total && c.info.swap_total == f.swap_total,
        !names::is_virtual(ifaces[i].name@) && ifaces[i].mac@ != "00:00:00:00:00:00"@
            && ifaces[i].ips@.len() > 0 ==> is_told(c.info.ifaces@, ifaces[i].name@),
        forall|k: int|
            0 <= k < c.info.ifaces@.len() ==> has_source(ifaces, #[trigger] c.info.ifaces@[k]),
{
    let keep = counts();
    let v = ifaces.filter(keep);
    let r = c.info.ifaces@;
    let items = choose|items: Seq<IfaceInfo>|
        {
            &&& items.len() == v.len()
            &&& forall|j: int| 0 <= j < items.len() ==> tells_iface(v[j], #[trigger] items[j])
            &&& #[trigger] order::is_sorted_copy(items, iface_ids(items), r)
        };
    ifaces.lemma_filter_len(keep);
    lemma_same_items(items, iface_ids(items), r);
    if is_hardware(ifaces[i]) {
        ifaces.lemma_filter_contains(keep, i);
        let w = choose|w: int| 0 <= w < v.len() && v[w] == ifaces[i];
        assert(tells_iface(v[w], items[w]));
        assert(r.contains(items[w]));
        let k = choose|k: int| 0 <= k < r.len() && r[k] == items[w];
        assert(r[k].id@ == ifaces[i].name@);
    }
    assert forall|k: int| 0 <= k < r.len() implies has_source(ifaces, #[trigger] r[k]) by {
        assert(items.contains(r[k]));
        let w = choose|w: int| 0 <= w < items.len() && items[w] == r[k];
        assert(tells_iface(v[w], items[w]));
        ifaces.lemma_filter_pred(keep, w);
        assert(v.contains(v[w]));
        ifaces.lemma_filter_contains_rev(keep, v[w]);
        let x = choose|x: int| 0 <= x < ifaces.len() && ifaces[x] == v[w];
        assert(ifaces[x].name@ == r[k].id@);
    }
}

/// A sample tells what was read: the shares and the memory as they are, each core's
/// load limited to a share, and the temperatures above zero, all of them.
pub proof fn law_sample_is_the_reading(
    c: Collector,
    m: Reading,
    ifaces: Seq<RawIface>,
    disks: Seq<RawDisk>,
    after: Collector,
    s: Snapshot,
    i: int,
)
    requires
        is_sample(c, m, ifaces, disks, after, s),
    ensures
        s.cpu.total == m.cpu.total && s.cpu.sys == m.cpu.sys && s.cpu.user == m.cpu.user,
        s.cpu.freq == m.cpu.freq,
        0 <= i < m.cpu.cores@.len() ==> s.cpu.cores@.len() == m.cpu.cores@.len() && s.cpu.cores@[i]
            == m.cpu.cores@[i].clamped(),
        s.mem.used == m.mem.used && s.mem.avail == m.mem.avail && s.mem.swap_used
            == m.mem.swap_used,
        s.seq == c.seq + 1 && after.seq == s.seq && after.info == c.info,
        0 <= i < m.temps@.len() && 0 < m.temps@[i].c.bits < 0x7f80_0000 ==> s.temp@.contains(
            m.temps@[i],
        ),
        0 <= i < s.temp@.len() ==> m.temps@.contains(s.temp@[i]) && s.temp@[i].c.rank() > 0,
{
    if 0 <= i < m.temps@.len() && 0 < m.temps@[i].c.bits < 0x7f80_0000 {
        m.temps@.lemma_filter_contains(is_warm(), i);
    }
    if 0 <= i < s.temp@.len() {
        m.temps@.lemma_filter_pred(is_warm(), i);
        m.temps@.lemma_filter_contains_rev(is_warm(), s.temp@[i]);
    }
}

} // verus!
