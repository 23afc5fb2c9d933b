//! "Share this machine": the local values in the words of the wire, so that
//! others on the network see this machine without an agent of its own.

use crate::config::Config;
use crate::metrics::disks::PhysicalDisk;
use crate::metrics::drives::Drive;
use crate::metrics::net::NetIface;
use crate::metrics::processes::ProcInfo;
use crate::metrics::MetricsData;
use crate::number::Single;
use crate::proto::{
    BatterySample, Beacon, CpuSample, Details, DiskInfo, DiskSample, DriveSample, GpuSample,
    IfaceInfo, Info, MemSample, NetSample, ProcSample, Snapshot, VERSION,
};
use crate::remote::agent::{self, Agent};
use crate::text;
use crate::util;
use vstd::prelude::*;
use vstd::string::StringExecFns;

verus! {

/// What the program knows of the machine beside its values.
pub struct Machine<'a> {
    /// The computer's name.
    pub computer: Option<&'a str>,
    /// The build of Windows.
    pub build: u32,
    pub arch: &'a str,
    /// The version of this program.
    pub version: &'a str,
}

/// The name that is announced: the configured one, else the computer's.
pub open spec fn announced_name(cfg: Config, m: Machine) -> Seq<char> {
    if cfg.share_name@.len() > 0 {
        cfg.share_name@
    } else {
        match m.computer {
            Some(n) => n@,
            None => "windows"@,
        }
    }
}

pub fn host_name(cfg: &Config, m: &Machine) -> (r: String)
    ensures
        r@ == announced_name(*cfg, *m),
{
    if text::chars_of(cfg.share_name.as_str()).len() > 0 {
        return cfg.share_name.clone();
    }
    match m.computer {
        Some(n) => n.to_string(),
        None => "windows".to_string(),
    }
}

/// "Windows 11 (build 22631)"; without the number on older ones.
pub open spec fn windows_text(build: u32) -> Seq<char> {
    text::replaced(
        "Windows "@ + (if build >= 22000 {
            "11"@
        } else {
            ""@
        }) + " (build "@ + text::decimal(build as nat) + ")"@,
        "  "@,
        " "@,
    )
}

fn windows_version(build: u32) -> (r: String)
    ensures
        r@ == windows_text(build),
{
    let mut s: String = "Windows ".to_string();
    s.append(
        if util::is_windows11(build) {
            "11"
        } else {
            ""
        },
    );
    s.append(" (build ");
    s.append(text::number(build as u64).as_str());
    s.append(")");
    proof {
        reveal_strlit("  ");
    }
    text::replace(s.as_str(), "  ", " ")
}

/// The modules that are filled.
pub open spec fn modules_of(d: MetricsData) -> Seq<Seq<char>> {
    let base = seq!["cpu"@, "mem"@, "net"@, "disk"@];
    let with_gpu = if d.gpu_available {
        base.push("gpu"@)
    } else {
        base
    };
    if d.battery_available {
        with_gpu.push("battery"@)
    } else {
        with_gpu
    }
}

fn modules(d: &MetricsData) -> (r: Vec<String>)
    ensures
        text::views(r@) == modules_of(*d),
{
    let mut r: Vec<String> = Vec::new();
    r.push("cpu".to_string());
    r.push("mem".to_string());
    r.push("net".to_string());
    r.push("disk".to_string());
    if d.gpu_available {
        r.push("gpu".to_string());
    }
    if d.battery_available {
        r.push("battery".to_string());
    }
    assert(text::views(r@) =~= modules_of(*d));
    r
}

/// The id of a disk on the wire.
pub open spec fn disk_key(index: u32) -> Seq<char> {
    "PhysicalDrive"@ + text::decimal(index as nat)
}

fn disk_id(index: u32) -> (r: String)
    ensures
        r@ == disk_key(index),
{
    let mut s: String = "PhysicalDrive".to_string();
    s.append(text::number(index as u64).as_str());
    s
}

pub open spec fn tells_disk(x: PhysicalDisk, r: DiskInfo) -> bool {
    r.id@ == disk_key(x.index) && r.model@ == x.model@ && r.bus@ == x.bus@ && r.size == x.size
}

pub open spec fn tells_iface(i: NetIface, r: IfaceInfo) -> bool {
    r.id@ == i.alias@ && r.kind@ == i.kind@ && r.mac@.len() == 0
}

fn disk_infos(v: &Vec<PhysicalDisk>) -> (r: Vec<DiskInfo>)
    ensures
        r@.len() == v@.len(),
        forall|i: int| 0 <= i < v@.len() ==> tells_disk(v@[i], #[trigger] r@[i]),
{
    let mut r: Vec<DiskInfo> = Vec::new();
    let mut i: usize = 0;
    while i < v.len()
        invariant
            i <= v.len(),
            r@.len() == i,
            forall|j: int| 0 <= j < i ==> tells_disk(v@[j], #[trigger] r@[j]),
        decreases v.len() - i,
    {
        r.push(
            DiskInfo {
                id: disk_id(v[i].index),
                model: v[i].model.clone(),
                bus: v[i].bus.to_string(),
                size: v[i].size,
            },
        );
        i += 1;
    }
    r
}

fn iface_infos(v: &Vec<NetIface>) -> (r: Vec<IfaceInfo>)
    ensures
        r@.len() == v@.len(),
        forall|i: int| 0 <= i < v@.len() ==> tells_iface(v@[i], #[trigger] r@[i]),
{
    let mut r: Vec<IfaceInfo> = Vec::new();
    let mut i: usize = 0;
    while i < v.len()
        invariant
            i <= v.len(),
            r@.len() == i,
            forall|j: int| 0 <= j < i ==> tells_iface(v@[j], #[trigger] r@[j]),
        decreases v.len() - i,
    {
        r.push(
            IfaceInfo { id: v[i].alias.clone(), kind: v[i].kind.to_string(), mac: String::new() },
        );
        i += 1;
    }
    r
}

fn copy_bytes(v: &Vec<u8>) -> (r: Vec<u8>)
    ensures
        r@ == v@,
{
    let r: Vec<u8> = v.clone();
    assert(r@ =~= v@);
    r
}

fn copy_numbers(v: &Vec<u32>) -> (r: Vec<u32>)
    ensures
        r@ == v@,
{
    let r: Vec<u32> = v.clone();
    assert(r@ =~= v@);
    r
}

fn copy_shares(v: &Vec<Single>) -> (r: Vec<Single>)
    ensures
        r@ == v@,
{
    let mut r: Vec<Single> = Vec::new();
    let mut i: usize = 0;
    while i < v.len()
        invariant
            i <= v.len(),
            r@ == v@.take(i as int),
        decreases v.len() - i,
    {
        r.push(v[i]);
        i += 1;
    }
    r
}

pub open spec fn less(a: u64, b: u64) -> int {
    if a > b {
        a - b
    } else {
        0
    }
}

fn saturating(a: u64, b: u64) -> (r: u64)
    ensures
        r == less(a, b),
{
    if a > b {
        a - b
    } else {
        0
    }
}

/// `r` says what the machine is.
pub open spec fn is_info(cfg: Config, d: MetricsData, m: Machine, r: Info) -> bool {
    &&& r.v == VERSION
    &&& r.id@ == cfg.share_id@
    &&& r.name@ == announced_name(cfg, m)
    &&& r.os@ == "windows"@
    &&& r.os_version@ == windows_text(m.build)
    &&& r.arch@ == m.arch@
    &&& r.agent@ == "winstats "@ + m.version@
    &&& r.cpu_name@ == d.cpu_name@
    &&& r.cores == (if d.cpu_cores@.len() > d.cpu_classes@.len() {
        d.cpu_cores@.len()
    } else {
        d.cpu_classes@.len()
    })
    &&& r.classes@ == d.cpu_classes@
    &&& r.clusters@ == d.cpu_packages@
    &&& r.sockets == (if d.cpu_sockets > 1 {
        d.cpu_sockets
    } else {
        1
    })
    &&& r.mem_total == d.mem.total
    &&& r.swap_total == less(d.mem.commit_total, d.mem.total)
    &&& r.disks@.len() == d.disks@.len()
    &&& forall|i: int|
        0 <= i < d.disks@.len() ==> tells_disk(d.disks@[i], #[trigger] r.disks@[i])
    &&& r.ifaces@.len() == d.net_ifaces@.len()
    &&& forall|i: int|
        0 <= i < d.net_ifaces@.len() ==> tells_iface(d.net_ifaces@[i], #[trigger] r.ifaces@[i])
    &&& text::views(r.has@) == modules_of(d)
}

/// What the machine is, in the words of the wire.
pub fn info_from(cfg: &Config, d: &MetricsData, m: &Machine) -> (r: Info)
    ensures
        is_info(*cfg, *d, *m, r),
{
    let mut agent: String = "winstats ".to_string();
    agent.append(m.version);
    Info {
        v: VERSION,
        id: cfg.share_id.clone(),
        name: host_name(cfg, m),
        os: "windows".to_string(),
        os_version: windows_version(m.build),
        arch: m.arch.to_string(),
        agent,
        cpu_name: d.cpu_name.clone(),
        cores: if d.cpu_cores.len() > d.cpu_classes.len() {
            d.cpu_cores.len()
        } else {
            d.cpu_classes.len()
        },
        classes: copy_bytes(&d.cpu_classes),
        clusters: copy_bytes(&d.cpu_packages),
        sockets: if d.cpu_sockets > 1 {
            d.cpu_sockets
        } else {
            1
        },
        mem_total: d.mem.total,
        swap_total: saturating(d.mem.commit_total, d.mem.total),
        disks: disk_infos(&d.disks),
        ifaces: iface_infos(&d.net_ifaces),
        has: modules(d),
    }
}

pub open spec fn samples_iface(i: NetIface, r: NetSample) -> bool {
    r.id@ == i.alias@ && r.rx == i.rx_bps && r.tx == i.tx_bps && r.up == i.up
}

pub open spec fn samples_disk(x: PhysicalDisk, r: DiskSample) -> bool {
    r.id@ == disk_key(x.index) && r.r == x.read_bps && r.w == x.write_bps
}

fn net_samples(v: &Vec<NetIface>) -> (r: Vec<NetSample>)
    ensures
        r@.len() == v@.len(),
        forall|i: int| 0 <= i < v@.len() ==> samples_iface(v@[i], #[trigger] r@[i]),
{
    let mut r: Vec<NetSample> = Vec::new();
    let mut i: usize = 0;
    while i < v.len()
        invariant
            i <= v.len(),
            r@.len() == i,
            forall|j: int| 0 <= j < i ==> samples_iface(v@[j], #[trigger] r@[j]),
        decreases v.len() - i,
    {
        r.push(
            NetSample { id: v[i].alias.clone(), rx: v[i].rx_bps, tx: v[i].tx_bps, up: v[i].up },
        );
        i += 1;
    }
    r
}

fn disk_samples(v: &Vec<PhysicalDisk>) -> (r: Vec<DiskSample>)
    ensures
        r@.len() == v@.len(),
        forall|i: int| 0 <= i < v@.len() ==> samples_disk(v@[i], #[trigger] r@[i]),
{
    let mut r: Vec<DiskSample> = Vec::new();
    let mut i: usize = 0;
    while i < v.len()
        invariant
            i <= v.len(),
            r@.len() == i,
            forall|j: int| 0 <= j < i ==> samples_disk(v@[j], #[trigger] r@[j]),
        decreases v.len() - i,
    {
        r.push(DiskSample { id: disk_id(v[i].index), r: v[i].read_bps, w: v[i].write_bps });
        i += 1;
    }
    r
}

/// Snapshot `r` says of a moment what the values say.
pub open spec fn is_snapshot(d: MetricsData, seq: u64, r: Snapshot) -> bool {
    &&& r.seq == seq
    &&& r.cpu.total == d.cpu_total
    &&& r.cpu.sys == d.cpu_system
    &&& r.cpu.user == d.cpu_user
    &&& r.cpu.cores@ == d.cpu_cores@
    &&& r.cpu.freq@ == d.cpu_freq@
    &&& r.mem.used == d.mem.used
    &&& r.mem.avail == less(d.mem.total, d.mem.used)
    &&& r.mem.swap_used == less(d.mem.commit_used, d.mem.used)
    &&& r.net@.len() == d.net_ifaces@.len()
    &&& forall|i: int|
        0 <= i < d.net_ifaces@.len() ==> samples_iface(d.net_ifaces@[i], #[trigger] r.net@[i])
    &&& r.disk@.len() == d.disks@.len()
    &&& forall|i: int|
        0 <= i < d.disks@.len() ==> samples_disk(d.disks@[i], #[trigger] r.disk@[i])
    &&& r.gpu == (match d.gpu {
        Some(g) => Some(
            GpuSample {
                load: g,
                vram_used: d.vram_used,
                vram_total: if d.vram_budget > d.vram_total {
                    d.vram_budget
                } else {
                    d.vram_total
                },
            },
        ),
        None => None,
    })
    &&& r.battery == (match d.battery {
        Some(b) => Some(
            BatterySample {
                level: b.level,
                charging: b.charging,
                on_ac: b.on_ac,
                remaining_secs: b.remaining_secs,
            },
        ),
        None => None,
    })
    &&& r.temp@.len() == 0
    &&& r.load@.len() == 0
}

/// A moment of the machine, in the words of the wire.
pub fn snapshot_from(d: &MetricsData, seq: u64) -> (r: Snapshot)
    ensures
        is_snapshot(*d, seq, r),
{
    let gpu: Option<GpuSample> = match d.gpu {
        Some(g) => Some(
            GpuSample {
                load: g,
                vram_used: d.vram_used,
                vram_total: if d.vram_budget > d.vram_total {
                    d.vram_budget
                } else {
                    d.vram_total
                },
            },
        ),
        None => None,
    };
    let battery: Option<BatterySample> = match &d.battery {
        Some(b) => Some(
            BatterySample {
                level: b.level,
                charging: b.charging,
                on_ac: b.on_ac,
                remaining_secs: b.remaining_secs,
            },
        ),
        None => None,
    };
    Snapshot {
        seq,
        cpu: CpuSample {
            total: d.cpu_total,
            sys: d.cpu_system,
            user: d.cpu_user,
            cores: copy_shares(&d.cpu_cores),
            freq: copy_numbers(&d.cpu_freq),
        },
        mem: MemSample {
            used: d.mem.used,
            avail: saturating(d.mem.total, d.mem.used),
            swap_used: saturating(d.mem.commit_used, d.mem.used),
        },
        net: net_samples(&d.net_ifaces),
        disk: disk_samples(&d.disks),
        gpu,
        battery,
        temp: Vec::new(),
        load: Vec::new(),
    }
}

/// Used and available memory add up to the total, as long as no more is used
/// than there is.
pub proof fn law_memory_adds_up(d: MetricsData, seq: u64, r: Snapshot)
    requires
        is_snapshot(d, seq, r),
        d.mem.used <= d.mem.total,
    ensures
        r.mem.used + r.mem.avail == d.mem.total,
{
}

pub open spec fn samples_process(p: ProcInfo, r: ProcSample) -> bool {
    r.pid == p.pid && r.name@ == p.name@ && r.cpu == p.cpu && r.mem == p.mem && r.io == p.io
}

pub open spec fn samples_drive(v: Drive, r: DriveSample) -> bool {
    r.id@ == v.name@ && r.label@ == v.label@ && r.fs@ == v.fs@ && r.kind@ == v.kind@ && r.readonly
        == v.readonly && r.total == v.total && r.free == v.free
}

/// The addresses of the interfaces that have one.
pub open spec fn known_ips(v: Seq<NetIface>, n: int) -> Seq<(Seq<char>, Seq<char>)>
    decreases n,
{
    if n <= 0 {
        Seq::empty()
    } else if v[n - 1].ip@.len() > 0 {
        known_ips(v, n - 1).push((v[n - 1].alias@, v[n - 1].ip@))
    } else {
        known_ips(v, n - 1)
    }
}

/// The wireless networks of the interfaces that have joined one.
pub open spec fn known_ssids(v: Seq<NetIface>, n: int) -> Seq<(Seq<char>, Seq<char>)>
    decreases n,
{
    if n <= 0 {
        Seq::empty()
    } else if v[n - 1].ssid@.len() > 0 {
        known_ssids(v, n - 1).push((v[n - 1].alias@, v[n - 1].ssid@))
    } else {
        known_ssids(v, n - 1)
    }
}

pub open spec fn pair_views(v: Seq<(String, String)>) -> Seq<(Seq<char>, Seq<char>)> {
    v.map_values(|p: (String, String)| (p.0@, p.1@))
}

fn process_samples(v: &Vec<ProcInfo>) -> (r: Vec<ProcSample>)
    ensures
        r@.len() == v@.len(),
        forall|i: int| 0 <= i < v@.len() ==> samples_process(v@[i], #[trigger] r@[i]),
{
    let mut r: Vec<ProcSample> = Vec::new();
    let mut i: usize = 0;
    while i < v.len()
        invariant
            i <= v.len(),
            r@.len() == i,
            forall|j: int| 0 <= j < i ==> samples_process(v@[j], #[trigger] r@[j]),
        decreases v.len() - i,
    {
        r.push(
            ProcSample {
                pid: v[i].pid,
                name: v[i].name.clone(),
                cpu: v[i].cpu,
                mem: v[i].mem,
                io: v[i].io,
            },
        );
        i += 1;
    }
    r
}

fn drive_samples(v: &Vec<Drive>) -> (r: Vec<DriveSample>)
    ensures
        r@.len() == v@.len(),
        forall|i: int| 0 <= i < v@.len() ==> samples_drive(v@[i], #[trigger] r@[i]),
{
    let mut r: Vec<DriveSample> = Vec::new();
    let mut i: usize = 0;
    while i < v.len()
        invariant
            i <= v.len(),
            r@.len() == i,
            forall|j: int| 0 <= j < i ==> samples_drive(v@[j], #[trigger] r@[j]),
        decreases v.len() - i,
    {
        r.push(
            DriveSample {
                id: v[i].name.clone(),
                label: v[i].label.clone(),
                fs: v[i].fs.clone(),
                kind: v[i].kind.to_string(),
                readonly: v[i].readonly,
                total: v[i].total,
                free: v[i].free,
            },
        );
        i += 1;
    }
    r
}

fn iface_ips(v: &Vec<NetIface>) -> (r: Vec<(String, String)>)
    ensures
        pair_views(r@) == known_ips(v@, v@.len() as int),
{
    let mut r: Vec<(String, String)> = Vec::new();
    let mut i: usize = 0;
    assert(pair_views(r@) =~= known_ips(v@, 0));
    while i < v.len()
        invariant
            i <= v.len(),
            pair_views(r@) == known_ips(v@, i as int),
        decreases v.len() - i,
    {
        if text::chars_of(v[i].ip.as_str()).len() > 0 {
            let ghost o = r@;
            r.push((v[i].alias.clone(), v[i].ip.clone()));
            assert(pair_views(r@) =~= pair_views(o).push((v@[i as int].alias@, v@[i as int].ip@)));
        }
        i += 1;
    }
    r
}

fn iface_ssids(v: &Vec<NetIface>) -> (r: Vec<(String, String)>)
    ensures
        pair_views(r@) == known_ssids(v@, v@.len() as int),
{
    let mut r: Vec<(String, String)> = Vec::new();
    let mut i: usize = 0;
    assert(pair_views(r@) =~= known_ssids(v@, 0));
    while i < v.len()
        invariant
            i <= v.len(),
            pair_views(r@) == known_ssids(v@, i as int),
        decreases v.len() - i,
    {
        if text::chars_of(v[i].ssid.as_str()).len() > 0 {
            let ghost o = r@;
            r.push((v[i].alias.clone(), v[i].ssid.clone()));
            assert(pair_views(r@) =~= pair_views(o).push(
                (v@[i as int].alias@, v@[i as int].ssid@),
            ));
        }
        i += 1;
    }
    r
}

pub open spec fn are_details(d: MetricsData, r: Details) -> bool {
    &&& r.n == d.top_n
    &&& r.top_cpu@.len() == d.top_cpu@.len()
    &&& forall|i: int|
        0 <= i < d.top_cpu@.len() ==> samples_process(d.top_cpu@[i], #[trigger] r.top_cpu@[i])
    &&& r.top_mem@.len() == d.top_mem@.len()
    &&& forall|i: int|
        0 <= i < d.top_mem@.len() ==> samples_process(d.top_mem@[i], #[trigger] r.top_mem@[i])
    &&& r.top_io@.len() == d.top_io@.len()
    &&& forall|i: int|
        0 <= i < d.top_io@.len() ==> samples_process(d.top_io@[i], #[trigger] r.top_io@[i])
    &&& r.drives@.len() == d.drives@.len()
    &&& forall|i: int|
        0 <= i < d.drives@.len() ==> samples_drive(d.drives@[i], #[trigger] r.drives@[i])
    &&& pair_views(r.ips@) == known_ips(d.net_ifaces@, d.net_ifaces@.len() as int)
    &&& pair_views(r.ssids@) == known_ssids(d.net_ifaces@, d.net_ifaces@.len() as int)
}

/// The lists of the popups, in the words of the wire.
pub fn details_from(d: &MetricsData) -> (r: Details)
    ensures
        are_details(*d, r),
{
    Details {
        n: d.top_n,
        top_cpu: process_samples(&d.top_cpu),
        top_mem: process_samples(&d.top_mem),
        top_io: process_samples(&d.top_io),
        drives: drive_samples(&d.drives),
        ips: iface_ips(&d.net_ifaces),
        ssids: iface_ssids(&d.net_ifaces),
    }
}

// ---------------------------------------------------------------------------
// Publishing

/// A master that asked for details within so many milliseconds still wants
/// them.
pub const WANTED_MS: u64 = 4000;

pub open spec fn is_wanted(asked: Option<u64>, now: u64) -> bool {
    match asked {
        Some(t) => now - t < WANTED_MS,
        None => false,
    }
}

/// A master asked for details within the last few seconds: keep collecting
/// them. Times are milliseconds of a clock that never goes back.
pub fn details_wanted(asked: Option<u64>, now: u64) -> (r: bool)
    ensures
        r == is_wanted(asked, now),
{
    match asked {
        Some(t) => now < t || now - t < WANTED_MS,
        None => false,
    }
}

/// How many snapshots were published.
pub struct Share {
    pub seq: u64,
}

/// What is published in a tick: always a snapshot, now and then what the
/// machine is, and the details while somebody wants them.
pub struct Published {
    pub snapshot: Snapshot,
    pub info: bool,
    pub details: Option<Details>,
}

impl Share {
    pub fn new() -> (r: Share)
        ensures
            r.seq == 0,
    {
        Share { seq: 0 }
    }

    /// Once per tick. Hardware lists can change (disks, adapters), so what the
    /// machine is is told anew every thirtieth time, beginning with the first.
    pub fn publish(&mut self, d: &MetricsData, asked: Option<u64>, now: u64) -> (r: Published)
        requires
            old(self).seq < u64::MAX,
        ensures
            final(self).seq == old(self).seq + 1,
            is_snapshot(*d, final(self).seq, r.snapshot),
            r.info == (final(self).seq % 30 == 1),
            r.details.is_some() == is_wanted(asked, now),
            match r.details {
                Some(x) => are_details(*d, x),
                None => true,
            },
    {
        self.seq = self.seq + 1;
        let details: Option<Details> = if details_wanted(asked, now) {
            Some(details_from(d))
        } else {
            None
        };
        Published { snapshot: snapshot_from(d, self.seq), info: self.seq % 30 == 1, details }
    }
}

/// `r` announces the machine.
pub open spec fn is_beacon(info: Info, port: u16, cpu: Single, mem: Single, r: Beacon) -> bool {
    &&& r.v == VERSION
    &&& r.id@ == info.id@
    &&& r.name@ == info.name@
    &&& r.os@ == info.os@
    &&& r.arch@ == info.arch@
    &&& r.port == port
    &&& r.agent@ == info.agent@
    &&& r.cpu == cpu
    &&& r.mem == mem
}

/// The announcement of a machine.
pub fn beacon_of(info: &Info, port: u16, cpu: Single, mem: Single) -> (r: Beacon)
    ensures
        is_beacon(*info, port, cpu, mem, r),
{
    Beacon {
        v: VERSION,
        id: info.id.clone(),
        name: info.name.clone(),
        os: info.os.clone(),
        arch: info.arch.clone(),
        port,
        agent: info.agent.clone(),
        cpu,
        mem,
    }
}

// ---------------------------------------------------------------------------
// The id of an installation

/// Two random numbers as thirty-two hexadecimal digits.
pub open spec fn id_text(a: u64, b: u64) -> Seq<char> {
    text::hex(a as nat, 16, false) + text::hex(b as nat, 16, false)
}

/// The id of a new installation, from two random numbers.
pub fn new_id(a: u64, b: u64) -> (r: String)
    ensures
        r@ == id_text(a, b),
{
    let mut s: String = text::hex_number(a, 16, false);
    s.append(text::hex_number(b, 16, false).as_str());
    s
}

/// An id has thirty-two digits, and different numbers give different ids.
pub proof fn law_ids_are_distinct(a: u64, b: u64, c: u64, d: u64)
    ensures
        id_text(a, b).len() == 32,
        id_text(a, b) == id_text(c, d) ==> a == c && b == d,
{
    lemma_hex16(a);
    lemma_hex16(b);
    lemma_hex16(c);
    lemma_hex16(d);
    if id_text(a, b) == id_text(c, d) {
        assert(id_text(a, b).take(16) =~= text::hex(a as nat, 16, false));
        assert(id_text(c, d).take(16) =~= text::hex(c as nat, 16, false));
        assert(id_text(a, b).skip(16) =~= text::hex(b as nat, 16, false));
        assert(id_text(c, d).skip(16) =~= text::hex(d as nat, 16, false));
        lemma_hex_injective(a as nat, c as nat, 16);
        lemma_hex_injective(b as nat, d as nat, 16);
    }
}

proof fn lemma_hex16(a: u64)
    ensures
        text::hex(a as nat, 16, false).len() == 16,
{
    assert(text::sixteen_to(16) == 0x1_0000_0000_0000_0000) by {
        reveal_with_fuel(text::sixteen_to, 17);
    }
    text::lemma_hex_len(a as nat, 16, text::sixteen_to(16), false);
}

proof fn lemma_hex_injective(a: nat, b: nat, width: nat)
    requires
        text::hex(a, width, false) == text::hex(b, width, false),
    ensures
        a == b,
    decreases a + b + width,
{
    let x = text::hex(a, width, false);
    let y = text::hex(b, width, false);
    if !(a == 0 && b == 0) {
        let w = if width > 0 {
            (width - 1) as nat
        } else {
            0
        };
        assert(x.len() == y.len());
        if a == 0 && width == 0 {
            assert(y.len() > 0);
        } else if b == 0 && width == 0 {
            assert(x.len() > 0);
        } else {
            assert(x.drop_last() =~= text::hex(a / 16, w, false));
            assert(y.drop_last() =~= text::hex(b / 16, w, false));
            assert(x.last() == y.last());
            lemma_hex_injective(a / 16, b / 16, w);
        }
    }
}

/// What this machine shares is what another winstats shows of it: the load, the
/// memory, the battery and the graphics arrive as they were, with loads brought
/// between nothing and all.
pub proof fn law_shared_values_arrive(
    d: MetricsData,
    seq: u64,
    s: Snapshot,
    before: Agent,
    after: Agent,
)
    requires
        is_snapshot(d, seq, s),
        agent::snapshotted(before, s, after),
    ensures
        after.data.cpu_total == d.cpu_total.clamped(),
        after.data.cpu_system == d.cpu_system,
        after.data.cpu_user == d.cpu_user,
        after.data.mem.used == d.mem.used,
        d.mem.used <= d.mem.commit_used ==> after.data.mem.commit_used == d.mem.commit_used,
        d.mem.used <= d.mem.total && before.data.mem.total == 0 ==> after.data.mem.total
            == d.mem.total,
        after.data.battery == d.battery,
        after.data.gpu == (match d.gpu {
            Some(g) => Some(g.clamped()),
            None => None,
        }),
        d.gpu.is_some() ==> after.data.vram_used == d.vram_used,
{
}

/// What this machine says that it is, is what another winstats shows of it.
pub proof fn law_shared_machine_arrives(
    cfg: Config,
    d: MetricsData,
    m: Machine,
    info: Info,
    before: Agent,
    after: Agent,
    i: int,
)
    requires
        is_info(cfg, d, m, info),
        agent::informed(before, info, after),
        d.mem.total <= d.mem.commit_total,
    ensures
        cfg.share_name@.len() > 0 ==> after.data.host@ == cfg.share_name@,
        cfg.share_name@.len() == 0 ==> (m.computer matches Some(n) ==> after.data.host@ == n@),
        after.data.cpu_name@ == d.cpu_name@,
        d.cpu_sockets >= 1 ==> after.data.cpu_sockets == d.cpu_sockets,
        after.data.mem.total == d.mem.total,
        after.data.mem.commit_total == d.mem.commit_total,
        after.data.gpu_available == d.gpu_available,
        after.data.battery_available == d.battery_available,
        after.data.net_ifaces@.len() == d.net_ifaces@.len(),
        0 <= i < d.net_ifaces@.len() ==> after.data.net_ifaces@[i].alias@
            == d.net_ifaces@[i].alias@,
        after.data.disks@.len() == d.disks@.len(),
        0 <= i < d.disks@.len() ==> after.data.disks@[i].model@ == d.disks@[i].model@
            && after.data.disks@[i].size == d.disks@[i].size,
        d.cpu_classes@.len() == d.cpu_cores@.len() ==> after.data.cpu_cores@.len()
            == d.cpu_cores@.len() && after.hw_classes@ == d.cpu_classes@,
{
    agent::law_told_machine_is_shown(before, info, after, i);
    lemma_modules(d, info.has@);
    if 0 <= i < d.net_ifaces@.len() {
        assert(tells_iface(d.net_ifaces@[i], info.ifaces@[i]));
    }
    if 0 <= i < d.disks@.len() {
        assert(tells_disk(d.disks@[i], info.disks@[i]));
    }
}

proof fn lemma_modules(d: MetricsData, has: Seq<String>)
    requires
        text::views(has) == modules_of(d),
    ensures
        text::listed(has, "gpu"@) == d.gpu_available,
        text::listed(has, "battery"@) == d.battery_available,
{
    reveal_strlit("cpu");
    reveal_strlit("mem");
    reveal_strlit("net");
    reveal_strlit("disk");
    reveal_strlit("gpu");
    reveal_strlit("battery");
    let w = modules_of(d);
    assert("gpu"@[0] == 'g' && "battery"@.len() == 7 && "gpu"@.len() == 3);
    assert("cpu"@[0] == 'c' && "mem"@[0] == 'm' && "net"@[0] == 'n' && "disk"@.len() == 4);
    assert(forall|i: int| 0 <= i < has.len() ==> (#[trigger] has[i])@ == w[i]) by {
        assert forall|i: int| 0 <= i < has.len() implies (#[trigger] has[i])@ == w[i] by {
            assert(text::views(has)[i] == has[i]@);
        }
    }
    assert(has.len() == w.len()) by {
        assert(text::views(has).len() == has.len());
    }
    if d.gpu_available {
        assert(w[4] == "gpu"@);
        assert(has[4]@ == "gpu"@);
    }
    if d.battery_available {
        assert(w[w.len() - 1] == "battery"@);
        assert(has[has.len() - 1]@ == "battery"@);
    }
}

/// No two interfaces have a name in common, and no two disks a number.
pub open spec fn tells_apart(d: MetricsData) -> bool {
    &&& agent::names_differ(d.net_ifaces@)
    &&& forall|i: int, j: int|
        0 <= i < j < d.disks@.len() ==> (#[trigger] d.disks@[i]).index != (
        #[trigger] d.disks@[j]).index
}

proof fn lemma_disk_keys(a: u32, b: u32)
    ensures
        disk_key(a) == disk_key(b) ==> a == b,
{
    if disk_key(a) == disk_key(b) {
        let n = "PhysicalDrive"@.len();
        assert(disk_key(a).skip(n as int) =~= text::decimal(a as nat));
        assert(disk_key(b).skip(n as int) =~= text::decimal(b as nat));
        text::lemma_decimal_injective(a as nat, b as nat);
    }
}

/// The rates of this machine's interfaces and disks arrive at the same interface
/// and the same disk of the machine that shows them.
pub proof fn law_shared_rates_arrive(
    cfg: Config,
    d: MetricsData,
    m: Machine,
    info: Info,
    new: Agent,
    before: Agent,
    seq: u64,
    s: Snapshot,
    after: Agent,
    i: int,
)
    requires
        is_info(cfg, d, m, info),
        agent::informed(new, info, before),
        d.mem.total <= d.mem.commit_total,
        is_snapshot(d, seq, s),
        agent::snapshotted(before, s, after),
        tells_apart(d),
    ensures
        0 <= i < d.net_ifaces@.len() ==> {
            let n = after.data.net_ifaces@[i];
            &&& n.alias@ == d.net_ifaces@[i].alias@
            &&& n.rx_bps == d.net_ifaces@[i].rx_bps
            &&& n.tx_bps == d.net_ifaces@[i].tx_bps
            &&& n.up == d.net_ifaces@[i].up
        },
        0 <= i < d.disks@.len() ==> {
            let x = after.data.disks@[i];
            &&& x.model@ == d.disks@[i].model@
            &&& x.read_bps == d.disks@[i].read_bps
            &&& x.write_bps == d.disks@[i].write_bps
        },
{
    let ifaces = before.data.net_ifaces@;
    assert forall|k: int| 0 <= k < d.net_ifaces@.len() implies (#[trigger] ifaces[k]).alias@
        == d.net_ifaces@[k].alias@ by {
        law_shared_machine_arrives(cfg, d, m, info, new, before, k);
    }
    law_shared_machine_arrives(cfg, d, m, info, new, before, i);
    assert(agent::names_differ(ifaces)) by {
        assert forall|x: int, y: int| 0 <= x < y < ifaces.len() implies (
        #[trigger] ifaces[x]).alias@ != (#[trigger] ifaces[y]).alias@ by {
            assert(d.net_ifaces@[x].alias@ != d.net_ifaces@[y].alias@);
        }
    }
    let list = agent::info_disks(before.info);
    assert(list == info.disks@);
    assert(agent::ids_differ(list)) by {
        assert forall|x: int, y: int| 0 <= x < y < list.len() implies (#[trigger] list[x]).id@ != (
        #[trigger] list[y]).id@ by {
            assert(tells_disk(d.disks@[x], info.disks@[x]));
            assert(tells_disk(d.disks@[y], info.disks@[y]));
            assert(d.disks@[x].index != d.disks@[y].index);
            lemma_disk_keys(d.disks@[x].index, d.disks@[y].index);
        }
    }
    agent::law_rates_go_where_they_belong(before, s, after, i, i);
    if 0 <= i < d.net_ifaces@.len() {
        assert(samples_iface(d.net_ifaces@[i], s.net@[i]));
        assert forall|q: int| i < q < s.net@.len() implies (#[trigger] s.net@[q]).id@
            != ifaces[i].alias@ by {
            assert(samples_iface(d.net_ifaces@[q], s.net@[q]));
            assert(d.net_ifaces@[i].alias@ != d.net_ifaces@[q].alias@);
        }
        assert(agent::last_net_sample(s.net@, ifaces[i].alias@, i));
    }
    if 0 <= i < d.disks@.len() {
        assert(tells_disk(d.disks@[i], info.disks@[i]));
        assert(samples_disk(d.disks@[i], s.disk@[i]));
        assert forall|q: int| i < q < s.disk@.len() implies (#[trigger] s.disk@[q]).id@
            != list[i].id@ by {
            assert(samples_disk(d.disks@[q], s.disk@[q]));
            assert(d.disks@[i].index != d.disks@[q].index);
            lemma_disk_keys(d.disks@[i].index, d.disks@[q].index);
        }
        assert(agent::last_disk_sample(s.disk@, list[i].id@, i));
    }
}

proof fn lemma_ip_is_sent(v: Seq<NetIface>, n: int, i: int) -> (j: int)
    requires
        0 <= i < n <= v.len(),
        v[i].ip@.len() > 0,
    ensures
        0 <= j < known_ips(v, n).len(),
        known_ips(v, n)[j] == (v[i].alias@, v[i].ip@),
    decreases n,
{
    if i < n - 1 {
        lemma_ip_is_sent(v, n - 1, i)
    } else {
        known_ips(v, n - 1).len() as int
    }
}

proof fn lemma_sent_ip_is_own(v: Seq<NetIface>, n: int, j: int) -> (i: int)
    requires
        0 <= n <= v.len(),
        0 <= j < known_ips(v, n).len(),
    ensures
        0 <= i < n,
        known_ips(v, n)[j] == (v[i].alias@, v[i].ip@),
    decreases n,
{
    if j < known_ips(v, n - 1).len() {
        lemma_sent_ip_is_own(v, n - 1, j)
    } else {
        n - 1
    }
}

proof fn lemma_ssid_is_sent(v: Seq<NetIface>, n: int, i: int) -> (j: int)
    requires
        0 <= i < n <= v.len(),
        v[i].ssid@.len() > 0,
    ensures
        0 <= j < known_ssids(v, n).len(),
        known_ssids(v, n)[j] == (v[i].alias@, v[i].ssid@),
    decreases n,
{
    if i < n - 1 {
        lemma_ssid_is_sent(v, n - 1, i)
    } else {
        known_ssids(v, n - 1).len() as int
    }
}

proof fn lemma_sent_ssid_is_own(v: Seq<NetIface>, n: int, j: int) -> (i: int)
    requires
        0 <= n <= v.len(),
        0 <= j < known_ssids(v, n).len(),
    ensures
        0 <= i < n,
        known_ssids(v, n)[j] == (v[i].alias@, v[i].ssid@),
    decreases n,
{
    if j < known_ssids(v, n - 1).len() {
        lemma_sent_ssid_is_own(v, n - 1, j)
    } else {
        n - 1
    }
}

proof fn lemma_last_named(v: Seq<(String, String)>, name: Seq<char>, j: int) -> (k: int)
    requires
        0 <= j < v.len(),
        v[j].0@ == name,
    ensures
        agent::last_named(v, name, k),
    decreases v.len() - j,
{
    if exists|q: int| j < q < v.len() && (#[trigger] v[q]).0@ == name {
        let q = choose|q: int| j < q < v.len() && (#[trigger] v[q]).0@ == name;
        lemma_last_named(v, name, q)
    } else {
        j
    }
}

/// Details that a machine shares arrive as they were: each of its drives with
/// its name, label, file system and space, and each process of its lists with
/// its numbers.
pub proof fn law_shared_details_arrive(
    d: MetricsData,
    det: Details,
    before: Agent,
    loads: Seq<crate::number::Double>,
    after: Agent,
    i: int,
)
    requires
        are_details(d, det),
        agent::details_entered(before, det, loads, after),
    ensures
        after.data.drives@.len() == d.drives@.len(),
        0 <= i < d.drives@.len() ==> {
            let (own, shown) = (d.drives@[i], after.data.drives@[i]);
            &&& shown.name@ == own.name@
            &&& shown.label@ == own.label@
            &&& shown.fs@ == own.fs@
            &&& shown.free == own.free
            &&& shown.total == own.total
            &&& shown.readonly == own.readonly
            &&& own.kind@ == "USB"@ || own.kind@ == "DVD"@ || own.kind@ == ""@ ==> shown.kind@
                == own.kind@
        },
        0 <= i < d.drives@.len() && d.drives@[i].name@ == "/"@ && (forall|q: int|
            0 <= q < i ==> (#[trigger] d.drives@[q]).name@ != "/"@ && text::lower(
                d.drives@[q].name@,
            ) != "c:"@) ==> after.data.disk_free == d.drives@[i].free && after.data.disk_total
            == d.drives@[i].total,
        after.data.top_cpu@.len() == d.top_cpu@.len(),
        0 <= i < d.top_cpu@.len() ==> same_process(d.top_cpu@[i], after.data.top_cpu@[i]),
        after.data.top_mem@.len() == d.top_mem@.len(),
        0 <= i < d.top_mem@.len() ==> same_process(d.top_mem@[i], after.data.top_mem@[i]),
        after.data.top_io@.len() == d.top_io@.len(),
        0 <= i < d.top_io@.len() ==> same_process(d.top_io@[i], after.data.top_io@[i]),
{
    agent::law_details_are_shown(before, det, loads, after, i);
    if 0 <= i < d.drives@.len() {
        assert(samples_drive(d.drives@[i], det.drives@[i]));
        if d.drives@[i].name@ == "/"@ && (forall|q: int|
            0 <= q < i ==> (#[trigger] d.drives@[q]).name@ != "/"@ && text::lower(
                d.drives@[q].name@,
            ) != "c:"@) {
            assert forall|q: int| 0 <= q < i implies (#[trigger] det.drives@[q]).id@ != "/"@
                && text::lower(det.drives@[q].id@) != "c:"@ by {
                assert(samples_drive(d.drives@[q], det.drives@[q]));
                assert(d.drives@[q].name@ != "/"@);
            }
        }
    }
    if 0 <= i < d.top_cpu@.len() {
        assert(samples_process(d.top_cpu@[i], det.top_cpu@[i]));
    }
    if 0 <= i < d.top_mem@.len() {
        assert(samples_process(d.top_mem@[i], det.top_mem@[i]));
    }
    if 0 <= i < d.top_io@.len() {
        assert(samples_process(d.top_io@[i], det.top_io@[i]));
    }
}

proof fn lemma_shared_ip(d: MetricsData, ips: Seq<(String, String)>, i: int) -> (l: int)
    requires
        pair_views(ips) == known_ips(d.net_ifaces@, d.net_ifaces@.len() as int),
        agent::names_differ(d.net_ifaces@),
        0 <= i < d.net_ifaces@.len(),
        d.net_ifaces@[i].ip@.len() > 0,
    ensures
        agent::last_named(ips, d.net_ifaces@[i].alias@, l),
        ips[l].1@ == d.net_ifaces@[i].ip@,
{
    let v = d.net_ifaces@;
    let name = v[i].alias@;
    let n = v.len() as int;
    let j = lemma_ip_is_sent(v, n, i);
    assert(pair_views(ips)[j] == (ips[j].0@, ips[j].1@));
    let l = lemma_last_named(ips, name, j);
    assert(pair_views(ips)[l] == (ips[l].0@, ips[l].1@));
    let w = lemma_sent_ip_is_own(v, n, l);
    if w < i {
        assert(v[w].alias@ != v[i].alias@);
    } else if i < w {
        assert(v[i].alias@ != v[w].alias@);
    }
    l
}

proof fn lemma_shared_ssid(d: MetricsData, ssids: Seq<(String, String)>, i: int) -> (l: int)
    requires
        pair_views(ssids) == known_ssids(d.net_ifaces@, d.net_ifaces@.len() as int),
        agent::names_differ(d.net_ifaces@),
        0 <= i < d.net_ifaces@.len(),
        d.net_ifaces@[i].ssid@.len() > 0,
    ensures
        agent::last_named(ssids, d.net_ifaces@[i].alias@, l),
        ssids[l].1@ == d.net_ifaces@[i].ssid@,
{
    let v = d.net_ifaces@;
    let name = v[i].alias@;
    let n = v.len() as int;
    let j = lemma_ssid_is_sent(v, n, i);
    assert(pair_views(ssids)[j] == (ssids[j].0@, ssids[j].1@));
    let l = lemma_last_named(ssids, name, j);
    assert(pair_views(ssids)[l] == (ssids[l].0@, ssids[l].1@));
    let w = lemma_sent_ssid_is_own(v, n, l);
    if w < i {
        assert(v[w].alias@ != v[i].alias@);
    } else if i < w {
        assert(v[i].alias@ != v[w].alias@);
    }
    l
}

/// The address and the network of an interface that a machine shares arrive at
/// the interface of that name.
pub proof fn law_shared_addresses_arrive(
    d: MetricsData,
    det: Details,
    before: Agent,
    loads: Seq<crate::number::Double>,
    after: Agent,
    i: int,
    k: int,
)
    requires
        are_details(d, det),
        agent::details_entered(before, det, loads, after),
        agent::names_differ(d.net_ifaces@),
        agent::names_differ(before.data.net_ifaces@),
        0 <= i < d.net_ifaces@.len(),
        0 <= k < before.data.net_ifaces@.len(),
        before.data.net_ifaces@[k].alias@ == d.net_ifaces@[i].alias@,
    ensures
        after.data.net_ifaces@[k].alias@ == d.net_ifaces@[i].alias@,
        d.net_ifaces@[i].ip@.len() > 0 ==> after.data.net_ifaces@[k].ip@ == d.net_ifaces@[i].ip@,
        d.net_ifaces@[i].ssid@.len() > 0 ==> after.data.net_ifaces@[k].ssid@
            == d.net_ifaces@[i].ssid@,
{
    agent::law_addresses_are_shown(before, det, loads, after, k, 0);
    if d.net_ifaces@[i].ip@.len() > 0 {
        let l = lemma_shared_ip(d, det.ips@, i);
        agent::law_addresses_are_shown(before, det, loads, after, k, l);
    }
    if d.net_ifaces@[i].ssid@.len() > 0 {
        let l = lemma_shared_ssid(d, det.ssids@, i);
        agent::law_addresses_are_shown(before, det, loads, after, k, l);
    }
}

/// A process on two machines.
pub open spec fn same_process(own: ProcInfo, shown: ProcInfo) -> bool {
    shown.pid == own.pid && shown.name@ == own.name@ && shown.cpu == own.cpu && shown.mem == own.mem
        && shown.io == own.io
}

/// A machine announces itself under the id and the name that it answers with, on
/// the port that it listens on.
pub proof fn law_beacon_is_of_the_machine(
    cfg: Config,
    d: MetricsData,
    m: Machine,
    info: Info,
    port: u16,
    cpu: Single,
    mem: Single,
    b: Beacon,
)
    requires
        is_info(cfg, d, m, info),
        is_beacon(info, port, cpu, mem, b),
    ensures
        b.id@ == cfg.share_id@ && b.id@ == info.id@,
        cfg.share_name@.len() > 0 ==> b.name@ == cfg.share_name@,
        cfg.share_name@.len() == 0 ==> (m.computer matches Some(n) ==> b.name@ == n@),
        b.port == port && b.cpu == cpu && b.mem == mem,
        b.os@ == info.os@ && b.arch@ == m.arch@ && b.agent@ == info.agent@ && b.v == info.v,
{
}

/// Details are collected for four seconds after they were asked for, and not
/// without being asked for.
pub proof fn law_details_are_wanted_for_a_while(asked: u64, now: u64)
    requires
        asked <= now,
    ensures
        is_wanted(Some(asked), now) == (now - asked < 4000),
        !is_wanted(None, now),
{
}

} // verus!
