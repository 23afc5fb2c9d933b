//! One remote machine on the master's side: its frames become the values that
//! the widgets read.

use crate::config::RemoteCfg;
use crate::metrics::battery::Battery;
use crate::metrics::disks::{self, PhysicalDisk};
use crate::metrics::drives::Drive;
use crate::metrics::net::{self, NetIface};
use crate::metrics::processes::ProcInfo;
use crate::metrics::{self, MetricsData};
use crate::number::{self, Double, Single};
use crate::proto::{
    BatterySample, CpuSample, Details, DiskInfo, DiskSample, DriveSample, GpuSample, IfaceInfo,
    Info, MemSample, NetSample, ProcSample, Snapshot, TempSample,
};
use crate::text;
use vstd::prelude::*;

verus! {

/// A configured agent on the master's side.
pub struct Agent {
    pub key: String,
    /// Address of the link that stands, where there is one.
    pub link: Option<String>,
    pub info: Option<Info>,
    pub data: MetricsData,
    pub online: bool,
    /// Still drawn: data arrived lately.
    pub visible: bool,
    /// Drawn in grey: no data for a while, not yet gone.
    pub stale: bool,
    /// When the link went down, for the popup.
    pub offline_since: Option<u64>,
    pub net_disabled: Vec<String>,
    pub disks_disabled: Vec<String>,
    /// The faster cores first.
    pub group_pe: bool,
    /// Classes and clusters in the order the agent reports the cores.
    pub hw_classes: Vec<u8>,
    pub hw_clusters: Vec<u8>,
    /// Display index to the agent's index.
    pub order: Vec<usize>,
}

// ---------------------------------------------------------------------------
// Names that are known

/// The bus names that an agent may report.
pub open spec fn known_bus(s: Seq<char>) -> Seq<char> {
    if s == "SSD"@ || s == "HDD"@ || s == "USB"@ || s == "NVMe"@ || s == "SATA"@ || s == "SD"@ {
        s
    } else {
        ""@
    }
}

pub fn bus_static(s: &str) -> (r: &'static str)
    ensures
        r@ == known_bus(s@),
{
    if text::same(s, "SSD") {
        "SSD"
    } else if text::same(s, "HDD") {
        "HDD"
    } else if text::same(s, "USB") {
        "USB"
    } else if text::same(s, "NVMe") {
        "NVMe"
    } else if text::same(s, "SATA") {
        "SATA"
    } else if text::same(s, "SD") {
        "SD"
    } else {
        ""
    }
}

/// The kinds of interfaces and drives that an agent may report.
pub open spec fn known_kind(s: Seq<char>) -> Seq<char> {
    if s == "Ethernet"@ || s == "Wi-Fi"@ || s == "Mobile"@ || s == "Bluetooth"@ || s == "USB"@ || s
        == "DVD"@ {
        s
    } else {
        ""@
    }
}

pub fn kind_static(s: &str) -> (r: &'static str)
    ensures
        r@ == known_kind(s@),
{
    if text::same(s, "Ethernet") {
        "Ethernet"
    } else if text::same(s, "Wi-Fi") {
        "Wi-Fi"
    } else if text::same(s, "Mobile") {
        "Mobile"
    } else if text::same(s, "Bluetooth") {
        "Bluetooth"
    } else if text::same(s, "USB") {
        "USB"
    } else if text::same(s, "DVD") {
        "DVD"
    } else {
        ""
    }
}

// ---------------------------------------------------------------------------
// Temperature

/// How likely a sensor is the CPU package.
pub open spec fn sensor_score(id: Seq<char>) -> int {
    let l = text::lower(id);
    if text::has(l, "package"@) || text::has(l, "peci"@) {
        4
    } else if text::has(l, "cpu"@) || text::has(l, "tctl"@) || text::has(l, "tdie"@) {
        3
    } else if text::has(l, "core"@) || text::has(l, "soc"@) {
        2
    } else {
        0
    }
}

fn score(id: &str) -> (r: u8)
    ensures
        r == sensor_score(id@),
{
    let low: String = text::ascii_lower(id);
    let l: &str = low.as_str();
    if text::contains(l, "package") || text::contains(l, "peci") {
        4
    } else if text::contains(l, "cpu") || text::contains(l, "tctl") || text::contains(l, "tdie") {
        3
    } else if text::contains(l, "core") || text::contains(l, "soc") {
        2
    } else {
        0
    }
}

/// `b` is the sensor that most likely is the CPU package, the last of several.
pub open spec fn is_best_sensor(temps: Seq<TempSample>, b: int) -> bool {
    &&& 0 <= b < temps.len()
    &&& forall|i: int|
        0 <= i < temps.len() ==> sensor_score((#[trigger] temps[i]).id@) <= sensor_score(temps[b].id@)
            && (i > b ==> sensor_score(temps[i].id@) < sensor_score(temps[b].id@))
}

/// `r` is the temperature of the CPU: of the sensor that most likely is its
/// package, or of the first where none looks like it.
pub open spec fn is_cpu_temp(temps: Seq<TempSample>, r: Option<Single>) -> bool {
    if temps.len() == 0 {
        r.is_none()
    } else {
        exists|b: int| #[trigger]
            is_best_sensor(temps, b) && r == Some(
                if sensor_score(temps[b].id@) > 0 {
                    temps[b].c
                } else {
                    temps[0].c
                },
            )
    }
}

pub fn pick_cpu_temp(temps: &Vec<TempSample>) -> (r: Option<Single>)
    ensures
        is_cpu_temp(temps@, r),
{
    if temps.len() == 0 {
        return None;
    }
    let mut best: usize = 0;
    let mut top: u8 = score(temps[0].id.as_str());
    let mut i: usize = 1;
    while i < temps.len()
        invariant
            1 <= i <= temps.len(),
            best < i,
            top == sensor_score(temps@[best as int].id@),
            forall|j: int|
                0 <= j < i ==> sensor_score((#[trigger] temps@[j]).id@) <= top && (j > best
                    ==> sensor_score(temps@[j].id@) < top),
        decreases temps.len() - i,
    {
        let s: u8 = score(temps[i].id.as_str());
        if s >= top {
            best = i;
            top = s;
        }
        i += 1;
    }
    assert(is_best_sensor(temps@, best as int));
    if top > 0 {
        Some(temps[best].c)
    } else {
        Some(temps[0].c)
    }
}

// ---------------------------------------------------------------------------
// Info

/// A list as long as the cores, or zeros where it is not.
pub open spec fn per_core(s: Seq<u8>, cores: usize) -> Seq<u8> {
    if s.len() == cores {
        s
    } else {
        Seq::new(cores as nat, |i: int| 0u8)
    }
}

fn bytes_per_core(v: &Vec<u8>, cores: usize) -> (r: Vec<u8>)
    ensures
        r@ == per_core(v@, cores),
{
    let mut r: Vec<u8> = Vec::new();
    let mut i: usize = 0;
    while i < cores
        invariant
            i <= cores,
            v.len() == v@.len(),
            r@ == per_core(v@, cores).take(i as int),
        decreases cores - i,
    {
        if v.len() == cores {
            r.push(v[i]);
        } else {
            r.push(0);
        }
        i += 1;
    }
    assert(per_core(v@, cores).take(cores as int) =~= per_core(v@, cores));
    r
}

/// `d` is disk `i` of an agent.
pub open spec fn is_agent_disk(x: DiskInfo, i: int, d: PhysicalDisk) -> bool {
    &&& d.index == i as u32
    &&& d.model@ == x.model@
    &&& d.bus@ == known_bus(x.bus@)
    &&& d.size == x.size
    &&& d.read_bps == Double::zero()
    &&& d.write_bps == Double::zero()
}

/// `n` is an interface of an agent.
pub open spec fn is_agent_iface(x: IfaceInfo, n: NetIface) -> bool {
    &&& n.luid == 0
    &&& n.guid == 0
    &&& n.alias@ == x.id@
    &&& n.description@ == x.mac@
    &&& n.kind@ == known_kind(x.kind@)
    &&& n.up
    &&& n.rx_bps == Double::zero()
    &&& n.tx_bps == Double::zero()
    &&& n.ip@.len() == 0
    &&& n.ssid@.len() == 0
}

/// The disks of an agent with those of `disabled` off, all on where none
/// would be.
pub open spec fn are_agent_disks(list: Seq<DiskInfo>, disabled: Seq<String>, r: Seq<PhysicalDisk>) -> bool {
    exists|base: Seq<PhysicalDisk>|
        r == #[trigger] disks::switched(base, disabled) && base.len() == list.len() && forall|i: int|
            0 <= i < list.len() ==> is_agent_disk(list[i], i, #[trigger] base[i])
}

/// The interfaces of an agent with those of `disabled` off, all on where none
/// would be.
pub open spec fn are_agent_ifaces(list: Seq<IfaceInfo>, disabled: Seq<String>, r: Seq<NetIface>) -> bool {
    exists|base: Seq<NetIface>|
        r == #[trigger] net::switched(base, disabled) && base.len() == list.len() && forall|i: int|
            0 <= i < list.len() ==> is_agent_iface(list[i], #[trigger] base[i])
}

fn agent_disks(list: &Vec<DiskInfo>, disabled: &Vec<String>) -> (r: Vec<PhysicalDisk>)
    ensures
        are_agent_disks(list@, disabled@, r@),
{
    let mut base: Vec<PhysicalDisk> = Vec::new();
    let mut i: usize = 0;
    while i < list.len()
        invariant
            i <= list.len(),
            base@.len() == i,
            forall|j: int| 0 <= j < i ==> is_agent_disk(list@[j], j, #[trigger] base@[j]),
        decreases list.len() - i,
    {
        base.push(
            PhysicalDisk {
                index: i as u32,
                model: list[i].model.clone(),
                bus: bus_static(list[i].bus.as_str()),
                size: list[i].size,
                read_bps: Double::zero(),
                write_bps: Double::zero(),
                enabled: true,
            },
        );
        i += 1;
    }
    disks::with_disabled(base, disabled)
}

fn agent_ifaces(list: &Vec<IfaceInfo>, disabled: &Vec<String>) -> (r: Vec<NetIface>)
    ensures
        are_agent_ifaces(list@, disabled@, r@),
{
    let mut base: Vec<NetIface> = Vec::new();
    let mut i: usize = 0;
    while i < list.len()
        invariant
            i <= list.len(),
            base@.len() == i,
            forall|j: int| 0 <= j < i ==> is_agent_iface(list@[j], #[trigger] base@[j]),
        decreases list.len() - i,
    {
        base.push(
            NetIface {
                luid: 0,
                guid: 0,
                alias: list[i].id.clone(),
                description: list[i].mac.clone(),
                kind: kind_static(list[i].kind.as_str()),
                up: true,
                rx_bps: Double::zero(),
                tx_bps: Double::zero(),
                ip: String::new(),
                ssid: String::new(),
                enabled: true,
            },
        );
        i += 1;
    }
    let ghost b = base@;
    net::switch(&mut base, disabled);
    assert(base@ == net::switched(b, disabled@));
    base
}

/// The display order, and the classes and packages shown in it.
pub open spec fn ordered(a: Agent, d: MetricsData, order: Seq<usize>) -> bool {
    &&& metrics::is_core_order(
        a.hw_clusters@,
        a.hw_classes@,
        a.hw_classes@.len(),
        a.group_pe,
        order,
    )
    &&& d.cpu_classes@ == metrics::bytes_at(a.hw_classes@, order)
    &&& d.cpu_packages@ == metrics::bytes_at(a.hw_clusters@, order)
}

pub open spec fn zero_loads(n: nat) -> Seq<Single> {
    Seq::new(n, |i: int| Single::zero())
}

/// The data after an agent's information.
pub open spec fn informed(a: Agent, info: Info, b: Agent) -> bool {
    let d = b.data;
    &&& b == (Agent {
        data: d,
        info: Some(info),
        hw_classes: b.hw_classes,
        hw_clusters: b.hw_clusters,
        order: b.order,
        ..a
    })
    &&& d == (MetricsData {
        host: d.host,
        cpu_name: d.cpu_name,
        cpu_sockets: d.cpu_sockets,
        cpu_cores: d.cpu_cores,
        cpu_classes: d.cpu_classes,
        cpu_packages: d.cpu_packages,
        cpu_freq: d.cpu_freq,
        mem: metrics::mem::Mem {
            total: info.mem_total,
            commit_total: (info.mem_total + info.swap_total) as u64,
            ..a.data.mem
        },
        gpu_available: text::listed(info.has@, "gpu"@),
        battery_available: text::listed(info.has@, "battery"@),
        disks: d.disks,
        net_ifaces: d.net_ifaces,
        ..a.data
    })
    &&& d.host@ == info.name@
    &&& d.cpu_name@ == info.cpu_name@
    &&& b.hw_classes@ == per_core(info.classes@, info.cores)
    &&& b.hw_clusters@ == per_core(info.clusters@, info.cores)
    &&& d.cpu_sockets == (if info.sockets > 0 {
        info.sockets
    } else {
        1
    })
    &&& d.cpu_cores@ == zero_loads(info.cores as nat)
    &&& keeps_cores(a.order@, b.order@, a.data.cpu_freq@, d.cpu_freq@)
    &&& ordered(b, d, b.order@)
    &&& are_agent_disks(info.disks@, a.disks_disabled@, d.disks@)
    &&& are_agent_ifaces(info.ifaces@, a.net_disabled@, d.net_ifaces@)
}

/// A configured agent of which nothing has been received.
pub open spec fn is_new(r: Agent, key: Seq<char>, cfg: RemoteCfg) -> bool {
    &&& r.key@ == key
    &&& r.data.host@ == (if cfg.name@.len() == 0 {
        key
    } else {
        cfg.name@
    })
    &&& r.data.top_n == 5
    &&& exists|blank: MetricsData| #[trigger]
        metrics::is_empty(blank) && r.data == (MetricsData {
            host: r.data.host,
            top_n: 5,
            ..blank
        })
    &&& r.link.is_none()
    &&& r.info.is_none()
    &&& !r.online
    &&& !r.visible
    &&& !r.stale
    &&& r.offline_since.is_none()
    &&& r.net_disabled@ == cfg.net_disabled@
    &&& r.disks_disabled@ == cfg.disks_disabled@
    &&& r.group_pe == cfg.group_pe
    &&& r.hw_classes@.len() == 0
    &&& r.hw_clusters@.len() == 0
    &&& r.order@.len() == 0
}

/// `t` holds what `s` holds of each core, moved with the cores from the display
/// order `from` to the display order `to`. A list that is not of as many cores
/// as the old order stands in the agent's order, and one that is not of as many
/// cores as the new order stays as it is.
pub open spec fn keeps_cores<T>(from: Seq<usize>, to: Seq<usize>, s: Seq<T>, t: Seq<T>) -> bool {
    if s.len() != to.len() {
        t == s
    } else if s.len() == from.len() {
        crate::order::is_moved(s, from, to, t)
    } else {
        t == crate::order::arranged(s, to)
    }
}

/// Agent `b` is agent `a` after its cores were put in order anew: the loads and
/// the clocks move with their cores.
pub open spec fn regrouped(a: Agent, b: Agent, on: bool) -> bool {
    &&& ordered(b, b.data, b.order@)
    &&& keeps_cores(a.order@, b.order@, a.data.cpu_cores@, b.data.cpu_cores@)
    &&& keeps_cores(a.order@, b.order@, a.data.cpu_freq@, b.data.cpu_freq@)
    &&& b == (Agent {
        group_pe: on,
        order: b.order,
        data: MetricsData {
            cpu_classes: b.data.cpu_classes,
            cpu_packages: b.data.cpu_packages,
            cpu_cores: b.data.cpu_cores,
            cpu_freq: b.data.cpu_freq,
            ..a.data
        },
        ..a
    })
}

fn follow_cores<T: Copy>(v: &mut Vec<T>, from: &Vec<usize>, to: &Vec<usize>)
    requires
        crate::order::is_permutation(from@),
        crate::order::is_permutation(to@),
    ensures
        keeps_cores(from@, to@, old(v)@, final(v)@),
        forall|i: int| 0 <= i < final(v)@.len() ==> old(v)@.contains(#[trigger] final(v)@[i]),
{
    let ghost s = v@;
    if v.len() == to.len() {
        if v.len() == from.len() {
            *v = crate::order::move_items(v, from, to);
        } else {
            let mut r: Vec<T> = Vec::new();
            let mut i: usize = 0;
            while i < to.len()
                invariant
                    i <= to.len(),
                    to@.len() == v@.len(),
                    v@ == s,
                    crate::order::is_permutation(to@),
                    r@ == crate::order::arranged(v@, to@).take(i as int),
                decreases to.len() - i,
            {
                let k: usize = to[i];
                r.push(v[k]);
                i += 1;
            }
            assert(r@ =~= crate::order::arranged(s, to@));
            assert forall|i: int| 0 <= i < r@.len() implies s.contains(#[trigger] r@[i]) by {
                assert(r@[i] == s[to@[i] as int]);
            }
            *v = r;
        }
    } else {
        assert forall|i: int| 0 <= i < s.len() implies s.contains(#[trigger] s[i]) by {}
    }
}

/// Agent `b` is agent `a` after its interfaces and disks were switched.
pub open spec fn reswitched(a: Agent, b: Agent, net: Seq<String>, disks: Seq<String>) -> bool {
    &&& b.net_disabled@ == net
    &&& b.disks_disabled@ == disks
    &&& b.data.net_ifaces@ == net::switched(a.data.net_ifaces@, net)
    &&& b.data.disks@ == disks::switched(a.data.disks@, disks)
    &&& b == (Agent {
        net_disabled: b.net_disabled,
        disks_disabled: b.disks_disabled,
        data: MetricsData {
            net_ifaces: b.data.net_ifaces,
            disks: b.data.disks,
            ..a.data
        },
        ..a
    })
}

impl Agent {
    /// The order lists every core of the agent once.
    pub open spec fn wf(self) -> bool {
        crate::order::is_permutation(self.order@)
    }

    /// A configured agent of which nothing has been received.
    pub fn new(key: &str, cfg: &RemoteCfg) -> (r: Agent)
        ensures
            r.wf(),
            is_new(r, key@, *cfg),
    {
        let mut data: MetricsData = MetricsData::empty();
        let ghost blank = data;
        data.host = if text::chars_of(cfg.name.as_str()).len() == 0 {
            key.to_string()
        } else {
            cfg.name.clone()
        };
        data.top_n = 5;
        assert(metrics::is_empty(blank));
        Agent {
            key: key.to_string(),
            link: None,
            info: None,
            data,
            online: false,
            visible: false,
            stale: false,
            offline_since: None,
            net_disabled: text::copy_list(&cfg.net_disabled),
            disks_disabled: text::copy_list(&cfg.disks_disabled),
            group_pe: cfg.group_pe,
            hw_classes: Vec::new(),
            hw_clusters: Vec::new(),
            order: Vec::new(),
        }
    }

    /// Takes what the agent is.
    pub fn apply_info(&mut self, info: Info)
        requires
            old(self).wf(),
            info.mem_total + info.swap_total <= u64::MAX,
        ensures
            final(self).wf(),
            informed(*old(self), info, *final(self)),
    {
        self.data.host = info.name.clone();
        self.data.cpu_name = info.cpu_name.clone();
        self.hw_classes = bytes_per_core(&info.classes, info.cores);
        self.hw_clusters = bytes_per_core(&info.clusters, info.cores);
        self.data.cpu_sockets = if info.sockets > 0 {
            info.sockets
        } else {
            1
        };
        let mut loads: Vec<Single> = Vec::new();
        let mut i: usize = 0;
        while i < info.cores
            invariant
                i <= info.cores,
                loads@ == zero_loads(i as nat),
            decreases info.cores - i,
        {
            loads.push(Single::zero());
            i += 1;
        }
        self.data.cpu_cores = loads;
        let ghost none = self.data.cpu_cores@;
        self.rebuild_order();
        assert(self.data.cpu_cores@ =~= zero_loads(info.cores as nat)) by {
            assert forall|j: int| 0 <= j < self.data.cpu_cores@.len() implies #[trigger]
                self.data.cpu_cores@[j] == Single::zero() by {
                assert(none.contains(self.data.cpu_cores@[j]));
            }
        }
        self.data.mem.total = info.mem_total;
        self.data.mem.commit_total = info.mem_total + info.swap_total;
        self.data.gpu_available = text::list_contains(&info.has, "gpu");
        self.data.battery_available = text::list_contains(&info.has, "battery");
        self.data.disks = agent_disks(&info.disks, &self.disks_disabled);
        self.data.net_ifaces = agent_ifaces(&info.ifaces, &self.net_disabled);
        self.info = Some(info);
    }

    /// Sets the display order of the cores: as the agent reports them, or
    /// cluster by cluster with the faster cores first. The loads and the clocks
    /// move with their cores.
    pub fn rebuild_order(&mut self)
        requires
            old(self).wf(),
        ensures
            final(self).wf(),
            final(self).order@.len() == old(self).hw_classes@.len(),
            regrouped(*old(self), *final(self), old(self).group_pe),
            final(self).data.cpu_cores@.len() == old(self).data.cpu_cores@.len(),
            forall|i: int|
                0 <= i < final(self).data.cpu_cores@.len() ==> old(self).data.cpu_cores@.contains(
                    #[trigger] final(self).data.cpu_cores@[i],
                ),
    {
        let n: usize = self.hw_classes.len();
        let order: Vec<usize> = metrics::core_order(
            &self.hw_clusters,
            &self.hw_classes,
            n,
            self.group_pe,
        );
        self.data.cpu_classes = metrics::pick_bytes(&self.hw_classes, &order);
        self.data.cpu_packages = metrics::pick_bytes(&self.hw_clusters, &order);
        follow_cores(&mut self.data.cpu_cores, &self.order, &order);
        follow_cores(&mut self.data.cpu_freq, &self.order, &order);
        self.order = order;
    }

    /// Sets whether the faster cores come first.
    pub fn set_group_pe(&mut self, on: bool)
        requires
            old(self).wf(),
        ensures
            final(self).wf(),
            regrouped(*old(self), *final(self), on),
    {
        self.group_pe = on;
        self.rebuild_order();
    }

    /// Switches interfaces by name and disks by model; all are on where none
    /// would be.
    pub fn set_disabled(&mut self, net: &Vec<String>, disks: &Vec<String>)
        ensures
            reswitched(*old(self), *final(self), net@, disks@),
    {
        self.net_disabled = text::copy_list(net);
        self.disks_disabled = text::copy_list(disks);
        net::switch(&mut self.data.net_ifaces, net);
        let mut list: Vec<PhysicalDisk> = Vec::new();
        std::mem::swap(&mut list, &mut self.data.disks);
        self.data.disks = disks::with_disabled(list, disks);
    }

    /// Takes a snapshot, but for the totals, which need sums and products:
    /// returns the rates of the interfaces and of the disks that count, in
    /// the order of the snapshot.
    pub fn apply_snapshot(&mut self, s: Snapshot) -> (r: Counted)
        requires
            old(self).wf(),
            old(self).data.mem.total == 0 ==> s.mem.used + s.mem.avail <= u64::MAX,
            s.mem.used + s.mem.swap_used <= u64::MAX,
        ensures
            final(self).wf(),
            snapshotted(*old(self), s, *final(self)),
            r.net@ == net_counted(old(self).data.net_ifaces@, s.net@),
            r.disk@ == disk_counted(info_disks(old(self).info), old(self).data.disks@, s.disk@),
    {
        self.enter_cpu(&s.cpu);
        self.enter_mem(&s.mem);
        let net: Vec<(Double, Double)> = enter_net(&mut self.data.net_ifaces, &s.net);
        let disk: Vec<(Double, Double)> = match &self.info {
            Some(i) => enter_disks(&i.disks, &mut self.data.disks, &s.disk),
            None => {
                let none: Vec<DiskInfo> = Vec::new();
                enter_disks(&none, &mut self.data.disks, &s.disk)
            },
        };
        self.enter_gpu(s.gpu);
        self.data.battery = match &s.battery {
            Some(b) => Some(
                Battery {
                    level: b.level,
                    charging: b.charging,
                    on_ac: b.on_ac,
                    remaining_secs: b.remaining_secs,
                },
            ),
            None => None,
        };
        self.data.cpu_temp = pick_cpu_temp(&s.temp);
        self.data.load_avg = s.load;
        Counted { net, disk }
    }

    /// Takes the popup's material. `loads` holds what goes through each
    /// interface, received and sent together.
    pub fn apply_details(&mut self, det: Details, loads: &Vec<Double>)
        requires
            loads@.len() == old(self).data.net_ifaces@.len(),
        ensures
            details_entered(*old(self), det, loads@, *final(self)),
    {
        let ghost o = self.data;
        self.data.top_cpu = convert_procs(&det.top_cpu);
        self.data.top_mem = convert_procs(&det.top_mem);
        self.data.top_io = convert_procs(&det.top_io);
        self.data.drives = convert_drives(&det.drives);
        let root: usize = find_root(&self.data.drives);
        if root < self.data.drives.len() {
            self.data.disk_free = self.data.drives[root].free;
            self.data.disk_total = self.data.drives[root].total;
        }
        enter_ips(&mut self.data.net_ifaces, &det.ips);
        enter_ssids(&mut self.data.net_ifaces, &det.ssids);
        proof {
            lemma_ips_keep(o.net_ifaces@, det.ips@);
            lemma_ssids_keep(ips_entered(o.net_ifaces@, det.ips@), det.ssids@);
        }
        if let Some(b) = find_busiest(&self.data.net_ifaces, loads) {
            self.data.net_iface = self.data.net_ifaces[b].alias.clone();
            self.data.net_ip = self.data.net_ifaces[b].ip.clone();
        }
    }

    fn enter_cpu(&mut self, cpu: &CpuSample)
        requires
            old(self).wf(),
        ensures
            ({
                let o = old(self).data;
                let d = final(self).data;
                &&& d == (MetricsData {
                    cpu_total: cpu.total.clamped(),
                    cpu_system: cpu.sys,
                    cpu_user: cpu.user,
                    cpu_cores: d.cpu_cores,
                    cpu_freq: d.cpu_freq,
                    cpu_classes: d.cpu_classes,
                    cpu_packages: d.cpu_packages,
                    cpu_history: d.cpu_history,
                    ..o
                })
                &&& cpu_entered(old(self).order@, *cpu, o, d)
            }),
            *final(self) == (Agent { data: final(self).data, ..*old(self) }),
    {
        let total: Single = cpu.total.clamp_unit();
        self.data.cpu_total = total;
        self.data.cpu_system = cpu.sys;
        self.data.cpu_user = cpu.user;
        if cpu.cores.len() > 0 {
            let raw: Vec<Single> = number::clamp_all(&cpu.cores);
            self.data.cpu_cores = if self.order.len() == raw.len() {
                metrics::pick_loads(&raw, &self.order)
            } else {
                raw
            };
            self.data.cpu_freq = if self.order.len() == cpu.freq.len() {
                metrics::pick_clocks(&cpu.freq, &self.order)
            } else {
                copy_clocks(&cpu.freq)
            };
            if self.data.cpu_classes.len() != self.data.cpu_cores.len() {
                let n: usize = self.data.cpu_cores.len();
                self.data.cpu_classes = zero_bytes(n);
                self.data.cpu_packages = zero_bytes(n);
            }
        }
        metrics::push(&mut self.data.cpu_history, total);
    }

    fn enter_mem(&mut self, m: &MemSample)
        requires
            old(self).data.mem.total == 0 ==> m.used + m.avail <= u64::MAX,
            m.used + m.swap_used <= u64::MAX,
        ensures
            *final(self) == (Agent {
                data: MetricsData { mem: mem_entered(old(self).data.mem, *m), ..old(self).data },
                ..*old(self)
            }),
    {
        self.data.mem.used = m.used;
        if self.data.mem.total == 0 {
            self.data.mem.total = m.used + m.avail;
        }
        self.data.mem.commit_used = m.used + m.swap_used;
    }

    fn enter_gpu(&mut self, gpu: Option<GpuSample>)
        ensures
            ({
                let o = old(self).data;
                let d = final(self).data;
                &&& d == (MetricsData {
                    gpu: gpu_load(gpu),
                    vram_used: d.vram_used,
                    vram_total: d.vram_total,
                    vram_budget: d.vram_budget,
                    gpu_history: d.gpu_history,
                    ..o
                })
                &&& gpu_entered(gpu, o, d)
            }),
            *final(self) == (Agent { data: final(self).data, ..*old(self) }),
    {
        self.data.gpu = match gpu {
            Some(g) => Some(g.load.clamp_unit()),
            None => None,
        };
        if let Some(g) = gpu {
            self.data.vram_used = g.vram_used;
            self.data.vram_total = g.vram_total;
            self.data.vram_budget = g.vram_total;
        }
        let load: Single = match self.data.gpu {
            Some(v) => v,
            None => Single::zero(),
        };
        metrics::push(&mut self.data.gpu_history, load);
    }

    /// Enters the totals of a snapshot: the part of the memory in use, the
    /// rates of the counting interfaces and disks, and the bytes that went
    /// through since the last one.
    pub fn apply_totals(&mut self, t: Totals)
        requires
            old(self).data.net_total_rx + t.rx_bytes <= u64::MAX,
            old(self).data.net_total_tx + t.tx_bytes <= u64::MAX,
        ensures
            totals_entered(*old(self), t, *final(self)),
    {
        let pct: Single = if self.data.mem.total > 0 {
            t.mem_pct.clamp_unit()
        } else {
            Single::zero()
        };
        self.data.mem.pct = pct;
        metrics::push(&mut self.data.mem_history, pct);
        self.data.net_rx = t.rx;
        self.data.net_tx = t.tx;
        self.data.net_total_rx = self.data.net_total_rx + t.rx_bytes;
        self.data.net_total_tx = self.data.net_total_tx + t.tx_bytes;
        metrics::push(&mut self.data.net_history, metrics::narrow_pair(t.rx, t.tx));
        self.data.disk_read = t.read;
        self.data.disk_write = t.write;
        metrics::push(&mut self.data.disk_history, metrics::narrow_pair(t.read, t.write));
    }
}

/// The rates that count in a snapshot's totals: received and sent, read and
/// written.
pub struct Counted {
    pub net: Vec<(Double, Double)>,
    pub disk: Vec<(Double, Double)>,
}

/// The totals of a snapshot.
#[derive(Clone, Copy, Debug)]
pub struct Totals {
    pub mem_pct: Single,
    pub rx: Double,
    pub tx: Double,
    pub rx_bytes: u64,
    pub tx_bytes: u64,
    pub read: Double,
    pub write: Double,
}

// ---------------------------------------------------------------------------
// Snapshots

/// The agent after the totals of a snapshot.
pub open spec fn totals_entered(a: Agent, t: Totals, b: Agent) -> bool {
    let o = a.data;
    let d = b.data;
    &&& d == (MetricsData {
        mem: metrics::mem::Mem {
            pct: if o.mem.total > 0 {
                t.mem_pct.clamped()
            } else {
                Single::zero()
            },
            ..o.mem
        },
        mem_history: d.mem_history,
        net_rx: t.rx,
        net_tx: t.tx,
        net_total_rx: (o.net_total_rx + t.rx_bytes) as u64,
        net_total_tx: (o.net_total_tx + t.tx_bytes) as u64,
        net_history: d.net_history,
        disk_read: t.read,
        disk_write: t.write,
        disk_history: d.disk_history,
        ..o
    })
    &&& d.mem_history@ == metrics::pushed(o.mem_history@, d.mem.pct)
    &&& d.net_history@ == metrics::pushed(o.net_history@, metrics::narrowed_pair(t.rx, t.tx))
    &&& d.disk_history@ == metrics::pushed(
        o.disk_history@,
        metrics::narrowed_pair(t.read, t.write),
    )
    &&& b == (Agent { data: d, ..a })
}

fn copy_clocks(v: &Vec<u32>) -> (r: Vec<u32>)
    ensures
        r@ == v@,
{
    let mut r: Vec<u32> = Vec::new();
    let mut i: usize = 0;
    while i < v.len()
        invariant
            i <= v.len(),
            r@ == v@.take(i as int),
        decreases v.len() - i,
    {
        r.push(v[i]);
        i += 1;
    }
    r
}

pub open spec fn zeros(n: nat) -> Seq<u8> {
    Seq::new(n, |i: int| 0u8)
}

fn zero_bytes(n: usize) -> (r: Vec<u8>)
    ensures
        r@ == zeros(n as nat),
{
    let mut r: Vec<u8> = Vec::new();
    let mut i: usize = 0;
    while i < n
        invariant
            i <= n,
            r@ == zeros(i as nat),
        decreases n - i,
    {
        r.push(0);
        i += 1;
    }
    r
}

/// The position of the first interface with a name, or the number of them.
pub open spec fn iface_at(ifaces: Seq<NetIface>, id: Seq<char>) -> int
    decreases ifaces.len(),
{
    if ifaces.len() == 0 || ifaces[0].alias@ == id {
        0
    } else {
        1 + iface_at(ifaces.skip(1), id)
    }
}

proof fn lemma_iface_at(ifaces: Seq<NetIface>, id: Seq<char>, k: int)
    requires
        0 <= k <= ifaces.len(),
        forall|j: int| 0 <= j < k ==> (#[trigger] ifaces[j]).alias@ != id,
        k < ifaces.len() ==> ifaces[k].alias@ == id,
    ensures
        iface_at(ifaces, id) == k,
    decreases ifaces.len(),
{
    if k > 0 {
        assert(ifaces[0].alias@ != id);
        assert forall|j: int| 0 <= j < k - 1 implies (#[trigger] ifaces.skip(1)[j]).alias@ != id by {
            assert(ifaces.skip(1)[j] == ifaces[j + 1]);
        }
        lemma_iface_at(ifaces.skip(1), id, k - 1);
    }
}

fn find_iface(ifaces: &Vec<NetIface>, id: &str) -> (r: usize)
    ensures
        r == iface_at(ifaces@, id@),
        r <= ifaces@.len(),
{
    let mut k: usize = 0;
    while k < ifaces.len() && !text::same(ifaces[k].alias.as_str(), id)
        invariant
            k <= ifaces.len(),
            forall|j: int| 0 <= j < k ==> (#[trigger] ifaces@[j]).alias@ != id@,
        decreases ifaces.len() - k,
    {
        k += 1;
    }
    proof {
        lemma_iface_at(ifaces@, id@, k as int);
    }
    k
}

/// The interfaces with the rates of a snapshot entered.
pub open spec fn net_entered(ifaces: Seq<NetIface>, samples: Seq<NetSample>) -> Seq<NetIface>
    decreases samples.len(),
{
    if samples.len() == 0 {
        ifaces
    } else {
        let l = net_entered(ifaces, samples.drop_last());
        let n = samples.last();
        let k = iface_at(l, n.id@);
        if k < l.len() {
            l.update(k, NetIface { rx_bps: n.rx, tx_bps: n.tx, up: n.up, ..l[k] })
        } else {
            l
        }
    }
}

/// The rates of a snapshot that are of interfaces that count.
pub open spec fn net_counted(ifaces: Seq<NetIface>, samples: Seq<NetSample>) -> Seq<(Double, Double)>
    decreases samples.len(),
{
    if samples.len() == 0 {
        Seq::empty()
    } else {
        let rest = net_counted(ifaces, samples.drop_last());
        let l = net_entered(ifaces, samples.drop_last());
        let n = samples.last();
        let k = iface_at(l, n.id@);
        if k < l.len() && l[k].enabled {
            rest.push((n.rx, n.tx))
        } else {
            rest
        }
    }
}

fn enter_net(ifaces: &mut Vec<NetIface>, samples: &Vec<NetSample>) -> (r: Vec<(Double, Double)>)
    ensures
        final(ifaces)@ == net_entered(old(ifaces)@, samples@),
        r@ == net_counted(old(ifaces)@, samples@),
{
    let ghost l0 = ifaces@;
    let mut r: Vec<(Double, Double)> = Vec::new();
    let mut i: usize = 0;
    assert(samples@.take(0) =~= Seq::<NetSample>::empty());
    while i < samples.len()
        invariant
            i <= samples.len(),
            ifaces@ == net_entered(l0, samples@.take(i as int)),
            r@ == net_counted(l0, samples@.take(i as int)),
        decreases samples.len() - i,
    {
        assert(samples@.take(i + 1).drop_last() =~= samples@.take(i as int));
        assert(samples@.take(i + 1).last() == samples@[i as int]);
        let n: &NetSample = &samples[i];
        let k: usize = find_iface(ifaces, n.id.as_str());
        let ghost before = ifaces@;
        if k < ifaces.len() {
            ifaces[k].rx_bps = n.rx;
            ifaces[k].tx_bps = n.tx;
            ifaces[k].up = n.up;
            assert(ifaces@ =~= before.update(
                k as int,
                NetIface { rx_bps: n.rx, tx_bps: n.tx, up: n.up, ..before[k as int] },
            ));
            if ifaces[k].enabled {
                r.push((n.rx, n.tx));
            }
        }
        i += 1;
    }
    assert(samples@.take(samples@.len() as int) =~= samples@);
    r
}

/// The position of the first disk with an id, or the number of them.
pub open spec fn disk_id_at(list: Seq<DiskInfo>, id: Seq<char>) -> int
    decreases list.len(),
{
    if list.len() == 0 || list[0].id@ == id {
        0
    } else {
        1 + disk_id_at(list.skip(1), id)
    }
}

proof fn lemma_disk_id_at(list: Seq<DiskInfo>, id: Seq<char>, k: int)
    requires
        0 <= k <= list.len(),
        forall|j: int| 0 <= j < k ==> (#[trigger] list[j]).id@ != id,
        k < list.len() ==> list[k].id@ == id,
    ensures
        disk_id_at(list, id) == k,
    decreases list.len(),
{
    if k > 0 {
        assert(list[0].id@ != id);
        assert forall|j: int| 0 <= j < k - 1 implies (#[trigger] list.skip(1)[j]).id@ != id by {
            assert(list.skip(1)[j] == list[j + 1]);
        }
        lemma_disk_id_at(list.skip(1), id, k - 1);
    }
}

/// The disks that the agent has told of.
pub open spec fn info_disks(info: Option<Info>) -> Seq<DiskInfo> {
    match info {
        Some(i) => i.disks@,
        None => Seq::empty(),
    }
}

/// The disks with the rates of a snapshot entered: each at the position that
/// its id has in the agent's list.
pub open spec fn disks_entered(
    list: Seq<DiskInfo>,
    disks: Seq<PhysicalDisk>,
    samples: Seq<DiskSample>,
) -> Seq<PhysicalDisk>
    decreases samples.len(),
{
    if samples.len() == 0 {
        disks
    } else {
        let d = disks_entered(list, disks, samples.drop_last());
        let x = samples.last();
        let k = disk_id_at(list, x.id@);
        if k < list.len() && k < d.len() {
            d.update(k, PhysicalDisk { read_bps: x.r, write_bps: x.w, ..d[k] })
        } else {
            d
        }
    }
}

/// The rates of a snapshot that are of disks that count.
pub open spec fn disk_counted(
    list: Seq<DiskInfo>,
    disks: Seq<PhysicalDisk>,
    samples: Seq<DiskSample>,
) -> Seq<(Double, Double)>
    decreases samples.len(),
{
    if samples.len() == 0 {
        Seq::empty()
    } else {
        let rest = disk_counted(list, disks, samples.drop_last());
        let d = disks_entered(list, disks, samples.drop_last());
        let x = samples.last();
        let k = disk_id_at(list, x.id@);
        if k < list.len() && k < d.len() && d[k].enabled {
            rest.push((x.r, x.w))
        } else {
            rest
        }
    }
}

fn enter_disks(list: &Vec<DiskInfo>, disks: &mut Vec<PhysicalDisk>, samples: &Vec<DiskSample>) -> (r:
    Vec<(Double, Double)>)
    ensures
        final(disks)@ == disks_entered(list@, old(disks)@, samples@),
        r@ == disk_counted(list@, old(disks)@, samples@),
{
    let ghost d0 = disks@;
    let mut r: Vec<(Double, Double)> = Vec::new();
    let mut i: usize = 0;
    assert(samples@.take(0) =~= Seq::<DiskSample>::empty());
    while i < samples.len()
        invariant
            i <= samples.len(),
            disks@ == disks_entered(list@, d0, samples@.take(i as int)),
            r@ == disk_counted(list@, d0, samples@.take(i as int)),
        decreases samples.len() - i,
    {
        assert(samples@.take(i + 1).drop_last() =~= samples@.take(i as int));
        assert(samples@.take(i + 1).last() == samples@[i as int]);
        let x: &DiskSample = &samples[i];
        let mut k: usize = 0;
        while k < list.len() && !text::same(list[k].id.as_str(), x.id.as_str())
            invariant
                k <= list.len(),
                forall|j: int| 0 <= j < k ==> (#[trigger] list@[j]).id@ != x.id@,
            decreases list.len() - k,
        {
            k += 1;
        }
        proof {
            lemma_disk_id_at(list@, x.id@, k as int);
        }
        let ghost before = disks@;
        if k < list.len() && k < disks.len() {
            disks[k].read_bps = x.r;
            disks[k].write_bps = x.w;
            assert(disks@ =~= before.update(
                k as int,
                PhysicalDisk { read_bps: x.r, write_bps: x.w, ..before[k as int] },
            ));
            if disks[k].enabled {
                r.push((x.r, x.w));
            }
        }
        i += 1;
    }
    assert(samples@.take(samples@.len() as int) =~= samples@);
    r
}

/// The loads shown after a snapshot with loads in it.
pub open spec fn loads_after(order: Seq<usize>, cores: Seq<Single>) -> Seq<Single> {
    if order.len() == cores.len() {
        metrics::loads_at(number::clamped_all(cores), order)
    } else {
        number::clamped_all(cores)
    }
}

/// The clocks shown after a snapshot with loads in it.
pub open spec fn clocks_after(order: Seq<usize>, freq: Seq<u32>) -> Seq<u32> {
    if order.len() == freq.len() {
        metrics::clocks_at(freq, order)
    } else {
        freq
    }
}

pub open spec fn battery_of(b: Option<BatterySample>) -> Option<Battery> {
    match b {
        Some(x) => Some(
            Battery {
                level: x.level,
                charging: x.charging,
                on_ac: x.on_ac,
                remaining_secs: x.remaining_secs,
            },
        ),
        None => None,
    }
}

/// The loads, clocks and classes after a snapshot: only one with loads in it
/// changes them, and classes that are not of as many cores are forgotten.
pub open spec fn cpu_entered(
    order: Seq<usize>,
    cpu: CpuSample,
    o: MetricsData,
    d: MetricsData,
) -> bool {
    &&& d.cpu_history@ == metrics::pushed(o.cpu_history@, d.cpu_total)
    &&& if cpu.cores@.len() == 0 {
        &&& d.cpu_cores == o.cpu_cores
        &&& d.cpu_freq == o.cpu_freq
        &&& d.cpu_classes == o.cpu_classes
        &&& d.cpu_packages == o.cpu_packages
    } else {
        &&& d.cpu_cores@ == loads_after(order, cpu.cores@)
        &&& d.cpu_freq@ == clocks_after(order, cpu.freq@)
        &&& if o.cpu_classes@.len() == cpu.cores@.len() {
            d.cpu_classes == o.cpu_classes && d.cpu_packages == o.cpu_packages
        } else {
            &&& d.cpu_classes@ == zeros(cpu.cores@.len())
            &&& d.cpu_packages@ == zeros(cpu.cores@.len())
        }
    }
}

/// The memory after a snapshot; a total that is not known is what is used and
/// what is available.
pub open spec fn mem_entered(o: metrics::mem::Mem, m: MemSample) -> metrics::mem::Mem {
    metrics::mem::Mem {
        used: m.used,
        total: if o.total == 0 {
            (m.used + m.avail) as u64
        } else {
            o.total
        },
        commit_used: (m.used + m.swap_used) as u64,
        ..o
    }
}

pub open spec fn gpu_load(gpu: Option<GpuSample>) -> Option<Single> {
    match gpu {
        Some(g) => Some(g.load.clamped()),
        None => None,
    }
}

/// The GPU's memory and history after a snapshot.
pub open spec fn gpu_entered(gpu: Option<GpuSample>, o: MetricsData, d: MetricsData) -> bool {
    &&& match gpu {
        Some(g) => {
            &&& d.vram_used == g.vram_used
            &&& d.vram_total == g.vram_total
            &&& d.vram_budget == g.vram_total
        },
        None => {
            &&& d.vram_used == o.vram_used
            &&& d.vram_total == o.vram_total
            &&& d.vram_budget == o.vram_budget
        },
    }
    &&& d.gpu_history@ == metrics::pushed(
        o.gpu_history@,
        match d.gpu {
            Some(v) => v,
            None => Single::zero(),
        },
    )
}

/// The agent after a snapshot, but for the totals.
pub open spec fn snapshotted(a: Agent, s: Snapshot, b: Agent) -> bool {
    let o = a.data;
    let d = b.data;
    &&& b == (Agent { data: d, ..a })
    &&& d == (MetricsData {
        cpu_total: s.cpu.total.clamped(),
        cpu_system: s.cpu.sys,
        cpu_user: s.cpu.user,
        cpu_cores: d.cpu_cores,
        cpu_freq: d.cpu_freq,
        cpu_classes: d.cpu_classes,
        cpu_packages: d.cpu_packages,
        cpu_history: d.cpu_history,
        mem: mem_entered(o.mem, s.mem),
        net_ifaces: d.net_ifaces,
        disks: d.disks,
        gpu: gpu_load(s.gpu),
        vram_used: d.vram_used,
        vram_total: d.vram_total,
        vram_budget: d.vram_budget,
        gpu_history: d.gpu_history,
        battery: battery_of(s.battery),
        cpu_temp: d.cpu_temp,
        load_avg: s.load,
        ..o
    })
    &&& cpu_entered(a.order@, s.cpu, o, d)
    &&& d.net_ifaces@ == net_entered(o.net_ifaces@, s.net@)
    &&& d.disks@ == disks_entered(info_disks(a.info), o.disks@, s.disk@)
    &&& gpu_entered(s.gpu, o, d)
    &&& is_cpu_temp(s.temp@, d.cpu_temp)
}

// ---------------------------------------------------------------------------
// Details

pub open spec fn proc_of(p: ProcSample) -> ProcInfo {
    ProcInfo { pid: p.pid, name: p.name, cpu: p.cpu, mem: p.mem, io: p.io }
}

pub open spec fn procs_of(s: Seq<ProcSample>) -> Seq<ProcInfo> {
    s.map_values(|p: ProcSample| proc_of(p))
}

fn convert_procs(v: &Vec<ProcSample>) -> (r: Vec<ProcInfo>)
    ensures
        r@ == procs_of(v@),
{
    let mut r: Vec<ProcInfo> = Vec::new();
    let mut i: usize = 0;
    while i < v.len()
        invariant
            i <= v.len(),
            r@ == procs_of(v@).take(i as int),
        decreases v.len() - i,
    {
        r.push(
            ProcInfo {
                pid: v[i].pid,
                name: v[i].name.clone(),
                cpu: v[i].cpu,
                mem: v[i].mem,
                io: v[i].io,
            },
        );
        i += 1;
    }
    r
}

/// The agent after the popup's material.
pub open spec fn details_entered(a: Agent, det: Details, loads: Seq<Double>, b: Agent) -> bool {
    let o = a.data;
    let d = b.data;
    &&& d.top_cpu@ == procs_of(det.top_cpu@)
    &&& d.top_mem@ == procs_of(det.top_mem@)
    &&& d.top_io@ == procs_of(det.top_io@)
    &&& are_drives(det.drives@, d.drives@)
    &&& root_entered(o, d)
    &&& d.net_ifaces@ == ssids_entered(ips_entered(o.net_ifaces@, det.ips@), det.ssids@)
    &&& busiest_entered(o, loads, d)
    &&& d == (MetricsData {
        top_cpu: d.top_cpu,
        top_mem: d.top_mem,
        top_io: d.top_io,
        drives: d.drives,
        disk_free: d.disk_free,
        disk_total: d.disk_total,
        net_ifaces: d.net_ifaces,
        net_iface: d.net_iface,
        net_ip: d.net_ip,
        ..o
    })
    &&& b == (Agent { data: d, ..a })
}

/// `d` is a drive of an agent.
pub open spec fn is_agent_drive(v: DriveSample, d: Drive) -> bool {
    &&& d.name@ == v.id@
    &&& d.label@ == v.label@
    &&& d.kind@ == known_kind(v.kind@)
    &&& d.fs@ == v.fs@
    &&& d.readonly == v.readonly
    &&& d.free == v.free
    &&& d.total == v.total
}

pub open spec fn are_drives(list: Seq<DriveSample>, r: Seq<Drive>) -> bool {
    &&& r.len() == list.len()
    &&& forall|i: int| 0 <= i < list.len() ==> is_agent_drive(list[i], #[trigger] r[i])
}

fn convert_drives(v: &Vec<DriveSample>) -> (r: Vec<Drive>)
    ensures
        are_drives(v@, r@),
{
    let mut r: Vec<Drive> = Vec::new();
    let mut i: usize = 0;
    while i < v.len()
        invariant
            i <= v.len(),
            r@.len() == i,
            forall|j: int| 0 <= j < i ==> is_agent_drive(v@[j], #[trigger] r@[j]),
        decreases v.len() - i,
    {
        r.push(
            Drive {
                name: v[i].id.clone(),
                label: v[i].label.clone(),
                kind: kind_static(v[i].kind.as_str()),
                fs: v[i].fs.clone(),
                readonly: v[i].readonly,
                free: v[i].free,
                total: v[i].total,
            },
        );
        i += 1;
    }
    r
}

/// The name of a system's own drive.
pub open spec fn is_root_name(name: Seq<char>) -> bool {
    name == "/"@ || text::lower(name) == "c:"@
}

/// `k` is the drive whose space the widget shows: the first with the name of
/// a system's own drive, or the first of all.
pub open spec fn is_root(drives: Seq<Drive>, k: int) -> bool {
    &&& 0 <= k < drives.len()
    &&& if is_root_name(drives[k].name@) {
        forall|j: int| 0 <= j < k ==> !is_root_name((#[trigger] drives[j]).name@)
    } else {
        k == 0 && forall|j: int| 0 <= j < drives.len() ==> !is_root_name((#[trigger] drives[j]).name@)
    }
}

pub open spec fn root_entered(o: MetricsData, d: MetricsData) -> bool {
    if d.drives@.len() == 0 {
        d.disk_free == o.disk_free && d.disk_total == o.disk_total
    } else {
        exists|k: int| #[trigger]
            is_root(d.drives@, k) && d.disk_free == d.drives@[k].free && d.disk_total
                == d.drives@[k].total
    }
}

fn find_root(drives: &Vec<Drive>) -> (r: usize)
    ensures
        drives@.len() == 0 ==> r >= drives@.len(),
        drives@.len() > 0 ==> is_root(drives@, r as int),
{
    let mut i: usize = 0;
    while i < drives.len()
        invariant
            i <= drives.len(),
            forall|j: int| 0 <= j < i ==> !is_root_name((#[trigger] drives@[j]).name@),
        decreases drives.len() - i,
    {
        let low: String = text::ascii_lower(drives[i].name.as_str());
        if text::same(drives[i].name.as_str(), "/") || text::same(low.as_str(), "c:") {
            return i;
        }
        i += 1;
    }
    0
}

/// The interfaces with addresses entered by name.
pub open spec fn ips_entered(ifaces: Seq<NetIface>, ips: Seq<(String, String)>) -> Seq<NetIface>
    decreases ips.len(),
{
    if ips.len() == 0 {
        ifaces
    } else {
        let l = ips_entered(ifaces, ips.drop_last());
        let k = iface_at(l, ips.last().0@);
        if k < l.len() {
            l.update(k, NetIface { ip: ips.last().1, ..l[k] })
        } else {
            l
        }
    }
}

/// The interfaces with Wi-Fi networks entered by name.
pub open spec fn ssids_entered(ifaces: Seq<NetIface>, ssids: Seq<(String, String)>) -> Seq<NetIface>
    decreases ssids.len(),
{
    if ssids.len() == 0 {
        ifaces
    } else {
        let l = ssids_entered(ifaces, ssids.drop_last());
        let k = iface_at(l, ssids.last().0@);
        if k < l.len() {
            l.update(k, NetIface { ssid: ssids.last().1, ..l[k] })
        } else {
            l
        }
    }
}

proof fn lemma_iface_at_bound(ifaces: Seq<NetIface>, id: Seq<char>)
    ensures
        0 <= iface_at(ifaces, id) <= ifaces.len(),
    decreases ifaces.len(),
{
    if ifaces.len() > 0 && ifaces[0].alias@ != id {
        lemma_iface_at_bound(ifaces.skip(1), id);
    }
}

proof fn lemma_ips_keep(ifaces: Seq<NetIface>, ips: Seq<(String, String)>)
    ensures
        ips_entered(ifaces, ips).len() == ifaces.len(),
    decreases ips.len(),
{
    if ips.len() > 0 {
        lemma_ips_keep(ifaces, ips.drop_last());
        lemma_iface_at_bound(ips_entered(ifaces, ips.drop_last()), ips.last().0@);
    }
}

proof fn lemma_ssids_keep(ifaces: Seq<NetIface>, ssids: Seq<(String, String)>)
    ensures
        ssids_entered(ifaces, ssids).len() == ifaces.len(),
    decreases ssids.len(),
{
    if ssids.len() > 0 {
        lemma_ssids_keep(ifaces, ssids.drop_last());
        lemma_iface_at_bound(ssids_entered(ifaces, ssids.drop_last()), ssids.last().0@);
    }
}

fn enter_ips(ifaces: &mut Vec<NetIface>, ips: &Vec<(String, String)>)
    ensures
        final(ifaces)@ == ips_entered(old(ifaces)@, ips@),
{
    let ghost l0 = ifaces@;
    let mut i: usize = 0;
    assert(ips@.take(0) =~= Seq::<(String, String)>::empty());
    while i < ips.len()
        invariant
            i <= ips.len(),
            ifaces@ == ips_entered(l0, ips@.take(i as int)),
        decreases ips.len() - i,
    {
        assert(ips@.take(i + 1).drop_last() =~= ips@.take(i as int));
        assert(ips@.take(i + 1).last() == ips@[i as int]);
        let k: usize = find_iface(ifaces, ips[i].0.as_str());
        let ghost before = ifaces@;
        if k < ifaces.len() {
            ifaces[k].ip = ips[i].1.clone();
            assert(ifaces@ =~= before.update(
                k as int,
                NetIface { ip: ips@[i as int].1, ..before[k as int] },
            ));
        }
        i += 1;
    }
    assert(ips@.take(ips@.len() as int) =~= ips@);
}

fn enter_ssids(ifaces: &mut Vec<NetIface>, ssids: &Vec<(String, String)>)
    ensures
        final(ifaces)@ == ssids_entered(old(ifaces)@, ssids@),
{
    let ghost l0 = ifaces@;
    let mut i: usize = 0;
    assert(ssids@.take(0) =~= Seq::<(String, String)>::empty());
    while i < ssids.len()
        invariant
            i <= ssids.len(),
            ifaces@ == ssids_entered(l0, ssids@.take(i as int)),
        decreases ssids.len() - i,
    {
        assert(ssids@.take(i + 1).drop_last() =~= ssids@.take(i as int));
        assert(ssids@.take(i + 1).last() == ssids@[i as int]);
        let k: usize = find_iface(ifaces, ssids[i].0.as_str());
        let ghost before = ifaces@;
        if k < ifaces.len() {
            ifaces[k].ssid = ssids[i].1.clone();
            assert(ifaces@ =~= before.update(
                k as int,
                NetIface { ssid: ssids@[i as int].1, ..before[k as int] },
            ));
        }
        i += 1;
    }
    assert(ssids@.take(ssids@.len() as int) =~= ssids@);
}

/// The interface that leads among the first `n`: of those that are on and
/// connected, each takes the place of the one before unless less goes through
/// it.
pub open spec fn leader(ifaces: Seq<NetIface>, loads: Seq<Double>, n: int) -> Option<int>
    decreases n,
{
    if n <= 0 {
        None
    } else {
        let before = leader(ifaces, loads, n - 1);
        if !(ifaces[n - 1].enabled && ifaces[n - 1].up) {
            before
        } else {
            match before {
                Some(b) => if loads[n - 1].lt(loads[b]) {
                    Some(b)
                } else {
                    Some(n - 1)
                },
                None => Some(n - 1),
            }
        }
    }
}

/// The title names the leading interface and its address; it keeps what it
/// named where no interface is connected and on.
pub open spec fn busiest_entered(o: MetricsData, loads: Seq<Double>, d: MetricsData) -> bool {
    match leader(d.net_ifaces@, loads, d.net_ifaces@.len() as int) {
        None => d.net_iface == o.net_iface && d.net_ip == o.net_ip,
        Some(b) => d.net_iface@ == d.net_ifaces@[b].alias@ && d.net_ip@ == d.net_ifaces@[b].ip@,
    }
}

fn find_busiest(ifaces: &Vec<NetIface>, loads: &Vec<Double>) -> (r: Option<usize>)
    requires
        loads@.len() == ifaces@.len(),
    ensures
        match r {
            Some(b) => b < ifaces@.len() && leader(ifaces@, loads@, ifaces@.len() as int) == Some(
                b as int,
            ),
            None => leader(ifaces@, loads@, ifaces@.len() as int).is_none(),
        },
{
    let mut best: Option<usize> = None;
    let mut i: usize = 0;
    while i < ifaces.len()
        invariant
            i <= ifaces.len(),
            loads@.len() == ifaces@.len(),
            match best {
                Some(b) => b < i && leader(ifaces@, loads@, i as int) == Some(b as int),
                None => leader(ifaces@, loads@, i as int).is_none(),
            },
        decreases ifaces.len() - i,
    {
        if ifaces[i].enabled && ifaces[i].up {
            match best {
                None => {
                    best = Some(i);
                },
                Some(b) => {
                    if !loads[i].less(loads[b]) {
                        best = Some(i);
                    }
                },
            }
        }
        i += 1;
    }
    best
}

/// Where every load is a number, the leading interface is one through which no
/// less goes than through any other that is on and connected, and it is the
/// last such one; there is a leader where any is on and connected.
pub proof fn law_leader_is_busiest(ifaces: Seq<NetIface>, loads: Seq<Double>, n: int)
    requires
        0 <= n <= ifaces.len(),
        loads.len() == ifaces.len(),
        forall|i: int| 0 <= i < loads.len() ==> !(#[trigger] loads[i]).nan(),
    ensures
        match leader(ifaces, loads, n) {
            None => forall|i: int|
                0 <= i < n ==> !((#[trigger] ifaces[i]).enabled && ifaces[i].up),
            Some(b) => {
                &&& 0 <= b < n
                &&& ifaces[b].enabled && ifaces[b].up
                &&& forall|i: int|
                    0 <= i < n && (#[trigger] ifaces[i]).enabled && ifaces[i].up ==> !loads[b].lt(
                        loads[i],
                    ) && (i > b ==> loads[i].lt(loads[b]))
            },
        },
    decreases n,
{
    if n > 0 {
        law_leader_is_busiest(ifaces, loads, n - 1);
    }
}

// ---------------------------------------------------------------------------
// What is switched on

/// Something of the machine counts: an interface where it has any, and a disk
/// where it has any.
pub open spec fn one_on(d: MetricsData) -> bool {
    &&& d.net_ifaces@.len() > 0 ==> exists|i: int|
        0 <= i < d.net_ifaces@.len() && (#[trigger] d.net_ifaces@[i]).enabled
    &&& d.disks@.len() > 0 ==> exists|i: int|
        0 <= i < d.disks@.len() && (#[trigger] d.disks@[i]).enabled
}

/// A machine that has told what it is, whatever the user has switched off
/// before, has an interface and a disk that count.
pub proof fn law_told_machine_counts(a: Agent, info: Info, b: Agent)
    requires
        informed(a, info, b),
    ensures
        one_on(b.data),
{
    if b.data.net_ifaces@.len() > 0 {
        let base = choose|base: Seq<NetIface>|
            b.data.net_ifaces@ == #[trigger] net::switched(base, a.net_disabled@) && base.len()
                == info.ifaces@.len() && forall|i: int|
                0 <= i < info.ifaces@.len() ==> is_agent_iface(info.ifaces@[i], #[trigger] base[i]);
        net::law_one_interface_stays_on(base, a.net_disabled@);
    }
    if b.data.disks@.len() > 0 {
        let base = choose|base: Seq<PhysicalDisk>|
            b.data.disks@ == #[trigger] disks::switched(base, a.disks_disabled@) && base.len()
                == info.disks@.len() && forall|i: int|
                0 <= i < info.disks@.len() ==> is_agent_disk(info.disks@[i], i, #[trigger] base[i]);
        disks::law_one_disk_stays_on(base, a.disks_disabled@);
    }
}

/// However the user switches a machine's interfaces and disks, one of each
/// counts where there are any.
pub proof fn law_switched_machine_counts(a: Agent, b: Agent, net: Seq<String>, disks: Seq<String>)
    requires
        reswitched(a, b, net, disks),
    ensures
        one_on(b.data),
{
    if a.data.net_ifaces@.len() > 0 {
        net::law_one_interface_stays_on(a.data.net_ifaces@, net);
    }
    if a.data.disks@.len() > 0 {
        disks::law_one_disk_stays_on(a.data.disks@, disks);
    }
}

proof fn lemma_iface_at_counts(ifaces: Seq<NetIface>, id: Seq<char>)
    ensures
        iface_at(ifaces, id) >= 0,
    decreases ifaces.len(),
{
    if ifaces.len() > 0 {
        lemma_iface_at_counts(ifaces.skip(1), id);
    }
}

proof fn lemma_disk_id_at_counts(list: Seq<DiskInfo>, id: Seq<char>)
    ensures
        disk_id_at(list, id) >= 0,
    decreases list.len(),
{
    if list.len() > 0 {
        lemma_disk_id_at_counts(list.skip(1), id);
    }
}

proof fn lemma_net_entered(ifaces: Seq<NetIface>, samples: Seq<NetSample>)
    ensures
        net_entered(ifaces, samples).len() == ifaces.len(),
        forall|i: int|
            0 <= i < ifaces.len() ==> {
                let n = #[trigger] net_entered(ifaces, samples)[i];
                n.enabled == ifaces[i].enabled && n.alias == ifaces[i].alias
            },
    decreases samples.len(),
{
    if samples.len() > 0 {
        lemma_net_entered(ifaces, samples.drop_last());
        lemma_iface_at_counts(net_entered(ifaces, samples.drop_last()), samples.last().id@);
    }
}

proof fn lemma_disks_entered(list: Seq<DiskInfo>, disks: Seq<PhysicalDisk>, samples: Seq<DiskSample>)
    ensures
        disks_entered(list, disks, samples).len() == disks.len(),
        forall|i: int|
            0 <= i < disks.len() ==> {
                let d = #[trigger] disks_entered(list, disks, samples)[i];
                d.enabled == disks[i].enabled && d.model == disks[i].model
            },
    decreases samples.len(),
{
    if samples.len() > 0 {
        lemma_disks_entered(list, disks, samples.drop_last());
        lemma_disk_id_at_counts(list, samples.last().id@);
    }
}

/// However the cores are grouped anew, what is shown of each core is what the
/// agent reported of it: loads that stood in display order stand in the new one,
/// and without grouping they stand as the agent reports them.
pub proof fn law_loads_stay_with_their_cores(a: Agent, raw: Seq<Single>, b: Agent, on: bool)
    requires
        a.wf(),
        a.order@.len() == raw.len(),
        a.hw_classes@.len() == raw.len(),
        a.data.cpu_cores@ == metrics::loads_at(raw, a.order@),
        regrouped(a, b, on),
    ensures
        b.data.cpu_cores@ == metrics::loads_at(raw, b.order@),
        !on ==> b.data.cpu_cores@ == raw,
{
    let (from, to) = (a.order@, b.order@);
    let n = raw.len();
    assert(a.order.len() == n);
    assert(to.len() == n);
    assert forall|i: int| 0 <= i < n implies #[trigger] b.data.cpu_cores@[i] == raw[to[i] as int]
        && to[i] < n by {
        assert(to[i] < n);
        crate::order::lemma_permutation_covers(from, to[i] as int);
        let j = choose|w: int| 0 <= w < from.len() && from[w] == to[i];
        assert(from[j] == to[i]);
        assert(b.data.cpu_cores@[i] == a.data.cpu_cores@[j]);
    }
    assert(b.data.cpu_cores@ =~= metrics::loads_at(raw, to));
    if !on {
        assert(b.data.cpu_cores@ =~= raw);
    }
}

/// A sample changes neither which interfaces and disks there are nor which of
/// them count.
pub proof fn law_samples_keep_switches(a: Agent, s: Snapshot, b: Agent)
    requires
        snapshotted(a, s, b),
    ensures
        b.data.net_ifaces@.len() == a.data.net_ifaces@.len(),
        forall|i: int|
            0 <= i < a.data.net_ifaces@.len() ==> {
                let n = #[trigger] b.data.net_ifaces@[i];
                n.enabled == a.data.net_ifaces@[i].enabled && n.alias
                    == a.data.net_ifaces@[i].alias
            },
        b.data.disks@.len() == a.data.disks@.len(),
        forall|i: int|
            0 <= i < a.data.disks@.len() ==> {
                let d = #[trigger] b.data.disks@[i];
                d.enabled == a.data.disks@[i].enabled && d.model == a.data.disks@[i].model
            },
        one_on(a.data) ==> one_on(b.data),
{
    lemma_net_entered(a.data.net_ifaces@, s.net@);
    lemma_disks_entered(info_disks(a.info), a.data.disks@, s.disk@);
    if one_on(a.data) {
        if a.data.net_ifaces@.len() > 0 {
            let i = choose|i: int|
                0 <= i < a.data.net_ifaces@.len() && (#[trigger] a.data.net_ifaces@[i]).enabled;
            assert(b.data.net_ifaces@[i].enabled);
        }
        if a.data.disks@.len() > 0 {
            let i = choose|i: int|
                0 <= i < a.data.disks@.len() && (#[trigger] a.data.disks@[i]).enabled;
            assert(b.data.disks@[i].enabled);
        }
    }
}

// ---------------------------------------------------------------------------
// What arrives where

/// No two interfaces have a name in common.
pub open spec fn names_differ(ifaces: Seq<NetIface>) -> bool {
    forall|i: int, j: int|
        0 <= i < j < ifaces.len() ==> (#[trigger] ifaces[i]).alias@ != (#[trigger] ifaces[j]).alias@
}

/// `j` is the last pair with a name.
pub open spec fn last_named(v: Seq<(String, String)>, name: Seq<char>, j: int) -> bool {
    &&& 0 <= j < v.len()
    &&& v[j].0@ == name
    &&& forall|q: int| j < q < v.len() ==> (#[trigger] v[q]).0@ != name
}

pub open spec fn never_named(v: Seq<(String, String)>, name: Seq<char>) -> bool {
    forall|q: int| 0 <= q < v.len() ==> (#[trigger] v[q]).0@ != name
}

proof fn lemma_own_place(ifaces: Seq<NetIface>, id: Seq<char>, i: int)
    requires
        names_differ(ifaces),
        0 <= i < ifaces.len(),
    ensures
        iface_at(ifaces, id) == i <==> ifaces[i].alias@ == id,
        iface_at(ifaces, id) >= 0,
    decreases ifaces.len(),
{
    lemma_iface_at_bound(ifaces, id);
    if ifaces[i].alias@ == id {
        assert forall|j: int| 0 <= j < i implies (#[trigger] ifaces[j]).alias@ != id by {}
        lemma_iface_at(ifaces, id, i);
    } else {
        lemma_found(ifaces, id);
    }
}

proof fn lemma_found(ifaces: Seq<NetIface>, id: Seq<char>)
    ensures
        0 <= iface_at(ifaces, id) <= ifaces.len(),
        iface_at(ifaces, id) < ifaces.len() ==> ifaces[iface_at(ifaces, id)].alias@ == id,
    decreases ifaces.len(),
{
    if ifaces.len() > 0 && ifaces[0].alias@ != id {
        lemma_found(ifaces.skip(1), id);
    }
}

proof fn lemma_ips_at(ifaces: Seq<NetIface>, ips: Seq<(String, String)>)
    requires
        names_differ(ifaces),
    ensures
        ips_entered(ifaces, ips).len() == ifaces.len(),
        forall|i: int|
            0 <= i < ifaces.len() ==> {
                let n = #[trigger] ips_entered(ifaces, ips)[i];
                &&& n == (NetIface { ip: n.ip, ..ifaces[i] })
                &&& never_named(ips, ifaces[i].alias@) ==> n.ip == ifaces[i].ip
                &&& forall|j: int| #[trigger]
                    last_named(ips, ifaces[i].alias@, j) ==> n.ip == ips[j].1
            },
    decreases ips.len(),
{
    if ips.len() > 0 {
        let front = ips.drop_last();
        let x = ips.last();
        assert(ips[ips.len() - 1] == x);
        lemma_ips_at(ifaces, front);
        lemma_ips_keep(ifaces, ips);
        let l = ips_entered(ifaces, front);
        assert forall|i: int, j: int| 0 <= i < j < l.len() implies (#[trigger] l[i]).alias@ != (
        #[trigger] l[j]).alias@ by {
            assert(ifaces[i].alias@ != ifaces[j].alias@);
        }
        assert forall|i: int| 0 <= i < ifaces.len() implies {
            let n = #[trigger] ips_entered(ifaces, ips)[i];
            &&& n == (NetIface { ip: n.ip, ..ifaces[i] })
            &&& never_named(ips, ifaces[i].alias@) ==> n.ip == ifaces[i].ip
            &&& forall|j: int| #[trigger]
                last_named(ips, ifaces[i].alias@, j) ==> n.ip == ips[j].1
        } by {
            lemma_own_place(l, x.0@, i);
            let name = ifaces[i].alias@;
            let n = ips_entered(ifaces, ips)[i];
            assert(l[i].alias == ifaces[i].alias);
            if never_named(ips, name) {
                assert forall|q: int| 0 <= q < front.len() implies (#[trigger] front[q]).0@
                    != name by {
                    assert(front[q] == ips[q]);
                }
                assert(never_named(front, name));
            }
            assert forall|j: int| #[trigger] last_named(ips, name, j) implies n.ip == ips[j].1 by {
                if j < front.len() {
                    assert(ips[ips.len() - 1].0@ != name);
                    assert(front[j] == ips[j]);
                    assert forall|q: int| j < q < front.len() implies (#[trigger] front[q]).0@
                        != name by {
                        assert(front[q] == ips[q]);
                    }
                    assert(last_named(front, name, j));
                }
            }
        }
    }
}

proof fn lemma_ssids_at(ifaces: Seq<NetIface>, ssids: Seq<(String, String)>)
    requires
        names_differ(ifaces),
    ensures
        ssids_entered(ifaces, ssids).len() == ifaces.len(),
        forall|i: int|
            0 <= i < ifaces.len() ==> {
                let n = #[trigger] ssids_entered(ifaces, ssids)[i];
                &&& n == (NetIface { ssid: n.ssid, ..ifaces[i] })
                &&& never_named(ssids, ifaces[i].alias@) ==> n.ssid == ifaces[i].ssid
                &&& forall|j: int| #[trigger]
                    last_named(ssids, ifaces[i].alias@, j) ==> n.ssid == ssids[j].1
            },
    decreases ssids.len(),
{
    if ssids.len() > 0 {
        let front = ssids.drop_last();
        let x = ssids.last();
        assert(ssids[ssids.len() - 1] == x);
        lemma_ssids_at(ifaces, front);
        lemma_ssids_keep(ifaces, ssids);
        let l = ssids_entered(ifaces, front);
        assert forall|i: int, j: int| 0 <= i < j < l.len() implies (#[trigger] l[i]).alias@ != (
        #[trigger] l[j]).alias@ by {
            assert(ifaces[i].alias@ != ifaces[j].alias@);
        }
        assert forall|i: int| 0 <= i < ifaces.len() implies {
            let n = #[trigger] ssids_entered(ifaces, ssids)[i];
            &&& n == (NetIface { ssid: n.ssid, ..ifaces[i] })
            &&& never_named(ssids, ifaces[i].alias@) ==> n.ssid == ifaces[i].ssid
            &&& forall|j: int| #[trigger]
                last_named(ssids, ifaces[i].alias@, j) ==> n.ssid == ssids[j].1
        } by {
            lemma_own_place(l, x.0@, i);
            let name = ifaces[i].alias@;
            let n = ssids_entered(ifaces, ssids)[i];
            assert(l[i].alias == ifaces[i].alias);
            if never_named(ssids, name) {
                assert forall|q: int| 0 <= q < front.len() implies (#[trigger] front[q]).0@
                    != name by {
                    assert(front[q] == ssids[q]);
                }
                assert(never_named(front, name));
            }
            assert forall|j: int| #[trigger] last_named(ssids, name, j) implies n.ssid
                == ssids[j].1 by {
                if j < front.len() {
                    assert(ssids[ssids.len() - 1].0@ != name);
                    assert(front[j] == ssids[j]);
                    assert forall|q: int| j < q < front.len() implies (#[trigger] front[q]).0@
                        != name by {
                        assert(front[q] == ssids[q]);
                    }
                    assert(last_named(front, name, j));
                }
            }
        }
    }
}

/// The lists of the popup are shown as they were sent: every process and every
/// drive with its own numbers; and the widget shows the space of the system's
/// own drive where one is sent, and keeps what it showed where no drive is.
pub proof fn law_details_are_shown(a: Agent, det: Details, loads: Seq<Double>, b: Agent, i: int)
    requires
        details_entered(a, det, loads, b),
    ensures
        b.data.drives@.len() == det.drives@.len(),
        0 <= i < det.drives@.len() ==> {
            let (v, d) = (det.drives@[i], b.data.drives@[i]);
            &&& d.name@ == v.id@ && d.label@ == v.label@ && d.fs@ == v.fs@
            &&& d.free == v.free && d.total == v.total && d.readonly == v.readonly
            &&& v.kind@ == "USB"@ || v.kind@ == "DVD"@ || v.kind@ == ""@ ==> d.kind@ == v.kind@
        },
        0 <= i < det.drives@.len() && det.drives@[i].id@ == "/"@ && (forall|k: int|
            0 <= k < i ==> (#[trigger] det.drives@[k]).id@ != "/"@ && text::lower(
                det.drives@[k].id@,
            ) != "c:"@) ==> b.data.disk_free == det.drives@[i].free && b.data.disk_total
            == det.drives@[i].total,
        det.drives@.len() == 0 ==> b.data.disk_free == a.data.disk_free && b.data.disk_total
            == a.data.disk_total,
        b.data.top_cpu@.len() == det.top_cpu@.len(),
        0 <= i < det.top_cpu@.len() ==> is_process(det.top_cpu@[i], b.data.top_cpu@[i]),
        b.data.top_mem@.len() == det.top_mem@.len(),
        0 <= i < det.top_mem@.len() ==> is_process(det.top_mem@[i], b.data.top_mem@[i]),
        b.data.top_io@.len() == det.top_io@.len(),
        0 <= i < det.top_io@.len() ==> is_process(det.top_io@[i], b.data.top_io@[i]),
{
    let drives = b.data.drives@;
    if 0 <= i < det.drives@.len() {
        assert(is_agent_drive(det.drives@[i], drives[i]));
        if det.drives@[i].id@ == "/"@ && (forall|k: int|
            0 <= k < i ==> (#[trigger] det.drives@[k]).id@ != "/"@ && text::lower(
                det.drives@[k].id@,
            ) != "c:"@) {
            assert forall|k: int| 0 <= k < i implies !is_root_name(
                (#[trigger] drives[k]).name@,
            ) by {
                assert(is_agent_drive(det.drives@[k], drives[k]));
                assert(det.drives@[k].id@ != "/"@);
            }
            let k = choose|k: int| #[trigger]
                is_root(drives, k) && b.data.disk_free == drives[k].free && b.data.disk_total
                    == drives[k].total;
            assert(is_root_name(drives[i].name@));
            assert(k == i);
        }
    }
}

/// An interface gets the address and the network that are sent for its name, the
/// last of several, and keeps what it had where none is sent; nothing else of it
/// changes.
pub proof fn law_addresses_are_shown(
    a: Agent,
    det: Details,
    loads: Seq<Double>,
    b: Agent,
    i: int,
    j: int,
)
    requires
        details_entered(a, det, loads, b),
        names_differ(a.data.net_ifaces@),
        0 <= i < a.data.net_ifaces@.len(),
    ensures
        b.data.net_ifaces@.len() == a.data.net_ifaces@.len(),
        ({
            let (o, n) = (a.data.net_ifaces@[i], b.data.net_ifaces@[i]);
            &&& n.alias@ == o.alias@ && n.up == o.up && n.enabled == o.enabled
            &&& n.rx_bps == o.rx_bps && n.tx_bps == o.tx_bps
            &&& last_named(det.ips@, o.alias@, j) ==> n.ip@ == det.ips@[j].1@
            &&& never_named(det.ips@, o.alias@) ==> n.ip@ == o.ip@
            &&& last_named(det.ssids@, o.alias@, j) ==> n.ssid@ == det.ssids@[j].1@
            &&& never_named(det.ssids@, o.alias@) ==> n.ssid@ == o.ssid@
        }),
{
    let o = a.data.net_ifaces@;
    let l = ips_entered(o, det.ips@);
    lemma_ips_at(o, det.ips@);
    assert forall|x: int, y: int| 0 <= x < y < l.len() implies (#[trigger] l[x]).alias@ != (
    #[trigger] l[y]).alias@ by {
        assert(o[x].alias@ != o[y].alias@);
    }
    lemma_ssids_at(l, det.ssids@);
    assert(l[i].alias == o[i].alias);
    assert(ssids_entered(l, det.ssids@)[i] == b.data.net_ifaces@[i]);
}

/// A process as another machine sees it.
pub open spec fn is_process(s: ProcSample, p: ProcInfo) -> bool {
    p.pid == s.pid && p.name@ == s.name@ && p.cpu == s.cpu && p.mem == s.mem && p.io == s.io
}

/// `j` is the last sample of an interface.
pub open spec fn last_net_sample(v: Seq<NetSample>, name: Seq<char>, j: int) -> bool {
    &&& 0 <= j < v.len()
    &&& v[j].id@ == name
    &&& forall|q: int| j < q < v.len() ==> (#[trigger] v[q]).id@ != name
}

proof fn lemma_net_at(ifaces: Seq<NetIface>, v: Seq<NetSample>)
    requires
        names_differ(ifaces),
    ensures
        net_entered(ifaces, v).len() == ifaces.len(),
        forall|i: int|
            0 <= i < ifaces.len() ==> {
                let n = #[trigger] net_entered(ifaces, v)[i];
                &&& n == (NetIface { rx_bps: n.rx_bps, tx_bps: n.tx_bps, up: n.up, ..ifaces[i] })
                &&& (forall|q: int|
                    0 <= q < v.len() ==> (#[trigger] v[q]).id@ != ifaces[i].alias@) ==> n
                    == ifaces[i]
                &&& forall|j: int| #[trigger]
                    last_net_sample(v, ifaces[i].alias@, j) ==> n.rx_bps == v[j].rx && n.tx_bps
                        == v[j].tx && n.up == v[j].up
            },
    decreases v.len(),
{
    if v.len() > 0 {
        let front = v.drop_last();
        let x = v.last();
        assert(v[v.len() - 1] == x);
        lemma_net_at(ifaces, front);
        lemma_net_entered(ifaces, v);
        let l = net_entered(ifaces, front);
        assert forall|i: int, j: int| 0 <= i < j < l.len() implies (#[trigger] l[i]).alias@ != (
        #[trigger] l[j]).alias@ by {
            assert(ifaces[i].alias@ != ifaces[j].alias@);
        }
        assert forall|i: int| 0 <= i < ifaces.len() implies {
            let n = #[trigger] net_entered(ifaces, v)[i];
            &&& n == (NetIface { rx_bps: n.rx_bps, tx_bps: n.tx_bps, up: n.up, ..ifaces[i] })
            &&& (forall|q: int| 0 <= q < v.len() ==> (#[trigger] v[q]).id@ != ifaces[i].alias@)
                ==> n == ifaces[i]
            &&& forall|j: int| #[trigger]
                last_net_sample(v, ifaces[i].alias@, j) ==> n.rx_bps == v[j].rx && n.tx_bps
                    == v[j].tx && n.up == v[j].up
        } by {
            lemma_own_place(l, x.id@, i);
            let name = ifaces[i].alias@;
            let n = net_entered(ifaces, v)[i];
            assert(l[i].alias == ifaces[i].alias);
            if forall|q: int| 0 <= q < v.len() ==> (#[trigger] v[q]).id@ != name {
                assert forall|q: int| 0 <= q < front.len() implies (#[trigger] front[q]).id@
                    != name by {
                    assert(front[q] == v[q]);
                }
            }
            assert forall|j: int| #[trigger] last_net_sample(v, name, j) implies n.rx_bps == v[j].rx
                && n.tx_bps == v[j].tx && n.up == v[j].up by {
                if j < front.len() {
                    assert(v[v.len() - 1].id@ != name);
                    assert(front[j] == v[j]);
                    assert forall|q: int| j < q < front.len() implies (#[trigger] front[q]).id@
                        != name by {
                        assert(front[q] == v[q]);
                    }
                    assert(last_net_sample(front, name, j));
                }
            }
        }
    }
}

/// `j` is the last sample of a disk.
pub open spec fn last_disk_sample(v: Seq<DiskSample>, id: Seq<char>, j: int) -> bool {
    &&& 0 <= j < v.len()
    &&& v[j].id@ == id
    &&& forall|q: int| j < q < v.len() ==> (#[trigger] v[q]).id@ != id
}

/// No two disks have an id in common.
pub open spec fn ids_differ(list: Seq<DiskInfo>) -> bool {
    forall|i: int, j: int|
        0 <= i < j < list.len() ==> (#[trigger] list[i]).id@ != (#[trigger] list[j]).id@
}

proof fn lemma_disk_place(list: Seq<DiskInfo>, id: Seq<char>, i: int)
    requires
        ids_differ(list),
        0 <= i < list.len(),
    ensures
        disk_id_at(list, id) == i <==> list[i].id@ == id,
        disk_id_at(list, id) >= 0,
{
    lemma_disk_found(list, id);
    if list[i].id@ == id {
        assert forall|j: int| 0 <= j < i implies (#[trigger] list[j]).id@ != id by {}
        lemma_disk_id_at(list, id, i);
    }
}

proof fn lemma_disk_found(list: Seq<DiskInfo>, id: Seq<char>)
    ensures
        0 <= disk_id_at(list, id) <= list.len(),
        disk_id_at(list, id) < list.len() ==> list[disk_id_at(list, id)].id@ == id,
    decreases list.len(),
{
    if list.len() > 0 && list[0].id@ != id {
        lemma_disk_found(list.skip(1), id);
    }
}

proof fn lemma_disks_at(list: Seq<DiskInfo>, disks: Seq<PhysicalDisk>, v: Seq<DiskSample>)
    requires
        ids_differ(list),
        list.len() == disks.len(),
    ensures
        disks_entered(list, disks, v).len() == disks.len(),
        forall|i: int|
            0 <= i < disks.len() ==> {
                let n = #[trigger] disks_entered(list, disks, v)[i];
                &&& n == (PhysicalDisk { read_bps: n.read_bps, write_bps: n.write_bps, ..disks[i] })
                &&& (forall|q: int| 0 <= q < v.len() ==> (#[trigger] v[q]).id@ != list[i].id@) ==> n
                    == disks[i]
                &&& forall|j: int| #[trigger]
                    last_disk_sample(v, list[i].id@, j) ==> n.read_bps == v[j].r && n.write_bps
                        == v[j].w
            },
    decreases v.len(),
{
    if v.len() > 0 {
        let front = v.drop_last();
        let x = v.last();
        assert(v[v.len() - 1] == x);
        lemma_disks_at(list, disks, front);
        lemma_disks_entered(list, disks, v);
        let l = disks_entered(list, disks, front);
        assert forall|i: int| 0 <= i < disks.len() implies {
            let n = #[trigger] disks_entered(list, disks, v)[i];
            &&& n == (PhysicalDisk { read_bps: n.read_bps, write_bps: n.write_bps, ..disks[i] })
            &&& (forall|q: int| 0 <= q < v.len() ==> (#[trigger] v[q]).id@ != list[i].id@) ==> n
                == disks[i]
            &&& forall|j: int| #[trigger]
                last_disk_sample(v, list[i].id@, j) ==> n.read_bps == v[j].r && n.write_bps
                    == v[j].w
        } by {
            lemma_disk_place(list, x.id@, i);
            let id = list[i].id@;
            let n = disks_entered(list, disks, v)[i];
            assert(l[i].model == disks[i].model);
            if forall|q: int| 0 <= q < v.len() ==> (#[trigger] v[q]).id@ != id {
                assert forall|q: int| 0 <= q < front.len() implies (#[trigger] front[q]).id@
                    != id by {
                    assert(front[q] == v[q]);
                }
            }
            assert forall|j: int| #[trigger] last_disk_sample(v, id, j) implies n.read_bps == v[j].r
                && n.write_bps == v[j].w by {
                if j < front.len() {
                    assert(v[v.len() - 1].id@ != id);
                    assert(front[j] == v[j]);
                    assert forall|q: int| j < q < front.len() implies (#[trigger] front[q]).id@
                        != id by {
                        assert(front[q] == v[q]);
                    }
                    assert(last_disk_sample(front, id, j));
                }
            }
        }
    }
}

/// A snapshot's rates go to the interface and to the disk that they are of, and
/// an interface or a disk that the snapshot says nothing of stays as it is.
pub proof fn law_rates_go_where_they_belong(a: Agent, s: Snapshot, b: Agent, i: int, j: int)
    requires
        snapshotted(a, s, b),
        names_differ(a.data.net_ifaces@),
        ids_differ(info_disks(a.info)),
        info_disks(a.info).len() == a.data.disks@.len(),
    ensures
        0 <= i < a.data.net_ifaces@.len() ==> {
            let (o, n) = (a.data.net_ifaces@[i], b.data.net_ifaces@[i]);
            &&& last_net_sample(s.net@, o.alias@, j) ==> n.rx_bps == s.net@[j].rx && n.tx_bps
                == s.net@[j].tx && n.up == s.net@[j].up
            &&& (forall|q: int| 0 <= q < s.net@.len() ==> (#[trigger] s.net@[q]).id@ != o.alias@)
                ==> n == o
            &&& n.alias == o.alias && n.ip == o.ip && n.ssid == o.ssid && n.enabled == o.enabled
        },
        0 <= i < a.data.disks@.len() ==> {
            let (o, n) = (a.data.disks@[i], b.data.disks@[i]);
            let id = info_disks(a.info)[i].id@;
            &&& last_disk_sample(s.disk@, id, j) ==> n.read_bps == s.disk@[j].r && n.write_bps
                == s.disk@[j].w
            &&& (forall|q: int| 0 <= q < s.disk@.len() ==> (#[trigger] s.disk@[q]).id@ != id) ==> n
                == o
            &&& n.model == o.model && n.size == o.size && n.index == o.index
        },
{
    lemma_net_at(a.data.net_ifaces@, s.net@);
    lemma_disks_at(info_disks(a.info), a.data.disks@, s.disk@);
    if 0 <= i < a.data.net_ifaces@.len() {
        assert(net_entered(a.data.net_ifaces@, s.net@)[i] == b.data.net_ifaces@[i]);
    }
    if 0 <= i < a.data.disks@.len() {
        assert(disks_entered(info_disks(a.info), a.data.disks@, s.disk@)[i] == b.data.disks@[i]);
    }
}

/// What a snapshot says of the whole machine is shown as it is said: used memory
/// and, where the total is not known, the total that it and the free memory make
/// up; used and swapped memory together are what is committed. Every total that
/// follows goes to its own place, and the bytes are added to those before.
pub proof fn law_totals_go_where_they_belong(
    a: Agent,
    s: Snapshot,
    b: Agent,
    t: Totals,
    c: Agent,
)
    requires
        snapshotted(a, s, b),
        totals_entered(b, t, c),
        s.mem.used + s.mem.avail <= u64::MAX,
        s.mem.used + s.mem.swap_used <= u64::MAX,
        a.data.net_total_rx + t.rx_bytes <= u64::MAX,
        a.data.net_total_tx + t.tx_bytes <= u64::MAX,
    ensures
        c.data.mem.used == s.mem.used,
        a.data.mem.total == 0 ==> c.data.mem.total == s.mem.used + s.mem.avail,
        a.data.mem.total != 0 ==> c.data.mem.total == a.data.mem.total,
        c.data.mem.commit_used == s.mem.used + s.mem.swap_used,
        c.data.net_rx == t.rx && c.data.net_tx == t.tx,
        c.data.disk_read == t.read && c.data.disk_write == t.write,
        c.data.net_total_rx == a.data.net_total_rx + t.rx_bytes,
        c.data.net_total_tx == a.data.net_total_tx + t.tx_bytes,
        c.data.cpu_system == s.cpu.sys && c.data.cpu_user == s.cpu.user,
        c.data.cpu_history@.len() > 0 && c.data.cpu_history@.last() == c.data.cpu_total,
        c.data.mem_history@.len() > 0 && c.data.mem_history@.last() == c.data.mem.pct,
        c.data.net_history@.len() > 0 && c.data.net_history@.last() == metrics::narrowed_pair(
            t.rx,
            t.tx,
        ),
        c.data.disk_history@.len() > 0 && c.data.disk_history@.last() == metrics::narrowed_pair(
            t.read,
            t.write,
        ),
        s.gpu matches Some(g) ==> c.data.vram_used == g.vram_used && c.data.vram_total
            == g.vram_total && c.data.gpu_history@.len() > 0 && c.data.gpu_history@.last()
            == g.load.clamped(),
{
}

/// A machine that has told what it is, is shown as what it told: with its name,
/// its processor and its memory, and with its interfaces and disks in the order
/// in which it told of them.
pub proof fn law_told_machine_is_shown(a: Agent, info: Info, b: Agent, i: int)
    requires
        informed(a, info, b),
        info.mem_total + info.swap_total <= u64::MAX,
    ensures
        b.data.host@ == info.name@,
        b.data.cpu_name@ == info.cpu_name@,
        b.data.cpu_cores@.len() == info.cores,
        info.sockets > 0 ==> b.data.cpu_sockets == info.sockets,
        b.data.mem.total == info.mem_total,
        b.data.mem.commit_total == info.mem_total + info.swap_total,
        b.data.mem.used == a.data.mem.used,
        b.data.gpu_available == text::listed(info.has@, "gpu"@),
        b.data.battery_available == text::listed(info.has@, "battery"@),
        b.data.net_ifaces@.len() == info.ifaces@.len(),
        0 <= i < info.ifaces@.len() ==> {
            let (x, n) = (info.ifaces@[i], b.data.net_ifaces@[i]);
            &&& n.alias@ == x.id@ && n.description@ == x.mac@
            &&& x.kind@ == "Ethernet"@ || x.kind@ == "Wi-Fi"@ || x.kind@ == "Mobile"@ || x.kind@
                == "Bluetooth"@ || x.kind@ == ""@ ==> n.kind@ == x.kind@
            &&& n.ip@.len() == 0 && n.ssid@.len() == 0
        },
        b.data.disks@.len() == info.disks@.len(),
        0 <= i < info.disks@.len() ==> {
            let (x, d) = (info.disks@[i], b.data.disks@[i]);
            &&& d.model@ == x.model@ && d.size == x.size && d.index == i as u32
            &&& x.bus@ == "SSD"@ || x.bus@ == "HDD"@ || x.bus@ == "USB"@ || x.bus@ == "NVMe"@
                || x.bus@ == "SATA"@ || x.bus@ == "SD"@ || x.bus@ == ""@ ==> d.bus@ == x.bus@
        },
        info.classes@.len() == info.cores ==> b.hw_classes@ == info.classes@,
        info.clusters@.len() == info.cores ==> b.hw_clusters@ == info.clusters@,
        b.info == Some(info) && b.key == a.key && b.online == a.online,
{
    let base = choose|base: Seq<NetIface>|
        b.data.net_ifaces@ == #[trigger] net::switched(base, a.net_disabled@) && base.len()
            == info.ifaces@.len() && forall|k: int|
            0 <= k < info.ifaces@.len() ==> is_agent_iface(info.ifaces@[k], #[trigger] base[k]);
    if 0 <= i < info.ifaces@.len() {
        assert(is_agent_iface(info.ifaces@[i], base[i]));
        assert(b.data.net_ifaces@[i].alias == base[i].alias);
    }
    let disk_base = choose|base: Seq<PhysicalDisk>|
        b.data.disks@ == #[trigger] disks::switched(base, a.disks_disabled@) && base.len()
            == info.disks@.len() && forall|k: int|
            0 <= k < info.disks@.len() ==> is_agent_disk(info.disks@[k], k, #[trigger] base[k]);
    if 0 <= i < info.disks@.len() {
        assert(is_agent_disk(info.disks@[i], i, disk_base[i]));
        assert(b.data.disks@[i].model == disk_base[i].model);
    }
}

/// The temperature of the processor is that of a sensor of it wherever there is
/// one: of the package before that of a core, of the later of two alike; and
/// without any it is that of the first sensor.
pub proof fn law_processor_sensor_is_preferred(temps: Seq<TempSample>, r: Option<Single>, i: int) -> (b: int)
    requires
        is_cpu_temp(temps, r),
        0 <= i < temps.len(),
    ensures
        0 <= b < temps.len() && r == Some(temps[b].c),
        text::has(text::lower(temps[i].id@), "package"@) ==> text::has(
            text::lower(temps[b].id@),
            "package"@,
        ) || text::has(text::lower(temps[b].id@), "peci"@),
        text::has(text::lower(temps[i].id@), "cpu"@) ==> sensor_score(temps[b].id@) >= 3,
        (forall|j: int| 0 <= j < temps.len() ==> sensor_score((#[trigger] temps[j]).id@) == 0) ==> r
            == Some(temps[0].c),
{
    let k = choose|k: int| #[trigger]
        is_best_sensor(temps, k) && r == Some(
            if sensor_score(temps[k].id@) > 0 {
                temps[k].c
            } else {
                temps[0].c
            },
        );
    assert(sensor_score(temps[i].id@) <= sensor_score(temps[k].id@));
    if sensor_score(temps[k].id@) > 0 {
        k
    } else {
        0
    }
}

/// Each place of the display shows the load and the clock that were reported for
/// the core that stands there, limited to a share; and the charts end with the
/// shares that arrived.
pub proof fn law_cores_show_what_arrives(a: Agent, s: Snapshot, b: Agent, i: int)
    requires
        snapshotted(a, s, b),
        s.cpu.cores@.len() > 0,
        a.order@.len() == s.cpu.cores@.len(),
        s.cpu.freq@.len() == s.cpu.cores@.len(),
        0 <= i < a.order@.len(),
        a.order@[i] < s.cpu.cores@.len(),
    ensures
        b.data.cpu_cores@.len() == s.cpu.cores@.len(),
        b.data.cpu_cores@[i] == s.cpu.cores@[a.order@[i] as int].clamped(),
        b.data.cpu_freq@.len() == s.cpu.freq@.len() ==> b.data.cpu_freq@[i]
            == s.cpu.freq@[a.order@[i] as int],
        b.data.cpu_history@.len() > 0 && b.data.cpu_history@.last() == b.data.cpu_total,
        b.data.gpu_history@.len() > 0 && (b.data.gpu matches Some(g) ==> b.data.gpu_history@.last()
            == g),
        b.data.cpu_total == s.cpu.total.clamped() && b.data.cpu_system == s.cpu.sys
            && b.data.cpu_user == s.cpu.user,
        s.gpu matches Some(g) ==> b.data.gpu == Some(g.load.clamped()) && b.data.vram_used
            == g.vram_used && b.data.vram_total == g.vram_total,
        s.battery matches Some(x) ==> (b.data.battery matches Some(y) && y.level == x.level
            && y.charging == x.charging && y.on_ac == x.on_ac && y.remaining_secs
            == x.remaining_secs),
        s.battery.is_none() ==> b.data.battery.is_none(),
        b.data.mem.used == s.mem.used,
        s.mem.used + s.mem.swap_used <= u64::MAX ==> b.data.mem.commit_used == s.mem.used
            + s.mem.swap_used,
        a.data.mem.total > 0 ==> b.data.mem.total == a.data.mem.total,
{
}

} // verus!
