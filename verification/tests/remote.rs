//! Other machines: what is heard and received of them, what is shared with
//! them, and what the agent tells.

use winstats::agent::collect::{Collector, DiskKind, Facts, RawDisk, RawIface, RawProc, Reading};
use winstats::agent::names;
use winstats::agent::service::{install, is_root, uninstall, Platform, Step};
use winstats::agent::settings::{self, discover_seconds, ensure_id, watch_token, Args, Mode};
use winstats::agent::topology;
use winstats::config::{Config, RemoteCfg};
use winstats::i18n::Translator;
use winstats::metrics::battery::Battery;
use winstats::metrics::disks::PhysicalDisk;
use winstats::metrics::net::NetIface;
use winstats::metrics::processes::ProcInfo;
use winstats::metrics::MetricsData;
use winstats::number::{Double, Single};
use winstats::order::StrMap;
use winstats::proto::{
    Beacon, CpuSample, Details, DiskInfo, DiskSample, DriveSample, IfaceInfo, Info, MemSample,
    NetSample, ProcSample, Snapshot, TempSample, DATA_PORT, VERSION,
};
use winstats::remote::agent::{bus_static, kind_static, pick_cpu_temp, Agent, Totals};
use winstats::remote::poll::{follow, learn, settle, LinkAction, Remotes, GONE_MS, STALE_MS};
use winstats::remote::{key_for, make_base, Discovery};
use winstats::session::Status;
use winstats::share::{
    beacon_of, details_from, details_wanted, host_name, info_from, new_id, snapshot_from, Machine,
    Share,
};

fn single(x: f32) -> Single {
    Single { bits: x.to_bits() }
}

fn double(x: f64) -> Double {
    Double { bits: x.to_bits() }
}

fn names_of(list: &[&str]) -> Vec<String> {
    list.iter().map(|s| s.to_string()).collect()
}

fn beacon(id: &str, name: &str) -> Beacon {
    Beacon {
        v: VERSION,
        id: id.to_string(),
        name: name.to_string(),
        os: "linux".to_string(),
        arch: "x86_64".to_string(),
        port: DATA_PORT,
        agent: "0.2.0".to_string(),
        cpu: Single::zero(),
        mem: Single::zero(),
    }
}

// ---------------------------------------------------------------------------
// Discovery

#[test]
fn beacons_are_heard_until_the_timeout() {
    let mut d = Discovery::new();
    d.hear(beacon("2", "beta"), "10.0.0.2", 1000);
    d.hear(beacon("1", "alpha"), "10.0.0.1", 2000);
    d.hear(beacon("", "nobody"), "10.0.0.3", 2000);
    d.hear(Beacon { v: VERSION + 1, ..beacon("3", "other") }, "10.0.0.4", 2000);
    let seen: Vec<String> = d.seen(2500).into_iter().map(|s| s.beacon.name).collect();
    assert_eq!(seen, names_of(&["alpha", "beta"]));
    assert_eq!(d.by_id("2", 10_999).unwrap().addr, "10.0.0.2:47778");
    assert!(d.by_id("2", 11_000).is_none());
    assert!(d.by_id("3", 2000).is_none());
    d.hear(beacon("2", "gamma"), "10.0.0.9", 11_500);
    assert_eq!(d.by_id("2", 11_500).unwrap().addr, "10.0.0.9:47778");
    assert_eq!(d.seen(12_500).len(), 1);
}

#[test]
fn keys_are_safe_and_free() {
    let mut taken: StrMap<RemoteCfg> = StrMap::new();
    assert_eq!(key_for("My Server!", &taken), "my-server");
    assert_eq!(key_for("\u{c4}rger", &taken), "rger");
    assert_eq!(key_for("***", &taken), "agent");
    taken.insert("my-server".to_string(), RemoteCfg::default());
    assert_eq!(key_for("My Server!", &taken), "my-server-2");
    taken.insert("my-server-2".to_string(), RemoteCfg::default());
    assert_eq!(key_for("my server", &taken), "my-server-3");
    assert_eq!(make_base("a_b c--"), "a_b-c");
}

// ---------------------------------------------------------------------------
// An agent's data

fn info() -> Info {
    Info {
        v: VERSION,
        id: "1".to_string(),
        name: "box".to_string(),
        cpu_name: "Some CPU".to_string(),
        cores: 4,
        classes: vec![0, 1, 0, 1],
        clusters: vec![0, 0, 0, 0],
        sockets: 1,
        mem_total: 1000,
        swap_total: 500,
        disks: vec![
            DiskInfo { id: "sda".to_string(), model: "A".to_string(), bus: "SSD".to_string(), size: 7 },
            DiskInfo { id: "sdb".to_string(), model: "B".to_string(), bus: "tape".to_string(), size: 8 },
        ],
        ifaces: vec![IfaceInfo {
            id: "eth0".to_string(),
            kind: "Ethernet".to_string(),
            mac: "aa".to_string(),
        }],
        has: names_of(&["battery"]),
        ..Default::default()
    }
}

fn snapshot() -> Snapshot {
    Snapshot {
        seq: 1,
        cpu: CpuSample {
            total: single(1.5),
            sys: single(0.1),
            user: single(0.2),
            cores: [0.1, 0.2, 0.3, -0.4].map(single).to_vec(),
            freq: vec![1, 2, 3, 4],
        },
        mem: MemSample { used: 400, avail: 600, swap_used: 50 },
        net: vec![NetSample { id: "eth0".to_string(), rx: double(8.0), tx: double(9.0), up: true }],
        disk: vec![DiskSample { id: "sdb".to_string(), r: double(3.0), w: double(4.0) }],
        ..Default::default()
    }
}

#[test]
fn agents_take_what_they_are_told() {
    let mut cfg = RemoteCfg::default();
    cfg.group_pe = true;
    cfg.disks_disabled = names_of(&["A"]);
    let mut a = Agent::new("box", &cfg);
    assert_eq!(a.data.host, "box");
    a.apply_info(info());
    assert_eq!(a.data.cpu_classes, vec![1, 1, 0, 0]);
    assert_eq!((a.data.mem.total, a.data.mem.commit_total), (1000, 1500));
    assert!(!a.data.gpu_available && a.data.battery_available);
    assert_eq!(a.data.disks.iter().map(|d| d.enabled).collect::<Vec<_>>(), vec![false, true]);
    assert_eq!(a.data.disks.iter().map(|d| d.bus).collect::<Vec<_>>(), vec!["SSD", ""]);
    let counted = a.apply_snapshot(snapshot());
    assert_eq!(counted.net, vec![(double(8.0), double(9.0))]);
    assert_eq!(counted.disk, vec![(double(3.0), double(4.0))]);
    assert_eq!(a.data.cpu_total, Single::one());
    assert_eq!(a.data.cpu_cores[0], single(0.2));
    assert_eq!(f32::from_bits(a.data.cpu_cores[1].bits), 0.0);
    assert_eq!(a.data.cpu_freq, vec![2, 4, 1, 3]);
    assert_eq!((a.data.mem.used, a.data.mem.commit_used), (400, 450));
    assert_eq!(a.data.disks[1].write_bps, double(4.0));
    a.set_group_pe(false);
    assert_eq!(a.data.cpu_classes, vec![0, 1, 0, 1]);
    assert_eq!(a.data.cpu_cores[..3], [0.1, 0.2, 0.3].map(single));
    assert_eq!(a.data.cpu_freq, vec![1, 2, 3, 4]);
    a.set_group_pe(true);
    assert_eq!(a.data.cpu_cores[2..], [0.1, 0.3].map(single));
    assert_eq!(a.data.cpu_freq, vec![2, 4, 1, 3]);
    a.set_group_pe(true);
    assert_eq!(a.data.cpu_freq, vec![2, 4, 1, 3]);
    a.set_group_pe(false);
    a.set_disabled(&names_of(&["eth0"]), &names_of(&["A", "B"]));
    assert!(a.data.net_ifaces[0].enabled);
    assert!(a.data.disks.iter().all(|d| d.enabled));
    a.set_disabled(&Vec::new(), &names_of(&["B"]));
    a.apply_snapshot(snapshot());
    assert_eq!(a.data.disks.iter().map(|d| d.enabled).collect::<Vec<_>>(), vec![true, false]);
    a.set_disabled(&Vec::new(), &Vec::new());
    a.apply_totals(Totals {
        mem_pct: single(0.4),
        rx: double(8.0),
        tx: double(9.0),
        rx_bytes: 80,
        tx_bytes: 90,
        read: double(3.0),
        write: double(4.0),
    });
    assert_eq!(a.data.mem.pct, single(0.4));
    assert_eq!((a.data.net_rx, a.data.disk_write), (double(8.0), double(4.0)));
    assert_eq!(a.data.net_history.back(), Some(&(single(8.0), single(9.0))));
    assert_eq!(a.data.disk_history.back(), Some(&(single(3.0), single(4.0))));
}

#[test]
fn snapshots_without_information() {
    let mut a = Agent::new("box", &RemoteCfg::default());
    a.apply_snapshot(snapshot());
    assert_eq!(a.data.mem.total, 1000);
    assert_eq!(a.data.cpu_classes, vec![0, 0, 0, 0]);
}

#[test]
fn details_are_taken() {
    let mut a = Agent::new("box", &RemoteCfg::default());
    a.apply_info(info());
    let drive = |id: &str, total: u64| DriveSample { id: id.to_string(), total, ..Default::default() };
    let det = Details {
        n: 5,
        top_mem: vec![ProcSample { pid: 3, name: "p".to_string(), mem: 9, ..Default::default() }],
        drives: vec![drive("/home", 5), drive("/", 7)],
        ips: vec![("eth0".to_string(), "10.0.0.2".to_string())],
        ..Default::default()
    };
    a.apply_details(det, &vec![double(1.0)]);
    assert_eq!(a.data.top_mem.len(), 1);
    assert_eq!(a.data.drives.len(), 2);
    assert_eq!(a.data.disk_total, 7);
    assert_eq!(a.data.net_ifaces[0].ip, "10.0.0.2");
}

#[test]
fn words_of_the_wire() {
    assert_eq!((bus_static("NVMe"), bus_static("nvme")), ("NVMe", ""));
    assert_eq!((kind_static("Wi-Fi"), kind_static("x")), ("Wi-Fi", ""));
    let t = |id: &str, c: f32| TempSample { id: id.to_string(), c: single(c) };
    assert_eq!(pick_cpu_temp(&vec![]), None);
    assert_eq!(pick_cpu_temp(&vec![t("disk", 30.0), t("gpu", 40.0)]), Some(single(30.0)));
    assert_eq!(
        pick_cpu_temp(&vec![t("disk", 30.0), t("Core 0", 40.0), t("Package id 0", 50.0), t("cpu", 60.0)]),
        Some(single(50.0))
    );
}

// ---------------------------------------------------------------------------
// Links

#[test]
fn machines_fade_and_come_back() {
    let mut a = Agent::new("box", &RemoteCfg::default());
    settle(&mut a, Status::Online, Some(0), 100);
    assert!(a.online && a.visible && !a.stale && !a.data.offline);
    settle(&mut a, Status::Online, Some(STALE_MS), 200);
    assert!(!a.online && a.visible && a.stale && a.data.offline);
    assert_eq!(a.offline_since, Some(200));
    settle(&mut a, Status::Offline, Some(GONE_MS), 300);
    assert!(!a.visible && !a.stale);
    assert_eq!(a.offline_since, Some(200));
    settle(&mut a, Status::Online, Some(5), 400);
    assert!(a.online && a.offline_since.is_none());
    settle(&mut a, Status::Connecting, None, 500);
    assert!(!a.online && !a.visible);
    settle(&mut a, Status::Offline, Some(2_000), 600);
    assert!(!a.online && a.visible && !a.stale);
    settle(&mut a, Status::Offline, Some(STALE_MS), 700);
    assert!(a.visible && a.stale);
}

#[test]
fn links_follow_the_configuration() {
    let mut rc = RemoteCfg::default();
    let mut a = Agent::new("box", &rc);
    assert_eq!(follow(&mut a, &rc), LinkAction::Nothing);
    rc.enabled = true;
    assert_eq!(follow(&mut a, &rc), LinkAction::Nothing);
    rc.address = "10.0.0.2:47778".to_string();
    assert_eq!(follow(&mut a, &rc), LinkAction::Start);
    assert_eq!(follow(&mut a, &rc), LinkAction::Keep);
    rc.address = "10.0.0.3:47778".to_string();
    assert_eq!(follow(&mut a, &rc), LinkAction::Start);
    rc.enabled = false;
    assert_eq!(follow(&mut a, &rc), LinkAction::Stop);
    assert_eq!(follow(&mut a, &rc), LinkAction::Nothing);
}

#[test]
fn configured_machines_are_followed() {
    let mut cfg = Config::default();
    let mut rc = RemoteCfg::default();
    rc.id = "1".to_string();
    rc.enabled = true;
    cfg.remotes.insert("box".to_string(), rc);
    let mut r = Remotes::new();
    r.set_discovery(true, true);
    let (changed, actions) = r.sync(&mut cfg, 1000);
    assert_eq!((changed, actions), (false, vec![LinkAction::Nothing]));
    if let Some(d) = &mut r.discovery {
        d.hear(beacon("1", "Box"), "10.0.0.2", 1000);
    }
    let (changed, actions) = r.sync(&mut cfg, 2000);
    assert_eq!((changed, actions), (true, vec![LinkAction::Start]));
    assert_eq!(cfg.remotes.get("box").unwrap().address, "10.0.0.2:47778");
    assert_eq!(cfg.remotes.get("box").unwrap().name, "Box");
    let (changed, actions) = r.sync(&mut cfg, 3000);
    assert_eq!((changed, actions), (false, vec![LinkAction::Keep]));
    assert_eq!(r.seen(3000).len(), 1);
    assert_eq!(r.state_text("box", &Translator::new()), "remote.offline");
    r.set_discovery(false, true);
    assert!(r.discovery.is_none() && r.seen(3000).is_empty());
    cfg.remotes.remove("box");
    assert_eq!(r.sync(&mut cfg, 4000), (false, vec![]));
    assert!(r.agents.entries.is_empty());
    let mut rc = RemoteCfg::default();
    assert!(!learn(&mut rc, &None));
}

// ---------------------------------------------------------------------------
// Sharing

fn machine() -> Machine<'static> {
    Machine { computer: Some("DESKTOP"), build: 22631, arch: "x86_64", version: "0.2.0" }
}

fn values() -> MetricsData {
    let mut d = MetricsData::empty();
    d.cpu_total = single(0.5);
    d.cpu_cores = vec![single(0.4), single(0.6)];
    d.cpu_classes = vec![0, 0];
    d.mem.used = 300;
    d.mem.total = 1000;
    d.mem.commit_used = 450;
    d.battery = Some(Battery {
        level: single(0.7),
        charging: true,
        on_ac: true,
        remaining_secs: Some(60),
    });
    d.disks = vec![PhysicalDisk {
        index: 0,
        model: "A".to_string(),
        bus: "NVMe",
        size: 9,
        read_bps: double(1.0),
        write_bps: double(2.0),
        enabled: true,
    }];
    d.net_ifaces = vec![NetIface {
        luid: 1,
        guid: 1,
        alias: "Ethernet".to_string(),
        description: "Card".to_string(),
        kind: "Ethernet",
        up: true,
        rx_bps: double(3.0),
        tx_bps: double(4.0),
        ip: "10.0.0.2".to_string(),
        ssid: String::new(),
        enabled: true,
    }];
    d
}

#[test]
fn shared_values_arrive() {
    let d = values();
    let s = snapshot_from(&d, 3);
    assert_eq!((s.seq, s.mem.used, s.mem.avail, s.mem.swap_used), (3, 300, 700, 150));
    let mut a = Agent::new("box", &RemoteCfg::default());
    let i = info_from(&Config::default(), &d, &machine());
    assert_eq!(i.name, "DESKTOP");
    a.apply_info(i);
    a.apply_snapshot(s);
    assert_eq!(a.data.cpu_total, d.cpu_total);
    assert_eq!(a.data.cpu_cores, d.cpu_cores);
    assert_eq!(a.data.battery, d.battery);
    assert_eq!((a.data.mem.used, a.data.mem.total), (300, 1000));
    assert_eq!(a.data.mem.commit_used, 450);
    assert_eq!(a.data.disks[0].read_bps, double(1.0));
    assert_eq!(a.data.net_ifaces[0].tx_bps, double(4.0));
}

#[test]
fn machine_is_published() {
    let mut share = Share::new();
    let d = values();
    let first = share.publish(&d, None, 0);
    assert_eq!(first.snapshot.seq, 1);
    assert!(first.details.is_none());
    let second = share.publish(&d, Some(1000), 4999);
    assert_eq!(second.snapshot.seq, 2);
    assert!(second.details.is_some());
    assert!(share.publish(&d, Some(1000), 5000).details.is_none());
    assert!(details_wanted(Some(0), 3999) && !details_wanted(Some(0), 4000));
    let mut cfg = Config::default();
    cfg.share_name = "mine".to_string();
    assert_eq!(host_name(&cfg, &machine()), "mine");
    let i = info_from(&cfg, &d, &machine());
    let b = beacon_of(&i, 47778, single(0.5), single(0.3));
    assert_eq!((b.v, b.name.as_str(), b.port), (VERSION, "mine", 47778));
    let mut d = values();
    d.top_cpu = vec![ProcInfo {
        pid: 4,
        name: "p".to_string(),
        cpu: single(0.1),
        mem: 5,
        io: double(0.0),
    }];
    let det = details_from(&d);
    assert_eq!(det.top_cpu[0].pid, 4);
    assert_eq!(det.ips, vec![("Ethernet".to_string(), "10.0.0.2".to_string())]);
}

#[test]
fn ids_tell_numbers_apart() {
    assert_eq!(new_id(0x1f, 0xabc), "000000000000001f0000000000000abc");
    assert_ne!(new_id(1, 2), new_id(2, 1));
    assert_eq!(new_id(u64::MAX, u64::MAX).len(), 32);
}

// ---------------------------------------------------------------------------
// The agent

#[test]
fn names_of_the_agent() {
    assert!(names::skip_iface("lo") && names::skip_iface("docker0") && names::skip_iface("vEthernet (x)"));
    assert!(!names::skip_iface("eth0") && !names::skip_iface("Ethernet"));
    assert_eq!(names::iface_kind("wlp3s0"), "Wi-Fi");
    assert_eq!(names::iface_kind("enp5s0"), "Ethernet");
    assert_eq!(names::iface_kind("wwan0"), "Mobile");
    assert_eq!(names::iface_kind("xyz"), "");
    assert!(names::skip_mount("squashfs", "x", "/") && names::skip_mount("ext4", "/dev/loop3", "/"));
    assert!(names::skip_mount("ext4", "/dev/sda1", "/boot/efi"));
    assert!(!names::skip_mount("ext4", "/dev/sda1", "/"));
    assert_eq!(names::machine_name("", &Some("host".to_string())), "host");
    assert_eq!(names::machine_name("mine", &Some("host".to_string())), "mine");
    assert_eq!(names::target("10.0.0.2"), "10.0.0.2:47778");
    assert_eq!(names::target("10.0.0.2:9"), "10.0.0.2:9");
}

#[test]
fn topology_of_the_agent() {
    assert_eq!(topology::ranks(&vec![1024, 512, 1024, 300]), vec![2, 1, 2, 0]);
    assert_eq!(topology::sockets(&vec![0, 1, 1], true), 2);
    assert_eq!(topology::counted_classes(4, Some(2), Some(2)).len(), 4);
    assert_eq!(topology::megahertz(3_400_000), 3400);
    let ip = |a: u32, b: u32, c: u32, d: u32| a << 24 | b << 16 | c << 8 | d;
    assert_eq!(topology::broadcast(ip(192, 168, 1, 7), 24), ip(192, 168, 1, 255));
    assert_eq!(topology::broadcast(ip(10, 1, 2, 3), 8), ip(10, 255, 255, 255));
    assert_eq!(topology::broadcast(ip(10, 1, 2, 3), 32), ip(10, 1, 2, 3));
    assert_eq!(topology::GROUP, ip(239, 255, 77, 77));
    assert_eq!(winstats::proto::MULTICAST_ADDR, "239.255.77.77");
    let to = topology::beacon_targets(&vec![(ip(10, 0, 0, 5), 24), (ip(172, 16, 1, 1), 16)]);
    assert_eq!(
        to,
        vec![
            (Some(0), topology::GROUP),
            (Some(0), ip(10, 0, 0, 255)),
            (Some(1), topology::GROUP),
            (Some(1), ip(172, 16, 255, 255)),
        ]
    );
    let none = topology::beacon_targets(&Vec::new());
    assert_eq!(none, vec![(None, topology::GROUP), (None, u32::MAX)]);
}

#[test]
fn command_lines() {
    let parse = |list: &[&str]| Args::parse(&names_of(list));
    let a = parse(&["--name", "box", "--port", "9", "--interval", "500", "--no-multicast"]).unwrap();
    assert_eq!((a.name.as_deref(), a.port, a.interval_ms), (Some("box"), Some(9), Some(500)));
    assert!(a.no_multicast && !a.dump && a.mode.is_none());
    let a = parse(&["--token", "t", "watch", "host", "--token", "x"]).unwrap();
    assert_eq!(a.mode, Some(Mode::Watch));
    assert_eq!(a.rest, names_of(&["host", "--token", "x"]));
    assert_eq!(watch_token(&a.rest), "x");
    assert_eq!(watch_token(&names_of(&["host", "--token"])), "");
    assert!(parse(&["--port", "70000"]).is_none());
    assert!(parse(&["--port"]).is_none());
    assert!(parse(&["--help"]).is_none());
    assert_eq!(discover_seconds(&names_of(&["3"])), 3);
    assert_eq!(discover_seconds(&names_of(&["x"])), 10);
    assert_eq!(discover_seconds(&[].to_vec()), 10);
}

#[test]
fn settings_of_the_agent() {
    let mut cfg = settings::Config::default();
    assert_eq!(cfg.port, DATA_PORT);
    assert!(cfg.multicast);
    assert!(ensure_id(&mut cfg, 1, 2));
    assert_eq!(cfg.id, new_id(1, 2));
    assert!(!ensure_id(&mut cfg, 3, 4));
    assert_eq!(cfg.id, new_id(1, 2));
    for (given, kept) in [(1, 250), (250, 250), (700, 700), (60_000, 60_000), (99_999, 60_000)] {
        let mut args = Args::new();
        args.interval_ms = Some(given);
        settings::apply(&mut cfg, &args);
        assert_eq!(cfg.interval_ms, kept);
    }
    let mut args = Args::new();
    args.no_multicast = true;
    args.token = Some("t".to_string());
    settings::apply(&mut cfg, &args);
    assert!(!cfg.multicast);
    assert_eq!(cfg.token, "t");
    assert_eq!(settings::file_text("x"), "# winstats-agent configuration\n\nx");
}

#[test]
fn service_comes_and_goes() {
    assert!(is_root("Name:\tx\nUid:\t0\t0\t0\t0\n"));
    assert!(!is_root("Uid:\t1000\t0\t0\t0\n") && !is_root(""));
    for p in [
        Platform::Linux { root: true },
        Platform::Linux { root: false },
        Platform::MacOs,
        Platform::Windows,
        Platform::Other,
    ] {
        let put = install(p, "/usr/bin/agent", "/etc/a.toml", Some("/home/u"), Some("u"));
        let taken = uninstall(p, Some("/home/u"));
        for s in &put {
            if let Step::Write { path, text } = s {
                assert!(text.contains("/usr/bin/agent"));
                assert!(taken.iter().any(|t| matches!(t, Step::Remove { path: q } if q == path)));
            }
        }
    }
    let put = install(Platform::Linux { root: true }, "/usr/bin/agent", "/etc/a.toml", None, None);
    assert!(matches!(&put[0], Step::Write { path, .. } if path == "/etc/systemd/system/winstats-agent.service"));
    assert_eq!(put.len(), 3);
}

fn raw_iface(name: &str, mac: &str, ips: Vec<(u32, u8)>) -> RawIface {
    RawIface {
        name: name.to_string(),
        mac: mac.to_string(),
        ips,
        rx: double(1.0),
        tx: double(2.0),
    }
}

fn raw_disk(name: &str, mount: &str, total: u64) -> RawDisk {
    RawDisk {
        name: name.to_string(),
        mount: mount.to_string(),
        fs: "ext4".to_string(),
        removable: false,
        readonly: false,
        kind: DiskKind::Ssd,
        total,
        free: 1,
        read: double(5.0),
        write: double(6.0),
    }
}

fn collector() -> (Collector, Vec<RawIface>, Vec<RawDisk>) {
    let ifaces = vec![
        raw_iface("wlan0", "aa", vec![(0x0a00_0001, 24)]),
        raw_iface("eth0", "bb", vec![(0x0a00_0002, 8)]),
        raw_iface("lo", "00:00:00:00:00:00", vec![(0x7f00_0001, 8)]),
        raw_iface("eth1", "cc", vec![]),
    ];
    let disks = vec![
        raw_disk("/dev/sda1", "/", 10),
        raw_disk("/dev/sda2", "/home", 20),
        raw_disk("/dev/loop1", "/snap/x", 5),
    ];
    let facts = Facts {
        id: "1".to_string(),
        name: String::new(),
        host: Some("box".to_string()),
        os: "linux".to_string(),
        os_name: Some("Debian".to_string()),
        os_version: Some("12".to_string()),
        arch: "x86_64".to_string(),
        agent: "0.2.0".to_string(),
        brands: names_of(&["CPU", "CPU"]),
        classes: vec![0, 0],
        clusters: vec![0, 0],
        sockets: 1,
        mem_total: 100,
        swap_total: 10,
        sensors: true,
    };
    (Collector::new(facts, &ifaces, &disks), ifaces, disks)
}

#[test]
fn agent_tells_what_the_machine_is() {
    let (c, ifaces, _) = collector();
    assert_eq!(c.info.name, "box");
    assert_eq!(c.info.cpu_name, "CPU");
    assert_eq!(c.info.cores, 2);
    assert_eq!(c.info.ifaces.iter().map(|i| i.id.as_str()).collect::<Vec<_>>(), vec!["eth0", "wlan0"]);
    for (i, a) in c.info.disks.iter().enumerate() {
        for b in &c.info.disks[i + 1..] {
            assert_ne!(a.id, b.id);
        }
    }
    assert_eq!(c.local_ipv4s(&ifaces), vec![(0x0a00_0001, 24), (0x0a00_0002, 8)]);
}

#[test]
fn agent_samples() {
    let (mut c, ifaces, disks) = collector();
    let reading = || Reading {
        cpu: CpuSample { total: single(0.5), ..Default::default() },
        mem: MemSample { used: 40, avail: 60, swap_used: 1 },
        temps: vec![
            TempSample { id: "a".to_string(), c: single(0.0) },
            TempSample { id: "b".to_string(), c: single(41.0) },
        ],
        load_one: double(0.0),
        load_five: double(0.0),
        load: [1.0, 2.0, 3.0].map(single).to_vec(),
    };
    let mut wild = reading();
    wild.cpu.cores = [-0.5, 0.25, 1.5].map(single).to_vec();
    let s = c.sample(wild, &ifaces, &disks);
    assert_eq!(s.cpu.cores, [0.0, 0.25, 1.0].map(single).to_vec());
    assert_eq!(s.cpu.total, single(0.5));
    assert_eq!(s.seq, 1);
    assert_eq!(s.net.len(), 2);
    assert_eq!(s.temp.len(), 1);
    assert!(s.load.is_empty());
    let s = c.sample(Reading { load_five: double(0.5), ..reading() }, &ifaces, &disks);
    assert_eq!(s.seq, 2);
    assert_eq!(s.load.len(), 3);
}

#[test]
fn agent_gives_details() {
    let (mut c, ifaces, disks) = collector();
    assert!(c.must_refresh(5) && !c.must_refresh(950_000_005));
    assert!(!c.must_refresh(1_000_000_004) && c.must_refresh(1_000_000_005));
    let p = |pid: u32, read: u64, thread: bool| RawProc { pid, thread, read, written: 1 };
    let first = c.io_deltas(&vec![p(1, 10, false), p(2, 10, true)], 1000);
    assert_eq!(first.len(), 1);
    assert!(first[0].pid == 1 && first[0].moved.is_none());
    let second = c.io_deltas(&vec![p(1, 15, false), p(3, 10, false)], 3000);
    let moved = second[0].moved.unwrap();
    assert_eq!((moved.bytes, moved.nanos), (5, 2000));
    assert!(second[1].pid == 3 && second[1].moved.is_none());
    let row = |pid: u32, cpu: f32, mem: u64, io: f64| ProcSample {
        pid,
        name: format!("p{}", pid),
        cpu: single(cpu),
        mem,
        io: double(io),
    };
    let rows = vec![row(1, 0.1, 5, 0.0), row(2, 0.9, 1, 4.0), row(3, 0.5, 3, 0.0)];
    let d = c.details(2, &rows, &ifaces, &disks);
    assert_eq!(d.n, 2);
    assert_eq!(d.top_cpu.iter().map(|r| r.pid).collect::<Vec<_>>(), vec![2, 3]);
    assert_eq!(d.top_mem.iter().map(|r| r.pid).collect::<Vec<_>>(), vec![1, 3]);
    assert_eq!(d.top_io.iter().map(|r| r.pid).collect::<Vec<_>>(), vec![2]);
    assert_eq!(d.drives.len(), 2);
    assert!(d.ips.contains(&("eth0".to_string(), "10.0.0.2".to_string())));
}
