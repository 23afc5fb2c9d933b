//! What the machine tells: processor, memory, disks, network, processes.

use std::collections::VecDeque;
use winstats::metrics::battery;
use winstats::metrics::cpu::{self, CoreTimes, ProcPerf};
use winstats::metrics::disks::{self, PhysicalDisk};
use winstats::metrics::drives;
use winstats::metrics::gpu::{driver_version, Gpu, RawAdapter};
use winstats::metrics::local::{Hardware, Metrics, Reading};
use winstats::metrics::mem::{used_of, Mem};
use winstats::metrics::net::{self, IfaceSample, Net};
use winstats::metrics::pdh;
use winstats::metrics::processes::{self, ProcInfo, Processes, RawProc};
use winstats::metrics::smbios::{self, MemModule};
use winstats::metrics::{core_order, push, MetricsData, HISTORY};
use winstats::number::{Double, Single};

fn single(x: f32) -> Single {
    Single { bits: x.to_bits() }
}

fn double(x: f64) -> Double {
    Double { bits: x.to_bits() }
}

fn names(list: &[&str]) -> Vec<String> {
    list.iter().map(|s| s.to_string()).collect()
}

fn units(s: &str) -> Vec<u16> {
    s.encode_utf16().collect()
}

// ---------------------------------------------------------------------------
// Histories and cores

#[test]
fn histories_keep_the_newest() {
    let mut q: VecDeque<u32> = VecDeque::new();
    for i in 0..300 {
        push(&mut q, i);
    }
    assert_eq!(q.len(), HISTORY);
    assert_eq!(q.iter().copied().collect::<Vec<u32>>(), (180..300).collect::<Vec<u32>>());
}

#[test]
fn cores_are_grouped_by_socket_and_class() {
    let packages = vec![0, 0, 1, 1, 0];
    let classes = vec![0, 1, 0, 1, 1];
    assert_eq!(core_order(&packages, &classes, 5, true), vec![1, 4, 0, 3, 2]);
    assert_eq!(core_order(&packages, &classes, 5, false), vec![0, 1, 2, 3, 4]);
}

#[test]
fn cores_of_two_classes() {
    let mut m = MetricsData::empty();
    m.cpu_cores = vec![single(0.1), single(0.2), single(0.3)];
    m.cpu_classes = vec![1, 1, 0];
    m.cpu_packages = vec![0, 0, 0];
    m.cpu_freq = vec![4000, 4200, 2000];
    assert!(m.cpu_hybrid());
    let (p, e) = m.cpu_pe();
    assert_eq!((p.len(), e.len()), (2, 1));
    assert_eq!(e[0], single(0.3));
    assert_eq!(m.cpu_breaks(), vec![false, false, true]);
    assert_eq!(m.cpu_clock(Some(0)), Some(2000));
    assert_eq!(m.cpu_clock(Some(7)), None);
    m.cpu_classes = vec![1, 1, 1];
    assert!(!m.cpu_hybrid());
}

/// A processor relation with one group.
fn relation(class: u8, mask: u64, group: u16) -> Vec<u8> {
    let mut b = vec![0u8; 48];
    b[4] = 48;
    b[9] = class;
    b[30] = 1;
    b[32..40].copy_from_slice(&mask.to_le_bytes());
    b[40..42].copy_from_slice(&group.to_le_bytes());
    b
}

#[test]
fn relations_give_classes_and_packages() {
    let mut buf = relation(1, 0b0011, 0);
    buf.extend(relation(0, 0b1100, 0));
    assert_eq!(cpu::relation_ids(5, &buf, true), vec![1, 1, 0, 0, 0]);
    assert_eq!(cpu::relation_ids(5, &buf, false), vec![0, 0, 1, 1, 0]);
    let other = relation(1, 0b1111, 1);
    assert_eq!(cpu::relation_ids(3, &other, true), vec![0, 0, 0]);
    assert_eq!(cpu::relation_ids(2, &[], true), vec![0, 0]);
    assert_eq!(cpu::sockets(&vec![0, 1, 1]), 2);
    assert_eq!(cpu::sockets(&vec![]), 1);
    assert_eq!(cpu::cpu_name(Some("  Intel(R)   Core  ".to_string())), "Intel(R) Core");
    assert_eq!(cpu::cpu_name(None), "");
}

#[test]
fn core_times_between_readings() {
    let a = ProcPerf { idle: 100, kernel: 150, user: 50 };
    let b = ProcPerf { idle: 160, kernel: 230, user: 70 };
    let loads = cpu::core_loads(&vec![a], &vec![b, a]);
    assert_eq!(loads, vec![CoreTimes { busy: 40, system: 20, user: 20, total: 100 }]);
    assert_eq!(
        cpu::core_steps(&vec![b], &vec![ProcPerf { idle: 170, kernel: 200, user: 71 }]),
        Some(vec![ProcPerf { idle: 10, kernel: 0, user: 1 }])
    );
    assert_eq!(cpu::core_steps(&vec![a], &vec![]), None);
    assert_eq!(cpu::core_steps(&vec![], &vec![]), None);
}

// ---------------------------------------------------------------------------
// Memory

#[test]
fn memory_in_use() {
    let mut m = Mem::default();
    m.update(1000, 400, 2000, 500, single(0.6));
    assert_eq!((m.used, m.pct, m.commit_used), (600, single(0.6), 1500));
    m.update(0, 10, 5, 9, single(0.6));
    assert_eq!((m.used, m.pct, m.commit_used), (0, Single::zero(), 0));
    assert_eq!(used_of(5, 9), 0);
}

fn device(size: u16, kind: u8, speed: u16, strings: &[&str]) -> Vec<u8> {
    let mut b = vec![0u8; 0x22];
    b[0] = 17;
    b[1] = 0x22;
    b[0x0c..0x0e].copy_from_slice(&size.to_le_bytes());
    b[0x10] = 1;
    b[0x11] = 2;
    b[0x12] = kind;
    b[0x15..0x17].copy_from_slice(&speed.to_le_bytes());
    b[0x17] = 3;
    b[0x1a] = 4;
    b[0x1c..0x20].copy_from_slice(&0x8000u32.to_le_bytes());
    for s in strings {
        b.extend(s.as_bytes());
        b.push(0);
    }
    b.push(0);
    b
}

fn table(devices: &[Vec<u8>]) -> Vec<u8> {
    let mut raw = vec![0u8; 8];
    for d in devices {
        raw.extend(d);
    }
    raw.extend([127, 4, 0, 0, 0, 0]);
    raw
}

#[test]
fn modules_are_read_from_the_table() {
    let a = device(0x4000, 0x22, 6000, &[" DIMM_A1 ", "BANK 0", "Kingston", "KF560"]);
    let empty = device(0, 0x22, 0, &["DIMM_A2", "BANK 1", "-", "-"]);
    let big = device(0x7fff, 0x22, 6000, &["DIMM_B1", "BANK 2", "Kingston", "KF560"]);
    let m = smbios::memory_modules(Some(&table(&[a, empty, big])));
    assert_eq!(m.len(), 2);
    assert_eq!((m[0].slot.as_str(), m[0].bank.as_str()), ("DIMM_A1", "BANK 0"));
    assert_eq!((m[0].mem_type, m[0].speed, m[0].size), ("DDR5", 6000, 16 << 30));
    assert_eq!((m[0].manufacturer.as_str(), m[0].part.as_str()), ("Kingston", "KF560"));
    assert_eq!(m[1].size, 32 << 30);
    assert_eq!(smbios::channels(&m), Some(2));
    assert!(smbios::memory_modules(None).is_empty());
    assert!(smbios::memory_modules(Some(&[0; 7])).is_empty());
    let kilobytes = device(0x8000 | 512, 0x02, 0, &["S", "B"]);
    assert_eq!(smbios::memory_modules(Some(&table(&[kilobytes])))[0].size, 512 * 1024);
}

#[test]
fn strings_of_the_table() {
    assert_eq!(smbios::smbios_string(b"one\0 two \0\0", 2), "two");
    assert_eq!(smbios::smbios_string(b"one\0two\0\0", 0), "");
    assert_eq!(smbios::smbios_string(b"one\0two\0\0", 3), "");
    assert_eq!(smbios::smbios_string(b"\xffx\0\0", 1), "\u{fffd}x");
}

fn module(slot: &str, bank: &str, size: u64) -> MemModule {
    MemModule {
        slot: slot.to_string(),
        bank: bank.to_string(),
        mem_type: "DDR5",
        speed: 6400,
        configured_speed: 6000,
        manufacturer: String::new(),
        part: String::new(),
        size,
    }
}

#[test]
fn channels_of_modules() {
    let id = |slot: &str, bank: &str| smbios::channel_id(&module(slot, bank, 1));
    assert_eq!(id("", "Controller0-ChannelB-DIMM0").as_deref(), Some("0B"));
    assert_eq!(id("ChannelA-DIMM1", "").as_deref(), Some("A"));
    assert_eq!(id("DIMM_B2", "BANK 3").as_deref(), Some("B"));
    assert_eq!(id("DIMM 0", "BANK 3"), None);
    let one = vec![module("DIMM_A1", "", 1), module("DIMM_A2", "", 1)];
    let two = vec![module("DIMM_B2", "", 1), module("DIMM_A1", "", 1), module("DIMM_B1", "", 1)];
    let mut turned = two.clone();
    turned.reverse();
    assert_eq!(smbios::channels(&one), Some(1));
    assert_eq!(smbios::channels(&two), Some(2));
    assert_eq!(smbios::channels(&two), smbios::channels(&turned));
    assert_eq!(smbios::channels(&[module("DIMM_A1", "", 1), module("x", "", 1)]), None);
    assert_eq!(smbios::channels(&[]), None);
}

#[test]
fn modules_in_a_line() {
    let gib = 1u64 << 30;
    let same = [module("", "", 16 * gib), module("", "", 16 * gib)];
    assert_eq!(smbios::summary(&same).as_deref(), Some("DDR5 6000 MT/s, 2 x 16 GB"));
    let mixed = [module("", "", 16 * gib), module("", "", 8 * gib)];
    assert_eq!(smbios::summary(&mixed).as_deref(), Some("DDR5 6000 MT/s, 16 GB + 8 GB"));
    assert_eq!(smbios::summary(&[]), None);
    let mut bare = module("", "", 8 * gib);
    bare.mem_type = "";
    bare.speed = 0;
    bare.configured_speed = 0;
    assert_eq!(smbios::summary(&[bare]).as_deref(), Some("1 x 8 GB"));
}

// ---------------------------------------------------------------------------
// Disks and drives

fn descriptor(vendor: &str, product: &str, bus: u8) -> Vec<u8> {
    let mut b = vec![0u8; 40];
    b[28] = bus;
    if !vendor.is_empty() {
        b[12] = b.len() as u8;
        b.extend(vendor.as_bytes());
        b.push(0);
    }
    b[16] = b.len() as u8;
    b.extend(product.as_bytes());
    b.push(0);
    b
}

#[test]
fn disks_are_described() {
    let q = |vendor: &str, product: &str, bus: u8, size: Option<i64>| {
        let b = descriptor(vendor, product, bus);
        disks::query(3, &b, b.len(), size)
    };
    let d = q("", " Samsung SSD 990 ", 17, Some(1 << 40)).unwrap();
    assert_eq!((d.index, d.model.as_str(), d.bus, d.size), (3, "Samsung SSD 990", "NVMe", 1 << 40));
    assert!(d.enabled);
    assert_eq!(q("WDC", "WDC Blue", 11, None).unwrap().model, "WDC Blue");
    assert_eq!(q("ATA", "WD Blue", 11, Some(-4)).unwrap().model, "ATA WD Blue");
    assert_eq!(q("ATA", "WD Blue", 11, Some(-4)).unwrap().size, 0);
    assert_eq!(q("", "", 7, None).unwrap().model, "Disk 3");
    assert!(q("", "VHD", 14, None).is_none());
    assert!(q("", "VHD", 15, None).is_none());
    let b = descriptor("", "x", 7);
    assert!(disks::query(0, &b, 39, None).is_none());
    assert_eq!(disks::bus_name(10), "SAS");
    assert_eq!(disks::bus_name(99), "");
    assert_eq!(disks::cstr_at(b"..ab\0cd", 2), "ab");
    assert_eq!(disks::cstr_at(b"..ab", 2), "ab");
    assert_eq!(disks::cstr_at(b"..ab", 0), "");
    assert_eq!(disks::cstr_at(b"..ab", 4), "");
}

fn disk(index: u32, model: &str) -> PhysicalDisk {
    PhysicalDisk {
        index,
        model: model.to_string(),
        bus: "",
        size: 0,
        read_bps: Double::zero(),
        write_bps: Double::zero(),
        enabled: true,
    }
}

#[test]
fn one_disk_stays_on() {
    let on = |list: Vec<PhysicalDisk>| list.iter().map(|d| d.enabled).collect::<Vec<bool>>();
    let both = || vec![disk(0, "A"), disk(1, "B")];
    assert_eq!(on(disks::with_disabled(both(), &names(&["A"]))), vec![false, true]);
    assert_eq!(on(disks::with_disabled(both(), &names(&["A", "B"]))), vec![true, true]);
    let twice = disks::with_disabled(disks::with_disabled(both(), &names(&["A"])), &names(&["B"]));
    assert_eq!(on(twice), vec![true, false]);
}

#[test]
fn drives_are_described() {
    let label = units("System\0\0\0");
    let fs = units("NTFS\0\0");
    let d = drives::describe('C', 3, false, Some((100, 40)), &label, &fs, 0).unwrap();
    assert_eq!((d.name.as_str(), d.label.as_str(), d.fs.as_str()), ("C:", "System", "NTFS"));
    assert_eq!((d.free, d.total, d.readonly, d.kind), (40, 100, false, ""));
    assert!(drives::describe('A', 2, true, Some((1, 2)), &[], &[], 0).is_none());
    assert!(drives::describe('Z', 4, false, Some((1, 2)), &[], &[], 0).is_none());
    assert_eq!(drives::drive_kind(2, false), Some("USB"));
    assert_eq!(drives::drive_kind(5, false), Some("DVD"));
    assert_eq!(drives::drive_letters(0b1000_0000_0000_0000_0000_0101), vec!['A', 'C', 'X']);
    assert!(drives::is_floppy('D', &units("\\Device\\Floppy0")));
    assert!(!drives::is_floppy('D', &units("\\Device\\HarddiskVolume3")));
    assert!(drives::is_floppy('A', &[]) && !drives::is_floppy('C', &[]));
    assert!(drives::is_floppy_device("\\DEVICE\\FLOPPY1"));
    assert_eq!(drives::root_of("C:"), "C:\\");
}

// ---------------------------------------------------------------------------
// Graphics, battery, counters

fn adapter(name: &str, dedicated: u64, flags: u32) -> RawAdapter {
    let mut description = units(name);
    description.extend([0, 0, 0]);
    RawAdapter {
        description,
        vendor_id: 0x10de,
        device_id: 1,
        dedicated,
        flags,
        driver: Some(0x001f_0000_000f_1234),
    }
}

#[test]
fn adapters_are_listed() {
    let list = vec![
        adapter("Small ", 1 << 20, 0),
        adapter("Software", 1 << 40, 2),
        adapter("Large", 8 << 30, 0),
    ];
    let (gpu, at) = Gpu::new(&list);
    assert_eq!(gpu.adapters.len(), 2);
    assert_eq!(gpu.adapters[0].name, "Small");
    assert_eq!((gpu.name.as_str(), gpu.vram_total), ("Large", 8 << 30));
    assert_eq!(at, Some(2));
    assert_eq!(gpu.primary().unwrap().vendor(), "NVIDIA");
    assert_eq!(gpu.primary().unwrap().driver, "31.0.15.4660");
    assert_eq!(driver_version(u64::MAX), "65535.65535.65535.65535");
    let twins = vec![adapter("Twin", 4 << 30, 0), adapter("Twin", 8 << 30, 0)];
    assert_eq!(Gpu::new(&twins).0.primary().unwrap().dedicated, 8 << 30);
    let (none, at) = Gpu::new(&vec![]);
    assert!(none.primary().is_none() && at.is_none());
}

#[test]
fn batteries_are_read() {
    assert!(battery::present(0, 80) && !battery::present(128, 80));
    assert_eq!(battery::read(128, 80, 1, 60, single(0.8)), None);
    let b = battery::read(8, 80, 1, u32::MAX, single(0.8)).unwrap();
    assert!(b.charging && b.on_ac && b.remaining_secs.is_none());
    let b = battery::read(0, 80, 0, 3600, single(0.8)).unwrap();
    assert!(!b.charging && !b.on_ac);
    assert_eq!(b.remaining_secs, Some(3600));
    assert_eq!(battery::detail(true, true, 0xffff_fffe, 5, 9).unwrap().rate_mw, -2);
    assert_eq!(battery::detail(true, false, 1, 5, 9), None);
    assert_eq!(battery::detail(false, true, 1, 5, 9), None);
}

#[test]
fn counters_are_put_together() {
    let entry = |s: &str, x: f64| (s.to_string(), double(x));
    let rows = pdh::per_disk(
        &vec![entry("1 D:", 5.0), entry("_Total", 9.0), entry("0 C: E:", 4.0)],
        &vec![entry("0 C: E:", 1.0), entry("2 F:", 2.0)],
    );
    assert_eq!(
        rows,
        vec![
            (0, double(4.0), double(1.0)),
            (1, double(5.0), Double::zero()),
            (2, Double::zero(), double(2.0)),
        ]
    );
    assert_eq!(pdh::engine_type("pid_4_luid_0_phys_0_eng_1_engtype_VideoDecode"), "VideoDecode");
    assert_eq!(pdh::engine_type("other"), "other");
    let list = names(&["a_engtype_3D", "b_engtype_Copy", "c_engtype_3D", "d_engtype_Copy"]);
    assert_eq!(pdh::engine_groups(&list), vec![0, 1, 0, 1]);
}

// ---------------------------------------------------------------------------
// Network

fn iface(alias: &str, kind: &'static str, up: bool, rx: u64, tx: u64) -> IfaceSample {
    IfaceSample {
        guid: 1,
        alias: alias.to_string(),
        description: String::new(),
        kind,
        up,
        rx,
        tx,
    }
}

#[test]
fn interfaces_are_told_apart() {
    assert_eq!(net::row_kind(24, 0, true), None);
    assert_eq!(net::row_kind(131, 0, true), None);
    assert_eq!(net::row_kind(6, 0, false), None);
    assert_eq!(net::row_kind(71, 0, true), Some("Wi-Fi"));
    assert_eq!(net::row_kind(6, 9, true), Some("Wi-Fi"));
    assert_eq!(net::row_kind(243, 0, true), Some("Mobile"));
    assert_eq!(net::row_kind(6, 10, true), Some("Bluetooth"));
    assert_eq!(net::ipv4_text(192, 168, 0, 1), "192.168.0.1");
    assert_eq!(net::ssid_text(b"homexxxx", 4), "home");
    assert_eq!(net::ssid_text(b"home", 32), "home");
}

#[test]
fn traffic_is_summed() {
    let mut n = Net::new(&names(&["Second"]));
    let mut cur = Vec::new();
    net::add_sample(&mut cur, 7, iface("First", "Ethernet", true, 100, 10));
    net::add_sample(&mut cur, 8, iface("Second", "Wi-Fi", true, 500, 50));
    let zero = (Double::zero(), Double::zero());
    assert_eq!(n.deltas(&cur), vec![(0, 0), (0, 0)]);
    assert_eq!(n.update(cur, &vec![zero, zero]), (0, 0));
    let mut cur = Vec::new();
    net::add_sample(&mut cur, 7, iface("First", "Ethernet", true, 150, 13));
    net::add_sample(&mut cur, 8, iface("Second", "Wi-Fi", true, 900, 90));
    net::add_sample(&mut cur, 9, iface("Third", "Wi-Fi", false, 900, 90));
    assert_eq!(n.deltas(&cur), vec![(50, 3), (400, 40), (0, 0)]);
    assert_eq!(n.update(cur, &vec![zero, zero, zero]), (50, 3));
    assert_eq!((n.total_rx, n.total_tx), (50, 3));
    assert_eq!(n.ifaces.len(), 3);
    assert_eq!(n.ifaces.iter().filter(|i| i.enabled).count(), 2);
    n.set_disabled(&names(&["First", "Second", "Third"]));
    assert!(n.ifaces.iter().all(|i| i.enabled));
    n.update_details(&vec![(7, "10.0.0.2".to_string())], &vec![]);
    assert_eq!((n.iface_name.as_str(), n.iface_ip.as_str()), ("First", "10.0.0.2"));
}

#[test]
fn samples_of_one_interface_are_not_doubled() {
    let mut cur = Vec::new();
    net::add_sample(&mut cur, 7, iface("A", "", true, 1, 1));
    net::add_sample(&mut cur, 8, iface("B", "", true, 1, 1));
    net::add_sample(&mut cur, 7, iface("C", "", true, 2, 2));
    assert_eq!(cur.len(), 2);
    assert_eq!(cur[0].1.alias, "C");
}

// ---------------------------------------------------------------------------
// Processes

fn process(pid: u32, name: &str, time: i64, transfer: i64, private: i64) -> RawProc {
    let name = if name.is_empty() { None } else { Some(units(name)) };
    RawProc { pid, create_time: 1, name, time, transfer, private }
}

#[test]
fn processes_are_compared_and_merged() {
    let mut p = Processes::new(0, 0);
    assert_eq!((p.cores, p.top_n), (1, 1));
    let first = p.sample(&vec![process(0, "", 1, 1, 1), process(4, "", 10, 0, 5)]);
    assert_eq!(first.len(), 1);
    assert_eq!(first[0].name, "System");
    assert!(first[0].used.is_none());
    let second = p.sample(&vec![
        process(4, "", 30, 7, 5),
        process(9, "a.exe", 3, 0, 20),
        process(10, "a.exe", 3, 0, 30),
    ]);
    assert_eq!(second[0].used, Some((20, 7)));
    assert_eq!(second[1].used, None);
    assert_eq!(processes::total_mem(&second), 55);
    let groups = processes::merge(&second);
    assert_eq!(groups.len(), 2);
    assert_eq!((groups[1].name.as_str(), groups[1].mem), ("a.exe", 50));
    assert_eq!(groups[1].members, vec![1, 2]);
    p.reset();
    assert!(p.prev.is_empty());
}

fn put(b: &mut [u8], at: usize, bytes: &[u8]) {
    b[at..at + bytes.len()].copy_from_slice(bytes);
}

#[test]
fn process_list_is_read() {
    let base = 0x7000_0000u64;
    let mut b = vec![0u8; 300 + 256];
    put(&mut b, 0, &300u32.to_le_bytes());
    put(&mut b, 8, &4096i64.to_le_bytes());
    put(&mut b, 32, &(-7i64).to_le_bytes());
    put(&mut b, 40, &20i64.to_le_bytes());
    put(&mut b, 48, &300i64.to_le_bytes());
    put(&mut b, 56, &10u16.to_le_bytes());
    put(&mut b, 64, &(base + 260).to_le_bytes());
    put(&mut b, 80, &77u64.to_le_bytes());
    put(&mut b, 232, &i64::MAX.to_le_bytes());
    put(&mut b, 240, &5i64.to_le_bytes());
    for (i, u) in units("a.exe").iter().enumerate() {
        put(&mut b, 260 + 2 * i, &u.to_le_bytes());
    }
    put(&mut b, 300 + 80, &4u64.to_le_bytes());
    put(&mut b, 300 + 56, &10u16.to_le_bytes());
    let list = processes::raw_procs(&b, base, true);
    assert_eq!(list.len(), 2);
    let p = &list[0];
    assert_eq!((p.pid, p.create_time, p.time), (77, -7, 320));
    assert_eq!((p.transfer, p.private), (i64::MAX, 4096));
    assert_eq!(p.name, Some(units("a.exe")));
    assert_eq!((list[1].pid, list[1].name.is_none()), (4, true));
    put(&mut b, 56, &1u16.to_le_bytes());
    assert_eq!(processes::raw_procs(&b, base, true)[0].name, Some(Vec::new()));
    put(&mut b, 56, &0u16.to_le_bytes());
    assert!(processes::raw_procs(&b, base, true)[0].name.is_none());
    put(&mut b, 0, &100_000u32.to_le_bytes());
    assert_eq!(processes::raw_procs(&b, base, true).len(), 1);
    assert_eq!(processes::raw_procs(&b[..255], base, true).len(), 0);
    let mut narrow = vec![0u8; 190];
    put(&mut narrow, 56, &4u16.to_le_bytes());
    put(&mut narrow, 60, &(base as u32 + 184).to_le_bytes());
    put(&mut narrow, 68, &9u32.to_le_bytes());
    put(&mut narrow, 160, &30i64.to_le_bytes());
    put(&mut narrow, 168, &4i64.to_le_bytes());
    for (i, u) in units("ab").iter().enumerate() {
        put(&mut narrow, 184 + 2 * i, &u.to_le_bytes());
    }
    let list = processes::raw_procs(&narrow, base, false);
    assert_eq!(list.len(), 1);
    assert_eq!((list[0].pid, list[0].transfer), (9, 34));
    assert_eq!(list[0].name, Some(units("ab")));
    assert_eq!(processes::next_room(1000, 10), 2000 + 65536);
    assert_eq!(processes::next_room(1000, 5000), 5000 + 65536);
}

#[test]
fn lists_lead_with_the_largest() {
    let row = |pid: u32, cpu: f32, mem: u64, io: f64| ProcInfo {
        pid,
        name: format!("p{}", pid),
        cpu: single(cpu),
        mem,
        io: double(io),
    };
    let mut p = Processes::new(4, 2);
    p.set_top(&vec![row(1, 0.1, 30, 0.0), row(2, 0.5, 10, 8.0), row(3, 0.3, 20, 0.0)], 60);
    let pids = |v: &Vec<ProcInfo>| v.iter().map(|x| x.pid).collect::<Vec<u32>>();
    assert_eq!(pids(&p.top_cpu), vec![2, 3]);
    assert_eq!(pids(&p.top_mem), vec![1, 3]);
    assert_eq!(pids(&p.top_io), vec![2]);
    assert_eq!(p.mem_total, 60);
}

// ---------------------------------------------------------------------------
// All of it

fn hardware() -> Hardware {
    let (gpu, _) = Gpu::new(&vec![adapter("Large", 8 << 30, 0)]);
    Hardware {
        cpu_name: "Some CPU".to_string(),
        cores: 4,
        classes: vec![0, 1, 0, 1],
        packages: vec![0, 0, 0, 0],
        gpu,
        disks: vec![disk(0, "A"), disk(1, "B")],
        modules: vec![module("DIMM_A1", "", 16 << 30)],
        gpu_available: true,
        battery_available: false,
    }
}

#[test]
fn numbers_are_narrowed() {
    let values = [
        0.0,
        -0.0,
        1.0,
        0.1,
        -1.0 / 3.0,
        16_777_217.0,
        16_777_219.0,
        f32::MAX as f64,
        3.402823567797337e38,
        3.5e38,
        f64::MAX,
        f64::INFINITY,
        f64::NEG_INFINITY,
        f32::MIN_POSITIVE as f64,
        1.1754943157898258e-38,
        1.0e-40,
        1.401298464324817e-45,
        7.006492321624085e-46,
        7.006492321624086e-46,
        1.0e-46,
        f64::MIN_POSITIVE,
        5e-324,
    ];
    for v in values {
        assert_eq!(double(v).narrow().bits, (v as f32).to_bits(), "{}", v);
        assert_eq!(double(-v).narrow().bits, (-v as f32).to_bits(), "{}", v);
    }
    let mut bits = 0x9e37_79b9_7f4a_7c15u64;
    for _ in 0..20_000 {
        bits = bits.wrapping_mul(6364136223846793005).wrapping_add(1442695040888963407);
        let low = (bits & 0x800f_ffff_ffff_ffff) | ((860 + (bits >> 40) % 320) << 52);
        for b in [bits, low] {
            let v = f64::from_bits(b);
            if !v.is_nan() {
                assert_eq!(double(v).narrow().bits, (v as f32).to_bits(), "{}", v);
            }
        }
    }
    assert!(double(f64::NAN).narrow().is_nan());
}

#[test]
fn histories_fill_and_stay() {
    let mut m = Metrics::new(hardware(), "C:", 0, &names(&[]), &names(&[]));
    for k in 1..=125usize {
        m.net.set_rates(double(k as f64 / 3.0), double(2.0));
        m.update(Reading {
            cores: Vec::new(),
            total: single(k as f32),
            system: single(0.0),
            user: single(0.0),
            mem: None,
            counters: Some((None, Vec::new(), double(3.0), double(k as f64 + 1e-9))),
            space: None,
            battery: None,
        });
        let d = &m.data;
        let n = k.min(120);
        let lens = [d.cpu_history.len(), d.mem_history.len(), d.gpu_history.len()];
        assert_eq!(lens, [n, n, n]);
        assert_eq!((d.net_history.len(), d.disk_history.len()), (n, n));
        assert_eq!(d.cpu_history[n - 1], single(k as f32));
        assert_eq!(d.net_history[n - 1], (single((k as f64 / 3.0) as f32), single(2.0)));
        assert_eq!(d.disk_history[n - 1].1, single(k as f32));
    }
    assert_eq!(m.data.cpu_history[0], single(6.0));
}

#[test]
fn readings_are_taken() {
    let mut m = Metrics::new(hardware(), "C:", 0, &names(&[]), &names(&["B"]));
    assert_eq!(m.data.cpu_name, "Some CPU");
    assert_eq!(m.data.top_n, 1);
    assert_eq!(m.data.mem_channels, Some(1));
    assert_eq!(m.data.disks.iter().map(|d| d.enabled).collect::<Vec<_>>(), vec![true, false]);
    assert!(m.sums_disks());
    m.set_group_pe(true);
    assert_eq!(m.cpu_order, vec![1, 3, 0, 2]);
    assert_eq!(m.data.cpu_classes, vec![1, 1, 0, 0]);
    let counted = m.enter_disk_rates(&vec![(0, double(3.0), double(4.0)), (1, double(5.0), double(6.0))]);
    assert_eq!(counted, vec![(double(3.0), double(4.0))]);
    assert_eq!(m.data.disks[1].read_bps, double(5.0));
    let cores: Vec<Single> = [0.1, 0.2, 0.3, 0.4].map(single).to_vec();
    m.update(Reading {
        cores,
        total: single(0.25),
        system: single(0.1),
        user: single(0.15),
        mem: Some((100, 40, 200, 50, single(0.6))),
        counters: Some((Some(single(0.5)), vec![1, 2, 3, 4], double(3.0), double(4.0))),
        space: Some((10, 20)),
        battery: None,
    });
    assert_eq!(m.data.cpu_cores, [0.2, 0.4, 0.1, 0.3].map(single).to_vec());
    assert_eq!(m.data.cpu_freq, vec![2, 4, 1, 3]);
    m.set_group_pe(false);
    assert_eq!(m.data.cpu_cores, [0.1, 0.2, 0.3, 0.4].map(single).to_vec());
    assert_eq!(m.data.cpu_freq, vec![1, 2, 3, 4]);
    m.set_group_pe(true);
    assert_eq!(m.data.cpu_freq, vec![2, 4, 1, 3]);
    assert_eq!((m.data.mem.used, m.data.mem.pct), (60, single(0.6)));
    assert_eq!(m.data.gpu, Some(single(0.5)));
    assert_eq!((m.data.disk_read, m.data.disk_write), (double(3.0), double(4.0)));
    assert_eq!(m.data.cpu_history.len(), 1);
    m.update_processes(Some((3, 4, 5, 4096)));
    assert_eq!(m.data.mem_kernel_paged, 3 * 4096);
    assert_eq!(m.data.mem_cache, 5 * 4096);
    m.set_top_n(7);
    assert_eq!((m.data.top_n, m.procs.top_n), (7, 7));
    m.set_disks_disabled(&names(&[]));
    assert!(!m.sums_disks());
}
