//! Which interfaces and mounts of a machine count, and what they are called.

use crate::text;
use vstd::prelude::*;
use vstd::string::StringExecFns;

verus! {

pub open spec fn starts(s: Seq<char>, pat: Seq<char>) -> bool {
    text::occurs_at(s, pat, 0)
}

pub open spec fn starts_with_any(s: Seq<char>, list: Seq<Seq<char>>) -> bool {
    exists|i: int| 0 <= i < list.len() && starts(s, #[trigger] list[i])
}

pub open spec fn has_any(s: Seq<char>, list: Seq<Seq<char>>) -> bool {
    exists|i: int| 0 <= i < list.len() && text::has(s, #[trigger] list[i])
}

pub open spec fn texts(v: Seq<&'static str>) -> Seq<Seq<char>> {
    v.map_values(|s: &'static str| s@)
}

fn any_start(s: &str, list: &Vec<&'static str>) -> (r: bool)
    ensures
        r == starts_with_any(s@, texts(list@)),
{
    let ghost l = texts(list@);
    let mut i: usize = 0;
    while i < list.len()
        invariant
            l == texts(list@),
            i <= list.len(),
            forall|j: int| 0 <= j < i ==> !starts(s@, #[trigger] l[j]),
        decreases list.len() - i,
    {
        assert(l[i as int] == list@[i as int]@);
        if text::starts_with(s, list[i]) {
            return true;
        }
        i += 1;
    }
    false
}

fn any_part(s: &str, list: &Vec<&'static str>) -> (r: bool)
    ensures
        r == has_any(s@, texts(list@)),
{
    let ghost l = texts(list@);
    let mut i: usize = 0;
    while i < list.len()
        invariant
            l == texts(list@),
            i <= list.len(),
            forall|j: int| 0 <= j < i ==> !text::has(s@, #[trigger] l[j]),
        decreases list.len() - i,
    {
        assert(l[i as int] == list@[i as int]@);
        if text::contains(s, list[i]) {
            return true;
        }
        i += 1;
    }
    false
}

fn any_same(s: &str, list: &Vec<&'static str>) -> (r: bool)
    ensures
        r == texts(list@).contains(s@),
{
    let ghost l = texts(list@);
    let mut i: usize = 0;
    while i < list.len()
        invariant
            l == texts(list@),
            i <= list.len(),
            forall|j: int| 0 <= j < i ==> #[trigger] l[j] != s@,
        decreases list.len() - i,
    {
        assert(l[i as int] == list@[i as int]@);
        if text::same(s, list[i]) {
            assert(l[i as int] == s@);
            return true;
        }
        i += 1;
    }
    false
}

// ---------------------------------------------------------------------------
// Interfaces

/// What names of virtual interfaces begin with: loopback, containers, tunnels,
/// bridges.
pub open spec fn virtual_starts() -> Seq<Seq<char>> {
    seq![
        "lo0"@,
        "docker"@,
        "veth"@,
        "br-"@,
        "virbr"@,
        "tun"@,
        "tap"@,
        "utun"@,
        "tailscale"@,
        "awdl"@,
        "llw"@,
        "bridge"@,
        "anpi"@,
        "ap1"@,
        "gif"@,
        "stf"@,
        "xhc"@,
        "vmnet"@,
        "zt"@,
        "wg"@,
        "cni"@,
        "flannel"@,
        "kube"@,
    ]
}

/// What names of virtual interfaces hold.
pub open spec fn virtual_parts() -> Seq<Seq<char>> {
    seq!["loopback"@, "vethernet"@, "hyper-v"@, "vmware"@, "virtualbox"@]
}

pub open spec fn is_virtual(name: Seq<char>) -> bool {
    let n = text::lower(name);
    n == "lo"@ || starts_with_any(n, virtual_starts()) || has_any(n, virtual_parts())
}

/// Interfaces that are not hardware: loopback, containers, tunnels, bridges.
pub fn skip_iface(name: &str) -> (r: bool)
    ensures
        r == is_virtual(name@),
{
    let n: String = text::ascii_lower(name);
    let starts: Vec<&'static str> = vec![
        "lo0",
        "docker",
        "veth",
        "br-",
        "virbr",
        "tun",
        "tap",
        "utun",
        "tailscale",
        "awdl",
        "llw",
        "bridge",
        "anpi",
        "ap1",
        "gif",
        "stf",
        "xhc",
        "vmnet",
        "zt",
        "wg",
        "cni",
        "flannel",
        "kube",
    ];
    assert(texts(starts@) =~= virtual_starts());
    let parts: Vec<&'static str> = vec![
        "loopback",
        "vethernet",
        "hyper-v",
        "vmware",
        "virtualbox",
    ];
    assert(texts(parts@) =~= virtual_parts());
    text::same(n.as_str(), "lo") || any_start(n.as_str(), &starts) || any_part(n.as_str(), &parts)
}

/// The kind of an interface, as its name tells it.
pub open spec fn kind_text(name: Seq<char>) -> Seq<char> {
    let n = text::lower(name);
    if starts(n, "wl"@) || text::has(n, "wi-fi"@) || text::has(n, "wifi"@) || text::has(
        n,
        "wlan"@,
    ) {
        "Wi-Fi"@
    } else if starts(n, "ww"@) || text::has(n, "mobile"@) || text::has(n, "cellular"@) {
        "Mobile"@
    } else if text::has(n, "bluetooth"@) || starts(n, "bnep"@) {
        "Bluetooth"@
    } else if starts(n, "en"@) || starts(n, "eth"@) || text::has(n, "ethernet"@) {
        "Ethernet"@
    } else {
        ""@
    }
}

pub fn iface_kind(name: &str) -> (r: &'static str)
    ensures
        r@ == kind_text(name@),
{
    let low: String = text::ascii_lower(name);
    let n: &str = low.as_str();
    if text::starts_with(n, "wl") || text::contains(n, "wi-fi") || text::contains(n, "wifi")
        || text::contains(n, "wlan") {
        "Wi-Fi"
    } else if text::starts_with(n, "ww") || text::contains(n, "mobile") || text::contains(
        n,
        "cellular",
    ) {
        "Mobile"
    } else if text::contains(n, "bluetooth") || text::starts_with(n, "bnep") {
        "Bluetooth"
    } else if text::starts_with(n, "en") || text::starts_with(n, "eth") || text::contains(
        n,
        "ethernet",
    ) {
        "Ethernet"
    } else {
        ""
    }
}

// ---------------------------------------------------------------------------
// Mounts

/// File systems that are not storage.
pub open spec fn virtual_systems() -> Seq<Seq<char>> {
    seq![
        "squashfs"@,
        "overlay"@,
        "tmpfs"@,
        "devtmpfs"@,
        "ramfs"@,
        "proc"@,
        "sysfs"@,
        "cgroup"@,
        "cgroup2"@,
        "efivarfs"@,
        "fuse.portal"@,
        "autofs"@,
        "devfs"@,
        "nullfs"@,
    ]
}

/// What mount points that are not storage begin with.
pub open spec fn virtual_mounts() -> Seq<Seq<char>> {
    seq![
        "/snap/"@,
        "/boot/efi"@,
        "/System/Volumes/"@,
        "/private/var/vm"@,
        "/dev"@,
        "/run/"@,
        "/sys/"@,
        "/proc/"@,
    ]
}

pub open spec fn is_no_storage(fs: Seq<char>, name: Seq<char>, mount: Seq<char>) -> bool {
    virtual_systems().contains(text::lower(fs)) || starts(name, "/dev/loop"@) || starts_with_any(
        mount,
        virtual_mounts(),
    )
}

/// Mounted file systems that are not storage: snaps, overlays, RAM disks.
pub fn skip_mount(fs: &str, name: &str, mount: &str) -> (r: bool)
    ensures
        r == is_no_storage(fs@, name@, mount@),
{
    let low: String = text::ascii_lower(fs);
    let systems: Vec<&'static str> = vec![
        "squashfs",
        "overlay",
        "tmpfs",
        "devtmpfs",
        "ramfs",
        "proc",
        "sysfs",
        "cgroup",
        "cgroup2",
        "efivarfs",
        "fuse.portal",
        "autofs",
        "devfs",
        "nullfs",
    ];
    assert(texts(systems@) =~= virtual_systems());
    let mounts: Vec<&'static str> = vec![
        "/snap/",
        "/boot/efi",
        "/System/Volumes/",
        "/private/var/vm",
        "/dev",
        "/run/",
        "/sys/",
        "/proc/",
    ];
    assert(texts(mounts@) =~= virtual_mounts());
    any_same(low.as_str(), &systems) || text::starts_with(name, "/dev/loop") || any_start(
        mount,
        &mounts,
    )
}

/// The device of a volume, or its mount point where the system names none.
pub open spec fn device_text(name: Seq<char>, mount: Seq<char>) -> Seq<char> {
    let n = text::trimmed(name);
    if n.len() == 0 {
        text::without_trailing(mount, '\\')
    } else {
        n
    }
}

/// Device name of a mounted volume ("/dev/nvme0n1p2", "disk1s1"); Windows
/// reports none, so the mount point stands in.
pub fn disk_id(name: &str, mount: &str) -> (r: String)
    ensures
        r@ == device_text(name@, mount@),
{
    let n: String = text::trim(name);
    if text::chars_of(n.as_str()).len() == 0 {
        text::strip_trailing(mount, '\\')
    } else {
        n
    }
}

// ---------------------------------------------------------------------------
// The machine

/// The names of the processors, each once, with a plus sign between them.
pub open spec fn processor_text(brands: Seq<Seq<char>>, n: int) -> Seq<char>
    decreases n,
{
    if n <= 0 {
        Seq::empty()
    } else {
        let cur = processor_text(brands, n - 1);
        let b = text::trimmed(brands[n - 1]);
        if b.len() == 0 || text::split_by(cur, " + "@).contains(b) {
            cur
        } else if cur.len() == 0 {
            b
        } else {
            cur + " + "@ + b
        }
    }
}

/// "Cortex-A55 + Cortex-A76" on a machine with different processors, one name
/// elsewhere.
pub fn cpu_name(brands: &Vec<String>) -> (r: String)
    ensures
        r@ == processor_text(text::views(brands@), brands@.len() as int),
{
    let ghost v = text::views(brands@);
    let mut name: String = String::new();
    let mut i: usize = 0;
    assert(name@ =~= processor_text(v, 0));
    while i < brands.len()
        invariant
            v == text::views(brands@),
            i <= brands.len(),
            name@ == processor_text(v, i as int),
        decreases brands.len() - i,
    {
        assert(v[i as int] == brands@[i as int]@);
        let b: String = text::trim(brands[i].as_str());
        proof {
            reveal_strlit(" + ");
        }
        if text::chars_of(b.as_str()).len() > 0 && !text::is_piece(
            name.as_str(),
            " + ",
            b.as_str(),
        ) {
            if text::chars_of(name.as_str()).len() > 0 {
                name.append(" + ");
            }
            name.append(b.as_str());
            assert(name@ =~= processor_text(v, i + 1));
        }
        i += 1;
    }
    name
}

/// The name of the machine: the configured one, else the host's.
pub open spec fn machine_text(configured: Seq<char>, host: Option<Seq<char>>) -> Seq<char> {
    if configured.len() > 0 {
        configured
    } else {
        match host {
            Some(h) => h,
            None => "agent"@,
        }
    }
}

pub open spec fn opt(s: Option<String>) -> Option<Seq<char>> {
    match s {
        Some(x) => Some(x@),
        None => None,
    }
}

pub fn machine_name(configured: &str, host: &Option<String>) -> (r: String)
    ensures
        r@ == machine_text(configured@, opt(*host)),
{
    if text::chars_of(configured).len() > 0 {
        return configured.to_string();
    }
    match host {
        Some(h) => h.clone(),
        None => "agent".to_string(),
    }
}

/// The system's name and version, as far as they are known.
pub open spec fn system_text(name: Option<Seq<char>>, version: Option<Seq<char>>) -> Seq<char> {
    match name {
        Some(n) => match version {
            Some(v) => n + " "@ + v,
            None => n,
        },
        None => Seq::empty(),
    }
}

pub fn os_version(name: &Option<String>, version: &Option<String>) -> (r: String)
    ensures
        r@ == system_text(opt(*name), opt(*version)),
{
    match name {
        Some(n) => {
            let mut s: String = n.clone();
            if let Some(v) = version {
                s.append(" ");
                s.append(v.as_str());
            }
            s
        },
        None => {
            let s: String = String::new();
            assert(s@ =~= Seq::<char>::empty());
            s
        },
    }
}

/// Where a connection goes: the host, with the usual port where none is given.
pub open spec fn target_text(host: Seq<char>) -> Seq<char> {
    if text::has(host, ":"@) {
        host
    } else {
        host + ":"@ + text::decimal(crate::proto::DATA_PORT as nat)
    }
}

pub fn target(host: &str) -> (r: String)
    ensures
        r@ == target_text(host@),
{
    let mut s: String = host.to_string();
    if !text::contains(host, ":") {
        s.append(":");
        s.append(text::number(crate::proto::DATA_PORT as u64).as_str());
    }
    s
}

/// Names are read in any case: two that differ in it alone are of one kind, and
/// count or do not count alike.
pub proof fn law_case_does_not_matter(a: Seq<char>, b: Seq<char>, name: Seq<char>, mount: Seq<char>)
    requires
        text::lower(a) == text::lower(b),
    ensures
        is_virtual(a) == is_virtual(b),
        kind_text(a) == kind_text(b),
        is_no_storage(a, name, mount) == is_no_storage(b, name, mount),
{
}

proof fn lemma_starts(pat: Seq<char>, rest: Seq<char>)
    ensures
        starts(pat + rest, pat),
{
    assert((pat + rest).subrange(0, pat.len() as int) =~= pat);
}

/// An interface whose name begins as that of a container, a tunnel or a bridge
/// does not count, whatever follows; and the mounts of the system do not either.
pub proof fn law_virtual_names_do_not_count(i: int, rest: Seq<char>, fs: Seq<char>, name: Seq<char>)
    ensures
        0 <= i < virtual_starts().len() ==> forall|n: Seq<char>|
            text::lower(n) == virtual_starts()[i] + rest ==> #[trigger] is_virtual(n),
        0 <= i < virtual_mounts().len() ==> is_no_storage(fs, name, virtual_mounts()[i] + rest),
        is_no_storage(fs, "/dev/loop"@ + rest, name),
{
    if 0 <= i < virtual_starts().len() {
        lemma_starts(virtual_starts()[i], rest);
        assert forall|n: Seq<char>| text::lower(n) == virtual_starts()[i] + rest implies
            #[trigger] is_virtual(n) by {
            assert(starts(text::lower(n), virtual_starts()[i]));
        }
    }
    if 0 <= i < virtual_mounts().len() {
        lemma_starts(virtual_mounts()[i], rest);
        assert(starts(virtual_mounts()[i] + rest, virtual_mounts()[i]));
    }
    lemma_starts("/dev/loop"@, rest);
}

/// The kind of an interface is one of five, and that of one whose name begins as
/// that of a wireless one is Wi-Fi.
pub proof fn law_kinds_of_interfaces(name: Seq<char>, rest: Seq<char>)
    ensures
        kind_text(name) == "Wi-Fi"@ || kind_text(name) == "Mobile"@ || kind_text(name)
            == "Bluetooth"@ || kind_text(name) == "Ethernet"@ || kind_text(name) == ""@,
        text::lower(name) == "wl"@ + rest ==> kind_text(name) == "Wi-Fi"@,
        text::has(text::lower(name), "wi-fi"@) ==> kind_text(name) == "Wi-Fi"@,
        text::has(text::lower(name), "ethernet"@) && kind_text(name) == ""@ ==> false,
        text::has(text::lower(name), "bluetooth"@) ==> kind_text(name) != "Ethernet"@ && kind_text(
            name,
        ) != ""@,
{
    lemma_starts("wl"@, rest);
    reveal_strlit("Wi-Fi");
    reveal_strlit("Mobile");
    reveal_strlit("Bluetooth");
    reveal_strlit("Ethernet");
    reveal_strlit("");
    assert("Wi-Fi"@.len() == 5 && "Mobile"@.len() == 6 && "Bluetooth"@.len() == 9
        && "Ethernet"@.len() == 8 && ""@.len() == 0);
}

/// A volume that the system names goes by that name, and one that it does not by
/// its mount point.
pub proof fn law_volumes_are_named(name: Seq<char>, mount: Seq<char>)
    ensures
        text::trimmed(name).len() > 0 ==> device_text(name, mount) == text::trimmed(name),
        text::trimmed(name).len() == 0 ==> device_text(name, mount) == text::without_trailing(
            mount,
            '\\',
        ),
{
}

proof fn lemma_single_piece(b: Seq<char>)
    requires
        !text::has(b, " + "@),
    ensures
        text::split_by(b, " + "@).contains(b),
{
    text::lemma_has_is_find(b, " + "@);
    assert(seq![b][0] == b);
}

/// However many cores name one processor, it is named once; a second one follows
/// a plus sign.
pub proof fn law_processors_are_named_once(brands: Seq<Seq<char>>, b: Seq<char>, n: int)
    requires
        0 < n <= brands.len(),
        forall|i: int| 0 <= i < n ==> text::trimmed(#[trigger] brands[i]) == b,
        b.len() > 0,
        !text::has(b, " + "@),
    ensures
        processor_text(brands, n) == b,
        n < brands.len() && text::trimmed(brands[n]).len() > 0 && text::trimmed(brands[n]) != b
            ==> processor_text(brands, n + 1) == b + " + "@ + text::trimmed(brands[n]),
    decreases n,
{
    lemma_single_piece(b);
    text::lemma_has_is_find(b, " + "@);
    assert(text::trimmed(brands[n - 1]) == b);
    if n > 1 {
        law_processors_are_named_once(brands, b, n - 1);
    } else {
        assert(processor_text(brands, 0) =~= Seq::<char>::empty());
        let e = Seq::<char>::empty();
        text::lemma_has_is_find(e, " + "@);
        reveal_strlit(" + ");
        assert(text::split_by(e, " + "@).len() == 1);
        assert(text::split_by(e, " + "@)[0].len() == 0);
        assert(!text::split_by(e, " + "@).contains(b));
    }
    if n < brands.len() {
        let c = text::trimmed(brands[n]);
        assert(text::split_by(b, " + "@) == seq![b]);
        if c != b && c.len() > 0 {
            assert(!seq![b].contains(c));
            assert(processor_text(brands, (n + 1) - 1) == b);
            assert(text::trimmed(brands[(n + 1) - 1]) == c);
            assert(processor_text(brands, n + 1) == b + " + "@ + c);
        }
    }
}

/// The name that is configured goes before the host's.
pub proof fn law_configured_name_goes_first(configured: Seq<char>, host: Option<Seq<char>>)
    ensures
        configured.len() > 0 ==> machine_text(configured, host) == configured,
        configured.len() == 0 && host.is_some() ==> Some(machine_text(configured, host)) == host,
        configured.len() == 0 && host.is_none() ==> machine_text(configured, host).len() > 0,
{
    reveal_strlit("agent");
}

/// The system is called by its name with its version behind it.
pub proof fn law_system_is_name_and_version(name: Seq<char>, version: Seq<char>)
    ensures
        system_text(Some(name), Some(version)) == name + " "@ + version,
        system_text(Some(name), None) == name,
        system_text(None, Some(version)).len() == 0,
{
}

/// A target always has a port, and one that has is left as it is.
pub proof fn law_target_has_a_port(host: Seq<char>)
    ensures
        text::has(target_text(host), ":"@),
        target_text(target_text(host)) == target_text(host),
        target_text(host).len() >= host.len() && target_text(host).take(host.len() as int) == host,
{
    reveal_strlit(":");
    let t = target_text(host);
    if !text::has(host, ":"@) {
        assert(t.subrange(host.len() as int, host.len() as int + 1) =~= ":"@);
        assert(text::occurs_at(t, ":"@, host.len() as int));
    }
    assert(t.take(host.len() as int) =~= host);
}

} // verus!
