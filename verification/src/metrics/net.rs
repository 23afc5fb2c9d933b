//! Network throughput over the physical interfaces: every hardware adapter is
//! listed with its own rate, address and, for Wi-Fi, the network it is joined
//! to; the totals count the interfaces that the user has not switched off.

use crate::number::Double;
use crate::order::{self, Descending, Pair};
use crate::text;
use crate::util;
use vstd::prelude::*;

verus! {

pub const IF_TYPE_ETHERNET: u32 = 6;

pub const IF_TYPE_LOOPBACK: u32 = 24;

pub const IF_TYPE_WIFI: u32 = 71;

pub const IF_TYPE_TUNNEL: u32 = 131;

pub const IF_TYPE_MOBILE_GSM: u32 = 243;

pub const IF_TYPE_MOBILE_CDMA: u32 = 244;

pub const MEDIUM_MOBILE: i32 = 8;

pub const MEDIUM_WIFI: i32 = 9;

pub const MEDIUM_BLUETOOTH: i32 = 10;

/// One interface in one reading of the system's table.
pub struct IfaceSample {
    pub guid: u128,
    pub alias: String,
    pub description: String,
    pub kind: &'static str,
    pub up: bool,
    pub rx: u64,
    pub tx: u64,
}

/// One physical adapter as shown in the popup.
#[derive(Clone, Debug)]
pub struct NetIface {
    pub luid: u64,
    pub guid: u128,
    /// Name that the user sees ("Ethernet", "Wi-Fi 2").
    pub alias: String,
    /// Hardware name from the driver.
    pub description: String,
    /// "Ethernet", "Wi-Fi", "Mobile", "Bluetooth" or "".
    pub kind: &'static str,
    pub up: bool,
    pub rx_bps: Double,
    pub tx_bps: Double,
    pub ip: String,
    /// Wi-Fi: the network currently joined.
    pub ssid: String,
    /// Counted in the widget and the chart.
    pub enabled: bool,
}

impl NetIface {
    pub fn copy(&self) -> (r: NetIface)
        ensures
            r == *self,
    {
        NetIface {
            luid: self.luid,
            guid: self.guid,
            alias: self.alias.clone(),
            description: self.description.clone(),
            kind: self.kind,
            up: self.up,
            rx_bps: self.rx_bps,
            tx_bps: self.tx_bps,
            ip: self.ip.clone(),
            ssid: self.ssid.clone(),
            enabled: self.enabled,
        }
    }
}

/// A copy of a list of interfaces.
pub fn copy_ifaces(v: &Vec<NetIface>) -> (r: Vec<NetIface>)
    ensures
        r@ == v@,
{
    let mut r: Vec<NetIface> = Vec::new();
    let mut i: usize = 0;
    while i < v.len()
        invariant
            i <= v.len(),
            r@ == v@.take(i as int),
        decreases v.len() - i,
    {
        r.push(v[i].copy());
        i += 1;
    }
    r
}

pub struct Net {
    /// The last reading.
    pub prev: Option<Vec<(u64, IfaceSample)>>,
    pub rx_bps: Double,
    pub tx_bps: Double,
    /// Bytes since the start, enabled interfaces only.
    pub total_rx: u64,
    pub total_tx: u64,
    /// The enabled interface that carried the most in the last reading.
    pub busiest: Option<(u64, String)>,
    pub iface_name: String,
    pub iface_ip: String,
    /// Every hardware interface, connected ones first.
    pub ifaces: Vec<NetIface>,
    /// Names the user switched off.
    pub disabled: Vec<String>,
}

// ---------------------------------------------------------------------------
// One row of the interface table

/// The kind of an interface that is listed; `None` for one that is not
/// (loopback, tunnels, virtual adapters).
pub open spec fn kind_of(if_type: u32, medium: i32, hardware: bool) -> Option<Seq<char>> {
    if if_type == IF_TYPE_LOOPBACK || if_type == IF_TYPE_TUNNEL || !hardware {
        None
    } else if if_type == IF_TYPE_WIFI || medium == MEDIUM_WIFI {
        Some("Wi-Fi"@)
    } else if if_type == IF_TYPE_MOBILE_GSM || if_type == IF_TYPE_MOBILE_CDMA || medium
        == MEDIUM_MOBILE {
        Some("Mobile"@)
    } else if medium == MEDIUM_BLUETOOTH {
        Some("Bluetooth"@)
    } else if if_type == IF_TYPE_ETHERNET {
        Some("Ethernet"@)
    } else {
        Some(""@)
    }
}

pub fn row_kind(if_type: u32, medium: i32, hardware: bool) -> (r: Option<&'static str>)
    ensures
        match r {
            Some(k) => kind_of(if_type, medium, hardware) == Some(k@),
            None => kind_of(if_type, medium, hardware).is_none(),
        },
{
    if if_type == IF_TYPE_LOOPBACK || if_type == IF_TYPE_TUNNEL || !hardware {
        None
    } else if if_type == IF_TYPE_WIFI || medium == MEDIUM_WIFI {
        Some("Wi-Fi")
    } else if if_type == IF_TYPE_MOBILE_GSM || if_type == IF_TYPE_MOBILE_CDMA || medium
        == MEDIUM_MOBILE {
        Some("Mobile")
    } else if medium == MEDIUM_BLUETOOTH {
        Some("Bluetooth")
    } else if if_type == IF_TYPE_ETHERNET {
        Some("Ethernet")
    } else {
        Some("")
    }
}

/// The position of an interface in a reading, or its length.
pub open spec fn position<T>(s: Seq<(u64, T)>, luid: u64) -> int
    decreases s.len(),
{
    if s.len() == 0 {
        0
    } else if s[0].0 == luid {
        0
    } else {
        1 + position(s.skip(1), luid)
    }
}

pub proof fn lemma_position<T>(s: Seq<(u64, T)>, luid: u64)
    ensures
        0 <= position(s, luid) <= s.len(),
        position(s, luid) < s.len() ==> s[position(s, luid)].0 == luid,
        forall|i: int| 0 <= i < position(s, luid) ==> (#[trigger] s[i]).0 != luid,
    decreases s.len(),
{
    if s.len() > 0 && s[0].0 != luid {
        lemma_position(s.skip(1), luid);
        assert forall|i: int| 0 <= i < position(s, luid) implies (#[trigger] s[i]).0 != luid by {
            if i > 0 {
                assert(s.skip(1)[i - 1] == s[i]);
            }
        }
    }
}

fn find<T>(v: &Vec<(u64, T)>, luid: u64) -> (r: usize)
    ensures
        r == position(v@, luid),
        r <= v@.len(),
{
    proof {
        lemma_position(v@, luid);
    }
    let mut i: usize = 0;
    while i < v.len() && v[i].0 != luid
        invariant
            i <= v.len(),
            forall|j: int| 0 <= j < i ==> (#[trigger] v@[j]).0 != luid,
        decreases v.len() - i,
    {
        i += 1;
    }
    i
}

/// No interface occurs twice in a reading.
pub open spec fn distinct<T>(s: Seq<(u64, T)>) -> bool {
    forall|i: int, j: int| 0 <= i < j < s.len() ==> (#[trigger] s[i]).0 != (#[trigger] s[j]).0
}

/// Adds an interface to a reading; a later row replaces an earlier one with
/// the same number.
pub fn add_sample(v: &mut Vec<(u64, IfaceSample)>, luid: u64, s: IfaceSample)
    requires
        distinct(old(v)@),
    ensures
        distinct(final(v)@),
        final(v)@ == (if position(old(v)@, luid) < old(v)@.len() {
            old(v)@.update(position(old(v)@, luid), (luid, s))
        } else {
            old(v)@.push((luid, s))
        }),
{
    let ghost v0 = v@;
    let i: usize = find(v, luid);
    proof {
        lemma_position(v0, luid);
    }
    if i < v.len() {
        let _gone: (u64, IfaceSample) = v.remove(i);
        v.insert(i, (luid, s));
        assert(v@ =~= v0.update(i as int, (luid, s)));
    } else {
        v.push((luid, s));
    }
    assert forall|a: int, b: int| 0 <= a < b < v@.len() implies (#[trigger] v@[a]).0 != (
    #[trigger] v@[b]).0 by {
        if i < v0.len() {
            assert(v@[a].0 == v0[a].0);
            assert(v@[b].0 == v0[b].0);
        } else {
            assert(v@[a] == v0[a]);
            if b < v0.len() {
                assert(v@[b] == v0[b]);
            }
        }
    }
}

// ---------------------------------------------------------------------------
// From one reading to the next

/// Bytes received and sent by an interface since the last reading: nothing
/// for one that is new, and nothing where a counter went back.
pub open spec fn delta(prev: Option<Seq<(u64, IfaceSample)>>, cur: (u64, IfaceSample)) -> (u64, u64) {
    match prev {
        None => (0, 0),
        Some(p) => {
            let i = position(p, cur.0);
            if i < p.len() {
                (
                    if cur.1.rx >= p[i].1.rx {
                        (cur.1.rx - p[i].1.rx) as u64
                    } else {
                        0
                    },
                    if cur.1.tx >= p[i].1.tx {
                        (cur.1.tx - p[i].1.tx) as u64
                    } else {
                        0
                    },
                )
            } else {
                (0, 0)
            }
        },
    }
}

pub open spec fn prev_view(prev: Option<Vec<(u64, IfaceSample)>>) -> Option<Seq<(u64, IfaceSample)>> {
    match prev {
        Some(v) => Some(v@),
        None => None,
    }
}

/// The deltas of all interfaces of a reading.
pub open spec fn all_deltas(
    prev: Option<Seq<(u64, IfaceSample)>>,
    cur: Seq<(u64, IfaceSample)>,
) -> Seq<(u64, u64)> {
    cur.map_values(|c: (u64, IfaceSample)| delta(prev, c))
}

/// Whether an interface is switched on: it is not on the list of those
/// switched off.
pub open spec fn wanted(disabled: Seq<String>, alias: Seq<char>) -> bool {
    !text::listed(disabled, alias)
}

/// All interfaces of a reading are switched off: then all of them count.
pub open spec fn none_wanted(disabled: Seq<String>, cur: Seq<(u64, IfaceSample)>) -> bool {
    forall|i: int| 0 <= i < cur.len() ==> !wanted(disabled, (#[trigger] cur[i]).1.alias@)
}

/// Whether an interface counts in the totals.
pub open spec fn counts(disabled: Seq<String>, cur: Seq<(u64, IfaceSample)>, i: int) -> bool {
    cur[i].1.up && (wanted(disabled, cur[i].1.alias@) || none_wanted(disabled, cur))
}

/// The bytes received by the first `n` interfaces, as far as they count.
pub open spec fn rx_sum(
    disabled: Seq<String>,
    cur: Seq<(u64, IfaceSample)>,
    deltas: Seq<(u64, u64)>,
    n: nat,
) -> nat
    decreases n,
{
    if n == 0 {
        0
    } else {
        rx_sum(disabled, cur, deltas, (n - 1) as nat) + if counts(disabled, cur, n - 1) {
            deltas[n - 1].0 as nat
        } else {
            0
        }
    }
}

/// The bytes sent by the first `n` interfaces, as far as they count.
pub open spec fn tx_sum(
    disabled: Seq<String>,
    cur: Seq<(u64, IfaceSample)>,
    deltas: Seq<(u64, u64)>,
    n: nat,
) -> nat
    decreases n,
{
    if n == 0 {
        0
    } else {
        tx_sum(disabled, cur, deltas, (n - 1) as nat) + if counts(disabled, cur, n - 1) {
            deltas[n - 1].1 as nat
        } else {
            0
        }
    }
}

/// The address and network known of an interface from the last list.
pub open spec fn known_ip(ifaces: Seq<NetIface>, luid: u64) -> Seq<char>
    decreases ifaces.len(),
{
    if ifaces.len() == 0 {
        Seq::empty()
    } else if ifaces.last().luid == luid {
        ifaces.last().ip@
    } else {
        known_ip(ifaces.drop_last(), luid)
    }
}

pub open spec fn known_ssid(ifaces: Seq<NetIface>, luid: u64) -> Seq<char>
    decreases ifaces.len(),
{
    if ifaces.len() == 0 {
        Seq::empty()
    } else if ifaces.last().luid == luid {
        ifaces.last().ssid@
    } else {
        known_ssid(ifaces.drop_last(), luid)
    }
}

/// `r` is the list entry of an interface of the reading.
pub open spec fn is_entry(
    old_list: Seq<NetIface>,
    disabled: Seq<String>,
    cur: Seq<(u64, IfaceSample)>,
    rates: Seq<(Double, Double)>,
    i: int,
    r: NetIface,
) -> bool {
    &&& r.luid == cur[i].0
    &&& r.guid == cur[i].1.guid
    &&& r.alias@ == cur[i].1.alias@
    &&& r.description@ == cur[i].1.description@
    &&& r.kind@ == cur[i].1.kind@
    &&& r.up == cur[i].1.up
    &&& r.rx_bps == rates[i].0
    &&& r.tx_bps == rates[i].1
    &&& r.ip@ == known_ip(old_list, cur[i].0)
    &&& r.ssid@ == known_ssid(old_list, cur[i].0)
    &&& r.enabled == (wanted(disabled, cur[i].1.alias@) || none_wanted(disabled, cur))
}

/// The sort key of an interface: connected ones first, and then by name.
pub open spec fn list_key(s: IfaceSample) -> Pair<Descending<u64>, String> {
    Pair(
        Descending(
            if s.up {
                1u64
            } else {
                0u64
            },
        ),
        s.alias,
    )
}

pub open spec fn list_keys(cur: Seq<(u64, IfaceSample)>) -> Seq<Pair<Descending<u64>, String>> {
    cur.map_values(|c: (u64, IfaceSample)| list_key(c.1))
}

/// `b` is the interface at which the most has flowed, the first of several;
/// `p` lists the interfaces in the order of the list.
pub open spec fn is_best(
    disabled: Seq<String>,
    cur: Seq<(u64, IfaceSample)>,
    deltas: Seq<(u64, u64)>,
    p: Seq<usize>,
    b: int,
) -> bool {
    &&& 0 <= b < p.len()
    &&& counts(disabled, cur, p[b] as int)
    &&& forall|k: int|
        0 <= k < p.len() && counts(disabled, cur, (#[trigger] p[k]) as int) ==> volume(deltas, p[k] as int)
            <= volume(deltas, p[b] as int) && (k < b ==> volume(deltas, p[k] as int) < volume(
            deltas,
            p[b] as int,
        ))
}

pub open spec fn volume(deltas: Seq<(u64, u64)>, i: int) -> int {
    deltas[i].0 + deltas[i].1
}

/// An interface of this number counts in the reading.
pub open spec fn still_counts(disabled: Seq<String>, cur: Seq<(u64, IfaceSample)>, luid: u64) -> bool {
    exists|i: int| 0 <= i < cur.len() && (#[trigger] cur[i]).0 == luid && counts(disabled, cur, i)
}

/// The interface named in the title after a reading: none where none counts;
/// the one at which the most has flowed; but the one before stays while
/// nothing flows and it still counts.
pub open spec fn busiest_after(
    before: Option<(u64, String)>,
    disabled: Seq<String>,
    cur: Seq<(u64, IfaceSample)>,
    deltas: Seq<(u64, u64)>,
    p: Seq<usize>,
    after: Option<(u64, String)>,
) -> bool {
    if forall|i: int| 0 <= i < cur.len() ==> !#[trigger] counts(disabled, cur, i) {
        after.is_none()
    } else {
        exists|b: int| #[trigger]
            is_best(disabled, cur, deltas, p, b) && {
                let i = p[b] as int;
                if volume(deltas, i) > 0 || before.is_none() || !still_counts(
                    disabled,
                    cur,
                    (before->0).0,
                ) {
                    after matches Some((luid, alias)) && luid == cur[i].0 && alias@
                        == cur[i].1.alias@
                } else {
                    after == before
                }
            }
    }
}

/// `list` holds the entries of the reading in the order that `p` lists.
pub open spec fn is_list(
    old_list: Seq<NetIface>,
    disabled: Seq<String>,
    cur: Seq<(u64, IfaceSample)>,
    rates: Seq<(Double, Double)>,
    p: Seq<usize>,
    list: Seq<NetIface>,
) -> bool {
    &&& list.len() == cur.len()
    &&& forall|k: int|
        0 <= k < list.len() ==> is_entry(
            old_list,
            disabled,
            cur,
            rates,
            p[k] as int,
            #[trigger] list[k],
        )
}

/// The reading `cur` has led from one state to the next; `r` is what was
/// received and sent.
pub open spec fn updated(
    before: Net,
    cur: Seq<(u64, IfaceSample)>,
    rates: Seq<(Double, Double)>,
    r: (u64, u64),
    after: Net,
) -> bool {
    let d = all_deltas(prev_view(before.prev), cur);
    let off = before.disabled@;
    &&& r.0 == rx_sum(off, cur, d, cur.len())
    &&& r.1 == tx_sum(off, cur, d, cur.len())
    &&& after.total_rx == before.total_rx + r.0
    &&& after.total_tx == before.total_tx + r.1
    &&& exists|p: Seq<usize>| #[trigger]
        order::is_stable_order(list_keys(cur), p) && is_list(
            before.ifaces@,
            off,
            cur,
            rates,
            p,
            after.ifaces@,
        ) && busiest_after(before.busiest, off, cur, d, p, after.busiest)
    &&& prev_view(after.prev) == Some(cur)
    &&& after.rx_bps == before.rx_bps
    &&& after.tx_bps == before.tx_bps
    &&& after.iface_name == before.iface_name
    &&& after.iface_ip == before.iface_ip
    &&& after.disabled == before.disabled
}

fn known(ifaces: &Vec<NetIface>, luid: u64) -> (r: (String, String))
    ensures
        r.0@ == known_ip(ifaces@, luid),
        r.1@ == known_ssid(ifaces@, luid),
{
    let mut i: usize = ifaces.len();
    assert(ifaces@.take(i as int) =~= ifaces@);
    while i > 0
        invariant
            i <= ifaces.len(),
            known_ip(ifaces@, luid) == known_ip(ifaces@.take(i as int), luid),
            known_ssid(ifaces@, luid) == known_ssid(ifaces@.take(i as int), luid),
        decreases i,
    {
        assert(ifaces@.take(i as int).last() == ifaces@[i - 1]);
        assert(ifaces@.take(i as int).drop_last() =~= ifaces@.take(i - 1));
        if ifaces[i - 1].luid == luid {
            return (ifaces[i - 1].ip.clone(), ifaces[i - 1].ssid.clone());
        }
        i -= 1;
    }
    (String::new(), String::new())
}

impl Net {
    pub fn new(disabled: &Vec<String>) -> (r: Net)
        ensures
            r.prev.is_none(),
            r.rx_bps == Double::zero(),
            r.tx_bps == Double::zero(),
            r.total_rx == 0,
            r.total_tx == 0,
            r.busiest.is_none(),
            r.iface_name@.len() == 0,
            r.iface_ip@.len() == 0,
            r.ifaces@.len() == 0,
            r.disabled@ == disabled@,
    {
        Net {
            prev: None,
            rx_bps: Double::zero(),
            tx_bps: Double::zero(),
            total_rx: 0,
            total_tx: 0,
            busiest: None,
            iface_name: String::new(),
            iface_ip: String::new(),
            ifaces: Vec::new(),
            disabled: text::copy_list(disabled),
        }
    }

    /// What each interface of a new reading has received and sent since the
    /// last one.
    pub fn deltas(&self, cur: &Vec<(u64, IfaceSample)>) -> (r: Vec<(u64, u64)>)
        ensures
            r@ == all_deltas(prev_view(self.prev), cur@),
    {
        let mut r: Vec<(u64, u64)> = Vec::new();
        let mut i: usize = 0;
        while i < cur.len()
            invariant
                i <= cur.len(),
                r@ == all_deltas(prev_view(self.prev), cur@).take(i as int),
            decreases cur.len() - i,
        {
            let d: (u64, u64) = match &self.prev {
                None => (0, 0),
                Some(p) => {
                    let k: usize = find(p, cur[i].0);
                    if k < p.len() {
                        (
                            cur[i].1.rx.saturating_sub(p[k].1.rx),
                            cur[i].1.tx.saturating_sub(p[k].1.tx),
                        )
                    } else {
                        (0, 0)
                    }
                },
            };
            assert(d == delta(prev_view(self.prev), cur@[i as int]));
            r.push(d);
            i += 1;
        }
        r
    }

    /// Takes a new reading with the rate of each of its interfaces. Lists the
    /// interfaces, connected ones first and then by name; adds what the
    /// counting ones have received and sent to the totals and returns it; and
    /// picks the busiest one.
    pub fn update(&mut self, cur: Vec<(u64, IfaceSample)>, rates: &Vec<(Double, Double)>) -> (r: (
        u64,
        u64,
    ))
        requires
            rates@.len() == cur@.len(),
            ({
                let d = all_deltas(prev_view(old(self).prev), cur@);
                let n = cur@.len();
                &&& old(self).total_rx + rx_sum(old(self).disabled@, cur@, d, n) <= u64::MAX
                &&& old(self).total_tx + tx_sum(old(self).disabled@, cur@, d, n) <= u64::MAX
                &&& forall|i: int|
                    0 <= i < n && counts(old(self).disabled@, cur@, i) ==> #[trigger] volume(d, i)
                        <= u64::MAX
            }),
        ensures
            updated(*old(self), cur@, rates@, r, *final(self)),
            final(self).prev == Some(cur),
    {
        let ghost off = self.disabled@;
        let ghost before = self.busiest;
        let ghost old_list = self.ifaces@;
        let d: Vec<(u64, u64)> = self.deltas(&cur);
        let mut keys: Vec<Pair<Descending<u64>, String>> = Vec::new();
        let mut on: Vec<bool> = Vec::new();
        let mut any: bool = false;
        let mut i: usize = 0;
        while i < cur.len()
            invariant
                i <= cur.len(),
                off == self.disabled@,
                keys@ == list_keys(cur@).take(i as int),
                on@.len() == i,
                forall|j: int| 0 <= j < i ==> #[trigger] on@[j] == wanted(off, cur@[j].1.alias@),
                any == exists|j: int| 0 <= j < i && wanted(off, (#[trigger] cur@[j]).1.alias@),
            decreases cur.len() - i,
        {
            let up: u64 = if cur[i].1.up {
                1
            } else {
                0
            };
            keys.push(Pair(Descending(up), cur[i].1.alias.clone()));
            assert(keys@[i as int] == list_key(cur@[i as int].1));
            let w: bool = !text::list_contains(&self.disabled, cur[i].1.alias.as_str());
            on.push(w);
            if w {
                any = true;
            }
            i += 1;
        }
        assert(keys@ =~= list_keys(cur@));
        assert(any == !none_wanted(off, cur@));
        let p: Vec<usize> = order::stable_order(&keys);
        let mut list: Vec<NetIface> = Vec::new();
        let mut best: Option<usize> = None;
        let mut k: usize = 0;
        while k < p.len()
            invariant
                k <= p.len(),
                off == self.disabled@,
                old_list == self.ifaces@,
                p@.len() == cur@.len(),
                cur@.len() == cur.len(),
                rates@.len() == cur@.len(),
                on@.len() == cur@.len(),
                d@.len() == cur@.len(),
                order::is_permutation(p@),
                any == !none_wanted(off, cur@),
                forall|j: int|
                    0 <= j < cur@.len() ==> #[trigger] on@[j] == wanted(off, cur@[j].1.alias@),
                forall|j: int|
                    0 <= j < cur@.len() && counts(off, cur@, j) ==> #[trigger] volume(d@, j)
                        <= u64::MAX,
                list@.len() == k,
                forall|j: int|
                    0 <= j < k ==> is_entry(
                        old_list,
                        off,
                        cur@,
                        rates@,
                        p@[j] as int,
                        #[trigger] list@[j],
                    ),
                match best {
                    None => forall|j: int| 0 <= j < k ==> !counts(off, cur@, #[trigger] p@[j] as int),
                    Some(b) => {
                        &&& b < k
                        &&& counts(off, cur@, p@[b as int] as int)
                        &&& forall|j: int|
                            0 <= j < k && counts(off, cur@, (#[trigger] p@[j]) as int) ==> volume(
                                d@,
                                p@[j] as int,
                            ) <= volume(d@, p@[b as int] as int) && (j < b ==> volume(
                                d@,
                                p@[j] as int,
                            ) < volume(d@, p@[b as int] as int))
                    },
                },
            decreases p.len() - k,
        {
            let i: usize = p[k];
            let s: &IfaceSample = &cur[i].1;
            let (ip, ssid) = known(&self.ifaces, cur[i].0);
            let enabled: bool = on[i] || !any;
            let e: NetIface = NetIface {
                luid: cur[i].0,
                guid: s.guid,
                alias: s.alias.clone(),
                description: s.description.clone(),
                kind: s.kind,
                up: s.up,
                rx_bps: rates[i].0,
                tx_bps: rates[i].1,
                ip,
                ssid,
                enabled,
            };
            list.push(e);
            if enabled && s.up {
                assert(counts(off, cur@, i as int));
                assert(volume(d@, i as int) <= u64::MAX);
                let v: u64 = d[i].0 + d[i].1;
                match best {
                    None => {
                        best = Some(k);
                    },
                    Some(b) => {
                        let j: usize = p[b];
                        assert(volume(d@, j as int) <= u64::MAX);
                        if v > d[j].0 + d[j].1 {
                            best = Some(k);
                        }
                    },
                }
            }
            k += 1;
        }
        let mut drx: u64 = 0;
        let mut dtx: u64 = 0;
        let mut m: usize = 0;
        while m < cur.len()
            invariant
                m <= cur.len(),
                on@.len() == cur@.len(),
                d@.len() == cur@.len(),
                any == !none_wanted(off, cur@),
                forall|j: int|
                    0 <= j < cur@.len() ==> #[trigger] on@[j] == wanted(off, cur@[j].1.alias@),
                drx == rx_sum(off, cur@, d@, m as nat),
                dtx == tx_sum(off, cur@, d@, m as nat),
                rx_sum(off, cur@, d@, cur@.len()) <= u64::MAX,
                tx_sum(off, cur@, d@, cur@.len()) <= u64::MAX,
            decreases cur.len() - m,
        {
            proof {
                lemma_sums_grow(off, cur@, d@, (m + 1) as nat, cur@.len());
            }
            if (on[m] || !any) && cur[m].1.up {
                assert(counts(off, cur@, m as int));
                drx = drx + d[m].0;
                dtx = dtx + d[m].1;
            } else {
                assert(!counts(off, cur@, m as int));
            }
            m += 1;
        }
        match best {
            Some(b) => {
                let i: usize = p[b];
                assert(is_best(off, cur@, d@, p@, b as int));
                assert(counts(off, cur@, i as int));
                let flowing: bool = d[i].0 > 0 || d[i].1 > 0;
                let mut keep: bool = false;
                if let Some((l, _name)) = &self.busiest {
                    let mut q: usize = 0;
                    while q < cur.len()
                        invariant
                            q <= cur.len(),
                            on@.len() == cur@.len(),
                            any == !none_wanted(off, cur@),
                            forall|j: int|
                                0 <= j < cur@.len() ==> #[trigger] on@[j] == wanted(
                                    off,
                                    cur@[j].1.alias@,
                                ),
                            keep == exists|j: int|
                                0 <= j < q && (#[trigger] cur@[j]).0 == *l && counts(off, cur@, j),
                        decreases cur.len() - q,
                    {
                        if cur[q].0 == *l && (on[q] || !any) && cur[q].1.up {
                            assert(counts(off, cur@, q as int));
                            keep = true;
                        }
                        q += 1;
                    }
                    assert(keep == still_counts(off, cur@, *l));
                }
                if flowing || !keep {
                    self.busiest = Some((cur[i].0, cur[i].1.alias.clone()));
                }
            },
            None => {
                proof {
                    assert forall|j: int| 0 <= j < cur@.len() implies !#[trigger] counts(
                        off,
                        cur@,
                        j,
                    ) by {
                        order::lemma_permutation_covers(p@, j);
                        let w = choose|w: int| 0 <= w < p@.len() && p@[w] == j;
                        assert(!counts(off, cur@, p@[w] as int));
                    }
                }
                self.busiest = None;
            },
        }
        self.ifaces = list;
        self.total_rx = self.total_rx + drx;
        self.total_tx = self.total_tx + dtx;
        self.prev = Some(cur);
        proof {
            assert(order::is_stable_order(list_keys(cur@), p@));
            assert(is_list(old_list, off, cur@, rates@, p@, self.ifaces@));
            assert(busiest_after(before, off, cur@, d@, p@, self.busiest));
        }
        (drx, dtx)
    }

    /// Sets the rates of the totals, which the caller has from what `update`
    /// returned and the time that went by.
    pub fn set_rates(&mut self, rx_bps: Double, tx_bps: Double)
        ensures
            *final(self) == (Net { rx_bps, tx_bps, ..*old(self) }),
    {
        self.rx_bps = rx_bps;
        self.tx_bps = tx_bps;
    }

    /// Switches interfaces on and off by name. When that would leave none
    /// on, all are on.
    pub fn set_disabled(&mut self, disabled: &Vec<String>)
        ensures
            final(self).disabled@ == disabled@,
            final(self).ifaces@ == switched(old(self).ifaces@, disabled@),
            final(self).prev == old(self).prev,
            final(self).rx_bps == old(self).rx_bps,
            final(self).tx_bps == old(self).tx_bps,
            final(self).total_rx == old(self).total_rx,
            final(self).total_tx == old(self).total_tx,
            final(self).busiest == old(self).busiest,
            final(self).iface_name == old(self).iface_name,
            final(self).iface_ip == old(self).iface_ip,
    {
        self.disabled = text::copy_list(disabled);
        switch(&mut self.ifaces, disabled);
    }

    /// Enters the addresses by interface number and the Wi-Fi networks by
    /// interface id, and the name and address of the busiest interface.
    pub fn update_details(&mut self, ips: &Vec<(u64, String)>, ssids: &Vec<(u128, String)>)
        ensures
            final(self).ifaces@.len() == old(self).ifaces@.len(),
            forall|i: int|
                0 <= i < old(self).ifaces@.len() ==> detailed(
                    old(self).ifaces@[i],
                    ips@,
                    ssids@,
                    #[trigger] final(self).ifaces@[i],
                ),
            match old(self).busiest {
                Some((luid, alias)) => {
                    &&& final(self).iface_name@ == alias@
                    &&& final(self).iface_ip@ == text_for(ips@, luid)
                },
                None => {
                    &&& final(self).iface_name@.len() == 0
                    &&& final(self).iface_ip@.len() == 0
                },
            },
            final(self).prev == old(self).prev,
            final(self).rx_bps == old(self).rx_bps,
            final(self).tx_bps == old(self).tx_bps,
            final(self).total_rx == old(self).total_rx,
            final(self).total_tx == old(self).total_tx,
            final(self).busiest == old(self).busiest,
            final(self).disabled == old(self).disabled,
    {
        let ghost list0 = self.ifaces@;
        let ghost self0 = *self;
        let mut i: usize = 0;
        while i < self.ifaces.len()
            invariant
                i <= self.ifaces@.len(),
                self.ifaces@.len() == list0.len(),
                *self == (Net { ifaces: self.ifaces, ..self0 }),
                forall|j: int| i <= j < list0.len() ==> #[trigger] self.ifaces@[j] == list0[j],
                forall|j: int|
                    0 <= j < i ==> detailed(list0[j], ips@, ssids@, #[trigger] self.ifaces@[j]),
            decreases self.ifaces.len() - i,
        {
            let ip: String = find_text(ips, self.ifaces[i].luid);
            let ssid: String = if text::same(self.ifaces[i].kind, "Wi-Fi") {
                find_wide_text(ssids, self.ifaces[i].guid)
            } else {
                String::new()
            };
            self.ifaces[i].ip = ip;
            self.ifaces[i].ssid = ssid;
            i += 1;
        }
        match &self.busiest {
            Some((luid, alias)) => {
                let name: String = alias.clone();
                let ip: String = find_text(ips, *luid);
                self.iface_name = name;
                self.iface_ip = ip;
            },
            None => {
                self.iface_name = String::new();
                self.iface_ip = String::new();
            },
        }
    }
}

/// All interfaces of a list are switched off.
pub open spec fn all_off(list: Seq<NetIface>, disabled: Seq<String>) -> bool {
    forall|i: int| 0 <= i < list.len() ==> text::listed(disabled, (#[trigger] list[i]).alias@)
}

/// A list of interfaces with those of `disabled` off; where that would leave
/// none on, all are on.
pub open spec fn switched(list: Seq<NetIface>, disabled: Seq<String>) -> Seq<NetIface> {
    Seq::new(
        list.len(),
        |i: int|
            NetIface {
                enabled: !text::listed(disabled, list[i].alias@) || all_off(list, disabled),
                ..list[i]
            },
    )
}

/// Switches interfaces on and off by name; all are on where none would be.
pub fn switch(list: &mut Vec<NetIface>, disabled: &Vec<String>)
    ensures
        final(list)@ == switched(old(list)@, disabled@),
{
    let ghost list0 = list@;
    let mut any: bool = false;
    let mut i: usize = 0;
    while i < list.len()
        invariant
            i <= list@.len(),
            list@.len() == list0.len(),
            forall|j: int| i <= j < list0.len() ==> #[trigger] list@[j] == list0[j],
            forall|j: int|
                0 <= j < i ==> #[trigger] list@[j] == (NetIface {
                    enabled: !text::listed(disabled@, list0[j].alias@),
                    ..list0[j]
                }),
            any == exists|j: int|
                0 <= j < i && !text::listed(disabled@, (#[trigger] list0[j]).alias@),
        decreases list.len() - i,
    {
        let on: bool = !text::list_contains(disabled, list[i].alias.as_str());
        list[i].enabled = on;
        if on {
            assert(!text::listed(disabled@, list0[i as int].alias@));
            any = true;
        }
        i += 1;
    }
    if !any {
        let mut k: usize = 0;
        while k < list.len()
            invariant
                k <= list@.len(),
                list@.len() == list0.len(),
                forall|j: int|
                    k <= j < list0.len() ==> #[trigger] list@[j] == (NetIface {
                        enabled: !text::listed(disabled@, list0[j].alias@),
                        ..list0[j]
                    }),
                forall|j: int|
                    0 <= j < k ==> #[trigger] list@[j] == (NetIface { enabled: true, ..list0[j] }),
            decreases list.len() - k,
        {
            list[k].enabled = true;
            k += 1;
        }
    }
    assert(any == !all_off(list0, disabled@));
    assert(list@ =~= switched(list0, disabled@));
}

/// However the user switches, a list that is not empty has an interface that
/// is on.
pub proof fn law_one_interface_stays_on(list: Seq<NetIface>, disabled: Seq<String>)
    requires
        list.len() > 0,
    ensures
        exists|i: int| 0 <= i < list.len() && (#[trigger] switched(list, disabled)[i]).enabled,
{
    let s = switched(list, disabled);
    if all_off(list, disabled) {
        assert(s[0].enabled);
    } else {
        let w = choose|w: int|
            0 <= w < list.len() && !text::listed(disabled, (#[trigger] list[w]).alias@);
        assert(s[w].enabled);
    }
}

/// The text entered for a key, the first where there are several; empty
/// where there is none.
pub open spec fn text_for<K>(v: Seq<(K, String)>, key: K) -> Seq<char>
    decreases v.len(),
{
    if v.len() == 0 {
        Seq::empty()
    } else if v[0].0 == key {
        v[0].1@
    } else {
        text_for(v.skip(1), key)
    }
}

fn find_text(v: &Vec<(u64, String)>, key: u64) -> (r: String)
    ensures
        r@ == text_for(v@, key),
{
    let mut i: usize = 0;
    assert(v@.skip(0) =~= v@);
    while i < v.len()
        invariant
            i <= v.len(),
            text_for(v@, key) == text_for(v@.skip(i as int), key),
        decreases v.len() - i,
    {
        assert(v@.skip(i as int)[0] == v@[i as int]);
        assert(v@.skip(i as int).skip(1) =~= v@.skip(i + 1));
        if v[i].0 == key {
            return v[i].1.clone();
        }
        i += 1;
    }
    String::new()
}

fn find_wide_text(v: &Vec<(u128, String)>, key: u128) -> (r: String)
    ensures
        r@ == text_for(v@, key),
{
    let mut i: usize = 0;
    assert(v@.skip(0) =~= v@);
    while i < v.len()
        invariant
            i <= v.len(),
            text_for(v@, key) == text_for(v@.skip(i as int), key),
        decreases v.len() - i,
    {
        assert(v@.skip(i as int)[0] == v@[i as int]);
        assert(v@.skip(i as int).skip(1) =~= v@.skip(i + 1));
        if v[i].0 == key {
            return v[i].1.clone();
        }
        i += 1;
    }
    String::new()
}

/// `r` is the interface with its address and network entered; only Wi-Fi has
/// a network.
pub open spec fn detailed(
    i: NetIface,
    ips: Seq<(u64, String)>,
    ssids: Seq<(u128, String)>,
    r: NetIface,
) -> bool {
    &&& r == (NetIface { ip: r.ip, ssid: r.ssid, ..i })
    &&& r.ip@ == text_for(ips, i.luid)
    &&& r.ssid@ == (if i.kind@ == "Wi-Fi"@ {
        text_for(ssids, i.guid)
    } else {
        Seq::<char>::empty()
    })
}

proof fn lemma_sums_grow(
    off: Seq<String>,
    cur: Seq<(u64, IfaceSample)>,
    d: Seq<(u64, u64)>,
    m: nat,
    n: nat,
)
    requires
        m <= n,
    ensures
        rx_sum(off, cur, d, m) <= rx_sum(off, cur, d, n),
        tx_sum(off, cur, d, m) <= tx_sum(off, cur, d, n),
    decreases n - m,
{
    if m < n {
        lemma_sums_grow(off, cur, d, m, (n - 1) as nat);
    }
}

/// An address in dotted decimals.
pub open spec fn dotted(a: u8, b: u8, c: u8, d: u8) -> Seq<char> {
    text::decimal(a as nat) + "."@ + text::decimal(b as nat) + "."@ + text::decimal(c as nat)
        + "."@ + text::decimal(d as nat)
}

/// The text of an IPv4 address.
pub fn ipv4_text(a: u8, b: u8, c: u8, d: u8) -> (r: String)
    ensures
        r@ == dotted(a, b, c, d),
{
    let mut s: String = text::number(a as u64);
    s.append(".");
    s.append(text::number(b as u64).as_str());
    s.append(".");
    s.append(text::number(c as u64).as_str());
    s.append(".");
    s.append(text::number(d as u64).as_str());
    s
}

/// The name of a wireless network, from the first `len` of its bytes.
pub fn ssid_text(bytes: &[u8], len: usize) -> (r: String)
    ensures
        r@ == util::utf8_lossy(
            bytes@.take(
                if len < bytes@.len() {
                    len as int
                } else {
                    bytes@.len() as int
                },
            ),
        ),
{
    let n: usize = if len < bytes.len() {
        len
    } else {
        bytes.len()
    };
    let head: &[u8] = vstd::slice::slice_subrange(bytes, 0, n);
    assert(head@ =~= bytes@.take(n as int));
    util::from_utf8(head)
}

// ---------------------------------------------------------------------------
// What holds of the traffic

/// The interface at `i` of a reading is connected and not switched off.
pub open spec fn is_on(disabled: Seq<String>, cur: Seq<(u64, IfaceSample)>, i: int) -> bool {
    cur[i].1.up && !text::listed(disabled, cur[i].1.alias@)
}

/// Some interface of a reading is not switched off.
pub open spec fn some_wanted(disabled: Seq<String>, cur: Seq<(u64, IfaceSample)>) -> bool {
    exists|i: int| 0 <= i < cur.len() && !text::listed(disabled, (#[trigger] cur[i]).1.alias@)
}

proof fn lemma_sums_of_front(
    off: Seq<String>,
    prev: Option<Seq<(u64, IfaceSample)>>,
    cur: Seq<(u64, IfaceSample)>,
    x: (u64, IfaceSample),
    n: nat,
)
    requires
        n <= cur.len(),
        some_wanted(off, cur) || cur.len() == 0,
    ensures
        rx_sum(off, cur.push(x), all_deltas(prev, cur.push(x)), n) == rx_sum(
            off,
            cur,
            all_deltas(prev, cur),
            n,
        ),
        tx_sum(off, cur.push(x), all_deltas(prev, cur.push(x)), n) == tx_sum(
            off,
            cur,
            all_deltas(prev, cur),
            n,
        ),
    decreases n,
{
    if n > 0 {
        lemma_sums_of_front(off, prev, cur, x, (n - 1) as nat);
        let more = cur.push(x);
        let w = choose|w: int| 0 <= w < cur.len() && !text::listed(off, (#[trigger] cur[w]).1.alias@);
        assert(more[w] == cur[w]);
        assert(more[n - 1] == cur[n - 1]);
        assert(!none_wanted(off, cur)) by {
            assert(wanted(off, cur[w].1.alias@));
        }
        assert(!none_wanted(off, more)) by {
            assert(wanted(off, more[w].1.alias@));
        }
        assert(counts(off, more, n - 1) == counts(off, cur, n - 1));
    }
}

proof fn lemma_delta(prev: Seq<(u64, IfaceSample)>, j: int, c: (u64, IfaceSample))
    requires
        distinct(prev),
        0 <= j < prev.len(),
        prev[j].0 == c.0,
    ensures
        prev[j].1.rx <= c.1.rx ==> prev[j].1.rx + delta(Some(prev), c).0 == c.1.rx,
        prev[j].1.tx <= c.1.tx ==> prev[j].1.tx + delta(Some(prev), c).1 == c.1.tx,
        prev[j].1.rx >= c.1.rx ==> delta(Some(prev), c).0 == 0,
        prev[j].1.tx >= c.1.tx ==> delta(Some(prev), c).1 == 0,
{
    lemma_position(prev, c.0);
    let i = position(prev, c.0);
    if i < j {
        assert(prev[i].0 != prev[j].0);
    } else if j < i {
        assert(prev[j].0 != c.0);
    }
}

/// Traffic is additive: with one more interface in the reading, what was
/// received and sent grows by how far that interface's own counters went where
/// it is connected and on, and stays where it is disconnected or off. `j` is
/// where the reading before has the interface.
pub proof fn law_traffic_is_additive(
    before: Net,
    last: Seq<(u64, IfaceSample)>,
    cur: Seq<(u64, IfaceSample)>,
    rates: Seq<(Double, Double)>,
    r: (u64, u64),
    after: Net,
    x: (u64, IfaceSample),
    more_rates: Seq<(Double, Double)>,
    more: (u64, u64),
    after_more: Net,
    j: int,
)
    requires
        prev_view(before.prev) == Some(last),
        distinct(last),
        some_wanted(before.disabled@, cur),
        updated(before, cur, rates, r, after),
        updated(before, cur.push(x), more_rates, more, after_more),
        0 <= j < last.len(),
        last[j].0 == x.0,
        last[j].1.rx <= x.1.rx,
        last[j].1.tx <= x.1.tx,
    ensures
        x.1.up && !text::listed(before.disabled@, x.1.alias@) ==> {
            &&& more.0 == r.0 + (x.1.rx - last[j].1.rx)
            &&& more.1 == r.1 + (x.1.tx - last[j].1.tx)
        },
        !x.1.up || text::listed(before.disabled@, x.1.alias@) ==> more == r,
        after.total_rx == before.total_rx + r.0 && after.total_tx == before.total_tx + r.1,
        after_more.total_rx == before.total_rx + more.0,
        after_more.total_tx == before.total_tx + more.1,
{
    let off = before.disabled@;
    lemma_sums_of_front(off, Some(last), cur, x, cur.len());
    lemma_delta(last, j, x);
    let s = cur.push(x);
    assert(s[cur.len() as int] == x);
    let w = choose|w: int| 0 <= w < cur.len() && !text::listed(off, (#[trigger] cur[w]).1.alias@);
    assert(s[w] == cur[w]);
    assert(!none_wanted(off, s)) by {
        assert(wanted(off, s[w].1.alias@));
    }
    assert(counts(off, s, cur.len() as int) == (x.1.up && !text::listed(off, x.1.alias@)));
    assert(all_deltas(Some(last), s)[cur.len() as int] == delta(Some(last), x));
}

/// Of two interfaces that are connected and on, with counters that do not go
/// back, what was received and sent is the sum of both.
pub proof fn law_two_interfaces_add_up(
    before: Net,
    a0: (u64, IfaceSample),
    b0: (u64, IfaceSample),
    a: (u64, IfaceSample),
    b: (u64, IfaceSample),
    rates: Seq<(Double, Double)>,
    r: (u64, u64),
    after: Net,
)
    requires
        prev_view(before.prev) == Some(seq![a0, b0]),
        updated(before, seq![a, b], rates, r, after),
        a0.0 == a.0 && b0.0 == b.0 && a.0 != b.0,
        is_on(before.disabled@, seq![a, b], 0),
        is_on(before.disabled@, seq![a, b], 1),
        a0.1.rx <= a.1.rx && a0.1.tx <= a.1.tx,
        b0.1.rx <= b.1.rx && b0.1.tx <= b.1.tx,
    ensures
        r.0 == (a.1.rx - a0.1.rx) + (b.1.rx - b0.1.rx),
        r.1 == (a.1.tx - a0.1.tx) + (b.1.tx - b0.1.tx),
        after.total_rx == before.total_rx + r.0,
        after.total_tx == before.total_tx + r.1,
{
    let last = seq![a0, b0];
    let cur = seq![a, b];
    let off = before.disabled@;
    assert(last[0] == a0 && last[1] == b0 && cur[0] == a && cur[1] == b);
    assert(distinct(last));
    lemma_delta(last, 0, a);
    lemma_delta(last, 1, b);
    assert(wanted(off, cur[0].1.alias@));
    assert(counts(off, cur, 0) && counts(off, cur, 1));
    let d = all_deltas(Some(last), cur);
    assert(d[0] == delta(Some(last), a) && d[1] == delta(Some(last), b));
    reveal_with_fuel(rx_sum, 3);
    reveal_with_fuel(tx_sum, 3);
}

proof fn lemma_sums_take(
    off: Seq<String>,
    last: Seq<(u64, IfaceSample)>,
    cur: Seq<(u64, IfaceSample)>,
    n: nat,
)
    requires
        n <= cur.len(),
        forall|i: int| 0 <= i < n && counts(off, cur, i) ==> delta(Some(last), #[trigger] cur[i]) == (
        0u64, 0u64),
    ensures
        rx_sum(off, cur, all_deltas(Some(last), cur), n) == 0,
        tx_sum(off, cur, all_deltas(Some(last), cur), n) == 0,
    decreases n,
{
    if n > 0 {
        lemma_sums_take(off, last, cur, (n - 1) as nat);
        assert(all_deltas(Some(last), cur)[n - 1] == delta(Some(last), cur[n - 1]));
    }
}

/// A reading whose counters are all where they were has carried nothing, and
/// neither has the first reading of all.
pub proof fn law_still_counters_carry_nothing(
    before: Net,
    cur: Seq<(u64, IfaceSample)>,
    rates: Seq<(Double, Double)>,
    r: (u64, u64),
    after: Net,
)
    requires
        updated(before, cur, rates, r, after),
        distinct(cur),
        before.prev.is_none() || prev_view(before.prev) == Some(cur),
    ensures
        r == (0u64, 0u64),
        after.total_rx == before.total_rx,
        after.total_tx == before.total_tx,
{
    let off = before.disabled@;
    if before.prev.is_none() {
        lemma_first_sums(off, cur, cur.len());
    } else {
        assert forall|i: int| 0 <= i < cur.len() && counts(off, cur, i) implies delta(
            Some(cur),
            #[trigger] cur[i],
        ) == (0u64, 0u64) by {
            lemma_delta(cur, i, cur[i]);
        }
        lemma_sums_take(off, cur, cur, cur.len());
    }
}

proof fn lemma_first_sums(off: Seq<String>, cur: Seq<(u64, IfaceSample)>, n: nat)
    requires
        n <= cur.len(),
    ensures
        rx_sum(off, cur, all_deltas(None, cur), n) == 0,
        tx_sum(off, cur, all_deltas(None, cur), n) == 0,
    decreases n,
{
    if n > 0 {
        lemma_first_sums(off, cur, (n - 1) as nat);
        assert(all_deltas(None, cur)[n - 1] == delta(None, cur[n - 1]));
    }
}

/// The list after a reading is the reading: every interface stands in it once
/// with its own names, state and rates, connected ones before the others, and
/// with the address and network that the list before had for it.
pub proof fn law_list_is_the_reading(
    before: Net,
    cur: Seq<(u64, IfaceSample)>,
    rates: Seq<(Double, Double)>,
    r: (u64, u64),
    after: Net,
)
    requires
        updated(before, cur, rates, r, after),
        distinct(cur),
        cur.len() <= usize::MAX,
    ensures
        after.ifaces@.len() == cur.len(),
        forall|i: int|
            0 <= i < cur.len() ==> exists|k: int|
                0 <= k < cur.len() && (#[trigger] after.ifaces@[k]).luid == (#[trigger] cur[i]).0,
        forall|i: int, k: int|
            0 <= i < cur.len() && 0 <= k < cur.len() && (#[trigger] after.ifaces@[k]).luid == (
            #[trigger] cur[i]).0 ==> {
                let e = after.ifaces@[k];
                &&& e.alias@ == cur[i].1.alias@
                &&& e.description@ == cur[i].1.description@
                &&& e.kind@ == cur[i].1.kind@
                &&& e.guid == cur[i].1.guid
                &&& e.up == cur[i].1.up
                &&& e.rx_bps == rates[i].0
                &&& e.tx_bps == rates[i].1
                &&& some_wanted(before.disabled@, cur) ==> e.enabled == !text::listed(
                    before.disabled@,
                    e.alias@,
                )
                &&& !some_wanted(before.disabled@, cur) ==> e.enabled
            },
        forall|k: int, l: int|
            0 <= k < l < cur.len() && (#[trigger] after.ifaces@[l]).up ==> (
            #[trigger] after.ifaces@[k]).up,
        forall|k: int, o: int|
            0 <= k < cur.len() && 0 <= o < before.ifaces@.len() && (
            #[trigger] before.ifaces@[o]).luid == (#[trigger] after.ifaces@[k]).luid && (forall|
                q: int,
            |
                0 <= q < before.ifaces@.len() && q != o ==> (#[trigger] before.ifaces@[q]).luid
                    != before.ifaces@[o].luid) ==> after.ifaces@[k].ip@ == before.ifaces@[o].ip@
                && after.ifaces@[k].ssid@ == before.ifaces@[o].ssid@,
{
    let off = before.disabled@;
    let d = all_deltas(prev_view(before.prev), cur);
    let p = choose|p: Seq<usize>| #[trigger]
        order::is_stable_order(list_keys(cur), p) && is_list(
            before.ifaces@,
            off,
            cur,
            rates,
            p,
            after.ifaces@,
        ) && busiest_after(before.busiest, off, cur, d, p, after.busiest);
    let list = after.ifaces@;
    assert forall|i: int| 0 <= i < cur.len() implies exists|k: int|
        0 <= k < cur.len() && (#[trigger] list[k]).luid == (#[trigger] cur[i]).0 by {
        order::lemma_permutation_covers(p, i);
        let w = choose|w: int| 0 <= w < p.len() && p[w] == i;
        assert(is_entry(before.ifaces@, off, cur, rates, p[w] as int, list[w]));
    }
    assert(some_wanted(off, cur) == !none_wanted(off, cur)) by {
        if some_wanted(off, cur) {
            let w = choose|w: int|
                0 <= w < cur.len() && !text::listed(off, (#[trigger] cur[w]).1.alias@);
            assert(wanted(off, cur[w].1.alias@));
        }
    }
    assert forall|i: int, k: int|
        0 <= i < cur.len() && 0 <= k < cur.len() && (#[trigger] list[k]).luid == (
        #[trigger] cur[i]).0 implies {
        let e = list[k];
        &&& e.alias@ == cur[i].1.alias@
        &&& e.description@ == cur[i].1.description@
        &&& e.kind@ == cur[i].1.kind@
        &&& e.guid == cur[i].1.guid
        &&& e.up == cur[i].1.up
        &&& e.rx_bps == rates[i].0
        &&& e.tx_bps == rates[i].1
        &&& some_wanted(off, cur) ==> e.enabled == !text::listed(off, e.alias@)
        &&& !some_wanted(off, cur) ==> e.enabled
    } by {
        assert(is_entry(before.ifaces@, off, cur, rates, p[k] as int, list[k]));
        let m = p[k] as int;
        assert(p[k] < p.len());
        assert(cur[m].0 == cur[i].0);
        assert(m == i);
    }
    assert forall|k: int, l: int|
        0 <= k < l < cur.len() && (#[trigger] list[l]).up implies (#[trigger] list[k]).up by {
        assert(is_entry(before.ifaces@, off, cur, rates, p[k] as int, list[k]));
        assert(is_entry(before.ifaces@, off, cur, rates, p[l] as int, list[l]));
        assert(p[k] < p.len() && p[l] < p.len());
        assert(order::goes_first(list_keys(cur), p[k] as int, p[l] as int));
    }
    assert forall|k: int, o: int|
        0 <= k < cur.len() && 0 <= o < before.ifaces@.len() && (#[trigger] before.ifaces@[o]).luid
            == (#[trigger] list[k]).luid && (forall|q: int|
            0 <= q < before.ifaces@.len() && q != o ==> (#[trigger] before.ifaces@[q]).luid
                != before.ifaces@[o].luid) implies list[k].ip@ == before.ifaces@[o].ip@
        && list[k].ssid@ == before.ifaces@[o].ssid@ by {
        assert(is_entry(before.ifaces@, off, cur, rates, p[k] as int, list[k]));
        lemma_known(before.ifaces@, o);
    }
}

proof fn lemma_known(ifaces: Seq<NetIface>, o: int)
    requires
        0 <= o < ifaces.len(),
        forall|q: int|
            0 <= q < ifaces.len() && q != o ==> (#[trigger] ifaces[q]).luid != ifaces[o].luid,
    ensures
        known_ip(ifaces, ifaces[o].luid) == ifaces[o].ip@,
        known_ssid(ifaces, ifaces[o].luid) == ifaces[o].ssid@,
    decreases ifaces.len(),
{
    if o < ifaces.len() - 1 {
        let rest = ifaces.drop_last();
        assert(ifaces[ifaces.len() - 1].luid != ifaces[o].luid);
        assert(rest[o] == ifaces[o]);
        assert forall|q: int| 0 <= q < rest.len() && q != o implies (#[trigger] rest[q]).luid
            != rest[o].luid by {
            assert(rest[q] == ifaces[q]);
        }
        lemma_known(rest, o);
    }
}

/// While bytes flow, the interface in the title is one of the connected ones
/// that are on, and none of them carried more. While nothing flows it does not
/// change as long as it is among them.
pub proof fn law_title_is_the_busiest(
    before: Net,
    cur: Seq<(u64, IfaceSample)>,
    rates: Seq<(Double, Double)>,
    r: (u64, u64),
    after: Net,
    d: Seq<(u64, u64)>,
)
    requires
        updated(before, cur, rates, r, after),
        d == all_deltas(prev_view(before.prev), cur),
        some_wanted(before.disabled@, cur),
        cur.len() <= usize::MAX,
    ensures
        after.busiest.is_none() ==> forall|i: int|
            0 <= i < cur.len() ==> !#[trigger] is_on(before.disabled@, cur, i),
        forall|i: int|
            0 <= i < cur.len() && #[trigger] is_on(before.disabled@, cur, i) && d[i].0 + d[i].1 > 0
                ==> exists|b: int|
                0 <= b < cur.len() && #[trigger] is_on(before.disabled@, cur, b)
                    && after.busiest.is_some() && (after.busiest->0).0 == cur[b].0 && (
                after.busiest->0).1@ == cur[b].1.alias@ && d[b].0 + d[b].1 >= d[i].0 + d[i].1,
        before.busiest matches Some((luid, name)) ==> (forall|i: int|
            0 <= i < cur.len() && #[trigger] is_on(before.disabled@, cur, i) ==> d[i].0 + d[i].1
                == 0) && (exists|i: int|
            0 <= i < cur.len() && #[trigger] is_on(before.disabled@, cur, i) && cur[i].0 == luid)
            ==> after.busiest == before.busiest,
{
    let off = before.disabled@;
    let p = choose|p: Seq<usize>| #[trigger]
        order::is_stable_order(list_keys(cur), p) && is_list(
            before.ifaces@,
            off,
            cur,
            rates,
            p,
            after.ifaces@,
        ) && busiest_after(before.busiest, off, cur, d, p, after.busiest);
    let w = choose|w: int| 0 <= w < cur.len() && !text::listed(off, (#[trigger] cur[w]).1.alias@);
    assert(wanted(off, cur[w].1.alias@));
    assert(!none_wanted(off, cur));
    assert forall|i: int| 0 <= i < cur.len() implies counts(off, cur, i) == #[trigger] is_on(
        off,
        cur,
        i,
    ) by {}
    if exists|i: int| 0 <= i < cur.len() && #[trigger] is_on(off, cur, i) {
        let i0 = choose|i: int| 0 <= i < cur.len() && #[trigger] is_on(off, cur, i);
        assert(counts(off, cur, i0));
        let b = choose|b: int| #[trigger]
            is_best(off, cur, d, p, b) && {
                let i = p[b] as int;
                if volume(d, i) > 0 || before.busiest.is_none() || !still_counts(
                    off,
                    cur,
                    (before.busiest->0).0,
                ) {
                    after.busiest matches Some((luid, alias)) && luid == cur[i].0 && alias@
                        == cur[i].1.alias@
                } else {
                    after.busiest == before.busiest
                }
            };
        let bi = p[b] as int;
        assert(p[b] < p.len());
        assert(is_on(off, cur, bi));
        assert forall|i: int| 0 <= i < cur.len() && #[trigger] is_on(off, cur, i) implies volume(
            d,
            i,
        ) <= volume(d, bi) by {
            order::lemma_permutation_covers(p, i);
            let k = choose|k: int| 0 <= k < p.len() && p[k] == i;
            assert(counts(off, cur, p[k] as int));
        }
        if before.busiest.is_some() {
            let luid = (before.busiest->0).0;
            if exists|i: int|
                0 <= i < cur.len() && #[trigger] is_on(off, cur, i) && cur[i].0 == luid {
                let i = choose|i: int|
                    0 <= i < cur.len() && #[trigger] is_on(off, cur, i) && cur[i].0 == luid;
                assert(cur[i].0 == luid && counts(off, cur, i));
                assert(still_counts(off, cur, luid));
            }
        }
    }
}

proof fn lemma_text_for<K>(v: Seq<(K, String)>, o: int)
    requires
        0 <= o < v.len(),
        forall|q: int| 0 <= q < o ==> (#[trigger] v[q]).0 != v[o].0,
    ensures
        text_for(v, v[o].0) == v[o].1@,
    decreases v.len(),
{
    if o > 0 {
        let rest = v.skip(1);
        assert(v[0].0 != v[o].0);
        assert(rest[o - 1] == v[o]);
        assert forall|q: int| 0 <= q < o - 1 implies (#[trigger] rest[q]).0 != rest[o - 1].0 by {
            assert(rest[q] == v[q + 1]);
        }
        lemma_text_for(rest, o - 1);
    }
}

proof fn lemma_no_text<K>(v: Seq<(K, String)>, key: K)
    requires
        forall|q: int| 0 <= q < v.len() ==> (#[trigger] v[q]).0 != key,
    ensures
        text_for(v, key).len() == 0,
    decreases v.len(),
{
    if v.len() > 0 {
        let rest = v.skip(1);
        assert(v[0].0 != key);
        assert forall|q: int| 0 <= q < rest.len() implies (#[trigger] rest[q]).0 != key by {
            assert(rest[q] == v[q + 1]);
        }
        lemma_no_text(rest, key);
    }
}

/// An interface gets the first address that is given for its number and none
/// where none is given, so that an old one does not stay; the network of its id
/// goes to Wi-Fi alone; and nothing else of it changes.
pub proof fn law_details_go_to_their_interface(
    i: NetIface,
    ips: Seq<(u64, String)>,
    ssids: Seq<(u128, String)>,
    r: NetIface,
    o: int,
    s: int,
)
    requires
        detailed(i, ips, ssids, r),
    ensures
        0 <= o < ips.len() && ips[o].0 == i.luid && (forall|q: int|
            0 <= q < o ==> (#[trigger] ips[q]).0 != i.luid) ==> r.ip@ == ips[o].1@,
        (forall|q: int| 0 <= q < ips.len() ==> (#[trigger] ips[q]).0 != i.luid) ==> r.ip@.len()
            == 0,
        0 <= s < ssids.len() && i.kind@ == "Wi-Fi"@ && ssids[s].0 == i.guid && (forall|q: int|
            0 <= q < s ==> (#[trigger] ssids[q]).0 != i.guid) ==> r.ssid@ == ssids[s].1@,
        (forall|q: int| 0 <= q < ssids.len() ==> (#[trigger] ssids[q]).0 != i.guid)
            ==> r.ssid@.len() == 0,
        i.kind@ != "Wi-Fi"@ ==> r.ssid@.len() == 0,
        r.luid == i.luid && r.guid == i.guid && r.alias == i.alias && r.description
            == i.description && r.kind == i.kind && r.up == i.up && r.enabled == i.enabled,
        r.rx_bps == i.rx_bps && r.tx_bps == i.tx_bps,
{
    if 0 <= o < ips.len() && ips[o].0 == i.luid && (forall|q: int|
        0 <= q < o ==> (#[trigger] ips[q]).0 != i.luid) {
        lemma_text_for(ips, o);
    }
    if forall|q: int| 0 <= q < ips.len() ==> (#[trigger] ips[q]).0 != i.luid {
        lemma_no_text(ips, i.luid);
    }
    if 0 <= s < ssids.len() && ssids[s].0 == i.guid && (forall|q: int|
        0 <= q < s ==> (#[trigger] ssids[q]).0 != i.guid) {
        lemma_text_for(ssids, s);
    }
    if forall|q: int| 0 <= q < ssids.len() ==> (#[trigger] ssids[q]).0 != i.guid {
        lemma_no_text(ssids, i.guid);
    }
}

/// An interface is on when its name is not among those switched off; only where
/// all of them are off are all on. Nothing else of the list changes.
pub proof fn law_switches_go_by_name(list: Seq<NetIface>, disabled: Seq<String>, i: int, k: int)
    requires
        0 <= i < list.len(),
        0 <= k < list.len(),
        !text::listed(disabled, list[k].alias@),
    ensures
        switched(list, disabled).len() == list.len(),
        switched(list, disabled)[k].enabled,
        text::listed(disabled, list[i].alias@) ==> !switched(list, disabled)[i].enabled,
        switched(list, disabled)[i].luid == list[i].luid,
        switched(list, disabled)[i].alias == list[i].alias,
        switched(list, disabled)[i].up == list[i].up,
        switched(list, disabled)[i].rx_bps == list[i].rx_bps,
        switched(list, disabled)[i].tx_bps == list[i].tx_bps,
        switched(list, disabled)[i].ip == list[i].ip,
        switched(list, disabled)[i].ssid == list[i].ssid,
{
    assert(!all_off(list, disabled)) by {
        assert(!text::listed(disabled, list[k].alias@));
    }
}

} // verus!
