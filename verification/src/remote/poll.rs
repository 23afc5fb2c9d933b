//! Following the configuration: which agents there are, which links stand, and
//! how a machine that stops answering fades.

use crate::config::{Config, RemoteCfg};
use crate::i18n::{self, Translator};
use crate::order::StrMap;
use crate::remote::agent::{self, Agent};
use crate::remote::{self, Discovery, Seen};
use crate::session::Status;
use crate::text;
use vstd::prelude::*;

verus! {

/// A machine without data for so long, in milliseconds, is drawn in grey.
pub const STALE_MS: u64 = 10_000;

/// A machine without data for so long, in milliseconds, is not drawn.
pub const GONE_MS: u64 = 30_000;

/// Everything remote.
pub struct Remotes {
    pub discovery: Option<Discovery>,
    pub agents: StrMap<Agent>,
}

/// What has to be done about a link.
#[derive(Clone, Copy, Debug, PartialEq, Eq, Structural)]
pub enum LinkAction {
    /// It stands, to the right address.
    Keep,
    /// It is started, in place of one to another address where there is one.
    Start,
    Stop,
    Nothing,
}

/// A link is wanted to a machine that is enabled and whose address is known.
pub open spec fn wants_link(rc: RemoteCfg) -> bool {
    rc.enabled && rc.address@.len() > 0
}

pub open spec fn link_action(link: Option<String>, rc: RemoteCfg) -> LinkAction {
    match link {
        Some(l) => if !wants_link(rc) {
            LinkAction::Stop
        } else if l@ == rc.address@ {
            LinkAction::Keep
        } else {
            LinkAction::Start
        },
        None => if wants_link(rc) {
            LinkAction::Start
        } else {
            LinkAction::Nothing
        },
    }
}

pub open spec fn opt_text(s: Option<String>) -> Option<Seq<char>> {
    match s {
        Some(x) => Some(x@),
        None => None,
    }
}

/// The address of the link afterwards.
pub open spec fn link_after(rc: RemoteCfg) -> Option<Seq<char>> {
    if wants_link(rc) {
        Some(rc.address@)
    } else {
        None
    }
}

/// Configuration `b` is `a` with the address and the name that the beacon told.
pub open spec fn learned(a: RemoteCfg, b: RemoteCfg, seen: Option<Seen>) -> bool {
    match seen {
        Some(s) => {
            &&& b.address@ == s.addr@
            &&& b.name@ == s.beacon.name@
            &&& b == (RemoteCfg { address: b.address, name: b.name, ..a })
        },
        None => b == a,
    }
}

/// Something new was told.
pub open spec fn is_changed(a: RemoteCfg, b: RemoteCfg) -> bool {
    a.address@ != b.address@ || a.name@ != b.name@
}

/// Takes the address and the name from a beacon; whether they are new.
pub fn learn(rc: &mut RemoteCfg, seen: &Option<Seen>) -> (r: bool)
    ensures
        learned(*old(rc), *final(rc), *seen),
        r == is_changed(*old(rc), *final(rc)),
{
    let mut changed: bool = false;
    if let Some(s) = seen {
        if !text::same(rc.address.as_str(), s.addr.as_str()) {
            rc.address = s.addr.clone();
            changed = true;
        }
        if !text::same(rc.name.as_str(), s.beacon.name.as_str()) {
            rc.name = s.beacon.name.clone();
            changed = true;
        }
    }
    changed
}

/// Agent `b` is agent `a` with its link as the entry asks.
pub open spec fn is_followed(a: Agent, rc: RemoteCfg, b: Agent, action: LinkAction) -> bool {
    &&& action == link_action(a.link, rc)
    &&& opt_text(b.link) == link_after(rc)
    &&& b == (Agent { link: b.link, ..a })
}

/// Decides on the link of an agent and notes its address.
pub fn follow(a: &mut Agent, rc: &RemoteCfg) -> (r: LinkAction)
    ensures
        is_followed(*old(a), *rc, *final(a), r),
{
    let want: bool = rc.enabled && text::chars_of(rc.address.as_str()).len() > 0;
    let same: bool = match &a.link {
        Some(l) => text::same(l.as_str(), rc.address.as_str()),
        None => false,
    };
    let have: bool = a.link.is_some();
    if have && want && same {
        LinkAction::Keep
    } else if want {
        a.link = Some(rc.address.clone());
        LinkAction::Start
    } else if have {
        a.link = None;
        LinkAction::Stop
    } else {
        LinkAction::Nothing
    }
}

/// Online: connected, and data came lately.
pub open spec fn is_online(status: Status, silence: Option<u64>) -> bool {
    status == Status::Online && (match silence {
        Some(q) => q < STALE_MS,
        None => false,
    })
}

/// Still drawn.
pub open spec fn is_visible(silence: Option<u64>) -> bool {
    match silence {
        Some(q) => q < GONE_MS,
        None => false,
    }
}

/// Drawn in grey: still drawn, but without data for a while.
pub open spec fn is_stale(silence: Option<u64>) -> bool {
    match silence {
        Some(q) => STALE_MS <= q < GONE_MS,
        None => false,
    }
}

/// Agent `b` is agent `a` after the state of its link was looked at.
pub open spec fn is_settled(
    a: Agent,
    status: Status,
    silence: Option<u64>,
    now: u64,
    b: Agent,
) -> bool {
    let on = is_online(status, silence);
    b == (Agent {
        online: on,
        visible: is_visible(silence),
        stale: is_stale(silence),
        offline_since: if on {
            None
        } else if a.online {
            Some(now)
        } else {
            a.offline_since
        },
        data: crate::metrics::MetricsData { offline: !on, ..a.data },
        ..a
    })
}

/// A machine that stops answering fades: its widgets stay in colour for a
/// while, then turn grey, and leave the strip when it is gone. `silence` is how
/// long nothing was received, in milliseconds; nothing ever was where it is
/// `None`.
pub fn settle(a: &mut Agent, status: Status, silence: Option<u64>, now: u64)
    ensures
        is_settled(*old(a), status, silence, now, *final(a)),
{
    let quiet: u64 = match silence {
        Some(q) => q,
        None => u64::MAX,
    };
    let online: bool = status == Status::Online && quiet < STALE_MS;
    a.visible = quiet < GONE_MS;
    a.stale = a.visible && quiet >= STALE_MS;
    if a.online && !online {
        a.offline_since = Some(now);
    }
    if online {
        a.offline_since = None;
    }
    a.online = online;
    a.data.offline = !online;
}

/// A machine that is online is drawn in colour.
pub proof fn law_online_is_visible(status: Status, silence: Option<u64>)
    ensures
        is_online(status, silence) ==> is_visible(silence) && !is_stale(silence),
{
}

/// A machine fades in three steps, by the time without data alone: it is drawn
/// in colour, then in grey, then not at all, and never turns back while the
/// silence lasts.
pub proof fn law_silence_fades(a: u64, b: u64)
    requires
        a <= b,
    ensures
        is_visible(Some(a)) == (a < GONE_MS),
        is_stale(Some(a)) == (STALE_MS <= a < GONE_MS),
        is_visible(Some(b)) ==> is_visible(Some(a)),
        is_stale(Some(a)) ==> is_stale(Some(b)) || !is_visible(Some(b)),
{
}

/// What was heard of the agent of an entry.
pub open spec fn heard_of(r: Remotes, rc: RemoteCfg, now: u64) -> Option<Seen> {
    match r.discovery {
        Some(d) => remote::heard_lately(d, rc.id@, now),
        None => None,
    }
}

/// The agent of an entry: the one there was, or a new one, with its link as
/// the entry asks.
pub open spec fn followed(
    before: Map<Seq<char>, Agent>,
    key: Seq<char>,
    rc: RemoteCfg,
    a: Agent,
    action: LinkAction,
) -> bool {
    exists|base: Agent|
        {
            &&& if before.dom().contains(key) {
                base == before[key]
            } else {
                agent::is_new(base, key, rc)
            }
            &&& #[trigger] link_action(base.link, rc) == action
            &&& opt_text(a.link) == link_after(rc)
            &&& a == (Agent { link: a.link, ..base })
        }
}

pub open spec fn all_wf(agents: Map<Seq<char>, Agent>) -> bool {
    forall|k: Seq<char>| #[trigger] agents.dom().contains(k) ==> agents[k].wf()
}

/// All of the first `n` entries are as the beacons and the configuration ask.
pub open spec fn synced(
    r: Remotes,
    before: Seq<(String, RemoteCfg)>,
    after: Seq<(String, RemoteCfg)>,
    agents: Seq<(String, Agent)>,
    actions: Seq<LinkAction>,
    now: u64,
    n: int,
) -> bool {
    forall|i: int|
        0 <= i < n ==> {
            &&& (#[trigger] after[i]).0 == before[i].0
            &&& learned(before[i].1, after[i].1, heard_of(r, before[i].1, now))
            &&& agents[i].0@ == before[i].0@
            &&& followed(r.agents@, before[i].0@, after[i].1, agents[i].1, actions[i])
        }
}

/// One of the first `n` entries has changed.
pub open spec fn any_changed(
    before: Seq<(String, RemoteCfg)>,
    after: Seq<(String, RemoteCfg)>,
    n: int,
) -> bool {
    exists|i: int| 0 <= i < n && is_changed((#[trigger] before[i]).1, after[i].1)
}

/// None of the first `i` entries has the key.
spec fn is_later(entries: Seq<(String, RemoteCfg)>, i: int, k: Seq<char>) -> bool {
    forall|j: int| 0 <= j < i ==> (#[trigger] entries[j]).0@ != k
}

/// Of the agents that there were, those of the entries from the `i`-th on, and
/// those without an entry, are in `rest`.
#[verifier::opaque]
spec fn still_there(
    rest: Map<Seq<char>, Agent>,
    before: Map<Seq<char>, Agent>,
    entries: Seq<(String, RemoteCfg)>,
    i: int,
) -> bool {
    forall|k: Seq<char>| #[trigger]
        is_later(entries, i, k) ==> {
            &&& rest.dom().contains(k) == before.dom().contains(k)
            &&& rest.dom().contains(k) ==> rest[k] == before[k]
        }
}

/// Taking the agent of entry `i` out of the rest is taking it out of all.
proof fn lemma_taken(
    rest: Map<Seq<char>, Agent>,
    before: Map<Seq<char>, Agent>,
    cfg: StrMap<RemoteCfg>,
    i: int,
    rc: RemoteCfg,
    a: Agent,
    action: LinkAction,
)
    requires
        cfg.wf(),
        0 <= i < cfg.entries@.len(),
        still_there(rest, before, cfg.entries@, i),
        followed(rest, cfg.entries@[i].0@, rc, a, action),
    ensures
        followed(before, cfg.entries@[i].0@, rc, a, action),
        still_there(rest.remove(cfg.entries@[i].0@), before, cfg.entries@, i + 1),
{
    reveal(still_there);
    let e = cfg.entries@;
    let key = e[i].0@;
    assert forall|j: int| 0 <= j < i implies (#[trigger] e[j]).0@ != key by {
        text::lemma_before_total(e[j].0@, e[i].0@);
    }
    assert(is_later(e, i, key));
    let base = choose|base: Agent|
        {
            &&& if rest.dom().contains(key) {
                base == rest[key]
            } else {
                agent::is_new(base, key, rc)
            }
            &&& #[trigger] link_action(base.link, rc) == action
            &&& opt_text(a.link) == link_after(rc)
            &&& a == (Agent { link: a.link, ..base })
        };
    assert(link_action(base.link, rc) == action);
    let left = rest.remove(key);
    assert forall|k: Seq<char>| #[trigger] is_later(e, i + 1, k) implies {
        &&& left.dom().contains(k) == before.dom().contains(k)
        &&& left.dom().contains(k) ==> left[k] == before[k]
    } by {
        assert(e[i].0@ != k);
        assert(is_later(e, i, k));
    }
}

proof fn lemma_synced_step(
    r: Remotes,
    before: Seq<(String, RemoteCfg)>,
    c0: Seq<(String, RemoteCfg)>,
    c1: Seq<(String, RemoteCfg)>,
    o0: Seq<(String, Agent)>,
    o1: Seq<(String, Agent)>,
    a0: Seq<LinkAction>,
    a1: Seq<LinkAction>,
    now: u64,
    i: int,
)
    requires
        0 <= i < c0.len(),
        o0.len() == i,
        a0.len() == i,
        c1 == c0.update(i, c1[i]),
        o1 == o0.push(o1[i]),
        a1 == a0.push(a1[i]),
        synced(r, before, c0, o0, a0, now, i),
        c1[i].0 == before[i].0,
        learned(before[i].1, c1[i].1, heard_of(r, before[i].1, now)),
        o1[i].0@ == before[i].0@,
        followed(r.agents@, before[i].0@, c1[i].1, o1[i].1, a1[i]),
    ensures
        synced(r, before, c1, o1, a1, now, i + 1),
{
    assert forall|j: int| 0 <= j < i + 1 implies {
        &&& (#[trigger] c1[j]).0 == before[j].0
        &&& learned(before[j].1, c1[j].1, heard_of(r, before[j].1, now))
        &&& o1[j].0@ == before[j].0@
        &&& followed(r.agents@, before[j].0@, c1[j].1, o1[j].1, a1[j])
    } by {
        if j < i {
            assert(c1[j] == c0[j] && o1[j] == o0[j] && a1[j] == a0[j]);
        }
    }
}

proof fn lemma_changed_step(
    before: Seq<(String, RemoteCfg)>,
    c0: Seq<(String, RemoteCfg)>,
    c1: Seq<(String, RemoteCfg)>,
    i: int,
)
    requires
        0 <= i < c0.len(),
        c1 == c0.update(i, c1[i]),
    ensures
        any_changed(before, c1, i + 1) == (any_changed(before, c0, i) || is_changed(
            before[i].1,
            c1[i].1,
        )),
{
    if any_changed(before, c0, i) {
        let w = choose|w: int| 0 <= w < i && is_changed((#[trigger] before[w]).1, c0[w].1);
        assert(c1[w] == c0[w]);
        assert(is_changed(before[w].1, c1[w].1));
    }
    if is_changed(before[i].1, c1[i].1) {
        assert(any_changed(before, c1, i + 1));
    }
    if any_changed(before, c1, i + 1) {
        let w = choose|w: int| 0 <= w < i + 1 && is_changed((#[trigger] before[w]).1, c1[w].1);
        if w < i {
            assert(c1[w] == c0[w]);
            assert(is_changed(before[w].1, c0[w].1));
        }
    }
}

/// Takes the agent of an entry out of the map, or makes a new one, and decides
/// on its link.
fn take_agent(rest: &mut StrMap<Agent>, key: &str, rc: &RemoteCfg) -> (r: (Agent, LinkAction))
    requires
        old(rest).wf(),
    ensures
        final(rest).wf(),
        final(rest)@ == old(rest)@.remove(key@),
        followed(old(rest)@, key@, *rc, r.0, r.1),
{
    let mut a: Agent = match rest.remove(key) {
        Some(x) => x,
        None => Agent::new(key, rc),
    };
    let ghost base = a;
    let action: LinkAction = follow(&mut a, rc);
    assert(link_action(base.link, *rc) == action);
    (a, action)
}

impl Remotes {
    pub open spec fn wf(self) -> bool {
        &&& self.agents.wf()
        &&& all_wf(self.agents@)
        &&& match self.discovery {
            Some(d) => d.heard.wf(),
            None => true,
        }
    }

    pub fn new() -> (r: Remotes)
        ensures
            r.wf(),
            r.discovery.is_none(),
            r.agents@ == Map::<Seq<char>, Agent>::empty(),
    {
        Remotes { discovery: None, agents: StrMap::new() }
    }

    /// Switches listening on or off; `opened` says whether the socket could be
    /// opened, where it was needed.
    pub fn set_discovery(&mut self, on: bool, opened: bool)
        requires
            old(self).wf(),
        ensures
            final(self).wf(),
            final(self).agents == old(self).agents,
            !on ==> final(self).discovery.is_none(),
            on && old(self).discovery.is_some() ==> final(self).discovery
                == old(self).discovery,
            on && old(self).discovery.is_none() ==> (match final(self).discovery {
                Some(d) => opened && d.heard@ == Map::<Seq<char>, Seen>::empty(),
                None => !opened,
            }),
    {
        if on && self.discovery.is_none() {
            if opened {
                self.discovery = Some(Discovery::new());
            }
        } else if !on {
            self.discovery = None;
        }
    }

    /// Agents heard on the network right now, by name.
    pub fn seen(&self, now: u64) -> (r: Vec<Seen>)
        requires
            self.wf(),
        ensures
            match self.discovery {
                Some(d) => {
                    let list = remote::fresh_list(d.heard.entries@, now);
                    crate::order::is_sorted_copy(list, remote::names_of(list), r@)
                },
                None => r@.len() == 0,
            },
    {
        match &self.discovery {
            Some(d) => d.seen(now),
            None => Vec::new(),
        }
    }

    fn heard(&self, rc: &RemoteCfg, now: u64) -> (r: Option<Seen>)
        requires
            self.wf(),
        ensures
            r == heard_of(*self, *rc, now),
    {
        match &self.discovery {
            Some(d) => d.by_id(rc.id.as_str(), now),
            None => None,
        }
    }

    /// Once per tick: drops agents that left the configuration, adds those that
    /// are new in it, refreshes addresses and names from the beacons, and says
    /// for each entry what to do about its link. Whether the configuration was
    /// changed.
    pub fn sync(&mut self, cfg: &mut Config, now: u64) -> (r: (bool, Vec<LinkAction>))
        requires
            old(self).wf(),
            old(cfg).wf(),
        ensures
            final(self).wf(),
            final(cfg).wf(),
            final(self).discovery == old(self).discovery,
            *final(cfg) == (Config { remotes: final(cfg).remotes, ..*old(cfg) }),
            ({
                let n = old(cfg).remotes.entries@.len();
                &&& final(cfg).remotes.entries@.len() == n
                &&& final(self).agents.entries@.len() == n
                &&& r.1@.len() == n
                &&& synced(
                    *old(self),
                    old(cfg).remotes.entries@,
                    final(cfg).remotes.entries@,
                    final(self).agents.entries@,
                    r.1@,
                    now,
                    n as int,
                )
                &&& r.0 == any_changed(
                    old(cfg).remotes.entries@,
                    final(cfg).remotes.entries@,
                    n as int,
                )
            }),
    {
        let ghost e0 = cfg.remotes.entries@;
        let ghost me = *self;
        let mut actions: Vec<LinkAction> = Vec::new();
        let mut changed: bool = false;
        let mut rest: StrMap<Agent> = StrMap::new();
        let mut out: Vec<(String, Agent)> = Vec::new();
        std::mem::swap(&mut rest, &mut self.agents);
        let n: usize = cfg.remotes.entries.len();
        let mut i: usize = 0;
        proof {
            reveal(still_there);
        }
        while i < n
            invariant
                i <= n,
                n == e0.len(),
                me == *old(self),
                me.wf(),
                self.wf(),
                self.discovery == me.discovery,
                e0 == old(cfg).remotes.entries@,
                old(cfg).wf(),
                rest.wf(),
                cfg.remotes.entries@.len() == n,
                *cfg == (Config { remotes: cfg.remotes, ..*old(cfg) }),
                actions@.len() == i,
                out@.len() == i,
                forall|j: int| i <= j < n ==> #[trigger] cfg.remotes.entries@[j] == e0[j],
                synced(me, e0, cfg.remotes.entries@, out@, actions@, now, i as int),
                changed == any_changed(e0, cfg.remotes.entries@, i as int),
                still_there(rest@, me.agents@, e0, i as int),
            decreases n - i,
        {
            let ghost c0 = cfg.remotes.entries@;
            let (key, mut rc) = cfg.remotes.entries.remove(i);
            assert((key, rc) == e0[i as int]);
            let seen: Option<Seen> = self.heard(&rc, now);
            if learn(&mut rc, &seen) {
                changed = true;
            }
            let ghost left = rest@;
            let (a, action): (Agent, LinkAction) = take_agent(&mut rest, key.as_str(), &rc);
            proof {
                lemma_taken(left, me.agents@, old(cfg).remotes, i as int, rc, a, action);
            }
            let ghost o0 = out@;
            let ghost a0 = actions@;
            out.push((key.clone(), a));
            actions.push(action);
            cfg.remotes.entries.insert(i, (key, rc));
            let ghost c1 = cfg.remotes.entries@;
            proof {
                assert(c1 =~= c0.update(i as int, (key, rc)));
                lemma_synced_step(me, e0, c0, c1, o0, out@, a0, actions@, now, i as int);
                lemma_changed_step(e0, c0, c1, i as int);
            }
            i += 1;
        }
        let ghost outs = out@;
        self.agents = StrMap { entries: out };
        proof {
            let c1 = cfg.remotes.entries@;
            assert forall|x: int, y: int| 0 <= x < y < outs.len() implies text::before(
                #[trigger] outs[x].0@,
                #[trigger] outs[y].0@,
            ) by {
                assert(c1[x].0 == e0[x].0 && c1[y].0 == e0[y].0);
            }
            assert(self.agents.wf());
            assert forall|k: Seq<char>| #[trigger] self.agents@.dom().contains(
                k,
            ) implies self.agents@[k].wf() by {
                let w = self.agents.index_of(k);
                assert(c1[w].0 == e0[w].0);
                assert(followed(me.agents@, e0[w].0@, c1[w].1, outs[w].1, actions@[w]));
            }
            assert forall|x: int, y: int| 0 <= x < y < c1.len() implies text::before(
                #[trigger] c1[x].0@,
                #[trigger] c1[y].0@,
            ) by {
                assert(e0[x].0 == c1[x].0 && e0[y].0 == c1[y].0);
            }
            assert forall|x: int| 0 <= x < c1.len() implies (#[trigger] c1[x]).1.colors.wf() by {
                assert(learned(e0[x].1, c1[x].1, heard_of(me, e0[x].1, now)));
                assert(old(cfg).remotes.entries@[x].1.colors.wf());
            }
        }
        (changed, actions)
    }

    /// Sets whether the faster cores of a machine come first.
    pub fn set_group_pe(&mut self, key: &str, on: bool)
        requires
            old(self).wf(),
        ensures
            final(self).wf(),
            final(self).discovery == old(self).discovery,
            if old(self).agents@.dom().contains(key@) {
                exists|b: Agent|
                    agent::regrouped(old(self).agents@[key@], b, on) && final(self).agents@
                        == #[trigger] old(self).agents@.insert(key@, b)
            } else {
                final(self).agents@ == old(self).agents@
            },
    {
        let ghost m0 = self.agents@;
        let found: Option<Agent> = self.agents.remove(key);
        match found {
            Some(x) => {
                let mut a: Agent = x;
                a.set_group_pe(on);
                let ghost b = a;
                self.agents.insert(key.to_string(), a);
                assert(self.agents@ =~= m0.insert(key@, b));
            },
            None => {
                assert(self.agents@ =~= m0);
            },
        }
    }

    /// Switches interfaces and disks of a machine.
    pub fn set_disabled(&mut self, key: &str, net: &Vec<String>, disks: &Vec<String>)
        requires
            old(self).wf(),
        ensures
            final(self).wf(),
            final(self).discovery == old(self).discovery,
            if old(self).agents@.dom().contains(key@) {
                exists|b: Agent|
                    agent::reswitched(old(self).agents@[key@], b, net@, disks@)
                        && final(self).agents@ == #[trigger] old(self).agents@.insert(key@, b)
            } else {
                final(self).agents@ == old(self).agents@
            },
    {
        let ghost m0 = self.agents@;
        let found: Option<Agent> = self.agents.remove(key);
        match found {
            Some(x) => {
                let mut a: Agent = x;
                a.set_disabled(net, disks);
                let ghost b = a;
                self.agents.insert(key.to_string(), a);
                assert(self.agents@ =~= m0.insert(key@, b));
            },
            None => {
                assert(self.agents@ =~= m0);
            },
        }
    }

    /// Menu text for a machine's state.
    pub fn state_text(&self, key: &str, tr: &Translator) -> (r: String)
        requires
            self.wf(),
        ensures
            r@ == i18n::text_of(
                *tr,
                if self.agents@.dom().contains(key@) && self.agents@[key@].online {
                    "remote.online"@
                } else {
                    "remote.offline"@
                },
            ),
    {
        match self.agents.get(key) {
            Some(a) => if a.online {
                tr.t("remote.online")
            } else {
                tr.t("remote.offline")
            },
            None => tr.t("remote.offline"),
        }
    }
}

/// Following a configuration a second time, when nothing was heard that is new,
/// asks for no link to be started or stopped.
pub proof fn law_links_settle(a: Agent, rc: RemoteCfg)
    requires
        opt_text(a.link) == link_after(rc),
    ensures
        link_action(a.link, rc) == LinkAction::Keep || link_action(a.link, rc)
            == LinkAction::Nothing,
{
}

/// A machine is online while it is connected and sent something within ten
/// seconds. It is drawn for thirty seconds of silence, the last twenty of them in
/// grey, and not where nothing ever came. When it goes offline the moment is
/// noted, stays noted while it is away, and is forgotten when it is back; its
/// values stay.
pub proof fn law_machine_fades(
    a: Agent,
    status: Status,
    silence: Option<u64>,
    now: u64,
    b: Agent,
    next_status: Status,
    next_silence: Option<u64>,
    later: u64,
    c: Agent,
)
    requires
        is_settled(a, status, silence, now, b),
        is_settled(b, next_status, next_silence, later, c),
    ensures
        b.online == (status == Status::Online && (silence matches Some(q) && q < 10_000)),
        b.visible == (silence matches Some(q) && q < 30_000),
        b.stale == (silence matches Some(q) && 10_000 <= q < 30_000),
        b.data.offline == !b.online,
        b.online ==> b.offline_since.is_none(),
        a.online && !b.online ==> b.offline_since == Some(now),
        a.online && !b.online && !c.online ==> c.offline_since == Some(now),
        c.online ==> c.offline_since.is_none(),
        b.data.cpu_total == a.data.cpu_total && b.data.mem == a.data.mem && b.link == a.link
            && b.key == a.key,
{
}

/// A link leads to the address of a machine that is enabled and has one, and
/// there is none to another. It is started where there was none or where it led
/// elsewhere, and stopped where none is wanted any more.
pub proof fn law_link_leads_to_the_machine(a: Agent, rc: RemoteCfg, b: Agent, action: LinkAction)
    requires
        is_followed(a, rc, b, action),
    ensures
        rc.enabled && rc.address@.len() > 0 ==> (b.link matches Some(l) && l@ == rc.address@),
        !rc.enabled || rc.address@.len() == 0 ==> b.link.is_none(),
        action == LinkAction::Start <==> rc.enabled && rc.address@.len() > 0 && !(
        a.link matches Some(l) && l@ == rc.address@),
        action == LinkAction::Stop <==> a.link.is_some() && (!rc.enabled || rc.address@.len() == 0),
        action == LinkAction::Keep ==> a.link.is_some() && b.link.is_some(),
        action == LinkAction::Nothing ==> a.link.is_none() && b.link.is_none(),
        b.data == a.data && b.online == a.online && b.info == a.info,
{
}

/// What a machine announces is what its entry says from then on: its address and
/// its name; an entry of which nothing was heard stays, and so does everything
/// else of it.
pub proof fn law_entry_follows_the_announcement(a: RemoteCfg, b: RemoteCfg, seen: Option<Seen>)
    requires
        learned(a, b, seen),
    ensures
        seen matches Some(s) ==> b.address@ == s.addr@ && b.name@ == s.beacon.name@,
        seen.is_none() ==> b == a,
        b.id == a.id && b.enabled == a.enabled && b.net_disabled == a.net_disabled
            && b.disks_disabled == a.disks_disabled && b.group_pe == a.group_pe,
        is_changed(a, b) <==> !(b.address@ == a.address@ && b.name@ == a.name@),
{
}

/// After a look round, an entry whose machine was heard has the address and the
/// name that were told, and is otherwise as it was set; its machine has a link to
/// that address exactly where the entry is on, and shows what it showed before.
pub proof fn law_entries_are_brought_up_to_date(
    r: Remotes,
    before: Seq<(String, RemoteCfg)>,
    after: Seq<(String, RemoteCfg)>,
    agents: Seq<(String, Agent)>,
    actions: Seq<LinkAction>,
    now: u64,
    n: int,
    i: int,
)
    requires
        synced(r, before, after, agents, actions, now, n),
        0 <= i < n,
    ensures
        after[i].0@ == before[i].0@ && agents[i].0@ == before[i].0@,
        after[i].1.enabled == before[i].1.enabled && after[i].1.label == before[i].1.label
            && after[i].1.token == before[i].1.token && after[i].1.id == before[i].1.id,
        r.discovery matches Some(d) ==> {
            let id = before[i].1.id@;
            d.heard@.dom().contains(id) && now >= d.heard@[id].at && now - d.heard@[id].at < 10_000
                ==> after[i].1.address@ == d.heard@[id].addr@ && after[i].1.name@
                == d.heard@[id].beacon.name@
        },
        r.discovery.is_none() ==> after[i].1 == before[i].1,
        after[i].1.enabled && after[i].1.address@.len() > 0 ==> opt_text(agents[i].1.link) == Some(
            after[i].1.address@,
        ),
        !after[i].1.enabled || after[i].1.address@.len() == 0 ==> agents[i].1.link.is_none(),
        r.agents@.dom().contains(before[i].0@) ==> agents[i].1.data == r.agents@[before[i].0@].data
            && agents[i].1.online == r.agents@[before[i].0@].online,
{
    assert(after[i].0 == before[i].0);
    let base = choose|base: Agent|
        {
            &&& if r.agents@.dom().contains(before[i].0@) {
                base == r.agents@[before[i].0@]
            } else {
                agent::is_new(base, before[i].0@, after[i].1)
            }
            &&& #[trigger] link_action(base.link, after[i].1) == actions[i]
            &&& opt_text(agents[i].1.link) == link_after(after[i].1)
            &&& agents[i].1 == (Agent { link: agents[i].1.link, ..base })
        };
}

} // verus!
