//! Remote machines: the agents heard on the network, and the keys under which
//! they are configured.

pub mod agent;
pub mod poll;

use crate::config::RemoteCfg;
use crate::order::{self, StrMap};
use crate::proto::{Beacon, BEACON_TIMEOUT_SECS, VERSION};
use crate::text;
use vstd::prelude::*;
use vstd::string::StringExecFns;

verus! {

/// An agent heard on the network. Times are milliseconds of a clock that
/// never goes back.
#[derive(Clone, Debug)]
pub struct Seen {
    pub beacon: Beacon,
    /// "host:port" of its data stream.
    pub addr: String,
    pub at: u64,
}

impl Seen {
    pub fn copy(&self) -> (r: Seen)
        ensures
            r == *self,
    {
        Seen { beacon: self.beacon.copy(), addr: self.addr.clone(), at: self.at }
    }
}

/// What the beacon listener has heard, by agent id.
pub struct Discovery {
    pub heard: StrMap<Seen>,
}

/// A beacon that counts: of this version, and with an id.
pub open spec fn is_valid(b: Beacon) -> bool {
    b.v == VERSION && b.id@.len() > 0
}

/// Heard within the time after which an agent counts as gone.
pub open spec fn is_fresh(s: Seen, now: u64) -> bool {
    now - s.at < 1000 * BEACON_TIMEOUT_SECS
}

fn fresh(s: &Seen, now: u64) -> (r: bool)
    ensures
        r == is_fresh(*s, now),
{
    now < s.at || now - s.at < 1000 * BEACON_TIMEOUT_SECS
}

/// The agents heard, in the order of their ids.
pub open spec fn values<V>(entries: Seq<(String, V)>) -> Seq<V> {
    entries.map_values(|e: (String, V)| e.1)
}

pub open spec fn fresh_list(entries: Seq<(String, Seen)>, now: u64) -> Seq<Seen> {
    values(entries).filter(|s: Seen| is_fresh(s, now))
}

pub open spec fn names_of(list: Seq<Seen>) -> Seq<String> {
    list.map_values(|s: Seen| s.beacon.name)
}

/// "host:port".
pub open spec fn address_text(host: Seq<char>, port: nat) -> Seq<char> {
    host + ":"@ + text::decimal(port)
}

/// The beacon has led from one state to the next.
pub open spec fn is_heard(
    before: Discovery,
    beacon: Beacon,
    host: Seq<char>,
    now: u64,
    after: Discovery,
) -> bool {
    &&& !is_valid(beacon) ==> after == before
    &&& is_valid(beacon) ==> exists|s: Seen|
        s.beacon == beacon && s.addr@ == address_text(host, beacon.port as nat) && s.at == now
            && after.heard@ == #[trigger] before.heard@.insert(beacon.id@, s)
}

/// `r` lists the agents heard within the timeout, by name.
pub open spec fn lists_seen(d: Discovery, now: u64, r: Seq<Seen>) -> bool {
    let list = fresh_list(d.heard.entries@, now);
    order::is_sorted_copy(list, names_of(list), r)
}

impl Discovery {
    pub fn new() -> (r: Discovery)
        ensures
            r.heard.wf(),
            r.heard@ == Map::<Seq<char>, Seen>::empty(),
    {
        Discovery { heard: StrMap::new() }
    }

    /// Takes a beacon that came from `host`. One that does not count changes
    /// nothing; another replaces what was heard of its agent before.
    pub fn hear(&mut self, beacon: Beacon, host: &str, now: u64)
        requires
            old(self).heard.wf(),
        ensures
            final(self).heard.wf(),
            is_heard(*old(self), beacon, host@, now, *final(self)),
    {
        if beacon.v != VERSION || text::chars_of(beacon.id.as_str()).len() == 0 {
            return;
        }
        let mut addr: String = host.to_string();
        addr.append(":");
        addr.append(text::number(beacon.port as u64).as_str());
        let id: String = beacon.id.clone();
        let s: Seen = Seen { beacon, addr, at: now };
        let ghost g = s;
        self.heard.insert(id, s);
        assert(self.heard@ == old(self).heard@.insert(beacon.id@, g));
    }

    /// The agents heard within the timeout, by name.
    pub fn seen(&self, now: u64) -> (r: Vec<Seen>)
        requires
            self.heard.wf(),
        ensures
            lists_seen(*self, now, r@),
    {
        let ghost all = values(self.heard.entries@);
        let ghost keep = |s: Seen| is_fresh(s, now);
        let mut list: Vec<Seen> = Vec::new();
        let mut names: Vec<String> = Vec::new();
        let mut i: usize = 0;
        proof {
            reveal(Seq::filter);
            assert(all.take(0) =~= Seq::<Seen>::empty());
        }
        while i < self.heard.entries.len()
            invariant
                i <= self.heard.entries.len(),
                all == values(self.heard.entries@),
                keep == (|s: Seen| is_fresh(s, now)),
                list@ == all.take(i as int).filter(keep),
                names@ == names_of(list@),
            decreases self.heard.entries.len() - i,
        {
            proof {
                order::lemma_filter_step(all, keep, i as int);
            }
            let s: &Seen = &self.heard.entries[i].1;
            assert(*s == all[i as int]);
            if fresh(s, now) {
                names.push(s.beacon.name.clone());
                list.push(s.copy());
                assert(names@ =~= names_of(list@));
            }
            i += 1;
        }
        assert(all.take(all.len() as int) =~= all);
        order::sort_by_keys(list, &names)
    }

    /// The agent with an id, where it was heard within the timeout.
    pub fn by_id(&self, id: &str, now: u64) -> (r: Option<Seen>)
        requires
            self.heard.wf(),
        ensures
            r == heard_lately(*self, id@, now),
    {
        match self.heard.get(id) {
            Some(s) => if fresh(s, now) {
                Some(s.copy())
            } else {
                None
            },
            None => None,
        }
    }
}

/// What was heard of an agent within the timeout.
pub open spec fn heard_lately(d: Discovery, id: Seq<char>, now: u64) -> Option<Seen> {
    if d.heard@.dom().contains(id) && is_fresh(d.heard@[id], now) {
        Some(d.heard@[id])
    } else {
        None
    }
}

/// An agent whose beacon was just heard is found by its id until the timeout
/// is over, and not after.
pub proof fn law_heard_until_timeout(d: Discovery, id: Seq<char>, s: Seen, later: u64)
    requires
        d.heard@.dom().contains(id),
        d.heard@[id] == s,
        later >= s.at,
    ensures
        heard_lately(d, id, later) == (if later - s.at < 10_000 {
            Some(s)
        } else {
            None
        }),
{
}

// ---------------------------------------------------------------------------
// Keys

/// A character that a key may hold.
pub open spec fn safe_char(c: char) -> bool {
    text::is_digit(c) || text::is_lower(c) || c == '-' || c == '_'
}

pub open spec fn safe(s: Seq<char>) -> Seq<char> {
    s.map_values(
        |c: char|
            if safe_char(c) {
                c
            } else {
                '-'
            },
    )
}

/// The base of a key for a name in lower case: unsafe characters made
/// dashes, none at the ends; "agent" where nothing is left.
pub open spec fn key_base(low: Seq<char>) -> Seq<char> {
    let b = text::skip_back(
        text::skip_front(safe(low), text::is_char('-')),
        text::is_char('-'),
    );
    if b.len() == 0 {
        "agent"@
    } else {
        b
    }
}

/// The key with a number behind its base.
pub open spec fn numbered(base: Seq<char>, n: nat) -> Seq<char> {
    base + "-"@ + text::decimal(n)
}

/// `r` is the key for a base: the base itself where it is free, else the base
/// with the first free number from two on.
pub open spec fn is_key(base: Seq<char>, taken: StrMap<RemoteCfg>, r: Seq<char>) -> bool {
    if !taken.has_key(base) {
        r == base
    } else {
        exists|n: nat|
            n >= 2 && r == #[trigger] numbered(base, n) && !taken.has_key(numbered(base, n))
                && forall|k: nat| 2 <= k < n ==> taken.has_key(#[trigger] numbered(base, k))
    }
}

/// The base of a key for a name that is in lower case.
pub fn make_base(low: &str) -> (r: String)
    ensures
        r@ == key_base(low@),
{
    let a: Vec<char> = text::chars_of(low);
    let mut s: String = String::new();
    let mut i: usize = 0;
    while i < a.len()
        invariant
            a@ == low@,
            i <= a.len(),
            s@ == safe(low@).take(i as int),
        decreases a.len() - i,
    {
        let c: char = a[i];
        if ('0' <= c && c <= '9') || ('a' <= c && c <= 'z') || c == '-' || c == '_' {
            s.push(c);
        } else {
            s.push('-');
        }
        i += 1;
    }
    assert(s@ =~= safe(low@));
    let front: String = text::strip_leading(s.as_str(), '-');
    let b: String = text::strip_trailing(front.as_str(), '-');
    if text::chars_of(b.as_str()).len() == 0 {
        "agent".to_string()
    } else {
        b
    }
}

proof fn lemma_numbered_injective(base: Seq<char>, a: nat, b: nat)
    requires
        numbered(base, a) == numbered(base, b),
    ensures
        a == b,
{
    let pre = (base + "-"@).len() as int;
    assert(numbered(base, a).skip(pre) =~= text::decimal(a));
    assert(numbered(base, b).skip(pre) =~= text::decimal(b));
    text::lemma_decimal_injective(a, b);
}

/// Not all of more numbered keys than there are entries can be taken.
proof fn lemma_some_free(base: Seq<char>, taken: StrMap<RemoteCfg>, n: nat)
    requires
        n >= 2,
        taken.entries@.len() <= usize::MAX,
        forall|k: nat| 2 <= k < n ==> taken.has_key(#[trigger] numbered(base, k)),
    ensures
        n - 2 <= taken.entries@.len(),
{
    let at = Seq::new((n - 2) as nat, |i: int| taken.index_of(numbered(base, (i + 2) as nat)) as usize);
    let len = taken.entries@.len();
    assert forall|i: int| 0 <= i < at.len() implies {
        &&& (#[trigger] at[i]) < len
        &&& taken.entries@[at[i] as int].0@ == numbered(base, (i + 2) as nat)
    } by {
        assert(taken.has_key(numbered(base, (i + 2) as nat)));
    }
    assert(at.no_duplicates()) by {
        assert forall|i: int, j: int| 0 <= i < j < at.len() implies at[i] != at[j] by {
            if at[i] == at[j] {
                lemma_numbered_injective(base, (i + 2) as nat, (j + 2) as nat);
            }
        }
    }
    at.unique_seq_to_set();
    order::lemma_below(len);
    let all = Set::new(|x: usize| x < len);
    assert(at.to_set().subset_of(all));
    vstd::set_lib::lemma_len_subset(at.to_set(), all);
}

/// The key for a base, next to the keys that are taken.
pub fn free_key(base: String, taken: &StrMap<RemoteCfg>) -> (r: String)
    requires
        taken.wf(),
    ensures
        is_key(base@, *taken, r@),
        !taken@.dom().contains(r@),
{
    if !taken.contains_key(base.as_str()) {
        return base;
    }
    assert(taken.entries.len() == taken.entries@.len());
    let mut n: u128 = 2;
    loop
        invariant
            taken.wf(),
            n - 2 <= taken.entries@.len() <= usize::MAX,
            taken.has_key(base@),
            n >= 2,
            forall|k: nat| 2 <= k < n ==> taken.has_key(#[trigger] numbered(base@, k)),
        decreases taken.entries@.len() + 3 - n,
    {
        let mut key: String = base.clone();
        key.append("-");
        key.append(text::long_number(n).as_str());
        assert(key@ == numbered(base@, n as nat));
        if !taken.contains_key(key.as_str()) {
            return key;
        }
        proof {
            assert forall|k: nat| 2 <= k < n + 1 implies taken.has_key(
                #[trigger] numbered(base@, k),
            ) by {
                if k == n {
                    assert(taken.has_key(numbered(base@, n as nat)));
                }
            }
            lemma_some_free(base@, *taken, (n + 1) as nat);
        }
        n = n + 1;
    }
}

/// Key for a newly connected agent: its name, lower case, safe characters,
/// and different from every key that is taken.
pub fn key_for(name: &str, taken: &StrMap<RemoteCfg>) -> (r: String)
    requires
        taken.wf(),
    ensures
        is_key(key_base(text::lowercase(name@)), *taken, r@),
        !taken@.dom().contains(r@),
{
    let low: String = text::to_lower(name);
    let base: String = make_base(low.as_str());
    free_key(base, taken)
}

/// Every character may stand in a key.
pub open spec fn all_safe(s: Seq<char>) -> bool {
    forall|i: int| 0 <= i < s.len() ==> safe_char(#[trigger] s[i])
}

proof fn lemma_front_is_safe(s: Seq<char>, drop: spec_fn(char) -> bool)
    requires
        all_safe(s),
    ensures
        all_safe(text::skip_front(s, drop)),
    decreases s.len(),
{
    if s.len() > 0 && drop(s[0]) {
        lemma_front_is_safe(s.skip(1), drop);
    }
}

proof fn lemma_back_is_safe(s: Seq<char>, drop: spec_fn(char) -> bool)
    requires
        all_safe(s),
    ensures
        all_safe(text::skip_back(s, drop)),
    decreases s.len(),
{
    if s.len() > 0 && drop(s.last()) {
        lemma_back_is_safe(s.drop_last(), drop);
    }
}

/// Whatever the name of a machine, its key is not empty, holds only small
/// letters, digits, dashes and underscores, and is not taken.
pub proof fn law_keys_are_safe(name: Seq<char>, taken: StrMap<RemoteCfg>, r: Seq<char>)
    requires
        is_key(key_base(text::lowercase(name)), taken, r),
    ensures
        key_base(text::lowercase(name)).len() > 0,
        all_safe(key_base(text::lowercase(name))),
        r.len() > 0,
        all_safe(r),
        !taken.has_key(r),
{
    let low = text::lowercase(name);
    let base = key_base(low);
    assert(all_safe(safe(low)));
    lemma_front_is_safe(safe(low), text::is_char('-'));
    lemma_back_is_safe(
        text::skip_front(safe(low), text::is_char('-')),
        text::is_char('-'),
    );
    reveal_strlit("agent");
    reveal_strlit("-");
    if taken.has_key(base) {
        let n = choose|n: nat|
            n >= 2 && r == #[trigger] numbered(base, n) && !taken.has_key(numbered(base, n))
                && forall|k: nat| 2 <= k < n ==> taken.has_key(#[trigger] numbered(base, k));
        text::lemma_decimal_value(n);
        assert forall|i: int| 0 <= i < r.len() implies safe_char(#[trigger] r[i]) by {
            let b = base.len() as int;
            if i > b {
                assert(r[i] == text::decimal(n)[i - b - 1]);
            }
        }
    }
}

/// A machine that announces itself is found by its id at the address that the
/// announcement came from, with the port that it says, until it has been silent
/// for ten seconds; what was heard of the others stays. An announcement without
/// an id, or of another version, changes nothing.
pub proof fn law_announced_machine_is_found(
    before: Discovery,
    beacon: Beacon,
    host: Seq<char>,
    now: u64,
    after: Discovery,
    other: Seq<char>,
    later: u64,
)
    requires
        is_heard(before, beacon, host, now, after),
        now <= later,
    ensures
        beacon.v == VERSION && beacon.id@.len() > 0 && later - now < 10_000 ==> (heard_lately(
            after,
            beacon.id@,
            later,
        ) matches Some(s) && s.beacon == beacon && s.at == now && s.addr@ == host + ":"@
            + text::decimal(beacon.port as nat)),
        beacon.v == VERSION && beacon.id@.len() > 0 && later - now >= 10_000 ==> heard_lately(
            after,
            beacon.id@,
            later,
        ).is_none(),
        other != beacon.id@ ==> heard_lately(after, other, later) == heard_lately(
            before,
            other,
            later,
        ),
        beacon.v != VERSION || beacon.id@.len() == 0 ==> after == before,
{
    if is_valid(beacon) {
        let s = choose|s: Seen|
            s.beacon == beacon && s.addr@ == address_text(host, beacon.port as nat) && s.at == now
                && after.heard@ == #[trigger] before.heard@.insert(beacon.id@, s);
        assert(after.heard@ == before.heard@.insert(beacon.id@, s));
    }
}

/// The list of the machines around holds each that was heard within ten seconds,
/// none that was not, and stands by name.
pub proof fn law_machines_are_listed_by_name(d: Discovery, now: u64, r: Seq<Seen>, i: int)
    requires
        lists_seen(d, now, r),
        d.heard.entries@.len() <= usize::MAX,
        0 <= i < d.heard.entries@.len(),
    ensures
        now - d.heard.entries@[i].1.at < 10_000 ==> r.contains(d.heard.entries@[i].1),
        forall|k: int| 0 <= k < r.len() ==> now - (#[trigger] r[k]).at < 10_000,
        forall|k: int, l: int|
            0 <= k < l < r.len() ==> !text::before(
                (#[trigger] r[l]).beacon.name@,
                (#[trigger] r[k]).beacon.name@,
            ),
        r.len() <= d.heard.entries@.len(),
{
    let all = values(d.heard.entries@);
    let keep = |s: Seen| is_fresh(s, now);
    let list = all.filter(keep);
    let keys = names_of(list);
    all.lemma_filter_len(keep);
    let p = choose|p: Seq<usize>| #[trigger]
        order::is_stable_order(keys, p) && r == order::arranged(list, p);
    if is_fresh(all[i], now) {
        all.lemma_filter_contains(keep, i);
        let w = choose|w: int| 0 <= w < list.len() && list[w] == all[i];
        order::lemma_permutation_covers(p, w);
        let k = choose|k: int| 0 <= k < p.len() && p[k] == w;
        assert(r[k] == all[i]);
    }
    assert forall|k: int| 0 <= k < r.len() implies now - (#[trigger] r[k]).at < 10_000 by {
        assert(p[k] < p.len());
        all.lemma_filter_pred(keep, p[k] as int);
        assert(r[k] == list[p[k] as int]);
    }
    assert forall|k: int, l: int| 0 <= k < l < r.len() implies !text::before(
        (#[trigger] r[l]).beacon.name@,
        (#[trigger] r[k]).beacon.name@,
    ) by {
        assert(order::goes_first(keys, p[k] as int, p[l] as int));
        assert(keys[p[k] as int] == r[k].beacon.name && keys[p[l] as int] == r[l].beacon.name);
        text::lemma_before_total(r[k].beacon.name@, r[l].beacon.name@);
    }
}

/// A name that is a key already is its own key where it is free.
pub proof fn law_safe_names_are_their_keys(low: Seq<char>, taken: StrMap<RemoteCfg>, r: Seq<char>)
    requires
        low.len() > 0,
        all_safe(low),
        low[0] != '-',
        low.last() != '-',
        is_key(key_base(low), taken, r),
    ensures
        !taken.has_key(low) ==> r == low,
        taken.has_key(low) ==> low.is_prefix_of(r) && r.len() > low.len(),
{
    assert(safe(low) =~= low);
    let f = text::is_char('-');
    assert(text::skip_front(low, f) == low);
    assert(text::skip_back(low, f) == low);
    assert(key_base(low) == low);
    if taken.has_key(low) {
        let n = choose|n: nat|
            n >= 2 && r == #[trigger] numbered(low, n) && !taken.has_key(numbered(low, n))
                && forall|k: nat| 2 <= k < n ==> taken.has_key(#[trigger] numbered(low, k));
        assert(low.is_prefix_of(numbered(low, n)));
        reveal_strlit("-");
        assert("-"@.len() == 1);
    }
}

} // verus!
