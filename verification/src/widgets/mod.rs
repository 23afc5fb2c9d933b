//! The widgets of the strip: which there are, and the list of those that are
//! shown, in which the widgets of one module stand together.

pub mod layout;
pub mod theme;

use crate::i18n::{self, Translator};
use crate::order;
use crate::text;
use vstd::prelude::*;

verus! {

/// Module a widget belongs to (one popup per kind).
#[derive(Clone, Copy, Debug, PartialEq, Eq, Structural)]
pub enum Kind {
    Cpu,
    Gpu,
    Mem,
    Disk,
    Net,
    Battery,
}

/// Where a module stands among all.
pub open spec fn module_rank(k: Kind) -> int {
    match k {
        Kind::Cpu => 0,
        Kind::Gpu => 1,
        Kind::Mem => 2,
        Kind::Disk => 3,
        Kind::Net => 4,
        Kind::Battery => 5,
    }
}

/// The key of a module's name.
pub open spec fn title_key(k: Kind) -> Seq<char> {
    match k {
        Kind::Cpu => "module.cpu"@,
        Kind::Gpu => "module.gpu"@,
        Kind::Mem => "module.ram"@,
        Kind::Disk => "module.disk"@,
        Kind::Net => "module.network"@,
        Kind::Battery => "module.battery"@,
    }
}

impl Kind {
    /// Translated module name for the menu.
    pub fn title(self, tr: &Translator) -> (r: String)
        ensures
            r@ == i18n::text_of(*tr, title_key(self)),
    {
        tr.t(
            match self {
                Kind::Cpu => "module.cpu",
                Kind::Gpu => "module.gpu",
                Kind::Mem => "module.ram",
                Kind::Disk => "module.disk",
                Kind::Net => "module.network",
                Kind::Battery => "module.battery",
            },
        )
    }

    /// Where the module stands among all.
    pub fn rank(self) -> (r: usize)
        ensures
            r == module_rank(self),
            r < 6,
    {
        match self {
            Kind::Cpu => 0,
            Kind::Gpu => 1,
            Kind::Mem => 2,
            Kind::Disk => 3,
            Kind::Net => 4,
            Kind::Battery => 5,
        }
    }
}

pub open spec fn module_list() -> Seq<Kind> {
    seq![Kind::Cpu, Kind::Gpu, Kind::Mem, Kind::Disk, Kind::Net, Kind::Battery]
}

/// The modules, in the order of the menus.
pub fn modules() -> (r: Vec<Kind>)
    ensures
        r@ == module_list(),
{
    let r: Vec<Kind> = vec![Kind::Cpu, Kind::Gpu, Kind::Mem, Kind::Disk, Kind::Net, Kind::Battery];
    assert(r@ =~= module_list());
    r
}

/// A widget: its module, its name in the configuration, the key of its title.
pub struct Entry {
    pub kind: Kind,
    pub name: &'static str,
    pub title: &'static str,
}

/// Every available widget, in module order.
pub open spec fn catalog_list() -> Seq<(Kind, Seq<char>, Seq<char>)> {
    seq![
        (Kind::Cpu, "cpu_bars"@, "widget.bar_chart"@),
        (Kind::Cpu, "cpu_line"@, "widget.line_chart"@),
        (Kind::Cpu, "cpu_mini"@, "widget.mini"@),
        (Kind::Gpu, "gpu"@, "widget.mini"@),
        (Kind::Gpu, "gpu_line"@, "widget.line_chart"@),
        (Kind::Mem, "mem"@, "widget.mini"@),
        (Kind::Mem, "mem_line"@, "widget.line_chart"@),
        (Kind::Mem, "mem_text"@, "widget.used_free"@),
        (Kind::Disk, "disk"@, "widget.speed"@),
        (Kind::Disk, "disk_chart"@, "widget.chart"@),
        (Kind::Net, "net"@, "widget.speed"@),
        (Kind::Net, "net_chart"@, "widget.chart"@),
        (Kind::Battery, "battery"@, "widget.battery"@),
    ]
}

pub open spec fn entry_view(e: Entry) -> (Kind, Seq<char>, Seq<char>) {
    (e.kind, e.name@, e.title@)
}

fn entry(kind: Kind, name: &'static str, title: &'static str) -> (r: Entry)
    ensures
        entry_view(r) == (kind, name@, title@),
{
    Entry { kind, name, title }
}

/// Every available widget, in module order.
pub fn catalog() -> (r: Vec<Entry>)
    ensures
        r@.map_values(|e: Entry| entry_view(e)) == catalog_list(),
{
    let mut r: Vec<Entry> = Vec::new();
    r.push(entry(Kind::Cpu, "cpu_bars", "widget.bar_chart"));
    r.push(entry(Kind::Cpu, "cpu_line", "widget.line_chart"));
    r.push(entry(Kind::Cpu, "cpu_mini", "widget.mini"));
    r.push(entry(Kind::Gpu, "gpu", "widget.mini"));
    r.push(entry(Kind::Gpu, "gpu_line", "widget.line_chart"));
    r.push(entry(Kind::Mem, "mem", "widget.mini"));
    r.push(entry(Kind::Mem, "mem_line", "widget.line_chart"));
    r.push(entry(Kind::Mem, "mem_text", "widget.used_free"));
    r.push(entry(Kind::Disk, "disk", "widget.speed"));
    r.push(entry(Kind::Disk, "disk_chart", "widget.chart"));
    r.push(entry(Kind::Net, "net", "widget.speed"));
    r.push(entry(Kind::Net, "net_chart", "widget.chart"));
    r.push(entry(Kind::Battery, "battery", "widget.battery"));
    assert(r@.map_values(|e: Entry| entry_view(e)) =~= catalog_list());
    r
}

/// The first widget of the catalogue from `from` on with that name.
pub open spec fn index_from(name: Seq<char>, from: int) -> Option<int>
    decreases catalog_list().len() - from,
{
    if from < 0 || from >= catalog_list().len() {
        None
    } else if catalog_list()[from].1 == name {
        Some(from)
    } else {
        index_from(name, from + 1)
    }
}

/// Where a widget stands in the catalogue.
pub open spec fn index_of(name: Seq<char>) -> Option<int> {
    index_from(name, 0)
}

pub open spec fn known(name: Seq<char>) -> bool {
    index_of(name).is_some()
}

/// The module of a widget.
pub open spec fn kind_of(name: Seq<char>) -> Option<Kind> {
    match index_of(name) {
        Some(i) => Some(catalog_list()[i].0),
        None => None,
    }
}

proof fn lemma_index_from(name: Seq<char>, from: int)
    requires
        0 <= from <= catalog_list().len(),
    ensures
        match index_from(name, from) {
            Some(i) => from <= i < catalog_list().len() && catalog_list()[i].1 == name,
            None => true,
        },
    decreases catalog_list().len() - from,
{
    if from < catalog_list().len() && catalog_list()[from].1 != name {
        lemma_index_from(name, from + 1);
    }
}

/// Where a widget stands in the catalogue, and its module.
fn catalog_index(name: &str) -> (r: Option<(usize, Kind)>)
    ensures
        match r {
            Some(x) => index_of(name@) == Some(x.0 as int) && kind_of(name@) == Some(x.1),
            None => index_of(name@).is_none(),
        },
{
    let c: Vec<Entry> = catalog();
    let ghost v = c@.map_values(|e: Entry| entry_view(e));
    let mut i: usize = 0;
    while i < c.len()
        invariant
            v == c@.map_values(|e: Entry| entry_view(e)),
            v == catalog_list(),
            i <= c.len(),
            index_of(name@) == index_from(name@, i as int),
        decreases c.len() - i,
    {
        assert(v[i as int] == entry_view(c@[i as int]));
        if text::same(c[i].name, name) {
            return Some((i, c[i].kind));
        }
        i += 1;
    }
    None
}

/// The module of a widget, if it is known.
pub fn module_of(name: &str) -> (r: Option<Kind>)
    ensures
        r == kind_of(name@),
{
    match catalog_index(name) {
        Some((_, k)) => Some(k),
        None => None,
    }
}

/// True for a name the builder understands.
pub fn is_known(name: &str) -> (r: bool)
    ensures
        r == known(name@),
{
    catalog_index(name).is_some()
}

// ---------------------------------------------------------------------------
// Switching a widget on and off

/// The first place of a name in a list, from `from` on; the length where there
/// is none.
pub open spec fn place_from(list: Seq<Seq<char>>, name: Seq<char>, from: int) -> int
    decreases list.len() - from,
{
    if from < 0 || from >= list.len() || list[from] == name {
        from
    } else {
        place_from(list, name, from + 1)
    }
}

/// One more than the last place of a widget of a module; zero where there is
/// none.
pub open spec fn end_of_kind(list: Seq<Seq<char>>, k: Kind) -> int
    decreases list.len(),
{
    if list.len() == 0 {
        0
    } else if kind_of(list.last()) == Some(k) {
        list.len() as int
    } else {
        end_of_kind(list.drop_last(), k)
    }
}

/// The first place, from `from` on, of a widget behind `idx` in the catalogue;
/// the length where there is none.
pub open spec fn place_behind(list: Seq<Seq<char>>, idx: int, from: int) -> int
    decreases list.len() - from,
{
    if from < 0 || from >= list.len() {
        from
    } else {
        match index_of(list[from]) {
            Some(j) => if j > idx {
                from
            } else {
                place_behind(list, idx, from + 1)
            },
            None => place_behind(list, idx, from + 1),
        }
    }
}

/// Where a widget that is not in the list goes: behind the last of its module,
/// else in front of the first that follows it in the catalogue, else at the
/// end.
pub open spec fn new_place(list: Seq<Seq<char>>, name: Seq<char>) -> int {
    let k = kind_of(name)->0;
    if end_of_kind(list, k) > 0 {
        end_of_kind(list, k)
    } else {
        place_behind(list, index_of(name)->0, 0)
    }
}

/// The list after switching a widget: one that stands in it leaves, a known
/// one that does not is put in its place, an unknown one changes nothing.
pub open spec fn toggled(list: Seq<Seq<char>>, name: Seq<char>) -> Seq<Seq<char>> {
    if list.contains(name) {
        list.remove(place_from(list, name, 0))
    } else if known(name) {
        list.insert(new_place(list, name), name)
    } else {
        list
    }
}

proof fn lemma_place_from(list: Seq<Seq<char>>, name: Seq<char>, from: int)
    requires
        0 <= from <= list.len(),
    ensures
        from <= place_from(list, name, from) <= list.len(),
        place_from(list, name, from) < list.len() ==> list[place_from(list, name, from)] == name,
        forall|j: int| from <= j < place_from(list, name, from) ==> #[trigger] list[j] != name,
    decreases list.len() - from,
{
    if from < list.len() && list[from] != name {
        lemma_place_from(list, name, from + 1);
    }
}

proof fn lemma_place_from_is(list: Seq<Seq<char>>, name: Seq<char>, from: int, at: int)
    requires
        0 <= from <= at < list.len(),
        list[at] == name,
        forall|j: int| from <= j < at ==> #[trigger] list[j] != name,
    ensures
        place_from(list, name, from) == at,
    decreases at - from,
{
    if from < at {
        lemma_place_from_is(list, name, from + 1, at);
    }
}

proof fn lemma_end_of_kind(list: Seq<Seq<char>>, k: Kind)
    ensures
        0 <= end_of_kind(list, k) <= list.len(),
        end_of_kind(list, k) > 0 ==> kind_of(list[end_of_kind(list, k) - 1]) == Some(k),
        forall|j: int|
            end_of_kind(list, k) <= j < list.len() ==> kind_of(#[trigger] list[j]) != Some(k),
    decreases list.len(),
{
    if list.len() > 0 && kind_of(list.last()) != Some(k) {
        lemma_end_of_kind(list.drop_last(), k);
        assert forall|j: int| end_of_kind(list, k) <= j < list.len() implies kind_of(
            #[trigger] list[j],
        ) != Some(k) by {
            if j < list.len() - 1 {
                assert(list.drop_last()[j] == list[j]);
            }
        }
    }
}

proof fn lemma_place_behind(list: Seq<Seq<char>>, idx: int, from: int)
    requires
        0 <= from <= list.len(),
    ensures
        from <= place_behind(list, idx, from) <= list.len(),
        place_behind(list, idx, from) < list.len() ==> (match index_of(
            list[place_behind(list, idx, from)],
        ) {
            Some(j) => j > idx,
            None => false,
        }),
        forall|j: int|
            from <= j < place_behind(list, idx, from) ==> (match index_of(#[trigger] list[j]) {
                Some(i) => i <= idx,
                None => true,
            }),
    decreases list.len() - from,
{
    if from < list.len() {
        lemma_place_behind(list, idx, from + 1);
    }
}

/// Enables or disables a widget in the configured list, keeping the widgets of
/// one module together.
pub fn toggle_widget(list: &mut Vec<String>, name: &str)
    ensures
        text::views(final(list)@) == toggled(text::views(old(list)@), name@),
{
    let ghost v = text::views(list@);
    let mut i: usize = 0;
    while i < list.len()
        invariant
            v == text::views(list@),
            list@ == old(list)@,
            i <= list.len(),
            place_from(v, name@, 0) == place_from(v, name@, i as int),
            forall|j: int| 0 <= j < i ==> #[trigger] v[j] != name@,
        decreases list.len() - i,
    {
        assert(v[i as int] == list@[i as int]@);
        if text::same(list[i].as_str(), name) {
            assert(v.contains(name@));
            list.remove(i);
            assert(text::views(list@) =~= v.remove(i as int));
            return;
        }
        i += 1;
    }
    assert(!v.contains(name@));
    match catalog_index(name) {
        None => {},
        Some((idx, kind)) => {
            let mut p: usize = list.len();
            assert(v.take(p as int) =~= v);
            while p > 0
                invariant
                    v == text::views(list@),
                    list@ == old(list)@,
                    p <= list.len(),
                    end_of_kind(v, kind) == end_of_kind(v.take(p as int), kind),
                    !v.contains(name@),
                    kind_of(name@) == Some(kind),
                    index_of(name@) == Some(idx as int),
                decreases p,
            {
                proof {
                    let t = v.take(p as int);
                    assert(t.last() == v[p - 1]);
                    assert(v[p - 1] == list@[p - 1]@);
                    assert(t.drop_last() =~= v.take(p - 1));
                }
                if let Some((_, k)) = catalog_index(list[p - 1].as_str()) {
                    if k == kind {
                        let ghost l0 = list@;
                        list.insert(p, name.to_string());
                        assert(text::views(list@) =~= v.insert(p as int, name@));
                        return;
                    }
                }
                p -= 1;
            }
            let mut q: usize = 0;
            while q < list.len()
                invariant
                    v == text::views(list@),
                    list@ == old(list)@,
                    q <= list.len(),
                    place_behind(v, idx as int, 0) == place_behind(v, idx as int, q as int),
                    end_of_kind(v, kind) == 0,
                    !v.contains(name@),
                    kind_of(name@) == Some(kind),
                    index_of(name@) == Some(idx as int),
                decreases list.len() - q,
            {
                assert(v[q as int] == list@[q as int]@);
                if let Some((j, _)) = catalog_index(list[q].as_str()) {
                    if j > idx {
                        list.insert(q, name.to_string());
                        assert(text::views(list@) =~= v.insert(q as int, name@));
                        return;
                    }
                }
                q += 1;
            }
            list.push(name.to_string());
            assert(text::views(list@) =~= v.insert(q as int, name@));
        },
    }
}

/// Switching a widget on and off again gives the list back.
pub proof fn law_toggle_back(list: Seq<Seq<char>>, name: Seq<char>)
    requires
        !list.contains(name),
    ensures
        toggled(toggled(list, name), name) == list,
{
    if known(name) {
        let at = new_place(list, name);
        lemma_end_of_kind(list, kind_of(name)->0);
        lemma_place_behind(list, index_of(name)->0, 0);
        let l2 = list.insert(at, name);
        assert(l2[at] == name);
        assert forall|j: int| 0 <= j < at implies #[trigger] l2[j] != name by {
            assert(l2[j] == list[j]);
            assert(list.contains(list[j]));
        }
        lemma_place_from_is(l2, name, 0, at);
        assert(l2.remove(at) =~= list);
    }
}

/// Between two widgets of a module stands no widget of another.
pub open spec fn together(list: Seq<Seq<char>>) -> bool {
    forall|i: int, j: int, m: int|
        0 <= i < j < m < list.len() && kind_of(#[trigger] list[i]).is_some() && kind_of(list[i])
            == kind_of(#[trigger] list[m]) && kind_of(#[trigger] list[j]).is_some() ==> kind_of(
            list[j],
        ) == kind_of(list[i])
}

proof fn lemma_catalog_sorted()
    ensures
        forall|i: int, j: int|
            0 <= i <= j < catalog_list().len() ==> module_rank((#[trigger] catalog_list()[i]).0)
                <= module_rank((#[trigger] catalog_list()[j]).0),
{
}

/// Switching a widget leaves the widgets of every module together.
pub proof fn law_toggle_keeps_modules_together(list: Seq<Seq<char>>, name: Seq<char>)
    requires
        together(list),
    ensures
        together(toggled(list, name)),
{
    let l2 = toggled(list, name);
    if list.contains(name) {
        lemma_place_from(list, name, 0);
        let at = place_from(list, name, 0);
        let w = choose|w: int| 0 <= w < list.len() && list[w] == name;
        assert(list[w] == name);
        assert(at < list.len());
        assert forall|i: int, j: int, m: int|
            0 <= i < j < m < l2.len() && kind_of(#[trigger] l2[i]).is_some() && kind_of(l2[i])
                == kind_of(#[trigger] l2[m]) && kind_of(
                #[trigger] l2[j],
            ).is_some() implies kind_of(l2[j]) == kind_of(l2[i]) by {
            let a = if i < at { i } else { i + 1 };
            let b = if j < at { j } else { j + 1 };
            let c = if m < at { m } else { m + 1 };
            assert(l2[i] == list[a] && l2[j] == list[b] && l2[m] == list[c]);
        }
    } else if known(name) {
        let k = kind_of(name)->0;
        let idx = index_of(name)->0;
        let at = new_place(list, name);
        lemma_end_of_kind(list, k);
        lemma_place_behind(list, idx, 0);
        lemma_catalog_sorted();
        lemma_index_from(name, 0);
        assert forall|i: int, j: int, m: int|
            0 <= i < j < m < l2.len() && kind_of(#[trigger] l2[i]).is_some() && kind_of(l2[i])
                == kind_of(#[trigger] l2[m]) && kind_of(
                #[trigger] l2[j],
            ).is_some() implies kind_of(l2[j]) == kind_of(l2[i]) by {
            let a = if i < at { i } else { i - 1 };
            let b = if j < at { j } else { j - 1 };
            let c = if m < at { m } else { m - 1 };
            if i != at {
                assert(l2[i] == list[a]);
            }
            if j != at {
                assert(l2[j] == list[b]);
            }
            if m != at {
                assert(l2[m] == list[c]);
            }
            if i == at {
                assert(list[c] == l2[m]);
            } else if m == at {
                if end_of_kind(list, k) > 0 {
                    assert(kind_of(list[at - 1]) == Some(k));
                    if j < at - 1 {
                        assert(list[a] == l2[i] && list[b] == l2[j]);
                    }
                } else {
                    assert(kind_of(list[a]) != Some(k));
                }
            } else if j == at {
                if end_of_kind(list, k) > 0 {
                    if i < at - 1 {
                        assert(kind_of(list[at - 1]) == Some(k));
                        assert(kind_of(list[a]) == kind_of(list[c]));
                    }
                } else {
                    lemma_index_from(list[a], 0);
                    lemma_index_from(list[c], 0);
                    lemma_index_from(list[at], 0);
                    let ia = index_of(list[a])->0;
                    let it = index_of(list[at])->0;
                    assert(ia <= idx);
                    assert(it > idx);
                    if c == at {
                        assert(module_rank(catalog_list()[ia].0) <= module_rank(
                            catalog_list()[idx].0,
                        ) <= module_rank(catalog_list()[it].0));
                    } else {
                        assert(kind_of(list[at]) == kind_of(list[a]));
                        assert(module_rank(catalog_list()[ia].0) <= module_rank(
                            catalog_list()[idx].0,
                        ) <= module_rank(catalog_list()[it].0));
                    }
                }
            } else {
                assert(kind_of(list[b]) == kind_of(list[a]));
            }
        }
    }
}

// ---------------------------------------------------------------------------
// Dropping unknown names

pub open spec fn is_known_name() -> spec_fn(Seq<char>) -> bool {
    |n: Seq<char>| known(n)
}

/// Drops unknown names so that the indices of the list line up with the built
/// widgets.
pub fn normalize(list: &mut Vec<String>)
    ensures
        text::views(final(list)@) == text::views(old(list)@).filter(is_known_name()),
{
    let ghost v = text::views(list@);
    let mut out: Vec<String> = Vec::new();
    let mut i: usize = 0;
    proof {
        if v.len() > 0 {
            order::lemma_filter_step(v, is_known_name(), 0);
        } else {
            reveal(Seq::filter);
        }
        assert(v.take(0) =~= Seq::<Seq<char>>::empty());
        assert(text::views(out@) =~= Seq::<Seq<char>>::empty());
        reveal(Seq::filter);
    }
    while i < list.len()
        invariant
            v == text::views(list@),
            list@ == old(list)@,
            i <= list.len(),
            text::views(out@) == v.take(i as int).filter(is_known_name()),
        decreases list.len() - i,
    {
        proof {
            order::lemma_filter_step(v, is_known_name(), i as int);
            assert(v[i as int] == list@[i as int]@);
        }
        if is_known(list[i].as_str()) {
            let ghost o = out@;
            out.push(list[i].clone());
            assert(text::views(out@) =~= text::views(o).push(v[i as int]));
        }
        i += 1;
    }
    assert(v.take(v.len() as int) =~= v);
    *list = out;
}

/// Every name that is left is known, and a list of known names stays as it is;
/// so dropping twice drops no more than dropping once.
pub proof fn law_normalize_is_idempotent(list: Seq<Seq<char>>)
    ensures
        forall|i: int|
            0 <= i < list.filter(is_known_name()).len() ==> known(
                #[trigger] list.filter(is_known_name())[i],
            ),
        list.filter(is_known_name()).filter(is_known_name()) == list.filter(is_known_name()),
        (forall|i: int| 0 <= i < list.len() ==> known(#[trigger] list[i])) ==> list.filter(
            is_known_name(),
        ) == list,
{
    let f = list.filter(is_known_name());
    assert forall|i: int| 0 <= i < f.len() implies known(#[trigger] f[i]) by {
        list.lemma_filter_pred(is_known_name(), i);
    }
    lemma_filter_all(f, is_known_name());
    if forall|i: int| 0 <= i < list.len() ==> known(#[trigger] list[i]) {
        lemma_filter_all(list, is_known_name());
    }
}

proof fn lemma_filter_all(s: Seq<Seq<char>>, pred: spec_fn(Seq<char>) -> bool)
    requires
        forall|i: int| 0 <= i < s.len() ==> pred(#[trigger] s[i]),
    ensures
        s.filter(pred) == s,
    decreases s.len(),
{
    reveal(Seq::filter);
    if s.len() > 0 {
        let d = s.drop_last();
        assert forall|i: int| 0 <= i < d.len() implies pred(#[trigger] d[i]) by {
            assert(d[i] == s[i]);
        }
        lemma_filter_all(d, pred);
        assert(pred(s[s.len() - 1]));
        assert(d.push(s.last()) =~= s);
    } else {
        assert(s.filter(pred) =~= s);
    }
}

// ---------------------------------------------------------------------------
// Moving a module

/// The modules of a list, each where its first widget stands.
pub open spec fn module_order(list: Seq<Seq<char>>) -> Seq<Kind>
    decreases list.len(),
{
    if list.len() == 0 {
        Seq::empty()
    } else {
        let o = module_order(list.drop_last());
        match kind_of(list.last()) {
            Some(k) => if o.contains(k) {
                o
            } else {
                o.push(k)
            },
            None => o,
        }
    }
}

pub open spec fn of_kind(k: Kind) -> spec_fn(Seq<char>) -> bool {
    |n: Seq<char>| kind_of(n) == Some(k)
}

/// The widgets of a module, in the order of the list.
pub open spec fn block(list: Seq<Seq<char>>, k: Kind) -> Seq<Seq<char>> {
    list.filter(of_kind(k))
}

/// The widgets of the list, module by module.
pub open spec fn laid_out(list: Seq<Seq<char>>, kinds: Seq<Kind>) -> Seq<Seq<char>>
    decreases kinds.len(),
{
    if kinds.len() == 0 {
        Seq::empty()
    } else {
        laid_out(list, kinds.drop_last()) + block(list, kinds.last())
    }
}

/// Two modules change places.
pub open spec fn swapped(kinds: Seq<Kind>, a: int, b: int) -> Seq<Kind> {
    kinds.update(a, kinds[b]).update(b, kinds[a])
}

/// The module can be moved `dir` places: it has a widget in the list, and there
/// is a module at that place.
pub open spec fn can_move(list: Seq<Seq<char>>, k: Kind, dir: int) -> bool {
    let o = module_order(list);
    o.contains(k) && 0 <= o.index_of(k) + dir < o.len()
}

/// The list after moving the widgets of a module by `dir` modules: modules are
/// gathered, the module changes places with the one there, and unknown names
/// are dropped. Where it cannot be moved the list stays as it is.
pub open spec fn moved(list: Seq<Seq<char>>, k: Kind, dir: int) -> Seq<Seq<char>> {
    let o = module_order(list);
    if can_move(list, k, dir) {
        laid_out(list, swapped(o, o.index_of(k), o.index_of(k) + dir))
    } else {
        list
    }
}

proof fn lemma_order_distinct(list: Seq<Seq<char>>)
    ensures
        module_order(list).no_duplicates(),
        forall|k: Kind|
            #[trigger] module_order(list).contains(k) <==> exists|i: int|
                0 <= i < list.len() && kind_of(#[trigger] list[i]) == Some(k),
    decreases list.len(),
{
    if list.len() > 0 {
        let d = list.drop_last();
        lemma_order_distinct(d);
        let o = module_order(d);
        let r = module_order(list);
        assert forall|k: Kind| #[trigger] r.contains(k) <==> exists|i: int|
            0 <= i < list.len() && kind_of(#[trigger] list[i]) == Some(k) by {
            if r.contains(k) {
                if o.contains(k) {
                    let i = choose|i: int| 0 <= i < d.len() && kind_of(#[trigger] d[i]) == Some(k);
                    assert(list[i] == d[i]);
                } else {
                    let x = choose|x: int| 0 <= x < r.len() && r[x] == k;
                    if x < o.len() {
                        assert(o[x] == k);
                    }
                    assert(kind_of(list[list.len() - 1]) == Some(k));
                }
            }
            if exists|i: int| 0 <= i < list.len() && kind_of(#[trigger] list[i]) == Some(k) {
                let i = choose|i: int| 0 <= i < list.len() && kind_of(#[trigger] list[i]) == Some(
                    k,
                );
                if i < d.len() {
                    assert(d[i] == list[i]);
                    assert(o.contains(k));
                    let x = choose|x: int| 0 <= x < o.len() && o[x] == k;
                    assert(r[x] == k);
                } else if !o.contains(k) {
                    assert(r[o.len() as int] == k);
                }
            }
        }
    }
}

fn kind_listed(v: &Vec<Kind>, k: Kind) -> (r: Option<usize>)
    ensures
        match r {
            Some(i) => i < v.len() && v@[i as int] == k,
            None => !v@.contains(k),
        },
{
    let mut i: usize = 0;
    while i < v.len()
        invariant
            i <= v.len(),
            forall|j: int| 0 <= j < i ==> #[trigger] v@[j] != k,
        decreases v.len() - i,
    {
        if v[i] == k {
            return Some(i);
        }
        i += 1;
    }
    None
}

fn order_of_modules(list: &Vec<String>) -> (r: Vec<Kind>)
    ensures
        r@ == module_order(text::views(list@)),
{
    let ghost v = text::views(list@);
    let mut r: Vec<Kind> = Vec::new();
    let mut i: usize = 0;
    while i < list.len()
        invariant
            v == text::views(list@),
            i <= list.len(),
            r@ == module_order(v.take(i as int)),
        decreases list.len() - i,
    {
        proof {
            let t = v.take(i as int + 1);
            assert(t.drop_last() =~= v.take(i as int));
            assert(t.last() == list@[i as int]@);
        }
        if let Some((_, k)) = catalog_index(list[i].as_str()) {
            match kind_listed(&r, k) {
                Some(x) => {
                    assert(r@[x as int] == k);
                },
                None => {
                    r.push(k);
                },
            }
        }
        i += 1;
    }
    assert(v.take(v.len() as int) =~= v);
    r
}

fn push_block(list: &Vec<String>, k: Kind, out: &mut Vec<String>)
    ensures
        text::views(final(out)@) == text::views(old(out)@) + block(text::views(list@), k),
{
    let ghost v = text::views(list@);
    let ghost o0 = text::views(out@);
    let mut i: usize = 0;
    proof {
        reveal(Seq::filter);
        assert(v.take(0) =~= Seq::<Seq<char>>::empty());
        assert(o0 =~= o0 + block(v.take(0), k));
    }
    while i < list.len()
        invariant
            v == text::views(list@),
            i <= list.len(),
            text::views(out@) == o0 + block(v.take(i as int), k),
        decreases list.len() - i,
    {
        proof {
            order::lemma_filter_step(v, of_kind(k), i as int);
            assert(v[i as int] == list@[i as int]@);
        }
        if let Some((_, x)) = catalog_index(list[i].as_str()) {
            if x == k {
                let ghost o = out@;
                out.push(list[i].clone());
                assert(text::views(out@) =~= text::views(o).push(v[i as int]));
                assert(text::views(out@) =~= o0 + block(v.take(i as int + 1), k));
            }
        }
        i += 1;
    }
    assert(v.take(v.len() as int) =~= v);
}

/// Moves every widget of a module by `dir` module blocks: one to the left (-1)
/// or to the right (+1).
pub fn move_module(list: &mut Vec<String>, kind: Kind, dir: i32)
    ensures
        text::views(final(list)@) == moved(text::views(old(list)@), kind, dir as int),
{
    let ghost v = text::views(list@);
    let mut kinds: Vec<Kind> = order_of_modules(list);
    let ghost o = kinds@;
    proof {
        lemma_order_distinct(v);
    }
    match kind_listed(&kinds, kind) {
        None => {},
        Some(pos) => {
            assert(o[pos as int] == kind);
            assert(o.index_of(kind) == pos);
            let target: i128 = pos as i128 + dir as i128;
            if target < 0 || target >= kinds.len() as i128 {
                return;
            }
            let t: usize = target as usize;
            let a: Kind = kinds[pos];
            let b: Kind = kinds[t];
            kinds.set(pos, b);
            kinds.set(t, a);
            assert(kinds@ == swapped(o, pos as int, t as int));
            let mut out: Vec<String> = Vec::new();
            let mut i: usize = 0;
            assert(text::views(out@) =~= Seq::<Seq<char>>::empty());
            while i < kinds.len()
                invariant
                    v == text::views(list@),
                    list@ == old(list)@,
                    i <= kinds.len(),
                    text::views(out@) == laid_out(v, kinds@.take(i as int)),
                decreases kinds.len() - i,
            {
                push_block(list, kinds[i], &mut out);
                proof {
                    let t1 = kinds@.take(i as int + 1);
                    assert(t1.drop_last() =~= kinds@.take(i as int));
                    assert(t1.last() == kinds@[i as int]);
                }
                i += 1;
            }
            assert(kinds@.take(kinds@.len() as int) =~= kinds@);
            *list = out;
        },
    }
}

proof fn lemma_block_of_block(list: Seq<Seq<char>>, a: Kind, k: Kind)
    ensures
        block(block(list, a), k) == (if a == k {
            block(list, k)
        } else {
            Seq::empty()
        }),
    decreases list.len(),
{
    reveal(Seq::filter);
    if list.len() > 0 {
        lemma_block_of_block(list.drop_last(), a, k);
        let b = block(list.drop_last(), a);
        if kind_of(list.last()) == Some(a) {
            assert(block(list, a) == b.push(list.last()));
            assert(b.push(list.last()).drop_last() =~= b);
        }
    }
}

proof fn lemma_block_of_layout(list: Seq<Seq<char>>, kinds: Seq<Kind>, k: Kind)
    requires
        kinds.no_duplicates(),
    ensures
        block(laid_out(list, kinds), k) == (if kinds.contains(k) {
            block(list, k)
        } else {
            Seq::empty()
        }),
    decreases kinds.len(),
{
    reveal(Seq::filter);
    if kinds.len() > 0 {
        let d = kinds.drop_last();
        let last = kinds.last();
        lemma_block_of_layout(list, d, k);
        lemma_block_of_block(list, last, k);
        Seq::filter_distributes_over_add(laid_out(list, d), block(list, last), of_kind(k));
        if last == k {
            if d.contains(k) {
                let x = choose|x: int| 0 <= x < d.len() && d[x] == k;
                assert(kinds[x] == k && kinds[kinds.len() - 1] == k);
            }
            assert(kinds[kinds.len() - 1] == k);
            assert(kinds.contains(k));
            assert(Seq::<Seq<char>>::empty() + block(list, k) =~= block(list, k));
        } else {
            if kinds.contains(k) {
                let x = choose|x: int| 0 <= x < kinds.len() && kinds[x] == k;
                assert(d[x] == k);
            }
            if d.contains(k) {
                let x = choose|x: int| 0 <= x < d.len() && d[x] == k;
                assert(kinds[x] == k);
            }
            assert(block(laid_out(list, d), k) + Seq::<Seq<char>>::empty() =~= block(
                laid_out(list, d),
                k,
            ));
        }
    } else {
        assert(block(laid_out(list, kinds), k) =~= Seq::<Seq<char>>::empty());
    }
}

proof fn lemma_order_of_sum(a: Seq<Seq<char>>, b: Seq<Seq<char>>, k: Kind)
    requires
        forall|i: int| 0 <= i < b.len() ==> kind_of(#[trigger] b[i]) == Some(k),
        !module_order(a).contains(k),
    ensures
        module_order(a + b) == (if b.len() == 0 {
            module_order(a)
        } else {
            module_order(a).push(k)
        }),
    decreases b.len(),
{
    if b.len() == 0 {
        assert(a + b =~= a);
    } else {
        let d = b.drop_last();
        assert forall|i: int| 0 <= i < d.len() implies kind_of(#[trigger] d[i]) == Some(k) by {
            assert(d[i] == b[i]);
        }
        lemma_order_of_sum(a, d, k);
        assert((a + b).drop_last() =~= a + d);
        assert((a + b).last() == b[b.len() - 1]);
        assert(kind_of(b[b.len() - 1]) == Some(k));
        if d.len() > 0 {
            assert(module_order(a).push(k)[module_order(a).len() as int] == k);
        }
    }
}

proof fn lemma_order_of_layout(list: Seq<Seq<char>>, kinds: Seq<Kind>)
    requires
        kinds.no_duplicates(),
        forall|i: int| 0 <= i < kinds.len() ==> block(list, #[trigger] kinds[i]).len() > 0,
    ensures
        module_order(laid_out(list, kinds)) == kinds,
    decreases kinds.len(),
{
    if kinds.len() == 0 {
        assert(module_order(laid_out(list, kinds)) =~= kinds);
    } else {
        let d = kinds.drop_last();
        let k = kinds.last();
        assert forall|i: int| 0 <= i < d.len() implies block(list, #[trigger] d[i]).len() > 0 by {
            assert(d[i] == kinds[i]);
        }
        lemma_order_of_layout(list, d);
        let b = block(list, k);
        assert forall|i: int| 0 <= i < b.len() implies kind_of(#[trigger] b[i]) == Some(k) by {
            list.lemma_filter_pred(of_kind(k), i);
        }
        if d.contains(k) {
            let x = choose|x: int| 0 <= x < d.len() && d[x] == k;
            assert(kinds[x] == k && kinds[kinds.len() - 1] == k);
        }
        lemma_order_of_sum(laid_out(list, d), b, k);
        assert(kinds[kinds.len() - 1] == k);
        assert(d.push(k) =~= kinds);
    }
}

proof fn lemma_layout_of_layout(list: Seq<Seq<char>>, first: Seq<Kind>, kinds: Seq<Kind>)
    requires
        first.no_duplicates(),
        forall|i: int| 0 <= i < kinds.len() ==> first.contains(#[trigger] kinds[i]),
    ensures
        laid_out(laid_out(list, first), kinds) == laid_out(list, kinds),
    decreases kinds.len(),
{
    if kinds.len() > 0 {
        let d = kinds.drop_last();
        assert forall|i: int| 0 <= i < d.len() implies first.contains(#[trigger] d[i]) by {
            assert(d[i] == kinds[i]);
        }
        lemma_layout_of_layout(list, first, d);
        assert(first.contains(kinds[kinds.len() - 1]));
        lemma_block_of_layout(list, first, kinds.last());
    }
}

proof fn lemma_swap_kinds(list: Seq<Seq<char>>, a: int, b: int)
    requires
        0 <= a < module_order(list).len(),
        0 <= b < module_order(list).len(),
    ensures
        swapped(module_order(list), a, b).no_duplicates(),
        forall|i: int|
            0 <= i < module_order(list).len() ==> block(
                list,
                #[trigger] swapped(module_order(list), a, b)[i],
            ).len() > 0,
        forall|k: Kind|
            #[trigger] swapped(module_order(list), a, b).contains(k) <==> module_order(
                list,
            ).contains(k),
{
    let o = module_order(list);
    let s = swapped(o, a, b);
    lemma_order_distinct(list);
    assert forall|i: int| 0 <= i < o.len() implies block(list, #[trigger] s[i]).len() > 0 by {
        let k = s[i];
        let j = if i == b { a } else if i == a { b } else { i };
        assert(o[j] == k);
        assert(o.contains(k));
        let w = choose|w: int| 0 <= w < list.len() && kind_of(#[trigger] list[w]) == Some(k);
        list.lemma_filter_contains(of_kind(k), w);
        assert(block(list, k).contains(list[w]));
    }
    assert forall|k: Kind| #[trigger] s.contains(k) <==> o.contains(k) by {
        if s.contains(k) {
            let i = choose|i: int| 0 <= i < s.len() && s[i] == k;
            let j = if i == b { a } else if i == a { b } else { i };
            assert(o[j] == k);
        }
        if o.contains(k) {
            let j = choose|j: int| 0 <= j < o.len() && o[j] == k;
            let i = if j == a { b } else if j == b { a } else { j };
            assert(s[i] == k);
        }
    }
}

/// Moving a module and moving it back gives the list with its modules
/// gathered, and so the list itself where they stood together.
pub proof fn law_move_back(list: Seq<Seq<char>>, k: Kind, dir: int)
    requires
        can_move(list, k, dir),
    ensures
        can_move(moved(list, k, dir), k, -dir),
        moved(moved(list, k, dir), k, -dir) == laid_out(list, module_order(list)),
{
    let o = module_order(list);
    lemma_order_distinct(list);
    let p = o.index_of(k);
    let x = choose|x: int| 0 <= x < o.len() && o[x] == k;
    assert(o[x] == k);
    assert(o[p] == k);
    let q = p + dir;
    let s = swapped(o, p, q);
    let l2 = laid_out(list, s);
    lemma_swap_kinds(list, p, q);
    lemma_order_of_layout(list, s);
    assert(s[q] == k);
    assert(s.contains(k));
    assert(s.index_of(k) == q);
    assert(swapped(s, q, p) =~= o);
    assert forall|i: int| 0 <= i < o.len() implies s.contains(#[trigger] o[i]) by {
        assert(o.contains(o[i]));
    }
    lemma_layout_of_layout(list, s, o);
}

/// All names are known, and the widgets of every module stand together.
pub open spec fn tidy(list: Seq<Seq<char>>) -> bool {
    &&& together(list)
    &&& forall|i: int| 0 <= i < list.len() ==> known(#[trigger] list[i])
}

proof fn lemma_together_prefix(list: Seq<Seq<char>>)
    requires
        tidy(list),
        list.len() > 0,
    ensures
        tidy(list.drop_last()),
{
    let d = list.drop_last();
    assert forall|i: int| 0 <= i < d.len() implies known(#[trigger] d[i]) by {
        assert(d[i] == list[i]);
    }
    assert forall|i: int, j: int, m: int|
        0 <= i < j < m < d.len() && kind_of(#[trigger] d[i]).is_some() && kind_of(d[i]) == kind_of(
            #[trigger] d[m],
        ) && kind_of(#[trigger] d[j]).is_some() implies kind_of(d[j]) == kind_of(d[i]) by {
        assert(list[i] == d[i] && list[j] == d[j] && list[m] == d[m]);
    }
}

proof fn lemma_layout_push(list: Seq<Seq<char>>, n: Seq<char>, kinds: Seq<Kind>)
    requires
        forall|i: int| 0 <= i < kinds.len() ==> kind_of(n) != Some(#[trigger] kinds[i]),
    ensures
        laid_out(list.push(n), kinds) == laid_out(list, kinds),
    decreases kinds.len(),
{
    if kinds.len() > 0 {
        let d = kinds.drop_last();
        assert forall|i: int| 0 <= i < d.len() implies kind_of(n) != Some(#[trigger] d[i]) by {
            assert(d[i] == kinds[i]);
        }
        lemma_layout_push(list, n, d);
        reveal(Seq::filter);
        assert(kind_of(n) != Some(kinds[kinds.len() - 1]));
        assert(list.push(n).drop_last() =~= list);
    }
}

proof fn lemma_block_push(list: Seq<Seq<char>>, n: Seq<char>, k: Kind)
    ensures
        block(list.push(n), k) == (if kind_of(n) == Some(k) {
            block(list, k).push(n)
        } else {
            block(list, k)
        }),
{
    reveal(Seq::filter);
    assert(list.push(n).drop_last() =~= list);
}

proof fn lemma_layout_step(d: Seq<Seq<char>>, n: Seq<char>, o: Seq<Kind>, k: Kind)
    requires
        o.no_duplicates(),
        kind_of(n) == Some(k),
        o.len() > 0 && o.last() == k,
    ensures
        laid_out(d.push(n), o) == laid_out(d, o).push(n),
{
    let od = o.drop_last();
    assert forall|i: int| 0 <= i < od.len() implies kind_of(n) != Some(#[trigger] od[i]) by {
        assert(od[i] == o[i]);
        assert(o[o.len() - 1] == k);
    }
    lemma_layout_push(d, n, od);
    lemma_block_push(d, n, k);
    assert(laid_out(d.push(n), o) =~= laid_out(d, o).push(n));
}

proof fn lemma_layout_first(d: Seq<Seq<char>>, n: Seq<char>, o: Seq<Kind>, k: Kind)
    requires
        kind_of(n) == Some(k),
        !o.contains(k),
        block(d, k).len() == 0,
    ensures
        laid_out(d.push(n), o.push(k)) == laid_out(d, o).push(n),
{
    assert forall|i: int| 0 <= i < o.len() implies kind_of(n) != Some(#[trigger] o[i]) by {
        assert(o.contains(o[i]));
    }
    lemma_layout_push(d, n, o);
    lemma_block_push(d, n, k);
    assert(block(d.push(n), k) =~= seq![n]);
    assert(o.push(k).drop_last() =~= o);
    assert(laid_out(d, o) + seq![n] =~= laid_out(d, o).push(n));
}

proof fn lemma_block_empty(d: Seq<Seq<char>>, k: Kind)
    requires
        !module_order(d).contains(k),
    ensures
        block(d, k).len() == 0,
{
    lemma_order_distinct(d);
    if block(d, k).len() > 0 {
        d.lemma_filter_pred(of_kind(k), 0);
        lemma_filter_from(d, of_kind(k), 0);
        let w = choose|w: int| 0 <= w < d.len() && #[trigger] d[w] == block(d, k)[0];
        assert(kind_of(d[w]) == Some(k));
    }
}

/// A list of known names whose modules stand together is already laid out
/// module by module.
pub proof fn law_tidy_list_is_laid_out(list: Seq<Seq<char>>)
    requires
        tidy(list),
    ensures
        laid_out(list, module_order(list)) == list,
    decreases list.len(),
{
    if list.len() == 0 {
        assert(laid_out(list, module_order(list)) =~= list);
    } else {
        let d = list.drop_last();
        let n = list.last();
        assert(list[list.len() - 1] == n);
        assert(known(n));
        let k = kind_of(n)->0;
        let o = module_order(d);
        lemma_last_kind_is_last(list);
        assert(d.push(n) =~= list);
        assert(laid_out(list, module_order(list)) == laid_out(d, o).push(n)) by {
            if o.contains(k) {
                lemma_order_distinct(d);
                lemma_layout_step(d, n, o, k);
            } else {
                lemma_block_empty(d, k);
                lemma_layout_first(d, n, o, k);
            }
        }
        lemma_together_prefix(list);
        law_tidy_list_is_laid_out(d);
    }
}

proof fn lemma_filter_from(s: Seq<Seq<char>>, pred: spec_fn(Seq<char>) -> bool, i: int)
    requires
        0 <= i < s.filter(pred).len(),
    ensures
        exists|w: int| 0 <= w < s.len() && #[trigger] s[w] == s.filter(pred)[i],
    decreases s.len(),
{
    reveal(Seq::filter);
    let d = s.drop_last();
    if i < d.filter(pred).len() {
        lemma_filter_from(d, pred, i);
        let w = choose|w: int| 0 <= w < d.len() && #[trigger] d[w] == d.filter(pred)[i];
        assert(s[w] == d[w]);
    } else {
        assert(s[s.len() - 1] == s.filter(pred)[i]);
    }
}

proof fn lemma_last_kind_is_last(list: Seq<Seq<char>>)
    requires
        tidy(list),
        list.len() > 0,
    ensures
        module_order(list).len() > 0,
        kind_of(list.last()) == Some(module_order(list).last()),
    decreases list.len(),
{
    let d = list.drop_last();
    let n = list.last();
    assert(list[list.len() - 1] == n);
    assert(known(n));
    let k = kind_of(n)->0;
    lemma_order_distinct(d);
    if module_order(d).contains(k) {
        let w = choose|w: int| 0 <= w < d.len() && kind_of(#[trigger] d[w]) == Some(k);
        assert(list[w] == d[w]);
        lemma_together_prefix(list);
        lemma_last_kind_is_last(d);
        if w < d.len() - 1 {
            assert(kind_of(list[w]) == kind_of(list[list.len() - 1]));
            assert(known(list[d.len() - 1]));
            assert(kind_of(list[d.len() - 1]) == kind_of(list[w]));
        }
        assert(list[d.len() - 1] == d[d.len() - 1]);
    }
}

proof fn lemma_layout_of_new(list: Seq<Seq<char>>, n: Seq<char>, kinds: Seq<Kind>)
    requires
        kinds.no_duplicates(),
        kind_of(n).is_some(),
        kinds.contains(kind_of(n)->0),
    ensures
        laid_out(list.push(n), kinds).to_multiset() == laid_out(list, kinds).to_multiset().insert(n),
    decreases kinds.len(),
{
    broadcast use vstd::seq_lib::group_to_multiset_ensures;

    let d = kinds.drop_last();
    let last = kinds.last();
    let k = kind_of(n)->0;
    reveal(Seq::filter);
    assert(list.push(n).drop_last() =~= list);
    let x = choose|x: int| 0 <= x < kinds.len() && kinds[x] == k;
    if last == k {
        assert forall|i: int| 0 <= i < d.len() implies kind_of(n) != Some(#[trigger] d[i]) by {
            assert(d[i] == kinds[i]);
            assert(kinds[kinds.len() - 1] == k);
        }
        lemma_layout_push(list, n, d);
        assert(block(list.push(n), k) == block(list, k).push(n));
        assert(laid_out(list.push(n), kinds) =~= laid_out(list, kinds).push(n));
    } else {
        assert(d[x] == k);
        lemma_layout_of_new(list, n, d);
        vstd::seq_lib::lemma_multiset_commutative(laid_out(list.push(n), d), block(list, last));
        vstd::seq_lib::lemma_multiset_commutative(laid_out(list, d), block(list, last));
        assert(laid_out(list.push(n), kinds).to_multiset() =~= laid_out(
            list,
            kinds,
        ).to_multiset().insert(n));
    }
}

proof fn lemma_layout_keeps(list: Seq<Seq<char>>, kinds: Seq<Kind>)
    requires
        kinds.no_duplicates(),
        forall|i: int|
            0 <= i < list.len() ==> kind_of(#[trigger] list[i]).is_some() && kinds.contains(
                kind_of(list[i])->0,
            ),
    ensures
        laid_out(list, kinds).to_multiset() == list.to_multiset(),
    decreases list.len(),
{
    broadcast use vstd::seq_lib::group_to_multiset_ensures;

    if list.len() == 0 {
        lemma_layout_empty(list, kinds);
        assert(laid_out(list, kinds) =~= list);
    } else {
        let d = list.drop_last();
        let n = list.last();
        assert forall|i: int| 0 <= i < d.len() implies kind_of(#[trigger] d[i]).is_some()
            && kinds.contains(kind_of(d[i])->0) by {
            assert(d[i] == list[i]);
        }
        lemma_layout_keeps(d, kinds);
        assert(list[list.len() - 1] == n);
        lemma_layout_of_new(d, n, kinds);
        assert(d.push(n) =~= list);
    }
}

proof fn lemma_layout_empty(list: Seq<Seq<char>>, kinds: Seq<Kind>)
    requires
        list.len() == 0,
    ensures
        laid_out(list, kinds).len() == 0,
    decreases kinds.len(),
{
    reveal(Seq::filter);
    if kinds.len() > 0 {
        lemma_layout_empty(list, kinds.drop_last());
    }
}

/// Moving a module in a list of known names keeps every widget, as often as it
/// was there.
pub proof fn law_move_keeps_widgets(list: Seq<Seq<char>>, k: Kind, dir: int)
    requires
        forall|i: int| 0 <= i < list.len() ==> known(#[trigger] list[i]),
    ensures
        moved(list, k, dir).to_multiset() == list.to_multiset(),
{
    let o = module_order(list);
    lemma_order_distinct(list);
    if can_move(list, k, dir) {
        let p = o.index_of(k);
        let x = choose|x: int| 0 <= x < o.len() && o[x] == k;
        assert(o[x] == k);
        lemma_swap_kinds(list, p, p + dir);
        let s = swapped(o, p, p + dir);
        assert forall|i: int| 0 <= i < list.len() implies kind_of(#[trigger] list[i]).is_some()
            && s.contains(kind_of(list[i])->0) by {
            assert(known(list[i]));
            assert(o.contains(kind_of(list[i])->0));
        }
        lemma_layout_keeps(list, s);
    }
}

proof fn lemma_index_first(name: Seq<char>, from: int, at: int)
    requires
        0 <= from <= at < catalog_list().len(),
        catalog_list()[at].1 == name,
        forall|j: int| from <= j < at ==> (#[trigger] catalog_list()[j]).1 != name,
    ensures
        index_from(name, from) == Some(at),
    decreases at - from,
{
    if from < at {
        lemma_index_first(name, from + 1, at);
    }
}

/// The module that a widget's name begins with.
pub open spec fn begins_with_module(name: Seq<char>, k: Kind) -> bool {
    let key = match k {
        Kind::Cpu => "cpu"@,
        Kind::Gpu => "gpu"@,
        Kind::Mem => "mem"@,
        Kind::Disk => "disk"@,
        Kind::Net => "net"@,
        Kind::Battery => "battery"@,
    };
    name.len() >= key.len() && name.take(key.len() as int) == key
}

/// Every name of the catalogue is found where it stands, and is of the module
/// that it begins with.
pub proof fn law_catalogue_names_are_distinct(i: int)
    requires
        0 <= i < catalog_list().len(),
    ensures
        index_of(catalog_list()[i].1) == Some(i),
        known(catalog_list()[i].1),
        kind_of(catalog_list()[i].1) == Some(catalog_list()[i].0),
        begins_with_module(catalog_list()[i].1, catalog_list()[i].0),
{
    reveal_strlit("cpu");
    reveal_strlit("gpu");
    reveal_strlit("mem");
    reveal_strlit("disk");
    reveal_strlit("net");
    reveal_strlit("battery");
    reveal_strlit("cpu_bars");
    reveal_strlit("cpu_line");
    reveal_strlit("cpu_mini");
    reveal_strlit("gpu_line");
    reveal_strlit("mem_line");
    reveal_strlit("mem_text");
    reveal_strlit("disk_chart");
    reveal_strlit("net_chart");
    let c = catalog_list();
    let n = c[i].1;
    assert("cpu_bars"@.len() == 8 && "cpu_bars"@[0] == 'c' && "cpu_bars"@[4] == 'b');
    assert("cpu_line"@.len() == 8 && "cpu_line"@[0] == 'c' && "cpu_line"@[4] == 'l');
    assert("cpu_mini"@.len() == 8 && "cpu_mini"@[0] == 'c' && "cpu_mini"@[4] == 'm');
    assert("gpu"@.len() == 3 && "gpu"@[0] == 'g');
    assert("gpu_line"@.len() == 8 && "gpu_line"@[0] == 'g');
    assert("mem"@.len() == 3 && "mem"@[0] == 'm');
    assert("mem_line"@.len() == 8 && "mem_line"@[0] == 'm' && "mem_line"@[4] == 'l');
    assert("mem_text"@.len() == 8 && "mem_text"@[0] == 'm' && "mem_text"@[4] == 't');
    assert("disk"@.len() == 4);
    assert("disk_chart"@.len() == 10);
    assert("net"@.len() == 3 && "net"@[0] == 'n');
    assert("net_chart"@.len() == 9);
    assert("battery"@.len() == 7);
    assert forall|j: int| 0 <= j < i implies (#[trigger] c[j]).1 != n by {
        assert(c[j].1.len() != n.len() || c[j].1[0] != n[0] || c[j].1[4] != n[4]);
    }
    lemma_index_first(n, 0, i);
    assert("cpu_bars"@.take(3) =~= "cpu"@ && "cpu_line"@.take(3) =~= "cpu"@ && "cpu_mini"@.take(3)
        =~= "cpu"@);
    assert("gpu"@.take(3) =~= "gpu"@ && "gpu_line"@.take(3) =~= "gpu"@);
    assert("mem"@.take(3) =~= "mem"@ && "mem_line"@.take(3) =~= "mem"@ && "mem_text"@.take(3)
        =~= "mem"@);
    assert("disk"@.take(4) =~= "disk"@ && "disk_chart"@.take(4) =~= "disk"@);
    assert("net"@.take(3) =~= "net"@ && "net_chart"@.take(3) =~= "net"@);
    assert("battery"@.take(7) =~= "battery"@);
}

proof fn lemma_remove_one(list: Seq<Seq<char>>, at: int, other: Seq<char>)
    requires
        list.no_duplicates(),
        0 <= at < list.len(),
    ensures
        list.remove(at).contains(other) == (list.contains(other) && other != list[at]),
        list.remove(at).no_duplicates(),
{
    let r = list.remove(at);
    if r.contains(other) {
        let j = choose|j: int| 0 <= j < r.len() && r[j] == other;
        let b = if j < at { j } else { j + 1 };
        assert(list[b] == other);
    }
    if list.contains(other) && other != list[at] {
        let j = choose|j: int| 0 <= j < list.len() && list[j] == other;
        let b = if j < at { j } else { j - 1 };
        assert(r[b] == other);
    }
    assert forall|i: int, j: int| 0 <= i < r.len() && 0 <= j < r.len() && i != j implies r[i]
        != r[j] by {
        let a = if i < at { i } else { i + 1 };
        let b = if j < at { j } else { j + 1 };
        assert(list[a] == r[i] && list[b] == r[j]);
    }
}

proof fn lemma_insert_one(list: Seq<Seq<char>>, at: int, name: Seq<char>, other: Seq<char>)
    requires
        list.no_duplicates(),
        !list.contains(name),
        0 <= at <= list.len(),
    ensures
        list.insert(at, name).contains(other) == (list.contains(other) || other == name),
        list.insert(at, name).no_duplicates(),
{
    let r = list.insert(at, name);
    assert(r[at] == name);
    if r.contains(other) && other != name {
        let j = choose|j: int| 0 <= j < r.len() && r[j] == other;
        let b = if j < at { j } else { j - 1 };
        assert(list[b] == other);
    }
    if list.contains(other) {
        let j = choose|j: int| 0 <= j < list.len() && list[j] == other;
        let b = if j < at { j } else { j + 1 };
        assert(r[b] == other);
    }
    assert forall|i: int, j: int| 0 <= i < r.len() && 0 <= j < r.len() && i != j implies r[i]
        != r[j] by {
        let a = if i < at { i } else { i - 1 };
        let b = if j < at { j } else { j - 1 };
        if i == at {
            assert(list[b] == r[j]);
            assert(list.contains(list[b]));
        } else if j == at {
            assert(list[a] == r[i]);
            assert(list.contains(list[a]));
        } else {
            assert(list[a] == r[i] && list[b] == r[j]);
        }
    }
}

/// Switching a widget of the catalogue puts it in the list or takes it out, and
/// leaves every other.
pub proof fn law_toggle_switches_that_widget(list: Seq<Seq<char>>, name: Seq<char>, other: Seq<char>)
    requires
        list.no_duplicates(),
    ensures
        known(name) ==> toggled(list, name).contains(name) == !list.contains(name),
        other != name ==> toggled(list, name).contains(other) == list.contains(other),
        toggled(list, name).no_duplicates(),
{
    if list.contains(name) {
        lemma_place_from(list, name, 0);
        let at = place_from(list, name, 0);
        let w = choose|w: int| 0 <= w < list.len() && list[w] == name;
        if at == list.len() {
            assert(list[w] != name);
        }
        lemma_remove_one(list, at, name);
        lemma_remove_one(list, at, other);
    } else if known(name) {
        let at = new_place(list, name);
        lemma_end_of_kind(list, kind_of(name)->0);
        lemma_place_behind(list, index_of(name)->0, 0);
        lemma_insert_one(list, at, name, name);
        lemma_insert_one(list, at, name, other);
    }
}

/// A widget that is switched on stands beside the widgets of its module, behind
/// the last of them.
pub proof fn law_new_widget_joins_its_module(list: Seq<Seq<char>>, name: Seq<char>, i: int)
    requires
        !list.contains(name),
        known(name),
        0 <= i < list.len(),
        kind_of(list[i]) == kind_of(name),
        forall|j: int| i < j < list.len() ==> kind_of(#[trigger] list[j]) != kind_of(name),
    ensures
        toggled(list, name) == list.insert(i + 1, name),
{
    let k = kind_of(name)->0;
    lemma_end_of_kind(list, k);
    let e = end_of_kind(list, k);
    if e <= i {
        assert(kind_of(list[i]) != Some(k));
    }
    if e > i + 1 {
        assert(kind_of(list[e - 1]) == Some(k));
    }
}

/// Moving a module by `dir` takes it that many modules on; the one that stood
/// there takes its place, all others stay, and within each module the widgets
/// keep their order.
pub proof fn law_move_goes_that_way(list: Seq<Seq<char>>, p: int, dir: int, i: int, other: Kind)
    requires
        0 <= p < module_order(list).len(),
        0 <= p + dir < module_order(list).len(),
        0 <= i < module_order(list).len(),
    ensures
        ({
            let o = module_order(list);
            let r = moved(list, o[p], dir);
            &&& module_order(r).len() == o.len()
            &&& module_order(r)[p + dir] == o[p]
            &&& module_order(r)[p] == o[p + dir]
            &&& i != p && i != p + dir ==> module_order(r)[i] == o[i]
            &&& r.filter(of_kind(other)) == list.filter(of_kind(other))
        }),
{
    let o = module_order(list);
    lemma_order_distinct(list);
    let k = o[p];
    assert(o.contains(k));
    assert(o.index_of(k) == p) by {
        assert(o[o.index_of(k)] == k);
    }
    lemma_swap_kinds(list, p, p + dir);
    let s = swapped(o, p, p + dir);
    lemma_order_of_layout(list, s);
    lemma_block_of_layout(list, s, other);
    if !s.contains(other) {
        lemma_block_empty(list, other);
        assert(block(list, other) =~= Seq::<Seq<char>>::empty());
    }
}

/// The order of the modules is that of their first widgets.
pub proof fn law_modules_stand_where_they_begin(list: Seq<Seq<char>>, i: int, j: int)
    requires
        0 <= i < j < list.len(),
        known(list[i]) && known(list[j]),
        kind_of(list[i]) != kind_of(list[j]),
        forall|m: int| 0 <= m < j ==> kind_of(#[trigger] list[m]) != kind_of(list[j]),
    ensures
        ({
            let o = module_order(list);
            let (a, b) = (kind_of(list[i])->0, kind_of(list[j])->0);
            o.contains(a) && o.contains(b) && o.index_of(a) < o.index_of(b)
        }),
    decreases list.len(),
{
    let o = module_order(list);
    let d = list.drop_last();
    let od = module_order(d);
    let a = kind_of(list[i])->0;
    let b = kind_of(list[j])->0;
    lemma_order_distinct(list);
    lemma_order_distinct(d);
    assert(kind_of(list[i]) == Some(a) && kind_of(list[j]) == Some(b));
    assert(o.contains(a) && o.contains(b));
    assert(d[i] == list[i]);
    assert(od.contains(a));
    let x = od.index_of(a);
    assert(od[x] == a && o[x] == a);
    assert(o[o.index_of(a)] == a && o[o.index_of(b)] == b);
    assert(o.index_of(a) == x);
    if j < list.len() - 1 {
        assert(d[j] == list[j]);
        assert forall|m: int| 0 <= m < j implies kind_of(#[trigger] d[m]) != kind_of(d[j]) by {
            assert(d[m] == list[m]);
        }
        law_modules_stand_where_they_begin(d, i, j);
        let y = od.index_of(b);
        assert(od[y] == b && o[y] == b);
        assert(o.index_of(b) == y);
    } else {
        if od.contains(b) {
            let w = choose|w: int| 0 <= w < d.len() && kind_of(#[trigger] d[w]) == Some(b);
            assert(list[w] == d[w]);
        }
        assert(o == od.push(b));
        assert(o[od.len() as int] == b);
        assert(o.index_of(b) == od.len());
    }
}

} // verus!
