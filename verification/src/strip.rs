//! The strip on the taskbar: how it looks, where its widgets stand, and what
//! the mouse does to them.

use crate::canvas::{self, Color};
use crate::config::Config;
use crate::menu;
use crate::number::Single;
use crate::order;
use crate::text;
use crate::widgets::theme::{self, ColorMode};
use crate::widgets::{self, Kind};
use vstd::prelude::*;

verus! {

// ---------------------------------------------------------------------------
// How it looks

/// Whether the strip floats over the taskbar rather than being embedded in it:
/// as configured, else on Windows 7.
pub fn is_floating(mode: &str, windows7: bool) -> (r: bool)
    ensures
        r == (mode@ == "floating"@ || (mode@ != "embedded"@ && windows7)),
{
    proof {
        reveal_strlit("floating");
        reveal_strlit("embedded");
        assert("floating"@[0] != "embedded"@[0]);
    }
    if text::same(mode, "floating") {
        true
    } else if text::same(mode, "embedded") {
        false
    } else {
        windows7
    }
}

/// Whether the taskbar is light: as configured, else as the system says.
pub fn is_light(setting: &str, system: bool) -> (r: bool)
    ensures
        r == (setting@ == "light"@ || (setting@ != "dark"@ && system)),
{
    proof {
        reveal_strlit("light");
        reveal_strlit("dark");
        assert("light"@[0] != "dark"@[0]);
    }
    if text::same(setting, "light") {
        true
    } else if text::same(setting, "dark") {
        false
    } else {
        system
    }
}

/// The colours of text and of dim text.
pub open spec fn ink(light: bool) -> (Color, Color) {
    if light {
        (Color { r: 0x1b, g: 0x1b, b: 0x1b, a: 255 }, Color { r: 0x1b, g: 0x1b, b: 0x1b, a: 160 })
    } else {
        (canvas::white(), Color { r: 255, g: 255, b: 255, a: 150 })
    }
}

pub fn text_colors(light: bool) -> (r: (Color, Color))
    ensures
        r == ink(light),
{
    if light {
        (Color { r: 0x1b, g: 0x1b, b: 0x1b, a: 255 }, Color { r: 0x1b, g: 0x1b, b: 0x1b, a: 160 })
    } else {
        (canvas::white(), Color { r: 255, g: 255, b: 255, a: 150 })
    }
}

/// The colour mode of a module: as configured; the processor's may be set by
/// the older switch.
pub open spec fn module_mode(cfg: Config, k: Kind, system: Option<Color>) -> ColorMode {
    if cfg.colors@.dom().contains(menu::key_of(k)) {
        theme::mode_of(cfg.colors@[menu::key_of(k)]@, system)
    } else if cfg.utilization_colors && k == Kind::Cpu {
        ColorMode::Utilization
    } else {
        ColorMode::Accent
    }
}

fn mode_for(cfg: &Config, k: Kind, system: Option<Color>) -> (r: ColorMode)
    requires
        cfg.colors.wf(),
    ensures
        r == module_mode(*cfg, k, system),
{
    match cfg.colors.get(menu::module_key(k)) {
        Some(v) => ColorMode::parse(v.as_str(), system),
        None => if cfg.utilization_colors && k == Kind::Cpu {
            ColorMode::Utilization
        } else {
            ColorMode::Accent
        },
    }
}

/// The colour modes of the modules, in their order.
pub fn color_modes(cfg: &Config, system: Option<Color>) -> (r: [ColorMode; 6])
    requires
        cfg.colors.wf(),
    ensures
        forall|i: int|
            0 <= i < 6 ==> #[trigger] r@[i] == module_mode(
                *cfg,
                widgets::module_list()[i],
                system,
            ),
{
    let r: [ColorMode; 6] = [
        mode_for(cfg, Kind::Cpu, system),
        mode_for(cfg, Kind::Gpu, system),
        mode_for(cfg, Kind::Mem, system),
        mode_for(cfg, Kind::Disk, system),
        mode_for(cfg, Kind::Net, system),
        mode_for(cfg, Kind::Battery, system),
    ];
    assert forall|i: int| 0 <= i < 6 implies #[trigger] r@[i] == module_mode(
        *cfg,
        widgets::module_list()[i],
        system,
    ) by {
        assert(i == 0 || i == 1 || i == 2 || i == 3 || i == 4 || i == 5);
    }
    r
}

/// Bits of one half.
pub const ONE_HALF: u32 = 0x3f00_0000;

/// The multiplier for text: as configured, if it is more than one half.
pub fn font_factor(s: Single) -> (r: Single)
    ensures
        r == (if (Single { bits: ONE_HALF }).lt(s) {
            s
        } else {
            Single::one()
        }),
{
    let half: Single = Single { bits: ONE_HALF };
    if half.less(s) {
        s
    } else {
        Single::one()
    }
}

/// The width of charts, from 20 to 200.
pub fn chart_width(w: u32) -> (r: u32)
    ensures
        r == (if w < 20 {
            20
        } else if w > 200 {
            200
        } else {
            w as int
        }),
{
    if w < 20 {
        20
    } else if w > 200 {
        200
    } else {
        w
    }
}

/// The refresh interval: at least a quarter of a second.
pub fn refresh_ms(ms: u32) -> (r: u32)
    ensures
        r == (if ms < 250 {
            250
        } else {
            ms as int
        }),
{
    if ms < 250 {
        250
    } else {
        ms
    }
}

/// The machine can feed the widget.
pub open spec fn is_fed(gpu: bool, battery: bool) -> spec_fn(Seq<char>) -> bool {
    |n: Seq<char>|
        (gpu || widgets::kind_of(n) != Some(Kind::Gpu)) && (battery || widgets::kind_of(n) != Some(
            Kind::Battery,
        ))
}

/// A first start leaves out the widgets that the machine cannot feed; whether
/// there were any.
pub fn drop_unfed(list: &mut Vec<String>, gpu: bool, battery: bool) -> (r: bool)
    ensures
        text::views(final(list)@) == text::views(old(list)@).filter(is_fed(gpu, battery)),
        r == (final(list)@.len() != old(list)@.len()),
{
    let ghost v = text::views(list@);
    let before: usize = list.len();
    let mut out: Vec<String> = Vec::new();
    let mut i: usize = 0;
    proof {
        reveal(Seq::filter);
        assert(v.take(0) =~= Seq::<Seq<char>>::empty());
        assert(text::views(out@) =~= v.take(0).filter(is_fed(gpu, battery)));
    }
    while i < list.len()
        invariant
            v == text::views(list@),
            list@ == old(list)@,
            before == list.len(),
            i <= list.len(),
            text::views(out@) == v.take(i as int).filter(is_fed(gpu, battery)),
        decreases list.len() - i,
    {
        proof {
            order::lemma_filter_step(v, is_fed(gpu, battery), i as int);
            assert(v[i as int] == list@[i as int]@);
        }
        let k: Option<Kind> = widgets::module_of(list[i].as_str());
        let keep: bool = match k {
            Some(Kind::Gpu) => gpu,
            Some(Kind::Battery) => battery,
            _ => true,
        };
        if keep {
            let ghost o = out@;
            out.push(list[i].clone());
            assert(text::views(out@) =~= text::views(o).push(v[i as int]));
        }
        i += 1;
    }
    assert(v.take(v.len() as int) =~= v);
    let changed: bool = out.len() != before;
    *list = out;
    changed
}

// ---------------------------------------------------------------------------
// Where the widgets stand

/// A visible widget: where it is drawn, and the part of the strip that belongs
/// to it, which reaches into the gaps beside it.
#[derive(Clone, Copy, Debug, PartialEq, Eq, Structural)]
pub struct Slot {
    /// Its index in the list of widgets.
    pub widget: usize,
    pub kind: Kind,
    pub x: i32,
    pub x0: i32,
    pub x1: i32,
}

/// Where the next widget is drawn after the first `n`; one without a width is
/// not visible.
pub open spec fn pen(widths: Seq<i32>, n: int, edge: int, gap: int) -> int
    decreases n,
{
    if n <= 0 {
        edge
    } else if widths[n - 1] > 0 {
        pen(widths, n - 1, edge, gap) + widths[n - 1] + gap
    } else {
        pen(widths, n - 1, edge, gap)
    }
}

/// The visible widgets among the first `n`.
pub open spec fn slots(
    widths: Seq<i32>,
    kinds: Seq<Kind>,
    n: int,
    edge: int,
    gap: int,
) -> Seq<(int, Kind, int, int, int)>
    decreases n,
{
    if n <= 0 {
        Seq::empty()
    } else {
        let s = slots(widths, kinds, n - 1, edge, gap);
        let x = pen(widths, n - 1, edge, gap);
        if widths[n - 1] > 0 {
            s.push((n - 1, kinds[n - 1], x, x - gap / 2, x + widths[n - 1] + gap / 2))
        } else {
            s
        }
    }
}

pub open spec fn slot_view(s: Slot) -> (int, Kind, int, int, int) {
    (s.widget as int, s.kind, s.x as int, s.x0 as int, s.x1 as int)
}

/// The width of the strip: the widgets with a gap between each two, and an
/// edge on both sides.
pub open spec fn strip_width(widths: Seq<i32>, edge: int, gap: int) -> int {
    let p = pen(widths, widths.len() as int, edge, gap);
    if p == edge {
        edge * 2
    } else {
        p - gap + edge
    }
}

proof fn lemma_pen_grows(widths: Seq<i32>, i: int, j: int, edge: int, gap: int)
    requires
        0 <= i <= j <= widths.len(),
        gap >= 0,
    ensures
        edge <= pen(widths, i, edge, gap) <= pen(widths, j, edge, gap),
    decreases j,
{
    if i < j {
        lemma_pen_grows(widths, i, j - 1, edge, gap);
    } else if i > 0 {
        lemma_pen_grows(widths, i - 1, i - 1, edge, gap);
    }
}

/// Lays the widgets out from the left; the visible ones and the width of the
/// strip.
pub fn lay_out(widths: &Vec<i32>, kinds: &Vec<Kind>, edge: i32, gap: i32) -> (r: (Vec<Slot>, i32))
    requires
        widths.len() == kinds.len(),
        0 <= gap,
        0 <= edge <= i32::MAX / 2,
        pen(widths@, widths@.len() as int, edge as int, gap as int) + edge <= i32::MAX,
    ensures
        r.0@.map_values(|s: Slot| slot_view(s)) == slots(
            widths@,
            kinds@,
            widths@.len() as int,
            edge as int,
            gap as int,
        ),
        r.1 == strip_width(widths@, edge as int, gap as int),
{
    let mut out: Vec<Slot> = Vec::new();
    let mut x: i32 = edge;
    let mut i: usize = 0;
    let mut any: bool = false;
    assert(out@.map_values(|s: Slot| slot_view(s)) =~= slots(
        widths@,
        kinds@,
        0,
        edge as int,
        gap as int,
    ));
    while i < widths.len()
        invariant
            widths.len() == kinds.len(),
            0 <= gap,
            0 <= edge,
            pen(widths@, widths@.len() as int, edge as int, gap as int) + edge <= i32::MAX,
            i <= widths.len(),
            x == pen(widths@, i as int, edge as int, gap as int),
            any == (x != edge),
            x >= edge,
            out@.map_values(|s: Slot| slot_view(s)) == slots(
                widths@,
                kinds@,
                i as int,
                edge as int,
                gap as int,
            ),
        decreases widths.len() - i,
    {
        let w: i32 = widths[i];
        if w > 0 {
            proof {
                lemma_pen_grows(
                    widths@,
                    i as int + 1,
                    widths@.len() as int,
                    edge as int,
                    gap as int,
                );
            }
            let half: i32 = gap / 2;
            let s: Slot = Slot { widget: i, kind: kinds[i], x, x0: x - half, x1: x + w + half };
            let ghost o = out@;
            out.push(s);
            assert(out@.map_values(|s: Slot| slot_view(s)) =~= o.map_values(
                |s: Slot| slot_view(s),
            ).push(slot_view(s)));
            x = x + w + gap;
            any = true;
        }
        i += 1;
    }
    let total: i32 = if any {
        x - gap + edge
    } else {
        edge * 2
    };
    (out, total)
}

/// The visible widgets stand from left to right without overlapping: where one
/// ends, a gap later the next begins.
pub proof fn law_slots_do_not_overlap(
    widths: Seq<i32>,
    kinds: Seq<Kind>,
    n: int,
    edge: int,
    gap: int,
    i: int,
)
    requires
        0 <= n <= widths.len(),
        gap >= 0,
        0 <= i,
        i + 1 < slots(widths, kinds, n, edge, gap).len(),
    ensures
        ({
            let s = slots(widths, kinds, n, edge, gap);
            &&& s[i].0 < s[i + 1].0
            &&& s[i].4 <= s[i + 1].3
            &&& s[i].2 + widths[s[i].0] + gap == s[i + 1].2
        }),
    decreases n,
{
    if n > 0 {
        let p = slots(widths, kinds, n - 1, edge, gap);
        if i + 1 < p.len() {
            law_slots_do_not_overlap(widths, kinds, n - 1, edge, gap, i);
        } else {
            lemma_last_slot(widths, kinds, n - 1, edge, gap);
        }
    }
}

proof fn lemma_last_slot(widths: Seq<i32>, kinds: Seq<Kind>, n: int, edge: int, gap: int)
    requires
        0 <= n <= widths.len(),
    ensures
        ({
            let s = slots(widths, kinds, n, edge, gap);
            if s.len() == 0 {
                pen(widths, n, edge, gap) == edge
            } else {
                &&& 0 <= s.last().0 < n
                &&& s.last().2 + widths[s.last().0] + gap == pen(widths, n, edge, gap)
                &&& s.last().4 == s.last().2 + widths[s.last().0] + gap / 2
            }
        }),
    decreases n,
{
    if n > 0 {
        lemma_last_slot(widths, kinds, n - 1, edge, gap);
    }
}

/// The strip ends an edge behind its last widget.
pub proof fn law_strip_ends_with_the_edge(widths: Seq<i32>, kinds: Seq<Kind>, edge: int, gap: int)
    requires
        slots(widths, kinds, widths.len() as int, edge, gap).len() > 0,
        gap >= 0,
    ensures
        ({
            let s = slots(widths, kinds, widths.len() as int, edge, gap).last();
            strip_width(widths, edge, gap) == s.2 + widths[s.0] + edge
        }),
{
    lemma_last_slot(widths, kinds, widths.len() as int, edge, gap);
    let s = slots(widths, kinds, widths.len() as int, edge, gap);
    lemma_slot_visible(widths, kinds, widths.len() as int, edge, gap, s.len() - 1);
    lemma_pen_grows(widths, s.last().0, widths.len() as int, edge, gap);
}

proof fn lemma_slot_visible(widths: Seq<i32>, kinds: Seq<Kind>, n: int, edge: int, gap: int, i: int)
    requires
        0 <= n <= widths.len(),
        0 <= i < slots(widths, kinds, n, edge, gap).len(),
    ensures
        ({
            let s = slots(widths, kinds, n, edge, gap)[i];
            0 <= s.0 < n && widths[s.0] > 0 && s.2 == pen(widths, s.0, edge, gap)
        }),
    decreases n,
{
    if n > 0 {
        if i < slots(widths, kinds, n - 1, edge, gap).len() {
            lemma_slot_visible(widths, kinds, n - 1, edge, gap, i);
        }
    }
}

// ---------------------------------------------------------------------------
// The mouse

pub open spec fn hit(s: Slot, x: int) -> bool {
    s.x0 <= x < s.x1
}

/// The first widget under `x`.
pub fn slot_at(layout: &Vec<Slot>, x: i32) -> (r: Option<Slot>)
    ensures
        match r {
            Some(s) => exists|i: int|
                0 <= i < layout@.len() && s == #[trigger] layout@[i] && hit(s, x as int)
                    && forall|j: int| 0 <= j < i ==> !hit(#[trigger] layout@[j], x as int),
            None => forall|i: int| 0 <= i < layout@.len() ==> !hit(#[trigger] layout@[i], x as int),
        },
{
    let mut i: usize = 0;
    while i < layout.len()
        invariant
            i <= layout.len(),
            forall|j: int| 0 <= j < i ==> !hit(#[trigger] layout@[j], x as int),
        decreases layout.len() - i,
    {
        if layout[i].x0 <= x && x < layout[i].x1 {
            return Some(layout[i]);
        }
        i += 1;
    }
    None
}

pub open spec fn distance(a: int, b: int) -> int {
    if a < b {
        b - a
    } else {
        a - b
    }
}

fn apart(a: i32, b: i32) -> (r: i64)
    ensures
        r == distance(a as int, b as int),
{
    if a < b {
        b as i64 - a as i64
    } else {
        a as i64 - b as i64
    }
}

/// The slot whose boundary is nearest to `x`: the first of those, and behind
/// the last widget only where that end is nearer than every beginning.
pub open spec fn is_nearest(layout: Seq<Slot>, x: int, r: int) -> bool {
    if layout.len() == 0 {
        r == 0
    } else if forall|k: int|
        0 <= k < layout.len() ==> distance(x, layout.last().x1 as int) < distance(
            x,
            (#[trigger] layout[k]).x0 as int,
        ) {
        r == layout.len()
    } else {
        &&& 0 <= r < layout.len()
        &&& forall|k: int|
            0 <= k < layout.len() ==> distance(x, layout[r].x0 as int) <= distance(
                x,
                (#[trigger] layout[k]).x0 as int,
            )
        &&& forall|k: int|
            0 <= k < r ==> distance(x, layout[r].x0 as int) < distance(
                x,
                (#[trigger] layout[k]).x0 as int,
            )
    }
}

/// The place (up to the number of visible widgets) whose boundary is nearest to
/// `x`.
pub fn drop_slot(layout: &Vec<Slot>, x: i32) -> (r: usize)
    ensures
        is_nearest(layout@, x as int, r as int),
{
    let mut best: usize = 0;
    let mut best_d: i64 = i64::MAX;
    let mut k: usize = 0;
    while k < layout.len()
        invariant
            k <= layout.len(),
            k == 0 ==> best == 0 && best_d == i64::MAX,
            k > 0 ==> best < k && best_d == distance(x as int, layout@[best as int].x0 as int),
            forall|j: int|
                0 <= j < k ==> best_d <= distance(x as int, (#[trigger] layout@[j]).x0 as int),
            forall|j: int|
                0 <= j < best ==> best_d < distance(x as int, (#[trigger] layout@[j]).x0 as int),
        decreases layout.len() - k,
    {
        let d: i64 = apart(x, layout[k].x0);
        if d < best_d {
            best_d = d;
            best = k;
        }
        k += 1;
    }
    if layout.len() > 0 {
        let end: i64 = apart(x, layout[layout.len() - 1].x1);
        if end < best_d {
            return layout.len();
        }
        assert(!(distance(x as int, layout@.last().x1 as int) < distance(
            x as int,
            layout@[best as int].x0 as int,
        )));
    }
    best
}

/// `r` is where the mark of a slot is drawn.
pub open spec fn is_mark(layout: Seq<Slot>, slot: int, total: int, r: int) -> bool {
    r == (if slot < layout.len() {
        if layout[slot].x0 > 1 {
            layout[slot].x0 as int
        } else {
            1
        }
    } else {
        let end = if layout.len() > 0 {
            layout.last().x1 as int
        } else {
            total
        };
        if end < total - 2 {
            end
        } else {
            total - 2
        }
    })
}

/// Where the mark of a slot is drawn: at the boundary, but inside the strip.
pub fn slot_x(layout: &Vec<Slot>, slot: usize, total: i32) -> (r: i32)
    requires
        total >= i32::MIN + 2,
    ensures
        is_mark(layout@, slot as int, total as int, r as int),
{
    if slot < layout.len() {
        if layout[slot].x0 > 1 {
            layout[slot].x0
        } else {
            1
        }
    } else {
        let end: i32 = if layout.len() > 0 {
            layout[layout.len() - 1].x1
        } else {
            total
        };
        if end < total - 2 {
            end
        } else {
            total - 2
        }
    }
}

/// A widget being dragged along the strip.
#[derive(Clone, Copy, Debug, PartialEq, Eq, Structural)]
pub struct Drag {
    /// Its index in the list of widgets.
    pub widget: usize,
    pub start_x: i32,
    pub cur_x: i32,
    /// The pointer moved far enough to count as a drag rather than a click.
    pub active: bool,
}

/// The button goes down on a widget.
pub fn drag_start(layout: &Vec<Slot>, x: i32) -> (r: Option<Drag>)
    ensures
        r.is_none() ==> forall|i: int|
            0 <= i < layout@.len() ==> !hit(#[trigger] layout@[i], x as int),
        match r {
            Some(d) => {
                &&& d.start_x == x
                &&& d.cur_x == x
                &&& !d.active
                &&& exists|i: int|
                    0 <= i < layout@.len() && d.widget == (#[trigger] layout@[i]).widget && hit(
                        layout@[i],
                        x as int,
                    ) && forall|j: int| 0 <= j < i ==> !hit(#[trigger] layout@[j], x as int)
            },
            None => true,
        },
{
    match slot_at(layout, x) {
        Some(s) => Some(Drag { widget: s.widget, start_x: x, cur_x: x, active: false }),
        None => None,
    }
}

impl Drag {
    /// The pointer moves with the button down; whether this makes it a drag.
    pub fn drag_move(&mut self, x: i32, threshold: i32) -> (r: bool)
        ensures
            final(self).widget == old(self).widget,
            final(self).start_x == old(self).start_x,
            final(self).cur_x == x,
            r == (!old(self).active && distance(x as int, old(self).start_x as int) >= threshold),
            final(self).active == (old(self).active || r),
    {
        self.cur_x = x;
        if !self.active && apart(x, self.start_x) >= threshold as i64 {
            self.active = true;
            true
        } else {
            false
        }
    }
}

/// The list after a widget was dropped in front of another, or at the end;
/// dropping it where it stands changes nothing.
pub open spec fn reordered(list: Seq<Seq<char>>, from: int, to: int) -> Seq<Seq<char>> {
    if to != from && to != from + 1 && 0 <= from < list.len() {
        let rest = list.remove(from);
        let at = if to > from {
            to - 1
        } else {
            to
        };
        rest.insert(
            if at < rest.len() {
                at
            } else {
                rest.len() as int
            },
            list[from],
        )
    } else {
        list
    }
}

/// Where a slot is in the list of widgets.
pub open spec fn target(layout: Seq<Slot>, slot: int, n: int) -> int {
    if 0 <= slot < layout.len() {
        layout[slot].widget as int
    } else {
        n
    }
}

/// The button is released after a drag: the widget is moved to the slot nearest
/// to the pointer; whether the list changed.
pub fn drag_end(list: &mut Vec<String>, layout: &Vec<Slot>, d: Drag, x: i32) -> (r: bool)
    ensures
        exists|slot: int|
            #![trigger is_nearest(layout@, x as int, slot)]
            is_nearest(layout@, x as int, slot) && text::views(final(list)@) == reordered(
                text::views(old(list)@),
                d.widget as int,
                target(layout@, slot, old(list)@.len() as int),
            ) && r == (target(layout@, slot, old(list)@.len() as int) != d.widget && target(
                layout@,
                slot,
                old(list)@.len() as int,
            ) != d.widget + 1 && d.widget < old(list)@.len()),
{
    let ghost v = text::views(list@);
    let slot: usize = drop_slot(layout, x);
    let from: usize = d.widget;
    let to: usize = if slot < layout.len() {
        layout[slot].widget
    } else {
        list.len()
    };
    if from < list.len() && to != from && to != from + 1 {
        let name: String = list.remove(from);
        let ghost v1 = text::views(list@);
        assert(v1 =~= v.remove(from as int));
        let at: usize = if to > from {
            to - 1
        } else {
            to
        };
        let n: usize = if at < list.len() {
            at
        } else {
            list.len()
        };
        list.insert(n, name);
        assert(text::views(list@) =~= v1.insert(n as int, v[from as int]));
        assert(is_nearest(layout@, x as int, slot as int));
        true
    } else {
        assert(is_nearest(layout@, x as int, slot as int));
        false
    }
}

/// Dragging a widget keeps every widget, as often as it was there.
pub proof fn law_reorder_keeps_widgets(list: Seq<Seq<char>>, from: int, to: int)
    requires
        0 <= to <= list.len(),
    ensures
        reordered(list, from, to).to_multiset() == list.to_multiset(),
        reordered(list, from, to).len() == list.len(),
{
    broadcast use vstd::seq_lib::group_to_multiset_ensures;

    if to != from && to != from + 1 && 0 <= from < list.len() {
        let rest = list.remove(from);
        let at = if to > from {
            to - 1
        } else {
            to
        };
        vstd::seq_lib::to_multiset_insert(rest, at, list[from]);
        vstd::seq_lib::to_multiset_remove(list, from);
        assert(list.to_multiset().count(list[from]) > 0) by {
            assert(list.contains(list[from]));
        }
        assert(reordered(list, from, to).to_multiset() =~= list.to_multiset());
    }
}

/// A widget that is dropped in front of another stands directly before it, and
/// one that is dropped at the end stands last.
pub proof fn law_dropped_widget_stands_there(list: Seq<Seq<char>>, from: int, to: int)
    requires
        0 <= from < list.len(),
        0 <= to <= list.len(),
        to != from && to != from + 1,
    ensures
        ({
            let r = reordered(list, from, to);
            if to == list.len() {
                r.last() == list[from]
            } else {
                exists|i: int|
                    0 <= i && i + 1 < r.len() && #[trigger] r[i] == list[from] && r[i + 1]
                        == list[to]
            }
        }),
{
    let r = reordered(list, from, to);
    if to < list.len() {
        let at = if to > from {
            to - 1
        } else {
            to
        };
        assert(r[at] == list[from]);
        assert(r[at + 1] == list[to]);
    }
}

// ---------------------------------------------------------------------------
// Staying on top

/// Checks of the z-order after a shell event.
pub const ZBURST_TICKS: u32 = 14;

/// The first event on objects inside windows.
pub const EVENT_OBJECT_SHOW: u32 = 0x8002;

/// Whether a shell event may change the z-order: events for child objects
/// (buttons, list items, the caret) do not.
pub fn is_shell_event(event: u32, object: i32) -> (r: bool)
    ensures
        r == (event < EVENT_OBJECT_SHOW || object == 0),
{
    event < EVENT_OBJECT_SHOW || object == 0
}

/// The strip is put back on top only when it floats, is not being dragged,
/// exists and is covered; doing it always would make events without end.
pub fn must_raise(floating: bool, dragging: bool, there: bool, covered: bool) -> (r: bool)
    ensures
        r == (floating && !dragging && there && covered),
{
    floating && !dragging && there && covered
}

/// A short series of checks after a shell event.
#[derive(Clone, Copy, Debug, PartialEq, Eq, Structural)]
pub struct Burst {
    pub left: u32,
}

impl Burst {
    /// A shell event begins the series, or prolongs it; whether its timer has
    /// to be started.
    pub fn event(&mut self) -> (r: bool)
        ensures
            final(self).left == ZBURST_TICKS,
            r == (old(self).left == 0),
    {
        let start: bool = self.left == 0;
        self.left = ZBURST_TICKS;
        start
    }

    /// A tick of the series; whether it was the last, so that the timer is
    /// stopped.
    pub fn tick(&mut self) -> (r: bool)
        ensures
            final(self).left == (if old(self).left > 0 {
                old(self).left - 1
            } else {
                0
            }),
            r == (final(self).left == 0),
    {
        if self.left > 0 {
            self.left = self.left - 1;
        }
        self.left == 0
    }
}

/// A series without further events stops after its checks and not before.
pub proof fn law_burst_ends(left: nat, ticks: nat)
    ensures
        ticked(left, ticks) == (if ticks >= left {
            0
        } else {
            left - ticks
        }),
    decreases ticks,
{
    if ticks > 0 {
        law_burst_ends(left, (ticks - 1) as nat);
    }
}

/// What is left of a series after a number of ticks.
pub open spec fn ticked(left: nat, ticks: nat) -> nat
    decreases ticks,
{
    if ticks == 0 {
        left
    } else {
        let l = ticked(left, (ticks - 1) as nat);
        if l > 0 {
            (l - 1) as nat
        } else {
            0
        }
    }
}

// ---------------------------------------------------------------------------
// The window

/// What has to be done about the strip's window.
#[derive(Clone, Copy, Debug, PartialEq, Eq, Structural)]
pub enum BarAction {
    /// There is no taskbar.
    Wait,
    /// It is there and has the right parent.
    Keep,
    /// It is made anew; an old one with another parent is destroyed first.
    Create { destroy: bool },
}

/// What has to be done about the strip's window: a floating one has no parent
/// that could be wrong.
pub fn bar_action(taskbar: bool, alive: bool, floating: bool, parent: bool) -> (r: BarAction)
    ensures
        r == (if !taskbar {
            BarAction::Wait
        } else if alive && (floating || parent) {
            BarAction::Keep
        } else {
            BarAction::Create { destroy: alive }
        }),
{
    if !taskbar {
        BarAction::Wait
    } else if alive && (floating || parent) {
        BarAction::Keep
    } else {
        BarAction::Create { destroy: alive }
    }
}

/// Sixteen bits as a signed number.
pub open spec fn signed16(v: int) -> int {
    if v < 0x8000 {
        v
    } else {
        v - 0x1_0000
    }
}

fn sign16(v: u64) -> (r: i32)
    requires
        v < 0x1_0000,
    ensures
        r == signed16(v as int),
{
    if v < 0x8000 {
        v as i32
    } else {
        v as i32 - 0x1_0000
    }
}

/// A mouse message is of the point (x, y).
pub open spec fn is_point(lparam: int, x: int, y: int) -> bool {
    &&& x == signed16(lparam % 0x1_0000)
    &&& y == signed16(lparam / 0x1_0000 % 0x1_0000)
}

/// The position of the pointer in a mouse message: x in the low sixteen bits,
/// y in the next.
pub fn message_point(lparam: u64) -> (r: (i32, i32))
    ensures
        is_point(lparam as int, r.0 as int, r.1 as int),
{
    (sign16(lparam % 0x1_0000), sign16(lparam / 0x1_0000 % 0x1_0000))
}

/// Every widget with a width has one slot, with its own kind and as wide as the
/// widget and half a gap on each side; a widget without a width has none.
pub proof fn law_visible_widgets_have_a_slot(
    widths: Seq<i32>,
    kinds: Seq<Kind>,
    n: int,
    edge: int,
    gap: int,
    i: int,
)
    requires
        0 <= i < n <= widths.len(),
        gap >= 0,
    ensures
        widths[i] > 0 ==> exists|k: int|
            0 <= k < slots(widths, kinds, n, edge, gap).len() && (#[trigger] slots(
                widths,
                kinds,
                n,
                edge,
                gap,
            )[k]).0 == i,
        forall|k: int|
            0 <= k < slots(widths, kinds, n, edge, gap).len() ==> {
                let s = #[trigger] slots(widths, kinds, n, edge, gap)[k];
                &&& 0 <= s.0 < n
                &&& widths[s.0] > 0
                &&& s.1 == kinds[s.0]
                &&& s.4 - s.3 == widths[s.0] + 2 * (gap / 2)
                &&& s.2 - s.3 == gap / 2
            },
        forall|k: int, l: int|
            0 <= k < l < slots(widths, kinds, n, edge, gap).len() ==> (#[trigger] slots(
                widths,
                kinds,
                n,
                edge,
                gap,
            )[k]).0 < (#[trigger] slots(widths, kinds, n, edge, gap)[l]).0,
    decreases n,
{
    lemma_slots(widths, kinds, n, edge, gap);
    if i < n - 1 {
        law_visible_widgets_have_a_slot(widths, kinds, n - 1, edge, gap, i);
        if widths[i] > 0 {
            let s = slots(widths, kinds, n - 1, edge, gap);
            let k = choose|k: int| 0 <= k < s.len() && (#[trigger] s[k]).0 == i;
            assert(slots(widths, kinds, n, edge, gap)[k].0 == i);
        }
    } else if widths[i] > 0 {
        let s = slots(widths, kinds, n, edge, gap);
        assert(s[s.len() - 1].0 == i);
    }
}

proof fn lemma_slots(widths: Seq<i32>, kinds: Seq<Kind>, n: int, edge: int, gap: int)
    requires
        0 <= n <= widths.len(),
    ensures
        ({
            let r = slots(widths, kinds, n, edge, gap);
            &&& forall|k: int|
                0 <= k < r.len() ==> {
                    let s = #[trigger] r[k];
                    &&& 0 <= s.0 < n
                    &&& widths[s.0] > 0
                    &&& s.1 == kinds[s.0]
                    &&& s.4 - s.3 == widths[s.0] + 2 * (gap / 2)
                    &&& s.2 - s.3 == gap / 2
                }
            &&& forall|k: int, l: int|
                0 <= k < l < r.len() ==> (#[trigger] r[k]).0 < (#[trigger] r[l]).0
        }),
    decreases n,
{
    if n > 0 {
        lemma_slots(widths, kinds, n - 1, edge, gap);
        let (o, r) = (slots(widths, kinds, n - 1, edge, gap), slots(widths, kinds, n, edge, gap));
        assert forall|k: int| 0 <= k < r.len() implies {
            let s = #[trigger] r[k];
            &&& 0 <= s.0 < n
            &&& widths[s.0] > 0
            &&& s.1 == kinds[s.0]
            &&& s.4 - s.3 == widths[s.0] + 2 * (gap / 2)
            &&& s.2 - s.3 == gap / 2
        } by {
            if k < o.len() {
                assert(r[k] == o[k]);
            }
        }
        assert forall|k: int, l: int| 0 <= k < l < r.len() implies (#[trigger] r[k]).0 < (
        #[trigger] r[l]).0 by {
            assert(r[k] == o[k]);
            if l < o.len() {
                assert(r[l] == o[l]);
            }
        }
    }
}

proof fn lemma_slots_apart(
    widths: Seq<i32>,
    kinds: Seq<Kind>,
    n: int,
    edge: int,
    gap: int,
    k: int,
    l: int,
)
    requires
        0 <= n <= widths.len(),
        gap >= 0,
        0 <= k < l < slots(widths, kinds, n, edge, gap).len(),
    ensures
        slots(widths, kinds, n, edge, gap)[k].4 <= slots(widths, kinds, n, edge, gap)[l].3,
    decreases l - k,
{
    lemma_slots(widths, kinds, n, edge, gap);
    law_slots_do_not_overlap(widths, kinds, n, edge, gap, l - 1);
    if k < l - 1 {
        lemma_slots_apart(widths, kinds, n, edge, gap, k, l - 1);
        let s = slots(widths, kinds, n, edge, gap);
        assert(s[l - 1].4 - s[l - 1].3 == widths[s[l - 1].0] + 2 * (gap / 2));
    }
}

/// A point on a widget belongs to that widget and to no other.
pub proof fn law_pointer_finds_the_widget(
    widths: Seq<i32>,
    kinds: Seq<Kind>,
    edge: int,
    gap: int,
    k: int,
    l: int,
    x: int,
)
    requires
        gap >= 0,
        0 <= k < slots(widths, kinds, widths.len() as int, edge, gap).len(),
        0 <= l < slots(widths, kinds, widths.len() as int, edge, gap).len(),
        ({
            let s = slots(widths, kinds, widths.len() as int, edge, gap)[k];
            s.2 <= x < s.2 + widths[s.0]
        }),
    ensures
        ({
            let s = slots(widths, kinds, widths.len() as int, edge, gap)[l];
            s.3 <= x < s.4 <==> l == k
        }),
{
    let n = widths.len() as int;
    lemma_slots(widths, kinds, n, edge, gap);
    let s = slots(widths, kinds, n, edge, gap);
    assert(s[k].2 - s[k].3 == gap / 2);
    assert(s[k].4 - s[k].3 == widths[s[k].0] + 2 * (gap / 2));
    if k < l {
        lemma_slots_apart(widths, kinds, n, edge, gap, k, l);
    } else if l < k {
        lemma_slots_apart(widths, kinds, n, edge, gap, l, k);
    }
}

/// On a machine that feeds everything nothing is left out, and what is left out
/// on another is of a module that it cannot feed.
pub proof fn law_only_unfed_widgets_leave(list: Seq<Seq<char>>, gpu: bool, battery: bool, i: int)
    requires
        0 <= i < list.len(),
    ensures
        gpu && battery ==> list.filter(is_fed(gpu, battery)) == list,
        widgets::kind_of(list[i]) != Some(Kind::Gpu) && widgets::kind_of(list[i]) != Some(
            Kind::Battery,
        ) ==> list.filter(is_fed(gpu, battery)).contains(list[i]),
        gpu && widgets::kind_of(list[i]) == Some(Kind::Gpu) ==> list.filter(
            is_fed(gpu, battery),
        ).contains(list[i]),
        battery && widgets::kind_of(list[i]) == Some(Kind::Battery) ==> list.filter(
            is_fed(gpu, battery),
        ).contains(list[i]),
        forall|k: int|
            0 <= k < list.filter(is_fed(gpu, battery)).len() && !gpu ==> widgets::kind_of(
                #[trigger] list.filter(is_fed(gpu, battery))[k],
            ) != Some(Kind::Gpu),
        forall|k: int|
            0 <= k < list.filter(is_fed(gpu, battery)).len() && !battery ==> widgets::kind_of(
                #[trigger] list.filter(is_fed(gpu, battery))[k],
            ) != Some(Kind::Battery),
{
    let keep = is_fed(gpu, battery);
    let f = list.filter(keep);
    if keep(list[i]) {
        list.lemma_filter_contains(keep, i);
    }
    assert forall|k: int| 0 <= k < f.len() implies keep(#[trigger] f[k]) by {
        list.lemma_filter_pred(keep, k);
    }
    if gpu && battery {
        lemma_all_kept(list, keep);
    }
}

proof fn lemma_all_kept(list: Seq<Seq<char>>, keep: spec_fn(Seq<char>) -> bool)
    requires
        forall|x: Seq<char>| #[trigger] keep(x),
    ensures
        list.filter(keep) == list,
    decreases list.len(),
{
    reveal(Seq::filter);
    if list.len() > 0 {
        lemma_all_kept(list.drop_last(), keep);
        assert(keep(list.last()));
        assert(list.drop_last().push(list.last()) =~= list);
    } else {
        assert(list.filter(keep) =~= list);
    }
}

/// A widget that is dropped where it stands, before itself or behind itself,
/// stays, and the others keep their order wherever it is dropped.
pub proof fn law_dropping_in_place_changes_nothing(list: Seq<Seq<char>>, from: int, to: int)
    requires
        0 <= from < list.len(),
        0 <= to <= list.len(),
    ensures
        to == from || to == from + 1 ==> reordered(list, from, to) == list,
        exists|at: int|
            0 <= at < list.len() && #[trigger] reordered(list, from, to).remove(at) == list.remove(
                from,
            ) && reordered(list, from, to)[at] == list[from],
{
    let r = reordered(list, from, to);
    if to == from || to == from + 1 {
        assert(r.remove(from) == list.remove(from));
    } else {
        let at = if to > from {
            to - 1
        } else {
            to
        };
        assert(r.remove(at) =~= list.remove(from));
        assert(r[at] == list[from]);
    }
}

/// The mark of a slot is drawn where the widget behind it begins, or behind the
/// last one, and always inside the strip.
pub proof fn law_mark_is_in_the_strip(layout: Seq<Slot>, slot: int, total: int, r: int)
    requires
        is_mark(layout, slot, total, r),
        0 <= slot <= layout.len(),
        total >= 4,
        forall|i: int| 0 <= i < layout.len() ==> 0 <= (#[trigger] layout[i]).x0 < layout[i].x1 <= total,
    ensures
        0 <= r < total,
        slot < layout.len() && layout[slot].x0 > 0 ==> r == layout[slot].x0,
        slot == layout.len() && slot > 0 ==> r == layout[slot - 1].x1 || (r == total - 2
            && layout[slot - 1].x1 > total - 2),
{
    if slot < layout.len() {
        assert(layout[slot].x0 < layout[slot].x1 <= total);
    } else if slot > 0 {
        assert(layout[slot - 1].x0 < layout[slot - 1].x1);
    }
}

/// A mouse message that is made of two numbers of sixteen bits is of the point with
/// these two, negative ones on a screen to the left or above among them.
pub proof fn law_message_tells_the_point(x: int, y: int, lparam: int, rx: int, ry: int)
    requires
        -0x8000 <= x < 0x8000 && -0x8000 <= y < 0x8000,
        lparam == (if y < 0 {
            y + 0x1_0000
        } else {
            y
        }) * 0x1_0000 + (if x < 0 {
            x + 0x1_0000
        } else {
            x
        }),
        is_point(lparam, rx, ry),
    ensures
        rx == x && ry == y,
{
    let high = if y < 0 {
        y + 0x1_0000
    } else {
        y
    };
    let low = if x < 0 {
        x + 0x1_0000
    } else {
        x
    };
    text::lemma_quotient(high, low, 0x1_0000);
    text::lemma_quotient(0, high, 0x1_0000);
}

/// Text is dark on a light taskbar and light on a dark one, and what is dimmed is
/// the same colour, less opaque.
pub proof fn law_ink_stands_out()
    ensures
        ink(true).0.r < 64 && ink(true).0.g < 64 && ink(true).0.b < 64 && ink(true).0.a == 255,
        ink(false).0.r > 192 && ink(false).0.g > 192 && ink(false).0.b > 192 && ink(false).0.a == 255,
        forall|light: bool|
            {
                let (t, d) = #[trigger] ink(light);
                d.r == t.r && d.g == t.g && d.b == t.b && d.a < t.a
            },
{
}

/// The colour that is configured for a module is the one it is drawn in; a module
/// without one has the accent, but for the switch on the processor.
pub proof fn law_module_has_its_configured_colour(cfg: Config, k: Kind, system: Option<Color>, i: int)
    requires
        0 < i < theme::palette_list().len(),
    ensures
        cfg.colors@.dom().contains(menu::key_of(k)) && cfg.colors@[menu::key_of(k)]@
            == theme::palette_list()[i].0 ==> module_mode(cfg, k, system) == ColorMode::Fixed(
            theme::palette_list()[i].2,
        ),
        cfg.colors@.dom().contains(menu::key_of(k)) && cfg.colors@[menu::key_of(k)]@ == "mono"@
            ==> module_mode(cfg, k, system) == ColorMode::Mono,
        !cfg.colors@.dom().contains(menu::key_of(k)) ==> module_mode(cfg, k, system) == (
        if cfg.utilization_colors && k == Kind::Cpu {
            ColorMode::Utilization
        } else {
            ColorMode::Accent
        }),
{
    theme::law_names_stand_for_their_colours(i, system);
    reveal_strlit("accent");
    reveal_strlit("utilization");
    reveal_strlit("mono");
    assert("accent"@.len() == 6 && "utilization"@.len() == 11 && "mono"@.len() == 4);
}

/// A widget that is dropped where another begins goes in front of it, and one that
/// is dropped behind the last goes to the end.
pub proof fn law_drop_goes_to_the_boundary_under_it(layout: Seq<Slot>, x: int, r: int, k: int)
    requires
        is_nearest(layout, x, r),
        forall|i: int, j: int|
            0 <= i < j < layout.len() ==> (#[trigger] layout[i]).x0 < (#[trigger] layout[j]).x0,
        layout.len() > 0 ==> layout.last().x0 < layout.last().x1,
        0 <= k < layout.len(),
    ensures
        0 <= r <= layout.len(),
        x == layout[k].x0 ==> r == k,
        x >= layout.last().x1 ==> r == layout.len(),
{
    let n = layout.len() as int;
    assert(layout[n - 1] == layout.last());
    if x == layout[k].x0 {
        assert(distance(x, layout[k].x0 as int) == 0);
        assert(distance(x, layout[r].x0 as int) <= 0);
        if r < k {
            assert(layout[r].x0 < layout[k].x0);
        } else if k < r {
            assert(layout[k].x0 < layout[r].x0);
        }
    }
    if x >= layout.last().x1 {
        assert forall|j: int| 0 <= j < n implies distance(x, layout.last().x1 as int) < distance(
            x,
            (#[trigger] layout[j]).x0 as int,
        ) by {
            if j < n - 1 {
                assert(layout[j].x0 < layout[n - 1].x0);
            }
        }
    }
}

} // verus!
