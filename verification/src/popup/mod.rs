//! The popup of a module: when it is open, what of it reacts to the mouse, and
//! where it stands. What it shows is in `content`.

pub mod content;

use crate::canvas::{Color, FontSpec};
use crate::text;
use crate::widgets::Kind;
use vstd::prelude::*;

verus! {

/// A rectangle on the screen; right and bottom are outside.
#[derive(Clone, Copy, Debug, PartialEq, Eq, Structural)]
pub struct Rect {
    pub left: i32,
    pub top: i32,
    pub right: i32,
    pub bottom: i32,
}

impl Rect {
    pub open spec fn holds(self, x: int, y: int) -> bool {
        self.left <= x < self.right && self.top <= y < self.bottom
    }

    pub fn contains(self, x: i32, y: i32) -> (r: bool)
        ensures
            r == self.holds(x as int, y as int),
    {
        self.left <= x && x < self.right && self.top <= y && y < self.bottom
    }
}

/// What a click on a row does.
#[derive(Clone, Debug)]
pub enum Action {
    /// Includes or excludes a network interface, by its name.
    ToggleNet(String),
    /// Includes or excludes a physical disk, by its model.
    ToggleDisk(String),
}

impl Action {
    pub fn copy(&self) -> (r: Action)
        ensures
            r == *self,
    {
        match self {
            Action::ToggleNet(s) => Action::ToggleNet(s.clone()),
            Action::ToggleDisk(s) => Action::ToggleDisk(s.clone()),
        }
    }
}

/// A place in the content: a corner and a size.
#[derive(Clone, Copy, Debug, PartialEq, Eq, Structural)]
pub struct Area {
    pub x: i32,
    pub y: i32,
    pub w: i32,
    pub h: i32,
}

pub open spec fn inside(a: Area, x: int, y: int) -> bool {
    a.x <= x < a.x + a.w && a.y <= y < a.y + a.h
}

fn is_inside(a: Area, x: i64, y: i64) -> (r: bool)
    ensures
        r == inside(a, x as int, y as int),
{
    x >= a.x as i64 && x < a.x as i64 + a.w as i64 && y >= a.y as i64 && y < a.y as i64 + a.h as i64
}

/// A clickable row.
#[derive(Clone, Debug)]
pub struct Hit {
    pub area: Area,
    pub action: Action,
}

/// A label that did not fit and was drawn with an ellipsis; hovering it shows
/// the full text.
#[derive(Clone, Debug)]
pub struct Tip {
    pub area: Area,
    pub font: FontSpec,
    pub text: String,
}

/// A click this soon after the popup closed, in milliseconds, is the one that
/// closed it.
pub const JUST_HIDDEN_MS: u64 = 300;

pub struct Popup {
    /// Slice of the chart under the pointer.
    pub hover: Option<usize>,
    /// Labels that were cut short.
    pub tips: Vec<Tip>,
    /// Rows that react to a click.
    pub hits: Vec<Hit>,
    /// The label under the pointer.
    pub tip: Option<usize>,
    /// Offset of the content in the window.
    pub pad: i32,
    pub kind: Option<Kind>,
    pub visible: bool,
    /// When it was closed, in milliseconds.
    pub hidden_at: Option<u64>,
    pub anchor: Rect,
    pub tray: Rect,
    /// Height while it stays open, so that changes of the content do not make
    /// it jump.
    pub locked_h: i32,
}

/// Closed by the very click that is being handled.
pub open spec fn just_hidden(p: Popup, now: int) -> bool {
    match p.hidden_at {
        Some(t) => now - t < JUST_HIDDEN_MS,
        None => false,
    }
}

/// A click on a widget of that module opens the popup.
pub open spec fn opens(p: Popup, kind: Kind, now: int) -> bool {
    !(p.kind == Some(kind) && (p.visible || just_hidden(p, now)))
}

/// Popup `b` is what popup `a` becomes by a click on a widget at `now`; `r` says
/// whether it is open.
pub open spec fn toggled(
    a: Popup,
    kind: Kind,
    anchor: Rect,
    tray: Rect,
    now: u64,
    r: bool,
    b: Popup,
) -> bool {
    &&& r == opens(a, kind, now as int)
    &&& b.visible == r
    &&& r ==> {
        &&& b.kind == Some(kind)
        &&& b.anchor == anchor
        &&& b.tray == tray
        &&& b.locked_h == 0
        &&& b.hover.is_none()
        &&& b.tip.is_none()
        &&& b.tips@.len() == 0
        &&& b.hits@.len() == 0
        &&& b.hidden_at == a.hidden_at
        &&& b.pad == a.pad
    }
    &&& !r ==> b == (Popup {
        visible: false,
        hidden_at: if a.visible {
            Some(now)
        } else {
            a.hidden_at
        },
        ..a
    })
}

/// The first of the places that holds the point.
pub open spec fn first_inside(areas: Seq<Area>, x: int, y: int, from: int) -> Option<int>
    decreases areas.len() - from,
{
    if from < 0 || from >= areas.len() {
        None
    } else if inside(areas[from], x, y) {
        Some(from)
    } else {
        first_inside(areas, x, y, from + 1)
    }
}

pub open spec fn hit_areas(v: Seq<Hit>) -> Seq<Area> {
    v.map_values(|h: Hit| h.area)
}

pub open spec fn tip_areas(v: Seq<Tip>) -> Seq<Area> {
    v.map_values(|t: Tip| t.area)
}

/// The row under a point of the window.
pub open spec fn hit_index(p: Popup, x: int, y: int) -> Option<int> {
    first_inside(hit_areas(p.hits@), x - p.pad, y - p.pad, 0)
}

/// The cut label under a point of the window.
pub open spec fn tip_index(p: Popup, x: int, y: int) -> Option<int> {
    first_inside(tip_areas(p.tips@), x - p.pad, y - p.pad, 0)
}

impl Popup {
    pub fn new() -> (r: Popup)
        ensures
            !r.visible,
            r.kind.is_none(),
            r.hidden_at.is_none(),
            r.hover.is_none(),
            r.tip.is_none(),
            r.tips@.len() == 0,
            r.hits@.len() == 0,
            r.pad == 0,
            r.anchor == (Rect { left: 0, top: 0, right: 0, bottom: 0 }),
            r.tray == (Rect { left: 0, top: 0, right: 0, bottom: 0 }),
            r.locked_h == 0,
    {
        let none: Rect = Rect { left: 0, top: 0, right: 0, bottom: 0 };
        Popup {
            hover: None,
            tips: Vec::new(),
            hits: Vec::new(),
            tip: None,
            pad: 0,
            kind: None,
            visible: false,
            hidden_at: None,
            anchor: none,
            tray: none,
            locked_h: 0,
        }
    }

    /// A click on a widget of the strip at `now` opens its popup, or closes it;
    /// whether it is open now. `anchor` and `tray` are where the widget and the
    /// taskbar are on the screen.
    pub fn toggle(&mut self, kind: Kind, anchor: Rect, tray: Rect, now: u64) -> (r: bool)
        ensures
            toggled(*old(self), kind, anchor, tray, now, r, *final(self)),
    {
        let just: bool = match self.hidden_at {
            Some(t) => t > now || now - t < JUST_HIDDEN_MS,
            None => false,
        };
        let same: bool = match self.kind {
            Some(k) => k == kind,
            None => false,
        };
        if self.visible && same {
            let _was: bool = self.close(now);
            return false;
        }
        if !self.visible && just && same {
            return false;
        }
        self.kind = Some(kind);
        self.anchor = anchor;
        self.tray = tray;
        self.visible = true;
        self.locked_h = 0;
        self.hover = None;
        self.tips = Vec::new();
        self.hits = Vec::new();
        self.tip = None;
        true
    }

    /// Closes the popup; whether it was open, so that its window is hidden.
    pub fn close(&mut self, now: u64) -> (r: bool)
        ensures
            r == old(self).visible,
            *final(self) == (Popup {
                visible: false,
                hidden_at: if old(self).visible {
                    Some(now)
                } else {
                    old(self).hidden_at
                },
                ..*old(self)
            }),
    {
        if self.visible {
            self.visible = false;
            self.hidden_at = Some(now);
            true
        } else {
            false
        }
    }

    fn hit_at(&self, x: i32, y: i32) -> (r: Option<usize>)
        ensures
            match r {
                Some(i) => hit_index(*self, x as int, y as int) == Some(i as int) && i
                    < self.hits@.len(),
                None => hit_index(*self, x as int, y as int).is_none(),
            },
    {
        let ghost areas = hit_areas(self.hits@);
        let cx: i64 = x as i64 - self.pad as i64;
        let cy: i64 = y as i64 - self.pad as i64;
        let mut i: usize = 0;
        while i < self.hits.len()
            invariant
                areas == hit_areas(self.hits@),
                cx == x - self.pad,
                cy == y - self.pad,
                i <= self.hits.len(),
                first_inside(areas, cx as int, cy as int, 0) == first_inside(
                    areas,
                    cx as int,
                    cy as int,
                    i as int,
                ),
            decreases self.hits.len() - i,
        {
            assert(areas[i as int] == self.hits@[i as int].area);
            if is_inside(self.hits[i].area, cx, cy) {
                return Some(i);
            }
            i += 1;
        }
        None
    }

    /// Something clickable is under (x, y) in the window.
    pub fn click_target(&self, x: i32, y: i32) -> (r: bool)
        ensures
            r == hit_index(*self, x as int, y as int).is_some(),
    {
        self.hit_at(x, y).is_some()
    }

    /// The action of the row under (x, y), if there is one.
    pub fn click(&self, x: i32, y: i32) -> (r: Option<Action>)
        ensures
            r == (match hit_index(*self, x as int, y as int) {
                Some(i) => Some(self.hits@[i].action),
                None => None,
            }),
    {
        match self.hit_at(x, y) {
            Some(i) => Some(self.hits[i].action.copy()),
            None => None,
        }
    }

    /// The pointer moved over the popup, over slice `slice` of its chart;
    /// whether the slice or the cut label under it changed.
    pub fn mouse_move(&mut self, x: i32, y: i32, slice: Option<usize>) -> (r: bool)
        ensures
            final(self).hover == slice,
            match final(self).tip {
                Some(i) => tip_index(*old(self), x as int, y as int) == Some(i as int),
                None => tip_index(*old(self), x as int, y as int).is_none(),
            },
            r == (final(self).hover != old(self).hover || final(self).tip != old(self).tip),
            *final(self) == (Popup {
                hover: final(self).hover,
                tip: final(self).tip,
                ..*old(self)
            }),
    {
        let ghost areas = tip_areas(self.tips@);
        let cx: i64 = x as i64 - self.pad as i64;
        let cy: i64 = y as i64 - self.pad as i64;
        let mut tip: Option<usize> = None;
        let mut i: usize = 0;
        while i < self.tips.len()
            invariant_except_break
                tip.is_none(),
                first_inside(areas, cx as int, cy as int, 0) == first_inside(
                    areas,
                    cx as int,
                    cy as int,
                    i as int,
                ),
            invariant
                areas == tip_areas(self.tips@),
                i <= self.tips.len(),
                *self == *old(self),
            ensures
                match tip {
                    Some(k) => first_inside(areas, cx as int, cy as int, 0) == Some(k as int),
                    None => first_inside(areas, cx as int, cy as int, 0).is_none(),
                },
            decreases self.tips.len() - i,
        {
            assert(areas[i as int] == self.tips@[i as int].area);
            if is_inside(self.tips[i].area, cx, cy) {
                tip = Some(i);
                break;
            }
            i += 1;
        }
        let mut changed: bool = false;
        if tip != self.tip {
            self.tip = tip;
            changed = true;
        }
        if slice != self.hover {
            self.hover = slice;
            changed = true;
        }
        changed
    }

    /// Takes over what a pass over the content found; a label under the pointer
    /// that is no longer there is forgotten.
    pub fn take_content(&mut self, tips: Vec<Tip>, hits: Vec<Hit>, pad: i32)
        ensures
            *final(self) == (Popup {
                tips,
                hits,
                pad,
                tip: match old(self).tip {
                    Some(i) => if i < tips@.len() {
                        Some(i)
                    } else {
                        None
                    },
                    None => None,
                },
                ..*old(self)
            }),
    {
        if let Some(i) = self.tip {
            if i >= tips.len() {
                self.tip = None;
            }
        }
        self.tips = tips;
        self.hits = hits;
        self.pad = pad;
    }

    /// The height of the window: room for what was laid out and for what was
    /// painted, at least `least`, and never less than before while it is open.
    pub fn settle_height(&mut self, end_y: i32, used: i32, least: i32) -> (r: i32)
        requires
            content_height(end_y as int, used as int, least as int, old(self).pad as int)
                <= i32::MAX,
        ensures
            r == window_height(
                old(self).locked_h as int,
                end_y as int,
                used as int,
                least as int,
                old(self).pad as int,
            ),
            *final(self) == (Popup { locked_h: r, ..*old(self) }),
    {
        let a: i32 = if used > end_y {
            used
        } else {
            end_y
        };
        let content: i32 = if least > a {
            least
        } else {
            a
        };
        let h0: i64 = content as i64 + self.pad as i64 * 2;
        let h: i32 = if self.locked_h as i64 > h0 {
            self.locked_h
        } else {
            h0 as i32
        };
        self.locked_h = h;
        h
    }

    /// The module that is drawn: none while the popup is closed.
    pub fn drawn(&self) -> (r: Option<Kind>)
        ensures
            r == drawn_kind(*self),
    {
        if self.visible {
            self.kind
        } else {
            None
        }
    }

    /// The cut label whose full text is drawn over a content with these labels.
    pub fn tip_in(&self, tips: &Vec<Tip>) -> (r: Option<usize>)
        ensures
            r == kept_tip(self.tip, tips@.len()),
    {
        match self.tip {
            Some(i) => if i < tips.len() {
                Some(i)
            } else {
                None
            },
            None => None,
        }
    }

    /// Takes over a pass over the content and tells the height of the window; a
    /// closed popup is left alone and has none.
    pub fn render(&mut self, pass: Pass) -> (r: Option<i32>)
        requires
            content_height(pass.end_y as int, pass.used as int, pass.least as int, pass.pad as int)
                <= i32::MAX,
        ensures
            rendered(*old(self), pass, *final(self), r),
    {
        if self.drawn().is_none() {
            return None;
        }
        self.take_content(pass.tips, pass.hits, pass.pad);
        let h: i32 = self.settle_height(pass.end_y, pass.used, pass.least);
        Some(h)
    }
}

/// What a pass over the content found: the cut labels and the rows that react,
/// the content's offset in the window, how far down it was laid out and painted,
/// and the least height.
pub struct Pass {
    pub tips: Vec<Tip>,
    pub hits: Vec<Hit>,
    pub pad: i32,
    pub end_y: i32,
    pub used: i32,
    pub least: i32,
}

pub open spec fn drawn_kind(p: Popup) -> Option<Kind> {
    if p.visible {
        p.kind
    } else {
        None
    }
}

/// The label under the pointer, if it is one of `n`.
pub open spec fn kept_tip(tip: Option<usize>, n: nat) -> Option<usize> {
    match tip {
        Some(i) => if i < n {
            Some(i)
        } else {
            None
        },
        None => None,
    }
}

/// Popup `b` is popup `a` after a pass was drawn in a window of height `h`; a
/// closed one is as it was.
pub open spec fn rendered(a: Popup, pass: Pass, b: Popup, h: Option<i32>) -> bool {
    if drawn_kind(a).is_none() {
        b == a && h.is_none()
    } else {
        &&& h == Some(b.locked_h)
        &&& b.locked_h == window_height(
            a.locked_h as int,
            pass.end_y as int,
            pass.used as int,
            pass.least as int,
            pass.pad as int,
        )
        &&& b == (Popup {
            tips: pass.tips,
            hits: pass.hits,
            pad: pass.pad,
            tip: kept_tip(a.tip, pass.tips@.len()),
            locked_h: b.locked_h,
            ..a
        })
    }
}

pub open spec fn larger(a: int, b: int) -> int {
    if a > b {
        a
    } else {
        b
    }
}

/// The height that a pass over the content needs.
pub open spec fn content_height(end_y: int, used: int, least: int, pad: int) -> int {
    larger(larger(end_y, used), least) + pad * 2
}

pub open spec fn window_height(locked: int, end_y: int, used: int, least: int, pad: int) -> int {
    larger(locked, content_height(end_y, used, least, pad))
}

/// One drawing: the popup before it, the pass, and the popup after it.
pub struct Drawing {
    pub before: Popup,
    pub pass: Pass,
    pub after: Popup,
    pub height: Option<i32>,
}

/// Drawings of an open popup that follow each other, with no click on a widget
/// and no closing between them: only these change the height that is kept.
pub open spec fn is_open_run(d: Seq<Drawing>) -> bool {
    &&& forall|i: int|
        0 <= i < d.len() ==> {
            &&& drawn_kind((#[trigger] d[i]).before).is_some()
            &&& rendered(d[i].before, d[i].pass, d[i].after, d[i].height)
        }
    &&& forall|i: int|
        0 < i < d.len() ==> (#[trigger] d[i]).before.locked_h == d[i - 1].after.locked_h
}

/// However often an open popup is drawn, and whatever it shows, its window only
/// grows, and has room for what is shown.
pub proof fn law_popup_only_grows(d: Seq<Drawing>, i: int, j: int)
    requires
        is_open_run(d),
        0 <= i <= j < d.len(),
    ensures
        d[i].height.is_some() && d[j].height.is_some(),
        d[i].height->0 <= d[j].height->0,
        d[j].height->0 >= content_height(
            d[j].pass.end_y as int,
            d[j].pass.used as int,
            d[j].pass.least as int,
            d[j].pass.pad as int,
        ),
    decreases j - i,
{
    assert(rendered(d[i].before, d[i].pass, d[i].after, d[i].height));
    assert(rendered(d[j].before, d[j].pass, d[j].after, d[j].height));
    if i < j {
        law_popup_only_grows(d, i, j - 1);
        assert(rendered(d[j - 1].before, d[j - 1].pass, d[j - 1].after, d[j - 1].height));
        assert(d[j].before.locked_h == d[j - 1].after.locked_h);
    }
}

/// A closed popup is not drawn, and what was drawn for it changes nothing.
pub proof fn law_closed_popup_stays(a: Popup, pass: Pass, b: Popup, h: Option<i32>)
    requires
        rendered(a, pass, b, h),
        !a.visible || a.kind.is_none(),
    ensures
        b == a,
        h.is_none(),
{
}

/// A second click on the widget of an open popup closes it, and the click that
/// closed a popup by taking its focus does not open it again.
pub proof fn law_second_click_closes(p: Popup, closed: u64, now: u64)
    requires
        p.visible,
        p.kind.is_some(),
        closed <= now < closed + JUST_HIDDEN_MS,
    ensures
        !opens(p, p.kind->0, now as int),
        !opens(
            (Popup { visible: false, hidden_at: Some(closed), ..p }),
            p.kind->0,
            now as int,
        ),
{
}

// ---------------------------------------------------------------------------
// Where it stands

/// A division by two that drops the fraction, towards zero.
pub open spec fn halved(v: int) -> int {
    if v >= 0 {
        v / 2
    } else {
        -((-v) / 2)
    }
}

fn half(v: i64) -> (r: i64)
    requires
        v > i64::MIN,
    ensures
        r == halved(v as int),
{
    if v >= 0 {
        v / 2
    } else {
        -((-v) / 2)
    }
}

/// `v` limited to the range, which is not empty.
pub open spec fn limited(v: int, low: int, high: int) -> int {
    if v < low {
        low
    } else if v > high {
        high
    } else {
        v
    }
}

/// The left side: the popup is centred on the widget, but stays a margin away
/// from both sides of the screen, of the left one first.
pub open spec fn popup_x(anchor: Rect, screen: Rect, w: int, margin: int) -> int {
    limited(
        halved(anchor.left + anchor.right) - w / 2,
        screen.left + margin,
        larger(screen.right - margin - w, screen.left + margin),
    )
}

/// The top: a margin above the taskbar, or below one at the top of the screen.
pub open spec fn popup_y(tray: Rect, screen: Rect, h: int, margin: int) -> int {
    if tray.top > screen.top + 10 {
        tray.top - h - margin
    } else {
        tray.bottom + margin
    }
}

/// Where the window of size `w` by `h` stands on the screen.
pub fn place(anchor: Rect, tray: Rect, screen: Rect, w: i32, h: i32, margin: i32) -> (r: (i32, i32))
    requires
        0 <= w,
        0 <= h,
        0 <= margin,
        i32::MIN <= popup_x(anchor, screen, w as int, margin as int) <= i32::MAX,
        i32::MIN <= popup_y(tray, screen, h as int, margin as int) <= i32::MAX,
    ensures
        r.0 == popup_x(anchor, screen, w as int, margin as int),
        r.1 == popup_y(tray, screen, h as int, margin as int),
{
    let cx: i64 = half(anchor.left as i64 + anchor.right as i64);
    let wanted: i64 = cx - (w / 2) as i64;
    let low: i64 = screen.left as i64 + margin as i64;
    let high0: i64 = screen.right as i64 - margin as i64 - w as i64;
    let high: i64 = if high0 > low {
        high0
    } else {
        low
    };
    let x: i64 = if wanted < low {
        low
    } else if wanted > high {
        high
    } else {
        wanted
    };
    let y: i64 = if tray.top as i64 > screen.top as i64 + 10 {
        tray.top as i64 - h as i64 - margin as i64
    } else {
        tray.bottom as i64 + margin as i64
    };
    (x as i32, y as i32)
}

/// A popup that fits the screen stands inside it, a margin away from its
/// sides.
pub proof fn law_popup_is_on_screen(anchor: Rect, screen: Rect, w: int, margin: int)
    requires
        w >= 0,
        margin >= 0,
        w + 2 * margin <= screen.right - screen.left,
    ensures
        screen.left + margin <= popup_x(anchor, screen, w, margin),
        popup_x(anchor, screen, w, margin) + w <= screen.right - margin,
{
}

// ---------------------------------------------------------------------------
// The tooltip

/// Text being wrapped: the lines that are complete, and the one that grows.
pub struct Wrap {
    pub lines: Vec<String>,
    pub line: String,
}

/// The lines so far, the growing one last.
pub open spec fn all_lines(w: Wrap) -> Seq<Seq<char>> {
    text::views(w.lines@).push(w.line@)
}

impl Wrap {
    pub fn new() -> (r: Wrap)
        ensures
            r.lines@.len() == 0,
            r.line@.len() == 0,
    {
        Wrap { lines: Vec::new(), line: String::new() }
    }

    /// The growing line with one more word.
    pub open spec fn longer(self, word: Seq<char>) -> Seq<char> {
        if self.line@.len() == 0 {
            word
        } else {
            self.line@ + " "@ + word
        }
    }

    pub fn candidate(&self, word: &str) -> (r: String)
        ensures
            r@ == self.longer(word@),
    {
        if text::chars_of(self.line.as_str()).len() == 0 {
            word.to_string()
        } else {
            let mut s: String = self.line.clone();
            s.append(" ");
            s.append(word);
            s
        }
    }

    /// Takes a word: onto the line if it fits there, else onto a new one. A
    /// line always takes its first word.
    pub fn put(&mut self, word: &str, fits: bool)
        ensures
            if fits || old(self).line@.len() == 0 {
                &&& final(self).line@ == old(self).longer(word@)
                &&& final(self).lines@ == old(self).lines@
            } else {
                &&& final(self).line@ == word@
                &&& final(self).lines@ == old(self).lines@.push(old(self).line)
            },
    {
        if fits || text::chars_of(self.line.as_str()).len() == 0 {
            self.line = self.candidate(word);
        } else {
            let mut next: String = word.to_string();
            std::mem::swap(&mut next, &mut self.line);
            self.lines.push(next);
        }
    }
}

/// Wrapping loses nothing: with spaces between them the lines read as before,
/// and the new word behind.
pub proof fn law_wrapping_keeps_words(before: Wrap, after: Wrap, word: Seq<char>, fits: bool)
    requires
        if fits || before.line@.len() == 0 {
            &&& after.line@ == before.longer(word)
            &&& after.lines@ == before.lines@
        } else {
            &&& after.line@ == word
            &&& after.lines@ == before.lines@.push(before.line)
        },
        before.line@.len() > 0,
    ensures
        text::join_with(all_lines(after), " "@) == text::join_with(all_lines(before), " "@) + " "@
            + word,
{
    let b = all_lines(before);
    let a = all_lines(after);
    let sp = " "@;
    if fits {
        assert(a.drop_last() =~= b.drop_last());
        if b.len() == 1 {
            assert(text::join_with(a, sp) =~= text::join_with(b, sp) + sp + word);
        } else {
            assert(text::join_with(a, sp) =~= text::join_with(b, sp) + sp + word);
        }
    } else {
        assert(a.drop_last() =~= b);
    }
}

/// Where the box of a tooltip goes: above the label, below it where there is
/// no room, and not over the right side of the content.
pub open spec fn tip_box(tip: Area, content_w: int, w: int, h: int, gap: int) -> (int, int) {
    (
        larger(
            if tip.x < content_w - w {
                tip.x as int
            } else {
                content_w - w
            },
            0,
        ),
        if tip.y - h - gap >= 0 {
            tip.y - h - gap
        } else {
            tip.y + tip.h + gap
        },
    )
}

/// `r` is the box of a tooltip of `w` by `h`, as wide as the content at most.
pub open spec fn is_tooltip(tip: Area, content_w: int, w: int, h: int, gap: int, r: Area) -> bool {
    &&& r.w == (if w < content_w {
        w
    } else {
        content_w
    })
    &&& r.h == h
    &&& (r.x as int, r.y as int) == tip_box(tip, content_w, r.w as int, r.h as int, gap)
}

/// The place of the box for `lines` lines of text, `text_w` by `line_h` each at
/// most, with room around them.
pub fn tooltip(
    tip: Area,
    content_w: i32,
    text_w: i32,
    line_h: i32,
    lines: usize,
    px: i32,
    py: i32,
    gap: i32,
) -> (r: Area)
    requires
        0 <= content_w,
        0 <= text_w && 0 <= line_h && 0 <= px && 0 <= py && 0 <= gap,
        text_w + px * 2 <= i32::MAX,
        line_h * lines + py * 2 <= i32::MAX,
        i32::MIN <= tip.y - (line_h * lines + py * 2) - gap,
        tip.y + tip.h + gap <= i32::MAX,
        i32::MIN <= tip.y + tip.h,
    ensures
        is_tooltip(
            tip,
            content_w as int,
            text_w + px * 2,
            line_h * lines + py * 2,
            gap as int,
            r,
        ),
{
    let w0: i32 = text_w + px * 2;
    let w: i32 = if w0 < content_w {
        w0
    } else {
        content_w
    };
    assert(0 <= line_h * lines <= 0x7fff_ffff * 0xffff_ffff_ffff_ffff) by (nonlinear_arith)
        requires
            0 <= line_h <= 0x7fff_ffff,
            0 <= lines <= 0xffff_ffff_ffff_ffff,
    ;
    let h: i32 = (line_h as i128 * lines as i128 + py as i128 * 2) as i32;
    let right: i32 = content_w - w;
    let x0: i32 = if tip.x < right {
        tip.x
    } else {
        right
    };
    let x: i32 = if x0 > 0 {
        x0
    } else {
        0
    };
    let above: i64 = tip.y as i64 - h as i64 - gap as i64;
    let y: i32 = if above >= 0 {
        above as i32
    } else {
        tip.y + tip.h + gap
    };
    Area { x, y, w, h }
}

// ---------------------------------------------------------------------------
// Small figures of the drawing

fn brighter(c: u8) -> (r: u8)
    ensures
        r == c + (255 - c) * 3 / 10,
{
    c + ((255 - c as u16) * 3 / 10) as u8
}

/// Each colour of `r` is three tenths nearer to white.
pub open spec fn is_lighter(c: Color, r: Color) -> bool {
    &&& r.r == c.r + (255 - c.r) * 3 / 10
    &&& r.g == c.g + (255 - c.g) * 3 / 10
    &&& r.b == c.b + (255 - c.b) * 3 / 10
    &&& r.a == c.a
}

/// A lighter shade, for the slice under the pointer.
pub fn lighten(c: Color) -> (r: Color)
    ensures
        is_lighter(c, r),
{
    Color { r: brighter(c.r), g: brighter(c.g), b: brighter(c.b), a: c.a }
}

/// The rows of a process list that are filled, and those that are kept free so
/// that the height stays the same.
pub fn process_rows(found: usize, wanted: usize) -> (r: (usize, usize))
    ensures
        r.0 == (if found < wanted {
            found
        } else {
            wanted
        }),
        r.0 + r.1 == wanted,
{
    if found < wanted {
        (found, wanted - found)
    } else {
        (wanted, 0)
    }
}

/// The lengths that a row with a bar is made of.
#[derive(Clone, Copy, Debug, PartialEq, Eq, Structural)]
pub struct BarRow {
    /// Room for the label.
    pub label: i32,
    /// Between the label and the bar.
    pub before: i32,
    /// Between the bar and the value.
    pub after: i32,
    /// Room for the value, which a long one exceeds.
    pub value: i32,
    /// The bar's height.
    pub height: i32,
}

impl BarRow {
    /// Where the bar ends: the value and the space before it are left.
    pub open spec fn end(self, w: int, text_w: int) -> int {
        w - larger(self.value as int, text_w) - self.after
    }

    /// `r` is the bar of a row at `y`.
    pub open spec fn is_bar(self, w: int, y: int, text_w: int, text_h: int, r: Area) -> bool {
        &&& r.x == self.label + self.before
        &&& r.x + r.w == self.end(w, text_w)
        &&& r.y == y + halved(text_h - self.height)
        &&& r.h == self.height
    }

    /// The bar of a row at `y` in content of width `w`, whose value takes
    /// `text_w` by `text_h`: between the label and the value, and in the middle
    /// of the text's height.
    pub fn bar(self, w: i32, y: i32, text_w: i32, text_h: i32) -> (r: Area)
        requires
            i32::MIN <= self.label + self.before <= i32::MAX,
            i32::MIN <= self.end(w as int, text_w as int) - (self.label + self.before) <= i32::MAX,
            i32::MIN <= y + halved(text_h - self.height) <= i32::MAX,
        ensures
            self.is_bar(w as int, y as int, text_w as int, text_h as int, r),
    {
        let x: i32 = self.label + self.before;
        let value: i32 = if text_w > self.value {
            text_w
        } else {
            self.value
        };
        let end: i64 = w as i64 - value as i64 - self.after as i64;
        let down: i64 = half(text_h as i64 - self.height as i64);
        Area {
            x,
            y: (y as i64 + down) as i32,
            w: (end - x as i64) as i32,
            h: self.height,
        }
    }
}

/// The width of a core's bar in a box: what is left beside gaps and dividers,
/// shared out, but at least a pixel.
pub open spec fn core_bar(w: int, n: int, gap: int, pad: int, breaks: int, per_break: int) -> int {
    let room = w - pad * 2 - gap * (n - 1) - breaks * per_break;
    if room >= n {
        room / n
    } else {
        1
    }
}

/// What the bars take together, with gaps and dividers.
pub open spec fn core_total(bar: int, n: int, gap: int, breaks: int, per_break: int) -> int {
    bar * n + gap * (n - 1) + breaks * per_break
}

/// The width of a core's bar in a box of width `w`, and where the first of them
/// begins so that all are centred.
pub fn core_bars(w: i32, cores: usize, gap: i32, pad: i32, extra: i32, breaks: usize) -> (r: (
    i32,
    i32,
))
    requires
        0 <= gap && 0 <= pad && 0 <= extra,
        cores <= i32::MAX,
        breaks <= cores,
        ({
            let n = larger(cores as int, 1);
            let per = 2 * extra + 1 + gap;
            let bar = core_bar(w as int, n, gap as int, pad as int, breaks as int, per);
            core_total(bar, n, gap as int, breaks as int, per) <= i32::MAX
        }),
    ensures
        ({
            let n = larger(cores as int, 1);
            let per = 2 * extra + 1 + gap;
            let bar = core_bar(w as int, n, gap as int, pad as int, breaks as int, per);
            &&& r.0 == bar
            &&& r.1 == halved(w - core_total(bar, n, gap as int, breaks as int, per))
        }),
{
    let n: i128 = if cores > 1 {
        cores as i128
    } else {
        1
    };
    let b: i128 = breaks as i128;
    let g: i128 = gap as i128;
    let per: i128 = 2 * (extra as i128) + 1 + g;
    assert(0 <= g * (n - 1) <= 0x7fff_ffff * 0x7fff_ffff) by (nonlinear_arith)
        requires
            0 <= g <= 0x7fff_ffff,
            1 <= n <= 0x7fff_ffff,
    ;
    assert(0 <= b * per <= 0x7fff_ffff * 0x4_0000_0000) by (nonlinear_arith)
        requires
            0 <= b <= 0x7fff_ffff,
            0 <= per <= 0x4_0000_0000,
    ;
    let room: i128 = w as i128 - pad as i128 * 2 - g * (n - 1) - b * per;
    let bar: i128 = if room >= n {
        room / n
    } else {
        1
    };
    assert(room >= n ==> 1 <= bar <= room && 0 <= bar * n <= room) by (nonlinear_arith)
        requires
            n >= 1,
            room >= n ==> bar == room / n,
    ;
    assert(1 * n == n);
    let total: i128 = bar * n + g * (n - 1) + b * per;
    let start: i64 = half((w as i128 - total) as i64);
    (bar as i32, start as i32)
}

/// A click on a widget shows that widget's module where the widget is; a second
/// click closes it, and one after a while opens it again.
pub proof fn law_clicks_open_and_close(
    a: Popup,
    kind: Kind,
    anchor: Rect,
    tray: Rect,
    r: bool,
    b: Popup,
    second: u64,
    r2: bool,
    c: Popup,
    third: u64,
    r3: bool,
    d: Popup,
    now: u64,
)
    requires
        toggled(a, kind, anchor, tray, now, r, b),
        !a.visible,
        a.hidden_at.is_none(),
        toggled(b, kind, anchor, tray, second, r2, c),
        toggled(c, kind, anchor, tray, third, r3, d),
        second <= third,
    ensures
        r && b.visible && b.kind == Some(kind) && b.anchor == anchor && b.tray == tray,
        !r2 && !c.visible && c.hidden_at == Some(second),
        r3 == (third - second >= 300),
        d.visible == r3,
        r3 ==> d.kind == Some(kind),
{
}

/// A click on the widget of another module shows that module, whether the popup
/// is open or was closed just now.
pub proof fn law_another_widget_is_shown(
    a: Popup,
    kind: Kind,
    anchor: Rect,
    tray: Rect,
    now: u64,
    r: bool,
    b: Popup,
)
    requires
        toggled(a, kind, anchor, tray, now, r, b),
        a.kind != Some(kind),
    ensures
        r && b.visible && b.kind == Some(kind) && b.anchor == anchor && b.tray == tray,
        b.hits@.len() == 0 && b.tips@.len() == 0 && b.hover.is_none() && b.tip.is_none(),
{
}

proof fn lemma_first_inside(areas: Seq<Area>, x: int, y: int, from: int)
    requires
        0 <= from <= areas.len(),
    ensures
        match first_inside(areas, x, y, from) {
            Some(i) => from <= i < areas.len() && inside(areas[i], x, y) && forall|j: int|
                from <= j < i ==> !inside(#[trigger] areas[j], x, y),
            None => forall|j: int| from <= j < areas.len() ==> !inside(#[trigger] areas[j], x, y),
        },
    decreases areas.len() - from,
{
    if from < areas.len() && !inside(areas[from], x, y) {
        lemma_first_inside(areas, x, y, from + 1);
    }
}

/// A click on a row that no earlier row covers is a click on that row: its
/// place is counted from the content's corner, which is `pad` inside the window.
pub proof fn law_click_is_of_the_row_under_it(p: Popup, x: int, y: int, i: int)
    requires
        0 <= i < p.hits@.len(),
        p.hits@[i].area.x <= x - p.pad < p.hits@[i].area.x + p.hits@[i].area.w,
        p.hits@[i].area.y <= y - p.pad < p.hits@[i].area.y + p.hits@[i].area.h,
        forall|j: int|
            0 <= j < i ==> !({
                let a = (#[trigger] p.hits@[j]).area;
                a.x <= x - p.pad < a.x + a.w && a.y <= y - p.pad < a.y + a.h
            }),
    ensures
        hit_index(p, x, y) == Some(i),
{
    let areas = hit_areas(p.hits@);
    lemma_first_inside(areas, x - p.pad, y - p.pad, 0);
    assert(areas[i] == p.hits@[i].area);
    match hit_index(p, x, y) {
        Some(k) => {
            assert(areas[k] == p.hits@[k].area);
            if k > i {
                assert(!inside(areas[i], x - p.pad, y - p.pad));
            }
        },
        None => {
            assert(!inside(areas[i], x - p.pad, y - p.pad));
        },
    }
}

/// Only a point in a row is a click on one.
pub proof fn law_click_beside_the_rows_is_none(p: Popup, x: int, y: int)
    ensures
        hit_index(p, x, y) matches Some(i) ==> 0 <= i < p.hits@.len() && {
            let a = p.hits@[i].area;
            a.x <= x - p.pad < a.x + a.w && a.y <= y - p.pad < a.y + a.h
        },
        tip_index(p, x, y) matches Some(i) ==> 0 <= i < p.tips@.len() && {
            let a = p.tips@[i].area;
            a.x <= x - p.pad < a.x + a.w && a.y <= y - p.pad < a.y + a.h
        },
{
    lemma_first_inside(hit_areas(p.hits@), x - p.pad, y - p.pad, 0);
    lemma_first_inside(tip_areas(p.tips@), x - p.pad, y - p.pad, 0);
}

/// The popup never covers the taskbar: it ends a margin above one at the bottom
/// of the screen, and begins a margin below one at the top.
pub proof fn law_popup_leaves_the_taskbar_free(tray: Rect, screen: Rect, h: int, margin: int)
    requires
        h >= 0,
        margin >= 0,
    ensures
        tray.top > screen.top + 10 ==> popup_y(tray, screen, h, margin) + h == tray.top - margin,
        tray.top <= screen.top + 10 ==> popup_y(tray, screen, h, margin) == tray.bottom + margin,
{
}

/// Where nothing keeps it away, the popup stands over the middle of its widget:
/// the middles are less than two half pixels apart.
pub proof fn law_popup_is_over_its_widget(anchor: Rect, screen: Rect, w: int, margin: int)
    requires
        w >= 0,
        margin >= 0,
        anchor.left + anchor.right >= 2 * (screen.left + margin) + w + 2,
        anchor.left + anchor.right <= 2 * (screen.right - margin) - w - 2,
    ensures
        -2 <= 2 * popup_x(anchor, screen, w, margin) + w - (anchor.left + anchor.right) <= 2,
{
}

/// The box of a tooltip lies within the width of the content and does not cover
/// the label that it belongs to; it is above it wherever there is room.
pub proof fn law_tooltip_shows_its_label(
    tip: Area,
    content_w: int,
    w: int,
    h: int,
    gap: int,
    r: Area,
)
    requires
        is_tooltip(tip, content_w, w, h, gap, r),
        0 <= w && 0 <= h && 0 <= gap && 0 <= content_w,
        0 <= tip.h,
    ensures
        0 <= r.x && r.x + r.w <= content_w,
        r.w <= w && (w <= content_w ==> r.w == w) && r.h == h,
        r.y + r.h + gap == tip.y || r.y == tip.y + tip.h + gap,
        tip.y >= h + gap ==> r.y >= 0 && r.y + r.h <= tip.y,
        0 <= tip.x <= content_w - r.w ==> r.x == tip.x,
{
}

/// A lighter shade has more of each colour that was not full, keeps the order of
/// two colours, and is as opaque as before.
pub proof fn law_lighter_is_lighter(c: Color, r: Color)
    requires
        is_lighter(c, r),
    ensures
        c.r <= r.r && c.g <= r.g && c.b <= r.b && r.a == c.a,
        c.r <= 251 ==> r.r > c.r,
        c.g <= 251 ==> r.g > c.g,
        c.b <= 251 ==> r.b > c.b,
        c.r <= c.g ==> r.r <= r.g,
        c.g <= c.b ==> r.g <= r.b,
        c.b <= c.r ==> r.b <= r.r,
        c.g <= c.r ==> r.g <= r.r,
{
}

/// The bar of a row begins behind the room for the label, ends before the value,
/// however long that is, and has as much space above it as below it, to a pixel.
pub proof fn law_bar_is_between_label_and_value(
    b: BarRow,
    w: int,
    y: int,
    text_w: int,
    text_h: int,
    r: Area,
)
    requires
        b.is_bar(w, y, text_w, text_h, r),
        0 <= b.before && 0 <= b.after,
    ensures
        r.x >= b.label,
        r.x + r.w <= w - text_w,
        r.x + r.w <= w - b.value,
        r.x + r.w + b.after == w - text_w || r.x + r.w + b.after == w - b.value,
        r.h == b.height,
        -1 <= (r.y - y) - (y + text_h - (r.y + r.h)) <= 1,
{
}

/// Bars for which there is room leave the padding free on both sides, and fewer
/// pixels than there are cores stay unused.
pub proof fn law_core_bars_fit(w: int, n: int, gap: int, pad: int, breaks: int, per: int)
    requires
        n >= 1,
        w - pad * 2 - gap * (n - 1) - breaks * per >= n,
    ensures
        ({
            let bar = core_bar(w, n, gap, pad, breaks, per);
            let total = core_total(bar, n, gap, breaks, per);
            &&& bar >= 1
            &&& total <= w - pad * 2
            &&& w - pad * 2 - total < n
        }),
{
    let room = w - pad * 2 - gap * (n - 1) - breaks * per;
    let bar = room / n;
    assert(bar >= 1 && bar * n <= room && room - bar * n < n) by (nonlinear_arith)
        requires
            n >= 1,
            room >= n,
            bar == room / n,
    ;
}

} // verus!
