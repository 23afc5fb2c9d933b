//! The About window: where its texts, logo and links stand, and what a click
//! in it does.

use crate::i18n::{self, Translator};
use crate::popup::{self, Rect};
use crate::text;
use vstd::prelude::*;

verus! {

pub const NAME: &'static str = "winstats";

pub const AUTHOR: &'static str = "Oleksandr Zhabotynskyi";

pub const REPO_URL: &'static str = "https://github.com/mgvs/winstats";

pub const REPO_TEXT: &'static str = "github.com/mgvs/winstats";

pub const LICENSE_URL: &'static str = "https://github.com/mgvs/winstats/blob/main/LICENSE";

/// A clickable part of the window; one without an address closes it.
#[derive(Clone, Copy)]
pub struct Link {
    pub rect: Rect,
    pub url: &'static str,
}

/// What a click does.
pub enum Click {
    Nothing,
    Close,
    Open(&'static str),
}

pub struct About {
    pub visible: bool,
    pub links: Vec<Link>,
}

/// The first link under a point, from `from` on.
pub open spec fn link_under(links: Seq<Link>, x: int, y: int, from: int) -> Option<int>
    decreases links.len() - from,
{
    if from < 0 || from >= links.len() {
        None
    } else if links[from].rect.holds(x, y) {
        Some(from)
    } else {
        link_under(links, x, y, from + 1)
    }
}

/// Click `r` at a point of window `a` leaves window `b`.
pub open spec fn is_click(a: About, x: int, y: int, r: Click, b: About) -> bool {
    match link_under(a.links@, x, y, 0) {
        None => r is Nothing && b == a,
        Some(i) => if a.links@[i].url@.len() == 0 {
            r is Close && b == (About { visible: false, ..a })
        } else {
            r == Click::Open(a.links@[i].url) && b == a
        },
    }
}

impl About {
    pub fn new() -> (r: About)
        ensures
            !r.visible,
            r.links@.len() == 0,
    {
        About { visible: false, links: Vec::new() }
    }

    /// Closes the window; whether it was open.
    pub fn close(&mut self) -> (r: bool)
        ensures
            r == old(self).visible,
            *final(self) == (About { visible: false, ..*old(self) }),
    {
        let was: bool = self.visible;
        self.visible = false;
        was
    }

    /// True when (x, y) is over a link (not the close button).
    pub fn is_link_at(&self, x: i32, y: i32) -> (r: bool)
        ensures
            r == exists|i: int|
                0 <= i < self.links@.len() && (#[trigger] self.links@[i]).url@.len() > 0
                    && self.links@[i].rect.holds(x as int, y as int),
    {
        let mut i: usize = 0;
        while i < self.links.len()
            invariant
                i <= self.links.len(),
                forall|j: int|
                    0 <= j < i ==> !((#[trigger] self.links@[j]).url@.len() > 0
                        && self.links@[j].rect.holds(x as int, y as int)),
            decreases self.links.len() - i,
        {
            if text::chars_of(self.links[i].url).len() > 0 && self.links[i].rect.contains(x, y) {
                return true;
            }
            i += 1;
        }
        false
    }

    /// A click opens the first link under it, or closes the window.
    pub fn click(&mut self, x: i32, y: i32) -> (r: Click)
        ensures
            is_click(*old(self), x as int, y as int, r, *final(self)),
    {
        let mut i: usize = 0;
        while i < self.links.len()
            invariant
                *self == *old(self),
                i <= self.links.len(),
                link_under(self.links@, x as int, y as int, 0) == link_under(
                    self.links@,
                    x as int,
                    y as int,
                    i as int,
                ),
            decreases self.links.len() - i,
        {
            if self.links[i].rect.contains(x, y) {
                let url: &'static str = self.links[i].url;
                if text::chars_of(url).len() == 0 {
                    self.visible = false;
                    return Click::Close;
                }
                return Click::Open(url);
            }
            i += 1;
        }
        Click::Nothing
    }
}

/// The sides of a rectangle with room around it fit in 32 bits.
pub open spec fn has_room(r: Rect, p: i32) -> bool {
    &&& i32::MIN <= r.left - p <= i32::MAX
    &&& i32::MIN <= r.top - p <= i32::MAX
    &&& i32::MIN <= r.right + p <= i32::MAX
    &&& i32::MIN <= r.bottom + p <= i32::MAX
}

/// A rectangle with room around it.
pub fn pad_rect(r: Rect, p: i32) -> (o: Rect)
    requires
        has_room(r, p),
    ensures
        o.left == r.left - p,
        o.top == r.top - p,
        o.right == r.right + p,
        o.bottom == r.bottom + p,
{
    Rect { left: r.left - p, top: r.top - p, right: r.right + p, bottom: r.bottom + p }
}

// ---------------------------------------------------------------------------
// The layout

/// The pixels of the window's parts.
#[derive(Clone, Copy)]
pub struct Sizes {
    pub w: i32,
    pub h: i32,
    /// Distance of the close button from the right, and from the top.
    pub close_right: i32,
    pub close_top: i32,
    /// Room around the close button that reacts to a click.
    pub close_pad: i32,
    pub logo: i32,
    pub logo_top: i32,
    pub logo_pad: i32,
    pub bar_gap: i32,
    /// Space under the logo, the name, the version, the copyright, and between
    /// the links.
    pub under_logo: i32,
    pub under_name: i32,
    pub under_version: i32,
    pub under_copyright: i32,
    pub between_links: i32,
    /// Room around a link that reacts to a click.
    pub link_pad: i32,
}

/// The size of a text.
#[derive(Clone, Copy)]
pub struct Extent {
    pub w: i32,
    pub h: i32,
}

/// The sizes of the texts: the close sign, the name, the version, the
/// copyright and the two links.
#[derive(Clone, Copy)]
pub struct Texts {
    pub close: Extent,
    pub name: Extent,
    pub version: Extent,
    pub copyright: Extent,
    pub repo: Extent,
    pub license: Extent,
}

/// Bars in the logo.
pub const LOGO_BARS: i32 = 7;

/// Where everything stands.
pub struct Layout {
    pub close: Rect,
    pub logo: Rect,
    pub bar_w: i32,
    /// The left side of each bar of the logo.
    pub bars: Vec<i32>,
    pub name: Rect,
    pub version: Rect,
    pub copyright: Rect,
    pub repo: Rect,
    pub license: Rect,
}

/// A text in the middle of the window, from `y` down.
pub open spec fn is_centred(r: Rect, w: i32, e: Extent, y: int) -> bool {
    &&& r.left == popup::halved(w - e.w)
    &&& r.right == r.left + e.w
    &&& r.top == y
    &&& r.bottom == y + e.h
}

fn half(v: i64) -> (r: i64)
    requires
        v > i64::MIN,
    ensures
        r == popup::halved(v as int),
{
    if v >= 0 {
        v / 2
    } else {
        -((-v) / 2)
    }
}

pub open spec fn fits(v: int) -> bool {
    i32::MIN <= v <= i32::MAX
}

/// The place of a text in the middle of the window, from `y` down, is within
/// the coordinates of a screen.
pub open spec fn text_fits(w: i32, e: Extent, y: int) -> bool {
    &&& fits(popup::halved(w - e.w))
    &&& fits(popup::halved(w - e.w) + e.w)
    &&& fits(y)
    &&& fits(y + e.h)
}

fn centred(w: i32, e: Extent, y: i64) -> (r: Rect)
    requires
        text_fits(w, e, y as int),
    ensures
        is_centred(r, w, e, y as int),
{
    let x: i64 = half(w as i64 - e.w as i64);
    Rect {
        left: x as i32,
        top: y as i32,
        right: (x + e.w as i64) as i32,
        bottom: (y + e.h as i64) as i32,
    }
}

/// A division by seven that drops the fraction, towards zero.
pub open spec fn seventh(v: int) -> int {
    if v >= 0 {
        v / 7
    } else {
        -((-v) / 7)
    }
}

fn seventh_of(v: i64) -> (r: i64)
    requires
        v > i64::MIN,
    ensures
        r == seventh(v as int),
{
    if v >= 0 {
        v / 7
    } else {
        -((-v) / 7)
    }
}

/// The width of a bar of the logo.
pub open spec fn logo_bar(s: Sizes) -> int {
    seventh(s.logo - s.logo_pad * 2 - s.bar_gap * 6)
}

/// Where the first bar of the logo begins: the bars are centred in it.
pub open spec fn logo_start(s: Sizes) -> int {
    popup::halved(s.w - s.logo) + popup::halved(s.logo - (logo_bar(s) * 7 + s.bar_gap * 6))
}

/// The left side of a bar of the logo.
pub open spec fn logo_bar_left(s: Sizes, i: int) -> int {
    logo_start(s) + i * (logo_bar(s) + s.bar_gap)
}

/// Where the name, the version, the copyright and the links begin: each below
/// the one before it.
pub open spec fn name_top(s: Sizes) -> int {
    s.logo_top + s.logo + s.under_logo
}

pub open spec fn version_top(s: Sizes, t: Texts) -> int {
    name_top(s) + t.name.h + s.under_name
}

pub open spec fn copyright_top(s: Sizes, t: Texts) -> int {
    version_top(s, t) + t.version.h + s.under_version
}

pub open spec fn repo_top(s: Sizes, t: Texts) -> int {
    copyright_top(s, t) + t.copyright.h + s.under_copyright
}

pub open spec fn license_top(s: Sizes, t: Texts) -> int {
    repo_top(s, t) + t.repo.h + s.between_links
}

/// Every place in the window is within the coordinates of a screen.
pub open spec fn all_fit(s: Sizes, t: Texts) -> bool {
    &&& fits(s.w - s.close_right - t.close.w)
    &&& fits(s.w - s.close_right)
    &&& fits(s.close_top + t.close.h)
    &&& fits(popup::halved(s.w - s.logo))
    &&& fits(popup::halved(s.w - s.logo) + s.logo)
    &&& fits(s.logo_top + s.logo)
    &&& fits(logo_bar(s))
    &&& forall|i: int|
        0 <= i < LOGO_BARS ==> fits(#[trigger] logo_bar_left(s, i))
    &&& text_fits(s.w, t.name, name_top(s))
    &&& text_fits(s.w, t.version, version_top(s, t))
    &&& text_fits(s.w, t.copyright, copyright_top(s, t))
    &&& text_fits(s.w, t.repo, repo_top(s, t))
    &&& text_fits(s.w, t.license, license_top(s, t))
}

/// `r` is the layout of the window.
pub open spec fn is_layout(s: Sizes, t: Texts, r: Layout) -> bool {
    &&& r.close.left == s.w - s.close_right - t.close.w
    &&& r.close.right == r.close.left + t.close.w
    &&& r.close.top == s.close_top
    &&& r.close.bottom == s.close_top + t.close.h
    &&& r.logo.left == popup::halved(s.w - s.logo)
    &&& r.logo.right == r.logo.left + s.logo
    &&& r.logo.top == s.logo_top
    &&& r.logo.bottom == s.logo_top + s.logo
    &&& r.bar_w == logo_bar(s)
    &&& r.bars@.len() == LOGO_BARS
    &&& forall|i: int| 0 <= i < LOGO_BARS ==> #[trigger] r.bars@[i] == logo_bar_left(s, i)
    &&& is_centred(r.name, s.w, t.name, r.logo.bottom + s.under_logo)
    &&& is_centred(r.version, s.w, t.version, r.name.bottom + s.under_name)
    &&& is_centred(r.copyright, s.w, t.copyright, r.version.bottom + s.under_version)
    &&& is_centred(r.repo, s.w, t.repo, r.copyright.bottom + s.under_copyright)
    &&& is_centred(r.license, s.w, t.license, r.repo.bottom + s.between_links)
}

/// Lays the window out: the close sign at the top right, then from top to
/// bottom, each in the middle, the logo, the name, the version, the copyright
/// and the links.
pub fn lay_out(s: Sizes, t: Texts) -> (r: Layout)
    requires
        all_fit(s, t),
    ensures
        is_layout(s, t, r),
{
    let cx: i64 = s.w as i64 - s.close_right as i64 - t.close.w as i64;
    let close: Rect = Rect {
        left: cx as i32,
        top: s.close_top,
        right: (cx + t.close.w as i64) as i32,
        bottom: (s.close_top as i64 + t.close.h as i64) as i32,
    };
    let lx: i64 = half(s.w as i64 - s.logo as i64);
    let logo: Rect = Rect {
        left: lx as i32,
        top: s.logo_top,
        right: (lx + s.logo as i64) as i32,
        bottom: (s.logo_top as i64 + s.logo as i64) as i32,
    };
    let gap: i64 = s.bar_gap as i64;
    let bar_w: i64 = seventh_of(s.logo as i64 - s.logo_pad as i64 * 2 - gap * 6);
    let x0: i64 = lx + half(s.logo as i64 - (bar_w * 7 + gap * 6));
    let step: i64 = bar_w + gap;
    let mut bars: Vec<i32> = Vec::new();
    let mut i: i64 = 0;
    let mut x: i64 = x0;
    while i < LOGO_BARS as i64
        invariant
            all_fit(s, t),
            0 <= i <= LOGO_BARS,
            bars@.len() == i,
            -0x2_0000_0000 <= step <= 0x2_0000_0000,
            -0x20_0000_0000 <= x0 <= 0x20_0000_0000,
            x0 == logo_start(s),
            step == logo_bar(s) + s.bar_gap,
            x == x0 + i * step,
            forall|j: int| 0 <= j < i ==> #[trigger] bars@[j] == logo_bar_left(s, j),
        decreases LOGO_BARS - i,
    {
        assert(-7 * 0x2_0000_0000 <= i * step <= 7 * 0x2_0000_0000) by (nonlinear_arith)
            requires
                0 <= i <= 7,
                -0x2_0000_0000 <= step <= 0x2_0000_0000,
        ;
        assert((i + 1) * step == i * step + step) by (nonlinear_arith);
        assert(x == logo_bar_left(s, i as int));
        bars.push(x as i32);
        x = x + step;
        i += 1;
    }
    let y1: i64 = s.logo_top as i64 + s.logo as i64 + s.under_logo as i64;
    let name: Rect = centred(s.w, t.name, y1);
    let y2: i64 = y1 + t.name.h as i64 + s.under_name as i64;
    let version: Rect = centred(s.w, t.version, y2);
    let y3: i64 = y2 + t.version.h as i64 + s.under_version as i64;
    let copyright: Rect = centred(s.w, t.copyright, y3);
    let y4: i64 = y3 + t.copyright.h as i64 + s.under_copyright as i64;
    let repo: Rect = centred(s.w, t.repo, y4);
    let y5: i64 = y4 + t.repo.h as i64 + s.between_links as i64;
    let license: Rect = centred(s.w, t.license, y5);
    Layout { close, logo, bar_w: bar_w as i32, bars, name, version, copyright, repo, license }
}

pub open spec fn padded(r: Rect, p: int, o: Rect) -> bool {
    o.left == r.left - p && o.top == r.top - p && o.right == r.right + p && o.bottom == r.bottom + p
}

/// `r` are the parts of the window that react to a click.
pub open spec fn are_links(l: Layout, s: Sizes, r: Seq<Link>) -> bool {
    &&& r.len() == 3
    &&& padded(l.close, s.close_pad as int, r[0].rect) && r[0].url@ == ""@
    &&& padded(l.repo, s.link_pad as int, r[1].rect) && r[1].url@ == REPO_URL@
    &&& padded(l.license, s.link_pad as int, r[2].rect) && r[2].url@ == LICENSE_URL@
}

/// The parts of the window that react to a click: the close sign and the two
/// links, each with room around it.
pub fn links_of(l: &Layout, s: Sizes) -> (r: Vec<Link>)
    requires
        has_room(l.close, s.close_pad),
        has_room(l.repo, s.link_pad),
        has_room(l.license, s.link_pad),
    ensures
        are_links(*l, s, r@),
{
    let mut r: Vec<Link> = Vec::new();
    r.push(Link { rect: pad_rect(l.close, s.close_pad), url: "" });
    r.push(Link { rect: pad_rect(l.repo, s.link_pad), url: REPO_URL });
    r.push(Link { rect: pad_rect(l.license, s.link_pad), url: LICENSE_URL });
    r
}

/// A window of that size at `r` is in the middle of the screen.
pub open spec fn is_centre(screen: Rect, w: int, h: int, r: (i32, i32)) -> bool {
    &&& r.0 == screen.left + popup::halved(screen.right - screen.left - w)
    &&& r.1 == screen.top + popup::halved(screen.bottom - screen.top - h)
}

/// The window in the middle of the screen's free part.
pub fn centre(screen: Rect, w: i32, h: i32) -> (r: (i32, i32))
    requires
        i32::MIN <= screen.left + popup::halved(screen.right - screen.left - w) <= i32::MAX,
        i32::MIN <= screen.top + popup::halved(screen.bottom - screen.top - h) <= i32::MAX,
    ensures
        is_centre(screen, w as int, h as int, r),
{
    let dx: i64 = screen.right as i64 - screen.left as i64 - w as i64;
    let dy: i64 = screen.bottom as i64 - screen.top as i64 - h as i64;
    let hx: i64 = if dx >= 0 {
        dx / 2
    } else {
        -((-dx) / 2)
    };
    let hy: i64 = if dy >= 0 {
        dy / 2
    } else {
        -((-dy) / 2)
    };
    ((screen.left as i64 + hx) as i32, (screen.top as i64 + hy) as i32)
}

/// The line with the version.
pub fn version_text(tr: &Translator, version: &str) -> (r: String)
    ensures
        r@ == i18n::filled(i18n::text_of(*tr, "about.version"@), seq![("v"@, version@)]),
{
    let args: [(&str, &str); 1] = [("v", version)];
    assert(i18n::arg_views(args@) =~= seq![("v"@, version@)]);
    tr.tf("about.version", &args)
}

/// The line with the author and the year.
pub fn copyright_text(year: u16) -> (r: String)
    ensures
        r@ == "\u{00A9} "@ + AUTHOR@ + " "@ + text::decimal(year as nat),
{
    let mut s: String = "\u{00A9} ".to_string();
    s.append(AUTHOR);
    s.append(" ");
    s.append(text::number(year as u64).as_str());
    s
}

/// Everything in the window stands in its middle, below what comes before it: as
/// much room on the left as on the right, to a pixel, and no text over another.
pub proof fn law_texts_stand_below_each_other(s: Sizes, t: Texts, r: Layout)
    requires
        is_layout(s, t, r),
        0 <= s.under_logo && 0 <= s.under_name && 0 <= s.under_version && 0 <= s.under_copyright && 0
            <= s.between_links,
        0 <= s.logo && 0 <= t.name.h && 0 <= t.version.h && 0 <= t.copyright.h && 0 <= t.repo.h && 0
            <= t.license.h,
    ensures
        r.logo.bottom <= r.name.top <= r.name.bottom <= r.version.top <= r.version.bottom
            <= r.copyright.top <= r.copyright.bottom <= r.repo.top <= r.repo.bottom <= r.license.top
            <= r.license.bottom,
        -1 <= r.logo.left - (s.w - r.logo.right) <= 1,
        -1 <= r.name.left - (s.w - r.name.right) <= 1,
        -1 <= r.version.left - (s.w - r.version.right) <= 1,
        -1 <= r.copyright.left - (s.w - r.copyright.right) <= 1,
        -1 <= r.repo.left - (s.w - r.repo.right) <= 1,
        -1 <= r.license.left - (s.w - r.license.right) <= 1,
        r.name.right - r.name.left == t.name.w && r.version.right - r.version.left == t.version.w,
        r.copyright.right - r.copyright.left == t.copyright.w && r.repo.right - r.repo.left
            == t.repo.w && r.license.right - r.license.left == t.license.w,
        r.close.right == s.w - s.close_right && r.close.right - r.close.left == t.close.w,
{
}

/// The bars of the logo are as far apart as the gap says, stand inside it, and
/// leave as much room on its left as on its right, to a pixel.
pub proof fn law_logo_bars_are_centred(s: Sizes, t: Texts, r: Layout, i: int)
    requires
        is_layout(s, t, r),
        0 <= i < 6,
    ensures
        r.bars@[i] + r.bar_w + s.bar_gap == r.bars@[i + 1],
        -1 <= (r.bars@[0] - r.logo.left) - (r.logo.right - (r.bars@[6] + r.bar_w)) <= 1,
        s.logo_pad * 2 + s.bar_gap * 6 <= s.logo ==> r.bars@[0] - r.logo.left >= s.logo_pad,
{
    let step = logo_bar(s) + s.bar_gap;
    assert((i + 1) * step == i * step + step) by (nonlinear_arith);
    assert(0 * step == 0);
    assert(r.bars@[i] == logo_bar_left(s, i) && r.bars@[i + 1] == logo_bar_left(s, i + 1));
    assert(r.bars@[0] == logo_bar_left(s, 0) && r.bars@[6] == logo_bar_left(s, 6));
    assert(logo_bar(s) * 7 == 7 * logo_bar(s));
}

/// A click on the address of the project opens it, one on the licence opens that,
/// and one on the close sign closes the window; a click beside them does nothing.
pub proof fn law_clicks_follow_the_links(
    s: Sizes,
    t: Texts,
    l: Layout,
    a: About,
    x: int,
    y: int,
    r: Click,
    b: About,
)
    requires
        is_layout(s, t, l),
        are_links(l, s, a.links@),
        is_click(a, x, y, r, b),
        0 <= s.close_pad && 0 <= s.link_pad,
        l.close.bottom + s.close_pad <= l.repo.top,
        2 * s.link_pad <= s.between_links,
        0 <= t.repo.h,
    ensures
        l.close.holds(x, y) ==> r is Close && !b.visible,
        l.repo.holds(x, y) ==> (r matches Click::Open(u) && u@ == REPO_URL@) && b == a,
        l.license.holds(x, y) ==> (r matches Click::Open(u) && u@ == LICENSE_URL@) && b == a,
        !(l.close.left - s.close_pad <= x < l.close.right + s.close_pad) && !(l.repo.left - s.link_pad
            <= x < l.repo.right + s.link_pad) && !(l.license.left - s.link_pad <= x < l.license.right
            + s.link_pad) ==> r is Nothing && b == a,
{
    let k = a.links@;
    reveal_with_fuel(link_under, 4);
    reveal_strlit("");
    reveal_strlit("https://github.com/mgvs/winstats");
    reveal_strlit("https://github.com/mgvs/winstats/blob/main/LICENSE");
    assert(k[0].url@.len() == 0 && k[1].url@.len() > 0 && k[2].url@.len() > 0);
}

/// A window in the middle of the screen has as much room on its left as on its
/// right and above it as below it, to a pixel.
pub proof fn law_window_is_in_the_middle(screen: Rect, w: int, h: int, r: (i32, i32))
    requires
        is_centre(screen, w, h, r),
    ensures
        -1 <= (r.0 - screen.left) - (screen.right - (r.0 + w)) <= 1,
        -1 <= (r.1 - screen.top) - (screen.bottom - (r.1 + h)) <= 1,
{
}

} // verus!
