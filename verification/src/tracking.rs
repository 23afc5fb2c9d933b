//! A menu that stays open: which clicks are taken while it is up, how an open
//! menu takes over a fresh one, and the colour squares beside its entries.

use crate::canvas::Color;
use vstd::prelude::*;

verus! {

/// Bit of a highlighted entry.
pub const HILITE: u32 = 0x80;

/// Bits of an entry that cannot be chosen.
pub const GRAYED: u32 = 0x1;

pub const DISABLED: u32 = 0x2;

/// A command or state that is none.
pub const NONE: u32 = 0xffff_ffff;

/// The class of menu windows, "#32768".
pub open spec fn menu_class() -> Seq<u16> {
    seq![35u16, 51u16, 50u16, 55u16, 54u16, 56u16]
}

/// Whether a window of that class is a menu.
pub fn is_menu_window(class: &[u16]) -> (r: bool)
    ensures
        r == (class@ == menu_class()),
{
    if class.len() != 6 {
        return false;
    }
    let r: bool = class[0] == 35 && class[1] == 51 && class[2] == 50 && class[3] == 55 && class[4]
        == 54 && class[5] == 56;
    proof {
        if r {
            assert(class@ =~= menu_class());
        }
    }
    r
}

/// What the mouse does while a menu is up.
#[derive(Clone, Copy, Debug, PartialEq, Eq, Structural)]
pub enum Press {
    /// A button goes down, or down twice.
    Down,
    Up,
    Other,
}

/// The entry under the pointer.
#[derive(Clone, Copy, Debug, PartialEq, Eq, Structural)]
pub struct Target {
    pub id: u32,
    /// Its command keeps the menu open.
    pub sticky: bool,
    pub state: u32,
}

/// An entry whose command is run on the spot.
pub open spec fn is_taken(t: Target) -> bool {
    &&& t.id != NONE
    &&& t.id != 0
    &&& t.sticky
    &&& t.state != NONE
    &&& t.state & (GRAYED | DISABLED) == 0
}

/// While a menu is up.
#[derive(Clone, Copy, Debug, PartialEq, Eq, Structural)]
pub struct Track {
    /// The press was taken, so its release is taken too.
    pub swallow_up: bool,
}

/// `r` says whether a press or release is taken.
pub open spec fn takes_press(
    before: Track,
    press: Press,
    target: Option<Target>,
    r: bool,
    after: Track,
) -> bool {
    &&& r == (match press {
        Press::Down => (match target {
            Some(t) => is_taken(t),
            None => false,
        }),
        Press::Up => before.swallow_up,
        Press::Other => false,
    })
    &&& after.swallow_up == (match press {
        Press::Down => before.swallow_up || r,
        Press::Up => false,
        Press::Other => before.swallow_up,
    })
}

impl Track {
    pub fn new() -> (r: Track)
        ensures
            !r.swallow_up,
    {
        Track { swallow_up: false }
    }

    /// Whether a press or release is taken, so that the menu does not see it.
    /// A press on a sticky entry is (its command is then run and the menu
    /// brought up to date), and the release that follows; nothing else is.
    pub fn takes(&mut self, press: Press, target: Option<Target>) -> (r: bool)
        ensures
            takes_press(*old(self), press, target, r, *final(self)),
    {
        match press {
            Press::Down => match target {
                Some(t) => {
                    if t.id == NONE || t.id == 0 || !t.sticky {
                        return false;
                    }
                    if t.state == NONE || t.state & (GRAYED | DISABLED) != 0 {
                        return false;
                    }
                    self.swallow_up = true;
                    true
                },
                None => false,
            },
            Press::Up => {
                let r: bool = self.swallow_up;
                self.swallow_up = false;
                r
            },
            Press::Other => false,
        }
    }
}

/// What an entry of the open menu takes from the entry at its place in a fresh
/// one.
#[derive(Clone, Copy, Debug, PartialEq, Eq, Structural)]
pub enum EntrySync {
    /// The two differ: it is left alone.
    Leave,
    /// State, title and picture.
    Copy,
    /// Those, and everything in the submenu.
    Descend,
}

/// Entries are matched by place and command; where the two menus differ the
/// entry is left alone.
pub fn sync_entry(open_sub: bool, fresh_sub: bool, open_id: u32, fresh_id: u32) -> (r: EntrySync)
    ensures
        r == (if open_sub != fresh_sub {
            EntrySync::Leave
        } else if open_sub {
            EntrySync::Descend
        } else if open_id != fresh_id {
            EntrySync::Leave
        } else {
            EntrySync::Copy
        }),
{
    if open_sub != fresh_sub {
        EntrySync::Leave
    } else if open_sub {
        EntrySync::Descend
    } else if open_id != fresh_id {
        EntrySync::Leave
    } else {
        EntrySync::Copy
    }
}

/// The fresh state, with the highlight where the open menu has it.
pub open spec fn merged(fresh: u32, open: u32) -> u32 {
    (fresh & !HILITE) | (open & HILITE)
}

pub fn merge_state(fresh: u32, open: u32) -> (r: u32)
    ensures
        r == merged(fresh, open),
{
    (fresh & !HILITE) | (open & HILITE)
}

/// The highlight stays where the open menu has it, and every other bit is the
/// fresh menu's.
pub proof fn law_highlight_stays(fresh: u32, open: u32)
    ensures
        merged(fresh, open) & HILITE == open & HILITE,
        merged(fresh, open) & !HILITE == fresh & !HILITE,
{
    assert(((fresh & !0x80u32) | (open & 0x80u32)) & 0x80u32 == open & 0x80u32) by (bit_vector);
    assert(((fresh & !0x80u32) | (open & 0x80u32)) & !0x80u32 == fresh & !0x80u32)
        by (bit_vector);
}

// ---------------------------------------------------------------------------
// The colour squares

/// The size of a square: that of a check mark, at least ten pixels.
pub fn square_size(check: i32) -> (r: i32)
    ensures
        r == (if check > 10 {
            check as int
        } else {
            10
        }),
{
    if check > 10 {
        check
    } else {
        10
    }
}

/// The colour of a square's rim: seven tenths of its own, so that white stays
/// visible.
pub fn rim(c: Color) -> (r: Color)
    ensures
        r.r == c.r as int * 7 / 10,
        r.g == c.g as int * 7 / 10,
        r.b == c.b as int * 7 / 10,
        r.a == 255,
{
    Color {
        r: (c.r as u32 * 7 / 10) as u8,
        g: (c.g as u32 * 7 / 10) as u8,
        b: (c.b as u32 * 7 / 10) as u8,
        a: 255,
    }
}

/// Points that are looked at in a pixel.
pub const POINTS: u32 = 16;

/// A channel of a pixel of which `inner` points lie in the square and `outer`
/// in the square or its rim.
pub open spec fn shared(fill: u8, rim: u8, inner: int, outer: int) -> int {
    (fill * inner + rim * (outer - inner)) / 16
}

fn share_of(fill: u8, rim: u8, inner: u32, outer: u32) -> (r: u32)
    requires
        inner <= outer <= POINTS,
    ensures
        r == shared(fill, rim, inner as int, outer as int),
        r <= 255,
{
    let edge: u32 = outer - inner;
    assert(fill * inner + rim * edge <= 255 * 16) by (nonlinear_arith)
        requires
            0 <= fill <= 255,
            0 <= rim <= 255,
            0 <= inner,
            0 <= edge,
            inner + edge <= 16,
    ;
    assert(0 <= fill * inner && 0 <= rim * edge) by (nonlinear_arith)
        requires
            0 <= fill,
            0 <= rim,
            0 <= inner,
            0 <= edge,
    ;
    (fill as u32 * inner + rim as u32 * edge) / 16
}

/// The number of a pixel: opacity, red, green and blue from the highest byte
/// down.
pub open spec fn pixel(c: Color, inner: int, outer: int) -> int {
    let red = (c.r as int * 7 / 10) as u8;
    let green = (c.g as int * 7 / 10) as u8;
    let blue = (c.b as int * 7 / 10) as u8;
    outer * 255 / 16 * 0x100_0000 + shared(c.r, red, inner, outer) * 0x1_0000 + shared(
        c.g,
        green,
        inner,
        outer,
    ) * 0x100 + shared(c.b, blue, inner, outer)
}

/// A pixel of a square, its colours multiplied by its opacity.
pub fn square_pixel(c: Color, inner: u32, outer: u32) -> (r: u32)
    requires
        inner <= outer <= POINTS,
    ensures
        r == pixel(c, inner as int, outer as int),
{
    let e: Color = rim(c);
    let a: u32 = outer * 255 / 16;
    let red: u32 = share_of(c.r, e.r, inner, outer);
    let green: u32 = share_of(c.g, e.g, inner, outer);
    let blue: u32 = share_of(c.b, e.b, inner, outer);
    a * 0x100_0000 + red * 0x1_0000 + green * 0x100 + blue
}

/// A press that is taken has its release taken too, and one that is not taken has
/// it only where an earlier press still waits for it; after a release nothing
/// waits.
pub proof fn law_release_follows_its_press(
    t0: Track,
    target: Option<Target>,
    down: bool,
    t1: Track,
    any: Option<Target>,
    up: bool,
    t2: Track,
)
    requires
        takes_press(t0, Press::Down, target, down, t1),
        takes_press(t1, Press::Up, any, up, t2),
    ensures
        !t0.swallow_up ==> up == down,
        down ==> up,
        !t2.swallow_up,
        down ==> (target matches Some(t) && t.sticky && t.id != 0 && t.id != 0xffff_ffff),
        target.is_none() ==> !down,
        target matches Some(t) ==> (t.id != 0 && t.id != 0xffff_ffff && t.sticky && t.state == 0 ==> down),
        target matches Some(t) ==> (t.state & 0x1 != 0 || t.state & 0x2 != 0 ==> !down),
{
    if let Some(t) = target {
        let s = t.state;
        assert(0u32 & (0x1u32 | 0x2u32) == 0) by (bit_vector);
        assert(s & 0x1 != 0 ==> s & (0x1u32 | 0x2u32) != 0) by (bit_vector);
        assert(s & 0x2 != 0 ==> s & (0x1u32 | 0x2u32) != 0) by (bit_vector);
    }
}

/// A pixel inside the square has the colour itself, one outside it is clear, and
/// one that lies in the rim alone is darker in every channel.
pub proof fn law_squares_have_their_colour(c: Color)
    ensures
        pixel(c, 16, 16) == 0xff00_0000 + c.r * 0x1_0000 + c.g * 0x100 + c.b,
        pixel(c, 0, 0) == 0,
        pixel(c, 0, 16) == 0xff00_0000 + (c.r * 7 / 10) * 0x1_0000 + (c.g * 7 / 10) * 0x100 + (c.b
            * 7 / 10),
        c.r * 7 / 10 <= c.r && c.g * 7 / 10 <= c.g && c.b * 7 / 10 <= c.b,
{
    let red = (c.r as int * 7 / 10) as u8;
    let green = (c.g as int * 7 / 10) as u8;
    let blue = (c.b as int * 7 / 10) as u8;
    assert(red == c.r * 7 / 10 && green == c.g * 7 / 10 && blue == c.b * 7 / 10);
    lemma_rim_alone(c.r, red);
    lemma_rim_alone(c.g, green);
    lemma_rim_alone(c.b, blue);
}

proof fn lemma_rim_alone(fill: u8, rim: u8)
    ensures
        shared(fill, rim, 0, 16) == rim,
{
    assert((fill * 0 + rim * (16 - 0)) / 16 == rim) by (nonlinear_arith);
}

} // verus!
