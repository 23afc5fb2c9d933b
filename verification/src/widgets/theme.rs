//! Colours of the widgets: colour modes, the palette, and which colour a value
//! is drawn in.

use crate::canvas::{self, Color};
use crate::number::Single;
use crate::text;
use crate::widgets::{self, Kind};
use vstd::prelude::*;

verus! {

/// How a module is coloured.
#[derive(Clone, Copy, Debug, PartialEq, Eq, Structural)]
pub enum ColorMode {
    /// Charts in the accent colour, text values in the plain text colour.
    Accent,
    /// Green, yellow, orange, red by value.
    Utilization,
    /// Everything in the text colour.
    Mono,
    Fixed(Color),
}

#[verifier::allow_in_spec]
pub fn blue() -> (c: Color)
    returns
        (Color { r: 0x2e, g: 0x7c, b: 0xf6, a: 255 }),
{
    Color { r: 0x2e, g: 0x7c, b: 0xf6, a: 255 }
}

/// A colour of the palette: its name in the configuration, the key of its
/// title, the colour.
pub struct Swatch {
    pub name: &'static str,
    pub title: &'static str,
    pub color: Color,
}

/// The palette. "system" stands for the Windows accent colour.
pub open spec fn palette_list() -> Seq<(Seq<char>, Seq<char>, Color)> {
    seq![
        ("system"@, "colour.system"@, Color { r: 0x2e, g: 0x7c, b: 0xf6, a: 255 }),
        ("blue"@, "colour.blue"@, Color { r: 0x2e, g: 0x7c, b: 0xf6, a: 255 }),
        ("green"@, "colour.green"@, Color { r: 0x34, g: 0xc7, b: 0x59, a: 255 }),
        ("red"@, "colour.red"@, Color { r: 0xff, g: 0x3b, b: 0x30, a: 255 }),
        ("orange"@, "colour.orange"@, Color { r: 0xff, g: 0x95, b: 0x00, a: 255 }),
        ("yellow"@, "colour.yellow"@, Color { r: 0xff, g: 0xcc, b: 0x00, a: 255 }),
        ("purple"@, "colour.purple"@, Color { r: 0xaf, g: 0x52, b: 0xde, a: 255 }),
        ("pink"@, "colour.pink"@, Color { r: 0xff, g: 0x2d, b: 0x55, a: 255 }),
        ("teal"@, "colour.teal"@, Color { r: 0x30, g: 0xb0, b: 0xc7, a: 255 }),
        ("cyan"@, "colour.cyan"@, Color { r: 0x32, g: 0xad, b: 0xe6, a: 255 }),
        ("indigo"@, "colour.indigo"@, Color { r: 0x58, g: 0x56, b: 0xd6, a: 255 }),
        ("white"@, "colour.white"@, Color { r: 0xff, g: 0xff, b: 0xff, a: 255 }),
        ("black"@, "colour.black"@, Color { r: 0x00, g: 0x00, b: 0x00, a: 255 }),
    ]
}

pub open spec fn swatch_view(s: Swatch) -> (Seq<char>, Seq<char>, Color) {
    (s.name@, s.title@, s.color)
}

fn swatch(name: &'static str, title: &'static str, r: u8, g: u8, b: u8) -> (s: Swatch)
    ensures
        swatch_view(s) == (name@, title@, Color { r, g, b, a: 255 }),
{
    Swatch { name, title, color: Color { r, g, b, a: 255 } }
}

pub fn palette() -> (r: Vec<Swatch>)
    ensures
        r@.map_values(|s: Swatch| swatch_view(s)) == palette_list(),
{
    let mut r: Vec<Swatch> = Vec::new();
    r.push(swatch("system", "colour.system", 0x2e, 0x7c, 0xf6));
    r.push(swatch("blue", "colour.blue", 0x2e, 0x7c, 0xf6));
    r.push(swatch("green", "colour.green", 0x34, 0xc7, 0x59));
    r.push(swatch("red", "colour.red", 0xff, 0x3b, 0x30));
    r.push(swatch("orange", "colour.orange", 0xff, 0x95, 0x00));
    r.push(swatch("yellow", "colour.yellow", 0xff, 0xcc, 0x00));
    r.push(swatch("purple", "colour.purple", 0xaf, 0x52, 0xde));
    r.push(swatch("pink", "colour.pink", 0xff, 0x2d, 0x55));
    r.push(swatch("teal", "colour.teal", 0x30, 0xb0, 0xc7));
    r.push(swatch("cyan", "colour.cyan", 0x32, 0xad, 0xe6));
    r.push(swatch("indigo", "colour.indigo", 0x58, 0x56, 0xd6));
    r.push(swatch("white", "colour.white", 0xff, 0xff, 0xff));
    r.push(swatch("black", "colour.black", 0x00, 0x00, 0x00));
    assert(r@.map_values(|s: Swatch| swatch_view(s)) =~= palette_list());
    r
}

/// The colour of that name in the palette, from `from` on.
pub open spec fn palette_color(name: Seq<char>, from: int) -> Option<Color>
    decreases palette_list().len() - from,
{
    if from < 0 || from >= palette_list().len() {
        None
    } else if palette_list()[from].0 == name {
        Some(palette_list()[from].2)
    } else {
        palette_color(name, from + 1)
    }
}

/// The colour a name stands for; `system` is the Windows accent colour, where
/// there is one.
pub open spec fn color_of(name: Seq<char>, system: Option<Color>) -> Option<Color> {
    if name == "system"@ {
        Some(
            match system {
                Some(c) => c,
                None => blue(),
            },
        )
    } else {
        match palette_color(name, 0) {
            Some(c) => Some(c),
            None => canvas::parsed_color(name),
        }
    }
}

/// Palette name or "#RRGGBB" to a colour.
pub fn named_color(name: &str, system: Option<Color>) -> (r: Option<Color>)
    ensures
        r == color_of(name@, system),
{
    if text::same(name, "system") {
        return Some(
            match system {
                Some(c) => c,
                None => blue(),
            },
        );
    }
    let p: Vec<Swatch> = palette();
    let ghost v = p@.map_values(|s: Swatch| swatch_view(s));
    let mut i: usize = 0;
    while i < p.len()
        invariant
            v == p@.map_values(|s: Swatch| swatch_view(s)),
            v == palette_list(),
            i <= p.len(),
            palette_color(name@, 0) == palette_color(name@, i as int),
            name@ != "system"@,
        decreases p.len() - i,
    {
        assert(v[i as int] == swatch_view(p@[i as int]));
        if text::same(p[i].name, name) {
            return Some(p[i].color);
        }
        i += 1;
    }
    Color::from_hex(name)
}

/// The mode that a setting stands for; what stands for none is the accent.
pub open spec fn mode_of(s: Seq<char>, system: Option<Color>) -> ColorMode {
    if s == "accent"@ || s.len() == 0 {
        ColorMode::Accent
    } else if s == "utilization"@ {
        ColorMode::Utilization
    } else if s == "mono"@ {
        ColorMode::Mono
    } else {
        match color_of(s, system) {
            Some(c) => ColorMode::Fixed(c),
            None => ColorMode::Accent,
        }
    }
}

impl ColorMode {
    pub fn parse(s: &str, system: Option<Color>) -> (r: ColorMode)
        ensures
            r == mode_of(s@, system),
    {
        if text::same(s, "accent") || text::chars_of(s).len() == 0 {
            ColorMode::Accent
        } else if text::same(s, "utilization") {
            ColorMode::Utilization
        } else if text::same(s, "mono") {
            ColorMode::Mono
        } else {
            match named_color(s, system) {
                Some(c) => ColorMode::Fixed(c),
                None => ColorMode::Accent,
            }
        }
    }
}

/// How the widgets look.
pub struct Theme {
    pub text: Color,
    pub dim: Color,
    pub accent: Color,
    pub light: bool,
    pub scale: Single,
    pub inner_h: i32,
    pub labels: bool,
    /// Multiplier for widget text.
    pub font_scale: Single,
    /// Draw a gap and a divider between cores of different classes.
    pub split_pe: bool,
    /// Width of chart widgets, unscaled.
    pub chart_w: Single,
    /// Width of one core's bar, unscaled.
    pub bar_w: u32,
    /// Colour mode per module, in the order of the modules.
    pub modes: [ColorMode; 6],
}

#[verifier::allow_in_spec]
pub fn dark_yellow() -> (c: Color)
    returns
        (Color { r: 0xb8, g: 0x86, b: 0x00, a: 255 }),
{
    Color { r: 0xb8, g: 0x86, b: 0x00, a: 255 }
}

#[verifier::allow_in_spec]
pub fn dark_orange() -> (c: Color)
    returns
        (Color { r: 0xe0, g: 0x5a, b: 0x00, a: 255 }),
{
    Color { r: 0xe0, g: 0x5a, b: 0x00, a: 255 }
}

#[verifier::allow_in_spec]
pub fn dark_red() -> (c: Color)
    returns
        (Color { r: 0xd3, g: 0x2f, b: 0x2f, a: 255 }),
{
    Color { r: 0xd3, g: 0x2f, b: 0x2f, a: 255 }
}

/// The colour of a utilisation: the base below six tenths, then yellow, orange
/// and red, in darker shades on a light taskbar.
pub open spec fn usage_shade(light: bool, v: Single, base: Color) -> Color {
    let step = canvas::usage_step(v);
    if step == 0 {
        base
    } else if step == 1 {
        if light {
            dark_yellow()
        } else {
            canvas::yellow()
        }
    } else if step == 2 {
        if light {
            dark_orange()
        } else {
            canvas::orange()
        }
    } else {
        if light {
            dark_red()
        } else {
            canvas::red()
        }
    }
}

pub open spec fn mode_in(t: Theme, k: Kind) -> ColorMode {
    t.modes@[widgets::module_rank(k)]
}

pub open spec fn chart_shade(t: Theme, k: Kind, v: Single) -> Color {
    match mode_in(t, k) {
        ColorMode::Accent => t.accent,
        ColorMode::Utilization => usage_shade(t.light, v, t.accent),
        ColorMode::Mono => t.text,
        ColorMode::Fixed(c) => c,
    }
}

pub open spec fn value_shade(t: Theme, k: Kind, v: Single) -> Color {
    match mode_in(t, k) {
        ColorMode::Accent => t.text,
        ColorMode::Mono => t.text,
        ColorMode::Utilization => usage_shade(t.light, v, t.text),
        ColorMode::Fixed(c) => c,
    }
}

impl Theme {
    pub fn mode(&self, k: Kind) -> (r: ColorMode)
        ensures
            r == mode_in(*self, k),
    {
        let i: usize = k.rank();
        self.modes[i]
    }

    /// Utilisation colour, in darker shades on a light taskbar so that yellow
    /// and orange stay readable.
    pub fn usage(&self, v: Single, base: Color) -> (r: Color)
        ensures
            r == usage_shade(self.light, v, base),
    {
        if self.light {
            match canvas::step_of(v) {
                0 => base,
                1 => dark_yellow(),
                2 => dark_orange(),
                _ => dark_red(),
            }
        } else {
            canvas::usage_color(v, base)
        }
    }

    /// Colour for chart geometry (bars, lines) of a module at value `v`, from
    /// 0 to 1.
    pub fn chart_color(&self, k: Kind, v: Single) -> (r: Color)
        ensures
            r == chart_shade(*self, k, v),
    {
        match self.mode(k) {
            ColorMode::Accent => self.accent,
            ColorMode::Utilization => self.usage(v, self.accent),
            ColorMode::Mono => self.text,
            ColorMode::Fixed(c) => c,
        }
    }

    /// Colour for a text value of a module.
    pub fn value_color(&self, k: Kind, v: Single) -> (r: Color)
        ensures
            r == value_shade(*self, k, v),
    {
        match self.mode(k) {
            ColorMode::Accent => self.text,
            ColorMode::Mono => self.text,
            ColorMode::Utilization => self.usage(v, self.text),
            ColorMode::Fixed(c) => c,
        }
    }
}

/// Every name of the palette stands for a fixed colour.
pub proof fn law_palette_names_are_colours(i: int, system: Option<Color>)
    requires
        0 <= i < palette_list().len(),
    ensures
        color_of(palette_list()[i].0, system).is_some(),
        mode_of(palette_list()[i].0, system) is Fixed,
{
    let n = palette_list()[i].0;
    lemma_palette_color(n, 0, i);
    reveal_strlit("accent");
    reveal_strlit("utilization");
    reveal_strlit("mono");
    reveal_strlit("system");
    reveal_strlit("blue");
    reveal_strlit("green");
    reveal_strlit("red");
    reveal_strlit("orange");
    reveal_strlit("yellow");
    reveal_strlit("purple");
    reveal_strlit("pink");
    reveal_strlit("teal");
    reveal_strlit("cyan");
    reveal_strlit("indigo");
    reveal_strlit("white");
    reveal_strlit("black");
    assert(n[0] != 'a' && n[0] != 'u');
    assert("accent"@[0] == 'a' && "utilization"@[0] == 'u' && "mono"@[0] == 'm');
    assert(n[0] != 'm');
}

proof fn lemma_palette_color(name: Seq<char>, from: int, at: int)
    requires
        0 <= from <= at < palette_list().len(),
        palette_list()[at].0 == name,
    ensures
        palette_color(name, from).is_some(),
    decreases at - from,
{
    if palette_list()[from].0 != name {
        lemma_palette_color(name, from + 1, at);
    }
}

proof fn lemma_palette_first(name: Seq<char>, from: int, at: int)
    requires
        0 <= from <= at < palette_list().len(),
        palette_list()[at].0 == name,
        forall|j: int| from <= j < at ==> (#[trigger] palette_list()[j]).0 != name,
    ensures
        palette_color(name, from) == Some(palette_list()[at].2),
    decreases at - from,
{
    if from < at {
        lemma_palette_first(name, from + 1, at);
    }
}

/// A name of the palette stands for the colour beside it, whatever the accent
/// of the system is; only `system` stands for that accent.
pub proof fn law_names_stand_for_their_colours(i: int, system: Option<Color>)
    requires
        0 < i < palette_list().len(),
    ensures
        color_of(palette_list()[i].0, system) == Some(palette_list()[i].2),
        mode_of(palette_list()[i].0, system) == ColorMode::Fixed(palette_list()[i].2),
        color_of("system"@, system) == (if system.is_some() {
            system
        } else {
            Some(palette_list()[1].2)
        }),
        palette_list()[i].2.a == 255,
{
    law_palette_names_are_colours(i, system);
    reveal_strlit("system");
    reveal_strlit("blue");
    reveal_strlit("green");
    reveal_strlit("red");
    reveal_strlit("orange");
    reveal_strlit("yellow");
    reveal_strlit("purple");
    reveal_strlit("pink");
    reveal_strlit("teal");
    reveal_strlit("cyan");
    reveal_strlit("indigo");
    reveal_strlit("white");
    reveal_strlit("black");
    let l = palette_list();
    let n = l[i].0;
    assert("system"@.len() == 6 && "system"@[0] == 's');
    assert("blue"@.len() == 4 && "blue"@[0] == 'b');
    assert("green"@.len() == 5 && "green"@[0] == 'g');
    assert("red"@.len() == 3);
    assert("orange"@.len() == 6 && "orange"@[0] == 'o');
    assert("yellow"@.len() == 6 && "yellow"@[0] == 'y');
    assert("purple"@.len() == 6 && "purple"@[0] == 'p');
    assert("pink"@.len() == 4 && "pink"@[0] == 'p');
    assert("teal"@.len() == 4 && "teal"@[0] == 't');
    assert("cyan"@.len() == 4 && "cyan"@[0] == 'c');
    assert("indigo"@.len() == 6 && "indigo"@[0] == 'i');
    assert("white"@.len() == 5 && "white"@[0] == 'w');
    assert("black"@.len() == 5 && "black"@[0] == 'b');
    assert forall|j: int| 0 <= j < i implies (#[trigger] l[j]).0 != n by {
        assert(l[j].0.len() != n.len() || l[j].0[0] != n[0]);
    }
    lemma_palette_first(n, 0, i);
}

/// A fixed colour and the text colour of a plain module are used for everything
/// of it; the accent is used for charts, and text stays plain.
pub proof fn law_modes_colour_charts_and_text(t: Theme, k: Kind, v: Single)
    ensures
        t.modes@[widgets::module_rank(k)] matches ColorMode::Fixed(c) ==> chart_shade(t, k, v) == c
            && value_shade(t, k, v) == c,
        t.modes@[widgets::module_rank(k)] == ColorMode::Mono ==> chart_shade(t, k, v) == t.text
            && value_shade(t, k, v) == t.text,
        t.modes@[widgets::module_rank(k)] == ColorMode::Accent ==> chart_shade(t, k, v) == t.accent
            && value_shade(t, k, v) == t.text,
        t.modes@[widgets::module_rank(k)] == ColorMode::Utilization && v.lt(
            Single { bits: canvas::SIX_TENTHS },
        ) ==> chart_shade(t, k, v) == t.accent && value_shade(t, k, v) == t.text,
        t.modes@[widgets::module_rank(k)] == ColorMode::Utilization && !v.lt(
            Single { bits: canvas::SIX_TENTHS },
        ) ==> chart_shade(t, k, v) == value_shade(t, k, v),
{
}

/// A higher utilisation is never shown in a calmer colour: less green in it, from
/// yellow over orange to red; and on a light taskbar every shade is darker.
pub proof fn law_shades_warn(light: bool, a: Single, b: Single, base: Color)
    requires
        !a.nan() && !b.nan(),
        !b.lt(a),
        !a.lt(Single { bits: canvas::SIX_TENTHS }),
    ensures
        usage_shade(light, b, base).g <= usage_shade(light, a, base).g,
        canvas::usage_step(a) < canvas::usage_step(b) ==> usage_shade(light, b, base).g < usage_shade(
            light,
            a,
            base,
        ).g,
        usage_shade(true, a, base).g < usage_shade(false, a, base).g,
        usage_shade(true, a, base).r < usage_shade(false, a, base).r,
        usage_shade(light, a, base).r > usage_shade(light, a, base).g,
        usage_shade(light, a, base).a == 255,
{
    canvas::law_steps_rise(a, b);
}

} // verus!
