//! The widgets themselves: what each shows, how wide it is, and where its bars
//! stand. Sizes are in pixels; those that depend on a font are measured by the
//! caller.

use crate::canvas::{self, Color};
use crate::metrics::battery::Battery;
use crate::metrics::local::{self, Metrics, Reading};
use crate::metrics::MetricsData;
use crate::number::{Double, Single};
use crate::popup::{self, Area};
use crate::text;
use crate::util;
use crate::widgets::theme::{self, ColorMode, Theme};
use crate::widgets::{self, Kind};
use vstd::prelude::*;

verus! {

/// A widget of the strip.
pub trait Widget {
    /// The widget's module.
    spec fn module(&self) -> Kind;

    fn kind(&self) -> (r: Kind)
        ensures
            r == self.module(),
    ;
}

/// The bar chart of the cores.
#[derive(Clone, Copy, Debug, PartialEq, Eq, Structural)]
pub struct CpuBars;

/// A line chart (CPU, GPU, memory).
#[derive(Clone, Copy, Debug, PartialEq, Eq, Structural)]
pub struct Line(pub Kind);

/// A label above a value.
#[derive(Clone, Copy, Debug, PartialEq, Eq, Structural)]
pub struct Mini(pub Kind);

/// Two rows with dots.
#[derive(Clone, Copy, Debug, PartialEq, Eq, Structural)]
pub struct Speed(pub Kind);

/// Used over free memory.
#[derive(Clone, Copy, Debug, PartialEq, Eq, Structural)]
pub struct MemText;

/// A chart of two series (network, disk).
#[derive(Clone, Copy, Debug, PartialEq, Eq, Structural)]
pub struct DualChart(pub Kind);

/// The battery's level.
#[derive(Clone, Copy, Debug, PartialEq, Eq, Structural)]
pub struct BatteryWidget;

/// Any of the widgets.
#[derive(Clone, Copy, Debug, PartialEq, Eq, Structural)]
pub enum AnyWidget {
    CpuBars(CpuBars),
    Line(Line),
    Mini(Mini),
    Speed(Speed),
    MemText(MemText),
    DualChart(DualChart),
    Battery(BatteryWidget),
}

impl Widget for CpuBars {
    open spec fn module(&self) -> Kind {
        Kind::Cpu
    }

    fn kind(&self) -> Kind {
        Kind::Cpu
    }
}

impl Widget for Line {
    open spec fn module(&self) -> Kind {
        self.0
    }

    fn kind(&self) -> Kind {
        self.0
    }
}

impl Widget for Mini {
    open spec fn module(&self) -> Kind {
        self.0
    }

    fn kind(&self) -> Kind {
        self.0
    }
}

impl Widget for Speed {
    open spec fn module(&self) -> Kind {
        self.0
    }

    fn kind(&self) -> Kind {
        self.0
    }
}

impl Widget for MemText {
    open spec fn module(&self) -> Kind {
        Kind::Mem
    }

    fn kind(&self) -> Kind {
        Kind::Mem
    }
}

impl Widget for DualChart {
    open spec fn module(&self) -> Kind {
        self.0
    }

    fn kind(&self) -> Kind {
        self.0
    }
}

impl Widget for BatteryWidget {
    open spec fn module(&self) -> Kind {
        Kind::Battery
    }

    fn kind(&self) -> Kind {
        Kind::Battery
    }
}

impl Widget for AnyWidget {
    open spec fn module(&self) -> Kind {
        match *self {
            AnyWidget::CpuBars(w) => w.module(),
            AnyWidget::Line(w) => w.module(),
            AnyWidget::Mini(w) => w.module(),
            AnyWidget::Speed(w) => w.module(),
            AnyWidget::MemText(w) => w.module(),
            AnyWidget::DualChart(w) => w.module(),
            AnyWidget::Battery(w) => w.module(),
        }
    }

    fn kind(&self) -> Kind {
        match self {
            AnyWidget::CpuBars(w) => w.kind(),
            AnyWidget::Line(w) => w.kind(),
            AnyWidget::Mini(w) => w.kind(),
            AnyWidget::Speed(w) => w.kind(),
            AnyWidget::MemText(w) => w.kind(),
            AnyWidget::DualChart(w) => w.kind(),
            AnyWidget::Battery(w) => w.kind(),
        }
    }
}

/// The widget of a name.
pub open spec fn widget_of(name: Seq<char>) -> Option<AnyWidget> {
    if name == "cpu_bars"@ {
        Some(AnyWidget::CpuBars(CpuBars))
    } else if name == "cpu_line"@ {
        Some(AnyWidget::Line(Line(Kind::Cpu)))
    } else if name == "cpu_mini"@ {
        Some(AnyWidget::Mini(Mini(Kind::Cpu)))
    } else if name == "gpu"@ {
        Some(AnyWidget::Mini(Mini(Kind::Gpu)))
    } else if name == "gpu_line"@ {
        Some(AnyWidget::Line(Line(Kind::Gpu)))
    } else if name == "mem"@ {
        Some(AnyWidget::Mini(Mini(Kind::Mem)))
    } else if name == "mem_line"@ {
        Some(AnyWidget::Line(Line(Kind::Mem)))
    } else if name == "mem_text"@ {
        Some(AnyWidget::MemText(MemText))
    } else if name == "disk"@ {
        Some(AnyWidget::Speed(Speed(Kind::Disk)))
    } else if name == "disk_chart"@ {
        Some(AnyWidget::DualChart(DualChart(Kind::Disk)))
    } else if name == "net"@ {
        Some(AnyWidget::Speed(Speed(Kind::Net)))
    } else if name == "net_chart"@ {
        Some(AnyWidget::DualChart(DualChart(Kind::Net)))
    } else if name == "battery"@ {
        Some(AnyWidget::Battery(BatteryWidget))
    } else {
        None
    }
}

fn build_one(name: &str) -> (r: Option<AnyWidget>)
    ensures
        r == widget_of(name@),
{
    if text::same(name, "cpu_bars") {
        Some(AnyWidget::CpuBars(CpuBars))
    } else if text::same(name, "cpu_line") {
        Some(AnyWidget::Line(Line(Kind::Cpu)))
    } else if text::same(name, "cpu_mini") {
        Some(AnyWidget::Mini(Mini(Kind::Cpu)))
    } else if text::same(name, "gpu") {
        Some(AnyWidget::Mini(Mini(Kind::Gpu)))
    } else if text::same(name, "gpu_line") {
        Some(AnyWidget::Line(Line(Kind::Gpu)))
    } else if text::same(name, "mem") {
        Some(AnyWidget::Mini(Mini(Kind::Mem)))
    } else if text::same(name, "mem_line") {
        Some(AnyWidget::Line(Line(Kind::Mem)))
    } else if text::same(name, "mem_text") {
        Some(AnyWidget::MemText(MemText))
    } else if text::same(name, "disk") {
        Some(AnyWidget::Speed(Speed(Kind::Disk)))
    } else if text::same(name, "disk_chart") {
        Some(AnyWidget::DualChart(DualChart(Kind::Disk)))
    } else if text::same(name, "net") {
        Some(AnyWidget::Speed(Speed(Kind::Net)))
    } else if text::same(name, "net_chart") {
        Some(AnyWidget::DualChart(DualChart(Kind::Net)))
    } else if text::same(name, "battery") {
        Some(AnyWidget::Battery(BatteryWidget))
    } else {
        None
    }
}

/// The widgets of a list of names; unknown names are passed over.
pub open spec fn built(names: Seq<Seq<char>>) -> Seq<AnyWidget>
    decreases names.len(),
{
    if names.len() == 0 {
        Seq::empty()
    } else {
        match widget_of(names.last()) {
            Some(w) => built(names.drop_last()).push(w),
            None => built(names.drop_last()),
        }
    }
}

pub fn build(names: &Vec<String>) -> (r: Vec<AnyWidget>)
    ensures
        r@ == built(text::views(names@)),
{
    let ghost v = text::views(names@);
    let mut r: Vec<AnyWidget> = Vec::new();
    let mut i: usize = 0;
    while i < names.len()
        invariant
            v == text::views(names@),
            i <= names.len(),
            r@ == built(v.take(i as int)),
        decreases names.len() - i,
    {
        proof {
            let t = v.take(i as int + 1);
            assert(t.drop_last() =~= v.take(i as int));
            assert(t.last() == names@[i as int]@);
        }
        if let Some(w) = build_one(names[i].as_str()) {
            r.push(w);
        }
        i += 1;
    }
    assert(v.take(v.len() as int) =~= v);
    r
}

proof fn lemma_widget_of(name: Seq<char>)
    ensures
        widget_of(name).is_some() <==> widgets::known(name),
        match widget_of(name) {
            Some(w) => widgets::kind_of(name) == Some(w.module()),
            None => true,
        },
{
    reveal_with_fuel(widgets::index_from, 14);
}

/// A list of known names is built name by name, each to a widget of its
/// module, so that the indices of both line up.
pub proof fn law_built_lines_up(names: Seq<Seq<char>>)
    requires
        forall|i: int| 0 <= i < names.len() ==> widgets::known(#[trigger] names[i]),
    ensures
        built(names).len() == names.len(),
        forall|i: int|
            0 <= i < names.len() ==> widgets::kind_of(names[i]) == Some(
                (#[trigger] built(names)[i]).module(),
            ),
    decreases names.len(),
{
    if names.len() > 0 {
        let d = names.drop_last();
        assert forall|i: int| 0 <= i < d.len() implies widgets::known(#[trigger] d[i]) by {
            assert(d[i] == names[i]);
        }
        law_built_lines_up(d);
        assert(widgets::known(names[names.len() - 1]));
        lemma_widget_of(names.last());
        assert forall|i: int| 0 <= i < names.len() implies widgets::kind_of(names[i]) == Some(
            (#[trigger] built(names)[i]).module(),
        ) by {
            if i < d.len() {
                assert(d[i] == names[i]);
                assert(built(names)[i] == built(d)[i]);
            }
        }
    }
}

// ---------------------------------------------------------------------------
// What a widget shows

pub open spec fn label_of(k: Kind) -> Seq<char> {
    match k {
        Kind::Cpu => "CPU"@,
        Kind::Gpu => "GPU"@,
        Kind::Mem => "RAM"@,
        Kind::Disk => "DSK"@,
        Kind::Net => "NET"@,
        Kind::Battery => "BAT"@,
    }
}

pub fn short_label(k: Kind) -> (r: &'static str)
    ensures
        r@ == label_of(k),
{
    match k {
        Kind::Cpu => "CPU",
        Kind::Gpu => "GPU",
        Kind::Mem => "RAM",
        Kind::Disk => "DSK",
        Kind::Net => "NET",
        Kind::Battery => "BAT",
    }
}

pub open spec fn value_in(k: Kind, m: MetricsData) -> Option<Single> {
    match k {
        Kind::Cpu => Some(m.cpu_total),
        Kind::Gpu => m.gpu,
        Kind::Mem => Some(m.mem.pct),
        _ => None,
    }
}

/// The value of a module, from 0 to 1, if it has one.
pub fn value(k: Kind, m: &MetricsData) -> (r: Option<Single>)
    ensures
        r == value_in(k, *m),
{
    match k {
        Kind::Cpu => Some(m.cpu_total),
        Kind::Gpu => m.gpu,
        Kind::Mem => Some(m.mem.pct),
        _ => None,
    }
}

fn copy_history(h: &std::collections::VecDeque<Single>) -> (r: Vec<Single>)
    ensures
        r@ == h@,
{
    let mut r: Vec<Single> = Vec::new();
    let mut i: usize = 0;
    while i < h.len()
        invariant
            i <= h.len(),
            r@ == h@.take(i as int),
        decreases h.len() - i,
    {
        r.push(h[i]);
        i += 1;
    }
    r
}

pub open spec fn history_in(k: Kind, m: MetricsData) -> Seq<Single> {
    match k {
        Kind::Cpu => m.cpu_history@,
        Kind::Gpu => m.gpu_history@,
        Kind::Mem => m.mem_history@,
        _ => Seq::empty(),
    }
}

/// The history of a module's value, oldest first.
pub fn history(k: Kind, m: &MetricsData) -> (r: Vec<Single>)
    ensures
        r@ == history_in(k, *m),
{
    match k {
        Kind::Cpu => copy_history(&m.cpu_history),
        Kind::Gpu => copy_history(&m.gpu_history),
        Kind::Mem => copy_history(&m.mem_history),
        _ => Vec::new(),
    }
}

/// A share in whole percent, or two dashes where there is none.
pub open spec fn percent(v: Option<i32>) -> Seq<char> {
    match v {
        Some(p) => text::signed_decimal(p as int) + "%"@,
        None => "--"@,
    }
}

pub fn pct_text(v: Option<i32>) -> (r: String)
    ensures
        r@ == percent(v),
{
    match v {
        Some(p) => {
            let mut s: String = text::signed_number(p as i64);
            s.append("%");
            s
        },
        None => "--".to_string(),
    }
}

#[verifier::allow_in_spec]
pub fn down_color() -> (c: Color)
    returns
        (Color { r: 0x2e, g: 0x9c, b: 0xf6, a: 255 }),
{
    Color { r: 0x2e, g: 0x9c, b: 0xf6, a: 255 }
}

#[verifier::allow_in_spec]
pub fn up_color() -> (c: Color)
    returns
        (Color { r: 0xf4, g: 0x43, b: 0x36, a: 255 }),
{
    Color { r: 0xf4, g: 0x43, b: 0x36, a: 255 }
}

#[verifier::allow_in_spec]
pub fn read_color() -> (c: Color)
    returns
        (Color { r: 0x9c, g: 0x6a, b: 0xf6, a: 255 }),
{
    Color { r: 0x9c, g: 0x6a, b: 0xf6, a: 255 }
}

#[verifier::allow_in_spec]
pub fn write_color() -> (c: Color)
    returns
        (Color { r: 0xff, g: 0x98, b: 0x00, a: 255 }),
{
    Color { r: 0xff, g: 0x98, b: 0x00, a: 255 }
}

pub open spec fn pair_shades(k: Kind, t: Theme) -> (Color, Color) {
    let plain = if k == Kind::Disk {
        (read_color(), write_color())
    } else {
        (down_color(), up_color())
    };
    match theme::mode_in(t, k) {
        ColorMode::Accent => plain,
        ColorMode::Utilization => plain,
        ColorMode::Mono => (t.text, t.dim),
        ColorMode::Fixed(c) => (c, plain.1),
    }
}

/// Colours of the two series (download and upload, read and write) under the
/// module's colour mode.
pub fn pair_colors(k: Kind, t: &Theme) -> (r: (Color, Color))
    ensures
        r == pair_shades(k, *t),
{
    let plain: (Color, Color) = if k == Kind::Disk {
        (read_color(), write_color())
    } else {
        (down_color(), up_color())
    };
    match t.mode(k) {
        ColorMode::Accent => plain,
        ColorMode::Utilization => plain,
        ColorMode::Mono => (t.text, t.dim),
        ColorMode::Fixed(c) => (c, plain.1),
    }
}

pub open spec fn rates_in(k: Kind, m: MetricsData, t: Theme) -> Seq<(Double, Color)> {
    if k == Kind::Disk {
        seq![(m.disk_read, pair_shades(k, t).0), (m.disk_write, pair_shades(k, t).1)]
    } else {
        seq![(m.net_rx, pair_shades(k, t).0), (m.net_tx, pair_shades(k, t).1)]
    }
}

/// The two rates of the disks or of the network, each with its colour.
pub fn pair_now(k: Kind, m: &MetricsData, t: &Theme) -> (r: [(Double, Color); 2])
    ensures
        r@ == rates_in(k, *m, *t),
{
    let (a, b) = pair_colors(k, t);
    let r: [(Double, Color); 2] = if k == Kind::Disk {
        [(m.disk_read, a), (m.disk_write, b)]
    } else {
        [(m.net_rx, a), (m.net_tx, b)]
    };
    assert(r@ =~= seq![r@[0], r@[1]]);
    r
}

pub open spec fn first_of() -> spec_fn((Single, Single)) -> Single {
    |p: (Single, Single)| p.0
}

pub open spec fn second_of() -> spec_fn((Single, Single)) -> Single {
    |p: (Single, Single)| p.1
}

/// Bits of 1048576, one MiB per second.
pub const DISK_FLOOR: u32 = 0x4980_0000;

/// Bits of 10240, ten KiB per second.
pub const NET_FLOOR: u32 = 0x4620_0000;

/// Two series, their colours, and the least value that a chart of them is
/// scaled to.
pub struct PairHistory {
    pub first: Vec<Single>,
    pub second: Vec<Single>,
    pub colors: (Color, Color),
    pub floor: Single,
}

pub open spec fn is_pair_history(k: Kind, m: MetricsData, t: Theme, r: PairHistory) -> bool {
    let h = if k == Kind::Disk {
        m.disk_history@
    } else {
        m.net_history@
    };
    &&& r.first@ == h.map_values(first_of())
    &&& r.second@ == h.map_values(second_of())
    &&& r.colors == pair_shades(k, t)
    &&& r.floor.bits == (if k == Kind::Disk {
        DISK_FLOOR
    } else {
        NET_FLOOR
    })
}

pub fn pair_history(k: Kind, m: &MetricsData, t: &Theme) -> (r: PairHistory)
    ensures
        is_pair_history(k, *m, *t, r),
{
    let colors: (Color, Color) = pair_colors(k, t);
    let h: &std::collections::VecDeque<(Single, Single)> = if k == Kind::Disk {
        &m.disk_history
    } else {
        &m.net_history
    };
    let mut first: Vec<Single> = Vec::new();
    let mut second: Vec<Single> = Vec::new();
    let mut i: usize = 0;
    while i < h.len()
        invariant
            i <= h.len(),
            first@ == h@.take(i as int).map_values(first_of()),
            second@ == h@.take(i as int).map_values(second_of()),
        decreases h.len() - i,
    {
        first.push(h[i].0);
        second.push(h[i].1);
        i += 1;
        assert(first@ =~= h@.take(i as int).map_values(first_of()));
        assert(second@ =~= h@.take(i as int).map_values(second_of()));
    }
    assert(h@.take(h@.len() as int) =~= h@);
    PairHistory {
        first,
        second,
        colors,
        floor: Single {
            bits: if k == Kind::Disk {
                DISK_FLOOR
            } else {
                NET_FLOOR
            },
        },
    }
}

/// Bits of 1024, above which a rate counts as active.
pub const ACTIVE_RATE: u64 = 0x4090_0000_0000_0000;

/// Whether the dot of a rate is lit.
pub fn is_active(rate: Double) -> (r: bool)
    ensures
        r == (Double { bits: ACTIVE_RATE }).lt(rate),
{
    Double { bits: ACTIVE_RATE }.less(rate)
}

/// `used` and `free` are the rows on the memory.
pub open spec fn are_rows(m: MetricsData, used: Seq<char>, free: Seq<char>) -> bool {
    &&& used == util::size_text(m.mem.used as nat)
    &&& free == util::size_text(
        (if m.mem.total > m.mem.used {
            m.mem.total - m.mem.used
        } else {
            0
        }) as nat,
    )
}

impl MemText {
    /// Used memory over free memory.
    pub fn rows(m: &MetricsData) -> (r: (String, String))
        ensures
            are_rows(*m, r.0@, r.1@),
    {
        let free: u64 = if m.mem.total > m.mem.used {
            m.mem.total - m.mem.used
        } else {
            0
        };
        (util::format_size(m.mem.used), util::format_size(free))
    }
}

/// Bits of the number nearest to fifteen hundredths.
pub const BATTERY_LOW: u32 = 0x3e19_999a;

/// Bits of the number nearest to three tenths.
pub const BATTERY_MIDDLE: u32 = 0x3e99_999a;

pub open spec fn battery_shade(b: Battery, plain: Color) -> Color {
    if b.charging || b.on_ac {
        canvas::green()
    } else if b.level.lt(Single { bits: BATTERY_LOW }) {
        canvas::red()
    } else if b.level.lt(Single { bits: BATTERY_MIDDLE }) {
        canvas::yellow()
    } else {
        plain
    }
}

/// The colour of the battery's fill: green on mains or while charging, red
/// and yellow where it runs low, else the text colour.
pub fn battery_color(b: &Battery, plain: Color) -> (r: Color)
    ensures
        r == battery_shade(*b, plain),
{
    if b.charging || b.on_ac {
        canvas::green()
    } else if b.level.less(Single { bits: BATTERY_LOW }) {
        canvas::red()
    } else if b.level.less(Single { bits: BATTERY_MIDDLE }) {
        canvas::yellow()
    } else {
        plain
    }
}

// ---------------------------------------------------------------------------
// How wide a widget is

/// The width of the label column: none without labels.
pub fn label_width(labels: bool, column: i32, space: i32) -> (r: i32)
    requires
        0 <= column,
        0 <= space,
        column + space <= i32::MAX,
    ensures
        r == (if labels {
            column + space
        } else {
            0
        }),
{
    if labels {
        column + space
    } else {
        0
    }
}

/// The width of one core's bar, unscaled, by its name in the configuration: the
/// same for every machine. An unknown name is the smallest.
pub open spec fn bar_dip(name: Seq<char>) -> nat {
    if name == "large"@ {
        5
    } else if name == "medium"@ {
        4
    } else {
        3
    }
}

pub fn bar_width_dip(name: &str) -> (r: u32)
    ensures
        r == bar_dip(name@),
{
    if text::same(name, "large") {
        5
    } else if text::same(name, "medium") {
        4
    } else {
        3
    }
}

/// The pixels that the bar chart is made of.
#[derive(Clone, Copy, Debug, PartialEq, Eq, Structural)]
pub struct BarGeometry {
    pub bar: i32,
    pub gap: i32,
    pub pad: i32,
    pub extra: i32,
}

impl BarGeometry {
    pub open spec fn wf(self) -> bool {
        &&& 0 <= self.bar
        &&& 0 <= self.gap
        &&& 0 <= self.pad
        &&& 0 <= self.extra
    }
}

/// The true entries among the first `n`.
pub open spec fn count_true(b: Seq<bool>, n: int) -> int
    decreases n,
{
    if n <= 0 {
        0
    } else {
        count_true(b, n - 1) + (if n <= b.len() && b[n - 1] {
            1int
        } else {
            0
        })
    }
}

pub fn count_breaks(b: &Vec<bool>) -> (r: usize)
    ensures
        r == count_true(b@, b@.len() as int),
        r <= b.len(),
{
    let mut n: usize = 0;
    let mut i: usize = 0;
    while i < b.len()
        invariant
            i <= b.len(),
            n == count_true(b@, i as int),
            n <= i,
        decreases b.len() - i,
    {
        if b[i] {
            n += 1;
        }
        i += 1;
    }
    n
}

/// The width of the frame round the bars: at least one bar, a gap between
/// each two, and for each boundary between core classes a divider with space
/// on both sides and a gap.
pub open spec fn bars_width(g: BarGeometry, cores: int, breaks: int) -> int {
    let n = if cores < 1 {
        1
    } else {
        cores
    };
    g.pad * 2 + n * g.bar + (n - 1) * g.gap + breaks * (2 * g.extra + 1 + g.gap) + 2
}

/// Where the bar behind `i` bars would begin without a divider of its own.
pub open spec fn bar_edge(x: int, g: BarGeometry, split: bool, breaks: Seq<bool>, i: int) -> int {
    x + 1 + g.pad + i * (g.bar + g.gap) + (if split {
        count_true(breaks, i)
    } else {
        0
    }) * (2 * g.extra + 1 + g.gap)
}

/// Where bar `i` stands: behind `i` bars and gaps, and the dividers up to it.
pub open spec fn bar_x(x: int, g: BarGeometry, split: bool, breaks: Seq<bool>, i: int) -> int {
    x + 1 + g.pad + i * (g.bar + g.gap) + (if split {
        count_true(breaks, i + 1)
    } else {
        0
    }) * (2 * g.extra + 1 + g.gap)
}

/// `r` are the places of the bars and of the dividers.
pub open spec fn are_positions(
    x: int,
    g: BarGeometry,
    cores: int,
    split: bool,
    breaks: Seq<bool>,
    r: Seq<(i32, Option<i32>)>,
) -> bool {
    &&& r.len() == cores
    &&& forall|i: int|
        0 <= i < cores ==> (#[trigger] r[i]).0 == bar_x(x, g, split, breaks, i) && r[i].1 == (
        if split && i < breaks.len() && breaks[i] {
            Some((bar_edge(x, g, split, breaks, i) + g.extra) as i32)
        } else {
            None
        })
}

proof fn lemma_count_grows(b: Seq<bool>, i: int, j: int)
    requires
        0 <= i <= j,
    ensures
        0 <= count_true(b, i) <= count_true(b, j),
    decreases j,
{
    if i < j {
        lemma_count_grows(b, i, j - 1);
    } else if i > 0 {
        lemma_count_grows(b, i - 1, i - 1);
    }
}

proof fn lemma_edges_grow(x: int, g: BarGeometry, split: bool, breaks: Seq<bool>, i: int, j: int)
    requires
        g.wf(),
        0 <= i < j,
    ensures
        x <= bar_edge(x, g, split, breaks, i) <= bar_x(x, g, split, breaks, i),
        bar_x(x, g, split, breaks, i) + g.bar + g.gap == bar_edge(x, g, split, breaks, i + 1),
        bar_edge(x, g, split, breaks, i + 1) <= bar_edge(x, g, split, breaks, j),
        bar_x(x, g, split, breaks, i) == bar_edge(x, g, split, breaks, i) + (if split && i
            < breaks.len() && breaks[i] {
            2 * g.extra + 1 + g.gap
        } else {
            0
        }),
{
    let step = 2 * g.extra + 1 + g.gap;
    let w = g.bar + g.gap;
    lemma_count_grows(breaks, i, i + 1);
    lemma_count_grows(breaks, i + 1, j);
    let a = count_true(breaks, i);
    let b = count_true(breaks, i + 1);
    let c = count_true(breaks, j);
    assert(0 <= a * step <= b * step <= c * step) by (nonlinear_arith)
        requires
            0 <= a <= b <= c,
            0 <= step,
    ;
    assert(0 <= i * w <= (i + 1) * w <= j * w) by (nonlinear_arith)
        requires
            0 <= i < j,
            0 <= w,
    ;
    assert((i + 1) * w == i * w + w) by (nonlinear_arith);
    assert(b == a + 1 ==> b * step == a * step + step) by (nonlinear_arith);
    assert(0 * step == 0);
}

impl CpuBars {
    pub fn width(label: i32, g: BarGeometry, cores: usize, breaks: usize) -> (r: i32)
        requires
            g.wf(),
            0 <= label,
            label + bars_width(g, cores as int, breaks as int) <= i32::MAX,
        ensures
            r == label + bars_width(g, cores as int, breaks as int),
    {
        let n: i128 = if cores < 1 {
            1
        } else {
            cores as i128
        };
        let bar: i128 = g.bar as i128;
        let gap: i128 = g.gap as i128;
        let b: i128 = breaks as i128;
        let step: i128 = 2 * (g.extra as i128) + 1 + gap;
        assert(0 <= n * bar <= 0x1_0000_0000_0000_0000 * 0x8000_0000) by (nonlinear_arith)
            requires
                0 <= n <= 0x1_0000_0000_0000_0000,
                0 <= bar <= 0x8000_0000,
        ;
        assert(0 <= (n - 1) * gap <= 0x1_0000_0000_0000_0000 * 0x8000_0000) by (nonlinear_arith)
            requires
                1 <= n <= 0x1_0000_0000_0000_0000,
                0 <= gap <= 0x8000_0000,
        ;
        assert(0 <= b * step <= 0x1_0000_0000_0000_0000 * 0x4_0000_0000) by (nonlinear_arith)
            requires
                0 <= b <= 0x1_0000_0000_0000_0000,
                0 <= step <= 0x4_0000_0000,
        ;
        (label as i128 + (g.pad as i128) * 2 + n * bar + (n - 1) * gap + b * step + 2) as i32
    }

    /// Where the bars stand in the frame at `x`, and the dividers in front of
    /// those that begin another class of cores.
    pub fn positions(x: i32, g: BarGeometry, cores: usize, split: bool, breaks: &Vec<bool>) -> (r:
        Vec<(i32, Option<i32>)>)
        requires
            g.wf(),
            bar_edge(x as int, g, split, breaks@, cores as int) <= i32::MAX,
        ensures
            are_positions(x as int, g, cores as int, split, breaks@, r@),
    {
        let mut r: Vec<(i32, Option<i32>)> = Vec::new();
        let mut bx: i32 = x;
        let mut i: usize = 0;
        if cores > 0 {
            proof {
                lemma_edges_grow(x as int, g, split, breaks@, 0, cores as int);
                assert(0 * (g.bar + g.gap) == 0);
                assert(0 * (2 * g.extra + 1 + g.gap) == 0);
            }
            bx = x + 1 + g.pad;
        }
        while i < cores
            invariant
                g.wf(),
                bar_edge(x as int, g, split, breaks@, cores as int) <= i32::MAX,
                i <= cores,
                r@.len() == i,
                cores > 0 ==> bx == bar_edge(x as int, g, split, breaks@, i as int),
                forall|j: int|
                    0 <= j < i ==> (#[trigger] r@[j]).0 == bar_x(x as int, g, split, breaks@, j)
                        && r@[j].1 == (if split && j < breaks@.len() && breaks@[j] {
                        Some((bar_edge(x as int, g, split, breaks@, j) + g.extra) as i32)
                    } else {
                        None
                    }),
            decreases cores - i,
        {
            proof {
                lemma_edges_grow(x as int, g, split, breaks@, i as int, cores as int);
            }
            let mut divider: Option<i32> = None;
            if split && i < breaks.len() && breaks[i] {
                divider = Some(bx + g.extra);
                bx = bx + g.extra + 1 + g.extra + g.gap;
            }
            assert(bx == bar_x(x as int, g, split, breaks@, i as int));
            r.push((bx, divider));
            bx = bx + g.bar + g.gap;
            i += 1;
        }
        r
    }
}

/// The last bar ends where the frame's padding begins.
pub proof fn law_bars_fill_the_frame(x: int, g: BarGeometry, split: bool, breaks: Seq<bool>, n: int)
    requires
        n == breaks.len(),
        n >= 1,
    ensures
        bar_x(x, g, split, breaks, n - 1) + g.bar + g.pad + 1 == x + bars_width(
            g,
            n,
            if split {
                count_true(breaks, n)
            } else {
                0
            },
        ),
{
    assert((n - 1) * (g.bar + g.gap) + g.bar == n * g.bar + (n - 1) * g.gap) by (nonlinear_arith);
}

impl Mini {
    /// The widest of the label, the value and the room that is kept for a
    /// value.
    pub fn width(label: i32, value: i32, reserve: i32) -> (r: i32)
        ensures
            r >= label && r >= value && r >= reserve,
            r == label || r == value || r == reserve,
    {
        let a: i32 = if value > label {
            value
        } else {
            label
        };
        if reserve > a {
            reserve
        } else {
            a
        }
    }
}

fn larger(a: i32, b: i32) -> (r: i32)
    ensures
        r == (if a > b {
            a
        } else {
            b
        }),
{
    if a > b {
        a
    } else {
        b
    }
}

pub open spec fn in_i32(v: int) -> bool {
    i32::MIN <= v <= i32::MAX
}

fn half(v: i64) -> (r: i64)
    requires
        v > i64::MIN,
    ensures
        r == popup::halved(v as int),
{
    if v >= 0 {
        v / 2
    } else {
        -((-v) / 2)
    }
}

/// The label at `a` and the value at `b` are in the middle of a widget.
pub open spec fn is_stacked(
    x: int,
    y: int,
    w: int,
    h: int,
    label: (i32, i32),
    value: (i32, i32),
    overlap: int,
    a: (i32, i32),
    b: (i32, i32),
) -> bool {
    &&& a.0 == x + popup::halved(w - label.0)
    &&& b.0 == x + popup::halved(w - value.0)
    &&& a.1 == y + popup::halved(h - (label.1 + value.1 - overlap))
    &&& b.1 == a.1 + label.1 - overlap
}

impl Mini {
    /// Where the label and the value stand in a widget of width `w` and height
    /// `h` at a point: each in the middle, the value close below the label
    /// (`overlap` is how much nearer than their heights), and both together in
    /// the middle of the height.
    pub fn places(
        x: i32,
        y: i32,
        w: i32,
        h: i32,
        label: (i32, i32),
        value: (i32, i32),
        overlap: i32,
    ) -> (r: ((i32, i32), (i32, i32)))
        requires
            in_i32(x + popup::halved(w - label.0)),
            in_i32(x + popup::halved(w - value.0)),
            in_i32(y + popup::halved(h - (label.1 + value.1 - overlap))),
            in_i32(y + popup::halved(h - (label.1 + value.1 - overlap)) + label.1 - overlap),
        ensures
            is_stacked(x as int, y as int, w as int, h as int, label, value, overlap as int, r.0, r.1),
    {
        let high: i64 = label.1 as i64 + value.1 as i64 - overlap as i64;
        let top: i64 = y as i64 + half(h as i64 - high);
        let below: i64 = top + label.1 as i64 - overlap as i64;
        let lx: i64 = x as i64 + half(w as i64 - label.0 as i64);
        let vx: i64 = x as i64 + half(w as i64 - value.0 as i64);
        ((lx as i32, top as i32), (vx as i32, below as i32))
    }
}

impl Line {
    pub fn width(label: i32, chart: i32) -> (r: i32)
        requires
            i32::MIN <= label + chart <= i32::MAX,
        ensures
            r == label + chart,
    {
        label + chart
    }
}

impl DualChart {
    pub fn width(label: i32, chart: i32) -> (r: i32)
        requires
            i32::MIN <= label + chart <= i32::MAX,
        ensures
            r == label + chart,
    {
        label + chart
    }
}

impl Speed {
    /// The label, the dot and its space, and the wider of the two rates or the
    /// room that is kept for one.
    pub fn width(label: i32, dot: i32, space: i32, reserve: i32, first: i32, second: i32) -> (r:
        i32)
        requires
            0 <= label && 0 <= dot && 0 <= space,
            0 <= reserve,
            label + dot + space + reserve <= i32::MAX,
            label + dot + space + first <= i32::MAX,
            label + dot + space + second <= i32::MAX,
        ensures
            exists|w: i32|
                #![trigger is_widest(w, reserve, first, second)]
                is_widest(w, reserve, first, second) && r == label + dot + space + w,
    {
        let w: i32 = larger(reserve, larger(first, second));
        assert(is_widest(w, reserve, first, second));
        label + dot + space + w
    }
}

pub open spec fn is_widest(w: i32, a: i32, b: i32, c: i32) -> bool {
    w >= a && w >= b && w >= c && (w == a || w == b || w == c)
}

impl MemText {
    /// The label, and the wider of the two rows or the room that is kept for
    /// one.
    pub fn width(label: i32, reserve: i32, first: i32, second: i32) -> (r: i32)
        requires
            0 <= label,
            0 <= reserve,
            label + reserve <= i32::MAX,
            label + first <= i32::MAX,
            label + second <= i32::MAX,
        ensures
            exists|w: i32|
                #![trigger is_widest(w, reserve, first, second)]
                is_widest(w, reserve, first, second) && r == label + w,
    {
        let w: i32 = larger(reserve, larger(first, second));
        assert(is_widest(w, reserve, first, second));
        label + w
    }
}

/// Where the battery's text, outline and pole stand.
#[derive(Clone, Copy, Debug, PartialEq, Eq, Structural)]
pub struct BatteryPlaces {
    pub text_y: i32,
    pub outline: Area,
    pub pole: Area,
}

pub open spec fn is_battery_place(
    x: int,
    y: int,
    h: int,
    text: (i32, i32),
    space: int,
    outline: (i32, i32),
    pole: (i32, i32),
    r: BatteryPlaces,
) -> bool {
    &&& r.text_y == y + popup::halved(h - text.1)
    &&& r.outline == (Area {
        x: (x + text.0 + space) as i32,
        y: (y + popup::halved(h - outline.1)) as i32,
        w: outline.0,
        h: outline.1,
    })
    &&& r.pole == (Area {
        x: (r.outline.x + outline.0) as i32,
        y: (r.outline.y + popup::halved(outline.1 as int) - pole.0) as i32,
        w: pole.0,
        h: pole.1,
    })
}

impl BatteryWidget {
    /// The text at the point, a space, the outline of the given size and the
    /// pole at its right end; all in the middle of the height `h`.
    pub fn places(
        x: i32,
        y: i32,
        h: i32,
        text: (i32, i32),
        space: i32,
        outline: (i32, i32),
        pole: (i32, i32),
    ) -> (r: BatteryPlaces)
        requires
            in_i32(y + popup::halved(h - text.1)),
            in_i32(x + text.0 + space),
            in_i32(y + popup::halved(h - outline.1)),
            in_i32(x + text.0 + space + outline.0),
            in_i32(y + popup::halved(h - outline.1) + popup::halved(outline.1 as int) - pole.0),
        ensures
            is_battery_place(x as int, y as int, h as int, text, space as int, outline, pole, r),
    {
        let bx: i64 = x as i64 + text.0 as i64 + space as i64;
        let by: i64 = y as i64 + half(h as i64 - outline.1 as i64);
        let ty: i64 = y as i64 + half(h as i64 - text.1 as i64);
        let py: i64 = by + half(outline.1 as i64) - pole.0 as i64;
        BatteryPlaces {
            text_y: ty as i32,
            outline: Area { x: bx as i32, y: by as i32, w: outline.0, h: outline.1 },
            pole: Area {
                x: (bx + outline.0 as i64) as i32,
                y: py as i32,
                w: pole.0,
                h: pole.1,
            },
        }
    }

    /// Nothing without a battery, else the text, a space and the symbol.
    pub fn width(battery: bool, text: i32, space: i32, symbol: i32) -> (r: i32)
        requires
            0 <= text && 0 <= space && 0 <= symbol,
            text + space + symbol <= i32::MAX,
        ensures
            r == (if battery {
                text + space + symbol
            } else {
                0
            }),
    {
        if battery {
            text + space + symbol
        } else {
            0
        }
    }
}

/// A value goes with its own history: what the chart of a module ends with after a
/// tick is the value that is shown.
pub proof fn law_charts_end_with_the_value(m: Metrics, r: Reading, d: MetricsData, k: Kind)
    requires
        local::ticked(m, r, d),
    ensures
        k == Kind::Cpu || k == Kind::Mem ==> history_in(k, d).len() > 0 && Some(
            history_in(k, d).last(),
        ) == value_in(k, d),
        k == Kind::Cpu ==> value_in(k, d) == Some(r.total),
        k == Kind::Gpu ==> value_in(k, d) == d.gpu,
        k == Kind::Gpu && r.counters.is_some() && d.gpu.is_some() ==> history_in(k, d).len() > 0
            && Some(history_in(k, d).last()) == value_in(k, d),
        k == Kind::Mem ==> value_in(k, d) == Some(d.mem.pct),
        k == Kind::Disk || k == Kind::Net || k == Kind::Battery ==> value_in(k, d).is_none()
            && history_in(k, d).len() == 0,
{
}

/// Downloads come before uploads and reads before writes, now and in the history;
/// a rate and its series have one colour, whatever the mode.
pub proof fn law_pairs_line_up(k: Kind, m: MetricsData, t: Theme, r: PairHistory, i: int)
    requires
        is_pair_history(k, m, t, r),
        k == Kind::Disk || k == Kind::Net,
    ensures
        rates_in(k, m, t).len() == 2,
        rates_in(k, m, t)[0].1 == r.colors.0 && rates_in(k, m, t)[1].1 == r.colors.1,
        k == Kind::Net ==> rates_in(k, m, t)[0].0 == m.net_rx && rates_in(k, m, t)[1].0 == m.net_tx,
        k == Kind::Disk ==> rates_in(k, m, t)[0].0 == m.disk_read && rates_in(k, m, t)[1].0
            == m.disk_write,
        k == Kind::Net ==> r.first@.len() == m.net_history@.len() && r.second@.len()
            == m.net_history@.len() && (0 <= i < m.net_history@.len() ==> (
        r.first@[i],
        r.second@[i],
        ) == m.net_history@[i]),
        k == Kind::Disk ==> r.first@.len() == m.disk_history@.len() && r.second@.len()
            == m.disk_history@.len() && (0 <= i < m.disk_history@.len() ==> (
        r.first@[i],
        r.second@[i],
        ) == m.disk_history@[i]),
        t.modes@[widgets::module_rank(k)] == ColorMode::Mono ==> r.colors == (t.text, t.dim),
        t.modes@[widgets::module_rank(k)] matches ColorMode::Fixed(c) ==> r.colors.0 == c,
{
}

/// The disks and the network are told apart by the colours of their series, and
/// the two series of each from one another.
pub proof fn law_plain_pairs_differ(t: Theme)
    requires
        t.modes@[3] == ColorMode::Accent,
        t.modes@[4] == ColorMode::Accent,
    ensures
        pair_shades(Kind::Disk, t).0 != pair_shades(Kind::Disk, t).1,
        pair_shades(Kind::Net, t).0 != pair_shades(Kind::Net, t).1,
        pair_shades(Kind::Disk, t).0 != pair_shades(Kind::Net, t).0,
        pair_shades(Kind::Disk, t).1 != pair_shades(Kind::Net, t).1,
{
}

/// The rows on the memory say how much is used and how much is left: the sizes of
/// two numbers that make up the whole.
pub proof fn law_memory_rows_make_the_whole(m: MetricsData, used: Seq<char>, free: Seq<char>, left: nat)
    requires
        are_rows(m, used, free),
        m.mem.used + left == m.mem.total,
    ensures
        used == util::size_text(m.mem.used as nat),
        free == util::size_text(left),
{
}

/// On mains the fill is green; off it, a lower level is never shown in a calmer
/// colour: from the text colour over yellow to red.
pub proof fn law_low_battery_warns(a: Battery, b: Battery, plain: Color)
    requires
        !a.level.nan() && !b.level.nan(),
        !b.level.lt(a.level),
        !a.charging && !a.on_ac && !b.charging && !b.on_ac,
    ensures
        battery_shade(b, plain) == canvas::red() && plain != canvas::red() ==> battery_shade(a, plain)
            == canvas::red(),
        battery_shade(b, plain) == canvas::yellow() && plain != canvas::yellow() ==> battery_shade(
            a,
            plain,
        ) != plain || plain == canvas::red(),
        forall|c: Battery|
            c.charging || c.on_ac ==> #[trigger] battery_shade(c, plain) == canvas::green(),
{
}

/// Bars keep their order and do not touch: each begins a gap behind the one
/// before it, and a divider has the space on both sides that is kept for it.
pub proof fn law_bars_stand_apart(
    x: int,
    g: BarGeometry,
    cores: int,
    split: bool,
    breaks: Seq<bool>,
    r: Seq<(i32, Option<i32>)>,
    i: int,
)
    requires
        are_positions(x, g, cores, split, breaks, r),
        g.wf(),
        bar_edge(x, g, split, breaks, cores) <= i32::MAX,
        i32::MIN <= x,
        0 < i < cores,
    ensures
        r[i].1.is_some() == (split && i < breaks.len() && breaks[i]),
        r[i].1.is_none() ==> r[i].0 == r[i - 1].0 + g.bar + g.gap,
        r[i].1 matches Some(d) ==> {
            &&& d == r[i - 1].0 + g.bar + g.gap + g.extra
            &&& r[i].0 == d + 1 + g.extra + g.gap
        },
        r[0].0 >= x + 1 + g.pad,
{
    lemma_edges_grow(x, g, split, breaks, 0, cores);
    lemma_edges_grow(x, g, split, breaks, i - 1, cores);
    lemma_edges_grow(x, g, split, breaks, i, cores);
    assert(0 * (g.bar + g.gap) == 0);
    assert(0 * (2 * g.extra + 1 + g.gap) == 0);
    assert(r[i].0 == bar_x(x, g, split, breaks, i));
    assert(r[i - 1].0 == bar_x(x, g, split, breaks, i - 1));
    assert(r[0].0 == bar_x(x, g, split, breaks, 0));
}

/// A wider setting is a wider bar, and an unknown one is the smallest.
pub proof fn law_bar_settings_rise(other: Seq<char>)
    ensures
        0 < bar_dip("small"@) < bar_dip("medium"@) < bar_dip("large"@),
        bar_dip("small"@) <= bar_dip(other) <= bar_dip("large"@),
{
    reveal_strlit("small");
    reveal_strlit("medium");
    reveal_strlit("large");
    assert("small"@.len() == 5 && "large"@.len() == 5 && "medium"@.len() == 6);
    assert("small"@[0] == 's' && "large"@[0] == 'l');
}

/// Label and value stand in the middle of the widget, with as much room left of
/// them as right, and above as below, to a pixel; the value is under the label.
pub proof fn law_label_and_value_are_centred(
    x: int,
    y: int,
    w: int,
    h: int,
    label: (i32, i32),
    value: (i32, i32),
    overlap: int,
    a: (i32, i32),
    b: (i32, i32),
)
    requires
        is_stacked(x, y, w, h, label, value, overlap, a, b),
    ensures
        -1 <= (a.0 - x) - (x + w - (a.0 + label.0)) <= 1,
        -1 <= (b.0 - x) - (x + w - (b.0 + value.0)) <= 1,
        -1 <= (a.1 - y) - (y + h - (b.1 + value.1)) <= 1,
        a.1 + label.1 == b.1 + overlap,
{
}

/// The battery's symbol follows the text and the space, the pole follows the
/// outline, and text and outline are in the middle of the height.
pub proof fn law_battery_parts_follow(
    x: int,
    y: int,
    h: int,
    text: (i32, i32),
    space: int,
    outline: (i32, i32),
    pole: (i32, i32),
    r: BatteryPlaces,
)
    requires
        is_battery_place(x, y, h, text, space, outline, pole, r),
        in_i32(y + popup::halved(h - text.1)),
        in_i32(x + text.0 + space),
        in_i32(y + popup::halved(h - outline.1)),
        in_i32(x + text.0 + space + outline.0),
        in_i32(y + popup::halved(h - outline.1) + popup::halved(outline.1 as int) - pole.0),
    ensures
        r.outline.x == x + text.0 + space,
        r.pole.x == r.outline.x + r.outline.w,
        (r.outline.w, r.outline.h) == outline && (r.pole.w, r.pole.h) == pole,
        -1 <= (r.text_y - y) - (y + h - (r.text_y + text.1)) <= 1,
        -1 <= (r.outline.y - y) - (y + h - (r.outline.y + r.outline.h)) <= 1,
{
}

} // verus!
