//! What the popup of each module shows: its rows, headings, charts and the
//! clicks on them, as values for the drawing. Shares and rates stay numbers
//! here and are written out where they are drawn.

use crate::canvas::Color;
use crate::i18n::{self, Translator};
use crate::metrics::disks::PhysicalDisk;
use crate::metrics::drives::Drive;
use crate::metrics::gpu::{self, AdapterInfo};
use crate::metrics::net::NetIface;
use crate::metrics::{self, MetricsData};
use crate::number::{Double, Single};
use crate::popup::Action;
use crate::text;
use crate::util;
use crate::widgets::layout;
use crate::widgets::Kind;
use std::collections::VecDeque;
use vstd::prelude::*;

verus! {

/// The value of a row.
#[derive(Clone, Debug)]
pub enum Figure {
    Text(String),
    /// A share, shown in whole percent.
    Percent(Single),
    /// What a share leaves of the whole, not less than nothing, in percent.
    Rest(Single),
    /// The mean of shares, in percent.
    Mean(Vec<Single>),
    /// Bytes per second.
    Rate(Double),
    /// Two rates with a slash between them.
    Rates(Double, Double),
    /// Milliwatts, shown in watts.
    Watts(u32),
    /// Milliwatt hours of so many, shown in watt hours.
    WattHours(u32, u32),
}

pub enum FigureView {
    Text(Seq<char>),
    Percent(Single),
    Rest(Single),
    Mean(Seq<Single>),
    Rate(Double),
    Rates(Double, Double),
    Watts(u32),
    WattHours(u32, u32),
}

pub open spec fn figure_view(f: Figure) -> FigureView {
    match f {
        Figure::Text(s) => FigureView::Text(s@),
        Figure::Percent(v) => FigureView::Percent(v),
        Figure::Rest(v) => FigureView::Rest(v),
        Figure::Mean(v) => FigureView::Mean(v@),
        Figure::Rate(v) => FigureView::Rate(v),
        Figure::Rates(a, b) => FigureView::Rates(a, b),
        Figure::Watts(v) => FigureView::Watts(v),
        Figure::WattHours(a, b) => FigureView::WattHours(a, b),
    }
}

/// Which colour something is drawn in.
#[derive(Clone, Copy, Debug, PartialEq, Eq, Structural)]
pub enum Shade {
    Text,
    Dim,
    Accent,
    /// By utilisation, from the text colour up.
    Usage(Single),
    /// By how full a bar is, from the accent up.
    Fill,
    Fixed(Color),
}

/// A colour, faded for what is switched off.
#[derive(Clone, Copy, Debug, PartialEq, Eq, Structural)]
pub struct Ink {
    pub shade: Shade,
    pub on: bool,
}

/// How full a bar is.
#[derive(Clone, Copy, Debug, PartialEq, Eq, Structural)]
pub enum Fraction {
    Share(Single),
    Part(u64, u64),
}

/// What a list of processes is sorted by.
#[derive(Clone, Copy, Debug, PartialEq, Eq, Structural)]
pub enum ProcMode {
    Cpu,
    Mem,
    Io,
}

/// A slice of the pie chart: its label, size and colour.
#[derive(Clone, Debug)]
pub struct Slice {
    pub label: String,
    pub value: u64,
    pub ink: Ink,
}

pub open spec fn slice_view(s: Slice) -> (Seq<char>, u64, Ink) {
    (s.label@, s.value, s.ink)
}

/// A piece of the content, from top to bottom.
#[derive(Debug)]
pub enum Element {
    Title { title: String, subtitle: String },
    /// The history of a share.
    Chart(Vec<Single>),
    /// Two histories that share a scale, their legend and colours.
    Pair {
        first: Vec<Single>,
        second: Vec<Single>,
        floor: u32,
        colors: (Color, Color),
        labels: (String, String),
    },
    Row { label: String, value: Figure, label_ink: Ink, ink: Ink },
    Bar { label: String, fill: Fraction, value: Figure, shade: Shade },
    Section(String),
    /// The bars of the cores.
    Cores,
    Processes(ProcMode),
    Pie(Vec<Slice>),
    /// The last two rows react to a click.
    Click(Action),
}

pub enum ElementView {
    Title { title: Seq<char>, subtitle: Seq<char> },
    Chart(Seq<Single>),
    Pair {
        first: Seq<Single>,
        second: Seq<Single>,
        floor: u32,
        colors: (Color, Color),
        labels: (Seq<char>, Seq<char>),
    },
    Row { label: Seq<char>, value: FigureView, label_ink: Ink, ink: Ink },
    Bar { label: Seq<char>, fill: Fraction, value: FigureView, shade: Shade },
    Section(Seq<char>),
    Cores,
    Processes(ProcMode),
    Pie(Seq<(Seq<char>, u64, Ink)>),
    Click(ActionView),
}

pub enum ActionView {
    ToggleNet(Seq<char>),
    ToggleDisk(Seq<char>),
}

pub open spec fn action_view(a: Action) -> ActionView {
    match a {
        Action::ToggleNet(s) => ActionView::ToggleNet(s@),
        Action::ToggleDisk(s) => ActionView::ToggleDisk(s@),
    }
}

pub open spec fn element_view(e: Element) -> ElementView {
    match e {
        Element::Title { title, subtitle } => ElementView::Title {
            title: title@,
            subtitle: subtitle@,
        },
        Element::Chart(v) => ElementView::Chart(v@),
        Element::Pair { first, second, floor, colors, labels } => ElementView::Pair {
            first: first@,
            second: second@,
            floor,
            colors,
            labels: (labels.0@, labels.1@),
        },
        Element::Row { label, value, label_ink, ink } => ElementView::Row {
            label: label@,
            value: figure_view(value),
            label_ink,
            ink,
        },
        Element::Bar { label, fill, value, shade } => ElementView::Bar {
            label: label@,
            fill,
            value: figure_view(value),
            shade,
        },
        Element::Section(s) => ElementView::Section(s@),
        Element::Cores => ElementView::Cores,
        Element::Processes(m) => ElementView::Processes(m),
        Element::Pie(v) => ElementView::Pie(v@.map_values(|s: Slice| slice_view(s))),
        Element::Click(a) => ElementView::Click(action_view(a)),
    }
}

pub open spec fn elements(v: Seq<Element>) -> Seq<ElementView> {
    v.map_values(|e: Element| element_view(e))
}

pub open spec fn said(tr: Translator, key: Seq<char>) -> Seq<char> {
    i18n::text_of(tr, key)
}

/// A text with a single placeholder filled in.
pub open spec fn said_of(tr: Translator, key: Seq<char>, name: Seq<char>, value: Seq<char>) -> Seq<
    char,
> {
    i18n::filled(i18n::text_of(tr, key), seq![(name, value)])
}

pub open spec fn row(label: Seq<char>, value: FigureView) -> ElementView {
    colored(label, value, Shade::Text)
}

pub open spec fn colored(label: Seq<char>, value: FigureView, shade: Shade) -> ElementView {
    ElementView::Row {
        label,
        value,
        label_ink: Ink { shade: Shade::Dim, on: true },
        ink: Ink { shade, on: true },
    }
}

pub open spec fn bytes(n: u64) -> FigureView {
    FigureView::Text(util::bytes_text(n as nat))
}

pub open spec fn count(n: nat) -> FigureView {
    FigureView::Text(text::decimal(n))
}

fn push(out: &mut Vec<Element>, e: Element)
    ensures
        elements(final(out)@) == elements(old(out)@).push(element_view(e)),
{
    out.push(e);
    assert(elements(out@) =~= elements(old(out)@).push(element_view(e)));
}

fn push_row(out: &mut Vec<Element>, label: String, value: Figure)
    ensures
        elements(final(out)@) == elements(old(out)@).push(row(label@, figure_view(value))),
{
    push_colored(out, label, value, Shade::Text);
}

fn push_colored(out: &mut Vec<Element>, label: String, value: Figure, shade: Shade)
    ensures
        elements(final(out)@) == elements(old(out)@).push(
            colored(label@, figure_view(value), shade),
        ),
{
    push(
        out,
        Element::Row {
            label,
            value,
            label_ink: Ink { shade: Shade::Dim, on: true },
            ink: Ink { shade, on: true },
        },
    );
}

fn say_of(tr: &Translator, key: &str, name: &str, value: &str) -> (r: String)
    ensures
        r@ == said_of(*tr, key@, name@, value@),
{
    let args: [(&str, &str); 1] = [(name, value)];
    assert(i18n::arg_views(args@) =~= seq![(name@, value@)]);
    tr.tf(key, &args)
}

fn copied(h: &VecDeque<Single>) -> (r: Vec<Single>)
    ensures
        r@ == h@,
{
    let mut r: Vec<Single> = Vec::new();
    let mut i: usize = 0;
    while i < h.len()
        invariant
            i <= h.len(),
            r@ == h@.take(i as int),
        decreases h.len() - i,
    {
        r.push(h[i]);
        i += 1;
    }
    r
}

// ---------------------------------------------------------------------------
// Processor

pub open spec fn is_hybrid(classes: Seq<u8>) -> bool {
    exists|i: int| 0 <= i < classes.len() && #[trigger] classes[i] != classes[0]
}

pub open spec fn sockets_suffix(m: MetricsData, tr: Translator) -> Seq<char> {
    if m.cpu_sockets > 1 {
        said_of(tr, "popup.sockets_suffix"@, "n"@, text::decimal(m.cpu_sockets as nat))
    } else {
        Seq::empty()
    }
}

pub open spec fn cpu_head(m: MetricsData, tr: Translator) -> Seq<ElementView> {
    let head = seq![
        ElementView::Title { title: said(tr, "popup.cpu"@), subtitle: m.cpu_name@ },
        ElementView::Chart(m.cpu_history@),
        colored(
            said(tr, "popup.load"@),
            FigureView::Percent(m.cpu_total),
            Shade::Usage(m.cpu_total),
        ),
        row(said(tr, "popup.system"@), FigureView::Percent(m.cpu_system)),
        row(said(tr, "popup.user"@), FigureView::Percent(m.cpu_user)),
        row(said(tr, "popup.idle"@), FigureView::Rest(m.cpu_total)),
    ];
    if m.cpu_sockets > 1 {
        head.push(row(said(tr, "popup.sockets"@), count(m.cpu_sockets as nat)))
    } else {
        head
    }
}

/// The loads of performance cores and of the others where there are both, and
/// the heading of the cores.
pub open spec fn cpu_cores(m: MetricsData, tr: Translator) -> Seq<ElementView> {
    if is_hybrid(m.cpu_classes@) {
        let p = metrics::loads_of(m.cpu_cores@, m.cpu_classes@, true, m.cpu_cores@.len());
        let e = metrics::loads_of(m.cpu_cores@, m.cpu_classes@, false, m.cpu_cores@.len());
        let pn = text::decimal(p.len());
        let en = text::decimal(e.len());
        seq![
            row(said_of(tr, "popup.p_cores"@, "n"@, pn), FigureView::Mean(p)),
            row(said_of(tr, "popup.e_cores"@, "n"@, en), FigureView::Mean(e)),
            ElementView::Section(
                i18n::filled(
                    i18n::text_of(tr, "popup.cores_pe"@),
                    seq![("p"@, pn), ("e"@, en), ("sockets"@, sockets_suffix(m, tr))],
                ),
            ),
        ]
    } else {
        seq![
            ElementView::Section(
                i18n::filled(
                    i18n::text_of(tr, "popup.cores"@),
                    seq![
                        ("n"@, text::decimal(m.cpu_cores@.len())),
                        ("sockets"@, sockets_suffix(m, tr)),
                    ],
                ),
            ),
        ]
    }
}

pub open spec fn processes(tr: Translator, mode: ProcMode) -> Seq<ElementView> {
    seq![ElementView::Section(said(tr, "popup.top_processes"@)), ElementView::Processes(mode)]
}

pub open spec fn cpu_content(m: MetricsData, tr: Translator) -> Seq<ElementView> {
    cpu_head(m, tr) + cpu_cores(m, tr) + seq![ElementView::Cores] + processes(tr, ProcMode::Cpu)
}

fn push_cpu_head(out: &mut Vec<Element>, m: &MetricsData, tr: &Translator)
    ensures
        elements(final(out)@) == elements(old(out)@) + cpu_head(*m, *tr),
{
    let ghost o = elements(out@);
    push(out, Element::Title { title: tr.t("popup.cpu"), subtitle: m.cpu_name.clone() });
    push(out, Element::Chart(copied(&m.cpu_history)));
    push_colored(
        out,
        tr.t("popup.load"),
        Figure::Percent(m.cpu_total),
        Shade::Usage(m.cpu_total),
    );
    push_row(out, tr.t("popup.system"), Figure::Percent(m.cpu_system));
    push_row(out, tr.t("popup.user"), Figure::Percent(m.cpu_user));
    push_row(out, tr.t("popup.idle"), Figure::Rest(m.cpu_total));
    if m.cpu_sockets > 1 {
        push_row(
            out,
            tr.t("popup.sockets"),
            Figure::Text(text::number(m.cpu_sockets as u64)),
        );
    }
    assert(elements(out@) =~= o + cpu_head(*m, *tr));
}

fn push_cpu_cores(out: &mut Vec<Element>, m: &MetricsData, tr: &Translator)
    ensures
        elements(final(out)@) == elements(old(out)@) + cpu_cores(*m, *tr),
{
    let ghost o = elements(out@);
    let suffix: String = if m.cpu_sockets > 1 {
        let n: String = text::number(m.cpu_sockets as u64);
        say_of(tr, "popup.sockets_suffix", "n", n.as_str())
    } else {
        String::new()
    };
    assert(suffix@ =~= sockets_suffix(*m, *tr));
    if m.cpu_hybrid() {
        let (p, e) = m.cpu_pe();
        let pn: String = text::number(p.len() as u64);
        let en: String = text::number(e.len() as u64);
        push_row(out, say_of(tr, "popup.p_cores", "n", pn.as_str()), Figure::Mean(p));
        push_row(out, say_of(tr, "popup.e_cores", "n", en.as_str()), Figure::Mean(e));
        let args: [(&str, &str); 3] = [
            ("p", pn.as_str()),
            ("e", en.as_str()),
            ("sockets", suffix.as_str()),
        ];
        assert(i18n::arg_views(args@) =~= seq![("p"@, pn@), ("e"@, en@), ("sockets"@, suffix@)]);
        push(out, Element::Section(tr.tf("popup.cores_pe", &args)));
    } else {
        let n: String = text::number(m.cpu_cores.len() as u64);
        let args: [(&str, &str); 2] = [("n", n.as_str()), ("sockets", suffix.as_str())];
        assert(i18n::arg_views(args@) =~= seq![("n"@, n@), ("sockets"@, suffix@)]);
        push(out, Element::Section(tr.tf("popup.cores", &args)));
    }
    assert(elements(out@) =~= o + cpu_cores(*m, *tr));
}

fn push_processes(out: &mut Vec<Element>, tr: &Translator, mode: ProcMode)
    ensures
        elements(final(out)@) == elements(old(out)@) + processes(*tr, mode),
{
    let ghost o = elements(out@);
    push(out, Element::Section(tr.t("popup.top_processes")));
    push(out, Element::Processes(mode));
    assert(elements(out@) =~= o + processes(*tr, mode));
}

pub fn draw_cpu(m: &MetricsData, tr: &Translator) -> (r: Vec<Element>)
    ensures
        elements(r@) == cpu_content(*m, *tr),
{
    let mut out: Vec<Element> = Vec::new();
    push_cpu_head(&mut out, m, tr);
    push_cpu_cores(&mut out, m, tr);
    push(&mut out, Element::Cores);
    push_processes(&mut out, tr, ProcMode::Cpu);
    assert(elements(out@) =~= cpu_content(*m, *tr));
    out
}

// ---------------------------------------------------------------------------
// Memory

pub open spec fn dot() -> Seq<char> {
    " \u{00B7} "@
}

pub open spec fn mem_subtitle(m: MetricsData, tr: Translator) -> Seq<char> {
    let total = said_of(tr, "popup.total"@, "size"@, util::bytes_text(m.mem.total as nat));
    let named = match m.mem_summary {
        Some(s) => total + dot() + s@,
        None => total,
    };
    match m.mem_channels {
        Some(n) => named + dot() + said_of(tr, "popup.channels"@, "n"@, text::decimal(n as nat)),
        None => named,
    }
}

pub open spec fn less(a: int, b: int) -> int {
    if a > b {
        a - b
    } else {
        0
    }
}

pub open spec fn free_memory(m: MetricsData) -> u64 {
    less(m.mem.total as int, m.mem.used as int) as u64
}

pub open spec fn mem_head(m: MetricsData, tr: Translator) -> Seq<ElementView> {
    seq![
        ElementView::Title { title: said(tr, "popup.memory"@), subtitle: mem_subtitle(m, tr) },
        ElementView::Chart(m.mem_history@),
        colored(said(tr, "popup.usage"@), FigureView::Percent(m.mem.pct), Shade::Usage(m.mem.pct)),
        row(said(tr, "popup.used"@), bytes(m.mem.used)),
        row(said(tr, "popup.free"@), bytes(free_memory(m))),
        row(
            said(tr, "popup.committed"@),
            FigureView::Text(
                util::bytes_text(m.mem.commit_used as nat) + " / "@ + util::bytes_text(
                    m.mem.commit_total as nat,
                ),
            ),
        ),
    ]
}

/// Where the physical memory goes: private memory of processes, kernel pools,
/// what else is used, and what is available.
pub open spec fn mem_slices(m: MetricsData, tr: Translator) -> Seq<(Seq<char>, u64, Ink)> {
    let kernel = m.mem_kernel_paged + m.mem_kernel_nonpaged;
    seq![
        (
            said(tr, "popup.processes_private"@),
            m.mem_processes,
            Ink { shade: Shade::Accent, on: true },
        ),
        (
            said(tr, "popup.kernel_pools"@),
            kernel as u64,
            Ink { shade: Shade::Fixed(Color { r: 0xaf, g: 0x52, b: 0xde, a: 255 }), on: true },
        ),
        (
            said(tr, "popup.other_memory"@),
            less(less(m.mem.used as int, m.mem_processes as int), kernel) as u64,
            Ink { shade: Shade::Fixed(Color { r: 0xff, g: 0x95, b: 0x00, a: 255 }), on: true },
        ),
        (
            said(tr, "popup.available_memory"@),
            free_memory(m),
            Ink { shade: Shade::Dim, on: false },
        ),
    ]
}

pub open spec fn mem_parts(m: MetricsData, tr: Translator) -> Seq<ElementView> {
    if m.mem_processes > 0 {
        seq![
            ElementView::Section(said(tr, "popup.where_it_goes"@)),
            ElementView::Pie(mem_slices(m, tr)),
            row(said(tr, "popup.file_cache"@), bytes(m.mem_cache)),
        ]
    } else {
        Seq::empty()
    }
}

pub open spec fn mem_content(m: MetricsData, tr: Translator) -> Seq<ElementView> {
    mem_head(m, tr) + mem_parts(m, tr) + processes(tr, ProcMode::Mem)
}

fn saturating(a: u64, b: u64) -> (r: u64)
    ensures
        r == less(a as int, b as int),
{
    if a > b {
        a - b
    } else {
        0
    }
}

fn subtitle_of_memory(m: &MetricsData, tr: &Translator) -> (r: String)
    ensures
        r@ == mem_subtitle(*m, *tr),
{
    let size: String = util::format_bytes(m.mem.total);
    let mut s: String = say_of(tr, "popup.total", "size", size.as_str());
    if let Some(x) = &m.mem_summary {
        s.append(" \u{00B7} ");
        s.append(x.as_str());
    }
    if let Some(n) = m.mem_channels {
        let count: String = text::number(n as u64);
        s.append(" \u{00B7} ");
        s.append(say_of(tr, "popup.channels", "n", count.as_str()).as_str());
    }
    s
}

fn push_mem_head(out: &mut Vec<Element>, m: &MetricsData, tr: &Translator)
    ensures
        elements(final(out)@) == elements(old(out)@) + mem_head(*m, *tr),
{
    let ghost o = elements(out@);
    push(
        out,
        Element::Title { title: tr.t("popup.memory"), subtitle: subtitle_of_memory(m, tr) },
    );
    push(out, Element::Chart(copied(&m.mem_history)));
    push_colored(
        out,
        tr.t("popup.usage"),
        Figure::Percent(m.mem.pct),
        Shade::Usage(m.mem.pct),
    );
    push_row(out, tr.t("popup.used"), Figure::Text(util::format_bytes(m.mem.used)));
    push_row(
        out,
        tr.t("popup.free"),
        Figure::Text(util::format_bytes(saturating(m.mem.total, m.mem.used))),
    );
    let mut committed: String = util::format_bytes(m.mem.commit_used);
    committed.append(" / ");
    committed.append(util::format_bytes(m.mem.commit_total).as_str());
    push_row(out, tr.t("popup.committed"), Figure::Text(committed));
    assert(elements(out@) =~= o + mem_head(*m, *tr));
}

/// The kernel's pools can be added where they are shown.
pub open spec fn pools_fit(m: MetricsData) -> bool {
    m.mem_processes > 0 ==> m.mem_kernel_paged + m.mem_kernel_nonpaged <= u64::MAX
}

fn push_mem_parts(out: &mut Vec<Element>, m: &MetricsData, tr: &Translator)
    requires
        pools_fit(*m),
    ensures
        elements(final(out)@) == elements(old(out)@) + mem_parts(*m, *tr),
{
    let ghost o = elements(out@);
    if m.mem_processes > 0 {
        let kernel: u64 = m.mem_kernel_paged + m.mem_kernel_nonpaged;
        push(out, Element::Section(tr.t("popup.where_it_goes")));
        let mut s: Vec<Slice> = Vec::new();
        s.push(
            Slice {
                label: tr.t("popup.processes_private"),
                value: m.mem_processes,
                ink: Ink { shade: Shade::Accent, on: true },
            },
        );
        s.push(
            Slice {
                label: tr.t("popup.kernel_pools"),
                value: kernel,
                ink: Ink {
                    shade: Shade::Fixed(Color { r: 0xaf, g: 0x52, b: 0xde, a: 255 }),
                    on: true,
                },
            },
        );
        s.push(
            Slice {
                label: tr.t("popup.other_memory"),
                value: saturating(saturating(m.mem.used, m.mem_processes), kernel),
                ink: Ink {
                    shade: Shade::Fixed(Color { r: 0xff, g: 0x95, b: 0x00, a: 255 }),
                    on: true,
                },
            },
        );
        s.push(
            Slice {
                label: tr.t("popup.available_memory"),
                value: saturating(m.mem.total, m.mem.used),
                ink: Ink { shade: Shade::Dim, on: false },
            },
        );
        assert(s@.map_values(|s: Slice| slice_view(s)) =~= mem_slices(*m, *tr));
        push(out, Element::Pie(s));
        push_row(out, tr.t("popup.file_cache"), Figure::Text(util::format_bytes(m.mem_cache)));
    }
    assert(elements(out@) =~= o + mem_parts(*m, *tr));
}

pub fn draw_mem(m: &MetricsData, tr: &Translator) -> (r: Vec<Element>)
    requires
        pools_fit(*m),
    ensures
        elements(r@) == mem_content(*m, *tr),
{
    let mut out: Vec<Element> = Vec::new();
    push_mem_head(&mut out, m, tr);
    push_mem_parts(&mut out, m, tr);
    push_processes(&mut out, tr, ProcMode::Mem);
    assert(elements(out@) =~= mem_content(*m, *tr));
    out
}

// ---------------------------------------------------------------------------
// Graphics

pub open spec fn adapter_ids(a: AdapterInfo) -> Seq<char> {
    let ids = text::hex(a.vendor_id as nat, 4, true) + ":"@ + text::hex(
        a.device_id as nat,
        4,
        true,
    );
    let vendor = gpu::vendor_text(a.vendor_id);
    if vendor.len() == 0 {
        ids
    } else {
        vendor + " "@ + ids
    }
}

pub open spec fn gpu_head(m: MetricsData, tr: Translator) -> Seq<ElementView> {
    seq![
        ElementView::Title { title: said(tr, "popup.gpu"@), subtitle: m.gpu_name@ },
        ElementView::Chart(m.gpu_history@),
        match m.gpu {
            Some(v) => colored(said(tr, "popup.load"@), FigureView::Percent(v), Shade::Usage(v)),
            None => row(said(tr, "popup.load"@), FigureView::Text(said(tr, "popup.na"@))),
        },
    ]
}

pub open spec fn gpu_memory(m: MetricsData, tr: Translator) -> Seq<ElementView> {
    let budget = if m.vram_budget > 0 {
        seq![
            ElementView::Section(said(tr, "popup.video_memory"@)),
            ElementView::Bar {
                label: said(tr, "popup.used"@),
                fill: Fraction::Part(m.vram_used, m.vram_budget),
                value: bytes(m.vram_used),
                shade: Shade::Accent,
            },
            row(said(tr, "popup.budget"@), bytes(m.vram_budget)),
        ]
    } else {
        Seq::empty()
    };
    if m.vram_total > 0 {
        budget.push(row(said(tr, "popup.dedicated"@), bytes(m.vram_total)))
    } else {
        budget
    }
}

pub open spec fn gpu_adapter(m: MetricsData, tr: Translator) -> Seq<ElementView> {
    match m.gpu_primary {
        Some(a) => {
            let head = seq![
                ElementView::Section(said(tr, "popup.adapter"@)),
                row(said(tr, "popup.vendor_device"@), FigureView::Text(adapter_ids(a))),
            ];
            if a.driver@.len() > 0 {
                head.push(row(said(tr, "popup.driver"@), FigureView::Text(a.driver@)))
            } else {
                head
            }
        },
        None => Seq::empty(),
    }
}

pub open spec fn adapter_rows(v: Seq<AdapterInfo>, tr: Translator, n: int) -> Seq<ElementView>
    decreases n,
{
    if n <= 0 {
        Seq::empty()
    } else {
        adapter_rows(v, tr, n - 1).push(
            row(
                v[n - 1].name@,
                if v[n - 1].dedicated > 0 {
                    bytes(v[n - 1].dedicated)
                } else {
                    FigureView::Text(said(tr, "popup.shared"@))
                },
            ),
        )
    }
}

pub open spec fn gpu_adapters(m: MetricsData, tr: Translator) -> Seq<ElementView> {
    if m.gpu_adapters@.len() > 1 {
        seq![ElementView::Section(said(tr, "popup.all_adapters"@))] + adapter_rows(
            m.gpu_adapters@,
            tr,
            m.gpu_adapters@.len() as int,
        )
    } else {
        Seq::empty()
    }
}

pub open spec fn gpu_content(m: MetricsData, tr: Translator) -> Seq<ElementView> {
    gpu_head(m, tr) + gpu_memory(m, tr) + gpu_adapter(m, tr) + gpu_adapters(m, tr)
}

fn ids_of(a: &AdapterInfo) -> (r: String)
    ensures
        r@ == adapter_ids(*a),
{
    let mut ids: String = text::hex_number(a.vendor_id as u64, 4, true);
    ids.append(":");
    ids.append(text::hex_number(a.device_id as u64, 4, true).as_str());
    let vendor: &'static str = a.vendor();
    if text::chars_of(vendor).len() == 0 {
        ids
    } else {
        let mut s: String = vendor.to_string();
        s.append(" ");
        s.append(ids.as_str());
        assert(s@ =~= adapter_ids(*a));
        s
    }
}

fn push_gpu_head(out: &mut Vec<Element>, m: &MetricsData, tr: &Translator)
    ensures
        elements(final(out)@) == elements(old(out)@) + gpu_head(*m, *tr),
{
    let ghost o = elements(out@);
    push(out, Element::Title { title: tr.t("popup.gpu"), subtitle: m.gpu_name.clone() });
    push(out, Element::Chart(copied(&m.gpu_history)));
    match m.gpu {
        Some(v) => {
            push_colored(out, tr.t("popup.load"), Figure::Percent(v), Shade::Usage(v));
        },
        None => {
            push_row(out, tr.t("popup.load"), Figure::Text(tr.t("popup.na")));
        },
    }
    assert(elements(out@) =~= o + gpu_head(*m, *tr));
}

fn push_gpu_memory(out: &mut Vec<Element>, m: &MetricsData, tr: &Translator)
    ensures
        elements(final(out)@) == elements(old(out)@) + gpu_memory(*m, *tr),
{
    let ghost o = elements(out@);
    if m.vram_budget > 0 {
        push(out, Element::Section(tr.t("popup.video_memory")));
        push(
            out,
            Element::Bar {
                label: tr.t("popup.used"),
                fill: Fraction::Part(m.vram_used, m.vram_budget),
                value: Figure::Text(util::format_bytes(m.vram_used)),
                shade: Shade::Accent,
            },
        );
        push_row(out, tr.t("popup.budget"), Figure::Text(util::format_bytes(m.vram_budget)));
    }
    if m.vram_total > 0 {
        push_row(out, tr.t("popup.dedicated"), Figure::Text(util::format_bytes(m.vram_total)));
    }
    assert(elements(out@) =~= o + gpu_memory(*m, *tr));
}

fn push_gpu_adapter(out: &mut Vec<Element>, m: &MetricsData, tr: &Translator)
    ensures
        elements(final(out)@) == elements(old(out)@) + gpu_adapter(*m, *tr),
{
    let ghost o = elements(out@);
    if let Some(a) = &m.gpu_primary {
        push(out, Element::Section(tr.t("popup.adapter")));
        push_row(out, tr.t("popup.vendor_device"), Figure::Text(ids_of(a)));
        if text::chars_of(a.driver.as_str()).len() > 0 {
            push_row(out, tr.t("popup.driver"), Figure::Text(a.driver.clone()));
        }
    }
    assert(elements(out@) =~= o + gpu_adapter(*m, *tr));
}

fn push_gpu_adapters(out: &mut Vec<Element>, m: &MetricsData, tr: &Translator)
    ensures
        elements(final(out)@) == elements(old(out)@) + gpu_adapters(*m, *tr),
{
    let ghost o = elements(out@);
    if m.gpu_adapters.len() > 1 {
        push(out, Element::Section(tr.t("popup.all_adapters")));
        let ghost o1 = elements(out@);
        let mut i: usize = 0;
        assert(o1 =~= o1 + adapter_rows(m.gpu_adapters@, *tr, 0));
        while i < m.gpu_adapters.len()
            invariant
                i <= m.gpu_adapters.len(),
                elements(out@) == o1 + adapter_rows(m.gpu_adapters@, *tr, i as int),
            decreases m.gpu_adapters.len() - i,
        {
            let a: &AdapterInfo = &m.gpu_adapters[i];
            let value: Figure = if a.dedicated > 0 {
                Figure::Text(util::format_bytes(a.dedicated))
            } else {
                Figure::Text(tr.t("popup.shared"))
            };
            push_row(out, a.name.clone(), value);
            i += 1;
            assert(elements(out@) =~= o1 + adapter_rows(m.gpu_adapters@, *tr, i as int));
        }
    }
    assert(elements(out@) =~= o + gpu_adapters(*m, *tr));
}

pub fn draw_gpu(m: &MetricsData, tr: &Translator) -> (r: Vec<Element>)
    ensures
        elements(r@) == gpu_content(*m, *tr),
{
    let mut out: Vec<Element> = Vec::new();
    push_gpu_head(&mut out, m, tr);
    push_gpu_memory(&mut out, m, tr);
    push_gpu_adapter(&mut out, m, tr);
    push_gpu_adapters(&mut out, m, tr);
    assert(elements(out@) =~= gpu_content(*m, *tr));
    out
}

// ---------------------------------------------------------------------------
// Network

pub open spec fn net_head(m: MetricsData, tr: Translator) -> Seq<ElementView> {
    let down = said(tr, "popup.download"@);
    let up = said(tr, "popup.upload"@);
    seq![
        ElementView::Title {
            title: said(tr, "popup.network"@),
            subtitle: if m.net_ip@.len() == 0 {
                m.net_iface@
            } else {
                m.net_iface@ + dot() + m.net_ip@
            },
        },
        ElementView::Pair {
            first: m.net_history@.map_values(layout::first_of()),
            second: m.net_history@.map_values(layout::second_of()),
            floor: layout::NET_FLOOR,
            colors: (layout::down_color(), layout::up_color()),
            labels: (down, up),
        },
        colored(down, FigureView::Rate(m.net_rx), Shade::Fixed(layout::down_color())),
        colored(up, FigureView::Rate(m.net_tx), Shade::Fixed(layout::up_color())),
        ElementView::Section(said(tr, "popup.since_start"@)),
        row(said(tr, "popup.received"@), bytes(m.net_total_rx)),
        row(said(tr, "popup.sent"@), bytes(m.net_total_tx)),
    ]
}

/// The name of an interface, with the wireless network it has joined.
pub open spec fn iface_name(i: NetIface) -> Seq<char> {
    if i.ssid@.len() > 0 {
        i.alias@ + dot() + i.ssid@
    } else {
        i.alias@
    }
}

/// The hardware of an interface, its kind where the name does not say it, and
/// its address; `alias` and `kind` are its name and kind in lower case.
pub open spec fn iface_text_with(i: NetIface, alias: Seq<char>, kind: Seq<char>) -> Seq<char> {
    let named = if i.kind@.len() > 0 && !text::has(alias, kind) {
        i.description@ + dot() + i.kind@
    } else {
        i.description@
    };
    if i.ip@.len() > 0 {
        named + dot() + i.ip@
    } else {
        named
    }
}

pub open spec fn iface_text(i: NetIface) -> Seq<char> {
    iface_text_with(i, text::lowercase(i.alias@), text::lowercase(i.kind@))
}

pub open spec fn iface_elements(i: NetIface, tr: Translator) -> Seq<ElementView> {
    let main = Ink { shade: Shade::Text, on: i.enabled };
    let faint = Ink { shade: Shade::Dim, on: i.enabled };
    seq![
        ElementView::Row {
            label: iface_name(i),
            value: if i.up {
                FigureView::Rates(i.rx_bps, i.tx_bps)
            } else {
                FigureView::Text(said(tr, "popup.disconnected"@))
            },
            label_ink: main,
            ink: if i.up {
                main
            } else {
                faint
            },
        },
        ElementView::Row {
            label: "    "@ + iface_text(i),
            value: FigureView::Text(Seq::empty()),
            label_ink: faint,
            ink: faint,
        },
        ElementView::Click(ActionView::ToggleNet(i.alias@)),
    ]
}

pub open spec fn ifaces_elements(v: Seq<NetIface>, tr: Translator, n: int) -> Seq<ElementView>
    decreases n,
{
    if n <= 0 {
        Seq::empty()
    } else {
        ifaces_elements(v, tr, n - 1) + iface_elements(v[n - 1], tr)
    }
}

pub open spec fn net_ifaces(m: MetricsData, tr: Translator) -> Seq<ElementView> {
    if m.net_ifaces@.len() > 0 {
        seq![ElementView::Section(said(tr, "popup.interfaces"@))] + ifaces_elements(
            m.net_ifaces@,
            tr,
            m.net_ifaces@.len() as int,
        )
    } else {
        Seq::empty()
    }
}

pub open spec fn net_content(m: MetricsData, tr: Translator) -> Seq<ElementView> {
    net_head(m, tr) + net_ifaces(m, tr)
}

fn split_pairs(h: &VecDeque<(Single, Single)>) -> (r: (Vec<Single>, Vec<Single>))
    ensures
        r.0@ == h@.map_values(layout::first_of()),
        r.1@ == h@.map_values(layout::second_of()),
{
    let mut first: Vec<Single> = Vec::new();
    let mut second: Vec<Single> = Vec::new();
    let mut i: usize = 0;
    while i < h.len()
        invariant
            i <= h.len(),
            first@ == h@.take(i as int).map_values(layout::first_of()),
            second@ == h@.take(i as int).map_values(layout::second_of()),
        decreases h.len() - i,
    {
        first.push(h[i].0);
        second.push(h[i].1);
        i += 1;
        assert(first@ =~= h@.take(i as int).map_values(layout::first_of()));
        assert(second@ =~= h@.take(i as int).map_values(layout::second_of()));
    }
    assert(h@.take(h@.len() as int) =~= h@);
    (first, second)
}

fn push_net_head(out: &mut Vec<Element>, m: &MetricsData, tr: &Translator)
    ensures
        elements(final(out)@) == elements(old(out)@) + net_head(*m, *tr),
{
    let ghost o = elements(out@);
    let mut sub: String = m.net_iface.clone();
    if text::chars_of(m.net_ip.as_str()).len() > 0 {
        sub.append(" \u{00B7} ");
        sub.append(m.net_ip.as_str());
    }
    push(out, Element::Title { title: tr.t("popup.network"), subtitle: sub });
    let (first, second) = split_pairs(&m.net_history);
    push(
        out,
        Element::Pair {
            first,
            second,
            floor: layout::NET_FLOOR,
            colors: (layout::down_color(), layout::up_color()),
            labels: (tr.t("popup.download"), tr.t("popup.upload")),
        },
    );
    push_colored(
        out,
        tr.t("popup.download"),
        Figure::Rate(m.net_rx),
        Shade::Fixed(layout::down_color()),
    );
    push_colored(
        out,
        tr.t("popup.upload"),
        Figure::Rate(m.net_tx),
        Shade::Fixed(layout::up_color()),
    );
    push(out, Element::Section(tr.t("popup.since_start")));
    push_row(out, tr.t("popup.received"), Figure::Text(util::format_bytes(m.net_total_rx)));
    push_row(out, tr.t("popup.sent"), Figure::Text(util::format_bytes(m.net_total_tx)));
    assert(elements(out@) =~= o + net_head(*m, *tr));
}

fn text_of_iface(i: &NetIface) -> (r: String)
    ensures
        r@ == iface_text(*i),
{
    let alias: String = text::to_lower(i.alias.as_str());
    let kind: String = text::to_lower(i.kind);
    describe_iface(i, alias.as_str(), kind.as_str())
}

/// The text of an interface, given its name and kind in lower case.
pub fn describe_iface(i: &NetIface, alias: &str, kind: &str) -> (r: String)
    ensures
        r@ == iface_text_with(*i, alias@, kind@),
{
    let mut desc: String = i.description.clone();
    if text::chars_of(i.kind).len() > 0 && !text::contains(alias, kind) {
        desc.append(" \u{00B7} ");
        desc.append(i.kind);
    }
    if text::chars_of(i.ip.as_str()).len() > 0 {
        desc.append(" \u{00B7} ");
        desc.append(i.ip.as_str());
    }
    desc
}

fn push_iface(out: &mut Vec<Element>, i: &NetIface, tr: &Translator)
    ensures
        elements(final(out)@) == elements(old(out)@) + iface_elements(*i, *tr),
{
    let ghost o = elements(out@);
    let main: Ink = Ink { shade: Shade::Text, on: i.enabled };
    let faint: Ink = Ink { shade: Shade::Dim, on: i.enabled };
    let mut name: String = i.alias.clone();
    if text::chars_of(i.ssid.as_str()).len() > 0 {
        name.append(" \u{00B7} ");
        name.append(i.ssid.as_str());
    }
    let value: Figure = if i.up {
        Figure::Rates(i.rx_bps, i.tx_bps)
    } else {
        Figure::Text(tr.t("popup.disconnected"))
    };
    let ink: Ink = if i.up {
        main
    } else {
        faint
    };
    push(out, Element::Row { label: name, value, label_ink: main, ink });
    let mut line: String = "    ".to_string();
    line.append(text_of_iface(i).as_str());
    let empty: String = String::new();
    assert(empty@ =~= Seq::<char>::empty());
    push(
        out,
        Element::Row { label: line, value: Figure::Text(empty), label_ink: faint, ink: faint },
    );
    push(out, Element::Click(Action::ToggleNet(i.alias.clone())));
    assert(elements(out@) =~= o + iface_elements(*i, *tr));
}

fn push_ifaces(out: &mut Vec<Element>, m: &MetricsData, tr: &Translator)
    ensures
        elements(final(out)@) == elements(old(out)@) + net_ifaces(*m, *tr),
{
    let ghost o = elements(out@);
    if m.net_ifaces.len() > 0 {
        push(out, Element::Section(tr.t("popup.interfaces")));
        let ghost o1 = elements(out@);
        let mut i: usize = 0;
        assert(o1 =~= o1 + ifaces_elements(m.net_ifaces@, *tr, 0));
        while i < m.net_ifaces.len()
            invariant
                i <= m.net_ifaces.len(),
                elements(out@) == o1 + ifaces_elements(m.net_ifaces@, *tr, i as int),
            decreases m.net_ifaces.len() - i,
        {
            push_iface(out, &m.net_ifaces[i], tr);
            i += 1;
            assert(elements(out@) =~= o1 + ifaces_elements(m.net_ifaces@, *tr, i as int));
        }
    }
    assert(elements(out@) =~= o + net_ifaces(*m, *tr));
}

pub fn draw_net(m: &MetricsData, tr: &Translator) -> (r: Vec<Element>)
    ensures
        elements(r@) == net_content(*m, *tr),
{
    let mut out: Vec<Element> = Vec::new();
    push_net_head(&mut out, m, tr);
    push_ifaces(&mut out, m, tr);
    assert(elements(out@) =~= net_content(*m, *tr));
    out
}

// ---------------------------------------------------------------------------
// Disks

pub open spec fn disk_head(m: MetricsData, tr: Translator) -> Seq<ElementView> {
    let read = said(tr, "popup.read"@);
    let write = said(tr, "popup.write"@);
    seq![
        ElementView::Title {
            title: said(tr, "popup.disk"@),
            subtitle: if m.disks@.len() == 0 {
                Seq::empty()
            } else if m.disks@.len() == 1 {
                m.disks@[0].model@
            } else {
                said_of(tr, "popup.physical_disks_n"@, "n"@, text::decimal(m.disks@.len()))
            },
        },
        ElementView::Pair {
            first: m.disk_history@.map_values(layout::first_of()),
            second: m.disk_history@.map_values(layout::second_of()),
            floor: layout::DISK_FLOOR,
            colors: (layout::read_color(), layout::write_color()),
            labels: (read, write),
        },
        colored(read, FigureView::Rate(m.disk_read), Shade::Fixed(layout::read_color())),
        colored(write, FigureView::Rate(m.disk_write), Shade::Fixed(layout::write_color())),
    ]
}

/// The bus and the size of a disk, as far as they are known.
pub open spec fn disk_text(d: PhysicalDisk) -> Seq<char> {
    if d.size > 0 {
        let size = util::bytes_text(d.size as nat);
        if d.bus@.len() > 0 {
            d.bus@ + dot() + size
        } else {
            size
        }
    } else {
        d.bus@
    }
}

pub open spec fn disk_elements(d: PhysicalDisk, tr: Translator) -> Seq<ElementView> {
    let main = Ink { shade: Shade::Text, on: d.enabled };
    let faint = Ink { shade: Shade::Dim, on: d.enabled };
    seq![
        ElementView::Row {
            label: d.model@,
            value: FigureView::Text(disk_text(d)),
            label_ink: main,
            ink: faint,
        },
        ElementView::Row {
            label: "    "@ + said(tr, "popup.read_write"@),
            value: FigureView::Rates(d.read_bps, d.write_bps),
            label_ink: faint,
            ink: main,
        },
        ElementView::Click(ActionView::ToggleDisk(d.model@)),
    ]
}

pub open spec fn disks_elements(v: Seq<PhysicalDisk>, tr: Translator, n: int) -> Seq<ElementView>
    decreases n,
{
    if n <= 0 {
        Seq::empty()
    } else {
        disks_elements(v, tr, n - 1) + disk_elements(v[n - 1], tr)
    }
}

pub open spec fn physical_disks(m: MetricsData, tr: Translator) -> Seq<ElementView> {
    if m.disks@.len() > 0 {
        seq![ElementView::Section(said(tr, "popup.physical_disks"@))] + disks_elements(
            m.disks@,
            tr,
            m.disks@.len() as int,
        )
    } else {
        Seq::empty()
    }
}

/// The kind and the file system of a drive, as far as they are known, in
/// brackets.
pub open spec fn drive_tags(d: Drive) -> Seq<char> {
    if d.kind@.len() > 0 && d.fs@.len() > 0 {
        " ("@ + d.kind@ + ", "@ + d.fs@ + ")"@
    } else if d.kind@.len() > 0 {
        " ("@ + d.kind@ + ")"@
    } else if d.fs@.len() > 0 {
        " ("@ + d.fs@ + ")"@
    } else {
        Seq::empty()
    }
}

pub open spec fn drive_label(d: Drive) -> Seq<char> {
    (if d.label@.len() == 0 {
        d.name@
    } else {
        d.name@ + " "@ + d.label@
    }) + drive_tags(d)
}

/// A drive: how full it is and what is free; of one that cannot be written to,
/// where nothing can be freed, only the size.
pub open spec fn drive_element(d: Drive, tr: Translator) -> ElementView {
    if d.readonly {
        row(
            drive_label(d),
            FigureView::Text(
                said_of(tr, "popup.total"@, "size"@, util::bytes_text(d.total as nat)),
            ),
        )
    } else {
        ElementView::Bar {
            label: drive_label(d),
            fill: Fraction::Part(
                less(d.total as int, d.free as int) as u64,
                if d.total > 1 {
                    d.total
                } else {
                    1
                },
            ),
            value: bytes(d.free),
            shade: Shade::Fill,
        }
    }
}

pub open spec fn drive_elements(v: Seq<Drive>, tr: Translator, n: int) -> Seq<ElementView>
    decreases n,
{
    if n <= 0 {
        Seq::empty()
    } else {
        drive_elements(v, tr, n - 1).push(drive_element(v[n - 1], tr))
    }
}

pub open spec fn disk_content(m: MetricsData, tr: Translator) -> Seq<ElementView> {
    disk_head(m, tr) + physical_disks(m, tr) + processes(tr, ProcMode::Io) + seq![
        ElementView::Section(said(tr, "popup.drives"@)),
    ] + drive_elements(m.drives@, tr, m.drives@.len() as int)
}

fn push_disk_head(out: &mut Vec<Element>, m: &MetricsData, tr: &Translator)
    ensures
        elements(final(out)@) == elements(old(out)@) + disk_head(*m, *tr),
{
    let ghost o = elements(out@);
    let sub: String = if m.disks.len() == 0 {
        String::new()
    } else if m.disks.len() == 1 {
        m.disks[0].model.clone()
    } else {
        let n: String = text::number(m.disks.len() as u64);
        say_of(tr, "popup.physical_disks_n", "n", n.as_str())
    };
    assert(m.disks@.len() == 0 ==> sub@ =~= Seq::<char>::empty());
    push(out, Element::Title { title: tr.t("popup.disk"), subtitle: sub });
    let (first, second) = split_pairs(&m.disk_history);
    push(
        out,
        Element::Pair {
            first,
            second,
            floor: layout::DISK_FLOOR,
            colors: (layout::read_color(), layout::write_color()),
            labels: (tr.t("popup.read"), tr.t("popup.write")),
        },
    );
    push_colored(
        out,
        tr.t("popup.read"),
        Figure::Rate(m.disk_read),
        Shade::Fixed(layout::read_color()),
    );
    push_colored(
        out,
        tr.t("popup.write"),
        Figure::Rate(m.disk_write),
        Shade::Fixed(layout::write_color()),
    );
    assert(elements(out@) =~= o + disk_head(*m, *tr));
}

fn push_disk(out: &mut Vec<Element>, d: &PhysicalDisk, tr: &Translator)
    ensures
        elements(final(out)@) == elements(old(out)@) + disk_elements(*d, *tr),
{
    let ghost o = elements(out@);
    let main: Ink = Ink { shade: Shade::Text, on: d.enabled };
    let faint: Ink = Ink { shade: Shade::Dim, on: d.enabled };
    let mut desc: String = d.bus.to_string();
    if d.size > 0 {
        if text::chars_of(d.bus).len() > 0 {
            desc.append(" \u{00B7} ");
        }
        desc.append(util::format_bytes(d.size).as_str());
    }
    assert(desc@ =~= disk_text(*d));
    push(
        out,
        Element::Row {
            label: d.model.clone(),
            value: Figure::Text(desc),
            label_ink: main,
            ink: faint,
        },
    );
    let mut line: String = "    ".to_string();
    line.append(tr.t("popup.read_write").as_str());
    push(
        out,
        Element::Row {
            label: line,
            value: Figure::Rates(d.read_bps, d.write_bps),
            label_ink: faint,
            ink: main,
        },
    );
    push(out, Element::Click(Action::ToggleDisk(d.model.clone())));
    assert(elements(out@) =~= o + disk_elements(*d, *tr));
}

fn push_disks(out: &mut Vec<Element>, m: &MetricsData, tr: &Translator)
    ensures
        elements(final(out)@) == elements(old(out)@) + physical_disks(*m, *tr),
{
    let ghost o = elements(out@);
    if m.disks.len() > 0 {
        push(out, Element::Section(tr.t("popup.physical_disks")));
        let ghost o1 = elements(out@);
        let mut i: usize = 0;
        assert(o1 =~= o1 + disks_elements(m.disks@, *tr, 0));
        while i < m.disks.len()
            invariant
                i <= m.disks.len(),
                elements(out@) == o1 + disks_elements(m.disks@, *tr, i as int),
            decreases m.disks.len() - i,
        {
            push_disk(out, &m.disks[i], tr);
            i += 1;
            assert(elements(out@) =~= o1 + disks_elements(m.disks@, *tr, i as int));
        }
    }
    assert(elements(out@) =~= o + physical_disks(*m, *tr));
}

fn label_of_drive(d: &Drive) -> (r: String)
    ensures
        r@ == drive_label(*d),
{
    let mut s: String = d.name.clone();
    if text::chars_of(d.label.as_str()).len() > 0 {
        s.append(" ");
        s.append(d.label.as_str());
    }
    let kind: bool = text::chars_of(d.kind).len() > 0;
    let fs: bool = text::chars_of(d.fs.as_str()).len() > 0;
    if kind || fs {
        s.append(" (");
        if kind {
            s.append(d.kind);
        }
        if kind && fs {
            s.append(", ");
        }
        if fs {
            s.append(d.fs.as_str());
        }
        s.append(")");
    }
    assert(s@ =~= drive_label(*d));
    s
}

fn push_drives(out: &mut Vec<Element>, m: &MetricsData, tr: &Translator)
    ensures
        elements(final(out)@) == elements(old(out)@) + drive_elements(
            m.drives@,
            *tr,
            m.drives@.len() as int,
        ),
{
    let ghost o = elements(out@);
    let mut i: usize = 0;
    assert(o =~= o + drive_elements(m.drives@, *tr, 0));
    while i < m.drives.len()
        invariant
            i <= m.drives.len(),
            elements(out@) == o + drive_elements(m.drives@, *tr, i as int),
        decreases m.drives.len() - i,
    {
        let d: &Drive = &m.drives[i];
        let label: String = label_of_drive(d);
        if d.readonly {
            let size: String = util::format_bytes(d.total);
            push_row(out, label, Figure::Text(say_of(tr, "popup.total", "size", size.as_str())));
        } else {
            push(
                out,
                Element::Bar {
                    label,
                    fill: Fraction::Part(
                        saturating(d.total, d.free),
                        if d.total > 1 {
                            d.total
                        } else {
                            1
                        },
                    ),
                    value: Figure::Text(util::format_bytes(d.free)),
                    shade: Shade::Fill,
                },
            );
        }
        i += 1;
        assert(elements(out@) =~= o + drive_elements(m.drives@, *tr, i as int));
    }
}

pub fn draw_disk(m: &MetricsData, tr: &Translator) -> (r: Vec<Element>)
    ensures
        elements(r@) == disk_content(*m, *tr),
{
    let mut out: Vec<Element> = Vec::new();
    push_disk_head(&mut out, m, tr);
    push_disks(&mut out, m, tr);
    push_processes(&mut out, tr, ProcMode::Io);
    push(&mut out, Element::Section(tr.t("popup.drives")));
    push_drives(&mut out, m, tr);
    assert(elements(out@) =~= disk_content(*m, *tr));
    out
}

// ---------------------------------------------------------------------------
// Battery

pub open spec fn battery_head(m: MetricsData, tr: Translator) -> Seq<ElementView> {
    let b = m.battery->0;
    let head = seq![
        ElementView::Title {
            title: said(tr, "popup.battery"@),
            subtitle: if b.charging {
                said(tr, "popup.charging"@)
            } else if b.on_ac {
                said(tr, "popup.plugged_in"@)
            } else {
                said(tr, "popup.discharging"@)
            },
        },
        ElementView::Bar {
            label: said(tr, "popup.level"@),
            fill: Fraction::Share(b.level),
            value: FigureView::Percent(b.level),
            shade: battery_shade(m),
        },
    ];
    match b.remaining_secs {
        Some(s) => head.push(
            row(
                said(tr, "popup.time_remaining"@),
                FigureView::Text(util::duration_text(s as nat)),
            ),
        ),
        None => head,
    }
}

/// Green on mains or while charging, red and yellow where it runs low, else
/// the accent.
pub open spec fn battery_shade(m: MetricsData) -> Shade {
    let b = m.battery->0;
    if b.charging || b.on_ac {
        Shade::Fixed(crate::canvas::green())
    } else if b.level.lt(Single { bits: layout::BATTERY_LOW }) {
        Shade::Fixed(crate::canvas::red())
    } else if b.level.lt(Single { bits: layout::BATTERY_MIDDLE }) {
        Shade::Fixed(crate::canvas::yellow())
    } else {
        Shade::Accent
    }
}

pub open spec fn battery_details(m: MetricsData, tr: Translator) -> Seq<ElementView> {
    match m.battery_detail {
        Some(d) => {
            let power = if d.rate_mw != 0 {
                seq![
                    row(
                        said(tr, "popup.power"@),
                        FigureView::Watts(
                            (if d.rate_mw < 0 {
                                -d.rate_mw
                            } else {
                                d.rate_mw as int
                            }) as u32,
                        ),
                    ),
                ]
            } else {
                Seq::empty()
            };
            let capacity = if d.max_mwh > 0 {
                seq![
                    row(
                        said(tr, "popup.capacity"@),
                        FigureView::WattHours(d.remaining_mwh, d.max_mwh),
                    ),
                ]
            } else {
                Seq::empty()
            };
            seq![ElementView::Section(said(tr, "popup.details"@))] + power + capacity
        },
        None => Seq::empty(),
    }
}

pub open spec fn battery_content(m: MetricsData, tr: Translator) -> Seq<ElementView> {
    if m.battery.is_none() {
        seq![
            ElementView::Title {
                title: said(tr, "popup.battery"@),
                subtitle: said(tr, "popup.no_battery"@),
            },
        ]
    } else {
        battery_head(m, tr) + battery_details(m, tr)
    }
}

fn push_battery_details(out: &mut Vec<Element>, m: &MetricsData, tr: &Translator)
    ensures
        elements(final(out)@) == elements(old(out)@) + battery_details(*m, *tr),
{
    let ghost o = elements(out@);
    if let Some(d) = &m.battery_detail {
        push(out, Element::Section(tr.t("popup.details")));
        if d.rate_mw != 0 {
            let mw: u32 = if d.rate_mw < 0 {
                (-(d.rate_mw as i64)) as u32
            } else {
                d.rate_mw as u32
            };
            push_row(out, tr.t("popup.power"), Figure::Watts(mw));
        }
        if d.max_mwh > 0 {
            push_row(
                out,
                tr.t("popup.capacity"),
                Figure::WattHours(d.remaining_mwh, d.max_mwh),
            );
        }
    }
    assert(elements(out@) =~= o + battery_details(*m, *tr));
}

fn push_battery_head(out: &mut Vec<Element>, m: &MetricsData, tr: &Translator)
    requires
        m.battery.is_some(),
    ensures
        elements(final(out)@) == elements(old(out)@) + battery_head(*m, *tr),
{
    let ghost o = elements(out@);
    if let Some(b) = &m.battery {
        let state: String = if b.charging {
            tr.t("popup.charging")
        } else if b.on_ac {
            tr.t("popup.plugged_in")
        } else {
            tr.t("popup.discharging")
        };
        push(out, Element::Title { title: tr.t("popup.battery"), subtitle: state });
        let shade: Shade = if b.charging || b.on_ac {
            Shade::Fixed(crate::canvas::green())
        } else if b.level.less(Single { bits: layout::BATTERY_LOW }) {
            Shade::Fixed(crate::canvas::red())
        } else if b.level.less(Single { bits: layout::BATTERY_MIDDLE }) {
            Shade::Fixed(crate::canvas::yellow())
        } else {
            Shade::Accent
        };
        push(
            out,
            Element::Bar {
                label: tr.t("popup.level"),
                fill: Fraction::Share(b.level),
                value: Figure::Percent(b.level),
                shade,
            },
        );
        if let Some(s) = b.remaining_secs {
            push_row(
                out,
                tr.t("popup.time_remaining"),
                Figure::Text(util::format_duration(s)),
            );
        }
    }
    assert(elements(out@) =~= o + battery_head(*m, *tr));
}

pub fn draw_battery(m: &MetricsData, tr: &Translator) -> (r: Vec<Element>)
    ensures
        elements(r@) == battery_content(*m, *tr),
{
    let mut out: Vec<Element> = Vec::new();
    if m.battery.is_none() {
        push(
            &mut out,
            Element::Title { title: tr.t("popup.battery"), subtitle: tr.t("popup.no_battery") },
        );
    } else {
        push_battery_head(&mut out, m, tr);
        push_battery_details(&mut out, m, tr);
    }
    assert(elements(out@) =~= battery_content(*m, *tr));
    out
}

// ---------------------------------------------------------------------------
// All of them

/// What the popup of a module shows.
pub open spec fn content_of(kind: Kind, m: MetricsData, tr: Translator) -> Seq<ElementView> {
    match kind {
        Kind::Cpu => cpu_content(m, tr),
        Kind::Gpu => gpu_content(m, tr),
        Kind::Mem => mem_content(m, tr),
        Kind::Disk => disk_content(m, tr),
        Kind::Net => net_content(m, tr),
        Kind::Battery => battery_content(m, tr),
    }
}

pub fn content(kind: Kind, m: &MetricsData, tr: &Translator) -> (r: Vec<Element>)
    requires
        kind == Kind::Mem ==> pools_fit(*m),
    ensures
        elements(r@) == content_of(kind, *m, *tr),
{
    match kind {
        Kind::Cpu => draw_cpu(m, tr),
        Kind::Gpu => draw_gpu(m, tr),
        Kind::Mem => draw_mem(m, tr),
        Kind::Disk => draw_disk(m, tr),
        Kind::Net => draw_net(m, tr),
        Kind::Battery => draw_battery(m, tr),
    }
}

/// Bits of the number nearest to eight tenths.
pub const EIGHT_TENTHS: u32 = 0x3f4c_cccd;

pub open spec fn fill_shade(fill: Single, accent: Color) -> Color {
    if (Single { bits: crate::canvas::NINE_TENTHS }).lt(fill) {
        crate::canvas::red()
    } else if (Single { bits: EIGHT_TENTHS }).lt(fill) {
        crate::canvas::yellow()
    } else {
        accent
    }
}

/// The colour of a drive's bar: red above nine tenths, yellow above eight, else
/// the accent.
pub fn fill_color(fill: Single, accent: Color) -> (r: Color)
    ensures
        r == fill_shade(fill, accent),
{
    let high: Single = Single { bits: crate::canvas::NINE_TENTHS };
    let middle: Single = Single { bits: EIGHT_TENTHS };
    if high.less(fill) {
        crate::canvas::red()
    } else if middle.less(fill) {
        crate::canvas::yellow()
    } else {
        accent
    }
}

/// The key of what stands in place of an empty list of processes.
pub fn empty_list_key(mode: ProcMode) -> (r: &'static str)
    ensures
        r@ == (if mode == ProcMode::Io {
            "popup.nothing_io"@
        } else {
            "popup.collecting"@
        }),
{
    match mode {
        ProcMode::Io => "popup.nothing_io",
        _ => "popup.collecting",
    }
}

// ---------------------------------------------------------------------------
// What a reader of a popup finds

/// The element at `i` is a row with this label and this value.
pub open spec fn row_at(s: Seq<ElementView>, i: int, label: Seq<char>, value: FigureView) -> bool {
    0 <= i < s.len() && (s[i] matches ElementView::Row { label: l, value: v, .. } && l == label && v
        == value)
}

/// Whoever looks for a label finds this value beside it: there is such a row, and
/// no row with the label says anything else.
pub open spec fn says(s: Seq<ElementView>, label: Seq<char>, value: FigureView) -> bool {
    &&& exists|i: int| #[trigger] row_at(s, i, label, value)
    &&& forall|i: int|
        0 <= i < s.len() && (#[trigger] s[i] matches ElementView::Row { label: l, .. } && l
            == label) ==> row_at(s, i, label, value)
}

/// Whoever looks for a label finds this bar beside it.
pub open spec fn bar_says(
    s: Seq<ElementView>,
    label: Seq<char>,
    fill: Fraction,
    value: FigureView,
) -> bool {
    &&& exists|i: int|
        0 <= i < s.len() && (#[trigger] s[i] matches ElementView::Bar { label: l, .. } && l
            == label)
    &&& forall|i: int|
        0 <= i < s.len() && (#[trigger] s[i] matches ElementView::Bar { label: l, .. } && l
            == label) ==> (s[i] matches ElementView::Bar { fill: f, value: v, .. } && f == fill && v
            == value)
}

/// In the popup of the memory, the row of what is used says the bytes in use,
/// the row of what is free says the bytes that this leaves of the total, and the
/// row of what is committed says how much of how much. The labels can be told
/// apart where no two of them have the same text.
pub proof fn law_memory_rows_say_what_they_name(m: MetricsData, tr: Translator, r: Seq<Element>)
    requires
        elements(r) == content_of(Kind::Mem, m, tr),
        m.mem.used <= m.mem.total,
        seq![
            i18n::text_of(tr, "popup.usage"@),
            i18n::text_of(tr, "popup.used"@),
            i18n::text_of(tr, "popup.free"@),
            i18n::text_of(tr, "popup.committed"@),
            i18n::text_of(tr, "popup.file_cache"@),
        ].no_duplicates(),
    ensures
        says(
            elements(r),
            i18n::text_of(tr, "popup.used"@),
            FigureView::Text(util::bytes_text(m.mem.used as nat)),
        ),
        says(
            elements(r),
            i18n::text_of(tr, "popup.free"@),
            FigureView::Text(util::bytes_text((m.mem.total - m.mem.used) as nat)),
        ),
        says(elements(r), i18n::text_of(tr, "popup.usage"@), FigureView::Percent(m.mem.pct)),
        says(
            elements(r),
            i18n::text_of(tr, "popup.committed"@),
            FigureView::Text(
                util::bytes_text(m.mem.commit_used as nat) + " / "@ + util::bytes_text(
                    m.mem.commit_total as nat,
                ),
            ),
        ),
        m.mem_processes > 0 ==> says(
            elements(r),
            i18n::text_of(tr, "popup.file_cache"@),
            FigureView::Text(util::bytes_text(m.mem_cache as nat)),
        ),
{
    let l = seq![
        i18n::text_of(tr, "popup.usage"@),
        i18n::text_of(tr, "popup.used"@),
        i18n::text_of(tr, "popup.free"@),
        i18n::text_of(tr, "popup.committed"@),
        i18n::text_of(tr, "popup.file_cache"@),
    ];
    assert(forall|i: int, j: int| 0 <= i < j < 5 ==> l[i] != l[j]);
    assert(l[0] != l[1] && l[0] != l[2] && l[0] != l[3] && l[0] != l[4] && l[1] != l[2] && l[1]
        != l[3] && l[1] != l[4] && l[2] != l[3] && l[2] != l[4] && l[3] != l[4]);
    let s = elements(r);
    let n = mem_parts(m, tr).len();
    assert(s.len() == 8 + n);
    assert(row_at(s, 2, l[0], FigureView::Percent(m.mem.pct)));
    assert(row_at(s, 3, l[1], bytes(m.mem.used)));
    assert(row_at(s, 4, l[2], bytes(free_memory(m))));
    assert(s[5] == mem_head(m, tr)[5]);
    assert(row_at(
        s,
        5,
        l[3],
        FigureView::Text(
            util::bytes_text(m.mem.commit_used as nat) + " / "@ + util::bytes_text(
                m.mem.commit_total as nat,
            ),
        ),
    ));
    if m.mem_processes > 0 {
        assert(s[6] == mem_parts(m, tr)[0]);
        assert(s[7] == mem_parts(m, tr)[1]);
        assert(s[8] == mem_parts(m, tr)[2]);
        assert(row_at(s, 8, l[4], bytes(m.mem_cache)));
    }
    assert(s[6 + n as int] == processes(tr, ProcMode::Mem)[0]);
    assert(s[7 + n as int] == processes(tr, ProcMode::Mem)[1]);
    assert(s[0] == mem_head(m, tr)[0] && s[1] == mem_head(m, tr)[1]);
}

/// The bytes of the first `n` slices.
pub open spec fn slice_sum(v: Seq<(Seq<char>, u64, Ink)>, n: nat) -> nat
    decreases n,
{
    if n == 0 {
        0
    } else {
        slice_sum(v, (n - 1) as nat) + v[n - 1].1 as nat
    }
}

/// Where the parts of the memory are known, the chart shows them with their own
/// sizes, and the slices make up the whole memory: what the programs have, what
/// the kernel has, what else is used, and what is free.
pub proof fn law_memory_chart_is_the_whole(m: MetricsData, tr: Translator, r: Seq<Element>)
    requires
        elements(r) == content_of(Kind::Mem, m, tr),
        m.mem_processes > 0,
        m.mem_processes + m.mem_kernel_paged + m.mem_kernel_nonpaged <= m.mem.used,
        m.mem.used <= m.mem.total,
    ensures
        exists|i: int|
            0 <= i < r.len() && (#[trigger] elements(r)[i] matches ElementView::Pie(v) && v.len()
                == 4 && slice_sum(v, 4) == m.mem.total && v[0].0 == i18n::text_of(
                tr,
                "popup.processes_private"@,
            ) && v[0].1 == m.mem_processes && v[1].0 == i18n::text_of(tr, "popup.kernel_pools"@)
                && v[1].1 == m.mem_kernel_paged + m.mem_kernel_nonpaged && v[3].0 == i18n::text_of(
                tr,
                "popup.available_memory"@,
            ) && v[3].1 == m.mem.total - m.mem.used),
{
    let s = elements(r);
    let v = mem_slices(m, tr);
    assert(s[7] == mem_parts(m, tr)[1]);
    assert(s[7] == ElementView::Pie(v));
    reveal_with_fuel(slice_sum, 5);
    assert(slice_sum(v, 4) == m.mem.total);
    assert(r.len() == s.len() && s.len() == 11);
    assert(v.len() == 4);
    assert(v[1].1 == m.mem_kernel_paged + m.mem_kernel_nonpaged);
    assert(v[3].1 == m.mem.total - m.mem.used);
}

/// In the popup of the processor, each of load, system, programs and idle says
/// its own share, and idle says what the load leaves.
pub proof fn law_processor_rows_say_what_they_name(m: MetricsData, tr: Translator, r: Seq<Element>)
    requires
        elements(r) == content_of(Kind::Cpu, m, tr),
        !is_hybrid(m.cpu_classes@),
        seq![
            i18n::text_of(tr, "popup.load"@),
            i18n::text_of(tr, "popup.system"@),
            i18n::text_of(tr, "popup.user"@),
            i18n::text_of(tr, "popup.idle"@),
            i18n::text_of(tr, "popup.sockets"@),
        ].no_duplicates(),
    ensures
        says(elements(r), i18n::text_of(tr, "popup.load"@), FigureView::Percent(m.cpu_total)),
        says(elements(r), i18n::text_of(tr, "popup.system"@), FigureView::Percent(m.cpu_system)),
        says(elements(r), i18n::text_of(tr, "popup.user"@), FigureView::Percent(m.cpu_user)),
        says(elements(r), i18n::text_of(tr, "popup.idle"@), FigureView::Rest(m.cpu_total)),
        m.cpu_sockets > 1 ==> says(
            elements(r),
            i18n::text_of(tr, "popup.sockets"@),
            FigureView::Text(text::decimal(m.cpu_sockets as nat)),
        ),
        elements(r).contains(ElementView::Chart(m.cpu_history@)),
        elements(r).contains(ElementView::Cores),
        elements(r).last() == ElementView::Processes(ProcMode::Cpu),
{
    let l = seq![
        i18n::text_of(tr, "popup.load"@),
        i18n::text_of(tr, "popup.system"@),
        i18n::text_of(tr, "popup.user"@),
        i18n::text_of(tr, "popup.idle"@),
        i18n::text_of(tr, "popup.sockets"@),
    ];
    assert(l[0] != l[1] && l[0] != l[2] && l[0] != l[3] && l[0] != l[4] && l[1] != l[2] && l[1]
        != l[3] && l[1] != l[4] && l[2] != l[3] && l[2] != l[4] && l[3] != l[4]);
    let s = elements(r);
    let h = cpu_head(m, tr);
    let n = h.len() as int;
    assert(s.len() == n + 4);
    assert(s[0] == h[0] && s[1] == h[1] && s[2] == h[2] && s[3] == h[3] && s[4] == h[4] && s[5]
        == h[5]);
    assert(row_at(s, 2, l[0], FigureView::Percent(m.cpu_total)));
    assert(row_at(s, 3, l[1], FigureView::Percent(m.cpu_system)));
    assert(row_at(s, 4, l[2], FigureView::Percent(m.cpu_user)));
    assert(row_at(s, 5, l[3], FigureView::Rest(m.cpu_total)));
    if m.cpu_sockets > 1 {
        assert(s[6] == h[6]);
        assert(row_at(s, 6, l[4], count(m.cpu_sockets as nat)));
    }
    assert(s[n] == cpu_cores(m, tr)[0]);
    assert(s[n + 1] == ElementView::Cores);
    assert(s[n + 2] == processes(tr, ProcMode::Cpu)[0]);
    assert(s[n + 3] == processes(tr, ProcMode::Cpu)[1]);
}

/// In the popup of the network, what comes in stands beside its own label and
/// what goes out beside its own, in the rates, in the totals and in the chart.
pub proof fn law_network_rows_say_what_they_name(m: MetricsData, tr: Translator, r: Seq<Element>)
    requires
        elements(r) == content_of(Kind::Net, m, tr),
    ensures
        row_at(
            elements(r),
            2,
            i18n::text_of(tr, "popup.download"@),
            FigureView::Rate(m.net_rx),
        ),
        row_at(elements(r), 3, i18n::text_of(tr, "popup.upload"@), FigureView::Rate(m.net_tx)),
        row_at(
            elements(r),
            5,
            i18n::text_of(tr, "popup.received"@),
            FigureView::Text(util::bytes_text(m.net_total_rx as nat)),
        ),
        row_at(
            elements(r),
            6,
            i18n::text_of(tr, "popup.sent"@),
            FigureView::Text(util::bytes_text(m.net_total_tx as nat)),
        ),
        elements(r)[1] matches ElementView::Pair { first, second, labels, .. } && first.len()
            == m.net_history@.len() && second.len() == m.net_history@.len() && (forall|i: int|
            0 <= i < first.len() ==> first[i] == (#[trigger] m.net_history@[i]).0 && second[i]
                == m.net_history@[i].1) && labels == (
            i18n::text_of(tr, "popup.download"@),
            i18n::text_of(tr, "popup.upload"@),
        ),
{
    let s = elements(r);
    let h = net_head(m, tr);
    assert(s[1] == h[1] && s[2] == h[2] && s[3] == h[3] && s[5] == h[5] && s[6] == h[6]);
}

proof fn lemma_iface_elements(v: Seq<NetIface>, tr: Translator, n: int, k: int)
    requires
        0 <= k < n <= v.len(),
    ensures
        ifaces_elements(v, tr, n).len() == 3 * n,
        forall|j: int|
            0 <= j < 3 ==> #[trigger] ifaces_elements(v, tr, n)[3 * k + j] == iface_elements(
                v[k],
                tr,
            )[j],
    decreases n,
{
    if k < n - 1 {
        lemma_iface_elements(v, tr, n - 1, k);
    } else if n > 1 {
        lemma_iface_elements(v, tr, n - 1, 0);
    }
    let (a, b) = (ifaces_elements(v, tr, n - 1), ifaces_elements(v, tr, n));
    assert forall|j: int| 0 <= j < 3 implies #[trigger] b[3 * k + j] == iface_elements(
        v[k],
        tr,
    )[j] by {
        if k < n - 1 {
            assert(b[3 * k + j] == a[3 * k + j]);
        } else {
            assert(b[3 * k + j] == iface_elements(v[n - 1], tr)[j]);
        }
    }
}

/// Each interface has two rows of its own and a click that switches it: the
/// first row begins with its name and says its own rates, what comes in first,
/// or that it is not connected; both are faded where it is off.
pub proof fn law_interfaces_are_shown(m: MetricsData, tr: Translator, r: Seq<Element>, k: int)
    requires
        elements(r) == content_of(Kind::Net, m, tr),
        0 <= k < m.net_ifaces@.len(),
    ensures
        r.len() == 8 + 3 * m.net_ifaces@.len(),
        elements(r)[8 + 3 * k] matches ElementView::Row { label, value, label_ink, .. } && {
            let i = m.net_ifaces@[k];
            &&& i.alias@.is_prefix_of(label)
            &&& i.ssid@.len() == 0 ==> label == i.alias@
            &&& i.up ==> value == FigureView::Rates(i.rx_bps, i.tx_bps)
            &&& !i.up ==> value == FigureView::Text(i18n::text_of(tr, "popup.disconnected"@))
            &&& label_ink.on == i.enabled
        },
        elements(r)[8 + 3 * k + 1] matches ElementView::Row { label_ink, .. } && label_ink.on
            == m.net_ifaces@[k].enabled,
        elements(r)[8 + 3 * k + 2] == ElementView::Click(
            ActionView::ToggleNet(m.net_ifaces@[k].alias@),
        ),
{
    let s = elements(r);
    let n = m.net_ifaces@.len() as int;
    let e = ifaces_elements(m.net_ifaces@, tr, n);
    lemma_iface_elements(m.net_ifaces@, tr, n, k);
    assert(net_head(m, tr).len() == 7);
    assert(s.len() == 8 + e.len());
    let i = m.net_ifaces@[k];
    assert(s[8 + 3 * k] == e[3 * k + 0]);
    assert(s[8 + 3 * k + 1] == e[3 * k + 1]);
    assert(s[8 + 3 * k + 2] == e[3 * k + 2]);
    assert(e[3 * k + 0] == iface_elements(i, tr)[0]);
    assert(e[3 * k + 1] == iface_elements(i, tr)[1]);
    assert(e[3 * k + 2] == iface_elements(i, tr)[2]);
    assert(i.alias@.is_prefix_of(iface_name(i)));
}

/// In the popup of the disks, what is read stands beside its own label and what
/// is written beside its own, in the rates and in the chart.
pub proof fn law_disk_rows_say_what_they_name(m: MetricsData, tr: Translator, r: Seq<Element>)
    requires
        elements(r) == content_of(Kind::Disk, m, tr),
    ensures
        row_at(elements(r), 2, i18n::text_of(tr, "popup.read"@), FigureView::Rate(m.disk_read)),
        row_at(elements(r), 3, i18n::text_of(tr, "popup.write"@), FigureView::Rate(m.disk_write)),
        elements(r)[1] matches ElementView::Pair { first, second, labels, .. } && first.len()
            == m.disk_history@.len() && second.len() == m.disk_history@.len() && (forall|i: int|
            0 <= i < first.len() ==> first[i] == (#[trigger] m.disk_history@[i]).0 && second[i]
                == m.disk_history@[i].1) && labels == (
            i18n::text_of(tr, "popup.read"@),
            i18n::text_of(tr, "popup.write"@),
        ),
{
    let s = elements(r);
    let h = disk_head(m, tr);
    assert(h.len() == 4);
    assert(s[1] == h[1] && s[2] == h[2] && s[3] == h[3]);
}

proof fn lemma_disk_elements(v: Seq<PhysicalDisk>, tr: Translator, n: int, k: int)
    requires
        0 <= k < n <= v.len(),
    ensures
        disks_elements(v, tr, n).len() == 3 * n,
        forall|j: int|
            0 <= j < 3 ==> #[trigger] disks_elements(v, tr, n)[3 * k + j] == disk_elements(
                v[k],
                tr,
            )[j],
    decreases n,
{
    if k < n - 1 {
        lemma_disk_elements(v, tr, n - 1, k);
    } else if n > 1 {
        lemma_disk_elements(v, tr, n - 1, 0);
    }
    let (a, b) = (disks_elements(v, tr, n - 1), disks_elements(v, tr, n));
    assert forall|j: int| 0 <= j < 3 implies #[trigger] b[3 * k + j] == disk_elements(v[k], tr)[j] by {
        if k < n - 1 {
            assert(b[3 * k + j] == a[3 * k + j]);
        } else {
            assert(b[3 * k + j] == disk_elements(v[n - 1], tr)[j]);
        }
    }
}

/// Each disk has two rows of its own and a click that switches it: its model,
/// and what is read and written, in this order.
pub proof fn law_disks_are_shown(m: MetricsData, tr: Translator, r: Seq<Element>, k: int)
    requires
        elements(r) == content_of(Kind::Disk, m, tr),
        0 <= k < m.disks@.len(),
    ensures
        elements(r).len() > 5 + 3 * k + 2,
        elements(r)[5 + 3 * k] matches ElementView::Row { label, label_ink, .. } && label
            == m.disks@[k].model@ && label_ink.on == m.disks@[k].enabled,
        elements(r)[5 + 3 * k + 1] matches ElementView::Row { value, .. } && value
            == FigureView::Rates(m.disks@[k].read_bps, m.disks@[k].write_bps),
        elements(r)[5 + 3 * k + 2] == ElementView::Click(
            ActionView::ToggleDisk(m.disks@[k].model@),
        ),
{
    let s = elements(r);
    let n = m.disks@.len() as int;
    let e = disks_elements(m.disks@, tr, n);
    lemma_disk_elements(m.disks@, tr, n, k);
    assert(disk_head(m, tr).len() == 4);
    let d = m.disks@[k];
    assert(s[5 + 3 * k] == e[3 * k + 0]);
    assert(s[5 + 3 * k + 1] == e[3 * k + 1]);
    assert(s[5 + 3 * k + 2] == e[3 * k + 2]);
    assert(e[3 * k + 0] == disk_elements(d, tr)[0]);
    assert(e[3 * k + 1] == disk_elements(d, tr)[1]);
    assert(e[3 * k + 2] == disk_elements(d, tr)[2]);
}

proof fn lemma_drive_elements(v: Seq<Drive>, tr: Translator, n: int)
    requires
        0 <= n <= v.len(),
    ensures
        drive_elements(v, tr, n).len() == n,
        forall|k: int| 0 <= k < n ==> #[trigger] drive_elements(v, tr, n)[k] == drive_element(v[k], tr),
    decreases n,
{
    if n > 0 {
        lemma_drive_elements(v, tr, n - 1);
    }
}

/// The last elements of the popup of the disks are the drives, in their order:
/// a drive that can be written to says the bytes that are free, and its bar is
/// filled by what is not free; of another only the size is said.
pub proof fn law_drives_are_shown(m: MetricsData, tr: Translator, r: Seq<Element>, k: int)
    requires
        elements(r) == content_of(Kind::Disk, m, tr),
        0 <= k < m.drives@.len(),
        m.drives@[k].free <= m.drives@[k].total,
        m.drives@[k].total > 0,
    ensures
        r.len() > m.drives@.len(),
        ({
            let d = m.drives@[k];
            let e = elements(r)[r.len() - m.drives@.len() + k];
            &&& !d.readonly ==> (e matches ElementView::Bar { label, fill, value, .. }
                && d.name@.is_prefix_of(label) && fill == Fraction::Part(
                (d.total - d.free) as u64,
                d.total,
            ) && value == FigureView::Text(util::bytes_text(d.free as nat)))
            &&& d.readonly ==> (e matches ElementView::Row { label, value, .. }
                && d.name@.is_prefix_of(label) && value == FigureView::Text(
                i18n::filled(
                    i18n::text_of(tr, "popup.total"@),
                    seq![("size"@, util::bytes_text(d.total as nat))],
                ),
            ))
        }),
{
    let s = elements(r);
    let n = m.drives@.len() as int;
    lemma_drive_elements(m.drives@, tr, n);
    let e = drive_elements(m.drives@, tr, n);
    assert(s[s.len() - n + k] == e[k]);
    assert(e[k] == drive_element(m.drives@[k], tr));
    assert(m.drives@[k].name@.is_prefix_of(drive_label(m.drives@[k])));
}

/// In the popup of the graphics, the load is said where it is known; the bar
/// says what is used of the budget, and the rows say the budget and the
/// dedicated memory.
pub proof fn law_graphics_rows_say_what_they_name(m: MetricsData, tr: Translator, r: Seq<Element>)
    requires
        elements(r) == content_of(Kind::Gpu, m, tr),
        m.vram_budget > 0,
        m.vram_total > 0,
    ensures
        m.gpu matches Some(v) ==> row_at(
            elements(r),
            2,
            i18n::text_of(tr, "popup.load"@),
            FigureView::Percent(v),
        ),
        m.gpu.is_none() ==> row_at(
            elements(r),
            2,
            i18n::text_of(tr, "popup.load"@),
            FigureView::Text(i18n::text_of(tr, "popup.na"@)),
        ),
        bar_says(
            elements(r),
            i18n::text_of(tr, "popup.used"@),
            Fraction::Part(m.vram_used, m.vram_budget),
            FigureView::Text(util::bytes_text(m.vram_used as nat)),
        ),
        row_at(
            elements(r),
            5,
            i18n::text_of(tr, "popup.budget"@),
            FigureView::Text(util::bytes_text(m.vram_budget as nat)),
        ),
        row_at(
            elements(r),
            6,
            i18n::text_of(tr, "popup.dedicated"@),
            FigureView::Text(util::bytes_text(m.vram_total as nat)),
        ),
{
    let s = elements(r);
    let h = gpu_head(m, tr);
    let g = gpu_memory(m, tr);
    assert(h.len() == 3 && g.len() == 4);
    assert(s[0] == h[0] && s[1] == h[1] && s[2] == h[2]);
    assert(s[3] == g[0] && s[4] == g[1] && s[5] == g[2] && s[6] == g[3]);
    let a = gpu_adapter(m, tr);
    let b = gpu_adapters(m, tr);
    lemma_adapter_rows(m.gpu_adapters@, tr, m.gpu_adapters@.len() as int);
    assert forall|i: int| 7 <= i < s.len() implies !(#[trigger] s[i] is Bar) by {
        if i < 7 + a.len() {
            assert(s[i] == a[i - 7]);
        } else {
            let j = i - 7 - a.len();
            assert(s[i] == b[j]);
            if j > 0 {
                assert(b[j] == adapter_rows(
                    m.gpu_adapters@,
                    tr,
                    m.gpu_adapters@.len() as int,
                )[j - 1]);
            }
        }
    }
}

proof fn lemma_adapter_rows(v: Seq<AdapterInfo>, tr: Translator, n: int)
    requires
        0 <= n <= v.len(),
    ensures
        adapter_rows(v, tr, n).len() == n,
        forall|k: int| 0 <= k < n ==> #[trigger] adapter_rows(v, tr, n)[k] is Row,
    decreases n,
{
    if n > 0 {
        lemma_adapter_rows(v, tr, n - 1);
    }
}

/// In the popup of the battery, the bar is the level, and the rows say the time
/// that remains, the power that flows whichever way, and what is left of what
/// the battery holds.
pub proof fn law_battery_rows_say_what_they_name(m: MetricsData, tr: Translator, r: Seq<Element>)
    requires
        elements(r) == content_of(Kind::Battery, m, tr),
        m.battery.is_some(),
    ensures
        elements(r)[0] matches ElementView::Title { subtitle, .. } && ({
            let b = m.battery->0;
            &&& b.charging ==> subtitle == i18n::text_of(tr, "popup.charging"@)
            &&& !b.charging && b.on_ac ==> subtitle == i18n::text_of(tr, "popup.plugged_in"@)
            &&& !b.charging && !b.on_ac ==> subtitle == i18n::text_of(tr, "popup.discharging"@)
        }),
        elements(r)[1] matches ElementView::Bar { label, fill, value, .. } && label
            == i18n::text_of(tr, "popup.level"@) && fill == Fraction::Share((m.battery->0).level)
            && value == FigureView::Percent((m.battery->0).level),
        (m.battery->0).remaining_secs matches Some(t) ==> row_at(
            elements(r),
            2,
            i18n::text_of(tr, "popup.time_remaining"@),
            FigureView::Text(util::duration_text(t as nat)),
        ),
        m.battery_detail matches Some(d) ==> {
            &&& d.rate_mw > 0 ==> exists|i: int| #[trigger]
                row_at(
                    elements(r),
                    i,
                    i18n::text_of(tr, "popup.power"@),
                    FigureView::Watts(d.rate_mw as u32),
                )
            &&& d.rate_mw < 0 ==> exists|i: int| #[trigger]
                row_at(
                    elements(r),
                    i,
                    i18n::text_of(tr, "popup.power"@),
                    FigureView::Watts((-d.rate_mw) as u32),
                )
            &&& d.max_mwh > 0 ==> exists|i: int| #[trigger]
                row_at(
                    elements(r),
                    i,
                    i18n::text_of(tr, "popup.capacity"@),
                    FigureView::WattHours(d.remaining_mwh, d.max_mwh),
                )
        },
{
    let s = elements(r);
    let h = battery_head(m, tr);
    let x = battery_details(m, tr);
    assert(s == h + x);
    assert(s[0] == h[0] && s[1] == h[1]);
    if (m.battery->0).remaining_secs.is_some() {
        assert(s[2] == h[2]);
    }
    if m.battery_detail.is_some() {
        let d = m.battery_detail->0;
        let n = h.len() as int;
        if d.rate_mw != 0 {
            assert(s[n + 1] == x[1]);
            if d.rate_mw > 0 {
                assert(row_at(
                    s,
                    n + 1,
                    i18n::text_of(tr, "popup.power"@),
                    FigureView::Watts(d.rate_mw as u32),
                ));
            } else {
                assert(row_at(
                    s,
                    n + 1,
                    i18n::text_of(tr, "popup.power"@),
                    FigureView::Watts((-d.rate_mw) as u32),
                ));
            }
        }
        if d.max_mwh > 0 {
            assert(s[s.len() - 1] == x[x.len() - 1]);
            assert(row_at(
                s,
                s.len() - 1,
                i18n::text_of(tr, "popup.capacity"@),
                FigureView::WattHours(d.remaining_mwh, d.max_mwh),
            ));
        }
    }
}

/// On a machine with cores of different classes too, load, system, programs and
/// idle say their own shares; and below them the mean of the fast cores stands
/// beside their number, and that of the others beside theirs.
pub proof fn law_mixed_processors_are_shown_by_class(
    m: MetricsData,
    tr: Translator,
    r: Seq<Element>,
    fast: Seq<Single>,
    slow: Seq<Single>,
)
    requires
        elements(r) == content_of(Kind::Cpu, m, tr),
        is_hybrid(m.cpu_classes@),
        m.cpu_sockets <= 1,
        fast == metrics::loads_of(m.cpu_cores@, m.cpu_classes@, true, m.cpu_cores@.len()),
        slow == metrics::loads_of(m.cpu_cores@, m.cpu_classes@, false, m.cpu_cores@.len()),
    ensures
        row_at(elements(r), 2, i18n::text_of(tr, "popup.load"@), FigureView::Percent(m.cpu_total)),
        row_at(
            elements(r),
            3,
            i18n::text_of(tr, "popup.system"@),
            FigureView::Percent(m.cpu_system),
        ),
        row_at(elements(r), 4, i18n::text_of(tr, "popup.user"@), FigureView::Percent(m.cpu_user)),
        row_at(elements(r), 5, i18n::text_of(tr, "popup.idle"@), FigureView::Rest(m.cpu_total)),
        row_at(
            elements(r),
            6,
            said_of(tr, "popup.p_cores"@, "n"@, text::decimal(fast.len())),
            FigureView::Mean(fast),
        ),
        row_at(
            elements(r),
            7,
            said_of(tr, "popup.e_cores"@, "n"@, text::decimal(slow.len())),
            FigureView::Mean(slow),
        ),
{
    let s = elements(r);
    let h = cpu_head(m, tr);
    assert(h.len() == 6);
    assert(s[2] == h[2] && s[3] == h[3] && s[4] == h[4] && s[5] == h[5]);
    assert(s[6] == cpu_cores(m, tr)[0] && s[7] == cpu_cores(m, tr)[1]);
}

/// An interface is described by what the system says of it, its kind unless its
/// name tells it already, and its address, in this order.
pub proof fn law_interface_is_described(i: NetIface, alias: Seq<char>, kind: Seq<char>)
    ensures
        i.kind@.len() > 0 && i.ip@.len() > 0 && !text::has(alias, kind) ==> iface_text_with(
            i,
            alias,
            kind,
        ) == i.description@ + dot() + i.kind@ + dot() + i.ip@,
        i.ip@.len() > 0 && text::has(alias, kind) ==> iface_text_with(i, alias, kind)
            == i.description@ + dot() + i.ip@,
        i.ip@.len() == 0 && (i.kind@.len() == 0 || text::has(alias, kind)) ==> iface_text_with(
            i,
            alias,
            kind,
        ) == i.description@,
{
}

/// A fuller drive is never shown in a calmer colour: from the accent over yellow
/// to red.
pub proof fn law_full_drives_warn(a: Single, b: Single, accent: Color)
    requires
        !a.nan() && !b.nan(),
        !b.lt(a),
        accent != crate::canvas::red() && accent != crate::canvas::yellow(),
    ensures
        fill_shade(a, accent) == crate::canvas::red() ==> fill_shade(b, accent)
            == crate::canvas::red(),
        fill_shade(a, accent) == crate::canvas::yellow() ==> fill_shade(b, accent) != accent,
        fill_shade(b, accent) == accent ==> fill_shade(a, accent) == accent,
        fill_shade(b, accent) == crate::canvas::yellow() ==> fill_shade(a, accent)
            != crate::canvas::red(),
{
}

/// A drive that has them all is labelled with its letter, its label, its kind and
/// its file system, a disk with its bus and its size, and an interface with its
/// name and that of the wireless network.
pub proof fn law_labels_name_everything(d: Drive, p: PhysicalDisk, i: NetIface)
    ensures
        d.label@.len() > 0 && d.kind@.len() > 0 && d.fs@.len() > 0 ==> drive_label(d) == d.name@
            + " "@ + d.label@ + (" ("@ + d.kind@ + ", "@ + d.fs@ + ")"@),
        d.label@.len() == 0 && d.kind@.len() == 0 && d.fs@.len() > 0 ==> drive_label(d) == d.name@ + (
        " ("@ + d.fs@ + ")"@),
        d.label@.len() == 0 && d.kind@.len() == 0 && d.fs@.len() == 0 ==> drive_label(d) == d.name@,
        p.size > 0 && p.bus@.len() > 0 ==> disk_text(p) == p.bus@ + dot() + util::bytes_text(
            p.size as nat,
        ),
        p.size > 0 && p.bus@.len() == 0 ==> disk_text(p) == util::bytes_text(p.size as nat),
        i.ssid@.len() > 0 ==> iface_name(i) == i.alias@ + dot() + i.ssid@,
        i.ssid@.len() == 0 ==> iface_name(i) == i.alias@,
{
    assert(d.name@ + Seq::<char>::empty() =~= d.name@);
}

/// The memory is said by its size, with what is known of its modules and channels
/// behind it.
pub proof fn law_memory_is_summed_up(m: MetricsData, tr: Translator)
    ensures
        ({
            let total = i18n::filled(
                i18n::text_of(tr, "popup.total"@),
                seq![("size"@, util::bytes_text(m.mem.total as nat))],
            );
            &&& m.mem_summary.is_none() && m.mem_channels.is_none() ==> mem_subtitle(m, tr) == total
            &&& m.mem_summary.is_some() && m.mem_channels.is_none() ==> mem_subtitle(m, tr) == total
                + dot() + (m.mem_summary->0)@
            &&& m.mem_summary.is_some() && m.mem_channels.is_some() ==> mem_subtitle(m, tr) == total
                + dot() + (m.mem_summary->0)@ + dot() + i18n::filled(
                i18n::text_of(tr, "popup.channels"@),
                seq![("n"@, text::decimal(m.mem_channels->0 as nat))],
            )
        }),
{
}

/// The power of the battery is shown without its sign, whether it is filled or
/// drawn from, and its charge out of what it can hold.
pub proof fn law_battery_power_has_no_sign(m: MetricsData, tr: Translator, d: metrics::battery::BatteryDetail)
    requires
        m.battery_detail == Some(d),
        d.rate_mw > i32::MIN,
        d.rate_mw != 0,
        d.max_mwh > 0,
    ensures
        battery_details(m, tr).len() == 3,
        battery_details(m, tr)[1] matches ElementView::Row { value: FigureView::Watts(w), .. } && (w
            == d.rate_mw || w == -d.rate_mw),
        battery_details(m, tr)[2] matches ElementView::Row {
            value: FigureView::WattHours(x, y),
            ..
        } && x == d.remaining_mwh && y == d.max_mwh,
{
}

} // verus!
