//! The settings menu of the strip: its rows, and what each command does to the
//! configuration.

use crate::config::Config;
use crate::i18n::{self, Translator};
use crate::number::Single;
use crate::text;
use crate::widgets::theme::{self, Swatch};
use crate::widgets::{self, Entry, Kind};
use vstd::prelude::*;

verus! {

pub const MENU_EXIT: usize = 1;

pub const MENU_CONFIG: usize = 2;

pub const MENU_RELOAD: usize = 3;

pub const MENU_TASKMGR: usize = 4;

pub const MENU_ABOUT: usize = 5;

pub const MENU_CHECK_UPDATE: usize = 6;

pub const MENU_GET_UPDATE: usize = 7;

pub const MENU_WIDGET_BASE: usize = 100;

pub const MENU_LABELS: usize = 200;

pub const MENU_AUTOSTART: usize = 202;

pub const MENU_GROUP_PE: usize = 203;

pub const MENU_SPLIT_PE: usize = 204;

pub const MENU_POS_RIGHT: usize = 210;

pub const MENU_POS_LEFT: usize = 211;

pub const MENU_THEME_AUTO: usize = 220;

pub const MENU_THEME_DARK: usize = 221;

pub const MENU_THEME_LIGHT: usize = 222;

pub const MENU_INTERVAL_BASE: usize = 230;

/// The colour of a module: the base, a stride for each module before it, and
/// the entry.
pub const MENU_COLOR_BASE: usize = 300;

pub const MENU_COLOR_STRIDE: usize = 20;

/// The accent: the base and the index in the palette.
pub const MENU_ACCENT_BASE: usize = 450;

pub const MENU_FONT_BASE: usize = 470;

pub const MENU_CHART_BASE: usize = 480;

pub const MENU_TOP_BASE: usize = 490;

/// A module's move: the base, two for each module before it, and one more to
/// the right.
pub const MENU_MOVE_BASE: usize = 520;

/// The language: the base for the system's, and then one for each locale.
pub const MENU_LANG_BASE: usize = 600;

/// Rows of the process lists to choose from.
pub open spec fn top_counts() -> Seq<u32> {
    seq![5u32, 10u32, 15u32, 20u32]
}

/// Widths of the charts to choose from, with the keys of their titles.
pub open spec fn chart_widths() -> Seq<(u32, Seq<char>)> {
    seq![
        (34u32, "menu.small"@),
        (48u32, "menu.medium"@),
        (64u32, "menu.large"@),
        (96u32, "menu.extra_large"@),
    ]
}

/// A text size: its bits, the least and the greatest of those within a
/// hundredth of it, and the key of its title.
pub open spec fn font_sizes() -> Seq<(u32, u32, u32, Seq<char>)> {
    seq![
        (0x3f59_999au32, 0x3f57_0a3eu32, 0x3f5c_28f6u32, "menu.small"@),
        (0x3f80_0000u32, 0x3f7d_70a4u32, 0x3f81_47aeu32, "menu.normal"@),
        (0x3f93_3333u32, 0x3f91_eb85u32, 0x3f94_7ae1u32, "menu.large"@),
        (0x3fa6_6666u32, 0x3fa5_1eb8u32, 0x3fa7_ae14u32, "menu.extra_large"@),
    ]
}

/// Refresh intervals to choose from, with their titles.
pub open spec fn intervals() -> Seq<(u32, Seq<char>)> {
    seq![(500u32, "0.5 s"@), (1000u32, "1 s"@), (2000u32, "2 s"@), (5000u32, "5 s"@)]
}

/// The entries of a colour submenu in front of the palette.
pub open spec fn color_modes() -> Seq<(Seq<char>, Seq<char>)> {
    seq![
        ("accent"@, "menu.accent"@),
        ("utilization"@, "menu.by_utilisation"@),
        ("mono"@, "menu.monochrome"@),
    ]
}

/// The key of a module in the configuration.
pub open spec fn key_of(k: Kind) -> Seq<char> {
    match k {
        Kind::Cpu => "cpu"@,
        Kind::Gpu => "gpu"@,
        Kind::Mem => "mem"@,
        Kind::Disk => "disk"@,
        Kind::Net => "net"@,
        Kind::Battery => "battery"@,
    }
}

pub fn module_key(k: Kind) -> (r: &'static str)
    ensures
        r@ == key_of(k),
{
    match k {
        Kind::Cpu => "cpu",
        Kind::Gpu => "gpu",
        Kind::Mem => "mem",
        Kind::Disk => "disk",
        Kind::Net => "net",
        Kind::Battery => "battery",
    }
}

// ---------------------------------------------------------------------------
// The rows

/// A row of the menu; the rows between an opening and its close are those of a
/// submenu.
#[derive(Clone, Debug)]
pub enum Row {
    Item { id: usize, text: String, checked: bool },
    Separator,
    /// A submenu begins; one that is not enabled is greyed out.
    Open { text: String, enabled: bool },
    Close,
}

pub enum RowView {
    Item { id: int, text: Seq<char>, checked: bool },
    Separator,
    Open { text: Seq<char>, enabled: bool },
    Close,
}

pub open spec fn row_view(r: Row) -> RowView {
    match r {
        Row::Item { id, text, checked } => RowView::Item { id: id as int, text: text@, checked },
        Row::Separator => RowView::Separator,
        Row::Open { text, enabled } => RowView::Open { text: text@, enabled },
        Row::Close => RowView::Close,
    }
}

pub open spec fn rows_view(r: Seq<Row>) -> Seq<RowView> {
    r.map_values(|x: Row| row_view(x))
}

/// What the menu shows beside the configuration.
pub struct Shown<'a> {
    /// The processor has cores of different classes.
    pub hybrid: bool,
    pub gpu: bool,
    pub battery: bool,
    /// The program starts with Windows.
    pub autostart: bool,
    /// A newer release.
    pub update: Option<&'a str>,
}

pub open spec fn item(id: int, text: Seq<char>, checked: bool) -> RowView {
    RowView::Item { id, text, checked }
}

pub open spec fn opened(text: Seq<char>) -> RowView {
    RowView::Open { text, enabled: true }
}

/// The colour setting of a module.
pub open spec fn color_setting(cfg: Config, k: Kind) -> Seq<char> {
    if cfg.colors@.dom().contains(key_of(k)) {
        cfg.colors@[key_of(k)]@
    } else {
        "accent"@
    }
}

/// An entry for each of the first `n` colours of the palette.
pub open spec fn palette_rows(tr: Translator, base: int, current: Seq<char>, n: int) -> Seq<RowView>
    decreases n,
{
    if n <= 0 {
        Seq::empty()
    } else {
        let p = theme::palette_list()[n - 1];
        palette_rows(tr, base, current, n - 1).push(
            item(base + n - 1, i18n::text_of(tr, p.1), current == p.0),
        )
    }
}

/// The colour submenu of a module: modes first, then the palette.
pub open spec fn color_rows(cfg: Config, tr: Translator, k: Kind) -> Seq<RowView> {
    let base = MENU_COLOR_BASE + widgets::module_rank(k) * MENU_COLOR_STRIDE;
    let cur = color_setting(cfg, k);
    seq![
        opened(i18n::text_of(tr, "menu.colour"@)),
        item(base, i18n::text_of(tr, "menu.accent"@), cur == "accent"@),
        item(base + 1, i18n::text_of(tr, "menu.by_utilisation"@), cur == "utilization"@),
        item(base + 2, i18n::text_of(tr, "menu.monochrome"@), cur == "mono"@),
        RowView::Separator,
    ] + palette_rows(tr, base + 3, cur, theme::palette_list().len() as int) + seq![RowView::Close]
}

/// An entry for each widget of a module among the first `n` of the catalogue.
pub open spec fn widget_rows(list: Seq<Seq<char>>, tr: Translator, k: Kind, n: int) -> Seq<RowView>
    decreases n,
{
    if n <= 0 {
        Seq::empty()
    } else {
        let e = widgets::catalog_list()[n - 1];
        let r = widget_rows(list, tr, k, n - 1);
        if e.0 == k {
            r.push(item(MENU_WIDGET_BASE + n - 1, i18n::text_of(tr, e.2), list.contains(e.1)))
        } else {
            r
        }
    }
}

/// Some widget of the module is shown.
pub open spec fn module_on(list: Seq<Seq<char>>, k: Kind) -> bool {
    exists|i: int|
        0 <= i < widgets::catalog_list().len() && (#[trigger] widgets::catalog_list()[i]).0 == k
            && list.contains(widgets::catalog_list()[i].1)
}

/// The machine can feed the module.
pub open spec fn module_available(sh: Shown, k: Kind) -> bool {
    match k {
        Kind::Gpu => sh.gpu,
        Kind::Battery => sh.battery,
        _ => true,
    }
}

pub open spec fn module_title(list: Seq<Seq<char>>, tr: Translator, sh: Shown, k: Kind) -> Seq<char> {
    let name = i18n::text_of(tr, widgets::title_key(k));
    if !module_available(sh, k) {
        name + "  "@ + i18n::text_of(tr, "menu.na"@)
    } else if module_on(list, k) {
        name + "  \u{2022}"@
    } else {
        name
    }
}

/// The title of a module's submenu and its widgets.
pub open spec fn module_head(cfg: Config, tr: Translator, sh: Shown, k: Kind) -> Seq<RowView> {
    let list = text::views(cfg.widgets@);
    seq![
        RowView::Open { text: module_title(list, tr, sh, k), enabled: module_available(sh, k) },
    ] + widget_rows(list, tr, k, widgets::catalog_list().len() as int)
}

/// The colours of a module; the battery has none to choose.
pub open spec fn module_colors(cfg: Config, tr: Translator, k: Kind) -> Seq<RowView> {
    if k != Kind::Battery {
        seq![RowView::Separator] + color_rows(cfg, tr, k)
    } else {
        Seq::empty()
    }
}

/// How cores of different classes are shown.
pub open spec fn module_cores(cfg: Config, tr: Translator, sh: Shown, k: Kind) -> Seq<RowView> {
    if k == Kind::Cpu && sh.hybrid {
        seq![
            item(
                MENU_SPLIT_PE as int,
                i18n::text_of(tr, "menu.show_pe_splitter"@),
                cfg.split_pe_cores,
            ),
            item(
                MENU_GROUP_PE as int,
                i18n::text_of(tr, "menu.group_pe_cores"@),
                cfg.group_pe_cores,
            ),
        ]
    } else {
        Seq::empty()
    }
}

/// The moves of a module, and the end of its submenu.
pub open spec fn module_moves(tr: Translator, k: Kind) -> Seq<RowView> {
    let mi = widgets::module_rank(k);
    seq![
        RowView::Separator,
        item(MENU_MOVE_BASE + mi * 2, i18n::text_of(tr, "menu.move_left"@), false),
        item(MENU_MOVE_BASE + mi * 2 + 1, i18n::text_of(tr, "menu.move_right"@), false),
        RowView::Close,
    ]
}

/// The submenu of a module.
pub open spec fn module_rows(cfg: Config, tr: Translator, sh: Shown, k: Kind) -> Seq<RowView> {
    module_head(cfg, tr, sh, k) + module_colors(cfg, tr, k) + module_cores(cfg, tr, sh, k)
        + module_moves(tr, k)
}

/// The submenus of the first `n` modules.
pub open spec fn modules_rows(cfg: Config, tr: Translator, sh: Shown, n: int) -> Seq<RowView>
    decreases n,
{
    if n <= 0 {
        Seq::empty()
    } else {
        modules_rows(cfg, tr, sh, n - 1) + module_rows(
            cfg,
            tr,
            sh,
            widgets::module_list()[n - 1],
        )
    }
}

pub open spec fn is_font_size(s: Single, i: int) -> bool {
    font_sizes()[i].1 <= s.bits <= font_sizes()[i].2
}

pub open spec fn font_row(cfg: Config, tr: Translator, i: int) -> RowView {
    item(
        MENU_FONT_BASE + i,
        i18n::text_of(tr, font_sizes()[i].3),
        is_font_size(cfg.font_scale, i),
    )
}

pub open spec fn chart_row(cfg: Config, tr: Translator, i: int) -> RowView {
    item(
        MENU_CHART_BASE + i,
        i18n::text_of(tr, chart_widths()[i].1),
        cfg.chart_width == chart_widths()[i].0,
    )
}

pub open spec fn top_row(cfg: Config, i: int) -> RowView {
    item(
        MENU_TOP_BASE + i,
        text::decimal(top_counts()[i] as nat),
        cfg.top_processes == top_counts()[i],
    )
}

pub open spec fn interval_row(cfg: Config, i: int) -> RowView {
    item(MENU_INTERVAL_BASE + i, intervals()[i].1, cfg.update_ms == intervals()[i].0)
}

/// Whether labels are drawn, and the accent.
pub open spec fn accent_rows(cfg: Config, tr: Translator) -> Seq<RowView> {
    seq![
        RowView::Separator,
        item(MENU_LABELS as int, i18n::text_of(tr, "menu.labels"@), cfg.labels),
        opened(i18n::text_of(tr, "menu.accent_colour"@)),
    ] + palette_rows(
        tr,
        MENU_ACCENT_BASE as int,
        cfg.accent@,
        theme::palette_list().len() as int,
    ) + seq![RowView::Close]
}

/// The sizes of text, charts and process lists.
pub open spec fn size_rows(cfg: Config, tr: Translator) -> Seq<RowView> {
    seq![
        opened(i18n::text_of(tr, "menu.font_size"@)),
        font_row(cfg, tr, 0),
        font_row(cfg, tr, 1),
        font_row(cfg, tr, 2),
        font_row(cfg, tr, 3),
        RowView::Close,
        opened(i18n::text_of(tr, "menu.chart_width"@)),
        chart_row(cfg, tr, 0),
        chart_row(cfg, tr, 1),
        chart_row(cfg, tr, 2),
        chart_row(cfg, tr, 3),
        RowView::Close,
        opened(i18n::text_of(tr, "menu.top_processes"@)),
        top_row(cfg, 0),
        top_row(cfg, 1),
        top_row(cfg, 2),
        top_row(cfg, 3),
        RowView::Close,
    ]
}

/// The rows on where the strip is, how often it is refreshed and its theme.
pub open spec fn place_rows(cfg: Config, tr: Translator) -> Seq<RowView> {
    seq![
        opened(i18n::text_of(tr, "menu.position"@)),
        item(MENU_POS_RIGHT as int, i18n::text_of(tr, "menu.pos_right"@), cfg.position@ != "left"@),
        item(MENU_POS_LEFT as int, i18n::text_of(tr, "menu.pos_left"@), cfg.position@ == "left"@),
        RowView::Close,
        opened(i18n::text_of(tr, "menu.update_interval"@)),
        interval_row(cfg, 0),
        interval_row(cfg, 1),
        interval_row(cfg, 2),
        interval_row(cfg, 3),
        RowView::Close,
        opened(i18n::text_of(tr, "menu.theme"@)),
        item(MENU_THEME_AUTO as int, i18n::text_of(tr, "menu.theme_auto"@), cfg.theme@ == "auto"@),
        item(MENU_THEME_DARK as int, i18n::text_of(tr, "menu.theme_dark"@), cfg.theme@ == "dark"@),
        item(
            MENU_THEME_LIGHT as int,
            i18n::text_of(tr, "menu.theme_light"@),
            cfg.theme@ == "light"@,
        ),
        RowView::Close,
    ]
}

/// An entry for each of the first `n` locales.
pub open spec fn locale_rows(current: Seq<char>, n: int) -> Seq<RowView>
    decreases n,
{
    if n <= 0 {
        Seq::empty()
    } else {
        let l = i18n::locale_list()[n - 1];
        locale_rows(current, n - 1).push(item(MENU_LANG_BASE + n, l.1@, current == l.0@))
    }
}

pub open spec fn language_rows(cfg: Config, tr: Translator) -> Seq<RowView> {
    seq![
        opened(i18n::text_of(tr, "menu.language"@)),
        item(
            MENU_LANG_BASE as int,
            i18n::text_of(tr, "menu.lang_system"@),
            cfg.language@ == "auto"@,
        ),
        RowView::Separator,
    ] + locale_rows(cfg.language@, i18n::locale_list().len() as int) + seq![RowView::Close]
}

/// The rows at the end, which do something rather than set something.
pub open spec fn action_rows(tr: Translator, sh: Shown) -> Seq<RowView> {
    seq![
        RowView::Separator,
        item(MENU_AUTOSTART as int, i18n::text_of(tr, "menu.start_with_windows"@), sh.autostart),
        RowView::Separator,
        item(MENU_TASKMGR as int, i18n::text_of(tr, "menu.task_manager"@), false),
        item(MENU_CONFIG as int, i18n::text_of(tr, "menu.open_config"@), false),
        item(MENU_RELOAD as int, i18n::text_of(tr, "menu.reload_config"@), false),
        RowView::Separator,
        item(MENU_ABOUT as int, i18n::text_of(tr, "menu.about"@), false),
        match sh.update {
            Some(v) => item(
                MENU_GET_UPDATE as int,
                i18n::filled(i18n::text_of(tr, "menu.update_available"@), seq![("v"@, v@)]),
                false,
            ),
            None => item(
                MENU_CHECK_UPDATE as int,
                i18n::text_of(tr, "menu.check_updates"@),
                false,
            ),
        },
        RowView::Separator,
        item(MENU_EXIT as int, i18n::text_of(tr, "menu.exit"@), false),
    ]
}

/// The whole menu: a submenu per module, the settings, the actions.
pub open spec fn menu_rows(cfg: Config, tr: Translator, sh: Shown) -> Seq<RowView> {
    modules_rows(cfg, tr, sh, 6) + accent_rows(cfg, tr) + size_rows(cfg, tr) + place_rows(cfg, tr)
        + language_rows(cfg, tr) + action_rows(tr, sh)
}

fn push_item(out: &mut Vec<Row>, id: usize, text: String, checked: bool)
    ensures
        rows_view(final(out)@) == rows_view(old(out)@).push(item(id as int, text@, checked)),
{
    out.push(Row::Item { id, text, checked });
    assert(rows_view(out@) =~= rows_view(old(out)@).push(item(id as int, text@, checked)));
}

fn push_separator(out: &mut Vec<Row>)
    ensures
        rows_view(final(out)@) == rows_view(old(out)@).push(RowView::Separator),
{
    out.push(Row::Separator);
    assert(rows_view(out@) =~= rows_view(old(out)@).push(RowView::Separator));
}

fn push_open(out: &mut Vec<Row>, text: String, enabled: bool)
    ensures
        rows_view(final(out)@) == rows_view(old(out)@).push(RowView::Open { text: text@, enabled }),
{
    out.push(Row::Open { text, enabled });
    assert(rows_view(out@) =~= rows_view(old(out)@).push(RowView::Open { text: text@, enabled }));
}

fn push_close(out: &mut Vec<Row>)
    ensures
        rows_view(final(out)@) == rows_view(old(out)@).push(RowView::Close),
{
    out.push(Row::Close);
    assert(rows_view(out@) =~= rows_view(old(out)@).push(RowView::Close));
}

fn push_palette(out: &mut Vec<Row>, tr: &Translator, base: usize, current: &str)
    requires
        base <= 1000,
    ensures
        rows_view(final(out)@) == rows_view(old(out)@) + palette_rows(
            *tr,
            base as int,
            current@,
            theme::palette_list().len() as int,
        ),
{
    let p: Vec<Swatch> = theme::palette();
    assert(p@.map_values(|s: Swatch| theme::swatch_view(s)).len() == p.len());
    let ghost v = p@.map_values(|s: Swatch| theme::swatch_view(s));
    let ghost o = rows_view(out@);
    let mut i: usize = 0;
    assert(o =~= o + palette_rows(*tr, base as int, current@, 0));
    while i < p.len()
        invariant
            base <= 1000,
            v == p@.map_values(|s: Swatch| theme::swatch_view(s)),
            v == theme::palette_list(),
            i <= p.len(),
            p.len() == 13,
            rows_view(out@) == o + palette_rows(*tr, base as int, current@, i as int),
        decreases p.len() - i,
    {
        assert(v[i as int] == theme::swatch_view(p@[i as int]));
        push_item(out, base + i, tr.t(p[i].title), text::same(current, p[i].name));
        i += 1;
        assert(rows_view(out@) =~= o + palette_rows(*tr, base as int, current@, i as int));
    }
}

fn push_colors(out: &mut Vec<Row>, cfg: &Config, tr: &Translator, k: Kind)
    requires
        cfg.colors.wf(),
    ensures
        rows_view(final(out)@) == rows_view(old(out)@) + color_rows(*cfg, *tr, k),
{
    let current: &str = match cfg.colors.get(module_key(k)) {
        Some(c) => c.as_str(),
        None => "accent",
    };
    let ghost o = rows_view(out@);
    let base: usize = MENU_COLOR_BASE + k.rank() * MENU_COLOR_STRIDE;
    push_open(out, tr.t("menu.colour"), true);
    push_item(out, base, tr.t("menu.accent"), text::same(current, "accent"));
    push_item(out, base + 1, tr.t("menu.by_utilisation"), text::same(current, "utilization"));
    push_item(out, base + 2, tr.t("menu.monochrome"), text::same(current, "mono"));
    push_separator(out);
    push_palette(out, tr, base + 3, current);
    push_close(out);
    assert(rows_view(out@) =~= o + color_rows(*cfg, *tr, k));
}

proof fn lemma_listed(list: Seq<String>, name: Seq<char>)
    ensures
        text::listed(list, name) == text::views(list).contains(name),
{
    if text::listed(list, name) {
        let i = choose|i: int| 0 <= i < list.len() && (#[trigger] list[i])@ == name;
        assert(text::views(list)[i] == name);
    }
    if text::views(list).contains(name) {
        let i = choose|i: int| 0 <= i < list.len() && text::views(list)[i] == name;
        assert(list[i]@ == name);
    }
}

/// The entries of a module's widgets; whether one of them is shown.
fn push_widgets(out: &mut Vec<Row>, list: &Vec<String>, tr: &Translator, k: Kind)
    ensures
        rows_view(final(out)@) == rows_view(old(out)@) + widget_rows(
            text::views(list@),
            *tr,
            k,
            widgets::catalog_list().len() as int,
        ),
{
    let c: Vec<Entry> = widgets::catalog();
    let ghost v = c@.map_values(|e: Entry| widgets::entry_view(e));
    let ghost l = text::views(list@);
    let ghost o = rows_view(out@);
    let mut i: usize = 0;
    assert(v.len() == c.len());
    assert(o =~= o + widget_rows(l, *tr, k, 0));
    while i < c.len()
        invariant
            v == c@.map_values(|e: Entry| widgets::entry_view(e)),
            v == widgets::catalog_list(),
            l == text::views(list@),
            c.len() == 13,
            i <= c.len(),
            rows_view(out@) == o + widget_rows(l, *tr, k, i as int),
        decreases c.len() - i,
    {
        assert(v[i as int] == widgets::entry_view(c@[i as int]));
        if c[i].kind == k {
            proof {
                lemma_listed(list@, c@[i as int].name@);
            }
            push_item(
                out,
                MENU_WIDGET_BASE + i,
                tr.t(c[i].title),
                text::list_contains(list, c[i].name),
            );
        }
        i += 1;
        assert(rows_view(out@) =~= o + widget_rows(l, *tr, k, i as int));
    }
}

fn is_module_on(list: &Vec<String>, k: Kind) -> (r: bool)
    ensures
        r == module_on(text::views(list@), k),
{
    let c: Vec<Entry> = widgets::catalog();
    let ghost v = c@.map_values(|e: Entry| widgets::entry_view(e));
    let ghost l = text::views(list@);
    let mut i: usize = 0;
    while i < c.len()
        invariant
            v == c@.map_values(|e: Entry| widgets::entry_view(e)),
            v == widgets::catalog_list(),
            l == text::views(list@),
            i <= c.len(),
            forall|j: int|
                0 <= j < i ==> !((#[trigger] widgets::catalog_list()[j]).0 == k && l.contains(
                    widgets::catalog_list()[j].1,
                )),
        decreases c.len() - i,
    {
        proof {
            assert(v[i as int] == widgets::entry_view(c@[i as int]));
            lemma_listed(list@, c@[i as int].name@);
        }
        if c[i].kind == k && text::list_contains(list, c[i].name) {
            assert(widgets::catalog_list()[i as int].0 == k);
            return true;
        }
        i += 1;
    }
    false
}

fn push_module_head(out: &mut Vec<Row>, cfg: &Config, tr: &Translator, sh: &Shown, k: Kind)
    ensures
        rows_view(final(out)@) == rows_view(old(out)@) + module_head(*cfg, *tr, *sh, k),
{
    let ghost o = rows_view(out@);
    let available: bool = match k {
        Kind::Gpu => sh.gpu,
        Kind::Battery => sh.battery,
        _ => true,
    };
    let mut title: String = k.title(tr);
    if !available {
        title.append("  ");
        title.append(tr.t("menu.na").as_str());
    } else if is_module_on(&cfg.widgets, k) {
        title.append("  \u{2022}");
    }
    push_open(out, title, available);
    push_widgets(out, &cfg.widgets, tr, k);
    assert(rows_view(out@) =~= o + module_head(*cfg, *tr, *sh, k));
}

fn push_module_colors(out: &mut Vec<Row>, cfg: &Config, tr: &Translator, k: Kind)
    requires
        cfg.colors.wf(),
    ensures
        rows_view(final(out)@) == rows_view(old(out)@) + module_colors(*cfg, *tr, k),
{
    let ghost o = rows_view(out@);
    if k != Kind::Battery {
        push_separator(out);
        push_colors(out, cfg, tr, k);
    }
    assert(rows_view(out@) =~= o + module_colors(*cfg, *tr, k));
}

fn push_module_cores(out: &mut Vec<Row>, cfg: &Config, tr: &Translator, sh: &Shown, k: Kind)
    ensures
        rows_view(final(out)@) == rows_view(old(out)@) + module_cores(*cfg, *tr, *sh, k),
{
    let ghost o = rows_view(out@);
    if k == Kind::Cpu && sh.hybrid {
        push_item(out, MENU_SPLIT_PE, tr.t("menu.show_pe_splitter"), cfg.split_pe_cores);
        push_item(out, MENU_GROUP_PE, tr.t("menu.group_pe_cores"), cfg.group_pe_cores);
    }
    assert(rows_view(out@) =~= o + module_cores(*cfg, *tr, *sh, k));
}

fn push_module_moves(out: &mut Vec<Row>, tr: &Translator, k: Kind)
    ensures
        rows_view(final(out)@) == rows_view(old(out)@) + module_moves(*tr, k),
{
    let ghost o = rows_view(out@);
    push_separator(out);
    push_item(out, MENU_MOVE_BASE + k.rank() * 2, tr.t("menu.move_left"), false);
    push_item(out, MENU_MOVE_BASE + k.rank() * 2 + 1, tr.t("menu.move_right"), false);
    push_close(out);
    assert(rows_view(out@) =~= o + module_moves(*tr, k));
}

proof fn lemma_sum(o: Seq<RowView>, a: Seq<RowView>, b: Seq<RowView>, c: Seq<RowView>, d: Seq<RowView>)
    ensures
        o + (a + b + c + d) == o + a + b + c + d,
{
    assert(o + (a + b + c + d) =~= o + a + b + c + d);
}

fn push_module(out: &mut Vec<Row>, cfg: &Config, tr: &Translator, sh: &Shown, k: Kind)
    requires
        cfg.colors.wf(),
    ensures
        rows_view(final(out)@) == rows_view(old(out)@) + module_rows(*cfg, *tr, *sh, k),
{
    proof {
        lemma_sum(
            rows_view(out@),
            module_head(*cfg, *tr, *sh, k),
            module_colors(*cfg, *tr, k),
            module_cores(*cfg, *tr, *sh, k),
            module_moves(*tr, k),
        );
    }
    push_module_head(out, cfg, tr, sh, k);
    push_module_colors(out, cfg, tr, k);
    push_module_cores(out, cfg, tr, sh, k);
    push_module_moves(out, tr, k);
}

fn font_size(i: usize) -> (r: (u32, u32, u32))
    requires
        i < 4,
    ensures
        r == (font_sizes()[i as int].0, font_sizes()[i as int].1, font_sizes()[i as int].2),
{
    if i == 0 {
        (0x3f59_999a, 0x3f57_0a3e, 0x3f5c_28f6)
    } else if i == 1 {
        (0x3f80_0000, 0x3f7d_70a4, 0x3f81_47ae)
    } else if i == 2 {
        (0x3f93_3333, 0x3f91_eb85, 0x3f94_7ae1)
    } else {
        (0x3fa6_6666, 0x3fa5_1eb8, 0x3fa7_ae14)
    }
}

fn push_font(out: &mut Vec<Row>, cfg: &Config, tr: &Translator, i: usize, title: &str)
    requires
        i < 4,
        title@ == font_sizes()[i as int].3,
    ensures
        rows_view(final(out)@) == rows_view(old(out)@).push(font_row(*cfg, *tr, i as int)),
{
    let (_, low, high) = font_size(i);
    let b: u32 = cfg.font_scale.bits;
    push_item(out, MENU_FONT_BASE + i, tr.t(title), low <= b && b <= high);
}

fn push_accent(out: &mut Vec<Row>, cfg: &Config, tr: &Translator)
    ensures
        rows_view(final(out)@) == rows_view(old(out)@) + accent_rows(*cfg, *tr),
{
    let ghost o = rows_view(out@);
    push_separator(out);
    push_item(out, MENU_LABELS, tr.t("menu.labels"), cfg.labels);
    push_open(out, tr.t("menu.accent_colour"), true);
    push_palette(out, tr, MENU_ACCENT_BASE, cfg.accent.as_str());
    push_close(out);
    assert(rows_view(out@) =~= o + accent_rows(*cfg, *tr));
}

fn push_sizes(out: &mut Vec<Row>, cfg: &Config, tr: &Translator)
    ensures
        rows_view(final(out)@) == rows_view(old(out)@) + size_rows(*cfg, *tr),
{
    let ghost o = rows_view(out@);
    push_open(out, tr.t("menu.font_size"), true);
    push_font(out, cfg, tr, 0, "menu.small");
    push_font(out, cfg, tr, 1, "menu.normal");
    push_font(out, cfg, tr, 2, "menu.large");
    push_font(out, cfg, tr, 3, "menu.extra_large");
    push_close(out);
    push_open(out, tr.t("menu.chart_width"), true);
    push_item(out, MENU_CHART_BASE, tr.t("menu.small"), cfg.chart_width == 34);
    push_item(out, MENU_CHART_BASE + 1, tr.t("menu.medium"), cfg.chart_width == 48);
    push_item(out, MENU_CHART_BASE + 2, tr.t("menu.large"), cfg.chart_width == 64);
    push_item(out, MENU_CHART_BASE + 3, tr.t("menu.extra_large"), cfg.chart_width == 96);
    push_close(out);
    push_open(out, tr.t("menu.top_processes"), true);
    push_item(out, MENU_TOP_BASE, text::number(5), cfg.top_processes == 5);
    push_item(out, MENU_TOP_BASE + 1, text::number(10), cfg.top_processes == 10);
    push_item(out, MENU_TOP_BASE + 2, text::number(15), cfg.top_processes == 15);
    push_item(out, MENU_TOP_BASE + 3, text::number(20), cfg.top_processes == 20);
    push_close(out);
    assert(rows_view(out@) =~= o + size_rows(*cfg, *tr));
}

fn push_place(out: &mut Vec<Row>, cfg: &Config, tr: &Translator)
    ensures
        rows_view(final(out)@) == rows_view(old(out)@) + place_rows(*cfg, *tr),
{
    let ghost o = rows_view(out@);
    let left: bool = text::same(cfg.position.as_str(), "left");
    push_open(out, tr.t("menu.position"), true);
    push_item(out, MENU_POS_RIGHT, tr.t("menu.pos_right"), !left);
    push_item(out, MENU_POS_LEFT, tr.t("menu.pos_left"), left);
    push_close(out);
    push_open(out, tr.t("menu.update_interval"), true);
    push_item(out, MENU_INTERVAL_BASE, "0.5 s".to_string(), cfg.update_ms == 500);
    push_item(out, MENU_INTERVAL_BASE + 1, "1 s".to_string(), cfg.update_ms == 1000);
    push_item(out, MENU_INTERVAL_BASE + 2, "2 s".to_string(), cfg.update_ms == 2000);
    push_item(out, MENU_INTERVAL_BASE + 3, "5 s".to_string(), cfg.update_ms == 5000);
    push_close(out);
    let theme: &str = cfg.theme.as_str();
    push_open(out, tr.t("menu.theme"), true);
    push_item(out, MENU_THEME_AUTO, tr.t("menu.theme_auto"), text::same(theme, "auto"));
    push_item(out, MENU_THEME_DARK, tr.t("menu.theme_dark"), text::same(theme, "dark"));
    push_item(out, MENU_THEME_LIGHT, tr.t("menu.theme_light"), text::same(theme, "light"));
    push_close(out);
    assert(rows_view(out@) =~= o + place_rows(*cfg, *tr));
}

fn push_language(out: &mut Vec<Row>, cfg: &Config, tr: &Translator)
    ensures
        rows_view(final(out)@) == rows_view(old(out)@) + language_rows(*cfg, *tr),
{
    let ghost o = rows_view(out@);
    let current: &str = cfg.language.as_str();
    push_open(out, tr.t("menu.language"), true);
    push_item(out, MENU_LANG_BASE, tr.t("menu.lang_system"), text::same(current, "auto"));
    push_separator(out);
    let ghost o1 = rows_view(out@);
    let l: Vec<(&'static str, &'static str)> = i18n::locale_names();
    let mut i: usize = 0;
    assert(o1 =~= o1 + locale_rows(current@, 0));
    while i < l.len()
        invariant
            l@ == i18n::locale_list(),
            l.len() == 29,
            i <= l.len(),
            rows_view(out@) == o1 + locale_rows(current@, i as int),
        decreases l.len() - i,
    {
        push_item(
            out,
            MENU_LANG_BASE + 1 + i,
            l[i].1.to_string(),
            text::same(current, l[i].0),
        );
        i += 1;
        assert(rows_view(out@) =~= o1 + locale_rows(current@, i as int));
    }
    push_close(out);
    assert(rows_view(out@) =~= o + language_rows(*cfg, *tr));
}

fn push_actions(out: &mut Vec<Row>, tr: &Translator, sh: &Shown)
    ensures
        rows_view(final(out)@) == rows_view(old(out)@) + action_rows(*tr, *sh),
{
    let ghost o = rows_view(out@);
    push_separator(out);
    push_item(out, MENU_AUTOSTART, tr.t("menu.start_with_windows"), sh.autostart);
    push_separator(out);
    push_item(out, MENU_TASKMGR, tr.t("menu.task_manager"), false);
    push_item(out, MENU_CONFIG, tr.t("menu.open_config"), false);
    push_item(out, MENU_RELOAD, tr.t("menu.reload_config"), false);
    push_separator(out);
    push_item(out, MENU_ABOUT, tr.t("menu.about"), false);
    match sh.update {
        Some(v) => {
            let args: [(&str, &str); 1] = [("v", v)];
            assert(i18n::arg_views(args@) =~= seq![("v"@, v@)]);
            push_item(out, MENU_GET_UPDATE, tr.tf("menu.update_available", &args), false);
        },
        None => {
            push_item(out, MENU_CHECK_UPDATE, tr.t("menu.check_updates"), false);
        },
    }
    push_separator(out);
    push_item(out, MENU_EXIT, tr.t("menu.exit"), false);
    assert(rows_view(out@) =~= o + action_rows(*tr, *sh));
}

/// Settings menu: one submenu per module with a checkable entry per widget,
/// then the settings and the actions.
pub fn build_menu(cfg: &Config, tr: &Translator, sh: &Shown) -> (r: Vec<Row>)
    requires
        cfg.colors.wf(),
    ensures
        rows_view(r@) == menu_rows(*cfg, *tr, *sh),
{
    let mut out: Vec<Row> = Vec::new();
    let m: Vec<Kind> = widgets::modules();
    let mut i: usize = 0;
    assert(rows_view(out@) =~= modules_rows(*cfg, *tr, *sh, 0));
    while i < m.len()
        invariant
            cfg.colors.wf(),
            m@ == widgets::module_list(),
            i <= m.len(),
            rows_view(out@) == modules_rows(*cfg, *tr, *sh, i as int),
        decreases m.len() - i,
    {
        push_module(&mut out, cfg, tr, sh, m[i]);
        i += 1;
    }
    push_accent(&mut out, cfg, tr);
    push_sizes(&mut out, cfg, tr);
    push_place(&mut out, cfg, tr);
    push_language(&mut out, cfg, tr);
    push_actions(&mut out, tr, sh);
    out
}

} // verus!
