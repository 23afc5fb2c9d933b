//! What the commands of the settings menu and the clicks in a popup do to the
//! configuration.

use crate::config::Config;
use crate::i18n::{self, Translator};
use crate::menu::{
    self, MENU_ABOUT, MENU_ACCENT_BASE, MENU_AUTOSTART, MENU_CHART_BASE, MENU_CHECK_UPDATE,
    MENU_COLOR_BASE, MENU_COLOR_STRIDE, MENU_CONFIG, MENU_EXIT, MENU_FONT_BASE, MENU_GET_UPDATE,
    MENU_GROUP_PE, MENU_INTERVAL_BASE, MENU_LABELS, MENU_LANG_BASE, MENU_MOVE_BASE, MENU_POS_LEFT,
    MENU_POS_RIGHT, MENU_RELOAD, MENU_SPLIT_PE, MENU_TASKMGR, MENU_THEME_AUTO, MENU_THEME_DARK,
    MENU_THEME_LIGHT, MENU_TOP_BASE, MENU_WIDGET_BASE, RowView, Shown,
};
use crate::metrics::disks::PhysicalDisk;
use crate::metrics::net::NetIface;
use crate::metrics::MetricsData;
use crate::number::Single;
use crate::popup::Action;
use crate::text;
use crate::widgets::theme::{self, Swatch};
use crate::widgets::{self, Entry, Kind};
use vstd::prelude::*;

verus! {

// ---------------------------------------------------------------------------
// Which command is which

pub open spec fn in_range(cmd: int, base: int, n: int) -> bool {
    base <= cmd < base + n
}

pub open spec fn is_move(cmd: int) -> bool {
    in_range(cmd, MENU_MOVE_BASE as int, 12)
}

pub open spec fn is_language(cmd: int) -> bool {
    in_range(cmd, MENU_LANG_BASE as int, 30)
}

pub open spec fn is_color(cmd: int) -> bool {
    in_range(cmd, MENU_COLOR_BASE as int, 6 * MENU_COLOR_STRIDE)
}

pub open spec fn is_accent(cmd: int) -> bool {
    in_range(cmd, MENU_ACCENT_BASE as int, 13)
}

pub open spec fn is_widget(cmd: int) -> bool {
    in_range(cmd, MENU_WIDGET_BASE as int, 13)
}

pub open spec fn is_top(cmd: int) -> bool {
    in_range(cmd, MENU_TOP_BASE as int, 4)
}

pub open spec fn is_chart(cmd: int) -> bool {
    in_range(cmd, MENU_CHART_BASE as int, 4)
}

pub open spec fn is_font(cmd: int) -> bool {
    in_range(cmd, MENU_FONT_BASE as int, 4)
}

pub open spec fn is_interval(cmd: int) -> bool {
    in_range(cmd, MENU_INTERVAL_BASE as int, 4)
}

pub open spec fn is_position(cmd: int) -> bool {
    cmd == MENU_POS_RIGHT || cmd == MENU_POS_LEFT
}

pub open spec fn is_theme(cmd: int) -> bool {
    cmd == MENU_THEME_AUTO || cmd == MENU_THEME_DARK || cmd == MENU_THEME_LIGHT
}

pub open spec fn is_switch(cmd: int) -> bool {
    cmd == MENU_LABELS || cmd == MENU_SPLIT_PE || cmd == MENU_GROUP_PE
}

/// The command changes a setting.
pub open spec fn is_setting(cmd: int) -> bool {
    is_switch(cmd) || is_move(cmd) || is_language(cmd) || is_top(cmd) || is_chart(cmd) || is_font(
        cmd,
    ) || is_accent(cmd) || is_color(cmd) || is_position(cmd) || is_theme(cmd) || is_interval(cmd)
        || is_widget(cmd)
}

/// What a command of the menu asks for.
#[derive(Clone, Copy, Debug, PartialEq, Eq, Structural)]
pub enum Command {
    /// The menu was closed, or the command is not one of its.
    Nothing,
    Exit,
    TaskManager,
    OpenConfig,
    About,
    Reload,
    CheckUpdate,
    GetUpdate,
    Autostart,
    /// A setting changes.
    Setting,
}

pub open spec fn asked(cmd: int) -> Command {
    if cmd == MENU_EXIT {
        Command::Exit
    } else if cmd == MENU_TASKMGR {
        Command::TaskManager
    } else if cmd == MENU_CONFIG {
        Command::OpenConfig
    } else if cmd == MENU_ABOUT {
        Command::About
    } else if cmd == MENU_RELOAD {
        Command::Reload
    } else if cmd == MENU_CHECK_UPDATE {
        Command::CheckUpdate
    } else if cmd == MENU_GET_UPDATE {
        Command::GetUpdate
    } else if cmd == MENU_AUTOSTART {
        Command::Autostart
    } else if is_setting(cmd) {
        Command::Setting
    } else {
        Command::Nothing
    }
}

fn within(cmd: usize, base: usize, n: usize) -> (r: bool)
    requires
        base + n <= 10000,
    ensures
        r == in_range(cmd as int, base as int, n as int),
{
    base <= cmd && cmd < base + n
}

fn changes_setting(cmd: usize) -> (r: bool)
    ensures
        r == is_setting(cmd as int),
{
    cmd == MENU_LABELS || cmd == MENU_SPLIT_PE || cmd == MENU_GROUP_PE || within(
        cmd,
        MENU_MOVE_BASE,
        12,
    ) || within(cmd, MENU_LANG_BASE, 30) || within(cmd, MENU_TOP_BASE, 4) || within(
        cmd,
        MENU_CHART_BASE,
        4,
    ) || within(cmd, MENU_FONT_BASE, 4) || within(cmd, MENU_ACCENT_BASE, 13) || within(
        cmd,
        MENU_COLOR_BASE,
        6 * MENU_COLOR_STRIDE,
    ) || cmd == MENU_POS_RIGHT || cmd == MENU_POS_LEFT || cmd == MENU_THEME_AUTO || cmd
        == MENU_THEME_DARK || cmd == MENU_THEME_LIGHT || within(cmd, MENU_INTERVAL_BASE, 4)
        || within(cmd, MENU_WIDGET_BASE, 13)
}

/// What a command of the menu asks for.
pub fn command_of(cmd: usize) -> (r: Command)
    ensures
        r == asked(cmd as int),
{
    if cmd == MENU_EXIT {
        Command::Exit
    } else if cmd == MENU_TASKMGR {
        Command::TaskManager
    } else if cmd == MENU_CONFIG {
        Command::OpenConfig
    } else if cmd == MENU_ABOUT {
        Command::About
    } else if cmd == MENU_RELOAD {
        Command::Reload
    } else if cmd == MENU_CHECK_UPDATE {
        Command::CheckUpdate
    } else if cmd == MENU_GET_UPDATE {
        Command::GetUpdate
    } else if cmd == MENU_AUTOSTART {
        Command::Autostart
    } else if changes_setting(cmd) {
        Command::Setting
    } else {
        Command::Nothing
    }
}

// ---------------------------------------------------------------------------
// What a setting becomes

/// The list of widgets after a command: a module is moved or a widget
/// switched.
pub open spec fn widgets_after(list: Seq<Seq<char>>, cmd: int) -> Seq<Seq<char>> {
    if is_move(cmd) {
        widgets::moved(
            list,
            widgets::module_list()[(cmd - MENU_MOVE_BASE) / 2],
            if (cmd - MENU_MOVE_BASE) % 2 == 0 {
                -1
            } else {
                1
            },
        )
    } else if is_widget(cmd) {
        widgets::toggled(list, widgets::catalog_list()[cmd - MENU_WIDGET_BASE].1)
    } else {
        list
    }
}

pub open spec fn language_after(s: Seq<char>, cmd: int) -> Seq<char> {
    if cmd == MENU_LANG_BASE {
        "auto"@
    } else if is_language(cmd) {
        i18n::locale_list()[cmd - MENU_LANG_BASE - 1].0@
    } else {
        s
    }
}

pub open spec fn accent_after(s: Seq<char>, cmd: int) -> Seq<char> {
    if is_accent(cmd) {
        theme::palette_list()[cmd - MENU_ACCENT_BASE].0
    } else {
        s
    }
}

/// The setting of an entry of a colour submenu; entries beyond the palette
/// stand for the accent.
pub open spec fn color_value(entry: int) -> Seq<char> {
    if entry < 3 {
        menu::color_modes()[entry].0
    } else if entry - 3 < 13 {
        theme::palette_list()[entry - 3].0
    } else {
        "accent"@
    }
}

/// The colours of the modules after a command; the accent is the setting that
/// is not written down.
pub open spec fn colors_after(m: Map<Seq<char>, Seq<char>>, cmd: int) -> Map<Seq<char>, Seq<char>> {
    if is_color(cmd) {
        let key = menu::key_of(
            widgets::module_list()[(cmd - MENU_COLOR_BASE) / (MENU_COLOR_STRIDE as int)],
        );
        let value = color_value((cmd - MENU_COLOR_BASE) % (MENU_COLOR_STRIDE as int));
        if value == "accent"@ {
            m.remove(key)
        } else {
            m.insert(key, value)
        }
    } else {
        m
    }
}

pub open spec fn position_after(s: Seq<char>, cmd: int) -> Seq<char> {
    if cmd == MENU_POS_RIGHT {
        "right"@
    } else if cmd == MENU_POS_LEFT {
        "left"@
    } else {
        s
    }
}

pub open spec fn theme_after(s: Seq<char>, cmd: int) -> Seq<char> {
    if cmd == MENU_THEME_AUTO {
        "auto"@
    } else if cmd == MENU_THEME_DARK {
        "dark"@
    } else if cmd == MENU_THEME_LIGHT {
        "light"@
    } else {
        s
    }
}

/// The settings that no command of the menu changes.
pub open spec fn rest_kept(a: Config, b: Config) -> bool {
    &&& b.offset == a.offset
    &&& b.disk == a.disk
    &&& b.bar_width == a.bar_width
    &&& b.net_disabled == a.net_disabled
    &&& b.disks_disabled == a.disks_disabled
    &&& b.discovery == a.discovery
    &&& b.remotes == a.remotes
    &&& b.share == a.share
    &&& b.share_id == a.share_id
    &&& b.share_name == a.share_name
    &&& b.share_port == a.share_port
    &&& b.share_token == a.share_token
    &&& b.mode == a.mode
}

/// Configuration `b` is what configuration `a` becomes by a command.
pub open spec fn applied(a: Config, b: Config, cmd: int) -> bool {
    &&& rest_kept(a, b)
    &&& b.labels == (a.labels != (cmd == MENU_LABELS))
    &&& b.split_pe_cores == (a.split_pe_cores != (cmd == MENU_SPLIT_PE))
    &&& b.group_pe_cores == (a.group_pe_cores != (cmd == MENU_GROUP_PE))
    &&& text::views(b.widgets@) == widgets_after(text::views(a.widgets@), cmd)
    &&& b.language@ == language_after(a.language@, cmd)
    &&& b.top_processes == (if is_top(cmd) {
        menu::top_counts()[cmd - MENU_TOP_BASE]
    } else {
        a.top_processes
    })
    &&& b.chart_width == (if is_chart(cmd) {
        menu::chart_widths()[cmd - MENU_CHART_BASE].0
    } else {
        a.chart_width
    })
    &&& b.font_scale.bits == (if is_font(cmd) {
        menu::font_sizes()[cmd - MENU_FONT_BASE].0
    } else {
        a.font_scale.bits
    })
    &&& b.accent@ == accent_after(a.accent@, cmd)
    &&& i18n::texts(b.colors@) == colors_after(i18n::texts(a.colors@), cmd)
    &&& b.utilization_colors == (a.utilization_colors && !is_color(cmd))
    &&& b.position@ == position_after(a.position@, cmd)
    &&& b.theme@ == theme_after(a.theme@, cmd)
    &&& b.update_ms == (if is_interval(cmd) {
        menu::intervals()[cmd - MENU_INTERVAL_BASE].0
    } else {
        a.update_ms
    })
}

/// What has to be told of a change, beside drawing the strip anew.
#[derive(Clone, Copy, Debug, PartialEq, Eq, Structural)]
pub struct Change {
    /// The order of the cores.
    pub group_pe: bool,
    /// The language.
    pub language: bool,
    /// The rows of the process lists.
    pub top_processes: bool,
    /// The refresh interval.
    pub interval: bool,
    /// The strip is at the left edge, so that the room that was taken at the
    /// right is given back.
    pub give_back: bool,
}

fn apply_widgets(list: &mut Vec<String>, cmd: usize)
    ensures
        text::views(final(list)@) == widgets_after(text::views(old(list)@), cmd as int),
{
    if within(cmd, MENU_MOVE_BASE, 12) {
        let m: Vec<Kind> = widgets::modules();
        let at: usize = cmd - MENU_MOVE_BASE;
        let dir: i32 = if at % 2 == 0 {
            -1
        } else {
            1
        };
        widgets::move_module(list, m[at / 2], dir);
    } else if within(cmd, MENU_WIDGET_BASE, 13) {
        let c: Vec<Entry> = widgets::catalog();
        let ghost v = c@.map_values(|e: Entry| widgets::entry_view(e));
        assert(v.len() == c.len());
        assert(v[cmd - MENU_WIDGET_BASE] == widgets::entry_view(c@[cmd - MENU_WIDGET_BASE]));
        widgets::toggle_widget(list, c[cmd - MENU_WIDGET_BASE].name);
    }
}

fn palette_name(i: usize) -> (r: &'static str)
    requires
        i < 13,
    ensures
        r@ == theme::palette_list()[i as int].0,
{
    let p: Vec<Swatch> = theme::palette();
    let ghost v = p@.map_values(|s: Swatch| theme::swatch_view(s));
    assert(v.len() == p.len());
    assert(v[i as int] == theme::swatch_view(p@[i as int]));
    p[i].name
}

fn value_of_entry(entry: usize) -> (r: &'static str)
    ensures
        r@ == color_value(entry as int),
{
    if entry == 0 {
        "accent"
    } else if entry == 1 {
        "utilization"
    } else if entry == 2 {
        "mono"
    } else if entry - 3 < 13 {
        palette_name(entry - 3)
    } else {
        "accent"
    }
}

fn apply_colors(cfg: &mut Config, cmd: usize)
    requires
        old(cfg).wf(),
    ensures
        final(cfg).wf(),
        *final(cfg) == (Config {
            colors: final(cfg).colors,
            utilization_colors: final(cfg).utilization_colors,
            ..*old(cfg)
        }),
        i18n::texts(final(cfg).colors@) == colors_after(i18n::texts(old(cfg).colors@), cmd as int),
        final(cfg).utilization_colors == (old(cfg).utilization_colors && !is_color(cmd as int)),
{
    if within(cmd, MENU_COLOR_BASE, 6 * MENU_COLOR_STRIDE) {
        let m: Vec<Kind> = widgets::modules();
        let at: usize = cmd - MENU_COLOR_BASE;
        let k: Kind = m[at / MENU_COLOR_STRIDE];
        let value: &'static str = value_of_entry(at % MENU_COLOR_STRIDE);
        let ghost c0 = cfg.colors@;
        if text::same(value, "accent") {
            let _gone: Option<String> = cfg.colors.remove(menu::module_key(k));
            assert(i18n::texts(cfg.colors@) =~= i18n::texts(c0).remove(menu::key_of(k)));
        } else {
            cfg.colors.insert(menu::module_key(k).to_string(), value.to_string());
            assert(i18n::texts(cfg.colors@) =~= i18n::texts(c0).insert(menu::key_of(k), value@));
        }
        cfg.utilization_colors = false;
    }
}

fn apply_numbers(cfg: &mut Config, cmd: usize)
    ensures
        *final(cfg) == (Config {
            labels: final(cfg).labels,
            split_pe_cores: final(cfg).split_pe_cores,
            group_pe_cores: final(cfg).group_pe_cores,
            top_processes: final(cfg).top_processes,
            chart_width: final(cfg).chart_width,
            font_scale: final(cfg).font_scale,
            update_ms: final(cfg).update_ms,
            ..*old(cfg)
        }),
        final(cfg).labels == (old(cfg).labels != (cmd == MENU_LABELS)),
        final(cfg).split_pe_cores == (old(cfg).split_pe_cores != (cmd == MENU_SPLIT_PE)),
        final(cfg).group_pe_cores == (old(cfg).group_pe_cores != (cmd == MENU_GROUP_PE)),
        final(cfg).top_processes == (if is_top(cmd as int) {
            menu::top_counts()[cmd - MENU_TOP_BASE]
        } else {
            old(cfg).top_processes
        }),
        final(cfg).chart_width == (if is_chart(cmd as int) {
            menu::chart_widths()[cmd - MENU_CHART_BASE].0
        } else {
            old(cfg).chart_width
        }),
        final(cfg).font_scale.bits == (if is_font(cmd as int) {
            menu::font_sizes()[cmd - MENU_FONT_BASE].0
        } else {
            old(cfg).font_scale.bits
        }),
        final(cfg).update_ms == (if is_interval(cmd as int) {
            menu::intervals()[cmd - MENU_INTERVAL_BASE].0
        } else {
            old(cfg).update_ms
        }),
{
    if cmd == MENU_LABELS {
        cfg.labels = !cfg.labels;
    } else if cmd == MENU_SPLIT_PE {
        cfg.split_pe_cores = !cfg.split_pe_cores;
    } else if cmd == MENU_GROUP_PE {
        cfg.group_pe_cores = !cfg.group_pe_cores;
    } else if within(cmd, MENU_TOP_BASE, 4) {
        let counts: [u32; 4] = [5, 10, 15, 20];
        assert(counts@ =~= menu::top_counts());
        cfg.top_processes = counts[cmd - MENU_TOP_BASE];
    } else if within(cmd, MENU_CHART_BASE, 4) {
        let widths: [u32; 4] = [34, 48, 64, 96];
        cfg.chart_width = widths[cmd - MENU_CHART_BASE];
    } else if within(cmd, MENU_FONT_BASE, 4) {
        let sizes: [u32; 4] = [0x3f59_999a, 0x3f80_0000, 0x3f93_3333, 0x3fa6_6666];
        cfg.font_scale = Single { bits: sizes[cmd - MENU_FONT_BASE] };
    } else if within(cmd, MENU_INTERVAL_BASE, 4) {
        let times: [u32; 4] = [500, 1000, 2000, 5000];
        cfg.update_ms = times[cmd - MENU_INTERVAL_BASE];
    }
}

fn apply_names(cfg: &mut Config, cmd: usize)
    ensures
        *final(cfg) == (Config {
            language: final(cfg).language,
            accent: final(cfg).accent,
            position: final(cfg).position,
            theme: final(cfg).theme,
            ..*old(cfg)
        }),
        final(cfg).language@ == language_after(old(cfg).language@, cmd as int),
        final(cfg).accent@ == accent_after(old(cfg).accent@, cmd as int),
        final(cfg).position@ == position_after(old(cfg).position@, cmd as int),
        final(cfg).theme@ == theme_after(old(cfg).theme@, cmd as int),
{
    if cmd == MENU_LANG_BASE {
        cfg.language = "auto".to_string();
    } else if within(cmd, MENU_LANG_BASE, 30) {
        let l: Vec<(&'static str, &'static str)> = i18n::locale_names();
        assert(l.len() == 29);
        cfg.language = l[cmd - MENU_LANG_BASE - 1].0.to_string();
    } else if within(cmd, MENU_ACCENT_BASE, 13) {
        cfg.accent = palette_name(cmd - MENU_ACCENT_BASE).to_string();
    } else if cmd == MENU_POS_RIGHT {
        cfg.position = "right".to_string();
    } else if cmd == MENU_POS_LEFT {
        cfg.position = "left".to_string();
    } else if cmd == MENU_THEME_AUTO {
        cfg.theme = "auto".to_string();
    } else if cmd == MENU_THEME_DARK {
        cfg.theme = "dark".to_string();
    } else if cmd == MENU_THEME_LIGHT {
        cfg.theme = "light".to_string();
    }
}

/// Applies a settings change from the menu. The caller saves the configuration,
/// tells the parts that the change names, and draws anew; `None` where the
/// command is no setting, and nothing changes.
pub fn apply_menu(cfg: &mut Config, cmd: usize) -> (r: Option<Change>)
    requires
        old(cfg).wf(),
    ensures
        final(cfg).wf(),
        applied(*old(cfg), *final(cfg), cmd as int),
        !is_setting(cmd as int) ==> r.is_none() && *final(cfg) == *old(cfg),
        is_setting(cmd as int) ==> r == Some(
            Change {
                group_pe: cmd == MENU_GROUP_PE,
                language: is_language(cmd as int),
                top_processes: is_top(cmd as int),
                interval: is_interval(cmd as int),
                give_back: final(cfg).position@ == "left"@,
            },
        ),
{
    if !changes_setting(cmd) {
        return None;
    }
    apply_numbers(cfg, cmd);
    apply_names(cfg, cmd);
    apply_widgets(&mut cfg.widgets, cmd);
    apply_colors(cfg, cmd);
    Some(
        Change {
            group_pe: cmd == MENU_GROUP_PE,
            language: within(cmd, MENU_LANG_BASE, 30),
            top_processes: within(cmd, MENU_TOP_BASE, 4),
            interval: within(cmd, MENU_INTERVAL_BASE, 4),
            give_back: text::same(cfg.position.as_str(), "left"),
        },
    )
}

/// Two commands of the same switch leave it as it was.
pub proof fn law_switching_twice_changes_nothing(a: Config, b: Config, c: Config, cmd: int)
    requires
        is_switch(cmd),
        applied(a, b, cmd),
        applied(b, c, cmd),
    ensures
        c.labels == a.labels,
        c.split_pe_cores == a.split_pe_cores,
        c.group_pe_cores == a.group_pe_cores,
        text::views(c.widgets@) == text::views(a.widgets@),
{
}

// ---------------------------------------------------------------------------
// The menu and its commands

/// Every entry is a command.
pub open spec fn all_commands(rows: Seq<RowView>) -> bool {
    forall|i: int|
        0 <= i < rows.len() ==> (match #[trigger] rows[i] {
            RowView::Item { id, .. } => asked(id) != Command::Nothing,
            _ => true,
        })
}

proof fn lemma_commands_sum(a: Seq<RowView>, b: Seq<RowView>)
    requires
        all_commands(a),
        all_commands(b),
    ensures
        all_commands(a + b),
{
    assert forall|i: int| 0 <= i < (a + b).len() implies (match #[trigger] (a + b)[i] {
        RowView::Item { id, .. } => asked(id) != Command::Nothing,
        _ => true,
    }) by {
        if i < a.len() {
            assert((a + b)[i] == a[i]);
        } else {
            assert((a + b)[i] == b[i - a.len()]);
        }
    }
}

proof fn lemma_palette_commands(tr: Translator, base: int, current: Seq<char>, n: int)
    requires
        n <= 13,
        forall|i: int| base <= i < base + 13 ==> #[trigger] asked(i) != Command::Nothing,
    ensures
        all_commands(menu::palette_rows(tr, base, current, n)),
    decreases n,
{
    if n > 0 {
        lemma_palette_commands(tr, base, current, n - 1);
        assert(asked(base + n - 1) != Command::Nothing);
    }
}

proof fn lemma_widget_commands(list: Seq<Seq<char>>, tr: Translator, k: Kind, n: int)
    requires
        n <= 13,
    ensures
        all_commands(menu::widget_rows(list, tr, k, n)),
    decreases n,
{
    if n > 0 {
        lemma_widget_commands(list, tr, k, n - 1);
    }
}

proof fn lemma_locale_commands(current: Seq<char>, n: int)
    requires
        n <= 29,
    ensures
        all_commands(menu::locale_rows(current, n)),
    decreases n,
{
    if n > 0 {
        lemma_locale_commands(current, n - 1);
    }
}

proof fn lemma_module_commands(cfg: Config, tr: Translator, sh: Shown, k: Kind)
    ensures
        all_commands(menu::module_rows(cfg, tr, sh, k)),
{
    let list = text::views(cfg.widgets@);
    let base = MENU_COLOR_BASE + widgets::module_rank(k) * MENU_COLOR_STRIDE;
    let cur = menu::color_setting(cfg, k);
    lemma_widget_commands(list, tr, k, 13);
    lemma_palette_commands(tr, base + 3, cur, 13);
    let close = seq![RowView::Close];
    let line = seq![RowView::Separator];
    let head = seq![
        menu::opened(i18n::text_of(tr, "menu.colour"@)),
        menu::item(base, i18n::text_of(tr, "menu.accent"@), cur == "accent"@),
        menu::item(base + 1, i18n::text_of(tr, "menu.by_utilisation"@), cur == "utilization"@),
        menu::item(base + 2, i18n::text_of(tr, "menu.monochrome"@), cur == "mono"@),
        RowView::Separator,
    ];
    assert(all_commands(head));
    lemma_commands_sum(head, menu::palette_rows(tr, base + 3, cur, 13));
    lemma_commands_sum(head + menu::palette_rows(tr, base + 3, cur, 13), close);
    lemma_commands_sum(line, menu::color_rows(cfg, tr, k));
    let title = seq![
        RowView::Open {
            text: menu::module_title(list, tr, sh, k),
            enabled: menu::module_available(sh, k),
        },
    ];
    lemma_commands_sum(title, menu::widget_rows(list, tr, k, 13));
    let a = menu::module_head(cfg, tr, sh, k);
    let b = menu::module_colors(cfg, tr, k);
    let c = menu::module_cores(cfg, tr, sh, k);
    let d = menu::module_moves(tr, k);
    assert(all_commands(c));
    assert(all_commands(d));
    lemma_commands_sum(a, b);
    lemma_commands_sum(a + b, c);
    lemma_commands_sum(a + b + c, d);
}

proof fn lemma_modules_commands(cfg: Config, tr: Translator, sh: Shown, n: int)
    ensures
        all_commands(menu::modules_rows(cfg, tr, sh, n)),
    decreases n,
{
    if n > 0 {
        lemma_modules_commands(cfg, tr, sh, n - 1);
        lemma_module_commands(cfg, tr, sh, widgets::module_list()[n - 1]);
        lemma_commands_sum(
            menu::modules_rows(cfg, tr, sh, n - 1),
            menu::module_rows(cfg, tr, sh, widgets::module_list()[n - 1]),
        );
    }
}

proof fn lemma_accent_commands(cfg: Config, tr: Translator)
    ensures
        all_commands(menu::accent_rows(cfg, tr)),
{
    lemma_palette_commands(tr, MENU_ACCENT_BASE as int, cfg.accent@, 13);
    let head = seq![
        RowView::Separator,
        menu::item(MENU_LABELS as int, i18n::text_of(tr, "menu.labels"@), cfg.labels),
        menu::opened(i18n::text_of(tr, "menu.accent_colour"@)),
    ];
    let p = menu::palette_rows(tr, MENU_ACCENT_BASE as int, cfg.accent@, 13);
    assert(all_commands(head));
    lemma_commands_sum(head, p);
    lemma_commands_sum(head + p, seq![RowView::Close]);
}

proof fn lemma_language_commands(cfg: Config, tr: Translator)
    ensures
        all_commands(menu::language_rows(cfg, tr)),
{
    lemma_locale_commands(cfg.language@, 29);
    let head = seq![
        menu::opened(i18n::text_of(tr, "menu.language"@)),
        menu::item(
            MENU_LANG_BASE as int,
            i18n::text_of(tr, "menu.lang_system"@),
            cfg.language@ == "auto"@,
        ),
        RowView::Separator,
    ];
    let l = menu::locale_rows(cfg.language@, 29);
    assert(all_commands(head));
    lemma_commands_sum(head, l);
    lemma_commands_sum(head + l, seq![RowView::Close]);
}

/// Every entry of the menu is a command that is understood.
pub proof fn law_menu_entries_are_commands(cfg: Config, tr: Translator, sh: Shown)
    ensures
        all_commands(menu::menu_rows(cfg, tr, sh)),
{
    lemma_modules_commands(cfg, tr, sh, 6);
    lemma_accent_commands(cfg, tr);
    lemma_language_commands(cfg, tr);
    let a = menu::modules_rows(cfg, tr, sh, 6);
    let b = menu::accent_rows(cfg, tr);
    let c = menu::size_rows(cfg, tr);
    let d = menu::place_rows(cfg, tr);
    let e = menu::language_rows(cfg, tr);
    let f = menu::action_rows(tr, sh);
    assert(all_commands(c));
    assert(all_commands(d));
    assert(all_commands(f));
    lemma_commands_sum(a, b);
    lemma_commands_sum(a + b, c);
    lemma_commands_sum(a + b + c, d);
    lemma_commands_sum(a + b + c + d, e);
    lemma_commands_sum(a + b + c + d + e, f);
}

/// The command of a row, where it is an entry.
pub open spec fn id_of(r: RowView) -> Option<int> {
    match r {
        RowView::Item { id, .. } => Some(id),
        _ => None,
    }
}

/// No command stands in two entries.
pub open spec fn each_once(rows: Seq<RowView>) -> bool {
    forall|i: int, j: int|
        0 <= i < j < rows.len() && id_of(#[trigger] rows[i]).is_some() ==> id_of(rows[i]) != id_of(
            #[trigger] rows[j],
        )
}

/// Every command of the rows is one of `p`.
spec fn ids_in(rows: Seq<RowView>, p: spec_fn(int) -> bool) -> bool {
    forall|i: int|
        0 <= i < rows.len() ==> (match id_of(#[trigger] rows[i]) {
            Some(x) => p(x),
            None => true,
        })
}

proof fn lemma_ids_in_sum(a: Seq<RowView>, b: Seq<RowView>, p: spec_fn(int) -> bool)
    requires
        ids_in(a, p),
        ids_in(b, p),
    ensures
        ids_in(a + b, p),
{
    let r = a + b;
    assert forall|i: int| 0 <= i < r.len() implies (match id_of(#[trigger] r[i]) {
        Some(x) => p(x),
        None => true,
    }) by {
        if i < a.len() {
            assert(r[i] == a[i]);
        } else {
            assert(r[i] == b[i - a.len()]);
        }
    }
}

/// Rows whose commands are told apart by a number `f` can be joined: below `n`
/// in the first, `n` in the second.
proof fn lemma_once_sum(a: Seq<RowView>, b: Seq<RowView>, f: spec_fn(int) -> int, n: int)
    requires
        each_once(a),
        each_once(b),
        ids_in(a, |x: int| f(x) < n),
        ids_in(b, |x: int| f(x) == n),
    ensures
        each_once(a + b),
        ids_in(a + b, |x: int| f(x) < n + 1),
{
    let r = a + b;
    let low = |x: int| f(x) < n;
    let here = |x: int| f(x) == n;
    assert forall|i: int, j: int|
        0 <= i < j < r.len() && id_of(#[trigger] r[i]).is_some() implies id_of(r[i]) != id_of(
        #[trigger] r[j],
    ) by {
        let m = a.len() as int;
        if j < m {
            assert(r[i] == a[i] && r[j] == a[j]);
        } else if i >= m {
            assert(r[i] == b[i - m] && r[j] == b[j - m]);
        } else {
            assert(r[i] == a[i] && r[j] == b[j - m]);
            assert(low(id_of(a[i])->0));
            if id_of(b[j - m]).is_some() {
                assert(here(id_of(b[j - m])->0));
            }
        }
    }
    let both = |x: int| f(x) < n + 1;
    assert(ids_in(a, both)) by {
        assert forall|i: int| 0 <= i < a.len() implies (match id_of(#[trigger] a[i]) {
            Some(x) => both(x),
            None => true,
        }) by {
            if id_of(a[i]).is_some() {
                assert(low(id_of(a[i])->0));
            }
        }
    }
    assert(ids_in(b, both)) by {
        assert forall|i: int| 0 <= i < b.len() implies (match id_of(#[trigger] b[i]) {
            Some(x) => both(x),
            None => true,
        }) by {
            if id_of(b[i]).is_some() {
                assert(here(id_of(b[i])->0));
            }
        }
    }
    lemma_ids_in_sum(a, b, both);
}

/// Rows that are no entries change nothing.
proof fn lemma_once_around(a: Seq<RowView>, mid: Seq<RowView>, b: Seq<RowView>)
    requires
        each_once(mid),
        forall|i: int| 0 <= i < a.len() ==> id_of(#[trigger] a[i]).is_none(),
        forall|i: int| 0 <= i < b.len() ==> id_of(#[trigger] b[i]).is_none(),
    ensures
        each_once(a + mid + b),
        forall|p: spec_fn(int) -> bool| ids_in(mid, p) ==> #[trigger] ids_in(a + mid + b, p),
{
    let r = a + mid + b;
    let (m, n) = (a.len() as int, (a.len() + mid.len()) as int);
    assert forall|i: int| 0 <= i < r.len() implies (#[trigger] r[i]) == (if i < m {
        a[i]
    } else if i < n {
        mid[i - m]
    } else {
        b[i - n]
    }) by {}
    assert forall|p: spec_fn(int) -> bool| ids_in(mid, p) implies #[trigger] ids_in(r, p) by {
        assert forall|i: int| 0 <= i < r.len() implies (match id_of(#[trigger] r[i]) {
            Some(x) => p(x),
            None => true,
        }) by {}
    }
    assert forall|i: int, j: int|
        0 <= i < j < r.len() && id_of(#[trigger] r[i]).is_some() implies id_of(r[i]) != id_of(
        #[trigger] r[j],
    ) by {}
}

proof fn lemma_palette_once(tr: Translator, base: int, current: Seq<char>, n: int)
    ensures
        each_once(menu::palette_rows(tr, base, current, n)),
        ids_in(menu::palette_rows(tr, base, current, n), |x: int| base <= x < base + n),
    decreases n,
{
    if n > 0 {
        lemma_palette_once(tr, base, current, n - 1);
        let o = menu::palette_rows(tr, base, current, n - 1);
        let r = menu::palette_rows(tr, base, current, n);
        let p = |x: int| base <= x < base + n - 1;
        let q = |x: int| base <= x < base + n;
        assert forall|i: int| 0 <= i < r.len() implies (match id_of(#[trigger] r[i]) {
            Some(x) => q(x),
            None => true,
        }) by {
            if i < o.len() {
                assert(r[i] == o[i]);
                if id_of(o[i]).is_some() {
                    assert(p(id_of(o[i])->0));
                }
            }
        }
        assert forall|i: int, j: int|
            0 <= i < j < r.len() && id_of(#[trigger] r[i]).is_some() implies id_of(r[i]) != id_of(
            #[trigger] r[j],
        ) by {
            assert(r[i] == o[i]);
            assert(p(id_of(o[i])->0));
            if j < o.len() {
                assert(r[j] == o[j]);
            }
        }
    }
}

proof fn lemma_locale_once(current: Seq<char>, n: int)
    ensures
        each_once(menu::locale_rows(current, n)),
        ids_in(
            menu::locale_rows(current, n),
            |x: int| MENU_LANG_BASE < x <= MENU_LANG_BASE + n,
        ),
    decreases n,
{
    if n > 0 {
        lemma_locale_once(current, n - 1);
        let o = menu::locale_rows(current, n - 1);
        let r = menu::locale_rows(current, n);
        let p = |x: int| MENU_LANG_BASE < x <= MENU_LANG_BASE + n - 1;
        let q = |x: int| MENU_LANG_BASE < x <= MENU_LANG_BASE + n;
        assert forall|i: int| 0 <= i < r.len() implies (match id_of(#[trigger] r[i]) {
            Some(x) => q(x),
            None => true,
        }) by {
            if i < o.len() {
                assert(r[i] == o[i]);
                if id_of(o[i]).is_some() {
                    assert(p(id_of(o[i])->0));
                }
            }
        }
        assert forall|i: int, j: int|
            0 <= i < j < r.len() && id_of(#[trigger] r[i]).is_some() implies id_of(r[i]) != id_of(
            #[trigger] r[j],
        ) by {
            assert(r[i] == o[i]);
            assert(p(id_of(o[i])->0));
            if j < o.len() {
                assert(r[j] == o[j]);
            }
        }
    }
}

/// The commands of the first `n` widgets that are of a module.
spec fn widget_ids(k: Kind, n: int) -> spec_fn(int) -> bool {
    |x: int|
        MENU_WIDGET_BASE <= x < MENU_WIDGET_BASE + n && widgets::catalog_list()[x
            - MENU_WIDGET_BASE].0 == k
}

proof fn lemma_widgets_once(list: Seq<Seq<char>>, tr: Translator, k: Kind, n: int)
    requires
        n <= 13,
    ensures
        each_once(menu::widget_rows(list, tr, k, n)),
        ids_in(menu::widget_rows(list, tr, k, n), widget_ids(k, n)),
    decreases n,
{
    if n > 0 {
        lemma_widgets_once(list, tr, k, n - 1);
        let o = menu::widget_rows(list, tr, k, n - 1);
        let r = menu::widget_rows(list, tr, k, n);
        let p = widget_ids(k, n - 1);
        let q = widget_ids(k, n);
        assert forall|i: int| 0 <= i < r.len() implies (match id_of(#[trigger] r[i]) {
            Some(x) => q(x),
            None => true,
        }) by {
            if i < o.len() {
                assert(r[i] == o[i]);
                if id_of(o[i]).is_some() {
                    assert(p(id_of(o[i])->0));
                }
            }
        }
        assert forall|i: int, j: int|
            0 <= i < j < r.len() && id_of(#[trigger] r[i]).is_some() implies id_of(r[i]) != id_of(
            #[trigger] r[j],
        ) by {
            assert(r[i] == o[i]);
            assert(p(id_of(o[i])->0));
            if j < o.len() {
                assert(r[j] == o[j]);
            }
        }
    }
}

/// The part of a module's submenu that a command stands in.
spec fn part_of() -> spec_fn(int) -> int {
    |x: int|
        if 100 <= x < 200 {
            0
        } else if 300 <= x < 450 {
            1
        } else if 203 <= x < 205 {
            2
        } else {
            3
        }
}

/// The module that a command belongs to.
spec fn owner_of() -> spec_fn(int) -> int {
    |x: int|
        if 100 <= x < 113 {
            widgets::module_rank(widgets::catalog_list()[x - 100].0)
        } else if 203 <= x < 205 {
            0
        } else if 300 <= x < 420 {
            (x - 300) / 20
        } else {
            (x - 520) / 2
        }
}

/// The commands of modules.
spec fn of_modules() -> spec_fn(int) -> bool {
    |x: int| 100 <= x < 200 || 203 <= x < 205 || 300 <= x < 450 || 520 <= x < 600
}

/// The commands of one module.
spec fn of_module(k: Kind) -> spec_fn(int) -> bool {
    |x: int| (of_modules())(x) && (owner_of())(x) == widgets::module_rank(k)
}

/// What holds of every command of `p` holds of those of `rows`.
proof fn lemma_ids_weaken(rows: Seq<RowView>, p: spec_fn(int) -> bool, q: spec_fn(int) -> bool)
    requires
        ids_in(rows, p),
        forall|x: int| #[trigger] p(x) ==> q(x),
    ensures
        ids_in(rows, q),
{
    assert forall|i: int| 0 <= i < rows.len() implies (match id_of(#[trigger] rows[i]) {
        Some(x) => q(x),
        None => true,
    }) by {
        if id_of(rows[i]).is_some() {
            assert(p(id_of(rows[i])->0));
        }
    }
}

proof fn lemma_colors_once(cfg: Config, tr: Translator, k: Kind)
    requires
        k != Kind::Battery,
    ensures
        each_once(menu::module_colors(cfg, tr, k)),
        ids_in(
            menu::module_colors(cfg, tr, k),
            |x: int|
                300 + widgets::module_rank(k) * 20 <= x < 316 + widgets::module_rank(k) * 20,
        ),
{
    let base = MENU_COLOR_BASE + widgets::module_rank(k) * MENU_COLOR_STRIDE;
    let cur = menu::color_setting(cfg, k);
    let p = menu::palette_rows(tr, base + 3, cur, 13);
    lemma_palette_once(tr, base + 3, cur, 13);
    let items = seq![
        menu::item(base, i18n::text_of(tr, "menu.accent"@), cur == "accent"@),
        menu::item(base + 1, i18n::text_of(tr, "menu.by_utilisation"@), cur == "utilization"@),
        menu::item(base + 2, i18n::text_of(tr, "menu.monochrome"@), cur == "mono"@),
    ];
    let f = |x: int|
        if base <= x < base + 3 {
            0int
        } else {
            1
        };
    let low = |x: int| f(x) < 1;
    let high = |x: int| f(x) == 1;
    assert(ids_in(items + seq![RowView::Separator], low));
    assert(each_once(items + seq![RowView::Separator]));
    lemma_ids_weaken(p, |x: int| base + 3 <= x < base + 3 + 13, high);
    let a = items + seq![RowView::Separator];
    lemma_once_sum(a, p, f, 1);
    let range = |x: int| base <= x < base + 16;
    lemma_ids_weaken(p, |x: int| base + 3 <= x < base + 3 + 13, range);
    assert(ids_in(a, range));
    lemma_ids_in_sum(a, p, range);
    let open = seq![RowView::Separator, menu::opened(i18n::text_of(tr, "menu.colour"@))];
    lemma_once_around(open, a + p, seq![RowView::Close]);
    assert(menu::module_colors(cfg, tr, k) =~= open + (a + p) + seq![RowView::Close]);
    lemma_ids_weaken(
        menu::module_colors(cfg, tr, k),
        range,
        |x: int| 300 + widgets::module_rank(k) * 20 <= x < 316 + widgets::module_rank(k) * 20,
    );
}

proof fn lemma_module_once(cfg: Config, tr: Translator, sh: Shown, k: Kind)
    ensures
        each_once(menu::module_rows(cfg, tr, sh, k)),
        ids_in(menu::module_rows(cfg, tr, sh, k), of_module(k)),
{
    let list = text::views(cfg.widgets@);
    let f = part_of();
    let own = of_module(k);
    let mi = widgets::module_rank(k);
    lemma_widgets_once(list, tr, k, 13);
    let title = seq![
        RowView::Open {
            text: menu::module_title(list, tr, sh, k),
            enabled: menu::module_available(sh, k),
        },
    ];
    let w = menu::widget_rows(list, tr, k, 13);
    lemma_once_around(title, w, Seq::empty());
    let a = menu::module_head(cfg, tr, sh, k);
    assert(a =~= title + w + Seq::<RowView>::empty());
    lemma_ids_weaken(a, widget_ids(k, 13), |x: int| f(x) < 1);
    lemma_ids_weaken(a, widget_ids(k, 13), own);
    let b = menu::module_colors(cfg, tr, k);
    if k != Kind::Battery {
        let range = |x: int| 300 + widgets::module_rank(k) * 20 <= x < 316 + widgets::module_rank(k) * 20;
        lemma_colors_once(cfg, tr, k);
        lemma_ids_weaken(b, range, |x: int| f(x) == 1);
        assert forall|x: int| #[trigger] range(x) implies own(x) by {
            assert((x - 300) / 20 == mi);
        }
        lemma_ids_weaken(b, range, own);
    }
    assert(each_once(b) && ids_in(b, |x: int| f(x) == 1) && ids_in(b, own));
    lemma_once_sum(a, b, f, 1);
    lemma_ids_in_sum(a, b, own);
    let c = menu::module_cores(cfg, tr, sh, k);
    assert(each_once(c) && ids_in(c, |x: int| f(x) == 2) && ids_in(c, own));
    lemma_once_sum(a + b, c, f, 2);
    lemma_ids_in_sum(a + b, c, own);
    let d = menu::module_moves(tr, k);
    assert(each_once(d) && ids_in(d, |x: int| f(x) == 3) && ids_in(d, own));
    lemma_once_sum(a + b + c, d, f, 3);
    lemma_ids_in_sum(a + b + c, d, own);
}

proof fn lemma_modules_once(cfg: Config, tr: Translator, sh: Shown, n: int)
    requires
        0 <= n <= 6,
    ensures
        each_once(menu::modules_rows(cfg, tr, sh, n)),
        ids_in(menu::modules_rows(cfg, tr, sh, n), |x: int| (owner_of())(x) < n),
        ids_in(menu::modules_rows(cfg, tr, sh, n), of_modules()),
    decreases n,
{
    if n > 0 {
        let k = widgets::module_list()[n - 1];
        let o = menu::modules_rows(cfg, tr, sh, n - 1);
        let r = menu::module_rows(cfg, tr, sh, k);
        let f = owner_of();
        lemma_modules_once(cfg, tr, sh, n - 1);
        lemma_module_once(cfg, tr, sh, k);
        assert(widgets::module_rank(k) == n - 1);
        lemma_ids_weaken(r, of_module(k), |x: int| f(x) == n - 1);
        lemma_ids_weaken(r, of_module(k), of_modules());
        lemma_ids_weaken(o, |x: int| (owner_of())(x) < n - 1, |x: int| f(x) < n - 1);
        lemma_once_sum(o, r, f, n - 1);
        lemma_ids_in_sum(o, r, of_modules());
        lemma_ids_weaken(o + r, |x: int| f(x) < n - 1 + 1, |x: int| (owner_of())(x) < n);
    }
}

/// The part of the menu that a command stands in.
spec fn block_of() -> spec_fn(int) -> int {
    |x: int|
        if (of_modules())(x) {
            0
        } else if x == 200 || 450 <= x < 470 {
            1
        } else if 470 <= x < 500 {
            2
        } else if 210 <= x < 240 {
            3
        } else if 600 <= x {
            4
        } else {
            5
        }
}

/// No two entries of the menu have the same command.
pub proof fn law_menu_entries_are_distinct(cfg: Config, tr: Translator, sh: Shown)
    ensures
        each_once(menu::menu_rows(cfg, tr, sh)),
{
    let f = block_of();
    let a = menu::modules_rows(cfg, tr, sh, 6);
    lemma_modules_once(cfg, tr, sh, 6);
    lemma_ids_weaken(a, of_modules(), |x: int| f(x) < 1);
    let b = menu::accent_rows(cfg, tr);
    let p = menu::palette_rows(tr, MENU_ACCENT_BASE as int, cfg.accent@, 13);
    lemma_palette_once(tr, MENU_ACCENT_BASE as int, cfg.accent@, 13);
    let range = |x: int| MENU_ACCENT_BASE <= x < MENU_ACCENT_BASE + 13;
    lemma_once_around(
        seq![menu::opened(i18n::text_of(tr, "menu.accent_colour"@))],
        p,
        seq![RowView::Close],
    );
    let q = seq![menu::opened(i18n::text_of(tr, "menu.accent_colour"@))] + p + seq![RowView::Close];
    let head = seq![
        RowView::Separator,
        menu::item(MENU_LABELS as int, i18n::text_of(tr, "menu.labels"@), cfg.labels),
    ];
    let g = |x: int|
        if x == 200 {
            0int
        } else {
            1
        };
    lemma_ids_weaken(q, range, |x: int| g(x) == 1);
    lemma_ids_weaken(q, range, |x: int| f(x) == 1);
    assert(each_once(head) && ids_in(head, |x: int| g(x) < 1) && ids_in(head, |x: int| f(x) == 1));
    lemma_once_sum(head, q, g, 1);
    lemma_ids_in_sum(head, q, |x: int| f(x) == 1);
    assert(b =~= head + q);
    lemma_once_sum(a, b, f, 1);
    let c = menu::size_rows(cfg, tr);
    assert(each_once(c) && ids_in(c, |x: int| f(x) == 2));
    lemma_once_sum(a + b, c, f, 2);
    let d = menu::place_rows(cfg, tr);
    assert(each_once(d) && ids_in(d, |x: int| f(x) == 3));
    lemma_once_sum(a + b + c, d, f, 3);
    let e = menu::language_rows(cfg, tr);
    lemma_locale_once(cfg.language@, 29);
    let l = menu::locale_rows(cfg.language@, 29);
    let names = |x: int| MENU_LANG_BASE < x <= MENU_LANG_BASE + 29;
    let auto = seq![
        menu::item(
            MENU_LANG_BASE as int,
            i18n::text_of(tr, "menu.lang_system"@),
            cfg.language@ == "auto"@,
        ),
        RowView::Separator,
    ];
    let h = |x: int|
        if x == MENU_LANG_BASE {
            0int
        } else {
            1
        };
    lemma_ids_weaken(l, names, |x: int| h(x) == 1);
    lemma_ids_weaken(l, names, |x: int| f(x) == 4);
    assert(each_once(auto) && ids_in(auto, |x: int| h(x) < 1) && ids_in(auto, |x: int| f(x) == 4));
    lemma_once_sum(auto, l, h, 1);
    lemma_ids_in_sum(auto, l, |x: int| f(x) == 4);
    let open = seq![menu::opened(i18n::text_of(tr, "menu.language"@))];
    lemma_once_around(open, auto + l, seq![RowView::Close]);
    assert(e =~= open + (auto + l) + seq![RowView::Close]);
    lemma_once_sum(a + b + c + d, e, f, 4);
    let z = menu::action_rows(tr, sh);
    assert(each_once(z) && ids_in(z, |x: int| f(x) == 5));
    lemma_once_sum(a + b + c + d + e, z, f, 5);
}

/// An entry with that command is checked.
pub open spec fn shows_checked(rows: Seq<RowView>, cmd: int) -> bool {
    exists|i: int|
        0 <= i < rows.len() && (match #[trigger] rows[i] {
            RowView::Item { id, text, checked } => id == cmd && checked,
            _ => false,
        })
}

proof fn lemma_checked_sum(a: Seq<RowView>, b: Seq<RowView>, cmd: int)
    ensures
        shows_checked(a, cmd) || shows_checked(b, cmd) ==> shows_checked(a + b, cmd),
{
    if shows_checked(a, cmd) {
        let i = choose|i: int|
            0 <= i < a.len() && (match #[trigger] a[i] {
                RowView::Item { id, text, checked } => id == cmd && checked,
                _ => false,
            });
        assert((a + b)[i] == a[i]);
    } else if shows_checked(b, cmd) {
        let i = choose|i: int|
            0 <= i < b.len() && (match #[trigger] b[i] {
                RowView::Item { id, text, checked } => id == cmd && checked,
                _ => false,
            });
        assert((a + b)[a.len() + i] == b[i]);
    }
}

proof fn lemma_palette_checked(tr: Translator, base: int, current: Seq<char>, n: int, i: int)
    requires
        0 <= i < n <= 13,
        current == theme::palette_list()[i].0,
    ensures
        shows_checked(menu::palette_rows(tr, base, current, n), base + i),
    decreases n,
{
    let r = menu::palette_rows(tr, base, current, n);
    let s = menu::palette_rows(tr, base, current, n - 1);
    if i == n - 1 {
        assert(r[s.len() as int] == menu::item(
            base + i,
            i18n::text_of(tr, theme::palette_list()[i].1),
            true,
        ));
    } else {
        lemma_palette_checked(tr, base, current, n - 1, i);
        lemma_checked_sum(s, seq![r.last()], base + i);
        assert(s + seq![r.last()] =~= r);
    }
}

proof fn lemma_locale_checked(current: Seq<char>, n: int, i: int)
    requires
        0 <= i < n <= 29,
        current == i18n::locale_list()[i].0@,
    ensures
        shows_checked(menu::locale_rows(current, n), MENU_LANG_BASE + 1 + i),
    decreases n,
{
    let r = menu::locale_rows(current, n);
    let s = menu::locale_rows(current, n - 1);
    if i == n - 1 {
        assert(r[s.len() as int] == menu::item(
            MENU_LANG_BASE + 1 + i,
            i18n::locale_list()[i].1@,
            true,
        ));
    } else {
        lemma_locale_checked(current, n - 1, i);
        lemma_checked_sum(s, seq![r.last()], MENU_LANG_BASE + 1 + i);
        assert(s + seq![r.last()] =~= r);
    }
}

/// The command chooses one of several values.
pub open spec fn is_choice(cmd: int) -> bool {
    is_language(cmd) || is_top(cmd) || is_chart(cmd) || is_font(cmd) || is_accent(cmd)
        || is_position(cmd) || is_theme(cmd) || is_interval(cmd)
}

proof fn lemma_sizes_checked(b: Config, tr: Translator, cmd: int)
    requires
        is_top(cmd) ==> b.top_processes == menu::top_counts()[cmd - MENU_TOP_BASE],
        is_chart(cmd) ==> b.chart_width == menu::chart_widths()[cmd - MENU_CHART_BASE].0,
        is_font(cmd) ==> b.font_scale.bits == menu::font_sizes()[cmd - MENU_FONT_BASE].0,
        is_top(cmd) || is_chart(cmd) || is_font(cmd),
    ensures
        shows_checked(menu::size_rows(b, tr), cmd),
{
    let r = menu::size_rows(b, tr);
    if is_top(cmd) {
        assert(r[13 + cmd - MENU_TOP_BASE] == menu::top_row(b, cmd - MENU_TOP_BASE));
    } else if is_chart(cmd) {
        assert(r[7 + cmd - MENU_CHART_BASE] == menu::chart_row(b, tr, cmd - MENU_CHART_BASE));
    } else {
        assert(r[1 + cmd - MENU_FONT_BASE] == menu::font_row(b, tr, cmd - MENU_FONT_BASE));
    }
}

proof fn lemma_place_checked(b: Config, tr: Translator, cmd: int)
    requires
        is_position(cmd) ==> b.position@ == position_after(b.position@, cmd),
        is_theme(cmd) ==> b.theme@ == theme_after(b.theme@, cmd),
        is_interval(cmd) ==> b.update_ms == menu::intervals()[cmd - MENU_INTERVAL_BASE].0,
        is_position(cmd) || is_theme(cmd) || is_interval(cmd),
    ensures
        shows_checked(menu::place_rows(b, tr), cmd),
{
    let r = menu::place_rows(b, tr);
    reveal_strlit("left");
    reveal_strlit("right");
    if is_position(cmd) {
        assert("left"@.len() != "right"@.len());
        let at = 1 + cmd - MENU_POS_RIGHT;
        assert(r[at] matches RowView::Item { id, text, checked } && id == cmd && checked);
    } else if is_interval(cmd) {
        assert(r[5 + cmd - MENU_INTERVAL_BASE] == menu::interval_row(
            b,
            cmd - MENU_INTERVAL_BASE,
        ));
    } else {
        let at = 11 + cmd - MENU_THEME_AUTO;
        assert(r[at] matches RowView::Item { id, text, checked } && id == cmd && checked);
    }
}

/// After a choice in the menu, the menu shows that choice checked.
pub proof fn law_choice_is_shown(a: Config, b: Config, tr: Translator, sh: Shown, cmd: int)
    requires
        is_choice(cmd),
        applied(a, b, cmd),
    ensures
        shows_checked(menu::menu_rows(b, tr, sh), cmd),
{
    let m = menu::modules_rows(b, tr, sh, 6);
    let c = menu::accent_rows(b, tr);
    let d = menu::size_rows(b, tr);
    let e = menu::place_rows(b, tr);
    let f = menu::language_rows(b, tr);
    let g = menu::action_rows(tr, sh);
    if is_accent(cmd) {
        let i = cmd - MENU_ACCENT_BASE;
        lemma_palette_checked(tr, MENU_ACCENT_BASE as int, b.accent@, 13, i);
        let head = seq![
            RowView::Separator,
            menu::item(MENU_LABELS as int, i18n::text_of(tr, "menu.labels"@), b.labels),
            menu::opened(i18n::text_of(tr, "menu.accent_colour"@)),
        ];
        let p = menu::palette_rows(tr, MENU_ACCENT_BASE as int, b.accent@, 13);
        lemma_checked_sum(head, p, cmd);
        lemma_checked_sum(head + p, seq![RowView::Close], cmd);
    } else if is_language(cmd) {
        let head = seq![
            menu::opened(i18n::text_of(tr, "menu.language"@)),
            menu::item(
                MENU_LANG_BASE as int,
                i18n::text_of(tr, "menu.lang_system"@),
                b.language@ == "auto"@,
            ),
            RowView::Separator,
        ];
        let l = menu::locale_rows(b.language@, 29);
        if cmd == MENU_LANG_BASE {
            assert(head[1] matches RowView::Item { id, text, checked } && id == cmd && checked);
        } else {
            lemma_locale_checked(b.language@, 29, cmd - MENU_LANG_BASE - 1);
        }
        lemma_checked_sum(head, l, cmd);
        lemma_checked_sum(head + l, seq![RowView::Close], cmd);
    } else if is_top(cmd) || is_chart(cmd) || is_font(cmd) {
        lemma_sizes_checked(b, tr, cmd);
    } else {
        lemma_place_checked(b, tr, cmd);
    }
    lemma_checked_sum(m, c, cmd);
    lemma_checked_sum(m + c, d, cmd);
    lemma_checked_sum(m + c + d, e, cmd);
    lemma_checked_sum(m + c + d + e, f, cmd);
    lemma_checked_sum(m + c + d + e + f, g, cmd);
}

// ---------------------------------------------------------------------------
// Clicks in a popup

/// Adds an item that is absent, and removes one that is present.
pub open spec fn flipped(list: Seq<Seq<char>>, item: Seq<char>) -> Seq<Seq<char>> {
    if list.contains(item) {
        list.remove(widgets::place_from(list, item, 0))
    } else {
        list.push(item)
    }
}

/// Adds `item` to the list when absent, removes it when present.
pub fn toggle(list: &mut Vec<String>, item: String)
    ensures
        text::views(final(list)@) == flipped(text::views(old(list)@), item@),
{
    let ghost v = text::views(list@);
    let mut i: usize = 0;
    while i < list.len()
        invariant
            v == text::views(list@),
            list@ == old(list)@,
            i <= list.len(),
            widgets::place_from(v, item@, 0) == widgets::place_from(v, item@, i as int),
            forall|j: int| 0 <= j < i ==> #[trigger] v[j] != item@,
        decreases list.len() - i,
    {
        assert(v[i as int] == list@[i as int]@);
        if text::same(list[i].as_str(), item.as_str()) {
            assert(v.contains(item@));
            list.remove(i);
            assert(text::views(list@) =~= v.remove(i as int));
            return;
        }
        i += 1;
    }
    assert(!v.contains(item@));
    list.push(item);
    assert(text::views(list@) =~= v.push(item@));
}

/// An item with its switch.
pub open spec fn count_on(rows: Seq<(bool, Seq<char>)>, n: int) -> int
    decreases n,
{
    if n <= 0 {
        0
    } else {
        count_on(rows, n - 1) + (if rows[n - 1].0 {
            1int
        } else {
            0
        })
    }
}

/// The item is on, and it is the only one.
pub open spec fn is_last_on(rows: Seq<(bool, Seq<char>)>, name: Seq<char>) -> bool {
    &&& count_on(rows, rows.len() as int) <= 1
    &&& rows.contains((true, name))
}

pub open spec fn iface_rows(v: Seq<NetIface>) -> Seq<(bool, Seq<char>)> {
    v.map_values(|i: NetIface| (i.enabled, i.alias@))
}

pub open spec fn disk_rows(v: Seq<PhysicalDisk>) -> Seq<(bool, Seq<char>)> {
    v.map_values(|d: PhysicalDisk| (d.enabled, d.model@))
}

fn last_iface(v: &Vec<NetIface>, name: &str) -> (r: bool)
    ensures
        r == is_last_on(iface_rows(v@), name@),
{
    let ghost rows = iface_rows(v@);
    let mut on: usize = 0;
    let mut hit: bool = false;
    let mut i: usize = 0;
    while i < v.len()
        invariant
            rows == iface_rows(v@),
            i <= v.len(),
            on <= i,
            on == count_on(rows, i as int),
            hit == exists|j: int| 0 <= j < i && #[trigger] rows[j] == (true, name@),
        decreases v.len() - i,
    {
        assert(rows[i as int] == (v@[i as int].enabled, v@[i as int].alias@));
        if v[i].enabled {
            on += 1;
            if text::same(v[i].alias.as_str(), name) {
                hit = true;
            }
        }
        i += 1;
    }
    on <= 1 && hit
}

fn last_disk(v: &Vec<PhysicalDisk>, name: &str) -> (r: bool)
    ensures
        r == is_last_on(disk_rows(v@), name@),
{
    let ghost rows = disk_rows(v@);
    let mut on: usize = 0;
    let mut hit: bool = false;
    let mut i: usize = 0;
    while i < v.len()
        invariant
            rows == disk_rows(v@),
            i <= v.len(),
            on <= i,
            on == count_on(rows, i as int),
            hit == exists|j: int| 0 <= j < i && #[trigger] rows[j] == (true, name@),
        decreases v.len() - i,
    {
        assert(rows[i as int] == (v@[i as int].enabled, v@[i as int].model@));
        if v[i].enabled {
            on += 1;
            if text::same(v[i].model.as_str(), name) {
                hit = true;
            }
        }
        i += 1;
    }
    on <= 1 && hit
}

/// Configuration `b` is what configuration `a` becomes by a click in a popup;
/// `r` says whether it changed.
pub open spec fn is_acted(a: Config, m: MetricsData, action: Action, r: bool, b: Config) -> bool {
    &&& b == (Config {
        net_disabled: b.net_disabled,
        disks_disabled: b.disks_disabled,
        ..a
    })
    &&& match action {
        Action::ToggleNet(alias) => {
            &&& r == !is_last_on(iface_rows(m.net_ifaces@), alias@)
            &&& b.disks_disabled == a.disks_disabled
            &&& text::views(b.net_disabled@) == (if r {
                flipped(text::views(a.net_disabled@), alias@)
            } else {
                text::views(a.net_disabled@)
            })
        },
        Action::ToggleDisk(model) => {
            &&& r == !is_last_on(disk_rows(m.disks@), model@)
            &&& b.net_disabled == a.net_disabled
            &&& text::views(b.disks_disabled@) == (if r {
                flipped(text::views(a.disks_disabled@), model@)
            } else {
                text::views(a.disks_disabled@)
            })
        },
    }
}

/// A click on a toggling row of a popup flips the item in the configuration;
/// whether it did. At least one interface and one disk stay on, or the widget
/// would show nothing.
pub fn popup_action(cfg: &mut Config, m: &MetricsData, action: Action) -> (r: bool)
    ensures
        is_acted(*old(cfg), *m, action, r, *final(cfg)),
{
    match action {
        Action::ToggleNet(alias) => {
            if last_iface(&m.net_ifaces, alias.as_str()) {
                return false;
            }
            toggle(&mut cfg.net_disabled, alias);
        },
        Action::ToggleDisk(model) => {
            if last_disk(&m.disks, model.as_str()) {
                return false;
            }
            toggle(&mut cfg.disks_disabled, model);
        },
    }
    true
}

/// Flipping an item that is absent and flipping it again gives the list back.
pub proof fn law_flip_back(list: Seq<Seq<char>>, item: Seq<char>)
    requires
        !list.contains(item),
    ensures
        flipped(flipped(list, item), item) == list,
{
    let l2 = list.push(item);
    assert(l2[list.len() as int] == item);
    lemma_first_place(l2, item, 0);
    assert(l2.remove(list.len() as int) =~= list);
}

proof fn lemma_first_place(l2: Seq<Seq<char>>, item: Seq<char>, from: int)
    requires
        0 <= from < l2.len(),
        l2.last() == item,
        !l2.drop_last().contains(item),
    ensures
        widgets::place_from(l2, item, from) == l2.len() - 1,
    decreases l2.len() - from,
{
    if from < l2.len() - 1 {
        assert(l2.drop_last()[from] == l2[from]);
        lemma_first_place(l2, item, from + 1);
    }
}

proof fn lemma_place(list: Seq<Seq<char>>, item: Seq<char>, from: int)
    requires
        0 <= from <= list.len(),
    ensures
        from <= widgets::place_from(list, item, from) <= list.len(),
        widgets::place_from(list, item, from) < list.len()
            ==> list[widgets::place_from(list, item, from)] == item,
        forall|j: int|
            from <= j < widgets::place_from(list, item, from) ==> #[trigger] list[j] != item,
    decreases list.len() - from,
{
    if from < list.len() && list[from] != item {
        lemma_place(list, item, from + 1);
    }
}

/// Flipping an item of a list that holds nothing twice puts it in or takes it
/// out, and leaves every other item.
pub proof fn law_flip_is_of_one_item(list: Seq<Seq<char>>, item: Seq<char>, other: Seq<char>)
    requires
        list.no_duplicates(),
    ensures
        flipped(list, item).contains(item) == !list.contains(item),
        other != item ==> flipped(list, item).contains(other) == list.contains(other),
        flipped(list, item).no_duplicates(),
{
    let r = flipped(list, item);
    if list.contains(item) {
        lemma_place(list, item, 0);
        let w = choose|w: int| 0 <= w < list.len() && list[w] == item;
        let p = widgets::place_from(list, item, 0);
        if p == list.len() {
            assert(list[w] != item);
        }
        if r.contains(item) {
            let k = choose|k: int| 0 <= k < r.len() && r[k] == item;
            if k < p {
                assert(list[k] == item);
            } else {
                assert(list[k + 1] == item);
            }
        }
        if list.contains(other) && other != item {
            let k = choose|k: int| 0 <= k < list.len() && list[k] == other;
            if k < p {
                assert(r[k] == other);
            } else {
                assert(r[k - 1] == other);
            }
        }
        if r.contains(other) {
            let k = choose|k: int| 0 <= k < r.len() && r[k] == other;
            if k < p {
                assert(list[k] == other);
            } else {
                assert(list[k + 1] == other);
            }
        }
    } else {
        assert(r[list.len() as int] == item);
        if list.contains(other) {
            let k = choose|k: int| 0 <= k < list.len() && list[k] == other;
            assert(r[k] == other);
        }
        if r.contains(other) && other != item {
            let k = choose|k: int| 0 <= k < r.len() && r[k] == other;
            assert(list[k] == other);
        }
    }
}

/// A click on an interface switches that interface and nothing else, and one on a
/// disk that disk; the click is refused only where it would switch off the last
/// that is on.
pub proof fn law_click_switches_what_it_is_on(
    a: Config,
    m: MetricsData,
    action: Action,
    r: bool,
    b: Config,
    other: Seq<char>,
)
    requires
        is_acted(a, m, action, r, b),
        text::views(a.net_disabled@).no_duplicates(),
        text::views(a.disks_disabled@).no_duplicates(),
    ensures
        action matches Action::ToggleNet(name) ==> {
            let (x, y) = (text::views(a.net_disabled@), text::views(b.net_disabled@));
            &&& r ==> y.contains(name@) == !x.contains(name@)
            &&& !r ==> y == x
            &&& other != name@ ==> y.contains(other) == x.contains(other)
            &&& b.disks_disabled == a.disks_disabled
        },
        action matches Action::ToggleDisk(name) ==> {
            let (x, y) = (text::views(a.disks_disabled@), text::views(b.disks_disabled@));
            &&& r ==> y.contains(name@) == !x.contains(name@)
            &&& !r ==> y == x
            &&& other != name@ ==> y.contains(other) == x.contains(other)
            &&& b.net_disabled == a.net_disabled
        },
        b.widgets == a.widgets && b.remotes == a.remotes && b.position == a.position,
{
    match action {
        Action::ToggleNet(name) => {
            law_flip_is_of_one_item(text::views(a.net_disabled@), name@, other);
        },
        Action::ToggleDisk(name) => {
            law_flip_is_of_one_item(text::views(a.disks_disabled@), name@, other);
        },
    }
}

proof fn lemma_count_on(rows: Seq<(bool, Seq<char>)>, n: int, i: int, j: int)
    requires
        0 <= n <= rows.len(),
    ensures
        count_on(rows, n) >= 0,
        0 <= i < n && rows[i].0 ==> count_on(rows, n) >= 1,
        0 <= i < j < n && rows[i].0 && rows[j].0 ==> count_on(rows, n) >= 2,
    decreases n,
{
    if n > 0 {
        lemma_count_on(rows, n - 1, i, j);
        if 0 <= j < n - 1 {
            lemma_count_on(rows, n - 1, i, j);
        } else {
            lemma_count_on(rows, n - 1, i, i);
        }
    }
}

/// While two interfaces are on, each of them can be switched.
pub proof fn law_one_of_two_can_be_switched(
    a: Config,
    m: MetricsData,
    name: String,
    r: bool,
    b: Config,
    i: int,
    j: int,
)
    requires
        is_acted(a, m, Action::ToggleNet(name), r, b),
        0 <= i < j < m.net_ifaces@.len(),
        m.net_ifaces@[i].enabled,
        m.net_ifaces@[j].enabled,
    ensures
        r,
{
    let rows = iface_rows(m.net_ifaces@);
    assert(rows[i].0 && rows[j].0);
    lemma_count_on(rows, rows.len() as int, i, j);
}

proof fn lemma_same_entry(rows: Seq<RowView>, a: RowView, b: RowView)
    requires
        each_once(rows),
        rows.contains(a),
        rows.contains(b),
        id_of(a).is_some(),
        id_of(a) == id_of(b),
    ensures
        a == b,
{
    let i = choose|i: int| 0 <= i < rows.len() && rows[i] == a;
    let j = choose|j: int| 0 <= j < rows.len() && rows[j] == b;
    if i < j {
        assert(id_of(rows[i]) != id_of(rows[j]));
    } else if j < i {
        assert(id_of(rows[j]) != id_of(rows[i]));
    }
}

proof fn lemma_contains_sum(a: Seq<RowView>, b: Seq<RowView>, x: RowView)
    ensures
        a.contains(x) || b.contains(x) ==> (a + b).contains(x),
{
    if a.contains(x) {
        let i = choose|i: int| 0 <= i < a.len() && a[i] == x;
        assert((a + b)[i] == x);
    } else if b.contains(x) {
        let i = choose|i: int| 0 <= i < b.len() && b[i] == x;
        assert((a + b)[a.len() + i] == x);
    }
}

proof fn lemma_in_menu(a: Config, tr: Translator, sh: Shown, x: RowView)
    requires
        menu::accent_rows(a, tr).contains(x) || menu::size_rows(a, tr).contains(x)
            || menu::place_rows(a, tr).contains(x) || menu::language_rows(a, tr).contains(x)
            || menu::action_rows(tr, sh).contains(x),
    ensures
        menu::menu_rows(a, tr, sh).contains(x),
{
    let m = menu::modules_rows(a, tr, sh, 6);
    let c = menu::accent_rows(a, tr);
    let d = menu::size_rows(a, tr);
    let e = menu::place_rows(a, tr);
    let f = menu::language_rows(a, tr);
    let g = menu::action_rows(tr, sh);
    lemma_contains_sum(m, c, x);
    lemma_contains_sum(m + c, d, x);
    lemma_contains_sum(m + c + d, e, x);
    lemma_contains_sum(m + c + d + e, f, x);
    lemma_contains_sum(m + c + d + e + f, g, x);
}

/// An entry that sets a size or a number does what its title says: the rows of
/// the process lists by their number, the widths of the charts by their names,
/// the refresh interval by its seconds; and an entry is checked exactly where the
/// setting is already so.
pub proof fn law_size_entries_do_what_they_say(
    a: Config,
    b: Config,
    tr: Translator,
    sh: Shown,
    cmd: int,
    title: Seq<char>,
    checked: bool,
)
    requires
        applied(a, b, cmd),
        menu::menu_rows(a, tr, sh).contains(RowView::Item { id: cmd, text: title, checked }),
    ensures
        is_top(cmd) ==> title == text::decimal(b.top_processes as nat) && checked == (
        a.top_processes == b.top_processes),
        is_chart(cmd) ==> {
            &&& b.chart_width == 34 ==> title == i18n::text_of(tr, "menu.small"@)
            &&& b.chart_width == 48 ==> title == i18n::text_of(tr, "menu.medium"@)
            &&& b.chart_width == 64 ==> title == i18n::text_of(tr, "menu.large"@)
            &&& b.chart_width == 96 ==> title == i18n::text_of(tr, "menu.extra_large"@)
            &&& checked == (a.chart_width == b.chart_width)
        },
        is_interval(cmd) ==> {
            &&& b.update_ms == 500 ==> title == "0.5 s"@
            &&& b.update_ms == 1000 ==> title == "1 s"@
            &&& b.update_ms == 2000 ==> title == "2 s"@
            &&& b.update_ms == 5000 ==> title == "5 s"@
            &&& checked == (a.update_ms == b.update_ms)
        },
{
    law_menu_entries_are_distinct(a, tr, sh);
    let rows = menu::menu_rows(a, tr, sh);
    let x = RowView::Item { id: cmd, text: title, checked };
    let d = menu::size_rows(a, tr);
    let e = menu::place_rows(a, tr);
    if is_top(cmd) {
        let y = menu::top_row(a, cmd - MENU_TOP_BASE);
        assert(d[13 + cmd - MENU_TOP_BASE] == y);
        lemma_in_menu(a, tr, sh, y);
        lemma_same_entry(rows, x, y);
    }
    if is_chart(cmd) {
        let y = menu::chart_row(a, tr, cmd - MENU_CHART_BASE);
        assert(d[7 + cmd - MENU_CHART_BASE] == y);
        lemma_in_menu(a, tr, sh, y);
        lemma_same_entry(rows, x, y);
    }
    if is_interval(cmd) {
        let y = menu::interval_row(a, cmd - MENU_INTERVAL_BASE);
        assert(e[5 + cmd - MENU_INTERVAL_BASE] == y);
        lemma_in_menu(a, tr, sh, y);
        lemma_same_entry(rows, x, y);
    }
}

/// An entry that places the strip, sets its theme or its labels does what its
/// title says, and is checked exactly where it is already so.
pub proof fn law_place_entries_do_what_they_say(
    a: Config,
    b: Config,
    tr: Translator,
    sh: Shown,
    cmd: int,
    title: Seq<char>,
    checked: bool,
)
    requires
        applied(a, b, cmd),
        menu::menu_rows(a, tr, sh).contains(RowView::Item { id: cmd, text: title, checked }),
    ensures
        is_position(cmd) ==> {
            &&& b.position@ == "left"@ || b.position@ == "right"@
            &&& b.position@ == "left"@ ==> title == i18n::text_of(tr, "menu.pos_left"@) && checked
                == (a.position@ == "left"@)
            &&& b.position@ == "right"@ ==> title == i18n::text_of(tr, "menu.pos_right"@) && checked
                == (a.position@ != "left"@)
        },
        is_theme(cmd) ==> {
            &&& b.theme@ == "auto"@ ==> title == i18n::text_of(tr, "menu.theme_auto"@)
            &&& b.theme@ == "dark"@ ==> title == i18n::text_of(tr, "menu.theme_dark"@)
            &&& b.theme@ == "light"@ ==> title == i18n::text_of(tr, "menu.theme_light"@)
            &&& checked == (a.theme@ == b.theme@)
        },
        cmd == MENU_LABELS ==> title == i18n::text_of(tr, "menu.labels"@) && checked == a.labels
            && b.labels == !a.labels,
{
    law_menu_entries_are_distinct(a, tr, sh);
    let rows = menu::menu_rows(a, tr, sh);
    let x = RowView::Item { id: cmd, text: title, checked };
    let c = menu::accent_rows(a, tr);
    let e = menu::place_rows(a, tr);
    reveal_strlit("left");
    reveal_strlit("right");
    reveal_strlit("auto");
    reveal_strlit("dark");
    reveal_strlit("light");
    assert("left"@.len() == 4 && "right"@.len() == 5 && "light"@.len() == 5);
    assert("auto"@[0] == 'a' && "dark"@[0] == 'd');
    if is_position(cmd) {
        let y = e[1 + cmd - MENU_POS_RIGHT];
        lemma_in_menu(a, tr, sh, y);
        lemma_same_entry(rows, x, y);
    }
    if is_theme(cmd) {
        let y = e[11 + cmd - MENU_THEME_AUTO];
        lemma_in_menu(a, tr, sh, y);
        lemma_same_entry(rows, x, y);
    }
    if cmd == MENU_LABELS {
        let y = c[1];
        assert(y == menu::item(MENU_LABELS as int, i18n::text_of(tr, "menu.labels"@), a.labels));
        lemma_in_menu(a, tr, sh, y);
        lemma_same_entry(rows, x, y);
    }
}

/// A command changes the setting that it is of and leaves all others.
pub proof fn law_command_changes_one_setting(a: Config, b: Config, cmd: int)
    requires
        applied(a, b, cmd),
    ensures
        b.labels != a.labels ==> cmd == MENU_LABELS,
        b.split_pe_cores != a.split_pe_cores ==> cmd == MENU_SPLIT_PE,
        b.group_pe_cores != a.group_pe_cores ==> cmd == MENU_GROUP_PE,
        text::views(b.widgets@) != text::views(a.widgets@) ==> is_move(cmd) || is_widget(cmd),
        b.language@ != a.language@ ==> is_language(cmd),
        b.top_processes != a.top_processes ==> is_top(cmd),
        b.chart_width != a.chart_width ==> is_chart(cmd),
        b.font_scale.bits != a.font_scale.bits ==> is_font(cmd),
        b.accent@ != a.accent@ ==> is_accent(cmd),
        i18n::texts(b.colors@) != i18n::texts(a.colors@) ==> is_color(cmd),
        b.position@ != a.position@ ==> is_position(cmd),
        b.theme@ != a.theme@ ==> is_theme(cmd),
        b.update_ms != a.update_ms ==> is_interval(cmd),
        b.net_disabled == a.net_disabled && b.disks_disabled == a.disks_disabled && b.remotes
            == a.remotes && b.share == a.share && b.disk == a.disk && b.offset == a.offset,
{
}

proof fn lemma_palette_at(tr: Translator, base: int, current: Seq<char>, n: int, i: int)
    requires
        0 <= i < n <= 13,
    ensures
        menu::palette_rows(tr, base, current, n).len() == n,
        menu::palette_rows(tr, base, current, n)[i] == menu::item(
            base + i,
            i18n::text_of(tr, theme::palette_list()[i].1),
            current == theme::palette_list()[i].0,
        ),
    decreases n,
{
    if n > 1 && i < n - 1 {
        lemma_palette_at(tr, base, current, n - 1, i);
    } else if n > 1 {
        lemma_palette_at(tr, base, current, n - 1, 0);
    } else {
        assert(menu::palette_rows(tr, base, current, 0).len() == 0);
    }
}

proof fn lemma_locale_at(current: Seq<char>, n: int, i: int)
    requires
        0 <= i < n,
    ensures
        menu::locale_rows(current, n).len() == n,
        menu::locale_rows(current, n)[i] == menu::item(
            MENU_LANG_BASE + i + 1,
            i18n::locale_list()[i].1@,
            current == i18n::locale_list()[i].0@,
        ),
    decreases n,
{
    if n > 1 && i < n - 1 {
        lemma_locale_at(current, n - 1, i);
    } else if n > 1 {
        lemma_locale_at(current, n - 1, 0);
    } else {
        assert(menu::locale_rows(current, 0).len() == 0);
    }
}

proof fn lemma_widget_row(list: Seq<Seq<char>>, tr: Translator, k: Kind, n: int, i: int)
    requires
        0 <= i < n <= 13,
        widgets::catalog_list()[i].0 == k,
    ensures
        menu::widget_rows(list, tr, k, n).contains(
            menu::item(
                MENU_WIDGET_BASE + i,
                i18n::text_of(tr, widgets::catalog_list()[i].2),
                list.contains(widgets::catalog_list()[i].1),
            ),
        ),
    decreases n,
{
    let w = menu::widget_rows(list, tr, k, n);
    let x = menu::item(
        MENU_WIDGET_BASE + i,
        i18n::text_of(tr, widgets::catalog_list()[i].2),
        list.contains(widgets::catalog_list()[i].1),
    );
    if i == n - 1 {
        assert(w[w.len() - 1] == x);
    } else {
        lemma_widget_row(list, tr, k, n - 1, i);
        let o = menu::widget_rows(list, tr, k, n - 1);
        let j = choose|j: int| 0 <= j < o.len() && o[j] == x;
        assert(w[j] == x);
    }
}

proof fn lemma_in_modules(a: Config, tr: Translator, sh: Shown, k: Kind, n: int, x: RowView)
    requires
        widgets::module_rank(k) < n <= 6,
        menu::module_rows(a, tr, sh, k).contains(x),
    ensures
        menu::modules_rows(a, tr, sh, n).contains(x),
    decreases n,
{
    let o = menu::modules_rows(a, tr, sh, n - 1);
    let r = menu::module_rows(a, tr, sh, widgets::module_list()[n - 1]);
    if widgets::module_rank(k) < n - 1 {
        lemma_in_modules(a, tr, sh, k, n - 1, x);
    } else {
        assert(widgets::module_list()[n - 1] == k);
    }
    lemma_contains_sum(o, r, x);
}

proof fn lemma_module_in_menu(a: Config, tr: Translator, sh: Shown, k: Kind, x: RowView)
    requires
        menu::widget_rows(text::views(a.widgets@), tr, k, 13).contains(x) || menu::module_colors(
            a,
            tr,
            k,
        ).contains(x) || menu::module_moves(tr, k).contains(x),
    ensures
        menu::menu_rows(a, tr, sh).contains(x),
{
    let list = text::views(a.widgets@);
    let title = seq![
        RowView::Open {
            text: menu::module_title(list, tr, sh, k),
            enabled: menu::module_available(sh, k),
        },
    ];
    let h = menu::module_head(a, tr, sh, k);
    let b = menu::module_colors(a, tr, k);
    let c = menu::module_cores(a, tr, sh, k);
    let d = menu::module_moves(tr, k);
    lemma_contains_sum(title, menu::widget_rows(list, tr, k, 13), x);
    lemma_contains_sum(h, b, x);
    lemma_contains_sum(h + b, c, x);
    lemma_contains_sum(h + b + c, d, x);
    lemma_in_modules(a, tr, sh, k, 6, x);
    let m = menu::modules_rows(a, tr, sh, 6);
    let e = menu::accent_rows(a, tr);
    let f = menu::size_rows(a, tr);
    let g = menu::place_rows(a, tr);
    let i = menu::language_rows(a, tr);
    lemma_contains_sum(m, e, x);
    lemma_contains_sum(m + e, f, x);
    lemma_contains_sum(m + e + f, g, x);
    lemma_contains_sum(m + e + f + g, i, x);
    lemma_contains_sum(m + e + f + g + i, menu::action_rows(tr, sh), x);
}

/// The entry that was chosen is the one that is checked from now on: of a size, a
/// number, a place, a theme, an accent and a language.
pub proof fn law_chosen_entry_is_checked(
    a: Config,
    b: Config,
    tr: Translator,
    sh: Shown,
    cmd: int,
    title: Seq<char>,
    checked: bool,
)
    requires
        applied(a, b, cmd),
        menu::menu_rows(b, tr, sh).contains(RowView::Item { id: cmd, text: title, checked }),
        is_top(cmd) || is_chart(cmd) || is_font(cmd) || is_interval(cmd) || is_position(cmd)
            || is_theme(cmd) || is_accent(cmd) || is_language(cmd),
    ensures
        checked,
        is_accent(cmd) ==> title == i18n::text_of(
            tr,
            theme::palette_list()[cmd - MENU_ACCENT_BASE].1,
        ) && b.accent@ == theme::palette_list()[cmd - MENU_ACCENT_BASE].0,
{
    law_menu_entries_are_distinct(b, tr, sh);
    let rows = menu::menu_rows(b, tr, sh);
    let x = RowView::Item { id: cmd, text: title, checked };
    let c = menu::accent_rows(b, tr);
    let d = menu::size_rows(b, tr);
    let e = menu::place_rows(b, tr);
    let l = menu::language_rows(b, tr);
    reveal_strlit("left");
    reveal_strlit("right");
    assert("left"@.len() == 4 && "right"@.len() == 5);
    let y = if is_top(cmd) {
        d[13 + cmd - MENU_TOP_BASE]
    } else if is_chart(cmd) {
        d[7 + cmd - MENU_CHART_BASE]
    } else if is_font(cmd) {
        d[1 + cmd - MENU_FONT_BASE]
    } else if is_interval(cmd) {
        e[5 + cmd - MENU_INTERVAL_BASE]
    } else if is_position(cmd) {
        e[1 + cmd - MENU_POS_RIGHT]
    } else if is_theme(cmd) {
        e[11 + cmd - MENU_THEME_AUTO]
    } else if is_accent(cmd) {
        c[3 + cmd - MENU_ACCENT_BASE]
    } else if cmd == MENU_LANG_BASE {
        l[1]
    } else {
        l[3 + cmd - MENU_LANG_BASE - 1]
    };
    if is_accent(cmd) {
        lemma_palette_at(tr, MENU_ACCENT_BASE as int, b.accent@, 13, cmd - MENU_ACCENT_BASE);
        assert(y == menu::palette_rows(tr, MENU_ACCENT_BASE as int, b.accent@, 13)[cmd
            - MENU_ACCENT_BASE]);
    } else if is_language(cmd) && cmd != MENU_LANG_BASE {
        let n = i18n::locale_list().len() as int;
        lemma_locale_at(b.language@, n, cmd - MENU_LANG_BASE - 1);
        assert(y == menu::locale_rows(b.language@, n)[cmd - MENU_LANG_BASE - 1]);
    }
    lemma_in_menu(b, tr, sh, y);
    lemma_same_entry(rows, x, y);
}

/// The entry of a widget that is shown is checked; choosing it takes the widget
/// out, and choosing it again puts it back.
pub proof fn law_widget_entry_switches(
    a: Config,
    b: Config,
    tr: Translator,
    sh: Shown,
    cmd: int,
    before: Seq<char>,
    was: bool,
    after: Seq<char>,
    is: bool,
)
    requires
        applied(a, b, cmd),
        is_widget(cmd),
        text::views(a.widgets@).no_duplicates(),
        menu::menu_rows(a, tr, sh).contains(RowView::Item { id: cmd, text: before, checked: was }),
        menu::menu_rows(b, tr, sh).contains(RowView::Item { id: cmd, text: after, checked: is }),
    ensures
        is == !was,
        after == before,
{
    let i = cmd - MENU_WIDGET_BASE;
    let e = widgets::catalog_list()[i];
    let la = text::views(a.widgets@);
    let lb = text::views(b.widgets@);
    law_menu_entries_are_distinct(a, tr, sh);
    law_menu_entries_are_distinct(b, tr, sh);
    lemma_widget_row(la, tr, e.0, 13, i);
    lemma_widget_row(lb, tr, e.0, 13, i);
    let xa = menu::item(cmd, i18n::text_of(tr, e.2), la.contains(e.1));
    let xb = menu::item(cmd, i18n::text_of(tr, e.2), lb.contains(e.1));
    lemma_module_in_menu(a, tr, sh, e.0, xa);
    lemma_module_in_menu(b, tr, sh, e.0, xb);
    lemma_same_entry(
        menu::menu_rows(a, tr, sh),
        RowView::Item { id: cmd, text: before, checked: was },
        xa,
    );
    lemma_same_entry(
        menu::menu_rows(b, tr, sh),
        RowView::Item { id: cmd, text: after, checked: is },
        xb,
    );
    widgets::law_toggle_switches_that_widget(la, e.1, e.1);
    widgets::law_catalogue_names_are_distinct(i);
}

/// The entries that move a module: the one to the left moves it a place to the
/// left, the one to the right a place to the right, and both that module alone.
pub proof fn law_move_entries_do_what_they_say(a: Config, tr: Translator, sh: Shown, k: Kind) -> (r: (
    int,
    int,
))
    ensures
        menu::menu_rows(a, tr, sh).contains(
            menu::item(r.0, i18n::text_of(tr, "menu.move_left"@), false),
        ),
        menu::menu_rows(a, tr, sh).contains(
            menu::item(r.1, i18n::text_of(tr, "menu.move_right"@), false),
        ),
        widgets_after(text::views(a.widgets@), r.0) == widgets::moved(
            text::views(a.widgets@),
            k,
            -1,
        ),
        widgets_after(text::views(a.widgets@), r.1) == widgets::moved(
            text::views(a.widgets@),
            k,
            1,
        ),
{
    let m = menu::module_moves(tr, k);
    let mi = widgets::module_rank(k);
    lemma_module_in_menu(a, tr, sh, k, m[1]);
    lemma_module_in_menu(a, tr, sh, k, m[2]);
    assert(widgets::module_list()[mi] == k);
    (MENU_MOVE_BASE + mi * 2, MENU_MOVE_BASE + mi * 2 + 1)
}

/// An entry of the colours of a module sets that module's colour, and is the one
/// that is checked from now on; every other module keeps its colour.
pub proof fn law_colour_entries_are_of_their_module(
    a: Config,
    b: Config,
    tr: Translator,
    sh: Shown,
    k: Kind,
    entry: int,
    other: Kind,
)
    requires
        applied(a, b, MENU_COLOR_BASE + widgets::module_rank(k) * MENU_COLOR_STRIDE + entry),
        0 <= entry < 16,
        k != Kind::Battery,
        other != k,
    ensures
        ({
            let cmd = MENU_COLOR_BASE + widgets::module_rank(k) * MENU_COLOR_STRIDE + entry;
            &&& entry == 0 ==> menu::color_setting(b, k) == "accent"@ && menu::menu_rows(
                b,
                tr,
                sh,
            ).contains(menu::item(cmd, i18n::text_of(tr, "menu.accent"@), true))
            &&& entry == 1 ==> menu::color_setting(b, k) == "utilization"@ && menu::menu_rows(
                b,
                tr,
                sh,
            ).contains(menu::item(cmd, i18n::text_of(tr, "menu.by_utilisation"@), true))
            &&& entry == 2 ==> menu::color_setting(b, k) == "mono"@ && menu::menu_rows(
                b,
                tr,
                sh,
            ).contains(menu::item(cmd, i18n::text_of(tr, "menu.monochrome"@), true))
            &&& entry >= 3 ==> menu::color_setting(b, k) == theme::palette_list()[entry - 3].0
                && menu::menu_rows(b, tr, sh).contains(
                menu::item(cmd, i18n::text_of(tr, theme::palette_list()[entry - 3].1), true),
            )
        }),
        menu::color_setting(b, other) == menu::color_setting(a, other),
{
    let mi = widgets::module_rank(k);
    let base = MENU_COLOR_BASE + mi * MENU_COLOR_STRIDE;
    let cmd = base + entry;
    assert((cmd - MENU_COLOR_BASE) / (MENU_COLOR_STRIDE as int) == mi);
    assert((cmd - MENU_COLOR_BASE) % (MENU_COLOR_STRIDE as int) == entry);
    assert(widgets::module_list()[mi] == k);
    lemma_keys(k, other);
    let ta = i18n::texts(a.colors@);
    let tb = i18n::texts(b.colors@);
    let key = menu::key_of(k);
    lemma_setting(a, k);
    lemma_setting(b, k);
    lemma_setting(a, other);
    lemma_setting(b, other);
    reveal_strlit("accent");
    reveal_strlit("utilization");
    reveal_strlit("mono");
    assert("accent"@.len() == 6 && "utilization"@.len() == 11 && "mono"@.len() == 4);
    if entry >= 3 {
        theme::law_palette_names_are_colours(entry - 3, None);
        lemma_palette_at(tr, base + 3, menu::color_setting(b, k), 13, entry - 3);
        let y = menu::palette_rows(tr, base + 3, menu::color_setting(b, k), 13)[entry - 3];
        assert(menu::color_rows(b, tr, k)[entry + 2] == y);
        assert(menu::module_colors(b, tr, k)[entry + 3] == y);
        lemma_module_in_menu(b, tr, sh, k, y);
    } else {
        let y = menu::color_rows(b, tr, k)[entry + 1];
        assert(menu::module_colors(b, tr, k)[entry + 2] == y);
        lemma_module_in_menu(b, tr, sh, k, y);
    }
}

proof fn lemma_setting(c: Config, k: Kind)
    ensures
        menu::color_setting(c, k) == (if i18n::texts(c.colors@).dom().contains(menu::key_of(k)) {
            i18n::texts(c.colors@)[menu::key_of(k)]
        } else {
            "accent"@
        }),
{
}

proof fn lemma_keys(k: Kind, other: Kind)
    requires
        k != other,
    ensures
        menu::key_of(k) != menu::key_of(other),
{
    reveal_strlit("cpu");
    reveal_strlit("gpu");
    reveal_strlit("mem");
    reveal_strlit("disk");
    reveal_strlit("net");
    reveal_strlit("battery");
    let a = menu::key_of(k);
    let b = menu::key_of(other);
    assert(a.len() != b.len() || a[0] != b[0]);
}

} // verus!
