//! The strip: its widgets, colours, layout, mouse and menu.

use winstats::canvas::{self, Color};
use winstats::commands::{apply_menu, command_of, popup_action, toggle, Command};
use winstats::config::{file_text, Config, RemoteCfg};
use winstats::i18n::Translator;
use winstats::menu::{
    build_menu, Row, Shown, MENU_ACCENT_BASE, MENU_CHART_BASE, MENU_COLOR_BASE, MENU_COLOR_STRIDE,
    MENU_EXIT, MENU_FONT_BASE, MENU_GROUP_PE, MENU_INTERVAL_BASE, MENU_LABELS, MENU_LANG_BASE,
    MENU_MOVE_BASE, MENU_POS_LEFT, MENU_POS_RIGHT, MENU_SPLIT_PE, MENU_THEME_LIGHT, MENU_TOP_BASE,
    MENU_WIDGET_BASE,
};
use winstats::metrics::battery::Battery;
use winstats::metrics::disks::PhysicalDisk;
use winstats::metrics::net::NetIface;
use winstats::metrics::MetricsData;
use winstats::number::{Double, Single};
use winstats::popup::Action;
use winstats::strip::{
    bar_action, chart_width, color_modes, drag_end, drag_start, drop_slot, drop_unfed, font_factor,
    is_floating, is_light, is_shell_event, lay_out, message_point, must_raise, refresh_ms, slot_at,
    slot_x, text_colors, BarAction, Burst, ZBURST_TICKS,
};
use winstats::widgets::layout::{
    bar_width_dip, battery_color, build, count_breaks, is_active, label_width, pair_colors,
    pct_text, short_label, AnyWidget, BarGeometry, BatteryWidget, CpuBars, Line, MemText, Mini,
    Speed, Widget, ACTIVE_RATE, BATTERY_LOW, BATTERY_MIDDLE, DISK_FLOOR, NET_FLOOR,
};
use winstats::widgets::theme::{named_color, palette, ColorMode, Theme};
use winstats::widgets::{catalog, is_known, module_of, modules, move_module, normalize, toggle_widget, Kind};

fn single(x: f32) -> Single {
    Single { bits: x.to_bits() }
}

fn names(list: &[&str]) -> Vec<String> {
    list.iter().map(|s| s.to_string()).collect()
}

fn shown() -> Shown<'static> {
    Shown { hybrid: true, gpu: true, battery: true, autostart: false, update: None }
}

fn checked(rows: &Vec<Row>, cmd: usize) -> Option<bool> {
    rows.iter().find_map(|r| match r {
        Row::Item { id, checked, .. } if *id == cmd => Some(*checked),
        _ => None,
    })
}

// ---------------------------------------------------------------------------
// The list of widgets

#[test]
fn catalogue_is_in_module_order() {
    let ranks: Vec<usize> = catalog().iter().map(|e| e.kind.rank()).collect();
    let mut sorted = ranks.clone();
    sorted.sort();
    assert_eq!(ranks, sorted);
    assert_eq!(catalog().len(), 13);
    assert_eq!(modules().len(), 6);
    assert!(is_known("mem_text") && !is_known("clock") && !is_known(""));
    assert_eq!(module_of("gpu_line"), Some(Kind::Gpu));
    assert_eq!(module_of("GPU"), None);
    assert_eq!(Kind::Mem.title(&Translator::new()), "module.ram");
}

#[test]
fn widgets_join_their_module() {
    let mut list = names(&["net", "cpu_bars", "mem"]);
    toggle_widget(&mut list, "net_chart");
    assert_eq!(list, names(&["net", "net_chart", "cpu_bars", "mem"]));
    toggle_widget(&mut list, "battery");
    assert_eq!(list, names(&["net", "net_chart", "cpu_bars", "mem", "battery"]));
    toggle_widget(&mut list, "net");
    assert_eq!(list, names(&["net_chart", "cpu_bars", "mem", "battery"]));
}

#[test]
fn switching_on_and_off_gives_the_list_back() {
    let before = names(&["net", "cpu_bars", "mem"]);
    for e in catalog() {
        if before.iter().any(|n| n == e.name) {
            continue;
        }
        let mut list = before.clone();
        toggle_widget(&mut list, e.name);
        assert_eq!(list.len(), 4);
        toggle_widget(&mut list, e.name);
        assert_eq!(list, before);
    }
}

#[test]
fn unknown_widgets_are_dropped() {
    let mut list = names(&["cpu", "clock", "net", "", "mem", "mem"]);
    normalize(&mut list);
    assert_eq!(list, names(&["net", "mem", "mem"]));
    let once = list.clone();
    normalize(&mut list);
    assert_eq!(list, once);
}

#[test]
fn modules_move_and_move_back() {
    let before = names(&["cpu_bars", "cpu_mini", "mem", "disk", "disk_chart"]);
    let mut list = before.clone();
    move_module(&mut list, Kind::Mem, -1);
    assert_eq!(list, names(&["mem", "cpu_bars", "cpu_mini", "disk", "disk_chart"]));
    move_module(&mut list, Kind::Mem, 1);
    assert_eq!(list, before);
    move_module(&mut list, Kind::Cpu, -1);
    assert_eq!(list, before);
    move_module(&mut list, Kind::Disk, 1);
    assert_eq!(list, before);
    move_module(&mut list, Kind::Net, 1);
    assert_eq!(list, before);
}

// ---------------------------------------------------------------------------
// Colours

#[test]
fn colours_are_read() {
    let red = Color { r: 255, g: 0, b: 16, a: 255 };
    assert_eq!(Color::from_hex("#ff0010"), Some(red));
    assert_eq!(Color::from_hex("FF0010"), Some(red));
    assert_eq!(Color::from_hex("#ff001"), None);
    assert_eq!(Color::from_hex("#ff00zz"), None);
    let system = Color { r: 1, g: 2, b: 3, a: 255 };
    assert_eq!(named_color("system", Some(system)), Some(system));
    assert_eq!(named_color("system", None), named_color("blue", None));
    assert_eq!(named_color("#ff0010", None), Some(red));
    assert_eq!(named_color("nothing", None), None);
    for s in palette() {
        assert!(matches!(ColorMode::parse(s.name, None), ColorMode::Fixed(_)), "{}", s.name);
    }
    assert_eq!(ColorMode::parse("", None), ColorMode::Accent);
    assert_eq!(ColorMode::parse("utilization", None), ColorMode::Utilization);
    assert_eq!(ColorMode::parse("mono", None), ColorMode::Mono);
    assert_eq!(ColorMode::parse("nothing", None), ColorMode::Accent);
    assert_eq!(ColorMode::parse("#ff0010", None), ColorMode::Fixed(red));
}

#[test]
fn utilisation_steps_are_those_of_floats() {
    for i in 0..=2000 {
        let v = i as f32 / 2000.0;
        let base = canvas::black();
        let expected = if v < 0.6 {
            base
        } else if v < 0.75 {
            canvas::yellow()
        } else if v < 0.9 {
            canvas::orange()
        } else {
            canvas::red()
        };
        assert_eq!(canvas::usage_color(single(v), base), expected, "{}", v);
    }
    assert_eq!(canvas::SIX_TENTHS, 0.6f32.to_bits());
    assert_eq!(canvas::THREE_QUARTERS, 0.75f32.to_bits());
    assert_eq!(canvas::NINE_TENTHS, 0.9f32.to_bits());
    assert_eq!(BATTERY_LOW, 0.15f32.to_bits());
    assert_eq!(BATTERY_MIDDLE, 0.3f32.to_bits());
    assert_eq!(DISK_FLOOR, (1024f32 * 1024.0).to_bits());
    assert_eq!(NET_FLOOR, (10.0f32 * 1024.0).to_bits());
    assert_eq!(ACTIVE_RATE, 1024f64.to_bits());
}

fn theme(light: bool, mode: ColorMode) -> Theme {
    let (text, dim) = text_colors(light);
    Theme {
        text,
        dim,
        accent: canvas::green(),
        light,
        scale: Single::one(),
        inner_h: 40,
        labels: true,
        font_scale: Single::one(),
        split_pe: true,
        chart_w: single(48.0),
        bar_w: bar_width_dip("small"),
        modes: [mode; 6],
    }
}

#[test]
fn modules_are_coloured_by_their_mode() {
    let full = single(0.95);
    let t = theme(false, ColorMode::Utilization);
    assert_eq!(t.chart_color(Kind::Cpu, full), canvas::red());
    assert_eq!(t.chart_color(Kind::Cpu, single(0.1)), canvas::green());
    assert_eq!(t.value_color(Kind::Cpu, single(0.1)), t.text);
    let t = theme(true, ColorMode::Utilization);
    assert_eq!(t.chart_color(Kind::Mem, full), Color { r: 0xd3, g: 0x2f, b: 0x2f, a: 255 });
    let t = theme(false, ColorMode::Accent);
    assert_eq!(t.chart_color(Kind::Net, full), canvas::green());
    assert_eq!(t.value_color(Kind::Net, full), t.text);
    let c = Color { r: 9, g: 8, b: 7, a: 255 };
    let t = theme(false, ColorMode::Fixed(c));
    assert_eq!(pair_colors(Kind::Disk, &t), (c, Color { r: 0xff, g: 0x98, b: 0x00, a: 255 }));
    let t = theme(false, ColorMode::Mono);
    assert_eq!(pair_colors(Kind::Net, &t), (t.text, t.dim));
}

#[test]
fn batteries_are_coloured_by_charge() {
    let plain = canvas::white();
    let level = |x: f32, charging: bool, on_ac: bool| {
        let b = Battery { level: single(x), charging, on_ac, remaining_secs: None };
        battery_color(&b, plain)
    };
    assert_eq!(level(0.1, true, false), canvas::green());
    assert_eq!(level(0.1, false, true), canvas::green());
    assert_eq!(level(0.1, false, false), canvas::red());
    assert_eq!(level(0.15, false, false), canvas::yellow());
    assert_eq!(level(0.3, false, false), plain);
}

// ---------------------------------------------------------------------------
// Drawing, as far as it is counted

#[test]
fn widgets_are_built() {
    let list = names(&["cpu_bars", "nothing", "mem_text", "gpu_line", "net", "disk_chart", "battery"]);
    let built = build(&list);
    assert_eq!(built.len(), 6);
    assert_eq!(built[0], AnyWidget::CpuBars(CpuBars));
    assert_eq!(built[1], AnyWidget::MemText(MemText));
    assert_eq!(built[2], AnyWidget::Line(Line(Kind::Gpu)));
    assert_eq!(built[3], AnyWidget::Speed(Speed(Kind::Net)));
    assert_eq!(built[5], AnyWidget::Battery(BatteryWidget));
    let all: Vec<String> = catalog().iter().map(|e| e.name.to_string()).collect();
    for (w, e) in build(&all).iter().zip(catalog()) {
        assert_eq!(w.kind(), e.kind);
    }
}

#[test]
fn widths_of_widgets() {
    let g = BarGeometry { bar: 3, gap: 1, pad: 1, extra: 2 };
    let breaks = vec![false, false, true, false];
    assert_eq!(count_breaks(&breaks), 1);
    let positions = CpuBars::positions(0, g, 4, true, &breaks);
    let last = positions[3].0;
    assert_eq!(last + 3 + 1 + 1, CpuBars::width(0, g, 4, 1));
    assert_eq!(positions[0], (2, None));
    assert_eq!(positions[1], (6, None));
    assert!(positions[2].1.is_some());
    assert_eq!(CpuBars::positions(0, g, 4, false, &breaks)[3].0, 14);
    assert_eq!(["small", "medium", "large", "huge"].map(bar_width_dip), [3, 4, 5, 3]);
    assert_eq!(Mini::width(20, 25, 22), 25);
    assert_eq!(Line::width(14, 48), 62);
    assert_eq!((label_width(true, 10, 4), label_width(false, 10, 4)), (14, 0));
    assert_eq!(short_label(Kind::Disk), "DSK");
    assert_eq!((pct_text(Some(7)), pct_text(None)), ("7%".to_string(), "--".to_string()));
    assert!(is_active(Double { bits: 1025f64.to_bits() }));
    assert!(!is_active(Double { bits: 1024f64.to_bits() }));
    let mut m = MetricsData::empty();
    m.mem.used = 3 << 30;
    m.mem.total = 4 << 30;
    assert_eq!(MemText::rows(&m), ("3.00 GB".to_string(), "1.00 GB".to_string()));
}

// ---------------------------------------------------------------------------
// The strip

#[test]
fn settings_of_the_strip() {
    assert!(is_floating("floating", false) && !is_floating("embedded", true));
    assert!(is_floating("auto", true) && !is_floating("auto", false));
    assert!(is_light("light", false) && !is_light("dark", true) && is_light("auto", true));
    assert_eq!(text_colors(false).0, canvas::white());
    assert_eq!((chart_width(5), chart_width(48), chart_width(900)), (20, 48, 200));
    assert_eq!((refresh_ms(1), refresh_ms(250), refresh_ms(5000)), (250, 250, 5000));
    assert_eq!(font_factor(single(0.5)), Single::one());
    assert_eq!(font_factor(single(0.85)), single(0.85));
    assert_eq!(font_factor(single(f32::NAN)), Single::one());
    let mut list = names(&["gpu", "cpu_bars", "battery", "gpu_line"]);
    assert!(drop_unfed(&mut list, false, true));
    assert_eq!(list, names(&["cpu_bars", "battery"]));
    assert!(!drop_unfed(&mut list, false, true));
    let mut cfg = Config::default();
    cfg.utilization_colors = true;
    cfg.colors.insert("net".to_string(), "mono".to_string());
    let modes = color_modes(&cfg, None);
    assert_eq!(modes[0], ColorMode::Utilization);
    assert_eq!(modes[1], ColorMode::Accent);
    assert_eq!(modes[4], ColorMode::Mono);
}

#[test]
fn widgets_stand_side_by_side() {
    let kinds = vec![Kind::Cpu, Kind::Gpu, Kind::Mem, Kind::Net];
    let (slots, total) = lay_out(&vec![30, 0, 20, 10], &kinds, 6, 8);
    assert_eq!(slots.len(), 3);
    assert_eq!(
        slots.iter().map(|s| (s.widget, s.x, s.x0, s.x1)).collect::<Vec<_>>(),
        vec![(0, 6, 2, 40), (2, 44, 40, 68), (3, 72, 68, 86)]
    );
    assert_eq!(total, 72 + 10 + 6);
    assert_eq!(slot_at(&slots, 40).map(|s| s.kind), Some(Kind::Mem));
    assert_eq!(slot_at(&slots, 1), None);
    assert_eq!(slot_at(&slots, 86), None);
    assert_eq!(lay_out(&vec![], &vec![], 6, 8).1, 12);
}

#[test]
fn widgets_are_dragged() {
    let kinds = vec![Kind::Cpu, Kind::Mem, Kind::Net];
    let (slots, total) = lay_out(&vec![30, 20, 10], &kinds, 6, 8);
    let before = names(&["cpu_bars", "mem", "net"]);
    assert_eq!(drag_start(&slots, 1), None);
    let mut d = drag_start(&slots, 10).unwrap();
    assert_eq!((d.widget, d.active), (0, false));
    assert!(!d.drag_move(12, 6));
    assert!(d.drag_move(16, 6) && d.active);
    assert!(!d.drag_move(50, 6) && d.active);
    let mut list = before.clone();
    assert!(drag_end(&mut list, &slots, d, 66));
    assert_eq!(list, names(&["mem", "cpu_bars", "net"]));
    let mut list = before.clone();
    assert!(drag_end(&mut list, &slots, d, 200));
    assert_eq!(list, names(&["mem", "net", "cpu_bars"]));
    let mut list = before.clone();
    assert!(!drag_end(&mut list, &slots, d, 38));
    assert_eq!(list, before);
    assert_eq!(drop_slot(&slots, -5), 0);
    assert_eq!(drop_slot(&vec![], 7), 0);
    assert_eq!(slot_x(&slots, 0, total), 2);
}

#[test]
fn strip_stays_on_top() {
    assert!(is_shell_event(3, -4) && is_shell_event(0x8002, 0) && !is_shell_event(0x8002, -4));
    assert!(must_raise(true, false, true, true));
    assert!(!must_raise(false, false, true, true) && !must_raise(true, true, true, true));
    let mut b = Burst { left: 0 };
    b.event();
    let mut ticks = 0;
    while b.left > 0 {
        b.tick();
        ticks += 1;
    }
    assert_eq!(ticks, ZBURST_TICKS);
    assert_eq!(bar_action(false, true, false, true), BarAction::Wait);
    assert_eq!(bar_action(true, true, false, true), BarAction::Keep);
    assert!(matches!(bar_action(true, false, false, true), BarAction::Create { .. }));
    assert_eq!(message_point(0xfffe_0005), (5, -2));
    assert_eq!(message_point(0xffff_ffff_0001_8000), (-32768, 1));
}

// ---------------------------------------------------------------------------
// The menu

#[test]
fn every_entry_is_a_command() {
    let rows = build_menu(&Config::default(), &Translator::new(), &shown());
    let mut depth = 0;
    let mut items = 0;
    for r in &rows {
        match r {
            Row::Item { id, .. } => {
                assert_ne!(command_of(*id), Command::Nothing, "{}", id);
                items += 1;
            }
            Row::Open { .. } => depth += 1,
            Row::Close => depth -= 1,
            Row::Separator => {}
        }
        assert!(depth >= 0);
    }
    assert_eq!(depth, 0);
    assert!(items > 100);
    assert_eq!(command_of(MENU_EXIT), Command::Exit);
    assert_eq!(command_of(0), Command::Nothing);
}

#[test]
fn menu_commands_are_distinct() {
    let rows = build_menu(&Config::default(), &Translator::new(), &shown());
    let mut ids = Vec::new();
    for r in &rows {
        if let Row::Item { id, .. } = r {
            assert!(!ids.contains(id), "{}", id);
            ids.push(*id);
        }
    }
    assert!(ids.len() > 100);
}

#[test]
fn choices_are_shown() {
    let mut choices = vec![MENU_POS_LEFT, MENU_POS_RIGHT, MENU_THEME_LIGHT];
    for base in [MENU_TOP_BASE, MENU_CHART_BASE, MENU_FONT_BASE, MENU_INTERVAL_BASE] {
        choices.extend(base..base + 4);
    }
    choices.extend(MENU_LANG_BASE..MENU_LANG_BASE + 30);
    choices.extend(MENU_ACCENT_BASE..MENU_ACCENT_BASE + 13);
    let tr = Translator::new();
    for cmd in choices {
        let mut cfg = Config::default();
        assert!(apply_menu(&mut cfg, cmd).is_some());
        assert_eq!(checked(&build_menu(&cfg, &tr, &shown()), cmd), Some(true), "{}", cmd);
    }
}

#[test]
fn text_sizes_are_matched_within_a_hundredth() {
    let tr = Translator::new();
    for (i, size) in [0.85f32, 1.0, 1.15, 1.3].into_iter().enumerate() {
        let near = |bits: u32| {
            let mut cfg = Config::default();
            cfg.font_scale = Single { bits };
            checked(&build_menu(&cfg, &tr, &shown()), MENU_FONT_BASE + i) == Some(true)
        };
        let expected = |bits: u32| (f32::from_bits(bits) - size).abs() < 0.01;
        let mut edges = Vec::new();
        for x in [size - 0.01, size, size + 0.01] {
            let b = x.to_bits();
            edges.extend(b - 6..=b + 6);
        }
        for bits in edges {
            assert_eq!(near(bits), expected(bits), "{}", f32::from_bits(bits));
        }
        let mut cfg = Config::default();
        apply_menu(&mut cfg, MENU_FONT_BASE + i);
        assert_eq!(cfg.font_scale, single(size));
    }
}

#[test]
fn switches_flip_and_flip_back() {
    for cmd in [MENU_LABELS, MENU_SPLIT_PE, MENU_GROUP_PE] {
        let mut cfg = Config::default();
        let before = (cfg.labels, cfg.split_pe_cores, cfg.group_pe_cores);
        let change = apply_menu(&mut cfg, cmd).unwrap();
        assert_ne!((cfg.labels, cfg.split_pe_cores, cfg.group_pe_cores), before);
        assert_eq!(change.group_pe, cmd == MENU_GROUP_PE);
        apply_menu(&mut cfg, cmd);
        assert_eq!((cfg.labels, cfg.split_pe_cores, cfg.group_pe_cores), before);
    }
}

#[test]
fn settings_are_changed() {
    let mut cfg = Config::default();
    let c = apply_menu(&mut cfg, MENU_LANG_BASE + 1).unwrap();
    assert!(c.language && !c.interval && !c.top_processes);
    assert_eq!(cfg.language, "en");
    apply_menu(&mut cfg, MENU_LANG_BASE);
    assert_eq!(cfg.language, "auto");
    assert!(apply_menu(&mut cfg, MENU_INTERVAL_BASE + 3).unwrap().interval);
    assert_eq!(cfg.update_ms, 5000);
    assert!(apply_menu(&mut cfg, MENU_TOP_BASE).unwrap().top_processes);
    assert_eq!(cfg.top_processes, 5);
    assert!(apply_menu(&mut cfg, MENU_POS_LEFT).unwrap().give_back);
    assert_eq!(cfg.position, "left");
    let net = MENU_COLOR_BASE + 4 * MENU_COLOR_STRIDE;
    apply_menu(&mut cfg, net + 1);
    assert_eq!(cfg.colors.get("net").map(|s| s.as_str()), Some("utilization"));
    apply_menu(&mut cfg, net);
    assert!(!cfg.colors.contains_key("net"));
    cfg.widgets = names(&["cpu_bars", "mem"]);
    apply_menu(&mut cfg, MENU_WIDGET_BASE + 10);
    assert_eq!(cfg.widgets, names(&["cpu_bars", "mem", "net"]));
    apply_menu(&mut cfg, MENU_MOVE_BASE + 9);
    assert_eq!(cfg.widgets, names(&["cpu_bars", "mem", "net"]));
    apply_menu(&mut cfg, MENU_MOVE_BASE + 8);
    assert_eq!(cfg.widgets, names(&["cpu_bars", "net", "mem"]));
    assert!(apply_menu(&mut cfg, MENU_EXIT).is_none());
}

#[test]
fn popups_switch_interfaces_and_disks() {
    let mut list = names(&["a"]);
    toggle(&mut list, "b".to_string());
    assert_eq!(list, names(&["a", "b"]));
    toggle(&mut list, "b".to_string());
    assert_eq!(list, names(&["a"]));
    let iface = |alias: &str, enabled: bool| NetIface {
        luid: 1,
        guid: 2,
        alias: alias.to_string(),
        description: String::new(),
        kind: "",
        up: true,
        rx_bps: Double::zero(),
        tx_bps: Double::zero(),
        ip: String::new(),
        ssid: String::new(),
        enabled,
    };
    let disk = |model: &str, enabled: bool| PhysicalDisk {
        index: 0,
        model: model.to_string(),
        bus: "",
        size: 0,
        read_bps: Double::zero(),
        write_bps: Double::zero(),
        enabled,
    };
    let mut cfg = Config::default();
    let mut m = MetricsData::empty();
    m.net_ifaces = vec![iface("Ethernet", true), iface("WLAN", false)];
    m.disks = vec![disk("A", true), disk("B", true)];
    assert!(!popup_action(&mut cfg, &m, Action::ToggleNet("Ethernet".to_string())));
    assert!(cfg.net_disabled.is_empty());
    assert!(popup_action(&mut cfg, &m, Action::ToggleNet("WLAN".to_string())));
    assert_eq!(cfg.net_disabled, names(&["WLAN"]));
    assert!(popup_action(&mut cfg, &m, Action::ToggleDisk("A".to_string())));
    assert_eq!(cfg.disks_disabled, names(&["A"]));
    assert!(popup_action(&mut cfg, &m, Action::ToggleDisk("A".to_string())));
    assert!(cfg.disks_disabled.is_empty());
}

#[test]
fn defaults() {
    let cfg = Config::default();
    assert_eq!(cfg.update_ms, 1000);
    assert_eq!(cfg.position, "right");
    assert_eq!(cfg.language, "auto");
    assert!(cfg.widgets.iter().all(|w| is_known(w)));
    assert_eq!(cfg.font_scale, Single::one());
    let r = RemoteCfg::default();
    assert!(!r.enabled && r.labels && r.split_pe && !r.group_pe);
    assert!(file_text("x = 1\n").starts_with("# winstats configuration\n"));
    assert!(file_text("x = 1\n").ends_with("\n\nx = 1\n"));
    let mut cfg = Config::default();
    cfg.accent = "#010203".to_string();
    assert_eq!(cfg.accent_color(None), Color { r: 1, g: 2, b: 3, a: 255 });
    cfg.accent = "system".to_string();
    let c = Color { r: 5, g: 6, b: 7, a: 255 };
    assert_eq!(cfg.accent_color(Some(c)), c);
}

#[test]
fn parts_of_a_widget_stand_in_the_middle() {
    let (label, value) = Mini::places(10, 4, 30, 26, (12, 9), (25, 14), 2);
    assert_eq!(label, (19, 6));
    assert_eq!(value, (12, 13));
    let p = BatteryWidget::places(10, 4, 26, (20, 12), 3, (20, 10), (2, 3));
    assert_eq!(p.text_y, 11);
    assert_eq!((p.outline.x, p.outline.y, p.outline.w, p.outline.h), (33, 12, 20, 10));
    assert_eq!((p.pole.x, p.pole.y, p.pole.w, p.pole.h), (53, 15, 2, 3));
}
