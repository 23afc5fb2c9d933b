//! The popup, the taskbar, the about window, menus that stay open, pixels.

use winstats::about::{
    self, centre, copyright_text, links_of, pad_rect, version_text, About, Click, Extent, Sizes,
    Texts,
};
use winstats::canvas::{
    chart_plan, clip_candidates, clip_range, coverage_mask, pixel_over, red, yellow, Canvas, Color,
    FontSpec, FW_NORMAL,
};
use winstats::i18n::Translator;
use winstats::metrics::net::NetIface;
use winstats::metrics::MetricsData;
use winstats::number::{Double, Single};
use winstats::popup::content::{
    content, describe_iface, empty_list_key, fill_color, Element, Figure, ProcMode, EIGHT_TENTHS,
};
use winstats::popup::{
    core_bars, lighten, place, process_rows, tooltip, Action, Area, BarRow, Hit, Popup,
    Pass, Rect, Tip, Wrap,
};
use winstats::taskbar;
use winstats::tracking::{
    is_menu_window, merge_state, rim, square_pixel, square_size, sync_entry, EntrySync, Press,
    Target, Track, HILITE, NONE,
};
use winstats::util::wide;
use winstats::widgets::Kind;

fn rect(left: i32, top: i32, right: i32, bottom: i32) -> Rect {
    Rect { left, top, right, bottom }
}

// ---------------------------------------------------------------------------
// The popup

#[test]
fn second_click_closes() {
    let mut p = Popup::new();
    let (anchor, tray) = (rect(0, 0, 10, 10), rect(0, 0, 100, 10));
    assert!(p.toggle(Kind::Cpu, anchor, tray, 1000));
    assert!(!p.toggle(Kind::Cpu, anchor, tray, 1100));
    assert!(!p.visible);
    assert!(!p.toggle(Kind::Cpu, anchor, tray, 1399));
    assert!(p.toggle(Kind::Cpu, anchor, tray, 1400));
    assert!(p.toggle(Kind::Mem, anchor, tray, 1401));
    assert_eq!(p.kind, Some(Kind::Mem));
    assert!(p.close(2000) && !p.visible && !p.close(2000));
}

#[test]
fn open_popups_only_grow() {
    let mut p = Popup::new();
    p.pad = 10;
    assert_eq!(p.settle_height(100, 90, 50), 120);
    assert_eq!(p.settle_height(80, 70, 50), 120);
    assert_eq!(p.settle_height(80, 170, 50), 190);
}

fn pass(end_y: i32, used: i32) -> Pass {
    Pass { tips: Vec::new(), hits: vec![hit(0, 0, "a")], pad: 10, end_y, used, least: 50 }
}

#[test]
fn popups_are_drawn_while_open() {
    let mut p = Popup::new();
    assert!(p.drawn().is_none());
    assert_eq!(p.render(pass(100, 90)), None);
    assert!(p.hits.is_empty() && p.locked_h == 0);
    assert!(p.toggle(Kind::Cpu, rect(0, 0, 10, 10), rect(0, 0, 100, 10), 1000));
    assert_eq!(p.drawn(), Some(Kind::Cpu));
    assert_eq!(p.render(pass(100, 90)), Some(120));
    assert_eq!(p.render(pass(20, 30)), Some(120));
    p.tip = Some(0);
    assert_eq!(p.tip_in(&Vec::new()), None);
    assert_eq!(p.render(pass(20, 170)), Some(190));
    assert!(p.tip.is_none() && p.hits.len() == 1);
    assert!(p.close(2000));
    assert_eq!(p.render(pass(500, 500)), None);
    assert_eq!(p.locked_h, 190);
}

fn hit(x: i32, y: i32, name: &str) -> Hit {
    Hit { area: Area { x, y, w: 10, h: 10 }, action: Action::ToggleNet(name.to_string()) }
}

#[test]
fn popups_react_to_the_mouse() {
    let mut p = Popup::new();
    let tip = Tip {
        area: Area { x: 0, y: 20, w: 10, h: 10 },
        font: FontSpec { px: 12, weight: FW_NORMAL },
        text: "long".to_string(),
    };
    p.take_content(vec![tip], vec![hit(0, 0, "a"), hit(5, 0, "b")], 5);
    assert!(p.click_target(6, 6));
    assert!(matches!(p.click(6, 6), Some(Action::ToggleNet(s)) if s == "a"));
    assert!(matches!(p.click(17, 6), Some(Action::ToggleNet(s)) if s == "b"));
    assert!(p.click(40, 40).is_none() && !p.click_target(40, 40));
    assert!(p.mouse_move(6, 26, None));
    assert_eq!(p.tip, Some(0));
    assert!(!p.mouse_move(7, 27, None));
    assert!(p.mouse_move(40, 40, Some(2)));
    assert_eq!((p.tip, p.hover), (None, Some(2)));
}

#[test]
fn popups_stand_on_the_screen() {
    let screen = rect(0, 0, 1000, 800);
    let tray = rect(0, 760, 1000, 800);
    assert_eq!(place(rect(400, 760, 440, 800), tray, screen, 300, 200, 8), (270, 552));
    assert_eq!(place(rect(0, 760, 40, 800), tray, screen, 300, 200, 8).0, 8);
    assert_eq!(place(rect(960, 760, 1000, 800), tray, screen, 300, 200, 8).0, 692);
    let top = rect(0, 0, 1000, 40);
    assert_eq!(place(rect(400, 0, 440, 40), top, screen, 300, 200, 8).1, 48);
}

#[test]
fn wrapping_keeps_the_words() {
    let words = ["the", "quick", "brown", "fox"];
    let mut w = Wrap::new();
    for word in words {
        let fits = w.candidate(word).len() <= 9;
        w.put(word, fits);
    }
    let mut lines = w.lines.clone();
    lines.push(w.line.clone());
    assert_eq!(lines, vec!["the quick".to_string(), "brown fox".to_string()]);
    assert_eq!(lines.join(" "), words.join(" "));
}

#[test]
fn sizes_of_the_popup() {
    assert_eq!(process_rows(3, 5), (3, 2));
    assert_eq!(process_rows(9, 5), (5, 0));
    assert_eq!(lighten(Color { r: 0, g: 155, b: 255, a: 9 }), Color { r: 76, g: 185, b: 255, a: 9 });
    let (bar, start) = core_bars(100, 4, 2, 3, 1, 0);
    assert_eq!((bar, start), (22, 3));
    let row = BarRow { label: 110, before: 6, after: 8, value: 64, height: 6 };
    assert_eq!(row.bar(272, 40, 30, 16), Area { x: 116, y: 45, w: 84, h: 6 });
    assert_eq!(row.bar(272, 40, 70, 3), Area { x: 116, y: 39, w: 78, h: 6 });
    let t = tooltip(Area { x: 5, y: 50, w: 20, h: 10 }, 200, 80, 14, 2, 6, 4, 3);
    assert_eq!((t.w, t.h), (92, 36));
    assert_eq!(EIGHT_TENTHS, 0.8f32.to_bits());
    let accent = Color { r: 1, g: 2, b: 3, a: 255 };
    let fill = |x: f32| fill_color(Single { bits: x.to_bits() }, accent);
    assert_eq!((fill(0.8), fill(0.81), fill(0.9), fill(0.91)), (accent, yellow(), yellow(), red()));
    assert_ne!(empty_list_key(ProcMode::Io), empty_list_key(ProcMode::Cpu));
}

fn iface(alias: &str, kind: &'static str) -> NetIface {
    NetIface {
        luid: 1,
        guid: 1,
        alias: alias.to_string(),
        description: "Card".to_string(),
        kind,
        up: true,
        rx_bps: Double::zero(),
        tx_bps: Double::zero(),
        ip: "10.0.0.2".to_string(),
        ssid: String::new(),
        enabled: true,
    }
}

#[test]
fn popups_have_content() {
    let tr = Translator::new();
    let mut m = MetricsData::empty();
    m.cpu_name = "Some CPU".to_string();
    m.net_ifaces = vec![iface("MY ETHERNET", "Ethernet"), iface("Port 2", "Wi-Fi")];
    for kind in [Kind::Cpu, Kind::Gpu, Kind::Mem, Kind::Disk, Kind::Net, Kind::Battery] {
        let list = content(kind, &m, &tr);
        assert!(matches!(&list[0], Element::Title { .. }), "{:?}", kind);
    }
    let texts: Vec<String> = content(Kind::Net, &m, &tr)
        .into_iter()
        .filter_map(|e| match e {
            Element::Row { label, .. } => Some(label),
            _ => None,
        })
        .collect();
    assert!(texts.iter().any(|s| s == "    Card \u{b7} 10.0.0.2"), "{:?}", texts);
    assert!(texts.iter().any(|s| s == "    Card \u{b7} Wi-Fi \u{b7} 10.0.0.2"), "{:?}", texts);
    assert_eq!(describe_iface(&iface("x", "Wi-Fi"), "wi-fi 2", "wi-fi"), "Card \u{b7} 10.0.0.2");
    let clicks = content(Kind::Net, &m, &tr)
        .into_iter()
        .filter(|e| matches!(e, Element::Click(Action::ToggleNet(_))))
        .count();
    assert_eq!(clicks, 2);
    m.cpu_total = Single { bits: 0.25f32.to_bits() };
    let shares = content(Kind::Cpu, &m, &tr)
        .into_iter()
        .filter(|e| matches!(e, Element::Row { value: Figure::Percent(p), .. } if *p == m.cpu_total))
        .count();
    assert_eq!(shares, 1);
}

// ---------------------------------------------------------------------------
// The taskbar

#[test]
fn strip_goes_on_the_taskbar() {
    let client = rect(0, 0, 1000, 40);
    assert_eq!(taskbar::place(client, Some(900), 200, "right", 0), rect(700, 0, 900, 40));
    assert_eq!(taskbar::place(client, None, 200, "right", 10), rect(790, 0, 990, 40));
    assert_eq!(taskbar::place(client, Some(900), 200, "left", 10), rect(10, 0, 210, 40));
    assert_eq!(taskbar::place(client, Some(100), 200, "right", 0), rect(0, 0, 200, 40));
    let strip = rect(700, 0, 900, 40);
    let tasks = rect(50, 0, 880, 40);
    let moved = taskbar::move_task_list(strip, tasks, tasks, "right").unwrap();
    assert_eq!(moved, rect(50, 0, 698, 40));
    assert_eq!(taskbar::move_task_list(strip, tasks, moved, "right"), None);
    let moved = taskbar::move_task_list(rect(0, 0, 200, 40), tasks, tasks, "left").unwrap();
    assert_eq!(moved, rect(202, 0, 880, 40));
    assert_eq!((taskbar::dpi_or_default(0), taskbar::dpi_or_default(144)), (96, 144));
    assert!(taskbar::covers(&vec![1, 2, 3], 3) && !taskbar::covers(&vec![1, 2], 3));
    assert!(!taskbar::covers(&(0..600).collect(), 550));
}

// ---------------------------------------------------------------------------
// The about window

fn sizes() -> Sizes {
    Sizes {
        w: 300,
        h: 280,
        close_right: 12,
        close_top: 8,
        close_pad: 6,
        logo: 64,
        logo_top: 30,
        logo_pad: 8,
        bar_gap: 2,
        under_logo: 10,
        under_name: 4,
        under_version: 8,
        under_copyright: 12,
        between_links: 6,
        link_pad: 3,
    }
}

#[test]
fn about_window() {
    let e = |w: i32, h: i32| Extent { w, h };
    let texts = Texts {
        close: e(10, 14),
        name: e(80, 20),
        version: e(60, 14),
        copyright: e(200, 14),
        repo: e(150, 14),
        license: e(70, 14),
    };
    let l = about::lay_out(sizes(), texts);
    assert_eq!(l.close, rect(278, 8, 288, 22));
    assert_eq!(l.logo, rect(118, 30, 182, 94));
    assert_eq!(l.name, rect(110, 104, 190, 124));
    assert_eq!(l.bars.len(), 7);
    let mut a = About::new();
    a.visible = true;
    a.links = links_of(&l, sizes());
    assert!(a.is_link_at(l.repo.left, l.repo.top) && !a.is_link_at(280, 10));
    assert!(matches!(a.click(l.repo.left, l.repo.top), Click::Open(u) if u == about::REPO_URL));
    assert!(matches!(a.click(l.license.left, l.license.top), Click::Open(u) if u == about::LICENSE_URL));
    assert!(matches!(a.click(0, 0), Click::Nothing) && a.visible);
    assert!(matches!(a.click(280, 10), Click::Close) && !a.visible);
    assert!(!a.close());
    assert_eq!(pad_rect(rect(5, 5, 9, 9), 2), rect(3, 3, 11, 11));
    assert_eq!(centre(rect(0, 0, 1000, 800), 300, 280), (350, 260));
    assert_eq!(version_text(&Translator::new(), "0.2.0"), "about.version");
    assert!(copyright_text(2026).contains("2026"));
}

// ---------------------------------------------------------------------------
// Menus that stay open

#[test]
fn sticky_entries_are_taken() {
    let mut t = Track::new();
    let sticky = Target { id: 200, sticky: true, state: 0 };
    assert!(!t.takes(Press::Up, None));
    assert!(t.takes(Press::Down, Some(sticky)));
    assert!(!t.takes(Press::Other, Some(sticky)));
    assert!(t.takes(Press::Up, None));
    assert!(!t.takes(Press::Up, None));
    for other in [
        Target { id: 0, ..sticky },
        Target { id: NONE, ..sticky },
        Target { sticky: false, ..sticky },
        Target { state: NONE, ..sticky },
        Target { state: 1, ..sticky },
        Target { state: 2, ..sticky },
    ] {
        assert!(!t.takes(Press::Down, Some(other)));
    }
    assert!(t.takes(Press::Down, Some(Target { state: HILITE, ..sticky })));
    assert!(!t.takes(Press::Down, None));
}

#[test]
fn open_menus_take_over_fresh_ones() {
    assert_eq!(sync_entry(false, false, 5, 5), EntrySync::Copy);
    assert_eq!(sync_entry(false, false, 5, 6), EntrySync::Leave);
    assert_eq!(sync_entry(true, true, 5, 6), EntrySync::Descend);
    assert_eq!(sync_entry(true, false, 5, 5), EntrySync::Leave);
    assert_eq!(merge_state(0x88, 0x01), 0x08);
    assert_eq!(merge_state(0x08, 0x81), 0x88);
    let class = wide("#32768");
    assert!(is_menu_window(&class[..6]) && !is_menu_window(&class) && !is_menu_window(&class[..5]));
}

#[test]
fn colour_squares() {
    assert_eq!((square_size(7), square_size(16)), (10, 16));
    let c = Color { r: 200, g: 100, b: 10, a: 255 };
    assert_eq!(rim(c), Color { r: 140, g: 70, b: 7, a: 255 });
    assert_eq!(square_pixel(c, 16, 16), 0xff_c8_64_0a);
    assert_eq!(square_pixel(c, 0, 0), 0);
    assert_eq!(square_pixel(c, 0, 16), 0xff_8c_46_07);
    assert_eq!(square_pixel(c, 4, 8) >> 24, 127);
}

// ---------------------------------------------------------------------------
// Pixels

#[test]
fn framebuffers_are_laid_over() {
    let mut c = Canvas::new();
    c.resize(4, 3);
    assert_eq!(c.px.len(), 12);
    assert_eq!(c.used_height(), 0);
    let mut s = Canvas::new();
    s.resize(2, 2);
    s.px = vec![0xff11_2233, 0, 0xff44_5566, 0x8000_0000];
    c.blit(&s, 3, 1);
    assert_eq!(c.px[7], 0xff11_2233);
    assert_eq!(c.px[11], 0xff44_5566);
    assert_eq!(c.px.iter().filter(|p| **p != 0).count(), 2);
    c.blit(&s, -1, -1);
    assert_eq!(c.px[0], 0x8000_0000);
    assert_eq!(c.used_height(), 3);
    c.clear();
    assert!(c.px.iter().all(|p| *p == 0));
    assert_eq!(pixel_over(0xff01_0203, 0x8011_1111), 0xff01_0203);
    assert_eq!(pixel_over(0, 0x8011_1111), 0x8011_1111);
}

#[test]
fn charts_show_the_last_samples() {
    let p = chart_plan(10, 48, 120).unwrap();
    assert_eq!((p.stretched, p.columns, p.x, p.skipped), (false, 48, 10, 72));
    let p = chart_plan(10, 48, 1).unwrap();
    assert_eq!((p.stretched, p.columns, p.x, p.skipped), (true, 48, 10, 0));
    let p = chart_plan(10, 48, 48).unwrap();
    assert_eq!((p.stretched, p.columns, p.x, p.skipped), (false, 48, 10, 0));
    let p = chart_plan(10, 48, 30).unwrap();
    assert_eq!((p.stretched, p.columns, p.x), (true, 48, 10));
    assert_eq!(chart_plan(10, 0, 5), None);
    assert_eq!(chart_plan(10, 48, 0), None);
}

#[test]
fn text_is_clipped_and_covered() {
    let list = clip_candidates("abc");
    assert!(list.iter().all(|s| s.ends_with('\u{2026}')), "{:?}", list);
    assert_eq!(coverage_mask(&[0x00ff_ffff, 0, 0x0003_0201, 0xff00_00ff]), vec![255, 0, 2, 85]);
    assert_eq!(clip_range(-5, 20, 10), (0, 10));
    assert_eq!(clip_range(3, 4, 10), (3, 7));
}
