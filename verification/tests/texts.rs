//! Strings, numbers as text, sizes, translations, versions.

use winstats::i18n::{detect, locale_names, parse, Locale, Translator};
use winstats::number::{Double, Single};
use winstats::order::{sort_by_keys, Descending, Pair, StrMap};
use winstats::text;
use winstats::update::{
    fetch_latest, finding, is_enough, is_newer, json_string, newer, response_text, take_result,
    Prompt,
};
use winstats::util::{
    accent_color, autostart_names, autostart_value, format_bytes, format_duration, format_size, is_windows11,
    is_windows7, log_line, strip_zeros, system_light_theme, wide, wide_text,
};

#[test]
fn version_compare() {
    assert!(is_newer("0.1.5", "0.1.4"));
    assert!(is_newer("0.2.0", "0.1.9"));
    assert!(is_newer("1.0", "0.9.9"));
    assert!(!is_newer("0.1.4", "0.1.4"));
    assert!(!is_newer("0.1.3", "0.1.4"));
}

#[test]
fn tag_from_json() {
    let j = r#"{"url":"x","tag_name": "v0.1.4","name":"winstats 0.1.4"}"#;
    assert_eq!(json_string(j, "tag_name").as_deref(), Some("v0.1.4"));
}

#[test]
fn versions_are_one_way_and_transitive() {
    let list = ["0.1", "0.1.0", "0.1.1", "0.9", "0.10", "1", "1.0.0.1", "x.y", ""];
    for a in list {
        assert!(!is_newer(a, a));
        for b in list {
            assert!(!(is_newer(a, b) && is_newer(b, a)));
            for c in list {
                if is_newer(a, b) && is_newer(b, c) {
                    assert!(is_newer(a, c));
                }
            }
        }
    }
    assert!(!is_newer("0.1.0", "0.1") && !is_newer("0.1", "0.1.0"));
    assert!(is_newer("0.10", "0.9"));
}

#[test]
fn json_without_the_key() {
    assert_eq!(json_string(r#"{"tag": "v1"}"#, "tag_name"), None);
    assert_eq!(json_string(r#"{"tag_name" 1}"#, "tag_name"), None);
    assert_eq!(json_string(r#"{"tag_name": 1}"#, "tag_name"), None);
    assert_eq!(json_string(r#"{"tag_name": "v1"#, "tag_name"), None);
    assert_eq!(json_string("{\"tag_name\" :\n\t\"v1\"", "tag_name").as_deref(), Some("v1"));
    let as_value = r#"{"name":"tag_name","tag_name":"v0.1.4"}"#;
    assert_eq!(json_string(as_value, "tag_name").as_deref(), Some("v0.1.4"));
    let as_number = r#"{"tag_name": 1, "tag_name": "v2", "tag_name": "v3"}"#;
    assert_eq!(json_string(as_number, "tag_name").as_deref(), Some("v2"));
    assert_eq!(json_string("", "tag_name"), None);
}

#[test]
fn latest_release() {
    let ok = |s: &str| fetch_latest(Ok(s.to_string()));
    assert_eq!(ok(r#"{"tag_name":"v0.3.0"}"#), Ok("0.3.0".to_string()));
    assert_eq!(ok(r#"{"tag_name":"0.3.0"}"#), Ok("0.3.0".to_string()));
    assert_eq!(ok("{}"), Err("no tag_name in the response".to_string()));
    assert_eq!(fetch_latest(Err("offline".to_string())), Err("offline".to_string()));
    assert!(!is_enough(1 << 20) && is_enough((1 << 20) + 1));
    let mut slot = Some(ok(r#"{"tag_name":"v0.3.0"}"#));
    assert_eq!(take_result(&mut slot), Some(Ok("0.3.0".to_string())));
    assert_eq!(take_result(&mut slot), None);
}

#[test]
fn findings() {
    let tr = Translator::new();
    let found: Result<String, String> = Ok("0.3.0".to_string());
    let same: Result<String, String> = Ok("0.2.0".to_string());
    let failed: Result<String, String> = Err("offline".to_string());
    assert_eq!(newer(&found, "0.2.0").as_deref(), Some("0.3.0"));
    assert_eq!(newer(&same, "0.2.0"), None);
    assert_eq!(newer(&failed, "0.2.0"), None);
    assert_eq!(finding(&tr, &found, "0.2.0").1, Prompt::Question);
    assert_eq!(finding(&tr, &same, "0.2.0").1, Prompt::Information);
    assert_eq!(finding(&tr, &failed, "0.2.0").1, Prompt::Error);
}

#[test]
fn answers_are_decoded() {
    assert_eq!(response_text("gr\u{fc}n".as_bytes()), "gr\u{fc}n");
    assert_eq!(response_text(&[0x61, 0xff, 0x62]), "a\u{fffd}b");
}

#[test]
fn wide_strings() {
    assert_eq!(wide("ab"), vec![97, 98, 0]);
    assert_eq!(wide(""), vec![0]);
    let s = "\u{1f600}\u{e9}z";
    let mut expected: Vec<u16> = s.encode_utf16().collect();
    expected.push(0);
    assert_eq!(wide(s), expected);
    assert_eq!(wide_text(&wide(s)), s);
    assert_eq!(wide_text(&[72, 105, 0, 0, 0]), "Hi");
    assert_eq!(wide_text(&[0xd800, 65]), "\u{fffd}A");
    assert_eq!(wide_text(&[0xd834, 0xdd1e, 0xdd1e, 0xd834]), "\u{1d11e}\u{fffd}\u{fffd}");
    assert_eq!(wide_text(&wide("\u{10ffff}\u{ffff}")), "\u{10ffff}\u{ffff}");
    assert_eq!(strip_zeros("a\0b\0\0"), "a\0b");
}

fn plain_bytes(b: u64) -> String {
    let f = b as f64;
    const K: f64 = 1024.0;
    if f < K * K {
        format!("{:.0} KB", f / K)
    } else if f < K * K * K {
        format!("{:.0} MB", f / K / K)
    } else if f < K * K * K * K {
        format!("{:.1} GB", f / K / K / K)
    } else {
        format!("{:.2} TB", f / K / K / K / K)
    }
}

fn plain_size(b: u64) -> String {
    let f = b as f64;
    const K: f64 = 1024.0;
    if f < K * K * K {
        format!("{:.0} MB", f / K / K)
    } else if f < K * K * K * K {
        format!("{:.2} GB", f / K / K / K)
    } else {
        format!("{:.2} TB", f / K / K / K / K)
    }
}

#[test]
fn sizes_as_text() {
    assert_eq!(format_bytes(0), "0 KB");
    assert_eq!(format_bytes(512), "0 KB");
    assert_eq!(format_bytes(1536), "2 KB");
    assert_eq!(format_bytes(2560), "2 KB");
    assert_eq!(format_bytes(1 << 20), "1 MB");
    assert_eq!(format_bytes(16 << 30), "16.0 GB");
    assert_eq!(format_bytes(3 << 39), "1.50 TB");
    assert_eq!(format_size(16 << 30), "16.00 GB");
    assert_eq!(format_size(512 << 20), "512 MB");
    assert_eq!(format_size(u64::MAX), "16777216.00 TB");
}

#[test]
fn sizes_agree_with_float_formatting() {
    let mut list: Vec<u64> = vec![0, 1, 511, 512, 513, 1023, 1024, u64::MAX, u64::MAX - 1];
    for shift in 9..64 {
        let p = 1u64 << shift;
        for d in [0, 1, 2, 3, 511, 512, 1000, 1023, 1024, 1025] {
            list.push(p.wrapping_add(d));
            list.push(p.wrapping_sub(d));
            list.push(p.wrapping_add(p / 2).wrapping_add(d));
            list.push(p.wrapping_add(p / 4).wrapping_sub(d));
        }
    }
    let mut x: u64 = 88172645463325252;
    for i in 0..20000 {
        x ^= x << 13;
        x ^= x >> 7;
        x ^= x << 17;
        list.push(x >> (i % 64));
    }
    for gib20 in 0..4000u64 {
        list.push(gib20 * ((1 << 30) / 20));
        list.push(gib20 * ((1u64 << 40) / 200));
    }
    for b in list {
        assert_eq!(format_bytes(b), plain_bytes(b), "{}", b);
        assert_eq!(format_size(b), plain_size(b), "{}", b);
    }
}

#[test]
fn durations_as_text() {
    assert_eq!(format_duration(0), "0 min");
    assert_eq!(format_duration(59), "0 min");
    assert_eq!(format_duration(3599), "59 min");
    assert_eq!(format_duration(5 * 3600 + 7 * 60 + 3), "5h 07m");
    assert_eq!(format_duration(360_000), "100h 00m");
}

#[test]
fn windows_versions_and_settings() {
    assert!(is_windows7(7601) && !is_windows7(9200));
    assert!(is_windows11(22000) && !is_windows11(21999));
    assert!(system_light_theme(Some(1)));
    assert!(!system_light_theme(Some(0)) && !system_light_theme(None));
    let c = accent_color(0xff12_3456);
    assert_eq!((c.r, c.g, c.b, c.a), (0x12, 0x34, 0x56, 255));
    assert_eq!(autostart_value("C:\\w s.exe"), "\"C:\\w s.exe\"");
    assert!(autostart_names(Some("\"C:\\w s.exe\""), "C:\\w s.exe"));
    assert!(autostart_names(Some("C:\\w s.exe"), "C:\\w s.exe"));
    assert!(autostart_names(Some("\"C:\\w s.exe\" -q"), "C:\\w s.exe"));
    assert!(autostart_names(Some("c:\\W s.EXE -q"), "C:\\w s.exe"));
    assert!(!autostart_names(Some("\"C:\\other.exe\""), "C:\\w s.exe"));
    assert!(!autostart_names(Some("C:\\w s.exe.bak"), "C:\\w s.exe"));
    assert!(!autostart_names(Some("\"C:\\w s.exe2\""), "C:\\w s.exe"));
    assert!(!autostart_names(None, "C:\\w s.exe"));
    assert_eq!(log_line(12, "hi"), "[12] hi");
}

#[test]
fn strings() {
    assert_eq!(text::trim(" \u{2003}a b\n"), "a b");
    assert_eq!(text::squeeze("  a   b "), "a b");
    assert_eq!(text::split("a,,b", ','), vec!["a", "", "b"]);
    assert_eq!(text::split_words(" a\tb  c"), vec!["a", "b", "c"]);
    assert_eq!(text::join(&vec!["a".to_string(), "b".to_string()], ", "), "a, b");
    assert_eq!(text::replace("a{x}b{x}", "{x}", "1"), "a1b1");
    assert_eq!(text::replace("aaa", "aa", "b"), "aaa".replace("aa", "b"));
    assert_eq!(text::ascii_lower("A\u{c4}z"), "a\u{c4}z");
    assert_eq!(text::ascii_upper("a\u{e4}Z"), "A\u{e4}Z");
    assert!(text::contains("winstats", "stat") && !text::contains("win", "wins"));
    assert!(text::contains("", "") && text::starts_with("ab", "a"));
    assert_eq!(text::hex_number(0xbeef, 8, false), "0000beef");
    assert_eq!(text::hex_number(0xbeef, 2, true), "BEEF");
    assert_eq!(text::two_digits(7), "07");
    assert_eq!(text::signed_number(-120), "-120");
    assert_eq!(text::signed_number(i64::MIN), i64::MIN.to_string());
    assert!(text::is_piece("a,b", ",", "b") && !text::is_piece("a,b", ",", "a,b"));
    assert!(text::precedes("Z", "a") && text::precedes("a", "ab") && !text::precedes("a", "a"));
}

#[test]
fn numbers_are_read_back() {
    for n in [0, 1, 9, 10, 99, 100, 12345, u64::MAX] {
        assert_eq!(text::number(n), n.to_string());
        assert_eq!(text::parse_u64(&text::number(n)), Some(n));
    }
    for s in ["", "-1", "+", "+7", "007", "1 ", "1x", "18446744073709551616", "4294967296"] {
        assert_eq!(text::parse_u64(s), s.parse().ok(), "{}", s);
        assert_eq!(text::parse_u32(s), s.parse().ok(), "{}", s);
    }
}

#[test]
fn float_bits_order_as_floats() {
    let list = [
        f32::NEG_INFINITY, -1.5, -0.0, 0.0, f32::MIN_POSITIVE, 0.6, 1.0, 2.0, f32::INFINITY,
        f32::NAN,
    ];
    for a in list {
        for b in list {
            let (x, y) = (Single { bits: a.to_bits() }, Single { bits: b.to_bits() });
            assert_eq!(x.less(y), a < b);
            let (p, q) = (a as f64, b as f64);
            let (x, y) = (Double { bits: p.to_bits() }, Double { bits: q.to_bits() });
            assert_eq!(x.less(y), p < q);
            assert_eq!(x.is_positive(), p > 0.0);
        }
        let s = Single { bits: a.to_bits() };
        assert_eq!(s.is_nan(), a.is_nan());
        if !a.is_nan() {
            assert_eq!(f32::from_bits(s.clamp_unit().bits), a.clamp(0.0, 1.0));
        }
    }
    assert_eq!(Single::one().bits, 1f32.to_bits());
    assert_eq!(Double::zero().bits, 0f64.to_bits());
}

#[test]
fn sorting_is_stable() {
    let items = vec!["b1", "a1", "b2", "a2", "c"];
    let keys: Vec<String> = items.iter().map(|s| s[..1].to_string()).collect();
    assert_eq!(sort_by_keys(items.clone(), &keys), vec!["a1", "a2", "b1", "b2", "c"]);
    let keys: Vec<Pair<Descending<u64>, u64>> =
        vec![(1, 5), (2, 1), (1, 4), (2, 0), (1, 5)]
            .into_iter()
            .map(|(a, b)| Pair(Descending(a), b))
            .collect();
    assert_eq!(sort_by_keys(items, &keys), vec!["a2", "a1", "b2", "b1", "c"]);
}

#[test]
fn string_maps_stay_sorted() {
    let mut m: StrMap<u32> = StrMap::new();
    for (k, v) in [("b", 1), ("a", 2), ("c", 3), ("b", 4)] {
        m.insert(k.to_string(), v);
    }
    let keys: Vec<&str> = m.entries.iter().map(|e| e.0.as_str()).collect();
    assert_eq!(keys, vec!["a", "b", "c"]);
    assert_eq!(m.get("b"), Some(&4));
    assert_eq!(m.remove("a"), Some(2));
    assert_eq!(m.remove("a"), None);
    assert!(!m.contains_key("a") && m.contains_key("c"));
}

fn locales() -> Vec<Locale> {
    let locale = |code: &str, name: &str, text: &str| Locale {
        code: code.to_string(),
        name: name.to_string(),
        text: text.to_string(),
    };
    vec![
        locale(
            "en",
            "English",
            "hello = \"Hello\"\nnumber = 7\n[popup]\ncpu = \"{name}: {n} of {n}\"\nonly = \"English\"\n[popup.deep]\nx = true\n",
        ),
        locale("de", "Deutsch", "hello = \"Hallo\"\n[popup]\ncpu = \"{n} bei {name}\"\n"),
        locale("xx", "Broken", "[popup\n"),
    ]
}

#[test]
fn documents_are_flattened() {
    let t = parse(&locales(), "en");
    assert_eq!(t.get("hello").map(|s| s.as_str()), Some("Hello"));
    assert_eq!(t.get("number").map(|s| s.as_str()), Some("7"));
    assert_eq!(t.get("popup.only").map(|s| s.as_str()), Some("English"));
    assert_eq!(t.get("popup.deep.x").map(|s| s.as_str()), Some("true"));
    assert!(t.get("popup").is_none());
    assert!(parse(&locales(), "xx").is_empty());
    assert!(parse(&locales(), "fr").is_empty());
    let mut list = locales();
    list[1].text =
        "at = [2024-02-29T23:59:60.5-23:59, 2024-01-01, 07:32:00]\nf = 1.5\n".to_string();
    let t = parse(&list, "de");
    assert_eq!(
        t.get("at").map(|s| s.as_str()),
        Some("[2024-02-29T23:59:60.5-23:59, 2024-01-01, 07:32:00]")
    );
    assert_eq!(t.get("f").map(|s| s.as_str()), Some("1.5"));
}

#[test]
fn the_last_language_counts() {
    let keys = ["hello", "number", "popup.only", "popup.cpu", "nothing"];
    for last in ["de", "en", "fr", "xx", "auto", ""] {
        let mut fresh = Translator::new();
        fresh.set_language(&locales(), last, 0x0407);
        let mut used = Translator::new();
        for before in ["en", "xx", "de", "fr"] {
            used.set_language(&locales(), before, 0x0409);
        }
        used.set_language(&locales(), last, 0x0407);
        for key in keys {
            assert_eq!(used.t(key), fresh.t(key), "{} {}", last, key);
        }
    }
}

#[test]
fn languages_fall_back() {
    let mut tr = Translator::new();
    assert_eq!(tr.t("popup.only"), "popup.only");
    tr.set_language(&locales(), "de", 0);
    assert_eq!(tr.current, "de");
    assert_eq!(tr.t("hello"), "Hallo");
    assert_eq!(tr.t("popup.only"), "English");
    assert_eq!(tr.t("nothing"), "nothing");
    assert_eq!(tr.tf("popup.cpu", &[("n", "3"), ("name", "CPU")]), "3 bei CPU");
    tr.set_language(&locales(), "fr", 0);
    assert_eq!(tr.current, "en");
    assert_eq!(tr.tf("popup.cpu", &[("n", "3"), ("name", "CPU")]), "CPU: 3 of 3");
    tr.set_language(&locales(), "auto", 0x0407);
    assert_eq!(tr.current, "de");
    tr.set_language(&locales(), "", 0x0409);
    assert_eq!(tr.current, "en");
    tr.set_language(&locales(), "xx", 0);
    assert_eq!(tr.current, "xx");
    assert_eq!(tr.t("hello"), "Hello");
}

#[test]
fn placeholders_are_replaced_in_order() {
    let mut tr = Translator::new();
    tr.set_language(&locales(), "en", 0);
    assert_eq!(tr.tf("popup.cpu", &[("name", "{n}"), ("n", "2")]), "2: 2 of 2");
    assert_eq!(tr.tf("popup.cpu", &[]), "{name}: {n} of {n}");
}

#[test]
fn every_language_is_listed_once() {
    let names = locale_names();
    assert_eq!(names.len(), 29);
    assert_eq!(names[0], ("en", "English"));
    for (i, a) in names.iter().enumerate() {
        for b in &names[i + 1..] {
            assert_ne!(a.0, b.0);
        }
    }
    for id in 0..=u16::MAX {
        let code = detect(id);
        assert!(names.iter().any(|n| n.0 == code), "{} {}", id, code);
    }
    assert_eq!(detect(0x0807), "de-CH");
    assert_eq!(detect(0x0c0c), "fr-CA");
    assert_eq!(detect(0x0809), "en-GB");
    assert_eq!(detect(0x0404), "zh-Hant");
    assert_eq!(detect(0x0804), "zh");
}
