//! Small helpers: wide strings, sizes and durations as text, Windows versions.

use crate::canvas::Color;
use crate::text;
use vstd::prelude::*;
use vstd::string::StringExecFns;

verus! {

// ---------------------------------------------------------------------------
// Wide strings

/// The UTF-16 code units of one character.
pub open spec fn utf16_units(c: char) -> Seq<u16> {
    let n = c as u32;
    if n < 0x1_0000 {
        seq![n as u16]
    } else {
        seq![(0xd800 + (n - 0x1_0000) / 0x400) as u16, (0xdc00 + (n - 0x1_0000) % 0x400) as u16]
    }
}

/// The UTF-16 encoding of a string.
pub open spec fn utf16(s: Seq<char>) -> Seq<u16>
    decreases s.len(),
{
    if s.len() == 0 {
        Seq::empty()
    } else {
        utf16(s.drop_last()) + utf16_units(s.last())
    }
}

/// A UTF-16 buffer with a closing zero.
pub fn wide(s: &str) -> (r: Vec<u16>)
    ensures
        r@ == utf16(s@).push(0),
{
    let cs: Vec<char> = text::chars_of(s);
    let mut r: Vec<u16> = Vec::new();
    let mut i: usize = 0;
    while i < cs.len()
        invariant
            cs@ == s@,
            i <= cs.len(),
            r@ == utf16(s@.take(i as int)),
        decreases cs.len() - i,
    {
        let c: char = cs[i];
        let n: u32 = c as u32;
        let ghost r0 = r@;
        proof {
            assert(s@.take(i + 1).drop_last() =~= s@.take(i as int));
            assert(s@.take(i + 1).last() == c);
        }
        if n < 0x1_0000 {
            r.push(n as u16);
        } else {
            let m: u32 = n - 0x1_0000;
            assert(m < 0x10_0000) by {
                vstd::utf8::char_is_scalar(c);
            }
            r.push((0xd800 + m / 0x400) as u16);
            r.push((0xdc00 + m % 0x400) as u16);
        }
        assert(r@ =~= r0 + utf16_units(c));
        i += 1;
    }
    assert(s@.take(s@.len() as int) =~= s@);
    r.push(0);
    r
}

/// A code unit that is half of a pair.
pub open spec fn is_surrogate(u: u16) -> bool {
    0xd800 <= u <= 0xdfff
}

/// The code point of a pair of surrogates.
pub open spec fn paired(high: u16, low: u16) -> u32 {
    (0x1_0000 + (high - 0xd800) * 0x400 + (low - 0xdc00)) as u32
}

/// What a buffer of UTF-16 code units reads as: each pair of surrogates is one
/// character, a surrogate without a partner reads as the replacement character,
/// and every other unit is its code point.
pub open spec fn utf16_lossy(units: Seq<u16>) -> Seq<char>
    decreases units.len(),
{
    if units.len() == 0 {
        Seq::empty()
    } else if !is_surrogate(units[0]) {
        seq![units[0] as u32 as char] + utf16_lossy(units.skip(1))
    } else if units[0] < 0xdc00 && units.len() > 1 && 0xdc00 <= units[1] <= 0xdfff {
        seq![paired(units[0], units[1]) as char] + utf16_lossy(units.skip(2))
    } else {
        seq!['\u{fffd}'] + utf16_lossy(units.skip(1))
    }
}

/// `String::from_utf16_lossy` decodes UTF-16 and puts the replacement
/// character where a surrogate has no partner.
#[verifier::external_body]
pub(crate) fn from_wide(units: &[u16]) -> (r: String)
    ensures
        r@ == utf16_lossy(units@),
{
    String::from_utf16_lossy(units)
}

/// The encoding of a string begins with that of its first character.
proof fn lemma_utf16_front(s: Seq<char>)
    requires
        s.len() > 0,
    ensures
        utf16(s) == utf16_units(s[0]) + utf16(s.skip(1)),
    decreases s.len(),
{
    if s.len() == 1 {
        assert(s.drop_last() =~= Seq::<char>::empty());
        assert(s.skip(1) =~= Seq::<char>::empty());
        assert(utf16(s.drop_last()).len() == 0 && utf16(s.skip(1)).len() == 0);
        assert(s.last() == s[0]);
        assert(utf16(s) =~= utf16(s.drop_last()) + utf16_units(s[0]));
        assert(utf16(s) =~= utf16_units(s[0]));
    } else {
        lemma_utf16_front(s.drop_last());
        assert(s.drop_last().skip(1) =~= s.skip(1).drop_last());
        assert(s.drop_last()[0] == s[0]);
        assert(s.skip(1).last() == s.last());
        assert(utf16(s) =~= utf16_units(s[0]) + utf16(s.skip(1)));
    }
}

/// A string reads as itself after it was encoded; a wide buffer reads as the
/// string with its closing zero, which the text of the buffer leaves out.
pub proof fn law_wide_round_trip(s: Seq<char>)
    ensures
        utf16_lossy(utf16(s)) == s,
        utf16_lossy(utf16(s).push(0)) == s.push('\0'),
        without_zeros(utf16_lossy(utf16(s).push(0))) == without_zeros(s),
        s.len() > 0 && s.last() != '\0' ==> without_zeros(utf16_lossy(utf16(s).push(0))) == s,
{
    lemma_decode(s);
    let t = s.push('\0');
    lemma_decode(t);
    assert(t.drop_last() =~= s);
    assert(utf16(t) =~= utf16(s).push(0));
    assert(t.last() == '\0');
    assert(without_zeros(t) == without_zeros(s));
    if s.len() > 0 && s.last() != '\0' {
        assert(without_zeros(s) == s);
    }
}

proof fn lemma_decode(s: Seq<char>)
    ensures
        utf16_lossy(utf16(s)) == s,
    decreases s.len(),
{
    if s.len() > 0 {
        let c = s[0];
        let rest = utf16(s.skip(1));
        lemma_utf16_front(s);
        lemma_decode(s.skip(1));
        vstd::utf8::char_is_scalar(c);
        let u = utf16_units(c) + rest;
        let n = c as u32;
        vstd::utf8::char_u32_cast(c, n);
        if n < 0x1_0000 {
            assert(u.skip(1) =~= rest);
            assert(u[0] == n);
            assert(!is_surrogate(u[0]));
            assert(u[0] as u32 == n);
        } else {
            let m = n - 0x1_0000;
            assert(u.skip(2) =~= rest);
            assert(u[0] == 0xd800 + m / 0x400 && u[1] == 0xdc00 + m % 0x400);
            assert(is_surrogate(u[0]) && u[0] < 0xdc00 && 0xdc00 <= u[1] <= 0xdfff);
            assert(paired(u[0], u[1]) == n);
        }
        assert(utf16_lossy(u) =~= seq![c] + s.skip(1));
        assert(s =~= seq![c] + s.skip(1));
    }
}

/// Without the closing zeros.
pub open spec fn without_zeros(s: Seq<char>) -> Seq<char> {
    text::skip_back(s, text::is_char('\0'))
}

pub fn strip_zeros(s: &str) -> (r: String)
    ensures
        r@ == without_zeros(s@),
{
    text::strip_trailing(s, '\0')
}

/// The text of a fixed wide buffer: decoded, without the closing zeros.
pub fn wide_text(units: &[u16]) -> (r: String)
    ensures
        r@ == without_zeros(utf16_lossy(units@)),
{
    let s: String = from_wide(units);
    strip_zeros(s.as_str())
}

// ---------------------------------------------------------------------------
// UTF-8

/// `String::from_utf8_lossy`: what a byte string reads as.
pub uninterp spec fn utf8_lossy(bytes: Seq<u8>) -> Seq<char>;

/// `String::from_utf8_lossy` decodes UTF-8 and puts the replacement character
/// where bytes are invalid; the result depends on the bytes alone, and valid
/// UTF-8 reads as what it encodes.
#[verifier::external_body]
pub(crate) fn from_utf8(bytes: &[u8]) -> (r: String)
    ensures
        r@ == utf8_lossy(bytes@),
        vstd::utf8::valid_utf8(bytes@) ==> r@ == vstd::utf8::decode_utf8(bytes@),
{
    String::from_utf8_lossy(bytes).to_string()
}

// ---------------------------------------------------------------------------
// Sizes

pub const KIB: u64 = 1024;

pub const MIB: u64 = 1048576;

pub const GIB: u64 = 1073741824;

pub const TIB: u64 = 1099511627776;

/// The quotient rounded to the nearest integer, a half to the even one.
pub open spec fn round_half_even(n: nat, d: nat) -> nat {
    let q = n / d;
    let r = n % d;
    if 2 * r < d || (2 * r == d && q % 2 == 0) {
        q
    } else {
        q + 1
    }
}

/// The distance between neighbouring numbers with 53 bits at the size of `n`.
pub open spec fn spacing(n: nat) -> nat
    decreases n,
{
    if n < 0x20_0000_0000_0000 {
        1
    } else {
        2 * spacing(n / 2)
    }
}

/// The nearest number that fits in 53 bits, a tie to the even one: what a
/// count of bytes becomes before it is divided.
pub open spec fn as_double(n: nat) -> nat {
    round_half_even(n, spacing(n)) * spacing(n)
}

/// `n / d` with this many decimals (at most two), rounded, a half to even.
pub open spec fn fixed(n: nat, d: nat, decimals: nat) -> Seq<char> {
    if decimals == 0 {
        text::decimal(round_half_even(n, d))
    } else if decimals == 1 {
        let v = round_half_even(n * 10, d);
        text::decimal(v / 10) + seq!['.'] + text::padded(v % 10, 1)
    } else {
        let v = round_half_even(n * 100, d);
        text::decimal(v / 100) + seq!['.'] + text::padded(v % 100, 2)
    }
}

/// A size in kilobytes, megabytes, gigabytes or terabytes.
pub open spec fn bytes_text(b: nat) -> Seq<char> {
    let f = as_double(b);
    if f < MIB {
        fixed(f, KIB as nat, 0) + " KB"@
    } else if f < GIB {
        fixed(f, MIB as nat, 0) + " MB"@
    } else if f < TIB {
        fixed(f, GIB as nat, 1) + " GB"@
    } else {
        fixed(f, TIB as nat, 2) + " TB"@
    }
}

/// A size in megabytes, gigabytes or terabytes.
pub open spec fn size_text(b: nat) -> Seq<char> {
    let f = as_double(b);
    if f < GIB {
        fixed(f, MIB as nat, 0) + " MB"@
    } else if f < TIB {
        fixed(f, GIB as nat, 2) + " GB"@
    } else {
        fixed(f, TIB as nat, 2) + " TB"@
    }
}

pub(crate) fn round_div(n: u128, d: u128) -> (r: u128)
    requires
        0 < d <= 0x1_0000_0000_0000_0000,
        n < 0x1_0000_0000_0000_0000_0000_0000,
    ensures
        r == round_half_even(n as nat, d as nat),
        r <= n / d + 1,
{
    let q: u128 = n / d;
    let r: u128 = n % d;
    assert(q <= n) by (nonlinear_arith)
        requires
            q == n / d,
            d > 0,
    ;
    if 2 * r < d || (2 * r == d && q % 2 == 0) {
        q
    } else {
        q + 1
    }
}

proof fn lemma_spacing(n: nat, k: nat)
    requires
        k >= 1,
        n / k < 0x20_0000_0000_0000,
        k > 1 ==> n / k >= 0x10_0000_0000_0000,
        is_power(k),
    ensures
        spacing(n) == k,
    decreases k,
{
    if k == 1 {
    } else {
        assert(k % 2 == 0 && is_power(k / 2));
        assert(n / k == n / 2 / (k / 2)) by (nonlinear_arith)
            requires
                k % 2 == 0,
                k > 1,
        {
            vstd::arithmetic::div_mod::lemma_div_denominator(n as int, 2, (k / 2) as int);
            assert(2 * (k / 2) == k);
        }
        assert(n >= 0x20_0000_0000_0000) by (nonlinear_arith)
            requires
                n / k >= 0x10_0000_0000_0000,
                k >= 2,
        ;
        if k / 2 > 1 {
            lemma_spacing(n / 2, k / 2);
        } else {
            lemma_spacing(n / 2, 1);
        }
    }
}

/// A power of two.
spec fn is_power(k: nat) -> bool
    decreases k,
{
    k == 1 || (k > 1 && k % 2 == 0 && is_power(k / 2))
}

fn to_double(b: u64) -> (r: u128)
    ensures
        r == as_double(b as nat),
        r <= 0x1_0000_0000_0000_0000,
{
    let n: u128 = b as u128;
    let mut k: u128 = 1;
    assert(is_power(1nat));
    assert(n / 1 == n);
    while n / k >= 0x20_0000_0000_0000
        invariant
            n == b,
            1 <= k <= 2048,
            is_power(k as nat),
            k > 1 ==> n / k >= 0x10_0000_0000_0000,
        decreases 4096 - k,
    {
        assert(k < 2048) by (nonlinear_arith)
            requires
                n / k >= 0x20_0000_0000_0000,
                n <= 0xffff_ffff_ffff_ffff,
                k >= 1,
        ;
        assert(is_power((2 * k) as nat)) by {
            assert((2 * k) / 2 == k);
        }
        assert(n as int / (2 * k) >= 0x10_0000_0000_0000) by (nonlinear_arith)
            requires
                n / k >= 0x20_0000_0000_0000,
                k >= 1,
        ;
        assert(k <= 1024) by {
            lemma_power_bound(k as nat);
        }
        k = 2 * k;
    }
    proof {
        lemma_spacing(n as nat, k as nat);
        assert(n / k <= n / 1) by (nonlinear_arith)
            requires
                k >= 1,
        ;
    }
    let q: u128 = round_div(n, k);
    assert(q * k <= 0x1_0000_0000_0000_0000) by {
        lemma_rounded_bound(n as nat, k as nat);
    }
    q * k
}

proof fn lemma_power_bound(k: nat)
    requires
        is_power(k),
        k < 2048,
    ensures
        k <= 1024,
{
    reveal_with_fuel(is_power, 12);
}

proof fn lemma_rounded_bound(n: nat, k: nat)
    requires
        is_power(k),
        k <= 2048,
        n < 0x1_0000_0000_0000_0000,
    ensures
        round_half_even(n, k) * k <= 0x1_0000_0000_0000_0000,
{
    assert(0x1_0000_0000_0000_0000nat % k == 0) by {
        lemma_power_divides(k);
    }
    let t = 0x1_0000_0000_0000_0000nat / k;
    assert(t * k == 0x1_0000_0000_0000_0000) by (nonlinear_arith)
        requires
            0x1_0000_0000_0000_0000nat % k == 0,
            t == 0x1_0000_0000_0000_0000nat / k,
            k > 0,
    ;
    assert(n / k < t) by (nonlinear_arith)
        requires
            n < t * k,
            k > 0,
    ;
    let q = round_half_even(n, k);
    assert(q <= t);
    assert(q * k <= t * k) by (nonlinear_arith)
        requires
            q <= t,
    ;
}

proof fn lemma_power_divides(k: nat)
    requires
        is_power(k),
        k <= 2048,
    ensures
        k > 0,
        0x1_0000_0000_0000_0000nat % k == 0,
{
    reveal_with_fuel(is_power, 13);
    let top = 0x1_0000_0000_0000_0000nat;
    assert(top % 1 == 0 && top % 2 == 0 && top % 4 == 0 && top % 8 == 0 && top % 16 == 0 && top % 32
        == 0 && top % 64 == 0 && top % 128 == 0 && top % 256 == 0 && top % 512 == 0 && top % 1024
        == 0 && top % 2048 == 0);
    assert(k == 1 || k == 2 || k == 4 || k == 8 || k == 16 || k == 32 || k == 64 || k == 128 || k
        == 256 || k == 512 || k == 1024 || k == 2048);
}

fn fixed0(n: u128, d: u64) -> (r: String)
    requires
        0 < d <= TIB,
        n <= 0x1_0000_0000_0000_0000,
        n / (d as u128) < 0x1_0000_0000_0000,
    ensures
        r@ == fixed(n as nat, d as nat, 0),
{
    let v: u128 = round_div(n, d as u128);
    text::number(v as u64)
}

fn fixed1(n: u128, d: u64) -> (r: String)
    requires
        0 < d <= TIB,
        n <= 0x1_0000_0000_0000_0000,
        n * 10 / (d as int) < 0x1_0000_0000_0000,
    ensures
        r@ == fixed(n as nat, d as nat, 1),
{
    let v: u128 = round_div(n * 10, d as u128);
    let mut r: String = text::number((v / 10) as u64);
    r.push('.');
    let t: String = text::number((v % 10) as u64);
    r.append(t.as_str());
    proof {
        let m = (v % 10) as nat;
        assert(text::decimal(m).len() == 1);
        assert(text::padded(m, 1) == text::decimal(m));
        assert(r@ =~= text::decimal((v / 10) as nat) + seq!['.'] + text::padded(m, 1));
    }
    r
}

fn fixed2(n: u128, d: u64) -> (r: String)
    requires
        0 < d <= TIB,
        n <= 0x1_0000_0000_0000_0000,
        n * 100 / (d as int) < 0x1_0000_0000_0000,
    ensures
        r@ == fixed(n as nat, d as nat, 2),
{
    let v: u128 = round_div(n * 100, d as u128);
    let mut r: String = text::number((v / 100) as u64);
    r.push('.');
    let t: String = text::two_digits((v % 100) as u64);
    r.append(t.as_str());
    assert(r@ =~= text::decimal((v / 100) as nat) + seq!['.'] + text::padded((v % 100) as nat, 2));
    r
}

pub fn format_bytes(b: u64) -> (r: String)
    ensures
        r@ == bytes_text(b as nat),
{
    let f: u128 = to_double(b);
    if f < MIB as u128 {
        let mut r: String = fixed0(f, KIB);
        r.append(" KB");
        r
    } else if f < GIB as u128 {
        let mut r: String = fixed0(f, MIB);
        r.append(" MB");
        r
    } else if f < TIB as u128 {
        let mut r: String = fixed1(f, GIB);
        r.append(" GB");
        r
    } else {
        let mut r: String = fixed2(f, TIB);
        r.append(" TB");
        r
    }
}

/// A size with two decimals for gigabytes.
pub fn format_size(b: u64) -> (r: String)
    ensures
        r@ == size_text(b as nat),
{
    let f: u128 = to_double(b);
    if f < GIB as u128 {
        let mut r: String = fixed0(f, MIB);
        r.append(" MB");
        r
    } else if f < TIB as u128 {
        let mut r: String = fixed2(f, GIB);
        r.append(" GB");
        r
    } else {
        let mut r: String = fixed2(f, TIB);
        r.append(" TB");
        r
    }
}

/// Below 2^53 bytes the count is divided as it is; only larger counts are
/// rounded first.
pub proof fn law_small_counts_are_exact(n: nat)
    requires
        n < 0x20_0000_0000_0000,
    ensures
        as_double(n) == n,
{
    assert(n / 1 == n && n % 1 == 0);
    assert(round_half_even(n, 1) == n);
    assert(spacing(n) == 1);
    assert(n * 1 == n);
}

/// Hours and minutes, or minutes alone below one hour.
pub open spec fn duration_text(secs: nat) -> Seq<char> {
    let h = secs / 3600;
    let m = secs % 3600 / 60;
    if h > 0 {
        text::decimal(h) + "h "@ + text::padded(m, 2) + "m"@
    } else {
        text::decimal(m) + " min"@
    }
}

pub fn format_duration(secs: u32) -> (r: String)
    ensures
        r@ == duration_text(secs as nat),
{
    let h: u32 = secs / 3600;
    let m: u32 = (secs % 3600) / 60;
    if h > 0 {
        let mut r: String = text::number(h as u64);
        r.append("h ");
        r.append(text::two_digits(m as u64).as_str());
        r.append("m");
        r
    } else {
        let mut r: String = text::number(m as u64);
        r.append(" min");
        r
    }
}

// ---------------------------------------------------------------------------
// Windows versions and theme, from the values read from the system

/// Windows 8 is build 9200; anything older cannot host layered child windows.
pub fn is_windows7(build: u32) -> (r: bool)
    ensures
        r == (build < 9200),
{
    build < 9200
}

pub fn is_windows11(build: u32) -> (r: bool)
    ensures
        r == (build >= 22000),
{
    build >= 22000
}

/// Whether the taskbar theme is light, from the registry value
/// `SystemUsesLightTheme`, where there is one.
pub fn system_light_theme(value: Option<u32>) -> (r: bool)
    ensures
        r == (value == Some(1u32)),
{
    match value {
        Some(v) => v == 1,
        None => false,
    }
}

/// `r` is the accent of the system, of which the opacity is not taken.
pub open spec fn is_accent(argb: int, r: Color) -> bool {
    &&& r.r == argb / 0x1_0000 % 256
    &&& r.g == argb / 0x100 % 256
    &&& r.b == argb % 256
    &&& r.a == 255
}

/// The accent colour in the number that the system gives: red, green and blue
/// from the third byte down.
pub fn accent_color(argb: u32) -> (r: Color)
    ensures
        is_accent(argb as int, r),
{
    Color {
        r: (argb / 0x1_0000 % 256) as u8,
        g: (argb / 0x100 % 256) as u8,
        b: (argb % 256) as u8,
        a: 255,
    }
}

/// The entry that starts a program with the system: its path in quotes.
pub open spec fn autostart_text(exe: Seq<char>) -> Seq<char> {
    "\""@ + exe + "\""@
}

pub fn autostart_value(exe: &str) -> (r: String)
    ensures
        r@ == autostart_text(exe@),
{
    let mut s: String = "\"".to_string();
    s.append(exe);
    s.append("\"");
    s
}

/// The program that an entry names: the text between leading quotes, else the
/// whole entry.
pub open spec fn program_of(run: Seq<char>) -> Seq<char> {
    if run.len() > 0 && run[0] == '"' {
        let rest = run.skip(1);
        match text::find_from(rest, seq!['"'], 0) {
            Some(end) => rest.take(end),
            None => rest,
        }
    } else {
        run
    }
}

/// An entry points at the program `exe`: it names the program, or it is the path
/// without quotes with arguments behind a space. Capital and small letters of a
/// path are the same to Windows.
pub open spec fn points_at(run: Seq<char>, exe: Seq<char>) -> bool {
    let (r, e) = (text::lower(run), text::lower(exe));
    ||| program_of(r) == e
    ||| text::occurs_at(r, e + seq![' '], 0)
}

/// Whether the entry that starts a program with the system, where there is one,
/// points at the program `exe`.
pub fn autostart_names(run: Option<&str>, exe: &str) -> (r: bool)
    ensures
        r == (match run {
            Some(s) => points_at(s@, exe@),
            None => false,
        }),
{
    match run {
        Some(s) => {
            let low: String = text::ascii_lower(s);
            let mut e: String = text::ascii_lower(exe);
            let named: String = program(low.as_str());
            if text::same(named.as_str(), e.as_str()) {
                return true;
            }
            e.push(' ');
            assert(e@ =~= text::lower(exe@) + seq![' ']);
            text::starts_with(low.as_str(), e.as_str())
        },
        None => false,
    }
}

fn program(run: &str) -> (r: String)
    ensures
        r@ == program_of(run@),
{
    let a: Vec<char> = text::chars_of(run);
    if a.len() == 0 || a[0] != '"' {
        return run.to_string();
    }
    let rest: Vec<char> = text::slice_of(a.as_slice(), 1, a.len());
    assert(rest@ =~= run@.skip(1));
    let mut quote: Vec<char> = Vec::new();
    quote.push('"');
    assert(quote@ =~= seq!['"']);
    match text::search(rest.as_slice(), quote.as_slice(), 0) {
        Some(end) => {
            proof {
                text::lemma_find_from(rest@, seq!['"'], 0);
            }
            let t: Vec<char> = text::slice_of(rest.as_slice(), 0, end);
            assert(t@ =~= rest@.take(end as int));
            text::string_of(t.as_slice())
        },
        None => text::string_of(rest.as_slice()),
    }
}

/// The entry that is written for a program points at it; a path holds no quotes.
pub proof fn law_written_entry_names_the_program(exe: Seq<char>)
    requires
        !exe.contains('"'),
    ensures
        points_at(autostart_text(exe), exe),
{
    reveal_strlit("\"");
    let run = autostart_text(exe);
    let (r, e) = (text::lower(run), text::lower(exe));
    assert(run =~= seq!['"'] + exe + seq!['"']);
    assert(r =~= seq!['"'] + e + seq!['"']);
    let rest = r.skip(1);
    let q = seq!['"'];
    let n = e.len() as int;
    text::lemma_find_from(rest, q, 0);
    assert(rest.subrange(n, n + 1) =~= q);
    assert(text::occurs_at(rest, q, n));
    assert forall|j: int| 0 <= j < n implies !#[trigger] text::occurs_at(rest, q, j) by {
        if text::occurs_at(rest, q, j) {
            assert(rest.subrange(j, j + 1)[0] == '"');
            assert(rest[j] == e[j]);
            assert(exe[j] == '"');
            assert(exe.contains(exe[j]));
        }
    }
    assert(text::find_from(rest, q, 0) == Some(n));
    assert(rest.take(n) =~= e);
}

/// A line of the log: the time in seconds and the message.
pub fn log_line(secs: u64, msg: &str) -> (r: String)
    ensures
        r@ == "["@ + text::decimal(secs as nat) + "] "@ + msg@,
{
    let mut s: String = "[".to_string();
    s.append(text::number(secs).as_str());
    s.append("] ");
    s.append(msg);
    s
}

/// Rounding gives the nearest integer: it is off by no more than half a unit, and
/// by nothing where the number is a multiple.
pub proof fn law_rounding_is_nearest(n: nat, d: nat)
    requires
        d > 0,
    ensures
        2 * (round_half_even(n, d) * d - n) <= d,
        2 * (n - round_half_even(n, d) * d) <= d,
        n % d == 0 ==> round_half_even(n, d) * d == n,
{
    let q = n / d;
    let r = n % d;
    assert(q * d + r == n && r < d) by (nonlinear_arith)
        requires
            d > 0,
            q == n / d,
            r == n % d,
    ;
    assert((q + 1) * d == q * d + d) by (nonlinear_arith);
}

proof fn lemma_whole(k: nat, d: nat)
    requires
        d > 0,
    ensures
        round_half_even(k * d, d) == k,
{
    assert((k * d) / d == k && (k * d) % d == 0) by (nonlinear_arith)
        requires
            d > 0,
    ;
}

/// Whole numbers of kilobytes, megabytes, gigabytes and terabytes are shown as
/// that number of the unit.
pub proof fn law_whole_sizes_are_shown_as_such(k: nat)
    requires
        1 <= k < 1024,
    ensures
        bytes_text(k * KIB as nat) == text::decimal(k) + " KB"@,
        bytes_text(k * MIB as nat) == text::decimal(k) + " MB"@,
        bytes_text(k * GIB as nat) == text::decimal(k) + ".0"@ + " GB"@,
        bytes_text(k * TIB as nat) == text::decimal(k) + ".00"@ + " TB"@,
        size_text(k * MIB as nat) == text::decimal(k) + " MB"@,
        size_text(k * GIB as nat) == text::decimal(k) + ".00"@ + " GB"@,
        size_text(k * TIB as nat) == text::decimal(k) + ".00"@ + " TB"@,
{
    law_small_counts_are_exact(k * KIB as nat);
    law_small_counts_are_exact(k * MIB as nat);
    law_small_counts_are_exact(k * GIB as nat);
    law_small_counts_are_exact(k * TIB as nat);
    lemma_whole(k, KIB as nat);
    lemma_whole(k, MIB as nat);
    lemma_whole(k * 10, GIB as nat);
    lemma_whole(k * 100, GIB as nat);
    lemma_whole(k * 100, TIB as nat);
    assert((k * GIB as nat) * 10 == (k * 10) * GIB as nat);
    assert((k * GIB as nat) * 100 == (k * 100) * GIB as nat);
    assert((k * TIB as nat) * 100 == (k * 100) * TIB as nat);
    lemma_zero_tails();
    let z1 = seq!['.'] + text::padded(0, 1);
    let z2 = seq!['.'] + text::padded(0, 2);
    assert(fixed(k * GIB as nat, GIB as nat, 1) =~= text::decimal(k) + ".0"@) by {
        assert((k * 10) / 10 == k && (k * 10) % 10 == 0);
        assert(fixed(k * GIB as nat, GIB as nat, 1) =~= text::decimal(k) + z1);
    }
    assert(fixed(k * GIB as nat, GIB as nat, 2) =~= text::decimal(k) + ".00"@) by {
        assert((k * 100) / 100 == k && (k * 100) % 100 == 0);
        assert(fixed(k * GIB as nat, GIB as nat, 2) =~= text::decimal(k) + z2);
    }
    assert(fixed(k * TIB as nat, TIB as nat, 2) =~= text::decimal(k) + ".00"@) by {
        assert((k * 100) / 100 == k && (k * 100) % 100 == 0);
        assert(fixed(k * TIB as nat, TIB as nat, 2) =~= text::decimal(k) + z2);
    }
}

proof fn lemma_zero_tails()
    ensures
        seq!['.'] + text::padded(0, 1) == ".0"@,
        seq!['.'] + text::padded(0, 2) == ".00"@,
{
    reveal_strlit(".0");
    reveal_strlit(".00");
    assert(text::decimal(0) =~= seq!['0']);
    assert(text::padded(0, 1) =~= seq!['0']);
    assert(text::padded(0, 2) =~= seq!['0', '0']);
    assert(seq!['.'] + text::padded(0, 1) =~= ".0"@);
    assert(seq!['.'] + text::padded(0, 2) =~= ".00"@);
}

/// A time is shown by its hours and minutes, and seconds that do not fill a
/// minute are left out.
pub proof fn law_durations_are_hours_and_minutes(h: nat, m: nat, s: nat)
    requires
        m < 60,
        s < 60,
    ensures
        h > 0 ==> duration_text(3600 * h + 60 * m + s) == text::decimal(h) + "h "@ + text::padded(
            m,
            2,
        ) + "m"@,
        duration_text(60 * m + s) == text::decimal(m) + " min"@,
{
    assert((3600 * h + 60 * m + s) / 3600 == h);
    assert((3600 * h + 60 * m + s) % 3600 == 60 * m + s);
    assert((60 * m + s) / 60 == m);
}

/// The accent has the red, the green and the blue of the system's, and is opaque
/// whatever that is.
pub proof fn law_accent_is_that_of_the_system(a: int, red: int, green: int, blue: int, r: Color)
    requires
        0 <= a < 256 && 0 <= red < 256 && 0 <= green < 256 && 0 <= blue < 256,
        is_accent(a * 0x100_0000 + red * 0x1_0000 + green * 0x100 + blue, r),
    ensures
        r.r == red && r.g == green && r.b == blue && r.a == 255,
{
    text::lemma_quotient(a * 0x100 + red, green * 0x100 + blue, 0x1_0000);
    text::lemma_quotient(a, red, 0x100);
    text::lemma_quotient(a * 0x1_0000 + red * 0x100 + green, blue, 0x100);
    text::lemma_quotient(a * 0x100 + red, green, 0x100);
}

} // verus!
