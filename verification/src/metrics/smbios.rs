//! Memory modules from the SMBIOS table (structures of type 17).

use crate::text;
use crate::util;
use vstd::prelude::*;
use vstd::string::StringExecFns;

verus! {

#[derive(Clone, Debug)]
pub struct MemModule {
    pub slot: String,
    pub bank: String,
    pub mem_type: &'static str,
    /// Rated speed in MT/s.
    pub speed: u32,
    /// Configured speed in MT/s (0 when the table does not carry it).
    pub configured_speed: u32,
    pub manufacturer: String,
    pub part: String,
    pub size: u64,
}

/// A populated module as the table has it: texts are still bytes, absent
/// texts are empty.
#[derive(Clone, Debug, PartialEq)]
pub struct RawModule {
    pub slot: Vec<u8>,
    pub bank: Vec<u8>,
    pub kind: u8,
    pub speed: u32,
    pub configured_speed: u32,
    pub manufacturer: Vec<u8>,
    pub part: Vec<u8>,
    pub size: u64,
}

// ---------------------------------------------------------------------------
// The table

pub open spec fn type_text(t: u8) -> Seq<char> {
    if t == 0x03 {
        "DRAM"@
    } else if t == 0x0f {
        "SDRAM"@
    } else if t == 0x12 {
        "DDR"@
    } else if t == 0x13 {
        "DDR2"@
    } else if t == 0x14 {
        "DDR2 FB-DIMM"@
    } else if t == 0x18 {
        "DDR3"@
    } else if t == 0x1a {
        "DDR4"@
    } else if t == 0x1b {
        "LPDDR"@
    } else if t == 0x1c {
        "LPDDR2"@
    } else if t == 0x1d {
        "LPDDR3"@
    } else if t == 0x1e {
        "LPDDR4"@
    } else if t == 0x20 {
        "HBM"@
    } else if t == 0x21 {
        "HBM2"@
    } else if t == 0x22 {
        "DDR5"@
    } else if t == 0x23 {
        "LPDDR5"@
    } else if t == 0x24 {
        "HBM3"@
    } else {
        ""@
    }
}

/// The name of a memory type.
pub fn memory_type_name(t: u8) -> (r: &'static str)
    ensures
        r@ == type_text(t),
{
    match t {
        0x03 => "DRAM",
        0x0f => "SDRAM",
        0x12 => "DDR",
        0x13 => "DDR2",
        0x14 => "DDR2 FB-DIMM",
        0x18 => "DDR3",
        0x1a => "DDR4",
        0x1b => "LPDDR",
        0x1c => "LPDDR2",
        0x1d => "LPDDR3",
        0x1e => "LPDDR4",
        0x20 => "HBM",
        0x21 => "HBM2",
        0x22 => "DDR5",
        0x23 => "LPDDR5",
        0x24 => "HBM3",
        _ => "",
    }
}

/// The first zero byte from `from` on, or the end.
pub open spec fn zero_from(b: Seq<u8>, from: int) -> int
    decreases b.len() - from,
{
    if from >= b.len() {
        b.len() as int
    } else if b[from] == 0 {
        from
    } else {
        zero_from(b, from + 1)
    }
}

/// The bytes of string `index`, counted from one, in a string area: strings
/// end in a zero, and two zeros in a row end the area. Empty where there is
/// no such string.
pub open spec fn string_bytes(area: Seq<u8>, from: int, index: nat) -> Seq<u8>
    decreases index,
{
    let end = zero_from(area, from);
    if index == 0 || from < 0 || end >= area.len() {
        Seq::empty()
    } else if index == 1 {
        area.subrange(from, end)
    } else if end + 1 < area.len() && area[end + 1] == 0 {
        Seq::empty()
    } else {
        string_bytes(area, end + 1, (index - 1) as nat)
    }
}

pub proof fn lemma_zero_from(b: Seq<u8>, from: int)
    requires
        0 <= from <= b.len(),
    ensures
        from <= zero_from(b, from) <= b.len(),
        zero_from(b, from) < b.len() ==> b[zero_from(b, from)] == 0,
        forall|i: int| from <= i < zero_from(b, from) ==> b[i] != 0,
    decreases b.len() - from,
{
    if from < b.len() && b[from] != 0 {
        lemma_zero_from(b, from + 1);
    }
}

pub(crate) fn find_zero(b: &[u8], from: usize) -> (r: usize)
    requires
        from <= b@.len(),
    ensures
        r == zero_from(b@, from as int),
        from <= r <= b@.len(),
{
    let mut i: usize = from;
    while i < b.len() && b[i] != 0
        invariant
            from <= i <= b.len(),
            zero_from(b@, from as int) == zero_from(b@, i as int),
        decreases b.len() - i,
    {
        i += 1;
    }
    i
}

pub(crate) fn bytes_of(b: &[u8], i: usize, j: usize) -> (r: Vec<u8>)
    requires
        i <= j <= b@.len(),
    ensures
        r@ == b@.subrange(i as int, j as int),
{
    let mut r: Vec<u8> = Vec::new();
    let mut k: usize = i;
    while k < j
        invariant
            i <= k <= j <= b@.len(),
            r@ == b@.subrange(i as int, k as int),
        decreases j - k,
    {
        r.push(b[k]);
        k += 1;
    }
    r
}

/// The bytes of string `index` of a string area.
pub fn string_area_entry(area: &[u8], index: u8) -> (r: Vec<u8>)
    ensures
        r@ == string_bytes(area@, 0, index as nat),
{
    let mut left: u8 = index;
    let mut from: usize = 0;
    loop
        invariant
            from <= area@.len(),
            string_bytes(area@, 0, index as nat) == string_bytes(area@, from as int, left as nat),
        decreases left,
    {
        if left == 0 {
            return Vec::new();
        }
        let end: usize = find_zero(area, from);
        if end >= area.len() {
            return Vec::new();
        }
        if left == 1 {
            return bytes_of(area, from, end);
        }
        if end + 1 < area.len() && area[end + 1] == 0 {
            return Vec::new();
        }
        from = end + 1;
        left = left - 1;
    }
}

/// A text of the table: its bytes as UTF-8, without white space at the ends.
pub open spec fn text_of(bytes: Seq<u8>) -> Seq<char> {
    if bytes.len() == 0 {
        Seq::empty()
    } else {
        text::trimmed(util::utf8_lossy(bytes))
    }
}

pub(crate) fn read_text(bytes: &[u8]) -> (r: String)
    ensures
        r@ == text_of(bytes@),
{
    if bytes.len() == 0 {
        return String::new();
    }
    let s: String = util::from_utf8(bytes);
    text::trim(s.as_str())
}

/// String `index`, counted from one, from the string area that follows a
/// formatted structure.
pub fn smbios_string(strings: &[u8], index: u8) -> (r: String)
    ensures
        r@ == text_of(string_bytes(strings@, 0, index as nat)),
{
    let b: Vec<u8> = string_area_entry(strings, index);
    read_text(b.as_slice())
}

/// Two bytes, the lower first.
pub open spec fn word(b: Seq<u8>, at: int) -> nat {
    (b[at] + 0x100 * b[at + 1]) as nat
}

/// The size of a module in bytes, from its structure: zero where the slot is
/// empty or the size unknown. The size field counts megabytes, or kilobytes
/// where its top bit is set; its largest value points to the extended field.
pub open spec fn module_size(s: Seq<u8>) -> nat {
    let raw = word(s, 0x0c);
    if raw == 0x7fff && s.len() >= 0x20 {
        ((word(s, 0x1c) + 0x1_0000 * word(s, 0x1e)) % 0x8000_0000) * 1024 * 1024
    } else if raw == 0xffff || raw == 0 {
        0
    } else if raw >= 0x8000 {
        ((raw - 0x8000) * 1024) as nat
    } else {
        raw * 1024 * 1024
    }
}

/// A byte of a structure, where it is long enough to hold it.
pub open spec fn byte_or_zero(s: Seq<u8>, at: int) -> nat {
    if at < s.len() {
        s[at] as nat
    } else {
        0
    }
}

/// A word of a structure, where it is long enough to hold it.
pub open spec fn word_or_zero(s: Seq<u8>, at: int) -> nat {
    if at + 2 <= s.len() {
        word(s, at)
    } else {
        0
    }
}

/// `m` is the module that a structure of type 17 and its string area describe.
pub open spec fn describes(s: Seq<u8>, area: Seq<u8>, m: RawModule) -> bool {
    &&& m.slot@ == string_bytes(area, 0, s[0x10] as nat)
    &&& m.bank@ == string_bytes(area, 0, s[0x11] as nat)
    &&& m.kind == s[0x12]
    &&& m.speed == word_or_zero(s, 0x15)
    &&& m.configured_speed == word_or_zero(s, 0x20)
    &&& m.manufacturer@ == string_bytes(area, 0, byte_or_zero(s, 0x17))
    &&& m.part@ == string_bytes(area, 0, byte_or_zero(s, 0x1a))
    &&& m.size == module_size(s)
}

/// Where the string area that begins at `from` ends: at the first of two
/// zeros in a row, or one before the end of the table.
pub open spec fn area_end(table: Seq<u8>, from: int) -> int
    decreases table.len() - from,
{
    if from + 1 >= table.len() || (table[from] == 0 && table[from + 1] == 0) {
        from
    } else {
        area_end(table, from + 1)
    }
}

/// The formatted part of a structure and its string area.
pub struct Structure {
    pub formatted: Seq<u8>,
    pub strings: Seq<u8>,
}

/// The memory device structures of a table from `off` on, up to the end
/// marker (type 127), a structure that is cut off, or the end of the table.
pub open spec fn devices_from(table: Seq<u8>, off: int) -> Seq<Structure>
    decreases table.len() - off,
{
    if off < 0 || off + 4 > table.len() {
        Seq::empty()
    } else {
        let len = table[off + 1] as int;
        if len < 4 || off + len > table.len() || table[off] == 127 {
            Seq::empty()
        } else {
            let end = area_end(table, off + len);
            let s = table.subrange(off, off + len);
            let stop = if end + 2 <= table.len() {
                end + 2
            } else {
                table.len() as int
            };
            let area = table.subrange(off + len, stop);
            let rest = if off < end + 2 <= table.len() {
                devices_from(table, end + 2)
            } else {
                Seq::empty()
            };
            if table[off] == 17 && len >= 0x15 && module_size(s) > 0 {
                seq![Structure { formatted: s, strings: area }] + rest
            } else {
                rest
            }
        }
    }
}

/// The populated memory devices in a raw table: eight bytes of header, and
/// the structures.
pub open spec fn devices(raw: Seq<u8>) -> Seq<Structure> {
    if raw.len() < 8 {
        Seq::empty()
    } else {
        devices_from(raw.skip(8), 0)
    }
}

proof fn lemma_area_end(table: Seq<u8>, from: int)
    ensures
        from <= area_end(table, from),
        from < table.len() ==> area_end(table, from) < table.len(),
        from >= table.len() ==> area_end(table, from) == from,
    decreases table.len() - from,
{
    if from + 1 < table.len() && !(table[from] == 0 && table[from + 1] == 0) {
        lemma_area_end(table, from + 1);
    }
}

fn word_at(b: &[u8], at: usize) -> (r: u32)
    requires
        at + 2 <= b@.len(),
    ensures
        r == word(b@, at as int),
        r < 0x1_0000,
{
    b[at] as u32 + 0x100 * (b[at + 1] as u32)
}

fn size_of_module(s: &[u8]) -> (r: u64)
    requires
        s@.len() >= 0x15,
    ensures
        r == module_size(s@),
{
    let raw: u32 = word_at(s, 0x0c);
    if raw == 0x7fff && s.len() >= 0x20 {
        let lo: u64 = word_at(s, 0x1c) as u64;
        let hi: u64 = word_at(s, 0x1e) as u64;
        ((lo + 0x1_0000 * hi) % 0x8000_0000) * 1024 * 1024
    } else if raw == 0xffff || raw == 0 {
        0
    } else if raw >= 0x8000 {
        (raw - 0x8000) as u64 * 1024
    } else {
        raw as u64 * 1024 * 1024
    }
}

fn read_module(s: &[u8], area: &[u8]) -> (r: RawModule)
    requires
        s@.len() >= 0x15,
    ensures
        describes(s@, area@, r),
{
    let speed: u32 = if s.len() >= 0x17 {
        word_at(s, 0x15)
    } else {
        0
    };
    let configured_speed: u32 = if s.len() >= 0x22 {
        word_at(s, 0x20)
    } else {
        0
    };
    let maker: u8 = if s.len() >= 0x18 {
        s[0x17]
    } else {
        0
    };
    let part: u8 = if s.len() >= 0x1b {
        s[0x1a]
    } else {
        0
    };
    RawModule {
        slot: string_area_entry(area, s[0x10]),
        bank: string_area_entry(area, s[0x11]),
        kind: s[0x12],
        speed,
        configured_speed,
        manufacturer: string_area_entry(area, maker),
        part: string_area_entry(area, part),
        size: size_of_module(s),
    }
}

/// Each module is the one that its structure describes.
pub open spec fn all_described(d: Seq<Structure>, m: Seq<RawModule>) -> bool {
    &&& d.len() == m.len()
    &&& forall|i: int|
        0 <= i < d.len() ==> describes(d[i].formatted, d[i].strings, #[trigger] m[i])
}

/// The populated memory modules of a raw table.
pub fn raw_modules(raw: &[u8]) -> (r: Vec<RawModule>)
    ensures
        all_described(devices(raw@), r@),
{
    let mut out: Vec<RawModule> = Vec::new();
    if raw.len() < 8 {
        return out;
    }
    let table: Vec<u8> = bytes_of(raw, 8, raw.len());
    assert(table@ =~= raw@.skip(8));
    let mut off: usize = 0;
    let ghost mut seen: Seq<Structure> = Seq::empty();
    loop
        invariant_except_break
            all_described(seen, out@),
            seen + devices_from(table@, off as int) == devices(raw@),
        invariant
            table@ == raw@.skip(8),
            raw@.len() >= 8,
        ensures
            all_described(devices(raw@), out@),
        decreases table.len() - off,
    {
        assert(seen + Seq::<Structure>::empty() =~= seen);
        if table.len() < 4 || off > table.len() - 4 {
            break;
        }
        let len: usize = table[off + 1] as usize;
        if len < 4 || len > table.len() - off || table[off] == 127 {
            break;
        }
        let mut end: usize = off + len;
        while end < table.len() - 1 && !(table[end] == 0 && table[end + 1] == 0)
            invariant
                off + len <= end,
                off + len <= table.len(),
                4 <= table.len(),
                area_end(table@, off + len) == area_end(table@, end as int),
            decreases table.len() - end,
        {
            end += 1;
        }
        assert(end == area_end(table@, off + len));
        proof {
            lemma_area_end(table@, off + len);
        }
        let stop: usize = if table.len() >= 2 && end <= table.len() - 2 {
            end + 2
        } else {
            table.len()
        };
        let formatted: Vec<u8> = bytes_of(table.as_slice(), off, off + len);
        let strings: Vec<u8> = bytes_of(table.as_slice(), off + len, stop);
        let ghost rest = devices_from(table@, end + 2);
        let ghost seen0 = seen;
        if table[off] == 17 && len >= 0x15 && size_of_module(formatted.as_slice()) > 0 {
            let ghost cur = Structure { formatted: formatted@, strings: strings@ };
            let ghost out0 = out@;
            out.push(read_module(formatted.as_slice(), strings.as_slice()));
            proof {
                seen = seen0.push(cur);
                assert(seen0 + (seq![cur] + rest) =~= seen + rest);
                assert forall|i: int| 0 <= i < seen.len() implies describes(
                    seen[i].formatted,
                    seen[i].strings,
                    #[trigger] out@[i],
                ) by {
                    if i < seen0.len() {
                        assert(out@[i] == out0[i]);
                    }
                }
            }
        }
        if end > table.len() - 2 {
            assert(rest =~= Seq::<Structure>::empty());
            assert(seen + rest =~= seen);
            break;
        }
        off = end + 2;
    }
    out
}

/// `m` is the module with its texts read.
pub open spec fn reads_as(raw: RawModule, m: MemModule) -> bool {
    &&& m.slot@ == text_of(raw.slot@)
    &&& m.bank@ == text_of(raw.bank@)
    &&& m.mem_type@ == type_text(raw.kind)
    &&& m.speed == raw.speed
    &&& m.configured_speed == raw.configured_speed
    &&& m.manufacturer@ == text_of(raw.manufacturer@)
    &&& m.part@ == text_of(raw.part@)
    &&& m.size == raw.size
}

/// A module with its texts read.
pub fn module_text(raw: &RawModule) -> (r: MemModule)
    ensures
        reads_as(*raw, r),
{
    MemModule {
        slot: read_text(raw.slot.as_slice()),
        bank: read_text(raw.bank.as_slice()),
        mem_type: memory_type_name(raw.kind),
        speed: raw.speed,
        configured_speed: raw.configured_speed,
        manufacturer: read_text(raw.manufacturer.as_slice()),
        part: read_text(raw.part.as_slice()),
        size: raw.size,
    }
}

/// Each module is the one that its structure describes, with its texts read.
pub open spec fn all_read(d: Seq<Structure>, m: Seq<MemModule>) -> bool {
    &&& d.len() == m.len()
    &&& forall|i: int| 0 <= i < d.len() ==> module_read(d[i].formatted, d[i].strings, #[trigger] m[i])
}

/// `m` is the module that a structure and its string area describe, with its
/// texts read.
pub open spec fn module_read(s: Seq<u8>, area: Seq<u8>, m: MemModule) -> bool {
    &&& m.slot@ == text_of(string_bytes(area, 0, s[0x10] as nat))
    &&& m.bank@ == text_of(string_bytes(area, 0, s[0x11] as nat))
    &&& m.mem_type@ == type_text(s[0x12])
    &&& m.speed == word_or_zero(s, 0x15)
    &&& m.configured_speed == word_or_zero(s, 0x20)
    &&& m.manufacturer@ == text_of(string_bytes(area, 0, byte_or_zero(s, 0x17)))
    &&& m.part@ == text_of(string_bytes(area, 0, byte_or_zero(s, 0x1a)))
    &&& m.size == module_size(s)
}

/// The populated memory modules, from the raw table where the system gives
/// one.
pub fn memory_modules(raw: Option<&[u8]>) -> (r: Vec<MemModule>)
    ensures
        raw matches Some(table) ==> all_read(devices(table@), r@),
        raw.is_none() ==> r@.len() == 0,
{
    let mut out: Vec<MemModule> = Vec::new();
    if let Some(table) = raw {
        let list: Vec<RawModule> = raw_modules(table);
        let mut i: usize = 0;
        while i < list.len()
            invariant
                i <= list.len(),
                out@.len() == i,
                all_described(devices(table@), list@),
                forall|j: int|
                    #![trigger out@[j]]
                    0 <= j < i ==> module_read(
                        devices(table@)[j].formatted,
                        devices(table@)[j].strings,
                        out@[j],
                    ),
            decreases list.len() - i,
        {
            assert(describes(
                devices(table@)[i as int].formatted,
                devices(table@)[i as int].strings,
                list@[i as int],
            ));
            out.push(module_text(&list[i]));
            i += 1;
        }
    }
    out
}

// ---------------------------------------------------------------------------
// Channels and the summary

/// The characters between "channel" and the channel's id.
pub open spec fn channel_gap(c: char) -> bool {
    c == ' ' || c == '_' || c == '-' || c == '#'
}

/// The characters between "dimm" and the channel's letter.
pub open spec fn dimm_gap(c: char) -> bool {
    c == ' ' || c == '_' || c == '-'
}

pub open spec fn alphanumeric(c: char) -> bool {
    text::is_digit(c) || text::is_upper(c) || text::is_lower(c)
}

fn is_channel_gap(c: char) -> (b: bool)
    ensures
        b == channel_gap(c),
{
    c == ' ' || c == '_' || c == '-' || c == '#'
}

fn is_dimm_gap(c: char) -> (b: bool)
    ensures
        b == dimm_gap(c),
{
    c == ' ' || c == '_' || c == '-'
}

fn is_alphanumeric(c: char) -> (b: bool)
    ensures
        b == alphanumeric(c),
{
    ('0' <= c && c <= '9') || ('A' <= c && c <= 'Z') || ('a' <= c && c <= 'z')
}

/// The number behind "controller" in a locator, where it is there.
pub open spec fn controller_digits(l: Seq<char>) -> Seq<char> {
    match text::find_from(l, "controller"@, 0) {
        Some(q) => text::take_front(l.skip(q + 10), |c: char| text::is_digit(c)),
        None => Seq::empty(),
    }
}

/// The channel that a locator names with the word "channel": the number of
/// its controller, where that is named, and the id behind the word, in capitals.
pub open spec fn named_channel(locator: Seq<char>) -> Option<Seq<char>> {
    let l = text::lower(locator);
    match text::find_from(l, "channel"@, 0) {
        None => None,
        Some(p) => {
            let rest = text::skip_front(l.skip(p + 7), |c: char| channel_gap(c));
            let id = text::take_front(rest, |c: char| alphanumeric(c));
            if id.len() == 0 {
                None
            } else {
                Some(text::upper(controller_digits(l) + id))
            }
        },
    }
}

/// The letter behind "dimm" in a slot's name, as a capital, where a digit
/// follows it.
pub open spec fn dimm_letter(slot: Seq<char>) -> Option<Seq<char>> {
    let l = text::lower(slot);
    match text::find_from(l, "dimm"@, 0) {
        None => None,
        Some(p) => {
            let rest = text::skip_front(l.skip(p + 4), |c: char| dimm_gap(c));
            if rest.len() >= 2 && (text::is_upper(rest[0]) || text::is_lower(rest[0]))
                && text::is_digit(rest[1]) {
                Some(text::upper(seq![rest[0]]))
            } else {
                None
            }
        },
    }
}

/// The channel of a module: as its bank or else its slot names it, or the
/// letter in the slot's name. `None` where the locators say nothing of it.
pub open spec fn channel_of(bank: Seq<char>, slot: Seq<char>) -> Option<Seq<char>> {
    if named_channel(bank).is_some() {
        named_channel(bank)
    } else if named_channel(slot).is_some() {
        named_channel(slot)
    } else {
        dimm_letter(slot)
    }
}

/// The view of an optional string.
pub open spec fn opt_view(s: Option<String>) -> Option<Seq<char>> {
    match s {
        Some(t) => Some(t@),
        None => None,
    }
}

fn named_channel_of(locator: &str) -> (r: Option<String>)
    ensures
        opt_view(r) == named_channel(locator@),
{
    let low: String = text::ascii_lower(locator);
    let l: Vec<char> = text::chars_of(low.as_str());
    let word: Vec<char> = text::chars_of("channel");
    let ctrl: Vec<char> = text::chars_of("controller");
    proof {
        reveal_strlit("channel");
        reveal_strlit("controller");
        text::lemma_find_from(l@, "channel"@, 0);
        text::lemma_find_from(l@, "controller"@, 0);
    }
    let p: usize = match text::search(l.as_slice(), word.as_slice(), 0) {
        None => {
            return None;
        },
        Some(p) => p,
    };
    assert(p + 7 <= l.len());
    let start: usize = text::run_end(
        l.as_slice(),
        p + 7,
        is_channel_gap,
        Ghost(|c: char| channel_gap(c)),
    );
    let end: usize = text::run_end(
        l.as_slice(),
        start,
        is_alphanumeric,
        Ghost(|c: char| alphanumeric(c)),
    );
    if end == start {
        return None;
    }
    let mut r: String = String::new();
    if let Some(q) = text::search(l.as_slice(), ctrl.as_slice(), 0) {
        let stop: usize = text::run_end(
            l.as_slice(),
            q + 10,
            text::digit_class,
            Ghost(|c: char| text::is_digit(c)),
        );
        let digits: Vec<char> = text::slice_of(l.as_slice(), q + 10, stop);
        r = text::string_of(digits.as_slice());
    }
    let id: Vec<char> = text::slice_of(l.as_slice(), start, end);
    r.append(text::string_of(id.as_slice()).as_str());
    Some(text::ascii_upper(r.as_str()))
}

fn dimm_letter_of(slot: &str) -> (r: Option<String>)
    ensures
        opt_view(r) == dimm_letter(slot@),
{
    let low: String = text::ascii_lower(slot);
    let l: Vec<char> = text::chars_of(low.as_str());
    let word: Vec<char> = text::chars_of("dimm");
    proof {
        reveal_strlit("dimm");
        text::lemma_find_from(l@, "dimm"@, 0);
    }
    let p: usize = match text::search(l.as_slice(), word.as_slice(), 0) {
        None => {
            return None;
        },
        Some(p) => p,
    };
    assert(p + 4 <= l.len());
    let start: usize = text::run_end(
        l.as_slice(),
        p + 4,
        is_dimm_gap,
        Ghost(|c: char| dimm_gap(c)),
    );
    let ghost rest = l@.skip(start as int);
    if l.len() - start < 2 {
        return None;
    }
    let a: char = l[start];
    let b: char = l[start + 1];
    assert(a == rest[0] && b == rest[1]);
    if (('A' <= a && a <= 'Z') || ('a' <= a && a <= 'z')) && '0' <= b && b <= '9' {
        let mut r: String = String::new();
        r.push(a);
        assert(r@ =~= seq![rest[0]]);
        Some(text::ascii_upper(r.as_str()))
    } else {
        None
    }
}

/// Channel id of a module from its locators: "Controller0-ChannelB-DIMM0"
/// gives "0B", "ChannelA-DIMM1" gives "A", "DIMM_B2" gives "B".
pub fn channel_id(m: &MemModule) -> (r: Option<String>)
    ensures
        opt_view(r) == channel_of(m.bank@, m.slot@),
{
    let a: Option<String> = named_channel_of(m.bank.as_str());
    if a.is_some() {
        return a;
    }
    let b: Option<String> = named_channel_of(m.slot.as_str());
    if b.is_some() {
        return b;
    }
    dimm_letter_of(m.slot.as_str())
}

/// The channel of each module.
pub open spec fn channel_list(modules: Seq<MemModule>) -> Seq<Option<Seq<char>>> {
    modules.map_values(|m: MemModule| channel_of(m.bank@, m.slot@))
}

/// `r` is the number of channels that the modules name; `None` where there is
/// no module, or where one does not tell its channel.
pub open spec fn is_channel_count(modules: Seq<MemModule>, r: Option<usize>) -> bool {
    match r {
        None => modules.len() == 0 || channel_list(modules).contains(None),
        Some(n) => {
            &&& modules.len() > 0
            &&& !channel_list(modules).contains(None)
            &&& n == channel_list(modules).to_set().len()
        },
    }
}

/// Number of memory channels in use: the distinct channel ids of the modules;
/// `None` where there is no module, or where one does not tell its channel.
pub fn channels(modules: &[MemModule]) -> (r: Option<usize>)
    ensures
        is_channel_count(modules@, r),
{
    let mut ids: Vec<String> = Vec::new();
    let mut i: usize = 0;
    proof {
        assert(channel_list(modules@).take(0) =~= Seq::<Option<Seq<char>>>::empty());
        assert(channel_list(modules@).take(0).to_set() =~= Set::<Option<Seq<char>>>::empty());
    }
    while i < modules.len()
        invariant
            i <= modules.len(),
            ids.len() <= i,
            i > 0 ==> ids.len() > 0,
            forall|j: int| 0 <= j < i ==> (#[trigger] channel_list(modules@)[j]).is_some(),
            forall|a: int, b: int| 0 <= a < b < ids@.len() ==> ids@[a]@ != ids@[b]@,
            forall|j: int|
                0 <= j < i ==> exists|a: int|
                    0 <= a < ids@.len() && Some(#[trigger] ids@[a]@) == #[trigger] channel_list(
                        modules@,
                    )[j],
            forall|a: int|
                0 <= a < ids@.len() ==> channel_list(modules@).take(i as int).contains(
                    Some(#[trigger] ids@[a]@),
                ),
            channel_list(modules@).take(i as int).to_set().finite(),
            ids@.len() == channel_list(modules@).take(i as int).to_set().len(),
        decreases modules.len() - i,
    {
        let ghost list = channel_list(modules@);
        let ghost before = list.take(i as int);
        let ghost after = list.take(i + 1);
        let id: String = match channel_id(&modules[i]) {
            None => {
                assert(list[i as int].is_none());
                return None;
            },
            Some(id) => id,
        };
        assert(list[i as int] == Some(id@));
        let mut k: usize = 0;
        let mut found: bool = false;
        while k < ids.len()
            invariant
                k <= ids.len(),
                found == exists|a: int| 0 <= a < k && (#[trigger] ids@[a])@ == id@,
            decreases ids.len() - k,
        {
            if text::same(ids[k].as_str(), id.as_str()) {
                found = true;
            }
            k += 1;
        }
        proof {
            assert(after =~= before.push(list[i as int]));
            assert(after.to_set() =~= before.to_set().insert(list[i as int])) by {
                assert forall|x: Option<Seq<char>>|
                    after.to_set().contains(x) == before.to_set().insert(
                        list[i as int],
                    ).contains(x) by {
                    if after.contains(x) {
                        let w = choose|w: int| 0 <= w < after.len() && after[w] == x;
                        if w < i {
                            assert(before[w] == x);
                        }
                    }
                    if before.contains(x) {
                        let w = choose|w: int| 0 <= w < before.len() && before[w] == x;
                        assert(after[w] == x);
                    }
                    assert(after[i as int] == list[i as int]);
                }
            }
            if found {
                let a = choose|a: int| 0 <= a < ids@.len() && (#[trigger] ids@[a])@ == id@;
                assert(before.contains(Some(ids@[a]@)));
                assert(before.to_set().contains(list[i as int]));
                assert(after.to_set() =~= before.to_set());
            } else {
                if before.to_set().contains(list[i as int]) {
                    let w = choose|w: int| 0 <= w < before.len() && before[w] == list[i as int];
                    assert(list[w] == before[w]);
                    let a = choose|a: int|
                        0 <= a < ids@.len() && Some(#[trigger] ids@[a]@) == list[w];
                    assert(ids@[a]@ == id@);
                }
            }
        }
        let ghost ids0 = ids@;
        let ghost idv = id@;
        if !found {
            ids.push(id);
        }
        proof {
            assert forall|j: int| 0 <= j < i + 1 implies exists|a: int|
                0 <= a < ids@.len() && Some(#[trigger] ids@[a]@) == #[trigger] list[j] by {
                if j < i {
                    let a = choose|a: int| 0 <= a < ids0.len() && Some(#[trigger] ids0[a]@) == list[j];
                    assert(ids@[a]@ == ids0[a]@);
                } else if found {
                    let a = choose|a: int| 0 <= a < ids0.len() && (#[trigger] ids0[a])@ == idv;
                    assert(ids@[a]@ == idv);
                } else {
                    assert(ids@[ids0.len() as int]@ == idv);
                }
            }
            assert forall|a: int| 0 <= a < ids@.len() implies after.contains(
                Some(#[trigger] ids@[a]@),
            ) by {
                if a < ids0.len() {
                    assert(before.contains(Some(ids0[a]@)));
                    let w = choose|w: int| 0 <= w < before.len() && before[w] == Some(ids0[a]@);
                    assert(after[w] == before[w]);
                } else {
                    assert(after[i as int] == Some(idv));
                }
            }
        }
        i += 1;
    }
    assert(channel_list(modules@).take(i as int) =~= channel_list(modules@));
    if ids.len() == 0 {
        None
    } else {
        Some(ids.len())
    }
}

/// The number of channels depends on which channels occur, not on the order
/// or the number of the modules: two lists that name the same channels have
/// the same number.
pub proof fn law_channels_count_names(a: Seq<MemModule>, b: Seq<MemModule>)
    requires
        forall|c: Option<Seq<char>>| channel_list(a).contains(c) == channel_list(b).contains(c),
    ensures
        channel_list(a).to_set().len() == channel_list(b).to_set().len(),
{
    assert(channel_list(a).to_set() =~= channel_list(b).to_set());
}

/// The size of a module as text: whole gigabytes and terabytes without
/// decimals.
pub open spec fn module_size_text(b: u64) -> Seq<char> {
    if b % util::GIB == 0 && util::GIB <= b < util::TIB {
        text::decimal((b / util::GIB) as nat) + " GB"@
    } else if b % util::TIB == 0 && util::TIB <= b {
        text::decimal((b / util::TIB) as nat) + " TB"@
    } else {
        util::bytes_text(b as nat)
    }
}

fn format_module_size(b: u64) -> (r: String)
    ensures
        r@ == module_size_text(b),
{
    if b % util::GIB == 0 && b >= util::GIB && b < util::TIB {
        let mut r: String = text::number(b / util::GIB);
        r.append(" GB");
        r
    } else if b % util::TIB == 0 && b >= util::TIB {
        let mut r: String = text::number(b / util::TIB);
        r.append(" TB");
        r
    } else {
        util::format_bytes(b)
    }
}

/// The sizes of the modules as text.
pub open spec fn size_texts(modules: Seq<MemModule>) -> Seq<Seq<char>> {
    modules.map_values(|m: MemModule| module_size_text(m.size))
}

/// All modules have one size.
pub open spec fn same_sizes(modules: Seq<MemModule>) -> bool {
    forall|i: int| 0 <= i < modules.len() ==> (#[trigger] modules[i]).size == modules[0].size
}

/// The type and the speed of a module, as far as they are known: the
/// configured speed where it is known, else the rated one.
pub open spec fn kind_text(m: MemModule) -> Seq<char> {
    let speed = if m.configured_speed > 0 {
        m.configured_speed
    } else {
        m.speed
    };
    if speed == 0 {
        m.mem_type@
    } else {
        m.mem_type@ + (if m.mem_type@.len() > 0 {
            " "@
        } else {
            Seq::<char>::empty()
        }) + text::decimal(speed as nat) + " MT/s"@
    }
}

/// Type and speed of the first module, and the sizes: a count and one size
/// where all are equal, else every size.
pub open spec fn summary_text(modules: Seq<MemModule>) -> Seq<char> {
    let sizes = if same_sizes(modules) {
        text::decimal(modules.len()) + " x "@ + module_size_text(modules[0].size)
    } else {
        text::join_with(size_texts(modules), " + "@)
    };
    let kind = kind_text(modules[0]);
    if kind.len() > 0 {
        kind + ", "@ + sizes
    } else {
        sizes
    }
}

/// The summary; `None` without modules.
pub open spec fn summary_of(modules: Seq<MemModule>) -> Option<Seq<char>> {
    if modules.len() == 0 {
        None
    } else {
        Some(summary_text(modules))
    }
}

/// A summary such as "DDR5 6000 MT/s, 2 x 16 GB"; `None` without modules.
pub fn summary(modules: &[MemModule]) -> (r: Option<String>)
    ensures
        opt_view(r) == summary_of(modules@),
{
    if modules.len() == 0 {
        return None;
    }
    let first: &MemModule = &modules[0];
    let speed: u32 = if first.configured_speed > 0 {
        first.configured_speed
    } else {
        first.speed
    };
    let mut s: String = first.mem_type.to_string();
    let typed: bool = text::chars_of(first.mem_type).len() > 0;
    if speed > 0 {
        if typed {
            s.append(" ");
        }
        s.append(text::number(speed as u64).as_str());
        s.append(" MT/s");
        proof {
            reveal_strlit(" MT/s");
        }
    }
    assert(s@ =~= kind_text(modules@[0]));
    let known: bool = typed || speed > 0;
    assert(known == (kind_text(modules@[0]).len() > 0));
    let mut same: bool = true;
    let mut texts: Vec<String> = Vec::new();
    let mut i: usize = 0;
    while i < modules.len()
        invariant
            modules@.len() > 0,
            *first == modules@[0],
            i <= modules.len(),
            same == forall|j: int| 0 <= j < i ==> (#[trigger] modules@[j]).size == modules@[0].size,
            texts@.len() == i,
            forall|j: int|
                0 <= j < i ==> (#[trigger] texts@[j])@ == module_size_text(modules@[j].size),
        decreases modules.len() - i,
    {
        if modules[i].size != first.size {
            same = false;
        }
        texts.push(format_module_size(modules[i].size));
        i += 1;
    }
    let sizes: String = if same {
        let mut t: String = text::number(modules.len() as u64);
        t.append(" x ");
        t.append(format_module_size(first.size).as_str());
        t
    } else {
        text::join(&texts, " + ")
    };
    assert(text::views(texts@) =~= size_texts(modules@));
    if known {
        s.append(", ");
    }
    s.append(sizes.as_str());
    assert(s@ =~= summary_text(modules@));
    Some(s)
}

/// A size field says megabytes, and with its top bit set the same number of
/// kilobytes; the extended field says megabytes too, and of an empty slot or one
/// of unknown size nothing is said.
pub proof fn law_size_fields_agree(s: Seq<u8>, t: Seq<u8>)
    requires
        s.len() >= 0x20,
        t.len() >= 0x20,
    ensures
        0 < word(s, 0x0c) < 0x7fff && word(t, 0x0c) == word(s, 0x0c) + 0x8000 ==> module_size(s)
            == 1024 * module_size(t),
        0 < word(s, 0x0c) < 0x7fff && word(t, 0x0c) == 0x7fff && word(t, 0x1c) == word(s, 0x0c)
            && word(t, 0x1e) == 0 ==> module_size(t) == module_size(s),
        0 < word(s, 0x0c) < 0x7fff ==> module_size(s) == word(s, 0x0c) * 0x10_0000,
        word(s, 0x0c) == 0 || word(s, 0x0c) == 0xffff ==> module_size(s) == 0,
{
}

proof fn lemma_zero_behind(b: Seq<u8>, from: int, n: int)
    requires
        0 <= from <= n < b.len(),
        b[n] == 0,
        forall|i: int| from <= i < n ==> b[i] != 0,
    ensures
        zero_from(b, from) == n,
    decreases n - from,
{
    if from < n {
        lemma_zero_behind(b, from + 1, n);
    }
}

proof fn lemma_zero_shift(b: Seq<u8>, at: int, from: int)
    requires
        0 <= at,
        0 <= from,
        at + from <= b.len(),
    ensures
        zero_from(b, at + from) == at + zero_from(b.skip(at), from),
    decreases b.len() - at - from,
{
    if at + from < b.len() {
        assert(b.skip(at)[from] == b[at + from]);
        if b[at + from] != 0 {
            lemma_zero_shift(b, at, from + 1);
        }
    }
}

proof fn lemma_strings_shift(b: Seq<u8>, at: int, from: int, index: nat)
    requires
        0 <= at,
        0 <= from,
        at + from <= b.len(),
    ensures
        string_bytes(b, at + from, index) == string_bytes(b.skip(at), from, index),
    decreases index,
{
    lemma_zero_shift(b, at, from);
    lemma_zero_from(b, at + from);
    let end = zero_from(b, at + from);
    if index > 0 && end < b.len() {
        assert(b.subrange(at + from, end) =~= b.skip(at).subrange(from, end - at));
        if index > 1 {
            if end + 1 < b.len() {
                assert(b.skip(at)[end + 1 - at] == b[end + 1]);
            }
            if !(end + 1 < b.len() && b[end + 1] == 0) {
                lemma_strings_shift(b, at, end + 1 - at, (index - 1) as nat);
            }
        }
    }
}

/// A string area is read back as it was written: the first string is what stands
/// before the first zero, and each string behind it is one further than in the
/// area that is left without the first.
pub proof fn law_strings_are_read_back(first: Seq<u8>, rest: Seq<u8>, index: nat)
    requires
        forall|i: int| 0 <= i < first.len() ==> #[trigger] first[i] != 0,
        rest.len() > 0,
        rest[0] != 0,
        index >= 1,
    ensures
        string_bytes(first.push(0) + rest, 0, 1) == first,
        string_bytes(first.push(0) + rest, 0, index + 1) == string_bytes(rest, 0, index),
        string_bytes(first.push(0) + rest, 0, 0).len() == 0,
{
    let b = first.push(0) + rest;
    let n = first.len() as int;
    assert(b[n] == 0);
    assert forall|i: int| 0 <= i < n implies b[i] != 0 by {
        assert(b[i] == first[i]);
    }
    lemma_zero_behind(b, 0, n);
    assert(b.subrange(0, n) =~= first);
    assert(b[n + 1] == rest[0]);
    lemma_strings_shift(b, n + 1, 0, index);
    assert(b.skip(n + 1) =~= rest);
}

proof fn lemma_two_zeros(table: Seq<u8>, from: int, end: int)
    requires
        0 <= from <= end,
        end + 2 <= table.len(),
        table[end] == 0 && table[end + 1] == 0,
        forall|j: int| from <= j < end ==> !(#[trigger] table[j] == 0 && table[j + 1] == 0),
    ensures
        area_end(table, from) == end,
    decreases end - from,
{
    if from < end {
        assert(!(table[from] == 0 && table[from + 1] == 0));
        lemma_two_zeros(table, from + 1, end);
    }
}

/// A structure ends with the two zeros behind its strings, and the next one begins
/// there: one of a memory device that is fitted is listed with its strings, one of
/// another kind, or of an empty slot, is passed over.
pub proof fn law_structures_follow_each_other(table: Seq<u8>, off: int, len: int, end: int)
    requires
        0 <= off,
        4 <= len,
        off + 4 <= table.len(),
        table[off + 1] == len,
        table[off] != 127,
        off + len <= end,
        end + 2 <= table.len(),
        table[end] == 0 && table[end + 1] == 0,
        forall|j: int| off + len <= j < end ==> !(#[trigger] table[j] == 0 && table[j + 1] == 0),
    ensures
        table[off] == 17 && len >= 0x15 && module_size(table.subrange(off, off + len)) > 0
            ==> devices_from(table, off).len() > 0 && devices_from(table, off)[0] == (Structure {
            formatted: table.subrange(off, off + len),
            strings: table.subrange(off + len, end + 2),
        }) && devices_from(table, off).skip(1) == devices_from(table, end + 2),
        table[off] != 17 || module_size(table.subrange(off, off + len)) == 0 ==> devices_from(
            table,
            off,
        ) == devices_from(table, end + 2),
{
    lemma_two_zeros(table, off + len, end);
    let s = table.subrange(off, off + len);
    let d = Structure { formatted: s, strings: table.subrange(off + len, end + 2) };
    let rest = devices_from(table, end + 2);
    if table[off] == 17 && len >= 0x15 && module_size(s) > 0 {
        assert(devices_from(table, off) == seq![d] + rest);
        assert((seq![d] + rest).skip(1) =~= rest);
    }
}

/// The list ends at the end of the table or at its closing structure.
pub proof fn law_list_ends_at_the_closing_structure(table: Seq<u8>, off: int)
    requires
        0 <= off,
    ensures
        off + 4 > table.len() || table[off] == 127 ==> devices_from(table, off).len() == 0,
{
}

/// The channel of a module is told by its bank before its slot, in any case of the
/// letters, and is written in capitals.
pub proof fn law_bank_goes_before_slot(bank: Seq<char>, slot: Seq<char>, other: Seq<char>)
    ensures
        named_channel(bank).is_some() ==> channel_of(bank, slot) == named_channel(bank),
        named_channel(bank).is_none() && named_channel(slot).is_some() ==> channel_of(bank, slot)
            == named_channel(slot),
        text::lower(other) == text::lower(bank) ==> channel_of(other, slot) == channel_of(bank, slot),
        text::lower(other) == text::lower(slot) ==> channel_of(bank, other) == channel_of(bank, slot),
{
}

/// Modules of one size are counted, others are listed one by one; in front stands
/// the kind with the speed that they run at.
pub proof fn law_modules_are_summed_up(modules: Seq<MemModule>)
    requires
        modules.len() > 0,
        modules[0].mem_type@.len() > 0,
        modules[0].configured_speed > 0,
    ensures
        ({
            let kind = modules[0].mem_type@ + " "@ + text::decimal(
                modules[0].configured_speed as nat,
            ) + " MT/s"@;
            &&& (forall|i: int|
                0 <= i < modules.len() ==> (#[trigger] modules[i]).size == modules[0].size)
                ==> summary_of(modules) == Some(
                kind + ", "@ + (text::decimal(modules.len()) + " x "@ + module_size_text(
                    modules[0].size,
                )),
            )
            &&& (exists|i: int|
                0 <= i < modules.len() && (#[trigger] modules[i]).size != modules[0].size)
                ==> summary_of(modules) == Some(
                kind + ", "@ + text::join_with(size_texts(modules), " + "@),
            )
        }),
        summary_of(Seq::<MemModule>::empty()).is_none(),
{
    let m = modules[0];
    assert(kind_text(m) =~= m.mem_type@ + " "@ + text::decimal(m.configured_speed as nat)
        + " MT/s"@);
}

/// A module is told by its structure: its speeds by two bytes each, the lower one
/// first, its texts by the strings whose numbers the structure gives, and where the
/// structure is too short for a speed there is none.
pub proof fn law_module_is_told_by_its_structure(s: Seq<u8>, area: Seq<u8>, m: MemModule)
    requires
        module_read(s, area, m),
        s.len() >= 0x15,
    ensures
        s.len() >= 0x17 ==> m.speed == s[0x15] + 256 * s[0x16],
        s.len() < 0x17 ==> m.speed == 0,
        s.len() >= 0x22 ==> m.configured_speed == s[0x20] + 256 * s[0x21],
        s.len() < 0x22 ==> m.configured_speed == 0,
        m.slot@ == text_of(string_bytes(area, 0, s[0x10] as nat)),
        m.bank@ == text_of(string_bytes(area, 0, s[0x11] as nat)),
        s.len() > 0x17 ==> m.manufacturer@ == text_of(string_bytes(area, 0, s[0x17] as nat)),
        s.len() > 0x1a ==> m.part@ == text_of(string_bytes(area, 0, s[0x1a] as nat)),
        m.size == module_size(s),
{
}

/// What is read of the table is one module for each memory device that is fitted,
/// in the order of the table; the first eight bytes are not part of it.
pub proof fn law_every_device_is_read(raw: Seq<u8>, m: Seq<MemModule>, i: int)
    requires
        all_read(devices(raw), m),
        raw.len() >= 8,
        0 <= i < m.len(),
    ensures
        m.len() == devices_from(raw.skip(8), 0).len(),
        module_read(
            devices_from(raw.skip(8), 0)[i].formatted,
            devices_from(raw.skip(8), 0)[i].strings,
            m[i],
        ),
{
}

} // verus!
