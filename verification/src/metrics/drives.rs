//! Fixed, removable and optical drives with label, file system, free and
//! total space.

use crate::text;
use crate::util;
use vstd::prelude::*;

verus! {

pub const DRIVE_REMOVABLE: u32 = 2;

pub const DRIVE_FIXED: u32 = 3;

pub const DRIVE_CDROM: u32 = 5;

/// Flag of a volume that cannot be written to.
pub const FILE_READ_ONLY_VOLUME: u32 = 0x0008_0000;

#[derive(Clone, Debug)]
pub struct Drive {
    /// "C:", or the mount point on a machine without letters.
    pub name: String,
    pub label: String,
    /// "" for fixed disks, "USB" for removable ones, "DVD" for optical ones.
    pub kind: &'static str,
    /// File system name: NTFS, FAT32, exFAT, UDF, CDFS.
    pub fs: String,
    /// The volume cannot be written to (optical media, write-protected cards).
    pub readonly: bool,
    pub free: u64,
    pub total: u64,
}

impl Drive {
    pub fn copy(&self) -> (r: Drive)
        ensures
            r == *self,
    {
        Drive {
            name: self.name.clone(),
            label: self.label.clone(),
            kind: self.kind,
            fs: self.fs.clone(),
            readonly: self.readonly,
            free: self.free,
            total: self.total,
        }
    }
}

/// A letter maps to a floppy drive: its device name says so; where the system
/// does not tell the name, the classic letters count.
pub open spec fn floppy(letter: char, device: Option<Seq<char>>) -> bool {
    match device {
        None => letter == 'A' || letter == 'B',
        Some(name) => text::has(text::lower(name), "\\device\\floppy"@),
    }
}

/// Whether a letter maps to a floppy drive, from the device name that the
/// system gives for it (none where there is no answer).
pub fn is_floppy(letter: char, device: &[u16]) -> (r: bool)
    ensures
        r == floppy(
            letter,
            if device@.len() == 0 {
                None
            } else {
                Some(util::utf16_lossy(device@))
            },
        ),
{
    if device.len() == 0 {
        return letter == 'A' || letter == 'B';
    }
    let name: String = util::from_wide(device);
    is_floppy_device(name.as_str())
}

/// Whether a device name is that of a floppy drive.
pub fn is_floppy_device(name: &str) -> (r: bool)
    ensures
        r == text::has(text::lower(name@), "\\device\\floppy"@),
{
    let low: String = text::ascii_lower(name);
    text::contains(low.as_str(), "\\device\\floppy")
}

/// The kind of a drive that is listed: `None` for floppy drives, which are
/// never touched, and for types other than fixed, removable and optical.
pub open spec fn listed_kind(drive_type: u32, floppy: bool) -> Option<Seq<char>> {
    if drive_type == DRIVE_FIXED {
        Some(""@)
    } else if drive_type == DRIVE_REMOVABLE && !floppy {
        Some("USB"@)
    } else if drive_type == DRIVE_CDROM {
        Some("DVD"@)
    } else {
        None
    }
}

pub fn drive_kind(drive_type: u32, floppy: bool) -> (r: Option<&'static str>)
    ensures
        match r {
            Some(k) => listed_kind(drive_type, floppy) == Some(k@),
            None => listed_kind(drive_type, floppy).is_none(),
        },
{
    if drive_type == DRIVE_FIXED {
        Some("")
    } else if drive_type == DRIVE_REMOVABLE && !floppy {
        Some("USB")
    } else if drive_type == DRIVE_CDROM {
        Some("DVD")
    } else {
        None
    }
}

/// A flag is set.
pub open spec fn read_only_flag(flags: u32) -> bool {
    flags & FILE_READ_ONLY_VOLUME != 0
}

/// `d` is the listed drive.
pub open spec fn is_drive(
    letter: char,
    kind: Seq<char>,
    total: u64,
    free: u64,
    label: Seq<char>,
    fs: Seq<char>,
    flags: u32,
    d: Drive,
) -> bool {
    &&& d.name@ == seq![letter, ':']
    &&& d.label@ == label
    &&& d.kind@ == kind
    &&& d.fs@ == fs
    &&& d.readonly == (kind == "DVD"@ || read_only_flag(flags))
    &&& d.free == free
    &&& d.total == total
}

/// `r` is the drive that the system tells of, where it is listed.
pub open spec fn is_described(
    letter: char,
    drive_type: u32,
    floppy: bool,
    space: Option<(u64, u64)>,
    label: Seq<u16>,
    fs: Seq<u16>,
    flags: u32,
    r: Option<Drive>,
) -> bool {
    match r {
        None => {
            ||| listed_kind(drive_type, floppy).is_none()
            ||| space.is_none()
            ||| (space->0).0 == 0
        },
        Some(d) => {
            &&& listed_kind(drive_type, floppy) matches Some(kind)
            &&& space matches Some((total, free))
            &&& total > 0
            &&& is_drive(
                letter,
                kind,
                total,
                free,
                util::without_zeros(util::utf16_lossy(label)),
                util::without_zeros(util::utf16_lossy(fs)),
                flags,
                d,
            )
        },
    }
}

/// A drive of the list from what the system tells of it: its type and whether
/// it is a floppy drive, its total and free space where it has a medium, and
/// the buffers with its label and file system. `None` for one that is not
/// listed or has no space.
pub fn describe(
    letter: char,
    drive_type: u32,
    floppy: bool,
    space: Option<(u64, u64)>,
    label: &[u16],
    fs: &[u16],
    flags: u32,
) -> (r: Option<Drive>)
    ensures
        is_described(letter, drive_type, floppy, space, label@, fs@, flags, r),
{
    let kind: &'static str = match drive_kind(drive_type, floppy) {
        None => {
            return None;
        },
        Some(k) => k,
    };
    let (total, free) = match space {
        None => {
            return None;
        },
        Some(s) => s,
    };
    if total == 0 {
        return None;
    }
    let mut name: String = String::new();
    name.push(letter);
    name.push(':');
    assert(name@ =~= seq![letter, ':']);
    let readonly: bool = text::same(kind, "DVD") || flags & FILE_READ_ONLY_VOLUME != 0;
    Some(
        Drive {
            name,
            label: util::wide_text(label),
            kind,
            fs: util::wide_text(fs),
            readonly,
            free,
            total,
        },
    )
}

/// The letters of the drives in a mask, lowest bit first.
pub open spec fn letters_of(mask: u32, n: nat) -> Seq<char>
    decreases n,
{
    if n == 0 {
        Seq::empty()
    } else {
        let rest = letters_of(mask, (n - 1) as nat);
        if (mask >> ((n - 1) as u32)) & 1u32 == 1u32 {
            rest.push((('A' as u8) + (n - 1)) as char)
        } else {
            rest
        }
    }
}

/// The letters of the drives that exist, from the system's mask.
pub fn drive_letters(mask: u32) -> (r: Vec<char>)
    ensures
        r@ == letters_of(mask, 26),
{
    let mut r: Vec<char> = Vec::new();
    let mut i: u32 = 0;
    while i < 26
        invariant
            i <= 26,
            r@ == letters_of(mask, i as nat),
        decreases 26 - i,
    {
        if (mask >> i) & 1u32 == 1u32 {
            r.push((65u8 + (i as u8)) as char);
        }
        i += 1;
    }
    r
}

/// The path of a drive's root, for the free-space query: one backslash behind
/// the drive, whatever it ended in.
pub open spec fn root_path(disk: Seq<char>) -> Seq<char> {
    text::skip_back(disk, text::is_char('\\')).push('\\')
}

pub fn root_of(disk: &str) -> (r: String)
    ensures
        r@ == root_path(disk@),
{
    let mut r: String = text::strip_trailing(disk, '\\');
    r.push('\\');
    r
}

/// A fixed drive, a removable one that is no floppy and an optical one are
/// listed where they have a medium, with the space that the system tells, the
/// total first, and under their letter; no other drive is. An optical medium is
/// never written to.
pub proof fn law_listed_drives_are_as_told(
    letter: char,
    drive_type: u32,
    floppy: bool,
    space: Option<(u64, u64)>,
    label: Seq<u16>,
    fs: Seq<u16>,
    flags: u32,
    r: Option<Drive>,
)
    requires
        is_described(letter, drive_type, floppy, space, label, fs, flags, r),
    ensures
        r.is_some() == ((drive_type == 3 || drive_type == 5 || (drive_type == 2 && !floppy)) && (
        space matches Some((total, free)) && total > 0)),
        r matches Some(d) ==> {
            &&& d.name@.len() == 2 && d.name@[0] == letter && d.name@[1] == ':'
            &&& d.total == (space->0).0 && d.free == (space->0).1
            &&& drive_type == 5 ==> d.readonly
            &&& drive_type != 5 ==> d.readonly == (flags & 0x0008_0000 != 0)
            &&& d.label@ == util::without_zeros(util::utf16_lossy(label))
            &&& d.fs@ == util::without_zeros(util::utf16_lossy(fs))
        },
{
    reveal_strlit("");
    reveal_strlit("USB");
    reveal_strlit("DVD");
    assert("USB"@[0] == 'U' && "DVD"@[0] == 'D' && ""@.len() == 0 && "DVD"@.len() == 3);
    if let Some(d) = r {
        let k = listed_kind(drive_type, floppy)->0;
        assert(k == "DVD"@ <==> drive_type == 5);
        assert(read_only_flag(flags) == (flags & 0x0008_0000 != 0));
    }
}

/// The number of a letter's character.
pub open spec fn code(c: char) -> int {
    c as int
}

/// A letter is listed exactly where its bit of the mask is set, and the letters
/// rise.
pub proof fn law_letters_are_the_bits(mask: u32, n: nat, k: int)
    requires
        n <= 26,
        0 <= k < n,
    ensures
        (exists|i: int|
            0 <= i < letters_of(mask, n).len() && code(#[trigger] letters_of(mask, n)[i]) == 65 + k)
            <==> (mask >> (k as u32)) & 1u32 == 1u32,
        forall|i: int, j: int|
            0 <= i < j < letters_of(mask, n).len() ==> code(#[trigger] letters_of(mask, n)[i])
                < code(#[trigger] letters_of(mask, n)[j]),
    decreases n,
{
    let (s, r) = (letters_of(mask, (n - 1) as nat), letters_of(mask, n));
    lemma_letters(mask, n);
    lemma_letters(mask, (n - 1) as nat);
    let c = (('A' as u8) + (n - 1)) as char;
    assert(('A' as u8) == 65);
    assert(code(c) == 65 + n - 1);
    if k < n - 1 {
        law_letters_are_the_bits(mask, (n - 1) as nat, k);
        if exists|i: int| 0 <= i < s.len() && code(#[trigger] s[i]) == 65 + k {
            let i = choose|i: int| 0 <= i < s.len() && code(#[trigger] s[i]) == 65 + k;
            assert(code(r[i]) == 65 + k);
        }
        if exists|i: int| 0 <= i < r.len() && code(#[trigger] r[i]) == 65 + k {
            let i = choose|i: int| 0 <= i < r.len() && code(#[trigger] r[i]) == 65 + k;
            assert(i < s.len());
            assert(code(s[i]) == 65 + k);
        }
    } else {
        if (mask >> (k as u32)) & 1u32 == 1u32 {
            assert(r[r.len() - 1] == c);
        }
        if exists|i: int| 0 <= i < r.len() && code(#[trigger] r[i]) == 65 + k {
            let i = choose|i: int| 0 <= i < r.len() && code(#[trigger] r[i]) == 65 + k;
            if i < s.len() {
                assert(code(s[i]) < 65 + n - 1);
            }
        }
    }
}

proof fn lemma_letters(mask: u32, n: nat)
    requires
        n <= 26,
    ensures
        forall|i: int|
            0 <= i < letters_of(mask, n).len() ==> 65 <= code(#[trigger] letters_of(mask, n)[i])
                < 65 + n,
        forall|i: int, j: int|
            0 <= i < j < letters_of(mask, n).len() ==> code(#[trigger] letters_of(mask, n)[i])
                < code(#[trigger] letters_of(mask, n)[j]),
    decreases n,
{
    if n > 0 {
        lemma_letters(mask, (n - 1) as nat);
        let (s, r) = (letters_of(mask, (n - 1) as nat), letters_of(mask, n));
        assert(('A' as u8) == 65);
        let c = (('A' as u8) + (n - 1)) as char;
        assert(code(c) == 65 + n - 1);
        assert forall|i: int| 0 <= i < r.len() implies 65 <= code(#[trigger] r[i]) < 65 + n by {
            if i < s.len() {
                assert(r[i] == s[i]);
            } else {
                assert(r[i] == c);
            }
        }
        assert forall|i: int, j: int| 0 <= i < j < r.len() implies code(#[trigger] r[i]) < code(
            #[trigger] r[j],
        ) by {
            assert(r[i] == s[i]);
            if j < s.len() {
                assert(r[j] == s[j]);
            } else {
                assert(r[j] == c);
            }
        }
    }
}

proof fn lemma_no_backslash(d: Seq<char>)
    ensures
        ({
            let r = text::skip_back(d, text::is_char('\\'));
            &&& r.len() <= d.len()
            &&& r == d.take(r.len() as int)
            &&& r.len() > 0 ==> r.last() != '\\'
            &&& forall|i: int| r.len() <= i < d.len() ==> #[trigger] d[i] == '\\'
        }),
    decreases d.len(),
{
    let f = text::is_char('\\');
    if d.len() > 0 && f(d.last()) {
        let e = d.drop_last();
        lemma_no_backslash(e);
        let n = text::skip_back(e, f).len() as int;
        assert(e.take(n) =~= d.take(n));
        assert forall|i: int| n <= i < d.len() implies #[trigger] d[i] == '\\' by {
            if i < d.len() - 1 {
                assert(e[i] == d[i]);
            }
        }
    } else {
        assert(d.take(d.len() as int) =~= d);
    }
}

/// The root of a drive ends in one backslash, however many there were, and that of
/// a root is itself.
pub proof fn law_root_ends_in_one_backslash(d: Seq<char>)
    ensures
        root_path(d).last() == '\\',
        root_path(d).len() >= 2 ==> root_path(d)[root_path(d).len() - 2] != '\\',
        root_path(root_path(d)) == root_path(d),
        d.len() > 0 && d.last() != '\\' ==> root_path(d) == d.push('\\'),
{
    let f = text::is_char('\\');
    lemma_no_backslash(d);
    let r = text::skip_back(d, f);
    let p = root_path(d);
    assert(p == r.push('\\'));
    assert(p.drop_last() =~= r);
    assert(f(p.last()));
    assert(text::skip_back(p, f) == text::skip_back(r, f));
    assert(text::skip_back(r, f) == r);
}

} // verus!
