//! Per-process CPU, memory and I/O: what each process did since the last
//! reading, one row per program, and the rows that lead each list.

use crate::metrics::cpu::{self, le_number};
use crate::number::{Double, Single};
use crate::order::{self, Descending, SortKey};
use crate::text;
use crate::util;
use vstd::prelude::*;

verus! {

/// One process in one reading of the system's list.
pub struct RawProc {
    pub pid: u32,
    pub create_time: i64,
    /// Image name in UTF-16; none for the kernel's own processes.
    pub name: Option<Vec<u16>>,
    /// Kernel and user time.
    pub time: i64,
    /// Bytes read and written.
    pub transfer: i64,
    /// Private working set in bytes.
    pub private: i64,
}

/// What a process did since the last reading; nothing is known of one that
/// is new.
pub struct ProcDelta {
    pub pid: u32,
    pub name: String,
    /// CPU time used and bytes transferred.
    pub used: Option<(i64, i64)>,
    pub mem: u64,
}

#[derive(Clone, Debug)]
pub struct ProcInfo {
    pub pid: u32,
    pub name: String,
    /// From 0 to 1 of the whole machine.
    pub cpu: Single,
    /// Private working set in bytes.
    pub mem: u64,
    /// Bytes per second read and written.
    pub io: Double,
}

/// The processes of one program.
pub struct Group {
    /// The process that came first.
    pub pid: u32,
    pub name: String,
    pub mem: u64,
    /// Positions of its processes.
    pub members: Vec<usize>,
}

pub struct Processes {
    /// CPU time and transfer of each process in the last reading, by pid and
    /// creation time.
    pub prev: Vec<((u32, i64), (i64, i64))>,
    pub cores: usize,
    /// Rows per list.
    pub top_n: usize,
    pub top_cpu: Vec<ProcInfo>,
    pub top_mem: Vec<ProcInfo>,
    pub top_io: Vec<ProcInfo>,
    /// Sum of every process's private working set in bytes.
    pub mem_total: u64,
}

impl ProcInfo {
    pub fn copy(&self) -> (r: ProcInfo)
        ensures
            r == *self,
    {
        ProcInfo {
            pid: self.pid,
            name: self.name.clone(),
            cpu: self.cpu,
            mem: self.mem,
            io: self.io,
        }
    }
}

// ---------------------------------------------------------------------------
// The system's list

/// Where an entry keeps the private working set.
pub const PRIVATE_AT: usize = 8;

/// Where an entry keeps the time the process was created at.
pub const CREATED_AT: usize = 32;

/// Where an entry keeps the time spent outside the kernel.
pub const USER_AT: usize = 40;

/// Where an entry keeps the time spent in the kernel.
pub const KERNEL_AT: usize = 48;

/// Where an entry keeps the length of the image name in bytes.
pub const NAME_LEN_AT: usize = 56;

/// Where an entry keeps what depends on how long addresses are.
#[derive(Clone, Copy, Debug, PartialEq, Eq, Structural)]
pub struct Places {
    /// The length of the part of an entry that is read.
    pub len: usize,
    /// The address of the image name.
    pub name: usize,
    /// The number of the process.
    pub pid: usize,
    /// The bytes read.
    pub read: usize,
    /// The bytes written.
    pub written: usize,
}

/// The places on a 64-bit system (`wide`), or on one of 32 bits.
#[verifier::allow_in_spec]
pub fn places(wide: bool) -> (r: Places)
    returns
        (if wide {
            Places { len: 256, name: 64, pid: 80, read: 232, written: 240 }
        } else {
            Places { len: 184, name: 60, pid: 68, read: 160, written: 168 }
        }),
{
    if wide {
        Places { len: 256, name: 64, pid: 80, read: 232, written: 240 }
    } else {
        Places { len: 184, name: 60, pid: 68, read: 160, written: 168 }
    }
}

/// An address of the list.
pub open spec fn address_at(b: Seq<u8>, at: int, wide: bool) -> nat {
    le_number(
        b,
        at,
        if wide {
            8
        } else {
            4
        },
    )
}

/// A number of eight bytes that may be negative.
pub open spec fn signed_number(b: Seq<u8>, at: int) -> int {
    let n = le_number(b, at, 8);
    if n < 0x8000_0000_0000_0000 {
        n as int
    } else {
        n - 0x1_0000_0000_0000_0000
    }
}

fn read_i64(b: &[u8], at: usize) -> (r: i64)
    requires
        at + 8 <= b.len(),
    ensures
        r == signed_number(b@, at as int),
{
    let n: u64 = cpu::read_u64(b, at);
    if n < 0x8000_0000_0000_0000 {
        n as i64
    } else {
        -((u64::MAX - n) as i64) - 1
    }
}

/// The UTF-16 units from `at` on.
pub open spec fn units_at(b: Seq<u8>, at: int, n: nat) -> Seq<u16> {
    Seq::new(n, |i: int| le_number(b, at + 2 * i, 2) as u16)
}

/// The image name of the entry at `off`, which lies in the list itself; `base`
/// is the list's address. None where the entry gives no address or a length of
/// no bytes, or where the name does not lie in the list.
pub open spec fn image_name(b: Seq<u8>, base: int, wide: bool, off: int) -> Option<Seq<u16>> {
    let len = le_number(b, off + NAME_LEN_AT, 2);
    let n = len / 2;
    let address = address_at(b, off + places(wide).name, wide);
    let at = address - base;
    if address != 0 && len != 0 && 0 <= at && at + 2 * n <= b.len() {
        Some(units_at(b, at, n))
    } else {
        None
    }
}

pub open spec fn opt_units(v: Option<Vec<u16>>) -> Option<Seq<u16>> {
    match v {
        Some(u) => Some(u@),
        None => None,
    }
}

/// The number, kept in 64 bits.
pub open spec fn wrapped(n: int) -> int {
    if n > i64::MAX {
        n - 0x1_0000_0000_0000_0000
    } else if n < i64::MIN {
        n + 0x1_0000_0000_0000_0000
    } else {
        n
    }
}

/// The number, at the end of the range where it is past it.
pub open spec fn limited(n: int) -> int {
    if n > i64::MAX {
        i64::MAX as int
    } else if n < i64::MIN {
        i64::MIN as int
    } else {
        n
    }
}

/// `p` is the process of the entry at `off`.
pub open spec fn is_entry(b: Seq<u8>, base: int, wide: bool, off: int, p: RawProc) -> bool {
    &&& p.pid == le_number(b, off + places(wide).pid, 4)
    &&& p.create_time == signed_number(b, off + CREATED_AT)
    &&& opt_units(p.name) == image_name(b, base, wide, off)
    &&& p.time == wrapped(signed_number(b, off + KERNEL_AT) + signed_number(b, off + USER_AT))
    &&& p.transfer == limited(
        signed_number(b, off + places(wide).read) + signed_number(b, off + places(wide).written),
    )
    &&& p.private == signed_number(b, off + PRIVATE_AT)
}

/// Where the entries from `off` on begin: each tells how far the next one is,
/// and the last one tells nothing; a list that is cut off ends before the entry
/// that does not lie in it whole.
pub open spec fn entry_offsets(b: Seq<u8>, wide: bool, off: int) -> Seq<int>
    decreases b.len() - off,
{
    let next = le_number(b, off, 4) as int;
    if off < 0 || off + places(wide).len > b.len() {
        Seq::empty()
    } else if next <= 0 || off + next > b.len() {
        seq![off]
    } else {
        seq![off] + entry_offsets(b, wide, off + next)
    }
}

fn limited_sum(a: i64, b: i64) -> (r: i64)
    ensures
        r == limited(a + b),
{
    let sum: i128 = a as i128 + b as i128;
    if sum > i64::MAX as i128 {
        i64::MAX
    } else if sum < i64::MIN as i128 {
        i64::MIN
    } else {
        sum as i64
    }
}

fn read_name(b: &[u8], base: u64, wide: bool, off: usize) -> (r: Option<Vec<u16>>)
    requires
        off + places(wide).len <= b.len(),
    ensures
        opt_units(r) == image_name(b@, base as int, wide, off as int),
{
    let mut r: Vec<u16> = Vec::new();
    let len: usize = cpu::read_u16(b, off + NAME_LEN_AT);
    let n: usize = len / 2;
    let at: usize = off + places(wide).name;
    let address: u64 = if wide {
        cpu::read_u64(b, at)
    } else {
        cpu::read_u32(b, at)
    };
    if address == 0 || len == 0 || address < base || address - base > b.len() as u64 {
        return None;
    }
    let at: usize = (address - base) as usize;
    if b.len() - at < 2 * n {
        return None;
    }
    let mut i: usize = 0;
    while i < n
        invariant
            i <= n < 0x1_0000,
            at + 2 * n <= b.len(),
            r@ == units_at(b@, at as int, i as nat),
        decreases n - i,
    {
        r.push(cpu::read_u16(b, at + 2 * i) as u16);
        i += 1;
        assert(r@ =~= units_at(b@, at as int, i as nat));
    }
    Some(r)
}

fn read_entry(b: &[u8], base: u64, wide: bool, off: usize) -> (r: RawProc)
    requires
        off + places(wide).len <= b.len(),
    ensures
        is_entry(b@, base as int, wide, off as int, r),
{
    let at: Places = places(wide);
    let kernel: i64 = read_i64(b, off + KERNEL_AT);
    let user: i64 = read_i64(b, off + USER_AT);
    let read: i64 = read_i64(b, off + at.read);
    let written: i64 = read_i64(b, off + at.written);
    RawProc {
        pid: cpu::read_u32(b, off + at.pid) as u32,
        create_time: read_i64(b, off + CREATED_AT),
        name: read_name(b, base, wide, off),
        time: kernel.wrapping_add(user),
        transfer: limited_sum(read, written),
        private: read_i64(b, off + PRIVATE_AT),
    }
}

/// Reads the list of processes of a system of 64 bits (`wide`) or 32; it lies at
/// the address `base`.
pub fn raw_procs(b: &[u8], base: u64, wide: bool) -> (r: Vec<RawProc>)
    ensures
        r@.len() == entry_offsets(b@, wide, 0).len(),
        forall|i: int|
            0 <= i < r@.len() ==> is_entry(
                b@,
                base as int,
                wide,
                entry_offsets(b@, wide, 0)[i],
                #[trigger] r@[i],
            ),
{
    let mut r: Vec<RawProc> = Vec::new();
    let len: usize = places(wide).len;
    let mut off: usize = 0;
    let ghost mut done: Seq<int> = Seq::empty();
    assert(entry_offsets(b@, wide, 0) =~= done + entry_offsets(b@, wide, 0));
    loop
        invariant_except_break
            entry_offsets(b@, wide, 0) == done + entry_offsets(b@, wide, off as int),
        invariant
            len == places(wide).len,
            r@.len() == done.len(),
            forall|i: int|
                0 <= i < r@.len() ==> is_entry(b@, base as int, wide, done[i], #[trigger] r@[i]),
        ensures
            entry_offsets(b@, wide, 0) == done,
        decreases b@.len() - off,
    {
        if b.len() < len || off > b.len() - len {
            assert(done + Seq::<int>::empty() =~= done);
            break;
        }
        r.push(read_entry(b, base, wide, off));
        let next: u64 = cpu::read_u32(b, off);
        proof {
            let before = done;
            done = done.push(off as int);
            assert(before + seq![off as int] =~= done);
            if 0 < next <= b@.len() - off {
                assert(before + (seq![off as int] + entry_offsets(b@, wide, off + next)) =~= done
                    + entry_offsets(b@, wide, off + next));
            }
        }
        if next == 0 || next > (b.len() - off) as u64 {
            break;
        }
        off += next as usize;
    }
    r
}

/// How much longer than asked for a list is made, in bytes: it may grow before
/// the next attempt.
pub const SLACK: usize = 65536;

/// The room for another attempt at the list, when `len` bytes were too few and
/// the system asked for so many.
pub fn next_room(len: usize, asked: u32) -> (r: usize)
    requires
        2 * len + SLACK <= usize::MAX,
        asked + SLACK <= usize::MAX,
    ensures
        r == (if asked >= 2 * len {
            asked as int
        } else {
            2 * len
        }) + SLACK,
{
    let wanted: usize = asked as usize;
    if wanted >= 2 * len {
        wanted + SLACK
    } else {
        2 * len + SLACK
    }
}

// ---------------------------------------------------------------------------
// From one reading to the next

/// The name of a process: its image name, or the kernel's names.
pub open spec fn process_name(pid: u32, units: Option<Seq<u16>>) -> Seq<char> {
    match units {
        Some(u) => util::utf16_lossy(u),
        None => if pid == 0 {
            "System Idle"@
        } else {
            "System"@
        },
    }
}

fn name_of(pid: u32, units: &Option<Vec<u16>>) -> (r: String)
    ensures
        r@ == process_name(pid, opt_units(*units)),
{
    match units {
        Some(u) => util::from_wide(u.as_slice()),
        None => if pid == 0 {
            "System Idle".to_string()
        } else {
            "System".to_string()
        },
    }
}

/// The last entry of a key.
pub open spec fn last_entry(s: Seq<((u32, i64), (i64, i64))>, key: (u32, i64)) -> Option<(i64, i64)>
    decreases s.len(),
{
    if s.len() == 0 {
        None
    } else if s.last().0 == key {
        Some(s.last().1)
    } else {
        last_entry(s.drop_last(), key)
    }
}

fn find_entry(v: &Vec<((u32, i64), (i64, i64))>, pid: u32, created: i64) -> (r: Option<(i64, i64)>)
    ensures
        r == last_entry(v@, (pid, created)),
{
    let mut i: usize = v.len();
    assert(v@.take(i as int) =~= v@);
    while i > 0
        invariant
            i <= v.len(),
            last_entry(v@, (pid, created)) == last_entry(v@.take(i as int), (pid, created)),
        decreases i,
    {
        assert(v@.take(i as int).last() == v@[i - 1]);
        assert(v@.take(i as int).drop_last() =~= v@.take(i - 1));
        if v[i - 1].0.0 == pid && v[i - 1].0.1 == created {
            return Some(v[i - 1].1);
        }
        i -= 1;
    }
    None
}

/// What a process did since it was last seen: its CPU time, and its transfer,
/// which counts as none where it went back.
pub open spec fn used_since(prev: Seq<((u32, i64), (i64, i64))>, p: RawProc) -> Option<(int, int)> {
    match last_entry(prev, (p.pid, p.create_time)) {
        None => None,
        Some((t, x)) => Some(
            (
                p.time - t,
                if p.transfer - x > 0 {
                    p.transfer - x
                } else {
                    0
                },
            ),
        ),
    }
}

/// The differences of a process fit in 64 bits.
pub open spec fn difference_fits(prev: Seq<((u32, i64), (i64, i64))>, p: RawProc) -> bool {
    last_entry(prev, (p.pid, p.create_time)) matches Some((t, x)) ==> {
        &&& i64::MIN <= p.time - t <= i64::MAX
        &&& i64::MIN <= p.transfer - x <= i64::MAX
    }
}

/// `d` is the process since the last reading.
pub open spec fn is_delta(prev: Seq<((u32, i64), (i64, i64))>, p: RawProc, d: ProcDelta) -> bool {
    &&& d.pid == p.pid
    &&& d.name@ == process_name(p.pid, opt_units(p.name))
    &&& match used_since(prev, p) {
        None => d.used.is_none(),
        Some((t, x)) => d.used matches Some((dt, dx)) && dt == t && dx == x,
    }
    &&& d.mem == (if p.private > 0 {
        p.private as int
    } else {
        0
    })
}

/// The processes but for the idle one.
pub open spec fn active(cur: Seq<RawProc>) -> Seq<RawProc> {
    cur.filter(|p: RawProc| p.pid != 0)
}

pub open spec fn entries(cur: Seq<RawProc>) -> Seq<((u32, i64), (i64, i64))> {
    cur.map_values(|p: RawProc| ((p.pid, p.create_time), (p.time, p.transfer)))
}

/// The reading `cur` has led from one state to the next, with the processes `r`.
pub open spec fn sampled(
    before: Processes,
    cur: Seq<RawProc>,
    r: Seq<ProcDelta>,
    after: Processes,
) -> bool {
    &&& r.len() == active(cur).len()
    &&& forall|i: int| 0 <= i < r.len() ==> is_delta(before.prev@, active(cur)[i], #[trigger] r[i])
    &&& after.prev@ == entries(cur)
    &&& after.cores == before.cores
    &&& after.top_n == before.top_n
    &&& after.top_cpu == before.top_cpu
    &&& after.top_mem == before.top_mem
    &&& after.top_io == before.top_io
    &&& after.mem_total == before.mem_total
}

/// The memory of the first `n` processes.
pub open spec fn mem_sum(list: Seq<ProcDelta>, n: nat) -> nat
    decreases n,
{
    if n == 0 {
        0
    } else {
        mem_sum(list, (n - 1) as nat) + list[n - 1].mem as nat
    }
}

impl Processes {
    pub fn new(cores: usize, top_n: usize) -> (r: Processes)
        ensures
            r.prev@.len() == 0,
            r.cores == (if cores > 0 {
                cores
            } else {
                1
            }),
            r.top_n == (if top_n > 0 {
                top_n
            } else {
                1
            }),
            r.top_cpu@.len() == 0,
            r.top_mem@.len() == 0,
            r.top_io@.len() == 0,
            r.mem_total == 0,
    {
        Processes {
            prev: Vec::new(),
            cores: if cores > 0 {
                cores
            } else {
                1
            },
            top_n: if top_n > 0 {
                top_n
            } else {
                1
            },
            top_cpu: Vec::new(),
            top_mem: Vec::new(),
            top_io: Vec::new(),
            mem_total: 0,
        }
    }

    /// Forgets the last reading.
    pub fn reset(&mut self)
        ensures
            final(self).prev@.len() == 0,
            final(self).cores == old(self).cores,
            final(self).top_n == old(self).top_n,
            final(self).top_cpu == old(self).top_cpu,
            final(self).top_mem == old(self).top_mem,
            final(self).top_io == old(self).top_io,
            final(self).mem_total == old(self).mem_total,
    {
        self.prev = Vec::new();
    }

    /// Takes a reading: what each process but the idle one did since the
    /// last, in the order of the reading.
    pub fn sample(&mut self, cur: &Vec<RawProc>) -> (r: Vec<ProcDelta>)
        requires
            forall|i: int|
                0 <= i < cur@.len() ==> difference_fits(old(self).prev@, #[trigger] cur@[i]),
        ensures
            sampled(*old(self), cur@, r@, *final(self)),
    {
        let mut r: Vec<ProcDelta> = Vec::new();
        let mut next: Vec<((u32, i64), (i64, i64))> = Vec::new();
        let mut i: usize = 0;
        let ghost keep = |p: RawProc| p.pid != 0;
        assert(cur@.take(0).filter(keep) =~= Seq::<RawProc>::empty()) by {
            reveal(Seq::filter);
        }
        while i < cur.len()
            invariant
                i <= cur.len(),
                keep == (|p: RawProc| p.pid != 0),
                forall|j: int|
                    0 <= j < cur@.len() ==> difference_fits(self.prev@, #[trigger] cur@[j]),
                *self == *old(self),
                next@ == entries(cur@).take(i as int),
                r@.len() == cur@.take(i as int).filter(keep).len(),
                forall|j: int|
                    0 <= j < r@.len() ==> is_delta(
                        self.prev@,
                        cur@.take(i as int).filter(keep)[j],
                        #[trigger] r@[j],
                    ),
            decreases cur.len() - i,
        {
            let p: &RawProc = &cur[i];
            proof {
                order::lemma_filter_step(cur@, keep, i as int);
            }
            next.push(((p.pid, p.create_time), (p.time, p.transfer)));
            assert(next@ =~= entries(cur@).take(i + 1));
            if p.pid != 0 {
                assert(difference_fits(self.prev@, cur@[i as int]));
                let used: Option<(i64, i64)> = match find_entry(&self.prev, p.pid, p.create_time) {
                    None => None,
                    Some((t, x)) => {
                        let dx: i64 = p.transfer - x;
                        Some((
                            p.time - t,
                            if dx > 0 {
                                dx
                            } else {
                                0
                            },
                        ))
                    },
                };
                let mem: u64 = if p.private > 0 {
                    p.private as u64
                } else {
                    0
                };
                let d: ProcDelta = ProcDelta { pid: p.pid, name: name_of(p.pid, &p.name), used, mem };
                assert(is_delta(self.prev@, cur@[i as int], d));
                r.push(d);
            }
            i += 1;
        }
        assert(cur@.take(cur@.len() as int) =~= cur@);
        self.prev = next;
        assert(self.prev@ =~= entries(cur@));
        r
    }

    /// Sets the rows that lead each list: by CPU, by memory, and by I/O, the
    /// last only with rows that have any. Rows that are equal in one list
    /// stand in the order of the list before.
    pub fn set_top(&mut self, rows: &Vec<ProcInfo>, mem_total: u64)
        requires
            forall|i: int|
                0 <= i < rows@.len() ==> !(#[trigger] rows@[i]).cpu.nan() && !rows@[i].io.nan(),
        ensures
            topped(*old(self), rows@, mem_total, *final(self)),
    {
        let mut ck: Vec<Descending<Single>> = Vec::new();
        let mut all: Vec<ProcInfo> = Vec::new();
        let mut i: usize = 0;
        while i < rows.len()
            invariant
                i <= rows.len(),
                ck@ == cpu_keys(rows@).take(i as int),
                all@ == rows@.take(i as int),
            decreases rows.len() - i,
        {
            ck.push(Descending(rows[i].cpu));
            all.push(rows[i].copy());
            i += 1;
        }
        assert(all@ =~= rows@);
        assert(ck@ =~= cpu_keys(rows@));
        let by_cpu: Vec<ProcInfo> = order::sort_by_keys(all, &ck);
        let ghost c = by_cpu@;
        proof {
            lemma_sorted_len(rows@, ck@, c);
        }
        self.top_cpu = copy_first(&by_cpu, self.top_n);
        let mut mk: Vec<Descending<u64>> = Vec::new();
        let mut j: usize = 0;
        while j < by_cpu.len()
            invariant
                j <= by_cpu.len(),
                mk@ == mem_keys(by_cpu@).take(j as int),
            decreases by_cpu.len() - j,
        {
            mk.push(Descending(by_cpu[j].mem));
            j += 1;
        }
        assert(mk@ =~= mem_keys(c));
        let by_mem: Vec<ProcInfo> = order::sort_by_keys(by_cpu, &mk);
        let ghost m = by_mem@;
        proof {
            lemma_sorted_len(c, mk@, m);
        }
        self.top_mem = copy_first(&by_mem, self.top_n);
        let mut ik: Vec<Descending<Double>> = Vec::new();
        let mut k: usize = 0;
        while k < by_mem.len()
            invariant
                k <= by_mem.len(),
                ik@ == io_keys(by_mem@).take(k as int),
            decreases by_mem.len() - k,
        {
            ik.push(Descending(by_mem[k].io));
            k += 1;
        }
        assert(ik@ =~= io_keys(m));
        let by_io: Vec<ProcInfo> = order::sort_by_keys(by_mem, &ik);
        let ghost o = by_io@;
        let ghost busy = |p: ProcInfo| p.io.positive();
        let mut top: Vec<ProcInfo> = Vec::new();
        let mut q: usize = 0;
        proof {
            if o.len() > 0 {
                order::lemma_filter_step(o, busy, 0);
            } else {
                reveal(Seq::filter);
            }
            assert(o.take(0) =~= Seq::<ProcInfo>::empty());
        }
        while q < by_io.len()
            invariant
                q <= by_io.len(),
                by_io@ == o,
                busy == (|p: ProcInfo| p.io.positive()),
                top@ == o.take(q as int).filter(busy),
            decreases by_io.len() - q,
        {
            proof {
                order::lemma_filter_step(o, busy, q as int);
            }
            if by_io[q].io.is_positive() {
                top.push(by_io[q].copy());
            }
            q += 1;
        }
        assert(o.take(o.len() as int) =~= o);
        self.top_io = copy_first(&top, self.top_n);
        self.mem_total = mem_total;
        assert(sorted_lists(rows@, c, m, o));
    }
}

/// `p` is the process with its number in a reading.
pub open spec fn is_only(cur: Seq<RawProc>, p: RawProc) -> bool {
    &&& cur.contains(p)
    &&& forall|i: int| 0 <= i < cur.len() && (#[trigger] cur[i]).pid == p.pid ==> cur[i] == p
}

proof fn lemma_last_entry(cur: Seq<RawProc>, key: (u32, i64))
    ensures
        last_entry(entries(cur), key).is_some() == exists|i: int|
            0 <= i < cur.len() && (#[trigger] cur[i]).pid == key.0 && cur[i].create_time == key.1,
        forall|p: RawProc| #[trigger]
            is_only(cur, p) && p.pid == key.0 && p.create_time == key.1 ==> last_entry(
                entries(cur),
                key,
            ) == Some((p.time, p.transfer)),
    decreases cur.len(),
{
    if cur.len() > 0 {
        let rest = cur.drop_last();
        lemma_last_entry(rest, key);
        assert(entries(cur).drop_last() =~= entries(rest));
        let l = cur.last();
        assert(l == cur[cur.len() - 1]);
        assert(entries(cur).last() == ((l.pid, l.create_time), (l.time, l.transfer)));
        if !(l.pid == key.0 && l.create_time == key.1) {
            if exists|i: int|
                0 <= i < cur.len() && (#[trigger] cur[i]).pid == key.0 && cur[i].create_time
                    == key.1 {
                let i = choose|i: int|
                    0 <= i < cur.len() && (#[trigger] cur[i]).pid == key.0 && cur[i].create_time
                        == key.1;
                assert(rest[i] == cur[i]);
            }
            if exists|i: int|
                0 <= i < rest.len() && (#[trigger] rest[i]).pid == key.0 && rest[i].create_time
                    == key.1 {
                let i = choose|i: int|
                    0 <= i < rest.len() && (#[trigger] rest[i]).pid == key.0 && rest[i].create_time
                        == key.1;
                assert(rest[i] == cur[i]);
            }
        }
        assert forall|p: RawProc| #[trigger]
            is_only(cur, p) && p.pid == key.0 && p.create_time == key.1 implies last_entry(
            entries(cur),
            key,
        ) == Some((p.time, p.transfer)) by {
            if !(l.pid == key.0 && l.create_time == key.1) {
                let w = choose|w: int| 0 <= w < cur.len() && cur[w] == p;
                assert(rest[w] == p);
                assert forall|i: int| 0 <= i < rest.len() && (
                #[trigger] rest[i]).pid == p.pid implies rest[i] == p by {
                    assert(rest[i] == cur[i]);
                }
                assert(is_only(rest, p));
            }
        }
    }
}

/// What a reading reports, it reports of a process of that reading that is not
/// the idle one; and it reports of each of them.
proof fn lemma_reported(before: Processes, cur: Seq<RawProc>, r: Seq<ProcDelta>, after: Processes)
    requires
        sampled(before, cur, r, after),
    ensures
        forall|k: int|
            0 <= k < r.len() ==> cur.contains(#[trigger] active(cur)[k]) && active(cur)[k].pid != 0,
        forall|p: RawProc| #[trigger]
            cur.contains(p) && p.pid != 0 ==> exists|k: int|
                0 <= k < r.len() && is_delta(before.prev@, p, #[trigger] r[k]),
{
    let keep = |p: RawProc| p.pid != 0;
    assert forall|k: int| 0 <= k < r.len() implies cur.contains(#[trigger] active(cur)[k])
        && active(cur)[k].pid != 0 by {
        cur.lemma_filter_pred(keep, k);
        cur.lemma_filter_contains_rev(keep, active(cur)[k]);
    }
    assert forall|p: RawProc| #[trigger] cur.contains(p) && p.pid != 0 implies exists|k: int|
        0 <= k < r.len() && is_delta(before.prev@, p, #[trigger] r[k]) by {
        let w = choose|w: int| 0 <= w < cur.len() && cur[w] == p;
        cur.lemma_filter_contains(keep, w);
        let k = choose|k: int| 0 <= k < active(cur).len() && active(cur)[k] == p;
        assert(is_delta(before.prev@, active(cur)[k], r[k]));
    }
}

/// A process that two readings in a row hold is reported in the second with
/// the CPU time and the bytes that its counters went on by; a transfer counter
/// that did not go on gives nothing.
pub proof fn law_use_is_how_far_the_counters_went(
    s0: Processes,
    first_reading: Seq<RawProc>,
    first_report: Seq<ProcDelta>,
    s1: Processes,
    second_reading: Seq<RawProc>,
    second_report: Seq<ProcDelta>,
    s2: Processes,
    p: RawProc,
    q: RawProc,
)
    requires
        sampled(s0, first_reading, first_report, s1),
        sampled(s1, second_reading, second_report, s2),
        is_only(first_reading, p),
        is_only(second_reading, q),
        p.pid == q.pid,
        p.create_time == q.create_time,
        q.pid != 0,
    ensures
        exists|k: int| 0 <= k < second_report.len() && (#[trigger] second_report[k]).pid == q.pid,
        forall|k: int|
            0 <= k < second_report.len() && (#[trigger] second_report[k]).pid == q.pid ==> {
                &&& second_report[k].used matches Some((time, bytes))
                &&& p.time + time == q.time
                &&& p.transfer <= q.transfer ==> p.transfer + bytes == q.transfer
                &&& q.transfer <= p.transfer ==> bytes == 0
            },
{
    lemma_last_entry(first_reading, (q.pid, q.create_time));
    lemma_reported(s1, second_reading, second_report, s2);
    assert(second_reading.contains(q));
    assert forall|k: int|
        0 <= k < second_report.len() && (#[trigger] second_report[k]).pid == q.pid implies {
        &&& second_report[k].used matches Some((time, bytes))
        &&& p.time + time == q.time
        &&& p.transfer <= q.transfer ==> p.transfer + bytes == q.transfer
        &&& q.transfer <= p.transfer ==> bytes == 0
    } by {
        let a = active(second_reading)[k];
        let w = choose|w: int| 0 <= w < second_reading.len() && second_reading[w] == a;
        assert(second_reading[w] == q);
    }
}

/// A process that the last reading did not hold, or that has another creation
/// time, is new: nothing is said of what it used. Its memory is said all the
/// same, and its name is that of its image.
pub proof fn law_new_processes_have_used_nothing_yet(
    s0: Processes,
    first_reading: Seq<RawProc>,
    first_report: Seq<ProcDelta>,
    s1: Processes,
    second_reading: Seq<RawProc>,
    second_report: Seq<ProcDelta>,
    s2: Processes,
    q: RawProc,
)
    requires
        sampled(s0, first_reading, first_report, s1),
        sampled(s1, second_reading, second_report, s2),
        is_only(second_reading, q),
        q.pid != 0,
        forall|i: int|
            0 <= i < first_reading.len() ==> (#[trigger] first_reading[i]).pid != q.pid
                || first_reading[i].create_time != q.create_time,
    ensures
        exists|k: int| 0 <= k < second_report.len() && (#[trigger] second_report[k]).pid == q.pid,
        forall|k: int|
            0 <= k < second_report.len() && (#[trigger] second_report[k]).pid == q.pid ==> {
                &&& second_report[k].used.is_none()
                &&& q.private >= 0 ==> second_report[k].mem == q.private
                &&& q.private < 0 ==> second_report[k].mem == 0
                &&& q.name matches Some(u) ==> second_report[k].name@ == util::utf16_lossy(u@)
            },
        forall|k: int| 0 <= k < second_report.len() ==> (#[trigger] second_report[k]).pid != 0,
{
    lemma_last_entry(first_reading, (q.pid, q.create_time));
    lemma_reported(s1, second_reading, second_report, s2);
    assert(second_reading.contains(q));
    assert forall|k: int|
        0 <= k < second_report.len() && (#[trigger] second_report[k]).pid == q.pid implies {
        &&& second_report[k].used.is_none()
        &&& q.private >= 0 ==> second_report[k].mem == q.private
        &&& q.private < 0 ==> second_report[k].mem == 0
        &&& q.name matches Some(u) ==> second_report[k].name@ == util::utf16_lossy(u@)
    } by {
        let a = active(second_reading)[k];
        let w = choose|w: int| 0 <= w < second_reading.len() && second_reading[w] == a;
        assert(second_reading[w] == q);
    }
}

/// The CPU time and the bytes of the second to the `n`th report.
pub open spec fn used_in_all(reports: Seq<ProcDelta>, n: int) -> (int, int)
    decreases n,
{
    if n <= 1 {
        (0, 0)
    } else {
        let (time, bytes) = used_in_all(reports, n - 1);
        match reports[n - 1].used {
            Some((t, x)) => (time + t, bytes + x),
            None => (time, bytes),
        }
    }
}

/// Readings follow each other, and each holds the process: `ps` is what each of
/// them says of it, and `ds` what is reported each time.
pub open spec fn follows(
    states: Seq<Processes>,
    readings: Seq<Seq<RawProc>>,
    reports: Seq<Seq<ProcDelta>>,
    ps: Seq<RawProc>,
    ds: Seq<ProcDelta>,
) -> bool {
    &&& states.len() == readings.len() + 1
    &&& reports.len() == readings.len()
    &&& ps.len() == readings.len()
    &&& ds.len() == readings.len()
    &&& forall|i: int|
        0 <= i < readings.len() ==> sampled(
            states[i],
            #[trigger] readings[i],
            reports[i],
            states[i + 1],
        )
    &&& forall|i: int| 0 <= i < ps.len() ==> is_only(readings[i], #[trigger] ps[i])
    &&& forall|i: int|
        0 <= i < ps.len() ==> (#[trigger] ps[i]).pid == ps[0].pid && ps[i].create_time
            == ps[0].create_time && ps[i].pid != 0
    &&& forall|i: int|
        0 <= i < ds.len() ==> reports[i].contains(#[trigger] ds[i]) && ds[i].pid == ps[i].pid
}

/// What a process is reported to have used over many readings adds up to how
/// far its counters went from the first reading to the last; of the bytes this
/// is so while the counter never goes back.
pub proof fn law_uses_add_up(
    states: Seq<Processes>,
    readings: Seq<Seq<RawProc>>,
    reports: Seq<Seq<ProcDelta>>,
    ps: Seq<RawProc>,
    ds: Seq<ProcDelta>,
    n: int,
)
    requires
        follows(states, readings, reports, ps, ds),
        1 <= n <= readings.len(),
        forall|i: int, j: int|
            0 <= i < j < ps.len() ==> (#[trigger] ps[i]).transfer <= (#[trigger] ps[j]).transfer,
    ensures
        used_in_all(ds, n).0 == ps[n - 1].time - ps[0].time,
        used_in_all(ds, n).1 == ps[n - 1].transfer - ps[0].transfer,
    decreases n,
{
    if n > 1 {
        law_uses_add_up(states, readings, reports, ps, ds, n - 1);
        let (a, b) = (readings[n - 2], readings[n - 1]);
        let (p, q) = (ps[n - 2], ps[n - 1]);
        assert(is_only(a, p) && is_only(b, q));
        assert(states[n - 2 + 1] == states[n - 1]);
        law_use_is_how_far_the_counters_went(
            states[n - 2],
            a,
            reports[n - 2],
            states[n - 1],
            b,
            reports[n - 1],
            states[n],
            p,
            q,
        );
        let d = ds[n - 1];
        assert(reports[n - 1].contains(d) && d.pid == q.pid);
        let last = reports[n - 1];
        let k = choose|k: int| 0 <= k < last.len() && last[k] == d;
        assert(last[k].pid == q.pid);
    }
}

// ---------------------------------------------------------------------------
// One row per program

/// The positions below `n` of the processes with a name.
pub open spec fn positions(list: Seq<ProcDelta>, name: Seq<char>, n: nat) -> Seq<usize>
    decreases n,
{
    if n == 0 {
        Seq::empty()
    } else if list[n - 1].name@ == name {
        positions(list, name, (n - 1) as nat).push((n - 1) as usize)
    } else {
        positions(list, name, (n - 1) as nat)
    }
}

/// The memory of the first `n` processes, as far as they have a name.
pub open spec fn named_mem(list: Seq<ProcDelta>, name: Seq<char>, n: nat) -> nat
    decreases n,
{
    if n == 0 {
        0
    } else {
        named_mem(list, name, (n - 1) as nat) + if list[n - 1].name@ == name {
            list[n - 1].mem as nat
        } else {
            0
        }
    }
}

/// `g` is the group of all processes below `n` with its name.
pub open spec fn is_group(list: Seq<ProcDelta>, n: nat, g: Group) -> bool {
    &&& g.members@ == positions(list, g.name@, n)
    &&& g.members@.len() > 0
    &&& g.members@[0] < list.len()
    &&& g.pid == list[g.members@[0] as int].pid
    &&& g.mem == named_mem(list, g.name@, n)
}

/// The groups of the first `n` processes: one for each name, in the order in
/// which the names come up.
pub open spec fn grouped(list: Seq<ProcDelta>, n: nat, groups: Seq<Group>) -> bool {
    &&& forall|a: int| 0 <= a < groups.len() ==> is_group(list, n, #[trigger] groups[a])
    &&& forall|a: int, b: int|
        0 <= a < b < groups.len() ==> (#[trigger] groups[a]).name@ != (#[trigger] groups[b]).name@
            && groups[a].members@[0] < groups[b].members@[0]
    &&& forall|i: int|
        0 <= i < n ==> exists|a: int|
            0 <= a < groups.len() && (#[trigger] groups[a]).name@ == (#[trigger] list[i]).name@
}

proof fn lemma_positions_bound(list: Seq<ProcDelta>, name: Seq<char>, n: nat)
    requires
        n <= list.len() <= usize::MAX,
    ensures
        forall|k: int|
            0 <= k < positions(list, name, n).len() ==> (#[trigger] positions(list, name, n)[k]) < n,
    decreases n,
{
    if n > 0 {
        let m = (n - 1) as nat;
        lemma_positions_bound(list, name, m);
        assert forall|k: int| 0 <= k < positions(list, name, n).len() implies (
        #[trigger] positions(list, name, n)[k]) < n by {
            if k < positions(list, name, m).len() {
                assert(positions(list, name, n)[k] == positions(list, name, m)[k]);
            }
        }
    }
}

proof fn lemma_no_positions(list: Seq<ProcDelta>, name: Seq<char>, n: nat)
    requires
        n <= list.len(),
        forall|i: int| 0 <= i < n ==> (#[trigger] list[i]).name@ != name,
    ensures
        positions(list, name, n).len() == 0,
        named_mem(list, name, n) == 0,
    decreases n,
{
    if n > 0 {
        lemma_no_positions(list, name, (n - 1) as nat);
    }
}

proof fn lemma_mem_bounds(list: Seq<ProcDelta>, name: Seq<char>, n: nat)
    requires
        n <= list.len(),
    ensures
        named_mem(list, name, n) <= mem_sum(list, n),
    decreases n,
{
    if n > 0 {
        lemma_mem_bounds(list, name, (n - 1) as nat);
    }
}

proof fn lemma_mem_grows(list: Seq<ProcDelta>, m: nat, n: nat)
    requires
        m <= n <= list.len(),
    ensures
        mem_sum(list, m) <= mem_sum(list, n),
    decreases n - m,
{
    if m < n {
        lemma_mem_grows(list, m, (n - 1) as nat);
    }
}

/// The memory of all processes.
pub fn total_mem(list: &Vec<ProcDelta>) -> (r: u64)
    requires
        mem_sum(list@, list@.len()) <= u64::MAX,
    ensures
        r == mem_sum(list@, list@.len()),
{
    let mut sum: u64 = 0;
    let mut i: usize = 0;
    while i < list.len()
        invariant
            i <= list.len(),
            sum == mem_sum(list@, i as nat),
            mem_sum(list@, list@.len()) <= u64::MAX,
        decreases list.len() - i,
    {
        proof {
            lemma_mem_grows(list@, (i + 1) as nat, list@.len());
        }
        sum = sum + list[i].mem;
        i += 1;
    }
    sum
}

/// Puts the processes of each program together (browser tabs and the like).
pub fn merge(list: &Vec<ProcDelta>) -> (r: Vec<Group>)
    requires
        mem_sum(list@, list@.len()) <= u64::MAX,
    ensures
        grouped(list@, list@.len(), r@),
{
    let mut groups: Vec<Group> = Vec::new();
    let mut i: usize = 0;
    while i < list.len()
        invariant
            i <= list.len(),
            list.len() == list@.len(),
            mem_sum(list@, list@.len()) <= u64::MAX,
            grouped(list@, i as nat, groups@),
        decreases list.len() - i,
    {
        let ghost name = list@[i as int].name@;
        let ghost g0 = groups@;
        let mut k: usize = 0;
        while k < groups.len() && !text::same(groups[k].name.as_str(), list[i].name.as_str())
            invariant
                k <= groups.len(),
                i < list.len(),
                name == list@[i as int].name@,
                forall|a: int| 0 <= a < k ==> (#[trigger] groups@[a]).name@ != name,
            decreases groups.len() - k,
        {
            k += 1;
        }
        proof {
            lemma_mem_grows(list@, (i + 1) as nat, list@.len());
            lemma_mem_bounds(list@, name, (i + 1) as nat);
        }
        if k < groups.len() {
            assert(is_group(list@, i as nat, g0[k as int]));
            groups[k].members.push(i);
            groups[k].mem = groups[k].mem + list[i].mem;
        } else {
            proof {
                assert forall|j: int| 0 <= j < i implies (#[trigger] list@[j]).name@ != name by {
                    let a = choose|a: int|
                        0 <= a < g0.len() && (#[trigger] g0[a]).name@ == list@[j].name@;
                }
                lemma_no_positions(list@, name, i as nat);
            }
            let mut members: Vec<usize> = Vec::new();
            members.push(i);
            groups.push(
                Group { pid: list[i].pid, name: list[i].name.clone(), mem: list[i].mem, members },
            );
        }
        proof {
            let g1 = groups@;
            let n1 = (i + 1) as nat;
            assert forall|a: int| 0 <= a < g1.len() implies is_group(list@, n1, #[trigger] g1[a]) by {
                if a < g0.len() {
                    assert(is_group(list@, i as nat, g0[a]));
                    if a == k {
                        assert(g1[a].members@ =~= g0[a].members@.push(i));
                    } else {
                        assert(g1[a] == g0[a]);
                        if a > k {
                            assert(g0[k as int].name@ != g0[a].name@);
                        }
                        assert(g0[a].name@ != name);
                    }
                } else {
                    assert(g1[a].members@ =~= positions(list@, name, n1));
                }
            }
            assert forall|a: int, b: int| 0 <= a < b < g1.len() implies (#[trigger] g1[a]).name@ != (
            #[trigger] g1[b]).name@ && g1[a].members@[0] < g1[b].members@[0] by {
                assert(is_group(list@, i as nat, g0[a]));
                assert(g1[a].name@ == g0[a].name@ && g1[a].members@[0] == g0[a].members@[0]);
                if b < g0.len() {
                    assert(is_group(list@, i as nat, g0[b]));
                    assert(g1[b].name@ == g0[b].name@ && g1[b].members@[0] == g0[b].members@[0]);
                } else {
                    lemma_positions_bound(list@, g0[a].name@, i as nat);
                    assert(g0[a].members@[0] == positions(list@, g0[a].name@, i as nat)[0]);
                }
            }
            assert forall|j: int| 0 <= j < n1 implies exists|a: int|
                0 <= a < g1.len() && (#[trigger] g1[a]).name@ == (#[trigger] list@[j]).name@ by {
                if j < i {
                    let a = choose|a: int|
                        0 <= a < g0.len() && (#[trigger] g0[a]).name@ == list@[j].name@;
                    assert(g1[a].name@ == g0[a].name@);
                } else {
                    assert(g1[k as int].name@ == name);
                }
            }
        }
        i += 1;
    }
    groups
}

/// The memory of the first `n` rows.
pub open spec fn group_mem_sum(groups: Seq<Group>, n: nat) -> nat
    decreases n,
{
    if n == 0 {
        0
    } else {
        group_mem_sum(groups, (n - 1) as nat) + groups[n - 1].mem as nat
    }
}

/// The memory of the first `m` groups, of the first `n` processes.
spec fn named_mem_sum(list: Seq<ProcDelta>, n: nat, groups: Seq<Group>, m: nat) -> nat
    decreases m,
{
    if m == 0 {
        0
    } else {
        named_mem_sum(list, n, groups, (m - 1) as nat) + named_mem(list, groups[m - 1].name@, n)
    }
}

proof fn lemma_one_more_process(list: Seq<ProcDelta>, n: nat, groups: Seq<Group>, m: nat, a: int)
    requires
        0 < n <= list.len(),
        m <= groups.len(),
        0 <= a < groups.len(),
        groups[a].name@ == list[n - 1].name@,
        forall|i: int, j: int|
            0 <= i < j < groups.len() ==> (#[trigger] groups[i]).name@ != (
            #[trigger] groups[j]).name@,
    ensures
        named_mem_sum(list, n, groups, m) == named_mem_sum(list, (n - 1) as nat, groups, m) + (
        if a < m {
            list[n - 1].mem as nat
        } else {
            0
        }),
    decreases m,
{
    if m > 0 {
        lemma_one_more_process(list, n, groups, (m - 1) as nat, a);
        let b = m - 1;
        assert(groups[b].name@ == list[n - 1].name@ <==> b == a) by {
            if b < a {
                assert(groups[b].name@ != groups[a].name@);
            } else if a < b {
                assert(groups[a].name@ != groups[b].name@);
            }
        }
    }
}

proof fn lemma_named_sums(list: Seq<ProcDelta>, n: nat, groups: Seq<Group>)
    requires
        n <= list.len(),
        forall|i: int, j: int|
            0 <= i < j < groups.len() ==> (#[trigger] groups[i]).name@ != (
            #[trigger] groups[j]).name@,
        forall|i: int|
            0 <= i < n ==> exists|a: int|
                0 <= a < groups.len() && (#[trigger] groups[a]).name@ == (#[trigger] list[i]).name@,
    ensures
        named_mem_sum(list, n, groups, groups.len()) == mem_sum(list, n),
    decreases n,
{
    if n > 0 {
        lemma_named_sums(list, (n - 1) as nat, groups);
        let a = choose|a: int|
            0 <= a < groups.len() && (#[trigger] groups[a]).name@ == list[n - 1].name@;
        assert(exists|a: int|
            0 <= a < groups.len() && (#[trigger] groups[a]).name@ == list[n - 1].name@);
        lemma_one_more_process(list, n, groups, groups.len(), a);
    } else {
        lemma_no_processes(list, groups, groups.len());
    }
}

proof fn lemma_no_processes(list: Seq<ProcDelta>, groups: Seq<Group>, m: nat)
    ensures
        named_mem_sum(list, 0, groups, m) == 0,
    decreases m,
{
    if m > 0 {
        lemma_no_processes(list, groups, (m - 1) as nat);
    }
}

proof fn lemma_group_sums(list: Seq<ProcDelta>, groups: Seq<Group>, m: nat)
    requires
        m <= groups.len(),
        grouped(list, list.len(), groups),
    ensures
        group_mem_sum(groups, m) == named_mem_sum(list, list.len(), groups, m),
    decreases m,
{
    if m > 0 {
        lemma_group_sums(list, groups, (m - 1) as nat);
        assert(is_group(list, list.len(), groups[m - 1]));
    }
}

proof fn lemma_positions_hold(list: Seq<ProcDelta>, name: Seq<char>, n: nat)
    requires
        n <= list.len() <= usize::MAX,
    ensures
        forall|i: int|
            0 <= i < n ==> (positions(list, name, n).contains(i as usize) <==> (
            #[trigger] list[i]).name@ == name),
        forall|k: int|
            0 <= k < positions(list, name, n).len() ==> (#[trigger] positions(list, name, n)[k]) < n,
        forall|k: int, l: int|
            0 <= k < l < positions(list, name, n).len() ==> (#[trigger] positions(list, name, n)[k])
                < (#[trigger] positions(list, name, n)[l]),
    decreases n,
{
    if n > 0 {
        let m = (n - 1) as nat;
        lemma_positions_hold(list, name, m);
        let (s, r) = (positions(list, name, m), positions(list, name, n));
        assert forall|i: int| 0 <= i < n implies (r.contains(i as usize) <==> (
        #[trigger] list[i]).name@ == name) by {
            if i < m {
                if s.contains(i as usize) {
                    let k = choose|k: int| 0 <= k < s.len() && s[k] == i as usize;
                    assert(r[k] == s[k]);
                }
                if r.contains(i as usize) {
                    let k = choose|k: int| 0 <= k < r.len() && r[k] == i as usize;
                    assert(k < s.len() && s[k] == r[k]);
                }
            } else if list[i].name@ == name {
                assert(r[r.len() - 1] == i as usize);
            } else if r.contains(i as usize) {
                let k = choose|k: int| 0 <= k < r.len() && r[k] == i as usize;
                assert(s[k] < m);
            }
        }
    }
}

/// The rows share out the processes: each is a member of the row of its name and
/// of no other, a row has the number of the first of its members, and the rows'
/// memory together is the memory of all processes.
pub proof fn law_rows_share_out_the_processes(list: Seq<ProcDelta>, groups: Seq<Group>)
    requires
        grouped(list, list.len(), groups),
        list.len() <= usize::MAX,
    ensures
        forall|i: int, a: int|
            0 <= i < list.len() && 0 <= a < groups.len() ==> ((
            #[trigger] groups[a]).members@.contains(i as usize) <==> groups[a].name@ == (
            #[trigger] list[i]).name@),
        forall|i: int|
            0 <= i < list.len() ==> exists|a: int|
                0 <= a < groups.len() && (#[trigger] groups[a]).name@ == (#[trigger] list[i]).name@,
        forall|a: int, b: int|
            0 <= a < b < groups.len() ==> (#[trigger] groups[a]).name@ != (
            #[trigger] groups[b]).name@,
        forall|a: int, k: int|
            0 <= a < groups.len() && 0 <= k < groups[a].members@.len() ==> groups[a].members@[0] <= (
            #[trigger] groups[a].members@[k]) < list.len(),
        forall|a: int|
            0 <= a < groups.len() ==> (#[trigger] groups[a]).members@.len() > 0 && groups[a].pid
                == list[groups[a].members@[0] as int].pid,
        group_mem_sum(groups, groups.len()) == mem_sum(list, list.len()),
{
    assert forall|i: int, a: int| 0 <= i < list.len() && 0 <= a < groups.len() implies ((
    #[trigger] groups[a]).members@.contains(i as usize) <==> groups[a].name@ == (
    #[trigger] list[i]).name@) by {
        assert(is_group(list, list.len(), groups[a]));
        lemma_positions_hold(list, groups[a].name@, list.len());
    }
    assert forall|a: int, k: int|
        0 <= a < groups.len() && 0 <= k < groups[a].members@.len() implies groups[a].members@[0]
        <= (#[trigger] groups[a].members@[k]) < list.len() by {
        assert(is_group(list, list.len(), groups[a]));
        lemma_positions_hold(list, groups[a].name@, list.len());
        let s = positions(list, groups[a].name@, list.len());
        assert(s[k] == groups[a].members@[k] && s[0] == groups[a].members@[0]);
    }
    lemma_group_sums(list, groups, groups.len());
    lemma_named_sums(list, list.len(), groups);
}

// ---------------------------------------------------------------------------
// The leading rows

pub open spec fn cpu_keys(rows: Seq<ProcInfo>) -> Seq<Descending<Single>> {
    rows.map_values(|p: ProcInfo| Descending(p.cpu))
}

pub open spec fn mem_keys(rows: Seq<ProcInfo>) -> Seq<Descending<u64>> {
    rows.map_values(|p: ProcInfo| Descending(p.mem))
}

pub open spec fn io_keys(rows: Seq<ProcInfo>) -> Seq<Descending<Double>> {
    rows.map_values(|p: ProcInfo| Descending(p.io))
}

/// The rows sorted by CPU, those sorted again by memory, and those by I/O,
/// each time the largest first.
pub open spec fn sorted_lists(
    rows: Seq<ProcInfo>,
    c: Seq<ProcInfo>,
    m: Seq<ProcInfo>,
    o: Seq<ProcInfo>,
) -> bool {
    &&& order::is_sorted_copy(rows, cpu_keys(rows), c)
    &&& order::is_sorted_copy(c, mem_keys(c), m)
    &&& order::is_sorted_copy(m, io_keys(m), o)
}

/// The first `n` items, or all where there are fewer.
pub open spec fn first<T>(s: Seq<T>, n: int) -> Seq<T> {
    if n < s.len() {
        s.take(n)
    } else {
        s
    }
}

/// The rows that lead each list have been set.
pub open spec fn topped(
    before: Processes,
    rows: Seq<ProcInfo>,
    mem_total: u64,
    after: Processes,
) -> bool {
    &&& exists|c: Seq<ProcInfo>, m: Seq<ProcInfo>, o: Seq<ProcInfo>| #[trigger]
        sorted_lists(rows, c, m, o) && {
            let n = after.top_n as int;
            &&& after.top_cpu@ == first(c, n)
            &&& after.top_mem@ == first(m, n)
            &&& after.top_io@ == first(o.filter(|p: ProcInfo| p.io.positive()), n)
        }
    &&& after.mem_total == mem_total
    &&& after.prev == before.prev
    &&& after.cores == before.cores
    &&& after.top_n == before.top_n
}

proof fn lemma_sorted_len<K: SortKey>(items: Seq<ProcInfo>, keys: Seq<K>, r: Seq<ProcInfo>)
    requires
        order::is_sorted_copy(items, keys, r),
    ensures
        r.len() == keys.len(),
{
}

pub fn copy_first(rows: &Vec<ProcInfo>, n: usize) -> (r: Vec<ProcInfo>)
    ensures
        r@ == first(rows@, n as int),
{
    let mut r: Vec<ProcInfo> = Vec::new();
    let mut i: usize = 0;
    while i < rows.len() && i < n
        invariant
            i <= rows.len(),
            i <= n,
            r@ == rows@.take(i as int),
        decreases rows.len() - i,
    {
        r.push(rows[i].copy());
        i += 1;
    }
    assert(rows@.take(rows@.len() as int) =~= rows@);
    r
}

/// The rows stand with the largest of what `of` measures first.
pub open spec fn falls(s: Seq<ProcInfo>, of: spec_fn(ProcInfo) -> int) -> bool {
    forall|i: int, j: int| 0 <= i < j < s.len() ==> of(#[trigger] s[j]) <= of(#[trigger] s[i])
}

proof fn lemma_filter_falls(
    s: Seq<ProcInfo>,
    keep: spec_fn(ProcInfo) -> bool,
    of: spec_fn(ProcInfo) -> int,
)
    requires
        falls(s, of),
    ensures
        falls(s.filter(keep), of),
        forall|i: int| 0 <= i < s.filter(keep).len() ==> s.contains(#[trigger] s.filter(keep)[i]),
    decreases s.len(),
{
    reveal(Seq::filter);
    if s.len() > 0 {
        let t = s.drop_last();
        lemma_filter_falls(t, keep, of);
        let (f, g) = (t.filter(keep), s.filter(keep));
        assert forall|i: int| 0 <= i < g.len() implies s.contains(#[trigger] g[i]) by {
            if i < f.len() {
                assert(g[i] == f[i]);
                let w = choose|w: int| 0 <= w < t.len() && t[w] == f[i];
                assert(s[w] == f[i]);
            } else {
                assert(s[s.len() - 1] == g[i]);
            }
        }
        assert forall|i: int, j: int| 0 <= i < j < g.len() implies of(#[trigger] g[j]) <= of(
            #[trigger] g[i],
        ) by {
            assert(g[i] == f[i]);
            if j < f.len() {
                assert(g[j] == f[j]);
            } else {
                let w = choose|w: int| 0 <= w < t.len() && t[w] == f[i];
                assert(s[w] == f[i] && s[s.len() - 1] == g[j]);
            }
        }
    }
}

/// No list is longer than the number of rows asked for, and every list leads
/// with the largest: by CPU, by memory, and by I/O, the last only with rows that
/// have any. The whole order falls, so that what a list leaves out is not above
/// what it shows.
pub proof fn law_top_rows_lead(
    rows: Seq<ProcInfo>,
    c: Seq<ProcInfo>,
    m: Seq<ProcInfo>,
    o: Seq<ProcInfo>,
    n: int,
)
    requires
        n >= 0,
        sorted_lists(rows, c, m, o),
    ensures
        ({
            let busy = o.filter(|p: ProcInfo| p.io.positive());
            &&& first(c, n).len() <= n
            &&& first(m, n).len() <= n
            &&& first(busy, n).len() <= n
            &&& falls(c, |p: ProcInfo| p.cpu.rank())
            &&& falls(m, |p: ProcInfo| p.mem as int)
            &&& falls(busy, |p: ProcInfo| p.io.rank())
            &&& forall|i: int| 0 <= i < busy.len() ==> (#[trigger] busy[i]).io.positive()
        }),
{
    lemma_cpu_falls(rows, c);
    lemma_mem_falls(c, m);
    lemma_io_falls(m, o);
    let keep = |p: ProcInfo| p.io.positive();
    lemma_filter_falls(o, keep, |p: ProcInfo| p.io.rank());
    assert forall|i: int| 0 <= i < o.filter(keep).len() implies (
    #[trigger] o.filter(keep)[i]).io.positive() by {
        o.lemma_filter_pred(keep, i);
    }
}

proof fn lemma_cpu_falls(s: Seq<ProcInfo>, r: Seq<ProcInfo>)
    requires
        order::is_sorted_copy(s, cpu_keys(s), r),
    ensures
        falls(r, |p: ProcInfo| p.cpu.rank()),
{
    let keys = cpu_keys(s);
    let p = choose|p: Seq<usize>| #[trigger]
        order::is_stable_order(keys, p) && r == order::arranged(s, p);
    assert forall|i: int, j: int| 0 <= i < j < r.len() implies (#[trigger] r[j]).cpu.rank() <= (
    #[trigger] r[i]).cpu.rank() by {
        assert(order::goes_first(keys, p[i] as int, p[j] as int));
    }
}

proof fn lemma_mem_falls(s: Seq<ProcInfo>, r: Seq<ProcInfo>)
    requires
        order::is_sorted_copy(s, mem_keys(s), r),
    ensures
        falls(r, |p: ProcInfo| p.mem as int),
{
    let keys = mem_keys(s);
    let p = choose|p: Seq<usize>| #[trigger]
        order::is_stable_order(keys, p) && r == order::arranged(s, p);
    assert forall|i: int, j: int| 0 <= i < j < r.len() implies (#[trigger] r[j]).mem <= (
    #[trigger] r[i]).mem by {
        assert(order::goes_first(keys, p[i] as int, p[j] as int));
    }
}

proof fn lemma_io_falls(s: Seq<ProcInfo>, r: Seq<ProcInfo>)
    requires
        order::is_sorted_copy(s, io_keys(s), r),
    ensures
        falls(r, |p: ProcInfo| p.io.rank()),
{
    let keys = io_keys(s);
    let p = choose|p: Seq<usize>| #[trigger]
        order::is_stable_order(keys, p) && r == order::arranged(s, p);
    assert forall|i: int, j: int| 0 <= i < j < r.len() implies (#[trigger] r[j]).io.rank() <= (
    #[trigger] r[i]).io.rank() by {
        assert(order::goes_first(keys, p[i] as int, p[j] as int));
    }
}

/// The list holds rows of `rows`, no more than `n`, the largest first; and a row
/// that it leaves out is no larger than any that it holds, and is left out only
/// where it is full or where the row does not belong in it.
pub open spec fn leads(
    rows: Seq<ProcInfo>,
    n: int,
    belongs: spec_fn(ProcInfo) -> bool,
    of: spec_fn(ProcInfo) -> int,
    list: Seq<ProcInfo>,
) -> bool {
    &&& list.len() <= n
    &&& falls(list, of)
    &&& forall|k: int|
        0 <= k < list.len() ==> rows.contains(#[trigger] list[k]) && belongs(list[k])
    &&& forall|i: int|
        0 <= i < rows.len() && belongs(#[trigger] rows[i]) && !list.contains(rows[i]) ==> {
            &&& list.len() == n
            &&& forall|k: int| 0 <= k < list.len() ==> of(rows[i]) <= of(#[trigger] list[k])
        }
}

proof fn lemma_first_leads(
    rows: Seq<ProcInfo>,
    n: int,
    belongs: spec_fn(ProcInfo) -> bool,
    of: spec_fn(ProcInfo) -> int,
    s: Seq<ProcInfo>,
)
    requires
        n >= 0,
        falls(s, of),
        forall|k: int| 0 <= k < s.len() ==> rows.contains(#[trigger] s[k]) && belongs(s[k]),
        forall|i: int|
            0 <= i < rows.len() && belongs(#[trigger] rows[i]) ==> s.contains(rows[i]),
    ensures
        leads(rows, n, belongs, of, first(s, n)),
{
    let list = first(s, n);
    assert forall|k: int| 0 <= k < list.len() implies rows.contains(#[trigger] list[k]) && belongs(
        list[k],
    ) by {
        assert(list[k] == s[k]);
    }
    assert forall|i: int, j: int| 0 <= i < j < list.len() implies of(#[trigger] list[j]) <= of(
        #[trigger] list[i],
    ) by {
        assert(list[i] == s[i] && list[j] == s[j]);
    }
    assert forall|i: int|
        0 <= i < rows.len() && belongs(#[trigger] rows[i]) && !list.contains(rows[i]) implies {
        &&& list.len() == n
        &&& forall|k: int| 0 <= k < list.len() ==> of(rows[i]) <= of(#[trigger] list[k])
    } by {
        assert(s.contains(rows[i]));
        let w = choose|w: int| 0 <= w < s.len() && s[w] == rows[i];
        if w < list.len() {
            assert(list[w] == rows[i]);
        }
        assert forall|k: int| 0 <= k < list.len() implies of(rows[i]) <= of(#[trigger] list[k]) by {
            assert(list[k] == s[k] && k < w);
        }
    }
}

proof fn lemma_same_rows<K: SortKey>(s: Seq<ProcInfo>, keys: Seq<K>, r: Seq<ProcInfo>)
    requires
        order::is_sorted_copy(s, keys, r),
        keys.len() == s.len() <= usize::MAX,
    ensures
        r.len() == s.len(),
        forall|k: int| 0 <= k < r.len() ==> s.contains(#[trigger] r[k]),
        forall|i: int| 0 <= i < s.len() ==> r.contains(#[trigger] s[i]),
{
    let p = choose|p: Seq<usize>| #[trigger]
        order::is_stable_order(keys, p) && r == order::arranged(s, p);
    assert forall|k: int| 0 <= k < r.len() implies s.contains(#[trigger] r[k]) by {
        assert(p[k] < p.len());
        assert(r[k] == s[p[k] as int]);
    }
    assert forall|i: int| 0 <= i < s.len() implies r.contains(#[trigger] s[i]) by {
        order::lemma_permutation_covers(p, i);
        let w = choose|w: int| 0 <= w < p.len() && p[w] == i;
        assert(r[w] == s[i]);
    }
}

/// The three lists lead with the rows that are largest in CPU, in memory and in
/// I/O, the last among the rows that have any, as many as are asked for.
pub proof fn law_lists_hold_the_largest(
    before: Processes,
    rows: Seq<ProcInfo>,
    mem_total: u64,
    after: Processes,
)
    requires
        topped(before, rows, mem_total, after),
        rows.len() <= usize::MAX,
    ensures
        leads(
            rows,
            before.top_n as int,
            |p: ProcInfo| true,
            |p: ProcInfo| p.cpu.rank(),
            after.top_cpu@,
        ),
        leads(
            rows,
            before.top_n as int,
            |p: ProcInfo| true,
            |p: ProcInfo| p.mem as int,
            after.top_mem@,
        ),
        leads(
            rows,
            before.top_n as int,
            |p: ProcInfo| p.io.positive(),
            |p: ProcInfo| p.io.rank(),
            after.top_io@,
        ),
        after.mem_total == mem_total,
{
    let n = after.top_n as int;
    let keep = |p: ProcInfo| p.io.positive();
    let all = |p: ProcInfo| true;
    let (c, m, o) = choose|c: Seq<ProcInfo>, m: Seq<ProcInfo>, o: Seq<ProcInfo>| #[trigger]
        sorted_lists(rows, c, m, o) && {
            &&& after.top_cpu@ == first(c, n)
            &&& after.top_mem@ == first(m, n)
            &&& after.top_io@ == first(o.filter(keep), n)
        };
    lemma_same_rows(rows, cpu_keys(rows), c);
    lemma_same_rows(c, mem_keys(c), m);
    lemma_same_rows(m, io_keys(m), o);
    lemma_cpu_falls(rows, c);
    lemma_mem_falls(c, m);
    lemma_io_falls(m, o);
    lemma_filter_falls(o, keep, |p: ProcInfo| p.io.rank());
    lemma_first_leads(rows, n, all, |p: ProcInfo| p.cpu.rank(), c);
    assert forall|k: int| 0 <= k < m.len() implies rows.contains(#[trigger] m[k]) by {
        assert(c.contains(m[k]));
        let w = choose|w: int| 0 <= w < c.len() && c[w] == m[k];
        assert(rows.contains(c[w]));
    }
    assert forall|i: int| 0 <= i < rows.len() implies m.contains(#[trigger] rows[i]) by {
        assert(c.contains(rows[i]));
        let w = choose|w: int| 0 <= w < c.len() && c[w] == rows[i];
        assert(m.contains(c[w]));
    }
    lemma_first_leads(rows, n, all, |p: ProcInfo| p.mem as int, m);
    let f = o.filter(keep);
    assert forall|k: int| 0 <= k < f.len() implies rows.contains(#[trigger] f[k]) && keep(f[k]) by {
        o.lemma_filter_pred(keep, k);
        assert(o.contains(f[k]));
        let w = choose|w: int| 0 <= w < o.len() && o[w] == f[k];
        assert(m.contains(o[w]));
        let v = choose|v: int| 0 <= v < m.len() && m[v] == o[w];
        assert(rows.contains(m[v]));
    }
    assert forall|i: int| 0 <= i < rows.len() && keep(#[trigger] rows[i]) implies f.contains(
        rows[i],
    ) by {
        assert(m.contains(rows[i]));
        let w = choose|w: int| 0 <= w < m.len() && m[w] == rows[i];
        assert(o.contains(m[w]));
        let v = choose|v: int| 0 <= v < o.len() && o[v] == m[w];
        o.lemma_filter_contains(keep, v);
    }
    lemma_first_leads(rows, n, keep, |p: ProcInfo| p.io.rank(), f);
}

/// The entries follow each other: the first stands at the beginning, each tells
/// how far the next one is, and behind the last nothing whole follows.
pub proof fn law_entries_follow_each_other(b: Seq<u8>, wide: bool, off: int, i: int)
    requires
        0 <= off,
        0 <= i < entry_offsets(b, wide, off).len(),
    ensures
        ({
            let e = entry_offsets(b, wide, off);
            &&& e[0] == off
            &&& off <= e[i] && e[i] + places(wide).len <= b.len()
            &&& i + 1 < e.len() ==> e[i + 1] == e[i] + le_number(b, e[i], 4) && e[i] < e[i + 1]
            &&& i + 1 == e.len() ==> le_number(b, e[i], 4) == 0 || e[i] + le_number(b, e[i], 4)
                + places(wide).len > b.len()
        }),
    decreases b.len() - off,
{
    let e = entry_offsets(b, wide, off);
    let next = le_number(b, off, 4) as int;
    if next > 0 && off + next <= b.len() {
        let t = entry_offsets(b, wide, off + next);
        assert(e == seq![off] + t);
        if i > 0 {
            law_entries_follow_each_other(b, wide, off + next, i - 1);
            assert(e[i] == t[i - 1]);
            if i + 1 < e.len() {
                assert(e[i + 1] == t[i]);
            }
        } else if t.len() > 0 {
            law_entries_follow_each_other(b, wide, off + next, 0);
            assert(e[1] == t[0]);
        }
    }
}

/// A process is told by its own entry: its time is that in the kernel and outside
/// it together, its transfer what was read and written together, and each number
/// is read where it stands on such a system.
pub proof fn law_process_is_told_by_its_entry(
    b: Seq<u8>,
    base: int,
    wide: bool,
    off: int,
    p: RawProc,
)
    requires
        is_entry(b, base, wide, off, p),
    ensures
        wide ==> p.pid == le_number(b, off + 80, 4),
        !wide ==> p.pid == le_number(b, off + 68, 4),
        p.private == signed_number(b, off + 8),
        p.create_time == signed_number(b, off + 32),
        -0x4000_0000_0000_0000 <= signed_number(b, off + 40) < 0x4000_0000_0000_0000
            && -0x4000_0000_0000_0000 <= signed_number(b, off + 48) < 0x4000_0000_0000_0000
            ==> p.time == signed_number(b, off + 40) + signed_number(b, off + 48),
        wide && 0 <= signed_number(b, off + 232) < 0x4000_0000_0000_0000 && 0 <= signed_number(
            b,
            off + 240,
        ) < 0x4000_0000_0000_0000 ==> p.transfer == signed_number(b, off + 232) + signed_number(
            b,
            off + 240,
        ),
        !wide && 0 <= signed_number(b, off + 160) < 0x4000_0000_0000_0000 && 0 <= signed_number(
            b,
            off + 168,
        ) < 0x4000_0000_0000_0000 ==> p.transfer == signed_number(b, off + 160) + signed_number(
            b,
            off + 168,
        ),
{
}

/// A process is called by its image name as it was written; of those without one,
/// the idle process has a name of its own.
pub proof fn law_processes_are_called_by_their_image(pid: u32, s: Seq<char>)
    ensures
        process_name(pid, Some(util::utf16(s))) == s,
        process_name(0, None) != process_name(4, None),
        pid != 0 ==> process_name(pid, None) == process_name(4, None),
{
    util::law_wide_round_trip(s);
    reveal_strlit("System Idle");
    reveal_strlit("System");
    assert("System Idle"@.len() == 11 && "System"@.len() == 6);
}

} // verus!
