//! Per-core CPU times: the classes and packages of the cores, and what each
//! core did between two readings.

use crate::text;
use vstd::prelude::*;

verus! {

/// The times of one core since the system started; kernel time holds idle
/// time.
#[derive(Clone, Copy, Debug, Default, PartialEq, Eq, Structural)]
pub struct ProcPerf {
    pub idle: i64,
    pub kernel: i64,
    pub user: i64,
}

/// What a core did between two readings.
#[derive(Clone, Copy, Debug, Default, PartialEq, Eq, Structural)]
pub struct CoreTimes {
    /// Time not idle.
    pub busy: i64,
    /// Kernel time not idle.
    pub system: i64,
    pub user: i64,
    /// The whole span, of which `busy` is a part.
    pub total: i64,
}

// ---------------------------------------------------------------------------
// Which core belongs to what

/// A number of `n` bytes, the lowest first.
pub open spec fn le_number(b: Seq<u8>, at: int, n: nat) -> nat
    decreases n,
{
    if n == 0 {
        0
    } else {
        b[at] as nat + 256 * le_number(b, at + 1, (n - 1) as nat)
    }
}

pub(crate) fn read_u16(b: &[u8], at: usize) -> (r: usize)
    requires
        at + 2 <= b.len(),
    ensures
        r == le_number(b@, at as int, 2),
        r < 0x1_0000,
{
    reveal_with_fuel(le_number, 3);
    b[at] as usize + 0x100 * (b[at + 1] as usize)
}

pub(crate) fn read_u32(b: &[u8], at: usize) -> (r: u64)
    requires
        at + 4 <= b.len(),
    ensures
        r == le_number(b@, at as int, 4),
        r < 0x1_0000_0000,
{
    reveal_with_fuel(le_number, 5);
    b[at] as u64 + 0x100 * (b[at + 1] as u64) + 0x1_0000 * (b[at + 2] as u64) + 0x100_0000 * (
    b[at + 3] as u64)
}

pub(crate) fn read_u64(b: &[u8], at: usize) -> (r: u64)
    requires
        at + 8 <= b.len(),
    ensures
        r == le_number(b@, at as int, 8),
{
    let lo: u64 = read_u32(b, at);
    let hi: u64 = read_u32(b, at + 4);
    reveal_with_fuel(le_number, 9);
    assert(le_number(b@, at as int, 8) == le_number(b@, at as int, 4) + 0x1_0000_0000 * le_number(
        b@,
        at + 4,
        4,
    ));
    lo + 0x1_0000_0000 * hi
}

/// A bit of a mask.
pub open spec fn bit_set(mask: u64, bit: u64) -> bool {
    (mask >> bit) & 1u64 == 1u64
}

/// The entry at `off` lists the processor: one of its groups, as far as they
/// lie in the buffer, is the first processor group with the processor's bit.
pub open spec fn entry_covers(buf: Seq<u8>, off: int, bit: int) -> bool {
    exists|g: int|
        0 <= g < le_number(buf, off + 30, 2) && #[trigger] group_covers(buf, off + 32 + g * 16, bit)
}

/// The group affinity at `at` is of the first group and has the bit.
pub open spec fn group_covers(buf: Seq<u8>, at: int, bit: int) -> bool {
    &&& at + 16 <= buf.len()
    &&& le_number(buf, at + 8, 2) == 0
    &&& 0 <= bit < 64
    &&& bit_set(le_number(buf, at, 8) as u64, bit as u64)
}

/// What is known of the processors from the entries from `off` on, given what
/// was known before: an entry gives each processor it lists its efficiency
/// class, or its own number, and later entries win.
pub open spec fn ids_from(
    buf: Seq<u8>,
    off: int,
    entry: nat,
    use_class: bool,
    known: Seq<u8>,
) -> Seq<u8>
    decreases buf.len() - off,
{
    let size = le_number(buf, off + 4, 4) as int;
    if off < 0 || off + 32 > buf.len() || size <= 0 {
        known
    } else {
        let id = if use_class {
            buf[off + 9]
        } else {
            (entry % 256) as u8
        };
        let next = Seq::new(
            known.len(),
            |b: int|
                if entry_covers(buf, off, b) {
                    id
                } else {
                    known[b]
                },
        );
        if off + size > buf.len() {
            next
        } else {
            ids_from(buf, off + size, entry + 1, use_class, next)
        }
    }
}

/// Reads the system's list of processor relations: for each of `n` processors
/// the efficiency class of the entry that lists it (`use_class`), or the
/// number of that entry. Zero for a processor that no entry lists.
pub fn relation_ids(n: usize, buf: &[u8], use_class: bool) -> (r: Vec<u8>)
    ensures
        r@ == ids_from(buf@, 0, 0, use_class, Seq::new(n as nat, |i: int| 0u8)),
{
    let mut ids: Vec<u8> = Vec::new();
    let mut i: usize = 0;
    while i < n
        invariant
            i <= n,
            ids@ == Seq::new(i as nat, |k: int| 0u8),
        decreases n - i,
    {
        ids.push(0);
        i += 1;
    }
    let ghost start = ids@;
    let mut off: usize = 0;
    let mut entry: u8 = 0;
    let ghost mut count: nat = 0;
    loop
        invariant_except_break
            ids_from(buf@, 0, 0, use_class, start) == ids_from(
                buf@,
                off as int,
                count,
                use_class,
                ids@,
            ),
        invariant
            ids@.len() == n,
            entry == count % 256,
        ensures
            ids@ == ids_from(buf@, 0, 0, use_class, start),
        decreases buf@.len() - off,
    {
        if buf.len() < 32 || off > buf.len() - 32 {
            break;
        }
        let size: u64 = read_u32(buf, off + 4);
        if size == 0 {
            break;
        }
        let id: u8 = if use_class {
            buf[off + 9]
        } else {
            entry
        };
        let groups: usize = read_u16(buf, off + 30);
        let ghost known = ids@;
        let mut g: usize = 0;
        let mut at: usize = off + 32;
        while g < groups
            invariant
                g <= groups < 0x1_0000,
                off + 32 <= buf.len(),
                groups == le_number(buf@, off + 30, 2),
                at == off + 32 + g * 16,
                at <= buf.len(),
                ids@.len() == n,
                known.len() == n,
                forall|b: int|
                    0 <= b < n ==> #[trigger] ids@[b] == (if exists|h: int|
                        0 <= h < g && #[trigger] group_covers(buf@, off + 32 + h * 16, b) {
                        id
                    } else {
                        known[b]
                    }),
            ensures
                forall|b: int|
                    0 <= b < n ==> #[trigger] ids@[b] == (if entry_covers(buf@, off as int, b) {
                        id
                    } else {
                        known[b]
                    }),
                ids@.len() == n,
            decreases groups - g,
        {
            if buf.len() - at < 16 {
                proof {
                    assert forall|b: int, h: int| g <= h implies !#[trigger] group_covers(
                        buf@,
                        off + 32 + h * 16,
                        b,
                    ) by {
                        assert(off + 32 + h * 16 >= at) by (nonlinear_arith)
                            requires
                                h >= g,
                                at == off + 32 + g * 16,
                        ;
                    }
                }
                break;
            }
            let mask: u64 = read_u64(buf, at);
            let group: usize = read_u16(buf, at + 8);
            let ghost before = ids@;
            if group == 0 {
                let mut bit: usize = 0;
                while bit < 64 && bit < n
                    invariant
                        bit <= 64,
                        bit <= n,
                        ids@.len() == n,
                        before.len() == n,
                        at + 16 <= buf@.len(),
                        le_number(buf@, at + 8, 2) == 0,
                        mask == le_number(buf@, at as int, 8),
                        forall|b: int| bit <= b < n ==> #[trigger] ids@[b] == before[b],
                        forall|b: int|
                            0 <= b < bit ==> #[trigger] ids@[b] == (if group_covers(
                                buf@,
                                at as int,
                                b,
                            ) {
                                id
                            } else {
                                before[b]
                            }),
                    decreases n - bit,
                {
                    let shift: u64 = bit as u64;
                    if (mask >> shift) & 1u64 == 1u64 {
                        assert(bit_set(mask, bit as u64));
                        assert(group_covers(buf@, at as int, bit as int));
                        ids.set(bit, id);
                    } else {
                        assert(!bit_set(mask, bit as u64));
                        assert(!group_covers(buf@, at as int, bit as int));
                    }
                    bit += 1;
                }
            }
            proof {
                assert forall|b: int| 0 <= b < n implies #[trigger] ids@[b] == (if exists|h: int|
                    0 <= h < g + 1 && #[trigger] group_covers(buf@, off + 32 + h * 16, b) {
                    id
                } else {
                    known[b]
                }) by {
                    assert(before[b] == (if exists|h: int|
                        0 <= h < g && #[trigger] group_covers(buf@, off + 32 + h * 16, b) {
                        id
                    } else {
                        known[b]
                    }));
                    if group_covers(buf@, at as int, b) {
                        assert(group_covers(buf@, off + 32 + g * 16, b));
                        assert(ids@[b] == id);
                    } else {
                        assert(ids@[b] == before[b]);
                        assert(!group_covers(buf@, off + 32 + g * 16, b));
                    }
                }
            }
            g += 1;
            at = at + 16;
        }
        proof {
            let next = Seq::new(
                known.len(),
                |b: int|
                    if entry_covers(buf@, off as int, b) {
                        id
                    } else {
                        known[b]
                    },
            );
            assert(ids@ =~= next);
            count = count + 1;
        }
        entry = entry.wrapping_add(1);
        if size > (buf.len() - off) as u64 {
            break;
        }
        off = off + size as usize;
    }
    ids
}

/// The number of sockets: one more than the highest package, at least one.
pub open spec fn socket_count(packages: Seq<u8>) -> nat
    decreases packages.len(),
{
    if packages.len() == 0 {
        1
    } else {
        let rest = socket_count(packages.drop_last());
        if packages.last() as nat + 1 > rest {
            packages.last() as nat + 1
        } else {
            rest
        }
    }
}

pub fn sockets(packages: &Vec<u8>) -> (r: usize)
    ensures
        r == socket_count(packages@),
{
    let mut r: usize = 1;
    let mut i: usize = 0;
    while i < packages.len()
        invariant
            i <= packages.len(),
            1 <= r <= 256,
            r == socket_count(packages@.take(i as int)),
        decreases packages.len() - i,
    {
        assert(packages@.take(i + 1).drop_last() =~= packages@.take(i as int));
        assert(packages@.take(i + 1).last() == packages@[i as int]);
        if packages[i] as usize + 1 > r {
            r = packages[i] as usize + 1;
        }
        i += 1;
    }
    assert(packages@.take(packages@.len() as int) =~= packages@);
    r
}

/// The name of the processor: its words with single spaces, or nothing.
pub fn cpu_name(registered: Option<String>) -> (r: String)
    ensures
        match registered {
            Some(s) => r@ == text::squeezed(s@),
            None => r@.len() == 0,
        },
{
    match registered {
        Some(s) => text::squeeze(s.as_str()),
        None => String::new(),
    }
}

// ---------------------------------------------------------------------------
// From one reading to the next

pub open spec fn at_least_zero(n: int) -> int {
    if n > 0 {
        n
    } else {
        0
    }
}

pub open spec fn in_i64(n: int) -> bool {
    i64::MIN <= n <= i64::MAX
}

/// The differences between two readings of a core fit in 64 bits.
pub open spec fn times_fit(a: ProcPerf, b: ProcPerf) -> bool {
    let kernel = b.kernel - a.kernel;
    let user = b.user - a.user;
    let idle = b.idle - a.idle;
    &&& in_i64(kernel)
    &&& in_i64(user)
    &&& in_i64(idle)
    &&& in_i64(kernel + user)
    &&& in_i64(kernel + user - idle)
    &&& in_i64(kernel - idle)
}

/// What a core did between two readings; kernel time holds idle time.
pub open spec fn times_between(a: ProcPerf, b: ProcPerf) -> CoreTimes {
    let kernel = b.kernel - a.kernel;
    let user = b.user - a.user;
    let idle = b.idle - a.idle;
    CoreTimes {
        busy: at_least_zero(kernel + user - idle) as i64,
        system: at_least_zero(kernel - idle) as i64,
        user: at_least_zero(user) as i64,
        total: (kernel + user) as i64,
    }
}

fn core_times(a: &ProcPerf, b: &ProcPerf) -> (r: CoreTimes)
    requires
        times_fit(*a, *b),
    ensures
        r == times_between(*a, *b),
{
    let kernel: i64 = b.kernel - a.kernel;
    let user: i64 = b.user - a.user;
    let idle: i64 = b.idle - a.idle;
    let total: i64 = kernel + user;
    let busy: i64 = total - idle;
    let system: i64 = kernel - idle;
    CoreTimes {
        busy: if busy > 0 {
            busy
        } else {
            0
        },
        system: if system > 0 {
            system
        } else {
            0
        },
        user: if user > 0 {
            user
        } else {
            0
        },
        total,
    }
}

pub open spec fn shorter(a: nat, b: nat) -> nat {
    if a < b {
        a
    } else {
        b
    }
}

/// What each core did between two readings, for the cores that both have.
pub fn core_loads(prev: &Vec<ProcPerf>, cur: &Vec<ProcPerf>) -> (r: Vec<CoreTimes>)
    requires
        forall|i: int|
            0 <= i < prev@.len() && i < cur@.len() ==> #[trigger] times_fit(prev@[i], cur@[i]),
    ensures
        r@ == Seq::new(
            shorter(prev@.len(), cur@.len()),
            |i: int| times_between(prev@[i], cur@[i]),
        ),
{
    let mut r: Vec<CoreTimes> = Vec::new();
    let mut i: usize = 0;
    while i < prev.len() && i < cur.len()
        invariant
            i <= prev.len(),
            i <= cur.len(),
            forall|j: int|
                0 <= j < prev@.len() && j < cur@.len() ==> #[trigger] times_fit(prev@[j], cur@[j]),
            r@ == Seq::new(i as nat, |j: int| times_between(prev@[j], cur@[j])),
        decreases prev.len() - i,
    {
        assert(times_fit(prev@[i as int], cur@[i as int]));
        r.push(core_times(&prev[i], &cur[i]));
        i += 1;
    }
    r
}

/// A core was never busy for less than nothing, nor in the kernel for longer
/// than it was busy, while the clocks run forward.
pub proof fn law_busy_time_is_sane(a: ProcPerf, b: ProcPerf)
    requires
        times_fit(a, b),
        a.user <= b.user,
        a.idle <= b.idle,
    ensures
        0 <= times_between(a, b).system <= times_between(a, b).busy,
        0 <= times_between(a, b).user,
        times_between(a, b).total >= 0 ==> times_between(a, b).busy <= times_between(a, b).total,
{
}

/// While a core's clocks run forward and its kernel time, which holds idle
/// time, grows by no less than its idle time, its time divides up: what was
/// spent for programs is how far the user clock went, that and the time for
/// the system are the busy time, and what is left of the total was idle.
pub proof fn law_core_time_divides_up(prev: Seq<ProcPerf>, cur: Seq<ProcPerf>, r: Seq<CoreTimes>, i: int)
    requires
        r == Seq::new(
            shorter(prev.len(), cur.len()),
            |j: int| times_between(prev[j], cur[j]),
        ),
        0 <= i < r.len(),
        times_fit(prev[i], cur[i]),
        prev[i].user <= cur[i].user,
        prev[i].idle <= cur[i].idle,
        cur[i].kernel - prev[i].kernel >= cur[i].idle - prev[i].idle,
    ensures
        i < prev.len() && i < cur.len(),
        prev[i].user + r[i].user == cur[i].user,
        r[i].system + (cur[i].idle - prev[i].idle) == cur[i].kernel - prev[i].kernel,
        r[i].system + r[i].user == r[i].busy,
        r[i].busy + (cur[i].idle - prev[i].idle) == r[i].total,
        prev[i].kernel + prev[i].user + r[i].total == cur[i].kernel + cur[i].user,
{
}

/// What a core did over two spans that follow each other is what it did over
/// both, while its clocks run forward.
pub proof fn law_core_time_adds_up(a: ProcPerf, b: ProcPerf, c: ProcPerf)
    requires
        times_fit(a, b),
        times_fit(b, c),
        times_fit(a, c),
        a.user <= b.user <= c.user,
        b.kernel - a.kernel >= b.idle - a.idle >= 0,
        c.kernel - b.kernel >= c.idle - b.idle >= 0,
    ensures
        times_between(a, c).user == times_between(a, b).user + times_between(b, c).user,
        times_between(a, c).system == times_between(a, b).system + times_between(b, c).system,
        times_between(a, c).busy == times_between(a, b).busy + times_between(b, c).busy,
        times_between(a, c).total == times_between(a, b).total + times_between(b, c).total,
{
}

/// Where a core's clocks stood still it did nothing, and a clock that went
/// back never counts as time spent.
pub proof fn law_still_core_did_nothing(a: ProcPerf, b: ProcPerf)
    requires
        times_fit(a, b),
    ensures
        b == a ==> times_between(a, b) == (CoreTimes { busy: 0, system: 0, user: 0, total: 0 }),
        b.user <= a.user ==> times_between(a, b).user == 0,
        b.kernel - a.kernel <= b.idle - a.idle ==> times_between(a, b).system == 0,
        times_between(a, b).busy >= 0 && times_between(a, b).system >= 0 && times_between(a, b).user
            >= 0,
{
}

/// The steps forward of a core's clocks; one that went back counts as still.
pub open spec fn forward(a: ProcPerf, b: ProcPerf) -> ProcPerf {
    ProcPerf {
        idle: at_least_zero(b.idle - a.idle) as i64,
        kernel: at_least_zero(b.kernel - a.kernel) as i64,
        user: at_least_zero(b.user - a.user) as i64,
    }
}

/// The clocks of two readings can be subtracted.
pub open spec fn steps_fit(a: ProcPerf, b: ProcPerf) -> bool {
    in_i64(b.idle - a.idle) && in_i64(b.kernel - a.kernel) && in_i64(b.user - a.user)
}

fn step(a: i64, b: i64) -> (r: i64)
    requires
        in_i64(b - a),
    ensures
        r == at_least_zero(b - a),
{
    let d: i64 = b - a;
    if d > 0 {
        d
    } else {
        0
    }
}

/// The steps of all clocks between two readings of the same cores; `None`
/// where the readings are not of the same number of cores, or of none.
pub fn core_steps(prev: &Vec<ProcPerf>, cur: &Vec<ProcPerf>) -> (r: Option<Vec<ProcPerf>>)
    requires
        forall|i: int|
            0 <= i < prev@.len() && i < cur@.len() ==> #[trigger] steps_fit(prev@[i], cur@[i]),
    ensures
        r.is_none() == (cur@.len() != prev@.len() || cur@.len() == 0),
        r matches Some(v) ==> v@ == Seq::new(cur@.len(), |i: int| forward(prev@[i], cur@[i])),
{
    if cur.len() != prev.len() || cur.len() == 0 {
        return None;
    }
    let mut r: Vec<ProcPerf> = Vec::new();
    let mut i: usize = 0;
    while i < cur.len()
        invariant
            i <= cur.len(),
            cur.len() == prev.len(),
            forall|j: int|
                0 <= j < prev@.len() && j < cur@.len() ==> #[trigger] steps_fit(prev@[j], cur@[j]),
            r@ == Seq::new(i as nat, |j: int| forward(prev@[j], cur@[j])),
        decreases cur.len() - i,
    {
        assert(steps_fit(prev@[i as int], cur@[i as int]));
        r.push(
            ProcPerf {
                idle: step(prev[i].idle, cur[i].idle),
                kernel: step(prev[i].kernel, cur[i].kernel),
                user: step(prev[i].user, cur[i].user),
            },
        );
        i += 1;
    }
    Some(r)
}

/// A clock that ran forward has gone from the first reading to the second by
/// its step; one that went back has not stepped.
pub proof fn law_steps_lead_on(prev: Seq<ProcPerf>, cur: Seq<ProcPerf>, v: Seq<ProcPerf>, i: int)
    requires
        v == Seq::new(cur.len(), |j: int| forward(prev[j], cur[j])),
        0 <= i < cur.len(),
        steps_fit(prev[i], cur[i]),
    ensures
        prev[i].idle <= cur[i].idle ==> prev[i].idle + v[i].idle == cur[i].idle,
        prev[i].kernel <= cur[i].kernel ==> prev[i].kernel + v[i].kernel == cur[i].kernel,
        prev[i].user <= cur[i].user ==> prev[i].user + v[i].user == cur[i].user,
        prev[i].idle > cur[i].idle ==> v[i].idle == 0,
        prev[i].kernel > cur[i].kernel ==> v[i].kernel == 0,
        prev[i].user > cur[i].user ==> v[i].user == 0,
{
}

/// There is at least one socket, more than the number of any package, and no
/// more than the packages ask for.
pub proof fn law_sockets_hold_all_packages(packages: Seq<u8>)
    ensures
        socket_count(packages) >= 1,
        forall|i: int| 0 <= i < packages.len() ==> (#[trigger] packages[i]) < socket_count(packages),
        socket_count(packages) > 1 ==> exists|i: int|
            0 <= i < packages.len() && (#[trigger] packages[i]) + 1 == socket_count(packages),
    decreases packages.len(),
{
    if packages.len() > 0 {
        let rest = packages.drop_last();
        law_sockets_hold_all_packages(rest);
        assert forall|i: int| 0 <= i < packages.len() implies (#[trigger] packages[i])
            < socket_count(packages) by {
            if i < rest.len() {
                assert(rest[i] == packages[i]);
            }
        }
        if packages.last() as nat + 1 > socket_count(rest) {
            assert(packages[packages.len() - 1] + 1 == socket_count(packages));
        } else if socket_count(packages) > 1 {
            let i = choose|i: int|
                0 <= i < rest.len() && (#[trigger] rest[i]) + 1 == socket_count(rest);
            assert(packages[i] + 1 == socket_count(packages));
        }
    }
}

/// An entry with one group, the first of the machine, lists exactly the processors
/// whose bits its mask has.
pub proof fn law_mask_lists_its_bits(buf: Seq<u8>, off: int, bit: int)
    requires
        0 <= off,
        off + 48 <= buf.len(),
        le_number(buf, off + 30, 2) == 1,
        le_number(buf, off + 40, 2) == 0,
        0 <= bit < 64,
    ensures
        entry_covers(buf, off, bit) == bit_set(le_number(buf, off + 32, 8) as u64, bit as u64),
{
    assert(off + 32 + 0 * 16 == off + 32);
    if bit_set(le_number(buf, off + 32, 8) as u64, bit as u64) {
        assert(group_covers(buf, off + 32 + 0 * 16, bit));
    }
    if entry_covers(buf, off, bit) {
        let g = choose|g: int|
            0 <= g < le_number(buf, off + 30, 2) && #[trigger] group_covers(
                buf,
                off + 32 + g * 16,
                bit,
            );
        assert(g == 0);
    }
}

/// Of two entries that fill a buffer each gives the processors that it lists its
/// class, or its number; the second goes before the first, and a processor in
/// neither has none.
pub proof fn law_entries_give_their_class(
    buf: Seq<u8>,
    first: int,
    second: int,
    use_class: bool,
    n: nat,
    p: int,
)
    requires
        first == le_number(buf, 4, 4),
        second == le_number(buf, first + 4, 4),
        first >= 32,
        second >= 32,
        first + second == buf.len(),
        0 <= p < n,
    ensures
        ({
            let r = ids_from(buf, 0, 0, use_class, Seq::new(n, |i: int| 0u8));
            &&& r.len() == n
            &&& entry_covers(buf, first, p) ==> r[p] == (if use_class {
                buf[first + 9]
            } else {
                1u8
            })
            &&& !entry_covers(buf, first, p) && entry_covers(buf, 0, p) ==> r[p] == (if use_class {
                buf[9]
            } else {
                0u8
            })
            &&& !entry_covers(buf, first, p) && !entry_covers(buf, 0, p) ==> r[p] == 0
        }),
{
    let zeros = Seq::new(n, |i: int| 0u8);
    let id = if use_class {
        buf[9]
    } else {
        0u8
    };
    let one = Seq::new(
        n,
        |b: int|
            if entry_covers(buf, 0, b) {
                id
            } else {
                zeros[b]
            },
    );
    assert(0 + first == first);
    assert(ids_from(buf, 0, 0, use_class, zeros) == ids_from(buf, first, 1, use_class, one));
    let id2 = if use_class {
        buf[first + 9]
    } else {
        1u8
    };
    let two = Seq::new(
        n,
        |b: int|
            if entry_covers(buf, first, b) {
                id2
            } else {
                one[b]
            },
    );
    assert(ids_from(buf, first, 1, use_class, one) == ids_from(
        buf,
        first + second,
        2,
        use_class,
        two,
    ));
    assert(ids_from(buf, first + second, 2, use_class, two) == two);
}

} // verus!
