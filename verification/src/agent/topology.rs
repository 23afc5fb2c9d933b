//! Classes and clusters of the cores, their clocks, and the addresses that
//! announcements go to.

use vstd::prelude::*;

verus! {

/// The value at `i` did not occur before.
pub open spec fn is_first(v: Seq<u64>, i: int) -> bool {
    forall|j: int| 0 <= j < i ==> #[trigger] v[j] != v[i]
}

/// How many different values below `c` the first `n` hold.
pub open spec fn kinds_below(v: Seq<u64>, c: u64, n: int) -> int
    decreases n,
{
    if n <= 0 {
        0
    } else {
        kinds_below(v, c, n - 1) + (if v[n - 1] < c && is_first(v, n - 1) {
            1int
        } else {
            0
        })
    }
}

/// How many different values the first `n` hold.
pub open spec fn kinds(v: Seq<u64>, n: int) -> int
    decreases n,
{
    if n <= 0 {
        0
    } else {
        kinds(v, n - 1) + (if is_first(v, n - 1) {
            1int
        } else {
            0
        })
    }
}

/// The rank of a value among the different ones, the least first, in a byte.
pub open spec fn rank(v: Seq<u64>, c: u64) -> u8 {
    (kinds_below(v, c, v.len() as int) % 256) as u8
}

fn first_at(v: &Vec<u64>, i: usize) -> (r: bool)
    requires
        i < v.len(),
    ensures
        r == is_first(v@, i as int),
{
    let mut j: usize = 0;
    while j < i
        invariant
            j <= i,
            i < v.len(),
            forall|k: int| 0 <= k < j ==> #[trigger] v@[k] != v@[i as int],
        decreases i - j,
    {
        if v[j] == v[i] {
            return false;
        }
        j += 1;
    }
    true
}

fn rank_of(v: &Vec<u64>, c: u64) -> (r: u8)
    ensures
        r == rank(v@, c),
{
    let mut n: usize = 0;
    let mut i: usize = 0;
    while i < v.len()
        invariant
            i <= v.len(),
            n <= i,
            n == kinds_below(v@, c, i as int),
        decreases v.len() - i,
    {
        if v[i] < c && first_at(v, i) {
            n += 1;
        }
        i += 1;
    }
    (n % 256) as u8
}

/// Each value's rank among the different ones: of capacities or frequencies the
/// class, so that the fastest kind gets the highest; of package numbers the
/// cluster.
pub fn ranks(v: &Vec<u64>) -> (r: Vec<u8>)
    ensures
        r@ == Seq::new(v@.len(), |i: int| rank(v@, v@[i])),
{
    let mut r: Vec<u8> = Vec::new();
    let mut i: usize = 0;
    while i < v.len()
        invariant
            i <= v.len(),
            r@ == Seq::new(i as nat, |j: int| rank(v@, v@[j])),
        decreases v.len() - i,
    {
        r.push(rank_of(v, v[i]));
        i += 1;
        assert(r@ =~= Seq::new(i as nat, |j: int| rank(v@, v@[j])));
    }
    r
}

/// `r` is the number of sockets.
pub open spec fn are_sockets(packages: Seq<u64>, x86: bool, r: int) -> bool {
    r == (if x86 && kinds(packages, packages.len() as int) > 1 {
        kinds(packages, packages.len() as int)
    } else {
        1
    })
}

/// Sockets: on x86 a package is a socket; elsewhere it is a cluster of one
/// chip.
pub fn sockets(packages: &Vec<u64>, x86: bool) -> (r: usize)
    ensures
        are_sockets(packages@, x86, r as int),
{
    let mut n: usize = 0;
    let mut i: usize = 0;
    while i < packages.len()
        invariant
            i <= packages.len(),
            n <= i,
            n == kinds(packages@, i as int),
        decreases packages.len() - i,
    {
        if first_at(packages, i) {
            n += 1;
        }
        i += 1;
    }
    if x86 && n > 1 {
        n
    } else {
        1
    }
}

/// With fewer kinds than a byte can tell apart, a faster core has a higher
/// class, and equal cores the same.
pub proof fn law_classes_order_as_capacities(v: Seq<u64>, a: int, b: int)
    requires
        0 <= a < v.len(),
        0 <= b < v.len(),
        kinds(v, v.len() as int) <= 256,
    ensures
        v[a] == v[b] ==> rank(v, v[a]) == rank(v, v[b]),
        v[a] < v[b] ==> rank(v, v[a]) < rank(v, v[b]),
{
    if v[a] < v[b] {
        let n = v.len() as int;
        lemma_first_of(v, a);
        let w = choose|w: int| 0 <= w <= a && v[w] == v[a] && #[trigger] is_first(v, w);
        lemma_below_grows(v, v[a], v[b], n, w);
        lemma_first_of(v, b);
        let u = choose|u: int| 0 <= u <= b && v[u] == v[b] && #[trigger] is_first(v, u);
        lemma_below_kinds(v, v[b], n, u);
        lemma_below_nonneg(v, v[a], n);
    }
}

proof fn lemma_below_nonneg(v: Seq<u64>, c: u64, n: int)
    ensures
        kinds_below(v, c, n) >= 0,
    decreases n,
{
    if n > 0 {
        lemma_below_nonneg(v, c, n - 1);
    }
}

proof fn lemma_first_of(v: Seq<u64>, a: int)
    requires
        0 <= a < v.len(),
    ensures
        exists|w: int| 0 <= w <= a && v[w] == v[a] && #[trigger] is_first(v, w),
    decreases a,
{
    if is_first(v, a) {
    } else {
        let j = choose|j: int| 0 <= j < a && #[trigger] v[j] == v[a];
        lemma_first_of(v, j);
        let w = choose|w: int| 0 <= w <= j && v[w] == v[j] && #[trigger] is_first(v, w);
        assert(v[w] == v[a] && is_first(v, w));
    }
}

proof fn lemma_below_grows(v: Seq<u64>, c: u64, d: u64, n: int, w: int)
    requires
        c < d,
        0 <= w,
        n <= v.len(),
        w < v.len(),
        v[w] == c,
        is_first(v, w),
    ensures
        kinds_below(v, c, n) + (if w < n {
            1int
        } else {
            0
        }) <= kinds_below(v, d, n),
    decreases n,
{
    if n > 0 {
        lemma_below_grows(v, c, d, n - 1, w);
    }
}

proof fn lemma_below_kinds(v: Seq<u64>, d: u64, n: int, u: int)
    requires
        0 <= u < v.len(),
        n <= v.len(),
        v[u] == d,
        is_first(v, u),
    ensures
        kinds_below(v, d, n) + (if u < n {
            1int
        } else {
            0
        }) <= kinds(v, n),
    decreases n,
{
    if n > 0 {
        lemma_below_kinds(v, d, n - 1, u);
    }
}

/// Of a machine that says how many fast and how many efficient cores it has:
/// the efficient ones come first.
pub open spec fn two_kinds(slow: int, fast: int) -> Seq<u8> {
    Seq::new((slow + fast) as nat, |i: int| if i < slow { 0u8 } else { 1u8 })
}

/// `r` are the classes of the cores.
pub open spec fn are_classes(n: nat, fast: Option<usize>, slow: Option<usize>, r: Seq<u8>) -> bool {
    r == (match (fast, slow) {
        (Some(p), Some(e)) => if p + e == n && e > 0 {
            two_kinds(e as int, p as int)
        } else {
            Seq::new(n, |i: int| 0u8)
        },
        _ => Seq::new(n, |i: int| 0u8),
    })
}

/// Classes (and clusters) from the counts of fast and of efficient cores; all
/// alike where the counts are not known or do not fit.
pub fn counted_classes(n: usize, fast: Option<usize>, slow: Option<usize>) -> (r: Vec<u8>)
    ensures
        are_classes(n as nat, fast, slow, r@),
{
    let split: usize = match (fast, slow) {
        (Some(p), Some(e)) => if e > 0 && e <= n && p == n - e {
            e
        } else {
            n
        },
        _ => n,
    };
    let mut r: Vec<u8> = Vec::new();
    let mut i: usize = 0;
    while i < n
        invariant
            i <= n,
            r@ == Seq::new(i as nat, |j: int| if j < split { 0u8 } else { 1u8 }),
        decreases n - i,
    {
        r.push(
            if i < split {
                0
            } else {
                1
            },
        );
        i += 1;
        assert(r@ =~= Seq::new(i as nat, |j: int| if j < split { 0u8 } else { 1u8 }));
    }
    if split == n {
        assert(r@ =~= Seq::new(n as nat, |j: int| 0u8));
    }
    proof {
        if let (Some(p), Some(e)) = (fast, slow) {
            if p + e == n && e > 0 {
                assert(r@ =~= two_kinds(e as int, p as int));
            }
        }
    }
    r
}

// ---------------------------------------------------------------------------
// Clocks

/// Some clock is known.
pub open spec fn any_clock(v: Seq<u32>) -> bool {
    exists|i: int| 0 <= i < v.len() && #[trigger] v[i] > 0
}

fn has_clock(v: &Vec<u32>) -> (r: bool)
    ensures
        r == any_clock(v@),
{
    let mut i: usize = 0;
    while i < v.len()
        invariant
            i <= v.len(),
            forall|j: int| 0 <= j < i ==> #[trigger] v@[j] == 0,
        decreases v.len() - i,
    {
        if v[i] > 0 {
            return true;
        }
        i += 1;
    }
    false
}

/// The clocks that are known of the cores.
pub open spec fn known_clocks(kernel: Seq<u32>, library: Seq<u32>, n: nat) -> Seq<u32> {
    if any_clock(kernel) {
        kernel
    } else if library.len() == n && any_clock(library) {
        library
    } else {
        Seq::empty()
    }
}

/// Current clock per core in MHz: what the kernel says, else what the system
/// library says if it says it of every core; nothing where no clock is known.
pub fn core_freqs(kernel: Vec<u32>, library: Vec<u32>, n: usize) -> (r: Vec<u32>)
    ensures
        r@ == known_clocks(kernel@, library@, n as nat),
{
    if has_clock(&kernel) {
        kernel
    } else if library.len() == n && has_clock(&library) {
        library
    } else {
        Vec::new()
    }
}

/// `r` is a clock in megahertz.
pub open spec fn is_megahertz(khz: u64, r: u32) -> bool {
    r == khz as int / 1000 % 0x1_0000_0000
}

/// Kilohertz in megahertz, in 32 bits.
pub fn megahertz(khz: u64) -> (r: u32)
    ensures
        is_megahertz(khz, r),
{
    (khz / 1000 % 0x1_0000_0000) as u32
}

// ---------------------------------------------------------------------------
// Addresses

pub open spec fn two_to(n: nat) -> nat
    decreases n,
{
    if n == 0 {
        1
    } else {
        2 * two_to((n - 1) as nat)
    }
}

fn power_of_two(n: u8) -> (r: u64)
    requires
        n <= 32,
    ensures
        r == two_to(n as nat),
        1 <= r <= 0x1_0000_0000,
{
    proof {
        reveal_with_fuel(two_to, 33);
    }
    let mut r: u64 = 1;
    let mut i: u8 = 0;
    while i < n
        invariant
            i <= n <= 32,
            r == two_to(i as nat),
            1 <= r <= 0x1_0000_0000,
        decreases n - i,
    {
        proof {
            lemma_two_to_bound((i + 1) as nat);
        }
        r = r * 2;
        i += 1;
    }
    r
}

proof fn lemma_two_to_bound(n: nat)
    requires
        n <= 32,
    ensures
        two_to(n) <= 0x1_0000_0000,
{
    reveal_with_fuel(two_to, 33);
}

/// The last address of the network that an address with that prefix is in.
pub open spec fn last_address(ip: int, prefix: nat) -> int {
    let size = two_to((32 - prefix) as nat) as int;
    ip / size * size + size - 1
}

/// The address that reaches every machine of an interface's network.
pub fn broadcast(ip: u32, prefix: u8) -> (r: u32)
    requires
        prefix <= 32,
    ensures
        r == last_address(ip as int, prefix as nat),
{
    let size: u64 = power_of_two(32 - prefix);
    let a: u64 = ip as u64;
    proof {
        lemma_last_fits(ip as int, prefix as nat);
        assert(a / size * size <= a) by (nonlinear_arith)
            requires
                size > 0,
        ;
    }
    (a / size * size + (size - 1)) as u32
}

proof fn lemma_divides(n: nat)
    requires
        n <= 32,
    ensures
        two_to((32 - n) as nat) * two_to(n) == 0x1_0000_0000,
        two_to(n) > 0,
    decreases n,
{
    if n == 0 {
        reveal_with_fuel(two_to, 33);
        assert(two_to(32) == 0x1_0000_0000);
        assert(two_to(32) * 1 == 0x1_0000_0000);
    } else {
        lemma_divides((n - 1) as nat);
        let a = two_to((32 - n) as nat);
        let b = two_to((n - 1) as nat);
        assert(two_to((32 - (n - 1)) as nat) == 2 * a);
        assert(two_to(n) == 2 * b);
        assert((2 * a) * b == a * (2 * b)) by (nonlinear_arith);
    }
}

proof fn lemma_last_fits(ip: int, prefix: nat)
    requires
        0 <= ip < 0x1_0000_0000,
        prefix <= 32,
    ensures
        ip <= last_address(ip, prefix) < 0x1_0000_0000,
{
    let size = two_to((32 - prefix) as nat) as int;
    let count = two_to(prefix) as int;
    lemma_divides(prefix);
    lemma_two_to_positive((32 - prefix) as nat);
    assert(ip / size < count) by (nonlinear_arith)
        requires
            0 <= ip < size * count,
            size > 0,
    ;
    assert(ip / size * size + size <= size * count) by (nonlinear_arith)
        requires
            ip / size < count,
            size > 0,
    ;
    assert(ip < ip / size * size + size) by (nonlinear_arith)
        requires
            size > 0,
    ;
}

proof fn lemma_two_to_positive(n: nat)
    ensures
        two_to(n) > 0,
    decreases n,
{
    if n > 0 {
        lemma_two_to_positive((n - 1) as nat);
    }
}

/// The group that beacons go to.
pub const GROUP: u32 = 0xefff_4d4d;

/// The address of every machine that can be reached without a router.
pub const EVERYONE: u32 = 0xffff_ffff;

/// Where beacons go: from each socket to the group and to its own network; from
/// a socket of no interface, written as none, to the group and to everyone
/// where there is no other.
pub open spec fn targets(socks: Seq<(u32, u8)>) -> Seq<(Option<usize>, u32)> {
    if socks.len() == 0 {
        seq![(None, GROUP), (None, EVERYONE)]
    } else {
        Seq::new(
            2 * socks.len(),
            |k: int|
                (
                    Some((k / 2) as usize),
                    if k % 2 == 0 {
                        GROUP
                    } else {
                        last_address(socks[k / 2].0 as int, socks[k / 2].1 as nat) as u32
                    },
                ),
        )
    }
}

/// Where a beacon is sent from the sockets at hand, each with its address and
/// the length of its network's prefix.
pub fn beacon_targets(socks: &Vec<(u32, u8)>) -> (r: Vec<(Option<usize>, u32)>)
    requires
        forall|i: int| 0 <= i < socks@.len() ==> (#[trigger] socks@[i]).1 <= 32,
    ensures
        r@ == targets(socks@),
{
    let mut r: Vec<(Option<usize>, u32)> = Vec::new();
    if socks.len() == 0 {
        r.push((None, GROUP));
        r.push((None, EVERYONE));
        assert(r@ =~= targets(socks@));
        return r;
    }
    let mut i: usize = 0;
    while i < socks.len()
        invariant
            forall|j: int| 0 <= j < socks@.len() ==> (#[trigger] socks@[j]).1 <= 32,
            socks@.len() > 0,
            i <= socks.len(),
            r@.len() == 2 * i,
            forall|k: int| 0 <= k < 2 * i ==> #[trigger] r@[k] == targets(socks@)[k],
        decreases socks.len() - i,
    {
        let (ip, prefix): (u32, u8) = socks[i];
        r.push((Some(i), GROUP));
        r.push((Some(i), broadcast(ip, prefix)));
        i += 1;
    }
    assert(r@ =~= targets(socks@));
    r
}

/// The address for all is in the same network, and no address of the network
/// is above it.
pub proof fn law_broadcast_is_last(ip: int, other: int, prefix: nat)
    requires
        0 <= ip < 0x1_0000_0000,
        0 <= other < 0x1_0000_0000,
        prefix <= 32,
        ip / (two_to((32 - prefix) as nat) as int) == other / (two_to(
            (32 - prefix) as nat,
        ) as int),
    ensures
        other <= last_address(ip, prefix) < 0x1_0000_0000,
        last_address(ip, prefix) == last_address(other, prefix),
{
    lemma_last_fits(ip, prefix);
    lemma_last_fits(other, prefix);
}

proof fn lemma_kinds_are_a_set(v: Seq<u64>, n: int)
    requires
        0 <= n <= v.len(),
    ensures
        kinds(v, n) == v.take(n).to_set().len(),
        v.take(n).to_set().finite(),
    decreases n,
{
    vstd::seq_lib::seq_to_set_is_finite(v.take(n));
    if n > 0 {
        lemma_kinds_are_a_set(v, n - 1);
        let a = v.take(n - 1).to_set();
        let b = v.take(n).to_set();
        let x = v[n - 1];
        let s = v.take(n - 1);
        assert(b =~= a.insert(x)) by {
            assert forall|y: u64| #[trigger] b.contains(y) <==> a.insert(x).contains(y) by {
                if b.contains(y) {
                    let i = choose|i: int| 0 <= i < n && v.take(n)[i] == y;
                    if i < n - 1 {
                        assert(v.take(n - 1)[i] == y);
                    }
                }
                if a.contains(y) {
                    let i = choose|i: int| 0 <= i < n - 1 && s[i] == y;
                    assert(v.take(n)[i] == y);
                }
                assert(v.take(n)[n - 1] == x);
            }
        }
        if is_first(v, n - 1) {
            if a.contains(x) {
                let i = choose|i: int| 0 <= i < n - 1 && s[i] == x;
                assert(v[i] == v[n - 1]);
            }
        } else {
            let j = choose|j: int| 0 <= j < n - 1 && #[trigger] v[j] == v[n - 1];
            assert(v.take(n - 1)[j] == x);
            assert(a.contains(x));
        }
    } else {
        assert(v.take(0).to_set() =~= Set::<u64>::empty());
    }
}

/// A machine of this kind has as many sockets as its cores name different
/// packages, any other one; and there is always one.
pub proof fn law_sockets_are_the_different_packages(packages: Seq<u64>, x86: bool, r: int)
    requires
        are_sockets(packages, x86, r),
    ensures
        x86 && packages.len() > 0 ==> r == packages.to_set().len(),
        !x86 || packages.len() == 0 ==> r == 1,
        r >= 1,
{
    let n = packages.len() as int;
    lemma_kinds_are_a_set(packages, n);
    assert(packages.take(n) =~= packages);
    if n > 0 {
        assert(packages.to_set().contains(packages[0]));
        if packages.to_set().len() == 0 {
            assert(packages.to_set() =~= Set::<u64>::empty());
        }
    }
}

proof fn lemma_below_least(v: Seq<u64>, c: u64, n: int)
    requires
        0 <= n <= v.len(),
        forall|i: int| 0 <= i < v.len() ==> c <= #[trigger] v[i],
    ensures
        kinds_below(v, c, n) == 0,
    decreases n,
{
    if n > 0 {
        lemma_below_least(v, c, n - 1);
        assert(c <= v[n - 1]);
    }
}

/// The slowest cores are of class zero.
pub proof fn law_slowest_is_class_zero(v: Seq<u64>, i: int)
    requires
        0 <= i < v.len(),
        forall|j: int| 0 <= j < v.len() ==> v[i] <= #[trigger] v[j],
    ensures
        rank(v, v[i]) == 0,
{
    lemma_below_least(v, v[i], v.len() as int);
}

/// Of cores that are counted by kind, the efficient ones come first and are the
/// lower class; where the counts do not make up the number, all are alike.
pub proof fn law_counts_make_the_classes(
    n: nat,
    fast: Option<usize>,
    slow: Option<usize>,
    r: Seq<u8>,
    i: int,
)
    requires
        are_classes(n, fast, slow, r),
        0 <= i < n,
    ensures
        r.len() == n,
        fast.is_some() && slow.is_some() && fast->0 + slow->0 == n && slow->0 > 0 ==> r[i] == (if i
            < slow->0 {
            0u8
        } else {
            1u8
        }),
        fast.is_none() || slow.is_none() || fast->0 + slow->0 != n ==> r[i] == 0,
{
}

/// The kernel's clocks go first, the library's are taken only of every core, and
/// clocks of which none is known are none.
pub proof fn law_clocks_are_those_of_one_source(kernel: Seq<u32>, library: Seq<u32>, n: nat, i: int)
    requires
        0 <= i,
    ensures
        ({
            let r = known_clocks(kernel, library, n);
            &&& i < kernel.len() && kernel[i] > 0 ==> r == kernel
            &&& i < library.len() && library[i] > 0 && library.len() == n && (forall|j: int|
                0 <= j < kernel.len() ==> #[trigger] kernel[j] == 0) ==> r == library
            &&& library.len() != n && (forall|j: int|
                0 <= j < kernel.len() ==> #[trigger] kernel[j] == 0) ==> r.len() == 0
            &&& r.len() > 0 ==> any_clock(r)
        }),
{
}

/// A clock in megahertz is the whole thousands of it in kilohertz.
pub proof fn law_megahertz_are_thousands(khz: u64, r: u32)
    requires
        is_megahertz(khz, r),
        khz < 4_000_000_000_000,
    ensures
        r * 1000 <= khz < (r + 1) * 1000,
{
}

/// From every socket one beacon goes to the group and one to all machines of that
/// socket's own network.
pub proof fn law_every_network_is_told(socks: Seq<(u32, u8)>, i: int)
    requires
        0 <= i < socks.len() <= usize::MAX,
        socks[i].1 <= 32,
    ensures
        targets(socks).len() == 2 * socks.len(),
        targets(socks)[2 * i] == (Some(i as usize), GROUP),
        targets(socks)[2 * i + 1].0 == Some(i as usize),
        targets(socks)[2 * i + 1].1 as int / (two_to((32 - socks[i].1) as nat) as int) == socks[i].0
            as int / (two_to((32 - socks[i].1) as nat) as int),
        targets(socks)[2 * i + 1].1 >= socks[i].0,
{
    let size = two_to((32 - socks[i].1) as nat) as int;
    let ip = socks[i].0 as int;
    lemma_last_fits(ip, socks[i].1 as nat);
    lemma_two_to_positive((32 - socks[i].1) as nat);
    assert((2 * i + 1) / 2 == i && (2 * i) / 2 == i);
    let q = ip / size;
    assert(q * size + size - 1 == q * size + (size - 1));
    vstd::arithmetic::div_mod::lemma_fundamental_div_mod_converse(
        q * size + (size - 1),
        size,
        q,
        size - 1,
    );
}

} // verus!
