//! Physical memory and commit charge.

use crate::number::Single;
use vstd::prelude::*;

verus! {

#[derive(Clone, Copy, Debug, Default, PartialEq, Eq, Structural)]
pub struct Mem {
    pub total: u64,
    pub used: u64,
    /// Part of the memory in use, from 0 to 1.
    pub pct: Single,
    /// Commit charge (physical memory and page file).
    pub commit_used: u64,
    pub commit_total: u64,
}

pub open spec fn minus(a: u64, b: u64) -> u64 {
    if a >= b {
        (a - b) as u64
    } else {
        0
    }
}

/// `m` is the memory of which the system tells total and available bytes, and
/// those of the page file.
pub open spec fn is_told(
    total: u64,
    avail: u64,
    page_total: u64,
    page_avail: u64,
    pct: Single,
    m: Mem,
) -> bool {
    m == (Mem {
        total,
        used: minus(total, avail),
        pct: if total > 0 {
            pct
        } else {
            Single::zero()
        },
        commit_total: page_total,
        commit_used: minus(page_total, page_avail),
    })
}

impl Mem {
    /// Takes what the system tells: total and available memory, total and
    /// available page file. The part in use is nothing of no memory, and
    /// otherwise `pct`, which the caller has from `used_of`.
    pub fn update(&mut self, total: u64, avail: u64, page_total: u64, page_avail: u64, pct: Single)
        ensures
            is_told(total, avail, page_total, page_avail, pct, *final(self)),
    {
        self.total = total;
        self.used = total.saturating_sub(avail);
        self.pct = if total > 0 {
            pct
        } else {
            Single::zero()
        };
        self.commit_total = page_total;
        self.commit_used = page_total.saturating_sub(page_avail);
    }
}

/// The memory in use.
pub fn used_of(total: u64, avail: u64) -> (r: u64)
    ensures
        r == minus(total, avail),
        r <= total,
{
    total.saturating_sub(avail)
}

/// What is used and what is available make up the total, of the memory and of
/// the commit charge; and more than the total is never in use.
pub proof fn law_used_and_available_make_the_total(
    total: u64,
    avail: u64,
    page_total: u64,
    page_avail: u64,
    pct: Single,
    m: Mem,
)
    requires
        is_told(total, avail, page_total, page_avail, pct, m),
    ensures
        avail <= total ==> m.used + avail == m.total,
        avail >= total ==> m.used == 0,
        m.total == total,
        page_avail <= page_total ==> m.commit_used + page_avail == m.commit_total,
        page_avail >= page_total ==> m.commit_used == 0,
        m.commit_total == page_total,
        m.used <= m.total && m.commit_used <= m.commit_total,
        total > 0 ==> m.pct == pct,
{
}

} // verus!
