//! Performance counters: what the instances of the disk and GPU counters
//! stand for.

use crate::number::Double;
use crate::order;
use crate::text;
use vstd::prelude::*;

verus! {

/// The drive that a disk counter's instance counts for: the number in front,
/// as in "0 C:".
pub open spec fn instance_index(name: Seq<char>) -> Option<u32> {
    if text::words(name).len() == 0 {
        None
    } else {
        text::parsed_u32(text::words(name)[0])
    }
}

fn index_of(name: &str) -> (r: Option<u32>)
    ensures
        r == instance_index(name@),
{
    let w: Vec<String> = text::split_words(name);
    if w.len() == 0 {
        return None;
    }
    assert(text::words(name@)[0] == w@[0]@);
    text::parse_u32(w[0].as_str())
}

/// The drives that the read counter lists, with what they read.
pub open spec fn reads_of(reads: Seq<(String, Double)>) -> Seq<(u32, Double, Double)>
    decreases reads.len(),
{
    if reads.len() == 0 {
        Seq::empty()
    } else {
        let rest = reads_of(reads.drop_last());
        match instance_index(reads.last().0@) {
            Some(i) => rest.push((i, reads.last().1, Double::zero())),
            None => rest,
        }
    }
}

/// The first row of a drive, or the number of rows.
pub open spec fn row_of(rows: Seq<(u32, Double, Double)>, index: u32) -> int
    decreases rows.len(),
{
    if rows.len() == 0 || rows[0].0 == index {
        0
    } else {
        1 + row_of(rows.skip(1), index)
    }
}

/// The rows with what the drives of the write counter wrote: entered where the
/// drive has a row, else as a row of its own.
pub open spec fn with_writes(
    rows: Seq<(u32, Double, Double)>,
    writes: Seq<(String, Double)>,
) -> Seq<(u32, Double, Double)>
    decreases writes.len(),
{
    if writes.len() == 0 {
        rows
    } else {
        let rest = with_writes(rows, writes.drop_last());
        match instance_index(writes.last().0@) {
            Some(i) => {
                let k = row_of(rest, i);
                if k < rest.len() {
                    rest.update(k, (rest[k].0, rest[k].1, writes.last().1))
                } else {
                    rest.push((i, Double::zero(), writes.last().1))
                }
            },
            None => rest,
        }
    }
}

proof fn lemma_row_of(rows: Seq<(u32, Double, Double)>, index: u32, k: int)
    requires
        0 <= k <= rows.len(),
        forall|j: int| 0 <= j < k ==> (#[trigger] rows[j]).0 != index,
        k < rows.len() ==> rows[k].0 == index,
    ensures
        row_of(rows, index) == k,
    decreases rows.len(),
{
    if k > 0 {
        assert(rows[0].0 != index);
        assert forall|j: int| 0 <= j < k - 1 implies (#[trigger] rows.skip(1)[j]).0 != index by {
            assert(rows.skip(1)[j] == rows[j + 1]);
        }
        lemma_row_of(rows.skip(1), index, k - 1);
    }
}

pub open spec fn index_keys(rows: Seq<(u32, Double, Double)>) -> Seq<u64> {
    rows.map_values(|e: (u32, Double, Double)| e.0 as u64)
}

/// `r` holds what each drive reads and writes, in the order of their numbers.
pub open spec fn is_per_disk(
    reads: Seq<(String, Double)>,
    writes: Seq<(String, Double)>,
    r: Seq<(u32, Double, Double)>,
) -> bool {
    let rows = with_writes(reads_of(reads), writes);
    order::is_sorted_copy(rows, index_keys(rows), r)
}

/// Per drive what it reads and writes per second, by the drive's number, from
/// the instances of the two counters.
pub fn per_disk(reads: &Vec<(String, Double)>, writes: &Vec<(String, Double)>) -> (r: Vec<
    (u32, Double, Double),
>)
    ensures
        is_per_disk(reads@, writes@, r@),
{
    let mut out: Vec<(u32, Double, Double)> = Vec::new();
    let mut i: usize = 0;
    assert(reads@.take(0) =~= Seq::<(String, Double)>::empty());
    while i < reads.len()
        invariant
            i <= reads.len(),
            out@ == reads_of(reads@.take(i as int)),
        decreases reads.len() - i,
    {
        assert(reads@.take(i + 1).drop_last() =~= reads@.take(i as int));
        assert(reads@.take(i + 1).last() == reads@[i as int]);
        if let Some(n) = index_of(reads[i].0.as_str()) {
            out.push((n, reads[i].1, Double::zero()));
        }
        i += 1;
    }
    assert(reads@.take(reads@.len() as int) =~= reads@);
    let ghost base = out@;
    let mut k: usize = 0;
    assert(writes@.take(0) =~= Seq::<(String, Double)>::empty());
    while k < writes.len()
        invariant
            k <= writes.len(),
            out@ == with_writes(base, writes@.take(k as int)),
        decreases writes.len() - k,
    {
        assert(writes@.take(k + 1).drop_last() =~= writes@.take(k as int));
        assert(writes@.take(k + 1).last() == writes@[k as int]);
        if let Some(n) = index_of(writes[k].0.as_str()) {
            let mut j: usize = 0;
            while j < out.len() && out[j].0 != n
                invariant
                    j <= out.len(),
                    forall|m: int| 0 <= m < j ==> (#[trigger] out@[m]).0 != n,
                decreases out.len() - j,
            {
                j += 1;
            }
            proof {
                lemma_row_of(out@, n, j as int);
            }
            if j < out.len() {
                let e: (u32, Double, Double) = out[j];
                out.set(j, (e.0, e.1, writes[k].1));
            } else {
                out.push((n, Double::zero(), writes[k].1));
            }
        }
        k += 1;
    }
    assert(writes@.take(writes@.len() as int) =~= writes@);
    let mut keys: Vec<u64> = Vec::new();
    let mut m: usize = 0;
    while m < out.len()
        invariant
            m <= out.len(),
            keys@ == index_keys(out@).take(m as int),
        decreases out.len() - m,
    {
        keys.push(out[m].0 as u64);
        m += 1;
    }
    assert(keys@ =~= index_keys(out@));
    order::sort_by_keys(out, &keys)
}

/// The part of a string behind the last occurrence of `pat`; all of it where
/// there is none.
pub open spec fn behind_last(s: Seq<char>, pat: Seq<char>, from: int) -> Seq<char>
    decreases from + 1,
{
    if from < 0 {
        s
    } else if text::occurs_at(s, pat, from) {
        s.skip(from + pat.len())
    } else {
        behind_last(s, pat, from - 1)
    }
}

/// The kind of engine that a GPU counter's instance counts for.
pub fn engine_type(name: &str) -> (r: String)
    ensures
        r@ == behind_last(name@, "engtype_"@, name@.len() as int),
{
    let a: Vec<char> = text::chars_of(name);
    let p: Vec<char> = text::chars_of("engtype_");
    let mut i: usize = a.len();
    loop
        invariant
            a@ == name@,
            p@ == "engtype_"@,
            i <= a.len(),
            behind_last(name@, "engtype_"@, name@.len() as int) == behind_last(
                name@,
                "engtype_"@,
                i as int,
            ),
        decreases i,
    {
        if text::match_at(a.as_slice(), p.as_slice(), i) {
            let t: Vec<char> = text::slice_of(a.as_slice(), i + p.len(), a.len());
            assert(t@ =~= name@.skip(i + p@.len()));
            return text::string_of(t.as_slice());
        }
        if i == 0 {
            assert(behind_last(name@, "engtype_"@, -1) == name@);
            return text::string_of(a.as_slice());
        }
        i -= 1;
    }
}

/// Which engine each instance belongs to: the position of the first instance
/// of the same kind.
pub fn engine_groups(names: &Vec<String>) -> (r: Vec<usize>)
    ensures
        r@.len() == names@.len(),
        forall|i: int|
            0 <= i < names@.len() ==> {
                &&& (#[trigger] r@[i]) <= i
                &&& kind_at(names@, r@[i] as int) == kind_at(names@, i)
                &&& forall|j: int|
                    0 <= j < r@[i] ==> #[trigger] kind_at(names@, j) != kind_at(names@, i)
            },
{
    let mut kinds: Vec<String> = Vec::new();
    let mut r: Vec<usize> = Vec::new();
    let mut i: usize = 0;
    while i < names.len()
        invariant
            i <= names.len(),
            kinds@.len() == i,
            r@.len() == i,
            forall|j: int| 0 <= j < i ==> (#[trigger] kinds@[j])@ == kind_at(names@, j),
            forall|k: int|
                0 <= k < i ==> {
                    &&& (#[trigger] r@[k]) <= k
                    &&& kind_at(names@, r@[k] as int) == kind_at(names@, k)
                    &&& forall|j: int|
                        0 <= j < r@[k] ==> #[trigger] kind_at(names@, j) != kind_at(names@, k)
                },
        decreases names.len() - i,
    {
        let kind: String = engine_type(names[i].as_str());
        let mut k: usize = 0;
        while k < i && !text::same(kinds[k].as_str(), kind.as_str())
            invariant
                k <= i,
                kinds@.len() == i,
                forall|j: int| 0 <= j < i ==> (#[trigger] kinds@[j])@ == kind_at(names@, j),
                forall|j: int| 0 <= j < k ==> #[trigger] kind_at(names@, j) != kind@,
            decreases i - k,
        {
            assert(kinds@[k as int]@ == kind_at(names@, k as int));
            k += 1;
        }
        assert(k < i ==> kinds@[k as int]@ == kind_at(names@, k as int));
        r.push(k);
        kinds.push(kind);
        i += 1;
    }
    r
}

pub open spec fn kind_at(names: Seq<String>, i: int) -> Seq<char> {
    behind_last(names[i]@, "engtype_"@, names[i]@.len() as int)
}

/// No two instances of a counter are of the same drive.
pub open spec fn one_each(v: Seq<(String, Double)>) -> bool {
    forall|i: int, j: int|
        0 <= i < j < v.len() && instance_index((#[trigger] v[i]).0@).is_some() ==> instance_index(
            v[i].0@,
        ) != instance_index((#[trigger] v[j]).0@)
}

/// The instance at `i` of a counter is of the drive.
pub open spec fn counts_for(v: Seq<(String, Double)>, i: int, index: u32) -> bool {
    0 <= i < v.len() && instance_index(v[i].0@) == Some(index)
}

/// What a counter says of a drive: nothing where it has no instance of it.
pub open spec fn is_rate_of(v: Seq<(String, Double)>, index: u32, rate: Double) -> bool {
    ||| exists|i: int| #[trigger] counts_for(v, i, index) && rate == v[i].1
    ||| (forall|i: int| !#[trigger] counts_for(v, i, index)) && rate == Double::zero()
}

/// The rows are of different drives, each with its own rates, and no drive of
/// either counter is without a row.
spec fn rows_fit(
    rows: Seq<(u32, Double, Double)>,
    reads: Seq<(String, Double)>,
    writes: Seq<(String, Double)>,
) -> bool {
    &&& forall|a: int, b: int|
        0 <= a < b < rows.len() ==> (#[trigger] rows[a]).0 != (#[trigger] rows[b]).0
    &&& forall|a: int|
        0 <= a < rows.len() ==> is_rate_of(reads, (#[trigger] rows[a]).0, rows[a].1) && is_rate_of(
            writes,
            rows[a].0,
            rows[a].2,
        )
    &&& forall|i: int, index: u32| #[trigger]
        counts_for(reads, i, index) ==> has_row(rows, index)
    &&& forall|i: int, index: u32| #[trigger]
        counts_for(writes, i, index) ==> has_row(rows, index)
    &&& forall|a: int|
        0 <= a < rows.len() ==> knows(reads, (#[trigger] rows[a]).0) || knows(writes, rows[a].0)
}

/// A counter has an instance of the drive.
pub open spec fn knows(v: Seq<(String, Double)>, index: u32) -> bool {
    exists|i: int| #[trigger] counts_for(v, i, index)
}

/// A drive has a row.
pub open spec fn has_row(rows: Seq<(u32, Double, Double)>, index: u32) -> bool {
    exists|a: int| 0 <= a < rows.len() && (#[trigger] rows[a]).0 == index
}

proof fn lemma_one_more(v: Seq<(String, Double)>, index: u32)
    requires
        v.len() > 0,
        one_each(v),
    ensures
        one_each(v.drop_last()),
        forall|i: int| #[trigger]
            counts_for(v.drop_last(), i, index) ==> counts_for(v, i, index) && v.drop_last()[i]
                == v[i],
        forall|i: int| #[trigger]
            counts_for(v, i, index) ==> counts_for(v.drop_last(), i, index) || i == v.len() - 1,
        instance_index(v.last().0@) == Some(index) ==> counts_for(v, v.len() - 1, index) && forall|
            i: int,
        |
            !#[trigger] counts_for(v.drop_last(), i, index),
{
    let f = v.drop_last();
    assert forall|i: int, j: int|
        0 <= i < j < f.len() && instance_index((#[trigger] f[i]).0@).is_some() implies instance_index(
        f[i].0@,
    ) != instance_index((#[trigger] f[j]).0@) by {
        assert(f[i] == v[i] && f[j] == v[j]);
    }
    if instance_index(v.last().0@) == Some(index) {
        assert forall|i: int| !#[trigger] counts_for(f, i, index) by {
            if counts_for(f, i, index) {
                assert(f[i] == v[i]);
                assert(instance_index(v[i].0@) != instance_index(v[v.len() - 1].0@));
            }
        }
    }
}

proof fn lemma_rate_goes_on(v: Seq<(String, Double)>, index: u32, rate: Double)
    requires
        v.len() > 0,
        one_each(v),
        is_rate_of(v.drop_last(), index, rate),
        instance_index(v.last().0@) != Some(index),
    ensures
        is_rate_of(v, index, rate),
{
    lemma_one_more(v, index);
    let f = v.drop_last();
    if exists|i: int| #[trigger] counts_for(f, i, index) && rate == f[i].1 {
        let i = choose|i: int| #[trigger] counts_for(f, i, index) && rate == f[i].1;
        assert(counts_for(v, i, index) && rate == v[i].1);
    } else {
        assert forall|i: int| !#[trigger] counts_for(v, i, index) by {
            if counts_for(v, i, index) {
                if i < f.len() {
                    assert(counts_for(f, i, index));
                } else {
                    assert(v[i] == v.last());
                }
            }
        }
    }
}

proof fn lemma_reads(reads: Seq<(String, Double)>)
    requires
        one_each(reads),
    ensures
        rows_fit(reads_of(reads), reads, Seq::empty()),
    decreases reads.len(),
{
    let none = Seq::<(String, Double)>::empty();
    let rows = reads_of(reads);
    if reads.len() > 0 {
        let front = reads.drop_last();
        lemma_one_more(reads, 0);
        lemma_reads(front);
        let old = reads_of(front);
        let x = instance_index(reads.last().0@);
        if let Some(n) = x {
            lemma_one_more(reads, n);
            assert forall|a: int| 0 <= a < old.len() implies (#[trigger] old[a]).0 != n by {
                if old[a].0 == n {
                    assert(!knows(none, n));
                    assert(knows(front, n));
                    let i = choose|i: int| #[trigger] counts_for(front, i, old[a].0);
                    assert(!counts_for(front, i, n));
                }
            }
            assert(rows == old.push((n, reads.last().1, Double::zero())));
            assert(counts_for(reads, reads.len() - 1, n));
        }
        assert forall|a: int| 0 <= a < rows.len() implies is_rate_of(
            reads,
            (#[trigger] rows[a]).0,
            rows[a].1,
        ) && is_rate_of(none, rows[a].0, rows[a].2) && knows(reads, rows[a].0) by {
            if a < old.len() {
                assert(rows[a] == old[a]);
                lemma_rate_goes_on(reads, old[a].0, old[a].1);
                assert(!knows(none, old[a].0));
                assert(knows(front, old[a].0));
                let i = choose|i: int| #[trigger] counts_for(front, i, old[a].0);
                lemma_one_more(reads, old[a].0);
                assert(counts_for(reads, i, old[a].0));
            } else {
                assert(counts_for(reads, reads.len() - 1, rows[a].0));
            }
        }
        assert forall|i: int, index: u32| #[trigger] counts_for(reads, i, index) implies has_row(
            rows,
            index,
        ) by {
            lemma_one_more(reads, index);
            if i < front.len() {
                assert(counts_for(front, i, index));
                let a = choose|a: int| 0 <= a < old.len() && (#[trigger] old[a]).0 == index;
                assert(rows[a].0 == index);
            } else {
                assert(rows[rows.len() - 1].0 == index);
            }
        }
    }
}

proof fn lemma_writes(reads: Seq<(String, Double)>, writes: Seq<(String, Double)>)
    requires
        one_each(reads),
        one_each(writes),
    ensures
        rows_fit(with_writes(reads_of(reads), writes), reads, writes),
    decreases writes.len(),
{
    let base = reads_of(reads);
    let rows = with_writes(base, writes);
    if writes.len() == 0 {
        lemma_reads(reads);
        assert(writes =~= Seq::empty());
    } else {
        let front = writes.drop_last();
        lemma_one_more(writes, 0);
        lemma_writes(reads, front);
        let old = with_writes(base, front);
        let x = instance_index(writes.last().0@);
        let k = if x.is_some() {
            row_of(old, x->0)
        } else {
            old.len() as int
        };
        if let Some(n) = x {
            lemma_row_found(old, n);
            lemma_one_more(writes, n);
            assert(counts_for(writes, writes.len() - 1, n));
        }
        assert(rows.len() >= old.len());
        assert forall|a: int| 0 <= a < old.len() implies (#[trigger] rows[a]).0 == old[a].0
            && rows[a].1 == old[a].1 && (a != k ==> rows[a].2 == old[a].2) by {}
        assert forall|a: int, b: int| 0 <= a < b < rows.len() implies (#[trigger] rows[a]).0 != (
        #[trigger] rows[b]).0 by {
            assert(rows[a].0 == old[a].0);
            if b < old.len() {
                assert(rows[b].0 == old[b].0);
            }
        }
        assert forall|a: int| 0 <= a < rows.len() implies is_rate_of(
            reads,
            (#[trigger] rows[a]).0,
            rows[a].1,
        ) && is_rate_of(writes, rows[a].0, rows[a].2) && (knows(reads, rows[a].0) || knows(
            writes,
            rows[a].0,
        )) by {
            let index = rows[a].0;
            lemma_one_more(writes, index);
            if x == Some(index) {
                assert(a == k);
                assert(counts_for(writes, writes.len() - 1, index));
                assert(rows[a].2 == writes[writes.len() - 1].1);
                if a == old.len() {
                    assert forall|i: int| !#[trigger] counts_for(reads, i, index) by {
                        if counts_for(reads, i, index) {
                            assert(has_row(old, index));
                        }
                    }
                }
            } else {
                assert(a < old.len());
                assert(rows[a].2 == old[a].2);
                lemma_rate_goes_on(writes, index, old[a].2);
                assert(knows(reads, old[a].0) || knows(front, old[a].0));
                if knows(front, old[a].0) {
                    let i = choose|i: int| #[trigger] counts_for(front, i, old[a].0);
                    assert(counts_for(writes, i, index));
                }
            }
        }
        assert forall|i: int, index: u32| #[trigger] counts_for(reads, i, index) implies has_row(
            rows,
            index,
        ) by {
            let a = choose|a: int| 0 <= a < old.len() && (#[trigger] old[a]).0 == index;
            assert(has_row(old, index));
            assert(rows[a].0 == index);
        }
        assert forall|i: int, index: u32| #[trigger] counts_for(writes, i, index) implies has_row(
            rows,
            index,
        ) by {
            lemma_one_more(writes, index);
            if i < front.len() {
                assert(counts_for(front, i, index));
                let a = choose|a: int| 0 <= a < old.len() && (#[trigger] old[a]).0 == index;
                assert(has_row(old, index));
                assert(rows[a].0 == index);
            } else {
                assert(rows[k].0 == index);
            }
        }
    }
}

proof fn lemma_row_found(rows: Seq<(u32, Double, Double)>, index: u32)
    ensures
        0 <= row_of(rows, index) <= rows.len(),
        row_of(rows, index) < rows.len() ==> rows[row_of(rows, index)].0 == index,
        forall|a: int| 0 <= a < row_of(rows, index) ==> (#[trigger] rows[a]).0 != index,
    decreases rows.len(),
{
    if rows.len() > 0 && rows[0].0 != index {
        lemma_row_found(rows.skip(1), index);
        assert forall|a: int| 0 <= a < row_of(rows, index) implies (#[trigger] rows[a]).0
            != index by {
            if a > 0 {
                assert(rows.skip(1)[a - 1] == rows[a]);
            }
        }
    }
}

/// Where no counter has two instances of a drive, every drive that either counter
/// knows has one row, with what it reads and with what it writes, each from its
/// own counter and nothing where that counter does not know the drive; and the
/// rows stand in the order of the drives' numbers.
pub proof fn law_rates_stay_with_their_drive(
    reads: Seq<(String, Double)>,
    writes: Seq<(String, Double)>,
    r: Seq<(u32, Double, Double)>,
)
    requires
        is_per_disk(reads, writes, r),
        one_each(reads),
        one_each(writes),
        r.len() <= usize::MAX,
    ensures
        forall|a: int, b: int| 0 <= a < b < r.len() ==> (#[trigger] r[a]).0 < (#[trigger] r[b]).0,
        forall|a: int|
            0 <= a < r.len() ==> is_rate_of(reads, (#[trigger] r[a]).0, r[a].1) && is_rate_of(
                writes,
                r[a].0,
                r[a].2,
            ),
        forall|i: int, index: u32| #[trigger] counts_for(reads, i, index) ==> has_row(r, index),
        forall|i: int, index: u32| #[trigger] counts_for(writes, i, index) ==> has_row(r, index),
{
    lemma_writes(reads, writes);
    let rows = with_writes(reads_of(reads), writes);
    let keys = index_keys(rows);
    let p = choose|p: Seq<usize>| #[trigger]
        order::is_stable_order(keys, p) && r == order::arranged(rows, p);
    assert forall|a: int, b: int| 0 <= a < b < r.len() implies (#[trigger] r[a]).0 < (
    #[trigger] r[b]).0 by {
        assert(order::goes_first(keys, p[a] as int, p[b] as int));
        assert(p[a] < p.len() && p[b] < p.len() && p[a] != p[b]);
        assert(keys[p[a] as int] == rows[p[a] as int].0 as u64);
        assert(keys[p[b] as int] == rows[p[b] as int].0 as u64);
        if p[a] < p[b] {
            assert(rows[p[a] as int].0 != rows[p[b] as int].0);
        } else {
            assert(rows[p[b] as int].0 != rows[p[a] as int].0);
        }
    }
    assert forall|a: int| 0 <= a < r.len() implies is_rate_of(
        reads,
        (#[trigger] r[a]).0,
        r[a].1,
    ) && is_rate_of(writes, r[a].0, r[a].2) by {
        assert(p[a] < p.len());
        assert(r[a] == rows[p[a] as int]);
    }
    assert forall|index: u32| #[trigger] has_row(rows, index) implies has_row(r, index) by {
        let a = choose|a: int| 0 <= a < rows.len() && (#[trigger] rows[a]).0 == index;
        order::lemma_permutation_covers(p, a);
        let w = choose|w: int| 0 <= w < p.len() && p[w] == a;
        assert(r[w].0 == index);
    }
}

proof fn lemma_behind_last(s: Seq<char>, pat: Seq<char>, from: int, at: int)
    requires
        0 <= at <= from,
        text::occurs_at(s, pat, at),
        forall|j: int| at < j <= from ==> !#[trigger] text::occurs_at(s, pat, j),
    ensures
        behind_last(s, pat, from) == s.skip(at + pat.len()),
    decreases from - at,
{
    if from > at {
        assert(!text::occurs_at(s, pat, from));
        lemma_behind_last(s, pat, from - 1, at);
    }
}

/// The kind of engine is what follows the last mark for it in the instance's name.
pub proof fn law_engine_is_behind_its_mark(front: Seq<char>, kind: Seq<char>)
    requires
        !text::has(kind, "engtype_"@),
    ensures
        behind_last(
            front + "engtype_"@ + kind,
            "engtype_"@,
            (front + "engtype_"@ + kind).len() as int,
        ) == kind,
{
    let p = "engtype_"@;
    reveal_strlit("engtype_");
    assert(p.len() == 8);
    assert(p[0] == 'e' && p[1] == 'n' && p[2] == 'g' && p[3] == 't' && p[4] == 'y' && p[5] == 'p'
        && p[6] == 'e' && p[7] == '_');
    let s = front + p + kind;
    let at = front.len() as int;
    assert(s.subrange(at, at + 8) =~= p);
    assert forall|j: int| at < j <= s.len() implies !#[trigger] text::occurs_at(s, p, j) by {
        if text::occurs_at(s, p, j) {
            if j >= at + 8 {
                let k = j - at - 8;
                assert(kind.subrange(k, k + 8) =~= s.subrange(j, j + 8));
                assert(text::occurs_at(kind, p, k));
            } else {
                assert(s.subrange(j, j + 8)[0] == s[j]);
                assert(s[j] == p[j - at]);
                assert(j - at == 6);
                assert(s.subrange(j, j + 8)[1] == s[j + 1]);
                assert(s[j + 1] == p[7]);
            }
        }
    }
    lemma_behind_last(s, p, s.len() as int, at);
    assert(s.skip(at + 8) =~= kind);
}

} // verus!
