//! Stable sorting by keys, and a map with strings for keys kept in order.

use crate::text;
use vstd::prelude::*;

verus! {

/// A value to sort by: a total preorder with an executable comparison.
pub trait SortKey: Sized {
    spec fn le(self, other: Self) -> bool;

    proof fn le_total(a: Self, b: Self)
        ensures
            a.le(b) || b.le(a),
    ;

    proof fn le_transitive(a: Self, b: Self, c: Self)
        requires
            a.le(b),
            b.le(c),
        ensures
            a.le(c),
    ;

    /// Whether this key comes strictly before the other.
    fn less(&self, other: &Self) -> (r: bool)
        ensures
            r == !other.le(*self),
    ;
}

impl SortKey for u64 {
    open spec fn le(self, other: Self) -> bool {
        self <= other
    }

    proof fn le_total(a: Self, b: Self) {
    }

    proof fn le_transitive(a: Self, b: Self, c: Self) {
    }

    fn less(&self, other: &Self) -> (r: bool) {
        *self < *other
    }
}

impl SortKey for String {
    open spec fn le(self, other: Self) -> bool {
        !text::before(other@, self@)
    }

    proof fn le_total(a: Self, b: Self) {
        text::lemma_before_total(a@, b@);
    }

    proof fn le_transitive(a: Self, b: Self, c: Self) {
        text::lemma_before_total(a@, b@);
        text::lemma_before_total(b@, c@);
        text::lemma_before_total(a@, c@);
        if text::before(c@, a@) {
            if text::before(a@, b@) {
                text::lemma_before_transitive(c@, a@, b@);
            }
        }
    }

    fn less(&self, other: &Self) -> (r: bool) {
        text::precedes(self.as_str(), other.as_str())
    }
}

/// A key that sorts the largest first.
pub struct Descending<K>(pub K);

impl<K: SortKey> SortKey for Descending<K> {
    open spec fn le(self, other: Self) -> bool {
        other.0.le(self.0)
    }

    proof fn le_total(a: Self, b: Self) {
        K::le_total(a.0, b.0);
    }

    proof fn le_transitive(a: Self, b: Self, c: Self) {
        K::le_transitive(c.0, b.0, a.0);
    }

    fn less(&self, other: &Self) -> (r: bool) {
        other.0.less(&self.0)
    }
}

/// Two keys, the second of which decides where the first does not.
pub struct Pair<A, B>(pub A, pub B);

impl<A: SortKey, B: SortKey> SortKey for Pair<A, B> {
    open spec fn le(self, other: Self) -> bool {
        self.0.le(other.0) && (!other.0.le(self.0) || self.1.le(other.1))
    }

    proof fn le_total(a: Self, b: Self) {
        A::le_total(a.0, b.0);
        B::le_total(a.1, b.1);
    }

    proof fn le_transitive(a: Self, b: Self, c: Self) {
        A::le_transitive(a.0, b.0, c.0);
        if c.0.le(a.0) {
            A::le_transitive(b.0, c.0, a.0);
            A::le_transitive(c.0, a.0, b.0);
            B::le_transitive(a.1, b.1, c.1);
        }
    }

    fn less(&self, other: &Self) -> (r: bool) {
        proof {
            A::le_total(self.0, other.0);
            B::le_total(self.1, other.1);
        }
        if self.0.less(&other.0) {
            true
        } else if other.0.less(&self.0) {
            false
        } else {
            self.1.less(&other.1)
        }
    }
}

/// In a stable sort the item at `i` goes before the item at `j`.
pub open spec fn goes_first<K: SortKey>(keys: Seq<K>, i: int, j: int) -> bool {
    keys[i].le(keys[j]) && (i < j || !keys[j].le(keys[i]))
}

/// `p` lists the numbers below its length, each once.
pub open spec fn is_permutation(p: Seq<usize>) -> bool {
    &&& p.no_duplicates()
    &&& forall|i: int| 0 <= i < p.len() ==> (#[trigger] p[i]) < p.len()
}

/// A permutation reaches every position.
pub proof fn lemma_permutation_covers(p: Seq<usize>, j: int)
    requires
        is_permutation(p),
        0 <= j < p.len() <= usize::MAX,
    ensures
        exists|w: int| 0 <= w < p.len() && p[w] == j,
{
    let all = Set::new(|x: usize| x < p.len());
    let q = p.to_set();
    p.unique_seq_to_set();
    assert(q.subset_of(all));
    lemma_below(p.len());
    vstd::set_lib::lemma_subset_equality(q, all);
    assert(q.contains(j as usize));
}

pub proof fn lemma_below(n: nat)
    requires
        n <= usize::MAX,
    ensures
        Set::new(|x: usize| x < n).finite(),
        Set::new(|x: usize| x < n).len() == n,
    decreases n,
{
    let s = Set::new(|x: usize| x < n);
    if n == 0 {
        assert(s =~= Set::<usize>::empty());
    } else {
        let m = (n - 1) as nat;
        lemma_below(m);
        let t = Set::new(|x: usize| x < m);
        assert(s =~= t.insert(m as usize));
    }
}

/// `p` lists the positions of `keys` in the order of a stable sort.
pub open spec fn is_stable_order<K: SortKey>(keys: Seq<K>, p: Seq<usize>) -> bool {
    &&& p.len() == keys.len()
    &&& is_permutation(p)
    &&& forall|a: int, b: int|
        0 <= a < b < p.len() ==> goes_first(keys, #[trigger] p[a] as int, #[trigger] p[b] as int)
}

/// The positions of the keys in the order of a stable sort.
pub fn stable_order<K: SortKey>(keys: &Vec<K>) -> (r: Vec<usize>)
    ensures
        is_stable_order(keys@, r@),
{
    let mut r: Vec<usize> = Vec::new();
    let mut i: usize = 0;
    while i < keys.len()
        invariant
            i <= keys.len(),
            r@.len() == i,
            is_permutation(r@),
            forall|a: int, b: int|
                0 <= a < b < r@.len() ==> goes_first(
                    keys@,
                    #[trigger] r@[a] as int,
                    #[trigger] r@[b] as int,
                ),
        decreases keys.len() - i,
    {
        let mut j: usize = i;
        while j > 0 && keys[i].less(&keys[r[j - 1]])
            invariant
                j <= i < keys.len(),
                r@.len() == i,
                is_permutation(r@),
                forall|b: int| j <= b < i ==> !keys@[#[trigger] r@[b] as int].le(keys@[i as int]),
            decreases j,
        {
            j -= 1;
        }
        let ghost r0 = r@;
        r.insert(j, i);
        proof {
            assert forall|a: int| 0 <= a < j implies goes_first(keys@, r0[a] as int, i as int) by {
                let last = r0[j - 1] as int;
                let cur = r0[a] as int;
                K::le_total(keys@[last], keys@[i as int]);
                if a < j - 1 {
                    assert(goes_first(keys@, cur, last));
                    K::le_transitive(keys@[cur], keys@[last], keys@[i as int]);
                }
            }
            assert forall|b: int| j <= b < i implies goes_first(
                keys@,
                i as int,
                #[trigger] r0[b] as int,
            ) by {
                K::le_total(keys@[i as int], keys@[r0[b] as int]);
            }
            assert forall|a: int, b: int| 0 <= a < b < r@.len() implies goes_first(
                keys@,
                #[trigger] r@[a] as int,
                #[trigger] r@[b] as int,
            ) by {
                let x = if a < j { a } else { a - 1 };
                let y = if b < j { b } else { b - 1 };
                if a != j {
                    assert(r@[a] == r0[x]);
                }
                if b != j {
                    assert(r@[b] == r0[y]);
                }
            }
            assert forall|a: int| 0 <= a < r@.len() implies (#[trigger] r@[a]) < r@.len() by {
                if a < j {
                    assert(r@[a] == r0[a]);
                } else if a > j {
                    assert(r@[a] == r0[a - 1]);
                }
            }
            assert forall|a: int, b: int| 0 <= a < b < r@.len() implies r@[a] != r@[b] by {
                let x = if a < j { a } else { a - 1 };
                let y = if b < j { b } else { b - 1 };
                if a != j {
                    assert(r@[a] == r0[x]);
                }
                if b != j {
                    assert(r@[b] == r0[y]);
                }
            }
        }
        i += 1;
    }
    r
}

/// The items of `s` in the order that `p` lists.
pub open spec fn arranged<T>(s: Seq<T>, p: Seq<usize>) -> Seq<T> {
    Seq::new(p.len(), |i: int| s[p[i] as int])
}

/// Moves the items into the order that `p` lists.
pub fn arrange<T>(items: Vec<T>, p: &Vec<usize>) -> (r: Vec<T>)
    requires
        is_permutation(p@),
        p@.len() == items@.len(),
    ensures
        r@ == arranged(items@, p@),
{
    let mut slots: Vec<Option<T>> = Vec::new();
    let ghost all = items@;
    let mut rest: Vec<T> = items;
    let n: usize = rest.len();
    let mut back: Vec<T> = Vec::new();
    while rest.len() > 0
        invariant
            n == all.len(),
            rest@.len() <= n,
            rest@ == all.take(rest@.len() as int),
            back@.len() == n - rest@.len(),
            forall|i: int| 0 <= i < back@.len() ==> back@[i] == all[n - 1 - i],
        decreases rest.len(),
    {
        let x: Option<T> = rest.pop();
        match x {
            Some(v) => { back.push(v); },
            None => {},
        }
    }
    while back.len() > 0
        invariant
            n == all.len(),
            back@.len() <= n,
            forall|i: int| 0 <= i < back@.len() ==> back@[i] == all[n - 1 - i],
            slots@.len() == n - back@.len(),
            forall|i: int| 0 <= i < slots@.len() ==> slots@[i] == Some(all[i]),
        decreases back.len(),
    {
        let x: Option<T> = back.pop();
        slots.push(x);
    }
    let mut r: Vec<T> = Vec::new();
    let mut i: usize = 0;
    while i < n
        invariant
            n == all.len(),
            p@.len() == n,
            slots@.len() == n,
            is_permutation(p@),
            i <= n,
            r@ == arranged(all, p@).take(i as int),
            forall|k: int| 0 <= k < n && !p@.take(i as int).contains(k as usize) ==> slots@[k] == Some(all[k]),
        decreases n - i,
    {
        let k: usize = p[i];
        assert(!p@.take(i as int).contains(k)) by {
            if p@.take(i as int).contains(k) {
                let w = choose|w: int| 0 <= w < i && p@.take(i as int)[w] == k;
                assert(p@[w] == p@[i as int]);
            }
        }
        let x: Option<T> = slots[k].take();
        match x {
            Some(v) => { r.push(v); },
            None => {
                assert(false);
            },
        }
        proof {
            assert forall|j: int| 0 <= j < n && !p@.take(i + 1).contains(j as usize) implies slots@[j]
                == Some(all[j]) by {
                if p@.take(i as int).contains(j as usize) {
                    let w = choose|w: int| 0 <= w < i && p@.take(i as int)[w] == j as usize;
                    assert(p@.take(i + 1)[w] == j as usize);
                }
                if j == k {
                    assert(p@.take(i + 1)[i as int] == j as usize);
                }
            }
        }
        i += 1;
    }
    r
}

/// `r` holds the items of `s`, whose numbers are listed in `from`, in the order
/// of the numbers in `to`: each item stays with its number.
pub open spec fn is_moved<T>(s: Seq<T>, from: Seq<usize>, to: Seq<usize>, r: Seq<T>) -> bool {
    &&& r.len() == s.len()
    &&& forall|i: int, j: int|
        0 <= i < to.len() && 0 <= j < from.len() && #[trigger] from[j] == #[trigger] to[i]
            ==> r[i] == s[j]
}

/// Moves items from one order of their numbers to another.
pub fn move_items<T: Copy>(v: &Vec<T>, from: &Vec<usize>, to: &Vec<usize>) -> (r: Vec<T>)
    requires
        is_permutation(from@),
        is_permutation(to@),
        from@.len() == v@.len(),
        to@.len() == v@.len(),
    ensures
        is_moved(v@, from@, to@, r@),
        forall|i: int| 0 <= i < r@.len() ==> v@.contains(#[trigger] r@[i]),
{
    let n: usize = v.len();
    let mut at: Vec<usize> = Vec::new();
    let mut k: usize = 0;
    while k < n
        invariant
            n == v@.len(),
            k <= n,
            at@.len() == k,
            from@.len() == n,
            is_permutation(from@),
            forall|a: int|
                0 <= a < k ==> (#[trigger] at@[a]) < n && from@[at@[a] as int] == a,
        decreases n - k,
    {
        let mut j: usize = 0;
        proof {
            lemma_permutation_covers(from@, k as int);
        }
        while from[j] != k
            invariant
                n == v@.len(),
                from@.len() == n,
                k < n,
                j < n,
                exists|w: int| j <= w < n && from@[w] == k,
            decreases n - j,
        {
            j += 1;
        }
        at.push(j);
        k += 1;
    }
    let mut r: Vec<T> = Vec::new();
    let mut i: usize = 0;
    while i < n
        invariant
            n == v@.len(),
            from@.len() == n,
            to@.len() == n,
            at@.len() == n,
            is_permutation(from@),
            is_permutation(to@),
            forall|a: int|
                0 <= a < n ==> (#[trigger] at@[a]) < n && from@[at@[a] as int] == a,
            i <= n,
            r@.len() == i,
            forall|a: int| 0 <= a < i ==> #[trigger] r@[a] == v@[at@[to@[a] as int] as int],
        decreases n - i,
    {
        let k: usize = to[i];
        let j: usize = at[k];
        r.push(v[j]);
        i += 1;
    }
    proof {
        assert forall|a: int, b: int|
            0 <= a < n && 0 <= b < n && #[trigger] from@[b] == #[trigger] to@[a] implies r@[a]
            == v@[b] by {
            let c = at@[to@[a] as int] as int;
            assert(from@[c] == from@[b]);
        }
    }
    r
}

/// `r` holds the items in the order of a stable sort by their keys.
pub open spec fn is_sorted_copy<T, K: SortKey>(items: Seq<T>, keys: Seq<K>, r: Seq<T>) -> bool {
    exists|p: Seq<usize>| #[trigger] is_stable_order(keys, p) && r == arranged(items, p)
}

/// Moves the items into the order of a stable sort by their keys.
pub fn sort_by_keys<T, K: SortKey>(items: Vec<T>, keys: &Vec<K>) -> (r: Vec<T>)
    requires
        items@.len() == keys@.len(),
    ensures
        is_sorted_copy(items@, keys@, r@),
{
    let p: Vec<usize> = stable_order(keys);
    arrange(items, &p)
}

/// What the filter keeps of one item more.
pub proof fn lemma_filter_step<A>(s: Seq<A>, pred: spec_fn(A) -> bool, i: int)
    requires
        0 <= i < s.len(),
    ensures
        s.take(0).filter(pred) == Seq::<A>::empty(),
        s.take(i + 1).filter(pred) == (if pred(s[i]) {
            s.take(i).filter(pred).push(s[i])
        } else {
            s.take(i).filter(pred)
        }),
{
    reveal(Seq::filter);
    assert(s.take(0) =~= Seq::<A>::empty());
    assert(s.take(i + 1).drop_last() =~= s.take(i));
    assert(s.take(i + 1).last() == s[i]);
}

// ---------------------------------------------------------------------------
// A map with strings for keys

/// A map from strings to values whose entries stand in the order of the keys.
#[derive(Clone, Debug)]
pub struct StrMap<V> {
    pub entries: Vec<(String, V)>,
}

impl<V> StrMap<V> {
    /// The keys are strictly increasing, so none occurs twice.
    pub open spec fn wf(self) -> bool {
        forall|i: int, j: int|
            0 <= i < j < self.entries@.len() ==> text::before(
                #[trigger] self.entries@[i].0@,
                #[trigger] self.entries@[j].0@,
            )
    }

    pub open spec fn has_key(self, k: Seq<char>) -> bool {
        exists|i: int| 0 <= i < self.entries@.len() && #[trigger] self.entries@[i].0@ == k
    }

    pub open spec fn index_of(self, k: Seq<char>) -> int {
        choose|i: int| 0 <= i < self.entries@.len() && #[trigger] self.entries@[i].0@ == k
    }

    pub open spec fn view(self) -> Map<Seq<char>, V> {
        Map::new(|k: Seq<char>| self.has_key(k), |k: Seq<char>| self.entries@[self.index_of(k)].1)
    }

    pub proof fn lemma_index(self, i: int)
        requires
            self.wf(),
            0 <= i < self.entries@.len(),
        ensures
            self@.dom().contains(self.entries@[i].0@),
            self.index_of(self.entries@[i].0@) == i,
            self@[self.entries@[i].0@] == self.entries@[i].1,
    {
        let k = self.entries@[i].0@;
        assert(self.has_key(k));
        let j = self.index_of(k);
        assert(self.entries@[j].0@ == k);
        if j < i {
            text::lemma_before_total(self.entries@[j].0@, self.entries@[i].0@);
        }
        if i < j {
            text::lemma_before_total(self.entries@[i].0@, self.entries@[j].0@);
        }
    }

    pub fn new() -> (r: Self)
        ensures
            r.wf(),
            r@ == Map::<Seq<char>, V>::empty(),
            r.entries@.len() == 0,
    {
        let r = StrMap { entries: Vec::new() };
        assert(r@ =~= Map::<Seq<char>, V>::empty());
        r
    }

    /// The position of the key, or the position at which it would stand.
    pub fn locate(&self, key: &str) -> (r: (usize, bool))
        requires
            self.wf(),
        ensures
            r.0 <= self.entries@.len(),
            r.1 == self.has_key(key@),
            r.1 ==> r.0 < self.entries@.len() && self.entries@[r.0 as int].0@ == key@,
            forall|i: int| 0 <= i < r.0 ==> text::before(#[trigger] self.entries@[i].0@, key@),
            !r.1 ==> forall|i: int|
                r.0 <= i < self.entries@.len() ==> text::before(key@, #[trigger] self.entries@[i].0@),
    {
        let mut i: usize = 0;
        while i < self.entries.len() && text::precedes(self.entries[i].0.as_str(), key)
            invariant
                self.wf(),
                i <= self.entries@.len(),
                forall|j: int| 0 <= j < i ==> text::before(#[trigger] self.entries@[j].0@, key@),
            decreases self.entries.len() - i,
        {
            i += 1;
        }
        if i < self.entries.len() && text::same(self.entries[i].0.as_str(), key) {
            return (i, true);
        }
        proof {
            if i < self.entries@.len() {
                text::lemma_before_total(self.entries@[i as int].0@, key@);
                assert forall|j: int| i <= j < self.entries@.len() implies text::before(
                    key@,
                    #[trigger] self.entries@[j].0@,
                ) by {
                    if j > i {
                        text::lemma_before_transitive(
                            key@,
                            self.entries@[i as int].0@,
                            self.entries@[j].0@,
                        );
                    }
                }
            }
            if self.has_key(key@) {
                let w = self.index_of(key@);
                text::lemma_before_total(self.entries@[w].0@, key@);
            }
        }
        (i, false)
    }

    pub fn get(&self, key: &str) -> (r: Option<&V>)
        requires
            self.wf(),
        ensures
            r == (if self@.dom().contains(key@) {
                Some(&self@[key@])
            } else {
                None
            }),
    {
        let (i, found) = self.locate(key);
        if found {
            proof {
                self.lemma_index(i as int);
            }
            Some(&self.entries[i].1)
        } else {
            None
        }
    }

    pub fn contains_key(&self, key: &str) -> (r: bool)
        requires
            self.wf(),
        ensures
            r == self@.dom().contains(key@),
    {
        let (_i, found) = self.locate(key);
        found
    }

    pub fn insert(&mut self, key: String, value: V)
        requires
            old(self).wf(),
        ensures
            final(self).wf(),
            final(self)@ == old(self)@.insert(key@, value),
    {
        let (i, found) = self.locate(key.as_str());
        let ghost e0 = self.entries@;
        let ghost m0 = *self;
        let ghost k = key@;
        if found {
            let _gone: (String, V) = self.entries.remove(i);
            self.entries.insert(i, (key, value));
            assert(self.entries@ =~= e0.update(i as int, (key, value)));
        } else {
            self.entries.insert(i, (key, value));
            assert(self.entries@ =~= e0.insert(i as int, (key, value)));
        }
        proof {
            let e1 = self.entries@;
            assert forall|a: int, b: int| 0 <= a < b < e1.len() implies text::before(
                #[trigger] e1[a].0@,
                #[trigger] e1[b].0@,
            ) by {
                let x = if found || a < i { a } else { a - 1 };
                let y = if found || b < i { b } else { b - 1 };
                if a != i {
                    assert(e1[a] == e0[x]);
                }
                if b != i {
                    assert(e1[b] == e0[y]);
                }
                if found {
                    assert(e0[i as int].0@ == k);
                    assert(e1[a].0@ == e0[a].0@);
                    assert(e1[b].0@ == e0[b].0@);
                }
            }
            assert(self.wf());
            let want = m0@.insert(k, value);
            assert forall|q: Seq<char>| self@.dom().contains(q) == want.dom().contains(q) by {
                if self.has_key(q) {
                    let w = self.index_of(q);
                    if w != i {
                        let x = if found || w < i { w } else { w - 1 };
                        assert(e1[w] == e0[x]);
                        assert(m0.entries@[x].0@ == q);
                    } else {
                        assert(e1[w].0@ == k);
                    }
                }
                if m0.has_key(q) {
                    let w = m0.index_of(q);
                    let x = if found || w < i { w } else { w + 1 };
                    assert(e1[x].0@ == e0[w].0@);
                }
                assert(e1[i as int].0@ == k);
            }
            assert forall|q: Seq<char>| want.dom().contains(q) implies self@[q] == want[q] by {
                assert(self.has_key(q));
                let w = self.index_of(q);
                self.lemma_index(w);
                if q == k {
                    self.lemma_index(i as int);
                } else {
                    assert(m0.has_key(q));
                    let v = m0.index_of(q);
                    let x = if found || v < i { v } else { v + 1 };
                    assert(e1[x] == e0[v]);
                    self.lemma_index(x);
                }
            }
            assert(self@ =~= want);
        }
    }

    pub fn remove(&mut self, key: &str) -> (r: Option<V>)
        requires
            old(self).wf(),
        ensures
            final(self).wf(),
            final(self)@ == old(self)@.remove(key@),
            r == (if old(self)@.dom().contains(key@) {
                Some(old(self)@[key@])
            } else {
                None
            }),
    {
        let (i, found) = self.locate(key);
        let ghost e0 = self.entries@;
        let ghost m0 = *self;
        if !found {
            assert(self@ =~= m0@.remove(key@));
            return None;
        }
        proof {
            m0.lemma_index(i as int);
        }
        let gone: (String, V) = self.entries.remove(i);
        proof {
            let e1 = self.entries@;
            assert forall|a: int| 0 <= a < e1.len() implies (#[trigger] e1[a]) == e0[if a < i {
                a
            } else {
                a + 1
            }] by {}
            let want = m0@.remove(key@);
            assert(self.wf());
            assert forall|q: Seq<char>| self@.dom().contains(q) == want.dom().contains(q) by {
                if self.has_key(q) {
                    let w = self.index_of(q);
                    let x = if w < i { w } else { w + 1 };
                    assert(e1[w] == e0[x]);
                    m0.lemma_index(x);
                    if q == key@ {
                        assert(m0.index_of(q) == i);
                    }
                }
                if m0.has_key(q) && q != key@ {
                    let w = m0.index_of(q);
                    let x = if w < i { w } else { w - 1 };
                    assert(w != i);
                    assert(e1[x] == e0[w]);
                }
            }
            assert forall|q: Seq<char>| want.dom().contains(q) implies self@[q] == want[q] by {
                assert(self.has_key(q));
                let w = self.index_of(q);
                self.lemma_index(w);
                let x = if w < i { w } else { w + 1 };
                assert(e1[w] == e0[x]);
                m0.lemma_index(x);
            }
            assert(self@ =~= want);
        }
        Some(gone.1)
    }
}

} // verus!
