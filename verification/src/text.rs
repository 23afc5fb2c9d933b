//! Text as sequences of characters: searching, trimming, splitting, number
//! formats and an ordered map keyed by strings.

use vstd::prelude::*;
use vstd::string::StringExecFns;

verus! {

/// `String::push` appends one character and changes nothing else.
pub assume_specification[ String::push ](s: &mut String, c: char)
    ensures
        final(s)@ == old(s)@.push(c),
;

// ---------------------------------------------------------------------------
// Conversions and equality

/// The characters of a string, in order.
pub fn chars_of(s: &str) -> (r: Vec<char>)
    ensures
        r@ == s@,
{
    let mut r: Vec<char> = Vec::new();
    for c in it: s.chars()
        invariant
            it.seq() == s@,
            r@ == it.seq().take(it.index()),
    {
        r.push(c);
    }
    r
}

/// A string made of the given characters.
pub fn string_of(chars: &[char]) -> (r: String)
    ensures
        r@ == chars@,
{
    let mut r: String = String::new();
    let mut i: usize = 0;
    while i < chars.len()
        invariant
            i <= chars.len(),
            r@ == chars@.take(i as int),
        decreases chars.len() - i,
    {
        r.push(chars[i]);
        i += 1;
    }
    r
}

/// Whether two strings hold the same characters.
pub fn same(a: &str, b: &str) -> (r: bool)
    ensures
        r == (a@ == b@),
{
    let x: &[u8] = a.as_bytes();
    let y: &[u8] = b.as_bytes();
    proof {
        vstd::utf8::encode_utf8_decode_utf8(a@);
        vstd::utf8::encode_utf8_decode_utf8(b@);
    }
    if x.len() != y.len() {
        return false;
    }
    let mut i: usize = 0;
    while i < x.len()
        invariant
            i <= x.len(),
            x.len() == y.len(),
            forall|j: int| 0 <= j < i ==> x@[j] == y@[j],
            x@ == vstd::utf8::encode_utf8(a@),
            y@ == vstd::utf8::encode_utf8(b@),
        decreases x.len() - i,
    {
        if x[i] != y[i] {
            return false;
        }
        i += 1;
    }
    assert(x@ =~= y@);
    true
}

// ---------------------------------------------------------------------------
// Character classes and case

pub open spec fn is_digit(c: char) -> bool {
    '0' <= c <= '9'
}

pub open spec fn is_upper(c: char) -> bool {
    'A' <= c <= 'Z'
}

pub open spec fn is_lower(c: char) -> bool {
    'a' <= c <= 'z'
}

pub fn digit_class(c: char) -> (r: bool)
    ensures
        r == is_digit(c),
{
    '0' <= c && c <= '9'
}

/// The characters with the Unicode property White_Space.
pub open spec fn is_white(c: char) -> bool {
    let n = c as u32;
    ||| 0x09 <= n <= 0x0d
    ||| n == 0x20
    ||| n == 0x85
    ||| n == 0xa0
    ||| n == 0x1680
    ||| 0x2000 <= n <= 0x200a
    ||| n == 0x2028
    ||| n == 0x2029
    ||| n == 0x202f
    ||| n == 0x205f
    ||| n == 0x3000
}

pub fn white(c: char) -> (r: bool)
    ensures
        r == is_white(c),
{
    let n: u32 = c as u32;
    (0x09 <= n && n <= 0x0d) || n == 0x20 || n == 0x85 || n == 0xa0 || n == 0x1680 || (0x2000 <= n
        && n <= 0x200a) || n == 0x2028 || n == 0x2029 || n == 0x202f || n == 0x205f || n == 0x3000
}

/// An ASCII capital as its small letter; every other character as it is.
pub open spec fn lower_char(c: char) -> char {
    if is_upper(c) {
        ((c as u8) + 32) as char
    } else {
        c
    }
}

/// A string with its ASCII capitals made small.
pub open spec fn lower(s: Seq<char>) -> Seq<char> {
    s.map_values(|c: char| lower_char(c))
}

pub fn ascii_lower_char(c: char) -> (r: char)
    ensures
        r == lower_char(c),
{
    if 'A' <= c && c <= 'Z' {
        ((c as u8) + 32) as char
    } else {
        c
    }
}

pub fn ascii_lower(s: &str) -> (r: String)
    ensures
        r@ == lower(s@),
{
    let cs: Vec<char> = chars_of(s);
    let mut r: String = String::new();
    let mut i: usize = 0;
    while i < cs.len()
        invariant
            cs@ == s@,
            i <= cs.len(),
            r@ == lower(s@).take(i as int),
        decreases cs.len() - i,
    {
        r.push(ascii_lower_char(cs[i]));
        i += 1;
    }
    r
}

/// `str::to_lowercase`: a string in lower case.
pub uninterp spec fn lowercase(s: Seq<char>) -> Seq<char>;

/// `str::to_lowercase` gives the lower case of every character as Unicode has
/// it; the result depends on the string alone, and in a string of ASCII only
/// the capitals change.
#[verifier::external_body]
pub(crate) fn to_lower(s: &str) -> (r: String)
    ensures
        r@ == lowercase(s@),
        vstd::utf8::is_ascii_chars(s@) ==> r@ == lower(s@),
{
    s.to_lowercase()
}

/// An ASCII small letter as its capital; every other character as it is.
pub open spec fn upper_char(c: char) -> char {
    if is_lower(c) {
        ((c as u8) - 32) as char
    } else {
        c
    }
}

/// A string with its ASCII small letters made capitals.
pub open spec fn upper(s: Seq<char>) -> Seq<char> {
    s.map_values(|c: char| upper_char(c))
}

pub fn ascii_upper(s: &str) -> (r: String)
    ensures
        r@ == upper(s@),
{
    let cs: Vec<char> = chars_of(s);
    let mut r: String = String::new();
    let mut i: usize = 0;
    while i < cs.len()
        invariant
            cs@ == s@,
            i <= cs.len(),
            r@ == upper(s@).take(i as int),
        decreases cs.len() - i,
    {
        let c: char = cs[i];
        if 'a' <= c && c <= 'z' {
            r.push(((c as u8) - 32) as char);
        } else {
            r.push(c);
        }
        i += 1;
    }
    r
}

// ---------------------------------------------------------------------------
// Searching

/// `pat` stands in `s` at position `i`.
pub open spec fn occurs_at(s: Seq<char>, pat: Seq<char>, i: int) -> bool {
    0 <= i <= s.len() - pat.len() && s.subrange(i, i + pat.len()) == pat
}

/// `pat` stands somewhere in `s`.
pub open spec fn has(s: Seq<char>, pat: Seq<char>) -> bool {
    exists|i: int| occurs_at(s, pat, i)
}

/// The first position from `from` on at which `pat` stands in `s`.
pub open spec fn find_from(s: Seq<char>, pat: Seq<char>, from: int) -> Option<int>
    decreases s.len() - from + 1,
{
    if from < 0 || from + pat.len() > s.len() {
        None
    } else if occurs_at(s, pat, from) {
        Some(from)
    } else {
        find_from(s, pat, from + 1)
    }
}

pub proof fn lemma_find_from(s: Seq<char>, pat: Seq<char>, from: int)
    requires
        0 <= from,
    ensures
        match find_from(s, pat, from) {
            Some(i) => {
                &&& from <= i
                &&& occurs_at(s, pat, i)
                &&& forall|j: int| from <= j < i ==> !#[trigger] occurs_at(s, pat, j)
            },
            None => forall|j: int| from <= j ==> !#[trigger] occurs_at(s, pat, j),
        },
    decreases s.len() - from + 1,
{
    if from + pat.len() <= s.len() && !occurs_at(s, pat, from) {
        lemma_find_from(s, pat, from + 1);
    }
}

/// A pattern stands in a string exactly when the search finds a place.
pub proof fn lemma_has_is_find(s: Seq<char>, pat: Seq<char>)
    ensures
        has(s, pat) == find_from(s, pat, 0).is_some(),
{
    lemma_find_from(s, pat, 0);
}

pub fn match_at(s: &[char], pat: &[char], i: usize) -> (r: bool)
    ensures
        r == occurs_at(s@, pat@, i as int),
{
    if pat.len() > s.len() || i > s.len() - pat.len() {
        return false;
    }
    let mut k: usize = 0;
    while k < pat.len()
        invariant
            k <= pat.len(),
            i + pat.len() <= s.len(),
            forall|j: int| 0 <= j < k ==> s@[i + j] == pat@[j],
        decreases pat.len() - k,
    {
        if s[i + k] != pat[k] {
            assert(s@.subrange(i as int, i + pat.len())[k as int] != pat@[k as int]);
            return false;
        }
        k += 1;
    }
    assert(s@.subrange(i as int, i + pat.len()) =~= pat@);
    true
}

pub fn search(s: &[char], pat: &[char], from: usize) -> (r: Option<usize>)
    ensures
        match r {
            Some(i) => find_from(s@, pat@, from as int) == Some(i as int),
            None => find_from(s@, pat@, from as int).is_none(),
        },
{
    if pat.len() > s.len() {
        return None;
    }
    let last: usize = s.len() - pat.len();
    let mut i: usize = from;
    while i <= last
        invariant
            last == s.len() - pat.len(),
            from <= i,
            i <= last ==> find_from(s@, pat@, from as int) == find_from(s@, pat@, i as int),
            i > last ==> (from > last || find_from(s@, pat@, from as int).is_none()),
        decreases last + 1 - i,
    {
        if match_at(s, pat, i) {
            return Some(i);
        }
        if i == last {
            assert(find_from(s@, pat@, i + 1).is_none());
            return None;
        }
        i += 1;
    }
    None
}

pub fn contains(s: &str, pat: &str) -> (r: bool)
    ensures
        r == has(s@, pat@),
{
    proof {
        lemma_has_is_find(s@, pat@);
    }
    let a: Vec<char> = chars_of(s);
    let b: Vec<char> = chars_of(pat);
    search(a.as_slice(), b.as_slice(), 0).is_some()
}

pub fn starts_with(s: &str, pat: &str) -> (r: bool)
    ensures
        r == occurs_at(s@, pat@, 0),
{
    let a: Vec<char> = chars_of(s);
    let b: Vec<char> = chars_of(pat);
    match_at(a.as_slice(), b.as_slice(), 0)
}

// ---------------------------------------------------------------------------
// Trimming, splitting, joining

/// Without the characters of `drop` at the front.
pub open spec fn skip_front(s: Seq<char>, drop: spec_fn(char) -> bool) -> Seq<char>
    decreases s.len(),
{
    if s.len() > 0 && drop(s[0]) {
        skip_front(s.skip(1), drop)
    } else {
        s
    }
}

/// Without the characters of `drop` at the back.
pub open spec fn skip_back(s: Seq<char>, drop: spec_fn(char) -> bool) -> Seq<char>
    decreases s.len(),
{
    if s.len() > 0 && drop(s.last()) {
        skip_back(s.drop_last(), drop)
    } else {
        s
    }
}

/// Without white space at either end.
pub open spec fn trimmed(s: Seq<char>) -> Seq<char> {
    skip_back(skip_front(s, |c: char| is_white(c)), |c: char| is_white(c))
}

/// Without the leading run of `c`.
pub open spec fn without_leading(s: Seq<char>, c: char) -> Seq<char> {
    skip_front(s, is_char(c))
}

/// The predicate that holds of `c` alone.
pub open spec fn is_char(c: char) -> spec_fn(char) -> bool {
    |x: char| x == c
}

proof fn lemma_skip_front_step(s: Seq<char>, drop: spec_fn(char) -> bool, i: int)
    requires
        0 <= i < s.len(),
        drop(s[i]),
    ensures
        skip_front(s.skip(i), drop) == skip_front(s.skip(i + 1), drop),
{
    assert(s.skip(i)[0] == s[i]);
    assert(s.skip(i).skip(1) =~= s.skip(i + 1));
}

pub fn trim_chars(s: &[char]) -> (r: Vec<char>)
    ensures
        r@ == trimmed(s@),
{
    let ghost white_fn = |c: char| is_white(c);
    assert(s@.skip(0) =~= s@);
    let mut i: usize = 0;
    while i < s.len() && white(s[i])
        invariant
            i <= s.len(),
            white_fn == (|c: char| is_white(c)),
            skip_front(s@, white_fn) == skip_front(s@.skip(i as int), white_fn),
        decreases s.len() - i,
    {
        proof {
            lemma_skip_front_step(s@, white_fn, i as int);
        }
        i += 1;
    }
    assert(skip_front(s@, white_fn) == s@.skip(i as int)) by {
        if i < s.len() {
            assert(s@.skip(i as int)[0] == s@[i as int]);
        }
    }
    let ghost front = s@.skip(i as int);
    let mut j: usize = s.len();
    assert(s@.subrange(i as int, j as int) =~= front);
    while j > i && white(s[j - 1])
        invariant
            i <= j <= s.len(),
            white_fn == (|c: char| is_white(c)),
            front == s@.skip(i as int),
            skip_back(front, white_fn) == skip_back(s@.subrange(i as int, j as int), white_fn),
        decreases j,
    {
        proof {
            let cur = s@.subrange(i as int, j as int);
            assert(cur.last() == s@[j - 1]);
            assert(cur.drop_last() =~= s@.subrange(i as int, j - 1));
        }
        j -= 1;
    }
    assert(skip_back(front, white_fn) == s@.subrange(i as int, j as int)) by {
        let cur = s@.subrange(i as int, j as int);
        if j > i {
            assert(cur.last() == s@[j - 1]);
        }
    }
    slice_of(s, i, j)
}

/// Without white space at the end.
pub fn trim_end_chars(s: &[char]) -> (r: Vec<char>)
    ensures
        r@ == skip_back(s@, |c: char| is_white(c)),
{
    let ghost white_fn = |c: char| is_white(c);
    let mut j: usize = s.len();
    assert(s@.take(j as int) =~= s@);
    while j > 0 && white(s[j - 1])
        invariant
            j <= s.len(),
            white_fn == (|c: char| is_white(c)),
            skip_back(s@, white_fn) == skip_back(s@.take(j as int), white_fn),
        decreases j,
    {
        assert(s@.take(j as int).last() == s@[j - 1]);
        assert(s@.take(j as int).drop_last() =~= s@.take(j - 1));
        j -= 1;
    }
    proof {
        if j > 0 {
            assert(s@.take(j as int).last() == s@[j - 1]);
        }
    }
    let t: Vec<char> = slice_of(s, 0, j);
    assert(t@ =~= s@.take(j as int));
    t
}

/// The characters of `s` from `i` up to `j`.
pub fn slice_of(s: &[char], i: usize, j: usize) -> (r: Vec<char>)
    requires
        i <= j <= s.len(),
    ensures
        r@ == s@.subrange(i as int, j as int),
{
    let mut r: Vec<char> = Vec::new();
    let mut k: usize = i;
    while k < j
        invariant
            i <= k <= j <= s.len(),
            r@ == s@.subrange(i as int, k as int),
        decreases j - k,
    {
        r.push(s[k]);
        k += 1;
    }
    r
}

/// The leading run of characters of `keep`.
pub open spec fn take_front(s: Seq<char>, keep: spec_fn(char) -> bool) -> Seq<char> {
    s.take(s.len() - skip_front(s, keep).len())
}

/// The position behind the run of characters from `from` on that `f` accepts.
pub(crate) fn run_end<F: Fn(char) -> bool>(
    s: &[char],
    from: usize,
    f: F,
    Ghost(class): Ghost<spec_fn(char) -> bool>,
) -> (r: usize)
    requires
        from <= s@.len(),
        forall|c: char| call_requires(f, (c,)),
        forall|c: char, b: bool| call_ensures(f, (c,), b) ==> b == class(c),
    ensures
        from <= r <= s@.len(),
        skip_front(s@.skip(from as int), class) == s@.skip(r as int),
        take_front(s@.skip(from as int), class) == s@.subrange(from as int, r as int),
{
    let mut i: usize = from;
    while i < s.len() && f(s[i])
        invariant
            from <= i <= s@.len(),
            forall|c: char| call_requires(f, (c,)),
            forall|c: char, b: bool| call_ensures(f, (c,), b) ==> b == class(c),
            skip_front(s@.skip(from as int), class) == skip_front(s@.skip(i as int), class),
        decreases s@.len() - i,
    {
        proof {
            lemma_skip_front_step(s@, class, i as int);
        }
        i += 1;
    }
    proof {
        if i < s@.len() {
            assert(s@.skip(i as int)[0] == s@[i as int]);
        }
        assert(skip_front(s@.skip(from as int), class) == s@.skip(i as int));
        assert(s@.skip(from as int).take(i - from) =~= s@.subrange(from as int, i as int));
    }
    i
}

pub fn trim(s: &str) -> (r: String)
    ensures
        r@ == trimmed(s@),
{
    let a: Vec<char> = chars_of(s);
    let t: Vec<char> = trim_chars(a.as_slice());
    string_of(t.as_slice())
}

pub fn strip_leading(s: &str, c: char) -> (r: String)
    ensures
        r@ == without_leading(s@, c),
{
    let a: Vec<char> = chars_of(s);
    let ghost is_c = is_char(c);
    assert(s@.skip(0) =~= s@);
    let mut i: usize = 0;
    while i < a.len() && a[i] == c
        invariant
            i <= a.len(),
            a@ == s@,
            is_c == is_char(c),
            skip_front(s@, is_c) == skip_front(s@.skip(i as int), is_c),
        decreases a.len() - i,
    {
        proof {
            lemma_skip_front_step(s@, is_c, i as int);
        }
        i += 1;
    }
    assert(skip_front(s@, is_c) == s@.skip(i as int)) by {
        if i < a.len() {
            assert(s@.skip(i as int)[0] == s@[i as int]);
        }
    }
    let t: Vec<char> = slice_of(a.as_slice(), i, a.len());
    assert(t@ =~= s@.skip(i as int));
    string_of(t.as_slice())
}

/// Without the closing run of `c`.
pub open spec fn without_trailing(s: Seq<char>, c: char) -> Seq<char> {
    skip_back(s, is_char(c))
}

pub fn strip_trailing(s: &str, c: char) -> (r: String)
    ensures
        r@ == without_trailing(s@, c),
{
    let a: Vec<char> = chars_of(s);
    let ghost is_c = is_char(c);
    let mut j: usize = a.len();
    assert(s@.take(j as int) =~= s@);
    while j > 0 && a[j - 1] == c
        invariant
            a@ == s@,
            j <= a.len(),
            is_c == is_char(c),
            skip_back(s@, is_c) == skip_back(s@.take(j as int), is_c),
        decreases j,
    {
        proof {
            assert(s@.take(j as int).last() == s@[j - 1]);
            assert(s@.take(j as int).drop_last() =~= s@.take(j - 1));
        }
        j -= 1;
    }
    proof {
        if j > 0 {
            assert(s@.take(j as int).last() == s@[j - 1]);
        }
    }
    let t: Vec<char> = slice_of(a.as_slice(), 0, j);
    assert(t@ =~= s@.take(j as int));
    string_of(t.as_slice())
}

/// The pieces of a string between the occurrences of `sep`.
pub open spec fn split_on(s: Seq<char>, sep: char) -> Seq<Seq<char>>
    decreases s.len(),
{
    if s.len() == 0 {
        seq![Seq::<char>::empty()]
    } else {
        let rest = split_on(s.drop_last(), sep);
        if s.last() == sep {
            rest.push(Seq::<char>::empty())
        } else {
            rest.update(rest.len() - 1, rest.last().push(s.last()))
        }
    }
}

/// The views of a list of strings.
pub open spec fn views(v: Seq<String>) -> Seq<Seq<char>> {
    v.map_values(|s: String| s@)
}

pub proof fn lemma_split_nonempty(s: Seq<char>, sep: char)
    ensures
        split_on(s, sep).len() >= 1,
    decreases s.len(),
{
    if s.len() > 0 {
        lemma_split_nonempty(s.drop_last(), sep);
    }
}

pub fn split(s: &str, sep: char) -> (r: Vec<String>)
    ensures
        views(r@) == split_on(s@, sep),
{
    let a: Vec<char> = chars_of(s);
    let mut done: Vec<String> = Vec::new();
    let mut cur: String = String::new();
    let mut i: usize = 0;
    while i < a.len()
        invariant
            a@ == s@,
            i <= a.len(),
            views(done@).push(cur@) == split_on(s@.take(i as int), sep),
        decreases a.len() - i,
    {
        proof {
            let t = s@.take(i as int + 1);
            assert(t.drop_last() =~= s@.take(i as int));
            assert(t.last() == s@[i as int]);
        }
        let ghost before = views(done@).push(cur@);
        if a[i] == sep {
            let ghost d0 = done@;
            done.push(cur);
            cur = String::new();
            assert(views(done@).push(cur@) =~= before.push(Seq::<char>::empty()));
        } else {
            let ghost c0 = cur@;
            cur.push(a[i]);
            assert(before.last() == c0);
            assert(views(done@).push(cur@) =~= before.update(before.len() - 1, c0.push(a@[i as int])));
        }
        i += 1;
    }
    assert(s@.take(a@.len() as int) =~= s@);
    let ghost d1 = done@;
    let ghost c1 = cur@;
    done.push(cur);
    assert(views(done@) =~= views(d1).push(c1));
    done
}

/// The pieces of `s` between the places where `pat` stands, from the left.
pub open spec fn split_by(s: Seq<char>, pat: Seq<char>) -> Seq<Seq<char>>
    decreases s.len(),
{
    if pat.len() == 0 {
        seq![s]
    } else {
        match find_from(s, pat, 0) {
            Some(i) => if 0 <= i && i + pat.len() <= s.len() {
                seq![s.take(i)] + split_by(s.skip(i + pat.len()), pat)
            } else {
                seq![s]
            },
            None => seq![s],
        }
    }
}

/// Whether `x` is one of the pieces of `s` between the places of `pat`.
pub fn is_piece(s: &str, pat: &str, x: &str) -> (r: bool)
    requires
        pat@.len() > 0,
    ensures
        r == split_by(s@, pat@).contains(x@),
{
    let p: Vec<char> = chars_of(pat);
    let xs: Vec<char> = chars_of(x);
    let mut rest: Vec<char> = chars_of(s);
    loop
        invariant
            p@ == pat@,
            xs@ == x@,
            pat@.len() > 0,
            split_by(s@, pat@).contains(x@) == split_by(rest@, pat@).contains(x@),
        decreases rest@.len(),
    {
        match search(rest.as_slice(), p.as_slice(), 0) {
            Some(i) => {
                proof {
                    lemma_find_from(rest@, pat@, 0);
                }
                let head: Vec<char> = slice_of(rest.as_slice(), 0, i);
                assert(head@ =~= rest@.take(i as int));
                assert(i + p.len() <= rest.len());
                let tail: Vec<char> = slice_of(rest.as_slice(), i + p.len(), rest.len());
                assert(tail@ =~= rest@.skip(i + pat@.len()));
                let ghost pieces = split_by(tail@, pat@);
                proof {
                    let all = split_by(rest@, pat@);
                    assert(all == seq![head@] + pieces);
                    assert(all[0] == head@);
                    if pieces.contains(x@) {
                        let k = choose|k: int| 0 <= k < pieces.len() && pieces[k] == x@;
                        assert(all[k + 1] == x@);
                    }
                    if all.contains(x@) {
                        let k = choose|k: int| 0 <= k < all.len() && all[k] == x@;
                        if k > 0 {
                            assert(pieces[k - 1] == x@);
                        }
                    }
                }
                if same_chars(head.as_slice(), xs.as_slice()) {
                    return true;
                }
                rest = tail;
            },
            None => {
                let all: bool = same_chars(rest.as_slice(), xs.as_slice());
                assert(split_by(rest@, pat@) =~= seq![rest@]);
                assert(split_by(rest@, pat@)[0] == rest@);
                return all;
            },
        }
    }
}

fn same_chars(a: &[char], b: &[char]) -> (r: bool)
    ensures
        r == (a@ == b@),
{
    if a.len() != b.len() {
        return false;
    }
    let mut i: usize = 0;
    while i < a.len()
        invariant
            i <= a.len(),
            a@.len() == b@.len(),
            forall|j: int| 0 <= j < i ==> a@[j] == b@[j],
        decreases a.len() - i,
    {
        if a[i] != b[i] {
            return false;
        }
        i += 1;
    }
    assert(a@ =~= b@);
    true
}

/// Whether a string stands in a list.
pub open spec fn listed(v: Seq<String>, s: Seq<char>) -> bool {
    exists|i: int| 0 <= i < v.len() && (#[trigger] v[i])@ == s
}

pub fn list_contains(v: &Vec<String>, s: &str) -> (r: bool)
    ensures
        r == listed(v@, s@),
{
    let mut i: usize = 0;
    while i < v.len()
        invariant
            i <= v.len(),
            forall|j: int| 0 <= j < i ==> (#[trigger] v@[j])@ != s@,
        decreases v.len() - i,
    {
        if same(v[i].as_str(), s) {
            return true;
        }
        i += 1;
    }
    false
}

/// A copy of a list of strings.
pub fn copy_list(v: &Vec<String>) -> (r: Vec<String>)
    ensures
        r@ == v@,
{
    let mut r: Vec<String> = Vec::new();
    let mut i: usize = 0;
    while i < v.len()
        invariant
            i <= v.len(),
            r@ == v@.take(i as int),
        decreases v.len() - i,
    {
        r.push(v[i].clone());
        i += 1;
    }
    r
}

/// The strings with `sep` between each two.
pub open spec fn join_with(parts: Seq<Seq<char>>, sep: Seq<char>) -> Seq<char>
    decreases parts.len(),
{
    if parts.len() == 0 {
        Seq::empty()
    } else if parts.len() == 1 {
        parts[0]
    } else {
        join_with(parts.drop_last(), sep) + sep + parts.last()
    }
}

pub fn join(parts: &Vec<String>, sep: &str) -> (r: String)
    ensures
        r@ == join_with(views(parts@), sep@),
{
    let mut r: String = String::new();
    let mut i: usize = 0;
    while i < parts.len()
        invariant
            i <= parts.len(),
            r@ == join_with(views(parts@).take(i as int), sep@),
        decreases parts.len() - i,
    {
        proof {
            let t = views(parts@).take(i as int + 1);
            assert(t.drop_last() =~= views(parts@).take(i as int));
            assert(t.last() == parts@[i as int]@);
        }
        if i > 0 {
            r.append(sep);
        }
        r.append(parts[i].as_str());
        assert(r@ =~= join_with(views(parts@).take(i as int + 1), sep@));
        i += 1;
    }
    assert(views(parts@).take(parts@.len() as int) =~= views(parts@));
    r
}

proof fn lemma_skip_front_len(s: Seq<char>, drop: spec_fn(char) -> bool)
    ensures
        skip_front(s, drop).len() <= s.len(),
        skip_front(s, drop) == s.skip(s.len() - skip_front(s, drop).len()),
        skip_front(s, drop).len() > 0 ==> !drop(skip_front(s, drop)[0]),
    decreases s.len(),
{
    if s.len() > 0 && drop(s[0]) {
        lemma_skip_front_len(s.skip(1), drop);
        assert(skip_front(s, drop) =~= s.skip(s.len() - skip_front(s, drop).len()));
    } else {
        assert(s.skip(0) =~= s);
    }
}

/// The words of a string: the runs of characters that are not white space.
pub open spec fn words(s: Seq<char>) -> Seq<Seq<char>>
    decreases s.len(),
    via words_decreases
{
    let t = skip_front(s, |c: char| is_white(c));
    if t.len() == 0 {
        Seq::empty()
    } else {
        seq![take_front(t, |c: char| !is_white(c))] + words(skip_front(t, |c: char| !is_white(c)))
    }
}

#[via_fn]
proof fn words_decreases(s: Seq<char>) {
    let t = skip_front(s, |c: char| is_white(c));
    lemma_skip_front_len(s, |c: char| is_white(c));
    if t.len() > 0 {
        assert(!is_white(t[0]));
        assert(skip_front(t, |c: char| !is_white(c)) == skip_front(
            t.skip(1),
            |c: char| !is_white(c),
        ));
        lemma_skip_front_len(t.skip(1), |c: char| !is_white(c));
    }
}

pub fn not_white(c: char) -> (r: bool)
    ensures
        r == !is_white(c),
{
    !white(c)
}

pub fn split_words(s: &str) -> (r: Vec<String>)
    ensures
        views(r@) == words(s@),
{
    let a: Vec<char> = chars_of(s);
    let mut r: Vec<String> = Vec::new();
    let mut i: usize = 0;
    assert(s@.skip(0) =~= s@);
    assert(views(r@) + words(s@) =~= words(s@));
    loop
        invariant
            a@ == s@,
            i <= a.len(),
            views(r@) + words(s@.skip(i as int)) == words(s@),
        decreases a.len() - i,
    {
        let ghost rest = s@.skip(i as int);
        let from: usize = run_end(a.as_slice(), i, white, Ghost(|c: char| is_white(c)));
        if from >= a.len() {
            assert(words(rest) =~= Seq::<Seq<char>>::empty());
            assert(views(r@) + words(rest) =~= views(r@));
            return r;
        }
        let end: usize = run_end(a.as_slice(), from, not_white, Ghost(|c: char| !is_white(c)));
        let w: Vec<char> = slice_of(a.as_slice(), from, end);
        proof {
            lemma_skip_front_len(rest, |c: char| is_white(c));
            assert(s@.skip(from as int).len() > 0);
            assert(s@.skip(from as int)[0] == s@[from as int]);
            if end == from {
                assert(skip_front(s@.skip(from as int), |c: char| !is_white(c)) == s@.skip(
                    from as int,
                ));
                lemma_skip_front_len(s@.skip(from as int), |c: char| !is_white(c));
            }
        }
        let ghost r0 = r@;
        r.push(string_of(w.as_slice()));
        assert(views(r@) =~= views(r0).push(w@));
        assert(words(rest) == seq![w@] + words(s@.skip(end as int)));
        assert(views(r@) + words(s@.skip(end as int)) =~= views(r0) + words(rest));
        i = end;
    }
}

/// The words of a string with one space between each two.
pub open spec fn squeezed(s: Seq<char>) -> Seq<char> {
    join_with(words(s), " "@)
}

pub fn squeeze(s: &str) -> (r: String)
    ensures
        r@ == squeezed(s@),
{
    let w: Vec<String> = split_words(s);
    join(&w, " ")
}

/// Every occurrence of `pat`, from the left and without overlap, replaced.
pub open spec fn replaced(s: Seq<char>, pat: Seq<char>, with: Seq<char>) -> Seq<char>
    decreases s.len(),
{
    if pat.len() == 0 || s.len() == 0 {
        s
    } else if occurs_at(s, pat, 0) {
        with + replaced(s.skip(pat.len() as int), pat, with)
    } else {
        seq![s[0]] + replaced(s.skip(1), pat, with)
    }
}

/// Replaces every occurrence of a non-empty pattern.
pub fn replace(s: &str, pat: &str, with: &str) -> (r: String)
    requires
        pat@.len() > 0,
    ensures
        r@ == replaced(s@, pat@, with@),
{
    let a: Vec<char> = chars_of(s);
    let p: Vec<char> = chars_of(pat);
    let mut r: String = String::new();
    assert(s@.skip(0) =~= s@);
    assert(r@ + replaced(s@, pat@, with@) =~= replaced(s@, pat@, with@));
    let mut i: usize = 0;
    while i < a.len()
        invariant
            a@ == s@,
            p@ == pat@,
            p@.len() > 0,
            i <= a.len(),
            r@ + replaced(s@.skip(i as int), pat@, with@) == replaced(s@, pat@, with@),
        decreases a.len() - i,
    {
        let ghost rest = s@.skip(i as int);
        let ghost r0 = r@;
        if match_at(a.as_slice(), p.as_slice(), i) {
            assert(rest.subrange(0, pat@.len() as int) =~= s@.subrange(i as int, i + pat@.len()));
            assert(occurs_at(rest, pat@, 0));
            r.append(with);
            assert(rest.skip(pat@.len() as int) =~= s@.skip(i + pat@.len()));
            assert(r@ + replaced(s@.skip(i + pat@.len()), pat@, with@) =~= r0 + (with@ + replaced(
                rest.skip(pat@.len() as int),
                pat@,
                with@,
            )));
            i += p.len();
        } else {
            proof {
                if occurs_at(rest, pat@, 0) {
                    assert(rest.subrange(0, pat@.len() as int) =~= s@.subrange(
                        i as int,
                        i + pat@.len(),
                    ));
                }
            }
            r.push(a[i]);
            assert(rest.skip(1) =~= s@.skip(i + 1));
            assert(rest[0] == s@[i as int]);
            assert(r@ + replaced(s@.skip(i + 1), pat@, with@) =~= r0 + (seq![rest[0]] + replaced(
                rest.skip(1),
                pat@,
                with@,
            )));
            i += 1;
        }
    }
    assert(s@.skip(a@.len() as int) =~= Seq::<char>::empty());
    assert(r@ =~= r@ + replaced(Seq::<char>::empty(), pat@, with@));
    r
}

// ---------------------------------------------------------------------------
// Numbers

pub open spec fn digit_char(d: int) -> char {
    if 0 <= d < 10 {
        (('0' as u8) + d) as char
    } else {
        '0'
    }
}

/// A number in decimal, without leading zeros.
pub open spec fn decimal(n: nat) -> Seq<char>
    decreases n,
{
    if n < 10 {
        seq![digit_char(n as int)]
    } else {
        decimal(n / 10).push(digit_char((n % 10) as int))
    }
}

fn digit(d: u64) -> (r: char)
    requires
        d < 10,
    ensures
        r == digit_char(d as int),
{
    (48u8 + (d as u8)) as char
}

pub fn number(n: u64) -> (r: String)
    ensures
        r@ == decimal(n as nat),
    decreases n,
{
    if n < 10 {
        let mut r: String = String::new();
        r.push(digit(n));
        assert(r@ =~= decimal(n as nat));
        r
    } else {
        let mut r: String = number(n / 10);
        r.push(digit(n % 10));
        r
    }
}

/// A number of any length in decimal.
pub fn long_number(n: u128) -> (r: String)
    ensures
        r@ == decimal(n as nat),
    decreases n,
{
    if n <= u64::MAX as u128 {
        number(n as u64)
    } else {
        let mut r: String = long_number(n / 10);
        r.push(digit((n % 10) as u64));
        r
    }
}

/// The digits of a number have its value.
pub proof fn lemma_decimal_value(n: nat)
    ensures
        digits_value(decimal(n)) == n,
        all_digits(decimal(n)),
        decimal(n).len() > 0,
    decreases n,
{
    if n < 10 {
        let d = decimal(n);
        assert(d.drop_last() =~= Seq::<char>::empty());
        assert(digits_value(d.drop_last()) == 0);
        assert(d.last() == digit_char(n as int));
    } else {
        lemma_decimal_value(n / 10);
        let d = decimal(n);
        assert(d.drop_last() =~= decimal(n / 10));
        assert(d.last() == digit_char((n % 10) as int));
        assert forall|i: int| 0 <= i < d.len() implies is_digit(#[trigger] d[i]) by {
            if i < d.len() - 1 {
                assert(d[i] == decimal(n / 10)[i]);
            }
        }
    }
}

/// Different numbers have different digits.
pub proof fn lemma_decimal_injective(a: nat, b: nat)
    requires
        decimal(a) == decimal(b),
    ensures
        a == b,
{
    lemma_decimal_value(a);
    lemma_decimal_value(b);
}

/// What a number is printed as is read back as the number.
pub proof fn law_number_round_trip(n: u64)
    ensures
        parsed_u64(decimal(n as nat)) == Some(n),
{
    lemma_decimal_value(n as nat);
    let d = decimal(n as nat);
    assert(is_digit(d[0]));
}

/// A number in decimal with zeros in front up to `width` digits.
pub open spec fn padded(n: nat, width: nat) -> Seq<char> {
    let d = decimal(n);
    if d.len() >= width {
        d
    } else {
        Seq::new((width - d.len()) as nat, |i: int| '0') + d
    }
}

/// The two last decimal digits of a number below one hundred.
pub fn two_digits(n: u64) -> (r: String)
    requires
        n < 100,
    ensures
        r@ == padded(n as nat, 2),
{
    let mut r: String = String::new();
    r.push(digit(n / 10));
    r.push(digit(n % 10));
    proof {
        if n < 10 {
            assert(decimal(n as nat) =~= seq![digit_char(n as int)]);
            assert(r@ =~= padded(n as nat, 2));
        } else {
            assert(decimal((n / 10) as nat) =~= seq![digit_char((n / 10) as int)]);
            assert(r@ =~= decimal(n as nat));
        }
    }
    r
}

/// An integer in decimal, with a minus sign where it is negative.
pub open spec fn signed_decimal(n: int) -> Seq<char> {
    if n < 0 {
        seq!['-'] + decimal((-n) as nat)
    } else {
        decimal(n as nat)
    }
}

pub fn signed_number(n: i64) -> (r: String)
    requires
        n > i64::MIN,
    ensures
        r@ == signed_decimal(n as int),
{
    if n < 0 {
        let mut r: String = String::new();
        r.push('-');
        let d: String = number((-n) as u64);
        r.append(d.as_str());
        assert(r@ =~= seq!['-'] + decimal((-n) as nat));
        r
    } else {
        number(n as u64)
    }
}

pub open spec fn hex_char(d: int, upper: bool) -> char {
    if 0 <= d < 10 {
        (('0' as u8) + d) as char
    } else if 10 <= d < 16 {
        ((if upper { 'A' as u8 } else { 'a' as u8 }) + (d - 10)) as char
    } else {
        '0'
    }
}

/// The hexadecimal digits of a number, at least `width` of them.
pub open spec fn hex(n: nat, width: nat, upper: bool) -> Seq<char>
    decreases n + width,
{
    if n == 0 && width == 0 {
        Seq::empty()
    } else {
        hex(
            n / 16,
            if width > 0 {
                (width - 1) as nat
            } else {
                0
            },
            upper,
        ).push(hex_char((n % 16) as int, upper))
    }
}

fn hex_digit(d: u64, upper: bool) -> (r: char)
    requires
        d < 16,
    ensures
        r == hex_char(d as int, upper),
{
    if d < 10 {
        (48u8 + (d as u8)) as char
    } else if upper {
        (65u8 + ((d - 10) as u8)) as char
    } else {
        (97u8 + ((d - 10) as u8)) as char
    }
}

pub fn hex_number(n: u64, width: u64, upper: bool) -> (r: String)
    ensures
        r@ == hex(n as nat, width as nat, upper),
    decreases n + width,
{
    if n == 0 && width == 0 {
        String::new()
    } else {
        let rest: u64 = if width > 0 {
            width - 1
        } else {
            0
        };
        let mut r: String = hex_number(n / 16, rest, upper);
        r.push(hex_digit(n % 16, upper));
        r
    }
}

/// A number below the `width`-th power of sixteen takes `width` digits.
pub proof fn lemma_hex_len(n: nat, width: nat, bound: nat, upper: bool)
    requires
        n < bound,
        bound == sixteen_to(width),
    ensures
        hex(n, width, upper).len() == width,
    decreases width,
{
    if width > 0 {
        lemma_hex_len(n / 16, (width - 1) as nat, sixteen_to((width - 1) as nat), upper);
    }
}

pub open spec fn sixteen_to(n: nat) -> nat
    decreases n,
{
    if n == 0 {
        1
    } else {
        16 * sixteen_to((n - 1) as nat)
    }
}

/// The value of a run of decimal digits.
pub open spec fn digits_value(s: Seq<char>) -> nat
    decreases s.len(),
{
    if s.len() == 0 {
        0
    } else {
        digits_value(s.drop_last()) * 10 + ((s.last() as u32 - '0' as u32) as nat)
    }
}

pub open spec fn all_digits(s: Seq<char>) -> bool {
    forall|i: int| 0 <= i < s.len() ==> is_digit(#[trigger] s[i])
}

/// A string read as an unsigned number of 64 bits: decimal digits, at least
/// one, with at most one plus sign in front, of a value that fits.
pub open spec fn parsed_u64(s: Seq<char>) -> Option<u64> {
    let d = if s.len() > 0 && s[0] == '+' {
        s.skip(1)
    } else {
        s
    };
    if d.len() > 0 && all_digits(d) && digits_value(d) <= u64::MAX {
        Some(digits_value(d) as u64)
    } else {
        None
    }
}

proof fn lemma_digits_value_grows(s: Seq<char>, i: int)
    requires
        all_digits(s),
        0 <= i <= s.len(),
    ensures
        digits_value(s.take(i)) <= digits_value(s),
    decreases s.len() - i,
{
    if i < s.len() {
        lemma_digits_value_grows(s, i + 1);
        let t = s.take(i + 1);
        assert(t.drop_last() =~= s.take(i));
        assert(is_digit(s[i]));
        assert(digits_value(t) >= digits_value(s.take(i)));
    } else {
        assert(s.take(i) =~= s);
    }
}

pub fn parse_u64(s: &str) -> (r: Option<u64>)
    ensures
        r == parsed_u64(s@),
{
    let a: Vec<char> = chars_of(s);
    let start: usize = if a.len() > 0 && a[0] == '+' {
        1
    } else {
        0
    };
    let ghost d = if start == 1 { s@.skip(1) } else { s@ };
    if start >= a.len() {
        assert(d.len() == 0);
        return None;
    }
    let mut v: u64 = 0;
    let mut i: usize = start;
    while i < a.len()
        invariant
            a@ == s@,
            start <= 1,
            start <= i <= a.len(),
            d == (if start == 1 { s@.skip(1) } else { s@ }),
            start == 1 <==> (s@.len() > 0 && s@[0] == '+'),
            forall|j: int| 0 <= j < i - start ==> is_digit(#[trigger] d[j]),
            v == digits_value(d.take(i - start)),
        decreases a.len() - i,
    {
        let c: char = a[i];
        assert(d[i - start] == c);
        if !('0' <= c && c <= '9') {
            return None;
        }
        let x: u64 = (c as u32 - '0' as u32) as u64;
        proof {
            assert(d.take(i - start + 1).drop_last() =~= d.take(i - start));
            assert(d.take(i - start + 1).last() == c);
        }
        if v > (u64::MAX - x) / 10 {
            proof {
                if all_digits(d) {
                    lemma_digits_value_grows(d, i - start + 1);
                }
            }
            return None;
        }
        v = v * 10 + x;
        i += 1;
    }
    assert(d.take(d.len() as int) =~= d);
    Some(v)
}

/// A string read as an unsigned number of 32 bits.
pub open spec fn parsed_u32(s: Seq<char>) -> Option<u32> {
    match parsed_u64(s) {
        Some(n) => if n <= u32::MAX {
            Some(n as u32)
        } else {
            None
        },
        None => None,
    }
}

pub fn parse_u32(s: &str) -> (r: Option<u32>)
    ensures
        r == parsed_u32(s@),
{
    match parse_u64(s) {
        Some(n) => if n <= u32::MAX as u64 {
            Some(n as u32)
        } else {
            None
        },
        None => None,
    }
}

// ---------------------------------------------------------------------------
// Order

/// Alphabetical order by code point; a proper prefix comes first. It is the
/// byte order of the UTF-8 encodings.
pub open spec fn before(a: Seq<char>, b: Seq<char>) -> bool
    decreases a.len(),
{
    if b.len() == 0 {
        false
    } else if a.len() == 0 {
        true
    } else if a[0] != b[0] {
        a[0] < b[0]
    } else {
        before(a.skip(1), b.skip(1))
    }
}

/// The order is strict, total and transitive.
pub proof fn lemma_before_total(a: Seq<char>, b: Seq<char>)
    ensures
        !(before(a, b) && before(b, a)),
        before(a, b) || before(b, a) || a == b,
        a == b ==> !before(a, b),
    decreases a.len(),
{
    if a.len() > 0 && b.len() > 0 && a[0] == b[0] {
        lemma_before_total(a.skip(1), b.skip(1));
        if a.skip(1) == b.skip(1) {
            assert(a =~= seq![a[0]] + a.skip(1));
            assert(b =~= seq![b[0]] + b.skip(1));
            assert(a =~= b);
        }
    } else if a.len() == 0 && b.len() == 0 {
        assert(a =~= b);
    }
}

pub proof fn lemma_before_transitive(a: Seq<char>, b: Seq<char>, c: Seq<char>)
    requires
        before(a, b),
        before(b, c),
    ensures
        before(a, c),
    decreases a.len(),
{
    if a.len() > 0 && a[0] == b[0] && b[0] == c[0] {
        lemma_before_transitive(a.skip(1), b.skip(1), c.skip(1));
    }
}

pub fn precedes(a: &str, b: &str) -> (r: bool)
    ensures
        r == before(a@, b@),
{
    let x: Vec<char> = chars_of(a);
    let y: Vec<char> = chars_of(b);
    let mut i: usize = 0;
    assert(a@.skip(0) =~= a@);
    assert(b@.skip(0) =~= b@);
    loop
        invariant
            x@ == a@,
            y@ == b@,
            i <= x.len(),
            i <= y.len(),
            before(a@, b@) == before(a@.skip(i as int), b@.skip(i as int)),
        decreases x.len() - i,
    {
        if i >= y.len() {
            return false;
        }
        if i >= x.len() {
            return true;
        }
        assert(a@.skip(i as int)[0] == x@[i as int]);
        assert(b@.skip(i as int)[0] == y@[i as int]);
        if x[i] != y[i] {
            return x[i] < y[i];
        }
        assert(a@.skip(i as int).skip(1) =~= a@.skip(i + 1));
        assert(b@.skip(i as int).skip(1) =~= b@.skip(i + 1));
        i += 1;
    }
}

proof fn lemma_skip_front_drops(s: Seq<char>, drop: spec_fn(char) -> bool)
    ensures
        forall|i: int| 0 <= i < s.len() - skip_front(s, drop).len() ==> drop(#[trigger] s[i]),
    decreases s.len(),
{
    if s.len() > 0 && drop(s[0]) {
        let t = s.skip(1);
        lemma_skip_front_drops(t, drop);
        assert forall|i: int| 0 <= i < s.len() - skip_front(s, drop).len() implies drop(
            #[trigger] s[i],
        ) by {
            if i > 0 {
                assert(t[i - 1] == s[i]);
            }
        }
    }
}

proof fn lemma_skip_back_drops(s: Seq<char>, drop: spec_fn(char) -> bool)
    ensures
        skip_back(s, drop).len() <= s.len(),
        skip_back(s, drop) == s.take(skip_back(s, drop).len() as int),
        skip_back(s, drop).len() > 0 ==> !drop(skip_back(s, drop).last()),
        forall|i: int| skip_back(s, drop).len() <= i < s.len() ==> drop(#[trigger] s[i]),
    decreases s.len(),
{
    if s.len() > 0 && drop(s.last()) {
        let t = s.drop_last();
        lemma_skip_back_drops(t, drop);
        let n = skip_back(t, drop).len() as int;
        assert(t.take(n) =~= s.take(n));
        assert forall|i: int| n <= i < s.len() implies drop(#[trigger] s[i]) by {
            if i < s.len() - 1 {
                assert(t[i] == s[i]);
            }
        }
    } else {
        assert(s.take(s.len() as int) =~= s);
    }
}

/// What trimming leaves is a part of the text that begins and ends with no white
/// space, and what it drops on either side is nothing else.
pub proof fn law_trimming_drops_white_space_alone(s: Seq<char>) -> (r: int)
    ensures
        ({
            let t = trimmed(s);
            &&& 0 <= r && r + t.len() <= s.len()
            &&& t == s.subrange(r, r + t.len())
            &&& t.len() > 0 ==> !is_white(t[0]) && !is_white(t.last())
            &&& forall|i: int| 0 <= i < r ==> is_white(#[trigger] s[i])
            &&& forall|i: int| r + t.len() <= i < s.len() ==> is_white(#[trigger] s[i])
        }),
{
    let f = |c: char| is_white(c);
    let a = skip_front(s, f);
    lemma_skip_front_len(s, f);
    lemma_skip_front_drops(s, f);
    lemma_skip_back_drops(a, f);
    let r = s.len() - a.len();
    let t = trimmed(s);
    assert(t =~= s.subrange(r, r + t.len()));
    assert forall|i: int| 0 <= i < r implies is_white(#[trigger] s[i]) by {
        assert(f(s[i]));
    }
    assert forall|i: int| r + t.len() <= i < s.len() implies is_white(#[trigger] s[i]) by {
        assert(a[i - r] == s[i]);
        assert(f(a[i - r]));
    }
    if t.len() > 0 {
        assert(t[0] == a[0]);
        assert(!f(a[0]));
        assert(!f(t.last()));
    }
    r
}

/// The pieces between separators hold none, and with the separators between them
/// again they are the text.
pub proof fn law_pieces_make_the_text(s: Seq<char>, sep: char)
    ensures
        join_with(split_on(s, sep), seq![sep]) == s,
        split_on(s, sep).len() > 0,
        forall|i: int| 0 <= i < split_on(s, sep).len() ==> !(#[trigger] split_on(s, sep)[i]).contains(sep),
    decreases s.len(),
{
    let p = split_on(s, sep);
    if s.len() == 0 {
        assert(join_with(p, seq![sep]) =~= s);
    } else {
        let d = s.drop_last();
        law_pieces_make_the_text(d, sep);
        let rest = split_on(d, sep);
        assert forall|i: int| 0 <= i < p.len() implies !(#[trigger] p[i]).contains(sep) by {
            if s.last() == sep {
                if i < rest.len() {
                    assert(p[i] == rest[i]);
                }
            } else if i < rest.len() - 1 {
                assert(p[i] == rest[i]);
            } else {
                let l = rest[rest.len() - 1];
                assert(p[i] == l.push(s.last()));
                if p[i].contains(sep) {
                    let k = choose|k: int| 0 <= k < p[i].len() && p[i][k] == sep;
                    assert(l[k] == sep);
                }
            }
        }
        if s.last() == sep {
            assert(p.drop_last() =~= rest);
            assert(join_with(p, seq![sep]) =~= d + seq![sep]);
        } else {
            let l = rest.last();
            assert(p.drop_last() =~= rest.drop_last());
            assert(p.last() == l.push(s.last()));
            if rest.len() == 1 {
                assert(join_with(p, seq![sep]) =~= d.push(s.last()));
            } else {
                assert(join_with(p, seq![sep]) =~= join_with(rest.drop_last(), seq![sep]) + seq![sep]
                    + l.push(s.last()));
                assert(join_with(p, seq![sep]) =~= d.push(s.last()));
            }
        }
        assert(s =~= d.push(s.last()));
    }
}

/// Lower case changes the capitals of ASCII alone, to the letters thirty-two places
/// on; it changes nothing twice, and upper case takes a small letter back to it.
pub proof fn law_case_is_of_letters(s: Seq<char>, i: int)
    requires
        0 <= i < s.len(),
    ensures
        lower(s).len() == s.len() && upper(s).len() == s.len(),
        'A' <= s[i] <= 'Z' ==> lower(s)[i] as u32 == s[i] as u32 + 32 && 'a' <= lower(s)[i] <= 'z',
        !('A' <= s[i] <= 'Z') ==> lower(s)[i] == s[i],
        'a' <= s[i] <= 'z' ==> upper(s)[i] as u32 == s[i] as u32 - 32 && 'A' <= upper(s)[i] <= 'Z',
        !('a' <= s[i] <= 'z') ==> upper(s)[i] == s[i],
{
}

/// A negative number is written with a sign in front of what the positive one is
/// written as.
pub proof fn law_sign_is_in_front(n: int)
    requires
        n > 0,
    ensures
        signed_decimal(-n) == seq!['-'] + signed_decimal(n),
        signed_decimal(n) == decimal(n as nat),
        signed_decimal(n)[0] != '-',
{
    lemma_decimal_value(n as nat);
    assert(is_digit(decimal(n as nat)[0]));
}

/// Zeros in front make a number as wide as asked for, and do not change its value.
pub proof fn law_padding_keeps_the_value(n: nat, width: nat)
    ensures
        padded(n, width).len() >= width,
        padded(n, width).len() == width || padded(n, width) == decimal(n),
        digits_value(padded(n, width)) == n,
{
    lemma_decimal_value(n);
    let d = decimal(n);
    if d.len() < width {
        let z = Seq::new((width - d.len()) as nat, |i: int| '0');
        lemma_zeros_in_front(z, d);
    }
}

proof fn lemma_zeros_in_front(z: Seq<char>, d: Seq<char>)
    requires
        forall|i: int| 0 <= i < z.len() ==> #[trigger] z[i] == '0',
    ensures
        digits_value(z + d) == digits_value(d),
    decreases z.len() + d.len(),
{
    if d.len() > 0 {
        assert((z + d).drop_last() =~= z + d.drop_last());
        assert((z + d).last() == d.last());
        lemma_zeros_in_front(z, d.drop_last());
    } else if z.len() > 0 {
        assert(z + d =~= z);
        assert(z[z.len() - 1] == '0');
        let e = z.drop_last();
        assert forall|i: int| 0 <= i < e.len() implies #[trigger] e[i] == '0' by {
            assert(e[i] == z[i]);
        }
        lemma_zeros_in_front(e, d);
        assert(e + d =~= e);
    } else {
        assert(z + d =~= d);
    }
}

/// A number taken apart at a place.
pub proof fn lemma_quotient(high: int, low: int, place: int)
    requires
        0 <= low < place,
    ensures
        (high * place + low) / place == high,
        (high * place + low) % place == low,
{
    vstd::arithmetic::div_mod::lemma_fundamental_div_mod_converse(
        high * place + low,
        place,
        high,
        low,
    );
}

/// Words are not empty and hold no white space, and the first of them stands at the
/// beginning of what trimming leaves.
pub proof fn law_words_hold_no_white_space(s: Seq<char>)
    ensures
        forall|i: int| 0 <= i < words(s).len() ==> (#[trigger] words(s)[i]).len() > 0,
        forall|i: int, k: int|
            0 <= i < words(s).len() && 0 <= k < words(s)[i].len() ==> !is_white(
                #[trigger] words(s)[i][k],
            ),
        words(s).len() == 0 <==> forall|i: int| 0 <= i < s.len() ==> is_white(#[trigger] s[i]),
    decreases s.len(),
{
    let white = |c: char| is_white(c);
    let black = |c: char| !is_white(c);
    let t = skip_front(s, white);
    lemma_skip_front_len(s, white);
    lemma_skip_front_drops(s, white);
    let w = words(s);
    if t.len() > 0 {
        let rest = skip_front(t, black);
        lemma_skip_front_len(t, black);
        lemma_skip_front_drops(t, black);
        assert(!white(t[0]));
        if rest.len() == t.len() {
            assert(rest == t.skip(0));
            assert(!black(rest[0]));
        }
        let first = take_front(t, black);
        assert(w == seq![first] + words(rest));
        law_words_hold_no_white_space(rest);
        assert forall|i: int| 0 <= i < w.len() implies (#[trigger] w[i]).len() > 0 by {
            if i > 0 {
                assert(w[i] == words(rest)[i - 1]);
            }
        }
        assert forall|i: int, k: int| 0 <= i < w.len() && 0 <= k < w[i].len() implies !is_white(
            #[trigger] w[i][k],
        ) by {
            if i > 0 {
                assert(w[i] == words(rest)[i - 1]);
                assert(!is_white(words(rest)[i - 1][k]));
            } else {
                assert(w[0][k] == t[k]);
                assert(black(t[k]));
            }
        }
        let at = s.len() - t.len();
        assert(s[at] == t[0]);
        assert(!is_white(s[at]));
    } else {
        assert forall|i: int| 0 <= i < s.len() implies is_white(#[trigger] s[i]) by {
            assert(white(s[i]));
        }
    }
}

} // verus!
