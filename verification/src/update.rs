//! The check for a newer release: reading the answer of the release server and
//! telling the user what was found.

use crate::i18n::{self, Translator};
use crate::text;
use crate::util;
use vstd::prelude::*;

verus! {

pub const RELEASES_URL: &'static str = "https://github.com/mgvs/winstats/releases/latest";

pub const API_URL: &'static str = "https://api.github.com/repos/mgvs/winstats/releases/latest";

/// An answer longer than this is not read further.
pub const ENOUGH: usize = 0x10_0000;

/// Whether enough of an answer was read.
pub fn is_enough(len: usize) -> (r: bool)
    ensures
        r == (len > ENOUGH),
{
    len > ENOUGH
}

/// The text of an answer.
pub fn response_text(body: &[u8]) -> (r: String)
    ensures
        r@ == util::utf8_lossy(body@),
{
    util::from_utf8(body)
}

/// The outcome of the last check, taken once.
pub fn take_result(slot: &mut Option<Result<String, String>>) -> (r: Option<Result<String, String>>)
    ensures
        r == *old(slot),
        final(slot).is_none(),
{
    slot.take()
}

// ---------------------------------------------------------------------------
// The answer

pub open spec fn quoted(key: Seq<char>) -> Seq<char> {
    seq!['"'] + key + seq!['"']
}

/// Without the white space in front.
pub open spec fn left_trimmed(s: Seq<char>) -> Seq<char> {
    text::skip_front(s, |c: char| text::is_white(c))
}

/// The string behind a key of a JSON document that was found before `rest`: a
/// colon and a string follow, with white space in front of each.
pub open spec fn string_behind(rest: Seq<char>) -> Option<Seq<char>> {
    let a = left_trimmed(rest);
    if a.len() == 0 || a[0] != ':' {
        None
    } else {
        let b = left_trimmed(a.skip(1));
        if b.len() == 0 || b[0] != '"' {
            None
        } else {
            let c = b.skip(1);
            match text::find_from(c, seq!['"'], 0) {
                Some(end) => Some(c.take(end)),
                None => None,
            }
        }
    }
}

/// At position `i` the key stands in quotes, with a colon and a string behind.
pub open spec fn pair_at(json: Seq<char>, key: Seq<char>, i: int) -> bool {
    &&& text::occurs_at(json, quoted(key), i)
    &&& string_behind(json.skip(i + quoted(key).len())).is_some()
}

/// The value of the first `"key":"..."` pair that starts at `from` or later.
pub open spec fn string_from(json: Seq<char>, key: Seq<char>, from: int) -> Option<Seq<char>>
    decreases json.len() - from,
{
    if from < 0 || from >= json.len() {
        None
    } else if pair_at(json, key, from) {
        string_behind(json.skip(from + quoted(key).len()))
    } else {
        string_from(json, key, from + 1)
    }
}

/// The value of the first `"key":"..."` pair.
pub open spec fn string_of_key(json: Seq<char>, key: Seq<char>) -> Option<Seq<char>> {
    string_from(json, key, 0)
}

proof fn lemma_string_from(json: Seq<char>, key: Seq<char>, from: int)
    requires
        0 <= from,
    ensures
        string_from(json, key, from).is_none() ==> forall|j: int|
            from <= j ==> !#[trigger] pair_at(json, key, j),
        forall|i: int|
            from <= i && #[trigger] pair_at(json, key, i) && (forall|j: int|
                from <= j < i ==> !#[trigger] pair_at(json, key, j)) ==> string_from(json, key, from)
                == string_behind(json.skip(i + quoted(key).len())),
    decreases json.len() - from,
{
    assert forall|j: int| j >= json.len() implies !#[trigger] pair_at(json, key, j) by {}
    if from < json.len() && !pair_at(json, key, from) {
        lemma_string_from(json, key, from + 1);
    }
}

/// The value of a key is the string of its first pair, wherever else the text
/// of the key stands; without a pair there is none.
pub proof fn law_first_pair_counts(json: Seq<char>, key: Seq<char>)
    ensures
        string_of_key(json, key).is_none() == (forall|j: int|
            0 <= j ==> !#[trigger] pair_at(json, key, j)),
        forall|i: int|
            0 <= i && #[trigger] pair_at(json, key, i) && (forall|j: int|
                0 <= j < i ==> !#[trigger] pair_at(json, key, j)) ==> string_of_key(json, key)
                == string_behind(json.skip(i + quoted(key).len())),
{
    lemma_string_from(json, key, 0);
    if forall|j: int| 0 <= j ==> !#[trigger] pair_at(json, key, j) {
        lemma_no_pair(json, key, 0);
    }
}

proof fn lemma_no_pair(json: Seq<char>, key: Seq<char>, from: int)
    requires
        0 <= from,
        forall|j: int| from <= j ==> !#[trigger] pair_at(json, key, j),
    ensures
        string_from(json, key, from).is_none(),
    decreases json.len() - from,
{
    if from < json.len() {
        lemma_no_pair(json, key, from + 1);
    }
}

/// The string behind a key that ends before position `from`.
fn read_behind(a: &Vec<char>, from: usize) -> (r: Option<String>)
    requires
        from <= a@.len(),
    ensures
        match r {
            Some(s) => string_behind(a@.skip(from as int)) == Some(s@),
            None => string_behind(a@.skip(from as int)).is_none(),
        },
{
    let ghost class = |c: char| text::is_white(c);
    let i1: usize = text::run_end(a.as_slice(), from, text::white, Ghost(class));
    if i1 >= a.len() || a[i1] != ':' {
        assert(i1 < a.len() ==> a@.skip(i1 as int)[0] == a@[i1 as int]);
        return None;
    }
    assert(a@.skip(i1 as int)[0] == a@[i1 as int]);
    assert(a@.skip(i1 as int).skip(1) =~= a@.skip(i1 + 1));
    let i2: usize = text::run_end(a.as_slice(), i1 + 1, text::white, Ghost(class));
    if i2 >= a.len() || a[i2] != '"' {
        assert(i2 < a.len() ==> a@.skip(i2 as int)[0] == a@[i2 as int]);
        return None;
    }
    assert(a@.skip(i2 as int)[0] == a@[i2 as int]);
    assert(a@.skip(i2 as int).skip(1) =~= a@.skip(i2 + 1));
    let rest: Vec<char> = text::slice_of(a.as_slice(), i2 + 1, a.len());
    assert(rest@ =~= a@.skip(i2 + 1));
    let mut quote: Vec<char> = Vec::new();
    quote.push('"');
    assert(quote@ =~= seq!['"']);
    match text::search(rest.as_slice(), quote.as_slice(), 0) {
        Some(end) => {
            proof {
                text::lemma_find_from(rest@, seq!['"'], 0);
            }
            let t: Vec<char> = text::slice_of(rest.as_slice(), 0, end);
            assert(t@ =~= rest@.take(end as int));
            Some(text::string_of(t.as_slice()))
        },
        None => None,
    }
}

/// Value of the first `"key":"..."` in a JSON document; enough for the one
/// field that is read.
pub fn json_string(json: &str, key: &str) -> (r: Option<String>)
    ensures
        match r {
            Some(s) => string_of_key(json@, key@) == Some(s@),
            None => string_of_key(json@, key@).is_none(),
        },
{
    let a: Vec<char> = text::chars_of(json);
    let mut needle: Vec<char> = Vec::new();
    needle.push('"');
    let mut k: Vec<char> = text::chars_of(key);
    needle.append(&mut k);
    needle.push('"');
    assert(needle@ =~= quoted(key@));
    let mut i: usize = 0;
    while i < a.len()
        invariant
            a@ == json@,
            needle@ == quoted(key@),
            i <= a.len(),
            string_of_key(json@, key@) == string_from(json@, key@, i as int),
        decreases a.len() - i,
    {
        if text::match_at(a.as_slice(), needle.as_slice(), i) {
            let found: Option<String> = read_behind(&a, i + needle.len());
            if found.is_some() {
                return found;
            }
        }
        i += 1;
    }
    None
}

pub const NO_TAG: &'static str = "no tag_name in the response";

/// The version that an answer names, or why there is none.
pub open spec fn latest(body: Result<String, String>) -> Result<Seq<char>, Seq<char>> {
    match body {
        Ok(b) => match string_of_key(b@, "tag_name"@) {
            Some(t) => Ok(text::without_leading(t, 'v')),
            None => Err(NO_TAG@),
        },
        Err(e) => Err(e@),
    }
}

/// Latest release version ("0.1.5") from the answer of the release server, or
/// from why there was none.
pub fn fetch_latest(body: Result<String, String>) -> (r: Result<String, String>)
    ensures
        match r {
            Ok(v) => latest(body) == Ok::<Seq<char>, Seq<char>>(v@),
            Err(e) => latest(body) == Err::<Seq<char>, Seq<char>>(e@),
        },
{
    match body {
        Ok(b) => match json_string(b.as_str(), "tag_name") {
            Some(t) => Ok(text::strip_leading(t.as_str(), 'v')),
            None => Err(NO_TAG.to_string()),
        },
        Err(e) => Err(e),
    }
}

// ---------------------------------------------------------------------------
// Versions

/// A part of a version: its number, or zero where it is none.
pub open spec fn part_value(p: Seq<char>) -> u64 {
    match text::parsed_u64(text::trimmed(p)) {
        Some(n) => n,
        None => 0,
    }
}

/// A version as its dotted numbers.
pub open spec fn version(s: Seq<char>) -> Seq<u64> {
    text::split_on(s, '.').map_values(|p: Seq<char>| part_value(p))
}

/// A number of a version; those that are not written are zero.
pub open spec fn number_at(v: Seq<u64>, i: int) -> u64 {
    if 0 <= i < v.len() {
        v[i]
    } else {
        0
    }
}

/// Version `a` is higher than `b`: at the first number that differs it has the
/// greater.
pub open spec fn higher(a: Seq<u64>, b: Seq<u64>) -> bool {
    exists|i: int|
        0 <= i && #[trigger] number_at(a, i) > number_at(b, i) && forall|j: int|
            0 <= j < i ==> number_at(a, j) == #[trigger] number_at(b, j)
}

fn parse_version(s: &str) -> (r: Vec<u64>)
    ensures
        r@ == version(s@),
{
    let parts: Vec<String> = text::split(s, '.');
    let ghost v = text::split_on(s@, '.');
    let mut r: Vec<u64> = Vec::new();
    let mut i: usize = 0;
    while i < parts.len()
        invariant
            text::views(parts@) == v,
            v == text::split_on(s@, '.'),
            i <= parts.len(),
            r@ == v.take(i as int).map_values(|p: Seq<char>| part_value(p)),
        decreases parts.len() - i,
    {
        assert(v[i as int] == parts@[i as int]@);
        let t: String = text::trim(parts[i].as_str());
        let n: u64 = match text::parse_u64(t.as_str()) {
            Some(n) => n,
            None => 0,
        };
        r.push(n);
        i += 1;
        assert(r@ =~= v.take(i as int).map_values(|p: Seq<char>| part_value(p)));
    }
    assert(v.len() == parts.len());
    assert(v.take(v.len() as int) =~= v);
    r
}

/// `latest` is a higher version than `current`, comparing dotted numbers.
pub fn is_newer(latest: &str, current: &str) -> (r: bool)
    ensures
        r == higher(version(latest@), version(current@)),
{
    let a: Vec<u64> = parse_version(latest);
    let b: Vec<u64> = parse_version(current);
    let n: usize = if a.len() > b.len() {
        a.len()
    } else {
        b.len()
    };
    let mut i: usize = 0;
    while i < n
        invariant
            a@ == version(latest@),
            b@ == version(current@),
            n >= a.len(),
            n >= b.len(),
            i <= n,
            forall|j: int| 0 <= j < i ==> number_at(a@, j) == #[trigger] number_at(b@, j),
        decreases n - i,
    {
        let x: u64 = if i < a.len() {
            a[i]
        } else {
            0
        };
        let y: u64 = if i < b.len() {
            b[i]
        } else {
            0
        };
        assert(x == number_at(a@, i as int) && y == number_at(b@, i as int));
        if x != y {
            proof {
                if x < y {
                    assert forall|k: int|
                        0 <= k && #[trigger] number_at(a@, k) > number_at(b@, k) implies !(forall|
                        j: int,
                    |
                        0 <= j < k ==> number_at(a@, j) == #[trigger] number_at(b@, j)) by {
                        assert(k > i);
                        assert(number_at(a@, i as int) != number_at(b@, i as int));
                    }
                }
            }
            return x > y;
        }
        i += 1;
    }
    assert forall|k: int| 0 <= k implies #[trigger] number_at(a@, k) == number_at(b@, k) by {
        if k < n {
            assert(number_at(a@, k) == number_at(b@, k));
        }
    }
    false
}

/// No version is newer than itself, and of two versions at most one is newer
/// than the other.
pub proof fn law_newer_is_one_way(a: Seq<u64>, b: Seq<u64>)
    ensures
        !higher(a, a),
        higher(a, b) ==> !higher(b, a),
{
    if higher(a, b) && higher(b, a) {
        let i = choose|i: int|
            0 <= i && #[trigger] number_at(a, i) > number_at(b, i) && forall|j: int|
                0 <= j < i ==> number_at(a, j) == #[trigger] number_at(b, j);
        let k = choose|i: int|
            0 <= i && #[trigger] number_at(b, i) > number_at(a, i) && forall|j: int|
                0 <= j < i ==> number_at(b, j) == #[trigger] number_at(a, j);
        if i < k {
            assert(number_at(b, i) == number_at(a, i));
        } else if k < i {
            assert(number_at(a, k) == number_at(b, k));
        }
    }
}

/// What is newer than a newer version is newer.
pub proof fn law_newer_is_transitive(a: Seq<u64>, b: Seq<u64>, c: Seq<u64>)
    requires
        higher(a, b),
        higher(b, c),
    ensures
        higher(a, c),
{
    let i = choose|i: int|
        0 <= i && #[trigger] number_at(a, i) > number_at(b, i) && forall|j: int|
            0 <= j < i ==> number_at(a, j) == #[trigger] number_at(b, j);
    let k = choose|i: int|
        0 <= i && #[trigger] number_at(b, i) > number_at(c, i) && forall|j: int|
            0 <= j < i ==> number_at(b, j) == #[trigger] number_at(c, j);
    let m = if i < k {
        i
    } else {
        k
    };
    assert(number_at(b, i) == number_at(c, i) || k <= i);
    assert(number_at(a, k) == number_at(b, k) || i <= k);
    assert(number_at(a, m) > number_at(c, m));
    assert forall|j: int| 0 <= j < m implies number_at(a, j) == #[trigger] number_at(c, j) by {
        assert(number_at(a, j) == number_at(b, j));
        assert(number_at(b, j) == number_at(c, j));
    }
}

/// Two different versions are comparable: one of them is newer, unless they
/// differ only in zeros at the end.
pub proof fn law_versions_are_comparable(a: Seq<u64>, b: Seq<u64>)
    ensures
        higher(a, b) || higher(b, a) || forall|i: int|
            #[trigger] number_at(a, i) == number_at(b, i),
{
    let n = if a.len() > b.len() {
        a.len()
    } else {
        b.len()
    };
    lemma_first_difference(a, b, n);
}

proof fn lemma_first_difference(a: Seq<u64>, b: Seq<u64>, n: nat)
    requires
        forall|i: int| i >= n ==> #[trigger] number_at(a, i) == number_at(b, i),
    ensures
        higher(a, b) || higher(b, a) || forall|i: int|
            #[trigger] number_at(a, i) == number_at(b, i),
    decreases n,
{
    if n > 0 {
        if number_at(a, n - 1) == number_at(b, n - 1) {
            assert forall|i: int| i >= n - 1 implies #[trigger] number_at(a, i) == number_at(
                b,
                i,
            ) by {}
            lemma_first_difference(a, b, (n - 1) as nat);
        } else {
            lemma_some_difference(a, b, n - 1);
        }
    }
}

proof fn lemma_some_difference(a: Seq<u64>, b: Seq<u64>, at: int)
    requires
        at >= 0,
        number_at(a, at) != number_at(b, at),
    ensures
        higher(a, b) || higher(b, a),
    decreases at,
{
    if exists|j: int| 0 <= j < at && #[trigger] number_at(a, j) != number_at(b, j) {
        let j = choose|j: int| 0 <= j < at && #[trigger] number_at(a, j) != number_at(b, j);
        lemma_some_difference(a, b, j);
    } else {
        assert forall|j: int| 0 <= j < at implies number_at(a, j) == #[trigger] number_at(b, j) by {
            assert(!(number_at(a, j) != number_at(b, j)));
        }
        assert forall|j: int| 0 <= j < at implies number_at(b, j) == #[trigger] number_at(a, j) by {
        }
        if number_at(a, at) > number_at(b, at) {
            assert(higher(a, b));
        } else {
            assert(number_at(b, at) > number_at(a, at));
            assert(higher(b, a));
        }
    }
}

// ---------------------------------------------------------------------------
// Telling the user

/// How a finding is shown.
#[derive(Clone, Copy, Debug, PartialEq, Eq, Structural)]
pub enum Prompt {
    /// With a choice to open the page of the release.
    Question,
    Information,
    Error,
}

/// The newer release that a check found, if any.
pub open spec fn newer_release(result: Result<String, String>, current: Seq<char>) -> Option<
    Seq<char>,
> {
    match result {
        Ok(v) => if higher(version(v@), version(current)) {
            Some(v@)
        } else {
            None
        },
        Err(_) => None,
    }
}

/// The newer release that a check found; it is remembered for the menu.
pub fn newer(result: &Result<String, String>, current: &str) -> (r: Option<String>)
    ensures
        match r {
            Some(v) => newer_release(*result, current@) == Some(v@),
            None => newer_release(*result, current@).is_none(),
        },
{
    match result {
        Ok(v) => if is_newer(v.as_str(), current) {
            Some(v.clone())
        } else {
            None
        },
        Err(_) => None,
    }
}

pub open spec fn finding_text(
    tr: Translator,
    result: Result<String, String>,
    current: Seq<char>,
) -> (Seq<char>, Prompt) {
    match result {
        Ok(_) => match newer_release(result, current) {
            Some(v) => (
                i18n::filled(
                    i18n::text_of(tr, "update.available"@),
                    seq![("v"@, v), ("cur"@, current)],
                ),
                Prompt::Question,
            ),
            None => (
                i18n::filled(i18n::text_of(tr, "update.latest"@), seq![("v"@, current)]),
                Prompt::Information,
            ),
        },
        Err(e) => (
            i18n::filled(i18n::text_of(tr, "update.failed"@), seq![("err"@, e@)]),
            Prompt::Error,
        ),
    }
}

/// What a check that the user asked for tells them.
pub fn finding(tr: &Translator, result: &Result<String, String>, current: &str) -> (r: (
    String,
    Prompt,
))
    ensures
        (r.0@, r.1) == finding_text(*tr, *result, current@),
{
    match result {
        Ok(_) => match newer(result, current) {
            Some(v) => {
                let args: [(&str, &str); 2] = [("v", v.as_str()), ("cur", current)];
                assert(i18n::arg_views(args@) =~= seq![("v"@, v@), ("cur"@, current@)]);
                (tr.tf("update.available", &args), Prompt::Question)
            },
            None => {
                let args: [(&str, &str); 1] = [("v", current)];
                assert(i18n::arg_views(args@) =~= seq![("v"@, current@)]);
                (tr.tf("update.latest", &args), Prompt::Information)
            },
        },
        Err(e) => {
            let args: [(&str, &str); 1] = [("err", e.as_str())];
            assert(i18n::arg_views(args@) =~= seq![("err"@, e@)]);
            (tr.tf("update.failed", &args), Prompt::Error)
        },
    }
}

/// What was written behind a key is read back: a colon, a string in quotes, and
/// whatever follows it, with or without a space behind the colon.
pub proof fn law_written_string_is_read(value: Seq<char>, rest: Seq<char>)
    requires
        forall|i: int| 0 <= i < value.len() ==> #[trigger] value[i] != '"',
    ensures
        string_behind(seq![':', '"'] + value + seq!['"'] + rest) == Some(value),
        string_behind(seq![':', ' ', '"'] + value + seq!['"'] + rest) == Some(value),
{
    let white = |c: char| text::is_white(c);
    let tail = value + seq!['"'] + rest;
    let q = seq!['"'];
    text::lemma_find_from(tail, q, 0);
    assert(text::occurs_at(tail, q, value.len() as int)) by {
        assert(tail.subrange(value.len() as int, (value.len() + 1) as int) =~= q);
    }
    assert forall|j: int| 0 <= j < value.len() implies !#[trigger] text::occurs_at(tail, q, j) by {
        if text::occurs_at(tail, q, j) {
            assert(tail.subrange(j, j + 1)[0] == q[0]);
            assert(tail[j] == value[j]);
        }
    }
    assert(text::find_from(tail, q, 0) == Some(value.len() as int));
    assert(tail.take(value.len() as int) =~= value);
    let a = seq![':', '"'] + value + q + rest;
    assert(left_trimmed(a) == a);
    assert(a.skip(1) =~= seq!['"'] + tail);
    let b = a.skip(1);
    assert(b[0] == '"');
    assert(left_trimmed(b) == b);
    assert(b.skip(1) =~= tail);
    let c = seq![':', ' ', '"'] + value + q + rest;
    assert(left_trimmed(c) == c);
    let d = c.skip(1);
    assert(d[0] == ' ');
    assert(d.skip(1) =~= b);
    assert(left_trimmed(d) == left_trimmed(d.skip(1))) by {
        assert(white(d[0]));
    }
}

/// The tag of a release is the version, with or without a `v` in front.
pub proof fn law_release_is_its_tag(b: String, tag: Seq<char>)
    requires
        string_of_key(b@, "tag_name"@) == Some(tag),
        tag.len() > 0,
    ensures
        tag[0] != 'v' ==> latest(Ok(b)) == Ok::<Seq<char>, Seq<char>>(tag),
        tag.len() > 1 && tag[0] == 'v' && tag[1] != 'v' ==> latest(Ok(b)) == Ok::<
            Seq<char>,
            Seq<char>,
        >(tag.skip(1)),
{
    let f = text::is_char('v');
    if tag.len() > 1 && tag[0] == 'v' && tag[1] != 'v' {
        assert(tag.skip(1)[0] == tag[1]);
        assert(text::skip_front(tag.skip(1), f) == tag.skip(1));
    }
}

proof fn lemma_split_front(d: Seq<char>, s: Seq<char>)
    requires
        forall|i: int| 0 <= i < d.len() ==> #[trigger] d[i] != '.',
    ensures
        text::split_on(d, '.') == seq![d],
        text::split_on(d + seq!['.'] + s, '.') == seq![d] + text::split_on(s, '.'),
    decreases d.len(), s.len(),
{
    let all = d + seq!['.'] + s;
    if s.len() == 0 {
        if d.len() > 0 {
            let e = d.drop_last();
            assert forall|i: int| 0 <= i < e.len() implies #[trigger] e[i] != '.' by {
                assert(e[i] == d[i]);
            }
            lemma_split_front(e, s);
            assert(d.last() == d[d.len() - 1]);
            assert(text::split_on(d, '.') =~= seq![e.push(d.last())]);
            assert(e.push(d.last()) =~= d);
        } else {
            assert(text::split_on(d, '.') =~= seq![d]) by {
                assert(d =~= Seq::<char>::empty());
            }
        }
        assert(all.drop_last() =~= d);
        assert(all.last() == '.');
        assert(s =~= Seq::<char>::empty());
        assert(text::split_on(all, '.') =~= seq![d] + text::split_on(s, '.'));
    } else {
        let t = s.drop_last();
        lemma_split_front(d, t);
        assert(all.drop_last() =~= d + seq!['.'] + t);
        assert(all.last() == s.last());
        text::lemma_split_nonempty(t, '.');
        let r = text::split_on(t, '.');
        if s.last() == '.' {
            assert(text::split_on(all, '.') =~= seq![d] + text::split_on(s, '.'));
        } else {
            assert((seq![d] + r).last() == r.last());
            assert(text::split_on(all, '.') =~= seq![d] + text::split_on(s, '.'));
        }
    }
}

proof fn lemma_number_part(n: u64)
    ensures
        part_value(text::decimal(n as nat)) == n,
{
    text::law_number_round_trip(n);
    text::lemma_decimal_value(n as nat);
    let d = text::decimal(n as nat);
    assert(text::is_digit(d[0]));
    assert(text::is_digit(d[d.len() - 1]));
    let white = |c: char| text::is_white(c);
    assert(!white(d[0]) && !white(d.last()));
    assert(text::skip_front(d, white) == d);
    assert(text::skip_back(d, white) == d);
}

/// A version is read as it is written: a number is one part, and a number with a
/// dot behind it is the part in front of those that follow.
pub proof fn law_versions_are_read_as_written(n: u64, s: Seq<char>)
    ensures
        version(text::decimal(n as nat)) == seq![n],
        version(text::decimal(n as nat) + seq!['.'] + s) == seq![n] + version(s),
{
    let d = text::decimal(n as nat);
    text::lemma_decimal_value(n as nat);
    assert forall|i: int| 0 <= i < d.len() implies #[trigger] d[i] != '.' by {
        assert(text::is_digit(d[i]));
    }
    lemma_split_front(d, s);
    lemma_number_part(n);
    assert(version(d) =~= seq![n]);
    assert(version(d + seq!['.'] + s) =~= seq![n] + version(s));
}

/// The first part that differs decides which version is higher, whatever follows
/// it; parts that are equal leave it to those that follow.
pub proof fn law_first_part_decides(a: u64, b: u64, s: Seq<u64>, t: Seq<u64>)
    ensures
        a > b ==> higher(seq![a] + s, seq![b] + t),
        a == b ==> (higher(seq![a] + s, seq![b] + t) <==> higher(s, t)),
{
    let x = seq![a] + s;
    let y = seq![b] + t;
    assert(forall|i: int| i >= 0 ==> #[trigger] number_at(s, i) == number_at(x, i + 1));
    assert(forall|i: int| i >= 0 ==> #[trigger] number_at(t, i) == number_at(y, i + 1));
    assert(number_at(x, 0) == a && number_at(y, 0) == b);
    if a == b {
        if higher(s, t) {
            let i = choose|i: int|
                0 <= i && #[trigger] number_at(s, i) > number_at(t, i) && forall|j: int|
                    0 <= j < i ==> number_at(s, j) == #[trigger] number_at(t, j);
            assert forall|j: int| 0 <= j < i + 1 implies number_at(x, j) == #[trigger] number_at(
                y,
                j,
            ) by {
                if j > 0 {
                    assert(number_at(s, j - 1) == number_at(t, j - 1));
                }
            }
            assert(number_at(x, i + 1) > number_at(y, i + 1));
        }
        if higher(x, y) {
            let i = choose|i: int|
                0 <= i && #[trigger] number_at(x, i) > number_at(y, i) && forall|j: int|
                    0 <= j < i ==> number_at(x, j) == #[trigger] number_at(y, j);
            assert(i > 0);
            assert(number_at(s, i - 1) > number_at(t, i - 1));
            assert forall|j: int| 0 <= j < i - 1 implies number_at(s, j) == #[trigger] number_at(
                t,
                j,
            ) by {
                assert(number_at(x, j + 1) == number_at(y, j + 1));
            }
        }
    }
}

/// The user is asked about a release exactly when it is newer than the program,
/// told that there is none where it is not, and told of the failure where the
/// check failed.
pub proof fn law_findings_are_told(tr: Translator, result: Result<String, String>, current: Seq<char>)
    ensures
        finding_text(tr, result, current).1 == Prompt::Question <==> (result matches Ok(v)
            && higher(version(v@), version(current))),
        finding_text(tr, result, current).1 == Prompt::Error <==> result.is_err(),
        newer_release(result, current).is_some() <==> finding_text(tr, result, current).1
            == Prompt::Question,
        newer_release(result, current) matches Some(v) ==> result.is_ok() && result->Ok_0@ == v,
{
}

} // verus!
