//! Texts of the interface. Every locale is a TOML document; keys are
//! `section.key`. Missing keys fall back to English. The language comes from
//! the configuration or, for "auto", from the Windows UI language.

use crate::text;
use vstd::hash_map::StringHashMap;
use vstd::prelude::*;
use vstd::string::StringExecFns;

verus! {

/// A locale: its code, its name in its own language, and its texts.
pub struct Locale {
    pub code: String,
    pub name: String,
    pub text: String,
}

/// The codes of the locales with their names, in the order of the Language
/// menu.
pub open spec fn locale_list() -> Seq<(&'static str, &'static str)> {
    seq![
        ("en", "English"),
        ("en-GB", "English (UK)"),
        ("bg", "Български"),
        ("cs", "Čeština"),
        ("da", "Dansk"),
        ("de", "Deutsch"),
        ("de-CH", "Deutsch (Schweiz)"),
        ("el", "Ελληνικά"),
        ("es", "Español"),
        ("et", "Eesti"),
        ("fr", "Français"),
        ("fr-CA", "Français (Canada)"),
        ("hu", "Magyar"),
        ("it", "Italiano"),
        ("ja", "日本語"),
        ("lt", "Lietuvių"),
        ("lv", "Latviešu"),
        ("nb", "Norsk bokmål"),
        ("nl", "Nederlands"),
        ("pl", "Polski"),
        ("pt", "Português"),
        ("ro", "Română"),
        ("ru", "Русский"),
        ("sr", "Српски"),
        ("sv", "Svenska"),
        ("tr", "Türkçe"),
        ("uk", "Українська"),
        ("zh", "简体中文"),
        ("zh-Hant", "繁體中文"),
    ]
}

pub fn locale_names() -> (r: Vec<(&'static str, &'static str)>)
    ensures
        r@ == locale_list(),
{
    let mut r: Vec<(&'static str, &'static str)> = Vec::new();
    r.push(("en", "English"));
    r.push(("en-GB", "English (UK)"));
    r.push(("bg", "Български"));
    r.push(("cs", "Čeština"));
    r.push(("da", "Dansk"));
    r.push(("de", "Deutsch"));
    r.push(("de-CH", "Deutsch (Schweiz)"));
    r.push(("el", "Ελληνικά"));
    r.push(("es", "Español"));
    r.push(("et", "Eesti"));
    r.push(("fr", "Français"));
    r.push(("fr-CA", "Français (Canada)"));
    r.push(("hu", "Magyar"));
    r.push(("it", "Italiano"));
    r.push(("ja", "日本語"));
    r.push(("lt", "Lietuvių"));
    r.push(("lv", "Latviešu"));
    r.push(("nb", "Norsk bokmål"));
    r.push(("nl", "Nederlands"));
    r.push(("pl", "Polski"));
    r.push(("pt", "Português"));
    r.push(("ro", "Română"));
    r.push(("ru", "Русский"));
    r.push(("sr", "Српски"));
    r.push(("sv", "Svenska"));
    r.push(("tr", "Türkçe"));
    r.push(("uk", "Українська"));
    r.push(("zh", "简体中文"));
    r.push(("zh-Hant", "繁體中文"));
    assert(r@ =~= locale_list());
    r
}

// ---------------------------------------------------------------------------
// TOML documents

/// What a TOML value holds: a table with its entries in order, or the text of
/// anything else that can be printed. A value made by hand can hold a date that
/// is none, such as one of an impossible month; printing it panics.
pub enum Tree {
    Table(Seq<(Seq<char>, Tree)>),
    Text(Seq<char>),
    Unprintable,
}

/// Every leaf can be printed.
pub open spec fn printable(t: Tree) -> bool
    decreases t,
{
    match t {
        Tree::Table(items) => printable_all(items, items.len()),
        Tree::Text(_) => true,
        Tree::Unprintable => false,
    }
}

/// The same for the first `n` entries of a table.
pub open spec fn printable_all(items: Seq<(Seq<char>, Tree)>, n: nat) -> bool
    decreases items, n,
{
    if n == 0 || n > items.len() {
        true
    } else {
        printable(items[n - 1].1) && printable_all(items, (n - 1) as nat)
    }
}

proof fn lemma_printable_entry(items: Seq<(Seq<char>, Tree)>, n: nat, i: int)
    requires
        printable_all(items, n),
        0 <= i < n <= items.len(),
    ensures
        printable(items[i].1),
    decreases n,
{
    if i < n - 1 {
        lemma_printable_entry(items, (n - 1) as nat, i);
    }
}

/// A value of the `toml` crate.
#[verifier::external_type_specification]
#[verifier::external_body]
pub struct ExTomlValue(toml::Value);

/// What a `toml::Value` holds.
pub uninterp spec fn value_tree(v: toml::Value) -> Tree;

/// What `str::parse::<toml::Value>` makes of a document; `None` for an error.
pub uninterp spec fn document_tree(s: Seq<char>) -> Option<Tree>;

/// `str::parse::<toml::Value>` reads a TOML document, or gives an error where
/// the text is none; what it gives depends on the text alone. Every date that
/// it accepts is one, so that the values of a document can be printed.
#[verifier::external_body]
fn parse_document(s: &str) -> (r: Option<toml::Value>)
    ensures
        match r {
            Some(v) => document_tree(s@) == Some(value_tree(v)) && printable(value_tree(v)),
            None => document_tree(s@).is_none(),
        },
{
    s.parse::<toml::Value>().ok()
}

/// A value taken apart by one step.
pub enum Opened {
    Table(Vec<(String, toml::Value)>),
    Text(String),
}

pub open spec fn entry_trees(items: Seq<(String, toml::Value)>) -> Seq<(Seq<char>, Tree)> {
    items.map_values(|e: (String, toml::Value)| (e.0@, value_tree(e.1)))
}

/// `toml::Value` told apart: a table is walked in the order of its map, a
/// string is taken as it is, and every other value is printed with its
/// `Display`, which panics on a value that holds a date that is none.
#[verifier::external_body]
fn open_value(v: toml::Value) -> (r: Opened)
    requires
        printable(value_tree(v)),
    ensures
        match r {
            Opened::Table(items) => value_tree(v) == Tree::Table(entry_trees(items@)),
            Opened::Text(s) => value_tree(v) == Tree::Text(s@),
        },
{
    match v {
        toml::Value::Table(t) => Opened::Table(t.into_iter().collect()),
        toml::Value::String(s) => Opened::Text(s),
        other => Opened::Text(other.to_string()),
    }
}

/// A key inside a table.
pub open spec fn joined(prefix: Seq<char>, key: Seq<char>) -> Seq<char> {
    if prefix.len() == 0 {
        key
    } else {
        prefix + "."@ + key
    }
}

/// A map of texts with those of a tree added: each leaf under the path of its
/// keys; a later one of the same path replaces an earlier one.
pub open spec fn flattened(
    prefix: Seq<char>,
    t: Tree,
    m: Map<Seq<char>, Seq<char>>,
) -> Map<Seq<char>, Seq<char>>
    decreases t,
{
    match t {
        Tree::Text(s) => m.insert(prefix, s),
        Tree::Unprintable => m,
        Tree::Table(items) => flattened_all(prefix, items, items.len(), m),
    }
}

/// The same for the first `n` entries of a table.
pub open spec fn flattened_all(
    prefix: Seq<char>,
    items: Seq<(Seq<char>, Tree)>,
    n: nat,
    m: Map<Seq<char>, Seq<char>>,
) -> Map<Seq<char>, Seq<char>>
    decreases items, n,
{
    if n == 0 || n > items.len() {
        m
    } else {
        flattened(
            joined(prefix, items[n - 1].0),
            items[n - 1].1,
            flattened_all(prefix, items, (n - 1) as nat, m),
        )
    }
}

/// The texts of a table of strings.
pub open spec fn texts(m: Map<Seq<char>, String>) -> Map<Seq<char>, Seq<char>> {
    m.map_values(|s: String| s@)
}

fn join_key(prefix: &str, key: &str) -> (r: String)
    ensures
        r@ == joined(prefix@, key@),
{
    if text::chars_of(prefix).len() == 0 {
        key.to_string()
    } else {
        let mut r: String = prefix.to_string();
        r.append(".");
        r.append(key);
        r
    }
}

/// Adds the texts of a value under `prefix`.
pub fn flatten(prefix: &str, v: toml::Value, out: &mut StringHashMap<String>)
    requires
        printable(value_tree(v)),
    ensures
        texts(final(out)@) == flattened(prefix@, value_tree(v), texts(old(out)@)),
    decreases value_tree(v),
{
    let ghost t = value_tree(v);
    match open_value(v) {
        Opened::Text(s) => {
            let ghost before = out@;
            let ghost sv = s@;
            out.insert(prefix.to_string(), s);
            assert(texts(out@) =~= texts(before).insert(prefix@, sv));
        },
        Opened::Table(items) => {
            let ghost trees = entry_trees(items@);
            let ghost m0 = texts(out@);
            let mut rest: Vec<(String, toml::Value)> = reversed(items);
            let ghost mut n: nat = 0;
            while rest.len() > 0
                invariant
                    t == value_tree(v),
                    t == Tree::Table(trees),
                    printable(t),
                    trees == entry_trees(items@),
                    n + rest@.len() == items@.len(),
                    forall|j: int|
                        0 <= j < rest@.len() ==> #[trigger] rest@[j] == items@[items@.len() - 1
                            - j],
                    texts(out@) == flattened_all(prefix@, trees, n, m0),
                decreases rest.len(),
            {
                let last: Option<(String, toml::Value)> = rest.pop();
                if let Some((k, x)) = last {
                    assert((k, x) == items@[n as int]);
                    assert(trees[n as int] == (k@, value_tree(x)));
                    let key: String = join_key(prefix, k.as_str());
                    proof {
                        lemma_printable_entry(trees, trees.len(), n as int);
                        assert(decreases_to!(t => t->Table_0));
                        assert(t->Table_0 == trees);
                        assert(decreases_to!(trees => trees[n as int]));
                        assert(decreases_to!(trees[n as int] => trees[n as int].1));
                    }
                    flatten(key.as_str(), x, out);
                    proof {
                        n = n + 1;
                    }
                }
            }
        },
    }
}

fn reversed<T>(items: Vec<T>) -> (r: Vec<T>)
    ensures
        r@.len() == items@.len(),
        forall|j: int| 0 <= j < r@.len() ==> #[trigger] r@[j] == items@[items@.len() - 1 - j],
{
    let ghost all = items@;
    let mut rest: Vec<T> = items;
    let mut r: Vec<T> = Vec::new();
    while rest.len() > 0
        invariant
            rest@ == all.take(rest@.len() as int),
            rest@.len() <= all.len(),
            r@.len() + rest@.len() == all.len(),
            forall|j: int| 0 <= j < r@.len() ==> #[trigger] r@[j] == all[all.len() - 1 - j],
        decreases rest.len(),
    {
        let x: Option<T> = rest.pop();
        if let Some(v) = x {
            r.push(v);
        }
    }
    r
}

// ---------------------------------------------------------------------------
// Languages

/// The position of the first locale with a code, or the number of them.
pub open spec fn locale_at(locales: Seq<Locale>, code: Seq<char>) -> int
    decreases locales.len(),
{
    if locales.len() == 0 || locales[0].code@ == code {
        0
    } else {
        1 + locale_at(locales.skip(1), code)
    }
}

/// A locale of this code exists.
pub open spec fn is_locale(locales: Seq<Locale>, code: Seq<char>) -> bool {
    locale_at(locales, code) < locales.len()
}

proof fn lemma_locale_at(locales: Seq<Locale>, code: Seq<char>, k: int)
    requires
        0 <= k <= locales.len(),
        forall|j: int| 0 <= j < k ==> (#[trigger] locales[j]).code@ != code,
        k < locales.len() ==> locales[k].code@ == code,
    ensures
        locale_at(locales, code) == k,
    decreases locales.len(),
{
    if k > 0 {
        assert(locales[0].code@ != code);
        assert forall|j: int| 0 <= j < k - 1 implies (#[trigger] locales.skip(1)[j]).code@ != code by {
            assert(locales.skip(1)[j] == locales[j + 1]);
        }
        lemma_locale_at(locales.skip(1), code, k - 1);
    }
}

fn find_locale(locales: &Vec<Locale>, code: &str) -> (r: usize)
    ensures
        r == locale_at(locales@, code@),
        r <= locales@.len(),
{
    let mut k: usize = 0;
    while k < locales.len() && !text::same(locales[k].code.as_str(), code)
        invariant
            k <= locales.len(),
            forall|j: int| 0 <= j < k ==> (#[trigger] locales@[j]).code@ != code@,
        decreases locales.len() - k,
    {
        k += 1;
    }
    proof {
        lemma_locale_at(locales@, code@, k as int);
    }
    k
}

/// The texts of a locale: none where there is no such locale or its document
/// cannot be read.
pub open spec fn locale_texts(locales: Seq<Locale>, code: Seq<char>) -> Map<Seq<char>, Seq<char>> {
    let k = locale_at(locales, code);
    if k < locales.len() {
        match document_tree(locales[k].text@) {
            Some(t) => flattened(Seq::empty(), t, Map::empty()),
            None => Map::empty(),
        }
    } else {
        Map::empty()
    }
}

/// The texts of a locale by its code.
pub fn parse(locales: &Vec<Locale>, code: &str) -> (r: StringHashMap<String>)
    ensures
        texts(r@) == locale_texts(locales@, code@),
{
    let mut out: StringHashMap<String> = StringHashMap::new();
    assert(texts(out@) =~= Map::<Seq<char>, Seq<char>>::empty());
    let k: usize = find_locale(locales, code);
    if k < locales.len() {
        if let Some(v) = parse_document(locales[k].text.as_str()) {
            proof {
                reveal_strlit("");
                assert(""@ =~= Seq::<char>::empty());
            }
            flatten("", v, &mut out);
        }
    }
    out
}

/// The locale code for a Windows UI language.
pub open spec fn language_code(id: u16) -> Seq<char> {
    let primary = id % 1024;
    let sub = id / 1024;
    if primary == 0x09 {
        if sub == 2 {
            "en-GB"@
        } else {
            "en"@
        }
    } else if primary == 0x07 {
        if sub == 2 {
            "de-CH"@
        } else {
            "de"@
        }
    } else if primary == 0x0c {
        if sub == 3 {
            "fr-CA"@
        } else {
            "fr"@
        }
    } else if primary == 0x04 {
        if sub == 1 || sub == 3 || sub == 5 {
            "zh-Hant"@
        } else {
            "zh"@
        }
    } else if primary == 0x02 {
        "bg"@
    } else if primary == 0x05 {
        "cs"@
    } else if primary == 0x06 {
        "da"@
    } else if primary == 0x08 {
        "el"@
    } else if primary == 0x0a {
        "es"@
    } else if primary == 0x25 {
        "et"@
    } else if primary == 0x0e {
        "hu"@
    } else if primary == 0x10 {
        "it"@
    } else if primary == 0x11 {
        "ja"@
    } else if primary == 0x27 {
        "lt"@
    } else if primary == 0x26 {
        "lv"@
    } else if primary == 0x14 {
        "nb"@
    } else if primary == 0x13 {
        "nl"@
    } else if primary == 0x15 {
        "pl"@
    } else if primary == 0x16 {
        "pt"@
    } else if primary == 0x18 {
        "ro"@
    } else if primary == 0x19 {
        "ru"@
    } else if primary == 0x1a {
        "sr"@
    } else if primary == 0x1d {
        "sv"@
    } else if primary == 0x1f {
        "tr"@
    } else if primary == 0x22 {
        "uk"@
    } else {
        "en"@
    }
}

/// The locale code for a Windows UI language: the language in its lower ten
/// bits, the country above; "en" for a language without a locale.
pub fn detect(id: u16) -> (r: &'static str)
    ensures
        r@ == language_code(id),
{
    let primary: u16 = id % 1024;
    let sub: u16 = id / 1024;
    match primary {
        0x09 => if sub == 2 {
            "en-GB"
        } else {
            "en"
        },
        0x07 => if sub == 2 {
            "de-CH"
        } else {
            "de"
        },
        0x0c => if sub == 3 {
            "fr-CA"
        } else {
            "fr"
        },
        0x04 => if sub == 1 || sub == 3 || sub == 5 {
            "zh-Hant"
        } else {
            "zh"
        },
        0x02 => "bg",
        0x05 => "cs",
        0x06 => "da",
        0x08 => "el",
        0x0a => "es",
        0x25 => "et",
        0x0e => "hu",
        0x10 => "it",
        0x11 => "ja",
        0x27 => "lt",
        0x26 => "lv",
        0x14 => "nb",
        0x13 => "nl",
        0x15 => "pl",
        0x16 => "pt",
        0x18 => "ro",
        0x19 => "ru",
        0x1a => "sr",
        0x1d => "sv",
        0x1f => "tr",
        0x22 => "uk",
        _ => "en",
    }
}

/// The texts of the interface in the language that is set, with the English
/// ones behind them.
pub struct Translator {
    pub table: StringHashMap<String>,
    pub fallback: StringHashMap<String>,
    pub current: String,
}

/// The locale that a language setting stands for.
pub open spec fn chosen_code(locales: Seq<Locale>, setting: Seq<char>, ui_language: u16) -> Seq<char> {
    let code = if setting == "auto"@ || setting.len() == 0 {
        language_code(ui_language)
    } else {
        setting
    };
    if is_locale(locales, code) {
        code
    } else {
        "en"@
    }
}

/// The text for a key: of the language, else of English, else the key itself.
pub open spec fn text_of(tr: Translator, key: Seq<char>) -> Seq<char> {
    if tr.table@.contains_key(key) {
        tr.table@[key]@
    } else if tr.fallback@.contains_key(key) {
        tr.fallback@[key]@
    } else {
        key
    }
}

/// The placeholder of a name.
pub open spec fn placeholder(name: Seq<char>) -> Seq<char> {
    "{"@ + name + "}"@
}

/// A text with the placeholders of the first `n` arguments replaced, in order.
pub open spec fn filled_first(s: Seq<char>, args: Seq<(Seq<char>, Seq<char>)>, n: nat) -> Seq<char>
    decreases n,
{
    if n == 0 || n > args.len() {
        s
    } else {
        text::replaced(
            filled_first(s, args, (n - 1) as nat),
            placeholder(args[n - 1].0),
            args[n - 1].1,
        )
    }
}

/// A text with its placeholders replaced, in the order of the arguments.
pub open spec fn filled(s: Seq<char>, args: Seq<(Seq<char>, Seq<char>)>) -> Seq<char> {
    filled_first(s, args, args.len())
}

pub open spec fn arg_views(args: Seq<(&str, &str)>) -> Seq<(Seq<char>, Seq<char>)> {
    args.map_values(|a: (&str, &str)| (a.0@, a.1@))
}

/// The text for a key in a language: of its locale, else of English, else the
/// key itself.
pub open spec fn text_in(locales: Seq<Locale>, code: Seq<char>, key: Seq<char>) -> Seq<char> {
    let own = locale_texts(locales, code);
    let english = locale_texts(locales, "en"@);
    if own.contains_key(key) {
        own[key]
    } else if english.contains_key(key) {
        english[key]
    } else {
        key
    }
}

/// Translator `b` is translator `a` after a language was set.
pub open spec fn language_set(
    a: Translator,
    locales: Seq<Locale>,
    setting: Seq<char>,
    ui_language: u16,
    b: Translator,
) -> bool {
    let code = chosen_code(locales, setting, ui_language);
    &&& b.current@ == code
    &&& texts(b.table@) == locale_texts(locales, code)
    &&& if a.fallback@.is_empty() {
        texts(b.fallback@) == locale_texts(locales, "en"@)
    } else {
        b.fallback == a.fallback
    }
}

impl Translator {
    /// The texts behind those of the language are the English ones, or none
    /// have been read yet.
    pub open spec fn wf(self, locales: Seq<Locale>) -> bool {
        self.fallback@.is_empty() || texts(self.fallback@) == locale_texts(locales, "en"@)
    }

    /// No language is set: every key stands for itself.
    pub fn new() -> (r: Translator)
        ensures
            forall|locales: Seq<Locale>| #[trigger] r.wf(locales),
            r.table@ == Map::<Seq<char>, String>::empty(),
            r.fallback@ == Map::<Seq<char>, String>::empty(),
            r.current@ == "en"@,
    {
        Translator {
            table: StringHashMap::new(),
            fallback: StringHashMap::new(),
            current: "en".to_string(),
        }
    }

    /// Activates a locale by its code; "auto" or nothing picks the Windows UI
    /// language, and a code without a locale picks English. The English texts
    /// are read when they are first needed.
    pub fn set_language(&mut self, locales: &Vec<Locale>, setting: &str, ui_language: u16)
        ensures
            language_set(*old(self), locales@, setting@, ui_language, *final(self)),
            old(self).wf(locales@) ==> final(self).wf(locales@) && forall|key: Seq<char>| #[trigger]
                text_of(*final(self), key) == text_in(
                    locales@,
                    chosen_code(locales@, setting@, ui_language),
                    key,
                ),
    {
        let auto: bool = text::same(setting, "auto") || text::chars_of(setting).len() == 0;
        let wanted: &str = if auto {
            detect(ui_language)
        } else {
            setting
        };
        let code: &str = if find_locale(locales, wanted) < locales.len() {
            wanted
        } else {
            "en"
        };
        if self.fallback.is_empty() {
            self.fallback = parse(locales, "en");
        }
        self.table = parse(locales, code);
        self.current = code.to_string();
        proof {
            if old(self).wf(locales@) {
                lemma_set(*old(self), locales@, setting@, ui_language, *self);
            }
        }
    }

    /// The text for `key`: translated, in English if the locale lacks it, the
    /// key itself if nobody has it.
    pub fn t(&self, key: &str) -> (r: String)
        ensures
            r@ == text_of(*self, key@),
    {
        if let Some(s) = self.table.get(key) {
            return s.clone();
        }
        if let Some(s) = self.fallback.get(key) {
            return s.clone();
        }
        key.to_string()
    }

    /// The text for `key` with its `{name}` placeholders replaced.
    pub fn tf(&self, key: &str, args: &[(&str, &str)]) -> (r: String)
        ensures
            r@ == filled(text_of(*self, key@), arg_views(args@)),
    {
        let mut s: String = self.t(key);
        let mut i: usize = 0;
        while i < args.len()
            invariant
                i <= args.len(),
                s@ == filled_first(text_of(*self, key@), arg_views(args@), i as nat),
            decreases args.len() - i,
        {
            let mut p: String = "{".to_string();
            p.append(args[i].0);
            p.append("}");
            proof {
                reveal_strlit("{");
            }
            s = text::replace(s.as_str(), p.as_str(), args[i].1);
            i += 1;
        }
        s
    }
}

proof fn lemma_set(
    a: Translator,
    locales: Seq<Locale>,
    setting: Seq<char>,
    ui_language: u16,
    b: Translator,
)
    requires
        a.wf(locales),
        language_set(a, locales, setting, ui_language, b),
    ensures
        b.wf(locales),
        forall|key: Seq<char>| #[trigger]
            text_of(b, key) == text_in(locales, chosen_code(locales, setting, ui_language), key),
{
    let code = chosen_code(locales, setting, ui_language);
    assert(texts(b.fallback@) == locale_texts(locales, "en"@));
    assert forall|key: Seq<char>| #[trigger] text_of(b, key) == text_in(locales, code, key) by {
        assert(texts(b.table@).contains_key(key) == b.table@.contains_key(key));
        assert(texts(b.fallback@).contains_key(key) == b.fallback@.contains_key(key));
    }
}

/// A language setting and the Windows UI language at that moment.
pub struct Setting {
    pub code: Seq<char>,
    pub ui_language: u16,
}

/// Translators one after the other, from a new one on: each language of `calls`
/// was set on the one before.
pub open spec fn is_history(
    locales: Seq<Locale>,
    states: Seq<Translator>,
    calls: Seq<Setting>,
) -> bool {
    &&& states.len() == calls.len() + 1
    &&& states[0].table@.is_empty()
    &&& states[0].fallback@.is_empty()
    &&& forall|i: int|
        0 <= i < calls.len() ==> language_set(
            states[i],
            locales,
            (#[trigger] calls[i]).code,
            calls[i].ui_language,
            states[i + 1],
        )
}

/// What is shown depends on the language that was set last alone, however many
/// were set before: the text of its locale, else the English one, else the key.
/// Before any was set, every key stands for itself.
pub proof fn law_last_language_counts(
    locales: Seq<Locale>,
    states: Seq<Translator>,
    calls: Seq<Setting>,
    key: Seq<char>,
)
    requires
        is_history(locales, states, calls),
    ensures
        states.last().wf(locales),
        calls.len() == 0 ==> text_of(states.last(), key) == key,
        calls.len() > 0 ==> text_of(states.last(), key) == text_in(
            locales,
            chosen_code(locales, calls.last().code, calls.last().ui_language),
            key,
        ),
    decreases calls.len(),
{
    if calls.len() > 0 {
        let n = calls.len() - 1;
        let (s, c) = (states.drop_last(), calls.drop_last());
        assert forall|i: int| 0 <= i < c.len() implies language_set(
            s[i],
            locales,
            (#[trigger] c[i]).code,
            c[i].ui_language,
            s[i + 1],
        ) by {
            assert(c[i] == calls[i]);
        }
        law_last_language_counts(locales, s, c, key);
        assert(s.last() == states[n]);
        assert(calls[n] == calls.last());
        lemma_set(
            states[n],
            locales,
            calls.last().code,
            calls.last().ui_language,
            states.last(),
        );
    }
}

/// A language without a locale is English, and "auto" or nothing is the
/// language of Windows.
pub proof fn law_settings_stand_for_locales(locales: Seq<Locale>, code: Seq<char>, ui_language: u16)
    ensures
        !is_locale(locales, code) && code != "auto"@ && code.len() > 0 ==> chosen_code(
            locales,
            code,
            ui_language,
        ) == chosen_code(locales, "en"@, ui_language),
        chosen_code(locales, "auto"@, ui_language) == chosen_code(
            locales,
            language_code(ui_language),
            ui_language,
        ),
        chosen_code(locales, Seq::empty(), ui_language) == chosen_code(
            locales,
            language_code(ui_language),
            ui_language,
        ),
{
    reveal_strlit("en");
    reveal_strlit("auto");
    assert("en"@.len() == 2 && "auto"@.len() == 4);
}

/// A key that the language lacks is shown in English, and one that English
/// lacks too is shown as it is.
pub proof fn law_missing_texts_fall_back(tr: Translator, key: Seq<char>)
    requires
        !tr.table@.contains_key(key),
    ensures
        tr.fallback@.contains_key(key) ==> text_of(tr, key) == tr.fallback@[key]@,
        !tr.fallback@.contains_key(key) ==> text_of(tr, key) == key,
{
}

/// Whatever is set, the language in force is one that exists, as long as
/// English does.
pub proof fn law_language_exists(locales: Seq<Locale>, setting: Seq<char>, ui_language: u16)
    requires
        is_locale(locales, "en"@),
    ensures
        is_locale(locales, chosen_code(locales, setting, ui_language)),
{
}

/// A text of the language in force goes before the English one.
pub proof fn law_own_text_goes_first(tr: Translator, key: Seq<char>)
    requires
        tr.table@.contains_key(key),
    ensures
        text_of(tr, key) == tr.table@[key]@,
{
}

/// A text in a section of a document is found under the names of both with a dot
/// between them, unless a later one has the same path.
pub proof fn law_texts_go_by_section_and_key(
    items: Seq<(Seq<char>, Tree)>,
    sub: Seq<(Seq<char>, Tree)>,
    section: Seq<char>,
    key: Seq<char>,
    s: Seq<char>,
    m: Map<Seq<char>, Seq<char>>,
)
    requires
        items.len() > 0 && items.last() == (section, Tree::Table(sub)),
        sub.len() > 0 && sub.last() == (key, Tree::Text(s)),
        section.len() > 0,
    ensures
        flattened(Seq::empty(), Tree::Table(items), m).contains_key(section + "."@ + key),
        flattened(Seq::empty(), Tree::Table(items), m)[section + "."@ + key] == s,
{
    let n = items.len();
    let before = flattened_all(Seq::empty(), items, (n - 1) as nat, m);
    assert(items[n - 1] == items.last());
    assert(joined(Seq::empty(), section) == section);
    assert(flattened_all(Seq::empty(), items, n, m) == flattened(section, Tree::Table(sub), before));
    let k = sub.len();
    assert(sub[k - 1] == sub.last());
    let inner = flattened_all(section, sub, (k - 1) as nat, before);
    assert(flattened_all(section, sub, k, before) == flattened(
        section + "."@ + key,
        Tree::Text(s),
        inner,
    ));
}

proof fn lemma_nothing_to_replace(s: Seq<char>, pat: Seq<char>, with: Seq<char>)
    requires
        pat.len() > 0,
        !s.contains(pat[0]),
    ensures
        text::replaced(s, pat, with) == s,
    decreases s.len(),
{
    if s.len() > 0 {
        assert(s.contains(s[0]));
        if text::occurs_at(s, pat, 0) {
            assert(s.subrange(0, pat.len() as int)[0] == pat[0]);
        }
        assert forall|c: char| s.skip(1).contains(c) implies s.contains(c) by {
            let i = choose|i: int| 0 <= i < s.skip(1).len() && s.skip(1)[i] == c;
            assert(s[i + 1] == c);
        }
        lemma_nothing_to_replace(s.skip(1), pat, with);
        assert(seq![s[0]] + s.skip(1) =~= s);
    }
}

proof fn lemma_one_replaced(a: Seq<char>, b: Seq<char>, pat: Seq<char>, with: Seq<char>)
    requires
        pat.len() > 0,
        !a.contains(pat[0]),
        !b.contains(pat[0]),
    ensures
        text::replaced(a + pat + b, pat, with) == a + with + b,
    decreases a.len(),
{
    let s = a + pat + b;
    if a.len() == 0 {
        assert(s.subrange(0, pat.len() as int) =~= pat);
        assert(s.skip(pat.len() as int) =~= b);
        lemma_nothing_to_replace(b, pat, with);
        assert(with + b =~= a + with + b);
    } else {
        assert(a.contains(a[0]));
        if text::occurs_at(s, pat, 0) {
            assert(s.subrange(0, pat.len() as int)[0] == pat[0]);
            assert(s[0] == a[0]);
        }
        assert forall|c: char| a.skip(1).contains(c) implies a.contains(c) by {
            let i = choose|i: int| 0 <= i < a.skip(1).len() && a.skip(1)[i] == c;
            assert(a[i + 1] == c);
        }
        assert(s.skip(1) =~= a.skip(1) + pat + b);
        lemma_one_replaced(a.skip(1), b, pat, with);
        assert(seq![s[0]] + (a.skip(1) + with + b) =~= a + with + b);
    }
}

/// A placeholder is replaced by its value, and the text around it stays.
pub proof fn law_placeholder_is_filled(
    before: Seq<char>,
    name: Seq<char>,
    after: Seq<char>,
    value: Seq<char>,
)
    requires
        !before.contains('{'),
        !after.contains('{'),
    ensures
        filled(before + "{"@ + name + "}"@ + after, seq![(name, value)]) == before + value + after,
{
    reveal_strlit("{");
    reveal_strlit("}");
    let p = placeholder(name);
    assert(p[0] == '{');
    assert(before + "{"@ + name + "}"@ + after =~= before + p + after);
    lemma_one_replaced(before, after, p, value);
    let args = seq![(name, value)];
    let s = before + p + after;
    assert(filled_first(s, args, 0) == s);
    assert(filled_first(s, args, 1) == text::replaced(s, p, value));
}

/// A country has its own locale only where the language has one for it; any
/// other country gets that of the language, and an unknown language English.
pub proof fn law_countries_share_their_language(id: u16, other: u16)
    requires
        id % 1024 == other % 1024,
    ensures
        language_code(id) == language_code(other) || (id % 1024 == 0x09 || id % 1024 == 0x07 || id
            % 1024 == 0x0c || id % 1024 == 0x04),
        language_code(id).len() >= 2 && language_code(other).len() >= 2 && language_code(id).take(2)
            == language_code(other).take(2),
{
    reveal_strlit("en");
    reveal_strlit("en-GB");
    reveal_strlit("de");
    reveal_strlit("de-CH");
    reveal_strlit("fr");
    reveal_strlit("fr-CA");
    reveal_strlit("zh");
    reveal_strlit("zh-Hant");
    reveal_strlit("bg");
    reveal_strlit("cs");
    reveal_strlit("da");
    reveal_strlit("el");
    reveal_strlit("es");
    reveal_strlit("et");
    reveal_strlit("hu");
    reveal_strlit("it");
    reveal_strlit("ja");
    reveal_strlit("lt");
    reveal_strlit("lv");
    reveal_strlit("nb");
    reveal_strlit("nl");
    reveal_strlit("pl");
    reveal_strlit("pt");
    reveal_strlit("ro");
    reveal_strlit("ru");
    reveal_strlit("sr");
    reveal_strlit("sv");
    reveal_strlit("tr");
    reveal_strlit("uk");
    assert("en"@.take(2) =~= "en-GB"@.take(2));
    assert("de"@.take(2) =~= "de-CH"@.take(2));
    assert("fr"@.take(2) =~= "fr-CA"@.take(2));
    assert("zh"@.take(2) =~= "zh-Hant"@.take(2));
}

} // verus!
