//! The agent's configuration and its command line.

use crate::proto::DATA_PORT;
use crate::share;
use crate::text;
use vstd::prelude::*;
use vstd::string::StringExecFns;

verus! {

#[derive(Clone, Debug)]
pub struct Config {
    /// Stable identity of this installation; generated once.
    pub id: String,
    /// Shown in the master's menu; empty for the host name.
    pub name: String,
    /// TCP port of the data stream.
    pub port: u16,
    /// Announcements on and off.
    pub multicast: bool,
    pub interval_ms: u64,
    /// Masters must present the same token; empty for anyone on the network.
    pub token: String,
    /// Address that the agent listens on.
    pub bind: String,
}

impl Default for Config {
    fn default() -> (r: Config)
        ensures
            r.id@ == ""@,
            r.name@ == ""@,
            r.port == DATA_PORT,
            r.multicast,
            r.interval_ms == 1000,
            r.token@ == ""@,
            r.bind@ == "0.0.0.0"@,
    {
        Config {
            id: "".to_string(),
            name: "".to_string(),
            port: DATA_PORT,
            multicast: true,
            interval_ms: 1000,
            token: "".to_string(),
            bind: "0.0.0.0".to_string(),
        }
    }
}

/// The text in front of a written configuration.
pub const HEADER: &'static str = "# winstats-agent configuration\n\n";

/// The file that a configuration is written to, from its serialised form.
pub fn file_text(body: &str) -> (r: String)
    ensures
        r@ == HEADER@ + body@,
{
    let mut s: String = HEADER.to_string();
    s.append(body);
    s
}

/// Configuration `y` is configuration `x` with an id; `r` says whether it is new.
pub open spec fn is_identified(x: Config, a: u64, b: u64, r: bool, y: Config) -> bool {
    &&& r == (x.id@.len() == 0)
    &&& y.id@ == (if r {
        share::id_text(a, b)
    } else {
        x.id@
    })
    &&& y == (Config { id: y.id, ..x })
}

/// Gives a configuration without an id one from two random numbers; whether it
/// did, so that the configuration is written back.
pub fn ensure_id(cfg: &mut Config, a: u64, b: u64) -> (r: bool)
    ensures
        is_identified(*old(cfg), a, b, r, *final(cfg)),
{
    if text::chars_of(cfg.id.as_str()).len() == 0 {
        cfg.id = share::new_id(a, b);
        true
    } else {
        false
    }
}

// ---------------------------------------------------------------------------
// The command line

/// What the agent is asked to do instead of running.
#[derive(Clone, Copy, Debug, PartialEq, Eq, Structural)]
pub enum Mode {
    /// Print the announcements that are heard.
    Discover,
    /// Connect like a master and print what arrives.
    Watch,
    InstallService,
    UninstallService,
}

/// The command line, read.
#[derive(Clone, Debug)]
pub struct Args {
    pub config: Option<String>,
    pub name: Option<String>,
    pub port: Option<u16>,
    pub interval_ms: Option<u64>,
    pub token: Option<String>,
    pub no_multicast: bool,
    pub dump: bool,
    pub mode: Option<Mode>,
    /// What follows the mode.
    pub rest: Vec<String>,
}

pub struct ArgsView {
    pub config: Option<Seq<char>>,
    pub name: Option<Seq<char>>,
    pub port: Option<u16>,
    pub interval_ms: Option<u64>,
    pub token: Option<Seq<char>>,
    pub no_multicast: bool,
    pub dump: bool,
    pub mode: Option<Mode>,
    pub rest: Seq<Seq<char>>,
}

pub open spec fn opt(s: Option<String>) -> Option<Seq<char>> {
    match s {
        Some(x) => Some(x@),
        None => None,
    }
}

pub open spec fn args_view(a: Args) -> ArgsView {
    ArgsView {
        config: opt(a.config),
        name: opt(a.name),
        port: a.port,
        interval_ms: a.interval_ms,
        token: opt(a.token),
        no_multicast: a.no_multicast,
        dump: a.dump,
        mode: a.mode,
        rest: text::views(a.rest@),
    }
}

/// Nothing was given.
pub open spec fn no_args() -> ArgsView {
    ArgsView {
        config: None,
        name: None,
        port: None,
        interval_ms: None,
        token: None,
        no_multicast: false,
        dump: false,
        mode: None,
        rest: Seq::empty(),
    }
}

pub open spec fn parsed_u16(s: Seq<char>) -> Option<u16> {
    match text::parsed_u64(s) {
        Some(n) => if n <= 0xffff {
            Some(n as u16)
        } else {
            None
        },
        None => None,
    }
}

pub open spec fn mode_of(s: Seq<char>) -> Option<Mode> {
    if s == "discover"@ {
        Some(Mode::Discover)
    } else if s == "watch"@ {
        Some(Mode::Watch)
    } else if s == "install-service"@ {
        Some(Mode::InstallService)
    } else if s == "uninstall-service"@ {
        Some(Mode::UninstallService)
    } else {
        None
    }
}

/// What one argument with its value makes of what was read so far; `None` for
/// an argument that is not one of these, or a value that does not fit it.
pub open spec fn with_value(acc: ArgsView, a: Seq<char>, v: Seq<char>) -> Option<ArgsView> {
    if a == "--config"@ {
        Some(ArgsView { config: Some(v), ..acc })
    } else if a == "--name"@ {
        Some(ArgsView { name: Some(v), ..acc })
    } else if a == "--port"@ {
        match parsed_u16(v) {
            Some(p) => Some(ArgsView { port: Some(p), ..acc }),
            None => None,
        }
    } else if a == "--interval"@ {
        match text::parsed_u64(v) {
            Some(n) => Some(ArgsView { interval_ms: Some(n), ..acc }),
            None => None,
        }
    } else {
        Some(ArgsView { token: Some(v), ..acc })
    }
}

pub open spec fn takes_value(a: Seq<char>) -> bool {
    a == "--config"@ || a == "--name"@ || a == "--port"@ || a == "--interval"@ || a == "--token"@
}

/// The command line from `i` on, read into what was read before; `None` where
/// it is not understood or help was asked for. Nothing is read behind a mode.
pub open spec fn read_from(args: Seq<Seq<char>>, i: int, acc: ArgsView) -> Option<ArgsView>
    decreases args.len() - i,
{
    if i < 0 || i >= args.len() {
        Some(acc)
    } else {
        let a = args[i];
        if takes_value(a) {
            if i + 1 < args.len() {
                match with_value(acc, a, args[i + 1]) {
                    Some(x) => read_from(args, i + 2, x),
                    None => None,
                }
            } else {
                None
            }
        } else if a == "--no-multicast"@ {
            read_from(args, i + 1, ArgsView { no_multicast: true, ..acc })
        } else if a == "--dump"@ {
            read_from(args, i + 1, ArgsView { dump: true, ..acc })
        } else {
            match mode_of(a) {
                Some(m) => Some(ArgsView { mode: Some(m), rest: args.skip(i + 1), ..acc }),
                None => None,
            }
        }
    }
}

fn parse_u16(s: &str) -> (r: Option<u16>)
    ensures
        r == parsed_u16(s@),
{
    match text::parse_u64(s) {
        Some(n) => if n <= 0xffff {
            Some(n as u16)
        } else {
            None
        },
        None => None,
    }
}

fn parse_mode(s: &str) -> (r: Option<Mode>)
    ensures
        r == mode_of(s@),
{
    if text::same(s, "discover") {
        Some(Mode::Discover)
    } else if text::same(s, "watch") {
        Some(Mode::Watch)
    } else if text::same(s, "install-service") {
        Some(Mode::InstallService)
    } else if text::same(s, "uninstall-service") {
        Some(Mode::UninstallService)
    } else {
        None
    }
}

fn needs_value(a: &str) -> (r: bool)
    ensures
        r == takes_value(a@),
{
    text::same(a, "--config") || text::same(a, "--name") || text::same(a, "--port") || text::same(
        a,
        "--interval",
    ) || text::same(a, "--token")
}

fn behind(args: &Vec<String>, from: usize) -> (r: Vec<String>)
    requires
        from <= args.len(),
    ensures
        text::views(r@) == text::views(args@).skip(from as int),
{
    let ghost v = text::views(args@);
    let mut r: Vec<String> = Vec::new();
    let mut j: usize = from;
    while j < args.len()
        invariant
            v == text::views(args@),
            from <= j <= args.len(),
            r@.len() == j - from,
            forall|k: int| 0 <= k < j - from ==> (#[trigger] r@[k])@ == v[from + k],
        decreases args.len() - j,
    {
        assert(v[j as int] == args@[j as int]@);
        r.push(args[j].clone());
        j += 1;
    }
    assert(text::views(r@) =~= v.skip(from as int));
    r
}

impl Args {
    pub fn new() -> (r: Args)
        ensures
            args_view(r) == no_args(),
    {
        let r = Args {
            config: None,
            name: None,
            port: None,
            interval_ms: None,
            token: None,
            no_multicast: false,
            dump: false,
            mode: None,
            rest: Vec::new(),
        };
        assert(text::views(r.rest@) =~= Seq::<Seq<char>>::empty());
        r
    }

    fn take(&mut self, a: &str, v: &str) -> (r: bool)
        requires
            takes_value(a@),
        ensures
            match with_value(args_view(*old(self)), a@, v@) {
                Some(x) => r && args_view(*final(self)) == x,
                None => !r,
            },
    {
        if text::same(a, "--config") {
            self.config = Some(v.to_string());
        } else if text::same(a, "--name") {
            self.name = Some(v.to_string());
        } else if text::same(a, "--port") {
            match parse_u16(v) {
                Some(p) => {
                    self.port = Some(p);
                },
                None => {
                    return false;
                },
            }
        } else if text::same(a, "--interval") {
            match text::parse_u64(v) {
                Some(n) => {
                    self.interval_ms = Some(n);
                },
                None => {
                    return false;
                },
            }
        } else {
            self.token = Some(v.to_string());
        }
        true
    }

    /// Reads the command line; `None` where the usage has to be shown.
    pub fn parse(args: &Vec<String>) -> (r: Option<Args>)
        ensures
            match r {
                Some(x) => read_from(text::views(args@), 0, no_args()) == Some(args_view(x)),
                None => read_from(text::views(args@), 0, no_args()).is_none(),
            },
    {
        let ghost v = text::views(args@);
        let mut out: Args = Args::new();
        let mut i: usize = 0;
        while i < args.len()
            invariant
                v == text::views(args@),
                i <= args.len(),
                read_from(v, 0, no_args()) == read_from(v, i as int, args_view(out)),
            decreases args.len() - i,
        {
            let a: &str = args[i].as_str();
            assert(v[i as int] == a@);
            if needs_value(a) {
                if args.len() - i < 2 {
                    return None;
                }
                assert(v[i + 1] == args@[i + 1]@);
                if !out.take(a, args[i + 1].as_str()) {
                    return None;
                }
                i += 2;
            } else if text::same(a, "--no-multicast") {
                out.no_multicast = true;
                i += 1;
            } else if text::same(a, "--dump") {
                out.dump = true;
                i += 1;
            } else {
                match parse_mode(a) {
                    Some(m) => {
                        let rest: Vec<String> = behind(args, i + 1);
                        out.mode = Some(m);
                        out.rest = rest;
                        return Some(out);
                    },
                    None => {
                        return None;
                    },
                }
            }
        }
        Some(out)
    }
}

/// The seconds that announcements are listened for: those given, else ten.
pub open spec fn seconds(rest: Seq<Seq<char>>) -> u64 {
    if rest.len() > 0 {
        match text::parsed_u64(rest[0]) {
            Some(n) => n,
            None => 10,
        }
    } else {
        10
    }
}

pub fn discover_seconds(rest: &Vec<String>) -> (r: u64)
    ensures
        r == seconds(text::views(rest@)),
{
    if rest.len() > 0 {
        assert(text::views(rest@)[0] == rest@[0]@);
        match text::parse_u64(rest[0].as_str()) {
            Some(n) => n,
            None => 10,
        }
    } else {
        10
    }
}

/// The first place of a word, from `i` on; the length where there is none.
pub open spec fn place(rest: Seq<Seq<char>>, word: Seq<char>, i: int) -> int
    decreases rest.len() - i,
{
    if i < 0 || i >= rest.len() || rest[i] == word {
        i
    } else {
        place(rest, word, i + 1)
    }
}

/// The token behind the first `--token`; empty where there is none.
pub open spec fn watch_token_of(rest: Seq<Seq<char>>) -> Seq<char> {
    let p = place(rest, "--token"@, 0);
    if p + 1 < rest.len() {
        rest[p + 1]
    } else {
        Seq::empty()
    }
}

pub fn watch_token(rest: &Vec<String>) -> (r: String)
    ensures
        r@ == watch_token_of(text::views(rest@)),
{
    let ghost v = text::views(rest@);
    let mut i: usize = 0;
    while i < rest.len()
        invariant
            v == text::views(rest@),
            i <= rest.len(),
            place(v, "--token"@, 0) == place(v, "--token"@, i as int),
        decreases rest.len() - i,
    {
        assert(v[i as int] == rest@[i as int]@);
        if text::same(rest[i].as_str(), "--token") {
            if rest.len() - i >= 2 {
                assert(v[i + 1] == rest@[i + 1]@);
                return rest[i + 1].clone();
            }
            let s: String = String::new();
            assert(s@ =~= Seq::<char>::empty());
            return s;
        }
        i += 1;
    }
    let s: String = String::new();
    assert(s@ =~= Seq::<char>::empty());
    s
}

/// The interval, from a quarter of a second to a minute.
pub open spec fn limited_interval(ms: u64) -> u64 {
    if ms < 250 {
        250
    } else if ms > 60_000 {
        60_000
    } else {
        ms
    }
}

/// Configuration `y` is configuration `x` with what the command line gives.
pub open spec fn is_applied(x: Config, args: Args, y: Config) -> bool {
    &&& y.id == x.id
    &&& y.bind == x.bind
    &&& y.name@ == (match args.name {
        Some(n) => n@,
        None => x.name@,
    })
    &&& y.port == (match args.port {
        Some(p) => p,
        None => x.port,
    })
    &&& y.token@ == (match args.token {
        Some(t) => t@,
        None => x.token@,
    })
    &&& y.multicast == (x.multicast && !args.no_multicast)
    &&& y.interval_ms == limited_interval(
        match args.interval_ms {
            Some(n) => n,
            None => x.interval_ms,
        },
    )
}

/// What is given on the command line goes before what is configured; the
/// interval is kept within its limits.
pub fn apply(cfg: &mut Config, args: &Args)
    ensures
        is_applied(*old(cfg), *args, *final(cfg)),
{
    if let Some(n) = &args.name {
        cfg.name = n.clone();
    }
    if let Some(p) = args.port {
        cfg.port = p;
    }
    if let Some(n) = args.interval_ms {
        cfg.interval_ms = n;
    }
    if let Some(t) = &args.token {
        cfg.token = t.clone();
    }
    if args.no_multicast {
        cfg.multicast = false;
    }
    if cfg.interval_ms < 250 {
        cfg.interval_ms = 250;
    } else if cfg.interval_ms > 60_000 {
        cfg.interval_ms = 60_000;
    }
}

/// An agent never samples more often than four times a second, nor less often
/// than once a minute, whatever is configured or given.
pub proof fn law_interval_is_limited(ms: u64)
    ensures
        250 <= limited_interval(ms) <= 60_000,
        250 <= ms <= 60_000 ==> limited_interval(ms) == ms,
{
}

proof fn lemma_words()
    ensures
        "--config"@ != "--name"@,
        "--config"@ != "--port"@,
        "--name"@ != "--port"@,
        "--interval"@ != "--config"@,
        "--interval"@ != "--name"@,
        "--interval"@ != "--port"@,
        "--token"@ != "--config"@,
        "--token"@ != "--name"@,
        "--token"@ != "--port"@,
        "--token"@ != "--interval"@,
        !takes_value("--no-multicast"@),
        !takes_value("--dump"@),
        "--dump"@ != "--no-multicast"@,
{
    reveal_strlit("--config");
    reveal_strlit("--name");
    reveal_strlit("--port");
    reveal_strlit("--interval");
    reveal_strlit("--token");
    reveal_strlit("--no-multicast");
    reveal_strlit("--dump");
    assert("--config"@.len() == 8 && "--interval"@.len() == 10 && "--token"@.len() == 7
        && "--no-multicast"@.len() == 14);
    assert("--name"@.len() == 6 && "--port"@.len() == 6 && "--dump"@.len() == 6);
    assert("--name"@[2] == 'n' && "--port"@[2] == 'p' && "--dump"@[2] == 'd');
}

/// A command line that gives everything is read into its places: each value is
/// that behind its own word, and numbers are those that are written.
pub proof fn law_every_option_is_read(
    config: Seq<char>,
    name: Seq<char>,
    port: u16,
    interval: u64,
    token: Seq<char>,
)
    ensures
        read_from(
            seq![
                "--config"@,
                config,
                "--name"@,
                name,
                "--port"@,
                text::decimal(port as nat),
                "--interval"@,
                text::decimal(interval as nat),
                "--token"@,
                token,
                "--no-multicast"@,
                "--dump"@,
            ],
            0,
            no_args(),
        ) == Some(
            ArgsView {
                config: Some(config),
                name: Some(name),
                port: Some(port),
                interval_ms: Some(interval),
                token: Some(token),
                no_multicast: true,
                dump: true,
                mode: None,
                rest: Seq::empty(),
            },
        ),
{
    let a = seq![
        "--config"@,
        config,
        "--name"@,
        name,
        "--port"@,
        text::decimal(port as nat),
        "--interval"@,
        text::decimal(interval as nat),
        "--token"@,
        token,
        "--no-multicast"@,
        "--dump"@,
    ];
    lemma_words();
    text::law_number_round_trip(port as u64);
    text::law_number_round_trip(interval);
    let a1 = ArgsView { config: Some(config), ..no_args() };
    let a2 = ArgsView { name: Some(name), ..a1 };
    let a3 = ArgsView { port: Some(port), ..a2 };
    let a4 = ArgsView { interval_ms: Some(interval), ..a3 };
    let a5 = ArgsView { token: Some(token), ..a4 };
    let a6 = ArgsView { no_multicast: true, ..a5 };
    let a7 = ArgsView { dump: true, ..a6 };
    assert(read_from(a, 12, a7) == Some(a7));
    assert(read_from(a, 11, a6) == Some(a7));
    assert(read_from(a, 10, a5) == Some(a7));
    assert(read_from(a, 8, a4) == Some(a7));
    assert(read_from(a, 6, a3) == Some(a7));
    assert(read_from(a, 4, a2) == Some(a7));
    assert(read_from(a, 2, a1) == Some(a7));
    assert(read_from(a, 0, no_args()) == Some(a7));
}

/// A mode takes all that follows it, and is asked for by its own word.
pub proof fn law_mode_takes_the_rest(rest: Seq<Seq<char>>)
    ensures
        read_from(seq!["discover"@] + rest, 0, no_args()) == Some(
            ArgsView { mode: Some(Mode::Discover), rest, ..no_args() },
        ),
        read_from(seq!["watch"@] + rest, 0, no_args()) == Some(
            ArgsView { mode: Some(Mode::Watch), rest, ..no_args() },
        ),
        read_from(seq!["install-service"@] + rest, 0, no_args()) == Some(
            ArgsView { mode: Some(Mode::InstallService), rest, ..no_args() },
        ),
        read_from(seq!["uninstall-service"@] + rest, 0, no_args()) == Some(
            ArgsView { mode: Some(Mode::UninstallService), rest, ..no_args() },
        ),
{
    reveal_strlit("--config");
    reveal_strlit("--name");
    reveal_strlit("--port");
    reveal_strlit("--interval");
    reveal_strlit("--token");
    reveal_strlit("--no-multicast");
    reveal_strlit("--dump");
    reveal_strlit("discover");
    reveal_strlit("watch");
    reveal_strlit("install-service");
    reveal_strlit("uninstall-service");
    assert("--config"@[0] == '-' && "--name"@[0] == '-' && "--port"@[0] == '-' && "--interval"@[0]
        == '-' && "--token"@[0] == '-' && "--no-multicast"@[0] == '-' && "--dump"@[0] == '-');
    assert("discover"@[0] == 'd' && "watch"@[0] == 'w' && "install-service"@[0] == 'i'
        && "uninstall-service"@[0] == 'u');
    assert((seq!["discover"@] + rest).skip(1) =~= rest);
    assert((seq!["watch"@] + rest).skip(1) =~= rest);
    assert((seq!["install-service"@] + rest).skip(1) =~= rest);
    assert((seq!["uninstall-service"@] + rest).skip(1) =~= rest);
}

/// What the command line gives is in force, each in its own place; what it does
/// not give stays as it is configured.
pub proof fn law_given_goes_before_configured(x: Config, args: Args, y: Config)
    requires
        is_applied(x, args, y),
    ensures
        args.name.is_some() ==> y.name@ == (args.name->0)@,
        args.name.is_none() ==> y.name@ == x.name@,
        args.port.is_some() ==> Some(y.port) == args.port,
        args.port.is_none() ==> y.port == x.port,
        args.token.is_some() ==> y.token@ == (args.token->0)@,
        args.token.is_none() ==> y.token@ == x.token@,
        args.no_multicast ==> !y.multicast,
        !args.no_multicast ==> y.multicast == x.multicast,
        250 <= y.interval_ms <= 60_000,
        args.interval_ms matches Some(n) && 250 <= n <= 60_000 ==> Some(y.interval_ms)
            == args.interval_ms,
        args.interval_ms.is_none() && 250 <= x.interval_ms <= 60_000 ==> y.interval_ms
            == x.interval_ms,
        y.id == x.id && y.bind == x.bind,
{
}

/// An agent has an id, keeps the one that it has, and is given one of 32 characters
/// where it has none.
pub proof fn law_id_is_kept(x: Config, a: u64, b: u64, r: bool, y: Config)
    requires
        is_identified(x, a, b, r, y),
    ensures
        y.id@.len() > 0,
        x.id@.len() > 0 ==> y.id@ == x.id@ && !r,
        x.id@.len() == 0 ==> r && y.id@.len() == 32,
        y.name == x.name && y.port == x.port && y.token == x.token && y.bind == x.bind,
{
    reveal_with_fuel(text::sixteen_to, 17);
    text::lemma_hex_len(a as nat, 16, text::sixteen_to(16), false);
    text::lemma_hex_len(b as nat, 16, text::sixteen_to(16), false);
}

/// The seconds that are given are those that are listened for.
pub proof fn law_given_seconds_count(n: u64, rest: Seq<Seq<char>>)
    ensures
        seconds(seq![text::decimal(n as nat)] + rest) == n,
        seconds(Seq::empty()) == 10,
{
    text::law_number_round_trip(n);
    assert((seq![text::decimal(n as nat)] + rest)[0] == text::decimal(n as nat));
}

proof fn lemma_place(rest: Seq<Seq<char>>, word: Seq<char>, i: int, at: int)
    requires
        0 <= i <= at < rest.len(),
        rest[at] == word,
        forall|j: int| i <= j < at ==> #[trigger] rest[j] != word,
    ensures
        place(rest, word, i) == at,
    decreases at - i,
{
    if i < at {
        lemma_place(rest, word, i + 1, at);
    }
}

/// The token is what stands behind the word for it, wherever that is.
pub proof fn law_token_is_behind_its_word(
    front: Seq<Seq<char>>,
    token: Seq<char>,
    back: Seq<Seq<char>>,
)
    requires
        !front.contains("--token"@),
    ensures
        watch_token_of(front + seq!["--token"@, token] + back) == token,
        watch_token_of(front).len() == 0,
{
    let r = front + seq!["--token"@, token] + back;
    let at = front.len() as int;
    assert(r[at] == "--token"@ && r[at + 1] == token);
    assert forall|j: int| 0 <= j < at implies #[trigger] r[j] != "--token"@ by {
        assert(r[j] == front[j]);
        assert(front.contains(front[j]));
    }
    lemma_place(r, "--token"@, 0, at);
    lemma_no_place(front, "--token"@, 0);
}

proof fn lemma_no_place(rest: Seq<Seq<char>>, word: Seq<char>, i: int)
    requires
        0 <= i <= rest.len(),
        !rest.contains(word),
    ensures
        place(rest, word, i) == rest.len(),
    decreases rest.len() - i,
{
    if i < rest.len() {
        assert(rest.contains(rest[i]));
        lemma_no_place(rest, word, i + 1);
    }
}

} // verus!
