//! Starting the agent at boot: a systemd unit, a LaunchAgent or a Run key, as
//! the steps that set it up and take it away.

use crate::text;
use vstd::prelude::*;
use vstd::string::StringExecFns;

verus! {

pub const NAME: &'static str = "winstats-agent";

/// Where the agent runs.
#[derive(Clone, Copy, Debug, PartialEq, Eq, Structural)]
pub enum Platform {
    /// With the rights of the administrator, or of a user.
    Linux { root: bool },
    MacOs,
    Windows,
    Other,
}

/// A step of setting the service up or taking it away; they are taken in order.
pub enum Step {
    /// Writes a file; where that fails the rest is left out.
    Write { path: String, text: String },
    /// Runs a program, and says something where it succeeds or fails.
    Run { program: &'static str, args: Vec<String>, done: String, failed: String },
    /// Removes a file, if it is there.
    Remove { path: String },
    Say(String),
    /// Says something as a warning.
    Warn(String),
}

pub enum StepView {
    Write { path: Seq<char>, text: Seq<char> },
    Run { program: Seq<char>, args: Seq<Seq<char>>, done: Seq<char>, failed: Seq<char> },
    Remove { path: Seq<char> },
    Say(Seq<char>),
    Warn(Seq<char>),
}

pub open spec fn step_view(s: Step) -> StepView {
    match s {
        Step::Write { path, text } => StepView::Write { path: path@, text: text@ },
        Step::Run { program, args, done, failed } => StepView::Run {
            program: program@,
            args: text::views(args@),
            done: done@,
            failed: failed@,
        },
        Step::Remove { path } => StepView::Remove { path: path@ },
        Step::Say(s) => StepView::Say(s@),
        Step::Warn(s) => StepView::Warn(s@),
    }
}

pub open spec fn steps_view(v: Seq<Step>) -> Seq<StepView> {
    v.map_values(|s: Step| step_view(s))
}

// ---------------------------------------------------------------------------
// Who runs it

/// A line of the process status that says that the administrator runs it.
pub open spec fn is_root_line(line: Seq<char>) -> bool {
    text::occurs_at(line, "Uid:"@, 0) && text::words(line).len() > 1 && text::words(line)[1]
        == "0"@
}

/// The process status says that the administrator runs it.
pub fn is_root(status: &str) -> (r: bool)
    ensures
        r == exists|i: int|
            0 <= i < text::split_on(status@, '\n').len() && is_root_line(
                #[trigger] text::split_on(status@, '\n')[i],
            ),
{
    let lines: Vec<String> = text::split(status, '\n');
    let ghost v = text::split_on(status@, '\n');
    let mut i: usize = 0;
    while i < lines.len()
        invariant
            v == text::split_on(status@, '\n'),
            text::views(lines@) == v,
            i <= lines.len(),
            forall|j: int| 0 <= j < i ==> !is_root_line(#[trigger] v[j]),
        decreases lines.len() - i,
    {
        assert(v[i as int] == lines@[i as int]@);
        let line: &str = lines[i].as_str();
        if text::starts_with(line, "Uid:") {
            let w: Vec<String> = text::split_words(line);
            assert(text::views(w@) == text::words(line@));
            assert(w@.len() == text::words(line@).len());
            if w.len() > 1 {
                assert(text::words(line@)[1] == w@[1]@);
                if text::same(w[1].as_str(), "0") {
                    assert(is_root_line(v[i as int]));
                    return true;
                }
            }
        }
        i += 1;
    }
    assert(v.len() == lines.len());
    false
}

// ---------------------------------------------------------------------------
// What is written

/// A path below a directory.
pub open spec fn below(dir: Seq<char>, rest: Seq<char>) -> Seq<char> {
    if dir.len() == 0 || dir.last() == '/' {
        dir + rest
    } else {
        dir + "/"@ + rest
    }
}

fn path_below(dir: &str, rest: &str) -> (r: String)
    ensures
        r@ == below(dir@, rest@),
{
    let c: Vec<char> = text::chars_of(dir);
    let mut s: String = dir.to_string();
    if c.len() > 0 && c[c.len() - 1] != '/' {
        s.append("/");
    }
    s.append(rest);
    s
}

pub const UNIT_HEAD: &'static str = "[Unit]\nDescription=winstats agent: resource usage for winstats on the network\nAfter=network-online.target\nWants=network-online.target\n\n[Service]\nExecStart=";

pub const UNIT_TAIL: &'static str = "\nRestart=always\nRestartSec=3\nNice=10\n\n[Install]\nWantedBy=";

/// The systemd unit.
pub open spec fn unit_text(exe: Seq<char>, config: Seq<char>, root: bool) -> Seq<char> {
    UNIT_HEAD@ + exe + " --config "@ + config + UNIT_TAIL@ + (if root {
        "multi-user.target"@
    } else {
        "default.target"@
    }) + "\n"@
}

fn unit(exe: &str, config: &str, root: bool) -> (r: String)
    ensures
        r@ == unit_text(exe@, config@, root),
{
    let mut s: String = UNIT_HEAD.to_string();
    s.append(exe);
    s.append(" --config ");
    s.append(config);
    s.append(UNIT_TAIL);
    s.append(
        if root {
            "multi-user.target"
        } else {
            "default.target"
        },
    );
    s.append("\n");
    s
}

pub const PLIST_HEAD: &'static str = "<?xml version=\"1.0\" encoding=\"UTF-8\"?>\n<!DOCTYPE plist PUBLIC \"-//Apple//DTD PLIST 1.0//EN\" \"http://www.apple.com/DTDs/PropertyList-1.0.dtd\">\n<plist version=\"1.0\">\n<dict>\n  <key>Label</key><string>org.mgvs.winstats-agent</string>\n  <key>ProgramArguments</key>\n  <array>\n    <string>";

pub const PLIST_CONFIG: &'static str = "</string>\n    <string>--config</string>\n    <string>";

pub const PLIST_LOG: &'static str = "</string>\n  </array>\n  <key>RunAtLoad</key><true/>\n  <key>KeepAlive</key><true/>\n  <key>ProcessType</key><string>Background</string>\n  <key>StandardErrorPath</key><string>";

pub const PLIST_OUT: &'static str = "</string>\n  <key>StandardOutPath</key><string>";

pub const PLIST_TAIL: &'static str = "</string>\n</dict>\n</plist>\n";

/// The LaunchAgent.
pub open spec fn plist_text(exe: Seq<char>, config: Seq<char>, log: Seq<char>) -> Seq<char> {
    PLIST_HEAD@ + exe + PLIST_CONFIG@ + config + PLIST_LOG@ + log + PLIST_OUT@ + log + PLIST_TAIL@
}

fn plist(exe: &str, config: &str, log: &str) -> (r: String)
    ensures
        r@ == plist_text(exe@, config@, log@),
{
    let mut s: String = PLIST_HEAD.to_string();
    s.append(exe);
    s.append(PLIST_CONFIG);
    s.append(config);
    s.append(PLIST_LOG);
    s.append(log);
    s.append(PLIST_OUT);
    s.append(log);
    s.append(PLIST_TAIL);
    s
}

/// The value of the Run key.
pub open spec fn run_text(exe: Seq<char>, config: Seq<char>) -> Seq<char> {
    "cmd /c start /min \"\" \""@ + exe + "\" --config \""@ + config + "\""@
}

fn run_value(exe: &str, config: &str) -> (r: String)
    ensures
        r@ == run_text(exe@, config@),
{
    let mut s: String = "cmd /c start /min \"\" \"".to_string();
    s.append(exe);
    s.append("\" --config \"");
    s.append(config);
    s.append("\"");
    s
}

pub const RUN_KEY: &'static str = "HKCU\\Software\\Microsoft\\Windows\\CurrentVersion\\Run";

pub const SYSTEM_UNIT: &'static str = "/etc/systemd/system/winstats-agent.service";

pub const USER_UNIT: &'static str = ".config/systemd/user/winstats-agent.service";

pub const AGENT_PLIST: &'static str = "Library/LaunchAgents/org.mgvs.winstats-agent.plist";

pub const AGENT_LOG: &'static str = "Library/Logs/winstats-agent.log";

// ---------------------------------------------------------------------------
// The steps

pub open spec fn run_step(program: Seq<char>, args: Seq<Seq<char>>) -> StepView {
    StepView::Run { program, args, done: Seq::empty(), failed: Seq::empty() }
}

pub open spec fn linger_note(user: Seq<char>) -> Seq<char> {
    "note: `sudo loginctl enable-linger "@ + user
        + "` lets it start at boot without a login; or run install-service with sudo for a system service"@
}

/// The steps of setting the service up. `user` is the name of the user, where
/// it is known.
pub open spec fn install_steps(
    p: Platform,
    exe: Seq<char>,
    config: Seq<char>,
    home: Option<Seq<char>>,
    user: Option<Seq<char>>,
) -> Seq<StepView> {
    let dir = match home {
        Some(h) => h,
        None => "."@,
    };
    match p {
        Platform::Linux { root } => if root {
            seq![
                StepView::Write { path: SYSTEM_UNIT@, text: unit_text(exe, config, true) },
                run_step("systemctl"@, seq!["daemon-reload"@]),
                StepView::Run {
                    program: "systemctl"@,
                    args: seq!["enable"@, "--now"@, NAME@],
                    done: "installed as a system service: systemctl status winstats-agent"@,
                    failed: Seq::empty(),
                },
            ]
        } else {
            let head = seq![
                StepView::Write {
                    path: below(dir, USER_UNIT@),
                    text: unit_text(exe, config, false),
                },
                run_step("systemctl"@, seq!["--user"@, "daemon-reload"@]),
                StepView::Run {
                    program: "systemctl"@,
                    args: seq!["--user"@, "enable"@, "--now"@, NAME@],
                    done: "installed as a user service: systemctl --user status winstats-agent"@,
                    failed: Seq::empty(),
                },
            ];
            match user {
                Some(u) => head.push(
                    StepView::Run {
                        program: "loginctl"@,
                        args: seq!["enable-linger"@, u],
                        done: Seq::empty(),
                        failed: linger_note(u),
                    },
                ),
                None => head,
            }
        },
        Platform::MacOs => {
            let path = below(dir, AGENT_PLIST@);
            let log = below(dir, AGENT_LOG@);
            seq![
                run_step("launchctl"@, seq!["unload"@, path]),
                StepView::Write { path, text: plist_text(exe, config, log) },
                StepView::Run {
                    program: "launchctl"@,
                    args: seq!["load"@, "-w"@, path],
                    done: "installed as a LaunchAgent (starts at login); log: "@ + log,
                    failed: Seq::empty(),
                },
            ]
        },
        Platform::Windows => seq![
            StepView::Run {
                program: "reg"@,
                args: seq![
                    "add"@,
                    RUN_KEY@,
                    "/v"@,
                    NAME@,
                    "/t"@,
                    "REG_SZ"@,
                    "/d"@,
                    run_text(exe, config),
                    "/f"@,
                ],
                done: "registered to start at logon (minimised console). On Windows, winstats itself can share the machine instead: Remote > Share this machine."@,
                failed: Seq::empty(),
            },
        ],
        Platform::Other => seq![
            StepView::Warn(
                "no service installer for this OS; start "@ + exe + " from your init system"@,
            ),
        ],
    }
}

/// The steps of taking the service away.
pub open spec fn uninstall_steps(p: Platform, home: Option<Seq<char>>) -> Seq<StepView> {
    match p {
        Platform::Linux { root } => if root {
            seq![
                run_step("systemctl"@, seq!["disable"@, "--now"@, NAME@]),
                StepView::Remove { path: SYSTEM_UNIT@ },
                run_step("systemctl"@, seq!["daemon-reload"@]),
                StepView::Say("removed"@),
            ]
        } else {
            let first = seq![run_step("systemctl"@, seq!["--user"@, "disable"@, "--now"@, NAME@])];
            let second = match home {
                Some(h) => first.push(StepView::Remove { path: below(h, USER_UNIT@) }),
                None => first,
            };
            second.push(run_step("systemctl"@, seq!["--user"@, "daemon-reload"@])).push(
                StepView::Say("removed"@),
            )
        },
        Platform::MacOs => {
            let path = below(
                match home {
                    Some(h) => h,
                    None => "."@,
                },
                AGENT_PLIST@,
            );
            seq![
                run_step("launchctl"@, seq!["unload"@, "-w"@, path]),
                StepView::Remove { path },
                StepView::Say("removed"@),
            ]
        },
        Platform::Windows => seq![
            run_step("reg"@, seq!["delete"@, RUN_KEY@, "/v"@, NAME@, "/f"@]),
            StepView::Say("removed"@),
        ],
        Platform::Other => Seq::empty(),
    }
}

fn push(out: &mut Vec<Step>, s: Step)
    ensures
        steps_view(final(out)@) == steps_view(old(out)@).push(step_view(s)),
{
    out.push(s);
    assert(steps_view(out@) =~= steps_view(old(out)@).push(step_view(s)));
}

fn words(w: &[&str]) -> (r: Vec<String>)
    ensures
        text::views(r@) == w@.map_values(|s: &str| s@),
{
    let mut r: Vec<String> = Vec::new();
    let mut i: usize = 0;
    while i < w.len()
        invariant
            i <= w.len(),
            r@.len() == i,
            forall|j: int| 0 <= j < i ==> (#[trigger] r@[j])@ == w@[j]@,
        decreases w.len() - i,
    {
        r.push(w[i].to_string());
        i += 1;
    }
    assert(text::views(r@) =~= w@.map_values(|s: &str| s@));
    r
}

fn run(program: &'static str, w: &[&str], done: &str, failed: &str) -> (r: Step)
    ensures
        step_view(r) == (StepView::Run {
            program: program@,
            args: w@.map_values(|s: &str| s@),
            done: done@,
            failed: failed@,
        }),
{
    Step::Run { program, args: words(w), done: done.to_string(), failed: failed.to_string() }
}

fn quietly(program: &'static str, w: &[&str]) -> (r: Step)
    ensures
        step_view(r) == run_step(program@, w@.map_values(|s: &str| s@)),
{
    let a: String = String::new();
    let b: String = String::new();
    assert(a@ =~= Seq::<char>::empty());
    assert(b@ =~= Seq::<char>::empty());
    Step::Run { program, args: words(w), done: a, failed: b }
}

fn install_system(out: &mut Vec<Step>, exe: &str, config: &str)
    ensures
        steps_view(final(out)@) == steps_view(old(out)@) + install_steps(
            Platform::Linux { root: true },
            exe@,
            config@,
            None,
            None,
        ),
{
    let ghost o = steps_view(out@);
    push(out, Step::Write { path: SYSTEM_UNIT.to_string(), text: unit(exe, config, true) });
    let a: [&str; 1] = ["daemon-reload"];
    assert(a@.map_values(|s: &str| s@) =~= seq!["daemon-reload"@]);
    push(out, quietly("systemctl", &a));
    let b: [&str; 3] = ["enable", "--now", NAME];
    assert(b@.map_values(|s: &str| s@) =~= seq!["enable"@, "--now"@, NAME@]);
    proof {
        reveal_strlit("");
        assert(""@ =~= Seq::<char>::empty());
    }
    push(
        out,
        run(
            "systemctl",
            &b,
            "installed as a system service: systemctl status winstats-agent",
            "",
        ),
    );
    assert(steps_view(out@) =~= o + install_steps(
        Platform::Linux { root: true },
        exe@,
        config@,
        None,
        None,
    ));
}

fn install_user(out: &mut Vec<Step>, exe: &str, config: &str, dir: &str, user: Option<&str>)
    ensures
        steps_view(final(out)@) == steps_view(old(out)@) + install_steps(
            Platform::Linux { root: false },
            exe@,
            config@,
            Some(dir@),
            match user {
                Some(u) => Some(u@),
                None => None,
            },
        ),
{
    let ghost o = steps_view(out@);
    let ghost u0 = match user {
        Some(u) => Some(u@),
        None => None,
    };
    push(out, Step::Write { path: path_below(dir, USER_UNIT), text: unit(exe, config, false) });
    let a: [&str; 2] = ["--user", "daemon-reload"];
    assert(a@.map_values(|s: &str| s@) =~= seq!["--user"@, "daemon-reload"@]);
    push(out, quietly("systemctl", &a));
    let b: [&str; 4] = ["--user", "enable", "--now", NAME];
    assert(b@.map_values(|s: &str| s@) =~= seq!["--user"@, "enable"@, "--now"@, NAME@]);
    proof {
        reveal_strlit("");
        assert(""@ =~= Seq::<char>::empty());
    }
    push(
        out,
        run(
            "systemctl",
            &b,
            "installed as a user service: systemctl --user status winstats-agent",
            "",
        ),
    );
    if let Some(u) = user {
        let c: [&str; 2] = ["enable-linger", u];
        assert(c@.map_values(|s: &str| s@) =~= seq!["enable-linger"@, u@]);
        let mut note: String = "note: `sudo loginctl enable-linger ".to_string();
        note.append(u);
        note.append(
            "` lets it start at boot without a login; or run install-service with sudo for a system service",
        );
        push(out, run("loginctl", &c, "", note.as_str()));
    }
    assert(steps_view(out@) =~= o + install_steps(
        Platform::Linux { root: false },
        exe@,
        config@,
        Some(dir@),
        u0,
    ));
}

fn install_mac(out: &mut Vec<Step>, exe: &str, config: &str, dir: &str)
    ensures
        steps_view(final(out)@) == steps_view(old(out)@) + install_steps(
            Platform::MacOs,
            exe@,
            config@,
            Some(dir@),
            None,
        ),
{
    let ghost o = steps_view(out@);
    let path: String = path_below(dir, AGENT_PLIST);
    let log: String = path_below(dir, AGENT_LOG);
    let a: [&str; 2] = ["unload", path.as_str()];
    assert(a@.map_values(|s: &str| s@) =~= seq!["unload"@, path@]);
    push(out, quietly("launchctl", &a));
    push(out, Step::Write { path: path.clone(), text: plist(exe, config, log.as_str()) });
    let b: [&str; 3] = ["load", "-w", path.as_str()];
    assert(b@.map_values(|s: &str| s@) =~= seq!["load"@, "-w"@, path@]);
    let mut done: String = "installed as a LaunchAgent (starts at login); log: ".to_string();
    done.append(log.as_str());
    proof {
        reveal_strlit("");
        assert(""@ =~= Seq::<char>::empty());
    }
    push(out, run("launchctl", &b, done.as_str(), ""));
    assert(steps_view(out@) =~= o + install_steps(
        Platform::MacOs,
        exe@,
        config@,
        Some(dir@),
        None,
    ));
}

fn install_windows(out: &mut Vec<Step>, exe: &str, config: &str)
    ensures
        steps_view(final(out)@) == steps_view(old(out)@) + install_steps(
            Platform::Windows,
            exe@,
            config@,
            None,
            None,
        ),
{
    let ghost o = steps_view(out@);
    let value: String = run_value(exe, config);
    let a: [&str; 9] = ["add", RUN_KEY, "/v", NAME, "/t", "REG_SZ", "/d", value.as_str(), "/f"];
    assert(a@.map_values(|s: &str| s@) =~= seq![
        "add"@,
        RUN_KEY@,
        "/v"@,
        NAME@,
        "/t"@,
        "REG_SZ"@,
        "/d"@,
        value@,
        "/f"@,
    ]);
    proof {
        reveal_strlit("");
        assert(""@ =~= Seq::<char>::empty());
    }
    push(
        out,
        run(
            "reg",
            &a,
            "registered to start at logon (minimised console). On Windows, winstats itself can share the machine instead: Remote > Share this machine.",
            "",
        ),
    );
    assert(steps_view(out@) =~= o + install_steps(Platform::Windows, exe@, config@, None, None));
}

pub open spec fn text_of(s: Option<&str>) -> Option<Seq<char>> {
    match s {
        Some(x) => Some(x@),
        None => None,
    }
}

/// The steps of setting the service up.
pub fn install(p: Platform, exe: &str, config: &str, home: Option<&str>, user: Option<&str>) -> (r:
    Vec<Step>)
    ensures
        steps_view(r@) == install_steps(p, exe@, config@, text_of(home), text_of(user)),
{
    let mut out: Vec<Step> = Vec::new();
    let ghost o = steps_view(out@);
    assert(o =~= Seq::<StepView>::empty());
    let dir: &str = match home {
        Some(h) => h,
        None => ".",
    };
    match p {
        Platform::Linux { root } => if root {
            install_system(&mut out, exe, config);
        } else {
            install_user(&mut out, exe, config, dir, user);
        },
        Platform::MacOs => {
            install_mac(&mut out, exe, config, dir);
        },
        Platform::Windows => {
            install_windows(&mut out, exe, config);
        },
        Platform::Other => {
            let mut s: String = "no service installer for this OS; start ".to_string();
            s.append(exe);
            s.append(" from your init system");
            push(&mut out, Step::Warn(s));
        },
    }
    assert(steps_view(out@) =~= install_steps(p, exe@, config@, text_of(home), text_of(user)));
    out
}

fn uninstall_user(out: &mut Vec<Step>, home: Option<&str>)
    ensures
        steps_view(final(out)@) == steps_view(old(out)@) + uninstall_steps(
            Platform::Linux { root: false },
            text_of(home),
        ),
{
    let ghost o = steps_view(out@);
    let a: [&str; 4] = ["--user", "disable", "--now", NAME];
    assert(a@.map_values(|s: &str| s@) =~= seq!["--user"@, "disable"@, "--now"@, NAME@]);
    push(out, quietly("systemctl", &a));
    if let Some(h) = home {
        push(out, Step::Remove { path: path_below(h, USER_UNIT) });
    }
    let b: [&str; 2] = ["--user", "daemon-reload"];
    assert(b@.map_values(|s: &str| s@) =~= seq!["--user"@, "daemon-reload"@]);
    push(out, quietly("systemctl", &b));
    push(out, Step::Say("removed".to_string()));
    assert(steps_view(out@) =~= o + uninstall_steps(
        Platform::Linux { root: false },
        text_of(home),
    ));
}

/// The steps of taking the service away.
pub fn uninstall(p: Platform, home: Option<&str>) -> (r: Vec<Step>)
    ensures
        steps_view(r@) == uninstall_steps(p, text_of(home)),
{
    let mut out: Vec<Step> = Vec::new();
    assert(steps_view(out@) =~= Seq::<StepView>::empty());
    match p {
        Platform::Linux { root } => if root {
            let a: [&str; 3] = ["disable", "--now", NAME];
            assert(a@.map_values(|s: &str| s@) =~= seq!["disable"@, "--now"@, NAME@]);
            push(&mut out, quietly("systemctl", &a));
            push(&mut out, Step::Remove { path: SYSTEM_UNIT.to_string() });
            let b: [&str; 1] = ["daemon-reload"];
            assert(b@.map_values(|s: &str| s@) =~= seq!["daemon-reload"@]);
            push(&mut out, quietly("systemctl", &b));
            push(&mut out, Step::Say("removed".to_string()));
        } else {
            uninstall_user(&mut out, home);
        },
        Platform::MacOs => {
            let dir: &str = match home {
                Some(h) => h,
                None => ".",
            };
            let path: String = path_below(dir, AGENT_PLIST);
            let a: [&str; 3] = ["unload", "-w", path.as_str()];
            assert(a@.map_values(|s: &str| s@) =~= seq!["unload"@, "-w"@, path@]);
            push(&mut out, quietly("launchctl", &a));
            push(&mut out, Step::Remove { path: path.clone() });
            push(&mut out, Step::Say("removed".to_string()));
        },
        Platform::Windows => {
            let a: [&str; 5] = ["delete", RUN_KEY, "/v", NAME, "/f"];
            assert(a@.map_values(|s: &str| s@) =~= seq!["delete"@, RUN_KEY@, "/v"@, NAME@, "/f"@]);
            push(&mut out, quietly("reg", &a));
            push(&mut out, Step::Say("removed".to_string()));
        },
        Platform::Other => {},
    }
    assert(steps_view(out@) =~= uninstall_steps(p, text_of(home)));
    out
}

/// The file that setting up writes.
pub open spec fn written(steps: Seq<StepView>) -> Option<Seq<char>>
    decreases steps.len(),
{
    if steps.len() == 0 {
        None
    } else {
        match steps.last() {
            StepView::Write { path, text } => Some(path),
            _ => written(steps.drop_last()),
        }
    }
}

/// A step of the list removes that file.
pub open spec fn removes(steps: Seq<StepView>, path: Seq<char>) -> bool {
    exists|i: int| 0 <= i < steps.len() && #[trigger] steps[i] == (StepView::Remove { path })
}

/// Whatever file setting up writes, taking away removes, in a known home
/// directory.
pub proof fn law_uninstall_removes_what_install_wrote(
    p: Platform,
    exe: Seq<char>,
    config: Seq<char>,
    home: Seq<char>,
    user: Option<Seq<char>>,
)
    ensures
        match written(install_steps(p, exe, config, Some(home), user)) {
            Some(path) => removes(uninstall_steps(p, Some(home)), path),
            None => true,
        },
{
    reveal_with_fuel(written, 6);
    let i = install_steps(p, exe, config, Some(home), user);
    let u = uninstall_steps(p, Some(home));
    match p {
        Platform::Linux { root } => {
            assert(i[0] is Write);
            assert(u[1] is Remove);
            if i.len() == 4 {
                assert(i.drop_last().drop_last().drop_last() =~= seq![i[0]]);
                assert(i.drop_last()[2] == i[2] && i.drop_last().drop_last()[1] == i[1]);
            } else {
                assert(i.drop_last().drop_last() =~= seq![i[0]]);
                assert(i.drop_last()[1] == i[1]);
            }
        },
        Platform::MacOs => {
            assert(i.drop_last()[1] == i[1]);
            assert(u[1] is Remove);
        },
        _ => {},
    }
}

/// The text that setting up writes.
pub open spec fn written_text(steps: Seq<StepView>, i: int) -> Seq<char> {
    match steps[i] {
        StepView::Write { path, text } => text,
        _ => Seq::empty(),
    }
}

/// What is set up starts the agent with its configuration: the unit names the
/// program and the file behind it, and so does the entry of the registry.
pub proof fn law_service_starts_the_agent(
    exe: Seq<char>,
    config: Seq<char>,
    home: Option<Seq<char>>,
    user: Option<Seq<char>>,
    root: bool,
)
    ensures
        text::has(
            written_text(install_steps(Platform::Linux { root }, exe, config, home, user), 0),
            "ExecStart="@ + exe + " --config "@ + config + "\n"@,
        ),
        text::has(
            written_text(install_steps(Platform::MacOs, exe, config, home, user), 1),
            "<string>"@ + exe + "</string>"@,
        ),
        text::has(
            written_text(install_steps(Platform::MacOs, exe, config, home, user), 1),
            "<string>"@ + config + "</string>"@,
        ),
        install_steps(Platform::Windows, exe, config, home, user)[0] matches StepView::Run {
            args,
            ..
        } && text::has(args[7], "\""@ + exe + "\" --config \""@ + config + "\""@),
{
    lemma_unit(exe, config, root);
    let dir = match home {
        Some(h) => h,
        None => "."@,
    };
    lemma_plist(exe, config, below(dir, AGENT_LOG@));
    let r = run_text(exe, config);
    let w = "\""@ + exe + "\" --config \""@ + config + "\""@;
    reveal_strlit("cmd /c start /min \"\" \"");
    reveal_strlit("\"");
    assert("cmd /c start /min \"\" \""@.len() == 22);
    assert(r.subrange(21, 21 + w.len() as int) =~= w);
    assert(text::occurs_at(r, w, 21));
}

proof fn lemma_unit(exe: Seq<char>, config: Seq<char>, root: bool)
    ensures
        text::has(
            unit_text(exe, config, root),
            "ExecStart="@ + exe + " --config "@ + config + "\n"@,
        ),
{
    let u = unit_text(exe, config, root);
    let w = "ExecStart="@ + exe + " --config "@ + config + "\n"@;
    reveal_strlit("[Unit]\nDescription=winstats agent: resource usage for winstats on the network\nAfter=network-online.target\nWants=network-online.target\n\n[Service]\nExecStart=");
    reveal_strlit("\nRestart=always\nRestartSec=3\nNice=10\n\n[Install]\nWantedBy=");
    reveal_strlit("ExecStart=");
    reveal_strlit("\n");
    let n = UNIT_HEAD@.len() as int;
    assert(UNIT_HEAD@.subrange(n - 10, n) =~= "ExecStart="@);
    assert(UNIT_TAIL@[0] == '\n');
    assert(u.subrange(n - 10, n - 10 + w.len()) =~= w) by {
        assert forall|i: int| 0 <= i < w.len() implies u[n - 10 + i] == w[i] by {
            if i < 10 {
                assert(UNIT_HEAD@[n - 10 + i] == UNIT_HEAD@.subrange(n - 10, n)[i]);
            }
        }
    }
    assert(text::occurs_at(u, w, n - 10));
}

proof fn lemma_plist(exe: Seq<char>, config: Seq<char>, log: Seq<char>)
    ensures
        text::has(plist_text(exe, config, log), "<string>"@ + exe + "</string>"@),
        text::has(plist_text(exe, config, log), "<string>"@ + config + "</string>"@),
{
    let u = plist_text(exe, config, log);
    reveal_strlit("<string>");
    reveal_strlit("</string>");
    reveal_strlit("<?xml version=\"1.0\" encoding=\"UTF-8\"?>\n<!DOCTYPE plist PUBLIC \"-//Apple//DTD PLIST 1.0//EN\" \"http://www.apple.com/DTDs/PropertyList-1.0.dtd\">\n<plist version=\"1.0\">\n<dict>\n  <key>Label</key><string>org.mgvs.winstats-agent</string>\n  <key>ProgramArguments</key>\n  <array>\n    <string>");
    reveal_strlit("</string>\n    <string>--config</string>\n    <string>");
    reveal_strlit("</string>\n  </array>\n  <key>RunAtLoad</key><true/>\n  <key>KeepAlive</key><true/>\n  <key>ProcessType</key><string>Background</string>\n  <key>StandardErrorPath</key><string>");
    let n = PLIST_HEAD@.len() as int;
    let a = PLIST_CONFIG@.len() as int;
    assert(PLIST_HEAD@.subrange(n - 8, n) =~= "<string>"@);
    assert(PLIST_CONFIG@.subrange(0, 9) =~= "</string>"@);
    assert(PLIST_CONFIG@.subrange(a - 8, a) =~= "<string>"@);
    assert(PLIST_LOG@.subrange(0, 9) =~= "</string>"@);
    let w = "<string>"@ + exe + "</string>"@;
    let m = exe.len() as int;
    assert(u.subrange(n - 8, n - 8 + w.len()) =~= w) by {
        assert forall|i: int| 0 <= i < w.len() implies u[n - 8 + i] == w[i] by {
            if i < 8 {
                assert(PLIST_HEAD@[n - 8 + i] == PLIST_HEAD@.subrange(n - 8, n)[i]);
            } else if i >= 8 + m {
                assert(PLIST_CONFIG@[i - 8 - m] == PLIST_CONFIG@.subrange(0, 9)[i - 8 - m]);
            }
        }
    }
    assert(text::occurs_at(u, w, n - 8));
    let v = "<string>"@ + config + "</string>"@;
    let k = config.len() as int;
    let at = n + m + a - 8;
    assert(u.subrange(at, at + v.len()) =~= v) by {
        assert forall|i: int| 0 <= i < v.len() implies u[at + i] == v[i] by {
            if i < 8 {
                assert(PLIST_CONFIG@[a - 8 + i] == PLIST_CONFIG@.subrange(a - 8, a)[i]);
            } else if i >= 8 + k {
                assert(PLIST_LOG@[i - 8 - k] == PLIST_LOG@.subrange(0, 9)[i - 8 - k]);
            }
        }
    }
    assert(text::occurs_at(u, v, at));
}

} // verus!
