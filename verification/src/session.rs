//! The two ends of a data connection as state machines: what a server answers
//! to each frame, and what a link does with the frames it gets.

use crate::proto::{Frame, PING_INTERVAL_SECS, VERSION};
use crate::text;
use std::collections::VecDeque;
use vstd::prelude::*;
use vstd::string::StringExecFns;

verus! {

// ---------------------------------------------------------------------------
// The serving end

/// Which program serves: an agent, or winstats sharing its own machine.
#[derive(Clone, Copy, Debug, PartialEq, Eq, Structural)]
pub enum Speaker {
    Agent,
    Winstats,
}

/// How far a session has come.
#[derive(Clone, Copy, Debug, PartialEq, Eq, Structural)]
pub enum ServerState {
    /// Nothing has been read yet.
    Greeting,
    /// The master has been accepted; snapshots flow.
    Open,
    /// Nothing more is read.
    Closed,
}

/// What the server sends back.
#[derive(Clone, Debug)]
pub enum Reply {
    /// The session is refused.
    Bye { reason: String },
    /// The master is accepted: what this machine is.
    Info,
    Pong,
    /// Popup material with this many rows.
    Details { n: usize },
}

pub open spec fn speaker_text(s: Speaker) -> Seq<char> {
    match s {
        Speaker::Agent => "agent"@,
        Speaker::Winstats => "this winstats"@,
    }
}

/// Why a first frame is refused; `None` where the master is accepted. An
/// empty token of the server's own accepts every token.
pub open spec fn refusal(frame: Frame, token: Seq<char>, speaker: Speaker) -> Option<Seq<char>> {
    match frame {
        Frame::Hello { v, client, token: presented } => if v != VERSION {
            Some(
                "protocol "@ + text::decimal(v as nat) + ", "@ + speaker_text(speaker)
                    + " speaks "@ + text::decimal(VERSION as nat),
            )
        } else if token.len() > 0 && presented@ != token {
            Some("bad token"@)
        } else {
            None
        },
        _ => Some("hello expected"@),
    }
}

/// The state after a frame.
pub open spec fn state_after(
    state: ServerState,
    frame: Frame,
    token: Seq<char>,
    speaker: Speaker,
) -> ServerState {
    match state {
        ServerState::Greeting => if refusal(frame, token, speaker).is_none() {
            ServerState::Open
        } else {
            ServerState::Closed
        },
        ServerState::Open => if frame is Bye {
            ServerState::Closed
        } else {
            ServerState::Open
        },
        ServerState::Closed => ServerState::Closed,
    }
}

/// `r` is the answer to a frame.
pub open spec fn is_answer(
    state: ServerState,
    frame: Frame,
    token: Seq<char>,
    speaker: Speaker,
    r: Option<Reply>,
) -> bool {
    match state {
        ServerState::Greeting => match refusal(frame, token, speaker) {
            None => r == Some(Reply::Info),
            Some(why) => r matches Some(Reply::Bye { reason }) && reason@ == why,
        },
        ServerState::Open => match frame {
            Frame::Ping => r == Some(Reply::Pong),
            Frame::Details(req) => r == Some(Reply::Details { n: req.n }),
            _ => r.is_none(),
        },
        ServerState::Closed => r.is_none(),
    }
}

fn version_reason(v: u32, speaker: Speaker) -> (r: String)
    ensures
        r@ == "protocol "@ + text::decimal(v as nat) + ", "@ + speaker_text(speaker)
            + " speaks "@ + text::decimal(VERSION as nat),
{
    let mut r: String = "protocol ".to_string();
    r.append(text::number(v as u64).as_str());
    r.append(", ");
    match speaker {
        Speaker::Agent => r.append("agent"),
        Speaker::Winstats => r.append("this winstats"),
    }
    r.append(" speaks ");
    r.append(text::number(VERSION as u64).as_str());
    r
}

/// Takes one frame from the master: moves the state on and gives the answer.
pub fn serve_frame(state: &mut ServerState, frame: &Frame, token: &str, speaker: Speaker) -> (r:
    Option<Reply>)
    ensures
        *final(state) == state_after(*old(state), *frame, token@, speaker),
        is_answer(*old(state), *frame, token@, speaker, r),
{
    match *state {
        ServerState::Greeting => match frame {
            Frame::Hello { v, client: _, token: presented } => {
                if *v != VERSION {
                    *state = ServerState::Closed;
                    return Some(Reply::Bye { reason: version_reason(*v, speaker) });
                }
                if text::chars_of(token).len() > 0 && !text::same(presented.as_str(), token) {
                    *state = ServerState::Closed;
                    return Some(Reply::Bye { reason: "bad token".to_string() });
                }
                *state = ServerState::Open;
                Some(Reply::Info)
            },
            _ => {
                *state = ServerState::Closed;
                Some(Reply::Bye { reason: "hello expected".to_string() })
            },
        },
        ServerState::Open => match frame {
            Frame::Ping => Some(Reply::Pong),
            Frame::Details(req) => Some(Reply::Details { n: req.n }),
            Frame::Bye { reason: _ } => {
                *state = ServerState::Closed;
                None
            },
            _ => None,
        },
        ServerState::Closed => None,
    }
}

/// Whether a snapshot still has to go out: it is not the one sent last.
pub fn snapshot_due(last_seq: &mut u64, seq: u64) -> (r: bool)
    ensures
        r == (seq != *old(last_seq)),
        *final(last_seq) == seq,
{
    if seq == *last_seq {
        false
    } else {
        *last_seq = seq;
        true
    }
}

/// The state after a list of frames.
pub open spec fn state_after_all(
    state: ServerState,
    frames: Seq<Frame>,
    token: Seq<char>,
    speaker: Speaker,
) -> ServerState
    decreases frames.len(),
{
    if frames.len() == 0 {
        state
    } else {
        state_after(
            state_after_all(state, frames.drop_last(), token, speaker),
            frames.last(),
            token,
            speaker,
        )
    }
}

/// A master is accepted exactly when its first frame is a hello of this
/// version with the token that the server asks for.
pub proof fn law_accepted_iff_hello(frame: Frame, token: Seq<char>, speaker: Speaker)
    ensures
        (state_after(ServerState::Greeting, frame, token, speaker) == ServerState::Open) <==> (
        frame matches Frame::Hello { v, client, token: presented } && v == VERSION && (token.len()
            == 0 || presented@ == token)),
{
}

/// A session that was refused stays closed and gets no further answer,
/// whatever the master sends.
pub proof fn law_refused_stays_refused(
    first: Frame,
    more: Seq<Frame>,
    token: Seq<char>,
    speaker: Speaker,
)
    requires
        refusal(first, token, speaker).is_some(),
    ensures
        state_after_all(ServerState::Greeting, seq![first] + more, token, speaker)
            == ServerState::Closed,
        forall|next: Frame, r: Option<Reply>| #[trigger]
            is_answer(
                state_after_all(ServerState::Greeting, seq![first] + more, token, speaker),
                next,
                token,
                speaker,
                r,
            ) ==> r.is_none(),
    decreases more.len(),
{
    let frames = seq![first] + more;
    if more.len() == 0 {
        assert(frames.drop_last() =~= Seq::<Frame>::empty());
        assert(frames.last() == first);
        assert(state_after_all(ServerState::Greeting, frames.drop_last(), token, speaker)
            == ServerState::Greeting);
    } else {
        assert(frames.drop_last() =~= seq![first] + more.drop_last());
        law_refused_stays_refused(first, more.drop_last(), token, speaker);
    }
}

// ---------------------------------------------------------------------------
// The master's end

#[derive(Clone, Copy, Debug, PartialEq, Eq, Structural)]
pub enum Status {
    Connecting,
    Online,
    Offline,
}

/// As many frames wait for the reader before the oldest is dropped for a new one.
pub const QUEUE_LIMIT: usize = 200;

/// What the link's threads and the reader of its frames share. Times are
/// milliseconds of a clock that never goes back.
pub struct LinkState {
    pub status: Status,
    pub frames: VecDeque<Frame>,
    /// Number of process rows wanted; taken by the writer.
    pub want_details: Option<usize>,
    pub last_rx: Option<u64>,
}

/// The queue with one frame more: the oldest leaves where it is full.
pub open spec fn queued(frames: Seq<Frame>, frame: Frame) -> Seq<Frame> {
    if frames.len() > QUEUE_LIMIT {
        frames.skip(1).push(frame)
    } else {
        frames.push(frame)
    }
}

/// The frame has led from one state to the next.
pub open spec fn is_received(
    before: LinkState,
    frame: Frame,
    now: u64,
    r: Result<(), String>,
    after: LinkState,
) -> bool {
    &&& after.want_details == before.want_details
    &&& match frame {
        Frame::Bye { reason } => {
            &&& r matches Err(e) && e@ == reason@
            &&& after == before
        },
        Frame::Pong => {
            &&& r.is_ok()
            &&& after.status == before.status
            &&& after.frames@ == before.frames@
            &&& after.last_rx == Some(now)
        },
        _ => {
            &&& r.is_ok()
            &&& after.status == Status::Online
            &&& after.frames@ == queued(before.frames@, frame)
            &&& after.last_rx == Some(now)
        },
    }
}

/// `r` is what the writer has to send.
pub open spec fn is_taken(
    before: LinkState,
    last_ping: u64,
    now: u64,
    r: (Option<usize>, bool),
    after: LinkState,
    ping_after: u64,
) -> bool {
    &&& r.0 == before.want_details
    &&& after.want_details.is_none()
    &&& after.status == before.status
    &&& after.frames == before.frames
    &&& after.last_rx == before.last_rx
    &&& r.1 == (now - last_ping >= PING_INTERVAL_SECS * 1000)
    &&& ping_after == (if r.1 {
        now
    } else {
        last_ping
    })
}

impl LinkState {
    /// Never more frames wait than one above the limit.
    pub open spec fn wf(self) -> bool {
        self.frames@.len() <= QUEUE_LIMIT + 1
    }

    pub fn new() -> (r: LinkState)
        ensures
            r.wf(),
            r.status == Status::Connecting,
            r.frames@ == Seq::<Frame>::empty(),
            r.want_details.is_none(),
            r.last_rx.is_none(),
    {
        LinkState {
            status: Status::Connecting,
            frames: VecDeque::new(),
            want_details: None,
            last_rx: None,
        }
    }

    /// Takes a frame from the agent. A `Bye` ends the session with its reason
    /// and changes nothing; a `Pong` counts as a sign of life; every other
    /// frame is queued and shows that the agent is online.
    pub fn receive(&mut self, frame: Frame, now: u64) -> (r: Result<(), String>)
        requires
            old(self).wf(),
        ensures
            final(self).wf(),
            is_received(*old(self), frame, now, r, *final(self)),
    {
        match frame {
            Frame::Bye { reason } => Err(reason),
            Frame::Pong => {
                self.last_rx = Some(now);
                Ok(())
            },
            other => {
                self.status = Status::Online;
                self.last_rx = Some(now);
                if self.frames.len() > QUEUE_LIMIT {
                    let _oldest: Option<Frame> = self.frames.pop_front();
                }
                self.frames.push_back(other);
                assert(self.frames@ =~= queued(old(self).frames@, frame));
                Ok(())
            },
        }
    }

    /// Takes what the writer has to send now: a request for details, and
    /// whether a ping is due.
    pub fn to_send(&mut self, last_ping: &mut u64, now: u64) -> (r: (Option<usize>, bool))
        ensures
            is_taken(*old(self), *old(last_ping), now, r, *final(self), *final(last_ping)),
    {
        let want: Option<usize> = self.want_details;
        self.want_details = None;
        let due: bool = now >= *last_ping && now - *last_ping >= PING_INTERVAL_SECS * 1000;
        if due {
            *last_ping = now;
        }
        (want, due)
    }
}

/// However many frames arrive, the one that came last is kept, and the queue
/// stays within its bound.
pub proof fn law_queue_keeps_newest(frames: Seq<Frame>, frame: Frame)
    requires
        frames.len() <= QUEUE_LIMIT + 1,
    ensures
        queued(frames, frame).last() == frame,
        queued(frames, frame).len() <= QUEUE_LIMIT + 1,
        queued(frames, frame).len() > 0,
        forall|i: int|
            1 <= i < frames.len() ==> queued(frames, frame).contains(#[trigger] frames[i]),
{
    let q = queued(frames, frame);
    assert forall|i: int| 1 <= i < frames.len() implies q.contains(#[trigger] frames[i]) by {
        if frames.len() > QUEUE_LIMIT {
            assert(q[i - 1] == frames[i]);
        } else {
            assert(q[i] == frames[i]);
        }
    }
}

/// A master that prints what arrives: it asks for details once, when the first
/// sample is there, and pings from time to time.
pub struct Watch {
    pub asked: bool,
    /// When it last pinged, in milliseconds.
    pub last_ping: u64,
}

/// What a watching master does after a frame.
#[derive(Clone, Copy, Debug, PartialEq, Eq, Structural)]
pub struct WatchStep {
    pub ask: bool,
    pub ping: bool,
    pub end: bool,
}

/// Master `b` is what master `a` becomes by a frame; `r` is what it does.
pub open spec fn is_watched(a: Watch, frame: Frame, now: u64, r: WatchStep, b: Watch) -> bool {
    &&& r.end == (frame is Bye)
    &&& r.ask == (frame is Snapshot && !a.asked)
    &&& r.ping == (!r.end && now - a.last_ping >= PING_INTERVAL_SECS * 1000)
    &&& b.asked == (a.asked || r.ask)
    &&& b.last_ping == (if r.ping {
        now
    } else {
        a.last_ping
    })
}

impl Watch {
    pub fn new(now: u64) -> (r: Watch)
        ensures
            !r.asked,
            r.last_ping == now,
    {
        Watch { asked: false, last_ping: now }
    }

    /// Takes a frame: the other end's goodbye ends it.
    pub fn step(&mut self, frame: &Frame, now: u64) -> (r: WatchStep)
        ensures
            is_watched(*old(self), *frame, now, r, *final(self)),
    {
        let end: bool = matches!(frame, Frame::Bye { .. });
        let ask: bool = matches!(frame, Frame::Snapshot(_)) && !self.asked;
        let ping: bool = !end && now >= self.last_ping && now - self.last_ping
            >= PING_INTERVAL_SECS * 1000;
        self.asked = self.asked || ask;
        if ping {
            self.last_ping = now;
        }
        WatchStep { ask, ping, end }
    }
}

/// How often details are asked for while frames arrive.
pub open spec fn times_asked(asked: bool, frames: Seq<Frame>) -> nat
    decreases frames.len(),
{
    if frames.len() == 0 {
        0
    } else if frames[0] is Snapshot && !asked {
        1 + times_asked(true, frames.skip(1))
    } else {
        times_asked(asked, frames.skip(1))
    }
}

/// However many frames arrive, details are asked for once at most, and that as
/// soon as a sample is among them.
pub proof fn law_watch_asks_once(asked: bool, frames: Seq<Frame>)
    ensures
        times_asked(asked, frames) == (if !asked && exists|i: int|
            0 <= i < frames.len() && #[trigger] frames[i] is Snapshot {
            1nat
        } else {
            0nat
        }),
    decreases frames.len(),
{
    if frames.len() > 0 {
        let rest = frames.skip(1);
        let takes = frames[0] is Snapshot && !asked;
        law_watch_asks_once(asked || takes, rest);
        if exists|i: int| 0 <= i < frames.len() && #[trigger] frames[i] is Snapshot {
            let i = choose|i: int| 0 <= i < frames.len() && #[trigger] frames[i] is Snapshot;
            if i > 0 {
                assert(rest[i - 1] is Snapshot);
            }
        }
        if exists|i: int| 0 <= i < rest.len() && #[trigger] rest[i] is Snapshot {
            let i = choose|i: int| 0 <= i < rest.len() && #[trigger] rest[i] is Snapshot;
            assert(frames[i + 1] is Snapshot);
        }
    }
}

/// Longest wait between two attempts, in seconds.
pub const MAX_BACKOFF: u64 = 30;

/// `r` is the wait after a session and the backoff that then stands.
pub open spec fn is_backoff(backoff: u64, ended_well: bool, r: (u64, u64)) -> bool {
    &&& r.0 == (if ended_well {
        1
    } else {
        backoff
    })
    &&& r.1 == (if 2 * r.0 < MAX_BACKOFF {
        2 * r.0
    } else {
        MAX_BACKOFF as int
    })
}

/// The seconds to wait after a session, and the backoff that then stands: a
/// session that ended well starts over at one second, and every wait doubles
/// the next up to the longest.
pub fn backoff_step(backoff: u64, ended_well: bool) -> (r: (u64, u64))
    requires
        1 <= backoff <= MAX_BACKOFF,
    ensures
        is_backoff(backoff, ended_well, r),
        1 <= r.1 <= MAX_BACKOFF,
{
    let wait: u64 = if ended_well {
        1
    } else {
        backoff
    };
    let next: u64 = if wait * 2 < MAX_BACKOFF {
        wait * 2
    } else {
        MAX_BACKOFF
    };
    (wait, next)
}

/// Frames that arrive one behind the other wait in this order at the end of the
/// queue; every frame but a goodbye is a sign of life, a frame that is no answer
/// to a ping shows that the machine is online, and a goodbye ends the session
/// with its reason.
pub proof fn law_frames_wait_in_order(
    before: LinkState,
    a: Frame,
    earlier: u64,
    ra: Result<(), String>,
    between: LinkState,
    b: Frame,
    now: u64,
    rb: Result<(), String>,
    after: LinkState,
)
    requires
        before.wf(),
        is_received(before, a, earlier, ra, between),
        is_received(between, b, now, rb, after),
    ensures
        !(a is Bye) && !(a is Pong) ==> between.frames@.last() == a && between.status
            == Status::Online,
        !(a is Bye) && !(a is Pong) && !(b is Bye) && !(b is Pong) ==> after.frames@.len() >= 2
            && after.frames@[after.frames@.len() - 2] == a && after.frames@.last() == b,
        !(b is Bye) ==> rb.is_ok() && after.last_rx == Some(now),
        b is Pong ==> after.frames@ == between.frames@ && after.status == between.status,
        b matches Frame::Bye { reason } ==> rb.is_err() && rb->Err_0@ == reason@ && after == between,
        after.want_details == before.want_details,
{
}

/// Pings are never closer than five seconds, and one is due as soon as five have
/// gone by; a request for details is sent once.
pub proof fn law_pings_keep_their_distance(
    s0: LinkState,
    p0: u64,
    earlier: u64,
    first: (Option<usize>, bool),
    s1: LinkState,
    p1: u64,
    now: u64,
    second: (Option<usize>, bool),
    s2: LinkState,
    p2: u64,
)
    requires
        is_taken(s0, p0, earlier, first, s1, p1),
        is_taken(s1, p1, now, second, s2, p2),
    ensures
        first.1 && second.1 ==> now - earlier >= 5_000,
        first.1 && now - earlier >= 5_000 ==> second.1,
        first.0 == s0.want_details,
        second.0.is_none(),
        s2.frames == s0.frames && s2.status == s0.status,
{
}

/// After sessions that fail, every wait is twice the one before, up to thirty
/// seconds; a session that ended well is followed by a wait of one second, and
/// the waits double again from there.
pub proof fn law_waits_double(
    backoff: u64,
    ended_well: bool,
    first: (u64, u64),
    second: (u64, u64),
)
    requires
        1 <= backoff <= 30,
        is_backoff(backoff, ended_well, first),
        is_backoff(first.1, false, second),
    ensures
        ended_well ==> first.0 == 1 && second.0 == 2,
        !ended_well ==> first.0 == backoff,
        first.0 <= 15 ==> second.0 == 2 * first.0,
        first.0 >= 15 ==> second.0 == 30,
        1 <= first.0 <= 30 && 1 <= second.0 <= 30,
{
}

/// An open session answers each ping with a pong and each request for details
/// with as many rows as were asked for, and stays open until a goodbye; an
/// accepted master is told what the machine is.
pub proof fn law_open_session_answers(
    frame: Frame,
    token: Seq<char>,
    speaker: Speaker,
    r: Option<Reply>,
)
    ensures
        is_answer(ServerState::Open, frame, token, speaker, r) ==> {
            &&& frame is Ping ==> r == Some(Reply::Pong)
            &&& frame matches Frame::Details(req) ==> r == Some(Reply::Details { n: req.n })
            &&& !(frame is Ping) && !(frame is Details) ==> r.is_none()
        },
        state_after(ServerState::Open, frame, token, speaker) == ServerState::Closed <==> frame is Bye,
        is_answer(ServerState::Greeting, frame, token, speaker, r) ==> (r == Some(Reply::Info) <==> (
        frame matches Frame::Hello { v, client, token: presented } && v == VERSION && (token.len()
            == 0 || presented@ == token))),
        is_answer(ServerState::Closed, frame, token, speaker, r) ==> r.is_none(),
{
}

/// A watching master asks with the first sample and never again, ends with the
/// goodbye alone, and two pings of it are five seconds apart at least.
pub proof fn law_watching_master_keeps_its_pace(
    a: Watch,
    first: Frame,
    t: u64,
    x: WatchStep,
    b: Watch,
    second: Frame,
    u: u64,
    y: WatchStep,
    c: Watch,
)
    requires
        is_watched(a, first, t, x, b),
        is_watched(b, second, u, y, c),
    ensures
        !(x.ask && y.ask),
        first is Snapshot ==> b.asked && !y.ask,
        !a.asked && !(first is Snapshot) && second is Snapshot ==> !x.ask && y.ask,
        x.end == (first is Bye) && y.end == (second is Bye),
        x.ping && y.ping ==> u - t >= 5000,
        x.ping ==> !x.end && t - a.last_ping >= 5000,
        !(first is Bye) && t - a.last_ping >= 5000 ==> x.ping,
{
}

} // verus!
