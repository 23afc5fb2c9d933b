//! Wire types shared by the master and its agents, and the framing of the
//! data stream.
//!
//! Discovery: an agent multicasts a [`Beacon`] to `MULTICAST_ADDR`:`BEACON_PORT`
//! every `BEACON_INTERVAL_SECS` seconds.
//!
//! Data: TCP on the agent's port; every frame is a length of four bytes, the
//! lowest first, and then the body, one encoded [`Frame`]. The master sends
//! `Hello` first, the agent answers with `Info` and then streams `Snapshot`
//! once per interval; `Details` is request and response while a popup is open;
//! `Ping` and `Pong` detect a dead link.

use crate::number::{Double, Single};
use crate::text;
use vstd::prelude::*;
use vstd::string::StringExecFns;

verus! {

pub const VERSION: u32 = 1;

pub const MULTICAST_ADDR: &'static str = "239.255.77.77";

pub const BEACON_PORT: u16 = 47777;

pub const DATA_PORT: u16 = 47778;

pub const BEACON_INTERVAL_SECS: u64 = 2;

/// An agent that has not been heard from for this long is considered gone.
pub const BEACON_TIMEOUT_SECS: u64 = 10;

pub const PING_INTERVAL_SECS: u64 = 5;

/// Upper bound for one frame; everything bigger is a protocol error.
pub const MAX_FRAME: usize = 4194304;

/// Presence announcement, one datagram, no reply.
#[derive(Clone, Debug, PartialEq)]
pub struct Beacon {
    pub v: u32,
    /// Stable per agent installation.
    pub id: String,
    pub name: String,
    pub os: String,
    pub arch: String,
    /// TCP port of the data stream.
    pub port: u16,
    pub agent: String,
    /// Current load from 0 to 1, so that the master can show it before connecting.
    pub cpu: Single,
    pub mem: Single,
}

impl Beacon {
    pub fn copy(&self) -> (r: Beacon)
        ensures
            r == *self,
    {
        Beacon {
            v: self.v,
            id: self.id.clone(),
            name: self.name.clone(),
            os: self.os.clone(),
            arch: self.arch.clone(),
            port: self.port,
            agent: self.agent.clone(),
            cpu: self.cpu,
            mem: self.mem,
        }
    }
}

/// One logical CPU's efficiency class (0 is the efficient or only class, higher is faster).
pub type CoreClass = u8;

#[derive(Clone, Debug, Default, PartialEq)]
pub struct DiskInfo {
    /// Stable id on the agent ("nvme0n1", "disk0", "PhysicalDrive0").
    pub id: String,
    pub model: String,
    pub bus: String,
    pub size: u64,
}

#[derive(Clone, Debug, Default, PartialEq)]
pub struct IfaceInfo {
    /// Interface name ("eth0", "en0", "Wi-Fi").
    pub id: String,
    /// "Ethernet", "Wi-Fi", "Mobile", "Bluetooth" or "".
    pub kind: String,
    pub mac: String,
}

/// What the agent is and what it can report; sent once after `Hello`.
#[derive(Clone, Debug, Default, PartialEq)]
pub struct Info {
    pub v: u32,
    pub id: String,
    pub name: String,
    pub os: String,
    /// "Ubuntu 22.04", "macOS 15.7", "Windows 11".
    pub os_version: String,
    pub arch: String,
    pub agent: String,
    pub cpu_name: String,
    pub cores: usize,
    /// Per logical core, as many as `cores` (all zero when unknown).
    pub classes: Vec<CoreClass>,
    /// Cluster index per logical core; empty when unknown.
    pub clusters: Vec<u8>,
    pub sockets: usize,
    pub mem_total: u64,
    pub swap_total: u64,
    pub disks: Vec<DiskInfo>,
    pub ifaces: Vec<IfaceInfo>,
    /// Modules the agent fills: "cpu", "mem", "net", "disk", "gpu", "battery", "temp".
    pub has: Vec<String>,
}

#[derive(Clone, Debug, Default, PartialEq)]
pub struct CpuSample {
    /// From 0 to 1.
    pub total: Single,
    pub sys: Single,
    pub user: Single,
    /// Per logical core, from 0 to 1.
    pub cores: Vec<Single>,
    /// Current clock per logical core in MHz; empty when the agent cannot read it.
    pub freq: Vec<u32>,
}

#[derive(Clone, Copy, Debug, Default, PartialEq, Eq, Structural)]
pub struct MemSample {
    pub used: u64,
    pub avail: u64,
    pub swap_used: u64,
}

#[derive(Clone, Debug, Default, PartialEq)]
pub struct NetSample {
    pub id: String,
    /// Bytes per second.
    pub rx: Double,
    pub tx: Double,
    pub up: bool,
}

#[derive(Clone, Debug, Default, PartialEq)]
pub struct DiskSample {
    pub id: String,
    /// Bytes per second.
    pub r: Double,
    pub w: Double,
}

#[derive(Clone, Copy, Debug, Default, PartialEq, Eq, Structural)]
pub struct GpuSample {
    /// From 0 to 1.
    pub load: Single,
    pub vram_used: u64,
    pub vram_total: u64,
}

#[derive(Clone, Copy, Debug, Default, PartialEq, Eq, Structural)]
pub struct BatterySample {
    /// From 0 to 1.
    pub level: Single,
    pub charging: bool,
    pub on_ac: bool,
    pub remaining_secs: Option<u32>,
}

#[derive(Clone, Debug, Default, PartialEq)]
pub struct TempSample {
    pub id: String,
    /// Degrees Celsius.
    pub c: Single,
}

/// One second of the machine; only rates and fractions, the master keeps the history.
#[derive(Clone, Debug, Default, PartialEq)]
pub struct Snapshot {
    /// Grows by one per sample, so that a lost frame is told from a pause.
    pub seq: u64,
    pub cpu: CpuSample,
    pub mem: MemSample,
    pub net: Vec<NetSample>,
    pub disk: Vec<DiskSample>,
    pub gpu: Option<GpuSample>,
    pub battery: Option<BatterySample>,
    pub temp: Vec<TempSample>,
    /// Load averages over 1, 5 and 15 minutes where the system has them.
    pub load: Vec<Single>,
}

#[derive(Clone, Debug, Default, PartialEq)]
pub struct ProcSample {
    pub pid: u32,
    pub name: String,
    /// From 0 to 1 of the whole machine.
    pub cpu: Single,
    /// Resident bytes.
    pub mem: u64,
    /// Bytes per second read and written.
    pub io: Double,
}

#[derive(Clone, Debug, Default, PartialEq)]
pub struct DriveSample {
    /// Mount point or letter.
    pub id: String,
    pub label: String,
    pub fs: String,
    pub kind: String,
    pub readonly: bool,
    pub total: u64,
    pub free: u64,
}

/// Popup material; requested by the master while a popup is open.
#[derive(Clone, Debug, Default, PartialEq)]
pub struct Details {
    /// How many rows the master wants.
    pub n: usize,
    pub top_cpu: Vec<ProcSample>,
    pub top_mem: Vec<ProcSample>,
    pub top_io: Vec<ProcSample>,
    pub drives: Vec<DriveSample>,
    /// IPv4 address per interface id.
    pub ips: Vec<(String, String)>,
    /// Wi-Fi network per interface id.
    pub ssids: Vec<(String, String)>,
}

#[derive(Clone, Debug, PartialEq)]
pub enum Frame {
    Hello { v: u32, client: String, token: String },
    Info(Info),
    Snapshot(Snapshot),
    /// From the master a request (only `n` matters); from the agent the answer.
    Details(Details),
    Ping,
    Pong,
    /// The session is refused (bad token, unsupported version) or ended.
    Bye { reason: String },
}

// ---------------------------------------------------------------------------
// Framing

/// A number in four bytes, the lowest first; what does not fit is cut off.
pub open spec fn le_bytes(n: nat) -> Seq<u8> {
    seq![
        (n % 256) as u8,
        (n / 0x100 % 256) as u8,
        (n / 0x1_0000 % 256) as u8,
        (n / 0x100_0000 % 256) as u8,
    ]
}

/// The number that four bytes hold, the lowest first.
pub open spec fn le_value(b: Seq<u8>) -> nat {
    (b[0] + 0x100 * b[1] + 0x1_0000 * b[2] + 0x100_0000 * b[3]) as nat
}

/// Writing a number and reading it back gives the number, where it fits.
pub proof fn lemma_le_round_trip(n: nat)
    requires
        n < 0x1_0000_0000,
    ensures
        le_value(le_bytes(n)) == n,
{
    let b0 = n % 256;
    let b1 = n / 0x100 % 256;
    let b2 = n / 0x1_0000 % 256;
    let b3 = n / 0x100_0000 % 256;
    assert(n == b0 + 0x100 * b1 + 0x1_0000 * b2 + 0x100_0000 * b3);
}

/// One frame on the wire: the length of the body, and the body.
pub open spec fn frame_bytes(body: Seq<u8>) -> Seq<u8> {
    le_bytes(body.len()) + body
}

/// Why no frame could be read.
#[derive(Clone, Copy, Debug, PartialEq, Eq, Structural)]
pub enum FrameError {
    /// The stream ends inside the frame.
    UnexpectedEnd,
    /// The announced length is above `MAX_FRAME`.
    TooLong { len: usize },
}

/// What reading one frame off the front of a stream gives: the body and the
/// number of bytes taken.
pub open spec fn frame_read(stream: Seq<u8>) -> Result<(Seq<u8>, int), FrameError> {
    let n = le_value(stream.take(4)) as int;
    if stream.len() < 4 {
        Err(FrameError::UnexpectedEnd)
    } else if n > MAX_FRAME {
        Err(FrameError::TooLong { len: n as usize })
    } else if stream.len() < 4 + n {
        Err(FrameError::UnexpectedEnd)
    } else {
        Ok((stream.subrange(4, 4 + n), 4 + n))
    }
}

/// The length that a frame's prefix announces, or its refusal.
pub fn frame_len(prefix: [u8; 4]) -> (r: Result<usize, FrameError>)
    ensures
        le_value(prefix@) <= MAX_FRAME ==> r == Ok::<usize, FrameError>(le_value(prefix@) as usize),
        le_value(prefix@) > MAX_FRAME ==> r == Err::<usize, FrameError>(
            FrameError::TooLong { len: le_value(prefix@) as usize },
        ),
{
    let n: usize = prefix[0] as usize + 0x100 * (prefix[1] as usize) + 0x1_0000 * (
    prefix[2] as usize) + 0x100_0000 * (prefix[3] as usize);
    if n > MAX_FRAME {
        Err(FrameError::TooLong { len: n })
    } else {
        Ok(n)
    }
}

/// Appends one frame with the given body.
pub fn write_frame(out: &mut Vec<u8>, body: &[u8])
    ensures
        final(out)@ == old(out)@ + frame_bytes(body@),
{
    let n: u64 = body.len() as u64;
    out.push((n % 256) as u8);
    out.push((n / 0x100 % 256) as u8);
    out.push((n / 0x1_0000 % 256) as u8);
    out.push((n / 0x100_0000 % 256) as u8);
    assert(out@ =~= old(out)@ + le_bytes(body@.len()));
    let ghost head = out@;
    let mut i: usize = 0;
    while i < body.len()
        invariant
            i <= body.len(),
            out@ == head + body@.take(i as int),
        decreases body.len() - i,
    {
        out.push(body[i]);
        i += 1;
    }
    assert(out@ =~= old(out)@ + frame_bytes(body@));
}

/// Reads one frame off the stream from `pos` on: its body, and the position
/// behind it.
pub fn read_frame(stream: &[u8], pos: usize) -> (r: Result<(Vec<u8>, usize), FrameError>)
    requires
        pos <= stream@.len(),
    ensures
        match r {
            Ok((body, next)) => frame_read(stream@.skip(pos as int)) == Ok::<
                (Seq<u8>, int),
                FrameError,
            >((body@, next - pos)) && next <= stream@.len(),
            Err(e) => frame_read(stream@.skip(pos as int)) == Err::<(Seq<u8>, int), FrameError>(e),
        },
{
    let ghost rest = stream@.skip(pos as int);
    if stream.len() - pos < 4 {
        return Err(FrameError::UnexpectedEnd);
    }
    let prefix: [u8; 4] = [stream[pos], stream[pos + 1], stream[pos + 2], stream[pos + 3]];
    assert(rest.take(4) =~= prefix@);
    let n: usize = match frame_len(prefix) {
        Ok(n) => n,
        Err(e) => {
            return Err(e);
        },
    };
    if stream.len() - pos - 4 < n {
        return Err(FrameError::UnexpectedEnd);
    }
    let mut body: Vec<u8> = Vec::new();
    let mut i: usize = 0;
    while i < n
        invariant
            i <= n,
            rest == stream@.skip(pos as int),
            pos + 4 + n <= stream.len(),
            body@ == rest.subrange(4, 4 + i),
        decreases n - i,
    {
        body.push(stream[pos + 4 + i]);
        i += 1;
    }
    Ok((body, pos + 4 + n))
}

/// The text of the error for a frame that is too long.
pub open spec fn too_long_text(len: nat) -> Seq<char> {
    "frame of "@ + text::decimal(len) + " bytes"@
}

pub fn too_long_message(len: usize) -> (r: String)
    ensures
        r@ == too_long_text(len as nat),
{
    let mut r: String = "frame of ".to_string();
    r.append(text::number(len as u64).as_str());
    r.append(" bytes");
    r
}

/// What was written as a frame is read back as it was, whatever follows it,
/// and exactly its own bytes are taken.
pub proof fn law_frame_round_trip(body: Seq<u8>, rest: Seq<u8>)
    requires
        body.len() <= MAX_FRAME,
    ensures
        frame_read(frame_bytes(body) + rest) == Ok::<(Seq<u8>, int), FrameError>(
            (body, frame_bytes(body).len() as int),
        ),
{
    let stream = frame_bytes(body) + rest;
    lemma_le_round_trip(body.len());
    assert(stream.take(4) =~= le_bytes(body.len()));
    assert(stream.subrange(4, 4 + body.len() as int) =~= body);
}

/// The frames of a list of bodies, one after the other.
pub open spec fn stream_bytes(bodies: Seq<Seq<u8>>) -> Seq<u8>
    decreases bodies.len(),
{
    if bodies.len() == 0 {
        Seq::empty()
    } else {
        frame_bytes(bodies[0]) + stream_bytes(bodies.skip(1))
    }
}

/// The bodies that reading a stream frame by frame gives, up to its end or
/// the first error.
pub open spec fn read_all(stream: Seq<u8>) -> Seq<Seq<u8>>
    decreases stream.len(),
{
    match frame_read(stream) {
        Ok((body, used)) => seq![body] + read_all(stream.skip(used)),
        Err(_) => Seq::empty(),
    }
}

/// A stream of frames is read back as the bodies that were written, in order.
pub proof fn law_stream_round_trip(bodies: Seq<Seq<u8>>)
    requires
        forall|i: int| 0 <= i < bodies.len() ==> (#[trigger] bodies[i]).len() <= MAX_FRAME,
    ensures
        read_all(stream_bytes(bodies)) == bodies,
    decreases bodies.len(),
{
    if bodies.len() > 0 {
        let rest = stream_bytes(bodies.skip(1));
        law_frame_round_trip(bodies[0], rest);
        law_stream_round_trip(bodies.skip(1));
        let s = stream_bytes(bodies);
        assert(s.skip(frame_bytes(bodies[0]).len() as int) =~= rest);
        assert(seq![bodies[0]] + bodies.skip(1) =~= bodies);
    } else {
        assert(stream_bytes(bodies).len() == 0);
        assert(read_all(stream_bytes(bodies)) =~= bodies);
    }
}

/// A frame whose announced length is above the bound is refused, whatever
/// follows the length.
pub proof fn law_too_long_is_refused(len: nat, rest: Seq<u8>)
    requires
        MAX_FRAME < len < 0x1_0000_0000,
    ensures
        frame_read(le_bytes(len) + rest) == Err::<(Seq<u8>, int), FrameError>(
            FrameError::TooLong { len: len as usize },
        ),
{
    lemma_le_round_trip(len);
    assert((le_bytes(len) + rest).take(4) =~= le_bytes(len));
}

} // verus!
