//! Frames on the wire, both ends of a session, and the ids of agents.

use winstats::number::Single;
use winstats::proto::{
    frame_len, read_frame, too_long_message, write_frame, Beacon, CpuSample, Details, Frame,
    FrameError, Snapshot, BEACON_PORT, DATA_PORT, MAX_FRAME, VERSION,
};
use winstats::session::{
    backoff_step, serve_frame, snapshot_due, LinkState, Reply, ServerState, Speaker, Status,
    Watch, MAX_BACKOFF, QUEUE_LIMIT,
};

fn single(x: f32) -> Single {
    Single { bits: x.to_bits() }
}

fn hello(v: u32, token: &str) -> Frame {
    Frame::Hello { v, client: "test".to_string(), token: token.to_string() }
}

fn object(fields: Vec<(&str, serde_json::Value)>) -> serde_json::Value {
    let mut map = serde_json::Map::new();
    for (key, value) in fields {
        map.insert(key.to_string(), value);
    }
    serde_json::Value::Object(map)
}

/// The JSON body of a frame, as it goes over the wire.
fn body_of(f: &Frame) -> Vec<u8> {
    let number = |n: u64| serde_json::Value::from(n);
    let real = |s: Single| serde_json::Value::from(f32::from_bits(s.bits));
    let text = |s: &str| serde_json::Value::from(s);
    let value = match f {
        Frame::Hello { v, client, token } => object(vec![
            ("t", text("hello")),
            ("v", number(*v as u64)),
            ("client", text(client)),
            ("token", text(token)),
        ]),
        Frame::Snapshot(s) => object(vec![
            ("t", text("snapshot")),
            ("seq", number(s.seq)),
            (
                "cpu",
                object(vec![
                    ("total", real(s.cpu.total)),
                    (
                        "cores",
                        serde_json::Value::Array(s.cpu.cores.iter().map(|c| real(*c)).collect()),
                    ),
                ]),
            ),
        ]),
        Frame::Ping => object(vec![("t", text("ping"))]),
        Frame::Bye { reason } => object(vec![("t", text("bye")), ("reason", text(reason))]),
        _ => panic!("not written here"),
    };
    serde_json::to_vec(&value).unwrap()
}

fn frame_of(body: &[u8]) -> Frame {
    let value: serde_json::Value = serde_json::from_slice(body).unwrap();
    let real = |v: &serde_json::Value| single(v.as_f64().unwrap() as f32);
    let text = |k: &str| value[k].as_str().unwrap().to_string();
    match value["t"].as_str().unwrap() {
        "hello" => Frame::Hello {
            v: value["v"].as_u64().unwrap() as u32,
            client: text("client"),
            token: text("token"),
        },
        "snapshot" => Frame::Snapshot(Snapshot {
            seq: value["seq"].as_u64().unwrap(),
            cpu: CpuSample {
                total: real(&value["cpu"]["total"]),
                cores: value["cpu"]["cores"].as_array().unwrap().iter().map(real).collect(),
                ..Default::default()
            },
            ..Default::default()
        }),
        "ping" => Frame::Ping,
        "bye" => Frame::Bye { reason: text("reason") },
        other => panic!("{}", other),
    }
}

#[test]
fn frame_roundtrip() {
    let mut buf = Vec::new();
    let frames = vec![
        Frame::Hello { v: VERSION, client: "test".into(), token: String::new() },
        Frame::Snapshot(Snapshot {
            seq: 7,
            cpu: CpuSample {
                total: single(0.5),
                cores: vec![single(0.1), single(0.9)],
                ..Default::default()
            },
            ..Default::default()
        }),
        Frame::Ping,
        Frame::Bye { reason: "no".into() },
    ];
    for f in &frames {
        write_frame(&mut buf, &body_of(f));
    }
    let mut pos = 0;
    for f in &frames {
        let (body, next) = read_frame(&buf, pos).unwrap();
        assert_eq!(&frame_of(&body), f);
        pos = next;
    }
    assert_eq!(pos, buf.len());
}

#[test]
fn frames_on_the_wire() {
    let mut buf = vec![9];
    write_frame(&mut buf, b"{\"t\":\"ping\"}");
    assert_eq!(&buf[..5], &[9, 12, 0, 0, 0]);
    assert_eq!(&buf[5..], b"{\"t\":\"ping\"}");
    assert_eq!(read_frame(&buf, 1).unwrap(), (b"{\"t\":\"ping\"}".to_vec(), buf.len()));
    let mut empty = Vec::new();
    write_frame(&mut empty, b"");
    assert_eq!(empty, vec![0, 0, 0, 0]);
    assert_eq!(read_frame(&empty, 0).unwrap(), (Vec::new(), 4));
}

#[test]
fn broken_streams_are_refused() {
    assert_eq!(read_frame(b"", 0), Err(FrameError::UnexpectedEnd));
    assert_eq!(read_frame(&[1, 0, 0], 0), Err(FrameError::UnexpectedEnd));
    assert_eq!(read_frame(&[5, 0, 0, 0, 1, 2], 0), Err(FrameError::UnexpectedEnd));
    assert_eq!(frame_len([0, 0, 0x40, 0]), Ok(MAX_FRAME));
    assert_eq!(frame_len([1, 0, 0x40, 0]), Err(FrameError::TooLong { len: MAX_FRAME + 1 }));
    assert_eq!(
        read_frame(&[255, 255, 255, 255, 1], 0),
        Err(FrameError::TooLong { len: 4294967295 })
    );
    assert_eq!(too_long_message(MAX_FRAME + 1), "frame of 4194305 bytes");
    assert_eq!(MAX_FRAME, 4 * 1024 * 1024);
    assert_eq!((BEACON_PORT, DATA_PORT), (47777, 47778));
}

#[test]
fn master_with_the_token_is_accepted() {
    let mut st = ServerState::Greeting;
    assert!(matches!(
        serve_frame(&mut st, &hello(VERSION, "secret"), "secret", Speaker::Agent),
        Some(Reply::Info)
    ));
    assert_eq!(st, ServerState::Open);
    assert!(matches!(
        serve_frame(&mut st, &Frame::Ping, "secret", Speaker::Agent),
        Some(Reply::Pong)
    ));
    let want = Frame::Details(Details { n: 8, ..Default::default() });
    assert!(matches!(
        serve_frame(&mut st, &want, "secret", Speaker::Agent),
        Some(Reply::Details { n: 8 })
    ));
    assert!(serve_frame(&mut st, &Frame::Pong, "secret", Speaker::Agent).is_none());
    assert_eq!(st, ServerState::Open);
    let bye = Frame::Bye { reason: String::new() };
    assert!(serve_frame(&mut st, &bye, "secret", Speaker::Agent).is_none());
    assert_eq!(st, ServerState::Closed);
    assert!(serve_frame(&mut st, &Frame::Ping, "secret", Speaker::Agent).is_none());
}

fn refused(frame: &Frame, token: &str, speaker: Speaker) -> String {
    let mut st = ServerState::Greeting;
    match serve_frame(&mut st, frame, token, speaker) {
        Some(Reply::Bye { reason }) => {
            assert_eq!(st, ServerState::Closed);
            assert!(serve_frame(&mut st, &hello(VERSION, token), token, speaker).is_none());
            assert_eq!(st, ServerState::Closed);
            reason
        }
        _ => panic!("accepted"),
    }
}

#[test]
fn other_masters_are_refused_for_good() {
    assert_eq!(refused(&hello(VERSION, "x"), "secret", Speaker::Agent), "bad token");
    assert_eq!(refused(&hello(VERSION, ""), "secret", Speaker::Winstats), "bad token");
    assert_eq!(refused(&hello(2, "secret"), "secret", Speaker::Agent), "protocol 2, agent speaks 1");
    assert_eq!(
        refused(&hello(7, "secret"), "secret", Speaker::Winstats),
        "protocol 7, this winstats speaks 1"
    );
    assert_eq!(refused(&Frame::Ping, "", Speaker::Agent), "hello expected");
    let mut st = ServerState::Greeting;
    assert!(serve_frame(&mut st, &hello(VERSION, "anything"), "", Speaker::Agent).is_some());
    assert_eq!(st, ServerState::Open);
}

#[test]
fn every_snapshot_goes_out_once() {
    let mut last = 0;
    assert!(!snapshot_due(&mut last, 0));
    assert!(snapshot_due(&mut last, 1));
    assert!(!snapshot_due(&mut last, 1));
    assert!(snapshot_due(&mut last, 5));
    assert_eq!(last, 5);
}

#[test]
fn link_takes_frames() {
    let mut l = LinkState::new();
    assert_eq!(l.status, Status::Connecting);
    assert_eq!(l.receive(Frame::Pong, 10), Ok(()));
    assert_eq!((l.status, l.last_rx, l.frames.len()), (Status::Connecting, Some(10), 0));
    assert_eq!(l.receive(Frame::Ping, 20), Ok(()));
    assert_eq!((l.status, l.last_rx, l.frames.len()), (Status::Online, Some(20), 1));
    let bye = Frame::Bye { reason: "bad token".to_string() };
    assert_eq!(l.receive(bye, 30), Err("bad token".to_string()));
    assert_eq!((l.last_rx, l.frames.len()), (Some(20), 1));
}

#[test]
fn link_keeps_the_newest_frames() {
    let mut l = LinkState::new();
    for seq in 0..500 {
        let s = Snapshot { seq, ..Default::default() };
        l.receive(Frame::Snapshot(s), seq).unwrap();
    }
    assert_eq!(l.frames.len(), QUEUE_LIMIT + 1);
    let seqs: Vec<u64> = l
        .frames
        .iter()
        .map(|f| match f {
            Frame::Snapshot(s) => s.seq,
            _ => panic!("another frame"),
        })
        .collect();
    assert_eq!(seqs, (299..500).collect::<Vec<u64>>());
}

#[test]
fn link_asks_and_pings() {
    let mut l = LinkState::new();
    l.want_details = Some(12);
    let mut last_ping = 1000;
    assert_eq!(l.to_send(&mut last_ping, 2000), (Some(12), false));
    assert_eq!(l.to_send(&mut last_ping, 5999), (None, false));
    assert_eq!(l.to_send(&mut last_ping, 6000), (None, true));
    assert_eq!(last_ping, 6000);
    assert_eq!(l.to_send(&mut last_ping, 6001), (None, false));
}

#[test]
fn waits_double_up_to_the_longest() {
    let mut backoff = 1;
    let mut waits = Vec::new();
    for _ in 0..7 {
        let (wait, next) = backoff_step(backoff, false);
        waits.push(wait);
        backoff = next;
    }
    assert_eq!(waits, vec![1, 2, 4, 8, 16, 30, 30]);
    assert_eq!(backoff_step(MAX_BACKOFF, true), (1, 2));
}

#[test]
fn beacons_are_copied_whole() {
    let b = Beacon {
        v: VERSION,
        id: "a1".to_string(),
        name: "box".to_string(),
        os: "linux".to_string(),
        arch: "x86_64".to_string(),
        port: DATA_PORT,
        agent: "0.2.0".to_string(),
        cpu: single(0.25),
        mem: single(0.5),
    };
    assert_eq!(b.copy(), b);
}

#[test]
fn a_watcher_asks_once_and_pings() {
    let mut w = Watch::new(1000);
    let info = w.step(&Frame::Pong, 2000);
    assert!(!info.ask && !info.ping && !info.end);
    let first = w.step(&Frame::Snapshot(Snapshot::default()), 6000);
    assert!(first.ask && first.ping && !first.end);
    let second = w.step(&Frame::Snapshot(Snapshot::default()), 6001);
    assert!(!second.ask && !second.ping);
    let last = w.step(&Frame::Bye { reason: "done".to_string() }, 20_000);
    assert!(last.end && !last.ping && !last.ask);
}
