//! The smaller parts: identifiers, options, queues, the registry, and the reports.

use bytes::{Bytes, BytesMut};
use nats_server_rs::allocstats::{bucket, hist_line, name_at, tag, tag_line, untagged, Site};
use nats_server_rs::arena::Arena;
use nats_server_rs::client::{
    consume, info_is_an_object, Conn, Enqueue, Frame, Options, Outbox,
};
use nats_server_rs::config::Span;
use nats_server_rs::nuid::{server_id, Rng};
use nats_server_rs::proto::{
    parse_line, parse_size, Action, Event, Limits, Parser, ProtoError,
};
use nats_server_rs::reader::{keepalive_first, Reader};
use nats_server_rs::routing::{
    build_frame, identical, no_responder_frame, Interest, Msg, Registry, Sub,
};
use nats_server_rs::wire::{
    absorb_ping, barrier_step, greeting, header_block, hpub_frame, pub_frame, Barrier, Next,
};
use std::collections::VecDeque;

fn sub(subject: &'static str, queue: Option<&'static str>, sid: &'static str, cid: u64) -> Sub {
    Sub::new(
        Bytes::from_static(subject.as_bytes()),
        queue.map(|q| Bytes::from_static(q.as_bytes())),
        Bytes::from_static(sid.as_bytes()),
        cid,
    )
}

fn interest(subject: &'static str, sid: &'static str, cid: u64) -> Interest {
    Interest {
        subject: Bytes::from_static(subject.as_bytes()),
        queue: None,
        cid,
        sid: Bytes::from_static(sid.as_bytes()),
    }
}

#[test]
fn a_generator_is_its_seed() {
    let mut r = Rng::new(1);
    assert_eq!(r.next_u64(), 1160757684527638735);
    assert_eq!(r.next_u64(), 15882417675095322674);
    assert_eq!(Rng::new(5).below(400), 172);
    assert_eq!(Rng::new(5).below(0), 0);
    assert_eq!(
        server_id(&mut Rng::new(7)),
        "NCTMKJNJOUOMKEBGLPWL5PH2VTHFLUECVUBXSFOTV7LNY3OBLQC56LPF"
    );
}

#[test]
fn flags_survive_packing() {
    for word in 0..32u64 {
        assert_eq!(Options::unpack(word).pack(), word);
    }
    assert_eq!(Options::default().pack(), 0b00111, "verbose, pedantic, echo");
}

#[test]
fn info_must_be_an_object() {
    assert!(info_is_an_object(b"{}") && info_is_an_object(b"{\"a\":1}"));
    assert!(!info_is_an_object(b"5") && !info_is_an_object(b"[1]") && !info_is_an_object(b"{"));
}

#[test]
fn sizes_are_one_to_nine_digits() {
    assert_eq!(parse_size(b"0"), 0);
    assert_eq!(parse_size(b"999999999"), 999_999_999);
    for bad in [&b""[..], b"-1", b"+1", b"1x", b"1000000000"] {
        assert_eq!(parse_size(bad), -1, "for {bad:?}");
    }
}

#[test]
fn errors_say_what_they_do() {
    assert_eq!(ProtoError::Fatal("x").err_line(), Some("x"));
    assert_eq!(ProtoError::Soft("y").err_line(), Some("y"));
    assert_eq!(ProtoError::Silent.err_line(), None);
    assert!(ProtoError::Fatal("x").closes() && ProtoError::Silent.closes());
    assert!(!ProtoError::Soft("y").closes());
}

#[test]
fn an_outbox_counts_what_waits() {
    let mut out = Outbox::new(100);
    assert!(matches!(out.enqueue(Frame::line(Bytes::from(vec![b'a'; 75]))), Enqueue::Queued));
    assert!(out.room());
    assert!(matches!(out.enqueue(Frame::ok()), Enqueue::SoftLimit));
    assert!(!out.room(), "eighty bytes are over three quarters");
    assert!(matches!(
        out.enqueue(Frame::line(Bytes::from(vec![b'b'; 21]))),
        Enqueue::SlowConsumer
    ));
    assert_eq!(out.pending(), 80, "what does not fit leaves no trace");
    out.collect();
    assert_eq!(out.batch_bytes(), 80);
    assert!(out.written(5), "back under the threshold");
    assert_eq!(out.pending(), 75);
    assert_eq!(out.batch().concat().len(), 75);
    out.no_more_writes(true);
    assert!(matches!(out.enqueue(Frame::ping()), Enqueue::Dropped));
    assert_eq!(out.pending(), 0);
    assert!(out.room() && out.finished());
}

#[test]
fn a_batch_loses_its_front() {
    let mut parts: VecDeque<Bytes> =
        [&b"abc"[..], b"de", b"f"].iter().map(|p| Bytes::from_static(p)).collect();
    consume(&mut parts, 4);
    assert_eq!(parts, [Bytes::from_static(b"e"), Bytes::from_static(b"f")]);
    consume(&mut parts, 2);
    assert!(parts.is_empty());
}

#[test]
fn frames_are_the_lines_they_say() {
    assert_eq!(&Frame::ok().0[..], b"+OK\r\n");
    assert_eq!(&Frame::ping().0[..], b"PING\r\n");
    assert_eq!(&Frame::pong().0[..], b"PONG\r\n");
    assert_eq!(&Frame::err("Invalid Subject").0[..], b"-ERR 'Invalid Subject'\r\n");
}

#[test]
fn a_delivery_is_framed_for_its_subscriber() {
    let body = Bytes::from_static(b"NATS/1.0\r\n\r\nab");
    let msg = Msg { subject: b"a.b", reply: Some(b"r"), hdr: 12, body: &body };
    let to = interest("a.*", "7", 1);
    let mut arena = Arena::new();
    let f = build_frame(&mut arena, &to, true, &msg);
    assert_eq!(&f.0[..], b"HMSG a.b 7 r 12 14\r\nNATS/1.0\r\n\r\nab\r\n");
    let f = build_frame(&mut arena, &to, false, &msg);
    assert_eq!(&f.0[..], b"MSG a.b 7 r 2\r\nab\r\n");
}

#[test]
fn the_status_frame_is_thirty_two_bytes_and_the_subject() {
    let f = no_responder_frame(b"inbox", &interest("inbox", "9", 1), b"svc");
    assert_eq!(
        &f.0[..],
        b"HMSG inbox 9 35 35\r\nNATS/1.0 503\r\nNats-Subject: svc\r\n\r\n\r\n"
    );
}

fn sids(list: Vec<Interest>) -> Vec<String> {
    list.iter().map(|i| String::from_utf8(i.sid.to_vec()).unwrap()).collect()
}

#[test]
fn a_registry_finds_who_listens() {
    for seed in [0, 1, u64::MAX] {
        let mut r = Registry::new(seed, Rng::new(1));
        assert!(r.insert(&sub("a.b", None, "1", 1)));
        assert!(r.insert(&sub("a.*", None, "2", 1)));
        assert!(r.insert(&sub(">", Some("q"), "3", 2)));
        assert!(r.insert(&sub("a.b", None, "4", 2)));
        assert!(r.insert(&sub("a.b", None, "1", 1)), "known already, and no error");
        assert!(!r.insert(&sub("a..b", None, "5", 1)), "no legal subject");
        assert_eq!(r.subscription_count(), 4);
        assert_eq!(sids(r.reach(b"a.b")), ["1", "4", "2", "3"]);
        assert_eq!(sids(r.reach(b"x")), ["3"]);
        assert_eq!(sids(r.matching_of(1, b"a.b")), ["1", "2"]);
        r.remove(&interest("a.b", "1", 1));
        assert_eq!(sids(r.reach(b"a.b")), ["4", "2", "3"]);
        r.remove_conn(2);
        assert_eq!(sids(r.reach(b"a.b")), ["2"]);
        assert_eq!(r.subscription_count(), 1);
    }
}

#[test]
fn subscriptions_are_identical_by_everything() {
    let a = sub("s", Some("q"), "1", 1);
    assert!(identical(&a, &sub("s", Some("q"), "1", 1)));
    assert!(!identical(&a, &sub("s", None, "1", 1)));
    assert!(!identical(&a, &sub("s", Some("q"), "2", 1)));
    assert!(!identical(&a, &sub("t", Some("q"), "1", 1)));
    assert!(!identical(&a, &sub("s", Some("q"), "1", 2)));
}

#[test]
fn a_limit_is_a_total() {
    let mut s = sub("s", None, "1", 1);
    assert!(!s.account(), "no limit");
    assert!(!s.set_limit(3), "above what was delivered");
    assert!(!s.account());
    assert!(s.account(), "the third is the last");
    assert!(s.set_limit(3), "already reached");
}

#[test]
fn a_connection_ends_once() {
    let mut r = Registry::new(1, Rng::new(1));
    let mut c = Conn::new(3, 1000);
    c.subscribe(sub("s", None, "1", 3));
    r.insert(&sub("s", None, "1", 3));
    c.enqueue(Frame::ok());
    c.close(&mut r, "first".into());
    c.close_now(&mut r, "second".into());
    assert!(c.is_closed() && !c.hard_closed());
    assert_eq!(c.reason().as_deref(), Some("first"));
    assert_eq!(r.subscription_count(), 0);
    assert!(!c.holds(b"1"));
    assert!(matches!(c.enqueue(Frame::ok()), Enqueue::Dropped));
    assert!(c.is_same(&Conn::new(3, 1)) && !c.is_same(&Conn::new(4, 1)));
}

#[test]
fn the_first_probe_is_early_and_late_by_a_fifth_at_most() {
    let s = keepalive_first(Span { secs: 120, nanos: 0 }, &mut Rng::new(5));
    assert_eq!(s, Span { secs: 2, nanos: 172_000_000 });
    let s = keepalive_first(Span { secs: 0, nanos: 500_000 }, &mut Rng::new(5));
    assert_eq!(s, Span { secs: 0, nanos: 500_000 }, "too short for a delay");
}

#[test]
fn a_reader_hands_out_whole_commands() {
    let mut r = Reader::new();
    r.make_room();
    r.buffer().extend_from_slice(b"PING\r\nPUB a 2\r\nx");
    r.resize(15);
    let lim = Limits::default();
    assert_eq!(r.parse(&lim).expect("good so far").len(), 1);
    r.buffer().extend_from_slice(b"y\r\n");
    let events = r.parse(&lim).expect("a publish");
    match &events[0] {
        Event::Publish { body, .. } => assert_eq!(&body[..], b"xy"),
        other => panic!("{other:?}"),
    }
    assert_eq!(r.held_len(), 0);
}

#[test]
fn what_a_client_frames_is_what_the_server_reads() {
    let mut buf = BytesMut::new();
    buf.extend_from_slice(&pub_frame("a.b", Some("r"), b"x\r\ny"));
    buf.extend_from_slice(&hpub_frame("h", None, &header_block(&["K: v"]), b"z"));
    let events = Parser::new().feed(&mut buf, &Limits::default()).expect("well framed");
    assert_eq!(events.len(), 3);
    match (&events[0], &events[2]) {
        (
            Event::Publish { subject: s, reply: r, body: b, hpub: false, .. },
            Event::Publish { subject: s2, reply: None, hdr, total, body: b2, hpub: true },
        ) => {
            assert_eq!((&s[..], r.as_deref(), &b[..]), (&b"a.b"[..], Some(&b"r"[..]), &b"x\r\ny"[..]));
            assert_eq!((&s2[..], *hdr, *total), (&b"h"[..], 18, 19));
            assert_eq!(&b2[..], b"NATS/1.0\r\nK: v\r\n\r\nz");
        }
        other => panic!("{other:?}"),
    }
    assert!(buf.is_empty());
}

#[test]
fn only_a_probe_is_absorbed() {
    let mut b = b"PING\r\n".to_vec();
    assert!(absorb_ping(&mut b) && b.is_empty());
    let mut b = b"PING\r\nx".to_vec();
    assert!(!absorb_ping(&mut b) && b == b"PING\r\nx");
}

#[test]
fn allocations_are_reported_by_site_and_by_size() {
    let mut counts = [0u64; Site::COUNT];
    tag(&mut counts, Site::ReadBuf);
    tag(&mut counts, Site::Other);
    tag(&mut counts, Site::Other);
    assert_eq!(
        tag_line(&counts),
        "alloctags read_buf=1 events=0 frame_chunk=0 payload=0 subscribe=0 control_line=0 \
         connection=0 routing=0 other=2"
    );
    assert_eq!(name_at(3), "payload");
    assert_eq!((untagged(5, &counts), untagged(1, &counts)), (2, 2));
    assert_eq!((bucket(0), bucket(1), bucket(64), bucket(65_535)), (0, 1, 7, 16));
    assert_eq!(bucket(usize::MAX), 27);
    let mut hist = [0u64; 28];
    assert_eq!(hist_line(&hist), "allochist (empty)");
    hist[7] = 3;
    hist[17] = 1;
    assert_eq!(hist_line(&hist), "allochist 2^7=3 2^17=1");
}

#[test]
fn a_barrier_is_passed_at_the_pong() {
    assert!(matches!(barrier_step(&Next::Line(b"PONG\r\n".to_vec())), Barrier::Done));
    assert!(matches!(barrier_step(&Next::Line(b"+OK\r\n".to_vec())), Barrier::More));
    for other in [Next::Line(b"-ERR 'x'\r\n".to_vec()), Next::Closed, Next::Timeout] {
        assert!(matches!(barrier_step(&other), Barrier::Unexpected));
    }
}

#[test]
fn a_reader_that_is_filled_makes_more_room() {
    let mut r = Reader::new();
    let mut cap = 16_384;
    let mut held = 0;
    while cap < 65_536 {
        r.make_room();
        let spare = r.buffer().capacity() - held;
        assert!(spare >= cap);
        r.buffer().extend_from_slice(&vec![b'x'; spare]);
        held += spare;
        r.resize(spare);
        cap *= 2;
    }
    r.make_room();
    assert!(r.buffer().capacity() >= held + 65_536);
}

#[test]
fn what_is_missing_to_a_whole_read_is_set_aside() {
    let mut r = Reader::new();
    assert_eq!((r.to_reserve(0), r.to_reserve(16_383)), (Some(16_384), Some(1)));
    assert_eq!((r.to_reserve(16_384), r.to_reserve(usize::MAX)), (None, None));
    r.resize(16_384);
    assert_eq!((r.to_reserve(16_384), r.to_reserve(32_768)), (Some(16_384), None));
}

#[test]
fn a_greeting_is_read_field_by_field() {
    let field = |k: &str, v: &str| (k.to_string(), v.to_string());
    assert_eq!(
        greeting(b"INFO {\"server_id\":\"N\",\"port\":4222,\"headers\": true} \r\n"),
        Some(vec![field("headers", "true"), field("port", "4222"), field("server_id", "\"N\"")])
    );
    assert_eq!(greeting(b"INFO {} \r\n"), Some(vec![]));
    assert_eq!(greeting(b"INFO {\"a\":\"\xff\"}"), Some(vec![field("a", "\"\u{fffd}\"")]));
    for bad in [&b"PING\r\n"[..], b"INFO", b"info {}", b"INFO {", b"", b"-ERR 'x'\r\n"] {
        assert_eq!(greeting(bad), None, "for {bad:?}");
    }
}

#[test]
fn a_count_of_none_unsubscribes_now() {
    let lim = Limits::default();
    for (line, want) in
        [("UNSUB 1", -1), ("UNSUB 1 0", -1), ("unsub 1 x", -1), ("UNSUB 1 -3", -1), ("UNSUB 1 5", 5)]
    {
        match parse_line(line.as_bytes(), &lim) {
            Ok(Action::Event(Event::Unsubscribe { sid, max })) => {
                assert_eq!((&sid[..], max), (&b"1"[..], want), "for {line:?}")
            }
            _ => panic!("{line:?} is an UNSUB"),
        }
    }
}
