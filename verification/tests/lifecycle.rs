#![allow(dead_code)]
//! What CONNECT switches on, and how subscriptions and connections live and end.

use std::cell::RefCell;
use std::rc::Rc;

use nats_server_rs::config::parse_config;
use nats_server_rs::loops::{ReadAction, ReadEvent, WriteAction, WriteEvent};
use nats_server_rs::reader::Reader;
use nats_server_rs::server::Server;
use nats_server_rs::wire::{msg_body, pub_frame, take_line, Next, CLOSED, IO, NO_VERBOSE, QUIET, SHORT};

/// A server, and the clients that talk to it without sockets in between.
struct Host {
    server: Rc<RefCell<Server>>,
    port: u16,
}

impl Host {
    fn start() -> Host {
        Host::start_with_config("")
    }

    fn start_with_config(text: &str) -> Host {
        let (cfg, _) = parse_config(text).expect("a good config");
        cfg.validate().expect("limits that fit together");
        let mut server = Server::new(cfg, 11, 22, 33);
        server.set_listen("127.0.0.1".into(), 4222);
        Host { server: Rc::new(RefCell::new(server)), port: 4222 }
    }

    fn connect(&self) -> Conn {
        let mut c = self.connect_mute();
        let line = c.next(IO);
        let line = line.line();
        assert!(line.starts_with(b"INFO "), "first line must be INFO: {line:?}");
        c.info = serde_json::from_slice(&line[5..line.len() - 2]).expect("INFO is JSON");
        c
    }

    /// A connection whose INFO is still to be read.
    fn connect_mute(&self) -> Conn {
        let mut server = self.server.borrow_mut();
        let cid = server.accept().expect("a place");
        server.attach(cid, "127.0.0.1");
        Conn {
            server: self.server.clone(),
            cid,
            reader: Reader::new(),
            inbox: Vec::new(),
            reading: true,
            writing: true,
            info: serde_json::Value::Null,
        }
    }
}

struct Conn {
    server: Rc<RefCell<Server>>,
    cid: u64,
    reader: Reader,
    inbox: Vec<u8>,
    reading: bool,
    writing: bool,
    info: serde_json::Value,
}

impl Conn {
    fn event(&mut self, ev: ReadEvent) {
        let mut server = self.server.borrow_mut();
        match server.read_step(self.cid, &mut self.reader, ev) {
            ReadAction::Read => {}
            ReadAction::Stop => self.reading = false,
            ReadAction::Run(events) => {
                for ev in events {
                    if !server.execute(self.cid, ev).keep {
                        self.reading = false;
                        break;
                    }
                }
            }
        }
    }

    /// One segment from the client.
    fn send(&mut self, bytes: &[u8]) {
        if !self.reading || self.server.borrow().is_closed(self.cid) {
            return;
        }
        self.reader.make_room();
        self.reader.buffer().extend_from_slice(bytes);
        self.event(ReadEvent::Segment(bytes.len()));
    }

    fn tick(&mut self) {
        self.event(ReadEvent::Tick);
    }

    /// Moves what waits in the server to the client.
    fn pump(&mut self) {
        let mut server = self.server.borrow_mut();
        let mut ev = WriteEvent::Ready;
        while self.writing {
            match server.write_step(self.cid, ev) {
                WriteAction::Write(parts) => {
                    let mut n = 0;
                    for part in &parts {
                        self.inbox.extend_from_slice(part);
                        n += part.len();
                    }
                    ev = WriteEvent::Wrote(n);
                }
                WriteAction::Wait => break,
                WriteAction::Stop => {
                    self.writing = false;
                    break;
                }
            }
        }
    }

    fn next(&mut self, _within: u64) -> Next {
        self.pump();
        match take_line(&mut self.inbox) {
            Some(line) => Next::Line(line),
            None if !self.writing => Next::Closed,
            None => Next::Timeout,
        }
    }

    fn drain(&mut self, _within: u64) -> Vec<u8> {
        self.pump();
        std::mem::take(&mut self.inbox)
    }

    fn closed(&mut self, _within: u64) -> bool {
        self.pump();
        !self.writing
    }

    fn connect_opts(&mut self, json: &str) {
        self.send(format!("CONNECT {json}\r\n").as_bytes());
    }

    fn barrier(&mut self) {
        self.send(b"PING\r\n");
        assert_eq!(self.next(IO).line(), b"PONG\r\n");
    }

    fn read_msg_body(&mut self, n: usize, _within: u64) -> Vec<u8> {
        self.pump();
        assert!(self.inbox.len() >= n + 2, "the body is not there: {:?}", self.inbox);
        let rest = self.inbox.split_off(n + 2);
        let bytes = std::mem::replace(&mut self.inbox, rest);
        msg_body(&bytes, n).expect("a body and its line end")
    }
}

impl Drop for Conn {
    fn drop(&mut self) {
        if self.reading && !self.server.borrow().is_closed(self.cid) {
            self.event(ReadEvent::End);
        }
        self.pump();
        self.server.borrow_mut().detach(self.cid);
    }
}

fn session(srv: &Host) -> Conn {
    let mut c = srv.connect();
    c.connect_opts(NO_VERBOSE);
    c
}

fn self_delivery(connect_line: &str) -> Vec<u8> {
    let srv = Host::start();
    let mut c = srv.connect();
    c.connect_opts(connect_line);
    c.send(b"SUB mine 1\r\n");
    c.barrier();
    c.send(&pub_frame("mine", None, b"x"));
    c.drain(QUIET)
}

#[test]
fn self_delivery_is_on_by_default() {
    let got = self_delivery(NO_VERBOSE);
    assert_eq!(got, b"MSG mine 1 1\r\nx\r\n", "echo absent means echo on");
}

#[test]
fn echo_can_be_asked_for_explicitly_or_turned_off() {
    assert_eq!(
        self_delivery(r#"{"verbose":false,"echo":true}"#),
        b"MSG mine 1 1\r\nx\r\n"
    );
    assert_eq!(
        self_delivery(r#"{"verbose":false,"echo":false}"#),
        b"",
        "echo:false must suppress self-delivery"
    );
}

#[test]
fn verbose_is_on_until_a_connect_turns_it_off() {
    let srv = Host::start();
    let mut c = srv.connect();
    c.send(b"SUB v 1\r\n");
    assert_eq!(c.next(IO).line(), b"+OK\r\n");

    c.connect_opts(NO_VERBOSE);
    c.send(b"SUB v 2\r\nUNSUB 2\r\n");
    assert_eq!(c.drain(QUIET), b"", "verbose:false means no +OK");
    assert!(!c.closed(CLOSED));
}

#[test]
fn connect_defaults_are_all_true() {
    let srv = Host::start();
    let mut c = srv.connect();
    c.connect_opts("{}");
    assert_eq!(c.next(IO).line(), b"+OK\r\n"); // CONNECT acknowledged
    c.send(b"SUB d 1\r\n");
    assert_eq!(c.next(IO).line(), b"+OK\r\n"); // and SUB too
    c.send(&pub_frame("d", None, b"x"));
    let mut saw_ok = false;
    let mut saw_msg = false;
    for _ in 0..2 {
        match c.next(IO) {
            Next::Line(l) if l == b"+OK\r\n" => saw_ok = true,
            Next::Line(l) if l == b"MSG d 1 1\r\n" => saw_msg = true,
            other => panic!("unexpected {other:?}"),
        }
    }
    assert!(saw_ok && saw_msg, "PUB acked and self-delivered");
    assert_eq!(c.read_msg_body(1, IO), b"x");
}

#[test]
fn second_connect_is_answered_by_its_own_verbose() {
    let srv = Host::start();
    let mut c = srv.connect();
    c.connect_opts(NO_VERBOSE);
    c.connect_opts(r#"{"verbose":true}"#);
    assert_eq!(c.next(IO).line(), b"+OK\r\n");
    c.send(b"SUB s 1\r\n");
    assert_eq!(c.next(IO).line(), b"+OK\r\n");

    let mut c = srv.connect();
    c.connect_opts(r#"{"verbose":true}"#);
    assert_eq!(c.next(IO).line(), b"+OK\r\n");
    c.connect_opts(NO_VERBOSE);
    assert_eq!(
        c.drain(QUIET),
        b"",
        "the new value is the one that speaks"
    );
}

#[test]
fn second_connect_does_not_resend_info() {
    let srv = Host::start();
    let mut c = srv.connect();
    c.connect_opts(NO_VERBOSE);
    assert!(!c.closed(CLOSED));
    c.connect_opts(NO_VERBOSE);
    let seen = c.drain(QUIET);
    assert!(
        !seen.starts_with(b"INFO "),
        "INFO is the first and only first line: {seen:?}"
    );
    assert_eq!(
        seen, b"",
        "a repeat CONNECT says nothing when verbose is off"
    );
    c.send(b"PING\r\n");
    assert_eq!(c.next(IO).line(), b"PONG\r\n");
}

#[test]
fn auto_unsub_delivers_exactly_max() {
    let srv = Host::start();
    let mut sub = session(&srv);
    sub.send(b"SUB au 1\r\nUNSUB 1 2\r\n");
    let mut p = session(&srv);
    for i in 0..5u8 {
        p.send(&pub_frame("au", None, &[b'0' + i]));
    }
    p.barrier();

    for i in 0..2u8 {
        let line = sub.next(IO);
        assert_eq!(line.line(), b"MSG au 1 1\r\n");
        assert_eq!(sub.read_msg_body(1, IO), [b'0' + i], "in order");
    }
    assert_eq!(
        sub.drain(QUIET),
        b"",
        "nothing after the auto-unsub limit"
    );
    assert!(!sub.closed(CLOSED), "the connection stays usable");
}

#[test]
fn auto_unsub_limit_already_reached_unsubscribes_now() {
    let srv = Host::start();
    let mut sub = session(&srv);
    sub.send(b"SUB a2 1\r\n");
    let mut p = session(&srv);
    for i in 0..2u8 {
        p.send(&pub_frame("a2", None, &[b'0' + i]));
    }
    p.barrier();
    for i in 0..2u8 {
        assert_eq!(sub.next(IO).line(), b"MSG a2 1 1\r\n");
        assert_eq!(sub.read_msg_body(1, IO), [b'0' + i]);
    }

    sub.send(b"UNSUB 1 2\r\nPING\r\n");
    assert_eq!(
        sub.next(IO).line(),
        b"PONG\r\n",
        "nothing may be delivered while the UNSUB is being processed"
    );
    p.send(&pub_frame("a2", None, b"2"));
    p.barrier();
    assert_eq!(sub.drain(QUIET), b"", "already at the limit");

    sub.send(b"UNSUB 1 9\r\n");
    assert!(!sub.closed(CLOSED));
}

#[test]
fn unsub_with_an_unparseable_or_non_positive_max_unsubscribes() {
    for max in ["0", "-5", "x"] {
        let srv = Host::start();
        let mut sub = session(&srv);
        sub.send(format!("SUB ux 1\r\nUNSUB 1 {max}\r\n").as_bytes());
        let mut p = session(&srv);
        p.send(&pub_frame("ux", None, b"x"));
        p.barrier();
        assert_eq!(sub.drain(QUIET), b"", "for UNSUB 1 {max}");
        assert!(!sub.closed(CLOSED), "for UNSUB 1 {max}");
    }
}

#[test]
fn unsub_on_an_unknown_sid_is_not_an_error() {
    let srv = Host::start();
    let mut c = session(&srv);
    c.send(b"UNSUB 99\r\n");
    c.send(b"PING\r\n");
    assert_eq!(c.next(IO).line(), b"PONG\r\n");
    assert!(!c.closed(CLOSED));
}

#[test]
fn disconnecting_removes_the_subscriptions() {
    let srv = Host::start();
    let mut sub = session(&srv);
    sub.send(b"SUB gone 1\r\n");
    sub.barrier();
    drop(sub);

    let mut p = session(&srv);
    p.send(&pub_frame("gone", None, b"x"));
    p.barrier();
    let mut later = session(&srv);
    later.send(b"SUB gone 1\r\n");
    later.barrier();
    p.send(&pub_frame("gone", None, b"y"));
    let line = later.next(IO);
    assert_eq!(line.line(), b"MSG gone 1 1\r\n");
    assert_eq!(
        later.read_msg_body(1, IO),
        b"y",
        "not the earlier one"
    );
}

#[test]
fn ping_before_connect_is_answered() {
    let srv = Host::start();
    let mut c = srv.connect();
    c.send(b"PING\r\n");
    assert_eq!(c.next(IO).line(), b"PONG\r\n");
    assert!(!c.closed(CLOSED));
}

#[test]
fn pipelined_commands_are_processed_in_order() {
    let srv = Host::start();
    let mut c = srv.connect();
    c.connect_opts(r#"{"verbose":true,"echo":false}"#);
    assert_eq!(c.next(IO).line(), b"+OK\r\n");
    c.send(b"SUB p 1\r\nPUB p 3\r\none\r\nSUB p 2\r\nPING\r\n");
    let mut got = Vec::new();
    for _ in 0..4 {
        got.push(c.next(IO));
    }
    assert_eq!(got[0].line(), b"+OK\r\n", "SUB 1");
    assert_eq!(got[1].line(), b"+OK\r\n", "PUB");
    assert_eq!(got[2].line(), b"+OK\r\n", "SUB 2");
    assert_eq!(got[3].line(), b"PONG\r\n", "PING last");

    c.connect_opts(r#"{"verbose":false,"echo":false}"#);
    c.send(b"SUB split 3\r\n");
    c.barrier();
    let mut p = srv.connect();
    p.connect_opts(NO_VERBOSE);
    p.send(b"PUB split 6\r\nabc");
    assert!(
        c.next(SHORT).is_timeout(),
        "half a frame says nothing"
    );
    p.send(b"def\r\n");
    assert_eq!(c.next(IO).line(), b"MSG split 3 6\r\n");
    assert_eq!(c.read_msg_body(6, IO), b"abcdef");
}

#[test]
fn connection_churn_leaves_the_server_healthy() {
    let srv = Host::start();
    for i in 0..500u32 {
        let mut c = srv.connect();
        c.connect_opts(NO_VERBOSE);
        c.send(format!("SUB churn{i} 1\r\nPING\r\n").as_bytes());
        assert_eq!(c.next(IO).line(), b"PONG\r\n");
        drop(c);
    }
    let mut c = session(&srv);
    c.send(b"SUB churn-final 1\r\n");
    c.barrier();
    let mut p = session(&srv);
    p.send(&pub_frame("churn0", None, b"stale"));
    p.send(&pub_frame("churn-final", None, b"live"));
    p.barrier();
    let line = c.next(IO);
    assert_eq!(line.line(), b"MSG churn-final 1 4\r\n");
    assert_eq!(c.read_msg_body(4, IO), b"live");
    assert_eq!(
        c.drain(QUIET),
        b"",
        "no delivery to dropped connections"
    );
}

// ---------------------------------------------------------------- keepalive --

#[test]
fn an_unanswered_keepalive_closes_the_connection() {
    let srv = Host::start_with_config("ping_interval: \"1s\"\n");
    let mut c = srv.connect();
    c.connect_opts(NO_VERBOSE);
    c.tick();
    assert_eq!(c.next(IO).line(), b"PING\r\n");
    c.tick();
    assert_eq!(c.next(IO).line(), b"PING\r\n");
    assert!(!c.closed(CLOSED), "two probes may go unanswered");
    c.tick();
    assert_eq!(c.next(IO).line(), b"-ERR 'Stale Connection'\r\n");
    assert!(c.closed(CLOSED), "then the connection closes");
}

#[test]
fn answering_keepalives_keeps_the_connection_open() {
    let srv = Host::start_with_config("ping_interval: \"1s\"\n");
    let mut c = srv.connect();
    c.connect_opts(NO_VERBOSE);
    for _ in 0..4 {
        c.tick();
        assert_eq!(c.next(IO).line(), b"PING\r\n");
        c.send(b"PONG\r\n");
    }
    c.send(b"SUB alive 1\r\n");
    c.send(&pub_frame("alive", None, b"ok"));
    assert_eq!(c.next(IO).line(), b"MSG alive 1 2\r\n");
    assert_eq!(c.read_msg_body(2, IO), b"ok");
}

// ------------------------------------------------------------- backpressure --

/// A subscriber that never reads is dropped with nothing more said, and nobody else notices.
#[test]
fn a_blocked_subscriber_is_dropped_not_accumulated() {
    let srv = Host::start_with_config("max_pending: 1048576\n");
    let mut victim = session(&srv);
    victim.send(b"SUB blocked 1\r\n");
    victim.barrier();

    let mut pubc = session(&srv);
    let body = vec![b'x'; 1024 * 1024];
    let mut dropped_at = None;
    for i in 0..25 {
        pubc.send(&pub_frame("blocked", None, &body));
        if srv.server.borrow().is_closed(victim.cid) {
            dropped_at = Some(i);
            break;
        }
    }
    assert_eq!(dropped_at, Some(0), "one frame is over the limit already");
    assert!(srv.server.borrow().hard_closed(victim.cid));
    assert!(srv.server.borrow().may_go_on(victim.cid), "nobody waits for the dropped");
    assert_eq!(victim.drain(QUIET), b"", "nothing is said");
    assert_eq!(
        srv.server.borrow().registry.subscription_count(),
        0,
        "what it listened to is forgotten"
    );

    let mut other = session(&srv);
    other.send(b"SUB after 1\r\n");
    other.barrier();
    pubc.send(&pub_frame("after", None, b"still-alive"));
    assert_eq!(
        other.next(IO).line(),
        b"MSG after 1 11\r\n",
        "a wedged subscriber must not stall the server (dropped at {dropped_at:?})"
    );
    assert_eq!(other.read_msg_body(11, IO), b"still-alive");
    assert!(
        !pubc.closed(CLOSED),
        "the publisher must not be punished for its subscriber (dropped at {dropped_at:?})"
    );
}

/// The stall gate opens with the connection it waits for.
#[test]
fn a_parked_publisher_wakes_when_its_subscriber_is_dropped() {
    let srv = Host::start_with_config(
        "max_payload: 131072\nmax_pending: 2097152\nwrite_deadline: \"2s\"\n",
    );
    let mut victim = session(&srv);
    victim.send(b"SUB parking 1\r\n");
    victim.barrier();

    let frame = pub_frame("parking", None, &vec![b'x'; 64 * 1024]);
    let mut flood = session(&srv);
    let mut sent = 0;
    while sent < 200 && srv.server.borrow().may_go_on(victim.cid) {
        flood.send(&frame);
        sent += 1;
    }
    assert_eq!(sent, 24, "parked over one and a half of two MiB");
    match srv.server.borrow_mut().write_step(victim.cid, WriteEvent::Deadline) {
        WriteAction::Stop => {}
        _ => panic!("a socket that stands still is given up on"),
    }
    assert!(srv.server.borrow().may_go_on(victim.cid), "nothing left to wait for");
    while sent < 200 && srv.server.borrow().may_go_on(victim.cid) {
        flood.send(&frame);
        sent += 1;
    }
    assert_eq!(
        sent, 200,
        "a publisher parked on a subscriber must be released when it is dropped"
    );
    let mut dropper = session(&srv);
    for _ in 0..64 {
        assert!(srv.server.borrow().may_go_on(victim.cid));
        dropper.send(&frame);
    }
    assert!(srv.server.borrow().hard_closed(victim.cid), "and nothing is said");
    victim.writing = false;

    let mut pubc = session(&srv);
    let mut other = session(&srv);
    other.send(b"SUB after 1\r\n");
    other.barrier();
    pubc.send(&pub_frame("after", None, b"still-alive"));
    assert_eq!(other.next(IO).line(), b"MSG after 1 11\r\n", "server must survive the drop");
    assert_eq!(other.read_msg_body(11, IO), b"still-alive");
}

/// Three quarters of the limit make a publisher wait, and what is over the limit drops the
/// subscriber.
#[test]
fn a_publisher_waits_before_its_subscriber_is_dropped() {
    let srv = Host::start_with_config("max_payload: 1024\nmax_pending: 4096\n");
    let mut victim = session(&srv);
    victim.send(b"SUB blocked 1\r\n");
    victim.barrier();
    let mut pubc = session(&srv);
    let mut waits = Vec::new();
    for _ in 0..5 {
        pubc.send(&pub_frame("blocked", None, &[b'x'; 1000]));
        waits.push(!srv.server.borrow().may_go_on(victim.cid));
    }
    assert_eq!(waits, [false, false, false, true, false], "the dropped are not waited for");
    assert!(srv.server.borrow().hard_closed(victim.cid));
}

/// A write that ends after the connection was dropped elsewhere counts for nothing.
#[test]
fn a_write_that_ends_too_late_is_forgotten() {
    let srv = Host::start_with_config("max_payload: 1024\nmax_pending: 4096\n");
    let mut victim = session(&srv);
    victim.send(b"SUB blocked 1\r\n");
    victim.barrier();
    let mut pubc = session(&srv);
    let body = vec![b'x'; 1000];
    pubc.send(&pub_frame("blocked", None, &body));
    let n = match srv.server.borrow_mut().write_step(victim.cid, WriteEvent::Ready) {
        WriteAction::Write(parts) => parts.iter().map(|p| p.len()).sum::<usize>(),
        _ => panic!("there is something to write"),
    };
    for _ in 0..4 {
        pubc.send(&pub_frame("blocked", None, &body));
    }
    assert!(srv.server.borrow().hard_closed(victim.cid), "dropped while it was written to");
    match srv.server.borrow_mut().write_step(victim.cid, WriteEvent::Wrote(n)) {
        WriteAction::Stop => {}
        _ => panic!("nothing more is written to the dropped"),
    }
    victim.writing = false;
}

/// A partial write keeps its place: what the socket did not take goes out next, in order.
#[test]
fn a_partial_write_is_resumed_where_it_stopped() {
    let srv = Host::start();
    let mut sub = session(&srv);
    sub.send(b"SUB part 1\r\n");
    sub.barrier();
    let mut p = session(&srv);
    p.send(b"PUB part 3\r\none\r\nPUB part 3\r\ntwo\r\n");
    let want = b"MSG part 1 3\r\none\r\nMSG part 1 3\r\ntwo\r\n";
    let mut got: Vec<u8> = Vec::new();
    let mut ev = WriteEvent::Ready;
    loop {
        match srv.server.borrow_mut().write_step(sub.cid, ev) {
            WriteAction::Write(parts) => {
                // The socket takes five bytes at a time.
                let all: Vec<u8> = parts.iter().flat_map(|p| p.to_vec()).collect();
                let n = all.len().min(5);
                got.extend_from_slice(&all[..n]);
                ev = WriteEvent::Wrote(n);
            }
            WriteAction::Wait => break,
            WriteAction::Stop => panic!("the connection is open"),
        }
    }
    assert_eq!(got, want);
}

/// Order within one publisher and one subscriber is publish order.
#[test]
fn ordering_proof_100k() {
    const N: usize = 100_000;
    let srv = Host::start();
    let mut sub = session(&srv);
    sub.send(b"SUB order 1\r\n");
    sub.barrier();
    let mut p = session(&srv);
    let mut batch: Vec<u8> = Vec::new();
    let mut seen = 0;
    for i in 0..N {
        batch.extend_from_slice(&pub_frame("order", None, i.to_string().as_bytes()));
        if batch.len() > 8 * 1024 || i + 1 == N {
            p.send(&batch);
            batch.clear();
            let got = sub.drain(QUIET);
            let mut rest = &got[..];
            while !rest.is_empty() {
                let body = seen.to_string();
                let frame = format!("MSG order 1 {}\r\n{}\r\n", body.len(), body);
                assert!(rest.starts_with(frame.as_bytes()), "delivery {seen} out of order");
                rest = &rest[frame.len()..];
                seen += 1;
            }
        }
    }
    assert_eq!(seen, N);
}

/// One message, one delivery per queue group, and every member reached.
#[test]
fn queue_group_delivers_each_message_once() {
    const N: usize = 6_000;
    let srv = Host::start();
    let mut members = Vec::new();
    for sid in 0..3u8 {
        let mut s = session(&srv);
        s.send(format!("SUB work q1 {sid}\r\n").as_bytes());
        s.barrier();
        members.push(s);
    }
    let mut p = session(&srv);
    let mut counts = vec![0usize; 3];
    let mut all: Vec<bool> = vec![false; N];
    for i in 0..N {
        p.send(&pub_frame("work", None, i.to_string().as_bytes()));
    }
    for (m, member) in members.iter_mut().enumerate() {
        while let Next::Line(l) = member.next(IO) {
            let l = String::from_utf8(l).unwrap();
            let n: usize = l.trim_end().rsplit(' ').next().unwrap().parse().unwrap();
            let body = String::from_utf8(member.read_msg_body(n, IO)).unwrap();
            let i: usize = body.parse().unwrap();
            assert!(!all[i], "message {i} was delivered twice");
            all[i] = true;
            counts[m] += 1;
        }
    }
    assert!(all.iter().all(|seen| *seen), "exactly once across the group, counts {counts:?}");
    assert!(counts.iter().all(|c| *c > 0), "every member must be reached, got {counts:?}");
}

/// The limit on connections: over it, a socket is dropped without a word.
#[test]
fn a_full_server_takes_nobody_in() {
    let srv = Host::start_with_config("max_connections: 1\n");
    let first = srv.connect();
    assert!(srv.server.borrow_mut().accept().is_none());
    drop(first);
    assert!(srv.server.borrow_mut().accept().is_some(), "a place is free again");
}

/// A read of nothing is the end of the stream: the connection is closed, and what is queued
/// for it still goes out.
#[test]
fn a_read_of_nothing_is_the_clients_close() {
    let srv = Host::start();
    let mut c = session(&srv);
    c.send(b"PING\r\n");
    c.event(ReadEvent::Segment(0));
    assert!(!c.reading);
    assert!(srv.server.borrow().is_closed(c.cid) && !srv.server.borrow().hard_closed(c.cid));
    assert_eq!(c.drain(QUIET), b"PONG\r\n");
}
