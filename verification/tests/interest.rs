#![allow(dead_code)]
//! Who listens is decided operation by operation, not segment by segment.

use std::cell::RefCell;
use std::rc::Rc;

use nats_server_rs::config::parse_config;
use nats_server_rs::loops::{ReadAction, ReadEvent, WriteAction, WriteEvent};
use nats_server_rs::reader::Reader;
use nats_server_rs::server::Server;
use nats_server_rs::wire::{msg_body, pub_frame, take_line, Next, IO, NO_VERBOSE, QUIET};

/// A server, and the clients that talk to it without sockets in between.
struct Host {
    server: Rc<RefCell<Server>>,
    port: u16,
}

impl Host {
    fn start() -> Host {
        Host::start_with_config("")
    }

    fn start_with_config(text: &str) -> Host {
        let (cfg, _) = parse_config(text).expect("a good config");
        cfg.validate().expect("limits that fit together");
        let mut server = Server::new(cfg, 11, 22, 33);
        server.set_listen("127.0.0.1".into(), 4222);
        Host { server: Rc::new(RefCell::new(server)), port: 4222 }
    }

    fn connect(&self) -> Conn {
        let mut c = self.connect_mute();
        let line = c.next(IO);
        let line = line.line();
        assert!(line.starts_with(b"INFO "), "first line must be INFO: {line:?}");
        c.info = serde_json::from_slice(&line[5..line.len() - 2]).expect("INFO is JSON");
        c
    }

    /// A connection whose INFO is still to be read.
    fn connect_mute(&self) -> Conn {
        let mut server = self.server.borrow_mut();
        let cid = server.accept().expect("a place");
        server.attach(cid, "127.0.0.1");
        Conn {
            server: self.server.clone(),
            cid,
            reader: Reader::new(),
            inbox: Vec::new(),
            reading: true,
            writing: true,
            info: serde_json::Value::Null,
        }
    }
}

struct Conn {
    server: Rc<RefCell<Server>>,
    cid: u64,
    reader: Reader,
    inbox: Vec<u8>,
    reading: bool,
    writing: bool,
    info: serde_json::Value,
}

impl Conn {
    fn event(&mut self, ev: ReadEvent) {
        let mut server = self.server.borrow_mut();
        match server.read_step(self.cid, &mut self.reader, ev) {
            ReadAction::Read => {}
            ReadAction::Stop => self.reading = false,
            ReadAction::Run(events) => {
                for ev in events {
                    if !server.execute(self.cid, ev).keep {
                        self.reading = false;
                        break;
                    }
                }
            }
        }
    }

    /// One segment from the client.
    fn send(&mut self, bytes: &[u8]) {
        if !self.reading || self.server.borrow().is_closed(self.cid) {
            return;
        }
        self.reader.make_room();
        self.reader.buffer().extend_from_slice(bytes);
        self.event(ReadEvent::Segment(bytes.len()));
    }

    /// Moves what waits in the server to the client.
    fn pump(&mut self) {
        let mut server = self.server.borrow_mut();
        let mut ev = WriteEvent::Ready;
        while self.writing {
            match server.write_step(self.cid, ev) {
                WriteAction::Write(parts) => {
                    let mut n = 0;
                    for part in &parts {
                        self.inbox.extend_from_slice(part);
                        n += part.len();
                    }
                    ev = WriteEvent::Wrote(n);
                }
                WriteAction::Wait => break,
                WriteAction::Stop => {
                    self.writing = false;
                    break;
                }
            }
        }
    }

    fn next(&mut self, _within: u64) -> Next {
        self.pump();
        match take_line(&mut self.inbox) {
            Some(line) => Next::Line(line),
            None if !self.writing => Next::Closed,
            None => Next::Timeout,
        }
    }

    fn drain(&mut self, _within: u64) -> Vec<u8> {
        self.pump();
        std::mem::take(&mut self.inbox)
    }

    fn closed(&mut self, _within: u64) -> bool {
        self.pump();
        !self.writing
    }

    fn connect_opts(&mut self, json: &str) {
        self.send(format!("CONNECT {json}\r\n").as_bytes());
    }

    fn barrier(&mut self) {
        self.send(b"PING\r\n");
        assert_eq!(self.next(IO).line(), b"PONG\r\n");
    }

    fn read_msg_body(&mut self, n: usize, _within: u64) -> Vec<u8> {
        self.pump();
        assert!(self.inbox.len() >= n + 2, "the body is not there: {:?}", self.inbox);
        let rest = self.inbox.split_off(n + 2);
        let bytes = std::mem::replace(&mut self.inbox, rest);
        msg_body(&bytes, n).expect("a body and its line end")
    }
}

impl Drop for Conn {
    fn drop(&mut self) {
        if self.reading && !self.server.borrow().is_closed(self.cid) {
            self.event(ReadEvent::End);
        }
        self.pump();
        self.server.borrow_mut().detach(self.cid);
    }
}

fn has(hay: &[u8], needle: &[u8]) -> bool {
    hay.len() >= needle.len() && hay.windows(needle.len()).any(|w| w == needle)
}

fn quiet_client(srv: &Host) -> Conn {
    let mut c = srv.connect();
    c.connect_opts(NO_VERBOSE);
    c
}

#[test]
fn a_subscribe_and_a_publish_in_one_segment_still_self_deliver() {
    let srv = Host::start();
    let mut c = quiet_client(&srv);
    c.send(b"SUB mine 1\r\nPUB mine 1\r\nx\r\n");
    assert_eq!(
        c.drain(QUIET),
        b"MSG mine 1 1\r\nx\r\n",
        "a SUB earlier in the same segment is a SUB that happened"
    );
}

#[test]
fn a_publish_earlier_in_the_same_segment_than_the_subscribe_is_not_delivered() {
    let srv = Host::start();
    let mut c = quiet_client(&srv);
    c.send(b"PUB mine 1\r\nx\r\nSUB mine 1\r\n");
    c.send(b"PUB mine 1\r\ny\r\n");
    assert_eq!(
        c.drain(QUIET),
        b"MSG mine 1 1\r\ny\r\n",
        "the publish before the subscribe cannot be interested in it"
    );
}

#[test]
fn another_connections_subscribe_invalidates_the_cached_answer() {
    let srv = Host::start();
    let mut a = quiet_client(&srv);
    let mut b = quiet_client(&srv);

    a.send(&pub_frame("two", None, b"1"));
    a.barrier(); // proves the publish, and the empty answer it cached, is done

    b.send(b"SUB two 1\r\n");
    b.barrier();

    a.send(&pub_frame("two", None, b"2"));
    a.barrier();

    let got = b.drain(QUIET);
    assert!(
        has(&got, b"MSG two 1 1\r\n2"),
        "B subscribed after A's first publish and must still get the second; got {got:?}"
    );
    assert!(
        !has(&got, b"MSG two 1 1\r\n1"),
        "A's first publish was before B existed"
    );
}

#[test]
fn a_close_invalidates_the_cached_answer() {
    let srv = Host::start();
    let mut a = quiet_client(&srv);
    let b = quiet_client(&srv);
    let mut b = b;
    b.send(b"SUB gone 1\r\n");
    b.barrier();

    drop(b);
    a.send(&pub_frame("gone", None, b"x"));
    a.barrier();
    a.send(&pub_frame("gone", None, b"y"));
    match a.next(IO) {
        Next::Closed | Next::Timeout | Next::Line(_) => {}
    }
    a.barrier();
}

#[test]
fn an_auto_unsub_that_spends_a_subscription_invalidates_the_cached_answer() {
    let srv = Host::start();
    let mut a = quiet_client(&srv);
    let mut b = quiet_client(&srv);
    b.send(b"SUB once 1\r\nUNSUB 1 1\r\n");
    b.barrier();

    a.send(&pub_frame("once", None, b"1"));
    a.barrier();
    a.send(&pub_frame("once", None, b"2"));
    a.barrier();

    let got = b.drain(QUIET);
    assert!(
        has(&got, b"MSG once 1 1\r\n1"),
        "the first message must reach it; got {got:?}"
    );
    assert!(
        !has(&got, b"MSG once 1 1\r\n2"),
        "the subscription was spent, so the second must not arrive; got {got:?}"
    );
}

#[test]
fn a_message_on_a_wildcard_subject_is_dropped() {
    let srv = Host::start();
    let mut listener = quiet_client(&srv);
    listener.send(b"SUB > 1\r\nSUB foo.* 2\r\nSUB foo.> q 3\r\n");
    let mut c = srv.connect();
    c.connect_opts(r#"{"verbose":false,"pedantic":false}"#);
    for subject in ["foo.*", "foo.>", "*", ">", "a.*.b"] {
        c.send(&pub_frame(subject, None, b"x"));
    }
    assert_eq!(c.drain(QUIET), b"", "silently");
    assert_eq!(listener.drain(QUIET), b"", "and to nobody");
    c.connect_opts(r#"{"pedantic":true}"#);
    c.send(&pub_frame("foo.*", None, b"x"));
    assert_eq!(c.drain(QUIET), b"-ERR 'Invalid Publish Subject'\r\n");
    assert_eq!(listener.drain(QUIET), b"", "complained about, and dropped all the same");
    c.send(&pub_frame("foo.*x", None, b"y"));
    assert_eq!(c.drain(QUIET), b"");
    let seen = listener.drain(QUIET);
    assert!(has(&seen, b"MSG foo.*x 1 1\r\ny\r\n"), "a legal literal: {seen:?}");
}

#[test]
fn a_message_on_a_subject_that_is_not_legal_is_routed_all_the_same() {
    let srv = Host::start();
    let mut listener = quiet_client(&srv);
    listener.send(b"SUB > 1\r\n");
    let mut c = srv.connect();
    c.connect_opts(r#"{"verbose":false,"pedantic":false}"#);
    c.send(&pub_frame("foo..bar", None, b"x"));
    assert_eq!(c.drain(QUIET), b"", "silently");
    assert_eq!(listener.drain(QUIET), b"MSG foo..bar 1 1\r\nx\r\n");
    c.connect_opts(r#"{"pedantic":true}"#);
    c.send(&pub_frame(".foo", None, b"y"));
    assert_eq!(c.drain(QUIET), b"-ERR 'Invalid Publish Subject'\r\n");
    assert_eq!(listener.drain(QUIET), b"MSG .foo 1 1\r\ny\r\n", "complained about, and routed");
}

#[test]
fn a_dropped_request_is_one_that_nobody_heard() {
    let srv = Host::start();
    let mut other = quiet_client(&srv);
    other.send(b"SUB > 9\r\n");
    let mut c = srv.connect();
    c.connect_opts(r#"{"verbose":false,"pedantic":false,"headers":true,"no_responders":true}"#);
    c.send(b"SUB inbox 7\r\n");
    c.send(&pub_frame("svc.*", Some("inbox"), b"x"));
    assert_eq!(
        c.drain(QUIET),
        b"HMSG inbox 7 37 37\r\nNATS/1.0 503\r\nNats-Subject: svc.*\r\n\r\n\r\n"
    );
    assert_eq!(other.drain(QUIET), b"");
}

#[test]
fn every_listener_gets_its_own_copies_in_order() {
    let srv = Host::start();
    let mut a = quiet_client(&srv);
    a.send(b"SUB s 1\r\nSUB * 2\r\nSUB other 3\r\n");
    let mut b = quiet_client(&srv);
    b.send(b"SUB s 4\r\n");
    let mut deaf = srv.connect();
    deaf.connect_opts(r#"{"verbose":false,"echo":false}"#);
    deaf.send(b"SUB s 5\r\nPUB s 1\r\nx\r\nPUB s 1\r\ny\r\n");
    assert_eq!(
        a.drain(QUIET),
        b"MSG s 1 1\r\nx\r\nMSG s 2 1\r\nx\r\nMSG s 1 1\r\ny\r\nMSG s 2 1\r\ny\r\n"
    );
    assert_eq!(b.drain(QUIET), b"MSG s 4 1\r\nx\r\nMSG s 4 1\r\ny\r\n");
    assert_eq!(deaf.drain(QUIET), b"", "the echo is off");
}

#[test]
fn a_verbose_client_hears_of_its_publish_before_it_hears_the_message() {
    let srv = Host::start();
    let mut c = srv.connect();
    c.send(b"SUB s 1\r\nPUB s 1\r\nx\r\nUNSUB 1\r\nPING\r\n");
    assert_eq!(
        c.drain(QUIET),
        b"+OK\r\n+OK\r\nMSG s 1 1\r\nx\r\n+OK\r\nPONG\r\n"
    );
    c.connect_opts(r#"{"verbose":false}"#);
    assert_eq!(c.drain(QUIET), b"", "what counts is what it wants afterwards");
}
