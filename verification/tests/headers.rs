#![allow(dead_code)]
//! Header blocks, the capability gate, and the status frame for requests nobody hears.

use std::cell::RefCell;
use std::rc::Rc;

use nats_server_rs::config::parse_config;
use nats_server_rs::loops::{ReadAction, ReadEvent, WriteAction, WriteEvent};
use nats_server_rs::reader::Reader;
use nats_server_rs::server::Server;
use nats_server_rs::wire::{header_block, hpub_frame, msg_body, pub_frame, take_line, Next, CAPS, CLOSED, IO, NO_VERBOSE, QUIET};

/// A server, and the clients that talk to it without sockets in between.
struct Host {
    server: Rc<RefCell<Server>>,
    port: u16,
}

impl Host {
    fn start() -> Host {
        Host::start_with_config("")
    }

    fn start_with_config(text: &str) -> Host {
        let (cfg, _) = parse_config(text).expect("a good config");
        cfg.validate().expect("limits that fit together");
        let mut server = Server::new(cfg, 11, 22, 33);
        server.set_listen("127.0.0.1".into(), 4222);
        Host { server: Rc::new(RefCell::new(server)), port: 4222 }
    }

    fn connect(&self) -> Conn {
        let mut c = self.connect_mute();
        let line = c.next(IO);
        let line = line.line();
        assert!(line.starts_with(b"INFO "), "first line must be INFO: {line:?}");
        c.info = serde_json::from_slice(&line[5..line.len() - 2]).expect("INFO is JSON");
        c
    }

    /// A connection whose INFO is still to be read.
    fn connect_mute(&self) -> Conn {
        let mut server = self.server.borrow_mut();
        let cid = server.accept().expect("a place");
        server.attach(cid, "127.0.0.1");
        Conn {
            server: self.server.clone(),
            cid,
            reader: Reader::new(),
            inbox: Vec::new(),
            reading: true,
            writing: true,
            info: serde_json::Value::Null,
        }
    }
}

struct Conn {
    server: Rc<RefCell<Server>>,
    cid: u64,
    reader: Reader,
    inbox: Vec<u8>,
    reading: bool,
    writing: bool,
    info: serde_json::Value,
}

impl Conn {
    fn event(&mut self, ev: ReadEvent) {
        let mut server = self.server.borrow_mut();
        match server.read_step(self.cid, &mut self.reader, ev) {
            ReadAction::Read => {}
            ReadAction::Stop => self.reading = false,
            ReadAction::Run(events) => {
                for ev in events {
                    if !server.execute(self.cid, ev).keep {
                        self.reading = false;
                        break;
                    }
                }
            }
        }
    }

    /// One segment from the client.
    fn send(&mut self, bytes: &[u8]) {
        if !self.reading || self.server.borrow().is_closed(self.cid) {
            return;
        }
        self.reader.make_room();
        self.reader.buffer().extend_from_slice(bytes);
        self.event(ReadEvent::Segment(bytes.len()));
    }

    /// Moves what waits in the server to the client.
    fn pump(&mut self) {
        let mut server = self.server.borrow_mut();
        let mut ev = WriteEvent::Ready;
        while self.writing {
            match server.write_step(self.cid, ev) {
                WriteAction::Write(parts) => {
                    let mut n = 0;
                    for part in &parts {
                        self.inbox.extend_from_slice(part);
                        n += part.len();
                    }
                    ev = WriteEvent::Wrote(n);
                }
                WriteAction::Wait => break,
                WriteAction::Stop => {
                    self.writing = false;
                    break;
                }
            }
        }
    }

    fn next(&mut self, _within: u64) -> Next {
        self.pump();
        match take_line(&mut self.inbox) {
            Some(line) => Next::Line(line),
            None if !self.writing => Next::Closed,
            None => Next::Timeout,
        }
    }

    fn drain(&mut self, _within: u64) -> Vec<u8> {
        self.pump();
        std::mem::take(&mut self.inbox)
    }

    fn closed(&mut self, _within: u64) -> bool {
        self.pump();
        !self.writing
    }

    fn connect_opts(&mut self, json: &str) {
        self.send(format!("CONNECT {json}\r\n").as_bytes());
    }

    fn barrier(&mut self) {
        self.send(b"PING\r\n");
        assert_eq!(self.next(IO).line(), b"PONG\r\n");
    }

    fn read_msg_body(&mut self, n: usize, _within: u64) -> Vec<u8> {
        self.pump();
        assert!(self.inbox.len() >= n + 2, "the body is not there: {:?}", self.inbox);
        let rest = self.inbox.split_off(n + 2);
        let bytes = std::mem::replace(&mut self.inbox, rest);
        msg_body(&bytes, n).expect("a body and its line end")
    }
}

impl Drop for Conn {
    fn drop(&mut self) {
        if self.reading && !self.server.borrow().is_closed(self.cid) {
            self.event(ReadEvent::End);
        }
        self.pump();
        self.server.borrow_mut().detach(self.cid);
    }
}

fn caps_session(srv: &Host) -> Conn {
    let mut c = srv.connect();
    c.connect_opts(CAPS);
    c
}

fn plain_session(srv: &Host) -> Conn {
    let mut c = srv.connect();
    c.connect_opts(NO_VERBOSE);
    c
}

fn subscribe(c: &mut Conn, spec: &str) {
    c.send(format!("SUB {spec}\r\n").as_bytes());
    c.barrier();
}

#[test]
fn hpub_with_empty_header_block_delivers_hmsg_verbatim() {
    let srv = Host::start();
    let mut sub = caps_session(&srv);
    subscribe(&mut sub, "hb 1");
    let mut p = caps_session(&srv);
    p.send(&hpub_frame("hb", None, &header_block(&[]), b"ab"));

    let line = sub.next(IO);
    assert_eq!(line.line(), b"HMSG hb 1 12 14\r\n");
    assert_eq!(
        sub.read_msg_body(14, IO),
        b"NATS/1.0\r\n\r\nab",
        "header block then payload, untouched"
    );
}

#[test]
fn hpub_with_header_lines_delivers_hmsg_verbatim() {
    let srv = Host::start();
    let mut sub = caps_session(&srv);
    subscribe(&mut sub, "hb 1");
    let mut p = caps_session(&srv);
    let hdr = header_block(&["X-Key: value"]);
    assert_eq!(hdr.len(), 26, "the block length is part of the frame");
    p.send(&hpub_frame("hb", None, &hdr, b"abc"));

    let line = sub.next(IO);
    assert_eq!(line.line(), b"HMSG hb 1 26 29\r\n");
    assert_eq!(
        sub.read_msg_body(29, IO),
        b"NATS/1.0\r\nX-Key: value\r\n\r\nabc"
    );
}

#[test]
fn hpub_with_reply_uses_the_six_field_hmsg() {
    let srv = Host::start();
    let mut sub = caps_session(&srv);
    subscribe(&mut sub, "hpr 1");
    let mut p = caps_session(&srv);
    p.send(&hpub_frame(
        "hpr",
        Some("reply.me"),
        &header_block(&[]),
        b"ab",
    ));

    let line = sub.next(IO);
    assert_eq!(line.line(), b"HMSG hpr 1 reply.me 12 14\r\n");
    assert_eq!(sub.read_msg_body(14, IO), b"NATS/1.0\r\n\r\nab");
}

#[test]
fn hpub_without_the_headers_capability_closes_silently() {
    let srv = Host::start();
    let mut c = plain_session(&srv);
    c.send(&hpub_frame("hb", None, &header_block(&[]), b"ab"));
    assert_eq!(c.drain(QUIET), b"", "a silent error sends no bytes");
    assert!(c.closed(CLOSED));
}

#[test]
fn headers_are_stripped_for_a_subscriber_without_the_capability() {
    let srv = Host::start();
    let mut sub = plain_session(&srv);
    subscribe(&mut sub, "strip 1");
    let mut p = caps_session(&srv);
    p.send(&hpub_frame(
        "strip",
        None,
        &header_block(&["X-Key: value"]),
        b"abc",
    ));

    let line = sub.next(IO);
    assert_eq!(line.line(), b"MSG strip 1 3\r\n", "header block removed");
    assert_eq!(sub.read_msg_body(3, IO), b"abc");
}

#[test]
fn headers_survive_wildcard_matching() {
    let srv = Host::start();
    let mut sub = caps_session(&srv);
    subscribe(&mut sub, "foo.* 1");
    let mut p = caps_session(&srv);
    p.send(&hpub_frame("foo.bar", None, &header_block(&[]), b"ab"));
    let line = sub.next(IO);
    assert_eq!(
        line.line(),
        b"HMSG foo.bar 1 12 14\r\n",
        "the delivered subject is the published one"
    );
    assert_eq!(sub.read_msg_body(14, IO), b"NATS/1.0\r\n\r\nab");
}

#[test]
fn plain_publish_is_msg_even_for_a_headers_capable_subscriber() {
    let srv = Host::start();
    let mut sub = caps_session(&srv);
    subscribe(&mut sub, "plain 1");
    let mut p = caps_session(&srv);
    p.send(&pub_frame("plain", None, b"abc"));
    let line = sub.next(IO);
    assert_eq!(line.line(), b"MSG plain 1 3\r\n");
    assert_eq!(sub.read_msg_body(3, IO), b"abc");
}

#[test]
fn hpub_self_delivery_keeps_headers() {
    let srv = Host::start();
    let mut c = caps_session(&srv);
    subscribe(&mut c, "se 1");
    c.send(&hpub_frame("se", None, &header_block(&[]), b"ab"));
    let line = c.next(IO);
    assert_eq!(line.line(), b"HMSG se 1 12 14\r\n");
    assert_eq!(c.read_msg_body(14, IO), b"NATS/1.0\r\n\r\nab");
}

#[test]
fn malformed_hpub_control_lines_close_silently() {
    let srv = Host::start();
    for line in [
        "HPUB z 12\r\n",        // one size is not enough
        "HPUB z 20 10\r\n",     // header larger than the total
        "HPUB z x 14\r\n",      // non-numeric
        "HPUB z r 12 14 9\r\n", // five args
    ] {
        let mut c = caps_session(&srv);
        subscribe(&mut c, "z 1");
        c.send(line.as_bytes());
        c.send(&header_block(&[]));
        assert_eq!(c.drain(QUIET), b"", "for {line:?}");
        assert!(c.closed(CLOSED), "for {line:?}");
    }
}

#[test]
fn hpub_with_zero_header_block_delivers_msg() {
    let srv = Host::start();
    let mut sub = caps_session(&srv);
    subscribe(&mut sub, "z0 1");
    let mut p = caps_session(&srv);
    p.send(b"HPUB z0 0 2\r\nab\r\n");
    let line = sub.next(IO);
    assert_eq!(line.line(), b"MSG z0 1 2\r\n");
    assert_eq!(sub.read_msg_body(2, IO), b"ab");
}

#[test]
fn header_bytes_count_toward_max_payload() {
    let srv = Host::start_with_config("max_payload: 1024\n");
    let mut c = srv.connect();
    assert_eq!(
        c.info["max_payload"].as_u64(),
        Some(1024),
        "the limit under test must be the configured one"
    );
    c.connect_opts(CAPS);

    c.send(&hpub_frame(
        "fit",
        None,
        &header_block(&[]),
        &vec![b'x'; 1012],
    ));
    assert_eq!(c.drain(QUIET), b"", "at the limit is not over it");
    assert!(!c.closed(CLOSED));

    c.send(&hpub_frame(
        "over",
        None,
        &header_block(&[]),
        &vec![b'x'; 1013],
    ));
    let seen = c.drain(QUIET);
    assert_eq!(seen, b"-ERR 'Maximum Payload Violation'\r\n");
    assert!(c.closed(CLOSED));
}

fn expect_no_responder_status(c: &mut Conn, inbox: &str, published: &str, sid: &str) {
    let hdr = format!("NATS/1.0 503\r\nNats-Subject: {published}\r\n\r\n");
    assert_eq!(hdr.len(), 32 + published.len(), "the size promise");
    let n = hdr.len();
    let line = c.next(IO);
    assert_eq!(
        line.line(),
        format!("HMSG {inbox} {sid} {n} {n}\r\n").as_bytes(),
        "503 status frame header"
    );
    assert_eq!(c.read_msg_body(n, IO), hdr.as_bytes());
}

#[test]
fn unanswered_request_gets_the_503_status_frame() {
    let srv = Host::start();
    let mut c = caps_session(&srv);
    subscribe(&mut c, "inbox.1 1");
    c.send(&hpub_frame(
        "svc.echo",
        Some("inbox.1"),
        &header_block(&[]),
        b"hi",
    ));
    expect_no_responder_status(&mut c, "inbox.1", "svc.echo", "1");
    assert!(!c.closed(CLOSED), "the connection must stay usable");

    c.send(&pub_frame("svc.echo", Some("inbox.1"), b"hi"));
    expect_no_responder_status(&mut c, "inbox.1", "svc.echo", "1");
}

#[test]
fn no_503_when_a_subscriber_exists() {
    let srv = Host::start();
    let mut caller = caps_session(&srv);
    subscribe(&mut caller, "inbox.2 1");
    let mut responder = caps_session(&srv);
    subscribe(&mut responder, "svc.echo 1");

    caller
        .send(&hpub_frame(
            "svc.echo",
            Some("inbox.2"),
            &header_block(&[]),
            b"hi",
        ));
    let line = responder.next(IO);
    assert_eq!(line.line(), b"HMSG svc.echo 1 inbox.2 12 14\r\n");
    responder.read_msg_body(14, IO);
    let seen = caller.drain(QUIET);
    assert_eq!(seen, b"", "a delivered request must not also get a 503");
}

#[test]
fn no_503_when_a_queue_group_member_exists() {
    let srv = Host::start();
    let mut caller = caps_session(&srv);
    subscribe(&mut caller, "inbox.3 1");
    let mut worker = caps_session(&srv);
    subscribe(&mut worker, "svc.q g1 1");

    caller
        .send(&hpub_frame(
            "svc.q",
            Some("inbox.3"),
            &header_block(&[]),
            b"hi",
        ));
    let line = worker.next(IO);
    assert_eq!(line.line(), b"HMSG svc.q 1 inbox.3 12 14\r\n");
    worker.read_msg_body(14, IO);
    assert_eq!(caller.drain(QUIET), b"", "queue hit means delivered");
}

#[test]
fn no_503_without_the_no_responders_capability() {
    let srv = Host::start();
    let mut c = srv.connect();
    c.connect_opts(r#"{"verbose":false,"headers":true,"no_responders":false}"#);
    subscribe(&mut c, "inbox.4 1");
    c.send(&hpub_frame(
        "svc.none",
        Some("inbox.4"),
        &header_block(&[]),
        b"hi",
    ));
    assert_eq!(c.drain(QUIET), b"");
}

#[test]
fn no_503_when_the_publisher_did_not_subscribe_its_inbox() {
    let srv = Host::start();
    let mut c = caps_session(&srv);
    c.send(&hpub_frame(
        "svc.none",
        Some("inbox.5"),
        &header_block(&[]),
        b"hi",
    ));
    assert_eq!(c.drain(QUIET), b"");
    assert!(!c.closed(CLOSED), "and the connection is fine");
}

#[test]
fn request_reply_round_trip_with_headers() {
    let srv = Host::start();
    let mut caller = caps_session(&srv);
    subscribe(&mut caller, "_in.1 1");
    let mut responder = caps_session(&srv);
    subscribe(&mut responder, "svc.sum 1");

    let req_hdr = header_block(&["X-Op: sum"]);
    caller
        .send(&hpub_frame("svc.sum", Some("_in.1"), &req_hdr, b"7"));
    let line = responder.next(IO);
    assert_eq!(
        line.line(),
        format!(
            "HMSG svc.sum 1 _in.1 {} {}\r\n",
            req_hdr.len(),
            req_hdr.len() + 1
        )
        .as_bytes()
    );
    let mut frame = responder.read_msg_body(req_hdr.len() + 1, IO);
    frame.extend_from_slice(&[req_hdr.as_slice(), b"7"].concat());
    assert!(
        frame.starts_with(b"NATS/1.0\r\nX-Op: sum\r\n\r\n"),
        "got {frame:?}"
    );

    let resp_hdr = header_block(&["X-Status: ok"]);
    responder
        .send(&hpub_frame("_in.1", None, &resp_hdr, b"42"));
    let line = caller.next(IO);
    assert_eq!(
        line.line(),
        format!("HMSG _in.1 1 {} {}\r\n", resp_hdr.len(), resp_hdr.len() + 2).as_bytes()
    );
    assert_eq!(
        caller.read_msg_body(resp_hdr.len() + 2, IO),
        [resp_hdr.as_slice(), b"42"].concat()
    );
}

#[test]
fn unanswered_request_leaves_no_partial_frame() {
    let srv = Host::start();
    let mut c = caps_session(&srv);
    subscribe(&mut c, "inbox.6 1");
    c.send(&hpub_frame(
        "svc.gone",
        Some("inbox.6"),
        &header_block(&[]),
        b"hi",
    ));
    expect_no_responder_status(&mut c, "inbox.6", "svc.gone", "1");
    assert_eq!(c.drain(QUIET), b"", "the 503 is the whole response");

    c.send(&pub_frame("inbox.6", None, b"tail"));
    let line = c.next(IO);
    assert!(
        matches!(&line, Next::Line(l) if l.starts_with(b"MSG inbox.6 1 4\r\n")),
        "got {line:?}"
    );
    assert_eq!(c.read_msg_body(4, IO), b"tail");
}
