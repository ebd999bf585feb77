#![allow(dead_code)]
//! Which control lines are accepted, what comes back, and what happens to the connection.

use std::cell::RefCell;
use std::rc::Rc;

use nats_server_rs::config::parse_config;
use nats_server_rs::loops::{ReadAction, ReadEvent, WriteAction, WriteEvent};
use nats_server_rs::reader::Reader;
use nats_server_rs::server::Server;
use nats_server_rs::wire::{msg_body, pub_frame, take_line, Next, CAPS, CLOSED, IO, NO_VERBOSE, QUIET};

/// A server, and the clients that talk to it without sockets in between.
struct Host {
    server: Rc<RefCell<Server>>,
    port: u16,
}

impl Host {
    fn start() -> Host {
        Host::start_with_config("")
    }

    fn start_with_config(text: &str) -> Host {
        let (cfg, _) = parse_config(text).expect("a good config");
        cfg.validate().expect("limits that fit together");
        let mut server = Server::new(cfg, 11, 22, 33);
        server.set_listen("127.0.0.1".into(), 4222);
        Host { server: Rc::new(RefCell::new(server)), port: 4222 }
    }

    fn connect(&self) -> Conn {
        let mut c = self.connect_mute();
        let line = c.next(IO);
        let line = line.line();
        assert!(line.starts_with(b"INFO "), "first line must be INFO: {line:?}");
        c.info = serde_json::from_slice(&line[5..line.len() - 2]).expect("INFO is JSON");
        c
    }

    /// A connection whose INFO is still to be read.
    fn connect_mute(&self) -> Conn {
        let mut server = self.server.borrow_mut();
        let cid = server.accept().expect("a place");
        server.attach(cid, "127.0.0.1");
        Conn {
            server: self.server.clone(),
            cid,
            reader: Reader::new(),
            inbox: Vec::new(),
            reading: true,
            writing: true,
            info: serde_json::Value::Null,
        }
    }
}

struct Conn {
    server: Rc<RefCell<Server>>,
    cid: u64,
    reader: Reader,
    inbox: Vec<u8>,
    reading: bool,
    writing: bool,
    info: serde_json::Value,
}

impl Conn {
    fn event(&mut self, ev: ReadEvent) {
        let mut server = self.server.borrow_mut();
        match server.read_step(self.cid, &mut self.reader, ev) {
            ReadAction::Read => {}
            ReadAction::Stop => self.reading = false,
            ReadAction::Run(events) => {
                for ev in events {
                    if !server.execute(self.cid, ev).keep {
                        self.reading = false;
                        break;
                    }
                }
            }
        }
    }

    /// One segment from the client.
    fn send(&mut self, bytes: &[u8]) {
        if !self.reading || self.server.borrow().is_closed(self.cid) {
            return;
        }
        self.reader.make_room();
        self.reader.buffer().extend_from_slice(bytes);
        self.event(ReadEvent::Segment(bytes.len()));
    }

    /// Moves what waits in the server to the client.
    fn pump(&mut self) {
        let mut server = self.server.borrow_mut();
        let mut ev = WriteEvent::Ready;
        while self.writing {
            match server.write_step(self.cid, ev) {
                WriteAction::Write(parts) => {
                    let mut n = 0;
                    for part in &parts {
                        self.inbox.extend_from_slice(part);
                        n += part.len();
                    }
                    ev = WriteEvent::Wrote(n);
                }
                WriteAction::Wait => break,
                WriteAction::Stop => {
                    self.writing = false;
                    break;
                }
            }
        }
    }

    fn next(&mut self, _within: u64) -> Next {
        self.pump();
        match take_line(&mut self.inbox) {
            Some(line) => Next::Line(line),
            None if !self.writing => Next::Closed,
            None => Next::Timeout,
        }
    }

    fn drain(&mut self, _within: u64) -> Vec<u8> {
        self.pump();
        std::mem::take(&mut self.inbox)
    }

    fn closed(&mut self, _within: u64) -> bool {
        self.pump();
        !self.writing
    }

    fn connect_opts(&mut self, json: &str) {
        self.send(format!("CONNECT {json}\r\n").as_bytes());
    }

    fn barrier(&mut self) {
        self.send(b"PING\r\n");
        assert_eq!(self.next(IO).line(), b"PONG\r\n");
    }

    fn read_msg_body(&mut self, n: usize, _within: u64) -> Vec<u8> {
        self.pump();
        assert!(self.inbox.len() >= n + 2, "the body is not there: {:?}", self.inbox);
        let rest = self.inbox.split_off(n + 2);
        let bytes = std::mem::replace(&mut self.inbox, rest);
        msg_body(&bytes, n).expect("a body and its line end")
    }
}

impl Drop for Conn {
    fn drop(&mut self) {
        if self.reading && !self.server.borrow().is_closed(self.cid) {
            self.event(ReadEvent::End);
        }
        self.pump();
        self.server.borrow_mut().detach(self.cid);
    }
}

fn session(srv: &Host) -> Conn {
    let mut c = srv.connect();
    c.connect_opts(NO_VERBOSE);
    c
}

fn observe(c: &mut Conn, bytes: &[u8]) -> (Vec<u8>, bool) {
    c.send(bytes);
    let seen = c.drain(QUIET);
    let closed = c.closed(CLOSED);
    (seen, closed)
}

#[test]
fn unknown_verb_is_class_a() {
    let srv = Host::start();
    let mut c = session(&srv);
    let (seen, closed) = observe(&mut c, b"BOGUS\r\n");
    assert_eq!(seen, b"-ERR 'Unknown Protocol Operation'\r\n");
    assert!(closed, "a fatal error must close the connection");
}

#[test]
fn empty_control_line_is_class_a() {
    let srv = Host::start();
    let mut c = session(&srv);
    let (seen, closed) = observe(&mut c, b"\r\n");
    assert_eq!(seen, b"-ERR 'Unknown Protocol Operation'\r\n");
    assert!(closed);
}

#[test]
fn psub_variants_are_class_a() {
    let srv = Host::start();
    for verb in [
        b"PSUB foo 1\r\n".as_slice(),
        b"psub foo 1\r\n".as_slice(),
        b"A+ foo 1\r\n".as_slice(),
    ] {
        let mut c = session(&srv);
        let (seen, closed) = observe(&mut c, verb);
        assert_eq!(
            seen, b"-ERR 'Unknown Protocol Operation'\r\n",
            "for {verb:?}"
        );
        assert!(closed, "for {verb:?}");
    }
}

#[test]
fn pub_without_args_is_class_a() {
    let srv = Host::start();
    let mut c = session(&srv);
    let (seen, closed) = observe(&mut c, b"PUB\r\n");
    assert_eq!(seen, b"-ERR 'Unknown Protocol Operation'\r\n");
    assert!(closed);
}

#[test]
fn unsub_without_args_is_class_a() {
    let srv = Host::start();
    let mut c = session(&srv);
    let (seen, closed) = observe(&mut c, b"UNSUB\r\n");
    assert_eq!(seen, b"-ERR 'Unknown Protocol Operation'\r\n");
    assert!(closed);
}

#[test]
fn oversized_control_line_closes_with_err() {
    let srv = Host::start();
    let mut c = session(&srv);
    let line = format!("SUB {} 1\r\n", "a".repeat(5000));
    let (seen, closed) = observe(&mut c, line.as_bytes());
    assert!(
        seen.starts_with(b"-ERR '") && seen.windows(12).any(|w| w == b"control line"),
        "got {seen:?}"
    );
    assert!(closed, "oversized control line must close");
}

#[test]
fn subscribe_with_invalid_subject_is_class_b() {
    let srv = Host::start();
    for subj in ["foo..bar", ".foo", "foo.", "foo.>.bar"] {
        let mut c = session(&srv);
        let (seen, closed) = observe(&mut c, format!("SUB {subj} 1\r\n").as_bytes());
        assert_eq!(seen, b"-ERR 'Invalid Subject'\r\n", "for subject {subj:?}");
        assert!(!closed, "a soft error must keep the connection for {subj:?}");
        c.send(b"PING\r\n");
        assert_eq!(c.next(IO).line(), b"PONG\r\n");
    }
}

#[test]
fn subscribe_wildcard_placement_rules() {
    let srv = Host::start();
    for (subj, expect_err) in [
        ("foo.>", false),
        (">", false),
        ("*", false),
        ("foo.*x", false), // literal token "*x": legal, matches nothing useful
        ("foo.>.bar", true),
        ("foo..bar", true),
    ] {
        let mut c = session(&srv);
        let (seen, closed) = observe(&mut c, format!("SUB {subj} 1\r\n").as_bytes());
        if expect_err {
            assert_eq!(seen, b"-ERR 'Invalid Subject'\r\n", "for {subj:?}");
        } else {
            assert_eq!(seen, b"", "for {subj:?}");
        }
        assert!(!closed, "for {subj:?}");
    }
}

#[test]
fn publish_on_wildcard_subject_is_class_b() {
    let srv = Host::start();
    let mut c = session(&srv);
    let (seen, closed) = observe(&mut c, &pub_frame("foo.*", None, b"x"));
    assert_eq!(seen, b"-ERR 'Invalid Publish Subject'\r\n");
    assert!(!closed);
    c.send(b"PING\r\n");
    assert_eq!(c.next(IO).line(), b"PONG\r\n");
}

#[test]
fn publish_with_invalid_subject_is_class_b() {
    let srv = Host::start();
    let mut c = session(&srv);
    let (seen, closed) = observe(&mut c, &pub_frame("foo..bar", None, b"x"));
    assert_eq!(seen, b"-ERR 'Invalid Publish Subject'\r\n");
    assert!(!closed);
}

#[test]
fn publish_on_wildcard_subject_is_silent_when_not_pedantic() {
    let srv = Host::start();
    let mut c = srv.connect();
    c.connect_opts(r#"{"verbose":false,"pedantic":false}"#);
    c.send(b"SUB other 1\r\n");
    let (seen, closed) = observe(&mut c, &pub_frame("foo.*", None, b"x"));
    assert_eq!(seen, b"", "pedantic:false must not warn");
    assert!(!closed);
}

#[test]
fn malformed_control_lines_close_without_bytes() {
    let srv = Host::start();
    let cases: &[&str] = &[
        "SUB foo\r\n",            // no sid
        "SUB a b 1 9\r\n",        // 4 args
        "UNSUB 1 2 3\r\n",        // 3 args
        "PUB foo\r\n",            // no size
        "PUB foo notanumber\r\n", // size not numeric
        "PUB foo -1\r\n",         // negative size
        "PUB a b c 1\r\n",        // 4 args
    ];
    for case in cases {
        let mut c = session(&srv);
        let (seen, closed) = observe(&mut c, case.as_bytes());
        assert_eq!(seen, b"", "for {case:?}: a silent error sends no bytes");
        assert!(closed, "for {case:?}: a silent error must close");
    }
}

#[test]
fn truncated_publish_body_stays_silent_and_open() {
    let srv = Host::start();
    let mut sub = session(&srv);
    sub.send(b"SUB part 1\r\n");
    sub.barrier();

    let mut pubc = session(&srv);
    pubc.send(b"PUB part 6\r\nab");
    let seen = pubc.drain(QUIET);
    assert_eq!(
        seen, b"",
        "server must not complain about an in-flight frame"
    );
    let seen = sub.drain(QUIET);
    assert_eq!(seen, b"", "an incomplete publish must not be delivered");

    pubc.send(b"cdef\r\n");
    let got = sub.next(IO);
    assert_eq!(got.line(), b"MSG part 1 6\r\n");
    assert_eq!(sub.read_msg_body(6, IO), b"abcdef");
}

#[test]
fn sub_third_arg_is_the_queue_not_a_limit() {
    let srv = Host::start();
    let mut a = session(&srv);
    a.send(b"SUB q3 1 3\r\n"); // subject q3, queue "1", sid "3"
    a.barrier();
    let mut b = session(&srv);
    b.send(b"SUB q3 1 7\r\n"); // same queue group, different sid
    b.barrier();

    let mut p = session(&srv);
    for i in 0..20u8 {
        p.send(&pub_frame("q3", None, &[b'a' + i]));
    }
    p.barrier();
    let short = 800;
    let mut got = Vec::new();
    for (name, c) in [("a", &mut a), ("b", &mut b)] {
        while let Next::Line(l) = c.next(short) {
            assert!(l.starts_with(b"MSG q3 "), "{name} got {l:?}");
            let sid = String::from_utf8_lossy(&l)
                .split(' ')
                .nth(2)
                .unwrap()
                .chars()
                .next()
                .unwrap();
            let body = c.read_msg_body(1, IO);
            got.push((name, sid, body[0]));
        }
    }
    assert_eq!(got.len(), 20, "exactly one delivery per message: {got:?}");
    assert!(
        got.iter().filter(|(n, _, _)| *n == "a").count() > 0
            && got.iter().filter(|(n, _, _)| *n == "b").count() > 0,
        "both queue members must be reached: {got:?}"
    );
    for &(_, sid, _) in got.iter().filter(|(n, _, _)| *n == "a") {
        assert_eq!(sid, '3', "a's sid is the third arg");
    }
    for &(_, sid, _) in got.iter().filter(|(n, _, _)| *n == "b") {
        assert_eq!(sid, '7', "b's sid is the third arg");
    }
}

#[test]
fn pub_three_args_is_subject_reply_size() {
    let srv = Host::start();
    let mut c = session(&srv);
    c.send(b"SUB rr 1\r\n");
    c.barrier();
    c.send(&pub_frame("rr", Some("reply.me"), b"hi"));
    let line = c.next(IO);
    assert_eq!(line.line(), b"MSG rr 1 reply.me 2\r\n");
    assert_eq!(c.read_msg_body(2, IO), b"hi");
}

#[test]
fn reusing_an_sid_keeps_the_original_subscription() {
    let srv = Host::start();
    let mut c = session(&srv);
    c.send(b"SUB first 1\r\nSUB second 1\r\n");
    c.barrier();

    let mut p = session(&srv);
    p.send(&pub_frame("first", None, b"F"));
    p.send(&pub_frame("second", None, b"S"));

    let line = c.next(IO);
    assert_eq!(line.line(), b"MSG first 1 1\r\n", "the original wins");
    assert_eq!(c.read_msg_body(1, IO), b"F");
    let seen = c.drain(QUIET);
    assert_eq!(
        seen, b"",
        "the second subject must not be delivered on that sid"
    );
}

#[test]
fn same_sid_same_subject_delivers_once() {
    let srv = Host::start();
    let mut c = session(&srv);
    c.send(b"SUB dup 1\r\nSUB dup 1\r\n");
    c.barrier();
    let mut p = session(&srv);
    p.send(&pub_frame("dup", None, b"x"));
    let line = c.next(IO);
    assert_eq!(line.line(), b"MSG dup 1 1\r\n");
    assert_eq!(c.read_msg_body(1, IO), b"x");
    assert_eq!(c.drain(QUIET), b"", "no double delivery");
}

#[test]
fn verbs_are_case_insensitive() {
    let srv = Host::start();
    let mut c = srv.connect();
    c.send(b"connect {\"verbose\":true}\r\n");
    assert_eq!(c.next(IO).line(), b"+OK\r\n");

    c.send(b"PiNg\r\n");
    assert_eq!(c.next(IO).line(), b"PONG\r\n");

    c.send(b"SuB mixed 1\r\n");
    assert_eq!(c.next(IO).line(), b"+OK\r\n");
    c.send(b"PuB mixed 1\r\nz\r\n");
    let mut saw_ok = false;
    let mut saw_msg = false;
    for _ in 0..2 {
        match c.next(IO) {
            Next::Line(l) if l == b"+OK\r\n" => saw_ok = true,
            Next::Line(l) if l == b"MSG mixed 1 1\r\n" => saw_msg = true,
            other => panic!("unexpected {other:?}"),
        }
    }
    assert!(saw_ok && saw_msg, "mixed-case PUB acked and routed");
    c.read_msg_body(1, IO);
    c.send(b"UnSuB 1\r\n");
    assert_eq!(c.next(IO).line(), b"+OK\r\n");
    assert!(!c.closed(CLOSED));
}

#[test]
fn case_folding_does_not_change_the_error_class() {
    let srv = Host::start();
    let mut c = session(&srv);
    let (seen, closed) = observe(&mut c, b"pUb foo notanumber\r\n");
    assert_eq!(seen, b"", "silent, mixed case");
    assert!(closed);

    let mut c = session(&srv);
    let (seen, closed) = observe(&mut c, b"sUB foo..bar 1\r\n");
    assert_eq!(seen, b"-ERR 'Invalid Subject'\r\n", "soft, mixed case");
    assert!(!closed);
}

#[test]
fn commands_before_connect_are_processed() {
    let srv = Host::start();
    let mut c = srv.connect();
    c.send(b"SUB pre 1\r\n");
    assert_eq!(c.next(IO).line(), b"+OK\r\n");
    c.send(b"PING\r\n");
    assert_eq!(c.next(IO).line(), b"PONG\r\n");

    let mut p = session(&srv);
    p.send(&pub_frame("pre", None, b"Y"));
    let line = c.next(IO);
    assert_eq!(line.line(), b"MSG pre 1 1\r\n", "pre-CONNECT SUB is live");
    assert_eq!(c.read_msg_body(1, IO), b"Y");
}

#[test]
fn publishing_before_connect_routes_normally() {
    let srv = Host::start();
    let mut sub = session(&srv);
    sub.send(b"SUB prepub 1\r\n");
    sub.barrier();

    let mut p = srv.connect(); // no CONNECT at all
    p.send(&pub_frame("prepub", None, b"P"));
    let line = sub.next(IO);
    assert_eq!(line.line(), b"MSG prepub 1 1\r\n");
    assert_eq!(sub.read_msg_body(1, IO), b"P");
}

#[test]
fn the_corpus_leaves_the_server_serving() {
    let srv = Host::start();
    let corpus: &[&str] = &[
        "\r\n",
        "BOGUS\r\n",
        "PSUB a.* 1\r\n",
        "A+ foo 1\r\n",
        "SUB\r\n",
        "SUB \r\n",
        "SUB foo\r\n",
        "SUB a b 1 2 3\r\n",
        "SUB .. 1\r\n",
        "SUB foo.>. 1\r\n",
        "UNSUB\r\n",
        "UNSUB 1 2 3\r\n",
        "PUB\r\n",
        "PUB foo\r\n",
        "PUB foo notanumber\r\n",
        "PUB foo -1\r\n",
        "PUB foo 18446744073709551615123\r\n",
        "PUB a b c d 1\r\n",
        "PUB .. 1\r\nx\r\n",
        "PUB foo.* 1\r\nx\r\n",
        "HPUB hb 12\r\n",
        "HPUB hb 20 10\r\nNATS/1.0\r\n\r\nab\r\n",
        "HPUB hb x 14\r\n",
        "CONNECT not json\r\n",
        "CONNECT []\r\n",
        "CONNECTxyz {}\r\n",
        "PING extra\r\n",
        "PONG whatever\r\n",
        "+OK\r\n",
        "INFO {}\r\n",
        "SUB ok 1\r\n",
    ];
    for line in corpus {
        let mut c = srv.connect();
        c.send(line.as_bytes());
        let _ = c.drain(QUIET);
        let _ = c.closed(150);
    }

    let mut sub = session(&srv);
    sub.send(b"SUB alive 1\r\n");
    sub.barrier();
    let mut p = session(&srv);
    p.send(&pub_frame("alive", None, b"yes"));
    p.barrier();
    let line = sub.next(IO);
    assert_eq!(
        line.line(),
        b"MSG alive 1 3\r\n",
        "the corpus broke something it should not have"
    );
    assert_eq!(sub.read_msg_body(3, IO), b"yes");
}

#[test]
fn every_error_path_ends_somewhere() {
    let srv = Host::start();
    for line in [
        "BOGUS\r\n",
        "SUB foo\r\n",
        "PUB foo x\r\n",
        "PUB foo 1048577\r\n",
        "HPUB a 5 2\r\n", // header larger than the total: class C
        "\r\n",
    ] {
        let mut c = session(&srv);
        c.send(line.as_bytes());
        let seen = c.drain(QUIET);
        let closed = c.closed(CLOSED);
        assert!(
            closed || seen.is_empty(),
            "for {line:?}: a connection that survives must not have said anything, said {seen:?}"
        );
        if !closed {
            c.send(b"PING\r\n");
            assert_eq!(c.next(IO).line(), b"PONG\r\n");
        }
    }
}

#[test]
fn info_from_a_client_is_parsed_and_then_dropped() {
    let srv = Host::start();

    let good: [&[u8]; 4] = [
        b"INFO {\"a\":1}\r\n",
        b"INFO{}\r\n",
        b"INFO  {}  \r\n",
        b"info {\"x\":[1]}\r\n",
    ];
    for good in &good {
        let mut c = session(&srv);
        let (seen, closed) = observe(&mut c, good);
        assert!(seen.is_empty(), "{good:?} answered {seen:?}");
        assert!(!closed, "{good:?} closed a connection with a parseable INFO");
        c.send(b"PING\r\n");
        assert!(
            matches!(c.next(IO), Next::Line(l) if l == b"PONG\r\n"),
            "{good:?} left the connection unusable"
        );
    }

    let bad: [&[u8]; 6] = [
        b"INFO\r\n",
        b"INFO \r\n",
        b"INFO 5\r\n",
        b"INFO [1,2]\r\n",
        b"INFO {\"a\":\r\n",
        b"INFO {\"a\":1} x\r\n",
    ];
    for bad in &bad {
        let mut c = session(&srv);
        let (seen, closed) = observe(&mut c, bad);
        assert!(closed, "{bad:?} left the connection open");
        assert!(
            !has(seen.as_slice(), b"-ERR"),
            "{bad:?} complained {seen:?} instead of just hanging up"
        );
    }
}

#[test]
fn a_clients_err_needs_an_argument_to_be_an_err() {
    let silent = {
        let srv = Host::start();
        let mut c = session(&srv);
        observe(&mut c, b"-ERR I saw you\r\n")
    };
    assert!(silent.1, "-ERR with an argument left the connection open");
    assert!(
        !has(&silent.0, b"-ERR"),
        "-ERR with an argument replied {:?}",
        silent.0
    );

    let srv = Host::start();
    let mut c = session(&srv);
    let (seen, closed) = observe(&mut c, b"-ERR\r\n");
    assert!(closed, "a bare -ERR left the connection open");
    assert!(
        has(seen.as_slice(), b"-ERR 'Unknown Protocol Operation'"),
        "a bare -ERR is not a verb: {seen:?}"
    );
}

#[test]
fn the_payload_terminator_is_decided_on_the_first_byte() {
    let srv = Host::start();
    let mut c = session(&srv);
    let (seen, closed) = observe(&mut c, b"PUB a 3\r\nab\r\n");
    assert!(closed, "a mis-centred terminator left the connection open");
    assert!(
        has(seen.as_slice(), b"-ERR 'Unknown Protocol Operation'"),
        "the desync went unreported: {seen:?}"
    );

    let mut sub = session(&srv);
    sub.send(b"SUB a 1\r\n");
    sub.barrier();
    let mut c = session(&srv);
    c.send(b"PUB a 2\r\nab");
    let (seen, closed) = (c.drain(QUIET), c.closed(CLOSED));
    assert!(!closed, "an incomplete payload closed the connection: {seen:?}");
    assert!(seen.is_empty(), "an incomplete payload complained: {seen:?}");
    c.send(b"\r\n");
    let line = sub.next(IO);
    assert_eq!(line.line(), b"MSG a 1 2\r\n", "the finished frame never arrived");
    assert_eq!(sub.read_msg_body(2, IO), b"ab");
}

#[test]
fn hpub_without_the_capability_is_dropped_whatever_the_line_says() {
    let frame = b"HPUB hb 1 2\r\nNATS/1.0\r\n\r\nab\r\n";

    let srv = Host::start();
    let mut c = session(&srv);
    let (seen, closed) = observe(&mut c, frame);
    assert!(closed, "an HPUB from a header-less client stayed open");
    assert!(
        !has(seen.as_slice(), b"-ERR"),
        "a header-less HPUB complained {seen:?}; it is dropped without a word"
    );

    let mut c = srv.connect();
    c.connect_opts(CAPS);
    let (seen, closed) = observe(&mut c, frame);
    assert!(closed, "an HPUB with bad sizes stayed open");
    assert!(
        has(seen.as_slice(), b"-ERR"),
        "with the capability the bad sizes must be reported, got {seen:?}"
    );

    let mut sub = srv.connect();
    sub.connect_opts(CAPS);
    sub.send(b"SUB hb 1\r\n");
    sub.barrier();
    let mut c = srv.connect();
    c.connect_opts(CAPS);
    c.send(b"HPUB hb 12 14\r\nNATS/1.0\r\n\r\nab\r\n");
    let line = sub.next(IO);
    assert_eq!(line.line(), b"HMSG hb 1 12 14\r\n", "a well-formed HPUB did not arrive");
    assert_eq!(
        sub.read_msg_body(14, IO),
        &b"NATS/1.0\r\n\r\nab"[..],
        "the header block and body must travel together"
    );
}

fn has(hay: &[u8], needle: &[u8]) -> bool {
    hay.len() >= needle.len() && hay.windows(needle.len()).any(|w| w == needle)
}
