#![allow(dead_code)]
//! The protocol, byte by byte.

use std::cell::RefCell;
use std::rc::Rc;

use nats_server_rs::config::parse_config;
use nats_server_rs::loops::{ReadAction, ReadEvent, WriteAction, WriteEvent};
use nats_server_rs::reader::Reader;
use nats_server_rs::server::Server;
use nats_server_rs::wire::{msg_body, take_line, Next, IO};

/// A server, and the clients that talk to it without sockets in between.
struct Host {
    server: Rc<RefCell<Server>>,
    port: u16,
}

impl Host {
    fn start() -> Host {
        Host::start_with_config("")
    }

    fn start_with_config(text: &str) -> Host {
        let (cfg, _) = parse_config(text).expect("a good config");
        cfg.validate().expect("limits that fit together");
        let mut server = Server::new(cfg, 11, 22, 33);
        server.set_listen("127.0.0.1".into(), 4222);
        Host { server: Rc::new(RefCell::new(server)), port: 4222 }
    }

    fn connect(&self) -> Conn {
        let mut c = self.connect_mute();
        let line = c.next(IO);
        let line = line.line();
        assert!(line.starts_with(b"INFO "), "first line must be INFO: {line:?}");
        c.info = serde_json::from_slice(&line[5..line.len() - 2]).expect("INFO is JSON");
        c
    }

    /// A connection whose INFO is still to be read.
    fn connect_mute(&self) -> Conn {
        let mut server = self.server.borrow_mut();
        let cid = server.accept().expect("a place");
        server.attach(cid, "127.0.0.1");
        Conn {
            server: self.server.clone(),
            cid,
            reader: Reader::new(),
            inbox: Vec::new(),
            reading: true,
            writing: true,
            info: serde_json::Value::Null,
        }
    }
}

struct Conn {
    server: Rc<RefCell<Server>>,
    cid: u64,
    reader: Reader,
    inbox: Vec<u8>,
    reading: bool,
    writing: bool,
    info: serde_json::Value,
}

impl Conn {
    fn event(&mut self, ev: ReadEvent) {
        let mut server = self.server.borrow_mut();
        match server.read_step(self.cid, &mut self.reader, ev) {
            ReadAction::Read => {}
            ReadAction::Stop => self.reading = false,
            ReadAction::Run(events) => {
                for ev in events {
                    if !server.execute(self.cid, ev).keep {
                        self.reading = false;
                        break;
                    }
                }
            }
        }
    }

    /// One segment from the client.
    fn send(&mut self, bytes: &[u8]) {
        if !self.reading || self.server.borrow().is_closed(self.cid) {
            return;
        }
        self.reader.make_room();
        self.reader.buffer().extend_from_slice(bytes);
        self.event(ReadEvent::Segment(bytes.len()));
    }

    /// Moves what waits in the server to the client.
    fn pump(&mut self) {
        let mut server = self.server.borrow_mut();
        let mut ev = WriteEvent::Ready;
        while self.writing {
            match server.write_step(self.cid, ev) {
                WriteAction::Write(parts) => {
                    let mut n = 0;
                    for part in &parts {
                        self.inbox.extend_from_slice(part);
                        n += part.len();
                    }
                    ev = WriteEvent::Wrote(n);
                }
                WriteAction::Wait => break,
                WriteAction::Stop => {
                    self.writing = false;
                    break;
                }
            }
        }
    }

    fn next(&mut self, _within: u64) -> Next {
        self.pump();
        match take_line(&mut self.inbox) {
            Some(line) => Next::Line(line),
            None if !self.writing => Next::Closed,
            None => Next::Timeout,
        }
    }

    fn drain(&mut self, _within: u64) -> Vec<u8> {
        self.pump();
        std::mem::take(&mut self.inbox)
    }

    fn closed(&mut self, _within: u64) -> bool {
        self.pump();
        !self.writing
    }

    fn connect_opts(&mut self, json: &str) {
        self.send(format!("CONNECT {json}\r\n").as_bytes());
    }

    fn barrier(&mut self) {
        self.send(b"PING\r\n");
        assert_eq!(self.next(IO).line(), b"PONG\r\n");
    }

    fn read_msg_body(&mut self, n: usize, _within: u64) -> Vec<u8> {
        self.pump();
        assert!(self.inbox.len() >= n + 2, "the body is not there: {:?}", self.inbox);
        let rest = self.inbox.split_off(n + 2);
        let bytes = std::mem::replace(&mut self.inbox, rest);
        msg_body(&bytes, n).expect("a body and its line end")
    }
}

impl Drop for Conn {
    fn drop(&mut self) {
        if self.reading && !self.server.borrow().is_closed(self.cid) {
            self.event(ReadEvent::End);
        }
        self.pump();
        self.server.borrow_mut().detach(self.cid);
    }
}

fn connect(srv: &Host) -> (Conn, serde_json::Value) {
    let c = srv.connect();
    let info = c.info.clone();
    (c, info)
}

/// The next line, or `None` once the server has hung up.
fn read_line(c: &mut Conn) -> Option<String> {
    match c.next(IO) {
        Next::Line(l) => Some(String::from_utf8_lossy(&l).into_owned()),
        Next::Closed => None,
        Next::Timeout => panic!("nothing to read: {:?}", c.inbox),
    }
}

fn read_exact_line(c: &mut Conn, n: usize) -> Vec<u8> {
    c.read_msg_body(n, IO)
}

fn write_all(c: &mut Conn, data: &str) {
    c.send(data.as_bytes());
}

#[test]
fn info_on_connect_has_core_fields() {
    let srv = Host::start();
    let (_s, info) = connect(&srv);
    assert_eq!(
        info["proto"].as_u64(),
        Some(1),
        "client proto level must be 1"
    );
    assert!(info["max_payload"].as_u64().unwrap() >= 1_048_576);
    assert_eq!(info["port"].as_u64(), Some(srv.port as u64));
    assert!(info["server_id"].is_string());
    assert!(info["version"].is_string());
    match info.get("jetstream") {
        None | Some(serde_json::Value::Bool(false)) => {}
        Some(v) => panic!("jetstream should be absent or false, got {v}"),
    }
    assert!(info["connect_urls"].as_array().is_none_or(|a| a.is_empty()));
}

#[test]
fn ping_pong() {
    let srv = Host::start();
    let (mut s, _) = connect(&srv);
    write_all(&mut s, "PING\r\n");
    assert_eq!(read_line(&mut s).as_deref(), Some("PONG\r\n"));
}

#[test]
fn verbose_mode_sends_ok() {
    let srv = Host::start();
    let (mut s, _) = connect(&srv);
    write_all(&mut s, "CONNECT {\"verbose\":true}\r\nPING\r\n");
    assert_eq!(read_line(&mut s).as_deref(), Some("+OK\r\n"));
    assert_eq!(read_line(&mut s).as_deref(), Some("PONG\r\n"));
}

#[test]
fn pub_sub_round_trip() {
    let srv = Host::start();
    let (mut sub, _) = connect(&srv);
    write_all(
        &mut sub,
        "CONNECT {\"verbose\":false}\r\nSUB foo 1\r\nPING\r\n",
    );
    assert_eq!(
        read_line(&mut sub).as_deref(),
        Some("PONG\r\n"),
        "PONG is the barrier: the SUB ahead of it must be registered"
    );

    let (mut pub_, _) = connect(&srv);
    write_all(
        &mut pub_,
        "CONNECT {\"verbose\":false}\r\nPUB foo 5\r\nhello\r\n",
    );

    let header = read_line(&mut sub).expect("MSG header");
    assert!(header.starts_with("MSG foo 1 5\r\n"), "got {header:?}");
    assert_eq!(read_exact_line(&mut sub, 5), b"hello");
}

#[test]
fn unsub_stops_delivery() {
    let srv = Host::start();
    let (mut sub, _) = connect(&srv);
    write_all(&mut sub, "CONNECT {\"verbose\":false}\r\nSUB foo 1\r\n");

    let (mut pub_, _) = connect(&srv);
    write_all(&mut pub_, "CONNECT {\"verbose\":false}\r\n");

    write_all(&mut sub, "PING\r\n");
    assert_eq!(read_line(&mut sub).as_deref(), Some("PONG\r\n"));

    write_all(&mut pub_, "PUB foo 1\r\na\r\n");
    assert!(read_line(&mut sub).unwrap().starts_with("MSG foo 1"));
    read_exact_line(&mut sub, 1);

    write_all(&mut sub, "UNSUB 1\r\nPING\r\n");
    loop {
        let line = read_line(&mut sub).expect("connection closed early");
        assert_eq!(
            line, "PONG\r\n",
            "unexpected traffic while unsubscribing: {line:?}"
        );
        if line == "PONG\r\n" {
            break;
        }
    }

    write_all(&mut pub_, "PUB foo 1\r\nb\r\n");
    write_all(&mut sub, "PING\r\n");
    let next = read_line(&mut sub);
    assert_eq!(
        next.as_deref(),
        Some("PONG\r\n"),
        "expected no MSG after UNSUB, got {next:?}"
    );
}

#[test]
fn unknown_verb_gets_err_and_close() {
    let srv = Host::start();
    let (mut s, _) = connect(&srv);
    write_all(&mut s, "CONNECT {\"verbose\":false}\r\nBOGUS\r\n");
    let line = read_line(&mut s).expect("-ERR line");
    assert!(line.starts_with("-ERR"), "got {line:?}");
    assert!(
        line.contains("Unknown Protocol Operation"),
        "the verb is unknown, got {line:?}"
    );
    assert!(
        read_line(&mut s).is_none(),
        "connection must close after -ERR"
    );
}

#[test]
fn pub_over_max_payload_gets_err() {
    let srv = Host::start();
    let (mut s, info) = connect(&srv);
    write_all(&mut s, "CONNECT {\"verbose\":false}\r\n");
    let max = info["max_payload"].as_u64().unwrap();
    write_all(&mut s, &format!("PUB foo {}\r\n", max + 1));
    let line = read_line(&mut s).expect("-ERR line");
    assert!(line.starts_with("-ERR"), "got {line:?}");
    assert!(
        read_line(&mut s).is_none(),
        "connection must close after -ERR"
    );
}

#[test]
fn pub_on_wildcard_subject_gets_err_and_stays_usable() {
    let srv = Host::start();
    let (mut s, _) = connect(&srv);
    write_all(
        &mut s,
        "CONNECT {\"verbose\":false,\"pedantic\":true}\r\nPUB foo.* 1\r\nx\r\nPING\r\n",
    );
    let line = read_line(&mut s).expect("-ERR line");
    assert!(line.starts_with("-ERR"), "got {line:?}");
    assert!(line.contains("Invalid Publish Subject"), "got {line:?}");
    assert_eq!(
        read_line(&mut s).as_deref(),
        Some("PONG\r\n"),
        "connection must stay usable after a bad publish subject"
    );
}

#[test]
fn sub_with_invalid_subject_gets_err_and_stays_usable() {
    let srv = Host::start();
    let (mut s, _) = connect(&srv);
    write_all(
        &mut s,
        "CONNECT {\"verbose\":false}\r\nSUB foo..bar 1\r\nPING\r\n",
    );
    let line = read_line(&mut s).expect("-ERR line");
    assert!(line.starts_with("-ERR"), "got {line:?}");
    assert!(line.contains("Invalid Subject"), "got {line:?}");
    assert_eq!(
        read_line(&mut s).as_deref(),
        Some("PONG\r\n"),
        "connection must stay usable after a bad subscribe subject"
    );
}

#[test]
fn malformed_pub_closes_connection_without_err() {
    let srv = Host::start();
    let (mut s, _) = connect(&srv);
    write_all(
        &mut s,
        "CONNECT {\"verbose\":false}\r\nPUB foo notanumber\r\n",
    );
    let line = read_line(&mut s);
    assert!(
        line.is_none() || line.unwrap().trim().is_empty(),
        "malformed PUB must close without an -ERR line"
    );
}

#[test]
fn info_key_set_is_pinned() {
    let srv = Host::start();
    let (_s, info) = connect(&srv);
    let obj = info.as_object().expect("INFO must be a JSON object");

    for key in [
        "server_id",
        "server_name",
        "version",
        "proto",
        "host",
        "port",
        "headers",
        "max_payload",
    ] {
        assert!(obj.contains_key(key), "INFO must carry {key}: {obj:?}");
    }
    assert_eq!(info["headers"].as_bool(), Some(true));

    for key in [
        "jetstream",
        "connect_urls",
        "cluster",
        "cluster_name",
        "domain",
        "auth_required",
        "tls_required",
        "tls_available",
        "nonce",
        "ldm",
        "compression",
    ] {
        assert!(
            obj.get(key).is_none_or(|v| {
                let _ = v;
                false
            }),
            "INFO must not mention {key}: {obj:?}"
        );
    }

    for key in [
        "git_commit",
        "go",
        "api_lvl",
        "xkey",
        "client_id",
        "client_ip",
    ] {
        if let Some(v) = obj.get(key) {
            assert!(
                !v.is_null(),
                "{key} is absent or a value, never null"
            );
        }
    }
}

#[test]
fn info_is_a_single_line_in_the_documented_shape() {
    let srv = Host::start();
    let mut s = srv.connect_mute();
    let line = read_line(&mut s).expect("INFO");
    let body = &line[5..line.len() - 2];
    assert!(!body.contains('\r') && !body.contains('\n'), "got {line:?}");
    assert!(
        body.ends_with(' ') || body.ends_with('}'),
        "INFO body must be JSON, optionally followed by a space, got {body:?}"
    );
    let json = body.trim();
    let parsed: serde_json::Value =
        serde_json::from_str(json).expect("INFO must be one JSON object");
    assert_eq!(parsed["proto"].as_u64(), Some(1));
}

#[test]
fn server_id_is_an_opaque_uppercase_token_equal_to_server_name() {
    let srv = Host::start();
    let (_s, info) = connect(&srv);
    let id = info["server_id"].as_str().expect("server_id");
    assert_eq!(
        id.len(),
        56,
        "the width of an id, got {id:?}"
    );
    assert!(
        id.bytes()
            .all(|b| b.is_ascii_uppercase() || (b'2'..=b'7').contains(&b)),
        "base32 alphabet (A-Z, 2-7), got {id:?}"
    );
    assert_eq!(
        info["server_name"].as_str(),
        Some(id),
        "an unconfigured server names itself by its id"
    );
    let (_s2, info2) = connect(&srv);
    assert_eq!(
        info2["server_id"].as_str(),
        Some(id),
        "server_id is per-server, not per-connection"
    );
}

#[test]
fn configured_max_payload_is_advertised_and_enforced() {
    let srv = Host::start_with_config("max_payload: 1024\n");
    let (mut s, info) = connect(&srv);
    assert_eq!(info["max_payload"].as_u64(), Some(1024));
    write_all(&mut s, "CONNECT {\"verbose\":false}\r\n");

    write_all(&mut s, "PUB small 1000\r\n");
    write_all(&mut s, &"x".repeat(1000));
    write_all(&mut s, "\r\n");
    write_all(&mut s, "PING\r\n");
    assert_eq!(read_line(&mut s).as_deref(), Some("PONG\r\n"));

    write_all(&mut s, "PUB big 1025\r\n");
    let line = read_line(&mut s).expect("-ERR line");
    assert!(line.starts_with("-ERR"), "got {line:?}");
    assert!(
        line.contains("Maximum Payload Violation"),
        "the violation is named, got {line:?}"
    );
    assert!(read_line(&mut s).is_none(), "then closes");
}

#[test]
fn literal_subscription_does_not_match_deeper_subjects() {
    let srv = Host::start();
    let (mut sub, _) = connect(&srv);
    write_all(
        &mut sub,
        "CONNECT {\"verbose\":false}\r\nSUB depth 1\r\nPING\r\n",
    );
    assert_eq!(read_line(&mut sub).as_deref(), Some("PONG\r\n"));

    let (mut p, _) = connect(&srv);
    write_all(
        &mut p,
        "CONNECT {\"verbose\":false}\r\nPUB depth.deeper 1\r\nx\r\nPING\r\n",
    );
    assert_eq!(
        read_line(&mut p).as_deref(),
        Some("PONG\r\n"),
        "the publisher's barrier proves the PUB was processed"
    );
    write_all(&mut sub, "PING\r\n");
    assert_eq!(
        read_line(&mut sub).as_deref(),
        Some("PONG\r\n"),
        "a deeper subject must not reach a one-token subscription"
    );
}

#[test]
fn publish_size_that_overflows_int64_closes_without_err() {
    let srv = Host::start();
    let (mut s, _) = connect(&srv);
    write_all(
        &mut s,
        "CONNECT {\"verbose\":false}\r\nPUB foo 18446744073709551615123\r\n",
    );
    let line = read_line(&mut s);
    assert!(
        line.is_none() || line.unwrap().trim().is_empty(),
        "an unparseable size must close without an -ERR line"
    );
}

#[test]
fn publish_size_in_int32_range_over_limit_gets_err() {
    let srv = Host::start();
    let (mut s, _) = connect(&srv);
    write_all(
        &mut s,
        "CONNECT {\"verbose\":false}\r\nPUB foo 199380988\r\n",
    );
    let line = read_line(&mut s).expect("-ERR line");
    assert!(line.starts_with("-ERR"), "got {line:?}");
    assert!(read_line(&mut s).is_none(), "then close");
}
