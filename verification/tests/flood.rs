//! Flooding: what is sent, and how what comes back is counted.

use nats_server_rs::flood::{
    connect_addr, contains, expect_pong, is_drained, is_greeting, next_frame, param, scan,
    setting_or, start_step, Flood, Frame, Handshake, Look,
    Publisher, Push, PushEvent, ScanEnd, Start, Tail, Watch,
};

#[test]
fn param_falls_back_to_default() {
    assert_eq!(param("BENCH_UNSET_VAR_FOR_TEST", None, 42), Ok(42));
}

#[test]
fn a_setting_must_be_a_number() {
    assert_eq!(param("MSGS", Some("7"), 42), Ok(7));
    assert_eq!(param("MSGS", Some("+7"), 42), Ok(7));
    for bad in ["", "-1", "x", "18446744073709551616", "1 "] {
        assert_eq!(
            param("MSGS", Some(bad), 42),
            Err(format!("MSGS is not a number: {bad}"))
        );
        assert_eq!(setting_or(Some(bad), 9), 9);
    }
    assert_eq!(setting_or(Some("18446744073709551615"), 9), u64::MAX);
    assert_eq!(setting_or(None, 9), 9);
}

#[test]
fn the_address_comes_from_the_url_first() {
    assert_eq!(connect_addr(Some("nats://h:1"), Some("a:2")), "h:1");
    assert_eq!(connect_addr(Some("nats://nats://h:1"), None), "h:1");
    assert_eq!(connect_addr(Some(""), Some("a:2")), "a:2");
    assert_eq!(connect_addr(None, Some("a:2")), "a:2");
    assert_eq!(connect_addr(None, None), "127.0.0.1:4222");
}

#[test]
fn a_flood_repeats_one_frame() {
    let f = Flood::new("t", 3, 40);
    assert_eq!(f.frame, b"PUB t 3\r\nxxx\r\n");
    assert_eq!(f.per_chunk, 2, "as many as forty bytes hold");
    assert_eq!(f.chunk, b"PUB t 3\r\nxxx\r\nPUB t 3\r\nxxx\r\n");
    assert_eq!(f.next_write(5), (2, 28));
    assert_eq!(f.next_write(1), (1, 14));
    assert_eq!(f.next_write(0), (0, 0));
    assert_eq!(Flood::new("t", 3, 1).per_chunk, 1, "and at least one");
}

#[test]
fn a_flood_sends_every_frame_once() {
    let f = Flood::new("t", 0, 100);
    let (mut left, mut sent) = (25u64, Vec::new());
    while left > 0 {
        let (whole, bytes) = f.next_write(left);
        sent.extend_from_slice(&f.chunk[..bytes]);
        left -= whole as u64;
    }
    assert_eq!(sent, b"PUB t 0\r\n\r\n".repeat(25));
}

#[test]
fn frames_are_told_apart() {
    match next_frame(b"MSG a 1 5\r\nhello\r\nrest") {
        Frame::Message(n) => assert_eq!(n, 18),
        _ => panic!("a message"),
    }
    match next_frame(b"HMSG a 1 12 14\r\nNATS/1.0\r\n\r\nab\r\n") {
        Frame::Message(n) => assert_eq!(n, 32),
        _ => panic!("a message"),
    }
    assert!(matches!(next_frame(b"MSG a 1 5\r\nhel"), Frame::NeedMore));
    assert!(matches!(next_frame(b"MSG a 1 5\r\nhello\r"), Frame::NeedMore));
    assert!(matches!(next_frame(b"MSG a 1"), Frame::NeedMore));
    assert!(matches!(next_frame(b"PING\r\n"), Frame::Ping));
    assert!(matches!(next_frame(b"PONG\r\nx"), Frame::Skip(6)));
    assert!(matches!(next_frame(b"\n"), Frame::Skip(1)));
    for (src, line) in [
        (&b"-ERR 'Stale Connection'\r\nx"[..], &b"-ERR 'Stale Connection'\r\n"[..]),
        (&b"MSG a 1 x\r\n"[..], &b"MSG a 1 x\r\n"[..]),
        (&b"MSG\r\n"[..], &b"MSG\r\n"[..]),
        (&b"MSG a \xff\r\n"[..], &b"MSG a \xff\r\n"[..]),
    ] {
        match next_frame(src) {
            Frame::Refused(got) => assert_eq!(got, line),
            _ => panic!("for {src:?}"),
        }
    }
    // White space round the size is taken off, whatever script it is from.
    assert!(matches!(next_frame("MSG a 2\u{2003}\r\n0\r\n".as_bytes()), Frame::NeedMore));
    assert!(matches!(next_frame("MSG a \u{2003}1\u{2003}\r\n0\r\n".as_bytes()), Frame::Message(_)));
}

#[test]
fn a_scan_counts_until_something_is_missing() {
    let s = scan(b"+OK\r\nMSG a 1 1\r\nx\r\nPING\r\nMSG a 1 1\r\ny\r\nMSG a 1 1\r\nz", 9);
    assert_eq!((s.used, s.messages, s.message_bytes, s.pings), (39, 2, 28, 1));
    assert!(matches!(s.end, ScanEnd::NeedMore));
    let s = scan(b"MSG a 1 1\r\nx\r\nMSG a 1 1\r\ny\r\n", 1);
    assert_eq!((s.used, s.messages), (14, 1));
    assert!(matches!(s.end, ScanEnd::Reached));
    let s = scan(b"MSG a 1 1\r\nx\r\n-ERR 'no'\r\n", 5);
    assert_eq!(s.used, 14);
    match s.end {
        ScanEnd::Refused(line) => assert_eq!(line, b"-ERR 'no'\r\n"),
        _ => panic!("it was refused"),
    }
}

#[test]
fn handshakes_look_for_their_words() {
    assert!(contains(b"abcd", b"bc") && contains(b"ab", b"") && !contains(b"a", b"ab"));
    assert!(is_greeting(b"INFO {} \r\n") && !is_greeting(b"INFO ") && !is_greeting(b"-ERR 'x'"));
    let mut seen = Vec::new();
    assert_eq!(expect_pong(&mut seen, b"INFO {} \r\nPO"), Handshake::Wait);
    assert_eq!(expect_pong(&mut seen, b"NG\r\n"), Handshake::Done);
    let mut seen = Vec::new();
    assert_eq!(expect_pong(&mut seen, b"PING\r\n"), Handshake::Answer);
    let mut seen = Vec::new();
    assert_eq!(expect_pong(&mut seen, &vec![b'.'; 65_537]), Handshake::Wait);
    assert!(seen.is_empty(), "too much is forgotten");
    let mut seen = Vec::new();
    assert!(!is_drained(&mut seen, b"PONG"));
    assert!(is_drained(&mut seen, b"\r\n"));
    assert!(is_drained(&mut Vec::new(), b"+OK\r\n"));
}

#[test]
fn a_run_is_watched_until_it_stops_moving() {
    assert_eq!(start_step(true, true, true, true), Start::Go);
    assert_eq!(start_step(false, true, true, true), Start::Never);
    assert_eq!(start_step(false, false, true, true), Start::Died);
    assert_eq!(start_step(false, false, false, true), Start::Go);
    assert_eq!(start_step(false, false, false, false), Start::Wait);
    let mut w = Watch { last: 0, wanted: 10 };
    assert_eq!(w.look(4, false, true, false), Look { moved: true, over: false });
    assert_eq!(w.last, 4);
    assert_eq!(w.look(4, false, false, false), Look { moved: false, over: false });
    assert_eq!(w.look(4, false, true, false), Look { moved: false, over: true });
    assert_eq!(w.look(5, false, false, true), Look { moved: true, over: true });
    assert_eq!(w.look(7, true, false, false), Look { moved: false, over: true });
    assert_eq!(w.look(10, false, false, false), Look { moved: false, over: true });
}

#[test]
fn where_a_stream_is_cut_changes_no_count() {
    let whole = b"+OK\r\nMSG a 1 2\r\nxy\r\nPING\r\nHMSG a 1 12 13\r\nNATS/1.0\r\n\r\nz\r\nMSG a 1";
    let once = scan(whole, 9);
    assert_eq!((once.messages, once.pings), (2, 1));
    for cut in 0..=whole.len() {
        let mut tail = Tail { held: Vec::new(), left: 9 };
        let first = tail.take(&whole[..cut]);
        let second = tail.take(&whole[cut..]);
        assert_eq!(first.messages + second.messages, once.messages, "cut at {cut}");
        assert_eq!(first.message_bytes + second.message_bytes, once.message_bytes);
        assert_eq!(first.pings + second.pings, once.pings);
        assert_eq!(tail.held, b"MSG a 1");
        assert_eq!(tail.left, 7);
    }
}

#[test]
fn a_publisher_ends_when_the_server_has_read_everything() {
    let flood = Flood::new("t", 3, 40);
    let len = flood.frame.len();
    assert_eq!(flood.per_chunk, 2);
    let mut p = Publisher::new(5);
    assert_eq!(p.step(&flood, PushEvent::Ready), Push::Frames(2, 2 * len));
    assert_eq!(p.step(&flood, PushEvent::Asked), Push::Frames(2, 2 * len), "too early to ask");
    assert_eq!(p.step(&flood, PushEvent::Wrote(2)), Push::Frames(2, 2 * len));
    assert_eq!(p.step(&flood, PushEvent::Wrote(2)), Push::Frames(1, len));
    assert_eq!(p.step(&flood, PushEvent::Wrote(1)), Push::Ping);
    assert_eq!(p.step(&flood, PushEvent::Heard(Handshake::Done)), Push::Ping, "not asked yet");
    assert_eq!(p.step(&flood, PushEvent::Asked), Push::Await);
    assert_eq!(p.step(&flood, PushEvent::Heard(Handshake::Wait)), Push::Await);
    assert_eq!(p.step(&flood, PushEvent::Heard(Handshake::Done)), Push::Done);
}
