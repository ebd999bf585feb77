//! Which binary to run, and the ports file.

use nats_server_rs::harness::{
    client_addr, ports_body, ports_file_name, ports_of, read_ports, ready_step, resolve_bin, url,
    Ports, Ready,
};

#[test]
fn harness_errors_without_env_var() {
    let err = resolve_bin(None).unwrap_err();
    assert!(err.contains("NATS_SERVER_BIN"), "got: {err}");
    assert!(resolve_bin(None).is_err());
    assert!(resolve_bin(Some(String::new())).is_err());
    assert_eq!(resolve_bin(Some("/bin/x".into())).unwrap(), "/bin/x");
}

fn found(p: Ports) -> (String, u16) {
    match p {
        Ports::Found(host, port) => (host, port),
        Ports::NotYet => panic!("nothing found"),
        Ports::BadUrl(m) => panic!("{m}"),
    }
}

#[test]
fn a_ports_file_says_what_was_written() {
    let body = ports_body("127.0.0.1", 4222);
    assert_eq!(body, "{\"nats\":[\"nats://127.0.0.1:4222\"]}");
    assert_eq!(found(read_ports(&body)), ("127.0.0.1".to_string(), 4222));
    assert_eq!(found(read_ports(&ports_body("::1", 1))), ("::1".to_string(), 1));
    assert_eq!(url("h", 65535), "nats://h:65535");
    assert_eq!(client_addr("h", 9), "h:9");
    assert_eq!(ports_file_name("prog", 77), "prog_77.ports");
}

#[test]
fn half_a_ports_file_says_nothing_yet() {
    for text in [
        "",
        "{\"nats\":[\"nats://127.0.0.1:42",
        "[]",
        "{}",
        "{\"nats\":[]}",
        "{\"nats\":[4222]}",
        "{\"nats\":\"nats://127.0.0.1:4222\"}",
        "{\"nats\":[\"nats://127.0.0.1:\"]}",
        "{\"nats\":[\"nats://127.0.0.1:99999\"]}",
    ] {
        assert!(matches!(read_ports(text), Ports::NotYet), "for {text:?}");
    }
}

#[test]
fn a_url_without_a_port_is_an_error() {
    match ports_of(Some("nats://nowhere")) {
        Ports::BadUrl(m) => assert_eq!(m, "bad ports url: nats://nowhere"),
        _ => panic!("there is no port"),
    }
    assert_eq!(found(ports_of(Some("127.0.0.1:7"))), ("127.0.0.1".to_string(), 7));
    assert_eq!(found(ports_of(Some("a//b:8//c:9"))), ("b".to_string(), 8));
    assert!(matches!(ports_of(None), Ports::NotYet));
}

#[test]
fn a_server_is_ready_when_it_can_be_reached() {
    assert_eq!(ready_step(true, true, true), Ready::TimedOut);
    assert_eq!(ready_step(false, true, true), Ready::Exited);
    assert_eq!(ready_step(false, false, true), Ready::Up);
    assert_eq!(ready_step(false, false, false), Ready::Wait);
}
