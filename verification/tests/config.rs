//! Options: the config file, the command line, and what becomes of both.

use nats_server_rs::config::{
    apply_flags, configure, parse_args, parse_config, parse_duration_str, read_args, task, usage, Args,
    ArgsError, Config, ConfigError, Span, Task, DEFAULT_PORT, RANDOM_PORT,
};
use nats_server_rs::net::{bind_text, listen_error, normalize_host};

fn argv(words: &[&str]) -> Vec<String> {
    words.iter().map(|w| w.to_string()).collect()
}

#[test]
fn a_server_that_was_told_nothing_has_the_defaults() {
    let cfg = Config::default();
    assert_eq!(cfg.host, "0.0.0.0");
    assert_eq!(cfg.bind_port(), DEFAULT_PORT);
    assert_eq!(cfg.max_payload, 1_048_576);
    assert_eq!(cfg.max_pending, 64 * 1024 * 1024);
    assert_eq!(cfg.max_control_line, 4096);
    assert_eq!(cfg.max_connections, 65_536);
    assert_eq!(cfg.ping_interval, Span { secs: 120, nanos: 0 });
    assert_eq!(cfg.write_deadline, Span { secs: 10, nanos: 0 });
    assert!(!cfg.debug && !cfg.trace);
}

#[test]
fn a_config_file_sets_every_option_it_may() {
    let text = "# a comment\n\
                host: \"127.0.0.1\"\n\
                port: 4333\n\
                server_name: node-1 # behind a value\n\
                max_payload: 1024\n\
                max_pending: 2048,\n\
                \"max_control_line\": 512\n\
                max_connections: -1\n\
                ping_interval: \"1m30s\"\n\
                write_deadline: \"250ms\"\n\
                debug: true\n\
                trace: on\n";
    let (cfg, warnings) = parse_config(text).expect("a good file");
    assert!(warnings.is_empty(), "{warnings:?}");
    assert_eq!(cfg.host, "127.0.0.1");
    assert_eq!(cfg.port, 4333);
    assert_eq!(cfg.server_name.as_deref(), Some("node-1"));
    assert_eq!((cfg.max_payload, cfg.max_pending), (1024, 2048));
    assert_eq!(cfg.max_control_line, 512);
    assert_eq!(cfg.max_connections, -1);
    assert_eq!(cfg.ping_interval, Span { secs: 90, nanos: 0 });
    assert_eq!(cfg.write_deadline, Span { secs: 0, nanos: 250_000_000 });
    assert!(cfg.debug && cfg.trace);
}

#[test]
fn what_a_config_file_may_not_say_is_an_error() {
    let cases = [
        ("jetstream: true\n", "config: unknown field \"jetstream\""),
        ("name: x\n", "config: unknown field \"name\""),
        ("max_conn: 1\n", "config: unknown field \"max_conn\""),
        ("host: x\n\nno colon here\n", "config:3:1: expected a key but got a value"),
        ("port: many\n", "expected an integer but got many"),
        ("debug: perhaps\n", "expected a boolean but got perhaps"),
        (
            "ping_interval: \"soon\"\n",
            "error parsing ping_interval: invalid duration \"soon\"",
        ),
    ];
    for (text, message) in cases {
        let e = parse_config(text).expect_err(text);
        assert_eq!(e.message(), message, "for {text:?}");
    }
}

#[test]
fn quotation_marks_in_an_error_are_escaped() {
    let e = ConfigError::InvalidDuration("write_deadline".into(), "a\"b".into());
    assert_eq!(e.message(), "error parsing write_deadline: invalid duration \"a\\\"b\"");
}

#[test]
fn a_bare_number_of_seconds_is_a_duration_with_a_warning() {
    let (cfg, warnings) = parse_config("ping_interval: 5\n").expect("a good file");
    assert_eq!(cfg.ping_interval, Span { secs: 5, nanos: 0 });
    assert_eq!(warnings.len(), 1);
    assert!(warnings[0].contains("ping_interval"), "{warnings:?}");
}

#[test]
fn a_payload_must_fit_into_what_may_wait() {
    let (cfg, _) = parse_config("max_pending: 65536\n").unwrap();
    let e = cfg.validate().expect_err("the default payload is larger");
    assert_eq!(
        e.message(),
        "max_payload (1048576) cannot be higher than max_pending (65536)"
    );
    let (cfg, _) = parse_config("max_payload: 65536\nmax_pending: 65536\n").unwrap();
    assert!(cfg.validate().is_ok());
}

#[test]
fn durations_are_numbers_with_units() {
    let good = [
        ("1s", 1, 0),
        ("100ms", 0, 100_000_000),
        ("1h30m", 5_400, 0),
        ("1.5s", 1, 500_000_000),
        ("2m3s4ms5us6ns", 123, 4_005_006),
        ("+10s", 10, 0),
        ("0", 0, 0),
        (".5m", 30, 0),
        ("1.000000001s", 1, 1),
        ("9223372036854775807ns", 9_223_372_036, 854_775_807),
    ];
    for (text, secs, nanos) in good {
        assert_eq!(parse_duration_str(text), Some(Span { secs, nanos }), "for {text:?}");
    }
    for text in ["", "-1s", "s", "1x", "1..5s", ".", "+", "1 s"] {
        assert_eq!(parse_duration_str(text), None, "for {text:?}");
    }
    for text in ["9223372036854775808ns", "3000000h", "9223372036s1s", "99999999999999999999s"] {
        assert_eq!(parse_duration_str(text), None, "too long: {text:?}");
    }
}

#[test]
fn the_command_line_is_read_flag_by_flag() {
    let args = parse_args(
        &argv(&["-a", "127.0.0.1", "--port=-1", "-n", "me", "-c", "x.conf", "-D", "-V", "-t"]),
        "prog",
    )
    .expect("a good command line");
    assert_eq!(args.host.as_deref(), Some("127.0.0.1"));
    assert_eq!(args.port, Some(RANDOM_PORT));
    assert_eq!(args.server_name.as_deref(), Some("me"));
    assert_eq!(args.config_file.as_deref(), Some("x.conf"));
    assert!(args.debug && args.trace && args.test_config);
    assert_eq!(task(&args), Task::Check);
    assert_eq!(task(&parse_args(&argv(&["-v", "-h"]), "prog").unwrap()), Task::Version);
    assert_eq!(task(&parse_args(&argv(&["-h", "-t"]), "prog").unwrap()), Task::Help);
    assert_eq!(task(&parse_args(&argv(&[]), "prog").unwrap()), Task::Serve);
}

#[test]
fn what_is_wrong_with_a_command_line_is_said() {
    let cases = [
        (vec!["--nope"], "prog: flag provided but not defined: --nope"),
        (vec!["-p"], "prog: flag needs an argument: -p"),
        (vec!["-p", "x"], "prog: invalid value \"x\" for flag -p: parse error"),
    ];
    for (words, message) in cases {
        assert_eq!(parse_args(&argv(&words), "prog").expect_err(message), message);
    }
    assert_eq!(read_args(&argv(&["--nope"])).unwrap_err().exit_status(), 0);
    assert_eq!(ArgsError::NeedsArgument("-p".into()).exit_status(), 1);
    assert_eq!(ArgsError::InvalidPort("x".into()).exit_status(), 1);
}

#[test]
fn flags_win_over_the_file() {
    let (mut cfg, _) = parse_config("host: a\nport: 1\nserver_name: b\ntrace: true\n").unwrap();
    let args = Args { host: Some("h".into()), port: Some(2), debug: true, ..Args::default() };
    apply_flags(&mut cfg, &args);
    assert_eq!((cfg.host.as_str(), cfg.port), ("h", 2));
    assert_eq!(cfg.server_name.as_deref(), Some("b"), "not given, so kept");
    assert!(cfg.debug && cfg.trace, "nothing is switched off");
}

#[test]
fn the_help_text_names_the_program() {
    let text = usage("prog");
    assert!(text.contains("Usage: prog [options]"), "{text}");
    assert!(text.contains("--ports_file_dir"), "{text}");
}

#[test]
fn where_to_listen() {
    assert_eq!(normalize_host("*"), "0.0.0.0");
    assert_eq!(normalize_host("::"), "0.0.0.0");
    assert_eq!(normalize_host("0.0.0.0"), "0.0.0.0");
    assert_eq!(normalize_host("10.1.2.3"), "10.1.2.3");
    let mut cfg = Config::default();
    assert_eq!(bind_text(&cfg), "0.0.0.0:4222", "0 is not set");
    cfg.port = RANDOM_PORT;
    assert_eq!(bind_text(&cfg), "0.0.0.0:0", "the kernel picks one");
    cfg.port = -7;
    cfg.host = "h".into();
    assert_eq!(bind_text(&cfg), "h:-7");
    assert_eq!(
        listen_error(&cfg, "no"),
        "process couldn't start server: failed to listen on h:-7 - no"
    );
}

#[test]
fn options_come_from_the_file_and_then_from_the_flags() {
    let args = read_args(&argv(&["-p", "5000"])).expect("good flags");
    let (warnings, cfg) = configure(Some("port: 1\nhost: h\nping_interval: 30\n"), &args);
    let cfg = cfg.expect("options that fit together");
    assert_eq!((cfg.port, cfg.host.as_str()), (5000, "h"));
    assert_eq!(warnings.len(), 1, "a bare number of seconds: {warnings:?}");
    let (warnings, cfg) = configure(None, &args);
    assert!(warnings.is_empty());
    assert_eq!(cfg.expect("the defaults fit").port, 5000);
    let (_, cfg) = configure(Some("max_pending: 65536\n"), &args);
    assert_eq!(
        cfg.expect_err("a payload must fit").message(),
        "max_payload (1048576) cannot be higher than max_pending (65536)"
    );
    let (warnings, cfg) = configure(Some("cluster: x\n"), &args);
    assert!(warnings.is_empty() && cfg.is_err());
}
