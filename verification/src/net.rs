//! Where to listen.
use vstd::prelude::*;

use crate::config::{decimal_chars, push_number, Config, DEFAULT_PORT, RANDOM_PORT};

verus! {

/// The address that stands for every interface.
pub const ANY_HOST: &'static str = "0.0.0.0";

/// The host to bind: the names that stand for every interface are one address.
pub open spec fn bound_host(host: Seq<char>) -> Seq<char> {
    if host == "::"@ || host == "*"@ {
        ANY_HOST@
    } else {
        host
    }
}

/// The host to bind.
pub fn normalize_host(host: &str) -> (r: String)
    ensures
        r@ == bound_host(host@),
{
    if same_text(host, "::") || same_text(host, "*") {
        ANY_HOST.to_owned()
    } else {
        host.to_owned()
    }
}

/// Are the two texts the same?
fn same_text(a: &str, b: &str) -> (r: bool)
    ensures
        r == (a@ == b@),
{
    crate::chars::is_text(crate::chars::chars_of(a).as_slice(), b)
}

/// A number with its sign, in decimal.
pub open spec fn signed_chars(n: int) -> Seq<char> {
    if n < 0 {
        "-"@ + decimal_chars((-n) as nat)
    } else {
        decimal_chars(n as nat)
    }
}

fn push_signed(out: &mut String, n: i32)
    ensures
        final(out)@ == old(out)@ + signed_chars(n as int),
{
    let wide = n as i64;
    if wide < 0 {
        out.append("-");
        push_number(out, (-wide) as u64);
        assert(out@ =~= old(out)@ + signed_chars(n as int));
    } else {
        push_number(out, wide as u64);
    }
}

/// The port that is asked for: the sentinel for a random one asks for none in particular,
/// and a port that is not set is the default.
pub open spec fn asked_port(port: i32) -> int {
    if port == RANDOM_PORT {
        0
    } else if port == 0 {
        DEFAULT_PORT as int
    } else {
        port as int
    }
}

/// The port that the server is known under: one that is not set is the default.
pub open spec fn named_port(port: i32) -> int {
    if port == 0 {
        DEFAULT_PORT as int
    } else {
        port as int
    }
}

/// What to bind, as `host:port`.
pub fn bind_text(cfg: &Config) -> (r: String)
    ensures
        r@ == bound_host(cfg.host@) + ":"@ + signed_chars(asked_port(cfg.port)),
{
    let mut out = normalize_host(cfg.host.as_str());
    out.append(":");
    push_signed(&mut out, cfg.kernel_port());
    out
}

/// Why the server could not start, in words: where it was to listen, and what went wrong.
pub fn listen_error(cfg: &Config, reason: &str) -> (r: String)
    ensures
        r@ == "process couldn't start server: failed to listen on "@ + cfg.host@ + ":"@
            + signed_chars(
            if cfg.port == 0 {
                DEFAULT_PORT as int
            } else {
                cfg.port as int
            },
        ) + " - "@ + reason@,
        r@ == "process couldn't start server: failed to listen on "@ + cfg.host@ + ":"@
            + signed_chars(named_port(cfg.port)) + " - "@ + reason@,
{
    let mut out = "process couldn't start server: failed to listen on ".to_owned();
    out.append(cfg.host.as_str());
    out.append(":");
    push_signed(&mut out, cfg.bind_port());
    out.append(" - ");
    out.append(reason);
    out
}

} // verus!
