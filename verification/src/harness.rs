//! Driving a server from outside: which binary to run, and the ports file that tells which
//! port it bound.
use vstd::prelude::*;

use crate::chars::{
    ascii_chars, a_decimal_is_a_number, chars_of, number, number_value, string_of,
};
use crate::config::{decimal_chars, optional_chars, push_number};
use crate::json::{json_list_head, list_head, one_item_list, plain, plain_text};
use crate::text::{decimal, decimal_round_trip, is_digit};

verus! {

/// Said where no binary was named.
pub const NO_BINARY: &'static str = "NATS_SERVER_BIN is not set: point it at the nats-server binary under test";

/// The binary to run: the one that the environment names.
pub fn resolve_bin(env_val: Option<String>) -> (r: Result<String, String>)
    ensures
        match env_val {
            Some(bin) if bin@.len() > 0 => r matches Ok(got) && got@ == bin@,
            _ => r matches Err(e) && e@ == NO_BINARY@,
        },
{
    match env_val {
        Some(bin) => {
            if bin.as_str().unicode_len() > 0 {
                Ok(bin)
            } else {
                Err(NO_BINARY.to_owned())
            }
        },
        None => Err(NO_BINARY.to_owned()),
    }
}

// ---------------------------------------------------------------------- ports file --

/// A host and a port, as clients dial them.
pub open spec fn address_text(host: Seq<char>, port: nat) -> Seq<char> {
    host + ":"@ + decimal_chars(port)
}

/// The url of a server.
pub open spec fn url_text(host: Seq<char>, port: nat) -> Seq<char> {
    "nats://"@ + address_text(host, port)
}

/// `host:port`, for clients.
pub fn client_addr(host: &str, port: u16) -> (r: String)
    ensures
        r@ == address_text(host@, port as nat),
{
    let mut out = String::new();
    out.append(host);
    out.append(":");
    push_number(&mut out, port as u64);
    assert(out@ =~= address_text(host@, port as nat));
    out
}

/// The url of a server.
pub fn url(host: &str, port: u16) -> (r: String)
    ensures
        r@ == url_text(host@, port as nat),
{
    let mut out = "nats://".to_owned();
    out.append(client_addr(host, port).as_str());
    out
}

/// The name of a ports file: the program's name and the process's number.
pub fn ports_file_name(program: &str, process: u32) -> (r: String)
    ensures
        r@ == program@ + "_"@ + decimal_chars(process as nat) + ".ports"@,
{
    let mut out = String::new();
    out.append(program);
    out.append("_");
    push_number(&mut out, process as u64);
    out.append(".ports");
    assert(out@ =~= program@ + "_"@ + decimal_chars(process as nat) + ".ports"@);
    out
}

/// What a ports file says: a list of one url.
pub open spec fn ports_text(host: Seq<char>, port: nat) -> Seq<char> {
    one_item_list("nats"@, url_text(host, port))
}

/// What a ports file says.
pub fn ports_body(host: &str, port: u16) -> (r: String)
    ensures
        r@ == ports_text(host@, port as nat),
{
    let mut out = "{\"".to_owned();
    out.append("nats");
    out.append("\":[\"");
    out.append(url(host, port).as_str());
    out.append("\"]}");
    out
}

/// What a ports file told.
pub enum Ports {
    /// Nothing that can be used, so far: the file may be only half written.
    NotYet,
    /// A url that names no port.
    BadUrl(String),
    /// Where the server is.
    Found(String, u16),
}

/// What a ports file told, with text as sequences.
#[verifier::ext_equal]
pub enum PortsView {
    NotYet,
    BadUrl(Seq<char>),
    Found(Seq<char>, nat),
}

impl View for Ports {
    type V = PortsView;

    open spec fn view(&self) -> PortsView {
        match self {
            Ports::NotYet => PortsView::NotYet,
            Ports::BadUrl(message) => PortsView::BadUrl(message@),
            Ports::Found(host, port) => PortsView::Found(host@, *port as nat),
        }
    }
}

/// Where two slashes first stand.
pub open spec fn first_slashes(s: Seq<char>) -> Option<int>
    decreases s.len(),
{
    if s.len() < 2 {
        None
    } else if s[0] == '/' && s[1] == '/' {
        Some(0)
    } else {
        match first_slashes(s.skip(1)) {
            Some(i) => Some(i + 1),
            None => None,
        }
    }
}

/// What stands between the first two pairs of slashes, or behind the only one; all of it
/// where there is none.
pub open spec fn authority(url: Seq<char>) -> Seq<char> {
    match first_slashes(url) {
        None => url,
        Some(i) => {
            let rest = url.skip(i + 2);
            match first_slashes(rest) {
                None => rest,
                Some(j) => rest.take(j),
            }
        },
    }
}

/// Where a character last stands.
pub open spec fn last_at(s: Seq<char>, c: char) -> Option<int>
    decreases s.len(),
{
    if s.len() == 0 {
        None
    } else if s.last() == c {
        Some(s.len() - 1)
    } else {
        last_at(s.drop_last(), c)
    }
}

/// The host and the port that a url names.
pub open spec fn ports_in(url: Option<Seq<char>>) -> PortsView {
    match url {
        None => PortsView::NotYet,
        Some(u) => {
            let a = authority(u);
            match last_at(a, ':') {
                None => PortsView::BadUrl("bad ports url: "@ + u),
                Some(i) => match number_value(a.skip(i + 1), u16::MAX as nat) {
                    Some(port) => PortsView::Found(a.take(i), port),
                    None => PortsView::NotYet,
                },
            }
        },
    }
}

fn find_slashes(s: &[char]) -> (r: Option<usize>)
    ensures
        match r {
            Some(i) => first_slashes(s@) == Some(i as int) && i + 2 <= s@.len(),
            None => first_slashes(s@) is None,
        },
{
    let len = s.len();
    let mut i: usize = 0;
    assert(s@.skip(0) =~= s@);
    while i < len
        invariant
            len == s@.len(),
            i <= len,
            first_slashes(s@) == match first_slashes(s@.skip(i as int)) {
                Some(k) => Some(k + i),
                None => None,
            },
        decreases len - i,
    {
        let ghost rest = s@.skip(i as int);
        assert(rest[0] == s@[i as int]);
        if len - i < 2 {
            return None;
        }
        assert(rest[1] == s@[i + 1]);
        if s[i] == '/' && s[i + 1] == '/' {
            return Some(i);
        }
        assert(rest.skip(1) =~= s@.skip(i + 1));
        i += 1;
    }
    None
}

fn find_last(s: &[char], c: char) -> (r: Option<usize>)
    ensures
        match r {
            Some(i) => last_at(s@, c) == Some(i as int) && i < s@.len(),
            None => last_at(s@, c) is None,
        },
{
    let mut n = s.len();
    assert(s@.take(n as int) =~= s@);
    while n > 0
        invariant
            n <= s@.len(),
            last_at(s@, c) == last_at(s@.take(n as int), c),
        decreases n,
    {
        assert(s@.take(n as int).last() == s@[n - 1]);
        if s[n - 1] == c {
            return Some(n - 1);
        }
        assert(s@.take(n as int).drop_last() =~= s@.take(n - 1));
        n -= 1;
    }
    None
}

/// The part of a url that names the host and the port.
fn authority_of(u: &[char]) -> (r: &[char])
    ensures
        r@ == authority(u@),
{
    match find_slashes(u) {
        None => u,
        Some(i) => {
            let len = u.len();
            let rest: &[char] = &u[i + 2..len];
            assert(rest@ =~= u@.skip(i + 2));
            match find_slashes(rest) {
                None => rest,
                Some(j) => {
                    let head: &[char] = &rest[0..j];
                    assert(head@ =~= rest@.take(j as int));
                    head
                },
            }
        },
    }
}

/// The host and the port that a url from a ports file names.
pub fn ports_of(url: Option<&str>) -> (r: Ports)
    ensures
        r@ == ports_in(
            match url {
                Some(u) => Some(u@),
                None => None,
            },
        ),
{
    let u = match url {
        Some(u) => u,
        None => {
            return Ports::NotYet;
        },
    };
    let chars = chars_of(u);
    let a = authority_of(chars.as_slice());
    match find_last(a, ':') {
        None => {
            let mut message = "bad ports url: ".to_owned();
            message.append(u);
            Ports::BadUrl(message)
        },
        Some(i) => {
            let len = a.len();
            let host: &[char] = &a[0..i];
            let port: &[char] = &a[i + 1..len];
            assert(host@ =~= a@.take(i as int));
            assert(port@ =~= a@.skip(i + 1));
            match number(port, u16::MAX as u64) {
                Some(n) => Ports::Found(string_of(host), n as u16),
                None => Ports::NotYet,
            }
        },
    }
}

/// A host that a ports file can name: nothing in it needs escapes or ends it early.
pub open spec fn plain_host(host: Seq<char>) -> bool {
    plain_text(host) && forall|i: int| 0 <= i < host.len() ==> #[trigger] host[i] != '/'
}

/// Reads a ports file. What was written for a host and a port tells that host and that port.
pub fn read_ports(content: &str) -> (r: Ports)
    ensures
        r@ == ports_in(json_list_head(content@, "nats"@)),
        forall|host: Seq<char>, port: u16|
            content@ == #[trigger] ports_text(host, port as nat) && plain_host(host) ==> r@
                == PortsView::Found(host, port as nat),
{
    let head = list_head(content, "nats");
    proof {
        assert forall|host: Seq<char>, port: u16|
            content@ == #[trigger] ports_text(host, port as nat) && plain_host(host) implies ports_in(
            optional_chars(head),
        ) == PortsView::Found(host, port as nat) by {
            url_is_plain(host, port as nat);
            assert(content@ == one_item_list("nats"@, url_text(host, port as nat)));
            url_names_its_port(host, port);
        }
    }
    match &head {
        Some(s) => ports_of(Some(s.as_str())),
        None => ports_of(None),
    }
}

pub(crate) proof fn decimal_chars_are_digits(n: nat)
    ensures
        forall|i: int|
            0 <= i < decimal_chars(n).len() ==> 0x30 <= #[trigger] decimal_chars(n)[i] as u32
                <= 0x39,
        decimal_chars(n).len() > 0,
{
    decimal_round_trip(n);
    assert forall|i: int| 0 <= i < decimal_chars(n).len() implies 0x30
        <= #[trigger] decimal_chars(n)[i] as u32 <= 0x39 by {
        assert(is_digit(decimal(n)[i]));
    }
}

proof fn url_is_plain(host: Seq<char>, port: nat)
    requires
        plain_host(host),
    ensures
        plain_text("nats"@),
        plain_text(url_text(host, port)),
{
    reveal_strlit("nats");
    reveal_strlit("nats://");
    reveal_strlit(":");
    decimal_chars_are_digits(port);
    let u = url_text(host, port);
    let n = host.len() as int;
    assert forall|i: int| 0 <= i < u.len() implies plain(#[trigger] u[i]) by {
        if i < 7 {
            assert(u[i] == "nats://"@[i]);
        } else if i < 7 + n {
            assert(u[i] == host[i - 7]);
        } else if i == 7 + n {
            assert(u[i] == ':');
        } else {
            assert(u[i] == decimal_chars(port)[i - 8 - n]);
        }
    }
}

pub(crate) proof fn no_slashes(s: Seq<char>)
    requires
        forall|i: int| 0 <= i < s.len() ==> #[trigger] s[i] != '/',
    ensures
        first_slashes(s) is None,
    decreases s.len(),
{
    if s.len() >= 2 {
        assert(s[0] != '/');
        assert forall|i: int| 0 <= i < s.skip(1).len() implies #[trigger] s.skip(1)[i] != '/' by {
            assert(s.skip(1)[i] == s[i + 1]);
        }
        no_slashes(s.skip(1));
    }
}

pub(crate) proof fn last_is(s: Seq<char>, c: char, at: int)
    requires
        0 <= at < s.len(),
        s[at] == c,
        forall|i: int| at < i < s.len() ==> #[trigger] s[i] != c,
    ensures
        last_at(s, c) == Some(at),
    decreases s.len(),
{
    if at < s.len() - 1 {
        assert(s.last() == s[s.len() - 1]);
        assert forall|i: int| at < i < s.drop_last().len() implies #[trigger] s.drop_last()[i]
            != c by {
            assert(s.drop_last()[i] == s[i]);
        }
        last_is(s.drop_last(), c, at);
    }
}

/// The url of a server names its host and its port.
pub proof fn url_names_its_port(host: Seq<char>, port: u16)
    requires
        plain_host(host),
    ensures
        ports_in(Some(url_text(host, port as nat))) == PortsView::Found(host, port as nat),
{
    let u = url_text(host, port as nat);
    let a = address_text(host, port as nat);
    let d = decimal_chars(port as nat);
    let n = host.len() as int;
    reveal_strlit("nats://");
    reveal_strlit(":");
    decimal_chars_are_digits(port as nat);
    // The slashes of the scheme are the first, and there are no others.
    reveal_with_fuel(first_slashes, 7);
    assert(u[0] == 'n' && u[1] == 'a' && u[2] == 't' && u[3] == 's' && u[4] == ':' && u[5] == '/'
        && u[6] == '/');
    assert(u.skip(1).skip(1) =~= u.skip(2));
    assert(u.skip(2).skip(1) =~= u.skip(3));
    assert(u.skip(3).skip(1) =~= u.skip(4));
    assert(u.skip(4).skip(1) =~= u.skip(5));
    assert(first_slashes(u.skip(5)) == Some(0int));
    assert(first_slashes(u.skip(4)) == Some(1int));
    assert(first_slashes(u.skip(3)) == Some(2int));
    assert(first_slashes(u.skip(2)) == Some(3int));
    assert(first_slashes(u.skip(1)) == Some(4int));
    assert(first_slashes(u) == Some(5int));
    assert(u.skip(7) =~= a);
    assert forall|i: int| 0 <= i < a.len() implies #[trigger] a[i] != '/' by {
        if i < n {
            assert(a[i] == host[i]);
        } else if i == n {
            assert(a[i] == ':');
        } else {
            assert(a[i] == d[i - n - 1]);
        }
    }
    no_slashes(a);
    // The last colon stands before the port.
    assert(a[n] == ':');
    assert forall|i: int| n < i < a.len() implies #[trigger] a[i] != ':' by {
        assert(a[i] == d[i - n - 1]);
    }
    last_is(a, ':', n);
    assert(a.take(n) =~= host);
    assert(a.skip(n + 1) =~= d);
    a_decimal_is_a_number(port as nat);
    assert(d == ascii_chars(decimal(port as nat)));
    assert(number_value(d, u16::MAX as nat) == Some(port as nat));
}

// ------------------------------------------------------------------------- readiness --

/// What a look at a server that was started says.
#[derive(Debug, Clone, Copy, PartialEq, Eq, Structural)]
pub enum Ready {
    /// It took too long.
    TimedOut,
    /// It is gone.
    Exited,
    /// It can be reached at the port that it named.
    Up,
    /// Look again.
    Wait,
}

/// What a look at a server that was started says.
pub open spec fn readiness(expired: bool, exited: bool, reachable: bool) -> Ready {
    if expired {
        Ready::TimedOut
    } else if exited {
        Ready::Exited
    } else if reachable {
        Ready::Up
    } else {
        Ready::Wait
    }
}

/// Looks at a server that was started. A ports file alone does not make it ready.
pub fn ready_step(expired: bool, exited: bool, reachable: bool) -> (r: Ready)
    ensures
        r == if expired {
            Ready::TimedOut
        } else if exited {
            Ready::Exited
        } else if reachable {
            Ready::Up
        } else {
            Ready::Wait
        },
        r == readiness(expired, exited, reachable),
{
    if expired {
        Ready::TimedOut
    } else if exited {
        Ready::Exited
    } else if reachable {
        Ready::Up
    } else {
        Ready::Wait
    }
}

} // verus!
