//! The client's side of the wire: framing what a client sends, and taking apart what a
//! server says, as bytes.
use vstd::prelude::*;

use crate::json::{json_fields, lossy, optional_fields, parse_fields};
use crate::proto::{
    after_blanks, args_of, blank, find_crlf, leading_is, line_end, line_end_is_first, line_meaning,
    pub_meaning, rest_of, run, same_verb, size_value, starts_with_verb, step, upper, verb_of, End,
    EventView, HpubOutcome, Limits, LineMeaning, Run, StateView, Step, MAX_BODY,
};
use crate::routing::spaced;
use crate::text::{
    ascii_text, crlf, decimal, decimal_is_short, decimal_round_trip, is_digit, push_u64, same_bytes,
    separators, text, CR, LF, SPACE,
};

verus! {

/// Long enough for a loopback round trip, in milliseconds.
pub const IO: u64 = 5_000;

/// How long silence must last before a connection counts as quiet, in milliseconds.
pub const QUIET: u64 = 300;

/// The server is either done talking or has hung up within this, in milliseconds.
pub const CLOSED: u64 = 400;

/// Anything that is waited for arrives faster than this on loopback, in milliseconds.
pub const SHORT: u64 = 900;

/// Options for a quiet connection.
pub const NO_VERBOSE: &'static str = "{\"verbose\":false}";

/// Options of a client that takes headers and wants to know when nobody answers.
pub const CAPS: &'static str = "{\"verbose\":false,\"headers\":true,\"no_responders\":true}";

/// What the server did next.
#[derive(Debug, PartialEq, Eq)]
pub enum Next {
    /// One complete control line, its line end included.
    Line(Vec<u8>),
    /// The server closed the connection.
    Closed,
    /// Nothing arrived in time.
    Timeout,
}

impl Next {
    /// Did the server close?
    pub fn is_closed(&self) -> (r: bool)
        ensures
            r == (*self is Closed),
    {
        match self {
            Next::Closed => true,
            _ => false,
        }
    }

    /// Did nothing arrive?
    pub fn is_timeout(&self) -> (r: bool)
        ensures
            r == (*self is Timeout),
    {
        match self {
            Next::Timeout => true,
            _ => false,
        }
    }

    /// The line as bytes.
    pub fn line(&self) -> (r: &[u8])
        requires
            *self is Line,
        ensures
            r@ == self->Line_0@,
    {
        match self {
            Next::Line(l) => l.as_slice(),
            _ => "".as_bytes(),
        }
    }

    /// Is it a line that says exactly this?
    pub fn says(&self, want: &[u8]) -> (r: bool)
        ensures
            r == (*self is Line && self->Line_0@ == want@),
    {
        match self {
            Next::Line(l) => same_bytes(l.as_slice(), want),
            _ => false,
        }
    }
}

/// The first line of some bytes, its line end included, and what follows it.
pub open spec fn first_line(s: Seq<u8>) -> Option<(Seq<u8>, Seq<u8>)> {
    match line_end(s) {
        Some(at) => Some((s.take(at + 2), s.skip(at + 2))),
        None => None,
    }
}

/// Takes one complete line, its line end included, from the front of what has arrived.
pub fn take_line(buf: &mut Vec<u8>) -> (r: Option<Vec<u8>>)
    ensures
        match line_end(old(buf)@) {
            Some(at) => {
                &&& r matches Some(line)
                &&& line@ == old(buf)@.take(at + 2)
                &&& final(buf)@ == old(buf)@.skip(at + 2)
            },
            None => r is None && final(buf)@ == old(buf)@,
        },
        match first_line(old(buf)@) {
            Some((line, rest)) => r matches Some(got) && got@ == line && final(buf)@ == rest,
            None => r is None && final(buf)@ == old(buf)@,
        },
{
    proof {
        line_end_is_first(buf@);
    }
    let n = buf.len();
    match find_crlf(buf.as_slice()) {
        Some(at) => {
            assert(at + 2 <= n);
            let rest = buf.split_off(at + 2);
            let mut line: Vec<u8> = rest;
            std::mem::swap(&mut line, buf);
            assert(line@ =~= old(buf)@.take(at + 2));
            assert(buf@ =~= old(buf)@.skip(at + 2));
            Some(line)
        },
        None => None,
    }
}

/// What a server says of itself in the line that it greets with: each field, with the JSON of
/// its value. `None` where the line is no `INFO`, or says no JSON.
pub fn greeting(line: &[u8]) -> (r: Option<Vec<(String, String)>>)
    ensures
        optional_fields(r) == if text("INFO ").is_prefix_of(line@) {
            json_fields(line@.skip(5))
        } else {
            None
        },
{
    proof {
        reveal_strlit("INFO ");
        ascii_text("INFO ");
    }
    let n = line.len();
    if n < 5 {
        return None;
    }
    let head: &[u8] = &line[0..5];
    assert(head@ =~= line@.take(5));
    if !same_bytes(head, "INFO ".as_bytes()) {
        return None;
    }
    let rest: &[u8] = &line[5..n];
    assert(rest@ =~= line@.skip(5));
    let said = lossy(rest);
    parse_fields(said.as_str())
}

/// Is everything that has arrived one keepalive probe? It is then taken out, for the client
/// to answer.
pub fn absorb_ping(bytes: &mut Vec<u8>) -> (r: bool)
    ensures
        r == (old(bytes)@ == text("PING\r\n")),
        final(bytes)@ == if r {
            Seq::<u8>::empty()
        } else {
            old(bytes)@
        },
{
    if same_bytes(bytes.as_slice(), "PING\r\n".as_bytes()) {
        bytes.clear();
        true
    } else {
        false
    }
}

/// The payload of `n` bytes that some bytes are, with the line end behind it.
pub open spec fn payload(bytes: Seq<u8>, n: nat) -> Option<Seq<u8>> {
    if bytes.len() == n + 2 && bytes.skip(n as int) == crlf() {
        Some(bytes.take(n as int))
    } else {
        None
    }
}

/// The payload of `n` bytes at the front of what has arrived, if it and the line end behind
/// it are there.
pub fn msg_body(bytes: &[u8], n: usize) -> (r: Option<Vec<u8>>)
    ensures
        match r {
            Some(body) => bytes@.len() == n + 2 && body@ == bytes@.take(n as int) && bytes@.skip(
                n as int,
            ) == crlf(),
            None => bytes@.len() != n + 2 || bytes@.skip(n as int) != crlf(),
        },
        match payload(bytes@, n as nat) {
            Some(body) => r matches Some(got) && got@ == body,
            None => r is None,
        },
{
    if bytes.len() < 2 || bytes.len() - 2 != n {
        return None;
    }
    if bytes[n] != CR || bytes[n + 1] != LF {
        assert(bytes@.skip(n as int)[0] == bytes@[n as int]);
        assert(bytes@.skip(n as int)[1] == bytes@[n + 1]);
        return None;
    }
    assert(bytes@.skip(n as int) =~= crlf());
    let mut body: Vec<u8> = Vec::new();
    let head: &[u8] = &bytes[0..n];
    body.extend_from_slice(head);
    assert(body@ =~= bytes@.take(n as int));
    Some(body)
}

/// The optional field of a control line, with the space before it.
pub open spec fn spaced_optional(field: Option<Seq<u8>>) -> Seq<u8> {
    match field {
        Some(f) => spaced(f),
        None => Seq::empty(),
    }
}

/// The control line of a publish.
pub open spec fn pub_line(subject: Seq<u8>, reply: Option<Seq<u8>>, size: nat) -> Seq<u8> {
    text("PUB") + spaced(subject) + spaced_optional(reply) + spaced(decimal(size))
}

/// A publish on the wire.
pub open spec fn pub_bytes(subject: Seq<u8>, reply: Option<Seq<u8>>, body: Seq<u8>) -> Seq<u8> {
    pub_line(subject, reply, body.len()) + crlf() + body + crlf()
}

/// The control line of a publish with a header block: it counts the block and the total.
pub open spec fn hpub_line(
    subject: Seq<u8>,
    reply: Option<Seq<u8>>,
    hdr: nat,
    total: nat,
) -> Seq<u8> {
    text("HPUB") + spaced(subject) + spaced_optional(reply) + spaced(decimal(hdr)) + spaced(
        decimal(total),
    )
}

/// A publish with a header block on the wire.
pub open spec fn hpub_bytes(
    subject: Seq<u8>,
    reply: Option<Seq<u8>>,
    hdr: Seq<u8>,
    body: Seq<u8>,
) -> Seq<u8> {
    hpub_line(subject, reply, hdr.len(), hdr.len() + body.len()) + crlf() + hdr + body + crlf()
}

/// The bytes of an optional piece of text.
pub open spec fn optional_text(s: Option<&str>) -> Option<Seq<u8>> {
    match s {
        Some(x) => Some(text(x)),
        None => None,
    }
}

fn push_fields(out: &mut Vec<u8>, subject: &str, reply: Option<&str>)
    ensures
        final(out)@ == old(out)@ + spaced(text(subject)) + spaced_optional(optional_text(reply)),
{
    out.push(SPACE);
    out.extend_from_slice(subject.as_bytes());
    assert(out@ =~= old(out)@ + spaced(text(subject)));
    if let Some(r) = reply {
        out.push(SPACE);
        out.extend_from_slice(r.as_bytes());
    }
    assert(out@ =~= old(out)@ + spaced(text(subject)) + spaced_optional(optional_text(reply)));
}

fn push_size(out: &mut Vec<u8>, n: usize)
    ensures
        final(out)@ == old(out)@ + spaced(decimal(n as nat)),
{
    out.push(SPACE);
    push_u64(out, n as u64);
    assert(out@ =~= old(out)@ + spaced(decimal(n as nat)));
}

/// What a line says to somebody who waits for a `PONG`.
#[derive(Debug, Clone, Copy, PartialEq, Eq, Structural)]
pub enum Barrier {
    /// The `PONG` is there: everything before it was processed.
    Done,
    /// An acknowledgement of something before it: read on.
    More,
    /// Something else.
    Unexpected,
}

/// What a line says to somebody who waits for a `PONG`.
pub open spec fn barrier_of(line: Seq<u8>) -> Barrier {
    if line == text("PONG\r\n") {
        Barrier::Done
    } else if text("+OK").is_prefix_of(line) {
        Barrier::More
    } else {
        Barrier::Unexpected
    }
}

/// Looks at what came while a `PONG` is waited for.
pub fn barrier_step(next: &Next) -> (r: Barrier)
    ensures
        r == match *next {
            Next::Line(line) => if line@ == text("PONG\r\n") {
                Barrier::Done
            } else if text("+OK").is_prefix_of(line@) {
                Barrier::More
            } else {
                Barrier::Unexpected
            },
            _ => Barrier::Unexpected,
        },
        next matches Next::Line(line) ==> r == barrier_of(line@),
{
    match next {
        Next::Line(line) => {
            if same_bytes(line.as_slice(), "PONG\r\n".as_bytes()) {
                return Barrier::Done;
            }
            let ok = "+OK".as_bytes();
            if line.len() >= ok.len() {
                let head: &[u8] = &line.as_slice()[0..ok.len()];
                assert(head@ =~= line@.subrange(0, ok@.len() as int));
                if same_bytes(head, ok) {
                    return Barrier::More;
                }
            }
            Barrier::Unexpected
        },
        _ => Barrier::Unexpected,
    }
}

/// A publish, framed as the protocol requires.
pub fn pub_frame(subject: &str, reply: Option<&str>, body: &[u8]) -> (r: Vec<u8>)
    ensures
        r@ == pub_bytes(text(subject), optional_text(reply), body@),
{
    let mut out: Vec<u8> = Vec::new();
    out.extend_from_slice("PUB".as_bytes());
    assert(out@ =~= text("PUB"));
    push_fields(&mut out, subject, reply);
    push_size(&mut out, body.len());
    out.extend_from_slice("\r\n".as_bytes());
    out.extend_from_slice(body);
    out.extend_from_slice("\r\n".as_bytes());
    proof {
        separators();
    }
    out
}

/// A publish with a header block: the control line counts the block and the total.
pub fn hpub_frame(subject: &str, reply: Option<&str>, hdr: &[u8], body: &[u8]) -> (r: Vec<u8>)
    requires
        hdr@.len() + body@.len() <= usize::MAX,
    ensures
        r@ == hpub_bytes(text(subject), optional_text(reply), hdr@, body@),
{
    let mut out: Vec<u8> = Vec::new();
    out.extend_from_slice("HPUB".as_bytes());
    assert(out@ =~= text("HPUB"));
    push_fields(&mut out, subject, reply);
    push_size(&mut out, hdr.len());
    push_size(&mut out, hdr.len() + body.len());
    out.extend_from_slice("\r\n".as_bytes());
    out.extend_from_slice(hdr);
    out.extend_from_slice(body);
    out.extend_from_slice("\r\n".as_bytes());
    proof {
        separators();
    }
    out
}

/// Several header lines, each with its line end.
pub open spec fn header_lines(lines: Seq<&str>) -> Seq<u8>
    decreases lines.len(),
{
    if lines.len() == 0 {
        Seq::empty()
    } else {
        header_lines(lines.drop_last()) + text(lines.last()) + crlf()
    }
}

/// A header block: its first line, the header lines, and the blank line that closes it.
pub fn header_block(lines: &[&str]) -> (r: Vec<u8>)
    ensures
        r@ == text("NATS/1.0\r\n") + header_lines(lines@) + crlf(),
{
    let mut out: Vec<u8> = Vec::new();
    out.extend_from_slice("NATS/1.0\r\n".as_bytes());
    let ghost head = text("NATS/1.0\r\n");
    let mut i: usize = 0;
    proof {
        separators();
        assert(lines@.take(0) =~= Seq::<&str>::empty());
        assert(out@ =~= head + header_lines(lines@.take(0)));
    }
    while i < lines.len()
        invariant
            i <= lines@.len(),
            text("\r\n") == crlf(),
            out@ == head + header_lines(lines@.take(i as int)),
        decreases lines@.len() - i,
    {
        assert(lines@.take(i + 1).drop_last() =~= lines@.take(i as int));
        out.extend_from_slice(lines[i].as_bytes());
        out.extend_from_slice("\r\n".as_bytes());
        assert(out@ =~= head + header_lines(lines@.take(i + 1)));
        i += 1;
    }
    assert(lines@.take(i as int) =~= lines@);
    out.extend_from_slice("\r\n".as_bytes());
    out
}

// --------------------------------------------------------------------------- laws --

/// A field of a control line: not empty, and with nothing in it that separates fields or
/// lines.
pub open spec fn is_field(s: Seq<u8>) -> bool {
    &&& s.len() > 0
    &&& forall|i: int| #![trigger s[i]]
        0 <= i < s.len() ==> !blank(s[i]) && s[i] != CR && s[i] != LF
}

/// Several fields, each with the space before it.
pub open spec fn spaced_all(fields: Seq<Seq<u8>>) -> Seq<u8>
    decreases fields.len(),
{
    if fields.len() == 0 {
        Seq::empty()
    } else {
        spaced(fields[0]) + spaced_all(fields.skip(1))
    }
}

/// Fields written with a space before each are read back as they are.
pub proof fn fields_are_read_back(fields: Seq<Seq<u8>>)
    requires
        forall|i: int| 0 <= i < fields.len() ==> is_field(#[trigger] fields[i]),
    ensures
        args_of(spaced_all(fields)) == fields,
    decreases fields.len(),
{
    let s = spaced_all(fields);
    if fields.len() == 0 {
        assert(after_blanks(s).len() == 0);
        assert(args_of(s) =~= fields);
    } else {
        let f = fields[0];
        let rest = spaced_all(fields.skip(1));
        assert(is_field(f));
        assert forall|i: int| 0 <= i < fields.skip(1).len() implies is_field(
            #[trigger] fields.skip(1)[i],
        ) by {
            assert(fields.skip(1)[i] == fields[i + 1]);
        }
        fields_are_read_back(fields.skip(1));
        assert(s =~= seq![SPACE] + f + rest);
        // One blank, then the field.
        assert(s[0] == SPACE);
        assert(s[1] == f[0]);
        leading_is(s, true, 1);
        let t = after_blanks(s);
        assert(t =~= f + rest);
        assert forall|i: int| 0 <= i < f.len() implies blank(#[trigger] t[i]) == false by {
            assert(t[i] == f[i]);
        }
        if rest.len() > 0 {
            assert(fields.skip(1).len() > 0);
            assert(rest[0] == SPACE);
            assert(t[f.len() as int] == rest[0]);
        }
        leading_is(t, false, f.len());
        assert(t.take(f.len() as int) =~= f);
        assert(t.skip(f.len() as int) =~= rest);
        assert(args_of(s) == seq![f] + args_of(rest));
        assert(seq![f] + fields.skip(1) =~= fields);
    }
}

pub(crate) proof fn spaced_all_has_no_line_end(fields: Seq<Seq<u8>>)
    requires
        forall|i: int| 0 <= i < fields.len() ==> is_field(#[trigger] fields[i]),
    ensures
        forall|i: int| 0 <= i < spaced_all(fields).len() ==> #[trigger] spaced_all(fields)[i] != CR
            && spaced_all(fields)[i] != LF,
    decreases fields.len(),
{
    if fields.len() > 0 {
        assert forall|i: int| 0 <= i < fields.skip(1).len() implies is_field(
            #[trigger] fields.skip(1)[i],
        ) by {
            assert(fields.skip(1)[i] == fields[i + 1]);
        }
        spaced_all_has_no_line_end(fields.skip(1));
        let f = fields[0];
        assert(is_field(f));
        let rest = spaced_all(fields.skip(1));
        let s = spaced_all(fields);
        assert forall|i: int| 0 <= i < s.len() implies #[trigger] s[i] != CR && s[i] != LF by {
            if i == 0 {
                assert(s[i] == SPACE);
            } else if i <= f.len() {
                assert(s[i] == f[i - 1]);
            } else {
                assert(s[i] == rest[i - 1 - f.len()]);
            }
        }
    }
}

pub(crate) proof fn decimal_is_a_field(n: nat)
    requires
        n <= MAX_BODY,
    ensures
        is_field(decimal(n)),
        size_value(decimal(n)) == n,
{
    decimal_round_trip(n);
    assert(vstd::arithmetic::power::pow(10, 9) == 1_000_000_000) by {
        reveal_with_fuel(vstd::arithmetic::power::pow, 10);
    }
    decimal_is_short(n, 9);
    assert forall|i: int| #![trigger decimal(n)[i]] 0 <= i < decimal(n).len() implies !blank(
        decimal(n)[i],
    ) && decimal(n)[i] != CR && decimal(n)[i] != LF by {
        assert(is_digit(decimal(n)[i]));
    }
}

/// The line end stands behind a control line that has none in it.
pub(crate) proof fn line_ends_there(line: Seq<u8>, rest: Seq<u8>)
    requires
        no_line_end(line),
    ensures
        line_end(line + crlf() + rest) == Some(line.len() as int),
        (line + crlf() + rest).take(line.len() as int) == line,
        (line + crlf() + rest).skip(line.len() as int + 2) == rest,
{
    let s = line + crlf() + rest;
    let n = line.len() as int;
    line_end_is_first(s);
    assert(s[n] == CR && s[n + 1] == LF);
    assert forall|j: int| 0 <= j < n implies #[trigger] s[j] != CR by {
        assert(s[j] == line[j]);
    }
    assert(s.take(n) =~= line);
    assert(s.skip(n + 2) =~= rest);
}

/// The letters of the verbs that a publish could be taken for.
pub(crate) proof fn verb_letters()
    ensures
        text("PUB") == seq![0x50u8, 0x55u8, 0x42u8],
        text("HPUB") == seq![0x48u8, 0x50u8, 0x55u8, 0x42u8],
        text("PING") == seq![0x50u8, 0x49u8, 0x4eu8, 0x47u8],
        text("PONG") == seq![0x50u8, 0x4fu8, 0x4eu8, 0x47u8],
        text("INFO") == seq![0x49u8, 0x4eu8, 0x46u8, 0x4fu8],
        text("+OK") == seq![0x2bu8, 0x4fu8, 0x4bu8],
        text("-ERR") == seq![0x2du8, 0x45u8, 0x52u8, 0x52u8],
        text("CONNECT").len() == 7 && text("CONNECT")[0] == 0x43u8,
        text("SUB") == seq![0x53u8, 0x55u8, 0x42u8],
        text("UNSUB").len() == 5,
        text("UNSUB") == seq![0x55u8, 0x4eu8, 0x53u8, 0x55u8, 0x42u8],
{
    reveal_strlit("PUB");
    reveal_strlit("HPUB");
    reveal_strlit("PING");
    reveal_strlit("PONG");
    reveal_strlit("INFO");
    reveal_strlit("+OK");
    reveal_strlit("-ERR");
    reveal_strlit("CONNECT");
    reveal_strlit("SUB");
    reveal_strlit("UNSUB");
    ascii_text("PUB");
    ascii_text("HPUB");
    ascii_text("PING");
    ascii_text("PONG");
    ascii_text("INFO");
    ascii_text("+OK");
    ascii_text("-ERR");
    ascii_text("CONNECT");
    ascii_text("SUB");
    ascii_text("UNSUB");
    assert(text("PUB") =~= seq![0x50u8, 0x55u8, 0x42u8]);
    assert(text("HPUB") =~= seq![0x48u8, 0x50u8, 0x55u8, 0x42u8]);
    assert(text("PING") =~= seq![0x50u8, 0x49u8, 0x4eu8, 0x47u8]);
    assert(text("PONG") =~= seq![0x50u8, 0x4fu8, 0x4eu8, 0x47u8]);
    assert(text("INFO") =~= seq![0x49u8, 0x4eu8, 0x46u8, 0x4fu8]);
    assert(text("+OK") =~= seq![0x2bu8, 0x4fu8, 0x4bu8]);
    assert(text("-ERR") =~= seq![0x2du8, 0x45u8, 0x52u8, 0x52u8]);
    assert(text("SUB") =~= seq![0x53u8, 0x55u8, 0x42u8]);
    assert(text("UNSUB") =~= seq![0x55u8, 0x4eu8, 0x53u8, 0x55u8, 0x42u8]);
}

/// A line that begins with a publish verb and a space means what its fields say.
proof fn publish_line_means(verb: Seq<u8>, fields: Seq<Seq<u8>>, hpub: bool, max_payload: u64)
    requires
        hpub ==> verb == text("HPUB"),
        !hpub ==> verb == text("PUB"),
        fields.len() > 0,
        forall|i: int| 0 <= i < fields.len() ==> is_field(#[trigger] fields[i]),
    ensures
        line_meaning(verb + spaced_all(fields), max_payload) == pub_meaning(
            fields,
            hpub,
            max_payload,
        ),
        no_line_end(verb + spaced_all(fields)),
{
    let rest = spaced_all(fields);
    let line = verb + rest;
    verb_letters();
    fields_are_read_back(fields);
    spaced_all_has_no_line_end(fields);
    assert forall|i: int| #![trigger line[i]] 0 <= i < line.len() implies line[i] != CR && line[i]
        != LF by {
        if i < verb.len() {
            assert(line[i] == verb[i]);
        } else {
            assert(line[i] == rest[i - verb.len()]);
        }
    }
    assert(rest[0] == SPACE);
    assert(line[verb.len() as int] == rest[0]);
    assert forall|i: int| 0 <= i < verb.len() implies blank(#[trigger] line[i]) == false by {
        assert(line[i] == verb[i]);
    }
    leading_is(line, false, verb.len());
    assert(verb_of(line) =~= verb);
    assert(rest_of(line) =~= rest);
    let four = line.take(4);
    assert(line[0] == verb[0] && line[1] == verb[1] && line[2] == verb[2]);
    assert(four[0] == line[0] && four[1] == line[1]);
    assert(!starts_with_verb(line, text("PING"))) by {
        assert(upper(four[1]) != upper(text("PING")[1]) || upper(four[0]) != upper(
            text("PING")[0],
        ));
    }
    assert(!starts_with_verb(line, text("PONG"))) by {
        assert(upper(four[1]) != upper(text("PONG")[1]) || upper(four[0]) != upper(
            text("PONG")[0],
        ));
    }
    assert(!starts_with_verb(line, text("INFO"))) by {
        assert(upper(four[0]) != upper(text("INFO")[0]));
    }
    assert(!starts_with_verb(line, text("CONNECT"))) by {
        if line.len() >= 7 {
            assert(line.take(7)[0] == line[0]);
            assert(upper(line.take(7)[0]) != upper(text("CONNECT")[0]));
        }
    }
    assert(!same_verb(verb, text("+OK"))) by {
        assert(verb.len() == 3 ==> upper(verb[0]) != upper(text("+OK")[0]));
    }
    assert(!same_verb(verb, text("-ERR"))) by {
        assert(verb.len() == 4 ==> upper(verb[0]) != upper(text("-ERR")[0]));
    }
    assert(!same_verb(verb, text("SUB"))) by {
        assert(verb.len() == 3 ==> upper(verb[0]) != upper(text("SUB")[0]));
    }
    assert(same_verb(verb, verb));
    if hpub {
        assert(!same_verb(verb, text("PUB")));
    }
}

/// The fields of a publish.
spec fn pub_fields(subject: Seq<u8>, reply: Option<Seq<u8>>, sizes: Seq<Seq<u8>>) -> Seq<Seq<u8>> {
    match reply {
        Some(r) => seq![subject, r] + sizes,
        None => seq![subject] + sizes,
    }
}

pub(crate) proof fn spaced_all_of(fields: Seq<Seq<u8>>, more: Seq<Seq<u8>>)
    ensures
        spaced_all(fields + more) == spaced_all(fields) + spaced_all(more),
    decreases fields.len(),
{
    if fields.len() == 0 {
        assert(fields + more =~= more);
        assert(spaced_all(fields) + spaced_all(more) =~= spaced_all(more));
    } else {
        assert((fields + more).skip(1) =~= fields.skip(1) + more);
        assert((fields + more)[0] == fields[0]);
        spaced_all_of(fields.skip(1), more);
        assert(spaced_all(fields + more) =~= spaced_all(fields) + spaced_all(more));
    }
}

pub(crate) proof fn spaced_all_one(field: Seq<u8>)
    ensures
        spaced_all(seq![field]) == spaced(field),
{
    assert(seq![field].skip(1) =~= Seq::<Seq<u8>>::empty());
    assert(spaced_all(Seq::<Seq<u8>>::empty()) =~= Seq::empty());
    assert(spaced_all(seq![field]) =~= spaced(field));
}

/// A body of the declared size with a line end behind it is taken whole, and the parser is
/// back at the start of a line with nothing left.
proof fn body_is_taken(
    subject: Seq<u8>,
    reply: Option<Seq<u8>>,
    hdr: nat,
    body: Seq<u8>,
    hpub: bool,
    lim: Limits,
)
    ensures
        ({
            let state = StateView::Body {
                subject,
                reply,
                hdr,
                need: body.len(),
                hpub,
                got: Seq::empty(),
            };
            run(state, body + crlf(), lim) == (Run {
                events: seq![
                    EventView::Publish { subject, reply, hdr, total: body.len(), body, hpub },
                ],
                end: End::Waiting,
                state: StateView::Line,
                rest: Seq::empty(),
            })
        }),
{
    let state = StateView::Body {
        subject,
        reply,
        hdr,
        need: body.len(),
        hpub,
        got: Seq::empty(),
    };
    let input = body + crlf();
    assert(Seq::<u8>::empty() + input.take(body.len() as int) =~= body);
    assert(input.skip(body.len() as int) =~= crlf());
    assert(crlf().skip(2) =~= Seq::<u8>::empty());
    reveal_with_fuel(run, 3);
    let ev = EventView::Publish { subject, reply, hdr, total: body.len(), body, hpub };
    let empty = Seq::<u8>::empty();
    assert(line_end(empty) is None);
    assert(run(StateView::Line, empty, lim).events =~= Seq::empty());
    assert(run(state, input, lim).events =~= seq![ev]);
}

/// The fields of a publish are fields, and say what they were made of.
proof fn plain_fields_mean(subject: Seq<u8>, reply: Option<Seq<u8>>, total: nat, max_payload: u64)
    requires
        is_field(subject),
        reply matches Some(r) ==> is_field(r),
        total <= MAX_BODY,
        total <= max_payload,
    ensures
        ({
            let fields = pub_fields(subject, reply, seq![decimal(total)]);
            &&& fields.len() > 0
            &&& forall|i: int| 0 <= i < fields.len() ==> is_field(#[trigger] fields[i])
            &&& pub_meaning(fields, false, max_payload) == (LineMeaning::Body {
                subject,
                reply,
                hdr: 0,
                need: total,
                hpub: false,
            })
        }),
{
    let fields = pub_fields(subject, reply, seq![decimal(total)]);
    decimal_is_a_field(total);
    assert(fields[fields.len() - 1] == decimal(total));
    assert(fields[0] == subject);
}

/// The fields of a publish with a header block are fields, and say what they were made of.
proof fn header_fields_mean(
    subject: Seq<u8>,
    reply: Option<Seq<u8>>,
    hdr: nat,
    total: nat,
    max_payload: u64,
)
    requires
        is_field(subject),
        reply matches Some(r) ==> is_field(r),
        hdr <= total <= MAX_BODY,
        total <= max_payload,
    ensures
        ({
            let fields = pub_fields(subject, reply, seq![decimal(hdr), decimal(total)]);
            &&& fields.len() > 0
            &&& forall|i: int| 0 <= i < fields.len() ==> is_field(#[trigger] fields[i])
            &&& pub_meaning(fields, true, max_payload) == (LineMeaning::Body {
                subject,
                reply,
                hdr,
                need: total,
                hpub: true,
            })
        }),
{
    let fields = pub_fields(subject, reply, seq![decimal(hdr), decimal(total)]);
    decimal_is_a_field(hdr);
    decimal_is_a_field(total);
    assert(fields[fields.len() - 1] == decimal(total));
    assert(fields[fields.len() - 2] == decimal(hdr));
    assert(fields[0] == subject);
}

/// A line of a publish verb and fields holds no line end, and means what its fields say.
proof fn framed_line_means(verb: Seq<u8>, fields: Seq<Seq<u8>>, hpub: bool, max_payload: u64)
    requires
        hpub ==> verb == text("HPUB"),
        !hpub ==> verb == text("PUB"),
        fields.len() > 0,
        forall|i: int| 0 <= i < fields.len() ==> is_field(#[trigger] fields[i]),
    ensures
        line_meaning(verb + spaced_all(fields), max_payload) == pub_meaning(
            fields,
            hpub,
            max_payload,
        ),
        no_line_end(verb + spaced_all(fields)),
        (verb + spaced_all(fields)).len() > 0,
{
    publish_line_means(verb, fields, hpub, max_payload);
    verb_letters();
    assert((verb + spaced_all(fields)).len() > 0);
}

/// No byte of it belongs to a line end.
pub open spec fn no_line_end(line: Seq<u8>) -> bool {
    forall|i: int| 0 <= i < line.len() ==> #[trigger] line[i] != CR && line[i] != LF
}

/// The control line of a publish, as fields.
proof fn plain_line_is_spaced(subject: Seq<u8>, reply: Option<Seq<u8>>, total: nat)
    ensures
        pub_line(subject, reply, total) == text("PUB") + spaced_all(
            pub_fields(subject, reply, seq![decimal(total)]),
        ),
{
    let size = decimal(total);
    spaced_all_one(subject);
    spaced_all_one(size);
    match reply {
        Some(r) => {
            spaced_all_one(r);
            assert(seq![subject, r] =~= seq![subject] + seq![r]);
            spaced_all_of(seq![subject], seq![r]);
            spaced_all_of(seq![subject, r], seq![size]);
        },
        None => {
            spaced_all_of(seq![subject], seq![size]);
        },
    }
    assert(pub_line(subject, reply, total) =~= text("PUB") + spaced_all(
        pub_fields(subject, reply, seq![size]),
    ));
}

/// What the control line of a publish means.
proof fn plain_line_means(subject: Seq<u8>, reply: Option<Seq<u8>>, total: nat, max_payload: u64)
    requires
        is_field(subject),
        reply matches Some(r) ==> is_field(r),
        total <= MAX_BODY,
        total <= max_payload,
    ensures
        line_meaning(pub_line(subject, reply, total), max_payload) == (LineMeaning::Body {
            subject,
            reply,
            hdr: 0,
            need: total,
            hpub: false,
        }),
        no_line_end(pub_line(subject, reply, total)),
        pub_line(subject, reply, total).len() > 0,
{
    plain_fields_mean(subject, reply, total, max_payload);
    plain_line_is_spaced(subject, reply, total);
    let fields = pub_fields(subject, reply, seq![decimal(total)]);
    framed_line_means(text("PUB"), fields, false, max_payload);
}

/// A publish that a client frames is the publish that the server gets: one command, with
/// the same subject, reply and body, and nothing left over. The fields must be fields, the
/// control line and the body within the limits.
pub proof fn a_publish_is_read_back(
    subject: Seq<u8>,
    reply: Option<Seq<u8>>,
    body: Seq<u8>,
    lim: Limits,
)
    requires
        is_field(subject),
        reply matches Some(r) ==> is_field(r),
        body.len() <= MAX_BODY,
        body.len() <= lim.max_payload,
        pub_line(subject, reply, body.len()).len() <= lim.max_control_line,
    ensures
        run(StateView::Line, pub_bytes(subject, reply, body), lim) == (Run {
            events: seq![
                EventView::Publish {
                    subject,
                    reply,
                    hdr: 0,
                    total: body.len(),
                    body,
                    hpub: false,
                },
            ],
            end: End::Waiting,
            state: StateView::Line,
            rest: Seq::empty(),
        }),
{
    let state = StateView::Body {
        subject,
        reply,
        hdr: 0,
        need: body.len(),
        hpub: false,
        got: Seq::empty(),
    };
    let line = pub_line(subject, reply, body.len());
    let input = pub_bytes(subject, reply, body);
    plain_line_means(subject, reply, body.len(), lim.max_payload);
    line_ends_there(line, body + crlf());
    assert(input =~= line + crlf() + (body + crlf()));
    assert(input[0] == line[0]);
    body_is_taken(subject, reply, 0, body, false, lim);
    assert(step(StateView::Line, input, lim) == (Step::Next {
        events: Seq::empty(),
        state,
        rest: body + crlf(),
    }));
    let inner = run(state, body + crlf(), lim);
    assert(Seq::<EventView>::empty() + inner.events =~= inner.events);
}

/// The control line of a publish with a header block, as fields.
proof fn header_line_is_spaced(subject: Seq<u8>, reply: Option<Seq<u8>>, hdr: nat, total: nat)
    ensures
        hpub_line(subject, reply, hdr, total) == text("HPUB") + spaced_all(
            pub_fields(subject, reply, seq![decimal(hdr), decimal(total)]),
        ),
{
    let (h, t) = (decimal(hdr), decimal(total));
    let sizes = seq![h, t];
    spaced_all_one(subject);
    spaced_all_one(h);
    spaced_all_one(t);
    assert(sizes =~= seq![h] + seq![t]);
    spaced_all_of(seq![h], seq![t]);
    match reply {
        Some(r) => {
            spaced_all_one(r);
            assert(seq![subject, r] =~= seq![subject] + seq![r]);
            spaced_all_of(seq![subject], seq![r]);
            spaced_all_of(seq![subject, r], sizes);
        },
        None => {
            spaced_all_of(seq![subject], sizes);
        },
    }
    assert(hpub_line(subject, reply, hdr, total) =~= text("HPUB") + spaced_all(
        pub_fields(subject, reply, sizes),
    ));
}

/// What the control line of a publish with a header block means.
proof fn header_line_means(
    subject: Seq<u8>,
    reply: Option<Seq<u8>>,
    hdr: nat,
    total: nat,
    max_payload: u64,
)
    requires
        is_field(subject),
        reply matches Some(r) ==> is_field(r),
        hdr <= total <= MAX_BODY,
        total <= max_payload,
    ensures
        line_meaning(hpub_line(subject, reply, hdr, total), max_payload) == (LineMeaning::Body {
            subject,
            reply,
            hdr,
            need: total,
            hpub: true,
        }),
        no_line_end(hpub_line(subject, reply, hdr, total)),
        hpub_line(subject, reply, hdr, total).len() > 0,
{
    header_fields_mean(subject, reply, hdr, total, max_payload);
    header_line_is_spaced(subject, reply, hdr, total);
    let fields = pub_fields(subject, reply, seq![decimal(hdr), decimal(total)]);
    framed_line_means(text("HPUB"), fields, true, max_payload);
}

/// A publish with a header block that a client frames is the publish that the server gets:
/// the word that an `HPUB` is being attempted, and then the publish, with the block at the
/// front of its body.
pub proof fn a_header_publish_is_read_back(
    subject: Seq<u8>,
    reply: Option<Seq<u8>>,
    hdr: Seq<u8>,
    body: Seq<u8>,
    lim: Limits,
)
    requires
        is_field(subject),
        reply matches Some(r) ==> is_field(r),
        hdr.len() + body.len() <= MAX_BODY,
        hdr.len() + body.len() <= lim.max_payload,
        hpub_line(subject, reply, hdr.len(), hdr.len() + body.len()).len() <= lim.max_control_line,
    ensures
        run(StateView::Line, hpub_bytes(subject, reply, hdr, body), lim) == (Run {
            events: seq![
                EventView::HpubAttempt(HpubOutcome::Accepted),
                EventView::Publish {
                    subject,
                    reply,
                    hdr: hdr.len(),
                    total: hdr.len() + body.len(),
                    body: hdr + body,
                    hpub: true,
                },
            ],
            end: End::Waiting,
            state: StateView::Line,
            rest: Seq::empty(),
        }),
{
    let all = hdr + body;
    let state = StateView::Body {
        subject,
        reply,
        hdr: hdr.len(),
        need: all.len(),
        hpub: true,
        got: Seq::empty(),
    };
    let line = hpub_line(subject, reply, hdr.len(), all.len());
    let input = hpub_bytes(subject, reply, hdr, body);
    header_line_means(subject, reply, hdr.len(), all.len(), lim.max_payload);
    line_ends_there(line, all + crlf());
    assert(input =~= line + crlf() + (all + crlf()));
    assert(input[0] == line[0]);
    body_is_taken(subject, reply, hdr.len(), all, true, lim);
    let first = EventView::HpubAttempt(HpubOutcome::Accepted);
    assert(step(StateView::Line, input, lim) == (Step::Next {
        events: seq![first],
        state,
        rest: all + crlf(),
    }));
    let inner = run(state, all + crlf(), lim);
    assert(seq![first] + inner.events =~= seq![first, inner.events[0]]);
}

} // verus!
