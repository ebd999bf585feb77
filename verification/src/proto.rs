//! The control-line parser: a state machine over the byte stream, and the one
//! place that decides which class a failure belongs to.
//!
//! | Kind | Wire | Raised by |
//! |---|---|---|
//! | [`ProtoError::Fatal`] | `-ERR '<text>'` then close | unknown verb, empty line, oversized control line, oversized body |
//! | [`ProtoError::Silent`] | close, no bytes | bad arity, unparseable size |
//! | [`ProtoError::Soft`] | `-ERR '<text>'`, connection stays | invalid subscribe subject, non-literal publish subject (pedantic) |
//!
//! The parser is a state machine rather than a line splitter because a `PUB` body
//! is part of the stream state: it can be split at any byte, and a partial frame
//! must be held, never routed. [`run`] says what a stream means, whole;
//! [`segments_do_not_matter`] says that cutting it up changes nothing.
use bytes::{Bytes, BytesMut};
use vstd::prelude::*;

use crate::buf::{advance_buffer, buffer_of, bytes_of};
use crate::text::{crlf, decimal_value, is_digit, text, CR, LF, SPACE, TAB, ZERO};

verus! {

/// An operation that this server does not know.
pub const UNKNOWN_OP: &'static str = "Unknown Protocol Operation";

/// A declared size above the limit.
pub const MAX_PAYLOAD: &'static str = "Maximum Payload Violation";

/// A control line above the limit.
pub const MAX_CONTROL_LINE: &'static str = "maximum control line exceeded";

/// A subscription filter that is no legal subject.
pub const INVALID_SUBJECT: &'static str = "Invalid Subject";

/// A publish subject that is no legal literal.
pub const INVALID_PUBLISH_SUBJECT: &'static str = "Invalid Publish Subject";

/// Too many unanswered probes.
pub const STALE_CONNECTION: &'static str = "Stale Connection";

/// Not a protocol error the client sees: a close reason for a subscriber whose
/// outbound buffer ran out of room.
pub const SLOW_CONSUMER: &'static str = "Slow Consumer";

/// How a failure ends, on the wire.
#[derive(Debug, Clone, PartialEq, Eq)]
pub enum ProtoError {
    /// `-ERR <text>` then close.
    Fatal(&'static str),
    /// `-ERR <text>`, connection stays usable.
    Soft(&'static str),
    /// Close with no bytes.
    Silent,
}

impl ProtoError {
    /// The text to put on the wire before closing, if any.
    pub fn err_line(&self) -> (r: Option<&'static str>)
        ensures
            r == match *self {
                ProtoError::Fatal(t) => Some(t),
                ProtoError::Soft(t) => Some(t),
                ProtoError::Silent => None,
            },
    {
        match self {
            ProtoError::Fatal(t) => Some(*t),
            ProtoError::Soft(t) => Some(*t),
            ProtoError::Silent => None,
        }
    }

    /// Does the connection end? Only a soft error leaves it open.
    pub fn closes(&self) -> (r: bool)
        ensures
            r == !(*self is Soft),
    {
        match self {
            ProtoError::Soft(_) => false,
            _ => true,
        }
    }
}

/// What the parser needs to know about the connection it is parsing for: the
/// numeric limits, which no client command can change.
#[derive(Debug, Clone, Copy)]
pub struct Limits {
    pub max_control_line: usize,
    pub max_payload: u64,
}

impl Default for Limits {
    fn default() -> (r: Self)
        ensures
            r.max_control_line == 4096,
            r.max_payload == 1048576,
    {
        Limits { max_control_line: 4096, max_payload: 1048576 }
    }
}

/// What an `HPUB` line said, as far as the grammar can tell.
#[derive(Debug, Clone, Copy, PartialEq, Eq)]
pub enum HpubOutcome {
    /// A well-formed line: the body it declares follows as a `Publish`.
    Accepted,
    /// Arguments that do not describe a publish at all.
    Args,
    /// The line was fine and the bytes that followed were not.
    Frame(&'static str),
}

/// One completed protocol operation, in the order it appeared on the wire.
#[derive(Debug, Clone)]
pub enum Event {
    /// `CONNECT <json>`: the object is handed over unparsed.
    Connect(Bytes),
    Subscribe { subject: Bytes, queue: Option<Bytes>, sid: Bytes },
    /// `max` is `-1` when no second argument was given, otherwise the parsed value. `0` and
    /// anything that does not parse arrive as `-1` too, which means "unsubscribe now".
    Unsubscribe { sid: Bytes, max: i64 },
    Publish {
        subject: Bytes,
        reply: Option<Bytes>,
        /// Header-block length inside `body`; 0 for a plain `PUB`.
        hdr: usize,
        /// `body.len()`: the declared total, header block included.
        total: usize,
        body: Bytes,
        /// True for the `HPUB` verb. Whether the client may use it is decided when
        /// the operation is executed: a CONNECT and an HPUB can arrive in one read.
        hpub: bool,
    },
    Ping,
    Pong,
    /// `INFO` from a client, with its argument.
    Info(Bytes),
    /// An `HPUB`, raised at the control line rather than at the body, because
    /// whether it is legal depends on the capability that the connection holds at
    /// that moment.
    HpubAttempt(HpubOutcome),
    /// `-ERR` from a client.
    ClientErr,
    /// `+OK` from a client.
    ClientOk,
}

/// An operation, with its bytes as sequences.
#[verifier::ext_equal]
pub enum EventView {
    Connect(Seq<u8>),
    Subscribe { subject: Seq<u8>, queue: Option<Seq<u8>>, sid: Seq<u8> },
    Unsubscribe { sid: Seq<u8>, max: int },
    Publish {
        subject: Seq<u8>,
        reply: Option<Seq<u8>>,
        hdr: nat,
        total: nat,
        body: Seq<u8>,
        hpub: bool,
    },
    Ping,
    Pong,
    Info(Seq<u8>),
    HpubAttempt(HpubOutcome),
    ClientErr,
    ClientOk,
}

/// The bytes of an optional field.
pub open spec fn optional_bytes(b: Option<Bytes>) -> Option<Seq<u8>> {
    match b {
        Some(x) => Some(bytes_of(x)),
        None => None,
    }
}

impl View for Event {
    type V = EventView;

    open spec fn view(&self) -> EventView {
        match *self {
            Event::Connect(b) => EventView::Connect(bytes_of(b)),
            Event::Subscribe { subject, queue, sid } => EventView::Subscribe {
                subject: bytes_of(subject),
                queue: optional_bytes(queue),
                sid: bytes_of(sid),
            },
            Event::Unsubscribe { sid, max } => EventView::Unsubscribe {
                sid: bytes_of(sid),
                max: max as int,
            },
            Event::Publish { subject, reply, hdr, total, body, hpub } => EventView::Publish {
                subject: bytes_of(subject),
                reply: optional_bytes(reply),
                hdr: hdr as nat,
                total: total as nat,
                body: bytes_of(body),
                hpub,
            },
            Event::Ping => EventView::Ping,
            Event::Pong => EventView::Pong,
            Event::Info(b) => EventView::Info(bytes_of(b)),
            Event::HpubAttempt(o) => EventView::HpubAttempt(o),
            Event::ClientErr => EventView::ClientErr,
            Event::ClientOk => EventView::ClientOk,
        }
    }
}

/// A batch of operations, with their bytes as sequences.
pub open spec fn event_views(events: Seq<Event>) -> Seq<EventView> {
    Seq::new(events.len(), |i: int| events[i]@)
}

// ------------------------------------------------------------------ the grammar --

/// Space and tab separate the fields of a control line.
pub open spec fn blank(b: u8) -> bool {
    b == SPACE || b == TAB
}

/// The letter in upper case; any other byte as it is.
pub open spec fn upper(b: u8) -> u8 {
    if 0x61 <= b <= 0x7a {
        (b - 0x20) as u8
    } else {
        b
    }
}

/// Are the two the same but for the case of their letters?
pub open spec fn same_verb(a: Seq<u8>, b: Seq<u8>) -> bool {
    a.len() == b.len() && forall|i: int| 0 <= i < a.len() ==> upper(#[trigger] a[i]) == upper(b[i])
}

/// Does the line begin with the verb, whatever follows it?
pub open spec fn starts_with_verb(line: Seq<u8>, verb: Seq<u8>) -> bool {
    line.len() >= verb.len() && same_verb(line.take(verb.len() as int), verb)
}

/// How many bytes at the front of `s` are blanks (or, for `false`, are none).
pub open spec fn leading(s: Seq<u8>, blanks: bool) -> nat
    decreases s.len(),
{
    if s.len() == 0 || blank(s[0]) != blanks {
        0
    } else {
        1 + leading(s.skip(1), blanks)
    }
}

/// `s` from its first byte that is no blank.
pub open spec fn after_blanks(s: Seq<u8>) -> Seq<u8> {
    s.skip(leading(s, true) as int)
}

/// The verb of a line: everything up to the first blank.
pub open spec fn verb_of(line: Seq<u8>) -> Seq<u8> {
    line.take(leading(line, false) as int)
}

/// What follows the verb, its separator included.
pub open spec fn rest_of(line: Seq<u8>) -> Seq<u8> {
    line.skip(leading(line, false) as int)
}

/// The arguments in `s`: its runs of bytes that are no blanks.
pub open spec fn args_of(s: Seq<u8>) -> Seq<Seq<u8>>
    decreases s.len(),
{
    let t = after_blanks(s);
    let n = leading(t, false);
    if t.len() == 0 || n == 0 || n > t.len() || t.len() > s.len() {
        Seq::empty()
    } else {
        seq![t.take(n as int)] + args_of(t.skip(n as int))
    }
}

/// The number that a size field declares: one to nine digits, or -1 for anything
/// else.
pub open spec fn size_value(s: Seq<u8>) -> int {
    if 1 <= s.len() <= 9 && forall|i: int| 0 <= i < s.len() ==> is_digit(#[trigger] s[i]) {
        decimal_value(s) as int
    } else {
        -1
    }
}

/// What one control line means.
#[verifier::ext_equal]
pub enum LineMeaning {
    /// A whole operation.
    Event(EventView),
    /// A `PUB` or `HPUB`: the body follows.
    Body { subject: Seq<u8>, reply: Option<Seq<u8>>, hdr: nat, need: nat, hpub: bool },
    /// No operation.
    Error(ProtoError),
}

/// `SUB <subject> [queue] <sid>`.
pub open spec fn sub_meaning(a: Seq<Seq<u8>>) -> LineMeaning {
    if a.len() == 2 {
        LineMeaning::Event(EventView::Subscribe { subject: a[0], queue: None, sid: a[1] })
    } else if a.len() == 3 {
        LineMeaning::Event(EventView::Subscribe { subject: a[0], queue: Some(a[1]), sid: a[2] })
    } else {
        LineMeaning::Error(ProtoError::Silent)
    }
}

/// `UNSUB <sid> [max]`. A count that does not parse, and a count of none, mean "now".
pub open spec fn unsub_meaning(a: Seq<Seq<u8>>) -> LineMeaning {
    if a.len() == 1 {
        LineMeaning::Event(EventView::Unsubscribe { sid: a[0], max: -1 })
    } else if a.len() == 2 {
        LineMeaning::Event(
            EventView::Unsubscribe {
                sid: a[0],
                max: if size_value(a[1]) <= 0 {
                    -1
                } else {
                    size_value(a[1])
                },
            },
        )
    } else {
        LineMeaning::Error(ProtoError::Silent)
    }
}

/// `PUB <subject> [reply] <size>` or `HPUB <subject> [reply] <#hdr> <#total>`. The
/// last field is the size and, for `HPUB`, the one before it the header's; one
/// field more than needed is the reply. The declared size alone is enough to
/// reject an oversized frame.
pub open spec fn pub_meaning(a: Seq<Seq<u8>>, hpub: bool, max_payload: u64) -> LineMeaning {
    let least: int = if hpub {
        3
    } else {
        2
    };
    let malformed = if hpub {
        LineMeaning::Event(EventView::HpubAttempt(HpubOutcome::Args))
    } else {
        LineMeaning::Error(ProtoError::Silent)
    };
    if a.len() != least && a.len() != least + 1 {
        malformed
    } else {
        let total = size_value(a[a.len() - 1]);
        let hdr = if hpub {
            size_value(a[a.len() - 2])
        } else {
            0
        };
        if hdr < 0 || total < 0 || hdr > total {
            malformed
        } else if total > max_payload {
            LineMeaning::Error(ProtoError::Fatal(MAX_PAYLOAD))
        } else {
            LineMeaning::Body {
                subject: a[0],
                reply: if a.len() == least + 1 {
                    Some(a[1])
                } else {
                    None
                },
                hdr: hdr as nat,
                need: total as nat,
                hpub,
            }
        }
    }
}

/// A line whose verb takes the rest of the line, unsplit, as its one argument.
pub open spec fn tail_argument(line: Seq<u8>, verb: Seq<u8>) -> Option<Seq<u8>> {
    let arg = after_blanks(line.skip(verb.len() as int));
    if arg.len() == 0 {
        None
    } else {
        Some(arg)
    }
}

/// What a control line means, without its line end. `PING`, `PONG`, `INFO` and
/// `CONNECT` are prefixes: whatever follows the letters is skipped, or is the
/// argument. Every other verb runs to the first blank. Case never matters.
pub open spec fn line_meaning(line: Seq<u8>, max_payload: u64) -> LineMeaning {
    let verb = verb_of(line);
    let rest = rest_of(line);
    let unknown = LineMeaning::Error(ProtoError::Fatal(UNKNOWN_OP));
    if line.len() == 0 {
        unknown
    } else if starts_with_verb(line, text("PING")) {
        LineMeaning::Event(EventView::Ping)
    } else if starts_with_verb(line, text("PONG")) {
        LineMeaning::Event(EventView::Pong)
    } else if starts_with_verb(line, text("INFO")) {
        match tail_argument(line, text("INFO")) {
            Some(arg) => LineMeaning::Event(EventView::Info(arg)),
            None => LineMeaning::Error(ProtoError::Silent),
        }
    } else if same_verb(verb, text("+OK")) {
        LineMeaning::Event(EventView::ClientOk)
    } else if same_verb(verb, text("-ERR")) {
        if rest.len() == 0 {
            unknown
        } else {
            LineMeaning::Event(EventView::ClientErr)
        }
    } else if starts_with_verb(line, text("CONNECT")) {
        match tail_argument(line, text("CONNECT")) {
            Some(arg) => LineMeaning::Event(EventView::Connect(arg)),
            None => LineMeaning::Error(ProtoError::Silent),
        }
    } else if rest.len() == 0 {
        unknown
    } else if same_verb(verb, text("SUB")) {
        sub_meaning(args_of(rest))
    } else if same_verb(verb, text("UNSUB")) {
        unsub_meaning(args_of(rest))
    } else if same_verb(verb, text("PUB")) {
        pub_meaning(args_of(rest), false, max_payload)
    } else if same_verb(verb, text("HPUB")) {
        pub_meaning(args_of(rest), true, max_payload)
    } else {
        unknown
    }
}

// ------------------------------------------------------------------- the stream --

/// Where the first line end of `s` stands.
pub open spec fn line_end(s: Seq<u8>) -> Option<int>
    decreases s.len(),
{
    if s.len() < 2 {
        None
    } else if s[0] == CR && s[1] == LF {
        Some(0)
    } else {
        match line_end(s.skip(1)) {
            Some(i) => Some(i + 1),
            None => None,
        }
    }
}

/// What the parser is waiting for between calls.
#[verifier::ext_equal]
pub enum StateView {
    /// The start of a control line.
    Line,
    /// The rest of a body, of which `got` has arrived.
    Body {
        subject: Seq<u8>,
        reply: Option<Seq<u8>>,
        hdr: nat,
        need: nat,
        hpub: bool,
        got: Seq<u8>,
    },
}

/// How a run over a stretch of the stream ends.
#[verifier::ext_equal]
pub enum End {
    /// Everything complete was consumed; more bytes are needed.
    Waiting,
    /// An `HPUB` that does not describe a publish ended the batch: what it means is
    /// the connection's to decide before anything after it is read.
    Stopped,
    /// The stream broke the protocol.
    Failed(ProtoError),
}

/// One step of the state machine.
#[verifier::ext_equal]
pub enum Step {
    /// The step consumed something and there may be more to do.
    Next { events: Seq<EventView>, state: StateView, rest: Seq<u8> },
    /// Nothing more can be done with these bytes.
    Last { events: Seq<EventView>, end: End, state: StateView, rest: Seq<u8> },
}

/// What one step does at the start of a control line. A bare LF there is no blank
/// to be skipped, and a line that has not ended after sixteen times the limit is
/// not waited for.
pub open spec fn line_step(input: Seq<u8>, lim: Limits) -> Step {
    let failed = |e: ProtoError, rest: Seq<u8>|
        Step::Last { events: Seq::empty(), end: End::Failed(e), state: StateView::Line, rest };
    if input.len() > 0 && input[0] == LF {
        failed(ProtoError::Fatal(UNKNOWN_OP), input)
    } else {
        match line_end(input) {
            None => if input.len() > lim.max_control_line * 16 {
                failed(ProtoError::Fatal(MAX_CONTROL_LINE), input)
            } else {
                Step::Last {
                    events: Seq::empty(),
                    end: End::Waiting,
                    state: StateView::Line,
                    rest: input,
                }
            },
            Some(at) => if at > lim.max_control_line {
                failed(ProtoError::Fatal(MAX_CONTROL_LINE), input)
            } else {
                let rest = input.skip(at + 2);
                match line_meaning(input.take(at), lim.max_payload) {
                    LineMeaning::Error(e) => failed(e, rest),
                    LineMeaning::Event(ev) => if ev == EventView::HpubAttempt(HpubOutcome::Args) {
                        Step::Last {
                            events: seq![ev],
                            end: End::Stopped,
                            state: StateView::Line,
                            rest,
                        }
                    } else {
                        Step::Next { events: seq![ev], state: StateView::Line, rest }
                    },
                    LineMeaning::Body { subject, reply, hdr, need, hpub } => Step::Next {
                        events: if hpub {
                            seq![EventView::HpubAttempt(HpubOutcome::Accepted)]
                        } else {
                            Seq::empty()
                        },
                        state: StateView::Body {
                            subject,
                            reply,
                            hdr,
                            need,
                            hpub,
                            got: Seq::empty(),
                        },
                        rest,
                    },
                }
            },
        }
    }
}

/// What one step does inside a body. The body is counted, not scanned, and its
/// terminator is positional: the first byte after it that is no CR, or a CR with
/// something other than LF behind it, breaks the frame at once.
pub open spec fn body_step(
    subject: Seq<u8>,
    reply: Option<Seq<u8>>,
    hdr: nat,
    need: nat,
    hpub: bool,
    got: Seq<u8>,
    input: Seq<u8>,
) -> Step {
    let want = need - got.len();
    let taken = if want < input.len() {
        want
    } else {
        input.len() as int
    };
    let body = got + input.take(taken);
    let rest = input.skip(taken);
    let held = StateView::Body { subject, reply, hdr, need, hpub, got: body };
    let waiting = Step::Last { events: Seq::empty(), end: End::Waiting, state: held, rest };
    if body.len() < need || rest.len() == 0 {
        waiting
    } else if rest[0] == CR && rest.len() == 1 {
        waiting
    } else if rest[0] == CR && rest[1] == LF {
        Step::Next {
            events: seq![EventView::Publish { subject, reply, hdr, total: need, body, hpub }],
            state: StateView::Line,
            rest: rest.skip(2),
        }
    } else if hpub {
        Step::Last {
            events: seq![EventView::HpubAttempt(HpubOutcome::Frame(UNKNOWN_OP))],
            end: End::Stopped,
            state: held,
            rest,
        }
    } else {
        Step::Last {
            events: Seq::empty(),
            end: End::Failed(ProtoError::Fatal(UNKNOWN_OP)),
            state: held,
            rest,
        }
    }
}

/// What one step does.
pub open spec fn step(state: StateView, input: Seq<u8>, lim: Limits) -> Step {
    match state {
        StateView::Line => line_step(input, lim),
        StateView::Body { subject, reply, hdr, need, hpub, got } => body_step(
            subject,
            reply,
            hdr,
            need,
            hpub,
            got,
            input,
        ),
    }
}

/// What a run over a stretch of the stream gives.
#[verifier::ext_equal]
pub struct Run {
    pub events: Seq<EventView>,
    pub end: End,
    pub state: StateView,
    pub rest: Seq<u8>,
}

/// What the parser makes of `input` when it starts in `state`: the operations, how
/// it ended, the state it is left in and the bytes it did not consume.
pub open spec fn run(state: StateView, input: Seq<u8>, lim: Limits) -> Run
    decreases input.len(),
{
    match step(state, input, lim) {
        Step::Last { events, end, state, rest } => Run { events, end, state, rest },
        Step::Next { events, state, rest } => if rest.len() < input.len() {
            let more = run(state, rest, lim);
            Run { events: events + more.events, ..more }
        } else {
            Run { events, end: End::Waiting, state, rest }
        },
    }
}

// --------------------------------------------------------------- scanning bytes --

/// A run of blanks, or of none, is as long as it is.
pub proof fn leading_is(s: Seq<u8>, blanks: bool, n: nat)
    requires
        n <= s.len(),
        forall|i: int| 0 <= i < n ==> blank(#[trigger] s[i]) == blanks,
        n < s.len() ==> blank(s[n as int]) != blanks,
    ensures
        leading(s, blanks) == n,
    decreases n,
{
    if n > 0 {
        assert(blank(s[0]) == blanks);
        assert(s.skip(1).len() == s.len() - 1);
        assert forall|i: int| 0 <= i < n - 1 implies blank(#[trigger] s.skip(1)[i]) == blanks by {
            assert(s.skip(1)[i] == s[i + 1]);
        }
        leading_is(s.skip(1), blanks, (n - 1) as nat);
    }
}

pub(crate) proof fn leading_stops(s: Seq<u8>, blanks: bool)
    ensures
        leading(s, blanks) <= s.len(),
        forall|i: int| 0 <= i < leading(s, blanks) ==> blank(#[trigger] s[i]) == blanks,
        leading(s, blanks) < s.len() ==> blank(s[leading(s, blanks) as int]) != blanks,
    decreases s.len(),
{
    if s.len() > 0 && blank(s[0]) == blanks {
        leading_stops(s.skip(1), blanks);
        assert forall|i: int| 0 <= i < leading(s, blanks) implies blank(#[trigger] s[i])
            == blanks by {
            if i > 0 {
                assert(s[i] == s.skip(1)[i - 1]);
            }
        }
    }
}

/// The first position at or after `from` whose byte is a blank (or, for `false`, is
/// none), or the end.
fn scan(s: &[u8], from: usize, blanks: bool) -> (r: usize)
    requires
        from <= s@.len(),
    ensures
        from <= r <= s@.len(),
        r - from == leading(s@.skip(from as int), !blanks),
{
    let mut i: usize = from;
    while i < s.len() && (s[i] == SPACE || s[i] == TAB) != blanks
        invariant
            from <= i <= s@.len(),
            forall|j: int| from <= j < i ==> blank(#[trigger] s@[j]) == !blanks,
        decreases s@.len() - i,
    {
        i += 1;
    }
    proof {
        let t = s@.skip(from as int);
        assert forall|j: int| 0 <= j < i - from implies blank(#[trigger] t[j]) == !blanks by {
            assert(t[j] == s@[from + j]);
        }
        leading_is(t, !blanks, (i - from) as nat);
    }
    i
}

/// The letter in upper case; any other byte as it is.
fn to_upper(b: u8) -> (r: u8)
    ensures
        r == upper(b),
{
    if 0x61 <= b && b <= 0x7a {
        b - 0x20
    } else {
        b
    }
}

/// Are the two the same but for the case of their letters? `SuB` and `sUB` are
/// `SUB`.
fn eq_ignore(a: &[u8], b: &[u8]) -> (r: bool)
    ensures
        r == same_verb(a@, b@),
{
    if a.len() != b.len() {
        return false;
    }
    let mut i: usize = 0;
    while i < a.len()
        invariant
            a@.len() == b@.len(),
            i <= a@.len(),
            forall|j: int| 0 <= j < i ==> upper(#[trigger] a@[j]) == upper(b@[j]),
        decreases a@.len() - i,
    {
        if to_upper(a[i]) != to_upper(b[i]) {
            assert(upper(a@[i as int]) != upper(b@[i as int]));
            return false;
        }
        i += 1;
    }
    true
}

/// Does the line begin with the verb, whatever follows it?
fn starts_with(line: &[u8], verb: &[u8]) -> (r: bool)
    ensures
        r == starts_with_verb(line@, verb@),
{
    if line.len() < verb.len() {
        return false;
    }
    let head: &[u8] = &line[0..verb.len()];
    assert(head@ =~= line@.take(verb@.len() as int));
    eq_ignore(head, verb)
}

/// The bytes of several slices.
pub open spec fn slice_views(v: Seq<&[u8]>) -> Seq<Seq<u8>> {
    Seq::new(v.len(), |i: int| v[i]@)
}

/// Splits an argument string on spaces and tabs, discarding runs of them, so
/// `   foo\t1 ` and ` foo 1` are the same arguments.
fn split_args(s: &[u8]) -> (r: Vec<&[u8]>)
    ensures
        slice_views(r@) == args_of(s@),
{
    let mut out: Vec<&[u8]> = Vec::new();
    let mut at: usize = 0;
    assert(s@.skip(0) =~= s@);
    assert(slice_views(out@) + args_of(s@.skip(0)) =~= args_of(s@));
    loop
        invariant
            at <= s@.len(),
            slice_views(out@) + args_of(s@.skip(at as int)) == args_of(s@),
        decreases s@.len() - at,
    {
        let ghost before = s@.skip(at as int);
        let start = scan(s, at, false);
        let end = scan(s, start, true);
        let ghost t = s@.skip(start as int);
        proof {
            leading_stops(before, true);
            assert(t =~= after_blanks(before));
            leading_stops(t, false);
        }
        if start == s.len() {
            assert(args_of(before) =~= Seq::empty());
            assert(slice_views(out@) =~= args_of(s@));
            return out;
        }
        let arg: &[u8] = &s[start..end];
        proof {
            assert(t[0] == before[leading(before, true) as int]);
            assert(end > start);
            assert(arg@ =~= t.take(end - start));
            assert(s@.skip(end as int) =~= t.skip(end - start));
            assert(args_of(before) == seq![arg@] + args_of(s@.skip(end as int)));
            assert(slice_views(out@.push(arg)) =~= slice_views(out@) + seq![arg@]);
            assert(slice_views(out@.push(arg)) + args_of(s@.skip(end as int)) =~= slice_views(
                out@,
            ) + args_of(before));
        }
        out.push(arg);
        at = end;
    }
}

/// A size field: one to nine ASCII digits, or -1 for anything else. A number too
/// long for nine digits is -1 like any other.
pub fn parse_size(d: &[u8]) -> (r: i64)
    ensures
        r == size_value(d@),
        -1 <= r <= 999_999_999,
{
    if d.len() == 0 || d.len() > 9 {
        return -1;
    }
    let mut n: i64 = 0;
    let mut bound: i64 = 1;
    let mut i: usize = 0;
    assert(d@.take(0) =~= Seq::<u8>::empty());
    while i < d.len()
        invariant
            i <= d@.len() <= 9,
            0 <= n < bound <= 1_000_000_000,
            i == 0 ==> bound == 1,
            i == 1 ==> bound == 10,
            i == 2 ==> bound == 100,
            i == 3 ==> bound == 1_000,
            i == 4 ==> bound == 10_000,
            i == 5 ==> bound == 100_000,
            i == 6 ==> bound == 1_000_000,
            i == 7 ==> bound == 10_000_000,
            i == 8 ==> bound == 100_000_000,
            n == decimal_value(d@.take(i as int)),
            forall|j: int| 0 <= j < i ==> is_digit(#[trigger] d@[j]),
        decreases d@.len() - i,
    {
        let b = d[i];
        if b < ZERO || b > 0x39 {
            assert(!is_digit(d@[i as int]));
            return -1;
        }
        proof {
            assert(d@.take(i + 1).drop_last() =~= d@.take(i as int));
            assert(d@.take(i + 1).last() == b);
        }
        n = n * 10 + (b - ZERO) as i64;
        bound = bound * 10;
        i += 1;
    }
    assert(d@.take(i as int) =~= d@);
    n
}

/// What one control line asks of the parser.
pub enum Action {
    Event(Event),
    /// The line was a `PUB` or `HPUB`: the body follows.
    Body { subject: Bytes, reply: Option<Bytes>, hdr: usize, need: usize, hpub: bool },
}

/// What the outcome of parsing one control line says.
pub open spec fn action_meaning(r: Result<Action, ProtoError>) -> LineMeaning {
    match r {
        Ok(Action::Event(ev)) => LineMeaning::Event(ev@),
        Ok(Action::Body { subject, reply, hdr, need, hpub }) => LineMeaning::Body {
            subject: bytes_of(subject),
            reply: optional_bytes(reply),
            hdr: hdr as nat,
            need: need as nat,
            hpub,
        },
        Err(e) => LineMeaning::Error(e),
    }
}

/// The rest of a line after a verb of `skip` bytes, or nothing when it is blank.
fn tail(line: &[u8], skip: usize) -> (r: Option<Bytes>)
    requires
        skip <= line@.len(),
    ensures
        optional_bytes(r) == {
            let arg = after_blanks(line@.skip(skip as int));
            if arg.len() == 0 {
                None
            } else {
                Some(arg)
            }
        },
{
    let at = scan(line, skip, false);
    proof {
        leading_stops(line@.skip(skip as int), true);
        assert(after_blanks(line@.skip(skip as int)) =~= line@.skip(at as int));
    }
    if at == line.len() {
        return None;
    }
    let arg: &[u8] = &line[at..line.len()];
    assert(arg@ =~= line@.skip(at as int));
    Some(Bytes::copy_from_slice(arg))
}

fn subscribe(subject: &[u8], queue: Option<&[u8]>, sid: &[u8]) -> (r: Event)
    ensures
        r@ == (EventView::Subscribe {
            subject: subject@,
            queue: match queue {
                Some(q) => Some(q@),
                None => None,
            },
            sid: sid@,
        }),
{
    let queue = match queue {
        Some(q) => Some(Bytes::copy_from_slice(q)),
        None => None,
    };
    Event::Subscribe {
        subject: Bytes::copy_from_slice(subject),
        queue,
        sid: Bytes::copy_from_slice(sid),
    }
}

fn parse_sub(rest: &[u8]) -> (r: Result<Action, ProtoError>)
    ensures
        action_meaning(r) == sub_meaning(args_of(rest@)),
{
    let args = split_args(rest);
    assert(args@.len() == args_of(rest@).len());
    assert(forall|i: int| 0 <= i < args@.len() ==> (#[trigger] args@[i])@ == args_of(rest@)[i]);
    if args.len() == 2 {
        Ok(Action::Event(subscribe(args[0], None, args[1])))
    } else if args.len() == 3 {
        Ok(Action::Event(subscribe(args[0], Some(args[1]), args[2])))
    } else {
        Err(ProtoError::Silent)
    }
}

fn parse_unsub(rest: &[u8]) -> (r: Result<Action, ProtoError>)
    ensures
        action_meaning(r) == unsub_meaning(args_of(rest@)),
{
    let args = split_args(rest);
    assert(args@.len() == args_of(rest@).len());
    assert(forall|i: int| 0 <= i < args@.len() ==> (#[trigger] args@[i])@ == args_of(rest@)[i]);
    if args.len() == 1 {
        Ok(Action::Event(Event::Unsubscribe { sid: Bytes::copy_from_slice(args[0]), max: -1 }))
    } else if args.len() == 2 {
        let count: i64 = parse_size(args[1]);
        let max: i64 = if count <= 0 {
            -1
        } else {
            count
        };
        Ok(Action::Event(Event::Unsubscribe { sid: Bytes::copy_from_slice(args[0]), max }))
    } else {
        Err(ProtoError::Silent)
    }
}

fn parse_pub(rest: &[u8], hpub: bool, max_payload: u64) -> (r: Result<Action, ProtoError>)
    ensures
        action_meaning(r) == pub_meaning(args_of(rest@), hpub, max_payload),
{
    let args = split_args(rest);
    assert(args@.len() == args_of(rest@).len());
    assert(forall|i: int| 0 <= i < args@.len() ==> (#[trigger] args@[i])@ == args_of(rest@)[i]);
    let least: usize = if hpub {
        3
    } else {
        2
    };
    let n = args.len();
    let mut hdr: i64 = -1;
    let mut total: i64 = -1;
    if n == least || n == least + 1 {
        hdr = if hpub {
            parse_size(args[n - 2])
        } else {
            0
        };
        total = parse_size(args[n - 1]);
    }
    if hdr < 0 || total < 0 || hdr > total {
        if hpub {
            return Ok(Action::Event(Event::HpubAttempt(HpubOutcome::Args)));
        }
        return Err(ProtoError::Silent);
    }
    if total as u64 > max_payload {
        return Err(ProtoError::Fatal(MAX_PAYLOAD));
    }
    let reply = if n == least + 1 {
        Some(Bytes::copy_from_slice(args[1]))
    } else {
        None
    };
    Ok(
        Action::Body {
            subject: Bytes::copy_from_slice(args[0]),
            reply,
            hdr: hdr as usize,
            need: total as usize,
            hpub,
        },
    )
}

/// Parses one control line, without its line end.
pub fn parse_line(line: &[u8], lim: &Limits) -> (r: Result<Action, ProtoError>)
    ensures
        action_meaning(r) == line_meaning(line@, lim.max_payload),
{
    let max_payload = lim.max_payload;
    if line.len() == 0 {
        return Err(ProtoError::Fatal(UNKNOWN_OP));
    }
    assert(line@.skip(0) =~= line@);
    let verb_end = scan(line, 0, true);
    let verb: &[u8] = &line[0..verb_end];
    let rest: &[u8] = &line[verb_end..line.len()];
    assert(verb@ =~= verb_of(line@));
    assert(rest@ =~= rest_of(line@));
    if starts_with(line, "PING".as_bytes()) {
        return Ok(Action::Event(Event::Ping));
    }
    if starts_with(line, "PONG".as_bytes()) {
        return Ok(Action::Event(Event::Pong));
    }
    if starts_with(line, "INFO".as_bytes()) {
        return match tail(line, "INFO".as_bytes().len()) {
            Some(arg) => Ok(Action::Event(Event::Info(arg))),
            None => Err(ProtoError::Silent),
        };
    }
    if eq_ignore(verb, "+OK".as_bytes()) {
        return Ok(Action::Event(Event::ClientOk));
    }
    if eq_ignore(verb, "-ERR".as_bytes()) {
        // The separator is part of the verb: a bare `-ERR` is an unknown operation.
        if rest.len() == 0 {
            return Err(ProtoError::Fatal(UNKNOWN_OP));
        }
        return Ok(Action::Event(Event::ClientErr));
    }
    if starts_with(line, "CONNECT".as_bytes()) {
        // The options object is the remainder; it is never split, because it may
        // contain spaces.
        return match tail(line, "CONNECT".as_bytes().len()) {
            Some(arg) => Ok(Action::Event(Event::Connect(arg))),
            None => Err(ProtoError::Silent),
        };
    }
    if rest.len() == 0 {
        return Err(ProtoError::Fatal(UNKNOWN_OP));
    }
    if eq_ignore(verb, "SUB".as_bytes()) {
        return parse_sub(rest);
    }
    if eq_ignore(verb, "UNSUB".as_bytes()) {
        return parse_unsub(rest);
    }
    if eq_ignore(verb, "PUB".as_bytes()) {
        return parse_pub(rest, false, max_payload);
    }
    if eq_ignore(verb, "HPUB".as_bytes()) {
        return parse_pub(rest, true, max_payload);
    }
    Err(ProtoError::Fatal(UNKNOWN_OP))
}

// ----------------------------------------------------------------- how long it is --

/// The longest control line that any limit lets through, in sixteenths of what a
/// buffer can count.
pub open spec fn field_limit() -> nat {
    (usize::MAX / 16) as nat
}

/// The longest body that a size field can declare.
pub const MAX_BODY: usize = 999_999_999;

/// An operation whose fields came from control lines within the limit and whose body
/// is as long as its size field could say: what the parser hands out.
pub open spec fn event_fits(ev: EventView) -> bool {
    match ev {
        EventView::Subscribe { subject, queue, sid } => {
            &&& subject.len() <= field_limit()
            &&& sid.len() <= field_limit()
        },
        EventView::Publish { subject, reply, hdr, total, body, hpub } => {
            &&& subject.len() + (match reply {
                Some(r) => r.len(),
                None => 0,
            }) <= field_limit()
            &&& hdr <= total
            &&& total == body.len()
            &&& body.len() <= MAX_BODY
        },
        EventView::Unsubscribe { sid, max } => max <= MAX_BODY,
        _ => true,
    }
}

spec fn total_len(a: Seq<Seq<u8>>) -> nat
    decreases a.len(),
{
    if a.len() == 0 {
        0
    } else {
        a[0].len() + total_len(a.skip(1))
    }
}

proof fn args_are_no_longer(s: Seq<u8>)
    ensures
        total_len(args_of(s)) <= s.len(),
    decreases s.len(),
{
    let t = after_blanks(s);
    let n = leading(t, false);
    if t.len() == 0 || n == 0 || n > t.len() || t.len() > s.len() {
    } else {
        args_are_no_longer(t.skip(n as int));
        assert(args_of(s).skip(1) =~= args_of(t.skip(n as int)));
    }
}

proof fn fields_are_no_longer(s: Seq<u8>)
    ensures
        args_of(s).len() >= 1 ==> args_of(s)[0].len() <= s.len(),
        args_of(s).len() >= 2 ==> args_of(s)[0].len() + args_of(s)[1].len() <= s.len(),
        args_of(s).len() >= 3 ==> args_of(s)[2].len() <= s.len(),
{
    let a = args_of(s);
    args_are_no_longer(s);
    reveal_with_fuel(total_len, 4);
    if a.len() >= 2 {
        assert(a.skip(1)[0] == a[1]);
        if a.len() >= 3 {
            assert(a.skip(1).skip(1)[0] == a[2]);
        }
    }
}

proof fn size_value_is_short(s: Seq<u8>)
    ensures
        -1 <= size_value(s) <= MAX_BODY,
{
    if 1 <= s.len() <= 9 && forall|i: int| 0 <= i < s.len() ==> is_digit(#[trigger] s[i]) {
        reveal_with_fuel(decimal_value, 11);
        assert(forall|i: int| 0 <= i < s.len() ==> is_digit(#[trigger] s[i]));
        decimal_value_is_short(s);
        reveal_with_fuel(power10, 10);
    }
}

spec fn power10(n: nat) -> nat
    decreases n,
{
    if n == 0 {
        1
    } else {
        10 * power10((n - 1) as nat)
    }
}

proof fn decimal_value_is_short(s: Seq<u8>)
    requires
        forall|i: int| 0 <= i < s.len() ==> is_digit(#[trigger] s[i]),
    ensures
        decimal_value(s) < power10(s.len()),
    decreases s.len(),
{
    if s.len() > 0 {
        assert forall|i: int| 0 <= i < s.len() - 1 implies is_digit(#[trigger] s.drop_last()[i]) by {
            assert(s.drop_last()[i] == s[i]);
        }
        assert(is_digit(s[s.len() - 1]));
        decimal_value_is_short(s.drop_last());
    }
}

/// What a line says fits in the line.
proof fn meaning_fits(line: Seq<u8>, max_payload: u64)
    requires
        line.len() <= field_limit(),
    ensures
        line_meaning(line, max_payload) matches LineMeaning::Event(ev) ==> event_fits(ev),
        line_meaning(line, max_payload) matches LineMeaning::Body {
            subject,
            reply,
            hdr,
            need,
            hpub,
        } ==> {
            &&& subject.len() + (match reply {
                Some(r) => r.len(),
                None => 0,
            }) <= field_limit()
            &&& hdr <= need <= MAX_BODY
        },
{
    let rest = rest_of(line);
    leading_stops(line, false);
    assert(rest.len() <= line.len());
    fields_are_no_longer(rest);
    let a = args_of(rest);
    if a.len() >= 1 {
        size_value_is_short(a[a.len() - 1]);
    }
}

// ------------------------------------------------------------------- the parser --

/// Where the first line end stands: there is one there, and none before it.
pub proof fn line_end_is_first(s: Seq<u8>)
    ensures
        match line_end(s) {
            Some(at) => 0 <= at <= s.len() - 2 && s[at] == CR && s[at + 1] == LF && forall|j: int|
                0 <= j < at ==> !(#[trigger] s[j] == CR && s[j + 1] == LF),
            None => forall|j: int|
                0 <= j < s.len() - 1 ==> !(#[trigger] s[j] == CR && s[j + 1] == LF),
        },
    decreases s.len(),
{
    if s.len() >= 2 && !(s[0] == CR && s[1] == LF) {
        let t = s.skip(1);
        line_end_is_first(t);
        let bound = match line_end(s) {
            Some(at) => at,
            None => s.len() - 1,
        };
        assert forall|j: int| 0 <= j < bound implies !(#[trigger] s[j] == CR && s[j + 1] == LF) by {
            if j > 0 {
                assert(t[j - 1] == s[j]);
                assert(t[j] == s[j + 1]);
            }
        }
    }
}

/// Where the first line end stands.
pub fn find_crlf(buf: &[u8]) -> (r: Option<usize>)
    ensures
        match r {
            Some(at) => line_end(buf@) == Some(at as int),
            None => line_end(buf@) is None,
        },
{
    proof {
        line_end_is_first(buf@);
    }
    let n = buf.len();
    let mut i: usize = 0;
    while i < n && n - i >= 2
        invariant
            n == buf@.len(),
            i <= n,
            forall|j: int| 0 <= j < i ==> !(#[trigger] buf@[j] == CR && buf@[j + 1] == LF),
            match line_end(buf@) {
                Some(at) => 0 <= at <= n - 2 && buf@[at] == CR && buf@[at + 1] == LF && forall|
                    j: int,
                |
                    0 <= j < at ==> !(#[trigger] buf@[j] == CR && buf@[j + 1] == LF),
                None => forall|j: int|
                    0 <= j < n - 1 ==> !(#[trigger] buf@[j] == CR && buf@[j + 1] == LF),
            },
        decreases n - i,
    {
        if buf[i] == CR && buf[i + 1] == LF {
            return Some(i);
        }
        i += 1;
    }
    None
}

/// What the parser is waiting for between calls.
enum State {
    /// The start of a control line.
    Line,
    /// The rest of a body, of which the pieces in `got` have arrived.
    Body {
        subject: Bytes,
        reply: Option<Bytes>,
        hdr: usize,
        need: usize,
        hpub: bool,
        got: Vec<Bytes>,
        gathered: usize,
    },
}

/// Several pieces, one after the other.
pub open spec fn joined(parts: Seq<Bytes>) -> Seq<u8>
    decreases parts.len(),
{
    if parts.len() == 0 {
        Seq::empty()
    } else {
        joined(parts.drop_last()) + bytes_of(parts.last())
    }
}

impl State {
    spec fn view(&self) -> StateView {
        match *self {
            State::Line => StateView::Line,
            State::Body { subject, reply, hdr, need, hpub, got, gathered } => StateView::Body {
                subject: bytes_of(subject),
                reply: optional_bytes(reply),
                hdr: hdr as nat,
                need: need as nat,
                hpub,
                got: joined(got@),
            },
        }
    }

    spec fn wf(&self) -> bool {
        match *self {
            State::Line => true,
            State::Body { subject, reply, hdr, need, hpub, got, gathered } => {
                &&& gathered == joined(got@).len()
                &&& state_fits(self.view())
            },
        }
    }
}

/// No more of a body has arrived than was declared, and what was declared came from
/// a control line within the limit.
pub open spec fn state_fits(state: StateView) -> bool {
    match state {
        StateView::Line => true,
        StateView::Body { subject, reply, hdr, need, hpub, got } => {
            &&& got.len() <= need <= MAX_BODY
            &&& hdr <= need
            &&& subject.len() + (match reply {
                Some(r) => r.len(),
                None => 0,
            }) <= field_limit()
        },
    }
}

/// The parser of one connection.
pub struct Parser {
    state: State,
}

impl View for Parser {
    type V = StateView;

    closed spec fn view(&self) -> StateView {
        self.state.view()
    }
}

impl Default for Parser {
    fn default() -> (r: Self)
        ensures
            r.wf(),
            r@ == StateView::Line,
    {
        Parser::new()
    }
}

impl Parser {
    /// What has been counted of a body is what has arrived of it.
    pub closed spec fn wf(&self) -> bool {
        self.state.wf()
    }

    /// A parser at the start of a stream.
    pub fn new() -> (r: Parser)
        ensures
            r.wf(),
            r@ == StateView::Line,
    {
        Parser { state: State::Line }
    }
}

proof fn step_fits(state: StateView, input: Seq<u8>, lim: Limits)
    requires
        state_fits(state),
        lim.max_control_line * 16 <= usize::MAX,
    ensures
        match step(state, input, lim) {
            Step::Next { events, state, rest } => state_fits(state) && rest.len() < input.len()
                && forall|i: int| 0 <= i < events.len() ==> event_fits(#[trigger] events[i]),
            Step::Last { events, end, state, rest } => state_fits(state) && forall|i: int|
                0 <= i < events.len() ==> event_fits(#[trigger] events[i]),
        },
{
    if state is Line {
        line_end_is_first(input);
        if let Some(at) = line_end(input) {
            if at <= lim.max_control_line {
                meaning_fits(input.take(at), lim.max_payload);
            }
        }
    }
}

/// How one step of the parser went.
enum Turn {
    /// There may be more to do.
    Again,
    /// Nothing more can be done with these bytes.
    Done,
    /// The stream broke the protocol.
    Failed(ProtoError),
}

/// Did a step from `before` on `input` do what [`step`] says?
spec fn turned(
    before: StateView,
    input: Seq<u8>,
    lim: Limits,
    events: Seq<Event>,
    after: State,
    rest: Seq<u8>,
    new_events: Seq<Event>,
    turn: Turn,
) -> bool {
    match step(before, input, lim) {
        Step::Next { events: more, state: st, rest: left } => {
            &&& turn is Again
            &&& after.view() == st
            &&& rest == left
            &&& event_views(new_events) == event_views(events) + more
        },
        Step::Last { events: more, end, state: st, rest: left } => {
            &&& turn == match end {
                End::Failed(e) => Turn::Failed(e),
                _ => Turn::Done,
            }
            &&& after.view() == st
            &&& rest == left
            &&& event_views(new_events) == event_views(events) + more
        },
    }
}

proof fn no_event(events: Seq<Event>)
    ensures
        event_views(events) == event_views(events) + Seq::<EventView>::empty(),
{
    assert(event_views(events) =~= event_views(events) + Seq::<EventView>::empty());
}

proof fn one_event(events: Seq<Event>, ev: Event)
    ensures
        event_views(events.push(ev)) == event_views(events) + seq![ev@],
{
    assert(event_views(events.push(ev)) =~= event_views(events) + seq![ev@]);
}

/// One step at the start of a control line.
fn line_turn(src: &mut BytesMut, lim: &Limits, out: &mut Vec<Event>) -> (r: (State, Turn))
    requires
        lim.max_control_line * 16 <= usize::MAX,
    ensures
        r.0.wf(),
        turned(
            StateView::Line,
            buffer_of(*old(src)),
            *lim,
            old(out)@,
            r.0,
            buffer_of(*final(src)),
            final(out)@,
            r.1,
        ),
{
    let ghost input = buffer_of(*src);
    proof {
        step_fits(StateView::Line, input, *lim);
        line_end_is_first(input);
        no_event(out@);
    }
    let bytes: &[u8] = src;
    let len = bytes.len();
    if len > 0 && bytes[0] == LF {
        return (State::Line, Turn::Failed(ProtoError::Fatal(UNKNOWN_OP)));
    }
    let at = match find_crlf(bytes) {
        None => {
            // Guard against an unbounded line.
            if len > lim.max_control_line * 16 {
                return (State::Line, Turn::Failed(ProtoError::Fatal(MAX_CONTROL_LINE)));
            }
            return (State::Line, Turn::Done);
        },
        Some(at) => at,
    };
    if at > lim.max_control_line {
        return (State::Line, Turn::Failed(ProtoError::Fatal(MAX_CONTROL_LINE)));
    }
    let line = src.split_to(at).freeze();
    advance_buffer(src, 2);
    assert(buffer_of(*src) =~= input.skip(at + 2));
    match parse_line(&line, lim) {
        Err(e) => (State::Line, Turn::Failed(e)),
        Ok(Action::Event(ev)) => {
            // An HPUB that does not describe a publish ends the batch where it
            // stands: reading its bytes as further commands would decide it with
            // an error that the connection's options never get to overrule.
            let stop = match &ev {
                Event::HpubAttempt(HpubOutcome::Args) => true,
                _ => false,
            };
            proof {
                one_event(out@, ev);
            }
            out.push(ev);
            if stop {
                (State::Line, Turn::Done)
            } else {
                (State::Line, Turn::Again)
            }
        },
        Ok(Action::Body { subject, reply, hdr, need, hpub }) => {
            if hpub {
                proof {
                    one_event(out@, Event::HpubAttempt(HpubOutcome::Accepted));
                }
                out.push(Event::HpubAttempt(HpubOutcome::Accepted));
            }
            (
                State::Body { subject, reply, hdr, need, hpub, got: Vec::new(), gathered: 0 },
                Turn::Again,
            )
        },
    }
}

/// One step inside a body.
fn body_turn(state: State, src: &mut BytesMut, lim: &Limits, out: &mut Vec<Event>) -> (r: (
    State,
    Turn,
))
    requires
        state is Body,
        state.wf(),
        lim.max_control_line * 16 <= usize::MAX,
    ensures
        r.0.wf(),
        turned(
            state.view(),
            buffer_of(*old(src)),
            *lim,
            old(out)@,
            r.0,
            buffer_of(*final(src)),
            final(out)@,
            r.1,
        ),
{
    let ghost input = buffer_of(*src);
    proof {
        step_fits(state.view(), input, *lim);
        no_event(out@);
    }
    match state {
        State::Line => (State::Line, Turn::Done),
        State::Body { subject, reply, hdr, need, hpub, got, gathered } => {
            let ghost got0 = got@;
            let mut got = got;
            let mut gathered: usize = gathered;
            let want: usize = need - gathered;
            let held: &[u8] = src;
            let len = held.len();
            let take: usize = if want < len {
                want
            } else {
                len
            };
            assert(input.take(0) =~= Seq::<u8>::empty());
            assert(input.skip(0) =~= input);
            if take > 0 {
                let piece = src.split_to(take).freeze();
                got.push(piece);
                gathered = gathered + take;
                assert(got@.drop_last() =~= got0);
            }
            assert(joined(got@) =~= joined(got0) + input.take(take as int));
            let bytes: &[u8] = src;
            let left = bytes.len();
            if gathered < need || left == 0 || (bytes[0] == CR && left == 1) {
                return (
                    State::Body { subject, reply, hdr, need, hpub, got, gathered },
                    Turn::Done,
                );
            }
            // The terminator is positional: anything other than CR in that slot is a
            // stream out of step, reported at once. For an HPUB the capability is
            // decided first, so the failure goes to the connection instead.
            if bytes[0] != CR || bytes[1] != LF {
                let held = State::Body { subject, reply, hdr, need, hpub, got, gathered };
                if hpub {
                    proof {
                        one_event(out@, Event::HpubAttempt(HpubOutcome::Frame(UNKNOWN_OP)));
                    }
                    out.push(Event::HpubAttempt(HpubOutcome::Frame(UNKNOWN_OP)));
                    return (held, Turn::Done);
                }
                return (held, Turn::Failed(ProtoError::Fatal(UNKNOWN_OP)));
            }
            advance_buffer(src, 2);
            let body = assemble(&got, need);
            let ev = Event::Publish { subject, reply, hdr, total: need, body, hpub };
            proof {
                one_event(out@, ev);
            }
            out.push(ev);
            (State::Line, Turn::Again)
        },
    }
}

proof fn run_fits(state: StateView, input: Seq<u8>, lim: Limits)
    requires
        state_fits(state),
        lim.max_control_line * 16 <= usize::MAX,
    ensures
        state_fits(run(state, input, lim).state),
        forall|i: int|
            0 <= i < run(state, input, lim).events.len() ==> event_fits(
                #[trigger] run(state, input, lim).events[i],
            ),
    decreases input.len(),
{
    step_fits(state, input, lim);
    if let Step::Next { events, state: st, rest } = step(state, input, lim) {
        run_fits(st, rest, lim);
    }
}

impl Parser {
    /// Takes complete operations from the front of `src` and appends them to `out`,
    /// leaving anything incomplete. The operations that stood before an error are
    /// appended too. `src` is advanced as work is done, so a caller keeps one buffer
    /// alive across reads.
    pub fn feed_into(&mut self, src: &mut BytesMut, lim: &Limits, out: &mut Vec<Event>) -> (r:
        Result<(), ProtoError>)
        requires
            old(self).wf(),
            lim.max_control_line * 16 <= usize::MAX,
        ensures
            final(self).wf(),
            event_views(final(out)@) == event_views(old(out)@) + run(
                old(self)@,
                buffer_of(*old(src)),
                *lim,
            ).events,
            forall|i: int|
                old(out)@.len() <= i < final(out)@.len() ==> event_fits(#[trigger] final(out)@[i]@),
            final(self)@ == run(old(self)@, buffer_of(*old(src)), *lim).state,
            buffer_of(*final(src)) == run(old(self)@, buffer_of(*old(src)), *lim).rest,
            r == match run(old(self)@, buffer_of(*old(src)), *lim).end {
                End::Failed(e) => Err::<(), ProtoError>(e),
                _ => Ok::<(), ProtoError>(()),
            },
    {
        let ghost whole = run(self@, buffer_of(*src), *lim);
        let mut state = State::Line;
        std::mem::swap(&mut state, &mut self.state);
        proof {
            run_fits(state.view(), buffer_of(*src), *lim);
        }
        loop
            invariant
                state.wf(),
                lim.max_control_line * 16 <= usize::MAX,
                whole == run(old(self)@, buffer_of(*old(src)), *lim),
                forall|i: int| 0 <= i < whole.events.len() ==> event_fits(#[trigger] whole.events[i]),
                event_views(out@) + run(state.view(), buffer_of(*src), *lim).events == event_views(
                    old(out)@,
                ) + whole.events,
                whole.end == run(state.view(), buffer_of(*src), *lim).end,
                whole.state == run(state.view(), buffer_of(*src), *lim).state,
                whole.rest == run(state.view(), buffer_of(*src), *lim).rest,
            decreases buffer_of(*src).len(),
        {
            let ghost before = event_views(out@);
            let ghost now = run(state.view(), buffer_of(*src), *lim);
            proof {
                step_fits(state.view(), buffer_of(*src), *lim);
            }
            let (after, turn) = match state {
                State::Line => line_turn(src, lim, out),
                held => body_turn(held, src, lim, out),
            };
            match turn {
                Turn::Again => {
                    state = after;
                    assert(event_views(out@) + run(state.view(), buffer_of(*src), *lim).events
                        =~= before + now.events);
                },
                Turn::Done => {
                    self.state = after;
                    proof {
                        Self::appended(old(out)@, out@, whole.events);
                    }
                    return Ok(());
                },
                Turn::Failed(e) => {
                    self.state = after;
                    proof {
                        Self::appended(old(out)@, out@, whole.events);
                    }
                    return Err(e);
                },
            }
        }
    }

    proof fn appended(before: Seq<Event>, after: Seq<Event>, events: Seq<EventView>)
        requires
            event_views(after) == event_views(before) + events,
            forall|i: int| 0 <= i < events.len() ==> event_fits(#[trigger] events[i]),
        ensures
            forall|i: int| before.len() <= i < after.len() ==> event_fits(#[trigger] after[i]@),
    {
        assert forall|i: int| before.len() <= i < after.len() implies event_fits(
            #[trigger] after[i]@,
        ) by {
            assert(event_views(after).len() == after.len());
            assert(event_views(before).len() == before.len());
            assert((event_views(before) + events)[i] == events[i - before.len()]);
        }
    }

    /// Takes complete operations from the front of `src`, leaving anything
    /// incomplete.
    pub fn feed(&mut self, src: &mut BytesMut, lim: &Limits) -> (r: Result<Vec<Event>, ProtoError>)
        requires
            old(self).wf(),
            lim.max_control_line * 16 <= usize::MAX,
        ensures
            final(self).wf(),
            final(self)@ == run(old(self)@, buffer_of(*old(src)), *lim).state,
            buffer_of(*final(src)) == run(old(self)@, buffer_of(*old(src)), *lim).rest,
            match run(old(self)@, buffer_of(*old(src)), *lim).end {
                End::Failed(e) => r == Err::<Vec<Event>, ProtoError>(e),
                _ => {
                    &&& r matches Ok(events)
                    &&& event_views(events@) == run(
                        old(self)@,
                        buffer_of(*old(src)),
                        *lim,
                    ).events
                    &&& forall|i: int|
                        0 <= i < events@.len() ==> event_fits(#[trigger] events@[i]@)
                },
            },
    {
        let mut out: Vec<Event> = Vec::new();
        assert(event_views(out@) =~= Seq::empty());
        match self.feed_into(src, lim, &mut out) {
            Ok(_) => Ok(out),
            Err(e) => Err(e),
        }
    }
}

/// Puts the pieces of a body together.
fn assemble(got: &Vec<Bytes>, need: usize) -> (r: Bytes)
    requires
        joined(got@).len() == need,
        need <= MAX_BODY,
    ensures
        bytes_of(r) == joined(got@),
{
    let mut body = BytesMut::with_capacity(need);
    let mut i: usize = 0;
    assert(got@.take(0) =~= Seq::<Bytes>::empty());
    while i < got.len()
        invariant
            i <= got@.len(),
            joined(got@).len() <= MAX_BODY,
            buffer_of(body) == joined(got@.take(i as int)),
        decreases got@.len() - i,
    {
        proof {
            assert(got@.take(i + 1).drop_last() =~= got@.take(i as int));
            joined_grows(got@, i + 1);
        }
        body.extend_from_slice(&got[i]);
        i += 1;
    }
    assert(got@.take(i as int) =~= got@);
    body.freeze()
}

proof fn joined_grows(parts: Seq<Bytes>, n: int)
    requires
        0 <= n <= parts.len(),
    ensures
        joined(parts.take(n)).len() <= joined(parts).len(),
    decreases parts.len() - n,
{
    if n < parts.len() {
        joined_grows(parts, n + 1);
        assert(parts.take(n + 1).drop_last() =~= parts.take(n));
    } else {
        assert(parts.take(n) =~= parts);
    }
}

// --------------------------------------------------------------------- segments --

/// One step sees no more than it needs: with more bytes behind the input it does the
/// same, and where it had to wait, the wait changes nothing.
proof fn step_extends(state: StateView, a: Seq<u8>, b: Seq<u8>, lim: Limits)
    requires
        lim.max_control_line >= 1,
        state_fits(state),
    ensures
        match step(state, a, lim) {
            Step::Next { events, state: st, rest } => step(state, a + b, lim) == (Step::Next {
                events,
                state: st,
                rest: rest + b,
            }),
            Step::Last { events, end, state: st, rest } => if end is Waiting {
                &&& events.len() == 0
                &&& step(state, a + b, lim) == step(st, rest + b, lim)
            } else {
                step(state, a + b, lim) == (Step::Last { events, end, state: st, rest: rest + b })
            },
        },
{
    let ab = a + b;
    match state {
        StateView::Line => {
            line_end_is_first(a);
            line_end_is_first(ab);
            if a.len() > 0 {
                assert(ab[0] == a[0]);
            }
            match line_end(a) {
                Some(at) => {
                    assert(ab[at] == a[at] && ab[at + 1] == a[at + 1]);
                    if let Some(other) = line_end(ab) {
                        if other < at {
                            assert(a[other] == ab[other] && a[other + 1] == ab[other + 1]);
                        }
                    }
                    assert(line_end(ab) == Some(at));
                    assert(ab.take(at) =~= a.take(at));
                    assert(ab.skip(at + 2) =~= a.skip(at + 2) + b);
                },
                None => {
                    if let Some(other) = line_end(ab) {
                        if other < a.len() - 1 {
                            assert(a[other] == ab[other] && a[other + 1] == ab[other + 1]);
                        }
                    }
                },
            }
        },
        StateView::Body { subject, reply, hdr, need, hpub, got } => {
            let want = need - got.len();
            if want < a.len() {
                assert(ab.take(want) =~= a.take(want));
                assert(ab.skip(want) =~= a.skip(want) + b);
                let rest = a.skip(want);
                assert((rest + b)[0] == rest[0]);
                if rest.len() == 1 {
                    body_resumes(subject, reply, hdr, need, hpub, got, a, b);
                } else {
                    assert((rest + b)[1] == rest[1]);
                    assert((rest + b).skip(2) =~= rest.skip(2) + b);
                }
            } else {
                body_resumes(subject, reply, hdr, need, hpub, got, a, b);
            }
        },
    }
}

/// A body that stopped short is taken up where it was left.
proof fn body_resumes(
    subject: Seq<u8>,
    reply: Option<Seq<u8>>,
    hdr: nat,
    need: nat,
    hpub: bool,
    got: Seq<u8>,
    a: Seq<u8>,
    b: Seq<u8>,
)
    requires
        got.len() <= need,
    ensures
        ({
            let taken = if need - got.len() < a.len() {
                need - got.len()
            } else {
                a.len() as int
            };
            body_step(subject, reply, hdr, need, hpub, got, a + b) == body_step(
                subject,
                reply,
                hdr,
                need,
                hpub,
                got + a.take(taken),
                a.skip(taken) + b,
            )
        }),
{
    let taken = if need - got.len() < a.len() {
        need - got.len()
    } else {
        a.len() as int
    };
    let ab = a + b;
    let later = a.skip(taken) + b;
    let want = need - got.len();
    let all = if want < ab.len() {
        want
    } else {
        ab.len() as int
    };
    let more = all - taken;
    assert(got + ab.take(all) =~= (got + a.take(taken)) + later.take(more));
    assert(ab.skip(all) =~= later.skip(more));
}

/// Where a stream is cut changes nothing. What a run makes of `a` stands when `b`
/// follows; where it was waiting, running on over what it left and `b` gives the
/// operations, the end, the state and the rest of one run over both. A limit of no
/// bytes at all is left out: there a CR alone is already too long a line.
pub proof fn a_cut_changes_nothing(state: StateView, a: Seq<u8>, b: Seq<u8>, lim: Limits)
    requires
        lim.max_control_line >= 1,
        lim.max_control_line * 16 <= usize::MAX,
        state_fits(state),
    ensures
        ({
            let first = run(state, a, lim);
            let second = run(first.state, first.rest + b, lim);
            let both = run(state, a + b, lim);
            if first.end is Waiting {
                both == (Run { events: first.events + second.events, ..second })
            } else {
                both == (Run { rest: first.rest + b, ..first })
            }
        }),
    decreases a.len(),
{
    step_extends(state, a, b, lim);
    step_fits(state, a, lim);
    step_fits(state, a + b, lim);
    let first = run(state, a, lim);
    let both = run(state, a + b, lim);
    match step(state, a, lim) {
        Step::Next { events, state: st, rest } => {
            a_cut_changes_nothing(st, rest, b, lim);
            let inner = run(st, rest, lim);
            let second = run(first.state, first.rest + b, lim);
            assert(both.events == events + run(st, rest + b, lim).events);
            if first.end is Waiting {
                assert(both.events =~= first.events + second.events);
            }
        },
        Step::Last { events, end, state: st, rest } => {
            if end is Waiting {
                let second = run(st, rest + b, lim);
                assert(run(state, a + b, lim) == run(st, rest + b, lim));
                assert(first.events + second.events =~= second.events);
            }
        },
    }
}

/// What a connection makes of a stream that arrives in segments: each segment is put
/// behind what the last run left, until a run does not wait for more.
pub open spec fn run_segments(
    state: StateView,
    held: Seq<u8>,
    segments: Seq<Seq<u8>>,
    lim: Limits,
) -> Run
    decreases segments.len(),
{
    if segments.len() == 0 {
        Run { events: Seq::empty(), end: End::Waiting, state, rest: held }
    } else {
        let now = run(state, held + segments[0], lim);
        if now.end is Waiting {
            let more = run_segments(now.state, now.rest, segments.skip(1), lim);
            Run { events: now.events + more.events, ..more }
        } else {
            Run { rest: now.rest + concat(segments.skip(1)), ..now }
        }
    }
}

/// Several segments, one after the other.
pub open spec fn concat(segments: Seq<Seq<u8>>) -> Seq<u8>
    decreases segments.len(),
{
    if segments.len() == 0 {
        Seq::empty()
    } else {
        segments[0] + concat(segments.skip(1))
    }
}

proof fn segments_resume(state: StateView, held: Seq<u8>, segments: Seq<Seq<u8>>, lim: Limits)
    requires
        lim.max_control_line >= 1,
        lim.max_control_line * 16 <= usize::MAX,
        state_fits(state),
        run(state, held, lim) == (Run {
            events: Seq::empty(),
            end: End::Waiting,
            state,
            rest: held,
        }),
    ensures
        run_segments(state, held, segments, lim) == run(state, held + concat(segments), lim),
    decreases segments.len(),
{
    if segments.len() == 0 {
        assert(held + concat(segments) =~= held);
    } else {
        let a = held + segments[0];
        let b = concat(segments.skip(1));
        let now = run(state, a, lim);
        assert(held + concat(segments) =~= a + b);
        run_fits(state, a, lim);
        a_cut_changes_nothing(state, a, b, lim);
        if now.end is Waiting {
            // What is left of a run that waited is waited on again.
            a_cut_changes_nothing(state, a, Seq::empty(), lim);
            assert(a + Seq::<u8>::empty() =~= a);
            assert(now.rest + Seq::<u8>::empty() =~= now.rest);
            let again = run(now.state, now.rest, lim);
            assert((now.events + again.events).len() == now.events.len());
            assert(again.events =~= Seq::empty());
            segments_resume(now.state, now.rest, segments.skip(1), lim);
        }
    }
}

/// However a stream is cut into segments, a connection makes of them what one run
/// makes of the whole stream: the same operations in the same order, the same end,
/// the same state and the same bytes left over.
pub proof fn segments_do_not_matter(segments: Seq<Seq<u8>>, lim: Limits)
    requires
        lim.max_control_line >= 1,
        lim.max_control_line * 16 <= usize::MAX,
    ensures
        run_segments(StateView::Line, Seq::empty(), segments, lim) == run(
            StateView::Line,
            concat(segments),
            lim,
        ),
{
    assert(Seq::<u8>::empty() + concat(segments) =~= concat(segments));
    segments_resume(StateView::Line, Seq::empty(), segments, lim);
}

/// What a parser hands out when it is fed segments, whatever each of them says: each is put
/// behind what the last one left, and an error ends nothing.
pub open spec fn fed(
    state: StateView,
    held: Seq<u8>,
    segments: Seq<Seq<u8>>,
    lim: Limits,
) -> Seq<EventView>
    decreases segments.len(),
{
    if segments.len() == 0 {
        Seq::empty()
    } else {
        let now = run(state, held + segments[0], lim);
        now.events + fed(now.state, now.rest, segments.skip(1), lim)
    }
}

/// Does a control line from `start` on announce that body, and end right before `at`?
pub open spec fn announced(
    stream: Seq<u8>,
    start: int,
    at: int,
    body: LineMeaning,
    lim: Limits,
) -> bool {
    &&& 0 <= start <= at - 2
    &&& at <= stream.len()
    &&& stream.subrange(at - 2, at) == crlf()
    &&& line_meaning(stream.subrange(start, at - 2), lim.max_payload) == body
}

/// Is the operation a publish whose control line stands from `start` on, and whose body is
/// the bytes from `at` on, right behind that line, with a line end of its own?
pub open spec fn published_from(
    stream: Seq<u8>,
    start: int,
    at: int,
    ev: EventView,
    lim: Limits,
) -> bool {
    &&& ev matches EventView::Publish { subject, reply, hdr, total, body, hpub }
    &&& announced(
        stream,
        start,
        at,
        LineMeaning::Body { subject, reply, hdr, need: total, hpub },
        lim,
    )
    &&& at + total + 2 <= stream.len()
    &&& body == stream.subrange(at, at + total)
    &&& stream.subrange(at + total, at + total + 2) == crlf()
}

/// Is the operation within the limits, and is it whole? A publish has a body of the length
/// that it says, no longer than the limit, with the header block inside it; and a plain one
/// has no header block.
pub open spec fn whole(ev: EventView, lim: Limits) -> bool {
    ev matches EventView::Publish { subject, reply, hdr, total, body, hpub } ==> {
        &&& total == body.len()
        &&& hdr <= total
        &&& total <= lim.max_payload
        &&& !hpub ==> hdr == 0
    }
}

/// Is the parser in that state once it has consumed those bytes?
#[verifier::opaque]
spec fn reached(before: Seq<u8>, state: StateView, lim: Limits) -> bool {
    match state {
        StateView::Line => true,
        StateView::Body { subject, reply, hdr, need, hpub, got } => {
            &&& got.len() <= need
            &&& got.len() <= before.len()
            &&& got == before.skip(before.len() - got.len())
            &&& exists|start: int|
                #[trigger] announced(
                    before,
                    start,
                    before.len() - got.len(),
                    LineMeaning::Body { subject, reply, hdr, need, hpub },
                    lim,
                )
        },
    }
}

/// Does the operation come out of those bytes?
#[verifier::opaque]
spec fn comes_from(stream: Seq<u8>, ev: EventView, lim: Limits) -> bool {
    ev is Publish ==> exists|start: int, at: int|
        #[trigger] published_from(stream, start, at, ev, lim)
}

proof fn announced_before(
    stream: Seq<u8>,
    more: Seq<u8>,
    start: int,
    at: int,
    body: LineMeaning,
    lim: Limits,
)
    requires
        announced(stream, start, at, body, lim),
    ensures
        announced(stream + more, start, at, body, lim),
{
    assert((stream + more).subrange(at - 2, at) =~= stream.subrange(at - 2, at));
    assert((stream + more).subrange(start, at - 2) =~= stream.subrange(start, at - 2));
}

proof fn comes_from_more(stream: Seq<u8>, more: Seq<u8>, ev: EventView, lim: Limits)
    requires
        comes_from(stream, ev, lim),
    ensures
        comes_from(stream + more, ev, lim),
{
    reveal(comes_from);
    if let EventView::Publish { subject, reply, hdr, total, body, hpub } = ev {
        let (start, at) = choose|start: int, at: int|
            #[trigger] published_from(stream, start, at, ev, lim);
        let all = stream + more;
        announced_before(
            stream,
            more,
            start,
            at,
            LineMeaning::Body { subject, reply, hdr, need: total, hpub },
            lim,
        );
        assert(all.subrange(at, at + total) =~= stream.subrange(at, at + total));
        assert(all.subrange(at + total, at + total + 2) =~= stream.subrange(
            at + total,
            at + total + 2,
        ));
        assert(published_from(all, start, at, ev, lim));
    }
}

/// What a step leaves of its input, the state it goes to and the operations it hands out are
/// what the bytes that it consumed make them.
spec fn accounted(
    before: Seq<u8>,
    input: Seq<u8>,
    events: Seq<EventView>,
    state: StateView,
    rest: Seq<u8>,
    lim: Limits,
) -> bool {
    let used = input.len() - rest.len();
    &&& 0 <= used
    &&& rest == input.skip(used)
    &&& reached(before + input.take(used), state, lim)
    &&& forall|k: int|
        0 <= k < events.len() ==> comes_from(before + input, #[trigger] events[k], lim)
}

/// A control line is no publish by itself.
proof fn a_line_is_no_publish(line: Seq<u8>, max_payload: u64)
    ensures
        line_meaning(line, max_payload) matches LineMeaning::Event(ev) ==> !(ev is Publish),
{
}

/// A line that announces a body starts one.
proof fn a_body_starts(
    before: Seq<u8>,
    input: Seq<u8>,
    at: int,
    subject: Seq<u8>,
    reply: Option<Seq<u8>>,
    hdr: nat,
    need: nat,
    hpub: bool,
    lim: Limits,
)
    requires
        0 <= at,
        at + 2 <= input.len(),
        input[at] == CR,
        input[at + 1] == LF,
        line_meaning(input.take(at), lim.max_payload) == (LineMeaning::Body {
            subject,
            reply,
            hdr,
            need,
            hpub,
        }),
    ensures
        reached(
            before + input.take(at + 2),
            StateView::Body { subject, reply, hdr, need, hpub, got: Seq::empty() },
            lim,
        ),
{
    reveal(reached);
    let after = before + input.take(at + 2);
    let (start, end) = (before.len() as int, before.len() + at);
    assert(after.subrange(start, end) =~= input.take(at));
    assert(after.subrange(end, end + 2) =~= crlf());
    let body = LineMeaning::Body { subject, reply, hdr, need, hpub };
    let none = Seq::<u8>::empty();
    assert(after.skip(after.len() - none.len()) =~= none);
    assert(announced(after, start, after.len() - none.len(), body, lim));
}

proof fn a_line_keeps_track(before: Seq<u8>, input: Seq<u8>, lim: Limits)
    ensures
        match line_step(input, lim) {
            Step::Next { events, state, rest } => accounted(before, input, events, state, rest, lim),
            Step::Last { events, end, state, rest } => accounted(
                before,
                input,
                events,
                state,
                rest,
                lim,
            ),
        },
{
    line_end_is_first(input);
    assert(input.skip(0) =~= input);
    assert forall|b: Seq<u8>| #[trigger] reached(b, StateView::Line, lim) by {
        reveal(reached);
    }
    assert forall|stream: Seq<u8>, ev: EventView|
        !(ev is Publish) implies #[trigger] comes_from(stream, ev, lim) by {
        reveal(comes_from);
    }
    if let Some(at) = line_end(input) {
        a_line_is_no_publish(input.take(at), lim.max_payload);
        if let LineMeaning::Body { subject, reply, hdr, need, hpub } = line_meaning(
            input.take(at),
            lim.max_payload,
        ) {
            a_body_starts(before, input, at, subject, reply, hdr, need, hpub, lim);
        }
    }
}

proof fn a_body_keeps_track(
    before: Seq<u8>,
    subject: Seq<u8>,
    reply: Option<Seq<u8>>,
    hdr: nat,
    need: nat,
    hpub: bool,
    got: Seq<u8>,
    input: Seq<u8>,
    lim: Limits,
)
    requires
        reached(before, StateView::Body { subject, reply, hdr, need, hpub, got }, lim),
    ensures
        match body_step(subject, reply, hdr, need, hpub, got, input) {
            Step::Next { events, state, rest } => accounted(before, input, events, state, rest, lim),
            Step::Last { events, end, state, rest } => accounted(
                before,
                input,
                events,
                state,
                rest,
                lim,
            ),
        },
{
    reveal(reached);
    reveal(comes_from);
    let body = LineMeaning::Body { subject, reply, hdr, need, hpub };
    let first = before.len() - got.len();
    let start = choose|start: int| #[trigger] announced(before, start, first, body, lim);
    let want = need - got.len();
    let taken = if want < input.len() {
        want
    } else {
        input.len() as int
    };
    let all = got + input.take(taken);
    let rest = input.skip(taken);
    let after = before + input.take(taken);
    announced_before(before, input.take(taken), start, first, body, lim);
    assert(after.skip(first) =~= all);
    let held = StateView::Body { subject, reply, hdr, need, hpub, got: all };
    assert(reached(after, held, lim)) by {
        assert(after.len() - all.len() == first);
        assert(announced(after, start, after.len() - all.len(), body, lim));
    }
    assert(rest == input.skip(input.len() - rest.len()));
    assert(after == before + input.take(input.len() - rest.len()));
    if all.len() == need && rest.len() >= 2 && rest[0] == CR && rest[1] == LF {
        let ev = EventView::Publish { subject, reply, hdr, total: need, body: all, hpub };
        let stream = before + input;
        announced_before(before, input, start, first, body, lim);
        assert(stream.subrange(first, first + need) =~= all);
        assert(stream[first + need] == rest[0] && stream[first + need + 1] == rest[1]);
        assert(stream.subrange(first + need, first + need + 2) =~= crlf());
        assert(published_from(stream, start, first, ev, lim));
        assert(rest.skip(2) =~= input.skip(taken + 2));
        let left = rest.skip(2);
        assert(left == input.skip(input.len() - left.len()));
        assert(reached(before + input.take(input.len() - left.len()), StateView::Line, lim));
        assert(comes_from(stream, ev, lim));
    }
}

/// One step consumes the front of its input, and keeps track of what it consumed.
proof fn a_step_keeps_track(before: Seq<u8>, state: StateView, input: Seq<u8>, lim: Limits)
    requires
        reached(before, state, lim),
    ensures
        match step(state, input, lim) {
            Step::Next { events, state, rest } => accounted(before, input, events, state, rest, lim),
            Step::Last { events, end, state, rest } => accounted(
                before,
                input,
                events,
                state,
                rest,
                lim,
            ),
        },
{
    match state {
        StateView::Line => a_line_keeps_track(before, input, lim),
        StateView::Body { subject, reply, hdr, need, hpub, got } => a_body_keeps_track(
            before,
            subject,
            reply,
            hdr,
            need,
            hpub,
            got,
            input,
            lim,
        ),
    }
}

/// What one step did and what the rest of the run did is what the run did.
proof fn tracks_join(
    before: Seq<u8>,
    input: Seq<u8>,
    events: Seq<EventView>,
    st: StateView,
    rest: Seq<u8>,
    more: Run,
    lim: Limits,
)
    requires
        accounted(before, input, events, st, rest, lim),
        accounted(
            before + input.take(input.len() - rest.len()),
            rest,
            more.events,
            more.state,
            more.rest,
            lim,
        ),
    ensures
        accounted(before, input, events + more.events, more.state, more.rest, lim),
{
    let used = input.len() - rest.len();
    let mid = before + input.take(used);
    let inner = rest.len() - more.rest.len();
    assert(mid + rest =~= before + input);
    assert(mid + rest.take(inner) =~= before + input.take(used + inner));
    assert(more.rest =~= input.skip(used + inner));
    let all = events + more.events;
    assert forall|k: int| 0 <= k < all.len() implies comes_from(
        before + input,
        #[trigger] all[k],
        lim,
    ) by {
        if k < events.len() {
            assert(all[k] == events[k]);
        } else {
            assert(all[k] == more.events[k - events.len()]);
        }
    }
}

/// And so does a run.
proof fn a_run_keeps_track(before: Seq<u8>, state: StateView, input: Seq<u8>, lim: Limits)
    requires
        reached(before, state, lim),
    ensures
        ({
            let now = run(state, input, lim);
            accounted(before, input, now.events, now.state, now.rest, lim)
        }),
    decreases input.len(),
{
    a_step_keeps_track(before, state, input, lim);
    match step(state, input, lim) {
        Step::Next { events, state: st, rest } => {
            if rest.len() < input.len() {
                a_run_keeps_track(before + input.take(input.len() - rest.len()), st, rest, lim);
                tracks_join(before, input, events, st, rest, run(st, rest, lim), lim);
            }
        },
        _ => {},
    }
}

proof fn feeding_keeps_track(
    before: Seq<u8>,
    state: StateView,
    held: Seq<u8>,
    segments: Seq<Seq<u8>>,
    lim: Limits,
)
    requires
        reached(before, state, lim),
    ensures
        forall|k: int|
            0 <= k < fed(state, held, segments, lim).len() ==> comes_from(
                before + held + concat(segments),
                #[trigger] fed(state, held, segments, lim)[k],
                lim,
            ),
    decreases segments.len(),
{
    if segments.len() > 0 {
        let input = held + segments[0];
        let later = concat(segments.skip(1));
        let now = run(state, input, lim);
        a_run_keeps_track(before, state, input, lim);
        let used = input.len() - now.rest.len();
        let after = before + input.take(used);
        feeding_keeps_track(after, now.state, now.rest, segments.skip(1), lim);
        let stream = before + held + concat(segments);
        assert(after + now.rest + later =~= stream);
        assert((before + input) + later =~= stream);
        let more = fed(now.state, now.rest, segments.skip(1), lim);
        let all = fed(state, held, segments, lim);
        assert forall|k: int| 0 <= k < all.len() implies comes_from(
            stream,
            #[trigger] all[k],
            lim,
        ) by {
            if k < now.events.len() {
                assert(all[k] == now.events[k]);
                comes_from_more(before + input, later, all[k], lim);
            } else {
                assert(all[k] == more[k - now.events.len()]);
            }
        }
    }
}

/// Every publish that comes out of a stream is whole and within the limits, however the
/// stream is cut up and whatever else is wrong with it: its body is exactly the bytes behind
/// its control line, as many as that line said. A part of a frame is never handed out.
pub proof fn every_publish_is_whole(segments: Seq<Seq<u8>>, lim: Limits, k: int)
    requires
        0 <= k < fed(StateView::Line, Seq::empty(), segments, lim).len(),
    ensures
        ({
            let ev = fed(StateView::Line, Seq::empty(), segments, lim)[k];
            &&& whole(ev, lim)
            &&& ev is Publish ==> exists|start: int, at: int|
                #[trigger] published_from(concat(segments), start, at, ev, lim)
        }),
{
    let none = Seq::<u8>::empty();
    reveal(reached);
    reveal(comes_from);
    feeding_keeps_track(none, StateView::Line, none, segments, lim);
    assert(none + none + concat(segments) =~= concat(segments));
    let ev = fed(StateView::Line, none, segments, lim)[k];
    assert(comes_from(concat(segments), ev, lim));
}

/// How many letters at the front of a line are its verb's.
pub open spec fn verb_letters(line: Seq<u8>) -> nat {
    if starts_with_verb(line, text("INFO")) {
        text("INFO").len()
    } else if starts_with_verb(line, text("CONNECT")) {
        text("CONNECT").len()
    } else {
        verb_of(line).len()
    }
}

/// The case of a verb's letters does not matter, of none of them and in no mixture.
pub proof fn case_does_not_matter(a: Seq<u8>, b: Seq<u8>, max_payload: u64)
    requires
        a.len() == b.len(),
        forall|i: int| 0 <= i < a.len() ==> upper(#[trigger] a[i]) == upper(b[i]),
        forall|i: int| verb_letters(a) <= i < a.len() ==> #[trigger] a[i] == b[i],
    ensures
        line_meaning(a, max_payload) == line_meaning(b, max_payload),
{
    let n = leading(a, false);
    leading_stops(a, false);
    assert forall|i: int| 0 <= i < n implies blank(#[trigger] b[i]) == false by {
        assert(upper(a[i]) == upper(b[i]));
        assert(blank(a[i]) == false);
    }
    if n < a.len() {
        assert(upper(a[n as int]) == upper(b[n as int]));
    }
    leading_is(b, false, n);
    assert forall|verb: Seq<u8>| #[trigger] starts_with_verb(a, verb) == starts_with_verb(
        b,
        verb,
    ) by {
        if a.len() >= verb.len() {
            let (x, y) = (a.take(verb.len() as int), b.take(verb.len() as int));
            assert forall|i: int| 0 <= i < x.len() implies upper(#[trigger] x[i]) == upper(
                y[i],
            ) by {
                assert(upper(a[i]) == upper(b[i]));
            }
            same_for_both(x, y, verb);
        }
    }
    let (x, y) = (verb_of(a), verb_of(b));
    assert forall|i: int| 0 <= i < x.len() implies upper(#[trigger] x[i]) == upper(y[i]) by {
        assert(upper(a[i]) == upper(b[i]));
    }
    assert forall|verb: Seq<u8>| #[trigger] same_verb(x, verb) == same_verb(y, verb) by {
        same_for_both(x, y, verb);
    }
    if starts_with_verb(a, text("INFO")) {
        let k = text("INFO").len() as int;
        assert(a.skip(k) =~= b.skip(k));
    } else if starts_with_verb(a, text("CONNECT")) {
        let k = text("CONNECT").len() as int;
        assert(a.skip(k) =~= b.skip(k));
    } else {
        assert(rest_of(a) =~= rest_of(b));
    }
    assert(rest_of(a).len() == rest_of(b).len());
    assert(starts_with_verb(a, text("PING")) == starts_with_verb(b, text("PING")));
    assert(starts_with_verb(a, text("PONG")) == starts_with_verb(b, text("PONG")));
    assert(starts_with_verb(a, text("INFO")) == starts_with_verb(b, text("INFO")));
    assert(starts_with_verb(a, text("CONNECT")) == starts_with_verb(b, text("CONNECT")));
    assert(same_verb(x, text("+OK")) == same_verb(y, text("+OK")));
    assert(same_verb(x, text("-ERR")) == same_verb(y, text("-ERR")));
    assert(same_verb(x, text("SUB")) == same_verb(y, text("SUB")));
    assert(same_verb(x, text("UNSUB")) == same_verb(y, text("UNSUB")));
    assert(same_verb(x, text("PUB")) == same_verb(y, text("PUB")));
    assert(same_verb(x, text("HPUB")) == same_verb(y, text("HPUB")));
}

proof fn same_for_both(x: Seq<u8>, y: Seq<u8>, verb: Seq<u8>)
    requires
        x.len() == y.len(),
        forall|i: int| 0 <= i < x.len() ==> upper(#[trigger] x[i]) == upper(y[i]),
    ensures
        same_verb(x, verb) == same_verb(y, verb),
{
    if same_verb(x, verb) {
        assert forall|i: int| 0 <= i < y.len() implies upper(#[trigger] y[i]) == upper(verb[i]) by {
            assert(upper(x[i]) == upper(verb[i]));
        }
    }
    if same_verb(y, verb) {
        assert forall|i: int| 0 <= i < x.len() implies upper(#[trigger] x[i]) == upper(verb[i]) by {
            assert(upper(y[i]) == upper(verb[i]));
        }
    }
}

} // verus!
