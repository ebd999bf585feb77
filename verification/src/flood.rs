//! Flooding a server over raw sockets: what is sent, and how what comes back is counted.
//!
//! A publisher pushes frames that were encoded once; a subscriber steps over what the server
//! writes, counting messages. Neither does anything that a client does, so the rate that is
//! measured is the server's.
use vstd::prelude::*;
use vstd::utf8::{decode_utf8, valid_utf8};

use crate::chars::{
    a_decimal_is_a_number, begins_with, chars_of, number, number_value, string_of,
    trim, trim_both, Trim,
};
use crate::routing::{delivery, delivery_line, spaced, MsgView};
use crate::text::{
    ascii_text, crlf, decimal, decimal_round_trip, is_digit, same_bytes, text, LF, SPACE,
};
use crate::wire::{pub_bytes, pub_frame};

verus! {

// ------------------------------------------------------------------------ settings --

/// A setting that must be a number where it is given. The error names the setting and what
/// it was given as.
pub fn param(name: &str, value: Option<&str>, default: u64) -> (r: Result<u64, String>)
    ensures
        match value {
            None => r == Ok::<u64, String>(default),
            Some(v) => match number_value(v@, u64::MAX as nat) {
                Some(n) => r matches Ok(got) && got == n,
                None => r matches Err(e) && e@ == name@ + " is not a number: "@ + v@,
            },
        },
{
    match value {
        None => Ok(default),
        Some(v) => {
            let chars = chars_of(v);
            match number(&chars, u64::MAX) {
                Some(n) => Ok(n),
                None => {
                    let mut message = String::new();
                    message.append(name);
                    message.append(" is not a number: ");
                    message.append(v);
                    assert(message@ =~= name@ + " is not a number: "@ + v@);
                    Err(message)
                },
            }
        },
    }
}

/// A setting that falls back to its default where it is missing or no number.
pub fn setting_or(value: Option<&str>, default: u64) -> (r: u64)
    ensures
        r == match value {
            Some(v) => match number_value(v@, u64::MAX as nat) {
                Some(n) => n as u64,
                None => default,
            },
            None => default,
        },
{
    match value {
        Some(v) => {
            let chars = chars_of(v);
            match number(&chars, u64::MAX) {
                Some(n) => n,
                None => default,
            }
        },
        None => default,
    }
}

/// A server's address, without the scheme, however often that is written.
pub open spec fn without_scheme(s: Seq<char>) -> Seq<char>
    decreases s.len(),
{
    if "nats://"@.len() > 0 && "nats://"@.is_prefix_of(s) {
        without_scheme(s.skip("nats://"@.len() as int))
    } else {
        s
    }
}

/// The address of a server that is flooded where nothing else is said.
pub const DEFAULT_ADDR: &'static str = "127.0.0.1:4222";

/// The address to flood: a url that says something goes first, then the plain address.
pub open spec fn flooded_addr(url: Option<Seq<char>>, addr: Option<Seq<char>>) -> Seq<char> {
    match (url, addr) {
        (Some(u), _) if u.len() > 0 => without_scheme(u),
        (_, Some(a)) => a,
        (_, None) => DEFAULT_ADDR@,
    }
}

/// The address to flood: a url that says something goes first, then the plain address.
pub fn connect_addr(url: Option<&str>, addr: Option<&str>) -> (r: String)
    ensures
        r@ == match (url, addr) {
            (Some(u), _) if u@.len() > 0 => without_scheme(u@),
            (_, Some(a)) => a@,
            (_, None) => DEFAULT_ADDR@,
        },
        r@ == flooded_addr(
            match url {
                Some(u) => Some(u@),
                None => None,
            },
            match addr {
                Some(a) => Some(a@),
                None => None,
            },
        ),
{
    if let Some(u) = url {
        let chars = chars_of(u);
        if chars.len() > 0 {
            proof {
                reveal_strlit("nats://");
            }
            let mut i: usize = 0;
            assert(chars@.skip(0) =~= chars@);
            loop
                invariant
                    i <= chars@.len(),
                    chars@ == u@,
                    "nats://"@.len() == 7,
                    without_scheme(chars@.skip(i as int)) == without_scheme(u@),
                ensures
                    i <= chars@.len(),
                    chars@.skip(i as int) == without_scheme(u@),
                decreases chars@.len() - i,
            {
                let rest: &[char] = &chars.as_slice()[i..chars.len()];
                assert(rest@ =~= chars@.skip(i as int));
                if !begins_with(rest, "nats://") {
                    break;
                }
                assert(chars@.skip(i as int).skip(7) =~= chars@.skip(i + 7));
                i += 7;
            }
            let rest: &[char] = &chars.as_slice()[i..chars.len()];
            assert(rest@ =~= chars@.skip(i as int));
            return string_of(rest);
        }
    }
    let mut out = String::new();
    match addr {
        Some(a) => {
            out.append(a);
            assert(out@ =~= a@);
        },
        None => {
            out.append(DEFAULT_ADDR);
            assert(out@ =~= DEFAULT_ADDR@);
        },
    }
    out
}

// ------------------------------------------------------------------------- sending --

/// A body of one letter, over and over.
pub open spec fn filler(size: nat) -> Seq<u8> {
    Seq::new(size, |i: int| 0x78u8)
}

/// Frames, one after the other.
pub open spec fn repeated(frame: Seq<u8>, times: nat) -> Seq<u8>
    decreases times,
{
    if times == 0 {
        Seq::empty()
    } else {
        repeated(frame, (times - 1) as nat) + frame
    }
}

/// How many frames one write takes: as many as the wanted bytes hold, and at least one.
pub open spec fn frames_per_write(wanted: nat, frame_len: nat) -> nat {
    if frame_len == 0 || wanted / frame_len == 0 {
        1
    } else {
        wanted / frame_len
    }
}

/// What a publisher pushes: one frame, and the frame as often as one write takes it.
pub struct Flood {
    pub frame: Vec<u8>,
    pub per_chunk: usize,
    pub chunk: Vec<u8>,
}

pub(crate) proof fn repeated_len(frame: Seq<u8>, times: nat)
    ensures
        repeated(frame, times).len() == times * frame.len(),
    decreases times,
{
    if times > 0 {
        repeated_len(frame, (times - 1) as nat);
        assert(times * frame.len() == (times - 1) * frame.len() + frame.len()) by (nonlinear_arith)
            requires
                times > 0,
        ;
    } else {
        assert(times * frame.len() == 0) by (nonlinear_arith)
            requires
                times == 0,
        ;
    }
}

/// The front of repeated frames is fewer of them.
proof fn repeated_front(frame: Seq<u8>, few: nat, many: nat)
    requires
        few <= many,
    ensures
        few * frame.len() <= repeated(frame, many).len(),
        repeated(frame, many).take((few * frame.len()) as int) == repeated(frame, few),
    decreases many,
{
    repeated_len(frame, few);
    repeated_len(frame, many);
    if few == many {
        assert(repeated(frame, many).take((few * frame.len()) as int) =~= repeated(frame, few));
    } else {
        let less = (many - 1) as nat;
        repeated_len(frame, less);
        repeated_front(frame, few, less);
        let n = (few * frame.len()) as int;
        assert(repeated(frame, many).take(n) =~= repeated(frame, less).take(n));
    }
}

impl Flood {
    /// Does the chunk hold the frame, repeated?
    pub open spec fn wf(&self) -> bool {
        &&& self.per_chunk > 0
        &&& self.chunk@ == repeated(self.frame@, self.per_chunk as nat)
    }

    /// Encodes the frame once, and repeats it.
    pub fn new(subject: &str, size: usize, wanted: usize) -> (r: Flood)
        ensures
            r.wf(),
            r.frame@ == pub_bytes(text(subject), None, filler(size as nat)),
            r.per_chunk == frames_per_write(wanted as nat, r.frame@.len()),
    {
        let mut body: Vec<u8> = Vec::new();
        let mut i: usize = 0;
        assert(body@ =~= filler(0));
        while i < size
            invariant
                i <= size,
                body@ == filler(i as nat),
            decreases size - i,
        {
            body.push(0x78);
            i += 1;
            assert(body@ =~= filler(i as nat));
        }
        let frame = pub_frame(subject, None, body.as_slice());
        let fit = wanted / frame.len();
        let per_chunk: usize = if fit == 0 {
            1
        } else {
            fit
        };
        let mut chunk: Vec<u8> = Vec::new();
        let mut k: usize = 0;
        assert(chunk@ =~= repeated(frame@, 0));
        while k < per_chunk
            invariant
                k <= per_chunk,
                chunk@ == repeated(frame@, k as nat),
            decreases per_chunk - k,
        {
            chunk.extend_from_slice(frame.as_slice());
            k += 1;
            assert(chunk@ =~= repeated(frame@, k as nat));
        }
        Flood { frame, per_chunk, chunk }
    }

    /// How many frames the next write takes while some are left to send, and how many bytes
    /// of the chunk those are.
    pub fn next_write(&self, left: u64) -> (r: (usize, usize))
        requires
            self.wf(),
        ensures
            r.0 == if left < self.per_chunk {
                left as int
            } else {
                self.per_chunk as int
            },
            r.1 <= self.chunk@.len(),
            self.chunk@.take(r.1 as int) == repeated(self.frame@, r.0 as nat),
            r.1 == r.0 * self.frame@.len(),
    {
        let whole: usize = if left < self.per_chunk as u64 {
            left as usize
        } else {
            self.per_chunk
        };
        let total = self.chunk.len();
        let each = self.frame.len();
        proof {
            repeated_front(self.frame@, whole as nat, self.per_chunk as nat);
            assert(whole * each <= total);
        }
        (whole, whole * each)
    }
}

/// The frames that the writes of a flood send, from first to last.
pub open spec fn frames_sent(left: nat, per_chunk: nat) -> nat
    decreases left,
{
    if left == 0 || per_chunk == 0 {
        0
    } else if left < per_chunk {
        left
    } else {
        per_chunk + frames_sent((left - per_chunk) as nat, per_chunk)
    }
}

/// A flood sends every frame that it was asked for, once, whatever one write takes.
pub proof fn a_flood_sends_every_frame(msgs: nat, per_chunk: nat)
    requires
        per_chunk > 0,
    ensures
        frames_sent(msgs, per_chunk) == msgs,
    decreases msgs,
{
    if msgs >= per_chunk {
        a_flood_sends_every_frame((msgs - per_chunk) as nat, per_chunk);
    }
}

// ------------------------------------------------------------------------ counting --

/// Where a byte first stands.
pub open spec fn first_byte(s: Seq<u8>, b: u8) -> Option<int>
    decreases s.len(),
{
    if s.len() == 0 {
        None
    } else if s[0] == b {
        Some(0)
    } else {
        match first_byte(s.skip(1), b) {
            Some(i) => Some(i + 1),
            None => None,
        }
    }
}

/// What stands behind the last such byte, or all of it where there is none.
pub open spec fn after_last(s: Seq<u8>, b: u8) -> Seq<u8>
    decreases s.len(),
{
    if s.len() == 0 {
        s
    } else if s.last() == b {
        Seq::empty()
    } else {
        after_last(s.drop_last(), b).push(s.last())
    }
}

/// The first place of a byte is the one with no such byte before it.
pub(crate) proof fn first_byte_is(s: Seq<u8>, b: u8, at: int)
    requires
        0 <= at < s.len(),
        s[at] == b,
        forall|i: int| 0 <= i < at ==> #[trigger] s[i] != b,
    ensures
        first_byte(s, b) == Some(at),
    decreases at,
{
    if at > 0 {
        assert(s[0] != b);
        assert forall|i: int| 0 <= i < at - 1 implies #[trigger] s.skip(1)[i] != b by {
            assert(s.skip(1)[i] == s[i + 1]);
        }
        first_byte_is(s.skip(1), b, at - 1);
    }
}

/// Where a byte first stands.
fn find_byte(s: &[u8], b: u8) -> (r: Option<usize>)
    ensures
        match r {
            Some(i) => first_byte(s@, b) == Some(i as int) && i < s@.len(),
            None => first_byte(s@, b) is None,
        },
{
    let mut i: usize = 0;
    assert(s@.skip(0) =~= s@);
    while i < s.len()
        invariant
            i <= s@.len(),
            first_byte(s@, b) == match first_byte(s@.skip(i as int), b) {
                Some(k) => Some(k + i),
                None => None,
            },
        decreases s@.len() - i,
    {
        assert(s@.skip(i as int)[0] == s@[i as int]);
        if s[i] == b {
            return Some(i);
        }
        assert(s@.skip(i as int).skip(1) =~= s@.skip(i + 1));
        i += 1;
    }
    None
}

/// What stands behind the last byte that neither is nor follows another such.
proof fn after_last_is(s: Seq<u8>, b: u8, tail: Seq<u8>)
    requires
        forall|i: int| 0 <= i < tail.len() ==> #[trigger] tail[i] != b,
    ensures
        after_last(s.push(b) + tail, b) == tail,
    decreases tail.len(),
{
    let all = s.push(b) + tail;
    if tail.len() == 0 {
        assert(all.last() == b);
        assert(tail =~= Seq::empty());
    } else {
        assert(all.last() == tail[tail.len() - 1]);
        assert(all.drop_last() =~= s.push(b) + tail.drop_last());
        after_last_is(s, b, tail.drop_last());
        assert(tail.drop_last().push(tail.last()) =~= tail);
    }
}

/// What stands behind the last such byte.
fn behind_last(s: &[u8], b: u8) -> (r: &[u8])
    ensures
        r@ == after_last(s@, b),
{
    let mut n = s.len();
    while n > 0 && s[n - 1] != b
        invariant
            n <= s@.len(),
            forall|i: int| n <= i < s@.len() ==> #[trigger] s@[i] != b,
        decreases n,
    {
        n -= 1;
    }
    let r: &[u8] = &s[n..s.len()];
    proof {
        assert(r@ =~= s@.skip(n as int));
        if n > 0 {
            assert(s@ =~= s@.take(n - 1).push(b) + r@);
            after_last_is(s@.take(n - 1), b, r@);
        } else {
            assert(r@ =~= s@);
            none_is_whole(s@, b);
        }
    }
    r
}

proof fn none_is_whole(s: Seq<u8>, b: u8)
    requires
        forall|i: int| 0 <= i < s.len() ==> #[trigger] s[i] != b,
    ensures
        after_last(s, b) == s,
    decreases s.len(),
{
    if s.len() > 0 {
        assert(s.last() == s[s.len() - 1]);
        none_is_whole(s.drop_last(), b);
        assert(s.drop_last().push(s.last()) =~= s);
    }
}

/// `std::str::from_utf8` gives the text that the bytes encode, and an error where they
/// encode none.
#[verifier::external_body]
fn utf8_text(bytes: &[u8]) -> (r: Option<&str>)
    ensures
        match r {
            Some(s) => valid_utf8(bytes@) && s@ == decode_utf8(bytes@),
            None => !valid_utf8(bytes@),
        },
{
    std::str::from_utf8(bytes).ok()
}

/// What stands at the front of what the server wrote.
pub enum Frame {
    /// A delivered message: the length of the whole frame, so that it can be stepped over.
    Message(usize),
    /// `PING`: to be answered, or the server closes the connection as stale.
    Ping,
    /// `INFO`, `+OK`, `PONG`: bytes to step over.
    Skip(usize),
    /// No complete frame yet.
    NeedMore,
    /// `-ERR`, or a line that is no frame: the line, with its end.
    Refused(Vec<u8>),
}

/// A frame, with its bytes as a sequence.
#[verifier::ext_equal]
pub enum FrameView {
    Message(nat),
    Ping,
    Skip(nat),
    NeedMore,
    Refused(Seq<u8>),
}

impl View for Frame {
    type V = FrameView;

    open spec fn view(&self) -> FrameView {
        match self {
            Frame::Message(n) => FrameView::Message(*n as nat),
            Frame::Ping => FrameView::Ping,
            Frame::Skip(n) => FrameView::Skip(*n as nat),
            Frame::NeedMore => FrameView::NeedMore,
            Frame::Refused(line) => FrameView::Refused(line@),
        }
    }
}

/// The size that a delivery's control line ends with: the last of its fields, white space
/// round it taken off.
pub open spec fn declared(fields: Seq<u8>) -> Option<nat> {
    let last = after_last(fields, SPACE);
    if valid_utf8(last) {
        number_value(trim_both(Trim::Space, decode_utf8(last)), usize::MAX as nat)
    } else {
        None
    }
}

/// What stands at the front of `src`: a line, and the body that its last field announces
/// where it is a delivery. A line's last two bytes are its end.
pub open spec fn frame_at(src: Seq<u8>) -> FrameView {
    match first_byte(src, LF) {
        None => FrameView::NeedMore,
        Some(nl) => {
            let line = src.take(nl + 1);
            let body = src.take(if nl == 0 {
                0
            } else {
                nl - 1
            });
            let verb_len = match first_byte(body, SPACE) {
                Some(n) => n,
                None => body.len() as int,
            };
            let verb = body.take(verb_len);
            if verb == text("MSG") || verb == text("HMSG") {
                match declared(body.skip(verb_len)) {
                    None => FrameView::Refused(line),
                    Some(total) => if src.len() < nl + 1 + total + 2 {
                        FrameView::NeedMore
                    } else {
                        FrameView::Message((nl + 1 + total + 2) as nat)
                    },
                }
            } else if verb == text("PING") {
                FrameView::Ping
            } else if verb == text("-ERR") {
                FrameView::Refused(line)
            } else {
                FrameView::Skip((nl + 1) as nat)
            }
        },
    }
}

fn size_of_delivery(fields: &[u8]) -> (r: Option<usize>)
    ensures
        match r {
            Some(n) => declared(fields@) == Some(n as nat),
            None => declared(fields@) is None,
        },
{
    let last = behind_last(fields, SPACE);
    match utf8_text(last) {
        None => None,
        Some(s) => {
            let chars = chars_of(s);
            match number(trim(Trim::Space, chars.as_slice()), usize::MAX as u64) {
                Some(n) => Some(n as usize),
                None => None,
            }
        },
    }
}

/// A copy of some bytes.
fn copied(s: &[u8]) -> (r: Vec<u8>)
    ensures
        r@ == s@,
{
    let mut out: Vec<u8> = Vec::new();
    out.extend_from_slice(s);
    assert(out@ =~= s@);
    out
}

/// Decodes the frame at the front of `src`. The control line is scanned; the body is
/// skipped by arithmetic.
pub fn next_frame(src: &[u8]) -> (r: Frame)
    ensures
        r@ == frame_at(src@),
{
    let len = src.len();
    let nl = match find_byte(src, LF) {
        Some(nl) => nl,
        None => {
            return Frame::NeedMore;
        },
    };
    let line: &[u8] = &src[0..nl + 1];
    let body_len: usize = if nl == 0 {
        0
    } else {
        nl - 1
    };
    let body: &[u8] = &src[0..body_len];
    assert(line@ =~= src@.take(nl + 1));
    assert(body@ =~= src@.take(body_len as int));
    let verb_len: usize = match find_byte(body, SPACE) {
        Some(n) => n,
        None => body.len(),
    };
    let verb: &[u8] = &body[0..verb_len];
    let fields: &[u8] = &body[verb_len..body.len()];
    assert(verb@ =~= body@.take(verb_len as int));
    assert(fields@ =~= body@.skip(verb_len as int));
    if same_bytes(verb, "MSG".as_bytes()) || same_bytes(verb, "HMSG".as_bytes()) {
        match size_of_delivery(fields) {
            None => Frame::Refused(copied(line)),
            Some(total) => {
                let held: usize = len - nl - 1;
                if held < 2 || held - 2 < total {
                    Frame::NeedMore
                } else {
                    Frame::Message(nl + 1 + total + 2)
                }
            },
        }
    } else if same_bytes(verb, "PING".as_bytes()) {
        Frame::Ping
    } else if same_bytes(verb, "-ERR".as_bytes()) {
        Frame::Refused(copied(line))
    } else {
        Frame::Skip(nl + 1)
    }
}

/// The answer to a `PING` takes six bytes off what was read.
pub const PING_LEN: usize = 6;

/// Why a scan stopped.
pub enum ScanEnd {
    /// What is left is no whole frame.
    NeedMore,
    /// The last message that was waited for is there.
    Reached,
    /// The server refused something, in this line.
    Refused(Vec<u8>),
}

/// Why a scan stopped, with the bytes as a sequence.
#[verifier::ext_equal]
pub enum ScanEndView {
    NeedMore,
    Reached,
    Refused(Seq<u8>),
}

impl View for ScanEnd {
    type V = ScanEndView;

    open spec fn view(&self) -> ScanEndView {
        match self {
            ScanEnd::NeedMore => ScanEndView::NeedMore,
            ScanEnd::Reached => ScanEndView::Reached,
            ScanEnd::Refused(line) => ScanEndView::Refused(line@),
        }
    }
}

/// What a scan of what was read found.
pub struct Scan {
    /// How many bytes were stepped over.
    pub used: usize,
    /// How many of those were messages.
    pub message_bytes: usize,
    /// How many messages there were.
    pub messages: u64,
    /// How many `PING`s are to be answered.
    pub pings: u64,
    /// Why it stopped.
    pub end: ScanEnd,
}

/// What a scan finds, with numbers without bound.
#[verifier::ext_equal]
pub struct ScanView {
    pub used: nat,
    pub message_bytes: nat,
    pub messages: nat,
    pub pings: nat,
    pub end: ScanEndView,
}

impl View for Scan {
    type V = ScanView;

    open spec fn view(&self) -> ScanView {
        ScanView {
            used: self.used as nat,
            message_bytes: self.message_bytes as nat,
            messages: self.messages as nat,
            pings: self.pings as nat,
            end: self.end@,
        }
    }
}

/// A scan that finds nothing.
pub open spec fn nothing_found(end: ScanEndView) -> ScanView {
    ScanView { used: 0, message_bytes: 0, messages: 0, pings: 0, end }
}

/// What a scan finds in `src` while `left` more messages are waited for: frame after frame,
/// until one is not complete, the last message is there or the server refuses.
pub open spec fn scanned(src: Seq<u8>, left: nat) -> ScanView
    decreases src.len(),
{
    match frame_at(src) {
        FrameView::NeedMore => nothing_found(ScanEndView::NeedMore),
        FrameView::Refused(line) => nothing_found(ScanEndView::Refused(line)),
        FrameView::Message(n) => if left <= 1 || n == 0 || n > src.len() {
            ScanView {
                used: n,
                message_bytes: n,
                messages: 1,
                ..nothing_found(ScanEndView::Reached)
            }
        } else {
            let rest = scanned(src.skip(n as int), (left - 1) as nat);
            ScanView {
                used: n + rest.used,
                message_bytes: n + rest.message_bytes,
                messages: 1 + rest.messages,
                ..rest
            }
        },
        FrameView::Ping => if src.len() < PING_LEN {
            nothing_found(ScanEndView::NeedMore)
        } else {
            let rest = scanned(src.skip(PING_LEN as int), left);
            ScanView { used: PING_LEN as nat + rest.used, pings: 1 + rest.pings, ..rest }
        },
        FrameView::Skip(n) => if n == 0 || n > src.len() {
            nothing_found(ScanEndView::NeedMore)
        } else {
            let rest = scanned(src.skip(n as int), left);
            ScanView { used: n + rest.used, ..rest }
        },
    }
}

/// A frame is never longer than what it stands in.
pub(crate) proof fn frames_fit(src: Seq<u8>)
    ensures
        match frame_at(src) {
            FrameView::Message(n) => 0 < n <= src.len(),
            FrameView::Skip(n) => 0 < n <= src.len(),
            FrameView::Ping => src.len() >= PING_LEN,
            _ => true,
        },
{
    first_byte_fits(src, LF);
    if let Some(nl) = first_byte(src, LF) {
        let body = src.take(if nl == 0 {
            0
        } else {
            nl - 1
        });
        first_byte_fits(body, SPACE);
        reveal_strlit("PING");
        ascii_text("PING");
        assert(text("PING").len() == 4);
    }
}

pub(crate) proof fn first_byte_fits(s: Seq<u8>, b: u8)
    ensures
        first_byte(s, b) matches Some(i) ==> 0 <= i < s.len() && s[i] == b,
    decreases s.len(),
{
    if s.len() > 0 && s[0] != b {
        first_byte_fits(s.skip(1), b);
    }
}

/// What a scan has found so far, with what is found in the rest.
spec fn so_far(used: nat, message_bytes: nat, messages: nat, pings: nat, rest: ScanView) -> ScanView {
    ScanView {
        used: used + rest.used,
        message_bytes: message_bytes + rest.message_bytes,
        messages: messages + rest.messages,
        pings: pings + rest.pings,
        end: rest.end,
    }
}

/// Steps over what was read, frame after frame, counting messages and the `PING`s to be
/// answered, while `left` more messages are waited for.
pub fn scan(src: &[u8], left: u64) -> (r: Scan)
    ensures
        r@ == scanned(src@, left as nat),
        r.used <= src@.len(),
{
    let len = src.len();
    let mut used: usize = 0;
    let mut message_bytes: usize = 0;
    let mut messages: u64 = 0;
    let mut pings: u64 = 0;
    assert(src@.skip(0) =~= src@);
    loop
        invariant
            len == src@.len(),
            used <= len,
            message_bytes <= used,
            messages <= used,
            pings <= used,
            messages < left || messages == 0,
            so_far(
                used as nat,
                message_bytes as nat,
                messages as nat,
                pings as nat,
                scanned(src@.skip(used as int), (left - messages) as nat),
            ) == scanned(src@, left as nat),
        decreases len - used,
    {
        let rest: &[u8] = &src[used..len];
        assert(rest@ =~= src@.skip(used as int));
        proof {
            frames_fit(rest@);
        }
        match next_frame(rest) {
            Frame::Message(n) => {
                proof {
                    assert(rest@.skip(n as int) =~= src@.skip(used + n));
                }
                used += n;
                message_bytes += n;
                messages += 1;
                if messages >= left {
                    return Scan { used, message_bytes, messages, pings, end: ScanEnd::Reached };
                }
            },
            Frame::Ping => {
                assert(rest@.skip(PING_LEN as int) =~= src@.skip(used + PING_LEN));
                used += PING_LEN;
                pings += 1;
            },
            Frame::Skip(n) => {
                assert(rest@.skip(n as int) =~= src@.skip(used + n));
                used += n;
            },
            Frame::Refused(line) => {
                return Scan {
                    used,
                    message_bytes,
                    messages,
                    pings,
                    end: ScanEnd::Refused(line),
                };
            },
            Frame::NeedMore => {
                return Scan { used, message_bytes, messages, pings, end: ScanEnd::NeedMore };
            },
        }
    }
}

/// What a subscriber has read and not stepped over yet, and how many messages it waits for.
pub struct Tail {
    pub held: Vec<u8>,
    pub left: u64,
}

impl Tail {
    /// Takes what was read: steps over all that is complete, and keeps the rest.
    pub fn take(&mut self, segment: &[u8]) -> (r: Scan)
        ensures
            r@ == scanned(old(self).held@ + segment@, old(self).left as nat),
            final(self).held@ == (old(self).held@ + segment@).skip(r.used as int),
            final(self).left == if r.messages <= old(self).left {
                old(self).left - r.messages
            } else {
                0
            },
    {
        self.held.extend_from_slice(segment);
        assert(self.held@ =~= old(self).held@ + segment@);
        let found = scan(self.held.as_slice(), self.left);
        let rest = self.held.split_off(found.used);
        self.held = rest;
        assert(self.held@ =~= (old(self).held@ + segment@).skip(found.used as int));
        self.left = if found.messages <= self.left {
            self.left - found.messages
        } else {
            0
        };
        found
    }
}

/// What stands at the front stays what it is when more bytes come, once it is complete.
proof fn more_bytes_change_no_frame(a: Seq<u8>, b: Seq<u8>)
    requires
        !(frame_at(a) is NeedMore),
    ensures
        frame_at(a + b) == frame_at(a),
{
    first_byte_fits(a, LF);
    let nl = first_byte(a, LF)->Some_0;
    first_byte_stays(a, b, LF);
    let n = if nl == 0 {
        0
    } else {
        nl - 1
    };
    assert((a + b).take(nl + 1) =~= a.take(nl + 1));
    assert((a + b).take(n) =~= a.take(n));
}

proof fn first_byte_stays(a: Seq<u8>, b: Seq<u8>, x: u8)
    requires
        first_byte(a, x) is Some,
    ensures
        first_byte(a + b, x) == first_byte(a, x),
    decreases a.len(),
{
    assert((a + b)[0] == a[0]);
    if a[0] != x {
        first_byte_stays(a.skip(1), b, x);
        assert((a + b).skip(1) =~= a.skip(1) + b);
    }
}

/// Where a stream is cut between two reads makes no difference to what is counted.
pub proof fn a_cut_changes_no_count(a: Seq<u8>, b: Seq<u8>, left: nat)
    requires
        scanned(a, left).end is NeedMore,
    ensures
        ({
            let first = scanned(a, left);
            let then = scanned(a.skip(first.used as int) + b, (left - first.messages) as nat);
            &&& first.used <= a.len()
            &&& first.messages < left || first.messages == 0
            &&& scanned(a + b, left) == (ScanView {
                used: first.used + then.used,
                message_bytes: first.message_bytes + then.message_bytes,
                messages: first.messages + then.messages,
                pings: first.pings + then.pings,
                end: then.end,
            })
        }),
    decreases a.len(),
{
    frames_fit(a);
    match frame_at(a) {
        FrameView::NeedMore => {
            assert(a.skip(0) + b =~= a + b);
        },
        FrameView::Refused(_) => {},
        FrameView::Message(n) => {
            more_bytes_change_no_frame(a, b);
            if left > 1 {
                resumes(a, b, n as int);
                a_cut_changes_no_count(a.skip(n as int), b, (left - 1) as nat);
            }
        },
        FrameView::Ping => {
            more_bytes_change_no_frame(a, b);
            resumes(a, b, PING_LEN as int);
            a_cut_changes_no_count(a.skip(PING_LEN as int), b, left);
        },
        FrameView::Skip(n) => {
            more_bytes_change_no_frame(a, b);
            resumes(a, b, n as int);
            a_cut_changes_no_count(a.skip(n as int), b, left);
        },
    }
}

/// Skipping twice is skipping once.
proof fn resumes(a: Seq<u8>, b: Seq<u8>, n: int)
    requires
        0 <= n <= a.len(),
    ensures
        (a + b).skip(n) == a.skip(n) + b,
        forall|k: int| 0 <= k <= a.len() - n ==> #[trigger] a.skip(n).skip(k) == a.skip(n + k),
{
    assert((a + b).skip(n) =~= a.skip(n) + b);
    assert forall|k: int| 0 <= k <= a.len() - n implies #[trigger] a.skip(n).skip(k) == a.skip(
        n + k,
    ) by {
        assert(a.skip(n).skip(k) =~= a.skip(n + k));
    }
}

/// A sequence without a line end in it.
pub open spec fn one_line(s: Seq<u8>) -> bool {
    forall|i: int| 0 <= i < s.len() ==> #[trigger] s[i] != LF
}

proof fn one_line_of(a: Seq<u8>, b: Seq<u8>)
    requires
        one_line(a),
        one_line(b),
    ensures
        one_line(a + b),
        one_line(spaced(a)),
{
    assert forall|i: int| 0 <= i < (a + b).len() implies #[trigger] (a + b)[i] != LF by {
        if i < a.len() {
            assert((a + b)[i] == a[i]);
        } else {
            assert((a + b)[i] == b[i - a.len()]);
        }
    }
    assert forall|i: int| 0 <= i < spaced(a).len() implies #[trigger] spaced(a)[i] != LF by {
        if i > 0 {
            assert(spaced(a)[i] == a[i - 1]);
        }
    }
}

/// A control line that starts with a delivery's verb and ends with the size of the body.
proof fn line_and_body(verb: Seq<u8>, middle: Seq<u8>, body: Seq<u8>, rest: Seq<u8>)
    requires
        verb == text("MSG") || verb == text("HMSG"),
        one_line(verb),
        forall|i: int| 0 <= i < verb.len() ==> #[trigger] verb[i] != SPACE,
        one_line(middle),
        body.len() <= usize::MAX,
    ensures
        ({
            let line = verb + spaced(middle) + spaced(decimal(body.len()));
            frame_at(line + crlf() + body + crlf() + rest) == FrameView::Message(
                (line + crlf() + body + crlf()).len(),
            )
        }),
{
    let size = decimal(body.len());
    let line = verb + spaced(middle) + spaced(size);
    let all = line + crlf() + body + crlf() + rest;
    decimal_round_trip(body.len());
    assert forall|i: int| 0 <= i < size.len() implies #[trigger] size[i] != SPACE && size[i]
        != LF by {
        assert(is_digit(size[i]));
    }
    // The line end is the first one.
    one_line_of(middle, middle);
    one_line_of(size, size);
    one_line_of(verb, spaced(middle));
    one_line_of(verb + spaced(middle), spaced(size));
    let nl = line.len() as int + 1;
    assert(all[nl] == LF);
    assert forall|i: int| 0 <= i < nl implies #[trigger] all[i] != LF by {
        if i < line.len() {
            assert(all[i] == line[i]);
        }
    }
    first_byte_is(all, LF, nl);
    assert(all.take(nl - 1) =~= line);
    // The verb ends at the first space.
    let v = verb.len() as int;
    assert(line[v] == SPACE);
    assert forall|i: int| 0 <= i < v implies #[trigger] line[i] != SPACE by {
        assert(line[i] == verb[i]);
    }
    first_byte_is(line, SPACE, v);
    assert(line.take(v) =~= verb);
    // The last field is the size of the body.
    let fields = line.skip(v);
    assert(fields =~= spaced(middle).push(SPACE) + size);
    after_last_is(spaced(middle), SPACE, size);
    a_decimal_is_a_number(body.len());
    assert(declared(fields) == Some(body.len()));
}

/// A delivery that the server writes is counted as one message of its whole length, whatever
/// follows it. Its fields must hold no line end.
pub proof fn a_delivery_is_one_message(sid: Seq<u8>, headers: bool, msg: MsgView, rest: Seq<u8>)
    requires
        one_line(msg.subject),
        one_line(sid),
        msg.reply matches Some(r) ==> one_line(r),
        msg.body_for(headers).len() <= usize::MAX,
    ensures
        frame_at(delivery(sid, headers, msg) + rest) == FrameView::Message(
            delivery(sid, headers, msg).len(),
        ),
{
    let block = headers && msg.hdr > 0;
    let body = msg.body_for(headers);
    let verb = if block {
        text("HMSG")
    } else {
        text("MSG")
    };
    let reply = match msg.reply {
        Some(r) => spaced(r),
        None => Seq::empty(),
    };
    let hdr = if block {
        spaced(decimal(msg.hdr))
    } else {
        Seq::empty()
    };
    let middle = msg.subject + spaced(sid) + reply + hdr;
    assert(one_line(middle)) by {
        decimal_round_trip(msg.hdr);
        assert forall|i: int| 0 <= i < decimal(msg.hdr).len() implies #[trigger] decimal(msg.hdr)[i]
            != LF by {
            assert(is_digit(decimal(msg.hdr)[i]));
        }
        one_line_of(decimal(msg.hdr), Seq::empty());
        if let Some(r) = msg.reply {
            one_line_of(r, Seq::empty());
        }
        one_line_of(sid, Seq::empty());
        one_line_of(msg.subject, spaced(sid));
        one_line_of(msg.subject + spaced(sid), reply);
        one_line_of(msg.subject + spaced(sid) + reply, hdr);
    }
    delivery_verbs();
    line_and_body(verb, middle, body, rest);
    assert(delivery_line(sid, headers, msg) =~= verb + spaced(middle) + spaced(
        decimal(body.len()),
    ));
}

proof fn delivery_verbs()
    ensures
        text("MSG ") == text("MSG").push(SPACE),
        text("HMSG ") == text("HMSG").push(SPACE),
        text("MSG") == seq![0x4du8, 0x53u8, 0x47u8],
        text("HMSG") == seq![0x48u8, 0x4du8, 0x53u8, 0x47u8],
{
    reveal_strlit("MSG");
    reveal_strlit("HMSG");
    reveal_strlit("MSG ");
    reveal_strlit("HMSG ");
    ascii_text("MSG");
    ascii_text("HMSG");
    ascii_text("MSG ");
    ascii_text("HMSG ");
    assert(text("MSG ") =~= text("MSG").push(SPACE));
    assert(text("HMSG ") =~= text("HMSG").push(SPACE));
    assert(text("MSG") =~= seq![0x4du8, 0x53u8, 0x47u8]);
    assert(text("HMSG") =~= seq![0x48u8, 0x4du8, 0x53u8, 0x47u8]);
}

// --------------------------------------------------------------------- handshaking --

/// Do the bytes hold the others, one behind the other?
pub open spec fn holds_bytes(hay: Seq<u8>, needle: Seq<u8>) -> bool {
    exists|i: int|
        0 <= i <= hay.len() - needle.len() && #[trigger] hay.subrange(i, i + needle.len())
            == needle
}

/// Do the bytes hold the others, one behind the other?
pub fn contains(hay: &[u8], needle: &[u8]) -> (r: bool)
    ensures
        r == holds_bytes(hay@, needle@),
{
    let n = needle.len();
    let len = hay.len();
    if len < n {
        return false;
    }
    let mut i: usize = 0;
    while i <= len - n
        invariant
            n == needle@.len(),
            len == hay@.len(),
            n <= len,
            i <= len - n + 1,
            forall|k: int|
                0 <= k < i ==> #[trigger] hay@.subrange(k, k + needle@.len()) != needle@,
        decreases len - n + 1 - i,
    {
        let window: &[u8] = &hay[i..i + n];
        assert(window@ =~= hay@.subrange(i as int, i + needle@.len()));
        if same_bytes(window, needle) {
            return true;
        }
        if i == len - n {
            return false;
        }
        i += 1;
    }
    false
}

/// Does a server greet with these bytes?
pub fn is_greeting(segment: &[u8]) -> (r: bool)
    ensures
        r == (segment@.len() > 5 && segment@.take(5) == text("INFO ")),
{
    if segment.len() <= 5 {
        return false;
    }
    let head: &[u8] = &segment[0..5];
    assert(head@ =~= segment@.take(5));
    same_bytes(head, "INFO ".as_bytes())
}

/// What to do with what came back while a `PONG` is waited for.
#[derive(Debug, Clone, Copy, PartialEq, Eq, Structural)]
pub enum Handshake {
    /// The `PONG` is there.
    Done,
    /// The server asked for a `PONG` of its own: answer it, and read on.
    Answer,
    /// Read on.
    Wait,
}

/// How much is kept of what came before a `PONG`.
pub const MAX_SEEN: usize = 65536;

/// How much is kept of what came before the flood was read.
pub const MAX_DRAINED: usize = 1048576;

/// What to do with what came back while a `PONG` is waited for.
pub open spec fn handshake_of(all: Seq<u8>) -> Handshake {
    if holds_bytes(all, text("PONG")) {
        Handshake::Done
    } else if holds_bytes(all, text("PING\r")) {
        Handshake::Answer
    } else {
        Handshake::Wait
    }
}

/// Has the server read a flood that ended with a `PING`?
pub open spec fn drained_by(all: Seq<u8>) -> bool {
    holds_bytes(all, text("PONG\r")) || holds_bytes(all, text("+OK\r"))
}

/// Takes what came while a `PONG` is waited for. What was seen is forgotten once it is too
/// much.
pub fn expect_pong(seen: &mut Vec<u8>, segment: &[u8]) -> (r: Handshake)
    ensures
        ({
            let all = old(seen)@ + segment@;
            &&& r == if holds_bytes(all, text("PONG")) {
                Handshake::Done
            } else if holds_bytes(all, text("PING\r")) {
                Handshake::Answer
            } else {
                Handshake::Wait
            }
            &&& r == handshake_of(all)
            &&& final(seen)@ == if r != Handshake::Done && all.len() > MAX_SEEN {
                Seq::empty()
            } else {
                all
            }
        }),
{
    seen.extend_from_slice(segment);
    assert(seen@ =~= old(seen)@ + segment@);
    if contains(seen.as_slice(), "PONG".as_bytes()) {
        return Handshake::Done;
    }
    let asked = contains(seen.as_slice(), "PING\r".as_bytes());
    if seen.len() > MAX_SEEN {
        seen.clear();
    }
    if asked {
        Handshake::Answer
    } else {
        Handshake::Wait
    }
}

/// Takes what came behind a flood that ended with a `PING`. Says whether the server has read
/// all of it: its `PONG` is there, or a `+OK`.
pub fn is_drained(seen: &mut Vec<u8>, segment: &[u8]) -> (r: bool)
    ensures
        ({
            let all = old(seen)@ + segment@;
            &&& r == (holds_bytes(all, text("PONG\r")) || holds_bytes(all, text("+OK\r")))
            &&& r == drained_by(all)
            &&& final(seen)@ == if !r && all.len() > MAX_DRAINED {
                Seq::empty()
            } else {
                all
            }
        }),
{
    seen.extend_from_slice(segment);
    assert(seen@ =~= old(seen)@ + segment@);
    if contains(seen.as_slice(), "PONG\r".as_bytes()) || contains(
        seen.as_slice(),
        "+OK\r".as_bytes(),
    ) {
        return true;
    }
    if seen.len() > MAX_DRAINED {
        seen.clear();
    }
    false
}

/// Has the server read everything? A `PING` behind the last frame asks it.
#[derive(Debug, Clone, Copy, PartialEq, Eq, Structural)]
pub enum Receipt {
    /// It was not asked.
    Unasked,
    /// It was asked.
    Asked,
    /// It has answered.
    Given,
}

/// What happened to a publisher.
#[derive(Debug, Clone, Copy, PartialEq, Eq, Structural)]
pub enum PushEvent {
    /// It is ready to write.
    Ready,
    /// So many frames were written.
    Wrote(usize),
    /// The `PING` was written.
    Asked,
    /// Something came back.
    Heard(Handshake),
}

/// What a publisher does next.
#[derive(Debug, Clone, Copy, PartialEq, Eq, Structural)]
pub enum Push {
    /// Writes the front of the chunk: so many frames, and so many bytes.
    Frames(usize, usize),
    /// Writes a `PING`.
    Ping,
    /// Reads on for the `PONG`.
    Await,
    /// Ends: everything was written, and the server has read it.
    Done,
}

/// How far a publisher is.
#[derive(Debug, Clone, Copy, PartialEq, Eq, Structural)]
pub struct Publisher {
    /// How many frames are still to be written.
    pub left: u64,
    pub receipt: Receipt,
}

impl Publisher {
    /// How far the publisher is after an event. Only who has written everything can ask, and
    /// only an answer to that is a receipt.
    pub open spec fn noted(self, ev: PushEvent) -> Publisher {
        match ev {
            PushEvent::Ready => self,
            PushEvent::Wrote(frames) => Publisher {
                left: if frames <= self.left {
                    (self.left - frames) as u64
                } else {
                    0
                },
                ..self
            },
            PushEvent::Asked => if self.left == 0 && self.receipt == Receipt::Unasked {
                Publisher { receipt: Receipt::Asked, ..self }
            } else {
                self
            },
            PushEvent::Heard(h) => if self.receipt == Receipt::Asked && h == Handshake::Done {
                Publisher { receipt: Receipt::Given, ..self }
            } else {
                self
            },
        }
    }

    /// How far the publisher is after some events.
    pub open spec fn noted_all(self, events: Seq<PushEvent>) -> Publisher
        decreases events.len(),
    {
        if events.len() == 0 {
            self
        } else {
            self.noted_all(events.drop_last()).noted(events.last())
        }
    }

    /// A publisher that has written nothing of so many frames.
    pub fn new(frames: u64) -> (r: Publisher)
        ensures
            r == (Publisher { left: frames, receipt: Receipt::Unasked }),
    {
        Publisher { left: frames, receipt: Receipt::Unasked }
    }

    /// One event of the publisher.
    pub fn step(&mut self, flood: &Flood, ev: PushEvent) -> (r: Push)
        requires
            flood.wf(),
        ensures
            *final(self) == old(self).noted(ev),
            if final(self).left > 0 {
                &&& r matches Push::Frames(frames, bytes)
                &&& frames == if final(self).left < flood.per_chunk {
                    final(self).left as int
                } else {
                    flood.per_chunk as int
                }
                &&& bytes == frames * flood.frame@.len()
                &&& bytes <= flood.chunk@.len()
                &&& flood.chunk@.take(bytes as int) == repeated(flood.frame@, frames as nat)
            } else {
                r == match final(self).receipt {
                    Receipt::Unasked => Push::Ping,
                    Receipt::Asked => Push::Await,
                    Receipt::Given => Push::Done,
                }
            },
    {
        match ev {
            PushEvent::Ready => {},
            PushEvent::Wrote(frames) => {
                self.left = if frames as u64 <= self.left {
                    self.left - frames as u64
                } else {
                    0
                };
            },
            PushEvent::Asked => {
                if self.left == 0 && self.receipt == Receipt::Unasked {
                    self.receipt = Receipt::Asked;
                }
            },
            PushEvent::Heard(h) => {
                if self.receipt == Receipt::Asked && h == Handshake::Done {
                    self.receipt = Receipt::Given;
                }
            },
        }
        if self.left > 0 {
            let (frames, bytes) = flood.next_write(self.left);
            Push::Frames(frames, bytes)
        } else {
            match self.receipt {
                Receipt::Unasked => Push::Ping,
                Receipt::Asked => Push::Await,
                Receipt::Given => Push::Done,
            }
        }
    }
}

/// A publisher that is done has written every frame, and after that has asked, and after that
/// has been answered.
pub proof fn a_publisher_ends_with_an_answer(frames: u64, events: Seq<PushEvent>)
    ensures
        ({
            let end = (Publisher { left: frames, receipt: Receipt::Unasked }).noted_all(events);
            &&& end.receipt != Receipt::Unasked ==> end.left == 0 && exists|i: int|
                0 <= i < events.len() && #[trigger] asks(frames, events, i)
            &&& end.receipt == Receipt::Given ==> exists|i: int, j: int|
                0 <= i < j < events.len() && #[trigger] asks(frames, events, i)
                    && #[trigger] answers(events, j)
        }),
    decreases events.len(),
{
    if events.len() > 0 {
        let less = events.drop_last();
        let at = events.len() - 1;
        let start = Publisher { left: frames, receipt: Receipt::Unasked };
        a_publisher_ends_with_an_answer(frames, less);
        let before = start.noted_all(less);
        assert(less =~= events.take(at));
        assert forall|i: int| 0 <= i < at && #[trigger] asks(frames, less, i) implies asks(
            frames,
            events,
            i,
        ) by {
            assert(less.take(i) =~= events.take(i));
        }
        assert forall|j: int| 0 <= j < at && #[trigger] answers(less, j) implies answers(
            events,
            j,
        ) by {}
        if before.receipt == Receipt::Unasked && start.noted_all(events).receipt != Receipt::Unasked {
            assert(asks(frames, events, at));
        } else if before.receipt != Receipt::Unasked {
            let i = choose|i: int| 0 <= i < less.len() && #[trigger] asks(frames, less, i);
            assert(asks(frames, events, i));
            if before.receipt == Receipt::Given {
                let (i, j) = choose|i: int, j: int|
                    0 <= i < j < less.len() && #[trigger] asks(frames, less, i)
                        && #[trigger] answers(less, j);
                assert(asks(frames, events, i) && answers(events, j));
            } else if start.noted_all(events).receipt == Receipt::Given {
                assert(answers(events, at));
            }
        }
    }
}

/// Is that event the `PING`, with every frame written before it?
pub open spec fn asks(frames: u64, events: Seq<PushEvent>, i: int) -> bool {
    &&& events[i] is Asked
    &&& (Publisher { left: frames, receipt: Receipt::Unasked }).noted_all(events.take(i)).left == 0
}

/// Is that event the `PONG`?
pub open spec fn answers(events: Seq<PushEvent>, j: int) -> bool {
    events[j] == PushEvent::Heard(Handshake::Done)
}

// ------------------------------------------------------------------------ watching --

/// What to do while the subscriber is still getting ready.
#[derive(Debug, Clone, Copy, PartialEq, Eq, Structural)]
pub enum Start {
    /// It is ready, or is over and says itself why.
    Go,
    /// Look again.
    Wait,
    /// It took too long.
    Never,
    /// It died.
    Died,
}

/// What a look at a subscriber that is getting ready says.
pub open spec fn started(subscribed: bool, expired: bool, failed: bool, finished: bool) -> Start {
    if subscribed {
        Start::Go
    } else if expired {
        Start::Never
    } else if failed {
        Start::Died
    } else if finished {
        Start::Go
    } else {
        Start::Wait
    }
}

/// Looks at a subscriber that is getting ready.
pub fn start_step(subscribed: bool, expired: bool, failed: bool, finished: bool) -> (r: Start)
    ensures
        r == if subscribed {
            Start::Go
        } else if expired {
            Start::Never
        } else if failed {
            Start::Died
        } else if finished {
            Start::Go
        } else {
            Start::Wait
        },
        r == started(subscribed, expired, failed, finished),
{
    if subscribed {
        Start::Go
    } else if expired {
        Start::Never
    } else if failed {
        Start::Died
    } else if finished {
        Start::Go
    } else {
        Start::Wait
    }
}

/// The count of deliveries, watched until it stops moving.
pub struct Watch {
    /// How many deliveries there were when it last moved.
    pub last: u64,
    /// How many are waited for.
    pub wanted: u64,
}

/// What a look at the count says.
#[derive(Debug, Clone, Copy, PartialEq, Eq, Structural)]
pub struct Look {
    /// It has moved: the clock of the run stops here, so far.
    pub moved: bool,
    /// The run is over.
    pub over: bool,
}

impl Watch {
    /// What a look at the count says.
    pub open spec fn looked(self, now: u64, failed: bool, still: bool, overdue: bool) -> Look {
        let ended = now >= self.wanted || failed;
        Look {
            moved: !ended && now != self.last,
            over: ended || (now == self.last && still) || overdue,
        }
    }

    /// Looks at the count once everything was written. The run is over when all is delivered,
    /// when the subscriber failed, when the count stood still for too long, or when the run
    /// itself has taken too long.
    pub fn look(&mut self, now: u64, failed: bool, still: bool, overdue: bool) -> (r: Look)
        ensures
            ({
                let before = *old(self);
                let ended = now >= before.wanted || failed;
                &&& r.moved == (!ended && now != before.last)
                &&& r.over == (ended || (now == before.last && still) || overdue)
                &&& r == before.looked(now, failed, still, overdue)
                &&& final(self).wanted == before.wanted
                &&& final(self).last == if r.moved {
                    now
                } else {
                    before.last
                }
            }),
    {
        if now >= self.wanted || failed {
            return Look { moved: false, over: true };
        }
        if now != self.last {
            self.last = now;
            return Look { moved: true, over: overdue };
        }
        Look { moved: false, over: still || overdue }
    }
}

} // verus!
