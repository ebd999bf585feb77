//! Per-connection state: options, the outbound buffer, and what the two loops that
//! drive one connection decide.
//!
//! A connection is read by one loop, which runs the parser and executes the commands
//! strictly one after another: that is what makes per-publisher ordering real. It is
//! written by another, which drains a queue of frames that is counted in bytes, with
//! two thresholds: at three quarters the publishing side waits until the subscriber
//! drains, at the whole the subscriber is closed as a slow consumer and told nothing.
use bytes::Bytes;
use std::collections::{HashMap, VecDeque};
use vstd::prelude::*;

use crate::arena::Arena;
use crate::buf::{advance_bytes, bytes_from_vec, bytes_of};
use crate::config::MAX_PINGS_OUT;
use crate::json::{json_object, member_views, parse_object};
use crate::nuid::plus;
use crate::proto::{field_limit, STALE_CONNECTION};
use crate::routing::{build_frame, delivery, Interest, Msg, Registry, Sub, SubView};
use crate::text::{same_bytes, text};

verus! {

// ------------------------------------------------------------------------ frames --

/// One frame: everything the writer must put on the wire for one server statement,
/// laid out contiguously in one buffer.
#[derive(Clone)]
pub struct Frame(pub Bytes);

impl View for Frame {
    type V = Seq<u8>;

    open spec fn view(&self) -> Seq<u8> {
        bytes_of(self.0)
    }
}

/// What an error line says on the wire.
pub open spec fn err_line(message: Seq<u8>) -> Seq<u8> {
    text("-ERR '") + message + text("'\r\n")
}

impl Frame {
    /// A line the server says about a command: it carries its own line end.
    pub fn line(bytes: Bytes) -> (r: Frame)
        ensures
            r@ == bytes_of(bytes),
    {
        Frame(bytes)
    }

    /// The acknowledgement of a command, to a verbose client.
    pub fn ok() -> (r: Frame)
        ensures
            r@ == text("+OK\r\n"),
    {
        Frame::line(Bytes::from_static("+OK\r\n".as_bytes()))
    }

    /// An error line.
    pub fn err(message: &str) -> (r: Frame)
        ensures
            r@ == err_line(text(message)),
    {
        let mut line: Vec<u8> = Vec::new();
        line.extend_from_slice("-ERR '".as_bytes());
        line.extend_from_slice(message.as_bytes());
        line.extend_from_slice("'\r\n".as_bytes());
        assert(line@ =~= err_line(text(message)));
        Frame::line(bytes_from_vec(line))
    }

    /// The answer to a probe.
    pub fn pong() -> (r: Frame)
        ensures
            r@ == text("PONG\r\n"),
    {
        Frame::line(Bytes::from_static("PONG\r\n".as_bytes()))
    }

    /// A probe.
    pub fn ping() -> (r: Frame)
        ensures
            r@ == text("PING\r\n"),
    {
        Frame::line(Bytes::from_static("PING\r\n".as_bytes()))
    }

    fn len(&self) -> (r: usize)
        ensures
            r == self@.len(),
    {
        let bytes: &[u8] = &self.0;
        bytes.len()
    }
}

// ----------------------------------------------------------------------- options --

/// What CONNECT said. Absent keys keep their value, and the first three start out
/// true.
#[derive(Debug, Clone, Copy, PartialEq, Eq, Structural)]
pub struct Options {
    pub verbose: bool,
    pub pedantic: bool,
    pub echo: bool,
    pub headers: bool,
    pub no_responders: bool,
}

/// The options of a connection that has not said anything.
pub open spec fn default_options() -> Options {
    Options { verbose: true, pedantic: true, echo: true, headers: false, no_responders: false }
}

impl Default for Options {
    fn default() -> (r: Self)
        ensures
            r == default_options(),
    {
        Options { verbose: true, pedantic: true, echo: true, headers: false, no_responders: false }
    }
}

/// The value of the first member of that name.
pub open spec fn member_value(members: Seq<(Seq<char>, Option<bool>)>, key: Seq<char>) -> Option<
    bool,
>
    decreases members.len(),
{
    if members.len() == 0 {
        None
    } else if members[0].0 == key {
        members[0].1
    } else {
        member_value(members.skip(1), key)
    }
}

/// A flag after a CONNECT: what the object says where it says a boolean, else what it
/// was.
pub open spec fn flag_after(
    members: Seq<(Seq<char>, Option<bool>)>,
    key: Seq<char>,
    was: bool,
) -> bool {
    match member_value(members, key) {
        Some(b) => b,
        None => was,
    }
}

/// The options after a CONNECT whose object has these members.
pub open spec fn options_after(was: Options, members: Seq<(Seq<char>, Option<bool>)>) -> Options {
    Options {
        verbose: flag_after(members, "verbose"@, was.verbose),
        pedantic: flag_after(members, "pedantic"@, was.pedantic),
        echo: flag_after(members, "echo"@, was.echo),
        headers: flag_after(members, "headers"@, was.headers),
        no_responders: flag_after(members, "no_responders"@, was.no_responders),
    }
}

fn find_member(members: &Vec<(String, Option<bool>)>, key: &str) -> (r: Option<bool>)
    ensures
        r == member_value(member_views(members@), key@),
{
    let ghost all = member_views(members@);
    let wanted = key.to_owned();
    let mut i: usize = 0;
    assert(all.skip(0) =~= all);
    while i < members.len()
        invariant
            i <= members@.len(),
            wanted@ == key@,
            all == member_views(members@),
            member_value(all, key@) == member_value(all.skip(i as int), key@),
        decreases members@.len() - i,
    {
        assert(all.skip(i as int)[0] == all[i as int]);
        if members[i].0 == wanted {
            return members[i].1;
        }
        assert(all.skip(i as int).skip(1) =~= all.skip(i + 1));
        i += 1;
    }
    None
}

/// The five flags as one word.
pub open spec fn packed(o: Options) -> u64 {
    ((if o.verbose {
        1u64
    } else {
        0
    }) | (if o.pedantic {
        2u64
    } else {
        0
    }) | (if o.echo {
        4u64
    } else {
        0
    }) | (if o.headers {
        8u64
    } else {
        0
    }) | (if o.no_responders {
        16u64
    } else {
        0
    }))
}

/// The flags that a word holds.
pub open spec fn unpacked(word: u64) -> Options {
    Options {
        verbose: word & 1 != 0,
        pedantic: word & 2 != 0,
        echo: word & 4 != 0,
        headers: word & 8 != 0,
        no_responders: word & 16 != 0,
    }
}

/// Packing the flags and reading them back gives them back.
pub proof fn packing_keeps_the_flags(o: Options)
    ensures
        unpacked(packed(o)) == o,
{
    let (a, b, c, d, e) = (o.verbose, o.pedantic, o.echo, o.headers, o.no_responders);
    let v: u64 = if a { 1 } else { 0 };
    let p: u64 = if b { 2 } else { 0 };
    let c2: u64 = if c { 4 } else { 0 };
    let h: u64 = if d { 8 } else { 0 };
    let n: u64 = if e { 16 } else { 0 };
    let word: u64 = v | p | c2 | h | n;
    assert((word & 1 != 0) == (v == 1) && (word & 2 != 0) == (p == 2) && (word & 4 != 0) == (c2
        == 4) && (word & 8 != 0) == (h == 8) && (word & 16 != 0) == (n == 16)) by (bit_vector)
        requires
            word == v | p | c2 | h | n,
            v == 0 || v == 1,
            p == 0 || p == 2,
            c2 == 0 || c2 == 4,
            h == 0 || h == 8,
            n == 0 || n == 16,
    ;
}

impl Options {
    /// The five flags as one word.
    pub fn pack(&self) -> (r: u64)
        ensures
            r == packed(*self),
    {
        let v: u64 = if self.verbose { 1 } else { 0 };
        let p: u64 = if self.pedantic { 2 } else { 0 };
        let e: u64 = if self.echo { 4 } else { 0 };
        let h: u64 = if self.headers { 8 } else { 0 };
        let n: u64 = if self.no_responders { 16 } else { 0 };
        v | p | e | h | n
    }

    /// The flags that a word holds.
    pub fn unpack(word: u64) -> (r: Options)
        ensures
            r == unpacked(word),
    {
        Options {
            verbose: word & 1 != 0,
            pedantic: word & 2 != 0,
            echo: word & 4 != 0,
            headers: word & 8 != 0,
            no_responders: word & 16 != 0,
        }
    }

    /// Applies the members of one CONNECT object. Keys that are no option are ignored,
    /// and so are values that are no boolean; a key that is absent keeps its value.
    pub fn apply_members(&mut self, members: &Vec<(String, Option<bool>)>)
        ensures
            *final(self) == options_after(*old(self), member_views(members@)),
    {
        if let Some(b) = find_member(members, "verbose") {
            self.verbose = b;
        }
        if let Some(b) = find_member(members, "pedantic") {
            self.pedantic = b;
        }
        if let Some(b) = find_member(members, "echo") {
            self.echo = b;
        }
        if let Some(b) = find_member(members, "headers") {
            self.headers = b;
        }
        if let Some(b) = find_member(members, "no_responders") {
            self.no_responders = b;
        }
    }

    /// Applies one CONNECT object. `false` means that the options could not be read at
    /// all, because the text is no JSON object: nothing changes, and the connection is
    /// to be closed with nothing said.
    pub fn apply_connect(&mut self, json: &[u8]) -> (r: bool)
        ensures
            r == (json_object(json@) is Some),
            *final(self) == match json_object(json@) {
                Some(members) => options_after(*old(self), members),
                None => *old(self),
            },
    {
        match parse_object(json) {
            Some(members) => {
                self.apply_members(&members);
                true
            },
            None => false,
        }
    }
}

/// Is `json` a JSON object? An INFO from a client must carry one.
pub fn info_is_an_object(json: &[u8]) -> (r: bool)
    ensures
        r == (json_object(json@) is Some),
{
    match parse_object(json) {
        Some(_) => true,
        None => false,
    }
}

/// A CONNECT that names none of the five flags changes none of them: an empty object,
/// or one with only unknown keys.
pub proof fn absent_keys_keep_their_value(was: Options, members: Seq<(Seq<char>, Option<bool>)>)
    requires
        forall|i: int| #![trigger members[i]]
            0 <= i < members.len() ==> members[i].0 != "verbose"@ && members[i].0 != "pedantic"@
                && members[i].0 != "echo"@ && members[i].0 != "headers"@ && members[i].0
                != "no_responders"@,
    ensures
        options_after(was, members) == was,
    decreases members.len(),
{
    if members.len() > 0 {
        let rest = members.skip(1);
        assert forall|i: int| #![trigger rest[i]] 0 <= i < rest.len() implies rest[i].0
            != "verbose"@ && rest[i].0 != "pedantic"@ && rest[i].0 != "echo"@ && rest[i].0
            != "headers"@ && rest[i].0 != "no_responders"@ by {
            assert(rest[i] == members[i + 1]);
        }
        assert(members[0].0 != "verbose"@);
        absent_keys_keep_their_value(was, rest);
    }
}

// ------------------------------------------------------------------------- outbox --

/// The outcome of queueing a frame for a connection.
#[derive(Debug, Clone, Copy, PartialEq, Eq, Structural)]
pub enum Enqueue {
    /// Queued.
    Queued,
    /// Queued, but the connection crossed the stall threshold: the publisher waits for
    /// room before its next message.
    SoftLimit,
    /// Queued nothing: the connection is over its limit and is going away.
    SlowConsumer,
    /// The connection is closed; the frame was dropped.
    Dropped,
}

/// Stop collecting frames into one batch at this many bytes: it bounds how long one
/// write can hold the writer, not memory.
pub const MAX_BATCH_BYTES: usize = 262144;

/// Never hand the kernel more buffers than it takes in one write.
pub const MAX_BATCH_PARTS: usize = 1000;

/// Several byte strings, one after the other.
pub open spec fn flat(parts: Seq<Seq<u8>>) -> Seq<u8>
    decreases parts.len(),
{
    if parts.len() == 0 {
        Seq::empty()
    } else {
        parts[0] + flat(parts.skip(1))
    }
}

/// What waits to be written to one connection.
#[verifier::ext_equal]
pub struct OutboxView {
    /// Frames that the writer has not taken yet.
    pub queue: Seq<Seq<u8>>,
    /// What is left of the frames that the writer has taken.
    pub batch: Seq<Seq<u8>>,
    /// The bytes that count against the limits.
    pub pending: nat,
    /// The limit.
    pub hard: nat,
    /// Nothing more can be queued: the connection is closed.
    pub gone: bool,
}

impl OutboxView {
    /// The stall threshold.
    pub open spec fn soft(self) -> nat {
        self.hard / 4 * 3
    }

    /// Everything that is still to go out, in order.
    pub open spec fn unsent(self) -> Seq<u8> {
        flat(self.batch) + flat(self.queue)
    }

    /// Room to queue another frame; or nothing left to wait for, which counts as room:
    /// the alternative is a publisher parked on a corpse.
    pub open spec fn room(self) -> bool {
        self.gone || self.pending <= self.soft()
    }

    /// No more waits than the limit, and what waits is what is counted; a closed
    /// outbox counts nothing.
    pub open spec fn wf(self) -> bool {
        &&& self.unsent().len() <= self.hard
        &&& self.pending == if self.gone {
            0
        } else {
            self.unsent().len()
        }
    }

    /// What happens to a frame of that length.
    pub open spec fn outcome(self, len: nat) -> Enqueue {
        if self.gone {
            Enqueue::Dropped
        } else if self.pending + len > self.hard {
            Enqueue::SlowConsumer
        } else if self.pending + len > self.soft() {
            Enqueue::SoftLimit
        } else {
            Enqueue::Queued
        }
    }

    /// The outbox after an attempt to queue a frame: a frame that does not fit, or
    /// comes too late, leaves no trace.
    pub open spec fn pushed(self, frame: Seq<u8>) -> OutboxView {
        match self.outcome(frame.len()) {
            Enqueue::Queued | Enqueue::SoftLimit => OutboxView {
                queue: self.queue.push(frame),
                pending: self.pending + frame.len(),
                ..self
            },
            _ => self,
        }
    }

    /// The outbox after bytes have gone: a closed one counts nothing any more.
    pub open spec fn drained(self, bytes: nat) -> OutboxView {
        if self.gone {
            self
        } else {
            OutboxView { pending: (self.pending - bytes) as nat, ..self }
        }
    }

    /// Does that drain bring the outbox back under the stall threshold?
    pub open spec fn drain_wakes(self, bytes: nat) -> bool {
        !self.gone && self.pending > self.soft() && self.pending - bytes <= self.soft()
    }

    /// How many of the batch's bytes are gone when the kernel says that it took `n`. A batch
    /// that was dropped meanwhile has none left to count.
    pub open spec fn taken(self, n: nat) -> nat {
        if n <= flat(self.batch).len() {
            n
        } else {
            flat(self.batch).len()
        }
    }

    /// The outbox after the kernel has taken bytes of the batch.
    pub open spec fn wrote(self, n: nat) -> OutboxView {
        OutboxView { batch: consumed(self.batch, self.taken(n)), ..self.drained(self.taken(n)) }
    }

    /// The outbox after the connection has closed. A soft close leaves what is queued
    /// to be written; a hard close drops it.
    pub open spec fn closed(self, hard: bool) -> OutboxView {
        OutboxView {
            queue: if hard {
                Seq::empty()
            } else {
                self.queue
            },
            batch: if hard {
                Seq::empty()
            } else {
                self.batch
            },
            pending: 0,
            hard: self.hard,
            gone: true,
        }
    }
}

/// Moves the first frame of a queue into a batch; an empty one is not worth a buffer.
pub open spec fn moved_one(queue: Seq<Seq<u8>>, batch: Seq<Seq<u8>>) -> (
    Seq<Seq<u8>>,
    Seq<Seq<u8>>,
) {
    if queue.len() == 0 {
        (queue, batch)
    } else {
        (
            queue.skip(1),
            if queue[0].len() == 0 {
                batch
            } else {
                batch.push(queue[0])
            },
        )
    }
}

/// Moves frames into a batch until it is full or the queue is empty. The limits are
/// looked at after each frame.
pub open spec fn moved_more(queue: Seq<Seq<u8>>, batch: Seq<Seq<u8>>) -> (
    Seq<Seq<u8>>,
    Seq<Seq<u8>>,
)
    decreases queue.len(),
{
    if queue.len() == 0 {
        (queue, batch)
    } else {
        let (q, b) = moved_one(queue, batch);
        if b.len() >= MAX_BATCH_PARTS || flat(b).len() >= MAX_BATCH_BYTES {
            (q, b)
        } else {
            moved_more(q, b)
        }
    }
}

/// The outbox after the writer has taken its next batch: the first frame, whatever its
/// size, and as many more as the limits let it.
pub open spec fn collected(out: OutboxView) -> OutboxView {
    let (q1, b1) = moved_one(out.queue, out.batch);
    let (q2, b2) = moved_more(q1, b1);
    OutboxView { queue: q2, batch: b2, ..out }
}

pub(crate) proof fn flat_push(parts: Seq<Seq<u8>>, x: Seq<u8>)
    ensures
        flat(parts.push(x)) == flat(parts) + x,
    decreases parts.len(),
{
    if parts.len() == 0 {
        reveal_with_fuel(flat, 2);
        assert(parts.push(x).skip(1) =~= Seq::<Seq<u8>>::empty());
        assert(flat(parts.push(x)) =~= x);
        assert(flat(parts) + x =~= x);
    } else {
        assert(parts.push(x).skip(1) =~= parts.skip(1).push(x));
        flat_push(parts.skip(1), x);
        assert(flat(parts.push(x)) =~= flat(parts) + x);
    }
}

proof fn moving_one_keeps_order(queue: Seq<Seq<u8>>, batch: Seq<Seq<u8>>)
    ensures
        ({
            let (q, b) = moved_one(queue, batch);
            flat(b) + flat(q) == flat(batch) + flat(queue)
        }),
{
    if queue.len() > 0 {
        let (q, b) = moved_one(queue, batch);
        flat_push(batch, queue[0]);
        assert(flat(b) + flat(q) =~= flat(batch) + flat(queue));
    }
}

proof fn moving_more_keeps_order(queue: Seq<Seq<u8>>, batch: Seq<Seq<u8>>)
    ensures
        ({
            let (q, b) = moved_more(queue, batch);
            flat(b) + flat(q) == flat(batch) + flat(queue)
        }),
    decreases queue.len(),
{
    if queue.len() > 0 {
        moving_one_keeps_order(queue, batch);
        let (q, b) = moved_one(queue, batch);
        if b.len() >= MAX_BATCH_PARTS || flat(b).len() >= MAX_BATCH_BYTES {
        } else {
            moving_more_keeps_order(q, b);
        }
    }
}

/// Taking a batch reorders nothing and loses nothing: what is still to go out is the
/// same bytes in the same order.
pub proof fn a_batch_keeps_the_order(out: OutboxView)
    ensures
        collected(out).unsent() == out.unsent(),
{
    let (q1, b1) = moved_one(out.queue, out.batch);
    moving_one_keeps_order(out.queue, out.batch);
    moving_more_keeps_order(q1, b1);
}

/// Queueing appends: whatever was still to go out goes out before the new frame, and
/// that frame whole or not at all.
pub proof fn a_frame_goes_out_last(out: OutboxView, frame: Seq<u8>)
    ensures
        out.pushed(frame).unsent() == match out.outcome(frame.len()) {
            Enqueue::Queued | Enqueue::SoftLimit => out.unsent() + frame,
            _ => out.unsent(),
        },
        out.wf() ==> out.pushed(frame).wf(),
{
    flat_push(out.queue, frame);
    assert(flat(out.batch) + (flat(out.queue) + frame) =~= out.unsent() + frame);
}

/// What the kernel takes is the front of what is still to go out; the rest stays, in order.
pub proof fn a_write_sends_the_front(out: OutboxView, n: nat)
    ensures
        out.wrote(n).unsent() == out.unsent().skip(out.taken(n) as int),
        out.wf() ==> out.wrote(n).wf(),
{
    consuming_drops_the_front(out.batch, out.taken(n));
    assert(out.wrote(n).unsent() =~= out.unsent().skip(out.taken(n) as int));
}

/// A closed outbox has room: nobody waits on it.
pub proof fn a_closed_outbox_has_room(out: OutboxView, hard: bool)
    ensures
        out.closed(hard).room(),
        out.wf() ==> out.closed(hard).wf(),
        hard ==> out.closed(hard).unsent() == Seq::<u8>::empty(),
        !hard ==> out.closed(hard).unsent() == out.unsent(),
{
    if hard {
        assert(out.closed(hard).unsent() =~= Seq::<u8>::empty());
    }
}

/// The bytes of several frames.
pub open spec fn frame_views(frames: Seq<Frame>) -> Seq<Seq<u8>> {
    Seq::new(frames.len(), |i: int| frames[i]@)
}

/// The bytes of several buffers.
pub open spec fn part_views(parts: Seq<Bytes>) -> Seq<Seq<u8>> {
    Seq::new(parts.len(), |i: int| bytes_of(parts[i]))
}

/// What is left of some buffers when `n` bytes at the front have gone: whole buffers go, and
/// the one that ends midway is split.
pub open spec fn consumed(parts: Seq<Seq<u8>>, n: nat) -> Seq<Seq<u8>>
    decreases parts.len(),
{
    if n == 0 || parts.len() == 0 {
        parts
    } else if parts[0].len() <= n {
        consumed(parts.skip(1), (n - parts[0].len()) as nat)
    } else {
        seq![parts[0].skip(n as int)] + parts.skip(1)
    }
}

/// What is left is the bytes that have not gone, in order.
pub proof fn consuming_drops_the_front(parts: Seq<Seq<u8>>, n: nat)
    requires
        n <= flat(parts).len(),
    ensures
        flat(consumed(parts, n)) == flat(parts).skip(n as int),
    decreases parts.len(),
{
    if n == 0 || parts.len() == 0 {
        assert(flat(parts).skip(n as int) =~= flat(parts));
    } else if parts[0].len() <= n {
        let k = parts[0].len();
        consuming_drops_the_front(parts.skip(1), (n - k) as nat);
        assert(flat(parts).skip(n as int) =~= flat(parts.skip(1)).skip(n - k));
    } else {
        let left = seq![parts[0].skip(n as int)] + parts.skip(1);
        assert(left.skip(1) =~= parts.skip(1));
        assert(flat(left) =~= flat(parts).skip(n as int));
    }
}

/// Drops `n` bytes from the front of `parts`, splitting the buffer that ends midway.
/// What remains is shared, not copied.
pub fn consume(parts: &mut VecDeque<Bytes>, n: usize)
    ensures
        part_views(final(parts)@) == consumed(part_views(old(parts)@), n as nat),
{
    let ghost all = part_views(parts@);
    let mut left: usize = n;
    while left > 0
        invariant
            all == part_views(old(parts)@),
            consumed(part_views(parts@), left as nat) == consumed(all, n as nat),
        ensures
            part_views(parts@) == consumed(all, n as nat),
        decreases left, parts@.len(),
    {
        let ghost before = part_views(parts@);
        match parts.pop_front() {
            None => {
                assert(before =~= part_views(parts@));
                break;
            },
            Some(front) => {
                let bytes: &[u8] = &front;
                let len = bytes.len();
                assert(before.skip(1) =~= part_views(parts@));
                assert(before[0] == bytes@);
                if len <= left {
                    left = left - len;
                } else {
                    let mut front = front;
                    advance_bytes(&mut front, left);
                    let ghost tail = part_views(parts@);
                    parts.push_front(front);
                    assert(part_views(parts@) =~= seq![bytes@.skip(left as int)] + tail);
                    left = 0;
                }
            },
        }
    }
}

/// The outbound queue of one connection.
pub struct Outbox {
    queue: VecDeque<Frame>,
    batch: VecDeque<Bytes>,
    batch_bytes: usize,
    pending: usize,
    soft: usize,
    hard: usize,
    gone: bool,
    arena: Arena,
}

impl View for Outbox {
    type V = OutboxView;

    closed spec fn view(&self) -> OutboxView {
        OutboxView {
            queue: frame_views(self.queue@),
            batch: part_views(self.batch@),
            pending: self.pending as nat,
            hard: self.hard as nat,
            gone: self.gone,
        }
    }
}

impl Outbox {
    /// The counters say what the queues hold.
    pub closed spec fn wf(&self) -> bool {
        &&& self@.wf()
        &&& self.soft == self@.soft()
        &&& self.batch_bytes == flat(part_views(self.batch@)).len()
        &&& self.arena@ == Seq::<u8>::empty()
        &&& self.arena.chunk_size() == crate::arena::CHUNK
    }

    /// An empty outbox that takes up to `max_pending` bytes.
    pub fn new(max_pending: u64) -> (r: Outbox)
        ensures
            r.wf(),
            r@ == (OutboxView {
                queue: Seq::empty(),
                batch: Seq::empty(),
                pending: 0,
                hard: (max_pending as usize) as nat,
                gone: false,
            }),
    {
        let hard: usize = max_pending as usize;
        let r = Outbox {
            queue: VecDeque::new(),
            batch: VecDeque::new(),
            batch_bytes: 0,
            pending: 0,
            soft: hard / 4 * 3,
            hard,
            gone: false,
            arena: Arena::new(),
        };
        assert(frame_views(r.queue@) =~= Seq::empty());
        assert(part_views(r.batch@) =~= Seq::empty());
        assert(flat(part_views(r.batch@)) =~= Seq::empty());
        assert(r@.unsent() =~= Seq::empty());
        r
    }

    /// Accounts for a frame and hands it to the writer, if it fits.
    pub fn enqueue(&mut self, frame: Frame) -> (r: Enqueue)
        requires
            old(self).wf(),
        ensures
            final(self).wf(),
            final(self)@ == old(self)@.pushed(frame@),
            r == old(self)@.outcome(frame@.len()),
    {
        proof {
            a_frame_goes_out_last(self@, frame@);
        }
        if self.gone {
            return Enqueue::Dropped;
        }
        let len = frame.len();
        if len > self.hard - self.pending {
            return Enqueue::SlowConsumer;
        }
        let ghost was = self.queue@;
        self.pending = self.pending + len;
        self.queue.push_back(frame);
        assert(frame_views(self.queue@) =~= frame_views(was).push(frame@));
        if self.pending > self.soft {
            Enqueue::SoftLimit
        } else {
            Enqueue::Queued
        }
    }

    /// Queues a delivery. The frame is laid out in this connection's own arena, in the
    /// order in which the writer will hand the frames to the kernel.
    pub fn deliver(&mut self, sub: &Interest, headers: bool, msg: &Msg) -> (r: Enqueue)
        requires
            old(self).wf(),
            msg@.fits(),
            sub@.sid.len() <= field_limit(),
        ensures
            final(self).wf(),
            final(self)@ == old(self)@.pushed(delivery(sub@.sid, headers, msg@)),
            r == old(self)@.outcome(delivery(sub@.sid, headers, msg@).len()),
    {
        if self.gone {
            return Enqueue::Dropped;
        }
        let frame = build_frame(&mut self.arena, sub, headers, msg);
        self.enqueue(frame)
    }

    /// The bytes that count against the limits.
    pub fn pending(&self) -> (r: usize)
        ensures
            r == self@.pending,
    {
        self.pending
    }

    /// Accounts for bytes that have gone. Says whether that brought the outbox back
    /// under its stall threshold, so that whoever waits for room is to be woken.
    fn drained(&mut self, bytes: usize) -> (r: bool)
        requires
            old(self).gone || bytes <= old(self).pending,
        ensures
            final(self)@ == old(self)@.drained(bytes as nat),
            r == (!old(self).gone && old(self).pending > old(self).soft && old(self).pending - bytes
                <= old(self).soft),
            final(self).queue == old(self).queue,
            final(self).batch == old(self).batch,
            final(self).batch_bytes == old(self).batch_bytes,
            final(self).soft == old(self).soft,
            final(self).arena == old(self).arena,
    {
        if self.gone {
            return false;
        }
        let was = self.pending;
        self.pending = was - bytes;
        was > self.soft && self.pending <= self.soft
    }

    /// Room to queue another frame, or nothing left to wait for.
    pub fn room(&self) -> (r: bool)
        requires
            self.wf(),
        ensures
            r == self@.room(),
    {
        self.gone || self.pending <= self.soft
    }

    /// Called when the connection goes away. A publisher that waits for room from a
    /// dead subscriber must not wait for a drain that will never come, so the counter
    /// goes with the queue.
    pub fn no_more_writes(&mut self, hard: bool)
        requires
            old(self).wf(),
        ensures
            final(self).wf(),
            final(self)@ == old(self)@.closed(hard),
    {
        proof {
            a_closed_outbox_has_room(self@, hard);
        }
        self.gone = true;
        self.pending = 0;
        if hard {
            self.queue.clear();
            self.batch.clear();
            self.batch_bytes = 0;
            assert(frame_views(self.queue@) =~= Seq::empty());
            assert(part_views(self.batch@) =~= Seq::empty());
            assert(flat(part_views(self.batch@)) =~= Seq::empty());
        }
    }

    /// Takes the first frame of the queue into the batch.
    fn take_one(&mut self)
        requires
            old(self).wf(),
            old(self).queue@.len() > 0,
        ensures
            final(self).wf(),
            final(self)@ == ({
                let (q, b) = moved_one(old(self)@.queue, old(self)@.batch);
                OutboxView { queue: q, batch: b, ..old(self)@ }
            }),
            final(self).queue@.len() < old(self).queue@.len(),
    {
        let ghost queue = self@.queue;
        let ghost batch = self@.batch;
        proof {
            moving_one_keeps_order(queue, batch);
        }
        if let Some(frame) = self.queue.pop_front() {
            assert(queue.skip(1) =~= frame_views(self.queue@));
            let len = frame.len();
            proof {
                flat_push(batch, frame@);
                assert(queue[0] == frame@);
            }
            if len > 0 {
                self.batch_bytes = self.batch_bytes + len;
                self.batch.push_back(frame.0);
                assert(part_views(self.batch@) =~= batch.push(frame@));
            }
        }
    }

    /// Takes the writer's next batch: the first frame and as many more as fit. To be
    /// asked when the last batch is out.
    pub fn collect(&mut self)
        requires
            old(self).wf(),
        ensures
            final(self).wf(),
            final(self)@ == collected(old(self)@),
    {
        if self.queue.len() == 0 {
            return;
        }
        self.take_one();
        let ghost (q1, b1) = moved_one(old(self)@.queue, old(self)@.batch);
        let mut more = true;
        while more && self.queue.len() > 0
            invariant
                self.wf(),
                self@ == (OutboxView { queue: self@.queue, batch: self@.batch, ..old(self)@ }),
                (q1, b1) == moved_one(old(self)@.queue, old(self)@.batch),
                if more {
                    moved_more(self@.queue, self@.batch) == moved_more(q1, b1)
                } else {
                    (self@.queue, self@.batch) == moved_more(q1, b1)
                },
            decreases self.queue@.len(),
        {
            self.take_one();
            if self.batch.len() >= MAX_BATCH_PARTS || self.batch_bytes >= MAX_BATCH_BYTES {
                more = false;
            }
        }
        assert(self@.queue.len() == self.queue@.len());
    }

    /// How many bytes of the batch are still to go out.
    pub fn batch_bytes(&self) -> (r: usize)
        requires
            self.wf(),
        ensures
            r == flat(self@.batch).len(),
    {
        self.batch_bytes
    }

    /// The buffers of the batch, to hand to the kernel.
    pub fn batch(&self) -> (r: Vec<Bytes>)
        ensures
            part_views(r@) == self@.batch,
    {
        let mut out: Vec<Bytes> = Vec::new();
        let mut i: usize = 0;
        while i < self.batch.len()
            invariant
                i <= self.batch@.len(),
                part_views(out@) == part_views(self.batch@).take(i as int),
            decreases self.batch@.len() - i,
        {
            let ghost was = out@;
            out.push(self.batch[i].clone());
            assert(part_views(out@) =~= part_views(was).push(bytes_of(self.batch@[i as int])));
            assert(part_views(out@) =~= part_views(self.batch@).take(i + 1));
            i += 1;
        }
        assert(part_views(self.batch@).take(i as int) =~= part_views(self.batch@));
        out
    }

    /// The kernel has taken `n` bytes of the batch, or all that is left of it where that is
    /// less. Says whether a publisher that waits for room is to be woken.
    pub fn written(&mut self, n: usize) -> (r: bool)
        requires
            old(self).wf(),
        ensures
            final(self).wf(),
            final(self)@ == old(self)@.wrote(n as nat),
            r == old(self)@.drain_wakes(old(self)@.taken(n as nat)),
    {
        let n = if n <= self.batch_bytes {
            n
        } else {
            self.batch_bytes
        };
        proof {
            consuming_drops_the_front(self@.batch, n as nat);
            a_write_sends_the_front(self@, n as nat);
        }
        consume(&mut self.batch, n);
        self.batch_bytes = self.batch_bytes - n;
        self.drained(n)
    }

    /// The writer gives up on its batch: what is left of it will not go out. Says
    /// whether a publisher that waits for room is to be woken.
    pub fn abandon(&mut self) -> (r: bool)
        requires
            old(self).wf(),
        ensures
            final(self).wf(),
            final(self)@ == (OutboxView {
                batch: Seq::empty(),
                ..old(self)@.drained(flat(old(self)@.batch).len())
            }),
            r == old(self)@.drain_wakes(flat(old(self)@.batch).len()),
    {
        let bytes = self.batch_bytes;
        self.batch.clear();
        self.batch_bytes = 0;
        assert(part_views(self.batch@) =~= Seq::empty());
        assert(flat(part_views(self.batch@)) =~= Seq::empty());
        let woken = self.drained(bytes);
        assert(self@.unsent() =~= flat(self@.queue));
        woken
    }

    /// Nothing is left to write and nothing more can come: the writer is done.
    pub fn finished(&self) -> (r: bool)
        ensures
            r == (self@.gone && self@.queue.len() == 0 && self@.batch.len() == 0),
    {
        self.gone && self.queue.len() == 0 && self.batch.len() == 0
    }
}

// --------------------------------------------------------------------- connections --

/// The subscriptions of a list, by the client's id for them.
pub open spec fn subs_by_id(list: Seq<Sub>) -> Map<Seq<u8>, SubView> {
    Map::new(
        |sid: Seq<u8>| exists|k: int| 0 <= k < list.len() && #[trigger] list[k]@.sid == sid,
        |sid: Seq<u8>|
            list[choose|k: int| 0 <= k < list.len() && #[trigger] list[k]@.sid == sid]@,
    )
}

spec fn ids_differ(list: Seq<Sub>) -> bool {
    forall|j: int, k: int|
        0 <= j < k < list.len() ==> #[trigger] list[j]@.sid != #[trigger] list[k]@.sid
}

proof fn id_finds(list: Seq<Sub>, k: int)
    requires
        ids_differ(list),
        0 <= k < list.len(),
    ensures
        subs_by_id(list).contains_key(list[k]@.sid),
        subs_by_id(list)[list[k]@.sid] == list[k]@,
{
    let sid = list[k]@.sid;
    let j = choose|j: int| 0 <= j < list.len() && #[trigger] list[j]@.sid == sid;
    assert(list[j]@.sid == sid);
}

/// The subscriptions of one connection, by the client's id for them. An id stays taken
/// until the client gives it back.
pub struct Subs {
    list: Vec<Sub>,
}

impl View for Subs {
    type V = Map<Seq<u8>, SubView>;

    closed spec fn view(&self) -> Map<Seq<u8>, SubView> {
        subs_by_id(self.list@)
    }
}

impl Subs {
    /// No id is held twice.
    pub closed spec fn wf(&self) -> bool {
        ids_differ(self.list@)
    }

    /// No subscriptions.
    pub fn new() -> (r: Subs)
        ensures
            r.wf(),
            r@ == Map::<Seq<u8>, SubView>::empty(),
    {
        let r = Subs { list: Vec::new() };
        assert(r@ =~= Map::<Seq<u8>, SubView>::empty());
        r
    }

    fn find(&self, sid: &[u8]) -> (r: Option<usize>)
        requires
            self.wf(),
        ensures
            match r {
                Some(k) => k < self.list@.len() && self.list@[k as int]@.sid == sid@,
                None => !self@.contains_key(sid@),
            },
    {
        let mut k: usize = 0;
        while k < self.list.len()
            invariant
                k <= self.list@.len(),
                forall|j: int| 0 <= j < k ==> (#[trigger] self.list@[j])@.sid != sid@,
            decreases self.list@.len() - k,
        {
            if same_bytes(&self.list[k].sid, sid) {
                return Some(k);
            }
            k += 1;
        }
        None
    }

    /// Does the connection hold a subscription under that id?
    pub fn contains(&self, sid: &[u8]) -> (r: bool)
        requires
            self.wf(),
        ensures
            r == self@.contains_key(sid@),
    {
        match self.find(sid) {
            Some(k) => {
                proof {
                    id_finds(self.list@, k as int);
                }
                true
            },
            None => false,
        }
    }

    /// Takes a subscription under an id that is free.
    pub fn insert(&mut self, sub: Sub)
        requires
            old(self).wf(),
            !old(self)@.contains_key(sub@.sid),
        ensures
            final(self).wf(),
            final(self)@ == old(self)@.insert(sub@.sid, sub@),
    {
        let ghost was = self.list@;
        self.list.push(sub);
        proof {
            let now = self.list@;
            assert forall|j: int, k: int| 0 <= j < k < now.len() implies #[trigger] now[j]@.sid
                != #[trigger] now[k]@.sid by {
                assert(now[j] == was[j]);
                if k == was.len() {
                    assert(was[j]@.sid != sub@.sid);
                } else {
                    assert(now[k] == was[k]);
                }
            }
            assert forall|sid: Seq<u8>| subs_by_id(now).contains_key(sid) == subs_by_id(was).insert(
                sub@.sid,
                sub@,
            ).contains_key(sid) by {
                if subs_by_id(was).contains_key(sid) {
                    let k = choose|k: int| 0 <= k < was.len() && #[trigger] was[k]@.sid == sid;
                    assert(now[k]@.sid == sid);
                }
                if sid == sub@.sid {
                    assert(now[was.len() as int]@.sid == sid);
                }
                if subs_by_id(now).contains_key(sid) {
                    let k = choose|k: int| 0 <= k < now.len() && #[trigger] now[k]@.sid == sid;
                    if k < was.len() {
                        assert(was[k]@.sid == sid);
                    }
                }
            }
            assert forall|sid: Seq<u8>| subs_by_id(now).contains_key(sid) implies subs_by_id(
                now,
            )[sid] == subs_by_id(was).insert(sub@.sid, sub@)[sid] by {
                let k = choose|k: int| 0 <= k < now.len() && #[trigger] now[k]@.sid == sid;
                id_finds(now, k);
                if k < was.len() {
                    id_finds(was, k);
                    assert(was[k]@.sid == sid);
                }
            }
            assert(subs_by_id(now) =~= subs_by_id(was).insert(sub@.sid, sub@));
        }
    }

    /// `UNSUB sid max`: bounds the subscription, or takes it out and hands back what the
    /// registry is to forget. An id that nothing is held under is not an error.
    pub fn unsubscribe(&mut self, sid: &[u8], max: i64) -> (r: Option<Interest>)
        requires
            old(self).wf(),
        ensures
            final(self).wf(),
            final(self)@ == unsubscribed(old(self)@, sid@, max as int),
            r is Some == (old(self)@.contains_key(sid@) && !old(self)@[sid@].can_take(max as int)),
            r matches Some(i) ==> i@ == old(self)@[sid@].interest(),
    {
        let k = match self.find(sid) {
            Some(k) => k,
            None => {
                return None;
            },
        };
        let ghost was = self.list@;
        proof {
            id_finds(was, k as int);
        }
        let sub: &mut Sub = &mut self.list[k];
        let gone = sub.set_limit(max);
        let ghost now = self.list@;
        proof {
            assert(now =~= was.update(k as int, now[k as int]));
            update_by_id(was, k as int, now[k as int]);
        }
        if !gone {
            return None;
        }
        let sub = self.list.remove(k);
        proof {
            remove_by_id(now, k as int);
            assert(subs_by_id(was).insert(sid@, now[k as int]@).remove(sid@) =~= subs_by_id(
                was,
            ).remove(sid@));
        }
        Some(Interest::from_sub(sub))
    }

    /// Counts a delivery to the subscription under that id. Says whether it is spent.
    pub fn account(&mut self, sid: &[u8]) -> (r: bool)
        requires
            old(self).wf(),
        ensures
            final(self).wf(),
            final(self)@ == counted_at(old(self)@, sid@),
            r == (old(self)@.contains_key(sid@) && old(self)@[sid@].counted().spent()),
    {
        let k = match self.find(sid) {
            Some(k) => k,
            None => {
                return false;
            },
        };
        let ghost was = self.list@;
        proof {
            id_finds(was, k as int);
        }
        let sub: &mut Sub = &mut self.list[k];
        let spent = sub.account();
        let ghost now = self.list@;
        proof {
            assert(now =~= was.update(k as int, now[k as int]));
            update_by_id(was, k as int, now[k as int]);
        }
        spent
    }

    /// Drops them all.
    pub fn clear(&mut self)
        ensures
            final(self).wf(),
            final(self)@ == Map::<Seq<u8>, SubView>::empty(),
    {
        self.list.clear();
        assert(self@ =~= Map::<Seq<u8>, SubView>::empty());
    }
}

/// A connection's subscriptions after `UNSUB sid max`.
pub open spec fn unsubscribed(
    subs: Map<Seq<u8>, SubView>,
    sid: Seq<u8>,
    max: int,
) -> Map<Seq<u8>, SubView> {
    if !subs.contains_key(sid) {
        subs
    } else if subs[sid].can_take(max) {
        subs.insert(sid, subs[sid].limited(max))
    } else {
        subs.remove(sid)
    }
}

/// A connection's subscriptions after a delivery to one of them.
pub open spec fn counted_at(subs: Map<Seq<u8>, SubView>, sid: Seq<u8>) -> Map<Seq<u8>, SubView> {
    if subs.contains_key(sid) {
        subs.insert(sid, subs[sid].counted())
    } else {
        subs
    }
}

proof fn update_by_id(list: Seq<Sub>, k: int, sub: Sub)
    requires
        ids_differ(list),
        0 <= k < list.len(),
        sub@.sid == list[k]@.sid,
    ensures
        ids_differ(list.update(k, sub)),
        subs_by_id(list.update(k, sub)) == subs_by_id(list).insert(sub@.sid, sub@),
{
    let now = list.update(k, sub);
    assert forall|i: int| 0 <= i < now.len() implies #[trigger] now[i]@.sid == list[i]@.sid by {}
    assert forall|i: int, j: int| 0 <= i < j < now.len() implies #[trigger] now[i]@.sid
        != #[trigger] now[j]@.sid by {
        assert(list[i]@.sid != list[j]@.sid);
    }
    assert forall|sid: Seq<u8>| subs_by_id(now).contains_key(sid) == subs_by_id(list).insert(
        sub@.sid,
        sub@,
    ).contains_key(sid) by {
        if subs_by_id(list).contains_key(sid) {
            let j = choose|j: int| 0 <= j < list.len() && #[trigger] list[j]@.sid == sid;
            assert(now[j]@.sid == sid);
        }
        if sid == sub@.sid {
            assert(now[k]@.sid == sid);
        }
        if subs_by_id(now).contains_key(sid) {
            let j = choose|j: int| 0 <= j < now.len() && #[trigger] now[j]@.sid == sid;
            assert(list[j]@.sid == sid);
        }
    }
    assert forall|sid: Seq<u8>| subs_by_id(now).contains_key(sid) implies subs_by_id(now)[sid]
        == subs_by_id(list).insert(sub@.sid, sub@)[sid] by {
        let j = choose|j: int| 0 <= j < now.len() && #[trigger] now[j]@.sid == sid;
        id_finds(now, j);
        id_finds(list, j);
        if j != k {
            assert(now[k]@.sid != sid) by {
                if j < k {
                    assert(now[j]@.sid != now[k]@.sid);
                } else {
                    assert(now[k]@.sid != now[j]@.sid);
                }
            }
        }
    }
    assert(subs_by_id(now) =~= subs_by_id(list).insert(sub@.sid, sub@));
}

proof fn remove_by_id(list: Seq<Sub>, k: int)
    requires
        ids_differ(list),
        0 <= k < list.len(),
    ensures
        ids_differ(list.remove(k)),
        subs_by_id(list.remove(k)) == subs_by_id(list).remove(list[k]@.sid),
{
    let now = list.remove(k);
    let at = |i: int|
        if i < k {
            i
        } else {
            i + 1
        };
    assert forall|i: int| 0 <= i < now.len() implies #[trigger] now[i] == list[at(i)] by {}
    assert forall|i: int, j: int| 0 <= i < j < now.len() implies #[trigger] now[i]@.sid
        != #[trigger] now[j]@.sid by {
        assert(list[at(i)]@.sid != list[at(j)]@.sid);
    }
    assert forall|sid: Seq<u8>| subs_by_id(now).contains_key(sid) == subs_by_id(list).remove(
        list[k]@.sid,
    ).contains_key(sid) by {
        if subs_by_id(list).contains_key(sid) && sid != list[k]@.sid {
            let j = choose|j: int| 0 <= j < list.len() && #[trigger] list[j]@.sid == sid;
            if j < k {
                assert(now[j]@.sid == sid);
            } else {
                assert(now[j - 1]@.sid == sid);
            }
        }
        if subs_by_id(now).contains_key(sid) {
            let j = choose|j: int| 0 <= j < now.len() && #[trigger] now[j]@.sid == sid;
            assert(list[at(j)]@.sid == sid);
            if at(j) < k {
                assert(list[at(j)]@.sid != list[k]@.sid);
            } else {
                assert(list[k]@.sid != list[at(j)]@.sid);
            }
        }
    }
    assert forall|sid: Seq<u8>| subs_by_id(now).contains_key(sid) implies subs_by_id(now)[sid]
        == subs_by_id(list).remove(list[k]@.sid)[sid] by {
        let j = choose|j: int| 0 <= j < now.len() && #[trigger] now[j]@.sid == sid;
        id_finds(now, j);
        id_finds(list, at(j));
    }
    assert(subs_by_id(now) =~= subs_by_id(list).remove(list[k]@.sid));
}

/// One connection, as the rest of the library sees it.
#[verifier::ext_equal]
pub struct ConnView {
    pub cid: u64,
    /// What CONNECT said.
    pub opts: Options,
    /// The subscriptions, by the client's id for them.
    pub subs: Map<Seq<u8>, SubView>,
    /// What waits to be written.
    pub out: OutboxView,
    pub closed: bool,
    /// Why it closed.
    pub reason: Option<Seq<char>>,
    /// Probes sent with no answer back.
    pub pings: u64,
    /// The close was one that drops what is queued.
    pub hard: bool,
}

impl ConnView {
    /// A connection that has said nothing.
    pub open spec fn fresh(cid: u64, max_pending: u64) -> ConnView {
        ConnView {
            cid,
            opts: default_options(),
            subs: Map::empty(),
            out: OutboxView {
                queue: Seq::empty(),
                batch: Seq::empty(),
                pending: 0,
                hard: (max_pending as usize) as nat,
                gone: false,
            },
            closed: false,
            reason: None,
            pings: 0,
            hard: false,
        }
    }

    /// The connection after an attempt to queue a frame for it.
    pub open spec fn pushed(self, frame: Seq<u8>) -> ConnView {
        ConnView { out: self.out.pushed(frame), ..self }
    }

    /// The connection after it has ended: a second end changes nothing.
    pub open spec fn finished(self, reason: Seq<char>, hard: bool) -> ConnView {
        if self.closed {
            self
        } else {
            ConnView {
                subs: Map::empty(),
                out: self.out.closed(hard),
                closed: true,
                reason: Some(reason),
                hard,
                ..self
            }
        }
    }

    /// No more waits than may wait, what is closed counts nothing, and only what is closed
    /// was closed hard.
    pub open spec fn wf(self) -> bool {
        self.out.wf() && self.closed == self.out.gone && (self.hard ==> self.closed)
    }
}

/// Why a subscriber whose buffer filled was closed.
pub const SLOW_CONSUMER_REASON: &'static str = "slow consumer: max_pending exceeded";

/// Why a client that answered no probe was closed.
pub const STALE_REASON: &'static str = "stale connection";

/// One client connection.
pub struct Conn {
    cid: u64,
    out: Outbox,
    /// CONNECT's flags, packed.
    flags: u64,
    subs: Subs,
    closed: bool,
    reason: Option<String>,
    pings_out: u64,
    hard: bool,
}

impl View for Conn {
    type V = ConnView;

    closed spec fn view(&self) -> ConnView {
        ConnView {
            cid: self.cid,
            opts: unpacked(self.flags),
            subs: self.subs@,
            out: self.out@,
            closed: self.closed,
            reason: match self.reason {
                Some(r) => Some(r@),
                None => None,
            },
            pings: self.pings_out,
            hard: self.hard,
        }
    }
}

impl Conn {
    /// The parts are sound.
    pub closed spec fn wf(&self) -> bool {
        &&& self.out.wf()
        &&& self.subs.wf()
        &&& self.closed == self.out@.gone
        &&& self.hard ==> self.closed
    }

    /// What a sound connection keeps.
    pub proof fn sound(&self)
        requires
            self.wf(),
        ensures
            self@.wf(),
    {
    }

    /// A connection that has said nothing.
    pub fn new(cid: u64, max_pending: u64) -> (r: Conn)
        ensures
            r.wf(),
            r@ == ConnView::fresh(cid, max_pending),
    {
        proof {
            packing_keeps_the_flags(default_options());
        }
        Conn {
            cid,
            out: Outbox::new(max_pending),
            flags: Options::default().pack(),
            subs: Subs::new(),
            closed: false,
            reason: None,
            pings_out: 0,
            hard: false,
        }
    }

    /// The number that the server gave the connection.
    pub fn cid(&self) -> (r: u64)
        ensures
            r == self@.cid,
    {
        self.cid
    }

    /// What CONNECT said.
    pub fn opts(&self) -> (r: Options)
        ensures
            r == self@.opts,
    {
        Options::unpack(self.flags)
    }

    /// Only the connection's own commands call this.
    pub fn set_opts(&mut self, opts: Options)
        requires
            old(self).wf(),
        ensures
            final(self).wf(),
            final(self)@ == (ConnView { opts, ..old(self)@ }),
    {
        proof {
            packing_keeps_the_flags(opts);
        }
        self.flags = opts.pack();
    }

    /// Does the connection want its own messages back?
    pub fn echo(&self) -> (r: bool)
        ensures
            r == self@.opts.echo,
    {
        self.flags & 4 != 0
    }

    /// Did the connection ask for header blocks?
    pub fn supports_headers(&self) -> (r: bool)
        ensures
            r == self@.opts.headers,
    {
        self.flags & 8 != 0
    }

    /// Has it ended?
    pub fn is_closed(&self) -> (r: bool)
        ensures
            r == self@.closed,
    {
        self.closed
    }

    /// Has it ended in a way that drops what is queued?
    pub fn hard_closed(&self) -> (r: bool)
        ensures
            r == self@.hard,
    {
        self.hard
    }

    /// Are the two the same connection?
    pub fn is_same(&self, other: &Conn) -> (r: bool)
        ensures
            r == (self@.cid == other@.cid),
    {
        self.cid == other.cid
    }

    /// Room to queue another frame, or nothing left to wait for.
    pub fn has_room(&self) -> (r: bool)
        requires
            self.wf(),
        ensures
            r == self@.out.room(),
    {
        self.out.room()
    }

    /// Why it ended.
    pub fn reason(&self) -> (r: Option<String>)
        ensures
            (match r {
                Some(x) => Some(x@),
                None => None,
            }) == self@.reason,
    {
        match &self.reason {
            Some(x) => Some(x.clone()),
            None => None,
        }
    }

    /// What waits to be written.
    pub fn outbox(&self) -> (r: &Outbox)
        requires
            self.wf(),
        ensures
            r.wf(),
            r@ == self@.out,
    {
        &self.out
    }

    /// Queues a frame.
    pub fn enqueue(&mut self, frame: Frame) -> (r: Enqueue)
        requires
            old(self).wf(),
        ensures
            final(self).wf(),
            final(self)@ == old(self)@.pushed(frame@),
            r == old(self)@.out.outcome(frame@.len()),
    {
        if self.closed {
            return Enqueue::Dropped;
        }
        self.out.enqueue(frame)
    }

    /// Queues one subscriber's copy of one message.
    pub fn deliver(&mut self, sub: &Interest, msg: &Msg) -> (r: Enqueue)
        requires
            old(self).wf(),
            msg@.fits(),
            sub@.sid.len() <= field_limit(),
        ensures
            final(self).wf(),
            final(self)@ == old(self)@.pushed(
                delivery(sub@.sid, old(self)@.opts.headers, msg@),
            ),
            r == old(self)@.out.outcome(
                delivery(sub@.sid, old(self)@.opts.headers, msg@).len(),
            ),
    {
        if self.closed {
            return Enqueue::Dropped;
        }
        let headers = self.supports_headers();
        self.out.deliver(sub, headers, msg)
    }

    /// Says nothing and hangs up: what happens to a subscriber whose buffer filled.
    pub fn close_slow_consumer(&mut self, registry: &mut Registry)
        requires
            old(self).wf(),
            old(registry).wf(),
        ensures
            final(self).wf(),
            final(registry).wf(),
            final(registry).rng() == old(registry).rng(),
            final(self)@ == old(self)@.finished(SLOW_CONSUMER_REASON@, true),
            final(registry)@ == if old(self)@.closed {
                old(registry)@
            } else {
                old(registry)@.without_conn(old(self)@.cid)
            },
    {
        self.close_now(registry, SLOW_CONSUMER_REASON.to_owned());
    }

    /// Ends the connection, letting whatever is already queued go out first. This is the
    /// path that a connection takes for itself: protocol error, end of stream, staleness.
    pub fn close(&mut self, registry: &mut Registry, reason: String)
        requires
            old(self).wf(),
            old(registry).wf(),
        ensures
            final(self).wf(),
            final(registry).wf(),
            final(registry).rng() == old(registry).rng(),
            final(self)@ == old(self)@.finished(reason@, false),
            final(registry)@ == if old(self)@.closed {
                old(registry)@
            } else {
                old(registry)@.without_conn(old(self)@.cid)
            },
    {
        self.finish(registry, reason, false);
    }

    /// Ends the connection at once: what is queued is dropped.
    pub fn close_now(&mut self, registry: &mut Registry, reason: String)
        requires
            old(self).wf(),
            old(registry).wf(),
        ensures
            final(self).wf(),
            final(registry).wf(),
            final(registry).rng() == old(registry).rng(),
            final(self)@ == old(self)@.finished(reason@, true),
            final(registry)@ == if old(self)@.closed {
                old(registry)@
            } else {
                old(registry)@.without_conn(old(self)@.cid)
            },
    {
        self.finish(registry, reason, true);
    }

    fn finish(&mut self, registry: &mut Registry, reason: String, hard: bool)
        requires
            old(self).wf(),
            old(registry).wf(),
        ensures
            final(self).wf(),
            final(registry).wf(),
            final(registry).rng() == old(registry).rng(),
            final(self)@ == old(self)@.finished(reason@, hard),
            final(registry)@ == if old(self)@.closed {
                old(registry)@
            } else {
                old(registry)@.without_conn(old(self)@.cid)
            },
    {
        if self.closed {
            return;
        }
        self.closed = true;
        self.reason = Some(reason);
        self.hard = hard;
        // Unregister first: a closed connection must not keep interest alive.
        registry.remove_conn(self.cid);
        self.subs.clear();
        self.out.no_more_writes(hard);
    }

    /// Probes sent with no answer back.
    pub fn pings_out(&self) -> (r: u64)
        ensures
            r == self@.pings,
    {
        self.pings_out
    }

    /// One more probe is out.
    pub fn note_ping_sent(&mut self)
        requires
            old(self).wf(),
        ensures
            final(self).wf(),
            final(self)@ == (ConnView { pings: plus(old(self)@.pings, 1), ..old(self)@ }),
    {
        self.pings_out = self.pings_out.wrapping_add(1);
    }

    /// An answer came: every probe counts as answered.
    pub fn note_pong(&mut self)
        requires
            old(self).wf(),
        ensures
            final(self).wf(),
            final(self)@ == (ConnView { pings: 0, ..old(self)@ }),
    {
        self.pings_out = 0;
    }

    /// The keepalive timer has fired: probes the client, or gives up on one that left
    /// two probes unanswered. Says whether the connection goes on.
    pub fn tick(&mut self, registry: &mut Registry) -> (r: bool)
        requires
            old(self).wf(),
            old(registry).wf(),
        ensures
            final(self).wf(),
            final(registry).wf(),
            final(registry).rng() == old(registry).rng(),
            r == (old(self)@.pings < MAX_PINGS_OUT),
            final(self)@ == ticked(old(self)@),
            final(registry)@ == if r || old(self)@.closed {
                old(registry)@
            } else {
                old(registry)@.without_conn(old(self)@.cid)
            },
    {
        if self.pings_out >= MAX_PINGS_OUT {
            self.enqueue(Frame::err(STALE_CONNECTION));
            self.close(registry, STALE_REASON.to_owned());
            return false;
        }
        self.note_ping_sent();
        self.enqueue(Frame::ping());
        true
    }

    /// Takes the writer's next batch.
    pub fn collect(&mut self)
        requires
            old(self).wf(),
        ensures
            final(self).wf(),
            final(self)@ == (ConnView { out: collected(old(self)@.out), ..old(self)@ }),
    {
        self.out.collect();
    }

    /// The kernel has taken `n` bytes of the batch, or all that is left of it where that is
    /// less. Says whether a publisher that waits for room is to be woken.
    pub fn written(&mut self, n: usize) -> (r: bool)
        requires
            old(self).wf(),
        ensures
            final(self).wf(),
            final(self)@ == (ConnView { out: old(self)@.out.wrote(n as nat), ..old(self)@ }),
            r == old(self)@.out.drain_wakes(old(self)@.out.taken(n as nat)),
    {
        self.out.written(n)
    }

    /// The writer gives up on its batch. Says whether a publisher that waits for room is
    /// to be woken.
    pub fn abandon(&mut self) -> (r: bool)
        requires
            old(self).wf(),
        ensures
            final(self).wf(),
            final(self)@ == (ConnView {
                out: OutboxView {
                    batch: Seq::empty(),
                    ..old(self)@.out.drained(flat(old(self)@.out.batch).len())
                },
                ..old(self)@
            }),
            r == old(self)@.out.drain_wakes(flat(old(self)@.out.batch).len()),
    {
        self.out.abandon()
    }

    /// Does the connection hold a subscription under that id?
    pub fn holds(&self, sid: &[u8]) -> (r: bool)
        requires
            self.wf(),
        ensures
            r == self@.subs.contains_key(sid@),
    {
        self.subs.contains(sid)
    }

    /// Takes a subscription under an id that is free.
    pub fn subscribe(&mut self, sub: Sub)
        requires
            old(self).wf(),
            !old(self)@.subs.contains_key(sub@.sid),
        ensures
            final(self).wf(),
            final(self)@ == (ConnView {
                subs: old(self)@.subs.insert(sub@.sid, sub@),
                ..old(self)@
            }),
    {
        self.subs.insert(sub);
    }

    /// `UNSUB sid max`, as far as the connection goes: what comes back is for the
    /// registry to forget.
    pub fn unsubscribe(&mut self, sid: &[u8], max: i64) -> (r: Option<Interest>)
        requires
            old(self).wf(),
        ensures
            final(self).wf(),
            final(self)@ == (ConnView {
                subs: unsubscribed(old(self)@.subs, sid@, max as int),
                ..old(self)@
            }),
            r is Some == (old(self)@.subs.contains_key(sid@) && !old(self)@.subs[sid@].can_take(
                max as int,
            )),
            r matches Some(i) ==> i@ == old(self)@.subs[sid@].interest(),
    {
        self.subs.unsubscribe(sid, max)
    }

    /// Counts a delivery to one of the subscriptions. Says whether it is spent.
    pub fn account(&mut self, sid: &[u8]) -> (r: bool)
        requires
            old(self).wf(),
        ensures
            final(self).wf(),
            final(self)@ == (ConnView { subs: counted_at(old(self)@.subs, sid@), ..old(self)@ }),
            r == (old(self)@.subs.contains_key(sid@) && old(self)@.subs[sid@].counted().spent()),
    {
        self.subs.account(sid)
    }
}

/// A connection after its keepalive timer has fired.
pub open spec fn ticked(conn: ConnView) -> ConnView {
    if conn.pings >= MAX_PINGS_OUT {
        conn.pushed(err_line(text(STALE_CONNECTION))).finished(STALE_REASON@, false)
    } else {
        (ConnView { pings: plus(conn.pings, 1), ..conn }).pushed(text("PING\r\n"))
    }
}

/// An answer to a probe starts the count over: a client that answers every probe is
/// never given up on.
pub proof fn an_answer_starts_over(conn: ConnView)
    requires
        !conn.closed,
        conn.pings < MAX_PINGS_OUT,
    ensures
        ({
            let answered = ConnView { pings: 0, ..ticked(conn) };
            answered.pings == 0 && !answered.closed
        }),
{
}

/// Two probes go out unanswered; at the third turn of the timer the client is told that
/// it is stale, after everything queued before, and the connection ends.
pub proof fn silence_ends_a_connection(conn: ConnView)
    requires
        conn.wf(),
        !conn.closed,
        conn.pings == 0,
    ensures
        !ticked(conn).closed,
        !ticked(ticked(conn)).closed,
        ticked(ticked(ticked(conn))).closed,
{
}

/// The connections of a server, by their numbers.
pub struct Conns {
    map: HashMap<u64, Conn>,
}

impl View for Conns {
    type V = Map<u64, ConnView>;

    closed spec fn view(&self) -> Map<u64, ConnView> {
        Map::new(|cid: u64| self.map@.contains_key(cid), |cid: u64| self.map@[cid]@)
    }
}

impl Conns {
    /// Every connection is sound and stands under its own number.
    pub closed spec fn wf(&self) -> bool {
        forall|cid: u64| #[trigger]
            self.map@.contains_key(cid) ==> self.map@[cid].wf() && self.map@[cid]@.cid == cid
    }

    /// What sound connections keep.
    pub proof fn sound(&self)
        requires
            self.wf(),
        ensures
            forall|cid: u64| #[trigger]
                self@.contains_key(cid) ==> self@[cid].wf() && self@[cid].cid == cid,
    {
        assert forall|cid: u64| #[trigger] self@.contains_key(cid) implies self@[cid].wf()
            && self@[cid].cid == cid by {
            assert(self.map@.contains_key(cid));
            self.map@[cid].sound();
        }
    }

    /// No connections.
    pub fn new() -> (r: Conns)
        ensures
            r.wf(),
            r@ == Map::<u64, ConnView>::empty(),
    {
        broadcast use vstd::std_specs::hash::group_hash_axioms;

        let r = Conns { map: HashMap::new() };
        assert(r@ =~= Map::<u64, ConnView>::empty());
        r
    }

    /// A connection, to look at.
    pub fn get(&self, cid: u64) -> (r: Option<&Conn>)
        requires
            self.wf(),
        ensures
            match r {
                Some(conn) => self@.contains_key(cid) && conn.wf() && conn@ == self@[cid],
                None => !self@.contains_key(cid),
            },
    {
        broadcast use vstd::std_specs::hash::group_hash_axioms;

        self.map.get(&cid)
    }

    /// A connection, to change; it is to be put back.
    pub fn take(&mut self, cid: u64) -> (r: Option<Conn>)
        requires
            old(self).wf(),
        ensures
            final(self).wf(),
            final(self)@ == old(self)@.remove(cid),
            match r {
                Some(conn) => old(self)@.contains_key(cid) && conn.wf() && conn@ == old(self)@[cid]
                    && conn@.cid == cid,
                None => !old(self)@.contains_key(cid),
            },
    {
        broadcast use vstd::std_specs::hash::group_hash_axioms;

        let r = self.map.remove(&cid);
        assert(self@ =~= old(self)@.remove(cid));
        r
    }

    /// Puts a connection in its place.
    pub fn put(&mut self, conn: Conn)
        requires
            old(self).wf(),
            conn.wf(),
        ensures
            final(self).wf(),
            final(self)@ == old(self)@.insert(conn@.cid, conn@),
    {
        broadcast use vstd::std_specs::hash::group_hash_axioms;

        let cid = conn.cid;
        self.map.insert(cid, conn);
        assert(self@ =~= old(self)@.insert(conn@.cid, conn@));
    }
}

} // verus!
