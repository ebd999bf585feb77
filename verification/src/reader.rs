//! The reading side of one connection: the buffer, how it grows, and what comes out of
//! it; and when the first keepalive probe is due.
use bytes::BytesMut;
use vstd::prelude::*;

use crate::buf::buffer_of;
use crate::config::{Span, FIRST_PING_INTERVAL, NANOS};
use crate::nuid::{advanced, drawn, Rng};
use crate::proto::{event_fits, event_views, run, End, Event, Limits, Parser, ProtoError, StateView};

verus! {

/// The read buffer of a new connection, in bytes.
pub const START_READ_BUF: usize = 16384;

/// The largest read buffer, in bytes.
pub const MAX_READ_BUF: usize = 65536;

/// Short reads in a row before the buffer halves.
pub const SHORTS_TO_SHRINK: u32 = 2;

/// How large a read to ask for, and how many short reads have come, after a read of `n`
/// bytes: a read that fills the buffer doubles it, and after enough short ones it halves.
pub open spec fn resized(cap: usize, short: u32, n: usize) -> (usize, u32) {
    if n >= cap {
        (
            if cap * 2 < MAX_READ_BUF {
                (cap * 2) as usize
            } else {
                MAX_READ_BUF
            },
            0,
        )
    } else if n < cap / 2 {
        let more = ((short + 1) % 0x1_0000_0000) as u32;
        if more > SHORTS_TO_SHRINK && cap > START_READ_BUF {
            ((cap / 2) as usize, 0)
        } else {
            (cap, more)
        }
    } else {
        (cap, short)
    }
}

/// How much room is missing to a read of `cap` bytes where there is room for `spare`.
pub open spec fn missing_room(cap: usize, spare: usize) -> Option<usize> {
    if spare < cap {
        Some((cap - spare) as usize)
    } else {
        None
    }
}

/// The reading side of one connection.
pub struct Reader {
    parser: Parser,
    buf: BytesMut,
    cap: usize,
    short: u32,
}

impl Reader {
    /// Where the parser stands.
    pub closed spec fn state(&self) -> StateView {
        self.parser@
    }

    /// The bytes that are read and not consumed.
    pub closed spec fn held(&self) -> Seq<u8> {
        buffer_of(self.buf)
    }

    /// How large a read to ask for.
    pub closed spec fn cap(&self) -> usize {
        self.cap
    }

    /// How many short reads have come in a row.
    pub closed spec fn short(&self) -> u32 {
        self.short
    }

    /// The parser is sound, and the size is the first one doubled up to twice.
    pub closed spec fn wf(&self) -> bool {
        &&& self.parser.wf()
        &&& self.cap == START_READ_BUF || self.cap == 2 * START_READ_BUF || self.cap == MAX_READ_BUF
    }

    /// A reader at the start of a stream.
    pub fn new() -> (r: Reader)
        ensures
            r.wf(),
            r.state() == StateView::Line,
            r.held() == Seq::<u8>::empty(),
            r.cap() == START_READ_BUF,
            r.short() == 0,
    {
        Reader {
            parser: Parser::new(),
            buf: BytesMut::with_capacity(START_READ_BUF),
            cap: START_READ_BUF,
            short: 0,
        }
    }

    /// How many bytes are read and not consumed.
    pub fn held_len(&self) -> (r: usize)
        ensures
            r == self.held().len(),
    {
        let bytes: &[u8] = &self.buf;
        bytes.len()
    }

    /// Sets aside what [`to_reserve`](Reader::to_reserve) asks for; the bytes held stay. How
    /// much room there is, before and after, is the allocator's affair and is not said here.
    pub fn make_room(&mut self)
        requires
            old(self).wf(),
            old(self).held().len() + MAX_READ_BUF <= isize::MAX,
        ensures
            final(self).wf(),
            final(self).state() == old(self).state(),
            final(self).held() == old(self).held(),
            final(self).cap() == old(self).cap(),
            final(self).short() == old(self).short(),
    {
        let bytes: &[u8] = &self.buf;
        let len = bytes.len();
        let spare: usize = self.buf.capacity() - len;
        if let Some(room) = self.to_reserve(spare) {
            self.buf.reserve(room);
        }
    }

    /// How much room to set aside for the next read, where there is room for `spare` bytes
    /// behind those that are held: what is missing to a whole read, if anything is.
    pub fn to_reserve(&self, spare: usize) -> (r: Option<usize>)
        ensures
            r == if spare < self.cap() {
                Some((self.cap() - spare) as usize)
            } else {
                None
            },
            r == missing_room(self.cap(), spare),
    {
        if spare < self.cap {
            Some(self.cap - spare)
        } else {
            None
        }
    }

    /// The buffer, to read into.
    pub fn buffer(&mut self) -> (r: &mut BytesMut)
        requires
            old(self).wf(),
        ensures
            buffer_of(*r) == old(self).held(),
            final(self).wf(),
            final(self).held() == buffer_of(*final(r)),
            final(self).state() == old(self).state(),
            final(self).cap() == old(self).cap(),
            final(self).short() == old(self).short(),
    {
        &mut self.buf
    }

    /// A read of `n` bytes has come: decides how large the next one is to be.
    pub fn resize(&mut self, n: usize)
        requires
            old(self).wf(),
        ensures
            final(self).wf(),
            final(self).state() == old(self).state(),
            final(self).held() == old(self).held(),
            (final(self).cap(), final(self).short()) == resized(
                old(self).cap(),
                old(self).short(),
                n,
            ),
    {
        if n >= self.cap {
            self.short = 0;
            let doubled: usize = self.cap * 2;
            self.cap = if doubled < MAX_READ_BUF {
                doubled
            } else {
                MAX_READ_BUF
            };
        } else if n < self.cap / 2 {
            self.short = self.short.wrapping_add(1);
            if self.short > SHORTS_TO_SHRINK && self.cap > START_READ_BUF {
                self.short = 0;
                self.cap = self.cap / 2;
                let bytes: &[u8] = &self.buf;
                if bytes.len() == 0 {
                    self.buf = BytesMut::with_capacity(self.cap);
                    assert(buffer_of(self.buf) =~= old(self).held());
                }
            }
        }
    }

    /// Parses what is held. The commands come out in order; after an error there are none,
    /// because a segment that breaks the protocol is not executed in part.
    pub fn parse(&mut self, lim: &Limits) -> (r: Result<Vec<Event>, ProtoError>)
        requires
            old(self).wf(),
            lim.max_control_line * 16 <= usize::MAX,
        ensures
            final(self).wf(),
            final(self).cap() == old(self).cap(),
            final(self).short() == old(self).short(),
            final(self).state() == run(old(self).state(), old(self).held(), *lim).state,
            final(self).held() == run(old(self).state(), old(self).held(), *lim).rest,
            match run(old(self).state(), old(self).held(), *lim).end {
                End::Failed(e) => r == Err::<Vec<Event>, ProtoError>(e),
                _ => {
                    &&& r matches Ok(events)
                    &&& event_views(events@) == run(
                        old(self).state(),
                        old(self).held(),
                        *lim,
                    ).events
                    &&& forall|i: int|
                        0 <= i < events@.len() ==> event_fits(#[trigger] events@[i]@)
                },
            },
    {
        self.parser.feed(&mut self.buf, lim)
    }
}

/// The shorter of two lengths of time.
pub open spec fn shorter(a: nat, b: nat) -> nat {
    if a < b {
        a
    } else {
        b
    }
}

/// How many milliseconds of delay there may be on top of `cap` nanoseconds: a fifth, and
/// at least one.
pub open spec fn jitter_bound(cap: nat) -> u64 {
    if cap / 1_000_000 / 5 < 1 {
        1
    } else {
        (cap / 1_000_000 / 5) as u64
    }
}

/// When the first keepalive probe is due: after the interval, or after two seconds where
/// it is longer, and up to a fifth later.
pub fn keepalive_first(interval: Span, rng: &mut Rng) -> (r: Span)
    requires
        interval.wf(),
    ensures
        r.wf(),
        ({
            let cap = shorter((FIRST_PING_INTERVAL * NANOS) as nat, interval.total());
            let jitter = drawn(old(rng)@) % jitter_bound(cap);
            &&& r.total() == cap + jitter * 1_000_000
            &&& cap <= r.total() <= cap + cap / 5
        }),
        final(rng)@ == advanced(old(rng)@),
{
    let cap = if interval.secs >= FIRST_PING_INTERVAL {
        Span { secs: FIRST_PING_INTERVAL, nanos: 0 }
    } else {
        interval
    };
    let millis: u64 = cap.secs * 1_000 + (cap.nanos / 1_000_000) as u64;
    let fifth: u64 = millis / 5;
    let bound: u64 = if fifth < 1 {
        1
    } else {
        fifth
    };
    assert(cap.total() / 1_000_000 == millis);
    let jitter = rng.below(bound);
    let nanos: u64 = cap.nanos as u64 + jitter * 1_000_000;
    Span { secs: cap.secs + nanos / NANOS, nanos: (nanos % NANOS) as u32 }
}

/// A size that a read buffer can have: the smallest, or twice another such size.
pub open spec fn buffer_size(cap: nat) -> bool
    decreases cap,
{
    cap == START_READ_BUF || (cap > START_READ_BUF && cap % 2 == 0 && buffer_size(cap / 2))
}

/// A read buffer grows and shrinks between its two bounds, and never leaves them.
pub proof fn a_buffer_stays_in_bounds(cap: usize, short: u32, n: usize)
    requires
        buffer_size(cap as nat),
        cap <= MAX_READ_BUF,
    ensures
        buffer_size(resized(cap, short, n).0 as nat),
        START_READ_BUF <= resized(cap, short, n).0 <= MAX_READ_BUF,
{
    assert(buffer_size(MAX_READ_BUF as nat)) by {
        reveal_with_fuel(buffer_size, 12);
    }
    assert(buffer_size((cap * 2) as nat)) by {
        assert((cap * 2) as nat / 2 == cap as nat);
    }
}

} // verus!
