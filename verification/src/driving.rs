//! What timers, sockets and the ends of connections do, told by what was there before.
use vstd::prelude::*;

use crate::client::{
    a_batch_keeps_the_order, a_closed_outbox_has_room, a_frame_goes_out_last,
    a_write_sends_the_front, collected, err_line, flat, flat_push, moved_more, moved_one, ConnView,
    OutboxView,
};
use crate::effects::{an_end_does_what_it_says, the_words_of_an_error, what_is_forgotten};
use crate::laws::{registered, sound};
use crate::loops::{
    read_as, read_stepped, reads_on, write_continued, write_ends, write_finished, write_noted,
    ReadEvent, WriteEvent,
};
use crate::proto::{End, STALE_CONNECTION};
use crate::reader::{jitter_bound, missing_room, resized, shorter};
use crate::routing::InterestView;
use crate::server::{with_batch, Hub, Server};
use crate::text::text;

verus! {

// -------------------------------------------------------------------------- reading --

/// When the keepalive timer fires, a client with fewer than two unanswered probes gets another:
/// one more is out, and a `PING` is behind everything that waits, where there is room. A client
/// with two is told that it is stale, where there is room, and its connection ends softly; then
/// nothing of it is registered. Nobody else notices.
pub proof fn a_tick_probes_or_ends(hub: Hub, cid: u64, end: End, x: InterestView)
    requires
        sound(hub),
        hub.conns.contains_key(cid),
        !hub.conns[cid].closed,
    ensures
        ({
            let after = read_stepped(hub, cid, ReadEvent::Tick, end);
            let (was, now) = (hub.conns[cid], after.conns[cid]);
            let (ping, stale) = (text("PING\r\n"), text("-ERR 'Stale Connection'\r\n"));
            let fits = |words: Seq<u8>| was.out.unsent().len() + words.len() <= was.out.hard;
            &&& after.conns.remove(cid) == hub.conns.remove(cid)
            &&& was.pings < 2 ==> {
                &&& !now.closed
                &&& now.pings == was.pings + 1
                &&& now.subs == was.subs && now.opts == was.opts
                &&& fits(ping) ==> now.out.unsent() == was.out.unsent() + ping
                &&& !fits(ping) ==> now.out == was.out
                &&& after.registry == hub.registry
            }
            &&& was.pings >= 2 ==> {
                &&& now.closed
                &&& !now.hard
                &&& now.reason == Some("stale connection"@)
                &&& now.subs.dom().is_empty()
                &&& fits(stale) ==> now.out.unsent() == was.out.unsent() + stale
                &&& !fits(stale) ==> now.out.unsent() == was.out.unsent()
                &&& registered(after.registry, x) <==> registered(hub.registry, x) && x.cid != cid
            }
        }),
{
    let after = read_stepped(hub, cid, ReadEvent::Tick, end);
    let was = hub.conns[cid];
    assert(was.wf() && was.cid == cid);
    the_words_of_an_error();
    let stale = err_line(text(STALE_CONNECTION));
    a_frame_goes_out_last(was.out, text("PING\r\n"));
    a_frame_goes_out_last(was.out, stale);
    a_closed_outbox_has_room(was.out.pushed(stale), false);
    what_is_forgotten(hub.registry, cid, x);
    assert(after.conns.remove(cid) =~= hub.conns.remove(cid));
}

/// The end of the stream, a broken socket and a connection that was closed elsewhere each end
/// what is still open, softly and for their own reason; a read of nothing is the end of the
/// stream. Bytes that were read change nothing by themselves.
pub proof fn how_reading_ends(
    hub: Hub,
    cid: u64,
    n: usize,
    words: String,
    end: End,
    x: InterestView,
)
    requires
        sound(hub),
        hub.conns.contains_key(cid),
        !hub.conns[cid].closed,
    ensures
        ({
            let closed = |after: Hub, reason: Seq<char>|
                {
                    let (was, now) = (hub.conns[cid], after.conns[cid]);
                    &&& now.closed && !now.hard
                    &&& now.reason == Some(reason)
                    &&& now.out.unsent() == was.out.unsent()
                    &&& after.conns.remove(cid) == hub.conns.remove(cid)
                    &&& registered(after.registry, x) <==> registered(hub.registry, x) && x.cid
                        != cid
                };
            &&& closed(read_stepped(hub, cid, ReadEvent::End, end), "client closed"@)
            &&& closed(
                read_stepped(hub, cid, ReadEvent::Failed(words), end),
                "read error: "@ + words@,
            )
            &&& closed(read_stepped(hub, cid, ReadEvent::Woken, end), "ended"@)
            &&& !(end is Failed) ==> read_stepped(hub, cid, ReadEvent::Segment(n), end) == hub
            &&& n > 0 ==> read_as(ReadEvent::Segment(n)) == ReadEvent::Segment(n)
            &&& read_as(ReadEvent::Segment(0)) is End
            &&& read_as(ReadEvent::Tick) is Tick
            &&& read_as(ReadEvent::Failed(words)) == ReadEvent::Failed(words)
            &&& read_as(ReadEvent::Woken) is Woken
        }),
{
    an_end_does_what_it_says(hub, cid, "client closed"@, false, x);
    an_end_does_what_it_says(hub, cid, "read error: "@ + words@, false, x);
    an_end_does_what_it_says(hub, cid, "ended"@, false, x);
}

/// Reading goes on after bytes that did not break the protocol, or broke it softly, and after a
/// tick that was not the third in a row without an answer; it ends after anything else.
pub proof fn when_reading_goes_on(n: usize, end: End, pings: u64, words: String)
    ensures
        !(end is Failed) ==> reads_on(ReadEvent::Segment(n), end, pings),
        end matches End::Failed(e) ==> (reads_on(ReadEvent::Segment(n), end, pings) <==> e is Soft),
        reads_on(ReadEvent::Tick, end, 0),
        reads_on(ReadEvent::Tick, end, 1),
        pings >= 2 ==> !reads_on(ReadEvent::Tick, end, pings),
        !reads_on(ReadEvent::End, end, pings),
        !reads_on(ReadEvent::Failed(words), end, pings),
        !reads_on(ReadEvent::Woken, end, pings),
{
}

/// Writing ends when the socket took nothing, or nothing in time, or broke; and a connection is
/// all written when it is closed and nothing waits.
pub proof fn when_writing_ends(n: usize, words: String, conn: ConnView)
    ensures
        n > 0 ==> !write_ends(WriteEvent::Wrote(n)),
        write_ends(WriteEvent::Wrote(0)),
        write_ends(WriteEvent::Deadline),
        write_ends(WriteEvent::Failed(words)),
        !write_ends(WriteEvent::Ready),
        !write_ends(WriteEvent::Interrupted),
        write_finished(conn) ==> conn.out.gone && conn.out.unsent().len() == 0,
        !conn.out.gone ==> !write_finished(conn),
        conn.out.gone && conn.out.queue.len() == 0 && conn.out.batch.len() == 0 ==> write_finished(
            conn,
        ),
{
    a_batch_keeps_the_order(conn.out);
    let none = Seq::<Seq<u8>>::empty();
    assert(flat(none).len() == 0);
    if write_finished(conn) {
        let out = with_batch(conn).out;
        assert(out.batch =~= none && out.queue =~= none);
        assert(out.unsent().len() == 0);
    }
}

/// A read that fills the buffer doubles it, up to the largest; a third read in a row that fills
/// less than half of a buffer that has grown halves it; one in between changes nothing.
pub proof fn how_a_buffer_is_sized(cap: usize, n: usize, a: usize, b: usize, c: usize, short: u32)
    requires
        16384 < cap <= 65536,
        a < cap / 2,
        b < cap / 2,
        c < cap / 2,
    ensures
        n >= cap && cap <= 32768 ==> resized(cap, short, n) == ((cap * 2) as usize, 0u32),
        n >= cap && cap > 32768 ==> resized(cap, short, n) == (65536usize, 0u32),
        cap / 2 <= n < cap ==> resized(cap, short, n) == (cap, short),
        ({
            let one = resized(cap, 0, a);
            let two = resized(one.0, one.1, b);
            let three = resized(two.0, two.1, c);
            one.0 == cap && two.0 == cap && three == ((cap / 2) as usize, 0u32)
        }),
        short < u32::MAX && a < 8192 ==> resized(16384, short, a) == (
            16384usize,
            (short + 1) as u32,
        ),
{
}

/// What is set aside is just what is missing to a whole read, and nothing where nothing is.
pub proof fn how_much_room_is_missing(cap: usize, spare: usize)
    ensures
        spare >= cap ==> missing_room(cap, spare) is None,
        spare < cap ==> (missing_room(cap, spare) matches Some(n) && spare + n == cap),
{
}

/// The first probe is due after two seconds, or after the interval where that is shorter, and the
/// delay on top is less than a fifth of that, or none.
pub proof fn when_the_first_probe_is_due(interval: nat, drawn: u64)
    ensures
        shorter(2_000_000_000, interval) <= interval,
        shorter(2_000_000_000, interval) <= 2_000_000_000,
        shorter(2_000_000_000, interval) == interval || shorter(2_000_000_000, interval)
            == 2_000_000_000,
        ({
            let cap = shorter(2_000_000_000, interval);
            let delay = (drawn % jitter_bound(cap)) * 1_000_000;
            &&& jitter_bound(cap) >= 1
            &&& 0 <= delay
            &&& delay == 0 || 5 * delay < cap
        }),
{
    let cap = shorter(2_000_000_000, interval);
    let bound = jitter_bound(cap);
    assert(drawn % bound < bound);
}

// -------------------------------------------------------------------------- writing --

/// What the socket takes is the front of what waits, and just so much less waits; what it does
/// not take stays. Being ready, or interrupted, changes nothing.
pub proof fn what_a_write_does(hub: Hub, cid: u64, n: usize)
    requires
        sound(hub),
        hub.conns.contains_key(cid),
        n > 0,
    ensures
        ({
            let after = write_noted(hub, cid, WriteEvent::Wrote(n));
            let (was, now) = (hub.conns[cid], after.conns[cid]);
            let offered = flat(was.out.batch).len();
            let gone = if n <= offered {
                n as int
            } else {
                offered as int
            };
            &&& now.out.unsent() == was.out.unsent().skip(gone)
            &&& !was.closed ==> now.out.pending == was.out.pending - gone
            &&& now == (ConnView { out: now.out, ..was })
            &&& now.out.queue == was.out.queue
            &&& after.registry == hub.registry
            &&& after.conns.remove(cid) == hub.conns.remove(cid)
        }),
        write_noted(hub, cid, WriteEvent::Ready) == hub,
        write_noted(hub, cid, WriteEvent::Interrupted) == hub,
{
    let after = write_noted(hub, cid, WriteEvent::Wrote(n));
    let was = hub.conns[cid];
    assert(was.wf() && was.cid == cid);
    a_write_sends_the_front(was.out, n as nat);
    assert(after.conns.remove(cid) =~= hub.conns.remove(cid));
}

/// A socket that takes nothing, or broke, is given up on: what it was offered is dropped, the
/// connection ends for that reason, and nothing of it is registered. One that took nothing for the
/// length of the deadline ends hard, with nothing left to write.
pub proof fn how_writing_ends(hub: Hub, cid: u64, words: String, x: InterestView)
    requires
        sound(hub),
        hub.conns.contains_key(cid),
        !hub.conns[cid].closed,
    ensures
        ({
            let closed = |after: Hub, reason: Seq<char>, hard: bool|
                {
                    let (was, now) = (hub.conns[cid], after.conns[cid]);
                    &&& now.closed && now.hard == hard
                    &&& now.reason == Some(reason)
                    &&& now.out.unsent() == if hard {
                        Seq::empty()
                    } else {
                        flat(was.out.queue)
                    }
                    &&& now.subs.dom().is_empty()
                    &&& after.conns.remove(cid) == hub.conns.remove(cid)
                    &&& registered(after.registry, x) <==> registered(hub.registry, x) && x.cid
                        != cid
                };
            &&& closed(
                write_noted(hub, cid, WriteEvent::Wrote(0)),
                "socket stopped accepting data"@,
                false,
            )
            &&& closed(
                write_noted(hub, cid, WriteEvent::Deadline),
                "write deadline exceeded"@,
                true,
            )
            &&& closed(
                write_noted(hub, cid, WriteEvent::Failed(words)),
                "write error: "@ + words@,
                false,
            )
        }),
{
    let was = hub.conns[cid];
    assert(was.wf() && was.cid == cid);
    what_is_forgotten(hub.registry, cid, x);
    let none = Seq::<Seq<u8>>::empty();
    assert(flat(none) =~= Seq::<u8>::empty());
    assert(flat(none) + flat(was.out.queue) =~= flat(was.out.queue));
    assert(flat(none) + flat(none) =~= Seq::<u8>::empty());
    let (a, b, c) = (
        write_noted(hub, cid, WriteEvent::Wrote(0)),
        write_noted(hub, cid, WriteEvent::Deadline),
        write_noted(hub, cid, WriteEvent::Failed(words)),
    );
    assert(a.conns.remove(cid) =~= hub.conns.remove(cid));
    assert(b.conns.remove(cid) =~= hub.conns.remove(cid));
    assert(c.conns.remove(cid) =~= hub.conns.remove(cid));
    assert(b.conns[cid].out.unsent() =~= Seq::<u8>::empty());
}

/// Going on with a connection that was not closed hard drops and reorders nothing; and where
/// there is anything to write, the writer has something to offer.
pub proof fn a_writer_goes_on(hub: Hub, cid: u64)
    requires
        sound(hub),
        hub.conns.contains_key(cid),
        !hub.conns[cid].hard,
        forall|i: int|
            0 <= i < hub.conns[cid].out.batch.len() ==> (#[trigger] hub.conns[cid].out.batch[i]).len()
                > 0,
    ensures
        ({
            let after = write_continued(hub, cid);
            let (was, now) = (hub.conns[cid], after.conns[cid]);
            &&& now.out.unsent() == was.out.unsent()
            &&& was.out.unsent().len() > 0 ==> flat(now.out.batch).len() > 0
            &&& now.subs == was.subs && now.opts == was.opts && now.closed == was.closed
            &&& after.registry == hub.registry
            &&& after.conns.remove(cid) == hub.conns.remove(cid)
        }),
{
    let after = write_continued(hub, cid);
    let was = hub.conns[cid];
    assert(was.wf() && was.cid == cid);
    a_batch_keeps_the_order(was.out);
    assert(after.conns.remove(cid) =~= hub.conns.remove(cid));
    if flat(was.out.batch).len() == 0 && was.out.unsent().len() > 0 {
        if was.out.batch.len() > 0 {
            assert(was.out.batch[0].len() > 0);
        }
        let (q, b) = moved_one(was.out.queue, was.out.batch);
        assert forall|i: int| 0 <= i < b.len() implies (#[trigger] b[i]).len() > 0 by {}
        something_is_moved(q, b);
        let out = collected(was.out);
        assert(out.unsent().len() > 0);
        if flat(out.batch).len() == 0 {
            assert(out.queue.len() == 0);
            assert(flat(out.queue) =~= Seq::<u8>::empty());
        }
    }
}

/// A batch that has no bytes has left none in the queue.
proof fn something_is_moved(queue: Seq<Seq<u8>>, batch: Seq<Seq<u8>>)
    requires
        batch.len() < 1000,
        forall|i: int| 0 <= i < batch.len() ==> (#[trigger] batch[i]).len() > 0,
    ensures
        flat(moved_more(queue, batch).1).len() >= flat(batch).len(),
        moved_more(queue, batch).0.len() > 0 ==> flat(moved_more(queue, batch).1).len() > 0,
    decreases queue.len(),
{
    if queue.len() > 0 {
        let (q, b) = moved_one(queue, batch);
        flat_push(batch, queue[0]);
        assert forall|i: int| 0 <= i < b.len() implies (#[trigger] b[i]).len() > 0 by {
            if i < batch.len() {
                assert(b[i] == batch[i]);
            }
        }
        if b.len() > 0 {
            assert(b[0].len() > 0);
            assert(flat(b).len() >= b[0].len());
        }
        if b.len() < 1000 && flat(b).len() < 262144 {
            something_is_moved(q, b);
        }
    }
}

/// A batch goes as far as it may: it ends when the queue is empty, at a thousand buffers, or at
/// 262144 bytes, and it does not go on past them.
pub proof fn a_batch_is_bounded(queue: Seq<Seq<u8>>, batch: Seq<Seq<u8>>)
    requires
        batch.len() < 1000,
        flat(batch).len() < 262144,
    ensures
        ({
            let (q, b) = moved_more(queue, batch);
            &&& batch.len() <= b.len() <= 1000
            &&& b.len() == batch.len() ==> b == batch
            &&& q.len() > 0 ==> b.len() == 1000 || flat(b).len() >= 262144
            &&& b.len() > batch.len() ==> flat(b.drop_last()).len() < 262144
        }),
    decreases queue.len(),
{
    if queue.len() > 0 {
        let (q, b) = moved_one(queue, batch);
        if queue[0].len() > 0 {
            assert(b.drop_last() =~= batch);
        }
        if b.len() < 1000 && flat(b).len() < 262144 {
            a_batch_is_bounded(q, b);
        }
    }
}

/// A publisher that waits for room is woken by the very drain that makes room again.
pub proof fn who_is_woken(out: OutboxView, bytes: nat)
    requires
        out.wf(),
        bytes <= out.pending,
    ensures
        out.drain_wakes(bytes) <==> !out.room() && out.drained(bytes).room(),
        !out.gone ==> out.drained(bytes).pending == out.pending - bytes,
{
}

/// A publisher waits for a connection just while it is there and open and has more waiting than
/// the threshold.
pub proof fn how_long_a_publisher_waits(conns: Map<u64, ConnView>, cid: u64)
    requires
        conns.contains_key(cid) ==> conns[cid].wf(),
    ensures
        Server::not_waited_for(conns, cid) <==> !(conns.contains_key(cid) && !conns[cid].closed
            && conns[cid].out.unsent().len() > conns[cid].out.soft()),
{
}

// ---------------------------------------------------------------------- connections --

/// A new connection is open and holds nothing; until it says otherwise it is verbose, pedantic
/// and hears itself, and it has asked for neither headers nor word of unheard requests. As much
/// may wait for it as is configured.
pub proof fn how_a_connection_starts(cid: u64, max_pending: u64)
    requires
        max_pending <= usize::MAX,
    ensures
        ({
            let conn = ConnView::fresh(cid, max_pending);
            &&& conn.cid == cid
            &&& conn.opts.verbose && conn.opts.pedantic && conn.opts.echo
            &&& !conn.opts.headers && !conn.opts.no_responders
            &&& conn.subs.dom().is_empty()
            &&& conn.out.unsent().len() == 0
            &&& conn.out.hard == max_pending
            &&& !conn.closed && !conn.hard && conn.reason is None
            &&& conn.pings == 0
            &&& conn.wf()
        }),
{
    assert(ConnView::fresh(cid, max_pending).out.unsent() =~= Seq::<u8>::empty());
}

/// There is a place for one more connection just when fewer are live than may be, or when there
/// is no limit; no limit is written as a negative one, and a limit of none lets nobody in.
pub proof fn who_is_let_in(server: Server)
    ensures
        server.cfg.max_connections < 0 ==> server.has_place(),
        server.cfg.max_connections >= 0 ==> (server.has_place() <==> server.active
            < server.cfg.max_connections),
        server.cfg.max_connections == 0 ==> !server.has_place(),
{
}

/// Clients are told of the server as it is: its own id and name, where it is bound, and the
/// largest body that it takes.
pub proof fn info_is_of_this_server(server: Server, host: String, port: u16)
    requires
        server.listen == Some((host, port)),
    ensures
        ({
            let info = server.info();
            &&& info.server_id == server.server_id@
            &&& info.server_name == server.server_name@
            &&& info.version == server.version@
            &&& info.host == host@
            &&& info.port == port
            &&& info.max_payload == server.cfg.max_payload
        }),
{
}

} // verus!
