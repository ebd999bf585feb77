//! What the two loops of a connection do next.
//!
//! A connection is driven from outside: something reads, waits for timers and writes, and
//! tells the server what happened. Each function here takes one such event and says what
//! to do next; everything that the event means for the connection has then been done.
use bytes::Bytes;
use vstd::prelude::*;

use crate::client::{part_views, ticked, ConnView};
use crate::config::MAX_PINGS_OUT;
use crate::proto::{event_fits, event_views, run, End, Event, Limits};
use crate::reader::{resized, Reader};
use crate::server::{abandoned, broken, with_batch, Hub, Server};

verus! {

/// Why a connection whose reading has ended was closed, if nothing closed it before.
pub const ENDED_REASON: &'static str = "ended";

/// Why a connection was closed that the client closed.
pub const CLIENT_CLOSED_REASON: &'static str = "client closed";

/// Why a connection was closed that could not be read; what went wrong follows.
pub const READ_ERROR_REASON: &'static str = "read error: ";

/// Why a connection was closed when everything queued for it was out.
pub const WRITTEN_REASON: &'static str = "written";

/// Why a connection was closed whose socket took nothing for the length of the deadline.
pub const DEADLINE_REASON: &'static str = "write deadline exceeded";

/// Why a connection was closed whose socket took nothing of what it was offered.
pub const STOPPED_REASON: &'static str = "socket stopped accepting data";

/// Why a connection was closed that could not be written to; what went wrong follows.
pub const WRITE_ERROR_REASON: &'static str = "write error: ";

/// What happened to the reading loop.
pub enum ReadEvent {
    /// So many bytes were read into the buffer. None at all is the end of the stream.
    Segment(usize),
    /// The client closed its side.
    End,
    /// The socket broke.
    Failed(String),
    /// The keepalive timer fired.
    Tick,
    /// The connection was closed elsewhere.
    Woken,
}

/// What the reading loop does next.
pub enum ReadAction {
    /// Reads on.
    Read,
    /// Executes these commands in order, then reads on.
    Run(Vec<Event>),
    /// Ends.
    Stop,
}

/// What a read of `n` bytes does to the connection: only a segment that breaks the
/// protocol does anything before its commands are executed.
pub open spec fn segment_read(hub: Hub, cid: u64, end: End) -> Hub {
    match end {
        End::Failed(e) => broken(hub, cid, e),
        _ => hub,
    }
}

/// What an event of the reading loop comes to: a read of nothing is the client's close.
pub open spec fn read_as(ev: ReadEvent) -> ReadEvent {
    match ev {
        ReadEvent::Segment(n) => if n == 0 {
            ReadEvent::End
        } else {
            ev
        },
        _ => ev,
    }
}

/// The hub after an event of the reading loop of a connection.
pub open spec fn read_stepped(hub: Hub, cid: u64, ev: ReadEvent, end: End) -> Hub {
    match ev {
        ReadEvent::Segment(_) => segment_read(hub, cid, end),
        ReadEvent::End => hub.closed(cid, CLIENT_CLOSED_REASON@, false),
        ReadEvent::Failed(e) => hub.closed(cid, READ_ERROR_REASON@ + e@, false),
        ReadEvent::Tick => {
            let conn = hub.conns[cid];
            Hub {
                registry: if conn.pings < MAX_PINGS_OUT || conn.closed {
                    hub.registry
                } else {
                    hub.registry.without_conn(cid)
                },
                ..hub.with_conn(ticked(conn))
            }
        },
        ReadEvent::Woken => hub.closed(cid, ENDED_REASON@, false),
    }
}

/// Does the reading loop go on after an event, with so many probes unanswered before it?
pub open spec fn reads_on(ev: ReadEvent, end: End, pings: u64) -> bool {
    match ev {
        ReadEvent::Segment(_) => match end {
            End::Failed(e) => e is Soft,
            _ => true,
        },
        ReadEvent::Tick => pings < MAX_PINGS_OUT,
        _ => false,
    }
}

impl Server {
    /// One event of the reading loop of a connection.
    pub fn read_step(&mut self, cid: u64, reader: &mut Reader, ev: ReadEvent) -> (r: ReadAction)
        requires
            old(self).wf(),
            old(self).hub().conns.contains_key(cid),
            old(reader).wf(),
            old(self).cfg.max_control_line * 16 <= usize::MAX,
        ensures
            final(self).wf(),
            final(self).same_but_hub(old(self)),
            final(reader).wf(),
            ({
                let ev = read_as(ev);
                let lim = Limits {
                    max_control_line: old(self).cfg.max_control_line,
                    max_payload: old(self).cfg.max_payload,
                };
                let parsed = run(old(reader).state(), old(reader).held(), lim);
                &&& final(self).hub() == read_stepped(old(self).hub(), cid, ev, parsed.end)
                &&& ev matches ReadEvent::Segment(n) ==> {
                    &&& final(reader).state() == parsed.state
                    &&& final(reader).held() == parsed.rest
                    &&& (final(reader).cap(), final(reader).short()) == resized(
                        old(reader).cap(),
                        old(reader).short(),
                        n,
                    )
                    &&& match parsed.end {
                        End::Failed(e) => if e is Soft {
                            r is Read
                        } else {
                            r is Stop
                        },
                        _ => {
                            &&& r matches ReadAction::Run(events)
                            &&& event_views(events@) == parsed.events
                            &&& forall|i: int|
                                0 <= i < events@.len() ==> event_fits(#[trigger] events@[i]@)
                        },
                    }
                }
                &&& !(ev is Segment) ==> *final(reader) == *old(reader)
                &&& ev is Tick ==> if old(self).hub().conns[cid].pings < MAX_PINGS_OUT {
                    r is Read
                } else {
                    r is Stop
                }
                &&& !(ev is Segment || ev is Tick) ==> r is Stop
                &&& !(r is Stop) <==> reads_on(ev, parsed.end, old(self).hub().conns[cid].pings)
            }),
    {
        let ev = match ev {
            ReadEvent::Segment(n) => if n == 0 {
                ReadEvent::End
            } else {
                ReadEvent::Segment(n)
            },
            other => other,
        };
        match ev {
            ReadEvent::Segment(n) => {
                reader.resize(n);
                let lim = self.limits();
                match reader.parse(&lim) {
                    Ok(events) => ReadAction::Run(events),
                    Err(e) => {
                        if self.protocol_error(cid, &e) {
                            ReadAction::Read
                        } else {
                            ReadAction::Stop
                        }
                    },
                }
            },
            ReadEvent::End => {
                self.close(cid, CLIENT_CLOSED_REASON.to_owned());
                ReadAction::Stop
            },
            ReadEvent::Failed(e) => {
                let mut reason = READ_ERROR_REASON.to_owned();
                reason.append(e.as_str());
                self.close(cid, reason);
                ReadAction::Stop
            },
            ReadEvent::Tick => {
                if self.tick(cid) {
                    ReadAction::Read
                } else {
                    ReadAction::Stop
                }
            },
            ReadEvent::Woken => {
                self.close(cid, ENDED_REASON.to_owned());
                ReadAction::Stop
            },
        }
    }
}

/// What happened to the writing loop.
pub enum WriteEvent {
    /// It is ready to write.
    Ready,
    /// The socket took so many bytes of the batch.
    Wrote(usize),
    /// The socket took nothing for the length of the deadline.
    Deadline,
    /// The write was interrupted and is to be tried again.
    Interrupted,
    /// The socket broke.
    Failed(String),
}

/// What the writing loop does next.
pub enum WriteAction {
    /// Offers these buffers to the socket.
    Write(Vec<Bytes>),
    /// Waits until something is queued, or the connection is closed.
    Wait,
    /// Ends.
    Stop,
}

/// The hub after what an event of the writing loop says: the bytes that went, or that the
/// socket is given up on and why. A socket that stands still is closed at once, with
/// nothing said; one that broke has nothing left to say.
pub open spec fn write_noted(hub: Hub, cid: u64, ev: WriteEvent) -> Hub {
    let conn = hub.conns[cid];
    let given_up = hub.with_conn(abandoned(conn));
    match ev {
        WriteEvent::Ready | WriteEvent::Interrupted => hub,
        WriteEvent::Wrote(n) => if n == 0 {
            given_up.closed(cid, STOPPED_REASON@, false)
        } else {
            hub.with_conn(ConnView { out: conn.out.wrote(n as nat), ..conn })
        },
        WriteEvent::Deadline => given_up.closed(cid, DEADLINE_REASON@, true),
        WriteEvent::Failed(e) => given_up.closed(cid, WRITE_ERROR_REASON@ + e@, false),
    }
}

/// Does the event end the writing loop?
pub open spec fn write_ends(ev: WriteEvent) -> bool {
    match ev {
        WriteEvent::Ready | WriteEvent::Interrupted => false,
        WriteEvent::Wrote(n) => n == 0,
        WriteEvent::Deadline | WriteEvent::Failed(_) => true,
    }
}

/// Is everything out, with nothing more to come?
pub open spec fn write_finished(conn: ConnView) -> bool {
    let out = with_batch(conn).out;
    out.gone && out.queue.len() == 0 && out.batch.len() == 0
}

/// The hub when the writing loop goes on: it takes its next batch; a connection that is to
/// drop what is queued drops it; and one that is all out is closed, if it was not.
pub open spec fn write_continued(hub: Hub, cid: u64) -> Hub {
    let conn = hub.conns[cid];
    if conn.hard {
        hub.with_conn(abandoned(conn))
    } else {
        let taken = hub.with_conn(with_batch(conn));
        if write_finished(conn) {
            taken.closed(cid, WRITTEN_REASON@, false)
        } else {
            taken
        }
    }
}

impl Server {
    /// Gives up on what is left of a connection's batch, and ends it.
    fn give_up(&mut self, cid: u64, reason: String, hard: bool)
        requires
            old(self).wf(),
            old(self).hub().conns.contains_key(cid),
        ensures
            final(self).wf(),
            final(self).same_but_hub(old(self)),
            final(self).hub() == old(self).hub().with_conn(
                abandoned(old(self).hub().conns[cid]),
            ).closed(cid, reason@, hard),
    {
        proof {
            self.conns.sound();
        }
        self.abandon(cid);
        if hard {
            self.close_now(cid, reason);
        } else {
            self.close(cid, reason);
        }
    }

    /// One event of the writing loop of a connection. A write may end after the connection
    /// was closed hard elsewhere: what it says then counts for nothing.
    pub fn write_step(&mut self, cid: u64, ev: WriteEvent) -> (r: WriteAction)
        requires
            old(self).wf(),
            old(self).hub().conns.contains_key(cid),
        ensures
            final(self).wf(),
            final(self).same_but_hub(old(self)),
            ev is Wrote && old(self).hub().conns[cid].hard ==> r is Stop && final(self).hub()
                == old(self).hub().with_conn(abandoned(old(self).hub().conns[cid])),
            ({
                let noted = write_noted(old(self).hub(), cid, ev);
                if write_ends(ev) {
                    r is Stop && final(self).hub() == noted
                } else {
                    &&& final(self).hub() == write_continued(noted, cid)
                    &&& match r {
                        WriteAction::Write(parts) => {
                            &&& part_views(parts@) == with_batch(noted.conns[cid]).out.batch
                            &&& parts@.len() > 0
                            &&& !noted.conns[cid].hard
                        },
                        WriteAction::Wait => {
                            &&& with_batch(noted.conns[cid]).out.batch.len() == 0
                            &&& !write_finished(noted.conns[cid])
                            &&& !noted.conns[cid].hard
                        },
                        WriteAction::Stop => noted.conns[cid].hard || write_finished(
                            noted.conns[cid],
                        ),
                    }
                }
            }),
    {
        let ghost hub = self.hub();
        proof {
            self.conns.sound();
        }
        match ev {
            WriteEvent::Ready | WriteEvent::Interrupted => {},
            WriteEvent::Wrote(n) => {
                if n == 0 {
                    self.give_up(cid, STOPPED_REASON.to_owned(), false);
                    return WriteAction::Stop;
                }
                self.written(cid, n);
            },
            WriteEvent::Deadline => {
                self.give_up(cid, DEADLINE_REASON.to_owned(), true);
                return WriteAction::Stop;
            },
            WriteEvent::Failed(e) => {
                let mut reason = WRITE_ERROR_REASON.to_owned();
                reason.append(e.as_str());
                self.give_up(cid, reason, false);
                return WriteAction::Stop;
            },
        }
        proof {
            self.conns.sound();
            assert(self.hub() == write_noted(hub, cid, ev));
        }
        if self.hard_closed(cid) {
            self.abandon(cid);
            return WriteAction::Stop;
        }
        let ghost noted = self.hub();
        match self.next_batch(cid) {
            None => {
                proof {
                    self.conns.sound();
                }
                self.close(cid, WRITTEN_REASON.to_owned());
                WriteAction::Stop
            },
            Some(parts) => {
                assert(part_views(parts@).len() == parts@.len());
                if parts.len() == 0 {
                    WriteAction::Wait
                } else {
                    WriteAction::Write(parts)
                }
            },
        }
    }
}

} // verus!
