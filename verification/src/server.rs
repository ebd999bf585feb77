//! The running server: its options, the registry, the connections, and what one command
//! of one connection does to them.
use bytes::Bytes;
use vstd::prelude::*;

use crate::buf::{bytes_from_vec, bytes_of};
use crate::client::{
    collected, err_line, flat, info_is_an_object, options_after, part_views, ticked, unsubscribed,
    Conn, ConnView, Conns, Frame, Options, OutboxView,
};
use crate::config::{Config, MAX_PINGS_OUT};
use crate::fanout::{
    group_names, rng_after, routed, routing_keeps_connections, routing_keeps_numbers,
};
use crate::info::{info_line, Info, InfoView};
use crate::json::json_object;
use crate::nuid::{identifier, plus, seeded, server_id, Rng};
use crate::proto::{
    event_fits, Event, EventView, HpubOutcome, Limits, ProtoError, INVALID_PUBLISH_SUBJECT,
    INVALID_SUBJECT,
};
use crate::routing::{
    interest_views, no_responder_frame, status_frame, InterestView, Msg, MsgView, Registry,
    RegistryView, Sub, SubView,
};
use crate::subjects;
use crate::text::text;

verus! {

/// Who is connected and who listens to what.
#[verifier::ext_equal]
pub struct Hub {
    pub conns: Map<u64, ConnView>,
    pub registry: RegistryView,
    /// The generator that picks in queue groups.
    pub rng: u64,
}

impl Hub {
    /// The hub after a change to one connection.
    pub open spec fn with_conn(self, conn: ConnView) -> Hub {
        Hub { conns: self.conns.insert(conn.cid, conn), ..self }
    }

    /// The hub after an attempt to queue a frame for one connection.
    pub open spec fn pushed(self, cid: u64, frame: Seq<u8>) -> Hub {
        self.with_conn(self.conns[cid].pushed(frame))
    }

    /// The hub after a command was acknowledged, which only a verbose client asks for.
    pub open spec fn acknowledged(self, cid: u64, verbose: bool) -> Hub {
        if verbose {
            self.pushed(cid, text("+OK\r\n"))
        } else {
            self
        }
    }

    /// The hub after a connection has ended: what it listened to is forgotten.
    pub open spec fn closed(self, cid: u64, reason: Seq<char>, hard: bool) -> Hub {
        if self.conns[cid].closed {
            self
        } else {
            Hub {
                registry: self.registry.without_conn(cid),
                ..self.with_conn(self.conns[cid].finished(reason, hard))
            }
        }
    }
}

/// What one command did.
#[verifier::ext_equal]
pub struct Done {
    pub hub: Hub,
    /// Does the connection go on?
    pub keep: bool,
    /// Which connections the publisher should wait for.
    pub stall: Seq<u64>,
}

/// A command that the connection survives, with nothing to wait for.
pub open spec fn kept(hub: Hub) -> Done {
    Done { hub, keep: true, stall: Seq::empty() }
}

/// A command that ends the connection with no further words.
pub open spec fn refused(hub: Hub) -> Done {
    Done { hub, keep: false, stall: Seq::empty() }
}

/// `CONNECT`: the options that apply after the parse govern the acknowledgement.
pub open spec fn connected(hub: Hub, cid: u64, json: Seq<u8>) -> Done {
    match json_object(json) {
        None => refused(hub),
        Some(members) => {
            let opts = options_after(hub.conns[cid].opts, members);
            kept(
                hub.with_conn(ConnView { opts, ..hub.conns[cid] }).acknowledged(cid, opts.verbose),
            )
        },
    }
}

/// A subscription that has had no message and has no limit.
pub open spec fn new_sub(
    subject: Seq<u8>,
    queue: Option<Seq<u8>>,
    sid: Seq<u8>,
    conn: u64,
) -> SubView {
    SubView {
        subject,
        queue,
        sid,
        conn,
        delivered: 0,
        limit: 0,
        wildcard: subjects::wild(subject),
    }
}

/// `SUB`: an id that is taken keeps the subscription it has, and a filter or a queue name
/// that is no legal subject is an error that the connection survives.
pub open spec fn subscribed(
    hub: Hub,
    cid: u64,
    subject: Seq<u8>,
    queue: Option<Seq<u8>>,
    sid: Seq<u8>,
) -> Done {
    let conn = hub.conns[cid];
    let sub = new_sub(subject, queue, sid, cid);
    let legal = subjects::valid_subject(subject) && (queue matches Some(q)
        ==> subjects::valid_subject(q));
    if !legal {
        kept(hub.pushed(cid, err_line(text(INVALID_SUBJECT))))
    } else if conn.subs.contains_key(sid) {
        kept(hub.acknowledged(cid, conn.opts.verbose))
    } else {
        let held = hub.with_conn(ConnView { subs: conn.subs.insert(sid, sub), ..conn });
        kept(
            (Hub { registry: hub.registry.with(sub.interest()), ..held }).acknowledged(
                cid,
                conn.opts.verbose,
            ),
        )
    }
}

/// `UNSUB`: bounds a subscription or ends it; an unknown id is no error.
pub open spec fn unsubscribed_hub(hub: Hub, cid: u64, sid: Seq<u8>, max: int) -> Done {
    let conn = hub.conns[cid];
    let held = hub.with_conn(ConnView { subs: unsubscribed(conn.subs, sid, max), ..conn });
    let registry = if conn.subs.contains_key(sid) && !conn.subs[sid].can_take(max) {
        hub.registry.without(conn.subs[sid].interest())
    } else {
        hub.registry
    };
    kept((Hub { registry, ..held }).acknowledged(cid, conn.opts.verbose))
}

/// The hub after a status frame for each of a publisher's own inbox subscriptions.
pub open spec fn told_nobody(
    hub: Hub,
    cid: u64,
    inbox: Seq<InterestView>,
    reply: Seq<u8>,
    published: Seq<u8>,
) -> Hub
    decreases inbox.len(),
{
    if inbox.len() == 0 {
        hub
    } else {
        told_nobody(hub, cid, inbox.drop_last(), reply, published).pushed(
            cid,
            status_frame(reply, inbox.last().sid, published),
        )
    }
}

/// The no-responder rule: nothing was delivered, the publisher asked to be told, and it
/// listens on the reply subject.
pub open spec fn answered(hub: Hub, cid: u64, msg: MsgView, delivered: nat) -> Hub {
    match msg.reply {
        Some(reply) => if delivered == 0 && hub.conns[cid].opts.no_responders && reply.len() > 0 {
            told_nobody(hub, cid, hub.registry.reach_of(cid, reply), reply, msg.subject)
        } else {
            hub
        },
        None => hub,
    }
}

/// `PUB` and `HPUB`: the latter only from a client that asked for headers. A subject that is
/// no legal literal is complained about to a pedantic client. A message whose subject holds a
/// wildcard reaches nobody; one with no subject at all is not even a request that nobody
/// heard.
pub open spec fn published(hub: Hub, cid: u64, msg: MsgView, hpub: bool) -> Done {
    let opts = hub.conns[cid].opts;
    if hpub && !opts.headers {
        refused(hub)
    } else {
        let literal = subjects::valid_subject(msg.subject) && !subjects::wild(msg.subject);
        let warned = if opts.pedantic && !literal {
            hub.pushed(cid, err_line(text(INVALID_PUBLISH_SUBJECT)))
        } else {
            hub
        };
        let said = warned.acknowledged(cid, opts.verbose);
        if msg.subject.len() == 0 {
            kept(said)
        } else if subjects::wild(msg.subject) {
            kept(answered(said, cid, msg, 0))
        } else {
            let d = routed(said.conns, said.registry, said.rng, msg, cid);
            let after = Hub {
                conns: d.conns,
                registry: d.registry,
                rng: rng_after(group_names(said.registry.reach(msg.subject)), said.rng),
            };
            Done { hub: answered(after, cid, msg, d.count), keep: true, stall: d.stall }
        }
    }
}

/// An `HPUB` line: without the capability it is dropped without a word, whatever it says;
/// with it, a good line is followed by its publish, a bad one is dropped all the same, and
/// a broken frame is told so first.
pub open spec fn hpub_attempted(hub: Hub, cid: u64, outcome: HpubOutcome) -> Done {
    if !hub.conns[cid].opts.headers {
        refused(hub)
    } else {
        match outcome {
            HpubOutcome::Accepted => kept(hub),
            HpubOutcome::Args => refused(hub),
            HpubOutcome::Frame(message) => refused(hub.pushed(cid, err_line(text(message)))),
        }
    }
}

/// What one command does.
pub open spec fn handled(hub: Hub, cid: u64, ev: EventView) -> Done {
    match ev {
        EventView::Connect(json) => connected(hub, cid, json),
        EventView::Subscribe { subject, queue, sid } => subscribed(hub, cid, subject, queue, sid),
        EventView::Unsubscribe { sid, max } => unsubscribed_hub(hub, cid, sid, max),
        EventView::Publish { subject, reply, hdr, total, body, hpub } => published(
            hub,
            cid,
            MsgView { subject, reply, hdr, body },
            hpub,
        ),
        EventView::Ping => kept(hub.pushed(cid, text("PONG\r\n"))),
        EventView::Pong => kept(hub.with_conn(ConnView { pings: 0, ..hub.conns[cid] })),
        EventView::Info(json) => if json_object(json) is Some {
            kept(hub)
        } else {
            refused(hub)
        },
        EventView::HpubAttempt(outcome) => hpub_attempted(hub, cid, outcome),
        EventView::ClientErr => refused(hub),
        EventView::ClientOk => kept(hub),
    }
}

/// What handling one command asks of the loop that drives the connection.
pub struct Step {
    /// Does the connection go on?
    pub keep: bool,
    /// Connections to wait for before the next command.
    pub stall: Vec<u64>,
}

/// The running server.
pub struct Server {
    pub cfg: Config,
    pub registry: Registry,
    pub conns: Conns,
    pub server_id: String,
    pub server_name: String,
    pub version: &'static str,
    /// Where the listener is bound, once it is: INFO must carry the resolved port.
    pub listen: Option<(String, u16)>,
    /// The number of the last connection.
    pub cids: u64,
    /// How many connections are live.
    pub active: u64,
}

impl Server {
    /// Who is connected and who listens to what.
    pub open spec fn hub(&self) -> Hub {
        Hub { conns: self.conns@, registry: self.registry@, rng: self.registry.rng() }
    }

    /// The parts are sound.
    pub open spec fn wf(&self) -> bool {
        self.registry.wf() && self.conns.wf()
    }

    /// Nothing but the hub differs.
    pub open spec fn same_but_hub(&self, other: &Server) -> bool {
        &&& self.cfg == other.cfg
        &&& self.server_id == other.server_id
        &&& self.server_name == other.server_name
        &&& self.version == other.version
        &&& self.listen == other.listen
        &&& self.cids == other.cids
        &&& self.active == other.active
    }

    /// Queues a frame for a connection.
    fn push(&mut self, cid: u64, frame: Frame)
        requires
            old(self).wf(),
            old(self).hub().conns.contains_key(cid),
        ensures
            final(self).wf(),
            final(self).same_but_hub(old(self)),
            final(self).hub() == old(self).hub().pushed(cid, frame@),
    {
        let ghost hub = self.hub();
        if let Some(conn) = self.conns.take(cid) {
            let mut conn = conn;
            conn.enqueue(frame);
            self.conns.put(conn);
            assert(self.conns@ =~= hub.conns.insert(cid, conn@));
        }
    }

    /// Acknowledges a command to a verbose client.
    fn acknowledge(&mut self, cid: u64, verbose: bool)
        requires
            old(self).wf(),
            old(self).hub().conns.contains_key(cid),
        ensures
            final(self).wf(),
            final(self).same_but_hub(old(self)),
            final(self).hub() == old(self).hub().acknowledged(cid, verbose),
    {
        if verbose {
            self.push(cid, Frame::ok());
        }
    }

    /// Says an error that the connection survives.
    pub fn send_err(&mut self, cid: u64, message: &str)
        requires
            old(self).wf(),
            old(self).hub().conns.contains_key(cid),
        ensures
            final(self).wf(),
            final(self).same_but_hub(old(self)),
            final(self).hub() == old(self).hub().pushed(cid, err_line(text(message))),
    {
        self.push(cid, Frame::err(message));
    }

    /// The options of a connection.
    pub fn opts(&self, cid: u64) -> (r: Options)
        requires
            self.wf(),
            self.hub().conns.contains_key(cid),
        ensures
            r == self.hub().conns[cid].opts,
    {
        match self.conns.get(cid) {
            Some(conn) => conn.opts(),
            None => Options::default(),
        }
    }

    fn on_connect(&mut self, cid: u64, json: &[u8]) -> (r: bool)
        requires
            old(self).wf(),
            old(self).hub().conns.contains_key(cid),
        ensures
            final(self).wf(),
            final(self).same_but_hub(old(self)),
            r == connected(old(self).hub(), cid, json@).keep,
            final(self).hub() == connected(old(self).hub(), cid, json@).hub,
    {
        let ghost hub = self.hub();
        let mut opts = self.opts(cid);
        if !opts.apply_connect(json) {
            return false;
        }
        if let Some(conn) = self.conns.take(cid) {
            let mut conn = conn;
            conn.set_opts(opts);
            self.conns.put(conn);
            assert(self.conns@ =~= hub.conns.insert(cid, conn@));
        }
        self.acknowledge(cid, opts.verbose);
        true
    }

    fn on_subscribe(&mut self, cid: u64, subject: Bytes, queue: Option<Bytes>, sid: Bytes)
        requires
            old(self).wf(),
            old(self).hub().conns.contains_key(cid),
            bytes_of(sid).len() <= crate::proto::field_limit(),
        ensures
            final(self).wf(),
            final(self).same_but_hub(old(self)),
            final(self).hub() == subscribed(
                old(self).hub(),
                cid,
                bytes_of(subject),
                crate::proto::optional_bytes(queue),
                bytes_of(sid),
            ).hub,
    {
        let ghost hub = self.hub();
        let legal_queue = match &queue {
            Some(q) => subjects::is_valid(q),
            None => true,
        };
        if !subjects::is_valid(&subject) || !legal_queue {
            self.send_err(cid, INVALID_SUBJECT);
            return;
        }
        let verbose = self.opts(cid).verbose;
        if let Some(conn) = self.conns.take(cid) {
            let mut conn = conn;
            let ghost was = conn@;
            if !conn.holds(&sid) {
                let sub = Sub::new(subject, queue, sid, cid);
                self.registry.insert(&sub);
                conn.subscribe(sub);
            }
            self.conns.put(conn);
            assert(self.conns@ =~= hub.conns.insert(cid, conn@));
            assert(hub.conns.insert(cid, was) =~= hub.conns);
        }
        self.acknowledge(cid, verbose);
    }

    fn on_unsubscribe(&mut self, cid: u64, sid: &[u8], max: i64)
        requires
            old(self).wf(),
            old(self).hub().conns.contains_key(cid),
        ensures
            final(self).wf(),
            final(self).same_but_hub(old(self)),
            final(self).hub() == unsubscribed_hub(old(self).hub(), cid, sid@, max as int).hub,
    {
        let ghost hub = self.hub();
        let verbose = self.opts(cid).verbose;
        if let Some(conn) = self.conns.take(cid) {
            let mut conn = conn;
            if let Some(gone) = conn.unsubscribe(sid, max) {
                self.registry.remove(&gone);
            }
            self.conns.put(conn);
            assert(self.conns@ =~= hub.conns.insert(cid, conn@));
        }
        self.acknowledge(cid, verbose);
    }

    /// The no-responder rule: nothing was delivered, the publisher asked to be told, and
    /// it listens on the reply subject.
    pub fn no_responder_check(&mut self, cid: u64, msg: &Msg, delivered: usize)
        requires
            old(self).wf(),
            old(self).hub().conns.contains_key(cid),
            msg@.subject.len() <= usize::MAX - 32,
        ensures
            final(self).wf(),
            final(self).same_but_hub(old(self)),
            final(self).hub() == answered(old(self).hub(), cid, msg@, delivered as nat),
    {
        let reply: &[u8] = match msg.reply {
            Some(r) => r,
            None => {
                return;
            },
        };
        if delivered != 0 || !self.opts(cid).no_responders || reply.len() == 0 {
            return;
        }
        let inbox = self.registry.matching_of(cid, reply);
        let ghost hub = self.hub();
        let ghost all = interest_views(inbox@);
        let mut k: usize = 0;
        assert(all.take(0) =~= Seq::empty());
        while k < inbox.len()
            invariant
                k <= inbox@.len(),
                all == interest_views(inbox@),
                self.wf(),
                self.same_but_hub(old(self)),
                self.hub().conns.contains_key(cid),
                msg@.subject.len() <= usize::MAX - 32,
                self.hub() == told_nobody(hub, cid, all.take(k as int), reply@, msg@.subject),
            decreases inbox@.len() - k,
        {
            proof {
                assert(all.take(k + 1).drop_last() =~= all.take(k as int));
                assert(all.take(k + 1).last() == all[k as int]);
                self.conns.sound();
            }
            let frame = no_responder_frame(reply, &inbox[k], msg.subject);
            self.push(cid, frame);
            k += 1;
        }
        assert(all.take(k as int) =~= all);
    }

    fn on_publish(&mut self, cid: u64, msg: &Msg, hpub: bool) -> (r: Step)
        requires
            old(self).wf(),
            old(self).hub().conns.contains_key(cid),
            msg@.fits(),
        ensures
            final(self).wf(),
            final(self).same_but_hub(old(self)),
            final(self).hub() == published(old(self).hub(), cid, msg@, hpub).hub,
            r.keep == published(old(self).hub(), cid, msg@, hpub).keep,
            r.stall@ == published(old(self).hub(), cid, msg@, hpub).stall,
    {
        let opts = self.opts(cid);
        if hpub && !opts.headers {
            return Step { keep: false, stall: Vec::new() };
        }
        proof {
            self.conns.sound();
        }
        let literal = subjects::is_valid_publish(msg.subject);
        if opts.pedantic && !literal {
            self.send_err(cid, INVALID_PUBLISH_SUBJECT);
        }
        proof {
            self.conns.sound();
        }
        self.acknowledge(cid, opts.verbose);
        if msg.subject.len() == 0 {
            return Step { keep: true, stall: Vec::new() };
        }
        if subjects::has_wildcard(msg.subject) {
            proof {
                self.conns.sound();
            }
            self.no_responder_check(cid, msg, 0);
            return Step { keep: true, stall: Vec::new() };
        }
        let ghost said = self.hub();
        proof {
            routing_keeps_connections(said.conns, said.registry, said.rng, msg@, cid);
        }
        let outcome = self.registry.route(msg, cid, &mut self.conns);
        assert(self.conns@.dom().contains(cid));
        self.no_responder_check(cid, msg, outcome.count);
        Step { keep: true, stall: outcome.stall }
    }

    /// Executes one command of one connection. The connection is to be closed with no
    /// further words where it does not go on.
    pub fn handle(&mut self, cid: u64, ev: Event) -> (r: Step)
        requires
            old(self).wf(),
            old(self).hub().conns.contains_key(cid),
            event_fits(ev@),
        ensures
            final(self).wf(),
            final(self).same_but_hub(old(self)),
            final(self).hub() == handled(old(self).hub(), cid, ev@).hub,
            r.keep == handled(old(self).hub(), cid, ev@).keep,
            r.stall@ == handled(old(self).hub(), cid, ev@).stall,
    {
        let ghost hub = self.hub();
        let mut keep = true;
        match ev {
            Event::Connect(json) => {
                keep = self.on_connect(cid, &json);
            },
            Event::Subscribe { subject, queue, sid } => {
                self.on_subscribe(cid, subject, queue, sid);
            },
            Event::Unsubscribe { sid, max } => {
                self.on_unsubscribe(cid, &sid, max);
            },
            Event::Publish { subject, reply, hdr, total, body, hpub } => {
                let msg = Msg {
                    subject: &subject,
                    reply: match &reply {
                        Some(r) => Some(r),
                        None => None,
                    },
                    hdr,
                    body: &body,
                };
                return self.on_publish(cid, &msg, hpub);
            },
            Event::Ping => {
                self.push(cid, Frame::pong());
            },
            Event::Pong => {
                if let Some(conn) = self.conns.take(cid) {
                    let mut conn = conn;
                    conn.note_pong();
                    self.conns.put(conn);
                    assert(self.conns@ =~= hub.conns.insert(cid, conn@));
                }
            },
            Event::Info(json) => {
                keep = info_is_an_object(&json);
            },
            Event::HpubAttempt(outcome) => {
                if !self.opts(cid).headers {
                    keep = false;
                } else {
                    match outcome {
                        HpubOutcome::Accepted => {},
                        HpubOutcome::Args => {
                            keep = false;
                        },
                        HpubOutcome::Frame(message) => {
                            self.send_err(cid, message);
                            keep = false;
                        },
                    }
                }
            },
            Event::ClientErr => {
                keep = false;
            },
            Event::ClientOk => {},
        }
        Step { keep, stall: Vec::new() }
    }

    /// Ends a connection, letting whatever is already queued go out first (or, with
    /// `hard`, dropping it).
    fn finish(&mut self, cid: u64, reason: String, hard: bool)
        requires
            old(self).wf(),
            old(self).hub().conns.contains_key(cid),
        ensures
            final(self).wf(),
            final(self).same_but_hub(old(self)),
            final(self).hub() == old(self).hub().closed(cid, reason@, hard),
    {
        let ghost hub = self.hub();
        if let Some(conn) = self.conns.take(cid) {
            let mut conn = conn;
            let ghost was = conn@;
            if hard {
                conn.close_now(&mut self.registry, reason);
            } else {
                conn.close(&mut self.registry, reason);
            }
            self.conns.put(conn);
            assert(self.conns@ =~= hub.conns.insert(cid, conn@));
            assert(hub.conns.insert(cid, was) =~= hub.conns);
        }
    }

    /// Ends a connection, letting whatever is already queued go out first.
    pub fn close(&mut self, cid: u64, reason: String)
        requires
            old(self).wf(),
            old(self).hub().conns.contains_key(cid),
        ensures
            final(self).wf(),
            final(self).same_but_hub(old(self)),
            final(self).hub() == old(self).hub().closed(cid, reason@, false),
    {
        self.finish(cid, reason, false);
    }

    /// Ends a connection at once: what is queued is dropped.
    pub fn close_now(&mut self, cid: u64, reason: String)
        requires
            old(self).wf(),
            old(self).hub().conns.contains_key(cid),
        ensures
            final(self).wf(),
            final(self).same_but_hub(old(self)),
            final(self).hub() == old(self).hub().closed(cid, reason@, true),
    {
        self.finish(cid, reason, true);
    }

    /// Executes one command, and ends the connection where it does not go on.
    pub fn execute(&mut self, cid: u64, ev: Event) -> (r: Step)
        requires
            old(self).wf(),
            old(self).hub().conns.contains_key(cid),
            event_fits(ev@),
        ensures
            final(self).wf(),
            final(self).same_but_hub(old(self)),
            final(self).hub() == executed(old(self).hub(), cid, ev@),
            r.keep == handled(old(self).hub(), cid, ev@).keep,
            r.stall@ == handled(old(self).hub(), cid, ev@).stall,
    {
        proof {
            self.conns.sound();
            handling_keeps_connections(self.hub(), cid, ev@);
        }
        let step = self.handle(cid, ev);
        assert(self.conns@.dom().contains(cid));
        if !step.keep {
            self.close(cid, REFUSED_REASON.to_owned());
        }
        step
    }

    /// A segment that breaks the protocol: says what there is to say, and ends the
    /// connection unless the error is one that it survives. Says whether it goes on.
    pub fn protocol_error(&mut self, cid: u64, err: &ProtoError) -> (r: bool)
        requires
            old(self).wf(),
            old(self).hub().conns.contains_key(cid),
        ensures
            final(self).wf(),
            final(self).same_but_hub(old(self)),
            final(self).hub() == broken(old(self).hub(), cid, *err),
            r == (*err is Soft),
    {
        proof {
            self.conns.sound();
        }
        if let Some(message) = err.err_line() {
            self.send_err(cid, message);
        }
        if !err.closes() {
            return true;
        }
        self.close(cid, describe(err));
        false
    }

    /// The keepalive timer of a connection has fired. Says whether the connection goes on.
    pub fn tick(&mut self, cid: u64) -> (r: bool)
        requires
            old(self).wf(),
            old(self).hub().conns.contains_key(cid),
        ensures
            final(self).wf(),
            final(self).same_but_hub(old(self)),
            r == (old(self).hub().conns[cid].pings < MAX_PINGS_OUT),
            final(self).hub() == (Hub {
                registry: if r || old(self).hub().conns[cid].closed {
                    old(self).hub().registry
                } else {
                    old(self).hub().registry.without_conn(cid)
                },
                ..old(self).hub().with_conn(ticked(old(self).hub().conns[cid]))
            }),
    {
        let ghost hub = self.hub();
        let mut keep = false;
        if let Some(conn) = self.conns.take(cid) {
            let mut conn = conn;
            keep = conn.tick(&mut self.registry);
            self.conns.put(conn);
            assert(self.conns@ =~= hub.conns.insert(cid, conn@));
        }
        keep
    }
}

/// Why a connection that a command ended was closed.
pub const REFUSED_REASON: &'static str = "connection closed by protocol";

/// Why a connection that broke the protocol was closed.
pub open spec fn error_reason(err: ProtoError) -> Seq<char> {
    match err {
        ProtoError::Fatal(message) => "protocol error: Fatal(\""@ + message@ + "\")"@,
        ProtoError::Soft(message) => "protocol error: Soft(\""@ + message@ + "\")"@,
        ProtoError::Silent => "protocol error: Silent"@,
    }
}

/// Why a connection that broke the protocol was closed.
fn describe(err: &ProtoError) -> (r: String)
    ensures
        r@ == error_reason(*err),
{
    let (head, message) = match err {
        ProtoError::Fatal(message) => ("protocol error: Fatal(\"", *message),
        ProtoError::Soft(message) => ("protocol error: Soft(\"", *message),
        ProtoError::Silent => {
            return "protocol error: Silent".to_owned();
        },
    };
    let mut reason = head.to_owned();
    reason.append(message);
    reason.append("\")");
    reason
}

/// The hub after one command, and after the end of a connection that does not go on.
pub open spec fn executed(hub: Hub, cid: u64, ev: EventView) -> Hub {
    let done = handled(hub, cid, ev);
    if done.keep {
        done.hub
    } else {
        done.hub.closed(cid, REFUSED_REASON@, false)
    }
}

/// The hub after a segment that broke the protocol: a fatal error is told and ends the
/// connection, a silent one ends it without a word, a soft one is told and survived.
pub open spec fn broken(hub: Hub, cid: u64, err: ProtoError) -> Hub {
    match err {
        ProtoError::Soft(message) => hub.pushed(cid, err_line(text(message))),
        ProtoError::Fatal(message) => hub.pushed(cid, err_line(text(message))).closed(
            cid,
            error_reason(err),
            false,
        ),
        ProtoError::Silent => hub.closed(cid, error_reason(err), false),
    }
}

/// Every connection stands under its own number.
pub open spec fn numbered(conns: Map<u64, ConnView>) -> bool {
    forall|cid: u64| #[trigger] conns.contains_key(cid) ==> conns[cid].cid == cid
}

proof fn pushing_keeps(hub: Hub, cid: u64, frame: Seq<u8>)
    requires
        hub.conns.contains_key(cid),
        numbered(hub.conns),
    ensures
        hub.pushed(cid, frame).conns.dom() == hub.conns.dom(),
        numbered(hub.pushed(cid, frame).conns),
{
    assert(hub.conns.contains_key(cid) ==> hub.conns[cid].cid == cid);
    assert(hub.pushed(cid, frame).conns.dom() =~= hub.conns.dom());
}

proof fn telling_keeps(
    hub: Hub,
    cid: u64,
    inbox: Seq<InterestView>,
    reply: Seq<u8>,
    published: Seq<u8>,
)
    requires
        hub.conns.contains_key(cid),
        numbered(hub.conns),
    ensures
        told_nobody(hub, cid, inbox, reply, published).conns.dom() == hub.conns.dom(),
        numbered(told_nobody(hub, cid, inbox, reply, published).conns),
    decreases inbox.len(),
{
    if inbox.len() > 0 {
        telling_keeps(hub, cid, inbox.drop_last(), reply, published);
        let before = told_nobody(hub, cid, inbox.drop_last(), reply, published);
        assert(before.conns.dom().contains(cid));
        pushing_keeps(before, cid, status_frame(reply, inbox.last().sid, published));
    }
}

/// A command opens and forgets no connection.
pub proof fn handling_keeps_connections(hub: Hub, cid: u64, ev: EventView)
    requires
        hub.conns.contains_key(cid),
        numbered(hub.conns),
    ensures
        handled(hub, cid, ev).hub.conns.dom() == hub.conns.dom(),
{
    let ok = text("+OK\r\n");
    assert(hub.conns[cid].cid == cid);
    assert(hub.conns.dom().insert(cid) =~= hub.conns.dom());
    match ev {
        EventView::Publish { subject, reply, hdr, total, body, hpub } => {
            let msg = MsgView { subject, reply, hdr, body };
            let opts = hub.conns[cid].opts;
            let literal = subjects::valid_subject(msg.subject) && !subjects::wild(msg.subject);
            let warned = if opts.pedantic && !literal {
                hub.pushed(cid, err_line(text(INVALID_PUBLISH_SUBJECT)))
            } else {
                hub
            };
            pushing_keeps(hub, cid, err_line(text(INVALID_PUBLISH_SUBJECT)));
            assert(warned.conns.dom().contains(cid));
            pushing_keeps(warned, cid, ok);
            let said = warned.acknowledged(cid, opts.verbose);
            assert(said.conns.dom().contains(cid));
            if let Some(r) = reply {
                telling_keeps(said, cid, said.registry.reach_of(cid, r), r, subject);
            }
            routing_keeps_connections(said.conns, said.registry, said.rng, msg, cid);
            routing_keeps_numbers(said.conns, said.registry, said.rng, msg, cid);
            let d = routed(said.conns, said.registry, said.rng, msg, cid);
            let after = Hub {
                conns: d.conns,
                registry: d.registry,
                rng: rng_after(group_names(said.registry.reach(msg.subject)), said.rng),
            };
            assert(after.conns.dom().contains(cid));
            if let Some(r) = reply {
                telling_keeps(after, cid, after.registry.reach_of(cid, r), r, subject);
            }
        },
        _ => {
            assert(handled(hub, cid, ev).hub.conns.dom() =~= hub.conns.dom());
        },
    }
}

// ------------------------------------------------------------------------ lifecycle --

/// What the server says its version is.
pub const VERSION: &'static str = "0.1.0";

impl Server {
    /// A server that listens to nobody yet. The three seeds are the caller's entropy: for
    /// the identifier, for the buckets of the registry, and for the queue groups.
    pub fn new(cfg: Config, id_seed: u64, bucket_seed: u64, group_seed: u64) -> (r: Server)
        ensures
            r.wf(),
            r.cfg == cfg,
            r.hub() == (Hub {
                conns: Map::empty(),
                registry: RegistryView::empty(),
                rng: seeded(group_seed),
            }),
            r.server_id@ == identifier(seeded(id_seed)),
            r.server_name@ == match cfg.server_name {
                Some(name) => name@,
                None => r.server_id@,
            },
            r.version == VERSION,
            r.listen is None,
            r.cids == 0,
            r.active == 0,
    {
        let mut ids = Rng::new(id_seed);
        let id = server_id(&mut ids);
        let name = match &cfg.server_name {
            Some(name) => name.clone(),
            None => id.clone(),
        };
        Server {
            cfg,
            registry: Registry::new(bucket_seed, Rng::new(group_seed)),
            conns: Conns::new(),
            server_id: id,
            server_name: name,
            version: VERSION,
            listen: None,
            cids: 0,
            active: 0,
        }
    }

    /// Nothing but where the listener is bound differs.
    pub open spec fn same_but_listen(&self, other: &Server) -> bool {
        &&& self.cfg == other.cfg
        &&& self.registry == other.registry
        &&& self.conns == other.conns
        &&& self.server_id == other.server_id
        &&& self.server_name == other.server_name
        &&& self.version == other.version
        &&& self.cids == other.cids
        &&& self.active == other.active
    }

    /// The listener is bound. Only the first time counts.
    pub fn set_listen(&mut self, host: String, port: u16)
        ensures
            final(self).same_but_listen(old(self)),
            final(self).listen == match old(self).listen {
                Some(addr) => Some(addr),
                None => Some((host, port)),
            },
    {
        if self.listen.is_none() {
            self.listen = Some((host, port));
        }
    }

    /// Where the listener is bound.
    pub fn listen_addr(&self) -> (r: (String, u16))
        requires
            self.listen is Some,
        ensures
            r.0@ == self.listen->Some_0.0@,
            r.1 == self.listen->Some_0.1,
    {
        match &self.listen {
            Some(addr) => (addr.0.clone(), addr.1),
            None => (String::new(), 0),
        }
    }

    /// A number that no connection has had before it, as long as a machine word can count.
    pub fn next_cid(&mut self) -> (r: u64)
        ensures
            r == plus(old(self).cids, 1),
            final(self).cids == r,
            final(self).cfg == old(self).cfg,
            final(self).registry == old(self).registry,
            final(self).conns == old(self).conns,
            final(self).server_id == old(self).server_id,
            final(self).server_name == old(self).server_name,
            final(self).version == old(self).version,
            final(self).listen == old(self).listen,
            final(self).active == old(self).active,
    {
        self.cids = self.cids.wrapping_add(1);
        self.cids
    }

    /// What clients are told of this server.
    pub open spec fn info(&self) -> InfoView {
        InfoView {
            server_id: self.server_id@,
            server_name: self.server_name@,
            version: self.version@,
            host: self.listen->Some_0.0@,
            port: self.listen->Some_0.1,
            max_payload: self.cfg.max_payload,
        }
    }

    /// The first line of every connection.
    pub fn info_line(&self, cid: u64, client_ip: &str) -> (r: Vec<u8>)
        requires
            self.listen is Some,
        ensures
            r@ == info_line(self.info(), cid, client_ip@),
    {
        let (host, port) = self.listen_addr();
        let info = Info {
            server_id: self.server_id.clone(),
            server_name: self.server_name.clone(),
            version: self.version,
            host,
            port,
            max_payload: self.cfg.max_payload,
        };
        assert(info@ =~= self.info());
        info.line(cid, client_ip)
    }

    /// The limits that a connection is parsed under.
    pub fn limits(&self) -> (r: Limits)
        ensures
            r.max_control_line == self.cfg.max_control_line,
            r.max_payload == self.cfg.max_payload,
    {
        Limits { max_control_line: self.cfg.max_control_line, max_payload: self.cfg.max_payload }
    }

    /// Is there a place for one more connection? A negative limit is none.
    pub open spec fn has_place(&self) -> bool {
        self.cfg.max_connections < 0 || self.active < self.cfg.max_connections
    }

    /// What becomes of a socket where there is a place for it or not: its number, the number of
    /// the last connection, and how many are live.
    pub open spec fn admitted(place: bool, cids: u64, active: u64) -> (Option<u64>, u64, u64) {
        if place {
            (Some(plus(cids, 1)), plus(cids, 1), plus(active, 1))
        } else {
            (None, cids, active)
        }
    }

    /// A socket was accepted: gives it a number, or says that it is over the limit and is
    /// to be dropped without a word.
    pub fn accept(&mut self) -> (r: Option<u64>)
        ensures
            r == if old(self).has_place() {
                Some(plus(old(self).cids, 1))
            } else {
                None
            },
            final(self).active == if old(self).has_place() {
                plus(old(self).active, 1)
            } else {
                old(self).active
            },
            (r, final(self).cids, final(self).active) == Server::admitted(
                old(self).has_place(),
                old(self).cids,
                old(self).active,
            ),
            final(self).cids == match r {
                Some(cid) => cid,
                None => old(self).cids,
            },
            final(self).cfg == old(self).cfg,
            final(self).registry == old(self).registry,
            final(self).conns == old(self).conns,
            final(self).server_id == old(self).server_id,
            final(self).server_name == old(self).server_name,
            final(self).version == old(self).version,
            final(self).listen == old(self).listen,
    {
        if self.cfg.max_connections >= 0 && self.active >= self.cfg.max_connections as u64 {
            return None;
        }
        self.active = self.active.wrapping_add(1);
        Some(self.next_cid())
    }

    /// A connection starts: INFO is queued before anything can be read, so it is always
    /// the first thing that the client sees.
    pub fn attach(&mut self, cid: u64, client_ip: &str)
        requires
            old(self).wf(),
            old(self).listen is Some,
        ensures
            final(self).wf(),
            final(self).same_but_hub(old(self)),
            final(self).hub() == old(self).hub().with_conn(
                ConnView::fresh(cid, old(self).cfg.max_pending).pushed(
                    info_line(old(self).info(), cid, client_ip@),
                ),
            ),
    {
        let line = self.info_line(cid, client_ip);
        let mut conn = Conn::new(cid, self.cfg.max_pending);
        conn.enqueue(Frame::line(bytes_from_vec(line)));
        self.conns.put(conn);
    }

    /// Both loops of a connection have ended: it is forgotten, and there is a place more.
    pub fn detach(&mut self, cid: u64)
        requires
            old(self).wf(),
            old(self).active > 0,
        ensures
            final(self).wf(),
            final(self).hub() == (Hub {
                conns: old(self).hub().conns.remove(cid),
                ..old(self).hub()
            }),
            final(self).active == old(self).active - 1,
            final(self).cfg == old(self).cfg,
            final(self).server_id == old(self).server_id,
            final(self).server_name == old(self).server_name,
            final(self).version == old(self).version,
            final(self).listen == old(self).listen,
            final(self).cids == old(self).cids,
    {
        self.conns.take(cid);
        self.active = self.active - 1;
    }

    /// Has a connection ended? One that is not there has.
    pub fn is_closed(&self, cid: u64) -> (r: bool)
        requires
            self.wf(),
        ensures
            r == (!self.hub().conns.contains_key(cid) || self.hub().conns[cid].closed),
    {
        match self.conns.get(cid) {
            Some(conn) => conn.is_closed(),
            None => true,
        }
    }

    /// Has a connection ended in a way that drops what is queued?
    pub fn hard_closed(&self, cid: u64) -> (r: bool)
        requires
            self.wf(),
        ensures
            r == (!self.hub().conns.contains_key(cid) || self.hub().conns[cid].hard),
    {
        match self.conns.get(cid) {
            Some(conn) => conn.hard_closed(),
            None => true,
        }
    }

    /// May a publisher that waits for that connection go on? It may where there is room, and
    /// where there is nothing left to wait for.
    pub open spec fn not_waited_for(conns: Map<u64, ConnView>, cid: u64) -> bool {
        !conns.contains_key(cid) || conns[cid].closed || conns[cid].out.room()
    }

    /// May a publisher that waits for this connection go on? It may where there is room,
    /// and where there is nothing left to wait for.
    pub fn may_go_on(&self, cid: u64) -> (r: bool)
        requires
            self.wf(),
        ensures
            r == (!self.hub().conns.contains_key(cid) || self.hub().conns[cid].closed
                || self.hub().conns[cid].out.room()),
            r == Server::not_waited_for(self.hub().conns, cid),
    {
        match self.conns.get(cid) {
            Some(conn) => conn.is_closed() || conn.has_room(),
            None => true,
        }
    }

    /// The writer of a connection asks for its next batch. `None` means that nothing is
    /// left and nothing more can come; an empty batch, that there is nothing yet.
    pub fn next_batch(&mut self, cid: u64) -> (r: Option<Vec<Bytes>>)
        requires
            old(self).wf(),
        ensures
            final(self).wf(),
            final(self).same_but_hub(old(self)),
            final(self).hub() == if old(self).hub().conns.contains_key(cid) {
                old(self).hub().with_conn(with_batch(old(self).hub().conns[cid]))
            } else {
                old(self).hub()
            },
            match r {
                Some(parts) => old(self).hub().conns.contains_key(cid) && part_views(parts@)
                    == with_batch(old(self).hub().conns[cid]).out.batch,
                None => old(self).hub().conns.contains_key(cid) ==> {
                    let out = with_batch(old(self).hub().conns[cid]).out;
                    out.gone && out.queue.len() == 0 && out.batch.len() == 0
                },
            },
            r is Some ==> {
                let out = with_batch(old(self).hub().conns[cid]).out;
                !(out.gone && out.queue.len() == 0 && out.batch.len() == 0)
            },
    {
        let ghost hub = self.hub();
        let mut conn = match self.conns.take(cid) {
            Some(conn) => conn,
            None => {
                assert(hub.conns.remove(cid) =~= hub.conns);
                return None;
            },
        };
        if conn.outbox().batch_bytes() == 0 {
            conn.collect();
        }
        let done = conn.outbox().finished();
        let parts = conn.outbox().batch();
        self.conns.put(conn);
        assert(self.conns@ =~= hub.conns.insert(cid, conn@));
        if done {
            return None;
        }
        Some(parts)
    }

    /// The kernel has taken `n` bytes of a connection's batch, or all that is left of it where
    /// that is less. Says whether a publisher that waits for room is to be woken.
    pub fn written(&mut self, cid: u64, n: usize) -> (r: bool)
        requires
            old(self).wf(),
            old(self).hub().conns.contains_key(cid),
        ensures
            final(self).wf(),
            final(self).same_but_hub(old(self)),
            final(self).hub() == old(self).hub().with_conn(
                ConnView {
                    out: old(self).hub().conns[cid].out.wrote(n as nat),
                    ..old(self).hub().conns[cid]
                },
            ),
            r == old(self).hub().conns[cid].out.drain_wakes(
                old(self).hub().conns[cid].out.taken(n as nat),
            ),
    {
        let ghost hub = self.hub();
        let mut woken = false;
        if let Some(conn) = self.conns.take(cid) {
            let mut conn = conn;
            woken = conn.written(n);
            self.conns.put(conn);
            assert(self.conns@ =~= hub.conns.insert(cid, conn@));
        }
        woken
    }

    /// The writer of a connection gives up on its batch. Says whether a publisher that
    /// waits for room is to be woken.
    pub fn abandon(&mut self, cid: u64) -> (r: bool)
        requires
            old(self).wf(),
            old(self).hub().conns.contains_key(cid),
        ensures
            final(self).wf(),
            final(self).same_but_hub(old(self)),
            final(self).hub() == old(self).hub().with_conn(
                abandoned(old(self).hub().conns[cid]),
            ),
            r == old(self).hub().conns[cid].out.drain_wakes(
                flat(old(self).hub().conns[cid].out.batch).len(),
            ),
    {
        let ghost hub = self.hub();
        let mut woken = false;
        if let Some(conn) = self.conns.take(cid) {
            let mut conn = conn;
            woken = conn.abandon();
            self.conns.put(conn);
            assert(self.conns@ =~= hub.conns.insert(cid, conn@));
        }
        woken
    }
}

/// A connection whose writer has something to write, if there is anything: what is left of
/// its last batch, or its next one.
pub open spec fn with_batch(conn: ConnView) -> ConnView {
    if flat(conn.out.batch).len() == 0 {
        ConnView { out: collected(conn.out), ..conn }
    } else {
        conn
    }
}

/// A connection whose writer has given up on its batch.
pub open spec fn abandoned(conn: ConnView) -> ConnView {
    ConnView {
        out: OutboxView {
            batch: Seq::empty(),
            ..conn.out.drained(flat(conn.out.batch).len())
        },
        ..conn
    }
}

} // verus!
