//! What the registry and the commands do, told by what was there before: who is reached, what a
//! subscription is taken as, and what stays as it was.
use vstd::prelude::*;

use crate::client::{
    a_closed_outbox_has_room, a_frame_goes_out_last, err_line, member_value, ConnView,
};
use crate::json::json_object;
use crate::laws::{
    backed, every_command_is_sound, filter_is_tidy, filtered_is_there, push_contains,
    reach_is_tidy, reach_is_what_is_wanted, registered, sound, tidy,
};
use crate::proto::{
    event_fits, EventView, HpubOutcome, ProtoError, INVALID_PUBLISH_SUBJECT, INVALID_SUBJECT,
    MAX_PAYLOAD, STALE_CONNECTION, UNKNOWN_OP,
};
use crate::routing::{
    about, held_by, holds, matching, same_interest, spared, InterestView, PatternView,
    RegistryView, SubView,
};
use crate::server::{error_reason, executed, handled, Hub};
use crate::subjects;
use crate::text::{ascii_text, text};

verus! {

// ------------------------------------------------------------------------- registry --

/// A message reaches exactly the subscriptions that are registered and whose filter matches its
/// subject, each of them once; and of a connection's own, exactly those that it holds. Whether
/// the filter is a literal or a wildcard makes no difference.
pub proof fn who_is_reached(r: RegistryView, cid: u64, subject: Seq<u8>, x: InterestView)
    requires
        tidy(r),
    ensures
        r.reach(subject).contains(x) <==> registered(r, x) && subjects::subject_matches(
            x.subject,
            subject,
        ),
        r.reach_of(cid, subject).contains(x) <==> registered(r, x) && x.cid == cid
            && subjects::subject_matches(x.subject, subject),
        r.reach(subject).no_duplicates(),
        r.reach_of(cid, subject).no_duplicates(),
{
    reach_is_tidy(r, subject);
    reach_is_what_is_wanted(r, x, subject);
    filter_is_tidy(r.reach(subject), held_by(cid));
    assert(held_by(cid)(x) == (x.cid == cid));
    if !subjects::wild(x.subject) {
        subjects::a_literal_matches_only_itself(x.subject, subject);
    }
}

/// Registering a subscription adds it and nothing else. One with the same id, filter and
/// connection that is there already stays, and then nothing changes.
pub proof fn what_is_registered(r: RegistryView, i: InterestView, x: InterestView)
    requires
        tidy(r),
    ensures
        ({
            let known = exists|y: InterestView| #[trigger]
                registered(r, y) && y.cid == i.cid && y.sid == i.sid && y.subject == i.subject;
            let after = r.with(i);
            &&& known ==> after == r
            &&& !known ==> {
                &&& registered(after, x) <==> registered(r, x) || x == i
                &&& after.count() == r.count() + 1
            }
        }),
{
    reveal(holds);
    let list = r.list_for(i);
    if r.knows(i) {
        let k = choose|k: int| 0 <= k < list.len() && same_interest(#[trigger] list[k], i);
        assert(list.contains(list[k]));
        assert(registered(r, list[k]));
    } else {
        assert forall|y: InterestView| #[trigger] registered(r, y) implies !(y.cid == i.cid
            && y.sid == i.sid && y.subject == i.subject) by {
            if y.cid == i.cid && y.sid == i.sid && y.subject == i.subject {
                stands_with_its_kind(r, y);
                let k = list.index_of(y);
                assert(same_interest(list[k], i));
            }
        }
        push_contains(list, i, x);
    }
}

/// A registered subscription stands in the list that it belongs to, and in no other.
proof fn stands_with_its_kind(r: RegistryView, y: InterestView)
    requires
        r.wf(),
    ensures
        registered(r, y) <==> r.list_for(y).contains(y),
        r.literal.contains(y) ==> !subjects::wild(y.subject),
        r.wildcard.contains(y) ==> subjects::wild(y.subject),
{
    if r.literal.contains(y) {
        assert(!subjects::wild(r.literal[r.literal.index_of(y)].subject));
    }
    if r.wildcard.contains(y) {
        assert(subjects::wild(r.wildcard[r.wildcard.index_of(y)].subject));
    }
}

/// Striking a subscription takes out what has its id on its connection and is of its kind: the
/// same literal, or a wildcard. Everything else stays.
pub proof fn what_is_struck(r: RegistryView, i: InterestView, x: InterestView)
    requires
        tidy(r),
    ensures
        registered(r.without(i), x) <==> registered(r, x) && !(x.cid == i.cid && x.sid == i.sid
            && (if subjects::wild(i.subject) {
            subjects::wild(x.subject)
        } else {
            x.subject == i.subject
        })),
        r.without(i).count() <= r.count(),
{
    let w = PatternView { cid: i.cid, sid: Some(i.sid), subject: None };
    let l = PatternView { cid: i.cid, sid: Some(i.sid), subject: Some(i.subject) };
    filter_is_tidy(r.wildcard, spared(w));
    filter_is_tidy(r.literal, spared(l));
    stands_with_its_kind(r, x);
    r.wildcard.lemma_filter_len(spared(w));
    r.literal.lemma_filter_len(spared(l));
    assert(spared(w)(x) == !(x.cid == i.cid && x.sid == i.sid));
    assert(spared(l)(x) == !(x.cid == i.cid && x.sid == i.sid && x.subject == i.subject));
}

/// Forgetting a connection takes out everything that it held, and nothing else.
pub proof fn what_is_forgotten(r: RegistryView, cid: u64, x: InterestView)
    requires
        tidy(r),
    ensures
        registered(r.without_conn(cid), x) <==> registered(r, x) && x.cid != cid,
{
    let p = PatternView { cid, sid: None, subject: None };
    filter_is_tidy(r.wildcard, spared(p));
    filter_is_tidy(r.literal, spared(p));
    assert(spared(p)(x) == (x.cid != cid));
}

/// Where two elements of a list pass a filter, the one that stood first stands first.
proof fn a_filter_keeps_the_order(
    list: Seq<InterestView>,
    f: spec_fn(InterestView) -> bool,
    i: int,
    j: int,
)
    requires
        list.no_duplicates(),
        0 <= i < j < list.filter(f).len(),
    ensures
        list.contains(list.filter(f)[i]),
        list.contains(list.filter(f)[j]),
        list.index_of(list.filter(f)[i]) < list.index_of(list.filter(f)[j]),
    decreases list.len(),
{
    reveal(Seq::filter);
    let t = list.filter(f);
    let a = filtered_is_there(list, f, i);
    let b = filtered_is_there(list, f, j);
    assert(list.index_of(t[i]) == a && list.index_of(t[j]) == b);
    let less = list.drop_last();
    let u = less.filter(f);
    assert(less.no_duplicates());
    if j < u.len() {
        assert(t[i] == u[i] && t[j] == u[j]);
        a_filter_keeps_the_order(less, f, i, j);
        let c = less.index_of(u[i]);
        let d = less.index_of(u[j]);
        assert(list[c] == t[i] && list[d] == t[j]);
    } else {
        assert(t[j] == list.last() && b == list.len() - 1);
        assert(t[i] == u[i]);
        let c = filtered_is_there(less, f, i);
        assert(list[c] == t[i]);
    }
}

/// A message is offered in the order in which the subscriptions came, first to the literal ones
/// and then to those with a wildcard; a new one is the last of its kind.
pub proof fn the_order_of_subscriptions(
    r: RegistryView,
    subject: Seq<u8>,
    i: int,
    j: int,
    new: InterestView,
)
    requires
        tidy(r),
        0 <= i < j < r.reach(subject).len(),
    ensures
        ({
            let (a, b) = (r.reach(subject)[i], r.reach(subject)[j]);
            &&& subjects::wild(a.subject) ==> subjects::wild(b.subject) && r.wildcard.index_of(a)
                < r.wildcard.index_of(b)
            &&& !subjects::wild(b.subject) ==> !subjects::wild(a.subject) && r.literal.index_of(a)
                < r.literal.index_of(b)
        }),
        r.literal.is_prefix_of(r.with(new).literal),
        r.wildcard.is_prefix_of(r.with(new).wildcard),
{
    let reach = r.reach(subject);
    let lit = r.literal.filter(about(subject));
    let wild = r.wildcard.filter(matching(subject));
    let (a, b) = (reach[i], reach[j]);
    let n = lit.len() as int;
    if i < n {
        let k = filtered_is_there(r.literal, about(subject), i);
        assert(!subjects::wild(r.literal[k].subject));
    } else {
        let k = filtered_is_there(r.wildcard, matching(subject), i - n);
        assert(subjects::wild(r.wildcard[k].subject));
    }
    if j < n {
        let k = filtered_is_there(r.literal, about(subject), j);
        assert(!subjects::wild(r.literal[k].subject));
        a_filter_keeps_the_order(r.literal, about(subject), i, j);
    } else {
        let k = filtered_is_there(r.wildcard, matching(subject), j - n);
        assert(subjects::wild(r.wildcard[k].subject));
        if i >= n {
            a_filter_keeps_the_order(r.wildcard, matching(subject), i - n, j - n);
        }
    }
    assert(r.literal =~= r.with(new).literal.subrange(0, r.literal.len() as int));
    assert(r.wildcard =~= r.with(new).wildcard.subrange(0, r.wildcard.len() as int));
}

/// A connection's own subscriptions are offered a message in the order in which all of them are.
pub proof fn the_order_of_a_connections_own(
    r: RegistryView,
    cid: u64,
    subject: Seq<u8>,
    i: int,
    j: int,
)
    requires
        tidy(r),
        0 <= i < j < r.reach_of(cid, subject).len(),
    ensures
        ({
            let (all, own) = (r.reach(subject), r.reach_of(cid, subject));
            all.contains(own[i]) && all.contains(own[j]) && all.index_of(own[i]) < all.index_of(
                own[j],
            )
        }),
{
    reach_is_tidy(r, subject);
    a_filter_keeps_the_order(r.reach(subject), held_by(cid), i, j);
}

/// A filter that one element alone does not pass takes out that one.
proof fn one_is_taken_out(
    list: Seq<InterestView>,
    f: spec_fn(InterestView) -> bool,
    x: InterestView,
)
    requires
        list.no_duplicates(),
        forall|y: InterestView| #[trigger] list.contains(y) ==> (f(y) <==> y != x),
    ensures
        list.filter(f).len() == list.len() - (if list.contains(x) {
            1int
        } else {
            0
        }),
    decreases list.len(),
{
    reveal(Seq::filter);
    if list.len() > 0 {
        let less = list.drop_last();
        let last = list.last();
        assert(list =~= less.push(last));
        assert(less.no_duplicates());
        assert forall|y: InterestView| #[trigger] less.contains(y) implies (f(y) <==> y != x) by {
            push_contains(less, last, y);
        }
        one_is_taken_out(less, f, x);
        push_contains(less, last, x);
        push_contains(less, last, last);
        if less.contains(last) {
            let k = less.index_of(last);
            assert(list[k] == list[list.len() - 1]);
        }
    }
}

/// Where a connection's id stands for one subscription only, striking a registered one leaves one
/// fewer, and striking one that is not registered leaves as many as there were.
pub proof fn how_many_are_left(r: RegistryView, i: InterestView)
    requires
        tidy(r),
        forall|x: InterestView| #[trigger]
            registered(r, x) && x.cid == i.cid && x.sid == i.sid ==> x == i,
    ensures
        r.without(i).count() == r.count() - (if registered(r, i) {
            1int
        } else {
            0
        }),
{
    let w = PatternView { cid: i.cid, sid: Some(i.sid), subject: None };
    let l = PatternView { cid: i.cid, sid: Some(i.sid), subject: Some(i.subject) };
    stands_with_its_kind(r, i);
    if subjects::wild(i.subject) {
        assert forall|y: InterestView| #[trigger] r.wildcard.contains(y) implies (spared(w)(y)
            <==> y != i) by {
            assert(registered(r, y));
        }
        one_is_taken_out(r.wildcard, spared(w), i);
    } else {
        assert forall|y: InterestView| #[trigger] r.literal.contains(y) implies (spared(l)(y)
            <==> y != i) by {
            assert(registered(r, y));
        }
        one_is_taken_out(r.literal, spared(l), i);
    }
}

// ---------------------------------------------------------------------- subscribing --

/// What a connection holds under an id has that id, and is that connection's.
pub open spec fn owned(conns: Map<u64, ConnView>) -> bool {
    forall|c: u64, s: Seq<u8>|
        conns.contains_key(c) && #[trigger] conns[c].subs.contains_key(s) ==> conns[c].subs[s].sid
            == s && conns[c].subs[s].conn == c
}

/// A legal `SUB` with a free id is taken as it was asked: what the connection holds under that
/// id, and what is registered, has that subject, that queue and that id, with no message so far
/// and no limit. Nothing else that is held or registered changes, here or elsewhere.
pub proof fn a_subscription_is_taken_as_asked(
    hub: Hub,
    cid: u64,
    subject: Seq<u8>,
    queue: Option<Seq<u8>>,
    sid: Seq<u8>,
    x: InterestView,
)
    requires
        sound(hub),
        hub.conns.contains_key(cid),
        subjects::valid_subject(subject),
        queue matches Some(q) ==> subjects::valid_subject(q),
        !hub.conns[cid].subs.contains_key(sid),
    ensures
        ({
            let done = handled(hub, cid, EventView::Subscribe { subject, queue, sid });
            let (was, now) = (hub.conns[cid], done.hub.conns[cid]);
            let held = now.subs[sid];
            &&& done.keep
            &&& done.stall.len() == 0
            &&& now.subs.dom() == was.subs.dom().insert(sid)
            &&& held.subject == subject
            &&& held.queue == queue
            &&& held.sid == sid
            &&& held.conn == cid
            &&& held.delivered == 0
            &&& held.limit == 0
            &&& held.wildcard == subjects::wild(subject)
            &&& now.subs.remove(sid) == was.subs
            &&& registered(done.hub.registry, x) <==> registered(hub.registry, x) || {
                &&& x.subject == subject
                &&& x.queue == queue
                &&& x.sid == sid
                &&& x.cid == cid
            }
            &&& done.hub.registry.count() == hub.registry.count() + 1
            &&& now == (ConnView { subs: now.subs, out: now.out, ..was })
            &&& done.hub.conns.remove(cid) == hub.conns.remove(cid)
            &&& done.hub.rng == hub.rng
        }),
{
    let done = handled(hub, cid, EventView::Subscribe { subject, queue, sid });
    let (was, now) = (hub.conns[cid], done.hub.conns[cid]);
    let i = InterestView { subject, queue, cid, sid };
    assert(was.wf() && was.cid == cid);
    what_is_registered(hub.registry, i, x);
    assert forall|y: InterestView| #[trigger] registered(hub.registry, y) implies !(y.cid == cid
        && y.sid == sid && y.subject == subject) by {
        assert(backed(hub.conns, y));
    }
    assert(now.subs.remove(sid) =~= was.subs);
    assert(now.subs.dom() =~= was.subs.dom().insert(sid));
    assert(done.hub.conns.remove(cid) =~= hub.conns.remove(cid));
}

/// A `SUB` that is not carried out, because a name in it is no legal one or because its id is
/// taken, changes nothing that is held or registered; and what is not legal is told, where there
/// is room, behind everything that waits.
pub proof fn a_subscription_that_is_not_taken(
    hub: Hub,
    cid: u64,
    subject: Seq<u8>,
    queue: Option<Seq<u8>>,
    sid: Seq<u8>,
)
    requires
        sound(hub),
        hub.conns.contains_key(cid),
        !subjects::valid_subject(subject) || (queue matches Some(q) && !subjects::valid_subject(q))
            || hub.conns[cid].subs.contains_key(sid),
    ensures
        ({
            let done = handled(hub, cid, EventView::Subscribe { subject, queue, sid });
            let (was, now) = (hub.conns[cid], done.hub.conns[cid]);
            let legal = subjects::valid_subject(subject) && (queue matches Some(q)
                ==> subjects::valid_subject(q));
            let words = text("-ERR 'Invalid Subject'\r\n");
            &&& done.keep
            &&& done.hub.registry == hub.registry
            &&& now == (ConnView { out: now.out, ..was })
            &&& done.hub.conns.remove(cid) == hub.conns.remove(cid)
            &&& !legal && !was.closed && was.out.pending + words.len() <= was.out.hard
                ==> now.out.unsent() == was.out.unsent() + words
        }),
{
    let done = handled(hub, cid, EventView::Subscribe { subject, queue, sid });
    let was = hub.conns[cid];
    assert(was.wf() && was.cid == cid);
    the_words_of_an_error();
    a_frame_goes_out_last(was.out, err_line(text(INVALID_SUBJECT)));
    assert(done.hub.conns.remove(cid) =~= hub.conns.remove(cid));
}

/// An error is told as `-ERR` with its words between apostrophes.
pub proof fn the_words_of_an_error()
    ensures
        err_line(text(INVALID_SUBJECT)) == text("-ERR 'Invalid Subject'\r\n"),
        err_line(text(INVALID_PUBLISH_SUBJECT)) == text("-ERR 'Invalid Publish Subject'\r\n"),
        err_line(text(STALE_CONNECTION)) == text("-ERR 'Stale Connection'\r\n"),
        err_line(text(UNKNOWN_OP)) == text("-ERR 'Unknown Protocol Operation'\r\n"),
        err_line(text(MAX_PAYLOAD)) == text("-ERR 'Maximum Payload Violation'\r\n"),
{
    reveal_strlit("-ERR '");
    reveal_strlit("'\r\n");
    ascii_text("-ERR '");
    ascii_text("'\r\n");
    reveal_strlit("Invalid Subject");
    reveal_strlit("-ERR 'Invalid Subject'\r\n");
    ascii_text("Invalid Subject");
    ascii_text("-ERR 'Invalid Subject'\r\n");
    assert(err_line(text(INVALID_SUBJECT)) =~= text("-ERR 'Invalid Subject'\r\n"));
    reveal_strlit("Invalid Publish Subject");
    reveal_strlit("-ERR 'Invalid Publish Subject'\r\n");
    ascii_text("Invalid Publish Subject");
    ascii_text("-ERR 'Invalid Publish Subject'\r\n");
    assert(err_line(text(INVALID_PUBLISH_SUBJECT)) =~= text("-ERR 'Invalid Publish Subject'\r\n"));
    reveal_strlit("Stale Connection");
    reveal_strlit("-ERR 'Stale Connection'\r\n");
    ascii_text("Stale Connection");
    ascii_text("-ERR 'Stale Connection'\r\n");
    assert(err_line(text(STALE_CONNECTION)) =~= text("-ERR 'Stale Connection'\r\n"));
    reveal_strlit("Unknown Protocol Operation");
    reveal_strlit("-ERR 'Unknown Protocol Operation'\r\n");
    ascii_text("Unknown Protocol Operation");
    ascii_text("-ERR 'Unknown Protocol Operation'\r\n");
    assert(err_line(text(UNKNOWN_OP)) =~= text("-ERR 'Unknown Protocol Operation'\r\n"));
    reveal_strlit("Maximum Payload Violation");
    reveal_strlit("-ERR 'Maximum Payload Violation'\r\n");
    ascii_text("Maximum Payload Violation");
    ascii_text("-ERR 'Maximum Payload Violation'\r\n");
    assert(err_line(text(MAX_PAYLOAD)) =~= text("-ERR 'Maximum Payload Violation'\r\n"));
}

/// `UNSUB` with a count that the subscription has not reached makes that count its limit, and
/// leaves it registered. With none, or one that it has reached, the subscription is gone, from
/// the connection and from the registry. An id that is not held changes nothing. No other
/// subscription, and no other connection, is touched.
pub proof fn an_unsubscription_does_what_it_says(
    hub: Hub,
    cid: u64,
    sid: Seq<u8>,
    max: int,
    x: InterestView,
)
    requires
        sound(hub),
        hub.conns.contains_key(cid),
        owned(hub.conns),
        max <= i64::MAX,
    ensures
        ({
            let done = handled(hub, cid, EventView::Unsubscribe { sid, max });
            let (was, now) = (hub.conns[cid], done.hub.conns[cid]);
            let held = was.subs.contains_key(sid);
            let goes_on = held && max > 0 && was.subs[sid].delivered < max;
            &&& done.keep
            &&& done.stall.len() == 0
            &&& now == (ConnView { subs: now.subs, out: now.out, ..was })
            &&& done.hub.conns.remove(cid) == hub.conns.remove(cid)
            &&& now.subs.remove(sid) == was.subs.remove(sid)
            &&& now.subs.contains_key(sid) <==> goes_on
            &&& goes_on ==> now.subs[sid] == (SubView { limit: max as u64, ..was.subs[sid] })
            &&& registered(done.hub.registry, x) <==> registered(hub.registry, x) && (x.cid == cid
                && x.sid == sid ==> goes_on)
        }),
{
    let done = handled(hub, cid, EventView::Unsubscribe { sid, max });
    let (was, now) = (hub.conns[cid], done.hub.conns[cid]);
    assert(was.wf() && was.cid == cid);
    if was.subs.contains_key(sid) {
        what_is_struck(hub.registry, was.subs[sid].interest(), x);
    }
    if registered(hub.registry, x) {
        assert(backed(hub.conns, x));
    }
    what_the_registry_strikes_is_its_own(hub, cid, sid, x);
    assert(now.subs.remove(sid) =~= was.subs.remove(sid));
    assert(done.hub.conns.remove(cid) =~= hub.conns.remove(cid));
}

/// On a connection an id stands for one subscription only.
proof fn what_the_registry_strikes_is_its_own(hub: Hub, cid: u64, sid: Seq<u8>, x: InterestView)
    requires
        sound(hub),
        hub.conns.contains_key(cid),
    ensures
        registered(hub.registry, x) && x.cid == cid && x.sid == sid
            ==> hub.conns[cid].subs.contains_key(sid) && x == hub.conns[cid].subs[sid].interest(),
{
    if registered(hub.registry, x) {
        assert(backed(hub.conns, x));
    }
}

// --------------------------------------------------------------- the other commands --

/// A `PONG` starts the count of unanswered probes over, and changes nothing else. `+OK` changes
/// nothing at all, and neither does an `INFO` that is an object. A client's `-ERR`, and an
/// object that is none, end the connection without a word; an `HPUB` from a client that did not
/// ask for headers does so whatever is wrong or right with it.
pub proof fn the_small_commands(hub: Hub, cid: u64, arg: Seq<u8>, outcome: HpubOutcome)
    requires
        sound(hub),
        hub.conns.contains_key(cid),
    ensures
        ({
            let pong = handled(hub, cid, EventView::Pong);
            &&& pong.keep
            &&& pong.hub.conns[cid] == (ConnView { pings: 0, ..hub.conns[cid] })
            &&& pong.hub.conns.remove(cid) == hub.conns.remove(cid)
            &&& pong.hub.registry == hub.registry
        }),
        ({
            let ok = handled(hub, cid, EventView::ClientOk);
            ok.keep && ok.hub == hub && ok.stall.len() == 0
        }),
        ({
            let info = handled(hub, cid, EventView::Info(arg));
            info.keep == (json_object(arg) is Some) && info.hub == hub
        }),
        ({
            let err = handled(hub, cid, EventView::ClientErr);
            !err.keep && err.hub == hub
        }),
        ({
            let connect = handled(hub, cid, EventView::Connect(arg));
            json_object(arg) is None ==> !connect.keep && connect.hub == hub
        }),
        ({
            let hpub = handled(hub, cid, EventView::HpubAttempt(outcome));
            &&& hpub.keep == (hub.conns[cid].opts.headers && outcome is Accepted)
            &&& hpub.hub.registry == hub.registry
            &&& outcome is Frame && hub.conns[cid].opts.headers || hpub.hub == hub
        }),
{
    let pong = handled(hub, cid, EventView::Pong);
    assert(hub.conns[cid].cid == cid);
    assert(pong.hub.conns.remove(cid) =~= hub.conns.remove(cid));
}

/// A command that the connection survives is all that happened. One that it does not survive ends
/// it softly, as closed by the protocol: what was queued still goes out, and nothing of it is
/// registered any more.
pub proof fn a_command_is_survived_or_not(hub: Hub, cid: u64, ev: EventView, x: InterestView)
    requires
        sound(hub),
        hub.conns.contains_key(cid),
        ev is Subscribe ==> !hub.conns[cid].closed,
        event_fits(ev),
    ensures
        ({
            let done = handled(hub, cid, ev);
            let after = executed(hub, cid, ev);
            &&& done.keep ==> after == done.hub
            &&& !done.keep && !done.hub.conns[cid].closed ==> {
                &&& after.conns[cid].closed
                &&& !after.conns[cid].hard
                &&& after.conns[cid].reason == Some("connection closed by protocol"@)
                &&& after.conns[cid].out.unsent() == done.hub.conns[cid].out.unsent()
                &&& registered(after.registry, x) <==> registered(done.hub.registry, x) && x.cid
                    != cid
            }
        }),
{
    let done = handled(hub, cid, ev);
    every_command_is_sound(hub, cid, ev);
    assert(done.hub.conns.dom().contains(cid));
    an_end_does_what_it_says(done.hub, cid, "connection closed by protocol"@, false, x);
}

/// A connection that broke the protocol is closed for a reason that names the kind of the error,
/// and its words where it has any.
pub proof fn why_a_broken_connection_ends(message: &'static str)
    ensures
        error_reason(ProtoError::Fatal(message)) == "protocol error: Fatal(\""@ + message@
            + "\")"@,
        error_reason(ProtoError::Soft(message)) == "protocol error: Soft(\""@ + message@ + "\")"@,
        error_reason(ProtoError::Silent) == "protocol error: Silent"@,
{
}

/// A frame of an `HPUB` that broke is told so, to a client that asked for headers, and then the
/// connection does not go on.
pub proof fn a_broken_frame_is_told(hub: Hub, cid: u64, message: &'static str)
    requires
        sound(hub),
        hub.conns.contains_key(cid),
        !hub.conns[cid].closed,
        hub.conns[cid].opts.headers,
        hub.conns[cid].out.unsent().len() + err_line(text(message)).len()
            <= hub.conns[cid].out.hard,
    ensures
        ({
            let done = handled(hub, cid, EventView::HpubAttempt(HpubOutcome::Frame(message)));
            &&& !done.keep
            &&& done.hub.conns[cid].out.unsent() == hub.conns[cid].out.unsent() + (text("-ERR '")
                + text(message) + text("'\r\n"))
            &&& done.hub.conns.remove(cid) == hub.conns.remove(cid)
        }),
{
    let done = handled(hub, cid, EventView::HpubAttempt(HpubOutcome::Frame(message)));
    assert(hub.conns[cid].wf() && hub.conns[cid].cid == cid);
    a_frame_goes_out_last(hub.conns[cid].out, err_line(text(message)));
    assert(done.hub.conns.remove(cid) =~= hub.conns.remove(cid));
}

/// A `CONNECT` sets each option to the first boolean that its object has under that name. What
/// the object does not name, and what is no boolean, stays as it was; other connections and
/// everything registered stay too.
pub proof fn a_connect_sets_what_it_names(
    hub: Hub,
    cid: u64,
    arg: Seq<u8>,
    members: Seq<(Seq<char>, Option<bool>)>,
    k: int,
)
    requires
        sound(hub),
        hub.conns.contains_key(cid),
        json_object(arg) == Some(members),
        0 <= k < members.len(),
        forall|j: int| 0 <= j < k ==> (#[trigger] members[j]).0 != members[k].0,
    ensures
        ({
            let done = handled(hub, cid, EventView::Connect(arg));
            let (was, now) = (hub.conns[cid].opts, done.hub.conns[cid].opts);
            let (name, value) = members[k];
            &&& done.keep
            &&& name == "verbose"@ ==> now.verbose == value.unwrap_or(was.verbose)
            &&& name == "pedantic"@ ==> now.pedantic == value.unwrap_or(was.pedantic)
            &&& name == "echo"@ ==> now.echo == value.unwrap_or(was.echo)
            &&& name == "headers"@ ==> now.headers == value.unwrap_or(was.headers)
            &&& name == "no_responders"@ ==> now.no_responders == value.unwrap_or(
                was.no_responders,
            )
        }),
{
    assert(hub.conns[cid].cid == cid);
    the_first_member_counts(members, k);
}

proof fn the_first_member_counts(members: Seq<(Seq<char>, Option<bool>)>, k: int)
    requires
        0 <= k < members.len(),
        forall|j: int| 0 <= j < k ==> (#[trigger] members[j]).0 != members[k].0,
    ensures
        member_value(members, members[k].0) == members[k].1,
    decreases k,
{
    if k > 0 {
        let rest = members.skip(1);
        assert(members[0].0 != members[k].0);
        assert(rest[k - 1] == members[k]);
        assert forall|j: int| 0 <= j < k - 1 implies (#[trigger] rest[j]).0 != rest[k - 1].0 by {
            assert(rest[j] == members[j + 1]);
        }
        the_first_member_counts(rest, k - 1);
    }
}

/// An option that a `CONNECT` does not name stays as it was, and so does everything but the
/// options and what waits to be written.
pub proof fn a_connect_leaves_the_rest(
    hub: Hub,
    cid: u64,
    arg: Seq<u8>,
    members: Seq<(Seq<char>, Option<bool>)>,
    name: Seq<char>,
)
    requires
        sound(hub),
        hub.conns.contains_key(cid),
        json_object(arg) == Some(members),
        forall|j: int| 0 <= j < members.len() ==> (#[trigger] members[j]).0 != name,
    ensures
        ({
            let done = handled(hub, cid, EventView::Connect(arg));
            let (was, now) = (hub.conns[cid], done.hub.conns[cid]);
            &&& name == "verbose"@ ==> now.opts.verbose == was.opts.verbose
            &&& name == "pedantic"@ ==> now.opts.pedantic == was.opts.pedantic
            &&& name == "echo"@ ==> now.opts.echo == was.opts.echo
            &&& name == "headers"@ ==> now.opts.headers == was.opts.headers
            &&& name == "no_responders"@ ==> now.opts.no_responders == was.opts.no_responders
            &&& now == (ConnView { opts: now.opts, out: now.out, ..was })
            &&& done.hub.conns.remove(cid) == hub.conns.remove(cid)
            &&& done.hub.registry == hub.registry
        }),
{
    let done = handled(hub, cid, EventView::Connect(arg));
    assert(hub.conns[cid].cid == cid);
    no_member_says_nothing(members, name);
    assert(done.hub.conns.remove(cid) =~= hub.conns.remove(cid));
}

proof fn no_member_says_nothing(members: Seq<(Seq<char>, Option<bool>)>, name: Seq<char>)
    requires
        forall|j: int| 0 <= j < members.len() ==> (#[trigger] members[j]).0 != name,
    ensures
        member_value(members, name) is None,
    decreases members.len(),
{
    if members.len() > 0 {
        let rest = members.skip(1);
        assert(members[0].0 != name);
        assert forall|j: int| 0 <= j < rest.len() implies (#[trigger] rest[j]).0 != name by {
            assert(rest[j] == members[j + 1]);
        }
        no_member_says_nothing(rest, name);
    }
}

/// A connection that ends is closed for the reason given; what it held is held and registered no
/// more, and nothing else is. What was queued still goes out, unless the end is a hard one. A
/// second end changes nothing.
pub proof fn an_end_does_what_it_says(
    hub: Hub,
    cid: u64,
    reason: Seq<char>,
    hard: bool,
    x: InterestView,
)
    requires
        sound(hub),
        hub.conns.contains_key(cid),
    ensures
        ({
            let after = hub.closed(cid, reason, hard);
            let (was, now) = (hub.conns[cid], after.conns[cid]);
            &&& now.closed
            &&& was.closed ==> after == hub
            &&& !was.closed ==> {
                &&& now.reason == Some(reason)
                &&& now.hard == hard
                &&& now.subs.dom().is_empty()
                &&& now.out.unsent() == if hard {
                    Seq::empty()
                } else {
                    was.out.unsent()
                }
                &&& registered(after.registry, x) <==> registered(hub.registry, x) && x.cid != cid
                &&& now.opts == was.opts
            }
            &&& after.conns.remove(cid) == hub.conns.remove(cid)
        }),
{
    let after = hub.closed(cid, reason, hard);
    assert(hub.conns[cid].wf() && hub.conns[cid].cid == cid);
    what_is_forgotten(hub.registry, cid, x);
    a_closed_outbox_has_room(hub.conns[cid].out, hard);
    assert(after.conns.remove(cid) =~= hub.conns.remove(cid));
    if hard {
        assert(after.conns[cid].closed);
        let none = Seq::<Seq<u8>>::empty();
        assert(!hub.conns[cid].closed ==> after.conns[cid].out.unsent() =~= Seq::<u8>::empty());
    }
}

} // verus!
