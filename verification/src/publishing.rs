//! Who gets a message, and what that does to them, told by what they asked for and by the room
//! that they have.
use vstd::prelude::*;

use crate::client::{
    a_closed_outbox_has_room, a_frame_goes_out_last, err_line, ConnView, Enqueue, OutboxView,
    SLOW_CONSUMER_REASON,
};
use crate::effects::{owned, the_words_of_an_error, who_is_reached};
use crate::fanout::{
    eligible, first_probe, given, given_each, given_groups, group_names, grouped, picked, probed,
    rng_after, routed, start_of, ungrouped, Delivery,
};
use crate::laws::{
    a_group_takes_one_copy, a_message_touches_only_its_reach,
    a_request_that_nobody_hears_is_answered, a_route_counts_what_it_gives,
    a_wildcard_subject_reaches_nobody, backed, copies, deaf, every_listener_gets_a_copy,
    filter_is_tidy, filtered_is_there, given_adds, hears, names_differ, nobody_eligible,
    pick_is_a_member, picks, progress, progress_goes_on, pushing_goes_on, reach_is_tidy,
    registered, routed_hub, routing_goes_on, sound, sound_conns, standing_still, statuses, stream,
    telling_goes_on, the_deaf_are_not_picked, undelivered,
};
use crate::nuid::{advanced, drawn};
use crate::proto::{EventView, INVALID_PUBLISH_SUBJECT};
use crate::routing::{delivery, InterestView, MsgView};
use crate::server::{handled, published, told_nobody, Hub};
use crate::subjects;
use crate::text::text;

verus! {

// --------------------------------------------------------------------------- queues --

/// A frame goes into an open outbox where that leaves no more waiting than may wait: behind
/// everything else, and counted by its length. One that does not fit, or comes after the end,
/// leaves no trace.
pub proof fn what_fits_is_queued(out: OutboxView, frame: Seq<u8>)
    requires
        out.wf(),
    ensures
        ({
            let after = out.pushed(frame);
            let fits = !out.gone && out.unsent().len() + frame.len() <= out.hard;
            &&& fits ==> {
                &&& after.unsent() == out.unsent() + frame
                &&& after.pending == out.pending + frame.len()
                &&& out.outcome(frame.len()) is Queued || out.outcome(frame.len()) is SoftLimit
            }
            &&& !fits ==> {
                &&& after == out
                &&& out.outcome(frame.len()) == if out.gone {
                    Enqueue::Dropped
                } else {
                    Enqueue::SlowConsumer
                }
            }
            &&& after.hard == out.hard
            &&& after.gone == out.gone
            &&& after.wf()
        }),
{
    a_frame_goes_out_last(out, frame);
}

/// Three quarters of the limit, give or take the rounding, are the threshold beyond which a
/// publisher is to wait; at or below it, and after the end, there is room.
pub proof fn where_the_waiting_starts(out: OutboxView, len: nat)
    requires
        out.wf(),
    ensures
        4 * out.soft() <= 3 * out.hard < 4 * out.soft() + 12,
        out.room() <==> out.gone || out.unsent().len() <= out.soft(),
        !out.gone && out.unsent().len() + len <= out.hard ==> (out.outcome(len) is SoftLimit
            <==> out.unsent().len() + len > out.soft()),
{
}

/// A subscription that gets a message while its connection has room for it: the frame is the
/// last thing that the connection is sent, the message counts as one, the subscription has had
/// one more, and comes to its end just when that is its limit. The publisher is to wait for the
/// connection just when what waits is then beyond the threshold. Nothing else changes.
pub proof fn a_message_is_given(d: Delivery, i: InterestView, msg: MsgView)
    requires
        d.conns.contains_key(i.cid),
        d.conns[i.cid].wf(),
        !d.conns[i.cid].closed,
        d.conns[i.cid].subs.contains_key(i.sid),
        d.conns[i.cid].subs[i.sid].delivered < u64::MAX,
        d.conns[i.cid].out.unsent().len() + delivery(
            i.sid,
            d.conns[i.cid].opts.headers,
            msg,
        ).len() <= d.conns[i.cid].out.hard,
    ensures
        ({
            let after = given(d, i, msg);
            let (was, now) = (d.conns[i.cid], after.conns[i.cid]);
            let (held, sub) = (was.subs[i.sid], now.subs[i.sid]);
            &&& now.out.unsent() == was.out.unsent() + delivery(i.sid, was.opts.headers, msg)
            &&& now.subs.dom() == was.subs.dom()
            &&& now.subs.remove(i.sid) == was.subs.remove(i.sid)
            &&& sub.delivered == held.delivered + 1
            &&& sub.subject == held.subject && sub.queue == held.queue && sub.sid == held.sid
            &&& sub.limit == held.limit && sub.conn == held.conn
            &&& now == (ConnView { subs: now.subs, out: now.out, ..was })
            &&& after.conns.remove(i.cid) == d.conns.remove(i.cid)
            &&& after.registry == d.registry
            &&& after.count == d.count + 1
            &&& after.spent == if held.limit != 0 && held.delivered + 1 >= held.limit {
                d.spent.push(i)
            } else {
                d.spent
            }
            &&& after.stall == if now.out.unsent().len() > now.out.soft() {
                d.stall.push(i.cid)
            } else {
                d.stall
            }
        }),
{
    let after = given(d, i, msg);
    let (was, now) = (d.conns[i.cid], after.conns[i.cid]);
    a_frame_goes_out_last(was.out, delivery(i.sid, was.opts.headers, msg));
    assert(after.conns.remove(i.cid) =~= d.conns.remove(i.cid));
    assert(now.subs.dom() =~= was.subs.dom());
    assert(now.subs.remove(i.sid) =~= was.subs.remove(i.sid));
    let counted = was.subs[i.sid].counted();
    assert(counted.delivered == was.subs[i.sid].delivered + 1);
}

/// A subscription whose connection has no room for the message: the connection is closed as too
/// slow, with nothing left to write and nothing held; the message does not count; and the others
/// are untouched.
pub proof fn a_slow_consumer_is_dropped(d: Delivery, i: InterestView, msg: MsgView)
    requires
        d.conns.contains_key(i.cid),
        d.conns[i.cid].wf(),
        !d.conns[i.cid].closed,
        d.conns[i.cid].out.unsent().len() + delivery(
            i.sid,
            d.conns[i.cid].opts.headers,
            msg,
        ).len() > d.conns[i.cid].out.hard,
    ensures
        ({
            let after = given(d, i, msg);
            let now = after.conns[i.cid];
            &&& now.closed
            &&& now.hard
            &&& now.reason == Some(SLOW_CONSUMER_REASON@)
            &&& now.subs.dom().is_empty()
            &&& now.out.unsent().len() == 0
            &&& after.conns.remove(i.cid) == d.conns.remove(i.cid)
            &&& after.registry == d.registry.without_conn(i.cid)
            &&& after.count == d.count
            &&& after.stall == d.stall
        }),
{
    let after = given(d, i, msg);
    a_closed_outbox_has_room(d.conns[i.cid].out, true);
    assert(after.conns.remove(i.cid) =~= d.conns.remove(i.cid));
}

// --------------------------------------------------------------------- queue groups --

/// The queue groups of some subscriptions are exactly those that one of them is in, each once.
pub proof fn every_group_is_asked(list: Seq<InterestView>, name: Seq<u8>)
    ensures
        group_names(list).contains(name) <==> exists|k: int|
            0 <= k < list.len() && (#[trigger] list[k]).queue == Some(name),
        group_names(list).no_duplicates(),
    decreases list.len(),
{
    names_differ(list);
    if list.len() > 0 {
        let less = list.drop_last();
        let before = group_names(less);
        every_group_is_asked(less, name);
        if before.contains(name) {
            let k = choose|k: int| 0 <= k < less.len() && (#[trigger] less[k]).queue == Some(name);
            assert(list[k] == less[k]);
        }
        if let Some(last) = list.last().queue {
            let more = before.push(last);
            assert(more[before.len() as int] == last);
            if before.contains(name) {
                assert(more[before.index_of(name)] == name);
            }
            if more.contains(name) && name != last {
                assert(before[more.index_of(name)] == name);
            }
            assert(list[list.len() - 1].queue == Some(last));
        }
        if exists|k: int| 0 <= k < list.len() && (#[trigger] list[k]).queue == Some(name) {
            let k = choose|k: int| 0 <= k < list.len() && (#[trigger] list[k]).queue == Some(name);
            if k < list.len() - 1 {
                assert(less[k] == list[k]);
            }
        }
    }
}

/// The member of a group that gets a message: there is one just when some member may have it.
/// The search goes once round the group from a given place, and takes the first member that may
/// have it and has room; only where none has room, the first that may have it.
pub proof fn the_pick_is_the_first_with_room(
    conns: Map<u64, ConnView>,
    members: Seq<InterestView>,
    start: usize,
    from: u64,
)
    ensures
        ({
            let n = members.len() as int;
            let at = |k: int| members[(start + k) % n];
            let fit = |m: InterestView| eligible(conns, m, from) && conns[m.cid].out.room();
            match picked(conns, members, start, from) {
                None => forall|k: int|
                    0 <= k < n ==> !eligible(conns, #[trigger] members[k], from),
                Some(m) => {
                    ||| fit(m) && exists|k: int|
                        0 <= k < n && m == #[trigger] at(k) && forall|j: int|
                            0 <= j < k ==> !fit(#[trigger] at(j))
                    ||| eligible(conns, m, from) && (forall|j: int|
                        0 <= j < n ==> !fit(#[trigger] at(j))) && exists|k: int|
                        0 <= k < n && m == #[trigger] at(k) && forall|j: int|
                            0 <= j < k ==> !eligible(conns, #[trigger] at(j), from)
                },
            }
        }),
{
    let n = members.len() as int;
    let at = |k: int| members[(start + k) % n];
    let fit = |m: InterestView| eligible(conns, m, from) && conns[m.cid].out.room();
    let a = the_search(conns, members, start, from, true, 0);
    let b = the_search(conns, members, start, from, false, 0);
    assert forall|k: int| 0 <= k < n implies #[trigger] at(k) == probed(members, start, k) by {}
    match picked(conns, members, start, from) {
        None => {
            nobody_eligible(conns, members, start, from);
        },
        Some(m) => {
            if first_probe(conns, members, start, from, true, 0) is Some {
                assert(m == at(a));
                assert forall|j: int| 0 <= j < a implies !fit(#[trigger] at(j)) by {
                    assert(at(j) == probed(members, start, j));
                }
                assert(fit(m));
            } else {
                assert(m == at(b));
                assert forall|j: int| 0 <= j < n implies !fit(#[trigger] at(j)) by {
                    assert(at(j) == probed(members, start, j));
                }
                assert forall|j: int| 0 <= j < b implies !eligible(
                    conns,
                    #[trigger] at(j),
                    from,
                ) by {
                    assert(at(j) == probed(members, start, j));
                }
            }
        },
    }
}

/// Where a search ends: at the first member that will do, or after all of them.
proof fn the_search(
    conns: Map<u64, ConnView>,
    members: Seq<InterestView>,
    start: usize,
    from: u64,
    room: bool,
    k: int,
) -> (end: int)
    requires
        0 <= k <= members.len(),
    ensures
        k <= end <= members.len(),
        forall|j: int| #![trigger probed(members, start, j)]
            k <= j < end ==> !(eligible(conns, probed(members, start, j), from) && (!room
                || conns[probed(members, start, j).cid].out.room())),
        first_probe(conns, members, start, from, room, k) == if end < members.len() {
            Some(probed(members, start, end))
        } else {
            None
        },
        end < members.len() ==> eligible(conns, probed(members, start, end), from) && (!room
            || conns[probed(members, start, end).cid].out.room()),
    decreases members.len() - k,
{
    if k >= members.len() {
        k
    } else {
        let m = probed(members, start, k);
        if eligible(conns, m, from) && (!room || conns[m.cid].out.room()) {
            k
        } else {
            the_search(conns, members, start, from, room, k + 1)
        }
    }
}

/// Where the search in a group starts is drawn anew for each message that has a group to go to;
/// a message without one draws nothing.
pub proof fn a_draw_decides_where_to_start(names: Seq<Seq<u8>>, rng: u64)
    ensures
        names.len() > 0 ==> start_of(names, rng) == drawn(rng) as usize && rng_after(names, rng)
            == advanced(rng),
        names.len() == 0 ==> rng_after(names, rng) == rng,
{
}

/// In a group whose members may all have the message and all have room, the draw alone decides:
/// each place in the group is picked by the draws that fall on it.
pub proof fn a_group_is_fair(
    conns: Map<u64, ConnView>,
    members: Seq<InterestView>,
    start: usize,
    from: u64,
)
    requires
        members.len() > 0,
        forall|k: int|
            0 <= k < members.len() ==> eligible(conns, #[trigger] members[k], from)
                && conns[members[k].cid].out.room(),
    ensures
        picked(conns, members, start, from) == Some(members[start as int % members.len() as int]),
{
    let n = members.len() as int;
    let at = start as int % n;
    assert(0 <= at < n);
    assert(probed(members, start, 0) == members[at]);
    assert(eligible(conns, members[at], from));
}

// ------------------------------------------------------------------------- deliveries --

/// What a delivery that went from `d` to `after` has done to a connection: it is to be waited
/// for just when it got something and has then more waiting than the threshold; and a message
/// that anybody got counts.
spec fn noticed(d: Delivery, after: Delivery, c: u64) -> bool {
    let (was, now) = (d.conns[c], after.conns[c]);
    &&& sound_conns(after.conns)
    &&& after.conns.dom() == d.conns.dom()
    &&& after.count >= d.count
    &&& was.closed ==> now.closed
    &&& now.out.hard == was.out.hard
    &&& d.stall.contains(c) ==> after.stall.contains(c)
    &&& !now.closed ==> {
        let (before, waits) = (was.out.unsent().len(), now.out.unsent().len());
        &&& before <= waits
        &&& before < waits ==> after.count > d.count
        &&& after.stall.contains(c) <==> d.stall.contains(c) || (before < waits && waits
            > now.out.soft())
    }
}

proof fn noticing_goes_on(a: Delivery, b: Delivery, c: Delivery, cid: u64)
    requires
        noticed(a, b, cid),
        noticed(b, c, cid),
    ensures
        noticed(a, c, cid),
{
}

proof fn nothing_noticed(d: Delivery, c: u64)
    requires
        sound_conns(d.conns),
    ensures
        noticed(d, d, c),
{
}

proof fn giving_is_noticed(d: Delivery, i: InterestView, msg: MsgView, c: u64)
    requires
        sound_conns(d.conns),
        d.conns.contains_key(i.cid),
        d.conns.contains_key(c),
    ensures
        noticed(d, given(d, i, msg), c),
{
    let after = given(d, i, msg);
    let conn = d.conns[i.cid];
    let frame = delivery(i.sid, conn.opts.headers, msg);
    given_adds(d, i, msg, c);
    assert(conn.wf());
    assert(after.conns[i.cid].wf());
    stall_contains(d.stall, i.cid, c);
    a_frame_goes_out_last(conn.out, frame);
    assert(frame.len() >= 2);
    if i.cid == c && !after.conns[c].closed {
        assert(after.conns[c].out.pending == after.conns[c].out.unsent().len());
    }
}

proof fn stall_contains(s: Seq<u64>, last: u64, c: u64)
    ensures
        s.push(last).contains(c) <==> s.contains(c) || c == last,
{
    assert(s.push(last)[s.len() as int] == last);
    if s.contains(c) {
        assert(s.push(last)[s.index_of(c)] == c);
    }
    if s.push(last).contains(c) && c != last {
        assert(s[s.push(last).index_of(c)] == c);
    }
}

proof fn giving_each_is_noticed(
    d: Delivery,
    list: Seq<InterestView>,
    msg: MsgView,
    from: u64,
    c: u64,
)
    requires
        sound_conns(d.conns),
        d.conns.contains_key(c),
    ensures
        noticed(d, given_each(d, list, msg, from), c),
    decreases list.len(),
{
    if list.len() == 0 {
        nothing_noticed(d, c);
    } else {
        let less = list.drop_last();
        giving_each_is_noticed(d, less, msg, from, c);
        let before = given_each(d, less, msg, from);
        assert(before.conns.dom().contains(c));
        if eligible(before.conns, list.last(), from) {
            giving_is_noticed(before, list.last(), msg, c);
            noticing_goes_on(d, before, given(before, list.last(), msg), c);
        }
    }
}

proof fn giving_groups_is_noticed(
    d: Delivery,
    reach: Seq<InterestView>,
    names: Seq<Seq<u8>>,
    msg: MsgView,
    from: u64,
    start: usize,
    c: u64,
)
    requires
        sound_conns(d.conns),
        d.conns.contains_key(c),
    ensures
        noticed(d, given_groups(d, reach, names, msg, from, start), c),
    decreases names.len(),
{
    if names.len() == 0 {
        nothing_noticed(d, c);
    } else {
        let less = names.drop_last();
        giving_groups_is_noticed(d, reach, less, msg, from, start, c);
        let before = given_groups(d, reach, less, msg, from, start);
        assert(before.conns.dom().contains(c));
        pick_is_a_member(before.conns, reach, names.last(), start, from);
        if let Some(m) = picked(before.conns, reach.filter(grouped(names.last())), start, from) {
            giving_is_noticed(before, m, msg, c);
            noticing_goes_on(d, before, given(before, m, msg), c);
        }
    }
}

/// A publisher is told to wait for exactly those of the open connections that got something of
/// the message and have then more waiting than the threshold; and a message that anybody got
/// does not count as unheard.
pub proof fn who_is_waited_for(hub: Hub, msg: MsgView, from: u64, c: u64)
    requires
        sound(hub),
        hub.conns.contains_key(c),
    ensures
        ({
            let after = routed(hub.conns, hub.registry, hub.rng, msg, from);
            let (was, now) = (hub.conns[c].out.unsent().len(), after.conns[c].out.unsent().len());
            !after.conns[c].closed ==> {
                &&& after.stall.contains(c) <==> was < now && now > after.conns[c].out.soft()
                &&& was < now ==> after.count > 0
            }
        }),
{
    let reach = hub.registry.reach(msg.subject);
    let names = group_names(reach);
    let plain = reach.filter(ungrouped());
    let d0 = undelivered(hub.conns, hub.registry);
    giving_each_is_noticed(d0, plain, msg, from, c);
    let d1 = given_each(d0, plain, msg, from);
    assert(d1.conns.dom().contains(c));
    let start = start_of(names, hub.rng);
    giving_groups_is_noticed(d1, reach, names, msg, from, start, c);
    noticing_goes_on(d0, d1, given_groups(d1, reach, names, msg, from, start), c);
}

/// Giving a message to everybody on a list counts each of them, where nobody is passed over and
/// nobody is closed for it.
proof fn everybody_counts(d: Delivery, list: Seq<InterestView>, msg: MsgView, from: u64)
    requires
        sound_conns(d.conns),
        d.conns.contains_key(from),
        d.conns[from].opts.echo,
        forall|k: int| 0 <= k < list.len() ==> d.conns.contains_key((#[trigger] list[k]).cid),
        forall|k: int|
            0 <= k < list.len() ==> !given_each(d, list, msg, from).conns[(
            #[trigger] list[k]).cid].closed,
    ensures
        given_each(d, list, msg, from).count == d.count + list.len(),
        given_each(d, list, msg, from).conns[from].opts == d.conns[from].opts,
    decreases list.len(),
{
    if list.len() > 0 {
        let less = list.drop_last();
        let last = list.last();
        let before = given_each(d, less, msg, from);
        assert(list[list.len() - 1] == last);
        assert forall|k: int| 0 <= k < less.len() implies d.conns.contains_key(
            (#[trigger] less[k]).cid,
        ) && !before.conns[less[k].cid].closed by {
            let c = list[k].cid;
            assert(less[k] == list[k]);
            giving_each_is_noticed(d, less, msg, from, c);
            assert(before.conns.dom().contains(c) && before.conns.dom().contains(last.cid));
            if eligible(before.conns, last, from) {
                giving_is_noticed(before, last, msg, c);
            }
        }
        everybody_counts(d, less, msg, from);
        giving_each_is_noticed(d, less, msg, from, last.cid);
        giving_each_is_noticed(d, less, msg, from, from);
        assert(before.conns.dom().contains(last.cid) && before.conns.dom().contains(from));
        assert(eligible(before.conns, last, from)) by {
            if before.conns[last.cid].closed {
                assert(given_each(d, list, msg, from).conns[last.cid].closed);
            }
        }
        given_adds(before, last, msg, last.cid);
        given_adds(before, last, msg, from);
        assert(before.conns[last.cid].wf());
    }
}

/// Giving a message to a member of each group counts each group, where each has a member and
/// nobody is passed over or closed for it.
proof fn every_group_counts(
    d: Delivery,
    reach: Seq<InterestView>,
    names: Seq<Seq<u8>>,
    msg: MsgView,
    from: u64,
    start: usize,
)
    requires
        sound_conns(d.conns),
        d.conns.contains_key(from),
        d.conns[from].opts.echo,
        forall|k: int| 0 <= k < reach.len() ==> d.conns.contains_key((#[trigger] reach[k]).cid),
        forall|k: int|
            0 <= k < reach.len() ==> !given_groups(d, reach, names, msg, from, start).conns[(
            #[trigger] reach[k]).cid].closed,
        forall|j: int|
            0 <= j < names.len() ==> exists|k: int|
                0 <= k < reach.len() && (#[trigger] reach[k]).queue == Some(#[trigger] names[j]),
    ensures
        given_groups(d, reach, names, msg, from, start).count == d.count + names.len(),
        given_groups(d, reach, names, msg, from, start).conns[from].opts == d.conns[from].opts,
    decreases names.len(),
{
    if names.len() > 0 {
        let less = names.drop_last();
        let name = names.last();
        let before = given_groups(d, reach, less, msg, from, start);
        let after = given_groups(d, reach, names, msg, from, start);
        let members = reach.filter(grouped(name));
        pick_is_a_member(before.conns, reach, name, start, from);
        assert forall|k: int| 0 <= k < reach.len() implies !before.conns[(
        #[trigger] reach[k]).cid].closed && before.conns.contains_key(reach[k].cid) by {
            let c = reach[k].cid;
            giving_groups_is_noticed(d, reach, less, msg, from, start, c);
            assert(before.conns.dom().contains(c));
            if let Some(m) = picked(before.conns, members, start, from) {
                giving_is_noticed(before, m, msg, c);
            }
        }
        assert forall|j: int| 0 <= j < less.len() implies exists|k: int|
            0 <= k < reach.len() && (#[trigger] reach[k]).queue == Some(#[trigger] less[j]) by {
            assert(less[j] == names[j]);
        }
        every_group_counts(d, reach, less, msg, from, start);
        giving_groups_is_noticed(d, reach, less, msg, from, start, from);
        assert(before.conns.dom().contains(from));
        assert(names[names.len() - 1] == name);
        let k = choose|k: int| 0 <= k < reach.len() && (#[trigger] reach[k]).queue == Some(name);
        reach.lemma_filter_contains(grouped(name), k);
        let j = members.index_of(reach[k]);
        assert(eligible(before.conns, members[j], from));
        if picked(before.conns, members, start, from) is None {
            nobody_eligible(before.conns, members, start, from);
        }
        let m = picked(before.conns, members, start, from)->0;
        given_adds(before, m, msg, m.cid);
        given_adds(before, m, msg, from);
        assert(before.conns[m.cid].wf());
        let at = reach.index_of(m);
        assert(!after.conns[reach[at].cid].closed);
    }
}

/// A message counts once for each subscription that it reaches and that is in no queue group, and
/// once for each queue group among the others, where the publisher hears itself and nobody is
/// closed for it.
pub proof fn how_many_a_message_reaches(hub: Hub, msg: MsgView, from: u64)
    requires
        sound(hub),
        hub.conns.contains_key(from),
        hub.conns[from].opts.echo,
        forall|k: int| #![trigger hub.registry.reach(msg.subject)[k]]
            0 <= k < hub.registry.reach(msg.subject).len() ==> !routed(
                hub.conns,
                hub.registry,
                hub.rng,
                msg,
                from,
            ).conns[hub.registry.reach(msg.subject)[k].cid].closed,
    ensures
        ({
            let reach = hub.registry.reach(msg.subject);
            routed(hub.conns, hub.registry, hub.rng, msg, from).count == reach.filter(
                ungrouped(),
            ).len() + group_names(reach).len()
        }),
{
    let reach = hub.registry.reach(msg.subject);
    let names = group_names(reach);
    let plain = reach.filter(ungrouped());
    let start = start_of(names, hub.rng);
    let d0 = undelivered(hub.conns, hub.registry);
    let d1 = given_each(d0, plain, msg, from);
    reach_is_tidy(hub.registry, msg.subject);
    assert forall|k: int| 0 <= k < reach.len() implies hub.conns.contains_key(
        (#[trigger] reach[k]).cid,
    ) by {
        assert(reach.contains(reach[k]));
        assert(registered(hub.registry, reach[k]));
    }
    giving_each_is_noticed(d0, plain, msg, from, from);
    assert(d1.conns.dom().contains(from));
    assert forall|k: int| 0 <= k < reach.len() implies d1.conns.contains_key(
        (#[trigger] reach[k]).cid,
    ) && !d1.conns[reach[k].cid].closed by {
        let c = reach[k].cid;
        giving_each_is_noticed(d0, plain, msg, from, c);
        assert(d1.conns.dom().contains(c));
        giving_groups_is_noticed(d1, reach, names, msg, from, start, c);
    }
    assert forall|k: int| 0 <= k < plain.len() implies d0.conns.contains_key(
        (#[trigger] plain[k]).cid,
    ) && !d1.conns[plain[k].cid].closed by {
        let j = filtered_is_there(reach, ungrouped(), k);
        assert(reach[j] == plain[k]);
    }
    everybody_counts(d0, plain, msg, from);
    assert forall|j: int| 0 <= j < names.len() implies exists|k: int|
        0 <= k < reach.len() && (#[trigger] reach[k]).queue == Some(#[trigger] names[j]) by {
        every_group_is_asked(reach, names[j]);
        assert(names.contains(names[j]));
    }
    every_group_counts(d1, reach, names, msg, from, start);
}

// ------------------------------------------------------------------------ publishing --

/// The hub after what a publisher is told at once: the complaint, and the acknowledgement.
spec fn told_at_once(hub: Hub, cid: u64, subject: Seq<u8>) -> Hub {
    let opts = hub.conns[cid].opts;
    let literal = subjects::valid_subject(subject) && !subjects::wild(subject);
    let warned = if opts.pedantic && !literal {
        hub.pushed(cid, err_line(text(INVALID_PUBLISH_SUBJECT)))
    } else {
        hub
    };
    warned.acknowledged(cid, opts.verbose)
}

/// What a publisher is told at once changes nothing but what it is sent.
proof fn telling_at_once(hub: Hub, cid: u64, subject: Seq<u8>)
    requires
        sound(hub),
        hub.conns.contains_key(cid),
    ensures
        ({
            let said = told_at_once(hub, cid, subject);
            &&& progress(hub, said)
            &&& said.registry == hub.registry
            &&& said.rng == hub.rng
            &&& said.conns.contains_key(cid)
            &&& said.conns.remove(cid) == hub.conns.remove(cid)
            &&& said.conns[cid] == (ConnView { out: said.conns[cid].out, ..hub.conns[cid] })
        }),
{
    let opts = hub.conns[cid].opts;
    let complaint = err_line(text(INVALID_PUBLISH_SUBJECT));
    let literal = subjects::valid_subject(subject) && !subjects::wild(subject);
    let warned = if opts.pedantic && !literal {
        hub.pushed(cid, complaint)
    } else {
        hub
    };
    assert(hub.conns[cid].cid == cid);
    standing_still(hub);
    pushing_goes_on(hub, cid, complaint);
    assert(warned.conns.dom().contains(cid));
    standing_still(warned);
    pushing_goes_on(warned, cid, text("+OK\r\n"));
    let said = told_at_once(hub, cid, subject);
    progress_goes_on(hub, warned, said);
    assert(said.conns.remove(cid) =~= hub.conns.remove(cid));
}

/// Telling a publisher that nobody heard changes nothing but what it is sent.
proof fn telling_nobody(
    hub: Hub,
    cid: u64,
    inbox: Seq<InterestView>,
    reply: Seq<u8>,
    dead: Seq<u8>,
)
    requires
        hub.conns.contains_key(cid),
        hub.conns[cid].cid == cid,
    ensures
        ({
            let after = told_nobody(hub, cid, inbox, reply, dead);
            &&& after.registry == hub.registry
            &&& after.conns.contains_key(cid)
            &&& after.conns.remove(cid) == hub.conns.remove(cid)
            &&& after.conns[cid] == (ConnView { out: after.conns[cid].out, ..hub.conns[cid] })
        }),
    decreases inbox.len(),
{
    if inbox.len() > 0 {
        telling_nobody(hub, cid, inbox.drop_last(), reply, dead);
        let before = told_nobody(hub, cid, inbox.drop_last(), reply, dead);
        let after = told_nobody(hub, cid, inbox, reply, dead);
        assert(after.conns.remove(cid) =~= before.conns.remove(cid));
    }
}

/// A publish that goes out: what the publisher is told at once, then the message to everybody
/// that it reaches, then perhaps the word that nobody heard, which only the publisher gets.
proof fn a_publish_goes_out(hub: Hub, cid: u64, msg: MsgView, hpub: bool)
    requires
        sound(hub),
        hub.conns.contains_key(cid),
        hpub ==> hub.conns[cid].opts.headers,
        msg.subject.len() > 0,
        !subjects::wild(msg.subject),
    ensures
        ({
            let said = told_at_once(hub, cid, msg.subject);
            let mid = routed_hub(said, msg, cid);
            let done = published(hub, cid, msg, hpub);
            &&& done.keep
            &&& done.stall == routed(said.conns, said.registry, said.rng, msg, cid).stall
            &&& progress(said, mid)
            &&& progress(mid, done.hub)
            &&& done.hub.registry == mid.registry
            &&& mid.conns.contains_key(cid)
            &&& done.hub.conns.remove(cid) == mid.conns.remove(cid)
            &&& done.hub.conns[cid] == (ConnView { out: done.hub.conns[cid].out, ..mid.conns[cid] })
        }),
{
    let said = told_at_once(hub, cid, msg.subject);
    let mid = routed_hub(said, msg, cid);
    telling_at_once(hub, cid, msg.subject);
    let rng = rng_after(group_names(said.registry.reach(msg.subject)), said.rng);
    routing_goes_on(said, msg, cid, rng);
    standing_still(mid);
    assert(mid.conns.dom().contains(cid));
    assert(mid.conns[cid].cid == cid);
    if let Some(reply) = msg.reply {
        let inbox = mid.registry.reach_of(cid, reply);
        telling_goes_on(mid, cid, inbox, reply, msg.subject);
        telling_nobody(mid, cid, inbox, reply, msg.subject);
    }
}

/// Does that frame go out, whole, among what was added to what a connection is sent?
pub open spec fn goes_out(before: Seq<u8>, after: Seq<u8>, frame: Seq<u8>) -> bool {
    exists|a: Seq<u8>, b: Seq<u8>| after == before + #[trigger] (a + frame + b)
}

/// Among the copies of a message for a list is the one of each that is on it.
proof fn each_has_a_copy(
    list: Seq<InterestView>,
    x: InterestView,
    headers: bool,
    msg: MsgView,
) -> (around: (Seq<u8>, Seq<u8>))
    requires
        list.contains(x),
    ensures
        copies(list, x.cid, headers, msg) == around.0 + delivery(x.sid, headers, msg) + around.1,
    decreases list.len(),
{
    let less = list.drop_last();
    let frame = delivery(x.sid, headers, msg);
    if list.last() == x {
        let a = copies(less, x.cid, headers, msg);
        assert(a + frame + Seq::<u8>::empty() =~= a + frame);
        (a, Seq::empty())
    } else {
        let k = list.index_of(x);
        assert(less[k] == x);
        let (a, b) = each_has_a_copy(less, x, headers, msg);
        let last = if list.last().cid == x.cid {
            delivery(list.last().sid, headers, msg)
        } else {
            Seq::empty()
        };
        assert(a + frame + b + last =~= a + frame + (b + last));
        (a, b + last)
    }
}

/// More in front and more behind changes nothing about what goes out.
proof fn it_still_goes_out(
    s0: Seq<u8>,
    s1: Seq<u8>,
    s2: Seq<u8>,
    s3: Seq<u8>,
    frame: Seq<u8>,
)
    requires
        s0.is_prefix_of(s1),
        goes_out(s1, s2, frame),
        s2.is_prefix_of(s3),
    ensures
        goes_out(s0, s3, frame),
{
    let (a, b) = choose|a: Seq<u8>, b: Seq<u8>| s2 == s1 + #[trigger] (a + frame + b);
    let front = s1.skip(s0.len() as int);
    let back = s3.skip(s2.len() as int);
    assert(s1 =~= s0 + front) by {
        assert(s0 =~= s1.subrange(0, s0.len() as int));
    }
    assert(s3 =~= s2 + back) by {
        assert(s2 =~= s3.subrange(0, s2.len() as int));
    }
    assert(s3 =~= s0 + ((front + a) + frame + (b + back)));
}

/// Routing a message brings it to a subscription that is registered for it and in no group.
proof fn a_route_reaches(hub: Hub, msg: MsgView, from: u64, x: InterestView)
    requires
        sound(hub),
        hub.conns.contains_key(from),
        registered(hub.registry, x),
        x.queue is None,
        subjects::subject_matches(x.subject, msg.subject),
        x.cid == from ==> hub.conns[from].opts.echo,
    ensures
        ({
            let after = routed_hub(hub, msg, from);
            let (was, now) = (hub.conns[x.cid], after.conns[x.cid]);
            &&& !now.closed ==> {
                &&& goes_out(
                    was.out.unsent(),
                    now.out.unsent(),
                    delivery(x.sid, was.opts.headers, msg),
                )
                &&& now.subs.contains_key(x.sid)
                &&& now.subs[x.sid] == was.subs[x.sid].counted()
            }
        }),
{
    let reach = hub.registry.reach(msg.subject);
    let names = group_names(reach);
    let plain = reach.filter(ungrouped());
    who_is_reached(hub.registry, from, msg.subject, x);
    reach_is_tidy(hub.registry, msg.subject);
    filter_is_tidy(reach, ungrouped());
    assert(ungrouped()(x));
    assert(plain.contains(x));
    assert(backed(hub.conns, x));
    assert(!deaf(hub.conns, x.cid, from));
    a_route_counts_what_it_gives(hub, msg, from, x);
    assert forall|k: int| #![trigger reach[k]] 0 <= k < reach.len() implies hub.conns.contains_key(
        reach[k].cid,
    ) by {
        assert(reach.contains(reach[k]));
        assert(registered(hub.registry, reach[k]));
    }
    every_listener_gets_a_copy(hub.conns, hub.registry, hub.rng, msg, from, x.cid);
    let headers = hub.conns[x.cid].opts.headers;
    let (a, b) = each_has_a_copy(plain, x, headers, msg);
    let after = routed_hub(hub, msg, from);
    if !after.conns[x.cid].closed {
        let d1 = given_each(undelivered(hub.conns, hub.registry), plain, msg, from);
        let chosen = picks(d1, reach, names, msg, from, start_of(names, hub.rng));
        let more = copies(chosen, x.cid, headers, msg);
        let frame = delivery(x.sid, headers, msg);
        let (s1, s2) = (stream(hub.conns, x.cid), stream(after.conns, x.cid));
        assert(s2 =~= s1 + (a + frame + (b + more)));
    }
}

/// A subscription that is registered for the subject of a message, and is in no queue group, gets
/// it: whatever the message's body, reply and headers, and whether its filter is a literal or a
/// wildcard. A copy with its id goes out to its connection, if that is still open afterwards, and
/// the subscription has had one message more. Only a publisher that turned the echo off is passed
/// over.
pub proof fn a_publish_reaches_its_listeners(
    hub: Hub,
    cid: u64,
    subject: Seq<u8>,
    reply: Option<Seq<u8>>,
    hdr: nat,
    total: nat,
    body: Seq<u8>,
    hpub: bool,
    x: InterestView,
)
    requires
        sound(hub),
        hub.conns.contains_key(cid),
        hpub ==> hub.conns[cid].opts.headers,
        subject.len() > 0,
        !subjects::wild(subject),
        registered(hub.registry, x),
        x.queue is None,
        subjects::subject_matches(x.subject, subject),
        x.cid == cid ==> hub.conns[cid].opts.echo,
    ensures
        ({
            let done = handled(
                hub,
                cid,
                EventView::Publish { subject, reply, hdr, total, body, hpub },
            );
            let (was, now) = (hub.conns[x.cid], done.hub.conns[x.cid]);
            let frame = delivery(
                x.sid,
                was.opts.headers,
                MsgView { subject, reply, hdr, body },
            );
            &&& done.keep
            &&& !now.closed ==> {
                &&& goes_out(was.out.unsent(), now.out.unsent(), frame)
                &&& now.subs.contains_key(x.sid)
                &&& now.subs[x.sid] == was.subs[x.sid].counted()
            }
        }),
{
    let msg = MsgView { subject, reply, hdr, body };
    let said = told_at_once(hub, cid, subject);
    let mid = routed_hub(said, msg, cid);
    let done = published(hub, cid, msg, hpub);
    telling_at_once(hub, cid, subject);
    a_publish_goes_out(hub, cid, msg, hpub);
    assert(backed(hub.conns, x));
    one_of_them(hub, said, cid, x.cid);
    one_of_them(mid, done.hub, cid, x.cid);
    a_route_reaches(said, msg, cid, x);
    let (was, now) = (hub.conns[x.cid], done.hub.conns[x.cid]);
    if !now.closed {
        assert(said.conns.dom().contains(x.cid) && mid.conns.dom().contains(x.cid));
        assert(hub.conns.contains_key(x.cid) && said.conns.contains_key(x.cid)
            && mid.conns.contains_key(x.cid));
        assert(!mid.conns[x.cid].closed && !said.conns[x.cid].closed);
        it_still_goes_out(
            stream(hub.conns, x.cid),
            stream(said.conns, x.cid),
            stream(mid.conns, x.cid),
            stream(done.hub.conns, x.cid),
            delivery(x.sid, was.opts.headers, msg),
        );
    }
}

/// Where nothing but the outbox of one connection changed, no other part of any did.
proof fn one_of_them(a: Hub, b: Hub, cid: u64, c: u64)
    requires
        a.conns.remove(cid) == b.conns.remove(cid),
        b.conns[cid] == (ConnView { out: b.conns[cid].out, ..a.conns[cid] }),
    ensures
        b.conns[c] == (ConnView { out: b.conns[c].out, ..a.conns[c] }),
        c != cid ==> b.conns[c] == a.conns[c],
{
    if c != cid {
        assert(a.conns.remove(cid)[c] == a.conns[c]);
        assert(b.conns.remove(cid)[c] == b.conns[c]);
    }
}

/// What the first groups were given stands when the others are asked.
proof fn the_first_groups_stand(
    d: Delivery,
    reach: Seq<InterestView>,
    names: Seq<Seq<u8>>,
    k: int,
    msg: MsgView,
    from: u64,
    start: usize,
    c: u64,
)
    requires
        0 <= k <= names.len(),
        sound_conns(d.conns),
        d.conns.contains_key(c),
    ensures
        noticed(
            given_groups(d, reach, names.take(k), msg, from, start),
            given_groups(d, reach, names, msg, from, start),
            c,
        ),
    decreases names.len(),
{
    giving_groups_is_noticed(d, reach, names.take(k), msg, from, start, c);
    if k == names.len() {
        assert(names.take(k) =~= names);
        nothing_noticed(given_groups(d, reach, names, msg, from, start), c);
    } else {
        let less = names.drop_last();
        assert(less.take(k) =~= names.take(k));
        the_first_groups_stand(d, reach, less, k, msg, from, start, c);
        giving_groups_is_noticed(d, reach, less, msg, from, start, c);
        let before = given_groups(d, reach, less, msg, from, start);
        assert(before.conns.dom().contains(c));
        pick_is_a_member(before.conns, reach, names.last(), start, from);
        if let Some(m) = picked(before.conns, reach.filter(grouped(names.last())), start, from) {
            giving_is_noticed(before, m, msg, c);
            noticing_goes_on(
                given_groups(d, reach, names.take(k), msg, from, start),
                before,
                given(before, m, msg),
                c,
            );
        }
    }
}

/// A member of a group that the message comes to gets a copy with its own id, if its connection
/// is still open afterwards, and has had one message more.
pub proof fn who_hears_gets_a_copy(hub: Hub, msg: MsgView, from: u64, x: InterestView)
    requires
        sound(hub),
        hub.conns.contains_key(from),
        registered(hub.registry, x),
        hears(hub, x, msg, from),
    ensures
        ({
            let after = routed_hub(hub, msg, from);
            let (was, now) = (hub.conns[x.cid], after.conns[x.cid]);
            !now.closed ==> {
                &&& goes_out(
                    was.out.unsent(),
                    now.out.unsent(),
                    delivery(x.sid, was.opts.headers, msg),
                )
                &&& now.subs[x.sid] == was.subs[x.sid].counted()
            }
        }),
{
    let reach = hub.registry.reach(msg.subject);
    let names = group_names(reach);
    let plain = reach.filter(ungrouped());
    let start = start_of(names, hub.rng);
    let d1 = given_each(undelivered(hub.conns, hub.registry), plain, msg, from);
    let chosen = picks(d1, reach, names, msg, from, start);
    assert(backed(hub.conns, x));
    a_route_counts_what_it_gives(hub, msg, from, x);
    reach_is_tidy(hub.registry, msg.subject);
    filter_is_tidy(reach, ungrouped());
    assert forall|k: int| #![trigger reach[k]] 0 <= k < reach.len() implies hub.conns.contains_key(
        reach[k].cid,
    ) by {
        assert(reach.contains(reach[k]));
        assert(registered(hub.registry, reach[k]));
    }
    every_listener_gets_a_copy(hub.conns, hub.registry, hub.rng, msg, from, x.cid);
    let headers = hub.conns[x.cid].opts.headers;
    let after = routed_hub(hub, msg, from);
    let (one, two) = (copies(plain, x.cid, headers, msg), copies(chosen, x.cid, headers, msg));
    let frame = delivery(x.sid, headers, msg);
    let (s1, s2) = (stream(hub.conns, x.cid), stream(after.conns, x.cid));
    if !after.conns[x.cid].closed {
        if x.queue is None {
            assert(ungrouped()(x));
            let (a, b) = each_has_a_copy(plain, x, headers, msg);
            assert(s2 =~= s1 + (a + frame + (b + two)));
        } else {
            let (a, b) = each_has_a_copy(chosen, x, headers, msg);
            assert(!deaf(hub.conns, x.cid, from)) by {
                if deaf(hub.conns, x.cid, from) {
                    the_deaf_hear_nothing(hub, msg, from, x);
                }
            }
            assert(s2 =~= s1 + ((one + a) + frame + b));
        }
    }
}

/// A publisher that turned the echo off is picked by no group.
proof fn the_deaf_hear_nothing(hub: Hub, msg: MsgView, from: u64, x: InterestView)
    requires
        sound(hub),
        hub.conns.contains_key(from),
        deaf(hub.conns, x.cid, from),
    ensures
        !hears(hub, x, msg, from),
{
    let reach = hub.registry.reach(msg.subject);
    let names = group_names(reach);
    let plain = reach.filter(ungrouped());
    let start = start_of(names, hub.rng);
    let d0 = undelivered(hub.conns, hub.registry);
    let d1 = given_each(d0, plain, msg, from);
    let chosen = picks(d1, reach, names, msg, from, start);
    if x.queue is Some && chosen.contains(x) {
        giving_each_is_noticed(d0, plain, msg, from, from);
        options_stay(d0, plain, msg, from, from);
        assert(d1.conns.dom().contains(from));
        the_deaf_are_not_picked(d1, reach, names, msg, from, start, x.cid);
        let (a, b) = each_has_a_copy(chosen, x, d1.conns[x.cid].opts.headers, msg);
    }
}

/// Giving a message changes nobody's options.
proof fn options_stay(d: Delivery, list: Seq<InterestView>, msg: MsgView, from: u64, c: u64)
    requires
        sound_conns(d.conns),
        d.conns.contains_key(c),
    ensures
        given_each(d, list, msg, from).conns[c].opts == d.conns[c].opts,
    decreases list.len(),
{
    if list.len() > 0 {
        let less = list.drop_last();
        options_stay(d, less, msg, from, c);
        giving_each_is_noticed(d, less, msg, from, c);
        let before = given_each(d, less, msg, from);
        assert(before.conns.dom().contains(c));
        if eligible(before.conns, list.last(), from) {
            given_adds(before, list.last(), msg, c);
        }
    }
}

/// Asking the groups changes nobody's options.
proof fn options_stay_in_groups(
    d: Delivery,
    reach: Seq<InterestView>,
    names: Seq<Seq<u8>>,
    msg: MsgView,
    from: u64,
    start: usize,
    c: u64,
)
    requires
        sound_conns(d.conns),
        d.conns.contains_key(c),
    ensures
        given_groups(d, reach, names, msg, from, start).conns[c].opts == d.conns[c].opts,
    decreases names.len(),
{
    if names.len() > 0 {
        let less = names.drop_last();
        options_stay_in_groups(d, reach, less, msg, from, start, c);
        giving_groups_is_noticed(d, reach, less, msg, from, start, c);
        let before = given_groups(d, reach, less, msg, from, start);
        assert(before.conns.dom().contains(c));
        pick_is_a_member(before.conns, reach, names.last(), start, from);
        if let Some(m) = picked(before.conns, reach.filter(grouped(names.last())), start, from) {
            given_adds(before, m, msg, c);
        }
    }
}

/// A queue group that has a member for a message hears it exactly once: one of its members gets
/// it, and no other. It may be passed over only where its members are closed on the way, or are
/// the publisher's own and it turned the echo off.
pub proof fn a_group_hears_once(
    hub: Hub,
    msg: MsgView,
    from: u64,
    name: Seq<u8>,
    x: InterestView,
)
    requires
        sound(hub),
        hub.conns.contains_key(from),
        registered(hub.registry, x),
        x.queue == Some(name),
        subjects::subject_matches(x.subject, msg.subject),
        !deaf(hub.conns, x.cid, from),
        !routed_hub(hub, msg, from).conns[x.cid].closed,
    ensures
        exists|m: InterestView|
            {
                &&& #[trigger] hears(hub, m, msg, from)
                &&& m.queue == Some(name)
                &&& registered(hub.registry, m)
                &&& subjects::subject_matches(m.subject, msg.subject)
                &&& forall|y: InterestView|
                    y.queue == Some(name) && #[trigger] hears(hub, y, msg, from) ==> y == m
            },
{
    let reach = hub.registry.reach(msg.subject);
    let names = group_names(reach);
    let plain = reach.filter(ungrouped());
    let start = start_of(names, hub.rng);
    let d0 = undelivered(hub.conns, hub.registry);
    let d1 = given_each(d0, plain, msg, from);
    let chosen = picks(d1, reach, names, msg, from, start);
    let members = reach.filter(grouped(name));
    let own = chosen.filter(grouped(name));
    who_is_reached(hub.registry, from, msg.subject, x);
    reach_is_tidy(hub.registry, msg.subject);
    let at = reach.index_of(x);
    assert(reach[at].queue == Some(name));
    every_group_is_asked(reach, name);
    a_group_takes_one_copy(d1, reach, names, msg, from, start, name);
    let k = names.index_of(name);
    let before = given_groups(d1, reach, names.take(k), msg, from, start);
    assert(backed(hub.conns, x));
    giving_each_is_noticed(d0, plain, msg, from, x.cid);
    giving_each_is_noticed(d0, plain, msg, from, from);
    options_stay(d0, plain, msg, from, from);
    assert(d1.conns.dom().contains(x.cid) && d1.conns.dom().contains(from));
    options_stay_in_groups(d1, reach, names.take(k), msg, from, start, from);
    giving_groups_is_noticed(d1, reach, names.take(k), msg, from, start, x.cid);
    the_first_groups_stand(d1, reach, names, k, msg, from, start, x.cid);
    assert(before.conns.dom().contains(x.cid));
    reach.lemma_filter_contains(grouped(name), at);
    let j = members.index_of(x);
    assert(eligible(before.conns, members[j], from));
    assert(own.len() == 1);
    let m = own[0];
    assert(members.contains(m));
    let i = filtered_is_there(reach, grouped(name), members.index_of(m));
    who_is_reached(hub.registry, from, msg.subject, m);
    let l = filtered_is_there(chosen, grouped(name), 0);
    assert(chosen.contains(m));
    assert(hears(hub, m, msg, from));
    assert forall|y: InterestView|
        y.queue == Some(name) && #[trigger] hears(hub, y, msg, from) implies y == m by {
        let n = chosen.index_of(y);
        chosen.lemma_filter_contains(grouped(name), n);
        let o = own.index_of(y);
        assert(own[o] == y);
    }
}

/// A connection that holds nothing whose filter matches a message is not touched by it, unless it
/// published it.
pub proof fn a_publish_reaches_nobody_else(
    hub: Hub,
    cid: u64,
    subject: Seq<u8>,
    reply: Option<Seq<u8>>,
    hdr: nat,
    total: nat,
    body: Seq<u8>,
    hpub: bool,
    other: u64,
)
    requires
        sound(hub),
        hub.conns.contains_key(cid),
        hub.conns.contains_key(other),
        other != cid,
        forall|x: InterestView| #[trigger]
            registered(hub.registry, x) && x.cid == other ==> !subjects::subject_matches(
                x.subject,
                subject,
            ),
    ensures
        handled(
            hub,
            cid,
            EventView::Publish { subject, reply, hdr, total, body, hpub },
        ).hub.conns[other] == hub.conns[other],
{
    let msg = MsgView { subject, reply, hdr, body };
    let said = told_at_once(hub, cid, subject);
    let mid = routed_hub(said, msg, cid);
    let done = published(hub, cid, msg, hpub);
    telling_at_once(hub, cid, subject);
    assert(said.conns.remove(cid)[other] == hub.conns.remove(cid)[other]);
    assert(said.conns.remove(cid).contains_key(other) == hub.conns.remove(cid).contains_key(other));
    if hpub && !hub.conns[cid].opts.headers {
    } else if subject.len() == 0 {
    } else if subjects::wild(subject) {
        a_wildcard_subject_reaches_nobody(hub, cid, msg, hpub);
        assert(done.hub.conns.remove(cid)[other] == hub.conns.remove(cid)[other]);
    } else {
        a_publish_goes_out(hub, cid, msg, hpub);
        assert(done.hub.conns.remove(cid)[other] == mid.conns.remove(cid)[other]);
        let reach = said.registry.reach(subject);
        assert forall|k: int| #![trigger reach[k]] 0 <= k < reach.len() implies reach[k].cid
            != other by {
            assert(reach.contains(reach[k]));
            who_is_reached(said.registry, cid, subject, reach[k]);
        }
        a_message_touches_only_its_reach(said, msg, cid, other);
    }
}

/// A request that nothing is registered for, from a publisher that asked to be told: behind the
/// acknowledgement comes one status frame for each of its own subscriptions whose filter matches
/// the reply, where there is room for all of them; the frame names the reply, the subscription's
/// id, and the subject that nobody heard.
pub proof fn an_unheard_request_is_answered(
    hub: Hub,
    cid: u64,
    subject: Seq<u8>,
    reply: Seq<u8>,
    body: Seq<u8>,
    inbox: Seq<InterestView>,
)
    requires
        sound(hub),
        hub.conns.contains_key(cid),
        !hub.conns[cid].closed,
        hub.conns[cid].opts.no_responders,
        subjects::valid_subject(subject),
        !subjects::wild(subject),
        reply.len() > 0,
        forall|x: InterestView| #[trigger]
            registered(hub.registry, x) ==> !subjects::subject_matches(x.subject, subject),
        inbox == hub.registry.reach_of(cid, reply),
        hub.conns[cid].out.unsent().len() + text("+OK\r\n").len() + statuses(
            inbox,
            reply,
            subject,
        ).len() <= hub.conns[cid].out.hard,
    ensures
        ({
            let done = handled(
                hub,
                cid,
                EventView::Publish {
                    subject,
                    reply: Some(reply),
                    hdr: 0,
                    total: body.len(),
                    body,
                    hpub: false,
                },
            );
            let (was, now) = (hub.conns[cid], done.hub.conns[cid]);
            let ok = if was.opts.verbose {
                text("+OK\r\n")
            } else {
                Seq::empty()
            };
            &&& done.keep
            &&& now.out.unsent() == was.out.unsent() + ok + statuses(inbox, reply, subject)
            &&& done.hub.registry == hub.registry
            &&& done.hub.conns.remove(cid) == hub.conns.remove(cid)
        }),
        forall|x: InterestView| #[trigger]
            inbox.contains(x) <==> registered(hub.registry, x) && x.cid == cid
                && subjects::subject_matches(x.subject, reply),
        inbox.no_duplicates(),
{
    let msg = MsgView { subject, reply: Some(reply), hdr: 0, body };
    let was = hub.conns[cid];
    let said = told_at_once(hub, cid, subject);
    telling_at_once(hub, cid, subject);
    a_legal_subject_is_not_empty(subject);
    assert(was.wf() && was.cid == cid);
    a_frame_goes_out_last(was.out, text("+OK\r\n"));
    let reach = said.registry.reach(subject);
    assert(reach =~= Seq::empty()) by {
        if reach.len() > 0 {
            assert(reach.contains(reach[0]));
            who_is_reached(said.registry, cid, subject, reach[0]);
        }
    }
    reveal(Seq::filter);
    assert(reach.filter(ungrouped()) =~= Seq::empty());
    assert(group_names(reach) =~= Seq::empty());
    let d = routed(said.conns, said.registry, said.rng, msg, cid);
    assert(d.conns == said.conns && d.registry == said.registry && d.count == 0);
    let mid = Hub { conns: d.conns, registry: d.registry, rng: said.rng };
    assert(mid.conns[cid].wf());
    let ok = if was.opts.verbose {
        text("+OK\r\n")
    } else {
        Seq::empty()
    };
    assert(mid.conns[cid].out.unsent() =~= was.out.unsent() + ok);
    a_request_that_nobody_hears_is_answered(mid, cid, msg, 0);
    telling_nobody(mid, cid, inbox, reply, subject);
    assert forall|x: InterestView| #[trigger] inbox.contains(x) <==> registered(hub.registry, x)
        && x.cid == cid && subjects::subject_matches(x.subject, reply) by {
        who_is_reached(hub.registry, cid, reply, x);
    }
    let any = InterestView { subject, queue: None, cid, sid: reply };
    who_is_reached(hub.registry, cid, reply, any);
}

/// A request on a subject that holds a wildcard reaches nobody, and a publisher that asked to be
/// told is told so like of any other unheard one; one without any subject is not even a request.
pub proof fn a_request_to_a_wildcard_is_answered(
    hub: Hub,
    cid: u64,
    subject: Seq<u8>,
    reply: Seq<u8>,
    body: Seq<u8>,
    inbox: Seq<InterestView>,
)
    requires
        sound(hub),
        hub.conns.contains_key(cid),
        !hub.conns[cid].closed,
        hub.conns[cid].opts.no_responders,
        !hub.conns[cid].opts.pedantic,
        !hub.conns[cid].opts.verbose,
        subjects::wild(subject) || subject.len() == 0,
        reply.len() > 0,
        inbox == hub.registry.reach_of(cid, reply),
        hub.conns[cid].out.unsent().len() + statuses(inbox, reply, subject).len()
            <= hub.conns[cid].out.hard,
    ensures
        ({
            let done = handled(
                hub,
                cid,
                EventView::Publish {
                    subject,
                    reply: Some(reply),
                    hdr: 0,
                    total: body.len(),
                    body,
                    hpub: false,
                },
            );
            let (was, now) = (hub.conns[cid], done.hub.conns[cid]);
            &&& done.keep
            &&& subject.len() == 0 ==> done.hub == hub
            &&& subject.len() > 0 ==> now.out.unsent() == was.out.unsent() + statuses(
                inbox,
                reply,
                subject,
            )
            &&& done.hub.registry == hub.registry
            &&& done.hub.conns.remove(cid) == hub.conns.remove(cid)
        }),
{
    let msg = MsgView { subject, reply: Some(reply), hdr: 0, body };
    assert(hub.conns[cid].wf() && hub.conns[cid].cid == cid);
    if subject.len() > 0 {
        a_request_that_nobody_hears_is_answered(hub, cid, msg, 0);
        telling_nobody(hub, cid, inbox, reply, subject);
    }
}

proof fn a_legal_subject_is_not_empty(subject: Seq<u8>)
    requires
        subjects::valid_subject(subject),
    ensures
        subject.len() > 0,
{
    if subject.len() == 0 {
        let tokens = subjects::tokens_of(subject);
        assert(tokens.len() == 1);
        assert(tokens[0].len() == 0);
    }
}

/// A publish with headers from a client that did not ask for them ends the connection, and
/// nobody gets it.
pub proof fn headers_have_to_be_asked_for(
    hub: Hub,
    cid: u64,
    subject: Seq<u8>,
    reply: Option<Seq<u8>>,
    hdr: nat,
    total: nat,
    body: Seq<u8>,
)
    requires
        hub.conns.contains_key(cid),
        !hub.conns[cid].opts.headers,
    ensures
        ({
            let done = handled(
                hub,
                cid,
                EventView::Publish { subject, reply, hdr, total, body, hpub: true },
            );
            !done.keep && done.hub == hub
        }),
{
}

/// A pedantic client is told of a subject that is no legal literal, before the acknowledgement; any
/// other client, and any other subject, gets the acknowledgement alone, and only where it asked
/// for it.
pub proof fn what_a_publisher_is_told(hub: Hub, cid: u64, subject: Seq<u8>, body: Seq<u8>)
    requires
        sound(hub),
        hub.conns.contains_key(cid),
        !hub.conns[cid].closed,
        hub.conns[cid].out.unsent().len() + text("-ERR 'Invalid Publish Subject'\r\n").len() + text(
            "+OK\r\n",
        ).len() <= hub.conns[cid].out.hard,
        forall|x: InterestView| #[trigger]
            registered(hub.registry, x) ==> !subjects::subject_matches(x.subject, subject),
    ensures
        ({
            let done = handled(
                hub,
                cid,
                EventView::Publish {
                    subject,
                    reply: None,
                    hdr: 0,
                    total: body.len(),
                    body,
                    hpub: false,
                },
            );
            let (was, now) = (hub.conns[cid], done.hub.conns[cid]);
            let literal = subjects::valid_subject(subject) && !subjects::wild(subject);
            let complaint = if was.opts.pedantic && !literal {
                text("-ERR 'Invalid Publish Subject'\r\n")
            } else {
                Seq::empty()
            };
            let ok = if was.opts.verbose {
                text("+OK\r\n")
            } else {
                Seq::empty()
            };
            &&& done.keep
            &&& now.out.unsent() == was.out.unsent() + complaint + ok
        }),
{
    let msg = MsgView { subject, reply: None, hdr: 0, body };
    let was = hub.conns[cid];
    let said = told_at_once(hub, cid, subject);
    the_words_of_an_error();
    telling_at_once(hub, cid, subject);
    assert(was.wf() && was.cid == cid);
    let words = err_line(text(INVALID_PUBLISH_SUBJECT));
    let none = Seq::<u8>::empty();
    assert(was.out.unsent() + none =~= was.out.unsent());
    a_frame_goes_out_last(was.out, words);
    a_frame_goes_out_last(was.out, text("+OK\r\n"));
    a_frame_goes_out_last(was.out.pushed(words), text("+OK\r\n"));
    assert(was.out.unsent() + words + none =~= was.out.unsent() + words);
    assert(was.out.unsent() + none + text("+OK\r\n") =~= was.out.unsent() + text("+OK\r\n"));
    if subject.len() > 0 && !subjects::wild(subject) {
        let reach = said.registry.reach(subject);
        assert(reach =~= Seq::empty()) by {
            if reach.len() > 0 {
                assert(reach.contains(reach[0]));
                who_is_reached(said.registry, cid, subject, reach[0]);
            }
        }
        reveal(Seq::filter);
        assert(reach.filter(ungrouped()) =~= Seq::empty());
        assert(group_names(reach) =~= Seq::empty());
    }
}

// ---------------------------------------------------------------------- who holds what --

proof fn giving_leaves_owners(d: Delivery, i: InterestView, msg: MsgView)
    requires
        owned(d.conns),
        d.conns.contains_key(i.cid),
    ensures
        owned(given(d, i, msg).conns),
{
    let after = given(d, i, msg);
    assert forall|c: u64, s: Seq<u8>|
        after.conns.contains_key(c) && #[trigger] after.conns[c].subs.contains_key(
            s,
        ) implies after.conns[c].subs[s].sid == s && after.conns[c].subs[s].conn == c by {
        assert(d.conns.contains_key(c));
        assert(d.conns[c].subs.contains_key(s));
    }
}

proof fn giving_each_leaves_owners(d: Delivery, list: Seq<InterestView>, msg: MsgView, from: u64)
    requires
        owned(d.conns),
    ensures
        owned(given_each(d, list, msg, from).conns),
    decreases list.len(),
{
    if list.len() > 0 {
        giving_each_leaves_owners(d, list.drop_last(), msg, from);
        let before = given_each(d, list.drop_last(), msg, from);
        if eligible(before.conns, list.last(), from) {
            giving_leaves_owners(before, list.last(), msg);
        }
    }
}

proof fn giving_groups_leaves_owners(
    d: Delivery,
    reach: Seq<InterestView>,
    names: Seq<Seq<u8>>,
    msg: MsgView,
    from: u64,
    start: usize,
)
    requires
        owned(d.conns),
    ensures
        owned(given_groups(d, reach, names, msg, from, start).conns),
    decreases names.len(),
{
    if names.len() > 0 {
        let less = names.drop_last();
        giving_groups_leaves_owners(d, reach, less, msg, from, start);
        let before = given_groups(d, reach, less, msg, from, start);
        pick_is_a_member(before.conns, reach, names.last(), start, from);
        if let Some(m) = picked(before.conns, reach.filter(grouped(names.last())), start, from) {
            giving_leaves_owners(before, m, msg);
        }
    }
}

/// A change to what a connection is sent is no change to what anybody holds.
proof fn sending_leaves_owners(a: Hub, b: Hub, cid: u64)
    requires
        owned(a.conns),
        a.conns.contains_key(cid),
        b.conns.contains_key(cid),
        a.conns.remove(cid) == b.conns.remove(cid),
        b.conns[cid].subs == a.conns[cid].subs,
    ensures
        owned(b.conns),
{
    assert forall|c: u64, s: Seq<u8>|
        b.conns.contains_key(c) && #[trigger] b.conns[c].subs.contains_key(
            s,
        ) implies b.conns[c].subs[s].sid == s && b.conns[c].subs[s].conn == c by {
        if c != cid {
            assert(b.conns.remove(cid).contains_key(c));
            assert(a.conns.remove(cid).contains_key(c));
            assert(b.conns.remove(cid)[c] == b.conns[c]);
            assert(a.conns.remove(cid)[c] == a.conns[c]);
        }
        assert(a.conns.contains_key(c) && a.conns[c].subs.contains_key(s));
    }
}

proof fn routing_leaves_owners(hub: Hub, msg: MsgView, from: u64)
    requires
        owned(hub.conns),
    ensures
        owned(routed_hub(hub, msg, from).conns),
{
    let reach = hub.registry.reach(msg.subject);
    let names = group_names(reach);
    let plain = reach.filter(ungrouped());
    let d0 = undelivered(hub.conns, hub.registry);
    giving_each_leaves_owners(d0, plain, msg, from);
    let d1 = given_each(d0, plain, msg, from);
    giving_groups_leaves_owners(d1, reach, names, msg, from, start_of(names, hub.rng));
}

proof fn publishing_leaves_owners(hub: Hub, cid: u64, msg: MsgView, hpub: bool)
    requires
        sound(hub),
        owned(hub.conns),
        hub.conns.contains_key(cid),
        hpub ==> hub.conns[cid].opts.headers,
        msg.subject.len() > 0,
        !subjects::wild(msg.subject),
    ensures
        owned(published(hub, cid, msg, hpub).hub.conns),
{
    let said = told_at_once(hub, cid, msg.subject);
    let mid = routed_hub(said, msg, cid);
    let after = published(hub, cid, msg, hpub).hub;
    telling_at_once(hub, cid, msg.subject);
    sending_leaves_owners(hub, said, cid);
    routing_leaves_owners(said, msg, cid);
    a_publish_goes_out(hub, cid, msg, hpub);
    assert(after.conns.dom().contains(cid));
    sending_leaves_owners(mid, after, cid);
}

proof fn a_dead_publish_leaves_owners(hub: Hub, cid: u64, msg: MsgView, hpub: bool)
    requires
        sound(hub),
        owned(hub.conns),
        hub.conns.contains_key(cid),
        (hpub && !hub.conns[cid].opts.headers) || msg.subject.len() == 0 || subjects::wild(
            msg.subject,
        ),
    ensures
        owned(published(hub, cid, msg, hpub).hub.conns),
{
    let said = told_at_once(hub, cid, msg.subject);
    telling_at_once(hub, cid, msg.subject);
    sending_leaves_owners(hub, said, cid);
    assert(hub.conns[cid].cid == cid && said.conns[cid].cid == cid);
    if let Some(r) = msg.reply {
        let inbox = said.registry.reach_of(cid, r);
        telling_nobody(said, cid, inbox, r, msg.subject);
        sending_leaves_owners(said, told_nobody(said, cid, inbox, r, msg.subject), cid);
    }
}

/// Whatever a client commands, what a connection holds under an id goes on having that id, and
/// being that connection's.
pub proof fn ids_stand_for_their_own(hub: Hub, cid: u64, ev: EventView)
    requires
        sound(hub),
        owned(hub.conns),
        hub.conns.contains_key(cid),
    ensures
        owned(handled(hub, cid, ev).hub.conns),
{
    assert(hub.conns[cid].cid == cid);
    if let EventView::Publish { subject, reply, hdr, total, body, hpub } = ev {
        let msg = MsgView { subject, reply, hdr, body };
        if (hpub && !hub.conns[cid].opts.headers) || subject.len() == 0 || subjects::wild(subject) {
            a_dead_publish_leaves_owners(hub, cid, msg, hpub);
        } else {
            publishing_leaves_owners(hub, cid, msg, hpub);
        }
    } else {
        a_small_command_leaves_owners(hub, cid, ev);
    }
}

proof fn a_small_command_leaves_owners(hub: Hub, cid: u64, ev: EventView)
    requires
        owned(hub.conns),
        hub.conns.contains_key(cid),
        hub.conns[cid].cid == cid,
        !(ev is Publish),
    ensures
        owned(handled(hub, cid, ev).hub.conns),
{
    let after = handled(hub, cid, ev).hub;
    assert forall|c: u64, s: Seq<u8>|
        after.conns.contains_key(c) && #[trigger] after.conns[c].subs.contains_key(
            s,
        ) implies after.conns[c].subs[s].sid == s && after.conns[c].subs[s].conn == c by {
        if c != cid || hub.conns[cid].subs.contains_key(s) {
            assert(hub.conns.contains_key(c) && hub.conns[c].subs.contains_key(s));
        }
    }
}

} // verus!
