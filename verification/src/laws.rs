//! What holds of the server as a whole: who gets a message and in what order, what a
//! subscription that has had enough still gets, and what is left of a connection that ended.
use vstd::prelude::*;

use crate::client::{
    a_batch_keeps_the_order, a_closed_outbox_has_room, a_frame_goes_out_last,
    a_write_sends_the_front, err_line, flat, moved_more, moved_one, ticked, unsubscribed, ConnView,
    Enqueue, SLOW_CONSUMER_REASON,
};
use crate::fanout::{
    eligible, given, given_each, given_groups, group_names, grouped, picked, rng_after, routed,
    start_of, the_pick_is_an_eligible_member, ungrouped, Delivery,
};
use crate::loops::{write_continued, write_finished, write_noted, WriteEvent};
use crate::proto::{EventView, ProtoError};
use crate::routing::{
    about, delivery, matching, spared, status_frame, InterestView, MsgView, PatternView,
    RegistryView, SubView,
};
use crate::server::{
    answered, broken, handled, new_sub, numbered, published, subscribed, told_nobody,
    unsubscribed_hub, with_batch, Hub,
};
use crate::subjects;
use crate::text::text;

verus! {

// ------------------------------------------------------------------------- delivery --

/// Every connection stands under its own number, and its parts are sound.
pub open spec fn sound_conns(conns: Map<u64, ConnView>) -> bool {
    &&& numbered(conns)
    &&& forall|cid: u64| #[trigger] conns.contains_key(cid) ==> conns[cid].wf()
}

/// Everything that a connection will still be sent, in order.
pub open spec fn stream(conns: Map<u64, ConnView>, cid: u64) -> Seq<u8> {
    conns[cid].out.unsent()
}

/// The copies of a message that go to one connection, when each subscription of a list gets
/// one, in the order of the list.
pub open spec fn copies(list: Seq<InterestView>, cid: u64, headers: bool, msg: MsgView) -> Seq<u8>
    decreases list.len(),
{
    if list.len() == 0 {
        Seq::empty()
    } else {
        copies(list.drop_last(), cid, headers, msg) + if list.last().cid == cid {
            delivery(list.last().sid, headers, msg)
        } else {
            Seq::empty()
        }
    }
}

/// The members that get a message for their queue groups, in the order of the groups.
pub open spec fn picks(
    d: Delivery,
    reach: Seq<InterestView>,
    names: Seq<Seq<u8>>,
    msg: MsgView,
    from: u64,
    start: usize,
) -> Seq<InterestView>
    decreases names.len(),
{
    if names.len() == 0 {
        Seq::empty()
    } else {
        let before = given_groups(d, reach, names.drop_last(), msg, from, start);
        let members = reach.filter(grouped(names.last()));
        let earlier = picks(d, reach, names.drop_last(), msg, from, start);
        match picked(before.conns, members, start, from) {
            Some(m) => earlier.push(m),
            None => earlier,
        }
    }
}

/// A delivery at its start.
pub open spec fn undelivered(conns: Map<u64, ConnView>, registry: RegistryView) -> Delivery {
    Delivery { conns, registry, count: 0, stall: Seq::empty(), spent: Seq::empty() }
}

/// What one subscription gets changes nothing for the other connections, and only adds to
/// what its own is still sent, unless that one is closed for it.
pub(crate) proof fn given_adds(d: Delivery, i: InterestView, msg: MsgView, cid: u64)
    requires
        sound_conns(d.conns),
        d.conns.contains_key(i.cid),
        d.conns.contains_key(cid),
    ensures
        ({
            let after = given(d, i, msg);
            &&& sound_conns(after.conns)
            &&& after.conns.dom() == d.conns.dom()
            &&& i.cid != cid ==> after.conns[cid] == d.conns[cid]
            &&& after.conns[cid].opts == d.conns[cid].opts
            &&& d.conns[cid].closed ==> after.conns[cid].closed
            &&& !after.conns[cid].closed ==> stream(after.conns, cid) == stream(d.conns, cid) + (
            if i.cid == cid {
                delivery(i.sid, d.conns[cid].opts.headers, msg)
            } else {
                Seq::empty()
            })
        }),
{
    let after = given(d, i, msg);
    let conn = d.conns[i.cid];
    let frame = delivery(i.sid, conn.opts.headers, msg);
    assert(d.conns.contains_key(i.cid) && conn.wf() && conn.cid == i.cid);
    a_frame_goes_out_last(conn.out, frame);
    a_closed_outbox_has_room(conn.out, true);
    assert(after.conns.dom() =~= d.conns.dom());
    assert forall|k: u64| #[trigger] after.conns.contains_key(k) implies after.conns[k].wf()
        && after.conns[k].cid == k by {
        assert(d.conns.contains_key(k));
    }
    assert(stream(d.conns, cid) + Seq::<u8>::empty() =~= stream(d.conns, cid));
}

/// Does the echo keep the connection's own messages from it?
pub open spec fn deaf(conns: Map<u64, ConnView>, cid: u64, from: u64) -> bool {
    cid == from && !conns[from].opts.echo
}

/// One turn of a delivery.
spec fn turn(d: Delivery, i: InterestView, msg: MsgView, from: u64) -> Delivery {
    if eligible(d.conns, i, from) {
        given(d, i, msg)
    } else {
        d
    }
}

/// What a delivery that went from `d` to `after` has added to what a connection is sent.
spec fn added(d: Delivery, after: Delivery, from: u64, cid: u64, more: Seq<u8>) -> bool {
    &&& sound_conns(after.conns)
    &&& after.conns.dom() == d.conns.dom()
    &&& after.conns[cid].opts == d.conns[cid].opts
    &&& after.conns[from].opts == d.conns[from].opts
    &&& d.conns[cid].closed ==> after.conns[cid].closed
    &&& !after.conns[cid].closed ==> stream(after.conns, cid) == stream(d.conns, cid) + more
}

proof fn turn_adds(d: Delivery, i: InterestView, msg: MsgView, from: u64, cid: u64)
    requires
        sound_conns(d.conns),
        d.conns.contains_key(from),
        d.conns.contains_key(cid),
        d.conns.contains_key(i.cid),
    ensures
        added(
            d,
            turn(d, i, msg, from),
            from,
            cid,
            if i.cid == cid && !deaf(d.conns, cid, from) {
                delivery(i.sid, d.conns[cid].opts.headers, msg)
            } else {
                Seq::empty()
            },
        ),
{
    given_adds(d, i, msg, cid);
    given_adds(d, i, msg, from);
    assert(stream(d.conns, cid) + Seq::<u8>::empty() =~= stream(d.conns, cid));
}

proof fn added_twice(
    a: Delivery,
    b: Delivery,
    c: Delivery,
    from: u64,
    cid: u64,
    one: Seq<u8>,
    two: Seq<u8>,
)
    requires
        added(a, b, from, cid, one),
        added(b, c, from, cid, two),
    ensures
        added(a, c, from, cid, one + two),
{
    assert(stream(a.conns, cid) + one + two =~= stream(a.conns, cid) + (one + two));
}

proof fn given_each_adds(
    d: Delivery,
    list: Seq<InterestView>,
    msg: MsgView,
    from: u64,
    cid: u64,
)
    requires
        sound_conns(d.conns),
        d.conns.contains_key(from),
        d.conns.contains_key(cid),
        forall|k: int| 0 <= k < list.len() ==> d.conns.contains_key((#[trigger] list[k]).cid),
    ensures
        added(
            d,
            given_each(d, list, msg, from),
            from,
            cid,
            if deaf(d.conns, cid, from) {
                Seq::empty()
            } else {
                copies(list, cid, d.conns[cid].opts.headers, msg)
            },
        ),
    decreases list.len(),
{
    if list.len() == 0 {
        assert(stream(d.conns, cid) + Seq::<u8>::empty() =~= stream(d.conns, cid));
    } else {
        let less = list.drop_last();
        assert forall|k: int| 0 <= k < less.len() implies d.conns.contains_key(
            (#[trigger] less[k]).cid,
        ) by {
            assert(less[k] == list[k]);
        }
        given_each_adds(d, less, msg, from, cid);
        let before = given_each(d, less, msg, from);
        let last = list.last();
        let headers = d.conns[cid].opts.headers;
        let silent = deaf(d.conns, cid, from);
        let one = if silent {
            Seq::empty()
        } else {
            copies(less, cid, headers, msg)
        };
        let two = if last.cid == cid && !silent {
            delivery(last.sid, headers, msg)
        } else {
            Seq::empty()
        };
        assert(d.conns.contains_key(list[list.len() - 1].cid));
        assert(before.conns.dom().contains(last.cid));
        assert(before.conns.dom().contains(cid));
        assert(before.conns.dom().contains(from));
        turn_adds(before, last, msg, from, cid);
        assert(given_each(d, list, msg, from) == turn(before, last, msg, from));
        added_twice(d, before, turn(before, last, msg, from), from, cid, one, two);
        if silent {
            assert(one + two =~= Seq::<u8>::empty());
        } else {
            assert(one + two =~= copies(list, cid, headers, msg));
        }
    }
}

proof fn given_groups_adds(
    d: Delivery,
    reach: Seq<InterestView>,
    names: Seq<Seq<u8>>,
    msg: MsgView,
    from: u64,
    start: usize,
    cid: u64,
)
    requires
        sound_conns(d.conns),
        d.conns.contains_key(from),
        d.conns.contains_key(cid),
    ensures
        ({
            let after = given_groups(d, reach, names, msg, from, start);
            &&& sound_conns(after.conns)
            &&& after.conns.dom() == d.conns.dom()
            &&& after.conns[cid].opts == d.conns[cid].opts
            &&& after.conns[from].opts == d.conns[from].opts
            &&& d.conns[cid].closed ==> after.conns[cid].closed
            &&& !after.conns[cid].closed ==> stream(after.conns, cid) == stream(d.conns, cid)
                + copies(
                picks(d, reach, names, msg, from, start),
                cid,
                d.conns[cid].opts.headers,
                msg,
            )
        }),
    decreases names.len(),
{
    if names.len() == 0 {
        assert(stream(d.conns, cid) + Seq::<u8>::empty() =~= stream(d.conns, cid));
    } else {
        let less = names.drop_last();
        given_groups_adds(d, reach, less, msg, from, start, cid);
        let before = given_groups(d, reach, less, msg, from, start);
        let earlier = picks(d, reach, less, msg, from, start);
        let members = reach.filter(grouped(names.last()));
        the_pick_is_an_eligible_member(before.conns, members, start, from, true, 0);
        the_pick_is_an_eligible_member(before.conns, members, start, from, false, 0);
        assert(before.conns.dom().contains(cid));
        assert(before.conns.dom().contains(from));
        if let Some(m) = picked(before.conns, members, start, from) {
            given_adds(before, m, msg, cid);
            given_adds(before, m, msg, from);
            assert(earlier.push(m).drop_last() =~= earlier);
            let a = copies(earlier, cid, d.conns[cid].opts.headers, msg);
            let b = if m.cid == cid {
                delivery(m.sid, d.conns[cid].opts.headers, msg)
            } else {
                Seq::empty()
            };
            assert(stream(d.conns, cid) + a + b =~= stream(d.conns, cid) + (a + b));
        }
    }
}

/// What a connection that is still open afterwards gets of a message: behind everything it
/// was still to be sent, one copy for each of its subscriptions that match and are in no
/// queue group, and one for each queue group that picked it. With the echo off, a publisher
/// gets nothing of its own.
pub proof fn every_listener_gets_a_copy(
    conns: Map<u64, ConnView>,
    registry: RegistryView,
    rng: u64,
    msg: MsgView,
    from: u64,
    cid: u64,
)
    requires
        sound_conns(conns),
        conns.contains_key(from),
        conns.contains_key(cid),
        forall|k: int| #![trigger registry.reach(msg.subject)[k]]
            0 <= k < registry.reach(msg.subject).len() ==> conns.contains_key(
                registry.reach(msg.subject)[k].cid,
            ),
    ensures
        ({
            let reach = registry.reach(msg.subject);
            let names = group_names(reach);
            let plain = reach.filter(ungrouped());
            let d1 = given_each(undelivered(conns, registry), plain, msg, from);
            let after = routed(conns, registry, rng, msg, from);
            let chosen = picks(d1, reach, names, msg, from, start_of(names, rng));
            let headers = conns[cid].opts.headers;
            !after.conns[cid].closed ==> stream(after.conns, cid) == stream(conns, cid) + (
            if deaf(conns, cid, from) {
                Seq::empty()
            } else {
                copies(plain, cid, headers, msg) + copies(chosen, cid, headers, msg)
            })
        }),
        sound_conns(routed(conns, registry, rng, msg, from).conns),
{
    let reach = registry.reach(msg.subject);
    let names = group_names(reach);
    let plain = reach.filter(ungrouped());
    let d0 = undelivered(conns, registry);
    let start = start_of(names, rng);
    assert forall|k: int| 0 <= k < plain.len() implies conns.contains_key(
        (#[trigger] plain[k]).cid,
    ) by {
        filtered_is_there(reach, ungrouped(), k);
    }
    given_each_adds(d0, plain, msg, from, cid);
    given_each_adds(d0, plain, msg, from, from);
    let d1 = given_each(d0, plain, msg, from);
    assert(d1.conns.dom().contains(cid) && d1.conns.dom().contains(from));
    given_groups_adds(d1, reach, names, msg, from, start, cid);
    let chosen = picks(d1, reach, names, msg, from, start);
    let headers = conns[cid].opts.headers;
    let a = copies(plain, cid, headers, msg);
    let b = copies(chosen, cid, headers, msg);
    assert(stream(conns, cid) + a + b =~= stream(conns, cid) + (a + b));
    if deaf(conns, cid, from) {
        the_deaf_are_not_picked(d1, reach, names, msg, from, start, cid);
        assert(b =~= Seq::<u8>::empty());
        assert(stream(conns, cid) + Seq::<u8>::empty() + b =~= stream(conns, cid)
            + Seq::<u8>::empty());
    }
}

/// What a filter leaves is there before.
pub(crate) proof fn filtered_is_there(
    list: Seq<InterestView>,
    f: spec_fn(InterestView) -> bool,
    k: int,
) -> (j: int)
    requires
        0 <= k < list.filter(f).len(),
    ensures
        0 <= j < list.len(),
        list[j] == list.filter(f)[k],
        f(list[j]),
{
    let t = list.filter(f);
    assert(t.contains(t[k]));
    list.lemma_filter_contains_rev(f, t[k]);
    let j = choose|j: int| 0 <= j < list.len() && list[j] == t[k];
    broadcast use vstd::seq_lib::group_filter_ensures;

    assert(f(t[k]));
    j
}

/// No queue group picks a publisher that turned the echo off.
pub(crate) proof fn the_deaf_are_not_picked(
    d: Delivery,
    reach: Seq<InterestView>,
    names: Seq<Seq<u8>>,
    msg: MsgView,
    from: u64,
    start: usize,
    cid: u64,
)
    requires
        sound_conns(d.conns),
        d.conns.contains_key(from),
        d.conns.contains_key(cid),
        deaf(d.conns, cid, from),
    ensures
        copies(picks(d, reach, names, msg, from, start), cid, d.conns[cid].opts.headers, msg).len()
            == 0,
    decreases names.len(),
{
    if names.len() > 0 {
        let less = names.drop_last();
        the_deaf_are_not_picked(d, reach, less, msg, from, start, cid);
        given_groups_adds(d, reach, less, msg, from, start, cid);
        let before = given_groups(d, reach, less, msg, from, start);
        let earlier = picks(d, reach, less, msg, from, start);
        let members = reach.filter(grouped(names.last()));
        the_pick_is_an_eligible_member(before.conns, members, start, from, true, 0);
        the_pick_is_an_eligible_member(before.conns, members, start, from, false, 0);
        if let Some(m) = picked(before.conns, members, start, from) {
            assert(earlier.push(m).drop_last() =~= earlier);
            assert(m.cid != cid);
        }
    }
}

/// Each queue group takes at most one copy of a message, through a member of its own that
/// the message can reach; it takes none only where no member may have it.
pub proof fn a_group_takes_one_copy(
    d: Delivery,
    reach: Seq<InterestView>,
    names: Seq<Seq<u8>>,
    msg: MsgView,
    from: u64,
    start: usize,
    name: Seq<u8>,
)
    requires
        forall|i: int, j: int|
            0 <= i < j < names.len() ==> #[trigger] names[i] != #[trigger] names[j],
        names.contains(name),
    ensures
        ({
            let members = reach.filter(grouped(name));
            let chosen = picks(d, reach, names, msg, from, start).filter(grouped(name));
            let before = given_groups(
                d,
                reach,
                names.take(names.index_of(name)),
                msg,
                from,
                start,
            );
            &&& chosen.len() <= 1
            &&& forall|k: int| 0 <= k < chosen.len() ==> members.contains(#[trigger] chosen[k])
            &&& chosen.len() == 0 ==> forall|k: int|
                0 <= k < members.len() ==> !eligible(before.conns, #[trigger] members[k], from)
        }),
    decreases names.len(),
{
    let members = reach.filter(grouped(name));
    let chosen = picks(d, reach, names, msg, from, start);
    let less = names.drop_last();
    let at = names.index_of(name);
    let earlier = picks(d, reach, less, msg, from, start);
    let before = given_groups(d, reach, less, msg, from, start);
    let own = reach.filter(grouped(names.last()));
    the_pick_is_an_eligible_member(before.conns, own, start, from, true, 0);
    the_pick_is_an_eligible_member(before.conns, own, start, from, false, 0);
    assert(names[at] == name);
    reveal(Seq::filter);
    if let Some(m) = picked(before.conns, own, start, from) {
        assert(own.contains(m));
        let k = choose|k: int| 0 <= k < own.len() && own[k] == m;
        let j = filtered_is_there(reach, grouped(names.last()), k);
        assert(m.queue == Some(names.last()));
        assert(earlier.push(m).drop_last() =~= earlier);
        assert(earlier.push(m).last() == m);
    }
    if names.last() == name {
        assert(at == names.len() - 1) by {
            if at < names.len() - 1 {
                assert(names[at] != names[names.len() - 1]);
            }
        }
        assert(names.take(at) =~= less);
        assert(!less.contains(name)) by {
            if less.contains(name) {
                let i = less.index_of(name);
                assert(names[i] == name && names[names.len() - 1] == name);
            }
        }
        other_groups_are_not_picked(d, reach, less, msg, from, start, name);
        match picked(before.conns, own, start, from) {
            Some(m) => {
                assert(chosen.filter(grouped(name)) =~= seq![m]);
                assert(members.contains(m));
            },
            None => {
                assert(chosen.filter(grouped(name)) =~= Seq::empty());
                nobody_eligible(before.conns, own, start, from);
            },
        }
    } else {
        assert(less.contains(name)) by {
            assert(at < names.len() - 1);
            assert(less[at] == name);
        }
        assert forall|i: int, j: int| 0 <= i < j < less.len() implies #[trigger] less[i]
            != #[trigger] less[j] by {
            assert(names[i] != names[j]);
        }
        a_group_takes_one_copy(d, reach, less, msg, from, start, name);
        assert(less.index_of(name) == at) by {
            let i = less.index_of(name);
            assert(less[i] == name);
            if i < at {
                assert(names[i] != names[at]);
            } else if at < i {
                assert(names[at] != names[i]);
            }
        }
        assert(less.take(at) =~= names.take(at));
        assert(chosen.filter(grouped(name)) =~= earlier.filter(grouped(name)));
    }
}

/// Only the groups that are asked are picked from.
proof fn other_groups_are_not_picked(
    d: Delivery,
    reach: Seq<InterestView>,
    names: Seq<Seq<u8>>,
    msg: MsgView,
    from: u64,
    start: usize,
    name: Seq<u8>,
)
    requires
        !names.contains(name),
    ensures
        picks(d, reach, names, msg, from, start).filter(grouped(name)) == Seq::<
            InterestView,
        >::empty(),
    decreases names.len(),
{
    reveal(Seq::filter);
    if names.len() > 0 {
        let less = names.drop_last();
        assert(!less.contains(name)) by {
            if less.contains(name) {
                assert(names[less.index_of(name)] == name);
            }
        }
        assert(names.last() != name) by {
            assert(names[names.len() - 1] == names.last());
        }
        other_groups_are_not_picked(d, reach, less, msg, from, start, name);
        let before = given_groups(d, reach, less, msg, from, start);
        let earlier = picks(d, reach, less, msg, from, start);
        let own = reach.filter(grouped(names.last()));
        the_pick_is_an_eligible_member(before.conns, own, start, from, true, 0);
        the_pick_is_an_eligible_member(before.conns, own, start, from, false, 0);
        if let Some(m) = picked(before.conns, own, start, from) {
            let k = choose|k: int| 0 <= k < own.len() && own[k] == m;
            let j = filtered_is_there(reach, grouped(names.last()), k);
            assert(m.queue == Some(names.last()));
            assert(earlier.push(m).drop_last() =~= earlier);
        }
    }
}

/// A search that finds nobody has looked at everybody.
pub(crate) proof fn nobody_eligible(
    conns: Map<u64, ConnView>,
    members: Seq<InterestView>,
    start: usize,
    from: u64,
)
    requires
        picked(conns, members, start, from) is None,
    ensures
        forall|k: int| 0 <= k < members.len() ==> !eligible(conns, #[trigger] members[k], from),
{
    assert forall|k: int| 0 <= k < members.len() implies !eligible(
        conns,
        #[trigger] members[k],
        from,
    ) by {
        let n = members.len() as int;
        // The turn in which that member is looked at.
        let turn = (k - start as int) % n;
        assert(0 <= turn < n && (start + turn) % n == k) by {
            vstd::arithmetic::div_mod::lemma_mod_bound(k - start as int, n);
            vstd::arithmetic::div_mod::lemma_add_mod_noop_right(start as int, k - start as int, n);
            vstd::arithmetic::div_mod::lemma_small_mod(k as nat, n as nat);
        }
        probes_pass(conns, members, start, from, 0, turn);
    }
}

proof fn probes_pass(
    conns: Map<u64, ConnView>,
    members: Seq<InterestView>,
    start: usize,
    from: u64,
    k: int,
    turn: int,
)
    requires
        0 <= k <= turn < members.len(),
        crate::fanout::first_probe(conns, members, start, from, false, k) is None,
    ensures
        !eligible(conns, crate::fanout::probed(members, start, turn), from),
    decreases turn - k,
{
    if k < turn {
        probes_pass(conns, members, start, from, k + 1, turn);
    }
}

// ------------------------------------------------------------------------- interest --

/// Is the subscription registered?
pub open spec fn registered(r: RegistryView, i: InterestView) -> bool {
    r.literal.contains(i) || r.wildcard.contains(i)
}

/// Does an open connection hold the subscription, and is it owed more messages?
pub open spec fn backed(conns: Map<u64, ConnView>, i: InterestView) -> bool {
    &&& conns.contains_key(i.cid)
    &&& !conns[i.cid].closed
    &&& conns[i.cid].subs.contains_key(i.sid)
    &&& conns[i.cid].subs[i.sid].interest() == i
    &&& !conns[i.cid].subs[i.sid].spent()
}

/// No subscription has had more messages than it asked for.
pub open spec fn bounded(conns: Map<u64, ConnView>) -> bool {
    forall|cid: u64, sid: Seq<u8>|
        conns.contains_key(cid) && #[trigger] conns[cid].subs.contains_key(sid)
            && conns[cid].subs[sid].limit != 0 ==> conns[cid].subs[sid].delivered
            <= conns[cid].subs[sid].limit
}

/// A registry that knows everything once.
pub open spec fn tidy(r: RegistryView) -> bool {
    r.wf() && r.literal.no_duplicates() && r.wildcard.no_duplicates()
}

/// What is registered is what an open connection holds and is still owed, and nobody has
/// had more than they asked for.
pub open spec fn sound(hub: Hub) -> bool {
    &&& sound_conns(hub.conns)
    &&& bounded(hub.conns)
    &&& tidy(hub.registry)
    &&& forall|i: InterestView| #[trigger] registered(hub.registry, i) ==> backed(hub.conns, i)
}

/// What a filter leaves: nothing new, nothing twice.
pub(crate) proof fn filter_is_tidy(list: Seq<InterestView>, f: spec_fn(InterestView) -> bool)
    requires
        list.no_duplicates(),
    ensures
        list.filter(f).no_duplicates(),
        forall|x: InterestView| #[trigger]
            list.filter(f).contains(x) <==> (list.contains(x) && f(x)),
    decreases list.len(),
{
    reveal(Seq::filter);
    if list.len() > 0 {
        let less = list.drop_last();
        let last = list.last();
        assert(less.no_duplicates());
        filter_is_tidy(less, f);
        assert(list =~= less.push(last));
        assert(!less.contains(last)) by {
            if less.contains(last) {
                let k = less.index_of(last);
                assert(list[k] == list[list.len() - 1]);
            }
        }
        let t = less.filter(f);
        if f(last) {
            assert(!t.contains(last));
            assert(list.filter(f) =~= t.push(last));
            assert forall|i: int, j: int|
                0 <= i < t.push(last).len() && 0 <= j < t.push(last).len() && i
                    != j implies t.push(last)[i] != t.push(last)[j] by {
                if i == t.len() {
                    assert(t.contains(t[j]));
                } else if j == t.len() {
                    assert(t.contains(t[i]));
                }
            }
        }
        assert forall|x: InterestView| #[trigger] list.filter(f).contains(x) <==> (list.contains(x)
            && f(x)) by {
            push_contains(less, last, x);
            push_contains(t, last, x);
        }
    } else {
        assert(list.filter(f) =~= Seq::empty());
    }
}

pub(crate) proof fn push_contains(s: Seq<InterestView>, last: InterestView, x: InterestView)
    ensures
        s.push(last).contains(x) <==> (s.contains(x) || x == last),
{
    if s.contains(x) {
        let k = s.index_of(x);
        assert(s.push(last)[k] == x);
    }
    assert(s.push(last)[s.len() as int] == last);
    if s.push(last).contains(x) && x != last {
        let k = s.push(last).index_of(x);
        assert(s[k] == x);
    }
}

/// A registry stays tidy when things are struck from it.
proof fn without_is_tidy(r: RegistryView, i: InterestView)
    requires
        tidy(r),
    ensures
        tidy(r.without(i)),
        forall|x: InterestView| #[trigger]
            registered(r.without(i), x) ==> registered(r, x) && !(x.cid == i.cid && x.sid == i.sid
                && x.subject == i.subject),
{
    let w = PatternView { cid: i.cid, sid: Some(i.sid), subject: None };
    let l = PatternView { cid: i.cid, sid: Some(i.sid), subject: Some(i.subject) };
    filter_is_tidy(r.wildcard, spared(w));
    filter_is_tidy(r.literal, spared(l));
    filtered_stay(r.wildcard, spared(w));
    filtered_stay(r.literal, spared(l));
    assert forall|x: InterestView| #[trigger] registered(r.without(i), x) implies registered(r, x)
        && !(x.cid == i.cid && x.sid == i.sid && x.subject == i.subject) by {
        if x.subject == i.subject {
            // It stands in the list of its kind.
            if subjects::wild(i.subject) {
                if r.literal.contains(x) {
                    let k = r.literal.index_of(x);
                    assert(!subjects::wild(r.literal[k].subject));
                }
            } else if r.wildcard.contains(x) {
                let k = r.wildcard.index_of(x);
                assert(subjects::wild(r.wildcard[k].subject));
            }
        }
    }
}

/// What is left after a filter has the shape that everything had.
proof fn filtered_stay(list: Seq<InterestView>, f: spec_fn(InterestView) -> bool)
    ensures
        forall|k: int| #![trigger list.filter(f)[k]]
            0 <= k < list.filter(f).len() ==> list.contains(list.filter(f)[k]),
{
    assert forall|k: int| #![trigger list.filter(f)[k]]
        0 <= k < list.filter(f).len() implies list.contains(list.filter(f)[k]) by {
        let j = filtered_is_there(list, f, k);
        assert(list[j] == list.filter(f)[k]);
    }
}

proof fn without_all_is_tidy(r: RegistryView, gone: Seq<InterestView>)
    requires
        tidy(r),
    ensures
        tidy(r.without_all(gone)),
        forall|x: InterestView| #[trigger]
            registered(r.without_all(gone), x) ==> registered(r, x) && !gone.contains(x),
    decreases gone.len(),
{
    if gone.len() > 0 {
        let less = gone.drop_last();
        without_all_is_tidy(r, less);
        without_is_tidy(r.without_all(less), gone.last());
        assert forall|x: InterestView| #[trigger]
            registered(r.without_all(gone), x) implies registered(r, x) && !gone.contains(x) by {
            assert(registered(r.without_all(less), x));
            assert(gone =~= less.push(gone.last()));
            push_contains(less, gone.last(), x);
        }
    }
}

proof fn without_conn_is_tidy(r: RegistryView, cid: u64)
    requires
        tidy(r),
    ensures
        tidy(r.without_conn(cid)),
        forall|x: InterestView| #[trigger]
            registered(r.without_conn(cid), x) ==> registered(r, x) && x.cid != cid,
{
    let p = PatternView { cid, sid: None, subject: None };
    filter_is_tidy(r.wildcard, spared(p));
    filter_is_tidy(r.literal, spared(p));
    filtered_stay(r.wildcard, spared(p));
    filtered_stay(r.literal, spared(p));
}

/// What a message can reach is registered, and nothing is there twice.
pub(crate) proof fn reach_is_tidy(r: RegistryView, subject: Seq<u8>)
    requires
        tidy(r),
    ensures
        r.reach(subject).no_duplicates(),
        forall|x: InterestView| #[trigger] r.reach(subject).contains(x) ==> registered(r, x),
{
    let a = r.literal.filter(about(subject));
    let b = r.wildcard.filter(matching(subject));
    filter_is_tidy(r.literal, about(subject));
    filter_is_tidy(r.wildcard, matching(subject));
    let all = a + b;
    assert forall|i: int, j: int| 0 <= i < all.len() && 0 <= j < all.len() && i != j implies all[i]
        != all[j] by {
        if i < a.len() && j >= a.len() {
            kinds_differ(r, a[i], b[j - a.len()], about(subject), matching(subject), i, j - a.len());
        } else if j < a.len() && i >= a.len() {
            kinds_differ(r, a[j], b[i - a.len()], about(subject), matching(subject), j, i - a.len());
        } else if i < a.len() {
            assert(a[i] != a[j]);
        } else {
            assert(b[i - a.len()] != b[j - a.len()]);
        }
    }
    assert forall|x: InterestView| #[trigger] all.contains(x) implies registered(r, x) by {
        let k = all.index_of(x);
        if k < a.len() {
            assert(a[k] == x);
            assert(a.contains(x));
        } else {
            assert(b[k - a.len()] == x);
            assert(b.contains(x));
        }
    }
}

proof fn kinds_differ(
    r: RegistryView,
    x: InterestView,
    y: InterestView,
    f: spec_fn(InterestView) -> bool,
    g: spec_fn(InterestView) -> bool,
    i: int,
    j: int,
)
    requires
        r.wf(),
        0 <= i < r.literal.filter(f).len(),
        0 <= j < r.wildcard.filter(g).len(),
        x == r.literal.filter(f)[i],
        y == r.wildcard.filter(g)[j],
    ensures
        x != y,
{
    let a = filtered_is_there(r.literal, f, i);
    let b = filtered_is_there(r.wildcard, g, j);
    assert(!subjects::wild(r.literal[a].subject));
    assert(subjects::wild(r.wildcard[b].subject));
}

/// A subscription that a message has not been given yet: still owed it, unless its
/// connection has closed.
spec fn owed(conns: Map<u64, ConnView>, i: InterestView) -> bool {
    &&& conns.contains_key(i.cid)
    &&& conns[i.cid].closed || backed(conns, i)
}

/// What holds while a message is being delivered.
spec fn steady(d: Delivery) -> bool {
    &&& sound_conns(d.conns)
    &&& bounded(d.conns)
    &&& tidy(d.registry)
    &&& forall|i: InterestView| #[trigger]
        registered(d.registry, i) ==> d.spent.contains(i) || backed(d.conns, i)
}

proof fn giving_leaves_owed(d: Delivery, j: InterestView, msg: MsgView, i: InterestView)
    requires
        sound_conns(d.conns),
        owed(d.conns, j),
        !d.conns[j.cid].closed,
        owed(d.conns, i),
        i != j,
    ensures
        owed(given(d, j, msg).conns, i),
{
    let conn = d.conns[j.cid];
    assert(d.conns.contains_key(j.cid) && conn.cid == j.cid);
    if i.cid == j.cid {
        assert(i.sid != j.sid);
    }
}

proof fn giving_is_steady(d: Delivery, j: InterestView, msg: MsgView)
    requires
        steady(d),
        owed(d.conns, j),
        !d.conns[j.cid].closed,
    ensures
        steady(given(d, j, msg)),
{
    let after = given(d, j, msg);
    let conn = d.conns[j.cid];
    let frame = delivery(j.sid, conn.opts.headers, msg);
    given_adds(d, j, msg, j.cid);
    without_conn_is_tidy(d.registry, j.cid);
    assert(conn.subs.contains_key(j.sid));
    let sub = conn.subs[j.sid];
    assert(sub.limit != 0 ==> sub.delivered < sub.limit);
    assert forall|cid: u64, sid: Seq<u8>|
        after.conns.contains_key(cid) && #[trigger] after.conns[cid].subs.contains_key(sid)
            && after.conns[cid].subs[sid].limit != 0 implies after.conns[cid].subs[sid].delivered
        <= after.conns[cid].subs[sid].limit by {
        assert(d.conns.contains_key(cid));
        if cid == j.cid {
            if !after.conns[cid].closed && sid != j.sid {
                assert(d.conns[cid].subs.contains_key(sid));
            }
        } else {
            assert(d.conns[cid].subs.contains_key(sid));
        }
    }
    assert forall|i: InterestView| #[trigger]
        registered(after.registry, i) implies after.spent.contains(i) || backed(
        after.conns,
        i,
    ) by {
        assert(registered(d.registry, i));
        push_contains(d.spent, j, i);
        if i != j && backed(d.conns, i) && i.cid == j.cid {
            assert(i.sid != j.sid);
        }
    }
}

proof fn giving_each_leaves_owed(
    d: Delivery,
    list: Seq<InterestView>,
    msg: MsgView,
    from: u64,
    x: InterestView,
)
    requires
        sound_conns(d.conns),
        d.conns.contains_key(from),
        list.no_duplicates(),
        forall|k: int| 0 <= k < list.len() ==> owed(d.conns, #[trigger] list[k]),
        owed(d.conns, x),
        !list.contains(x),
    ensures
        owed(given_each(d, list, msg, from).conns, x),
        sound_conns(given_each(d, list, msg, from).conns),
        given_each(d, list, msg, from).conns.dom() == d.conns.dom(),
    decreases list.len(),
{
    if list.len() > 0 {
        let less = list.drop_last();
        let last = list.last();
        assert forall|k: int| 0 <= k < less.len() implies owed(d.conns, #[trigger] less[k]) by {
            assert(less[k] == list[k]);
        }
        assert(owed(d.conns, list[list.len() - 1]));
        assert(!less.contains(last)) by {
            if less.contains(last) {
                let k = less.index_of(last);
                assert(list[k] == list[list.len() - 1]);
            }
        }
        assert(!less.contains(x)) by {
            if less.contains(x) {
                assert(list[less.index_of(x)] == x);
            }
        }
        assert(x != last) by {
            assert(list[list.len() - 1] == last);
        }
        giving_each_leaves_owed(d, less, msg, from, x);
        giving_each_leaves_owed(d, less, msg, from, last);
        let before = given_each(d, less, msg, from);
        given_adds(before, last, msg, last.cid);
        if eligible(before.conns, last, from) {
            giving_leaves_owed(before, last, msg, x);
        }
    }
}

proof fn giving_each_is_steady(d: Delivery, list: Seq<InterestView>, msg: MsgView, from: u64)
    requires
        steady(d),
        d.conns.contains_key(from),
        list.no_duplicates(),
        forall|k: int| 0 <= k < list.len() ==> owed(d.conns, #[trigger] list[k]),
    ensures
        steady(given_each(d, list, msg, from)),
    decreases list.len(),
{
    if list.len() > 0 {
        let less = list.drop_last();
        let last = list.last();
        assert forall|k: int| 0 <= k < less.len() implies owed(d.conns, #[trigger] less[k]) by {
            assert(less[k] == list[k]);
        }
        assert(owed(d.conns, list[list.len() - 1]));
        assert(!less.contains(last)) by {
            if less.contains(last) {
                let k = less.index_of(last);
                assert(list[k] == list[list.len() - 1]);
            }
        }
        giving_each_is_steady(d, less, msg, from);
        giving_each_leaves_owed(d, less, msg, from, last);
        let before = given_each(d, less, msg, from);
        if eligible(before.conns, last, from) {
            giving_is_steady(before, last, msg);
        }
    }
}

/// The member that a search finds is in the group, and may get the message.
pub(crate) proof fn pick_is_a_member(
    conns: Map<u64, ConnView>,
    reach: Seq<InterestView>,
    name: Seq<u8>,
    start: usize,
    from: u64,
)
    ensures
        picked(conns, reach.filter(grouped(name)), start, from) matches Some(m) ==> {
            &&& reach.contains(m)
            &&& m.queue == Some(name)
            &&& eligible(conns, m, from)
        },
{
    let own = reach.filter(grouped(name));
    the_pick_is_an_eligible_member(conns, own, start, from, true, 0);
    the_pick_is_an_eligible_member(conns, own, start, from, false, 0);
    if let Some(m) = picked(conns, own, start, from) {
        let k = choose|k: int| 0 <= k < own.len() && own[k] == m;
        let j = filtered_is_there(reach, grouped(name), k);
        assert(reach[j] == m);
    }
}

proof fn giving_groups_leaves_owed(
    d: Delivery,
    reach: Seq<InterestView>,
    names: Seq<Seq<u8>>,
    msg: MsgView,
    from: u64,
    start: usize,
    x: InterestView,
)
    requires
        sound_conns(d.conns),
        d.conns.contains_key(from),
        names.no_duplicates(),
        forall|i: InterestView| #[trigger]
            reach.contains(i) && i.queue is Some ==> owed(d.conns, i),
        owed(d.conns, x),
        x.queue matches Some(n) ==> !names.contains(n),
    ensures
        owed(given_groups(d, reach, names, msg, from, start).conns, x),
        sound_conns(given_groups(d, reach, names, msg, from, start).conns),
        given_groups(d, reach, names, msg, from, start).conns.dom() == d.conns.dom(),
    decreases names.len(),
{
    if names.len() > 0 {
        let less = names.drop_last();
        names_shrink(names);
        if let Some(n) = x.queue {
            assert(!less.contains(n)) by {
                if less.contains(n) {
                    assert(names[less.index_of(n)] == n);
                }
            }
            assert(n != names.last()) by {
                assert(names[names.len() - 1] == names.last());
            }
        }
        giving_groups_leaves_owed(d, reach, less, msg, from, start, x);
        let before = given_groups(d, reach, less, msg, from, start);
        pick_is_a_member(before.conns, reach, names.last(), start, from);
        if let Some(m) = picked(before.conns, reach.filter(grouped(names.last())), start, from) {
            giving_groups_leaves_owed(d, reach, less, msg, from, start, m);
            given_adds(before, m, msg, m.cid);
            giving_leaves_owed(before, m, msg, x);
        }
    }
}

proof fn names_shrink(names: Seq<Seq<u8>>)
    requires
        names.no_duplicates(),
        names.len() > 0,
    ensures
        names.drop_last().no_duplicates(),
        !names.drop_last().contains(names.last()),
{
    let less = names.drop_last();
    assert(less.no_duplicates());
    if less.contains(names.last()) {
        let k = less.index_of(names.last());
        assert(names[k] == names[names.len() - 1]);
    }
}

proof fn giving_groups_is_steady(
    d: Delivery,
    reach: Seq<InterestView>,
    names: Seq<Seq<u8>>,
    msg: MsgView,
    from: u64,
    start: usize,
)
    requires
        steady(d),
        d.conns.contains_key(from),
        names.no_duplicates(),
        forall|i: InterestView| #[trigger]
            reach.contains(i) && i.queue is Some ==> owed(d.conns, i),
    ensures
        steady(given_groups(d, reach, names, msg, from, start)),
    decreases names.len(),
{
    if names.len() > 0 {
        let less = names.drop_last();
        names_shrink(names);
        giving_groups_is_steady(d, reach, less, msg, from, start);
        let before = given_groups(d, reach, less, msg, from, start);
        pick_is_a_member(before.conns, reach, names.last(), start, from);
        if let Some(m) = picked(before.conns, reach.filter(grouped(names.last())), start, from) {
            giving_groups_leaves_owed(d, reach, less, msg, from, start, m);
            giving_is_steady(before, m, msg);
        }
    }
}

pub(crate) proof fn names_differ(list: Seq<InterestView>)
    ensures
        group_names(list).no_duplicates(),
    decreases list.len(),
{
    if list.len() > 0 {
        names_differ(list.drop_last());
        let before = group_names(list.drop_last());
        if let Some(name) = list.last().queue {
            if !before.contains(name) {
                assert forall|i: int, j: int|
                    0 <= i < before.push(name).len() && 0 <= j < before.push(name).len() && i
                        != j implies before.push(name)[i] != before.push(name)[j] by {
                    if i == before.len() {
                        assert(before.contains(before[j]));
                    } else if j == before.len() {
                        assert(before.contains(before[i]));
                    }
                }
            }
        }
    }
}

/// Routing a message keeps the server sound: whoever has had all that they asked for, and
/// whoever was closed on the way, is registered no more, and nobody gets more than they
/// asked for.
pub proof fn routing_is_sound(hub: Hub, msg: MsgView, from: u64)
    requires
        sound(hub),
        hub.conns.contains_key(from),
    ensures
        ({
            let d = routed(hub.conns, hub.registry, hub.rng, msg, from);
            sound(Hub { conns: d.conns, registry: d.registry, rng: hub.rng })
        }),
{
    let reach = hub.registry.reach(msg.subject);
    let names = group_names(reach);
    let plain = reach.filter(ungrouped());
    let start = start_of(names, hub.rng);
    let d0 = undelivered(hub.conns, hub.registry);
    reach_is_tidy(hub.registry, msg.subject);
    filter_is_tidy(reach, ungrouped());
    names_differ(reach);
    assert(steady(d0));
    assert forall|k: int| 0 <= k < plain.len() implies owed(d0.conns, #[trigger] plain[k]) by {
        assert(plain.contains(plain[k]));
        assert(reach.contains(plain[k]));
        assert(registered(hub.registry, plain[k]));
    }
    giving_each_is_steady(d0, plain, msg, from);
    let d1 = given_each(d0, plain, msg, from);
    assert forall|i: InterestView| #[trigger] reach.contains(i) && i.queue is Some implies owed(
        d1.conns,
        i,
    ) by {
        assert(registered(hub.registry, i));
        assert(!plain.contains(i)) by {
            assert(!ungrouped()(i));
        }
        giving_each_leaves_owed(d0, plain, msg, from, i);
    }
    assert(d1.conns.contains_key(from)) by {
        given_each_domain(d0, plain, msg, from);
        assert(d1.conns.dom().contains(from));
    }
    giving_groups_is_steady(d1, reach, names, msg, from, start);
    let d2 = given_groups(d1, reach, names, msg, from, start);
    without_all_is_tidy(d2.registry, d2.spent);
}

proof fn given_each_domain(d: Delivery, list: Seq<InterestView>, msg: MsgView, from: u64)
    ensures
        given_each(d, list, msg, from).conns.dom() == d.conns.dom(),
    decreases list.len(),
{
    if list.len() > 0 {
        given_each_domain(d, list.drop_last(), msg, from);
        let before = given_each(d, list.drop_last(), msg, from);
        if eligible(before.conns, list.last(), from) {
            assert(given(before, list.last(), msg).conns.dom() =~= before.conns.dom());
        }
    }
}

// ------------------------------------------------------------------------- commands --

/// The server has gone from `a` to `b`: it is sound, it has the same connections, what was
/// closed stays closed, and what an open one is still sent has only got longer.
pub open spec fn progress(a: Hub, b: Hub) -> bool {
    &&& sound(b)
    &&& b.conns.dom() == a.conns.dom()
    &&& forall|cid: u64| #[trigger]
        a.conns.contains_key(cid) ==> {
            &&& a.conns[cid].closed ==> b.conns[cid].closed
            &&& !b.conns[cid].closed ==> stream(a.conns, cid).is_prefix_of(stream(b.conns, cid))
        }
}

pub(crate) proof fn progress_goes_on(a: Hub, b: Hub, c: Hub)
    requires
        progress(a, b),
        progress(b, c),
    ensures
        progress(a, c),
{
    assert forall|cid: u64| #[trigger] a.conns.contains_key(cid) implies {
        &&& a.conns[cid].closed ==> c.conns[cid].closed
        &&& !c.conns[cid].closed ==> stream(a.conns, cid).is_prefix_of(stream(c.conns, cid))
    } by {
        assert(b.conns.dom().contains(cid));
        assert(b.conns.contains_key(cid));
        if !c.conns[cid].closed {
            let (x, y, z) = (stream(a.conns, cid), stream(b.conns, cid), stream(c.conns, cid));
            assert(x =~= z.subrange(0, x.len() as int)) by {
                assert(x =~= y.subrange(0, x.len() as int));
                assert(y =~= z.subrange(0, y.len() as int));
            }
        }
    }
}

pub(crate) proof fn standing_still(hub: Hub)
    requires
        sound(hub),
    ensures
        progress(hub, hub),
{
    assert forall|cid: u64| #[trigger] hub.conns.contains_key(cid) implies stream(
        hub.conns,
        cid,
    ).is_prefix_of(stream(hub.conns, cid)) by {
        let x = stream(hub.conns, cid);
        assert(x =~= x.subrange(0, x.len() as int));
    }
}

/// A change to one connection that leaves its subscriptions alone.
proof fn one_conn_goes_on(hub: Hub, cid: u64, conn: ConnView)
    requires
        sound(hub),
        hub.conns.contains_key(cid),
        conn.cid == cid,
        conn.wf(),
        conn.subs == hub.conns[cid].subs,
        conn.closed == hub.conns[cid].closed,
        hub.conns[cid].out.unsent().is_prefix_of(conn.out.unsent()),
    ensures
        progress(hub, hub.with_conn(conn)),
{
    let after = hub.with_conn(conn);
    assert(after.conns.dom() =~= hub.conns.dom());
    assert forall|k: u64| #[trigger] after.conns.contains_key(k) implies after.conns[k].wf()
        && after.conns[k].cid == k by {
        assert(hub.conns.contains_key(k));
    }
    assert forall|c: u64, sid: Seq<u8>|
        after.conns.contains_key(c) && #[trigger] after.conns[c].subs.contains_key(sid)
            && after.conns[c].subs[sid].limit != 0 implies after.conns[c].subs[sid].delivered
        <= after.conns[c].subs[sid].limit by {
        assert(hub.conns.contains_key(c) && hub.conns[c].subs.contains_key(sid));
    }
    assert forall|i: InterestView| #[trigger] registered(after.registry, i) implies backed(
        after.conns,
        i,
    ) by {
        assert(registered(hub.registry, i));
    }
    standing_still(hub);
}

pub(crate) proof fn pushing_goes_on(hub: Hub, cid: u64, frame: Seq<u8>)
    requires
        sound(hub),
        hub.conns.contains_key(cid),
    ensures
        progress(hub, hub.pushed(cid, frame)),
{
    let out = hub.conns[cid].out;
    assert(hub.conns[cid].wf() && hub.conns[cid].cid == cid);
    a_frame_goes_out_last(out, frame);
    let (x, y) = (out.unsent(), out.pushed(frame).unsent());
    assert(x =~= y.subrange(0, x.len() as int));
    one_conn_goes_on(hub, cid, hub.conns[cid].pushed(frame));
}

pub(crate) proof fn telling_goes_on(
    hub: Hub,
    cid: u64,
    inbox: Seq<InterestView>,
    reply: Seq<u8>,
    dead: Seq<u8>,
)
    requires
        sound(hub),
        hub.conns.contains_key(cid),
    ensures
        progress(hub, told_nobody(hub, cid, inbox, reply, dead)),
    decreases inbox.len(),
{
    if inbox.len() == 0 {
        standing_still(hub);
    } else {
        let before = told_nobody(hub, cid, inbox.drop_last(), reply, dead);
        telling_goes_on(hub, cid, inbox.drop_last(), reply, dead);
        assert(before.conns.dom().contains(cid));
        let frame = status_frame(reply, inbox.last().sid, dead);
        pushing_goes_on(before, cid, frame);
        progress_goes_on(hub, before, before.pushed(cid, frame));
    }
}

pub(crate) proof fn routing_goes_on(hub: Hub, msg: MsgView, from: u64, rng: u64)
    requires
        sound(hub),
        hub.conns.contains_key(from),
    ensures
        ({
            let d = routed(hub.conns, hub.registry, hub.rng, msg, from);
            progress(hub, Hub { conns: d.conns, registry: d.registry, rng })
        }),
{
    let d = routed(hub.conns, hub.registry, hub.rng, msg, from);
    let reach = hub.registry.reach(msg.subject);
    routing_is_sound(hub, msg, from);
    reach_is_tidy(hub.registry, msg.subject);
    assert forall|k: int| #![trigger reach[k]] 0 <= k < reach.len() implies hub.conns.contains_key(
        reach[k].cid,
    ) by {
        assert(reach.contains(reach[k]));
        assert(registered(hub.registry, reach[k]));
    }
    crate::fanout::routing_keeps_connections(hub.conns, hub.registry, hub.rng, msg, from);
    assert forall|cid: u64| #[trigger] hub.conns.contains_key(cid) implies {
        &&& hub.conns[cid].closed ==> d.conns[cid].closed
        &&& !d.conns[cid].closed ==> stream(hub.conns, cid).is_prefix_of(stream(d.conns, cid))
    } by {
        every_listener_gets_a_copy(hub.conns, hub.registry, hub.rng, msg, from, cid);
        what_is_closed_stays_closed(hub, msg, from, cid);
        if !d.conns[cid].closed {
            let (x, y) = (stream(hub.conns, cid), stream(d.conns, cid));
            assert(x =~= y.subrange(0, x.len() as int));
        }
    }
}

proof fn what_is_closed_stays_closed(hub: Hub, msg: MsgView, from: u64, cid: u64)
    requires
        sound(hub),
        hub.conns.contains_key(from),
        hub.conns.contains_key(cid),
    ensures
        hub.conns[cid].closed ==> routed(
            hub.conns,
            hub.registry,
            hub.rng,
            msg,
            from,
        ).conns[cid].closed,
{
    let reach = hub.registry.reach(msg.subject);
    let names = group_names(reach);
    let plain = reach.filter(ungrouped());
    let d0 = undelivered(hub.conns, hub.registry);
    reach_is_tidy(hub.registry, msg.subject);
    filter_is_tidy(reach, ungrouped());
    assert forall|k: int| 0 <= k < plain.len() implies d0.conns.contains_key(
        (#[trigger] plain[k]).cid,
    ) by {
        assert(plain.contains(plain[k]));
        assert(registered(hub.registry, plain[k]));
    }
    given_each_adds(d0, plain, msg, from, cid);
    let d1 = given_each(d0, plain, msg, from);
    assert(d1.conns.dom().contains(cid) && d1.conns.dom().contains(from));
    given_groups_adds(d1, reach, names, msg, from, start_of(names, hub.rng), cid);
}

proof fn publishing_goes_on(hub: Hub, cid: u64, msg: MsgView, hpub: bool)
    requires
        sound(hub),
        hub.conns.contains_key(cid),
    ensures
        progress(hub, published(hub, cid, msg, hpub).hub),
{
    let opts = hub.conns[cid].opts;
    standing_still(hub);
    let literal = subjects::valid_subject(msg.subject) && !subjects::wild(msg.subject);
    let complaint = err_line(text(crate::proto::INVALID_PUBLISH_SUBJECT));
    let warned = if opts.pedantic && !literal {
        hub.pushed(cid, complaint)
    } else {
        hub
    };
    pushing_goes_on(hub, cid, complaint);
    assert(warned.conns.dom().contains(cid));
    let said = warned.acknowledged(cid, opts.verbose);
    pushing_goes_on(warned, cid, text("+OK\r\n"));
    standing_still(warned);
    progress_goes_on(hub, warned, said);
    assert(said.conns.dom().contains(cid));
    if let Some(reply) = msg.reply {
        let inbox = said.registry.reach_of(cid, reply);
        telling_goes_on(said, cid, inbox, reply, msg.subject);
        progress_goes_on(hub, said, told_nobody(said, cid, inbox, reply, msg.subject));
    }
    let d = routed(said.conns, said.registry, said.rng, msg, cid);
    let rng = rng_after(group_names(said.registry.reach(msg.subject)), said.rng);
    let after = Hub { conns: d.conns, registry: d.registry, rng };
    routing_goes_on(said, msg, cid, rng);
    progress_goes_on(hub, said, after);
    standing_still(after);
    assert(after.conns.dom().contains(cid));
    if let Some(reply) = msg.reply {
        let inbox = after.registry.reach_of(cid, reply);
        telling_goes_on(after, cid, inbox, reply, msg.subject);
        progress_goes_on(hub, after, told_nobody(after, cid, inbox, reply, msg.subject));
    }
}

proof fn subscribing_goes_on(
    hub: Hub,
    cid: u64,
    subject: Seq<u8>,
    queue: Option<Seq<u8>>,
    sid: Seq<u8>,
)
    requires
        sound(hub),
        hub.conns.contains_key(cid),
        !hub.conns[cid].closed,
        sid.len() <= crate::proto::field_limit(),
    ensures
        progress(hub, subscribed(hub, cid, subject, queue, sid).hub),
{
    let conn = hub.conns[cid];
    let sub = new_sub(subject, queue, sid, cid);
    let i = sub.interest();
    standing_still(hub);
    pushing_goes_on(hub, cid, err_line(text(crate::proto::INVALID_SUBJECT)));
    pushing_goes_on(hub, cid, text("+OK\r\n"));
    assert(conn.wf() && conn.cid == cid);
    if !conn.subs.contains_key(sid) {
        let held = hub.with_conn(ConnView { subs: conn.subs.insert(sid, sub), ..conn });
        let after = Hub { registry: hub.registry.with(i), ..held };
        assert(after.conns.dom() =~= hub.conns.dom());
        assert forall|k: u64| #[trigger] after.conns.contains_key(k) implies after.conns[k].wf()
            && after.conns[k].cid == k by {
            assert(hub.conns.contains_key(k));
        }
        assert forall|c: u64, s: Seq<u8>|
            after.conns.contains_key(c) && #[trigger] after.conns[c].subs.contains_key(s)
                && after.conns[c].subs[s].limit != 0 implies after.conns[c].subs[s].delivered
            <= after.conns[c].subs[s].limit by {
            if c != cid || s != sid {
                assert(hub.conns.contains_key(c) && hub.conns[c].subs.contains_key(s));
            }
        }
        with_is_tidy(hub.registry, i);
        assert forall|x: InterestView| #[trigger] registered(after.registry, x) implies backed(
            after.conns,
            x,
        ) by {
            if x != i {
                assert(registered(hub.registry, x));
                if x.cid == cid {
                    assert(x.sid != sid);
                }
            }
        }
        assert(progress(hub, after));
        pushing_goes_on(after, cid, text("+OK\r\n"));
        progress_goes_on(hub, after, after.pushed(cid, text("+OK\r\n")));
    }
}

/// A registry stays tidy when something is added to it.
proof fn with_is_tidy(r: RegistryView, i: InterestView)
    requires
        tidy(r),
        i.sid.len() <= crate::proto::field_limit(),
    ensures
        tidy(r.with(i)),
        forall|x: InterestView| #[trigger] registered(r.with(i), x) ==> registered(r, x) || x == i,
{
    reveal(crate::routing::holds);
    let list = r.list_for(i);
    if !r.knows(i) {
        assert(!list.contains(i)) by {
            if list.contains(i) {
                let k = list.index_of(i);
                assert(crate::routing::same_interest(list[k], i));
            }
        }
        assert forall|a: int, b: int|
            0 <= a < list.push(i).len() && 0 <= b < list.push(i).len() && a != b implies list.push(
            i,
        )[a] != list.push(i)[b] by {
            if a == list.len() {
                assert(list.contains(list[b]));
            } else if b == list.len() {
                assert(list.contains(list[a]));
            }
        }
        assert forall|x: InterestView| #[trigger] registered(r.with(i), x) implies registered(r, x)
            || x == i by {
            push_contains(list, i, x);
        }
    }
}

proof fn unsubscribing_goes_on(hub: Hub, cid: u64, sid: Seq<u8>, max: int)
    requires
        sound(hub),
        hub.conns.contains_key(cid),
        max <= u64::MAX,
    ensures
        progress(hub, unsubscribed_hub(hub, cid, sid, max).hub),
{
    let conn = hub.conns[cid];
    standing_still(hub);
    pushing_goes_on(hub, cid, text("+OK\r\n"));
    assert(conn.wf() && conn.cid == cid);
    let held = hub.with_conn(ConnView { subs: unsubscribed(conn.subs, sid, max), ..conn });
    let ends = conn.subs.contains_key(sid) && !conn.subs[sid].can_take(max);
    let gone = conn.subs[sid].interest();
    let registry = if ends {
        hub.registry.without(gone)
    } else {
        hub.registry
    };
    let after = Hub { registry, ..held };
    without_is_tidy(hub.registry, gone);
    assert(after.conns.dom() =~= hub.conns.dom());
    assert forall|k: u64| #[trigger] after.conns.contains_key(k) implies after.conns[k].wf()
        && after.conns[k].cid == k by {
        assert(hub.conns.contains_key(k));
    }
    assert forall|c: u64, s: Seq<u8>|
        after.conns.contains_key(c) && #[trigger] after.conns[c].subs.contains_key(s)
            && after.conns[c].subs[s].limit != 0 implies after.conns[c].subs[s].delivered
        <= after.conns[c].subs[s].limit by {
        assert(hub.conns.contains_key(c) && hub.conns[c].subs.contains_key(s));
    }
    assert forall|x: InterestView| #[trigger] registered(after.registry, x) implies backed(
        after.conns,
        x,
    ) by {
        assert(registered(hub.registry, x));
        assert(backed(hub.conns, x));
        if x.cid == cid && x.sid == sid {
            assert(x == gone);
        }
    }
    assert(progress(hub, after));
    pushing_goes_on(after, cid, text("+OK\r\n"));
    progress_goes_on(hub, after, after.pushed(cid, text("+OK\r\n")));
}

/// Whatever a client commands, the server stays sound: what is registered is what open
/// connections hold and are still owed, and nobody gets more than they asked for. And
/// nothing overtakes: what a connection is still sent stays in front of what is added.
pub proof fn every_command_is_sound(hub: Hub, cid: u64, ev: EventView)
    requires
        sound(hub),
        hub.conns.contains_key(cid),
        ev is Subscribe ==> !hub.conns[cid].closed,
        crate::proto::event_fits(ev),
    ensures
        progress(hub, handled(hub, cid, ev).hub),
{
    let conn = hub.conns[cid];
    standing_still(hub);
    assert(conn.wf() && conn.cid == cid);
    let x = conn.out.unsent();
    assert(x =~= x.subrange(0, x.len() as int));
    match ev {
        EventView::Connect(json) => {
            if let Some(members) = crate::json::json_object(json) {
                let opts = crate::client::options_after(conn.opts, members);
                let changed = ConnView { opts, ..conn };
                one_conn_goes_on(hub, cid, changed);
                let after = hub.with_conn(changed);
                pushing_goes_on(after, cid, text("+OK\r\n"));
                progress_goes_on(hub, after, after.pushed(cid, text("+OK\r\n")));
            }
        },
        EventView::Subscribe { subject, queue, sid } => {
            subscribing_goes_on(hub, cid, subject, queue, sid);
        },
        EventView::Unsubscribe { sid, max } => {
            unsubscribing_goes_on(hub, cid, sid, max);
        },
        EventView::Publish { subject, reply, hdr, total, body, hpub } => {
            publishing_goes_on(hub, cid, MsgView { subject, reply, hdr, body }, hpub);
        },
        EventView::Ping => {
            pushing_goes_on(hub, cid, text("PONG\r\n"));
        },
        EventView::Pong => {
            one_conn_goes_on(hub, cid, ConnView { pings: 0, ..conn });
        },
        EventView::HpubAttempt(outcome) => {
            if let crate::proto::HpubOutcome::Frame(message) = outcome {
                pushing_goes_on(hub, cid, err_line(text(message)));
            }
        },
        _ => {},
    }
}

/// A connection that ends is forgotten: nothing that it listened to is registered any more,
/// and nobody else is touched.
pub proof fn an_end_is_sound(hub: Hub, cid: u64, reason: Seq<char>, hard: bool)
    requires
        sound(hub),
        hub.conns.contains_key(cid),
    ensures
        progress(hub, hub.closed(cid, reason, hard)),
        hub.closed(cid, reason, hard).conns[cid].closed,
        forall|i: InterestView| #[trigger]
            registered(hub.closed(cid, reason, hard).registry, i) ==> i.cid != cid,
        forall|other: u64|
            other != cid && #[trigger] hub.conns.contains_key(other) ==> hub.closed(
                cid,
                reason,
                hard,
            ).conns[other] == hub.conns[other],
{
    let after = hub.closed(cid, reason, hard);
    standing_still(hub);
    assert(hub.conns[cid].wf() && hub.conns[cid].cid == cid);
    if hub.conns[cid].closed {
        assert forall|i: InterestView| #[trigger] registered(after.registry, i) implies i.cid
            != cid by {
            assert(backed(hub.conns, i));
        }
    } else {
        without_conn_is_tidy(hub.registry, cid);
        a_closed_outbox_has_room(hub.conns[cid].out, hard);
        assert(after.conns.dom() =~= hub.conns.dom());
        assert forall|k: u64| #[trigger] after.conns.contains_key(k) implies after.conns[k].wf()
            && after.conns[k].cid == k by {
            assert(hub.conns.contains_key(k));
        }
        assert forall|c: u64, s: Seq<u8>|
            after.conns.contains_key(c) && #[trigger] after.conns[c].subs.contains_key(s)
                && after.conns[c].subs[s].limit != 0 implies after.conns[c].subs[s].delivered
            <= after.conns[c].subs[s].limit by {
            assert(hub.conns.contains_key(c) && hub.conns[c].subs.contains_key(s));
        }
        assert forall|x: InterestView| #[trigger] registered(after.registry, x) implies backed(
            after.conns,
            x,
        ) by {
            assert(registered(hub.registry, x));
        }
    }
}

/// A connection that starts under a number that nobody has, and one that is taken away after
/// it ended, leave the server sound.
pub proof fn comings_and_goings_are_sound(hub: Hub, conn: ConnView, gone: u64)
    requires
        sound(hub),
        !hub.conns.contains_key(conn.cid),
        conn.wf(),
        conn.subs == Map::<Seq<u8>, SubView>::empty(),
        hub.conns.contains_key(gone) ==> hub.conns[gone].closed,
    ensures
        sound(hub.with_conn(conn)),
        sound(Hub { conns: hub.conns.remove(gone), ..hub }),
{
    let came = hub.with_conn(conn);
    let went = Hub { conns: hub.conns.remove(gone), ..hub };
    assert forall|k: u64| #[trigger] came.conns.contains_key(k) implies came.conns[k].wf()
        && came.conns[k].cid == k by {
        assert(k == conn.cid || hub.conns.contains_key(k));
    }
    assert forall|k: u64| #[trigger] went.conns.contains_key(k) implies went.conns[k].wf()
        && went.conns[k].cid == k by {
        assert(hub.conns.contains_key(k));
    }
    assert forall|c: u64, s: Seq<u8>|
        came.conns.contains_key(c) && #[trigger] came.conns[c].subs.contains_key(s)
            && came.conns[c].subs[s].limit != 0 implies came.conns[c].subs[s].delivered
        <= came.conns[c].subs[s].limit by {
        assert(hub.conns.contains_key(c) && hub.conns[c].subs.contains_key(s));
    }
    assert forall|c: u64, s: Seq<u8>|
        went.conns.contains_key(c) && #[trigger] went.conns[c].subs.contains_key(s)
            && went.conns[c].subs[s].limit != 0 implies went.conns[c].subs[s].delivered
        <= went.conns[c].subs[s].limit by {
        assert(hub.conns.contains_key(c) && hub.conns[c].subs.contains_key(s));
    }
    assert forall|x: InterestView| #[trigger] registered(hub.registry, x) implies backed(
        came.conns,
        x,
    ) && backed(went.conns, x) by {
        assert(backed(hub.conns, x));
    }
}

/// A server with nobody connected is sound.
pub proof fn the_first_hub_is_sound(rng: u64)
    ensures
        sound(Hub { conns: Map::empty(), registry: RegistryView::empty(), rng }),
{
}

/// A fatal error is told, behind everything that was queued, and ends the connection; a
/// silent one ends it without a word; a soft one is told and survived.
pub proof fn errors_end_what_they_should(hub: Hub, cid: u64, err: ProtoError)
    requires
        sound(hub),
        hub.conns.contains_key(cid),
        !hub.conns[cid].closed,
    ensures
        ({
            let after = broken(hub, cid, err);
            let told = |message: &'static str|
                match hub.conns[cid].out.outcome(err_line(text(message)).len()) {
                    Enqueue::Queued | Enqueue::SoftLimit => stream(hub.conns, cid) + err_line(
                        text(message),
                    ),
                    _ => stream(hub.conns, cid),
                };
            &&& progress(hub, after)
            &&& match err {
                ProtoError::Fatal(m) => after.conns[cid].closed && stream(after.conns, cid)
                    == told(m),
                ProtoError::Soft(m) => !after.conns[cid].closed && stream(after.conns, cid)
                    == told(m),
                ProtoError::Silent => after.conns[cid].closed && stream(after.conns, cid) == stream(
                    hub.conns,
                    cid,
                ),
            }
        }),
{
    let conn = hub.conns[cid];
    assert(conn.wf() && conn.cid == cid);
    match err {
        ProtoError::Fatal(m) => {
            let line = err_line(text(m));
            let told = hub.pushed(cid, line);
            pushing_goes_on(hub, cid, line);
            a_frame_goes_out_last(conn.out, line);
            an_end_is_sound(told, cid, crate::server::error_reason(err), false);
            progress_goes_on(hub, told, broken(hub, cid, err));
            a_closed_outbox_has_room(told.conns[cid].out, false);
        },
        ProtoError::Soft(m) => {
            pushing_goes_on(hub, cid, err_line(text(m)));
            a_frame_goes_out_last(conn.out, err_line(text(m)));
        },
        ProtoError::Silent => {
            an_end_is_sound(hub, cid, crate::server::error_reason(err), false);
            a_closed_outbox_has_room(conn.out, false);
        },
    }
}

/// A subscription that is ended, or asked to end at a count that it has reached, is
/// registered no more.
pub proof fn an_ended_subscription_gets_nothing(hub: Hub, cid: u64, sid: Seq<u8>, max: int)
    requires
        sound(hub),
        hub.conns.contains_key(cid),
        hub.conns[cid].subs.contains_key(sid) ==> !hub.conns[cid].subs[sid].can_take(max),
    ensures
        forall|i: InterestView| #[trigger]
            registered(unsubscribed_hub(hub, cid, sid, max).hub.registry, i) ==> !(i.cid == cid
                && i.sid == sid),
{
    let conn = hub.conns[cid];
    if conn.subs.contains_key(sid) {
        without_is_tidy(hub.registry, conn.subs[sid].interest());
    }
    assert forall|i: InterestView| #[trigger]
        registered(unsubscribed_hub(hub, cid, sid, max).hub.registry, i) implies !(i.cid == cid
        && i.sid == sid) by {
        assert(registered(hub.registry, i));
        assert(backed(hub.conns, i));
    }
}

/// An id that is taken keeps what it has: subscribing with it again, to whatever subject,
/// changes neither what the connection holds nor what is registered.
pub proof fn a_taken_id_keeps_its_subscription(
    hub: Hub,
    cid: u64,
    subject: Seq<u8>,
    queue: Option<Seq<u8>>,
    sid: Seq<u8>,
)
    requires
        numbered(hub.conns),
        hub.conns.contains_key(cid),
        hub.conns[cid].subs.contains_key(sid),
    ensures
        ({
            let after = subscribed(hub, cid, subject, queue, sid).hub;
            &&& after.registry == hub.registry
            &&& after.conns[cid].subs == hub.conns[cid].subs
        }),
{
    assert(hub.conns[cid].cid == cid);
}

/// A message touches only connections that it can reach. One that is dropped because it is
/// too slow takes nobody with it.
pub proof fn a_message_touches_only_its_reach(hub: Hub, msg: MsgView, from: u64, cid: u64)
    requires
        sound(hub),
        hub.conns.contains_key(from),
        hub.conns.contains_key(cid),
        forall|k: int| #![trigger hub.registry.reach(msg.subject)[k]]
            0 <= k < hub.registry.reach(msg.subject).len() ==> hub.registry.reach(
                msg.subject,
            )[k].cid != cid,
    ensures
        routed(hub.conns, hub.registry, hub.rng, msg, from).conns[cid] == hub.conns[cid],
{
    let reach = hub.registry.reach(msg.subject);
    let names = group_names(reach);
    let plain = reach.filter(ungrouped());
    let d0 = undelivered(hub.conns, hub.registry);
    assert forall|k: int| 0 <= k < plain.len() implies (#[trigger] plain[k]).cid != cid by {
        let j = filtered_is_there(reach, ungrouped(), k);
        assert(reach[j] == plain[k]);
    }
    giving_each_spares(d0, plain, msg, from, cid);
    let d1 = given_each(d0, plain, msg, from);
    giving_groups_spares(d1, reach, names, msg, from, start_of(names, hub.rng), cid);
}

proof fn giving_each_spares(
    d: Delivery,
    list: Seq<InterestView>,
    msg: MsgView,
    from: u64,
    cid: u64,
)
    requires
        d.conns.contains_key(cid),
        forall|k: int| 0 <= k < list.len() ==> (#[trigger] list[k]).cid != cid,
    ensures
        given_each(d, list, msg, from).conns.contains_key(cid),
        given_each(d, list, msg, from).conns[cid] == d.conns[cid],
    decreases list.len(),
{
    if list.len() > 0 {
        let less = list.drop_last();
        assert forall|k: int| 0 <= k < less.len() implies (#[trigger] less[k]).cid != cid by {
            assert(less[k] == list[k]);
        }
        assert(list[list.len() - 1].cid != cid);
        giving_each_spares(d, less, msg, from, cid);
    }
}

proof fn giving_groups_spares(
    d: Delivery,
    reach: Seq<InterestView>,
    names: Seq<Seq<u8>>,
    msg: MsgView,
    from: u64,
    start: usize,
    cid: u64,
)
    requires
        d.conns.contains_key(cid),
        forall|k: int| #![trigger reach[k]] 0 <= k < reach.len() ==> reach[k].cid != cid,
    ensures
        given_groups(d, reach, names, msg, from, start).conns.contains_key(cid),
        given_groups(d, reach, names, msg, from, start).conns[cid] == d.conns[cid],
    decreases names.len(),
{
    if names.len() > 0 {
        let less = names.drop_last();
        giving_groups_spares(d, reach, less, msg, from, start, cid);
        let before = given_groups(d, reach, less, msg, from, start);
        pick_is_a_member(before.conns, reach, names.last(), start, from);
        if let Some(m) = picked(before.conns, reach.filter(grouped(names.last())), start, from) {
            assert(reach[reach.index_of(m)].cid != cid);
        }
    }
}

/// A message that reached nobody has left no byte with anybody.
pub proof fn what_reaches_nobody_is_sent_to_nobody(hub: Hub, msg: MsgView, from: u64, cid: u64)
    requires
        sound(hub),
        hub.conns.contains_key(from),
        hub.conns.contains_key(cid),
        routed(hub.conns, hub.registry, hub.rng, msg, from).count == 0,
    ensures
        ({
            let after = routed(hub.conns, hub.registry, hub.rng, msg, from);
            after.conns[cid] == hub.conns[cid] || after.conns[cid].closed
        }),
{
    let reach = hub.registry.reach(msg.subject);
    let names = group_names(reach);
    let plain = reach.filter(ungrouped());
    let d0 = undelivered(hub.conns, hub.registry);
    let d1 = given_each(d0, plain, msg, from);
    giving_groups_counts(d1, reach, names, msg, from, start_of(names, hub.rng), cid);
    giving_each_counts(d0, plain, msg, from, cid);
}

proof fn giving_each_counts(
    d: Delivery,
    list: Seq<InterestView>,
    msg: MsgView,
    from: u64,
    cid: u64,
)
    ensures
        ({
            let after = given_each(d, list, msg, from);
            &&& after.count >= d.count
            &&& after.count == d.count ==> after.conns[cid] == d.conns[cid]
                || after.conns[cid].closed
        }),
    decreases list.len(),
{
    if list.len() > 0 {
        giving_each_counts(d, list.drop_last(), msg, from, cid);
    }
}

proof fn giving_groups_counts(
    d: Delivery,
    reach: Seq<InterestView>,
    names: Seq<Seq<u8>>,
    msg: MsgView,
    from: u64,
    start: usize,
    cid: u64,
)
    ensures
        ({
            let after = given_groups(d, reach, names, msg, from, start);
            &&& after.count >= d.count
            &&& after.count == d.count ==> after.conns[cid] == d.conns[cid]
                || after.conns[cid].closed
        }),
    decreases names.len(),
{
    if names.len() > 0 {
        giving_groups_counts(d, reach, names.drop_last(), msg, from, start, cid);
        let before = given_groups(d, reach, names.drop_last(), msg, from, start);
        pick_is_a_member(before.conns, reach, names.last(), start, from);
    }
}

/// The status frames for some inbox subscriptions, one after the other.
pub open spec fn statuses(inbox: Seq<InterestView>, reply: Seq<u8>, dead: Seq<u8>) -> Seq<u8>
    decreases inbox.len(),
{
    if inbox.len() == 0 {
        Seq::empty()
    } else {
        statuses(inbox.drop_last(), reply, dead) + status_frame(reply, inbox.last().sid, dead)
    }
}

/// A publisher that asked to be told, and whose message reached nobody, gets one status
/// frame for each of its own subscriptions to the reply subject, as far as it has room for
/// all of them. Nobody else gets anything; and where the message reached somebody, nobody
/// is told.
pub proof fn a_request_that_nobody_hears_is_answered(
    hub: Hub,
    cid: u64,
    msg: MsgView,
    delivered: nat,
)
    requires
        sound_conns(hub.conns),
        hub.conns.contains_key(cid),
        !hub.conns[cid].closed,
        msg.reply matches Some(reply) ==> hub.conns[cid].out.pending + statuses(
            hub.registry.reach_of(cid, reply),
            reply,
            msg.subject,
        ).len() <= hub.conns[cid].out.hard,
    ensures
        ({
            let after = answered(hub, cid, msg, delivered);
            let owed = match msg.reply {
                Some(reply) => if delivered == 0 && hub.conns[cid].opts.no_responders && reply.len()
                    > 0 {
                    statuses(hub.registry.reach_of(cid, reply), reply, msg.subject)
                } else {
                    Seq::empty()
                },
                None => Seq::empty(),
            };
            &&& stream(after.conns, cid) == stream(hub.conns, cid) + owed
            &&& after.registry == hub.registry
            &&& forall|other: u64|
                other != cid && #[trigger] hub.conns.contains_key(other) ==> after.conns[other]
                    == hub.conns[other]
        }),
{
    assert(stream(hub.conns, cid) + Seq::<u8>::empty() =~= stream(hub.conns, cid));
    if let Some(reply) = msg.reply {
        telling_adds(hub, cid, hub.registry.reach_of(cid, reply), reply, msg.subject);
    }
}

proof fn telling_adds(
    hub: Hub,
    cid: u64,
    inbox: Seq<InterestView>,
    reply: Seq<u8>,
    dead: Seq<u8>,
)
    requires
        sound_conns(hub.conns),
        hub.conns.contains_key(cid),
        !hub.conns[cid].closed,
        hub.conns[cid].out.pending + statuses(inbox, reply, dead).len() <= hub.conns[cid].out.hard,
    ensures
        ({
            let after = told_nobody(hub, cid, inbox, reply, dead);
            &&& sound_conns(after.conns)
            &&& after.conns.contains_key(cid)
            &&& !after.conns[cid].closed
            &&& after.conns[cid].out.hard == hub.conns[cid].out.hard
            &&& after.conns[cid].out.pending == hub.conns[cid].out.pending + statuses(
                inbox,
                reply,
                dead,
            ).len()
            &&& stream(after.conns, cid) == stream(hub.conns, cid) + statuses(inbox, reply, dead)
            &&& after.registry == hub.registry
            &&& forall|other: u64|
                other != cid && #[trigger] hub.conns.contains_key(other) ==> after.conns[other]
                    == hub.conns[other]
        }),
    decreases inbox.len(),
{
    if inbox.len() == 0 {
        assert(stream(hub.conns, cid) + Seq::<u8>::empty() =~= stream(hub.conns, cid));
    } else {
        let less = inbox.drop_last();
        telling_adds(hub, cid, less, reply, dead);
        let before = told_nobody(hub, cid, less, reply, dead);
        let frame = status_frame(reply, inbox.last().sid, dead);
        let conn = before.conns[cid];
        let after = before.pushed(cid, frame);
        assert(conn.wf() && conn.cid == cid);
        a_frame_goes_out_last(conn.out, frame);
        assert(stream(hub.conns, cid) + statuses(less, reply, dead) + frame =~= stream(
            hub.conns,
            cid,
        ) + (statuses(less, reply, dead) + frame));
        assert forall|k: u64| #[trigger] after.conns.contains_key(k) implies after.conns[k].wf()
            && after.conns[k].cid == k by {
            assert(k == cid || before.conns.contains_key(k));
        }
    }
}

/// A message whose subject holds a wildcard reaches nobody: no other connection changes,
/// nothing that is registered changes, and nobody is waited for. A publisher that is neither
/// pedantic nor verbose, and did not ask about its requests, hears nothing of it either.
pub proof fn a_wildcard_subject_reaches_nobody(hub: Hub, cid: u64, msg: MsgView, hpub: bool)
    requires
        numbered(hub.conns),
        hub.conns.contains_key(cid),
        subjects::wild(msg.subject),
    ensures
        ({
            let done = published(hub, cid, msg, hpub);
            let opts = hub.conns[cid].opts;
            &&& done.hub.registry == hub.registry
            &&& done.hub.rng == hub.rng
            &&& done.stall.len() == 0
            &&& done.hub.conns.remove(cid) == hub.conns.remove(cid)
            &&& !opts.pedantic && !opts.verbose && !opts.no_responders ==> done.hub == hub
        }),
{
    let opts = hub.conns[cid].opts;
    let complaint = err_line(text(crate::proto::INVALID_PUBLISH_SUBJECT));
    let warned = if opts.pedantic {
        hub.pushed(cid, complaint)
    } else {
        hub
    };
    let said = warned.acknowledged(cid, opts.verbose);
    assert(hub.conns[cid].cid == cid && said.conns[cid].cid == cid);
    assert(said.conns.remove(cid) =~= hub.conns.remove(cid));
    if let Some(reply) = msg.reply {
        telling_touches_one(said, cid, said.registry.reach_of(cid, reply), reply, msg.subject);
    }
}

proof fn telling_touches_one(
    hub: Hub,
    cid: u64,
    inbox: Seq<InterestView>,
    reply: Seq<u8>,
    dead: Seq<u8>,
)
    requires
        hub.conns[cid].cid == cid,
    ensures
        ({
            let after = told_nobody(hub, cid, inbox, reply, dead);
            &&& after.registry == hub.registry
            &&& after.rng == hub.rng
            &&& after.conns[cid].cid == cid
            &&& after.conns.remove(cid) == hub.conns.remove(cid)
        }),
    decreases inbox.len(),
{
    if inbox.len() > 0 {
        telling_touches_one(hub, cid, inbox.drop_last(), reply, dead);
        let before = told_nobody(hub, cid, inbox.drop_last(), reply, dead);
        let after = told_nobody(hub, cid, inbox, reply, dead);
        assert(after.conns.remove(cid) =~= before.conns.remove(cid));
    }
}

/// Where there is room for it, `INFO` is the first thing that a new connection is sent.
pub proof fn a_connection_starts_with_info(cid: u64, max_pending: u64, line: Seq<u8>)
    requires
        line.len() <= max_pending as usize,
    ensures
        ConnView::fresh(cid, max_pending).pushed(line).out.unsent() == line,
{
    let out = ConnView::fresh(cid, max_pending).out;
    a_frame_goes_out_last(out, line);
    assert(out.unsent() + line =~= line);
}

/// A `PING` is answered whatever the client has said before, behind everything that waits;
/// it is no answer to a probe of the server's own, and it changes nothing else.
pub proof fn a_ping_is_answered(hub: Hub, cid: u64)
    requires
        sound_conns(hub.conns),
        hub.conns.contains_key(cid),
        !hub.conns[cid].closed,
        hub.conns[cid].out.pending + text("PONG\r\n").len() <= hub.conns[cid].out.hard,
    ensures
        ({
            let done = handled(hub, cid, EventView::Ping);
            &&& done.keep
            &&& stream(done.hub.conns, cid) == stream(hub.conns, cid) + text("PONG\r\n")
            &&& done.hub.conns[cid] == (ConnView {
                out: done.hub.conns[cid].out,
                ..hub.conns[cid]
            })
            &&& done.hub.conns.remove(cid) == hub.conns.remove(cid)
            &&& done.hub.registry == hub.registry
        }),
{
    assert(hub.conns[cid].wf() && hub.conns[cid].cid == cid);
    a_frame_goes_out_last(hub.conns[cid].out, text("PONG\r\n"));
    assert(handled(hub, cid, EventView::Ping).hub.conns.remove(cid) =~= hub.conns.remove(cid));
}

/// Does a command that is carried out earn an acknowledgement and no other answer?
pub open spec fn acknowledgeable(ev: EventView) -> bool {
    match ev {
        EventView::Connect(json) => crate::json::json_object(json) is Some,
        EventView::Subscribe { subject, queue, .. } => subjects::valid_subject(subject) && (
        queue matches Some(q) ==> subjects::valid_subject(q)),
        EventView::Unsubscribe { .. } => true,
        _ => false,
    }
}

/// `CONNECT`, `SUB` and `UNSUB` are acknowledged to a verbose client, and to no other. What
/// counts is what the client wants once the command is carried out.
pub proof fn a_command_is_acknowledged_to_who_asked(hub: Hub, cid: u64, ev: EventView)
    requires
        sound_conns(hub.conns),
        hub.conns.contains_key(cid),
        !hub.conns[cid].closed,
        hub.conns[cid].out.pending + text("+OK\r\n").len() <= hub.conns[cid].out.hard,
        acknowledgeable(ev),
    ensures
        ({
            let done = handled(hub, cid, ev);
            &&& done.keep
            &&& stream(done.hub.conns, cid) == stream(hub.conns, cid)
                + if done.hub.conns[cid].opts.verbose {
                text("+OK\r\n")
            } else {
                Seq::empty()
            }
        }),
{
    let conn = hub.conns[cid];
    assert(conn.wf() && conn.cid == cid);
    a_frame_goes_out_last(conn.out, text("+OK\r\n"));
    assert(stream(hub.conns, cid) + Seq::<u8>::empty() =~= stream(hub.conns, cid));
}

/// A publish is acknowledged to a verbose client, and to no other, before anything that the
/// message itself brings the client.
pub proof fn a_publish_is_acknowledged_first(hub: Hub, cid: u64, msg: MsgView)
    requires
        sound(hub),
        hub.conns.contains_key(cid),
        !hub.conns[cid].closed,
        hub.conns[cid].out.pending + text("+OK\r\n").len() <= hub.conns[cid].out.hard,
        subjects::valid_subject(msg.subject),
        !subjects::wild(msg.subject),
    ensures
        ({
            let after = published(hub, cid, msg, false).hub;
            let heard = if hub.conns[cid].opts.verbose {
                stream(hub.conns, cid) + text("+OK\r\n")
            } else {
                stream(hub.conns, cid)
            };
            !after.conns[cid].closed ==> heard.is_prefix_of(stream(after.conns, cid))
        }),
{
    let conn = hub.conns[cid];
    assert(conn.wf() && conn.cid == cid);
    a_frame_goes_out_last(conn.out, text("+OK\r\n"));
    standing_still(hub);
    pushing_goes_on(hub, cid, text("+OK\r\n"));
    let said = hub.acknowledged(cid, conn.opts.verbose);
    assert(said.conns.dom().contains(cid));
    let d = routed(said.conns, said.registry, said.rng, msg, cid);
    let rng = rng_after(group_names(said.registry.reach(msg.subject)), said.rng);
    let routed_hub = Hub { conns: d.conns, registry: d.registry, rng };
    routing_goes_on(said, msg, cid, rng);
    standing_still(routed_hub);
    assert(routed_hub.conns.dom().contains(cid));
    if let Some(reply) = msg.reply {
        let inbox = routed_hub.registry.reach_of(cid, reply);
        telling_goes_on(routed_hub, cid, inbox, reply, msg.subject);
        let told = told_nobody(routed_hub, cid, inbox, reply, msg.subject);
        progress_goes_on(said, routed_hub, told);
    }
    assert(said.conns.contains_key(cid));
}

/// A subscriber that did not ask for headers gets the message as if it had none.
pub proof fn headers_are_stripped(sid: Seq<u8>, msg: MsgView)
    requires
        msg.hdr <= msg.body.len(),
    ensures
        delivery(sid, false, msg) == delivery(
            sid,
            true,
            MsgView { hdr: 0, body: msg.body.skip(msg.hdr as int), ..msg },
        ),
{
    let bare = MsgView { hdr: 0, body: msg.body.skip(msg.hdr as int), ..msg };
    assert(msg.body_for(false) =~= bare.body_for(true));
}

/// A client that answers no probe gets two of them and then, where there is room, the word
/// that it is stale, all behind what was queued before; and then it is closed.
pub proof fn a_silent_client_is_told(conn: ConnView)
    requires
        conn.wf(),
        !conn.closed,
        conn.pings == 0,
        conn.out.pending + 2 * text("PING\r\n").len() + err_line(
            text(crate::proto::STALE_CONNECTION),
        ).len() <= conn.out.hard,
    ensures
        ({
            let after = ticked(ticked(ticked(conn)));
            &&& after.closed
            &&& after.out.unsent() == conn.out.unsent() + text("PING\r\n") + text("PING\r\n")
                + err_line(text(crate::proto::STALE_CONNECTION))
        }),
{
    let ping = text("PING\r\n");
    let stale = err_line(text(crate::proto::STALE_CONNECTION));
    a_frame_goes_out_last(conn.out, ping);
    let once = ticked(conn);
    a_frame_goes_out_last(once.out, ping);
    let twice = ticked(once);
    a_frame_goes_out_last(twice.out, stale);
    a_closed_outbox_has_room(twice.out.pushed(stale), false);
}

// --------------------------------------------------------------------------- limits --

/// Where a connection is open, does it hold that subscription?
pub open spec fn kept_by(conns: Map<u64, ConnView>, x: InterestView) -> bool {
    &&& conns.contains_key(x.cid)
    &&& !conns[x.cid].closed ==> {
        &&& conns[x.cid].subs.contains_key(x.sid)
        &&& conns[x.cid].subs[x.sid].interest() == x
    }
}

/// Is the subscription among those that have come to their end?
spec fn struck(spent: Seq<InterestView>, x: InterestView) -> bool {
    exists|k: int| 0 <= k < spent.len() && (#[trigger] spent[k]).cid == x.cid && spent[k].sid
        == x.sid
}

/// Only a subscription that has had all that it asked for has come to its end.
spec fn marked(d: Delivery, x: InterestView) -> bool {
    !d.conns[x.cid].closed && struck(d.spent, x) ==> d.conns[x.cid].subs[x.sid].spent()
}

/// A delivery that went from `d` to `after` has counted one message for the subscription, or
/// has left it alone; and where it closed its connection, that was because it is too slow.
spec fn counts(d: Delivery, after: Delivery, x: InterestView, hit: bool) -> bool {
    let (was, now) = (d.conns[x.cid], after.conns[x.cid]);
    &&& sound_conns(after.conns)
    &&& tidy(after.registry)
    &&& after.conns.dom() == d.conns.dom()
    &&& now.opts == was.opts
    &&& was.closed ==> now == was
    &&& now.closed && !was.closed ==> now.reason == Some(SLOW_CONSUMER_REASON@)
    &&& !now.closed ==> {
        &&& now.subs.contains_key(x.sid)
        &&& now.subs[x.sid] == if hit {
            was.subs[x.sid].counted()
        } else {
            was.subs[x.sid]
        }
        &&& registered(after.registry, x) == registered(d.registry, x)
    }
    &&& marked(after, x)
}

proof fn struck_push(spent: Seq<InterestView>, j: InterestView, x: InterestView)
    ensures
        struck(spent.push(j), x) == (struck(spent, x) || (j.cid == x.cid && j.sid == x.sid)),
{
    let more = spent.push(j);
    if struck(spent, x) {
        let k = choose|k: int|
            0 <= k < spent.len() && (#[trigger] spent[k]).cid == x.cid && spent[k].sid == x.sid;
        assert(more[k] == spent[k]);
    }
    assert(more[spent.len() as int] == j);
    if struck(more, x) && !(j.cid == x.cid && j.sid == x.sid) {
        let k = choose|k: int|
            0 <= k < more.len() && (#[trigger] more[k]).cid == x.cid && more[k].sid == x.sid;
        assert(spent[k] == more[k]);
    }
}

proof fn giving_is_counted(d: Delivery, j: InterestView, msg: MsgView, x: InterestView)
    requires
        sound_conns(d.conns),
        tidy(d.registry),
        owed(d.conns, j),
        !d.conns[j.cid].closed,
        kept_by(d.conns, x),
        marked(d, x),
    ensures
        counts(d, given(d, j, msg), x, j == x),
{
    let after = given(d, j, msg);
    let conn = d.conns[j.cid];
    given_adds(d, j, msg, j.cid);
    given_adds(d, j, msg, x.cid);
    struck_push(d.spent, j, x);
    without_conn_is_tidy(d.registry, j.cid);
    assert(conn.subs.contains_key(j.sid) && conn.subs[j.sid].interest() == j);
    if !d.conns[x.cid].closed && j.cid == x.cid && j.sid == x.sid {
        assert(j == x);
    }
    if j.cid != x.cid {
        without_conn_keeps(d.registry, j.cid, x);
    }
}

/// Striking one connection leaves the others registered.
proof fn without_conn_keeps(r: RegistryView, cid: u64, x: InterestView)
    requires
        tidy(r),
        x.cid != cid,
    ensures
        registered(r.without_conn(cid), x) == registered(r, x),
{
    let p = PatternView { cid, sid: None, subject: None };
    filter_is_tidy(r.wildcard, spared(p));
    filter_is_tidy(r.literal, spared(p));
    assert(spared(p)(x));
}

/// Striking some subscriptions leaves the others registered.
proof fn without_all_keeps(r: RegistryView, gone: Seq<InterestView>, x: InterestView)
    requires
        tidy(r),
        !struck(gone, x),
    ensures
        registered(r.without_all(gone), x) == registered(r, x),
    decreases gone.len(),
{
    if gone.len() > 0 {
        let less = gone.drop_last();
        let last = gone.last();
        assert(gone =~= less.push(last));
        struck_push(less, last, x);
        without_all_keeps(r, less, x);
        without_all_is_tidy(r, less);
        let rest = r.without_all(less);
        let w = PatternView { cid: last.cid, sid: Some(last.sid), subject: None };
        let l = PatternView { cid: last.cid, sid: Some(last.sid), subject: Some(last.subject) };
        filter_is_tidy(rest.wildcard, spared(w));
        filter_is_tidy(rest.literal, spared(l));
        assert(spared(w)(x) && spared(l)(x));
    }
}

proof fn giving_each_is_counted(
    d: Delivery,
    list: Seq<InterestView>,
    msg: MsgView,
    from: u64,
    x: InterestView,
)
    requires
        sound_conns(d.conns),
        tidy(d.registry),
        d.conns.contains_key(from),
        list.no_duplicates(),
        forall|k: int| 0 <= k < list.len() ==> owed(d.conns, #[trigger] list[k]),
        kept_by(d.conns, x),
        marked(d, x),
    ensures
        counts(
            d,
            given_each(d, list, msg, from),
            x,
            list.contains(x) && !deaf(d.conns, x.cid, from),
        ),
    decreases list.len(),
{
    if list.len() > 0 {
        let less = list.drop_last();
        let last = list.last();
        assert(list =~= less.push(last));
        push_contains(less, last, x);
        assert forall|k: int| 0 <= k < less.len() implies owed(d.conns, #[trigger] less[k]) by {
            assert(less[k] == list[k]);
        }
        assert(owed(d.conns, list[list.len() - 1]));
        assert(!less.contains(last)) by {
            if less.contains(last) {
                let k = less.index_of(last);
                assert(list[k] == list[list.len() - 1]);
            }
        }
        giving_each_is_counted(d, less, msg, from, x);
        giving_each_leaves_owed(d, less, msg, from, last);
        let before = given_each(d, less, msg, from);
        assert(before.conns.dom().contains(x.cid));
        if eligible(before.conns, last, from) {
            giving_is_counted(before, last, msg, x);
        } else if last == x {
            assert(before.conns.dom().contains(last.cid));
        }
    }
}

/// Whoever is picked is in a group that was asked, and is registered for the message.
proof fn a_pick_is_in_a_group(
    d: Delivery,
    reach: Seq<InterestView>,
    names: Seq<Seq<u8>>,
    msg: MsgView,
    from: u64,
    start: usize,
    x: InterestView,
)
    requires
        picks(d, reach, names, msg, from, start).contains(x),
    ensures
        reach.contains(x),
        x.queue matches Some(name) && names.contains(name),
    decreases names.len(),
{
    if names.len() > 0 {
        let less = names.drop_last();
        let before = given_groups(d, reach, less, msg, from, start);
        let earlier = picks(d, reach, less, msg, from, start);
        pick_is_a_member(before.conns, reach, names.last(), start, from);
        assert(names[names.len() - 1] == names.last());
        if let Some(m) = picked(before.conns, reach.filter(grouped(names.last())), start, from) {
            push_contains(earlier, m, x);
        }
        if earlier.contains(x) {
            a_pick_is_in_a_group(d, reach, less, msg, from, start, x);
            let name = x.queue->Some_0;
            assert(names[less.index_of(name)] == name);
        }
    }
}

proof fn giving_groups_is_counted(
    d: Delivery,
    reach: Seq<InterestView>,
    names: Seq<Seq<u8>>,
    msg: MsgView,
    from: u64,
    start: usize,
    x: InterestView,
)
    requires
        sound_conns(d.conns),
        tidy(d.registry),
        d.conns.contains_key(from),
        names.no_duplicates(),
        forall|i: InterestView| #[trigger]
            reach.contains(i) && i.queue is Some ==> owed(d.conns, i),
        kept_by(d.conns, x),
        marked(d, x),
    ensures
        counts(
            d,
            given_groups(d, reach, names, msg, from, start),
            x,
            picks(d, reach, names, msg, from, start).contains(x),
        ),
    decreases names.len(),
{
    if names.len() > 0 {
        let less = names.drop_last();
        names_shrink(names);
        giving_groups_is_counted(d, reach, less, msg, from, start, x);
        let before = given_groups(d, reach, less, msg, from, start);
        let earlier = picks(d, reach, less, msg, from, start);
        assert(before.conns.dom().contains(x.cid));
        pick_is_a_member(before.conns, reach, names.last(), start, from);
        if let Some(m) = picked(before.conns, reach.filter(grouped(names.last())), start, from) {
            giving_groups_leaves_owed(d, reach, less, msg, from, start, m);
            giving_is_counted(before, m, msg, x);
            push_contains(earlier, m, x);
            if earlier.contains(x) {
                a_pick_is_in_a_group(d, reach, less, msg, from, start, x);
            }
        }
    }
}

/// Does a message come to the subscription? To one in no queue group, if it is registered for
/// it and the echo is not in the way; to a member of a group, if it is picked.
pub open spec fn hears(hub: Hub, x: InterestView, msg: MsgView, from: u64) -> bool {
    let reach = hub.registry.reach(msg.subject);
    let names = group_names(reach);
    if x.queue is None {
        reach.contains(x) && !deaf(hub.conns, x.cid, from)
    } else {
        let d = given_each(
            undelivered(hub.conns, hub.registry),
            reach.filter(ungrouped()),
            msg,
            from,
        );
        picks(d, reach, names, msg, from, start_of(names, hub.rng)).contains(x)
    }
}

/// The hub after a message was routed.
pub open spec fn routed_hub(hub: Hub, msg: MsgView, from: u64) -> Hub {
    let d = routed(hub.conns, hub.registry, hub.rng, msg, from);
    Hub {
        conns: d.conns,
        registry: d.registry,
        rng: rng_after(group_names(hub.registry.reach(msg.subject)), hub.rng),
    }
}

/// Routing a message counts it for the subscriptions that it comes to, and for no others; it
/// ends those that have then had all that they asked for, and no others; and it closes no
/// connection but one that is too slow.
pub proof fn a_route_counts_what_it_gives(hub: Hub, msg: MsgView, from: u64, x: InterestView)
    requires
        sound(hub),
        hub.conns.contains_key(from),
        kept_by(hub.conns, x),
    ensures
        ({
            let after = routed_hub(hub, msg, from);
            let (was, now) = (hub.conns[x.cid], after.conns[x.cid]);
            &&& sound(after)
            &&& after.conns.dom() == hub.conns.dom()
            &&& kept_by(after.conns, x)
            &&& now.opts == was.opts
            &&& was.closed ==> now.closed
            &&& now.closed && !was.closed ==> now.reason == Some(SLOW_CONSUMER_REASON@)
            &&& !now.closed ==> {
                &&& now.subs[x.sid] == if hears(hub, x, msg, from) {
                    was.subs[x.sid].counted()
                } else {
                    was.subs[x.sid]
                }
                &&& registered(after.registry, x) == (registered(hub.registry, x)
                    && !now.subs[x.sid].spent())
            }
            &&& hears(hub, x, msg, from) ==> registered(hub.registry, x)
        }),
{
    let reach = hub.registry.reach(msg.subject);
    let names = group_names(reach);
    let plain = reach.filter(ungrouped());
    let start = start_of(names, hub.rng);
    let d0 = undelivered(hub.conns, hub.registry);
    routing_is_sound(hub, msg, from);
    reach_is_tidy(hub.registry, msg.subject);
    filter_is_tidy(reach, ungrouped());
    names_differ(reach);
    assert(!struck(d0.spent, x));
    assert forall|k: int| 0 <= k < plain.len() implies owed(d0.conns, #[trigger] plain[k]) by {
        assert(plain.contains(plain[k]));
        assert(reach.contains(plain[k]));
        assert(registered(hub.registry, plain[k]));
    }
    giving_each_is_counted(d0, plain, msg, from, x);
    let d1 = given_each(d0, plain, msg, from);
    assert forall|i: InterestView| #[trigger] reach.contains(i) && i.queue is Some implies owed(
        d1.conns,
        i,
    ) by {
        assert(registered(hub.registry, i));
        assert(!plain.contains(i)) by {
            assert(!ungrouped()(i));
        }
        giving_each_leaves_owed(d0, plain, msg, from, i);
    }
    assert(d1.conns.dom().contains(from) && d1.conns.dom().contains(x.cid));
    giving_groups_is_counted(d1, reach, names, msg, from, start, x);
    let d2 = given_groups(d1, reach, names, msg, from, start);
    assert(d2.conns.dom().contains(x.cid));
    if picks(d1, reach, names, msg, from, start).contains(x) {
        a_pick_is_in_a_group(d1, reach, names, msg, from, start, x);
        assert(!plain.contains(x)) by {
            assert(!ungrouped()(x));
        }
    }
    assert(plain.contains(x) == (reach.contains(x) && ungrouped()(x)));
    let after = routed_hub(hub, msg, from);
    without_all_is_tidy(d2.registry, d2.spent);
    if !after.conns[x.cid].closed {
        if after.conns[x.cid].subs[x.sid].spent() {
            if registered(after.registry, x) {
                assert(backed(after.conns, x));
            }
        } else {
            without_all_keeps(d2.registry, d2.spent, x);
        }
    }
}

/// A message, and who published it.
pub struct Route {
    pub msg: MsgView,
    pub from: u64,
}

/// The hub after some messages were routed, one after the other.
pub open spec fn routed_all(hub: Hub, routes: Seq<Route>) -> Hub
    decreases routes.len(),
{
    if routes.len() == 0 {
        hub
    } else {
        routed_hub(routed_all(hub, routes.drop_last()), routes.last().msg, routes.last().from)
    }
}

/// The messages among them that came to the subscription, in order.
pub open spec fn heard_by(hub: Hub, routes: Seq<Route>, x: InterestView) -> Seq<MsgView>
    decreases routes.len(),
{
    if routes.len() == 0 {
        Seq::empty()
    } else {
        let earlier = heard_by(hub, routes.drop_last(), x);
        let last = routes.last();
        if hears(routed_all(hub, routes.drop_last()), x, last.msg, last.from) {
            earlier.push(last.msg)
        } else {
            earlier
        }
    }
}

/// Is that the filter for a message on that subject?
pub open spec fn wants(x: InterestView, subject: Seq<u8>) -> bool {
    if subjects::wild(x.subject) {
        subjects::subject_matches(x.subject, subject)
    } else {
        x.subject == subject
    }
}

/// The messages among them that the subscription asks for, in order.
pub open spec fn meant_for(hub: Hub, routes: Seq<Route>, x: InterestView) -> Seq<MsgView>
    decreases routes.len(),
{
    if routes.len() == 0 {
        Seq::empty()
    } else {
        let earlier = meant_for(hub, routes.drop_last(), x);
        let last = routes.last();
        if wants(x, last.msg.subject) && !deaf(hub.conns, x.cid, last.from) {
            earlier.push(last.msg)
        } else {
            earlier
        }
    }
}

/// A subscription with a limit that it has not reached gets no message more than that limit,
/// over any sequence of messages: it stays registered until it has had so many, and not
/// longer; and each of them counts. Its connection stays open, or is closed as too slow, and
/// then the subscription is registered no more either.
pub proof fn a_limit_is_never_passed(hub: Hub, routes: Seq<Route>, x: InterestView)
    requires
        sound(hub),
        registered(hub.registry, x),
        hub.conns[x.cid].subs[x.sid].limit != 0,
        forall|k: int| 0 <= k < routes.len() ==> hub.conns.contains_key((#[trigger] routes[k]).from),
    ensures
        ({
            let end = routed_all(hub, routes);
            let heard = heard_by(hub, routes, x);
            let (sub, now) = (hub.conns[x.cid].subs[x.sid], end.conns[x.cid]);
            &&& sound(end)
            &&& end.conns.dom() == hub.conns.dom()
            &&& kept_by(end.conns, x)
            &&& now.opts == hub.conns[x.cid].opts
            &&& sub.delivered + heard.len() <= sub.limit
            &&& registered(end.registry, x) == (!now.closed && sub.delivered + heard.len()
                < sub.limit)
            &&& now.closed ==> now.reason == Some(SLOW_CONSUMER_REASON@)
            &&& !now.closed ==> now.subs[x.sid] == (SubView {
                delivered: (sub.delivered + heard.len()) as u64,
                ..sub
            })
        }),
    decreases routes.len(),
{
    assert(backed(hub.conns, x));
    if routes.len() > 0 {
        let less = routes.drop_last();
        let last = routes.last();
        assert forall|k: int| 0 <= k < less.len() implies hub.conns.contains_key(
            (#[trigger] less[k]).from,
        ) by {
            assert(less[k] == routes[k]);
        }
        assert(routes[routes.len() - 1] == last);
        a_limit_is_never_passed(hub, less, x);
        let before = routed_all(hub, less);
        assert(before.conns.dom().contains(last.from));
        a_route_counts_what_it_gives(before, last.msg, last.from, x);
        if before.conns[x.cid].closed {
            closing_stays_closed(before, last.msg, last.from, x.cid);
        }
        let end = routed_all(hub, routes);
        if registered(end.registry, x) {
            assert(backed(end.conns, x));
        }
    }
}

/// Routing leaves a closed connection as it is.
proof fn closing_stays_closed(hub: Hub, msg: MsgView, from: u64, cid: u64)
    requires
        sound(hub),
        hub.conns.contains_key(from),
        hub.conns.contains_key(cid),
        hub.conns[cid].closed,
    ensures
        routed_hub(hub, msg, from).conns[cid] == hub.conns[cid],
{
    let x = InterestView { subject: Seq::empty(), queue: None, cid, sid: Seq::empty() };
    let reach = hub.registry.reach(msg.subject);
    let names = group_names(reach);
    let plain = reach.filter(ungrouped());
    let d0 = undelivered(hub.conns, hub.registry);
    reach_is_tidy(hub.registry, msg.subject);
    filter_is_tidy(reach, ungrouped());
    names_differ(reach);
    assert forall|k: int| 0 <= k < plain.len() implies owed(d0.conns, #[trigger] plain[k]) by {
        assert(plain.contains(plain[k]));
        assert(reach.contains(plain[k]));
        assert(registered(hub.registry, plain[k]));
    }
    giving_each_is_counted(d0, plain, msg, from, x);
    let d1 = given_each(d0, plain, msg, from);
    assert forall|i: InterestView| #[trigger] reach.contains(i) && i.queue is Some implies owed(
        d1.conns,
        i,
    ) by {
        assert(registered(hub.registry, i));
        assert(!plain.contains(i)) by {
            assert(!ungrouped()(i));
        }
        giving_each_leaves_owed(d0, plain, msg, from, i);
    }
    assert(d1.conns.dom().contains(from) && d1.conns.dom().contains(cid));
    giving_groups_is_counted(d1, reach, names, msg, from, start_of(names, hub.rng), x);
}

/// A subscription with a limit that it has not reached, and in no queue group, gets the first of
/// the messages that it asks for, in the order in which they are routed, and skips none. While
/// its connection is open, it gets exactly as many as are left to the limit, or all where there
/// are fewer; with the last of them it is registered no more.
pub proof fn a_limit_is_kept_to_the_message(hub: Hub, routes: Seq<Route>, x: InterestView)
    requires
        sound(hub),
        registered(hub.registry, x),
        x.queue is None,
        hub.conns[x.cid].subs[x.sid].limit != 0,
        forall|k: int| 0 <= k < routes.len() ==> hub.conns.contains_key((#[trigger] routes[k]).from),
    ensures
        ({
            let sub = hub.conns[x.cid].subs[x.sid];
            let due = sub.limit - sub.delivered;
            let meant = meant_for(hub, routes, x);
            let heard = heard_by(hub, routes, x);
            let end = routed_all(hub, routes);
            &&& due > 0
            &&& heard.len() <= due
            &&& heard.is_prefix_of(meant)
            &&& !end.conns[x.cid].closed ==> {
                &&& heard == meant.take(
                    if due < meant.len() {
                        due
                    } else {
                        meant.len() as int
                    },
                )
                &&& registered(end.registry, x) == (meant.len() < due)
            }
        }),
    decreases routes.len(),
{
    assert(backed(hub.conns, x));
    a_limit_is_never_passed(hub, routes, x);
    let sub = hub.conns[x.cid].subs[x.sid];
    let due = sub.limit - sub.delivered;
    let meant = meant_for(hub, routes, x);
    if routes.len() == 0 {
        assert(meant.take(0) =~= Seq::empty());
    } else {
        let less = routes.drop_last();
        let last = routes.last();
        assert forall|k: int| 0 <= k < less.len() implies hub.conns.contains_key(
            (#[trigger] less[k]).from,
        ) by {
            assert(less[k] == routes[k]);
        }
        assert(routes[routes.len() - 1] == last);
        a_limit_is_never_passed(hub, less, x);
        let before = routed_all(hub, less);
        assert(before.conns.dom().contains(last.from) && before.conns.dom().contains(x.cid));
        if before.conns[x.cid].closed {
            closing_stays_closed(before, last.msg, last.from, x.cid);
        }
        a_limit_is_kept_to_the_message(hub, less, x);
        let earlier = meant_for(hub, less, x);
        let heard = heard_by(hub, less, x);
        reach_is_what_is_wanted(before.registry, x, last.msg.subject);
        assert(earlier.take(earlier.len() as int) =~= earlier);
        assert(meant.take(meant.len() as int) =~= meant);
        if due <= earlier.len() {
            assert(meant.take(due) =~= earlier.take(due));
        }
        let now = heard_by(hub, routes, x);
        if hears(before, x, last.msg, last.from) {
            assert(registered(before.registry, x));
            assert(heard == earlier);
            assert(now == meant);
            assert(meant =~= meant.subrange(0, meant.len() as int));
        } else {
            assert(heard =~= earlier.subrange(0, heard.len() as int));
            assert(now =~= meant.subrange(0, now.len() as int));
        }
    }
}

/// A message reaches those that are registered and ask for it.
pub(crate) proof fn reach_is_what_is_wanted(r: RegistryView, x: InterestView, subject: Seq<u8>)
    requires
        tidy(r),
    ensures
        r.reach(subject).contains(x) == (registered(r, x) && wants(x, subject)),
{
    let a = r.literal.filter(about(subject));
    let b = r.wildcard.filter(matching(subject));
    filter_is_tidy(r.literal, about(subject));
    filter_is_tidy(r.wildcard, matching(subject));
    if r.literal.contains(x) {
        assert(!subjects::wild(r.literal[r.literal.index_of(x)].subject));
    }
    if r.wildcard.contains(x) {
        assert(subjects::wild(r.wildcard[r.wildcard.index_of(x)].subject));
    }
    let all = a + b;
    if a.contains(x) {
        assert(all[a.index_of(x)] == x);
    }
    if b.contains(x) {
        assert(all[a.len() + b.index_of(x)] == x);
    }
    if all.contains(x) {
        let k = all.index_of(x);
        if k < a.len() {
            assert(a[k] == x);
        } else {
            assert(b[k - a.len()] == x);
        }
    }
    assert(about(subject)(x) == (x.subject == subject));
    assert(matching(subject)(x) == subjects::subject_matches(x.subject, subject));
}

// -------------------------------------------------------------------------- writing --

/// What happens between a connection's queue and its socket.
pub enum Traffic {
    /// Something is queued for it.
    Frame(Seq<u8>),
    /// It is closed, and what is queued is to go out.
    Close(Seq<char>),
    /// Its writer is ready.
    Ready,
    /// The socket took so many bytes of what it was offered.
    Wrote(usize),
}

/// The hub after that.
pub open spec fn trafficked(hub: Hub, cid: u64, t: Traffic) -> Hub {
    match t {
        Traffic::Frame(frame) => hub.pushed(cid, frame),
        Traffic::Close(reason) => hub.closed(cid, reason, false),
        Traffic::Ready => write_continued(write_noted(hub, cid, WriteEvent::Ready), cid),
        Traffic::Wrote(n) => write_continued(write_noted(hub, cid, WriteEvent::Wrote(n)), cid),
    }
}

/// The hub after all of that.
pub open spec fn trafficked_all(hub: Hub, cid: u64, traffic: Seq<Traffic>) -> Hub
    decreases traffic.len(),
{
    if traffic.len() == 0 {
        hub
    } else {
        trafficked(trafficked_all(hub, cid, traffic.drop_last()), cid, traffic.last())
    }
}

/// The bytes that went to the socket: the front of what it was offered.
pub open spec fn put_out(hub: Hub, cid: u64, traffic: Seq<Traffic>) -> Seq<u8>
    decreases traffic.len(),
{
    if traffic.len() == 0 {
        Seq::empty()
    } else {
        let out = trafficked_all(hub, cid, traffic.drop_last()).conns[cid].out;
        put_out(hub, cid, traffic.drop_last()) + match traffic.last() {
            Traffic::Wrote(n) => flat(out.batch).take(out.taken(n as nat) as int),
            _ => Seq::empty(),
        }
    }
}

/// The bytes of the frames that were queued, each of them whole.
pub open spec fn put_in(hub: Hub, cid: u64, traffic: Seq<Traffic>) -> Seq<u8>
    decreases traffic.len(),
{
    if traffic.len() == 0 {
        Seq::empty()
    } else {
        let out = trafficked_all(hub, cid, traffic.drop_last()).conns[cid].out;
        put_in(hub, cid, traffic.drop_last()) + match traffic.last() {
            Traffic::Frame(frame) => match out.outcome(frame.len()) {
                Enqueue::Queued | Enqueue::SoftLimit => frame,
                _ => Seq::empty(),
            },
            _ => Seq::empty(),
        }
    }
}

/// Taking a batch changes nothing but the batch.
proof fn a_turn_keeps_the_bytes(hub: Hub, cid: u64)
    requires
        hub.conns[cid].cid == cid,
        !hub.conns[cid].hard,
    ensures
        write_continued(hub, cid).conns[cid].cid == cid,
        !write_continued(hub, cid).conns[cid].hard,
        stream(write_continued(hub, cid).conns, cid) == stream(hub.conns, cid),
{
    let conn = hub.conns[cid];
    a_batch_keeps_the_order(conn.out);
    a_closed_outbox_has_room(with_batch(conn).out, false);
}

proof fn traffic_keeps_the_bytes(hub: Hub, cid: u64, t: Traffic)
    requires
        hub.conns[cid].cid == cid,
        !hub.conns[cid].hard,
        t matches Traffic::Wrote(n) ==> n > 0,
    ensures
        ({
            let after = trafficked(hub, cid, t);
            let out = hub.conns[cid].out;
            &&& after.conns[cid].cid == cid
            &&& !after.conns[cid].hard
            &&& match t {
                Traffic::Frame(frame) => stream(after.conns, cid) == stream(hub.conns, cid)
                    + match out.outcome(frame.len()) {
                    Enqueue::Queued | Enqueue::SoftLimit => frame,
                    _ => Seq::empty(),
                },
                Traffic::Wrote(n) => flat(out.batch).take(out.taken(n as nat) as int) + stream(
                    after.conns,
                    cid,
                ) == stream(hub.conns, cid),
                _ => stream(after.conns, cid) == stream(hub.conns, cid),
            }
        }),
{
    let conn = hub.conns[cid];
    match t {
        Traffic::Frame(frame) => {
            a_frame_goes_out_last(conn.out, frame);
            assert(stream(hub.conns, cid) + Seq::<u8>::empty() =~= stream(hub.conns, cid));
        },
        Traffic::Close(reason) => {
            a_closed_outbox_has_room(conn.out, false);
        },
        Traffic::Ready => {
            a_turn_keeps_the_bytes(hub, cid);
        },
        Traffic::Wrote(n) => {
            a_write_sends_the_front(conn.out, n as nat);
            let noted = write_noted(hub, cid, WriteEvent::Wrote(n));
            a_turn_keeps_the_bytes(noted, cid);
            let k = conn.out.taken(n as nat) as int;
            assert(flat(conn.out.batch).take(k) + conn.out.unsent().skip(k) =~= conn.out.unsent());
        },
    }
}

/// However a socket takes what it is offered, what went to it, and what is still to go, is
/// what was waiting and then what was queued, in order: nothing is lost, repeated or
/// overtaken, wherever a write ends. So when the writer is done, every byte has gone.
pub proof fn what_is_queued_is_what_is_sent(hub: Hub, cid: u64, traffic: Seq<Traffic>)
    requires
        sound_conns(hub.conns),
        hub.conns.contains_key(cid),
        !hub.conns[cid].hard,
        forall|k: int| 0 <= k < traffic.len() ==> (#[trigger] traffic[k] matches Traffic::Wrote(n)
            ==> n > 0),
    ensures
        ({
            let end = trafficked_all(hub, cid, traffic);
            let all = stream(hub.conns, cid) + put_in(hub, cid, traffic);
            &&& !end.conns[cid].hard
            &&& put_out(hub, cid, traffic) + stream(end.conns, cid) == all
            &&& write_finished(end.conns[cid]) ==> put_out(hub, cid, traffic) == all
        }),
{
    assert(hub.conns[cid].cid == cid);
    traffic_adds_up(hub, cid, traffic);
    let end = trafficked_all(hub, cid, traffic);
    if write_finished(end.conns[cid]) {
        let conn = end.conns[cid];
        a_batch_keeps_the_order(conn.out);
        assert(with_batch(conn).out.unsent() =~= Seq::<u8>::empty());
        let sent = put_out(hub, cid, traffic);
        assert(sent + Seq::<u8>::empty() =~= sent);
    }
}

proof fn traffic_adds_up(hub: Hub, cid: u64, traffic: Seq<Traffic>)
    requires
        hub.conns[cid].cid == cid,
        !hub.conns[cid].hard,
        forall|k: int| 0 <= k < traffic.len() ==> (#[trigger] traffic[k] matches Traffic::Wrote(n)
            ==> n > 0),
    ensures
        ({
            let end = trafficked_all(hub, cid, traffic);
            &&& end.conns[cid].cid == cid
            &&& !end.conns[cid].hard
            &&& put_out(hub, cid, traffic) + stream(end.conns, cid) == stream(hub.conns, cid)
                + put_in(hub, cid, traffic)
        }),
    decreases traffic.len(),
{
    let start = stream(hub.conns, cid);
    if traffic.len() == 0 {
        assert(Seq::<u8>::empty() + start =~= start + Seq::<u8>::empty());
    } else {
        let less = traffic.drop_last();
        let last = traffic.last();
        assert forall|k: int| 0 <= k < less.len() implies (#[trigger] less[k]
            matches Traffic::Wrote(n) ==> n > 0) by {
            assert(less[k] == traffic[k]);
        }
        assert(traffic[traffic.len() - 1] == last);
        traffic_adds_up(hub, cid, less);
        let before = trafficked_all(hub, cid, less);
        traffic_keeps_the_bytes(before, cid, last);
        let after = trafficked(before, cid, last);
        let (a, b) = (put_out(hub, cid, less), put_in(hub, cid, less));
        let none = Seq::<u8>::empty();
        match last {
            Traffic::Frame(frame) => {
                let more = match before.conns[cid].out.outcome(frame.len()) {
                    Enqueue::Queued | Enqueue::SoftLimit => frame,
                    _ => Seq::empty(),
                };
                assert((a + none) + stream(after.conns, cid) =~= (a + stream(before.conns, cid))
                    + more);
                assert(start + b + more =~= start + (b + more));
            },
            Traffic::Wrote(n) => {
                let out = before.conns[cid].out;
                let gone = flat(out.batch).take(out.taken(n as nat) as int);
                assert((a + gone) + stream(after.conns, cid) =~= a + (gone + stream(
                    after.conns,
                    cid,
                )));
                assert(start + (b + none) =~= start + b);
            },
            _ => {
                assert((a + none) + stream(after.conns, cid) =~= a + stream(before.conns, cid));
                assert(start + (b + none) =~= start + b);
            },
        }
    }
}

/// The writer of a closed connection never waits for more: it has something to offer, or it
/// is done.
pub proof fn a_closing_writer_never_waits(conn: ConnView)
    requires
        conn.out.gone,
    ensures
        with_batch(conn).out.batch.len() > 0 || write_finished(conn),
{
    let (q, b) = moved_one(conn.out.queue, conn.out.batch);
    an_empty_batch_has_taken_all(q, b);
}

proof fn an_empty_batch_has_taken_all(queue: Seq<Seq<u8>>, batch: Seq<Seq<u8>>)
    ensures
        moved_more(queue, batch).1.len() == 0 ==> moved_more(queue, batch).0.len() == 0,
    decreases queue.len(),
{
    if queue.len() > 0 {
        let (q, b) = moved_one(queue, batch);
        an_empty_batch_has_taken_all(q, b);
        more_is_no_less(q, b);
        if b.len() == 0 {
            assert(flat(b).len() == 0);
        }
    }
}

proof fn more_is_no_less(queue: Seq<Seq<u8>>, batch: Seq<Seq<u8>>)
    ensures
        moved_more(queue, batch).1.len() >= batch.len(),
    decreases queue.len(),
{
    if queue.len() > 0 {
        let (q, b) = moved_one(queue, batch);
        more_is_no_less(q, b);
    }
}

} // verus!
