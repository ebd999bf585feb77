//! What becomes of one message: who gets it, and what that does to them.
//!
//! A subscription without a queue group gets a copy of every message that its filter
//! matches. A queue group gets one copy between its members: the search starts at a
//! random member and takes the first that has room, so that the group stays even
//! without a shared counter. A subscriber whose buffer is full is dropped, and the
//! publisher is never punished for it.
use bytes::Bytes;
use vstd::prelude::*;

use crate::buf::bytes_of;
use crate::client::{counted_at, Conns, ConnView, Enqueue, SLOW_CONSUMER_REASON};
use crate::nuid::{advanced, drawn};
use crate::proto::field_limit;
use crate::routing::{
    delivery, interest_views, Interest, InterestView, Msg, MsgView, Registry, RegistryView,
};
use crate::server::numbered;
use crate::text::same_bytes;

verus! {

/// What one route call produced.
pub struct Delivered {
    /// How many subscriptions the message reached. Queue groups count once.
    pub count: usize,
    /// Connections that the publisher should wait for before its next message: they
    /// crossed the stall threshold while this one was being queued.
    pub stall: Vec<u64>,
}

/// The state of a delivery under way.
#[verifier::ext_equal]
pub struct Delivery {
    pub conns: Map<u64, ConnView>,
    pub registry: RegistryView,
    /// How many subscriptions the message has reached.
    pub count: nat,
    /// Which connections the publisher should wait for.
    pub stall: Seq<u64>,
    /// Which subscriptions have come to their end.
    pub spent: Seq<InterestView>,
}

/// May this subscription get the message? Not on a closed connection, and not on the
/// publisher's own where it has turned the echo off.
pub open spec fn eligible(conns: Map<u64, ConnView>, i: InterestView, from: u64) -> bool {
    &&& conns.contains_key(i.cid)
    &&& !conns[i.cid].closed
    &&& !(i.cid == from && !conns[from].opts.echo)
}

/// A delivery after the message was given to one subscription. A connection that has no
/// room for it is closed with nothing said, and the message does not count as delivered.
pub open spec fn given(d: Delivery, i: InterestView, msg: MsgView) -> Delivery {
    let conn = d.conns[i.cid];
    let frame = delivery(i.sid, conn.opts.headers, msg);
    let taken = Delivery {
        conns: d.conns.insert(
            i.cid,
            ConnView { subs: counted_at(conn.subs, i.sid), ..conn.pushed(frame) },
        ),
        count: d.count + 1,
        spent: if conn.subs.contains_key(i.sid) && conn.subs[i.sid].counted().spent() {
            d.spent.push(i)
        } else {
            d.spent
        },
        ..d
    };
    match conn.out.outcome(frame.len()) {
        Enqueue::Queued => taken,
        Enqueue::SoftLimit => Delivery { stall: d.stall.push(i.cid), ..taken },
        Enqueue::SlowConsumer => Delivery {
            conns: d.conns.insert(i.cid, conn.finished(SLOW_CONSUMER_REASON@, true)),
            registry: d.registry.without_conn(i.cid),
            spent: d.spent.push(i),
            ..d
        },
        Enqueue::Dropped => d,
    }
}

/// A delivery after the message was given to every eligible subscription of a list, one
/// after the other.
pub open spec fn given_each(d: Delivery, list: Seq<InterestView>, msg: MsgView, from: u64) -> Delivery
    decreases list.len(),
{
    if list.len() == 0 {
        d
    } else {
        let before = given_each(d, list.drop_last(), msg, from);
        if eligible(before.conns, list.last(), from) {
            given(before, list.last(), msg)
        } else {
            before
        }
    }
}

/// The subscriptions that are in no queue group.
pub open spec fn ungrouped() -> spec_fn(InterestView) -> bool {
    |i: InterestView| i.queue is None
}

/// The subscriptions of one queue group.
pub open spec fn grouped(name: Seq<u8>) -> spec_fn(InterestView) -> bool {
    |i: InterestView| i.queue == Some(name)
}

/// The queue groups among some subscriptions, in the order in which they first appear.
pub open spec fn group_names(list: Seq<InterestView>) -> Seq<Seq<u8>>
    decreases list.len(),
{
    if list.len() == 0 {
        Seq::empty()
    } else {
        let before = group_names(list.drop_last());
        match list.last().queue {
            Some(name) => if before.contains(name) {
                before
            } else {
                before.push(name)
            },
            None => before,
        }
    }
}

/// The member that the search looks at in its `k`th turn.
pub open spec fn probed(members: Seq<InterestView>, start: usize, k: int) -> InterestView {
    members[(start + k) % (members.len() as int)]
}

/// The first eligible member from the `k`th turn on; with `room`, the first that has room.
pub open spec fn first_probe(
    conns: Map<u64, ConnView>,
    members: Seq<InterestView>,
    start: usize,
    from: u64,
    room: bool,
    k: int,
) -> Option<InterestView>
    decreases members.len() - k,
{
    if k >= members.len() {
        None
    } else {
        let m = probed(members, start, k);
        if eligible(conns, m, from) && (!room || conns[m.cid].out.room()) {
            Some(m)
        } else {
            first_probe(conns, members, start, from, room, k + 1)
        }
    }
}

/// The member of a queue group that gets the message: the first with room; where every
/// eligible member is over its stall threshold, the first eligible one all the same.
/// Dropping the message instead would make a busy group look unanswered.
pub open spec fn picked(
    conns: Map<u64, ConnView>,
    members: Seq<InterestView>,
    start: usize,
    from: u64,
) -> Option<InterestView> {
    match first_probe(conns, members, start, from, true, 0) {
        Some(m) => Some(m),
        None => first_probe(conns, members, start, from, false, 0),
    }
}

/// A delivery after one member of each queue group was given the message.
pub open spec fn given_groups(
    d: Delivery,
    reach: Seq<InterestView>,
    names: Seq<Seq<u8>>,
    msg: MsgView,
    from: u64,
    start: usize,
) -> Delivery
    decreases names.len(),
{
    if names.len() == 0 {
        d
    } else {
        let before = given_groups(d, reach, names.drop_last(), msg, from, start);
        match picked(before.conns, reach.filter(grouped(names.last())), start, from) {
            Some(m) => given(before, m, msg),
            None => before,
        }
    }
}

/// Where the search in the queue groups of a message starts. With no queue group there is
/// nothing to be even about, and nothing is drawn.
pub open spec fn start_of(names: Seq<Seq<u8>>, rng: u64) -> usize {
    if names.len() == 0 {
        0
    } else {
        drawn(rng) as usize
    }
}

/// The generator after a message.
pub open spec fn rng_after(names: Seq<Seq<u8>>, rng: u64) -> u64 {
    if names.len() == 0 {
        rng
    } else {
        advanced(rng)
    }
}

/// What becomes of a message: first every subscription without a queue group, then one
/// member of each group, and at last the registry forgets what came to its end.
pub open spec fn routed(
    conns: Map<u64, ConnView>,
    registry: RegistryView,
    rng: u64,
    msg: MsgView,
    from: u64,
) -> Delivery {
    let reach = registry.reach(msg.subject);
    let names = group_names(reach);
    let d0 = Delivery { conns, registry, count: 0, stall: Seq::empty(), spent: Seq::empty() };
    let d1 = given_each(d0, reach.filter(ungrouped()), msg, from);
    let d2 = given_groups(d1, reach, names, msg, from, start_of(names, rng));
    Delivery { registry: d2.registry.without_all(d2.spent), ..d2 }
}

// ----------------------------------------------------------------------- the work --

/// A queue group that a message can reach.
struct Group {
    name: Bytes,
    members: Vec<Interest>,
}

spec fn names_of(groups: Seq<Group>) -> Seq<Seq<u8>> {
    Seq::new(groups.len(), |j: int| bytes_of(groups[j].name))
}

/// Every group holds its members among `list`, in order.
spec fn sorted_out(groups: Seq<Group>, list: Seq<InterestView>) -> bool {
    &&& names_of(groups) == group_names(list)
    &&& forall|j: int| #![trigger groups[j]]
        0 <= j < groups.len() ==> interest_views(groups[j].members@) == list.filter(
            grouped(bytes_of(groups[j].name)),
        )
}

proof fn group_names_differ(list: Seq<InterestView>)
    ensures
        forall|i: int, j: int|
            0 <= i < j < group_names(list).len() ==> #[trigger] group_names(list)[i]
                != #[trigger] group_names(list)[j],
        group_names(list).len() + list.filter(ungrouped()).len() <= list.len(),
    decreases list.len(),
{
    reveal(Seq::filter);
    if list.len() > 0 {
        group_names_differ(list.drop_last());
        let before = group_names(list.drop_last());
        if let Some(name) = list.last().queue {
            if !before.contains(name) {
                assert forall|i: int, j: int|
                    0 <= i < j < before.push(name).len() implies #[trigger] before.push(name)[i]
                    != #[trigger] before.push(name)[j] by {
                    if j == before.len() {
                        assert(before.contains(before[i]));
                    } else {
                        assert(before[i] != before[j]);
                    }
                }
            }
        }
    }
}

/// A group that is not listed has no members.
proof fn unlisted_is_empty(list: Seq<InterestView>, name: Seq<u8>)
    requires
        !group_names(list).contains(name),
    ensures
        list.filter(grouped(name)) == Seq::<InterestView>::empty(),
    decreases list.len(),
{
    reveal(Seq::filter);
    if list.len() > 0 {
        let before = group_names(list.drop_last());
        match list.last().queue {
            Some(last) => {
                if !before.contains(last) {
                    assert(before.push(last)[before.len() as int] == last);
                    if before.contains(name) {
                        let j = before.index_of(name);
                        assert(before.push(last)[j] == name);
                    }
                }
                assert(last != name);
            },
            None => {},
        }
        unlisted_is_empty(list.drop_last(), name);
    } else {
        assert(list.filter(grouped(name)) =~= Seq::empty());
    }
}

fn find_group(groups: &Vec<Group>, name: &[u8]) -> (r: Option<usize>)
    ensures
        match r {
            Some(j) => j < groups@.len() && bytes_of(groups@[j as int].name) == name@,
            None => !names_of(groups@).contains(name@),
        },
{
    let mut j: usize = 0;
    while j < groups.len()
        invariant
            j <= groups@.len(),
            forall|i: int| 0 <= i < j ==> bytes_of((#[trigger] groups@[i]).name) != name@,
        decreases groups@.len() - j,
    {
        if same_bytes(&groups[j].name, name) {
            return Some(j);
        }
        j += 1;
    }
    assert forall|i: int| 0 <= i < names_of(groups@).len() implies names_of(groups@)[i] != name@ by {
        assert(bytes_of(groups@[i].name) != name@);
    }
    None
}

/// Puts a subscription into its queue group.
fn file(groups: &mut Vec<Group>, name: &Bytes, i: Interest, Ghost(list): Ghost<Seq<InterestView>>)
    requires
        sorted_out(old(groups)@, list),
        i@.queue == Some(bytes_of(*name)),
    ensures
        sorted_out(final(groups)@, list.push(i@)),
{
    let ghost before = groups@;
    let ghost now = list.push(i@);
    proof {
        group_names_differ(list);
        assert(now.drop_last() =~= list);
        assert(now.last() == i@);
    }
    match find_group(groups, name) {
        Some(j) => {
            let ghost members = interest_views(before[j as int].members@);
            assert(names_of(before)[j as int] == bytes_of(*name));
            assert(group_names(list).contains(bytes_of(*name)));
            let g: &mut Group = &mut groups[j];
            g.members.push(i);
            proof {
                assert(groups@[j as int].name == before[j as int].name);
                assert(interest_views(groups@[j as int].members@) =~= members.push(i@));
                assert(names_of(groups@) =~= names_of(before));
                assert forall|k: int| #![trigger groups@[k]]
                    0 <= k < groups@.len() implies interest_views(groups@[k].members@)
                    == now.filter(grouped(bytes_of(groups@[k].name))) by {
                    list.lemma_filter_push(i@, grouped(bytes_of(groups@[k].name)));
                    if k != j {
                        assert(groups@[k] == before[k]);
                        assert(names_of(before)[k] != names_of(before)[j as int]) by {
                            if k < j {
                                assert(group_names(list)[k] != group_names(list)[j as int]);
                            } else {
                                assert(group_names(list)[j as int] != group_names(list)[k]);
                            }
                        }
                    }
                }
            }
        },
        None => {
            let mut members: Vec<Interest> = Vec::new();
            members.push(i);
            groups.push(Group { name: name.clone(), members });
            proof {
                let n = before.len() as int;
                unlisted_is_empty(list, bytes_of(*name));
                assert(names_of(groups@) =~= names_of(before).push(bytes_of(*name)));
                assert forall|k: int| #![trigger groups@[k]]
                    0 <= k < groups@.len() implies interest_views(groups@[k].members@)
                    == now.filter(grouped(bytes_of(groups@[k].name))) by {
                    list.lemma_filter_push(i@, grouped(bytes_of(groups@[k].name)));
                    if k < n {
                        assert(groups@[k] == before[k]);
                        assert(names_of(before)[k] == bytes_of(before[k].name));
                        assert(names_of(before).contains(bytes_of(before[k].name)));
                    } else {
                        assert(interest_views(groups@[k].members@) =~= Seq::empty().push(i@));
                    }
                }
            }
        },
    }
}

/// Sorts what a message can reach into plain subscriptions and queue groups.
fn sort_out(reach: &Vec<Interest>) -> (r: (Vec<Interest>, Vec<Group>))
    ensures
        interest_views(r.0@) == interest_views(reach@).filter(ungrouped()),
        sorted_out(r.1@, interest_views(reach@)),
{
    let ghost all = interest_views(reach@);
    let mut plain: Vec<Interest> = Vec::new();
    let mut groups: Vec<Group> = Vec::new();
    let mut k: usize = 0;
    proof {
        reveal(Seq::filter);
        assert(all.take(0).filter(ungrouped()) =~= Seq::empty());
        assert(interest_views(plain@) =~= Seq::empty());
        assert(names_of(groups@) =~= Seq::empty());
        assert(group_names(all.take(0)) =~= Seq::empty());
    }
    while k < reach.len()
        invariant
            k <= reach@.len(),
            all == interest_views(reach@),
            interest_views(plain@) == all.take(k as int).filter(ungrouped()),
            sorted_out(groups@, all.take(k as int)),
        decreases reach@.len() - k,
    {
        let ghost list = all.take(k as int);
        let ghost was = interest_views(plain@);
        proof {
            list.lemma_filter_push(all[k as int], ungrouped());
            assert(list.push(all[k as int]) =~= all.take(k + 1));
        }
        let i = reach[k].copy();
        match &reach[k].queue {
            None => {
                plain.push(i);
                proof {
                    assert(interest_views(plain@) =~= was.push(all[k as int]));
                    let now = all.take(k + 1);
                    assert(now.drop_last() =~= list);
                    assert forall|j: int| #![trigger groups@[j]]
                        0 <= j < groups@.len() implies interest_views(groups@[j].members@)
                        == now.filter(grouped(bytes_of(groups@[j].name))) by {
                        list.lemma_filter_push(all[k as int], grouped(bytes_of(groups@[j].name)));
                    }
                }
            },
            Some(name) => {
                file(&mut groups, name, i, Ghost(list));
            },
        }
        k += 1;
    }
    assert(all.take(k as int) =~= all);
    (plain, groups)
}

/// Where the search looks in its `k`th turn.
fn turn(start: usize, k: usize, n: usize) -> (r: usize)
    requires
        k < n,
    ensures
        r == (start + k) % (n as int),
        r < n,
{
    let base: usize = start % n;
    proof {
        let (s, k2, n2, b) = (start as int, k as int, n as int, base as int);
        vstd::arithmetic::div_mod::lemma_fundamental_div_mod(s, n2);
        let q = s / n2;
        if b + k2 < n2 {
            assert(s + k2 == q * n2 + (b + k2)) by (nonlinear_arith)
                requires
                    s == n2 * q + b,
            ;
            vstd::arithmetic::div_mod::lemma_fundamental_div_mod_converse(
                s + k2,
                n2,
                q,
                b + k2,
            );
        } else {
            assert(s + k2 == (q + 1) * n2 + (b + k2 - n2)) by (nonlinear_arith)
                requires
                    s == n2 * q + b,
            ;
            vstd::arithmetic::div_mod::lemma_fundamental_div_mod_converse(
                s + k2,
                n2,
                q + 1,
                b + k2 - n2,
            );
        }
    }
    if k < n - base {
        base + k
    } else {
        k - (n - base)
    }
}

fn is_eligible(conns: &Conns, i: &Interest, from: u64) -> (r: bool)
    requires
        conns.wf(),
        conns@.contains_key(from),
    ensures
        r == eligible(conns@, i@, from),
{
    match conns.get(i.cid) {
        Some(conn) => !conn.is_closed() && !(i.cid == from && !conn.echo()),
        None => false,
    }
}

fn probe(conns: &Conns, members: &Vec<Interest>, start: usize, from: u64, room: bool) -> (r: Option<
    usize,
>)
    requires
        conns.wf(),
        conns@.contains_key(from),
    ensures
        match r {
            Some(at) => at < members@.len() && first_probe(
                conns@,
                interest_views(members@),
                start,
                from,
                room,
                0,
            ) == Some(members@[at as int]@) && eligible(conns@, members@[at as int]@, from),
            None => first_probe(conns@, interest_views(members@), start, from, room, 0) is None,
        },
{
    let ghost all = interest_views(members@);
    let n = members.len();
    let mut k: usize = 0;
    while k < n
        invariant
            k <= n == members@.len(),
            all == interest_views(members@),
            conns.wf(),
            conns@.contains_key(from),
            first_probe(conns@, all, start, from, room, 0) == first_probe(
                conns@,
                all,
                start,
                from,
                room,
                k as int,
            ),
        decreases n - k,
    {
        let at = turn(start, k, n);
        assert(probed(all, start, k as int) == members@[at as int]@);
        if is_eligible(conns, &members[at], from) {
            let roomy = match conns.get(members[at].cid) {
                Some(conn) => conn.has_room(),
                None => false,
            };
            if !room || roomy {
                return Some(at);
            }
        }
        k += 1;
    }
    None
}

/// The state of a delivery, from where its parts are kept.
spec fn state_of(
    conns: Map<u64, ConnView>,
    registry: RegistryView,
    out: Delivered,
    spent: Seq<Interest>,
) -> Delivery {
    Delivery {
        conns,
        registry,
        count: out.count as nat,
        stall: out.stall@,
        spent: interest_views(spent),
    }
}

/// Builds the frame, queues it, and books the delivery.
fn give(
    registry: &mut Registry,
    conns: &mut Conns,
    i: &Interest,
    msg: &Msg,
    out: &mut Delivered,
    spent: &mut Vec<Interest>,
)
    requires
        old(registry).wf(),
        old(conns).wf(),
        old(conns)@.contains_key(i@.cid),
        msg@.fits(),
        i@.sid.len() <= field_limit(),
        old(out).count < usize::MAX,
    ensures
        final(registry).wf(),
        final(conns).wf(),
        final(registry).rng() == old(registry).rng(),
        state_of(final(conns)@, final(registry)@, *final(out), final(spent)@) == given(
            state_of(old(conns)@, old(registry)@, *old(out), old(spent)@),
            i@,
            msg@,
        ),
        final(out).count <= old(out).count + 1,
{
    let ghost all = conns@;
    let ghost was = interest_views(spent@);
    let mut conn = match conns.take(i.cid) {
        Some(conn) => conn,
        None => {
            return;
        },
    };
    let ghost held = conn@;
    assert(held == all[i@.cid]);
    proof {
        conn.sound();
    }
    let outcome = conn.deliver(i, msg);
    let ghost frame = delivery(i@.sid, held.opts.headers, msg@);
    let ghost d = state_of(all, registry@, *out, spent@);
    assert(outcome is SlowConsumer || outcome is Dropped ==> held.pushed(frame) =~= held);
    match outcome {
        Enqueue::Queued | Enqueue::SoftLimit => {
            if conn.account(&i.sid) {
                spent.push(i.copy());
                assert(interest_views(spent@) =~= was.push(i@));
            }
            out.count = out.count + 1;
            match outcome {
                Enqueue::SoftLimit => {
                    out.stall.push(i.cid);
                },
                _ => {},
            }
        },
        Enqueue::SlowConsumer => {
            conn.close_slow_consumer(registry);
            spent.push(i.copy());
            assert(interest_views(spent@) =~= was.push(i@));
        },
        Enqueue::Dropped => {},
    }
    conns.put(conn);
    assert(all.remove(i@.cid).insert(i@.cid, conn@) =~= all.insert(i@.cid, conn@));
    assert(all.insert(i@.cid, held) =~= all);
    assert(state_of(conns@, registry@, *out, spent@) =~= given(d, i@, msg@));
}

proof fn given_keeps(d: Delivery, i: InterestView, msg: MsgView, cid: u64)
    requires
        d.conns.contains_key(cid),
    ensures
        given(d, i, msg).conns.contains_key(cid),
{
}

impl Registry {
    /// Fans a message out, from the connection `from`. Says how many subscriptions it
    /// reached and which connections the publisher should wait for.
    pub fn route(&mut self, msg: &Msg, from: u64, conns: &mut Conns) -> (r: Delivered)
        requires
            old(self).wf(),
            old(conns).wf(),
            old(conns)@.contains_key(from),
            msg@.fits(),
        ensures
            final(self).wf(),
            final(conns).wf(),
            final(conns)@ == routed(old(conns)@, old(self)@, old(self).rng(), msg@, from).conns,
            final(self)@ == routed(old(conns)@, old(self)@, old(self).rng(), msg@, from).registry,
            r.count == routed(old(conns)@, old(self)@, old(self).rng(), msg@, from).count,
            r.stall@ == routed(old(conns)@, old(self)@, old(self).rng(), msg@, from).stall,
            final(self).rng() == rng_after(
                group_names(old(self)@.reach(msg@.subject)),
                old(self).rng(),
            ),
    {
        let reach = self.reach(msg.subject);
        let ghost all = interest_views(reach@);
        let (plain, groups) = sort_out(&reach);
        proof {
            group_names_differ(all);
            members_fit(all, ungrouped());
        }
        let start: usize = if groups.len() == 0 {
            0
        } else {
            self.draw() as usize
        };
        let ghost names = group_names(all);
        assert(start == start_of(names, old(self).rng()));
        let mut out = Delivered { count: 0, stall: Vec::new() };
        let mut spent: Vec<Interest> = Vec::new();
        let ghost d0 = state_of(conns@, self@, out, spent@);
        assert(d0 =~= (Delivery {
            conns: old(conns)@,
            registry: old(self)@,
            count: 0,
            stall: Seq::empty(),
            spent: Seq::empty(),
        }));
        let ghost rng = self.rng();
        let ghost list = all.filter(ungrouped());
        let total = reach.len();
        let mut k: usize = 0;
        assert(list.take(0) =~= Seq::empty());
        while k < plain.len()
            invariant
                k <= plain@.len(),
                plain@.len() == list.len(),
                list.len() + names.len() <= total,
                list == interest_views(plain@),
                forall|j: int| 0 <= j < list.len() ==> (#[trigger] list[j]).sid.len() <= field_limit(),
                self.wf(),
                conns.wf(),
                conns@.contains_key(from),
                msg@.fits(),
                self.rng() == rng,
                out.count <= k,
                state_of(conns@, self@, out, spent@) == given_each(
                    d0,
                    list.take(k as int),
                    msg@,
                    from,
                ),
            decreases plain@.len() - k,
        {
            proof {
                assert(list.take(k + 1).drop_last() =~= list.take(k as int));
                assert(list.take(k + 1).last() == list[k as int]);
                assert(list[k as int] == plain@[k as int]@);
                given_keeps(
                    state_of(conns@, self@, out, spent@),
                    list[k as int],
                    msg@,
                    from,
                );
            }
            if is_eligible(conns, &plain[k], from) {
                give(self, conns, &plain[k], msg, &mut out, &mut spent);
            }
            k += 1;
        }
        assert(list.take(k as int) =~= list);
        let ghost d1 = given_each(d0, list, msg@, from);
        let mut g: usize = 0;
        assert(names.take(0) =~= Seq::empty());
        while g < groups.len()
            invariant
                g <= groups@.len(),
                groups@.len() == names.len(),
                names == names_of(groups@),
                sorted_out(groups@, all),
                list.len() + names.len() <= total,
                forall|j: int| 0 <= j < all.len() ==> (#[trigger] all[j]).sid.len() <= field_limit(),
                self.wf(),
                conns.wf(),
                conns@.contains_key(from),
                msg@.fits(),
                self.rng() == rng,
                out.count <= list.len() + g,
                state_of(conns@, self@, out, spent@) == given_groups(
                    d1,
                    all,
                    names.take(g as int),
                    msg@,
                    from,
                    start,
                ),
            decreases groups@.len() - g,
        {
            let members = &groups[g].members;
            let ghost found = interest_views(members@);
            proof {
                assert(names.take(g + 1).drop_last() =~= names.take(g as int));
                assert(names.take(g + 1).last() == names[g as int]);
                assert(found == all.filter(grouped(names[g as int])));
                members_fit(all, grouped(names[g as int]));
            }
            let pick = match probe(conns, members, start, from, true) {
                Some(at) => Some(at),
                None => probe(conns, members, start, from, false),
            };
            if let Some(at) = pick {
                assert(found[at as int] == members@[at as int]@);
                proof {
                    given_keeps(
                        state_of(conns@, self@, out, spent@),
                        found[at as int],
                        msg@,
                        from,
                    );
                }
                give(self, conns, &members[at], msg, &mut out, &mut spent);
            }
            g += 1;
        }
        assert(names.take(g as int) =~= names);
        let ghost d2 = given_groups(d1, all, names, msg@, from, start);
        let ghost ended = interest_views(spent@);
        let ghost before = self@;
        let mut e: usize = 0;
        assert(ended.take(0) =~= Seq::empty());
        while e < spent.len()
            invariant
                e <= spent@.len(),
                ended == interest_views(spent@),
                self.wf(),
                self.rng() == rng,
                self@ == before.without_all(ended.take(e as int)),
            decreases spent@.len() - e,
        {
            proof {
                assert(ended.take(e + 1).drop_last() =~= ended.take(e as int));
                assert(ended.take(e + 1).last() == ended[e as int]);
            }
            self.remove(&spent[e]);
            e += 1;
        }
        assert(ended.take(e as int) =~= ended);
        out
    }
}

proof fn members_fit(list: Seq<InterestView>, f: spec_fn(InterestView) -> bool)
    requires
        forall|j: int| 0 <= j < list.len() ==> (#[trigger] list[j]).sid.len() <= field_limit(),
    ensures
        forall|j: int|
            0 <= j < list.filter(f).len() ==> (#[trigger] list.filter(f)[j]).sid.len()
                <= field_limit(),
{
    let t = list.filter(f);
    assert forall|j: int| 0 <= j < t.len() implies (#[trigger] t[j]).sid.len() <= field_limit() by {
        assert(t.contains(t[j]));
        list.lemma_filter_contains_rev(f, t[j]);
        let k = choose|k: int| 0 <= k < list.len() && list[k] == t[j];
        assert(list[k].sid.len() <= field_limit());
    }
}

// --------------------------------------------------------------------------- laws --

/// The search finds only members of the group that may get the message.
pub proof fn the_pick_is_an_eligible_member(
    conns: Map<u64, ConnView>,
    members: Seq<InterestView>,
    start: usize,
    from: u64,
    room: bool,
    k: int,
)
    requires
        0 <= k,
    ensures
        first_probe(conns, members, start, from, room, k) matches Some(m) ==> {
            &&& members.contains(m)
            &&& eligible(conns, m, from)
            &&& room ==> conns[m.cid].out.room()
        },
    decreases members.len() - k,
{
    if k < members.len() {
        let m = probed(members, start, k);
        let at = (start + k) % (members.len() as int);
        assert(0 <= at < members.len());
        assert(members[at] == m);
        the_pick_is_an_eligible_member(conns, members, start, from, room, k + 1);
    }
}

proof fn given_each_keeps(d: Delivery, list: Seq<InterestView>, msg: MsgView, from: u64)
    ensures
        given_each(d, list, msg, from).conns.dom() == d.conns.dom(),
    decreases list.len(),
{
    if list.len() > 0 {
        given_each_keeps(d, list.drop_last(), msg, from);
        let before = given_each(d, list.drop_last(), msg, from);
        if eligible(before.conns, list.last(), from) {
            assert(given(before, list.last(), msg).conns.dom() =~= before.conns.dom());
        }
    }
}

proof fn given_groups_keeps(
    d: Delivery,
    reach: Seq<InterestView>,
    names: Seq<Seq<u8>>,
    msg: MsgView,
    from: u64,
    start: usize,
)
    ensures
        given_groups(d, reach, names, msg, from, start).conns.dom() == d.conns.dom(),
    decreases names.len(),
{
    if names.len() > 0 {
        given_groups_keeps(d, reach, names.drop_last(), msg, from, start);
        let before = given_groups(d, reach, names.drop_last(), msg, from, start);
        let members = reach.filter(grouped(names.last()));
        the_pick_is_an_eligible_member(before.conns, members, start, from, true, 0);
        the_pick_is_an_eligible_member(before.conns, members, start, from, false, 0);
        if let Some(m) = picked(before.conns, members, start, from) {
            assert(given(before, m, msg).conns.dom() =~= before.conns.dom());
        }
    }
}

/// Routing opens and forgets no connection: even a subscriber that is dropped stays known
/// until its own loops have ended.
pub proof fn routing_keeps_connections(
    conns: Map<u64, ConnView>,
    registry: RegistryView,
    rng: u64,
    msg: MsgView,
    from: u64,
)
    ensures
        routed(conns, registry, rng, msg, from).conns.dom() == conns.dom(),
{
    let reach = registry.reach(msg.subject);
    let names = group_names(reach);
    let d0 = Delivery { conns, registry, count: 0, stall: Seq::empty(), spent: Seq::empty() };
    let d1 = given_each(d0, reach.filter(ungrouped()), msg, from);
    given_each_keeps(d0, reach.filter(ungrouped()), msg, from);
    given_groups_keeps(d1, reach, names, msg, from, start_of(names, rng));
}

proof fn given_each_numbers(d: Delivery, list: Seq<InterestView>, msg: MsgView, from: u64)
    requires
        numbered(d.conns),
    ensures
        numbered(given_each(d, list, msg, from).conns),
    decreases list.len(),
{
    if list.len() > 0 {
        given_each_numbers(d, list.drop_last(), msg, from);
    }
}

proof fn given_groups_numbers(
    d: Delivery,
    reach: Seq<InterestView>,
    names: Seq<Seq<u8>>,
    msg: MsgView,
    from: u64,
    start: usize,
)
    requires
        numbered(d.conns),
    ensures
        numbered(given_groups(d, reach, names, msg, from, start).conns),
    decreases names.len(),
{
    if names.len() > 0 {
        given_groups_numbers(d, reach, names.drop_last(), msg, from, start);
        let before = given_groups(d, reach, names.drop_last(), msg, from, start);
        let members = reach.filter(grouped(names.last()));
        the_pick_is_an_eligible_member(before.conns, members, start, from, true, 0);
        the_pick_is_an_eligible_member(before.conns, members, start, from, false, 0);
    }
}

/// Routing leaves every connection under its own number.
pub proof fn routing_keeps_numbers(
    conns: Map<u64, ConnView>,
    registry: RegistryView,
    rng: u64,
    msg: MsgView,
    from: u64,
)
    requires
        numbered(conns),
    ensures
        numbered(routed(conns, registry, rng, msg, from).conns),
{
    let reach = registry.reach(msg.subject);
    let names = group_names(reach);
    let d0 = Delivery { conns, registry, count: 0, stall: Seq::empty(), spent: Seq::empty() };
    let d1 = given_each(d0, reach.filter(ungrouped()), msg, from);
    given_each_numbers(d0, reach.filter(ungrouped()), msg, from);
    given_groups_numbers(d1, reach, names, msg, from, start_of(names, rng));
}

} // verus!
