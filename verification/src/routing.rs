//! The subscription registry and the delivery decision.
//!
//! One registry maps subjects to subscriptions: literal filters in buckets found by the
//! hash of the subject, wildcard filters in a list that is scanned. Routing one message
//! is one step, from matching to queueing, and that is what keeps the ordering promise:
//! within one publisher and one subscriber, deliveries happen in publish order.
use bytes::{Bytes, BytesMut};
use std::collections::HashMap;
use vstd::prelude::*;

use crate::arena::Arena;
use crate::buf::{buffer_of, bytes_from_vec, bytes_of};
use crate::client::Frame;
use crate::nuid::{advanced, drawn, rotate_left, rotated, times, Rng};
use crate::proto::{field_limit, optional_bytes, MAX_BODY};
use crate::subjects;
use crate::text::{ascii_text, crlf, decimal, decimal_is_short, push_u64, same_bytes, separators, text, SPACE};

verus! {

// ------------------------------------------------------------------ subscriptions --

/// One subscription, as its connection holds it.
pub struct Sub {
    /// The filter the client asked for.
    pub subject: Bytes,
    /// Queue group name, if any.
    pub queue: Option<Bytes>,
    /// The client's own id for this subscription: what goes into MSG and HMSG.
    pub sid: Bytes,
    /// The connection that holds it.
    pub conn: u64,
    /// Messages delivered so far, for auto-unsubscribe.
    pub delivered: u64,
    /// Total delivery limit; 0 means unlimited.
    pub limit: u64,
    /// Precomputed, so that a publish never scans the filter for wildcards.
    pub wildcard: bool,
}

/// A subscription, with its bytes as sequences.
#[verifier::ext_equal]
pub struct SubView {
    pub subject: Seq<u8>,
    pub queue: Option<Seq<u8>>,
    pub sid: Seq<u8>,
    pub conn: u64,
    pub delivered: u64,
    pub limit: u64,
    pub wildcard: bool,
}

impl View for Sub {
    type V = SubView;

    open spec fn view(&self) -> SubView {
        SubView {
            subject: bytes_of(self.subject),
            queue: optional_bytes(self.queue),
            sid: bytes_of(self.sid),
            conn: self.conn,
            delivered: self.delivered,
            limit: self.limit,
            wildcard: self.wildcard,
        }
    }
}

impl SubView {
    /// Is `max` a limit that this subscription has not reached?
    pub open spec fn can_take(self, max: int) -> bool {
        max > 0 && max > self.delivered
    }

    /// The subscription after `UNSUB sid max`.
    pub open spec fn limited(self, max: int) -> SubView {
        SubView {
            limit: if self.can_take(max) {
                max as u64
            } else {
                0
            },
            ..self
        }
    }

    /// The subscription after one more delivery.
    pub open spec fn counted(self) -> SubView {
        SubView { delivered: crate::nuid::plus(self.delivered, 1), ..self }
    }

    /// Has it had as many messages as it asked for?
    pub open spec fn spent(self) -> bool {
        self.limit != 0 && self.delivered >= self.limit
    }

    /// What the registry keeps of it.
    pub open spec fn interest(self) -> InterestView {
        InterestView {
            subject: self.subject,
            queue: self.queue,
            cid: self.conn,
            sid: self.sid,
        }
    }
}

impl Sub {
    /// A subscription that has had no message and has no limit.
    pub fn new(subject: Bytes, queue: Option<Bytes>, sid: Bytes, conn: u64) -> (r: Sub)
        ensures
            r@ == (SubView {
                subject: bytes_of(subject),
                queue: optional_bytes(queue),
                sid: bytes_of(sid),
                conn,
                delivered: 0,
                limit: 0,
                wildcard: subjects::wild(bytes_of(subject)),
            }),
    {
        let wildcard = subjects::has_wildcard(&subject);
        Sub { subject, queue, sid, conn, delivered: 0, limit: 0, wildcard }
    }

    /// `UNSUB sid max`: sets the limit, or says that the subscription is to go because
    /// the limit has already been reached, or is no positive number.
    pub fn set_limit(&mut self, max: i64) -> (r: bool)
        ensures
            r == !old(self)@.can_take(max as int),
            final(self)@ == old(self)@.limited(max as int),
    {
        if max > 0 && max as u64 > self.delivered {
            self.limit = max as u64;
            false
        } else {
            self.limit = 0;
            true
        }
    }

    /// Counts a delivery. Says whether the subscription is spent.
    pub fn account(&mut self) -> (r: bool)
        ensures
            final(self)@ == old(self)@.counted(),
            r == final(self)@.spent(),
    {
        self.delivered = self.delivered.wrapping_add(1);
        self.limit != 0 && self.delivered >= self.limit
    }
}

/// Same id, filter, queue group and connection?
pub fn identical(a: &Sub, b: &Sub) -> (r: bool)
    ensures
        r == (a@.interest() == b@.interest()),
{
    let queues = match (&a.queue, &b.queue) {
        (None, None) => true,
        (Some(x), Some(y)) => same_bytes(x, y),
        _ => false,
    };
    same_bytes(&a.sid, &b.sid) && same_bytes(&a.subject, &b.subject) && queues && a.conn == b.conn
}

/// What the registry keeps of a subscription: enough to match a message and to find the
/// connection and the id it goes to.
pub struct Interest {
    pub subject: Bytes,
    pub queue: Option<Bytes>,
    pub cid: u64,
    pub sid: Bytes,
}

/// A registered subscription, with its bytes as sequences.
#[verifier::ext_equal]
pub struct InterestView {
    pub subject: Seq<u8>,
    pub queue: Option<Seq<u8>>,
    pub cid: u64,
    pub sid: Seq<u8>,
}

impl View for Interest {
    type V = InterestView;

    open spec fn view(&self) -> InterestView {
        InterestView {
            subject: bytes_of(self.subject),
            queue: optional_bytes(self.queue),
            cid: self.cid,
            sid: bytes_of(self.sid),
        }
    }
}

fn clone_optional(b: &Option<Bytes>) -> (r: Option<Bytes>)
    ensures
        optional_bytes(r) == optional_bytes(*b),
{
    match b {
        Some(x) => Some(x.clone()),
        None => None,
    }
}

impl Interest {
    fn of(sub: &Sub) -> (r: Interest)
        ensures
            r@ == sub@.interest(),
    {
        Interest {
            subject: sub.subject.clone(),
            queue: clone_optional(&sub.queue),
            cid: sub.conn,
            sid: sub.sid.clone(),
        }
    }

    /// What the registry keeps of a subscription that is given up.
    pub(crate) fn from_sub(sub: Sub) -> (r: Interest)
        ensures
            r@ == sub@.interest(),
    {
        Interest { subject: sub.subject, queue: sub.queue, cid: sub.conn, sid: sub.sid }
    }

    /// A second copy of it.
    pub(crate) fn copy(&self) -> (r: Interest)
        ensures
            r@ == self@,
    {
        Interest {
            subject: self.subject.clone(),
            queue: clone_optional(&self.queue),
            cid: self.cid,
            sid: self.sid.clone(),
        }
    }
}

// ------------------------------------------------------------------------- frames --

/// A message on its way from a publisher to the registry, borrowed from the publish.
pub struct Msg<'a> {
    pub subject: &'a [u8],
    pub reply: Option<&'a [u8]>,
    /// Header-block length within `body`.
    pub hdr: usize,
    pub body: &'a Bytes,
}

/// A message, with its bytes as sequences.
#[verifier::ext_equal]
pub struct MsgView {
    pub subject: Seq<u8>,
    pub reply: Option<Seq<u8>>,
    pub hdr: nat,
    pub body: Seq<u8>,
}

impl<'a> View for Msg<'a> {
    type V = MsgView;

    open spec fn view(&self) -> MsgView {
        MsgView {
            subject: self.subject@,
            reply: match self.reply {
                Some(r) => Some(r@),
                None => None,
            },
            hdr: self.hdr as nat,
            body: bytes_of(*self.body),
        }
    }
}

impl MsgView {
    /// A message whose fields came from one control line and whose body is as long as a
    /// size field can say.
    pub open spec fn fits(self) -> bool {
        &&& self.subject.len() + (match self.reply {
            Some(r) => r.len(),
            None => 0,
        }) <= field_limit()
        &&& self.hdr <= self.body.len() <= MAX_BODY
    }

    /// The body as a subscriber gets it: without the header block where it did not ask
    /// for headers.
    pub open spec fn body_for(self, headers: bool) -> Seq<u8> {
        if headers {
            self.body
        } else {
            self.body.skip(self.hdr as int)
        }
    }
}

/// A field of a control line, with the space before it.
pub open spec fn spaced(field: Seq<u8>) -> Seq<u8> {
    seq![SPACE] + field
}

/// The control line of a delivery: `MSG <subject> <sid> [reply] <#bytes>`, or
/// `HMSG <subject> <sid> [reply] <#hdr> <#total>` where the message has a header block
/// and the subscriber asked for headers.
pub open spec fn delivery_line(sid: Seq<u8>, headers: bool, msg: MsgView) -> Seq<u8> {
    let block = headers && msg.hdr > 0;
    (if block {
        text("HMSG ")
    } else {
        text("MSG ")
    }) + msg.subject + spaced(sid) + (match msg.reply {
        Some(r) => spaced(r),
        None => Seq::empty(),
    }) + (if block {
        spaced(decimal(msg.hdr))
    } else {
        Seq::empty()
    }) + spaced(decimal(msg.body_for(headers).len()))
}

/// A delivery: its control line, the body, and a line end after each.
pub open spec fn delivery(sid: Seq<u8>, headers: bool, msg: MsgView) -> Seq<u8> {
    delivery_line(sid, headers, msg) + crlf() + msg.body_for(headers) + crlf()
}

/// The decimal digits of a number.
fn digits(n: usize) -> (r: Vec<u8>)
    requires
        n <= MAX_BODY,
    ensures
        r@ == decimal(n as nat),
        r@.len() <= 9,
{
    let mut out: Vec<u8> = Vec::new();
    push_u64(&mut out, n as u64);
    proof {
        assert(vstd::arithmetic::power::pow(10, 9) == 1_000_000_000) by {
            reveal_with_fuel(vstd::arithmetic::power::pow, 10);
        }
        decimal_is_short(n as nat, 9);
    }
    assert(out@ =~= decimal(n as nat));
    out
}

/// Lays a delivery out in the arena of the connection that it goes to.
///
/// A subscriber that did not ask for headers gets the stripped form: the block is
/// removed, not the message.
pub fn build_frame(arena: &mut Arena, sub: &Interest, headers: bool, msg: &Msg) -> (r: Frame)
    requires
        old(arena)@ == Seq::<u8>::empty(),
        old(arena).chunk_size() <= isize::MAX,
        msg@.fits(),
        sub@.sid.len() <= field_limit(),
    ensures
        r@ == delivery(sub@.sid, headers, msg@),
        final(arena)@ == Seq::<u8>::empty(),
        final(arena).chunk_size() == old(arena).chunk_size(),
{
    let whole: &[u8] = msg.body;
    let sid: &[u8] = &sub.sid;
    let skip: usize = if headers {
        0
    } else {
        msg.hdr
    };
    let body: &[u8] = &whole[skip..whole.len()];
    assert(body@ =~= msg@.body_for(headers));
    let block = headers && msg.hdr > 0;
    let reply_len: usize = match msg.reply {
        Some(r) => r.len(),
        None => 0,
    };
    // The separators and digits take less than 48.
    let need: usize = 48 + msg.subject.len() + sid.len() + reply_len + body.len();
    let total = digits(body.len());
    let hdr = digits(msg.hdr);
    proof {
        reveal_strlit("HMSG ");
        reveal_strlit("MSG ");
        ascii_text("HMSG ");
        ascii_text("MSG ");
        separators();
    }
    let dst: &mut BytesMut = arena.tail(need);
    if block {
        dst.extend_from_slice("HMSG ".as_bytes());
    } else {
        dst.extend_from_slice("MSG ".as_bytes());
    }
    dst.extend_from_slice(msg.subject);
    dst.extend_from_slice(" ".as_bytes());
    dst.extend_from_slice(sid);
    if let Some(reply) = msg.reply {
        dst.extend_from_slice(" ".as_bytes());
        dst.extend_from_slice(reply);
    }
    if block {
        dst.extend_from_slice(" ".as_bytes());
        dst.extend_from_slice(hdr.as_slice());
    }
    dst.extend_from_slice(" ".as_bytes());
    dst.extend_from_slice(total.as_slice());
    dst.extend_from_slice("\r\n".as_bytes());
    dst.extend_from_slice(body);
    dst.extend_from_slice("\r\n".as_bytes());
    assert(buffer_of(*dst) =~= delivery(sid@, headers, msg@));
    Frame::line(arena.seal())
}

/// The header block that says nobody answered: the dead subject travels in it.
pub open spec fn status_block(published: Seq<u8>) -> Seq<u8> {
    text("NATS/1.0 503\r\nNats-Subject: ") + published + text("\r\n\r\n")
}

/// The status frame for an unanswered request, to the inbox subscription `sid`: a header
/// block and no payload.
pub open spec fn status_frame(reply: Seq<u8>, sid: Seq<u8>, published: Seq<u8>) -> Seq<u8> {
    let len = decimal(status_block(published).len());
    text("HMSG ") + reply + spaced(sid) + spaced(len) + spaced(len) + crlf() + status_block(published)
        + crlf()
}

/// The status block is 32 bytes longer than the dead subject.
pub proof fn status_block_length(published: Seq<u8>)
    ensures
        status_block(published).len() == 32 + published.len(),
{
    reveal_strlit("NATS/1.0 503\r\nNats-Subject: ");
    reveal_strlit("\r\n\r\n");
    ascii_text("NATS/1.0 503\r\nNats-Subject: ");
    ascii_text("\r\n\r\n");
}

/// The status frame for an unanswered request. The frame's subject is the inbox, the
/// dead subject travels in a header.
pub fn no_responder_frame(reply: &[u8], sub: &Interest, published: &[u8]) -> (r: Frame)
    requires
        published@.len() <= usize::MAX - 32,
    ensures
        r@ == status_frame(reply@, sub@.sid, published@),
{
    let sid: &[u8] = &sub.sid;
    proof {
        status_block_length(published@);
        separators();
    }
    let status_len: usize = 32 + published.len();
    let mut len: Vec<u8> = Vec::new();
    push_u64(&mut len, status_len as u64);
    assert(len@ =~= decimal(status_len as nat));
    let mut frame: Vec<u8> = Vec::new();
    frame.extend_from_slice("HMSG ".as_bytes());
    frame.extend_from_slice(reply);
    frame.push(SPACE);
    frame.extend_from_slice(sid);
    frame.push(SPACE);
    frame.extend_from_slice(len.as_slice());
    frame.push(SPACE);
    frame.extend_from_slice(len.as_slice());
    frame.extend_from_slice("\r\n".as_bytes());
    frame.extend_from_slice("NATS/1.0 503\r\nNats-Subject: ".as_bytes());
    frame.extend_from_slice(published);
    frame.extend_from_slice("\r\n\r\n".as_bytes());
    frame.extend_from_slice("\r\n".as_bytes());
    assert(frame@ =~= status_frame(reply@, sid@, published@));
    Frame::line(bytes_from_vec(frame))
}

// ------------------------------------------------------------------------- hashing --

/// One round of the subject hash.
pub open spec fn mixed(state: u64, word: u64) -> u64 {
    times(rotated(state, 11) ^ word, 0x517c_c1b7_2722_0a95)
}

/// Up to eight bytes as one word, the first byte lowest.
pub open spec fn word_of(bytes: Seq<u8>) -> u64 {
    vstd::bytes::spec_u64_from_le_bytes(
        Seq::new(
            8,
            |i: int|
                if i < bytes.len() {
                    bytes[i]
                } else {
                    0
                },
        ),
    )
}

/// The state after hashing `bytes`, the end of a run of `total` bytes: one round for
/// each eight, and one for what is left with the length put in, so that a subject and
/// the same subject with zeros behind it differ.
pub open spec fn hashed(state: u64, bytes: Seq<u8>, total: nat) -> u64
    decreases bytes.len(),
{
    if bytes.len() >= 8 {
        hashed(mixed(state, word_of(bytes.take(8))), bytes.skip(8), total)
    } else if bytes.len() > 0 {
        mixed(state, word_of(bytes) ^ ((total as u64) << 56))
    } else {
        state
    }
}

/// The last round: it spreads the low bits of a short subject.
pub open spec fn finished(state: u64) -> u64 {
    let z = times(state ^ (state >> 30), 0xbf58_476d_1ce4_e5b9);
    times(z ^ (z >> 27), 0x94d0_49bb_1331_11eb) ^ (z >> 31)
}

/// The bucket that a subject lands in.
pub open spec fn subject_hash(seed: u64, subject: Seq<u8>) -> u64 {
    finished(hashed(mixed(seed, subject.len() as u64), subject, subject.len()))
}

/// The subject map's hasher: one multiply and one exclusive-or per eight bytes of
/// subject. The seed keeps the map from being an easy target for a client that chooses
/// its own subjects; equality is untouched, this only decides which bucket a subject
/// lands in.
struct SubjectHasher(u64);

impl SubjectHasher {
    fn mix(&mut self, word: u64)
        ensures
            final(self).0 == mixed(old(self).0, word),
    {
        self.0 = (rotate_left(self.0, 11) ^ word).wrapping_mul(0x517c_c1b7_2722_0a95);
    }

    fn write(&mut self, bytes: &[u8])
        ensures
            final(self).0 == hashed(old(self).0, bytes@, bytes@.len()),
    {
        let n = bytes.len();
        let mut at: usize = 0;
        assert(bytes@.skip(0) =~= bytes@);
        while n - at >= 8
            invariant
                at <= n == bytes@.len(),
                hashed(old(self).0, bytes@, n as nat) == hashed(
                    self.0,
                    bytes@.skip(at as int),
                    n as nat,
                ),
            decreases n - at,
        {
            let ghost rest = bytes@.skip(at as int);
            let word = word_at(bytes, at, 8);
            assert(bytes@.subrange(at as int, at + 8) =~= rest.take(8));
            assert(rest.skip(8) =~= bytes@.skip(at + 8));
            self.mix(word);
            at = at + 8;
        }
        if at < n {
            let word = word_at(bytes, at, n - at);
            assert(bytes@.subrange(at as int, n as int) =~= bytes@.skip(at as int));
            self.mix(word ^ ((n as u64) << 56));
        }
    }

    fn finish(&self) -> (r: u64)
        ensures
            r == finished(self.0),
    {
        let mut z: u64 = self.0;
        z = (z ^ (z >> 30)).wrapping_mul(0xbf58_476d_1ce4_e5b9);
        (z ^ (z >> 27)).wrapping_mul(0x94d0_49bb_1331_11eb) ^ (z >> 31)
    }
}

/// The `count` bytes at `at` as one word, the first byte lowest.
fn word_at(bytes: &[u8], at: usize, count: usize) -> (r: u64)
    requires
        count <= 8,
        at + count <= bytes@.len(),
    ensures
        r == word_of(bytes@.subrange(at as int, at + count)),
{
    let ghost part = bytes@.subrange(at as int, at + count);
    let n = bytes.len();
    let mut w: Vec<u8> = Vec::new();
    let mut i: usize = 0;
    while i < 8
        invariant
            i <= 8,
            count <= 8,
            at + count <= n == bytes@.len(),
            part == bytes@.subrange(at as int, at + count),
            w@ =~= Seq::new(
                i as nat,
                |j: int|
                    if j < part.len() {
                        part[j]
                    } else {
                        0
                    },
            ),
        decreases 8 - i,
    {
        if i < count {
            w.push(bytes[at + i]);
        } else {
            w.push(0);
        }
        i += 1;
    }
    vstd::bytes::u64_from_le_bytes(w.as_slice())
}

/// The bucket that a subject lands in.
fn hash_subject(seed: u64, subject: &[u8]) -> (r: u64)
    ensures
        r == subject_hash(seed, subject@),
{
    let mut h = SubjectHasher(seed);
    h.mix(subject.len() as u64);
    h.write(subject);
    h.finish()
}

// ------------------------------------------------------------------- the registry --

/// What the registry holds: the subscriptions with a literal filter and those with a
/// wildcard, each in the order in which they came.
#[verifier::ext_equal]
pub struct RegistryView {
    pub literal: Seq<InterestView>,
    pub wildcard: Seq<InterestView>,
}

/// Which subscriptions an operation is about: those of a connection, or those of one of
/// its ids, or only the one with that filter.
#[verifier::ext_equal]
pub struct PatternView {
    pub cid: u64,
    pub sid: Option<Seq<u8>>,
    pub subject: Option<Seq<u8>>,
}

impl PatternView {
    /// Is the subscription one of them?
    pub open spec fn hits(self, i: InterestView) -> bool {
        &&& i.cid == self.cid
        &&& self.sid matches Some(sid) ==> i.sid == sid
        &&& self.subject matches Some(subject) ==> i.subject == subject
    }
}

/// The subscriptions that a pattern does not hit.
pub open spec fn spared(p: PatternView) -> spec_fn(InterestView) -> bool {
    |i: InterestView| !p.hits(i)
}

/// The subscriptions with exactly that filter.
pub open spec fn about(subject: Seq<u8>) -> spec_fn(InterestView) -> bool {
    |i: InterestView| i.subject == subject
}

/// The subscriptions whose filter matches that subject.
pub open spec fn matching(subject: Seq<u8>) -> spec_fn(InterestView) -> bool {
    |i: InterestView| subjects::subject_matches(i.subject, subject)
}

/// The subscriptions of that connection.
pub open spec fn held_by(cid: u64) -> spec_fn(InterestView) -> bool {
    |i: InterestView| i.cid == cid
}

/// Same id, filter and connection: registering it again changes nothing.
pub open spec fn same_interest(a: InterestView, b: InterestView) -> bool {
    a.sid == b.sid && a.subject == b.subject && a.cid == b.cid
}

/// Is the subscription in the list?
#[verifier::opaque]
pub open spec fn holds(list: Seq<InterestView>, i: InterestView) -> bool {
    exists|k: int| 0 <= k < list.len() && same_interest(#[trigger] list[k], i)
}

impl RegistryView {
    /// Nothing registered.
    pub open spec fn empty() -> RegistryView {
        RegistryView { literal: Seq::empty(), wildcard: Seq::empty() }
    }

    /// How many subscriptions there are.
    pub open spec fn count(self) -> nat {
        self.literal.len() + self.wildcard.len()
    }

    /// The list that a subscription belongs to.
    pub open spec fn list_for(self, i: InterestView) -> Seq<InterestView> {
        if subjects::wild(i.subject) {
            self.wildcard
        } else {
            self.literal
        }
    }

    /// Is this subscription registered already?
    pub open spec fn knows(self, i: InterestView) -> bool {
        holds(self.list_for(i), i)
    }

    /// The registry with one more subscription.
    pub open spec fn with(self, i: InterestView) -> RegistryView {
        if self.knows(i) {
            self
        } else if subjects::wild(i.subject) {
            RegistryView { wildcard: self.wildcard.push(i), ..self }
        } else {
            RegistryView { literal: self.literal.push(i), ..self }
        }
    }

    /// The registry without one subscription. The identity is the connection and its id
    /// for it.
    pub open spec fn without(self, i: InterestView) -> RegistryView {
        if subjects::wild(i.subject) {
            RegistryView {
                wildcard: self.wildcard.filter(
                    spared(PatternView { cid: i.cid, sid: Some(i.sid), subject: None }),
                ),
                ..self
            }
        } else {
            RegistryView {
                literal: self.literal.filter(
                    spared(PatternView { cid: i.cid, sid: Some(i.sid), subject: Some(i.subject) }),
                ),
                ..self
            }
        }
    }

    /// The registry without several subscriptions.
    pub open spec fn without_all(self, gone: Seq<InterestView>) -> RegistryView
        decreases gone.len(),
    {
        if gone.len() == 0 {
            self
        } else {
            self.without_all(gone.drop_last()).without(gone.last())
        }
    }

    /// The registry without anything that a connection held.
    pub open spec fn without_conn(self, cid: u64) -> RegistryView {
        let p = PatternView { cid, sid: None, subject: None };
        RegistryView {
            literal: self.literal.filter(spared(p)),
            wildcard: self.wildcard.filter(spared(p)),
        }
    }

    /// Every subscription that a message on that subject can reach.
    pub open spec fn reach(self, subject: Seq<u8>) -> Seq<InterestView> {
        self.literal.filter(about(subject)) + self.wildcard.filter(matching(subject))
    }

    /// The subscriptions of a connection that a message on that subject can reach.
    pub open spec fn reach_of(self, cid: u64, subject: Seq<u8>) -> Seq<InterestView> {
        self.reach(subject).filter(held_by(cid))
    }

    /// Literal filters with the literals, wildcards with the wildcards, and every id
    /// short enough to go into a control line.
    pub open spec fn wf(self) -> bool {
        &&& forall|k: int| #![trigger self.literal[k]]
            0 <= k < self.literal.len() ==> !subjects::wild(self.literal[k].subject)
                && self.literal[k].sid.len() <= field_limit()
        &&& forall|k: int| #![trigger self.wildcard[k]]
            0 <= k < self.wildcard.len() ==> subjects::wild(self.wildcard[k].subject)
                && self.wildcard[k].sid.len() <= field_limit()
    }
}

/// The subscriptions of a list, with their bytes as sequences.
pub open spec fn interest_views(list: Seq<Interest>) -> Seq<InterestView> {
    Seq::new(list.len(), |k: int| list[k]@)
}

proof fn filter_agrees<A>(s: Seq<A>, f: spec_fn(A) -> bool, g: spec_fn(A) -> bool)
    requires
        forall|k: int| 0 <= k < s.len() ==> f(#[trigger] s[k]) == g(s[k]),
    ensures
        s.filter(f) == s.filter(g),
    decreases s.len(),
{
    reveal(Seq::filter);
    if s.len() > 0 {
        assert forall|k: int| 0 <= k < s.len() - 1 implies f(#[trigger] s.drop_last()[k]) == g(
            s.drop_last()[k],
        ) by {
            assert(s.drop_last()[k] == s[k]);
        }
        filter_agrees(s.drop_last(), f, g);
        assert(f(s[s.len() - 1]) == g(s[s.len() - 1]));
    }
}

proof fn filter_twice<A>(
    s: Seq<A>,
    f: spec_fn(A) -> bool,
    g: spec_fn(A) -> bool,
    h: spec_fn(A) -> bool,
)
    requires
        forall|x: A| #[trigger] h(x) == (f(x) && g(x)),
    ensures
        s.filter(f).filter(g) == s.filter(h),
    decreases s.len(),
{
    reveal(Seq::filter);
    if s.len() > 0 {
        filter_twice(s.drop_last(), f, g, h);
        let x = s.last();
        assert(h(x) == (f(x) && g(x)));
        let t = s.drop_last().filter(f);
        t.lemma_filter_push(x, g);
    } else {
        assert(s.filter(f) =~= Seq::empty());
        assert(s.filter(f).filter(g) =~= Seq::empty());
    }
}

proof fn filter_all<A>(s: Seq<A>, f: spec_fn(A) -> bool)
    requires
        forall|k: int| 0 <= k < s.len() ==> f(#[trigger] s[k]),
    ensures
        s.filter(f) == s,
    decreases s.len(),
{
    reveal(Seq::filter);
    if s.len() > 0 {
        assert forall|k: int| 0 <= k < s.len() - 1 implies f(#[trigger] s.drop_last()[k]) by {
            assert(s.drop_last()[k] == s[k]);
        }
        filter_all(s.drop_last(), f);
        assert(f(s[s.len() - 1]));
        assert(s.drop_last().push(s.last()) =~= s);
    }
}

/// What is struck from one bucket is what is struck from the whole.
proof fn strike_count<A>(
    s: Seq<A>,
    inside: spec_fn(A) -> bool,
    both: spec_fn(A) -> bool,
    kept: spec_fn(A) -> bool,
    spare: spec_fn(A) -> bool,
)
    requires
        forall|x: A| #[trigger] both(x) == (inside(x) && spare(x)),
        forall|x: A| #[trigger] kept(x) == (!inside(x) || spare(x)),
    ensures
        s.len() - s.filter(kept).len() == s.filter(inside).len() - s.filter(both).len(),
        s.filter(kept).len() <= s.len(),
    decreases s.len(),
{
    reveal(Seq::filter);
    if s.len() > 0 {
        strike_count(s.drop_last(), inside, both, kept, spare);
        let x = s.last();
        assert(both(x) == (inside(x) && spare(x)));
        assert(kept(x) == (!inside(x) || spare(x)));
    }
}

/// Which subscriptions an operation is about.
struct Pattern<'a> {
    cid: u64,
    sid: Option<&'a [u8]>,
    subject: Option<&'a [u8]>,
}

impl<'a> Pattern<'a> {
    spec fn view(&self) -> PatternView {
        PatternView {
            cid: self.cid,
            sid: match self.sid {
                Some(s) => Some(s@),
                None => None,
            },
            subject: match self.subject {
                Some(s) => Some(s@),
                None => None,
            },
        }
    }

    fn hits(&self, i: &Interest) -> (r: bool)
        ensures
            r == self.view().hits(i@),
    {
        let sid = match self.sid {
            Some(s) => same_bytes(&i.sid, s),
            None => true,
        };
        let subject = match self.subject {
            Some(s) => same_bytes(&i.subject, s),
            None => true,
        };
        i.cid == self.cid && sid && subject
    }
}

/// The subscriptions of a list that a pattern does not hit.
fn spare(list: &Vec<Interest>, p: &Pattern) -> (r: Vec<Interest>)
    ensures
        interest_views(r@) == interest_views(list@).filter(spared(p.view())),
        r@.len() <= list@.len(),
{
    let ghost all = interest_views(list@);
    let ghost f = spared(p.view());
    let mut out: Vec<Interest> = Vec::new();
    let mut k: usize = 0;
    proof {
        reveal(Seq::filter);
    }
    assert(all.take(0).filter(f) =~= Seq::empty());
    assert(interest_views(out@) =~= Seq::empty());
    while k < list.len()
        invariant
            k <= list@.len(),
            all == interest_views(list@),
            f == spared(p.view()),
            interest_views(out@) == all.take(k as int).filter(f),
            out@.len() <= k,
        decreases list@.len() - k,
    {
        let ghost was = out@;
        proof {
            all.take(k as int).lemma_filter_push(all[k as int], f);
            assert(all.take(k as int).push(all[k as int]) =~= all.take(k + 1));
        }
        if !p.hits(&list[k]) {
            let one = list[k].copy();
            out.push(one);
            assert(interest_views(out@) =~= interest_views(was).push(all[k as int]));
        }
        k += 1;
    }
    assert(all.take(k as int) =~= all);
    out
}

/// The subscriptions whose filter lands in that bucket.
spec fn in_bucket(seed: u64, hash: u64) -> spec_fn(InterestView) -> bool {
    |i: InterestView| subject_hash(seed, i.subject) == hash
}

/// The subscriptions that stay when a pattern strikes one bucket.
spec fn outside_or_spared(seed: u64, hash: u64, p: PatternView) -> spec_fn(InterestView) -> bool {
    |i: InterestView| subject_hash(seed, i.subject) != hash || !p.hits(i)
}

/// Every bucket holds the literal filters of its hash, in order.
#[verifier::opaque]
spec fn bucketed(
    map: Map<u64, Vec<Interest>>,
    order: Seq<InterestView>,
    seed: u64,
) -> bool {
    &&& forall|h: u64| #[trigger]
        map.contains_key(h) ==> interest_views(map[h]@) == order.filter(in_bucket(seed, h))
    &&& forall|k: int| #![trigger order[k]]
        0 <= k < order.len() ==> map.contains_key(subject_hash(seed, order[k].subject))
}

/// What one bucket holds; one that is not there would be empty.
proof fn bucket_holds(map: Map<u64, Vec<Interest>>, order: Seq<InterestView>, seed: u64, h: u64)
    requires
        bucketed(map, order, seed),
    ensures
        map.contains_key(h) ==> interest_views(map[h]@) == order.filter(in_bucket(seed, h)),
        !map.contains_key(h) ==> order.filter(in_bucket(seed, h)) == Seq::<InterestView>::empty(),
        !map.contains_key(h) ==> forall|k: int| #![trigger order[k]]
            0 <= k < order.len() ==> subject_hash(seed, order[k].subject) != h,
{
    reveal(bucketed);
    if !map.contains_key(h) {
        order_misses(order, seed, h);
    }
}

/// One more subscription, in its bucket.
proof fn bucket_grows(
    map: Map<u64, Vec<Interest>>,
    order: Seq<InterestView>,
    seed: u64,
    i: InterestView,
    bucket: Vec<Interest>,
)
    requires
        bucketed(map, order, seed),
        interest_views(bucket@) == order.filter(
            in_bucket(seed, subject_hash(seed, i.subject)),
        ).push(i),
    ensures
        bucketed(
            map.remove(subject_hash(seed, i.subject)).insert(
                subject_hash(seed, i.subject),
                bucket,
            ),
            order.push(i),
            seed,
        ),
{
    reveal(bucketed);
    let h = subject_hash(seed, i.subject);
    let now = map.remove(h).insert(h, bucket);
    assert forall|g: u64| #[trigger] now.contains_key(g) implies interest_views(now[g]@)
        == order.push(i).filter(in_bucket(seed, g)) by {
        order.lemma_filter_push(i, in_bucket(seed, g));
        if g != h {
            assert(map.contains_key(g));
        }
    }
    assert forall|k: int| #![trigger order.push(i)[k]]
        0 <= k < order.push(i).len() implies now.contains_key(
        subject_hash(seed, order.push(i)[k].subject),
    ) by {
        if k < order.len() {
            assert(order.push(i)[k] == order[k]);
        }
    }
}

/// A bucket taken out and put back.
proof fn bucket_stays(
    map: Map<u64, Vec<Interest>>,
    order: Seq<InterestView>,
    seed: u64,
    h: u64,
    bucket: Vec<Interest>,
)
    requires
        bucketed(map, order, seed),
        interest_views(bucket@) == order.filter(in_bucket(seed, h)),
    ensures
        bucketed(map.remove(h).insert(h, bucket), order, seed),
{
    reveal(bucketed);
    let now = map.remove(h).insert(h, bucket);
    assert forall|g: u64| #[trigger] now.contains_key(g) implies interest_views(now[g]@)
        == order.filter(in_bucket(seed, g)) by {
        if g != h {
            assert(map.contains_key(g));
        }
    }
    assert forall|k: int| #![trigger order[k]]
        0 <= k < order.len() implies now.contains_key(subject_hash(seed, order[k].subject)) by {
        assert(map.contains_key(subject_hash(seed, order[k].subject)));
    }
}

/// A bucket struck by a pattern; an empty one is dropped.
proof fn bucket_shrinks(
    map: Map<u64, Vec<Interest>>,
    order: Seq<InterestView>,
    seed: u64,
    h: u64,
    p: PatternView,
    left: Vec<Interest>,
)
    requires
        bucketed(map, order, seed),
        interest_views(left@) == order.filter(in_bucket(seed, h)).filter(spared(p)),
    ensures
        bucketed(
            if left@.len() > 0 {
                map.remove(h).insert(h, left)
            } else {
                map.remove(h)
            },
            order.filter(outside_or_spared(seed, h, p)),
            seed,
        ),
{
    reveal(bucketed);
    let kept = order.filter(outside_or_spared(seed, h, p));
    let now = if left@.len() > 0 {
        map.remove(h).insert(h, left)
    } else {
        map.remove(h)
    };
    strike_here(order, seed, h, p);
    assert forall|g: u64| #[trigger] now.contains_key(g) implies interest_views(now[g]@)
        == kept.filter(in_bucket(seed, g)) by {
        if g != h {
            assert(map.contains_key(g));
            strike_elsewhere(order, seed, h, g, p);
        }
    }
    assert forall|k: int| #![trigger kept[k]]
        0 <= k < kept.len() implies now.contains_key(subject_hash(seed, kept[k].subject)) by {
        assert(kept.contains(kept[k]));
        order.lemma_filter_contains_rev(outside_or_spared(seed, h, p), kept[k]);
        let j = choose|j: int| 0 <= j < order.len() && order[j] == kept[k];
        assert(map.contains_key(subject_hash(seed, order[j].subject)));
        if subject_hash(seed, kept[k].subject) == h {
            kept.lemma_filter_contains(in_bucket(seed, h), k);
            assert(interest_views(left@).contains(kept[k]));
        }
    }
}

/// Where the live subscriptions are found.
pub struct Registry {
    literal: HashMap<u64, Vec<Interest>>,
    wildcard: Vec<Interest>,
    total: u64,
    seed: u64,
    rng: Rng,
    order: Ghost<Seq<InterestView>>,
}

impl View for Registry {
    type V = RegistryView;

    closed spec fn view(&self) -> RegistryView {
        RegistryView { literal: self.order@, wildcard: interest_views(self.wildcard@) }
    }
}

impl Registry {
    /// The state of the generator that picks in queue groups.
    pub closed spec fn rng(&self) -> u64 {
        self.rng@
    }

    /// The buckets, the lists and the counter agree.
    pub closed spec fn wf(&self) -> bool {
        &&& self@.wf()
        &&& bucketed(self.literal@, self.order@, self.seed)
        &&& self.total == self@.count() % 0x1_0000_0000_0000_0000
    }

    /// An empty registry. `seed` decides which bucket a subject lands in, and nothing
    /// else.
    pub fn new(seed: u64, rng: Rng) -> (r: Registry)
        ensures
            r.wf(),
            r@ == RegistryView::empty(),
            r.rng() == rng@,
    {
        broadcast use vstd::std_specs::hash::group_hash_axioms;

        let r = Registry {
            literal: HashMap::new(),
            wildcard: Vec::new(),
            total: 0,
            seed,
            rng,
            order: Ghost(Seq::empty()),
        };
        assert(interest_views(r.wildcard@) =~= Seq::empty());
        assert(bucketed(r.literal@, r.order@, seed)) by {
            reveal(bucketed);
        }
        r
    }

    /// How many subscriptions there are, as far as a machine word can say.
    pub fn subscription_count(&self) -> (r: u64)
        requires
            self.wf(),
        ensures
            r == self@.count() % 0x1_0000_0000_0000_0000,
    {
        self.total
    }

    /// Registers a subscription. `false` means that the filter is no legal subject, and
    /// nothing was registered.
    pub fn insert(&mut self, sub: &Sub) -> (r: bool)
        requires
            old(self).wf(),
            sub@.wildcard == subjects::wild(sub@.subject),
            sub@.sid.len() <= field_limit(),
        ensures
            final(self).wf(),
            final(self).rng() == old(self).rng(),
            r == subjects::valid_subject(sub@.subject),
            final(self)@ == if r {
                old(self)@.with(sub@.interest())
            } else {
                old(self)@
            },
    {
        if !subjects::is_valid(&sub.subject) {
            return false;
        }
        if sub.wildcard {
            self.insert_wildcard(sub);
        } else {
            self.insert_literal(sub);
        }
        true
    }

    fn insert_wildcard(&mut self, sub: &Sub)
        requires
            old(self).wf(),
            subjects::wild(sub@.subject),
            sub@.sid.len() <= field_limit(),
        ensures
            final(self).wf(),
            final(self).rng() == old(self).rng(),
            final(self)@ == old(self)@.with(sub@.interest()),
    {
        let ghost i = sub@.interest();
        let ghost was = interest_views(self.wildcard@);
        assert(self@.list_for(i) == was);
        if known(&self.wildcard, sub) {
            assert(self@.knows(i));
            return;
        }
        assert(!self@.knows(i));
        self.wildcard.push(Interest::of(sub));
        self.total = self.total.wrapping_add(1);
        assert(interest_views(self.wildcard@) =~= was.push(i));
    }

    fn insert_literal(&mut self, sub: &Sub)
        requires
            old(self).wf(),
            !subjects::wild(sub@.subject),
            sub@.sid.len() <= field_limit(),
        ensures
            final(self).wf(),
            final(self).rng() == old(self).rng(),
            final(self)@ == old(self)@.with(sub@.interest()),
    {
        broadcast use vstd::std_specs::hash::group_hash_axioms;

        let h = hash_subject(self.seed, &sub.subject);
        let ghost i = sub@.interest();
        let ghost order = self.order@;
        let ghost seed = self.seed;
        let ghost map = self.literal@;
        assert(self@.list_for(i) == order);
        let mut bucket = match self.literal.remove(&h) {
            Some(list) => list,
            None => Vec::new(),
        };
        proof {
            bucket_holds(map, order, seed, h);
            if !map.contains_key(h) {
                assert(interest_views(bucket@) =~= Seq::empty());
            }
            known_in_bucket(order, seed, i);
        }
        if known(&bucket, sub) {
            proof {
                bucket_stays(map, order, seed, h, bucket);
            }
            self.literal.insert(h, bucket);
            return;
        }
        let ghost was = interest_views(bucket@);
        bucket.push(Interest::of(sub));
        assert(interest_views(bucket@) =~= was.push(i));
        proof {
            bucket_grows(map, order, seed, i, bucket);
        }
        self.total = self.total.wrapping_add(1);
        self.order = Ghost(order.push(i));
        self.literal.insert(h, bucket);
        assert(self@.wf());
    }
}

/// Is the subscription in the list?
fn known(list: &Vec<Interest>, sub: &Sub) -> (r: bool)
    ensures
        r == holds(interest_views(list@), sub@.interest()),
{
    reveal(holds);
    let mut k: usize = 0;
    while k < list.len()
        invariant
            k <= list@.len(),
            forall|j: int|
                0 <= j < k ==> !same_interest(
                    #[trigger] interest_views(list@)[j],
                    sub@.interest(),
                ),
        decreases list@.len() - k,
    {
        let i = &list[k];
        if same_bytes(&i.sid, &sub.sid) && same_bytes(&i.subject, &sub.subject) && i.cid
            == sub.conn {
            proof {
                reveal(holds);
                assert(same_interest(interest_views(list@)[k as int], sub@.interest()));
            }
            return true;
        }
        k += 1;
    }
    false
}

/// A bucket that is not there would be empty.
proof fn order_misses(order: Seq<InterestView>, seed: u64, h: u64)
    requires
        forall|k: int| #![trigger order[k]]
            0 <= k < order.len() ==> subject_hash(seed, order[k].subject) != h,
    ensures
        order.filter(in_bucket(seed, h)) == Seq::<InterestView>::empty(),
    decreases order.len(),
{
    reveal(Seq::filter);
    if order.len() > 0 {
        assert forall|k: int| #![trigger order.drop_last()[k]]
            0 <= k < order.len() - 1 implies subject_hash(seed, order.drop_last()[k].subject)
            != h by {
            assert(order.drop_last()[k] == order[k]);
        }
        order_misses(order.drop_last(), seed, h);
        assert(subject_hash(seed, order[order.len() - 1].subject) != h);
    } else {
        assert(order.filter(in_bucket(seed, h)) =~= Seq::empty());
    }
}

/// Looking in the bucket is looking everywhere.
proof fn known_in_bucket(order: Seq<InterestView>, seed: u64, i: InterestView)
    ensures
        holds(order, i) == holds(
            order.filter(in_bucket(seed, subject_hash(seed, i.subject))),
            i,
        ),
{
    reveal(holds);
    let f = in_bucket(seed, subject_hash(seed, i.subject));
    let bucket = order.filter(f);
    if exists|k: int| 0 <= k < order.len() && same_interest(#[trigger] order[k], i) {
        let k = choose|k: int| 0 <= k < order.len() && same_interest(#[trigger] order[k], i);
        assert(f(order[k]));
        order.lemma_filter_contains(f, k);
        let j = choose|j: int| 0 <= j < bucket.len() && bucket[j] == order[k];
        assert(same_interest(bucket[j], i));
    }
    if exists|k: int| 0 <= k < bucket.len() && same_interest(#[trigger] bucket[k], i) {
        let k = choose|k: int| 0 <= k < bucket.len() && same_interest(#[trigger] bucket[k], i);
        assert(bucket.contains(bucket[k]));
        order.lemma_filter_contains_rev(f, bucket[k]);
        let j = choose|j: int| 0 <= j < order.len() && order[j] == bucket[k];
        assert(same_interest(order[j], i));
    }
}

/// A list keeps its good elements when it is filtered.
proof fn filter_keeps(s: Seq<InterestView>, f: spec_fn(InterestView) -> bool, wild: bool)
    requires
        forall|k: int| #![trigger s[k]]
            0 <= k < s.len() ==> subjects::wild(s[k].subject) == wild && s[k].sid.len()
                <= field_limit(),
    ensures
        forall|k: int| #![trigger s.filter(f)[k]]
            0 <= k < s.filter(f).len() ==> subjects::wild(s.filter(f)[k].subject) == wild
                && s.filter(f)[k].sid.len() <= field_limit(),
{
    let t = s.filter(f);
    assert forall|k: int| #![trigger t[k]] 0 <= k < t.len() implies subjects::wild(t[k].subject)
        == wild && t[k].sid.len() <= field_limit() by {
        assert(t.contains(t[k]));
        s.lemma_filter_contains_rev(f, t[k]);
        let j = choose|j: int| 0 <= j < s.len() && s[j] == t[k];
        assert(s[j].sid.len() <= field_limit());
    }
}

/// Striking one bucket leaves the others as they were.
proof fn strike_elsewhere(order: Seq<InterestView>, seed: u64, h: u64, g: u64, p: PatternView)
    requires
        g != h,
    ensures
        order.filter(outside_or_spared(seed, h, p)).filter(in_bucket(seed, g)) == order.filter(
            in_bucket(seed, g),
        ),
{
    filter_twice(
        order,
        outside_or_spared(seed, h, p),
        in_bucket(seed, g),
        in_bucket(seed, g),
    );
}

/// Striking a bucket and striking the whole list agree on that bucket, and on how much
/// was struck.
proof fn strike_here(order: Seq<InterestView>, seed: u64, h: u64, p: PatternView)
    ensures
        order.filter(outside_or_spared(seed, h, p)).filter(in_bucket(seed, h)) == order.filter(
            in_bucket(seed, h),
        ).filter(spared(p)),
        order.len() - order.filter(outside_or_spared(seed, h, p)).len() == order.filter(
            in_bucket(seed, h),
        ).len() - order.filter(in_bucket(seed, h)).filter(spared(p)).len(),
{
    let both = |i: InterestView| subject_hash(seed, i.subject) == h && !p.hits(i);
    filter_twice(order, outside_or_spared(seed, h, p), in_bucket(seed, h), both);
    filter_twice(order, in_bucket(seed, h), spared(p), both);
    strike_count(order, in_bucket(seed, h), both, outside_or_spared(seed, h, p), spared(p));
}

impl Registry {
    /// Strikes from one bucket what the pattern hits.
    fn strike(&mut self, h: u64, p: &Pattern)
        requires
            old(self).wf(),
        ensures
            final(self).wf(),
            final(self).rng() == old(self).rng(),
            final(self).seed == old(self).seed,
            final(self)@ == (RegistryView {
                literal: old(self)@.literal.filter(
                    outside_or_spared(old(self).seed, h, p.view()),
                ),
                ..old(self)@
            }),
    {
        broadcast use vstd::std_specs::hash::group_hash_axioms;

        let ghost order = self.order@;
        let ghost seed = self.seed;
        let ghost map = self.literal@;
        proof {
            bucket_holds(map, order, seed, h);
        }
        let bucket = match self.literal.remove(&h) {
            Some(list) => list,
            None => {
                proof {
                    filter_all(order, outside_or_spared(seed, h, p.view()));
                    assert(self.literal@ =~= map);
                }
                return;
            },
        };
        let left = spare(&bucket, p);
        let removed: usize = bucket.len() - left.len();
        proof {
            strike_here(order, seed, h, p.view());
            filter_keeps(order, outside_or_spared(seed, h, p.view()), false);
            bucket_shrinks(map, order, seed, h, p.view(), left);
        }
        self.order = Ghost(order.filter(outside_or_spared(seed, h, p.view())));
        self.total = self.total.wrapping_sub(removed as u64);
        if left.len() > 0 {
            self.literal.insert(h, left);
        }
    }

    /// Strikes from the wildcard list what the pattern hits.
    fn strike_wildcard(&mut self, p: &Pattern)
        requires
            old(self).wf(),
        ensures
            final(self).wf(),
            final(self).rng() == old(self).rng(),
            final(self).seed == old(self).seed,
            final(self)@ == (RegistryView {
                wildcard: old(self)@.wildcard.filter(spared(p.view())),
                ..old(self)@
            }),
    {
        let ghost was = interest_views(self.wildcard@);
        let left = spare(&self.wildcard, p);
        let removed: usize = self.wildcard.len() - left.len();
        proof {
            filter_keeps(was, spared(p.view()), true);
            assert(was.len() == self.wildcard@.len());
            assert(was.filter(spared(p.view())).len() == left@.len());
        }
        self.wildcard = left;
        self.total = self.total.wrapping_sub(removed as u64);
    }

    /// Takes one subscription out. The identity is the connection and its id: a client
    /// unsubscribing an id removes what that id referred to.
    pub fn remove(&mut self, sub: &Interest)
        requires
            old(self).wf(),
        ensures
            final(self).wf(),
            final(self).rng() == old(self).rng(),
            final(self)@ == old(self)@.without(sub@),
    {
        if subjects::has_wildcard(&sub.subject) {
            self.strike_wildcard(&Pattern { cid: sub.cid, sid: Some(&sub.sid), subject: None });
        } else {
            let h = hash_subject(self.seed, &sub.subject);
            let p = Pattern { cid: sub.cid, sid: Some(&sub.sid), subject: Some(&sub.subject) };
            proof {
                filter_agrees(
                    self@.literal,
                    outside_or_spared(self.seed, h, p.view()),
                    spared(p.view()),
                );
            }
            self.strike(h, &p);
        }
    }

    /// Drops everything that a connection held. Called once, when it closes.
    pub fn remove_conn(&mut self, cid: u64)
        requires
            old(self).wf(),
        ensures
            final(self).wf(),
            final(self).rng() == old(self).rng(),
            final(self)@ == old(self)@.without_conn(cid),
    {
        broadcast use vstd::std_specs::hash::group_hash_axioms;

        let p = Pattern { cid, sid: None, subject: None };
        let ghost pv = p.view();
        let ghost order = self.order@;
        let ghost seed = self.seed;
        let mut keys: Vec<u64> = Vec::new();
        let ghost all = vstd::std_specs::iter::IteratorSpec::remaining(
            &self.literal.keys(),
        ).unref();
        for key in it: self.literal.keys()
            invariant
                it.seq().unref() == all,
                it.seq().len() == all.len(),
                keys@.len() == it.index(),
                keys@ == all.take(it.index() as int),
        {
            assert(all[it.index() as int] == *key);
            keys.push(*key);
            assert(keys@ =~= all.take(it.index() + 1));
        }
        assert(keys@ =~= all);
        assert forall|h: u64| self.literal@.contains_key(h) implies keys@.contains(h) by {
            assert(keys@.to_set().contains(h));
        }
        let mut n: usize = 0;
        proof {
            assert forall|k: int| 0 <= k < order.len() implies unstruck(
                pv,
                seed,
                keys@.take(0),
            )(#[trigger] order[k]) by {
            }
            filter_all(order, unstruck(pv, seed, keys@.take(0)));
        }
        while n < keys.len()
            invariant
                n <= keys@.len(),
                self.wf(),
                self.rng() == old(self).rng(),
                self.seed == seed,
                pv == p.view(),
                self@.wildcard == old(self)@.wildcard,
                self@.literal == order.filter(unstruck(pv, seed, keys@.take(n as int))),
            decreases keys@.len() - n,
        {
            proof {
                let h = keys@[n as int];
                let so_far = keys@.take(n as int);
                assert(keys@.take(n + 1) =~= so_far.push(h));
                assert forall|i: InterestView| #[trigger] unstruck(pv, seed, so_far.push(h))(i) == (
                    unstruck(pv, seed, so_far)(i) && outside_or_spared(seed, h, pv)(i)) by {
                    assert(so_far.push(h).contains(subject_hash(seed, i.subject)) == (
                        so_far.contains(subject_hash(seed, i.subject)) || h == subject_hash(seed, i.subject))) by {
                        if so_far.contains(subject_hash(seed, i.subject)) {
                            let j = so_far.index_of(subject_hash(seed, i.subject));
                            assert(so_far.push(h)[j] == subject_hash(seed, i.subject));
                        }
                        assert(so_far.push(h)[so_far.len() as int] == h);
                    }
                }
                filter_twice(
                    order,
                    unstruck(pv, seed, so_far),
                    outside_or_spared(seed, h, pv),
                    unstruck(pv, seed, so_far.push(h)),
                );
            }
            self.strike(keys[n], &p);
            n += 1;
        }
        proof {
            assert(keys@.take(n as int) =~= keys@);
            assert forall|k: int| 0 <= k < order.len() implies unstruck(pv, seed, keys@)(
                #[trigger] order[k],
            ) == spared(pv)(order[k]) by {
                bucket_holds(
                    old(self).literal@,
                    order,
                    seed,
                    subject_hash(seed, order[k].subject),
                );
            }
            filter_agrees(order, unstruck(pv, seed, keys@), spared(pv));
        }
        self.strike_wildcard(&p);
    }
}

/// The subscriptions that stay when a pattern strikes several buckets.
spec fn unstruck(p: PatternView, seed: u64, keys: Seq<u64>) -> spec_fn(InterestView) -> bool {
    |i: InterestView| !(p.hits(i) && keys.contains(subject_hash(seed, i.subject)))
}

/// The subscriptions of a list whose filter is, or (for `wildcards`) matches, the
/// subject; appended to `out`.
fn select(list: &Vec<Interest>, subject: &[u8], wildcards: bool, out: &mut Vec<Interest>)
    ensures
        interest_views(final(out)@) == interest_views(old(out)@) + interest_views(list@).filter(
            if wildcards {
                matching(subject@)
            } else {
                about(subject@)
            },
        ),
{
    let ghost all = interest_views(list@);
    let ghost f = if wildcards {
        matching(subject@)
    } else {
        about(subject@)
    };
    let ghost before = interest_views(out@);
    let mut k: usize = 0;
    proof {
        reveal(Seq::filter);
    }
    assert(all.take(0).filter(f) =~= Seq::empty());
    assert(interest_views(out@) =~= before + Seq::<InterestView>::empty());
    while k < list.len()
        invariant
            k <= list@.len(),
            all == interest_views(list@),
            f == if wildcards {
                matching(subject@)
            } else {
                about(subject@)
            },
            interest_views(out@) == before + all.take(k as int).filter(f),
        decreases list@.len() - k,
    {
        let ghost was = interest_views(out@);
        proof {
            all.take(k as int).lemma_filter_push(all[k as int], f);
            assert(all.take(k as int).push(all[k as int]) =~= all.take(k + 1));
        }
        let hit = if wildcards {
            subjects::matches(&list[k].subject, subject)
        } else {
            same_bytes(&list[k].subject, subject)
        };
        if hit {
            let one = list[k].copy();
            out.push(one);
            assert(interest_views(out@) =~= was.push(all[k as int]));
            assert(was.push(all[k as int]) =~= before + all.take(k as int).filter(f).push(
                all[k as int],
            ));
        }
        k += 1;
    }
    assert(all.take(k as int) =~= all);
}

impl Registry {
    /// Every subscription that a message on that subject can reach.
    pub fn reach(&self, subject: &[u8]) -> (r: Vec<Interest>)
        requires
            self.wf(),
        ensures
            interest_views(r@) == self@.reach(subject@),
            forall|k: int| 0 <= k < r@.len() ==> (#[trigger] r@[k])@.sid.len() <= field_limit(),
    {
        broadcast use vstd::std_specs::hash::group_hash_axioms;

        let h = hash_subject(self.seed, subject);
        let mut out: Vec<Interest> = Vec::new();
        assert(interest_views(out@) =~= Seq::empty());
        let ghost order = self.order@;
        proof {
            filter_twice(order, in_bucket(self.seed, h), about(subject@), about(subject@));
            bucket_holds(self.literal@, order, self.seed, h);
        }
        match self.literal.get(&h) {
            Some(list) => {
                select(list, subject, false, &mut out);
                assert(interest_views(out@) =~= order.filter(about(subject@)));
            },
            None => {
                proof {
                    reveal(Seq::filter);
                    assert(order.filter(about(subject@)) =~= Seq::empty());
                }
            },
        }
        select(&self.wildcard, subject, true, &mut out);
        proof {
            filter_keeps(order, about(subject@), false);
            filter_keeps(self@.wildcard, matching(subject@), true);
            let all = self@.reach(subject@);
            assert forall|k: int| 0 <= k < out@.len() implies (#[trigger] out@[k])@.sid.len()
                <= field_limit() by {
                assert(interest_views(out@).len() == out@.len());
                assert(all[k] == out@[k]@);
                let n = order.filter(about(subject@)).len();
                if k < n {
                    assert(all[k] == order.filter(about(subject@))[k]);
                } else {
                    assert(all[k] == self@.wildcard.filter(matching(subject@))[k - n]);
                }
            }
        }
        out
    }

    /// The subscriptions of `cid` that a message on that subject can reach. Used where
    /// nobody answered, to write to the publisher's own inbox subscription.
    pub fn matching_of(&self, cid: u64, subject: &[u8]) -> (r: Vec<Interest>)
        requires
            self.wf(),
        ensures
            interest_views(r@) == self@.reach_of(cid, subject@),
    {
        let reach = self.reach(subject);
        let ghost all = interest_views(reach@);
        let ghost f = held_by(cid);
        let mut out: Vec<Interest> = Vec::new();
        let mut k: usize = 0;
        proof {
            reveal(Seq::filter);
        }
        assert(all.take(0).filter(f) =~= Seq::empty());
        assert(interest_views(out@) =~= Seq::empty());
        while k < reach.len()
            invariant
                k <= reach@.len(),
                all == interest_views(reach@),
                f == held_by(cid),
                interest_views(out@) == all.take(k as int).filter(f),
            decreases reach@.len() - k,
        {
            let ghost was = interest_views(out@);
            proof {
                all.take(k as int).lemma_filter_push(all[k as int], f);
                assert(all.take(k as int).push(all[k as int]) =~= all.take(k + 1));
            }
            if reach[k].cid == cid {
                let one = reach[k].copy();
                out.push(one);
                assert(interest_views(out@) =~= was.push(all[k as int]));
            }
            k += 1;
        }
        assert(all.take(k as int) =~= all);
        out
    }
}

impl Registry {
    /// Draws from the generator that picks in queue groups.
    pub fn draw(&mut self) -> (r: u64)
        requires
            old(self).wf(),
        ensures
            final(self).wf(),
            final(self)@ == old(self)@,
            final(self).rng() == advanced(old(self).rng()),
            r == drawn(old(self).rng()),
    {
        self.rng.next_u64()
    }
}

} // verus!
