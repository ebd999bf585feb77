//! What control lines say, in both directions: a line that is written from its fields is read
//! back as those fields, and means what they say.
use vstd::prelude::*;

use crate::proto::{
    after_blanks, args_of, blank, leading_is, leading_stops, line_end, line_meaning, rest_of, run,
    same_verb, size_value, starts_with_verb, upper, verb_of, End, EventView, HpubOutcome, Limits,
    LineMeaning, ProtoError, StateView, MAX_CONTROL_LINE, MAX_PAYLOAD, UNKNOWN_OP,
};
use crate::routing::{delivery, delivery_line, spaced, status_block, status_frame, MsgView};
use crate::text::{ascii_text, crlf, decimal, decimal_value, is_digit, text, CR, LF, SPACE};
use crate::wire::{
    decimal_is_a_field, fields_are_read_back, is_field, line_ends_there, no_line_end, spaced_all,
    spaced_all_has_no_line_end, spaced_all_of, spaced_all_one, verb_letters,
};

verus! {

/// A line of a verb and fields is split where it was put together, and is taken for no other
/// verb.
proof fn a_verb_takes_its_fields(verb: Seq<u8>, fields: Seq<Seq<u8>>)
    requires
        verb == text("SUB") || verb == text("UNSUB") || verb == text("PUB") || verb == text("HPUB"),
        fields.len() > 0,
        forall|i: int| 0 <= i < fields.len() ==> is_field(#[trigger] fields[i]),
    ensures
        ({
            let line = verb + spaced_all(fields);
            &&& line.len() > 0
            &&& verb_of(line) == verb
            &&& rest_of(line).len() > 0
            &&& args_of(rest_of(line)) == fields
            &&& no_line_end(line)
            &&& !starts_with_verb(line, text("PING"))
            &&& !starts_with_verb(line, text("PONG"))
            &&& !starts_with_verb(line, text("INFO"))
            &&& !starts_with_verb(line, text("CONNECT"))
            &&& !same_verb(verb, text("+OK"))
            &&& !same_verb(verb, text("-ERR"))
        }),
{
    let rest = spaced_all(fields);
    let line = verb + rest;
    verb_letters();
    fields_are_read_back(fields);
    spaced_all_has_no_line_end(fields);
    assert forall|i: int| 0 <= i < line.len() implies #[trigger] line[i] != CR && line[i] != LF by {
        if i < verb.len() {
            assert(line[i] == verb[i]);
        } else {
            assert(line[i] == rest[i - verb.len()]);
        }
    }
    assert(rest[0] == SPACE);
    assert(line[verb.len() as int] == rest[0]);
    assert forall|i: int| 0 <= i < verb.len() implies blank(#[trigger] line[i]) == false by {
        assert(line[i] == verb[i]);
    }
    leading_is(line, false, verb.len());
    assert(verb_of(line) =~= verb);
    assert(rest_of(line) =~= rest);
    assert(line[0] == verb[0] && line[1] == verb[1] && line[2] == verb[2]);
    let four = line.take(4);
    assert(four[0] == line[0] && four[1] == line[1]);
    assert(!starts_with_verb(line, text("PING"))) by {
        assert(upper(four[1]) != upper(text("PING")[1]) || upper(four[0]) != upper(
            text("PING")[0],
        ));
    }
    assert(!starts_with_verb(line, text("PONG"))) by {
        assert(upper(four[1]) != upper(text("PONG")[1]) || upper(four[0]) != upper(
            text("PONG")[0],
        ));
    }
    assert(!starts_with_verb(line, text("INFO"))) by {
        assert(upper(four[0]) != upper(text("INFO")[0]));
    }
    assert(!starts_with_verb(line, text("CONNECT"))) by {
        if line.len() >= 7 {
            assert(line.take(7)[0] == line[0]);
            assert(upper(line.take(7)[0]) != upper(text("CONNECT")[0]));
        }
    }
    assert(!same_verb(verb, text("+OK"))) by {
        assert(verb.len() == 3 ==> upper(verb[0]) != upper(text("+OK")[0]));
    }
    assert(!same_verb(verb, text("-ERR"))) by {
        assert(verb.len() == 4 ==> upper(verb[0]) != upper(text("-ERR")[0]));
    }
}

/// Which of the verbs with fields it is.
proof fn verbs_differ(verb: Seq<u8>)
    requires
        verb == text("SUB") || verb == text("UNSUB") || verb == text("PUB") || verb == text("HPUB"),
    ensures
        same_verb(verb, verb),
        same_verb(verb, text("SUB")) == (verb == text("SUB")),
        same_verb(verb, text("UNSUB")) == (verb == text("UNSUB")),
        same_verb(verb, text("PUB")) == (verb == text("PUB")),
        same_verb(verb, text("HPUB")) == (verb == text("HPUB")),
        text("SUB") != text("PUB"),
        text("SUB").len() == 3,
        text("UNSUB").len() == 5,
        text("PUB").len() == 3,
        text("HPUB").len() == 4,
{
    verb_letters();
    assert(verb.len() == 3 ==> upper(verb[0]) == verb[0]);
    assert(upper(text("SUB")[0]) != upper(text("PUB")[0]));
    if verb == text("SUB") {
        assert(!same_verb(verb, text("PUB"))) by {
            assert(upper(verb[0]) != upper(text("PUB")[0]));
        }
    }
    if verb == text("PUB") {
        assert(!same_verb(verb, text("SUB"))) by {
            assert(upper(verb[0]) != upper(text("SUB")[0]));
        }
    }
}

/// `SUB <subject> <sid>` and `SUB <subject> <queue> <sid>` ask for exactly that subject, that
/// queue group and that id. With fewer or more fields it is no command, and nothing is said.
pub proof fn a_subscribe_is_read_back(
    subject: Seq<u8>,
    queue: Seq<u8>,
    sid: Seq<u8>,
    others: Seq<Seq<u8>>,
    max_payload: u64,
)
    requires
        is_field(subject),
        is_field(queue),
        is_field(sid),
        forall|i: int| 0 <= i < others.len() ==> is_field(#[trigger] others[i]),
        others.len() == 1 || others.len() > 3,
    ensures
        line_meaning(text("SUB") + spaced_all(seq![subject, sid]), max_payload)
            == LineMeaning::Event(EventView::Subscribe { subject, queue: None, sid }),
        line_meaning(text("SUB") + spaced_all(seq![subject, queue, sid]), max_payload)
            == LineMeaning::Event(EventView::Subscribe { subject, queue: Some(queue), sid }),
        line_meaning(text("SUB") + spaced_all(others), max_payload) == LineMeaning::Error(
            ProtoError::Silent,
        ),
{
    let verb = text("SUB");
    verbs_differ(verb);
    a_verb_takes_its_fields(verb, seq![subject, sid]);
    a_verb_takes_its_fields(verb, seq![subject, queue, sid]);
    a_verb_takes_its_fields(verb, others);
}

/// `UNSUB <sid> <n>` asks for an end after `n` messages, for every `n` that nine digits can
/// write. Without a count, and with a count that is none, is no number, or is too long, it
/// asks for an end now. With more fields it is no command, and nothing is said.
pub proof fn an_unsubscribe_is_read_back(
    sid: Seq<u8>,
    n: nat,
    odd: Seq<u8>,
    others: Seq<Seq<u8>>,
    max_payload: u64,
)
    requires
        is_field(sid),
        1 <= n <= 999_999_999,
        is_field(odd),
        odd.len() > 9 || (exists|i: int| 0 <= i < odd.len() && !(0x30 <= #[trigger] odd[i] <= 0x39)),
        forall|i: int| 0 <= i < others.len() ==> is_field(#[trigger] others[i]),
        others.len() > 2,
    ensures
        line_meaning(text("UNSUB") + spaced_all(seq![sid, decimal(n)]), max_payload)
            == LineMeaning::Event(EventView::Unsubscribe { sid, max: n as int }),
        line_meaning(text("UNSUB") + spaced_all(seq![sid]), max_payload) == LineMeaning::Event(
            EventView::Unsubscribe { sid, max: -1 },
        ),
        line_meaning(text("UNSUB") + spaced_all(seq![sid, decimal(0)]), max_payload)
            == LineMeaning::Event(EventView::Unsubscribe { sid, max: -1 }),
        line_meaning(text("UNSUB") + spaced_all(seq![sid, odd]), max_payload)
            == LineMeaning::Event(EventView::Unsubscribe { sid, max: -1 }),
        line_meaning(text("UNSUB") + spaced_all(others), max_payload) == LineMeaning::Error(
            ProtoError::Silent,
        ),
{
    let verb = text("UNSUB");
    verbs_differ(verb);
    decimal_is_a_field(n);
    decimal_is_a_field(0);
    a_verb_takes_its_fields(verb, seq![sid]);
    a_verb_takes_its_fields(verb, seq![sid, decimal(n)]);
    a_verb_takes_its_fields(verb, seq![sid, decimal(0)]);
    a_verb_takes_its_fields(verb, seq![sid, odd]);
    a_verb_takes_its_fields(verb, others);
    odd_is_no_size(odd);
}

/// The fields of a publish: its subject, the reply if there is one, and its sizes.
pub open spec fn publish_fields(
    subject: Seq<u8>,
    reply: Option<Seq<u8>>,
    sizes: Seq<Seq<u8>>,
) -> Seq<Seq<u8>> {
    match reply {
        Some(r) => seq![subject, r] + sizes,
        None => seq![subject] + sizes,
    }
}

proof fn publish_fields_are_fields(
    subject: Seq<u8>,
    reply: Option<Seq<u8>>,
    sizes: Seq<Seq<u8>>,
)
    requires
        is_field(subject),
        reply matches Some(r) ==> is_field(r),
        forall|i: int| 0 <= i < sizes.len() ==> is_field(#[trigger] sizes[i]),
    ensures
        forall|i: int|
            0 <= i < publish_fields(subject, reply, sizes).len() ==> is_field(
                #[trigger] publish_fields(subject, reply, sizes)[i],
            ),
{
    let all = publish_fields(subject, reply, sizes);
    let n = all.len() - sizes.len();
    assert forall|i: int| 0 <= i < all.len() implies is_field(#[trigger] all[i]) by {
        if i >= n {
            assert(all[i] == sizes[i - n]);
        }
    }
}

/// `PUB <subject> [reply] <size>` announces a body of exactly that size, for that subject and
/// with that reply. A size over the limit is told so by its number alone; a size that is no
/// number, and a wrong number of fields, are no command, and nothing is said.
pub proof fn a_publish_line_is_read_back(
    subject: Seq<u8>,
    reply: Option<Seq<u8>>,
    total: nat,
    odd: Seq<u8>,
    others: Seq<Seq<u8>>,
    max_payload: u64,
)
    requires
        is_field(subject),
        reply matches Some(r) ==> is_field(r),
        total <= 999_999_999,
        is_field(odd),
        odd.len() > 9 || (exists|i: int| 0 <= i < odd.len() && !(0x30 <= #[trigger] odd[i] <= 0x39)),
        forall|i: int| 0 <= i < others.len() ==> is_field(#[trigger] others[i]),
        others.len() == 1 || others.len() > 3,
    ensures
        line_meaning(
            text("PUB") + spaced_all(publish_fields(subject, reply, seq![decimal(total)])),
            max_payload,
        ) == if total <= max_payload {
            LineMeaning::Body { subject, reply, hdr: 0, need: total, hpub: false }
        } else {
            LineMeaning::Error(ProtoError::Fatal(MAX_PAYLOAD))
        },
        line_meaning(
            text("PUB") + spaced_all(publish_fields(subject, reply, seq![odd])),
            max_payload,
        ) == LineMeaning::Error(ProtoError::Silent),
        line_meaning(text("PUB") + spaced_all(others), max_payload) == LineMeaning::Error(
            ProtoError::Silent,
        ),
{
    let verb = text("PUB");
    verbs_differ(verb);
    decimal_is_a_field(total);
    let good = publish_fields(subject, reply, seq![decimal(total)]);
    let bad = publish_fields(subject, reply, seq![odd]);
    publish_fields_are_fields(subject, reply, seq![decimal(total)]);
    publish_fields_are_fields(subject, reply, seq![odd]);
    a_verb_takes_its_fields(verb, good);
    a_verb_takes_its_fields(verb, bad);
    a_verb_takes_its_fields(verb, others);
    assert(good[good.len() - 1] == decimal(total) && good[0] == subject);
    assert(bad[bad.len() - 1] == odd);
    odd_is_no_size(odd);
}

proof fn odd_is_no_size(odd: Seq<u8>)
    requires
        odd.len() > 9 || (exists|i: int| 0 <= i < odd.len() && !(0x30 <= #[trigger] odd[i] <= 0x39)),
    ensures
        size_value(odd) == -1,
{
    if odd.len() <= 9 {
        let i = choose|i: int| 0 <= i < odd.len() && !(0x30 <= #[trigger] odd[i] <= 0x39);
        assert(!is_digit(odd[i]));
    }
}

/// A size is one to nine digits, and reads as the number that they write; zeros in front of it
/// change nothing.
pub proof fn a_size_reads_as_its_number(n: nat, s: Seq<u8>)
    requires
        n <= 999_999_999,
        1 <= s.len() <= 8,
        forall|i: int| 0 <= i < s.len() ==> 0x30 <= #[trigger] s[i] <= 0x39,
    ensures
        size_value(decimal(n)) == n,
        size_value(seq![0x30u8] + s) == size_value(s),
        size_value(Seq::empty()) == -1,
{
    decimal_is_a_field(n);
    let zero = seq![0x30u8] + s;
    assert forall|i: int| 0 <= i < zero.len() implies is_digit(#[trigger] zero[i]) by {
        if i > 0 {
            assert(zero[i] == s[i - 1]);
        }
    }
    assert forall|i: int| 0 <= i < s.len() implies is_digit(#[trigger] s[i]) by {}
    a_zero_in_front(s);
}

proof fn a_zero_in_front(s: Seq<u8>)
    ensures
        decimal_value(seq![0x30u8] + s) == decimal_value(s),
    decreases s.len(),
{
    let zero = seq![0x30u8] + s;
    if s.len() == 0 {
        assert(zero.drop_last() =~= Seq::<u8>::empty());
        assert(decimal_value(Seq::<u8>::empty()) == 0);
    } else {
        a_zero_in_front(s.drop_last());
        assert(zero.drop_last() =~= seq![0x30u8] + s.drop_last());
        assert(zero.last() == s.last());
    }
}

/// `HPUB <subject> [reply] <#hdr> <#total>` announces a body of exactly that size, with a header
/// block of that size at its front. A size over the limit is told so; a header block longer
/// than the whole, and a wrong number of fields, are left to the connection to judge.
pub proof fn a_header_publish_line_is_read_back(
    subject: Seq<u8>,
    reply: Option<Seq<u8>>,
    hdr: nat,
    total: nat,
    odd: Seq<u8>,
    others: Seq<Seq<u8>>,
    max_payload: u64,
)
    requires
        is_field(subject),
        reply matches Some(r) ==> is_field(r),
        hdr <= 999_999_999,
        total <= 999_999_999,
        is_field(odd),
        odd.len() > 9 || (exists|i: int| 0 <= i < odd.len() && !(0x30 <= #[trigger] odd[i] <= 0x39)),
        forall|i: int| 0 <= i < others.len() ==> is_field(#[trigger] others[i]),
        1 <= others.len() <= 2 || others.len() > 4,
    ensures
        line_meaning(
            text("HPUB") + spaced_all(
                publish_fields(subject, reply, seq![decimal(hdr), decimal(total)]),
            ),
            max_payload,
        ) == if hdr > total {
            LineMeaning::Event(EventView::HpubAttempt(HpubOutcome::Args))
        } else if total <= max_payload {
            LineMeaning::Body { subject, reply, hdr, need: total, hpub: true }
        } else {
            LineMeaning::Error(ProtoError::Fatal(MAX_PAYLOAD))
        },
        line_meaning(
            text("HPUB") + spaced_all(publish_fields(subject, reply, seq![odd, decimal(total)])),
            max_payload,
        ) == LineMeaning::Event(EventView::HpubAttempt(HpubOutcome::Args)),
        line_meaning(
            text("HPUB") + spaced_all(publish_fields(subject, reply, seq![decimal(hdr), odd])),
            max_payload,
        ) == LineMeaning::Event(EventView::HpubAttempt(HpubOutcome::Args)),
        line_meaning(text("HPUB") + spaced_all(others), max_payload) == LineMeaning::Event(
            EventView::HpubAttempt(HpubOutcome::Args),
        ),
{
    let verb = text("HPUB");
    verbs_differ(verb);
    decimal_is_a_field(total);
    decimal_is_a_field(hdr);
    odd_is_no_size(odd);
    let (h, t) = (decimal(hdr), decimal(total));
    a_header_line_splits(subject, reply, h, t);
    a_header_line_splits(subject, reply, odd, t);
    a_header_line_splits(subject, reply, h, odd);
    a_verb_takes_its_fields(verb, others);
}

proof fn a_header_line_splits(
    subject: Seq<u8>,
    reply: Option<Seq<u8>>,
    h: Seq<u8>,
    t: Seq<u8>,
)
    requires
        is_field(subject),
        reply matches Some(r) ==> is_field(r),
        is_field(h),
        is_field(t),
    ensures
        ({
            let fields = publish_fields(subject, reply, seq![h, t]);
            let line = text("HPUB") + spaced_all(fields);
            &&& fields[0] == subject
            &&& fields[fields.len() - 2] == h
            &&& fields[fields.len() - 1] == t
            &&& reply matches Some(r) ==> fields[1] == r && fields.len() == 4
            &&& reply is None ==> fields.len() == 3
            &&& line.len() > 0
            &&& verb_of(line) == text("HPUB")
            &&& rest_of(line).len() > 0
            &&& args_of(rest_of(line)) == fields
            &&& !starts_with_verb(line, text("PING"))
            &&& !starts_with_verb(line, text("PONG"))
            &&& !starts_with_verb(line, text("INFO"))
            &&& !starts_with_verb(line, text("CONNECT"))
            &&& !same_verb(text("HPUB"), text("+OK"))
            &&& !same_verb(text("HPUB"), text("-ERR"))
        }),
{
    publish_fields_are_fields(subject, reply, seq![h, t]);
    a_verb_takes_its_fields(text("HPUB"), publish_fields(subject, reply, seq![h, t]));
}

/// Some bytes with a verb in front begin with it, whatever they are.
proof fn a_prefix_is_there(verb: Seq<u8>, more: Seq<u8>)
    ensures
        starts_with_verb(verb + more, verb),
        (verb + more).skip(verb.len() as int) == more,
{
    assert((verb + more).take(verb.len() as int) =~= verb);
    assert((verb + more).skip(verb.len() as int) =~= more);
}

/// A line that begins with another letter does not begin with the verb.
proof fn another_letter(line: Seq<u8>, verb: Seq<u8>, i: int)
    requires
        0 <= i < line.len(),
        i < verb.len(),
        upper(line[i]) != upper(verb[i]),
    ensures
        !starts_with_verb(line, verb),
{
    if line.len() >= verb.len() {
        assert(line.take(verb.len() as int)[i] == line[i]);
    }
}

/// `PING` and `PONG` are those whatever follows them on the line.
pub proof fn a_probe_is_a_prefix(more: Seq<u8>, max_payload: u64)
    ensures
        line_meaning(text("PING") + more, max_payload) == LineMeaning::Event(EventView::Ping),
        line_meaning(text("PONG") + more, max_payload) == LineMeaning::Event(EventView::Pong),
{
    verb_letters();
    a_prefix_is_there(text("PING"), more);
    a_prefix_is_there(text("PONG"), more);
    let line = text("PONG") + more;
    assert(line[1] == text("PONG")[1]);
    another_letter(line, text("PING"), 1);
}

/// `CONNECT` and `INFO` take the rest of the line as it is, from its first byte that is no
/// blank; without one they are no command.
pub proof fn an_object_is_the_rest_of_the_line(blanks: Seq<u8>, arg: Seq<u8>, max_payload: u64)
    requires
        forall|i: int| 0 <= i < blanks.len() ==> #[trigger] blanks[i] == 0x20 || blanks[i] == 0x09,
        arg.len() > 0,
        arg[0] != 0x20 && arg[0] != 0x09,
    ensures
        line_meaning(text("CONNECT") + blanks + arg, max_payload) == LineMeaning::Event(
            EventView::Connect(arg),
        ),
        line_meaning(text("INFO") + blanks + arg, max_payload) == LineMeaning::Event(
            EventView::Info(arg),
        ),
        line_meaning(text("CONNECT") + blanks, max_payload) == LineMeaning::Error(
            ProtoError::Silent,
        ),
        line_meaning(text("INFO") + blanks, max_payload) == LineMeaning::Error(ProtoError::Silent),
{
    let none = Seq::<u8>::empty();
    an_object_line(text("CONNECT"), blanks, arg);
    an_object_line(text("CONNECT"), blanks, none);
    an_object_line(text("INFO"), blanks, arg);
    an_object_line(text("INFO"), blanks, none);
    assert(text("CONNECT") + blanks + none =~= text("CONNECT") + blanks);
    assert(text("INFO") + blanks + none =~= text("INFO") + blanks);
}

proof fn an_object_line(verb: Seq<u8>, blanks: Seq<u8>, arg: Seq<u8>)
    requires
        verb == text("CONNECT") || verb == text("INFO"),
        forall|i: int| 0 <= i < blanks.len() ==> #[trigger] blanks[i] == 0x20 || blanks[i] == 0x09,
        arg.len() > 0 ==> arg[0] != 0x20 && arg[0] != 0x09,
    ensures
        ({
            let line = verb + blanks + arg;
            &&& line.len() > 0
            &&& starts_with_verb(line, verb)
            &&& after_blanks(line.skip(verb.len() as int)) == arg
            &&& !starts_with_verb(line, text("PING"))
            &&& !starts_with_verb(line, text("PONG"))
            &&& verb == text("CONNECT") ==> !starts_with_verb(line, text("INFO"))
            &&& !same_verb(verb_of(line), text("+OK"))
            &&& !same_verb(verb_of(line), text("-ERR"))
        }),
{
    verb_letters();
    let more = blanks + arg;
    let line = verb + blanks + arg;
    assert(line =~= verb + more);
    a_prefix_is_there(verb, more);
    assert forall|i: int| 0 <= i < blanks.len() implies blank(#[trigger] more[i]) == true by {
        assert(more[i] == blanks[i]);
    }
    if arg.len() > 0 {
        assert(more[blanks.len() as int] == arg[0]);
    }
    leading_is(more, true, blanks.len());
    assert(after_blanks(more) =~= arg);
    assert(line[0] == verb[0]);
    another_letter(line, text("PING"), 0);
    another_letter(line, text("PONG"), 0);
    if verb == text("CONNECT") {
        another_letter(line, text("INFO"), 0);
    }
    leading_stops(line, false);
    if verb_of(line).len() > 0 {
        assert(verb_of(line)[0] == line[0]);
        assert(upper(line[0]) != upper(text("+OK")[0]));
        assert(upper(line[0]) != upper(text("-ERR")[0]));
    }
}

/// A client's `+OK` is nothing to worry about, whatever follows it; its `-ERR` is an error of
/// its own, but only with something behind it.
pub proof fn a_clients_answers(more: Seq<u8>, max_payload: u64)
    requires
        more.len() > 0,
        more[0] == 0x20 || more[0] == 0x09,
    ensures
        line_meaning(text("+OK"), max_payload) == LineMeaning::Event(EventView::ClientOk),
        line_meaning(text("+OK") + more, max_payload) == LineMeaning::Event(EventView::ClientOk),
        line_meaning(text("-ERR") + more, max_payload) == LineMeaning::Event(EventView::ClientErr),
        line_meaning(text("-ERR"), max_payload) == LineMeaning::Error(
            ProtoError::Fatal(UNKNOWN_OP),
        ),
{
    let none = Seq::<u8>::empty();
    an_answer_line(text("+OK"), none);
    an_answer_line(text("+OK"), more);
    an_answer_line(text("-ERR"), more);
    an_answer_line(text("-ERR"), none);
    assert(text("+OK") + none =~= text("+OK"));
    assert(text("-ERR") + none =~= text("-ERR"));
}

proof fn an_answer_line(verb: Seq<u8>, more: Seq<u8>)
    requires
        verb == text("+OK") || verb == text("-ERR"),
        more.len() > 0 ==> more[0] == 0x20 || more[0] == 0x09,
    ensures
        ({
            let line = verb + more;
            &&& line.len() > 0
            &&& verb_of(line) == verb
            &&& rest_of(line) == more
            &&& same_verb(verb, verb)
            &&& verb == text("-ERR") ==> !same_verb(verb, text("+OK"))
            &&& !starts_with_verb(line, text("PING"))
            &&& !starts_with_verb(line, text("PONG"))
            &&& !starts_with_verb(line, text("INFO"))
        }),
{
    verb_letters();
    let line = verb + more;
    assert forall|i: int| 0 <= i < verb.len() implies blank(#[trigger] line[i]) == false by {
        assert(line[i] == verb[i]);
    }
    if more.len() > 0 {
        assert(line[verb.len() as int] == more[0]);
    }
    leading_is(line, false, verb.len());
    assert(verb_of(line) =~= verb);
    assert(rest_of(line) =~= more);
    assert(line[0] == verb[0]);
    another_letter(line, text("PING"), 0);
    another_letter(line, text("PONG"), 0);
    another_letter(line, text("INFO"), 0);
}

/// A line that begins with no verb there is is an unknown operation, and so are an empty one
/// and a verb that takes fields and has none.
pub proof fn what_is_no_verb_is_unknown(line: Seq<u8>, max_payload: u64)
    requires
        !starts_with_verb(line, text("PING")),
        !starts_with_verb(line, text("PONG")),
        !starts_with_verb(line, text("INFO")),
        !starts_with_verb(line, text("CONNECT")),
        !same_verb(verb_of(line), text("+OK")),
        !same_verb(verb_of(line), text("-ERR")),
        rest_of(line).len() == 0 || {
            &&& !same_verb(verb_of(line), text("SUB"))
            &&& !same_verb(verb_of(line), text("UNSUB"))
            &&& !same_verb(verb_of(line), text("PUB"))
            &&& !same_verb(verb_of(line), text("HPUB"))
        },
    ensures
        line_meaning(line, max_payload) == LineMeaning::Error(ProtoError::Fatal(UNKNOWN_OP)),
{
}

// -------------------------------------------------------------------------- the stream --

/// A line with its end is one command, and what follows is read as if it stood alone: an
/// operation comes out first; a line that is none ends the reading there; a bad `HPUB` comes out
/// and stops it; and a publish waits for its body. A line over the limit is not looked at.
pub proof fn a_line_is_one_command(line: Seq<u8>, rest: Seq<u8>, lim: Limits)
    requires
        no_line_end(line),
    ensures
        ({
            let all = run(StateView::Line, line + crlf() + rest, lim);
            let later = run(StateView::Line, rest, lim);
            if line.len() > lim.max_control_line {
                &&& all.events.len() == 0
                &&& all.end == End::Failed(ProtoError::Fatal(MAX_CONTROL_LINE))
            } else {
                match line_meaning(line, lim.max_payload) {
                    LineMeaning::Error(e) => {
                        &&& all.events.len() == 0
                        &&& all.end == End::Failed(e)
                        &&& all.rest == rest
                    },
                    LineMeaning::Event(ev) => if ev == EventView::HpubAttempt(HpubOutcome::Args) {
                        &&& all.events == seq![ev]
                        &&& all.end is Stopped
                        &&& all.rest == rest
                    } else {
                        &&& all.events == seq![ev] + later.events
                        &&& all.end == later.end
                        &&& all.state == later.state
                        &&& all.rest == later.rest
                    },
                    LineMeaning::Body { subject, reply, hdr, need, hpub } => {
                        let body = run(
                            StateView::Body {
                                subject,
                                reply,
                                hdr,
                                need,
                                hpub,
                                got: Seq::empty(),
                            },
                            rest,
                            lim,
                        );
                        &&& all.events == (if hpub {
                            seq![EventView::HpubAttempt(HpubOutcome::Accepted)]
                        } else {
                            Seq::empty()
                        }) + body.events
                        &&& all.end == body.end
                        &&& all.state == body.state
                        &&& all.rest == body.rest
                    },
                }
            }
        }),
{
    line_ends_there(line, rest);
    let input = line + crlf() + rest;
    if line.len() > 0 {
        assert(input[0] == line[0]);
    } else {
        assert(input[0] == CR);
    }
    assert(rest.len() < input.len());
}

/// Bytes without a line end are kept and waited on, as long as they are not more than sixteen
/// times the longest line; a line feed where a line should start is no line.
pub proof fn an_unfinished_line_waits(part: Seq<u8>, more: Seq<u8>, lim: Limits)
    requires
        no_line_end(part),
    ensures
        ({
            let all = run(StateView::Line, part, lim);
            &&& all.events.len() == 0
            &&& part.len() <= lim.max_control_line * 16 ==> all.end is Waiting && all.rest == part
                && all.state is Line
            &&& part.len() > lim.max_control_line * 16 ==> all.end == End::Failed(
                ProtoError::Fatal(MAX_CONTROL_LINE),
            )
        }),
        ({
            let all = run(StateView::Line, seq![LF] + more, lim);
            all.events.len() == 0 && all.end == End::Failed(ProtoError::Fatal(UNKNOWN_OP))
        }),
{
    no_end_is_found(part);
    assert((seq![LF] + more)[0] == LF);
}

pub(crate) proof fn no_end_is_found(part: Seq<u8>)
    requires
        no_line_end(part),
    ensures
        line_end(part) is None,
    decreases part.len(),
{
    if part.len() >= 2 {
        let less = part.skip(1);
        assert(part[0] != CR);
        assert forall|i: int| 0 <= i < less.len() implies #[trigger] less[i] != CR && less[i]
            != LF by {
            assert(less[i] == part[i + 1]);
        }
        no_end_is_found(less);
    }
}

/// A body is as many bytes as were announced, whatever they are, and comes out with its fields
/// once its line end is there; then the next line is read. Anything else in the place of the line
/// end breaks the frame: a plain publish is an unknown operation, and one with headers is left to
/// the connection to judge.
pub proof fn a_body_is_taken_whole(
    subject: Seq<u8>,
    reply: Option<Seq<u8>>,
    hdr: nat,
    hpub: bool,
    got: Seq<u8>,
    more: Seq<u8>,
    rest: Seq<u8>,
    lim: Limits,
)
    ensures
        ({
            let body = got + more;
            let need = body.len();
            let state = StateView::Body { subject, reply, hdr, need, hpub, got };
            let all = run(state, more + crlf() + rest, lim);
            let later = run(StateView::Line, rest, lim);
            &&& all.events == seq![
                EventView::Publish { subject, reply, hdr, total: need, body, hpub },
            ] + later.events
            &&& all.end == later.end
            &&& all.rest == later.rest
            &&& all.state == later.state
        }),
        ({
            let need = (got + more).len();
            let state = StateView::Body { subject, reply, hdr, need, hpub, got };
            let all = run(state, more + rest, lim);
            let broken = rest.len() > 0 && (rest[0] != CR || rest.len() > 1 && rest[1] != LF);
            &&& broken && !hpub ==> all.events.len() == 0 && all.end == End::Failed(
                ProtoError::Fatal(UNKNOWN_OP),
            )
            &&& broken && hpub ==> all.events == seq![
                EventView::HpubAttempt(HpubOutcome::Frame(UNKNOWN_OP)),
            ] && all.end is Stopped
            &&& rest.len() == 0 || rest == seq![CR] ==> {
                &&& all.events.len() == 0
                &&& all.end is Waiting
                &&& all.rest == rest
                &&& all.state == StateView::Body {
                    subject,
                    reply,
                    hdr,
                    need,
                    hpub,
                    got: got + more,
                }
            }
        }),
{
    let n = more.len() as int;
    let whole = more + crlf() + rest;
    assert(whole.take(n) =~= more);
    assert(whole.skip(n) =~= crlf() + rest);
    assert(whole.skip(n).skip(2) =~= rest);
    let part = more + rest;
    assert(part.take(n) =~= more);
    assert(part.skip(n) =~= rest);
}

/// A body that has not all arrived yet is kept and waited on.
pub proof fn an_unfinished_body_waits(
    subject: Seq<u8>,
    reply: Option<Seq<u8>>,
    hdr: nat,
    need: nat,
    hpub: bool,
    got: Seq<u8>,
    more: Seq<u8>,
    lim: Limits,
)
    requires
        got.len() + more.len() < need,
    ensures
        ({
            let all = run(
                StateView::Body { subject, reply, hdr, need, hpub, got },
                more,
                lim,
            );
            &&& all.events.len() == 0
            &&& all.end is Waiting
            &&& all.rest.len() == 0
            &&& all.state == StateView::Body { subject, reply, hdr, need, hpub, got: got + more }
        }),
{
    assert(more.take(more.len() as int) =~= more);
}

// ------------------------------------------------------------------------ deliveries --

/// A verb and its fields are a line that falls into just these.
proof fn a_line_splits(verb: Seq<u8>, fields: Seq<Seq<u8>>)
    requires
        is_field(verb),
        forall|i: int| 0 <= i < fields.len() ==> is_field(#[trigger] fields[i]),
    ensures
        args_of(verb + spaced_all(fields)) == seq![verb] + fields,
        no_line_end(verb + spaced_all(fields)),
{
    let all = seq![verb] + fields;
    let line = verb + spaced_all(fields);
    assert forall|i: int| 0 <= i < all.len() implies is_field(#[trigger] all[i]) by {
        if i > 0 {
            assert(all[i] == fields[i - 1]);
        }
    }
    fields_are_read_back(all);
    spaced_all_of(seq![verb], fields);
    spaced_all_one(verb);
    let s = spaced_all(all);
    assert(s =~= seq![SPACE] + line);
    assert(line[0] == verb[0] && s[1] == line[0] && s[0] == SPACE);
    leading_is(s, true, 1);
    leading_is(line, true, 0);
    assert(after_blanks(s) =~= line);
    assert(after_blanks(line) =~= line);
    spaced_all_has_no_line_end(fields);
    assert forall|i: int| 0 <= i < line.len() implies #[trigger] line[i] != CR && line[i] != LF by {
        if i < verb.len() {
            assert(line[i] == verb[i]);
        } else {
            assert(line[i] == spaced_all(fields)[i - verb.len()]);
        }
    }
}

/// Two sizes or fewer, each with the space before it.
proof fn two_spaced(a: Seq<u8>, b: Seq<u8>)
    ensures
        spaced_all(seq![a, b]) == spaced(a) + spaced(b),
{
    spaced_all_of(seq![a], seq![b]);
    spaced_all_one(a);
    spaced_all_one(b);
    assert(seq![a] + seq![b] =~= seq![a, b]);
}

/// The fields behind the verb of a delivery.
spec fn delivered_fields(
    subject: Seq<u8>,
    sid: Seq<u8>,
    reply: Option<Seq<u8>>,
    sizes: Seq<Seq<u8>>,
) -> Seq<Seq<u8>> {
    seq![subject, sid] + (match reply {
        Some(r) => seq![r],
        None => Seq::empty(),
    }) + sizes
}

proof fn delivered_fields_are_spaced(
    subject: Seq<u8>,
    sid: Seq<u8>,
    reply: Option<Seq<u8>>,
    sizes: Seq<Seq<u8>>,
)
    requires
        is_field(subject),
        is_field(sid),
        reply matches Some(r) ==> is_field(r),
        forall|i: int| 0 <= i < sizes.len() ==> is_field(#[trigger] sizes[i]),
    ensures
        forall|i: int|
            0 <= i < delivered_fields(subject, sid, reply, sizes).len() ==> is_field(
                #[trigger] delivered_fields(subject, sid, reply, sizes)[i],
            ),
        spaced_all(delivered_fields(subject, sid, reply, sizes)) == spaced(subject) + spaced(sid)
            + (match reply {
            Some(r) => spaced(r),
            None => Seq::empty(),
        }) + spaced_all(sizes),
{
    let all = delivered_fields(subject, sid, reply, sizes);
    let middle: Seq<Seq<u8>> = match reply {
        Some(r) => seq![r],
        None => Seq::empty(),
    };
    let n = 2 + middle.len();
    assert forall|i: int| 0 <= i < all.len() implies is_field(#[trigger] all[i]) by {
        if i >= n {
            assert(all[i] == sizes[i - n]);
        }
    }
    spaced_all_of(seq![subject, sid] + middle, sizes);
    spaced_all_of(seq![subject, sid], middle);
    two_spaced(subject, sid);
    match reply {
        Some(r) => {
            spaced_all_one(r);
        },
        None => {
            assert(spaced_all(middle) =~= Seq::empty());
        },
    }
}

/// The verbs of a delivery, with the space behind them and without.
proof fn delivery_verbs()
    ensures
        text("MSG ") == text("MSG") + seq![SPACE],
        text("HMSG ") == text("HMSG") + seq![SPACE],
        is_field(text("MSG")),
        is_field(text("HMSG")),
        text("MSG") == seq![0x4du8, 0x53u8, 0x47u8],
        text("HMSG") == seq![0x48u8, 0x4du8, 0x53u8, 0x47u8],
{
    reveal_strlit("MSG ");
    reveal_strlit("HMSG ");
    reveal_strlit("MSG");
    reveal_strlit("HMSG");
    ascii_text("MSG ");
    ascii_text("HMSG ");
    ascii_text("MSG");
    ascii_text("HMSG");
    assert(text("MSG") =~= seq![0x4du8, 0x53u8, 0x47u8]);
    assert(text("HMSG") =~= seq![0x48u8, 0x4du8, 0x53u8, 0x47u8]);
    assert(text("MSG ") =~= text("MSG") + seq![SPACE]);
    assert(text("HMSG ") =~= text("HMSG") + seq![SPACE]);
}

/// A delivery is read back as it was meant, whatever its body: up to its first line end stand
/// the verb, the subject, the subscriber's id, the reply where the message has one, the size of
/// the header block where one goes out, and the size of what follows; then come just so many
/// bytes of the message, and a line end. A subscriber that did not ask for headers gets what is
/// behind the block.
pub proof fn a_delivery_is_read_back(sid: Seq<u8>, headers: bool, msg: MsgView)
    requires
        is_field(sid),
        is_field(msg.subject),
        msg.reply matches Some(r) ==> is_field(r),
        msg.hdr <= msg.body.len() <= 999_999_999,
    ensures
        ({
            let frame = delivery(sid, headers, msg);
            let end = line_end(frame)->0;
            let fields = args_of(frame.take(end));
            let n = fields.len() as int;
            let block = headers && msg.hdr > 0;
            let body = if headers {
                msg.body
            } else {
                msg.body.skip(msg.hdr as int)
            };
            &&& line_end(frame) is Some
            &&& n == 4 + (if msg.reply is Some {
                1int
            } else {
                0
            }) + (if block {
                1int
            } else {
                0
            })
            &&& fields[0] == if block {
                text("HMSG")
            } else {
                text("MSG")
            }
            &&& fields[1] == msg.subject
            &&& fields[2] == sid
            &&& msg.reply matches Some(r) ==> fields[3] == r
            &&& block ==> fields[n - 2] == decimal(msg.hdr)
            &&& fields[n - 1] == decimal(body.len())
            &&& frame.skip(end + 2) == body + crlf()
        }),
{
    let block = headers && msg.hdr > 0;
    let body = msg.body_for(headers);
    let verb = if block {
        text("HMSG")
    } else {
        text("MSG")
    };
    let sizes = if block {
        seq![decimal(msg.hdr), decimal(body.len())]
    } else {
        seq![decimal(body.len())]
    };
    delivery_verbs();
    decimal_is_a_field(msg.hdr);
    decimal_is_a_field(body.len());
    delivered_fields_are_spaced(msg.subject, sid, msg.reply, sizes);
    if block {
        two_spaced(decimal(msg.hdr), decimal(body.len()));
    } else {
        spaced_all_one(decimal(body.len()));
    }
    let rest = delivered_fields(msg.subject, sid, msg.reply, sizes);
    let line = delivery_line(sid, headers, msg);
    assert(line =~= verb + spaced_all(rest));
    a_line_splits(verb, rest);
    let frame = delivery(sid, headers, msg);
    assert(frame =~= line + crlf() + (body + crlf()));
    line_ends_there(line, body + crlf());
    assert((seq![verb] + rest)[1] == rest[0]);
}

/// The word that nobody answered is read back as a message to the inbox that is nothing but a
/// header block: to the subscriber's id, with both sizes those of the block, and in the block
/// the status and the subject that nobody heard.
pub proof fn a_status_is_read_back(reply: Seq<u8>, sid: Seq<u8>, published: Seq<u8>)
    requires
        is_field(reply),
        is_field(sid),
        published.len() + 32 <= 999_999_999,
    ensures
        ({
            let frame = status_frame(reply, sid, published);
            let end = line_end(frame)->0;
            let block = text("NATS/1.0 503") + crlf() + text("Nats-Subject: ") + published + crlf()
                + crlf();
            &&& line_end(frame) is Some
            &&& args_of(frame.take(end)) == seq![
                text("HMSG"),
                reply,
                sid,
                decimal(block.len()),
                decimal(block.len()),
            ]
            &&& frame.skip(end + 2) == block + crlf()
        }),
{
    let block = status_block(published);
    let len = decimal(block.len());
    crate::routing::status_block_length(published);
    reveal_strlit("NATS/1.0 503\r\nNats-Subject: ");
    reveal_strlit("NATS/1.0 503");
    reveal_strlit("Nats-Subject: ");
    reveal_strlit("\r\n\r\n");
    ascii_text("NATS/1.0 503\r\nNats-Subject: ");
    ascii_text("NATS/1.0 503");
    ascii_text("Nats-Subject: ");
    ascii_text("\r\n\r\n");
    assert(text("NATS/1.0 503\r\nNats-Subject: ") =~= text("NATS/1.0 503") + crlf() + text(
        "Nats-Subject: ",
    ));
    assert(text("\r\n\r\n") =~= crlf() + crlf());
    let plain = text("NATS/1.0 503") + crlf() + text("Nats-Subject: ") + published + crlf()
        + crlf();
    assert(block =~= plain);
    delivery_verbs();
    decimal_is_a_field(block.len());
    let verb = text("HMSG");
    delivered_fields_are_spaced(reply, sid, None, seq![len, len]);
    two_spaced(len, len);
    let rest = delivered_fields(reply, sid, None, seq![len, len]);
    let line = verb + spaced_all(rest);
    a_line_splits(verb, rest);
    let frame = status_frame(reply, sid, published);
    assert(frame =~= line + crlf() + (block + crlf()));
    line_ends_there(line, block + crlf());
    assert(seq![verb] + rest =~= seq![verb, reply, sid, len, len]);
}

} // verus!
