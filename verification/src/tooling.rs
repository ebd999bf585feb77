//! What the tools around the server read and write: addresses, identifiers, counters, and what a
//! client makes of the bytes that it gets.
use vstd::prelude::*;

use crate::allocstats::{
    a_bucket_is_a_power_of_two, apart, bits, bucket_of, hist_text, site_name, tagged, tags_text,
};
use crate::chars::integer_value;
use crate::config::{decimal_chars, task_of, Task};
use crate::flood::{
    a_delivery_is_one_message, drained_by, filler, first_byte, first_byte_fits, first_byte_is,
    flooded_addr, frame_at, frames_fit, frames_per_write, handshake_of, holds_bytes, one_line,
    repeated, repeated_len, scanned, started, without_scheme, FrameView, Handshake, Publisher,
    PushEvent, Receipt, ScanEndView, ScanView, Start, Watch,
};
use crate::harness::{
    address_text, authority, decimal_chars_are_digits, last_at, last_is, no_slashes, plain_host,
    ports_in, readiness, PortsView, Ready,
};
use crate::net::{asked_port, bound_host, named_port, signed_chars};
use crate::nuid::{
    advanced, advanced_by, drawn, identifier, plus, rotated, seeded, times, ALPHABET,
};
use crate::reading::no_end_is_found;
use crate::routing::{delivery, MsgView};
use crate::server::Server;
use crate::settings::{a_numeral, no_digit_in_front};
use crate::text::{ascii_text, crlf, text, CR, LF, SPACE};
use crate::wire::{
    barrier_of, first_line, header_lines, line_ends_there, no_line_end, payload, Barrier,
};

verus! {

// ------------------------------------------------------------------------ addresses --

/// `::` and `*` stand for every interface, like `0.0.0.0`; any other host is itself.
pub proof fn which_host_is_bound(host: Seq<char>)
    ensures
        bound_host("::"@) == "0.0.0.0"@,
        bound_host("*"@) == "0.0.0.0"@,
        host != "::"@ && host != "*"@ ==> bound_host(host) == host,
        bound_host(bound_host(host)) == bound_host(host),
{
    reveal_strlit("0.0.0.0");
    reveal_strlit("::");
    reveal_strlit("*");
    assert("0.0.0.0"@.len() == 7 && "::"@.len() == 2 && "*"@.len() == 1);
}

/// A port that is not set is 4222, -1 asks for any, and every other port is itself.
pub proof fn which_port_is_asked_for(port: i32)
    ensures
        asked_port(0) == 4222,
        port == -1 ==> asked_port(port) == 0,
        port != 0 && port != -1 ==> asked_port(port) == port,
{
}

/// A number with its sign reads as that number.
pub proof fn a_signed_number_is_read_back(n: int)
    requires
        i64::MIN < n <= i64::MAX,
    ensures
        integer_value(signed_chars(n), 10) == Some(n),
{
    if n < 0 {
        reveal_strlit("-");
        a_numeral((-n) as nat);
        let s = signed_chars(n);
        assert(s[0] == '-');
        assert(s.skip(1) =~= decimal_chars((-n) as nat));
    } else {
        a_numeral(n as nat);
    }
}

/// An address without a scheme names its host and its port too; one without a colon is no
/// address, and a port that is no number up to 65535 is not there yet.
pub proof fn what_an_address_names(host: Seq<char>, port: u16, large: nat, word: Seq<char>)
    requires
        plain_host(host),
        large > 65535,
        forall|i: int| 0 <= i < word.len() ==> #[trigger] word[i] != '/' && word[i] != ':',
        word.len() > 0 ==> word[0] != '+' && !(0x30 <= word[0] as u32 <= 0x39),
    ensures
        ports_in(Some(address_text(host, port as nat))) == PortsView::Found(host, port as nat),
        ports_in(Some(address_text(host, large))) is NotYet,
        ports_in(Some(word)) == PortsView::BadUrl("bad ports url: "@ + word),
        ports_in(Some(host + seq![':'] + word)) is NotYet,
        ports_in(None) is NotYet,
{
    reveal_strlit(":");
    assert(":"@ =~= seq![':']);
    let (d, e) = (decimal_chars(port as nat), decimal_chars(large));
    decimal_chars_are_digits(port as nat);
    decimal_chars_are_digits(large);
    a_numeral(port as nat);
    a_numeral(large);
    assert(d[0] != '+' && e[0] != '+') by {
        assert(d[0] as u32 >= 0x30 && e[0] as u32 >= 0x30);
    }
    an_address_splits(host, d);
    an_address_splits(host, e);
    an_address_splits(host, word);
    assert(address_text(host, port as nat) =~= host + seq![':'] + d);
    assert(address_text(host, large) =~= host + seq![':'] + e);
    if word.len() > 0 {
        no_digit_in_front(word);
    }
    no_slashes(word);
    nothing_stands_last(word, ':');
}

proof fn an_address_splits(host: Seq<char>, port: Seq<char>)
    requires
        plain_host(host),
        forall|i: int| 0 <= i < port.len() ==> #[trigger] port[i] != '/' && port[i] != ':',
    ensures
        ({
            let a = host + seq![':'] + port;
            &&& authority(a) == a
            &&& last_at(a, ':') == Some(host.len() as int)
            &&& a.take(host.len() as int) == host
            &&& a.skip(host.len() as int + 1) == port
        }),
{
    let a = host + seq![':'] + port;
    let n = host.len() as int;
    assert forall|i: int| 0 <= i < a.len() implies #[trigger] a[i] != '/' by {
        if i < n {
            assert(a[i] == host[i]);
        } else if i > n {
            assert(a[i] == port[i - n - 1]);
        }
    }
    no_slashes(a);
    assert(a[n] == ':');
    assert forall|i: int| n < i < a.len() implies #[trigger] a[i] != ':' by {
        assert(a[i] == port[i - n - 1]);
    }
    last_is(a, ':', n);
    assert(a.take(n) =~= host);
    assert(a.skip(n + 1) =~= port);
}

proof fn nothing_stands_last(s: Seq<char>, c: char)
    requires
        forall|i: int| 0 <= i < s.len() ==> #[trigger] s[i] != c,
    ensures
        last_at(s, c) is None,
    decreases s.len(),
{
    if s.len() > 0 {
        assert(s.last() == s[s.len() - 1]);
        assert forall|i: int| 0 <= i < s.drop_last().len() implies #[trigger] s.drop_last()[i]
            != c by {
            assert(s.drop_last()[i] == s[i]);
        }
        nothing_stands_last(s.drop_last(), c);
    }
}

/// The scheme is taken off an address as often as it is there, and nothing else is.
pub proof fn a_scheme_is_taken_off(s: Seq<char>)
    ensures
        without_scheme("nats://"@ + s) == without_scheme(s),
        !"nats://"@.is_prefix_of(s) ==> without_scheme(s) == s,
{
    reveal_strlit("nats://");
    let all = "nats://"@ + s;
    assert("nats://"@ =~= all.subrange(0, 7));
    assert(all.skip(7) =~= s);
}

// ---------------------------------------------------------------- numbers and names --

/// Sums and products that fit are what they are; a counter that is full starts over.
pub proof fn counters_count(a: u64, b: u64)
    ensures
        a + b <= u64::MAX ==> plus(a, b) == a + b,
        a + b > u64::MAX ==> plus(a, b) == a + b - 0x1_0000_0000_0000_0000,
        a * b <= u64::MAX ==> times(a, b) == a * b,
        plus(a, 0) == a,
        times(a, 1) == a,
{
    if a * b <= u64::MAX {
        assert(0 <= a * b) by (nonlinear_arith);
        vstd::arithmetic::div_mod::lemma_small_mod((a * b) as nat, 0x1_0000_0000_0000_0000);
    }
}

/// A word that is turned all the way round is itself again.
pub proof fn a_word_turns_round(x: u64, n: u64)
    requires
        0 < n < 64,
    ensures
        rotated(rotated(x, n), (64 - n) as u64) == x,
{
    let m = (64 - n) as u64;
    assert(((((x << n) | (x >> m)) << m) | (((x << n) | (x >> m)) >> n)) == x) by (bit_vector)
        requires
            0 < n < 64,
            m == 64 - n,
    ;
    assert((64 - m) as u64 == n);
    assert((64 - n) as u64 == m);
}

/// Two different states of a generator stay different.
pub proof fn states_stay_apart(a: u64, b: u64)
    requires
        a != b,
    ensures
        advanced(a) != advanced(b),
{
}

/// A product by a number that has an inverse can be undone.
proof fn a_product_is_undone(a: u64, c: u64, inverse: u64)
    requires
        (c * inverse) % 0x1_0000_0000_0000_0000 == 1,
    ensures
        times(times(a, c), inverse) == a,
{
    let m = 0x1_0000_0000_0000_0000int;
    let (x, y, z) = (a as int, c as int, inverse as int);
    vstd::arithmetic::div_mod::lemma_mod_bound(x * y, m);
    vstd::arithmetic::div_mod::lemma_mul_mod_noop_left(x * y, z, m);
    assert(times(a, c) == (x * y) % m);
    vstd::arithmetic::mul::lemma_mul_is_associative(x, y, z);
    vstd::arithmetic::div_mod::lemma_mul_mod_noop_right(x, y * z, m);
    assert(x * 1 == x);
    vstd::arithmetic::div_mod::lemma_small_mod(a as nat, m as nat);
}

proof fn products_differ(a: u64, b: u64, c: u64, inverse: u64)
    requires
        (c * inverse) % 0x1_0000_0000_0000_0000 == 1,
        a != b,
    ensures
        times(a, c) != times(b, c),
{
    a_product_is_undone(a, c, inverse);
    a_product_is_undone(b, c, inverse);
}

/// A generator in another state draws another number, and another seed gives another state: of
/// all numbers, none comes up more often than any other.
pub proof fn draws_tell_states_apart(a: u64, b: u64)
    requires
        a != b,
    ensures
        drawn(a) != drawn(b),
        seeded(a) != seeded(b),
{
    let (p, q) = (advanced(a), advanced(b));
    states_stay_apart(a, b);
    let (p1, q1) = (p ^ (p >> 30), q ^ (q >> 30));
    assert(p ^ (p >> 30) == q ^ (q >> 30) ==> p == q) by (bit_vector);
    assert(0xBF58_476D_1CE4_E5B9 * 0x96de_1b17_3f11_9089 % 0x1_0000_0000_0000_0000 == 1);
    products_differ(p1, q1, 0xBF58_476D_1CE4_E5B9, 0x96de_1b17_3f11_9089);
    let (p2, q2) = (times(p1, 0xBF58_476D_1CE4_E5B9), times(q1, 0xBF58_476D_1CE4_E5B9));
    assert(p2 ^ (p2 >> 27) == q2 ^ (q2 >> 27) ==> p2 == q2) by (bit_vector);
    let (p3, q3) = (p2 ^ (p2 >> 27), q2 ^ (q2 >> 27));
    assert(0x94D0_49BB_1331_11EB * 0x3196_42b2_d24d_8ec3 % 0x1_0000_0000_0000_0000 == 1);
    products_differ(p3, q3, 0x94D0_49BB_1331_11EB, 0x3196_42b2_d24d_8ec3);
    let (p4, q4) = (times(p3, 0x94D0_49BB_1331_11EB), times(q3, 0x94D0_49BB_1331_11EB));
    assert(p4 ^ (p4 >> 31) == q4 ^ (q4 >> 31) ==> p4 == q4) by (bit_vector);
    assert(0x9E37_79B9_7F4A_7C15 * 0xf1de_83e1_9937_733d % 0x1_0000_0000_0000_0000 == 1);
    products_differ(a, b, 0x9E37_79B9_7F4A_7C15, 0xf1de_83e1_9937_733d);
    let (x, y) = (times(a, 0x9E37_79B9_7F4A_7C15), times(b, 0x9E37_79B9_7F4A_7C15));
    a_word_turns_round(x, 17);
    a_word_turns_round(y, 17);
}

/// An identifier is 56 characters: an `N`, and then capitals and the digits from two to seven.
pub proof fn the_shape_of_an_identifier(state: u64)
    ensures
        identifier(state).len() == 56,
        identifier(state)[0] == 'N',
        forall|i: int|
            0 <= i < 56 ==> {
                let c = #[trigger] identifier(state)[i] as u32;
                0x41 <= c <= 0x5a || 0x32 <= c <= 0x37
            },
{
    reveal_strlit("ABCDEFGHIJKLMNOPQRSTUVWXYZ234567");
    assert forall|k: int| 0 <= k < 32 implies {
        let c = #[trigger] ALPHABET@[k] as u32;
        0x41 <= c <= 0x5a || 0x32 <= c <= 0x37
    } by {}
}

/// The states of a generator follow one another from wherever one starts.
proof fn one_draw_first(state: u64, n: nat)
    ensures
        advanced_by(state, n + 1) == advanced_by(advanced(state), n),
    decreases n,
{
    reveal_with_fuel(advanced_by, 2);
    if n > 0 {
        one_draw_first(state, (n - 1) as nat);
    }
}

/// Each character of an identifier behind the first is a draw of its own: a generator that is one
/// draw ahead gives the same characters, one place earlier.
pub proof fn identifiers_follow_the_draws(state: u64, i: int)
    requires
        1 <= i < 55,
    ensures
        identifier(state)[1] == ALPHABET@[(drawn(state) % 32) as int],
        identifier(state)[i + 1] == identifier(advanced(state))[i],
{
    one_draw_first(state, (i - 1) as nat);
    assert(advanced_by(state, 0) == state);
}

/// The distance between two counters is the same from either side, none just where they agree,
/// and what was counted on top of one of them.
pub proof fn how_far_counters_are_apart(a: u64, b: u64, d: u64)
    requires
        d <= 0x8000_0000_0000_0000,
    ensures
        apart(a, b) == apart(b, a),
        apart(a, b) == 0 <==> a == b,
        0 <= apart(a, b) <= 0x8000_0000_0000_0000,
        apart(plus(b, d), b) == d,
{
}

/// Some counts, added up.
pub open spec fn total(counts: Seq<u64>) -> nat
    decreases counts.len(),
{
    if counts.len() == 0 {
        0
    } else {
        total(counts.drop_last()) + counts.last() as nat
    }
}

/// What the tags account for is their sum, as long as a counter can hold it.
pub proof fn the_tags_add_up(counts: Seq<u64>, n: nat)
    requires
        n <= counts.len(),
        total(counts.take(n as int)) <= u64::MAX,
    ensures
        tagged(counts, n as int) == total(counts.take(n as int)),
    decreases n,
{
    if n > 0 {
        let all = counts.take(n as int);
        assert(all.drop_last() =~= counts.take(n - 1));
        assert(all.last() == counts[n - 1]);
        the_tags_add_up(counts, (n - 1) as nat);
    }
}

/// Does the line say that, between spaces or at its end?
pub open spec fn line_says(line: Seq<char>, words: Seq<char>) -> bool {
    exists|a: Seq<char>, b: Seq<char>|
        line == #[trigger] (a + words + b) && (b.len() == 0 || b[0] == ' ')
}

/// A line that says something goes on saying it when more follows behind a space.
proof fn it_is_still_said(line: Seq<char>, words: Seq<char>, more: Seq<char>)
    requires
        line_says(line, words),
        more.len() > 0 ==> more[0] == ' ',
    ensures
        line_says(line + more, words),
{
    let (a, b) = choose|a: Seq<char>, b: Seq<char>|
        line == #[trigger] (a + words + b) && (b.len() == 0 || b[0] == ' ');
    assert(line + more =~= a + words + (b + more));
    if b.len() > 0 {
        assert((b + more)[0] == b[0]);
    } else if more.len() > 0 {
        assert((b + more)[0] == more[0]);
    }
}

/// The count of each site is told under its name, zero or not.
pub proof fn each_count_is_told(counts: Seq<u64>, n: int, k: int)
    requires
        0 <= k < n <= counts.len(),
    ensures
        line_says(
            tags_text(counts, n),
            " "@ + site_name(k) + "="@ + decimal_chars(counts[k] as nat),
        ),
    decreases n,
{
    reveal_strlit(" ");
    let before = tags_text(counts, n - 1);
    let last = " "@ + site_name(n - 1) + "="@ + decimal_chars(counts[n - 1] as nat);
    assert(tags_text(counts, n) =~= before + last);
    if k == n - 1 {
        assert(before + last =~= before + last + Seq::<char>::empty());
    } else {
        each_count_is_told(counts, n - 1, k);
        assert(last[0] == ' ');
        it_is_still_said(
            before,
            " "@ + site_name(k) + "="@ + decimal_chars(counts[k] as nat),
            last,
        );
    }
}

/// The sites have their own names.
pub proof fn the_names_of_the_sites()
    ensures
        site_name(0) == "read_buf"@,
        site_name(1) == "events"@,
        site_name(2) == "frame_chunk"@,
        site_name(3) == "payload"@,
        site_name(4) == "subscribe"@,
        site_name(5) == "control_line"@,
        site_name(6) == "connection"@,
        site_name(7) == "routing"@,
        site_name(8) == "other"@,
{
}

/// A bucket that holds anything is told with its power of two; empty ones are left out, and of
/// nothing at all only the head of the line is left.
pub proof fn each_bucket_is_told(counts: Seq<u64>, n: int, k: int)
    requires
        0 <= k < n <= counts.len(),
    ensures
        counts[k] > 0 ==> line_says(
            hist_text(counts, n),
            " 2^"@ + decimal_chars(k as nat) + "="@ + decimal_chars(counts[k] as nat),
        ),
        (forall|j: int| 0 <= j < n ==> #[trigger] counts[j] == 0) ==> hist_text(counts, n)
            == "allochist"@,
        counts[n - 1] == 0 ==> hist_text(counts, n) == hist_text(counts, n - 1),
    decreases n,
{
    reveal_strlit(" 2^");
    let before = hist_text(counts, n - 1);
    let last = " 2^"@ + decimal_chars((n - 1) as nat) + "="@ + decimal_chars(
        counts[n - 1] as nat,
    );
    if counts[n - 1] > 0 {
        assert(hist_text(counts, n) =~= before + last);
    }
    if n > 1 {
        each_bucket_is_told(counts, n - 1, if k < n - 1 { k } else { 0 });
    }
    if counts[k] > 0 {
        if k == n - 1 {
            assert(before + last =~= before + last + Seq::<char>::empty());
        } else {
            let none = Seq::<char>::empty();
            let more = if counts[n - 1] > 0 {
                last
            } else {
                none
            };
            assert(hist_text(counts, n) =~= before + more);
            if counts[n - 1] > 0 {
                assert(last[0] == ' ');
            }
            it_is_still_said(
                before,
                " 2^"@ + decimal_chars(k as nat) + "="@ + decimal_chars(counts[k] as nat),
                more,
            );
        }
    }
}

// ------------------------------------------------------------------------ flooding --

/// Frames one after the other are as many as were asked for, one behind the other.
pub proof fn frames_are_repeated(frame: Seq<u8>, few: nat, more: nat)
    ensures
        repeated(frame, 0).len() == 0,
        repeated(frame, 1) == frame,
        repeated(frame, few + more) == repeated(frame, few) + repeated(frame, more),
        repeated(frame, few).len() == few * frame.len(),
    decreases more,
{
    repeated_len(frame, few);
    reveal_with_fuel(repeated, 2);
    assert(repeated(frame, 1) =~= frame);
    if more == 0 {
        assert(repeated(frame, few) + repeated(frame, 0) =~= repeated(frame, few));
    } else {
        frames_are_repeated(frame, few, (more - 1) as nat);
        let less = (more - 1) as nat;
        assert(few + more - 1 == few + less);
        assert(repeated(frame, few) + repeated(frame, less) + frame =~= repeated(frame, few) + (
        repeated(frame, less) + frame));
    }
}

/// One write takes as many frames as the wanted bytes hold, and at least one.
pub proof fn how_many_frames_a_write_takes(wanted: nat, len: nat)
    requires
        len > 0,
    ensures
        ({
            let n = frames_per_write(wanted, len);
            &&& n >= 1
            &&& n == 1 || n * len <= wanted
            &&& (n + 1) * len > wanted
        }),
{
    let q = wanted / len;
    vstd::arithmetic::div_mod::lemma_fundamental_div_mod(wanted as int, len as int);
    vstd::arithmetic::div_mod::lemma_mod_bound(wanted as int, len as int);
    assert((q + 1) * len == len * q + len) by (nonlinear_arith);
    assert(q * len == len * q) by (nonlinear_arith);
    if q == 0 {
        assert(len * q == 0) by (nonlinear_arith)
            requires
                q == 0,
        ;
        assert(2 * len > wanted);
    }
}

/// A body of filling is as long as was asked for, and one letter throughout.
pub proof fn filling_is_one_letter(size: nat, i: int)
    requires
        0 <= i < size,
    ensures
        filler(size).len() == size,
        filler(size)[i] == 'x' as u8,
{
}

/// Header lines come one after the other, each with its own line end.
pub proof fn header_lines_are_in_order(a: Seq<&str>, b: Seq<&str>, line: &str)
    ensures
        header_lines(a + b) == header_lines(a) + header_lines(b),
        header_lines(seq![line]) == text(line) + crlf(),
        header_lines(Seq::empty()).len() == 0,
    decreases b.len(),
{
    reveal_with_fuel(header_lines, 2);
    assert(seq![line].drop_last() =~= Seq::<&str>::empty());
    assert(header_lines(seq![line]) =~= text(line) + crlf());
    if b.len() == 0 {
        assert(a + b =~= a);
        assert(header_lines(a) + header_lines(b) =~= header_lines(a));
    } else {
        header_lines_are_in_order(a, b.drop_last(), line);
        assert((a + b).drop_last() =~= a + b.drop_last());
        assert((a + b).last() == b.last());
        assert(header_lines(a + b) =~= header_lines(a) + header_lines(b));
    }
}

/// What a client makes of a line that is no delivery: a `PING` is to be answered, `-ERR` refuses
/// and is kept whole, and anything else is stepped over whole. Bytes without a line end are waited
/// on.
pub proof fn what_a_client_makes_of_a_line(verb: Seq<u8>, tail: Seq<u8>, rest: Seq<u8>)
    requires
        one_line(verb),
        one_line(tail),
        forall|i: int| 0 <= i < verb.len() ==> #[trigger] verb[i] != SPACE,
        tail.len() > 0 ==> tail[0] == SPACE,
        verb != text("MSG"),
        verb != text("HMSG"),
    ensures
        frame_at(verb + tail + crlf() + rest) == if verb == text("PING") {
            FrameView::Ping
        } else if verb == text("-ERR") {
            FrameView::Refused(verb + tail + crlf())
        } else {
            FrameView::Skip((verb + tail).len() + 2)
        },
        frame_at(verb) is NeedMore,
{
    let line = verb + tail;
    let all = line + crlf() + rest;
    let nl = line.len() as int + 1;
    assert(all[nl] == LF);
    assert forall|i: int| 0 <= i < nl implies #[trigger] all[i] != LF by {
        if i < verb.len() {
            assert(all[i] == verb[i]);
        } else if i < line.len() {
            assert(all[i] == tail[i - verb.len()]);
        } else {
            assert(all[i] == CR);
        }
    }
    first_byte_is(all, LF, nl);
    assert(all.take(nl - 1) =~= line);
    assert(all.take(nl + 1) =~= line + crlf());
    let v = verb.len() as int;
    if tail.len() > 0 {
        assert(line[v] == SPACE);
        assert forall|i: int| 0 <= i < v implies #[trigger] line[i] != SPACE by {
            assert(line[i] == verb[i]);
        }
        first_byte_is(line, SPACE, v);
        assert(line.take(v) =~= verb);
    } else {
        assert(line =~= verb);
        not_there(line, SPACE);
        assert(line.take(line.len() as int) =~= verb);
    }
    not_there(verb, LF);
    reveal_strlit("PING");
    reveal_strlit("-ERR");
    ascii_text("PING");
    ascii_text("-ERR");
    assert(text("PING")[0] != text("-ERR")[0]);
}

proof fn not_there(s: Seq<u8>, b: u8)
    requires
        forall|i: int| 0 <= i < s.len() ==> #[trigger] s[i] != b,
    ensures
        first_byte(s, b) is None,
{
    first_byte_fits(s, b);
}

/// A delivery that is the first thing in what a client reads counts as one message, with all of
/// its bytes, and what follows is counted as if it stood alone; the message that was waited for
/// last ends the count.
pub proof fn a_delivery_is_counted(
    sid: Seq<u8>,
    headers: bool,
    msg: MsgView,
    rest: Seq<u8>,
    left: nat,
)
    requires
        one_line(msg.subject),
        one_line(sid),
        msg.reply matches Some(r) ==> one_line(r),
        msg.body_for(headers).len() <= usize::MAX,
    ensures
        ({
            let frame = delivery(sid, headers, msg);
            let found = scanned(frame + rest, left);
            let later = scanned(rest, (left - 1) as nat);
            if left <= 1 {
                found == (ScanView {
                    used: frame.len(),
                    message_bytes: frame.len(),
                    messages: 1,
                    pings: 0,
                    end: ScanEndView::Reached,
                })
            } else {
                found == (ScanView {
                    used: frame.len() + later.used,
                    message_bytes: frame.len() + later.message_bytes,
                    messages: 1 + later.messages,
                    pings: later.pings,
                    end: later.end,
                })
            }
        }),
{
    let frame = delivery(sid, headers, msg);
    a_delivery_is_one_message(sid, headers, msg, rest);
    frames_fit(frame + rest);
    assert((frame + rest).skip(frame.len() as int) =~= rest);
}

/// A `PING` among what a client reads is to be answered, and is no message; what follows is
/// counted as if it stood alone.
pub proof fn a_probe_is_counted(rest: Seq<u8>, left: nat)
    ensures
        ({
            let found = scanned(text("PING\r\n") + rest, left);
            let later = scanned(rest, left);
            &&& found.pings == 1 + later.pings
            &&& found.messages == later.messages
            &&& found.message_bytes == later.message_bytes
            &&& found.used == 6 + later.used
            &&& found.end == later.end
        }),
{
    reveal_strlit("PING\r\n");
    reveal_strlit("PING");
    reveal_strlit("MSG");
    reveal_strlit("HMSG");
    ascii_text("PING\r\n");
    ascii_text("PING");
    ascii_text("MSG");
    ascii_text("HMSG");
    let verb = text("PING");
    let none = Seq::<u8>::empty();
    assert(text("PING\r\n") =~= verb + crlf());
    assert(text("HMSG")[0] != verb[0]);
    what_a_client_makes_of_a_line(verb, none, rest);
    assert(verb + none + crlf() + rest =~= text("PING\r\n") + rest);
    assert((text("PING\r\n") + rest).skip(6) =~= rest);
}

/// A publisher that has written all its frames, however many at a time, has then asked, and was
/// then answered, is done; and each write leaves just so many fewer to write.
pub proof fn a_publisher_gets_there(p: Publisher, n: usize)
    requires
        p.receipt == Receipt::Unasked,
        n <= p.left,
    ensures
        p.noted(PushEvent::Wrote(n)).left == p.left - n,
        p.noted(PushEvent::Wrote(n)).receipt == Receipt::Unasked,
        n == p.left ==> ({
            let end = p.noted(PushEvent::Wrote(n)).noted(PushEvent::Asked).noted(
                PushEvent::Heard(Handshake::Done),
            );
            end.left == 0 && end.receipt == Receipt::Given
        }),
        p.left > 0 ==> p.noted(PushEvent::Asked) == p,
        p.noted(PushEvent::Heard(Handshake::Done)) == p,
        p.noted(PushEvent::Ready) == p,
{
}

// ------------------------------------------------------------------------ small steps --

/// Who asks for the version gets it whatever else they ask for; who asks for help gets it before
/// any look at the options; who asks for nothing gets a server.
pub proof fn what_is_asked_for(version: bool, help: bool, check: bool)
    ensures
        task_of(true, help, check) == Task::Version,
        task_of(false, true, check) == Task::Help,
        task_of(false, false, true) == Task::Check,
        task_of(false, false, false) == Task::Serve,
        task_of(version, help, check) == Task::Serve <==> !version && !help && !check,
{
}

/// A server is known under the port that is set, or 4222.
pub proof fn which_port_is_named(port: i32)
    ensures
        named_port(0) == 4222,
        port != 0 ==> named_port(port) == port,
{
}

/// A line is taken off the front with its end, and the rest stays as it is; bytes without a line
/// end are no line.
pub proof fn a_line_is_taken_off(line: Seq<u8>, rest: Seq<u8>)
    requires
        no_line_end(line),
    ensures
        first_line(line + crlf() + rest) == Some((line + crlf(), rest)),
        first_line(line) is None,
{
    line_ends_there(line, rest);
    let s = line + crlf() + rest;
    assert(s.take(line.len() as int + 2) =~= line + crlf());
    no_end_is_found(line);
}

/// A payload is what stands before its line end, when it is just as long as was said.
pub proof fn a_payload_is_what_was_said(body: Seq<u8>, bytes: Seq<u8>, n: nat)
    ensures
        payload(body + crlf(), body.len()) == Some(body),
        payload(bytes, n) matches Some(b) ==> b.len() == n && bytes == b + crlf(),
        bytes.len() != n + 2 ==> payload(bytes, n) is None,
{
    let all = body + crlf();
    assert(all.skip(body.len() as int) =~= crlf());
    assert(all.take(body.len() as int) =~= body);
    if payload(bytes, n) is Some {
        assert(bytes =~= bytes.take(n as int) + bytes.skip(n as int));
    }
}

/// A `PONG` is what was waited for; a `+OK`, whatever is behind it, is passed over; nothing else
/// is expected.
pub proof fn what_a_barrier_makes_of_a_line(more: Seq<u8>, line: Seq<u8>)
    requires
        line != text("PONG\r\n"),
        !text("+OK").is_prefix_of(line),
    ensures
        barrier_of(text("PONG\r\n")) == Barrier::Done,
        barrier_of(text("+OK") + more) == Barrier::More,
        barrier_of(line) == Barrier::Unexpected,
{
    reveal_strlit("PONG\r\n");
    reveal_strlit("+OK");
    ascii_text("PONG\r\n");
    ascii_text("+OK");
    let ok = text("+OK") + more;
    assert(text("+OK") =~= ok.subrange(0, 3));
    assert(ok[0] == text("+OK")[0] && text("PONG\r\n")[0] != text("+OK")[0]);
}

/// Bytes hold a word wherever it stands among them.
proof fn it_is_held(a: Seq<u8>, word: Seq<u8>, b: Seq<u8>)
    ensures
        holds_bytes(a + word + b, word),
{
    let all = a + word + b;
    let i = a.len() as int;
    assert(all.subrange(i, i + word.len()) =~= word);
}

/// A `PONG` anywhere in what came ends the waiting; without one, a probe anywhere is to be
/// answered; and a flood is read once a `PONG` or a `+OK` is there.
pub proof fn what_is_heard(a: Seq<u8>, b: Seq<u8>, quiet: Seq<u8>)
    requires
        !holds_bytes(quiet, text("PONG")),
    ensures
        handshake_of(a + text("PONG") + b) == Handshake::Done,
        handshake_of(quiet) != Handshake::Done,
        handshake_of(quiet) == Handshake::Answer <==> holds_bytes(quiet, text("PING\r")),
        drained_by(a + text("PONG\r") + b),
        drained_by(a + text("+OK\r") + b),
        drained_by(quiet) ==> holds_bytes(quiet, text("+OK\r")) || holds_bytes(
            quiet,
            text("PONG\r"),
        ),
{
    it_is_held(a, text("PONG"), b);
    it_is_held(a, text("PONG\r"), b);
    it_is_held(a, text("+OK\r"), b);
}

/// A url that says something names the address, without its scheme; else the plain address does,
/// and where there is none, the default.
pub proof fn where_a_flood_goes(url: Seq<char>, addr: Seq<char>, any: Option<Seq<char>>)
    requires
        url.len() > 0,
    ensures
        flooded_addr(Some(url), any) == without_scheme(url),
        flooded_addr(Some(Seq::empty()), Some(addr)) == addr,
        flooded_addr(None, Some(addr)) == addr,
        flooded_addr(None, None) == "127.0.0.1:4222"@,
        flooded_addr(Some(Seq::empty()), None) == "127.0.0.1:4222"@,
{
}

/// A subscriber that is ready is not waited for, whatever else is the case; one that is not is
/// given up on when its time is over or when it failed; one that ended is asked itself.
pub proof fn how_a_subscriber_starts(expired: bool, failed: bool, finished: bool)
    ensures
        started(true, expired, failed, finished) == Start::Go,
        started(false, true, failed, finished) == Start::Never,
        started(false, false, true, finished) == Start::Died,
        started(false, false, false, true) == Start::Go,
        started(false, false, false, false) == Start::Wait,
{
}

/// A run is over when everything is there, when the subscriber failed, when it took too long, or
/// when the count stood still for too long; otherwise it goes on. Only a count that changed, in a
/// run that has not ended, has moved.
pub proof fn when_a_run_is_over(
    watch: Watch,
    now: u64,
    failed: bool,
    still: bool,
    overdue: bool,
)
    ensures
        ({
            let look = watch.looked(now, failed, still, overdue);
            &&& now >= watch.wanted || failed || overdue ==> look.over
            &&& now == watch.last && still ==> look.over
            &&& now < watch.wanted && !failed && !overdue && (now != watch.last || !still)
                ==> !look.over
            &&& look.moved <==> now < watch.wanted && !failed && now != watch.last
        }),
{
}

/// A server that is started is ready when it can be reached in time and is still there.
pub proof fn when_a_server_is_ready(expired: bool, exited: bool, reachable: bool)
    ensures
        readiness(expired, exited, reachable) == Ready::Up <==> reachable && !expired && !exited,
        readiness(true, exited, reachable) == Ready::TimedOut,
        readiness(false, true, reachable) == Ready::Exited,
        readiness(false, false, false) == Ready::Wait,
{
}

/// A socket that is let in gets the number after the last one, and one more is live; one that is
/// not changes nothing.
pub proof fn who_gets_which_number(cids: u64, active: u64)
    requires
        cids < u64::MAX,
        active < u64::MAX,
    ensures
        Server::admitted(true, cids, active) == (
            Some((cids + 1) as u64),
            (cids + 1) as u64,
            (active + 1) as u64,
        ),
        Server::admitted(false, cids, active) == (None::<u64>, cids, active),
{
}

/// Sizes go into the bucket of their power of two, and the largest all into the last.
pub proof fn which_bucket_it_is(size: nat)
    ensures
        bucket_of(0) == 0,
        bucket_of(size) <= 27,
        0 < size && bucket_of(size) < 27 ==> vstd::arithmetic::power::pow(
            2,
            (bucket_of(size) - 1) as nat,
        ) <= size < vstd::arithmetic::power::pow(2, bucket_of(size)),
        bucket_of(size) == 27 ==> size >= vstd::arithmetic::power::pow(2, 26),
{
    if size > 0 {
        a_bucket_is_a_power_of_two(size);
        if bucket_of(size) == 27 {
            vstd::arithmetic::power::lemma_pow_increases(2, 26, (bits(size) - 1) as nat);
        }
    }
}

} // verus!
