//! The INFO line.
//!
//! Built by hand: the order of the fields is part of what clients see.
use vstd::prelude::*;
use vstd::utf8::{encode_scalar, encode_utf8};

use crate::text::{ascii_text, crlf, decimal, is_digit, push_u64, separators, text};

verus! {

/// The quotation mark that a JSON string stands between.
pub const QUOTE: u8 = 0x22;

/// The byte that starts an escape in a JSON string.
pub const BACKSLASH: u8 = 0x5c;

/// What a client is told when it connects.
pub struct Info {
    pub server_id: String,
    pub server_name: String,
    pub version: &'static str,
    pub host: String,
    pub port: u16,
    pub max_payload: u64,
}

/// What a client is told, with its text as sequences.
#[verifier::ext_equal]
pub struct InfoView {
    pub server_id: Seq<char>,
    pub server_name: Seq<char>,
    pub version: Seq<char>,
    pub host: Seq<char>,
    pub port: u16,
    pub max_payload: u64,
}

impl View for Info {
    type V = InfoView;

    open spec fn view(&self) -> InfoView {
        InfoView {
            server_id: self.server_id@,
            server_name: self.server_name@,
            version: self.version@,
            host: self.host@,
            port: self.port,
            max_payload: self.max_payload,
        }
    }
}

/// A hexadecimal digit, in lower case.
pub open spec fn hex_digit(n: int) -> u8 {
    if n < 10 {
        (0x30 + n) as u8
    } else {
        (0x57 + n) as u8
    }
}

/// A character inside a JSON string.
pub open spec fn escaped_char(c: char) -> Seq<u8> {
    if c == '"' {
        seq![BACKSLASH, QUOTE]
    } else if c == '\\' {
        seq![BACKSLASH, BACKSLASH]
    } else if c == '\n' {
        seq![BACKSLASH, 0x6e]
    } else if c == '\r' {
        seq![BACKSLASH, 0x72]
    } else if c == '\t' {
        seq![BACKSLASH, 0x74]
    } else if (c as u32) < 0x20 {
        seq![
            BACKSLASH,
            0x75,
            0x30,
            0x30,
            hex_digit(c as int / 16),
            hex_digit(c as int % 16),
        ]
    } else {
        encode_scalar(c as u32)
    }
}

/// Text inside a JSON string.
pub open spec fn escaped(chars: Seq<char>) -> Seq<u8>
    decreases chars.len(),
{
    if chars.len() == 0 {
        Seq::empty()
    } else {
        escaped(chars.drop_last()) + escaped_char(chars.last())
    }
}

/// A member of the object whose value is a string.
pub open spec fn string_member(key: Seq<u8>, value: Seq<char>) -> Seq<u8> {
    text("\"") + key + text("\":\"") + escaped(value) + text("\"")
}

/// The object that INFO carries.
pub open spec fn info_object(info: InfoView, cid: u64, client_ip: Seq<char>) -> Seq<u8> {
    text("{") + string_member(text("server_id"), info.server_id) + text(",") + string_member(
        text("server_name"),
        info.server_name,
    ) + text(",") + string_member(text("version"), info.version) + text(",\"proto\":1,")
        + string_member(text("host"), info.host) + text(",\"port\":") + decimal(info.port as nat)
        + text(",\"headers\":true,\"max_payload\":") + decimal(info.max_payload as nat) + text(
        ",\"client_id\":",
    ) + decimal(cid as nat) + text(",") + string_member(text("client_ip"), client_ip) + text("}")
}

/// `INFO <json> ` and a line end. The space before the line end is part of the line.
pub open spec fn info_line(info: InfoView, cid: u64, client_ip: Seq<char>) -> Seq<u8> {
    text("INFO ") + info_object(info, cid, client_ip) + text(" ") + crlf()
}

fn hex(n: u8) -> (r: u8)
    requires
        n < 16,
    ensures
        r == hex_digit(n as int),
{
    if n < 10 {
        0x30 + n
    } else {
        0x57 + n
    }
}

fn push_char(out: &mut Vec<u8>, value: &str, at: usize, len: usize)
    requires
        at < len == value@.len(),
    ensures
        final(out)@ == old(out)@ + escaped_char(value@[at as int]),
{
    let c = value.get_char(at);
    if c == '"' {
        out.push(BACKSLASH);
        out.push(QUOTE);
    } else if c == '\\' {
        out.push(BACKSLASH);
        out.push(BACKSLASH);
    } else if c == '\n' {
        out.push(BACKSLASH);
        out.push(0x6e);
    } else if c == '\r' {
        out.push(BACKSLASH);
        out.push(0x72);
    } else if c == '\t' {
        out.push(BACKSLASH);
        out.push(0x74);
    } else if (c as u32) < 0x20 {
        let n: u8 = (c as u32) as u8;
        out.push(BACKSLASH);
        out.push(0x75);
        out.push(0x30);
        out.push(0x30);
        out.push(hex(n / 16));
        out.push(hex(n % 16));
    } else {
        let one = value.substring_char(at, at + 1);
        proof {
            reveal_with_fuel(encode_utf8, 2);
            assert(one@ =~= seq![c]);
            assert(one@.drop_first() =~= Seq::<char>::empty());
            assert(encode_utf8(one@) =~= encode_scalar(c as u32));
        }
        out.extend_from_slice(one.as_bytes());
    }
    assert(out@ =~= old(out)@ + escaped_char(value@[at as int]));
}

fn push_str(out: &mut Vec<u8>, key: &str, value: &str)
    ensures
        final(out)@ == old(out)@ + string_member(text(key), value@),
{
    out.extend_from_slice("\"".as_bytes());
    out.extend_from_slice(key.as_bytes());
    out.extend_from_slice("\":\"".as_bytes());
    let ghost head = out@;
    let n = value.unicode_len();
    let mut i: usize = 0;
    assert(value@.take(0) =~= Seq::<char>::empty());
    assert(head + escaped(value@.take(0)) =~= head);
    while i < n
        invariant
            i <= n == value@.len(),
            out@ == head + escaped(value@.take(i as int)),
        decreases n - i,
    {
        assert(value@.take(i + 1).drop_last() =~= value@.take(i as int));
        push_char(out, value, i, n);
        assert(out@ =~= head + escaped(value@.take(i + 1)));
        i += 1;
    }
    assert(value@.take(i as int) =~= value@);
    out.extend_from_slice("\"".as_bytes());
    assert(out@ =~= old(out)@ + string_member(text(key), value@));
}

impl Info {
    /// The object that INFO carries.
    fn object(&self, cid: u64, client_ip: &str) -> (r: Vec<u8>)
        ensures
            r@ == info_object(self@, cid, client_ip@),
    {
        let mut out: Vec<u8> = Vec::new();
        out.extend_from_slice("{".as_bytes());
        assert(out@ =~= text("{"));
        push_str(&mut out, "server_id", self.server_id.as_str());
        out.extend_from_slice(",".as_bytes());
        push_str(&mut out, "server_name", self.server_name.as_str());
        out.extend_from_slice(",".as_bytes());
        push_str(&mut out, "version", self.version);
        out.extend_from_slice(",\"proto\":1,".as_bytes());
        push_str(&mut out, "host", self.host.as_str());
        out.extend_from_slice(",\"port\":".as_bytes());
        push_u64(&mut out, self.port as u64);
        out.extend_from_slice(",\"headers\":true,\"max_payload\":".as_bytes());
        push_u64(&mut out, self.max_payload);
        out.extend_from_slice(",\"client_id\":".as_bytes());
        push_u64(&mut out, cid);
        out.extend_from_slice(",".as_bytes());
        push_str(&mut out, "client_ip", client_ip);
        out.extend_from_slice("}".as_bytes());
        out
    }

    /// `INFO <json> ` and a line end: the first line of every connection.
    pub fn line(&self, cid: u64, client_ip: &str) -> (r: Vec<u8>)
        ensures
            r@ == info_line(self@, cid, client_ip@),
    {
        let object = self.object(cid, client_ip);
        let mut out: Vec<u8> = Vec::new();
        out.extend_from_slice("INFO ".as_bytes());
        out.extend_from_slice(object.as_slice());
        out.extend_from_slice(" ".as_bytes());
        out.extend_from_slice("\r\n".as_bytes());
        proof {
            separators();
        }
        assert(out@ =~= info_line(self@, cid, client_ip@));
        out
    }
}

// --------------------------------------------------------------------------- laws --

/// Bytes that can stand inside a line: no control characters.
pub open spec fn printable(s: Seq<u8>) -> bool {
    forall|i: int| 0 <= i < s.len() ==> #[trigger] s[i] >= 0x20
}

/// Where a JSON string that has been opened ends: at the first quotation mark that no
/// backslash escapes.
pub open spec fn string_end(s: Seq<u8>) -> Option<int>
    decreases s.len(),
{
    if s.len() == 0 {
        None
    } else if s[0] == QUOTE {
        Some(0)
    } else if s[0] == BACKSLASH {
        if s.len() < 2 {
            None
        } else {
            match string_end(s.skip(2)) {
                Some(i) => Some(i + 2),
                None => None,
            }
        }
    } else {
        match string_end(s.skip(1)) {
            Some(i) => Some(i + 1),
            None => None,
        }
    }
}

proof fn char_is_printable(c: char)
    ensures
        printable(escaped_char(c)),
{
    let e = escaped_char(c);
    if c == '"' || c == '\\' || c == '\n' || c == '\r' || c == '\t' {
        assert(e.len() == 2 && e[0] >= 0x20 && e[1] >= 0x20);
    } else if (c as u32) < 0x20 {
        assert(0 <= c as int / 16 < 16 && 0 <= c as int % 16 < 16);
        assert(e.len() == 6 && e[0] >= 0x20 && e[1] >= 0x20 && e[2] >= 0x20 && e[3] >= 0x20 && e[4]
            >= 0x20 && e[5] >= 0x20);
    } else {
        scalar_bytes(c);
    }
}

proof fn scalar_bytes(c: char)
    requires
        c as u32 >= 0x20,
    ensures
        printable(encode_scalar(c as u32)),
        c != '"' && c != '\\' ==> forall|i: int| #![trigger encode_scalar(c as u32)[i]]
            0 <= i < encode_scalar(c as u32).len() ==> encode_scalar(c as u32)[i] != QUOTE
                && encode_scalar(c as u32)[i] != BACKSLASH,
{
    let u = c as u32;
    assert(u < 0x80 ==> (u & 0x7F) as u8 == u) by (bit_vector);
    assert(0xC0u8 | (((u >> 6) & 0x1F) as u8) >= 0x80u8) by (bit_vector);
    assert(0xE0u8 | (((u >> 12) & 0x0F) as u8) >= 0x80u8) by (bit_vector);
    assert(0xF0u8 | (((u >> 18) & 0x7) as u8) >= 0x80u8) by (bit_vector);
    assert(0x80u8 | ((u & 0x3F) as u8) >= 0x80u8) by (bit_vector);
    assert(0x80u8 | (((u >> 6) & 0x3F) as u8) >= 0x80u8) by (bit_vector);
    assert(0x80u8 | (((u >> 12) & 0x3F) as u8) >= 0x80u8) by (bit_vector);
}

/// Whatever text goes into a string, none of its characters can end the line.
pub proof fn escaping_leaves_no_controls(chars: Seq<char>)
    ensures
        printable(escaped(chars)),
    decreases chars.len(),
{
    if chars.len() > 0 {
        escaping_leaves_no_controls(chars.drop_last());
        char_is_printable(chars.last());
        let (a, b) = (escaped(chars.drop_last()), escaped_char(chars.last()));
        assert forall|i: int| 0 <= i < (a + b).len() implies #[trigger] (a + b)[i] >= 0x20 by {
            if i < a.len() {
                assert((a + b)[i] == a[i]);
            } else {
                assert((a + b)[i] == b[i - a.len()]);
            }
        }
    }
}

proof fn plain_bytes_pass(s: Seq<u8>, rest: Seq<u8>)
    requires
        forall|i: int| #![trigger s[i]] 0 <= i < s.len() ==> s[i] != QUOTE && s[i] != BACKSLASH,
    ensures
        string_end(s + rest) == match string_end(rest) {
            Some(i) => Some(i + s.len()),
            None => None,
        },
    decreases s.len(),
{
    if s.len() == 0 {
        assert(s + rest =~= rest);
    } else {
        assert((s + rest)[0] == s[0]);
        assert((s + rest).skip(1) =~= s.skip(1) + rest);
        assert forall|i: int| #![trigger s.skip(1)[i]] 0 <= i < s.skip(1).len() implies s.skip(1)[i]
            != QUOTE && s.skip(1)[i] != BACKSLASH by {
            assert(s.skip(1)[i] == s[i + 1]);
        }
        plain_bytes_pass(s.skip(1), rest);
    }
}

proof fn one_char_passes(c: char, rest: Seq<u8>)
    ensures
        string_end(escaped_char(c) + rest) == match string_end(rest) {
            Some(i) => Some(i + escaped_char(c).len()),
            None => None,
        },
{
    let e = escaped_char(c);
    let all = e + rest;
    if c == '"' || c == '\\' || c == '\n' || c == '\r' || c == '\t' {
        assert(all[0] == BACKSLASH);
        assert(all.skip(2) =~= rest);
    } else if (c as u32) < 0x20 {
        assert(all[0] == BACKSLASH);
        let digits = seq![0x30u8, 0x30u8, hex_digit(c as int / 16), hex_digit(c as int % 16)];
        assert(all.skip(2) =~= digits + rest);
        plain_bytes_pass(digits, rest);
    } else {
        scalar_bytes(c);
        plain_bytes_pass(e, rest);
    }
}

proof fn text_passes(chars: Seq<char>, rest: Seq<u8>)
    ensures
        string_end(escaped(chars) + rest) == match string_end(rest) {
            Some(i) => Some(i + escaped(chars).len()),
            None => None,
        },
    decreases chars.len(),
{
    if chars.len() == 0 {
        assert(escaped(chars) + rest =~= rest);
    } else {
        let tail = escaped_char(chars.last()) + rest;
        assert(escaped(chars) + rest =~= escaped(chars.drop_last()) + tail);
        text_passes(chars.drop_last(), tail);
        one_char_passes(chars.last(), rest);
    }
}

/// Whatever text goes into a string, the string ends at its own closing quotation mark:
/// a configured name cannot break out of its member.
pub proof fn a_string_ends_where_it_should(chars: Seq<char>, rest: Seq<u8>)
    ensures
        string_end(escaped(chars) + seq![QUOTE] + rest) == Some(escaped(chars).len() as int),
{
    let tail = seq![QUOTE] + rest;
    text_passes(chars, tail);
    assert(tail[0] == QUOTE);
    assert(escaped(chars) + seq![QUOTE] + rest =~= escaped(chars) + tail);
}

proof fn decimal_is_printable(n: nat)
    ensures
        printable(decimal(n)),
{
    crate::text::decimal_round_trip(n);
    assert forall|i: int| 0 <= i < decimal(n).len() implies #[trigger] decimal(n)[i] >= 0x20 by {
        assert(is_digit(decimal(n)[i]));
    }
}

proof fn joined_is_printable(a: Seq<u8>, b: Seq<u8>)
    requires
        printable(a),
        printable(b),
    ensures
        printable(a + b),
{
    assert forall|i: int| 0 <= i < (a + b).len() implies #[trigger] (a + b)[i] >= 0x20 by {
        if i < a.len() {
            assert((a + b)[i] == a[i]);
        } else {
            assert((a + b)[i] == b[i - a.len()]);
        }
    }
}

proof fn member_is_printable(key: Seq<u8>, value: Seq<char>)
    requires
        printable(key),
    ensures
        printable(string_member(key, value)),
{
    reveal_strlit("\"");
    reveal_strlit("\":\"");
    ascii_text("\"");
    ascii_text("\":\"");
    escaping_leaves_no_controls(value);
    joined_is_printable(text("\""), key);
    joined_is_printable(text("\"") + key, text("\":\""));
    joined_is_printable(text("\"") + key + text("\":\""), escaped(value));
    joined_is_printable(text("\"") + key + text("\":\"") + escaped(value), text("\""));
}

proof fn object_is_printable(info: InfoView, cid: u64, client_ip: Seq<char>)
    ensures
        printable(info_object(info, cid, client_ip)),
{
    reveal_strlit("{");
    reveal_strlit("server_id");
    reveal_strlit(",");
    reveal_strlit("server_name");
    reveal_strlit("version");
    reveal_strlit(",\"proto\":1,");
    reveal_strlit("host");
    reveal_strlit(",\"port\":");
    reveal_strlit(",\"headers\":true,\"max_payload\":");
    reveal_strlit(",\"client_id\":");
    reveal_strlit("client_ip");
    reveal_strlit("}");
    ascii_text("{");
    ascii_text("server_id");
    ascii_text(",");
    ascii_text("server_name");
    ascii_text("version");
    ascii_text(",\"proto\":1,");
    ascii_text("host");
    ascii_text(",\"port\":");
    ascii_text(",\"headers\":true,\"max_payload\":");
    ascii_text(",\"client_id\":");
    ascii_text("client_ip");
    ascii_text("}");
    member_is_printable(text("server_id"), info.server_id);
    member_is_printable(text("server_name"), info.server_name);
    member_is_printable(text("version"), info.version);
    member_is_printable(text("host"), info.host);
    member_is_printable(text("client_ip"), client_ip);
    decimal_is_printable(info.port as nat);
    decimal_is_printable(info.max_payload as nat);
    decimal_is_printable(cid as nat);
    let a = text("{");
    let b = a + string_member(text("server_id"), info.server_id);
    joined_is_printable(a, string_member(text("server_id"), info.server_id));
    let c = b + text(",");
    joined_is_printable(b, text(","));
    let d = c + string_member(text("server_name"), info.server_name);
    joined_is_printable(c, string_member(text("server_name"), info.server_name));
    let e = d + text(",");
    joined_is_printable(d, text(","));
    let f = e + string_member(text("version"), info.version);
    joined_is_printable(e, string_member(text("version"), info.version));
    let g = f + text(",\"proto\":1,");
    joined_is_printable(f, text(",\"proto\":1,"));
    let h = g + string_member(text("host"), info.host);
    joined_is_printable(g, string_member(text("host"), info.host));
    let i = h + text(",\"port\":");
    joined_is_printable(h, text(",\"port\":"));
    let j = i + decimal(info.port as nat);
    joined_is_printable(i, decimal(info.port as nat));
    let k = j + text(",\"headers\":true,\"max_payload\":");
    joined_is_printable(j, text(",\"headers\":true,\"max_payload\":"));
    let l = k + decimal(info.max_payload as nat);
    joined_is_printable(k, decimal(info.max_payload as nat));
    let m = l + text(",\"client_id\":");
    joined_is_printable(l, text(",\"client_id\":"));
    let n = m + decimal(cid as nat);
    joined_is_printable(m, decimal(cid as nat));
    let o = n + text(",");
    joined_is_printable(n, text(","));
    let p = o + string_member(text("client_ip"), client_ip);
    joined_is_printable(o, string_member(text("client_ip"), client_ip));
    joined_is_printable(p, text("}"));
}

/// INFO is one line, whatever the server is called: it ends with a line end, and no byte
/// before that is a control character.
pub proof fn info_is_one_line(info: InfoView, cid: u64, client_ip: Seq<char>)
    ensures
        info_line(info, cid, client_ip).len() >= 2,
        info_line(info, cid, client_ip) == info_line(info, cid, client_ip).take(
            info_line(info, cid, client_ip).len() - 2,
        ) + crlf(),
        printable(
            info_line(info, cid, client_ip).take(info_line(info, cid, client_ip).len() - 2),
        ),
{
    let object = info_object(info, cid, client_ip);
    object_is_printable(info, cid, client_ip);
    reveal_strlit("INFO ");
    ascii_text("INFO ");
    separators();
    joined_is_printable(text("INFO "), object);
    let head = text("INFO ") + object + text(" ");
    joined_is_printable(text("INFO ") + object, text(" "));
    let line = info_line(info, cid, client_ip);
    assert(line.take(line.len() - 2) =~= head);
    assert(line =~= head + crlf());
}

/// What a hexadecimal digit stands for.
pub open spec fn hex_value(b: u8) -> int {
    if 0x30 <= b <= 0x39 {
        b - 0x30
    } else if 0x61 <= b <= 0x66 {
        b - 0x61 + 10
    } else {
        b - 0x41 + 10
    }
}

/// The bytes that the inside of a JSON string stands for, as a reader takes it: an escape stands
/// for its character, here always an ASCII one, and every other byte for itself.
pub open spec fn unescaped(s: Seq<u8>) -> Seq<u8>
    decreases s.len(),
{
    if s.len() == 0 {
        Seq::empty()
    } else if s[0] != 0x5c {
        seq![s[0]] + unescaped(s.skip(1))
    } else if s.len() >= 6 && s[1] == 0x75 {
        seq![
            (((hex_value(s[2]) * 16 + hex_value(s[3])) * 16 + hex_value(s[4])) * 16 + hex_value(
                s[5],
            )) as u8,
        ] + unescaped(s.skip(6))
    } else if s.len() >= 2 {
        seq![
            if s[1] == 0x6e {
                0x0a
            } else if s[1] == 0x72 {
                0x0d
            } else if s[1] == 0x74 {
                0x09
            } else {
                s[1]
            },
        ] + unescaped(s.skip(2))
    } else {
        Seq::empty()
    }
}

/// Bytes without a backslash stand for themselves.
proof fn plain_bytes_stand(b: Seq<u8>, rest: Seq<u8>)
    requires
        forall|i: int| 0 <= i < b.len() ==> #[trigger] b[i] != BACKSLASH,
    ensures
        unescaped(b + rest) == b + unescaped(rest),
    decreases b.len(),
{
    if b.len() == 0 {
        assert(b + rest =~= rest);
        assert(b + unescaped(rest) =~= unescaped(rest));
    } else {
        let less = b.skip(1);
        assert forall|i: int| 0 <= i < less.len() implies #[trigger] less[i] != BACKSLASH by {
            assert(less[i] == b[i + 1]);
        }
        plain_bytes_stand(less, rest);
        assert((b + rest).skip(1) =~= less + rest);
        assert((b + rest)[0] == b[0]);
        assert(seq![b[0]] + (less + unescaped(rest)) =~= b + unescaped(rest));
    }
}

/// An escaped character stands for the character.
proof fn a_character_is_read_back(c: char, rest: Seq<u8>)
    ensures
        unescaped(escaped_char(c) + rest) == encode_scalar(c as u32) + unescaped(rest),
{
    let e = escaped_char(c);
    let s = e + rest;
    let u = c as u32;
    if u < 0x80 {
        assert(u < 0x80 ==> (u & 0x7F) as u8 == u) by (bit_vector);
        assert(encode_scalar(u) =~= seq![u as u8]);
    }
    if c == '"' || c == '\\' || c == '\n' || c == '\r' || c == '\t' {
        assert(s[0] == BACKSLASH && s[1] == e[1]);
        assert(s.skip(2) =~= rest);
        assert(e[1] != 0x75);
    } else if u < 0x20 {
        assert(s[0] == BACKSLASH && s[1] == 0x75 && s[2] == 0x30 && s[3] == 0x30);
        assert(s[4] == hex_digit(c as int / 16) && s[5] == hex_digit(c as int % 16));
        assert(s.skip(6) =~= rest);
        assert(0 <= c as int / 16 < 2 && 0 <= c as int % 16 < 16);
        assert(hex_value(s[4]) == c as int / 16);
        assert(hex_value(s[5]) == c as int % 16);
    } else {
        scalar_bytes(c);
        plain_bytes_stand(e, rest);
    }
}

/// Escaping goes character by character, from either end.
proof fn escaping_starts_at_the_front(chars: Seq<char>)
    requires
        chars.len() > 0,
    ensures
        escaped(chars) == escaped_char(chars[0]) + escaped(chars.skip(1)),
    decreases chars.len(),
{
    let rest = chars.skip(1);
    if chars.len() == 1 {
        assert(chars.drop_last() =~= Seq::<char>::empty());
        assert(rest =~= Seq::<char>::empty());
        assert(escaped(chars) =~= escaped_char(chars[0]) + escaped(rest));
    } else {
        escaping_starts_at_the_front(chars.drop_last());
        assert(chars.drop_last().skip(1) =~= rest.drop_last());
        assert(escaped(chars) =~= escaped_char(chars[0]) + (escaped(rest.drop_last())
            + escaped_char(chars.last())));
    }
}

/// Whatever text goes into a string, a reader gets it back.
pub proof fn a_string_is_read_back(chars: Seq<char>)
    ensures
        unescaped(escaped(chars)) == encode_utf8(chars),
    decreases chars.len(),
{
    reveal_with_fuel(encode_utf8, 2);
    if chars.len() > 0 {
        escaping_starts_at_the_front(chars);
        a_character_is_read_back(chars[0], escaped(chars.skip(1)));
        a_string_is_read_back(chars.skip(1));
        assert(chars.drop_first() =~= chars.skip(1));
    }
}

/// A member of an object: its key, in quotation marks, a colon, and its value.
pub open spec fn member(key: Seq<u8>, value: Seq<u8>) -> Seq<u8> {
    seq![QUOTE] + key + seq![QUOTE, 0x3au8] + value
}

/// Does the object have that value under that key?
pub open spec fn has_member(object: Seq<u8>, key: Seq<u8>, value: Seq<u8>) -> bool {
    exists|a: Seq<u8>, b: Seq<u8>|
        object == #[trigger] (a + member(key, value) + b) && a.len() > 0 && (a.last() == 0x7b
            || a.last() == 0x2c) && b.len() > 0 && (b[0] == 0x2c || b[0] == 0x7d)
}

/// A text as a JSON string.
pub open spec fn quoted(chars: Seq<char>) -> Seq<u8> {
    seq![QUOTE] + escaped(chars) + seq![QUOTE]
}

proof fn a_member_is_there(
    object: Seq<u8>,
    a: Seq<u8>,
    key: Seq<u8>,
    value: Seq<u8>,
    b: Seq<u8>,
)
    requires
        object == a + member(key, value) + b,
        a.len() > 0,
        a.last() == 0x7b || a.last() == 0x2c,
        b.len() > 0,
        b[0] == 0x2c || b[0] == 0x7d,
    ensures
        has_member(object, key, value),
{
}

/// The pieces of the object are what they look like.
proof fn the_pieces()
    ensures
        text("\"") == seq![QUOTE],
        text("\":\"") == seq![QUOTE, 0x3au8, QUOTE],
        text("{") == seq![0x7bu8],
        text("}") == seq![0x7du8],
        text(",") == seq![0x2cu8],
        text(",\"proto\":1,") == seq![0x2cu8] + member(text("proto"), text("1")) + seq![0x2cu8],
        text(",\"port\":") == seq![0x2cu8] + member(text("port"), Seq::empty()),
        text(",\"headers\":true,\"max_payload\":") == seq![0x2cu8] + member(
            text("headers"),
            text("true"),
        ) + seq![0x2cu8] + member(text("max_payload"), Seq::empty()),
        text(",\"client_id\":") == seq![0x2cu8] + member(text("client_id"), Seq::empty()),
{
    reveal_strlit("\"");
    reveal_strlit("\":\"");
    reveal_strlit("{");
    reveal_strlit("}");
    reveal_strlit(",");
    reveal_strlit(",\"proto\":1,");
    reveal_strlit(",\"port\":");
    reveal_strlit(",\"headers\":true,\"max_payload\":");
    reveal_strlit(",\"client_id\":");
    reveal_strlit("proto");
    reveal_strlit("1");
    reveal_strlit("port");
    reveal_strlit("headers");
    reveal_strlit("true");
    reveal_strlit("max_payload");
    reveal_strlit("client_id");
    ascii_text("\"");
    ascii_text("\":\"");
    ascii_text("{");
    ascii_text("}");
    ascii_text(",");
    ascii_text(",\"proto\":1,");
    ascii_text(",\"port\":");
    ascii_text(",\"headers\":true,\"max_payload\":");
    ascii_text(",\"client_id\":");
    ascii_text("proto");
    ascii_text("1");
    ascii_text("port");
    ascii_text("headers");
    ascii_text("true");
    ascii_text("max_payload");
    ascii_text("client_id");
    assert(text("\"") =~= seq![QUOTE]);
    assert(text("\":\"") =~= seq![QUOTE, 0x3au8, QUOTE]);
    assert(text("{") =~= seq![0x7bu8]);
    assert(text("}") =~= seq![0x7du8]);
    assert(text(",") =~= seq![0x2cu8]);
    assert(text(",\"proto\":1,") =~= seq![0x2cu8] + member(text("proto"), text("1"))
        + seq![0x2cu8]);
    assert(text(",\"port\":") =~= seq![0x2cu8] + member(text("port"), Seq::empty()));
    assert(text(",\"headers\":true,\"max_payload\":") =~= seq![0x2cu8] + member(
        text("headers"),
        text("true"),
    ) + seq![0x2cu8] + member(text("max_payload"), Seq::empty()));
    assert(text(",\"client_id\":") =~= seq![0x2cu8] + member(text("client_id"), Seq::empty()));
}

proof fn a_string_is_a_member(key: Seq<u8>, value: Seq<char>)
    ensures
        string_member(key, value) == member(key, quoted(value)),
{
    the_pieces();
    assert(string_member(key, value) =~= member(key, quoted(value)));
}

proof fn a_number_is_a_member(key: Seq<u8>, value: Seq<u8>)
    ensures
        member(key, Seq::empty()) + value == member(key, value),
{
    assert(member(key, Seq::empty()) + value =~= member(key, value));
}

/// Members with a comma between each two.
spec fn listed(members: Seq<Seq<u8>>) -> Seq<u8>
    decreases members.len(),
{
    if members.len() == 0 {
        Seq::empty()
    } else if members.len() == 1 {
        members[0]
    } else {
        listed(members.drop_last()) + seq![0x2cu8] + members.last()
    }
}

/// Where a member stands in a list.
proof fn a_member_of_a_list(members: Seq<Seq<u8>>, k: int) -> (around: (Seq<u8>, Seq<u8>))
    requires
        0 <= k < members.len(),
    ensures
        listed(members) == around.0 + members[k] + around.1,
        around.0.len() > 0 ==> around.0.last() == 0x2c,
        around.1.len() > 0 ==> around.1[0] == 0x2c,
    decreases members.len(),
{
    let none = Seq::<u8>::empty();
    if members.len() == 1 {
        assert(none + members[0] + none =~= members[0]);
        (none, none)
    } else {
        let less = members.drop_last();
        let comma = seq![0x2cu8];
        if k == members.len() - 1 {
            let a = listed(less) + comma;
            assert(a + members[k] + none =~= a + members[k]);
            assert(a.last() == 0x2c);
            (a, none)
        } else {
            assert(less[k] == members[k]);
            let (a, b) = a_member_of_a_list(less, k);
            let c = b + comma + members.last();
            assert(a + members[k] + b + comma + members.last() =~= a + members[k] + c);
            if b.len() == 0 {
                assert(c[0] == 0x2c);
            } else {
                assert(c[0] == b[0]);
            }
            (a, c)
        }
    }
}

/// The members of the object, in their order.
spec fn info_members(info: InfoView, cid: u64, client_ip: Seq<char>) -> Seq<Seq<u8>> {
    seq![
        member(text("server_id"), quoted(info.server_id)),
        member(text("server_name"), quoted(info.server_name)),
        member(text("version"), quoted(info.version)),
        member(text("proto"), text("1")),
        member(text("host"), quoted(info.host)),
        member(text("port"), decimal(info.port as nat)),
        member(text("headers"), text("true")),
        member(text("max_payload"), decimal(info.max_payload as nat)),
        member(text("client_id"), decimal(cid as nat)),
        member(text("client_ip"), quoted(client_ip)),
    ]
}

/// A list of ten is its members one after the other.
proof fn ten_listed(m: Seq<Seq<u8>>)
    requires
        m.len() == 10,
    ensures
        ({
            let c = seq![0x2cu8];
            listed(m) == m[0] + c + m[1] + c + m[2] + c + m[3] + c + m[4] + c + m[5] + c + m[6] + c
                + m[7] + c + m[8] + c + m[9]
        }),
{
    reveal_with_fuel(listed, 11);
    let m9 = m.drop_last();
    let m8 = m9.drop_last();
    let m7 = m8.drop_last();
    let m6 = m7.drop_last();
    let m5 = m6.drop_last();
    let m4 = m5.drop_last();
    let m3 = m4.drop_last();
    let m2 = m3.drop_last();
    let m1 = m2.drop_last();
    assert(m1[0] == m[0]);
    assert(m2.last() == m[1] && m3.last() == m[2] && m4.last() == m[3] && m5.last() == m[4]);
    assert(m6.last() == m[5] && m7.last() == m[6] && m8.last() == m[7] && m9.last() == m[8]);
}

/// Putting together is the same in either order.
proof fn regroup(a: Seq<u8>, b: Seq<u8>, c: Seq<u8>)
    ensures
        a + (b + c) == a + b + c,
{
    assert(a + (b + c) =~= a + b + c);
}

/// A list of ten behind something else.
proof fn ten_behind(l: Seq<u8>, m: Seq<Seq<u8>>)
    requires
        m.len() == 10,
    ensures
        ({
            let c = seq![0x2cu8];
            l + listed(m) == l + m[0] + c + m[1] + c + m[2] + c + m[3] + c + m[4] + c + m[5] + c
                + m[6] + c + m[7] + c + m[8] + c + m[9]
        }),
{
    let c = seq![0x2cu8];
    ten_listed(m);
    let p0 = m[0];
    let p1 = p0 + c;
    regroup(l, p0, c);
    let p2 = p1 + m[1];
    regroup(l, p1, m[1]);
    let p3 = p2 + c;
    regroup(l, p2, c);
    let p4 = p3 + m[2];
    regroup(l, p3, m[2]);
    let p5 = p4 + c;
    regroup(l, p4, c);
    let p6 = p5 + m[3];
    regroup(l, p5, m[3]);
    let p7 = p6 + c;
    regroup(l, p6, c);
    let p8 = p7 + m[4];
    regroup(l, p7, m[4]);
    let p9 = p8 + c;
    regroup(l, p8, c);
    let p10 = p9 + m[5];
    regroup(l, p9, m[5]);
    let p11 = p10 + c;
    regroup(l, p10, c);
    let p12 = p11 + m[6];
    regroup(l, p11, m[6]);
    let p13 = p12 + c;
    regroup(l, p12, c);
    let p14 = p13 + m[7];
    regroup(l, p13, m[7]);
    let p15 = p14 + c;
    regroup(l, p14, c);
    let p16 = p15 + m[8];
    regroup(l, p15, m[8]);
    let p17 = p16 + c;
    regroup(l, p16, c);
    let p18 = p17 + m[9];
    regroup(l, p17, m[9]);
    assert(listed(m) == p18);
}

/// The object is its members between braces.
proof fn the_object_is_its_members(info: InfoView, cid: u64, client_ip: Seq<char>)
    ensures
        info_object(info, cid, client_ip) == seq![0x7bu8] + listed(
            info_members(info, cid, client_ip),
        ) + seq![0x7du8],
{
    let m = info_members(info, cid, client_ip);
    let c = seq![0x2cu8];
    the_pieces();
    a_string_is_a_member(text("server_id"), info.server_id);
    a_string_is_a_member(text("server_name"), info.server_name);
    a_string_is_a_member(text("version"), info.version);
    a_string_is_a_member(text("host"), info.host);
    a_string_is_a_member(text("client_ip"), client_ip);
    let (d0, d1, d2) = (
        decimal(info.port as nat),
        decimal(info.max_payload as nat),
        decimal(cid as nat),
    );
    let (e0, e1, e2) = (
        member(text("port"), Seq::empty()),
        member(text("max_payload"), Seq::empty()),
        member(text("client_id"), Seq::empty()),
    );
    a_number_is_a_member(text("port"), d0);
    a_number_is_a_member(text("max_payload"), d1);
    a_number_is_a_member(text("client_id"), d2);
    ten_behind(seq![0x7bu8], m);
    let head = seq![0x7bu8] + m[0] + c + m[1] + c + m[2];
    regroup(head, c + m[3], c);
    regroup(head, c, m[3]);
    let h2 = head + c + m[3] + c + m[4];
    regroup(h2, c, e0);
    regroup(h2 + c, e0, d0);
    let h3 = h2 + c + m[5];
    regroup(h3, c + m[6] + c, e1);
    regroup(h3, c + m[6], c);
    regroup(h3, c, m[6]);
    regroup(h3 + c + m[6] + c, e1, d1);
    let h4 = h3 + c + m[6] + c + m[7];
    regroup(h4, c, e2);
    regroup(h4 + c, e2, d2);
}

/// What a client is told when it connects: who the server is, where it listens, how large a body
/// may be, that it knows headers, and who the client is, each under its own key, and nothing that
/// a name holds can hide any of it.
pub proof fn info_says_what_it_should(info: InfoView, cid: u64, client_ip: Seq<char>)
    ensures
        ({
            let object = info_object(info, cid, client_ip);
            &&& info_line(info, cid, client_ip) == text("INFO ") + object + text(" \r\n")
            &&& object[0] == 0x7b
            &&& object.last() == 0x7d
            &&& has_member(object, text("server_id"), quoted(info.server_id))
            &&& has_member(object, text("server_name"), quoted(info.server_name))
            &&& has_member(object, text("version"), quoted(info.version))
            &&& has_member(object, text("proto"), text("1"))
            &&& has_member(object, text("host"), quoted(info.host))
            &&& has_member(object, text("port"), decimal(info.port as nat))
            &&& has_member(object, text("headers"), text("true"))
            &&& has_member(object, text("max_payload"), decimal(info.max_payload as nat))
            &&& has_member(object, text("client_id"), decimal(cid as nat))
            &&& has_member(object, text("client_ip"), quoted(client_ip))
        }),
{
    info_names_the_server(info, cid, client_ip);
    info_says_the_rest(info, cid, client_ip);
    info_is_an_object_on_a_line(info, cid, client_ip);
}

proof fn info_names_the_server(info: InfoView, cid: u64, client_ip: Seq<char>)
    ensures
        ({
            let object = info_object(info, cid, client_ip);
            &&& has_member(object, text("server_id"), quoted(info.server_id))
            &&& has_member(object, text("server_name"), quoted(info.server_name))
            &&& has_member(object, text("version"), quoted(info.version))
            &&& has_member(object, text("proto"), text("1"))
            &&& has_member(object, text("host"), quoted(info.host))
        }),
{
    let object = info_object(info, cid, client_ip);
    let m = info_members(info, cid, client_ip);
    the_object_is_its_members(info, cid, client_ip);
    each_is_there(object, m, 0, text("server_id"), quoted(info.server_id));
    each_is_there(object, m, 1, text("server_name"), quoted(info.server_name));
    each_is_there(object, m, 2, text("version"), quoted(info.version));
    each_is_there(object, m, 3, text("proto"), text("1"));
    each_is_there(object, m, 4, text("host"), quoted(info.host));
}

proof fn info_says_the_rest(info: InfoView, cid: u64, client_ip: Seq<char>)
    ensures
        ({
            let object = info_object(info, cid, client_ip);
            &&& has_member(object, text("port"), decimal(info.port as nat))
            &&& has_member(object, text("headers"), text("true"))
            &&& has_member(object, text("max_payload"), decimal(info.max_payload as nat))
            &&& has_member(object, text("client_id"), decimal(cid as nat))
            &&& has_member(object, text("client_ip"), quoted(client_ip))
        }),
{
    let object = info_object(info, cid, client_ip);
    let m = info_members(info, cid, client_ip);
    the_object_is_its_members(info, cid, client_ip);
    each_is_there(object, m, 5, text("port"), decimal(info.port as nat));
    each_is_there(object, m, 6, text("headers"), text("true"));
    each_is_there(object, m, 7, text("max_payload"), decimal(info.max_payload as nat));
    each_is_there(object, m, 8, text("client_id"), decimal(cid as nat));
    each_is_there(object, m, 9, text("client_ip"), quoted(client_ip));
}

proof fn info_is_an_object_on_a_line(info: InfoView, cid: u64, client_ip: Seq<char>)
    ensures
        ({
            let object = info_object(info, cid, client_ip);
            &&& info_line(info, cid, client_ip) == text("INFO ") + object + text(" \r\n")
            &&& object[0] == 0x7b
            &&& object.last() == 0x7d
        }),
{
    let object = info_object(info, cid, client_ip);
    let inside = listed(info_members(info, cid, client_ip));
    the_object_is_its_members(info, cid, client_ip);
    assert((seq![0x7bu8] + inside + seq![0x7du8])[0] == 0x7b);
    assert((seq![0x7bu8] + inside + seq![0x7du8]).last() == 0x7d);
    separators();
    reveal_strlit(" \r\n");
    ascii_text(" \r\n");
    assert(text(" \r\n") =~= text(" ") + crlf());
    regroup(text("INFO ") + object, text(" "), crlf());
}

proof fn each_is_there(
    object: Seq<u8>,
    m: Seq<Seq<u8>>,
    k: int,
    key: Seq<u8>,
    value: Seq<u8>,
)
    requires
        object == seq![0x7bu8] + listed(m) + seq![0x7du8],
        0 <= k < m.len(),
        m[k] == member(key, value),
    ensures
        has_member(object, key, value),
{
    let (a, b) = a_member_of_a_list(m, k);
    let (x, y) = (seq![0x7bu8] + a, b + seq![0x7du8]);
    assert(object =~= x + member(key, value) + y);
    if a.len() > 0 {
        assert(x.last() == a.last());
    }
    if b.len() > 0 {
        assert(y[0] == b[0]);
    }
    a_member_is_there(object, x, key, value, y);
}

/// A string in the object ends at its own quotation mark, and stands for the text that was meant.
pub proof fn a_quoted_text_is_read_back(chars: Seq<char>, rest: Seq<u8>)
    ensures
        ({
            let inside = (quoted(chars) + rest).skip(1);
            &&& string_end(inside) is Some
            &&& unescaped(inside.take(string_end(inside)->0)) == encode_utf8(chars)
        }),
{
    let inside = (quoted(chars) + rest).skip(1);
    assert(inside =~= escaped(chars) + seq![QUOTE] + rest);
    a_string_ends_where_it_should(chars, rest);
    a_string_is_read_back(chars);
    assert(inside.take(escaped(chars).len() as int) =~= escaped(chars));
}

} // verus!
