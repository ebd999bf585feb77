//! Text as characters: trimming, splitting into lines, and reading integers.
use vstd::prelude::*;
use vstd::utf8::{decode_utf8, encode_utf8, is_ascii_chars, valid_utf8};

use crate::text::{decimal, decimal_round_trip, decimal_value, is_digit};

verus! {

/// The characters of a string.
pub fn chars_of(s: &str) -> (r: Vec<char>)
    ensures
        r@ == s@,
{
    let mut out: Vec<char> = Vec::new();
    for c in it: s.chars()
        invariant
            it.seq() == s@,
            out@ == it.seq().take(it.index() as int),
    {
        out.push(c);
        assert(out@ =~= it.seq().take(it.index() + 1));
    }
    assert(out@ =~= s@);
    out
}

/// The string of some characters.
pub fn string_of(s: &[char]) -> (r: String)
    ensures
        r@ == s@,
{
    let mut out = String::new();
    let mut i: usize = 0;
    assert(out@ =~= s@.take(0));
    while i < s.len()
        invariant
            i <= s@.len(),
            out@ == s@.take(i as int),
        decreases s@.len() - i,
    {
        out.push(s[i]);
        assert(out@ =~= s@.take(i + 1));
        i += 1;
    }
    assert(s@.take(i as int) =~= s@);
    out
}

/// Are the characters those of the text?
pub fn is_text(s: &[char], literal: &str) -> (r: bool)
    ensures
        r == (s@ == literal@),
{
    let wanted = chars_of(literal);
    if s.len() != wanted.len() {
        return false;
    }
    let mut i: usize = 0;
    while i < s.len()
        invariant
            i <= s@.len(),
            wanted@ == literal@,
            s@.len() == literal@.len(),
            forall|j: int| 0 <= j < i ==> s@[j] == literal@[j],
        decreases s@.len() - i,
    {
        if s[i] != wanted[i] {
            assert(s@[i as int] != literal@[i as int]);
            return false;
        }
        i += 1;
    }
    assert(s@ =~= literal@);
    true
}

/// Do the characters begin with the text?
pub fn begins_with(s: &[char], literal: &str) -> (r: bool)
    ensures
        r == literal@.is_prefix_of(s@),
{
    let n = literal.unicode_len();
    if s.len() < n {
        return false;
    }
    let head: &[char] = &s[0..n];
    assert(head@ =~= s@.subrange(0, n as int));
    is_text(head, literal)
}

/// Where a character first stands.
pub open spec fn first_at(s: Seq<char>, c: char) -> Option<int>
    decreases s.len(),
{
    if s.len() == 0 {
        None
    } else if s[0] == c {
        Some(0)
    } else {
        match first_at(s.skip(1), c) {
            Some(i) => Some(i + 1),
            None => None,
        }
    }
}

/// Where a character first stands.
pub fn find(s: &[char], c: char) -> (r: Option<usize>)
    ensures
        match r {
            Some(i) => first_at(s@, c) == Some(i as int) && i < s@.len() && s@[i as int] == c,
            None => first_at(s@, c) is None,
        },
{
    let mut i: usize = 0;
    assert(s@.skip(0) =~= s@);
    while i < s.len()
        invariant
            i <= s@.len(),
            first_at(s@, c) == match first_at(s@.skip(i as int), c) {
                Some(k) => Some(k + i),
                None => None,
            },
        decreases s@.len() - i,
    {
        assert(s@.skip(i as int)[0] == s@[i as int]);
        if s[i] == c {
            return Some(i);
        }
        assert(s@.skip(i as int).skip(1) =~= s@.skip(i + 1));
        i += 1;
    }
    None
}

// ----------------------------------------------------------------------- trimming --

/// Is the character white space, as Unicode has it?
pub open spec fn white_space(c: char) -> bool {
    let n = c as u32;
    ||| 0x09 <= n <= 0x0d
    ||| n == 0x20
    ||| n == 0x85
    ||| n == 0xa0
    ||| n == 0x1680
    ||| 0x2000 <= n <= 0x200a
    ||| n == 0x2028
    ||| n == 0x2029
    ||| n == 0x202f
    ||| n == 0x205f
    ||| n == 0x3000
}

/// What is trimmed off.
#[derive(Clone, Copy, PartialEq, Eq, Structural)]
pub enum Trim {
    /// White space.
    Space,
    /// Commas.
    Comma,
    /// Double quotation marks.
    Double,
    /// Quotation marks of either kind.
    Quotes,
}

/// Is the character trimmed off?
pub open spec fn trims(what: Trim, c: char) -> bool {
    match what {
        Trim::Space => white_space(c),
        Trim::Comma => c == ',',
        Trim::Double => c == '"',
        Trim::Quotes => c == '"' || c == '\'',
    }
}

/// The text without what is trimmed off at its front.
pub open spec fn trim_front(what: Trim, s: Seq<char>) -> Seq<char>
    decreases s.len(),
{
    if s.len() > 0 && trims(what, s[0]) {
        trim_front(what, s.skip(1))
    } else {
        s
    }
}

/// The text without what is trimmed off at its back.
pub open spec fn trim_back(what: Trim, s: Seq<char>) -> Seq<char>
    decreases s.len(),
{
    if s.len() > 0 && trims(what, s.last()) {
        trim_back(what, s.drop_last())
    } else {
        s
    }
}

/// The text without what is trimmed off at both ends.
pub open spec fn trim_both(what: Trim, s: Seq<char>) -> Seq<char> {
    trim_back(what, trim_front(what, s))
}

fn is_trimmed(what: Trim, c: char) -> (r: bool)
    ensures
        r == trims(what, c),
{
    let n = c as u32;
    match what {
        Trim::Space => (0x09 <= n && n <= 0x0d) || n == 0x20 || n == 0x85 || n == 0xa0 || n
            == 0x1680 || (0x2000 <= n && n <= 0x200a) || n == 0x2028 || n == 0x2029 || n == 0x202f
            || n == 0x205f || n == 0x3000,
        Trim::Comma => c == ',',
        Trim::Double => c == '"',
        Trim::Quotes => c == '"' || c == '\'',
    }
}

/// The text without what is trimmed off at its back.
pub fn trim_end(what: Trim, s: &[char]) -> (r: &[char])
    ensures
        r@ == trim_back(what, s@),
{
    let mut n = s.len();
    assert(s@.take(n as int) =~= s@);
    while n > 0 && is_trimmed(what, s[n - 1])
        invariant
            n <= s@.len(),
            trim_back(what, s@.take(n as int)) == trim_back(what, s@),
        decreases n,
    {
        assert(s@.take(n as int).last() == s@[n - 1]);
        assert(s@.take(n as int).drop_last() =~= s@.take(n - 1));
        n = n - 1;
    }
    proof {
        if n > 0 {
            assert(s@.take(n as int).last() == s@[n - 1]);
        }
    }
    let r: &[char] = &s[0..n];
    assert(r@ =~= s@.take(n as int));
    r
}

/// The text without what is trimmed off at both ends.
pub fn trim(what: Trim, s: &[char]) -> (r: &[char])
    ensures
        r@ == trim_both(what, s@),
{
    let mut i: usize = 0;
    assert(s@.skip(0) =~= s@);
    while i < s.len() && is_trimmed(what, s[i])
        invariant
            i <= s@.len(),
            trim_front(what, s@.skip(i as int)) == trim_front(what, s@),
        decreases s@.len() - i,
    {
        assert(s@.skip(i as int)[0] == s@[i as int]);
        assert(s@.skip(i as int).skip(1) =~= s@.skip(i + 1));
        i += 1;
    }
    proof {
        if i < s@.len() {
            assert(s@.skip(i as int)[0] == s@[i as int]);
        }
    }
    let tail: &[char] = &s[i..s.len()];
    assert(tail@ =~= s@.skip(i as int));
    trim_end(what, tail)
}

// -------------------------------------------------------------------------- lines --

/// A line without the carriage return that belongs to its line end.
pub open spec fn without_return(line: Seq<char>) -> Seq<char> {
    if line.len() > 0 && line.last() == '\r' {
        line.drop_last()
    } else {
        line
    }
}

/// The lines of a text: what stands before each newline, and what stands after the last
/// one if that is anything. A carriage return before a newline is part of the line end.
pub open spec fn lines_of(s: Seq<char>) -> Seq<Seq<char>>
    decreases s.len(),
{
    if s.len() == 0 {
        Seq::empty()
    } else {
        match first_at(s, '\n') {
            Some(i) => if 0 <= i < s.len() {
                seq![without_return(s.take(i))] + lines_of(s.skip(i + 1))
            } else {
                seq![s]
            },
            None => seq![s],
        }
    }
}

/// The first line of a text that is not empty, and what follows it.
pub fn split_line(s: &[char]) -> (r: (&[char], &[char]))
    requires
        s@.len() > 0,
    ensures
        lines_of(s@) == seq![r.0@] + lines_of(r.1@),
        r.1@.len() < s@.len(),
{
    match find(s, '\n') {
        Some(i) => {
            let end: usize = if i > 0 && s[i - 1] == '\r' {
                i - 1
            } else {
                i
            };
            let line: &[char] = &s[0..end];
            let rest: &[char] = &s[i + 1..s.len()];
            proof {
                let full = s@.take(i as int);
                if i > 0 {
                    assert(full.last() == s@[i - 1]);
                }
                assert(line@ =~= without_return(full));
                assert(rest@ =~= s@.skip(i + 1));
            }
            (line, rest)
        },
        None => {
            let rest: &[char] = &s[s.len()..s.len()];
            assert(rest@ =~= Seq::<char>::empty());
            assert(lines_of(rest@) =~= Seq::empty());
            assert(seq![s@] + lines_of(rest@) =~= seq![s@]);
            (s, rest)
        },
    }
}

// ----------------------------------------------------------------------- integers --

/// What a digit stands for, in a number system of up to sixteen digits.
pub open spec fn digit_value(c: char, radix: nat) -> Option<nat> {
    let n = c as u32;
    let d = if 0x30 <= n <= 0x39 {
        (n - 0x30) as nat
    } else if 0x61 <= n <= 0x66 {
        (n - 0x57) as nat
    } else if 0x41 <= n <= 0x46 {
        (n - 0x37) as nat
    } else {
        16
    };
    if d < radix {
        Some(d)
    } else {
        None
    }
}

/// The number that some digits write, if they are all digits.
pub open spec fn digits_value(s: Seq<char>, radix: nat) -> Option<nat>
    decreases s.len(),
{
    if s.len() == 0 {
        Some(0)
    } else {
        match (digits_value(s.drop_last(), radix), digit_value(s.last(), radix)) {
            (Some(n), Some(d)) => Some(n * radix + d),
            _ => None,
        }
    }
}

/// The integer that a text writes: an optional sign, then at least one digit, and a value
/// that 64 bits can hold.
pub open spec fn integer_value(s: Seq<char>, radix: nat) -> Option<int> {
    let signed = s.len() > 0 && (s[0] == '+' || s[0] == '-');
    let digits = if signed {
        s.skip(1)
    } else {
        s
    };
    if digits.len() == 0 {
        None
    } else {
        match digits_value(digits, radix) {
            None => None,
            Some(n) => {
                let value = if s[0] == '-' {
                    -n
                } else {
                    n as int
                };
                if i64::MIN <= value <= i64::MAX {
                    Some(value)
                } else {
                    None
                }
            },
        }
    }
}

fn digit(c: char, radix: u64) -> (r: Option<u64>)
    requires
        radix <= 16,
    ensures
        match r {
            Some(d) => digit_value(c, radix as nat) == Some(d as nat) && d < radix,
            None => digit_value(c, radix as nat) is None,
        },
{
    let n = c as u32;
    let d: u64 = if 0x30 <= n && n <= 0x39 {
        (n - 0x30) as u64
    } else if 0x61 <= n && n <= 0x66 {
        (n - 0x57) as u64
    } else if 0x41 <= n && n <= 0x46 {
        (n - 0x37) as u64
    } else {
        16
    };
    if d < radix {
        Some(d)
    } else {
        None
    }
}

/// More digits make no smaller number.
pub proof fn digits_grow(s: Seq<char>, k: int, radix: nat)
    requires
        0 <= k <= s.len(),
        radix >= 2,
    ensures
        digits_value(s.take(k), radix) is None ==> digits_value(s, radix) is None,
        digits_value(s, radix) matches Some(n) ==> digits_value(s.take(k), radix)->Some_0 <= n,
    decreases s.len() - k,
{
    if k < s.len() {
        digits_grow(s, k + 1, radix);
        assert(s.take(k + 1).drop_last() =~= s.take(k));
        if let Some(n) = digits_value(s.take(k), radix) {
            assert(n * radix >= n) by (nonlinear_arith)
                requires
                    radix >= 2,
                    n >= 0,
            ;
        }
    } else {
        assert(s.take(k) =~= s);
    }
}

/// The largest magnitude that a signed 64-bit integer can have.
pub const LARGEST: u64 = 0x8000_0000_0000_0000;

/// The integer that a text writes.
pub fn integer(s: &[char], radix: u64) -> (r: Option<i64>)
    requires
        2 <= radix <= 16,
    ensures
        match r {
            Some(n) => integer_value(s@, radix as nat) == Some(n as int),
            None => integer_value(s@, radix as nat) is None,
        },
{
    if s.len() == 0 {
        return None;
    }
    let negative = s[0] == '-';
    let start: usize = if negative || s[0] == '+' {
        1
    } else {
        0
    };
    let ghost digits = s@.skip(start as int);
    assert(start == 0 ==> digits =~= s@);
    if start == s.len() {
        return None;
    }
    let mut n: u64 = 0;
    let mut i: usize = start;
    assert(digits.take(0) =~= Seq::<char>::empty());
    while i < s.len()
        invariant
            start <= i <= s@.len(),
            2 <= radix <= 16,
            digits == s@.skip(start as int),
            n <= LARGEST,
            digits_value(digits.take(i - start), radix as nat) == Some(n as nat),
            digits.len() > 0,
            start == 0 ==> digits == s@,
            s@.len() > 0,
            start == 1 <==> (s@[0] == '+' || s@[0] == '-'),
            start <= 1,
        decreases s@.len() - i,
    {
        let ghost k = i - start;
        proof {
            digits_grow(digits, k + 1, radix as nat);
            assert(digits.take(k + 1).drop_last() =~= digits.take(k));
            assert(digits.take(k + 1).last() == s@[i as int]);
        }
        let d = match digit(s[i], radix) {
            Some(d) => d,
            None => {
                return None;
            },
        };
        proof {
            assert(n * radix <= LARGEST * 16) by (nonlinear_arith)
                requires
                    n <= LARGEST,
                    radix <= 16,
            ;
        }
        let wide: u128 = n as u128 * radix as u128 + d as u128;
        if wide > LARGEST as u128 {
            return None;
        }
        n = wide as u64;
        i += 1;
    }
    assert(digits.take(i - start) =~= digits);
    if negative {
        if n == LARGEST {
            Some(i64::MIN)
        } else {
            Some(-(n as i64))
        }
    } else if n == LARGEST {
        None
    } else {
        Some(n as i64)
    }
}

/// The number that a text writes, if it is no more than `max`: an optional plus sign, then
/// at least one decimal digit.
pub open spec fn number_value(s: Seq<char>, max: nat) -> Option<nat> {
    let digits = if s.len() > 0 && s[0] == '+' {
        s.skip(1)
    } else {
        s
    };
    if digits.len() == 0 {
        None
    } else {
        match digits_value(digits, 10) {
            Some(n) => if n <= max {
                Some(n)
            } else {
                None
            },
            None => None,
        }
    }
}

/// The number that a text writes, if it is no more than `max`.
pub fn number(s: &[char], max: u64) -> (r: Option<u64>)
    ensures
        match r {
            Some(n) => number_value(s@, max as nat) == Some(n as nat),
            None => number_value(s@, max as nat) is None,
        },
{
    let start: usize = if s.len() > 0 && s[0] == '+' {
        1
    } else {
        0
    };
    let ghost digits = s@.skip(start as int);
    assert(start == 0 ==> digits =~= s@);
    if start == s.len() {
        return None;
    }
    let mut n: u64 = 0;
    let mut i: usize = start;
    assert(digits.take(0) =~= Seq::<char>::empty());
    while i < s.len()
        invariant
            start <= i <= s@.len(),
            digits == s@.skip(start as int),
            n <= max,
            digits_value(digits.take(i - start), 10) == Some(n as nat),
            digits.len() > 0,
            start == 0 ==> digits == s@,
            s@.len() > 0,
            start == 1 <==> s@[0] == '+',
            start <= 1,
        decreases s@.len() - i,
    {
        let ghost k = i - start;
        proof {
            digits_grow(digits, k + 1, 10);
            assert(digits.take(k + 1).drop_last() =~= digits.take(k));
            assert(digits.take(k + 1).last() == s@[i as int]);
        }
        let d = match digit(s[i], 10) {
            Some(d) => d,
            None => {
                return None;
            },
        };
        let wide: u128 = n as u128 * 10 + d as u128;
        if wide > max as u128 {
            return None;
        }
        n = wide as u64;
        i += 1;
    }
    assert(digits.take(i - start) =~= digits);
    Some(n)
}

/// The characters of some ASCII bytes.
pub open spec fn ascii_chars(s: Seq<u8>) -> Seq<char> {
    Seq::new(s.len(), |i: int| s[i] as char)
}

/// A number written in decimal is read back, with no white space to take off.
pub proof fn a_decimal_is_a_number(n: nat)
    ensures
        number_value(ascii_chars(decimal(n)), n) == Some(n),
        trim_both(Trim::Space, ascii_chars(decimal(n))) == ascii_chars(decimal(n)),
        valid_utf8(decimal(n)),
        decode_utf8(decimal(n)) == ascii_chars(decimal(n)),
{
    let d = decimal(n);
    let cs = ascii_chars(d);
    decimal_round_trip(n);
    assert(forall|i: int| 0 <= i < d.len() ==> is_digit(#[trigger] d[i]));
    assert forall|i: int| 0 <= i < cs.len() implies 0x30 <= #[trigger] cs[i] as u32 && cs[i] as u32
        <= 0x39 && cs[i] as u8 == d[i] by {
        assert(is_digit(d[i]));
    }
    digits_of_bytes(d);
    assert(cs[0] as u32 != '+' as u32);
    assert(!white_space(cs[0]));
    assert(!white_space(cs.last()));
    assert(is_ascii_chars(cs)) by {
        assert forall|i: int| 0 <= i < cs.len() implies (cs[i] as nat) < 128 by {
            assert(cs[i] as u32 <= 0x39);
        }
    }
    vstd::utf8::is_ascii_chars_encode_utf8(cs);
    assert(encode_utf8(cs) =~= d);
    vstd::utf8::encode_utf8_valid_utf8(cs);
    vstd::utf8::encode_utf8_decode_utf8(cs);
}

/// Bytes that are all digits write the same number as their characters do.
proof fn digits_of_bytes(d: Seq<u8>)
    requires
        forall|i: int| 0 <= i < d.len() ==> is_digit(#[trigger] d[i]),
    ensures
        digits_value(ascii_chars(d), 10) == Some(decimal_value(d)),
    decreases d.len(),
{
    if d.len() > 0 {
        digits_of_bytes(d.drop_last());
        assert(ascii_chars(d).drop_last() =~= ascii_chars(d.drop_last()));
        let last = d.last();
        assert(is_digit(d[d.len() - 1]));
        assert(ascii_chars(d).last() == last as char);
        assert(last as char as u32 == last as u32);
    }
}

} // verus!
