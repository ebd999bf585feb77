//! Bytes of text: literals, decimal numbers and comparison, as the wire sees them.
use vstd::prelude::*;
use vstd::utf8::encode_utf8;

verus! {

/// The space that separates the fields of a control line.
pub const SPACE: u8 = 0x20;

/// The other byte that separates the fields of a control line.
pub const TAB: u8 = 0x09;

/// The first byte of a line end.
pub const CR: u8 = 0x0d;

/// The second byte of a line end.
pub const LF: u8 = 0x0a;

/// The digit zero.
pub const ZERO: u8 = 0x30;

/// The bytes of a piece of text.
pub open spec fn text(s: &str) -> Seq<u8> {
    encode_utf8(s@)
}

/// `String::push` of std appends the character.
pub assume_specification[ String::push ](s: &mut String, c: char)
    ensures
        final(s)@ == old(s)@.push(c),
;

/// The line end, CR then LF.
pub open spec fn crlf() -> Seq<u8> {
    seq![CR, LF]
}

/// ASCII text is its characters, one byte each.
pub proof fn ascii_text(s: &str)
    requires
        s.is_ascii(),
    ensures
        text(s).len() == s@.len(),
        forall|i: int| 0 <= i < s@.len() ==> #[trigger] text(s)[i] == s@[i] as u8,
{
    vstd::utf8::is_ascii_chars_encode_utf8(s@);
}

/// The bytes of the separators.
pub proof fn separators()
    ensures
        text(" ") == seq![SPACE],
        text("\r\n") == crlf(),
{
    reveal_strlit(" ");
    reveal_strlit("\r\n");
    ascii_text(" ");
    ascii_text("\r\n");
    assert(text(" ") =~= seq![SPACE]);
    assert(text("\r\n") =~= crlf());
}

/// Is `b` an ASCII digit?
pub open spec fn is_digit(b: u8) -> bool {
    ZERO <= b <= 0x39
}

/// The digits of `n` in decimal, most significant first, without leading zeros.
pub open spec fn decimal(n: nat) -> Seq<u8>
    decreases n,
{
    if n < 10 {
        seq![(ZERO + n) as u8]
    } else {
        decimal(n / 10).push((ZERO + n % 10) as u8)
    }
}

/// The number that a run of ASCII digits writes in decimal.
pub open spec fn decimal_value(s: Seq<u8>) -> nat
    decreases s.len(),
{
    if s.len() == 0 {
        0
    } else {
        decimal_value(s.drop_last()) * 10 + (s.last() - ZERO) as nat
    }
}

/// Writing a number in decimal and reading the digits gives the number back.
pub proof fn decimal_round_trip(n: nat)
    ensures
        decimal_value(decimal(n)) == n,
        decimal(n).len() > 0,
        forall|i: int| 0 <= i < decimal(n).len() ==> is_digit(#[trigger] decimal(n)[i]),
    decreases n,
{
    if n < 10 {
        assert(decimal(n).drop_last() =~= Seq::<u8>::empty());
        assert(decimal_value(decimal(n).drop_last()) == 0);
    } else {
        decimal_round_trip(n / 10);
        assert(decimal(n).drop_last() =~= decimal(n / 10));
    }
}

/// A number below a power of ten has at most that many digits.
pub proof fn decimal_is_short(n: nat, digits: nat)
    requires
        digits >= 1,
        n < vstd::arithmetic::power::pow(10, digits),
    ensures
        decimal(n).len() <= digits,
    decreases digits,
{
    reveal(vstd::arithmetic::power::pow);
    if n >= 10 {
        assert(digits > 1) by {
            assert(vstd::arithmetic::power::pow(10, 1) == 10) by {
                reveal_with_fuel(vstd::arithmetic::power::pow, 3);
            }
        }
        let below: int = vstd::arithmetic::power::pow(10, (digits - 1) as nat);
        assert(n < 10 * below);
        assert(n / 10 < below);
        decimal_is_short(n / 10, (digits - 1) as nat);
    }
}

/// Appends the decimal digits of `n`, straight into the buffer.
pub fn push_u64(dst: &mut Vec<u8>, n: u64)
    ensures
        final(dst)@ == old(dst)@ + decimal(n as nat),
    decreases n,
{
    if n >= 10 {
        push_u64(dst, n / 10);
    }
    dst.push(ZERO + (n % 10) as u8);
    assert(dst@ =~= old(dst)@ + decimal(n as nat));
}

/// Do the two slices hold the same bytes?
pub fn same_bytes(a: &[u8], b: &[u8]) -> (r: bool)
    ensures
        r == (a@ == b@),
{
    if a.len() != b.len() {
        return false;
    }
    let mut i: usize = 0;
    while i < a.len()
        invariant
            a.len() == b.len(),
            i <= a.len(),
            forall|j: int| 0 <= j < i ==> a@[j] == b@[j],
        decreases a.len() - i,
    {
        if a[i] != b[i] {
            assert(a@[i as int] != b@[i as int]);
            return false;
        }
        i += 1;
    }
    assert(a@ =~= b@);
    true
}

} // verus!
