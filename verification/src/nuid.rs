//! Identifiers, and the generator they come from.
//!
//! A server identifier is an opaque name: 56 characters of base32, the first of them
//! the letter that marks a server.
use vstd::prelude::*;

verus! {

/// The base32 alphabet of the identifiers.
pub const ALPHABET: &'static str = "ABCDEFGHIJKLMNOPQRSTUVWXYZ234567";

/// The first character of a server identifier.
pub const PREFIX: char = 'N';

/// The length of a server identifier.
pub const LEN: usize = 56;

/// What the state of a generator advances by.
pub const GAMMA: u64 = 0x9E37_79B9_7F4A_7C15;

/// `x` with its bits moved up by `n` places, those that fall off coming in below.
pub open spec fn rotated(x: u64, n: u64) -> u64 {
    (x << n) | (x >> ((64 - n) as u64))
}

/// The product without what does not fit.
pub open spec fn times(a: u64, b: u64) -> u64 {
    ((a * b) % 0x1_0000_0000_0000_0000) as u64
}

/// The sum without what does not fit.
pub open spec fn plus(a: u64, b: u64) -> u64 {
    ((a + b) % 0x1_0000_0000_0000_0000) as u64
}

/// The first state that a seed gives.
pub open spec fn seeded(seed: u64) -> u64 {
    rotated(times(seed, GAMMA), 17)
}

/// The state after a draw.
pub open spec fn advanced(state: u64) -> u64 {
    plus(state, GAMMA)
}

/// What a draw from `state` gives: splitmix64.
pub open spec fn drawn(state: u64) -> u64 {
    let a = advanced(state);
    let b = times(a ^ (a >> 30), 0xBF58_476D_1CE4_E5B9);
    let c = times(b ^ (b >> 27), 0x94D0_49BB_1331_11EB);
    c ^ (c >> 31)
}

/// The state after `n` draws.
pub open spec fn advanced_by(state: u64, n: nat) -> u64
    decreases n,
{
    if n == 0 {
        state
    } else {
        advanced(advanced_by(state, (n - 1) as nat))
    }
}

pub(crate) fn rotate_left(x: u64, n: u64) -> (r: u64)
    requires
        0 < n < 64,
    ensures
        r == rotated(x, n),
{
    (x << n) | (x >> (64 - n))
}

/// A splitmix64 generator. Its view is its state.
pub struct Rng {
    state: u64,
}

impl View for Rng {
    type V = u64;

    closed spec fn view(&self) -> u64 {
        self.state
    }
}

impl Rng {
    /// A generator from a seed. The seed is the caller's: two servers on one host
    /// should not share it.
    pub fn new(seed: u64) -> (r: Rng)
        ensures
            r@ == seeded(seed),
    {
        Rng { state: rotate_left(seed.wrapping_mul(GAMMA), 17) }
    }

    /// The next 64 bits.
    pub fn next_u64(&mut self) -> (r: u64)
        ensures
            final(self)@ == advanced(old(self)@),
            r == drawn(old(self)@),
    {
        self.state = self.state.wrapping_add(GAMMA);
        let mut z: u64 = self.state;
        z = (z ^ (z >> 30)).wrapping_mul(0xBF58_476D_1CE4_E5B9);
        z = (z ^ (z >> 27)).wrapping_mul(0x94D0_49BB_1331_11EB);
        z ^ (z >> 31)
    }

    /// A number below `bound`; 0, with nothing drawn, where there is none.
    pub fn below(&mut self, bound: u64) -> (r: u64)
        ensures
            bound == 0 ==> r == 0 && final(self)@ == old(self)@,
            bound > 0 ==> r == drawn(old(self)@) % bound && r < bound && final(self)@ == advanced(
                old(self)@,
            ),
    {
        if bound == 0 {
            return 0;
        }
        self.next_u64() % bound
    }
}

/// The identifier that a generator in `state` gives: the prefix, then one character of
/// the alphabet for each draw.
pub open spec fn identifier(state: u64) -> Seq<char> {
    Seq::new(
        LEN as nat,
        |i: int|
            if i == 0 {
                PREFIX
            } else {
                ALPHABET@[(drawn(advanced_by(state, (i - 1) as nat)) % 32) as int]
            },
    )
}

/// A fresh identifier.
pub fn server_id(rng: &mut Rng) -> (r: String)
    ensures
        r@ == identifier(old(rng)@),
        r@.len() == LEN,
        r@[0] == PREFIX,
        forall|i: int| 1 <= i < LEN ==> ALPHABET@.contains(#[trigger] r@[i]),
        final(rng)@ == advanced_by(old(rng)@, (LEN - 1) as nat),
{
    let ghost state = rng@;
    let mut out = String::new();
    out.push(PREFIX);
    let mut i: usize = 1;
    proof {
        reveal_strlit("ABCDEFGHIJKLMNOPQRSTUVWXYZ234567");
    }
    assert(out@ =~= identifier(state).take(1));
    while i < LEN
        invariant
            1 <= i <= LEN,
            ALPHABET@.len() == 32,
            ALPHABET.is_ascii(),
            state == old(rng)@,
            rng@ == advanced_by(state, (i - 1) as nat),
            out@ == identifier(state).take(i as int),
        decreases LEN - i,
    {
        let k: usize = (rng.next_u64() % 32) as usize;
        out.push(ALPHABET.get_char(k));
        assert(out@ =~= identifier(state).take(i + 1));
        i += 1;
    }
    assert(out@ =~= identifier(state));
    out
}

} // verus!
