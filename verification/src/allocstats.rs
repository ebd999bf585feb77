//! What a counting allocator reports: how many allocations there were at each site that
//! takes memory on purpose, and how many of each size.
use vstd::prelude::*;

use crate::config::{decimal_chars, push_number};

verus! {

/// Every place that takes memory on purpose, in the order in which they are reported.
#[derive(Debug, Clone, Copy, PartialEq, Eq, Structural)]
pub enum Site {
    /// The reader's reusable buffer, when it could not be reclaimed in place.
    ReadBuf,
    /// The batch of parsed operations, when it grew.
    Events,
    /// A frame's bytes taken from an arena: one per chunk, not per frame.
    FrameChunk,
    /// A delivery's payload copy.
    Payload,
    /// The copies of a subscription's subject, queue and id.
    Subscribe,
    /// A control line that the server says.
    ControlLine,
    /// A connection's record and everything that hangs off it.
    Connection,
    /// The matched subscriptions.
    Routing,
    /// Anything else.
    Other,
}

impl Site {
    /// How many sites there are.
    pub const COUNT: usize = 9;

    /// Where a site stands in the report.
    pub open spec fn place(self) -> int {
        match self {
            Site::ReadBuf => 0,
            Site::Events => 1,
            Site::FrameChunk => 2,
            Site::Payload => 3,
            Site::Subscribe => 4,
            Site::ControlLine => 5,
            Site::Connection => 6,
            Site::Routing => 7,
            Site::Other => 8,
        }
    }

    /// Where a site stands in the report.
    pub fn index(self) -> (r: usize)
        ensures
            r == self.place(),
            r < Site::COUNT,
    {
        match self {
            Site::ReadBuf => 0,
            Site::Events => 1,
            Site::FrameChunk => 2,
            Site::Payload => 3,
            Site::Subscribe => 4,
            Site::ControlLine => 5,
            Site::Connection => 6,
            Site::Routing => 7,
            Site::Other => 8,
        }
    }
}

/// The name of the site at a place.
pub open spec fn site_name(place: int) -> Seq<char> {
    if place == 0 {
        "read_buf"@
    } else if place == 1 {
        "events"@
    } else if place == 2 {
        "frame_chunk"@
    } else if place == 3 {
        "payload"@
    } else if place == 4 {
        "subscribe"@
    } else if place == 5 {
        "control_line"@
    } else if place == 6 {
        "connection"@
    } else if place == 7 {
        "routing"@
    } else {
        "other"@
    }
}

/// The name of the site at a place.
pub fn name_at(place: usize) -> (r: &'static str)
    ensures
        r@ == site_name(place as int),
{
    match place {
        0 => "read_buf",
        1 => "events",
        2 => "frame_chunk",
        3 => "payload",
        4 => "subscribe",
        5 => "control_line",
        6 => "connection",
        7 => "routing",
        _ => "other",
    }
}

/// Notes that memory was asked for at a site.
pub fn tag(counts: &mut [u64; 9], site: Site)
    ensures
        final(counts)@ == old(counts)@.update(
            site.place(),
            crate::nuid::plus(old(counts)@[site.place()], 1),
        ),
{
    let i = site.index();
    counts[i] = counts[i].wrapping_add(1);
    assert(counts@ =~= old(counts)@.update(
        site.place(),
        crate::nuid::plus(old(counts)@[site.place()], 1),
    ));
}

/// The counts of the first sites, each with the name before it.
pub open spec fn tags_text(counts: Seq<u64>, n: int) -> Seq<char>
    decreases n,
{
    if n <= 0 {
        "alloctags"@
    } else {
        tags_text(counts, n - 1) + " "@ + site_name(n - 1) + "="@ + decimal_chars(
            counts[n - 1] as nat,
        )
    }
}

/// The counts in one line, in a fixed order, so that two runs can be laid side by side.
pub fn tag_line(counts: &[u64; 9]) -> (r: String)
    ensures
        r@ == tags_text(counts@, Site::COUNT as int),
{
    let mut out = "alloctags".to_owned();
    let mut i: usize = 0;
    while i < 9
        invariant
            i <= 9,
            counts@.len() == 9,
            out@ == tags_text(counts@, i as int),
        decreases 9 - i,
    {
        out.append(" ");
        out.append(name_at(i));
        out.append("=");
        push_number(&mut out, counts[i]);
        i += 1;
    }
    out
}

/// How many allocations the tags account for, as the counters count.
pub open spec fn tagged(counts: Seq<u64>, n: int) -> u64
    decreases n,
{
    if n <= 0 {
        0
    } else {
        crate::nuid::plus(tagged(counts, n - 1), counts[n - 1])
    }
}

/// How far apart two counters are that start over when they are full.
pub open spec fn apart(a: u64, b: u64) -> int {
    let ahead = if a >= b {
        a - b
    } else {
        a - b + 0x1_0000_0000_0000_0000
    };
    if ahead <= 0x8000_0000_0000_0000 {
        ahead
    } else {
        0x1_0000_0000_0000_0000 - ahead
    }
}

/// By how many allocations the tags and the allocator's own count differ: a site that was
/// never tagged shows up as a gap.
pub fn untagged(allocs: u64, counts: &[u64; 9]) -> (r: u64)
    ensures
        r == apart(allocs, tagged(counts@, Site::COUNT as int)),
{
    let mut sum: u64 = 0;
    let mut i: usize = 0;
    while i < 9
        invariant
            i <= 9,
            counts@.len() == 9,
            sum == tagged(counts@, i as int),
        decreases 9 - i,
    {
        sum = sum.wrapping_add(counts[i]);
        i += 1;
    }
    let ahead = allocs.wrapping_sub(sum);
    if ahead <= 0x8000_0000_0000_0000 {
        ahead
    } else {
        0u64.wrapping_sub(ahead)
    }
}

// ------------------------------------------------------------------------ histogram --

/// How many sizes are told apart.
pub const HIST_BUCKETS: usize = 28;

/// How many binary digits a number has.
pub open spec fn bits(n: nat) -> nat
    decreases n,
{
    if n == 0 {
        0
    } else {
        1 + bits(n / 2)
    }
}

/// The bucket of an allocation: how many binary digits its size has, up to the last bucket.
pub open spec fn bucket_of(size: nat) -> nat {
    if bits(size) < HIST_BUCKETS {
        bits(size)
    } else {
        (HIST_BUCKETS - 1) as nat
    }
}

/// The bucket of an allocation: how many binary digits its size has, up to the last bucket.
pub fn bucket(size: usize) -> (r: usize)
    ensures
        r == if bits(size as nat) < HIST_BUCKETS {
            bits(size as nat) as int
        } else {
            HIST_BUCKETS - 1
        },
        r == bucket_of(size as nat),
{
    let mut n = size;
    let mut digits: usize = 0;
    while n > 0 && digits < HIST_BUCKETS - 1
        invariant
            digits <= HIST_BUCKETS - 1,
            bits(size as nat) == digits + bits(n as nat),
        decreases n,
    {
        n = n / 2;
        digits += 1;
    }
    digits
}

/// A bucket holds the sizes from half its bound on, below its bound.
pub proof fn a_bucket_is_a_power_of_two(size: nat)
    requires
        size > 0,
    ensures
        vstd::arithmetic::power::pow(2, (bits(size) - 1) as nat) <= size,
        size < vstd::arithmetic::power::pow(2, bits(size)),
    decreases size,
{
    reveal(vstd::arithmetic::power::pow);
    if size == 1 {
        assert(bits(1) == 1) by {
            reveal_with_fuel(bits, 3);
        }
        assert(vstd::arithmetic::power::pow(2, 0) == 1);
        assert(vstd::arithmetic::power::pow(2, 1) == 2) by {
            reveal_with_fuel(vstd::arithmetic::power::pow, 3);
        }
    } else {
        let half = size / 2;
        a_bucket_is_a_power_of_two(half);
        let b = bits(half);
        assert(bits(size) == 1 + b);
        assert(b >= 1);
        assert(vstd::arithmetic::power::pow(2, b) == 2 * vstd::arithmetic::power::pow(
            2,
            (b - 1) as nat,
        ));
        assert(vstd::arithmetic::power::pow(2, b + 1) == 2 * vstd::arithmetic::power::pow(2, b));
    }
}

/// The buckets that hold anything, each with its bound before it.
pub open spec fn hist_text(counts: Seq<u64>, n: int) -> Seq<char>
    decreases n,
{
    if n <= 0 {
        "allochist"@
    } else if counts[n - 1] == 0 {
        hist_text(counts, n - 1)
    } else {
        hist_text(counts, n - 1) + " 2^"@ + decimal_chars((n - 1) as nat) + "="@ + decimal_chars(
            counts[n - 1] as nat,
        )
    }
}

/// The histogram in one line, without the buckets that nobody used.
pub fn hist_line(counts: &[u64; 28]) -> (r: String)
    ensures
        r@ == if forall|i: int| 0 <= i < 28 ==> #[trigger] counts@[i] == 0 {
            "allochist (empty)"@
        } else {
            hist_text(counts@, 28)
        },
{
    let mut out = "allochist".to_owned();
    let mut used = false;
    let mut i: usize = 0;
    while i < 28
        invariant
            i <= 28,
            counts@.len() == 28,
            out@ == hist_text(counts@, i as int),
            used == exists|k: int| 0 <= k < i && #[trigger] counts@[k] != 0,
            !used ==> out@ == "allochist"@,
        decreases 28 - i,
    {
        if counts[i] != 0 {
            out.append(" 2^");
            push_number(&mut out, i as u64);
            out.append("=");
            push_number(&mut out, counts[i]);
            used = true;
            assert(counts@[i as int] != 0);
        }
        i += 1;
    }
    if !used {
        proof {
            assert forall|k: int| 0 <= k < 28 implies #[trigger] counts@[k] == 0 by {}
            reveal_strlit("allochist");
            reveal_strlit(" (empty)");
            reveal_strlit("allochist (empty)");
        }
        out.append(" (empty)");
        assert(out@ =~= "allochist (empty)"@);
    }
    out
}

} // verus!
