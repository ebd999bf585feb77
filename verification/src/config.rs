//! Runtime options: the flag surface of the program plus the small config-file subset
//! that this server enforces.
//!
//! Flags have their quirks: `-p 0` means "unset" and resolves to 4222, and only `-p -1`
//! asks for a random port. A config file is `key: value` lines with `#` comments, quoted
//! strings, and durations as strings (or as plain seconds, which draws a warning).
use vstd::prelude::*;

use crate::chars::{
    ascii_chars, begins_with, chars_of, digit_value, digits_grow, digits_value, find, first_at,
    integer, integer_value, is_text, lines_of, split_line, string_of, trim, trim_back, trim_both,
    trim_end, Trim,
};
use crate::text::decimal;

verus! {

/// The port that "unset" resolves to.
pub const DEFAULT_PORT: i32 = 4222;

/// The only way to ask for an ephemeral port; 0 is "unset".
pub const RANDOM_PORT: i32 = -1;

/// The largest body, header block included, in bytes.
pub const MAX_PAYLOAD: u64 = 1048576;

/// The most that may wait to be written to one connection, in bytes.
pub const MAX_PENDING: u64 = 67108864;

/// The longest control line, in bytes.
pub const MAX_CONTROL_LINE: usize = 4096;

/// The most connections at a time.
pub const MAX_CONNECTIONS: i64 = 65536;

/// Between two keepalive probes, in seconds.
pub const PING_INTERVAL: u64 = 120;

/// How many probes may go unanswered.
pub const MAX_PINGS_OUT: u64 = 2;

/// How long a write may make no progress, in seconds.
pub const WRITE_DEADLINE: u64 = 10;

/// The first keepalive probe is short whatever is configured, in seconds.
pub const FIRST_PING_INTERVAL: u64 = 2;

/// Nanoseconds per second.
pub const NANOS: u64 = 1_000_000_000;

/// A length of time: whole seconds, and the nanoseconds below one second.
#[derive(Debug, Clone, Copy, PartialEq, Eq, Structural)]
pub struct Span {
    pub secs: u64,
    pub nanos: u32,
}

impl Span {
    /// Are the nanoseconds below one second?
    pub open spec fn wf(&self) -> bool {
        self.nanos < NANOS
    }

    /// The length in nanoseconds.
    pub open spec fn total(&self) -> nat {
        (self.secs * NANOS + self.nanos) as nat
    }

    /// Whole seconds.
    pub fn from_secs(secs: u64) -> (r: Span)
        ensures
            r.wf(),
            r.total() == secs * NANOS,
    {
        Span { secs, nanos: 0 }
    }

    /// Whole nanoseconds.
    pub fn from_nanos(nanos: u64) -> (r: Span)
        ensures
            r.wf(),
            r.total() == nanos,
    {
        Span { secs: nanos / NANOS, nanos: (nanos % NANOS) as u32 }
    }
}

/// The options of one server.
#[derive(Debug, Clone)]
pub struct Config {
    pub host: String,
    /// -1 asks for an ephemeral port, 0 is unset.
    pub port: i32,
    pub ports_file_dir: Option<String>,
    pub server_name: Option<String>,
    pub max_payload: u64,
    pub max_pending: u64,
    pub max_control_line: usize,
    pub max_connections: i64,
    pub ping_interval: Span,
    pub write_deadline: Span,
    pub debug: bool,
    pub trace: bool,
}

/// The options, with their text as sequences.
#[verifier::ext_equal]
pub struct ConfigView {
    pub host: Seq<char>,
    pub port: i32,
    pub ports_file_dir: Option<Seq<char>>,
    pub server_name: Option<Seq<char>>,
    pub max_payload: u64,
    pub max_pending: u64,
    pub max_control_line: usize,
    pub max_connections: i64,
    pub ping_interval: Span,
    pub write_deadline: Span,
    pub debug: bool,
    pub trace: bool,
}

/// The characters of an optional string.
pub open spec fn optional_chars(s: Option<String>) -> Option<Seq<char>> {
    match s {
        Some(x) => Some(x@),
        None => None,
    }
}

impl View for Config {
    type V = ConfigView;

    open spec fn view(&self) -> ConfigView {
        ConfigView {
            host: self.host@,
            port: self.port,
            ports_file_dir: optional_chars(self.ports_file_dir),
            server_name: optional_chars(self.server_name),
            max_payload: self.max_payload,
            max_pending: self.max_pending,
            max_control_line: self.max_control_line,
            max_connections: self.max_connections,
            ping_interval: self.ping_interval,
            write_deadline: self.write_deadline,
            debug: self.debug,
            trace: self.trace,
        }
    }
}

/// The options of a server that was told nothing.
pub open spec fn default_config() -> ConfigView {
    ConfigView {
        host: "0.0.0.0"@,
        port: 0,
        ports_file_dir: None,
        server_name: None,
        max_payload: MAX_PAYLOAD,
        max_pending: MAX_PENDING,
        max_control_line: MAX_CONTROL_LINE,
        max_connections: MAX_CONNECTIONS,
        ping_interval: Span { secs: PING_INTERVAL, nanos: 0 },
        write_deadline: Span { secs: WRITE_DEADLINE, nanos: 0 },
        debug: false,
        trace: false,
    }
}

impl Default for Config {
    fn default() -> (r: Self)
        ensures
            r@ == default_config(),
    {
        Config {
            host: "0.0.0.0".to_owned(),
            port: 0,
            ports_file_dir: None,
            server_name: None,
            max_payload: MAX_PAYLOAD,
            max_pending: MAX_PENDING,
            max_control_line: MAX_CONTROL_LINE,
            max_connections: MAX_CONNECTIONS,
            ping_interval: Span::from_secs(PING_INTERVAL),
            write_deadline: Span::from_secs(WRITE_DEADLINE),
            debug: false,
            trace: false,
        }
    }
}

// -------------------------------------------------------------------------- errors --

/// What is wrong with a config file.
#[derive(Debug, Clone)]
pub enum ConfigError {
    /// A line without a colon, by its number.
    ExpectedKey(u64),
    /// A key that this server does not know.
    UnknownField(String),
    /// A value that is no integer.
    ExpectedInteger(String),
    /// A value that is no boolean.
    ExpectedBoolean(String),
    /// A value that is no duration, for that key.
    InvalidDuration(String, String),
    /// A `max_payload` above `max_pending`.
    PayloadOverPending(u64, u64),
}

/// What is wrong with a config file, with its text as sequences.
#[verifier::ext_equal]
pub enum ConfigErrorView {
    ExpectedKey(u64),
    UnknownField(Seq<char>),
    ExpectedInteger(Seq<char>),
    ExpectedBoolean(Seq<char>),
    InvalidDuration(Seq<char>, Seq<char>),
    PayloadOverPending(u64, u64),
}

impl View for ConfigError {
    type V = ConfigErrorView;

    open spec fn view(&self) -> ConfigErrorView {
        match *self {
            ConfigError::ExpectedKey(line) => ConfigErrorView::ExpectedKey(line),
            ConfigError::UnknownField(name) => ConfigErrorView::UnknownField(name@),
            ConfigError::ExpectedInteger(value) => ConfigErrorView::ExpectedInteger(value@),
            ConfigError::ExpectedBoolean(value) => ConfigErrorView::ExpectedBoolean(value@),
            ConfigError::InvalidDuration(field, value) => ConfigErrorView::InvalidDuration(
                field@,
                value@,
            ),
            ConfigError::PayloadOverPending(payload, pending) => ConfigErrorView::PayloadOverPending(
                payload,
                pending,
            ),
        }
    }
}

/// A piece of text between quotation marks, its special characters escaped.
pub uninterp spec fn debug_text(s: Seq<char>) -> Seq<char>;

/// `{:?}` of std on a string slice. The contract claims only that the outcome depends on
/// the text alone.
#[verifier::external_body]
fn quoted(s: &str) -> (r: String)
    ensures
        r@ == debug_text(s@),
{
    format!("{:?}", s)
}

/// A number in decimal, as characters.
pub open spec fn decimal_chars(n: nat) -> Seq<char> {
    ascii_chars(decimal(n))
}

/// Appends a number in decimal.
pub fn push_number(out: &mut String, n: u64)
    ensures
        final(out)@ == old(out)@ + decimal_chars(n as nat),
    decreases n,
{
    if n >= 10 {
        push_number(out, n / 10);
    }
    let digits = "0123456789";
    proof {
        reveal_strlit("0123456789");
    }
    let last: usize = (n % 10) as usize;
    out.push(digits.get_char(last));
    proof {
        let all = decimal(n as nat);
        assert(all.last() == (0x30 + n % 10) as u8);
        if n >= 10 {
            assert(all.drop_last() =~= decimal((n / 10) as nat));
            assert(decimal_chars(n as nat) =~= decimal_chars((n / 10) as nat).push(
                digits@[last as int],
            ));
        } else {
            assert(decimal_chars(n as nat) =~= seq![digits@[last as int]]);
        }
        assert(out@ =~= old(out)@ + decimal_chars(n as nat));
    }
}

/// The words for an error.
pub open spec fn error_message(e: ConfigErrorView) -> Seq<char> {
    match e {
        ConfigErrorView::ExpectedKey(line) => "config:"@ + decimal_chars(line as nat)
            + ":1: expected a key but got a value"@,
        ConfigErrorView::UnknownField(name) => "config: unknown field \""@ + name + "\""@,
        ConfigErrorView::ExpectedInteger(value) => "expected an integer but got "@ + value,
        ConfigErrorView::ExpectedBoolean(value) => "expected a boolean but got "@ + value,
        ConfigErrorView::InvalidDuration(field, value) => "error parsing "@ + field
            + ": invalid duration "@ + debug_text(value),
        ConfigErrorView::PayloadOverPending(payload, pending) => "max_payload ("@ + decimal_chars(
            payload as nat,
        ) + ") cannot be higher than max_pending ("@ + decimal_chars(pending as nat) + ")"@,
    }
}

impl ConfigError {
    /// The words for the error.
    pub fn message(&self) -> (r: String)
        ensures
            r@ == error_message(self@),
    {
        match self {
            ConfigError::ExpectedKey(line) => {
                let mut out = "config:".to_owned();
                push_number(&mut out, *line);
                out.append(":1: expected a key but got a value");
                out
            },
            ConfigError::UnknownField(name) => {
                let mut out = "config: unknown field \"".to_owned();
                out.append(name.as_str());
                out.append("\"");
                out
            },
            ConfigError::ExpectedInteger(value) => {
                let mut out = "expected an integer but got ".to_owned();
                out.append(value.as_str());
                out
            },
            ConfigError::ExpectedBoolean(value) => {
                let mut out = "expected a boolean but got ".to_owned();
                out.append(value.as_str());
                out
            },
            ConfigError::InvalidDuration(field, value) => {
                let mut out = "error parsing ".to_owned();
                out.append(field.as_str());
                out.append(": invalid duration ");
                out.append(quoted(value.as_str()).as_str());
                out
            },
            ConfigError::PayloadOverPending(payload, pending) => {
                let mut out = "max_payload (".to_owned();
                push_number(&mut out, *payload);
                out.append(") cannot be higher than max_pending (");
                push_number(&mut out, *pending);
                out.append(")");
                out
            },
        }
    }
}

impl Config {
    /// The port to bind: 0 is unset and resolves to the default.
    pub fn bind_port(&self) -> (r: i32)
        ensures
            r == if self.port == 0 {
                DEFAULT_PORT
            } else {
                self.port
            },
            r == crate::net::named_port(self.port),
    {
        if self.port == 0 {
            DEFAULT_PORT
        } else {
            self.port
        }
    }

    /// The port to ask the kernel for: the random-port sentinel is not a port, and 0 asks
    /// for one.
    pub fn kernel_port(&self) -> (r: i32)
        ensures
            self.port == RANDOM_PORT ==> r == 0,
            self.port == 0 ==> r == DEFAULT_PORT,
            self.port != RANDOM_PORT && self.port != 0 ==> r == self.port,
            r == crate::net::asked_port(self.port),
    {
        let port = self.bind_port();
        if port == RANDOM_PORT {
            0
        } else {
            port
        }
    }

    /// Do the options make sense together?
    pub fn validate(&self) -> (r: Result<(), ConfigError>)
        ensures
            match r {
                Ok(_) => self.max_payload <= self.max_pending,
                Err(e) => self.max_payload > self.max_pending && e@
                    == ConfigErrorView::PayloadOverPending(self.max_payload, self.max_pending),
            },
    {
        if self.max_payload > self.max_pending {
            return Err(ConfigError::PayloadOverPending(self.max_payload, self.max_pending));
        }
        Ok(())
    }
}

// ----------------------------------------------------------------------- durations --

/// Is the character part of a number? Digits and dots are.
pub open spec fn numeral_char(c: char) -> bool {
    0x30 <= c as u32 <= 0x39 || c == '.'
}

/// How many characters at the front are part of a number (or, for `false`, are not).
pub open spec fn numeral_len(s: Seq<char>, part: bool) -> nat
    decreases s.len(),
{
    if s.len() == 0 || numeral_char(s[0]) != part {
        0
    } else {
        1 + numeral_len(s.skip(1), part)
    }
}

/// How many nanoseconds a unit is. No unit at all is seconds.
pub open spec fn unit_nanos(unit: Seq<char>) -> Option<nat> {
    if unit == "ns"@ {
        Some(1)
    } else if unit == "us"@ || unit == "\u{00b5}s"@ {
        Some(1_000)
    } else if unit == "ms"@ {
        Some(1_000_000)
    } else if unit == "s"@ || unit == ""@ {
        Some(1_000_000_000)
    } else if unit == "m"@ {
        Some(60_000_000_000)
    } else if unit == "h"@ {
        Some(3_600_000_000_000)
    } else {
        None
    }
}

/// The nanoseconds that a number of units is: the whole part, and of the fraction as many
/// whole nanoseconds as it holds. A number has a digit, and one dot at most.
pub open spec fn term_nanos(number: Seq<char>, scale: nat) -> Option<nat> {
    let (whole, fraction) = match first_at(number, '.') {
        Some(i) => (number.take(i), number.skip(i + 1)),
        None => (number, Seq::empty()),
    };
    if whole.len() + fraction.len() == 0 {
        None
    } else {
        match (digits_value(whole, 10), digits_value(fraction, 10)) {
            (Some(w), Some(f)) => Some(
                w * scale + (f * scale) / (vstd::arithmetic::power::pow(10, fraction.len()) as nat),
            ),
            _ => None,
        }
    }
}

/// The nanoseconds that a sequence of numbers with units adds up to.
pub open spec fn terms_nanos(s: Seq<char>) -> Option<nat>
    decreases s.len(),
{
    if s.len() == 0 {
        Some(0)
    } else {
        let n = numeral_len(s, true);
        let u = numeral_len(s.skip(n as int), false);
        if n == 0 || n + u > s.len() {
            None
        } else {
            match unit_nanos(s.subrange(n as int, (n + u) as int)) {
                None => None,
                Some(scale) => match (
                    term_nanos(s.take(n as int), scale),
                    terms_nanos(s.skip((n + u) as int)),
                ) {
                    (Some(a), Some(b)) => Some(a + b),
                    _ => None,
                },
            }
        }
    }
}

/// The longest time there is, in nanoseconds.
pub const LONGEST: u64 = 0x7fff_ffff_ffff_ffff;

/// The length of time that a text like `1h30m` or `1.5s` says. It may have a plus sign; a
/// negative one is none, and neither is one that is longer than the longest.
pub open spec fn duration_of(s: Seq<char>) -> Option<nat> {
    if s.len() == 0 || s[0] == '-' {
        None
    } else {
        let terms = if s[0] == '+' {
            s.skip(1)
        } else {
            s
        };
        if terms.len() == 0 {
            None
        } else {
            match terms_nanos(terms) {
                Some(n) => if n <= LONGEST {
                    Some(n)
                } else {
                    None
                },
                None => None,
            }
        }
    }
}

pub(crate) proof fn numeral_len_is(s: Seq<char>, part: bool, n: nat)
    requires
        n <= s.len(),
        forall|i: int| 0 <= i < n ==> numeral_char(#[trigger] s[i]) == part,
        n < s.len() ==> numeral_char(s[n as int]) != part,
    ensures
        numeral_len(s, part) == n,
    decreases n,
{
    if n > 0 {
        assert(numeral_char(s[0]) == part);
        assert forall|i: int| 0 <= i < n - 1 implies numeral_char(#[trigger] s.skip(1)[i])
            == part by {
            assert(s.skip(1)[i] == s[i + 1]);
        }
        numeral_len_is(s.skip(1), part, (n - 1) as nat);
    }
}

fn is_numeral(c: char) -> (r: bool)
    ensures
        r == numeral_char(c),
{
    let n = c as u32;
    (0x30 <= n && n <= 0x39) || c == '.'
}

/// The end of the run, from `from` on, of characters that are part of a number (or are
/// not).
fn run_end(s: &[char], from: usize, part: bool) -> (r: usize)
    requires
        from <= s@.len(),
    ensures
        from <= r <= s@.len(),
        r - from == numeral_len(s@.skip(from as int), part),
{
    let mut i: usize = from;
    while i < s.len() && is_numeral(s[i]) == part
        invariant
            from <= i <= s@.len(),
            forall|j: int| from <= j < i ==> numeral_char(#[trigger] s@[j]) == part,
        decreases s@.len() - i,
    {
        i += 1;
    }
    proof {
        let t = s@.skip(from as int);
        assert forall|j: int| 0 <= j < i - from implies numeral_char(#[trigger] t[j]) == part by {
            assert(t[j] == s@[from + j]);
        }
        numeral_len_is(t, part, (i - from) as nat);
    }
    i
}

/// How many nanoseconds a unit is.
fn unit_scale(unit: &[char]) -> (r: Option<u64>)
    ensures
        match r {
            Some(n) => unit_nanos(unit@) == Some(n as nat) && 1 <= n <= 3_600_000_000_000,
            None => unit_nanos(unit@) is None,
        },
{
    if is_text(unit, "ns") {
        Some(1)
    } else if is_text(unit, "us") || is_text(unit, "\u{00b5}s") {
        Some(1_000)
    } else if is_text(unit, "ms") {
        Some(1_000_000)
    } else if is_text(unit, "s") || is_text(unit, "") {
        Some(1_000_000_000)
    } else if is_text(unit, "m") {
        Some(60_000_000_000)
    } else if is_text(unit, "h") {
        Some(3_600_000_000_000)
    } else {
        None
    }
}

fn decimal_digit(c: char) -> (r: Option<u64>)
    ensures
        match r {
            Some(d) => digit_value(c, 10) == Some(d as nat) && d < 10,
            None => digit_value(c, 10) is None,
        },
{
    if '0' <= c && c <= '9' {
        Some((c as u32 - 0x30) as u64)
    } else {
        None
    }
}

proof fn digits_none(s: Seq<char>, k: int)
    requires
        0 <= k < s.len(),
        digit_value(s[k], 10) is None,
    ensures
        digits_value(s, 10) is None,
    decreases s.len(),
{
    if k < s.len() - 1 {
        assert(s.drop_last()[k] == s[k]);
        digits_none(s.drop_last(), k);
    }
}

/// The whole part of a number, where it is no more than the longest time has nanoseconds.
fn whole_part(s: &[char]) -> (r: Option<u64>)
    ensures
        match r {
            Some(n) => digits_value(s@, 10) == Some(n as nat) && n <= LONGEST,
            None => digits_value(s@, 10) matches Some(n) ==> n > LONGEST,
        },
{
    let mut n: u64 = 0;
    let mut i: usize = 0;
    assert(s@.take(0) =~= Seq::<char>::empty());
    assert(digits_value(s@.take(0), 10) == Some(0nat));
    while i < s.len()
        invariant
            i <= s@.len(),
            n <= LONGEST,
            digits_value(s@.take(i as int), 10) == Some(n as nat),
        decreases s@.len() - i,
    {
        proof {
            digits_grow(s@, i + 1, 10);
            assert(s@.take(i + 1).drop_last() =~= s@.take(i as int));
            assert(s@.take(i + 1).last() == s@[i as int]);
        }
        match decimal_digit(s[i]) {
            Some(d) => {
                if n > (LONGEST - d) / 10 {
                    return None;
                }
                n = n * 10 + d;
            },
            None => {
                proof {
                    digits_none(s@, i as int);
                }
                return None;
            },
        }
        i += 1;
    }
    assert(s@.take(i as int) =~= s@);
    Some(n)
}

proof fn digits_from_the_left(s: Seq<char>)
    requires
        s.len() > 0,
        digits_value(s, 10) is Some,
    ensures
        digit_value(s[0], 10) is Some,
        digits_value(s.skip(1), 10) is Some,
        digits_value(s, 10)->Some_0 == digit_value(s[0], 10)->Some_0
            * vstd::arithmetic::power::pow(10, (s.len() - 1) as nat) + digits_value(
            s.skip(1),
            10,
        )->Some_0,
    decreases s.len(),
{
    reveal(vstd::arithmetic::power::pow);
    if s.len() == 1 {
        assert(s.drop_last() =~= Seq::<char>::empty());
        assert(s.skip(1) =~= Seq::<char>::empty());
        assert(vstd::arithmetic::power::pow(10, 0) == 1);
        assert(digits_value(s.drop_last(), 10) == Some(0nat));
        assert(digits_value(s.skip(1), 10) == Some(0nat));
        let d = digit_value(s[0], 10)->Some_0 as int;
        assert(d * 1 == d);
    } else {
        let t = s.drop_last();
        digits_from_the_left(t);
        assert(t[0] == s[0]);
        assert(t.skip(1) =~= s.skip(1).drop_last());
        assert(s.skip(1).last() == s.last());
        let d = digit_value(s[0], 10)->Some_0 as int;
        let p = vstd::arithmetic::power::pow(10, (t.len() - 1) as nat);
        assert(vstd::arithmetic::power::pow(10, (s.len() - 1) as nat) == 10 * p);
        assert((d * p) * 10 == d * (10 * p)) by (nonlinear_arith);
        let r = digits_value(t.skip(1), 10)->Some_0 as int;
        let last = digit_value(s.last(), 10)->Some_0 as int;
        assert(digits_value(t, 10)->Some_0 == d * p + r);
        assert(digits_value(s, 10)->Some_0 == (d * p + r) * 10 + last);
        assert(digits_value(s.skip(1), 10)->Some_0 == r * 10 + last);
    }
}

/// The fraction of a number, in whole nanoseconds of that unit, from the last digit to the
/// first: what stands behind a digit counts a tenth of what it counts there.
fn fraction_part(s: &[char], scale: u64) -> (r: Option<u64>)
    requires
        1 <= scale <= 3_600_000_000_000,
    ensures
        match r {
            Some(n) => digits_value(s@, 10) is Some && n == (digits_value(s@, 10)->Some_0 * scale)
                / (vstd::arithmetic::power::pow(10, s@.len()) as nat) as int && n < 2 * scale,
            None => digits_value(s@, 10) is None,
        },
{
    let mut f: u64 = 0;
    let mut i: usize = s.len();
    assert(s@.skip(i as int) =~= Seq::<char>::empty());
    proof {
        reveal(vstd::arithmetic::power::pow);
        assert(vstd::arithmetic::power::pow(10, 0) == 1);
        assert(0 * scale == 0);
    }
    while i > 0
        invariant
            i <= s@.len(),
            1 <= scale <= 3_600_000_000_000,
            f <= scale,
            vstd::arithmetic::power::pow(10, (s@.len() - i) as nat) > 0,
            digits_value(s@.skip(i as int), 10) is Some,
            f == (digits_value(s@.skip(i as int), 10)->Some_0 * scale)
                / vstd::arithmetic::power::pow(10, (s@.len() - i) as nat),
        decreases i,
    {
        let d = match decimal_digit(s[i - 1]) {
            Some(d) => d,
            None => {
                proof {
                    digits_none(s@, i - 1);
                }
                return None;
            },
        };
        proof {
            let t = s@.skip(i - 1);
            assert(t[0] == s@[i - 1]);
            assert(t.skip(1) =~= s@.skip(i as int));
            digits_are(t);
            digits_from_the_left(t);
            let v = digits_value(s@.skip(i as int), 10)->Some_0 as int;
            let p = vstd::arithmetic::power::pow(10, (s@.len() - i) as nat);
            assert(vstd::arithmetic::power::pow(10, (s@.len() - (i - 1)) as nat) == 10 * p) by {
                reveal(vstd::arithmetic::power::pow);
            }
            a_tenth(d as int, v, scale as int, p);
            assert(scale * d <= scale * 9) by (nonlinear_arith)
                requires
                    d <= 9,
                    scale >= 1,
            ;
        }
        f = (scale * d + f) / 10;
        i = i - 1;
    }
    assert(s@.skip(0) =~= s@);
    Some(f)
}

/// Digits behind a digit are digits.
proof fn digits_are(s: Seq<char>)
    requires
        s.len() > 0,
        digit_value(s[0], 10) is Some,
        digits_value(s.skip(1), 10) is Some,
    ensures
        digits_value(s, 10) is Some,
    decreases s.len(),
{
    if s.len() == 1 {
        assert(s.drop_last() =~= Seq::<char>::empty());
        assert(digits_value(s.drop_last(), 10) == Some(0nat));
        assert(s.last() == s[0]);
    } else {
        let t = s.skip(1);
        assert(digits_value(t.drop_last(), 10) is Some && digit_value(t.last(), 10) is Some);
        assert(t.drop_last() =~= s.drop_last().skip(1));
        assert(s.drop_last()[0] == s[0]);
        assert(t.last() == s.last());
        digits_are(s.drop_last());
    }
}

/// A digit in front of a fraction, and the fraction counting a tenth.
proof fn a_tenth(d: int, v: int, scale: int, p: int)
    requires
        d >= 0,
        v >= 0,
        scale >= 1,
        p > 0,
    ensures
        ((d * p + v) * scale) / (10 * p) == (scale * d + (v * scale) / p) / 10,
{
    let x = (d * p + v) * scale;
    assert(x == v * scale + (d * scale) * p) by (nonlinear_arith)
        requires
            x == (d * p + v) * scale,
    ;
    assert(x >= 0) by (nonlinear_arith)
        requires
            x == (d * p + v) * scale,
            d >= 0,
            v >= 0,
            scale >= 1,
            p > 0,
    ;
    vstd::arithmetic::div_mod::lemma_div_denominator(x, p, 10);
    assert(p * 10 == 10 * p);
    assert(x / (10 * p) == (x / p) / 10);
    vstd::arithmetic::div_mod::lemma_hoist_over_denominator(v * scale, d * scale, p as nat);
    assert(d * scale == scale * d) by (nonlinear_arith);
}

/// The nanoseconds that a number of units is, where they are no longer than the longest time.
fn term(number: &[char], scale: u64) -> (r: Option<u64>)
    requires
        1 <= scale <= 3_600_000_000_000,
    ensures
        match r {
            Some(n) => term_nanos(number@, scale as nat) == Some(n as nat) && n <= LONGEST,
            None => term_nanos(number@, scale as nat) matches Some(n) ==> n > LONGEST,
        },
{
    let n = number.len();
    let (whole, fraction): (&[char], &[char]) = match find(number, '.') {
        Some(i) => (&number[0..i], &number[i + 1..n]),
        None => (number, &number[n..n]),
    };
    proof {
        match first_at(number@, '.') {
            Some(i) => {
                assert(whole@ =~= number@.take(i));
                assert(fraction@ =~= number@.skip(i + 1));
            },
            None => {
                assert(fraction@ =~= Seq::<char>::empty());
            },
        }
    }
    if whole.len() == 0 && fraction.len() == 0 {
        return None;
    }
    let w = match whole_part(whole) {
        Some(w) => w,
        None => {
            proof {
                if let (Some(v), Some(f)) = (digits_value(whole@, 10), digits_value(fraction@, 10)) {
                    assert(v * scale >= v && f * scale >= 0) by (nonlinear_arith)
                        requires
                            scale >= 1,
                            v >= 0,
                            f >= 0,
                    ;
                    let p = vstd::arithmetic::power::pow(10, fraction@.len());
                    vstd::arithmetic::power::lemma_pow_positive(10, fraction@.len());
                    vstd::arithmetic::div_mod::lemma_div_pos_is_pos(f * scale, p);
                }
            }
            return None;
        },
    };
    let f = match fraction_part(fraction, scale) {
        Some(f) => f,
        None => {
            return None;
        },
    };
    assert(w * scale <= 0x8000_0000_0000_0000 * 3_600_000_000_000) by (nonlinear_arith)
        requires
            w <= 0x8000_0000_0000_0000,
            scale <= 3_600_000_000_000,
    ;
    let nanos: u128 = w as u128 * scale as u128 + f as u128;
    if nanos > LONGEST as u128 {
        return None;
    }
    Some(nanos as u64)
}

/// The length of time that a text like `1h30m` says: a sequence of numbers, each with a
/// unit (`ns`, `us`, `ms`, `s`, `m`, `h`) and maybe a fraction. A number without a unit is
/// seconds. A time longer than the longest there is is an error.
pub fn parse_duration_str(s: &str) -> (r: Option<Span>)
    ensures
        match r {
            Some(span) => span.wf() && duration_of(s@) == Some(span.total()),
            None => duration_of(s@) is None,
        },
{
    let chars = chars_of(s);
    parse_duration_chars(chars.as_slice())
}

fn parse_duration_chars(s: &[char]) -> (r: Option<Span>)
    ensures
        match r {
            Some(span) => span.wf() && duration_of(s@) == Some(span.total()),
            None => duration_of(s@) is None,
        },
{
    if s.len() == 0 || s[0] == '-' {
        return None;
    }
    let start: usize = if s[0] == '+' {
        1
    } else {
        0
    };
    if start == s.len() {
        return None;
    }
    let ghost terms = s@.skip(start as int);
    assert(start == 0 ==> terms =~= s@);
    let mut total: u64 = 0;
    let mut i: usize = start;
    let ghost mut sum: nat = 0;
    assert(terms.skip(0) =~= terms);
    while i < s.len()
        invariant
            start <= i <= s@.len(),
            terms == s@.skip(start as int),
            terms_nanos(terms) == match terms_nanos(s@.skip(i as int)) {
                Some(more) => Some((sum + more) as nat),
                None => None,
            },
            total == sum,
            total <= LONGEST,
            duration_of(s@) == match terms_nanos(terms) {
                Some(n) => if n <= LONGEST {
                    Some(n)
                } else {
                    None
                },
                None => None,
            },
        decreases s@.len() - i,
    {
        let ghost rest = s@.skip(i as int);
        let number_end = run_end(s, i, true);
        if number_end == i {
            return None;
        }
        let unit_end = run_end(s, number_end, false);
        let number: &[char] = &s[i..number_end];
        let unit: &[char] = &s[number_end..unit_end];
        proof {
            let n = number_end - i;
            assert(rest.skip(n) =~= s@.skip(number_end as int));
            assert(number@ =~= rest.take(n));
            assert(unit@ =~= rest.subrange(n, unit_end - i));
            assert(rest.skip(unit_end - i) =~= s@.skip(unit_end as int));
        }
        let scale = match unit_scale(unit) {
            Some(scale) => scale,
            None => {
                return None;
            },
        };
        let nanos = match term(number, scale) {
            Some(nanos) => nanos,
            None => {
                return None;
            },
        };
        if nanos > LONGEST - total {
            return None;
        }
        total = total + nanos;
        proof {
            sum = total as nat;
        }
        i = unit_end;
    }
    assert(s@.skip(i as int) =~= Seq::<char>::empty());
    Some(Span::from_nanos(total))
}

// -------------------------------------------------------------------- config files --

/// A value without the white space, the comma and the quotation marks around it.
pub open spec fn unquoted(v: Seq<char>) -> Seq<char> {
    trim_both(
        Trim::Quotes,
        trim_both(Trim::Space, trim_back(Trim::Comma, trim_both(Trim::Space, v))),
    )
}

fn unquote(v: &[char]) -> (r: &[char])
    ensures
        r@ == unquoted(v@),
{
    let a = trim(Trim::Space, v);
    let b = trim_end(Trim::Comma, a);
    let c = trim(Trim::Space, b);
    trim(Trim::Quotes, c)
}

/// The integer that a value writes, in decimal or, behind `0x`, in hexadecimal.
pub open spec fn config_integer(v: Seq<char>) -> Option<int> {
    let s = unquoted(v);
    if "0x"@.is_prefix_of(s) || "0X"@.is_prefix_of(s) {
        integer_value(s.skip(2), 16)
    } else {
        integer_value(s, 10)
    }
}

fn parse_int(v: &[char]) -> (r: Result<i64, ConfigError>)
    ensures
        match r {
            Ok(n) => config_integer(v@) == Some(n as int),
            Err(e) => config_integer(v@) is None && e@ == ConfigErrorView::ExpectedInteger(
                unquoted(v@),
            ),
        },
{
    let s = unquote(v);
    let hex = begins_with(s, "0x") || begins_with(s, "0X");
    let value = if hex {
        proof {
            reveal_strlit("0x");
            reveal_strlit("0X");
        }
        let digits: &[char] = &s[2..s.len()];
        assert(digits@ =~= s@.skip(2));
        integer(digits, 16)
    } else {
        integer(s, 10)
    };
    match value {
        Some(n) => Ok(n),
        None => Err(ConfigError::ExpectedInteger(string_of(s))),
    }
}

/// The boolean that a value writes.
pub open spec fn config_bool(v: Seq<char>) -> Option<bool> {
    let s = unquoted(v);
    if s == "true"@ || s == "on"@ || s == "yes"@ {
        Some(true)
    } else if s == "false"@ || s == "off"@ || s == "no"@ {
        Some(false)
    } else {
        None
    }
}

fn parse_bool(v: &[char]) -> (r: Result<bool, ConfigError>)
    ensures
        match r {
            Ok(b) => config_bool(v@) == Some(b),
            Err(e) => config_bool(v@) is None && e@ == ConfigErrorView::ExpectedBoolean(
                unquoted(v@),
            ),
        },
{
    let s = unquote(v);
    if is_text(s, "true") || is_text(s, "on") || is_text(s, "yes") {
        Ok(true)
    } else if is_text(s, "false") || is_text(s, "off") || is_text(s, "no") {
        Ok(false)
    } else {
        Err(ConfigError::ExpectedBoolean(string_of(s)))
    }
}

/// Does the value stand in quotation marks?
pub open spec fn is_quoted(v: Seq<char>) -> bool {
    let s = trim_both(Trim::Space, v);
    s.len() > 0 && (s[0] == '"' || s[0] == '\'')
}

/// The length of time that a value says, in nanoseconds; and whether it is one of the old
/// kind, a plain number of seconds.
pub open spec fn config_duration(v: Seq<char>) -> Option<(nat, bool)> {
    let s = unquoted(v);
    let plain = integer_value(s, 10);
    if !is_quoted(v) && plain is Some {
        Some((((plain->Some_0 as i64) as u64 * NANOS) as nat, true))
    } else {
        match duration_of(s) {
            Some(n) => Some((n, false)),
            None => None,
        }
    }
}

/// What is said about a duration of the old kind.
pub open spec fn duration_warning(field: Seq<char>) -> Seq<char> {
    field + " should be converted to a duration"@
}

fn parse_duration(v: &[char], field: &[char], warnings: &mut Vec<String>) -> (r: Result<
    Span,
    ConfigError,
>)
    ensures
        match r {
            Ok(span) => span.wf() && config_duration(v@) is Some && span.total() == config_duration(
                v@,
            )->Some_0.0 && string_views(final(warnings)@) == if config_duration(v@)->Some_0.1 {
                string_views(old(warnings)@).push(duration_warning(field@))
            } else {
                string_views(old(warnings)@)
            },
            Err(e) => config_duration(v@) is None && e@ == ConfigErrorView::InvalidDuration(
                field@,
                unquoted(v@),
            ) && final(warnings)@ == old(warnings)@,
        },
{
    let s = unquote(v);
    let bare = trim(Trim::Space, v);
    let quoted = bare.len() > 0 && (bare[0] == '"' || bare[0] == '\'');
    if !quoted {
        if let Some(secs) = integer(s, 10) {
            let mut warning = string_of(field);
            warning.append(" should be converted to a duration");
            let ghost was = string_views(warnings@);
            warnings.push(warning);
            assert(string_views(warnings@) =~= was.push(duration_warning(field@)));
            return Ok(Span::from_secs(secs as u64));
        }
    }
    match parse_duration_chars(s) {
        Some(span) => Ok(span),
        None => Err(ConfigError::InvalidDuration(string_of(field), string_of(s))),
    }
}

/// The characters of several strings.
pub open spec fn string_views(v: Seq<String>) -> Seq<Seq<char>> {
    Seq::new(v.len(), |i: int| v[i]@)
}

/// The span of that many nanoseconds.
pub open spec fn span_of(nanos: nat) -> Span {
    Span { secs: (nanos / (NANOS as nat)) as u64, nanos: (nanos % (NANOS as nat)) as u32 }
}

/// A span is its nanoseconds.
proof fn span_is(span: Span)
    requires
        span.wf(),
    ensures
        span == span_of(span.total()),
{
    let n = span.total() as int;
    vstd::arithmetic::div_mod::lemma_fundamental_div_mod_converse(
        n,
        NANOS as int,
        span.secs as int,
        span.nanos as int,
    );
}

/// A config file as far as it was read: the options, and what there is to warn about.
#[verifier::ext_equal]
pub struct Parsed {
    pub cfg: ConfigView,
    pub warnings: Seq<Seq<char>>,
}

/// A line without its comment and the white space around it.
pub open spec fn bare_line(raw: Seq<char>) -> Seq<char> {
    trim_both(
        Trim::Space,
        match first_at(raw, '#') {
            Some(i) => raw.take(i),
            None => raw,
        },
    )
}

/// What one setting does.
pub open spec fn config_set(p: Parsed, key: Seq<char>, value: Seq<char>) -> Result<
    Parsed,
    ConfigErrorView,
> {
    let cfg = p.cfg;
    let put = |c: ConfigView| Ok::<Parsed, ConfigErrorView>(Parsed { cfg: c, ..p });
    let not_integer = Err::<Parsed, ConfigErrorView>(
        ConfigErrorView::ExpectedInteger(unquoted(value)),
    );
    if key == "host"@ {
        put(ConfigView { host: unquoted(value), ..cfg })
    } else if key == "port"@ {
        match config_integer(value) {
            Some(n) => put(ConfigView { port: (n as i64) as i32, ..cfg }),
            None => not_integer,
        }
    } else if key == "server_name"@ {
        put(ConfigView { server_name: Some(unquoted(value)), ..cfg })
    } else if key == "max_payload"@ {
        match config_integer(value) {
            Some(n) => put(ConfigView { max_payload: (n as i64) as u64, ..cfg }),
            None => not_integer,
        }
    } else if key == "max_pending"@ {
        match config_integer(value) {
            Some(n) => put(ConfigView { max_pending: (n as i64) as u64, ..cfg }),
            None => not_integer,
        }
    } else if key == "max_control_line"@ {
        match config_integer(value) {
            Some(n) => put(ConfigView { max_control_line: (n as i64) as usize, ..cfg }),
            None => not_integer,
        }
    } else if key == "max_connections"@ {
        match config_integer(value) {
            Some(n) => put(ConfigView { max_connections: n as i64, ..cfg }),
            None => not_integer,
        }
    } else if key == "ping_interval"@ || key == "write_deadline"@ {
        match config_duration(value) {
            Some((n, old_kind)) => Ok(
                Parsed {
                    cfg: if key == "ping_interval"@ {
                        ConfigView { ping_interval: span_of(n), ..cfg }
                    } else {
                        ConfigView { write_deadline: span_of(n), ..cfg }
                    },
                    warnings: if old_kind {
                        p.warnings.push(duration_warning(key))
                    } else {
                        p.warnings
                    },
                },
            ),
            None => Err(ConfigErrorView::InvalidDuration(key, unquoted(value))),
        }
    } else if key == "debug"@ {
        match config_bool(value) {
            Some(b) => put(ConfigView { debug: b, ..cfg }),
            None => Err(ConfigErrorView::ExpectedBoolean(unquoted(value))),
        }
    } else if key == "trace"@ {
        match config_bool(value) {
            Some(b) => put(ConfigView { trace: b, ..cfg }),
            None => Err(ConfigErrorView::ExpectedBoolean(unquoted(value))),
        }
    } else {
        Err(ConfigErrorView::UnknownField(key))
    }
}

/// What one line does, the one of that number.
pub open spec fn config_line(p: Parsed, raw: Seq<char>, number: nat) -> Result<
    Parsed,
    ConfigErrorView,
> {
    let line = bare_line(raw);
    if line.len() == 0 {
        Ok(p)
    } else {
        match first_at(line, ':') {
            None => Err(ConfigErrorView::ExpectedKey(number as u64)),
            Some(i) => config_set(
                p,
                trim_both(Trim::Double, trim_both(Trim::Space, line.take(i))),
                line.skip(i + 1),
            ),
        }
    }
}

/// What several lines do, one after the other; the first error ends it.
pub open spec fn config_lines(lines: Seq<Seq<char>>) -> Result<Parsed, ConfigErrorView>
    decreases lines.len(),
{
    if lines.len() == 0 {
        Ok(Parsed { cfg: default_config(), warnings: Seq::empty() })
    } else {
        match config_lines(lines.drop_last()) {
            Ok(p) => config_line(p, lines.last(), lines.len()),
            Err(e) => Err(e),
        }
    }
}

/// The options and warnings so far.
spec fn parsed(cfg: Config, warnings: Seq<String>) -> Parsed {
    Parsed { cfg: cfg@, warnings: string_views(warnings) }
}

spec fn agrees(
    r: Result<(), ConfigError>,
    cfg: Config,
    warnings: Seq<String>,
    wanted: Result<Parsed, ConfigErrorView>,
) -> bool {
    match (r, wanted) {
        (Ok(_), Ok(p)) => parsed(cfg, warnings) == p,
        (Err(e), Err(w)) => e@ == w,
        _ => false,
    }
}

fn set(cfg: &mut Config, warnings: &mut Vec<String>, key: &[char], value: &[char]) -> (r: Result<
    (),
    ConfigError,
>)
    ensures
        agrees(
            r,
            *final(cfg),
            final(warnings)@,
            config_set(parsed(*old(cfg), old(warnings)@), key@, value@),
        ),
{
    if is_text(key, "host") {
        cfg.host = string_of(unquote(value));
    } else if is_text(key, "port") {
        let n = match parse_int(value) {
            Ok(n) => n,
            Err(e) => {
                return Err(e);
            },
        };
        cfg.port = n as i32;
    } else if is_text(key, "server_name") {
        cfg.server_name = Some(string_of(unquote(value)));
    } else if is_text(key, "max_payload") {
        let n = match parse_int(value) {
            Ok(n) => n,
            Err(e) => {
                return Err(e);
            },
        };
        cfg.max_payload = n as u64;
    } else if is_text(key, "max_pending") {
        let n = match parse_int(value) {
            Ok(n) => n,
            Err(e) => {
                return Err(e);
            },
        };
        cfg.max_pending = n as u64;
    } else if is_text(key, "max_control_line") {
        let n = match parse_int(value) {
            Ok(n) => n,
            Err(e) => {
                return Err(e);
            },
        };
        cfg.max_control_line = n as usize;
    } else if is_text(key, "max_connections") {
        let n = match parse_int(value) {
            Ok(n) => n,
            Err(e) => {
                return Err(e);
            },
        };
        cfg.max_connections = n;
    } else if is_text(key, "ping_interval") {
        let span = match parse_duration(value, key, warnings) {
            Ok(span) => span,
            Err(e) => {
                return Err(e);
            },
        };
        proof {
            span_is(span);
        }
        cfg.ping_interval = span;
    } else if is_text(key, "write_deadline") {
        let span = match parse_duration(value, key, warnings) {
            Ok(span) => span,
            Err(e) => {
                return Err(e);
            },
        };
        proof {
            span_is(span);
            reveal_strlit("ping_interval");
            reveal_strlit("write_deadline");
        }
        cfg.write_deadline = span;
    } else if is_text(key, "debug") {
        let b = match parse_bool(value) {
            Ok(b) => b,
            Err(e) => {
                return Err(e);
            },
        };
        cfg.debug = b;
    } else if is_text(key, "trace") {
        let b = match parse_bool(value) {
            Ok(b) => b,
            Err(e) => {
                return Err(e);
            },
        };
        cfg.trace = b;
    } else {
        return Err(ConfigError::UnknownField(string_of(key)));
    }
    Ok(())
}

fn read_line(cfg: &mut Config, warnings: &mut Vec<String>, raw: &[char], number: u64) -> (r: Result<
    (),
    ConfigError,
>)
    ensures
        agrees(
            r,
            *final(cfg),
            final(warnings)@,
            config_line(parsed(*old(cfg), old(warnings)@), raw@, number as nat),
        ),
{
    let line = match find(raw, '#') {
        Some(i) => {
            let head: &[char] = &raw[0..i];
            assert(head@ =~= raw@.take(i as int));
            trim(Trim::Space, head)
        },
        None => trim(Trim::Space, raw),
    };
    if line.len() == 0 {
        return Ok(());
    }
    let at = match find(line, ':') {
        Some(at) => at,
        None => {
            return Err(ConfigError::ExpectedKey(number));
        },
    };
    let name: &[char] = &line[0..at];
    let value: &[char] = &line[at + 1..line.len()];
    assert(name@ =~= line@.take(at as int));
    assert(value@ =~= line@.skip(at + 1));
    let key = trim(Trim::Double, trim(Trim::Space, name));
    set(cfg, warnings, key, value)
}

/// Parses a config file: the options, and what there is to warn about. A key that this
/// server does not enforce is an error.
pub fn parse_config(text: &str) -> (r: Result<(Config, Vec<String>), ConfigError>)
    ensures
        match (r, config_lines(lines_of(text@))) {
            (Ok(out), Ok(p)) => out.0@ == p.cfg && string_views(out.1@) == p.warnings,
            (Err(e), Err(w)) => e@ == w,
            _ => false,
        },
{
    let chars = chars_of(text);
    let ghost lines = lines_of(chars@);
    let mut cfg = Config::default();
    let mut warnings: Vec<String> = Vec::new();
    let mut rest: &[char] = chars.as_slice();
    let mut number: u64 = 0;
    proof {
        assert(string_views(warnings@) =~= Seq::empty());
        assert(lines.take(0) =~= Seq::empty());
        assert(lines.skip(0) =~= lines);
    }
    while rest.len() > 0
        invariant
            lines == lines_of(text@),
            number + rest@.len() <= chars@.len(),
            number <= lines.len(),
            chars.len() == chars@.len(),
            lines.skip(number as int) == lines_of(rest@),
            config_lines(lines.take(number as int)) == Ok::<Parsed, ConfigErrorView>(
                parsed(cfg, warnings@),
            ),
        decreases rest@.len(),
    {
        let (line, after) = split_line(rest);
        proof {
            let later = lines.skip(number as int);
            assert(later == seq![line@] + lines_of(after@));
            assert(later.len() == 1 + lines_of(after@).len());
            assert(later.len() == lines.len() - number);
            assert(later[0] == line@);
            assert(lines[number as int] == line@);
            assert(lines.take(number + 1).drop_last() =~= lines.take(number as int));
            assert(lines.take(number + 1).last() == line@);
            assert(lines.skip(number + 1) =~= lines_of(after@)) by {
                assert(later.skip(1) =~= lines.skip(number + 1));
                assert(later.skip(1) =~= lines_of(after@));
            }
        }
        number = number + 1;
        match read_line(&mut cfg, &mut warnings, line, number) {
            Ok(_) => {},
            Err(e) => {
                proof {
                    first_error_stands(lines, number as int);
                }
                return Err(e);
            },
        }
        rest = after;
    }
    assert(lines_of(rest@) =~= Seq::empty());
    assert(lines.skip(number as int).len() == 0);
    assert(lines.take(number as int) =~= lines);
    Ok((cfg, warnings))
}

/// Lines after the first error change nothing.
proof fn first_error_stands(lines: Seq<Seq<char>>, k: int)
    requires
        0 <= k <= lines.len(),
        config_lines(lines.take(k)) is Err,
    ensures
        config_lines(lines) == config_lines(lines.take(k)),
    decreases lines.len() - k,
{
    if k < lines.len() {
        assert(lines.take(k + 1).drop_last() =~= lines.take(k));
        first_error_stands(lines, k + 1);
    } else {
        assert(lines.take(k) =~= lines);
    }
}

// --------------------------------------------------------------------------- flags --

/// What the command line said.
#[derive(Debug, Clone)]
pub struct Args {
    pub config_file: Option<String>,
    pub test_config: bool,
    pub version: bool,
    pub help: bool,
    pub host: Option<String>,
    pub port: Option<i32>,
    pub ports_file_dir: Option<String>,
    pub server_name: Option<String>,
    pub debug: bool,
    pub trace: bool,
}

/// What the command line said, with its text as sequences.
#[verifier::ext_equal]
pub struct ArgsView {
    pub config_file: Option<Seq<char>>,
    pub test_config: bool,
    pub version: bool,
    pub help: bool,
    pub host: Option<Seq<char>>,
    pub port: Option<i32>,
    pub ports_file_dir: Option<Seq<char>>,
    pub server_name: Option<Seq<char>>,
    pub debug: bool,
    pub trace: bool,
}

impl View for Args {
    type V = ArgsView;

    open spec fn view(&self) -> ArgsView {
        ArgsView {
            config_file: optional_chars(self.config_file),
            test_config: self.test_config,
            version: self.version,
            help: self.help,
            host: optional_chars(self.host),
            port: self.port,
            ports_file_dir: optional_chars(self.ports_file_dir),
            server_name: optional_chars(self.server_name),
            debug: self.debug,
            trace: self.trace,
        }
    }
}

/// A command line that said nothing.
pub open spec fn no_args() -> ArgsView {
    ArgsView {
        config_file: None,
        test_config: false,
        version: false,
        help: false,
        host: None,
        port: None,
        ports_file_dir: None,
        server_name: None,
        debug: false,
        trace: false,
    }
}

impl Default for Args {
    fn default() -> (r: Self)
        ensures
            r@ == no_args(),
    {
        Args {
            config_file: None,
            test_config: false,
            version: false,
            help: false,
            host: None,
            port: None,
            ports_file_dir: None,
            server_name: None,
            debug: false,
            trace: false,
        }
    }
}

/// What is wrong with a command line.
#[derive(Debug, Clone)]
pub enum ArgsError {
    /// A flag that takes a value, without one.
    NeedsArgument(String),
    /// A port that is no number.
    InvalidPort(String),
    /// A flag that there is not.
    Undefined(String),
}

/// What is wrong with a command line, with its text as sequences.
#[verifier::ext_equal]
pub enum ArgsErrorView {
    NeedsArgument(Seq<char>),
    InvalidPort(Seq<char>),
    Undefined(Seq<char>),
}

impl View for ArgsError {
    type V = ArgsErrorView;

    open spec fn view(&self) -> ArgsErrorView {
        match *self {
            ArgsError::NeedsArgument(name) => ArgsErrorView::NeedsArgument(name@),
            ArgsError::InvalidPort(value) => ArgsErrorView::InvalidPort(value@),
            ArgsError::Undefined(name) => ArgsErrorView::Undefined(name@),
        }
    }
}

/// The words for an error of the command line.
pub open spec fn args_message(e: ArgsErrorView, program: Seq<char>) -> Seq<char> {
    program + match e {
        ArgsErrorView::NeedsArgument(name) => ": flag needs an argument: "@ + name,
        ArgsErrorView::InvalidPort(value) => ": invalid value \""@ + value
            + "\" for flag -p: parse error"@,
        ArgsErrorView::Undefined(name) => ": flag provided but not defined: "@ + name,
    }
}

impl ArgsError {
    /// The words for the error, as the program of that name says them.
    pub fn message(&self, program: &str) -> (r: String)
        ensures
            r@ == args_message(self@, program@),
    {
        let mut out = program.to_owned();
        match self {
            ArgsError::NeedsArgument(name) => {
                out.append(": flag needs an argument: ");
                out.append(name.as_str());
            },
            ArgsError::InvalidPort(value) => {
                out.append(": invalid value \"");
                out.append(value.as_str());
                out.append("\" for flag -p: parse error");
            },
            ArgsError::Undefined(name) => {
                out.append(": flag provided but not defined: ");
                out.append(name.as_str());
            },
        }
        assert(out@ =~= args_message(self@, program@));
        out
    }
}

impl ArgsError {
    /// What the program exits with. A flag that there is not is answered with the help text,
    /// and is no failure.
    pub fn exit_status(&self) -> (r: u8)
        ensures
            r == if self@ is Undefined {
                0
            } else {
                1int
            },
    {
        match self {
            ArgsError::Undefined(_) => 0,
            _ => 1,
        }
    }
}

/// A flag of the command line.
#[derive(Clone, Copy, PartialEq, Eq, Structural)]
pub enum Flag {
    Host,
    Port,
    Name,
    ConfigFile,
    PortsFileDir,
    TestConfig,
    Version,
    Help,
    Debug,
    Trace,
    Unknown,
}

/// The flag of that name.
pub open spec fn flag_of(name: Seq<char>) -> Flag {
    if name == "-a"@ || name == "--addr"@ || name == "--net"@ {
        Flag::Host
    } else if name == "-p"@ || name == "--port"@ {
        Flag::Port
    } else if name == "-n"@ || name == "--name"@ || name == "--server_name"@ {
        Flag::Name
    } else if name == "-c"@ || name == "--config"@ {
        Flag::ConfigFile
    } else if name == "--ports_file_dir"@ {
        Flag::PortsFileDir
    } else if name == "-t"@ {
        Flag::TestConfig
    } else if name == "-v"@ || name == "--version"@ {
        Flag::Version
    } else if name == "-h"@ || name == "--help"@ {
        Flag::Help
    } else if name == "-D"@ || name == "--debug"@ {
        Flag::Debug
    } else if name == "-V"@ || name == "--trace"@ {
        Flag::Trace
    } else {
        Flag::Unknown
    }
}

fn which_flag(name: &[char]) -> (r: Flag)
    ensures
        r == flag_of(name@),
{
    if is_text(name, "-a") || is_text(name, "--addr") || is_text(name, "--net") {
        Flag::Host
    } else if is_text(name, "-p") || is_text(name, "--port") {
        Flag::Port
    } else if is_text(name, "-n") || is_text(name, "--name") || is_text(name, "--server_name") {
        Flag::Name
    } else if is_text(name, "-c") || is_text(name, "--config") {
        Flag::ConfigFile
    } else if is_text(name, "--ports_file_dir") {
        Flag::PortsFileDir
    } else if is_text(name, "-t") {
        Flag::TestConfig
    } else if is_text(name, "-v") || is_text(name, "--version") {
        Flag::Version
    } else if is_text(name, "-h") || is_text(name, "--help") {
        Flag::Help
    } else if is_text(name, "-D") || is_text(name, "--debug") {
        Flag::Debug
    } else if is_text(name, "-V") || is_text(name, "--trace") {
        Flag::Trace
    } else {
        Flag::Unknown
    }
}

/// Does the flag take a value?
pub open spec fn takes_value(flag: Flag) -> bool {
    flag == Flag::Host || flag == Flag::Port || flag == Flag::Name || flag == Flag::ConfigFile
        || flag == Flag::PortsFileDir
}

/// The name of a flag, and the value that stands in the same argument: only a long flag
/// can have one, behind an equals sign.
pub open spec fn split_flag(arg: Seq<char>) -> (Seq<char>, Option<Seq<char>>) {
    match first_at(arg, '=') {
        Some(i) => if "--"@.is_prefix_of(arg.take(i)) {
            (arg.take(i), Some(arg.skip(i + 1)))
        } else {
            (arg, None)
        },
        None => (arg, None),
    }
}

/// What a flag does that takes no value.
pub open spec fn switched(args: ArgsView, flag: Flag) -> ArgsView {
    match flag {
        Flag::TestConfig => ArgsView { test_config: true, ..args },
        Flag::Version => ArgsView { version: true, ..args },
        Flag::Help => ArgsView { help: true, ..args },
        Flag::Debug => ArgsView { debug: true, ..args },
        Flag::Trace => ArgsView { trace: true, ..args },
        _ => args,
    }
}

/// What a flag does with its value.
pub open spec fn valued(args: ArgsView, flag: Flag, value: Seq<char>) -> Result<
    ArgsView,
    ArgsErrorView,
> {
    match flag {
        Flag::Host => Ok(ArgsView { host: Some(value), ..args }),
        Flag::Name => Ok(ArgsView { server_name: Some(value), ..args }),
        Flag::ConfigFile => Ok(ArgsView { config_file: Some(value), ..args }),
        Flag::PortsFileDir => Ok(ArgsView { ports_file_dir: Some(value), ..args }),
        Flag::Port => match integer_value(value, 10) {
            Some(n) => if i32::MIN <= n <= i32::MAX {
                Ok(ArgsView { port: Some(n as i32), ..args })
            } else {
                Err(ArgsErrorView::InvalidPort(value))
            },
            None => Err(ArgsErrorView::InvalidPort(value)),
        },
        _ => Ok(args),
    }
}

/// What the arguments from `at` on say, on top of what was said before. The first one
/// that is no flag ends it.
pub open spec fn args_from(argv: Seq<Seq<char>>, at: int, args: ArgsView) -> Result<
    ArgsView,
    ArgsErrorView,
>
    decreases argv.len() - at,
{
    if at < 0 || at >= argv.len() {
        Ok(args)
    } else {
        let arg = argv[at];
        let (name, inline) = split_flag(arg);
        let flag = flag_of(name);
        if arg.len() == 0 || arg[0] != '-' || arg == "-"@ {
            Ok(args)
        } else if flag == Flag::Unknown {
            Err(ArgsErrorView::Undefined(name))
        } else if !takes_value(flag) {
            args_from(argv, at + 1, switched(args, flag))
        } else {
            match inline {
                Some(value) => match valued(args, flag, value) {
                    Ok(more) => args_from(argv, at + 1, more),
                    Err(e) => Err(e),
                },
                None => if at + 1 >= argv.len() {
                    Err(ArgsErrorView::NeedsArgument(name))
                } else {
                    match valued(args, flag, argv[at + 1]) {
                        Ok(more) => args_from(argv, at + 2, more),
                        Err(e) => Err(e),
                    }
                },
            }
        }
    }
}

fn give_value(args: &mut Args, flag: Flag, value: &[char]) -> (r: Result<(), ArgsError>)
    ensures
        match (r, valued(old(args)@, flag, value@)) {
            (Ok(_), Ok(a)) => final(args)@ == a,
            (Err(e), Err(w)) => e@ == w,
            _ => false,
        },
{
    match flag {
        Flag::Host => {
            args.host = Some(string_of(value));
        },
        Flag::Name => {
            args.server_name = Some(string_of(value));
        },
        Flag::ConfigFile => {
            args.config_file = Some(string_of(value));
        },
        Flag::PortsFileDir => {
            args.ports_file_dir = Some(string_of(value));
        },
        Flag::Port => {
            match integer(value, 10) {
                Some(n) => {
                    if n < i32::MIN as i64 || n > i32::MAX as i64 {
                        return Err(ArgsError::InvalidPort(string_of(value)));
                    }
                    args.port = Some(n as i32);
                },
                None => {
                    return Err(ArgsError::InvalidPort(string_of(value)));
                },
            }
        },
        _ => {},
    }
    Ok(())
}

fn switch(args: &mut Args, flag: Flag)
    ensures
        final(args)@ == switched(old(args)@, flag),
{
    match flag {
        Flag::TestConfig => {
            args.test_config = true;
        },
        Flag::Version => {
            args.version = true;
        },
        Flag::Help => {
            args.help = true;
        },
        Flag::Debug => {
            args.debug = true;
        },
        Flag::Trace => {
            args.trace = true;
        },
        _ => {},
    }
}

/// Parses the arguments of the program of that name. The error is in the words that the
/// program says.
pub fn parse_args(argv: &Vec<String>, program: &str) -> (r: Result<Args, String>)
    ensures
        match (r, args_from(string_views(argv@), 0, no_args())) {
            (Ok(args), Ok(a)) => args@ == a,
            (Err(e), Err(w)) => e@ == args_message(w, program@),
            _ => false,
        },
{
    match read_args(argv) {
        Ok(args) => Ok(args),
        Err(e) => Err(e.message(program)),
    }
}

/// Reads the arguments of the program, without its name.
pub fn read_args(argv: &Vec<String>) -> (r: Result<Args, ArgsError>)
    ensures
        match (r, args_from(string_views(argv@), 0, no_args())) {
            (Ok(args), Ok(a)) => args@ == a,
            (Err(e), Err(w)) => e@ == w,
            _ => false,
        },
{
    let ghost all = string_views(argv@);
    let mut out = Args::default();
    let mut at: usize = 0;
    while at < argv.len()
        invariant
            at <= argv@.len(),
            all == string_views(argv@),
            args_from(all, 0, no_args()) == args_from(all, at as int, out@),
        decreases argv@.len() - at,
    {
        let arg = chars_of(argv[at].as_str());
        let arg: &[char] = arg.as_slice();
        assert(arg@ == all[at as int]);
        if arg.len() == 0 || arg[0] != '-' || is_text(arg, "-") {
            return Ok(out);
        }
        let mut name: &[char] = arg;
        let mut inline: Option<&[char]> = None;
        if let Some(i) = find(arg, '=') {
            let head: &[char] = &arg[0..i];
            assert(head@ =~= arg@.take(i as int));
            if begins_with(head, "--") {
                let tail: &[char] = &arg[i + 1..arg.len()];
                assert(tail@ =~= arg@.skip(i + 1));
                name = head;
                inline = Some(tail);
            }
        }
        assert(split_flag(arg@).0 == name@);
        let flag = which_flag(name);
        match flag {
            Flag::Unknown => {
                return Err(ArgsError::Undefined(string_of(name)));
            },
            Flag::Host | Flag::Port | Flag::Name | Flag::ConfigFile | Flag::PortsFileDir => {
                match inline {
                    Some(value) => {
                        match give_value(&mut out, flag, value) {
                            Ok(_) => {},
                            Err(e) => {
                                return Err(e);
                            },
                        }
                        at += 1;
                    },
                    None => {
                        if argv.len() - at < 2 {
                            return Err(ArgsError::NeedsArgument(string_of(name)));
                        }
                        let value = chars_of(argv[at + 1].as_str());
                        assert(value@ == all[at + 1]);
                        match give_value(&mut out, flag, value.as_slice()) {
                            Ok(_) => {},
                            Err(e) => {
                                return Err(e);
                            },
                        }
                        at += 2;
                    },
                }
            },
            _ => {
                switch(&mut out, flag);
                at += 1;
            },
        }
    }
    Ok(out)
}

/// The options after the command line: what it says wins over the config file.
pub open spec fn flags_applied(cfg: ConfigView, args: ArgsView) -> ConfigView {
    ConfigView {
        host: match args.host {
            Some(h) => h,
            None => cfg.host,
        },
        port: match args.port {
            Some(p) => p,
            None => cfg.port,
        },
        ports_file_dir: match args.ports_file_dir {
            Some(d) => Some(d),
            None => cfg.ports_file_dir,
        },
        server_name: match args.server_name {
            Some(n) => Some(n),
            None => cfg.server_name,
        },
        debug: cfg.debug || args.debug,
        trace: cfg.trace || args.trace,
        ..cfg
    }
}

/// Command-line values win over the config file.
pub fn apply_flags(cfg: &mut Config, args: &Args)
    ensures
        final(cfg)@ == flags_applied(old(cfg)@, args@),
{
    if let Some(h) = &args.host {
        cfg.host = h.clone();
    }
    if let Some(p) = args.port {
        cfg.port = p;
    }
    if let Some(d) = &args.ports_file_dir {
        cfg.ports_file_dir = Some(d.clone());
    }
    if let Some(n) = &args.server_name {
        cfg.server_name = Some(n.clone());
    }
    cfg.debug = cfg.debug || args.debug;
    cfg.trace = cfg.trace || args.trace;
}

/// What stands before the program's name in the help text.
pub const USAGE_HEAD: &'static str = "\nUsage: ";

/// What stands behind the program's name in the help text.
pub const USAGE_TAIL: &'static str = " [options]\n\nServer Options:\n    -a, --addr, --net <host>         Bind to host address (default: 0.0.0.0)\n    -p, --port <port>                Use port for clients (default: 4222)\n    -n, --name, --server_name <name> Server name (default: auto)\n    -c, --config <file>              Configuration file\n    -t                               Test configuration and exit\n        --ports_file_dir <dir>       Creates a ports file in the specified directory\n    -v, --version                    Show version\n\nLogging Options:\n    -D, --debug                      Enable debugging output\n    -V, --trace                      Trace the raw protocol\n";

/// The help text of the program of that name.
pub fn usage(program: &str) -> (r: String)
    ensures
        r@ == USAGE_HEAD@ + program@ + USAGE_TAIL@,
{
    let mut out = USAGE_HEAD.to_owned();
    out.append(program);
    out.append(USAGE_TAIL);
    out
}

/// What the program was asked to do.
#[derive(Debug, Clone, Copy, PartialEq, Eq, Structural)]
pub enum Task {
    /// Say which version it is.
    Version,
    /// Say how it is used.
    Help,
    /// Read the options, and no more.
    Check,
    /// Serve.
    Serve,
}

/// What three flags ask the program to do: the version goes before the help, and both before a
/// look at the options.
pub open spec fn task_of(version: bool, help: bool, test_config: bool) -> Task {
    if version {
        Task::Version
    } else if help {
        Task::Help
    } else if test_config {
        Task::Check
    } else {
        Task::Serve
    }
}

/// What the command line asks the program to do.
pub fn task(args: &Args) -> (r: Task)
    ensures
        r == if args.version {
            Task::Version
        } else if args.help {
            Task::Help
        } else if args.test_config {
            Task::Check
        } else {
            Task::Serve
        },
        r == task_of(args.version, args.help, args.test_config),
{
    if args.version {
        Task::Version
    } else if args.help {
        Task::Help
    } else if args.test_config {
        Task::Check
    } else {
        Task::Serve
    }
}

/// Is that an option that a config file may set?
pub open spec fn listed(key: Seq<char>) -> bool {
    ||| key == "host"@
    ||| key == "port"@
    ||| key == "server_name"@
    ||| key == "max_payload"@
    ||| key == "max_pending"@
    ||| key == "max_control_line"@
    ||| key == "max_connections"@
    ||| key == "ping_interval"@
    ||| key == "write_deadline"@
    ||| key == "debug"@
    ||| key == "trace"@
}

/// The option that a line sets, if it sets one.
pub open spec fn key_in(raw: Seq<char>) -> Option<Seq<char>> {
    match first_at(bare_line(raw), ':') {
        Some(i) => Some(trim_both(Trim::Double, trim_both(Trim::Space, bare_line(raw).take(i)))),
        None => None,
    }
}

/// A config file that sets anything but the listed options is rejected, whatever else it says:
/// what a file asks for is never ignored.
pub proof fn an_unlisted_option_is_rejected(lines: Seq<Seq<char>>, k: int)
    requires
        0 <= k < lines.len(),
        key_in(lines[k]) matches Some(key) && !listed(key),
    ensures
        config_lines(lines) is Err,
    decreases lines.len(),
{
    if k < lines.len() - 1 {
        assert(lines.drop_last()[k] == lines[k]);
        an_unlisted_option_is_rejected(lines.drop_last(), k);
    }
}

/// What the command line gives wins over the config file, whatever that says; what it does
/// not give stays; and it switches nothing off.
pub proof fn flags_win(cfg: ConfigView, args: ArgsView)
    ensures
        ({
            let after = flags_applied(cfg, args);
            &&& args.host matches Some(h) ==> after.host == h
            &&& args.host is None ==> after.host == cfg.host
            &&& args.port matches Some(p) ==> after.port == p
            &&& args.port is None ==> after.port == cfg.port
            &&& args.ports_file_dir is Some ==> after.ports_file_dir == args.ports_file_dir
            &&& args.ports_file_dir is None ==> after.ports_file_dir == cfg.ports_file_dir
            &&& args.server_name is Some ==> after.server_name == args.server_name
            &&& args.server_name is None ==> after.server_name == cfg.server_name
            &&& cfg.debug ==> after.debug
            &&& cfg.trace ==> after.trace
            &&& after.debug <==> cfg.debug || args.debug
            &&& after.trace <==> cfg.trace || args.trace
            &&& after.max_payload == cfg.max_payload
            &&& after.max_pending == cfg.max_pending
            &&& after.max_control_line == cfg.max_control_line
            &&& after.max_connections == cfg.max_connections
            &&& after.ping_interval == cfg.ping_interval
            &&& after.write_deadline == cfg.write_deadline
            &&& flags_applied(after, args) == after
            &&& flags_applied(cfg, no_args()) == cfg
        }),
{
    assert(flags_applied(cfg, no_args()) =~= cfg);
    assert(flags_applied(flags_applied(cfg, args), args) =~= flags_applied(cfg, args));
}

/// The options that a config file and the command line give together, or what is wrong with
/// them: the file first, where there is one, then the flags, and at last whether they make
/// sense together.
pub open spec fn options_of(text: Option<Seq<char>>, args: ArgsView) -> Result<
    ConfigView,
    ConfigErrorView,
> {
    let parsed = match text {
        Some(t) => config_lines(lines_of(t)),
        None => Ok(Parsed { cfg: default_config(), warnings: Seq::empty() }),
    };
    match parsed {
        Err(e) => Err(e),
        Ok(p) => {
            let cfg = flags_applied(p.cfg, args);
            if cfg.max_payload > cfg.max_pending {
                Err(ConfigErrorView::PayloadOverPending(cfg.max_payload, cfg.max_pending))
            } else {
                Ok(cfg)
            }
        },
    }
}

/// What there is to warn about in a config file that can be read.
pub open spec fn warnings_of(text: Option<Seq<char>>) -> Seq<Seq<char>> {
    match text {
        Some(t) => match config_lines(lines_of(t)) {
            Ok(p) => p.warnings,
            Err(_) => Seq::empty(),
        },
        None => Seq::empty(),
    }
}

/// Reads the options from a config file, where there is one, and the command line. Gives
/// what there is to warn about, too.
pub fn configure(text: Option<&str>, args: &Args) -> (r: (Vec<String>, Result<Config, ConfigError>))
    ensures
        ({
            let text = match text {
                Some(t) => Some(t@),
                None => None,
            };
            &&& string_views(r.0@) == warnings_of(text)
            &&& match (r.1, options_of(text, args@)) {
                (Ok(cfg), Ok(wanted)) => cfg@ == wanted,
                (Err(e), Err(wanted)) => e@ == wanted,
                _ => false,
            }
        }),
{
    let (mut cfg, warnings) = match text {
        Some(t) => match parse_config(t) {
            Ok(read) => read,
            Err(e) => {
                let none: Vec<String> = Vec::new();
                assert(string_views(none@) =~= Seq::empty());
                return (none, Err(e));
            },
        },
        None => {
            let none: Vec<String> = Vec::new();
            assert(string_views(none@) =~= Seq::empty());
            (Config::default(), none)
        },
    };
    apply_flags(&mut cfg, args);
    match cfg.validate() {
        Ok(_) => (warnings, Ok(cfg)),
        Err(e) => (warnings, Err(e)),
    }
}

} // verus!
