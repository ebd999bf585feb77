//! What a config file and a command line set, told by what stands in them: each option gets the
//! value that is written for it, and the others stay as they were.
use vstd::prelude::*;

use crate::chars::{
    a_decimal_is_a_number, digits_value, first_at, integer_value, lines_of,
    number_value, trim_back, trim_both, trim_front, trims, white_space, without_return, Trim,
};
use crate::config::{
    args_from, args_message, bare_line, config_bool, config_integer, config_line, config_lines, config_set, decimal_chars,
    default_config, duration_of, error_message, flag_of, is_quoted, numeral_char, numeral_len, numeral_len_is, no_args, options_of,
    span_of, term_nanos, terms_nanos, unit_nanos, unquoted, ArgsErrorView, ArgsView,
    ConfigErrorView, ConfigView, Flag, Parsed, NANOS,
};
use crate::text::{decimal, decimal_round_trip, is_digit};

verus! {

// ---------------------------------------------------------------------------- lines --

/// A character stands first where it does not stand before.
pub proof fn it_stands_first(a: Seq<char>, c: char, b: Seq<char>)
    requires
        forall|i: int| 0 <= i < a.len() ==> #[trigger] a[i] != c,
    ensures
        first_at(a + seq![c] + b, c) == Some(a.len() as int),
    decreases a.len(),
{
    let s = a + seq![c] + b;
    if a.len() > 0 {
        assert(s[0] == a[0]);
        assert forall|i: int| 0 <= i < a.skip(1).len() implies #[trigger] a.skip(1)[i] != c by {
            assert(a.skip(1)[i] == a[i + 1]);
        }
        it_stands_first(a.skip(1), c, b);
        assert(s.skip(1) =~= a.skip(1) + seq![c] + b);
    }
}

/// A character that stands nowhere is not found.
pub proof fn it_stands_nowhere(a: Seq<char>, c: char)
    requires
        forall|i: int| 0 <= i < a.len() ==> #[trigger] a[i] != c,
    ensures
        first_at(a, c) is None,
    decreases a.len(),
{
    if a.len() > 0 {
        assert forall|i: int| 0 <= i < a.skip(1).len() implies #[trigger] a.skip(1)[i] != c by {
            assert(a.skip(1)[i] == a[i + 1]);
        }
        it_stands_nowhere(a.skip(1), c);
    }
}

/// A text falls into its lines: what stands before a newline is one, without the carriage
/// return of its line end, and the others follow; a text without a newline is one line.
pub proof fn lines_are_split(line: Seq<char>, rest: Seq<char>)
    requires
        forall|i: int| 0 <= i < line.len() ==> #[trigger] line[i] != '\n' && line[i] != '\r',
    ensures
        lines_of(line + seq!['\n'] + rest) == seq![line] + lines_of(rest),
        lines_of(line + seq!['\r', '\n'] + rest) == seq![line] + lines_of(rest),
        line.len() > 0 ==> lines_of(line) == seq![line],
        lines_of(Seq::empty()) == Seq::<Seq<char>>::empty(),
{
    it_stands_first(line, '\n', rest);
    let s = line + seq!['\n'] + rest;
    let n = line.len() as int;
    assert(s.take(n) =~= line);
    assert(s.skip(n + 1) =~= rest);
    assert(without_return(line) == line);
    let more = line.push('\r');
    assert forall|i: int| 0 <= i < more.len() implies #[trigger] more[i] != '\n' by {
        if i < n {
            assert(more[i] == line[i]);
        }
    }
    it_stands_first(more, '\n', rest);
    let t = line + seq!['\r', '\n'] + rest;
    assert(t =~= more + seq!['\n'] + rest);
    assert(t.take(n + 1) =~= more);
    assert(t.skip(n + 2) =~= rest);
    assert(more.drop_last() =~= line);
    it_stands_nowhere(line, '\n');
}

// --------------------------------------------------------------------------- values --

/// A word: something, and nothing in it that has a meaning of its own in a config file.
pub open spec fn is_word(s: Seq<char>) -> bool {
    &&& s.len() > 0
    &&& forall|i: int| #![trigger s[i]]
        0 <= i < s.len() ==> {
            &&& !white_space(s[i])
            &&& s[i] != '#'
            &&& s[i] != ','
            &&& s[i] != '"'
            &&& s[i] != '\''
        }
}

/// A name: a word without a colon.
pub open spec fn is_name(s: Seq<char>) -> bool {
    is_word(s) && forall|i: int| 0 <= i < s.len() ==> #[trigger] s[i] != ':'
}

/// The line that gives an option a value.
pub open spec fn setting(key: Seq<char>, value: Seq<char>) -> Seq<char> {
    key + seq![':', ' '] + value
}

/// Nothing is trimmed off what does not begin or end with it.
proof fn nothing_is_trimmed(what: Trim, s: Seq<char>)
    requires
        s.len() > 0 ==> !trims(what, s[0]) && !trims(what, s.last()),
    ensures
        trim_front(what, s) == s,
        trim_back(what, s) == s,
        trim_both(what, s) == s,
{
}

/// A value without a mark of its own is what it is, whatever stands around it.
proof fn a_word_is_bare(v: Seq<char>)
    requires
        is_word(v),
    ensures
        unquoted(seq![' '] + v) == v,
        unquoted(seq![' ', '"'] + v + seq!['"']) == v,
        !is_quoted(seq![' '] + v),
        is_quoted(seq![' ', '"'] + v + seq!['"']),
{
    assert(v[0] != ' ' && v[v.len() - 1] == v.last());
    nothing_is_trimmed(Trim::Space, v);
    nothing_is_trimmed(Trim::Comma, v);
    nothing_is_trimmed(Trim::Quotes, v);
    assert(white_space(' '));
    assert((seq![' '] + v).skip(1) =~= v);
    assert(trim_front(Trim::Space, seq![' '] + v) == trim_front(Trim::Space, v));
    let q = seq!['"'] + v + seq!['"'];
    assert(seq![' ', '"'] + v + seq!['"'] =~= seq![' '] + q);
    assert((seq![' '] + q).skip(1) =~= q);
    assert(!white_space('"'));
    assert(q[0] == '"' && q.last() == '"');
    nothing_is_trimmed(Trim::Space, q);
    nothing_is_trimmed(Trim::Comma, q);
    assert(trim_front(Trim::Space, seq![' '] + q) == trim_front(Trim::Space, q));
    let tail = v + seq!['"'];
    assert(q.skip(1) =~= tail);
    assert(tail[0] == v[0]);
    assert(trim_front(Trim::Quotes, q) == trim_front(Trim::Quotes, tail));
    assert(tail.drop_last() =~= v);
    assert(trim_back(Trim::Quotes, tail) == trim_back(Trim::Quotes, v));
}

/// A line that gives a name a value sets just that, in quotation marks or not; a comment behind
/// it, and white space around it, make no difference.
proof fn a_line_sets(p: Parsed, key: Seq<char>, value: Seq<char>, number: nat)
    requires
        is_name(key),
        value.len() > 0,
        !white_space(value.last()),
        forall|i: int| 0 <= i < value.len() ==> #[trigger] value[i] != '#',
    ensures
        config_line(p, setting(key, value), number) == config_set(p, key, seq![' '] + value),
{
    let raw = setting(key, value);
    assert forall|i: int| 0 <= i < raw.len() implies #[trigger] raw[i] != '#' by {
        if i < key.len() {
            assert(raw[i] == key[i]);
        } else if i >= key.len() + 2 {
            assert(raw[i] == value[i - key.len() - 2]);
        }
    }
    it_stands_nowhere(raw, '#');
    assert(raw[0] == key[0]);
    assert(raw.last() == value.last());
    nothing_is_trimmed(Trim::Space, raw);
    assert(bare_line(raw) == raw);
    it_stands_first(key, ':', seq![' '] + value);
    assert(raw =~= key + seq![':'] + (seq![' '] + value));
    assert(raw.take(key.len() as int) =~= key);
    assert(raw.skip(key.len() as int + 1) =~= seq![' '] + value);
    assert(key[key.len() - 1] == key.last());
    nothing_is_trimmed(Trim::Space, key);
    nothing_is_trimmed(Trim::Double, key);
}

/// A comment, and white space before and behind, change nothing about a line; and a line that is
/// nothing else does nothing.
pub proof fn comments_and_margins_are_nothing(
    p: Parsed,
    raw: Seq<char>,
    margin: Seq<char>,
    comment: Seq<char>,
    number: nat,
)
    requires
        forall|i: int| 0 <= i < raw.len() ==> #[trigger] raw[i] != '#',
        forall|i: int| #![trigger margin[i]] 0 <= i < margin.len() ==> white_space(margin[i]),
    ensures
        config_line(p, raw + seq!['#'] + comment, number) == config_line(p, raw, number),
        config_line(p, margin + raw, number) == config_line(p, raw, number),
        config_line(p, raw + margin, number) == config_line(p, raw, number),
        config_line(p, margin, number) == Ok::<Parsed, ConfigErrorView>(p),
{
    it_stands_first(raw, '#', comment);
    it_stands_nowhere(raw, '#');
    let full = raw + seq!['#'] + comment;
    assert(full.take(raw.len() as int) =~= raw);
    assert forall|i: int| 0 <= i < margin.len() implies #[trigger] margin[i] != '#' by {
        assert(white_space(margin[i]));
    }
    it_stands_nowhere(margin, '#');
    let left = margin + raw;
    let right = raw + margin;
    assert forall|i: int| 0 <= i < left.len() implies #[trigger] left[i] != '#' by {
        if i < margin.len() {
            assert(left[i] == margin[i]);
        } else {
            assert(left[i] == raw[i - margin.len()]);
        }
    }
    assert forall|i: int| 0 <= i < right.len() implies #[trigger] right[i] != '#' by {
        if i < raw.len() {
            assert(right[i] == raw[i]);
        } else {
            assert(right[i] == margin[i - raw.len()]);
        }
    }
    it_stands_nowhere(left, '#');
    it_stands_nowhere(right, '#');
    a_margin_is_trimmed(margin, raw);
    a_margin_is_trimmed(margin, Seq::empty());
    assert(margin + Seq::<char>::empty() =~= margin);
    assert(trim_both(Trim::Space, Seq::<char>::empty()) == Seq::<char>::empty());
}

/// White space before and behind is trimmed off.
proof fn a_margin_is_trimmed(margin: Seq<char>, s: Seq<char>)
    requires
        forall|i: int| #![trigger margin[i]] 0 <= i < margin.len() ==> white_space(margin[i]),
    ensures
        trim_both(Trim::Space, margin + s) == trim_both(Trim::Space, s),
        trim_both(Trim::Space, s + margin) == trim_both(Trim::Space, s),
{
    a_front_margin(margin, s);
    a_back_margin(s, margin);
}

proof fn a_front_margin(margin: Seq<char>, s: Seq<char>)
    requires
        forall|i: int| #![trigger margin[i]] 0 <= i < margin.len() ==> white_space(margin[i]),
    ensures
        trim_front(Trim::Space, margin + s) == trim_front(Trim::Space, s),
    decreases margin.len(),
{
    if margin.len() == 0 {
        assert(margin + s =~= s);
    } else {
        assert(white_space(margin[0]));
        let less = margin.skip(1);
        assert forall|i: int| #![trigger less[i]] 0 <= i < less.len() implies white_space(
            less[i],
        ) by {
            assert(less[i] == margin[i + 1]);
        }
        a_front_margin(less, s);
        assert((margin + s).skip(1) =~= less + s);
        assert((margin + s)[0] == margin[0]);
    }
}

/// Trimming a text at both ends does not see a margin behind it.
proof fn a_back_margin(s: Seq<char>, margin: Seq<char>)
    requires
        forall|i: int| #![trigger margin[i]] 0 <= i < margin.len() ==> white_space(margin[i]),
    ensures
        trim_both(Trim::Space, s + margin) == trim_both(Trim::Space, s),
    decreases s.len(),
{
    if s.len() > 0 && white_space(s[0]) {
        a_back_margin(s.skip(1), margin);
        assert((s + margin).skip(1) =~= s.skip(1) + margin);
        assert((s + margin)[0] == s[0]);
    } else if s.len() > 0 {
        assert((s + margin)[0] == s[0]);
        only_a_back_margin(s, margin);
    } else {
        a_front_margin(margin, s);
        assert(s + margin =~= margin + s);
    }
}

proof fn only_a_back_margin(s: Seq<char>, margin: Seq<char>)
    requires
        forall|i: int| #![trigger margin[i]] 0 <= i < margin.len() ==> white_space(margin[i]),
    ensures
        trim_back(Trim::Space, s + margin) == trim_back(Trim::Space, s),
    decreases margin.len(),
{
    if margin.len() == 0 {
        assert(s + margin =~= s);
    } else {
        let less = margin.drop_last();
        assert(white_space(margin[margin.len() - 1]));
        assert forall|i: int| #![trigger less[i]] 0 <= i < less.len() implies white_space(
            less[i],
        ) by {
            assert(less[i] == margin[i]);
        }
        only_a_back_margin(s, less);
        assert((s + margin).drop_last() =~= s + less);
        assert((s + margin).last() == margin.last());
    }
}

// -------------------------------------------------------------------------- options --

/// The names of the options are names, and all different.
proof fn option_names()
    ensures
        is_name("host"@),
        is_name("port"@),
        is_name("server_name"@),
        is_name("max_payload"@),
        is_name("max_pending"@),
        is_name("max_control_line"@),
        is_name("max_connections"@),
        is_name("ping_interval"@),
        is_name("write_deadline"@),
        is_name("debug"@),
        is_name("trace"@),
        "host"@.len() == 4,
        "port"@.len() == 4,
        "server_name"@.len() == 11,
        "max_payload"@.len() == 11,
        "max_pending"@.len() == 11,
        "max_control_line"@.len() == 16,
        "max_connections"@.len() == 15,
        "ping_interval"@.len() == 13,
        "write_deadline"@.len() == 14,
        "debug"@.len() == 5,
        "trace"@.len() == 5,
        "host"@[0] == 'h',
        "port"@[0] == 'p',
        "server_name"@[0] == 's',
        "max_payload"@[0] == 'm',
        "max_payload"@[5] == 'a',
        "max_pending"@[0] == 'm',
        "max_pending"@[5] == 'e',
        "debug"@[0] == 'd',
        "trace"@[0] == 't',
{
    reveal_strlit("host");
    reveal_strlit("port");
    reveal_strlit("server_name");
    reveal_strlit("max_payload");
    reveal_strlit("max_pending");
    reveal_strlit("max_control_line");
    reveal_strlit("max_connections");
    reveal_strlit("ping_interval");
    reveal_strlit("write_deadline");
    reveal_strlit("debug");
    reveal_strlit("trace");
}

/// The words for yes and no are words, and all different.
proof fn switch_words()
    ensures
        is_word("true"@),
        is_word("on"@),
        is_word("yes"@),
        is_word("false"@),
        is_word("off"@),
        is_word("no"@),
        "false"@ != "true"@ && "false"@ != "on"@ && "false"@ != "yes"@,
        "off"@ != "true"@ && "off"@ != "on"@ && "off"@ != "yes"@,
        "no"@ != "true"@ && "no"@ != "on"@ && "no"@ != "yes"@,
{
    reveal_strlit("true");
    reveal_strlit("on");
    reveal_strlit("yes");
    reveal_strlit("false");
    reveal_strlit("off");
    reveal_strlit("no");
    assert("no"@[0] == 'n' && "on"@[0] == 'o');
    assert("off"@[0] == 'o' && "yes"@[0] == 'y');
}

/// Is that what a config file gives, with those options and those warnings?
pub open spec fn gives(
    lines: Seq<Seq<char>>,
    cfg: ConfigView,
    warnings: Seq<Seq<char>>,
) -> bool {
    config_lines(lines) == Ok::<Parsed, ConfigErrorView>(Parsed { cfg, warnings })
}

proof fn one_more_line(before: Seq<Seq<char>>, p: Parsed, key: Seq<char>, value: Seq<char>)
    requires
        config_lines(before) == Ok::<Parsed, ConfigErrorView>(p),
        is_name(key),
        is_word(value),
    ensures
        config_lines(before.push(setting(key, value))) == config_set(p, key, seq![' '] + value),
        unquoted(seq![' '] + value) == value,
        !is_quoted(seq![' '] + value),
{
    let all = before.push(setting(key, value));
    assert(all.drop_last() =~= before);
    assert(value[value.len() - 1] == value.last());
    a_line_sets(p, key, value, all.len());
    a_word_is_bare(value);
}

/// `debug` and `trace` are on behind `true`, `on` and `yes`, and off behind `false`, `off` and
/// `no`, whatever the lines before said; nothing else changes. Any other word is no answer.
pub proof fn a_switch_is_set(
    before: Seq<Seq<char>>,
    cfg: ConfigView,
    warnings: Seq<Seq<char>>,
    other: Seq<char>,
)
    requires
        gives(before, cfg, warnings),
        is_word(other),
        other != "true"@ && other != "on"@ && other != "yes"@,
        other != "false"@ && other != "off"@ && other != "no"@,
    ensures
        ({
            let debug = |word: Seq<char>| before.push(setting("debug"@, word));
            let trace = |word: Seq<char>| before.push(setting("trace"@, word));
            let bad = Err::<Parsed, ConfigErrorView>(ConfigErrorView::ExpectedBoolean(other));
            &&& gives(debug("true"@), ConfigView { debug: true, ..cfg }, warnings)
            &&& gives(debug("on"@), ConfigView { debug: true, ..cfg }, warnings)
            &&& gives(debug("yes"@), ConfigView { debug: true, ..cfg }, warnings)
            &&& gives(debug("false"@), ConfigView { debug: false, ..cfg }, warnings)
            &&& gives(debug("off"@), ConfigView { debug: false, ..cfg }, warnings)
            &&& gives(debug("no"@), ConfigView { debug: false, ..cfg }, warnings)
            &&& config_lines(debug(other)) == bad
            &&& gives(trace("true"@), ConfigView { trace: true, ..cfg }, warnings)
            &&& gives(trace("on"@), ConfigView { trace: true, ..cfg }, warnings)
            &&& gives(trace("yes"@), ConfigView { trace: true, ..cfg }, warnings)
            &&& gives(trace("false"@), ConfigView { trace: false, ..cfg }, warnings)
            &&& gives(trace("off"@), ConfigView { trace: false, ..cfg }, warnings)
            &&& gives(trace("no"@), ConfigView { trace: false, ..cfg }, warnings)
            &&& config_lines(trace(other)) == bad
        }),
{
    option_names();
    switch_words();
    let p = Parsed { cfg, warnings };
    one_switch_line(before, p, "true"@);
    one_switch_line(before, p, "on"@);
    one_switch_line(before, p, "yes"@);
    one_switch_line(before, p, "false"@);
    one_switch_line(before, p, "off"@);
    one_switch_line(before, p, "no"@);
    one_switch_line(before, p, other);
}

proof fn one_switch_line(before: Seq<Seq<char>>, p: Parsed, word: Seq<char>)
    requires
        config_lines(before) == Ok::<Parsed, ConfigErrorView>(p),
        is_word(word),
    ensures
        ({
            let said = config_bool(seq![' '] + word);
            &&& unquoted(seq![' '] + word) == word
            &&& config_lines(before.push(setting("debug"@, word))) == match said {
                Some(b) => Ok(Parsed { cfg: ConfigView { debug: b, ..p.cfg }, ..p }),
                None => Err(ConfigErrorView::ExpectedBoolean(word)),
            }
            &&& config_lines(before.push(setting("trace"@, word))) == match said {
                Some(b) => Ok(Parsed { cfg: ConfigView { trace: b, ..p.cfg }, ..p }),
                None => Err(ConfigErrorView::ExpectedBoolean(word)),
            }
        }),
{
    option_names();
    one_more_line(before, p, "debug"@, word);
    one_more_line(before, p, "trace"@, word);
}

/// A number in decimal is a word, and reads as that number.
pub(crate) proof fn a_numeral(n: nat)
    ensures
        is_name(decimal_chars(n)),
        forall|i: int|
            0 <= i < decimal_chars(n).len() ==> 0x30 <= #[trigger] decimal_chars(n)[i] as u32
                && decimal_chars(n)[i] as u32 <= 0x39,
        digits_value(decimal_chars(n), 10) == Some(n),
        n <= i64::MAX ==> integer_value(decimal_chars(n), 10) == Some(n as int),
        n > i64::MAX ==> integer_value(decimal_chars(n), 10) is None,
{
    let d = decimal(n);
    let s = decimal_chars(n);
    decimal_round_trip(n);
    a_decimal_is_a_number(n);
    assert forall|i: int| 0 <= i < s.len() implies 0x30 <= #[trigger] s[i] as u32 && s[i] as u32
        <= 0x39 by {
        assert(is_digit(d[i]));
        assert(s[i] == d[i] as char);
    }
    assert(s[0] as u32 >= 0x30);
}

/// What a config file reads as an integer, behind a minus sign too.
proof fn a_numeral_is_an_integer(n: nat)
    ensures
        config_integer(seq![' '] + decimal_chars(n)) == if n <= i64::MAX {
            Some(n as int)
        } else {
            None::<int>
        },
        config_integer(seq![' ', '-'] + decimal_chars(n)) == if n <= i64::MAX + 1 {
            Some(-n)
        } else {
            None::<int>
        },
        is_word(seq!['-'] + decimal_chars(n)),
{
    let s = decimal_chars(n);
    a_numeral(n);
    a_word_is_bare(s);
    reveal_strlit("0x");
    reveal_strlit("0X");
    assert(!"0x"@.is_prefix_of(s)) by {
        if "0x"@.is_prefix_of(s) {
            assert(s[1] as u32 <= 0x39);
            assert("0x"@[1] == s.subrange(0, 2)[1]);
        }
    }
    assert(!"0X"@.is_prefix_of(s)) by {
        if "0X"@.is_prefix_of(s) {
            assert(s[1] as u32 <= 0x39);
            assert("0X"@[1] == s.subrange(0, 2)[1]);
        }
    }
    let m = seq!['-'] + s;
    assert forall|i: int| #![trigger m[i]] 0 <= i < m.len() implies !white_space(m[i]) && m[i]
        != '#' && m[i] != ',' && m[i] != '"' && m[i] != '\'' by {
        if i > 0 {
            assert(m[i] == s[i - 1]);
        }
    }
    a_word_is_bare(m);
    assert(seq![' '] + m =~= seq![' ', '-'] + s);
    assert(m[0] == '-');
    assert(!"0x"@.is_prefix_of(m)) by {
        if "0x"@.is_prefix_of(m) {
            assert("0x"@[0] == m.subrange(0, 2)[0]);
        }
    }
    assert(!"0X"@.is_prefix_of(m)) by {
        if "0X"@.is_prefix_of(m) {
            assert("0X"@[0] == m.subrange(0, 2)[0]);
        }
    }
    assert(m.skip(1) =~= s);
}

/// An option that is a number gets the number that is written for it, and nothing else changes.
pub proof fn a_number_is_set(
    before: Seq<Seq<char>>,
    cfg: ConfigView,
    warnings: Seq<Seq<char>>,
    n: nat,
)
    requires
        gives(before, cfg, warnings),
        n <= i64::MAX,
    ensures
        ({
            let line = |key: Seq<char>| before.push(setting(key, decimal_chars(n)));
            let minus = |key: Seq<char>| before.push(setting(key, seq!['-'] + decimal_chars(n)));
            &&& n <= i32::MAX ==> {
                &&& gives(line("port"@), ConfigView { port: n as i32, ..cfg }, warnings)
                &&& gives(minus("port"@), ConfigView { port: (-n) as i32, ..cfg }, warnings)
            }
            &&& gives(line("max_payload"@), ConfigView { max_payload: n as u64, ..cfg }, warnings)
            &&& gives(line("max_pending"@), ConfigView { max_pending: n as u64, ..cfg }, warnings)
            &&& n <= usize::MAX ==> gives(
                line("max_control_line"@),
                ConfigView { max_control_line: n as usize, ..cfg },
                warnings,
            )
            &&& gives(
                line("max_connections"@),
                ConfigView { max_connections: n as i64, ..cfg },
                warnings,
            )
            &&& gives(
                minus("max_connections"@),
                ConfigView { max_connections: (-n) as i64, ..cfg },
                warnings,
            )
        }),
{
    let p = Parsed { cfg, warnings };
    let (s, m) = (decimal_chars(n), seq!['-'] + decimal_chars(n));
    option_names();
    a_numeral(n);
    a_numeral_is_an_integer(n);
    assert(seq![' '] + m =~= seq![' ', '-'] + s);
    one_more_line(before, p, "port"@, s);
    one_more_line(before, p, "port"@, m);
    one_more_line(before, p, "max_payload"@, s);
    one_more_line(before, p, "max_pending"@, s);
    one_more_line(before, p, "max_control_line"@, s);
    one_more_line(before, p, "max_connections"@, s);
    one_more_line(before, p, "max_connections"@, m);
}

/// Is that the name of an option that is a number?
pub open spec fn is_numeric(key: Seq<char>) -> bool {
    ||| key == "port"@
    ||| key == "max_payload"@
    ||| key == "max_pending"@
    ||| key == "max_control_line"@
    ||| key == "max_connections"@
}

/// A word that is no integer is refused where one is expected: one that does not begin with a
/// digit or a sign, for one, and a number that 64 bits do not hold.
pub proof fn a_number_is_expected(
    before: Seq<Seq<char>>,
    cfg: ConfigView,
    warnings: Seq<Seq<char>>,
    key: Seq<char>,
    word: Seq<char>,
    large: nat,
)
    requires
        gives(before, cfg, warnings),
        is_numeric(key),
        is_word(word),
        word[0] != '+' && word[0] != '-',
        !(0x30 <= word[0] as u32 <= 0x39),
        large > i64::MAX,
    ensures
        config_lines(before.push(setting(key, word))) == Err::<Parsed, ConfigErrorView>(
            ConfigErrorView::ExpectedInteger(word),
        ),
        config_lines(before.push(setting(key, decimal_chars(large)))) == Err::<
            Parsed,
            ConfigErrorView,
        >(ConfigErrorView::ExpectedInteger(decimal_chars(large))),
{
    let p = Parsed { cfg, warnings };
    option_names();
    a_numeral(large);
    a_numeral_is_an_integer(large);
    one_more_line(before, p, key, word);
    one_more_line(before, p, key, decimal_chars(large));
    reveal_strlit("0x");
    reveal_strlit("0X");
    assert(!"0x"@.is_prefix_of(word) && !"0X"@.is_prefix_of(word)) by {
        if "0x"@.is_prefix_of(word) {
            assert("0x"@[0] == word.subrange(0, 2)[0]);
        }
        if "0X"@.is_prefix_of(word) {
            assert("0X"@[0] == word.subrange(0, 2)[0]);
        }
    }
    no_digit_in_front(word);
}

/// What begins with no digit is no number.
pub(crate) proof fn no_digit_in_front(word: Seq<char>)
    requires
        word.len() > 0,
        !(0x30 <= word[0] as u32 <= 0x39),
    ensures
        digits_value(word, 10) is None,
    decreases word.len(),
{
    if word.len() > 1 {
        assert(word.drop_last()[0] == word[0]);
        no_digit_in_front(word.drop_last());
    }
}

/// The host and the server's name are the text that is written for them, in quotation marks or
/// not, and nothing else changes.
pub proof fn a_text_is_set(
    before: Seq<Seq<char>>,
    cfg: ConfigView,
    warnings: Seq<Seq<char>>,
    word: Seq<char>,
)
    requires
        gives(before, cfg, warnings),
        is_word(word),
    ensures
        ({
            let marked = seq!['"'] + word + seq!['"'];
            let (host, name) = (
                ConfigView { host: word, ..cfg },
                ConfigView { server_name: Some(word), ..cfg },
            );
            &&& gives(before.push(setting("host"@, word)), host, warnings)
            &&& gives(before.push(setting("host"@, marked)), host, warnings)
            &&& gives(before.push(setting("server_name"@, word)), name, warnings)
            &&& gives(before.push(setting("server_name"@, marked)), name, warnings)
        }),
{
    let p = Parsed { cfg, warnings };
    let marked = seq!['"'] + word + seq!['"'];
    option_names();
    one_more_line(before, p, "host"@, word);
    one_more_line(before, p, "server_name"@, word);
    a_word_is_bare(word);
    assert(seq![' '] + marked =~= seq![' ', '"'] + word + seq!['"']);
    assert forall|i: int| 0 <= i < marked.len() implies #[trigger] marked[i] != '#' by {
        if 0 < i <= word.len() {
            assert(marked[i] == word[i - 1]);
        }
    }
    assert(marked.last() == '"');
    let (a, b) = (
        before.push(setting("host"@, marked)),
        before.push(setting("server_name"@, marked)),
    );
    assert(a.drop_last() =~= before && b.drop_last() =~= before);
    a_line_sets(p, "host"@, marked, a.len());
    a_line_sets(p, "server_name"@, marked, b.len());
}

/// A name in quotation marks is that name, and a comma behind a value is not part of it.
pub proof fn marks_and_commas_are_nothing(
    p: Parsed,
    key: Seq<char>,
    value: Seq<char>,
    number: nat,
)
    requires
        is_name(key),
        is_word(value),
    ensures
        config_line(p, setting(seq!['"'] + key + seq!['"'], value), number) == config_line(
            p,
            setting(key, value),
            number,
        ),
        unquoted(seq![' '] + value + seq![',']) == unquoted(seq![' '] + value),
{
    let marked = seq!['"'] + key + seq!['"'];
    let raw = setting(marked, value);
    a_line_sets(p, key, value, number);
    assert forall|i: int| 0 <= i < marked.len() implies #[trigger] marked[i] != ':' && marked[i]
        != '#' by {
        if 0 < i <= key.len() {
            assert(marked[i] == key[i - 1]);
        }
    }
    assert forall|i: int| 0 <= i < raw.len() implies #[trigger] raw[i] != '#' by {
        if i < marked.len() {
            assert(raw[i] == marked[i]);
        } else if i >= marked.len() + 2 {
            assert(raw[i] == value[i - marked.len() - 2]);
        }
    }
    it_stands_nowhere(raw, '#');
    assert(raw[0] == '"');
    assert(raw.last() == value[value.len() - 1]);
    nothing_is_trimmed(Trim::Space, raw);
    it_stands_first(marked, ':', seq![' '] + value);
    assert(raw =~= marked + seq![':'] + (seq![' '] + value));
    assert(raw.take(marked.len() as int) =~= marked);
    assert(raw.skip(marked.len() as int + 1) =~= seq![' '] + value);
    assert(marked.last() == '"' && marked[0] == '"');
    nothing_is_trimmed(Trim::Space, marked);
    let tail = key + seq!['"'];
    assert(marked.skip(1) =~= tail);
    assert(tail[0] == key[0]);
    assert(trim_front(Trim::Double, marked) == trim_front(Trim::Double, tail));
    assert(tail.drop_last() =~= key);
    assert(key[key.len() - 1] == key.last());
    nothing_is_trimmed(Trim::Double, key);
    assert(trim_back(Trim::Double, tail) == trim_back(Trim::Double, key));
    a_word_is_bare(value);
    let v = value + seq![','];
    let w = seq![' '] + value + seq![','];
    assert(w.skip(1) =~= v);
    assert(w[0] == ' ' && v[0] == value[0] && v.last() == ',');
    assert(trim_front(Trim::Space, w) == trim_front(Trim::Space, v));
    nothing_is_trimmed(Trim::Space, v);
    assert(v.drop_last() =~= value);
    assert(value[value.len() - 1] == value.last());
    nothing_is_trimmed(Trim::Comma, value);
    assert(trim_back(Trim::Comma, v) == trim_back(Trim::Comma, value));
    nothing_is_trimmed(Trim::Space, value);
    nothing_is_trimmed(Trim::Quotes, value);
}

/// A number in hexadecimal, as characters.
pub open spec fn hex_chars(n: nat) -> Seq<char>
    decreases n,
{
    let digit = n % 16;
    let last = if digit < 10 {
        (0x30 + digit) as char
    } else {
        (0x61 + (digit - 10)) as char
    };
    if n < 16 {
        seq![last]
    } else {
        hex_chars(n / 16).push(last)
    }
}

proof fn hex_is_read_back(n: nat)
    ensures
        digits_value(hex_chars(n), 16) == Some(n),
        hex_chars(n).len() > 0,
        forall|i: int|
            0 <= i < hex_chars(n).len() ==> {
                let c = #[trigger] hex_chars(n)[i] as u32;
                0x30 <= c <= 0x39 || 0x61 <= c <= 0x66
            },
    decreases n,
{
    let digit = n % 16;
    let s = hex_chars(n);
    let c = s.last();
    assert(digit < 10 ==> c as u32 == 0x30 + digit);
    assert(digit >= 10 ==> c as u32 == 0x61 + digit - 10);
    if n < 16 {
        assert(s.drop_last() =~= Seq::<char>::empty());
        assert(digits_value(Seq::<char>::empty(), 16) == Some(0nat));
        assert(0 * 16 + n == n);
    } else {
        hex_is_read_back(n / 16);
        assert(s.drop_last() =~= hex_chars(n / 16));
        assert((n / 16) * 16 + digit == n);
    }
}

/// Behind `0x` a number is hexadecimal; a plus sign in front of a number changes nothing.
pub proof fn other_ways_to_write_a_number(n: nat)
    requires
        n <= i64::MAX,
    ensures
        config_integer(seq![' ', '0', 'x'] + hex_chars(n)) == Some(n as int),
        config_integer(seq![' ', '0', 'X'] + hex_chars(n)) == Some(n as int),
        integer_value(seq!['+'] + decimal_chars(n), 10) == Some(n as int),
        number_value(seq!['+'] + decimal_chars(n), n) == Some(n),
        number_value(decimal_chars(n), n) == Some(n),
        n > 0 ==> number_value(decimal_chars(n), (n - 1) as nat) is None,
{
    a_hex_number(n, 'x');
    a_hex_number(n, 'X');
    a_numeral(n);
    let plus = seq!['+'] + decimal_chars(n);
    assert(plus.skip(1) =~= decimal_chars(n));
    assert(decimal_chars(n)[0] as u32 >= 0x30);
}

proof fn a_hex_number(n: nat, x: char)
    requires
        n <= i64::MAX,
        x == 'x' || x == 'X',
    ensures
        config_integer(seq![' ', '0', x] + hex_chars(n)) == Some(n as int),
{
    let h = hex_chars(n);
    let v = seq!['0', x] + h;
    hex_is_read_back(n);
    assert forall|i: int| #![trigger v[i]] 0 <= i < v.len() implies !white_space(v[i]) && v[i]
        != '#' && v[i] != ',' && v[i] != '"' && v[i] != '\'' by {
        if i >= 2 {
            assert(v[i] == h[i - 2]);
        }
    }
    a_word_is_bare(v);
    assert(seq![' '] + v =~= seq![' ', '0', x] + h);
    reveal_strlit("0x");
    reveal_strlit("0X");
    if x == 'x' {
        assert("0x"@ =~= v.subrange(0, 2));
    } else {
        assert("0X"@ =~= v.subrange(0, 2));
    }
    assert(v.skip(2) =~= h);
    assert(h[0] as u32 >= 0x30);
}

/// A line that is no setting is refused by its number, and what follows makes no difference; an
/// empty one is passed over.
pub proof fn a_line_without_a_colon_is_refused(
    before: Seq<Seq<char>>,
    cfg: ConfigView,
    warnings: Seq<Seq<char>>,
    name: Seq<char>,
)
    requires
        gives(before, cfg, warnings),
        is_name(name),
        before.len() < u64::MAX,
    ensures
        config_lines(before.push(name)) == Err::<Parsed, ConfigErrorView>(
            ConfigErrorView::ExpectedKey((before.len() + 1) as u64),
        ),
        gives(before.push(Seq::empty()), cfg, warnings),
{
    assert(before.push(name).drop_last() =~= before);
    assert(before.push(Seq::empty()).drop_last() =~= before);
    it_stands_nowhere(name, '#');
    it_stands_nowhere(name, ':');
    assert(name[name.len() - 1] == name.last());
    nothing_is_trimmed(Trim::Space, name);
    it_stands_nowhere(Seq::empty(), '#');
}

// ------------------------------------------------------------------------ durations --

/// Is that a unit of time, and how many nanoseconds is it?
pub open spec fn is_unit(unit: Seq<char>, nanos: nat) -> bool {
    ||| unit == "ns"@ && nanos == 1
    ||| unit == "us"@ && nanos == 1_000
    ||| unit == "\u{00b5}s"@ && nanos == 1_000
    ||| unit == "ms"@ && nanos == 1_000_000
    ||| unit == "s"@ && nanos == 1_000_000_000
    ||| unit == "m"@ && nanos == 60 * 1_000_000_000
    ||| unit == "h"@ && nanos == 60 * 60 * 1_000_000_000
}

proof fn a_unit_is_known(unit: Seq<char>, nanos: nat)
    requires
        is_unit(unit, nanos),
    ensures
        unit_nanos(unit) == Some(nanos),
        is_name(unit),
        forall|i: int| 0 <= i < unit.len() ==> !numeral_char(#[trigger] unit[i]),
{
    reveal_strlit("ns");
    reveal_strlit("us");
    reveal_strlit("\u{00b5}s");
    reveal_strlit("ms");
    reveal_strlit("s");
    reveal_strlit("m");
    reveal_strlit("h");
    reveal_strlit("");
    assert(unit.len() == 2 ==> unit[0] == 'n' || unit[0] == 'u' || unit[0] == '\u{00b5}' || unit[0]
        == 'm');
    assert(unit.len() == 1 ==> unit[0] == 's' || unit[0] == 'm' || unit[0] == 'h');
    assert("ns"@[0] == 'n' && "us"@[0] == 'u' && "\u{00b5}s"@[0] == '\u{00b5}' && "ms"@[0] == 'm');
    assert("s"@[0] == 's' && "m"@[0] == 'm' && "h"@[0] == 'h');
}

/// Where a number and its unit end, and what stands behind them begins.
proof fn a_term_splits(number: Seq<char>, unit: Seq<char>, rest: Seq<char>)
    requires
        number.len() > 0,
        forall|i: int| 0 <= i < number.len() ==> numeral_char(#[trigger] number[i]),
        unit.len() > 0,
        forall|i: int| 0 <= i < unit.len() ==> !numeral_char(#[trigger] unit[i]),
        rest.len() > 0 ==> numeral_char(rest[0]),
    ensures
        ({
            let s = number + unit + rest;
            let (n, u) = (number.len(), unit.len());
            &&& numeral_len(s, true) == n
            &&& numeral_len(s.skip(n as int), false) == u
            &&& s.take(n as int) == number
            &&& s.subrange(n as int, (n + u) as int) == unit
            &&& s.skip((n + u) as int) == rest
        }),
{
    let s = number + unit + rest;
    let n = number.len() as int;
    let u = unit.len() as int;
    assert forall|i: int| 0 <= i < n implies numeral_char(#[trigger] s[i]) == true by {
        assert(s[i] == number[i]);
    }
    assert(s[n] == unit[0]);
    numeral_len_is(s, true, number.len());
    let t = s.skip(n);
    assert(t =~= unit + rest);
    assert forall|i: int| 0 <= i < u implies numeral_char(#[trigger] t[i]) == false by {
        assert(t[i] == unit[i]);
    }
    if rest.len() > 0 {
        assert(t[u] == rest[0]);
    }
    numeral_len_is(t, false, unit.len());
    assert(s.take(n) =~= number);
    assert(s.subrange(n, n + u) =~= unit);
    assert(s.skip(n + u) =~= rest);
}

/// A number with a unit is so many of that unit, and what follows is added to it: `1h30m` is one
/// hour and thirty minutes.
pub proof fn durations_add_up(n: nat, unit: Seq<char>, nanos: nat, rest: Seq<char>)
    requires
        is_unit(unit, nanos),
        rest.len() > 0 ==> numeral_char(rest[0]),
    ensures
        terms_nanos(decimal_chars(n) + unit + rest) == match terms_nanos(rest) {
            Some(more) => Some(n * nanos + more),
            None => None::<nat>,
        },
        terms_nanos(Seq::empty()) == Some(0nat),
{
    let number = decimal_chars(n);
    a_numeral(n);
    a_unit_is_known(unit, nanos);
    assert forall|i: int| 0 <= i < number.len() implies numeral_char(#[trigger] number[i]) by {}
    a_term_splits(number, unit, rest);
    assert forall|i: int| 0 <= i < number.len() implies #[trigger] number[i] != '.' by {
        assert(number[i] as u32 >= 0x30);
    }
    it_stands_nowhere(number, '.');
    let none = Seq::<char>::empty();
    assert(digits_value(none, 10) == Some(0nat));
    assert(vstd::arithmetic::power::pow(10, 0) == 1) by {
        reveal(vstd::arithmetic::power::pow);
    }
    assert(term_nanos(number, nanos) == Some(n * nanos)) by {
        assert(0 * nanos == 0) by (nonlinear_arith);
    }
}

/// A number may have a fraction, and then it is as many whole nanoseconds as that comes to:
/// `1.5s` is a second and a half.
pub proof fn a_fraction_counts(
    n: nat,
    fraction: Seq<char>,
    parts: nat,
    unit: Seq<char>,
    nanos: nat,
)
    requires
        is_unit(unit, nanos),
        fraction.len() > 0,
        digits_value(fraction, 10) == Some(parts),
        forall|i: int| 0 <= i < fraction.len() ==> numeral_char(#[trigger] fraction[i]),
    ensures
        terms_nanos(decimal_chars(n) + seq!['.'] + fraction + unit) == Some(
            n * nanos + (parts * nanos) / (vstd::arithmetic::power::pow(10, fraction.len()) as nat),
        ),
{
    let whole = decimal_chars(n);
    let number = whole + seq!['.'] + fraction;
    a_numeral(n);
    a_unit_is_known(unit, nanos);
    assert forall|i: int| 0 <= i < number.len() implies numeral_char(#[trigger] number[i]) by {
        if i < whole.len() {
            assert(number[i] == whole[i]);
        } else if i > whole.len() {
            assert(number[i] == fraction[i - whole.len() - 1]);
        }
    }
    assert forall|i: int| 0 <= i < whole.len() implies #[trigger] whole[i] != '.' by {
        assert(whole[i] as u32 >= 0x30);
    }
    it_stands_first(whole, '.', fraction);
    assert(number.take(whole.len() as int) =~= whole);
    assert(number.skip(whole.len() as int + 1) =~= fraction);
    let none = Seq::<char>::empty();
    a_term_splits(number, unit, none);
    assert(number + unit + none =~= whole + seq!['.'] + fraction + unit);
    assert(terms_nanos(none) == Some(0nat));
}

/// A unit that there is not, a number that is none, and a unit without a number are no length of
/// time.
pub proof fn what_is_no_duration(n: nat, unit: Seq<char>, word: Seq<char>)
    requires
        unit.len() > 0,
        forall|i: int| 0 <= i < unit.len() ==> !numeral_char(#[trigger] unit[i]),
        forall|nanos: nat| !#[trigger] is_unit(unit, nanos),
        word.len() > 0,
        !numeral_char(word[0]),
    ensures
        terms_nanos(decimal_chars(n) + unit) is None,
        terms_nanos(seq!['.'] + unit) is None,
        terms_nanos(word) is None,
{
    let number = decimal_chars(n);
    let none = Seq::<char>::empty();
    a_numeral(n);
    assert forall|i: int| 0 <= i < number.len() implies numeral_char(#[trigger] number[i]) by {}
    a_term_splits(number, unit, none);
    assert(number + unit + none =~= number + unit);
    assert(unit_nanos(unit) is None) by {
        reveal_strlit("");
        assert(!is_unit(unit, 1) && !is_unit(unit, 1_000) && !is_unit(unit, 1_000_000));
        assert(!is_unit(unit, 1_000_000_000) && !is_unit(unit, 60 * 1_000_000_000));
        assert(!is_unit(unit, 60 * 60 * 1_000_000_000));
    }
    let dot = seq!['.'];
    a_term_splits(dot, unit, none);
    assert(dot + unit + none =~= dot + unit);
}

/// A text that says how long is that long; a plus sign changes nothing, a minus sign is
/// refused, and so is what is longer than the longest.
pub proof fn a_duration_is_what_it_says(terms: Seq<char>, total: nat)
    requires
        terms.len() > 0,
        terms[0] != '+' && terms[0] != '-',
        terms_nanos(terms) == Some(total),
    ensures
        duration_of(terms) == if total <= i64::MAX {
            Some(total)
        } else {
            None::<nat>
        },
        duration_of(seq!['+'] + terms) == duration_of(terms),
        duration_of(seq!['-'] + terms) is None,
        duration_of(Seq::empty()) is None,
{
    assert((seq!['+'] + terms).skip(1) =~= terms);
}

/// Did a config file give the interval that length, and leave everything else?
pub open spec fn gives_interval(
    lines: Seq<Seq<char>>,
    cfg: ConfigView,
    warnings: Seq<Seq<char>>,
    total: nat,
) -> bool {
    &&& config_lines(lines) matches Ok(p)
    &&& p.warnings == warnings
    &&& p.cfg.ping_interval.wf()
    &&& p.cfg.ping_interval.total() == total
    &&& p.cfg == (ConfigView { ping_interval: p.cfg.ping_interval, ..cfg })
}

/// Did a config file give the deadline that length, and leave everything else?
pub open spec fn gives_deadline(
    lines: Seq<Seq<char>>,
    cfg: ConfigView,
    warnings: Seq<Seq<char>>,
    total: nat,
) -> bool {
    &&& config_lines(lines) matches Ok(p)
    &&& p.warnings == warnings
    &&& p.cfg.write_deadline.wf()
    &&& p.cfg.write_deadline.total() == total
    &&& p.cfg == (ConfigView { write_deadline: p.cfg.write_deadline, ..cfg })
}

/// The interval between two probes and the time that a write may take are as long as is written:
/// so many of a unit, without a word; or so many seconds, with a warning that names the option.
pub proof fn a_duration_is_set(
    before: Seq<Seq<char>>,
    cfg: ConfigView,
    warnings: Seq<Seq<char>>,
    n: nat,
    unit: Seq<char>,
    nanos: nat,
)
    requires
        gives(before, cfg, warnings),
        is_unit(unit, nanos),
        n * nanos <= i64::MAX,
        n <= i64::MAX,
    ensures
        ({
            let (length, plain) = (decimal_chars(n) + unit, decimal_chars(n));
            let (ping, write) = ("ping_interval"@, "write_deadline"@);
            let advice = " should be converted to a duration"@;
            &&& gives_interval(before.push(setting(ping, length)), cfg, warnings, n * nanos)
            &&& gives_deadline(before.push(setting(write, length)), cfg, warnings, n * nanos)
            &&& gives_interval(
                before.push(setting(ping, plain)),
                cfg,
                warnings.push(ping + advice),
                n * 1_000_000_000,
            )
            &&& gives_deadline(
                before.push(setting(write, plain)),
                cfg,
                warnings.push(write + advice),
                n * 1_000_000_000,
            )
        }),
{
    let p = Parsed { cfg, warnings };
    let plain = decimal_chars(n);
    let length = plain + unit;
    let (ping, write) = ("ping_interval"@, "write_deadline"@);
    let none = Seq::<char>::empty();
    option_names();
    a_numeral(n);
    a_unit_is_known(unit, nanos);
    assert(is_word(length)) by {
        assert forall|i: int| #![trigger length[i]] 0 <= i < length.len() implies !white_space(
            length[i],
        ) && length[i] != '#' && length[i] != ',' && length[i] != '"' && length[i] != '\'' by {
            if i < plain.len() {
                assert(length[i] == plain[i]);
            } else {
                assert(length[i] == unit[i - plain.len()]);
            }
        }
    }
    durations_add_up(n, unit, nanos, none);
    assert(length + none =~= length);
    assert(length[0] == plain[0] && plain[0] as u32 >= 0x30);
    a_duration_is_what_it_says(length, n * nanos);
    assert(integer_value(length, 10) is None) by {
        let last = length.last();
        assert(last == unit[unit.len() - 1]);
        assert(!numeral_char(unit[unit.len() - 1]));
        assert(!(0x30 <= last as u32 <= 0x39));
    }
    one_more_line(before, p, ping, length);
    one_more_line(before, p, write, length);
    one_more_line(before, p, ping, plain);
    one_more_line(before, p, write, plain);
    a_span_is_its_nanos(n * nanos);
    a_span_is_its_nanos((n * 1_000_000_000) as nat);
    assert((n as int as i64) as u64 * NANOS == n * 1_000_000_000);
}

proof fn a_span_is_its_nanos(total: nat)
    requires
        total / 1_000_000_000 <= u64::MAX,
    ensures
        span_of(total).wf(),
        span_of(total).total() == total,
{
}

/// What is no length of time is refused, by the name of the option.
pub proof fn a_duration_is_expected(
    before: Seq<Seq<char>>,
    cfg: ConfigView,
    warnings: Seq<Seq<char>>,
    key: Seq<char>,
    word: Seq<char>,
)
    requires
        gives(before, cfg, warnings),
        key == "ping_interval"@ || key == "write_deadline"@,
        is_word(word),
        word[0] != '+' && word[0] != '-',
        !numeral_char(word[0]),
    ensures
        config_lines(before.push(setting(key, word))) == Err::<Parsed, ConfigErrorView>(
            ConfigErrorView::InvalidDuration(key, word),
        ),
{
    let p = Parsed { cfg, warnings };
    option_names();
    one_more_line(before, p, key, word);
    no_digit_in_front(word);
}

// ----------------------------------------------------------------------------- flags --

/// Is that a name of the flag?
pub open spec fn is_called(flag: Flag, name: Seq<char>) -> bool {
    match flag {
        Flag::Host => name == "-a"@ || name == "--addr"@ || name == "--net"@,
        Flag::Port => name == "-p"@ || name == "--port"@,
        Flag::Name => name == "-n"@ || name == "--name"@ || name == "--server_name"@,
        Flag::ConfigFile => name == "-c"@ || name == "--config"@,
        Flag::PortsFileDir => name == "--ports_file_dir"@,
        Flag::TestConfig => name == "-t"@,
        Flag::Version => name == "-v"@ || name == "--version"@,
        Flag::Help => name == "-h"@ || name == "--help"@,
        Flag::Debug => name == "-D"@ || name == "--debug"@,
        Flag::Trace => name == "-V"@ || name == "--trace"@,
        Flag::Unknown => false,
    }
}

proof fn a_flag_is_known(flag: Flag, name: Seq<char>)
    requires
        is_called(flag, name),
    ensures
        flag_of(name) == flag,
        name.len() >= 2,
        name[0] == '-',
        forall|i: int| 0 <= i < name.len() ==> #[trigger] name[i] != '=',
        name.len() > 2 ==> "--"@.is_prefix_of(name),
        "-"@.len() == 1,
{
    reveal_strlit("-a");
    reveal_strlit("--addr");
    reveal_strlit("--net");
    reveal_strlit("-p");
    reveal_strlit("--port");
    reveal_strlit("-n");
    reveal_strlit("--name");
    reveal_strlit("--server_name");
    reveal_strlit("-c");
    reveal_strlit("--config");
    reveal_strlit("--ports_file_dir");
    reveal_strlit("-t");
    reveal_strlit("-v");
    reveal_strlit("--version");
    reveal_strlit("-h");
    reveal_strlit("--help");
    reveal_strlit("-D");
    reveal_strlit("--debug");
    reveal_strlit("-V");
    reveal_strlit("--trace");
    reveal_strlit("--");
    reveal_strlit("-");
    assert(name.len() == 2 ==> name[1] == 'a' || name[1] == 'p' || name[1] == 'n' || name[1] == 'c'
        || name[1] == 't' || name[1] == 'v' || name[1] == 'h' || name[1] == 'D' || name[1] == 'V');
    assert("-a"@[1] == 'a' && "-p"@[1] == 'p' && "-n"@[1] == 'n' && "-c"@[1] == 'c' && "-t"@[1]
        == 't' && "-v"@[1] == 'v' && "-h"@[1] == 'h' && "-D"@[1] == 'D' && "-V"@[1] == 'V');
    assert("--addr"@[2] == 'a' && "--port"@[2] == 'p' && "--name"@[2] == 'n' && "--help"@[2] == 'h');
    assert("--debug"@[2] == 'd' && "--trace"@[2] == 't');
    assert("--config"@.len() == 8 && "--version"@.len() == 9 && "--net"@.len() == 5);
    assert("--server_name"@.len() == 13 && "--ports_file_dir"@.len() == 16);
    if name.len() > 2 {
        assert("--"@ =~= name.subrange(0, 2));
    }
}

/// What the flag says with that value.
pub open spec fn says(flag: Flag, value: Seq<char>, was: ArgsView, now: ArgsView) -> bool {
    match flag {
        Flag::Host => now == (ArgsView { host: Some(value), ..was }),
        Flag::Name => now == (ArgsView { server_name: Some(value), ..was }),
        Flag::ConfigFile => now == (ArgsView { config_file: Some(value), ..was }),
        Flag::PortsFileDir => now == (ArgsView { ports_file_dir: Some(value), ..was }),
        _ => false,
    }
}

/// A flag that takes a text has the argument behind it, or, under a long name, what stands
/// behind the equals sign; it changes nothing else that the command line says. The last one
/// wins. Without a value it is refused by its name.
pub proof fn a_flag_has_its_value(
    argv: Seq<Seq<char>>,
    at: int,
    args: ArgsView,
    now: ArgsView,
    flag: Flag,
    name: Seq<char>,
    value: Seq<char>,
)
    requires
        0 <= at < argv.len(),
        is_called(flag, name),
        says(flag, value, args, now),
    ensures
        argv[at] == name && at + 1 < argv.len() && argv[at + 1] == value ==> args_from(
            argv,
            at,
            args,
        ) == args_from(argv, at + 2, now),
        argv[at] == name + seq!['='] + value && name.len() > 2 ==> args_from(argv, at, args)
            == args_from(argv, at + 1, now),
        argv[at] == name && at + 1 == argv.len() ==> args_from(argv, at, args) == Err::<
            ArgsView,
            ArgsErrorView,
        >(ArgsErrorView::NeedsArgument(name)),
{
    a_flag_is_known(flag, name);
    it_stands_nowhere(name, '=');
    it_stands_first(name, '=', value);
    let inline = name + seq!['='] + value;
    assert(inline.take(name.len() as int) =~= name);
    assert(inline.skip(name.len() as int + 1) =~= value);
    assert(inline[0] == name[0]);
    assert(inline.len() > 1);
}

/// The port is the number that is given for it, with its sign. What is no number that 32 bits
/// hold is refused with the words that were given.
pub proof fn the_port_is_the_number(
    argv: Seq<Seq<char>>,
    at: int,
    args: ArgsView,
    name: Seq<char>,
    n: nat,
    word: Seq<char>,
)
    requires
        0 <= at,
        at + 1 < argv.len(),
        name == "-p"@ || name == "--port"@,
        argv[at] == name,
        word.len() > 0 ==> word[0] != '+' && word[0] != '-' && !(0x30 <= word[0] as u32 <= 0x39),
    ensures
        argv[at + 1] == decimal_chars(n) ==> args_from(argv, at, args) == if n <= i32::MAX {
            args_from(argv, at + 2, ArgsView { port: Some(n as i32), ..args })
        } else {
            Err(ArgsErrorView::InvalidPort(argv[at + 1]))
        },
        argv[at + 1] == seq!['-'] + decimal_chars(n) ==> args_from(argv, at, args) == if n
            <= i32::MAX + 1 {
            args_from(argv, at + 2, ArgsView { port: Some((-n) as i32), ..args })
        } else {
            Err(ArgsErrorView::InvalidPort(argv[at + 1]))
        },
        argv[at + 1] == word ==> args_from(argv, at, args) == Err::<ArgsView, ArgsErrorView>(
            ArgsErrorView::InvalidPort(word),
        ),
{
    a_flag_is_known(Flag::Port, name);
    it_stands_nowhere(name, '=');
    a_numeral(n);
    let minus = seq!['-'] + decimal_chars(n);
    assert(minus.skip(1) =~= decimal_chars(n));
    if word.len() > 0 {
        no_digit_in_front(word);
    }
}

/// A flag that takes no value switches on what it stands for, and nothing else, under either of
/// its names.
pub proof fn a_switch_is_thrown(
    argv: Seq<Seq<char>>,
    at: int,
    args: ArgsView,
    flag: Flag,
    name: Seq<char>,
)
    requires
        0 <= at < argv.len(),
        is_called(flag, name),
        argv[at] == name,
    ensures
        flag == Flag::TestConfig ==> args_from(argv, at, args) == args_from(
            argv,
            at + 1,
            ArgsView { test_config: true, ..args },
        ),
        flag == Flag::Version ==> args_from(argv, at, args) == args_from(
            argv,
            at + 1,
            ArgsView { version: true, ..args },
        ),
        flag == Flag::Help ==> args_from(argv, at, args) == args_from(
            argv,
            at + 1,
            ArgsView { help: true, ..args },
        ),
        flag == Flag::Debug ==> args_from(argv, at, args) == args_from(
            argv,
            at + 1,
            ArgsView { debug: true, ..args },
        ),
        flag == Flag::Trace ==> args_from(argv, at, args) == args_from(
            argv,
            at + 1,
            ArgsView { trace: true, ..args },
        ),
{
    a_flag_is_known(flag, name);
    it_stands_nowhere(name, '=');
}

/// A flag that there is not is refused by its name. What is no flag ends the command line, and
/// so does its end.
pub proof fn where_the_command_line_ends(argv: Seq<Seq<char>>, at: int, args: ArgsView)
    requires
        0 <= at <= argv.len(),
    ensures
        at == argv.len() ==> args_from(argv, at, args) == Ok::<ArgsView, ArgsErrorView>(args),
        at < argv.len() && (argv[at].len() == 0 || argv[at][0] != '-') ==> args_from(argv, at, args)
            == Ok::<ArgsView, ArgsErrorView>(args),
        at < argv.len() && argv[at].len() > 1 && argv[at][0] == '-' && (forall|i: int|
            0 <= i < argv[at].len() ==> #[trigger] argv[at][i] != '=') && (forall|flag: Flag|
            !#[trigger] is_called(flag, argv[at])) ==> args_from(argv, at, args) == Err::<
            ArgsView,
            ArgsErrorView,
        >(ArgsErrorView::Undefined(argv[at])),
{
    reveal_strlit("-");
    if at < argv.len() {
        let name = argv[at];
        if forall|i: int| 0 <= i < name.len() ==> #[trigger] name[i] != '=' {
            it_stands_nowhere(name, '=');
        }
        assert(is_called(flag_of(name), name) || flag_of(name) == Flag::Unknown);
    }
}

/// What a config file sets and the command line does not is what holds, and so is what the
/// command line gives; and options that do not go together are refused.
pub proof fn the_file_and_the_flags(text: Seq<char>, cfg: ConfigView, args: ArgsView)
    requires
        config_lines(lines_of(text)) matches Ok(p) && p.cfg == cfg,
    ensures
        match options_of(Some(text), args) {
            Ok(c) => {
                &&& cfg.max_payload <= cfg.max_pending
                &&& c.max_payload == cfg.max_payload
                &&& c.max_pending == cfg.max_pending
                &&& c.max_control_line == cfg.max_control_line
                &&& c.max_connections == cfg.max_connections
                &&& c.ping_interval == cfg.ping_interval
                &&& c.write_deadline == cfg.write_deadline
                &&& c.host == args.host.unwrap_or(cfg.host)
                &&& c.port == args.port.unwrap_or(cfg.port)
                &&& c.debug == (cfg.debug || args.debug)
                &&& c.trace == (cfg.trace || args.trace)
                &&& args.server_name is None ==> c.server_name == cfg.server_name
                &&& args.server_name is Some ==> c.server_name == args.server_name
                &&& args.ports_file_dir is Some ==> c.ports_file_dir == args.ports_file_dir
            },
            Err(e) => cfg.max_payload > cfg.max_pending && e == ConfigErrorView::PayloadOverPending(
                cfg.max_payload,
                cfg.max_pending,
            ),
        },
        options_of(None, args) matches Ok(c) && c.max_payload == 1_048_576 && c.max_pending
            == 67_108_864 && c.debug == args.debug && c.trace == args.trace,
{
}

/// What holds where nothing is set.
pub proof fn what_holds_by_default()
    ensures
        ({
            let cfg = default_config();
            &&& cfg.host == "0.0.0.0"@
            &&& cfg.port == 0
            &&& cfg.ports_file_dir is None
            &&& cfg.server_name is None
            &&& cfg.max_payload == 1_048_576
            &&& cfg.max_pending == 67_108_864
            &&& cfg.max_control_line == 4_096
            &&& cfg.max_connections == 65_536
            &&& cfg.ping_interval.wf() && cfg.ping_interval.total() == 120 * 1_000_000_000
            &&& cfg.write_deadline.wf() && cfg.write_deadline.total() == 10 * 1_000_000_000
            &&& !cfg.debug && !cfg.trace
            &&& gives(Seq::empty(), cfg, Seq::empty())
        }),
        no_args() == (ArgsView {
            config_file: None,
            test_config: false,
            version: false,
            help: false,
            host: None,
            port: None,
            ports_file_dir: None,
            server_name: None,
            debug: false,
            trace: false,
        }),
{
}

/// The words for what is wrong name the line, the option or the value that it is about.
pub proof fn what_the_errors_say(
    line: u64,
    name: Seq<char>,
    value: Seq<char>,
    payload: u64,
    pending: u64,
    program: Seq<char>,
)
    ensures
        error_message(ConfigErrorView::ExpectedKey(line)) == "config:"@ + decimal_chars(
            line as nat,
        ) + ":1: expected a key but got a value"@,
        error_message(ConfigErrorView::UnknownField(name)) == "config: unknown field \""@ + name
            + "\""@,
        error_message(ConfigErrorView::ExpectedInteger(value)) == "expected an integer but got "@
            + value,
        error_message(ConfigErrorView::ExpectedBoolean(value)) == "expected a boolean but got "@
            + value,
        error_message(ConfigErrorView::PayloadOverPending(payload, pending)) == "max_payload ("@
            + decimal_chars(payload as nat) + ") cannot be higher than max_pending ("@
            + decimal_chars(pending as nat) + ")"@,
        args_message(ArgsErrorView::NeedsArgument(name), program) == program
            + (": flag needs an argument: "@ + name),
        args_message(ArgsErrorView::Undefined(name), program) == program
            + (": flag provided but not defined: "@ + name),
        args_message(ArgsErrorView::InvalidPort(value), program) == program + (
        ": invalid value \""@ + value + "\" for flag -p: parse error"@),
{
}

/// Among the ASCII characters, white space is the blank and the five controls from tab to
/// carriage return.
pub proof fn what_is_white_space(c: char)
    requires
        (c as u32) < 0x80,
    ensures
        white_space(c) <==> c == ' ' || c == '\t' || c == '\n' || c == '\r' || c as u32 == 0x0b
            || c as u32 == 0x0c,
{
}

/// A config file of one line `debug: false`, or with `off` or `no`, leaves debugging off; one
/// with `true`, `on` or `yes` turns it on. The same holds of the trace.
pub proof fn a_file_of_one_switch(key: Seq<char>, word: Seq<char>, args: ArgsView)
    requires
        key == "debug"@ || key == "trace"@,
        word == "true"@ || word == "on"@ || word == "yes"@ || word == "false"@ || word == "off"@
            || word == "no"@,
        !args.debug,
        !args.trace,
    ensures
        ({
            let on = word == "true"@ || word == "on"@ || word == "yes"@;
            &&& options_of(Some(setting(key, word)), args) matches Ok(c)
            &&& c.debug == (key == "debug"@ && on)
            &&& c.trace == (key == "trace"@ && on)
        }),
{
    let line = setting(key, word);
    let none = Seq::<Seq<char>>::empty();
    let cfg = default_config();
    assert(gives(none, cfg, none));
    one_switch_is_enough(none, cfg, key, word);
    option_names();
    switch_words();
    a_setting_is_one_line(key, word);
    assert(seq![line] =~= none.push(line));
    assert("debug"@ != "trace"@);
}

/// A line that sets a switch sets it, and nothing else.
proof fn one_switch_is_enough(
    before: Seq<Seq<char>>,
    cfg: ConfigView,
    key: Seq<char>,
    word: Seq<char>,
)
    requires
        gives(before, cfg, before),
        key == "debug"@ || key == "trace"@,
        word == "true"@ || word == "on"@ || word == "yes"@ || word == "false"@ || word == "off"@
            || word == "no"@,
    ensures
        ({
            let on = word == "true"@ || word == "on"@ || word == "yes"@;
            gives(
                before.push(setting(key, word)),
                if key == "debug"@ {
                    ConfigView { debug: on, ..cfg }
                } else {
                    ConfigView { trace: on, ..cfg }
                },
                before,
            )
        }),
{
    switch_words();
    option_names();
    let p = Parsed { cfg, warnings: before };
    one_switch_line(before, p, word);
}

/// A setting is one line of a config file.
proof fn a_setting_is_one_line(key: Seq<char>, word: Seq<char>)
    requires
        is_name(key),
        is_word(word),
    ensures
        lines_of(setting(key, word)) == seq![setting(key, word)],
{
    let line = setting(key, word);
    assert forall|i: int| 0 <= i < line.len() implies #[trigger] line[i] != '\n' && line[i]
        != '\r' by {
        if i < key.len() {
            assert(line[i] == key[i]);
            assert(!white_space(key[i]));
        } else if i >= key.len() + 2 {
            assert(line[i] == word[i - key.len() - 2]);
            assert(!white_space(word[i - key.len() - 2]));
        }
    }
    lines_are_split(line, Seq::empty());
}

} // verus!
