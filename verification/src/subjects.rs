//! Subject grammar: tokens, validation and wildcard matching.
//!
//! Nothing here allocates: every function walks byte slices token by token,
//! because a publish pays this cost once per message.
use vstd::prelude::*;

use crate::text::same_bytes;

verus! {

/// `.`, the token separator.
pub const SEP: u8 = 0x2e;

/// `*`, exactly one token.
pub const PWC: u8 = 0x2a;

/// `>`, one or more trailing tokens.
pub const FWC: u8 = 0x3e;

/// The bytes that may not appear inside a token of more than one byte: tab,
/// line feed, form feed, carriage return and space.
pub open spec fn illegal_in_token(b: u8) -> bool {
    b == 0x09 || b == 0x0a || b == 0x0c || b == 0x0d || b == 0x20
}

/// Where the first token of `s` ends: at the first separator, or at the end.
pub open spec fn first_token_end(s: Seq<u8>) -> int
    decreases s.len(),
{
    if s.len() == 0 || s[0] == SEP {
        0
    } else {
        1 + first_token_end(s.skip(1))
    }
}

/// The tokens of a subject: what stands between its separators. There is always
/// at least one, though it may be empty.
pub open spec fn tokens_of(s: Seq<u8>) -> Seq<Seq<u8>>
    decreases s.len(),
{
    let end = first_token_end(s);
    if 0 <= end < s.len() {
        seq![s.take(end)] + tokens_of(s.skip(end + 1))
    } else {
        seq![s]
    }
}

/// May `tok` stand in a legal subject, last or not?
pub open spec fn legal_token(tok: Seq<u8>, last: bool) -> bool {
    &&& tok.len() > 0
    &&& tok.len() > 1 ==> forall|i: int| 0 <= i < tok.len() ==> !illegal_in_token(#[trigger] tok[i])
    &&& tok == seq![FWC] ==> last
}

/// The grammar of subjects and subscription filters.
pub open spec fn valid_subject(s: Seq<u8>) -> bool {
    forall|i: int|
        0 <= i < tokens_of(s).len() ==> legal_token(
            #[trigger] tokens_of(s)[i],
            i == tokens_of(s).len() - 1,
        )
}

/// Is `tok` one of the two wildcards?
pub open spec fn wildcard_token(tok: Seq<u8>) -> bool {
    tok == seq![PWC] || tok == seq![FWC]
}

/// Is some token of `s` a wildcard?
pub open spec fn wild(s: Seq<u8>) -> bool {
    exists|i: int| 0 <= i < tokens_of(s).len() && wildcard_token(#[trigger] tokens_of(s)[i])
}

/// Do the filter tokens `f` match the subject tokens `s`? Token by token: `>`
/// takes everything that is left, `*` takes one token, and any other token takes
/// its equal.
pub open spec fn tokens_match(f: Seq<Seq<u8>>, s: Seq<Seq<u8>>) -> bool
    decreases f.len(),
{
    if f.len() == 0 || s.len() == 0 {
        f.len() == 0 && s.len() == 0
    } else if f[0] == seq![FWC] {
        true
    } else {
        (f[0] == s[0] || f[0] == seq![PWC]) && tokens_match(f.skip(1), s.skip(1))
    }
}

/// Does the filter match the subject?
pub open spec fn subject_matches(filter: Seq<u8>, subject: Seq<u8>) -> bool {
    tokens_match(tokens_of(filter), tokens_of(subject))
}

/// What `first_token_end` finds.
proof fn first_token_end_is(s: Seq<u8>, end: int)
    requires
        0 <= end <= s.len(),
        forall|i: int| 0 <= i < end ==> s[i] != SEP,
        end < s.len() ==> s[end] == SEP,
    ensures
        first_token_end(s) == end,
    decreases s.len(),
{
    if s.len() > 0 && s[0] != SEP {
        first_token_end_is(s.skip(1), end - 1);
    }
}

/// The tokens of a subject with at least one separator.
proof fn tokens_step(s: Seq<u8>, end: int)
    requires
        0 <= end <= s.len(),
        forall|i: int| 0 <= i < end ==> s[i] != SEP,
        end < s.len() ==> s[end] == SEP,
    ensures
        end < s.len() ==> tokens_of(s) == seq![s.take(end)] + tokens_of(s.skip(end + 1)),
        end == s.len() ==> tokens_of(s) == seq![s],
{
    first_token_end_is(s, end);
}

/// The end of the token that starts at `from`.
fn token_end(s: &[u8], from: usize) -> (end: usize)
    requires
        from <= s.len(),
    ensures
        from <= end <= s.len(),
        forall|i: int| from <= i < end ==> s@[i] != SEP,
        end < s.len() ==> s@[end as int] == SEP,
        end < s.len() ==> tokens_of(s@.skip(from as int)) == seq![s@.subrange(from as int, end as int)]
            + tokens_of(s@.skip(end + 1)),
        end == s.len() ==> tokens_of(s@.skip(from as int)) == seq![
            s@.subrange(from as int, end as int),
        ],
{
    let mut end: usize = from;
    while end < s.len() && s[end] != SEP
        invariant
            from <= end <= s.len(),
            forall|i: int| from <= i < end ==> s@[i] != SEP,
        decreases s.len() - end,
    {
        end += 1;
    }
    proof {
        let rest = s@.skip(from as int);
        tokens_step(rest, end - from);
        assert(rest.take(end - from) =~= s@.subrange(from as int, end as int));
        if end < s.len() {
            assert(rest.skip(end - from + 1) =~= s@.skip(end + 1));
        } else {
            assert(rest =~= s@.subrange(from as int, end as int));
        }
    }
    end
}

/// Does a token longer than one byte hold a byte that it may not?
fn holds_illegal(s: &[u8], from: usize, end: usize) -> (r: bool)
    requires
        from <= end <= s.len(),
    ensures
        r == exists|i: int|
            0 <= i < end - from && illegal_in_token(
                #[trigger] s@.subrange(from as int, end as int)[i],
            ),
{
    let mut i: usize = from;
    while i < end
        invariant
            from <= i <= end <= s.len(),
            forall|j: int| from <= j < i ==> !illegal_in_token(s@[j]),
        decreases end - i,
    {
        let b: u8 = s[i];
        if b == 0x09 || b == 0x0a || b == 0x0c || b == 0x0d || b == 0x20 {
            assert(illegal_in_token(s@.subrange(from as int, end as int)[i - from]));
            return true;
        }
        i += 1;
    }
    false
}

/// Is `s` a legal subject or subscription filter?
pub fn is_valid(s: &[u8]) -> (r: bool)
    ensures
        r == valid_subject(s@),
{
    let mut pos: usize = 0;
    let ghost mut done: Seq<Seq<u8>> = Seq::empty();
    proof {
        assert(s@.skip(0) =~= s@);
    }
    loop
        invariant
            pos <= s.len(),
            tokens_of(s@) == done + tokens_of(s@.skip(pos as int)),
            tokens_of(s@.skip(pos as int)).len() > 0,
            forall|i: int| 0 <= i < done.len() ==> legal_token(#[trigger] done[i], false),
        decreases s.len() - pos,
    {
        let end = token_end(s, pos);
        let ghost tok = s@.subrange(pos as int, end as int);
        let ghost all = tokens_of(s@);
        let last = end == s.len();
        assert(all[done.len() as int] == tok);
        proof {
            if !last {
                assert(tokens_of(s@.skip(end + 1)).len() > 0);
            }
        }
        assert(last == (done.len() == all.len() - 1));
        if end == pos {
            assert(!legal_token(all[done.len() as int], last));
            return false;
        }
        if end - pos > 1 {
            if holds_illegal(s, pos, end) {
                assert(!legal_token(all[done.len() as int], last));
                return false;
            }
        } else if s[pos] == FWC && !last {
            assert(tok =~= seq![FWC]);
            assert(!legal_token(all[done.len() as int], last));
            return false;
        }
        assert(legal_token(tok, last));
        if last {
            assert forall|i: int| 0 <= i < all.len() implies legal_token(
                #[trigger] all[i],
                i == all.len() - 1,
            ) by {
                if i < done.len() {
                    assert(all[i] == done[i]);
                }
            }
            return true;
        }
        proof {
            assert(legal_token(tok, false));
            done = done.push(tok);
            assert(all =~= done + tokens_of(s@.skip(end + 1)));
        }
        pos = end + 1;
    }
}

/// Does `s` hold a wildcard token (`*` or `>`), so that it is no literal?
pub fn has_wildcard(s: &[u8]) -> (r: bool)
    ensures
        r == wild(s@),
{
    let mut pos: usize = 0;
    let ghost mut done: Seq<Seq<u8>> = Seq::empty();
    proof {
        assert(s@.skip(0) =~= s@);
    }
    loop
        invariant
            pos <= s.len(),
            tokens_of(s@) == done + tokens_of(s@.skip(pos as int)),
            forall|i: int| 0 <= i < done.len() ==> !wildcard_token(#[trigger] done[i]),
        decreases s.len() - pos,
    {
        let end = token_end(s, pos);
        let ghost tok = s@.subrange(pos as int, end as int);
        let ghost all = tokens_of(s@);
        assert(all[done.len() as int] == tok);
        if end - pos == 1 && (s[pos] == PWC || s[pos] == FWC) {
            assert(tok =~= seq![s@[pos as int]]);
            assert(wildcard_token(all[done.len() as int]));
            return true;
        }
        assert(!wildcard_token(tok)) by {
            if wildcard_token(tok) {
                assert(tok.len() == 1 && tok[0] == s@[pos as int]);
            }
        }
        if end == s.len() {
            assert forall|i: int| 0 <= i < all.len() implies !wildcard_token(#[trigger] all[i]) by {
                if i < done.len() {
                    assert(all[i] == done[i]);
                }
            }
            return false;
        }
        proof {
            done = done.push(tok);
            assert(all =~= done + tokens_of(s@.skip(end + 1)));
        }
        pos = end + 1;
    }
}

/// A publish subject must be legal and literal: wildcards are for subscribing.
pub fn is_valid_publish(s: &[u8]) -> (r: bool)
    ensures
        r == (valid_subject(s@) && !wild(s@)),
{
    is_valid(s) && !has_wildcard(s)
}

/// Does the subscription filter `filter` match the published `subject`?
pub fn matches(filter: &[u8], subject: &[u8]) -> (r: bool)
    ensures
        r == subject_matches(filter@, subject@),
{
    let mut f: usize = 0;
    let mut s: usize = 0;
    proof {
        assert(filter@.skip(0) =~= filter@);
        assert(subject@.skip(0) =~= subject@);
    }
    loop
        invariant
            f <= filter.len(),
            s <= subject.len(),
            subject_matches(filter@, subject@) == tokens_match(
                tokens_of(filter@.skip(f as int)),
                tokens_of(subject@.skip(s as int)),
            ),
        decreases filter.len() - f,
    {
        let fe = token_end(filter, f);
        let se = token_end(subject, s);
        let ghost ft = tokens_of(filter@.skip(f as int));
        let ghost st = tokens_of(subject@.skip(s as int));
        let ghost ftok = filter@.subrange(f as int, fe as int);
        let ghost stok = subject@.subrange(s as int, se as int);
        assert(ft[0] == ftok && st[0] == stok);
        if fe - f == 1 && filter[f] == FWC {
            assert(ftok =~= seq![FWC]);
            return true;
        }
        assert(ftok != seq![FWC]) by {
            if ftok == seq![FWC] {
                assert(ftok.len() == 1 && ftok[0] == filter@[f as int]);
            }
        }
        let star = fe - f == 1 && filter[f] == PWC;
        proof {
            if star {
                assert(ftok =~= seq![PWC]);
            } else if ftok == seq![PWC] {
                assert(ftok.len() == 1 && ftok[0] == filter@[f as int]);
            }
        }
        if !star && !same_bytes(&filter[f..fe], &subject[s..se]) {
            return false;
        }
        let flast = fe == filter.len();
        let slast = se == subject.len();
        proof {
            if flast {
                assert(ft.skip(1) =~= Seq::empty());
            } else {
                assert(ft.skip(1) =~= tokens_of(filter@.skip(fe + 1)));
                assert(tokens_of(filter@.skip(fe + 1)).len() > 0);
            }
            if slast {
                assert(st.skip(1) =~= Seq::empty());
            } else {
                assert(st.skip(1) =~= tokens_of(subject@.skip(se + 1)));
                assert(tokens_of(subject@.skip(se + 1)).len() > 0);
            }
        }
        if flast || slast {
            proof {
                reveal_with_fuel(tokens_match, 2);
            }
            return flast && slast;
        }
        f = fe + 1;
        s = se + 1;
    }
}

/// The token count of a subject; an empty subject has none.
pub open spec fn token_count(s: Seq<u8>) -> nat {
    if s.len() == 0 {
        0
    } else {
        tokens_of(s).len()
    }
}

/// The token count of a subject; an empty subject has none.
pub fn tokens(s: &[u8]) -> (n: usize)
    requires
        s.len() < usize::MAX,
    ensures
        n == if s@.len() == 0 {
            0
        } else {
            tokens_of(s@).len()
        },
        n == token_count(s@),
{
    if s.is_empty() {
        return 0;
    }
    let mut pos: usize = 0;
    let mut n: usize = 1;
    proof {
        assert(s@.skip(0) =~= s@);
    }
    loop
        invariant
            pos <= s.len(),
            1 <= n <= pos + 1,
            0 < s.len() < usize::MAX,
            tokens_of(s@).len() == n - 1 + tokens_of(s@.skip(pos as int)).len(),
        decreases s.len() - pos,
    {
        let end = token_end(s, pos);
        if end == s.len() {
            return n;
        }
        n += 1;
        pos = end + 1;
    }
}

/// Do the first `n` filter tokens each take the subject token in their place?
pub open spec fn tokens_agree(f: Seq<Seq<u8>>, s: Seq<Seq<u8>>, n: int) -> bool {
    forall|i: int| 0 <= i < n ==> (#[trigger] f[i] == s[i] || f[i] == seq![PWC])
}

/// There is always a first token, and its end lies within the subject.
proof fn tokens_of_is_not_empty(s: Seq<u8>)
    ensures
        tokens_of(s).len() > 0,
        0 <= first_token_end(s) <= s.len(),
        first_token_end(s) < s.len() ==> s[first_token_end(s)] == SEP,
        forall|i: int| 0 <= i < first_token_end(s) ==> s[i] != SEP,
    decreases s.len(),
{
    if s.len() > 0 && s[0] != SEP {
        tokens_of_is_not_empty(s.skip(1));
        assert forall|i: int| 0 <= i < first_token_end(s) implies s[i] != SEP by {
            if i > 0 {
                assert(s.skip(1)[i - 1] == s[i]);
            }
        }
    }
}

proof fn tokens_match_closed_form(f: Seq<Seq<u8>>, s: Seq<Seq<u8>>)
    requires
        f.len() > 0,
        forall|i: int| 0 <= i < f.len() - 1 ==> #[trigger] f[i] != seq![FWC],
    ensures
        tokens_match(f, s) == if f.last() == seq![FWC] {
            s.len() >= f.len() && tokens_agree(f, s, f.len() - 1)
        } else {
            s.len() == f.len() && tokens_agree(f, s, f.len() as int)
        },
    decreases f.len(),
{
    reveal_with_fuel(tokens_match, 2);
    if f.len() > 1 && s.len() > 0 {
        let ft = f.skip(1);
        let st = s.skip(1);
        assert(ft.last() == f.last());
        tokens_match_closed_form(ft, st);
        let n = if f.last() == seq![FWC] {
            f.len() - 1
        } else {
            f.len() as int
        };
        if tokens_match(f, s) {
            assert forall|i: int| 0 <= i < n implies (#[trigger] f[i] == s[i] || f[i] == seq![PWC]) by {
                if i > 0 {
                    assert(ft[i - 1] == f[i] && st[i - 1] == s[i]);
                }
            }
        }
        if tokens_agree(f, s, n) && s.len() >= f.len() {
            assert forall|i: int| 0 <= i < n - 1 implies (#[trigger] ft[i] == st[i] || ft[i] == seq![PWC]) by {
                assert(f[i + 1] == ft[i] && s[i + 1] == st[i]);
            }
            assert(f[0] == s[0] || f[0] == seq![PWC]);
        }
    } else if s.len() > 0 {
        assert(f.last() == f[0]);
        if f[0] != seq![FWC] && (f[0] == s[0] || f[0] == seq![PWC]) {
            assert(f.skip(1).len() == 0);
            assert(s.skip(1).len() == s.len() - 1);
            assert(tokens_agree(f, s, 1));
        }
    }
}

/// A legal filter is matched token by token. `*` stands for exactly one token. A
/// final `>` stands for one or more: it needs at least one token of its own, so
/// `foo.>` does not match `foo`. Without it the token counts are equal: there is
/// no implicit prefix match.
pub proof fn matching_is_token_wise(filter: Seq<u8>, subject: Seq<u8>)
    requires
        valid_subject(filter),
    ensures
        subject_matches(filter, subject) == ({
            let f = tokens_of(filter);
            let s = tokens_of(subject);
            if f.last() == seq![FWC] {
                s.len() >= f.len() && tokens_agree(f, s, f.len() - 1)
            } else {
                s.len() == f.len() && tokens_agree(f, s, f.len() as int)
            }
        }),
{
    tokens_of_is_not_empty(filter);
    let f = tokens_of(filter);
    assert forall|i: int| 0 <= i < f.len() - 1 implies #[trigger] f[i] != seq![FWC] by {
        assert(legal_token(f[i], false));
    }
    tokens_match_closed_form(f, tokens_of(subject));
}

proof fn same_tokens_same_subject(a: Seq<u8>, b: Seq<u8>)
    requires
        tokens_of(a) == tokens_of(b),
    ensures
        a == b,
    decreases a.len(),
{
    tokens_of_is_not_empty(a);
    tokens_of_is_not_empty(b);
    let ea = first_token_end(a);
    let eb = first_token_end(b);
    let ta = tokens_of(a);
    let tb = tokens_of(b);
    if ea < a.len() {
        tokens_of_is_not_empty(a.skip(ea + 1));
        assert(ta[0] == a.take(ea));
    }
    if eb < b.len() {
        tokens_of_is_not_empty(b.skip(eb + 1));
        assert(tb[0] == b.take(eb));
    }
    if ea < a.len() && eb < b.len() {
        assert(ta.skip(1) =~= tokens_of(a.skip(ea + 1)));
        assert(tb.skip(1) =~= tokens_of(b.skip(eb + 1)));
        same_tokens_same_subject(a.skip(ea + 1), b.skip(eb + 1));
        assert(ea == a.take(ea).len() && eb == b.take(eb).len());
        assert(a =~= a.take(ea) + seq![SEP] + a.skip(ea + 1));
        assert(b =~= b.take(eb) + seq![SEP] + b.skip(eb + 1));
    } else if ea == a.len() && eb == b.len() {
        assert(ta[0] == tb[0]);
    } else {
        assert(ta.len() != tb.len());
    }
}

proof fn literal_tokens_match(f: Seq<Seq<u8>>, s: Seq<Seq<u8>>)
    requires
        forall|i: int| 0 <= i < f.len() ==> !wildcard_token(#[trigger] f[i]),
    ensures
        tokens_match(f, s) == (f == s),
    decreases f.len(),
{
    if f.len() > 0 && s.len() > 0 {
        assert(!wildcard_token(f[0]));
        assert forall|i: int| 0 <= i < f.skip(1).len() implies !wildcard_token(
            #[trigger] f.skip(1)[i],
        ) by {
            assert(f.skip(1)[i] == f[i + 1]);
        }
        literal_tokens_match(f.skip(1), s.skip(1));
        assert(f =~= seq![f[0]] + f.skip(1));
        assert(s =~= seq![s[0]] + s.skip(1));
    } else if f.len() == 0 && s.len() == 0 {
        assert(f =~= s);
    }
}

/// A literal filter matches its own subject and no other. This is why a literal
/// subscription can be found by looking its subject up.
pub proof fn a_literal_matches_only_itself(filter: Seq<u8>, subject: Seq<u8>)
    requires
        !wild(filter),
    ensures
        subject_matches(filter, subject) == (filter == subject),
{
    let f = tokens_of(filter);
    assert forall|i: int| 0 <= i < f.len() implies !wildcard_token(#[trigger] f[i]) by {}
    literal_tokens_match(f, tokens_of(subject));
    if tokens_of(filter) == tokens_of(subject) {
        same_tokens_same_subject(filter, subject);
    }
}

// --------------------------------------------------------------- subjects from tokens --

/// Some tokens with a dot between each two.
pub open spec fn dotted(tokens: Seq<Seq<u8>>) -> Seq<u8>
    decreases tokens.len(),
{
    if tokens.len() == 0 {
        Seq::empty()
    } else if tokens.len() == 1 {
        tokens[0]
    } else {
        tokens[0] + seq![0x2eu8] + dotted(tokens.skip(1))
    }
}

/// Is there a dot in none of the tokens?
pub open spec fn undotted(tokens: Seq<Seq<u8>>) -> bool {
    forall|i: int, j: int|
        0 <= i < tokens.len() && 0 <= j < tokens[i].len() ==> #[trigger] tokens[i][j] != 0x2e
}

/// A subject that is put together from tokens falls into just these.
pub proof fn tokens_are_read_back(tokens: Seq<Seq<u8>>)
    requires
        tokens.len() > 0,
        undotted(tokens),
    ensures
        tokens_of(dotted(tokens)) == tokens,
        dotted(tokens).len() > 0 ==> token_count(dotted(tokens)) == tokens.len(),
        token_count(Seq::empty()) == 0,
    decreases tokens.len(),
{
    let s = dotted(tokens);
    let end = tokens[0].len() as int;
    assert forall|i: int| 0 <= i < end implies s[i] != SEP by {
        assert(s[i] == tokens[0][i]);
    }
    tokens_step(s, end);
    if tokens.len() > 1 {
        let rest = tokens.skip(1);
        assert forall|i: int, j: int|
            0 <= i < rest.len() && 0 <= j < rest[i].len() implies #[trigger] rest[i][j] != 0x2e by {
            assert(rest[i] == tokens[i + 1]);
            assert(tokens[i + 1][j] != 0x2e);
        }
        tokens_are_read_back(rest);
        assert(s.take(end) =~= tokens[0]);
        assert(s.skip(end + 1) =~= dotted(rest));
        assert(seq![tokens[0]] + rest =~= tokens);
    } else {
        assert(seq![s] =~= tokens);
    }
}

/// A subject is legal when none of its tokens is empty, none of more than one byte holds a tab, a
/// line feed, a form feed, a carriage return or a space, and `>` is the last if it is there. It
/// holds a wildcard when one of its tokens is `*` or `>`, and not when one merely contains them.
pub proof fn a_subject_is_judged_by_its_tokens(tokens: Seq<Seq<u8>>)
    requires
        tokens.len() > 0,
        undotted(tokens),
    ensures
        valid_subject(dotted(tokens)) <==> forall|i: int| #![trigger tokens[i]]
            0 <= i < tokens.len() ==> {
                &&& tokens[i].len() > 0
                &&& tokens[i].len() == 1 || forall|j: int|
                    0 <= j < tokens[i].len() ==> {
                        &&& #[trigger] tokens[i][j] != 0x09
                        &&& tokens[i][j] != 0x0a
                        &&& tokens[i][j] != 0x0c
                        &&& tokens[i][j] != 0x0d
                        &&& tokens[i][j] != 0x20
                    }
                &&& i < tokens.len() - 1 ==> tokens[i] != seq![0x3eu8]
            },
        wild(dotted(tokens)) <==> exists|i: int| #![trigger tokens[i]]
            0 <= i < tokens.len() && (tokens[i] == seq![0x2au8] || tokens[i] == seq![0x3eu8]),
{
    tokens_are_read_back(tokens);
    if valid_subject(dotted(tokens)) {
        assert forall|i: int| #![trigger tokens[i]] 0 <= i < tokens.len() implies {
            &&& tokens[i].len() > 0
            &&& tokens[i].len() == 1 || forall|j: int|
                0 <= j < tokens[i].len() ==> {
                    &&& #[trigger] tokens[i][j] != 0x09
                    &&& tokens[i][j] != 0x0a
                    &&& tokens[i][j] != 0x0c
                    &&& tokens[i][j] != 0x0d
                    &&& tokens[i][j] != 0x20
                }
            &&& i < tokens.len() - 1 ==> tokens[i] != seq![0x3eu8]
        } by {
            assert(legal_token(tokens[i], i == tokens.len() - 1));
            if tokens[i].len() > 1 {
                assert forall|j: int| 0 <= j < tokens[i].len() implies {
                    &&& #[trigger] tokens[i][j] != 0x09
                    &&& tokens[i][j] != 0x0a
                    &&& tokens[i][j] != 0x0c
                    &&& tokens[i][j] != 0x0d
                    &&& tokens[i][j] != 0x20
                } by {
                    assert(!illegal_in_token(tokens[i][j]));
                }
            }
        }
    }
    if exists|i: int| #![trigger tokens[i]]
        0 <= i < tokens.len() && (tokens[i] == seq![0x2au8] || tokens[i] == seq![0x3eu8]) {
        let i = choose|i: int| #![trigger tokens[i]]
            0 <= i < tokens.len() && (tokens[i] == seq![0x2au8] || tokens[i] == seq![0x3eu8]);
        assert(wildcard_token(tokens[i]));
    }
}

/// A filter takes a subject token by token: `>` takes all that is left, of which there is
/// something; `*` takes one token, and any other token its equal, and then the rest must match.
pub proof fn a_filter_takes_token_by_token(
    t: Seq<u8>,
    filter: Seq<Seq<u8>>,
    u: Seq<u8>,
    subject: Seq<Seq<u8>>,
)
    requires
        undotted(seq![t] + filter),
        undotted(seq![u] + subject),
    ensures
        subject_matches(dotted(seq![t] + filter), dotted(seq![u] + subject)) <==> {
            ||| t == seq![0x3eu8]
            ||| (t == u || t == seq![0x2au8]) && (if filter.len() == 0 || subject.len() == 0 {
                filter.len() == 0 && subject.len() == 0
            } else {
                subject_matches(dotted(filter), dotted(subject))
            })
        },
{
    let (f, s) = (seq![t] + filter, seq![u] + subject);
    tokens_are_read_back(f);
    tokens_are_read_back(s);
    assert(f.skip(1) =~= filter && s.skip(1) =~= subject);
    if filter.len() > 0 && subject.len() > 0 {
        assert forall|i: int, j: int|
            0 <= i < filter.len() && 0 <= j < filter[i].len() implies #[trigger] filter[i][j]
            != 0x2e by {
            assert(f[i + 1] == filter[i]);
            assert(f[i + 1][j] != 0x2e);
        }
        assert forall|i: int, j: int|
            0 <= i < subject.len() && 0 <= j < subject[i].len() implies #[trigger] subject[i][j]
            != 0x2e by {
            assert(s[i + 1] == subject[i]);
            assert(s[i + 1][j] != 0x2e);
        }
        tokens_are_read_back(filter);
        tokens_are_read_back(subject);
    } else {
        assert(tokens_match(filter, subject) == (filter.len() == 0 && subject.len() == 0));
    }
}

} // verus!
