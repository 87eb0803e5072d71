//! Reading logfmt lines (`key=value key2="quoted value"`) into key/value pairs,
//! as the non-strict `| logfmt` stage does: what cannot be read is skipped, and
//! a line never fails as a whole.

use crate::scanner::starts_with;
use crate::text::{
    rest, all_whitespace, lemma_trim_start_prefix, chars_of, is_whitespace, is_whitespace_spec, lemma_trim_start, skip_whitespace, string_of,
    trim_start,
};
use vstd::prelude::*;
use vstd::utf8::{encode_scalar, encode_utf8};

verus! {

pub open spec fn is_key_end(c: char) -> bool {
    c == '=' || is_whitespace_spec(c)
}

/// Where a key ends: the first `=` or whitespace, if any.
pub open spec fn key_end(s: Seq<char>) -> Option<nat>
    decreases s.len(),
{
    if s.len() == 0 {
        None
    } else if is_key_end(s[0]) {
        Some(0)
    } else {
        match key_end(s.drop_first()) {
            Some(k) => Some(k + 1),
            None => None,
        }
    }
}

/// Where an unquoted value ends: the first whitespace, or the end of the line.
pub open spec fn value_end(s: Seq<char>) -> nat
    decreases s.len(),
{
    if s.len() == 0 || is_whitespace_spec(s[0]) {
        0
    } else {
        value_end(s.drop_first()) + 1
    }
}

/// The position of the first `"` of `s` not preceded by an unconsumed
/// backslash, and whether a backslash occurs before it. `escaped`: the
/// character before `s` was an escaping backslash; `saw`: one came earlier.
pub open spec fn closing_quote(s: Seq<char>, escaped: bool, saw: bool) -> Option<(nat, bool)>
    decreases s.len(),
{
    if s.len() == 0 {
        None
    } else if escaped {
        shift(closing_quote(s.drop_first(), false, saw), 1)
    } else if s[0] == '\\' {
        shift(closing_quote(s.drop_first(), true, true), 1)
    } else if s[0] == '"' {
        Some((0, saw))
    } else {
        shift(closing_quote(s.drop_first(), false, saw), 1)
    }
}

pub open spec fn shift(r: Option<(nat, bool)>, d: nat) -> Option<(nat, bool)> {
    match r {
        Some((i, b)) => Some((i + d, b)),
        None => None,
    }
}

/// The character an escape `\e` stands for, for every `e` but `u`.
pub open spec fn simple_escape(e: char) -> Option<char> {
    if e == '"' {
        Some('"')
    } else if e == '\\' {
        Some('\\')
    } else if e == '/' {
        Some('/')
    } else if e == '\'' {
        Some('\'')
    } else if e == 'b' {
        Some('\u{8}')
    } else if e == 'f' {
        Some('\u{c}')
    } else if e == 'n' {
        Some('\n')
    } else if e == 'r' {
        Some('\r')
    } else if e == 't' {
        Some('\t')
    } else {
        None
    }
}

/// The value of a hexadecimal digit.
pub open spec fn hex_digit(c: char) -> Option<nat> {
    if '0' <= c <= '9' {
        Some((c as u32 - '0' as u32) as nat)
    } else if 'a' <= c <= 'f' {
        Some((c as u32 - 'a' as u32 + 10) as nat)
    } else if 'A' <= c <= 'F' {
        Some((c as u32 - 'A' as u32 + 10) as nat)
    } else {
        None
    }
}

pub open spec fn all_hex(s: Seq<char>) -> bool {
    forall|i: int| 0 <= i < s.len() ==> (#[trigger] hex_digit(s[i])) is Some
}

pub open spec fn hex_number(s: Seq<char>) -> nat
    decreases s.len(),
{
    if s.len() == 0 {
        0
    } else {
        hex_number(s.drop_last()) * 16 + hex_digit(s.last()).unwrap()
    }
}

/// What `u32::from_str_radix(s, 16)` gives: an optional `+`, then one or more
/// hexadecimal digits whose value fits in a `u32`.
pub open spec fn radix16(s: Seq<char>) -> Option<u32> {
    let digits = if starts_with(s, '+') {
        s.drop_first()
    } else {
        s
    };
    if digits.len() > 0 && all_hex(digits) && hex_number(digits) <= u32::MAX {
        Some(hex_number(digits) as u32)
    } else {
        None
    }
}

/// A Unicode scalar value: what `char::from_u32` accepts.
pub open spec fn is_scalar(n: u32) -> bool {
    n <= 0x10FFFF && !(0xD800 <= n <= 0xDFFF)
}

pub open spec fn prepend(c: char, r: Option<Seq<char>>) -> Option<Seq<char>> {
    match r {
        Some(t) => Some(seq![c] + t),
        None => None,
    }
}

/// The escapes of a quoted logfmt value resolved; `None` on an unknown or
/// incomplete escape.
pub open spec fn unescape_rule(v: Seq<char>) -> Option<Seq<char>>
    decreases v.len(),
{
    if v.len() == 0 {
        Some(Seq::empty())
    } else if v[0] != '\\' {
        prepend(v[0], unescape_rule(v.drop_first()))
    } else if v.len() == 1 {
        None
    } else if v[1] == 'u' {
        let n: int = if v.len() - 2 < 4 {
            v.len() - 2
        } else {
            4
        };
        match radix16(v.subrange(2, 2 + n)) {
            Some(u) => if is_scalar(u) {
                prepend(u as char, unescape_rule(v.skip(2 + n)))
            } else {
                None
            },
            None => None,
        }
    } else {
        match simple_escape(v[1]) {
            Some(c) => prepend(c, unescape_rule(v.skip(2))),
            None => None,
        }
    }
}

/// A quoted value whose opening quote is consumed: the value, and the input after
/// the closing quote. An unterminated quote takes the rest of the line as it is.
pub open spec fn quoted_value_rule(s: Seq<char>) -> (Option<Seq<char>>, Seq<char>) {
    match closing_quote(s, false, false) {
        Some((i, saw)) => (
            if saw {
                unescape_rule(s.take(i as int))
            } else {
                Some(s.take(i as int))
            },
            s.skip(i + 1 as int),
        ),
        None => (Some(s), Seq::empty()),
    }
}

pub open spec fn next_value_rule(s: Seq<char>) -> (Option<Seq<char>>, Seq<char>) {
    if starts_with(s, '"') {
        quoted_value_rule(s.drop_first())
    } else {
        let e = value_end(s);
        (Some(s.take(e as int)), s.skip(e as int))
    }
}

/// The next `key`, `key=value` or `key="value"` of `s`; `None` once no key is left.
pub open spec fn next_pair_rule(s: Seq<char>) -> (Option<(Seq<char>, Option<Seq<char>>)>, Seq<char>) {
    if s.len() == 0 {
        (None, s)
    } else {
        let t = trim_start(s);
        match key_end(t) {
            None => (None, t),
            Some(k) => {
                let key = t.take(k as int);
                let r = t.skip(k as int);
                if starts_with(r, '=') {
                    let (v, r2) = next_value_rule(r.drop_first());
                    (Some((key, v)), r2)
                } else {
                    (Some((key, None)), r)
                }
            },
        }
    }
}

/// The pairs of `s` with a non-empty value, appended to `acc`.
pub open spec fn pairs_rule(s: Seq<char>, acc: Seq<(Seq<char>, Seq<char>)>) -> Seq<(Seq<char>, Seq<char>)>
    decreases s.len(),
{
    match next_pair_rule(s) {
        (None, _) => acc,
        (Some((k, v)), r) => {
            let acc2 = match v {
                Some(x) => if x.len() > 0 {
                    acc.push((k, x))
                } else {
                    acc
                },
                None => acc,
            };
            if r.len() < s.len() {
                pairs_rule(r, acc2)
            } else {
                // never taken: a pair always consumes input
                acc2
            }
        },
    }
}

/// The key/value pairs of a logfmt line.
pub open spec fn logfmt_pairs(line: Seq<char>) -> Seq<(Seq<char>, Seq<char>)> {
    pairs_rule(trim_start(line), Seq::empty())
}

pub open spec fn pairs_view(p: Seq<(String, String)>) -> Seq<(Seq<char>, Seq<char>)> {
    p.map_values(|x: (String, String)| (x.0@, x.1@))
}

/// A key holds no `=` and no whitespace.
pub open spec fn is_key(k: Seq<char>) -> bool {
    forall|i: int| 0 <= i < k.len() ==> !is_key_end(#[trigger] k[i])
}

// ---------------------------------------------------------------------------

proof fn lemma_key_end(s: Seq<char>)
    ensures
        key_end(s) matches Some(k) ==> k < s.len() && is_key_end(s[k as int]) && is_key(s.take(k as int)),
    decreases s.len(),
{
    if s.len() > 0 && !is_key_end(s[0]) {
        lemma_key_end(s.drop_first());
        if let Some(k) = key_end(s) {
            assert forall|i: int| 0 <= i < k implies !is_key_end(#[trigger] s.take(k as int)[i]) by {
                if i > 0 {
                    assert(s.take(k as int)[i] == s.drop_first().take(k - 1)[i - 1]);
                }
            }
        }
    }
}

proof fn lemma_value_end(s: Seq<char>)
    ensures
        value_end(s) <= s.len(),
    decreases s.len(),
{
    if s.len() > 0 && !is_whitespace_spec(s[0]) {
        lemma_value_end(s.drop_first());
    }
}

proof fn lemma_closing_quote(s: Seq<char>, escaped: bool, saw: bool)
    ensures
        closing_quote(s, escaped, saw) matches Some((i, _)) ==> i < s.len(),
    decreases s.len(),
{
    if s.len() > 0 {
        lemma_closing_quote(s.drop_first(), false, saw);
        lemma_closing_quote(s.drop_first(), true, true);
    }
}

/// Reading a pair always consumes input, and a key is never more than a key.
proof fn lemma_next_pair(s: Seq<char>)
    ensures
        next_pair_rule(s).1.len() <= s.len(),
        next_pair_rule(s).0 matches Some((k, _)) ==> next_pair_rule(s).1.len() < s.len() && is_key(k),
{
    if s.len() > 0 {
        let t = trim_start(s);
        lemma_trim_start(s);
        lemma_key_end(t);
        if let Some(k) = key_end(t) {
            let r = t.skip(k as int);
            if starts_with(r, '=') {
                let s1 = r.drop_first();
                lemma_value_end(s1);
                if starts_with(s1, '"') {
                    lemma_closing_quote(s1.drop_first(), false, false);
                }
            } else {
                assert(k > 0);
            }
        }
    }
}

proof fn lemma_pairs_rule(s: Seq<char>, acc: Seq<(Seq<char>, Seq<char>)>)
    requires
        forall|i: int| 0 <= i < acc.len() ==> is_key(#[trigger] acc[i].0) && acc[i].1.len() > 0,
    ensures
        forall|i: int|
            0 <= i < pairs_rule(s, acc).len() ==> is_key(#[trigger] pairs_rule(s, acc)[i].0)
                && pairs_rule(s, acc)[i].1.len() > 0,
    decreases s.len(),
{
    lemma_next_pair(s);
    let (p, r) = next_pair_rule(s);
    if let Some((k, v)) = p {
        assert(is_key(k));
        assert(r.len() < s.len());
        let acc2 = match v {
            Some(x) => if x.len() > 0 {
                acc.push((k, x))
            } else {
                acc
            },
            None => acc,
        };
        assert forall|i: int| 0 <= i < acc2.len() implies is_key(#[trigger] acc2[i].0) && acc2[i].1.len() > 0 by {
            if i < acc.len() {
                assert(acc2[i] == acc[i]);
                assert(is_key(acc[i].0) && acc[i].1.len() > 0);
            } else {
                let x = v->Some_0;
                assert(x.len() > 0 && acc2 == acc.push((k, x)));
                assert(acc2[i] == (k, x));
            }
        }
        lemma_pairs_rule(r, acc2);
        assert(pairs_rule(s, acc) == pairs_rule(r, acc2));
    } else {
        assert(pairs_rule(s, acc) == acc);
    }
}

// ---------------------------------------------------------------------------

/// Whitespace in front of a line changes none of its pairs.
pub proof fn lemma_logfmt_skips_leading_whitespace(ws: Seq<char>, line: Seq<char>)
    requires
        all_whitespace(ws),
    ensures
        logfmt_pairs(ws + line) == logfmt_pairs(line),
{
    lemma_trim_start_prefix(ws, line);
}

/// Every pair of a line has a key with no `=` and no whitespace in it, and a
/// value that is not empty.
#[verifier::spinoff_prover]
pub proof fn lemma_logfmt_pairs_are_well_formed(line: Seq<char>)
    ensures
        forall|i: int|
            0 <= i < logfmt_pairs(line).len() ==> is_key(#[trigger] logfmt_pairs(line)[i].0)
                && logfmt_pairs(line)[i].1.len() > 0,
{
    let pr = pairs_rule(trim_start(line), Seq::empty());
    lemma_pairs_rule(trim_start(line), Seq::empty());
    assert forall|i: int| 0 <= i < logfmt_pairs(line).len() implies is_key(
        #[trigger] logfmt_pairs(line)[i].0,
    ) && logfmt_pairs(line)[i].1.len() > 0 by {
        assert(logfmt_pairs(line) == pr);
        assert(is_key(pr[i].0) && pr[i].1.len() > 0);
    }
}

proof fn lemma_key_end_of(k: Seq<char>, tail: Seq<char>)
    requires
        is_key(k),
        tail.len() > 0,
        is_key_end(tail[0]),
    ensures
        key_end(k + tail) == Some(k.len()),
    decreases k.len(),
{
    if k.len() == 0 {
        assert(k + tail =~= tail);
    } else {
        assert((k + tail)[0] == k[0]);
        assert((k + tail).drop_first() =~= k.drop_first() + tail);
        assert forall|i: int| 0 <= i < k.drop_first().len() implies !is_key_end(
            #[trigger] k.drop_first()[i],
        ) by {
            assert(k.drop_first()[i] == k[i + 1]);
        }
        lemma_key_end_of(k.drop_first(), tail);
    }
}

proof fn lemma_value_end_of(v: Seq<char>, tail: Seq<char>)
    requires
        forall|i: int| 0 <= i < v.len() ==> !is_whitespace_spec(#[trigger] v[i]),
        tail.len() > 0,
        is_whitespace_spec(tail[0]),
    ensures
        value_end(v + tail) == v.len(),
    decreases v.len(),
{
    if v.len() == 0 {
        assert(v + tail =~= tail);
    } else {
        assert((v + tail)[0] == v[0]);
        assert((v + tail).drop_first() =~= v.drop_first() + tail);
        assert forall|i: int| 0 <= i < v.drop_first().len() implies !is_whitespace_spec(
            #[trigger] v.drop_first()[i],
        ) by {
            assert(v.drop_first()[i] == v[i + 1]);
        }
        lemma_value_end_of(v.drop_first(), tail);
    }
}

/// The pairs found after `acc` do not depend on `acc`.
proof fn lemma_pairs_rule_acc(s: Seq<char>, acc: Seq<(Seq<char>, Seq<char>)>)
    ensures
        pairs_rule(s, acc) == acc + pairs_rule(s, Seq::empty()),
    decreases s.len(),
{
    lemma_next_pair(s);
    let (p, r) = next_pair_rule(s);
    if let Some((k, v)) = p {
        let e2: Seq<(Seq<char>, Seq<char>)> = match v {
            Some(x) => if x.len() > 0 {
                Seq::empty().push((k, x))
            } else {
                Seq::empty()
            },
            None => Seq::empty(),
        };
        let acc2 = acc + e2;
        assert(acc2 =~= match v {
            Some(x) => if x.len() > 0 {
                acc.push((k, x))
            } else {
                acc
            },
            None => acc,
        });
        lemma_pairs_rule_acc(r, acc2);
        lemma_pairs_rule_acc(r, e2);
        assert(acc2 + pairs_rule(r, Seq::empty()) =~= acc + (e2 + pairs_rule(r, Seq::empty())));
    } else {
        assert(acc + Seq::<(Seq<char>, Seq<char>)>::empty() =~= acc);
    }
}

/// Whitespace in front of what is left changes none of the pairs found in it.
proof fn lemma_pairs_rule_trim(s: Seq<char>, acc: Seq<(Seq<char>, Seq<char>)>)
    ensures
        pairs_rule(s, acc) == pairs_rule(trim_start(s), acc),
{
    lemma_trim_start(s);
    let t = trim_start(s);
    if s.len() > 0 && t.len() > 0 {
        assert(trim_start(t) == t);
        lemma_next_pair(s);
        lemma_next_pair(t);
    }
}

/// A well-formed `key=value` pair in front of the rest of a line comes first
/// among the pairs: pairs follow the order of their keys in the line.
pub proof fn lemma_logfmt_pair_comes_first(
    k: Seq<char>,
    v: Seq<char>,
    ws: Seq<char>,
    rest: Seq<char>,
)
    requires
        is_key(k),
        v.len() > 0,
        v[0] != '"',
        forall|i: int| 0 <= i < v.len() ==> !is_whitespace_spec(#[trigger] v[i]),
        ws.len() > 0,
        all_whitespace(ws),
    ensures
        logfmt_pairs(k + seq!['='] + v + ws + rest) == seq![(k, v)] + logfmt_pairs(rest),
{
    let line = k + seq!['='] + v + ws + rest;
    assert(line =~= k + (seq!['='] + (v + (ws + rest))));
    assert(!is_whitespace_spec(line[0])) by {
        if k.len() > 0 {
            assert(line[0] == k[0]);
        } else {
            assert(line[0] == '=');
        }
    }
    assert(trim_start(line) == line);
    lemma_key_end_of(k, seq!['='] + (v + (ws + rest)));
    let r = line.skip(k.len() as int);
    assert(r =~= seq!['='] + (v + (ws + rest)));
    assert(r.drop_first() =~= v + (ws + rest));
    assert((v + (ws + rest))[0] == v[0]);
    assert(ws[0] == (ws + rest)[0]);
    lemma_value_end_of(v, ws + rest);
    assert((v + (ws + rest)).take(v.len() as int) =~= v);
    assert((v + (ws + rest)).skip(v.len() as int) =~= ws + rest);
    assert(next_value_rule(r.drop_first()) == (Some(v), ws + rest));
    assert(next_pair_rule(line) == (Some((k, Some(v))), ws + rest));
    assert(Seq::<(Seq<char>, Seq<char>)>::empty().push((k, v)) =~= seq![(k, v)]);
    assert(pairs_rule(line, Seq::empty()) == pairs_rule(ws + rest, seq![(k, v)]));
    lemma_pairs_rule_acc(ws + rest, seq![(k, v)]);
    lemma_pairs_rule_trim(ws + rest, Seq::empty());
    lemma_trim_start_prefix(ws, rest);
}

/// Text after a closing quote does not move it.
proof fn lemma_closing_quote_extend(s: Seq<char>, t: Seq<char>, escaped: bool, saw: bool)
    requires
        closing_quote(s, escaped, saw) is Some,
    ensures
        closing_quote(s + t, escaped, saw) == closing_quote(s, escaped, saw),
    decreases s.len(),
{
    assert((s + t)[0] == s[0]);
    assert((s + t).drop_first() =~= s.drop_first() + t);
    if escaped {
        lemma_closing_quote_extend(s.drop_first(), t, false, saw);
    } else if s[0] == '\\' {
        lemma_closing_quote_extend(s.drop_first(), t, true, true);
    } else if s[0] != '"' {
        lemma_closing_quote_extend(s.drop_first(), t, false, saw);
    }
}

/// A well-formed `key="value"` pair in front of the rest of a line comes
/// first among the pairs, with its escapes resolved: pairs follow the order
/// of their keys in the line. `body` is the text between the quotes, so no
/// quote in it closes the value and it does not end in an escaping
/// backslash; `v` is the value it stands for.
pub proof fn lemma_logfmt_quoted_pair_comes_first(
    k: Seq<char>,
    body: Seq<char>,
    v: Seq<char>,
    ws: Seq<char>,
    rest: Seq<char>,
)
    requires
        is_key(k),
        closing_quote(body + seq!['"'], false, false) matches Some((i, _)) && i == body.len(),
        quoted_value_rule(body + seq!['"']).0 == Some(v),
        v.len() > 0,
        ws.len() > 0,
        all_whitespace(ws),
    ensures
        logfmt_pairs(k + seq!['=', '"'] + body + seq!['"'] + ws + rest) == seq![(k, v)] + logfmt_pairs(
            rest,
        ),
{
    let q = body + seq!['"'];
    let t = ws + rest;
    let line = k + seq!['=', '"'] + body + seq!['"'] + ws + rest;
    assert(line =~= k + (seq!['='] + (seq!['"'] + (q + t))));
    assert(!is_whitespace_spec(line[0])) by {
        if k.len() > 0 {
            assert(line[0] == k[0]);
        } else {
            assert(line[0] == '=');
        }
    }
    assert(trim_start(line) == line);
    lemma_key_end_of(k, seq!['='] + (seq!['"'] + (q + t)));
    let r = line.skip(k.len() as int);
    assert(r =~= seq!['='] + (seq!['"'] + (q + t)));
    assert(r.drop_first() =~= seq!['"'] + (q + t));
    assert(r.drop_first().drop_first() =~= q + t);
    lemma_closing_quote_extend(q, t, false, false);
    lemma_closing_quote(q, false, false);
    let i = body.len();
    assert((q + t).take(i as int) =~= q.take(i as int));
    assert((q + t).skip(i + 1 as int) =~= t);
    assert(quoted_value_rule(q + t) == (Some(v), t));
    assert(next_value_rule(r.drop_first()) == (Some(v), t));
    assert(next_pair_rule(line) == (Some((k, Some(v))), t));
    assert(Seq::<(Seq<char>, Seq<char>)>::empty().push((k, v)) =~= seq![(k, v)]);
    assert(pairs_rule(line, Seq::empty()) == pairs_rule(t, seq![(k, v)]));
    lemma_pairs_rule_acc(t, seq![(k, v)]);
    lemma_pairs_rule_trim(t, Seq::empty());
    lemma_trim_start_prefix(ws, rest);
}

/// A key with an empty quoted value, `k=""`, yields no pair and does not
/// take the next key.
pub proof fn lemma_logfmt_empty_quoted_value_is_skipped(k: Seq<char>, ws: Seq<char>, rest: Seq<char>)
    requires
        is_key(k),
        ws.len() > 0,
        all_whitespace(ws),
    ensures
        logfmt_pairs(k + seq!['=', '"', '"'] + ws + rest) == logfmt_pairs(rest),
{
    let t = ws + rest;
    let line = k + seq!['=', '"', '"'] + ws + rest;
    assert(line =~= k + (seq!['='] + (seq!['"'] + (seq!['"'] + t))));
    assert(!is_whitespace_spec(line[0])) by {
        if k.len() > 0 {
            assert(line[0] == k[0]);
        } else {
            assert(line[0] == '=');
        }
    }
    assert(trim_start(line) == line);
    lemma_key_end_of(k, seq!['='] + (seq!['"'] + (seq!['"'] + t)));
    let r = line.skip(k.len() as int);
    assert(r =~= seq!['='] + (seq!['"'] + (seq!['"'] + t)));
    assert(r.drop_first() =~= seq!['"'] + (seq!['"'] + t));
    let q = seq!['"'] + t;
    assert(r.drop_first().drop_first() =~= q);
    assert(q[0] == '"');
    assert(closing_quote(q, false, false) == Some((0nat, false)));
    assert(q.take(0) =~= Seq::<char>::empty());
    assert(q.skip(1) =~= t);
    assert(quoted_value_rule(q) == (Some(Seq::<char>::empty()), t));
    assert(next_value_rule(r.drop_first()) == (Some(Seq::<char>::empty()), t));
    assert(next_pair_rule(line) == (Some((k, Some(Seq::<char>::empty()))), t));
    lemma_next_pair(line);
    assert(pairs_rule(line, Seq::empty()) == pairs_rule(t, Seq::empty()));
    lemma_pairs_rule_trim(t, Seq::empty());
    lemma_trim_start_prefix(ws, rest);
}

/// A key with no `=` after it yields no pair and does not take the next key.
pub proof fn lemma_logfmt_bare_key_is_skipped(k: Seq<char>, ws: Seq<char>, rest: Seq<char>)
    requires
        is_key(k),
        k.len() > 0,
        ws.len() > 0,
        all_whitespace(ws),
    ensures
        logfmt_pairs(k + ws + rest) == logfmt_pairs(rest),
{
    let line = k + ws + rest;
    assert(line =~= k + (ws + rest));
    assert(line[0] == k[0]);
    assert(trim_start(line) == line);
    assert((ws + rest)[0] == ws[0]);
    lemma_key_end_of(k, ws + rest);
    assert(line.skip(k.len() as int) =~= ws + rest);
    lemma_next_pair(line);
    lemma_pairs_rule_trim(ws + rest, Seq::empty());
    lemma_trim_start_prefix(ws, rest);
}

/// A key with an empty value yields no pair and does not take the next key.
pub proof fn lemma_logfmt_empty_value_is_skipped(k: Seq<char>, ws: Seq<char>, rest: Seq<char>)
    requires
        is_key(k),
        ws.len() > 0,
        all_whitespace(ws),
    ensures
        logfmt_pairs(k + seq!['='] + ws + rest) == logfmt_pairs(rest),
{
    let line = k + seq!['='] + ws + rest;
    assert(line =~= k + (seq!['='] + (ws + rest)));
    assert(!is_whitespace_spec(line[0])) by {
        if k.len() > 0 {
            assert(line[0] == k[0]);
        } else {
            assert(line[0] == '=');
        }
    }
    assert(trim_start(line) == line);
    lemma_key_end_of(k, seq!['='] + (ws + rest));
    let r = line.skip(k.len() as int);
    assert(r =~= seq!['='] + (ws + rest));
    assert(r.drop_first() =~= ws + rest);
    assert((ws + rest)[0] == ws[0]);
    assert(value_end(ws + rest) == 0);
    assert((ws + rest).take(0) =~= Seq::<char>::empty());
    assert((ws + rest).skip(0) =~= ws + rest);
    lemma_next_pair(line);
    lemma_pairs_rule_trim(ws + rest, Seq::empty());
    lemma_trim_start_prefix(ws, rest);
}

/// Resolving escapes never makes a value longer: one character replaces
/// each escape, and every other character is kept.
pub proof fn lemma_unescape_never_grows(v: Seq<char>)
    ensures
        unescape_rule(v) matches Some(r) ==> r.len() <= v.len(),
    decreases v.len(),
{
    if v.len() > 0 {
        if v[0] != '\\' {
            lemma_unescape_never_grows(v.drop_first());
        } else if v.len() > 1 {
            if v[1] == 'u' {
                let n: int = if v.len() - 2 < 4 {
                    v.len() - 2
                } else {
                    4
                };
                lemma_unescape_never_grows(v.skip(2 + n));
            } else {
                lemma_unescape_never_grows(v.skip(2));
            }
        }
    }
}

proof fn lemma_encode_utf8_add(a: Seq<char>, b: Seq<char>)
    ensures
        encode_utf8(a + b) == encode_utf8(a) + encode_utf8(b),
    decreases a.len(),
{
    if a.len() == 0 {
        assert(a + b =~= b);
        assert(encode_utf8(a) + encode_utf8(b) =~= encode_utf8(b));
    } else {
        assert((a + b)[0] == a[0]);
        assert((a + b).drop_first() =~= a.drop_first() + b);
        lemma_encode_utf8_add(a.drop_first(), b);
        assert(encode_utf8(a + b) =~= encode_scalar(a[0] as u32) + (encode_utf8(a.drop_first())
            + encode_utf8(b)));
    }
}

proof fn lemma_encode_utf8_len(s: Seq<char>)
    ensures
        encode_utf8(s).len() >= s.len(),
    decreases s.len(),
{
    if s.len() > 0 {
        lemma_encode_utf8_len(s.drop_first());
    }
}

/// The bytes of a character put in front of `t`.
proof fn lemma_encode_utf8_prepend(c: char, t: Seq<char>)
    ensures
        encode_utf8(seq![c] + t).len() == encode_scalar(c as u32).len() + encode_utf8(t).len(),
{
    assert((seq![c] + t)[0] == c);
    assert((seq![c] + t).drop_first() =~= t);
}

proof fn lemma_hex_number_bound(s: Seq<char>)
    requires
        all_hex(s),
    ensures
        s.len() <= 1 ==> hex_number(s) <= 0xF,
        s.len() <= 2 ==> hex_number(s) <= 0xFF,
        s.len() <= 3 ==> hex_number(s) <= 0xFFF,
        s.len() <= 4 ==> hex_number(s) <= 0xFFFF,
    decreases s.len(),
{
    if s.len() > 0 {
        assert forall|i: int| 0 <= i < s.drop_last().len() implies (#[trigger] hex_digit(
            s.drop_last()[i],
        )) is Some by {
            assert(s.drop_last()[i] == s[i]);
        }
        lemma_hex_number_bound(s.drop_last());
        assert(hex_digit(s[s.len() - 1]) is Some);
        assert(hex_digit(s.last()).unwrap() <= 15);
    }
}

/// Resolving escapes never makes a value longer in UTF-8 bytes either: a
/// two-byte escape gives a one-byte character, and `\u` with `n` characters
/// after it a character of at most three bytes, where it took `2 + n`.
pub proof fn lemma_unescape_never_grows_in_bytes(v: Seq<char>)
    ensures
        unescape_rule(v) matches Some(r) ==> encode_utf8(r).len() <= encode_utf8(v).len(),
    decreases v.len(),
{
    if v.len() > 0 {
        if v[0] != '\\' {
            let tail = v.drop_first();
            lemma_unescape_never_grows_in_bytes(tail);
            if let Some(t) = unescape_rule(tail) {
                lemma_encode_utf8_prepend(v[0], t);
            }
        } else if v.len() > 1 {
            let n: int = if v[1] == 'u' {
                if v.len() - 2 < 4 {
                    v.len() - 2
                } else {
                    4
                }
            } else {
                0
            };
            let head = v.take(2 + n);
            let tail = v.skip(2 + n);
            assert(v =~= head + tail);
            lemma_encode_utf8_add(head, tail);
            lemma_encode_utf8_len(head);
            lemma_unescape_never_grows_in_bytes(tail);
            if let Some(r) = unescape_rule(v) {
                let t = unescape_rule(tail)->Some_0;
                if v[1] == 'u' {
                    let h = v.subrange(2, 2 + n);
                    let digits = if starts_with(h, '+') {
                        h.drop_first()
                    } else {
                        h
                    };
                    let u = radix16(h)->Some_0;
                    lemma_hex_number_bound(digits);
                    assert(u <= 0xFFFF);
                    assert(n >= 1);
                    let c = u as char;
                    assert(c as u32 == u);
                    assert(r == seq![c] + t);
                    lemma_encode_utf8_prepend(c, t);
                } else {
                    let c = simple_escape(v[1])->Some_0;
                    assert(r == seq![c] + t);
                    lemma_encode_utf8_prepend(c, t);
                }
            }
        }
    }
}

proof fn lemma_hex_number_prefix(s: Seq<char>, k: int)
    requires
        all_hex(s),
        0 <= k <= s.len(),
    ensures
        hex_number(s.take(k)) <= hex_number(s),
    decreases s.len(),
{
    if k < s.len() {
        assert(s.drop_last().take(k) =~= s.take(k));
        assert forall|i: int| 0 <= i < s.drop_last().len() implies (#[trigger] hex_digit(
            s.drop_last()[i],
        )) is Some by {
            assert(s.drop_last()[i] == s[i]);
        }
        lemma_hex_number_prefix(s.drop_last(), k);
        assert(hex_digit(s.last()) is Some);
    } else {
        assert(s.take(k) =~= s);
    }
}

/// The value of a hexadecimal digit, if `c` is one.
fn hex_digit_value(c: char) -> (r: Option<u32>)
    ensures
        match hex_digit(c) {
            Some(d) => r == Some(d as u32),
            None => r is None,
        },
{
    if '0' <= c && c <= '9' {
        Some(c as u32 - '0' as u32)
    } else if 'a' <= c && c <= 'f' {
        Some(c as u32 - 'a' as u32 + 10)
    } else if 'A' <= c && c <= 'F' {
        Some(c as u32 - 'A' as u32 + 10)
    } else {
        None
    }
}

/// What `u32::from_str_radix(s, 16)` gives: an optional `+`, then one or
/// more hexadecimal digits whose value fits in a `u32`.
fn parse_hex(s: &str) -> (r: Option<u32>)
    ensures
        r == radix16(s@),
{
    let v = chars_of(s);
    let start: usize = if v.len() > 0 && v[0] == '+' {
        1
    } else {
        0
    };
    let ghost digits = v@.skip(start as int);
    assert(digits =~= if starts_with(s@, '+') {
        s@.drop_first()
    } else {
        s@
    });
    if start == v.len() {
        return None;
    }
    let mut value: u64 = 0;
    let mut i = start;
    while i < v.len()
        invariant
            start <= i <= v.len(),
            start < v.len(),
            v@ == s@,
            digits == v@.skip(start as int),
            digits == if starts_with(s@, '+') {
                s@.drop_first()
            } else {
                s@
            },
            all_hex(digits.take(i - start)),
            value == hex_number(digits.take(i - start)),
            value <= u32::MAX,
        decreases v.len() - i,
    {
        let ghost k: int = i - start;
        assert(digits.take(k + 1).drop_last() =~= digits.take(k));
        assert(digits.take(k + 1).last() == v@[i as int]);
        let d = match hex_digit_value(v[i]) {
            Some(d) => d,
            None => {
                assert(!all_hex(digits)) by {
                    assert(hex_digit(digits[k]) is None);
                }
                return None;
            },
        };
        assert forall|j: int| 0 <= j < k + 1 implies (#[trigger] hex_digit(
            digits.take(k + 1)[j],
        )) is Some by {
            if j < k {
                assert(digits.take(k + 1)[j] == digits.take(k)[j]);
            }
        }
        value = value * 16 + d as u64;
        i = i + 1;
        if value > u32::MAX as u64 {
            proof {
                if all_hex(digits) {
                    lemma_hex_number_prefix(digits, k + 1);
                }
            }
            return None;
        }
    }
    assert(digits.take(v.len() - start) =~= digits);
    Some(value as u32)
}

/// `char::from_u32(n)`.
#[verifier::external_body]
fn char_from_u32(n: u32) -> (r: Option<char>)
    ensures
        r is Some <==> is_scalar(n),
        r matches Some(c) ==> c == n as char,
{
    char::from_u32(n)
}

/// Splits one logfmt line into its key/value pairs, dropping the keys that
/// have no value or an empty one.
pub fn parse_logfmt(line: &str) -> (labels: Vec<(String, String)>)
    ensures
        pairs_view(labels@) == logfmt_pairs(line@),
        forall|i: int|
            0 <= i < labels@.len() ==> is_key(#[trigger] labels@[i].0@) && labels@[i].1@.len() > 0,
{
    let chars = chars_of(line);
    let mut labels: Vec<(String, String)> = Vec::new();
    let mut pos = skip_whitespace(&chars, 0);
    assert(rest(chars@, 0) =~= line@);
    let ghost target = pairs_rule(rest(chars@, pos as int), Seq::empty());
    assert(pairs_view(labels@) =~= Seq::<(Seq<char>, Seq<char>)>::empty());
    loop
        invariant
            pos <= chars.len(),
            pairs_rule(rest(chars@, pos as int), pairs_view(labels@)) == target,
            target == logfmt_pairs(line@),
            chars@ == line@,
        ensures
            pairs_view(labels@) == target,
        decreases chars.len() - pos,
    {
        let ghost s = rest(chars@, pos as int);
        let ghost acc = pairs_view(labels@);
        proof {
            lemma_next_pair(s);
        }
        match next_pair(&chars, &mut pos) {
            None => {
                assert(pairs_rule(s, acc) == acc);
                break;
            },
            Some((key, value)) => {
                match value {
                    Some(v) => {
                        if !v.as_str().is_empty() {
                            labels.push((key, v));
                            assert(pairs_view(labels@) =~= acc.push((key@, v@)));
                        }
                    },
                    None => {},
                }
            },
        }
    }
    proof {
        lemma_trim_start(line@);
        lemma_pairs_rule(trim_start(line@), Seq::empty());
        assert forall|i: int| 0 <= i < labels@.len() implies is_key(#[trigger] labels@[i].0@)
            && labels@[i].1@.len() > 0 by {
            let pr = pairs_rule(trim_start(line@), Seq::empty());
            assert(pairs_view(labels@)[i] == (labels@[i].0@, labels@[i].1@));
            assert(pr[i] == pairs_view(labels@)[i]);
            assert(is_key(pr[i].0) && pr[i].1.len() > 0);
        }
    }
    labels
}

fn next_pair(line: &Vec<char>, pos: &mut usize) -> (r: Option<(String, Option<String>)>)
    requires
        *old(pos) <= line.len(),
    ensures
        *final(pos) <= line.len(),
        rest(line@, *final(pos) as int) == next_pair_rule(rest(line@, *old(pos) as int)).1,
        match next_pair_rule(rest(line@, *old(pos) as int)).0 {
            None => r is None,
            Some((k, v)) => r matches Some((k2, v2)) && k2@ == k && (match v {
                None => v2 is None,
                Some(x) => v2 matches Some(y) && y@ == x,
            }),
        },
{
    if *pos == line.len() {
        return None;
    }
    *pos = skip_whitespace(line, *pos);
    let ghost t = rest(line@, *pos as int);
    let key = match next_key(line, pos) {
        Some(k) => k,
        None => {
            return None;
        },
    };
    assert(t.skip(key@.len() as int) =~= rest(line@, *pos as int));
    if !eat(line, pos, '=') {
        return Some((key, None));
    }
    let value = next_value(line, pos);
    Some((key, value))
}

fn next_key(line: &Vec<char>, pos: &mut usize) -> (r: Option<String>)
    requires
        *old(pos) <= line.len(),
    ensures
        match key_end(rest(line@, *old(pos) as int)) {
            None => r is None && *final(pos) == *old(pos),
            Some(k) => r matches Some(key) && key@ == rest(line@, *old(pos) as int).take(k as int)
                && *final(pos) == *old(pos) + k && *final(pos) <= line.len(),
        },
{
    let start = *pos;
    let mut i = start;
    while i < line.len() && !(line[i] == '=' || is_whitespace(line[i]))
        invariant
            start <= i <= line.len(),
            key_end(rest(line@, start as int)) == match key_end(rest(line@, i as int)) {
                Some(k) => Some(k + (i - start) as nat),
                None => None::<nat>,
            },
        decreases line.len() - i,
    {
        assert(rest(line@, i as int).drop_first() =~= rest(line@, i + 1));
        i = i + 1;
    }
    if i == line.len() {
        return None;
    }
    let key = string_of(line, start, i);
    assert(rest(line@, start as int).take(i - start) =~= line@.subrange(start as int, i as int));
    *pos = i;
    Some(key)
}

fn next_value(line: &Vec<char>, pos: &mut usize) -> (r: Option<String>)
    requires
        *old(pos) <= line.len(),
    ensures
        *final(pos) <= line.len(),
        rest(line@, *final(pos) as int) == next_value_rule(rest(line@, *old(pos) as int)).1,
        match next_value_rule(rest(line@, *old(pos) as int)).0 {
            None => r is None,
            Some(x) => r matches Some(y) && y@ == x,
        },
{
    if eat(line, pos, '"') {
        quoted_value(line, pos)
    } else {
        unquoted_value(line, pos)
    }
}

fn quoted_value(line: &Vec<char>, pos: &mut usize) -> (r: Option<String>)
    requires
        *old(pos) <= line.len(),
    ensures
        *final(pos) <= line.len(),
        rest(line@, *final(pos) as int) == quoted_value_rule(rest(line@, *old(pos) as int)).1,
        match quoted_value_rule(rest(line@, *old(pos) as int)).0 {
            None => r is None,
            Some(x) => r matches Some(y) && y@ == x,
        },
{
    let start = *pos;
    let ghost s = rest(line@, start as int);
    // the previous char was a backslash
    let mut escaped = false;
    // this value contains at least one
    let mut saw_escape = false;
    let mut i = start;
    #[verifier::loop_isolation(false)]
    while i < line.len()
        invariant
            start <= i <= line.len(),
            *pos == start,
            s == rest(line@, start as int),
            closing_quote(s, false, false) == shift(
                closing_quote(rest(line@, i as int), escaped, saw_escape),
                (i - start) as nat,
            ),
        decreases line.len() - i,
    {
        assert(rest(line@, i as int).drop_first() =~= rest(line@, i + 1));
        let c = line[i];
        if escaped {
            escaped = false;
        } else if c == '\\' {
            escaped = true;
            saw_escape = true;
        } else if c == '"' {
            assert(rest(line@, i as int)[0] == c);
            assert(closing_quote(rest(line@, i as int), false, saw_escape) == Some((0nat, saw_escape)));
            let raw = string_of(line, start, i);
            assert(s.take(i - start) =~= line@.subrange(start as int, i as int));
            assert(s.skip(i - start + 1) =~= rest(line@, i + 1));
            *pos = i + 1;
            if saw_escape {
                return unescape(raw.as_str());
            } else {
                return Some(raw);
            }
        }
        i = i + 1;
    }
    // Unterminated quote: take the rest, as non-strict logfmt does.
    let value = string_of(line, start, line.len());
    assert(rest(line@, line.len() as int) =~= Seq::<char>::empty());
    *pos = line.len();
    Some(value)
}

#[verifier::rlimit(40)]
/// Resolves the escapes of a quoted value. `None` on an unknown escape: the
/// non-strict reader then drops the pair rather than invent a value.
fn unescape(value: &str) -> (r: Option<String>)
    ensures
        match unescape_rule(value@) {
            None => r is None,
            Some(x) => r matches Some(y) && y@ == x,
        },
{
    let v = chars_of(value);
    let mut out = String::new();
    let mut i: usize = 0;
    assert(v@.skip(0) =~= v@);
    proof {
        if let Some(t) = unescape_rule(v@) {
            assert(out@ + t =~= t);
        }
    }
    while i < v.len()
        invariant
            i <= v.len(),
            v@ == value@,
            unescape_rule(v@) == match unescape_rule(v@.skip(i as int)) {
                Some(t) => Some(out@ + t),
                None => None::<Seq<char>>,
            },
        decreases v.len() - i,
    {
        let ghost s = v@.skip(i as int);
        let ghost before = out@;
        let c = v[i];
        if c != '\\' {
            out.push(c);
            assert(s.drop_first() =~= v@.skip(i + 1));
            assert(unescape_rule(s) == prepend(c, unescape_rule(v@.skip(i + 1))));
            proof {
                if let Some(t) = unescape_rule(v@.skip(i + 1)) {
                    assert(before + (seq![c] + t) =~= out@ + t);
                }
            }
            i = i + 1;
        } else {
            if i + 1 == v.len() {
                return None;
            }
            let e = v[i + 1];
            if e == 'u' {
                let end = if v.len() - (i + 2) < 4 {
                    v.len()
                } else {
                    i + 6
                };
                let hex = string_of(&v, i + 2, end);
                let ghost n: int = end - (i + 2);
                assert(s.subrange(2, 2 + n) =~= v@.subrange(i + 2, end as int));
                assert(s.skip(2 + n) =~= v@.skip(end as int));
                let code = match parse_hex(hex.as_str()) {
                    Some(u) => u,
                    None => {
                        return None;
                    },
                };
                let ch = match char_from_u32(code) {
                    Some(ch) => ch,
                    None => {
                        return None;
                    },
                };
                out.push(ch);
                proof {
                    if let Some(t) = unescape_rule(v@.skip(end as int)) {
                        assert(before + (seq![ch] + t) =~= out@ + t);
                    }
                }
                i = end;
            } else {
                let mapped = if e == '"' {
                    '"'
                } else if e == '\\' {
                    '\\'
                } else if e == '/' {
                    '/'
                } else if e == '\'' {
                    '\''
                } else if e == 'b' {
                    '\u{8}'
                } else if e == 'f' {
                    '\u{c}'
                } else if e == 'n' {
                    '\n'
                } else if e == 'r' {
                    '\r'
                } else if e == 't' {
                    '\t'
                } else {
                    return None;
                };
                out.push(mapped);
                assert(s.skip(2) =~= v@.skip(i + 2));
                proof {
                    if let Some(t) = unescape_rule(v@.skip(i + 2)) {
                        assert(before + (seq![mapped] + t) =~= out@ + t);
                    }
                }
                i = i + 2;
            }
        }
    }
    assert(v@.skip(v.len() as int) =~= Seq::<char>::empty());
    assert(out@ + Seq::<char>::empty() =~= out@);
    Some(out)
}

fn unquoted_value(line: &Vec<char>, pos: &mut usize) -> (r: Option<String>)
    requires
        *old(pos) <= line.len(),
    ensures
        *final(pos) <= line.len(),
        ({
            let s = rest(line@, *old(pos) as int);
            &&& r matches Some(y) && y@ == s.take(value_end(s) as int)
            &&& rest(line@, *final(pos) as int) == s.skip(value_end(s) as int)
        }),
{
    let start = *pos;
    let mut i = start;
    while i < line.len() && !is_whitespace(line[i])
        invariant
            start <= i <= line.len(),
            value_end(rest(line@, start as int)) == value_end(rest(line@, i as int)) + (i - start),
        decreases line.len() - i,
    {
        assert(rest(line@, i as int).drop_first() =~= rest(line@, i + 1));
        i = i + 1;
    }
    let value = string_of(line, start, i);
    assert(rest(line@, start as int).take(i - start) =~= line@.subrange(start as int, i as int));
    assert(rest(line@, start as int).skip(i - start) =~= rest(line@, i as int));
    *pos = i;
    Some(value)
}

/// Consumes `c` if it comes next.
fn eat(line: &Vec<char>, pos: &mut usize, c: char) -> (r: bool)
    requires
        *old(pos) <= line.len(),
    ensures
        r == starts_with(rest(line@, *old(pos) as int), c),
        *final(pos) <= line.len(),
        rest(line@, *final(pos) as int) == if r {
            rest(line@, *old(pos) as int).drop_first()
        } else {
            rest(line@, *old(pos) as int)
        },
{
    if *pos < line.len() && line[*pos] == c {
        assert(rest(line@, *pos as int).drop_first() =~= rest(line@, *pos + 1));
        *pos = *pos + 1;
        true
    } else {
        false
    }
}

} // verus!
