//! Character classes and whitespace trimming over `Seq<char>`, shared by the
//! query scanner, the logfmt reader and the log table.

use vstd::prelude::*;

verus! {

pub assume_specification[ std::string::String::push ](s: &mut String, ch: char)
    ensures
        final(s)@ == old(s)@.push(ch),
;

/// The Unicode `White_Space` property, which is what `char::is_whitespace` tests.
pub open spec fn is_whitespace_spec(c: char) -> bool {
    let u = c as u32;
    ||| 0x09 <= u <= 0x0D
    ||| u == 0x20
    ||| u == 0x85
    ||| u == 0xA0
    ||| u == 0x1680
    ||| 0x2000 <= u <= 0x200A
    ||| u == 0x2028
    ||| u == 0x2029
    ||| u == 0x202F
    ||| u == 0x205F
    ||| u == 0x3000
}

pub fn is_whitespace(c: char) -> (r: bool)
    ensures
        r == is_whitespace_spec(c),
{
    let u = c as u32;
    (0x09 <= u && u <= 0x0D) || u == 0x20 || u == 0x85 || u == 0xA0 || u == 0x1680 || (0x2000 <= u
        && u <= 0x200A) || u == 0x2028 || u == 0x2029 || u == 0x202F || u == 0x205F || u == 0x3000
}

pub open spec fn is_ascii_alphabetic_spec(c: char) -> bool {
    ('a' <= c <= 'z') || ('A' <= c <= 'Z')
}

pub open spec fn is_ascii_alphanumeric_spec(c: char) -> bool {
    is_ascii_alphabetic_spec(c) || ('0' <= c <= '9')
}

pub fn is_ascii_alphabetic(c: char) -> (r: bool)
    ensures
        r == is_ascii_alphabetic_spec(c),
{
    ('a' <= c && c <= 'z') || ('A' <= c && c <= 'Z')
}

pub fn is_ascii_alphanumeric(c: char) -> (r: bool)
    ensures
        r == is_ascii_alphanumeric_spec(c),
{
    is_ascii_alphabetic(c) || ('0' <= c && c <= '9')
}

/// `s` without its leading whitespace, as `str::trim_start` computes it.
pub open spec fn trim_start(s: Seq<char>) -> Seq<char>
    decreases s.len(),
{
    if s.len() > 0 && is_whitespace_spec(s[0]) {
        trim_start(s.drop_first())
    } else {
        s
    }
}

/// `trim_start` removes a prefix, made of whitespace only, and nothing else.
pub proof fn lemma_trim_start(s: Seq<char>)
    ensures
        trim_start(s).len() <= s.len(),
        trim_start(s) == s.skip(s.len() - trim_start(s).len()),
        forall|i: int| 0 <= i < s.len() - trim_start(s).len() ==> is_whitespace_spec(#[trigger] s[i]),
        trim_start(s).len() > 0 ==> !is_whitespace_spec(trim_start(s)[0]),
    decreases s.len(),
{
    if s.len() > 0 && is_whitespace_spec(s[0]) {
        lemma_trim_start(s.drop_first());
        let t = trim_start(s);
        assert(t == s.drop_first().skip(s.drop_first().len() - t.len()));
        assert(s.drop_first().skip(s.drop_first().len() - t.len()) =~= s.skip(s.len() - t.len()));
        assert forall|i: int| 0 <= i < s.len() - t.len() implies is_whitespace_spec(#[trigger] s[i]) by {
            if i > 0 {
                assert(s[i] == s.drop_first()[i - 1]);
            }
        }
    } else {
        assert(s.skip(0) =~= s);
    }
}

/// The position of the first non-whitespace character of `v` at or after `from`.
pub fn skip_whitespace(v: &Vec<char>, from: usize) -> (i: usize)
    requires
        from <= v.len(),
    ensures
        from <= i <= v.len(),
        v@.subrange(i as int, v.len() as int) == trim_start(v@.subrange(from as int, v.len() as int)),
{
    let mut i = from;
    while i < v.len() && is_whitespace(v[i])
        invariant
            from <= i <= v.len(),
            trim_start(v@.subrange(i as int, v.len() as int)) == trim_start(
                v@.subrange(from as int, v.len() as int),
            ),
        decreases v.len() - i,
    {
        assert(v@.subrange(i as int, v.len() as int).drop_first() =~= v@.subrange(
            i + 1,
            v.len() as int,
        ));
        i = i + 1;
    }
    i
}

/// `v[pos..]`.
pub open spec fn rest(v: Seq<char>, pos: int) -> Seq<char> {
    v.subrange(pos, v.len() as int)
}

/// Copies `v[from..to]` into a new `String`.
pub fn string_of(v: &Vec<char>, from: usize, to: usize) -> (s: String)
    requires
        from <= to <= v.len(),
    ensures
        s@ == v@.subrange(from as int, to as int),
{
    let mut s = String::new();
    let mut i = from;
    while i < to
        invariant
            from <= i <= to <= v.len(),
            s@ == v@.subrange(from as int, i as int),
        decreases to - i,
    {
        s.push(v[i]);
        assert(v@.subrange(from as int, i + 1) =~= v@.subrange(from as int, i as int).push(v@[i as int]));
        i = i + 1;
    }
    s
}

/// The characters of `s`, in order.
pub fn chars_of(s: &str) -> (v: Vec<char>)
    ensures
        v@ == s@,
{
    let mut v: Vec<char> = Vec::new();
    for c in it: s.chars()
        invariant
            v@ == it.seq().take(it.index()),
    {
        v.push(c);
    }
    v
}

} // verus!

verus! {

/// What `{:?}` renders a string as: in double quotes, with quotes, backslashes
/// and control characters escaped.
pub uninterp spec fn debug_quoted(s: Seq<char>) -> Seq<char>;

/// `format!("{:?}", s)`.
#[verifier::external_body]
pub(crate) fn quote_debug(s: &str) -> (r: String)
    ensures
        r@ == debug_quoted(s@),
{
    format!("{:?}", s)
}

} // verus!

verus! {

pub open spec fn all_whitespace(s: Seq<char>) -> bool {
    forall|i: int| 0 <= i < s.len() ==> is_whitespace_spec(#[trigger] s[i])
}

/// Whitespace in front of `s` is trimmed away with the rest.
pub proof fn lemma_trim_start_prefix(ws: Seq<char>, s: Seq<char>)
    requires
        all_whitespace(ws),
    ensures
        trim_start(ws + s) == trim_start(s),
    decreases ws.len(),
{
    if ws.len() > 0 {
        assert((ws + s)[0] == ws[0]);
        assert((ws + s).drop_first() =~= ws.drop_first() + s);
        lemma_trim_start_prefix(ws.drop_first(), s);
    } else {
        assert(ws + s =~= s);
    }
}

} // verus!

verus! {

pub proof fn lemma_trim_all_whitespace(w: Seq<char>)
    requires
        all_whitespace(w),
    ensures
        trim_start(w).len() == 0,
    decreases w.len(),
{
    if w.len() > 0 {
        lemma_trim_all_whitespace(w.drop_first());
    }
}

/// Whitespace after `s` stays at the end of what trimming leaves.
pub proof fn lemma_trim_start_suffix(s: Seq<char>, w: Seq<char>)
    requires
        all_whitespace(w),
    ensures
        trim_start(s).len() > 0 ==> trim_start(s + w) == trim_start(s) + w,
        trim_start(s).len() == 0 ==> trim_start(s + w).len() == 0,
    decreases s.len(),
{
    if s.len() == 0 {
        assert(s + w =~= w);
        lemma_trim_all_whitespace(w);
    } else {
        assert((s + w)[0] == s[0]);
        if is_whitespace_spec(s[0]) {
            assert((s + w).drop_first() =~= s.drop_first() + w);
            lemma_trim_start_suffix(s.drop_first(), w);
        }
    }
}

} // verus!

verus! {

/// Text after `s` stays at the end of what trimming leaves, once `s` holds
/// something besides whitespace.
pub proof fn lemma_trim_start_extend(s: Seq<char>, x: Seq<char>)
    requires
        trim_start(s).len() > 0,
    ensures
        trim_start(s + x) == trim_start(s) + x,
    decreases s.len(),
{
    assert((s + x)[0] == s[0]);
    if is_whitespace_spec(s[0]) {
        assert((s + x).drop_first() =~= s.drop_first() + x);
        lemma_trim_start_extend(s.drop_first(), x);
    }
}

} // verus!
