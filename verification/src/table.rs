//! The rows of the log table, and the files a source names.
//!
//! Reading a file, asking the clock and resolving a glob are the caller's; this
//! module turns what they return into rows and into the list of files to read.

use crate::text::{rest, chars_of, debug_quoted, is_whitespace_spec, lemma_trim_start, quote_debug, skip_whitespace, string_of, trim_start};
use vstd::prelude::*;

verus! {

/// One line of a log file, as the table holds it. `labels` is empty until a
/// pipeline stage fills it, so a row carries none.
#[derive(Debug, Clone, PartialEq, Eq)]
pub struct LogRow {
    /// The time the file was read, plus the line's index: a monotonic line
    /// index that keeps file order.
    pub timestamp: i64,
    pub line: String,
    pub filename: String,
}

pub struct SpecLogRow {
    pub timestamp: int,
    pub line: Seq<char>,
    pub filename: Seq<char>,
}

impl View for LogRow {
    type V = SpecLogRow;

    open spec fn view(&self) -> SpecLogRow {
        SpecLogRow { timestamp: self.timestamp as int, line: self.line@, filename: self.filename@ }
    }
}

/// The position of the first `\n`, if any.
pub open spec fn newline_index(s: Seq<char>) -> Option<nat>
    decreases s.len(),
{
    if s.len() == 0 {
        None
    } else if s[0] == '\n' {
        Some(0)
    } else {
        match newline_index(s.drop_first()) {
            Some(k) => Some(k + 1),
            None => None,
        }
    }
}

/// A line without the `\r` of a `\r\n` ending.
pub open spec fn strip_cr(l: Seq<char>) -> Seq<char> {
    if l.len() > 0 && l.last() == '\r' {
        l.drop_last()
    } else {
        l
    }
}

/// The lines of `s`, as `str::lines` gives them: split at `\n` or `\r\n`, the
/// ending not included, and a final line ending optional.
pub open spec fn lines_spec(s: Seq<char>) -> Seq<Seq<char>>
    decreases s.len(),
{
    if s.len() == 0 {
        Seq::empty()
    } else {
        proof {
            lemma_newline_index(s);
        }
        match newline_index(s) {
            None => seq![s],
            Some(k) => seq![strip_cr(s.take(k as int))] + lines_spec(s.skip(k + 1 as int)),
        }
    }
}

pub proof fn lemma_newline_index(s: Seq<char>)
    ensures
        newline_index(s) matches Some(k) ==> k < s.len(),
    decreases s.len(),
{
    if s.len() > 0 && s[0] != '\n' {
        lemma_newline_index(s.drop_first());
    }
}

proof fn lemma_newline_index_at(s: Seq<char>)
    ensures
        newline_index(s) matches Some(k) ==> k < s.len() && s[k as int] == '\n' && forall|i: int|
            0 <= i < k ==> #[trigger] s[i] != '\n',
        newline_index(s) is None ==> forall|i: int| 0 <= i < s.len() ==> #[trigger] s[i] != '\n',
    decreases s.len(),
{
    if s.len() > 0 && s[0] != '\n' {
        lemma_newline_index_at(s.drop_first());
        assert forall|i: int| 0 < i < s.len() implies #[trigger] s[i] == s.drop_first()[i - 1] by {}
    }
}

/// The lines joined back with `\n` between them.
pub open spec fn join_lines(ls: Seq<Seq<char>>) -> Seq<char>
    decreases ls.len(),
{
    if ls.len() == 0 {
        Seq::empty()
    } else if ls.len() == 1 {
        ls[0]
    } else {
        ls[0] + seq!['\n'] + join_lines(ls.drop_first())
    }
}

/// Each line followed by its ending, all put together.
pub open spec fn with_endings(ls: Seq<Seq<char>>, ends: Seq<Seq<char>>) -> Seq<char>
    decreases ls.len(),
{
    if ls.len() == 0 || ends.len() == 0 {
        Seq::empty()
    } else {
        ls[0] + ends[0] + with_endings(ls.drop_first(), ends.drop_first())
    }
}

/// Where no `\r` occurs, the lines are the text between the `\n`s,
/// character for character: joined back with `\n` they give the contents,
/// without a final `\n`.
pub proof fn lemma_lines_join_back(s: Seq<char>)
    requires
        forall|i: int| 0 <= i < s.len() ==> #[trigger] s[i] != '\r',
    ensures
        join_lines(lines_spec(s)) == if s.len() > 0 && s.last() == '\n' {
            s.drop_last()
        } else {
            s
        },
    decreases s.len(),
{
    if s.len() > 0 {
        lemma_newline_index_at(s);
        match newline_index(s) {
            None => {
                assert(s[s.len() - 1] != '\n');
            },
            Some(k) => {
                let head = s.take(k as int);
                let r = s.skip(k + 1 as int);
                if head.len() > 0 {
                    assert(head.last() == s[k - 1]);
                }
                assert(strip_cr(head) == head);
                assert forall|i: int| 0 <= i < r.len() implies #[trigger] r[i] != '\r' by {
                    assert(r[i] == s[i + k + 1]);
                }
                lemma_lines_join_back(r);
                let ls = lines_spec(s);
                assert(ls == seq![head] + lines_spec(r));
                if r.len() == 0 {
                    assert(ls =~= seq![head]);
                    assert(s.drop_last() =~= head);
                } else {
                    assert(lines_spec(r).len() > 0);
                    assert(ls.drop_first() =~= lines_spec(r));
                    assert(r.last() == s.last());
                    if s.last() == '\n' {
                        assert(s.drop_last() =~= head + seq!['\n'] + r.drop_last());
                    } else {
                        assert(s =~= head + seq!['\n'] + r);
                    }
                }
            },
        }
    }
}

/// The lines and their endings make up the contents, character for
/// character: every line holds no `\n`, each is followed by `\n` or `\r\n`
/// (the last one may have no ending), and a line followed by a bare `\n`
/// does not end in `\r`, which belongs to the ending.
pub proof fn lemma_lines_and_endings_make_the_contents(s: Seq<char>) -> (ends: Seq<Seq<char>>)
    ensures
        ends.len() == lines_spec(s).len(),
        with_endings(lines_spec(s), ends) == s,
        forall|i: int, j: int|
            0 <= i < lines_spec(s).len() && 0 <= j < lines_spec(s)[i].len() ==> #[trigger] lines_spec(s)[i][j]
                != '\n',
        forall|i: int|
            0 <= i < ends.len() ==> {
                ||| #[trigger] ends[i] == seq!['\r', '\n']
                ||| ends[i] == seq!['\n'] && !(lines_spec(s)[i].len() > 0 && lines_spec(s)[i].last() == '\r')
                ||| ends[i].len() == 0 && i == ends.len() - 1
            },
    decreases s.len(),
{
    if s.len() == 0 {
        return Seq::empty();
    }
    lemma_newline_index_at(s);
    let ls = lines_spec(s);
    match newline_index(s) {
        None => {
            let ends = seq![Seq::<char>::empty()];
            assert(ls == seq![s]);
            assert(ls.drop_first() =~= Seq::<Seq<char>>::empty());
            assert(s + Seq::<char>::empty() + Seq::<char>::empty() =~= s);
            assert(with_endings(ls, ends) == s + ends[0] + with_endings(ls.drop_first(), ends.drop_first()));
            ends
        },
        Some(k) => {
            let head = s.take(k as int);
            let r = s.skip(k + 1 as int);
            let line = strip_cr(head);
            let e: Seq<char> = if head.len() > 0 && head.last() == '\r' {
                seq!['\r', '\n']
            } else {
                seq!['\n']
            };
            assert(line + e =~= s.take(k + 1 as int));
            let er = lemma_lines_and_endings_make_the_contents(r);
            let ends = seq![e] + er;
            assert(ls == seq![line] + lines_spec(r));
            assert(ls.drop_first() =~= lines_spec(r));
            assert(ends.drop_first() =~= er);
            assert(with_endings(ls, ends) == line + e + with_endings(lines_spec(r), er));
            assert(s =~= s.take(k + 1 as int) + r);
            assert forall|i: int, j: int|
                0 <= i < ls.len() && 0 <= j < ls[i].len() implies #[trigger] ls[i][j] != '\n' by {
                if i == 0 {
                    assert(ls[0] == line);
                    assert(line[j] == s[j]);
                } else {
                    assert(ls[i] == lines_spec(r)[i - 1]);
                }
            }
            assert forall|i: int| 0 <= i < ends.len() implies {
                ||| #[trigger] ends[i] == seq!['\r', '\n']
                ||| ends[i] == seq!['\n'] && !(ls[i].len() > 0 && ls[i].last() == '\r')
                ||| ends[i].len() == 0 && i == ends.len() - 1
            } by {
                if i > 0 {
                    assert(ends[i] == er[i - 1]);
                    assert(ls[i] == lines_spec(r)[i - 1]);
                } else {
                    assert(ls[0] == line);
                }
            }
            ends
        },
    }
}

/// The rows of one file: line `i` of `contents`, stamped `ingested_at + i`.
pub fn log_rows(path: &str, contents: &str, ingested_at: i64) -> (rows: Vec<LogRow>)
    requires
        ingested_at + lines_spec(contents@).len() <= i64::MAX + 1,
    ensures
        rows@.len() == lines_spec(contents@).len(),
        forall|i: int|
            #![trigger rows@[i]]
            0 <= i < rows@.len() ==> {
                &&& rows@[i].timestamp == ingested_at + i
                &&& rows@[i].line@ == lines_spec(contents@)[i]
                &&& rows@[i].filename@ == path@
            },
{
    let chars = chars_of(contents);
    let ghost all = lines_spec(contents@);
    let mut rows: Vec<LogRow> = Vec::new();
    let mut pos: usize = 0;
    let mut stamp: i64 = ingested_at;
    assert(rest(chars@, 0) =~= contents@);
    assert(all =~= Seq::<Seq<char>>::empty() + lines_spec(rest(chars@, 0)));
    while pos < chars.len()
        invariant
            pos <= chars.len(),
            chars@ == contents@,
            all == lines_spec(contents@),
            ingested_at + all.len() <= i64::MAX + 1,
            all == Seq::new(rows@.len() as nat, |i: int| rows@[i].line@) + lines_spec(rest(chars@, pos as int)),
            pos < chars.len() ==> stamp == ingested_at + rows@.len(),
            forall|i: int|
                #![trigger rows@[i]]
                0 <= i < rows@.len() ==> {
                    &&& rows@[i].timestamp == ingested_at + i
                    &&& rows@[i].line@ == all[i]
                    &&& rows@[i].filename@ == path@
                },
        decreases chars.len() - pos,
    {
        let ghost s = rest(chars@, pos as int);
        let ghost done = Seq::new(rows@.len() as nat, |i: int| rows@[i].line@);
        let mut end = pos;
        while end < chars.len() && chars[end] != '\n'
            invariant
                pos <= end <= chars.len(),
                newline_index(s) == match newline_index(rest(chars@, end as int)) {
                    Some(k) => Some(k + (end - pos) as nat),
                    None => None::<nat>,
                },
                s == rest(chars@, pos as int),
            decreases chars.len() - end,
        {
            assert(rest(chars@, end as int).drop_first() =~= rest(chars@, end + 1));
            end = end + 1;
        }
        let next;
        let line;
        if end < chars.len() {
            // `\n` at `end`; a `\r` just before it belongs to the ending
            assert(rest(chars@, end as int)[0] == '\n');
            let stop = if end > pos && chars[end - 1] == '\r' {
                end - 1
            } else {
                end
            };
            line = string_of(&chars, pos, stop);
            assert(s.take(end - pos) =~= chars@.subrange(pos as int, end as int));
            assert(strip_cr(s.take(end - pos)) =~= chars@.subrange(pos as int, stop as int));
            assert(s.skip(end - pos + 1) =~= rest(chars@, end + 1));
            next = end + 1;
        } else {
            line = string_of(&chars, pos, chars.len());
            assert(s =~= chars@.subrange(pos as int, chars.len() as int));
            assert(rest(chars@, chars.len() as int) =~= Seq::<char>::empty());
            next = chars.len();
        }
        assert(lines_spec(s) == seq![line@] + lines_spec(rest(chars@, next as int)));
        assert(all.len() > rows@.len());
        let row = LogRow { timestamp: stamp, line, filename: String::from_str(path) };
        let ghost before = rows@;
        rows.push(row);
        assert(Seq::new(rows@.len() as nat, |i: int| rows@[i].line@) =~= done.push(row.line@));
        assert(all =~= Seq::new(rows@.len() as nat, |i: int| rows@[i].line@) + lines_spec(
            rest(chars@, next as int),
        ));
        assert forall|i: int| #![trigger rows@[i]] 0 <= i < rows@.len() implies {
            &&& rows@[i].timestamp == ingested_at + i
            &&& rows@[i].line@ == all[i]
            &&& rows@[i].filename@ == path@
        } by {
            if i < before.len() {
                assert(rows@[i] == before[i]);
            } else {
                assert(all[i] == (Seq::new(rows@.len() as nat, |i: int| rows@[i].line@) + lines_spec(
                    rest(chars@, next as int),
                ))[i]);
            }
        }
        pos = next;
        if pos < chars.len() {
            assert(lines_spec(rest(chars@, pos as int)).len() > 0);
            stamp = stamp + 1;
        }
    }
    assert(rest(chars@, pos as int) =~= Seq::<char>::empty());
    assert(all =~= Seq::new(rows@.len() as nat, |i: int| rows@[i].line@));
    rows
}

/// What a source's files are when none of them exists yet.
#[derive(Debug)]
pub enum TableError {
    /// The glob matched no file.
    NoFilesMatch(String),
}

impl TableError {
    pub fn to_string(&self) -> (r: String)
        ensures
            r@ == match self {
                TableError::NoFilesMatch(p) => "no files match "@ + debug_quoted(p@),
            },
    {
        match self {
            TableError::NoFilesMatch(p) => {
                let mut s = String::from_str("no files match ");
                s.append(quote_debug(p.as_str()).as_str());
                s
            },
        }
    }
}

/// Whether `a` comes before `b` in `Path` order, which compares paths
/// component by component.
pub uninterp spec fn path_before(a: Seq<char>, b: Seq<char>) -> bool;

/// Each path is not before the one in front of it.
pub open spec fn is_path_sorted(v: Seq<String>) -> bool {
    forall|i: int| 0 <= i < v.len() - 1 ==> !path_before(#[trigger] v[i + 1]@, v[i]@)
}

/// `<[PathBuf]>::sort` on the paths: the same paths, each not before the one
/// in front of it in `Path` order.
#[verifier::external_body]
fn sort_paths(paths: &mut Vec<String>)
    ensures
        final(paths)@.to_multiset() == old(paths)@.to_multiset(),
        forall|i: int|
            0 <= i < final(paths)@.len() - 1 ==> !path_before(
                #[trigger] final(paths)@[i + 1]@,
                final(paths)@[i]@,
            ),
{
    let mut buf: Vec<std::path::PathBuf> = paths.drain(..).map(std::path::PathBuf::from).collect();
    buf.sort();
    paths.extend(buf.into_iter().map(|p| p.to_string_lossy().into_owned()));
}

/// The files to read for a source: the paths its glob matched, in `Path`
/// order. A source that matches no file is an error, not an empty table.
pub fn select_files(pattern: &str, paths: Vec<String>) -> (r: Result<Vec<String>, TableError>)
    ensures
        paths@.len() == 0 <==> r is Err,
        r matches Err(TableError::NoFilesMatch(p)) ==> p@ == pattern@,
        r matches Ok(v) ==> v@.to_multiset() == paths@.to_multiset() && is_path_sorted(v@),
{
    if paths.len() == 0 {
        return Err(TableError::NoFilesMatch(String::from_str(pattern)));
    }
    let mut sorted = paths;
    sort_paths(&mut sorted);
    proof {
        vstd::seq_lib::to_multiset_len(sorted@);
        vstd::seq_lib::to_multiset_len(paths@);
    }
    Ok(sorted)
}

/// Rejects a source that is blank; whether it exists is for whatever resolves
/// the glob to say (`/dev/stdin` is not a regular file).
pub fn parse_source(s: &str) -> (r: Result<String, String>)
    ensures
        r is Err <==> (forall|i: int| 0 <= i < s@.len() ==> is_whitespace_spec(#[trigger] s@[i])),
        r matches Err(m) ==> m@ == "must not be empty"@,
        r matches Ok(v) ==> v@ == s@,
{
    let chars = chars_of(s);
    let blank = skip_whitespace(&chars, 0) == chars.len();
    proof {
        assert(chars@.subrange(0, chars@.len() as int) =~= s@);
        lemma_trim_start(s@);
        let t = trim_start(s@);
        if t.len() > 0 {
            let k = s@.len() - t.len();
            assert(t[0] == s@[k]);
        }
    }
    if blank {
        Err(String::from_str("must not be empty"))
    } else {
        Ok(String::from_str(s))
    }
}

} // verus!
