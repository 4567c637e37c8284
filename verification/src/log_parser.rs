//! The tolerant line grammar and the multiline stream parser.
//!
//! A line matches the supported pattern exactly when it is
//! `TIMESTAMP SEVERITY TARGET: MESSAGE`: an ISO-8601-like timestamp
//! (`YYYY-MM-DDTHH:MM:SS.f+` with an optional trailing `Z`), a word-token
//! severity, a `::`-separated path of word characters (letters, numbers
//! and the underscore), a literal colon, an
//! optional single space, and the remainder of the line verbatim as the
//! message.  Lines that do not match are not errors: in a stream they are
//! folded into the most recently started entry's message when non-blank,
//! and dropped otherwise.

use vstd::prelude::*;

use crate::entry::{EntryView, LogEntry};
use crate::text::{
    is_blank, is_digit_char, is_space_char, is_word_char, lemma_scan_while, scan_digits,
    scan_space, scan_while, scan_word, blank_line,
};

verus! {

/// Position right after the timestamp token, when `s` starts with one.
pub open spec fn timestamp_end(s: Seq<char>) -> Option<int> {
    if s.len() >= 21 && is_digit_char(s[0]) && is_digit_char(s[1]) && is_digit_char(s[2])
        && is_digit_char(s[3]) && s[4] == '-' && is_digit_char(s[5]) && is_digit_char(s[6])
        && s[7] == '-' && is_digit_char(s[8]) && is_digit_char(s[9]) && s[10] == 'T'
        && is_digit_char(s[11]) && is_digit_char(s[12]) && s[13] == ':' && is_digit_char(s[14])
        && is_digit_char(s[15]) && s[16] == ':' && is_digit_char(s[17]) && is_digit_char(s[18])
        && s[19] == '.' && is_digit_char(s[20]) {
        let f = scan_while(s, 20, |c: char| is_digit_char(c));
        if f < s.len() && s[f] == 'Z' {
            Some(f + 1)
        } else {
            Some(f)
        }
    } else {
        None
    }
}

/// Position right after the target token that starts at `pos`: a run of
/// word characters, continued past each `::` that is followed by another
/// word character.  `None` when no word character stands at `pos`.
pub open spec fn target_end(s: Seq<char>, pos: int) -> Option<int>
    decreases s.len() - pos,
    via target_end_dec
{
    if pos < 0 || pos > s.len() {
        None
    } else {
        let w = scan_while(s, pos, |c: char| is_word_char(c));
        if w == pos {
            None
        } else if w + 2 < s.len() && s[w] == ':' && s[w + 1] == ':' && is_word_char(s[w + 2]) {
            target_end(s, w + 2)
        } else {
            Some(w)
        }
    }
}

#[via_fn]
proof fn target_end_dec(s: Seq<char>, pos: int) {
    if 0 <= pos <= s.len() {
        lemma_scan_while(s, pos, |c: char| is_word_char(c));
    }
}

/// The record a line denotes, when it matches the grammar.
pub open spec fn parse_line_spec(s: Seq<char>) -> Option<EntryView> {
    match timestamp_end(s) {
        None => None,
        Some(te) => {
            let l0 = scan_while(s, te, |c: char| is_space_char(c));
            if l0 == te {
                None
            } else {
                let l1 = scan_while(s, l0, |c: char| is_word_char(c));
                if l1 == l0 {
                    None
                } else {
                    let t0 = scan_while(s, l1, |c: char| is_space_char(c));
                    if t0 == l1 {
                        None
                    } else {
                        match target_end(s, t0) {
                            None => None,
                            Some(t1) => {
                                if t1 >= s.len() || s[t1] != ':' {
                                    None
                                } else {
                                    let m0 = if t1 + 1 < s.len() && s[t1 + 1] == ' ' {
                                        t1 + 2
                                    } else {
                                        t1 + 1
                                    };
                                    Some(
                                        EntryView {
                                            timestamp: s.subrange(0, te),
                                            level: s.subrange(l0, l1),
                                            target: s.subrange(t0, t1),
                                            message: s.subrange(m0, s.len() as int),
                                            fields: Seq::empty(),
                                        },
                                    )
                                }
                            },
                        }
                    }
                }
            }
        },
    }
}

/// Whether a line matches the grammar and starts an entry.
pub open spec fn line_matches(s: Seq<char>) -> bool {
    parse_line_spec(s) is Some
}

/// The parser for the supported line pattern.  It holds no state: the
/// grammar is fixed.
pub struct LogParser {}

impl LogParser {
    pub fn new() -> (p: LogParser) {
        LogParser {  }
    }

    /// Classifies one line: the entry it denotes, or `None` when it does
    /// not match the pattern.
    #[verifier::loop_isolation(false)]
    pub fn parse_line(&self, line: &str) -> (r: Option<LogEntry>)
        ensures
            r is Some <==> parse_line_spec(line@) is Some,
            r is Some ==> r->Some_0@ == parse_line_spec(line@)->Some_0,
    {
        let n = line.unicode_len();
        if n < 21 {
            return None;
        }
        if !(digit_at(line, 0) && digit_at(line, 1) && digit_at(line, 2) && digit_at(line, 3)
            && line.get_char(4) == '-' && digit_at(line, 5) && digit_at(line, 6)
            && line.get_char(7) == '-' && digit_at(line, 8) && digit_at(line, 9)
            && line.get_char(10) == 'T' && digit_at(line, 11) && digit_at(line, 12)
            && line.get_char(13) == ':' && digit_at(line, 14) && digit_at(line, 15)
            && line.get_char(16) == ':' && digit_at(line, 17) && digit_at(line, 18)
            && line.get_char(19) == '.' && digit_at(line, 20)) {
            return None;
        }
        let f = scan_digits(line, 20);
        let te = if f < n && line.get_char(f) == 'Z' {
            f + 1
        } else {
            f
        };
        let l0 = scan_space(line, te);
        if l0 == te {
            return None;
        }
        let l1 = scan_word(line, l0);
        if l1 == l0 {
            return None;
        }
        let t0 = scan_space(line, l1);
        if t0 == l1 {
            return None;
        }
        // the target: word runs joined by `::`
        let mut p = t0;
        let t1: usize;
        loop
            invariant
                t0 <= p <= n,
                n == line@.len(),
                target_end(line@, t0 as int) == target_end(line@, p as int),
            decreases n - p,
        {
            let w = scan_word(line, p);
            if w == p {
                return None;
            }
            if n - w > 2 && line.get_char(w) == ':' && line.get_char(w + 1) == ':' && word_at(
                line,
                w + 2,
            ) {
                p = w + 2;
            } else {
                t1 = w;
                break ;
            }
        }
        if t1 == n {
            return None;
        }
        if line.get_char(t1) != ':' {
            return None;
        }
        let m0 = if t1 + 1 < n && line.get_char(t1 + 1) == ' ' {
            t1 + 2
        } else {
            t1 + 1
        };
        let entry = LogEntry {
            timestamp: line.substring_char(0, te).to_owned(),
            level: line.substring_char(l0, l1).to_owned(),
            target: line.substring_char(t0, t1).to_owned(),
            message: line.substring_char(m0, n).to_owned(),
            fields: Vec::new(),
        };
        proof {
            assert(entry@ =~= parse_line_spec(line@)->Some_0);
        }
        Some(entry)
    }
}

/// First newline at or after `p`, or the length of `s`.
pub open spec fn find_nl(s: Seq<char>, p: int) -> int
    decreases s.len() - p,
{
    if p < 0 || p >= s.len() {
        s.len() as int
    } else if s[p] == '\n' {
        p
    } else {
        find_nl(s, p + 1)
    }
}

pub proof fn lemma_find_nl(s: Seq<char>, p: int)
    requires
        0 <= p <= s.len(),
    ensures
        p <= find_nl(s, p) <= s.len(),
        forall|m: int| p <= m < find_nl(s, p) ==> s[m] != '\n',
        find_nl(s, p) < s.len() ==> s[find_nl(s, p)] == '\n',
    decreases s.len() - p,
{
    if p < s.len() && s[p] != '\n' {
        lemma_find_nl(s, p + 1);
    }
}

/// A piece between newlines, with a carriage return before the newline
/// dropped.
pub open spec fn strip_cr(x: Seq<char>) -> Seq<char> {
    if x.len() > 0 && x.last() == '\r' {
        x.drop_last()
    } else {
        x
    }
}

/// The lines of `s` from position `p` on: pieces between newlines, each
/// with a carriage return before the newline dropped, and nothing after a
/// terminal newline.
pub open spec fn lines_from(s: Seq<char>, p: int) -> Seq<Seq<char>>
    decreases s.len() - p,
    via lines_from_dec
{
    if p < 0 || p >= s.len() {
        Seq::empty()
    } else {
        let j = find_nl(s, p);
        if j >= s.len() {
            seq![s.subrange(p, s.len() as int)]
        } else {
            seq![strip_cr(s.subrange(p, j))] + lines_from(s, j + 1)
        }
    }
}

#[via_fn]
proof fn lines_from_dec(s: Seq<char>, p: int) {
    if 0 <= p < s.len() {
        lemma_find_nl(s, p);
    }
}

/// The lines of a text, as the standard line iterator yields them.
pub open spec fn lines_spec(s: Seq<char>) -> Seq<Seq<char>> {
    lines_from(s, 0)
}

/// Splits a text into its lines.
#[verifier::loop_isolation(false)]
pub fn split_lines(s: &str) -> (r: Vec<String>)
    ensures
        r.deep_view() == lines_spec(s@),
{
    let n = s.unicode_len();
    let mut out: Vec<String> = Vec::new();
    let mut p: usize = 0;
    loop
        invariant
            p <= n,
            lines_from(s@, 0) == out.deep_view() + lines_from(s@, p as int),
        decreases n - p,
    {
        if p == n {
            proof {
                assert(out.deep_view() + lines_from(s@, p as int) =~= out.deep_view());
            }
            return out;
        }
        proof {
            lemma_find_nl(s@, p as int);
        }
        let mut j = p;
        while j < n && s.get_char(j) != '\n'
            invariant
                p <= j <= n,
                find_nl(s@, p as int) == find_nl(s@, j as int),
            decreases n - j,
        {
            j = j + 1;
        }
        let ghost prev = out.deep_view();
        if j == n {
            let piece = s.substring_char(p, n).to_owned();
            out.push(piece);
            proof {
                assert(out.deep_view() =~= prev.push(s@.subrange(p as int, n as int)));
                assert(out.deep_view() =~= prev + lines_from(s@, p as int));
                assert(out.deep_view() + lines_from(s@, n as int) =~= out.deep_view());
            }
            return out;
        } else {
            let e = if j > p && s.get_char(j - 1) == '\r' {
                j - 1
            } else {
                j
            };
            let piece = s.substring_char(p, e).to_owned();
            out.push(piece);
            proof {
                assert(piece@ == strip_cr(s@.subrange(p as int, j as int))) by {
                    if j > p && s@[j - 1] == '\r' {
                        assert(s@.subrange(p as int, j as int).last() == s@[j - 1]);
                        assert(s@.subrange(p as int, j as int).drop_last() =~= s@.subrange(
                            p as int,
                            j - 1,
                        ));
                    } else if j > p {
                        assert(s@.subrange(p as int, j as int).last() == s@[j - 1]);
                    } else {
                        assert(s@.subrange(p as int, j as int).len() == 0);
                    }
                }
                assert(out.deep_view() =~= prev.push(strip_cr(s@.subrange(p as int, j as int))));
                assert(lines_from(s@, p as int) == seq![
                    strip_cr(s@.subrange(p as int, j as int)),
                ] + lines_from(s@, j + 1));
                assert(out.deep_view() + lines_from(s@, j + 1) =~= prev + lines_from(
                    s@,
                    p as int,
                ));
            }
            p = j + 1;
        }
    }
}

/// A continuation line folded onto the open entry, newline-joined.
pub open spec fn append_msg(e: EntryView, line: Seq<char>) -> EntryView {
    EntryView {
        timestamp: e.timestamp,
        level: e.level,
        target: e.target,
        message: e.message + seq!['\n'] + line,
        fields: e.fields,
    }
}

/// The entries denoted by `ls[i..]` when `cur` is the entry currently
/// open: a matching line closes `cur` and opens a new entry; a non-blank,
/// non-matching line is folded onto `cur`; a blank line, or a non-matching
/// line before any match, is dropped; the end of input closes `cur`.
pub open spec fn fold_lines(ls: Seq<Seq<char>>, i: int, cur: Option<EntryView>) -> Seq<EntryView>
    decreases ls.len() - i,
{
    if i < 0 || i >= ls.len() {
        match cur {
            None => Seq::empty(),
            Some(e) => seq![e],
        }
    } else {
        match parse_line_spec(ls[i]) {
            Some(e2) => (match cur {
                None => Seq::empty(),
                Some(e) => seq![e],
            }) + fold_lines(ls, i + 1, Some(e2)),
            None => {
                if is_blank(ls[i]) || cur is None {
                    fold_lines(ls, i + 1, cur)
                } else {
                    fold_lines(ls, i + 1, Some(append_msg(cur->Some_0, ls[i])))
                }
            },
        }
    }
}

/// The entries a stream of lines denotes.
pub open spec fn parse_stream_spec(ls: Seq<Seq<char>>) -> Seq<EntryView> {
    fold_lines(ls, 0, None)
}

/// Number of lines of `ls[i..]` that match the grammar.
pub open spec fn count_matches(ls: Seq<Seq<char>>, i: int) -> int
    decreases ls.len() - i,
{
    if i < 0 || i >= ls.len() {
        0
    } else {
        count_matches(ls, i + 1) + if line_matches(ls[i]) {
            1int
        } else {
            0int
        }
    }
}

/// Law: the stream parser emits exactly one entry per line that matches
/// the grammar; continuation lines never add or drop entries.
pub proof fn lemma_parse_stream_count(ls: Seq<Seq<char>>)
    ensures
        parse_stream_spec(ls).len() == count_matches(ls, 0),
{
    lemma_fold_count(ls, 0, None);
}

proof fn lemma_fold_count(ls: Seq<Seq<char>>, i: int, cur: Option<EntryView>)
    ensures
        fold_lines(ls, i, cur).len() == count_matches(ls, i) + (if cur is Some {
            1int
        } else {
            0int
        }),
    decreases ls.len() - i,
{
    if 0 <= i < ls.len() {
        match parse_line_spec(ls[i]) {
            Some(e2) => {
                lemma_fold_count(ls, i + 1, Some(e2));
            },
            None => {
                if is_blank(ls[i]) || cur is None {
                    lemma_fold_count(ls, i + 1, cur);
                } else {
                    lemma_fold_count(ls, i + 1, Some(append_msg(cur->Some_0, ls[i])));
                }
            },
        }
    }
}

/// The message grown by folding each non-blank line from `i` on, up to
/// the next matching line, onto `m`, newline-joined, in order.
pub open spec fn absorb(ls: Seq<Seq<char>>, i: int, m: Seq<char>) -> Seq<char>
    decreases ls.len() - i,
{
    if i < 0 || i >= ls.len() || line_matches(ls[i]) {
        m
    } else if is_blank(ls[i]) {
        absorb(ls, i + 1, m)
    } else {
        absorb(ls, i + 1, m + seq!['\n'] + ls[i])
    }
}

/// The entry the matching line `i` starts: its own fields, with every
/// following continuation line folded onto the message.
pub open spec fn entry_started_at(ls: Seq<Seq<char>>, i: int) -> EntryView {
    let e = parse_line_spec(ls[i])->Some_0;
    EntryView {
        timestamp: e.timestamp,
        level: e.level,
        target: e.target,
        message: absorb(ls, i + 1, e.message),
        fields: e.fields,
    }
}

/// The open entry leaves the fold first, with the continuation lines
/// before the next match folded onto its message.
proof fn lemma_fold_first(ls: Seq<Seq<char>>, i: int, e: EntryView)
    ensures
        fold_lines(ls, i, Some(e)).len() >= 1,
        fold_lines(ls, i, Some(e))[0] == (EntryView {
            timestamp: e.timestamp,
            level: e.level,
            target: e.target,
            message: absorb(ls, i, e.message),
            fields: e.fields,
        }),
    decreases ls.len() - i,
{
    if i < 0 || i >= ls.len() {
    } else {
        match parse_line_spec(ls[i]) {
            Some(e2) => {
                assert(fold_lines(ls, i, Some(e))[0] == e);
            },
            None => {
                if is_blank(ls[i]) {
                    lemma_fold_first(ls, i + 1, e);
                } else {
                    lemma_fold_first(ls, i + 1, append_msg(e, ls[i]));
                }
            },
        }
    }
}

/// Matching lines cannot make the count of the tail grow backwards.
proof fn lemma_count_matches_step(ls: Seq<Seq<char>>, j: int)
    requires
        0 <= j < ls.len(),
    ensures
        count_matches(ls, j) == count_matches(ls, j + 1) + (if line_matches(ls[j]) {
            1int
        } else {
            0int
        }),
{
}

/// The entry the matching line `i` contributes, found at its place in the
/// fold: after the open entry and one entry per earlier matching line.
proof fn lemma_fold_entry_at(ls: Seq<Seq<char>>, j: int, cur: Option<EntryView>, i: int)
    requires
        0 <= j <= i < ls.len(),
        line_matches(ls[i]),
    ensures
        ({
            let cc: int = if cur is Some {
                1int
            } else {
                0int
            };
            let idx = cc + count_matches(ls, j) - count_matches(ls, i);
            &&& 0 <= idx < fold_lines(ls, j, cur).len()
            &&& fold_lines(ls, j, cur)[idx] == entry_started_at(ls, i)
        }),
    decreases i - j,
{
    lemma_fold_count(ls, j, cur);
    lemma_count_matches_step(ls, j);
    if j == i {
        let e = parse_line_spec(ls[i])->Some_0;
        lemma_fold_first(ls, j + 1, e);
        lemma_fold_count(ls, j + 1, Some(e));
    } else {
        match parse_line_spec(ls[j]) {
            Some(ej) => {
                lemma_fold_entry_at(ls, j + 1, Some(ej), i);
            },
            None => {
                if is_blank(ls[j]) || cur is None {
                    lemma_fold_entry_at(ls, j + 1, cur, i);
                } else {
                    lemma_fold_entry_at(ls, j + 1, Some(append_msg(cur->Some_0, ls[j])), i);
                }
            },
        }
    }
}

/// Law: the stream parser emits, for the matching line `i`, exactly the
/// entry that line denotes with every following non-matching, non-blank
/// line up to the next match folded into its message, newline-joined, in
/// the original order; the entry stands at the position given by the
/// number of earlier matching lines.
pub proof fn lemma_parse_stream_messages(ls: Seq<Seq<char>>, i: int)
    requires
        0 <= i < ls.len(),
        line_matches(ls[i]),
    ensures
        ({
            let idx = count_matches(ls, 0) - count_matches(ls, i);
            &&& 0 <= idx < parse_stream_spec(ls).len()
            &&& parse_stream_spec(ls)[idx] == entry_started_at(ls, i)
        }),
{
    lemma_fold_entry_at(ls, 0, None, i);
}

/// The model of an optional entry.
pub open spec fn opt_entry_view(o: Option<LogEntry>) -> Option<EntryView> {
    match o {
        None => None,
        Some(e) => Some(e@),
    }
}

impl LogParser {
    /// Parses a whole text: matching lines start entries, non-blank
    /// non-matching lines continue the open entry's message, and a leading
    /// run of non-matching lines is dropped.
    pub fn parse_multiline_logs(&self, content: &str) -> (r: Vec<LogEntry>)
        ensures
            r.deep_view() == parse_stream_spec(lines_spec(content@)),
    {
        let lines = split_lines(content);
        parse_logs_from_lines(self, &lines)
    }
}

/// Parses a whole text with the stream semantics, by its lines.
pub fn parse_logs_from_content(parser: &LogParser, content: &str) -> (r: Vec<LogEntry>)
    ensures
        r.deep_view() == parse_stream_spec(lines_spec(content@)),
{
    parser.parse_multiline_logs(content)
}

/// Folds one batch of raw lines with the stream semantics: matching lines
/// start entries, non-blank non-matching lines continue the open entry's
/// message, a leading run of non-matching lines is dropped, and the entry
/// still open at the end of the batch is closed by it.
#[verifier::loop_isolation(false)]
pub fn parse_logs_from_lines(parser: &LogParser, lines: &Vec<String>) -> (r: Vec<LogEntry>)
    ensures
        r.deep_view() == parse_stream_spec(lines.deep_view()),
{
    {
        let ghost lsv = lines.deep_view();
        let n = lines.len();
        let mut out: Vec<LogEntry> = Vec::new();
        let mut cur: Option<LogEntry> = None;
        let mut i: usize = 0;
        while i < n
            invariant
                i <= n,
                n == lsv.len(),
                lsv == lines.deep_view(),
                fold_lines(lsv, 0, None) == out.deep_view() + fold_lines(
                    lsv,
                    i as int,
                    opt_entry_view(cur),
                ),
            decreases n - i,
        {
            proof {
                assert(lsv[i as int] == lines@[i as int]@);
            }
            let parsed = parser.parse_line(lines[i].as_str());
            match parsed {
                Some(e2) => {
                    let ghost prev = out.deep_view();
                    let ghost pcur = opt_entry_view(cur);
                    let finished = cur;
                    cur = Some(e2);
                    match finished {
                        Some(done) => {
                            out.push(done);
                            proof {
                                assert(out.deep_view() =~= prev.push(pcur->Some_0));
                                assert(out.deep_view() + fold_lines(
                                    lsv,
                                    i + 1,
                                    opt_entry_view(cur),
                                ) =~= prev + fold_lines(lsv, i as int, pcur));
                            }
                        },
                        None => {
                            proof {
                                assert(out.deep_view() + fold_lines(
                                    lsv,
                                    i + 1,
                                    opt_entry_view(cur),
                                ) =~= prev + fold_lines(lsv, i as int, pcur));
                            }
                        },
                    }
                },
                None => {
                    if !blank_line(lines[i].as_str()) {
                        match &mut cur {
                            Some(open_entry) => {
                                let ghost before = open_entry@;
                                open_entry.message.append("\n");
                                open_entry.message.append(lines[i].as_str());
                                proof {
                                    reveal_strlit("\n");
                                    assert(open_entry@ =~= append_msg(before, lsv[i as int]));
                                }
                            },
                            None => {},
                        }
                    }
                },
            }
            i = i + 1;
        }
        match cur {
            Some(done) => {
                let ghost prev = out.deep_view();
                let ghost pcur = opt_entry_view(cur);
                out.push(done);
                proof {
                    assert(out.deep_view() =~= prev.push(pcur->Some_0));
                    assert(fold_lines(lsv, n as int, pcur) =~= seq![pcur->Some_0]);
                    assert(out.deep_view() =~= prev + fold_lines(lsv, n as int, pcur));
                }
            },
            None => {
                proof {
                    assert(fold_lines(lsv, n as int, opt_entry_view(cur)) =~= Seq::<
                        EntryView,
                    >::empty());
                    assert(out.deep_view() + fold_lines(lsv, n as int, opt_entry_view(cur)) =~= (
                    out.deep_view()));
                }
            },
        }
        out
    }
}

fn digit_at(s: &str, i: usize) -> (r: bool)
    requires
        i < s@.len(),
    ensures
        r == is_digit_char(s@[i as int]),
{
    let c = s.get_char(i);
    let u = c as u32;
    48 <= u && u <= 57
}

fn word_at(s: &str, i: usize) -> (r: bool)
    requires
        i < s@.len(),
    ensures
        r == is_word_char(s@[i as int]),
{
    crate::text::word_char(s.get_char(i))
}

} // verus!
