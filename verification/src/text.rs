//! Character classes, string scanning, ordering and splitting helpers used
//! by the line grammar and the module hierarchy.

use vstd::prelude::*;

verus! {

/// ASCII decimal digit.
pub open spec fn is_digit_char(c: char) -> bool {
    48 <= c as u32 && c as u32 <= 57
}

/// Whether the standard library classifies `c` as a letter or a number.
/// Its value on a given character is fixed by the Unicode tables compiled
/// into the standard library; nothing else is assumed of it.
pub uninterp spec fn unicode_alphanumeric(c: char) -> bool;

/// Word character: a letter or number, or the underscore.
pub open spec fn is_word_char(c: char) -> bool {
    unicode_alphanumeric(c) || c == '_'
}

/// Horizontal whitespace inside a line.
pub open spec fn is_space_char(c: char) -> bool {
    c == ' ' || c == '\t' || c == '\r'
}

pub fn digit_char(c: char) -> (r: bool)
    ensures
        r == is_digit_char(c),
{
    let u = c as u32;
    48 <= u && u <= 57
}

/// Relies on char::is_alphanumeric: true exactly for the characters whose
/// Unicode general category is a letter or a number, a function of the
/// character alone.
#[verifier::external_body]
fn alphanumeric_char(c: char) -> (r: bool)
    ensures
        r == unicode_alphanumeric(c),
{
    c.is_alphanumeric()
}

pub fn word_char(c: char) -> (r: bool)
    ensures
        r == is_word_char(c),
{
    alphanumeric_char(c) || c == '_'
}

pub fn space_char(c: char) -> (r: bool)
    ensures
        r == is_space_char(c),
{
    c == ' ' || c == '\t' || c == '\r'
}

/// First index at or after `i` whose character fails `p`, or the length of
/// `s` when every later character satisfies `p`.
pub open spec fn scan_while(s: Seq<char>, i: int, p: spec_fn(char) -> bool) -> int
    decreases s.len() - i,
{
    if i < 0 || i >= s.len() {
        s.len() as int
    } else if p(s[i]) {
        scan_while(s, i + 1, p)
    } else {
        i
    }
}

pub proof fn lemma_scan_while(s: Seq<char>, i: int, p: spec_fn(char) -> bool)
    requires
        0 <= i <= s.len(),
    ensures
        i <= scan_while(s, i, p) <= s.len(),
        forall|m: int| i <= m < scan_while(s, i, p) ==> p(s[m]),
        scan_while(s, i, p) < s.len() ==> !p(s[scan_while(s, i, p)]),
    decreases s.len() - i,
{
    if i < s.len() && p(s[i]) {
        lemma_scan_while(s, i + 1, p);
    }
}

/// Scans a run of word characters starting at `i`.
pub fn scan_word(s: &str, i: usize) -> (j: usize)
    requires
        i <= s@.len(),
    ensures
        j == scan_while(s@, i as int, |c: char| is_word_char(c)),
        i <= j <= s@.len(),
{
    proof {
        lemma_scan_while(s@, i as int, |c: char| is_word_char(c));
    }
    let n = s.unicode_len();
    let mut j = i;
    while j < n && word_char(s.get_char(j))
        invariant
            i <= j <= n,
            n == s@.len(),
            scan_while(s@, i as int, |c: char| is_word_char(c)) == scan_while(
                s@,
                j as int,
                |c: char| is_word_char(c),
            ),
        decreases n - j,
    {
        j = j + 1;
    }
    j
}

/// Scans a run of decimal digits starting at `i`.
pub fn scan_digits(s: &str, i: usize) -> (j: usize)
    requires
        i <= s@.len(),
    ensures
        j == scan_while(s@, i as int, |c: char| is_digit_char(c)),
        i <= j <= s@.len(),
{
    proof {
        lemma_scan_while(s@, i as int, |c: char| is_digit_char(c));
    }
    let n = s.unicode_len();
    let mut j = i;
    while j < n && digit_char(s.get_char(j))
        invariant
            i <= j <= n,
            n == s@.len(),
            scan_while(s@, i as int, |c: char| is_digit_char(c)) == scan_while(
                s@,
                j as int,
                |c: char| is_digit_char(c),
            ),
        decreases n - j,
    {
        j = j + 1;
    }
    j
}

/// Scans a run of horizontal whitespace starting at `i`.
pub fn scan_space(s: &str, i: usize) -> (j: usize)
    requires
        i <= s@.len(),
    ensures
        j == scan_while(s@, i as int, |c: char| is_space_char(c)),
        i <= j <= s@.len(),
{
    proof {
        lemma_scan_while(s@, i as int, |c: char| is_space_char(c));
    }
    let n = s.unicode_len();
    let mut j = i;
    while j < n && space_char(s.get_char(j))
        invariant
            i <= j <= n,
            n == s@.len(),
            scan_while(s@, i as int, |c: char| is_space_char(c)) == scan_while(
                s@,
                j as int,
                |c: char| is_space_char(c),
            ),
        decreases n - j,
    {
        j = j + 1;
    }
    j
}

/// A line is blank when it holds nothing but horizontal whitespace.
pub open spec fn is_blank(s: Seq<char>) -> bool {
    forall|i: int| 0 <= i < s.len() ==> is_space_char(s[i])
}

pub fn blank_line(s: &str) -> (r: bool)
    ensures
        r == is_blank(s@),
{
    let j = scan_space(s, 0);
    proof {
        lemma_scan_while(s@, 0, |c: char| is_space_char(c));
    }
    j == s.unicode_len()
}

/// Strict lexicographic order on character sequences, by code point.
pub open spec fn str_lt(a: Seq<char>, b: Seq<char>) -> bool
    decreases a.len(),
{
    if b.len() == 0 {
        false
    } else if a.len() == 0 {
        true
    } else if (a[0] as int) < (b[0] as int) {
        true
    } else if (a[0] as int) > (b[0] as int) {
        false
    } else {
        str_lt(a.drop_first(), b.drop_first())
    }
}

pub proof fn lemma_str_lt_irrefl(a: Seq<char>)
    ensures
        !str_lt(a, a),
    decreases a.len(),
{
    if a.len() > 0 {
        lemma_str_lt_irrefl(a.drop_first());
    }
}

/// Exactly one of `a < b`, `a == b`, `b < a` holds.
pub proof fn lemma_str_lt_total(a: Seq<char>, b: Seq<char>)
    ensures
        !str_lt(a, b) && !str_lt(b, a) ==> a == b,
        str_lt(a, b) ==> !str_lt(b, a),
    decreases a.len(),
{
    if a.len() > 0 && b.len() > 0 && a[0] as int == b[0] as int {
        lemma_str_lt_total(a.drop_first(), b.drop_first());
        if !str_lt(a, b) && !str_lt(b, a) {
            assert(a.drop_first() == b.drop_first());
            let ha = a[0];
            let hb = b[0];
            assert(ha as int == hb as int);
            assert(ha == hb);
            assert(a =~= b) by {
                assert(a.len() == b.len());
                assert forall|i: int| 0 <= i < a.len() implies a[i] == b[i] by {
                    if i > 0 {
                        assert(a[i] == a.drop_first()[i - 1]);
                        assert(b[i] == b.drop_first()[i - 1]);
                    } else {
                        assert(a[0] == b[0]);
                    }
                }
            }
        }
    } else {
        if !str_lt(a, b) && !str_lt(b, a) {
            assert(b.len() == 0);
            assert(a.len() == 0);
            assert(a =~= b);
        }
    }
}

pub proof fn lemma_str_lt_trans(a: Seq<char>, b: Seq<char>, c: Seq<char>)
    requires
        str_lt(a, b),
        str_lt(b, c),
    ensures
        str_lt(a, c),
    decreases a.len(),
{
    if a.len() > 0 && b.len() > 0 && c.len() > 0 && a[0] as int == b[0] as int && b[0] as int
        == c[0] as int {
        lemma_str_lt_trans(a.drop_first(), b.drop_first(), c.drop_first());
    }
}

/// Three-way comparison result for strings.
#[derive(PartialEq, Eq, Structural, Clone, Copy, Debug)]
pub enum StrOrder {
    Before,
    Same,
    After,
}

/// A shared prefix does not decide the order: it is settled by the suffixes.
pub proof fn lemma_str_lt_common_prefix(a: Seq<char>, b: Seq<char>, i: int)
    requires
        0 <= i <= a.len(),
        i <= b.len(),
        a.subrange(0, i) == b.subrange(0, i),
    ensures
        str_lt(a, b) == str_lt(a.skip(i), b.skip(i)),
    decreases i,
{
    if i > 0 {
        assert(a[0] == a.subrange(0, i)[0]);
        assert(b[0] == b.subrange(0, i)[0]);
        assert(a.drop_first().subrange(0, i - 1) =~= b.drop_first().subrange(0, i - 1)) by {
            assert forall|m: int| 0 <= m < i - 1 implies a.drop_first()[m] == b.drop_first()[m] by {
                assert(a.drop_first()[m] == a.subrange(0, i)[m + 1]);
                assert(b.drop_first()[m] == b.subrange(0, i)[m + 1]);
            }
        }
        lemma_str_lt_common_prefix(a.drop_first(), b.drop_first(), i - 1);
        assert(a.drop_first().skip(i - 1) =~= a.skip(i));
        assert(b.drop_first().skip(i - 1) =~= b.skip(i));
    } else {
        assert(a.skip(0) =~= a);
        assert(b.skip(0) =~= b);
    }
}

/// Compares two strings by code point, deciding the `str_lt` order.
pub fn str_compare(a: &str, b: &str) -> (r: StrOrder)
    ensures
        r == StrOrder::Before <==> str_lt(a@, b@),
        r == StrOrder::Same <==> a@ == b@,
        r == StrOrder::After <==> str_lt(b@, a@),
{
    let an = a.unicode_len();
    let bn = b.unicode_len();
    let mut i: usize = 0;
    loop
        invariant
            i <= an,
            i <= bn,
            an == a@.len(),
            bn == b@.len(),
            a@.subrange(0, i as int) =~= b@.subrange(0, i as int),
        decreases an - i,
    {
        proof {
            lemma_str_lt_total(a@, b@);
            lemma_str_lt_common_prefix(a@, b@, i as int);
            lemma_str_lt_common_prefix(b@, a@, i as int);
        }
        if i >= an || i >= bn {
            if an == bn {
                proof {
                    assert(a@ =~= b@);
                    lemma_str_lt_irrefl(a@);
                }
                return StrOrder::Same;
            } else if an < bn {
                proof {
                    assert(a@.skip(i as int).len() == 0 && b@.skip(i as int).len() > 0);
                    assert(str_lt(a@, b@));
                }
                return StrOrder::Before;
            } else {
                proof {
                    assert(b@.skip(i as int).len() == 0 && a@.skip(i as int).len() > 0);
                    assert(str_lt(b@, a@));
                }
                return StrOrder::After;
            }
        }
        let ca = a.get_char(i);
        let cb = b.get_char(i);
        let ua = ca as u32;
        let ub = cb as u32;
        proof {
            assert(a@.skip(i as int)[0] == a@[i as int]);
            assert(b@.skip(i as int)[0] == b@[i as int]);
        }
        if ua < ub {
            proof {
                assert(str_lt(a@.skip(i as int), b@.skip(i as int)));
            }
            return StrOrder::Before;
        } else if ua > ub {
            proof {
                assert(str_lt(b@.skip(i as int), a@.skip(i as int)));
            }
            return StrOrder::After;
        }
        proof {
            assert(a@.subrange(0, i as int + 1) =~= b@.subrange(0, i as int + 1)) by {
                assert(forall|m: int|
                    0 <= m < i ==> a@.subrange(0, i as int + 1)[m] == a@.subrange(0, i as int)[m]
                        && b@.subrange(0, i as int + 1)[m] == b@.subrange(0, i as int)[m]);
            }
        }
        i = i + 1;
    }
}

/// Decides view equality of two strings.
pub fn str_eq(a: &str, b: &str) -> (r: bool)
    ensures
        r == (a@ == b@),
{
    match str_compare(a, b) {
        StrOrder::Same => true,
        _ => false,
    }
}

/// Whether a module-path separator starts at position `i`.
pub open spec fn sep_at(s: Seq<char>, i: int) -> bool {
    0 <= i && i + 2 <= s.len() && s[i] == ':' && s[i + 1] == ':'
}

/// First position at or after `i` where a separator starts, or the length
/// of `s` when none does.
pub open spec fn find_sep(s: Seq<char>, i: int) -> int
    decreases s.len() - i,
{
    if i < 0 || i + 2 > s.len() {
        s.len() as int
    } else if s[i] == ':' && s[i + 1] == ':' {
        i
    } else {
        find_sep(s, i + 1)
    }
}

pub proof fn lemma_find_sep(s: Seq<char>, i: int)
    requires
        0 <= i <= s.len(),
    ensures
        i <= find_sep(s, i) <= s.len(),
        forall|m: int| i <= m < find_sep(s, i) ==> !sep_at(s, m),
        find_sep(s, i) < s.len() ==> sep_at(s, find_sep(s, i)) && find_sep(s, i) + 2 <= s.len(),
    decreases s.len() - i,
{
    if !(i + 2 > s.len()) && !(s[i] == ':' && s[i + 1] == ':') {
        lemma_find_sep(s, i + 1);
    }
}

/// The segments of `s` from position `p` on, split at each leftmost
/// separator, as the standard two-character split would produce them.
pub open spec fn split_from(s: Seq<char>, p: int) -> Seq<Seq<char>>
    decreases s.len() - p,
    via split_from_dec
{
    let j = find_sep(s, p);
    if p < 0 || p > s.len() || j >= s.len() {
        seq![s.subrange(if 0 <= p <= s.len() { p } else { 0 }, s.len() as int)]
    } else {
        seq![s.subrange(p, j)] + split_from(s, j + 2)
    }
}

#[via_fn]
proof fn split_from_dec(s: Seq<char>, p: int) {
    if 0 <= p <= s.len() {
        lemma_find_sep(s, p);
    }
}

/// The module path split into segments at each `::`.
pub open spec fn split_path_spec(s: Seq<char>) -> Seq<Seq<char>> {
    split_from(s, 0)
}

pub proof fn lemma_split_from_len(s: Seq<char>, p: int)
    requires
        0 <= p <= s.len(),
    ensures
        split_from(s, p).len() >= 1,
    decreases s.len() - p,
{
    let j = find_sep(s, p);
    if j < s.len() {
        lemma_find_sep(s, p);
        lemma_split_from_len(s, j + 2);
    }
}

/// Each split consumes at least two characters, so a path of `n`
/// characters has few segments.
pub proof fn lemma_split_from_count(s: Seq<char>, p: int)
    requires
        0 <= p <= s.len(),
    ensures
        2 * (split_from(s, p).len() - 1) <= s.len() - p,
        split_from(s, p).len() >= 1,
    decreases s.len() - p,
{
    let j = find_sep(s, p);
    lemma_find_sep(s, p);
    if j < s.len() {
        lemma_split_from_count(s, j + 2);
    }
}

/// Splits a module path into its `::`-separated segments.
#[verifier::loop_isolation(false)]
pub fn split_path(s: &str) -> (segs: Vec<String>)
    ensures
        segs.deep_view() == split_path_spec(s@),
        segs.len() >= 1,
        2 * split_path_spec(s@).len() <= usize::MAX as int + 2,
{
    proof {
        lemma_split_from_count(s@, 0);
    }
    let n = s.unicode_len();
    let mut segs: Vec<String> = Vec::new();
    let mut p: usize = 0;
    loop
        invariant
            p <= n,
            n == s@.len(),
            split_from(s@, 0) == segs.deep_view() + split_from(s@, p as int),
        decreases n - p,
    {
        proof {
            lemma_find_sep(s@, p as int);
        }
        // scan for the next separator
        let mut j = p;
        let mut found = false;
        while !found && n >= 2 && j <= n - 2
            invariant
                p <= j,
                j <= n,
                n == s@.len(),
                found ==> sep_at(s@, j as int) && j + 2 <= n,
                find_sep(s@, p as int) == if found {
                    j as int
                } else {
                    find_sep(s@, j as int)
                },
            decreases n - j + (if found {
                0int
            } else {
                1int
            }),
        {
            if s.get_char(j) == ':' && s.get_char(j + 1) == ':' {
                found = true;
            } else {
                j = j + 1;
            }
        }
        proof {
            if !found {
                assert(find_sep(s@, j as int) == n as int);
            }
        }
        if found {
            let piece = s.substring_char(p, j).to_owned();
            proof {
                let ghost old_segs = segs.deep_view();
                assert((segs.deep_view().push(piece@)) =~= old_segs + seq![
                    s@.subrange(p as int, j as int),
                ]);
            }
            let ghost prev = segs.deep_view();
            segs.push(piece);
            proof {
                assert(segs.deep_view() =~= prev.push(s@.subrange(p as int, j as int)));
                assert(split_from(s@, p as int) == seq![s@.subrange(p as int, j as int)]
                    + split_from(s@, j + 2));
                assert(segs.deep_view() + split_from(s@, j + 2 as int) =~= prev + split_from(
                    s@,
                    p as int,
                ));
            }
            p = j + 2;
        } else {
            let piece = s.substring_char(p, n).to_owned();
            let ghost prev = segs.deep_view();
            segs.push(piece);
            proof {
                assert(split_from(s@, p as int) == seq![s@.subrange(p as int, n as int)]);
                assert(segs.deep_view() =~= prev.push(s@.subrange(p as int, n as int)));
                assert(segs.deep_view() =~= prev + split_from(s@, p as int));
                lemma_split_from_len(s@, 0);
            }
            return segs;
        }
    }
}

} // verus!
