//! One parsed, possibly multi-line, structured log record, and its display
//! height in rendered rows.

use vstd::prelude::*;

verus! {

/// Mathematical model of a log record.
#[verifier::ext_equal]
pub ghost struct EntryView {
    pub timestamp: Seq<char>,
    pub level: Seq<char>,
    pub target: Seq<char>,
    pub message: Seq<char>,
    pub fields: Seq<(Seq<char>, Seq<char>)>,
}

/// One structured log entry.  Immutable once parsed.
pub struct LogEntry {
    pub timestamp: String,
    pub level: String,
    pub target: String,
    pub message: String,
    pub fields: Vec<(String, String)>,
}

impl View for LogEntry {
    type V = EntryView;

    open spec fn view(&self) -> EntryView {
        EntryView {
            timestamp: self.timestamp@,
            level: self.level@,
            target: self.target@,
            message: self.message@,
            fields: Seq::new(self.fields@.len(), |i: int| (self.fields@[i].0@, self.fields@[i].1@)),
        }
    }
}

impl DeepView for LogEntry {
    type V = EntryView;

    open spec fn deep_view(&self) -> EntryView {
        self.view()
    }
}

impl LogEntry {
    /// A copy whose model is the same record.
    pub fn duplicate(&self) -> (r: LogEntry)
        ensures
            r@ == self@,
    {
        let mut fs: Vec<(String, String)> = Vec::new();
        let n = self.fields.len();
        let mut i: usize = 0;
        while i < n
            invariant
                i <= n,
                n == self.fields@.len(),
                fs@.len() == i,
                forall|k: int|
                    0 <= k < i ==> fs@[k].0@ == self.fields@[k].0@ && fs@[k].1@
                        == self.fields@[k].1@,
            decreases n - i,
        {
            let pair = (self.fields[i].0.clone(), self.fields[i].1.clone());
            fs.push(pair);
            i = i + 1;
        }
        let r = LogEntry {
            timestamp: self.timestamp.clone(),
            level: self.level.clone(),
            target: self.target.clone(),
            message: self.message.clone(),
            fields: fs,
        };
        proof {
            assert(r@ =~= self@);
        }
        r
    }
}

/// Number of newline characters among the first `upto` characters.
pub open spec fn count_nl(s: Seq<char>, upto: int) -> int
    decreases upto,
{
    if upto <= 0 {
        0
    } else {
        count_nl(s, upto - 1) + if 0 <= upto - 1 < s.len() && s[upto - 1] == '\n' {
            1int
        } else {
            0int
        }
    }
}

pub proof fn lemma_count_nl_bounds(s: Seq<char>, upto: int)
    ensures
        0 <= count_nl(s, upto) <= (if upto >= 0 {
            upto
        } else {
            0
        }),
    decreases upto,
{
    if upto > 0 {
        lemma_count_nl_bounds(s, upto - 1);
    }
}

/// Number of rendered rows a message occupies: one more than its inner
/// newlines, where a trailing newline opens no further row.  An entry
/// always occupies at least its one header row, so an empty message still
/// counts one.
pub open spec fn line_count(s: Seq<char>) -> int {
    1 + count_nl(s, s.len() - 1)
}

/// Number of rendered rows of one entry: always at least one.
pub open spec fn display_lines(e: EntryView) -> int {
    line_count(e.message)
}

/// Computes the display height of an entry's message.
pub fn calculate_display_lines(entry: &LogEntry) -> (r: usize)
    ensures
        r == display_lines(entry@),
        r >= 1,
{
    let m: &str = entry.message.as_str();
    let n = m.unicode_len();
    if n == 0 {
        return 1;
    }
    let mut count: usize = 1;
    let mut i: usize = 0;
    while i < n - 1
        invariant
            n == m@.len(),
            n >= 1,
            i <= n - 1,
            count == 1 + count_nl(m@, i as int),
            count <= i + 1,
            count >= 1,
        decreases n - i,
    {
        if m.get_char(i) == '\n' {
            count = count + 1;
        }
        i = i + 1;
    }
    count
}

/// Total rendered rows of the entries of `s`, in order.
pub open spec fn total_rows(s: Seq<EntryView>) -> int
    decreases s,
{
    if s.len() == 0 {
        0
    } else {
        total_rows(s.drop_last()) + display_lines(s.last())
    }
}

pub proof fn lemma_total_rows_nonneg(s: Seq<EntryView>)
    ensures
        total_rows(s) >= 0,
        s.len() == 0 ==> total_rows(s) == 0,
    decreases s,
{
    if s.len() > 0 {
        lemma_total_rows_nonneg(s.drop_last());
        lemma_count_nl_bounds(s.last().message, s.last().message.len() - 1);
    }
}

/// Every entry adds at least one row: the total covers the entry count.
pub proof fn lemma_total_rows_at_least_len(s: Seq<EntryView>)
    ensures
        total_rows(s) >= s.len(),
    decreases s,
{
    if s.len() > 0 {
        lemma_total_rows_at_least_len(s.drop_last());
        lemma_count_nl_bounds(s.last().message, s.last().message.len() - 1);
    }
}

} // verus!
