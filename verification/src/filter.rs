//! The severity filter over the closed set of five levels, the filter
//! fingerprint, and the visible-subset computation the cache maintains.

use vstd::prelude::*;

use crate::entry::EntryView;
use crate::module_tree::{sel_walk, ModuleTree, TreeView, tree_view, child_views, lemma_child_views};
use crate::text::{split_path_spec, str_eq};

verus! {

/// Which of the five severity levels pass the filter.
#[derive(PartialEq, Eq, Structural, Clone, Copy, Debug)]
pub struct LevelFilter {
    pub error: bool,
    pub warn: bool,
    pub info: bool,
    pub debug: bool,
    pub trace: bool,
}

/// Whether entries of severity `level` pass `f`.  Severities outside the
/// closed five-level vocabulary never pass.
pub open spec fn level_active(f: LevelFilter, level: Seq<char>) -> bool {
    ||| (level == "ERROR"@ && f.error)
    ||| (level == "WARN"@ && f.warn)
    ||| (level == "INFO"@ && f.info)
    ||| (level == "DEBUG"@ && f.debug)
    ||| (level == "TRACE"@ && f.trace)
}

/// `f` with the flag of `level` flipped; unknown severities change
/// nothing.
pub open spec fn level_toggled(f: LevelFilter, level: Seq<char>) -> LevelFilter {
    LevelFilter {
        error: if level == "ERROR"@ {
            !f.error
        } else {
            f.error
        },
        warn: if level == "WARN"@ {
            !f.warn
        } else {
            f.warn
        },
        info: if level == "INFO"@ {
            !f.info
        } else {
            f.info
        },
        debug: if level == "DEBUG"@ {
            !f.debug
        } else {
            f.debug
        },
        trace: if level == "TRACE"@ {
            !f.trace
        } else {
            f.trace
        },
    }
}

/// The five level names denote five different severities.
pub proof fn lemma_levels_distinct()
    ensures
        "ERROR"@ != "WARN"@,
        "ERROR"@ != "INFO"@,
        "ERROR"@ != "DEBUG"@,
        "ERROR"@ != "TRACE"@,
        "WARN"@ != "INFO"@,
        "WARN"@ != "DEBUG"@,
        "WARN"@ != "TRACE"@,
        "INFO"@ != "DEBUG"@,
        "INFO"@ != "TRACE"@,
        "DEBUG"@ != "TRACE"@,
{
    broadcast use vstd::string::group_string_axioms;

    reveal_strlit("ERROR");
    reveal_strlit("WARN");
    reveal_strlit("INFO");
    reveal_strlit("DEBUG");
    reveal_strlit("TRACE");
    assert("ERROR"@.len() == 5);
    assert("WARN"@.len() == 4);
    assert("INFO"@.len() == 4);
    assert("DEBUG"@.len() == 5);
    assert("TRACE"@.len() == 5);
    assert("ERROR"@[0] == 'E');
    assert("DEBUG"@[0] == 'D');
    assert("TRACE"@[0] == 'T');
    assert("WARN"@[0] == 'W');
    assert("INFO"@[0] == 'I');
}

impl LevelFilter {
    /// The filter that passes every level.
    pub fn all() -> (f: LevelFilter)
        ensures
            f == (LevelFilter { error: true, warn: true, info: true, debug: true, trace: true }),
    {
        LevelFilter { error: true, warn: true, info: true, debug: true, trace: true }
    }

    /// Whether entries of severity `level` pass this filter.
    pub fn contains(&self, level: &str) -> (r: bool)
        ensures
            r == level_active(*self, level@),
    {
        proof {
            lemma_levels_distinct();
        }
        if str_eq(level, "ERROR") {
            self.error
        } else if str_eq(level, "WARN") {
            self.warn
        } else if str_eq(level, "INFO") {
            self.info
        } else if str_eq(level, "DEBUG") {
            self.debug
        } else if str_eq(level, "TRACE") {
            self.trace
        } else {
            false
        }
    }

    /// Flips whether `level` passes; unknown severities are a no-op.
    pub fn toggle(&mut self, level: &str)
        ensures
            *final(self) == level_toggled(*old(self), level@),
    {
        proof {
            lemma_levels_distinct();
        }
        if str_eq(level, "ERROR") {
            self.error = !self.error;
        } else if str_eq(level, "WARN") {
            self.warn = !self.warn;
        } else if str_eq(level, "INFO") {
            self.info = !self.info;
        } else if str_eq(level, "DEBUG") {
            self.debug = !self.debug;
        } else if str_eq(level, "TRACE") {
            self.trace = !self.trace;
        }
    }
}

/// Whether one entry passes the module and severity filters.
pub open spec fn entry_passes(t: TreeView, lf: LevelFilter, e: EntryView) -> bool {
    sel_walk(t, split_path_spec(e.target), 0) && level_active(lf, e.level)
}

/// The visible subset: exactly the entries whose module path is selected
/// and whose severity is active, in their original order.
pub open spec fn filter_entries(s: Seq<EntryView>, t: TreeView, lf: LevelFilter) -> Seq<EntryView>
    decreases s,
{
    if s.len() == 0 {
        Seq::empty()
    } else {
        let rest = filter_entries(s.drop_last(), t, lf);
        if entry_passes(t, lf, s.last()) {
            rest.push(s.last())
        } else {
            rest
        }
    }
}

/// Filtering a grown list appends the filtered growth: the ground of the
/// incremental recomputation on streaming append.
pub proof fn lemma_filter_entries_add(
    a: Seq<EntryView>,
    b: Seq<EntryView>,
    t: TreeView,
    lf: LevelFilter,
)
    ensures
        filter_entries(a + b, t, lf) == filter_entries(a, t, lf) + filter_entries(b, t, lf),
    decreases b,
{
    if b.len() == 0 {
        assert(a + b =~= a);
        assert(filter_entries(b, t, lf) =~= Seq::<EntryView>::empty());
        assert(filter_entries(a, t, lf) + filter_entries(b, t, lf) =~= filter_entries(a, t, lf));
    } else {
        lemma_filter_entries_add(a, b.drop_last(), t, lf);
        assert((a + b).drop_last() =~= a + b.drop_last());
        assert((a + b).last() == b.last());
        if entry_passes(t, lf, b.last()) {
            assert(filter_entries(a, t, lf) + filter_entries(b, t, lf) =~= (filter_entries(
                a,
                t,
                lf,
            ) + filter_entries(b.drop_last(), t, lf)).push(b.last()));
        }
    }
}

/// Two filter states that agree on every entry of a list keep the same
/// subset of it.
pub proof fn lemma_filter_entries_pointwise(
    s: Seq<EntryView>,
    t1: TreeView,
    l1: LevelFilter,
    t2: TreeView,
    l2: LevelFilter,
)
    requires
        forall|k: int|
            0 <= k < s.len() ==> entry_passes(t1, l1, #[trigger] s[k]) == entry_passes(
                t2,
                l2,
                s[k],
            ),
    ensures
        filter_entries(s, t1, l1) == filter_entries(s, t2, l2),
    decreases s,
{
    if s.len() > 0 {
        assert(forall|k: int| 0 <= k < s.len() - 1 ==> s.drop_last()[k] == s[k]);
        lemma_filter_entries_pointwise(s.drop_last(), t1, l1, t2, l2);
        assert(s.last() == s[s.len() - 1]);
    }
}

/// The visible subset holds exactly the passing entries: every kept entry
/// passes, and every passing entry of the full list is kept.
pub proof fn lemma_filter_entries_sound(s: Seq<EntryView>, t: TreeView, lf: LevelFilter)
    ensures
        forall|k: int|
            0 <= k < filter_entries(s, t, lf).len() ==> entry_passes(
                t,
                lf,
                #[trigger] filter_entries(s, t, lf)[k],
            ),
        forall|k: int|
            0 <= k < s.len() && entry_passes(t, lf, #[trigger] s[k]) ==> filter_entries(
                s,
                t,
                lf,
            ).contains(s[k]),
        filter_entries(s, t, lf).len() <= s.len(),
    decreases s,
{
    if s.len() > 0 {
        lemma_filter_entries_sound(s.drop_last(), t, lf);
        let out = filter_entries(s, t, lf);
        let rest = filter_entries(s.drop_last(), t, lf);
        assert forall|k: int|
            0 <= k < s.len() && entry_passes(t, lf, #[trigger] s[k]) implies out.contains(
            s[k],
        ) by {
            if k == s.len() - 1 {
                assert(s.last() == s[k]);
                assert(out.last() == s[k]);
                assert(out[out.len() - 1] == s[k]);
            } else {
                assert(s.drop_last()[k] == s[k]);
                assert(rest.contains(s[k]));
                let j = choose|j: int| 0 <= j < rest.len() && rest[j] == s[k];
                assert(out[j] == s[k]);
            }
        }
    }
}

/// The saved state a fingerprint stands for: a copy of the module tree
/// and of the active severity set, compared structurally.  Two equal
/// fingerprints name filter states that keep exactly the same entries.
pub struct Fingerprint {
    pub tree: ModuleTree,
    pub levels: LevelFilter,
}

/// The model of a fingerprint.
pub open spec fn fingerprint_view(fp: Fingerprint) -> (TreeView, LevelFilter) {
    (fp.tree@, fp.levels)
}

/// Decides whether two trees have the same model.
pub fn tree_eq(a: &ModuleTree, b: &ModuleTree) -> (r: bool)
    ensures
        r == (a@ == b@),
    decreases *a,
{
    if !str_eq(a.name.as_str(), b.name.as_str()) {
        return false;
    }
    if a.is_selected != b.is_selected {
        return false;
    }
    let n = a.children.len();
    if n != b.children.len() {
        proof {
            lemma_child_views(a.children@);
            lemma_child_views(b.children@);
        }
        return false;
    }
    let mut i: usize = 0;
    while i < n
        invariant
            i <= n,
            n == a.children@.len(),
            n == b.children@.len(),
            forall|k: int|
                0 <= k < i ==> tree_view(a.children@[k]) == tree_view(b.children@[k]),
        decreases n - i,
    {
        proof {
            assert(decreases_to!(*a => a.children));
            assert(decreases_to!(a.children => a.children@));
            assert(decreases_to!(a.children@ => a.children@[i as int]));
        }
        if !tree_eq(&a.children[i], &b.children[i]) {
            proof {
                lemma_child_views(a.children@);
                lemma_child_views(b.children@);
                if a@ == b@ {
                    assert(child_views(a.children@)[i as int] == child_views(
                        b.children@,
                    )[i as int]);
                }
            }
            return false;
        }
        i = i + 1;
    }
    proof {
        lemma_child_views(a.children@);
        lemma_child_views(b.children@);
        assert(child_views(a.children@) =~= child_views(b.children@));
        assert(a@ =~= b@);
    }
    true
}

impl Fingerprint {
    /// Captures the filter-relevant state: the tree and the active levels.
    pub fn capture(tree: &ModuleTree, levels: &LevelFilter) -> (fp: Fingerprint)
        ensures
            fingerprint_view(fp) == (tree@, *levels),
    {
        Fingerprint { tree: tree.duplicate(), levels: *levels }
    }

    /// Decides whether two fingerprints name the same filter state.
    pub fn same_as(&self, other: &Fingerprint) -> (r: bool)
        ensures
            r == (fingerprint_view(*self) == fingerprint_view(*other)),
    {
        let te = tree_eq(&self.tree, &other.tree);
        let le = self.levels.error == other.levels.error && self.levels.warn == other.levels.warn
            && self.levels.info == other.levels.info && self.levels.debug == other.levels.debug
            && self.levels.trace == other.levels.trace;
        te && le
    }
}

/// Law: fingerprint equality implies filtered-list equality.  Two filter
/// states with equal fingerprints keep exactly the same entries of any
/// one entry list.
pub proof fn lemma_fingerprint_eq_same_filter(
    fp1: Fingerprint,
    fp2: Fingerprint,
    entries: Seq<EntryView>,
)
    requires
        fingerprint_view(fp1) == fingerprint_view(fp2),
    ensures
        filter_entries(entries, fp1.tree@, fp1.levels) == filter_entries(
            entries,
            fp2.tree@,
            fp2.levels,
        ),
{
}

} // verus!
