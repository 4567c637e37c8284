//! The application state: the entry list, the module filter tree, the
//! memoized visible subset, and the scroll/focus viewport over it.

use vstd::prelude::*;

use crate::entry::{
    calculate_display_lines, display_lines, total_rows, EntryView, LogEntry,
    lemma_total_rows_nonneg,
};
use crate::filter::{
    entry_passes, filter_entries, fingerprint_view, lemma_filter_entries_add, level_toggled,
    Fingerprint, LevelFilter,
};
use crate::module_tree::{
    has_walk, height_bound, insert_walk, lemma_forest_height, lemma_insert_has_self,
    lemma_insert_preserves, lemma_set_all_has, lemma_set_all_height, lemma_toggle_has,
    lemma_toggle_height, ModuleTree, sel_walk, set_all_view, theight, toggle_walk, tree_view,
    tree_wf, TreeView, lemma_child_views,
};
use crate::text::split_path_spec;

verus! {

/// The interaction mode the viewer is in.
#[derive(Debug, Clone, Copy, PartialEq, Eq, Structural)]
pub enum AppMode {
    ModuleSelection,
    LogNavigation,
    TextSelection,
    LogLevelFilter,
}

/// Model of one row of the flattened module panel.
#[verifier::ext_equal]
pub ghost struct ItemView {
    pub name: Seq<char>,
    pub full_path: Seq<char>,
    pub level: int,
    pub selected: bool,
}

/// One row of the flattened module panel: a node's name, its full path,
/// its depth, and its inclusion flag.
pub struct ModuleItem {
    pub name: String,
    pub full_path: String,
    pub level: usize,
    pub is_selected: bool,
}

impl View for ModuleItem {
    type V = ItemView;

    open spec fn view(&self) -> ItemView {
        ItemView {
            name: self.name@,
            full_path: self.full_path@,
            level: self.level as int,
            selected: self.is_selected,
        }
    }
}

impl DeepView for ModuleItem {
    type V = ItemView;

    open spec fn deep_view(&self) -> ItemView {
        self.view()
    }
}

/// The displayed full path of a child of the node whose path is `prefix`.
pub open spec fn joined_path(prefix: Seq<char>, name: Seq<char>) -> Seq<char> {
    if prefix.len() == 0 {
        name
    } else {
        prefix + "::"@ + name
    }
}

/// The panel rows a node contributes: itself (above the root), then its
/// children in order.
pub open spec fn node_items(t: TreeView, prefix: Seq<char>, level: int) -> Seq<ItemView>
    decreases t, 0int,
{
    if level > 0 {
        let fp = joined_path(prefix, t.name);
        seq![
            ItemView { name: t.name, full_path: fp, level: level, selected: t.selected },
        ] + forest_items(t.children, fp, level + 1)
    } else {
        forest_items(t.children, prefix, level + 1)
    }
}

pub open spec fn forest_items(s: Seq<TreeView>, prefix: Seq<char>, level: int) -> Seq<ItemView>
    decreases s, 1int,
{
    if s.len() == 0 {
        Seq::empty()
    } else {
        forest_items(s.drop_last(), prefix, level) + node_items(s.last(), prefix, level)
    }
}

/// The interactive viewer's whole mutable state.
pub struct App {
    pub module_tree: ModuleTree,
    pub logs: Vec<LogEntry>,
    pub filtered_logs: Vec<LogEntry>,
    pub selected_module_index: usize,
    pub log_scroll_position: usize,
    pub module_items: Vec<ModuleItem>,
    pub should_quit: bool,
    pub current_log_line: usize,
    pub selection_start: Option<usize>,
    pub selection_end: Option<usize>,
    pub mode: AppMode,
    pub copy_message: Option<String>,
    pub auto_follow: bool,
    pub filter_dirty: bool,
    pub last_filter_fingerprint: Option<Fingerprint>,
    pub last_terminal_size: (u16, u16),
    pub log_level_filter: LevelFilter,
    pub available_log_levels: Vec<String>,
    pub selected_log_level_index: usize,
    pub show_filter_panel: bool,
    pub filter_panel_width: u16,
    pub last_action_was_focus_move: bool,
}

/// Greatest scroll offset the invariant allows for a given row total.
pub open spec fn spec_max_scroll(total: int) -> int {
    if total <= 0 {
        0
    } else {
        total - 1
    }
}

impl App {
    /// The models of the full entry list and of the visible subset.
    pub open spec fn logs_view(self) -> Seq<EntryView> {
        self.logs.deep_view()
    }

    pub open spec fn filtered_view(self) -> Seq<EntryView> {
        self.filtered_logs.deep_view()
    }

    /// The visible subset is exactly the filter of the full list through
    /// the current tree and severity set.
    pub open spec fn filter_current(self) -> bool {
        self.filtered_view() == filter_entries(
            self.logs_view(),
            self.module_tree@,
            self.log_level_filter,
        )
    }

    /// Every entry's module path has a node in the tree.
    pub open spec fn targets_present(self) -> bool {
        forall|k: int|
            0 <= k < self.logs_view().len() ==> has_walk(
                self.module_tree@,
                split_path_spec(#[trigger] self.logs_view()[k].target),
                0,
            )
    }

    /// The panel rows are the flattening of the current tree.
    pub open spec fn items_current(self) -> bool {
        self.module_items.deep_view() == node_items(self.module_tree@, Seq::empty(), 0)
    }

    /// Well-formedness at public boundaries: the tree is well formed and
    /// covers every entry, and the visible subset and panel rows are the
    /// ones the current filter state derives.
    pub open spec fn inv(self) -> bool {
        &&& tree_wf(self.module_tree@)
        &&& theight(self.module_tree@) <= height_bound()
        &&& self.targets_present()
        &&& self.filter_current()
        &&& self.items_current()
    }

    /// The memoized fingerprint names the current filter state.
    pub open spec fn fingerprint_current(self) -> bool {
        match self.last_filter_fingerprint {
            None => false,
            Some(fp) => fingerprint_view(fp) == (self.module_tree@, self.log_level_filter),
        }
    }

    /// What a sound cache must satisfy: a clean flag with a fingerprint of
    /// the current state may only stand over a correct visible subset.
    pub open spec fn cache_hit_sound(self) -> bool {
        (!self.filter_dirty && self.fingerprint_current()) ==> self.filter_current()
    }

    /// The viewport invariant: with a non-empty visible list the focus is
    /// a valid index and the scroll offset stays under the row total.
    pub open spec fn viewport_ok(self) -> bool {
        self.filtered_view().len() > 0 ==> {
            &&& self.current_log_line < self.filtered_view().len()
            &&& self.log_scroll_position <= spec_max_scroll(total_rows(self.filtered_view()))
        }
    }
}

/// The tree grown from `t` by inserting each target's path in turn:
/// missing nodes are created selected, present nodes keep their flags.
pub open spec fn insert_targets(t: TreeView, ts: Seq<Seq<char>>) -> TreeView
    decreases ts,
{
    if ts.len() == 0 {
        t
    } else {
        insert_walk(insert_targets(t, ts.drop_last()), split_path_spec(ts.last()), 0)
    }
}

/// A fresh root with every node selected.
pub open spec fn root_view() -> TreeView {
    TreeView { name: "root"@, selected: true, children: Seq::empty() }
}

/// The tree grown from an empty root by inserting each target in turn.
pub open spec fn tree_of(targets: Seq<Seq<char>>) -> TreeView {
    insert_targets(root_view(), targets)
}

/// The targets of a run of entries.
pub open spec fn targets_of(s: Seq<EntryView>) -> Seq<Seq<char>> {
    s.map_values(|e: EntryView| e.target)
}

pub open spec fn min_int(a: int, b: int) -> int {
    if a <= b {
        a
    } else {
        b
    }
}

/// Rows a page scroll moves: one screen less one row, at least one.
pub open spec fn page_amount(visible: int) -> int {
    if visible > 1 {
        visible - 1
    } else {
        1
    }
}

/// The page-scroll cap: the first row of the last full screen.
pub open spec fn page_max_scroll(total: int, visible: int) -> int {
    total - min_int(visible, total)
}

/// Where the focus lands after a downward move: one entry down, clamped
/// to the last entry.
pub open spec fn next_focus(app: App) -> usize {
    if app.current_log_line + 1 >= app.filtered_view().len() {
        (app.filtered_view().len() - 1) as usize
    } else {
        (app.current_log_line + 1) as usize
    }
}

/// Whether auto-follow holds after a downward move: pinned on reaching
/// the last entry, dropped on any other actual move.
pub open spec fn next_follow(app: App) -> bool {
    if next_focus(app) == app.filtered_view().len() - 1 {
        true
    } else if next_focus(app) != app.current_log_line {
        false
    } else {
        app.auto_follow
    }
}

/// The first entry whose rows reach past `row`, or the last entry.
pub open spec fn entry_at_row(s: Seq<EntryView>, row: int, k: int) -> int
    decreases s.len() - k,
{
    if k < 0 || k >= s.len() {
        if s.len() == 0 {
            0
        } else {
            s.len() - 1
        }
    } else if crows(s, k + 1) > row {
        k
    } else {
        entry_at_row(s, row, k + 1)
    }
}

/// One step of the display-range scan, mirroring its running state.
pub open spec fn range_rec(
    s: Seq<EntryView>,
    scroll: int,
    visible: int,
    k: int,
    found: bool,
    start: int,
) -> (int, int)
    decreases s.len() - k,
{
    if k < 0 || k >= s.len() {
        (
            if found {
                start
            } else {
                if s.len() == 0 {
                    0
                } else {
                    s.len() - 1
                }
            },
            0,
        )
    } else {
        let hit = !found && crows(s, k + 1) > scroll;
        let found2 = found || hit;
        let start2 = if hit {
            k
        } else {
            start
        };
        if found2 && crows(s, k) >= scroll + visible {
            (start2, k)
        } else {
            range_rec(s, scroll, visible, k + 1, found2, start2)
        }
    }
}

/// The half-open range of entries a screen at `scroll` shows.
pub open spec fn display_range_spec(s: Seq<EntryView>, scroll: int, visible: int) -> (int, int) {
    if s.len() == 0 {
        (0, 0)
    } else {
        let r = range_rec(s, scroll, visible, 0, false, 0);
        (
            r.0,
            if r.1 == 0 {
                s.len() as int
            } else {
                r.1
            },
        )
    }
}

/// Where the focus-move policy scrolls to: keep the previous entry
/// visible when it slid above the screen, or bring the next entry's last
/// row on screen, never past the last full screen.
pub open spec fn nudged_scroll(s: Seq<EntryView>, focus: int, scroll: int, visible: int) -> int {
    let fe = crows(s, focus + 1);
    let prev_start = if focus > 0 {
        crows(s, focus - 1)
    } else {
        crows(s, focus)
    };
    let next_end = if focus < s.len() - 1 {
        crows(s, focus + 2)
    } else {
        fe
    };
    if prev_start < scroll && focus > 0 {
        prev_start
    } else if next_end > scroll + visible && focus < s.len() - 1 {
        let ms = if ctotal(s) >= visible {
            ctotal(s) - visible
        } else {
            0
        };
        min_int(next_end - visible, ms)
    } else {
        scroll
    }
}

/// Whether entry `k` has any row on a screen of `visible` rows at
/// `scroll`.
pub open spec fn entry_visible(s: Seq<EntryView>, scroll: int, visible: int, k: int) -> bool {
    crows(s, k) < scroll + visible && crows(s, k + 1) > scroll
}

/// The scan for the on-screen entry nearest to the focus by index,
/// earliest on a tie.
pub open spec fn scan_best(
    s: Seq<EntryView>,
    scroll: int,
    visible: int,
    focus: int,
    k: int,
    best: int,
    bestd: int,
) -> int
    decreases s.len() - k,
{
    if k < 0 || k >= s.len() {
        best
    } else {
        let d = if k >= focus {
            k - focus
        } else {
            focus - k
        };
        if entry_visible(s, scroll, visible, k) && d < bestd {
            scan_best(s, scroll, visible, focus, k + 1, k, d)
        } else {
            scan_best(s, scroll, visible, focus, k + 1, best, bestd)
        }
    }
}

/// Where the scroll policy leaves the focus: untouched while any of its
/// rows is on screen, else rescued to the nearest visible entry.
pub open spec fn adjusted_focus(s: Seq<EntryView>, scroll: int, visible: int, focus: int) -> int {
    if crows(s, focus + 1) <= scroll || crows(s, focus) >= scroll + visible {
        scan_best(s, scroll, visible, focus, 0, focus, usize::MAX as int)
    } else {
        focus
    }
}

/// The status notice a copy leaves behind.
pub open spec fn copied_notice(count: int) -> Seq<char> {
    "Copied "@ + dec_rep(count) + " lines to clipboard"@
}

/// One entry as the clipboard shows it.
pub open spec fn copy_line(e: EntryView) -> Seq<char> {
    "["@ + e.timestamp + "] "@ + e.level + " "@ + e.target + ": "@ + e.message
}

/// The entries `a..=b`, one block per entry, newline-joined.
pub open spec fn copy_text(s: Seq<EntryView>, a: int, b: int) -> Seq<char>
    decreases b - a,
{
    if a > b || a < 0 || b >= s.len() {
        Seq::empty()
    } else if a == b {
        copy_line(s[a])
    } else {
        copy_line(s[a]) + "\n"@ + copy_text(s, a + 1, b)
    }
}

/// The decimal digit characters.
pub open spec fn digit_of(d: int) -> char {
    "0123456789"@[d]
}

/// The decimal numeral of `n`, most significant digit first.
pub open spec fn dec_rep(n: int) -> Seq<char>
    decreases n,
{
    if n < 10 {
        seq![digit_of(if n >= 0 {
            n
        } else {
            0
        })]
    } else {
        dec_rep(n / 10) + seq![digit_of(n % 10)]
    }
}

/// The numeral read from stored digits, last first.
pub open spec fn rev_digits(ds: Seq<usize>) -> Seq<char>
    decreases ds,
{
    if ds.len() == 0 {
        Seq::empty()
    } else {
        seq![digit_of(ds.last() as int)] + rev_digits(ds.drop_last())
    }
}

proof fn lemma_rev_digits_prepend(ds: Seq<usize>, x: usize)
    ensures
        rev_digits(seq![x] + ds) == rev_digits(ds) + seq![digit_of(x as int)],
    decreases ds,
{
    let s = seq![x] + ds;
    if ds.len() == 0 {
        assert(s.drop_last() =~= Seq::<usize>::empty());
        assert(s.last() == x);
        assert(rev_digits(s.drop_last()) =~= Seq::<char>::empty());
        assert(rev_digits(s) =~= seq![digit_of(x as int)]);
        assert(rev_digits(ds) =~= Seq::<char>::empty());
        assert(rev_digits(ds) + seq![digit_of(x as int)] =~= seq![digit_of(x as int)]);
    } else {
        assert(s.last() == ds.last());
        assert(s.drop_last() =~= seq![x] + ds.drop_last());
        lemma_rev_digits_prepend(ds.drop_last(), x);
        assert(rev_digits(s) =~= seq![digit_of(ds.last() as int)] + (rev_digits(ds.drop_last())
            + seq![digit_of(x as int)]));
        assert(rev_digits(ds) + seq![digit_of(x as int)] =~= seq![digit_of(ds.last() as int)] + (
        rev_digits(ds.drop_last()) + seq![digit_of(x as int)]));
    }
}

/// The decimal numeral of `n`, as text.
pub fn usize_to_string(n: usize) -> (r: String)
    ensures
        r@ == dec_rep(n as int),
{
    let table = "0123456789";
    proof {
        reveal_strlit("0123456789");
    }
    let mut digits: Vec<usize> = Vec::new();
    let mut m = n;
    if m == 0 {
        digits.push(0);
        proof {
            assert(digits@.len() == 1);
            assert(digits@.last() == 0usize);
            assert(digits@.drop_last() =~= Seq::<usize>::empty());
            assert(rev_digits(digits@.drop_last()) =~= Seq::<char>::empty());
            assert(rev_digits(digits@) =~= seq![digit_of(0)]);
            assert(dec_rep(0) == seq![digit_of(0)]);
        }
    } else {
        proof {
            assert(rev_digits(digits@) =~= Seq::<char>::empty());
        }
        while m > 0
            invariant
                (m > 0 && dec_rep(n as int) == dec_rep(m as int) + rev_digits(digits@)) || (m
                    == 0 && digits@.len() > 0 && dec_rep(n as int) == rev_digits(digits@)),
                forall|k: int| 0 <= k < digits@.len() ==> digits@[k] < 10,
            decreases m,
        {
            let d = m % 10;
            let ghost old_digits = digits@;
            let ghost old_m = m as int;
            digits.push(d);
            m = m / 10;
            proof {
                assert(digits@ =~= old_digits.push(d));
                assert(digits@.last() == d);
                assert(digits@.drop_last() =~= old_digits);
                assert(rev_digits(digits@) == seq![digit_of(d as int)] + rev_digits(old_digits));
                if old_m >= 10 {
                    assert(m as int == old_m / 10);
                    assert(dec_rep(old_m) == dec_rep(old_m / 10) + seq![digit_of(old_m % 10)]);
                    assert(dec_rep(m as int) + (seq![digit_of(d as int)] + rev_digits(
                        old_digits,
                    )) =~= (dec_rep(m as int) + seq![digit_of(d as int)]) + rev_digits(
                        old_digits,
                    ));
                    assert(dec_rep(n as int) =~= dec_rep(m as int) + rev_digits(digits@));
                } else {
                    assert(m == 0);
                    assert(d as int == old_m);
                    assert(dec_rep(old_m) == seq![digit_of(old_m)]);
                    assert(dec_rep(n as int) =~= rev_digits(digits@));
                }
            }
        }
    }
    let mut r = String::new();
    let mut i = digits.len();
    while i > 0
        invariant
            i <= digits@.len(),
            table@ == "0123456789"@,
            table@.len() == 10,
            forall|k: int| 0 <= k < digits@.len() ==> digits@[k] < 10,
            r@ == rev_digits(digits@.skip(i as int)),
        decreases i,
    {
        i = i - 1;
        let d = digits[i];
        let piece = table.substring_char(d, d + 1);
        proof {
            assert(piece@ =~= seq![digit_of(d as int)]);
            assert(digits@.skip(i as int).last() == digits@[digits@.len() - 1]);
        }
        let ghost before = r@;
        r.append(piece);
        proof {
            let tail = digits@.skip(i as int);
            assert(tail =~= seq![digits@[i as int]] + digits@.skip(i + 1));
            lemma_rev_digits_prepend(digits@.skip(i + 1), d);
            assert(r@ =~= rev_digits(digits@.skip(i as int)));
        }
    }
    proof {
        assert(digits@.skip(0) =~= digits@);
    }
    r
}

/// The next index, one past `a`, wrapped modulo `n`.
fn mod_succ(a: usize, n: usize) -> (r: usize)
    requires
        n > 0,
    ensures
        r as int == (a + 1) % (n as int),
{
    let m = a % n;
    proof {
        assert((m + 1) % (n as int) == (a + 1) % (n as int)) by (nonlinear_arith)
            requires
                n > 0,
                m == (a as int) % (n as int),
        ;
        if m + 1 < n {
            assert((m + 1) % (n as int) == m + 1) by (nonlinear_arith)
                requires
                    0 <= m + 1 < n,
            ;
        } else {
            assert((m + 1) % (n as int) == 0) by (nonlinear_arith)
                requires
                    n > 0,
                    m + 1 == n,
            ;
        }
    }
    if m + 1 == n {
        0
    } else {
        m + 1
    }
}

/// Keeps the visible subset of `logs` through the given filter state.
fn filter_vec(logs: &Vec<LogEntry>, tree: &ModuleTree, levels: &LevelFilter) -> (r: Vec<
    LogEntry,
>)
    requires
        tree_wf(tree@),
    ensures
        r.deep_view() == filter_entries(logs.deep_view(), tree@, *levels),
{
    let ghost lv = logs.deep_view();
    let n = logs.len();
    let mut out: Vec<LogEntry> = Vec::new();
    let mut i: usize = 0;
    while i < n
        invariant
            i <= n,
            n == lv.len(),
            lv == logs.deep_view(),
            tree_wf(tree@),
            out.deep_view() == filter_entries(lv.take(i as int), tree@, *levels),
        decreases n - i,
    {
        proof {
            assert(lv[i as int] == logs@[i as int]@);
            assert(lv.take(i + 1).drop_last() =~= lv.take(i as int));
            assert(lv.take(i + 1).last() == lv[i as int]);
        }
        let keep = tree.is_module_selected(logs[i].target.as_str())
            && levels.contains(logs[i].level.as_str());
        if keep {
            let ghost prev = out.deep_view();
            out.push(logs[i].duplicate());
            proof {
                assert(out.deep_view() =~= prev.push(lv[i as int]));
            }
        }
        i = i + 1;
    }
    proof {
        assert(lv.take(n as int) =~= lv);
    }
    out
}

impl App {
    /// A fresh viewer: no entries, every module and severity selected,
    /// module-selection mode, auto-follow on.
    pub fn new() -> (app: App)
        ensures
            app.inv(),
            app.viewport_ok(),
            app.cache_hit_sound(),
            app.logs_view().len() == 0,
            app.filtered_view().len() == 0,
            app.mode == AppMode::ModuleSelection,
            app.auto_follow,
            app.filter_dirty,
            !app.should_quit,
            app.log_level_filter == (LevelFilter {
                error: true,
                warn: true,
                info: true,
                debug: true,
                trace: true,
            }),
            app.module_tree@ == root_view(),
            app.current_log_line == 0,
            app.log_scroll_position == 0,
            app.selection_start is None,
            app.selection_end is None,
            app.selected_module_index == 0,
            app.selected_log_level_index == 0,
            app.copy_message is None,
            app.module_items@.len() == 0,
            app.show_filter_panel,
            app.filter_panel_width == 25,
            !app.last_action_was_focus_move,
            app.last_filter_fingerprint is None,
            app.available_log_levels.deep_view() == seq![
                "ERROR"@,
                "WARN"@,
                "INFO"@,
                "DEBUG"@,
                "TRACE"@,
            ],
    {
        let mut levels: Vec<String> = Vec::new();
        levels.push("ERROR".to_owned());
        levels.push("WARN".to_owned());
        levels.push("INFO".to_owned());
        levels.push("DEBUG".to_owned());
        levels.push("TRACE".to_owned());
        let app = App {
            module_tree: ModuleTree::new("root".to_owned()),
            logs: Vec::new(),
            filtered_logs: Vec::new(),
            selected_module_index: 0,
            log_scroll_position: 0,
            module_items: Vec::new(),
            should_quit: false,
            current_log_line: 0,
            selection_start: None,
            selection_end: None,
            mode: AppMode::ModuleSelection,
            copy_message: None,
            auto_follow: true,
            filter_dirty: true,
            last_filter_fingerprint: None,
            last_terminal_size: (0, 0),
            log_level_filter: LevelFilter::all(),
            available_log_levels: levels,
            selected_log_level_index: 0,
            show_filter_panel: true,
            filter_panel_width: 25,
            last_action_was_focus_move: false,
        };
        proof {
            assert(app.logs.deep_view() =~= Seq::<EntryView>::empty());
            assert(app.filtered_logs.deep_view() =~= Seq::<EntryView>::empty());
            assert(app.filtered_view() =~= filter_entries(
                app.logs_view(),
                app.module_tree@,
                app.log_level_filter,
            ));
            assert(app.module_items.deep_view() =~= Seq::<ItemView>::empty());
            assert(app.module_tree@.children =~= Seq::<TreeView>::empty());
            assert(app.module_tree@ =~= root_view());
            assert(app.available_log_levels.deep_view() =~= seq![
                "ERROR"@,
                "WARN"@,
                "INFO"@,
                "DEBUG"@,
                "TRACE"@,
            ]);
            assert(crate::module_tree::forest_height(app.module_tree@.children) == 0);
            assert(theight(app.module_tree@) == 1);
            assert(node_items(app.module_tree@, Seq::empty(), 0) =~= Seq::<ItemView>::empty());
        }
        app
    }

    /// Recomputes the visible subset, unless the memoized fingerprint
    /// shows that nothing filter-relevant changed since the last
    /// recomputation, in which case the cached list is kept untouched.
    pub fn filter_logs(&mut self)
        requires
            tree_wf(old(self).module_tree@),
            old(self).cache_hit_sound(),
        ensures
            final(self).filter_current(),
            !final(self).filter_dirty,
            final(self).fingerprint_current(),
            final(self).cache_hit_sound(),
            (!old(self).filter_dirty && old(self).fingerprint_current()) ==> *final(self)
                == *old(self),
            *final(self) == (App {
                filtered_logs: final(self).filtered_logs,
                filter_dirty: final(self).filter_dirty,
                last_filter_fingerprint: final(self).last_filter_fingerprint,
                ..*old(self)
            }),
            (old(self).filter_current() || old(self).filter_dirty || !old(self).fingerprint_current())
                ==> final(self).filtered_view() == filter_entries(
                old(self).logs_view(),
                old(self).module_tree@,
                old(self).log_level_filter,
            ),
    {
        let hit = !self.filter_dirty && match &self.last_filter_fingerprint {
            Some(prev) => {
                let cur = Fingerprint::capture(&self.module_tree, &self.log_level_filter);
                prev.same_as(&cur)
            },
            None => false,
        };
        if hit {
            return ;
        }
        let rebuilt = filter_vec(&self.logs, &self.module_tree, &self.log_level_filter);
        self.filtered_logs = rebuilt;
        self.filter_dirty = false;
        self.last_filter_fingerprint = Some(
            Fingerprint::capture(&self.module_tree, &self.log_level_filter),
        );
    }

    /// Replaces the whole entry list: the tree is rebuilt from scratch
    /// (so earlier deselections are forgotten), the visible subset is
    /// recomputed, and with auto-follow on and a grown visible list the
    /// viewport jumps to the newest entry.
    pub fn update_logs(&mut self, logs: Vec<LogEntry>)
        ensures
            final(self).inv(),
            final(self).logs_view() == logs.deep_view(),
            final(self).module_tree@ == tree_of(targets_of(logs.deep_view())),
            !final(self).filter_dirty,
            final(self).cache_hit_sound(),
            final(self).auto_follow == old(self).auto_follow,
            (old(self).auto_follow && final(self).filtered_view().len() > old(self).filtered_view().len()) ==> final(self).current_log_line == final(self).filtered_view().len() - 1 && final(self).log_scroll_position == spec_max_scroll(
                ctotal(final(self).filtered_view()),
            ) && final(self).auto_follow,
            (old(self).auto_follow && final(self).filtered_view().len() > old(self).filtered_view().len())
                ==> final(self).viewport_ok(),
    {
        let old_log_count = self.filtered_logs.len();
        self.logs = logs;
        self.rebuild_module_tree();
        self.filter_dirty = true;
        self.filter_logs();
        if self.auto_follow && self.filtered_logs.len() > old_log_count {
            self.scroll_to_bottom();
        }
    }

    /// Rebuilds the module tree from every entry's target and flattens it
    /// into the panel rows.
    fn rebuild_module_tree(&mut self)
        ensures
            final(self).module_tree@ == tree_of(targets_of(final(self).logs_view())),
            tree_wf(final(self).module_tree@),
            theight(final(self).module_tree@) <= height_bound(),
            final(self).targets_present(),
            final(self).items_current(),
            final(self).logs == old(self).logs,
            final(self).filtered_logs == old(self).filtered_logs,
            final(self).log_level_filter == old(self).log_level_filter,
            final(self).filter_dirty == old(self).filter_dirty,
            final(self).last_filter_fingerprint == old(self).last_filter_fingerprint,
            final(self).auto_follow == old(self).auto_follow,
            final(self).current_log_line == old(self).current_log_line,
            final(self).log_scroll_position == old(self).log_scroll_position,
            final(self).mode == old(self).mode,
            final(self).should_quit == old(self).should_quit,
    {
        let ghost lv = self.logs.deep_view();
        let mut tree = ModuleTree::new("root".to_owned());
        proof {
            assert(targets_of(lv.take(0)) =~= Seq::<Seq<char>>::empty());
            assert(tree@ =~= tree_of(targets_of(lv.take(0))));
            assert(crate::module_tree::forest_height(tree@.children) == 0);
            assert(theight(tree@) == 1);
        }
        let n = self.logs.len();
        let mut i: usize = 0;
        while i < n
            invariant
                i <= n,
                n == lv.len(),
                lv == self.logs.deep_view(),
                tree_wf(tree@),
                theight(tree@) <= height_bound(),
                tree@ == tree_of(targets_of(lv.take(i as int))),
                forall|k: int|
                    0 <= k < i ==> has_walk(
                        tree@,
                        split_path_spec(#[trigger] lv[k].target),
                        0,
                    ),
            decreases n - i,
        {
            proof {
                assert(lv[i as int] == self.logs@[i as int]@);
                assert(targets_of(lv.take(i + 1)).drop_last() =~= targets_of(lv.take(i as int)));
                assert(targets_of(lv.take(i + 1)).last() == lv[i as int].target);
            }
            let ghost before = tree@;
            tree.insert_module(self.logs[i].target.as_str());
            proof {
                lemma_insert_has_self(before, split_path_spec(lv[i as int].target), 0);
                assert forall|k: int|
                    0 <= k < i implies has_walk(
                    tree@,
                    split_path_spec(#[trigger] lv[k].target),
                    0,
                ) by {
                    lemma_insert_preserves(
                        before,
                        split_path_spec(lv[i as int].target),
                        split_path_spec(lv[k].target),
                        0,
                    );
                }
            }
            i = i + 1;
        }
        proof {
            assert(lv.take(n as int) =~= lv);
        }
        self.module_tree = tree;
        self.rebuild_module_items();
    }

    /// Flattens the current tree into the panel rows.
    fn rebuild_module_items(&mut self)
        requires
            theight(old(self).module_tree@) <= height_bound(),
        ensures
            final(self).items_current(),
            final(self).module_tree == old(self).module_tree,
            final(self).logs == old(self).logs,
            final(self).filtered_logs == old(self).filtered_logs,
            final(self).log_level_filter == old(self).log_level_filter,
            final(self).filter_dirty == old(self).filter_dirty,
            final(self).last_filter_fingerprint == old(self).last_filter_fingerprint,
            final(self).auto_follow == old(self).auto_follow,
            final(self).current_log_line == old(self).current_log_line,
            final(self).log_scroll_position == old(self).log_scroll_position,
            final(self).mode == old(self).mode,
            final(self).should_quit == old(self).should_quit,
    {
        let mut items: Vec<ModuleItem> = Vec::new();
        let empty_prefix = String::new();
        proof {
            crate::module_tree::lemma_forest_height(self.module_tree@.children);
        }
        build_items(&self.module_tree, &empty_prefix, 0, &mut items);
        proof {
            assert(Seq::<ItemView>::empty() + node_items(self.module_tree@, Seq::empty(), 0)
                =~= node_items(self.module_tree@, Seq::empty(), 0));
        }
        self.module_items = items;
    }
}

/// Appends the panel rows of `node` (at `level`, under `prefix`) to `out`.
fn build_items(node: &ModuleTree, prefix: &str, level: usize, out: &mut Vec<ModuleItem>)
    requires
        level as int + theight(node@) <= usize::MAX as int,
    ensures
        final(out).deep_view() == old(out).deep_view() + node_items(node@, prefix@, level as int),
    decreases *node,
{
    let ghost start = out.deep_view();
    let fp: String;
    if level > 0 {
        let full_path = if prefix.unicode_len() == 0 {
            node.name.clone()
        } else {
            let mut j = prefix.to_owned();
            j.append("::");
            j.append(node.name.as_str());
            j
        };
        proof {
            assert(full_path@ == joined_path(prefix@, node@.name));
        }
        let item = ModuleItem {
            name: node.name.clone(),
            full_path: full_path.clone(),
            level,
            is_selected: node.is_selected,
        };
        out.push(item);
        proof {
            assert(out.deep_view() =~= start.push(
                ItemView {
                    name: node@.name,
                    full_path: joined_path(prefix@, node@.name),
                    level: level as int,
                    selected: node@.selected,
                },
            ));
        }
        fp = full_path;
    } else {
        fp = prefix.to_owned();
    }
    let ghost mid = out.deep_view();
    let ghost child_prefix = if level > 0 {
        joined_path(prefix@, node@.name)
    } else {
        prefix@
    };
    let n = node.children.len();
    let mut i: usize = 0;
    while i < n
        invariant
            i <= n,
            n == node.children@.len(),
            fp@ == child_prefix,
            level as int + theight(node@) <= usize::MAX as int,
            out.deep_view() == mid + forest_items(
                child_views_take(node.children@, i as int),
                child_prefix,
                level + 1,
            ),
        decreases n - i,
    {
        proof {
            assert(decreases_to!(*node => node.children));
            assert(decreases_to!(node.children => node.children@));
            assert(decreases_to!(node.children@ => node.children@[i as int]));
            lemma_child_views(node.children@);
            lemma_forest_height(node@.children);
            assert(node@.children[i as int] == tree_view(node.children@[i as int]));
            assert(theight(tree_view(node.children@[i as int])) <= crate::module_tree::forest_height(node@.children));
        }
        build_items(&node.children[i], fp.as_str(), level + 1, out);
        proof {
            lemma_child_views(node.children@);
            assert(child_views_take(node.children@, i + 1).drop_last() =~= child_views_take(
                node.children@,
                i as int,
            ));
            assert(child_views_take(node.children@, i + 1).last() == tree_view(
                node.children@[i as int],
            ));
        }
        i = i + 1;
    }
    proof {
        lemma_child_views(node.children@);
        assert(child_views_take(node.children@, n as int) =~= crate::module_tree::child_views(
            node.children@,
        ));
        if level > 0 {
            assert(out.deep_view() =~= start + node_items(node@, prefix@, level as int));
        } else {
            assert(mid == start);
            assert(out.deep_view() =~= start + node_items(node@, prefix@, level as int));
        }
    }
}

/// The models of the first `k` children.
pub open spec fn child_views_take(s: Seq<ModuleTree>, k: int) -> Seq<TreeView> {
    Seq::new(
        if 0 <= k <= s.len() {
            k as nat
        } else {
            0nat
        },
        |i: int| tree_view(s[i]),
    )
}

/// Row total of the first `k` entries, clamped at the machine word.
pub open spec fn crows(s: Seq<EntryView>, k: int) -> int {
    if total_rows(s.take(k)) <= usize::MAX {
        total_rows(s.take(k))
    } else {
        usize::MAX as int
    }
}

/// Row total of all entries, clamped at the machine word.
pub open spec fn ctotal(s: Seq<EntryView>) -> int {
    if total_rows(s) <= usize::MAX {
        total_rows(s)
    } else {
        usize::MAX as int
    }
}

pub proof fn lemma_crows_step(s: Seq<EntryView>, k: int)
    requires
        0 <= k < s.len(),
    ensures
        total_rows(s.take(k + 1)) == total_rows(s.take(k)) + display_lines(s[k]),
        total_rows(s.take(k)) >= 0,
        display_lines(s[k]) >= 0,
{
    assert(s.take(k + 1).drop_last() =~= s.take(k));
    assert(s.take(k + 1).last() == s[k]);
    lemma_total_rows_nonneg(s.take(k));
    crate::entry::lemma_count_nl_bounds(s[k].message, s[k].message.len() - 1);
}

pub proof fn lemma_crows_mono(s: Seq<EntryView>, a: int, b: int)
    requires
        0 <= a <= b <= s.len(),
    ensures
        total_rows(s.take(a)) <= total_rows(s.take(b)),
    decreases b - a,
{
    if a < b {
        lemma_crows_step(s, b - 1);
        lemma_crows_mono(s, a, b - 1);
    }
}

fn sat_add(a: usize, b: usize) -> (r: usize)
    ensures
        r == if a + b <= usize::MAX {
            a + b
        } else {
            usize::MAX as int
        },
{
    if b > usize::MAX - a {
        usize::MAX
    } else {
        a + b
    }
}

impl App {
    /// Rows occupied by the first `k` visible entries.
    fn display_rows_upto(&self, k: usize) -> (r: usize)
        requires
            k <= self.filtered_view().len(),
        ensures
            r == crows(self.filtered_view(), k as int),
    {
        let ghost fv = self.filtered_view();
        let mut acc: usize = 0;
        let mut i: usize = 0;
        proof {
            assert(fv.take(0) =~= Seq::<EntryView>::empty());
        }
        while i < k
            invariant
                i <= k,
                k <= fv.len(),
                fv == self.filtered_view(),
                acc == crows(fv, i as int),
            decreases k - i,
        {
            proof {
                assert(fv[i as int] == self.filtered_logs@[i as int]@);
                lemma_crows_step(fv, i as int);
            }
            let d = calculate_display_lines(&self.filtered_logs[i]);
            acc = sat_add(acc, d);
            i = i + 1;
        }
        acc
    }

    /// Total rows of the visible list.
    pub fn total_display_rows(&self) -> (r: usize)
        ensures
            r == ctotal(self.filtered_view()),
    {
        let n = self.filtered_logs.len();
        let r = self.display_rows_upto(n);
        proof {
            assert(self.filtered_view().take(n as int) =~= self.filtered_view());
        }
        r
    }

    /// Appends entries to the full list, extends the tree with their
    /// modules, and applies the current filter to the new entries only,
    /// appending the qualifying ones to the visible list; the history is
    /// not re-filtered.  With auto-follow on and a grown visible list the
    /// viewport jumps to the newest entry.
    pub fn add_logs(&mut self, new_logs: Vec<LogEntry>)
        requires
            old(self).inv(),
        ensures
            final(self).inv(),
            final(self).logs_view() == old(self).logs_view() + new_logs.deep_view(),
            final(self).filtered_view() == old(self).filtered_view() + filter_entries(
                new_logs.deep_view(),
                final(self).module_tree@,
                final(self).log_level_filter,
            ),
            final(self).log_level_filter == old(self).log_level_filter,
            final(self).auto_follow == old(self).auto_follow,
            final(self).module_tree@ == insert_targets(
                old(self).module_tree@,
                targets_of(new_logs.deep_view()),
            ),
            forall|k: int|
                0 <= k < old(self).logs_view().len() ==> has_walk(
                    final(self).module_tree@,
                    split_path_spec(#[trigger] old(self).logs_view()[k].target),
                    0,
                ) && sel_walk(
                    final(self).module_tree@,
                    split_path_spec(old(self).logs_view()[k].target),
                    0,
                ) == sel_walk(
                    old(self).module_tree@,
                    split_path_spec(old(self).logs_view()[k].target),
                    0,
                ),
            (old(self).auto_follow && final(self).filtered_view().len() > old(self).filtered_view().len()) ==> final(self).current_log_line == final(self).filtered_view().len() - 1 && final(self).log_scroll_position == spec_max_scroll(
                ctotal(final(self).filtered_view()),
            ) && final(self).auto_follow,
            (old(self).viewport_ok() && (old(self).filtered_view().len() > 0 || old(self).auto_follow)) ==> final(self).viewport_ok(),
            new_logs.deep_view().len() == 0 ==> *final(self) == *old(self),
    {
        let old_log_count = self.filtered_logs.len();
        let new_log_count = new_logs.len();
        if new_log_count == 0 {
            return ;
        }
        let ghost olv = self.logs.deep_view();
        let ghost nv = new_logs.deep_view();
        let ghost t0 = self.module_tree@;
        let start = self.logs.len();
        let mut incoming = new_logs;
        self.logs.append(&mut incoming);
        proof {
            assert(self.logs.deep_view() =~= olv + nv);
        }
        let total = self.logs.len();
        let ghost lv = self.logs.deep_view();
        let mut i = start;
        while i < total
            invariant
                start <= i <= total,
                start == olv.len(),
                total == lv.len(),
                lv == self.logs.deep_view(),
                lv == olv + nv,
                tree_wf(self.module_tree@),
                theight(self.module_tree@) <= height_bound(),
                self.module_tree@ == insert_targets(t0, targets_of(nv).take(i - start)),
                self.filtered_logs == old(self).filtered_logs,
                self.log_level_filter == old(self).log_level_filter,
                self.auto_follow == old(self).auto_follow,
                self.current_log_line == old(self).current_log_line,
                self.log_scroll_position == old(self).log_scroll_position,
                forall|k: int|
                    0 <= k < start ==> has_walk(
                        self.module_tree@,
                        split_path_spec(#[trigger] lv[k].target),
                        0,
                    ) && sel_walk(
                        self.module_tree@,
                        split_path_spec(lv[k].target),
                        0,
                    ) == sel_walk(t0, split_path_spec(lv[k].target), 0),
                forall|k: int|
                    start <= k < i ==> has_walk(
                        self.module_tree@,
                        split_path_spec(#[trigger] lv[k].target),
                        0,
                    ),
            decreases total - i,
        {
            proof {
                assert(lv[i as int] == self.logs@[i as int]@);
            }
            let ghost before = self.module_tree@;
            let target_owned = self.logs[i].target.clone();
            self.module_tree.insert_module(target_owned.as_str());
            proof {
                let ghost ip = split_path_spec(lv[i as int].target);
                let ghost tn = targets_of(nv);
                assert(lv[i as int] == nv[i - start]);
                assert(tn[i - start] == nv[i - start].target);
                assert(tn.take(i - start + 1).drop_last() =~= tn.take(i - start));
                assert(tn.take(i - start + 1).last() == tn[i - start]);
                assert(self.module_tree@ == insert_targets(t0, tn.take(i - start + 1)));
                lemma_insert_has_self(before, ip, 0);
                assert forall|k: int|
                    0 <= k < i implies has_walk(
                    self.module_tree@,
                    split_path_spec(#[trigger] lv[k].target),
                    0,
                ) by {
                    lemma_insert_preserves(before, ip, split_path_spec(lv[k].target), 0);
                }
                assert forall|k: int|
                    0 <= k < start implies sel_walk(
                    self.module_tree@,
                    split_path_spec(#[trigger] lv[k].target),
                    0,
                ) == sel_walk(t0, split_path_spec(lv[k].target), 0) by {
                    lemma_insert_preserves(before, ip, split_path_spec(lv[k].target), 0);
                }
            }
            i = i + 1;
        }
        self.rebuild_module_items();
        // filter only the newly appended entries
        let ghost t1 = self.module_tree@;
        let ghost lf = self.log_level_filter;
        let ghost of = self.filtered_logs.deep_view();
        let ghost logs_snap = self.logs;
        let ghost items_snap = self.module_items;
        let ghost tree_snap = self.module_tree;
        let mut j = start;
        while j < total
            invariant
                start <= j <= total,
                start == olv.len(),
                total == lv.len(),
                lv == self.logs.deep_view(),
                t1 == self.module_tree@,
                lf == self.log_level_filter,
                lf == old(self).log_level_filter,
                tree_wf(t1),
                theight(t1) <= height_bound(),
                self.logs == logs_snap,
                self.module_tree == tree_snap,
                self.auto_follow == old(self).auto_follow,
                self.current_log_line == old(self).current_log_line,
                self.log_scroll_position == old(self).log_scroll_position,
                self.module_items == items_snap,
                forall|k: int|
                    0 <= k < start ==> has_walk(t1, split_path_spec(#[trigger] lv[k].target), 0)
                        && sel_walk(t1, split_path_spec(lv[k].target), 0) == sel_walk(
                        t0,
                        split_path_spec(lv[k].target),
                        0,
                    ),
                forall|k: int|
                    start <= k < total ==> has_walk(
                        t1,
                        split_path_spec(#[trigger] lv[k].target),
                        0,
                    ),
                self.filtered_logs.deep_view() == of + filter_entries(
                    lv.subrange(start as int, j as int),
                    t1,
                    lf,
                ),
            decreases total - j,
        {
            proof {
                assert(lv[j as int] == self.logs@[j as int]@);
                let sub = lv.subrange(start as int, j + 1);
                assert(sub.drop_last() =~= lv.subrange(start as int, j as int));
                assert(sub.last() == lv[j as int]);
            }
            let keep = self.module_tree.is_module_selected(self.logs[j].target.as_str())
                && self.log_level_filter.contains(self.logs[j].level.as_str());
            if keep {
                let ghost prev = self.filtered_logs.deep_view();
                let d = self.logs[j].duplicate();
                self.filtered_logs.push(d);
                proof {
                    assert(self.filtered_logs.deep_view() =~= prev.push(lv[j as int]));
                }
            }
            j = j + 1;
        }
        proof {
            // the old entries pass the new tree exactly as they passed the old
            assert(lv.subrange(start as int, total as int) =~= nv);
            assert(olv =~= lv.take(start as int));
            assert forall|k: int|
                0 <= k < olv.len() implies entry_passes(t1, lf, #[trigger] olv[k])
                == entry_passes(t0, lf, olv[k]) by {
                assert(olv[k] == lv[k]);
                assert(sel_walk(self.module_tree@, split_path_spec(lv[k].target), 0) == sel_walk(
                    t0,
                    split_path_spec(lv[k].target),
                    0,
                ));
            }
            crate::filter::lemma_filter_entries_pointwise(olv, t1, lf, t0, lf);
            lemma_filter_entries_add(olv, nv, t1, lf);
            assert(targets_of(nv).take(total - start) =~= targets_of(nv));
            assert(self.module_tree@ == insert_targets(t0, targets_of(nv)));
            assert(old(self).logs_view() == olv);
            assert forall|k: int|
                0 <= k < olv.len() implies has_walk(
                self.module_tree@,
                split_path_spec(#[trigger] olv[k].target),
                0,
            ) && sel_walk(self.module_tree@, split_path_spec(olv[k].target), 0) == sel_walk(
                t0,
                split_path_spec(olv[k].target),
                0,
            ) by {
                assert(olv[k] == lv[k]);
                assert(has_walk(t1, split_path_spec(lv[k].target), 0));
                assert(sel_walk(t1, split_path_spec(lv[k].target), 0) == sel_walk(
                    t0,
                    split_path_spec(lv[k].target),
                    0,
                ));
            }
            assert(of == filter_entries(olv, t0, lf));
            assert(filter_entries(olv, t1, lf) == of);
            assert(self.filtered_view() == of + filter_entries(nv, t1, lf));
            assert(self.logs_view() =~= olv + nv);
            assert(self.filtered_view() =~= filter_entries(self.logs_view(), t1, lf));
        }
        if self.auto_follow && self.filtered_logs.len() > old_log_count {
            self.scroll_to_bottom();
        } else {
            proof {
                let fv = self.filtered_view();
                if old(self).viewport_ok() && fv.len() > 0 && of.len() > 0 {
                    assert(of =~= fv.take(of.len() as int));
                    lemma_crows_mono(fv, of.len() as int, fv.len() as int);
                    assert(fv.take(fv.len() as int) =~= fv);
                    assert(self.current_log_line == old(self).current_log_line);
                    assert(self.current_log_line < of.len());
                }
                if self.auto_follow && of.len() == 0 {
                    assert(fv.len() <= old_log_count);
                    assert(fv.len() == 0);
                }
            }
        }
    }

    /// The entry the current scroll offset points into.
    pub fn find_entry_at_scroll_position(&self) -> (r: usize)
        ensures
            r == entry_at_row(
                self.filtered_view(),
                self.log_scroll_position as int,
                0,
            ),
            self.filtered_view().len() > 0 ==> r < self.filtered_view().len(),
    {
        let ghost fv = self.filtered_view();
        let scroll = self.log_scroll_position;
        let n = self.filtered_logs.len();
        let mut cur: usize = 0;
        let mut k: usize = 0;
        proof {
            assert(fv.take(0) =~= Seq::<EntryView>::empty());
        }
        while k < n
            invariant
                k <= n,
                n == fv.len(),
                fv == self.filtered_view(),
                cur == crows(fv, k as int),
                scroll == self.log_scroll_position,
                entry_at_row(fv, scroll as int, 0) == entry_at_row(fv, scroll as int, k as int),
            decreases n - k,
        {
            proof {
                assert(fv[k as int] == self.filtered_logs@[k as int]@);
                lemma_crows_step(fv, k as int);
            }
            let d = calculate_display_lines(&self.filtered_logs[k]);
            let next = sat_add(cur, d);
            if next > scroll {
                return k;
            }
            cur = next;
            k = k + 1;
        }
        if n == 0 {
            0
        } else {
            n - 1
        }
    }

    /// Rows above entry `entry_index` in the visible list.
    pub fn get_entry_display_position(&self, entry_index: usize) -> (r: usize)
        requires
            entry_index <= self.filtered_view().len(),
        ensures
            r == crows(self.filtered_view(), entry_index as int),
    {
        self.display_rows_upto(entry_index)
    }

    /// The focus-move policy: nudge the scroll offset so the entry before
    /// or after the focus stays on screen.
    fn ensure_focus_visible_with_buffer(&mut self, visible_lines: usize)
        requires
            old(self).filtered_view().len() > 0,
            old(self).current_log_line < old(self).filtered_view().len(),
            visible_lines >= 1,
            old(self).log_scroll_position <= spec_max_scroll(ctotal(old(self).filtered_view())),
        ensures
            *final(self) == (App {
                log_scroll_position: nudged_scroll(
                    old(self).filtered_view(),
                    old(self).current_log_line as int,
                    old(self).log_scroll_position as int,
                    visible_lines as int,
                ) as usize,
                ..*old(self)
            }),
            final(self).log_scroll_position <= spec_max_scroll(ctotal(old(self).filtered_view())),
    {
        let ghost fv = self.filtered_view();
        let focus = self.current_log_line;
        let n = self.filtered_logs.len();
        let scroll = self.log_scroll_position;
        let fs = self.get_entry_display_position(focus);
        let fe = self.get_entry_display_position(focus + 1);
        let prev_start = if focus > 0 {
            self.get_entry_display_position(focus - 1)
        } else {
            fs
        };
        let next_end = if focus < n - 1 {
            self.get_entry_display_position(focus + 2)
        } else {
            fe
        };
        proof {
            lemma_crows_mono(fv, 0, focus as int);
            lemma_crows_mono(fv, focus as int, n as int);
            lemma_total_rows_nonneg(fv);
        }
        if prev_start < scroll && focus > 0 {
            self.log_scroll_position = prev_start;
        } else if focus < n - 1 && next_end > scroll && next_end - scroll > visible_lines {
            let total = self.total_display_rows();
            let ms = if total >= visible_lines {
                total - visible_lines
            } else {
                0
            };
            proof {
                lemma_crows_mono(fv, focus + 2, n as int);
                assert(fv.take(n as int) =~= fv);
            }
            let target = next_end - visible_lines;
            self.log_scroll_position = if target <= ms {
                target
            } else {
                ms
            };
        }
    }

    /// The scroll policy: move the focus only when it fell entirely off
    /// screen, to the nearest entry with a visible row.
    fn adjust_focus_for_scroll_with_lines(&mut self, visible_lines: usize)
        requires
            old(self).filtered_view().len() > 0,
            old(self).current_log_line < old(self).filtered_view().len(),
        ensures
            *final(self) == (App {
                current_log_line: adjusted_focus(
                    old(self).filtered_view(),
                    old(self).log_scroll_position as int,
                    visible_lines as int,
                    old(self).current_log_line as int,
                ) as usize,
                ..*old(self)
            }),
            final(self).current_log_line < final(self).filtered_view().len(),
    {
        let ghost fv = self.filtered_view();
        let focus = self.current_log_line;
        let n = self.filtered_logs.len();
        let scroll = self.log_scroll_position;
        let fs = self.get_entry_display_position(focus);
        let fe = self.get_entry_display_position(focus + 1);
        let off_screen = fe <= scroll || (fs >= scroll && fs - scroll >= visible_lines);
        proof {
            assert(off_screen == (crows(fv, focus + 1) <= scroll || crows(fv, focus as int)
                >= scroll + visible_lines));
        }
        if off_screen {
            let mut best = focus;
            let mut bestd: usize = usize::MAX;
            let mut cur: usize = 0;
            let mut k: usize = 0;
            proof {
                assert(fv.take(0) =~= Seq::<EntryView>::empty());
            }
            while k < n
                invariant
                    k <= n,
                    n == fv.len(),
                    fv == self.filtered_view(),
                    focus == self.current_log_line,
                    focus < n,
                    scroll == self.log_scroll_position,
                    cur == crows(fv, k as int),
                    best == focus || best < n,
                    scan_best(
                        fv,
                        scroll as int,
                        visible_lines as int,
                        focus as int,
                        0,
                        focus as int,
                        usize::MAX as int,
                    ) == scan_best(
                        fv,
                        scroll as int,
                        visible_lines as int,
                        focus as int,
                        k as int,
                        best as int,
                        bestd as int,
                    ),
                decreases n - k,
            {
                proof {
                    assert(fv[k as int] == self.filtered_logs@[k as int]@);
                    lemma_crows_step(fv, k as int);
                }
                let d = calculate_display_lines(&self.filtered_logs[k]);
                let next = sat_add(cur, d);
                let vis = (cur < scroll || cur - scroll < visible_lines) && next > scroll;
                proof {
                    assert(vis == entry_visible(
                        fv,
                        scroll as int,
                        visible_lines as int,
                        k as int,
                    ));
                }
                let dist = if k >= focus {
                    k - focus
                } else {
                    focus - k
                };
                if vis && dist < bestd {
                    best = k;
                    bestd = dist;
                }
                cur = next;
                k = k + 1;
            }
            self.current_log_line = best;
        }
    }

    /// The range of entries a screen shows: the first entry with a row at
    /// or past `scroll_position`, up to the first entry past the screen.
    pub fn calculate_display_range(&self, scroll_position: usize, visible_lines: usize) -> (r: (
        usize,
        usize,
    ))
        ensures
            (r.0 as int, r.1 as int) == display_range_spec(
                self.filtered_view(),
                scroll_position as int,
                visible_lines as int,
            ),
            r.0 <= self.filtered_view().len(),
            r.1 <= self.filtered_view().len(),
    {
        let ghost fv = self.filtered_view();
        let n = self.filtered_logs.len();
        if n == 0 {
            return (0, 0);
        }
        let mut found_start = false;
        let mut start_entry: usize = 0;
        let mut cur: usize = 0;
        let mut k: usize = 0;
        proof {
            assert(fv.take(0) =~= Seq::<EntryView>::empty());
        }
        while k < n
            invariant
                k <= n,
                n == fv.len(),
                n > 0,
                fv == self.filtered_view(),
                cur == crows(fv, k as int),
                start_entry <= k,
                found_start ==> start_entry < n,
                range_rec(
                    fv,
                    scroll_position as int,
                    visible_lines as int,
                    0,
                    false,
                    0,
                ) == range_rec(
                    fv,
                    scroll_position as int,
                    visible_lines as int,
                    k as int,
                    found_start,
                    start_entry as int,
                ),
            decreases n - k,
        {
            proof {
                assert(fv[k as int] == self.filtered_logs@[k as int]@);
                lemma_crows_step(fv, k as int);
            }
            let d = calculate_display_lines(&self.filtered_logs[k]);
            let next = sat_add(cur, d);
            if !found_start && next > scroll_position {
                start_entry = k;
                found_start = true;
            }
            if found_start && cur >= scroll_position && cur - scroll_position >= visible_lines {
                let end_entry = if k == 0 {
                    n
                } else {
                    k
                };
                return (start_entry, end_entry);
            }
            cur = next;
            k = k + 1;
        }
        let start = if found_start {
            start_entry
        } else {
            n - 1
        };
        (start, n)
    }

    /// Applies the policy the last action calls for: a focus move keeps
    /// scrolling to follow the cursor with lookahead; a scroll only
    /// rescues the focus when it points at nothing on screen.
    fn update_focus_visibility_with_lines(&mut self, visible_lines: usize)
        requires
            old(self).filtered_view().len() > 0,
            old(self).current_log_line < old(self).filtered_view().len(),
            visible_lines >= 1,
            old(self).log_scroll_position <= spec_max_scroll(ctotal(old(self).filtered_view())),
        ensures
            old(self).last_action_was_focus_move && (old(self).mode == AppMode::LogNavigation
                || old(self).mode == AppMode::TextSelection) ==> *final(self) == (App {
                log_scroll_position: nudged_scroll(
                    old(self).filtered_view(),
                    old(self).current_log_line as int,
                    old(self).log_scroll_position as int,
                    visible_lines as int,
                ) as usize,
                ..*old(self)
            }),
            !(old(self).last_action_was_focus_move && (old(self).mode == AppMode::LogNavigation
                || old(self).mode == AppMode::TextSelection)) ==> *final(self) == (App {
                current_log_line: adjusted_focus(
                    old(self).filtered_view(),
                    old(self).log_scroll_position as int,
                    visible_lines as int,
                    old(self).current_log_line as int,
                ) as usize,
                ..*old(self)
            }),
            final(self).viewport_ok(),
    {
        if self.last_action_was_focus_move && (self.mode == AppMode::LogNavigation || self.mode
            == AppMode::TextSelection) {
            self.ensure_focus_visible_with_buffer(visible_lines);
            proof {
                lemma_total_rows_nonneg(self.filtered_view());
            }
        } else {
            self.adjust_focus_for_scroll_with_lines(visible_lines);
            proof {
                lemma_total_rows_nonneg(self.filtered_view());
            }
        }
    }

    /// Recomputes the viewport against the actual screen height: clamps
    /// the scroll offset to the last full screen, rescues a focus index
    /// the last recompute left past the end, and applies the policy of
    /// the last action.  Restores the viewport invariant.
    #[verifier::rlimit(100)]
    pub fn update_scroll_position_with_height(&mut self, visible_lines: usize)
        ensures
            visible_lines <= 2 || old(self).filtered_view().len() == 0 ==> *final(self) == *old(self),
            final(self).filtered_logs == old(self).filtered_logs,
            final(self).logs == old(self).logs,
            final(self).module_tree == old(self).module_tree,
            final(self).mode == old(self).mode,
            final(self).auto_follow == old(self).auto_follow,
            !(visible_lines <= 2 || old(self).filtered_view().len() == 0) ==> {
                let fv = old(self).filtered_view();
                let s1 = min_int(
                    old(self).log_scroll_position as int,
                    if ctotal(fv) >= visible_lines {
                        ctotal(fv) - visible_lines
                    } else {
                        0
                    },
                );
                let f1 = min_int(old(self).current_log_line as int, fv.len() - 1);
                if old(self).last_action_was_focus_move && (old(self).mode
                    == AppMode::LogNavigation || old(self).mode == AppMode::TextSelection) {
                    *final(self) == (App {
                        log_scroll_position: nudged_scroll(
                            fv,
                            f1,
                            s1,
                            visible_lines as int,
                        ) as usize,
                        current_log_line: f1 as usize,
                        ..*old(self)
                    })
                } else {
                    *final(self) == (App {
                        current_log_line: adjusted_focus(
                            fv,
                            s1,
                            visible_lines as int,
                            f1,
                        ) as usize,
                        log_scroll_position: s1 as usize,
                        ..*old(self)
                    })
                }
            },
            !(visible_lines <= 2 || old(self).filtered_view().len() == 0) ==> final(self).viewport_ok(),
    {
        if visible_lines <= 2 || self.filtered_logs.len() == 0 {
            return ;
        }
        let total = self.total_display_rows();
        let max_scroll = if total >= visible_lines {
            total - visible_lines
        } else {
            0
        };
        if self.log_scroll_position > max_scroll {
            self.log_scroll_position = max_scroll;
        }
        if self.current_log_line >= self.filtered_logs.len() {
            self.current_log_line = self.filtered_logs.len() - 1;
        }
        let ghost fv = old(self).filtered_view();
        let ghost s1 = min_int(
            old(self).log_scroll_position as int,
            if ctotal(fv) >= visible_lines {
                ctotal(fv) - visible_lines
            } else {
                0
            },
        );
        let ghost f1 = min_int(old(self).current_log_line as int, fv.len() - 1);
        proof {
            lemma_total_rows_nonneg(self.filtered_view());
            assert(self.log_scroll_position as int == s1);
            assert(self.current_log_line as int == f1);
            assert(*self == (App {
                log_scroll_position: s1 as usize,
                current_log_line: f1 as usize,
                ..*old(self)
            }));
        }
        let ghost mid = *self;
        self.update_focus_visibility_with_lines(visible_lines);
        proof {
            if old(self).last_action_was_focus_move && (old(self).mode == AppMode::LogNavigation
                || old(self).mode == AppMode::TextSelection) {
                assert(*self == (App {
                    log_scroll_position: nudged_scroll(
                        fv,
                        f1,
                        s1,
                        visible_lines as int,
                    ) as usize,
                    ..mid
                }));
            } else {
                assert(*self == (App {
                    current_log_line: adjusted_focus(
                        fv,
                        s1,
                        visible_lines as int,
                        f1,
                    ) as usize,
                    ..mid
                }));
            }
        }
    }

    /// The text of the selected entries, one formatted block per entry,
    /// newline-joined; records how many entries the selection spans.
    /// With no selection the result is empty and nothing is recorded.
    #[verifier::rlimit(60)]
    pub fn copy_selected_logs(&mut self) -> (r: String)
        ensures
            old(self).selection_start is Some && old(self).selection_end is Some ==> {
                let a = min_int(
                    old(self).selection_start->Some_0 as int,
                    old(self).selection_end->Some_0 as int,
                );
                let b = min_int(
                    if old(self).selection_start->Some_0 >= old(self).selection_end->Some_0 {
                        old(self).selection_start->Some_0 as int
                    } else {
                        old(self).selection_end->Some_0 as int
                    },
                    old(self).filtered_view().len() - 1,
                );
                &&& r@ == if a >= old(self).filtered_view().len() {
                    Seq::<char>::empty()
                } else {
                    copy_text(old(self).filtered_view(), a, b)
                }
                &&& *final(self) == (App {
                    copy_message: final(self).copy_message,
                    ..*old(self)
                })
                &&& match final(self).copy_message {
                    Some(m) => m@ == copied_notice(
                        min_int(
                            (if old(self).selection_start->Some_0 >= old(
                                self,
                            ).selection_end->Some_0 {
                                old(self).selection_start->Some_0 as int
                            } else {
                                old(self).selection_end->Some_0 as int
                            }) - a + 1,
                            usize::MAX as int,
                        ),
                    ),
                    None => false,
                }
            },
            !(old(self).selection_start is Some && old(self).selection_end is Some) ==> r@
                == Seq::<char>::empty() && *final(self) == *old(self),
    {
        let has_selection = self.selection_start.is_some() && self.selection_end.is_some();
        if !has_selection {
            return String::new();
        }
        let ss = match self.selection_start {
            Some(v) => v,
            None => 0,
        };
        let se = match self.selection_end {
            Some(v) => v,
            None => 0,
        };
        let a = if ss <= se {
            ss
        } else {
            se
        };
        let b = if ss >= se {
            ss
        } else {
            se
        };
        let n = self.filtered_logs.len();
        let mut content = String::new();
        if a < n {
            let last = if b >= n {
                n - 1
            } else {
                b
            };
            let ghost fv = self.filtered_view();
            let mut i = a;
            while i < last
                invariant
                    a <= i <= last,
                    last < n,
                    n == fv.len(),
                    fv == self.filtered_view(),
                    copy_text(fv, a as int, last as int) == content@ + copy_text(
                        fv,
                        i as int,
                        last as int,
                    ),
                decreases last - i,
            {
                proof {
                    assert(fv[i as int] == self.filtered_logs@[i as int]@);
                    reveal_strlit("[");
                    reveal_strlit("] ");
                    reveal_strlit(" ");
                    reveal_strlit(": ");
                    reveal_strlit("\n");
                }
                let e = &self.filtered_logs[i];
                let ghost before = content@;
                content.append("[");
                content.append(e.timestamp.as_str());
                content.append("] ");
                content.append(e.level.as_str());
                content.append(" ");
                content.append(e.target.as_str());
                content.append(": ");
                content.append(e.message.as_str());
                content.append("\n");
                proof {
                    assert(content@ =~= before + copy_line(fv[i as int]) + "\n"@);
                    assert(copy_text(fv, i as int, last as int) == copy_line(fv[i as int])
                        + "\n"@ + copy_text(fv, i + 1, last as int));
                    assert(before + (copy_line(fv[i as int]) + "\n"@ + copy_text(
                        fv,
                        i + 1,
                        last as int,
                    )) =~= content@ + copy_text(fv, i + 1, last as int));
                }
                i = i + 1;
            }
            proof {
                assert(fv[last as int] == self.filtered_logs@[last as int]@);
                reveal_strlit("[");
                reveal_strlit("] ");
                reveal_strlit(" ");
                reveal_strlit(": ");
            }
            let e = &self.filtered_logs[last];
            let ghost before = content@;
            content.append("[");
            content.append(e.timestamp.as_str());
            content.append("] ");
            content.append(e.level.as_str());
            content.append(" ");
            content.append(e.target.as_str());
            content.append(": ");
            content.append(e.message.as_str());
            proof {
                assert(content@ =~= before + copy_line(fv[last as int]));
                assert(copy_text(fv, last as int, last as int) == copy_line(fv[last as int]));
                assert(copy_text(fv, a as int, last as int) =~= content@);
            }
        }
        let lines_count = if b - a < usize::MAX {
            b - a + 1
        } else {
            usize::MAX
        };
        let mut message = String::new();
        proof {
            reveal_strlit("Copied ");
            reveal_strlit(" lines to clipboard");
        }
        message.append("Copied ");
        let digits = usize_to_string(lines_count);
        message.append(digits.as_str());
        message.append(" lines to clipboard");
        proof {
            assert(message@ =~= copied_notice(lines_count as int));
        }
        self.copy_message = Some(message);
        content
    }

    /// Moves the focus one entry down, clamped to the last entry.
    /// Reaching the last entry re-enables auto-follow; any other actual
    /// move disables it.  In text selection the selection end follows.
    pub fn next_log_entry(&mut self)
        ensures
            old(self).filtered_view().len() == 0 ==> *final(self) == *old(self),
            old(self).filtered_view().len() > 0 ==> *final(self) == (App {
                current_log_line: next_focus(*old(self)),
                auto_follow: next_follow(*old(self)),
                last_action_was_focus_move: true,
                selection_end: if old(self).mode == AppMode::TextSelection {
                    Some(next_focus(*old(self)))
                } else {
                    old(self).selection_end
                },
                ..*old(self)
            }),
            old(self).viewport_ok() ==> final(self).viewport_ok(),
    {
        if self.filtered_logs.len() > 0 {
            let old_line = self.current_log_line;
            let last = self.filtered_logs.len() - 1;
            self.current_log_line = if self.current_log_line >= last {
                last
            } else {
                self.current_log_line + 1
            };
            if self.current_log_line == last {
                self.auto_follow = true;
            } else if old_line != self.current_log_line {
                self.auto_follow = false;
            }
            self.last_action_was_focus_move = true;
            if self.mode == AppMode::TextSelection {
                self.selection_end = Some(self.current_log_line);
            }
        }
    }

    /// Moves the focus one entry up when possible, disabling auto-follow.
    /// In text selection the selection end follows.
    pub fn previous_log_entry(&mut self)
        ensures
            old(self).current_log_line == 0 ==> *final(self) == *old(self),
            old(self).current_log_line > 0 ==> *final(self) == (App {
                current_log_line: (old(self).current_log_line - 1) as usize,
                auto_follow: false,
                last_action_was_focus_move: true,
                selection_end: if old(self).mode == AppMode::TextSelection {
                    Some((old(self).current_log_line - 1) as usize)
                } else {
                    old(self).selection_end
                },
                ..*old(self)
            }),
            old(self).viewport_ok() ==> final(self).viewport_ok(),
    {
        if self.current_log_line > 0 {
            self.current_log_line = self.current_log_line - 1;
            self.auto_follow = false;
            self.last_action_was_focus_move = true;
            if self.mode == AppMode::TextSelection {
                self.selection_end = Some(self.current_log_line);
            }
        }
    }

    /// Scrolls the view down by `lines` rows without moving the focus,
    /// clamped to the last row, and disables auto-follow.
    pub fn scroll_down(&mut self, lines: usize)
        ensures
            old(self).filtered_view().len() == 0 ==> *final(self) == *old(self),
            old(self).filtered_view().len() > 0 ==> *final(self) == (App {
                log_scroll_position: min_int(
                    old(self).log_scroll_position + lines,
                    spec_max_scroll(ctotal(old(self).filtered_view())),
                ) as usize,
                auto_follow: false,
                last_action_was_focus_move: false,
                ..*old(self)
            }),
            old(self).viewport_ok() ==> final(self).viewport_ok(),
    {
        if self.filtered_logs.len() > 0 {
            let total = self.total_display_rows();
            let max_scroll = if total > 0 {
                total - 1
            } else {
                0
            };
            self.log_scroll_position = if self.log_scroll_position >= max_scroll {
                max_scroll
            } else if lines > max_scroll - self.log_scroll_position {
                max_scroll
            } else {
                self.log_scroll_position + lines
            };
            self.auto_follow = false;
            self.last_action_was_focus_move = false;
            proof {
                lemma_total_rows_nonneg(self.filtered_view());
            }
        }
    }

    /// Scrolls the view up by `lines` rows without moving the focus, and
    /// disables auto-follow.
    pub fn scroll_up(&mut self, lines: usize)
        ensures
            *final(self) == (App {
                log_scroll_position: (if lines > old(self).log_scroll_position {
                    0int
                } else {
                    old(self).log_scroll_position - lines
                }) as usize,
                auto_follow: false,
                last_action_was_focus_move: false,
                ..*old(self)
            }),
            old(self).viewport_ok() ==> final(self).viewport_ok(),
    {
        self.log_scroll_position = if lines > self.log_scroll_position {
            0
        } else {
            self.log_scroll_position - lines
        };
        self.auto_follow = false;
        self.last_action_was_focus_move = false;
    }

    /// Scrolls up by one screen less one row (at least one row).
    pub fn page_up(&mut self, visible_lines: usize)
        ensures
            *final(self) == (App {
                log_scroll_position: (if page_amount(visible_lines as int) > old(self).log_scroll_position {
                    0int
                } else {
                    old(self).log_scroll_position - page_amount(visible_lines as int)
                }) as usize,
                auto_follow: false,
                last_action_was_focus_move: false,
                selection_end: if old(self).mode == AppMode::TextSelection {
                    Some(old(self).current_log_line)
                } else {
                    old(self).selection_end
                },
                ..*old(self)
            }),
            old(self).viewport_ok() ==> final(self).viewport_ok(),
    {
        let scroll_amount = if visible_lines > 1 {
            visible_lines - 1
        } else {
            1
        };
        self.log_scroll_position = if scroll_amount > self.log_scroll_position {
            0
        } else {
            self.log_scroll_position - scroll_amount
        };
        self.auto_follow = false;
        self.last_action_was_focus_move = false;
        if self.mode == AppMode::TextSelection {
            self.selection_end = Some(self.current_log_line);
        }
    }

    /// Scrolls down by one screen less one row (at least one row), never
    /// past the last full screen.
    pub fn page_down(&mut self, visible_lines: usize)
        ensures
            *final(self) == (App {
                log_scroll_position: min_int(
                    old(self).log_scroll_position + page_amount(visible_lines as int),
                    min_int(
                        page_max_scroll(ctotal(old(self).filtered_view()), visible_lines as int),
                        spec_max_scroll(ctotal(old(self).filtered_view())),
                    ),
                ) as usize,
                auto_follow: false,
                last_action_was_focus_move: false,
                selection_end: if old(self).mode == AppMode::TextSelection {
                    Some(old(self).current_log_line)
                } else {
                    old(self).selection_end
                },
                ..*old(self)
            }),
            old(self).viewport_ok() ==> final(self).viewport_ok(),
    {
        let total = self.total_display_rows();
        let scroll_amount = if visible_lines > 1 {
            visible_lines - 1
        } else {
            1
        };
        let capped_visible = if visible_lines >= total {
            total
        } else {
            visible_lines
        };
        let page_cap = total - capped_visible;
        let hard_cap = if total > 0 {
            total - 1
        } else {
            0
        };
        let cap = if page_cap >= hard_cap {
            hard_cap
        } else {
            page_cap
        };
        self.log_scroll_position = if self.log_scroll_position >= cap {
            cap
        } else if scroll_amount > cap - self.log_scroll_position {
            cap
        } else {
            self.log_scroll_position + scroll_amount
        };
        self.auto_follow = false;
        self.last_action_was_focus_move = false;
        if self.mode == AppMode::TextSelection {
            self.selection_end = Some(self.current_log_line);
        }
        proof {
            lemma_total_rows_nonneg(self.filtered_view());
        }
    }

    /// Flips whether entries of `level` are shown and recomputes the
    /// visible subset.
    pub fn toggle_log_level(&mut self, level: &str)
        requires
            old(self).inv(),
        ensures
            final(self).inv(),
            final(self).log_level_filter == level_toggled(old(self).log_level_filter, level@),
            final(self).logs == old(self).logs,
            final(self).module_tree == old(self).module_tree,
            final(self).mode == old(self).mode,
            final(self).should_quit == old(self).should_quit,
            final(self).filtered_view() == filter_entries(
                old(self).logs_view(),
                old(self).module_tree@,
                level_toggled(old(self).log_level_filter, level@),
            ),
    {
        self.log_level_filter.toggle(level);
        self.filter_dirty = true;
        self.filter_logs();
    }

    /// Toggles the module the panel cursor points at, cascading to its
    /// subtree, and recomputes the panel rows and the visible subset.
    pub fn toggle_selected_module(&mut self)
        requires
            old(self).inv(),
        ensures
            final(self).inv(),
            final(self).log_level_filter == old(self).log_level_filter,
            final(self).logs == old(self).logs,
            final(self).should_quit == old(self).should_quit,
            old(self).selected_module_index < old(self).module_items.deep_view().len() ==> final(self).module_tree@ == toggle_walk(
                old(self).module_tree@,
                split_path_spec(
                    old(self).module_items.deep_view()[
                        old(self).selected_module_index as int].full_path,
                ),
                0,
            ),
            old(self).selected_module_index >= old(self).module_items.deep_view().len() ==> *final(self) == *old(self),
    {
        let selected_index = self.selected_module_index;
        if selected_index < self.module_items.len() {
            let path = self.module_items[selected_index].full_path.clone();
            let ghost t0 = self.module_tree@;
            let ghost pv = split_path_spec(path@);
            self.module_tree.toggle_selection(path.as_str());
            proof {
                lemma_toggle_height(t0, pv, 0);
            }
            self.rebuild_module_items();
            self.filter_dirty = true;
            self.filter_logs();
            proof {
                assert forall|k: int|
                    0 <= k < self.logs_view().len() implies has_walk(
                    self.module_tree@,
                    split_path_spec(#[trigger] self.logs_view()[k].target),
                    0,
                ) by {
                    assert(self.logs_view()[k] == old(self).logs_view()[k]);
                    assert(has_walk(t0, split_path_spec(old(self).logs_view()[k].target), 0));
                    lemma_toggle_has(t0, pv, split_path_spec(self.logs_view()[k].target), 0);
                }
            }
        }
    }

    /// Selects every module and recomputes the visible subset.
    pub fn select_all_modules(&mut self)
        requires
            old(self).inv(),
        ensures
            final(self).inv(),
            final(self).module_tree@ == set_all_view(old(self).module_tree@, true),
            final(self).log_level_filter == old(self).log_level_filter,
            final(self).logs == old(self).logs,
            final(self).should_quit == old(self).should_quit,
    {
        let ghost t0 = self.module_tree@;
        self.module_tree.select_all();
        proof {
            lemma_set_all_height(t0, true);
        }
        self.rebuild_module_items();
        self.filter_dirty = true;
        self.filter_logs();
        proof {
            assert forall|k: int|
                0 <= k < self.logs_view().len() implies has_walk(
                self.module_tree@,
                split_path_spec(#[trigger] self.logs_view()[k].target),
                0,
            ) by {
                assert(self.logs_view()[k] == old(self).logs_view()[k]);
                assert(has_walk(t0, split_path_spec(old(self).logs_view()[k].target), 0));
                lemma_set_all_has(t0, split_path_spec(self.logs_view()[k].target), 0, true);
            }
        }
    }

    /// Deselects every module and recomputes the visible subset.
    pub fn deselect_all_modules(&mut self)
        requires
            old(self).inv(),
        ensures
            final(self).inv(),
            final(self).module_tree@ == set_all_view(old(self).module_tree@, false),
            final(self).log_level_filter == old(self).log_level_filter,
            final(self).logs == old(self).logs,
            final(self).should_quit == old(self).should_quit,
    {
        let ghost t0 = self.module_tree@;
        self.module_tree.deselect_all();
        proof {
            lemma_set_all_height(t0, false);
        }
        self.rebuild_module_items();
        self.filter_dirty = true;
        self.filter_logs();
        proof {
            assert forall|k: int|
                0 <= k < self.logs_view().len() implies has_walk(
                self.module_tree@,
                split_path_spec(#[trigger] self.logs_view()[k].target),
                0,
            ) by {
                assert(self.logs_view()[k] == old(self).logs_view()[k]);
                assert(has_walk(t0, split_path_spec(old(self).logs_view()[k].target), 0));
                lemma_set_all_has(t0, split_path_spec(self.logs_view()[k].target), 0, false);
            }
        }
    }

    /// Asks the event loop to stop.
    pub fn quit(&mut self)
        ensures
            *final(self) == (App { should_quit: true, ..*old(self) }),
    {
        self.should_quit = true;
    }

    /// Enters log navigation and hides the filter panel.
    pub fn switch_to_log_mode(&mut self)
        ensures
            *final(self) == (App {
                mode: AppMode::LogNavigation,
                show_filter_panel: false,
                ..*old(self)
            }),
    {
        self.mode = AppMode::LogNavigation;
        self.show_filter_panel = false;
    }

    /// Enters module selection and shows the filter panel.
    pub fn switch_to_module_mode(&mut self)
        ensures
            *final(self) == (App {
                mode: AppMode::ModuleSelection,
                show_filter_panel: true,
                ..*old(self)
            }),
    {
        self.mode = AppMode::ModuleSelection;
        self.show_filter_panel = true;
    }

    /// Enters severity filtering and shows the filter panel.
    pub fn switch_to_log_level_mode(&mut self)
        ensures
            *final(self) == (App {
                mode: AppMode::LogLevelFilter,
                show_filter_panel: true,
                ..*old(self)
            }),
    {
        self.mode = AppMode::LogLevelFilter;
        self.show_filter_panel = true;
    }

    /// Enters text selection, anchoring the selection at the focus.
    pub fn start_text_selection(&mut self)
        ensures
            *final(self) == (App {
                mode: AppMode::TextSelection,
                selection_start: Some(old(self).current_log_line),
                selection_end: Some(old(self).current_log_line),
                ..*old(self)
            }),
    {
        self.mode = AppMode::TextSelection;
        self.selection_start = Some(self.current_log_line);
        self.selection_end = Some(self.current_log_line);
    }

    /// Leaves text selection, dropping the selection and any copy notice.
    pub fn clear_selection(&mut self)
        ensures
            *final(self) == (App {
                selection_start: None,
                selection_end: None,
                mode: AppMode::LogNavigation,
                copy_message: None,
                ..*old(self)
            }),
    {
        self.selection_start = None;
        self.selection_end = None;
        self.mode = AppMode::LogNavigation;
        self.copy_message = None;
    }

    /// Drops the copy notice.
    pub fn clear_copy_message(&mut self)
        ensures
            *final(self) == (App { copy_message: None, ..*old(self) }),
    {
        self.copy_message = None;
    }

    /// Moves the panel cursor to the next module row, wrapping around.
    pub fn next_module(&mut self)
        ensures
            final(self).module_items.deep_view().len() > 0 ==> *final(self) == (App {
                selected_module_index: ((old(self).selected_module_index + 1) % (
                old(self).module_items.deep_view().len() as int)) as usize,
                ..*old(self)
            }),
            final(self).module_items.deep_view().len() == 0 ==> *final(self) == *old(self),
    {
        if self.module_items.len() > 0 {
            let selected = self.selected_module_index;
            let next = mod_succ(selected, self.module_items.len());
            self.selected_module_index = next;
        }
    }

    /// Moves the panel cursor to the previous module row, wrapping around.
    pub fn previous_module(&mut self)
        ensures
            final(self).module_items.deep_view().len() > 0 ==> *final(self) == (App {
                selected_module_index: (if old(self).selected_module_index == 0 {
                    old(self).module_items.deep_view().len() - 1
                } else {
                    old(self).selected_module_index - 1
                }) as usize,
                ..*old(self)
            }),
            final(self).module_items.deep_view().len() == 0 ==> *final(self) == *old(self),
    {
        if self.module_items.len() > 0 {
            let selected = self.selected_module_index;
            let previous = if selected == 0 {
                self.module_items.len() - 1
            } else {
                selected - 1
            };
            self.selected_module_index = previous;
        }
    }

    /// Moves the severity cursor to the next level, wrapping around.
    pub fn next_log_level(&mut self)
        ensures
            final(self).available_log_levels@.len() > 0 ==> *final(self) == (App {
                selected_log_level_index: ((old(self).selected_log_level_index + 1) % (
                old(self).available_log_levels@.len() as int)) as usize,
                ..*old(self)
            }),
            final(self).available_log_levels@.len() == 0 ==> *final(self) == *old(self),
    {
        if self.available_log_levels.len() > 0 {
            self.selected_log_level_index = mod_succ(
                self.selected_log_level_index,
                self.available_log_levels.len(),
            );
        }
    }

    /// Moves the severity cursor to the previous level, wrapping around.
    pub fn previous_log_level(&mut self)
        ensures
            final(self).available_log_levels@.len() > 0 ==> *final(self) == (App {
                selected_log_level_index: (if old(self).selected_log_level_index == 0 {
                    old(self).available_log_levels@.len() - 1
                } else {
                    old(self).selected_log_level_index - 1
                }) as usize,
                ..*old(self)
            }),
            final(self).available_log_levels@.len() == 0 ==> *final(self) == *old(self),
    {
        if self.available_log_levels.len() > 0 {
            self.selected_log_level_index = if self.selected_log_level_index == 0 {
                self.available_log_levels.len() - 1
            } else {
                self.selected_log_level_index - 1
            };
        }
    }

    /// Toggles the severity the cursor points at.
    pub fn toggle_selected_log_level(&mut self)
        requires
            old(self).inv(),
        ensures
            final(self).inv(),
            final(self).logs == old(self).logs,
            final(self).should_quit == old(self).should_quit,
            old(self).selected_log_level_index < old(self).available_log_levels@.len() ==> final(self).log_level_filter == level_toggled(
                old(self).log_level_filter,
                old(self).available_log_levels@[old(self).selected_log_level_index as int]@,
            ),
            old(self).selected_log_level_index >= old(self).available_log_levels@.len() ==> *final(self) == *old(self),
    {
        if self.selected_log_level_index < self.available_log_levels.len() {
            let level = self.available_log_levels[self.selected_log_level_index].clone();
            self.toggle_log_level(level.as_str());
        }
    }

    /// Narrows the filter panel, to a floor of ten columns.
    pub fn decrease_panel_width(&mut self)
        ensures
            old(self).filter_panel_width > 10 ==> *final(self) == (App {
                filter_panel_width: (old(self).filter_panel_width - 5) as u16,
                ..*old(self)
            }),
            old(self).filter_panel_width <= 10 ==> *final(self) == *old(self),
    {
        if self.filter_panel_width > 10 {
            self.filter_panel_width = self.filter_panel_width - 5;
        }
    }

    /// Widens the filter panel, to a cap of fifty columns.
    pub fn increase_panel_width(&mut self)
        ensures
            old(self).filter_panel_width < 50 ==> *final(self) == (App {
                filter_panel_width: (old(self).filter_panel_width + 5) as u16,
                ..*old(self)
            }),
            old(self).filter_panel_width >= 50 ==> *final(self) == *old(self),
    {
        if self.filter_panel_width < 50 {
            self.filter_panel_width = self.filter_panel_width + 5;
        }
    }

    /// Moves the viewport to the newest visible entry's last row and pins
    /// auto-follow.
    pub fn scroll_to_bottom(&mut self)
        ensures
            final(self).filtered_view().len() > 0 ==> *final(self) == (App {
                current_log_line: (final(self).filtered_view().len() - 1) as usize,
                log_scroll_position: spec_max_scroll(ctotal(final(self).filtered_view())) as usize,
                auto_follow: true,
                ..*old(self)
            }),
            final(self).filtered_view().len() == 0 ==> *final(self) == *old(self),
            final(self).viewport_ok(),
            final(self).filtered_logs == old(self).filtered_logs,
            final(self).logs == old(self).logs,
            final(self).module_tree == old(self).module_tree,
    {
        if self.filtered_logs.len() > 0 {
            self.current_log_line = self.filtered_logs.len() - 1;
            let total = self.total_display_rows();
            self.log_scroll_position = if total > 0 {
                total - 1
            } else {
                0
            };
            self.auto_follow = true;
            proof {
                lemma_total_rows_nonneg(self.filtered_view());
            }
        }
    }
}

} // verus!
