//! Hierarchical set of module-path segments with per-node inclusion state
//! and cascading toggle.
//!
//! Children are kept strictly sorted by name, so the shape of a tree is a
//! function of the set of inserted paths alone, and enumeration order is
//! deterministic.

use vstd::prelude::*;

use crate::text::{split_path, split_path_spec, str_lt, StrOrder, str_compare};
use crate::text::{lemma_str_lt_total, lemma_str_lt_trans, lemma_str_lt_irrefl};

verus! {

/// Mathematical model of a module-tree node: the node's name, its inclusion
/// flag, and its children in order.
#[verifier::ext_equal]
pub ghost struct TreeView {
    pub name: Seq<char>,
    pub selected: bool,
    pub children: Seq<TreeView>,
}

/// A node of the module hierarchy.
pub struct ModuleTree {
    pub name: String,
    pub children: Vec<ModuleTree>,
    pub is_selected: bool,
}

/// The model of one node, built from its fields.
pub open spec fn tree_view(t: ModuleTree) -> TreeView
    decreases t,
{
    TreeView { name: t.name@, selected: t.is_selected, children: child_views(t.children@) }
}

/// The models of a run of child nodes, in order.
pub open spec fn child_views(s: Seq<ModuleTree>) -> Seq<TreeView>
    decreases s,
{
    if s.len() == 0 {
        Seq::empty()
    } else {
        child_views(s.drop_last()).push(tree_view(s.last()))
    }
}

impl View for ModuleTree {
    type V = TreeView;

    open spec fn view(&self) -> TreeView {
        tree_view(*self)
    }
}

pub proof fn lemma_child_views(s: Seq<ModuleTree>)
    ensures
        child_views(s).len() == s.len(),
        forall|k: int| 0 <= k < s.len() ==> child_views(s)[k] == tree_view(s[k]),
    decreases s,
{
    if s.len() > 0 {
        lemma_child_views(s.drop_last());
        assert(forall|k: int|
            0 <= k < s.len() - 1 ==> child_views(s)[k] == child_views(s.drop_last())[k]
                && s.drop_last()[k] == s[k]);
    }
}

/// First child of `c` at or after position `k` whose name is `name`.
pub open spec fn find_child_at(c: Seq<TreeView>, name: Seq<char>, k: int) -> Option<int>
    decreases c.len() - k,
{
    if k < 0 || k >= c.len() {
        None
    } else if c[k].name == name {
        Some(k)
    } else {
        find_child_at(c, name, k + 1)
    }
}

/// First child of `c` whose name is `name`, if any.
pub open spec fn find_child(c: Seq<TreeView>, name: Seq<char>) -> Option<int> {
    find_child_at(c, name, 0)
}

pub proof fn lemma_find_child_at(c: Seq<TreeView>, name: Seq<char>, k: int)
    requires
        0 <= k <= c.len(),
    ensures
        match find_child_at(c, name, k) {
            Some(j) => k <= j < c.len() && c[j].name == name && (forall|m: int|
                k <= m < j ==> c[m].name != name),
            None => forall|m: int| k <= m < c.len() ==> c[m].name != name,
        },
    decreases c.len() - k,
{
    if k < c.len() && c[k].name != name {
        lemma_find_child_at(c, name, k + 1);
    }
}

/// Position at which a new child named `name` keeps `c` sorted: the first
/// index whose name is not below `name`.
pub open spec fn insert_pos_at(c: Seq<TreeView>, name: Seq<char>, k: int) -> int
    decreases c.len() - k,
{
    if k < 0 || k >= c.len() {
        c.len() as int
    } else if str_lt(c[k].name, name) {
        insert_pos_at(c, name, k + 1)
    } else {
        k
    }
}

pub open spec fn insert_pos(c: Seq<TreeView>, name: Seq<char>) -> int {
    insert_pos_at(c, name, 0)
}

pub proof fn lemma_insert_pos_at(c: Seq<TreeView>, name: Seq<char>, k: int)
    requires
        0 <= k <= c.len(),
    ensures
        k <= insert_pos_at(c, name, k) <= c.len(),
        forall|m: int| k <= m < insert_pos_at(c, name, k) ==> str_lt(c[m].name, name),
        insert_pos_at(c, name, k) < c.len() ==> !str_lt(
            c[insert_pos_at(c, name, k)].name,
            name,
        ),
    decreases c.len() - k,
{
    if k < c.len() && str_lt(c[k].name, name) {
        lemma_insert_pos_at(c, name, k + 1);
    }
}

/// Names of siblings are strictly increasing.
pub open spec fn sorted_names(s: Seq<TreeView>) -> bool {
    forall|i: int, j: int| 0 <= i < j < s.len() ==> str_lt(s[i].name, s[j].name)
}

/// Well-formedness of every node of a forest, in order.
pub open spec fn kids_wf(s: Seq<TreeView>) -> bool
    decreases s,
{
    if s.len() == 0 {
        true
    } else {
        kids_wf(s.drop_last()) && tree_wf(s.last())
    }
}

/// Well-formedness of a node: its children are sorted by name and are
/// themselves well-formed.
pub open spec fn tree_wf(t: TreeView) -> bool
    decreases t,
{
    sorted_names(t.children) && kids_wf(t.children)
}

pub proof fn lemma_kids_wf(s: Seq<TreeView>)
    ensures
        kids_wf(s) <==> (forall|k: int| 0 <= k < s.len() ==> tree_wf(#[trigger] s[k])),
    decreases s,
{
    if s.len() > 0 {
        lemma_kids_wf(s.drop_last());
        if kids_wf(s) {
            assert(forall|k: int|
                0 <= k < s.len() - 1 ==> s[k] == s.drop_last()[k] && tree_wf(s.drop_last()[k]));
        }
        if forall|k: int| 0 <= k < s.len() ==> tree_wf(#[trigger] s[k]) {
            assert(forall|k: int| 0 <= k < s.len() - 1 ==> s.drop_last()[k] == s[k]);
        }
    }
}

/// Whether the path `segs[i..]` names a node of `t`.
pub open spec fn has_walk(t: TreeView, segs: Seq<Seq<char>>, i: int) -> bool
    decreases segs.len() - i,
{
    if i >= segs.len() || i < 0 {
        true
    } else {
        match find_child(t.children, segs[i]) {
            None => false,
            Some(j) => has_walk(t.children[j], segs, i + 1),
        }
    }
}

/// The inclusion state reached by walking `segs[i..]` from `t`: `false`
/// when some segment is missing, else the final node's flag.
pub open spec fn sel_walk(t: TreeView, segs: Seq<Seq<char>>, i: int) -> bool
    decreases segs.len() - i,
{
    if i >= segs.len() || i < 0 {
        t.selected
    } else {
        match find_child(t.children, segs[i]) {
            None => false,
            Some(j) => sel_walk(t.children[j], segs, i + 1),
        }
    }
}

/// `t` with its own flag and every descendant's flag forced to `v`.
pub open spec fn set_all_view(t: TreeView, v: bool) -> TreeView
    decreases t,
{
    TreeView { name: t.name, selected: v, children: set_all_kids(t.children, v) }
}

pub open spec fn set_all_kids(s: Seq<TreeView>, v: bool) -> Seq<TreeView>
    decreases s,
{
    if s.len() == 0 {
        Seq::empty()
    } else {
        set_all_kids(s.drop_last(), v).push(set_all_view(s.last(), v))
    }
}

pub proof fn lemma_set_all_kids(s: Seq<TreeView>, v: bool)
    ensures
        set_all_kids(s, v).len() == s.len(),
        forall|k: int| 0 <= k < s.len() ==> set_all_kids(s, v)[k] == set_all_view(s[k], v),
    decreases s,
{
    if s.len() > 0 {
        lemma_set_all_kids(s.drop_last(), v);
        assert(forall|k: int|
            0 <= k < s.len() - 1 ==> set_all_kids(s, v)[k] == set_all_kids(s.drop_last(), v)[k]
                && s.drop_last()[k] == s[k]);
    }
}

pub proof fn lemma_set_all_wf(t: TreeView, v: bool)
    requires
        tree_wf(t),
    ensures
        tree_wf(set_all_view(t, v)),
        set_all_view(t, v).name == t.name,
    decreases t,
{
    lemma_set_all_kids(t.children, v);
    lemma_kids_wf(t.children);
    let out = set_all_view(t, v);
    assert forall|k: int| 0 <= k < out.children.len() implies tree_wf(#[trigger] out.children[k]) by {
        lemma_set_all_wf(t.children[k], v);
    }
    lemma_kids_wf(out.children);
    assert(sorted_names(out.children)) by {
        assert forall|i: int, j: int| 0 <= i < j < out.children.len() implies str_lt(
            out.children[i].name,
            out.children[j].name,
        ) by {
            lemma_set_all_wf(t.children[i], v);
            lemma_set_all_wf(t.children[j], v);
        }
    }
}

/// The result of toggling the node named by `segs[i..]`: its flag is
/// flipped and forced onto its whole subtree; a missing path changes
/// nothing.
pub open spec fn toggle_walk(t: TreeView, segs: Seq<Seq<char>>, i: int) -> TreeView
    decreases segs.len() - i,
{
    if i >= segs.len() || i < 0 {
        set_all_view(t, !t.selected)
    } else {
        match find_child(t.children, segs[i]) {
            None => t,
            Some(j) => TreeView {
                name: t.name,
                selected: t.selected,
                children: t.children.update(j, toggle_walk(t.children[j], segs, i + 1)),
            },
        }
    }
}

/// A chain of fresh nodes for the segments `segs[i..]`, each selected.
pub open spec fn chain_view(segs: Seq<Seq<char>>, i: int) -> TreeView
    decreases segs.len() - i,
{
    TreeView {
        name: if 0 <= i < segs.len() {
            segs[i]
        } else {
            Seq::empty()
        },
        selected: true,
        children: if 0 <= i && i + 1 < segs.len() {
            seq![chain_view(segs, i + 1)]
        } else {
            Seq::empty()
        },
    }
}

pub proof fn lemma_chain_wf(segs: Seq<Seq<char>>, i: int)
    ensures
        tree_wf(chain_view(segs, i)),
    decreases segs.len() - i,
{
    if 0 <= i && i + 1 < segs.len() {
        lemma_chain_wf(segs, i + 1);
        let c = chain_view(segs, i).children;
        assert(c =~= seq![chain_view(segs, i + 1)]);
        assert(kids_wf(c.drop_last()));
        assert(c.last() == chain_view(segs, i + 1));
    } else {
        let c = chain_view(segs, i).children;
        assert(c.len() == 0);
    }
}

/// The result of inserting the path `segs[i..]` under `t`: missing nodes
/// are created selected, present nodes are untouched.
pub open spec fn insert_walk(t: TreeView, segs: Seq<Seq<char>>, i: int) -> TreeView
    decreases segs.len() - i,
{
    if i >= segs.len() || i < 0 {
        t
    } else {
        match find_child(t.children, segs[i]) {
            Some(j) => TreeView {
                name: t.name,
                selected: t.selected,
                children: t.children.update(j, insert_walk(t.children[j], segs, i + 1)),
            },
            None => TreeView {
                name: t.name,
                selected: t.selected,
                children: t.children.insert(
                    insert_pos(t.children, segs[i]),
                    chain_view(segs, i),
                ),
            },
        }
    }
}

pub proof fn lemma_insert_wf(t: TreeView, segs: Seq<Seq<char>>, i: int)
    requires
        tree_wf(t),
    ensures
        tree_wf(insert_walk(t, segs, i)),
        insert_walk(t, segs, i).name == t.name,
        insert_walk(t, segs, i).selected == t.selected,
    decreases segs.len() - i,
{
    if i >= segs.len() || i < 0 {
    } else {
        let c = t.children;
        lemma_kids_wf(c);
        match find_child(c, segs[i]) {
            Some(j) => {
                lemma_find_child_at(c, segs[i], 0);
                lemma_insert_wf(c[j], segs, i + 1);
                let nc = c.update(j, insert_walk(c[j], segs, i + 1));
                assert(forall|m: int| 0 <= m < nc.len() ==> nc[m].name == c[m].name);
                assert(sorted_names(nc));
                assert(forall|m: int| 0 <= m < nc.len() ==> tree_wf(#[trigger] nc[m]));
                lemma_kids_wf(nc);
            },
            None => {
                lemma_find_child_at(c, segs[i], 0);
                let p = insert_pos(c, segs[i]);
                lemma_insert_pos_at(c, segs[i], 0);
                lemma_chain_wf(segs, i);
                let nc = c.insert(p, chain_view(segs, i));
                assert(chain_view(segs, i).name == segs[i]);
                assert(sorted_names(nc)) by {
                    assert forall|a: int, b: int| 0 <= a < b < nc.len() implies str_lt(
                        nc[a].name,
                        nc[b].name,
                    ) by {
                        if a < p && b == p {
                            assert(nc[a] == c[a]);
                            assert(str_lt(c[a].name, segs[i]));
                        } else if a == p && b > p {
                            assert(nc[b] == c[b - 1]);
                            assert(c[b - 1].name != segs[i]);
                            if b - 1 == p {
                                assert(!str_lt(c[p].name, segs[i]));
                                lemma_str_lt_total(segs[i], c[p].name);
                            } else {
                                assert(!str_lt(c[p].name, segs[i]));
                                lemma_str_lt_total(segs[i], c[p].name);
                                assert(str_lt(segs[i], c[p].name));
                                assert(str_lt(c[p].name, c[b - 1].name));
                                lemma_str_lt_trans(segs[i], c[p].name, c[b - 1].name);
                            }
                        } else if a < p && b > p {
                            assert(nc[a] == c[a] && nc[b] == c[b - 1]);
                            if b - 1 == a {
                                assert(str_lt(c[a].name, segs[i]));
                                assert(false);
                            }
                        } else if a < p && b < p {
                            assert(nc[a] == c[a] && nc[b] == c[b]);
                        } else {
                            assert(a > p || (a == p && b == p));
                            assert(nc[a] == c[a - 1] && nc[b] == c[b - 1]);
                        }
                    }
                }
                assert(forall|m: int| 0 <= m < p ==> nc[m] == c[m]);
                assert(forall|m: int| p < m < nc.len() ==> nc[m] == c[m - 1]);
                assert(forall|m: int| 0 <= m < nc.len() ==> tree_wf(#[trigger] nc[m]));
                lemma_kids_wf(nc);
            },
        }
    }
}

pub proof fn lemma_toggle_wf(t: TreeView, segs: Seq<Seq<char>>, i: int)
    requires
        tree_wf(t),
    ensures
        tree_wf(toggle_walk(t, segs, i)),
        toggle_walk(t, segs, i).name == t.name,
    decreases segs.len() - i,
{
    if i >= segs.len() || i < 0 {
        lemma_set_all_wf(t, !t.selected);
    } else {
        let c = t.children;
        lemma_kids_wf(c);
        match find_child(c, segs[i]) {
            Some(j) => {
                lemma_find_child_at(c, segs[i], 0);
                lemma_toggle_wf(c[j], segs, i + 1);
                let nc = c.update(j, toggle_walk(c[j], segs, i + 1));
                assert(forall|m: int| 0 <= m < nc.len() ==> nc[m].name == c[m].name);
                assert(sorted_names(nc));
                assert(forall|m: int| 0 <= m < nc.len() ==> tree_wf(#[trigger] nc[m]));
                lemma_kids_wf(nc);
            },
            None => {},
        }
    }
}

pub proof fn lemma_toggle_name(t: TreeView, segs: Seq<Seq<char>>, i: int)
    ensures
        toggle_walk(t, segs, i).name == t.name,
    decreases segs.len() - i,
{
}

/// Lookup depends only on the children's names.
pub proof fn lemma_find_child_names(c1: Seq<TreeView>, c2: Seq<TreeView>, name: Seq<char>, k: int)
    requires
        c1.len() == c2.len(),
        forall|m: int| 0 <= m < c1.len() ==> c1[m].name == c2[m].name,
    ensures
        find_child_at(c1, name, k) == find_child_at(c2, name, k),
    decreases c1.len() - k,
{
    if 0 <= k < c1.len() {
        lemma_find_child_names(c1, c2, name, k + 1);
    }
}

/// Forcing a flag onto a subtree keeps every path of the subtree.
pub proof fn lemma_set_all_has(t: TreeView, q: Seq<Seq<char>>, i: int, v: bool)
    requires
        has_walk(t, q, i),
    ensures
        has_walk(set_all_view(t, v), q, i),
    decreases q.len() - i,
{
    if 0 <= i < q.len() {
        lemma_set_all_kids(t.children, v);
        lemma_find_child_names(t.children, set_all_view(t, v).children, q[i], 0);
        let j = find_child(t.children, q[i])->Some_0;
        lemma_find_child_at(t.children, q[i], 0);
        lemma_set_all_has(t.children[j], q, i + 1, v);
    }
}

/// After forcing a flag onto a subtree, every path of the subtree reads
/// that flag.
pub proof fn lemma_set_all_sel(t: TreeView, q: Seq<Seq<char>>, i: int, v: bool)
    requires
        has_walk(t, q, i),
        0 <= i,
    ensures
        sel_walk(set_all_view(t, v), q, i) == v,
    decreases q.len() - i,
{
    if i < q.len() {
        lemma_set_all_kids(t.children, v);
        lemma_find_child_names(t.children, set_all_view(t, v).children, q[i], 0);
        let j = find_child(t.children, q[i])->Some_0;
        lemma_find_child_at(t.children, q[i], 0);
        lemma_set_all_sel(t.children[j], q, i + 1, v);
    }
}

/// A toggle never adds or removes nodes: every path present before is
/// present after.
pub proof fn lemma_toggle_has(t: TreeView, p: Seq<Seq<char>>, q: Seq<Seq<char>>, i: int)
    requires
        has_walk(t, q, i),
    ensures
        has_walk(toggle_walk(t, p, i), q, i),
    decreases q.len() - i,
{
    if i >= p.len() || i < 0 {
        lemma_set_all_has(t, q, i, !t.selected);
    } else if 0 <= i < q.len() {
        match find_child(t.children, p[i]) {
            None => {},
            Some(jp) => {
                lemma_find_child_at(t.children, p[i], 0);
                let nt = toggle_walk(t, p, i);
                let nc = t.children.update(jp, toggle_walk(t.children[jp], p, i + 1));
                lemma_toggle_name(t.children[jp], p, i + 1);
                lemma_find_child_names(t.children, nc, q[i], 0);
                match find_child(t.children, q[i]) {
                    None => {},
                    Some(jq) => {
                        lemma_find_child_at(t.children, q[i], 0);
                        if jq == jp {
                            lemma_toggle_has(t.children[jp], p, q, i + 1);
                        }
                    },
                }
            },
        }
    }
}

/// The cascade law: toggling the node at path `p` drives the flag read at
/// every present descendant path `c` of `p` (including `p` itself) to the
/// negation of the flag `p` had.
pub proof fn lemma_toggle_cascades(t: TreeView, p: Seq<Seq<char>>, c: Seq<Seq<char>>, i: int)
    requires
        0 <= i <= p.len(),
        p.len() <= c.len(),
        forall|k: int| 0 <= k < p.len() ==> p[k] == c[k],
        has_walk(t, c, i),
    ensures
        sel_walk(toggle_walk(t, p, i), c, i) == !sel_walk(t, p, i),
    decreases p.len() - i,
{
    if i == p.len() {
        lemma_set_all_sel(t, c, i, !t.selected);
    } else {
        match find_child(t.children, c[i]) {
            None => {
                assert(false);
            },
            Some(j) => {
                lemma_find_child_at(t.children, c[i], 0);
                let nc = t.children.update(j, toggle_walk(t.children[j], p, i + 1));
                lemma_toggle_name(t.children[j], p, i + 1);
                lemma_find_child_names(t.children, nc, c[i], 0);
                lemma_toggle_cascades(t.children[j], p, c, i + 1);
            },
        }
    }
}

/// Law: `toggle(p)` followed by `is_selected(c)`, for any present
/// descendant path `c` of `p`, reads the new state of `p`.
pub proof fn lemma_toggle_descendant_reads_new_state(
    t: TreeView,
    p: Seq<Seq<char>>,
    c: Seq<Seq<char>>,
)
    requires
        p.len() <= c.len(),
        forall|k: int| 0 <= k < p.len() ==> p[k] == c[k],
        has_walk(t, c, 0),
    ensures
        sel_walk(toggle_walk(t, p, 0), c, 0) == !sel_walk(t, p, 0),
{
    lemma_toggle_cascades(t, p, c, 0);
}

/// A present path stays present when shortened to a prefix.
pub proof fn lemma_has_prefix(t: TreeView, p: Seq<Seq<char>>, c: Seq<Seq<char>>, i: int)
    requires
        0 <= i,
        p.len() <= c.len(),
        forall|k: int| 0 <= k < p.len() ==> p[k] == c[k],
        has_walk(t, c, i),
    ensures
        has_walk(t, p, i),
    decreases c.len() - i,
{
    if i < p.len() {
        lemma_find_child_at(t.children, c[i], 0);
        match find_child(t.children, c[i]) {
            None => {},
            Some(j) => {
                lemma_has_prefix(t.children[j], p, c, i + 1);
            },
        }
    }
}

/// Law: toggling `p` twice restores the flag read at a present descendant
/// path `c`, provided `c`'s flag agreed with `p`'s before (that is, no
/// narrower toggle had set `c` apart).  When they disagreed, the double
/// toggle leaves `c` at `p`'s old flag instead of `c`'s own.
pub proof fn lemma_double_toggle_restores(t: TreeView, p: Seq<Seq<char>>, c: Seq<Seq<char>>)
    requires
        p.len() <= c.len(),
        forall|k: int| 0 <= k < p.len() ==> p[k] == c[k],
        has_walk(t, c, 0),
        sel_walk(t, c, 0) == sel_walk(t, p, 0),
    ensures
        sel_walk(toggle_walk(toggle_walk(t, p, 0), p, 0), c, 0) == sel_walk(t, c, 0),
{
    let t1 = toggle_walk(t, p, 0);
    lemma_has_prefix(t, p, c, 0);
    lemma_toggle_cascades(t, p, p, 0);
    lemma_toggle_has(t, p, c, 0);
    lemma_toggle_cascades(t1, p, c, 0);
}

/// Largest height the library keeps trees under, so that panel depths fit
/// the machine word: any tree grown by path insertion stays below it.
pub open spec fn height_bound() -> int {
    (usize::MAX as int + 3) / 2
}

/// Height of a node: one more than its tallest child.
pub open spec fn theight(t: TreeView) -> int
    decreases t,
{
    1 + forest_height(t.children)
}

pub open spec fn forest_height(s: Seq<TreeView>) -> int
    decreases s,
{
    if s.len() == 0 {
        0
    } else {
        let a = forest_height(s.drop_last());
        let b = theight(s.last());
        if a >= b {
            a
        } else {
            b
        }
    }
}

pub proof fn lemma_forest_height(s: Seq<TreeView>)
    ensures
        forest_height(s) >= 0,
        forall|k: int| 0 <= k < s.len() ==> theight(#[trigger] s[k]) <= forest_height(s),
    decreases s,
{
    if s.len() > 0 {
        lemma_forest_height(s.drop_last());
        assert(forall|k: int| 0 <= k < s.len() - 1 ==> s.drop_last()[k] == s[k]);
    }
}

/// A forest whose nodes are no taller keeps its height bound.
pub proof fn lemma_forest_height_pointwise(s1: Seq<TreeView>, s2: Seq<TreeView>)
    requires
        s1.len() == s2.len(),
        forall|k: int| 0 <= k < s1.len() ==> theight(#[trigger] s1[k]) <= theight(s2[k]),
    ensures
        forest_height(s1) <= forest_height(s2),
    decreases s1,
{
    if s1.len() > 0 {
        assert(forall|k: int|
            0 <= k < s1.len() - 1 ==> s1.drop_last()[k] == s1[k] && s2.drop_last()[k] == s2[k]);
        lemma_forest_height_pointwise(s1.drop_last(), s2.drop_last());
        lemma_forest_height(s2);
        assert(s1.last() == s1[s1.len() - 1] && s2.last() == s2[s2.len() - 1]);
    }
}

pub proof fn lemma_set_all_height(t: TreeView, v: bool)
    ensures
        theight(set_all_view(t, v)) <= theight(t),
    decreases t,
{
    lemma_set_all_kids(t.children, v);
    assert forall|k: int|
        0 <= k < t.children.len() implies theight(
        #[trigger] set_all_kids(t.children, v)[k],
    ) <= theight(t.children[k]) by {
        lemma_set_all_height(t.children[k], v);
    }
    lemma_forest_height_pointwise(set_all_kids(t.children, v), t.children);
}

pub proof fn lemma_toggle_height(t: TreeView, segs: Seq<Seq<char>>, i: int)
    ensures
        theight(toggle_walk(t, segs, i)) <= theight(t),
    decreases segs.len() - i,
{
    if i >= segs.len() || i < 0 {
        lemma_set_all_height(t, !t.selected);
    } else {
        match find_child(t.children, segs[i]) {
            None => {},
            Some(j) => {
                lemma_find_child_at(t.children, segs[i], 0);
                let nc = t.children.update(j, toggle_walk(t.children[j], segs, i + 1));
                assert forall|k: int|
                    0 <= k < nc.len() implies theight(#[trigger] nc[k]) <= theight(
                    t.children[k],
                ) by {
                    if k == j {
                        lemma_toggle_height(t.children[j], segs, i + 1);
                    }
                }
                lemma_forest_height_pointwise(nc, t.children);
            },
        }
    }
}

pub proof fn lemma_chain_height(segs: Seq<Seq<char>>, i: int)
    ensures
        theight(chain_view(segs, i)) <= if segs.len() - i >= 1 {
            segs.len() - i
        } else {
            1
        },
    decreases segs.len() - i,
{
    let t = chain_view(segs, i);
    if 0 <= i && i + 1 < segs.len() {
        lemma_chain_height(segs, i + 1);
        assert(t.children =~= seq![chain_view(segs, i + 1)]);
        assert(t.children.drop_last() =~= Seq::<TreeView>::empty());
        assert(forest_height(t.children.drop_last()) == 0);
        assert(t.children.last() == chain_view(segs, i + 1));
        assert(forest_height(t.children) <= segs.len() - i - 1);
        assert(theight(t) == 1 + forest_height(t.children));
    } else {
        assert(t.children.len() == 0);
        assert(forest_height(t.children) == 0);
        assert(theight(t) == 1);
    }
}

/// Inserting a forest element no taller than the bound keeps the forest
/// within it.
pub proof fn lemma_forest_height_insert(s: Seq<TreeView>, x: TreeView, pos: int, bound: int)
    requires
        0 <= pos <= s.len(),
        forest_height(s) <= bound,
        theight(x) <= bound,
    ensures
        forest_height(s.insert(pos, x)) <= bound,
    decreases s.len(),
{
    let ns = s.insert(pos, x);
    lemma_forest_height(s);
    lemma_forest_height(ns);
    if ns.len() > 0 {
        if pos == s.len() {
            assert(ns.drop_last() =~= s);
            assert(ns.last() == x);
        } else {
            assert(ns.drop_last() =~= s.drop_last().insert(pos, x));
            assert(ns.last() == s.last());
            lemma_forest_height_insert(s.drop_last(), x, pos, bound);
        }
    }
}

/// Growing by one path keeps the tree no taller than the taller of itself
/// and the inserted chain.
pub proof fn lemma_insert_height(t: TreeView, segs: Seq<Seq<char>>, i: int, bound: int)
    requires
        theight(t) <= bound,
        segs.len() - i + 1 <= bound,
        1 <= bound,
    ensures
        theight(insert_walk(t, segs, i)) <= bound,
    decreases segs.len() - i,
{
    if i >= segs.len() || i < 0 {
    } else {
        lemma_forest_height(t.children);
        match find_child(t.children, segs[i]) {
            Some(j) => {
                lemma_find_child_at(t.children, segs[i], 0);
                let nc = t.children.update(j, insert_walk(t.children[j], segs, i + 1));
                lemma_insert_height(t.children[j], segs, i + 1, bound - 1);
                assert forall|k: int|
                    0 <= k < nc.len() implies theight(#[trigger] nc[k]) <= bound - 1 by {
                    if k != j {
                        assert(theight(t.children[k]) <= forest_height(t.children));
                    }
                }
                assert(forest_height(nc) <= bound - 1) by {
                    lemma_forest_bound(nc, bound - 1);
                }
            },
            None => {
                let pos = insert_pos(t.children, segs[i]);
                lemma_insert_pos_at(t.children, segs[i], 0);
                lemma_chain_height(segs, i);
                lemma_forest_height_insert(t.children, chain_view(segs, i), pos, bound - 1);
            },
        }
    }
}

/// A forest of nodes under a height bound is under it as a whole.
pub proof fn lemma_forest_bound(s: Seq<TreeView>, bound: int)
    requires
        0 <= bound,
        forall|k: int| 0 <= k < s.len() ==> theight(#[trigger] s[k]) <= bound,
    ensures
        forest_height(s) <= bound,
    decreases s,
{
    if s.len() > 0 {
        assert(forall|k: int| 0 <= k < s.len() - 1 ==> s.drop_last()[k] == s[k]);
        lemma_forest_bound(s.drop_last(), bound);
        assert(s.last() == s[s.len() - 1]);
    }
}

pub proof fn lemma_insert_name(t: TreeView, segs: Seq<Seq<char>>, i: int)
    ensures
        insert_walk(t, segs, i).name == t.name,
        insert_walk(t, segs, i).selected == t.selected,
    decreases segs.len() - i,
{
}

/// Inserting an element shifts lookups of other names, and a first lookup
/// of the element's own name where none matched before.
pub proof fn lemma_find_child_insert(c: Seq<TreeView>, x: TreeView, pos: int, name: Seq<char>)
    requires
        0 <= pos <= c.len(),
    ensures
        x.name != name ==> find_child(c.insert(pos, x), name) == (match find_child(c, name) {
            None => None::<int>,
            Some(j) => Some(
                if j < pos {
                    j
                } else {
                    j + 1
                },
            ),
        }),
        x.name == name && find_child(c, name) is None ==> find_child(c.insert(pos, x), name)
            == Some(pos),
{
    let nc = c.insert(pos, x);
    lemma_find_child_at(c, name, 0);
    lemma_find_child_at(nc, name, 0);
    assert(forall|m: int| 0 <= m < pos ==> nc[m] == c[m]);
    assert(forall|m: int| pos < m < nc.len() ==> nc[m] == c[m - 1]);
    assert(nc[pos] == x);
    if x.name != name {
        match find_child(c, name) {
            None => {
                if find_child(nc, name) is Some {
                    let j = find_child(nc, name)->Some_0;
                    assert(nc[j].name == name);
                    assert(false);
                }
            },
            Some(j) => {
                let j2: int = if j < pos {
                    j
                } else {
                    j + 1
                };
                assert(nc[j2].name == name);
                match find_child(nc, name) {
                    None => {
                        assert(false);
                    },
                    Some(j3) => {
                        if j3 < j2 {
                            if j3 < pos {
                                assert(c[j3].name == name);
                                assert(false);
                            } else if j3 == pos {
                                assert(false);
                            } else {
                                assert(c[j3 - 1].name == name);
                                assert(j3 - 1 < j);
                                assert(false);
                            }
                        } else if j3 > j2 {
                            assert(find_child_at(nc, name, 0) == Some(j3));
                            assert(false);
                        }
                    },
                }
            },
        }
    } else {
        if find_child(c, name) is None {
            assert(nc[pos].name == name);
            match find_child(nc, name) {
                None => {
                    assert(false);
                },
                Some(j3) => {
                    if j3 < pos {
                        assert(c[j3].name == name);
                        assert(false);
                    } else if j3 > pos {
                        assert(false);
                    }
                },
            }
        }
    }
}

/// A fresh chain holds its own remaining path, selected throughout.
pub proof fn lemma_chain_has(segs: Seq<Seq<char>>, i: int)
    requires
        0 <= i,
    ensures
        has_walk(chain_view(segs, i), segs, i + 1),
        sel_walk(chain_view(segs, i), segs, i + 1),
    decreases segs.len() - i,
{
    let t = chain_view(segs, i);
    if i + 1 < segs.len() {
        assert(t.children == seq![chain_view(segs, i + 1)]);
        assert(t.children[0].name == segs[i + 1]);
        assert(find_child_at(t.children, segs[i + 1], 0) == Some(0int));
        lemma_chain_has(segs, i + 1);
    }
}

/// Inserting a path never adds, removes or re-flags any node on another
/// present path: presence and read flags are preserved.
pub proof fn lemma_insert_preserves(t: TreeView, p: Seq<Seq<char>>, q: Seq<Seq<char>>, i: int)
    requires
        has_walk(t, q, i),
    ensures
        has_walk(insert_walk(t, p, i), q, i),
        sel_walk(insert_walk(t, p, i), q, i) == sel_walk(t, q, i),
    decreases q.len() - i,
{
    if i >= p.len() || i < 0 {
    } else {
        let nt = insert_walk(t, p, i);
        match find_child(t.children, p[i]) {
            Some(jp) => {
                lemma_find_child_at(t.children, p[i], 0);
                let nc = t.children.update(jp, insert_walk(t.children[jp], p, i + 1));
                lemma_insert_name(t.children[jp], p, i + 1);
                if i >= q.len() {
                } else {
                    lemma_find_child_names(t.children, nc, q[i], 0);
                    match find_child(t.children, q[i]) {
                        None => {},
                        Some(jq) => {
                            lemma_find_child_at(t.children, q[i], 0);
                            if jq == jp {
                                lemma_insert_preserves(t.children[jp], p, q, i + 1);
                            }
                        },
                    }
                }
            },
            None => {
                let pos = insert_pos(t.children, p[i]);
                let x = chain_view(p, i);
                lemma_insert_pos_at(t.children, p[i], 0);
                if i >= q.len() {
                } else {
                    lemma_find_child_at(t.children, q[i], 0);
                    match find_child(t.children, q[i]) {
                        None => {},
                        Some(jq) => {
                            assert(x.name == p[i]);
                            lemma_find_child_at(t.children, p[i], 0);
                            assert(t.children[jq].name == q[i]);
                            assert(x.name != q[i]);
                            lemma_find_child_insert(t.children, x, pos, q[i]);
                            let jq2: int = if jq < pos {
                                jq
                            } else {
                                jq + 1
                            };
                            assert(nt.children[jq2] == t.children[jq]);
                        },
                    }
                }
            },
        }
    }
}

/// After inserting a path, the path is present, and its nodes that were
/// missing before read as selected.
pub proof fn lemma_insert_has_self(t: TreeView, p: Seq<Seq<char>>, i: int)
    requires
        0 <= i,
    ensures
        has_walk(insert_walk(t, p, i), p, i),
    decreases p.len() - i,
{
    if i >= p.len() {
    } else {
        let nt = insert_walk(t, p, i);
        match find_child(t.children, p[i]) {
            Some(jp) => {
                lemma_find_child_at(t.children, p[i], 0);
                let nc = t.children.update(jp, insert_walk(t.children[jp], p, i + 1));
                lemma_insert_name(t.children[jp], p, i + 1);
                lemma_find_child_names(t.children, nc, p[i], 0);
                lemma_insert_has_self(t.children[jp], p, i + 1);
            },
            None => {
                let pos = insert_pos(t.children, p[i]);
                let x = chain_view(p, i);
                lemma_insert_pos_at(t.children, p[i], 0);
                assert(x.name == p[i]);
                lemma_find_child_insert(t.children, x, pos, p[i]);
                assert(nt.children[pos] == x);
                lemma_chain_has(p, i);
            },
        }
    }
}

/// Result of looking a name up among sorted children: its position, or the
/// position where it would have to be inserted.
pub enum ChildPos {
    Found(usize),
    Missing(usize),
}

/// Finds `name` among the children `c`, which must be sorted by name.
fn child_search(c: &Vec<ModuleTree>, name: &str) -> (r: ChildPos)
    requires
        sorted_names(child_views(c@)),
    ensures
        match r {
            ChildPos::Found(j) => j < c@.len() && find_child(child_views(c@), name@) == Some(
                j as int,
            ),
            ChildPos::Missing(k) => k <= c@.len() && find_child(child_views(c@), name@) is None
                && insert_pos(child_views(c@), name@) == k as int,
        },
{
    let ghost cv = child_views(c@);
    proof {
        lemma_child_views(c@);
    }
    let n = c.len();
    let mut k: usize = 0;
    loop
        invariant
            k <= n,
            n == c@.len(),
            cv == child_views(c@),
            cv.len() == n,
            sorted_names(cv),
            forall|m: int| 0 <= m < n ==> cv[m] == tree_view(c@[m]),
            find_child_at(cv, name@, 0) == find_child_at(cv, name@, k as int),
            insert_pos_at(cv, name@, 0) == insert_pos_at(cv, name@, k as int),
        decreases n - k,
    {
        if k == n {
            return ChildPos::Missing(k);
        }
        match str_compare(c[k].name.as_str(), name) {
            StrOrder::Before => {
                proof {
                    assert(str_lt(cv[k as int].name, name@));
                    lemma_str_lt_irrefl(cv[k as int].name);
                    lemma_str_lt_total(cv[k as int].name, name@);
                    assert(cv[k as int].name != name@);
                }
                k = k + 1;
            },
            StrOrder::Same => {
                proof {
                    assert(cv[k as int].name == name@);
                }
                return ChildPos::Found(k);
            },
            StrOrder::After => {
                proof {
                    assert(str_lt(name@, cv[k as int].name));
                    lemma_str_lt_total(name@, cv[k as int].name);
                    assert(!str_lt(cv[k as int].name, name@));
                    assert(insert_pos_at(cv, name@, k as int) == k as int);
                    assert(find_child_at(cv, name@, k as int) is None) by {
                        lemma_find_child_at(cv, name@, k as int);
                        if find_child_at(cv, name@, k as int) is Some {
                            let j = find_child_at(cv, name@, k as int)->Some_0;
                            assert(cv[j].name == name@);
                            if j == k {
                                lemma_str_lt_irrefl(name@);
                            } else {
                                assert(str_lt(cv[k as int].name, cv[j].name));
                                lemma_str_lt_trans(name@, cv[k as int].name, cv[j].name);
                                lemma_str_lt_irrefl(name@);
                            }
                        }
                    }
                }
                return ChildPos::Missing(k);
            },
        }
    }
}

/// A chain of fresh nodes, one for each of `segs[i..]`, each selected.
fn new_chain(segs: &Vec<String>, i: usize) -> (r: ModuleTree)
    requires
        i < segs@.len(),
    ensures
        r@ == chain_view(segs.deep_view(), i as int),
        tree_wf(r@),
    decreases segs@.len() - i,
{
    let name = segs[i].clone();
    proof {
        lemma_chain_wf(segs.deep_view(), i as int);
    }
    if i < segs.len() - 1 {
        let child = new_chain(segs, i + 1);
        let mut cs: Vec<ModuleTree> = Vec::new();
        cs.push(child);
        proof {
            assert(cs@.len() == 1);
            assert(cs@.drop_last() =~= Seq::<ModuleTree>::empty());
            assert(child_views(cs@.drop_last()) =~= Seq::<TreeView>::empty());
            assert(cs@.last() == child);
            assert(child_views(cs@) =~= seq![tree_view(child)]);
            assert(tree_view(ModuleTree { name: name, children: cs, is_selected: true }) =~= (
            chain_view(segs.deep_view(), i as int)));
        }
        ModuleTree { name, children: cs, is_selected: true }
    } else {
        let r = ModuleTree { name, children: Vec::new(), is_selected: true };
        proof {
            assert(tree_view(r) =~= chain_view(segs.deep_view(), i as int));
        }
        r
    }
}

impl ModuleTree {
    pub fn new(name: String) -> (t: ModuleTree)
        ensures
            t@ == (TreeView { name: name@, selected: true, children: Seq::empty() }),
            tree_wf(t@),
    {
        let t = ModuleTree { name, children: Vec::new(), is_selected: true };
        proof {
            assert(t@ =~= TreeView { name: t.name@, selected: true, children: Seq::empty() });
        }
        t
    }

    /// A deep copy whose model is the same tree.
    pub fn duplicate(&self) -> (r: ModuleTree)
        ensures
            r@ == self@,
        decreases *self,
    {
        let mut cs: Vec<ModuleTree> = Vec::new();
        let n = self.children.len();
        let mut i: usize = 0;
        while i < n
            invariant
                i <= n,
                n == self.children@.len(),
                cs@.len() == i,
                forall|k: int| 0 <= k < i ==> tree_view(cs@[k]) == tree_view(
                    self.children@[k],
                ),
            decreases n - i,
        {
            proof {
                assert(decreases_to!(*self => self.children));
                assert(decreases_to!(self.children => self.children@));
                assert(decreases_to!(self.children@ => self.children@[i as int]));
            }
            let d = self.children[i].duplicate();
            cs.push(d);
            i = i + 1;
        }
        let r = ModuleTree {
            name: self.name.clone(),
            children: cs,
            is_selected: self.is_selected,
        };
        proof {
            lemma_child_views(r.children@);
            lemma_child_views(self.children@);
            assert(child_views(r.children@) =~= child_views(self.children@));
            assert(tree_view(r) =~= tree_view(*self));
        }
        r
    }

    /// Inserts every segment of `path` as a chain of nodes, creating
    /// what is missing as selected and leaving what exists untouched.
    pub fn insert_module(&mut self, path: &str)
        requires
            tree_wf(old(self)@),
        ensures
            final(self)@ == insert_walk(old(self)@, split_path_spec(path@), 0),
            tree_wf(final(self)@),
            theight(old(self)@) <= height_bound() ==> theight(final(self)@) <= height_bound(),
    {
        let segs = split_path(path);
        proof {
            if theight(old(self)@) <= height_bound() {
                lemma_insert_height(old(self)@, split_path_spec(path@), 0, height_bound());
            }
        }
        self.insert_rec(&segs, 0);
    }

    fn insert_rec(&mut self, segs: &Vec<String>, i: usize)
        requires
            tree_wf(old(self)@),
            i <= segs@.len(),
        ensures
            final(self)@ == insert_walk(old(self)@, segs.deep_view(), i as int),
            tree_wf(final(self)@),
        decreases segs@.len() - i,
    {
        proof {
            lemma_insert_wf(old(self)@, segs.deep_view(), i as int);
        }
        if i == segs.len() {
            return ;
        }
        let ghost sv = segs.deep_view();
        proof {
            assert(sv[i as int] == segs@[i as int]@);
            lemma_child_views(self.children@);
        }
        match child_search(&self.children, segs[i].as_str()) {
            ChildPos::Found(j) => {
                proof {
                    lemma_find_child_at(child_views(self.children@), sv[i as int], 0);
                    lemma_kids_wf(child_views(self.children@));
                    assert(tree_wf(tree_view(self.children@[j as int])));
                    assert(decreases_to!(*self => self.children));
                    assert(decreases_to!(self.children => self.children@));
                    assert(decreases_to!(self.children@ => self.children@[j as int]));
                }
                self.children[j].insert_rec(segs, i + 1);
                proof {
                    let oc = old(self).children@;
                    lemma_child_views(oc);
                    lemma_child_views(self.children@);
                    assert(child_views(self.children@) =~= child_views(oc).update(
                        j as int,
                        insert_walk(tree_view(oc[j as int]), sv, i + 1),
                    ));
                    assert(tree_view(*self) =~= insert_walk(old(self)@, sv, i as int));
                }
            },
            ChildPos::Missing(k) => {
                let node = new_chain(segs, i);
                let ghost oc = self.children@;
                self.children.insert(k, node);
                proof {
                    lemma_child_views(oc);
                    lemma_child_views(self.children@);
                    assert(child_views(self.children@) =~= child_views(oc).insert(
                        k as int,
                        chain_view(sv, i as int),
                    ));
                    assert(tree_view(*self) =~= insert_walk(old(self)@, sv, i as int));
                }
            },
        }
    }

    /// Walks `path` from the root: `false` when any segment is
    /// missing, else the reached node's inclusion flag.
    pub fn is_module_selected(&self, path: &str) -> (r: bool)
        requires
            tree_wf(self@),
        ensures
            r == sel_walk(self@, split_path_spec(path@), 0),
    {
        let segs = split_path(path);
        self.sel_rec(&segs, 0)
    }

    fn sel_rec(&self, segs: &Vec<String>, i: usize) -> (r: bool)
        requires
            tree_wf(self@),
            i <= segs@.len(),
        ensures
            r == sel_walk(self@, segs.deep_view(), i as int),
        decreases segs@.len() - i,
    {
        if i == segs.len() {
            return self.is_selected;
        }
        let ghost sv = segs.deep_view();
        proof {
            assert(sv[i as int] == segs@[i as int]@);
            lemma_child_views(self.children@);
        }
        match child_search(&self.children, segs[i].as_str()) {
            ChildPos::Found(j) => {
                proof {
                    lemma_find_child_at(child_views(self.children@), sv[i as int], 0);
                    lemma_kids_wf(child_views(self.children@));
                }
                self.children[j].sel_rec(segs, i + 1)
            },
            ChildPos::Missing(_) => false,
        }
    }

    /// Flips the inclusion flag of the node `path` names and forces
    /// the new value onto its whole subtree; a missing path is a no-op.
    pub fn toggle_selection(&mut self, path: &str)
        requires
            tree_wf(old(self)@),
        ensures
            final(self)@ == toggle_walk(old(self)@, split_path_spec(path@), 0),
            tree_wf(final(self)@),
    {
        let segs = split_path(path);
        self.toggle_selection_recursive(&segs, 0);
    }

    pub fn toggle_selection_recursive(&mut self, parts: &Vec<String>, index: usize)
        requires
            tree_wf(old(self)@),
            index <= parts@.len(),
        ensures
            final(self)@ == toggle_walk(old(self)@, parts.deep_view(), index as int),
            tree_wf(final(self)@),
        decreases parts@.len() - index,
    {
        proof {
            lemma_toggle_wf(old(self)@, parts.deep_view(), index as int);
        }
        if index == parts.len() {
            let v = !self.is_selected;
            self.propagate_selection_to_children(v);
            return ;
        }
        let ghost sv = parts.deep_view();
        proof {
            assert(sv[index as int] == parts@[index as int]@);
            lemma_child_views(self.children@);
        }
        match child_search(&self.children, parts[index].as_str()) {
            ChildPos::Found(j) => {
                proof {
                    lemma_find_child_at(child_views(self.children@), sv[index as int], 0);
                    lemma_kids_wf(child_views(self.children@));
                    assert(decreases_to!(*self => self.children));
                    assert(decreases_to!(self.children => self.children@));
                    assert(decreases_to!(self.children@ => self.children@[j as int]));
                }
                self.children[j].toggle_selection_recursive(parts, index + 1);
                proof {
                    let oc = old(self).children@;
                    lemma_child_views(oc);
                    lemma_child_views(self.children@);
                    assert(child_views(self.children@) =~= child_views(oc).update(
                        j as int,
                        toggle_walk(tree_view(oc[j as int]), sv, index + 1),
                    ));
                    assert(tree_view(*self) =~= toggle_walk(old(self)@, sv, index as int));
                }
            },
            ChildPos::Missing(_) => {},
        }
    }

    /// Forces `selected` onto this node and its whole subtree.
    pub fn propagate_selection_to_children(&mut self, selected: bool)
        ensures
            final(self)@ == set_all_view(old(self)@, selected),
        decreases *old(self),
    {
        self.is_selected = selected;
        let n = self.children.len();
        let mut i: usize = 0;
        while i < n
            invariant
                i <= n,
                n == self.children@.len(),
                n == old(self).children@.len(),
                self.is_selected == selected,
                self.name == old(self).name,
                forall|k: int| i <= k < n ==> self.children@[k] == old(self).children@[k],
                forall|k: int| 0 <= k < i ==> tree_view(self.children@[k]) == set_all_view(
                    tree_view(old(self).children@[k]),
                    selected,
                ),
            decreases n - i,
        {
            proof {
                assert(self.children@[i as int] == old(self).children@[i as int]);
                assert(decreases_to!(*old(self) => old(self).children));
                assert(decreases_to!(old(self).children => old(self).children@));
                assert(decreases_to!(old(self).children@ => old(self).children@[i as int]));
            }
            self.children[i].propagate_selection_to_children(selected);
            i = i + 1;
        }
        proof {
            lemma_child_views(self.children@);
            lemma_child_views(old(self).children@);
            lemma_set_all_kids(child_views(old(self).children@), selected);
            assert(child_views(self.children@) =~= set_all_kids(
                child_views(old(self).children@),
                selected,
            ));
            assert(tree_view(*self) =~= set_all_view(old(self)@, selected));
        }
    }

    /// Selects every node of the tree.
    pub fn select_all(&mut self)
        requires
            tree_wf(old(self)@),
        ensures
            final(self)@ == set_all_view(old(self)@, true),
            tree_wf(final(self)@),
    {
        proof {
            lemma_set_all_wf(old(self)@, true);
        }
        self.propagate_selection_to_children(true);
    }

    /// Deselects every node of the tree.
    pub fn deselect_all(&mut self)
        requires
            tree_wf(old(self)@),
        ensures
            final(self)@ == set_all_view(old(self)@, false),
            tree_wf(final(self)@),
    {
        proof {
            lemma_set_all_wf(old(self)@, false);
        }
        self.propagate_selection_to_children(false);
    }
}

} // verus!
