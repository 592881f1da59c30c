use vstd::prelude::*;
use crate::path::is_path_prefix;
use crate::explorer::{
    TreeView, DirListing, VisibleView, toggle_view, toggle_forest_view, load_view,
    lemma_toggle_forest_not_found, tree_wf, forest_wf, listings_wf, ensure_view, ensure_forest_view,
    open_view, visible_view, visible_forest_view, lemma_load_wf, lemma_ensure_wf, row_of, lemma_ensure_forest_len,
    rebuilt_root, ensure_roots, ExplorerView, explorer_wf, listing_for, fresh_children, from_fs_view,
};
use crate::fs_data::path_label;

verus! {

/// Some node of the tree has path `p`.
pub open spec fn tree_has(t: TreeView, p: Seq<Seq<u8>>) -> bool
    decreases t,
{
    t.path == p || exists|k: int| 0 <= k < t.children.len() && tree_has(#[trigger] t.children[k], p)
}

/// Some node of the trees `s[i..]` has path `p`.
pub open spec fn forest_has(s: Seq<TreeView>, p: Seq<Seq<u8>>, i: int) -> bool {
    exists|k: int| i <= k < s.len() && 0 <= k && tree_has(#[trigger] s[k], p)
}

/// Toggling reports exactly whether the tree holds the path.
pub proof fn lemma_toggle_reports_presence(t: TreeView, p: Seq<Seq<u8>>, ls: Seq<DirListing>)
    ensures
        toggle_view(t, p, ls).1 == tree_has(t, p),
    decreases t, 0nat,
{
    if t.path != p {
        lemma_toggle_forest_reports_presence(t.children, p, ls, 0);
    }
}

/// Toggling a forest reports exactly whether one of its trees holds the
/// path.
pub proof fn lemma_toggle_forest_reports_presence(s: Seq<TreeView>, p: Seq<Seq<u8>>, ls: Seq<DirListing>, i: int)
    requires
        0 <= i,
    ensures
        toggle_forest_view(s, p, ls, i).1 == forest_has(s, p, i),
    decreases s, s.len() - i,
{
    if i < s.len() {
        lemma_toggle_reports_presence(s[i], p, ls);
        lemma_toggle_forest_reports_presence(s, p, ls, i + 1);
        if forest_has(s, p, i) {
            let k = choose|k: int| i <= k < s.len() && 0 <= k && tree_has(#[trigger] s[k], p);
            if k > i {
                assert(forest_has(s, p, i + 1));
            }
        }
        if forest_has(s, p, i + 1) {
            let k = choose|k: int| i + 1 <= k < s.len() && 0 <= k && tree_has(#[trigger] s[k], p);
            assert(forest_has(s, p, i));
        }
    }
}

/// Every directory of the tree with path `p` has its children loaded.
pub open spec fn loaded_at(t: TreeView, p: Seq<Seq<u8>>) -> bool
    decreases t,
{
    &&& (t.path == p && t.is_dir ==> t.loaded)
    &&& forall|k: int| 0 <= k < t.children.len() ==> loaded_at(#[trigger] t.children[k], p)
}

/// Toggling the same path twice gives the tree back, once the directory
/// toggled has its children loaded.
pub proof fn lemma_toggle_twice(t: TreeView, p: Seq<Seq<u8>>, ls: Seq<DirListing>)
    requires
        loaded_at(t, p),
    ensures
        toggle_view(toggle_view(t, p, ls).0, p, ls) == (t, toggle_view(t, p, ls).1),
    decreases t, 0nat,
{
    if t.path == p {
        if t.is_dir {
            assert(load_view(t, ls) == t);
            let t1 = toggle_view(t, p, ls).0;
            assert(load_view(t1, ls) == t1);
            assert(toggle_view(t1, p, ls).0 == t);
        }
    } else {
        lemma_toggle_forest_twice(t.children, p, ls, 0);
        let r = toggle_forest_view(t.children, p, ls, 0);
        if !r.1 {
            lemma_toggle_forest_not_found(t.children, p, ls, 0);
        }
    }
}

/// Toggling the same path twice in a forest gives the forest back, once the
/// directory toggled has its children loaded.
pub proof fn lemma_toggle_forest_twice(s: Seq<TreeView>, p: Seq<Seq<u8>>, ls: Seq<DirListing>, i: int)
    requires
        0 <= i,
        forall|k: int| 0 <= k < s.len() ==> loaded_at(#[trigger] s[k], p),
    ensures
        toggle_forest_view(s, p, ls, i).1 ==> toggle_forest_view(toggle_forest_view(s, p, ls, i).0, p, ls, i)
            == (s, true),
    decreases s, s.len() - i,
{
    if i < s.len() {
        lemma_toggle_twice(s[i], p, ls);
        let r = toggle_view(s[i], p, ls);
        if r.1 {
            let s1 = s.update(i, r.0);
            assert(s1[i] == r.0);
            assert(s1.update(i, s[i]) =~= s);
        } else {
            lemma_toggle_forest_twice(s, p, ls, i + 1);
            let r2 = toggle_forest_view(s, p, ls, i + 1);
            if r2.1 {
                lemma_toggle_forest_prefix(s, r2.0, p, ls, i);
            }
        }
    }
}

/// Loading the children of the first node (in pre-order) whose path is `p`,
/// found as `toggle_view` finds it. The flag tells whether such a node was
/// found.
pub open spec fn load_at_view(t: TreeView, p: Seq<Seq<u8>>, ls: Seq<DirListing>) -> (TreeView, bool)
    decreases t, 0nat,
{
    if t.path == p {
        (load_view(t, ls), true)
    } else {
        let r = load_at_forest_view(t.children, p, ls, 0);
        if r.1 {
            (TreeView { children: r.0, ..t }, true)
        } else {
            (t, false)
        }
    }
}

/// `load_at_view` over the trees `s[i..]`, stopping at the first that holds
/// `p`.
pub open spec fn load_at_forest_view(s: Seq<TreeView>, p: Seq<Seq<u8>>, ls: Seq<DirListing>, i: int) -> (
    Seq<TreeView>,
    bool,
)
    decreases s, s.len() - i,
{
    if 0 <= i < s.len() {
        let r = load_at_view(s[i], p, ls);
        if r.1 {
            (s.update(i, r.0), true)
        } else {
            load_at_forest_view(s, p, ls, i + 1)
        }
    } else {
        (s, false)
    }
}

proof fn lemma_load_at_flag(t: TreeView, p: Seq<Seq<u8>>, ls: Seq<DirListing>)
    ensures
        load_at_view(t, p, ls).1 == toggle_view(t, p, ls).1,
    decreases t, 0nat,
{
    if t.path != p {
        lemma_load_at_forest_flag(t.children, p, ls, 0);
    }
}

proof fn lemma_load_at_forest_flag(s: Seq<TreeView>, p: Seq<Seq<u8>>, ls: Seq<DirListing>, i: int)
    ensures
        load_at_forest_view(s, p, ls, i).1 == toggle_forest_view(s, p, ls, i).1,
    decreases s, s.len() - i,
{
    if 0 <= i < s.len() {
        lemma_load_at_flag(s[i], p, ls);
        if !toggle_view(s[i], p, ls).1 {
            lemma_load_at_forest_flag(s, p, ls, i + 1);
        }
    }
}

proof fn lemma_load_at_forest_not_found(s: Seq<TreeView>, p: Seq<Seq<u8>>, ls: Seq<DirListing>, i: int)
    ensures
        !load_at_forest_view(s, p, ls, i).1 ==> load_at_forest_view(s, p, ls, i).0 == s,
    decreases s.len() - i,
{
    if 0 <= i < s.len() {
        lemma_load_at_forest_not_found(s, p, ls, i + 1);
    }
}

/// Toggling the same path twice gives the tree back, but for the children
/// that the first toggle loaded: the result is the tree with the toggled
/// directory's children loaded, every other node, and every flag, as before.
pub proof fn lemma_toggle_twice_loads(t: TreeView, p: Seq<Seq<u8>>, ls: Seq<DirListing>)
    ensures
        toggle_view(toggle_view(t, p, ls).0, p, ls) == load_at_view(t, p, ls),
    decreases t, 0nat,
{
    if t.path == p {
        if t.is_dir {
            let t1 = toggle_view(t, p, ls).0;
            if t.expanded {
                assert(t1 == TreeView { expanded: false, ..t });
                let l = load_view(t1, ls);
                assert(toggle_view(t1, p, ls).0 == TreeView { expanded: true, ..l });
                assert(TreeView { expanded: true, ..l } == load_view(t, ls));
            } else {
                let l = load_view(t, ls);
                assert(t1 == TreeView { expanded: true, ..l });
                assert(toggle_view(t1, p, ls).0 == TreeView { expanded: false, ..t1 });
                assert(TreeView { expanded: false, ..t1 } == l);
            }
        }
    } else {
        let r = toggle_forest_view(t.children, p, ls, 0);
        lemma_toggle_forest_twice_loads(t.children, p, ls, 0);
        lemma_load_at_forest_flag(t.children, p, ls, 0);
        if !r.1 {
            lemma_toggle_forest_not_found(t.children, p, ls, 0);
        }
    }
}

/// Toggling the same path twice in the trees `s[i..]` gives them back but
/// for the children that the first toggle loaded, once one of them holds
/// the path.
pub proof fn lemma_toggle_forest_twice_loads(s: Seq<TreeView>, p: Seq<Seq<u8>>, ls: Seq<DirListing>, i: int)
    requires
        0 <= i,
    ensures
        toggle_forest_view(s, p, ls, i).1 ==> toggle_forest_view(toggle_forest_view(s, p, ls, i).0, p, ls, i)
            == load_at_forest_view(s, p, ls, i),
    decreases s, s.len() - i,
{
    if i < s.len() {
        lemma_toggle_twice_loads(s[i], p, ls);
        lemma_load_at_flag(s[i], p, ls);
        let r = toggle_view(s[i], p, ls);
        if r.1 {
            let s1 = s.update(i, r.0);
            assert(s1[i] == r.0);
            assert(s1.update(i, load_at_view(s[i], p, ls).0) =~= s.update(i, load_at_view(s[i], p, ls).0));
        } else {
            lemma_toggle_forest_twice_loads(s, p, ls, i + 1);
            let r2 = toggle_forest_view(s, p, ls, i + 1);
            if r2.1 {
                lemma_toggle_forest_prefix(s, r2.0, p, ls, i);
            }
        }
    }
}

/// Toggling the same path twice among the explorer's roots (as
/// `toggle_expand_in` does, twice) gives them back but for the children that
/// the first toggle loaded; where no root holds the path, nothing changes.
pub proof fn lemma_toggle_roots_twice(s: Seq<TreeView>, p: Seq<Seq<u8>>, ls: Seq<DirListing>)
    ensures
        toggle_forest_view(toggle_forest_view(s, p, ls, 0).0, p, ls, 0) == load_at_forest_view(s, p, ls, 0),
{
    lemma_toggle_forest_twice_loads(s, p, ls, 0);
    lemma_load_at_forest_flag(s, p, ls, 0);
    if !toggle_forest_view(s, p, ls, 0).1 {
        lemma_toggle_forest_not_found(s, p, ls, 0);
        lemma_load_at_forest_not_found(s, p, ls, 0);
    }
}

/// Toggling from index `i + 1` leaves `s[i]` as it was, so a second toggle
/// from `i` again passes over it.
proof fn lemma_toggle_forest_prefix(s: Seq<TreeView>, s2: Seq<TreeView>, p: Seq<Seq<u8>>, ls: Seq<DirListing>, i: int)
    requires
        0 <= i < s.len(),
        !toggle_view(s[i], p, ls).1,
        toggle_forest_view(s, p, ls, i + 1) == (s2, true),
    ensures
        toggle_forest_view(s2, p, ls, i) == toggle_forest_view(s2, p, ls, i + 1),
{
    lemma_toggle_forest_keeps_before(s, p, ls, i + 1, i);
}

/// Toggling from index `i` keeps every tree before `i`.
proof fn lemma_toggle_forest_keeps_before(s: Seq<TreeView>, p: Seq<Seq<u8>>, ls: Seq<DirListing>, i: int, j: int)
    requires
        0 <= j < i,
        j < s.len(),
    ensures
        toggle_forest_view(s, p, ls, i).0.len() == s.len(),
        toggle_forest_view(s, p, ls, i).0[j] == s[j],
    decreases s.len() - i,
{
    if 0 <= i < s.len() {
        let r = toggle_view(s[i], p, ls);
        if !r.1 {
            lemma_toggle_forest_keeps_before(s, p, ls, i + 1, j);
        }
    }
}

/// A tree is consistent when every expanded directory has its children
/// loaded and every node whose children were not loaded has none.
pub open spec fn tree_consistent(t: TreeView) -> bool
    decreases t,
{
    &&& (t.is_dir && t.expanded ==> t.loaded)
    &&& (!t.loaded ==> t.children.len() == 0)
    &&& forall|k: int| 0 <= k < t.children.len() ==> tree_consistent(#[trigger] t.children[k])
}

/// Every tree of a forest is consistent.
pub open spec fn forest_consistent(s: Seq<TreeView>) -> bool {
    forall|k: int| 0 <= k < s.len() ==> tree_consistent(#[trigger] s[k])
}

/// Loading keeps a tree consistent.
pub proof fn lemma_load_consistent(t: TreeView, ls: Seq<DirListing>)
    requires
        tree_consistent(t),
    ensures
        tree_consistent(load_view(t, ls)),
{
    if t.is_dir && !t.loaded {
        let l = load_view(t, ls);
        assert forall|k: int| 0 <= k < l.children.len() implies tree_consistent(#[trigger] l.children[k]) by {
            assert(l.children[k] == from_fs_view(listing_for(ls, t.path)[k]));
        }
    }
}

/// The root a tree is rebuilt with is consistent.
pub proof fn lemma_rebuilt_root_consistent(p: Seq<Seq<u8>>, is_dir: bool, ls: Seq<DirListing>)
    ensures
        tree_consistent(rebuilt_root(p, is_dir, ls)),
{
    let f = from_fs_view((p, path_label(p), is_dir));
    lemma_load_consistent(f, ls);
    let r = rebuilt_root(p, is_dir, ls);
    assert(r.children == load_view(f, ls).children);
}

/// Toggling keeps a tree consistent.
pub proof fn lemma_toggle_consistent(t: TreeView, p: Seq<Seq<u8>>, ls: Seq<DirListing>)
    requires
        tree_consistent(t),
    ensures
        tree_consistent(toggle_view(t, p, ls).0),
    decreases t, 0nat,
{
    if t.path == p {
        if t.is_dir && !t.expanded {
            lemma_load_consistent(t, ls);
            let l = load_view(t, ls);
            assert(TreeView { expanded: true, ..l }.children == l.children);
        }
    } else {
        lemma_toggle_forest_consistent(t.children, p, ls, 0);
        lemma_toggle_forest_keeps_len(t.children, p, ls, 0);
        let r = toggle_forest_view(t.children, p, ls, 0);
        if r.1 {
            let t2 = toggle_view(t, p, ls).0;
            assert(t2.children == r.0);
        }
    }
}

/// Toggling keeps a forest consistent: the law that `toggle_expand_in`
/// keeps the explorer's roots consistent.
pub proof fn lemma_toggle_forest_consistent(s: Seq<TreeView>, p: Seq<Seq<u8>>, ls: Seq<DirListing>, i: int)
    requires
        forest_consistent(s),
    ensures
        forest_consistent(toggle_forest_view(s, p, ls, i).0),
    decreases s, s.len() - i,
{
    if 0 <= i < s.len() {
        lemma_toggle_consistent(s[i], p, ls);
        if !toggle_view(s[i], p, ls).1 {
            lemma_toggle_forest_consistent(s, p, ls, i + 1);
        } else {
            let s2 = s.update(i, toggle_view(s[i], p, ls).0);
            assert forall|k: int| 0 <= k < s2.len() implies tree_consistent(#[trigger] s2[k]) by {
                if k != i {
                    assert(s2[k] == s[k]);
                }
            }
        }
    }
}

/// Every node of `a` is still in `b`, at the same place, with its path,
/// label and kind, and, for a file, its expanded flag; children that `a`
/// had loaded stay loaded, one for one.
pub open spec fn nodes_kept(a: TreeView, b: TreeView) -> bool
    decreases a,
{
    &&& b.path == a.path
    &&& b.label == a.label
    &&& b.is_dir == a.is_dir
    &&& (!a.is_dir ==> b.expanded == a.expanded)
    &&& (a.loaded ==> {
        &&& b.loaded
        &&& b.children.len() == a.children.len()
        &&& forall|k: int| 0 <= k < a.children.len() ==> nodes_kept(#[trigger] a.children[k], b.children[k])
    })
}

proof fn lemma_nodes_kept_refl(t: TreeView)
    ensures
        nodes_kept(t, t),
    decreases t,
{
    assert forall|k: int| 0 <= k < t.children.len() implies nodes_kept(#[trigger] t.children[k], t.children[k]) by {
        lemma_nodes_kept_refl(t.children[k]);
    }
}

/// Toggling keeps every node of the tree, with its path, label and kind,
/// and never changes a file's expanded flag.
pub proof fn lemma_toggle_keeps_nodes(t: TreeView, p: Seq<Seq<u8>>, ls: Seq<DirListing>)
    ensures
        nodes_kept(t, toggle_view(t, p, ls).0),
    decreases t, 0nat,
{
    lemma_nodes_kept_refl(t);
    if t.path != p {
        lemma_toggle_forest_keeps_nodes(t.children, p, ls, 0);
        let r = toggle_forest_view(t.children, p, ls, 0);
        if r.1 {
            assert(toggle_view(t, p, ls).0.children == r.0);
        }
    } else if t.is_dir && t.loaded {
        assert(toggle_view(t, p, ls).0.children == t.children);
    }
}

/// Toggling keeps every node of the trees `s[i..]` (and those before),
/// one for one.
pub proof fn lemma_toggle_forest_keeps_nodes(s: Seq<TreeView>, p: Seq<Seq<u8>>, ls: Seq<DirListing>, i: int)
    ensures
        toggle_forest_view(s, p, ls, i).0.len() == s.len(),
        forall|k: int| 0 <= k < s.len() ==> nodes_kept(#[trigger] s[k], toggle_forest_view(s, p, ls, i).0[k]),
    decreases s, s.len() - i,
{
    if 0 <= i < s.len() {
        let r = toggle_view(s[i], p, ls);
        if r.1 {
            lemma_toggle_keeps_nodes(s[i], p, ls);
            let s2 = s.update(i, r.0);
            assert forall|k: int| 0 <= k < s.len() implies nodes_kept(#[trigger] s[k], s2[k]) by {
                if k != i {
                    lemma_nodes_kept_refl(s[k]);
                }
            }
        } else {
            lemma_toggle_forest_keeps_nodes(s, p, ls, i + 1);
        }
    } else {
        assert forall|k: int| 0 <= k < s.len() implies nodes_kept(#[trigger] s[k], s[k]) by {
            lemma_nodes_kept_refl(s[k]);
        }
    }
}

/// Opening the way to `p` keeps a tree consistent.
pub proof fn lemma_ensure_consistent(t: TreeView, p: Seq<Seq<u8>>, ls: Seq<DirListing>)
    requires
        tree_consistent(t),
    ensures
        tree_consistent(ensure_view(t, p, ls).0),
    decreases p.len() - t.path.len(), 1nat,
{
    if is_path_prefix(t.path, p) {
        lemma_load_consistent(t, ls);
        let t1 = open_view(t, ls);
        assert(tree_consistent(t1)) by {
            if t.is_dir {
                assert(t1.children == load_view(t, ls).children);
            }
        }
        if t1.path != p && forest_wf(t1.children, t.path.len() + 1) {
            let d = t.path.len() + 1;
            lemma_ensure_forest_consistent(t1.children, p, ls, d, 0);
            lemma_ensure_forest_len(t1.children, p, ls, d, 0);
            let r = ensure_forest_view(t1.children, p, ls, d, 0);
            let t2 = ensure_view(t, p, ls).0;
            assert(t2.children == r.0);
        }
    }
}

/// Opening the way to `p` keeps the trees of a forest consistent.
pub proof fn lemma_ensure_forest_consistent(s: Seq<TreeView>, p: Seq<Seq<u8>>, ls: Seq<DirListing>, d: nat, i: int)
    requires
        forest_consistent(s),
    ensures
        forest_consistent(ensure_forest_view(s, p, ls, d, i).0),
    decreases p.len() + 1 - d, 0nat, s.len() - i,
{
    if 0 <= i < s.len() && d <= p.len() + 1 {
        if is_path_prefix(s[i].path, p) && s[i].path.len() == d {
            lemma_ensure_consistent(s[i], p, ls);
            let r = ensure_view(s[i], p, ls);
            let s2 = s.update(i, r.0);
            assert forall|k: int| 0 <= k < s2.len() implies tree_consistent(#[trigger] s2[k]) by {
                if k != i {
                    assert(s2[k] == s[k]);
                }
            }
            if !r.1 {
                lemma_ensure_forest_consistent(s2, p, ls, d, i + 1);
            }
        } else {
            lemma_ensure_forest_consistent(s, p, ls, d, i + 1);
        }
    }
}

/// Opening the way to `p` from the explorer's roots (as `ensure_visible`
/// does) keeps them consistent.
pub proof fn lemma_ensure_roots_consistent(roots: Seq<TreeView>, p: Seq<Seq<u8>>, ls: Seq<DirListing>)
    requires
        forest_consistent(roots),
    ensures
        forest_consistent(ensure_roots(roots, p, ls)),
{
    if roots.len() > 0 {
        lemma_ensure_forest_consistent(roots, p, ls, roots[0].path.len(), 0);
    }
}

/// Some shown row has path `p`.
pub open spec fn shows(rows: Seq<VisibleView>, p: Seq<Seq<u8>>) -> bool {
    exists|k: int| 0 <= k < rows.len() && (#[trigger] rows[k]).path == p
}

proof fn lemma_shows_append(a: Seq<VisibleView>, b: Seq<VisibleView>, p: Seq<Seq<u8>>)
    requires
        shows(a, p) || shows(b, p),
    ensures
        shows(a + b, p),
{
    if shows(a, p) {
        let k = choose|k: int| 0 <= k < a.len() && (#[trigger] a[k]).path == p;
        assert((a + b)[k] == a[k]);
    } else {
        let k = choose|k: int| 0 <= k < b.len() && (#[trigger] b[k]).path == p;
        assert((a + b)[a.len() + k] == b[k]);
    }
}

/// A tree whose rows show `p` makes every forest suffix holding it show `p`.
proof fn lemma_forest_shows(s: Seq<TreeView>, depth: nat, sel: Option<Seq<Seq<u8>>>, j: int, k: int, p: Seq<Seq<u8>>)
    requires
        0 <= j <= k < s.len(),
        shows(visible_view(s[k], depth, sel), p),
    ensures
        shows(visible_forest_view(s, depth, sel, j), p),
    decreases k - j,
{
    if j < k {
        lemma_forest_shows(s, depth, sel, j + 1, k, p);
        lemma_shows_append(visible_view(s[j], depth, sel), visible_forest_view(s, depth, sel, j + 1), p);
    } else {
        lemma_shows_append(visible_view(s[j], depth, sel), visible_forest_view(s, depth, sel, j + 1), p);
    }
}

/// Row `v` shows node `t`: the same path, label, kind and expanded flag.
pub open spec fn row_shows_node(v: VisibleView, t: TreeView) -> bool {
    &&& v.path == t.path
    &&& v.label == t.label
    &&& v.is_dir == t.is_dir
    &&& v.expanded == t.expanded
}

/// Some node of the tree is the one row `v` shows.
pub open spec fn tree_shown_by(t: TreeView, v: VisibleView) -> bool
    decreases t,
{
    row_shows_node(v, t) || exists|k: int| 0 <= k < t.children.len() && tree_shown_by(#[trigger] t.children[k], v)
}

/// The rows a tree shows are its nodes: the first row is the tree's own
/// node at the given depth, and every row shows some node of the tree with
/// that node's path, label, kind (directory or not, whether expanded or
/// collapsed) and expanded flag.
pub proof fn lemma_rows_show_nodes(t: TreeView, depth: nat, sel: Option<Seq<Seq<u8>>>)
    ensures
        visible_view(t, depth, sel).len() > 0,
        row_shows_node(visible_view(t, depth, sel)[0], t),
        visible_view(t, depth, sel)[0].depth == depth,
        forall|k: int| 0 <= k < visible_view(t, depth, sel).len() ==> tree_shown_by(t, #[trigger] visible_view(t, depth, sel)[k]),
    decreases t, 0nat,
{
    let rows = visible_view(t, depth, sel);
    assert(rows[0] == row_of(t, depth, sel));
    if t.is_dir && t.expanded {
        lemma_forest_rows_show_nodes(t.children, depth + 1, sel, 0);
    }
    assert forall|k: int| 0 <= k < rows.len() implies tree_shown_by(t, #[trigger] rows[k]) by {
        if k > 0 {
            let f = visible_forest_view(t.children, depth + 1, sel, 0);
            assert(rows[k] == f[k - 1]);
            let m = choose|m: int| 0 <= m < t.children.len() && tree_shown_by(#[trigger] t.children[m], f[k - 1]);
        }
    }
}

/// Every row the trees `s[i..]` show shows a node of one of them.
pub proof fn lemma_forest_rows_show_nodes(s: Seq<TreeView>, depth: nat, sel: Option<Seq<Seq<u8>>>, i: int)
    ensures
        forall|k: int|
            0 <= k < visible_forest_view(s, depth, sel, i).len() ==> exists|m: int|
                0 <= m < s.len() && tree_shown_by(#[trigger] s[m], #[trigger] visible_forest_view(s, depth, sel, i)[k]),
    decreases s, s.len() - i,
{
    if 0 <= i < s.len() {
        lemma_rows_show_nodes(s[i], depth, sel);
        lemma_forest_rows_show_nodes(s, depth, sel, i + 1);
        let a = visible_view(s[i], depth, sel);
        let b = visible_forest_view(s, depth, sel, i + 1);
        let rows = visible_forest_view(s, depth, sel, i);
        assert forall|k: int| 0 <= k < rows.len() implies exists|m: int| 0 <= m < s.len() && tree_shown_by(#[trigger] s[m], #[trigger] rows[k]) by {
            if k < a.len() {
                assert(rows[k] == a[k]);
                assert(tree_shown_by(s[i], a[k]));
            } else {
                assert(rows[k] == b[k - a.len()]);
            }
        }
    }
}

/// Once the way to `p` is opened and `p` is reached, the tree shows `p`.
pub proof fn lemma_ensure_shows(t: TreeView, p: Seq<Seq<u8>>, ls: Seq<DirListing>, depth: nat, sel: Option<Seq<Seq<u8>>>)
    requires
        tree_wf(t),
        listings_wf(ls),
        ensure_view(t, p, ls).1,
    ensures
        shows(visible_view(ensure_view(t, p, ls).0, depth, sel), p),
    decreases p.len() - t.path.len(), 1nat,
{
    lemma_load_wf(t, ls);
    let t1 = open_view(t, ls);
    let r = ensure_view(t, p, ls).0;
    if t1.path == p {
        assert(visible_view(r, depth, sel)[0] == row_of(r, depth, sel));
    } else {
        let f = ensure_forest_view(t1.children, p, ls, t.path.len() + 1, 0);
        if !t.is_dir {
            assert(t1.children.len() == 0);
        }
        lemma_ensure_forest_shows(t1.children, p, ls, t.path.len() + 1, 0, depth + 1, sel);
        lemma_shows_append(seq![row_of(r, depth, sel)], visible_forest_view(f.0, depth + 1, sel, 0), p);
    }
}

/// Once the way to `p` is opened through a forest and `p` is reached, the
/// forest shows `p`.
pub proof fn lemma_ensure_forest_shows(
    s: Seq<TreeView>,
    p: Seq<Seq<u8>>,
    ls: Seq<DirListing>,
    d: nat,
    i: int,
    depth: nat,
    sel: Option<Seq<Seq<u8>>>,
)
    requires
        0 <= i,
        forest_wf(s, d),
        listings_wf(ls),
        ensure_forest_view(s, p, ls, d, i).1,
    ensures
        shows(visible_forest_view(ensure_forest_view(s, p, ls, d, i).0, depth, sel, 0), p),
    decreases p.len() + 1 - d, 0nat, s.len() - i,
{
    if is_path_prefix(s[i].path, p) && s[i].path.len() == d {
        let r = ensure_view(s[i], p, ls);
        lemma_ensure_wf(s[i], p, ls);
        let s2 = s.update(i, r.0);
        if r.1 {
            lemma_ensure_shows(s[i], p, ls, depth, sel);
            lemma_forest_shows(s2, depth, sel, 0, i, p);
        } else {
            assert(forest_wf(s2, d));
            lemma_ensure_forest_shows(s2, p, ls, d, i + 1, depth, sel);
        }
    } else {
        lemma_ensure_forest_shows(s, p, ls, d, i + 1, depth, sel);
    }
}

/// Toggling keeps a tree well formed, with its path.
pub proof fn lemma_toggle_wf(t: TreeView, p: Seq<Seq<u8>>, ls: Seq<DirListing>)
    requires
        tree_wf(t),
        listings_wf(ls),
    ensures
        tree_wf(toggle_view(t, p, ls).0),
        toggle_view(t, p, ls).0.path == t.path,
    decreases t, 0nat,
{
    if t.path == p {
        lemma_load_wf(t, ls);
    } else {
        lemma_toggle_forest_wf(t.children, p, ls, t.path.len() + 1, 0);
        let r = toggle_forest_view(t.children, p, ls, 0);
        if r.1 {
            lemma_toggle_forest_keeps_len(t.children, p, ls, 0);
            let t2 = toggle_view(t, p, ls).0;
            assert forall|k: int| 0 <= k < t2.children.len() implies (#[trigger] t2.children[k]).path.len()
                == t2.path.len() + 1 && tree_wf(t2.children[k]) by {
                assert(forest_wf(r.0, t.path.len() + 1));
            }
        }
    }
}

pub proof fn lemma_toggle_forest_keeps_len(s: Seq<TreeView>, p: Seq<Seq<u8>>, ls: Seq<DirListing>, i: int)
    ensures
        toggle_forest_view(s, p, ls, i).0.len() == s.len(),
    decreases s.len() - i,
{
    if 0 <= i < s.len() {
        if !toggle_view(s[i], p, ls).1 {
            lemma_toggle_forest_keeps_len(s, p, ls, i + 1);
        }
    }
}

/// Toggling keeps a forest well formed at its depth.
pub proof fn lemma_toggle_forest_wf(s: Seq<TreeView>, p: Seq<Seq<u8>>, ls: Seq<DirListing>, d: nat, i: int)
    requires
        forest_wf(s, d),
        listings_wf(ls),
    ensures
        forest_wf(toggle_forest_view(s, p, ls, i).0, d),
    decreases s, s.len() - i,
{
    if 0 <= i < s.len() {
        lemma_toggle_wf(s[i], p, ls);
        if !toggle_view(s[i], p, ls).1 {
            lemma_toggle_forest_wf(s, p, ls, d, i + 1);
        } else {
            assert(forest_wf(s.update(i, toggle_view(s[i], p, ls).0), d));
        }
    }
}

/// Activating a directory makes it the one root of the tree, expanded and
/// selected, shown as the first row.
pub proof fn lemma_activate_directory(p: Seq<Seq<u8>>, ls: Seq<DirListing>)
    ensures
        ensure_roots(seq![rebuilt_root(p, true, ls)], p, ls) == seq![rebuilt_root(p, true, ls)],
        visible_forest_view(seq![rebuilt_root(p, true, ls)], 0, Some(p), 0)[0] == (VisibleView {
            path: p,
            label: path_label(p),
            is_dir: true,
            expanded: true,
            depth: 0,
            selected: true,
        }),
{
    let root = rebuilt_root(p, true, ls);
    let s = seq![root];
    assert(p.subrange(0, p.len() as int) =~= p);
    assert(is_path_prefix(root.path, p));
    assert(load_view(root, ls) == root);
    assert(open_view(root, ls) == root);
    assert(ensure_view(root, p, ls) == (root, true));
    assert(s.update(0, root) =~= s);
    assert(visible_forest_view(s, 0, Some(p), 0) == visible_view(root, 0, Some(p)) + visible_forest_view(
        s,
        0,
        Some(p),
        1,
    ));
}

/// Every row a tree shows is selected exactly when its path is the selected
/// one, and lies at least as deep as the tree.
pub proof fn lemma_rows_consistent(t: TreeView, depth: nat, sel: Option<Seq<Seq<u8>>>)
    ensures
        forall|k: int|
            0 <= k < visible_view(t, depth, sel).len() ==> (#[trigger] visible_view(t, depth, sel)[k]).selected
                == (sel == Some(visible_view(t, depth, sel)[k].path)) && visible_view(t, depth, sel)[k].depth
                >= depth,
    decreases t, 0nat,
{
    if t.is_dir && t.expanded {
        lemma_forest_rows_consistent(t.children, depth + 1, sel, 0);
    }
    let rows = visible_view(t, depth, sel);
    assert forall|k: int| 0 <= k < rows.len() implies (#[trigger] rows[k]).selected == (sel == Some(rows[k].path))
        && rows[k].depth >= depth by {
        if k > 0 && t.is_dir && t.expanded {
            let f = visible_forest_view(t.children, depth + 1, sel, 0);
            assert(rows[k] == f[k - 1]);
        }
    }
}

/// Every row a forest shows is selected exactly when its path is the
/// selected one, and lies at least as deep as the forest.
pub proof fn lemma_forest_rows_consistent(s: Seq<TreeView>, depth: nat, sel: Option<Seq<Seq<u8>>>, i: int)
    ensures
        forall|k: int|
            0 <= k < visible_forest_view(s, depth, sel, i).len() ==> (#[trigger] visible_forest_view(
                s,
                depth,
                sel,
                i,
            )[k]).selected == (sel == Some(visible_forest_view(s, depth, sel, i)[k].path))
                && visible_forest_view(s, depth, sel, i)[k].depth >= depth,
    decreases s, s.len() - i,
{
    if 0 <= i < s.len() {
        lemma_rows_consistent(s[i], depth, sel);
        lemma_forest_rows_consistent(s, depth, sel, i + 1);
        let a = visible_view(s[i], depth, sel);
        let b = visible_forest_view(s, depth, sel, i + 1);
        let rows = visible_forest_view(s, depth, sel, i);
        assert forall|k: int| 0 <= k < rows.len() implies (#[trigger] rows[k]).selected == (sel == Some(
            rows[k].path,
        )) && rows[k].depth >= depth by {
            if k < a.len() {
                assert(rows[k] == a[k]);
            } else {
                assert(rows[k] == b[k - a.len()]);
            }
        }
    }
}

/// Selecting a path that the tree reaches shows it, marked selected.
pub proof fn lemma_selected_path_shown(v: ExplorerView, p: Seq<Seq<u8>>, ls: Seq<DirListing>)
    requires
        explorer_wf(v),
        listings_wf(ls),
        v.roots.len() > 0,
        ensure_forest_view(v.roots, p, ls, v.roots[0].path.len(), 0).1,
    ensures
        exists|k: int|
            0 <= k < visible_forest_view(ensure_roots(v.roots, p, ls), 0, Some(p), 0).len() && (
            #[trigger] visible_forest_view(ensure_roots(v.roots, p, ls), 0, Some(p), 0)[k]).path == p
                && visible_forest_view(ensure_roots(v.roots, p, ls), 0, Some(p), 0)[k].selected,
{
    let d = v.roots[0].path.len();
    lemma_ensure_forest_shows(v.roots, p, ls, d, 0, 0, Some(p));
    let rows = visible_forest_view(ensure_roots(v.roots, p, ls), 0, Some(p), 0);
    lemma_forest_rows_consistent(ensure_roots(v.roots, p, ls), 0, Some(p), 0);
    let k = choose|k: int| 0 <= k < rows.len() && (#[trigger] rows[k]).path == p;
    assert(rows[k].selected);
}

/// Activating a file whose directory lists it shows the file, as a child of
/// that directory, marked selected.
pub proof fn lemma_activate_file_shown(p: Seq<Seq<u8>>, ls: Seq<DirListing>)
    requires
        p.len() > 0,
        listings_wf(ls),
        exists|m: int| 0 <= m < listing_for(ls, p.drop_last()).len() && (#[trigger] listing_for(ls, p.drop_last())[m]).0 == p,
    ensures
        exists|k: int|
            0 <= k < visible_forest_view(
                ensure_roots(seq![rebuilt_root(p.drop_last(), true, ls)], p, ls),
                0,
                Some(p),
                0,
            ).len() && (#[trigger] visible_forest_view(
                ensure_roots(seq![rebuilt_root(p.drop_last(), true, ls)], p, ls),
                0,
                Some(p),
                0,
            )[k]).path == p && visible_forest_view(
                ensure_roots(seq![rebuilt_root(p.drop_last(), true, ls)], p, ls),
                0,
                Some(p),
                0,
            )[k].selected,
{
    let dir = p.drop_last();
    let root = rebuilt_root(dir, true, ls);
    let roots = seq![root];
    let v = ExplorerView { roots, selected: Some(p) };
    let listed = listing_for(ls, dir);
    let m = choose|m: int| 0 <= m < listed.len() && (#[trigger] listed[m]).0 == p;
    let fresh = fresh_children(listed);
    crate::explorer::lemma_load_wf(from_fs_view((dir, path_label(dir), true)), ls);
    assert(tree_wf(root));
    assert(forest_wf(roots, dir.len()));
    crate::path::lemma_parent_is_prefix(p);
    assert(open_view(root, ls) == root);
    assert(root.children == fresh);
    assert(forest_wf(fresh, dir.len() + 1));
    lemma_ensure_reaches_listed(fresh, p, ls, dir.len() + 1, 0, m);
    assert(ensure_view(root, p, ls).1);
    assert(ensure_forest_view(roots, p, ls, dir.len(), 0).1);
    lemma_selected_path_shown(v, p, ls);
}

/// Opening the way to `p` through fresh trees, one of which has path `p`,
/// reaches `p`.
proof fn lemma_ensure_reaches_listed(s: Seq<TreeView>, p: Seq<Seq<u8>>, ls: Seq<DirListing>, d: nat, i: int, m: int)
    requires
        0 <= i <= m < s.len(),
        s[m].path == p,
        d == p.len(),
        forest_wf(s, d),
    ensures
        ensure_forest_view(s, p, ls, d, i).1,
    decreases m - i,
{
    crate::path::lemma_prefix_reflexive(p);
    assert(s[i].path.len() == d);
    if is_path_prefix(s[i].path, p) && s[i].path.len() == d {
        assert(s[i].path =~= p);
        assert(open_view(s[i], ls).path == p);
        assert(ensure_view(s[i], p, ls).1);
    } else {
        assert(i != m);
        lemma_ensure_reaches_listed(s, p, ls, d, i + 1, m);
    }
}

} // verus!
