use vstd::prelude::*;
use crate::path::{FsPath, is_path_prefix};
use crate::fs_data::{FsNode, NodeView, node_views, node_for_path, path_label};
use crate::file_list::{FileListState, ListView, FileRow, row_views, opt_path_view};

verus! {

/// A node of the explorer tree.
#[derive(Debug, PartialEq, Eq)]
pub struct ExplorerNode {
    pub path: FsPath,
    pub label: String,
    pub is_dir: bool,
    pub expanded: bool,
    pub children_loaded: bool,
    pub children: Vec<ExplorerNode>,
}

/// A node of the explorer tree as plain values.
pub struct TreeView {
    pub path: Seq<Seq<u8>>,
    pub label: Seq<char>,
    pub is_dir: bool,
    pub expanded: bool,
    pub loaded: bool,
    pub children: Seq<TreeView>,
}

/// The plain value of a node.
pub open spec fn tree_view(n: ExplorerNode) -> TreeView
    decreases n, 0nat,
{
    TreeView {
        path: n.path@,
        label: n.label@,
        is_dir: n.is_dir,
        expanded: n.expanded,
        loaded: n.children_loaded,
        children: forest_view(n.children@, 0),
    }
}

/// The plain values of `s[i..]`.
pub open spec fn forest_view(s: Seq<ExplorerNode>, i: int) -> Seq<TreeView>
    decreases s, s.len() - i,
{
    if 0 <= i < s.len() {
        seq![tree_view(s[i])] + forest_view(s, i + 1)
    } else {
        Seq::empty()
    }
}

impl Clone for ExplorerNode {
    fn clone(&self) -> (r: Self)
        ensures
            tree_view(r) == tree_view(*self),
        decreases *self,
    {
        let mut children: Vec<ExplorerNode> = Vec::new();
        proof {
            lemma_views(self.children@);
        }
        for i in 0..self.children.len()
            invariant
                children@.len() == i,
                i <= self.children@.len(),
                forall|k: int| 0 <= k < i ==> tree_view(#[trigger] children@[k]) == tree_view(self.children@[k]),
        {
            children.push(self.children[i].clone());
        }
        proof {
            lemma_views(self.children@);
            lemma_views_ext(children@, views(self.children@));
        }
        ExplorerNode {
            path: self.path.clone(),
            label: self.label.clone(),
            is_dir: self.is_dir,
            expanded: self.expanded,
            children_loaded: self.children_loaded,
            children,
        }
    }
}

/// The plain values of a sequence of nodes.
pub open spec fn views(s: Seq<ExplorerNode>) -> Seq<TreeView> {
    forest_view(s, 0)
}

proof fn lemma_forest_view(s: Seq<ExplorerNode>, i: int)
    requires
        0 <= i <= s.len(),
    ensures
        forest_view(s, i).len() == s.len() - i,
        forall|k: int| 0 <= k < s.len() - i ==> #[trigger] forest_view(s, i)[k] == tree_view(s[i + k]),
    decreases s.len() - i,
{
    if i < s.len() {
        lemma_forest_view(s, i + 1);
    }
}

/// `views(s)` has one view per node, in order.
pub proof fn lemma_views(s: Seq<ExplorerNode>)
    ensures
        views(s).len() == s.len(),
        forall|k: int| 0 <= k < s.len() ==> #[trigger] views(s)[k] == tree_view(s[k]),
{
    lemma_forest_view(s, 0);
}

/// The views of nodes are those of their parts, whatever the sequence.
pub proof fn lemma_views_ext(a: Seq<ExplorerNode>, b: Seq<TreeView>)
    requires
        a.len() == b.len(),
        forall|k: int| 0 <= k < a.len() ==> tree_view(#[trigger] a[k]) == b[k],
    ensures
        views(a) == b,
{
    lemma_views(a);
    assert(views(a) =~= b);
}

/// The directory listings that the explorer loads children from: for each
/// directory that was read, its children as `directory_children` gives them.
pub struct DirListing {
    pub dir: FsPath,
    pub children: Vec<FsNode>,
}

/// The children listed for `dir`: those of the first listing of `dir`, none
/// when `dir` was not listed (as when it could not be read).
pub open spec fn listing_for(ls: Seq<DirListing>, dir: Seq<Seq<u8>>) -> Seq<NodeView>
    decreases ls.len(),
{
    if ls.len() == 0 {
        Seq::empty()
    } else if ls[0].dir@ == dir {
        node_views(ls[0].children@)
    } else {
        listing_for(ls.drop_first(), dir)
    }
}

/// A fresh, collapsed, unloaded tree node for a file-system node.
pub open spec fn from_fs_view(v: NodeView) -> TreeView {
    TreeView {
        path: v.0,
        label: v.1,
        is_dir: v.2,
        expanded: false,
        loaded: false,
        children: Seq::empty(),
    }
}

/// The fresh tree nodes for a listing.
pub open spec fn fresh_children(vs: Seq<NodeView>) -> Seq<TreeView> {
    vs.map_values(|v: NodeView| from_fs_view(v))
}

/// A node after loading its children: a directory not loaded before gets
/// the children listed for its path; anything else stays as it is.
pub open spec fn load_view(t: TreeView, ls: Seq<DirListing>) -> TreeView {
    if !t.is_dir || t.loaded {
        t
    } else {
        TreeView { children: fresh_children(listing_for(ls, t.path)), loaded: true, ..t }
    }
}

/// Toggling the first node (in pre-order) whose path is `p`: a directory
/// flips between expanded and collapsed, loading its children first when it
/// expands; a file stays as it is. The flag tells whether such a node was
/// found.
pub open spec fn toggle_view(t: TreeView, p: Seq<Seq<u8>>, ls: Seq<DirListing>) -> (TreeView, bool)
    decreases t, 0nat,
{
    if t.path == p {
        if t.is_dir {
            let l = if !t.expanded {
                load_view(t, ls)
            } else {
                t
            };
            (TreeView { expanded: !t.expanded, ..l }, true)
        } else {
            (t, true)
        }
    } else {
        let r = toggle_forest_view(t.children, p, ls, 0);
        if r.1 {
            (TreeView { children: r.0, ..t }, true)
        } else {
            (t, false)
        }
    }
}

/// `toggle_view` over the trees `s[i..]`, stopping at the first that holds `p`.
pub open spec fn toggle_forest_view(s: Seq<TreeView>, p: Seq<Seq<u8>>, ls: Seq<DirListing>, i: int) -> (
    Seq<TreeView>,
    bool,
)
    decreases s, s.len() - i,
{
    if 0 <= i < s.len() {
        let r = toggle_view(s[i], p, ls);
        if r.1 {
            (s.update(i, r.0), true)
        } else {
            toggle_forest_view(s, p, ls, i + 1)
        }
    } else {
        (s, false)
    }
}

/// Finds the listing of `dir`.
fn find_listing(ls: &Vec<DirListing>, dir: &FsPath) -> (r: Option<usize>)
    ensures
        match r {
            None => listing_for(ls@, dir@) == Seq::<NodeView>::empty(),
            Some(i) => i < ls@.len() && listing_for(ls@, dir@) == node_views(ls@[i as int].children@),
        },
{
    let mut i: usize = 0;
    assert(ls@.skip(0) =~= ls@);
    while i < ls.len()
        invariant
            i <= ls@.len(),
            listing_for(ls@, dir@) == listing_for(ls@.skip(i as int), dir@),
        decreases ls@.len() - i,
    {
        if ls[i].dir.same_as(dir) {
            return Some(i);
        }
        assert(ls@.skip(i as int).drop_first() =~= ls@.skip(i + 1));
        i = i + 1;
    }
    None
}

impl ExplorerNode {
    /// A collapsed, unloaded tree node for a file-system node.
    pub fn from_fs(node: FsNode) -> (r: ExplorerNode)
        ensures
            tree_view(r) == from_fs_view(node@),
    {
        let r = ExplorerNode {
            path: node.path,
            label: node.label,
            is_dir: node.is_dir,
            expanded: false,
            children_loaded: false,
            children: Vec::new(),
        };
        proof {
            lemma_views(r.children@);
            assert(views(r.children@) =~= Seq::<TreeView>::empty());
        }
        r
    }

    /// Loads the children of a directory from the listings, once.
    pub fn load_children(&mut self, ls: &Vec<DirListing>)
        ensures
            tree_view(*final(self)) == load_view(tree_view(*old(self)), ls@),
    {
        if !self.is_dir || self.children_loaded {
            return;
        }
        let mut children: Vec<ExplorerNode> = Vec::new();
        let ghost listed = listing_for(ls@, self.path@);
        match find_listing(ls, &self.path) {
            None => {
            },
            Some(k) => {
                let src = &ls[k].children;
                for j in 0..src.len()
                    invariant
                        listed == node_views(src@),
                        children@.len() == j,
                        j <= src@.len(),
                        forall|m: int| 0 <= m < j ==> tree_view(#[trigger] children@[m]) == from_fs_view(src@[m]@),
                {
                    children.push(ExplorerNode::from_fs(src[j].clone()));
                }
            },
        }
        proof {
            lemma_views_ext(children@, fresh_children(listed));
        }
        self.children = children;
        self.children_loaded = true;
    }
}

/// When no tree holds `p`, toggling changes nothing.
pub proof fn lemma_toggle_forest_not_found(s: Seq<TreeView>, p: Seq<Seq<u8>>, ls: Seq<DirListing>, i: int)
    ensures
        !toggle_forest_view(s, p, ls, i).1 ==> toggle_forest_view(s, p, ls, i).0 == s,
    decreases s.len() - i,
{
    if 0 <= i < s.len() {
        lemma_toggle_forest_not_found(s, p, ls, i + 1);
    }
}

/// Toggles the first node (in pre-order) whose path is `path`, as
/// `toggle_forest_view` says; tells whether there was one.
pub fn toggle_expand_in(nodes: &mut Vec<ExplorerNode>, path: &FsPath, ls: &Vec<DirListing>) -> (found: bool)
    ensures
        (views(final(nodes)@), found) == toggle_forest_view(views(old(nodes)@), path@, ls@, 0),
    decreases old(nodes)@,
{
    let ghost old_views = views(nodes@);
    proof {
        lemma_views(nodes@);
    }
    let mut i: usize = 0;
    while i < nodes.len()
        invariant
            nodes@.len() == old(nodes)@.len(),
            forall|k: int| i <= k < nodes@.len() ==> #[trigger] nodes@[k] == old(nodes)@[k],
            old_views == views(old(nodes)@),
            old_views.len() == nodes@.len(),
            forall|k: int| 0 <= k < nodes@.len() ==> #[trigger] old_views[k] == tree_view(nodes@[k]),
            i <= nodes@.len(),
            toggle_forest_view(old_views, path@, ls@, 0) == toggle_forest_view(old_views, path@, ls@, i as int),
        decreases nodes@.len() - i,
    {
        let ghost before = nodes@;
        let mut node = nodes.remove(i);
        assert(node == before[i as int]);
        assert(node == old(nodes)@[i as int]);
        let ghost t = tree_view(node);
        if node.path.same_as(path) {
            if node.is_dir {
                if !node.expanded {
                    node.load_children(ls);
                }
                node.expanded = !node.expanded;
            }
            nodes.insert(i, node);
            proof {
                lemma_views_ext(nodes@, old_views.update(i as int, toggle_view(t, path@, ls@).0));
            }
            return true;
        }
        assert(decreases_to!(old(nodes)@ => old(nodes)@[i as int]));
        let found = toggle_expand_in(&mut node.children, path, ls);
        nodes.insert(i, node);
        if found {
            proof {
                lemma_views_ext(nodes@, old_views.update(i as int, toggle_view(t, path@, ls@).0));
            }
            return true;
        }
        proof {
            lemma_toggle_forest_not_found(views(before[i as int].children@), path@, ls@, 0);
            assert(tree_view(node) == t);
            assert(nodes@ == before.update(i as int, node));
        }
        i = i + 1;
    }
    proof {
        lemma_views_ext(nodes@, old_views);
    }
    false
}

/// Whether toggling `p` loads children: `None` when no node has path `p`,
/// else whether the first such node (in pre-order) is a collapsed directory
/// whose children were not loaded yet.
pub open spec fn toggle_loads_view(t: TreeView, p: Seq<Seq<u8>>) -> Option<bool>
    decreases t, 0nat,
{
    if t.path == p {
        Some(t.is_dir && !t.expanded && !t.loaded)
    } else {
        toggle_loads_forest_view(t.children, p, 0)
    }
}

/// `toggle_loads_view` over the trees `s[i..]`, stopping at the first that
/// holds `p`.
pub open spec fn toggle_loads_forest_view(s: Seq<TreeView>, p: Seq<Seq<u8>>, i: int) -> Option<bool>
    decreases s, s.len() - i,
{
    if 0 <= i < s.len() {
        match toggle_loads_view(s[i], p) {
            Some(b) => Some(b),
            None => toggle_loads_forest_view(s, p, i + 1),
        }
    } else {
        None
    }
}

/// Tells, as `toggle_loads_forest_view` does, whether toggling `path` loads
/// children.
fn toggle_loads_in(nodes: &Vec<ExplorerNode>, path: &FsPath) -> (r: Option<bool>)
    ensures
        r == toggle_loads_forest_view(views(nodes@), path@, 0),
    decreases nodes@,
{
    let ghost vs = views(nodes@);
    proof {
        lemma_views(nodes@);
    }
    let mut i: usize = 0;
    while i < nodes.len()
        invariant
            vs == views(nodes@),
            vs.len() == nodes@.len(),
            forall|k: int| 0 <= k < nodes@.len() ==> #[trigger] vs[k] == tree_view(nodes@[k]),
            i <= nodes@.len(),
            toggle_loads_forest_view(vs, path@, 0) == toggle_loads_forest_view(vs, path@, i as int),
        decreases nodes@.len() - i,
    {
        let node = &nodes[i];
        assert(vs[i as int] == tree_view(*node));
        if node.path.same_as(path) {
            let r = Some(node.is_dir && !node.expanded && !node.children_loaded);
            assert(toggle_loads_view(vs[i as int], path@) == r);
            assert(toggle_loads_forest_view(vs, path@, i as int) == r);
            return r;
        }
        assert(decreases_to!(nodes@ => nodes@[i as int]));
        let below = toggle_loads_in(&node.children, path);
        assert(vs[i as int].children == views(node.children@));
        assert(toggle_loads_view(vs[i as int], path@) == below);
        if below.is_some() {
            assert(toggle_loads_forest_view(vs, path@, i as int) == below);
            return below;
        }
        i = i + 1;
    }
    None
}

/// Toggling a node that loads nothing reads no listing: the result is the
/// same whatever the listings.
pub proof fn lemma_toggle_without_loading(t: TreeView, p: Seq<Seq<u8>>, ls: Seq<DirListing>)
    ensures
        toggle_view(t, p, ls).1 <==> toggle_loads_view(t, p) is Some,
        toggle_loads_view(t, p) != Some(true) ==> toggle_view(t, p, ls) == toggle_view(t, p, Seq::empty()),
    decreases t, 0nat,
{
    if t.path != p {
        lemma_toggle_forest_without_loading(t.children, p, ls, 0);
    }
}

/// Toggling among trees where the node toggled loads nothing reads no
/// listing.
pub proof fn lemma_toggle_forest_without_loading(s: Seq<TreeView>, p: Seq<Seq<u8>>, ls: Seq<DirListing>, i: int)
    ensures
        toggle_forest_view(s, p, ls, i).1 <==> toggle_loads_forest_view(s, p, i) is Some,
        toggle_loads_forest_view(s, p, i) != Some(true) ==> toggle_forest_view(s, p, ls, i)
            == toggle_forest_view(s, p, Seq::empty(), i),
    decreases s, s.len() - i,
{
    if 0 <= i < s.len() {
        lemma_toggle_without_loading(s[i], p, ls);
        lemma_toggle_without_loading(s[i], p, Seq::empty());
        if toggle_loads_view(s[i], p) is None {
            lemma_toggle_forest_without_loading(s, p, ls, i + 1);
        }
    }
}

/// A row of the explorer as the tree shows it.
#[derive(Debug, PartialEq, Eq)]
pub struct VisibleEntry {
    pub path: FsPath,
    pub label: String,
    pub is_dir: bool,
    pub expanded: bool,
    pub depth: usize,
    pub selected: bool,
}

impl Clone for VisibleEntry {
    fn clone(&self) -> (r: Self)
        ensures
            entry_view(r) == entry_view(*self),
    {
        VisibleEntry {
            path: self.path.clone(),
            label: self.label.clone(),
            is_dir: self.is_dir,
            expanded: self.expanded,
            depth: self.depth,
            selected: self.selected,
        }
    }
}

/// A shown row as plain values.
pub struct VisibleView {
    pub path: Seq<Seq<u8>>,
    pub label: Seq<char>,
    pub is_dir: bool,
    pub expanded: bool,
    pub depth: nat,
    pub selected: bool,
}

/// The plain value of a shown row.
pub open spec fn entry_view(e: VisibleEntry) -> VisibleView {
    VisibleView {
        path: e.path@,
        label: e.label@,
        is_dir: e.is_dir,
        expanded: e.expanded,
        depth: e.depth as nat,
        selected: e.selected,
    }
}

/// The plain values of shown rows.
pub open spec fn entry_views(s: Seq<VisibleEntry>) -> Seq<VisibleView> {
    s.map_values(|e: VisibleEntry| entry_view(e))
}

/// The row a node shows at `depth`; it is selected when its path is the
/// selected one.
pub open spec fn row_of(t: TreeView, depth: nat, sel: Option<Seq<Seq<u8>>>) -> VisibleView {
    VisibleView {
        path: t.path,
        label: t.label,
        is_dir: t.is_dir,
        expanded: t.expanded,
        depth,
        selected: sel == Some(t.path),
    }
}

/// The rows a tree shows: its own row, then, for an expanded directory, the
/// rows of its children one level deeper.
pub open spec fn visible_view(t: TreeView, depth: nat, sel: Option<Seq<Seq<u8>>>) -> Seq<VisibleView>
    decreases t, 0nat,
{
    seq![row_of(t, depth, sel)] + if t.is_dir && t.expanded {
        visible_forest_view(t.children, depth + 1, sel, 0)
    } else {
        Seq::empty()
    }
}

/// The rows the trees `s[i..]` show, one after the other.
pub open spec fn visible_forest_view(s: Seq<TreeView>, depth: nat, sel: Option<Seq<Seq<u8>>>, i: int) -> Seq<
    VisibleView,
>
    decreases s, s.len() - i,
{
    if 0 <= i < s.len() {
        visible_view(s[i], depth, sel) + visible_forest_view(s, depth, sel, i + 1)
    } else {
        Seq::empty()
    }
}

/// The number of levels of a tree.
pub open spec fn tree_height(t: TreeView) -> nat
    decreases t, 0nat,
{
    1 + forest_height(t.children, 0)
}

/// The number of levels of the highest of the trees `s[i..]`.
pub open spec fn forest_height(s: Seq<TreeView>, i: int) -> nat
    decreases s, s.len() - i,
{
    if 0 <= i < s.len() {
        let a = tree_height(s[i]);
        let b = forest_height(s, i + 1);
        if a >= b {
            a
        } else {
            b
        }
    } else {
        0
    }
}

proof fn lemma_forest_height(s: Seq<TreeView>, i: int, k: int)
    requires
        0 <= i <= k < s.len(),
    ensures
        tree_height(s[k]) <= forest_height(s, i),
    decreases k - i,
{
    if i < k {
        lemma_forest_height(s, i + 1, k);
    }
}

/// Whether the optional selected path is `p`.
fn is_selected(selected: Option<&FsPath>, p: &FsPath) -> (r: bool)
    ensures
        r == (match selected {
            Some(s) => Some(s@),
            None => None,
        } == Some(p@)),
{
    match selected {
        Some(s) => s.same_as(p),
        None => false,
    }
}

/// The plain value of an optional path.
pub open spec fn opt_view(o: Option<&FsPath>) -> Option<Seq<Seq<u8>>> {
    match o {
        Some(s) => Some(s@),
        None => None,
    }
}

impl ExplorerNode {
    /// Appends the rows this tree shows at `depth`.
    pub fn collect_visible(&self, depth: usize, selected: Option<&FsPath>, entries: &mut Vec<VisibleEntry>)
        requires
            depth + tree_height(tree_view(*self)) <= usize::MAX,
        ensures
            entry_views(final(entries)@) == entry_views(old(entries)@) + visible_view(
                tree_view(*self),
                depth as nat,
                opt_view(selected),
            ),
        decreases *self,
    {
        let ghost t = tree_view(*self);
        let ghost start = entry_views(entries@);
        entries.push(
            VisibleEntry {
                path: self.path.clone(),
                label: self.label.clone(),
                is_dir: self.is_dir,
                expanded: self.expanded,
                depth,
                selected: is_selected(selected, &self.path),
            },
        );
        assert(entry_views(entries@) =~= start + seq![row_of(t, depth as nat, opt_view(selected))]);
        if self.is_dir && self.expanded {
            proof {
                lemma_views(self.children@);
            }
            let ghost cs = views(self.children@);
            let ghost head = entry_views(entries@);
            assert(cs == t.children);
            let mut i: usize = 0;
            while i < self.children.len()
                invariant
                    cs == views(self.children@),
                    cs.len() == self.children@.len(),
                    forall|k: int| 0 <= k < cs.len() ==> #[trigger] cs[k] == tree_view(self.children@[k]),
                    i <= cs.len(),
                    depth + tree_height(t) <= usize::MAX,
                    t == tree_view(*self),
                    cs == t.children,
                    head + visible_forest_view(cs, (depth + 1) as nat, opt_view(selected), 0) == entry_views(entries@)
                        + visible_forest_view(cs, (depth + 1) as nat, opt_view(selected), i as int),
                decreases cs.len() - i,
            {
                proof {
                    lemma_forest_height(cs, 0, i as int);
                }
                let ghost mid = entry_views(entries@);
                self.children[i].collect_visible(depth + 1, selected, entries);
                assert(visible_forest_view(cs, (depth + 1) as nat, opt_view(selected), i as int) == visible_view(
                    cs[i as int],
                    (depth + 1) as nat,
                    opt_view(selected),
                ) + visible_forest_view(cs, (depth + 1) as nat, opt_view(selected), i + 1));
                assert(entry_views(entries@) + visible_forest_view(cs, (depth + 1) as nat, opt_view(selected), i + 1)
                    =~= mid + visible_forest_view(cs, (depth + 1) as nat, opt_view(selected), i as int));
                i = i + 1;
            }
            assert(entry_views(entries@) =~= head + visible_forest_view(cs, (depth + 1) as nat, opt_view(selected), 0));
        }
        assert(entry_views(entries@) =~= start + visible_view(t, depth as nat, opt_view(selected)));
    }
}

/// A tree is well formed when each child's path lies one component below
/// its parent's, and only directories have children.
pub open spec fn tree_wf(t: TreeView) -> bool
    decreases t,
{
    &&& (!t.is_dir ==> t.children.len() == 0)
    &&& forall|k: int|
        0 <= k < t.children.len() ==> (#[trigger] t.children[k]).path.len() == t.path.len() + 1
            && tree_wf(t.children[k])
}

/// The trees of a forest are well formed and all lie at depth `d`.
pub open spec fn forest_wf(s: Seq<TreeView>, d: nat) -> bool {
    forall|k: int| 0 <= k < s.len() ==> (#[trigger] s[k]).path.len() == d && tree_wf(s[k])
}

/// Each listed child lies one component below the listed directory.
pub open spec fn listings_wf(ls: Seq<DirListing>) -> bool {
    forall|j: int, m: int|
        0 <= j < ls.len() && 0 <= m < ls[j].children@.len() ==> (#[trigger] ls[j].children@[m]).path@.len()
            == ls[j].dir@.len() + 1
}

proof fn lemma_listing_for_wf(ls: Seq<DirListing>, dir: Seq<Seq<u8>>)
    requires
        listings_wf(ls),
    ensures
        forall|m: int|
            0 <= m < listing_for(ls, dir).len() ==> (#[trigger] listing_for(ls, dir)[m]).0.len() == dir.len()
                + 1,
    decreases ls.len(),
{
    if ls.len() > 0 && ls[0].dir@ != dir {
        assert forall|j: int, m: int|
            0 <= j < ls.drop_first().len() && 0 <= m < ls.drop_first()[j].children@.len() implies (
            #[trigger] ls.drop_first()[j].children@[m]).path@.len() == ls.drop_first()[j].dir@.len() + 1 by {
            assert(ls.drop_first()[j] == ls[j + 1]);
        }
        lemma_listing_for_wf(ls.drop_first(), dir);
        assert(listing_for(ls, dir) == listing_for(ls.drop_first(), dir));
    } else if ls.len() > 0 {
        assert forall|m: int| 0 <= m < listing_for(ls, dir).len() implies (#[trigger] listing_for(ls, dir)[m]).0.len() == dir.len() + 1 by {
            assert(listing_for(ls, dir) == node_views(ls[0].children@));
            assert(listing_for(ls, dir)[m] == ls[0].children@[m]@);
            assert(ls[0].children@[m].path@.len() == ls[0].dir@.len() + 1);
        }
    }
}

/// Loading keeps a tree well formed.
pub proof fn lemma_load_wf(t: TreeView, ls: Seq<DirListing>)
    requires
        tree_wf(t),
        listings_wf(ls),
    ensures
        tree_wf(load_view(t, ls)),
        load_view(t, ls).path == t.path,
        load_view(t, ls).is_dir == t.is_dir,
{
    if t.is_dir && !t.loaded {
        lemma_listing_for_wf(ls, t.path);
        let l = load_view(t, ls);
        assert forall|k: int| 0 <= k < l.children.len() implies (#[trigger] l.children[k]).path.len() == l.path.len() + 1
            && tree_wf(l.children[k]) by {
            assert(l.children[k] == from_fs_view(listing_for(ls, t.path)[k]));
        }
    }
}

/// A node opened on the way to a path: a directory gets its children loaded
/// and is expanded; a file stays as it is.
pub open spec fn open_view(t: TreeView, ls: Seq<DirListing>) -> TreeView {
    if t.is_dir {
        TreeView { expanded: true, ..load_view(t, ls) }
    } else {
        t
    }
}

/// Opening the way to `p` inside a tree whose path is a prefix of `p`: the
/// node is opened, and if it is not `p` itself the search goes on among its
/// children. The flag tells whether a node with path `p` was reached.
pub open spec fn ensure_view(t: TreeView, p: Seq<Seq<u8>>, ls: Seq<DirListing>) -> (TreeView, bool)
    decreases p.len() - t.path.len(), 1nat,
{
    if !is_path_prefix(t.path, p) {
        (t, false)
    } else {
        let t1 = open_view(t, ls);
        if t1.path == p {
            (t1, true)
        } else if !forest_wf(t1.children, t.path.len() + 1) {
            (t1, false)
        } else {
            let r = ensure_forest_view(t1.children, p, ls, t.path.len() + 1, 0);
            (TreeView { children: r.0, ..t1 }, r.1)
        }
    }
}

/// Opening the way to `p` through the trees `s[i..]` (all at depth `d`): each
/// tree whose path is a prefix of `p` is searched in turn, until one reaches
/// `p`; trees opened on the way stay opened.
pub open spec fn ensure_forest_view(s: Seq<TreeView>, p: Seq<Seq<u8>>, ls: Seq<DirListing>, d: nat, i: int) -> (
    Seq<TreeView>,
    bool,
)
    decreases p.len() + 1 - d, 0nat, s.len() - i,
{
    if 0 <= i < s.len() && d <= p.len() + 1 {
        if is_path_prefix(s[i].path, p) && s[i].path.len() == d {
            let r = ensure_view(s[i], p, ls);
            if r.1 {
                (s.update(i, r.0), true)
            } else {
                ensure_forest_view(s.update(i, r.0), p, ls, d, i + 1)
            }
        } else {
            ensure_forest_view(s, p, ls, d, i + 1)
        }
    } else {
        (s, false)
    }
}

/// Opening the way keeps a tree well formed and its path.
pub proof fn lemma_ensure_wf(t: TreeView, p: Seq<Seq<u8>>, ls: Seq<DirListing>)
    requires
        tree_wf(t),
        listings_wf(ls),
    ensures
        tree_wf(ensure_view(t, p, ls).0),
        ensure_view(t, p, ls).0.path == t.path,
        ensure_view(t, p, ls).0.is_dir == t.is_dir,
    decreases p.len() - t.path.len(), 1nat,
{
    if is_path_prefix(t.path, p) {
        lemma_load_wf(t, ls);
        let t1 = open_view(t, ls);
        assert(tree_wf(t1));
        if t1.path != p && forest_wf(t1.children, t.path.len() + 1) {
            lemma_ensure_forest_wf(t1.children, p, ls, t.path.len() + 1, 0);
            let r = ensure_forest_view(t1.children, p, ls, t.path.len() + 1, 0);
            let t2 = TreeView { children: r.0, ..t1 };
            if !t.is_dir {
                lemma_ensure_forest_len(t1.children, p, ls, t.path.len() + 1, 0);
            }
            assert forall|k: int| 0 <= k < t2.children.len() implies (#[trigger] t2.children[k]).path.len() == t2.path.len() + 1
                && tree_wf(t2.children[k]) by {
                assert(r.0[k].path.len() == t.path.len() + 1);
            }
        }
    }
}

/// Opening the way keeps the number of trees.
pub proof fn lemma_ensure_forest_len(s: Seq<TreeView>, p: Seq<Seq<u8>>, ls: Seq<DirListing>, d: nat, i: int)
    ensures
        ensure_forest_view(s, p, ls, d, i).0.len() == s.len(),
    decreases p.len() + 1 - d, 0nat, s.len() - i,
{
    if 0 <= i < s.len() && d <= p.len() + 1 {
        if is_path_prefix(s[i].path, p) && s[i].path.len() == d {
            let r = ensure_view(s[i], p, ls);
            if !r.1 {
                lemma_ensure_forest_len(s.update(i, r.0), p, ls, d, i + 1);
            }
        } else {
            lemma_ensure_forest_len(s, p, ls, d, i + 1);
        }
    }
}

/// Opening the way keeps a forest well formed at its depth.
pub proof fn lemma_ensure_forest_wf(s: Seq<TreeView>, p: Seq<Seq<u8>>, ls: Seq<DirListing>, d: nat, i: int)
    requires
        forest_wf(s, d),
        listings_wf(ls),
    ensures
        forest_wf(ensure_forest_view(s, p, ls, d, i).0, d),
    decreases p.len() + 1 - d, 0nat, s.len() - i,
{
    if 0 <= i < s.len() && d <= p.len() + 1 {
        if is_path_prefix(s[i].path, p) && s[i].path.len() == d {
            lemma_ensure_wf(s[i], p, ls);
            let r = ensure_view(s[i], p, ls);
            let s2 = s.update(i, r.0);
            assert(forest_wf(s2, d));
            if !r.1 {
                lemma_ensure_forest_wf(s2, p, ls, d, i + 1);
            }
        } else {
            lemma_ensure_forest_wf(s, p, ls, d, i + 1);
        }
    }
}

/// Opens the way to `path` in a tree whose path is a prefix of it, as
/// `ensure_view` says.
fn ensure_node(node: &mut ExplorerNode, path: &FsPath, ls: &Vec<DirListing>) -> (found: bool)
    requires
        is_path_prefix(old(node).path@, path@),
        tree_wf(tree_view(*old(node))),
        listings_wf(ls@),
    ensures
        (tree_view(*final(node)), found) == ensure_view(tree_view(*old(node)), path@, ls@),
    decreases path@.len() - old(node).path@.len(), 1nat,
{
    let ghost t = tree_view(*node);
    proof {
        lemma_load_wf(t, ls@);
    }
    if node.is_dir {
        node.load_children(ls);
        node.expanded = true;
    }
    assert(tree_view(*node) == open_view(t, ls@));
    if node.path.same_as(path) {
        return true;
    }
    let ghost t1 = tree_view(*node);
    assert(forest_wf(t1.children, t.path.len() + 1));
    proof {
        lemma_views(node.children@);
    }
    let found = ensure_path_loaded(&mut node.children, path, ls, Ghost(t.path.len() + 1));
    proof {
        lemma_views(node.children@);
    }
    found
}

/// Opens the way to `path` through the trees `nodes` (all at depth `d`), as
/// `ensure_forest_view` says: each tree whose path is a prefix of `path` is
/// searched in turn until `path` is reached.
fn ensure_path_loaded(nodes: &mut Vec<ExplorerNode>, path: &FsPath, ls: &Vec<DirListing>, Ghost(d): Ghost<nat>) -> (found: bool)
    requires
        forest_wf(views(old(nodes)@), d),
        listings_wf(ls@),
    ensures
        (views(final(nodes)@), found) == ensure_forest_view(views(old(nodes)@), path@, ls@, d, 0),
    decreases path@.len() + 1 - d, 0nat,
{
    let ghost old_views = views(nodes@);
    proof {
        lemma_views(nodes@);
    }
    let mut i: usize = 0;
    while i < nodes.len()
        invariant
            d > path@.len() + 1 ==> views(nodes@) == old_views,
            listings_wf(ls@),
            old_views == views(old(nodes)@),
            nodes@.len() == old_views.len(),
            forall|k: int| 0 <= k < nodes@.len() ==> #[trigger] tree_view(nodes@[k]) == views(nodes@)[k],
            views(nodes@).len() == nodes@.len(),
            forest_wf(views(nodes@), d),
            i <= nodes@.len(),
            d <= path@.len() + 1 ==> ensure_forest_view(old_views, path@, ls@, d, 0) == ensure_forest_view(views(nodes@), path@, ls@, d, i as int),
        decreases nodes@.len() - i,
    {
        let ghost cur = views(nodes@);
        assert(tree_view(nodes@[i as int]) == cur[i as int]);
        assert(cur[i as int].path == nodes@[i as int].path@);
        if path.starts_with(&nodes[i].path) {
            let ghost before = nodes@;
            let mut node = nodes.remove(i);
            assert(tree_view(node) == cur[i as int]);
            let found = ensure_node(&mut node, path, ls);
            proof {
                lemma_ensure_wf(cur[i as int], path@, ls@);
            }
            nodes.insert(i, node);
            proof {
                lemma_views_ext(nodes@, cur.update(i as int, tree_view(node)));
                lemma_views(nodes@);
            }
            if found {
                return true;
            }
            assert(views(nodes@) == cur.update(i as int, ensure_view(cur[i as int], path@, ls@).0));
            assert(cur[i as int].path.len() == d);
            assert(d <= path@.len() + 1 ==> ensure_forest_view(cur, path@, ls@, d, i as int)
                == ensure_forest_view(views(nodes@), path@, ls@, d, i + 1));
        } else {
            assert(d <= path@.len() + 1 ==> ensure_forest_view(cur, path@, ls@, d, i as int)
                == ensure_forest_view(cur, path@, ls@, d, i + 1));
        }
        i = i + 1;
    }
    proof {
        lemma_views(nodes@);
    }
    false
}

/// The root a tree is rebuilt with: the node for `p`, expanded, with its
/// children loaded.
pub open spec fn rebuilt_root(p: Seq<Seq<u8>>, is_dir: bool, ls: Seq<DirListing>) -> TreeView {
    TreeView { expanded: true, ..load_view(from_fs_view((p, path_label(p), is_dir)), ls) }
}

/// Opening the way to `p` from the roots of the explorer.
pub open spec fn ensure_roots(roots: Seq<TreeView>, p: Seq<Seq<u8>>, ls: Seq<DirListing>) -> Seq<TreeView> {
    if roots.len() == 0 {
        roots
    } else {
        ensure_forest_view(roots, p, ls, roots[0].path.len(), 0).0
    }
}

/// The directory that activating `p` shows: `p` itself when it is a
/// directory, else the directory that holds it (`p` itself for the root).
pub open spec fn activation_dir(p: Seq<Seq<u8>>, is_dir: bool) -> Seq<Seq<u8>> {
    if is_dir || p.len() == 0 {
        p
    } else {
        p.drop_last()
    }
}

/// The state of the explorer tree: its roots and the selected path.
#[derive(Debug, PartialEq, Eq)]
pub struct ExplorerState {
    pub roots: Vec<ExplorerNode>,
    pub selected_path: Option<FsPath>,
}

/// The explorer as plain values.
pub struct ExplorerView {
    pub roots: Seq<TreeView>,
    pub selected: Option<Seq<Seq<u8>>>,
}

impl View for ExplorerState {
    type V = ExplorerView;

    open spec fn view(&self) -> ExplorerView {
        ExplorerView { roots: views(self.roots@), selected: opt_path_view(self.selected_path) }
    }
}

/// The explorer's roots are well formed trees at one depth.
pub open spec fn explorer_wf(v: ExplorerView) -> bool {
    v.roots.len() == 0 || forest_wf(v.roots, v.roots[0].path.len())
}

/// The directory activating `path` shows.
pub fn activation_target(path: &FsPath, path_is_dir: bool) -> (r: FsPath)
    ensures
        r@ == activation_dir(path@, path_is_dir),
{
    if path_is_dir {
        path.clone()
    } else {
        match path.parent() {
            Some(p) => p,
            None => path.clone(),
        }
    }
}

impl ExplorerState {
    /// The explorer opened on `start_dir`, given what reading its metadata
    /// gave (the explorer cannot open without it).
    pub fn new(start_dir: FsPath, root_metadata_is_dir: Option<bool>, ls: &Vec<DirListing>) -> (r: Self)
        requires
            root_metadata_is_dir is Some,
            listings_wf(ls@),
        ensures
            r@ == (ExplorerView {
                roots: seq![rebuilt_root(start_dir@, root_metadata_is_dir->0, ls@)],
                selected: Some(start_dir@),
            }),
            explorer_wf(r@),
    {
        let mut state = ExplorerState { roots: Vec::new(), selected_path: Some(start_dir.clone()) };
        state.rebuild_roots(&start_dir, root_metadata_is_dir, ls);
        state
    }

    /// Replaces the tree by one rooted at `root_path`, expanded and loaded.
    pub fn rebuild_roots(&mut self, root_path: &FsPath, root_metadata_is_dir: Option<bool>, ls: &Vec<DirListing>)
        requires
            root_metadata_is_dir is Some,
            listings_wf(ls@),
        ensures
            final(self)@ == (ExplorerView {
                roots: seq![rebuilt_root(root_path@, root_metadata_is_dir->0, ls@)],
                ..old(self)@
            }),
            explorer_wf(final(self)@),
    {
        let node = match node_for_path(root_path, root_metadata_is_dir) {
            Some(n) => n,
            None => {
                return;
            },
        };
        let mut root = ExplorerNode::from_fs(node);
        root.expanded = true;
        root.load_children(ls);
        let mut roots: Vec<ExplorerNode> = Vec::new();
        roots.push(root);
        proof {
            lemma_views_ext(roots@, seq![rebuilt_root(root_path@, root_metadata_is_dir->0, ls@)]);
            let f = from_fs_view((root_path@, path_label(root_path@), root_metadata_is_dir->0));
            lemma_load_wf(f, ls@);
            assert(rebuilt_root(root_path@, root_metadata_is_dir->0, ls@).children == load_view(f, ls@).children);
        }
        self.roots = roots;
    }

    /// Expands or collapses the first node whose path is `path`; tells
    /// whether there was one.
    pub fn toggle_expand(&mut self, path: &FsPath, ls: &Vec<DirListing>) -> (changed: bool)
        ensures
            (final(self)@.roots, changed) == toggle_forest_view(old(self)@.roots, path@, ls@, 0),
            final(self)@.selected == old(self)@.selected,
            explorer_wf(old(self)@) && listings_wf(ls@) ==> explorer_wf(final(self)@),
    {
        let ghost before = self@.roots;
        let changed = toggle_expand_in(&mut self.roots, path, ls);
        proof {
            if explorer_wf(old(self)@) && listings_wf(ls@) && before.len() > 0 {
                crate::explorer_laws::lemma_toggle_forest_wf(before, path@, ls@, before[0].path.len(), 0);
                crate::explorer_laws::lemma_toggle_forest_keeps_len(before, path@, ls@, 0);
            }
        }
        changed
    }

    /// Whether toggling `path` loads children (and so needs the listing of
    /// `path`): the first node with that path is a collapsed directory whose
    /// children were not loaded yet.
    pub fn toggle_loads(&self, path: &FsPath) -> (r: bool)
        ensures
            r == (toggle_loads_forest_view(self@.roots, path@, 0) == Some(true)),
    {
        match toggle_loads_in(&self.roots, path) {
            Some(b) => b,
            None => false,
        }
    }

    /// Opens the way to `path`: every directory on the way is loaded and
    /// expanded.
    pub fn ensure_visible(&mut self, path: &FsPath, ls: &Vec<DirListing>)
        requires
            explorer_wf(old(self)@),
            listings_wf(ls@),
        ensures
            final(self)@ == (ExplorerView { roots: ensure_roots(old(self)@.roots, path@, ls@), ..old(self)@ }),
            explorer_wf(final(self)@),
    {
        proof {
            lemma_views(self.roots@);
        }
        if self.roots.len() == 0 {
            return;
        }
        let ghost d = self@.roots[0].path.len();
        ensure_path_loaded(&mut self.roots, path, ls, Ghost(d));
        proof {
            lemma_ensure_forest_wf(old(self)@.roots, path@, ls@, d, 0);
            lemma_ensure_forest_len(old(self)@.roots, path@, ls@, d, 0);
        }
    }

    /// The rows the tree shows, in order.
    pub fn visible_entries(&self) -> (r: Vec<VisibleEntry>)
        requires
            forest_height(self@.roots, 0) <= usize::MAX,
        ensures
            entry_views(r@) == visible_forest_view(self@.roots, 0, self@.selected, 0),
    {
        let mut entries: Vec<VisibleEntry> = Vec::new();
        let ghost rs = self@.roots;
        proof {
            lemma_views(self.roots@);
        }
        let selected = match &self.selected_path {
            Some(p) => Some(p),
            None => None,
        };
        assert(opt_view(selected) == self@.selected);
        let mut i: usize = 0;
        assert(entry_views(entries@) =~= Seq::<VisibleView>::empty());
        while i < self.roots.len()
            invariant
                rs == self@.roots,
                rs.len() == self.roots@.len(),
                forall|k: int| 0 <= k < rs.len() ==> #[trigger] rs[k] == tree_view(self.roots@[k]),
                forest_height(rs, 0) <= usize::MAX,
                opt_view(selected) == self@.selected,
                i <= rs.len(),
                visible_forest_view(rs, 0, self@.selected, 0) == entry_views(entries@)
                    + visible_forest_view(rs, 0, self@.selected, i as int),
            decreases rs.len() - i,
        {
            proof {
                lemma_forest_height(rs, 0, i as int);
            }
            let ghost mid = entry_views(entries@);
            self.roots[i].collect_visible(0, selected, &mut entries);
            assert(entry_views(entries@) + visible_forest_view(rs, 0, self@.selected, i + 1)
                =~= mid + visible_forest_view(rs, 0, self@.selected, i as int));
            i = i + 1;
        }
        assert(entry_views(entries@) =~= visible_forest_view(rs, 0, self@.selected, 0));
        entries
    }

    /// Whether the directory the list shows has a parent to go up to.
    pub fn can_navigate_up(&self, list: &FileListState) -> (r: bool)
        ensures
            r == (list@.current_dir.len() > 0),
    {
        list.current_dir_path().parent().is_some()
    }

    /// Shows a file in the list: the list shows the file's directory (whose
    /// rows are `parent_rows`) with the file selected, and the tree selects
    /// the file and opens the way to it. A path without a parent changes
    /// nothing. Tells whether anything changed.
    pub fn show_file_in_list(
        &mut self,
        list: &mut FileListState,
        path: FsPath,
        parent_rows: Vec<FileRow>,
        ls: &Vec<DirListing>,
    ) -> (changed: bool)
        requires
            explorer_wf(old(self)@),
            listings_wf(ls@),
        ensures
            changed == (path@.len() > 0),
            !changed ==> final(self)@ == old(self)@ && final(list)@ == old(list)@,
            changed ==> final(list)@ == (ListView {
                current_dir: path@.drop_last(),
                rows: row_views(parent_rows@),
                selected: Some(path@),
            }),
            changed ==> final(self)@ == (ExplorerView {
                roots: ensure_roots(old(self)@.roots, path@, ls@),
                selected: Some(path@),
            }),
            explorer_wf(final(self)@),
    {
        let parent_dir = match path.parent() {
            Some(p) => p,
            None => {
                return false;
            },
        };
        list.set_directory(parent_dir, parent_rows, Some(&path));
        self.ensure_visible(&path, ls);
        self.selected_path = Some(path);
        true
    }

    /// Selects `path` in the tree: a directory is selected and the way to it
    /// opened; a file is shown in the list as `show_file_in_list` does. Tells
    /// whether anything changed.
    pub fn select_path(
        &mut self,
        list: &mut FileListState,
        path: FsPath,
        path_is_dir: bool,
        parent_rows: Vec<FileRow>,
        ls: &Vec<DirListing>,
    ) -> (changed: bool)
        requires
            explorer_wf(old(self)@),
            listings_wf(ls@),
        ensures
            changed == (path_is_dir || path@.len() > 0),
            !changed ==> final(self)@ == old(self)@ && final(list)@ == old(list)@,
            changed && !path_is_dir ==> final(list)@ == (ListView {
                current_dir: path@.drop_last(),
                rows: row_views(parent_rows@),
                selected: Some(path@),
            }),
            path_is_dir ==> final(list)@ == old(list)@,
            changed ==> final(self)@ == (ExplorerView {
                roots: ensure_roots(old(self)@.roots, path@, ls@),
                selected: Some(path@),
            }),
            explorer_wf(final(self)@),
    {
        if !path_is_dir {
            return self.show_file_in_list(list, path, parent_rows, ls);
        }
        self.ensure_visible(&path, ls);
        self.selected_path = Some(path);
        true
    }

    /// Opens `path` (double click): the list shows the activation directory
    /// (whose rows are `rows`) with `path` selected when it is a file; the
    /// tree is rebuilt on that directory, selects `path` and opens the way to
    /// it. `target_metadata_is_dir` is what reading the metadata of that
    /// directory gave (the tree cannot be rebuilt without it).
    pub fn activate_path(
        &mut self,
        list: &mut FileListState,
        path: &FsPath,
        path_is_dir: bool,
        rows: Vec<FileRow>,
        target_metadata_is_dir: Option<bool>,
        ls: &Vec<DirListing>,
    )
        requires
            target_metadata_is_dir is Some,
            listings_wf(ls@),
        ensures
            final(list)@ == (ListView {
                current_dir: activation_dir(path@, path_is_dir),
                rows: row_views(rows@),
                selected: if path_is_dir {
                    None
                } else {
                    Some(path@)
                },
            }),
            final(self)@ == (ExplorerView {
                roots: ensure_roots(
                    seq![rebuilt_root(activation_dir(path@, path_is_dir), target_metadata_is_dir->0, ls@)],
                    path@,
                    ls@,
                ),
                selected: Some(path@),
            }),
            explorer_wf(final(self)@),
    {
        let target_dir = activation_target(path, path_is_dir);
        if path_is_dir {
            list.set_directory(target_dir.clone(), rows, None);
        } else {
            list.set_directory(target_dir.clone(), rows, Some(path));
        }
        self.rebuild_roots(&target_dir, target_metadata_is_dir, ls);
        self.selected_path = Some(path.clone());
        self.ensure_visible(path, ls);
    }

    /// Goes up from the directory the list shows: activates its parent, as
    /// `activate_path` does (`parent_is_dir` and `rows` describe the parent,
    /// `target_metadata_is_dir` the directory it activates). The root stays
    /// as it is.
    pub fn navigate_up(
        &mut self,
        list: &mut FileListState,
        parent_is_dir: bool,
        rows: Vec<FileRow>,
        target_metadata_is_dir: Option<bool>,
        ls: &Vec<DirListing>,
    )
        requires
            old(list)@.current_dir.len() > 0 ==> target_metadata_is_dir is Some,
            listings_wf(ls@),
        ensures
            old(list)@.current_dir.len() == 0 ==> final(self)@ == old(self)@ && final(list)@ == old(list)@,
            old(list)@.current_dir.len() > 0 ==> {
                let parent = old(list)@.current_dir.drop_last();
                &&& final(list)@ == (ListView {
                    current_dir: activation_dir(parent, parent_is_dir),
                    rows: row_views(rows@),
                    selected: if parent_is_dir {
                        None
                    } else {
                        Some(parent)
                    },
                })
                &&& final(self)@ == (ExplorerView {
                    roots: ensure_roots(
                        seq![rebuilt_root(activation_dir(parent, parent_is_dir), target_metadata_is_dir->0, ls@)],
                        parent,
                        ls@,
                    ),
                    selected: Some(parent),
                })
            },
            old(list)@.current_dir.len() > 0 || explorer_wf(old(self)@) ==> explorer_wf(final(self)@),
    {
        let current = list.current_dir_path().clone();
        if let Some(parent) = current.parent() {
            self.activate_path(list, &parent, parent_is_dir, rows, target_metadata_is_dir, ls);
        }
    }
}

} // verus!
