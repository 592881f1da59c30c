use vstd::prelude::*;
use vstd::utf8::{encode_utf8, valid_utf8, decode_utf8};
use crate::path::FsPath;
use crate::text::{utf8_lossy, unicode_lowercase, ascii_upper, lossy_string, decode_str, to_lowercase, to_ascii_uppercase, utf8_bytes};
use crate::sort::{SortKey, key_views, is_stable_sort, stable_sort_by_keys, lemma_stable_sort_map};
use crate::size::{human_size, human_size_text};
use crate::file_list::{FileRow, RowView, row_views};

verus! {

/// An entry of the file system as the explorer tree first sees it: its path,
/// the label shown for it, and whether it is a directory.
#[derive(Debug, PartialEq, Eq)]
pub struct FsNode {
    pub path: FsPath,
    pub label: String,
    pub is_dir: bool,
}

/// A node as plain values: path, label, is-directory.
pub type NodeView = (Seq<Seq<u8>>, Seq<char>, bool);

impl View for FsNode {
    type V = NodeView;

    open spec fn view(&self) -> NodeView {
        (self.path@, self.label@, self.is_dir)
    }
}

impl Clone for FsNode {
    fn clone(&self) -> (r: Self)
        ensures
            r@ == self@,
    {
        FsNode { path: self.path.clone(), label: self.label.clone(), is_dir: self.is_dir }
    }
}

/// The views of a sequence of nodes.
pub open spec fn node_views(nodes: Seq<FsNode>) -> Seq<NodeView> {
    nodes.map_values(|n: FsNode| n@)
}

/// The label of a path: `/` for the root, else its last component (an
/// ordinary name, so the one `Path::file_name` gives) read lossily as UTF-8.
pub open spec fn path_label(p: Seq<Seq<u8>>) -> Seq<char> {
    if p.len() == 0 {
        seq!['/']
    } else {
        utf8_lossy(p.last())
    }
}

/// What a listing is sorted by: directories first, then the lower-cased
/// name, compared as UTF-8 bytes (as `str` compares).
pub open spec fn name_key(is_dir: bool, name: Seq<char>) -> (bool, Seq<u8>) {
    (is_dir, encode_utf8(unicode_lowercase(name)))
}

/// The sort key of a node.
pub open spec fn node_key(v: NodeView) -> (bool, Seq<u8>) {
    name_key(v.2, v.1)
}

/// The sort keys of a sequence of nodes.
pub open spec fn node_keys(vs: Seq<NodeView>) -> Seq<(bool, Seq<u8>)> {
    vs.map_values(|v: NodeView| node_key(v))
}

/// The sort key of a file row.
pub open spec fn row_key(v: RowView) -> (bool, Seq<u8>) {
    name_key(v.4, v.1)
}

/// The sort keys of a sequence of rows.
pub open spec fn row_keys(vs: Seq<RowView>) -> Seq<(bool, Seq<u8>)> {
    vs.map_values(|v: RowView| row_key(v))
}

/// The text `/`.
pub fn root_text() -> (r: String)
    ensures
        r@ == seq!['/'],
{
    let mut t = String::new();
    t.append("/");
    proof {
        reveal_strlit("/");
    }
    assert(t@ =~= seq!['/']);
    t
}

/// The text `File`.
fn file_text() -> (r: String)
    ensures
        r@ == seq!['F', 'i', 'l', 'e'],
{
    let mut t = String::new();
    t.append("File");
    proof {
        reveal_strlit("File");
    }
    assert(t@ =~= seq!['F', 'i', 'l', 'e']);
    t
}

/// The label for a path (`file_name` of the explorer).
pub fn file_name(path: &FsPath) -> (r: String)
    ensures
        r@ == path_label(path@),
{
    let cs = path.components();
    if cs.len() == 0 {
        return root_text();
    }
    let last = &cs[cs.len() - 1];
    assert(path@.last() == last@);
    lossy_string(last.as_slice())
}

/// The node for a path, given what reading its metadata gave: `None` when
/// that failed, else whether it is a directory.
pub fn node_for_path(path: &FsPath, metadata_is_dir: Option<bool>) -> (r: Option<FsNode>)
    ensures
        r is Some <==> metadata_is_dir is Some,
        r matches Some(n) ==> n@ == (path@, path_label(path@), metadata_is_dir->0),
{
    match metadata_is_dir {
        None => None,
        Some(is_dir) => Some(FsNode { path: path.clone(), label: file_name(path), is_dir }),
    }
}

/// Sorts nodes for the explorer: directories first, then by lower-cased
/// label; nodes with equal keys keep their order.
pub fn sort_fs_nodes(items: Vec<FsNode>) -> (r: Vec<FsNode>)
    ensures
        is_stable_sort(node_views(r@), node_views(items@), node_keys(node_views(items@))),
{
    let mut keys: Vec<SortKey> = Vec::new();
    for i in 0..items.len()
        invariant
            keys@.len() == i,
            i <= items@.len(),
            forall|j: int| 0 <= j < i ==> #[trigger] keys@[j]@ == node_key(items@[j]@),
    {
        let lower = to_lowercase(items[i].label.as_str());
        let name = utf8_bytes(&lower);
        keys.push(SortKey { is_dir: items[i].is_dir, name });
    }
    let ghost before = items@;
    assert(key_views(keys@) =~= node_keys(node_views(before)));
    let r = stable_sort_by_keys(items, keys);
    proof {
        lemma_stable_sort_map(r@, before, key_views(keys@), |n: FsNode| n@);
    }
    r
}

/// One entry of a directory as listed for the explorer: its path, and what
/// reading its metadata gave (`None` when that failed, else whether it is a
/// directory).
pub struct ListedPath {
    pub path: FsPath,
    pub metadata_is_dir: Option<bool>,
}

/// The node a listed path gives, if its metadata could be read.
pub open spec fn listed_node(e: ListedPath) -> Option<NodeView> {
    match e.metadata_is_dir {
        Some(d) => Some((e.path@, path_label(e.path@), d)),
        None => None,
    }
}

/// The nodes of a listing, in listing order, leaving out the entries whose
/// metadata could not be read.
pub open spec fn listed_nodes(l: Seq<ListedPath>) -> Seq<NodeView>
    decreases l.len(),
{
    if l.len() == 0 {
        Seq::empty()
    } else {
        let rest = listed_nodes(l.drop_last());
        match listed_node(l.last()) {
            Some(v) => rest.push(v),
            None => rest,
        }
    }
}

/// The children of a directory for the explorer, from its listing (`None`
/// when the directory could not be read): the entries whose metadata could
/// be read, sorted as `sort_fs_nodes` sorts.
pub fn directory_children(listing: Option<Vec<ListedPath>>) -> (r: Vec<FsNode>)
    ensures
        match listing {
            None => r@.len() == 0,
            Some(l) => is_stable_sort(
                node_views(r@),
                listed_nodes(l@),
                node_keys(listed_nodes(l@)),
            ),
        },
{
    let entries = match listing {
        None => {
            return Vec::new();
        },
        Some(l) => l,
    };
    let mut children: Vec<FsNode> = Vec::new();
    for i in 0..entries.len()
        invariant
            node_views(children@) == listed_nodes(entries@.subrange(0, i as int)),
    {
        let ghost prefix = entries@.subrange(0, i + 1);
        assert(prefix.drop_last() =~= entries@.subrange(0, i as int));
        assert(prefix.last() == entries@[i as int]);
        let node = node_for_path(&entries[i].path, entries[i].metadata_is_dir);
        match node {
            Some(n) => {
                children.push(n);
                assert(node_views(children@) =~= listed_nodes(prefix));
            },
            None => {
            },
        }
    }
    assert(entries@.subrange(0, entries@.len() as int) =~= entries@);
    sort_fs_nodes(children)
}

/// The index of the last `.` in a file name.
pub open spec fn last_dot(name: Seq<u8>) -> Option<int>
    decreases name.len(),
{
    if name.len() == 0 {
        None
    } else if name.last() == 46u8 {
        Some(name.len() - 1)
    } else {
        last_dot(name.drop_last())
    }
}

/// The extension of a file name as `Path::extension` finds it: the bytes
/// after the last `.`, unless there is no `.`, the only `.` opens the name,
/// or the name is `..`.
pub open spec fn name_extension(name: Seq<u8>) -> Option<Seq<u8>> {
    if name == seq![46u8, 46u8] {
        None
    } else {
        match last_dot(name) {
            None => None,
            Some(i) => if i == 0 {
                None
            } else {
                Some(name.subrange(i + 1, name.len() as int))
            },
        }
    }
}

/// The extension of a path: that of its last component, the file name.
pub open spec fn path_extension(p: Seq<Seq<u8>>) -> Option<Seq<u8>> {
    if p.len() == 0 {
        None
    } else {
        name_extension(p.last())
    }
}

/// The kind column of a file: its extension in ASCII upper case when it has
/// one that is valid UTF-8, else `File`.
pub open spec fn file_kind(p: Seq<Seq<u8>>) -> Seq<char> {
    match path_extension(p) {
        Some(e) => if valid_utf8(e) {
            ascii_upper(decode_utf8(e))
        } else {
            seq!['F', 'i', 'l', 'e']
        },
        None => seq!['F', 'i', 'l', 'e'],
    }
}

proof fn lemma_last_dot_after(x: Seq<u8>, e: Seq<u8>)
    requires
        !e.contains(46u8),
    ensures
        last_dot(x + seq![46u8] + e) == Some(x.len() as int),
    decreases e.len(),
{
    let n = x + seq![46u8] + e;
    if e.len() == 0 {
        assert(n.last() == 46u8);
    } else {
        assert(n.last() == e.last());
        assert(!(e.last() == 46u8)) by {
            if e.last() == 46u8 {
                assert(e.contains(46u8));
            }
        }
        assert(!e.drop_last().contains(46u8)) by {
            if e.drop_last().contains(46u8) {
                let k = choose|k: int| 0 <= k < e.drop_last().len() && e.drop_last()[k] == 46u8;
                assert(e[k] == 46u8);
            }
        }
        assert(n.drop_last() =~= x + seq![46u8] + e.drop_last());
        lemma_last_dot_after(x, e.drop_last());
    }
}

/// The extension of a name is what follows its last `.`, when something
/// comes before that `.` (`Path::extension`): `x.e` has extension `e` for
/// every non-empty `x` and every `e` without `.` (the name `..` aside).
pub proof fn lemma_extension_after_last_dot(x: Seq<u8>, e: Seq<u8>)
    requires
        x.len() > 0,
        !e.contains(46u8),
        x + seq![46u8] + e != seq![46u8, 46u8],
    ensures
        name_extension(x + seq![46u8] + e) == Some(e),
{
    let n = x + seq![46u8] + e;
    lemma_last_dot_after(x, e);
    assert(n.subrange(x.len() as int + 1, n.len() as int) =~= e);
}

/// A name without `.`, or whose only `.` opens it, has no extension.
pub proof fn lemma_no_extension(e: Seq<u8>)
    requires
        !e.contains(46u8),
    ensures
        name_extension(e) is None,
        name_extension(seq![46u8] + e) is None,
    decreases e.len(),
{
    lemma_no_dot(e);
    lemma_last_dot_after(Seq::empty(), e);
    assert(Seq::<u8>::empty() + seq![46u8] + e =~= seq![46u8] + e);
}

proof fn lemma_no_dot(e: Seq<u8>)
    requires
        !e.contains(46u8),
    ensures
        last_dot(e) is None,
    decreases e.len(),
{
    if e.len() > 0 {
        assert(e.last() != 46u8) by {
            if e.last() == 46u8 {
                assert(e.contains(46u8));
            }
        }
        assert(!e.drop_last().contains(46u8)) by {
            if e.drop_last().contains(46u8) {
                let k = choose|k: int| 0 <= k < e.drop_last().len() && e.drop_last()[k] == 46u8;
                assert(e[k] == 46u8);
            }
        }
        lemma_no_dot(e.drop_last());
    }
}

/// Finds the last `.` of a name.
fn find_last_dot(name: &[u8]) -> (r: Option<usize>)
    ensures
        r is None <==> last_dot(name@) is None,
        r matches Some(i) ==> last_dot(name@) == Some(i as int) && i < name@.len(),
{
    let mut i: usize = name.len();
    assert(name@.subrange(0, i as int) =~= name@);
    while i > 0
        invariant
            i <= name@.len(),
            last_dot(name@) == last_dot(name@.subrange(0, i as int)),
        decreases i,
    {
        let ghost pre = name@.subrange(0, i as int);
        if name[i - 1] == 46u8 {
            return Some(i - 1);
        }
        assert(pre.drop_last() =~= name@.subrange(0, i - 1));
        i = i - 1;
    }
    None
}

/// The extension of a file name (`Path::extension`).
pub fn extension_of(name: &[u8]) -> (r: Option<Vec<u8>>)
    ensures
        match name_extension(name@) {
            None => r is None,
            Some(e) => r matches Some(v) && v@ == e,
        },
{
    if name.len() == 2 && name[0] == 46u8 && name[1] == 46u8 {
        assert(name@ =~= seq![46u8, 46u8]);
        return None;
    }
    assert(name@ != seq![46u8, 46u8]);
    match find_last_dot(name) {
        None => None,
        Some(i) => {
            assert(last_dot(name@) == Some(i as int));
            if i == 0 {
                None
            } else {
                let mut v: Vec<u8> = Vec::new();
                let mut j: usize = i + 1;
                while j < name.len()
                    invariant
                        i + 1 <= j <= name@.len(),
                        v@ == name@.subrange(i + 1, j as int),
                    decreases name@.len() - j,
                {
                    v.push(name[j]);
                    assert(v@ =~= name@.subrange(i + 1, j + 1));
                    j = j + 1;
                }
                assert(name_extension(name@) == Some(name@.subrange(i + 1, name@.len() as int)));
                Some(v)
            }
        },
    }
}

/// The kind column for a file at `path`.
pub fn kind_for(path: &FsPath) -> (r: String)
    ensures
        r@ == file_kind(path@),
{
    let cs = path.components();
    if cs.len() == 0 {
        return file_text();
    }
    let last = &cs[cs.len() - 1];
    assert(path@.last() == last@);
    match extension_of(last.as_slice()) {
        None => file_text(),
        Some(ext) => match decode_str(ext.as_slice()) {
            None => file_text(),
            Some(s) => to_ascii_uppercase(s.as_str()),
        },
    }
}

/// What reading an entry's own metadata gave: whether it is a directory,
/// and its length in bytes.
pub struct EntryMetadata {
    pub is_dir: bool,
    pub len: u64,
}

/// One entry of a directory as listed for the file list: its path, its file
/// name, and its metadata (`None` when that could not be read).
pub struct DirEntryInfo {
    pub path: FsPath,
    pub file_name: Vec<u8>,
    pub metadata: Option<EntryMetadata>,
}

/// The row an entry gives, if its metadata could be read.
pub open spec fn entry_row(e: DirEntryInfo) -> Option<RowView> {
    match e.metadata {
        Some(m) => Some(
            (
                e.path@,
                utf8_lossy(e.file_name@),
                if m.is_dir {
                    seq!['F', 'o', 'l', 'd', 'e', 'r']
                } else {
                    file_kind(e.path@)
                },
                if m.is_dir {
                    seq!['-', '-']
                } else {
                    human_size_text(m.len as nat)
                },
                m.is_dir,
            ),
        ),
        None => None,
    }
}

/// The rows of a listing, in listing order, leaving out the entries whose
/// metadata could not be read.
pub open spec fn entry_rows(l: Seq<DirEntryInfo>) -> Seq<RowView>
    decreases l.len(),
{
    if l.len() == 0 {
        Seq::empty()
    } else {
        let rest = entry_rows(l.drop_last());
        match entry_row(l.last()) {
            Some(v) => rest.push(v),
            None => rest,
        }
    }
}

/// The entries of a listing whose metadata could be read, in listing order.
pub open spec fn readable_entries(l: Seq<DirEntryInfo>) -> Seq<DirEntryInfo>
    decreases l.len(),
{
    if l.len() == 0 {
        Seq::empty()
    } else if l.last().metadata is Some {
        readable_entries(l.drop_last()).push(l.last())
    } else {
        readable_entries(l.drop_last())
    }
}

/// Every entry whose metadata could be read gives exactly one row, whatever
/// its kind or length, in listing order: the row of the `k`-th readable
/// entry has that entry's path, its file name read lossily as UTF-8, and
/// its kind (directory or not).
pub proof fn lemma_one_row_per_readable_entry(l: Seq<DirEntryInfo>)
    ensures
        entry_rows(l).len() == readable_entries(l).len(),
        forall|k: int|
            0 <= k < entry_rows(l).len() ==> {
                let e = #[trigger] readable_entries(l)[k];
                &&& entry_rows(l)[k].0 == e.path@
                &&& entry_rows(l)[k].1 == utf8_lossy(e.file_name@)
                &&& entry_rows(l)[k].4 == e.metadata->0.is_dir
            },
    decreases l.len(),
{
    if l.len() > 0 {
        lemma_one_row_per_readable_entry(l.drop_last());
    }
}

/// The rows of a listing are as many as its readable entries, however they
/// were sorted.
pub proof fn lemma_sorted_rows_count(out: Seq<RowView>, l: Seq<DirEntryInfo>)
    requires
        is_stable_sort(out, entry_rows(l), row_keys(entry_rows(l))),
    ensures
        out.len() == readable_entries(l).len(),
{
    lemma_one_row_per_readable_entry(l);
}

/// The row for one listed entry.
fn row_for_entry(e: &DirEntryInfo) -> (r: Option<FileRow>)
    ensures
        match entry_row(*e) {
            None => r is None,
            Some(v) => r matches Some(row) && row@ == v,
        },
{
    match &e.metadata {
        None => None,
        Some(m) => {
            let name = lossy_string(e.file_name.as_slice());
            let kind = if m.is_dir {
                let mut t = String::new();
                t.append("Folder");
                proof {
                    reveal_strlit("Folder");
                }
                assert(t@ =~= seq!['F', 'o', 'l', 'd', 'e', 'r']);
                t
            } else {
                kind_for(&e.path)
            };
            let size = if m.is_dir {
                let mut t = String::new();
                t.append("--");
                proof {
                    reveal_strlit("--");
                }
                assert(t@ =~= seq!['-', '-']);
                t
            } else {
                human_size(m.len)
            };
            Some(FileRow::new(e.path.clone(), name, kind, size, m.is_dir))
        },
    }
}

/// Sorts file rows: directories first, then by lower-cased name; rows with
/// equal keys keep their order.
pub fn sort_file_rows(items: Vec<FileRow>) -> (r: Vec<FileRow>)
    ensures
        is_stable_sort(row_views(r@), row_views(items@), row_keys(row_views(items@))),
{
    let mut keys: Vec<SortKey> = Vec::new();
    for i in 0..items.len()
        invariant
            keys@.len() == i,
            i <= items@.len(),
            forall|j: int| 0 <= j < i ==> #[trigger] keys@[j]@ == row_key(items@[j]@),
    {
        let lower = to_lowercase(items[i].name.as_str());
        let name = utf8_bytes(&lower);
        keys.push(SortKey { is_dir: items[i].is_dir, name });
    }
    let ghost before = items@;
    assert(key_views(keys@) =~= row_keys(row_views(before)));
    let r = stable_sort_by_keys(items, keys);
    proof {
        lemma_stable_sort_map(r@, before, key_views(keys@), |x: FileRow| x@);
    }
    r
}

/// The rows of the file list for a directory, from its listing (`None` when
/// the directory could not be read): one row per entry whose metadata could
/// be read, directories first, then by lower-cased name.
pub fn file_rows_for(listing: Option<Vec<DirEntryInfo>>) -> (r: Vec<FileRow>)
    ensures
        match listing {
            None => r@.len() == 0,
            Some(l) => is_stable_sort(row_views(r@), entry_rows(l@), row_keys(entry_rows(l@)))
                && r@.len() == readable_entries(l@).len(),
        },
{
    let entries = match listing {
        None => {
            return Vec::new();
        },
        Some(l) => l,
    };
    let mut rows: Vec<FileRow> = Vec::new();
    for i in 0..entries.len()
        invariant
            row_views(rows@) == entry_rows(entries@.subrange(0, i as int)),
    {
        let ghost prefix = entries@.subrange(0, i + 1);
        assert(prefix.drop_last() =~= entries@.subrange(0, i as int));
        assert(prefix.last() == entries@[i as int]);
        match row_for_entry(&entries[i]) {
            Some(row) => {
                rows.push(row);
                assert(row_views(rows@) =~= entry_rows(prefix));
            },
            None => {
            },
        }
    }
    assert(entries@.subrange(0, entries@.len() as int) =~= entries@);
    let r = sort_file_rows(rows);
    proof {
        lemma_sorted_rows_count(row_views(r@), entries@);
    }
    r
}

} // verus!
