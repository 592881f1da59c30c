use vstd::prelude::*;
use crate::path::{FsPath, display_bytes};
use crate::text::{utf8_lossy, lossy_string, decode_str};
use crate::fs_data::root_text;
use vstd::utf8::{valid_utf8, decode_utf8};

verus! {

/// One line of the file list: the entry's path, its name, the kind column
/// ("Folder", an upper-cased extension or "File"), the size column, and
/// whether it is a directory.
#[derive(Debug, PartialEq, Eq)]
pub struct FileRow {
    pub path: FsPath,
    pub name: String,
    pub kind: String,
    pub size: String,
    pub is_dir: bool,
}

/// A file row as plain values: path, name, kind, size, is-directory.
pub type RowView = (Seq<Seq<u8>>, Seq<char>, Seq<char>, Seq<char>, bool);

impl View for FileRow {
    type V = RowView;

    open spec fn view(&self) -> RowView {
        (self.path@, self.name@, self.kind@, self.size@, self.is_dir)
    }
}

/// The views of a sequence of rows.
pub open spec fn row_views(rows: Seq<FileRow>) -> Seq<RowView> {
    rows.map_values(|r: FileRow| r@)
}

impl Clone for FileRow {
    fn clone(&self) -> (r: Self)
        ensures
            r@ == self@,
    {
        FileRow {
            path: self.path.clone(),
            name: self.name.clone(),
            kind: self.kind.clone(),
            size: self.size.clone(),
            is_dir: self.is_dir,
        }
    }
}

impl FileRow {
    pub fn new(path: FsPath, name: String, kind: String, size: String, is_dir: bool) -> (r: Self)
        ensures
            r@ == (path@, name@, kind@, size@, is_dir),
    {
        FileRow { path, name, kind, size, is_dir }
    }

    pub fn name(&self) -> (r: &String)
        ensures
            r@ == self.name@,
    {
        &self.name
    }

    pub fn path(&self) -> (r: &FsPath)
        ensures
            r@ == self.path@,
    {
        &self.path
    }

    pub fn is_dir(&self) -> (r: bool)
        ensures
            r == self.is_dir,
    {
        self.is_dir
    }
}

/// Copies an optional path.
pub fn clone_opt_path(p: &Option<FsPath>) -> (r: Option<FsPath>)
    ensures
        opt_path_view(r) == opt_path_view(*p),
{
    match p {
        Some(q) => Some(q.clone()),
        None => None,
    }
}

/// The plain value of an optional path.
pub open spec fn opt_path_view(p: Option<FsPath>) -> Option<Seq<Seq<u8>>> {
    match p {
        Some(q) => Some(q@),
        None => None,
    }
}

/// The label shown for a directory: `/` for the root, else the whole path
/// read lossily as UTF-8.
pub open spec fn dir_label(p: Seq<Seq<u8>>) -> Seq<char> {
    if p.len() == 0 {
        seq!['/']
    } else {
        utf8_lossy(display_bytes(p))
    }
}

/// The label of a directory (`relative_label`).
pub fn relative_label(path: &FsPath) -> (r: String)
    ensures
        r@ == dir_label(path@),
{
    if path.is_root() {
        root_text()
    } else {
        let b = path.display_bytes();
        lossy_string(b.as_slice())
    }
}

/// The second line of a file row: the path's file name (its last
/// component, an ordinary name) when it is valid UTF-8, else nothing.
pub open spec fn file_name_text(p: Seq<Seq<u8>>) -> Seq<char> {
    if p.len() > 0 && valid_utf8(p.last()) {
        decode_utf8(p.last())
    } else {
        Seq::empty()
    }
}

/// The file name shown under a row's name (`relative_name`).
pub fn relative_name(row: &FileRow) -> (r: String)
    ensures
        r@ == file_name_text(row.path@),
{
    let cs = row.path.components();
    let n = cs.len();
    if n == 0 {
        return String::new();
    }
    let last = &cs[n - 1];
    assert(row.path@.last() == last@);
    match decode_str(last.as_slice()) {
        Some(s) => s,
        None => String::new(),
    }
}

/// What a row of the file list shows: name, file name, kind, size, whether
/// it is a directory, and whether it is selected.
#[derive(Debug, PartialEq, Eq)]
pub struct RowDisplay {
    pub name: String,
    pub file_name: String,
    pub kind: String,
    pub size: String,
    pub is_dir: bool,
    pub selected: bool,
}

impl Clone for RowDisplay {
    fn clone(&self) -> (r: Self)
        ensures
            display_view(r) == display_view(*self),
    {
        RowDisplay {
            name: self.name.clone(),
            file_name: self.file_name.clone(),
            kind: self.kind.clone(),
            size: self.size.clone(),
            is_dir: self.is_dir,
            selected: self.selected,
        }
    }
}

/// A shown row as plain values.
pub type RowDisplayView = (Seq<char>, Seq<char>, Seq<char>, Seq<char>, bool, bool);

/// The plain value of a shown row.
pub open spec fn display_view(d: RowDisplay) -> RowDisplayView {
    (d.name@, d.file_name@, d.kind@, d.size@, d.is_dir, d.selected)
}

/// What a row shows, given the selected path.
pub open spec fn row_display(r: RowView, sel: Option<Seq<Seq<u8>>>) -> RowDisplayView {
    (r.1, file_name_text(r.0), r.2, r.3, r.4, sel == Some(r.0))
}

/// The state of the file list: the directory shown, its rows, and the
/// selected path.
#[derive(Debug, PartialEq, Eq)]
pub struct FileListState {
    pub current_dir: FsPath,
    pub rows: Vec<FileRow>,
    pub selected_path: Option<FsPath>,
}

/// The file list as plain values.
pub struct ListView {
    pub current_dir: Seq<Seq<u8>>,
    pub rows: Seq<RowView>,
    pub selected: Option<Seq<Seq<u8>>>,
}

impl View for FileListState {
    type V = ListView;

    open spec fn view(&self) -> ListView {
        ListView {
            current_dir: self.current_dir@,
            rows: row_views(self.rows@),
            selected: opt_path_view(self.selected_path),
        }
    }
}

impl FileListState {
    /// A list showing `rows` of `current_dir`, nothing selected.
    pub fn new(current_dir: FsPath, rows: Vec<FileRow>) -> (r: Self)
        ensures
            r@ == (ListView { current_dir: current_dir@, rows: row_views(rows@), selected: None }),
    {
        FileListState { current_dir, rows, selected_path: None }
    }

    /// Shows `rows` of `current_dir`, with `selected_path` selected.
    pub fn set_directory(&mut self, current_dir: FsPath, rows: Vec<FileRow>, selected_path: Option<&FsPath>)
        ensures
            final(self)@ == (ListView {
                current_dir: current_dir@,
                rows: row_views(rows@),
                selected: match selected_path {
                    Some(p) => Some(p@),
                    None => None,
                },
            }),
    {
        self.current_dir = current_dir;
        self.rows = rows;
        self.selected_path = match selected_path {
            Some(p) => Some(p.clone()),
            None => None,
        };
    }

    /// Selects `path`.
    pub fn select_path(&mut self, path: FsPath)
        ensures
            final(self)@ == (ListView { selected: Some(path@), ..old(self)@ }),
    {
        self.selected_path = Some(path);
    }

    /// The number of rows.
    pub fn len(&self) -> (r: usize)
        ensures
            r == self@.rows.len(),
    {
        self.rows.len()
    }

    /// The label of the directory shown.
    pub fn current_dir_label(&self) -> (r: String)
        ensures
            r@ == dir_label(self@.current_dir),
    {
        relative_label(&self.current_dir)
    }

    /// The directory shown.
    pub fn current_dir_path(&self) -> (r: &FsPath)
        ensures
            r@ == self@.current_dir,
    {
        &self.current_dir
    }

    /// What each row shows, in order.
    pub fn display_rows(&self) -> (r: Vec<RowDisplay>)
        ensures
            r@.len() == self@.rows.len(),
            forall|i: int|
                0 <= i < r@.len() ==> display_view(#[trigger] r@[i]) == row_display(
                    self@.rows[i],
                    self@.selected,
                ),
    {
        let mut out: Vec<RowDisplay> = Vec::new();
        for i in 0..self.rows.len()
            invariant
                out@.len() == i,
                i <= self.rows@.len(),
                forall|j: int|
                    0 <= j < i ==> display_view(#[trigger] out@[j]) == row_display(
                        self@.rows[j],
                        self@.selected,
                    ),
        {
            let row = &self.rows[i];
            let selected = match &self.selected_path {
                Some(p) => p.same_as(&row.path),
                None => false,
            };
            out.push(
                RowDisplay {
                    name: row.name.clone(),
                    file_name: relative_name(row),
                    kind: row.kind.clone(),
                    size: row.size.clone(),
                    is_dir: row.is_dir,
                    selected,
                },
            );
        }
        out
    }
}

} // verus!
