use lib::explorer::{activation_target, DirListing, ExplorerNode, ExplorerState, VisibleEntry};
use lib::file_list::{FileListState, FileRow};
use lib::fs_data::{directory_children, ListedPath};
use lib::path::FsPath;

fn p(parts: &[&str]) -> FsPath {
    FsPath::from_components(parts.iter().map(|s| s.as_bytes().to_vec()).collect()).unwrap()
}

fn listing(dir: &[&str], entries: &[(&str, bool)]) -> DirListing {
    let d = p(dir);
    let listed = entries
        .iter()
        .map(|(name, is_dir)| ListedPath { path: d.join(name.as_bytes()).unwrap(), metadata_is_dir: Some(*is_dir) })
        .collect();
    DirListing { dir: d, children: directory_children(Some(listed)) }
}

fn world() -> Vec<DirListing> {
    vec![
        listing(&["r"], &[("b", true), ("a.txt", false)]),
        listing(&["r", "b"], &[("c", true), ("note.md", false)]),
        listing(&["r", "b", "c"], &[("deep.txt", false)]),
        listing(&[], &[("r", true)]),
    ]
}

fn row(parts: &[&str], is_dir: bool) -> FileRow {
    FileRow::new(p(parts), parts.last().unwrap().to_string(), "K".to_string(), "S".to_string(), is_dir)
}

fn rows_summary(entries: &[VisibleEntry]) -> Vec<(String, usize, bool, bool)> {
    entries.iter().map(|e| (e.label.clone(), e.depth, e.expanded, e.selected)).collect()
}

#[test]
fn new_opens_start_dir_expanded() {
    let ls = world();
    let st = ExplorerState::new(p(&["r"]), Some(true), &ls);
    assert_eq!(st.selected_path, Some(p(&["r"])));
    assert_eq!(st.roots.len(), 1);
    assert!(st.roots[0].expanded);
    assert!(st.roots[0].children_loaded);
    assert_eq!(
        rows_summary(&st.visible_entries()),
        vec![
            ("r".to_string(), 0, true, true),
            ("b".to_string(), 1, false, false),
            ("a.txt".to_string(), 1, false, false),
        ]
    );
}

#[test]
fn toggle_expand_loads_and_flips() {
    let ls = world();
    let mut st = ExplorerState::new(p(&["r"]), Some(true), &ls);
    assert!(st.toggle_expand(&p(&["r", "b"]), &ls));
    assert_eq!(
        rows_summary(&st.visible_entries()),
        vec![
            ("r".to_string(), 0, true, true),
            ("b".to_string(), 1, true, false),
            ("c".to_string(), 2, false, false),
            ("note.md".to_string(), 2, false, false),
            ("a.txt".to_string(), 1, false, false),
        ]
    );
    let expanded = st.visible_entries();
    assert!(st.toggle_expand(&p(&["r", "b"]), &ls));
    assert_eq!(st.visible_entries().len(), 3);
    assert!(st.toggle_expand(&p(&["r", "b"]), &ls));
    assert_eq!(st.visible_entries(), expanded);
}

#[test]
fn toggle_twice_restores_a_loaded_tree() {
    let ls = world();
    let mut st = ExplorerState::new(p(&["r"]), Some(true), &ls);
    let before = st.visible_entries();
    assert!(st.toggle_expand(&p(&["r"]), &ls));
    assert_eq!(st.visible_entries().len(), 1);
    assert!(st.toggle_expand(&p(&["r"]), &ls));
    assert_eq!(st.visible_entries(), before);
}

#[test]
fn toggle_on_file_or_missing_path() {
    let ls = world();
    let mut st = ExplorerState::new(p(&["r"]), Some(true), &ls);
    let before = st.visible_entries();
    assert!(st.toggle_expand(&p(&["r", "a.txt"]), &ls));
    assert_eq!(st.visible_entries(), before);
    assert!(!st.toggle_expand(&p(&["elsewhere"]), &ls));
    assert_eq!(st.visible_entries(), before);
}

#[test]
fn select_directory_opens_the_way() {
    let ls = world();
    let mut st = ExplorerState::new(p(&["r"]), Some(true), &ls);
    let mut list = FileListState::new(p(&["r"]), vec![]);
    assert!(st.select_path(&mut list, p(&["r", "b", "c"]), true, vec![], &ls));
    assert_eq!(list.current_dir, p(&["r"]));
    assert_eq!(
        rows_summary(&st.visible_entries()),
        vec![
            ("r".to_string(), 0, true, false),
            ("b".to_string(), 1, true, false),
            ("c".to_string(), 2, true, true),
            ("deep.txt".to_string(), 3, false, false),
            ("note.md".to_string(), 2, false, false),
            ("a.txt".to_string(), 1, false, false),
        ]
    );
}

#[test]
fn select_file_shows_it_in_the_list() {
    let ls = world();
    let mut st = ExplorerState::new(p(&["r"]), Some(true), &ls);
    let mut list = FileListState::new(p(&["r"]), vec![]);
    let rows = vec![row(&["r", "b", "c"], true), row(&["r", "b", "note.md"], false)];
    assert!(st.select_path(&mut list, p(&["r", "b", "note.md"]), false, rows.clone(), &ls));
    assert_eq!(list.current_dir, p(&["r", "b"]));
    assert_eq!(list.rows, rows);
    assert_eq!(list.selected_path, Some(p(&["r", "b", "note.md"])));
    assert_eq!(st.selected_path, Some(p(&["r", "b", "note.md"])));
    let shown = st.visible_entries();
    assert!(shown.iter().any(|e| e.path == p(&["r", "b", "note.md"]) && e.selected));
}

#[test]
fn show_file_without_parent_changes_nothing() {
    let ls = world();
    let mut st = ExplorerState::new(p(&["r"]), Some(true), &ls);
    let mut list = FileListState::new(p(&["r"]), vec![]);
    assert!(!st.show_file_in_list(&mut list, FsPath::root(), vec![], &ls));
    assert_eq!(list.current_dir, p(&["r"]));
    assert_eq!(st.selected_path, Some(p(&["r"])));
}

#[test]
fn activate_directory_rebuilds_tree() {
    let ls = world();
    let mut st = ExplorerState::new(p(&["r"]), Some(true), &ls);
    let mut list = FileListState::new(p(&["r"]), vec![]);
    let rows = vec![row(&["r", "b", "c"], true)];
    st.activate_path(&mut list, &p(&["r", "b"]), true, rows.clone(), Some(true), &ls);
    assert_eq!(list.current_dir, p(&["r", "b"]));
    assert_eq!(list.rows, rows);
    assert_eq!(list.selected_path, None);
    assert_eq!(st.roots.len(), 1);
    assert_eq!(st.roots[0].path, p(&["r", "b"]));
    assert_eq!(
        rows_summary(&st.visible_entries()),
        vec![
            ("b".to_string(), 0, true, true),
            ("c".to_string(), 1, false, false),
            ("note.md".to_string(), 1, false, false),
        ]
    );
}

#[test]
fn activate_file_lists_its_directory() {
    let ls = world();
    let mut st = ExplorerState::new(p(&["r"]), Some(true), &ls);
    let mut list = FileListState::new(p(&["r"]), vec![]);
    assert_eq!(activation_target(&p(&["r", "b", "note.md"]), false), p(&["r", "b"]));
    st.activate_path(&mut list, &p(&["r", "b", "note.md"]), false, vec![], Some(true), &ls);
    assert_eq!(list.current_dir, p(&["r", "b"]));
    assert_eq!(list.selected_path, Some(p(&["r", "b", "note.md"])));
    assert_eq!(st.roots[0].path, p(&["r", "b"]));
    assert_eq!(
        rows_summary(&st.visible_entries()),
        vec![
            ("b".to_string(), 0, true, false),
            ("c".to_string(), 1, false, false),
            ("note.md".to_string(), 1, false, true),
        ]
    );
}

#[test]
fn navigate_up_goes_to_parent() {
    let ls = world();
    let mut st = ExplorerState::new(p(&["r", "b"]), Some(true), &ls);
    let mut list = FileListState::new(p(&["r", "b"]), vec![]);
    assert!(st.can_navigate_up(&list));
    st.navigate_up(&mut list, true, vec![], Some(true), &ls);
    assert_eq!(list.current_dir, p(&["r"]));
    assert_eq!(st.roots[0].path, p(&["r"]));
    assert_eq!(st.selected_path, Some(p(&["r"])));
    st.navigate_up(&mut list, true, vec![], Some(true), &ls);
    assert_eq!(list.current_dir, FsPath::root());
    assert!(!st.can_navigate_up(&list));
    let before_roots = st.roots.clone();
    st.navigate_up(&mut list, true, vec![], None, &ls);
    assert_eq!(list.current_dir, FsPath::root());
    assert_eq!(st.roots, before_roots);
}

#[test]
fn visible_entries_of_unloaded_file_root() {
    let ls: Vec<DirListing> = vec![];
    let st = ExplorerState::new(p(&["f.txt"]), Some(false), &ls);
    let shown = st.visible_entries();
    assert_eq!(shown.len(), 1);
    assert!(!shown[0].is_dir);
    assert!(shown[0].expanded);
    assert!(!st.roots[0].children_loaded);
}

#[test]
fn toggle_twice_keeps_tree_but_loaded_children() {
    let ls = world();
    let mut st = ExplorerState::new(p(&["r"]), Some(true), &ls);
    let before = st.roots.clone();
    assert!(!before[0].children[0].children_loaded);
    assert!(st.toggle_expand(&p(&["r", "b"]), &ls));
    assert!(st.toggle_expand(&p(&["r", "b"]), &ls));
    let mut expected = before.clone();
    expected[0].children[0].load_children(&ls);
    assert_eq!(st.roots, expected);
    assert!(!st.roots[0].children[0].expanded);
    assert_eq!(st.roots[0].children[0].children.len(), 2);
}

fn consistent(n: &ExplorerNode) -> bool {
    (!(n.is_dir && n.expanded) || n.children_loaded)
        && (n.children_loaded || n.children.is_empty())
        && n.children.iter().all(consistent)
}

fn files_collapsed(n: &ExplorerNode) -> bool {
    (n.is_dir || !n.expanded) && n.children.iter().all(files_collapsed)
}

#[test]
fn operations_keep_the_tree_consistent() {
    let ls = world();
    let mut st = ExplorerState::new(p(&["r"]), Some(true), &ls);
    let mut list = FileListState::new(p(&["r"]), vec![]);
    assert!(st.roots.iter().all(consistent));
    for path in [p(&["r", "b"]), p(&["r", "a.txt"]), p(&["r", "b", "c"]), p(&["r", "b"]), p(&["r"])] {
        st.toggle_expand(&path, &ls);
        assert!(st.roots.iter().all(consistent));
        assert!(st.roots.iter().all(files_collapsed));
    }
    st.select_path(&mut list, p(&["r", "b", "c", "deep.txt"]), false, vec![], &ls);
    assert!(st.roots.iter().all(consistent));
    assert!(st.roots.iter().all(files_collapsed));
    st.activate_path(&mut list, &p(&["r", "b"]), true, vec![], Some(true), &ls);
    assert!(st.roots.iter().all(consistent));
}

#[test]
fn toggle_loads_only_for_unloaded_collapsed_directories() {
    let ls = world();
    let mut st = ExplorerState::new(p(&["r"]), Some(true), &ls);
    assert!(st.toggle_loads(&p(&["r", "b"])));
    assert!(!st.toggle_loads(&p(&["r"])));
    assert!(!st.toggle_loads(&p(&["r", "a.txt"])));
    assert!(!st.toggle_loads(&p(&["elsewhere"])));
    assert!(st.toggle_expand(&p(&["r", "b"]), &ls));
    assert!(!st.toggle_loads(&p(&["r", "b"])));
    assert!(st.toggle_expand(&p(&["r", "b"]), &ls));
    assert!(!st.toggle_loads(&p(&["r", "b"])));
    let mut with_listings = ExplorerState { roots: st.roots.clone(), selected_path: st.selected_path.clone() };
    assert!(st.toggle_expand(&p(&["r", "b"]), &Vec::new()));
    assert!(with_listings.toggle_expand(&p(&["r", "b"]), &ls));
    assert_eq!(st, with_listings);
}
