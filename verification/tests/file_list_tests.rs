use lib::file_list::{relative_label, relative_name, FileListState, FileRow};
use lib::path::FsPath;

fn p(parts: &[&str]) -> FsPath {
    FsPath::from_components(parts.iter().map(|s| s.as_bytes().to_vec()).collect()).unwrap()
}

fn row(parts: &[&str], is_dir: bool) -> FileRow {
    FileRow::new(p(parts), parts.last().unwrap().to_string(), "Folder".to_string(), "--".to_string(), is_dir)
}

#[test]
fn file_row_getters() {
    let r = row(&["a", "b"], true);
    assert_eq!(r.name(), "b");
    assert_eq!(r.path(), &p(&["a", "b"]));
    assert!(r.is_dir());
}

#[test]
fn labels_of_directories() {
    assert_eq!(relative_label(&FsPath::root()), "/");
    assert_eq!(relative_label(&p(&["home", "me"])), "/home/me");
}

#[test]
fn relative_name_needs_utf8() {
    assert_eq!(relative_name(&row(&["x", "notes.txt"], false)), "notes.txt");
    let odd = FileRow::new(FsPath::from_components(vec![vec![0xff]]).unwrap(), "?".to_string(), "File".to_string(), "1 B".to_string(), false);
    assert_eq!(relative_name(&odd), "");
    let root = FileRow::new(FsPath::root(), "/".to_string(), "File".to_string(), "1 B".to_string(), false);
    assert_eq!(relative_name(&root), "");
}

#[test]
fn list_state_tracks_directory_and_selection() {
    let mut list = FileListState::new(p(&["home"]), vec![row(&["home", "a"], true)]);
    assert_eq!(list.len(), 1);
    assert_eq!(list.current_dir_label(), "/home");
    assert_eq!(list.current_dir_path(), &p(&["home"]));
    assert_eq!(list.selected_path, None);
    list.select_path(p(&["home", "a"]));
    assert_eq!(list.selected_path, Some(p(&["home", "a"])));
    let shown = list.display_rows();
    assert!(shown[0].selected);
    assert_eq!(shown[0].file_name, "a");
    list.set_directory(FsPath::root(), vec![], Some(&p(&["etc"])));
    assert_eq!(list.len(), 0);
    assert_eq!(list.current_dir_label(), "/");
    assert_eq!(list.selected_path, Some(p(&["etc"])));
    list.set_directory(p(&["x"]), vec![row(&["x", "y"], false), row(&["x", "z"], true)], None);
    let shown = list.display_rows();
    assert_eq!(shown.len(), 2);
    assert!(!shown[0].selected && !shown[1].selected);
    assert_eq!(shown[1].kind, "Folder");
}
