use lib::fs_data::{
    directory_children, extension_of, file_name, file_rows_for, kind_for, node_for_path, sort_fs_nodes,
    DirEntryInfo, EntryMetadata, FsNode, ListedPath,
};
use lib::path::FsPath;

fn p(parts: &[&str]) -> FsPath {
    FsPath::from_components(parts.iter().map(|s| s.as_bytes().to_vec()).collect()).unwrap()
}

fn node(parts: &[&str], is_dir: bool) -> FsNode {
    node_for_path(&p(parts), Some(is_dir)).unwrap()
}

#[test]
fn file_name_of_root_is_slash() {
    assert_eq!(file_name(&FsPath::root()), "/");
    assert_eq!(file_name(&p(&["home", "notes.txt"])), "notes.txt");
    let odd = FsPath::from_components(vec![vec![b'a', 0xff]]).unwrap();
    assert_eq!(file_name(&odd), "a\u{FFFD}");
}

#[test]
fn node_for_path_needs_metadata() {
    assert_eq!(node_for_path(&p(&["x"]), None), None);
    let n = node_for_path(&p(&["x", "Docs"]), Some(true)).unwrap();
    assert_eq!(n, FsNode { path: p(&["x", "Docs"]), label: "Docs".to_string(), is_dir: true });
}

#[test]
fn extension_follows_path_rules() {
    assert_eq!(extension_of(b"a.txt"), Some(b"txt".to_vec()));
    assert_eq!(extension_of(b"archive.tar.gz"), Some(b"gz".to_vec()));
    assert_eq!(extension_of(b".bashrc"), None);
    assert_eq!(extension_of(b"noext"), None);
    assert_eq!(extension_of(b"trailing."), Some(Vec::new()));
    assert_eq!(extension_of(b".."), None);
    assert_eq!(extension_of(b"."), None);
}

#[test]
fn kind_is_upper_case_extension() {
    assert_eq!(kind_for(&p(&["src", "main.rs"])), "RS");
    assert_eq!(kind_for(&p(&["README"])), "File");
    assert_eq!(kind_for(&p(&["x.tar.Gz"])), "GZ");
    assert_eq!(kind_for(&FsPath::from_components(vec![vec![b'a', b'.', 0xff]]).unwrap()), "File");
    assert_eq!(kind_for(&p(&["weird."])), "");
}

#[test]
fn sort_puts_directories_first_then_names_ignoring_case() {
    let items = vec![
        node(&["r", "b.txt"], false),
        node(&["r", "Zeta"], true),
        node(&["r", "A.txt"], false),
        node(&["r", "alpha"], true),
    ];
    let sorted = sort_fs_nodes(items);
    let labels: Vec<String> = sorted.iter().map(|n| n.label.clone()).collect();
    assert_eq!(labels, vec!["alpha", "Zeta", "A.txt", "b.txt"]);
}

#[test]
fn sort_keeps_listing_order_of_equal_names() {
    let items = vec![node(&["r", "Same"], false), node(&["r2", "same"], false), node(&["r3", "SAME"], false)];
    let sorted = sort_fs_nodes(items.clone());
    assert_eq!(sorted, items);
}

#[test]
fn directory_children_of_unreadable_dir_is_empty() {
    assert!(directory_children(None).is_empty());
}

#[test]
fn directory_children_skips_entries_without_metadata() {
    let listing = vec![
        ListedPath { path: p(&["d", "zz"]), metadata_is_dir: Some(false) },
        ListedPath { path: p(&["d", "gone"]), metadata_is_dir: None },
        ListedPath { path: p(&["d", "sub"]), metadata_is_dir: Some(true) },
    ];
    let children = directory_children(Some(listing));
    assert_eq!(children, vec![node(&["d", "sub"], true), node(&["d", "zz"], false)]);
}

#[test]
fn file_rows_for_builds_sorted_rows() {
    let listing = vec![
        DirEntryInfo {
            path: p(&["d", "notes.md"]),
            file_name: b"notes.md".to_vec(),
            metadata: Some(EntryMetadata { is_dir: false, len: 2048 }),
        },
        DirEntryInfo {
            path: p(&["d", "broken"]),
            file_name: b"broken".to_vec(),
            metadata: None,
        },
        DirEntryInfo {
            path: p(&["d", "Build"]),
            file_name: b"Build".to_vec(),
            metadata: Some(EntryMetadata { is_dir: true, len: 4096 }),
        },
        DirEntryInfo {
            path: p(&["d", "a"]),
            file_name: b"a".to_vec(),
            metadata: Some(EntryMetadata { is_dir: false, len: 12 }),
        },
    ];
    let rows = file_rows_for(Some(listing));
    assert_eq!(rows.len(), 3);
    assert_eq!(rows[0].name(), "Build");
    assert_eq!(rows[0].kind, "Folder");
    assert_eq!(rows[0].size, "--");
    assert!(rows[0].is_dir());
    assert_eq!(rows[1].name(), "a");
    assert_eq!(rows[1].kind, "File");
    assert_eq!(rows[1].size, "12 B");
    assert_eq!(rows[2].name(), "notes.md");
    assert_eq!(rows[2].kind, "MD");
    assert_eq!(rows[2].size, "2.0 KB");
    assert_eq!(rows[2].path(), &p(&["d", "notes.md"]));
}

#[test]
fn file_rows_for_unreadable_dir_is_empty() {
    assert!(file_rows_for(None).is_empty());
}

#[test]
fn sort_lowercases_non_ascii_names() {
    let items = vec![node(&["r", "Éb"], false), node(&["r", "éa"], false)];
    let labels: Vec<String> = sort_fs_nodes(items).iter().map(|n| n.label.clone()).collect();
    assert_eq!(labels, vec!["éa", "Éb"]);
}

#[test]
fn kind_keeps_non_ascii_letters() {
    assert_eq!(kind_for(&p(&["x.é1"])), "é1");
    assert_eq!(kind_for(&p(&["x.tXt"])), "TXT");
}

#[test]
fn sort_matches_std_stable_sort_on_a_large_listing() {
    let names = ["delta", "Alpha", "alpha", "beta", "ALPHA", "gamma", "Beta", "z", "é", "É"];
    let mut items = Vec::new();
    for i in 0..3000usize {
        let name = format!("{}", names[(i * 7 + i / 13) % names.len()]);
        let dir = format!("d{}", i);
        items.push(node(&[dir.as_str(), name.as_str()], (i * 5) % 3 == 0));
    }
    let mut expected = items.clone();
    expected.sort_by(|a, b| match b.is_dir.cmp(&a.is_dir) {
        std::cmp::Ordering::Equal => a.label.to_lowercase().cmp(&b.label.to_lowercase()),
        ordering => ordering,
    });
    assert_eq!(sort_fs_nodes(items), expected);
}
