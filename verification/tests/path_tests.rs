use lib::path::{bytes_equal, check_name, FsPath};

fn p(parts: &[&str]) -> FsPath {
    FsPath::from_components(parts.iter().map(|s| s.as_bytes().to_vec()).collect()).unwrap()
}

#[test]
fn root_has_no_parent() {
    let r = FsPath::root();
    assert!(r.is_root());
    assert!(r.parent().is_none());
    assert_eq!(r.display_bytes(), b"/".to_vec());
}

#[test]
fn parent_drops_last_component() {
    let a = p(&["home", "user", "docs"]);
    assert_eq!(a.parent(), Some(p(&["home", "user"])));
    assert_eq!(p(&["home"]).parent(), Some(FsPath::root()));
}

#[test]
fn join_appends_component() {
    assert_eq!(p(&["home"]).join(b"user"), Some(p(&["home", "user"])));
    assert_eq!(FsPath::root().join(b"etc"), Some(p(&["etc"])));
}

#[test]
fn join_refuses_what_is_no_ordinary_name() {
    let a = p(&["a"]);
    assert_eq!(a.join(b".."), None);
    assert_eq!(a.join(b"."), None);
    assert_eq!(a.join(b""), None);
    assert_eq!(a.join(b"x/y"), None);
    assert_eq!(a.join(b"...").map(|q| q.display_bytes()), Some(b"/a/...".to_vec()));
}

#[test]
fn from_components_keeps_ordinary_names_only() {
    assert!(FsPath::from_components(vec![b"a".to_vec(), b"..".to_vec()]).is_none());
    assert!(FsPath::from_components(vec![b"a".to_vec(), b"b.c".to_vec(), b".".to_vec()]).is_none());
    assert!(FsPath::from_components(vec![Vec::new()]).is_none());
    assert!(FsPath::from_components(vec![b"a/b".to_vec()]).is_none());
    let q = FsPath::from_components(vec![b".hidden".to_vec(), vec![0xff]]).unwrap();
    assert_eq!(q.components(), &vec![b".hidden".to_vec(), vec![0xff]]);
    assert_eq!(FsPath::from_components(Vec::new()), Some(FsPath::root()));
}

#[test]
fn check_name_tells_ordinary_names() {
    assert!(check_name(b"a"));
    assert!(check_name(b"..."));
    assert!(check_name(b".a"));
    assert!(!check_name(b"."));
    assert!(!check_name(b".."));
    assert!(!check_name(b""));
    assert!(!check_name(b"a/"));
}

#[test]
fn ancestors_run_to_root() {
    let a = p(&["a", "b"]);
    assert_eq!(a.ancestors(), vec![p(&["a", "b"]), p(&["a"]), FsPath::root()]);
    assert_eq!(FsPath::root().ancestors(), vec![FsPath::root()]);
}

#[test]
fn starts_with_compares_components() {
    let a = p(&["home", "user", "docs"]);
    assert!(a.starts_with(&p(&["home", "user"])));
    assert!(a.starts_with(&a));
    assert!(a.starts_with(&FsPath::root()));
    assert!(!a.starts_with(&p(&["home", "us"])));
    assert!(!p(&["home"]).starts_with(&a));
}

#[test]
fn same_as_compares_whole_paths() {
    assert!(p(&["x", "y"]).same_as(&p(&["x", "y"])));
    assert!(!p(&["x", "y"]).same_as(&p(&["x"])));
    assert!(!p(&["x", "y"]).same_as(&p(&["x", "z"])));
}

#[test]
fn display_bytes_joins_with_slashes() {
    assert_eq!(p(&["usr", "lib"]).display_bytes(), b"/usr/lib".to_vec());
}

#[test]
fn bytes_equal_works() {
    assert!(bytes_equal(b"abc", b"abc"));
    assert!(!bytes_equal(b"abc", b"abd"));
    assert!(!bytes_equal(b"ab", b"abc"));
}

#[test]
fn clone_keeps_components() {
    let a = p(&["q", "r"]);
    assert_eq!(a.clone(), a);
}
