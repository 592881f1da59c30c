use lib::sort::{key_less, stable_sort_by_keys, SortKey};
use lib::text::{bytes_less, utf8_bytes};

#[test]
fn utf8_bytes_encodes() {
    assert_eq!(utf8_bytes(&"é".to_string()), vec![0xc3, 0xa9]);
    assert_eq!(utf8_bytes(&"ab".to_string()), vec![b'a', b'b']);
}

#[test]
fn byte_order_is_lexicographic() {
    assert!(bytes_less(b"abc", b"abd"));
    assert!(bytes_less(b"ab", b"abc"));
    assert!(!bytes_less(b"abc", b"ab"));
    assert!(!bytes_less(b"abc", b"abc"));
    assert!(bytes_less(b"", b"a"));
}

#[test]
fn directories_sort_first() {
    let d = SortKey { is_dir: true, name: b"z".to_vec() };
    let f = SortKey { is_dir: false, name: b"a".to_vec() };
    assert!(key_less(&d, &f));
    assert!(!key_less(&f, &d));
}

#[test]
fn stable_sort_keeps_equal_keys_in_order() {
    let items = vec!["f-b", "d-x", "f-a", "f-b2", "d-a"];
    let keys = vec![
        SortKey { is_dir: false, name: b"b".to_vec() },
        SortKey { is_dir: true, name: b"x".to_vec() },
        SortKey { is_dir: false, name: b"a".to_vec() },
        SortKey { is_dir: false, name: b"b".to_vec() },
        SortKey { is_dir: true, name: b"a".to_vec() },
    ];
    assert_eq!(stable_sort_by_keys(items, keys), vec!["d-a", "d-x", "f-a", "f-b", "f-b2"]);
}
