use wad_tree::tree::{WadHashtable, WadTree};
use wad_tree::path::{make_child_path, split_components, str_equal};

#[test]
fn split_components_matches_std_split() {
    for s in ["", "a", "a/b", "a//b", "/a/", "characters/ahri/ahri.skn", "é/ü"] {
        let expected: Vec<String> = s.split('/').map(|c| c.to_string()).collect();
        assert_eq!(split_components(s), expected);
    }
}

#[test]
fn child_path_joins_with_slash() {
    assert_eq!(make_child_path("", "a"), "a");
    assert_eq!(make_child_path("a/b", "c"), "a/b/c");
}

#[test]
fn hex_literal_has_prefix_and_no_padding() {
    let empty = WadHashtable::new();
    assert_eq!(WadTree::resolve_chunk_path(0, &empty), "0x0");
    assert_eq!(WadTree::resolve_chunk_path(0xABC, &empty), "0xabc");
    assert_eq!(WadTree::resolve_chunk_path(u64::MAX, &empty), "0xffffffffffffffff");
}

#[test]
fn str_equal_compares_characters() {
    assert!(str_equal("abc", "abc"));
    assert!(!str_equal("abc", "abd"));
    assert!(!str_equal("abc", "ab"));
}

#[test]
fn hex_literal_matches_std_formatting() {
    for n in [0u64, 1, 15, 16, 255, 0xdead_beef, 0x1234567890abcdef, u64::MAX] {
        assert_eq!(wad_tree::path::hex_literal(n), format!("{:#0x}", n));
    }
}
