use wad_tree::item::{WadChunk, WadTreeFile, WadTreeFolder, WadTreeItem};
use wad_tree::order::item_le_exec;

fn file(name: &str) -> WadTreeItem {
    WadTreeItem::File(WadTreeFile {
        id: 1,
        name: name.to_string(),
        path: name.to_string(),
        name_hash: 0,
        path_hash: 0,
        chunk: WadChunk { path_hash: 0, data_offset: 0, compressed_size: 0, uncompressed_size: 0 },
    })
}

fn folder(name: &str) -> WadTreeItem {
    WadTreeItem::Folder(WadTreeFolder {
        id: 2,
        name: name.to_string(),
        path: name.to_string(),
        name_hash: 0,
        path_hash: 0,
        items: vec![],
    })
}

#[test]
fn folder_before_file_whatever_the_names() {
    assert!(item_le_exec(&folder("z"), &file("a")));
    assert!(!item_le_exec(&file("a"), &folder("z")));
}

#[test]
fn names_compare_without_case() {
    assert!(item_le_exec(&file("apple"), &file("Banana")));
    assert!(!item_le_exec(&file("Banana"), &file("apple")));
    assert!(item_le_exec(&file("ABC"), &file("abc")));
    assert!(item_le_exec(&file("abc"), &file("ABC")));
    assert!(item_le_exec(&file("ab"), &file("abc")));
    assert!(!item_le_exec(&file("abc"), &file("ab")));
}

#[test]
fn lex_le_exec_compares_character_codes() {
    use_lex();
}

fn use_lex() {
    assert!(wad_tree::order::lex_le_exec("abc", "abd"));
    assert!(!wad_tree::order::lex_le_exec("abd", "abc"));
    assert!(wad_tree::order::lex_le_exec("", "a"));
    assert!(wad_tree::order::lex_le_exec("B", "a"));
    assert!(!wad_tree::order::lex_le_exec("b", "B"));
}
