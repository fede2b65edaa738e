use wad_tree::error::WadTreeError;
use wad_tree::item::{WadChunk, WadTreeItem, WadTreeItemKey};
use wad_tree::tree::{WadHashtable, WadTree};
use wad_tree::utils::add_item_to_parent;

fn chunk(h: u64) -> WadChunk {
    WadChunk { path_hash: h, data_offset: h * 10, compressed_size: 4, uncompressed_size: 8 }
}

fn table(entries: &[(u64, &str)]) -> WadHashtable {
    let mut t = WadHashtable::new();
    for (h, p) in entries {
        t.insert(*h, p.to_string());
    }
    t
}

fn names(items: &Vec<WadTreeItem>) -> Vec<String> {
    items.iter().map(|i| i.name().to_string()).collect()
}

fn children(item: &WadTreeItem) -> &Vec<WadTreeItem> {
    match item {
        WadTreeItem::Folder(f) => &f.items,
        WadTreeItem::File(_) => panic!("not a folder"),
    }
}

fn build(paths: &[(u64, &str)], chunks: &[u64]) -> Result<WadTree, WadTreeError> {
    let t = table(paths);
    let cs: Vec<WadChunk> = chunks.iter().map(|h| chunk(*h)).collect();
    WadTree::from_wad(&cs, 7, "archive.wad", &t)
}

#[test]
fn example_scenario_builds_expected_tree() {
    let h1 = 0x1111;
    let h2 = 0x2222;
    let h3 = 0xdeadbeef;
    let tree = build(
        &[(h1, "characters/ahri/ahri.skn"), (h2, "characters/ahri/ahri.dds")],
        &[h1, h2, h3],
    )
    .unwrap();
    assert_eq!(names(tree.items()), vec!["characters".to_string(), "0xdeadbeef".to_string()]);
    let characters = &tree.items()[0];
    assert!(characters.is_folder());
    assert_eq!(characters.path(), "characters");
    let ahri = &children(characters)[0];
    assert!(ahri.is_folder());
    assert_eq!(ahri.path(), "characters/ahri");
    let files = children(ahri);
    assert_eq!(names(files), vec!["ahri.dds".to_string(), "ahri.skn".to_string()]);
    assert_eq!(files[0].path(), "characters/ahri/ahri.dds");
    assert_eq!(files[0].path_hash(), h2);
    assert_eq!(files[1].path_hash(), h1);
    let fallback = &tree.items()[1];
    assert!(!fallback.is_folder());
    assert_eq!(fallback.path_hash(), h3);
}

#[test]
fn conflict_with_existing_file_is_reported() {
    let r = build(&[(1, "a/b"), (2, "a/b/c")], &[1, 2]);
    match r {
        Err(WadTreeError::ExistingFile { file_path }) => assert_eq!(file_path, "a/b"),
        _ => panic!("expected ExistingFile"),
    }
}

#[test]
fn file_over_existing_folder_fails() {
    let r = build(&[(1, "a/b/c"), (2, "a/b")], &[1, 2]);
    match r {
        Err(WadTreeError::ItemCreationFailure { item_path }) => assert_eq!(item_path, "a/b"),
        _ => panic!("expected ItemCreationFailure"),
    }
}

#[test]
fn empty_component_is_an_invalid_name() {
    for bad in ["a//b", "a/", "/a", ""] {
        let r = build(&[(5, bad)], &[5]);
        match r {
            Err(WadTreeError::InvalidItemName { chunk_path }) => assert_eq!(chunk_path, 5),
            _ => panic!("expected InvalidItemName for {:?}", bad),
        }
    }
}

#[test]
fn unresolved_hash_falls_back_to_hex_name() {
    let h = 0x00ab_cdef_0123_4567u64;
    let tree = build(&[], &[h]).unwrap();
    assert_eq!(tree.items().len(), 1);
    let item = &tree.items()[0];
    assert_eq!(item.name(), format!("{:#0x}", h));
    assert_eq!(item.name(), "0xabcdef01234567");
    assert_eq!(item.path(), "0xabcdef01234567");
    assert_eq!(item.path_hash(), h);
}

#[test]
fn resolve_chunk_path_uses_table_then_hex() {
    let t = table(&[(3, "x/y.bin")]);
    assert_eq!(WadTree::resolve_chunk_path(3, &t), "x/y.bin");
    assert_eq!(WadTree::resolve_chunk_path(0, &t), "0x0");
    assert_eq!(WadTree::resolve_chunk_path(255, &t), "0xff");
}

#[test]
fn selection_round_trip_keeps_order() {
    let mut tree = build(&[(1, "a/b")], &[1]).unwrap();
    assert!(tree.selected_items().is_empty());
    tree.set_selected_items(vec![WadTreeItemKey::new("k2"), WadTreeItemKey::new("k1")]);
    let sel: Vec<String> = tree.selected_items().iter().map(|k| k.name.clone()).collect();
    assert_eq!(sel, vec!["k2".to_string(), "k1".to_string()]);
    tree.set_selected_items(vec![]);
    assert!(tree.selected_items().is_empty());
}

#[test]
fn folders_come_first_and_names_ignore_case() {
    let tree = build(
        &[(1, "b.txt"), (2, "A.txt"), (3, "zeta/x"), (4, "Alpha/y"), (5, "c.txt")],
        &[1, 2, 3, 4, 5],
    )
    .unwrap();
    assert_eq!(
        names(tree.items()),
        vec!["Alpha", "zeta", "A.txt", "b.txt", "c.txt"].iter().map(|s| s.to_string()).collect::<Vec<_>>()
    );
}

#[test]
fn same_path_twice_keeps_one_file_with_the_later_chunk() {
    let tree = build(&[(1, "a/b"), (2, "a/b")], &[1, 2]).unwrap();
    let a = &tree.items()[0];
    assert_eq!(children(a).len(), 1);
    assert_eq!(children(a)[0].path_hash(), 2);
}

#[test]
fn every_chunk_becomes_one_file() {
    let paths = [(10, "d/e/f"), (11, "d/e/g"), (12, "d/h"), (13, "i")];
    let tree = build(&paths, &[10, 11, 12, 13, 14]).unwrap();
    let mut found = Vec::new();
    fn walk(items: &Vec<WadTreeItem>, found: &mut Vec<(String, u64)>) {
        for i in items {
            match i {
                WadTreeItem::Folder(f) => walk(&f.items, found),
                WadTreeItem::File(f) => found.push((f.path.clone(), f.path_hash)),
            }
        }
    }
    walk(tree.items(), &mut found);
    found.sort();
    assert_eq!(
        found,
        vec![
            ("0xe".to_string(), 14),
            ("d/e/f".to_string(), 10),
            ("d/e/g".to_string(), 11),
            ("d/h".to_string(), 12),
            ("i".to_string(), 13)
        ]
    );
}

#[test]
fn walking_a_file_path_reaches_the_file() {
    let tree = build(&[(1, "q/r/s.bin"), (2, "q/t.bin")], &[1, 2]).unwrap();
    let mut level = tree.items();
    let comps: Vec<&str> = "q/r/s.bin".split('/').collect();
    for (n, c) in comps.iter().enumerate() {
        let item = level.iter().find(|i| i.name() == *c).unwrap();
        if n + 1 == comps.len() {
            assert_eq!(item.path(), "q/r/s.bin");
            assert_eq!(item.path_hash(), 1);
        } else {
            level = children(item);
        }
    }
}

#[test]
fn hashes_follow_the_archive_hash_of_lowercased_text() {
    let tree = build(&[(1, "Data/File.BIN")], &[1]).unwrap();
    let data = &tree.items()[0];
    assert_eq!(data.name_hash(), xxhash_rust::xxh64::xxh64(b"data", 0));
    assert_eq!(data.path_hash(), xxhash_rust::xxh64::xxh64(b"data", 0));
    let file = &children(data)[0];
    assert_eq!(file.name_hash(), xxhash_rust::xxh64::xxh64(b"file.bin", 0));
    assert_eq!(file.path_hash(), 1);
    assert_ne!(data.id(), file.id());
}

#[test]
fn root_reports_sentinel_identity() {
    let tree = build(&[], &[]).unwrap();
    assert!(tree.is_root());
    assert_eq!(tree.id(), 0);
    assert_eq!(tree.name(), "");
    assert_eq!(tree.path(), "");
    assert_eq!(tree.name_hash(), 0);
    assert_eq!(tree.path_hash(), 0);
    assert_eq!(tree.wad_id(), 7);
    assert_eq!(tree.wad_path(), "archive.wad");
    assert!(tree.items().is_empty());
}

#[test]
fn error_messages_name_the_cause() {
    let e = WadTreeError::InvalidItemName { chunk_path: 0x1f };
    assert_eq!(e.message(), "invalid item name (chunk_path: 0x1f)");
    let e = WadTreeError::ExistingFile { file_path: "a/b".to_string() };
    assert_eq!(e.message(), "existing file: (file_path: a/b)");
    let e = WadTreeError::ItemCreationFailure { item_path: "a".to_string() };
    assert_eq!(e.message(), "failed to create item (item_path: a)");
}

#[test]
fn find_item_returns_first_match_depth_first() {
    let tree = build(&[(1, "a/x.bin"), (2, "a/b/x.bin"), (3, "x.bin")], &[1, 2, 3]).unwrap();
    let found = tree.find_item(|i| i.name() == "x.bin").unwrap();
    assert_eq!(found.path(), "a/b/x.bin");
    let folder = tree.find_item(|i| i.is_folder() && i.name() == "b").unwrap();
    assert_eq!(folder.path(), "a/b");
    assert!(tree.find_item(|i| i.name() == "missing").is_none());
    let top = tree.find_item(|_| true).unwrap();
    assert_eq!(top.path(), "a");
}

#[test]
fn traverse_items_visits_every_item_once_in_preorder() {
    let tree = build(&[(1, "a/x.bin"), (2, "a/b/y.bin"), (3, "z.bin")], &[1, 2, 3]).unwrap();
    let paths: Vec<&str> = tree.traverse_items().iter().map(|i| i.path()).collect();
    assert_eq!(paths, vec!["a", "a/b", "a/b/y.bin", "a/x.bin", "z.bin"]);
}

#[test]
fn folder_finds_and_traverses_its_descendants() {
    let tree = build(&[(1, "a/b/x.bin"), (2, "a/y.bin")], &[1, 2]).unwrap();
    let a = match &tree.items()[0] {
        WadTreeItem::Folder(f) => f,
        WadTreeItem::File(_) => panic!("expected a folder"),
    };
    assert!(!a.is_root());
    assert_eq!(a.items().len(), 2);
    let paths: Vec<&str> = a.traverse_items().iter().map(|i| i.path()).collect();
    assert_eq!(paths, vec!["a/b", "a/b/x.bin", "a/y.bin"]);
    assert_eq!(a.find_item(|i| !i.is_folder()).unwrap().path(), "a/b/x.bin");
    assert!(a.find_item(|i| i.name() == "a").is_none());
}

#[test]
fn later_chunk_under_an_earlier_file_fails_even_after_other_chunks() {
    let r = build(&[(1, "p/q"), (2, "r/s"), (3, "p/q/t")], &[1, 2, 3]);
    assert!(matches!(r, Err(WadTreeError::ExistingFile { ref file_path }) if file_path == "p/q"));
}

#[test]
fn unresolved_hash_in_same_folder_as_resolved_paths_is_a_root_file() {
    let tree = build(&[(1, "zz/a.bin")], &[1, 0x10]).unwrap();
    assert_eq!(names(tree.items()), vec!["zz".to_string(), "0x10".to_string()]);
}

#[test]
fn sorting_twice_keeps_the_order_of_sorting_once() {
    let mut tree = build(
        &[(1, "b/x"), (2, "A/y"), (3, "c.bin"), (4, "B.bin"), (5, "A/a")],
        &[1, 2, 3, 4, 5],
    )
    .unwrap();
    let once: Vec<String> = tree.traverse_items().iter().map(|i| i.path().to_string()).collect();
    tree.sort_items();
    let twice: Vec<String> = tree.traverse_items().iter().map(|i| i.path().to_string()).collect();
    assert_eq!(once, twice);
    assert_eq!(once, vec!["A", "A/a", "A/y", "b", "b/x", "B.bin", "c.bin"]);
}

#[test]
fn sorting_restores_order_after_items_are_rearranged() {
    let mut tree = build(&[(1, "b.bin"), (2, "a.bin"), (3, "d/e")], &[1, 2, 3]).unwrap();
    tree.items_mut().reverse();
    assert_eq!(names(tree.items()), vec!["b.bin".to_string(), "a.bin".to_string(), "d".to_string()]);
    tree.sort_items();
    assert_eq!(names(tree.items()), vec!["d".to_string(), "a.bin".to_string(), "b.bin".to_string()]);
}

fn comps(path: &str) -> Vec<String> {
    path.split('/').map(|c| c.to_string()).collect()
}

#[test]
fn add_item_to_parent_appends_and_keeps_identities() {
    let mut items: Vec<WadTreeItem> = Vec::new();
    add_item_to_parent(&mut items, "", &comps("z/b"), 0, &chunk(1)).unwrap();
    add_item_to_parent(&mut items, "", &comps("a"), 0, &chunk(2)).unwrap();
    let z_id = items[0].id();
    add_item_to_parent(&mut items, "", &comps("z/a"), 0, &chunk(3)).unwrap();
    assert_eq!(names(&items), vec!["z".to_string(), "a".to_string()]);
    assert_eq!(items[0].id(), z_id);
    assert_eq!(names(children(&items[0])), vec!["b".to_string(), "a".to_string()]);
    let a_id = items[1].id();
    add_item_to_parent(&mut items, "", &comps("a"), 0, &chunk(4)).unwrap();
    assert_ne!(items[1].id(), a_id);
    assert_eq!(items[1].path_hash(), 4);
    assert_ne!(items[0].id(), 0);
}

#[test]
fn add_item_to_parent_fails_without_changes() {
    let mut items: Vec<WadTreeItem> = Vec::new();
    add_item_to_parent(&mut items, "", &comps("a/b"), 0, &chunk(1)).unwrap();
    match add_item_to_parent(&mut items, "", &comps("a/b/c/d"), 0, &chunk(2)) {
        Err(WadTreeError::ExistingFile { file_path }) => assert_eq!(file_path, "a/b"),
        _ => panic!("expected ExistingFile"),
    }
    match add_item_to_parent(&mut items, "", &comps("a/"), 0, &chunk(3)) {
        Err(WadTreeError::InvalidItemName { chunk_path }) => assert_eq!(chunk_path, 3),
        _ => panic!("expected InvalidItemName"),
    }
    match add_item_to_parent(&mut items, "", &comps("a"), 0, &chunk(4)) {
        Err(WadTreeError::ItemCreationFailure { item_path }) => assert_eq!(item_path, "a"),
        _ => panic!("expected ItemCreationFailure"),
    }
    assert_eq!(names(&items), vec!["a".to_string()]);
    assert_eq!(names(children(&items[0])), vec!["b".to_string()]);
}

#[test]
fn first_failing_chunk_gives_the_error() {
    let r = build(&[(1, "a/b"), (2, "a/b/c"), (3, "x"), (4, "x/y")], &[1, 2, 3, 4]);
    match r {
        Err(WadTreeError::ExistingFile { file_path }) => assert_eq!(file_path, "a/b"),
        _ => panic!("expected ExistingFile"),
    }
}

#[test]
fn example_scenario_walk_has_no_extra_items() {
    let tree = build(
        &[(1, "characters/ahri/ahri.skn"), (2, "characters/ahri/ahri.dds")],
        &[1, 2, 0x1234567890abcdef],
    )
    .unwrap();
    let walked: Vec<&str> = tree.traverse_items().iter().map(|i| i.name()).collect();
    assert_eq!(walked, vec!["characters", "ahri", "ahri.dds", "ahri.skn", "0x1234567890abcdef"]);
    assert!(tree.traverse_items().iter().all(|i| i.id() != 0));
}

#[test]
fn file_on_the_way_is_met_before_an_empty_component() {
    let mut items: Vec<WadTreeItem> = Vec::new();
    add_item_to_parent(&mut items, "", &comps("a/b"), 0, &chunk(1)).unwrap();
    for bad in ["a/b/", "a/b/c/", "a/b//c"] {
        match add_item_to_parent(&mut items, "", &comps(bad), 0, &chunk(2)) {
            Err(WadTreeError::ExistingFile { file_path }) => assert_eq!(file_path, "a/b"),
            _ => panic!("expected ExistingFile for {:?}", bad),
        }
    }
    let r = build(&[(1, "a/b"), (2, "a/b/c/")], &[1, 2]);
    match r {
        Err(WadTreeError::ExistingFile { file_path }) => assert_eq!(file_path, "a/b"),
        _ => panic!("expected ExistingFile"),
    }
    let r = build(&[(1, "a/b"), (2, "a//b")], &[1, 2]);
    match r {
        Err(WadTreeError::InvalidItemName { chunk_path }) => assert_eq!(chunk_path, 2),
        _ => panic!("expected InvalidItemName"),
    }
}
