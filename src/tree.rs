//! The root of the tree: built from the archive's chunks and a hash table.

use std::collections::HashMap;

use vstd::prelude::*;

use crate::error::WadTreeError;
use crate::item::{
    ends_at_folder, file_at, file_on_way, is_prefix, lemma_lookup_name, lemma_lookup_path,
    lemma_lookup_prefix, lookup, wf_items, WadChunk, WadTreeItem, WadTreeItemKey,
};
use crate::order::{items_sorted, reordered_items, same_order_items, same_reach, sort_items};
use crate::path::{
    comps_view, hex_digits, hex_literal, hex_literal_of, is_sep, join_path, lemma_extend_path,
    lemma_hex_digits_no_sep, lemma_join_split, lemma_split_join, lemma_split_path_no_sep_whole,
    no_sep, split_components, split_path,
};
use crate::utils::{add_item_to_parent, find_parent_item, preorder, traverse_parent_items};

verus! {

broadcast use vstd::std_specs::hash::group_hash_axioms;

/// Known paths of the archive, by their 64-bit hash.
pub struct WadHashtable {
    items: HashMap<u64, String>,
}

impl View for WadHashtable {
    type V = Map<u64, Seq<char>>;

    closed spec fn view(&self) -> Map<u64, Seq<char>> {
        self.items@.map_values(|s: String| s@)
    }
}

impl WadHashtable {
    pub fn new() -> (r: WadHashtable)
        ensures
            r@ == Map::<u64, Seq<char>>::empty(),
    {
        let r = WadHashtable { items: HashMap::new() };
        assert(r@ =~= Map::<u64, Seq<char>>::empty());
        r
    }

    /// Records `path` as the path whose hash is `path_hash`.
    pub fn insert(&mut self, path_hash: u64, path: String)
        ensures
            final(self)@ == old(self)@.insert(path_hash, path@),
    {
        self.items.insert(path_hash, path);
        assert(final(self)@ =~= old(self)@.insert(path_hash, path@));
    }

    /// The path recorded for `path_hash`, if any.
    pub fn get(&self, path_hash: u64) -> (r: Option<&String>)
        ensures
            match r {
                Some(p) => self@.contains_key(path_hash) && self@[path_hash] == p@,
                None => !self@.contains_key(path_hash),
            },
    {
        self.items.get(&path_hash)
    }
}

/// The path of the chunk whose hash is `h`: the table's entry, or else the hash written
/// in hexadecimal.
pub open spec fn resolved_path(table: Map<u64, Seq<char>>, h: u64) -> Seq<char> {
    if table.contains_key(h) {
        table[h]
    } else {
        hex_literal_of(h)
    }
}

/// Every component of `cs` is non-empty.
pub open spec fn all_named(cs: Seq<Seq<char>>) -> bool {
    forall|k: int| 0 <= k < cs.len() ==> (#[trigger] cs[k]).len() > 0
}

/// The components of the path of `chunk`.
pub open spec fn chunk_comps(table: Map<u64, Seq<char>>, chunk: WadChunk) -> Seq<Seq<char>> {
    split_path(resolved_path(table, chunk.path_hash))
}

/// No chunk's path has an empty component, and no chunk's path is the path of another
/// chunk or a beginning of it.
pub open spec fn paths_compatible(table: Map<u64, Seq<char>>, chunks: Seq<WadChunk>) -> bool {
    &&& forall|j: int| 0 <= j < chunks.len() ==> all_named(#[trigger] chunk_comps(table, chunks[j]))
    &&& forall|j: int, j2: int|
        0 <= j < chunks.len() && 0 <= j2 < chunks.len() && j != j2 ==> !is_prefix(
            #[trigger] chunk_comps(table, chunks[j]),
            #[trigger] chunk_comps(table, chunks[j2]),
        )
}

/// `a` is a beginning of `b`, and shorter.
pub open spec fn proper_prefix(a: Seq<Seq<char>>, b: Seq<Seq<char>>) -> bool {
    a.len() < b.len() && is_prefix(a, b)
}

/// The path of the chunk at `j` has no empty component, and neither it nor the path of
/// any earlier chunk is a shorter beginning of the other.
pub open spec fn attachable(table: Map<u64, Seq<char>>, chunks: Seq<WadChunk>, j: int) -> bool {
    &&& all_named(chunk_comps(table, chunks[j]))
    &&& forall|j2: int|
        0 <= j2 < j ==> !proper_prefix(#[trigger] chunk_comps(table, chunks[j2]), chunk_comps(table, chunks[j]))
            && !proper_prefix(chunk_comps(table, chunks[j]), chunk_comps(table, chunks[j2]))
}

/// The chunk at `k` cannot be attached after the chunks before it, and `e` is the error
/// that walking down its path meets first: a file at a shorter beginning of its path is
/// an existing file, named by that path; else an empty component is an invalid name;
/// else a folder at its path makes the file impossible to create, named by its path.
pub open spec fn fails_with(
    table: Map<u64, Seq<char>>,
    chunks: Seq<WadChunk>,
    k: int,
    e: WadTreeError,
) -> bool {
    let ck = chunk_comps(table, chunks[k]);
    match e {
        WadTreeError::ExistingFile { file_path } => exists|j2: int|
            0 <= j2 < k && proper_prefix(#[trigger] chunk_comps(table, chunks[j2]), ck) && file_path@
                == join_path(chunk_comps(table, chunks[j2])),
        WadTreeError::InvalidItemName { chunk_path } => {
            &&& chunk_path == chunks[k].path_hash
            &&& !all_named(ck)
            &&& forall|j2: int|
                0 <= j2 < k ==> !proper_prefix(#[trigger] chunk_comps(table, chunks[j2]), ck)
        },
        WadTreeError::ItemCreationFailure { item_path } => {
            &&& all_named(ck)
            &&& forall|j2: int|
                0 <= j2 < k ==> !proper_prefix(#[trigger] chunk_comps(table, chunks[j2]), ck)
            &&& exists|j2: int|
                0 <= j2 < k && proper_prefix(ck, #[trigger] chunk_comps(table, chunks[j2]))
            &&& item_path@ == join_path(ck)
        },
    }
}

/// The chunk at `k` is the first that cannot be attached, and `e` is its error.
pub open spec fn first_failure(
    table: Map<u64, Seq<char>>,
    chunks: Seq<WadChunk>,
    k: int,
    e: WadTreeError,
) -> bool {
    &&& 0 <= k < chunks.len()
    &&& forall|j: int| 0 <= j < k ==> #[trigger] attachable(table, chunks, j)
    &&& fails_with(table, chunks, k, e)
}

/// Every chunk's path is attachable after the chunks before it.
pub open spec fn buildable(table: Map<u64, Seq<char>>, chunks: Seq<WadChunk>) -> bool {
    forall|j: int| 0 <= j < chunks.len() ==> #[trigger] attachable(table, chunks, j)
}

/// A file for `chunk` stands at the chunk's path.
pub open spec fn file_for_chunk(items: Seq<WadTreeItem>, table: Map<u64, Seq<char>>, chunk: WadChunk) -> bool {
    &&& file_at(items, chunk_comps(table, chunk)) is Some
    &&& file_at(items, chunk_comps(table, chunk))->0.chunk == chunk
    &&& file_at(items, chunk_comps(table, chunk))->0.path_hash == chunk.path_hash
}

/// Every chunk has a file at its path.
pub open spec fn files_for_chunks(items: Seq<WadTreeItem>, table: Map<u64, Seq<char>>, chunks: Seq<WadChunk>) -> bool {
    forall|j: int| 0 <= j < chunks.len() ==> #[trigger] file_for_chunk(items, table, chunks[j])
}

/// The tree of one archive.
pub struct WadTree {
    wad_id: u128,
    wad_path: String,
    items: Vec<WadTreeItem>,
    selected_items: Vec<WadTreeItemKey>,
}

impl WadTree {
    pub closed spec fn spec_wad_id(&self) -> u128 {
        self.wad_id
    }

    pub closed spec fn spec_wad_path(&self) -> Seq<char> {
        self.wad_path@
    }

    /// The top-level items.
    pub closed spec fn spec_items(&self) -> Seq<WadTreeItem> {
        self.items@
    }

    /// The selection, as the names of the selected keys.
    pub closed spec fn spec_selected(&self) -> Seq<Seq<char>> {
        self.selected_items@.map_values(|k: WadTreeItemKey| k@)
    }

    /// Every item is well formed under the root, whose path is empty.
    pub open spec fn wf(&self) -> bool {
        wf_items(self.spec_items(), Seq::<char>::empty())
    }

    /// Builds the tree of the archive whose chunks are `chunks`, in the archive's order.
    ///
    /// Each chunk's path is the hash table's entry for its hash, or else the hash in
    /// hexadecimal; a file for the chunk is attached at that path, with the folders on
    /// the way, and a file already at that path is replaced. The first chunk that cannot
    /// be attached ends the build with its error. At the end the children of every folder
    /// are put in order.
    ///
    /// Every item of the tree lies on some chunk's path, and every file stands at one.
    /// Where no path has an empty component and no chunk's path is another's or a
    /// beginning of it, the build succeeds and each chunk has its own file at its path.
    #[verifier::rlimit(60)]
    pub fn from_wad(
        chunks: &Vec<WadChunk>,
        wad_id: u128,
        wad_path: &str,
        hashtable: &WadHashtable,
    ) -> (r: Result<WadTree, WadTreeError>)
        ensures
            r is Ok ==> {
                let t = r->Ok_0;
                &&& t.wf()
                &&& items_sorted(t.spec_items())
                &&& t.spec_wad_id() == wad_id
                &&& t.spec_wad_path() == wad_path@
                &&& t.spec_selected().len() == 0
                &&& forall|j: int|
                    0 <= j < chunks@.len() ==> all_named(
                        #[trigger] chunk_comps(hashtable@, chunks@[j]),
                    )
                &&& forall|q: Seq<Seq<char>>|
                    (#[trigger] file_at(t.spec_items(), q)) is Some ==> exists|j: int|
                        0 <= j < chunks@.len() && q == #[trigger] chunk_comps(hashtable@, chunks@[j])
                &&& forall|j: int|
                    0 <= j < chunks@.len() ==> (#[trigger] file_at(
                        t.spec_items(),
                        chunk_comps(hashtable@, chunks@[j]),
                    )) is Some
                &&& forall|q: Seq<Seq<char>>|
                    (#[trigger] lookup(t.spec_items(), q)) is Some ==> exists|j: int|
                        0 <= j < chunks@.len() && is_prefix(q, #[trigger] chunk_comps(hashtable@, chunks@[j]))
            },
            r is Ok <==> buildable(hashtable@, chunks@),
            paths_compatible(hashtable@, chunks@) ==> r is Ok && files_for_chunks(
                r->Ok_0.spec_items(),
                hashtable@,
                chunks@,
            ),
            r is Err ==> exists|k: int| #[trigger] first_failure(hashtable@, chunks@, k, r->Err_0),
    {
        let ghost table = hashtable@;
        let ghost cs = chunks@;
        let mut items: Vec<WadTreeItem> = Vec::new();
        let mut i: usize = 0;
        while i < chunks.len()
            invariant
                i <= cs.len(),
                cs == chunks@,
                table == hashtable@,
                wf_items(items@, Seq::<char>::empty()),
                forall|j: int| 0 <= j < i ==> all_named(#[trigger] chunk_comps(table, cs[j])),
                forall|q: Seq<Seq<char>>|
                    (#[trigger] file_at(items@, q)) is Some ==> exists|j: int|
                        0 <= j < i && q == #[trigger] chunk_comps(table, cs[j]),
                forall|q: Seq<Seq<char>>|
                    (#[trigger] lookup(items@, q)) is Some ==> exists|j: int|
                        0 <= j < i && is_prefix(q, #[trigger] chunk_comps(table, cs[j])),
                paths_compatible(table, cs) ==> forall|j: int|
                    0 <= j < i ==> #[trigger] file_for_chunk(items@, table, cs[j]),
                forall|j: int| 0 <= j < i ==> #[trigger] attachable(table, cs, j),
                forall|j: int| 0 <= j < i ==> (#[trigger] file_at(items@, chunk_comps(table, cs[j]))) is Some,
            decreases cs.len() - i,
        {
            let chunk = &chunks[i];
            let path = Self::resolve_chunk_path(chunk.path_hash, hashtable);
            let comps = split_components(path.as_str());
            let ghost cv = comps_view(comps@);
            proof {
                crate::path::lemma_split_path_len(path@);
            }
            let ghost old_items = items@;
            let ghost ci = chunk_comps(table, cs[i as int]);
            proof {
                assert forall|m: int| 0 <= m < comps@.len() implies crate::path::no_sep(
                    #[trigger] comps@[m]@,
                ) by {
                    assert(cv[m] == comps@[m]@);
                    crate::path::lemma_split_path_no_sep(path@, m);
                }
                reveal_strlit("");
                assert(cv.skip(0) =~= ci);
                if paths_compatible(table, cs) {
                    if file_on_way(old_items, ci) {
                        let k = choose|k: int| 1 <= k < ci.len() && (#[trigger] file_at(old_items, ci.take(k))) is Some;
                        let j = choose|j: int| 0 <= j < i && ci.take(k) == #[trigger] chunk_comps(table, cs[j]);
                        assert(is_prefix(chunk_comps(table, cs[j]), ci));
                        assert(false);
                    }
                    if ends_at_folder(old_items, ci) {
                        let j = choose|j: int| 0 <= j < i && is_prefix(ci, #[trigger] chunk_comps(table, cs[j]));
                        assert(false);
                    }
                }
            }
            proof {
                if all_named(ci) && !attachable(table, cs, i as int) {
                    let j2 = choose|j2: int|
                        0 <= j2 < i && !(!proper_prefix(
                            #[trigger] chunk_comps(table, cs[j2]),
                            ci,
                        ) && !proper_prefix(ci, chunk_comps(table, cs[j2])));
                    let c2 = chunk_comps(table, cs[j2]);
                    assert(file_at(old_items, c2) is Some);
                    if proper_prefix(c2, ci) {
                        assert(file_at(old_items, ci.take(c2.len() as int)) is Some);
                        assert(file_on_way(old_items, ci));
                    } else {
                        lemma_lookup_prefix(old_items, c2, ci.len() as int);
                        assert(c2.take(ci.len() as int) == ci);
                        assert(ends_at_folder(old_items, ci));
                    }
                }
                if !file_on_way(old_items, ci) {
                    assert forall|j2: int| 0 <= j2 < i implies !proper_prefix(
                        #[trigger] chunk_comps(table, cs[j2]),
                        ci,
                    ) by {
                        let c2 = chunk_comps(table, cs[j2]);
                        if proper_prefix(c2, ci) {
                            assert(file_at(old_items, c2) is Some);
                            assert(file_at(old_items, ci.take(c2.len() as int)) is Some);
                        }
                    }
                }
                if ends_at_folder(old_items, ci) {
                    let j2 = choose|j2: int| 0 <= j2 < i && is_prefix(ci, #[trigger] chunk_comps(table, cs[j2]));
                    let c2 = chunk_comps(table, cs[j2]);
                    if ci.len() == c2.len() {
                        assert(c2.take(ci.len() as int) =~= c2);
                        assert(file_at(old_items, c2) is Some);
                        assert(false);
                    }
                    assert(proper_prefix(ci, c2));
                    lemma_lookup_path(old_items, Seq::<char>::empty(), ci);
                    lemma_extend_path(Seq::<char>::empty(), ci);
                }
                if file_on_way(old_items, ci) {
                    assert forall|k: int| 1 <= k < ci.len() && (#[trigger] file_at(old_items, ci.take(k))) is Some
                        implies exists|j2: int| 0 <= j2 < i && proper_prefix(#[trigger] chunk_comps(table, cs[j2]), ci)
                        && file_at(old_items, ci.take(k))->0.path@ == join_path(chunk_comps(table, cs[j2])) by {
                        let q = ci.take(k);
                        let j2 = choose|j2: int| 0 <= j2 < i && q == #[trigger] chunk_comps(table, cs[j2]);
                        lemma_lookup_path(old_items, Seq::<char>::empty(), q);
                        lemma_extend_path(Seq::<char>::empty(), q);
                        assert(proper_prefix(chunk_comps(table, cs[j2]), ci));
                    }
                }
            }
            match add_item_to_parent(&mut items, "", &comps, 0, chunk) {
                Ok(()) => {},
                Err(e) => {
                    proof {
                        assert(!attachable(table, cs, i as int));
                        assert(!buildable(table, cs));
                        if e is ItemCreationFailure {
                            lemma_folder_path_not_under_file(old_items, table, cs, i as int);
                        }
                        assert(first_failure(hashtable@, chunks@, i as int, e));
                    }
                    let r: Result<WadTree, WadTreeError> = Err(e);
                    proof {
                        assert(r->Err_0 == e);
                        assert(first_failure(hashtable@, chunks@, i as int, r->Err_0));
                    }
                    return r;
                },
            }
            proof {
                assert forall|q: Seq<Seq<char>>| (#[trigger] file_at(items@, q)) is Some implies exists|j: int|
                    0 <= j < i + 1 && q == #[trigger] chunk_comps(table, cs[j]) by {
                    if q == ci {
                        assert(q == chunk_comps(table, cs[i as int]));
                    } else {
                        assert(file_at(old_items, q) is Some);
                    }
                }
                assert forall|q: Seq<Seq<char>>| (#[trigger] lookup(items@, q)) is Some implies exists|j: int|
                    0 <= j < i + 1 && is_prefix(q, #[trigger] chunk_comps(table, cs[j])) by {
                    if is_prefix(q, ci) {
                        assert(is_prefix(q, chunk_comps(table, cs[i as int])));
                    } else {
                        assert(lookup(old_items, q) is Some);
                    }
                }
                assert(attachable(table, cs, i as int));
                assert forall|j: int| 0 <= j < i + 1 implies (#[trigger] file_at(items@, chunk_comps(table, cs[j]))) is Some by {
                    if j < i && chunk_comps(table, cs[j]) != ci {
                        assert(file_at(old_items, chunk_comps(table, cs[j])) is Some);
                    }
                }
                if paths_compatible(table, cs) {
                    assert forall|j: int| 0 <= j < i + 1 implies #[trigger] file_for_chunk(items@, table, cs[j]) by {
                        if j < i {
                            assert(file_for_chunk(old_items, table, cs[j]));
                            assert(!is_prefix(chunk_comps(table, cs[j]), ci));
                            assert(ci.take(ci.len() as int) =~= ci);
                        }
                    }
                }
            }
            i = i + 1;
        }
        let ghost unsorted = items@;
        let items = sort_items(items, Ghost(Seq::<char>::empty()));
        let tree = WadTree {
            wad_id,
            wad_path: wad_path.to_string(),
            items,
            selected_items: Vec::new(),
        };
        proof {
            assert(tree.spec_selected() =~= Seq::<Seq<char>>::empty());
            assert(buildable(table, cs));
            assert forall|q: Seq<Seq<char>>| (#[trigger] lookup(tree.spec_items(), q)) is Some implies exists|j: int|
                0 <= j < chunks@.len() && is_prefix(q, #[trigger] chunk_comps(hashtable@, chunks@[j])) by {
                assert(lookup(unsorted, q) is Some);
            }
            assert forall|j: int| 0 <= j < cs.len() implies (#[trigger] file_at(
                tree.spec_items(),
                chunk_comps(table, cs[j]),
            )) is Some by {
                assert(file_at(unsorted, chunk_comps(table, cs[j])) is Some);
            }
            assert forall|q: Seq<Seq<char>>| (#[trigger] file_at(tree.spec_items(), q)) is Some implies exists|j: int|
                0 <= j < chunks@.len() && q == #[trigger] chunk_comps(hashtable@, chunks@[j]) by {
                assert(file_at(unsorted, q) is Some);
            }
            if paths_compatible(table, cs) {
                assert forall|j: int| 0 <= j < cs.len() implies #[trigger] file_for_chunk(tree.spec_items(), table, cs[j]) by {
                    assert(file_for_chunk(unsorted, table, cs[j]));
                    assert(file_at(tree.spec_items(), chunk_comps(table, cs[j])) == file_at(unsorted, chunk_comps(table, cs[j])));
                }
            }
        }
        Ok(tree)
    }

    /// The path of the chunk whose hash is `path_hash`: the table's entry, or else the
    /// hash written in hexadecimal.
    pub fn resolve_chunk_path(path_hash: u64, hashtable: &WadHashtable) -> (r: String)
        ensures
            r@ == resolved_path(hashtable@, path_hash),
    {
        match hashtable.get(path_hash) {
            Some(path) => path.clone(),
            None => hex_literal(path_hash),
        }
    }

    pub fn wad_id(&self) -> (r: u128)
        ensures
            r == self.spec_wad_id(),
    {
        self.wad_id
    }

    pub fn wad_path(&self) -> (r: &str)
        ensures
            r@ == self.spec_wad_path(),
    {
        self.wad_path.as_str()
    }

    /// Replaces the selection with `selected_items`, in their order.
    pub fn set_selected_items(&mut self, selected_items: Vec<WadTreeItemKey>)
        ensures
            final(self).spec_selected() == selected_items@.map_values(|k: WadTreeItemKey| k@),
            final(self).spec_items() == old(self).spec_items(),
            final(self).spec_wad_id() == old(self).spec_wad_id(),
            final(self).spec_wad_path() == old(self).spec_wad_path(),
    {
        self.selected_items = selected_items;
    }

    /// The selection, in the order it was set.
    pub fn selected_items(&self) -> (r: &Vec<WadTreeItemKey>)
        ensures
            r@.map_values(|k: WadTreeItemKey| k@) == self.spec_selected(),
    {
        &self.selected_items
    }

    /// The root is the only item that reports itself as the root.
    pub fn is_root(&self) -> (r: bool)
        ensures
            r,
    {
        true
    }

    pub fn items(&self) -> (r: &Vec<WadTreeItem>)
        ensures
            r@ == self.spec_items(),
    {
        &self.items
    }

    /// Puts the children of every folder, and the top-level items, in order: folders
    /// before files, then lowercased names in lexicographic order. Items already in
    /// order keep it.
    pub fn sort_items(&mut self)
        ensures
            items_sorted(final(self).spec_items()),
            reordered_items(final(self).spec_items(), old(self).spec_items()),
            old(self).wf() ==> final(self).wf() && same_reach(
                final(self).spec_items(),
                old(self).spec_items(),
            ),
            items_sorted(old(self).spec_items()) ==> same_order_items(
                final(self).spec_items(),
                old(self).spec_items(),
            ),
            final(self).spec_wad_id() == old(self).spec_wad_id(),
            final(self).spec_wad_path() == old(self).spec_wad_path(),
            final(self).spec_selected() == old(self).spec_selected(),
    {
        let mut items: Vec<WadTreeItem> = Vec::new();
        std::mem::swap(&mut items, &mut self.items);
        self.items = sort_items(items, Ghost(Seq::<char>::empty()));
    }

    /// The top-level items, for the caller to change; the rest of the tree stays as it was.
    pub fn items_mut(&mut self) -> (r: &mut Vec<WadTreeItem>)
        ensures
            r@ == old(self).spec_items(),
            final(self).spec_items() == final(r)@,
            final(self).spec_wad_id() == old(self).spec_wad_id(),
            final(self).spec_wad_path() == old(self).spec_wad_path(),
            final(self).spec_selected() == old(self).spec_selected(),
    {
        &mut self.items
    }

    /// Every item of the tree, depth first, each folder before its children.
    pub fn traverse_items(&self) -> (r: Vec<&WadTreeItem>)
        ensures
            r@.len() == preorder(self.spec_items()).len(),
            forall|j: int|
                0 <= j < r@.len() ==> *r@[j] == #[trigger] preorder(self.spec_items())[j],
    {
        let mut out: Vec<&WadTreeItem> = Vec::new();
        traverse_parent_items(&self.items, &mut out);
        proof {
            assert forall|j: int| 0 <= j < out@.len() implies *out@[j] == #[trigger] preorder(
                self.spec_items(),
            )[j] by {
                assert(*out@[0 + j] == preorder(self.items@)[j]);
            }
        }
        out
    }

    /// The first item of the tree, depth first and each folder before its children, on
    /// which `condition` holds.
    pub fn find_item<F: Fn(&WadTreeItem) -> bool>(&self, condition: F) -> (r: Option<&WadTreeItem>)
        requires
            forall|x: &WadTreeItem| #[trigger] condition.requires((x,)),
        ensures
            match r {
                Some(x) => exists|i: int|
                    0 <= i < preorder(self.spec_items()).len() && #[trigger] preorder(
                        self.spec_items(),
                    )[i] == *x && condition.ensures((x,), true) && forall|j: int|
                        0 <= j < i ==> condition.ensures((&preorder(self.spec_items())[j],), false),
                None => forall|j: int|
                    0 <= j < preorder(self.spec_items()).len() ==> condition.ensures(
                        (&#[trigger] preorder(self.spec_items())[j],),
                        false,
                    ),
            },
    {
        let r = find_parent_item(&self.items, &condition);
        proof {
            if r is Some {
                let x = r->0;
                let i = choose|i: int|
                    0 <= i < preorder(self.items@).len() && #[trigger] preorder(self.items@)[i] == *x
                        && condition.ensures((x,), true) && forall|j: int|
                        0 <= j < i ==> condition.ensures((&preorder(self.items@)[j],), false);
                assert(preorder(self.spec_items())[i] == *x);
            }
        }
        r
    }

    /// The root's identity: the nil identity.
    pub fn id(&self) -> (r: u128)
        ensures
            r == 0,
    {
        0
    }

    /// The root's name: empty.
    pub fn name(&self) -> (r: &str)
        ensures
            r@.len() == 0,
    {
        proof {
            reveal_strlit("");
        }
        ""
    }

    /// The root's path: empty.
    pub fn path(&self) -> (r: &str)
        ensures
            r@.len() == 0,
    {
        proof {
            reveal_strlit("");
        }
        ""
    }

    pub fn name_hash(&self) -> (r: u64)
        ensures
            r == 0,
    {
        0
    }

    pub fn path_hash(&self) -> (r: u64)
        ensures
            r == 0,
    {
        0
    }
}

/// Following the parts of an item's path, split on `/`, from the root of a well-formed
/// tree reaches that same item, for every item of the tree and in particular every file.
pub proof fn lemma_path_round_trip(tree: WadTree, comps: Seq<Seq<char>>)
    requires
        tree.wf(),
        lookup(tree.spec_items(), comps) is Some,
    ensures
        lookup(tree.spec_items(), split_path(lookup(tree.spec_items(), comps)->0.spec_path()))
            == lookup(tree.spec_items(), comps),
{
    lemma_lookup_path(tree.spec_items(), Seq::<char>::empty(), comps);
    lemma_extend_path(Seq::<char>::empty(), comps);
    lemma_split_join(comps);
}

/// A hash that the table does not know resolves to one component, its hexadecimal
/// literal, which is non-empty: its file stands at the top level under that name.
pub proof fn lemma_hash_fallback(table: Map<u64, Seq<char>>, chunk: WadChunk)
    requires
        !table.contains_key(chunk.path_hash),
    ensures
        chunk_comps(table, chunk) == seq![hex_literal_of(chunk.path_hash)],
        all_named(chunk_comps(table, chunk)),
{
    lemma_hex_digits_no_sep(chunk.path_hash as nat);
    let h = hex_literal_of(chunk.path_hash);
    let d = hex_digits(chunk.path_hash as nat);
    assert(no_sep(h)) by {
        assert forall|i: int| 0 <= i < h.len() implies !is_sep(#[trigger] h[i]) by {
            if i >= 2 {
                assert(h[i] == d[i - 2]);
            }
        }
    }
    lemma_split_path_no_sep_whole(h);
}

/// Where every earlier chunk has a file at its path and a folder stands at the path of
/// the chunk at `i`, no earlier chunk's path is a shorter beginning of that path.
proof fn lemma_folder_path_not_under_file(
    items: Seq<WadTreeItem>,
    table: Map<u64, Seq<char>>,
    cs: Seq<WadChunk>,
    i: int,
)
    requires
        0 <= i < cs.len(),
        forall|j: int| 0 <= j < i ==> (#[trigger] file_at(items, chunk_comps(table, cs[j]))) is Some,
        ends_at_folder(items, chunk_comps(table, cs[i])),
    ensures
        forall|j2: int|
            0 <= j2 < i ==> !proper_prefix(#[trigger] chunk_comps(table, cs[j2]), chunk_comps(table, cs[i])),
{
    let ci = chunk_comps(table, cs[i]);
    assert forall|j2: int| 0 <= j2 < i implies !proper_prefix(
        #[trigger] chunk_comps(table, cs[j2]),
        ci,
    ) by {
        let c2 = chunk_comps(table, cs[j2]);
        if proper_prefix(c2, ci) {
            assert(file_at(items, c2) is Some);
            lemma_lookup_prefix(items, ci, c2.len() as int);
            assert(ci.take(c2.len() as int) == c2);
        }
    }
}

/// In a well-formed tree, the file at a chunk's path has as its path the chunk's resolved
/// path itself, and is named by that path's last component. With `from_wad`, which puts a
/// file at every chunk's path, each chunk's file carries the chunk's path and name.
pub proof fn lemma_chunk_file(tree: WadTree, table: Map<u64, Seq<char>>, chunk: WadChunk)
    requires
        tree.wf(),
        file_at(tree.spec_items(), chunk_comps(table, chunk)) is Some,
    ensures
        file_at(tree.spec_items(), chunk_comps(table, chunk))->0.path@ == resolved_path(
            table,
            chunk.path_hash,
        ),
        file_at(tree.spec_items(), chunk_comps(table, chunk))->0.name@ == chunk_comps(
            table,
            chunk,
        ).last(),
{
    let q = chunk_comps(table, chunk);
    lemma_lookup_path(tree.spec_items(), Seq::<char>::empty(), q);
    lemma_extend_path(Seq::<char>::empty(), q);
    lemma_join_split(resolved_path(table, chunk.path_hash));
    lemma_lookup_name(tree.spec_items(), q);
}

} // verus!
