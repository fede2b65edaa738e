//! Building, ordering and walking lists of tree items.

use vstd::prelude::*;

use crate::error::WadTreeError;
use crate::item::{
    changed_only_under, first_step_ok, lemma_frame,
    ends_at_folder, file_at, file_on_way, has_name, is_prefix, lemma_index_of,
    kept, lemma_folder_end, lemma_kept_push, lemma_kept_update, lemma_same_but_push, lemma_same_but_update, lemma_same_first, lookup,
    names_distinct,
    wf_item, wf_items, WadChunk, WadTreeFile, WadTreeFolder, WadTreeItem,
};
use crate::outside::{fresh_id, lower_of, lowercase, xxh64_of, xxh64_str};
use crate::tree::all_named;
use crate::path::{comps_view, make_child_path, no_sep, str_equal};

verus! {

broadcast use vstd::std_specs::vec::group_vec_axioms;

/// The items and all their descendants, depth first, each folder before its children.
pub open spec fn preorder(items: Seq<WadTreeItem>) -> Seq<WadTreeItem>
    decreases items,
{
    if items.len() == 0 {
        Seq::<WadTreeItem>::empty()
    } else {
        let below = match items[0] {
            WadTreeItem::Folder(f) => preorder(f.items@),
            WadTreeItem::File(_) => Seq::<WadTreeItem>::empty(),
        };
        seq![items[0]] + below + preorder(items.subrange(1, items.len() as int))
    }
}

/// The first of `items` and their descendants, depth first and each folder before its
/// children, on which `condition` holds.
pub fn find_parent_item<'a, F: Fn(&WadTreeItem) -> bool>(
    items: &'a Vec<WadTreeItem>,
    condition: &F,
) -> (r: Option<&'a WadTreeItem>)
    requires
        forall|x: &WadTreeItem| #[trigger] condition.requires((x,)),
    ensures
        match r {
            Some(x) => exists|i: int|
                0 <= i < preorder(items@).len() && #[trigger] preorder(items@)[i] == *x
                    && condition.ensures((x,), true) && forall|j: int|
                    0 <= j < i ==> condition.ensures((&preorder(items@)[j],), false),
            None => forall|j: int|
                0 <= j < preorder(items@).len() ==> condition.ensures(
                    (&#[trigger] preorder(items@)[j],),
                    false,
                ),
        },
    decreases items@,
{
    let ghost mut done: Seq<WadTreeItem> = Seq::empty();
    let mut i: usize = 0;
    assert(items@.skip(0) =~= items@);
    while i < items.len()
        invariant
            i <= items@.len(),
            forall|x: &WadTreeItem| #[trigger] condition.requires((x,)),
            preorder(items@) == done + preorder(items@.skip(i as int)),
            forall|j: int| 0 <= j < done.len() ==> condition.ensures((&#[trigger] done[j],), false),
        decreases items@.len() - i,
    {
        let item = &items[i];
        let ghost rest = items@.skip(i as int);
        proof {
            assert(rest.subrange(1, rest.len() as int) =~= items@.skip(i + 1));
            assert(rest[0] == *item);
        }
        if condition(item) {
            proof {
                assert(preorder(items@)[done.len() as int] == *item);
            }
            return Some(item);
        }
        let ghost below = if *item is Folder {
            preorder(item->Folder_0.items@)
        } else {
            Seq::<WadTreeItem>::empty()
        };
        match item {
            WadTreeItem::Folder(f) => {
                proof {
                    assert(decreases_to!(items@ => f.items@));
                }
                let found = find_parent_item(&f.items, condition);
                match found {
                    Some(x) => {
                        proof {
                            let i2 = choose|i2: int|
                                0 <= i2 < below.len() && #[trigger] below[i2] == *x
                                    && condition.ensures((x,), true) && forall|j: int|
                                    0 <= j < i2 ==> condition.ensures((&below[j],), false);
                            let whole = preorder(items@);
                            let at = done.len() + 1 + i2;
                            assert(whole[at] == *x);
                            assert forall|j: int| 0 <= j < at implies condition.ensures(
                                (&whole[j],),
                                false,
                            ) by {
                                if j < done.len() {
                                    assert(whole[j] == done[j]);
                                } else if j == done.len() {
                                    assert(whole[j] == *item);
                                } else {
                                    assert(whole[j] == below[j - done.len() - 1]);
                                }
                            }
                        }
                        return Some(x);
                    },
                    None => {},
                }
            },
            WadTreeItem::File(_) => {},
        }
        proof {
            let d2 = done + seq![*item] + below;
            assert forall|j: int| 0 <= j < d2.len() implies condition.ensures((&#[trigger] d2[j],), false) by {
                if j < done.len() {
                    assert(d2[j] == done[j]);
                } else if j > done.len() {
                    assert(d2[j] == below[j - done.len() - 1]);
                }
            }
            assert(d2 + preorder(items@.skip(i + 1)) =~= done + preorder(rest));
            done = d2;
        }
        i = i + 1;
    }
    proof {
        assert(items@.skip(i as int) =~= Seq::<WadTreeItem>::empty());
        assert(done + Seq::<WadTreeItem>::empty() =~= done);
    }
    None
}

/// Appends `items` and all their descendants to `out`, depth first, each folder before
/// its children.
pub fn traverse_parent_items<'a>(items: &'a Vec<WadTreeItem>, out: &mut Vec<&'a WadTreeItem>)
    ensures
        final(out)@.len() == old(out)@.len() + preorder(items@).len(),
        forall|j: int| 0 <= j < old(out)@.len() ==> #[trigger] final(out)@[j] == old(out)@[j],
        forall|j: int|
            0 <= j < preorder(items@).len() ==> *final(out)@[old(out)@.len() + j] == #[trigger] preorder(
                items@,
            )[j],
    decreases items@,
{
    let ghost start = out@;
    let mut i: usize = 0;
    assert(items@.skip(0) =~= items@);
    while i < items.len()
        invariant
            i <= items@.len(),
            start.len() <= out@.len(),
            forall|j: int| 0 <= j < start.len() ==> #[trigger] out@[j] == start[j],
            preorder(items@).len() == (out@.len() - start.len()) + preorder(items@.skip(i as int)).len(),
            forall|j: int|
                0 <= j < out@.len() - start.len() ==> *out@[start.len() + j] == #[trigger] preorder(
                    items@,
                )[j],
            preorder(items@) =~= preorder(items@).take(out@.len() - start.len()) + preorder(items@.skip(i as int)),
        decreases items@.len() - i,
    {
        let item = &items[i];
        let ghost rest = items@.skip(i as int);
        let ghost before = out@;
        let ghost below = if *item is Folder {
            preorder(item->Folder_0.items@)
        } else {
            Seq::<WadTreeItem>::empty()
        };
        proof {
            assert(rest.subrange(1, rest.len() as int) =~= items@.skip(i + 1));
            assert(rest[0] == *item);
            assert(preorder(rest) == seq![*item] + below + preorder(items@.skip(i + 1)));
        }
        out.push(item);
        match item {
            WadTreeItem::Folder(f) => {
                proof {
                    assert(decreases_to!(items@ => f.items@));
                }
                traverse_parent_items(&f.items, out);
            },
            WadTreeItem::File(_) => {},
        }
        proof {
            let n = before.len() - start.len();
            let whole = preorder(items@);
            assert forall|j: int| 0 <= j < out@.len() - start.len() implies *out@[start.len() + j]
                == #[trigger] preorder(items@)[j] by {
                if j < n {
                    assert(out@[start.len() + j] == before[start.len() + j]);
                } else if j == n {
                    assert(whole[j] == *item);
                } else {
                    assert(whole[j] == below[j - n - 1]);
                }
            }
            assert(whole =~= whole.take(out@.len() - start.len()) + preorder(items@.skip(i + 1)));
        }
        i = i + 1;
    }
}

/// The archive hash of the lowercased string.
pub fn archive_hash(s: &str) -> (r: u64)
    ensures
        r == xxh64_of(lower_of(s@)),
{
    let lower = lowercase(s);
    xxh64_str(lower.as_str())
}

/// The position of the item called `name`, if there is one.
pub fn find_child(items: &Vec<WadTreeItem>, name: &str) -> (r: Option<usize>)
    ensures
        match r {
            Some(i) => i < items@.len() && items@[i as int].spec_name() == name@,
            None => !has_name(items@, name@),
        },
{
    let mut i: usize = 0;
    while i < items.len()
        invariant
            i <= items@.len(),
            forall|j: int| 0 <= j < i ==> #[trigger] items@[j].spec_name() != name@,
        decreases items@.len() - i,
    {
        if str_equal(items[i].name(), name) {
            return Some(i);
        }
        i = i + 1;
    }
    None
}

/// A new, empty folder called `name` under a parent whose path is `parent`.
fn new_folder(name: &str, parent: &str) -> (r: WadTreeFolder)
    requires
        name@.len() > 0,
        no_sep(name@),
    ensures
        r.items@.len() == 0,
        wf_item(WadTreeItem::Folder(r), parent@),
        r.name@ == name@,
{
    let path = make_child_path(parent, name);
    let name_hash = archive_hash(name);
    let path_hash = archive_hash(path.as_str());
    WadTreeFolder {
        id: fresh_id(),
        name: name.to_string(),
        path,
        name_hash,
        path_hash,
        items: Vec::new(),
    }
}

/// A new file with identity `id`, called `name`, for `chunk`, under a parent whose path is `parent`.
fn new_file(id: u128, name: &str, parent: &str, chunk: &WadChunk) -> (r: WadTreeFile)
    requires
        id != 0,
        name@.len() > 0,
        no_sep(name@),
    ensures
        r.id == id,
        wf_item(WadTreeItem::File(r), parent@),
        r.name@ == name@,
        r.chunk == *chunk,
        r.path_hash == chunk.path_hash,
{
    let path = make_child_path(parent, name);
    let name_hash = archive_hash(name);
    WadTreeFile {
        id,
        name: name.to_string(),
        path,
        name_hash,
        path_hash: chunk.path_hash,
        chunk: *chunk,
    }
}

/// Following `rest` from `items` through the folder that its first component names is
/// following the remaining components from that folder's children.
pub proof fn lemma_lookup_through_folder(items: Seq<WadTreeItem>, rest: Seq<Seq<char>>, i: int)
    requires
        names_distinct(items),
        0 <= i < items.len(),
        rest.len() >= 1,
        items[i].spec_name() == rest[0],
        items[i] is Folder,
    ensures
        rest.len() >= 2 ==> lookup(items, rest) == lookup(items[i]->Folder_0.items@, rest.drop_first()),
        forall|k: int|
            2 <= k <= rest.len() ==> #[trigger] lookup(items, rest.take(k)) == lookup(
                items[i]->Folder_0.items@,
                rest.drop_first().take(k - 1),
            ),
        file_on_way(items, rest) == file_on_way(items[i]->Folder_0.items@, rest.drop_first()),
        ends_at_folder(items, rest) == (rest.len() == 1 || ends_at_folder(
            items[i]->Folder_0.items@,
            rest.drop_first(),
        )),
{
    lemma_index_of(items, i);
    let sub = items[i]->Folder_0.items@;
    let tail = rest.drop_first();
    assert forall|k: int| 2 <= k <= rest.len() implies lookup(items, rest.take(k)) == lookup(
        sub,
        tail.take(k - 1),
    ) by {
        assert(rest.take(k)[0] == rest[0]);
        assert(rest.take(k).drop_first() =~= tail.take(k - 1));
    }
    assert(rest.take(1)[0] == rest[0]);
    assert(lookup(items, rest.take(1)) == Some(items[i]));
    if file_on_way(items, rest) {
        let k = choose|k: int| 1 <= k < rest.len() && (#[trigger] file_at(items, rest.take(k))) is Some;
        assert(rest.take(1)[0] == rest[0]);
        assert(file_at(sub, tail.take(k - 1)) is Some);
    }
    if file_on_way(sub, tail) {
        let k = choose|k: int| 1 <= k < tail.len() && (#[trigger] file_at(sub, tail.take(k))) is Some;
        assert(file_at(items, rest.take(k + 1)) is Some);
    }
    if rest.len() >= 2 {
        assert(rest.take(rest.len() as int) =~= rest);
        assert(tail.take(tail.len() as int) =~= tail);
    }
}

/// Following `rest` from items that hold no item called `rest[0]` reaches nothing.
pub proof fn lemma_lookup_absent(items: Seq<WadTreeItem>, rest: Seq<Seq<char>>)
    requires
        rest.len() >= 1,
        !has_name(items, rest[0]),
    ensures
        !file_on_way(items, rest),
        !ends_at_folder(items, rest),
{
    assert forall|k: int| 1 <= k < rest.len() implies file_at(items, rest.take(k)) is None by {
        assert(rest.take(k)[0] == rest[0]);
    }
}

/// Attaches a file for `chunk` at the path `comps[depth..]` below `items`, whose parent has
/// the path `parent`, and makes the folders on the way that do not exist yet.
///
/// The components must be non-empty. It fails where a file stands on the way
/// (`ExistingFile`, with that file's path) or a folder stands at the place of the new
/// file (`ItemCreationFailure`, with the folder's path). A file that already stands at
/// that place is replaced by a new one; new items go at the end, and the items already
/// there stay at their places.
fn attach_file(
    items: &mut Vec<WadTreeItem>,
    parent: &str,
    comps: &Vec<String>,
    depth: usize,
    chunk: &WadChunk,
) -> (r: Result<(), WadTreeError>)
    requires
        wf_items(old(items)@, parent@),
        depth < comps@.len(),
        forall|k: int|
            depth <= k < comps@.len() ==> (#[trigger] comps@[k])@.len() > 0 && no_sep(
                comps@[k]@,
            ),
    ensures
        ({
            let rest = comps_view(comps@).skip(depth as int);
            &&& r is Ok <==> !file_on_way(old(items)@, rest) && !ends_at_folder(old(items)@, rest)
            &&& r is Ok ==> wf_items(final(items)@, parent@)
            &&& r is Ok ==> kept(old(items)@, final(items)@, file_at(final(items)@, rest)->0.path@)
            &&& r is Ok ==> changed_only_under(old(items)@, final(items)@, rest)
            &&& r is Ok ==> file_at(final(items)@, rest) is Some && file_at(final(items)@, rest)->0.chunk
                == *chunk && file_at(final(items)@, rest)->0.path_hash == chunk.path_hash
            &&& r matches Err(WadTreeError::ExistingFile { file_path }) ==> exists|k: int|
                1 <= k < rest.len() && (#[trigger] file_at(old(items)@, rest.take(k))) is Some
                    && file_at(old(items)@, rest.take(k))->0.path@ == file_path@
            &&& r matches Err(WadTreeError::ItemCreationFailure { item_path }) ==> ends_at_folder(
                old(items)@,
                rest,
            ) && item_path@ == lookup(old(items)@, rest)->0.spec_path()
            &&& !(r is Err && r->Err_0 is InvalidItemName)
        }),
    decreases comps@.len() - depth,
{
    let ghost old_items = items@;
    let ghost rest = comps_view(comps@).skip(depth as int);
    let name = comps[depth].as_str();
    proof {
        assert(rest[0] == name@);
        assert(rest.drop_first() =~= comps_view(comps@).skip(depth + 1));
    }
    let found = find_child(items, name);
    if depth == comps.len() - 1 {
        match found {
            Some(i) => {
                proof {
                    lemma_index_of(old_items, i as int);
                }
                if items[i].is_folder() {
                    let item_path = items[i].path().to_string();
                    return Err(WadTreeError::ItemCreationFailure { item_path });
                }
                let id = fresh_id();
                let file = new_file(id, name, parent, chunk);
                let _replaced = items.remove(i);
                items.insert(i, WadTreeItem::File(file));
                proof {
                    assert(items@ =~= old_items.update(i as int, WadTreeItem::File(file)));
                    lemma_index_of(items@, i as int);
                    lemma_same_but_update(old_items, i as int, WadTreeItem::File(file));
                    lemma_kept_update(old_items, i as int, WadTreeItem::File(file), file.path@);
                    assert forall|q: Seq<Seq<char>>| q.len() >= 1 && q[0] == name@ implies #[trigger] first_step_ok(
                        old_items,
                        items@,
                        rest,
                        q,
                    ) by {
                        lemma_same_first(q, rest);
                        if q.len() == 1 {
                            assert(q =~= rest);
                            assert(rest.take(1) =~= rest);
                        } else {
                            assert(lookup(items@, q) is None);
                        }
                    }
                    lemma_frame(old_items, items@, rest);
                }
            },
            None => {
                let id = fresh_id();
                let file = new_file(id, name, parent, chunk);
                items.push(WadTreeItem::File(file));
                proof {
                    lemma_index_of(items@, old_items.len() as int);
                    lemma_same_but_push(old_items, WadTreeItem::File(file));
                    lemma_kept_push(old_items, WadTreeItem::File(file), file.path@);
                    assert forall|q: Seq<Seq<char>>| q.len() >= 1 && q[0] == name@ implies #[trigger] first_step_ok(
                        old_items,
                        items@,
                        rest,
                        q,
                    ) by {
                        lemma_same_first(q, rest);
                        if q.len() == 1 {
                            assert(q =~= rest);
                            assert(rest.take(1) =~= rest);
                        } else {
                            assert(lookup(items@, q) is None);
                        }
                    }
                    lemma_frame(old_items, items@, rest);
                }
            },
        }
        Ok(())
    } else {
        match found {
            Some(i) => {
                proof {
                    lemma_index_of(old_items, i as int);
                }
                if !items[i].is_folder() {
                    let file_path = items[i].path().to_string();
                    proof {
                        assert(rest.take(1)[0] == rest[0]);
                        assert(lookup(old_items, rest.take(1)) == Some(old_items[i as int]));
                        assert(file_at(old_items, rest.take(1)) is Some);
                    }
                    return Err(WadTreeError::ExistingFile { file_path });
                }
                proof {
                    lemma_lookup_through_folder(old_items, rest, i as int);
                }
                let child = items.remove(i);
                match child {
                    WadTreeItem::Folder(f) => {
                        let mut f = f;
                        let r = attach_file(&mut f.items, f.path.as_str(), comps, depth + 1, chunk);
                        items.insert(i, WadTreeItem::Folder(f));
                        proof {
                            let sub = old_items[i as int]->Folder_0.items@;
                            let tail = rest.drop_first();
                            if r is Err && r->Err_0 is ExistingFile {
                                let k = choose|k: int|
                                    1 <= k < tail.len() && (#[trigger] file_at(sub, tail.take(k))) is Some
                                        && file_at(sub, tail.take(k))->0.path@ == r->Err_0->file_path@;
                                assert(file_at(old_items, rest.take(k + 1)) == file_at(sub, tail.take(k)));
                            }
                            assert(items@ =~= old_items.update(i as int, WadTreeItem::Folder(f)));
                            if r is Ok {
                                assert(names_distinct(items@));
                                assert forall|j: int| 0 <= j < items@.len() implies wf_item(
                                    #[trigger] items@[j],
                                    parent@,
                                ) by {
                                    if j == i {
                                        assert(wf_item(old_items[j], parent@));
                                    }
                                }
                                lemma_lookup_through_folder(items@, rest, i as int);
                                lemma_index_of(items@, i as int);
                                lemma_same_but_update(old_items, i as int, WadTreeItem::Folder(f));
                                lemma_kept_update(old_items, i as int, WadTreeItem::Folder(f), file_at(items@, rest)->0.path@);
                                assert forall|q: Seq<Seq<char>>| q.len() >= 1 && q[0] == name@ implies #[trigger] first_step_ok(
                                    old_items,
                                    items@,
                                    rest,
                                    q,
                                ) by {
                                    lemma_same_first(q, rest);
                                    if q.len() >= 2 {
                                        assert(lookup(sub, q.drop_first()) is Some ==> lookup(f.items@, q.drop_first()) is Some);
                                        assert(file_at(f.items@, q.drop_first()) == file_at(sub, q.drop_first())
                                            || q.drop_first() == tail);
                                        assert(lookup(f.items@, q.drop_first()) is Some ==> lookup(sub, q.drop_first()) is Some
                                            || is_prefix(q.drop_first(), tail));
                                    }
                                }
                                lemma_frame(old_items, items@, rest);
                            }
                        }
                        r
                    },
                    WadTreeItem::File(f) => {
                        let file_path = f.path.clone();
                        items.insert(i, WadTreeItem::File(f));
                        Err(WadTreeError::ExistingFile { file_path })
                    },
                }
            },
            None => {
                proof {
                    lemma_lookup_absent(old_items, rest);
                }
                let mut f = new_folder(name, parent);
                let ghost before_items = f.items@;
                proof {
                    lemma_lookup_absent(f.items@, rest.drop_first());
                }
                let r = attach_file(&mut f.items, f.path.as_str(), comps, depth + 1, chunk);
                let ghost g = f;
                items.push(WadTreeItem::Folder(f));
                proof {
                    lemma_index_of(items@, old_items.len() as int);
                    lemma_lookup_through_folder(items@, rest, old_items.len() as int);
                    lemma_same_but_push(old_items, WadTreeItem::Folder(g));
                    lemma_kept_push(old_items, WadTreeItem::Folder(g), file_at(items@, rest)->0.path@);
                    let tail = rest.drop_first();
                    assert forall|q: Seq<Seq<char>>| q.len() >= 1 && q[0] == name@ implies #[trigger] first_step_ok(
                        old_items,
                        items@,
                        rest,
                        q,
                    ) by {
                        lemma_same_first(q, rest);
                        if q.len() >= 2 {
                            assert(file_at(g.items@, q.drop_first()) == file_at(before_items, q.drop_first())
                                || q.drop_first() == tail);
                            assert(lookup(before_items, q.drop_first()) is None);
                            assert(lookup(g.items@, q.drop_first()) is Some ==> is_prefix(q.drop_first(), tail));
                        } else {
                            assert(rest.take(1) =~= q);
                        }
                    }
                    lemma_frame(old_items, items@, rest);
                }
                r
            },
        }
    }
}

impl WadTreeFolder {
    /// A folder is never the root.
    pub fn is_root(&self) -> (r: bool)
        ensures
            !r,
    {
        false
    }

    /// The folder's children.
    pub fn items(&self) -> (r: &Vec<WadTreeItem>)
        ensures
            r@ == self.items@,
    {
        &self.items
    }

    /// Every descendant of the folder, depth first, each folder before its children.
    pub fn traverse_items(&self) -> (r: Vec<&WadTreeItem>)
        ensures
            r@.len() == preorder(self.items@).len(),
            forall|j: int| 0 <= j < r@.len() ==> *r@[j] == #[trigger] preorder(self.items@)[j],
    {
        let mut out: Vec<&WadTreeItem> = Vec::new();
        traverse_parent_items(&self.items, &mut out);
        proof {
            assert forall|j: int| 0 <= j < out@.len() implies *out@[j] == #[trigger] preorder(
                self.items@,
            )[j] by {
                assert(*out@[0 + j] == preorder(self.items@)[j]);
            }
        }
        out
    }

    /// The first descendant of the folder, depth first and each folder before its
    /// children, on which `condition` holds.
    pub fn find_item<F: Fn(&WadTreeItem) -> bool>(&self, condition: F) -> (r: Option<&WadTreeItem>)
        requires
            forall|x: &WadTreeItem| #[trigger] condition.requires((x,)),
        ensures
            match r {
                Some(x) => exists|i: int|
                    0 <= i < preorder(self.items@).len() && #[trigger] preorder(self.items@)[i] == *x
                        && condition.ensures((x,), true) && forall|j: int|
                        0 <= j < i ==> condition.ensures((&preorder(self.items@)[j],), false),
                None => forall|j: int|
                    0 <= j < preorder(self.items@).len() ==> condition.ensures(
                        (&#[trigger] preorder(self.items@)[j],),
                        false,
                    ),
            },
    {
        find_parent_item(&self.items, &condition)
    }
}

/// Says, without changing anything, whether a file for the path `comps[depth..]` can be
/// attached below `items`, whose parent has the path `parent`, and if not, which error
/// attaching it gives.
fn check_attach(items: &Vec<WadTreeItem>, parent: &str, comps: &Vec<String>, depth: usize) -> (r:
    Result<(), WadTreeError>)
    requires
        wf_items(items@, parent@),
        depth < comps@.len(),
    ensures
        ({
            let rest = comps_view(comps@).skip(depth as int);
            &&& r is Ok <==> !file_on_way(items@, rest) && !ends_at_folder(items@, rest)
            &&& r matches Err(WadTreeError::ExistingFile { file_path }) ==> exists|k: int|
                1 <= k < rest.len() && (#[trigger] file_at(items@, rest.take(k))) is Some
                    && file_at(items@, rest.take(k))->0.path@ == file_path@
            &&& r matches Err(WadTreeError::ItemCreationFailure { item_path }) ==> ends_at_folder(
                items@,
                rest,
            ) && item_path@ == lookup(items@, rest)->0.spec_path()
            &&& !(r is Err && r->Err_0 is InvalidItemName)
        }),
    decreases comps@.len() - depth,
{
    let ghost rest = comps_view(comps@).skip(depth as int);
    let name = comps[depth].as_str();
    proof {
        assert(rest[0] == name@);
        assert(rest.drop_first() =~= comps_view(comps@).skip(depth + 1));
    }
    match find_child(items, name) {
        None => {
            proof {
                lemma_lookup_absent(items@, rest);
            }
            Ok(())
        },
        Some(i) => {
            proof {
                lemma_index_of(items@, i as int);
            }
            if depth == comps.len() - 1 {
                if items[i].is_folder() {
                    let item_path = items[i].path().to_string();
                    return Err(WadTreeError::ItemCreationFailure { item_path });
                }
                Ok(())
            } else {
                match &items[i] {
                    WadTreeItem::File(f) => {
                        let file_path = f.path.clone();
                        proof {
                            assert(rest.take(1)[0] == rest[0]);
                            assert(lookup(items@, rest.take(1)) == Some(items@[i as int]));
                            assert(file_at(items@, rest.take(1)) is Some);
                        }
                        Err(WadTreeError::ExistingFile { file_path })
                    },
                    WadTreeItem::Folder(f) => {
                        proof {
                            lemma_lookup_through_folder(items@, rest, i as int);
                        }
                        let r = check_attach(&f.items, f.path.as_str(), comps, depth + 1);
                        proof {
                            let tail = rest.drop_first();
                            if r is Err && r->Err_0 is ExistingFile {
                                let k = choose|k: int|
                                    1 <= k < tail.len() && (#[trigger] file_at(f.items@, tail.take(k))) is Some
                                        && file_at(f.items@, tail.take(k))->0.path@ == r->Err_0->file_path@;
                                assert(file_at(items@, rest.take(k + 1)) == file_at(f.items@, tail.take(k)));
                            }
                        }
                        r
                    },
                }
            }
        },
    }
}

/// Attaches a file for `chunk` at the path `comps[depth..]` below `items`, whose parent has
/// the path `parent`, and makes the folders on the way that do not exist yet; new items go
/// at the end of their parent's children, and the items already there stay at their
/// places, each with its identity. A file that already stands at that place is replaced
/// by a new one, with a new identity.
///
/// It fails, leaving `items` as they were, as a walk down the components meets the
/// trouble: where a file stands on the way (`ExistingFile`, with that file's path), else
/// where a component is empty (`InvalidItemName`, with the chunk's hash), else where a
/// folder stands at the place of the new file (`ItemCreationFailure`, with the folder's
/// path). A path through a file holds only non-empty names up to that file, so the file
/// is always met before an empty component.
pub fn add_item_to_parent(
    items: &mut Vec<WadTreeItem>,
    parent: &str,
    comps: &Vec<String>,
    depth: usize,
    chunk: &WadChunk,
) -> (r: Result<(), WadTreeError>)
    requires
        wf_items(old(items)@, parent@),
        depth < comps@.len(),
        forall|k: int| depth <= k < comps@.len() ==> no_sep(#[trigger] comps@[k]@),
    ensures
        ({
            let rest = comps_view(comps@).skip(depth as int);
            &&& r is Ok <==> all_named(rest) && !file_on_way(old(items)@, rest) && !ends_at_folder(
                old(items)@,
                rest,
            )
            &&& (r is Err && r->Err_0 is ExistingFile) <==> file_on_way(old(items)@, rest)
            &&& (r is Err && r->Err_0 is InvalidItemName) <==> !file_on_way(old(items)@, rest)
                && !all_named(rest)
            &&& (r is Err && r->Err_0 is ItemCreationFailure) <==> !file_on_way(old(items)@, rest)
                && all_named(rest) && ends_at_folder(old(items)@, rest)
            &&& r matches Err(WadTreeError::InvalidItemName { chunk_path }) ==> chunk_path
                == chunk.path_hash
            &&& r is Err ==> final(items)@ == old(items)@
            &&& r is Ok ==> wf_items(final(items)@, parent@)
            &&& r is Ok ==> kept(old(items)@, final(items)@, file_at(final(items)@, rest)->0.path@)
            &&& r is Ok ==> changed_only_under(old(items)@, final(items)@, rest)
            &&& r is Ok ==> file_at(final(items)@, rest) is Some && file_at(final(items)@, rest)->0.chunk
                == *chunk && file_at(final(items)@, rest)->0.path_hash == chunk.path_hash
            &&& r matches Err(WadTreeError::ExistingFile { file_path }) ==> exists|k: int|
                1 <= k < rest.len() && (#[trigger] file_at(old(items)@, rest.take(k))) is Some
                    && file_at(old(items)@, rest.take(k))->0.path@ == file_path@
            &&& r matches Err(WadTreeError::ItemCreationFailure { item_path }) ==> ends_at_folder(
                old(items)@,
                rest,
            ) && item_path@ == lookup(old(items)@, rest)->0.spec_path()
        }),
{
    let ghost rest = comps_view(comps@).skip(depth as int);
    proof {
        if ends_at_folder(items@, rest) {
            lemma_folder_end(items@, parent@, rest);
        }
    }
    match check_attach(items, parent, comps, depth) {
        Err(e) => {
            return Err(e);
        },
        Ok(()) => {},
    }
    let mut k: usize = depth;
    while k < comps.len()
        invariant
            depth <= k <= comps@.len(),
            rest == comps_view(comps@).skip(depth as int),
            !file_on_way(items@, rest),
            !ends_at_folder(items@, rest),
            forall|m: int| depth <= m < k ==> (#[trigger] comps@[m])@.len() > 0,
        decreases comps@.len() - k,
    {
        if comps[k].as_str().unicode_len() == 0 {
            proof {
                assert(rest[k - depth] == comps@[k as int]@);
            }
            return Err(WadTreeError::InvalidItemName { chunk_path: chunk.path_hash });
        }
        k = k + 1;
    }
    proof {
        assert forall|m: int| 0 <= m < rest.len() implies (#[trigger] rest[m]).len() > 0 by {
            assert(rest[m] == comps@[depth + m]@);
        }
    }
    attach_file(items, parent, comps, depth, chunk)
}

} // verus!
