//! The two kinds of tree item, folder and file, and what makes a list of them
//! well formed.

use vstd::prelude::*;

use crate::outside::{lower_of, xxh64_of};
use crate::path::{child_path, extend_path, no_sep};

verus! {

/// One entry of the archive, as the container layer decoded it.
#[derive(Clone, Copy, Debug, PartialEq, Eq, Structural)]
pub struct WadChunk {
    /// The 64-bit hash of the entry's logical path.
    pub path_hash: u64,
    pub data_offset: u64,
    pub compressed_size: u64,
    pub uncompressed_size: u64,
}

/// The key of an item among its siblings: its name.
#[derive(Debug)]
pub struct WadTreeItemKey {
    pub name: String,
}

impl View for WadTreeItemKey {
    type V = Seq<char>;

    open spec fn view(&self) -> Seq<char> {
        self.name@
    }
}

impl WadTreeItemKey {
    pub fn new(name: &str) -> (r: WadTreeItemKey)
        ensures
            r@ == name@,
    {
        WadTreeItemKey { name: name.to_string() }
    }
}

/// A folder: a named item with an ordered list of children whose names differ.
///
/// The children are a `Vec` keyed by name rather than an outside ordered map: a folder's
/// children hold folders, and Verus refuses a type that recurses through the type
/// parameter of an outside type.
#[derive(Debug)]
pub struct WadTreeFolder {
    pub id: u128,
    pub name: String,
    pub path: String,
    pub name_hash: u64,
    pub path_hash: u64,
    pub items: Vec<WadTreeItem>,
}

/// A file: a named leaf that refers to one chunk of the archive.
#[derive(Debug)]
pub struct WadTreeFile {
    pub id: u128,
    pub name: String,
    pub path: String,
    pub name_hash: u64,
    pub path_hash: u64,
    pub chunk: WadChunk,
}

#[derive(Debug)]
pub enum WadTreeItem {
    Folder(WadTreeFolder),
    File(WadTreeFile),
}

impl WadTreeItem {
    pub open spec fn spec_name(&self) -> Seq<char> {
        match self {
            WadTreeItem::Folder(f) => f.name@,
            WadTreeItem::File(f) => f.name@,
        }
    }

    pub open spec fn spec_path(&self) -> Seq<char> {
        match self {
            WadTreeItem::Folder(f) => f.path@,
            WadTreeItem::File(f) => f.path@,
        }
    }

    pub open spec fn spec_id(&self) -> u128 {
        match self {
            WadTreeItem::Folder(f) => f.id,
            WadTreeItem::File(f) => f.id,
        }
    }

    pub open spec fn spec_name_hash(&self) -> u64 {
        match self {
            WadTreeItem::Folder(f) => f.name_hash,
            WadTreeItem::File(f) => f.name_hash,
        }
    }

    pub open spec fn spec_path_hash(&self) -> u64 {
        match self {
            WadTreeItem::Folder(f) => f.path_hash,
            WadTreeItem::File(f) => f.path_hash,
        }
    }

    /// The item's process-unique identity.
    pub fn id(&self) -> (r: u128)
        ensures
            r == self.spec_id(),
    {
        match self {
            WadTreeItem::Folder(f) => f.id,
            WadTreeItem::File(f) => f.id,
        }
    }

    pub fn name(&self) -> (r: &str)
        ensures
            r@ == self.spec_name(),
    {
        match self {
            WadTreeItem::Folder(f) => f.name.as_str(),
            WadTreeItem::File(f) => f.name.as_str(),
        }
    }

    /// The names from the root down to this item, joined with `/`.
    pub fn path(&self) -> (r: &str)
        ensures
            r@ == self.spec_path(),
    {
        match self {
            WadTreeItem::Folder(f) => f.path.as_str(),
            WadTreeItem::File(f) => f.path.as_str(),
        }
    }

    pub fn name_hash(&self) -> (r: u64)
        ensures
            r == self.spec_name_hash(),
    {
        match self {
            WadTreeItem::Folder(f) => f.name_hash,
            WadTreeItem::File(f) => f.name_hash,
        }
    }

    pub fn path_hash(&self) -> (r: u64)
        ensures
            r == self.spec_path_hash(),
    {
        match self {
            WadTreeItem::Folder(f) => f.path_hash,
            WadTreeItem::File(f) => f.path_hash,
        }
    }

    pub fn is_folder(&self) -> (r: bool)
        ensures
            r == self is Folder,
    {
        match self {
            WadTreeItem::Folder(_) => true,
            WadTreeItem::File(_) => false,
        }
    }

    /// The key under which the item stands among its siblings.
    pub fn key(&self) -> (r: WadTreeItemKey)
        ensures
            r@ == self.spec_name(),
    {
        WadTreeItemKey::new(self.name())
    }
}

/// No two items of `items` share a name.
pub open spec fn names_distinct(items: Seq<WadTreeItem>) -> bool {
    forall|i: int, j: int|
        0 <= i < items.len() && 0 <= j < items.len() && i != j ==> #[trigger] items[i].spec_name()
            != #[trigger] items[j].spec_name()
}

/// `item` is well formed as a child of a parent whose path is `parent`: its name is a
/// non-empty string without `/`, its identity is not the root's nil identity, its path extends the parent's by its name, its name hash
/// is the archive hash of its lowercased name, and, for a folder, its path hash is the
/// archive hash of its lowercased path and its children have distinct names and are
/// well formed under it.
pub open spec fn wf_item(item: WadTreeItem, parent: Seq<char>) -> bool
    decreases item,
{
    &&& item.spec_name().len() > 0
    &&& no_sep(item.spec_name())
    &&& item.spec_id() != 0
    &&& item.spec_path() == child_path(parent, item.spec_name())
    &&& item.spec_name_hash() == xxh64_of(lower_of(item.spec_name()))
    &&& match item {
        WadTreeItem::Folder(f) => {
            &&& f.path_hash == xxh64_of(lower_of(f.path@))
            &&& names_distinct(f.items@)
            &&& forall|i: int|
                0 <= i < f.items@.len() ==> wf_item(#[trigger] f.items@[i], f.path@)
        },
        WadTreeItem::File(_) => true,
    }
}

/// The items are well formed as the children of a parent whose path is `parent`.
pub open spec fn wf_items(items: Seq<WadTreeItem>, parent: Seq<char>) -> bool {
    &&& names_distinct(items)
    &&& forall|i: int| 0 <= i < items.len() ==> wf_item(#[trigger] items[i], parent)
}

/// Some item of `items` is called `name`.
pub open spec fn has_name(items: Seq<WadTreeItem>, name: Seq<char>) -> bool {
    exists|i: int| 0 <= i < items.len() && #[trigger] items[i].spec_name() == name
}

/// The position of the item called `name` (meaningful where `has_name` holds).
pub open spec fn index_of(items: Seq<WadTreeItem>, name: Seq<char>) -> int {
    choose|i: int| 0 <= i < items.len() && #[trigger] items[i].spec_name() == name
}

/// The item reached from `items` by following the names in `comps`, one level each.
pub open spec fn lookup(items: Seq<WadTreeItem>, comps: Seq<Seq<char>>) -> Option<WadTreeItem>
    decreases comps.len(),
{
    if comps.len() == 0 || !has_name(items, comps[0]) {
        None
    } else {
        let item = items[index_of(items, comps[0])];
        if comps.len() == 1 {
            Some(item)
        } else {
            match item {
                WadTreeItem::Folder(f) => lookup(f.items@, comps.drop_first()),
                WadTreeItem::File(_) => None,
            }
        }
    }
}

/// Following `rest` from `items` meets a file before its last component.
pub open spec fn file_on_way(items: Seq<WadTreeItem>, rest: Seq<Seq<char>>) -> bool {
    exists|k: int| 1 <= k < rest.len() && (#[trigger] file_at(items, rest.take(k))) is Some
}

/// The file reached from `items` by following `comps`, if it is a file.
pub open spec fn file_at(items: Seq<WadTreeItem>, comps: Seq<Seq<char>>) -> Option<WadTreeFile> {
    match lookup(items, comps) {
        Some(WadTreeItem::File(f)) => Some(f),
        _ => None,
    }
}

/// Following `rest` from `items` ends at a folder.
pub open spec fn ends_at_folder(items: Seq<WadTreeItem>, rest: Seq<Seq<char>>) -> bool {
    lookup(items, rest) is Some && lookup(items, rest)->0 is Folder
}

pub proof fn lemma_index_of(items: Seq<WadTreeItem>, i: int)
    requires
        names_distinct(items),
        0 <= i < items.len(),
    ensures
        has_name(items, items[i].spec_name()),
        index_of(items, items[i].spec_name()) == i,
{
    assert(has_name(items, items[i].spec_name()));
}

/// An item reached by following `comps` has non-empty names without `/` on the way, and
/// its path is the parent's path extended by them.
pub proof fn lemma_lookup_path(items: Seq<WadTreeItem>, parent: Seq<char>, comps: Seq<Seq<char>>)
    requires
        wf_items(items, parent),
        lookup(items, comps) is Some,
    ensures
        comps.len() >= 1,
        forall|k: int| 0 <= k < comps.len() ==> (#[trigger] comps[k]).len() > 0 && no_sep(comps[k]),
        lookup(items, comps)->0.spec_path() == extend_path(parent, comps),
    decreases comps.len(),
{
    let i = index_of(items, comps[0]);
    let item = items[i];
    assert(wf_item(item, parent));
    let rest = comps.drop_first();
    assert(extend_path(parent, comps) == extend_path(child_path(parent, comps[0]), rest));
    if comps.len() == 1 {
        assert(extend_path(child_path(parent, comps[0]), rest) == child_path(parent, comps[0]));
    } else {
        let f = item->Folder_0;
        assert(wf_items(f.items@, f.path@));
        lemma_lookup_path(f.items@, f.path@, rest);
        assert forall|k: int| 0 <= k < comps.len() implies (#[trigger] comps[k]).len() > 0 && no_sep(
            comps[k],
        ) by {
            if k > 0 {
                assert(comps[k] == rest[k - 1]);
            }
        }
    }
}

/// `q` is `rest` or a beginning of it.
pub open spec fn is_prefix(q: Seq<Seq<char>>, rest: Seq<Seq<char>>) -> bool {
    q.len() <= rest.len() && rest.take(q.len() as int) == q
}

/// `s2` holds the same item as `s` under every name but `n`.
pub open spec fn same_but(s: Seq<WadTreeItem>, s2: Seq<WadTreeItem>, n: Seq<char>) -> bool {
    forall|m: Seq<char>|
        m != n ==> (#[trigger] has_name(s2, m) == has_name(s, m)) && (has_name(s, m) ==> s2[index_of(
            s2,
            m,
        )] == s[index_of(s, m)])
}

/// Paths that start with another name than `n` reach the same items in `s` and `s2`.
pub proof fn lemma_lookup_same_but(s: Seq<WadTreeItem>, s2: Seq<WadTreeItem>, n: Seq<char>)
    requires
        same_but(s, s2, n),
    ensures
        forall|q: Seq<Seq<char>>|
            q.len() >= 1 && q[0] != n ==> #[trigger] lookup(s2, q) == lookup(s, q),
{
    assert forall|q: Seq<Seq<char>>| q.len() >= 1 && q[0] != n implies #[trigger] lookup(s2, q)
        == lookup(s, q) by {
        assert(has_name(s2, q[0]) == has_name(s, q[0]));
    }
}

/// Replacing the item at `i` by one of the same name keeps every other name's item.
pub proof fn lemma_same_but_update(s: Seq<WadTreeItem>, i: int, x: WadTreeItem)
    requires
        names_distinct(s),
        0 <= i < s.len(),
        x.spec_name() == s[i].spec_name(),
    ensures
        names_distinct(s.update(i, x)),
        same_but(s, s.update(i, x), x.spec_name()),
{
    let s2 = s.update(i, x);
    assert(names_distinct(s2)) by {
        assert forall|a: int, b: int|
            0 <= a < s2.len() && 0 <= b < s2.len() && a != b implies #[trigger] s2[a].spec_name()
            != #[trigger] s2[b].spec_name() by {
            assert(s2[a].spec_name() == s[a].spec_name());
            assert(s2[b].spec_name() == s[b].spec_name());
        }
    }
    assert forall|m: Seq<char>| m != x.spec_name() implies (#[trigger] has_name(s2, m) == has_name(
        s,
        m,
    )) && (has_name(s, m) ==> s2[index_of(s2, m)] == s[index_of(s, m)]) by {
        if has_name(s, m) {
            let j = index_of(s, m);
            assert(s2[j] == s[j]);
            lemma_index_of(s2, j);
        }
        if has_name(s2, m) {
            let j = index_of(s2, m);
            assert(s2[j] == s[j]);
        }
    }
}

/// Adding an item under a new name keeps every other name's item.
pub proof fn lemma_same_but_push(s: Seq<WadTreeItem>, x: WadTreeItem)
    requires
        names_distinct(s),
        !has_name(s, x.spec_name()),
    ensures
        names_distinct(s.push(x)),
        same_but(s, s.push(x), x.spec_name()),
        has_name(s.push(x), x.spec_name()),
        index_of(s.push(x), x.spec_name()) == s.len(),
{
    let s2 = s.push(x);
    assert(names_distinct(s2)) by {
        assert forall|a: int, b: int|
            0 <= a < s2.len() && 0 <= b < s2.len() && a != b implies #[trigger] s2[a].spec_name()
            != #[trigger] s2[b].spec_name() by {
            if a < s.len() && b < s.len() {
                assert(s2[a] == s[a] && s2[b] == s[b]);
            } else if a < s.len() {
                assert(s2[a] == s[a]);
            } else {
                assert(s2[b] == s[b]);
            }
        }
    }
    lemma_index_of(s2, s.len() as int);
    assert forall|m: Seq<char>| m != x.spec_name() implies (#[trigger] has_name(s2, m) == has_name(
        s,
        m,
    )) && (has_name(s, m) ==> s2[index_of(s2, m)] == s[index_of(s, m)]) by {
        if has_name(s, m) {
            let j = index_of(s, m);
            assert(s2[j] == s[j]);
            lemma_index_of(s2, j);
        }
        if has_name(s2, m) {
            let j = index_of(s2, m);
            assert(j < s.len());
            assert(s2[j] == s[j]);
        }
    }
}

/// Two paths that start with the same name compare as their remainders do.
pub proof fn lemma_same_first(q: Seq<Seq<char>>, rest: Seq<Seq<char>>)
    requires
        q.len() >= 1,
        rest.len() >= 1,
        q[0] == rest[0],
    ensures
        (q == rest) == (q.drop_first() == rest.drop_first()),
        is_prefix(q, rest) == is_prefix(q.drop_first(), rest.drop_first()),
{
    if q.drop_first() == rest.drop_first() {
        assert forall|k: int| 0 <= k < q.len() implies q[k] == rest[k] by {
            if k > 0 {
                assert(q[k] == q.drop_first()[k - 1]);
                assert(rest[k] == rest.drop_first()[k - 1]);
            }
        }
        assert(q =~= rest);
    }
    if q.len() <= rest.len() {
        if rest.take(q.len() as int) == q {
            assert(rest.drop_first().take(q.len() - 1) =~= q.drop_first());
        }
        if rest.drop_first().take(q.len() - 1) == q.drop_first() {
            assert forall|k: int| 0 <= k < q.len() implies rest.take(q.len() as int)[k] == q[k] by {
                if k > 0 {
                    assert(q[k] == q.drop_first()[k - 1]);
                    assert(rest[k] == rest.drop_first().take(q.len() - 1)[k - 1]);
                }
            }
            assert(rest.take(q.len() as int) =~= q);
        }
    }
}

/// Every beginning of a path that reaches an item reaches a folder.
pub proof fn lemma_lookup_prefix(items: Seq<WadTreeItem>, p: Seq<Seq<char>>, k: int)
    requires
        lookup(items, p) is Some,
        1 <= k < p.len(),
    ensures
        lookup(items, p.take(k)) is Some,
        lookup(items, p.take(k))->0 is Folder,
    decreases p.len(),
{
    let q = p.take(k);
    assert(q[0] == p[0]);
    let item = items[index_of(items, p[0])];
    if k > 1 {
        let f = item->Folder_0;
        lemma_lookup_prefix(f.items@, p.drop_first(), k - 1);
        assert(q.drop_first() =~= p.drop_first().take(k - 1));
    }
}

/// `y` is `x` kept: the same name, path and name hash, and the same kind, and the same
/// identity unless `x` is the file at the path `p`, which a new file replaced; a kept
/// folder also keeps its path hash, and its children stay at their places, kept in the
/// same way, possibly followed by new ones.
pub open spec fn kept_item(x: WadTreeItem, y: WadTreeItem, p: Seq<char>) -> bool
    decreases x,
{
    &&& y.spec_name() == x.spec_name()
    &&& y.spec_path() == x.spec_path()
    &&& y.spec_name_hash() == x.spec_name_hash()
    &&& (x is Folder) == (y is Folder)
    &&& (x is Folder || x.spec_path() != p) ==> y.spec_id() == x.spec_id()
    &&& match x {
        WadTreeItem::Folder(f) => {
            &&& y.spec_path_hash() == f.path_hash
            &&& f.items@.len() <= y->Folder_0.items@.len()
            &&& forall|i: int|
                0 <= i < f.items@.len() ==> kept_item(
                    #[trigger] f.items@[i],
                    y->Folder_0.items@[i],
                    p,
                )
        },
        WadTreeItem::File(_) => true,
    }
}

/// The items of `a` stay at their places in `b`, each kept, possibly followed by new ones;
/// only a file at the path `p` may have been replaced by a new one.
pub open spec fn kept(a: Seq<WadTreeItem>, b: Seq<WadTreeItem>, p: Seq<char>) -> bool {
    &&& a.len() <= b.len()
    &&& forall|i: int| 0 <= i < a.len() ==> kept_item(#[trigger] a[i], b[i], p)
}

pub proof fn lemma_kept_item_refl(x: WadTreeItem, p: Seq<char>)
    ensures
        kept_item(x, x, p),
    decreases x,
{
    if let WadTreeItem::Folder(f) = x {
        assert forall|i: int| 0 <= i < f.items@.len() implies kept_item(
            #[trigger] f.items@[i],
            f.items@[i],
            p,
        ) by {
            lemma_kept_item_refl(f.items@[i], p);
        }
    }
}

/// Changing the item at `i` to a kept one, or adding items at the end, keeps the list.
pub proof fn lemma_kept_update(s: Seq<WadTreeItem>, i: int, x: WadTreeItem, p: Seq<char>)
    requires
        0 <= i < s.len(),
        kept_item(s[i], x, p),
    ensures
        kept(s, s.update(i, x), p),
{
    assert forall|j: int| 0 <= j < s.len() implies kept_item(#[trigger] s[j], s.update(i, x)[j], p) by {
        if j != i {
            lemma_kept_item_refl(s[j], p);
        }
    }
}

pub proof fn lemma_kept_push(s: Seq<WadTreeItem>, x: WadTreeItem, p: Seq<char>)
    ensures
        kept(s, s.push(x), p),
{
    assert forall|j: int| 0 <= j < s.len() implies kept_item(#[trigger] s[j], s.push(x)[j], p) by {
        lemma_kept_item_refl(s[j], p);
    }
}

/// A path that ends at a folder passes through folders only, and its names are non-empty.
pub proof fn lemma_folder_end(items: Seq<WadTreeItem>, parent: Seq<char>, rest: Seq<Seq<char>>)
    requires
        wf_items(items, parent),
        ends_at_folder(items, rest),
    ensures
        !file_on_way(items, rest),
        forall|m: int| 0 <= m < rest.len() ==> (#[trigger] rest[m]).len() > 0,
{
    lemma_lookup_path(items, parent, rest);
    assert forall|k: int| 1 <= k < rest.len() implies (#[trigger] file_at(items, rest.take(k))) is None by {
        lemma_lookup_prefix(items, rest, k);
    }
}

/// Changing `old` into `new` touched only what lies on the path `rest`: every other path
/// reaches the same file as before, new items stand only on `rest`, and whatever was
/// reached before still is.
pub open spec fn changed_only_under(
    old: Seq<WadTreeItem>,
    new: Seq<WadTreeItem>,
    rest: Seq<Seq<char>>,
) -> bool {
    &&& forall|q: Seq<Seq<char>>| q != rest ==> #[trigger] file_at(new, q) == file_at(old, q)
    &&& forall|q: Seq<Seq<char>>|
        (#[trigger] lookup(new, q)) is Some ==> lookup(old, q) is Some || is_prefix(q, rest)
    &&& forall|q: Seq<Seq<char>>| (#[trigger] lookup(old, q)) is Some ==> lookup(new, q) is Some
}

/// What `changed_only_under` asks, for one path `q`.
pub open spec fn first_step_ok(
    old: Seq<WadTreeItem>,
    new: Seq<WadTreeItem>,
    rest: Seq<Seq<char>>,
    q: Seq<Seq<char>>,
) -> bool {
    &&& q != rest ==> file_at(new, q) == file_at(old, q)
    &&& lookup(new, q) is Some ==> lookup(old, q) is Some || is_prefix(q, rest)
    &&& lookup(old, q) is Some ==> lookup(new, q) is Some
}

/// Where `new` holds the same item as `old` under every name but the first of `rest`,
/// and the paths that start with that name change only as `changed_only_under` allows,
/// all paths do.
pub proof fn lemma_frame(old: Seq<WadTreeItem>, new: Seq<WadTreeItem>, rest: Seq<Seq<char>>)
    requires
        rest.len() >= 1,
        same_but(old, new, rest[0]),
        forall|q: Seq<Seq<char>>|
            q.len() >= 1 && q[0] == rest[0] ==> #[trigger] first_step_ok(old, new, rest, q),
    ensures
        changed_only_under(old, new, rest),
{
    lemma_lookup_same_but(old, new, rest[0]);
    assert forall|q: Seq<Seq<char>>| #[trigger] first_step_ok(old, new, rest, q) by {
        if q.len() >= 1 && q[0] == rest[0] {
        } else if q.len() >= 1 {
            assert(lookup(new, q) == lookup(old, q));
        }
    }
    assert forall|q: Seq<Seq<char>>| q != rest implies #[trigger] file_at(new, q) == file_at(old, q) by {
        assert(first_step_ok(old, new, rest, q));
    }
    assert forall|q: Seq<Seq<char>>| (#[trigger] lookup(new, q)) is Some implies lookup(old, q) is Some
        || is_prefix(q, rest) by {
        assert(first_step_ok(old, new, rest, q));
    }
    assert forall|q: Seq<Seq<char>>| (#[trigger] lookup(old, q)) is Some implies lookup(new, q) is Some by {
        assert(first_step_ok(old, new, rest, q));
    }
}

/// An item reached by following `comps` is named by the last of them.
pub proof fn lemma_lookup_name(items: Seq<WadTreeItem>, comps: Seq<Seq<char>>)
    requires
        lookup(items, comps) is Some,
    ensures
        lookup(items, comps)->0.spec_name() == comps.last(),
    decreases comps.len(),
{
    if comps.len() > 1 {
        let item = items[index_of(items, comps[0])];
        lemma_lookup_name(item->Folder_0.items@, comps.drop_first());
    }
}

} // verus!
