//! The order of siblings: folders before files, then names compared without regard
//! to case.

use vstd::prelude::*;

use crate::item::{
    file_at, has_name, index_of, lemma_index_of, lookup, names_distinct, wf_item, wf_items,
    WadTreeFolder, WadTreeItem,
};
use crate::outside::{lower_of, lowercase};

verus! {

broadcast use vstd::std_specs::vec::group_vec_axioms;

/// `a` comes no later than `b` in the lexicographic order of character codes.
pub open spec fn lex_le(a: Seq<char>, b: Seq<char>) -> bool
    decreases a.len(),
{
    if a.len() == 0 {
        true
    } else if b.len() == 0 {
        false
    } else if (a[0] as u32) < (b[0] as u32) {
        true
    } else if (a[0] as u32) > (b[0] as u32) {
        false
    } else {
        lex_le(a.drop_first(), b.drop_first())
    }
}

pub proof fn lemma_lex_le_total(a: Seq<char>, b: Seq<char>)
    ensures
        lex_le(a, b) || lex_le(b, a),
    decreases a.len(),
{
    if a.len() > 0 && b.len() > 0 && a[0] as u32 == b[0] as u32 {
        lemma_lex_le_total(a.drop_first(), b.drop_first());
    }
}

pub proof fn lemma_lex_le_transitive(a: Seq<char>, b: Seq<char>, c: Seq<char>)
    requires
        lex_le(a, b),
        lex_le(b, c),
    ensures
        lex_le(a, c),
    decreases a.len(),
{
    if a.len() > 0 && b.len() > 0 && c.len() > 0 && a[0] as u32 == b[0] as u32 && b[0] as u32
        == c[0] as u32 {
        lemma_lex_le_transitive(a.drop_first(), b.drop_first(), c.drop_first());
    }
}

/// `a` may stand before `b` among siblings: a folder before a file, and within one kind
/// the lowercased names in lexicographic order.
pub open spec fn item_le(a: WadTreeItem, b: WadTreeItem) -> bool {
    if (a is Folder) != (b is Folder) {
        a is Folder
    } else {
        lex_le(lower_of(a.spec_name()), lower_of(b.spec_name()))
    }
}

pub proof fn lemma_item_le_total(a: WadTreeItem, b: WadTreeItem)
    ensures
        item_le(a, b) || item_le(b, a),
{
    lemma_lex_le_total(lower_of(a.spec_name()), lower_of(b.spec_name()));
}

pub proof fn lemma_item_le_transitive(a: WadTreeItem, b: WadTreeItem, c: WadTreeItem)
    requires
        item_le(a, b),
        item_le(b, c),
    ensures
        item_le(a, c),
{
    if (a is Folder) == (b is Folder) && (b is Folder) == (c is Folder) {
        lemma_lex_le_transitive(
            lower_of(a.spec_name()),
            lower_of(b.spec_name()),
            lower_of(c.spec_name()),
        );
    }
}

/// The siblings stand in order.
pub open spec fn sorted_level(items: Seq<WadTreeItem>) -> bool {
    forall|i: int, j: int| 0 <= i < j < items.len() ==> item_le(#[trigger] items[i], #[trigger] items[j])
}

/// The item's descendants stand in order at every level.
pub open spec fn tree_sorted(item: WadTreeItem) -> bool
    decreases item,
{
    match item {
        WadTreeItem::Folder(f) => {
            &&& sorted_level(f.items@)
            &&& forall|i: int| 0 <= i < f.items@.len() ==> tree_sorted(#[trigger] f.items@[i])
        },
        WadTreeItem::File(_) => true,
    }
}

/// The items and all their descendants stand in order at every level.
pub open spec fn items_sorted(items: Seq<WadTreeItem>) -> bool {
    &&& sorted_level(items)
    &&& forall|i: int| 0 <= i < items.len() ==> tree_sorted(#[trigger] items[i])
}

/// `a` and `b` have the same name and kind, and, for folders, their children have the
/// same names in the same order at every level.
pub open spec fn same_order(a: WadTreeItem, b: WadTreeItem) -> bool
    decreases a,
{
    &&& a.spec_name() == b.spec_name()
    &&& (a is Folder) == (b is Folder)
    &&& match a {
        WadTreeItem::Folder(f) => {
            &&& f.items@.len() == b->Folder_0.items@.len()
            &&& forall|i: int|
                0 <= i < f.items@.len() ==> same_order(
                    #[trigger] f.items@[i],
                    b->Folder_0.items@[i],
                )
        },
        WadTreeItem::File(_) => true,
    }
}

/// The two lists have the same names in the same order at every level.
pub open spec fn same_order_items(a: Seq<WadTreeItem>, b: Seq<WadTreeItem>) -> bool {
    &&& a.len() == b.len()
    &&& forall|i: int| 0 <= i < a.len() ==> same_order(#[trigger] a[i], b[i])
}

/// `a` and `b` agree in everything but the order of a folder's children.
pub open spec fn same_header(a: WadTreeItem, b: WadTreeItem) -> bool {
    &&& a.spec_name() == b.spec_name()
    &&& a.spec_path() == b.spec_path()
    &&& a.spec_id() == b.spec_id()
    &&& a.spec_name_hash() == b.spec_name_hash()
    &&& a.spec_path_hash() == b.spec_path_hash()
    &&& (a is Folder) == (b is Folder)
    &&& (a is File ==> a == b)
}

/// Where `x` is a folder, its children reach the same files, and items at the same
/// paths, as the children of `y`.
pub open spec fn same_files(x: WadTreeItem, y: WadTreeItem) -> bool {
    x is Folder ==> same_reach(x->Folder_0.items@, y->Folder_0.items@)
}

/// Every path reaches the same file from `a` as from `b`, and an item from `a` exactly
/// where it does from `b`.
pub open spec fn same_reach(a: Seq<WadTreeItem>, b: Seq<WadTreeItem>) -> bool {
    forall|q: Seq<Seq<char>>|
        #![trigger file_at(a, q)]
        #![trigger lookup(a, q)]
        file_at(a, q) == file_at(b, q) && (lookup(a, q) is Some) == (lookup(b, q) is Some)
}

/// `perm` maps each of `n` places to a distinct one of `n` places.
pub open spec fn is_perm(perm: Seq<int>, n: int) -> bool {
    &&& perm.len() == n
    &&& forall|i: int| 0 <= i < n ==> 0 <= #[trigger] perm[i] < n
    &&& forall|i: int, j: int| 0 <= i < j < n ==> #[trigger] perm[i] != #[trigger] perm[j]
}

/// `x` is `y` with the children of every folder, at every level, possibly put in another
/// order, and nothing else changed.
pub open spec fn reordered_item(x: WadTreeItem, y: WadTreeItem) -> bool
    decreases x,
{
    &&& same_header(x, y)
    &&& match x {
        WadTreeItem::Folder(f) => {
            &&& f.items@.len() == y->Folder_0.items@.len()
            &&& exists|perm: Seq<int>|
                #[trigger] is_perm(perm, f.items@.len() as int) && forall|i: int|
                    0 <= i < f.items@.len() ==> reordered_item(
                        #[trigger] f.items@[i],
                        y->Folder_0.items@[perm[i]],
                    )
        },
        WadTreeItem::File(_) => true,
    }
}

/// `a` is `b` put in another order, each item reordered in the same way.
pub open spec fn reordered_items(a: Seq<WadTreeItem>, b: Seq<WadTreeItem>) -> bool {
    &&& a.len() == b.len()
    &&& exists|perm: Seq<int>|
        #[trigger] is_perm(perm, a.len() as int) && forall|i: int|
            0 <= i < a.len() ==> reordered_item(#[trigger] a[i], b[perm[i]])
}

/// Compares two strings in the lexicographic order of character codes.
pub fn lex_le_exec(a: &str, b: &str) -> (r: bool)
    ensures
        r == lex_le(a@, b@),
{
    let n = a.unicode_len();
    let m = b.unicode_len();
    let mut i: usize = 0;
    assert(a@.skip(0) =~= a@);
    assert(b@.skip(0) =~= b@);
    while i < n && i < m
        invariant
            n == a@.len(),
            m == b@.len(),
            i <= n,
            i <= m,
            lex_le(a@, b@) == lex_le(a@.skip(i as int), b@.skip(i as int)),
        decreases n - i,
    {
        let ca = a.get_char(i) as u32;
        let cb = b.get_char(i) as u32;
        if ca < cb {
            return true;
        }
        if ca > cb {
            return false;
        }
        assert(a@.skip(i as int).drop_first() =~= a@.skip(i + 1));
        assert(b@.skip(i as int).drop_first() =~= b@.skip(i + 1));
        i = i + 1;
    }
    i == n
}

/// Whether `a` may stand before `b` among siblings.
pub fn item_le_exec(a: &WadTreeItem, b: &WadTreeItem) -> (r: bool)
    ensures
        r == item_le(*a, *b),
{
    let fa = a.is_folder();
    let fb = b.is_folder();
    if fa != fb {
        return fa;
    }
    let la = lowercase(a.name());
    let lb = lowercase(b.name());
    lex_le_exec(la.as_str(), lb.as_str())
}

/// Inserts `x` into `sorted` after every item that may stand before it, and returns
/// where it went.
fn insert_sorted(sorted: &mut Vec<WadTreeItem>, x: WadTreeItem) -> (p: usize)
    requires
        sorted_level(old(sorted)@),
    ensures
        p <= old(sorted)@.len(),
        final(sorted)@ == old(sorted)@.insert(p as int, x),
        sorted_level(final(sorted)@),
        old(sorted)@.len() > 0 && item_le(old(sorted)@.last(), x) ==> p == old(sorted)@.len(),
{
    let mut p = sorted.len();
    while p > 0 && !item_le_exec(&sorted[p - 1], &x)
        invariant
            p <= sorted@.len(),
            forall|j: int| p <= j < sorted@.len() ==> !item_le(#[trigger] sorted@[j], x),
        decreases p,
    {
        p = p - 1;
    }
    let ghost s = sorted@;
    sorted.insert(p, x);
    proof {
        let t = sorted@;
        assert forall|i: int, j: int| 0 <= i < j < t.len() implies item_le(
            #[trigger] t[i],
            #[trigger] t[j],
        ) by {
            if i < p && j == p {
                lemma_item_le_total(s[p - 1], x);
                if i < p - 1 {
                    lemma_item_le_transitive(s[i], s[p - 1], x);
                }
            } else if i == p && j > p {
                lemma_item_le_total(s[j - 1], x);
            } else if i < p && j > p {
                assert(t[j] == s[j - 1]);
            } else if i > p {
                assert(t[i] == s[i - 1]);
                assert(t[j] == s[j - 1]);
            }
        }
    }
    p
}

/// The item with its descendants put in order at every level; a file comes back as it was.
pub fn sort_item(item: WadTreeItem, Ghost(parent): Ghost<Seq<char>>) -> (r: WadTreeItem)
    ensures
        same_header(r, item),
        reordered_item(r, item),
        tree_sorted(r),
        wf_item(item, parent) ==> wf_item(r, parent),
        tree_sorted(item) ==> same_order(r, item),
        wf_item(item, parent) ==> same_files(r, item),
    decreases item,
{
    match item {
        WadTreeItem::Folder(f) => {
            let WadTreeFolder { id, name, path, name_hash, path_hash, items } = f;
            let ghost old_items = items@;
            let sorted = sort_items(items, Ghost(path@));
            let r = WadTreeItem::Folder(WadTreeFolder { id, name, path, name_hash, path_hash, items: sorted });
            proof {
                let perm = choose|perm: Seq<int>|
                    #[trigger] is_perm(perm, sorted@.len() as int) && forall|i: int|
                        0 <= i < sorted@.len() ==> reordered_item(#[trigger] sorted@[i], old_items[perm[i]]);
                assert(r->Folder_0.items@ == sorted@);
                assert(is_perm(perm, sorted@.len() as int));
            }
            r
        },
        WadTreeItem::File(f) => WadTreeItem::File(f),
    }
}

/// The items put in order, each with its descendants in order at every level.
///
/// Folders come before files, and within each kind the lowercased names stand in
/// lexicographic order; items that compare equal keep their relative order, so items
/// already in order keep it.
pub fn sort_items(items: Vec<WadTreeItem>, Ghost(parent): Ghost<Seq<char>>) -> (r: Vec<
    WadTreeItem,
>)
    ensures
        r@.len() == items@.len(),
        reordered_items(r@, items@),
        items_sorted(r@),
        wf_items(items@, parent) ==> wf_items(r@, parent),
        items_sorted(items@) ==> same_order_items(r@, items@),
        wf_items(items@, parent) ==> same_reach(r@, items@),
    decreases items,
{
    let ghost orig = items@;
    let ghost whole = items;
    let total = items.len();
    let mut rest = items;
    let mut out: Vec<WadTreeItem> = Vec::new();
    let ghost mut perm: Seq<int> = Seq::empty();
    let mut k: usize = 0;
    assert(orig.skip(0) =~= orig);
    while rest.len() > 0
        invariant
            k <= orig.len(),
            total == orig.len(),
            whole@ == orig,
            whole == items,
            rest@ == orig.skip(k as int),
            out@.len() == k,
            perm.len() == k,
            forall|a: int|
                0 <= a < k ==> 0 <= #[trigger] perm[a] < k && same_header(out@[a], orig[perm[a]])
                    && reordered_item(out@[a], orig[perm[a]])
                    && tree_sorted(out@[a]) && (wf_item(orig[perm[a]], parent) ==> wf_item(
                    out@[a],
                    parent,
                ) && same_files(out@[a], orig[perm[a]])),
            forall|a: int, b: int| 0 <= a < b < k ==> #[trigger] perm[a] != #[trigger] perm[b],
            forall|b: int| 0 <= b < k ==> #[trigger] hit(perm, k as int, b),
            sorted_level(out@),
            items_sorted(orig) ==> same_order_items(out@, orig.take(k as int)),
        decreases rest@.len(),
    {
        let x = rest.remove(0);
        proof {
            assert(x == orig[k as int]);
            assert(rest@ =~= orig.skip(k + 1));
        }
        proof {
            vstd::std_specs::vec::axiom_vec_index_decreases(whole, k as int);
        }
        let y = sort_item(x, Ghost(parent));
        let ghost before = out@;
        let p = insert_sorted(&mut out, y);
        proof {
            let old_perm = perm;
            perm = perm.insert(p as int, k as int);
            assert forall|a: int| 0 <= a < k + 1 implies 0 <= #[trigger] perm[a] < k + 1
                && same_header(out@[a], orig[perm[a]]) && reordered_item(out@[a], orig[perm[a]])
                && tree_sorted(out@[a]) && (wf_item(
                orig[perm[a]],
                parent,
            ) ==> wf_item(out@[a], parent) && same_files(out@[a], orig[perm[a]])) by {
                if a < p {
                    assert(perm[a] == old_perm[a]);
                    assert(out@[a] == before[a]);
                } else if a > p {
                    assert(perm[a] == old_perm[a - 1]);
                    assert(out@[a] == before[a - 1]);
                }
            }
            assert forall|a: int, b: int| 0 <= a < b < k + 1 implies #[trigger] perm[a]
                != #[trigger] perm[b] by {
                if a < p && b > p {
                    assert(perm[b] == old_perm[b - 1]);
                } else if a > p {
                    assert(perm[a] == old_perm[a - 1]);
                    assert(perm[b] == old_perm[b - 1]);
                } else if b < p {
                } else if a == p {
                    assert(perm[b] == old_perm[b - 1]);
                } else {
                    assert(perm[a] == old_perm[a]);
                }
            }
            assert forall|b: int| 0 <= b < k + 1 implies #[trigger] hit(perm, k + 1, b) by {
                if b == k {
                    assert(perm[p as int] == b);
                } else {
                    assert(hit(old_perm, k as int, b));
                    let a0 = choose|a: int| 0 <= a < k && #[trigger] old_perm[a] == b;
                    if a0 < p {
                        assert(perm[a0] == b);
                    } else {
                        assert(perm[a0 + 1] == b);
                    }
                }
            }
            if items_sorted(orig) {
                assert(tree_sorted(orig[k as int]));
                if k > 0 {
                    assert(same_order(before[k - 1], orig[k - 1]));
                    assert(item_le(orig[k - 1], orig[k as int]));
                    assert(item_le(before.last(), y));
                }
                assert(p == k);
                assert forall|a: int| 0 <= a < k + 1 implies same_order(
                    #[trigger] out@[a],
                    orig.take(k + 1)[a],
                ) by {
                    if a < k {
                        assert(out@[a] == before[a]);
                        assert(orig.take(k + 1)[a] == orig.take(k as int)[a]);
                    }
                }
            }
        }
        k = k + 1;
    }
    proof {
        assert(k == orig.len());
        assert(orig.take(k as int) =~= orig);
        assert forall|a: int| 0 <= a < out@.len() implies tree_sorted(#[trigger] out@[a]) by {
            assert(0 <= perm[a] < k);
        }
        assert(is_perm(perm, out@.len() as int));
        assert forall|a: int| 0 <= a < out@.len() implies reordered_item(#[trigger] out@[a], orig[perm[a]]) by {
            assert(0 <= perm[a] < k);
        }
        if wf_items(orig, parent) {
            assert forall|a: int, b: int|
                0 <= a < out@.len() && 0 <= b < out@.len() && a != b implies #[trigger] out@[a].spec_name()
                != #[trigger] out@[b].spec_name() by {
                if a < b {
                    assert(perm[a] != perm[b]);
                } else {
                    assert(perm[b] != perm[a]);
                }
            }
            assert forall|a: int| 0 <= a < out@.len() implies wf_item(#[trigger] out@[a], parent) by {
                assert(wf_item(orig[perm[a]], parent));
            }
            lemma_sorted_reach(orig, out@, perm, parent);
        }
    }
    out
}

/// Some position below `n` of `perm` holds `b`.
pub open spec fn hit(perm: Seq<int>, n: int, b: int) -> bool {
    exists|a: int| 0 <= a < n && #[trigger] perm[a] == b
}

/// Items put in another order, each reaching what the item it came from reaches, reach
/// the same files and items as before.
proof fn lemma_sorted_reach(
    orig: Seq<WadTreeItem>,
    out: Seq<WadTreeItem>,
    perm: Seq<int>,
    parent: Seq<char>,
)
    requires
        wf_items(orig, parent),
        names_distinct(out),
        out.len() == orig.len(),
        perm.len() == orig.len(),
        forall|a: int|
            0 <= a < out.len() ==> 0 <= #[trigger] perm[a] < out.len() && same_header(
                out[a],
                orig[perm[a]],
            ) && same_files(out[a], orig[perm[a]]),
        forall|b: int| 0 <= b < out.len() ==> #[trigger] hit(perm, out.len() as int, b),
    ensures
        same_reach(out, orig),
{
    assert forall|q: Seq<Seq<char>>| #![trigger file_at(out, q)] #![trigger lookup(out, q)]
        file_at(out, q) == file_at(orig, q) && (lookup(out, q) is Some) == (lookup(
        orig,
        q,
    ) is Some) by {
        if q.len() >= 1 {
            let m = q[0];
            if has_name(orig, m) {
                let b = index_of(orig, m);
                lemma_index_of(orig, b);
                assert(hit(perm, out.len() as int, b));
                let a = choose|a: int| 0 <= a < out.len() && #[trigger] perm[a] == b;
                lemma_index_of(out, a);
                assert(same_files(out[a], orig[b]));
                assert(index_of(out, m) == a);
                if out[a] is Folder && q.len() >= 2 {
                    let t = q.drop_first();
                    assert(same_reach(out[a]->Folder_0.items@, orig[b]->Folder_0.items@));
                    assert(file_at(out[a]->Folder_0.items@, t) == file_at(orig[b]->Folder_0.items@, t));
                    assert(lookup(out[a]->Folder_0.items@, t) is Some == lookup(orig[b]->Folder_0.items@, t) is Some);
                    assert(lookup(out, q) == lookup(out[a]->Folder_0.items@, t));
                    assert(lookup(orig, q) == lookup(orig[b]->Folder_0.items@, t));
                }
            } else if has_name(out, m) {
                let a = index_of(out, m);
                lemma_index_of(orig, perm[a]);
            }
        }
    }
}

} // verus!
