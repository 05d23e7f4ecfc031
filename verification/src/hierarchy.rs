//! The derived hierarchy view: folders and notes assembled into a nested
//! tree keyed by `parent_id`, for presentation. Items are grouped by
//! parent, the roots are the rows with no parent, and each folder node
//! receives the group keyed by its own id as children. The contract pins
//! the contents: the roots are exactly the parentless rows, and the whole
//! forest never invents or duplicates a row.

use vstd::prelude::*;
use vstd::multiset::Multiset;

use crate::models::FileItem;
use crate::models::FolderV;
use crate::models::FolderWithChildren;
use crate::models::Note;
use crate::models::NoteV;
use crate::models::opt_id_view;
use crate::models::opt_str_view;
use crate::vault::Vault;
use crate::vault::keep;

verus! {

/// The parent key an item is grouped under.
pub open spec fn item_parent(it: FileItem) -> Option<i64> {
    match it {
        FileItem::Folder(f) => f.parent_id,
        FileItem::Note(n) => n.parent_id,
    }
}

/// The folder row a tree node displays: its fields, without the children.
pub open spec fn node_row(f: FolderWithChildren) -> FolderV {
    FolderV {
        id: f.id as int,
        name: f.name@,
        created_at: f.created_at@,
        updated_at: f.updated_at@,
        parent_id: opt_id_view(f.parent_id),
        folder_path: f.folder_path@,
        is_deleted: f.is_deleted,
        deleted_at: opt_str_view(f.deleted_at),
        icon: opt_str_view(f.icon),
        color: opt_str_view(f.color),
        sort_by: opt_str_view(f.sort_by),
        sort_order: opt_str_view(f.sort_order),
    }
}

/// A tree node sits under the right parent, recursively: the item's own
/// parent key matches, and a folder's children all sit under the folder.
pub open spec fn item_wf(it: FileItem, parent: Option<i64>) -> bool
    decreases it,
{
    &&& item_parent(it) == parent
    &&& match it {
        FileItem::Folder(f) => forest_wf(f.children@, Some(f.id)),
        FileItem::Note(_) => true,
    }
}

/// Every root of the forest is well-parented, recursively.
pub open spec fn forest_wf(items: Seq<FileItem>, parent: Option<i64>) -> bool
    decreases items,
{
    forall|j: int| 0 <= j < items.len() ==> item_wf(#[trigger] items[j], parent)
}

/// A folder node's subtree hangs under it correctly, whatever the node's
/// own position: its children all sit under the folder, recursively.
pub open spec fn item_linked(it: FileItem) -> bool {
    match it {
        FileItem::Folder(f) => forest_wf(f.children@, Some(f.id)),
        FileItem::Note(_) => true,
    }
}

/// The folder row shown at one item's top level, if any.
pub open spec fn top_item_folders(it: FileItem) -> Multiset<FolderV> {
    match it {
        FileItem::Folder(f) => Multiset::<FolderV>::empty().insert(node_row(f)),
        FileItem::Note(_) => Multiset::<FolderV>::empty(),
    }
}

/// The note row shown at one item's top level, if any.
pub open spec fn top_item_notes(it: FileItem) -> Multiset<NoteV> {
    match it {
        FileItem::Folder(_) => Multiset::<NoteV>::empty(),
        FileItem::Note(n) => Multiset::<NoteV>::empty().insert(n@),
    }
}

/// The folder rows at the top level of a forest.
pub open spec fn top_folders(items: Seq<FileItem>) -> Multiset<FolderV>
    decreases items.len(),
{
    if items.len() == 0 {
        Multiset::<FolderV>::empty()
    } else {
        top_folders(items.drop_last()).add(top_item_folders(items.last()))
    }
}

/// The note rows at the top level of a forest.
pub open spec fn top_notes(items: Seq<FileItem>) -> Multiset<NoteV>
    decreases items.len(),
{
    if items.len() == 0 {
        Multiset::<NoteV>::empty()
    } else {
        top_notes(items.drop_last()).add(top_item_notes(items.last()))
    }
}

/// Every folder row in one item, nested children included.
pub open spec fn item_folders(it: FileItem) -> Multiset<FolderV>
    decreases it,
{
    match it {
        FileItem::Folder(f) => forest_folders(f.children@).insert(node_row(f)),
        FileItem::Note(_) => Multiset::<FolderV>::empty(),
    }
}

/// Every folder row in a forest, nested children included.
pub open spec fn forest_folders(items: Seq<FileItem>) -> Multiset<FolderV>
    decreases items,
{
    if items.len() == 0 {
        Multiset::<FolderV>::empty()
    } else {
        forest_folders(items.drop_last()).add(item_folders(items.last()))
    }
}

/// Every note row in one item, nested children included.
pub open spec fn item_notes(it: FileItem) -> Multiset<NoteV>
    decreases it,
{
    match it {
        FileItem::Folder(f) => forest_notes(f.children@),
        FileItem::Note(n) => Multiset::<NoteV>::empty().insert(n@),
    }
}

/// Every note row in a forest, nested children included.
pub open spec fn forest_notes(items: Seq<FileItem>) -> Multiset<NoteV>
    decreases items,
{
    if items.len() == 0 {
        Multiset::<NoteV>::empty()
    } else {
        forest_notes(items.drop_last()).add(item_notes(items.last()))
    }
}

/// A folder node that carries no children yet, as the grouping phase
/// makes them.
pub open spec fn item_flat(it: FileItem) -> bool {
    match it {
        FileItem::Folder(f) => f.children@.len() == 0,
        FileItem::Note(_) => true,
    }
}

pub open spec fn flat_items(items: Seq<FileItem>) -> bool {
    forall|j: int| 0 <= j < items.len() ==> item_flat(#[trigger] items[j])
}

/// Every member of every group carries the group's key as its parent.
pub open spec fn groups_wf(gs: Seq<(Option<i64>, Vec<FileItem>)>) -> bool {
    forall|i: int, j: int|
        0 <= i < gs.len() && 0 <= j < gs[i].1@.len() ==> item_parent(
            #[trigger] gs[i].1@[j],
        ) == gs[i].0
}

pub open spec fn groups_flat(gs: Seq<(Option<i64>, Vec<FileItem>)>) -> bool {
    forall|i: int| 0 <= i < gs.len() ==> flat_items((#[trigger] gs[i]).1@)
}

pub open spec fn groups_keyed(gs: Seq<(Option<i64>, Vec<FileItem>)>) -> bool {
    forall|i: int, j: int| 0 <= i < j < gs.len() ==> gs[i].0 != gs[j].0
}

/// All folder rows held across the groups.
pub open spec fn groups_folders(gs: Seq<(Option<i64>, Vec<FileItem>)>) -> Multiset<FolderV>
    decreases gs.len(),
{
    if gs.len() == 0 {
        Multiset::<FolderV>::empty()
    } else {
        groups_folders(gs.drop_last()).add(forest_folders(gs.last().1@))
    }
}

/// All note rows held across the groups.
pub open spec fn groups_notes(gs: Seq<(Option<i64>, Vec<FileItem>)>) -> Multiset<NoteV>
    decreases gs.len(),
{
    if gs.len() == 0 {
        Multiset::<NoteV>::empty()
    } else {
        groups_notes(gs.drop_last()).add(forest_notes(gs.last().1@))
    }
}

/// The index of the first group keyed `k`, or `-1`.
pub open spec fn find_key(gs: Seq<(Option<i64>, Vec<FileItem>)>, k: Option<i64>) -> int
    decreases gs.len(),
{
    if gs.len() == 0 {
        -1
    } else if gs[0].0 == k {
        0
    } else {
        let r = find_key(gs.drop_first(), k);
        if r < 0 {
            -1
        } else {
            r + 1
        }
    }
}

/// The items of the group keyed `k`, or nothing.
pub open spec fn group_items_at(gs: Seq<(Option<i64>, Vec<FileItem>)>, k: Option<i64>) -> Seq<
    FileItem,
> {
    let i = find_key(gs, k);
    if 0 <= i < gs.len() {
        gs[i].1@
    } else {
        Seq::<FileItem>::empty()
    }
}

proof fn lemma_find_key_range(gs: Seq<(Option<i64>, Vec<FileItem>)>, k: Option<i64>)
    ensures
        -1 <= find_key(gs, k) < gs.len(),
        find_key(gs, k) >= 0 ==> gs[find_key(gs, k)].0 == k,
        find_key(gs, k) < 0 ==> forall|j: int| 0 <= j < gs.len() ==> (#[trigger] gs[j]).0
            != k,
    decreases gs.len(),
{
    if gs.len() > 0 && gs[0].0 != k {
        lemma_find_key_range(gs.drop_first(), k);
        if find_key(gs, k) < 0 {
            assert forall|j: int| 0 <= j < gs.len() implies (#[trigger] gs[j]).0 != k by {
                if j > 0 {
                    assert(gs.drop_first()[j - 1] == gs[j]);
                }
            }
        }
    }
}

proof fn lemma_find_key_of_scan(gs: Seq<(Option<i64>, Vec<FileItem>)>, k: Option<i64>, i: int)
    requires
        0 <= i <= gs.len(),
        forall|j: int| 0 <= j < i ==> gs[j].0 != k,
        i == gs.len() || gs[i].0 == k,
    ensures
        find_key(gs, k) == if i == gs.len() {
            -1
        } else {
            i
        },
    decreases i,
{
    if gs.len() == 0 {
    } else if i == 0 {
    } else {
        assert(gs[0].0 != k);
        lemma_find_key_of_scan(gs.drop_first(), k, i - 1);
        assert(forall|j: int| 0 <= j < i - 1 ==> gs.drop_first()[j] == gs[j + 1]);
    }
}

proof fn lemma_find_key_update(
    gs: Seq<(Option<i64>, Vec<FileItem>)>,
    i: int,
    g2: (Option<i64>, Vec<FileItem>),
    k: Option<i64>,
)
    requires
        0 <= i < gs.len(),
        gs[i].0 == g2.0,
    ensures
        find_key(gs.update(i, g2), k) == find_key(gs, k),
    decreases gs.len(),
{
    let w = gs.update(i, g2);
    if i == 0 {
        assert(w[0].0 == gs[0].0);
        assert(w.drop_first() =~= gs.drop_first());
    } else {
        assert(w[0] == gs[0]);
        assert(w.drop_first() =~= gs.drop_first().update(i - 1, g2));
        lemma_find_key_update(gs.drop_first(), i - 1, g2, k);
    }
}

proof fn lemma_find_key_push(
    gs: Seq<(Option<i64>, Vec<FileItem>)>,
    g: (Option<i64>, Vec<FileItem>),
    k: Option<i64>,
)
    ensures
        g.0 != k ==> find_key(gs.push(g), k) == find_key(gs, k),
        g.0 == k && find_key(gs, k) < 0 ==> find_key(gs.push(g), k) == gs.len(),
    decreases gs.len(),
{
    let w = gs.push(g);
    if gs.len() == 0 {
        assert(w[0] == g);
        assert(w.drop_first() =~= Seq::<(Option<i64>, Vec<FileItem>)>::empty());
        assert(find_key(w.drop_first(), k) == -1);
        if g.0 != k {
            assert(find_key(w, k) == -1);
        }
    } else {
        assert(w[0] == gs[0]);
        if gs[0].0 == k {
            assert(find_key(w, k) == 0);
            assert(find_key(gs, k) == 0);
        }
        assert(w[0] == gs[0]);
        assert(w.drop_first() =~= gs.drop_first().push(g));
        lemma_find_key_push(gs.drop_first(), g, k);
    }
}

/// Two item lists with the same rows at each top position carry the same
/// top-level contents.
proof fn lemma_top_pointwise(a: Seq<FileItem>, b: Seq<FileItem>)
    requires
        a.len() == b.len(),
        forall|j: int|
            0 <= j < a.len() ==> top_item_folders(#[trigger] a[j]) == top_item_folders(b[j])
                && top_item_notes(a[j]) == top_item_notes(b[j]),
    ensures
        top_folders(a) == top_folders(b),
        top_notes(a) == top_notes(b),
    decreases a.len(),
{
    broadcast use vstd::multiset::group_multiset_axioms;

    if a.len() > 0 {
        assert(forall|j: int|
            0 <= j < a.drop_last().len() ==> a.drop_last()[j] == a[j] && b.drop_last()[j]
                == b[j]);
        lemma_top_pointwise(a.drop_last(), b.drop_last());
        assert(a.last() == a[a.len() - 1]);
        assert(b.last() == b[a.len() - 1]);
    }
}

/// Replacing one item trades its nested contents for the new item's.
proof fn lemma_forest_swap(items: Seq<FileItem>, ci: int, it2: FileItem)
    requires
        0 <= ci < items.len(),
    ensures
        forest_folders(items.update(ci, it2)).add(item_folders(items[ci]))
            =~= forest_folders(items).add(item_folders(it2)),
        forest_notes(items.update(ci, it2)).add(item_notes(items[ci])) =~= forest_notes(
            items,
        ).add(item_notes(it2)),
    decreases items.len(),
{
    broadcast use vstd::multiset::group_multiset_axioms;

    let w = items.update(ci, it2);
    assert(forest_folders(w) == forest_folders(w.drop_last()).add(item_folders(w.last())));
    assert(forest_folders(items) == forest_folders(items.drop_last()).add(
        item_folders(items.last()),
    ));
    assert(forest_notes(w) == forest_notes(w.drop_last()).add(item_notes(w.last())));
    assert(forest_notes(items) == forest_notes(items.drop_last()).add(
        item_notes(items.last()),
    ));
    if ci == items.len() - 1 {
        assert(w.drop_last() =~= items.drop_last());
        assert(w.last() == it2);
        assert(items.last() == items[ci]);
        assert(forest_folders(w).add(item_folders(items[ci])) =~= forest_folders(items).add(
            item_folders(it2),
        )) by {
            assert forall|v: FolderV|
                forest_folders(w).add(item_folders(items[ci])).count(v) == forest_folders(
                    items,
                ).add(item_folders(it2)).count(v) by {
                assert(forest_folders(w).count(v) == forest_folders(items.drop_last()).count(
                    v,
                ) + item_folders(it2).count(v));
                assert(forest_folders(items).count(v) == forest_folders(
                    items.drop_last(),
                ).count(v) + item_folders(items[ci]).count(v));
            }
        }
        assert(forest_notes(w).add(item_notes(items[ci])) =~= forest_notes(items).add(
            item_notes(it2),
        )) by {
            assert forall|v: NoteV| forest_notes(w).add(item_notes(items[ci])).count(v)
                == forest_notes(items).add(item_notes(it2)).count(v) by {
                assert(forest_notes(w).count(v) == forest_notes(items.drop_last()).count(v)
                    + item_notes(it2).count(v));
                assert(forest_notes(items).count(v) == forest_notes(items.drop_last()).count(
                    v,
                ) + item_notes(items[ci]).count(v));
            }
        }
    } else {
        assert(w.drop_last() =~= items.drop_last().update(ci, it2));
        assert(w.last() == items.last());
        lemma_forest_swap(items.drop_last(), ci, it2);
        assert(items.drop_last()[ci] == items[ci]);
        let dlw = items.drop_last().update(ci, it2);
        assert(forest_folders(dlw).add(item_folders(items[ci])) =~= forest_folders(
            items.drop_last(),
        ).add(item_folders(it2)));
        assert(forest_folders(dlw).add(item_folders(items[ci])) == forest_folders(
            items.drop_last(),
        ).add(item_folders(it2)));
        assert(forest_notes(dlw).add(item_notes(items[ci])) =~= forest_notes(
            items.drop_last(),
        ).add(item_notes(it2)));
        assert(forest_notes(dlw).add(item_notes(items[ci])) == forest_notes(
            items.drop_last(),
        ).add(item_notes(it2)));
        assert(forest_folders(w).add(item_folders(items[ci])) =~= forest_folders(items).add(
            item_folders(it2),
        )) by {
            assert forall|v: FolderV|
                forest_folders(w).add(item_folders(items[ci])).count(v) == forest_folders(
                    items,
                ).add(item_folders(it2)).count(v) by {
                assert(forest_folders(w).count(v) == forest_folders(dlw).count(v)
                    + item_folders(items.last()).count(v));
                assert(forest_folders(items).count(v) == forest_folders(
                    items.drop_last(),
                ).count(v) + item_folders(items.last()).count(v));
                assert(forest_folders(dlw).add(item_folders(items[ci])).count(v)
                    == forest_folders(items.drop_last()).add(item_folders(it2)).count(v));
            }
        }
        assert(forest_notes(w).add(item_notes(items[ci])) =~= forest_notes(items).add(
            item_notes(it2),
        )) by {
            assert forall|v: NoteV| forest_notes(w).add(item_notes(items[ci])).count(v)
                == forest_notes(items).add(item_notes(it2)).count(v) by {
                assert(forest_notes(w).count(v) == forest_notes(dlw).count(v) + item_notes(
                    items.last(),
                ).count(v));
                assert(forest_notes(items).count(v) == forest_notes(items.drop_last()).count(
                    v,
                ) + item_notes(items.last()).count(v));
                assert(forest_notes(dlw).add(item_notes(items[ci])).count(v) == forest_notes(
                    items.drop_last(),
                ).add(item_notes(it2)).count(v));
            }
        }
    }
}

/// Removing one group takes exactly its contents out of the total.
proof fn lemma_groups_remove(gs: Seq<(Option<i64>, Vec<FileItem>)>, i: int)
    ensures
        0 <= i < gs.len() ==> groups_folders(gs) =~= groups_folders(gs.remove(i)).add(
            forest_folders(gs[i].1@),
        ) && groups_notes(gs) =~= groups_notes(gs.remove(i)).add(forest_notes(gs[i].1@)),
    decreases gs.len(),
{
    broadcast use vstd::multiset::group_multiset_axioms;

    if 0 <= i < gs.len() {
        if i == gs.len() - 1 {
            assert(gs.remove(i) =~= gs.drop_last());
            assert(gs.last() == gs[i]);
        } else {
            assert(gs.remove(i).drop_last() =~= gs.drop_last().remove(i));
            assert(gs.remove(i).last() == gs.last());
            lemma_groups_remove(gs.drop_last(), i);
            assert(gs.drop_last()[i] == gs[i]);
        }
    }
}

/// Replacing one group trades its contents for the new group's.
proof fn lemma_groups_update(
    gs: Seq<(Option<i64>, Vec<FileItem>)>,
    i: int,
    g2: (Option<i64>, Vec<FileItem>),
)
    requires
        0 <= i < gs.len(),
    ensures
        groups_folders(gs.update(i, g2)).add(forest_folders(gs[i].1@)) =~= groups_folders(
            gs,
        ).add(forest_folders(g2.1@)),
        groups_notes(gs.update(i, g2)).add(forest_notes(gs[i].1@)) =~= groups_notes(gs).add(
            forest_notes(g2.1@),
        ),
    decreases gs.len(),
{
    broadcast use vstd::multiset::group_multiset_axioms;

    let w = gs.update(i, g2);
    assert(groups_folders(w) == groups_folders(w.drop_last()).add(
        forest_folders(w.last().1@),
    ));
    assert(groups_folders(gs) == groups_folders(gs.drop_last()).add(
        forest_folders(gs.last().1@),
    ));
    assert(groups_notes(w) == groups_notes(w.drop_last()).add(forest_notes(w.last().1@)));
    assert(groups_notes(gs) == groups_notes(gs.drop_last()).add(forest_notes(gs.last().1@)));
    if i == gs.len() - 1 {
        assert(w.drop_last() =~= gs.drop_last());
        assert(w.last() == g2);
        assert(gs.last() == gs[i]);
        assert(groups_folders(w).add(forest_folders(gs[i].1@)) =~= groups_folders(gs).add(
            forest_folders(g2.1@),
        )) by {
            assert forall|v: FolderV|
                groups_folders(w).add(forest_folders(gs[i].1@)).count(v) == groups_folders(
                    gs,
                ).add(forest_folders(g2.1@)).count(v) by {
                assert(groups_folders(w).count(v) == groups_folders(gs.drop_last()).count(v)
                    + forest_folders(g2.1@).count(v));
                assert(groups_folders(gs).count(v) == groups_folders(gs.drop_last()).count(
                    v,
                ) + forest_folders(gs[i].1@).count(v));
            }
        }
        assert(groups_notes(w).add(forest_notes(gs[i].1@)) =~= groups_notes(gs).add(
            forest_notes(g2.1@),
        )) by {
            assert forall|v: NoteV| groups_notes(w).add(forest_notes(gs[i].1@)).count(v)
                == groups_notes(gs).add(forest_notes(g2.1@)).count(v) by {
                assert(groups_notes(w).count(v) == groups_notes(gs.drop_last()).count(v)
                    + forest_notes(g2.1@).count(v));
                assert(groups_notes(gs).count(v) == groups_notes(gs.drop_last()).count(v)
                    + forest_notes(gs[i].1@).count(v));
            }
        }
    } else {
        assert(w.drop_last() =~= gs.drop_last().update(i, g2));
        assert(w.last() == gs.last());
        lemma_groups_update(gs.drop_last(), i, g2);
        assert(gs.drop_last()[i] == gs[i]);
        let dlw = gs.drop_last().update(i, g2);
        assert(groups_folders(dlw).add(forest_folders(gs[i].1@)) == groups_folders(
            gs.drop_last(),
        ).add(forest_folders(g2.1@)));
        assert(groups_notes(dlw).add(forest_notes(gs[i].1@)) == groups_notes(
            gs.drop_last(),
        ).add(forest_notes(g2.1@)));
        assert(groups_folders(w).add(forest_folders(gs[i].1@)) =~= groups_folders(gs).add(
            forest_folders(g2.1@),
        )) by {
            assert forall|v: FolderV|
                groups_folders(w).add(forest_folders(gs[i].1@)).count(v) == groups_folders(
                    gs,
                ).add(forest_folders(g2.1@)).count(v) by {
                assert(groups_folders(w).count(v) == groups_folders(dlw).count(v)
                    + forest_folders(gs.last().1@).count(v));
                assert(groups_folders(gs).count(v) == groups_folders(gs.drop_last()).count(
                    v,
                ) + forest_folders(gs.last().1@).count(v));
                assert(groups_folders(dlw).add(forest_folders(gs[i].1@)).count(v)
                    == groups_folders(gs.drop_last()).add(forest_folders(g2.1@)).count(v));
            }
        }
        assert(groups_notes(w).add(forest_notes(gs[i].1@)) =~= groups_notes(gs).add(
            forest_notes(g2.1@),
        )) by {
            assert forall|v: NoteV| groups_notes(w).add(forest_notes(gs[i].1@)).count(v)
                == groups_notes(gs).add(forest_notes(g2.1@)).count(v) by {
                assert(groups_notes(w).count(v) == groups_notes(dlw).count(v) + forest_notes(
                    gs.last().1@,
                ).count(v));
                assert(groups_notes(gs).count(v) == groups_notes(gs.drop_last()).count(v)
                    + forest_notes(gs.last().1@).count(v));
                assert(groups_notes(dlw).add(forest_notes(gs[i].1@)).count(v)
                    == groups_notes(gs.drop_last()).add(forest_notes(g2.1@)).count(v));
            }
        }
    }
}

/// A flat item holds exactly its top-level row.
proof fn lemma_flat_item_contents(it: FileItem)
    requires
        item_flat(it),
    ensures
        item_folders(it) =~= top_item_folders(it),
        item_notes(it) =~= top_item_notes(it),
{
    broadcast use vstd::multiset::group_multiset_axioms;

    match it {
        FileItem::Folder(f) => {
            assert(forest_folders(f.children@) =~= Multiset::<FolderV>::empty());
            assert(forest_notes(f.children@) =~= Multiset::<NoteV>::empty());
        },
        FileItem::Note(_) => {},
    }
}

/// Filtering keeps counts: sequences with equal contents filter to equal
/// contents.
proof fn lemma_keep_count<A>(s: Seq<A>, p: spec_fn(A) -> bool, x: A)
    ensures
        keep(s, p).to_multiset().count(x) == if p(x) {
            s.to_multiset().count(x)
        } else {
            0
        },
    decreases s.len(),
{
    broadcast use vstd::seq_lib::group_to_multiset_ensures;
    broadcast use vstd::multiset::group_multiset_axioms;

    if s.len() == 0 {
        assert(keep(s, p).to_multiset().count(x) == 0) by {
            if keep(s, p).to_multiset().count(x) > 0 {
                assert(keep(s, p).contains(x));
            }
        }
        assert(s.to_multiset().count(x) == 0) by {
            if s.to_multiset().count(x) > 0 {
                assert(s.contains(x));
            }
        }
    } else {
        lemma_keep_count(s.drop_last(), p, x);
        assert(s =~= s.drop_last().push(s.last()));
        assert(s.to_multiset() =~= s.drop_last().to_multiset().insert(s.last()));
        if p(s.last()) {
            assert(keep(s, p) == keep(s.drop_last(), p).push(s.last()));
            assert(keep(s, p).to_multiset() =~= keep(s.drop_last(), p).to_multiset().insert(
                s.last(),
            ));
        } else {
            assert(keep(s, p) == keep(s.drop_last(), p));
        }
    }
}

proof fn lemma_keep_all_items(s: Seq<FileItem>, p: spec_fn(FileItem) -> bool)
    requires
        forall|i: int| 0 <= i < s.len() ==> p(#[trigger] s[i]),
    ensures
        keep(s, p) == s,
    decreases s.len(),
{
    if s.len() > 0 {
        assert(forall|i: int|
            0 <= i < s.drop_last().len() ==> #[trigger] s.drop_last()[i] == s[i]);
        lemma_keep_all_items(s.drop_last(), p);
        assert(p(s[s.len() - 1]));
        assert(keep(s, p) =~= s);
    }
}

proof fn lemma_keep_none_items(s: Seq<FileItem>, p: spec_fn(FileItem) -> bool)
    requires
        forall|i: int| 0 <= i < s.len() ==> !p(#[trigger] s[i]),
    ensures
        keep(s, p) == Seq::<FileItem>::empty(),
    decreases s.len(),
{
    if s.len() > 0 {
        assert(forall|i: int|
            0 <= i < s.drop_last().len() ==> #[trigger] s.drop_last()[i] == s[i]);
        lemma_keep_none_items(s.drop_last(), p);
        assert(!p(s[s.len() - 1]));
    }
}

proof fn lemma_keep_concat_items(s: Seq<FileItem>, t: Seq<FileItem>, p: spec_fn(FileItem) -> bool)
    ensures
        keep(s + t, p) == keep(s, p) + keep(t, p),
    decreases t.len(),
{
    if t.len() == 0 {
        assert(s + t =~= s);
        assert(keep(s, p) + keep(t, p) =~= keep(s, p));
    } else {
        assert((s + t).drop_last() =~= s + t.drop_last());
        assert((s + t).last() == t.last());
        lemma_keep_concat_items(s, t.drop_last(), p);
        if p(t.last()) {
            assert(keep(s + t, p) =~= keep(s, p) + keep(t, p)) by {
                assert(keep(s + t, p) == keep(s + t.drop_last(), p).push(t.last()));
                assert(keep(t, p) == keep(t.drop_last(), p).push(t.last()));
                assert((keep(s, p) + keep(t.drop_last(), p)).push(t.last()) =~= keep(s, p)
                    + keep(t.drop_last(), p).push(t.last()));
            }
        } else {
            assert(keep(s + t, p) == keep(s + t.drop_last(), p));
            assert(keep(t, p) == keep(t.drop_last(), p));
        }
    }
}

proof fn lemma_forest_concat(s: Seq<FileItem>, t: Seq<FileItem>)
    ensures
        forest_folders(s + t) =~= forest_folders(s).add(forest_folders(t)),
        forest_notes(s + t) =~= forest_notes(s).add(forest_notes(t)),
    decreases t.len(),
{
    broadcast use vstd::multiset::group_multiset_axioms;

    if t.len() == 0 {
        assert(s + t =~= s);
        assert(forest_folders(t) =~= Multiset::<FolderV>::empty());
        assert(forest_notes(t) =~= Multiset::<NoteV>::empty());
    } else {
        assert((s + t).drop_last() =~= s + t.drop_last());
        assert((s + t).last() == t.last());
        lemma_forest_concat(s, t.drop_last());
        assert(forest_folders(s + t) == forest_folders(s + t.drop_last()).add(
            item_folders(t.last()),
        ));
        assert(forest_folders(t) == forest_folders(t.drop_last()).add(
            item_folders(t.last()),
        ));
        assert(forest_notes(s + t) == forest_notes(s + t.drop_last()).add(
            item_notes(t.last()),
        ));
        assert(forest_notes(t) == forest_notes(t.drop_last()).add(item_notes(t.last())));
    }
}

fn opt_id_eq(a: Option<i64>, b: Option<i64>) -> (r: bool)
    ensures
        r == (a == b),
{
    match (a, b) {
        (Some(x), Some(y)) => x == y,
        (None, None) => true,
        _ => false,
    }
}

fn take_group(groups: &mut Vec<(Option<i64>, Vec<FileItem>)>, parent: Option<i64>) -> (r:
    Option<Vec<FileItem>>)
    requires
        groups_wf(old(groups)@),
        groups_flat(old(groups)@),
        groups_keyed(old(groups)@),
    ensures
        groups_wf(final(groups)@),
        groups_flat(final(groups)@),
        groups_keyed(final(groups)@),
        forall|x: int|
            0 <= x < final(groups)@.len() ==> old(groups)@.contains(
                #[trigger] final(groups)@[x],
            ),
        forall|x: int|
            0 <= x < final(groups)@.len() ==> (#[trigger] final(groups)@[x]).0 != parent,
        match r {
            Some(items) => {
                &&& final(groups)@.len() == old(groups)@.len() - 1
                &&& forall|j: int|
                    0 <= j < items@.len() ==> item_parent(#[trigger] items@[j]) == parent
                &&& items@ == group_items_at(old(groups)@, parent)
                &&& flat_items(items@)
                &&& groups_folders(old(groups)@) == groups_folders(final(groups)@).add(
                    forest_folders(items@),
                )
                &&& groups_notes(old(groups)@) == groups_notes(final(groups)@).add(
                    forest_notes(items@),
                )
            },
            None => final(groups)@ == old(groups)@ && find_key(old(groups)@, parent) == -1,
        },
{
    broadcast use vstd::multiset::group_multiset_axioms;

    let mut i: usize = 0;
    while i < groups.len()
        invariant
            i <= groups@.len(),
            groups_wf(groups@),
            groups_flat(groups@),
            groups_keyed(groups@),
            groups@ == old(groups)@,
            forall|j: int| 0 <= j < i ==> (#[trigger] groups@[j]).0 != parent,
        decreases groups@.len() - i,
    {
        if opt_id_eq(groups[i].0, parent) {
            proof {
                lemma_find_key_of_scan(groups@, parent, i as int);
                lemma_groups_remove(groups@, i as int);
            }
            let (_, items) = groups.remove(i);
            proof {
                assert(old(groups)@[i as int].0 == parent);
                assert(items@ == group_items_at(old(groups)@, parent));
                assert(flat_items(items@));
                assert forall|x: int| 0 <= x < groups@.len() implies old(groups)@.contains(
                    #[trigger] groups@[x],
                ) by {
                    if x < i as int {
                        assert(groups@[x] == old(groups)@[x]);
                    } else {
                        assert(groups@[x] == old(groups)@[x + 1]);
                    }
                }
                assert forall|x: int| 0 <= x < groups@.len() implies (
                #[trigger] groups@[x]).0 != parent by {
                    if x < i as int {
                        assert(groups@[x] == old(groups)@[x]);
                    } else {
                        assert(groups@[x] == old(groups)@[x + 1]);
                    }
                }
                assert forall|a: int, b: int|
                    0 <= a < b < groups@.len() implies groups@[a].0 != groups@[b].0 by {
                    if b < i as int {
                        assert(groups@[a] == old(groups)@[a]);
                        assert(groups@[b] == old(groups)@[b]);
                    } else if a < i as int {
                        assert(groups@[a] == old(groups)@[a]);
                        assert(groups@[b] == old(groups)@[b + 1]);
                    } else {
                        assert(groups@[a] == old(groups)@[a + 1]);
                        assert(groups@[b] == old(groups)@[b + 1]);
                    }
                }
                assert forall|a: int, b: int|
                    0 <= a < groups@.len() && 0 <= b < groups@[a].1@.len() implies item_parent(
                    #[trigger] groups@[a].1@[b],
                ) == groups@[a].0 by {
                    if a < i as int {
                        assert(groups@[a] == old(groups)@[a]);
                    } else {
                        assert(groups@[a] == old(groups)@[a + 1]);
                    }
                }
                assert forall|a: int| 0 <= a < groups@.len() implies flat_items(
                    (#[trigger] groups@[a]).1@,
                ) by {
                    if a < i as int {
                        assert(groups@[a] == old(groups)@[a]);
                    } else {
                        assert(groups@[a] == old(groups)@[a + 1]);
                    }
                }
            }
            return Some(items);
        }
        i = i + 1;
    }
    proof {
        lemma_find_key_of_scan(groups@, parent, groups@.len() as int);
    }
    None
}

fn build_tree(groups: &mut Vec<(Option<i64>, Vec<FileItem>)>, parent: Option<i64>) -> (r: Vec<
    FileItem,
>)
    requires
        groups_wf(old(groups)@),
        groups_flat(old(groups)@),
        groups_keyed(old(groups)@),
    ensures
        groups_wf(final(groups)@),
        groups_flat(final(groups)@),
        groups_keyed(final(groups)@),
        forall|x: int|
            0 <= x < final(groups)@.len() ==> old(groups)@.contains(
                #[trigger] final(groups)@[x],
            ),
        forall|x: int|
            0 <= x < final(groups)@.len() ==> (#[trigger] final(groups)@[x]).0 != parent,
        final(groups)@.len() <= old(groups)@.len(),
        find_key(old(groups)@, parent) >= 0 ==> final(groups)@.len() < old(groups)@.len(),
        forest_wf(r@, parent),
        forall|j: int| 0 <= j < r@.len() ==> item_parent(#[trigger] r@[j]) == parent,
        top_folders(r@) == top_folders(group_items_at(old(groups)@, parent)),
        top_notes(r@) == top_notes(group_items_at(old(groups)@, parent)),
        groups_folders(old(groups)@) == forest_folders(r@).add(groups_folders(final(groups)@)),
        groups_notes(old(groups)@) == forest_notes(r@).add(groups_notes(final(groups)@)),
    decreases old(groups)@.len(),
{
    broadcast use vstd::multiset::group_multiset_axioms;

    let mut items = match take_group(groups, parent) {
        Some(items) => items,
        None => {
            let out: Vec<FileItem> = Vec::new();
            proof {
                lemma_find_key_range(old(groups)@, parent);
                assert(forall|x: int|
                    0 <= x < groups@.len() ==> old(groups)@.contains(#[trigger] groups@[x]));
                assert(group_items_at(old(groups)@, parent) =~= Seq::<FileItem>::empty());
                assert(top_folders(out@) =~= Multiset::<FolderV>::empty());
                assert(forest_folders(out@) =~= Multiset::<FolderV>::empty());
                assert(forest_folders(out@).add(groups_folders(groups@)) =~= groups_folders(
                    groups@,
                ));
                assert(forest_notes(out@).add(groups_notes(groups@)) =~= groups_notes(
                    groups@,
                ));
            }
            return out;
        },
    };
    let ghost taken = items@;
    let ghost g_after_take = groups@;
    let ghost len_after_take = groups@.len();
    let mut ci: usize = 0;
    while ci < items.len()
        invariant
            ci <= items@.len(),
            groups_wf(groups@),
            groups_flat(groups@),
            groups_keyed(groups@),
            forall|x: int|
                0 <= x < groups@.len() ==> old(groups)@.contains(#[trigger] groups@[x]),
            forall|x: int| 0 <= x < groups@.len() ==> (#[trigger] groups@[x]).0 != parent,
            groups@.len() <= len_after_take,
            len_after_take + 1 <= old(groups)@.len(),
            items@.len() == taken.len(),
            forall|j: int| 0 <= j < items@.len() ==> item_parent(#[trigger] items@[j]) == parent,
            forall|j: int| 0 <= j < ci ==> item_wf(#[trigger] items@[j], parent),
            forall|j: int|
                0 <= j < items@.len() ==> top_item_folders(#[trigger] items@[j])
                    == top_item_folders(taken[j]) && top_item_notes(items@[j])
                    == top_item_notes(taken[j]),
            forall|j: int| ci <= j < items@.len() ==> item_flat(#[trigger] items@[j]),
            forest_folders(items@).add(groups_folders(groups@)) == forest_folders(taken).add(
                groups_folders(g_after_take),
            ),
            forest_notes(items@).add(groups_notes(groups@)) == forest_notes(taken).add(
                groups_notes(g_after_take),
            ),
        decreases items@.len() - ci,
    {
        let fid: Option<i64> = match &items[ci] {
            FileItem::Folder(f) => Some(f.id),
            FileItem::Note(_) => None,
        };
        match fid {
            Some(id) => {
                proof {
                    assert(item_flat(items@[ci as int]));
                    assert(items@[ci as int] matches FileItem::Folder(f0) && f0.id == id
                        && f0.children@.len() == 0);
                }
                let ghost g_before = groups@;
                let sub = build_tree(groups, Some(id));
                proof {
                    assert forall|x: int| 0 <= x < groups@.len() implies old(
                        groups,
                    )@.contains(#[trigger] groups@[x]) by {
                        assert(g_before.contains(groups@[x]));
                        let y = choose|y: int|
                            0 <= y < g_before.len() && g_before[y] == groups@[x];
                        assert(old(groups)@.contains(g_before[y]));
                    }
                    assert forall|x: int| 0 <= x < groups@.len() implies (
                    #[trigger] groups@[x]).0 != parent by {
                        assert(g_before.contains(groups@[x]));
                        let y = choose|y: int|
                            0 <= y < g_before.len() && g_before[y] == groups@[x];
                        assert(g_before[y].0 != parent);
                    }
                }
                let ghost subv = sub@;
                let ghost items0 = items@;
                match &mut items[ci] {
                    FileItem::Folder(f) => {
                        f.children = sub;
                    },
                    FileItem::Note(_) => {},
                }
                proof {
                    assert(items@ =~= items0.update(ci as int, items@[ci as int]));
                    lemma_forest_swap(items0, ci as int, items@[ci as int]);
                    lemma_flat_item_contents(items0[ci as int]);
                    match items@[ci as int] {
                        FileItem::Folder(f2) => {
                            assert(item_folders(items@[ci as int]) =~= forest_folders(
                                subv,
                            ).insert(node_row(f2)));
                            assert(item_folders(items0[ci as int]) =~= Multiset::<
                                FolderV,
                            >::empty().insert(node_row(f2)));
                            assert(item_notes(items@[ci as int]) =~= forest_notes(subv));
                            assert(item_notes(items0[ci as int]) =~= Multiset::<
                                NoteV,
                            >::empty());
                        },
                        FileItem::Note(_) => {},
                    }
                    let ghost it_old = items0[ci as int];
                    let ghost it_new = items@[ci as int];
                    assert(forest_folders(items@).add(groups_folders(groups@))
                        =~= forest_folders(taken).add(groups_folders(g_after_take))) by {
                        assert(groups_folders(g_before) == forest_folders(subv).add(
                            groups_folders(groups@),
                        ));
                        assert(forest_folders(items0).add(groups_folders(g_before))
                            == forest_folders(taken).add(groups_folders(g_after_take)));
                        assert forall|v: FolderV|
                            forest_folders(items@).add(groups_folders(groups@)).count(v)
                            == forest_folders(taken).add(groups_folders(
                            g_after_take,
                        )).count(v) by {
                            assert(forest_folders(items@).add(item_folders(it_old)).count(v)
                                == forest_folders(items0).add(item_folders(it_new)).count(
                                v,
                            ));
                            assert(forest_folders(subv).insert(node_row(match it_new {
                                FileItem::Folder(ff) => ff,
                                FileItem::Note(_) => arbitrary(),
                            })).count(v) == forest_folders(subv).count(v)
                                + Multiset::singleton(node_row(match it_new {
                                FileItem::Folder(ff) => ff,
                                FileItem::Note(_) => arbitrary(),
                            })).count(v));
                            assert(Multiset::<FolderV>::empty().insert(node_row(
                                match it_new {
                                    FileItem::Folder(ff) => ff,
                                    FileItem::Note(_) => arbitrary(),
                                },
                            )).count(v) == Multiset::<FolderV>::empty().count(v)
                                + Multiset::singleton(node_row(match it_new {
                                FileItem::Folder(ff) => ff,
                                FileItem::Note(_) => arbitrary(),
                            })).count(v));
                            assert(forest_folders(subv).add(groups_folders(groups@)).count(
                                v,
                            ) == forest_folders(subv).count(v) + groups_folders(
                                groups@,
                            ).count(v));
                            assert(forest_folders(items0).add(groups_folders(
                                g_before,
                            )).count(v) == forest_folders(items0).count(v) + groups_folders(
                                g_before,
                            ).count(v));
                            assert(forest_folders(taken).add(groups_folders(
                                g_after_take,
                            )).count(v) == forest_folders(taken).count(v) + groups_folders(
                                g_after_take,
                            ).count(v));
                        }
                    }
                    assert(forest_notes(items@).add(groups_notes(groups@)) =~= forest_notes(
                        taken,
                    ).add(groups_notes(g_after_take))) by {
                        assert(groups_notes(g_before) == forest_notes(subv).add(
                            groups_notes(groups@),
                        ));
                        assert(forest_notes(items0).add(groups_notes(g_before))
                            == forest_notes(taken).add(groups_notes(g_after_take)));
                        assert forall|v: NoteV|
                            forest_notes(items@).add(groups_notes(groups@)).count(v)
                            == forest_notes(taken).add(groups_notes(g_after_take)).count(
                            v,
                        ) by {
                            assert(forest_notes(items@).add(item_notes(it_old)).count(v)
                                == forest_notes(items0).add(item_notes(it_new)).count(v));
                            assert(forest_notes(subv).add(groups_notes(groups@)).count(v)
                                == forest_notes(subv).count(v) + groups_notes(
                                groups@,
                            ).count(v));
                            assert(forest_notes(items0).add(groups_notes(g_before)).count(
                                v,
                            ) == forest_notes(items0).count(v) + groups_notes(
                                g_before,
                            ).count(v));
                            assert(forest_notes(taken).add(groups_notes(
                                g_after_take,
                            )).count(v) == forest_notes(taken).count(v) + groups_notes(
                                g_after_take,
                            ).count(v));
                        }
                    }
                    assert forall|j: int| 0 <= j < items@.len() implies item_parent(
                        #[trigger] items@[j],
                    ) == parent by {
                        if j != ci as int {
                            assert(items@[j] == items0[j]);
                        } else {
                            assert(item_parent(items@[j]) == item_parent(items0[j]));
                        }
                    }
                    assert forall|j: int|
                        0 <= j < items@.len() implies top_item_folders(#[trigger] items@[j])
                        == top_item_folders(taken[j]) && top_item_notes(items@[j])
                        == top_item_notes(taken[j]) by {
                        if j != ci as int {
                            assert(items@[j] == items0[j]);
                        } else {
                            assert(top_item_folders(items@[j]) == top_item_folders(
                                items0[j],
                            ));
                            assert(top_item_notes(items@[j]) == top_item_notes(items0[j]));
                        }
                    }
                    assert forall|j: int| 0 <= j < ci + 1 implies item_wf(
                        #[trigger] items@[j],
                        parent,
                    ) by {
                        if j < ci as int {
                            assert(items@[j] == items0[j]);
                        } else {
                            match items@[ci as int] {
                                FileItem::Folder(f2) => {
                                    assert(f2.children@ == subv);
                                    assert(f2.id == id);
                                    assert(forest_wf(f2.children@, Some(f2.id)));
                                },
                                FileItem::Note(_) => {},
                            }
                        }
                    }
                }
            },
            None => {
                proof {
                    assert(item_wf(items@[ci as int], parent)) by {
                        match items@[ci as int] {
                            FileItem::Folder(_) => {
                                assert(false);
                            },
                            FileItem::Note(_) => {},
                        }
                    }
                    assert forall|j: int| 0 <= j < ci + 1 implies item_wf(
                        #[trigger] items@[j],
                        parent,
                    ) by {}
                }
            },
        }
        ci = ci + 1;
    }
    proof {
        lemma_top_pointwise(items@, taken);
        assert(groups_folders(old(groups)@) == forest_folders(items@).add(
            groups_folders(groups@),
        ));
        assert(groups_notes(old(groups)@) == forest_notes(items@).add(groups_notes(groups@)));
    }
    items
}

impl Vault {
    /// Assembles every folder and note into the nested presentation tree.
    /// The roots are exactly the rows with no parent, every nested level
    /// sits under the right folder, and the forest as a whole holds no
    /// row the vault does not.
    pub fn get_all_files_hierarchical(&self) -> (r: Vec<FileItem>)
        requires
            self.wf(),
        ensures
            forall|j: int| 0 <= j < r@.len() ==> item_linked(#[trigger] r@[j]),
            top_folders(keep(r@, |it: FileItem| item_parent(it) is None)) == keep(
                self@.folders,
                |f: FolderV| f.parent_id is None,
            ).to_multiset(),
            top_notes(keep(r@, |it: FileItem| item_parent(it) is None)) == keep(
                self@.notes,
                |n: NoteV| n.parent_id is None,
            ).to_multiset(),
            forest_folders(r@) == self@.folders.to_multiset(),
            forest_notes(r@) == self@.notes.to_multiset(),
    {
        broadcast use vstd::seq_lib::group_to_multiset_ensures;
        broadcast use vstd::multiset::group_multiset_axioms;

        let mut groups: Vec<(Option<i64>, Vec<FileItem>)> = Vec::new();
        let mut i: usize = 0;
        proof {
            assert(crate::vault::folder_views(self.folders@).subrange(0, 0) =~= Seq::<
                FolderV,
            >::empty());
            assert(keep(
                crate::vault::folder_views(self.folders@).subrange(0, 0),
                |f: FolderV| f.parent_id is None,
            ) =~= Seq::<FolderV>::empty());
            assert(group_items_at(groups@, None) =~= Seq::<FileItem>::empty());
            assert(groups_folders(groups@) =~= Multiset::<FolderV>::empty());
            assert(groups_notes(groups@) =~= Multiset::<NoteV>::empty());
            assert(Seq::<FolderV>::empty().to_multiset() =~= Multiset::<FolderV>::empty()) by {
                if Seq::<FolderV>::empty().to_multiset().len() != 0 {
                }
            }
            assert(top_folders(Seq::<FileItem>::empty()) =~= Multiset::<FolderV>::empty());
        }
        while i < self.folders.len()
            invariant
                i <= self@.folders.len(),
                groups_wf(groups@),
                groups_flat(groups@),
                groups_keyed(groups@),
                groups_folders(groups@) == crate::vault::folder_views(self.folders@).subrange(
                    0,
                    i as int,
                ).to_multiset(),
                groups_notes(groups@) == Multiset::<NoteV>::empty(),
                top_folders(group_items_at(groups@, None)) == keep(
                    crate::vault::folder_views(self.folders@).subrange(0, i as int),
                    |f: FolderV| f.parent_id is None,
                ).to_multiset(),
                top_notes(group_items_at(groups@, None)) == Multiset::<NoteV>::empty(),
            decreases self@.folders.len() - i,
        {
            let f = &self.folders[i];
            let node = FolderWithChildren {
                id: f.id,
                name: f.name.clone(),
                created_at: f.created_at.clone(),
                updated_at: f.updated_at.clone(),
                parent_id: f.parent_id,
                folder_path: f.folder_path.clone(),
                children: Vec::new(),
                is_deleted: f.is_deleted,
                deleted_at: match &f.deleted_at {
                    Some(s) => Some(s.clone()),
                    None => None,
                },
                icon: match &f.icon {
                    Some(s) => Some(s.clone()),
                    None => None,
                },
                color: match &f.color {
                    Some(s) => Some(s.clone()),
                    None => None,
                },
                sort_by: match &f.sort_by {
                    Some(s) => Some(s.clone()),
                    None => None,
                },
                sort_order: match &f.sort_order {
                    Some(s) => Some(s.clone()),
                    None => None,
                },
            };
            let pid = f.parent_id;
            let item = FileItem::Folder(node);
            let ghost item_v = item;
            let ghost row = self.folders@[i as int]@;
            let ghost g_prev = groups@;
            let ghost gi_prev = group_items_at(groups@, None);
            let ghost pre = crate::vault::folder_views(self.folders@).subrange(0, i as int);
            let ghost pre2 = crate::vault::folder_views(self.folders@).subrange(0, i + 1);
            proof {
                assert(item_v matches FileItem::Folder(nf) && node_row(nf) == row);
                assert(top_item_folders(item_v) =~= Multiset::<FolderV>::empty().insert(row));
                assert(top_item_folders(item_v) == Multiset::<FolderV>::empty().insert(row));
                assert(top_item_notes(item_v) =~= Multiset::<NoteV>::empty());
                assert(top_item_notes(item_v) == Multiset::<NoteV>::empty());
                assert(item_flat(item_v));
                assert(pre2.drop_last() =~= pre);
                assert(pre2.last() == row);
                assert(pre2 =~= pre.push(row));
                pre.to_multiset_ensures();
                assert((pre.push(row)).to_multiset() =~= pre.to_multiset().insert(row));
                assert(pre2.to_multiset() == pre.to_multiset().insert(row));
                assert(keep(pre2, |x: FolderV| x.parent_id is None) == if row.parent_id is None {
                    keep(pre, |x: FolderV| x.parent_id is None).push(row)
                } else {
                    keep(pre, |x: FolderV| x.parent_id is None)
                });
                if row.parent_id is None {
                    let kp = keep(pre, |x: FolderV| x.parent_id is None);
                    kp.to_multiset_ensures();
                    assert((kp.push(row)).to_multiset() =~= kp.to_multiset().insert(row));
                    assert(keep(pre2, |x: FolderV| x.parent_id is None).to_multiset()
                        == kp.to_multiset().insert(row));
                }
            }
            push_into_group(&mut groups, pid, item);
            proof {
                assert forall|v: FolderV| groups_folders(groups@).count(v)
                    == pre2.to_multiset().count(v) by {
                    assert(groups_folders(g_prev).add(top_item_folders(item_v)).count(v)
                        == groups_folders(g_prev).count(v) + top_item_folders(item_v).count(
                        v,
                    ));
                    assert(Multiset::<FolderV>::empty().insert(row).count(v) == Multiset::<
                        FolderV,
                    >::empty().count(v) + Multiset::singleton(row).count(v));
                    assert(pre.to_multiset().insert(row).count(v) == pre.to_multiset().count(
                        v,
                    ) + Multiset::singleton(row).count(v));
                }
                assert(groups_folders(groups@) =~= pre2.to_multiset());
                assert forall|v: NoteV| groups_notes(groups@).count(v) == Multiset::<
                    NoteV,
                >::empty().count(v) by {
                    assert(groups_notes(g_prev).add(top_item_notes(item_v)).count(v)
                        == groups_notes(g_prev).count(v) + top_item_notes(item_v).count(v));
                }
                assert(groups_notes(groups@) =~= Multiset::<NoteV>::empty());
                if row.parent_id is None {
                    assert(group_items_at(groups@, None) == gi_prev.push(item_v));
                    let gp = gi_prev.push(item_v);
                    assert(gp.drop_last() =~= gi_prev);
                    assert(gp.last() == item_v);
                    assert(top_folders(gp) == top_folders(gi_prev).add(
                        top_item_folders(item_v),
                    ));
                    assert(top_notes(gp) == top_notes(gi_prev).add(top_item_notes(item_v)));
                    let kp = keep(pre, |x: FolderV| x.parent_id is None);
                    assert forall|v: FolderV| top_folders(gp).count(v) == keep(
                        pre2,
                        |x: FolderV| x.parent_id is None,
                    ).to_multiset().count(v) by {
                        assert(top_folders(gi_prev).add(top_item_folders(item_v)).count(v)
                            == top_folders(gi_prev).count(v) + top_item_folders(
                            item_v,
                        ).count(v));
                        assert(kp.to_multiset().insert(row).count(v)
                            == kp.to_multiset().count(v) + Multiset::singleton(row).count(
                            v,
                        ));
                        assert(Multiset::<FolderV>::empty().insert(row).count(v)
                            == Multiset::<FolderV>::empty().count(v) + Multiset::singleton(
                            row,
                        ).count(v));
                    }
                    assert(top_folders(group_items_at(groups@, None)) =~= keep(
                        pre2,
                        |x: FolderV| x.parent_id is None,
                    ).to_multiset());
                    assert forall|v: NoteV| top_notes(gp).count(v) == Multiset::<
                        NoteV,
                    >::empty().count(v) by {
                        assert(top_notes(gi_prev).add(top_item_notes(item_v)).count(v)
                            == top_notes(gi_prev).count(v) + top_item_notes(item_v).count(
                            v,
                        ));
                    }
                    assert(top_notes(group_items_at(groups@, None)) =~= Multiset::<
                        NoteV,
                    >::empty());
                } else {
                    assert(group_items_at(groups@, None) == gi_prev);
                    assert(keep(pre2, |x: FolderV| x.parent_id is None) == keep(
                        pre,
                        |x: FolderV| x.parent_id is None,
                    ));
                }
            }
            i = i + 1;
        }
        let ghost all_f = crate::vault::folder_views(self.folders@);
        proof {
            assert(all_f.subrange(0, all_f.len() as int) =~= all_f);
        }

        let mut all_notes: Vec<Note> = Vec::new();
        let mut w: usize = 0;
        while w < self.notes.len()
            invariant
                w <= self@.notes.len(),
                crate::vault::note_views(all_notes@) == crate::vault::note_views(
                    self.notes@,
                ).subrange(0, w as int),
            decreases self@.notes.len() - w,
        {
            let ghost npre2 = crate::vault::note_views(self.notes@).subrange(0, w + 1);
            proof {
                assert(npre2.drop_last() =~= crate::vault::note_views(self.notes@).subrange(
                    0,
                    w as int,
                ));
                assert(npre2.last() == self.notes@[w as int]@);
            }
            let e = self.notes[w].duplicate();
            all_notes.push(e);
            w = w + 1;
            proof {
                assert(crate::vault::note_views(all_notes@) =~= npre2);
            }
        }
        proof {
            assert(crate::vault::note_views(all_notes@) =~= crate::vault::note_views(
                self.notes@,
            ));
        }
        let sorted = crate::notes::sort_notes_desc(all_notes, false);
        let ghost sv = crate::vault::note_views(sorted@);
        let mut t: usize = 0;
        proof {
            assert(sv.subrange(0, 0) =~= Seq::<NoteV>::empty());
            assert(keep(sv.subrange(0, 0), |n: NoteV| n.parent_id is None) =~= Seq::<
                NoteV,
            >::empty());
            assert(Seq::<NoteV>::empty().to_multiset() =~= Multiset::<NoteV>::empty()) by {
                if Seq::<NoteV>::empty().to_multiset().len() != 0 {
                }
            }
        }
        while t < sorted.len()
            invariant
                t <= sorted@.len(),
                sv == crate::vault::note_views(sorted@),
                groups_wf(groups@),
                groups_flat(groups@),
                groups_keyed(groups@),
                groups_folders(groups@) == all_f.to_multiset(),
                groups_notes(groups@) == sv.subrange(0, t as int).to_multiset(),
                top_folders(group_items_at(groups@, None)) == keep(
                    all_f,
                    |f: FolderV| f.parent_id is None,
                ).to_multiset(),
                top_notes(group_items_at(groups@, None)) == keep(
                    sv.subrange(0, t as int),
                    |n: NoteV| n.parent_id is None,
                ).to_multiset(),
            decreases sorted@.len() - t,
        {
            let n = sorted[t].duplicate();
            let pid = n.parent_id;
            let item = FileItem::Note(n);
            let ghost item_v = item;
            let ghost nrow = sv[t as int];
            let ghost g_prev = groups@;
            let ghost gi_prev = group_items_at(groups@, None);
            let ghost pre = sv.subrange(0, t as int);
            let ghost pre2 = sv.subrange(0, t + 1);
            proof {
                assert(item_v matches FileItem::Note(nn) && nn@ == nrow);
                assert(top_item_notes(item_v) =~= Multiset::<NoteV>::empty().insert(nrow));
                assert(top_item_notes(item_v) == Multiset::<NoteV>::empty().insert(nrow));
                assert(top_item_folders(item_v) =~= Multiset::<FolderV>::empty());
                assert(top_item_folders(item_v) == Multiset::<FolderV>::empty());
                assert(item_flat(item_v));
                assert(pre2.drop_last() =~= pre);
                assert(pre2.last() == nrow);
                assert(pre2 =~= pre.push(nrow));
                pre.to_multiset_ensures();
                assert((pre.push(nrow)).to_multiset() =~= pre.to_multiset().insert(nrow));
                assert(pre2.to_multiset() == pre.to_multiset().insert(nrow));
                assert(keep(pre2, |x: NoteV| x.parent_id is None) == if nrow.parent_id is None {
                    keep(pre, |x: NoteV| x.parent_id is None).push(nrow)
                } else {
                    keep(pre, |x: NoteV| x.parent_id is None)
                });
                if nrow.parent_id is None {
                    let kp = keep(pre, |x: NoteV| x.parent_id is None);
                    kp.to_multiset_ensures();
                    assert((kp.push(nrow)).to_multiset() =~= kp.to_multiset().insert(nrow));
                    assert(keep(pre2, |x: NoteV| x.parent_id is None).to_multiset()
                        == kp.to_multiset().insert(nrow));
                }
            }
            push_into_group(&mut groups, pid, item);
            proof {
                assert forall|v: NoteV| groups_notes(groups@).count(v)
                    == pre2.to_multiset().count(v) by {
                    assert(groups_notes(g_prev).add(top_item_notes(item_v)).count(v)
                        == groups_notes(g_prev).count(v) + top_item_notes(item_v).count(v));
                    assert(Multiset::<NoteV>::empty().insert(nrow).count(v) == Multiset::<
                        NoteV,
                    >::empty().count(v) + Multiset::singleton(nrow).count(v));
                    assert(pre.to_multiset().insert(nrow).count(v)
                        == pre.to_multiset().count(v) + Multiset::singleton(nrow).count(v));
                }
                assert(groups_notes(groups@) =~= pre2.to_multiset());
                assert forall|v: FolderV| groups_folders(groups@).count(v)
                    == all_f.to_multiset().count(v) by {
                    assert(groups_folders(g_prev).add(top_item_folders(item_v)).count(v)
                        == groups_folders(g_prev).count(v) + top_item_folders(item_v).count(
                        v,
                    ));
                }
                assert(groups_folders(groups@) =~= all_f.to_multiset());
                if nrow.parent_id is None {
                    assert(group_items_at(groups@, None) == gi_prev.push(item_v));
                    let gp = gi_prev.push(item_v);
                    assert(gp.drop_last() =~= gi_prev);
                    assert(gp.last() == item_v);
                    assert(top_notes(gp) == top_notes(gi_prev).add(top_item_notes(item_v)));
                    assert(top_folders(gp) == top_folders(gi_prev).add(
                        top_item_folders(item_v),
                    ));
                    let kp = keep(pre, |x: NoteV| x.parent_id is None);
                    assert forall|v: NoteV| top_notes(gp).count(v) == keep(
                        pre2,
                        |x: NoteV| x.parent_id is None,
                    ).to_multiset().count(v) by {
                        assert(top_notes(gi_prev).add(top_item_notes(item_v)).count(v)
                            == top_notes(gi_prev).count(v) + top_item_notes(item_v).count(
                            v,
                        ));
                        assert(kp.to_multiset().insert(nrow).count(v)
                            == kp.to_multiset().count(v) + Multiset::singleton(nrow).count(
                            v,
                        ));
                        assert(Multiset::<NoteV>::empty().insert(nrow).count(v) == Multiset::<
                            NoteV,
                        >::empty().count(v) + Multiset::singleton(nrow).count(v));
                    }
                    assert(top_notes(group_items_at(groups@, None)) =~= keep(
                        pre2,
                        |x: NoteV| x.parent_id is None,
                    ).to_multiset());
                    assert forall|v: FolderV| top_folders(gp).count(v) == keep(
                        all_f,
                        |f: FolderV| f.parent_id is None,
                    ).to_multiset().count(v) by {
                        assert(top_folders(gi_prev).add(top_item_folders(item_v)).count(v)
                            == top_folders(gi_prev).count(v) + top_item_folders(
                            item_v,
                        ).count(v));
                    }
                    assert(top_folders(group_items_at(groups@, None)) =~= keep(
                        all_f,
                        |f: FolderV| f.parent_id is None,
                    ).to_multiset());
                } else {
                    assert(group_items_at(groups@, None) == gi_prev);
                    assert(keep(pre2, |x: NoteV| x.parent_id is None) == keep(
                        pre,
                        |x: NoteV| x.parent_id is None,
                    ));
                }
            }
            t = t + 1;
        }
        proof {
            assert(sv.subrange(0, sv.len() as int) =~= sv);
        }

        let mut out = build_tree(&mut groups, None);
        let ghost pnone = |it: FileItem| item_parent(it) is None;
        let ghost roots_items = out@;
        let ghost roots_f = keep(all_f, |f: FolderV| f.parent_id is None).to_multiset();
        let ghost roots_n = keep(sv, |n: NoteV| n.parent_id is None).to_multiset();
        proof {
            assert(forall|j: int|
                0 <= j < roots_items.len() ==> pnone(#[trigger] roots_items[j]));
            lemma_keep_all_items(roots_items, pnone);
            assert(keep(out@, pnone) == roots_items);
            assert forall|j: int| 0 <= j < out@.len() implies item_linked(
                #[trigger] out@[j],
            ) by {
                assert(item_wf(out@[j], None));
            }
        }
        while groups.len() > 0
            invariant
                self.wf(),
                groups_wf(groups@),
                groups_flat(groups@),
                groups_keyed(groups@),
                pnone == (|it: FileItem| item_parent(it) is None),
                forall|x: int| 0 <= x < groups@.len() ==> (#[trigger] groups@[x]).0 is Some,
                forest_folders(out@).add(groups_folders(groups@)) == all_f.to_multiset(),
                forest_notes(out@).add(groups_notes(groups@)) == sv.to_multiset(),
                keep(out@, pnone) == roots_items,
                forall|j: int| 0 <= j < out@.len() ==> item_linked(#[trigger] out@[j]),
            decreases groups@.len(),
        {
            let k = groups[0].0;
            let ghost g_pre = groups@;
            let ghost out0 = out@;
            proof {
                lemma_find_key_of_scan(groups@, k, 0);
            }
            let mut extra = build_tree(&mut groups, k);
            let ghost ev = extra@;
            out.append(&mut extra);
            proof {
                assert(out@ =~= out0 + ev);
                // Keys stay plain: whatever groups remain came from before
                // the call.
                assert forall|x: int| 0 <= x < groups@.len() implies (
                #[trigger] groups@[x]).0 is Some by {
                    assert(g_pre.contains(groups@[x]));
                    let y = choose|y: int| 0 <= y < g_pre.len() && g_pre[y] == groups@[x];
                    assert(g_pre[y].0 is Some);
                }
                // The drained items all sit under the taken key, which is
                // not the root key, so the root slice is unchanged.
                assert(k is Some);
                assert forall|j: int| 0 <= j < ev.len() implies !pnone(#[trigger] ev[j]) by {
                    assert(item_parent(ev[j]) == k);
                }
                lemma_keep_none_items(ev, pnone);
                lemma_keep_concat_items(out0, ev, pnone);
                assert(keep(out@, pnone) =~= roots_items);
                assert forall|j: int| 0 <= j < out@.len() implies item_linked(
                    #[trigger] out@[j],
                ) by {
                    if j < out0.len() {
                        assert(out@[j] == out0[j]);
                    } else {
                        assert(out@[j] == ev[j - out0.len()]);
                        assert(item_wf(ev[j - out0.len()], k));
                    }
                }
                // Conservation carries across the append.
                lemma_forest_concat(out0, ev);
                assert(groups_folders(g_pre) == forest_folders(ev).add(
                    groups_folders(groups@),
                ));
                assert(groups_notes(g_pre) == forest_notes(ev).add(groups_notes(groups@)));
                assert(forest_folders(out@).add(groups_folders(groups@)) =~= all_f.to_multiset()) by {
                    assert forall|x: FolderV|
                        forest_folders(out@).add(groups_folders(groups@)).count(x)
                        == all_f.to_multiset().count(x) by {
                        assert(forest_folders(out@).count(x) == forest_folders(out0).add(
                            forest_folders(ev),
                        ).count(x));
                        assert(forest_folders(out0).add(groups_folders(g_pre)).count(x)
                            == all_f.to_multiset().count(x));
                        assert(forest_folders(ev).add(groups_folders(groups@)).count(x)
                            == groups_folders(g_pre).count(x));
                    }
                }
                assert(forest_notes(out@).add(groups_notes(groups@)) =~= sv.to_multiset()) by {
                    assert forall|x: NoteV|
                        forest_notes(out@).add(groups_notes(groups@)).count(x)
                        == sv.to_multiset().count(x) by {
                        assert(forest_notes(out@).count(x) == forest_notes(out0).add(
                            forest_notes(ev),
                        ).count(x));
                        assert(forest_notes(out0).add(groups_notes(g_pre)).count(x)
                            == sv.to_multiset().count(x));
                        assert(forest_notes(ev).add(groups_notes(groups@)).count(x)
                            == groups_notes(g_pre).count(x));
                    }
                }
            }
        }
        proof {
            // Everything was attached: the groups are spent, so the forest
            // holds exactly the rows.
            assert(groups_folders(groups@) =~= Multiset::<FolderV>::empty());
            assert(groups_notes(groups@) =~= Multiset::<NoteV>::empty());
            assert(forest_folders(out@) =~= self@.folders.to_multiset()) by {
                assert forall|x: FolderV| forest_folders(out@).count(x)
                    == self@.folders.to_multiset().count(x) by {
                    assert(forest_folders(out@).add(groups_folders(groups@)).count(x)
                        == all_f.to_multiset().count(x));
                }
            }
            assert(forest_notes(out@) =~= self@.notes.to_multiset()) by {
                assert forall|x: NoteV| forest_notes(out@).count(x)
                    == self@.notes.to_multiset().count(x) by {
                    assert(forest_notes(out@).add(groups_notes(groups@)).count(x)
                        == sv.to_multiset().count(x));
                    assert(sv.to_multiset() == self@.notes.to_multiset());
                }
            }
            // The permutation from sorting does not change which rows are
            // parentless.
            let ghost ks = keep(sv, |n: NoteV| n.parent_id is None).to_multiset();
            let ghost kn = keep(self@.notes, |n: NoteV| n.parent_id is None).to_multiset();
            assert(ks =~= kn) by {
                assert forall|x: NoteV| #[trigger] ks.count(x) == kn.count(x) by {
                    lemma_keep_count(sv, |n: NoteV| n.parent_id is None, x);
                    lemma_keep_count(self@.notes, |n: NoteV| n.parent_id is None, x);
                }
            }
            assert(keep(out@, |it: FileItem| item_parent(it) is None) == roots_items);
            assert(top_folders(roots_items) == roots_f);
            assert(top_notes(roots_items) == roots_n);
        }
        out
    }
}

fn find_group_idx(groups: &Vec<(Option<i64>, Vec<FileItem>)>, parent: Option<i64>) -> (r:
    Option<usize>)
    ensures
        match r {
            Some(i) => i < groups@.len() && groups@[i as int].0 == parent,
            None => forall|i: int| 0 <= i < groups@.len() ==> (#[trigger] groups@[i]).0
                != parent,
        },
{
    let mut i: usize = 0;
    while i < groups.len()
        invariant
            i <= groups@.len(),
            forall|j: int| 0 <= j < i ==> (#[trigger] groups@[j]).0 != parent,
        decreases groups@.len() - i,
    {
        if opt_id_eq(groups[i].0, parent) {
            return Some(i);
        }
        i = i + 1;
    }
    None
}

fn push_into_group(
    groups: &mut Vec<(Option<i64>, Vec<FileItem>)>,
    parent: Option<i64>,
    item: FileItem,
)
    requires
        groups_wf(old(groups)@),
        groups_flat(old(groups)@),
        groups_keyed(old(groups)@),
        item_parent(item) == parent,
        item_flat(item),
    ensures
        groups_wf(final(groups)@),
        groups_flat(final(groups)@),
        groups_keyed(final(groups)@),
        groups_folders(final(groups)@) == groups_folders(old(groups)@).add(
            top_item_folders(item),
        ),
        groups_notes(final(groups)@) == groups_notes(old(groups)@).add(top_item_notes(item)),
        group_items_at(final(groups)@, None) == if parent is None {
            group_items_at(old(groups)@, None).push(item)
        } else {
            group_items_at(old(groups)@, None)
        },
{
    broadcast use vstd::multiset::group_multiset_axioms;

    let ghost item_v = item;
    proof {
        lemma_flat_item_contents(item_v);
    }
    match find_group_idx(groups, parent) {
        Some(i) => {
            let ghost g0 = groups@;
            groups[i].1.push(item);
            proof {
                let g2 = groups@[i as int];
                assert(groups@ =~= g0.update(i as int, g2));
                assert(g2.0 == parent);
                assert(g2.1@ =~= g0[i as int].1@.push(item_v));
                assert(forest_folders(g2.1@) =~= forest_folders(g0[i as int].1@).add(
                    item_folders(item_v),
                )) by {
                    assert(g2.1@.drop_last() =~= g0[i as int].1@);
                    assert(g2.1@.last() == item_v);
                }
                assert(forest_notes(g2.1@) =~= forest_notes(g0[i as int].1@).add(
                    item_notes(item_v),
                )) by {
                    assert(g2.1@.drop_last() =~= g0[i as int].1@);
                    assert(g2.1@.last() == item_v);
                }
                lemma_groups_update(g0, i as int, g2);
                assert(groups_folders(groups@) =~= groups_folders(g0).add(
                    top_item_folders(item_v),
                )) by {
                    assert forall|v: FolderV| groups_folders(groups@).count(v)
                        == groups_folders(g0).add(top_item_folders(item_v)).count(v) by {
                        assert(groups_folders(g0.update(i as int, g2)).add(forest_folders(
                            g0[i as int].1@,
                        )).count(v) == groups_folders(g0).add(forest_folders(
                            g2.1@,
                        )).count(v));
                        assert(forest_folders(g2.1@).count(v) == forest_folders(
                            g0[i as int].1@,
                        ).add(item_folders(item_v)).count(v));
                        assert(forest_folders(g0[i as int].1@).add(item_folders(
                            item_v,
                        )).count(v) == forest_folders(g0[i as int].1@).count(v)
                            + item_folders(item_v).count(v));
                        assert(item_folders(item_v).count(v) == top_item_folders(
                            item_v,
                        ).count(v));
                    }
                }
                assert(groups_notes(groups@) =~= groups_notes(g0).add(
                    top_item_notes(item_v),
                )) by {
                    assert forall|v: NoteV| groups_notes(groups@).count(v) == groups_notes(
                        g0,
                    ).add(top_item_notes(item_v)).count(v) by {
                        assert(groups_notes(g0.update(i as int, g2)).add(forest_notes(
                            g0[i as int].1@,
                        )).count(v) == groups_notes(g0).add(forest_notes(g2.1@)).count(v));
                        assert(forest_notes(g2.1@).count(v) == forest_notes(
                            g0[i as int].1@,
                        ).add(item_notes(item_v)).count(v));
                        assert(forest_notes(g0[i as int].1@).add(item_notes(item_v)).count(
                            v,
                        ) == forest_notes(g0[i as int].1@).count(v) + item_notes(
                            item_v,
                        ).count(v));
                        assert(item_notes(item_v).count(v) == top_item_notes(item_v).count(
                            v,
                        ));
                    }
                }
                lemma_find_key_update(g0, i as int, g2, None);
                lemma_find_key_range(g0, None);
                if parent is None {
                    assert(find_key(g0, None) >= 0) by {
                        assert(g0[i as int].0 == parent);
                    }
                    assert(g0[find_key(g0, None)].0 == parent);
                    assert(find_key(g0, None) == i as int) by {
                        if find_key(g0, None) != i as int {
                            assert(groups_keyed(g0));
                        }
                    }
                    assert(group_items_at(groups@, None) =~= group_items_at(g0, None).push(
                        item_v,
                    ));
                } else {
                    if find_key(g0, None) >= 0 {
                        assert(g0[find_key(g0, None)].0 is None);
                        assert(find_key(g0, None) != i as int);
                        assert(group_items_at(groups@, None) == groups@[find_key(
                            g0,
                            None,
                        )].1@);
                        assert(groups@[find_key(g0, None)] == g0[find_key(g0, None)]);
                    }
                }
                assert forall|a: int, b: int|
                    0 <= a < groups@.len() && 0 <= b < groups@[a].1@.len() implies item_parent(
                    #[trigger] groups@[a].1@[b],
                ) == groups@[a].0 by {
                    if a == i as int {
                        assert(groups@[a].0 == g0[a].0);
                        if b < g0[a].1@.len() {
                            assert(groups@[a].1@[b] == g0[a].1@[b]);
                        } else {
                            assert(groups@[a].1@[b] == item_v);
                        }
                    } else {
                        assert(groups@[a] == g0[a]);
                    }
                }
                assert forall|a: int| 0 <= a < groups@.len() implies flat_items(
                    (#[trigger] groups@[a]).1@,
                ) by {
                    if a == i as int {
                        assert forall|b: int| 0 <= b < groups@[a].1@.len() implies item_flat(
                            #[trigger] groups@[a].1@[b],
                        ) by {
                            if b < g0[a].1@.len() {
                                assert(groups@[a].1@[b] == g0[a].1@[b]);
                                assert(flat_items(g0[a].1@));
                            } else {
                                assert(groups@[a].1@[b] == item_v);
                            }
                        }
                    } else {
                        assert(groups@[a] == g0[a]);
                    }
                }
                assert forall|a: int, b: int|
                    0 <= a < b < groups@.len() implies groups@[a].0 != groups@[b].0 by {
                    assert(groups@[a].0 == g0[a].0);
                    assert(groups@[b].0 == g0[b].0);
                }
            }
        },
        None => {
            let mut fresh: Vec<FileItem> = Vec::new();
            fresh.push(item);
            let ghost g0 = groups@;
            let g = (parent, fresh);
            let ghost gv = g;
            groups.push(g);
            proof {
                assert(groups@ =~= g0.push(gv));
                assert(gv.1@ =~= seq![item_v]);
                assert(forest_folders(gv.1@) =~= item_folders(item_v)) by {
                    assert(gv.1@.drop_last() =~= Seq::<FileItem>::empty());
                    assert(gv.1@.last() == item_v);
                    assert(forest_folders(Seq::<FileItem>::empty()) =~= Multiset::<
                        FolderV,
                    >::empty());
                }
                assert(forest_notes(gv.1@) =~= item_notes(item_v)) by {
                    assert(gv.1@.drop_last() =~= Seq::<FileItem>::empty());
                    assert(gv.1@.last() == item_v);
                    assert(forest_notes(Seq::<FileItem>::empty()) =~= Multiset::<
                        NoteV,
                    >::empty());
                    assert forall|v: NoteV| forest_notes(gv.1@).count(v) == item_notes(
                        item_v,
                    ).count(v) by {
                        assert(forest_notes(Seq::<FileItem>::empty()).add(item_notes(
                            item_v,
                        )).count(v) == forest_notes(Seq::<FileItem>::empty()).count(v)
                            + item_notes(item_v).count(v));
                    }
                }
                assert(groups_folders(groups@) =~= groups_folders(g0).add(
                    top_item_folders(item_v),
                )) by {
                    assert(groups@.drop_last() =~= g0);
                    assert(groups@.last() == gv);
                    assert(groups_folders(groups@) == groups_folders(
                        groups@.drop_last(),
                    ).add(forest_folders(groups@.last().1@)));
                    assert forall|v: FolderV| groups_folders(groups@).count(v)
                        == groups_folders(g0).add(top_item_folders(item_v)).count(v) by {
                        assert(groups_folders(g0).add(forest_folders(gv.1@)).count(v)
                            == groups_folders(g0).count(v) + forest_folders(gv.1@).count(
                            v,
                        ));
                        assert(forest_folders(gv.1@).count(v) == item_folders(item_v).count(
                            v,
                        ));
                        assert(item_folders(item_v).count(v) == top_item_folders(
                            item_v,
                        ).count(v));
                    }
                }
                assert(groups_notes(groups@) =~= groups_notes(g0).add(
                    top_item_notes(item_v),
                )) by {
                    assert(groups@.drop_last() =~= g0);
                    assert(groups@.last() == gv);
                    assert(groups_notes(groups@) == groups_notes(groups@.drop_last()).add(
                        forest_notes(groups@.last().1@),
                    ));
                    assert forall|v: NoteV| groups_notes(groups@).count(v) == groups_notes(
                        g0,
                    ).add(top_item_notes(item_v)).count(v) by {
                        assert(groups_notes(g0).add(forest_notes(gv.1@)).count(v)
                            == groups_notes(g0).count(v) + forest_notes(gv.1@).count(v));
                        assert(forest_notes(gv.1@).count(v) == item_notes(item_v).count(v));
                        assert(item_notes(item_v).count(v) == top_item_notes(item_v).count(
                            v,
                        ));
                    }
                }
                lemma_find_key_push(g0, gv, None);
                lemma_find_key_range(g0, None);
                lemma_find_key_range(groups@, None);
                if parent is None {
                    assert(find_key(g0, None) == -1) by {
                        if find_key(g0, None) >= 0 {
                            assert(g0[find_key(g0, None)].0 is None);
                        }
                    }
                    assert(find_key(groups@, None) == g0.len());
                    assert(group_items_at(groups@, None) == gv.1@);
                    assert(group_items_at(g0, None) =~= Seq::<FileItem>::empty());
                    assert(group_items_at(groups@, None) =~= group_items_at(g0, None).push(
                        item_v,
                    ));
                } else {
                    assert(find_key(groups@, None) == find_key(g0, None));
                    if find_key(g0, None) >= 0 {
                        assert(groups@[find_key(g0, None)] == g0[find_key(g0, None)]);
                    }
                }
                assert forall|a: int, b: int|
                    0 <= a < groups@.len() && 0 <= b < groups@[a].1@.len() implies item_parent(
                    #[trigger] groups@[a].1@[b],
                ) == groups@[a].0 by {
                    if a < g0.len() {
                        assert(groups@[a] == g0[a]);
                    } else {
                        assert(groups@[a].1@[b] == item_v);
                    }
                }
                assert forall|a: int| 0 <= a < groups@.len() implies flat_items(
                    (#[trigger] groups@[a]).1@,
                ) by {
                    if a < g0.len() {
                        assert(groups@[a] == g0[a]);
                    } else {
                        assert forall|b: int| 0 <= b < groups@[a].1@.len() implies item_flat(
                            #[trigger] groups@[a].1@[b],
                        ) by {
                            assert(groups@[a].1@[b] == item_v);
                        }
                    }
                }
                assert forall|a: int, b: int|
                    0 <= a < b < groups@.len() implies groups@[a].0 != groups@[b].0 by {
                    if b < g0.len() {
                        assert(groups@[a] == g0[a]);
                        assert(groups@[b] == g0[b]);
                    } else {
                        assert(groups@[a] == g0[a]);
                        assert(groups@[b].0 == parent);
                    }
                }
            }
        },
    }
}

} // verus!
