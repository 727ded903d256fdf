//! Proofs of the structural laws of the entry tree: lookup against id
//! membership, what deletion removes and preserves, and what insertion and
//! reordering leave intact.
use vstd::prelude::*;
use crate::tree::TreeV;
use crate::state::spec_move;

verus! {

/// Membership in a concatenation is membership in either part.
pub proof fn lemma_contains_concat(a: Seq<usize>, b: Seq<usize>, x: usize)
    ensures
        (a + b).contains(x) <==> (a.contains(x) || b.contains(x)),
{
    if a.contains(x) {
        let i = choose|i: int| 0 <= i < a.len() && a[i] == x;
        assert((a + b)[i] == x);
    }
    if b.contains(x) {
        let i = choose|i: int| 0 <= i < b.len() && b[i] == x;
        assert((a + b)[a.len() + i] == x);
    }
    if (a + b).contains(x) {
        let i = choose|i: int| 0 <= i < (a + b).len() && (a + b)[i] == x;
        if i < a.len() {
            assert(a[i] == x);
        } else {
            assert(b[i - a.len()] == x);
        }
    }
}

/// A duplicate-free concatenation has duplicate-free, disjoint parts.
pub proof fn lemma_no_dup_split(a: Seq<usize>, b: Seq<usize>)
    requires
        (a + b).no_duplicates(),
    ensures
        a.no_duplicates(),
        b.no_duplicates(),
        forall|x: usize| !(a.contains(x) && #[trigger] b.contains(x)),
{
    assert forall|i: int, j: int|
        0 <= i < a.len() && 0 <= j < a.len() && i != j implies a[i] != a[j] by {
        assert((a + b)[i] == a[i]);
        assert((a + b)[j] == a[j]);
    }
    assert forall|i: int, j: int|
        0 <= i < b.len() && 0 <= j < b.len() && i != j implies b[i] != b[j] by {
        assert((a + b)[a.len() + i] == b[i]);
        assert((a + b)[a.len() + j] == b[j]);
    }
    assert forall|x: usize| !(a.contains(x) && #[trigger] b.contains(x)) by {
        if a.contains(x) && b.contains(x) {
            let i = choose|i: int| 0 <= i < a.len() && a[i] == x;
            let j = choose|j: int| 0 <= j < b.len() && b[j] == x;
            assert((a + b)[i] == x);
            assert((a + b)[a.len() + j] == x);
        }
    }
}

/// The converse: duplicate-free disjoint parts concatenate duplicate-free.
pub proof fn lemma_no_dup_join(a: Seq<usize>, b: Seq<usize>)
    requires
        a.no_duplicates(),
        b.no_duplicates(),
        forall|x: usize| !(a.contains(x) && #[trigger] b.contains(x)),
    ensures
        (a + b).no_duplicates(),
{
    assert forall|i: int, j: int|
        0 <= i < (a + b).len() && 0 <= j < (a + b).len() && i != j implies (a + b)[i] != (a
        + b)[j] by {
        if i < a.len() && j < a.len() {
        } else if i >= a.len() && j >= a.len() {
            assert((a + b)[i] == b[i - a.len()]);
            assert((a + b)[j] == b[j - a.len()]);
        } else if i < a.len() && j >= a.len() {
            assert(a.contains(a[i]));
            assert((a + b)[j] == b[j - a.len()]);
            if a[i] == b[j - a.len()] {
                assert(b.contains(a[i]));
            }
        } else {
            assert(a.contains(a[j]));
            assert((a + b)[i] == b[i - a.len()]);
            if a[j] == b[i - a.len()] {
                assert(b.contains(a[j]));
            }
        }
    }
}

/// Lookup succeeds exactly for the identifiers present in the subtree.
pub proof fn lemma_find_contains(t: TreeV, id: usize)
    ensures
        (t.find(id) is Some) <==> t.ids().contains(id),
    decreases t,
{
    match t {
        TreeV::Task { id: tid, .. } => {
            if tid == id {
                assert(t.ids()[0] == id);
            } else {
                assert(forall|i: int| 0 <= i < t.ids().len() ==> t.ids()[i] == tid);
            }
        },
        TreeV::Folder { id: fid, entries, .. } => {
            if fid == id {
                assert(t.ids()[0] == id);
            } else {
                lemma_find_contains_seq(entries, id);
                lemma_contains_concat(seq![fid], TreeV::ids_seq(entries), id);
                assert(seq![fid].contains(id) ==> seq![fid][0] == id || fid == id);
            }
        },
    }
}

pub proof fn lemma_find_contains_seq(es: Seq<TreeV>, id: usize)
    ensures
        (TreeV::find_seq(es, id) is Some) <==> TreeV::ids_seq(es).contains(id),
    decreases es,
{
    if es.len() > 0 {
        lemma_find_contains(es[0], id);
        lemma_find_contains_seq(es.drop_first(), id);
        lemma_contains_concat(es[0].ids(), TreeV::ids_seq(es.drop_first()), id);
    }
}

/// What lookup returns is a subtree: its identifiers all occur in the tree.
pub proof fn lemma_find_subtree_ids(t: TreeV, id: usize)
    ensures
        t.find(id) matches Some(e) ==> forall|x: usize|
            e.ids().contains(x) ==> #[trigger] t.ids().contains(x),
    decreases t,
{
    match t {
        TreeV::Task { .. } => {},
        TreeV::Folder { id: fid, entries, .. } => {
            if fid != id {
                lemma_find_subtree_ids_seq(entries, id);
                match TreeV::find_seq(entries, id) {
                    Some(e) => {
                        assert forall|x: usize| e.ids().contains(x) implies #[trigger] t.ids()
                            .contains(x) by {
                            lemma_contains_concat(seq![fid], TreeV::ids_seq(entries), x);
                        }
                    },
                    None => {},
                }
            }
        },
    }
}

pub proof fn lemma_find_subtree_ids_seq(es: Seq<TreeV>, id: usize)
    ensures
        TreeV::find_seq(es, id) matches Some(e) ==> forall|x: usize|
            e.ids().contains(x) ==> #[trigger] TreeV::ids_seq(es).contains(x),
    decreases es,
{
    if es.len() > 0 {
        lemma_find_subtree_ids(es[0], id);
        lemma_find_subtree_ids_seq(es.drop_first(), id);
        match TreeV::find_seq(es, id) {
            Some(e) => {
                assert forall|x: usize| e.ids().contains(x) implies #[trigger] TreeV::ids_seq(
                    es,
                ).contains(x) by {
                    lemma_contains_concat(es[0].ids(), TreeV::ids_seq(es.drop_first()), x);
                }
            },
            None => {},
        }
    }
}

/// Deletion only removes: every surviving id was present before; the deleted
/// id itself is gone; distinctness and parent consistency carry over.
pub proof fn lemma_delete_ids(t: TreeV, id: usize)
    ensures
        forall|x: usize| #[trigger]
            t.delete(id).ids().contains(x) ==> t.ids().contains(x) && (x != id || x == t.id()),
        t.ids().no_duplicates() ==> t.delete(id).ids().no_duplicates(),
        t.delete(id).id() == t.id(),
        t.delete(id) is Folder <==> t is Folder,
    decreases t,
{
    match t {
        TreeV::Task { .. } => {},
        TreeV::Folder { id: fid, entries, .. } => {
            lemma_delete_ids_seq(entries, id);
            let dv = TreeV::delete_from(entries, id);
            assert forall|x: usize| #[trigger]
                t.delete(id).ids().contains(x) implies t.ids().contains(x) && (x != id || x
                == t.id()) by {
                lemma_contains_concat(seq![fid], TreeV::ids_seq(dv), x);
                lemma_contains_concat(seq![fid], TreeV::ids_seq(entries), x);
                if TreeV::ids_seq(dv).contains(x) {
                    assert(TreeV::ids_seq(entries).contains(x) && x != id);
                } else {
                    assert(seq![fid].contains(x) ==> x == fid);
                }
            }
            if t.ids().no_duplicates() {
                lemma_no_dup_split(seq![fid], TreeV::ids_seq(entries));
                lemma_no_dup_join(seq![fid], TreeV::ids_seq(dv));
            }
        },
    }
}

pub proof fn lemma_delete_ids_seq(es: Seq<TreeV>, id: usize)
    ensures
        forall|x: usize| #[trigger]
            TreeV::ids_seq(TreeV::delete_from(es, id)).contains(x) ==> TreeV::ids_seq(es).contains(
                x,
            ) && x != id,
        TreeV::ids_seq(es).no_duplicates() ==> TreeV::ids_seq(
            TreeV::delete_from(es, id),
        ).no_duplicates(),
    decreases es,
{
    if es.len() > 0 {
        lemma_delete_ids(es[0], id);
        lemma_delete_ids_seq(es.drop_first(), id);
        let rest = TreeV::delete_from(es.drop_first(), id);
        if es[0].id() == id {
            assert(TreeV::delete_from(es, id) == rest);
            assert forall|x: usize| #[trigger]
                TreeV::ids_seq(rest).contains(x) implies TreeV::ids_seq(es).contains(x) && x
                != id by {
                lemma_contains_concat(es[0].ids(), TreeV::ids_seq(es.drop_first()), x);
            }
            if TreeV::ids_seq(es).no_duplicates() {
                lemma_no_dup_split(es[0].ids(), TreeV::ids_seq(es.drop_first()));
            }
        } else {
            let h = es[0].delete(id);
            assert(TreeV::delete_from(es, id) == seq![h] + rest);
            assert((seq![h] + rest)[0] == h);
            assert((seq![h] + rest).drop_first() =~= rest);
            assert(TreeV::ids_seq(seq![h] + rest) == h.ids() + TreeV::ids_seq(rest));
            assert forall|x: usize| #[trigger]
                TreeV::ids_seq(TreeV::delete_from(es, id)).contains(x) implies TreeV::ids_seq(
                es,
            ).contains(x) && x != id by {
                lemma_contains_concat(h.ids(), TreeV::ids_seq(rest), x);
                lemma_contains_concat(es[0].ids(), TreeV::ids_seq(es.drop_first()), x);
            }
            if TreeV::ids_seq(es).no_duplicates() {
                lemma_no_dup_split(es[0].ids(), TreeV::ids_seq(es.drop_first()));
                assert forall|x: usize|
                    !(h.ids().contains(x) && #[trigger] TreeV::ids_seq(rest).contains(x)) by {
                    if h.ids().contains(x) {
                        assert(es[0].ids().contains(x));
                    }
                    if TreeV::ids_seq(rest).contains(x) {
                        assert(TreeV::ids_seq(es.drop_first()).contains(x));
                    }
                }
                lemma_no_dup_join(h.ids(), TreeV::ids_seq(rest));
            }
        }
    }
}

/// Deleting an id that does not occur changes nothing.
pub proof fn lemma_delete_absent(t: TreeV, id: usize)
    requires
        !t.ids().contains(id),
    ensures
        t.delete(id) == t,
    decreases t,
{
    match t {
        TreeV::Task { .. } => {},
        TreeV::Folder { id: fid, entries, .. } => {
            assert forall|x: usize| TreeV::ids_seq(entries).contains(x) implies #[trigger] t.ids().contains(x) by {
                lemma_contains_concat(seq![fid], TreeV::ids_seq(entries), x);
            }
            lemma_delete_absent_seq(entries, id);
            assert(t.delete(id) =~= t);
        },
    }
}

pub proof fn lemma_delete_absent_seq(es: Seq<TreeV>, id: usize)
    requires
        !TreeV::ids_seq(es).contains(id),
    ensures
        TreeV::delete_from(es, id) == es,
    decreases es,
{
    if es.len() > 0 {
        assert(es[0].ids()[0] == es[0].id());
        lemma_contains_concat(es[0].ids(), TreeV::ids_seq(es.drop_first()), id);
        assert(!es[0].ids().contains(id));
        assert(es[0].id() != id);
        lemma_delete_absent(es[0], id);
        lemma_delete_absent_seq(es.drop_first(), id);
        assert(TreeV::delete_from(es, id) =~= es);
    }
}

/// Subtree ids distribute over concatenation of sibling sequences.
pub proof fn lemma_ids_seq_concat(a: Seq<TreeV>, b: Seq<TreeV>)
    ensures
        TreeV::ids_seq(a + b) == TreeV::ids_seq(a) + TreeV::ids_seq(b),
    decreases a,
{
    if a.len() == 0 {
        assert(a + b =~= b);
        assert(TreeV::ids_seq(a) + TreeV::ids_seq(b) =~= TreeV::ids_seq(b));
    } else {
        lemma_ids_seq_concat(a.drop_first(), b);
        assert((a + b).drop_first() =~= a.drop_first() + b);
        assert((a + b)[0] == a[0]);
        assert(a[0].ids() + (TreeV::ids_seq(a.drop_first()) + TreeV::ids_seq(b)) =~= (a[0].ids()
            + TreeV::ids_seq(a.drop_first())) + TreeV::ids_seq(b));
    }
}

/// Parent consistency also distributes over concatenation.
pub proof fn lemma_parent_ok_seq_concat(pid: usize, a: Seq<TreeV>, b: Seq<TreeV>)
    ensures
        TreeV::parent_ok_seq(pid, a + b) == (TreeV::parent_ok_seq(pid, a) && TreeV::parent_ok_seq(
            pid,
            b,
        )),
    decreases a,
{
    if a.len() == 0 {
        assert(a + b =~= b);
    } else {
        lemma_parent_ok_seq_concat(pid, a.drop_first(), b);
        assert((a + b).drop_first() =~= a.drop_first() + b);
        assert((a + b)[0] == a[0]);
    }
}

/// Deletion preserves parent consistency.
pub proof fn lemma_delete_parent_ok(t: TreeV, id: usize)
    ensures
        t.parent_ok() ==> t.delete(id).parent_ok(),
        forall|p: usize| #[trigger]
            t.delete(id).child_parent_ok(p) == t.child_parent_ok(p),
    decreases t,
{
    match t {
        TreeV::Task { .. } => {},
        TreeV::Folder { id: fid, entries, .. } => {
            lemma_delete_parent_ok_seq(fid, entries, id);
        },
    }
}

pub proof fn lemma_delete_parent_ok_seq(pid: usize, es: Seq<TreeV>, id: usize)
    ensures
        TreeV::parent_ok_seq(pid, es) ==> TreeV::parent_ok_seq(pid, TreeV::delete_from(es, id)),
    decreases es,
{
    if es.len() > 0 {
        lemma_delete_parent_ok(es[0], id);
        lemma_delete_parent_ok_seq(pid, es.drop_first(), id);
        let rest = TreeV::delete_from(es.drop_first(), id);
        if es[0].id() != id {
            let h = es[0].delete(id);
            assert((seq![h] + rest)[0] == h);
            assert((seq![h] + rest).drop_first() =~= rest);
        }
    }
}

/// How many direct children of a sequence carry a given id.
pub open spec fn count_matching(es: Seq<TreeV>, id: usize) -> nat
    decreases es,
{
    if es.len() == 0 {
        0
    } else {
        (if es[0].id() == id {
            1nat
        } else {
            0nat
        }) + count_matching(es.drop_first(), id)
    }
}

/// Deletion shortens a sibling sequence by exactly the number of direct
/// matches.
pub proof fn lemma_delete_from_len(es: Seq<TreeV>, id: usize)
    ensures
        count_matching(es, id) <= es.len(),
        TreeV::delete_from(es, id).len() == es.len() - count_matching(es, id),
    decreases es,
{
    if es.len() > 0 {
        lemma_delete_from_len(es.drop_first(), id);
        if es[0].id() != id {
            let h = es[0].delete(id);
            let rest = TreeV::delete_from(es.drop_first(), id);
            assert((seq![h] + rest).len() == 1 + rest.len());
        }
    }
}

/// Positioned insertion fails where no entry carries the target id.
pub proof fn lemma_insert_no_target(t: TreeV, fid: usize, pos: usize, c: TreeV)
    requires
        !t.ids().contains(fid),
    ensures
        !t.insert_child_at(fid, pos, c).1,
        t.insert_child_at(fid, pos, c).0 == t,
    decreases t,
{
    match t {
        TreeV::Task { .. } => {},
        TreeV::Folder { id: i, entries, .. } => {
            assert(t.ids()[0] == i);
            assert forall|x: usize| TreeV::ids_seq(entries).contains(x) implies #[trigger] t.ids()
                .contains(x) by {
                lemma_contains_concat(seq![i], TreeV::ids_seq(entries), x);
            }
            lemma_insert_no_target_seq(entries, fid, pos, c);
            assert(t.insert_child_at(fid, pos, c).0 =~= t);
        },
    }
}

pub proof fn lemma_insert_no_target_seq(es: Seq<TreeV>, fid: usize, pos: usize, c: TreeV)
    requires
        !TreeV::ids_seq(es).contains(fid),
    ensures
        !TreeV::insert_child_at_seq(es, fid, pos, c).1,
        TreeV::insert_child_at_seq(es, fid, pos, c).0 == es,
    decreases es,
{
    if es.len() > 0 {
        lemma_contains_concat(es[0].ids(), TreeV::ids_seq(es.drop_first()), fid);
        lemma_insert_no_target(es[0], fid, pos, c);
        lemma_insert_no_target_seq(es.drop_first(), fid, pos, c);
        assert(TreeV::insert_child_at_seq(es, fid, pos, c).0 =~= es);
    }
}

/// Positioned insertion succeeds when lookup resolves the target to a
/// folder whose length admits the position.
pub proof fn lemma_insert_target_found(t: TreeV, fid: usize, pos: usize, c: TreeV)
    requires
        t.find(fid) matches Some(f) && f is Folder && pos <= f->entries.len(),
    ensures
        t.insert_child_at(fid, pos, c).1,
    decreases t,
{
    match t {
        TreeV::Task { .. } => {},
        TreeV::Folder { id: i, entries, .. } => {
            if i != fid {
                lemma_insert_target_found_seq(entries, fid, pos, c);
            }
        },
    }
}

pub proof fn lemma_insert_target_found_seq(es: Seq<TreeV>, fid: usize, pos: usize, c: TreeV)
    requires
        TreeV::find_seq(es, fid) matches Some(f) && f is Folder && pos <= f->entries.len(),
    ensures
        TreeV::insert_child_at_seq(es, fid, pos, c).1,
    decreases es,
{
    if es.len() > 0 {
        match es[0].find(fid) {
            Some(f0) => {
                lemma_insert_target_found(es[0], fid, pos, c);
            },
            None => {
                lemma_find_contains(es[0], fid);
                lemma_insert_no_target(es[0], fid, pos, c);
                lemma_insert_target_found_seq(es.drop_first(), fid, pos, c);
            },
        }
    }
}

/// Deletion of one id leaves lookup of a different id pointing at the same
/// folder, itself with the deletion applied, provided the looked-up id does
/// not sit inside the deleted subtree.
pub proof fn lemma_delete_find(t: TreeV, item: usize, fid: usize)
    requires
        t.ids().no_duplicates(),
        fid != item,
        t.find(fid) is Some,
        match t.find(item) {
            Some(e) => !e.ids().contains(fid),
            None => true,
        },
    ensures
        match t.find(fid) {
            Some(f) => t.delete(item).find(fid) == Some(f.delete(item)),
            None => true,
        },
    decreases t,
{
    match t {
        TreeV::Task { .. } => {},
        TreeV::Folder { id: i, entries, .. } => {
            lemma_no_dup_split(seq![i], TreeV::ids_seq(entries));
            if i == fid {
            } else {
                if i == item {
                    lemma_find_contains(t, fid);
                    assert(t.ids().contains(fid));
                    assert(false);
                }
                lemma_delete_find_seq(entries, item, fid);
            }
        },
    }
}

pub proof fn lemma_delete_find_seq(es: Seq<TreeV>, item: usize, fid: usize)
    requires
        TreeV::ids_seq(es).no_duplicates(),
        fid != item,
        TreeV::find_seq(es, fid) is Some,
        match TreeV::find_seq(es, item) {
            Some(e) => !e.ids().contains(fid),
            None => true,
        },
    ensures
        match TreeV::find_seq(es, fid) {
            Some(f) => TreeV::find_seq(TreeV::delete_from(es, item), fid) == Some(f.delete(item)),
            None => true,
        },
    decreases es,
{
    if es.len() == 0 {
        return ;
    }
    let rest = es.drop_first();
    lemma_no_dup_split(es[0].ids(), TreeV::ids_seq(rest));
    assert(es[0].ids()[0] == es[0].id());
    let drest = TreeV::delete_from(rest, item);
    match es[0].find(fid) {
        Some(f) => {
            if es[0].id() == item {
                lemma_find_contains(es[0], fid);
                assert(es[0].ids().contains(fid));
                assert(false);
            } else {
                lemma_delete_find(es[0], item, fid);
                let h = es[0].delete(item);
                assert(TreeV::delete_from(es, item) == seq![h] + drest);
                assert((seq![h] + drest)[0] == h);
                assert((seq![h] + drest).drop_first() =~= drest);
            }
        },
        None => {
            lemma_find_contains(es[0], fid);
            if es[0].id() == item {
                assert(es[0].ids().contains(item));
                lemma_find_contains_seq(rest, item);
                assert(TreeV::find_seq(rest, item) is None);
                lemma_delete_find_seq(rest, item, fid);
                assert(TreeV::delete_from(es, item) == drest);
            } else {
                let h = es[0].delete(item);
                lemma_delete_ids(es[0], item);
                lemma_find_contains(h, fid);
                assert(h.find(fid) is None);
                match TreeV::find_seq(rest, item) {
                    Some(e2) => {
                        lemma_find_contains_seq(rest, item);
                        lemma_find_contains(es[0], item);
                        if es[0].find(item) is Some {
                            assert(es[0].ids().contains(item));
                            assert(TreeV::ids_seq(rest).contains(item));
                            assert(false);
                        }
                        assert(TreeV::find_seq(es, item) == Some(e2));
                    },
                    None => {},
                }
                lemma_delete_find_seq(rest, item, fid);
                assert(TreeV::delete_from(es, item) == seq![h] + drest);
                assert((seq![h] + drest)[0] == h);
                assert((seq![h] + drest).drop_first() =~= drest);
            }
        },
    }
}

/// Deleting an entry removes its whole subtree: afterwards none of the
/// subtree's ids occurs anywhere in the remaining siblings.
pub proof fn lemma_delete_completeness(t: TreeV, item: usize)
    requires
        t.ids().no_duplicates(),
        t.id() != item,
    ensures
        match t.find(item) {
            Some(e) => forall|x: usize|
                e.ids().contains(x) ==> !(#[trigger] t.delete(item).ids().contains(x)),
            None => true,
        },
    decreases t,
{
    match t {
        TreeV::Task { .. } => {},
        TreeV::Folder { id: i, entries, .. } => {
            lemma_no_dup_split(seq![i], TreeV::ids_seq(entries));
            match t.find(item) {
                Some(e) => {
                    lemma_delete_completeness_seq(entries, item);
                    lemma_find_subtree_ids_seq(entries, item);
                    assert forall|x: usize| e.ids().contains(x) implies !(#[trigger] t.delete(
                        item,
                    ).ids().contains(x)) by {
                        lemma_contains_concat(
                            seq![i],
                            TreeV::ids_seq(TreeV::delete_from(entries, item)),
                            x,
                        );
                        assert(TreeV::ids_seq(entries).contains(x));
                        if x == i {
                            assert(seq![i][0] == i);
                            assert(seq![i].contains(i));
                        }
                    }
                },
                None => {},
            }
        },
    }
}

pub proof fn lemma_delete_completeness_seq(es: Seq<TreeV>, item: usize)
    requires
        TreeV::ids_seq(es).no_duplicates(),
    ensures
        match TreeV::find_seq(es, item) {
            Some(e) => forall|x: usize|
                e.ids().contains(x) ==> !(#[trigger] TreeV::ids_seq(
                    TreeV::delete_from(es, item),
                ).contains(x)),
            None => true,
        },
    decreases es,
{
    if es.len() == 0 {
        return ;
    }
    let rest = es.drop_first();
    lemma_no_dup_split(es[0].ids(), TreeV::ids_seq(rest));
    assert(es[0].ids()[0] == es[0].id());
    let drest = TreeV::delete_from(rest, item);
    lemma_delete_ids_seq(rest, item);
    lemma_delete_completeness_seq(rest, item);
    match TreeV::find_seq(es, item) {
        Some(e) => {
            if es[0].id() == item {
                assert(e == es[0]);
                assert forall|x: usize| e.ids().contains(x) implies !(#[trigger] TreeV::ids_seq(
                    TreeV::delete_from(es, item),
                ).contains(x)) by {
                    assert(TreeV::delete_from(es, item) == drest);
                }
            } else {
                let h = es[0].delete(item);
                lemma_delete_ids(es[0], item);
                assert(TreeV::delete_from(es, item) == seq![h] + drest);
                assert(TreeV::ids_seq(seq![h] + drest) == h.ids() + TreeV::ids_seq(drest)) by {
                    assert((seq![h] + drest)[0] == h);
                    assert((seq![h] + drest).drop_first() =~= drest);
                }
                match es[0].find(item) {
                    Some(e0) => {
                        assert(e0 == e);
                        lemma_delete_completeness(es[0], item);
                        lemma_find_subtree_ids(es[0], item);
                        assert forall|x: usize| e.ids().contains(x) implies !(
                        #[trigger] TreeV::ids_seq(TreeV::delete_from(es, item)).contains(x)) by {
                            lemma_contains_concat(h.ids(), TreeV::ids_seq(drest), x);
                            assert(!h.ids().contains(x));
                            assert(es[0].ids().contains(x));
                            if TreeV::ids_seq(drest).contains(x) {
                                assert(TreeV::ids_seq(rest).contains(x));
                            }
                        }
                    },
                    None => {
                        lemma_find_subtree_ids_seq(rest, item);
                        assert(TreeV::find_seq(rest, item) == Some(e));
                        assert forall|x: usize| e.ids().contains(x) implies !(
                        #[trigger] TreeV::ids_seq(TreeV::delete_from(es, item)).contains(x)) by {
                            lemma_contains_concat(h.ids(), TreeV::ids_seq(drest), x);
                            assert(TreeV::ids_seq(rest).contains(x));
                            if h.ids().contains(x) {
                                assert(es[0].ids().contains(x));
                            }
                        }
                    },
                }
            }
        },
        None => {},
    }
}

/// Parent consistency of a single-entry sequence.
pub proof fn lemma_parent_ok_single(pid: usize, c: TreeV)
    ensures
        TreeV::parent_ok_seq(pid, seq![c]) == (c.child_parent_ok(pid) && c.parent_ok()),
{
    assert(TreeV::parent_ok_seq(pid, Seq::<TreeV>::empty()));
    assert(seq![c].drop_first() =~= Seq::<TreeV>::empty());
    assert(seq![c][0] == c);
}

/// Subtree ids of a single-entry sequence.
pub proof fn lemma_ids_seq_single(c: TreeV)
    ensures
        TreeV::ids_seq(seq![c]) == c.ids(),
{
    assert(TreeV::ids_seq(Seq::<TreeV>::empty()) == Seq::<usize>::empty());
    assert(seq![c].drop_first() =~= Seq::<TreeV>::empty());
    assert(seq![c][0] == c);
    assert(c.ids() + Seq::<usize>::empty() =~= c.ids());
}

/// Inserting a child sequence-wise keeps ids within the union of the old
/// ids and the child's, keeps distinctness when those are disjoint, and
/// keeps parent consistency when the child points back at its new parent.
pub proof fn lemma_insert_effects(t: TreeV, fid: usize, pos: usize, c: TreeV)
    ensures
        !t.insert_child_at(fid, pos, c).1 ==> t.insert_child_at(fid, pos, c).0 == t,
        forall|x: usize| #[trigger]
            t.insert_child_at(fid, pos, c).0.ids().contains(x) ==> (t.ids().contains(x)
                || c.ids().contains(x)),
        t.ids().no_duplicates() && c.ids().no_duplicates() && (forall|x: usize|
            !(t.ids().contains(x) && #[trigger] c.ids().contains(x))) ==> t.insert_child_at(
            fid,
            pos,
            c,
        ).0.ids().no_duplicates(),
        t.parent_ok() && c.parent_ok() && c.child_parent_ok(fid) ==> t.insert_child_at(
            fid,
            pos,
            c,
        ).0.parent_ok(),
        t.insert_child_at(fid, pos, c).0.id() == t.id(),
        t.insert_child_at(fid, pos, c).0 is Folder <==> t is Folder,
        forall|p: usize| #[trigger]
            t.insert_child_at(fid, pos, c).0.child_parent_ok(p) == t.child_parent_ok(p),
    decreases t,
{
    let (t2, ok) = t.insert_child_at(fid, pos, c);
    match t {
        TreeV::Task { .. } => {},
        TreeV::Folder { id: i, entries, .. } => {
            if i == fid && pos <= entries.len() {
                let a = entries.subrange(0, pos as int);
                let b = entries.subrange(pos as int, entries.len() as int);
                assert(entries =~= a + b);
                assert(entries.insert(pos as int, c) =~= a + (seq![c] + b));
                lemma_ids_seq_concat(a, b);
                lemma_ids_seq_concat(a, seq![c] + b);
                lemma_ids_seq_concat(seq![c], b);
                lemma_ids_seq_single(c);
                let ia = TreeV::ids_seq(a);
                let ib = TreeV::ids_seq(b);
                let ic = c.ids();
                assert forall|x: usize| #[trigger]
                    t2.ids().contains(x) implies (t.ids().contains(x) || c.ids().contains(x)) by {
                    lemma_contains_concat(seq![i], ia + (ic + ib), x);
                    lemma_contains_concat(ia, ic + ib, x);
                    lemma_contains_concat(ic, ib, x);
                    lemma_contains_concat(seq![i], ia + ib, x);
                    lemma_contains_concat(ia, ib, x);
                }
                if t.ids().no_duplicates() && c.ids().no_duplicates() && (forall|x: usize|
                    !(t.ids().contains(x) && #[trigger] c.ids().contains(x))) {
                    lemma_no_dup_split(seq![i], ia + ib);
                    lemma_no_dup_split(ia, ib);
                    assert forall|x: usize| !(ic.contains(x) && #[trigger] ib.contains(x)) by {
                        if ic.contains(x) && ib.contains(x) {
                            lemma_contains_concat(ia, ib, x);
                            lemma_contains_concat(seq![i], ia + ib, x);
                            assert(t.ids().contains(x));
                        }
                    }
                    lemma_no_dup_join(ic, ib);
                    assert forall|x: usize| !(ia.contains(x) && #[trigger] (ic + ib).contains(x)) by {
                        if ia.contains(x) && (ic + ib).contains(x) {
                            lemma_contains_concat(ic, ib, x);
                            lemma_contains_concat(ia, ib, x);
                            lemma_contains_concat(seq![i], ia + ib, x);
                            assert(t.ids().contains(x));
                        }
                    }
                    lemma_no_dup_join(ia, ic + ib);
                    assert forall|x: usize|
                        !(seq![i].contains(x) && #[trigger] (ia + (ic + ib)).contains(x)) by {
                        if seq![i].contains(x) && (ia + (ic + ib)).contains(x) {
                            lemma_contains_concat(ia, ic + ib, x);
                            lemma_contains_concat(ic, ib, x);
                            lemma_contains_concat(ia, ib, x);
                            lemma_contains_concat(seq![i], ia + ib, x);
                            assert(x == i);
                            assert(seq![i][0] == i);
                            assert(t.ids().contains(x));
                        }
                    }
                    lemma_no_dup_join(seq![i], ia + (ic + ib));
                }
                if t.parent_ok() && c.parent_ok() && c.child_parent_ok(fid) {
                    lemma_parent_ok_seq_concat(i, a, b);
                    lemma_parent_ok_seq_concat(i, a, seq![c] + b);
                    lemma_parent_ok_seq_concat(i, seq![c], b);
                    lemma_parent_ok_single(i, c);
                }
            } else if i == fid {
            } else {
                lemma_insert_effects_seq(entries, fid, pos, c);
                let (es2, ok2) = TreeV::insert_child_at_seq(entries, fid, pos, c);
                if !ok2 {
                    assert(t2 =~= t);
                }
                assert forall|x: usize| #[trigger]
                    t2.ids().contains(x) implies (t.ids().contains(x) || c.ids().contains(x)) by {
                    lemma_contains_concat(seq![i], TreeV::ids_seq(es2), x);
                    lemma_contains_concat(seq![i], TreeV::ids_seq(entries), x);
                }
                if t.ids().no_duplicates() && c.ids().no_duplicates() && (forall|x: usize|
                    !(t.ids().contains(x) && #[trigger] c.ids().contains(x))) {
                    lemma_no_dup_split(seq![i], TreeV::ids_seq(entries));
                    assert forall|x: usize|
                        !(TreeV::ids_seq(entries).contains(x) && #[trigger] c.ids().contains(
                            x,
                        )) by {
                        if TreeV::ids_seq(entries).contains(x) {
                            lemma_contains_concat(seq![i], TreeV::ids_seq(entries), x);
                        }
                    }
                    assert forall|x: usize|
                        !(seq![i].contains(x) && #[trigger] TreeV::ids_seq(es2).contains(x)) by {
                        if seq![i].contains(x) && TreeV::ids_seq(es2).contains(x) {
                            assert(x == i);
                            assert(TreeV::ids_seq(entries).contains(x) || c.ids().contains(x));
                            assert(seq![i][0] == i);
                            assert(t.ids()[0] == i);
                            assert(t.ids().contains(i));
                        }
                    }
                    lemma_no_dup_join(seq![i], TreeV::ids_seq(es2));
                }
                if t.parent_ok() && c.parent_ok() && c.child_parent_ok(fid) {
                    assert(TreeV::parent_ok_seq(i, TreeV::insert_child_at_seq(entries, fid, pos, c).0));
                    assert(t2.parent_ok());
                }
            }
        },
    }
}

pub proof fn lemma_insert_effects_seq(es: Seq<TreeV>, fid: usize, pos: usize, c: TreeV)
    ensures
        !TreeV::insert_child_at_seq(es, fid, pos, c).1 ==> TreeV::insert_child_at_seq(
            es,
            fid,
            pos,
            c,
        ).0 == es,
        forall|x: usize| #[trigger]
            TreeV::ids_seq(TreeV::insert_child_at_seq(es, fid, pos, c).0).contains(x) ==> (
            TreeV::ids_seq(es).contains(x) || c.ids().contains(x)),
        TreeV::ids_seq(es).no_duplicates() && c.ids().no_duplicates() && (forall|x: usize|
            !(TreeV::ids_seq(es).contains(x) && #[trigger] c.ids().contains(x)))
            ==> TreeV::ids_seq(TreeV::insert_child_at_seq(es, fid, pos, c).0).no_duplicates(),
        forall|p: usize|
            TreeV::parent_ok_seq(p, es) && c.parent_ok() && c.child_parent_ok(fid)
                ==> #[trigger] TreeV::parent_ok_seq(p, TreeV::insert_child_at_seq(es, fid, pos, c).0),
    decreases es,
{
    if es.len() == 0 {
        return ;
    }
    let rest = es.drop_first();
    let (h, ok) = es[0].insert_child_at(fid, pos, c);
    lemma_insert_effects(es[0], fid, pos, c);
    if ok {
        assert(TreeV::insert_child_at_seq(es, fid, pos, c) == (seq![h] + rest, true));
        assert((seq![h] + rest)[0] == h);
        assert((seq![h] + rest).drop_first() =~= rest);
        let ihr = TreeV::ids_seq(seq![h] + rest);
        assert(ihr == h.ids() + TreeV::ids_seq(rest));
        assert forall|x: usize| #[trigger]
            ihr.contains(x) implies (TreeV::ids_seq(es).contains(x) || c.ids().contains(x)) by {
            lemma_contains_concat(h.ids(), TreeV::ids_seq(rest), x);
            lemma_contains_concat(es[0].ids(), TreeV::ids_seq(rest), x);
        }
        if TreeV::ids_seq(es).no_duplicates() && c.ids().no_duplicates() && (forall|x: usize|
            !(TreeV::ids_seq(es).contains(x) && #[trigger] c.ids().contains(x))) {
            lemma_no_dup_split(es[0].ids(), TreeV::ids_seq(rest));
            assert forall|x: usize| !(es[0].ids().contains(x) && #[trigger] c.ids().contains(x)) by {
                if es[0].ids().contains(x) {
                    lemma_contains_concat(es[0].ids(), TreeV::ids_seq(rest), x);
                }
            }
            assert forall|x: usize|
                !(h.ids().contains(x) && #[trigger] TreeV::ids_seq(rest).contains(x)) by {
                if h.ids().contains(x) && TreeV::ids_seq(rest).contains(x) {
                    lemma_contains_concat(es[0].ids(), TreeV::ids_seq(rest), x);
                    assert(TreeV::ids_seq(es).contains(x));
                    assert(es[0].ids().contains(x) || c.ids().contains(x));
                }
            }
            lemma_no_dup_join(h.ids(), TreeV::ids_seq(rest));
        }
        assert forall|p: usize|
            TreeV::parent_ok_seq(p, es) && c.parent_ok() && c.child_parent_ok(fid) implies
        #[trigger] TreeV::parent_ok_seq(p, TreeV::insert_child_at_seq(es, fid, pos, c).0) by {
            assert(TreeV::parent_ok_seq(p, seq![h] + rest) == (h.child_parent_ok(p)
                && h.parent_ok() && TreeV::parent_ok_seq(p, rest)));
        }
    } else {
        lemma_insert_effects_seq(rest, fid, pos, c);
        let (rs, ok2) = TreeV::insert_child_at_seq(rest, fid, pos, c);
        assert(TreeV::insert_child_at_seq(es, fid, pos, c) == (seq![h] + rs, ok2));
        assert(h == es[0]);
        assert((seq![h] + rs)[0] == h);
        assert((seq![h] + rs).drop_first() =~= rs);
        if !ok2 {
            assert(seq![h] + rs =~= es);
        }
        let ihr = TreeV::ids_seq(seq![h] + rs);
        assert(ihr == h.ids() + TreeV::ids_seq(rs));
        assert forall|x: usize| #[trigger]
            ihr.contains(x) implies (TreeV::ids_seq(es).contains(x) || c.ids().contains(x)) by {
            lemma_contains_concat(h.ids(), TreeV::ids_seq(rs), x);
            lemma_contains_concat(es[0].ids(), TreeV::ids_seq(rest), x);
        }
        if TreeV::ids_seq(es).no_duplicates() && c.ids().no_duplicates() && (forall|x: usize|
            !(TreeV::ids_seq(es).contains(x) && #[trigger] c.ids().contains(x))) {
            lemma_no_dup_split(es[0].ids(), TreeV::ids_seq(rest));
            assert forall|x: usize|
                !(TreeV::ids_seq(rest).contains(x) && #[trigger] c.ids().contains(x)) by {
                if TreeV::ids_seq(rest).contains(x) {
                    lemma_contains_concat(es[0].ids(), TreeV::ids_seq(rest), x);
                }
            }
            assert forall|x: usize|
                !(h.ids().contains(x) && #[trigger] TreeV::ids_seq(rs).contains(x)) by {
                if h.ids().contains(x) && TreeV::ids_seq(rs).contains(x) {
                    assert(TreeV::ids_seq(rest).contains(x) || c.ids().contains(x));
                    lemma_contains_concat(es[0].ids(), TreeV::ids_seq(rest), x);
                    assert(TreeV::ids_seq(es).contains(x));
                }
            }
            lemma_no_dup_join(h.ids(), TreeV::ids_seq(rs));
        }
        assert forall|p: usize|
            TreeV::parent_ok_seq(p, es) && c.parent_ok() && c.child_parent_ok(fid) implies
        #[trigger] TreeV::parent_ok_seq(p, TreeV::insert_child_at_seq(es, fid, pos, c).0) by {
            assert(TreeV::parent_ok_seq(p, seq![h] + rs) == (h.child_parent_ok(p) && h.parent_ok()
                && TreeV::parent_ok_seq(p, rs)));
        }
    }
}

/// Appending a child to a folder behaves like positioned insertion: ids
/// stay within the union, distinctness and parent consistency carry over.
pub proof fn lemma_add_effects(t: TreeV, fid: usize, c: TreeV)
    ensures
        !t.add_child(fid, c).1 ==> t.add_child(fid, c).0 == t,
        forall|x: usize| #[trigger]
            t.add_child(fid, c).0.ids().contains(x) ==> (t.ids().contains(x) || c.ids().contains(
                x,
            )),
        t.ids().no_duplicates() && c.ids().no_duplicates() && (forall|x: usize|
            !(t.ids().contains(x) && #[trigger] c.ids().contains(x))) ==> t.add_child(
            fid,
            c,
        ).0.ids().no_duplicates(),
        t.parent_ok() && c.parent_ok() && c.child_parent_ok(fid) ==> t.add_child(
            fid,
            c,
        ).0.parent_ok(),
        t.add_child(fid, c).0.id() == t.id(),
        t.add_child(fid, c).0 is Folder <==> t is Folder,
        forall|p: usize| #[trigger]
            t.add_child(fid, c).0.child_parent_ok(p) == t.child_parent_ok(p),
    decreases t,
{
    let (t2, ok) = t.add_child(fid, c);
    match t {
        TreeV::Task { .. } => {},
        TreeV::Folder { id: i, entries, .. } => {
            if i == fid {
                assert(entries.push(c) =~= entries + seq![c]);
                lemma_ids_seq_concat(entries, seq![c]);
                lemma_ids_seq_single(c);
                let ie = TreeV::ids_seq(entries);
                let ic = c.ids();
                assert forall|x: usize| #[trigger]
                    t2.ids().contains(x) implies (t.ids().contains(x) || c.ids().contains(x)) by {
                    lemma_contains_concat(seq![i], ie + ic, x);
                    lemma_contains_concat(ie, ic, x);
                    lemma_contains_concat(seq![i], ie, x);
                }
                if t.ids().no_duplicates() && c.ids().no_duplicates() && (forall|x: usize|
                    !(t.ids().contains(x) && #[trigger] c.ids().contains(x))) {
                    lemma_no_dup_split(seq![i], ie);
                    assert forall|x: usize| !(ie.contains(x) && #[trigger] ic.contains(x)) by {
                        if ie.contains(x) {
                            lemma_contains_concat(seq![i], ie, x);
                        }
                    }
                    lemma_no_dup_join(ie, ic);
                    assert forall|x: usize|
                        !(seq![i].contains(x) && #[trigger] (ie + ic).contains(x)) by {
                        if seq![i].contains(x) && (ie + ic).contains(x) {
                            lemma_contains_concat(ie, ic, x);
                            assert(x == i);
                            assert(seq![i][0] == i);
                            lemma_contains_concat(seq![i], ie, x);
                            assert(t.ids().contains(i));
                        }
                    }
                    lemma_no_dup_join(seq![i], ie + ic);
                }
                if t.parent_ok() && c.parent_ok() && c.child_parent_ok(fid) {
                    lemma_parent_ok_seq_concat(i, entries, seq![c]);
                    lemma_parent_ok_single(i, c);
                }
            } else {
                lemma_add_effects_seq(entries, fid, c);
                let (es2, ok2) = TreeV::add_child_seq(entries, fid, c);
                if !ok2 {
                    assert(t2 =~= t);
                }
                assert forall|x: usize| #[trigger]
                    t2.ids().contains(x) implies (t.ids().contains(x) || c.ids().contains(x)) by {
                    lemma_contains_concat(seq![i], TreeV::ids_seq(es2), x);
                    lemma_contains_concat(seq![i], TreeV::ids_seq(entries), x);
                }
                if t.ids().no_duplicates() && c.ids().no_duplicates() && (forall|x: usize|
                    !(t.ids().contains(x) && #[trigger] c.ids().contains(x))) {
                    lemma_no_dup_split(seq![i], TreeV::ids_seq(entries));
                    assert forall|x: usize|
                        !(TreeV::ids_seq(entries).contains(x) && #[trigger] c.ids().contains(
                            x,
                        )) by {
                        if TreeV::ids_seq(entries).contains(x) {
                            lemma_contains_concat(seq![i], TreeV::ids_seq(entries), x);
                        }
                    }
                    assert forall|x: usize|
                        !(seq![i].contains(x) && #[trigger] TreeV::ids_seq(es2).contains(x)) by {
                        if seq![i].contains(x) && TreeV::ids_seq(es2).contains(x) {
                            assert(x == i);
                            assert(TreeV::ids_seq(entries).contains(x) || c.ids().contains(x));
                            assert(seq![i][0] == i);
                            assert(t.ids()[0] == i);
                            assert(t.ids().contains(i));
                        }
                    }
                    lemma_no_dup_join(seq![i], TreeV::ids_seq(es2));
                }
                if t.parent_ok() && c.parent_ok() && c.child_parent_ok(fid) {
                    assert(TreeV::parent_ok_seq(i, TreeV::add_child_seq(entries, fid, c).0));
                    assert(t2.parent_ok());
                }
            }
        },
    }
}

pub proof fn lemma_add_effects_seq(es: Seq<TreeV>, fid: usize, c: TreeV)
    ensures
        !TreeV::add_child_seq(es, fid, c).1 ==> TreeV::add_child_seq(es, fid, c).0 == es,
        forall|x: usize| #[trigger]
            TreeV::ids_seq(TreeV::add_child_seq(es, fid, c).0).contains(x) ==> (TreeV::ids_seq(
                es,
            ).contains(x) || c.ids().contains(x)),
        TreeV::ids_seq(es).no_duplicates() && c.ids().no_duplicates() && (forall|x: usize|
            !(TreeV::ids_seq(es).contains(x) && #[trigger] c.ids().contains(x)))
            ==> TreeV::ids_seq(TreeV::add_child_seq(es, fid, c).0).no_duplicates(),
        forall|p: usize|
            TreeV::parent_ok_seq(p, es) && c.parent_ok() && c.child_parent_ok(fid)
                ==> #[trigger] TreeV::parent_ok_seq(p, TreeV::add_child_seq(es, fid, c).0),
    decreases es,
{
    if es.len() == 0 {
        return ;
    }
    let rest = es.drop_first();
    let (h, ok) = es[0].add_child(fid, c);
    lemma_add_effects(es[0], fid, c);
    if ok {
        assert(TreeV::add_child_seq(es, fid, c) == (seq![h] + rest, true));
        assert((seq![h] + rest)[0] == h);
        assert((seq![h] + rest).drop_first() =~= rest);
        let ihr = TreeV::ids_seq(seq![h] + rest);
        assert(ihr == h.ids() + TreeV::ids_seq(rest));
        assert forall|x: usize| #[trigger]
            ihr.contains(x) implies (TreeV::ids_seq(es).contains(x) || c.ids().contains(x)) by {
            lemma_contains_concat(h.ids(), TreeV::ids_seq(rest), x);
            lemma_contains_concat(es[0].ids(), TreeV::ids_seq(rest), x);
        }
        if TreeV::ids_seq(es).no_duplicates() && c.ids().no_duplicates() && (forall|x: usize|
            !(TreeV::ids_seq(es).contains(x) && #[trigger] c.ids().contains(x))) {
            lemma_no_dup_split(es[0].ids(), TreeV::ids_seq(rest));
            assert forall|x: usize| !(es[0].ids().contains(x) && #[trigger] c.ids().contains(x)) by {
                if es[0].ids().contains(x) {
                    lemma_contains_concat(es[0].ids(), TreeV::ids_seq(rest), x);
                }
            }
            assert forall|x: usize|
                !(h.ids().contains(x) && #[trigger] TreeV::ids_seq(rest).contains(x)) by {
                if h.ids().contains(x) && TreeV::ids_seq(rest).contains(x) {
                    lemma_contains_concat(es[0].ids(), TreeV::ids_seq(rest), x);
                    assert(TreeV::ids_seq(es).contains(x));
                    assert(es[0].ids().contains(x) || c.ids().contains(x));
                }
            }
            lemma_no_dup_join(h.ids(), TreeV::ids_seq(rest));
        }
        assert forall|p: usize|
            TreeV::parent_ok_seq(p, es) && c.parent_ok() && c.child_parent_ok(fid) implies
        #[trigger] TreeV::parent_ok_seq(p, TreeV::add_child_seq(es, fid, c).0) by {
            assert(TreeV::parent_ok_seq(p, seq![h] + rest) == (h.child_parent_ok(p)
                && h.parent_ok() && TreeV::parent_ok_seq(p, rest)));
        }
    } else {
        lemma_add_effects_seq(rest, fid, c);
        let (rs, ok2) = TreeV::add_child_seq(rest, fid, c);
        assert(TreeV::add_child_seq(es, fid, c) == (seq![h] + rs, ok2));
        assert(h == es[0]);
        assert((seq![h] + rs)[0] == h);
        assert((seq![h] + rs).drop_first() =~= rs);
        if !ok2 {
            assert(seq![h] + rs =~= es);
        }
        let ihr = TreeV::ids_seq(seq![h] + rs);
        assert(ihr == h.ids() + TreeV::ids_seq(rs));
        assert forall|x: usize| #[trigger]
            ihr.contains(x) implies (TreeV::ids_seq(es).contains(x) || c.ids().contains(x)) by {
            lemma_contains_concat(h.ids(), TreeV::ids_seq(rs), x);
            lemma_contains_concat(es[0].ids(), TreeV::ids_seq(rest), x);
        }
        if TreeV::ids_seq(es).no_duplicates() && c.ids().no_duplicates() && (forall|x: usize|
            !(TreeV::ids_seq(es).contains(x) && #[trigger] c.ids().contains(x))) {
            lemma_no_dup_split(es[0].ids(), TreeV::ids_seq(rest));
            assert forall|x: usize|
                !(TreeV::ids_seq(rest).contains(x) && #[trigger] c.ids().contains(x)) by {
                if TreeV::ids_seq(rest).contains(x) {
                    lemma_contains_concat(es[0].ids(), TreeV::ids_seq(rest), x);
                }
            }
            assert forall|x: usize|
                !(h.ids().contains(x) && #[trigger] TreeV::ids_seq(rs).contains(x)) by {
                if h.ids().contains(x) && TreeV::ids_seq(rs).contains(x) {
                    assert(TreeV::ids_seq(rest).contains(x) || c.ids().contains(x));
                    lemma_contains_concat(es[0].ids(), TreeV::ids_seq(rest), x);
                    assert(TreeV::ids_seq(es).contains(x));
                }
            }
            lemma_no_dup_join(h.ids(), TreeV::ids_seq(rs));
        }
        assert forall|p: usize|
            TreeV::parent_ok_seq(p, es) && c.parent_ok() && c.child_parent_ok(fid) implies
        #[trigger] TreeV::parent_ok_seq(p, TreeV::add_child_seq(es, fid, c).0) by {
            assert(TreeV::parent_ok_seq(p, seq![h] + rs) == (h.child_parent_ok(p) && h.parent_ok()
                && TreeV::parent_ok_seq(p, rs)));
        }
    }
}

/// Toggling changes completion flags only: the ids and the parent structure
/// are untouched.
pub proof fn lemma_toggle_preserves(t: TreeV, id: usize)
    ensures
        t.toggle(id).ids() == t.ids(),
        t.toggle(id).parent_ok() == t.parent_ok(),
        forall|p: usize| #[trigger] t.toggle(id).child_parent_ok(p) == t.child_parent_ok(p),
        t.toggle(id).id() == t.id(),
    decreases t,
{
    match t {
        TreeV::Task { .. } => {},
        TreeV::Folder { id: i, entries, .. } => {
            if i != id {
                lemma_toggle_preserves_seq(entries, id);
                assert(t.toggle(id).parent_ok() == TreeV::parent_ok_seq(
                    i,
                    TreeV::toggle_seq(entries, id),
                ));
                assert(TreeV::parent_ok_seq(i, TreeV::toggle_seq(entries, id))
                    == TreeV::parent_ok_seq(i, entries));
            }
        },
    }
}

pub proof fn lemma_toggle_preserves_seq(es: Seq<TreeV>, id: usize)
    ensures
        TreeV::ids_seq(TreeV::toggle_seq(es, id)) == TreeV::ids_seq(es),
        forall|p: usize| #[trigger]
            TreeV::parent_ok_seq(p, TreeV::toggle_seq(es, id)) == TreeV::parent_ok_seq(p, es),
    decreases es,
{
    if es.len() > 0 {
        lemma_toggle_preserves(es[0], id);
        lemma_toggle_preserves_seq(es.drop_first(), id);
        let h = es[0].toggle(id);
        let rs = TreeV::toggle_seq(es.drop_first(), id);
        assert((seq![h] + rs)[0] == h);
        assert((seq![h] + rs).drop_first() =~= rs);
        assert forall|p: usize| #[trigger]
            TreeV::parent_ok_seq(p, TreeV::toggle_seq(es, id)) == TreeV::parent_ok_seq(
            p,
            es,
        ) by {
            assert(TreeV::parent_ok_seq(p, seq![h] + rs) == (h.child_parent_ok(p) && h.parent_ok()
                && TreeV::parent_ok_seq(p, rs)));
            assert(h.child_parent_ok(p) == es[0].child_parent_ok(p));
            assert(TreeV::parent_ok_seq(p, rs) == TreeV::parent_ok_seq(p, es.drop_first()));
        }
    }
}

/// Renaming changes names only: the ids and the parent structure are
/// untouched.
pub proof fn lemma_rename_preserves(t: TreeV, id: usize, name: Seq<char>)
    ensures
        t.rename(id, name).ids() == t.ids(),
        t.rename(id, name).parent_ok() == t.parent_ok(),
        forall|p: usize| #[trigger]
            t.rename(id, name).child_parent_ok(p) == t.child_parent_ok(p),
        t.rename(id, name).id() == t.id(),
    decreases t,
{
    match t {
        TreeV::Task { .. } => {},
        TreeV::Folder { id: i, entries, .. } => {
            if i != id {
                lemma_rename_preserves_seq(entries, id, name);
                assert(t.rename(id, name).parent_ok() == TreeV::parent_ok_seq(
                    i,
                    TreeV::rename_seq(entries, id, name),
                ));
                assert(TreeV::parent_ok_seq(i, TreeV::rename_seq(entries, id, name))
                    == TreeV::parent_ok_seq(i, entries));
            }
        },
    }
}

pub proof fn lemma_rename_preserves_seq(es: Seq<TreeV>, id: usize, name: Seq<char>)
    ensures
        TreeV::ids_seq(TreeV::rename_seq(es, id, name)) == TreeV::ids_seq(es),
        forall|p: usize| #[trigger]
            TreeV::parent_ok_seq(p, TreeV::rename_seq(es, id, name)) == TreeV::parent_ok_seq(
                p,
                es,
            ),
    decreases es,
{
    if es.len() > 0 {
        lemma_rename_preserves(es[0], id, name);
        lemma_rename_preserves_seq(es.drop_first(), id, name);
        let h = es[0].rename(id, name);
        let rs = TreeV::rename_seq(es.drop_first(), id, name);
        assert((seq![h] + rs)[0] == h);
        assert((seq![h] + rs).drop_first() =~= rs);
        assert forall|p: usize| #[trigger]
            TreeV::parent_ok_seq(p, TreeV::rename_seq(es, id, name)) == TreeV::parent_ok_seq(
            p,
            es,
        ) by {
            assert(TreeV::parent_ok_seq(p, seq![h] + rs) == (h.child_parent_ok(p) && h.parent_ok()
                && TreeV::parent_ok_seq(p, rs)));
            assert(h.child_parent_ok(p) == es[0].child_parent_ok(p));
            assert(TreeV::parent_ok_seq(p, rs) == TreeV::parent_ok_seq(p, es.drop_first()));
        }
    }
}

/// Appending fails where no entry carries the target id.
pub proof fn lemma_add_no_target(t: TreeV, fid: usize, c: TreeV)
    requires
        !t.ids().contains(fid),
    ensures
        !t.add_child(fid, c).1,
    decreases t,
{
    match t {
        TreeV::Task { .. } => {},
        TreeV::Folder { id: i, entries, .. } => {
            assert(t.ids()[0] == i);
            assert forall|x: usize| TreeV::ids_seq(entries).contains(x) implies #[trigger] t.ids()
                .contains(x) by {
                lemma_contains_concat(seq![i], TreeV::ids_seq(entries), x);
            }
            lemma_add_no_target_seq(entries, fid, c);
        },
    }
}

pub proof fn lemma_add_no_target_seq(es: Seq<TreeV>, fid: usize, c: TreeV)
    requires
        !TreeV::ids_seq(es).contains(fid),
    ensures
        !TreeV::add_child_seq(es, fid, c).1,
    decreases es,
{
    if es.len() > 0 {
        lemma_contains_concat(es[0].ids(), TreeV::ids_seq(es.drop_first()), fid);
        lemma_add_no_target(es[0], fid, c);
        lemma_add_no_target_seq(es.drop_first(), fid, c);
    }
}

/// Appending succeeds when lookup resolves the target id to a folder.
pub proof fn lemma_add_target_found(t: TreeV, fid: usize, c: TreeV)
    requires
        t.find(fid) matches Some(f) && f is Folder,
    ensures
        t.add_child(fid, c).1,
    decreases t,
{
    match t {
        TreeV::Task { .. } => {},
        TreeV::Folder { id: i, entries, .. } => {
            if i != fid {
                lemma_add_target_found_seq(entries, fid, c);
            }
        },
    }
}

pub proof fn lemma_add_target_found_seq(es: Seq<TreeV>, fid: usize, c: TreeV)
    requires
        TreeV::find_seq(es, fid) matches Some(f) && f is Folder,
    ensures
        TreeV::add_child_seq(es, fid, c).1,
    decreases es,
{
    if es.len() > 0 {
        match es[0].find(fid) {
            Some(f0) => {
                lemma_add_target_found(es[0], fid, c);
            },
            None => {
                lemma_find_contains(es[0], fid);
                lemma_add_no_target(es[0], fid, c);
                lemma_add_target_found_seq(es.drop_first(), fid, c);
            },
        }
    }
}

/// A subtree that lookup returns inherits the tree's well-formedness.
pub proof fn lemma_find_subtree_wf(t: TreeV, id: usize)
    requires
        t.ids().no_duplicates(),
        t.parent_ok(),
    ensures
        match t.find(id) {
            Some(e) => e.ids().no_duplicates() && e.parent_ok(),
            None => true,
        },
    decreases t,
{
    match t {
        TreeV::Task { .. } => {},
        TreeV::Folder { id: i, entries, .. } => {
            if i != id {
                lemma_no_dup_split(seq![i], TreeV::ids_seq(entries));
                assert(TreeV::parent_ok_seq(i, entries));
                lemma_find_subtree_wf_seq(entries, id);
            }
        },
    }
}

pub proof fn lemma_find_subtree_wf_seq(es: Seq<TreeV>, id: usize)
    requires
        TreeV::ids_seq(es).no_duplicates(),
        exists|p: usize| #[trigger] TreeV::parent_ok_seq(p, es),
    ensures
        match TreeV::find_seq(es, id) {
            Some(e) => e.ids().no_duplicates() && e.parent_ok(),
            None => true,
        },
    decreases es,
{
    if es.len() > 0 {
        let p = choose|p: usize| #[trigger] TreeV::parent_ok_seq(p, es);
        lemma_no_dup_split(es[0].ids(), TreeV::ids_seq(es.drop_first()));
        match es[0].find(id) {
            Some(e) => {
                lemma_find_subtree_wf(es[0], id);
            },
            None => {
                assert(TreeV::parent_ok_seq(p, es.drop_first()));
                lemma_find_subtree_wf_seq(es.drop_first(), id);
            },
        }
    }
}

/// When every possible parent test agrees between two folders, a missing
/// parent back-reference is preserved.
pub proof fn lemma_parent_field_preserved(a: TreeV, b: TreeV)
    requires
        a is Folder,
        b is Folder,
        a->parent is None,
        forall|p: usize| #[trigger] b.child_parent_ok(p) == a.child_parent_ok(p),
    ensures
        b->parent is None,
{
    match b {
        TreeV::Folder { parent, .. } => {
            match parent {
                Some(q) => {
                    assert(b.child_parent_ok(q));
                    assert(a.child_parent_ok(q));
                    assert(false);
                },
                None => {},
            }
        },
        TreeV::Task { .. } => {},
    }
}

/// Positioned insertion fails when the unique target folder is too short
/// for the position.
pub proof fn lemma_insert_target_full(t: TreeV, fid: usize, pos: usize, c: TreeV)
    requires
        t.ids().no_duplicates(),
        t.find(fid) matches Some(f) && f is Folder && pos > f->entries.len(),
    ensures
        !t.insert_child_at(fid, pos, c).1,
    decreases t,
{
    match t {
        TreeV::Task { .. } => {},
        TreeV::Folder { id: i, entries, .. } => {
            lemma_no_dup_split(seq![i], TreeV::ids_seq(entries));
            if i == fid {
                assert(t.ids()[0] == i);
                lemma_find_contains_seq(entries, fid);
                lemma_insert_no_target_seq(entries, fid, pos, c);
            } else {
                lemma_insert_target_full_seq(entries, fid, pos, c);
            }
        },
    }
}

pub proof fn lemma_insert_target_full_seq(es: Seq<TreeV>, fid: usize, pos: usize, c: TreeV)
    requires
        TreeV::ids_seq(es).no_duplicates(),
        TreeV::find_seq(es, fid) matches Some(f) && f is Folder && pos > f->entries.len(),
    ensures
        !TreeV::insert_child_at_seq(es, fid, pos, c).1,
    decreases es,
{
    if es.len() == 0 {
        return ;
    }
    let rest = es.drop_first();
    lemma_no_dup_split(es[0].ids(), TreeV::ids_seq(rest));
    match es[0].find(fid) {
        Some(f0) => {
            lemma_insert_target_full(es[0], fid, pos, c);
            lemma_find_contains(es[0], fid);
            lemma_find_contains_seq(rest, fid);
            assert(!TreeV::ids_seq(rest).contains(fid));
            lemma_insert_no_target_seq(rest, fid, pos, c);
        },
        None => {
            lemma_find_contains(es[0], fid);
            lemma_insert_no_target(es[0], fid, pos, c);
            lemma_insert_target_full_seq(rest, fid, pos, c);
        },
    }
}

/// What lookup returns carries the id that was looked up.
pub proof fn lemma_find_id(t: TreeV, id: usize)
    ensures
        match t.find(id) {
            Some(e) => e.id() == id,
            None => true,
        },
    decreases t,
{
    match t {
        TreeV::Task { .. } => {},
        TreeV::Folder { id: i, entries, .. } => {
            if i != id {
                lemma_find_id_seq(entries, id);
            }
        },
    }
}

pub proof fn lemma_find_id_seq(es: Seq<TreeV>, id: usize)
    ensures
        match TreeV::find_seq(es, id) {
            Some(e) => e.id() == id,
            None => true,
        },
    decreases es,
{
    if es.len() > 0 {
        lemma_find_id(es[0], id);
        lemma_find_id_seq(es.drop_first(), id);
    }
}

/// A tree with distinct ids is acyclic: no folder is its own ancestor.
/// Every operation of the library preserves distinctness, so no sequence
/// of moves can ever close a cycle.
pub proof fn lemma_no_dup_implies_acyclic(t: TreeV)
    requires
        t.ids().no_duplicates(),
    ensures
        t.acyclic(),
    decreases t,
{
    match t {
        TreeV::Task { .. } => {},
        TreeV::Folder { id: i, entries, .. } => {
            lemma_no_dup_split(seq![i], TreeV::ids_seq(entries));
            assert(seq![i][0] == i);
            assert(seq![i].contains(i));
            lemma_no_dup_implies_acyclic_seq(entries);
        },
    }
}

pub proof fn lemma_no_dup_implies_acyclic_seq(es: Seq<TreeV>)
    requires
        TreeV::ids_seq(es).no_duplicates(),
    ensures
        TreeV::acyclic_seq(es),
    decreases es,
{
    if es.len() > 0 {
        lemma_no_dup_split(es[0].ids(), TreeV::ids_seq(es.drop_first()));
        lemma_no_dup_implies_acyclic(es[0]);
        lemma_no_dup_implies_acyclic_seq(es.drop_first());
    }
}

/// An element's subtree ids occur among the sibling sequence's ids.
pub proof fn lemma_ids_seq_elem(es: Seq<TreeV>, j: int)
    requires
        0 <= j < es.len(),
    ensures
        forall|x: usize| es[j].ids().contains(x) ==> #[trigger] TreeV::ids_seq(es).contains(x),
    decreases es,
{
    if j == 0 {
        assert forall|x: usize| es[0].ids().contains(x) implies #[trigger] TreeV::ids_seq(
            es,
        ).contains(x) by {
            lemma_contains_concat(es[0].ids(), TreeV::ids_seq(es.drop_first()), x);
        }
    } else {
        lemma_ids_seq_elem(es.drop_first(), j - 1);
        assert(es.drop_first()[j - 1] == es[j]);
        assert forall|x: usize| es[j].ids().contains(x) implies #[trigger] TreeV::ids_seq(
            es,
        ).contains(x) by {
            lemma_contains_concat(es[0].ids(), TreeV::ids_seq(es.drop_first()), x);
        }
    }
}

/// Parent consistency of a sequence holds of each of its elements.
pub proof fn lemma_parent_ok_seq_elem(p: usize, es: Seq<TreeV>, j: int)
    requires
        0 <= j < es.len(),
        TreeV::parent_ok_seq(p, es),
    ensures
        es[j].child_parent_ok(p),
        es[j].parent_ok(),
    decreases es,
{
    if j > 0 {
        assert(es.drop_first()[j - 1] == es[j]);
        lemma_parent_ok_seq_elem(p, es.drop_first(), j - 1);
    }
}

/// With distinct ids, deleting the id of the direct child at a known index
/// removes exactly that child.
pub proof fn lemma_delete_from_unique(es: Seq<TreeV>, j: int)
    requires
        TreeV::ids_seq(es).no_duplicates(),
        0 <= j < es.len(),
    ensures
        TreeV::delete_from(es, es[j].id()) == es.remove(j),
    decreases es,
{
    let item = es[j].id();
    lemma_no_dup_split(es[0].ids(), TreeV::ids_seq(es.drop_first()));
    if j == 0 {
        assert(es[0].ids()[0] == item);
        assert(es[0].ids().contains(item));
        assert(!TreeV::ids_seq(es.drop_first()).contains(item));
        lemma_delete_absent_seq(es.drop_first(), item);
        assert(es.remove(0) =~= es.drop_first());
    } else {
        assert(es.drop_first()[j - 1] == es[j]);
        lemma_ids_seq_elem(es.drop_first(), j - 1);
        assert(es[j].ids()[0] == item);
        assert(es[j].ids().contains(item));
        assert(TreeV::ids_seq(es.drop_first()).contains(item));
        assert(!es[0].ids().contains(item));
        assert(es[0].id() != item) by {
            assert(es[0].ids()[0] == es[0].id());
        }
        lemma_delete_absent(es[0], item);
        lemma_delete_from_unique(es.drop_first(), j - 1);
        assert(TreeV::delete_from(es, item) == seq![es[0]] + es.drop_first().remove(j - 1));
        assert(seq![es[0]] + es.drop_first().remove(j - 1) =~= es.remove(j));
    }
}

/// Taking the direct child at an index out of its folder and inserting it
/// back at the same index restores the tree exactly.
pub proof fn lemma_reinsert_identity(t: TreeV, fid: usize, j: usize, c: TreeV)
    requires
        t.ids().no_duplicates(),
        t.find(fid) matches Some(f) && f is Folder && j < f->entries.len() && f->entries[j as int]
            == c,
    ensures
        t.delete(c.id()).insert_child_at(fid, j, c) == (t, true),
    decreases t,
{
    let item = c.id();
    match t {
        TreeV::Task { .. } => {},
        TreeV::Folder { id: i, entries, .. } => {
            lemma_no_dup_split(seq![i], TreeV::ids_seq(entries));
            if i == fid {
                lemma_delete_from_unique(entries, j as int);
                let pruned = entries.remove(j as int);
                assert(pruned.len() == entries.len() - 1);
                assert(pruned.insert(j as int, c) =~= entries);
                assert(t.delete(item).insert_child_at(fid, j, c).0 =~= t);
            } else {
                assert(TreeV::find_seq(entries, fid) matches Some(f2) && f2 is Folder);
                lemma_reinsert_identity_seq(entries, fid, j, c);
                let pruned = TreeV::delete_from(entries, item);
                assert(t.delete(item).insert_child_at(fid, j, c).0 =~= t);
            }
        },
    }
}

pub proof fn lemma_reinsert_identity_seq(es: Seq<TreeV>, fid: usize, j: usize, c: TreeV)
    requires
        TreeV::ids_seq(es).no_duplicates(),
        TreeV::find_seq(es, fid) matches Some(f) && f is Folder && j < f->entries.len()
            && f->entries[j as int] == c,
    ensures
        TreeV::insert_child_at_seq(TreeV::delete_from(es, c.id()), fid, j, c) == (es, true),
    decreases es,
{
    let item = c.id();
    if es.len() == 0 {
        return ;
    }
    let rest = es.drop_first();
    lemma_no_dup_split(es[0].ids(), TreeV::ids_seq(rest));
    match es[0].find(fid) {
        Some(f0) => {
            let f = TreeV::find_seq(es, fid)->Some_0;
            assert(f0 == f);
            // the moved child sits inside the head, so the head keeps its
            // id and the rest is untouched by the deletion
            lemma_find_subtree_ids(es[0], fid);
            assert(f.ids().contains(item)) by {
                lemma_ids_seq_elem(f->entries, j as int);
                assert(c.ids()[0] == item);
                assert(c.ids().contains(item));
                assert(f.ids() == seq![f.id()] + TreeV::ids_seq(f->entries));
                lemma_contains_concat(seq![f.id()], TreeV::ids_seq(f->entries), item);
            }
            assert(es[0].ids().contains(item));
            assert(es[0].id() != item) by {
                if es[0].id() == item {
                    assert(es[0].ids()[0] == item);
                    match es[0] {
                        TreeV::Task { .. } => {
                            assert(es[0].ids().len() == 1);
                            assert(f == es[0]);
                            assert(false);
                        },
                        TreeV::Folder { id: hid, entries: hes, .. } => {
                            lemma_no_dup_split(seq![hid], TreeV::ids_seq(hes));
                            if hid == fid {
                                // the head itself is the folder: its id would
                                // also be the moved child's id
                                assert(f == es[0]);
                                lemma_ids_seq_elem(hes, j as int);
                                assert(c.ids().contains(item));
                                assert(TreeV::ids_seq(hes).contains(item));
                                assert(seq![hid][0] == hid);
                                assert(seq![hid].contains(hid));
                                assert(false);
                            } else {
                                lemma_find_subtree_ids_seq(hes, fid);
                                assert(f.ids().contains(item));
                                assert(TreeV::ids_seq(hes).contains(item));
                                assert(seq![hid][0] == hid);
                                assert(seq![hid].contains(hid));
                                assert(false);
                            }
                        },
                    }
                }
            }
            lemma_reinsert_identity(es[0], fid, j, c);
            assert(!TreeV::ids_seq(rest).contains(item));
            lemma_delete_absent_seq(rest, item);
            let h = es[0].delete(item);
            assert(TreeV::delete_from(es, item) == seq![h] + rest);
            assert((seq![h] + rest)[0] == h);
            assert((seq![h] + rest).drop_first() =~= rest);
            assert(h.insert_child_at(fid, j, c) == (es[0], true));
            assert(TreeV::insert_child_at_seq(seq![h] + rest, fid, j, c) == (seq![es[0]]
                + rest, true));
            assert(seq![es[0]] + rest =~= es);
        },
        None => {
            let f = TreeV::find_seq(es, fid)->Some_0;
            assert(TreeV::find_seq(rest, fid) == Some(f));
            lemma_find_contains(es[0], fid);
            assert(f.ids().contains(item)) by {
                lemma_ids_seq_elem(f->entries, j as int);
                assert(c.ids()[0] == item);
                assert(c.ids().contains(item));
                assert(f.ids() == seq![f.id()] + TreeV::ids_seq(f->entries));
                lemma_contains_concat(seq![f.id()], TreeV::ids_seq(f->entries), item);
            }
            lemma_find_subtree_ids_seq(rest, fid);
            assert(TreeV::ids_seq(rest).contains(item));
            assert(!es[0].ids().contains(item));
            lemma_delete_absent(es[0], item);
            lemma_insert_no_target(es[0], fid, j, c);
            lemma_reinsert_identity_seq(rest, fid, j, c);
            let h = es[0].delete(item);
            assert(h == es[0]);
            assert(es[0].id() != item) by {
                assert(es[0].ids()[0] == es[0].id());
            }
            let drest = TreeV::delete_from(rest, item);
            assert(TreeV::delete_from(es, item) == seq![h] + drest);
            assert((seq![h] + drest)[0] == h);
            assert((seq![h] + drest).drop_first() =~= drest);
            assert(TreeV::insert_child_at_seq(seq![h] + drest, fid, j, c) == (seq![es[0]]
                + rest, true));
            assert(seq![es[0]] + rest =~= es);
        },
    }
}

/// Moving an entry to the place it already holds in its own folder leaves
/// the tree exactly as it was, and counts as applied.
pub proof fn lemma_move_to_own_position(t: TreeV, fid: usize, j: usize)
    requires
        t.wf(),
        t.find(fid) matches Some(f) && f is Folder && j < f->entries.len(),
        (match t.find(fid) {
            Some(f) => t.find(f->entries[j as int].id()) == Some(f->entries[j as int]),
            None => false,
        }),
    ensures
        (match t.find(fid) {
            Some(f) => spec_move(t, fid, f->entries[j as int].id(), j) == (t, true),
            None => false,
        }),
{
    let f = t.find(fid)->Some_0;
    let c = f->entries[j as int];
    let item = c.id();
    lemma_find_subtree_wf(t, fid);
    lemma_find_id(t, fid);
    match f {
        TreeV::Folder { id: i2, entries: fes, .. } => {
            lemma_no_dup_split(seq![i2], TreeV::ids_seq(fes));
            lemma_ids_seq_elem(fes, j as int);
            assert(!c.ids().contains(fid)) by {
                if c.ids().contains(fid) {
                    assert(TreeV::ids_seq(fes).contains(fid));
                    assert(seq![fid][0] == fid);
                    assert(seq![fid].contains(fid));
                }
            }
            lemma_parent_ok_seq_elem(fid, fes, j as int);
            assert(c.with_parent(Some(fid)) == c) by {
                match c {
                    TreeV::Folder { .. } => {
                        assert(c.child_parent_ok(fid));
                        assert(c.with_parent(Some(fid)) =~= c);
                    },
                    TreeV::Task { .. } => {},
                }
            }
            lemma_reinsert_identity(t, fid, j, c);
        },
        TreeV::Task { .. } => {},
    }
}

/// A toggle that takes effect names an id that is present.
pub proof fn lemma_toggle_hit_contains(t: TreeV, id: usize)
    ensures
        t.toggle_hit(id) ==> t.ids().contains(id),
    decreases t,
{
    match t {
        TreeV::Task { id: tid, .. } => {
            if tid == id {
                assert(t.ids()[0] == id);
            }
        },
        TreeV::Folder { id: i, entries, .. } => {
            lemma_toggle_hit_contains_seq(entries, id);
            if t.toggle_hit(id) {
                lemma_contains_concat(seq![i], TreeV::ids_seq(entries), id);
            }
        },
    }
}

pub proof fn lemma_toggle_hit_contains_seq(es: Seq<TreeV>, id: usize)
    ensures
        TreeV::toggle_hit_seq(es, id) ==> TreeV::ids_seq(es).contains(id),
    decreases es,
{
    if es.len() > 0 {
        lemma_toggle_hit_contains(es[0], id);
        lemma_toggle_hit_contains_seq(es.drop_first(), id);
        if TreeV::toggle_hit_seq(es, id) {
            lemma_contains_concat(es[0].ids(), TreeV::ids_seq(es.drop_first()), id);
        }
    }
}

/// A toggle that takes no effect changes nothing at all.
pub proof fn lemma_toggle_noop(t: TreeV, id: usize)
    requires
        !t.toggle_hit(id),
    ensures
        t.toggle(id) == t,
    decreases t,
{
    match t {
        TreeV::Task { .. } => {},
        TreeV::Folder { id: i, entries, .. } => {
            if i != id {
                lemma_toggle_noop_seq(entries, id);
                assert(t.toggle(id) =~= t);
            }
        },
    }
}

pub proof fn lemma_toggle_noop_seq(es: Seq<TreeV>, id: usize)
    requires
        !TreeV::toggle_hit_seq(es, id),
    ensures
        TreeV::toggle_seq(es, id) == es,
    decreases es,
{
    if es.len() > 0 {
        lemma_toggle_noop(es[0], id);
        lemma_toggle_noop_seq(es.drop_first(), id);
        assert(TreeV::toggle_seq(es, id) =~= es);
    }
}

/// With distinct ids, an id that lookup resolves to a folder never toggles:
/// the operation is rejected and the tree is exactly unchanged.
pub proof fn lemma_toggle_folder_rejected(t: TreeV, id: usize)
    requires
        t.ids().no_duplicates(),
        t.find(id) matches Some(e) && e is Folder,
    ensures
        !t.toggle_hit(id),
        t.toggle(id) == t,
    decreases t,
{
    match t {
        TreeV::Task { .. } => {},
        TreeV::Folder { id: i, entries, .. } => {
            if i == id {
            } else {
                lemma_no_dup_split(seq![i], TreeV::ids_seq(entries));
                lemma_toggle_folder_rejected_seq(entries, id);
            }
        },
    }
    lemma_toggle_noop(t, id);
}

pub proof fn lemma_toggle_folder_rejected_seq(es: Seq<TreeV>, id: usize)
    requires
        TreeV::ids_seq(es).no_duplicates(),
        TreeV::find_seq(es, id) matches Some(e) && e is Folder,
    ensures
        !TreeV::toggle_hit_seq(es, id),
    decreases es,
{
    if es.len() == 0 {
        return ;
    }
    let rest = es.drop_first();
    lemma_no_dup_split(es[0].ids(), TreeV::ids_seq(rest));
    match es[0].find(id) {
        Some(e0) => {
            lemma_toggle_folder_rejected(es[0], id);
            lemma_find_contains(es[0], id);
            assert(es[0].ids().contains(id));
            lemma_toggle_hit_contains_seq(rest, id);
            assert(!TreeV::toggle_hit_seq(rest, id)) by {
                if TreeV::toggle_hit_seq(rest, id) {
                    assert(TreeV::ids_seq(rest).contains(id));
                }
            }
        },
        None => {
            lemma_find_contains(es[0], id);
            lemma_toggle_hit_contains(es[0], id);
            lemma_toggle_folder_rejected_seq(rest, id);
        },
    }
}

/// Deletion removes nothing else: every id outside the deleted entry's
/// subtree survives.
pub proof fn lemma_delete_survivors(t: TreeV, item: usize)
    requires
        t.ids().no_duplicates(),
        t.id() != item,
    ensures
        match t.find(item) {
            Some(e) => forall|x: usize|
                t.ids().contains(x) && !e.ids().contains(x) ==> #[trigger] t.delete(
                    item,
                ).ids().contains(x),
            None => true,
        },
    decreases t,
{
    match t {
        TreeV::Task { .. } => {},
        TreeV::Folder { id: i, entries, .. } => {
            lemma_no_dup_split(seq![i], TreeV::ids_seq(entries));
            match t.find(item) {
                Some(e) => {
                    lemma_delete_survivors_seq(entries, item);
                    assert forall|x: usize|
                        t.ids().contains(x) && !e.ids().contains(x) implies #[trigger] t.delete(
                        item,
                    ).ids().contains(x) by {
                        lemma_contains_concat(seq![i], TreeV::ids_seq(entries), x);
                        lemma_contains_concat(
                            seq![i],
                            TreeV::ids_seq(TreeV::delete_from(entries, item)),
                            x,
                        );
                        if x == i {
                            assert(seq![i][0] == i);
                            assert(seq![i].contains(i));
                        } else {
                            assert(TreeV::ids_seq(entries).contains(x));
                        }
                    }
                },
                None => {},
            }
        },
    }
}

pub proof fn lemma_delete_survivors_seq(es: Seq<TreeV>, item: usize)
    requires
        TreeV::ids_seq(es).no_duplicates(),
    ensures
        match TreeV::find_seq(es, item) {
            Some(e) => forall|x: usize|
                TreeV::ids_seq(es).contains(x) && !e.ids().contains(x) ==> #[trigger] TreeV::ids_seq(
                    TreeV::delete_from(es, item),
                ).contains(x),
            None => true,
        },
    decreases es,
{
    if es.len() == 0 {
        return ;
    }
    let rest = es.drop_first();
    lemma_no_dup_split(es[0].ids(), TreeV::ids_seq(rest));
    assert(es[0].ids()[0] == es[0].id());
    let drest = TreeV::delete_from(rest, item);
    match TreeV::find_seq(es, item) {
        Some(e) => {
            assert forall|x: usize|
                TreeV::ids_seq(es).contains(x) && !e.ids().contains(x) implies
            #[trigger] TreeV::ids_seq(TreeV::delete_from(es, item)).contains(x) by {
                lemma_contains_concat(es[0].ids(), TreeV::ids_seq(rest), x);
                if es[0].id() == item {
                    assert(e == es[0]);
                    assert(TreeV::ids_seq(rest).contains(x));
                    assert(es[0].ids().contains(item));
                    assert(!TreeV::ids_seq(rest).contains(item));
                    lemma_find_contains_seq(rest, item);
                    lemma_delete_absent_seq(rest, item);
                    assert(TreeV::delete_from(es, item) == rest);
                } else {
                    let h = es[0].delete(item);
                    assert(TreeV::delete_from(es, item) == seq![h] + drest);
                    assert((seq![h] + drest)[0] == h);
                    assert((seq![h] + drest).drop_first() =~= drest);
                    assert(TreeV::ids_seq(seq![h] + drest) == h.ids() + TreeV::ids_seq(drest));
                    match es[0].find(item) {
                        Some(e0) => {
                            assert(e0 == e);
                            lemma_find_contains(es[0], item);
                            assert(es[0].ids().contains(item));
                            assert(!TreeV::ids_seq(rest).contains(item));
                            lemma_find_contains_seq(rest, item);
                            lemma_delete_absent_seq(rest, item);
                            assert(drest == rest);
                            if es[0].ids().contains(x) {
                                lemma_delete_survivors(es[0], item);
                                assert(h.ids().contains(x));
                            } else {
                                assert(TreeV::ids_seq(rest).contains(x));
                            }
                            lemma_contains_concat(h.ids(), TreeV::ids_seq(drest), x);
                        },
                        None => {
                            lemma_find_contains(es[0], item);
                            assert(!es[0].ids().contains(item));
                            lemma_delete_absent(es[0], item);
                            assert(h == es[0]);
                            if es[0].ids().contains(x) {
                            } else {
                                assert(TreeV::ids_seq(rest).contains(x));
                                lemma_delete_survivors_seq(rest, item);
                                assert(TreeV::ids_seq(drest).contains(x));
                            }
                            lemma_contains_concat(h.ids(), TreeV::ids_seq(drest), x);
                        },
                    }
                }
            }
        },
        None => {},
    }
}

/// Positioned insertion lands exactly in the folder that lookup resolves:
/// afterwards lookup finds that folder with the child inserted at the
/// position, everything else about it unchanged.
pub proof fn lemma_insert_find(t: TreeV, fid: usize, pos: usize, c: TreeV)
    requires
        t.find(fid) matches Some(f) && f is Folder && pos <= f->entries.len(),
    ensures
        t.insert_child_at(fid, pos, c).1,
        match t.find(fid) {
            Some(f) => t.insert_child_at(fid, pos, c).0.find(fid) == Some(
                f.with_entries(f->entries.insert(pos as int, c)),
            ),
            None => false,
        },
    decreases t,
{
    match t {
        TreeV::Task { .. } => {},
        TreeV::Folder { id: i, entries, .. } => {
            if i == fid {
                assert(t.insert_child_at(fid, pos, c).0.find(fid) == Some(
                    t.with_entries(entries.insert(pos as int, c)),
                ));
            } else {
                lemma_insert_find_seq(entries, fid, pos, c);
            }
        },
    }
}

pub proof fn lemma_insert_find_seq(es: Seq<TreeV>, fid: usize, pos: usize, c: TreeV)
    requires
        TreeV::find_seq(es, fid) matches Some(f) && f is Folder && pos <= f->entries.len(),
    ensures
        TreeV::insert_child_at_seq(es, fid, pos, c).1,
        match TreeV::find_seq(es, fid) {
            Some(f) => TreeV::find_seq(TreeV::insert_child_at_seq(es, fid, pos, c).0, fid) == Some(
                f.with_entries(f->entries.insert(pos as int, c)),
            ),
            None => false,
        },
    decreases es,
{
    if es.len() == 0 {
        return ;
    }
    let rest = es.drop_first();
    match es[0].find(fid) {
        Some(f0) => {
            lemma_insert_find(es[0], fid, pos, c);
            let h = es[0].insert_child_at(fid, pos, c).0;
            assert(TreeV::insert_child_at_seq(es, fid, pos, c) == (seq![h] + rest, true));
            assert((seq![h] + rest)[0] == h);
            assert((seq![h] + rest).drop_first() =~= rest);
        },
        None => {
            lemma_find_contains(es[0], fid);
            lemma_insert_no_target(es[0], fid, pos, c);
            lemma_insert_find_seq(rest, fid, pos, c);
            let h = es[0].insert_child_at(fid, pos, c).0;
            assert(h == es[0]);
            let rs = TreeV::insert_child_at_seq(rest, fid, pos, c).0;
            assert(TreeV::insert_child_at_seq(es, fid, pos, c) == (seq![h] + rs, true));
            assert((seq![h] + rs)[0] == h);
            assert((seq![h] + rs).drop_first() =~= rs);
        },
    }
}

/// A wrap-around move relocates the direct child at one index to another:
/// afterwards the folder holds the old sequence with that child taken out
/// and put back at the target index, every other entry in its old relative
/// order; the move counts as applied.
pub proof fn lemma_move_within_folder(t: TreeV, fid: usize, j: usize, pos: usize)
    requires
        t.wf(),
        t.find(fid) matches Some(f) && f is Folder && j < f->entries.len() && pos
            <= f->entries.len() - 1,
        (match t.find(fid) {
            Some(f) => t.find(f->entries[j as int].id()) == Some(f->entries[j as int]),
            None => false,
        }),
    ensures
        (match t.find(fid) {
            Some(f) => {
                let e = f->entries[j as int];
                let moved = spec_move(t, fid, e.id(), pos);
                moved.1 && moved.0.find(fid) == Some(
                    f.with_entries(f->entries.remove(j as int).insert(pos as int, e)),
                )
            },
            None => false,
        }),
{
    let f = t.find(fid)->Some_0;
    let e = f->entries[j as int];
    let item = e.id();
    lemma_find_subtree_wf(t, fid);
    lemma_find_id(t, fid);
    lemma_find_id(t, item);
    match f {
        TreeV::Folder { id: i2, entries: fes, .. } => {
            lemma_no_dup_split(seq![i2], TreeV::ids_seq(fes));
            lemma_ids_seq_elem(fes, j as int);
            assert(!e.ids().contains(fid)) by {
                if e.ids().contains(fid) {
                    assert(TreeV::ids_seq(fes).contains(fid));
                    assert(seq![fid][0] == fid);
                    assert(seq![fid].contains(fid));
                }
            }
            lemma_parent_ok_seq_elem(fid, fes, j as int);
            assert(e.with_parent(Some(fid)) == e) by {
                match e {
                    TreeV::Folder { .. } => {
                        assert(e.child_parent_ok(fid));
                        assert(e.with_parent(Some(fid)) =~= e);
                    },
                    TreeV::Task { .. } => {},
                }
            }
            assert(fid != item) by {
                assert(e.ids()[0] == item);
                assert(e.ids().contains(item));
            }
            lemma_delete_find(t, item, fid);
            let pruned = t.delete(item);
            assert(pruned.find(fid) == Some(f.delete(item)));
            lemma_delete_from_unique(fes, j as int);
            assert(f.delete(item) == f.with_entries(fes.remove(j as int)));
            lemma_insert_find(pruned, fid, pos, e);
        },
        TreeV::Task { .. } => {},
    }
}

/// A successful insertion loses nothing: every id of the tree and of the
/// inserted child is present afterwards.
pub proof fn lemma_insert_keeps(t: TreeV, fid: usize, pos: usize, c: TreeV)
    ensures
        t.insert_child_at(fid, pos, c).1 ==> forall|x: usize|
            (t.ids().contains(x) || c.ids().contains(x)) ==> #[trigger] t.insert_child_at(
                fid,
                pos,
                c,
            ).0.ids().contains(x),
    decreases t,
{
    let (t2, ok) = t.insert_child_at(fid, pos, c);
    match t {
        TreeV::Task { .. } => {},
        TreeV::Folder { id: i, entries, .. } => {
            if i == fid && pos <= entries.len() {
                let a = entries.subrange(0, pos as int);
                let b = entries.subrange(pos as int, entries.len() as int);
                assert(entries =~= a + b);
                assert(entries.insert(pos as int, c) =~= a + (seq![c] + b));
                lemma_ids_seq_concat(a, b);
                lemma_ids_seq_concat(a, seq![c] + b);
                lemma_ids_seq_concat(seq![c], b);
                lemma_ids_seq_single(c);
                assert forall|x: usize|
                    (t.ids().contains(x) || c.ids().contains(x)) implies #[trigger] t2.ids()
                    .contains(x) by {
                    lemma_contains_concat(seq![i], TreeV::ids_seq(a) + (c.ids() + TreeV::ids_seq(b)), x);
                    lemma_contains_concat(TreeV::ids_seq(a), c.ids() + TreeV::ids_seq(b), x);
                    lemma_contains_concat(c.ids(), TreeV::ids_seq(b), x);
                    lemma_contains_concat(seq![i], TreeV::ids_seq(a) + TreeV::ids_seq(b), x);
                    lemma_contains_concat(TreeV::ids_seq(a), TreeV::ids_seq(b), x);
                }
            } else if i == fid {
            } else {
                lemma_insert_keeps_seq(entries, fid, pos, c);
                let es2 = TreeV::insert_child_at_seq(entries, fid, pos, c).0;
                if ok {
                    assert forall|x: usize|
                        (t.ids().contains(x) || c.ids().contains(x)) implies #[trigger] t2.ids()
                        .contains(x) by {
                        lemma_contains_concat(seq![i], TreeV::ids_seq(entries), x);
                        lemma_contains_concat(seq![i], TreeV::ids_seq(es2), x);
                    }
                }
            }
        },
    }
}

pub proof fn lemma_insert_keeps_seq(es: Seq<TreeV>, fid: usize, pos: usize, c: TreeV)
    ensures
        TreeV::insert_child_at_seq(es, fid, pos, c).1 ==> forall|x: usize|
            (TreeV::ids_seq(es).contains(x) || c.ids().contains(x)) ==> #[trigger] TreeV::ids_seq(
                TreeV::insert_child_at_seq(es, fid, pos, c).0,
            ).contains(x),
    decreases es,
{
    if es.len() == 0 {
        return ;
    }
    let rest = es.drop_first();
    let (h, ok) = es[0].insert_child_at(fid, pos, c);
    lemma_insert_keeps(es[0], fid, pos, c);
    lemma_insert_effects(es[0], fid, pos, c);
    if ok {
        assert(TreeV::insert_child_at_seq(es, fid, pos, c) == (seq![h] + rest, true));
        assert((seq![h] + rest)[0] == h);
        assert((seq![h] + rest).drop_first() =~= rest);
        assert forall|x: usize|
            (TreeV::ids_seq(es).contains(x) || c.ids().contains(x)) implies
        #[trigger] TreeV::ids_seq(seq![h] + rest).contains(x) by {
            lemma_contains_concat(es[0].ids(), TreeV::ids_seq(rest), x);
            lemma_contains_concat(h.ids(), TreeV::ids_seq(rest), x);
        }
    } else {
        lemma_insert_keeps_seq(rest, fid, pos, c);
        let (rs, ok2) = TreeV::insert_child_at_seq(rest, fid, pos, c);
        if ok2 {
            assert(TreeV::insert_child_at_seq(es, fid, pos, c) == (seq![h] + rs, true));
            assert(h == es[0]);
            assert((seq![h] + rs)[0] == h);
            assert((seq![h] + rs).drop_first() =~= rs);
            assert forall|x: usize|
                (TreeV::ids_seq(es).contains(x) || c.ids().contains(x)) implies
            #[trigger] TreeV::ids_seq(seq![h] + rs).contains(x) by {
                lemma_contains_concat(es[0].ids(), TreeV::ids_seq(rest), x);
                lemma_contains_concat(h.ids(), TreeV::ids_seq(rs), x);
            }
        }
    }
}

/// A move within a folder carries exactly the old identifiers: none
/// appears, none is lost, and they stay distinct — with distinctness on
/// both sides, the id multiset of the tree is unchanged.
pub proof fn lemma_move_preserves_ids(t: TreeV, fid: usize, j: usize, pos: usize)
    requires
        t.wf(),
        t.find(fid) matches Some(f) && f is Folder && j < f->entries.len() && pos
            <= f->entries.len() - 1,
        (match t.find(fid) {
            Some(f) => t.find(f->entries[j as int].id()) == Some(f->entries[j as int]),
            None => false,
        }),
    ensures
        (match t.find(fid) {
            Some(f) => {
                let moved = spec_move(t, fid, f->entries[j as int].id(), pos);
                moved.1 && moved.0.ids().no_duplicates() && (forall|x: usize| #[trigger]
                    moved.0.ids().contains(x) <==> t.ids().contains(x))
            },
            None => false,
        }),
{
    let f = t.find(fid)->Some_0;
    let e = f->entries[j as int];
    let item = e.id();
    lemma_move_within_folder(t, fid, j, pos);
    lemma_find_subtree_wf(t, fid);
    lemma_find_id(t, fid);
    lemma_find_subtree_ids(t, item);
    match f {
        TreeV::Folder { id: i2, entries: fes, .. } => {
            lemma_no_dup_split(seq![i2], TreeV::ids_seq(fes));
            lemma_ids_seq_elem(fes, j as int);
            assert(!e.ids().contains(fid)) by {
                if e.ids().contains(fid) {
                    assert(TreeV::ids_seq(fes).contains(fid));
                    assert(seq![fid][0] == fid);
                    assert(seq![fid].contains(fid));
                }
            }
            lemma_parent_ok_seq_elem(fid, fes, j as int);
            assert(e.with_parent(Some(fid)) == e) by {
                match e {
                    TreeV::Folder { .. } => {
                        assert(e.child_parent_ok(fid));
                        assert(e.with_parent(Some(fid)) =~= e);
                    },
                    TreeV::Task { .. } => {},
                }
            }
            assert(fid != item) by {
                assert(e.ids()[0] == item);
                assert(e.ids().contains(item));
            }
            assert(t.id() != item) by {
                lemma_find_contains(t, fid);
                if t.id() == item {
                    assert(t.find(item) == Some(t));
                    assert(e == t);
                    assert(t.ids().contains(fid));
                }
            }
            let pruned = t.delete(item);
            lemma_delete_ids(t, item);
            lemma_delete_parent_ok(t, item);
            lemma_delete_survivors(t, item);
            lemma_delete_completeness(t, item);
            lemma_insert_keeps(pruned, fid, pos, e);
            lemma_insert_effects(pruned, fid, pos, e);
            lemma_find_subtree_wf(t, item);
            assert forall|x: usize|
                !(pruned.ids().contains(x) && #[trigger] e.ids().contains(x)) by {}
            let moved = spec_move(t, fid, item, pos);
            assert forall|x: usize| #[trigger]
                moved.0.ids().contains(x) <==> t.ids().contains(x) by {
                if moved.0.ids().contains(x) {
                    assert(pruned.ids().contains(x) || e.ids().contains(x));
                    if e.ids().contains(x) {
                        assert(t.ids().contains(x));
                    }
                }
                if t.ids().contains(x) {
                    if e.ids().contains(x) {
                        assert(moved.0.ids().contains(x));
                    } else {
                        assert(pruned.ids().contains(x));
                        assert(moved.0.ids().contains(x));
                    }
                }
            }
        },
        TreeV::Task { .. } => {},
    }
}

} // verus!
