//! The application state: the tree rooted at a single folder, the view
//! cursor, the id allocator, the edit session, and the commands that drive
//! them.
use vstd::prelude::*;
use crate::tree::{Entry, Folder, Task, TreeV, toggle_entry, rename_entry, add_child_entry,
    insert_child_at_entry};
use crate::laws;

verus! {

/// Issues process-unique, strictly increasing identifiers.
#[derive(PartialEq, Debug)]
pub struct EntryId {
    pub latest_id: usize,
}

impl EntryId {
    /// A fresh allocator, counting from zero.
    pub fn new() -> (r: EntryId)
        ensures
            r.latest_id == 0,
    {
        EntryId { latest_id: 0 }
    }

    /// The next identifier: one past the latest issued.
    pub fn get(&mut self) -> (r: usize)
        requires
            old(self).latest_id < usize::MAX,
        ensures
            final(self).latest_id == old(self).latest_id + 1,
            r == final(self).latest_id,
    {
        self.latest_id = self.latest_id + 1;
        self.latest_id
    }
}

/// The mathematical model of the application state.
#[verifier::ext_equal]
pub struct StateV {
    pub root: TreeV,
    pub view: usize,
    pub latest_id: usize,
    pub input: Seq<char>,
    pub add_task: usize,
    pub add_folder: usize,
    pub editing: Option<usize>,
}

impl StateV {
    /// The state invariant: the root is a parentless folder, its subtree is
    /// well formed, and every issued id stays at or below the allocator.
    pub open spec fn wf(self) -> bool {
        &&& self.root is Folder
        &&& self.root->parent is None
        &&& self.root.wf()
        &&& forall|x: usize| #[trigger] self.root.ids().contains(x) ==> x <= self.latest_id
    }
}

/// The application state: the entry tree, the folder in view, the id
/// allocator, the pending text input, the two input-slot ids, and the entry
/// being edited, if any.
#[derive(PartialEq, Debug)]
pub struct State {
    pub root: Entry,
    pub view: usize,
    pub id: EntryId,
    pub input: String,
    pub add_task: usize,
    pub add_folder: usize,
    pub editing: Option<usize>,
}

impl State {
    pub open spec fn view(self) -> StateV {
        StateV {
            root: self.root@,
            view: self.view,
            latest_id: self.id.latest_id,
            input: self.input@,
            add_task: self.add_task,
            add_folder: self.add_folder,
            editing: self.editing,
        }
    }

    /// A fresh state: an empty root folder in view, the two input-slot ids
    /// issued right after the root's, nothing pending, nothing edited.
    pub fn new() -> (r: State)
        ensures
            r@.wf(),
            r@.root == (TreeV::Folder {
                name: "Root folder"@,
                entries: Seq::<TreeV>::empty(),
                parent: None,
                id: 1,
            }),
            r@.view == 1,
            r@.latest_id == 3,
            r@.add_task == 2,
            r@.add_folder == 3,
            r@.input.len() == 0,
            r@.editing is None,
    {
        let mut id = EntryId::new();
        let root_id = id.get();
        let add_task = id.get();
        let add_folder = id.get();
        let root = Entry::Folder(
            Folder { name: String::from_str("Root folder"), entries: Vec::new(), parent: None, id: root_id },
        );
        let r = State { root, view: root_id, id, add_task, add_folder, input: String::new(), editing: None };
        proof {
            assert(Entry::seq_view(Seq::<Entry>::empty()) =~= Seq::<TreeV>::empty());
            assert(r@.root.ids() =~= seq![1usize]);
            assert(forall|x: usize| #[trigger] r@.root.ids().contains(x) ==> x == 1);
        }
        r
    }

    /// Sets the folder in view, with no existence check: later lookups of a
    /// missing id simply resolve to nothing.
    pub fn go(&mut self, id: usize)
        ensures
            final(self)@ == (StateV { view: id, ..old(self)@ }),
    {
        self.view = id;
    }

    /// Steps the view back to the parent of the folder in view; fails and
    /// changes nothing when the view is not a folder, has no parent, or
    /// does not resolve.
    pub fn go_back(&mut self) -> (r: bool)
        ensures
            match old(self)@.root.find(old(self)@.view) {
                Some(e) => if e is Folder && e->parent is Some {
                    r && final(self)@ == (StateV { view: e->parent->0, ..old(self)@ })
                } else {
                    !r && final(self)@ == old(self)@
                },
                None => !r && final(self)@ == old(self)@,
            },
    {
        match self.root.find(self.view) {
            Some(e) => match e {
                Entry::Folder(f) => match f.parent {
                    Some(p) => {
                        self.view = p;
                        true
                    },
                    None => false,
                },
                Entry::Task(_) => false,
            },
            None => false,
        }
    }

    /// Flips the completion flag of the task with the given id; rejected
    /// with no effect when the id resolves to a folder or to nothing.
    pub fn toggle(&mut self, id: usize) -> (r: bool)
        ensures
            final(self)@ == (StateV { root: old(self)@.root.toggle(id), ..old(self)@ }),
            r == old(self)@.root.toggle_hit(id),
            old(self)@.wf() ==> final(self)@.wf(),
    {
        let mut tmp = Entry::Task(Task { name: String::new(), done: false, id: 0 });
        core::mem::swap(&mut self.root, &mut tmp);
        let (e2, hit) = toggle_entry(tmp, id);
        self.root = e2;
        proof {
            laws::lemma_toggle_preserves(old(self)@.root, id);
        }
        hit
    }
    /// Removes the entry with the given id, and its whole subtree, from
    /// anywhere below the root; the root itself is never removed. Removing
    /// an absent id changes nothing.
    pub fn delete(&mut self, id: usize) -> (r: bool)
        ensures
            final(self)@ == (StateV { root: old(self)@.root.delete(id), ..old(self)@ }),
            r == (old(self)@.root.find(id) is Some && old(self)@.root.id() != id),
            old(self)@.wf() ==> final(self)@.wf(),
    {
        let hit = match self.root.find(id) {
            Some(_) => self.root.id() != id,
            None => false,
        };
        let mut tmp = Entry::Task(Task { name: String::new(), done: false, id: 0 });
        core::mem::swap(&mut self.root, &mut tmp);
        let e2 = match tmp {
            Entry::Folder(mut f) => {
                f.delete(id);
                Entry::Folder(f)
            },
            t => t,
        };
        self.root = e2;
        proof {
            laws::lemma_delete_ids(old(self)@.root, id);
            laws::lemma_delete_parent_ok(old(self)@.root, id);
            if old(self)@.wf() {
                laws::lemma_parent_field_preserved(old(self)@.root, final(self)@.root);
            }
        }
        hit
    }

    /// Appends a fresh task to the folder with the given id. Rejected, with
    /// no id consumed, when the name is empty or the id does not resolve to
    /// a folder.
    pub fn insert_task(&mut self, folder_id: usize, name: String) -> (r: bool)
        requires
            old(self)@.wf(),
            old(self)@.latest_id < usize::MAX,
        ensures
            final(self)@.wf(),
            name@.len() == 0 ==> final(self)@ == old(self)@ && !r,
            name@.len() > 0 ==> match old(self)@.root.find(folder_id) {
                Some(f) => if f is Folder {
                    r && final(self)@ == (StateV {
                        root: old(self)@.root.add_child(
                            folder_id,
                            (TreeV::Task {
                                name: name@,
                                done: false,
                                id: (old(self)@.latest_id + 1) as usize,
                            }),
                        ).0,
                        latest_id: (old(self)@.latest_id + 1) as usize,
                        ..old(self)@
                    })
                } else {
                    !r && final(self)@ == old(self)@
                },
                None => !r && final(self)@ == old(self)@,
            },
    {
        if name.as_str().is_empty() {
            return false;
        }
        let found = match self.root.find(folder_id) {
            Some(e) => match e {
                Entry::Folder(_) => true,
                Entry::Task(_) => false,
            },
            None => false,
        };
        if !found {
            return false;
        }
        let nid = self.id.get();
        let c = Entry::Task(Task { name, done: false, id: nid });
        let ghost cv = c@;
        let mut tmp = Entry::Task(Task { name: String::new(), done: false, id: 0 });
        core::mem::swap(&mut self.root, &mut tmp);
        let ghost rv = tmp@;
        let (e2, _back) = add_child_entry(tmp, folder_id, c);
        self.root = e2;
        proof {
            laws::lemma_add_target_found(rv, folder_id, cv);
            laws::lemma_add_effects(rv, folder_id, cv);
            assert(cv.ids() == seq![nid]);
            assert(forall|x: usize| #[trigger] cv.ids().contains(x) ==> x == nid);
            laws::lemma_parent_field_preserved(rv, final(self)@.root);
        }
        true
    }

    /// Appends a fresh, empty folder to the folder with the given id, with
    /// its parent back-reference set. Rejected, with no id consumed, when
    /// the name is empty or the id does not resolve to a folder.
    pub fn insert_folder(&mut self, folder_id: usize, name: String) -> (r: bool)
        requires
            old(self)@.wf(),
            old(self)@.latest_id < usize::MAX,
        ensures
            final(self)@.wf(),
            name@.len() == 0 ==> final(self)@ == old(self)@ && !r,
            name@.len() > 0 ==> match old(self)@.root.find(folder_id) {
                Some(f) => if f is Folder {
                    r && final(self)@ == (StateV {
                        root: old(self)@.root.add_child(
                            folder_id,
                            (TreeV::Folder {
                                name: name@,
                                entries: Seq::<TreeV>::empty(),
                                parent: Some(folder_id),
                                id: (old(self)@.latest_id + 1) as usize,
                            }),
                        ).0,
                        latest_id: (old(self)@.latest_id + 1) as usize,
                        ..old(self)@
                    })
                } else {
                    !r && final(self)@ == old(self)@
                },
                None => !r && final(self)@ == old(self)@,
            },
    {
        if name.as_str().is_empty() {
            return false;
        }
        let found = match self.root.find(folder_id) {
            Some(e) => match e {
                Entry::Folder(_) => true,
                Entry::Task(_) => false,
            },
            None => false,
        };
        if !found {
            return false;
        }
        let nid = self.id.get();
        let c = Entry::Folder(
            Folder { name, entries: Vec::new(), parent: Some(folder_id), id: nid },
        );
        let ghost cv = c@;
        let mut tmp = Entry::Task(Task { name: String::new(), done: false, id: 0 });
        core::mem::swap(&mut self.root, &mut tmp);
        let ghost rv = tmp@;
        let (e2, _back) = add_child_entry(tmp, folder_id, c);
        self.root = e2;
        proof {
            assert(crate::tree::Entry::seq_view(Seq::<Entry>::empty()) =~= Seq::<TreeV>::empty());
            assert(cv.ids() =~= seq![nid]);
            laws::lemma_add_target_found(rv, folder_id, cv);
            laws::lemma_add_effects(rv, folder_id, cv);
            assert(forall|x: usize| #[trigger] cv.ids().contains(x) ==> x == nid);
            laws::lemma_parent_field_preserved(rv, final(self)@.root);
        }
        true
    }

    /// Opens the edit session on the given entry or input slot.
    pub fn begin_input(&mut self, id: usize)
        ensures
            final(self)@ == (StateV { editing: Some(id), ..old(self)@ }),
    {
        self.editing = Some(id);
    }

    /// Replaces the pending text buffer.
    pub fn update_input(&mut self, val: String)
        ensures
            final(self)@ == (StateV { input: val@, ..old(self)@ }),
    {
        self.input = val;
    }

    /// Commits the pending text as a rename of the given entry and closes
    /// the edit session. Outside an edit session this is a no-op; an empty
    /// buffer discards the edit, renaming nothing.
    pub fn finish_input(&mut self, id: usize) -> (r: bool)
        ensures
            old(self)@.editing is None ==> final(self)@ == old(self)@ && !r,
            old(self)@.editing is Some && old(self)@.input.len() == 0 ==> final(self)@
                == (StateV { editing: None, ..old(self)@ }) && !r,
            old(self)@.editing is Some && old(self)@.input.len() > 0 ==> final(self)@
                == (StateV {
                editing: None,
                input: Seq::<char>::empty(),
                root: old(self)@.root.rename(id, old(self)@.input),
                ..old(self)@
            }) && r == old(self)@.root.rename_hit(id),
            old(self)@.wf() ==> final(self)@.wf(),
    {
        if self.editing.is_none() {
            return false;
        }
        self.editing = None;
        if self.input.as_str().is_empty() {
            return false;
        }
        let mut name = String::new();
        core::mem::swap(&mut self.input, &mut name);
        let mut tmp = Entry::Task(Task { name: String::new(), done: false, id: 0 });
        core::mem::swap(&mut self.root, &mut tmp);
        let ghost rv = tmp@;
        let (e2, hit) = rename_entry(tmp, id, &name);
        self.root = e2;
        proof {
            laws::lemma_rename_preserves(rv, id, name@);
            if old(self)@.wf() {
                laws::lemma_parent_field_preserved(rv, final(self)@.root);
            }
        }
        hit
    }
}

/// The model of a move: the entry is looked up, the whole operation is
/// rejected if it is absent, would contain its own destination, the
/// destination is not a folder, or the position exceeds the destination's
/// length after removal; otherwise the entry's subtree is taken out of the
/// tree and inserted, reparented, at the position.
pub open spec fn spec_move(root: TreeV, fid: usize, item: usize, pos: usize) -> (TreeV, bool) {
    match root.find(item) {
        None => (root, false),
        Some(e) => {
            if e.ids().contains(fid) {
                (root, false)
            } else {
                match root.find(fid) {
                    Some(f) => if f is Folder {
                        let moved = root.delete(item).insert_child_at(
                            fid,
                            pos,
                            e.with_parent(Some(fid)),
                        );
                        if moved.1 {
                            (moved.0, true)
                        } else {
                            (root, false)
                        }
                    } else {
                        (root, false)
                    },
                    None => (root, false),
                }
            }
        },
    }
}

impl State {
    /// Relocates the entry with the given id, and its whole subtree, to the
    /// given index of the destination folder's sequence. A move that would
    /// place an entry inside its own subtree, a missing entry or
    /// destination, a destination that is not a folder, or an index past
    /// the destination's length is rejected with no effect.
    #[verifier::loop_isolation(false)]
    pub fn move_entry(&mut self, folder_id: usize, item_id: usize, position: usize) -> (r: bool)
        requires
            old(self)@.wf(),
        ensures
            final(self)@.wf(),
            final(self)@ == (StateV {
                root: spec_move(old(self)@.root, folder_id, item_id, position).0,
                ..old(self)@
            }),
            r == spec_move(old(self)@.root, folder_id, item_id, position).1,
    {
        let ghost rv = old(self)@.root;
        let copy: Entry;
        match self.root.find(item_id) {
            None => {
                return false;
            },
            Some(e) => {
                if e.find(folder_id).is_some() {
                    proof {
                        laws::lemma_find_contains(e@, folder_id);
                    }
                    return false;
                }
                proof {
                    laws::lemma_find_contains(e@, folder_id);
                }
                copy = e.duplicate();
            },
        }
        let ghost ev = copy@;
        let dlen: usize;
        let mut cnt: usize = 0;
        match self.root.find(folder_id) {
            None => {
                return false;
            },
            Some(d) => match d {
                Entry::Task(_) => {
                    return false;
                },
                Entry::Folder(df) => {
                    proof {
                        crate::tree::lemma_seq_view(df.entries@);
                    }
                    let ghost dvs = Entry::seq_view(df.entries@);
                    proof {
                        assert(dvs.skip(0) =~= dvs);
                    }
                    dlen = df.entries.len();
                    let mut i: usize = 0;
                    while i < df.entries.len()
                        invariant
                            0 <= i <= df.entries.len(),
                            cnt <= i,
                            laws::count_matching(dvs, item_id) == cnt + laws::count_matching(
                                dvs.skip(i as int),
                                item_id,
                            ),
                        decreases df.entries.len() - i,
                    {
                        proof {
                            assert(dvs.skip(i as int)[0] == dvs[i as int]);
                            assert(dvs.skip(i as int).drop_first() =~= dvs.skip(i + 1 as int));
                        }
                        if df.entries[i].id() == item_id {
                            cnt = cnt + 1;
                        }
                        i = i + 1;
                    }
                    proof {
                        assert(dvs.skip(dlen as int).len() == 0);
                        assert(laws::count_matching(dvs, item_id) == cnt);
                        laws::lemma_delete_from_len(dvs, item_id);
                    }
                },
            },
        }
        let ghost fv = rv.find(folder_id)->Some_0;
        proof {
            assert(fv is Folder && fv->entries.len() == dlen);
            laws::lemma_find_id(rv, item_id);
            assert(ev.ids()[0] == ev.id());
            assert(ev.ids().contains(item_id));
            if folder_id == item_id {
                assert(ev.ids().contains(folder_id));
                assert(false);
            }
            if rv.id() == item_id {
                laws::lemma_find_contains(rv, folder_id);
                assert(false);
            }
            laws::lemma_delete_find(rv, item_id, folder_id);
            laws::lemma_delete_from_len(fv->entries, item_id);
        }
        if position > dlen - cnt {
            proof {
                laws::lemma_delete_ids(rv, item_id);
                laws::lemma_insert_target_full(
                    rv.delete(item_id),
                    folder_id,
                    position,
                    ev.with_parent(Some(folder_id)),
                );
                laws::lemma_delete_ids(rv, item_id);
            }
            return false;
        }
        let copy2 = match copy {
            Entry::Folder(f) => Entry::Folder(
                Folder { name: f.name, entries: f.entries, parent: Some(folder_id), id: f.id },
            ),
            t => t,
        };
        proof {
            assert(copy2@ == ev.with_parent(Some(folder_id)));
        }
        let mut tmp = Entry::Task(Task { name: String::new(), done: false, id: 0 });
        core::mem::swap(&mut self.root, &mut tmp);
        let tmp2 = match tmp {
            Entry::Folder(mut f) => {
                f.delete(item_id);
                Entry::Folder(f)
            },
            t => t,
        };
        proof {
            assert(tmp2@ == rv.delete(item_id));
            laws::lemma_insert_target_found(
                rv.delete(item_id),
                folder_id,
                position,
                ev.with_parent(Some(folder_id)),
            );
        }
        let (root3, _back) = insert_child_at_entry(tmp2, folder_id, position, copy2);
        self.root = root3;
        proof {
            let cw = ev.with_parent(Some(folder_id));
            let pruned = rv.delete(item_id);
            laws::lemma_delete_ids(rv, item_id);
            laws::lemma_delete_parent_ok(rv, item_id);
            laws::lemma_find_subtree_wf(rv, item_id);
            laws::lemma_find_subtree_ids(rv, item_id);
            laws::lemma_delete_completeness(rv, item_id);
            assert(cw.ids() =~= ev.ids());
            assert(cw.parent_ok() == ev.parent_ok());
            assert(cw.child_parent_ok(folder_id));
            assert forall|x: usize|
                !(pruned.ids().contains(x) && #[trigger] cw.ids().contains(x)) by {
                if cw.ids().contains(x) {
                    assert(ev.ids().contains(x));
                }
            }
            laws::lemma_insert_effects(pruned, folder_id, position, cw);
            laws::lemma_parent_field_preserved(rv, pruned);
            laws::lemma_parent_field_preserved(pruned, final(self)@.root);
            assert forall|x: usize| #[trigger]
                final(self)@.root.ids().contains(x) implies x <= old(self)@.latest_id by {
                assert(pruned.ids().contains(x) || cw.ids().contains(x));
                if cw.ids().contains(x) {
                    assert(rv.ids().contains(x));
                }
            }
        }
        true
    }
}

/// The index of the direct child carrying the given id, if any.
pub open spec fn child_pos(es: Seq<TreeV>, id: usize) -> Option<int>
    decreases es,
{
    if es.len() == 0 {
        None
    } else if es[0].id() == id {
        Some(0int)
    } else {
        match child_pos(es.drop_first(), id) {
            Some(p) => Some(p + 1),
            None => None,
        }
    }
}

/// Where a child is reported, it is in range and carries the id.
pub proof fn lemma_child_pos(es: Seq<TreeV>, id: usize)
    ensures
        match child_pos(es, id) {
            Some(p) => 0 <= p < es.len() && es[p].id() == id,
            None => forall|k: int| 0 <= k < es.len() ==> (#[trigger] es[k].id()) != id,
        },
    decreases es,
{
    if es.len() > 0 {
        lemma_child_pos(es.drop_first(), id);
        if es[0].id() != id {
            match child_pos(es.drop_first(), id) {
                Some(p) => {
                    assert(es.drop_first()[p] == es[p + 1]);
                },
                None => {
                    assert forall|k: int| 0 <= k < es.len() implies (#[trigger] es[k].id())
                        != id by {
                        if k > 0 {
                            assert(es.drop_first()[k - 1] == es[k]);
                        }
                    }
                },
            }
        }
    }
}

impl State {
    /// The wrap-around target index for the entry at index `j` of a folder
    /// with `n` entries when it moves one place up: the previous index, or
    /// the last one from the top.
    pub open spec fn up_target(j: int, n: int) -> int {
        if j == 0 {
            n - 1
        } else {
            j - 1
        }
    }

    /// The wrap-around target index when the entry moves one place down:
    /// the next index, or the first one from the bottom.
    pub open spec fn down_target(j: int, n: int) -> int {
        if j == n - 1 {
            0
        } else {
            j + 1
        }
    }

    /// Moves the entry one place up among the entries of the given folder,
    /// wrapping from the first place to the last. A missing folder or an
    /// entry that is not among its direct children leaves everything
    /// unchanged.
    #[verifier::loop_isolation(false)]
    pub fn move_up(&mut self, folder_id: usize, item_id: usize) -> (r: bool)
        requires
            old(self)@.wf(),
        ensures
            final(self)@.wf(),
            match old(self)@.root.find(folder_id) {
                Some(f) => if f is Folder {
                    match child_pos(f->entries, item_id) {
                        Some(j) => final(self)@ == (StateV {
                            root: spec_move(
                                old(self)@.root,
                                folder_id,
                                item_id,
                                Self::up_target(j, f->entries.len() as int) as usize,
                            ).0,
                            ..old(self)@
                        }) && r == spec_move(
                            old(self)@.root,
                            folder_id,
                            item_id,
                            Self::up_target(j, f->entries.len() as int) as usize,
                        ).1,
                        None => !r && final(self)@ == old(self)@,
                    }
                } else {
                    !r && final(self)@ == old(self)@
                },
                None => !r && final(self)@ == old(self)@,
            },
    {
        let target: usize;
        match self.root.find(folder_id) {
            None => {
                return false;
            },
            Some(d) => match d {
                Entry::Task(_) => {
                    return false;
                },
                Entry::Folder(df) => {
                    proof {
                        crate::tree::lemma_seq_view(df.entries@);
                    }
                    let ghost dvs = Entry::seq_view(df.entries@);
                    proof {
                        lemma_child_pos(dvs, item_id);
                    }
                    let n = df.entries.len();
                    let mut i: usize = 0;
                    let mut pos: Option<usize> = None;
                    while i < n
                        invariant
                            0 <= i <= n,
                            match pos {
                                Some(p) => 0 <= p < i && dvs[p as int].id() == item_id
                                    && (forall|k: int| 0 <= k < p ==> (#[trigger] dvs[k].id()) != item_id),
                                None => forall|k: int| 0 <= k < i ==> (#[trigger] dvs[k].id()) != item_id,
                            },
                        decreases n - i,
                    {
                        if pos.is_none() && df.entries[i].id() == item_id {
                            pos = Some(i);
                        }
                        i = i + 1;
                    }
                    match pos {
                        None => {
                            proof {
                                if child_pos(dvs, item_id) is Some {
                                    let j = child_pos(dvs, item_id)->0;
                                    assert(dvs[j].id() == item_id);
                                }
                            }
                            return false;
                        },
                        Some(j) => {
                            proof {
                                lemma_child_pos_first(dvs, item_id, j as int);
                            }
                            target = if j == 0 {
                                n - 1
                            } else {
                                j - 1
                            };
                        },
                    }
                },
            },
        }
        self.move_entry(folder_id, item_id, target)
    }

    /// Moves the entry one place down among the entries of the given
    /// folder, wrapping from the last place to the first. A missing folder
    /// or an entry that is not among its direct children leaves everything
    /// unchanged.
    #[verifier::loop_isolation(false)]
    pub fn move_down(&mut self, folder_id: usize, item_id: usize) -> (r: bool)
        requires
            old(self)@.wf(),
        ensures
            final(self)@.wf(),
            match old(self)@.root.find(folder_id) {
                Some(f) => if f is Folder {
                    match child_pos(f->entries, item_id) {
                        Some(j) => final(self)@ == (StateV {
                            root: spec_move(
                                old(self)@.root,
                                folder_id,
                                item_id,
                                Self::down_target(j, f->entries.len() as int) as usize,
                            ).0,
                            ..old(self)@
                        }) && r == spec_move(
                            old(self)@.root,
                            folder_id,
                            item_id,
                            Self::down_target(j, f->entries.len() as int) as usize,
                        ).1,
                        None => !r && final(self)@ == old(self)@,
                    }
                } else {
                    !r && final(self)@ == old(self)@
                },
                None => !r && final(self)@ == old(self)@,
            },
    {
        let target: usize;
        match self.root.find(folder_id) {
            None => {
                return false;
            },
            Some(d) => match d {
                Entry::Task(_) => {
                    return false;
                },
                Entry::Folder(df) => {
                    proof {
                        crate::tree::lemma_seq_view(df.entries@);
                    }
                    let ghost dvs = Entry::seq_view(df.entries@);
                    proof {
                        lemma_child_pos(dvs, item_id);
                    }
                    let n = df.entries.len();
                    let mut i: usize = 0;
                    let mut pos: Option<usize> = None;
                    while i < n
                        invariant
                            0 <= i <= n,
                            match pos {
                                Some(p) => 0 <= p < i && dvs[p as int].id() == item_id
                                    && (forall|k: int| 0 <= k < p ==> (#[trigger] dvs[k].id()) != item_id),
                                None => forall|k: int| 0 <= k < i ==> (#[trigger] dvs[k].id()) != item_id,
                            },
                        decreases n - i,
                    {
                        if pos.is_none() && df.entries[i].id() == item_id {
                            pos = Some(i);
                        }
                        i = i + 1;
                    }
                    match pos {
                        None => {
                            proof {
                                if child_pos(dvs, item_id) is Some {
                                    let j = child_pos(dvs, item_id)->0;
                                    assert(dvs[j].id() == item_id);
                                }
                            }
                            return false;
                        },
                        Some(j) => {
                            proof {
                                lemma_child_pos_first(dvs, item_id, j as int);
                            }
                            target = if j == n - 1 {
                                0
                            } else {
                                j + 1
                            };
                        },
                    }
                },
            },
        }
        self.move_entry(folder_id, item_id, target)
    }
}

/// A command against the application state. The transport commands carry
/// no local mutation of their own: fetching is answered later by
/// `GotState`, posting reads the current snapshot without changing it.
pub enum Msg {
    GetState,
    PostState,
    GotState(State),
    Go(usize),
    GoBack,
    Delete(usize),
    AddTask,
    AddFolder,
    MoveUp(usize),
    MoveDown(usize),
    Toggle(usize),
    BeginInput(usize),
    UpdateInput(String),
    FinishInput(usize),
    Nope,
}

impl State {
    /// Applies one command atomically. The result reports whether the
    /// command had an observable effect; rejected commands leave the state
    /// exactly as it was.
    pub fn update(&mut self, msg: Msg) -> (r: bool)
        requires
            old(self)@.wf(),
            old(self)@.latest_id < usize::MAX,
            msg matches Msg::GotState(s) ==> s@.wf(),
        ensures
            final(self)@.wf(),
            match msg {
                Msg::GetState | Msg::PostState | Msg::Nope => final(self)@ == old(self)@ && !r,
                Msg::GotState(s) => final(self)@ == s@ && r,
                Msg::Go(id) => final(self)@ == (StateV { view: id, ..old(self)@ }) && r,
                Msg::GoBack => match old(self)@.root.find(old(self)@.view) {
                    Some(e) => if e is Folder && e->parent is Some {
                        r && final(self)@ == (StateV { view: e->parent->0, ..old(self)@ })
                    } else {
                        !r && final(self)@ == old(self)@
                    },
                    None => !r && final(self)@ == old(self)@,
                },
                Msg::Delete(id) => final(self)@ == (StateV {
                    root: old(self)@.root.delete(id),
                    ..old(self)@
                }) && r == (old(self)@.root.find(id) is Some && old(self)@.root.id() != id),
                Msg::AddTask => {
                    let nid = (old(self)@.latest_id + 1) as usize;
                    if old(self)@.input.len() == 0 {
                        final(self)@ == (StateV { editing: None, ..old(self)@ }) && !r
                    } else {
                        match old(self)@.root.find(old(self)@.view) {
                            Some(f) => if f is Folder {
                                r && final(self)@ == (StateV {
                                    editing: None,
                                    input: Seq::<char>::empty(),
                                    root: old(self)@.root.add_child(
                                        old(self)@.view,
                                        (TreeV::Task {
                                            name: old(self)@.input,
                                            done: false,
                                            id: nid,
                                        }),
                                    ).0,
                                    latest_id: nid,
                                    ..old(self)@
                                })
                            } else {
                                !r && final(self)@ == (StateV { editing: None, ..old(self)@ })
                            },
                            None => !r && final(self)@ == (StateV {
                                editing: None,
                                ..old(self)@
                            }),
                        }
                    }
                },
                Msg::AddFolder => {
                    let nid = (old(self)@.latest_id + 1) as usize;
                    if old(self)@.input.len() == 0 {
                        final(self)@ == (StateV { editing: None, ..old(self)@ }) && !r
                    } else {
                        match old(self)@.root.find(old(self)@.view) {
                            Some(f) => if f is Folder {
                                r && final(self)@ == (StateV {
                                    editing: None,
                                    input: Seq::<char>::empty(),
                                    root: old(self)@.root.add_child(
                                        old(self)@.view,
                                        (TreeV::Folder {
                                            name: old(self)@.input,
                                            entries: Seq::<TreeV>::empty(),
                                            parent: Some(old(self)@.view),
                                            id: nid,
                                        }),
                                    ).0,
                                    latest_id: nid,
                                    ..old(self)@
                                })
                            } else {
                                !r && final(self)@ == (StateV { editing: None, ..old(self)@ })
                            },
                            None => !r && final(self)@ == (StateV {
                                editing: None,
                                ..old(self)@
                            }),
                        }
                    }
                },
                Msg::MoveUp(id) => match old(self)@.root.find(old(self)@.view) {
                    Some(f) => if f is Folder {
                        match child_pos(f->entries, id) {
                            Some(j) => final(self)@ == (StateV {
                                root: spec_move(
                                    old(self)@.root,
                                    old(self)@.view,
                                    id,
                                    Self::up_target(j, f->entries.len() as int) as usize,
                                ).0,
                                ..old(self)@
                            }) && r == spec_move(
                                old(self)@.root,
                                old(self)@.view,
                                id,
                                Self::up_target(j, f->entries.len() as int) as usize,
                            ).1,
                            None => !r && final(self)@ == old(self)@,
                        }
                    } else {
                        !r && final(self)@ == old(self)@
                    },
                    None => !r && final(self)@ == old(self)@,
                },
                Msg::MoveDown(id) => match old(self)@.root.find(old(self)@.view) {
                    Some(f) => if f is Folder {
                        match child_pos(f->entries, id) {
                            Some(j) => final(self)@ == (StateV {
                                root: spec_move(
                                    old(self)@.root,
                                    old(self)@.view,
                                    id,
                                    Self::down_target(j, f->entries.len() as int) as usize,
                                ).0,
                                ..old(self)@
                            }) && r == spec_move(
                                old(self)@.root,
                                old(self)@.view,
                                id,
                                Self::down_target(j, f->entries.len() as int) as usize,
                            ).1,
                            None => !r && final(self)@ == old(self)@,
                        }
                    } else {
                        !r && final(self)@ == old(self)@
                    },
                    None => !r && final(self)@ == old(self)@,
                },
                Msg::Toggle(id) => final(self)@ == (StateV {
                    root: old(self)@.root.toggle(id),
                    ..old(self)@
                }) && r == old(self)@.root.toggle_hit(id),
                Msg::BeginInput(id) => final(self)@ == (StateV {
                    editing: Some(id),
                    ..old(self)@
                }) && r,
                Msg::UpdateInput(val) => final(self)@ == (StateV { input: val@, ..old(self)@ })
                    && r,
                Msg::FinishInput(id) => {
                    if old(self)@.editing is None {
                        final(self)@ == old(self)@ && !r
                    } else if old(self)@.input.len() == 0 {
                        final(self)@ == (StateV { editing: None, ..old(self)@ }) && !r
                    } else {
                        final(self)@ == (StateV {
                            editing: None,
                            input: Seq::<char>::empty(),
                            root: old(self)@.root.rename(id, old(self)@.input),
                            ..old(self)@
                        }) && r == old(self)@.root.rename_hit(id)
                    }
                },
            },
    {
        match msg {
            Msg::GetState => false,
            Msg::PostState => false,
            Msg::Nope => false,
            Msg::GotState(s) => {
                *self = s;
                true
            },
            Msg::Go(id) => {
                self.go(id);
                true
            },
            Msg::GoBack => self.go_back(),
            Msg::Delete(id) => self.delete(id),
            Msg::AddTask => {
                self.editing = None;
                if self.input.as_str().is_empty() {
                    return false;
                }
                let found = match self.root.find(self.view) {
                    Some(e) => match e {
                        Entry::Folder(_) => true,
                        Entry::Task(_) => false,
                    },
                    None => false,
                };
                if !found {
                    return false;
                }
                let mut name = String::new();
                core::mem::swap(&mut self.input, &mut name);
                let v = self.view;
                self.insert_task(v, name)
            },
            Msg::AddFolder => {
                self.editing = None;
                if self.input.as_str().is_empty() {
                    return false;
                }
                let found = match self.root.find(self.view) {
                    Some(e) => match e {
                        Entry::Folder(_) => true,
                        Entry::Task(_) => false,
                    },
                    None => false,
                };
                if !found {
                    return false;
                }
                let mut name = String::new();
                core::mem::swap(&mut self.input, &mut name);
                let v = self.view;
                self.insert_folder(v, name)
            },
            Msg::MoveUp(id) => {
                let v = self.view;
                self.move_up(v, id)
            },
            Msg::MoveDown(id) => {
                let v = self.view;
                self.move_down(v, id)
            },
            Msg::Toggle(id) => self.toggle(id),
            Msg::BeginInput(id) => {
                self.begin_input(id);
                true
            },
            Msg::UpdateInput(val) => {
                self.update_input(val);
                true
            },
            Msg::FinishInput(id) => self.finish_input(id),
        }
    }
}

impl State {
    /// Whether the state satisfies the invariant that every operation
    /// preserves: a parentless folder at the root, distinct ids, parent
    /// back-references consistent, and no id above the allocator.
    #[verifier::loop_isolation(false)]
    pub fn check_wf(&self) -> (r: bool)
        ensures
            r == self@.wf(),
    {
        let root_ok = match &self.root {
            Entry::Folder(f) => f.parent.is_none(),
            Entry::Task(_) => false,
        };
        if !root_ok {
            return false;
        }
        let mut ids: Vec<usize> = Vec::new();
        self.root.collect_ids(&mut ids);
        proof {
            assert(ids@ =~= self@.root.ids());
        }
        if !crate::tree::all_distinct(&ids) {
            return false;
        }
        if !self.root.check_parents() {
            return false;
        }
        let n = ids.len();
        let mut i: usize = 0;
        while i < n
            invariant
                0 <= i <= n,
                n == ids@.len(),
                forall|k: int| 0 <= k < i ==> #[trigger] ids@[k] <= self.id.latest_id,
            decreases n - i,
        {
            if ids[i] > self.id.latest_id {
                proof {
                    assert(self@.root.ids().contains(ids@[i as int]));
                }
                return false;
            }
            i = i + 1;
        }
        proof {
            assert forall|x: usize| #[trigger]
                self@.root.ids().contains(x) implies x <= self@.latest_id by {
                let k = choose|k: int| 0 <= k < ids@.len() && ids@[k] == x;
                assert(ids@[k] <= self.id.latest_id);
            }
        }
        true
    }
}

/// The reported child index is the first match.
pub proof fn lemma_child_pos_first(es: Seq<TreeV>, id: usize, j: int)
    requires
        0 <= j < es.len(),
        es[j].id() == id,
        forall|k: int| 0 <= k < j ==> (#[trigger] es[k].id()) != id,
    ensures
        child_pos(es, id) == Some(j),
    decreases es,
{
    if es[0].id() != id {
        assert forall|k: int| 0 <= k < j - 1 implies (#[trigger] es.drop_first()[k].id())
            != id by {
            assert(es.drop_first()[k] == es[k + 1]);
        }
        assert(es.drop_first()[j - 1] == es[j]);
        lemma_child_pos_first(es.drop_first(), id, j - 1);
    }
}

} // verus!
