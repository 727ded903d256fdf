//! The entry tree: folders and tasks, with lookup, deletion, reordering,
//! renaming, toggling and insertion, each proved against a mathematical
//! model of the tree.
use vstd::prelude::*;

verus! {

/// A task: a named item with a completion flag.
#[derive(PartialEq, Debug)]
pub struct Task {
    pub name: String,
    pub done: bool,
    pub id: usize,
}

/// A folder: a named, ordered collection of sub-entries. `parent` is the id
/// of the folder that directly contains this one, or `None` for the root.
#[derive(PartialEq, Debug)]
pub struct Folder {
    pub name: String,
    pub entries: Vec<Entry>,
    pub parent: Option<usize>,
    pub id: usize,
}

/// A node of the entry tree: either a folder or a task.
#[derive(PartialEq, Debug)]
pub enum Entry {
    Folder(Folder),
    Task(Task),
}

/// The mathematical model of an entry: the same tree over `Seq` and
/// `Seq<char>` values.
#[verifier::ext_equal]
pub enum TreeV {
    Folder { name: Seq<char>, entries: Seq<TreeV>, parent: Option<usize>, id: usize },
    Task { name: Seq<char>, done: bool, id: usize },
}

impl TreeV {
    pub open spec fn id(self) -> usize {
        match self {
            TreeV::Folder { id, .. } => id,
            TreeV::Task { id, .. } => id,
        }
    }

    /// All identifiers in this entry's subtree, own id first, depth-first.
    pub open spec fn ids(self) -> Seq<usize>
        decreases self,
    {
        match self {
            TreeV::Task { id, .. } => seq![id],
            TreeV::Folder { id, entries, .. } => seq![id] + Self::ids_seq(entries),
        }
    }

    pub open spec fn ids_seq(es: Seq<TreeV>) -> Seq<usize>
        decreases es,
    {
        if es.len() == 0 {
            Seq::empty()
        } else {
            es[0].ids() + Self::ids_seq(es.drop_first())
        }
    }

    /// Every folder's children that are folders point back at it.
    pub open spec fn parent_ok(self) -> bool
        decreases self,
    {
        match self {
            TreeV::Task { .. } => true,
            TreeV::Folder { id, entries, .. } => Self::parent_ok_seq(id, entries),
        }
    }

    pub open spec fn parent_ok_seq(pid: usize, es: Seq<TreeV>) -> bool
        decreases es,
    {
        if es.len() == 0 {
            true
        } else {
            es[0].child_parent_ok(pid) && es[0].parent_ok()
                && Self::parent_ok_seq(pid, es.drop_first())
        }
    }

    pub open spec fn child_parent_ok(self, pid: usize) -> bool {
        match self {
            TreeV::Folder { parent, .. } => parent == Some(pid),
            TreeV::Task { .. } => true,
        }
    }

    /// Well-formedness of a subtree: all ids distinct, and the parent
    /// back-references consistent with actual containment.
    pub open spec fn wf(self) -> bool {
        self.ids().no_duplicates() && self.parent_ok()
    }

    /// Acyclicity: no folder's own id occurs anywhere among its
    /// descendants, at any depth.
    pub open spec fn acyclic(self) -> bool
        decreases self,
    {
        match self {
            TreeV::Task { .. } => true,
            TreeV::Folder { id, entries, .. } => !Self::ids_seq(entries).contains(id)
                && Self::acyclic_seq(entries),
        }
    }

    pub open spec fn acyclic_seq(es: Seq<TreeV>) -> bool
        decreases es,
    {
        if es.len() == 0 {
            true
        } else {
            es[0].acyclic() && Self::acyclic_seq(es.drop_first())
        }
    }

    /// Depth-first lookup: the entry itself if the id matches, else the
    /// first hit among the children in order.
    pub open spec fn find(self, id: usize) -> Option<TreeV>
        decreases self,
    {
        match self {
            TreeV::Task { id: tid, .. } => if tid == id { Some(self) } else { None },
            TreeV::Folder { id: fid, entries, .. } => if fid == id {
                Some(self)
            } else {
                Self::find_seq(entries, id)
            },
        }
    }

    pub open spec fn find_seq(es: Seq<TreeV>, id: usize) -> Option<TreeV>
        decreases es,
    {
        if es.len() == 0 {
            None
        } else {
            match es[0].find(id) {
                Some(e) => Some(e),
                None => Self::find_seq(es.drop_first(), id),
            }
        }
    }
}

impl TreeV {
    /// Deletion: every entry with the given id is removed, together with its
    /// whole subtree; everything else keeps its relative order.
    pub open spec fn delete(self, id: usize) -> TreeV
        decreases self,
    {
        match self {
            TreeV::Task { .. } => self,
            TreeV::Folder { name, entries, parent, id: fid } => TreeV::Folder {
                name,
                entries: Self::delete_from(entries, id),
                parent,
                id: fid,
            },
        }
    }

    pub open spec fn delete_from(es: Seq<TreeV>, id: usize) -> Seq<TreeV>
        decreases es,
    {
        if es.len() == 0 {
            Seq::empty()
        } else {
            let rest = Self::delete_from(es.drop_first(), id);
            if es[0].id() == id {
                rest
            } else {
                seq![es[0].delete(id)] + rest
            }
        }
    }

    /// Toggling: the task with the given id has its flag flipped; a folder
    /// with that id rejects the operation and shields its subtree.
    pub open spec fn toggle(self, id: usize) -> TreeV
        decreases self,
    {
        match self {
            TreeV::Task { name, done, id: tid } => if tid == id {
                TreeV::Task { name, done: !done, id: tid }
            } else {
                self
            },
            TreeV::Folder { name, entries, parent, id: fid } => if fid == id {
                self
            } else {
                TreeV::Folder { name, entries: Self::toggle_seq(entries, id), parent, id: fid }
            },
        }
    }

    pub open spec fn toggle_seq(es: Seq<TreeV>, id: usize) -> Seq<TreeV>
        decreases es,
    {
        if es.len() == 0 {
            Seq::empty()
        } else {
            seq![es[0].toggle(id)] + Self::toggle_seq(es.drop_first(), id)
        }
    }

    /// Whether toggling the given id takes effect: a task with that id is
    /// reached before any folder with the same id shadows it.
    pub open spec fn toggle_hit(self, id: usize) -> bool
        decreases self,
    {
        match self {
            TreeV::Task { id: tid, .. } => tid == id,
            TreeV::Folder { id: fid, entries, .. } => fid != id && Self::toggle_hit_seq(
                entries,
                id,
            ),
        }
    }

    pub open spec fn toggle_hit_seq(es: Seq<TreeV>, id: usize) -> bool
        decreases es,
    {
        if es.len() == 0 {
            false
        } else {
            es[0].toggle_hit(id) || Self::toggle_hit_seq(es.drop_first(), id)
        }
    }

    /// Renaming: the entry with the given id, folder or task, gets the new
    /// name; everything else is unchanged.
    pub open spec fn rename(self, id: usize, name: Seq<char>) -> TreeV
        decreases self,
    {
        match self {
            TreeV::Task { name: n, done, id: tid } => if tid == id {
                TreeV::Task { name, done, id: tid }
            } else {
                self
            },
            TreeV::Folder { name: n, entries, parent, id: fid } => if fid == id {
                TreeV::Folder { name, entries, parent, id: fid }
            } else {
                TreeV::Folder {
                    name: n,
                    entries: Self::rename_seq(entries, id, name),
                    parent,
                    id: fid,
                }
            },
        }
    }

    pub open spec fn rename_seq(es: Seq<TreeV>, id: usize, name: Seq<char>) -> Seq<TreeV>
        decreases es,
    {
        if es.len() == 0 {
            Seq::empty()
        } else {
            seq![es[0].rename(id, name)] + Self::rename_seq(es.drop_first(), id, name)
        }
    }

    /// Whether renaming the given id takes effect: some entry carries it.
    pub open spec fn rename_hit(self, id: usize) -> bool
        decreases self,
    {
        match self {
            TreeV::Task { id: tid, .. } => tid == id,
            TreeV::Folder { id: fid, entries, .. } => fid == id || Self::rename_hit_seq(
                entries,
                id,
            ),
        }
    }

    pub open spec fn rename_hit_seq(es: Seq<TreeV>, id: usize) -> bool
        decreases es,
    {
        if es.len() == 0 {
            false
        } else {
            es[0].rename_hit(id) || Self::rename_hit_seq(es.drop_first(), id)
        }
    }

    /// Appending a child to the folder with the given id; the first such
    /// folder in depth-first order receives it.
    pub open spec fn add_child(self, fid: usize, c: TreeV) -> (TreeV, bool)
        decreases self,
    {
        match self {
            TreeV::Task { .. } => (self, false),
            TreeV::Folder { name, entries, parent, id } => if id == fid {
                (TreeV::Folder { name, entries: entries.push(c), parent, id }, true)
            } else {
                let (es, ok) = Self::add_child_seq(entries, fid, c);
                (TreeV::Folder { name, entries: es, parent, id }, ok)
            },
        }
    }

    pub open spec fn add_child_seq(es: Seq<TreeV>, fid: usize, c: TreeV) -> (Seq<TreeV>, bool)
        decreases es,
    {
        if es.len() == 0 {
            (es, false)
        } else {
            let (h, ok) = es[0].add_child(fid, c);
            if ok {
                (seq![h] + es.drop_first(), true)
            } else {
                let (rest, ok2) = Self::add_child_seq(es.drop_first(), fid, c);
                (seq![h] + rest, ok2)
            }
        }
    }

    /// Inserting a child at a given index of the folder with the given id;
    /// rejected when the index exceeds that folder's current length.
    pub open spec fn insert_child_at(self, fid: usize, pos: usize, c: TreeV) -> (TreeV, bool)
        decreases self,
    {
        match self {
            TreeV::Task { .. } => (self, false),
            TreeV::Folder { name, entries, parent, id } => if id == fid {
                if pos <= entries.len() {
                    (TreeV::Folder { name, entries: entries.insert(pos as int, c), parent, id }, true)
                } else {
                    (self, false)
                }
            } else {
                let (es, ok) = Self::insert_child_at_seq(entries, fid, pos, c);
                (TreeV::Folder { name, entries: es, parent, id }, ok)
            },
        }
    }

    pub open spec fn insert_child_at_seq(es: Seq<TreeV>, fid: usize, pos: usize, c: TreeV) -> (Seq<
        TreeV,
    >, bool)
        decreases es,
    {
        if es.len() == 0 {
            (es, false)
        } else {
            let (h, ok) = es[0].insert_child_at(fid, pos, c);
            if ok {
                (seq![h] + es.drop_first(), true)
            } else {
                let (rest, ok2) = Self::insert_child_at_seq(es.drop_first(), fid, pos, c);
                (seq![h] + rest, ok2)
            }
        }
    }

    /// The same folder with its entries replaced (a task is unchanged).
    pub open spec fn with_entries(self, es: Seq<TreeV>) -> TreeV {
        match self {
            TreeV::Task { .. } => self,
            TreeV::Folder { name, entries, parent, id } => TreeV::Folder {
                name,
                entries: es,
                parent,
                id,
            },
        }
    }

    /// The same entry with its parent back-reference replaced (tasks carry
    /// none).
    pub open spec fn with_parent(self, p: Option<usize>) -> TreeV {
        match self {
            TreeV::Task { .. } => self,
            TreeV::Folder { name, entries, parent, id } => TreeV::Folder {
                name,
                entries,
                parent: p,
                id,
            },
        }
    }
}

impl Task {
    pub open spec fn view(self) -> TreeV {
        TreeV::Task { name: self.name@, done: self.done, id: self.id }
    }
}

impl Folder {
    pub open spec fn view(self) -> TreeV {
        TreeV::Folder {
            name: self.name@,
            entries: Entry::seq_view(self.entries@),
            parent: self.parent,
            id: self.id,
        }
    }
}

impl Entry {
    pub open spec fn view(self) -> TreeV
        decreases self,
    {
        match self {
            Entry::Task(t) => TreeV::Task { name: t.name@, done: t.done, id: t.id },
            Entry::Folder(f) => TreeV::Folder {
                name: f.name@,
                entries: Self::seq_view(f.entries@),
                parent: f.parent,
                id: f.id,
            },
        }
    }

    pub open spec fn seq_view(es: Seq<Entry>) -> Seq<TreeV>
        decreases es,
    {
        if es.len() == 0 {
            Seq::empty()
        } else {
            seq![es[0].view()] + Self::seq_view(es.drop_first())
        }
    }
}

impl Entry {
    /// The identifier of this entry, whichever variant it is.
    pub fn id(&self) -> (r: usize)
        ensures
            r == self@.id(),
    {
        match self {
            Entry::Folder(f) => f.id,
            Entry::Task(t) => t.id,
        }
    }

    /// Depth-first search for the entry with the given id: the entry itself
    /// first, then its children in order, short-circuiting on the first hit.
    #[verifier::loop_isolation(false)]
    pub fn find(&self, id: usize) -> (r: Option<&Entry>)
        ensures
            match r {
                Some(e) => self@.find(id) == Some(e@),
                None => self@.find(id) is None,
            },
        decreases *self,
    {
        match self {
            Entry::Task(t) => if t.id == id { Some(self) } else { None },
            Entry::Folder(f) => {
                if f.id == id {
                    return Some(self);
                }
                proof {
                    lemma_seq_view(f.entries@);
                    assert(Entry::seq_view(f.entries@).skip(0) =~= Entry::seq_view(f.entries@));
                }
                let ghost evs = Entry::seq_view(f.entries@);
                let mut i: usize = 0;
                while i < f.entries.len()
                    invariant
                        0 <= i <= f.entries.len(),
                        evs == Entry::seq_view(f.entries@),
                        evs.len() == f.entries@.len(),
                        forall|j: int| 0 <= j < f.entries@.len()
                            ==> evs[j] == #[trigger] f.entries@[j].view(),
                        TreeV::find_seq(evs, id) == TreeV::find_seq(evs.skip(i as int), id),
                    decreases f.entries.len() - i,
                {
                    proof {
                        assert(decreases_to!(Entry::Folder(*f) => *f));
                        assert(decreases_to!(*f => f.entries));
                        assert(decreases_to!(f.entries => f.entries@));
                        vstd::seq::axiom_seq_index_decreases(f.entries@, i as int);
                    }
                    let r = f.entries[i].find(id);
                    if r.is_some() {
                        proof {
                            assert(evs.skip(i as int)[0] == evs[i as int]);
                        }
                        return r;
                    }
                    proof {
                        assert(evs.skip(i as int)[0] == evs[i as int]);
                        assert(evs.skip(i as int).drop_first() =~= evs.skip(i + 1 as int));
                    }
                    i = i + 1;
                }
                proof {
                    assert(evs.skip(i as int).len() == 0);
                }
                None
            },
        }
    }
}

impl Entry {
    /// A structurally identical copy of this entry and its whole subtree.
    #[verifier::loop_isolation(false)]
    pub fn duplicate(&self) -> (r: Entry)
        ensures
            r@ == self@,
        decreases *self,
    {
        match self {
            Entry::Task(t) => Entry::Task(Task { name: t.name.clone(), done: t.done, id: t.id }),
            Entry::Folder(f) => {
                proof {
                    lemma_seq_view(f.entries@);
                }
                let mut out: Vec<Entry> = Vec::new();
                let mut i: usize = 0;
                while i < f.entries.len()
                    invariant
                        0 <= i <= f.entries.len(),
                        out@.len() == i,
                        forall|j: int| 0 <= j < i ==> #[trigger] out@[j]@ == f.entries@[j]@,
                    decreases f.entries.len() - i,
                {
                    proof {
                        assert(decreases_to!(Entry::Folder(*f) => *f));
                        assert(decreases_to!(*f => f.entries));
                        assert(decreases_to!(f.entries => f.entries@));
                        vstd::seq::axiom_seq_index_decreases(f.entries@, i as int);
                    }
                    let c = f.entries[i].duplicate();
                    out.push(c);
                    i = i + 1;
                }
                let r = Entry::Folder(
                    Folder { name: f.name.clone(), entries: out, parent: f.parent, id: f.id },
                );
                proof {
                    lemma_seq_view(r->Folder_0.entries@);
                    assert(Entry::seq_view(r->Folder_0.entries@) =~= Entry::seq_view(f.entries@));
                }
                r
            },
        }
    }
}

impl Entry {
    /// Appends every identifier of this entry's subtree, in depth-first
    /// order.
    #[verifier::loop_isolation(false)]
    pub fn collect_ids(&self, out: &mut Vec<usize>)
        ensures
            final(out)@ == old(out)@ + self@.ids(),
        decreases *self,
    {
        match self {
            Entry::Task(t) => {
                out.push(t.id);
                proof {
                    assert(out@ =~= old(out)@ + self@.ids());
                }
            },
            Entry::Folder(f) => {
                out.push(f.id);
                proof {
                    lemma_seq_view(f.entries@);
                }
                let ghost evs = Entry::seq_view(f.entries@);
                let ghost base = out@;
                let n = f.entries.len();
                let mut i: usize = 0;
                while i < n
                    invariant
                        0 <= i <= n,
                        n == f.entries@.len(),
                        out@ == base + TreeV::ids_seq(evs.take(i as int)),
                    decreases n - i,
                {
                    proof {
                        assert(decreases_to!(Entry::Folder(*f) => *f));
                        assert(decreases_to!(*f => f.entries));
                        assert(decreases_to!(f.entries => f.entries@));
                        vstd::seq::axiom_seq_index_decreases(f.entries@, i as int);
                    }
                    f.entries[i].collect_ids(out);
                    proof {
                        assert(evs.take(i as int).push(evs[i as int]) =~= evs.take(i + 1 as int));
                        assert(evs.take(i as int) + seq![evs[i as int]] =~= evs.take(i + 1 as int));
                        crate::laws::lemma_ids_seq_concat(evs.take(i as int), seq![evs[i as int]]);
                        crate::laws::lemma_ids_seq_single(evs[i as int]);
                        assert(out@ =~= base + TreeV::ids_seq(evs.take(i + 1 as int)));
                    }
                    i = i + 1;
                }
                proof {
                    assert(evs.take(n as int) =~= evs);
                    assert(out@ =~= old(out)@ + self@.ids());
                }
            },
        }
    }

    /// Whether every folder below this entry is pointed back at by its
    /// folder children.
    #[verifier::loop_isolation(false)]
    pub fn check_parents(&self) -> (r: bool)
        ensures
            r == self@.parent_ok(),
        decreases *self,
    {
        match self {
            Entry::Task(_) => true,
            Entry::Folder(f) => {
                proof {
                    lemma_seq_view(f.entries@);
                }
                let ghost evs = Entry::seq_view(f.entries@);
                let n = f.entries.len();
                let mut i: usize = 0;
                let mut ok = true;
                while i < n
                    invariant
                        0 <= i <= n,
                        n == f.entries@.len(),
                        ok == TreeV::parent_ok_seq(f.id, evs.take(i as int)),
                    decreases n - i,
                {
                    proof {
                        assert(decreases_to!(Entry::Folder(*f) => *f));
                        assert(decreases_to!(*f => f.entries));
                        assert(decreases_to!(f.entries => f.entries@));
                        vstd::seq::axiom_seq_index_decreases(f.entries@, i as int);
                    }
                    let c = &f.entries[i];
                    let link_ok = match c {
                        Entry::Folder(g) => match g.parent {
                            Some(p) => p == f.id,
                            None => false,
                        },
                        Entry::Task(_) => true,
                    };
                    let sub_ok = c.check_parents();
                    ok = ok && link_ok && sub_ok;
                    proof {
                        assert(evs.take(i as int).push(evs[i as int]) =~= evs.take(i + 1 as int));
                        assert(evs.take(i as int) + seq![evs[i as int]] =~= evs.take(i + 1 as int));
                        crate::laws::lemma_parent_ok_seq_concat(
                            f.id,
                            evs.take(i as int),
                            seq![evs[i as int]],
                        );
                        crate::laws::lemma_parent_ok_single(f.id, evs[i as int]);
                    }
                    i = i + 1;
                }
                proof {
                    assert(evs.take(n as int) =~= evs);
                }
                ok
            },
        }
    }
}

/// Whether a list of identifiers is free of duplicates.
#[verifier::loop_isolation(false)]
pub fn all_distinct(ids: &Vec<usize>) -> (r: bool)
    ensures
        r == ids@.no_duplicates(),
{
    let n = ids.len();
    let mut i: usize = 0;
    while i < n
        invariant
            0 <= i <= n,
            n == ids@.len(),
            forall|a: int, b: int| 0 <= a < i && a < b < n ==> ids@[a] != ids@[b],
        decreases n - i,
    {
        let mut j: usize = i + 1;
        while j < n
            invariant
                i < j <= n,
                n == ids@.len(),
                forall|b: int| i < b < j ==> ids@[i as int] != ids@[b],
            decreases n - j,
        {
            if ids[i] == ids[j] {
                return false;
            }
            j = j + 1;
        }
        i = i + 1;
    }
    true
}

/// Removes every entry with the given id, with its whole subtree, from the
/// sequence, keeping the order of the rest.
pub fn delete_entries(es: Vec<Entry>, id: usize) -> (r: Vec<Entry>)
    ensures
        Entry::seq_view(r@) == TreeV::delete_from(Entry::seq_view(es@), id),
    decreases es@,
{
    let ghost orig = es@;
    let mut es = es;
    if es.len() == 0 {
        assert(Entry::seq_view(orig) =~= Seq::<TreeV>::empty());
        return es;
    }
    let e0 = es.remove(0);
    proof {
        assert(es@ =~= orig.subrange(1, orig.len() as int));
        vstd::seq::axiom_seq_subrange_decreases(orig, 1, orig.len() as int);
        assert(orig.drop_first() == es@);
    }
    let rest = delete_entries(es, id);
    let ghost ov = Entry::seq_view(orig);
    proof {
        assert(ov == seq![e0@] + Entry::seq_view(orig.drop_first()));
        assert(ov.drop_first() =~= Entry::seq_view(orig.drop_first()));
        assert(ov[0] == e0@);
    }
    match e0 {
        Entry::Task(t) => {
            if t.id == id {
                rest
            } else {
                let mut rest = rest;
                let ghost prev = rest@;
                let keep = Entry::Task(t);
                let ghost kev: Entry = keep;
                rest.insert(0, keep);
                proof {
                    assert(rest@ =~= seq![kev] + prev);
                    lemma_seq_view_cons(kev, prev);
                    assert(kev@.delete(id) == kev@);
                }
                rest
            }
        },
        Entry::Folder(f) => {
            if f.id == id {
                rest
            } else {
                proof {
                    vstd::seq::axiom_seq_index_decreases(orig, 0);
                    assert(orig[0] == Entry::Folder(f));
                    assert(decreases_to!(Entry::Folder(f) => f));
                    assert(decreases_to!(f => f.entries));
                    assert(decreases_to!(f.entries => f.entries@));
                }
                let ghost fv = Entry::Folder(f)@;
                let Folder { name, entries, parent, id: fid } = f;
                let sub = delete_entries(entries, id);
                let mut rest = rest;
                let keep = Entry::Folder(Folder { name, entries: sub, parent, id: fid });
                let ghost kev: Entry = keep;
                let ghost prev = rest@;
                rest.insert(0, keep);
                proof {
                    assert(rest@ =~= seq![kev] + prev);
                    lemma_seq_view_cons(kev, prev);
                    assert(kev@ =~= fv.delete(id));
                }
                rest
            }
        },
    }
}

/// Prepending an entry to a sequence prepends its view to the view of the
/// sequence.
pub proof fn lemma_seq_view_cons(x: Entry, s: Seq<Entry>)
    ensures
        Entry::seq_view(seq![x] + s) == seq![x@] + Entry::seq_view(s),
{
    assert((seq![x] + s).drop_first() =~= s);
    assert((seq![x] + s)[0] == x);
}

/// Appending an entry to a sequence appends its view to the view of the
/// sequence.
pub proof fn lemma_seq_view_push(s: Seq<Entry>, x: Entry)
    ensures
        Entry::seq_view(s.push(x)) == Entry::seq_view(s).push(x@),
{
    lemma_seq_view(s.push(x));
    lemma_seq_view(s);
    assert(Entry::seq_view(s.push(x)) =~= Entry::seq_view(s).push(x@));
}

/// Flips the completion flag of the task with the given id; a folder with
/// that id rejects the operation. The flag reports whether a task was hit.
pub fn toggle_entry(e: Entry, id: usize) -> (r: (Entry, bool))
    ensures
        r.0@ == e@.toggle(id),
        r.1 == e@.toggle_hit(id),
    decreases e,
{
    match e {
        Entry::Task(t) => {
            if t.id == id {
                (Entry::Task(Task { name: t.name, done: !t.done, id: t.id }), true)
            } else {
                (Entry::Task(t), false)
            }
        },
        Entry::Folder(f) => {
            if f.id == id {
                (Entry::Folder(f), false)
            } else {
                proof {
                    assert(decreases_to!(Entry::Folder(f) => f));
                    assert(decreases_to!(f => f.entries));
                    assert(decreases_to!(f.entries => f.entries@));
                }
                let Folder { name, entries, parent, id: fid } = f;
                let (es, hit) = toggle_entries(entries, id);
                (Entry::Folder(Folder { name, entries: es, parent, id: fid }), hit)
            }
        },
    }
}

pub fn toggle_entries(es: Vec<Entry>, id: usize) -> (r: (Vec<Entry>, bool))
    ensures
        Entry::seq_view(r.0@) == TreeV::toggle_seq(Entry::seq_view(es@), id),
        r.1 == TreeV::toggle_hit_seq(Entry::seq_view(es@), id),
    decreases es@,
{
    let ghost orig = es@;
    let mut es = es;
    if es.len() == 0 {
        assert(Entry::seq_view(orig) =~= Seq::<TreeV>::empty());
        return (es, false);
    }
    let e0 = es.remove(0);
    proof {
        vstd::seq::axiom_seq_index_decreases(orig, 0);
        assert(es@ =~= orig.subrange(1, orig.len() as int));
        vstd::seq::axiom_seq_subrange_decreases(orig, 1, orig.len() as int);
        assert(orig.drop_first() == es@);
        assert(e0 == orig[0]);
    }
    let ghost ov = Entry::seq_view(orig);
    proof {
        assert(ov == seq![e0@] + Entry::seq_view(orig.drop_first()));
        assert(ov.drop_first() =~= Entry::seq_view(orig.drop_first()));
        assert(ov[0] == e0@);
    }
    let (h, hit0) = toggle_entry(e0, id);
    let (rest, hit1) = toggle_entries(es, id);
    let mut rest = rest;
    let ghost prev = rest@;
    let ghost hv: Entry = h;
    rest.insert(0, h);
    proof {
        assert(rest@ =~= seq![hv] + prev);
        lemma_seq_view_cons(hv, prev);
    }
    (rest, hit0 || hit1)
}

/// Renames the entry with the given id, folder or task. The flag reports
/// whether an entry was hit.
pub fn rename_entry(e: Entry, id: usize, name: &String) -> (r: (Entry, bool))
    ensures
        r.0@ == e@.rename(id, name@),
        r.1 == e@.rename_hit(id),
    decreases e,
{
    match e {
        Entry::Task(t) => {
            if t.id == id {
                (Entry::Task(Task { name: name.clone(), done: t.done, id: t.id }), true)
            } else {
                (Entry::Task(t), false)
            }
        },
        Entry::Folder(f) => {
            if f.id == id {
                (
                    Entry::Folder(
                        Folder { name: name.clone(), entries: f.entries, parent: f.parent, id: f.id },
                    ),
                    true,
                )
            } else {
                proof {
                    assert(decreases_to!(Entry::Folder(f) => f));
                    assert(decreases_to!(f => f.entries));
                    assert(decreases_to!(f.entries => f.entries@));
                }
                let Folder { name: n, entries, parent, id: fid } = f;
                let (es, hit) = rename_entries(entries, id, name);
                (Entry::Folder(Folder { name: n, entries: es, parent, id: fid }), hit)
            }
        },
    }
}

pub fn rename_entries(es: Vec<Entry>, id: usize, name: &String) -> (r: (Vec<Entry>, bool))
    ensures
        Entry::seq_view(r.0@) == TreeV::rename_seq(Entry::seq_view(es@), id, name@),
        r.1 == TreeV::rename_hit_seq(Entry::seq_view(es@), id),
    decreases es@,
{
    let ghost orig = es@;
    let mut es = es;
    if es.len() == 0 {
        assert(Entry::seq_view(orig) =~= Seq::<TreeV>::empty());
        return (es, false);
    }
    let e0 = es.remove(0);
    proof {
        vstd::seq::axiom_seq_index_decreases(orig, 0);
        assert(es@ =~= orig.subrange(1, orig.len() as int));
        vstd::seq::axiom_seq_subrange_decreases(orig, 1, orig.len() as int);
        assert(orig.drop_first() == es@);
        assert(e0 == orig[0]);
    }
    let ghost ov = Entry::seq_view(orig);
    proof {
        assert(ov == seq![e0@] + Entry::seq_view(orig.drop_first()));
        assert(ov.drop_first() =~= Entry::seq_view(orig.drop_first()));
        assert(ov[0] == e0@);
    }
    let (h, hit0) = rename_entry(e0, id, name);
    let (rest, hit1) = rename_entries(es, id, name);
    let mut rest = rest;
    let ghost prev = rest@;
    let ghost hv: Entry = h;
    rest.insert(0, h);
    proof {
        assert(rest@ =~= seq![hv] + prev);
        lemma_seq_view_cons(hv, prev);
    }
    (rest, hit0 || hit1)
}

/// Appends a child to the first folder, in depth-first order, whose id
/// matches. The child is handed back untouched when no folder matches.
pub fn add_child_entry(e: Entry, fid: usize, c: Entry) -> (r: (Entry, Option<Entry>))
    ensures
        r.0@ == e@.add_child(fid, c@).0,
        e@.add_child(fid, c@).1 ==> r.1 is None,
        !e@.add_child(fid, c@).1 ==> r.1 == Some(c),
    decreases e,
{
    match e {
        Entry::Task(t) => (Entry::Task(t), Some(c)),
        Entry::Folder(f) => {
            if f.id == fid {
                let Folder { name, mut entries, parent, id } = f;
                let ghost prev = entries@;
                let ghost cv: Entry = c;
                entries.push(c);
                proof {
                    lemma_seq_view_push(prev, cv);
                }
                (Entry::Folder(Folder { name, entries, parent, id }), None)
            } else {
                proof {
                    assert(decreases_to!(Entry::Folder(f) => f));
                    assert(decreases_to!(f => f.entries));
                    assert(decreases_to!(f.entries => f.entries@));
                }
                let Folder { name, entries, parent, id } = f;
                let (es, back) = add_child_entries(entries, fid, c);
                (Entry::Folder(Folder { name, entries: es, parent, id }), back)
            }
        },
    }
}

pub fn add_child_entries(es: Vec<Entry>, fid: usize, c: Entry) -> (r: (Vec<Entry>, Option<Entry>))
    ensures
        Entry::seq_view(r.0@) == TreeV::add_child_seq(Entry::seq_view(es@), fid, c@).0,
        TreeV::add_child_seq(Entry::seq_view(es@), fid, c@).1 ==> r.1 is None,
        !TreeV::add_child_seq(Entry::seq_view(es@), fid, c@).1 ==> r.1 == Some(c),
    decreases es@,
{
    let ghost orig = es@;
    let mut es = es;
    if es.len() == 0 {
        assert(Entry::seq_view(orig) =~= Seq::<TreeV>::empty());
        return (es, Some(c));
    }
    let e0 = es.remove(0);
    proof {
        vstd::seq::axiom_seq_index_decreases(orig, 0);
        assert(es@ =~= orig.subrange(1, orig.len() as int));
        vstd::seq::axiom_seq_subrange_decreases(orig, 1, orig.len() as int);
        assert(orig.drop_first() == es@);
        assert(e0 == orig[0]);
    }
    let ghost ov = Entry::seq_view(orig);
    proof {
        assert(ov == seq![e0@] + Entry::seq_view(orig.drop_first()));
        assert(ov.drop_first() =~= Entry::seq_view(orig.drop_first()));
        assert(ov[0] == e0@);
    }
    let ghost cv: Entry = c;
    let (h, back) = add_child_entry(e0, fid, c);
    let ghost hv: Entry = h;
    match back {
        None => {
            let mut es = es;
            es.insert(0, h);
            proof {
                assert(es@ =~= seq![hv] + orig.drop_first());
                lemma_seq_view_cons(hv, orig.drop_first());
            }
            (es, None)
        },
        Some(c2) => {
            let (rest, back2) = add_child_entries(es, fid, c2);
            let mut rest = rest;
            let ghost prev = rest@;
            rest.insert(0, h);
            proof {
                assert(rest@ =~= seq![hv] + prev);
                lemma_seq_view_cons(hv, prev);
            }
            (rest, back2)
        },
    }
}

/// Inserts a child at the given index of the first folder, in depth-first
/// order, whose id matches; an index past that folder's length rejects the
/// operation and hands the child back.
pub fn insert_child_at_entry(e: Entry, fid: usize, pos: usize, c: Entry) -> (r: (
    Entry,
    Option<Entry>,
))
    ensures
        r.0@ == e@.insert_child_at(fid, pos, c@).0,
        e@.insert_child_at(fid, pos, c@).1 ==> r.1 is None,
        !e@.insert_child_at(fid, pos, c@).1 ==> r.1 == Some(c),
    decreases e,
{
    match e {
        Entry::Task(t) => (Entry::Task(t), Some(c)),
        Entry::Folder(f) => {
            if f.id == fid {
                proof {
                    lemma_seq_view(f.entries@);
                }
                if pos <= f.entries.len() {
                    let Folder { name, mut entries, parent, id } = f;
                    let ghost prev = entries@;
                    let ghost cv: Entry = c;
                    entries.insert(pos, c);
                    proof {
                        lemma_seq_view(prev);
                        lemma_seq_view(prev.insert(pos as int, cv));
                        assert(Entry::seq_view(prev.insert(pos as int, cv)) =~= Entry::seq_view(
                            prev,
                        ).insert(pos as int, cv@));
                    }
                    (Entry::Folder(Folder { name, entries, parent, id }), None)
                } else {
                    (Entry::Folder(f), Some(c))
                }
            } else {
                proof {
                    assert(decreases_to!(Entry::Folder(f) => f));
                    assert(decreases_to!(f => f.entries));
                    assert(decreases_to!(f.entries => f.entries@));
                }
                let Folder { name, entries, parent, id } = f;
                let (es, back) = insert_child_at_entries(entries, fid, pos, c);
                (Entry::Folder(Folder { name, entries: es, parent, id }), back)
            }
        },
    }
}

pub fn insert_child_at_entries(es: Vec<Entry>, fid: usize, pos: usize, c: Entry) -> (r: (
    Vec<Entry>,
    Option<Entry>,
))
    ensures
        Entry::seq_view(r.0@) == TreeV::insert_child_at_seq(Entry::seq_view(es@), fid, pos, c@).0,
        TreeV::insert_child_at_seq(Entry::seq_view(es@), fid, pos, c@).1 ==> r.1 is None,
        !TreeV::insert_child_at_seq(Entry::seq_view(es@), fid, pos, c@).1 ==> r.1 == Some(c),
    decreases es@,
{
    let ghost orig = es@;
    let mut es = es;
    if es.len() == 0 {
        assert(Entry::seq_view(orig) =~= Seq::<TreeV>::empty());
        return (es, Some(c));
    }
    let e0 = es.remove(0);
    proof {
        vstd::seq::axiom_seq_index_decreases(orig, 0);
        assert(es@ =~= orig.subrange(1, orig.len() as int));
        vstd::seq::axiom_seq_subrange_decreases(orig, 1, orig.len() as int);
        assert(orig.drop_first() == es@);
        assert(e0 == orig[0]);
    }
    let ghost ov = Entry::seq_view(orig);
    proof {
        assert(ov == seq![e0@] + Entry::seq_view(orig.drop_first()));
        assert(ov.drop_first() =~= Entry::seq_view(orig.drop_first()));
        assert(ov[0] == e0@);
    }
    let (h, back) = insert_child_at_entry(e0, fid, pos, c);
    let ghost hv: Entry = h;
    match back {
        None => {
            let mut es = es;
            es.insert(0, h);
            proof {
                assert(es@ =~= seq![hv] + orig.drop_first());
                lemma_seq_view_cons(hv, orig.drop_first());
            }
            (es, None)
        },
        Some(c2) => {
            let (rest, back2) = insert_child_at_entries(es, fid, pos, c2);
            let mut rest = rest;
            let ghost prev = rest@;
            rest.insert(0, h);
            proof {
                assert(rest@ =~= seq![hv] + prev);
                lemma_seq_view_cons(hv, prev);
            }
            (rest, back2)
        },
    }
}

impl Folder {
    /// Removes the entry with the given id, wherever it sits in this
    /// folder's subtree, together with that entry's own subtree. Removing an
    /// id that is absent changes nothing.
    pub fn delete(&mut self, id: usize)
        ensures
            final(self)@ == old(self)@.delete(id),
    {
        let mut tmp: Vec<Entry> = Vec::new();
        core::mem::swap(&mut tmp, &mut self.entries);
        self.entries = delete_entries(tmp, id);
    }
}

/// The view of a sequence of entries is the sequence of their views.
pub proof fn lemma_seq_view(es: Seq<Entry>)
    ensures
        Entry::seq_view(es).len() == es.len(),
        forall|i: int| 0 <= i < es.len() ==> #[trigger] Entry::seq_view(es)[i] == es[i].view(),
    decreases es,
{
    if es.len() > 0 {
        lemma_seq_view(es.drop_first());
        assert forall|i: int| 0 <= i < es.len() implies #[trigger] Entry::seq_view(es)[i]
            == es[i].view() by {
            if i > 0 {
                assert(Entry::seq_view(es)[i] == Entry::seq_view(es.drop_first())[i - 1]);
                assert(es.drop_first()[i - 1] == es[i]);
            }
        }
    }
}

} // verus!
