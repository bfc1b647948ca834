//! The parent index: for each directory, the surviving entries that sit
//! directly in it.

use crate::entry::{
    lemma_sort_keeps_entries, lemma_sort_loses_nothing, lemma_survivors_complete,
    lemma_survivors_sound, select_survivors, sort_by_path, sort_entries, survives, survivors, Entry,
};
use crate::filter::PathFilter;
use crate::path::{file_name_of, parent_of, path_file_name, path_parent};
use vstd::prelude::*;

verus! {

/// The entry sits directly in `dir` and has a name of its own to show.
pub open spec fn child_of(entry: Entry, dir: Seq<char>) -> bool {
    path_parent(entry.path@) == Some(dir) && path_file_name(entry.path@).is_some()
}

/// The entries of a sequence that sit directly in `dir`, in their order.
pub open spec fn children_among(s: Seq<Entry>, dir: Seq<char>) -> Seq<Entry>
    decreases s.len(),
{
    if s.len() == 0 {
        Seq::empty()
    } else {
        let rest = children_among(s.drop_last(), dir);
        if child_of(s.last(), dir) {
            rest.push(s.last())
        } else {
            rest
        }
    }
}

/// A directory and the entries directly in it.
pub struct Group {
    pub parent: String,
    pub children: Vec<Entry>,
}

/// The mapping from a directory's path to its children. A directory is
/// found by the text of its path.
pub struct ParentIndex {
    pub groups: Vec<Group>,
    /// No listed path is longer than this.
    pub span: Ghost<nat>,
}

impl ParentIndex {
    /// Some entry is listed under `dir`.
    pub open spec fn has_key(&self, dir: Seq<char>) -> bool {
        exists|i: int| 0 <= i < self.groups@.len() && (#[trigger] self.groups@[i]).parent@ == dir
    }

    /// The children listed under `dir`; none where `dir` is no key.
    pub open spec fn children_of(&self, dir: Seq<char>) -> Seq<Entry> {
        if self.has_key(dir) {
            let i = choose|i: int|
                0 <= i < self.groups@.len() && (#[trigger] self.groups@[i]).parent@ == dir;
            self.groups@[i].children@
        } else {
            Seq::empty()
        }
    }

    /// A listed child belongs under its key: the key is its parent, it has a
    /// name, and its path is longer than the key and within the span.
    pub open spec fn listed(&self, child: Entry, dir: Seq<char>) -> bool {
        child_of(child, dir) && dir.len() < child.path@.len() <= self.span@
    }

    /// No directory is a key twice, no key is without children, and every
    /// child is listed under its own parent.
    pub open spec fn wf(&self) -> bool {
        &&& forall|i: int, j: int|
            0 <= i < j < self.groups@.len() ==> (#[trigger] self.groups@[i]).parent@ != (
            #[trigger] self.groups@[j]).parent@
        &&& forall|i: int| 0 <= i < self.groups@.len() ==> (#[trigger] self.groups@[i]).children@.len() > 0
        &&& forall|i: int, k: int|
            0 <= i < self.groups@.len() && 0 <= k < self.groups@[i].children@.len() ==> self.listed(
                #[trigger] self.groups@[i].children@[k],
                self.groups@[i].parent@,
            )
    }

    /// The group found under a key is the one that `children_of` speaks of.
    pub proof fn lemma_lookup(&self, i: int)
        requires
            self.wf(),
            0 <= i < self.groups@.len(),
        ensures
            self.has_key(self.groups@[i].parent@),
            self.children_of(self.groups@[i].parent@) == self.groups@[i].children@,
    {
    }

    /// A directory is a key exactly when it has children listed.
    pub proof fn lemma_keys_have_children(&self, dir: Seq<char>)
        requires
            self.wf(),
        ensures
            self.has_key(dir) == (self.children_of(dir).len() > 0),
    {
    }

    /// Every child found under `dir` is listed there.
    pub proof fn lemma_children_listed(&self, dir: Seq<char>, k: int)
        requires
            self.wf(),
            0 <= k < self.children_of(dir).len(),
        ensures
            self.listed(self.children_of(dir)[k], dir),
    {
        let i = choose|i: int|
            0 <= i < self.groups@.len() && (#[trigger] self.groups@[i]).parent@ == dir;
        assert(self.listed(self.groups@[i].children@[k], self.groups@[i].parent@));
    }

    /// The empty index.
    pub fn new() -> (r: ParentIndex)
        ensures
            r.wf(),
            forall|dir: Seq<char>| !r.has_key(dir),
            forall|dir: Seq<char>| #[trigger] r.children_of(dir) == Seq::<Entry>::empty(),
    {
        ParentIndex { groups: Vec::new(), span: Ghost(0) }
    }

    /// Where the group of `dir` stands, if it has one.
    pub fn position(&self, dir: &String) -> (r: Option<usize>)
        ensures
            match r {
                Some(i) => i < self.groups@.len() && self.groups@[i as int].parent@ == dir@,
                None => !self.has_key(dir@),
            },
    {
        let mut i: usize = 0;
        while i < self.groups.len()
            invariant
                i <= self.groups@.len(),
                forall|j: int| 0 <= j < i ==> (#[trigger] self.groups@[j]).parent@ != dir@,
            decreases self.groups.len() - i,
        {
            if self.groups[i].parent == *dir {
                return Some(i);
            }
            i = i + 1;
        }
        None
    }

    /// Appends an entry to the child list of its parent directory. An entry
    /// without a parent or without a name of its own is not listed; the
    /// result says whether the entry was.
    pub fn insert(&mut self, entry: Entry) -> (r: bool)
        requires
            old(self).wf(),
        ensures
            final(self).wf(),
            r == (path_parent(entry.path@).is_some() && path_file_name(entry.path@).is_some()),
            forall|dir: Seq<char>| #[trigger]
                final(self).children_of(dir) == if child_of(entry, dir) {
                    old(self).children_of(dir).push(entry)
                } else {
                    old(self).children_of(dir)
                },
    {
        let parent = match parent_of(entry.path.as_str()) {
            Some(parent) => parent,
            None => {
                return false;
            },
        };
        if file_name_of(entry.path.as_str()).is_none() {
            return false;
        }
        let ghost before = *self;
        let ghost reach: nat = if entry.path@.len() > self.span@ {
            entry.path@.len()
        } else {
            self.span@
        };
        match self.position(&parent) {
            Some(i) => {
                let mut group = self.groups.remove(i);
                group.children.push(entry);
                self.groups.insert(i, group);
                self.span = Ghost(reach);
                proof {
                    assert(self.groups@.len() == before.groups@.len());
                    assert forall|j: int| 0 <= j < self.groups@.len() implies (
                    #[trigger] self.groups@[j]).parent@ == before.groups@[j].parent@ && (j != i
                        ==> self.groups@[j].children@ == before.groups@[j].children@) by {}
                    assert(self.groups@[i as int].children@ == before.groups@[i as int].children@.push(
                        entry,
                    ));
                    assert forall|a: int, k: int|
                        0 <= a < self.groups@.len() && 0 <= k
                            < self.groups@[a].children@.len() implies self.listed(
                        #[trigger] self.groups@[a].children@[k],
                        self.groups@[a].parent@,
                    ) by {
                        if a == i && k == before.groups@[a].children@.len() {
                        } else {
                            assert(before.listed(
                                before.groups@[a].children@[k],
                                before.groups@[a].parent@,
                            ));
                        }
                    }
                    assert(self.wf());
                    assert forall|dir: Seq<char>| #[trigger]
                        self.children_of(dir) == if child_of(entry, dir) {
                            before.children_of(dir).push(entry)
                        } else {
                            before.children_of(dir)
                        } by {
                        if before.has_key(dir) {
                            let j = choose|j: int|
                                0 <= j < before.groups@.len() && (
                                #[trigger] before.groups@[j]).parent@ == dir;
                            before.lemma_lookup(j);
                            self.lemma_lookup(j);
                        } else {
                            if self.has_key(dir) {
                                let j = choose|j: int|
                                    0 <= j < self.groups@.len() && (
                                    #[trigger] self.groups@[j]).parent@ == dir;
                                assert(before.groups@[j].parent@ == dir);
                            }
                            before.lemma_lookup(i as int);
                        }
                    }
                }
            },
            None => {
                let mut children: Vec<Entry> = Vec::new();
                children.push(entry);
                self.groups.push(Group { parent, children });
                self.span = Ghost(reach);
                proof {
                    let n = before.groups@.len() as int;
                    assert forall|j: int| 0 <= j < n implies (#[trigger] self.groups@[j])
                        == before.groups@[j] by {}
                    assert forall|a: int, k: int|
                        0 <= a < self.groups@.len() && 0 <= k
                            < self.groups@[a].children@.len() implies self.listed(
                        #[trigger] self.groups@[a].children@[k],
                        self.groups@[a].parent@,
                    ) by {
                        if a < n {
                            assert(before.listed(
                                before.groups@[a].children@[k],
                                before.groups@[a].parent@,
                            ));
                        }
                    }
                    assert(self.wf());
                    assert forall|dir: Seq<char>| #[trigger]
                        self.children_of(dir) == if child_of(entry, dir) {
                            before.children_of(dir).push(entry)
                        } else {
                            before.children_of(dir)
                        } by {
                        if before.has_key(dir) {
                            let j = choose|j: int|
                                0 <= j < before.groups@.len() && (
                                #[trigger] before.groups@[j]).parent@ == dir;
                            before.lemma_lookup(j);
                            self.lemma_lookup(j);
                        } else if dir == parent@ {
                            self.lemma_lookup(n);
                            assert(self.groups@[n].children@ =~= Seq::<Entry>::empty().push(entry));
                        } else {
                            if self.has_key(dir) {
                                let j = choose|j: int|
                                    0 <= j < self.groups@.len() && (
                                    #[trigger] self.groups@[j]).parent@ == dir;
                                assert(before.groups@[j].parent@ == dir);
                            }
                        }
                    }
                }
            },
        }
        true
    }

    /// A copy of the children listed under `dir`, in the order in which they
    /// were added.
    pub fn children(&self, dir: &String) -> (r: Vec<Entry>)
        requires
            self.wf(),
        ensures
            r@ == self.children_of(dir@),
    {
        let mut copy: Vec<Entry> = Vec::new();
        match self.position(dir) {
            Some(i) => {
                proof {
                    self.lemma_lookup(i as int);
                }
                let mut k: usize = 0;
                while k < self.groups[i].children.len()
                    invariant
                        i < self.groups@.len(),
                        k <= self.groups@[i as int].children@.len(),
                        copy@ == self.groups@[i as int].children@.take(k as int),
                    decreases self.groups@[i as int].children@.len() - k,
                {
                    copy.push(self.groups[i].children[k].duplicate());
                    proof {
                        assert(self.groups@[i as int].children@.take(k + 1)
                            =~= self.groups@[i as int].children@.take(k as int).push(
                            self.groups@[i as int].children@[k as int],
                        ));
                    }
                    k = k + 1;
                }
                proof {
                    let all = self.groups@[i as int].children@;
                    assert(all.take(all.len() as int) =~= all);
                }
            },
            None => {},
        }
        copy
    }
}

/// Builds the index from the walker's entries: the entries that stay are
/// sorted by full path and each is appended to the list of its parent.
pub fn assemble(
    entries: &Vec<Entry>,
    root: &String,
    filter: &PathFilter,
    directories_only: bool,
    files_only: bool,
) -> (r: ParentIndex)
    ensures
        r.wf(),
        forall|dir: Seq<char>| #[trigger]
            r.children_of(dir) == children_among(
                sort_by_path(survivors(entries@, root@, *filter, directories_only, files_only)),
                dir,
            ),
{
    let kept = select_survivors(entries, root, filter, directories_only, files_only);
    let sorted = sort_entries(&kept);
    let mut index = ParentIndex::new();
    let mut i: usize = 0;
    proof {
        assert(sorted@.take(0) =~= Seq::<Entry>::empty());
    }
    while i < sorted.len()
        invariant
            i <= sorted.len(),
            index.wf(),
            forall|dir: Seq<char>| #[trigger]
                index.children_of(dir) == children_among(sorted@.take(i as int), dir),
        decreases sorted.len() - i,
    {
        proof {
            assert(sorted@.take(i + 1).drop_last() =~= sorted@.take(i as int));
            assert(sorted@.take(i + 1).last() == sorted@[i as int]);
        }
        index.insert(sorted[i].duplicate());
        i = i + 1;
    }
    proof {
        assert(sorted@.take(sorted@.len() as int) =~= sorted@);
    }
    index
}

/// The children picked from a sequence are entries of it that sit in `dir`.
pub proof fn lemma_children_among_sound(s: Seq<Entry>, dir: Seq<char>, k: int)
    requires
        0 <= k < children_among(s, dir).len(),
    ensures
        s.contains(children_among(s, dir)[k]),
        child_of(children_among(s, dir)[k], dir),
    decreases s.len(),
{
    let rest = children_among(s.drop_last(), dir);
    if k < rest.len() {
        lemma_children_among_sound(s.drop_last(), dir, k);
        let m = choose|m: int| 0 <= m < s.drop_last().len() && s.drop_last()[m] == rest[k];
        assert(s[m] == rest[k]);
    } else {
        assert(s[s.len() - 1] == s.last());
    }
}

/// Every entry of a sequence that sits in `dir` is among the children picked.
pub proof fn lemma_children_among_complete(s: Seq<Entry>, dir: Seq<char>, i: int)
    requires
        0 <= i < s.len(),
        child_of(s[i], dir),
    ensures
        children_among(s, dir).contains(s[i]),
    decreases s.len(),
{
    let all = children_among(s, dir);
    let rest = children_among(s.drop_last(), dir);
    if i < s.len() - 1 {
        lemma_children_among_complete(s.drop_last(), dir, i);
        let m = choose|m: int| 0 <= m < rest.len() && rest[m] == s[i];
        assert(all[m] == s[i]);
    } else {
        assert(all[all.len() - 1] == s[i]);
    }
}

/// Whatever the assembled index lists under a directory is one of the
/// entries given, sits directly in that directory, and has survived: it is
/// not the root, no exclusion pattern matches it, and it is of the kind
/// asked for.
pub proof fn lemma_listed_entries_survive(
    entries: Seq<Entry>,
    root: Seq<char>,
    filter: PathFilter,
    directories_only: bool,
    files_only: bool,
    dir: Seq<char>,
    k: int,
)
    requires
        0 <= k < children_among(
            sort_by_path(survivors(entries, root, filter, directories_only, files_only)),
            dir,
        ).len(),
    ensures
        ({
            let child = children_among(
                sort_by_path(survivors(entries, root, filter, directories_only, files_only)),
                dir,
            )[k];
            &&& entries.contains(child)
            &&& child_of(child, dir)
            &&& survives(child, root, filter, directories_only, files_only)
            &&& child.path@ != root
            &&& !filter.excluded(child.path@)
        }),
{
    let kept = survivors(entries, root, filter, directories_only, files_only);
    let sorted = sort_by_path(kept);
    let child = children_among(sorted, dir)[k];
    lemma_children_among_sound(sorted, dir, k);
    let a = choose|a: int| 0 <= a < sorted.len() && sorted[a] == child;
    lemma_sort_keeps_entries(kept, a);
    let b = choose|b: int| 0 <= b < kept.len() && kept[b] == child;
    lemma_survivors_sound(entries, root, filter, directories_only, files_only, b);
}

/// Every given entry that survives, sits directly in a directory and has a
/// name is listed under that directory.
pub proof fn lemma_surviving_entries_listed(
    entries: Seq<Entry>,
    root: Seq<char>,
    filter: PathFilter,
    directories_only: bool,
    files_only: bool,
    dir: Seq<char>,
    i: int,
)
    requires
        0 <= i < entries.len(),
        survives(entries[i], root, filter, directories_only, files_only),
        child_of(entries[i], dir),
    ensures
        children_among(
            sort_by_path(survivors(entries, root, filter, directories_only, files_only)),
            dir,
        ).contains(entries[i]),
{
    let kept = survivors(entries, root, filter, directories_only, files_only);
    let sorted = sort_by_path(kept);
    lemma_survivors_complete(entries, root, filter, directories_only, files_only, i);
    lemma_sort_loses_nothing(kept, entries[i]);
    let a = choose|a: int| 0 <= a < sorted.len() && sorted[a] == entries[i];
    lemma_children_among_complete(sorted, dir, a);
}

} // verus!
