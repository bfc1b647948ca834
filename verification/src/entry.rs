//! Discovered entries, the rule by which one survives, and their sorting by
//! full path.

use crate::filter::PathFilter;
use crate::path::{lemma_bytes_le_total, lemma_bytes_le_transitive, path_at_most, path_le};
use vstd::prelude::*;
use vstd::utf8::encode_utf8;

verus! {

/// One filesystem node as the walker reports it: its path and whether it is a
/// directory.
#[derive(Debug)]
pub struct Entry {
    pub path: String,
    pub is_dir: bool,
}

impl Entry {
    pub fn new(path: String, is_dir: bool) -> (r: Entry)
        ensures
            r.path == path,
            r.is_dir == is_dir,
    {
        Entry { path, is_dir }
    }

    /// A copy of the entry.
    pub fn duplicate(&self) -> (r: Entry)
        ensures
            r == *self,
    {
        Entry { path: self.path.clone(), is_dir: self.is_dir }
    }
}

/// Whether an entry stays in the tree: it is not the root itself, the filter
/// admits it, and it is of the kind asked for.
pub open spec fn survives(
    entry: Entry,
    root: Seq<char>,
    filter: PathFilter,
    directories_only: bool,
    files_only: bool,
) -> bool {
    &&& entry.path@ != root
    &&& filter.admits(entry.path@, entry.is_dir)
    &&& !(directories_only && !entry.is_dir)
    &&& !(files_only && entry.is_dir)
}

/// The entries that stay, in the order in which they came.
pub open spec fn survivors(
    entries: Seq<Entry>,
    root: Seq<char>,
    filter: PathFilter,
    directories_only: bool,
    files_only: bool,
) -> Seq<Entry>
    decreases entries.len(),
{
    if entries.len() == 0 {
        Seq::empty()
    } else {
        let rest = survivors(entries.drop_last(), root, filter, directories_only, files_only);
        if survives(entries.last(), root, filter, directories_only, files_only) {
            rest.push(entries.last())
        } else {
            rest
        }
    }
}

/// Decides whether one entry stays.
pub fn entry_survives(
    entry: &Entry,
    root: &String,
    filter: &PathFilter,
    directories_only: bool,
    files_only: bool,
) -> (r: bool)
    ensures
        r == survives(*entry, root@, *filter, directories_only, files_only),
{
    if entry.path == *root {
        return false;
    }
    if !filter.should_include(entry.path.as_str(), entry.is_dir) {
        return false;
    }
    if directories_only && !entry.is_dir {
        return false;
    }
    if files_only && entry.is_dir {
        return false;
    }
    true
}

/// Keeps the entries that stay, in the order in which they came.
pub fn select_survivors(
    entries: &Vec<Entry>,
    root: &String,
    filter: &PathFilter,
    directories_only: bool,
    files_only: bool,
) -> (r: Vec<Entry>)
    ensures
        r@ == survivors(entries@, root@, *filter, directories_only, files_only),
{
    let mut kept: Vec<Entry> = Vec::new();
    let mut i: usize = 0;
    proof {
        assert(entries@.take(0) =~= Seq::<Entry>::empty());
    }
    while i < entries.len()
        invariant
            i <= entries.len(),
            kept@ == survivors(entries@.take(i as int), root@, *filter, directories_only, files_only),
        decreases entries.len() - i,
    {
        proof {
            assert(entries@.take(i + 1).drop_last() =~= entries@.take(i as int));
            assert(entries@.take(i + 1).last() == entries@[i as int]);
        }
        if entry_survives(&entries[i], root, filter, directories_only, files_only) {
            kept.push(entries[i].duplicate());
        }
        i = i + 1;
    }
    proof {
        assert(entries@.take(entries@.len() as int) =~= entries@);
    }
    kept
}

/// Ascending by full path.
pub open spec fn sorted_by_path(s: Seq<Entry>) -> bool {
    forall|i: int, j: int| 0 <= i < j < s.len() ==> path_le(s[i].path@, s[j].path@)
}

/// Puts an entry into a sorted sequence, behind the last entry that is not
/// greater than it.
pub open spec fn insert_by_path(s: Seq<Entry>, e: Entry) -> Seq<Entry>
    decreases s.len(),
{
    if s.len() == 0 {
        s.push(e)
    } else if path_le(s.last().path@, e.path@) {
        s.push(e)
    } else {
        insert_by_path(s.drop_last(), e).push(s.last())
    }
}

/// The entries in ascending order of their full path; entries of equal path
/// keep their order.
pub open spec fn sort_by_path(s: Seq<Entry>) -> Seq<Entry>
    decreases s.len(),
{
    if s.len() == 0 {
        s
    } else {
        insert_by_path(sort_by_path(s.drop_last()), s.last())
    }
}

/// Inserting into a sorted sequence gives a sorted sequence with the same
/// entries and the new one.
pub proof fn lemma_insert_by_path(s: Seq<Entry>, e: Entry)
    requires
        sorted_by_path(s),
    ensures
        sorted_by_path(insert_by_path(s, e)),
        insert_by_path(s, e).to_multiset() =~= s.to_multiset().insert(e),
        insert_by_path(s, e).len() == s.len() + 1,
    decreases s.len(),
{
    broadcast use vstd::seq_lib::group_to_multiset_ensures;

    let r = insert_by_path(s, e);
    if s.len() == 0 {
    } else if path_le(s.last().path@, e.path@) {
        assert forall|i: int, j: int| 0 <= i < j < r.len() implies path_le(
            r[i].path@,
            r[j].path@,
        ) by {
            if j == s.len() && i < s.len() - 1 {
                assert(path_le(s[i].path@, s[s.len() - 1].path@));
                lemma_bytes_le_transitive(
                    encode_utf8(s[i].path@),
                    encode_utf8(s.last().path@),
                    encode_utf8(e.path@),
                );
            }
        }
    } else {
        let d = s.drop_last();
        let q = insert_by_path(d, e);
        lemma_insert_by_path(d, e);
        assert(s =~= d.push(s.last()));
        assert forall|i: int, j: int| 0 <= i < j < r.len() implies path_le(
            r[i].path@,
            r[j].path@,
        ) by {
            if j == q.len() {
                assert(q.contains(q[i]));
                assert(q.to_multiset().count(q[i]) > 0);
                if q[i] == e {
                    lemma_bytes_le_total(encode_utf8(s.last().path@), encode_utf8(e.path@));
                } else {
                    assert(d.to_multiset().count(q[i]) > 0);
                    assert(d.contains(q[i]));
                    let m = choose|m: int| 0 <= m < d.len() && d[m] == q[i];
                    assert(s[m] == q[i]);
                }
            }
        }
    }
}

/// Sorting gives an ascending sequence that holds exactly the entries it was
/// given, each as often as before.
pub proof fn lemma_sort_by_path(s: Seq<Entry>)
    ensures
        sorted_by_path(sort_by_path(s)),
        sort_by_path(s).to_multiset() =~= s.to_multiset(),
        sort_by_path(s).len() == s.len(),
    decreases s.len(),
{
    broadcast use vstd::seq_lib::group_to_multiset_ensures;

    if s.len() > 0 {
        lemma_sort_by_path(s.drop_last());
        lemma_insert_by_path(sort_by_path(s.drop_last()), s.last());
        assert(s =~= s.drop_last().push(s.last()));
    }
}

/// Every entry of the sorted sequence is one of the entries given.
pub proof fn lemma_sort_keeps_entries(s: Seq<Entry>, k: int)
    requires
        0 <= k < sort_by_path(s).len(),
    ensures
        s.contains(sort_by_path(s)[k]),
{
    broadcast use vstd::seq_lib::group_to_multiset_ensures;

    lemma_sort_by_path(s);
    let t = sort_by_path(s);
    assert(t.contains(t[k]));
    assert(t.to_multiset().count(t[k]) > 0);
}

/// Inserts an entry into a sorted vector at its place.
pub fn insert_sorted(sorted: &mut Vec<Entry>, entry: Entry)
    ensures
        final(sorted)@ == insert_by_path(old(sorted)@, entry),
{
    let ghost before = sorted@;
    let mut p: usize = sorted.len();
    proof {
        assert(before.subrange(0, p as int) =~= before);
        assert(insert_by_path(before, entry) + before.subrange(p as int, before.len() as int)
            =~= insert_by_path(before, entry));
    }
    while p > 0 && !path_at_most(sorted[p - 1].path.as_str(), entry.path.as_str())
        invariant
            p <= sorted.len(),
            sorted@ == before,
            insert_by_path(before, entry) == insert_by_path(before.subrange(0, p as int), entry)
                + before.subrange(p as int, before.len() as int),
        decreases p,
    {
        proof {
            let head = before.subrange(0, p as int);
            assert(head.drop_last() =~= before.subrange(0, p - 1));
            assert(head.last() == before[p - 1]);
            assert(insert_by_path(head.drop_last(), entry).push(head.last()) + before.subrange(
                p as int,
                before.len() as int,
            ) =~= insert_by_path(head.drop_last(), entry) + before.subrange(
                p - 1,
                before.len() as int,
            ));
        }
        p = p - 1;
    }
    proof {
        let head = before.subrange(0, p as int);
        if p > 0 {
            assert(head.last() == before[p - 1]);
        }
        assert(insert_by_path(head, entry) == head.push(entry));
        assert(head.push(entry) + before.subrange(p as int, before.len() as int)
            =~= before.insert(p as int, entry));
    }
    sorted.insert(p, entry);
}

/// Sorts entries by full path, in lexicographic byte order.
pub fn sort_entries(entries: &Vec<Entry>) -> (r: Vec<Entry>)
    ensures
        r@ == sort_by_path(entries@),
{
    let mut sorted: Vec<Entry> = Vec::new();
    let mut i: usize = 0;
    proof {
        assert(entries@.take(0) =~= Seq::<Entry>::empty());
    }
    while i < entries.len()
        invariant
            i <= entries.len(),
            sorted@ == sort_by_path(entries@.take(i as int)),
        decreases entries.len() - i,
    {
        proof {
            assert(entries@.take(i + 1).drop_last() =~= entries@.take(i as int));
            assert(entries@.take(i + 1).last() == entries@[i as int]);
        }
        insert_sorted(&mut sorted, entries[i].duplicate());
        i = i + 1;
    }
    proof {
        assert(entries@.take(entries@.len() as int) =~= entries@);
    }
    sorted
}

/// Every entry that stays is one of the entries given, and one that stays.
pub proof fn lemma_survivors_sound(
    entries: Seq<Entry>,
    root: Seq<char>,
    filter: PathFilter,
    directories_only: bool,
    files_only: bool,
    k: int,
)
    requires
        0 <= k < survivors(entries, root, filter, directories_only, files_only).len(),
    ensures
        entries.contains(survivors(entries, root, filter, directories_only, files_only)[k]),
        survives(
            survivors(entries, root, filter, directories_only, files_only)[k],
            root,
            filter,
            directories_only,
            files_only,
        ),
    decreases entries.len(),
{
    let rest = survivors(entries.drop_last(), root, filter, directories_only, files_only);
    if k < rest.len() {
        lemma_survivors_sound(entries.drop_last(), root, filter, directories_only, files_only, k);
        let e = rest[k];
        let m = choose|m: int| 0 <= m < entries.drop_last().len() && entries.drop_last()[m] == e;
        assert(entries[m] == e);
    } else {
        assert(entries[entries.len() - 1] == entries.last());
    }
}

/// Every given entry that stays is among the survivors.
pub proof fn lemma_survivors_complete(
    entries: Seq<Entry>,
    root: Seq<char>,
    filter: PathFilter,
    directories_only: bool,
    files_only: bool,
    i: int,
)
    requires
        0 <= i < entries.len(),
        survives(entries[i], root, filter, directories_only, files_only),
    ensures
        survivors(entries, root, filter, directories_only, files_only).contains(entries[i]),
    decreases entries.len(),
{
    let all = survivors(entries, root, filter, directories_only, files_only);
    let rest = survivors(entries.drop_last(), root, filter, directories_only, files_only);
    if i < entries.len() - 1 {
        lemma_survivors_complete(
            entries.drop_last(),
            root,
            filter,
            directories_only,
            files_only,
            i,
        );
        let m = choose|m: int| 0 <= m < rest.len() && rest[m] == entries[i];
        assert(all[m] == entries[i]);
    } else {
        assert(all[all.len() - 1] == entries[i]);
    }
}

/// Every entry given to the sort is in the sorted sequence.
pub proof fn lemma_sort_loses_nothing(s: Seq<Entry>, e: Entry)
    requires
        s.contains(e),
    ensures
        sort_by_path(s).contains(e),
{
    broadcast use vstd::seq_lib::group_to_multiset_ensures;

    lemma_sort_by_path(s);
    assert(s.to_multiset().count(e) > 0);
    assert(sort_by_path(s).to_multiset().count(e) > 0);
}

/// An entry that an exclusion pattern matches never stays, whatever its
/// kind and whatever the other patterns and flags say.
pub proof fn lemma_excluded_never_survives(
    entry: Entry,
    root: Seq<char>,
    filter: PathFilter,
    directories_only: bool,
    files_only: bool,
)
    requires
        filter.excluded(entry.path@),
    ensures
        !survives(entry, root, filter, directories_only, files_only),
{
}

/// Whether a directory stays is decided by the exclusion patterns and the
/// kind flags alone (and by its not being the root): the inclusion and
/// file-name patterns have no say.
pub proof fn lemma_directory_survival(
    entry: Entry,
    root: Seq<char>,
    filter: PathFilter,
    directories_only: bool,
    files_only: bool,
)
    requires
        entry.is_dir,
    ensures
        survives(entry, root, filter, directories_only, files_only) == (entry.path@ != root
            && !filter.excluded(entry.path@) && !files_only),
{
}

} // verus!
