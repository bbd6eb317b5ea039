//! The in-memory metadata catalog: the single source of truth at
//! runtime.
//!
//! A [`FileTable`] indexes the files of one repository by path; the
//! [`Catalog`] maps repository identifiers to repository records and to
//! their file tables. Both are association vectors with unique keys,
//! viewed as mathematical maps.

use vstd::prelude::*;

use crate::models::{FileMeta, FileRec, RepoMeta, RepoRec};
use crate::text::str_eq;

verus! {

/// The file records of a sequence of entries, keyed by path; a later
/// entry with the same path wins.
pub open spec fn table_map(s: Seq<FileMeta>) -> Map<Seq<char>, FileRec>
    decreases s.len(),
{
    if s.len() == 0 {
        Map::empty()
    } else {
        table_map(s.drop_last()).insert(s.last()@.path, s.last()@)
    }
}

/// Entries have pairwise distinct paths.
pub open spec fn table_wf(s: Seq<FileMeta>) -> bool {
    forall|i: int, j: int|
        0 <= i < j < s.len() ==> (#[trigger] s[i]@.path) != (#[trigger] s[j]@.path)
}

pub proof fn lemma_table_contains(s: Seq<FileMeta>, p: Seq<char>)
    ensures
        table_map(s).contains_key(p) <==> exists|i: int|
            0 <= i < s.len() && (#[trigger] s[i]@.path) == p,
    decreases s.len(),
{
    if s.len() > 0 {
        lemma_table_contains(s.drop_last(), p);
        if s.last()@.path == p {
            assert(s[s.len() - 1]@.path == p);
        } else if table_map(s).contains_key(p) {
            let i = choose|i: int| 0 <= i < s.drop_last().len() && (#[trigger] s.drop_last()[i]@.path) == p;
            assert(s[i]@.path == p);
        } else {
            if exists|i: int| 0 <= i < s.len() && (#[trigger] s[i]@.path) == p {
                let i = choose|i: int| 0 <= i < s.len() && (#[trigger] s[i]@.path) == p;
                assert(i < s.len() - 1);
                assert(s.drop_last()[i]@.path == p);
            }
        }
    }
}

pub proof fn lemma_table_index(s: Seq<FileMeta>, i: int)
    requires
        table_wf(s),
        0 <= i < s.len(),
    ensures
        table_map(s).contains_key(s[i]@.path),
        table_map(s)[s[i]@.path] == s[i]@,
    decreases s.len(),
{
    if i == s.len() - 1 {
    } else {
        assert(table_wf(s.drop_last())) by {
            assert(forall|a: int, b: int|
                0 <= a < b < s.drop_last().len() ==> s.drop_last()[a] == s[a] && s.drop_last()[b]
                    == s[b]);
        }
        assert(s.drop_last()[i] == s[i]);
        lemma_table_index(s.drop_last(), i);
        assert(s[i]@.path != s.last()@.path);
    }
}

pub proof fn lemma_table_dom_finite(s: Seq<FileMeta>)
    ensures
        table_map(s).dom().finite(),
    decreases s.len(),
{
    if s.len() > 0 {
        lemma_table_dom_finite(s.drop_last());
    }
}

pub proof fn lemma_table_dom_len(s: Seq<FileMeta>)
    requires
        table_wf(s),
    ensures
        table_map(s).dom().finite(),
        table_map(s).dom().len() == s.len(),
    decreases s.len(),
{
    lemma_table_dom_finite(s);
    if s.len() > 0 {
        assert(table_wf(s.drop_last())) by {
            assert(forall|a: int, b: int|
                0 <= a < b < s.drop_last().len() ==> s.drop_last()[a] == s[a] && s.drop_last()[b]
                    == s[b]);
        }
        lemma_table_dom_len(s.drop_last());
        lemma_table_contains(s.drop_last(), s.last()@.path);
        assert(!table_map(s.drop_last()).contains_key(s.last()@.path)) by {
            if table_map(s.drop_last()).contains_key(s.last()@.path) {
                let i = choose|i: int|
                    0 <= i < s.drop_last().len() && (#[trigger] s.drop_last()[i]@.path) == s.last()@.path;
                assert(s[i]@.path == s[s.len() - 1]@.path);
            }
        }
    }
}

pub proof fn lemma_table_map_update(s: Seq<FileMeta>, i: int, m: FileMeta)
    requires
        table_wf(s),
        0 <= i < s.len(),
        s[i]@.path == m@.path,
    ensures
        table_map(s.update(i, m)) == table_map(s).insert(m@.path, m@),
        table_wf(s.update(i, m)),
    decreases s.len(),
{
    assert(table_wf(s.update(i, m))) by {
        assert(forall|a: int|
            0 <= a < s.len() && a != i ==> s.update(i, m)[a] == s[a]);
    }
    if i == s.len() - 1 {
        assert(s.update(i, m).drop_last() =~= s.drop_last());
        assert(s.update(i, m).last() == m);
        assert(table_map(s.update(i, m)) == table_map(s.drop_last()).insert(m@.path, m@));
        assert(table_map(s).insert(m@.path, m@) =~= table_map(s.drop_last()).insert(
            m@.path,
            m@,
        ));
    } else {
        assert(table_wf(s.drop_last())) by {
            assert(forall|a: int, b: int|
                0 <= a < b < s.drop_last().len() ==> s.drop_last()[a] == s[a] && s.drop_last()[b]
                    == s[b]);
        }
        assert(s.drop_last()[i] == s[i]);
        lemma_table_map_update(s.drop_last(), i, m);
        assert(s.update(i, m).drop_last() =~= s.drop_last().update(i, m));
        assert(s.update(i, m).last() == s.last());
        assert(s[i]@.path != s.last()@.path);
        assert(table_map(s.update(i, m)) == table_map(s.drop_last()).insert(m@.path, m@).insert(
            s.last()@.path,
            s.last()@,
        ));
        assert(table_map(s.drop_last()).insert(m@.path, m@).insert(s.last()@.path, s.last()@)
            =~= table_map(s.drop_last()).insert(s.last()@.path, s.last()@).insert(m@.path, m@));
    }
}

pub proof fn lemma_table_map_push(s: Seq<FileMeta>, m: FileMeta)
    ensures
        table_map(s.push(m)) == table_map(s).insert(m@.path, m@),
{
    assert(s.push(m).drop_last() =~= s);
    assert(s.push(m).last() == m);
}

pub proof fn lemma_table_map_remove(s: Seq<FileMeta>, i: int)
    requires
        table_wf(s),
        0 <= i < s.len(),
    ensures
        table_map(s.remove(i)) == table_map(s).remove(s[i]@.path),
        table_wf(s.remove(i)),
    decreases s.len(),
{
    assert(table_wf(s.remove(i))) by {
        assert(forall|a: int|
            0 <= a < s.remove(i).len() ==> s.remove(i)[a] == (if a < i {
                s[a]
            } else {
                s[a + 1]
            }));
    }
    if i == s.len() - 1 {
        assert(s.remove(i) =~= s.drop_last());
        lemma_table_contains(s.drop_last(), s.last()@.path);
        assert(!table_map(s.drop_last()).contains_key(s.last()@.path)) by {
            if table_map(s.drop_last()).contains_key(s.last()@.path) {
                let a = choose|a: int|
                    0 <= a < s.drop_last().len() && (#[trigger] s.drop_last()[a]@.path) == s.last()@.path;
                assert(s[a]@.path == s[s.len() - 1]@.path);
            }
        }
        assert(table_map(s.remove(i)) =~= table_map(s).remove(s[i]@.path));
    } else {
        assert(table_wf(s.drop_last())) by {
            assert(forall|a: int, b: int|
                0 <= a < b < s.drop_last().len() ==> s.drop_last()[a] == s[a] && s.drop_last()[b]
                    == s[b]);
        }
        assert(s.drop_last()[i] == s[i]);
        lemma_table_map_remove(s.drop_last(), i);
        assert(s.remove(i).drop_last() =~= s.drop_last().remove(i));
        assert(s.remove(i).last() == s.last());
        assert(s[i]@.path != s.last()@.path);
        assert(table_map(s.remove(i)) == table_map(s.drop_last()).remove(s[i]@.path).insert(
            s.last()@.path,
            s.last()@,
        ));
        assert(table_map(s.drop_last()).remove(s[i]@.path).insert(s.last()@.path, s.last()@)
            =~= table_map(s.drop_last()).insert(s.last()@.path, s.last()@).remove(s[i]@.path));
    }
}

/// Total size in bytes of a sequence of file records.
pub open spec fn sum_sizes(s: Seq<FileRec>) -> int
    decreases s.len(),
{
    if s.len() == 0 {
        0
    } else {
        sum_sizes(s.drop_last()) + s.last().size_bytes
    }
}

pub proof fn lemma_sum_nonneg(s: Seq<FileRec>)
    ensures
        sum_sizes(s) >= 0,
    decreases s.len(),
{
    if s.len() > 0 {
        lemma_sum_nonneg(s.drop_last());
    }
}

pub proof fn lemma_sum_push(s: Seq<FileRec>, x: FileRec)
    ensures
        sum_sizes(s.push(x)) == sum_sizes(s) + x.size_bytes,
{
    assert(s.push(x).drop_last() =~= s);
    assert(s.push(x).last() == x);
}

pub proof fn lemma_sum_update(s: Seq<FileRec>, i: int, x: FileRec)
    requires
        0 <= i < s.len(),
    ensures
        sum_sizes(s.update(i, x)) == sum_sizes(s) - s[i].size_bytes + x.size_bytes,
    decreases s.len(),
{
    if i == s.len() - 1 {
        assert(s.update(i, x).drop_last() =~= s.drop_last());
        assert(s.update(i, x).last() == x);
    } else {
        assert(s.update(i, x).drop_last() =~= s.drop_last().update(i, x));
        assert(s.update(i, x).last() == s.last());
        assert(s.drop_last()[i] == s[i]);
        lemma_sum_update(s.drop_last(), i, x);
    }
}

pub proof fn lemma_sum_remove(s: Seq<FileRec>, i: int)
    requires
        0 <= i < s.len(),
    ensures
        sum_sizes(s.remove(i)) == sum_sizes(s) - s[i].size_bytes,
    decreases s.len(),
{
    if i == s.len() - 1 {
        assert(s.remove(i) =~= s.drop_last());
    } else {
        assert(s.remove(i).drop_last() =~= s.drop_last().remove(i));
        assert(s.remove(i).last() == s.last());
        assert(s.drop_last()[i] == s[i]);
        lemma_sum_remove(s.drop_last(), i);
    }
}

/// The files of one repository, indexed by path.
pub struct FileTable {
    pub entries: Vec<FileMeta>,
}

impl View for FileTable {
    type V = Map<Seq<char>, FileRec>;

    open spec fn view(&self) -> Map<Seq<char>, FileRec> {
        table_map(self.entries@)
    }
}

impl FileTable {
    /// Paths are unique.
    pub open spec fn wf(&self) -> bool {
        table_wf(self.entries@)
    }

    /// The records in storage order.
    pub open spec fn recs(&self) -> Seq<FileRec> {
        self.entries@.map_values(|m: FileMeta| m@)
    }

    pub fn new() -> (r: FileTable)
        ensures
            r.wf(),
            r@ == Map::<Seq<char>, FileRec>::empty(),
            r.recs() == Seq::<FileRec>::empty(),
    {
        let r = FileTable { entries: Vec::new() };
        proof {
            assert(r.recs() =~= Seq::<FileRec>::empty());
        }
        r
    }

    /// Number of files in the table.
    pub fn len(&self) -> (r: usize)
        ensures
            r == self.recs().len(),
    {
        self.entries.len()
    }

    /// Index of the entry with the given path, if any.
    fn find(&self, path: &str) -> (r: Option<usize>)
        ensures
            match r {
                Some(i) => i < self.entries@.len() && self.entries@[i as int]@.path == path@,
                None => forall|i: int|
                    0 <= i < self.entries@.len() ==> (#[trigger] self.entries@[i]@.path)
                        != path@,
            },
    {
        let mut i: usize = 0;
        while i < self.entries.len()
            invariant
                i <= self.entries@.len(),
                forall|j: int|
                    0 <= j < i ==> (#[trigger] self.entries@[j]@.path) != path@,
            decreases self.entries@.len() - i,
        {
            if str_eq(self.entries[i].path.as_str(), path) {
                return Some(i);
            }
            i += 1;
        }
        None
    }

    /// Look up a file by path.
    pub fn get(&self, path: &str) -> (r: Option<&FileMeta>)
        requires
            self.wf(),
        ensures
            match r {
                Some(m) => self@.contains_key(path@) && m@ == self@[path@],
                None => !self@.contains_key(path@),
            },
    {
        proof {
            lemma_table_contains(self.entries@, path@);
        }
        match self.find(path) {
            Some(i) => {
                proof {
                    lemma_table_index(self.entries@, i as int);
                }
                Some(&self.entries[i])
            },
            None => None,
        }
    }

    /// Insert or replace the record at its path.
    pub fn insert(&mut self, m: FileMeta)
        requires
            old(self).wf(),
        ensures
            final(self).wf(),
            final(self)@ == old(self)@.insert(m@.path, m@),
            old(self)@.contains_key(m@.path) ==> exists|i: int|
                0 <= i < old(self).recs().len() && (#[trigger] old(self).recs()[i].path)
                    == m@.path && final(self).recs() == old(self).recs().update(i, m@),
            !old(self)@.contains_key(m@.path) ==> final(self).recs() == old(self).recs().push(
                m@,
            ),
    {
        proof {
            lemma_table_contains(self.entries@, m@.path);
        }
        match self.find(m.path.as_str()) {
            Some(i) => {
                proof {
                    lemma_table_map_update(self.entries@, i as int, m);
                }
                let ghost entries0 = self.entries@;
                let slot = &mut self.entries[i];
                *slot = m;
                proof {
                    assert(self.entries@ =~= entries0.update(i as int, m));
                    assert(self.recs() =~= old(self).recs().update(i as int, m@));
                    assert(old(self).recs()[i as int].path == m@.path);
                }
            },
            None => {
                proof {
                    lemma_table_map_push(self.entries@, m);
                    assert(forall|i: int|
                        0 <= i < self.entries@.len() ==> (#[trigger] self.entries@[i]@.path)
                            != m@.path);
                }
                self.entries.push(m);
                proof {
                    assert(self.wf()) by {
                        assert(forall|a: int|
                            0 <= a < old(self).entries@.len() ==> self.entries@[a] == old(self).entries@[a]);
                    }
                    assert(self.recs() =~= old(self).recs().push(m@));
                }
            },
        }
    }

    /// Remove the record at a path and hand it back.
    pub fn remove(&mut self, path: &str) -> (r: Option<FileMeta>)
        requires
            old(self).wf(),
        ensures
            final(self).wf(),
            match r {
                Some(m) => old(self)@.contains_key(path@) && m@ == old(self)@[path@] && final(self)@ == old(self)@.remove(path@) && exists|i: int|
                    0 <= i < old(self).recs().len() && (#[trigger] old(self).recs()[i].path)
                        == path@ && final(self).recs() == old(self).recs().remove(i),
                None => !old(self)@.contains_key(path@) && final(self)@ == old(self)@ && final(self).recs() == old(self).recs(),
            },
    {
        proof {
            lemma_table_contains(self.entries@, path@);
        }
        match self.find(path) {
            Some(i) => {
                proof {
                    lemma_table_index(self.entries@, i as int);
                    lemma_table_map_remove(self.entries@, i as int);
                }
                let m = self.entries.remove(i);
                proof {
                    assert(self.recs() =~= old(self).recs().remove(i as int));
                    assert(old(self).recs()[i as int].path == path@);
                }
                Some(m)
            },
            None => None,
        }
    }
}

/// The repository records of a sequence, keyed by id; a later entry with
/// the same id wins.
pub open spec fn repos_map(s: Seq<RepoMeta>) -> Map<u128, RepoRec>
    decreases s.len(),
{
    if s.len() == 0 {
        Map::empty()
    } else {
        repos_map(s.drop_last()).insert(s.last()@.id, s.last()@)
    }
}

/// Repository ids are pairwise distinct.
pub open spec fn repos_wf(s: Seq<RepoMeta>) -> bool {
    forall|i: int, j: int|
        0 <= i < j < s.len() ==> (#[trigger] s[i]@.id) != (#[trigger] s[j]@.id)
}

pub proof fn lemma_repos_contains(s: Seq<RepoMeta>, id: u128)
    ensures
        repos_map(s).contains_key(id) <==> exists|i: int|
            0 <= i < s.len() && (#[trigger] s[i]@.id) == id,
    decreases s.len(),
{
    if s.len() > 0 {
        lemma_repos_contains(s.drop_last(), id);
        if s.last()@.id == id {
            assert(s[s.len() - 1]@.id == id);
        } else if repos_map(s).contains_key(id) {
            let i = choose|i: int|
                0 <= i < s.drop_last().len() && (#[trigger] s.drop_last()[i]@.id) == id;
            assert(s[i]@.id == id);
        } else {
            if exists|i: int| 0 <= i < s.len() && (#[trigger] s[i]@.id) == id {
                let i = choose|i: int| 0 <= i < s.len() && (#[trigger] s[i]@.id) == id;
                assert(i < s.len() - 1);
                assert(s.drop_last()[i]@.id == id);
            }
        }
    }
}

pub proof fn lemma_repos_index(s: Seq<RepoMeta>, i: int)
    requires
        repos_wf(s),
        0 <= i < s.len(),
    ensures
        repos_map(s).contains_key(s[i]@.id),
        repos_map(s)[s[i]@.id] == s[i]@,
    decreases s.len(),
{
    if i == s.len() - 1 {
    } else {
        assert(repos_wf(s.drop_last())) by {
            assert(forall|a: int, b: int|
                0 <= a < b < s.drop_last().len() ==> s.drop_last()[a] == s[a] && s.drop_last()[b]
                    == s[b]);
        }
        assert(s.drop_last()[i] == s[i]);
        lemma_repos_index(s.drop_last(), i);
        assert(s[i]@.id != s.last()@.id);
    }
}

pub proof fn lemma_repos_dom_len(s: Seq<RepoMeta>)
    requires
        repos_wf(s),
    ensures
        repos_map(s).dom().finite(),
        repos_map(s).dom().len() == s.len(),
    decreases s.len(),
{
    if s.len() > 0 {
        assert(repos_wf(s.drop_last())) by {
            assert(forall|a: int, b: int|
                0 <= a < b < s.drop_last().len() ==> s.drop_last()[a] == s[a] && s.drop_last()[b]
                    == s[b]);
        }
        lemma_repos_dom_len(s.drop_last());
        lemma_repos_contains(s.drop_last(), s.last()@.id);
        assert(!repos_map(s.drop_last()).contains_key(s.last()@.id)) by {
            if repos_map(s.drop_last()).contains_key(s.last()@.id) {
                let i = choose|i: int|
                    0 <= i < s.drop_last().len() && (#[trigger] s.drop_last()[i]@.id) == s.last()@.id;
                assert(s[i]@.id == s[s.len() - 1]@.id);
            }
        }
    }
}

pub proof fn lemma_repos_map_update(s: Seq<RepoMeta>, i: int, m: RepoMeta)
    requires
        repos_wf(s),
        0 <= i < s.len(),
        s[i]@.id == m@.id,
    ensures
        repos_map(s.update(i, m)) == repos_map(s).insert(m@.id, m@),
        repos_wf(s.update(i, m)),
    decreases s.len(),
{
    assert(repos_wf(s.update(i, m))) by {
        assert(forall|a: int| 0 <= a < s.len() && a != i ==> s.update(i, m)[a] == s[a]);
    }
    if i == s.len() - 1 {
        assert(s.update(i, m).drop_last() =~= s.drop_last());
        assert(s.update(i, m).last() == m);
        assert(repos_map(s).insert(m@.id, m@) =~= repos_map(s.drop_last()).insert(m@.id, m@));
    } else {
        assert(repos_wf(s.drop_last())) by {
            assert(forall|a: int, b: int|
                0 <= a < b < s.drop_last().len() ==> s.drop_last()[a] == s[a] && s.drop_last()[b]
                    == s[b]);
        }
        assert(s.drop_last()[i] == s[i]);
        lemma_repos_map_update(s.drop_last(), i, m);
        assert(s.update(i, m).drop_last() =~= s.drop_last().update(i, m));
        assert(s.update(i, m).last() == s.last());
        assert(s[i]@.id != s.last()@.id);
        assert(repos_map(s.drop_last()).insert(m@.id, m@).insert(s.last()@.id, s.last()@)
            =~= repos_map(s.drop_last()).insert(s.last()@.id, s.last()@).insert(m@.id, m@));
    }
}

pub proof fn lemma_repos_map_push(s: Seq<RepoMeta>, m: RepoMeta)
    ensures
        repos_map(s.push(m)) == repos_map(s).insert(m@.id, m@),
{
    assert(s.push(m).drop_last() =~= s);
    assert(s.push(m).last() == m);
}

pub proof fn lemma_repos_map_remove(s: Seq<RepoMeta>, i: int)
    requires
        repos_wf(s),
        0 <= i < s.len(),
    ensures
        repos_map(s.remove(i)) == repos_map(s).remove(s[i]@.id),
        repos_wf(s.remove(i)),
    decreases s.len(),
{
    assert(repos_wf(s.remove(i))) by {
        assert(forall|a: int|
            0 <= a < s.remove(i).len() ==> s.remove(i)[a] == (if a < i {
                s[a]
            } else {
                s[a + 1]
            }));
    }
    if i == s.len() - 1 {
        assert(s.remove(i) =~= s.drop_last());
        lemma_repos_contains(s.drop_last(), s.last()@.id);
        assert(!repos_map(s.drop_last()).contains_key(s.last()@.id)) by {
            if repos_map(s.drop_last()).contains_key(s.last()@.id) {
                let a = choose|a: int|
                    0 <= a < s.drop_last().len() && (#[trigger] s.drop_last()[a]@.id) == s.last()@.id;
                assert(s[a]@.id == s[s.len() - 1]@.id);
            }
        }
        assert(repos_map(s.remove(i)) =~= repos_map(s).remove(s[i]@.id));
    } else {
        assert(repos_wf(s.drop_last())) by {
            assert(forall|a: int, b: int|
                0 <= a < b < s.drop_last().len() ==> s.drop_last()[a] == s[a] && s.drop_last()[b]
                    == s[b]);
        }
        assert(s.drop_last()[i] == s[i]);
        lemma_repos_map_remove(s.drop_last(), i);
        assert(s.remove(i).drop_last() =~= s.drop_last().remove(i));
        assert(s.remove(i).last() == s.last());
        assert(s[i]@.id != s.last()@.id);
        assert(repos_map(s.drop_last()).remove(s[i]@.id).insert(s.last()@.id, s.last()@)
            =~= repos_map(s.drop_last()).insert(s.last()@.id, s.last()@).remove(s[i]@.id));
    }
}

/// The file table of one repository.
pub struct Bucket {
    pub repo_id: u128,
    pub table: FileTable,
}

/// The file tables of a sequence of buckets, keyed by repository id.
pub open spec fn buckets_map(s: Seq<Bucket>) -> Map<u128, Map<Seq<char>, FileRec>>
    decreases s.len(),
{
    if s.len() == 0 {
        Map::empty()
    } else {
        buckets_map(s.drop_last()).insert(s.last().repo_id, s.last().table@)
    }
}

/// Bucket ids are pairwise distinct and every table is well-formed.
pub open spec fn buckets_wf(s: Seq<Bucket>) -> bool {
    &&& forall|i: int, j: int|
        0 <= i < j < s.len() ==> (#[trigger] s[i].repo_id) != (#[trigger] s[j].repo_id)
    &&& forall|i: int| 0 <= i < s.len() ==> (#[trigger] s[i].table).wf()
}

pub proof fn lemma_buckets_contains(s: Seq<Bucket>, id: u128)
    ensures
        buckets_map(s).contains_key(id) <==> exists|i: int|
            0 <= i < s.len() && (#[trigger] s[i].repo_id) == id,
    decreases s.len(),
{
    if s.len() > 0 {
        lemma_buckets_contains(s.drop_last(), id);
        if s.last().repo_id == id {
            assert(s[s.len() - 1].repo_id == id);
        } else if buckets_map(s).contains_key(id) {
            let i = choose|i: int|
                0 <= i < s.drop_last().len() && (#[trigger] s.drop_last()[i].repo_id) == id;
            assert(s[i].repo_id == id);
        } else {
            if exists|i: int| 0 <= i < s.len() && (#[trigger] s[i].repo_id) == id {
                let i = choose|i: int| 0 <= i < s.len() && (#[trigger] s[i].repo_id) == id;
                assert(i < s.len() - 1);
                assert(s.drop_last()[i].repo_id == id);
            }
        }
    }
}

pub proof fn lemma_buckets_index(s: Seq<Bucket>, i: int)
    requires
        buckets_wf(s),
        0 <= i < s.len(),
    ensures
        buckets_map(s).contains_key(s[i].repo_id),
        buckets_map(s)[s[i].repo_id] == s[i].table@,
    decreases s.len(),
{
    if i == s.len() - 1 {
    } else {
        assert(buckets_wf(s.drop_last())) by {
            assert(forall|a: int|
                0 <= a < s.drop_last().len() ==> s.drop_last()[a] == s[a]);
        }
        assert(s.drop_last()[i] == s[i]);
        lemma_buckets_index(s.drop_last(), i);
        assert(s[i].repo_id != s.last().repo_id);
    }
}

pub proof fn lemma_buckets_map_update(s: Seq<Bucket>, i: int, b: Bucket)
    requires
        buckets_wf(s),
        0 <= i < s.len(),
        s[i].repo_id == b.repo_id,
        b.table.wf(),
    ensures
        buckets_map(s.update(i, b)) == buckets_map(s).insert(b.repo_id, b.table@),
        buckets_wf(s.update(i, b)),
    decreases s.len(),
{
    assert(buckets_wf(s.update(i, b))) by {
        assert(forall|a: int| 0 <= a < s.len() && a != i ==> s.update(i, b)[a] == s[a]);
    }
    if i == s.len() - 1 {
        assert(s.update(i, b).drop_last() =~= s.drop_last());
        assert(s.update(i, b).last() == b);
        assert(buckets_map(s).insert(b.repo_id, b.table@) =~= buckets_map(s.drop_last()).insert(
            b.repo_id,
            b.table@,
        ));
    } else {
        assert(buckets_wf(s.drop_last())) by {
            assert(forall|a: int|
                0 <= a < s.drop_last().len() ==> s.drop_last()[a] == s[a]);
        }
        assert(s.drop_last()[i] == s[i]);
        lemma_buckets_map_update(s.drop_last(), i, b);
        assert(s.update(i, b).drop_last() =~= s.drop_last().update(i, b));
        assert(s.update(i, b).last() == s.last());
        assert(s[i].repo_id != s.last().repo_id);
        assert(buckets_map(s.drop_last()).insert(b.repo_id, b.table@).insert(
            s.last().repo_id,
            s.last().table@,
        ) =~= buckets_map(s.drop_last()).insert(s.last().repo_id, s.last().table@).insert(
            b.repo_id,
            b.table@,
        ));
    }
}

pub proof fn lemma_buckets_map_push(s: Seq<Bucket>, b: Bucket)
    ensures
        buckets_map(s.push(b)) == buckets_map(s).insert(b.repo_id, b.table@),
{
    assert(s.push(b).drop_last() =~= s);
    assert(s.push(b).last() == b);
}

pub proof fn lemma_buckets_map_remove(s: Seq<Bucket>, i: int)
    requires
        buckets_wf(s),
        0 <= i < s.len(),
    ensures
        buckets_map(s.remove(i)) == buckets_map(s).remove(s[i].repo_id),
        buckets_wf(s.remove(i)),
    decreases s.len(),
{
    assert(buckets_wf(s.remove(i))) by {
        assert(forall|a: int|
            0 <= a < s.remove(i).len() ==> s.remove(i)[a] == (if a < i {
                s[a]
            } else {
                s[a + 1]
            }));
    }
    if i == s.len() - 1 {
        assert(s.remove(i) =~= s.drop_last());
        lemma_buckets_contains(s.drop_last(), s.last().repo_id);
        assert(!buckets_map(s.drop_last()).contains_key(s.last().repo_id)) by {
            if buckets_map(s.drop_last()).contains_key(s.last().repo_id) {
                let a = choose|a: int|
                    0 <= a < s.drop_last().len() && (#[trigger] s.drop_last()[a].repo_id) == s.last().repo_id;
                assert(s[a].repo_id == s[s.len() - 1].repo_id);
            }
        }
        assert(buckets_map(s.remove(i)) =~= buckets_map(s).remove(s[i].repo_id));
    } else {
        assert(buckets_wf(s.drop_last())) by {
            assert(forall|a: int|
                0 <= a < s.drop_last().len() ==> s.drop_last()[a] == s[a]);
        }
        assert(s.drop_last()[i] == s[i]);
        lemma_buckets_map_remove(s.drop_last(), i);
        assert(s.remove(i).drop_last() =~= s.drop_last().remove(i));
        assert(s.remove(i).last() == s.last());
        assert(s[i].repo_id != s.last().repo_id);
        assert(buckets_map(s.drop_last()).remove(s[i].repo_id).insert(
            s.last().repo_id,
            s.last().table@,
        ) =~= buckets_map(s.drop_last()).insert(s.last().repo_id, s.last().table@).remove(
            s[i].repo_id,
        ));
    }
}

/// Mathematical view of the whole catalog.
pub ghost struct CatalogRec {
    pub repos: Map<u128, RepoRec>,
    pub files: Map<u128, Map<Seq<char>, FileRec>>,
}

/// The in-memory index of repositories and their files.
pub struct Catalog {
    pub repos: Vec<RepoMeta>,
    pub buckets: Vec<Bucket>,
}

impl View for Catalog {
    type V = CatalogRec;

    open spec fn view(&self) -> CatalogRec {
        CatalogRec { repos: repos_map(self.repos@), files: buckets_map(self.buckets@) }
    }
}

/// True when some bucket carries the files of `id`.
pub open spec fn has_bucket(s: Seq<Bucket>, id: u128) -> bool {
    exists|i: int| 0 <= i < s.len() && (#[trigger] s[i].repo_id) == id
}

/// Index of the bucket of `id` (meaningful when `has_bucket` holds and
/// ids are unique).
pub open spec fn bucket_idx(s: Seq<Bucket>, id: u128) -> int {
    choose|i: int| 0 <= i < s.len() && (#[trigger] s[i].repo_id) == id
}

/// The file records a bucket sequence holds for `id`, in storage order;
/// empty when no bucket carries that id.
pub open spec fn files_of_seq(s: Seq<Bucket>, id: u128) -> Seq<FileRec> {
    if has_bucket(s, id) {
        s[bucket_idx(s, id)].table.recs()
    } else {
        Seq::empty()
    }
}

impl Catalog {
    /// Ids are unique on both sides and every file table is well-formed.
    pub open spec fn wf(&self) -> bool {
        repos_wf(self.repos@) && buckets_wf(self.buckets@)
    }

    /// The file records held for `id`, in storage order; empty when the
    /// repository has no bucket.
    pub open spec fn files_of(&self, id: u128) -> Seq<FileRec> {
        files_of_seq(self.buckets@, id)
    }

    /// Bytes held for `id`.
    pub open spec fn size_of(&self, id: u128) -> int {
        sum_sizes(self.files_of(id))
    }

    /// Number of files held for `id`.
    pub open spec fn count_of(&self, id: u128) -> int {
        self.files_of(id).len() as int
    }

    /// The size accounting invariant: every repository record carries
    /// exactly the total size and count of its files.
    pub open spec fn accounted(&self) -> bool {
        forall|i: int|
            0 <= i < self.repos@.len() ==> {
                let r = (#[trigger] self.repos@[i])@;
                r.current_size_bytes == self.size_of(r.id) && r.file_count == self.count_of(
                    r.id,
                )
            }
    }

    pub fn new() -> (r: Catalog)
        ensures
            r.wf(),
            r@.repos == Map::<u128, RepoRec>::empty(),
            r@.files == Map::<u128, Map<Seq<char>, FileRec>>::empty(),
            r.repos@.len() == 0,
            r.buckets@.len() == 0,
            r.accounted(),
    {
        Catalog { repos: Vec::new(), buckets: Vec::new() }
    }

    fn repo_find(&self, id: u128) -> (r: Option<usize>)
        ensures
            match r {
                Some(i) => i < self.repos@.len() && self.repos@[i as int]@.id == id,
                None => forall|i: int|
                    0 <= i < self.repos@.len() ==> (#[trigger] self.repos@[i]@.id) != id,
            },
    {
        let mut i: usize = 0;
        while i < self.repos.len()
            invariant
                i <= self.repos@.len(),
                forall|j: int| 0 <= j < i ==> (#[trigger] self.repos@[j]@.id) != id,
            decreases self.repos@.len() - i,
        {
            if self.repos[i].id == id {
                return Some(i);
            }
            i += 1;
        }
        None
    }

    /// Look up a repository record.
    pub fn repo_get(&self, id: u128) -> (r: Option<&RepoMeta>)
        requires
            self.wf(),
        ensures
            match r {
                Some(m) => self@.repos.contains_key(id) && m@ == self@.repos[id] && m@.id == id,
                None => !self@.repos.contains_key(id),
            },
    {
        proof {
            lemma_repos_contains(self.repos@, id);
        }
        match self.repo_find(id) {
            Some(i) => {
                proof {
                    lemma_repos_index(self.repos@, i as int);
                }
                Some(&self.repos[i])
            },
            None => None,
        }
    }

    /// Number of repositories.
    pub fn repo_count(&self) -> (r: usize)
        requires
            self.wf(),
        ensures
            r == self.repos@.len(),
            r == self@.repos.dom().len(),
    {
        proof {
            lemma_repos_dom_len(self.repos@);
        }
        self.repos.len()
    }

    /// The repository record at a storage position, for iteration.
    pub fn repo_at(&self, i: usize) -> (r: &RepoMeta)
        requires
            i < self.repos@.len(),
        ensures
            *r == self.repos@[i as int],
    {
        &self.repos[i]
    }

    /// Insert or replace a repository record; the file tables are left
    /// alone.
    pub fn repo_upsert(&mut self, m: RepoMeta)
        requires
            old(self).wf(),
        ensures
            final(self).wf(),
            final(self)@.repos == old(self)@.repos.insert(m@.id, m@),
            final(self)@.files == old(self)@.files,
            final(self).buckets@ == old(self).buckets@,
            old(self)@.repos.contains_key(m@.id) ==> exists|i: int|
                0 <= i < old(self).repos@.len() && (#[trigger] old(self).repos@[i]@.id) == m@.id
                    && final(self).repos@ == old(self).repos@.update(i, m),
            !old(self)@.repos.contains_key(m@.id) ==> final(self).repos@ == old(self).repos@.push(m),
    {
        proof {
            lemma_repos_contains(self.repos@, m@.id);
        }
        let ghost m_id = m.id;
        match self.repo_find(m.id) {
            Some(i) => {
                proof {
                    lemma_repos_map_update(self.repos@, i as int, m);
                }
                let slot = &mut self.repos[i];
                *slot = m;
            },
            None => {
                proof {
                    lemma_repos_map_push(self.repos@, m);
                    assert(forall|i: int|
                        0 <= i < self.repos@.len() ==> (#[trigger] self.repos@[i]@.id)
                            != m_id);
                }
                self.repos.push(m);
                proof {
                    assert(repos_wf(self.repos@)) by {
                        assert(forall|a: int|
                            0 <= a < old(self).repos@.len() ==> self.repos@[a] == old(self).repos@[a]);
                    }
                }
            },
        }
    }

    /// Remove a repository record, leaving its bucket to the caller.
    pub fn repo_remove(&mut self, id: u128) -> (r: Option<RepoMeta>)
        requires
            old(self).wf(),
        ensures
            final(self).wf(),
            final(self)@.files == old(self)@.files,
            final(self).buckets@ == old(self).buckets@,
            match r {
                Some(m) => old(self)@.repos.contains_key(id) && m@ == old(self)@.repos[id]
                    && final(self)@.repos == old(self)@.repos.remove(id) && exists|i: int|
                    0 <= i < old(self).repos@.len() && (#[trigger] old(self).repos@[i]@.id)
                        == id && final(self).repos@ == old(self).repos@.remove(i),
                None => !old(self)@.repos.contains_key(id) && final(self)@.repos == old(self)@.repos && final(self).repos@ == old(self).repos@,
            },
    {
        proof {
            lemma_repos_contains(self.repos@, id);
        }
        match self.repo_find(id) {
            Some(i) => {
                proof {
                    lemma_repos_index(self.repos@, i as int);
                    lemma_repos_map_remove(self.repos@, i as int);
                }
                Some(self.repos.remove(i))
            },
            None => None,
        }
    }

    fn bucket_find(&self, id: u128) -> (r: Option<usize>)
        ensures
            match r {
                Some(i) => i < self.buckets@.len() && self.buckets@[i as int].repo_id == id,
                None => forall|i: int|
                    0 <= i < self.buckets@.len() ==> (#[trigger] self.buckets@[i].repo_id)
                        != id,
            },
    {
        let mut i: usize = 0;
        while i < self.buckets.len()
            invariant
                i <= self.buckets@.len(),
                forall|j: int| 0 <= j < i ==> (#[trigger] self.buckets@[j].repo_id) != id,
            decreases self.buckets@.len() - i,
        {
            if self.buckets[i].repo_id == id {
                return Some(i);
            }
            i += 1;
        }
        None
    }

    /// The file table of a repository, if it has one.
    pub fn table_get(&self, id: u128) -> (r: Option<&FileTable>)
        requires
            self.wf(),
        ensures
            match r {
                Some(t) => self@.files.contains_key(id) && t@ == self@.files[id] && t.wf()
                    && t.recs() == self.files_of(id),
                None => !self@.files.contains_key(id) && self.files_of(id)
                    == Seq::<FileRec>::empty(),
            },
    {
        proof {
            lemma_buckets_contains(self.buckets@, id);
        }
        match self.bucket_find(id) {
            Some(i) => {
                proof {
                    lemma_buckets_index(self.buckets@, i as int);
                    assert(bucket_idx(self.buckets@, id) == i) by {
                        let j = bucket_idx(self.buckets@, id);
                        assert(self.buckets@[j].repo_id == id);
                    }
                }
                Some(&self.buckets[i].table)
            },
            None => None,
        }
    }

    /// Look up one file record.
    pub fn file_get(&self, id: u128, path: &str) -> (r: Option<&FileMeta>)
        requires
            self.wf(),
        ensures
            match r {
                Some(m) => self@.files.contains_key(id) && self@.files[id].contains_key(path@)
                    && m@ == self@.files[id][path@],
                None => !self@.files.contains_key(id) || !self@.files[id].contains_key(
                    path@,
                ),
            },
    {
        match self.table_get(id) {
            Some(t) => t.get(path),
            None => None,
        }
    }

}

/// A stored record's own path field equals the path it is indexed
/// under.
pub proof fn lemma_file_key(c: Catalog, id: u128, p: Seq<char>)
    requires
        c.wf(),
        c@.files.contains_key(id),
        c@.files[id].contains_key(p),
    ensures
        c@.files[id][p].path == p,
        c@.files[id][p].size_bytes == c.existing_size(id, p),
        c.size_of(id) >= c@.files[id][p].size_bytes,
        c.count_of(id) >= 1,
{
    lemma_buckets_contains(c.buckets@, id);
    let t = bucket_idx(c.buckets@, id);
    assert(c.buckets@[t].repo_id == id);
    lemma_buckets_index(c.buckets@, t);
    assert(c@.files[id] == c.buckets@[t].table@);
    lemma_table_contains(c.buckets@[t].table.entries@, p);
    let k = choose|k: int|
        0 <= k < c.buckets@[t].table.entries@.len() && (#[trigger] c.buckets@[t].table.entries@[k]@.path) == p;
    lemma_table_index(c.buckets@[t].table.entries@, k);
    assert(c.files_of(id) == c.buckets@[t].table.recs());
    assert(c.files_of(id)[k] == c@.files[id][p]);
    lemma_sum_lower_bound(c.files_of(id), k);
}

/// A repository's file count is the length of a real vector, so it
/// fits in a machine word.
pub proof fn lemma_count_bound(c: Catalog, id: u128)
    ensures
        c.files_of(id).len() <= usize::MAX,
{
    if has_bucket(c.buckets@, id) {
        let t = bucket_idx(c.buckets@, id);
        vstd::std_specs::vec::axiom_spec_len(&c.buckets@[t].table.entries);
    }
}

pub proof fn lemma_sum_concat(a: Seq<FileRec>, b: Seq<FileRec>)
    ensures
        sum_sizes(a + b) == sum_sizes(a) + sum_sizes(b),
    decreases b.len(),
{
    if b.len() == 0 {
        assert(a + b =~= a);
    } else {
        assert((a + b).drop_last() =~= a + b.drop_last());
        assert((a + b).last() == b.last());
        lemma_sum_concat(a, b.drop_last());
    }
}

pub proof fn lemma_sum_lower_bound(s: Seq<FileRec>, i: int)
    requires
        0 <= i < s.len(),
    ensures
        sum_sizes(s) >= s[i].size_bytes,
    decreases s.len(),
{
    lemma_sum_nonneg(s.drop_last());
    if i == s.len() - 1 {
    } else {
        assert(s.drop_last()[i] == s[i]);
        lemma_sum_lower_bound(s.drop_last(), i);
    }
}

/// With unique ids, the bucket of `id` is exactly the one at `j`.
pub proof fn lemma_bucket_idx_of(s: Seq<Bucket>, id: u128, j: int)
    requires
        buckets_wf(s),
        0 <= j < s.len(),
        s[j].repo_id == id,
    ensures
        has_bucket(s, id),
        bucket_idx(s, id) == j,
{
    let k = bucket_idx(s, id);
    assert(s[k].repo_id == id);
    if k != j {
        if k < j {
            assert(s[k].repo_id != s[j].repo_id);
        } else {
            assert(s[j].repo_id != s[k].repo_id);
        }
    }
}

impl Catalog {
    /// Size of the record stored at `(id, path)`, or zero when absent.
    pub open spec fn existing_size(&self, id: u128, path: Seq<char>) -> int {
        if self@.files.contains_key(id) && self@.files[id].contains_key(path) {
            self@.files[id][path].size_bytes as int
        } else {
            0
        }
    }

    /// True when a record is stored at `(id, path)`.
    pub open spec fn file_exists(&self, id: u128, path: Seq<char>) -> bool {
        self@.files.contains_key(id) && self@.files[id].contains_key(path)
    }

    /// Insert or replace one file record under `id`, creating the bucket
    /// when the repository has none yet.
    pub fn file_insert(&mut self, id: u128, m: FileMeta)
        requires
            old(self).wf(),
        ensures
            final(self).wf(),
            final(self)@.repos == old(self)@.repos,
            final(self).repos@ == old(self).repos@,
            final(self)@.files == old(self)@.files.insert(
                id,
                (if old(self)@.files.contains_key(id) {
                    old(self)@.files[id]
                } else {
                    Map::<Seq<char>, FileRec>::empty()
                }).insert(m@.path, m@),
            ),
            final(self).size_of(id) == old(self).size_of(id) - old(self).existing_size(
                id,
                m@.path,
            ) + m@.size_bytes,
            final(self).count_of(id) == old(self).count_of(id) + (if old(self).file_exists(
                id,
                m@.path,
            ) {
                0int
            } else {
                1int
            }),
            forall|id2: u128|
                id2 != id ==> (#[trigger] final(self).files_of(id2)) == old(self).files_of(
                    id2,
                ),
    {
        proof {
            lemma_buckets_contains(self.buckets@, id);
        }
        let ghost bs0 = self.buckets@;
        match self.bucket_find(id) {
            Some(i) => {
                proof {
                    lemma_buckets_index(bs0, i as int);
                    lemma_bucket_idx_of(bs0, id, i as int);
                    lemma_table_dom_len(bs0[i as int].table.entries@);
                }
                let b = &mut self.buckets[i];
                let ghost t0 = b.table;
                b.table.insert(m);
                proof {
                    let bnew = Bucket { repo_id: id, table: b.table };
                    assert(*b == bnew);
                    assert(self.buckets@ == bs0.update(i as int, bnew));
                    lemma_buckets_map_update(bs0, i as int, bnew);
                    lemma_bucket_idx_of(self.buckets@, id, i as int);
                    assert(final(self).files_of(id) == bnew.table.recs());
                    // the sum and count deltas follow from how the table changed
                    if t0@.contains_key(m@.path) {
                        let k = choose|k: int|
                            0 <= k < t0.recs().len() && (#[trigger] t0.recs()[k].path)
                                == m@.path && bnew.table.recs() == t0.recs().update(k, m@);
                        lemma_sum_update(t0.recs(), k, m@);
                        assert(t0.recs()[k] == t0.entries@[k]@);
                        lemma_table_index(t0.entries@, k);
                        assert(t0@[m@.path] == t0.recs()[k]);
                    } else {
                        assert(bnew.table.recs() == t0.recs().push(m@));
                        lemma_sum_push(t0.recs(), m@);
                    }
                    assert forall|id2: u128| id2 != id implies (#[trigger] final(self).files_of(
                        id2,
                    )) == old(self).files_of(id2) by {
                        lemma_files_of_frame_update(bs0, self.buckets@, i as int, id, id2);
                    }
                }
            },
            None => {
                let mut t = FileTable::new();
                t.insert(m);
                let bnew = Bucket { repo_id: id, table: t };
                self.buckets.push(bnew);
                proof {
                    lemma_buckets_map_push(bs0, bnew);
                    assert(buckets_wf(self.buckets@)) by {
                        assert(forall|a: int|
                            0 <= a < bs0.len() ==> self.buckets@[a] == bs0[a]);
                        assert(forall|a: int|
                            0 <= a < bs0.len() ==> (#[trigger] bs0[a].repo_id) != id);
                    }
                    lemma_bucket_idx_of(self.buckets@, id, bs0.len() as int);
                    assert(final(self).files_of(id) =~= Seq::<FileRec>::empty().push(m@));
                    lemma_sum_push(Seq::<FileRec>::empty(), m@);
                    assert(!has_bucket(bs0, id));
                    assert(old(self).size_of(id) == 0);
                    assert(final(self)@.files =~= old(self)@.files.insert(
                        id,
                        Map::<Seq<char>, FileRec>::empty().insert(m@.path, m@),
                    ));
                    assert forall|id2: u128| id2 != id implies (#[trigger] final(self).files_of(
                        id2,
                    )) == old(self).files_of(id2) by {
                        lemma_files_of_frame_push(bs0, self.buckets@, id, id2);
                    }
                }
            },
        }
    }

}

/// Framing: replacing the bucket of `id` leaves every other
/// repository's files alone.
pub proof fn lemma_files_of_frame_update(bs0: Seq<Bucket>, bs1: Seq<Bucket>, i: int, id: u128, id2: u128)
    requires
        buckets_wf(bs0),
        buckets_wf(bs1),
        0 <= i < bs0.len(),
        bs0[i].repo_id == id,
        bs1.len() == bs0.len(),
        forall|a: int| 0 <= a < bs0.len() && a != i ==> bs1[a] == bs0[a],
        bs1[i].repo_id == id,
        id2 != id,
    ensures
        files_of_seq(bs1, id2) == files_of_seq(bs0, id2),
{
    if has_bucket(bs0, id2) {
        let j = bucket_idx(bs0, id2);
        assert(bs0[j].repo_id == id2);
        assert(j != i);
        assert(bs1[j].repo_id == id2);
        lemma_bucket_idx_of(bs1, id2, j);
        lemma_bucket_idx_of(bs0, id2, j);
    } else {
        if has_bucket(bs1, id2) {
            let j = bucket_idx(bs1, id2);
            assert(bs1[j].repo_id == id2);
            assert(j != i);
            assert(bs0[j].repo_id == id2);
        }
    }
}

/// Framing: appending a bucket for `id` leaves every other repository's
/// files alone.
pub proof fn lemma_files_of_frame_push(bs0: Seq<Bucket>, bs1: Seq<Bucket>, id: u128, id2: u128)
    requires
        buckets_wf(bs0),
        buckets_wf(bs1),
        bs1.len() == bs0.len() + 1,
        forall|a: int| 0 <= a < bs0.len() ==> bs1[a] == bs0[a],
        bs1[bs0.len() as int].repo_id == id,
        id2 != id,
    ensures
        files_of_seq(bs1, id2) == files_of_seq(bs0, id2),
{
    if has_bucket(bs0, id2) {
        let j = bucket_idx(bs0, id2);
        assert(bs0[j].repo_id == id2);
        assert(bs1[j].repo_id == id2);
        lemma_bucket_idx_of(bs1, id2, j);
        lemma_bucket_idx_of(bs0, id2, j);
    } else {
        if has_bucket(bs1, id2) {
            let j = bucket_idx(bs1, id2);
            assert(bs1[j].repo_id == id2);
            assert(j < bs0.len());
            assert(bs0[j].repo_id == id2);
        }
    }
}

impl Catalog {
    /// Remove the record at `(id, path)` and hand it back; a missing
    /// bucket or path is a no-op.
    pub fn file_remove(&mut self, id: u128, path: &str) -> (r: Option<FileMeta>)
        requires
            old(self).wf(),
        ensures
            final(self).wf(),
            final(self)@.repos == old(self)@.repos,
            final(self).repos@ == old(self).repos@,
            match r {
                Some(m) => old(self).file_exists(id, path@) && m@ == old(self)@.files[id][path@]
                    && final(self)@.files == old(self)@.files.insert(
                    id,
                    old(self)@.files[id].remove(path@),
                ) && final(self).size_of(id) == old(self).size_of(id) - m@.size_bytes && final(self).count_of(id) == old(self).count_of(id) - 1,
                None => !old(self).file_exists(id, path@) && final(self)@.files == old(self)@.files && final(self).files_of(id) == old(self).files_of(id),
            },
            forall|id2: u128|
                id2 != id ==> (#[trigger] final(self).files_of(id2)) == old(self).files_of(
                    id2,
                ),
    {
        proof {
            lemma_buckets_contains(self.buckets@, id);
        }
        let ghost bs0 = self.buckets@;
        match self.bucket_find(id) {
            Some(i) => {
                proof {
                    lemma_buckets_index(bs0, i as int);
                    lemma_bucket_idx_of(bs0, id, i as int);
                }
                let b = &mut self.buckets[i];
                let ghost t0 = b.table;
                let r = b.table.remove(path);
                proof {
                    let bnew = Bucket { repo_id: id, table: b.table };
                    assert(*b == bnew);
                    assert(self.buckets@ == bs0.update(i as int, bnew));
                    lemma_buckets_map_update(bs0, i as int, bnew);
                    lemma_bucket_idx_of(self.buckets@, id, i as int);
                    assert(final(self).files_of(id) == bnew.table.recs());
                    if r is Some {
                        let k = choose|k: int|
                            0 <= k < t0.recs().len() && (#[trigger] t0.recs()[k].path) == path@
                                && bnew.table.recs() == t0.recs().remove(k);
                        lemma_sum_remove(t0.recs(), k);
                        assert(t0.recs()[k] == t0.entries@[k]@);
                        lemma_table_index(t0.entries@, k);
                        assert(t0@[path@] == t0.recs()[k]);
                    } else {
                        assert(bnew.table.recs() == t0.recs());
                        assert(bnew.table@ == t0@);
                        assert(final(self)@.files =~= old(self)@.files);
                        assert(final(self).files_of(id) == old(self).files_of(id));
                    }
                    assert forall|id2: u128| id2 != id implies (#[trigger] final(self).files_of(
                        id2,
                    )) == old(self).files_of(id2) by {
                        lemma_files_of_frame_update(bs0, self.buckets@, i as int, id, id2);
                    }
                }
                r
            },
            None => {
                proof {
                    assert(!old(self)@.files.contains_key(id));
                }
                None
            },
        }
    }

    /// Give `id` a fresh empty file table, replacing any existing one.
    pub fn bucket_set_empty(&mut self, id: u128)
        requires
            old(self).wf(),
        ensures
            final(self).wf(),
            final(self)@.repos == old(self)@.repos,
            final(self).repos@ == old(self).repos@,
            final(self)@.files == old(self)@.files.insert(
                id,
                Map::<Seq<char>, FileRec>::empty(),
            ),
            final(self).files_of(id) == Seq::<FileRec>::empty(),
            forall|id2: u128|
                id2 != id ==> (#[trigger] final(self).files_of(id2)) == old(self).files_of(
                    id2,
                ),
    {
        let ghost bs0 = self.buckets@;
        match self.bucket_find(id) {
            Some(i) => {
                proof {
                    lemma_buckets_index(bs0, i as int);
                }
                let b = &mut self.buckets[i];
                b.table = FileTable::new();
                proof {
                    let bnew = Bucket { repo_id: id, table: b.table };
                    assert(*b == bnew);
                    assert(self.buckets@ == bs0.update(i as int, bnew));
                    lemma_buckets_map_update(bs0, i as int, bnew);
                    lemma_bucket_idx_of(self.buckets@, id, i as int);
                    assert(final(self).files_of(id) =~= Seq::<FileRec>::empty());
                    assert forall|id2: u128| id2 != id implies (#[trigger] final(self).files_of(
                        id2,
                    )) == old(self).files_of(id2) by {
                        lemma_files_of_frame_update(bs0, self.buckets@, i as int, id, id2);
                    }
                }
            },
            None => {
                let bnew = Bucket { repo_id: id, table: FileTable::new() };
                self.buckets.push(bnew);
                proof {
                    lemma_buckets_map_push(bs0, bnew);
                    assert(buckets_wf(self.buckets@)) by {
                        assert(forall|a: int|
                            0 <= a < bs0.len() ==> self.buckets@[a] == bs0[a]);
                        assert(forall|a: int|
                            0 <= a < bs0.len() ==> (#[trigger] bs0[a].repo_id) != id);
                    }
                    lemma_bucket_idx_of(self.buckets@, id, bs0.len() as int);
                    assert(final(self).files_of(id) =~= Seq::<FileRec>::empty());
                    assert forall|id2: u128| id2 != id implies (#[trigger] final(self).files_of(
                        id2,
                    )) == old(self).files_of(id2) by {
                        lemma_files_of_frame_push(bs0, self.buckets@, id, id2);
                    }
                }
            },
        }
    }

    /// Create an empty file table for `id` when it has none; an existing
    /// table is left alone.
    pub fn bucket_ensure(&mut self, id: u128)
        requires
            old(self).wf(),
        ensures
            final(self).wf(),
            final(self)@.repos == old(self)@.repos,
            final(self).repos@ == old(self).repos@,
            old(self)@.files.contains_key(id) ==> final(self)@.files == old(self)@.files
                && final(self).buckets@ == old(self).buckets@,
            !old(self)@.files.contains_key(id) ==> final(self)@.files == old(self)@.files.insert(id, Map::<Seq<char>, FileRec>::empty()) && final(self).files_of(id)
                == Seq::<FileRec>::empty(),
            forall|id2: u128|
                id2 != id ==> (#[trigger] final(self).files_of(id2)) == old(self).files_of(
                    id2,
                ),
    {
        proof {
            lemma_buckets_contains(self.buckets@, id);
        }
        let ghost bs0 = self.buckets@;
        match self.bucket_find(id) {
            Some(_) => {
            },
            None => {
                let bnew = Bucket { repo_id: id, table: FileTable::new() };
                self.buckets.push(bnew);
                proof {
                    lemma_buckets_map_push(bs0, bnew);
                    assert(buckets_wf(self.buckets@)) by {
                        assert(forall|a: int|
                            0 <= a < bs0.len() ==> self.buckets@[a] == bs0[a]);
                        assert(forall|a: int|
                            0 <= a < bs0.len() ==> (#[trigger] bs0[a].repo_id) != id);
                    }
                    lemma_bucket_idx_of(self.buckets@, id, bs0.len() as int);
                    assert(final(self).files_of(id) =~= Seq::<FileRec>::empty());
                    assert forall|id2: u128| id2 != id implies (#[trigger] final(self).files_of(
                        id2,
                    )) == old(self).files_of(id2) by {
                        lemma_files_of_frame_push(bs0, self.buckets@, id, id2);
                    }
                }
            },
        }
    }

    /// Drop the whole file table of `id`, if any.
    pub fn bucket_remove(&mut self, id: u128)
        requires
            old(self).wf(),
        ensures
            final(self).wf(),
            final(self)@.repos == old(self)@.repos,
            final(self).repos@ == old(self).repos@,
            final(self)@.files == old(self)@.files.remove(id),
            final(self).files_of(id) == Seq::<FileRec>::empty(),
            forall|id2: u128|
                id2 != id ==> (#[trigger] final(self).files_of(id2)) == old(self).files_of(
                    id2,
                ),
    {
        proof {
            lemma_buckets_contains(self.buckets@, id);
        }
        let ghost bs0 = self.buckets@;
        match self.bucket_find(id) {
            Some(i) => {
                proof {
                    lemma_buckets_index(bs0, i as int);
                    lemma_buckets_map_remove(bs0, i as int);
                }
                let _ = self.buckets.remove(i);
                proof {
                    assert(!has_bucket(self.buckets@, id)) by {
                        if has_bucket(self.buckets@, id) {
                            let j = bucket_idx(self.buckets@, id);
                            assert(self.buckets@[j].repo_id == id);
                            if j < i as int {
                                assert(bs0[j].repo_id == id);
                                assert(bs0[j].repo_id != bs0[i as int].repo_id);
                            } else {
                                assert(bs0[j + 1].repo_id == id);
                                assert(bs0[i as int].repo_id != bs0[j + 1].repo_id);
                            }
                        }
                    }
                    assert forall|id2: u128| id2 != id implies (#[trigger] final(self).files_of(
                        id2,
                    )) == old(self).files_of(id2) by {
                        if has_bucket(bs0, id2) {
                            let j = bucket_idx(bs0, id2);
                            assert(bs0[j].repo_id == id2);
                            assert(j != i as int);
                            let j2 = if j < i as int {
                                j
                            } else {
                                j - 1
                            };
                            assert(self.buckets@[j2].repo_id == id2);
                            lemma_bucket_idx_of(self.buckets@, id2, j2);
                            lemma_bucket_idx_of(bs0, id2, j);
                        } else {
                            if has_bucket(self.buckets@, id2) {
                                let j = bucket_idx(self.buckets@, id2);
                                assert(self.buckets@[j].repo_id == id2);
                                if j < i as int {
                                    assert(bs0[j].repo_id == id2);
                                } else {
                                    assert(bs0[j + 1].repo_id == id2);
                                }
                            }
                        }
                    }
                }
            },
            None => {
                proof {
                    assert(final(self)@.files =~= old(self)@.files.remove(id));
                }
            },
        }
    }
}

} // verus!

