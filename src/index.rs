//! The fingerprint index of one directory tree: for each fingerprint, the
//! paths of the files under the tree whose content has it.
use vstd::prelude::*;

verus! {

/// What indexing learned of one regular file found under a directory root.
pub struct FileRecord {
    /// The file's path.
    pub path: String,
    /// The fingerprint of the file's content, or `None` where the file could
    /// not be opened or read to its end.
    pub fingerprint: Option<String>,
}

/// A file record as plain values: its path, and its fingerprint if it was read.
pub type RecordView = (Seq<char>, Option<Seq<char>>);

impl View for FileRecord {
    type V = RecordView;

    open spec fn view(&self) -> RecordView {
        (
            self.path@,
            match self.fingerprint {
                Some(f) => Some(f@),
                None => None,
            },
        )
    }
}

/// The records of `rs` as plain values.
pub open spec fn records_view(rs: Seq<FileRecord>) -> Seq<RecordView> {
    rs.map_values(|r: FileRecord| r@)
}

/// The paths, in order, of the records of `rs` that were read and have
/// fingerprint `fp`.
pub open spec fn paths_with(rs: Seq<RecordView>, fp: Seq<char>) -> Seq<Seq<char>>
    decreases rs.len(),
{
    if rs.len() == 0 {
        seq![]
    } else {
        let before = paths_with(rs.drop_last(), fp);
        if rs.last().1 == Some(fp) {
            before.push(rs.last().0)
        } else {
            before
        }
    }
}

/// The paths, in order, of the records of `rs` whose file could not be read.
pub open spec fn failed_paths(rs: Seq<RecordView>) -> Seq<Seq<char>>
    decreases rs.len(),
{
    if rs.len() == 0 {
        seq![]
    } else {
        let before = failed_paths(rs.drop_last());
        if rs.last().1 is None {
            before.push(rs.last().0)
        } else {
            before
        }
    }
}

/// The paths, in order, of the records of `rs` whose file was read.
pub open spec fn read_paths(rs: Seq<RecordView>) -> Seq<Seq<char>>
    decreases rs.len(),
{
    if rs.len() == 0 {
        seq![]
    } else {
        let before = read_paths(rs.drop_last());
        if rs.last().1 is Some {
            before.push(rs.last().0)
        } else {
            before
        }
    }
}

/// One fingerprint of an index and the paths that have it.
pub struct IndexEntry {
    pub fingerprint: String,
    pub paths: Vec<String>,
}

/// An index entry as plain values: a fingerprint and its paths in order.
pub type EntryView = (Seq<char>, Seq<Seq<char>>);

impl View for IndexEntry {
    type V = EntryView;

    open spec fn view(&self) -> EntryView {
        (self.fingerprint@, self.paths@.map_values(|p: String| p@))
    }
}

/// Whether some entry of `v` has fingerprint `fp`.
pub open spec fn has_fingerprint(v: Seq<EntryView>, fp: Seq<char>) -> bool {
    exists|i: int| 0 <= i < v.len() && #[trigger] v[i].0 == fp
}

/// No fingerprint has two entries in `v`.
pub open spec fn keys_unique(v: Seq<EntryView>) -> bool {
    forall|i: int, j: int| 0 <= i < v.len() && 0 <= j < v.len() && i != j ==> v[i].0 != v[j].0
}

/// Every path of the index `b`, entry by entry.
pub open spec fn all_paths(b: Seq<EntryView>) -> Seq<Seq<char>>
    decreases b.len(),
{
    if b.len() == 0 {
        seq![]
    } else {
        all_paths(b.drop_last()) + b.last().1
    }
}

/// `v` is the index of the records `rs`: it has an entry for exactly the
/// fingerprints of the files that were read, each once, and each entry lists
/// the paths of those files in the order of the records.
pub open spec fn indexes(v: Seq<EntryView>, rs: Seq<RecordView>) -> bool {
    &&& keys_unique(v)
    &&& forall|fp: Seq<char>| has_fingerprint(v, fp) <==> #[trigger] paths_with(rs, fp).len() > 0
    &&& forall|k: int| 0 <= k < v.len() ==> #[trigger] v[k].1 == paths_with(rs, v[k].0)
}

/// The paths that have fingerprint `fp` in `v`, as a set.
pub open spec fn path_set(v: Seq<EntryView>, fp: Seq<char>) -> Set<Seq<char>> {
    Set::new(|p: Seq<char>| exists|i: int| 0 <= i < v.len() && v[i].0 == fp && #[trigger] v[i].1.contains(p))
}

/// What an index says with its order forgotten: each fingerprint mapped to
/// the set of its paths.
pub open spec fn index_map(v: Seq<EntryView>) -> Map<Seq<char>, Set<Seq<char>>> {
    Map::new(|fp: Seq<char>| has_fingerprint(v, fp), |fp: Seq<char>| path_set(v, fp))
}

/// The fingerprint index of one directory tree.
pub struct FingerprintIndex {
    entries: Vec<IndexEntry>,
}

impl View for FingerprintIndex {
    type V = Seq<EntryView>;

    closed spec fn view(&self) -> Seq<EntryView> {
        self.entries@.map_values(|e: IndexEntry| e@)
    }
}

impl FingerprintIndex {
    /// Each fingerprint has at most one entry.
    pub open spec fn wf(&self) -> bool {
        keys_unique(self@)
    }

    /// An index with no entries.
    pub fn new() -> (r: FingerprintIndex)
        ensures
            r@ == Seq::<EntryView>::empty(),
            r.wf(),
    {
        let r = FingerprintIndex { entries: Vec::new() };
        assert(r@ =~= Seq::<EntryView>::empty());
        r
    }

    /// The number of fingerprints in the index.
    pub fn len(&self) -> (r: usize)
        ensures
            r == self@.len(),
    {
        self.entries.len()
    }

    /// The entry at position `i`.
    pub fn entry(&self, i: usize) -> (r: &IndexEntry)
        requires
            i < self@.len(),
        ensures
            r@ == self@[i as int],
    {
        &self.entries[i]
    }

    /// The position of the entry for `fp`, if there is one.
    pub fn find(&self, fp: &String) -> (r: Option<usize>)
        ensures
            match r {
                Some(i) => i < self@.len() && self@[i as int].0 == fp@,
                None => !has_fingerprint(self@, fp@),
            },
    {
        let mut i: usize = 0;
        while i < self.entries.len()
            invariant
                i <= self@.len(),
                self@.len() == self.entries@.len(),
                forall|k: int| 0 <= k < i ==> self@[k].0 != fp@,
            decreases self@.len() - i,
        {
            if self.entries[i].fingerprint == *fp {
                return Some(i);
            }
            i = i + 1;
        }
        None
    }

    /// Adds `path` under `fp`: at the end of the entry for `fp` if there is
    /// one, else in a new entry at the end.
    pub fn insert(&mut self, fp: String, path: String)
        requires
            old(self).wf(),
        ensures
            final(self).wf(),
            forall|i: int|
                0 <= i < old(self)@.len() && old(self)@[i].0 == fp@ ==> final(self)@ == old(
                    self,
                )@.update(i, (fp@, old(self)@[i].1.push(path@))),
            !has_fingerprint(old(self)@, fp@) ==> final(self)@ == old(self)@.push(
                (fp@, seq![path@]),
            ),
    {
        match self.find(&fp) {
            Some(i) => {
                let ghost before = self@;
                let mut entry = self.entries.remove(i);
                assert(entry@ == before[i as int]);
                let ghost old_paths = entry.paths@;
                entry.paths.push(path);
                assert(entry@.1 =~= before[i as int].1.push(path@)) by {
                    assert(entry.paths@ == old_paths.push(path));
                }
                self.entries.insert(i, entry);
                assert(self@ =~= before.update(i as int, (fp@, before[i as int].1.push(path@))));
            },
            None => {
                let ghost before = self@;
                let mut paths: Vec<String> = Vec::new();
                paths.push(path);
                assert(paths@.map_values(|p: String| p@) =~= seq![path@]);
                self.entries.push(IndexEntry { fingerprint: fp, paths });
                assert(self@ =~= before.push((fp@, seq![path@])));
            },
        }
    }
}

/// Builds the index of the files that `records` describe. The files that
/// were read are indexed under their fingerprints; those that could not be
/// read are left out of the index and returned, in order, as the second
/// component, without stopping the rest.
pub fn index_records(records: &Vec<FileRecord>) -> (r: (FingerprintIndex, Vec<String>))
    ensures
        r.0.wf(),
        indexes(r.0@, records_view(records@)),
        r.1@.map_values(|p: String| p@) == failed_paths(records_view(records@)),
        all_paths(r.0@).len() == read_paths(records_view(records@)).len(),
{
    let ghost rv = records_view(records@);
    let mut index = FingerprintIndex::new();
    let mut failures: Vec<String> = Vec::new();
    let mut i: usize = 0;
    assert(rv.take(0) =~= Seq::<RecordView>::empty());
    while i < records.len()
        invariant
            i <= records@.len(),
            rv == records_view(records@),
            index.wf(),
            indexes(index@, rv.take(i as int)),
            failures@.map_values(|p: String| p@) == failed_paths(rv.take(i as int)),
            all_paths(index@).len() == read_paths(rv.take(i as int)).len(),
        decreases records@.len() - i,
    {
        let ghost before = rv.take(i as int);
        let ghost after = rv.take(i + 1);
        let ghost v0 = index@;
        assert(after.drop_last() =~= before);
        assert(after.last() == records@[i as int]@);
        let rec = &records[i];
        match &rec.fingerprint {
            Some(fp) => {
                index.insert(fp.clone(), rec.path.clone());
                proof {
                    if has_fingerprint(v0, fp@) {
                        let j = choose|j: int| 0 <= j < v0.len() && v0[j].0 == fp@;
                        lemma_all_paths_len_update(v0, j, (fp@, v0[j].1.push(rec.path@)));
                    } else {
                        assert(index@.drop_last() =~= v0);
                    }
                    assert forall|f: Seq<char>| #[trigger] paths_with(after, f) == if f == fp@ {
                        paths_with(before, f).push(rec.path@)
                    } else {
                        paths_with(before, f)
                    } by {}
                    assert forall|k: int| 0 <= k < index@.len() implies #[trigger] index@[k].1
                        == paths_with(after, index@[k].0) by {
                        if k < v0.len() && v0[k].0 != fp@ {
                            assert(index@[k] == v0[k]);
                        }
                    }
                    assert forall|f: Seq<char>| has_fingerprint(index@, f) <==> #[trigger] paths_with(
                        after,
                        f,
                    ).len() > 0 by {
                        if has_fingerprint(v0, fp@) {
                            let j = choose|j: int| 0 <= j < v0.len() && v0[j].0 == fp@;
                            if has_fingerprint(index@, f) {
                                let m = choose|m: int| 0 <= m < index@.len() && index@[m].0 == f;
                                assert(v0[m].0 == f);
                            }
                            if has_fingerprint(v0, f) {
                                let m = choose|m: int| 0 <= m < v0.len() && v0[m].0 == f;
                                assert(index@[m].0 == f);
                            }
                        } else {
                            if has_fingerprint(index@, f) && f != fp@ {
                                let m = choose|m: int| 0 <= m < index@.len() && index@[m].0 == f;
                                assert(v0[m].0 == f);
                            }
                            if has_fingerprint(v0, f) {
                                let m = choose|m: int| 0 <= m < v0.len() && v0[m].0 == f;
                                assert(index@[m].0 == f);
                            }
                            if f == fp@ {
                                assert(index@[v0.len() as int].0 == f);
                            }
                        }
                    }
                }
            },
            None => {
                failures.push(rec.path.clone());
                proof {
                    assert forall|f: Seq<char>| #[trigger] paths_with(after, f) == paths_with(before, f) by {}
                    assert(failures@.map_values(|p: String| p@) =~= failed_paths(before).push(rec.path@));
                }
            },
        }
        i = i + 1;
    }
    assert(rv.take(records@.len() as int) =~= rv);
    (index, failures)
}

proof fn lemma_all_paths_len_update(v: Seq<EntryView>, i: int, e: EntryView)
    requires
        0 <= i < v.len(),
    ensures
        all_paths(v.update(i, e)).len() == all_paths(v).len() - v[i].1.len() + e.1.len(),
    decreases v.len(),
{
    if i == v.len() - 1 {
        assert(v.update(i, e).drop_last() =~= v.drop_last());
    } else {
        lemma_all_paths_len_update(v.drop_last(), i, e);
        assert(v.update(i, e).drop_last() =~= v.drop_last().update(i, e));
    }
}

proof fn lemma_paths_with_contains(rs: Seq<RecordView>, fp: Seq<char>, p: Seq<char>)
    ensures
        paths_with(rs, fp).contains(p) <==> rs.contains((p, Some(fp))),
    decreases rs.len(),
{
    if rs.len() > 0 {
        let init = rs.drop_last();
        lemma_paths_with_contains(init, fp, p);
        assert(rs =~= init.push(rs.last()));
        let q = paths_with(init, fp);
        let n = rs.len() - 1;
        assert(rs[n] == rs.last());
        if rs.last().1 == Some(fp) {
            let q2 = q.push(rs.last().0);
            assert(q2[q.len() as int] == rs.last().0);
            if q2.contains(p) && !q.contains(p) {
                let j = choose|j: int| 0 <= j < q2.len() && q2[j] == p;
                if j < q.len() {
                    assert(q[j] == p);
                }
            }
            if q.contains(p) {
                let j = choose|j: int| 0 <= j < q.len() && q[j] == p;
                assert(q2[j] == p);
            }
        }
        if init.contains((p, Some(fp))) {
            let j = choose|j: int| 0 <= j < init.len() && init[j] == (p, Some(fp));
            assert(rs[j] == init[j]);
        }
        if rs.contains((p, Some(fp))) && rs.last() != (p, Some(fp)) {
            let j = choose|j: int| 0 <= j < rs.len() && rs[j] == (p, Some(fp));
            assert(init[j] == rs[j]);
        }
    }
}

proof fn lemma_paths_with_nonempty(rs: Seq<RecordView>, fp: Seq<char>)
    ensures
        paths_with(rs, fp).len() > 0 <==> exists|p: Seq<char>| rs.contains((p, Some(fp))),
{
    if paths_with(rs, fp).len() > 0 {
        let p = paths_with(rs, fp)[0];
        assert(paths_with(rs, fp).contains(p));
        lemma_paths_with_contains(rs, fp, p);
    }
    if exists|p: Seq<char>| rs.contains((p, Some(fp))) {
        let p = choose|p: Seq<char>| rs.contains((p, Some(fp)));
        lemma_paths_with_contains(rs, fp, p);
    }
}

proof fn lemma_path_set_is_paths_with(v: Seq<EntryView>, rs: Seq<RecordView>, fp: Seq<char>, p: Seq<char>)
    requires
        indexes(v, rs),
    ensures
        path_set(v, fp).contains(p) <==> rs.contains((p, Some(fp))),
{
    lemma_paths_with_contains(rs, fp, p);
    if path_set(v, fp).contains(p) {
        let i = choose|i: int| 0 <= i < v.len() && v[i].0 == fp && #[trigger] v[i].1.contains(p);
        assert(v[i].1 == paths_with(rs, v[i].0));
    }
    if rs.contains((p, Some(fp))) {
        assert(paths_with(rs, fp).len() > 0);
        assert(has_fingerprint(v, fp));
        let i = choose|i: int| 0 <= i < v.len() && #[trigger] v[i].0 == fp;
        assert(v[i].1 == paths_with(rs, v[i].0));
        assert(v[i].1.contains(p));
    }
}

/// Indexing the same files again gives the same fingerprints, each with the
/// same set of paths, in whatever order the files were met: the index of a
/// tree depends only on which files it holds and what they contain.
pub proof fn lemma_index_ignores_order(
    r1: Seq<RecordView>,
    r2: Seq<RecordView>,
    v1: Seq<EntryView>,
    v2: Seq<EntryView>,
)
    requires
        r1.to_set() == r2.to_set(),
        indexes(v1, r1),
        indexes(v2, r2),
    ensures
        index_map(v1) == index_map(v2),
{
    assert forall|x: RecordView| r1.contains(x) <==> r2.contains(x) by {
        assert(r1.to_set().contains(x) == r1.contains(x));
        assert(r2.to_set().contains(x) == r2.contains(x));
    }
    assert forall|fp: Seq<char>| has_fingerprint(v1, fp) <==> has_fingerprint(v2, fp) by {
        assert(has_fingerprint(v1, fp) <==> paths_with(r1, fp).len() > 0);
        assert(has_fingerprint(v2, fp) <==> paths_with(r2, fp).len() > 0);
        lemma_paths_with_nonempty(r1, fp);
        lemma_paths_with_nonempty(r2, fp);
    }
    assert forall|fp: Seq<char>| #[trigger] path_set(v1, fp) == path_set(v2, fp) by {
        assert forall|p: Seq<char>| path_set(v1, fp).contains(p) <==> path_set(v2, fp).contains(p) by {
            lemma_path_set_is_paths_with(v1, r1, fp, p);
            lemma_path_set_is_paths_with(v2, r2, fp, p);
        }
        assert(path_set(v1, fp) =~= path_set(v2, fp));
    }
    assert(index_map(v1) =~= index_map(v2));
}

proof fn lemma_failed_paths_contains(rs: Seq<RecordView>, p: Seq<char>)
    ensures
        failed_paths(rs).contains(p) <==> rs.contains((p, None)),
        failed_paths(rs).len() + read_paths(rs).len() == rs.len(),
    decreases rs.len(),
{
    if rs.len() > 0 {
        let init = rs.drop_last();
        lemma_failed_paths_contains(init, p);
        assert(rs =~= init.push(rs.last()));
        let q = failed_paths(init);
        let n = rs.len() - 1;
        assert(rs[n] == rs.last());
        if rs.last().1 is None {
            let q2 = q.push(rs.last().0);
            assert(q2[q.len() as int] == rs.last().0);
            assert(rs.last() == (rs.last().0, None::<Seq<char>>));
            if q2.contains(p) && !q.contains(p) {
                let j = choose|j: int| 0 <= j < q2.len() && q2[j] == p;
                if j < q.len() {
                    assert(q[j] == p);
                }
            }
            if q.contains(p) {
                let j = choose|j: int| 0 <= j < q.len() && q[j] == p;
                assert(q2[j] == p);
            }
        }
        if init.contains((p, None)) {
            let j = choose|j: int| 0 <= j < init.len() && init[j] == (p, None::<Seq<char>>);
            assert(rs[j] == init[j]);
        }
        if rs.contains((p, None)) && rs.last() != (p, None::<Seq<char>>) {
            let j = choose|j: int| 0 <= j < rs.len() && rs[j] == (p, None::<Seq<char>>);
            assert(init[j] == rs[j]);
        }
    }
}

/// A file that cannot be read costs only itself: every record is either
/// read or reported as failed; each file that was read is in the index under
/// its fingerprint; the failures are exactly the files that were not read.
pub proof fn lemma_unreadable_files_isolated(rs: Seq<RecordView>, v: Seq<EntryView>)
    requires
        indexes(v, rs),
    ensures
        failed_paths(rs).len() + read_paths(rs).len() == rs.len(),
        forall|p: Seq<char>, fp: Seq<char>|
            #[trigger] rs.contains((p, Some(fp))) ==> has_fingerprint(v, fp) && path_set(
                v,
                fp,
            ).contains(p),
        forall|p: Seq<char>, fp: Seq<char>|
            #[trigger] path_set(v, fp).contains(p) ==> rs.contains((p, Some(fp))),
        forall|p: Seq<char>| #[trigger] failed_paths(rs).contains(p) <==> rs.contains((p, None)),
{
    lemma_failed_paths_contains(rs, seq![]);
    assert forall|p: Seq<char>, fp: Seq<char>| #[trigger] rs.contains((p, Some(fp)))
        implies has_fingerprint(v, fp) && path_set(v, fp).contains(p) by {
        lemma_path_set_is_paths_with(v, rs, fp, p);
        lemma_paths_with_contains(rs, fp, p);
    }
    assert forall|p: Seq<char>, fp: Seq<char>| #[trigger] path_set(v, fp).contains(p)
        implies rs.contains((p, Some(fp))) by {
        lemma_path_set_is_paths_with(v, rs, fp, p);
    }
    assert forall|p: Seq<char>| #[trigger] failed_paths(rs).contains(p) <==> rs.contains((p, None)) by {
        lemma_failed_paths_contains(rs, p);
    }
}

} // verus!
