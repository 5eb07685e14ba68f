//! Reconciling two fingerprint indices: which files of tree B duplicate
//! content found in tree A, and which do not.
use vstd::prelude::*;
use crate::index::{
    all_paths, failed_paths, has_fingerprint, index_records, indexes, records_view, EntryView, FileRecord,
    FingerprintIndex,
};

verus! {

broadcast use vstd::seq_lib::group_to_multiset_ensures;

/// The paths of `b` whose fingerprint `a` also has, entry by entry.
pub open spec fn duplicate_paths(a: Seq<EntryView>, b: Seq<EntryView>) -> Seq<Seq<char>>
    decreases b.len(),
{
    if b.len() == 0 {
        seq![]
    } else if has_fingerprint(a, b.last().0) {
        duplicate_paths(a, b.drop_last()) + b.last().1
    } else {
        duplicate_paths(a, b.drop_last())
    }
}

/// The paths of `b` whose fingerprint `a` does not have, entry by entry.
pub open spec fn unique_paths(a: Seq<EntryView>, b: Seq<EntryView>) -> Seq<Seq<char>>
    decreases b.len(),
{
    if b.len() == 0 {
        seq![]
    } else if has_fingerprint(a, b.last().0) {
        unique_paths(a, b.drop_last())
    } else {
        unique_paths(a, b.drop_last()) + b.last().1
    }
}

/// The positions, in order, of the first `n` entries of `x` whose
/// fingerprint `y` does not have.
pub open spec fn positions_only_in(x: Seq<EntryView>, y: Seq<EntryView>, n: int) -> Seq<int>
    decreases n,
{
    if n <= 0 {
        seq![]
    } else if has_fingerprint(y, x[n - 1].0) {
        positions_only_in(x, y, n - 1)
    } else {
        positions_only_in(x, y, n - 1).push(n - 1)
    }
}

/// The files of tree B, split by whether tree A holds their content.
pub struct ReconciliationResult {
    /// The paths of B whose fingerprint A also has.
    pub b_duplicates: Vec<String>,
    /// The paths of B whose fingerprint A does not have.
    pub b_unique: Vec<String>,
}

fn append_paths(dst: &mut Vec<String>, src: &Vec<String>)
    ensures
        final(dst)@.map_values(|p: String| p@) == old(dst)@.map_values(|p: String| p@)
            + src@.map_values(|p: String| p@),
{
    let ghost start = dst@.map_values(|p: String| p@);
    let mut j: usize = 0;
    while j < src.len()
        invariant
            j <= src@.len(),
            dst@.map_values(|p: String| p@) == start + src@.map_values(|p: String| p@).take(
                j as int,
            ),
        decreases src@.len() - j,
    {
        let ghost prev = dst@;
        dst.push(src[j].clone());
        assert(dst@.map_values(|p: String| p@) =~= prev.map_values(|p: String| p@).push(
            src@[j as int]@,
        ));
        assert(src@.map_values(|p: String| p@).take(j + 1) =~= src@.map_values(
            |p: String| p@,
        ).take(j as int).push(src@[j as int]@));
        assert(dst@.map_values(|p: String| p@) =~= start + src@.map_values(|p: String| p@).take(
            j + 1,
        ));
        j = j + 1;
    }
    assert(src@.map_values(|p: String| p@).take(src@.len() as int) =~= src@.map_values(
        |p: String| p@,
    ));
}

/// Splits the paths of `b` into those whose fingerprint `a` also has and
/// those whose fingerprint it does not have. Only whether a fingerprint is in
/// `a` matters, not how many paths `a` has under it.
pub fn reconcile(a: &FingerprintIndex, b: &FingerprintIndex) -> (r: ReconciliationResult)
    ensures
        r.b_duplicates@.map_values(|p: String| p@) == duplicate_paths(a@, b@),
        r.b_unique@.map_values(|p: String| p@) == unique_paths(a@, b@),
{
    let mut b_duplicates: Vec<String> = Vec::new();
    let mut b_unique: Vec<String> = Vec::new();
    let mut i: usize = 0;
    assert(b@.take(0) =~= Seq::<EntryView>::empty());
    assert(b_duplicates@.map_values(|p: String| p@) =~= Seq::<Seq<char>>::empty());
    assert(b_unique@.map_values(|p: String| p@) =~= Seq::<Seq<char>>::empty());
    while i < b.len()
        invariant
            i <= b@.len(),
            b_duplicates@.map_values(|p: String| p@) == duplicate_paths(a@, b@.take(i as int)),
            b_unique@.map_values(|p: String| p@) == unique_paths(a@, b@.take(i as int)),
        decreases b@.len() - i,
    {
        let entry = b.entry(i);
        assert(b@.take(i + 1).drop_last() =~= b@.take(i as int));
        assert(b@.take(i + 1).last() == entry@);
        match a.find(&entry.fingerprint) {
            Some(_) => append_paths(&mut b_duplicates, &entry.paths),
            None => append_paths(&mut b_unique, &entry.paths),
        }
        i = i + 1;
    }
    assert(b@.take(b@.len() as int) =~= b@);
    ReconciliationResult { b_duplicates, b_unique }
}

/// The positions of the entries of `x` whose fingerprint `y` does not have,
/// in order: with `x` the index of A and `y` that of B, the fingerprints
/// found only in A; the other way round, those found only in B.
pub fn fingerprints_only_in(x: &FingerprintIndex, y: &FingerprintIndex) -> (r: Vec<usize>)
    ensures
        r@.map_values(|i: usize| i as int) == positions_only_in(x@, y@, x@.len() as int),
{
    let mut r: Vec<usize> = Vec::new();
    let mut i: usize = 0;
    assert(r@.map_values(|i: usize| i as int) =~= Seq::<int>::empty());
    while i < x.len()
        invariant
            i <= x@.len(),
            r@.map_values(|i: usize| i as int) == positions_only_in(x@, y@, i as int),
        decreases x@.len() - i,
    {
        let entry = x.entry(i);
        let ghost before = r@;
        if y.find(&entry.fingerprint).is_none() {
            r.push(i);
            assert(r@.map_values(|i: usize| i as int) =~= before.map_values(|i: usize| i as int).push(
                i as int,
            ));
        }
        i = i + 1;
    }
    r
}

/// Everything a comparison of tree A with tree B finds.
pub struct Comparison {
    /// The index of A.
    pub index_a: FingerprintIndex,
    /// The index of B.
    pub index_b: FingerprintIndex,
    /// The paths of A's files that could not be read.
    pub failures_a: Vec<String>,
    /// The paths of B's files that could not be read.
    pub failures_b: Vec<String>,
    /// B's paths, split into duplicates of A's content and unique ones.
    pub result: ReconciliationResult,
}

/// Compares tree A, whose files `records_a` describes, with tree B, whose
/// files `records_b` describes: indexes each tree, then reconciles B's index
/// against A's.
pub fn compare_folders(records_a: &Vec<FileRecord>, records_b: &Vec<FileRecord>) -> (r: Comparison)
    ensures
        r.index_a.wf(),
        r.index_b.wf(),
        indexes(r.index_a@, records_view(records_a@)),
        indexes(r.index_b@, records_view(records_b@)),
        r.failures_a@.map_values(|p: String| p@) == failed_paths(records_view(records_a@)),
        r.failures_b@.map_values(|p: String| p@) == failed_paths(records_view(records_b@)),
        r.result.b_duplicates@.map_values(|p: String| p@) == duplicate_paths(
            r.index_a@,
            r.index_b@,
        ),
        r.result.b_unique@.map_values(|p: String| p@) == unique_paths(r.index_a@, r.index_b@),
{
    let (index_a, failures_a) = index_records(records_a);
    let (index_b, failures_b) = index_records(records_b);
    let result = reconcile(&index_a, &index_b);
    Comparison { index_a, index_b, failures_a, failures_b, result }
}

/// Reconciliation partitions B: the duplicates and the unique paths together
/// hold each path of B's index exactly as often as the index does, so a path
/// of B is in one of them exactly when it is in B; and where B lists each
/// path once, no path is both a duplicate and unique.
pub proof fn lemma_reconcile_partitions(a: Seq<EntryView>, b: Seq<EntryView>)
    ensures
        duplicate_paths(a, b).to_multiset().add(unique_paths(a, b).to_multiset())
            == all_paths(b).to_multiset(),
        forall|p: Seq<char>|
            #[trigger] all_paths(b).contains(p) <==> duplicate_paths(a, b).contains(p)
                || unique_paths(a, b).contains(p),
        all_paths(b).no_duplicates() ==> forall|p: Seq<char>|
            !(#[trigger] duplicate_paths(a, b).contains(p) && unique_paths(a, b).contains(p)),
    decreases b.len(),
{
    broadcast use vstd::seq_lib::lemma_multiset_commutative;
    broadcast use vstd::multiset::group_multiset_axioms;

    let d = duplicate_paths(a, b);
    let u = unique_paths(a, b);
    let all = all_paths(b);
    if b.len() > 0 {
        lemma_reconcile_partitions(a, b.drop_last());
        let e = b.last().1;
        let d0 = duplicate_paths(a, b.drop_last());
        let u0 = unique_paths(a, b.drop_last());
        let all0 = all_paths(b.drop_last());
        assert(all.to_multiset() =~= all0.to_multiset().add(e.to_multiset()));
        if has_fingerprint(a, b.last().0) {
            assert(d.to_multiset() =~= d0.to_multiset().add(e.to_multiset()));
        } else {
            assert(u.to_multiset() =~= u0.to_multiset().add(e.to_multiset()));
        }
    }
    assert(d.to_multiset().add(u.to_multiset()) =~= all.to_multiset());
    assert forall|p: Seq<char>| #[trigger] all.contains(p) <==> d.contains(p) || u.contains(p) by {
        assert(all.to_multiset().count(p) == d.to_multiset().count(p) + u.to_multiset().count(p));
    }
    if all.no_duplicates() {
        all.lemma_multiset_has_no_duplicates();
        assert forall|p: Seq<char>| !(#[trigger] d.contains(p) && u.contains(p)) by {
            assert(all.to_multiset().count(p) == d.to_multiset().count(p) + u.to_multiset().count(p));
        }
    }
}

} // verus!
