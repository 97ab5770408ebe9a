//! Mathematical model of file records and the spec-level vocabulary the
//! resolver's contracts are written in: which paths a sequence of records
//! holds, which of them belong to one piece of content, and what it means
//! for a sequence of records to be a correct resolution of another.

use vstd::prelude::*;
use vstd::multiset::Multiset;
use crate::record::Fileinfo;

verus! {

/// Abstract value of one record: its best-known content hash, the exact byte
/// length of the content, the locations known to hold it, and whether a
/// full-content hash has been computed.
#[verifier::ext_equal]
pub ghost struct RecordModel {
    pub hash: u64,
    pub len: u64,
    pub paths: Seq<Seq<char>>,
    pub confirmed: bool,
}

/// The models of a sequence of records.
pub open spec fn models(s: Seq<Fileinfo>) -> Seq<RecordModel> {
    s.map_values(|f: Fileinfo| f@)
}

/// The operative duplicate criterion: records are content-equal when hash
/// and length both match.
pub open spec fn content_eq(a: RecordModel, b: RecordModel) -> bool {
    a.hash == b.hash && a.len == b.len
}

/// What one record contributes to a path sum restricted by `keep`.
pub open spec fn share_of(r: RecordModel, keep: spec_fn(RecordModel) -> bool) -> Multiset<Seq<char>> {
    if keep(r) {
        r.paths.to_multiset()
    } else {
        Multiset::empty()
    }
}

/// The multiset of all paths held by the records selected by `keep`.
pub open spec fn paths_sum(s: Seq<RecordModel>, keep: spec_fn(RecordModel) -> bool) -> Multiset<Seq<char>>
    decreases s.len(),
{
    if s.len() == 0 {
        Multiset::empty()
    } else {
        paths_sum(s.drop_last(), keep).add(share_of(s.last(), keep))
    }
}

pub open spec fn keep_all() -> spec_fn(RecordModel) -> bool {
    |r: RecordModel| true
}

pub open spec fn keep_content(h: u64, l: u64) -> spec_fn(RecordModel) -> bool {
    |r: RecordModel| r.hash == h && r.len == l
}

/// Every path held by any record of `s`.
pub open spec fn all_paths(s: Seq<RecordModel>) -> Multiset<Seq<char>> {
    paths_sum(s, keep_all())
}

/// Every path held by a record of `s` whose content is `(h, l)`.
pub open spec fn paths_of_content(s: Seq<RecordModel>, h: u64, l: u64) -> Multiset<Seq<char>> {
    paths_sum(s, keep_content(h, l))
}

/// The records of `s` with each hash replaced by the aligned value of `hs`.
pub open spec fn with_hashes(s: Seq<RecordModel>, hs: Seq<u64>) -> Seq<RecordModel> {
    Seq::new(s.len(), |i: int| RecordModel { hash: hs[i], ..s[i] })
}

pub open spec fn sorted_desc(s: Seq<RecordModel>) -> bool {
    forall|i: int, j: int|
        0 <= i < j < s.len() ==> #[trigger] s[i].hash >= #[trigger] s[j].hash
}

/// Content-equal records form contiguous runs.
pub open spec fn grouped(s: Seq<RecordModel>) -> bool {
    forall|a: int, b: int, c: int|
        0 <= a <= b <= c < s.len() && content_eq(#[trigger] s[a], #[trigger] s[c])
            ==> content_eq(s[a], #[trigger] s[b])
}

pub open spec fn distinct_contents(s: Seq<RecordModel>) -> bool {
    forall|i: int, j: int|
        0 <= i < j < s.len() ==> !content_eq(#[trigger] s[i], #[trigger] s[j])
}

pub open spec fn adjacent_distinct(s: Seq<RecordModel>) -> bool {
    forall|i: int| 0 < i < s.len() ==> !content_eq(s[i - 1], #[trigger] s[i])
}

pub open spec fn all_len(s: Seq<RecordModel>, l: u64) -> bool {
    forall|i: int| 0 <= i < s.len() ==> (#[trigger] s[i]).len == l
}

pub open spec fn all_unconfirmed(s: Seq<RecordModel>) -> bool {
    forall|i: int| 0 <= i < s.len() ==> !(#[trigger] s[i]).confirmed
}

pub open spec fn paths_nonempty(s: Seq<RecordModel>) -> bool {
    forall|i: int| 0 <= i < s.len() ==> (#[trigger] s[i]).paths.len() > 0
}

/// `out` is a correct consolidation of `input`: its records are pairwise
/// content-distinct and nonempty, each holds exactly the paths of the input
/// records that share its content, and for every content the paths are the
/// same on both sides (so no path, content or count is lost or invented).
pub open spec fn is_resolution(input: Seq<RecordModel>, out: Seq<RecordModel>) -> bool {
    &&& distinct_contents(out)
    &&& paths_nonempty(out)
    &&& forall|k: int|
        0 <= k < out.len() ==> (#[trigger] out[k]).paths.to_multiset() == paths_of_content(
            input,
            out[k].hash,
            out[k].len,
        )
    &&& forall|h: u64, l: u64|
        #[trigger] paths_of_content(out, h, l) == paths_of_content(input, h, l)
}

pub proof fn lemma_paths_sum_push(s: Seq<RecordModel>, keep: spec_fn(RecordModel) -> bool, r: RecordModel)
    ensures
        paths_sum(s.push(r), keep) == paths_sum(s, keep).add(share_of(r, keep)),
{
    broadcast use vstd::seq_lib::group_to_multiset_ensures, vstd::multiset::group_multiset_axioms;
    assert(s.push(r).drop_last() =~= s);
    assert(s.push(r).last() == r);
}

pub proof fn lemma_paths_sum_remove(s: Seq<RecordModel>, keep: spec_fn(RecordModel) -> bool, j: int)
    requires
        0 <= j < s.len(),
    ensures
        paths_sum(s, keep) == paths_sum(s.remove(j), keep).add(share_of(s[j], keep)),
    decreases s.len(),
{
    broadcast use vstd::seq_lib::group_to_multiset_ensures, vstd::multiset::group_multiset_axioms;
    if j == s.len() - 1 {
        assert(s.remove(j) =~= s.drop_last());
    } else {
        let t = s.drop_last();
        lemma_paths_sum_remove(t, keep, j);
        assert(s.remove(j).drop_last() =~= t.remove(j));
        assert(s.remove(j).last() == s.last());
        assert(paths_sum(t.remove(j), keep).add(share_of(s[j], keep)).add(
            share_of(s.last(), keep),
        ) =~= paths_sum(t.remove(j), keep).add(share_of(s.last(), keep)).add(
            share_of(s[j], keep),
        ));
    }
}

pub proof fn lemma_paths_sum_permutation(
    s1: Seq<RecordModel>,
    s2: Seq<RecordModel>,
    keep: spec_fn(RecordModel) -> bool,
)
    requires
        s1.to_multiset() == s2.to_multiset(),
    ensures
        paths_sum(s1, keep) == paths_sum(s2, keep),
    decreases s1.len(),
{
    broadcast use vstd::seq_lib::group_to_multiset_ensures, vstd::multiset::group_multiset_axioms;
    if s1.len() == 0 {
        assert(s1.to_multiset().len() == s1.len());
        assert(s2.to_multiset().len() == s2.len());
    } else {
        let r = s1.last();
        assert(s1.contains(r));
        assert(s2.to_multiset().count(r) > 0);
        assert(s2.contains(r));
        let j = choose|j: int| 0 <= j < s2.len() && s2[j] == r;
        assert(s1.drop_last() =~= s1.remove(s1.len() - 1));
        assert(s1.drop_last().to_multiset() == s1.to_multiset().remove(r));
        assert(s2.remove(j).to_multiset() == s2.to_multiset().remove(r));
        lemma_paths_sum_permutation(s1.drop_last(), s2.remove(j), keep);
        lemma_paths_sum_remove(s2, keep, j);
    }
}

/// Every path of a selected record is in the sum.
pub proof fn lemma_paths_sum_member(s: Seq<RecordModel>, keep: spec_fn(RecordModel) -> bool, i: int)
    requires
        0 <= i < s.len(),
        keep(s[i]),
    ensures
        s[i].paths.to_multiset().subset_of(paths_sum(s, keep)),
{
    broadcast use vstd::seq_lib::group_to_multiset_ensures, vstd::multiset::group_multiset_axioms;
    lemma_paths_sum_remove(s, keep, i);
}

/// Every path in the sum comes from some selected record.
pub proof fn lemma_paths_sum_source(s: Seq<RecordModel>, keep: spec_fn(RecordModel) -> bool, p: Seq<char>)
    requires
        paths_sum(s, keep).count(p) > 0,
    ensures
        exists|i: int|
            0 <= i < s.len() && keep(#[trigger] s[i]) && s[i].paths.to_multiset().count(p) > 0,
    decreases s.len(),
{
    broadcast use vstd::seq_lib::group_to_multiset_ensures, vstd::multiset::group_multiset_axioms;
    if s.len() == 0 {
        assert(false);
    } else {
        if share_of(s.last(), keep).count(p) > 0 {
            assert(keep(s[s.len() - 1]) && s[s.len() - 1].paths.to_multiset().count(p) > 0);
        } else {
            lemma_paths_sum_source(s.drop_last(), keep, p);
            let i = choose|i: int|
                0 <= i < s.drop_last().len() && keep(#[trigger] s.drop_last()[i])
                    && s.drop_last()[i].paths.to_multiset().count(p) > 0;
            assert(s.drop_last()[i] == s[i]);
        }
    }
}

/// Sorting records of one length descending by hash groups content-equal
/// records into contiguous runs.
pub proof fn lemma_sorted_same_len_grouped(s: Seq<RecordModel>, l: u64)
    requires
        sorted_desc(s),
        all_len(s, l),
    ensures
        grouped(s),
{
    broadcast use vstd::seq_lib::group_to_multiset_ensures, vstd::multiset::group_multiset_axioms;
}

/// When no two records share a content, each record's own paths are exactly
/// the paths of its content.
pub proof fn lemma_distinct_own_paths(s: Seq<RecordModel>, k: int)
    requires
        distinct_contents(s),
        0 <= k < s.len(),
    ensures
        paths_of_content(s, s[k].hash, s[k].len) == s[k].paths.to_multiset(),
    decreases s.len(),
{
    broadcast use vstd::seq_lib::group_to_multiset_ensures, vstd::multiset::group_multiset_axioms;
    let keep = keep_content(s[k].hash, s[k].len);
    lemma_paths_sum_remove(s, keep, k);
    lemma_paths_sum_none(s.remove(k), keep);
}

/// A sum over records none of which is selected is empty.
pub proof fn lemma_paths_sum_none(s: Seq<RecordModel>, keep: spec_fn(RecordModel) -> bool)
    requires
        forall|i: int| 0 <= i < s.len() ==> !keep(#[trigger] s[i]),
    ensures
        paths_sum(s, keep) == Multiset::<Seq<char>>::empty(),
    decreases s.len(),
{
    broadcast use vstd::seq_lib::group_to_multiset_ensures, vstd::multiset::group_multiset_axioms;
    if s.len() > 0 {
        assert(forall|i: int|
            0 <= i < s.drop_last().len() ==> s.drop_last()[i] == s[i]);
        lemma_paths_sum_none(s.drop_last(), keep);
        assert(paths_sum(s, keep) =~= Multiset::<Seq<char>>::empty());
    }
}



/// A resolution of `s1` is a resolution of any reordering of `s1`.
pub proof fn lemma_is_resolution_permutation(
    s1: Seq<RecordModel>,
    s2: Seq<RecordModel>,
    out: Seq<RecordModel>,
)
    requires
        s1.to_multiset() == s2.to_multiset(),
        is_resolution(s1, out),
    ensures
        is_resolution(s2, out),
{
    assert forall|k: int| 0 <= k < out.len() implies (#[trigger] out[k]).paths.to_multiset()
        == paths_of_content(s2, out[k].hash, out[k].len) by {
        lemma_paths_sum_permutation(s1, s2, keep_content(out[k].hash, out[k].len));
    }
    assert forall|h: u64, l: u64| #[trigger] paths_of_content(out, h, l) == paths_of_content(
        s2,
        h,
        l,
    ) by {
        lemma_paths_sum_permutation(s1, s2, keep_content(h, l));
    }
}


/// A prefix one longer is the prefix plus the next element.
pub proof fn lemma_take_push(s: Seq<RecordModel>, k: int)
    requires
        0 <= k < s.len(),
    ensures
        s.take(k + 1) == s.take(k).push(s[k]),
{
    assert(s.take(k + 1) =~= s.take(k).push(s[k]));
}

/// A property of every record carries over to any reordering.
pub proof fn lemma_pointwise_permutation(
    s1: Seq<RecordModel>,
    s2: Seq<RecordModel>,
    pred: spec_fn(RecordModel) -> bool,
)
    requires
        s1.to_multiset() == s2.to_multiset(),
        forall|i: int| 0 <= i < s1.len() ==> pred(#[trigger] s1[i]),
    ensures
        forall|i: int| 0 <= i < s2.len() ==> pred(#[trigger] s2[i]),
{
    broadcast use vstd::seq_lib::group_to_multiset_ensures;

    assert forall|i: int| 0 <= i < s2.len() implies pred(#[trigger] s2[i]) by {
        assert(s2.contains(s2[i]));
        assert(s1.to_multiset().count(s2[i]) > 0);
        assert(s1.contains(s2[i]));
        let j = choose|j: int| 0 <= j < s1.len() && s1[j] == s2[i];
        assert(pred(s1[j]));
    }
}

/// Whether some two records of `s` are content-equal.
pub open spec fn has_content_collision(s: Seq<RecordModel>) -> bool {
    exists|i: int, j: int|
        0 <= i < s.len() && 0 <= j < s.len() && i != j && content_eq(#[trigger] s[i], #[trigger] s[j])
}

/// A content collision carries over to any reordering.
pub proof fn lemma_collision_permutation(s1: Seq<RecordModel>, s2: Seq<RecordModel>)
    requires
        s1.to_multiset() == s2.to_multiset(),
        has_content_collision(s1),
    ensures
        has_content_collision(s2),
{
    broadcast use vstd::seq_lib::group_to_multiset_ensures;

    let (i, j) = choose|i: int, j: int|
        0 <= i < s1.len() && 0 <= j < s1.len() && i != j && content_eq(#[trigger] s1[i], #[trigger] s1[j]);
    assert(s1.contains(s1[i]));
    assert(s1.to_multiset().count(s1[i]) > 0);
    assert(s2.contains(s1[i]));
    let i2 = choose|i2: int| 0 <= i2 < s2.len() && s2[i2] == s1[i];
    let s2r = s2.remove(i2);
    assert(s1.remove(i).to_multiset() == s1.to_multiset().remove(s1[i]));
    assert(s2r.to_multiset() == s2.to_multiset().remove(s1[i]));
    let k = if j < i { j } else { j - 1 };
    assert(s1.remove(i)[k] == s1[j]);
    assert(s1.remove(i).contains(s1[j]));
    assert(s2r.to_multiset().count(s1[j]) > 0);
    assert(s2r.contains(s1[j]));
    let j2r = choose|j2: int| 0 <= j2 < s2r.len() && s2r[j2] == s1[j];
    let j2 = if j2r < i2 { j2r } else { j2r + 1 };
    assert(s2[j2] == s2r[j2r]);
    assert(j2 != i2);
    assert(content_eq(s2[i2], s2[j2]));
}


/// Whether the record at `i` has an adjacent content-equal neighbour.
pub open spec fn adjacent_dup(s: Seq<RecordModel>, i: int) -> bool {
    ||| i > 0 && content_eq(s[i - 1], s[i])
    ||| i + 1 < s.len() && content_eq(s[i], s[i + 1])
}

/// Whether some other record shares the content of the record at `i`.
pub open spec fn shares_content(s: Seq<RecordModel>, i: int) -> bool {
    exists|j: int| 0 <= j < s.len() && j != i && content_eq(#[trigger] s[j], s[i])
}

/// The records with the full-hash flag cleared.
pub open spec fn strip_confirmed(s: Seq<RecordModel>) -> Seq<RecordModel> {
    s.map_values(|r: RecordModel| RecordModel { confirmed: false, ..r })
}

/// In a hash-sorted sequence of records of one length, a record shares its
/// content with another record exactly when an adjacent record matches.
pub proof fn lemma_adjacent_dup_iff_shared(s: Seq<RecordModel>, l: u64, i: int)
    requires
        sorted_desc(s),
        all_len(s, l),
        0 <= i < s.len(),
    ensures
        adjacent_dup(s, i) <==> shares_content(s, i),
{
    if adjacent_dup(s, i) {
        if i > 0 && content_eq(s[i - 1], s[i]) {
            assert(shares_content(s, i)) by {
                assert(content_eq(s[i - 1], s[i]));
            }
        } else {
            assert(content_eq(s[i + 1], s[i]));
        }
    }
    if shares_content(s, i) {
        let j = choose|j: int| 0 <= j < s.len() && j != i && content_eq(#[trigger] s[j], s[i]);
        if j < i {
            assert(s[j].hash >= s[i - 1].hash);
            assert(s[i - 1].hash >= s[i].hash);
            assert(content_eq(s[i - 1], s[i]));
        } else {
            assert(s[i].hash >= s[i + 1].hash);
            assert(s[i + 1].hash >= s[j].hash);
            assert(content_eq(s[i], s[i + 1]));
        }
    }
}

/// Sequences of records that agree pointwise on their path lists hold the
/// same paths overall.
pub proof fn lemma_all_paths_pointwise(s1: Seq<RecordModel>, s2: Seq<RecordModel>)
    requires
        s1.len() == s2.len(),
        forall|i: int| 0 <= i < s1.len() ==> (#[trigger] s1[i]).paths == s2[i].paths,
    ensures
        all_paths(s1) == all_paths(s2),
    decreases s1.len(),
{
    if s1.len() > 0 {
        assert(forall|i: int|
            0 <= i < s1.drop_last().len() ==> (#[trigger] s1.drop_last()[i]).paths
                == s2.drop_last()[i].paths);
        lemma_all_paths_pointwise(s1.drop_last(), s2.drop_last());
        assert(share_of(s1.last(), keep_all()) == share_of(s2.last(), keep_all()));
    }
}


/// The records of `s` with each hash overwritten by the aligned full hash,
/// where one was computed.
pub open spec fn with_full_hashes(s: Seq<RecordModel>, fh: Seq<Option<u64>>) -> Seq<RecordModel> {
    Seq::new(
        s.len(),
        |i: int| RecordModel {
            hash: match fh[i] {
                Option::Some(h) => h,
                Option::None => s[i].hash,
            },
            ..s[i]
        },
    )
}

/// Sharing a content is insensitive to fields other than hash and length.
pub proof fn lemma_shares_content_pointwise(s1: Seq<RecordModel>, s2: Seq<RecordModel>, i: int)
    requires
        s1.len() == s2.len(),
        forall|j: int| 0 <= j < s1.len() ==> content_eq(#[trigger] s1[j], s2[j]),
        0 <= i < s1.len(),
    ensures
        shares_content(s1, i) <==> shares_content(s2, i),
{
    if shares_content(s1, i) {
        let j = choose|j: int| 0 <= j < s1.len() && j != i && content_eq(#[trigger] s1[j], s1[i]);
        assert(content_eq(s2[j], s2[i]));
    }
    if shares_content(s2, i) {
        let j = choose|j: int| 0 <= j < s2.len() && j != i && content_eq(#[trigger] s2[j], s2[i]);
        assert(content_eq(s1[j], s1[i]));
    }
}

} // verus!
