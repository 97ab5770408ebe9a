//! Laws of the resolver, stated over the model vocabulary and proved once
//! and for all. `is_resolution(input, out)` is what the resolver's exec
//! functions establish for each bucket (see `resolve`); these lemmas spell
//! out what that guarantees.

use vstd::prelude::*;
use crate::model::{
    RecordModel, content_eq, all_paths, paths_of_content, is_resolution, keep_all, keep_content,
    lemma_paths_sum_member, lemma_paths_sum_source, lemma_paths_sum_permutation,
    lemma_paths_sum_remove,
};

verus! {

/// Content-equality soundness, at the hash level: two paths can meet in one
/// resolved record only if the records that carried them agreed on hash and
/// length. (That their bytes agree is exactly what collision resistance of
/// the fingerprint adds on top.)
pub proof fn lemma_resolution_soundness(
    input: Seq<RecordModel>,
    out: Seq<RecordModel>,
    k: int,
    p: Seq<char>,
    q: Seq<char>,
)
    requires
        is_resolution(input, out),
        0 <= k < out.len(),
        out[k].paths.to_multiset().count(p) > 0,
        out[k].paths.to_multiset().count(q) > 0,
    ensures
        exists|i: int, j: int|
            0 <= i < input.len() && 0 <= j < input.len() && (#[trigger] input[i])
                .paths
                .to_multiset()
                .count(p) > 0 && (#[trigger] input[j]).paths.to_multiset().count(q) > 0
                && content_eq(input[i], input[j]) && content_eq(input[i], out[k]),
{
    let keep = keep_content(out[k].hash, out[k].len);
    lemma_paths_sum_source(input, keep, p);
    lemma_paths_sum_source(input, keep, q);
    let i = choose|i: int|
        0 <= i < input.len() && keep(#[trigger] input[i]) && input[i].paths.to_multiset().count(p)
            > 0;
    let j = choose|j: int|
        0 <= j < input.len() && keep(#[trigger] input[j]) && input[j].paths.to_multiset().count(q)
            > 0;
    assert(content_eq(input[i], out[k]));
    assert(content_eq(input[i], input[j]));
}

/// Content-equality completeness, at the hash level: two records that agree
/// on hash and length end up in one common resolved record, which holds all
/// the paths of both.
pub proof fn lemma_resolution_completeness(
    input: Seq<RecordModel>,
    out: Seq<RecordModel>,
    i: int,
    j: int,
)
    requires
        is_resolution(input, out),
        0 <= i < input.len(),
        0 <= j < input.len(),
        content_eq(input[i], input[j]),
        input[i].paths.len() > 0,
    ensures
        exists|k: int|
            0 <= k < out.len() && content_eq(#[trigger] out[k], input[i]) && input[i]
                .paths
                .to_multiset()
                .subset_of(out[k].paths.to_multiset()) && input[j].paths.to_multiset().subset_of(
                out[k].paths.to_multiset(),
            ),
{
    broadcast use vstd::seq_lib::group_to_multiset_ensures, vstd::multiset::group_multiset_axioms;

    let keep = keep_content(input[i].hash, input[i].len);
    let p = input[i].paths[0];
    assert(input[i].paths.contains(p));
    assert(input[i].paths.to_multiset().count(p) > 0);
    lemma_paths_sum_member(input, keep, i);
    assert(paths_of_content(input, input[i].hash, input[i].len).count(p) > 0);
    assert(paths_of_content(out, input[i].hash, input[i].len).count(p) > 0);
    lemma_paths_sum_source(out, keep, p);
    let k = choose|k: int|
        0 <= k < out.len() && keep(#[trigger] out[k]) && out[k].paths.to_multiset().count(p) > 0;
    assert(content_eq(out[k], input[i]));
    assert(out[k].paths.to_multiset() == paths_of_content(input, out[k].hash, out[k].len));
    assert(paths_of_content(input, out[k].hash, out[k].len) == paths_of_content(
        input,
        input[i].hash,
        input[i].len,
    ));
    lemma_paths_sum_member(input, keep, j);
    assert(input[i].paths.to_multiset().subset_of(out[k].paths.to_multiset()));
    assert(input[j].paths.to_multiset().subset_of(out[k].paths.to_multiset()));
}

/// Whether `out` holds a record content-equal to `r` with exactly the same
/// paths.
pub open spec fn has_counterpart(r: RecordModel, out: Seq<RecordModel>) -> bool {
    exists|k2: int|
        0 <= k2 < out.len() && content_eq(#[trigger] out[k2], r) && out[k2].paths.to_multiset()
            == r.paths.to_multiset()
}

/// Idempotence and order-independence: resolving the same records, in any
/// order and any number of times, yields the same grouping — for every hash
/// and length the same multiset of paths, and for every resolved record a
/// content-equal counterpart holding exactly the same paths.
pub proof fn lemma_resolution_deterministic(
    in1: Seq<RecordModel>,
    in2: Seq<RecordModel>,
    out1: Seq<RecordModel>,
    out2: Seq<RecordModel>,
)
    requires
        in1.to_multiset() == in2.to_multiset(),
        is_resolution(in1, out1),
        is_resolution(in2, out2),
    ensures
        forall|h: u64, l: u64|
            #[trigger] paths_of_content(out1, h, l) == paths_of_content(out2, h, l),
        forall|k: int| 0 <= k < out1.len() ==> has_counterpart(#[trigger] out1[k], out2),
{
    broadcast use vstd::seq_lib::group_to_multiset_ensures, vstd::multiset::group_multiset_axioms;

    assert forall|h: u64, l: u64| #[trigger] paths_of_content(out1, h, l) == paths_of_content(
        out2,
        h,
        l,
    ) by {
        lemma_paths_sum_permutation(in1, in2, keep_content(h, l));
    }
    assert forall|k: int| 0 <= k < out1.len() implies has_counterpart(#[trigger] out1[k], out2) by {
        let h = out1[k].hash;
        let l = out1[k].len;
        let keep = keep_content(h, l);
        let p = out1[k].paths[0];
        assert(out1[k].paths.len() > 0);
        assert(out1[k].paths.contains(p));
        assert(out1[k].paths.to_multiset().count(p) > 0);
        assert(out1[k].paths.to_multiset() == paths_of_content(in1, h, l));
        lemma_paths_sum_permutation(in1, in2, keep);
        assert(paths_of_content(out2, h, l).count(p) > 0);
        lemma_paths_sum_source(out2, keep, p);
        let k2 = choose|k2: int|
            0 <= k2 < out2.len() && keep(#[trigger] out2[k2]) && out2[k2].paths.to_multiset().count(
                p,
            ) > 0;
        assert(content_eq(out2[k2], out1[k]));
        assert(out2[k2].paths.to_multiset() == paths_of_content(in2, h, l));
        assert(out1[k].paths.to_multiset() == out2[k2].paths.to_multiset());
    }
}


/// Completeness of the record lists: a path that the records hold exactly
/// once is held by exactly one record. Since every stage of the pipeline
/// preserves `all_paths`, a file the walker reported once stays in exactly
/// one record's path list to the end.
pub proof fn lemma_unique_path_single_holder(s: Seq<RecordModel>, p: Seq<char>)
    requires
        all_paths(s).count(p) == 1,
    ensures
        exists|k: int| 0 <= k < s.len() && (#[trigger] s[k]).paths.to_multiset().count(p) > 0,
        forall|k1: int, k2: int|
            0 <= k1 < k2 < s.len() ==> !((#[trigger] s[k1]).paths.to_multiset().count(p) > 0 && (
            #[trigger] s[k2]).paths.to_multiset().count(p) > 0),
{
    broadcast use vstd::multiset::group_multiset_axioms;

    lemma_paths_sum_source(s, keep_all(), p);
    assert forall|k1: int, k2: int| 0 <= k1 < k2 < s.len() implies !((#[trigger] s[k1])
        .paths
        .to_multiset()
        .count(p) > 0 && (#[trigger] s[k2]).paths.to_multiset().count(p) > 0) by {
        if s[k1].paths.to_multiset().count(p) > 0 && s[k2].paths.to_multiset().count(p) > 0 {
            lemma_paths_sum_remove(s, keep_all(), k1);
            assert(s.remove(k1)[k2 - 1] == s[k2]);
            lemma_paths_sum_member(s.remove(k1), keep_all(), k2 - 1);
            assert(all_paths(s).count(p) >= 2);
        }
    }
}

} // verus!
