//! The staged duplicate resolver for one size bucket: assign the cheap
//! fingerprints, sort descending by hash so that candidates become adjacent,
//! and either consolidate at once (when the partial fingerprint is already
//! definitive, or no two fingerprints collide) or mark the colliding records
//! for full hashing and consolidate after those hashes arrive.
//!
//! Reading file bytes is the caller's job, so the resolver is a protocol:
//! `begin_bucket` says whether hashing is needed at all,
//! `resolve_with_partial_hashes` consumes the cheap fingerprints, and
//! `resolve_with_full_hashes` consumes the full ones for the marked records.

use vstd::prelude::*;
use rayon::slice::ParallelSliceMut;
use crate::record::Fileinfo;
use crate::fingerprint::PARTIAL_READ_LIMIT;
use crate::model::{
    models, RecordModel, content_eq, all_paths, paths_of_content, with_hashes, sorted_desc,
    grouped, distinct_contents, adjacent_distinct, all_len, all_unconfirmed, paths_nonempty,
    is_resolution, has_content_collision, adjacent_dup, shares_content, strip_confirmed,
    keep_all, keep_content, share_of, paths_sum, with_full_hashes, lemma_shares_content_pointwise,
    lemma_paths_sum_push, lemma_paths_sum_permutation,
    lemma_paths_sum_member, lemma_paths_sum_source, lemma_sorted_same_len_grouped,
    lemma_distinct_own_paths, lemma_is_resolution_permutation, lemma_pointwise_permutation,
    lemma_collision_permutation, lemma_adjacent_dup_iff_shared, lemma_all_paths_pointwise,
    lemma_take_push,
};

verus! {

/// First step for one bucket of records sharing an exact byte length.
pub enum BucketStart {
    /// The bucket is already resolved: zero-length files are never hashed or
    /// merged, and a lone record has no possible duplicate.
    Resolved(Vec<Fileinfo>),
    /// A partial fingerprint is needed for every record.
    NeedsPartialHashes(Vec<Fileinfo>),
}

/// Outcome of consuming the partial fingerprints of a bucket.
pub enum PartialOutcome {
    /// Consolidation is complete.
    Resolved(Vec<Fileinfo>),
    /// Every record flagged `second_hash` needs a full-content hash.
    NeedsFullHashes(Vec<Fileinfo>),
}

/// Dispatch for one bucket: a bucket of zero-length files or of a single
/// record is returned unchanged; anything else needs partial fingerprints.
pub fn begin_bucket(file_length: u64, files: Vec<Fileinfo>) -> (r: BucketStart)
    ensures
        (file_length == 0 || files@.len() <= 1) ==> r == BucketStart::Resolved(files),
        (file_length > 0 && files@.len() >= 2) ==> r == BucketStart::NeedsPartialHashes(files),
{
    if file_length == 0 || files.len() <= 1 {
        BucketStart::Resolved(files)
    } else {
        BucketStart::NeedsPartialHashes(files)
    }
}

/// Relies on rayon's `ParallelSliceMut::par_sort_unstable_by`: it reorders
/// the slice in place into an order sorted by the given comparison — here
/// descending by `file_hash` — and keeps exactly the same elements.
#[verifier::external_body]
fn sort_by_hash_desc(files: &mut Vec<Fileinfo>)
    ensures
        final(files)@.len() == old(files)@.len(),
        models(final(files)@).to_multiset() == models(old(files)@).to_multiset(),
        sorted_desc(models(final(files)@)),
{
    files.as_mut_slice().par_sort_unstable_by(|a, b| b.file_hash.cmp(&a.file_hash));
}

/// Store the aligned hash value into each record.
fn set_partial_hashes(files: Vec<Fileinfo>, hashes: &Vec<u64>) -> (out: Vec<Fileinfo>)
    requires
        files@.len() == hashes@.len(),
    ensures
        out@.len() == files@.len(),
        forall|i: int|
            0 <= i < out@.len() ==> models(out@)[i] == (RecordModel {
                hash: hashes@[i],
                ..models(files@)[i]
            }),
{
    let mut input = files;
    let mut out: Vec<Fileinfo> = Vec::new();
    while input.len() > 0
        invariant
            out@.len() + input@.len() == files@.len(),
            hashes@.len() == files@.len(),
            forall|i: int|
                0 <= i < input@.len() ==> input@[i] == files@[out@.len() + i],
            forall|i: int|
                0 <= i < out@.len() ==> models(out@)[i] == (RecordModel {
                    hash: hashes@[i],
                    ..models(files@)[i]
                }),
        decreases input@.len(),
    {
        let ghost prev = out@;
        let mut f = input.remove(0);
        proof {
            assert(f == files@[prev.len() as int]);
        }
        f.file_hash = hashes[out.len()];
        proof {
            assert(f@ == (RecordModel { hash: hashes@[prev.len() as int], ..models(files@)[prev.len() as int] }));
        }
        out.push(f);
        proof {
            assert(out@ == prev.push(f));
            assert forall|i: int| 0 <= i < out@.len() implies models(out@)[i] == (RecordModel {
                hash: hashes@[i],
                ..models(files@)[i]
            }) by {
                if i < prev.len() {
                    assert(out@[i] == prev[i]);
                    assert(models(prev)[i] == (RecordModel { hash: hashes@[i], ..models(files@)[i] }));
                } else {
                    assert(out@[i] == f);
                }
            }
        }
    }
    out
}

/// Store the aligned full hash, where one was computed, into each record.
fn set_full_hashes(files: Vec<Fileinfo>, hashes: &Vec<Option<u64>>) -> (out: Vec<Fileinfo>)
    requires
        files@.len() == hashes@.len(),
    ensures
        out@.len() == files@.len(),
        forall|i: int|
            0 <= i < out@.len() ==> models(out@)[i] == (RecordModel {
                hash: match hashes@[i] {
                    Option::Some(h) => h,
                    Option::None => models(files@)[i].hash,
                },
                ..models(files@)[i]
            }),
{
    let mut input = files;
    let mut out: Vec<Fileinfo> = Vec::new();
    while input.len() > 0
        invariant
            out@.len() + input@.len() == files@.len(),
            hashes@.len() == files@.len(),
            forall|i: int|
                0 <= i < input@.len() ==> input@[i] == files@[out@.len() + i],
            forall|i: int|
                0 <= i < out@.len() ==> models(out@)[i] == (RecordModel {
                    hash: match hashes@[i] {
                        Option::Some(h) => h,
                        Option::None => models(files@)[i].hash,
                    },
                    ..models(files@)[i]
                }),
        decreases input@.len(),
    {
        let ghost prev = out@;
        let mut f = input.remove(0);
        proof {
            assert(f == files@[prev.len() as int]);
        }
        match hashes[out.len()] {
            Option::Some(h) => {
                f.file_hash = h;
            },
            Option::None => {},
        }
        proof {
            assert(f@ == (RecordModel {
                hash: match hashes@[prev.len() as int] {
                    Option::Some(h) => h,
                    Option::None => models(files@)[prev.len() as int].hash,
                },
                ..models(files@)[prev.len() as int]
            }));
        }
        out.push(f);
        proof {
            assert(out@ == prev.push(f));
            assert forall|i: int| 0 <= i < out@.len() implies models(out@)[i] == (RecordModel {
                hash: match hashes@[i] {
                    Option::Some(h) => h,
                    Option::None => models(files@)[i].hash,
                },
                ..models(files@)[i]
            }) by {
                if i < prev.len() {
                    assert(out@[i] == prev[i]);
                    assert(models(prev)[i] == (RecordModel {
                        hash: match hashes@[i] {
                            Option::Some(h) => h,
                            Option::None => models(files@)[i].hash,
                        },
                        ..models(files@)[i]
                    }));
                } else {
                    assert(out@[i] == f);
                }
            }
        }
    }
    out
}

/// Flag every record that has an adjacent content-equal neighbour: those are
/// the candidates whose partial fingerprints are ambiguous. Also report
/// whether any record was flagged.
fn mark_full_hash_candidates(files: Vec<Fileinfo>) -> (r: (Vec<Fileinfo>, bool))
    ensures
        r.0@.len() == files@.len(),
        forall|i: int|
            0 <= i < files@.len() ==> models(r.0@)[i] == (RecordModel {
                confirmed: adjacent_dup(models(files@), i),
                ..models(files@)[i]
            }),
        r.1 == exists|i: int| 0 <= i < files@.len() && adjacent_dup(models(files@), i),
{
    let n = files.len();
    let mut flags: Vec<bool> = Vec::new();
    let mut any = false;
    let mut i: usize = 0;
    while i < n
        invariant
            n == files@.len(),
            i <= n,
            flags@.len() == i,
            forall|k: int| 0 <= k < i ==> flags@[k] == adjacent_dup(models(files@), k),
            any == exists|k: int| 0 <= k < i && adjacent_dup(models(files@), k),
        decreases n - i,
    {
        let mut dup = false;
        if i > 0 {
            if files[i - 1].file_hash == files[i].file_hash && files[i - 1].file_len
                == files[i].file_len {
                dup = true;
            }
        }
        if i + 1 < n {
            if files[i].file_hash == files[i + 1].file_hash && files[i].file_len
                == files[i + 1].file_len {
                dup = true;
            }
        }
        assert(dup == adjacent_dup(models(files@), i as int));
        if dup {
            any = true;
        }
        flags.push(dup);
        i = i + 1;
    }
    let mut input = files;
    let mut out: Vec<Fileinfo> = Vec::new();
    while input.len() > 0
        invariant
            out@.len() + input@.len() == files@.len(),
            flags@.len() == files@.len(),
            forall|k: int| 0 <= k < files@.len() ==> flags@[k] == adjacent_dup(models(files@), k),
            forall|k: int|
                0 <= k < input@.len() ==> input@[k] == files@[out@.len() + k],
            forall|k: int|
                0 <= k < out@.len() ==> models(out@)[k] == (RecordModel {
                    confirmed: adjacent_dup(models(files@), k),
                    ..models(files@)[k]
                }),
        decreases input@.len(),
    {
        let ghost prev = out@;
        let mut f = input.remove(0);
        proof {
            assert(f == files@[prev.len() as int]);
        }
        f.second_hash = flags[out.len()];
        proof {
            assert(f@ == (RecordModel {
                confirmed: adjacent_dup(models(files@), prev.len() as int),
                ..models(files@)[prev.len() as int]
            }));
        }
        out.push(f);
        proof {
            assert(out@ == prev.push(f));
            assert forall|i: int| 0 <= i < out@.len() implies models(out@)[i] == (RecordModel {
                confirmed: adjacent_dup(models(files@), i),
                ..models(files@)[i]
            }) by {
                if i < prev.len() {
                    assert(out@[i] == prev[i]);
                    assert(models(prev)[i] == (RecordModel {
                        confirmed: adjacent_dup(models(files@), i),
                        ..models(files@)[i]
                    }));
                } else {
                    assert(out@[i] == f);
                }
            }
        }
    }
    (out, any)
}

/// One left-to-right pass that merges every run of adjacent content-equal
/// records into its first record, concatenating their path lists. This is
/// the consolidation step: after a sort has made content-equal records
/// adjacent, it produces one record per distinct content.
pub fn merge_adjacent(files: Vec<Fileinfo>) -> (out: Vec<Fileinfo>)
    ensures
        all_paths(models(out@)) == all_paths(models(files@)),
        forall|h: u64, l: u64|
            #[trigger] paths_of_content(models(out@), h, l) == paths_of_content(
                models(files@),
                h,
                l,
            ),
        adjacent_distinct(models(out@)),
        forall|l: u64| all_len(models(files@), l) ==> all_len(models(out@), l),
        all_unconfirmed(models(files@)) ==> all_unconfirmed(models(out@)),
        paths_nonempty(models(files@)) ==> paths_nonempty(models(out@)),
        (grouped(models(files@)) && paths_nonempty(models(files@))) ==> is_resolution(
            models(files@),
            models(out@),
        ),
        out@.len() <= files@.len(),
        files@.len() > 0 ==> out@.len() > 0,
{
    let ghost orig = models(files@);
    let mut input = files;
    let mut out: Vec<Fileinfo> = Vec::new();
    proof {
        assert(orig.take(0) =~= Seq::<RecordModel>::empty());
    }
    while input.len() > 0
        invariant
            orig == models(files@),
            orig.len() == files@.len(),
            input@.len() <= files@.len(),
            forall|i: int|
                0 <= i < input@.len() ==> input@[i] == files@[files@.len() - input@.len() + i],
            forall|h: u64, l: u64|
                #[trigger] paths_of_content(models(out@), h, l) == paths_of_content(
                    orig.take(orig.len() - input@.len()),
                    h,
                    l,
                ),
            all_paths(models(out@)) == all_paths(orig.take(orig.len() - input@.len())),
            adjacent_distinct(models(out@)),
            input@.len() < files@.len() ==> out@.len() > 0 && content_eq(
                models(out@).last(),
                orig[orig.len() - input@.len() - 1],
            ),
            input@.len() == files@.len() ==> out@.len() == 0,
            forall|l: u64| all_len(orig, l) ==> all_len(models(out@), l),
            all_unconfirmed(orig) ==> all_unconfirmed(models(out@)),
            paths_nonempty(orig) ==> paths_nonempty(models(out@)),
            (grouped(orig) && paths_nonempty(orig)) ==> distinct_contents(models(out@)),
            out@.len() <= orig.len() - input@.len(),
        decreases input@.len(),
    {
        let ghost k = orig.len() - input@.len();
        let ghost cur = models(out@);
        let f = input.remove(0);
        proof {
            assert(f@ == orig[k]);
            lemma_take_push(orig, k);
        }
        if out.len() == 0 {
            out.push(f);
            proof {
                assert(models(out@) =~= cur.push(orig[k]));
                lemma_merge_step_extend(cur, orig, k);
            }
        } else {
            let last = out.pop().unwrap();
            if last.file_hash == f.file_hash && last.file_len == f.file_len {
                let mut last = last;
                let mut f = f;
                last.file_paths.append(&mut f.file_paths);
                out.push(last);
                proof {
                    assert(models(out@) =~~= absorb_last(cur, orig[k]));
                    lemma_merge_step_absorb(cur, orig, k);
                }
            } else {
                out.push(last);
                out.push(f);
                proof {
                    assert(models(out@) =~= cur.push(orig[k]));
                    lemma_merge_step_extend(cur, orig, k);
                    if grouped(orig) && paths_nonempty(orig) {
                        lemma_merge_step_distinct(cur, orig, k);
                        assert(distinct_contents(models(out@)));
                    }
                }
            }
        }
    }
    proof {
        assert(orig.take(orig.len() - input@.len()) =~= orig);
        if grouped(orig) && paths_nonempty(orig) {
            assert forall|k: int|
                0 <= k < models(out@).len() implies (#[trigger] models(out@)[k]).paths.to_multiset()
                == paths_of_content(orig, models(out@)[k].hash, models(out@)[k].len) by {
                lemma_distinct_own_paths(models(out@), k);
            }
        }
    }
    out
}

/// Appending a record with a fresh content keeps every path-sum accounted.
proof fn lemma_merge_step_extend(cur: Seq<RecordModel>, orig: Seq<RecordModel>, k: int)
    requires
        0 <= k < orig.len(),
        forall|h: u64, l: u64|
            #[trigger] paths_of_content(cur, h, l) == paths_of_content(orig.take(k), h, l),
        all_paths(cur) == all_paths(orig.take(k)),
    ensures
        forall|h: u64, l: u64|
            #[trigger] paths_of_content(cur.push(orig[k]), h, l) == paths_of_content(
                orig.take(k + 1),
                h,
                l,
            ),
        all_paths(cur.push(orig[k])) == all_paths(orig.take(k + 1)),
{
    lemma_take_push(orig, k);
    assert forall|h: u64, l: u64|
        #[trigger] paths_of_content(cur.push(orig[k]), h, l) == paths_of_content(
            orig.take(k + 1),
            h,
            l,
        ) by {
        assert(paths_of_content(cur, h, l) == paths_of_content(orig.take(k), h, l));
        lemma_paths_sum_push(cur, keep_content(h, l), orig[k]);
        lemma_paths_sum_push(orig.take(k), keep_content(h, l), orig[k]);
    }
    lemma_paths_sum_push(cur, keep_all(), orig[k]);
    lemma_paths_sum_push(orig.take(k), keep_all(), orig[k]);
}

/// The consolidated sequence after the record at the end absorbs the paths
/// of a content-equal newcomer.
pub open spec fn absorb_last(cur: Seq<RecordModel>, r: RecordModel) -> Seq<RecordModel> {
    cur.drop_last().push(RecordModel { paths: cur.last().paths + r.paths, ..cur.last() })
}

/// Absorbing a record into the content-equal record at the end keeps every
/// path-sum accounted.
proof fn lemma_merge_step_absorb(cur: Seq<RecordModel>, orig: Seq<RecordModel>, k: int)
    requires
        0 <= k < orig.len(),
        cur.len() > 0,
        content_eq(cur.last(), orig[k]),
        forall|h: u64, l: u64|
            #[trigger] paths_of_content(cur, h, l) == paths_of_content(orig.take(k), h, l),
        all_paths(cur) == all_paths(orig.take(k)),
    ensures
        forall|h: u64, l: u64|
            #[trigger] paths_of_content(absorb_last(cur, orig[k]), h, l) == paths_of_content(
                orig.take(k + 1),
                h,
                l,
            ),
        all_paths(absorb_last(cur, orig[k])) == all_paths(orig.take(k + 1)),
{
    broadcast use vstd::multiset::group_multiset_axioms;

    let merged = RecordModel { paths: cur.last().paths + orig[k].paths, ..cur.last() };
    lemma_take_push(orig, k);
    vstd::seq_lib::lemma_multiset_commutative(cur.last().paths, orig[k].paths);
    assert(absorb_last(cur, orig[k]) == cur.drop_last().push(merged));
    assert forall|h: u64, l: u64|
        #[trigger] paths_of_content(absorb_last(cur, orig[k]), h, l) == paths_of_content(
            orig.take(k + 1),
            h,
            l,
        ) by {
        let keep = keep_content(h, l);
        lemma_paths_sum_push(cur.drop_last(), keep, merged);
        lemma_paths_sum_push(orig.take(k), keep, orig[k]);
        assert(paths_of_content(cur, h, l) == paths_sum(cur.drop_last(), keep).add(
            share_of(cur.last(), keep),
        ));
        assert(share_of(merged, keep) =~= share_of(cur.last(), keep).add(
            share_of(orig[k], keep),
        ));
        assert(paths_sum(cur.drop_last(), keep).add(share_of(merged, keep)) =~= paths_sum(
            cur.drop_last(),
            keep,
        ).add(share_of(cur.last(), keep)).add(share_of(orig[k], keep)));
    }
    let keep = keep_all();
    lemma_paths_sum_push(cur.drop_last(), keep, merged);
    lemma_paths_sum_push(orig.take(k), keep, orig[k]);
    assert(all_paths(cur) == paths_sum(cur.drop_last(), keep).add(share_of(cur.last(), keep)));
    assert(share_of(merged, keep) =~= share_of(cur.last(), keep).add(share_of(orig[k], keep)));
    assert(paths_sum(cur.drop_last(), keep).add(share_of(merged, keep)) =~= paths_sum(
        cur.drop_last(),
        keep,
    ).add(share_of(cur.last(), keep)).add(share_of(orig[k], keep)));
}

/// When a fresh record's content differs from the last consolidated record,
/// grouping guarantees it differs from every consolidated record.
proof fn lemma_merge_step_distinct(cur: Seq<RecordModel>, orig: Seq<RecordModel>, k: int)
    requires
        0 <= k < orig.len(),
        grouped(orig),
        paths_nonempty(orig),
        paths_nonempty(cur),
        distinct_contents(cur),
        cur.len() > 0,
        content_eq(cur.last(), orig[k - 1]),
        k > 0,
        !content_eq(cur.last(), orig[k]),
        forall|h: u64, l: u64|
            #[trigger] paths_of_content(cur, h, l) == paths_of_content(orig.take(k), h, l),
    ensures
        distinct_contents(cur.push(orig[k])),
{
    broadcast use vstd::seq_lib::group_to_multiset_ensures;

    let ext = cur.push(orig[k]);
    assert forall|i: int, j: int| 0 <= i < j < ext.len() implies !content_eq(
        #[trigger] ext[i],
        #[trigger] ext[j],
    ) by {
        if j < ext.len() - 1 {
            assert(ext[i] == cur[i] && ext[j] == cur[j]);
        } else {
            assert(ext[j] == orig[k]);
            assert(ext[i] == cur[i]);
            if content_eq(cur[i], orig[k]) {
                if i == cur.len() - 1 {
                    assert(false);
                } else {
                    let p = cur[i].paths[0];
                    assert(cur[i].paths.contains(p));
                    assert(cur[i].paths.to_multiset().count(p) > 0);
                    let keep = keep_content(cur[i].hash, cur[i].len);
                    lemma_paths_sum_member(cur, keep, i);
                    assert(paths_of_content(cur, cur[i].hash, cur[i].len).count(p) > 0);
                    assert(paths_of_content(orig.take(k), cur[i].hash, cur[i].len).count(p) > 0);
                    lemma_paths_sum_source(orig.take(k), keep, p);
                    let s = choose|s: int|
                        0 <= s < orig.take(k).len() && keep(#[trigger] orig.take(k)[s])
                            && orig.take(k)[s].paths.to_multiset().count(p) > 0;
                    assert(orig.take(k)[s] == orig[s]);
                    assert(content_eq(orig[s], cur[i]));
                    assert(content_eq(orig[s], orig[k]));
                    assert(content_eq(orig[s], orig[k - 1]));
                    assert(content_eq(cur.last(), orig[k]));
                    assert(false);
                }
            }
        }
    }
}


/// After assigning the partial fingerprints and sorting, the bucket is a
/// grouped reordering of the assigned records, and every per-record fact
/// carries over.
proof fn lemma_sorted_bucket_facts(
    input: Seq<RecordModel>,
    assigned: Seq<RecordModel>,
    sorted: Seq<RecordModel>,
    file_length: u64,
)
    requires
        all_len(input, file_length),
        all_unconfirmed(input),
        paths_nonempty(input),
        assigned.len() == input.len(),
        forall|i: int|
            0 <= i < assigned.len() ==> (#[trigger] assigned[i]).len == input[i].len
                && assigned[i].confirmed == input[i].confirmed && assigned[i].paths
                == input[i].paths,
        assigned.to_multiset() == sorted.to_multiset(),
        sorted_desc(sorted),
    ensures
        all_len(sorted, file_length),
        all_unconfirmed(sorted),
        paths_nonempty(sorted),
        grouped(sorted),
        all_paths(sorted) == all_paths(input),
{
    lemma_pointwise_permutation(assigned, sorted, |rr: RecordModel| rr.len == file_length);
    lemma_pointwise_permutation(assigned, sorted, |rr: RecordModel| !rr.confirmed);
    lemma_pointwise_permutation(assigned, sorted, |rr: RecordModel| rr.paths.len() > 0);
    assert(all_len(sorted, file_length));
    assert(all_unconfirmed(sorted));
    assert(paths_nonempty(sorted));
    lemma_sorted_same_len_grouped(sorted, file_length);
    lemma_paths_sum_permutation(assigned, sorted, keep_all());
    lemma_all_paths_pointwise(input, assigned);
}

/// With no adjacent duplicate anywhere in the sorted bucket, no two assigned
/// records collide on content at all.
proof fn lemma_no_adjacent_no_collision(
    assigned: Seq<RecordModel>,
    sorted: Seq<RecordModel>,
    file_length: u64,
)
    requires
        assigned.to_multiset() == sorted.to_multiset(),
        sorted_desc(sorted),
        all_len(sorted, file_length),
        forall|i: int| 0 <= i < sorted.len() ==> !adjacent_dup(sorted, i),
    ensures
        !has_content_collision(assigned),
{
    if has_content_collision(assigned) {
        lemma_collision_permutation(assigned, sorted);
        let (ci, cj) = choose|ci: int, cj: int|
            0 <= ci < sorted.len() && 0 <= cj < sorted.len() && ci != cj && content_eq(
                #[trigger] sorted[ci],
                #[trigger] sorted[cj],
            );
        assert(shares_content(sorted, ci));
        lemma_adjacent_dup_iff_shared(sorted, file_length, ci);
        assert(false);
    }
}

/// Facts about the marked bucket handed back for full hashing: order and
/// contents are those of the sorted bucket, and a record is flagged exactly
/// when some other record shares its content.
proof fn lemma_marked_bucket_facts(
    input: Seq<RecordModel>,
    assigned: Seq<RecordModel>,
    sorted: Seq<RecordModel>,
    marked: Seq<RecordModel>,
    file_length: u64,
)
    requires
        assigned.to_multiset() == sorted.to_multiset(),
        sorted_desc(sorted),
        all_len(sorted, file_length),
        all_unconfirmed(sorted),
        paths_nonempty(sorted),
        all_paths(sorted) == all_paths(input),
        marked.len() == sorted.len(),
        forall|i: int|
            0 <= i < marked.len() ==> #[trigger] marked[i] == (RecordModel {
                confirmed: adjacent_dup(sorted, i),
                ..sorted[i]
            }),
        exists|i: int| 0 <= i < sorted.len() && adjacent_dup(sorted, i),
    ensures
        has_content_collision(assigned),
        sorted_desc(marked),
        all_len(marked, file_length),
        paths_nonempty(marked),
        strip_confirmed(marked).to_multiset() == assigned.to_multiset(),
        forall|i: int|
            0 <= i < marked.len() ==> ((#[trigger] marked[i]).confirmed <==> shares_content(
                marked,
                i,
            )),
        all_paths(marked) == all_paths(input),
{
    let w = choose|w: int| 0 <= w < sorted.len() && adjacent_dup(sorted, w);
    if w > 0 && content_eq(sorted[w - 1], sorted[w]) {
        assert(has_content_collision(sorted));
    } else {
        assert(content_eq(sorted[w], sorted[w + 1]));
        assert(has_content_collision(sorted));
    }
    lemma_collision_permutation(sorted, assigned);
    assert(sorted_desc(marked));
    assert(all_len(marked, file_length));
    assert(paths_nonempty(marked));
    assert(strip_confirmed(marked) =~~= sorted);
    assert forall|i: int| 0 <= i < marked.len() implies ((#[trigger] marked[i]).confirmed
        <==> shares_content(marked, i)) by {
        lemma_adjacent_dup_iff_shared(sorted, file_length, i);
        lemma_shares_content_pointwise(sorted, marked, i);
    }
    assert forall|i: int| 0 <= i < marked.len() implies (#[trigger] marked[i]).paths
        == sorted[i].paths by {}
    lemma_all_paths_pointwise(marked, sorted);
}

/// Consume the partial fingerprints of one bucket: assign them, sort the
/// bucket descending by hash, and either consolidate now — the partial
/// fingerprint is definitive for short files, and no consolidation is
/// ambiguous when no two fingerprints collide — or flag every record whose
/// fingerprint collides with a neighbour's for full hashing.
pub fn resolve_with_partial_hashes(
    file_length: u64,
    files: Vec<Fileinfo>,
    partial_hashes: &Vec<u64>,
) -> (r: PartialOutcome)
    requires
        files@.len() == partial_hashes@.len(),
        all_len(models(files@), file_length),
        all_unconfirmed(models(files@)),
        paths_nonempty(models(files@)),
    ensures
        (r matches PartialOutcome::Resolved(out) ==> {
            &&& is_resolution(with_hashes(models(files@), partial_hashes@), models(out@))
            &&& all_len(models(out@), file_length)
            &&& all_unconfirmed(models(out@))
            &&& all_paths(models(out@)) == all_paths(models(files@))
            &&& (file_length <= PARTIAL_READ_LIMIT || !has_content_collision(
                with_hashes(models(files@), partial_hashes@),
            ))
        }),
        (r matches PartialOutcome::NeedsFullHashes(v) ==> {
            &&& file_length > PARTIAL_READ_LIMIT
            &&& has_content_collision(with_hashes(models(files@), partial_hashes@))
            &&& v@.len() == files@.len()
            &&& sorted_desc(models(v@))
            &&& all_len(models(v@), file_length)
            &&& paths_nonempty(models(v@))
            &&& strip_confirmed(models(v@)).to_multiset() == with_hashes(
                models(files@),
                partial_hashes@,
            ).to_multiset()
            &&& forall|i: int|
                0 <= i < v@.len() ==> ((#[trigger] models(v@)[i]).confirmed <==> shares_content(
                    models(v@),
                    i,
                ))
            &&& all_paths(models(v@)) == all_paths(models(files@))
        }),
{
    let ghost assigned = with_hashes(models(files@), partial_hashes@);
    let mut v = set_partial_hashes(files, partial_hashes);
    proof {
        assert(models(v@) =~~= assigned);
    }
    sort_by_hash_desc(&mut v);
    proof {
        lemma_sorted_bucket_facts(models(files@), assigned, models(v@), file_length);
    }
    if file_length <= PARTIAL_READ_LIMIT {
        let ghost sorted = models(v@);
        let out = merge_adjacent(v);
        proof {
            lemma_is_resolution_permutation(sorted, assigned, models(out@));
        }
        PartialOutcome::Resolved(out)
    } else {
        let ghost sorted = models(v@);
        let (m, any) = mark_full_hash_candidates(v);
        if any {
            proof {
                lemma_marked_bucket_facts(
                    models(files@),
                    assigned,
                    sorted,
                    models(m@),
                    file_length,
                );
            }
            PartialOutcome::NeedsFullHashes(m)
        } else {
            proof {
                assert(models(m@) =~~= sorted);
                lemma_no_adjacent_no_collision(assigned, sorted, file_length);
            }
            let out = merge_adjacent(m);
            proof {
                lemma_is_resolution_permutation(sorted, assigned, models(out@));
            }
            PartialOutcome::Resolved(out)
        }
    }
}

/// Consume the full-content hashes of the flagged records: overwrite their
/// fingerprints — unflagged records keep their partial fingerprint, which no
/// neighbour matched — and consolidate adjacent content-equal records over
/// the same hash-sorted order, where true duplicates are still adjacent.
pub fn resolve_with_full_hashes(files: Vec<Fileinfo>, full_hashes: &Vec<Option<u64>>) -> (out: Vec<
    Fileinfo,
>)
    requires
        files@.len() == full_hashes@.len(),
        forall|i: int|
            0 <= i < files@.len() ==> ((full_hashes@[i] is Some) <==> models(
                files@,
            )[i].confirmed),
    ensures
        all_paths(models(out@)) == all_paths(models(files@)),
        forall|h: u64, l: u64|
            #[trigger] paths_of_content(models(out@), h, l) == paths_of_content(
                with_full_hashes(models(files@), full_hashes@),
                h,
                l,
            ),
        adjacent_distinct(models(out@)),
        forall|l: u64| all_len(models(files@), l) ==> all_len(models(out@), l),
        paths_nonempty(models(files@)) ==> paths_nonempty(models(out@)),
        (grouped(with_full_hashes(models(files@), full_hashes@)) && paths_nonempty(
            models(files@),
        )) ==> is_resolution(with_full_hashes(models(files@), full_hashes@), models(out@)),
        out@.len() <= files@.len(),
{
    let ghost upd = with_full_hashes(models(files@), full_hashes@);
    let v = set_full_hashes(files, full_hashes);
    proof {
        assert(models(v@) =~~= upd);
        assert forall|i: int| 0 <= i < models(files@).len() implies (#[trigger] models(
            files@,
        )[i]).paths == upd[i].paths by {}
        lemma_all_paths_pointwise(models(files@), upd);
        assert forall|l: u64| all_len(models(files@), l) implies all_len(upd, l) by {}
        if paths_nonempty(models(files@)) {
            assert(paths_nonempty(upd));
        }
    }
    let out = merge_adjacent(v);
    out
}

} // verus!
