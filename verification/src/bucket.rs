//! The size bucketer: group discovered records by exact byte length. Files
//! of differing length can never be duplicates, so this partition is free of
//! any content comparison.

use vstd::prelude::*;
use crate::record::Fileinfo;

verus! {

/// All discovered records of one exact byte length.
pub struct SizeBucket {
    /// The length shared by every record in this bucket.
    pub length: u64,
    /// The records, in discovery order.
    pub files: Vec<Fileinfo>,
}

/// Whether some bucket is keyed by length `l`.
pub open spec fn has_bucket_for(out: Seq<SizeBucket>, l: u64) -> bool {
    exists|b: int| 0 <= b < out.len() && (#[trigger] out[b]).length == l
}

/// A filter that nothing satisfies keeps nothing.
proof fn lemma_filter_empty(s: Seq<Fileinfo>, pred: spec_fn(Fileinfo) -> bool)
    requires
        forall|i: int| 0 <= i < s.len() ==> !pred(#[trigger] s[i]),
    ensures
        s.filter(pred) == Seq::<Fileinfo>::empty(),
    decreases s.len(),
{
    reveal(Seq::filter);
    if s.len() > 0 {
        assert(forall|i: int| 0 <= i < s.drop_last().len() ==> s.drop_last()[i] == s[i]);
        lemma_filter_empty(s.drop_last(), pred);
        assert(s.filter(pred) =~= Seq::<Fileinfo>::empty());
    }
}

/// Selects a record of length `l`.
pub open spec fn len_pred(l: u64) -> spec_fn(Fileinfo) -> bool {
    |f: Fileinfo| f@.len == l
}

/// Group records by exact length: each bucket holds, in input order, exactly
/// the records of its length; no two buckets share a length; no bucket is
/// empty; and every record's length has a bucket.
pub fn bucket_by_length(records: Vec<Fileinfo>) -> (out: Vec<SizeBucket>)
    ensures
        forall|b: int|
            0 <= b < out@.len() ==> (#[trigger] out@[b]).files@ == records@.filter(
                len_pred(out@[b].length),
            ),
        forall|b1: int, b2: int|
            0 <= b1 < b2 < out@.len() ==> (#[trigger] out@[b1]).length != (
            #[trigger] out@[b2]).length,
        forall|b: int| 0 <= b < out@.len() ==> (#[trigger] out@[b]).files@.len() > 0,
        forall|i: int|
            0 <= i < records@.len() ==> has_bucket_for(out@, (#[trigger] records@[i])@.len),
{
    let mut input = records;
    let mut out: Vec<SizeBucket> = Vec::new();
    proof {
        reveal(Seq::filter);
        assert(records@.take(0) =~= Seq::<Fileinfo>::empty());
    }
    while input.len() > 0
        invariant
            input@.len() <= records@.len(),
            forall|i: int|
                0 <= i < input@.len() ==> input@[i] == records@[records@.len() - input@.len() + i],
            forall|b: int|
                0 <= b < out@.len() ==> (#[trigger] out@[b]).files@ == records@.take(
                    records@.len() - input@.len(),
                ).filter(len_pred(out@[b].length)),
            forall|b1: int, b2: int|
                0 <= b1 < b2 < out@.len() ==> (#[trigger] out@[b1]).length != (
                #[trigger] out@[b2]).length,
            forall|b: int| 0 <= b < out@.len() ==> (#[trigger] out@[b]).files@.len() > 0,
            forall|i: int|
                0 <= i < records@.len() - input@.len() ==> has_bucket_for(
                    out@,
                    (#[trigger] records@[i])@.len,
                ),
        decreases input@.len(),
    {
        let ghost k = records@.len() - input@.len();
        let ghost prev = out@;
        let f = input.remove(0);
        proof {
            reveal(Seq::filter);
            assert(f == records@[k]);
            assert(records@.take(k + 1).drop_last() =~= records@.take(k));
            assert(records@.take(k + 1).last() == records@[k]);
        }
        let n = out.len();
        let mut bi: usize = 0;
        while bi < n && out[bi].length != f.file_len
            invariant
                n == out@.len(),
                bi <= n,
                out@ == prev,
                f == records@[k],
                forall|b: int| 0 <= b < bi ==> (#[trigger] out@[b]).length != f@.len,
            decreases n - bi,
        {
            bi = bi + 1;
        }
        if bi < n {
            let mut b = out.remove(bi);
            b.files.push(f);
            out.insert(bi, b);
            proof {
                reveal(Seq::filter);
                assert(out@ =~= prev.update(bi as int, b));
                assert(b.length == f@.len);
                assert forall|b2: int|
                    0 <= b2 < out@.len() implies (#[trigger] out@[b2]).files@ == records@.take(
                    k + 1,
                ).filter(len_pred(out@[b2].length)) by {
                    if b2 == bi {
                        assert((len_pred(out@[b2].length))(f));
                        assert(records@.take(k + 1).filter(len_pred(out@[b2].length))
                            == records@.take(k).filter(len_pred(out@[b2].length)).push(f));
                    } else {
                        assert(out@[b2] == prev[b2]);
                        assert(out@[b2].length != f@.len);
                        assert(!(len_pred(out@[b2].length))(f));
                        assert(records@.take(k + 1).filter(len_pred(out@[b2].length))
                            == records@.take(k).filter(len_pred(out@[b2].length)));
                    }
                }
                assert forall|i: int| 0 <= i < k + 1 implies has_bucket_for(
                    out@,
                    (#[trigger] records@[i])@.len,
                ) by {
                    if i < k {
                        let w = choose|w: int|
                            0 <= w < prev.len() && (#[trigger] prev[w]).length == records@[i]@.len;
                        assert(out@[w].length == prev[w].length);
                    } else {
                        assert(out@[bi as int].length == records@[k]@.len);
                    }
                }
            }
        } else {
            let mut v: Vec<Fileinfo> = Vec::new();
            proof {
                assert forall|i: int| 0 <= i < records@.take(k).len() implies !(len_pred(f@.len))(
                    #[trigger] records@.take(k)[i],
                ) by {
                    if records@[i]@.len == f@.len {
                        assert(has_bucket_for(prev, records@[i]@.len));
                        let b2 = choose|b2: int|
                            0 <= b2 < prev.len() && (#[trigger] prev[b2]).length == records@[i]@.len;
                        assert(false);
                    }
                }
                lemma_filter_empty(records@.take(k), len_pred(f@.len));
            }
            let flen = f.file_len;
            v.push(f);
            let nb = SizeBucket { length: flen, files: v };
            out.push(nb);
            proof {
                reveal(Seq::filter);
                assert(out@ =~= prev.push(nb));
                assert((len_pred(nb.length))(f));
                assert(records@.take(k + 1).filter(len_pred(nb.length)) == records@.take(k).filter(
                    len_pred(nb.length),
                ).push(f));
                assert(nb.files@ =~= Seq::<Fileinfo>::empty().push(f));
                assert forall|b2: int|
                    0 <= b2 < out@.len() implies (#[trigger] out@[b2]).files@ == records@.take(
                    k + 1,
                ).filter(len_pred(out@[b2].length)) by {
                    if b2 < prev.len() {
                        assert(out@[b2] == prev[b2]);
                        assert(out@[b2].length != f@.len);
                        assert(!(len_pred(out@[b2].length))(f));
                        assert(records@.take(k + 1).filter(len_pred(out@[b2].length))
                            == records@.take(k).filter(len_pred(out@[b2].length)));
                    }
                }
                assert forall|i: int| 0 <= i < k + 1 implies has_bucket_for(
                    out@,
                    (#[trigger] records@[i])@.len,
                ) by {
                    if i < k {
                        let w = choose|w: int|
                            0 <= w < prev.len() && (#[trigger] prev[w]).length == records@[i]@.len;
                        assert(out@[w].length == prev[w].length);
                    } else {
                        assert(out@[prev.len() as int].length == records@[k]@.len);
                    }
                }
            }
        }
    }
    proof {
        assert(records@.take(records@.len() - input@.len()) =~= records@);
    }
    out
}

} // verus!
