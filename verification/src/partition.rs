//! Splitting resolved records into shared records (content held in two or
//! more locations) and unique records (exactly one location).

use vstd::prelude::*;
use crate::record::Fileinfo;

verus! {

/// Selects a record whose content is held in more than one location.
pub open spec fn shared_pred() -> spec_fn(Fileinfo) -> bool {
    |f: Fileinfo| f@.paths.len() > 1
}

/// Selects a record whose content is held in at most one location.
pub open spec fn unique_pred() -> spec_fn(Fileinfo) -> bool {
    |f: Fileinfo| f@.paths.len() <= 1
}

/// Split the complete record list into (shared, unique): a record with more
/// than one path is a duplicate set, a record with exactly one path is a
/// singleton. Both halves keep their records in the original order, and
/// together they hold exactly the records of the input.
pub fn partition_records(complete: Vec<Fileinfo>) -> (r: (Vec<Fileinfo>, Vec<Fileinfo>))
    ensures
        r.0@ == complete@.filter(shared_pred()),
        r.1@ == complete@.filter(unique_pred()),
        r.0@.len() + r.1@.len() == complete@.len(),
{
    let mut input = complete;
    let mut shared: Vec<Fileinfo> = Vec::new();
    let mut unique: Vec<Fileinfo> = Vec::new();
    proof {
        reveal(Seq::filter);
        assert(complete@.take(0) =~= Seq::<Fileinfo>::empty());
        assert(complete@.take(0).filter(shared_pred()) =~= Seq::<Fileinfo>::empty());
        assert(complete@.take(0).filter(unique_pred()) =~= Seq::<Fileinfo>::empty());
    }
    while input.len() > 0
        invariant
            input@.len() <= complete@.len(),
            forall|i: int|
                0 <= i < input@.len() ==> input@[i] == complete@[complete@.len() - input@.len()
                    + i],
            shared@ == complete@.take(complete@.len() - input@.len()).filter(shared_pred()),
            unique@ == complete@.take(complete@.len() - input@.len()).filter(unique_pred()),
            shared@.len() + unique@.len() == complete@.len() - input@.len(),
        decreases input@.len(),
    {
        let ghost k = complete@.len() - input@.len();
        let f = input.remove(0);
        proof {
            assert(f == complete@[k]);
            assert(complete@.take(k + 1).drop_last() =~= complete@.take(k));
            assert(complete@.take(k + 1).last() == complete@[k]);
        }
        proof {
            assert(f@.paths.len() == f.file_paths@.len());
        }
        if f.file_paths.len() > 1 {
            shared.push(f);
            proof {
                reveal(Seq::filter);
                assert((shared_pred())(f));
                assert(!(unique_pred())(f));
                assert(complete@.take(k + 1).filter(shared_pred()) == complete@.take(k).filter(
                    shared_pred(),
                ).push(f));
                assert(complete@.take(k + 1).filter(unique_pred()) == complete@.take(k).filter(
                    unique_pred(),
                ));
            }
        } else {
            unique.push(f);
            proof {
                reveal(Seq::filter);
                assert(!(shared_pred())(f));
                assert((unique_pred())(f));
                assert(complete@.take(k + 1).filter(unique_pred()) == complete@.take(k).filter(
                    unique_pred(),
                ).push(f));
                assert(complete@.take(k + 1).filter(shared_pred()) == complete@.take(k).filter(
                    shared_pred(),
                ));
            }
        }
    }
    proof {
        assert(complete@.take(complete@.len() - input@.len()) =~= complete@);
    }
    (shared, unique)
}


/// Partition correctness: the shared and unique halves together hold exactly
/// the records of the complete list — no record is lost, duplicated or
/// invented by the split.
pub proof fn lemma_partition_covers(s: Seq<Fileinfo>)
    ensures
        (s.filter(shared_pred()) + s.filter(unique_pred())).to_multiset() == s.to_multiset(),
    decreases s.len(),
{
    broadcast use vstd::seq_lib::group_to_multiset_ensures, vstd::multiset::group_multiset_axioms;

    reveal(Seq::filter);
    if s.len() == 0 {
        assert(s.filter(shared_pred()) + s.filter(unique_pred()) =~= s);
    } else {
        let t = s.drop_last();
        let r = s.last();
        lemma_partition_covers(t);
        assert(s =~= t.push(r));
        vstd::seq_lib::lemma_multiset_commutative(t.filter(shared_pred()), t.filter(unique_pred()));
        if (shared_pred())(r) {
            assert(s.filter(shared_pred()) == t.filter(shared_pred()).push(r));
            assert(s.filter(unique_pred()) == t.filter(unique_pred()));
            vstd::seq_lib::lemma_multiset_commutative(
                t.filter(shared_pred()).push(r),
                t.filter(unique_pred()),
            );
            assert((s.filter(shared_pred()) + s.filter(unique_pred())).to_multiset()
                =~= s.to_multiset());
        } else {
            assert(s.filter(unique_pred()) == t.filter(unique_pred()).push(r));
            assert(s.filter(shared_pred()) == t.filter(shared_pred()));
            vstd::seq_lib::lemma_multiset_commutative(
                t.filter(shared_pred()),
                t.filter(unique_pred()).push(r),
            );
            assert((s.filter(shared_pred()) + s.filter(unique_pred())).to_multiset()
                =~= s.to_multiset());
        }
    }
}

} // verus!
