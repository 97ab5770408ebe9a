//! Summary figures for the reporting layer: how many file instances were
//! seen, and how many bytes they occupy with and without duplicates. All
//! totals saturate at `u64::MAX` instead of overflowing.

use vstd::prelude::*;
use crate::record::Fileinfo;
use crate::model::{models, RecordModel};

verus! {

/// The sum of a per-record figure over a sequence of records.
pub open spec fn stat_sum(s: Seq<RecordModel>, f: spec_fn(RecordModel) -> int) -> int
    decreases s.len(),
{
    if s.len() == 0 {
        0
    } else {
        stat_sum(s.drop_last(), f) + f(s.last())
    }
}

/// Number of file instances: one per path.
pub open spec fn instance_count() -> spec_fn(RecordModel) -> int {
    |r: RecordModel| r.paths.len() as int
}

/// Bytes of one record's content, counted once.
pub open spec fn distinct_bytes() -> spec_fn(RecordModel) -> int {
    |r: RecordModel| r.len as int
}

/// Bytes of one record's content, counted once per instance.
pub open spec fn instance_bytes() -> spec_fn(RecordModel) -> int {
    |r: RecordModel| r.len * r.paths.len()
}

/// A nonnegative total clipped to what fits in a `u64`.
pub open spec fn clip_u64(v: int) -> int {
    if v <= u64::MAX {
        v
    } else {
        u64::MAX as int
    }
}

proof fn lemma_stat_sum_push(s: Seq<RecordModel>, f: spec_fn(RecordModel) -> int, r: RecordModel)
    ensures
        stat_sum(s.push(r), f) == stat_sum(s, f) + f(r),
{
    assert(s.push(r).drop_last() =~= s);
}

/// Add with saturation at `u64::MAX`.
fn saturating_add_u64(a: u64, b: u64) -> (r: u64)
    ensures
        r == clip_u64(a + b),
{
    if a > u64::MAX - b {
        u64::MAX
    } else {
        a + b
    }
}

/// Total number of file instances over all records: the sum of the path
/// counts, saturating at `u64::MAX`.
pub fn count_paths(records: &Vec<Fileinfo>) -> (r: u64)
    ensures
        r == clip_u64(stat_sum(models(records@), instance_count())),
{
    let ghost s = models(records@);
    let mut total: u64 = 0;
    let mut i: usize = 0;
    proof {
        assert(s.take(0) =~= Seq::<RecordModel>::empty());
    }
    while i < records.len()
        invariant
            s == models(records@),
            i <= records@.len(),
            s.len() == records@.len(),
            total == clip_u64(stat_sum(s.take(i as int), instance_count())),
            stat_sum(s.take(i as int), instance_count()) >= 0,
        decreases records@.len() - i,
    {
        let c = records[i].file_paths.len() as u64;
        proof {
            assert(s.take(i + 1).drop_last() =~= s.take(i as int));
            assert(s.take(i + 1).last() == s[i as int]);
            lemma_stat_sum_push(s.take(i as int), instance_count(), s[i as int]);
            assert(s.take(i + 1) =~= s.take(i as int).push(s[i as int]));
            assert(c == s[i as int].paths.len());
        }
        total = saturating_add_u64(total, c);
        i = i + 1;
    }
    proof {
        assert(s.take(s.len() as int) =~= s);
    }
    total
}

/// Total bytes counted once per distinct content, saturating at `u64::MAX`.
pub fn total_distinct_bytes(records: &Vec<Fileinfo>) -> (r: u64)
    ensures
        r == clip_u64(stat_sum(models(records@), distinct_bytes())),
{
    let ghost s = models(records@);
    let mut total: u64 = 0;
    let mut i: usize = 0;
    proof {
        assert(s.take(0) =~= Seq::<RecordModel>::empty());
    }
    while i < records.len()
        invariant
            s == models(records@),
            i <= records@.len(),
            s.len() == records@.len(),
            total == clip_u64(stat_sum(s.take(i as int), distinct_bytes())),
            stat_sum(s.take(i as int), distinct_bytes()) >= 0,
        decreases records@.len() - i,
    {
        let c = records[i].file_len;
        proof {
            assert(s.take(i + 1).drop_last() =~= s.take(i as int));
            assert(s.take(i + 1).last() == s[i as int]);
            lemma_stat_sum_push(s.take(i as int), distinct_bytes(), s[i as int]);
            assert(s.take(i + 1) =~= s.take(i as int).push(s[i as int]));
        }
        total = saturating_add_u64(total, c);
        i = i + 1;
    }
    proof {
        assert(s.take(s.len() as int) =~= s);
    }
    total
}

/// Total bytes counted once per instance — the storage the content occupies
/// across all its locations — saturating at `u64::MAX`.
pub fn total_instance_bytes(records: &Vec<Fileinfo>) -> (r: u64)
    ensures
        r == clip_u64(stat_sum(models(records@), instance_bytes())),
{
    let ghost s = models(records@);
    let mut total: u64 = 0;
    let mut i: usize = 0;
    proof {
        assert(s.take(0) =~= Seq::<RecordModel>::empty());
    }
    while i < records.len()
        invariant
            s == models(records@),
            i <= records@.len(),
            s.len() == records@.len(),
            total == clip_u64(stat_sum(s.take(i as int), instance_bytes())),
            stat_sum(s.take(i as int), instance_bytes()) >= 0,
        decreases records@.len() - i,
    {
        let len128 = records[i].file_len as u128;
        let cnt128 = records[i].file_paths.len() as u128;
        proof {
            assert(len128 * cnt128 == s[i as int].len * s[i as int].paths.len()) by (nonlinear_arith)
                requires
                    len128 == s[i as int].len,
                    cnt128 == s[i as int].paths.len(),
            ;
            assert(len128 * cnt128 < 0x100000000000000000000000000000000) by (nonlinear_arith)
                requires
                    0 <= len128 < 0x10000000000000000,
                    0 <= cnt128 < 0x10000000000000000,
            ;
            assert(len128 * cnt128 >= 0) by (nonlinear_arith)
                requires
                    len128 >= 0,
                    cnt128 >= 0,
            ;
        }
        let prod128: u128 = len128 * cnt128;
        let prod: u64 = if prod128 > u64::MAX as u128 {
            u64::MAX
        } else {
            prod128 as u64
        };
        proof {
            assert(s.take(i + 1).drop_last() =~= s.take(i as int));
            assert(s.take(i + 1).last() == s[i as int]);
            lemma_stat_sum_push(s.take(i as int), instance_bytes(), s[i as int]);
            assert(s.take(i + 1) =~= s.take(i as int).push(s[i as int]));
            assert(prod == clip_u64(s[i as int].len * s[i as int].paths.len()));
        }
        total = saturating_add_u64(total, prod);
        i = i + 1;
    }
    proof {
        assert(s.take(s.len() as int) =~= s);
    }
    total
}

/// The divisor for one display unit: bytes, kilobytes, megabytes or
/// gigabytes, as a power of 1024.
pub fn display_divisor(power: u32) -> (r: u64)
    requires
        power <= 3,
    ensures
        power == 0 ==> r == 1,
        power == 1 ==> r == 1024,
        power == 2 ==> r == 1048576,
        power == 3 ==> r == 1073741824,
{
    if power == 0 {
        1
    } else if power == 1 {
        1024
    } else if power == 2 {
        1048576
    } else {
        1073741824
    }
}

} // verus!
