use ddh::record::Fileinfo;
use ddh::fingerprint::{hash_bytes, partial_read_len, PARTIAL_READ_LIMIT};
use ddh::resolve::{begin_bucket, resolve_with_partial_hashes, resolve_with_full_hashes, BucketStart, PartialOutcome, merge_adjacent};
use ddh::bucket::bucket_by_length;
use ddh::partition::partition_records;
use ddh::stats::{count_paths, total_distinct_bytes, total_instance_bytes, display_divisor};

fn rec(hash: u64, len: u64, path: &str) -> Fileinfo {
    Fileinfo::new(hash, len, path.to_string())
}

fn partial_hash_of(content: &[u8]) -> u64 {
    let n = partial_read_len(content.len() as u64) as usize;
    hash_bytes(&content[..n])
}

/// Drive one bucket through the full protocol, looking file contents up by
/// their single original path, as the program around the library would by
/// reading the file.
fn resolve_bucket(length: u64, files: Vec<Fileinfo>, lookup: &[(&str, Vec<u8>)]) -> Vec<Fileinfo> {
    let content_of = |p: &str| -> Vec<u8> {
        lookup.iter().find(|(q, _)| *q == p).map(|(_, c)| c.clone()).unwrap()
    };
    match begin_bucket(length, files) {
        BucketStart::Resolved(v) => v,
        BucketStart::NeedsPartialHashes(v) => {
            let ph: Vec<u64> = v
                .iter()
                .map(|f| partial_hash_of(&content_of(&f.file_paths[0])))
                .collect();
            match resolve_with_partial_hashes(length, v, &ph) {
                PartialOutcome::Resolved(out) => out,
                PartialOutcome::NeedsFullHashes(m) => {
                    let fh: Vec<Option<u64>> = m
                        .iter()
                        .map(|f| {
                            if f.second_hash {
                                Some(hash_bytes(&content_of(&f.file_paths[0])))
                            } else {
                                None
                            }
                        })
                        .collect();
                    resolve_with_full_hashes(m, &fh)
                },
            }
        },
    }
}

fn grouping(records: &[Fileinfo]) -> Vec<Vec<String>> {
    let mut g: Vec<Vec<String>> = records
        .iter()
        .map(|r| {
            let mut p = r.file_paths.clone();
            p.sort();
            p
        })
        .collect();
    g.sort();
    g
}

#[test]
fn fileinfo_new_holds_one_path() {
    let f = rec(7, 42, "x.bin");
    assert_eq!(f.file_hash, 7);
    assert_eq!(f.file_len, 42);
    assert_eq!(f.file_paths, vec!["x.bin".to_string()]);
    assert!(!f.second_hash);
}

#[test]
fn fileinfo_eq_is_content_equality() {
    let a = rec(7, 42, "a");
    let b = rec(7, 42, "b");
    let c = rec(8, 42, "c");
    let d = rec(7, 41, "d");
    assert!(a == b);
    assert!(a != c);
    assert!(a != d);
}

#[test]
fn hash_bytes_is_a_function_of_the_bytes() {
    assert_eq!(hash_bytes(&[1, 2, 3]), hash_bytes(&[1, 2, 3]));
    assert_ne!(hash_bytes(&[1, 2, 3]), hash_bytes(&[1, 2, 4]));
    assert_eq!(hash_bytes(&[]), hash_bytes(&[]));
}

#[test]
fn partial_read_len_respects_threshold() {
    assert_eq!(PARTIAL_READ_LIMIT, 4096);
    assert_eq!(partial_read_len(0), 0);
    assert_eq!(partial_read_len(10), 10);
    assert_eq!(partial_read_len(4096), 4096);
    assert_eq!(partial_read_len(4097), 4096);
}

#[test]
fn identical_small_files_become_one_shared_record() {
    let content = b"0123456789".to_vec();
    let files = vec![rec(0, 10, "a.txt"), rec(0, 10, "b.txt")];
    let lookup = [("a.txt", content.clone()), ("b.txt", content.clone())];
    let out = resolve_bucket(10, files, &lookup);
    assert_eq!(out.len(), 1);
    assert_eq!(out[0].file_paths.len(), 2);
    assert_eq!(out[0].file_len, 10);
    assert!(!out[0].second_hash);
    let (shared, unique) = partition_records(out);
    assert_eq!(shared.len(), 1);
    assert!(unique.is_empty());
}

#[test]
fn empty_files_stay_unique() {
    let files = vec![rec(0, 0, "e1"), rec(0, 0, "e2")];
    let out = resolve_bucket(0, files, &[("e1", Vec::new()), ("e2", Vec::new())]);
    assert_eq!(out.len(), 2);
    let (shared, unique) = partition_records(out);
    assert!(shared.is_empty());
    assert_eq!(unique.len(), 2);
    assert_eq!(unique[0].file_paths.len(), 1);
    assert_eq!(unique[1].file_paths.len(), 1);
}

#[test]
fn singleton_bucket_is_returned_unchanged() {
    let files = vec![rec(0, 7, "only")];
    match begin_bucket(7, files) {
        BucketStart::Resolved(v) => {
            assert_eq!(v.len(), 1);
            assert_eq!(v[0].file_hash, 0);
            assert_eq!(v[0].file_paths, vec!["only".to_string()]);
        },
        BucketStart::NeedsPartialHashes(_) => panic!("a lone record needs no hashing"),
    }
}

#[test]
fn file_of_exactly_4096_bytes_uses_only_the_partial_hash() {
    let content = vec![7u8; 4096];
    let files = vec![rec(0, 4096, "p"), rec(0, 4096, "q")];
    let lookup = [("p", content.clone()), ("q", content.clone())];
    match begin_bucket(4096, files) {
        BucketStart::NeedsPartialHashes(v) => {
            let ph: Vec<u64> = v.iter().map(|_| partial_hash_of(&content)).collect();
            match resolve_with_partial_hashes(4096, v, &ph) {
                PartialOutcome::Resolved(out) => {
                    assert_eq!(out.len(), 1);
                    assert_eq!(out[0].file_paths.len(), 2);
                    assert!(!out[0].second_hash);
                },
                PartialOutcome::NeedsFullHashes(_) => {
                    panic!("4096-byte files must resolve on the partial hash alone")
                },
            }
        },
        BucketStart::Resolved(_) => panic!("two nonzero records need hashing"),
    }
}

#[test]
fn colliding_prefixes_past_threshold_request_full_hashes_for_both() {
    let mut c1 = vec![1u8; 4097];
    let mut c2 = vec![1u8; 4097];
    c1[4096] = 10;
    c2[4096] = 20;
    let files = vec![rec(0, 4097, "f1"), rec(0, 4097, "f2")];
    match begin_bucket(4097, files) {
        BucketStart::NeedsPartialHashes(v) => {
            let ph: Vec<u64> = vec![partial_hash_of(&c1), partial_hash_of(&c2)];
            assert_eq!(ph[0], ph[1]);
            match resolve_with_partial_hashes(4097, v, &ph) {
                PartialOutcome::NeedsFullHashes(m) => {
                    assert_eq!(m.len(), 2);
                    assert!(m[0].second_hash);
                    assert!(m[1].second_hash);
                },
                PartialOutcome::Resolved(_) => {
                    panic!("a prefix collision past the threshold needs full hashes")
                },
            }
        },
        BucketStart::Resolved(_) => panic!("two nonzero records need hashing"),
    }
}

#[test]
fn shared_prefix_but_different_tail_resolves_to_two_records() {
    let mut c1 = vec![5u8; 5000];
    let mut c2 = vec![5u8; 5000];
    c1[4999] = 1;
    c2[4999] = 2;
    let files = vec![rec(0, 5000, "x1"), rec(0, 5000, "x2")];
    let lookup = [("x1", c1), ("x2", c2)];
    let out = resolve_bucket(5000, files, &lookup);
    assert_eq!(out.len(), 2);
    let (shared, unique) = partition_records(out);
    assert!(shared.is_empty());
    assert_eq!(unique.len(), 2);
}

#[test]
fn true_duplicates_past_threshold_merge_after_full_hashing() {
    let content = vec![9u8; 5000];
    let files = vec![rec(0, 5000, "d1"), rec(0, 5000, "d2")];
    let lookup = [("d1", content.clone()), ("d2", content.clone())];
    let out = resolve_bucket(5000, files, &lookup);
    assert_eq!(out.len(), 1);
    assert_eq!(out[0].file_paths.len(), 2);
    assert!(out[0].second_hash);
}

#[test]
fn resolver_grouping_is_order_independent() {
    let ca = b"same bytes".to_vec();
    let cb = b"other byte".to_vec();
    let lookup = [("p1", ca.clone()), ("p2", ca.clone()), ("p3", cb.clone())];
    let one = resolve_bucket(
        10,
        vec![rec(0, 10, "p1"), rec(0, 10, "p2"), rec(0, 10, "p3")],
        &lookup,
    );
    let two = resolve_bucket(
        10,
        vec![rec(0, 10, "p3"), rec(0, 10, "p2"), rec(0, 10, "p1")],
        &lookup,
    );
    assert_eq!(grouping(&one), grouping(&two));
    assert_eq!(one.len(), 2);
}

#[test]
fn merge_adjacent_concatenates_runs() {
    let a = rec(5, 3, "a");
    let b = rec(5, 3, "b");
    let c = rec(4, 3, "c");
    let out = merge_adjacent(vec![a, b, c]);
    assert_eq!(out.len(), 2);
    assert_eq!(out[0].file_paths, vec!["a".to_string(), "b".to_string()]);
    assert_eq!(out[1].file_paths, vec!["c".to_string()]);
}

#[test]
fn bucketing_groups_by_exact_length() {
    let records = vec![rec(0, 3, "a"), rec(0, 5, "b"), rec(0, 3, "c")];
    let buckets = bucket_by_length(records);
    assert_eq!(buckets.len(), 2);
    let three = buckets.iter().find(|b| b.length == 3).unwrap();
    let five = buckets.iter().find(|b| b.length == 5).unwrap();
    assert_eq!(three.files.len(), 2);
    assert_eq!(three.files[0].file_paths, vec!["a".to_string()]);
    assert_eq!(three.files[1].file_paths, vec!["c".to_string()]);
    assert_eq!(five.files.len(), 1);
}

#[test]
fn partition_splits_on_path_count() {
    let mut dup = rec(1, 4, "a");
    dup.file_paths.push("b".to_string());
    let solo = rec(2, 4, "c");
    let (shared, unique) = partition_records(vec![dup, solo]);
    assert_eq!(shared.len(), 1);
    assert_eq!(shared[0].file_paths.len(), 2);
    assert_eq!(unique.len(), 1);
    assert_eq!(unique[0].file_paths, vec!["c".to_string()]);
}

#[test]
fn stats_totals_count_instances_and_bytes() {
    let mut dup = rec(1, 100, "a");
    dup.file_paths.push("b".to_string());
    let solo = rec(2, 30, "c");
    let records = vec![dup, solo];
    assert_eq!(count_paths(&records), 3);
    assert_eq!(total_distinct_bytes(&records), 130);
    assert_eq!(total_instance_bytes(&records), 230);
}

#[test]
fn stats_saturate_instead_of_overflowing() {
    let a = rec(1, u64::MAX, "a");
    let b = rec(2, u64::MAX, "b");
    let records = vec![a, b];
    assert_eq!(total_distinct_bytes(&records), u64::MAX);
}

#[test]
fn display_divisor_is_a_power_of_1024() {
    assert_eq!(display_divisor(0), 1);
    assert_eq!(display_divisor(1), 1024);
    assert_eq!(display_divisor(2), 1024 * 1024);
    assert_eq!(display_divisor(3), 1024 * 1024 * 1024);
}

#[test]
fn records_order_by_length_alone() {
    let a = rec(9, 1, "a");
    let b = rec(1, 2, "b");
    assert!(a < b);
    assert!(!(b < a));
    assert_eq!(a.partial_cmp(&b), Some(std::cmp::Ordering::Less));
    assert_eq!(b.partial_cmp(&a), Some(std::cmp::Ordering::Greater));
    assert_eq!(rec(1, 2, "c").partial_cmp(&b), Some(std::cmp::Ordering::Equal));
}
