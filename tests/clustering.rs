use std::collections::{BTreeMap, BTreeSet};

use lsh_dedup_service::callback::{api_key_ciphertext, function_name};
use lsh_dedup_service::csv_input::{parse_records, records_from_rows};
use lsh_dedup_service::dedup::DeduplicationTable;
use lsh_dedup_service::dto::{Record, RecordResult};
use lsh_dedup_service::error::{ise, status_for_error_message, ServiceError, Status};
use lsh_dedup_service::lsh::{check_bands, new_permutations, MinHashLSH};
use lsh_dedup_service::minhash::{permute_hash, MinHash, Similarity, Threshold};
use lsh_dedup_service::csv_output::encode_rows;
use lsh_dedup_service::pipeline::{cluster_label, dedup_records, emit_rows, output_bucket};
use lsh_dedup_service::text::{chars_of, find_text, replace_text, same_text};

fn rec(id: &str, text: &str) -> Record {
    Record { id: id.to_string(), text: text.to_string() }
}

fn threshold(numerator: u64, denominator: u64) -> Threshold {
    Threshold { numerator, denominator }
}

/// The partition that the rows describe, as sets of record ids.
fn partition(rows: &[RecordResult]) -> BTreeSet<BTreeSet<String>> {
    let mut by_cluster: BTreeMap<String, BTreeSet<String>> = BTreeMap::new();
    for row in rows {
        by_cluster.entry(row.cluster_id.clone()).or_default().insert(row.id.clone());
    }
    by_cluster.into_values().collect()
}

fn set_of(ids: &[&str]) -> BTreeSet<String> {
    ids.iter().map(|s| s.to_string()).collect()
}

fn jaccard(x: &MinHash, y: &MinHash) -> f64 {
    let s = x.jaccard_similarity(y);
    s.matches as f64 / s.total as f64
}

#[test]
fn permute_hash_exact_values() {
    assert_eq!(permute_hash(3, 1u64 << 32, 0), 3);
    assert_eq!(permute_hash(2, u64::MAX, 0), 0xFFFF_FFFF);
    assert_eq!(permute_hash(1, u64::MAX, 1), 0);
    assert_eq!(permute_hash(5, 0, 7u64 << 32), 7);
}

#[test]
fn signature_length_matches_permutations() {
    for k in [1usize, 7, 128] {
        let perms = new_permutations(k).unwrap();
        assert_eq!(perms.len(), k);
        let m = MinHash::new(vec!["the", "quick", "fox"], &perms);
        assert_eq!(m.hash_values.len(), k);
    }
}

#[test]
fn empty_record_gives_sentinel_signature() {
    let perms = new_permutations(16).unwrap();
    let m = MinHash::new(vec![], &perms);
    assert_eq!(m.hash_values, vec![u32::MAX; 16]);
}

#[test]
fn signature_ignores_order_and_duplicates() {
    let perms = new_permutations(64).unwrap();
    let a = MinHash::new(vec!["a", "b", "c"], &perms);
    let b = MinHash::new(vec!["c", "a", "b", "a"], &perms);
    assert_eq!(a.hash_values, b.hash_values);
    let c = MinHash::new(vec!["x", "y", "z"], &perms);
    assert_ne!(a.hash_values, c.hash_values);
}

#[test]
fn signature_is_minimum_of_permuted_token_hashes() {
    let perms = vec![(1u64 << 32, 0u64), (0u64, 9u64 << 32)];
    let m = MinHash::new(vec!["only"], &perms);
    // With a = 2^32, b = 0 the value is the low half of the token hash; with
    // a = 0 it is the constant 9 whatever the token.
    assert_eq!(m.hash_values[1], 9);
    let two = MinHash::new(vec!["only", "other"], &perms);
    assert!(two.hash_values[0] <= m.hash_values[0]);
    assert_eq!(two.hash_values[1], 9);
}

#[test]
fn jaccard_self_symmetric_and_in_range() {
    let perms = new_permutations(128).unwrap();
    let x = MinHash::new(vec!["a", "b", "c", "d"], &perms);
    let y = MinHash::new(vec!["a", "b", "e", "f"], &perms);
    assert_eq!(jaccard(&x, &x), 1.0);
    assert_eq!(x.jaccard_similarity(&y), Similarity { matches: y.jaccard_similarity(&x).matches, total: 128 });
    let j = jaccard(&x, &y);
    assert!((0.0..=1.0).contains(&j));
}

#[test]
fn jaccard_estimation_is_unbiased() {
    // A = {t0..t9}, B = {t5..t14}: |A ∩ B| = 5, |A ∪ B| = 15, J* = 1/3.
    let a: Vec<String> = (0..10).map(|i| format!("t{i}")).collect();
    let b: Vec<String> = (5..15).map(|i| format!("t{i}")).collect();
    let num_perm = 64usize;
    let tables = 1024;
    let mut total = 0.0;
    for _ in 0..tables {
        let perms = new_permutations(num_perm).unwrap();
        let x = MinHash::new(a.iter().map(|s| s.as_str()).collect(), &perms);
        let y = MinHash::new(b.iter().map(|s| s.as_str()).collect(), &perms);
        total += jaccard(&x, &y);
    }
    let mean = total / tables as f64;
    assert!((mean - 1.0 / 3.0).abs() <= 3.0 / (num_perm as f64).sqrt());
}

#[test]
fn threshold_admits_exactly() {
    let t = threshold(3, 4);
    assert!(t.admits(Similarity { matches: 3, total: 4 }));
    assert!(t.admits(Similarity { matches: 4, total: 4 }));
    assert!(!t.admits(Similarity { matches: 2, total: 4 }));
    assert!(!threshold(0, 1).admits(Similarity { matches: 0, total: 0 }));
    assert!(threshold(0, 1).admits(Similarity { matches: 0, total: 5 }));
}

#[test]
fn band_divisibility_is_checked() {
    let records = vec![rec("1", "a b"), rec("2", "c d")];
    let err = MinHashLSH::new(&records, 10, 3).err().expect("10 is not a multiple of 3");
    assert_eq!(err.status, Status::BadRequest);
    assert!(MinHashLSH::new(&records, 10, 0).is_err());
    assert!(MinHashLSH::new(&records, 0, 5).is_err());
    assert!(MinHashLSH::new(&records, 10, 5).is_ok());
    assert!(!check_bands(10, 3));
    assert!(check_bands(128, 32));
}

#[test]
fn query_returns_self_and_near_duplicates() {
    let records = vec![
        rec("1", "the quick brown fox"),
        rec("2", "the quick brown fox"),
        rec("3", "lorem ipsum dolor sit"),
    ];
    let lsh = MinHashLSH::new(&records, 128, 32).unwrap();
    let mut found = lsh.query(&lsh.minhash_map[0], Some(threshold(9, 10)));
    found.sort();
    assert_eq!(found, vec![0, 1]);
    let found = lsh.query(&lsh.minhash_map[2], None);
    assert!(found.contains(&2));
    assert!(!found.contains(&0));
}

#[test]
fn identical_records_form_one_cluster() {
    let records = vec![
        rec("1", "the quick brown fox"),
        rec("2", "the quick brown fox"),
        rec("3", "the quick brown fox"),
    ];
    let rows = dedup_records(&records, 128, 32, threshold(9, 10)).unwrap();
    assert_eq!(partition(&rows), BTreeSet::from([set_of(&["1", "2", "3"])]));
    assert!(rows.iter().all(|r| r.cluster_id == "0-3"));
}

#[test]
fn disjoint_records_stay_singletons() {
    let records = vec![rec("1", "alpha beta"), rec("2", "gamma delta"), rec("3", "epsilon zeta")];
    let rows = dedup_records(&records, 128, 32, threshold(1, 2)).unwrap();
    assert_eq!(
        partition(&rows),
        BTreeSet::from([set_of(&["1"]), set_of(&["2"]), set_of(&["3"])])
    );
    assert_eq!(rows.len(), 3);
}

#[test]
fn transitive_merge_joins_chain() {
    let records = vec![rec("1", "a b c d e"), rec("2", "a b c d x"), rec("3", "a b c x y")];
    let rows = dedup_records(&records, 1024, 512, threshold(55, 100)).unwrap();
    assert_eq!(partition(&rows), BTreeSet::from([set_of(&["1", "2", "3"])]));
}

#[test]
fn empty_texts_collide() {
    let records = vec![rec("1", ""), rec("2", "")];
    let rows = dedup_records(&records, 16, 4, threshold(1, 1)).unwrap();
    assert_eq!(partition(&rows), BTreeSet::from([set_of(&["1", "2"])]));
    assert!(rows.iter().all(|r| r.cluster_id == "0-2"));
}

#[test]
fn partition_is_stable_across_permutation_tables() {
    let records = vec![
        rec("a", "one two three four five six"),
        rec("b", "one two three four five six"),
        rec("c", "seven eight nine ten eleven"),
        rec("d", "seven eight nine ten eleven"),
        rec("e", "twelve thirteen fourteen"),
    ];
    let first = dedup_records(&records, 256, 64, threshold(8, 10)).unwrap();
    let second = dedup_records(&records, 256, 64, threshold(8, 10)).unwrap();
    assert_eq!(partition(&first), partition(&second));
    assert_eq!(
        partition(&first),
        BTreeSet::from([set_of(&["a", "b"]), set_of(&["c", "d"]), set_of(&["e"])])
    );
}

#[test]
fn clusters_are_disjoint_and_cover_all_records() {
    let records = vec![
        rec("1", "red green blue"),
        rec("2", "red green blue"),
        rec("3", "cyan magenta yellow"),
        rec("4", "black white"),
    ];
    let rows = dedup_records(&records, 64, 16, threshold(1, 2)).unwrap();
    let ids: Vec<&str> = rows.iter().map(|r| r.id.as_str()).collect();
    let unique: BTreeSet<&str> = ids.iter().copied().collect();
    assert_eq!(ids.len(), unique.len());
    assert_eq!(unique, BTreeSet::from(["1", "2", "3", "4"]));
}

#[test]
fn cluster_ids_have_index_and_size() {
    let records = vec![
        rec("1", "red green blue"),
        rec("2", "red green blue"),
        rec("3", "cyan magenta yellow"),
    ];
    let rows = dedup_records(&records, 64, 16, threshold(1, 2)).unwrap();
    let mut counts: BTreeMap<String, usize> = BTreeMap::new();
    for row in &rows {
        *counts.entry(row.cluster_id.clone()).or_default() += 1;
    }
    for (label, count) in counts {
        let (index, size) = label.split_once('-').expect("a dash");
        assert!(!index.is_empty() && index.chars().all(|c| c.is_ascii_digit()));
        assert!(!size.is_empty() && size.chars().all(|c| c.is_ascii_digit()));
        assert_eq!(size.parse::<usize>().unwrap(), count);
    }
}

#[test]
fn bad_parameters_are_bad_requests() {
    let records = vec![rec("1", "a")];
    let err = dedup_records(&records, 10, 3, threshold(1, 2)).err().unwrap();
    assert_eq!(err.status, Status::BadRequest);
    let err = dedup_records(&records, 10, 5, threshold(3, 2)).err().unwrap();
    assert_eq!(err.status.code(), 400);
    assert!(dedup_records(&records, 10, 5, threshold(1, 0)).is_err());
}

#[test]
fn chain_of_results_merges_in_any_order() {
    let forward = vec![(0usize, vec![0usize, 1]), (1, vec![1, 2]), (2, vec![2])];
    let backward = vec![(2usize, vec![2usize]), (1, vec![1, 2]), (0, vec![0, 1])];
    for results in [forward, backward] {
        let table = DeduplicationTable::from_query_results(3, &results);
        let groups = table.grouped_ids();
        assert_eq!(groups, vec![vec![0, 1, 2]]);
    }
}

#[test]
fn merge_of_two_clusters_through_a_bridge() {
    let results = vec![
        (0usize, vec![0usize, 1]),
        (2, vec![2, 3]),
        (4, vec![4]),
        (1, vec![1, 3]),
    ];
    let table = DeduplicationTable::from_query_results(5, &results);
    let groups = table.grouped_ids();
    assert_eq!(groups.len(), 2);
    assert!(groups.contains(&vec![0, 1, 2, 3]));
    assert!(groups.contains(&vec![4]));
    assert_eq!(table.check_cluster_id(0), table.check_cluster_id(3));
    assert_ne!(table.check_cluster_id(0), table.check_cluster_id(4));
}

#[test]
fn unmentioned_records_have_no_cluster() {
    let mut table = DeduplicationTable::init(3);
    table.update(1, &vec![1]);
    assert_eq!(table.check_cluster_id(0), None);
    assert_eq!(table.check_cluster_id(1), Some(0));
    assert_eq!(table.grouped_ids(), vec![vec![1]]);
}

#[test]
fn clusterer_over_index_covers_every_record() {
    let records = vec![rec("1", "a b c"), rec("2", "a b c"), rec("3", "q r s")];
    let lsh = MinHashLSH::new(&records, 64, 16).unwrap();
    let table = DeduplicationTable::new(&lsh, Some(threshold(9, 10)));
    let mut groups = table.grouped_ids();
    groups.sort();
    assert_eq!(groups, vec![vec![0, 1], vec![2]]);
}

#[test]
fn emit_rows_numbers_clusters_in_order() {
    let records = vec![rec("x", ""), rec("y", ""), rec("z", "")];
    let rows = emit_rows(&records, &vec![vec![2], vec![0, 1]]);
    let got: Vec<(String, String)> = rows.into_iter().map(|r| (r.id, r.cluster_id)).collect();
    assert_eq!(
        got,
        vec![
            ("z".to_string(), "0-1".to_string()),
            ("x".to_string(), "1-2".to_string()),
            ("y".to_string(), "1-2".to_string()),
        ]
    );
}

#[test]
fn missing_text_column_is_bad_request() {
    let rows = vec![
        vec!["id".to_string(), "body".to_string()],
        vec!["1".to_string(), "hello".to_string()],
    ];
    let err = records_from_rows(&rows).err().unwrap();
    assert_eq!(err.status, Status::BadRequest);
    assert_eq!(err.status.code(), 400);
    assert_eq!(err.msg, "file must contain columns 'id' and 'text'");
    let err = parse_records(b"id,body\n1,hello\n").err().unwrap();
    assert_eq!(err.status.code(), 400);
    assert_eq!(err.msg, "file must contain columns 'id' and 'text'");
}

#[test]
fn csv_records_follow_header_columns() {
    let records = parse_records(b"extra,text,id\nq,hello world,7\nr,bye,8\n").unwrap();
    assert_eq!(records.len(), 2);
    assert_eq!(records[0].id, "7");
    assert_eq!(records[0].text, "hello world");
    assert_eq!(records[1].id, "8");
    assert_eq!(records[1].text, "bye");
    assert!(parse_records(b"").is_err());
    let none = parse_records(b"id,text\n").unwrap();
    assert!(none.is_empty());
}

#[test]
fn short_row_is_bad_request() {
    let rows = vec![vec!["id".to_string(), "text".to_string()], vec!["1".to_string()]];
    assert_eq!(records_from_rows(&rows).err().unwrap().status, Status::BadRequest);
}

#[test]
fn status_codes_round_trip() {
    for s in [
        Status::Success,
        Status::Accepted,
        Status::BadRequest,
        Status::InternalServerError,
        Status::GatewayTimeout,
    ] {
        assert_eq!(Status::from_code(s.code() as u64), Some(s));
    }
    assert_eq!(Status::GatewayTimeout.code(), 504);
    assert_eq!(Status::from_code(418), None);
}

#[test]
fn timed_out_message_maps_to_gateway_timeout() {
    assert_eq!(
        status_for_error_message("Task timed out after 900.00 seconds"),
        Status::GatewayTimeout
    );
    assert_eq!(status_for_error_message("out of memory"), Status::InternalServerError);
    assert_eq!(status_for_error_message("timed ou"), Status::InternalServerError);
}

#[test]
fn error_constructors_keep_message() {
    let e = ServiceError::bad_request("nope");
    assert_eq!((e.msg.as_str(), e.status), ("nope", Status::BadRequest));
    let e = ServiceError::internal_server_error("boom");
    assert_eq!(e.status.code(), 500);
    let e = ise("No 'responsePayload' object found");
    assert_eq!(e.msg, "No 'responsePayload' object found");
    assert_eq!(e.status, Status::InternalServerError);
}

#[test]
fn text_helpers() {
    assert_eq!(chars_of("héllo"), vec!['h', 'é', 'l', 'l', 'o']);
    assert!(same_text("id", "id"));
    assert!(!same_text("id", "ids"));
    assert!(find_text("abc timed out", "timed out"));
    assert!(find_text("x", ""));
    assert!(!find_text("", "x"));
}

#[test]
fn function_name_is_last_arn_segment() {
    assert_eq!(function_name("arn:aws:lambda:us-east-1:123456789012:function:dedup-callback"), "dedup-callback");
    assert_eq!(function_name("plain"), "plain");
    assert_eq!(function_name("trailing:"), "");
}

#[test]
fn api_key_ciphertext_decodes_base64() {
    assert_eq!(api_key_ciphertext(b"aGVsbG8=").unwrap(), b"hello".to_vec());
    let err = api_key_ciphertext(b"not base64!").err().unwrap();
    assert_eq!(err.status, Status::InternalServerError);
}

#[test]
fn recall_grows_with_band_count() {
    // {a, b, c} and {b, c, d} have Jaccard similarity 1/2.
    let records = vec![rec("1", "a b c"), rec("2", "b c d")];
    let trials = 300;
    let mut hits = Vec::new();
    for num_bands in [4usize, 16, 64] {
        let mut found = 0;
        for _ in 0..trials {
            let lsh = MinHashLSH::new(&records, 64, num_bands).unwrap();
            if lsh.query(&lsh.minhash_map[0], None).contains(&1) {
                found += 1;
            }
        }
        hits.push(found);
    }
    assert!(hits[0] <= hits[1] && hits[1] <= hits[2], "{hits:?}");
    assert!(hits[2] > trials * 9 / 10);
}

#[test]
fn unreadable_csv_is_internal_error() {
    let err = parse_records(b"id,text\n1,\xff\xfe\n").err().unwrap();
    assert_eq!(err.status, Status::InternalServerError);
    assert_eq!(err.status.code(), 500);
    let err = parse_records(b"id,text\n1,a\n2,b,c\n").err().unwrap();
    assert_eq!(err.status, Status::InternalServerError);
}

#[test]
fn cluster_label_joins_index_and_size() {
    assert_eq!(cluster_label(0, 3), "0-3");
    assert_eq!(cluster_label(12, 105), "12-105");
}

#[test]
fn only_ascii_whitespace_separates_tokens() {
    let perms = new_permutations(64).unwrap();
    let records = vec![rec("1", "a\u{a0}b"), rec("2", "a b"), rec("3", "a\t\n b\r")];
    let lsh = MinHashLSH::with_permutations(&records, &perms, 16).unwrap();
    assert_eq!(lsh.minhash_map[1].hash_values, lsh.minhash_map[2].hash_values);
    assert_ne!(lsh.minhash_map[0].hash_values, lsh.minhash_map[1].hash_values);
    assert_eq!(
        lsh.minhash_map[1].hash_values,
        MinHash::new(vec!["a", "b"], &perms).hash_values
    );
}

#[test]
fn output_bucket_replaces_input_segment() {
    assert_eq!(output_bucket("data/input/batch"), "data/output/batch");
    assert_eq!(output_bucket("plain"), "plain");
    assert_eq!(output_bucket("/input/input"), "/output/output");
    assert_eq!(replace_text("aaa", "aa", "b"), "ba");
}

#[test]
fn rows_encode_as_headerless_csv() {
    let rows = vec![
        RecordResult { id: "1".to_string(), cluster_id: "0-2".to_string() },
        RecordResult { id: "a,b".to_string(), cluster_id: "0-2".to_string() },
    ];
    let bytes = encode_rows(&rows).unwrap();
    assert_eq!(String::from_utf8(bytes).unwrap(), "1,0-2\n\"a,b\",0-2\n");
    assert!(encode_rows(&vec![]).unwrap().is_empty());
}
