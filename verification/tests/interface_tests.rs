use std::collections::HashMap;

use inversion_finder::alignment_interface::{
    align_all_queries, collate_inversions, AlignmentOptions,
};
use inversion_finder::{amax, argmax, InversionError};

fn default_options() -> AlignmentOptions {
    AlignmentOptions {
        max_highmem_path_length: 10000,
        max_lowmem_drop: 1000,
        max_path_length: 100000,
    }
}

fn uniform_lengths(upto: i32, len: i32) -> HashMap<i32, i32> {
    let mut segment_lengths: HashMap<i32, i32> = HashMap::new();
    for i in 0..upto {
        segment_lengths.insert(i, len);
    }
    segment_lengths
}

fn lengths_for(path1: &[i32], path2: &[i32], upto: i32) -> HashMap<i32, i32> {
    let mut segment_lengths: HashMap<i32, i32> = HashMap::new();
    for i in 0..upto {
        segment_lengths.insert(
            i,
            if (path1.contains(&i) || path1.contains(&(-i)))
                && (path2.contains(&i) || path2.contains(&(-i)))
            {
                100
            } else {
                10
            },
        );
    }
    segment_lengths
}

#[test]
fn test_amax_argmax() {
    assert_eq!(amax(&[2, 5, 3]), 5);
    assert_eq!(argmax(&[2, 5, 3]), 1);
    // ties break to the lowest index
    assert_eq!(argmax(&[1, 5, 5]), 1);
    assert_eq!(argmax(&[7, 7, 7]), 0);
    assert_eq!(amax(&[-3, -1, -2]), -1);
}

#[test]
fn test_align_all_queries() {
    let ref_path = vec![1, 2, 3, 4, 5, 6];
    let query_path = vec![1, -5, -7, -2, 6];
    let segment_lengths = lengths_for(&ref_path, &query_path, 10);
    let paths: Vec<(String, Vec<i32>)> = vec![
        (String::from("ref"), ref_path),
        (String::from("query"), query_path),
    ];
    let (inversions, keys) = align_all_queries(
        &segment_lengths,
        &paths,
        &[],
        "ref",
        default_options(),
    )
    .unwrap();
    assert_eq!(keys, vec![String::from("query")]);
    // the alignment spans reference indices 1 through 4; segments 1 and 2
    // are 100 bases, 3 and 4 are 10, 5 is 100, so it starts at base 101
    // and ends at base 320
    assert_eq!(inversions.len(), 1);
    assert_eq!(inversions[0].0, "query");
    assert_eq!(inversions[0].1, 101);
    assert_eq!(inversions[0].2, 320);
}

#[test]
fn test_align_all_queries_exclusion() {
    let segment_lengths = uniform_lengths(10, 100);
    let paths: Vec<(String, Vec<i32>)> = vec![
        (String::from("ref"), vec![1, 2, 3, 4, 5, 6]),
        (String::from("smp#one"), vec![1, -5, -7, -2, 6]),
        (String::from("other"), vec![1, -5, -7, -2, 6]),
    ];
    // excluding the sample part before '#' removes the first query, and
    // excluding a full name removes the second
    let (inversions, keys) = align_all_queries(
        &segment_lengths,
        &paths,
        &["smp", "other"],
        "ref",
        default_options(),
    )
    .unwrap();
    assert_eq!(keys.len(), 0);
    assert_eq!(inversions.len(), 0);

    let (_, keys2) = align_all_queries(
        &segment_lengths,
        &paths,
        &["smp"],
        "ref",
        default_options(),
    )
    .unwrap();
    assert_eq!(keys2, vec![String::from("other")]);
}

#[test]
fn test_align_all_queries_missing_reference() {
    let segment_lengths = uniform_lengths(10, 100);
    let paths: Vec<(String, Vec<i32>)> =
        vec![(String::from("query"), vec![1, 2])];
    let result = align_all_queries(
        &segment_lengths,
        &paths,
        &[],
        "ref",
        default_options(),
    );
    match result {
        Err(InversionError::PathNotFound(name)) => assert_eq!(name, "ref"),
        _ => panic!("expected a missing-reference error"),
    }
}

#[test]
fn test_collate_inversions() {
    let inversions: Vec<(String, i32, i32)> = vec![
        (String::from("a"), 101, 500),
        (String::from("b"), 101, 500),
        (String::from("a"), 701, 720),
        (String::from("b"), 51, 200),
    ];
    let keys = vec![String::from("a"), String::from("b")];

    let rows = collate_inversions(&inversions, &keys, 50);
    // (701, 720) is only 19 bases long and is filtered out
    assert_eq!(rows.len(), 2);
    assert_eq!(rows[0].0, 51);
    assert_eq!(rows[0].1, 200);
    assert_eq!(rows[0].2, vec![0u8, 1u8]);
    assert_eq!(rows[1].0, 101);
    assert_eq!(rows[1].1, 500);
    assert_eq!(rows[1].2, vec![1u8, 1u8]);

    let rows_all = collate_inversions(&inversions, &keys, 10);
    assert_eq!(rows_all.len(), 3);
    assert_eq!(rows_all[2].0, 701);
    assert_eq!(rows_all[2].1, 720);
    assert_eq!(rows_all[2].2, vec![1u8, 0u8]);
}

#[test]
fn test_collate_inversions_deduplicates() {
    let inversions: Vec<(String, i32, i32)> = vec![
        (String::from("a"), 1, 100),
        (String::from("a"), 1, 100),
    ];
    let keys = vec![String::from("a")];
    let rows = collate_inversions(&inversions, &keys, 0);
    assert_eq!(rows.len(), 1);
    assert_eq!(rows[0].0, 1);
    assert_eq!(rows[0].1, 100);
    assert_eq!(rows[0].2, vec![1u8]);
}
