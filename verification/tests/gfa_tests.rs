use std::collections::HashMap;

use inversion_finder::gfa::{lookup_base_positions, parse_gfa_path, parse_segment_id};
use inversion_finder::InversionError;

#[test]
fn test_parse_gfa_path() {
    assert_eq!(
        parse_gfa_path("1-,2+,3-,235+").unwrap(),
        vec![-1, 2, -3, 235]
    );
    assert_eq!(parse_gfa_path("7+").unwrap(), vec![7]);
}

#[test]
#[should_panic]
fn test_parse_bad_gfa_path() {
    parse_gfa_path("1-,2+,3-,235").unwrap();
}

#[test]
fn test_parse_gfa_path_errors() {
    // a token missing its orientation sign is rejected, and the error
    // carries the first offending token
    match parse_gfa_path("1-,2+,3-,235") {
        Err(InversionError::GfaParse(tok)) => assert_eq!(tok, "235"),
        _ => panic!("expected a parse error"),
    }
    // empty tokens, stray characters, and overflowing values are rejected
    assert!(parse_gfa_path("").is_err());
    assert!(parse_gfa_path("1-,,2+").is_err());
    assert!(parse_gfa_path("a+").is_err());
    assert!(parse_gfa_path("+").is_err());
    assert!(parse_gfa_path("99999999999+").is_err());
    // the largest representable segment still parses
    assert_eq!(parse_gfa_path("2147483647-").unwrap(), vec![-2147483647]);
}

#[test]
fn test_parse_segment_id() {
    assert_eq!(parse_segment_id("42").unwrap(), 42);
    assert_eq!(parse_segment_id("-7").unwrap(), -7);
    assert_eq!(parse_segment_id("+8").unwrap(), 8);
    assert!(parse_segment_id("").is_err());
    assert!(parse_segment_id("-").is_err());
    assert!(parse_segment_id("12x").is_err());
    assert!(parse_segment_id("99999999999").is_err());
}

#[test]
fn test_lookup_base_positions() {
    let mut segment_lengths: HashMap<i32, i32> = HashMap::new();
    for i in 0..8 {
        segment_lengths.insert(i, 100);
    }
    let base_positions =
        lookup_base_positions(&[1, -2, 3, 4, 5, -6, -7], &segment_lengths, &[1, 3, 6]).unwrap();
    assert_eq!(base_positions.get(&1).unwrap(), &(101, 200));
    assert_eq!(base_positions.get(&3).unwrap(), &(301, 400));
    assert_eq!(base_positions.get(&6).unwrap(), &(601, 700));
    assert_eq!(base_positions.len(), 3);
}

#[test]
fn test_lookup_base_positions_uniform_rule() {
    // with k segments of length l, segment i spans i*l + 1 through
    // (i + 1)*l
    let mut segment_lengths: HashMap<i32, i32> = HashMap::new();
    for i in 0..5 {
        segment_lengths.insert(i, 25);
    }
    let path = [1, 2, 3, 4];
    let positions = lookup_base_positions(&path, &segment_lengths, &[0, 1, 2, 3]).unwrap();
    for i in 0..4i32 {
        assert_eq!(positions.get(&i).unwrap(), &(i * 25 + 1, (i + 1) * 25));
    }
}

#[test]
fn test_lookup_base_positions_mixed_lengths() {
    let segment_lengths: HashMap<i32, i32> = HashMap::from([(3, 5), (9, 2), (4, 11)]);
    let positions = lookup_base_positions(&[3, -9, 4], &segment_lengths, &[0, 1, 2]).unwrap();
    assert_eq!(positions.get(&0).unwrap(), &(1, 5));
    assert_eq!(positions.get(&1).unwrap(), &(6, 7));
    assert_eq!(positions.get(&2).unwrap(), &(8, 18));
}

#[test]
fn test_lookup_base_positions_missing_segment() {
    let segment_lengths: HashMap<i32, i32> = HashMap::from([(1, 10)]);
    let result = lookup_base_positions(&[1, 2], &segment_lengths, &[0]);
    assert!(matches!(result, Err(InversionError::SegmentNotFound(2))));
}
