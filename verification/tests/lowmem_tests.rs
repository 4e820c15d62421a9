use std::collections::HashMap;

use inversion_finder::align::align_paths_subproblem;
use inversion_finder::lowmem::align_paths_subproblem_lowmem;
use inversion_finder::InversionError;

fn lengths_for(path1: &[i32], path2: &[i32], upto: i32) -> HashMap<i32, i32> {
    let mut segment_lengths: HashMap<i32, i32> = HashMap::new();
    for i in 0..upto {
        segment_lengths.insert(
            i,
            if (path1.contains(&i) || path1.contains(&(-i)))
                && (path2.contains(&i) || path2.contains(&(-i)))
            {
                100
            } else {
                10
            },
        );
    }
    segment_lengths
}

#[test]
fn test_align_subproblem_lowmem() {
    let path1 = vec![2, 3, 4, -5, 6];
    let path2 = vec![6, 2, 7, -5];
    let segment_lengths = lengths_for(&path1, &path2, 8);
    let alignment = align_paths_subproblem_lowmem(&path1, &path2, &segment_lengths, 100).unwrap();
    assert_eq!(alignment.alignment_path1, vec![2, 3, 4, -5]);
    assert_eq!(alignment.alignment_path2, vec![2, 7, -5]);
    assert_eq!(alignment.path1_start_index, 0);
    assert_eq!(alignment.path1_end_index, 3);
}

#[test]
fn test_banded_matches_full_when_drop_covers_paths() {
    // With a drop at least as large as the longer path, no cell is
    // outside the band, so both aligners return the same alignment.
    let cases: Vec<(Vec<i32>, Vec<i32>)> = vec![
        (vec![2, 3, 4, -5, 6], vec![6, 2, 7, -5]),
        (vec![1, 2, 3, 4, 5, 6], vec![6, 5, 4, 3, 2, 1]),
        (vec![1, -2, 3], vec![3, -2, 1, 9, 9]),
    ];
    for (path1, path2) in cases {
        let segment_lengths = lengths_for(&path1, &path2, 12);
        let drop = path1.len().max(path2.len());
        let full = align_paths_subproblem(&path1, &path2, &segment_lengths).unwrap();
        let banded =
            align_paths_subproblem_lowmem(&path1, &path2, &segment_lengths, drop).unwrap();
        assert_eq!(full.alignment_path1, banded.alignment_path1);
        assert_eq!(full.alignment_path2, banded.alignment_path2);
        assert_eq!(full.path1_start_index, banded.path1_start_index);
        assert_eq!(full.path1_end_index, banded.path1_end_index);
    }
}

#[test]
fn test_lowmem_missing_segment() {
    let path1 = vec![2, 3];
    let path2 = vec![3, 2];
    let mut segment_lengths: HashMap<i32, i32> = HashMap::new();
    segment_lengths.insert(3, 10);
    let result = align_paths_subproblem_lowmem(&path1, &path2, &segment_lengths, 10);
    assert!(matches!(result, Err(InversionError::SegmentNotFound(2))));
}
