use std::collections::HashMap;

use inversion_finder::align::{
    align_paths, align_paths_subproblem, create_matrices, reverse_complement, score_cell,
    traceback_cell,
};
use inversion_finder::InversionError;

fn lengths_for(path1: &[i32], path2: &[i32], upto: i32) -> HashMap<i32, i32> {
    let mut segment_lengths: HashMap<i32, i32> = HashMap::new();
    for i in 0..upto {
        segment_lengths.insert(
            i,
            if (path1.contains(&i) || path1.contains(&(-i)))
                && (path2.contains(&i) || path2.contains(&(-i)))
            {
                100
            } else {
                10
            },
        );
    }
    segment_lengths
}

#[test]
fn test_create_matrices() {
    let path1 = vec![2, 3, 4, -5];
    let path2 = vec![2, 7, -5];
    let segment_lengths: HashMap<i32, i32> =
        HashMap::from([(2, 100), (3, 10), (4, 10), (5, 100), (7, 10)]);
    let (score_matrix, traceback_matrix) = create_matrices(&path1, &path2, &segment_lengths);

    let expected_scores = [[100, 90, -10], [90, 0, 0], [80, 0, 0], [-20, 0, 0]];
    for (i, row) in expected_scores.iter().enumerate() {
        for (j, want) in row.iter().enumerate() {
            assert_eq!(score_cell(&score_matrix, i, j), *want);
        }
    }

    let expected_traceback = [[0, 3, 3], [2, 0, 0], [2, 0, 0], [2, 0, 0]];
    for (i, row) in expected_traceback.iter().enumerate() {
        for (j, want) in row.iter().enumerate() {
            assert_eq!(traceback_cell(&traceback_matrix, i, j), *want as i8);
        }
    }
}

#[test]
fn test_align_subproblem() {
    let path1: Vec<i32> = vec![2, 3, 4, -5, 6];
    let path2: Vec<i32> = vec![6, 2, 7, -5];
    let segment_lengths = lengths_for(&path1, &path2, 8);
    let alignment = align_paths_subproblem(&path1, &path2, &segment_lengths).unwrap();
    assert_eq!(alignment.alignment_path1, vec![2, 3, 4, -5]);
    assert_eq!(alignment.alignment_path2, vec![2, 7, -5]);
    assert_eq!(alignment.path1_start_index, 0);
    assert_eq!(alignment.path1_end_index, 3);
}

#[test]
fn test_align_paths() {
    let path1 = vec![1, 2, 3, 4, 5, 6];
    let path2 = vec![1, -5, -7, -2, 6];
    let segment_lengths = lengths_for(&path1, &path2, 10);

    let alignments1 = align_paths(&path1, &path2, &segment_lengths, 10000, 1000, 100000).unwrap();
    assert_eq!(alignments1[0].alignment_path1, vec![2, 3, 4, 5]);
    assert_eq!(alignments1[0].alignment_path2, vec![-5, -7, -2]);
    assert_eq!(alignments1[0].path1_start_index, 1);
    assert_eq!(alignments1[0].path1_end_index, 4);

    let path3 = vec![1, 2, 3, 4, 5, 6, 7];
    let path4 = vec![1, -3, -2, 4, -6, -5, 7];
    let alignments2 = align_paths(&path3, &path4, &segment_lengths, 10000, 1000, 100000).unwrap();
    assert_eq!(alignments2[0].alignment_path1, vec![2, 3]);
    assert_eq!(alignments2[0].alignment_path2, vec![-3, -2]);
    assert_eq!(alignments2[0].path1_start_index, 1);
    assert_eq!(alignments2[0].path1_end_index, 2);
    assert_eq!(alignments2[1].alignment_path1, vec![5, 6]);
    assert_eq!(alignments2[1].alignment_path2, vec![-6, -5]);
    assert_eq!(alignments2[1].path1_start_index, 4);
    assert_eq!(alignments2[1].path1_end_index, 5);

    let path5 = vec![1, 2, 3, 4, 5, 6, 7];
    let path6 = vec![1, -3, -2, 8, -6, -5, 7];
    let alignments3 = align_paths(&path5, &path6, &segment_lengths, 10000, 1000, 100000).unwrap();
    assert_eq!(alignments3[0].alignment_path1, vec![2, 3]);
    assert_eq!(alignments3[0].alignment_path2, vec![-3, -2]);
    assert_eq!(alignments3[0].path1_start_index, 1);
    assert_eq!(alignments3[0].path1_end_index, 2);
    assert_eq!(alignments3[1].alignment_path1, vec![5, 6]);
    assert_eq!(alignments3[1].alignment_path2, vec![-6, -5]);
    assert_eq!(alignments3[1].path1_start_index, 4);
    assert_eq!(alignments3[1].path1_end_index, 5);
}

#[test]
fn test_argmax_tie_breaks_to_first_cell() {
    // Two cells tie for the best score; the traceback must start at the
    // lexicographically smallest one, which is (0, 1) here.
    let path1 = vec![1, 2];
    let path2 = vec![2, 1];
    let mut segment_lengths: HashMap<i32, i32> = HashMap::new();
    segment_lengths.insert(1, 100);
    segment_lengths.insert(2, 100);
    let alignment = align_paths_subproblem(&path1, &path2, &segment_lengths).unwrap();
    assert_eq!(alignment.alignment_path1, vec![1]);
    assert_eq!(alignment.alignment_path2, vec![1]);
    assert_eq!(alignment.path1_start_index, 0);
    assert_eq!(alignment.path1_end_index, 0);
}

#[test]
fn test_oversize_subproblem_is_skipped() {
    // With a tiny maximum path length the only subproblem is skipped and
    // no alignment is reported, without an error.
    let path1 = vec![1, 2, 3, 4, 5, 6];
    let path2 = vec![1, -5, -7, -2, 6];
    let segment_lengths = lengths_for(&path1, &path2, 10);
    let alignments = align_paths(&path1, &path2, &segment_lengths, 1, 1000, 1).unwrap();
    assert_eq!(alignments.len(), 0);
}

#[test]
fn test_oversize_subproblem_is_skipped_at_scale() {
    // A fifty-segment inverted region is too large for either aligner
    // when the maximum path length is ten: its subproblem is skipped.
    // Later anchors re-trigger on the unused tail, so only a short tail
    // alignment is reported.  The default limits find the whole region.
    let mut path1: Vec<i32> = vec![100];
    let mut path2: Vec<i32> = vec![100];
    for i in 1..=50 {
        path1.push(i);
    }
    for i in (1..=50).rev() {
        path2.push(-i);
    }
    path1.push(101);
    path2.push(101);
    let mut segment_lengths: HashMap<i32, i32> = HashMap::new();
    for i in 1..=101 {
        segment_lengths.insert(i, 100);
    }
    let skipped = align_paths(&path1, &path2, &segment_lengths, 10, 1000, 10).unwrap();
    assert_eq!(skipped.len(), 1);
    assert_eq!(skipped[0].path1_start_index, 42);
    assert_eq!(skipped[0].path1_end_index, 50);
    assert_eq!(skipped[0].alignment_path1.len(), 9);
    let found = align_paths(&path1, &path2, &segment_lengths, 10000, 1000, 100000).unwrap();
    assert_eq!(found.len(), 1);
    assert_eq!(found[0].path1_start_index, 1);
    assert_eq!(found[0].path1_end_index, 50);
    assert_eq!(found[0].alignment_path1.len(), 50);
}

#[test]
fn test_align_subproblem_missing_segment() {
    let path1 = vec![2, 3];
    let path2 = vec![3, 2];
    let mut segment_lengths: HashMap<i32, i32> = HashMap::new();
    segment_lengths.insert(2, 100);
    let result = align_paths_subproblem(&path1, &path2, &segment_lengths);
    assert!(matches!(result, Err(InversionError::SegmentNotFound(3))));
}

#[test]
fn test_align_paths_missing_segment() {
    let path1 = vec![1, 2];
    let path2 = vec![-2, 9];
    let mut segment_lengths: HashMap<i32, i32> = HashMap::new();
    segment_lengths.insert(1, 100);
    segment_lengths.insert(2, 100);
    let result = align_paths(&path1, &path2, &segment_lengths, 10000, 1000, 100000);
    assert!(matches!(result, Err(InversionError::SegmentNotFound(9))));
}

#[test]
fn test_reverse_complement_round_trip() {
    let path = vec![1, -2, 3, -4, 5];
    let once = reverse_complement(&path);
    assert_eq!(once, vec![-5, 4, -3, 2, -1]);
    let twice = reverse_complement(&once);
    assert_eq!(twice, path);
}

#[test]
fn test_nested_candidate_regions() {
    // The first anchor's subproblem spans the whole reference, but its
    // best local alignment sits at the right end.  A later anchor then
    // cuts a smaller region to the left, so the second reported
    // alignment starts at a smaller reference index than the first.
    let path1 = vec![1, 2, 5, 6];
    let path2 = vec![-2, -6, -5, -9, -1];
    let mut segment_lengths: HashMap<i32, i32> = HashMap::new();
    for i in 0..10 {
        segment_lengths.insert(i, 100);
    }
    let alignments = align_paths(&path1, &path2, &segment_lengths, 10000, 1000, 100000).unwrap();
    assert_eq!(alignments.len(), 2);
    assert_eq!(alignments[0].alignment_path1, vec![5, 6]);
    assert_eq!(alignments[0].alignment_path2, vec![-6, -5]);
    assert_eq!(alignments[0].path1_start_index, 2);
    assert_eq!(alignments[0].path1_end_index, 3);
    assert_eq!(alignments[1].alignment_path1, vec![2]);
    assert_eq!(alignments[1].alignment_path2, vec![-2]);
    assert_eq!(alignments[1].path1_start_index, 1);
    assert_eq!(alignments[1].path1_end_index, 1);
}

#[test]
fn test_no_segment_reported_twice() {
    // Across one run every segment identity appears in at most one
    // alignment.
    let path1 = vec![1, 2, 3, 4, 5, 6, 7];
    let path2 = vec![1, -3, -2, 4, -6, -5, 7];
    let segment_lengths = lengths_for(&path1, &path2, 10);
    let alignments = align_paths(&path1, &path2, &segment_lengths, 10000, 1000, 100000).unwrap();
    let mut seen: Vec<i32> = Vec::new();
    for alignment in &alignments {
        for s in alignment
            .alignment_path1
            .iter()
            .chain(alignment.alignment_path2.iter())
        {
            let id = s.abs();
            assert!(!seen.contains(&id));
        }
        for s in alignment
            .alignment_path1
            .iter()
            .chain(alignment.alignment_path2.iter())
        {
            let id = s.abs();
            if !seen.contains(&id) {
                seen.push(id);
            }
        }
    }
}
