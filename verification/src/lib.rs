//! Detection of inversions between paths of a pangenome variation graph.
//!
//! A path is a sequence of oriented segments, each encoded as a nonzero
//! `i32` whose absolute value is the segment identity and whose sign is the
//! strand.  The crate aligns a query path against a reference path with a
//! Smith-Waterman-style dynamic program over segments (length-weighted by a
//! segment-length map), reports maximal inverted regions, and converts
//! segment indices to base-pair coordinates.

use vstd::prelude::*;

pub mod align;
pub mod alignment_interface;
pub mod gfa;
pub mod lowmem;
pub mod matrix;

verus! {

/// Absolute value of a segment encoding, as a mathematical integer.
pub open spec fn abs_seg(s: i32) -> i32 {
    if s < 0 {
        (-(s as int)) as i32
    } else {
        s
    }
}

/// True when every segment of `p` has an entry in the length map `sl`.
pub open spec fn path_covered(p: Seq<i32>, sl: Map<i32, i32>) -> bool {
    forall|k: int| 0 <= k < p.len() ==> sl.dom().contains(#[trigger] abs_seg(p[k]))
}

/// True when every recorded segment length is at least one base pair.
pub open spec fn lengths_positive(sl: Map<i32, i32>) -> bool {
    forall|k: i32| sl.dom().contains(k) ==> #[trigger] sl[k] >= 1
}

/// Length in base pairs of the segment `s` under the map `sl`.
pub open spec fn seg_len_of(sl: Map<i32, i32>, s: i32) -> int {
    sl[abs_seg(s)] as int
}

/// Sum of the lengths of the first `k` segments of `p`.
pub open spec fn prefix_len(p: Seq<i32>, sl: Map<i32, i32>, k: int) -> int
    decreases k,
{
    if k <= 0 {
        0
    } else {
        prefix_len(p, sl, k - 1) + seg_len_of(sl, p[k - 1])
    }
}

/// Sum of the lengths of all segments of `p`.
pub open spec fn total_len(p: Seq<i32>, sl: Map<i32, i32>) -> int {
    prefix_len(p, sl, p.len() as int)
}

/// No segment is encoded as `i32::MIN`, so each has a representable
/// absolute value.
pub open spec fn entries_absable(p: Seq<i32>) -> bool {
    forall|k: int| 0 <= k < p.len() ==> p[k] != i32::MIN
}

/// Prefix length sums grow monotonically when all lengths are positive.
pub proof fn lemma_prefix_len_monotonic(p: Seq<i32>, sl: Map<i32, i32>, a: int, b: int)
    requires
        lengths_positive(sl),
        path_covered(p, sl),
        0 <= a <= b <= p.len(),
    ensures
        prefix_len(p, sl, a) <= prefix_len(p, sl, b),
    decreases b - a,
{
    if a < b {
        lemma_prefix_len_monotonic(p, sl, a, b - 1);
        assert(sl.dom().contains(abs_seg(p[b - 1])));
    }
}

/// Prefix length sums are nonnegative when all lengths are positive.
pub proof fn lemma_prefix_len_nonneg(p: Seq<i32>, sl: Map<i32, i32>, k: int)
    requires
        lengths_positive(sl),
        path_covered(p, sl),
        0 <= k <= p.len(),
    ensures
        k <= prefix_len(p, sl, k),
    decreases k,
{
    if k > 0 {
        lemma_prefix_len_nonneg(p, sl, k - 1);
        assert(sl.dom().contains(abs_seg(p[k - 1])));
    }
}

/// The maximum of two mathematical integers.
pub open spec fn max2(a: int, b: int) -> int {
    if a >= b {
        a
    } else {
        b
    }
}

/// The maximum of a four-entry score tuple.
pub open spec fn max4(a0: int, a1: int, a2: int, a3: int) -> int {
    max2(max2(a0, a1), max2(a2, a3))
}

/// Index of the maximum of a four-entry score tuple; ties break to the
/// lowest index.  The indices form the traceback alphabet: 0 starts a new
/// alignment, 1 comes from the diagonal, 2 from above, 3 from the left.
pub open spec fn argmax4(a0: int, a1: int, a2: int, a3: int) -> int {
    if a0 >= a1 && a0 >= a2 && a0 >= a3 {
        0
    } else if a1 >= a2 && a1 >= a3 {
        1
    } else if a2 >= a3 {
        2
    } else {
        3
    }
}

/// Find the maximum value in a list.
pub fn amax(a: &[i32]) -> (r: i32)
    requires
        a@.len() > 0,
    ensures
        exists|k: int| 0 <= k < a@.len() && a@[k] == r,
        forall|k: int| 0 <= k < a@.len() ==> a@[k] <= r,
{
    let mut m: i32 = a[0];
    let mut i: usize = 1;
    while i < a.len()
        invariant
            1 <= i <= a@.len(),
            exists|k: int| 0 <= k < i && a@[k] == m,
            forall|k: int| 0 <= k < i ==> a@[k] <= m,
        decreases a@.len() - i,
    {
        if a[i] > m {
            m = a[i];
        }
        i = i + 1;
    }
    m
}

/// Find the index of the maximum value in a list; ties break to the lowest
/// index.
pub fn argmax(a: &[i32]) -> (r: i32)
    requires
        0 < a@.len() <= i32::MAX,
    ensures
        0 <= r < a@.len(),
        forall|k: int| 0 <= k < a@.len() ==> a@[k] <= a@[r as int],
        forall|k: int| 0 <= k < r ==> a@[k] < a@[r as int],
{
    let mut best: usize = 0;
    let mut i: usize = 1;
    while i < a.len()
        invariant
            1 <= i <= a@.len(),
            0 <= best < i,
            forall|k: int| 0 <= k < i ==> a@[k] <= a@[best as int],
            forall|k: int| 0 <= k < best ==> a@[k] < a@[best as int],
        decreases a@.len() - i,
    {
        if a[i] > a[best] {
            best = i;
        }
        i = i + 1;
    }
    #[allow(clippy::unnecessary_cast)]
    let r = best as i32;
    r
}

/// An error surfaced by the inversion finder.
#[derive(Debug)]
pub enum InversionError {
    /// A malformed token or field in a GFA file; carries the offending text.
    GfaParse(String),
    /// A signed segment value in a path has no entry in the length map;
    /// carries the segment identity.
    SegmentNotFound(i32),
    /// A path name does not resolve; carries the name.
    PathNotFound(String),
}

} // verus!
