//! Alignment of every non-reference query path against the reference,
//! and collation of the reported inversions into one table row per
//! distinct coordinate pair.

use std::collections::HashMap;
use vstd::prelude::*;
use vstd::string::StrSliceExecFns;

use crate::align::{
    align_paths, driver_alignment_from_some, driver_alignment_wf, first_anchor,
    first_subproblem_dispatchable, Alignment,
};
use crate::gfa::lookup_base_positions;
use crate::{
    entries_absable, lengths_positive, path_covered, prefix_len, seg_len_of, total_len,
    InversionError,
};

verus! {

broadcast use vstd::std_specs::hash::group_hash_axioms;

/// Tunable limits for the alignments.
pub struct AlignmentOptions {
    /// paths longer than this are aligned with the low-memory algorithm
    pub max_highmem_path_length: usize,

    /// maximum drop from the diagonal for the low-memory heuristic
    pub max_lowmem_drop: usize,

    /// maximum path length to align at all
    pub max_path_length: usize,
}

/// The position of the first `#` of `s`, or its length if there is none.
pub open spec fn first_hash(s: Seq<char>) -> int
    decreases s.len(),
{
    if s.len() == 0 {
        0
    } else if s[0] == '#' {
        0
    } else {
        1 + first_hash(s.drop_first())
    }
}

/// The sample part of a path name: everything before the first `#`.
pub open spec fn name_prefix(s: Seq<char>) -> Seq<char> {
    s.subrange(0, crate::max2(0, if first_hash(s) <= s.len() {
        first_hash(s)
    } else {
        s.len() as int
    }))
}

/// A query name is excluded when some excluded string equals the whole
/// name or its sample part.
pub open spec fn is_excluded(name: Seq<char>, excl: Seq<&str>) -> bool {
    exists|e: int|
        0 <= e < excl.len() && (#[trigger] excl[e]@ == name || excl[e]@ == name_prefix(name))
}

/// A path is aligned when it is not the reference and not excluded.
pub open spec fn is_selected(name: Seq<char>, excl: Seq<&str>, refk: Seq<char>) -> bool {
    name != refk && !is_excluded(name, excl)
}

/// The names of the paths that are aligned, in input order.
pub open spec fn selected_names(
    ps: Seq<(String, Vec<i32>)>,
    excl: Seq<&str>,
    refk: Seq<char>,
) -> Seq<Seq<char>>
    decreases ps.len(),
{
    if ps.len() == 0 {
        Seq::empty()
    } else {
        let rest = selected_names(ps.drop_first(), excl, refk);
        if is_selected(ps[0].0@, excl, refk) {
            seq![ps[0].0@] + rest
        } else {
            rest
        }
    }
}

/// The least index whose path carries the reference name, at or after
/// `i`, or `-1` if there is none.
pub open spec fn ref_index_of(ps: Seq<(String, Vec<i32>)>, refk: Seq<char>, i: int) -> int
    decreases ps.len() - i,
    when 0 <= i <= ps.len()
{
    if i >= ps.len() {
        -1
    } else if ps[i].0@ == refk {
        i
    } else {
        ref_index_of(ps, refk, i + 1)
    }
}

/// What the reference scan knows: the index found is the first carrying
/// the name, and a negative result means the name is absent.
proof fn lemma_ref_index_props(ps: Seq<(String, Vec<i32>)>, refk: Seq<char>, i: int)
    requires
        0 <= i <= ps.len(),
    ensures
        ref_index_of(ps, refk, i) == -1 ==> (forall|k: int|
            i <= k < ps.len() ==> (#[trigger] ps[k]).0@ != refk),
        ref_index_of(ps, refk, i) != -1 ==> i <= ref_index_of(ps, refk, i) < ps.len() && ps[
            ref_index_of(ps, refk, i)
        ].0@ == refk && (forall|k: int|
            i <= k < ref_index_of(ps, refk, i) ==> (#[trigger] ps[k]).0@ != refk),
    decreases ps.len() - i,
{
    if i < ps.len() && ps[i].0@ != refk {
        lemma_ref_index_props(ps, refk, i + 1);
    }
}

/// `ref_index_of` is characterized by what the reference scan computes.
proof fn lemma_ref_index_is(ps: Seq<(String, Vec<i32>)>, refk: Seq<char>, from: int, j: int)
    requires
        0 <= from <= j < ps.len(),
        forall|k: int| from <= k < j ==> (#[trigger] ps[k]).0@ != refk,
        ps[j].0@ == refk,
    ensures
        ref_index_of(ps, refk, from) == j,
    decreases j - from,
{
    if from < j {
        lemma_ref_index_is(ps, refk, from + 1, j);
    }
}

/// An inversion record is sound when some exactly-built alignment of the
/// reference against the query starts and ends at the reported one-based
/// base-pair coordinates.
pub open spec fn inversion_tuple_ok(
    sbp: int,
    ebp: int,
    refp: Seq<i32>,
    qp: Seq<i32>,
    sl: Map<i32, i32>,
    maxhm: int,
    drop: int,
) -> bool {
    exists|al: Alignment|
        {
            &&& #[trigger] driver_alignment_wf(al, refp, qp)
            &&& driver_alignment_from_some(al, refp, qp, sl, maxhm, drop)
            &&& sbp == prefix_len(refp, sl, al.path1_start_index as int) + 1
            &&& ebp == prefix_len(refp, sl, al.path1_end_index as int) + seg_len_of(
                sl,
                refp[al.path1_end_index as int],
            )
        }
}

/// One reported record per alignment of `als`, in order: each carries
/// the query name and its alignment's one-based base-pair coordinates on
/// the reference.
pub open spec fn records_of(
    recs: Seq<(String, i32, i32)>,
    name: Seq<char>,
    als: Seq<Alignment>,
    refp: Seq<i32>,
    sl: Map<i32, i32>,
) -> bool {
    &&& recs.len() == als.len()
    &&& forall|t: int|
        0 <= t < recs.len() ==> (#[trigger] recs[t]).0@ == name && recs[t].1 as int == prefix_len(
            refp,
            sl,
            als[t].path1_start_index as int,
        ) + 1 && recs[t].2 as int == prefix_len(refp, sl, als[t].path1_end_index as int)
            + seg_len_of(sl, refp[als[t].path1_end_index as int])
}

/// The full record list: the concatenation, over the paths from index
/// `qi` on, of one block per selected query, each block being the
/// records of an alignment list that satisfies the driver's enumeration
/// protocol against the reference path.
pub open spec fn inversions_ok(
    recs: Seq<(String, i32, i32)>,
    ps: Seq<(String, Vec<i32>)>,
    refp: Seq<i32>,
    excl: Seq<&str>,
    refk: Seq<char>,
    sl: Map<i32, i32>,
    maxhm: int,
    drop: int,
    maxpath: int,
    qi: int,
) -> bool
    decreases ps.len() - qi,
    when 0 <= qi <= ps.len()
{
    if qi >= ps.len() {
        recs.len() == 0
    } else if is_selected(ps[qi].0@, excl, refk) {
        exists|als: Seq<Alignment>|
            {
                &&& #[trigger] crate::align::driver_scan_ok(
                    als,
                    refp,
                    ps[qi].1@,
                    sl,
                    maxhm,
                    drop,
                    maxpath,
                    0,
                    0,
                )
                &&& als.len() <= recs.len()
                &&& records_of(recs.subrange(0, als.len() as int), ps[qi].0@, als, refp, sl)
                &&& inversions_ok(
                    recs.skip(als.len() as int),
                    ps,
                    refp,
                    excl,
                    refk,
                    sl,
                    maxhm,
                    drop,
                    maxpath,
                    qi + 1,
                )
            }
    } else {
        inversions_ok(recs, ps, refp, excl, refk, sl, maxhm, drop, maxpath, qi + 1)
    }
}

/// Character-by-character string equality.
fn str_eq(a: &str, b: &str) -> (r: bool)
    ensures
        r == (a@ == b@),
{
    let na: usize = a.unicode_len();
    let nb: usize = b.unicode_len();
    if na != nb {
        return false;
    }
    let mut k: usize = 0;
    while k < na
        invariant
            k <= na,
            na == a@.len(),
            na == b@.len(),
            forall|j: int| 0 <= j < k ==> a@[j] == b@[j],
        decreases na - k,
    {
        if a.get_char(k) != b.get_char(k) {
            return false;
        }
        k = k + 1;
    }
    proof {
        assert(a@ =~= b@);
    }
    true
}

/// The sample part of a path name: everything before the first `#`.
fn sample_prefix<'a>(name: &'a str) -> (r: &'a str)
    ensures
        r@ == name_prefix(name@),
{
    let n: usize = name.unicode_len();
    let mut h: usize = 0;
    while h < n && name.get_char(h) != '#'
        invariant
            0 <= h <= n,
            n == name@.len(),
            forall|k: int| 0 <= k < h ==> name@[k] != '#',
        decreases n - h,
    {
        h = h + 1;
    }
    proof {
        lemma_first_hash_is(name@, h as int);
    }
    name.substring_char(0, h)
}

/// `first_hash` is characterized by what the scan that computes it
/// knows.
proof fn lemma_first_hash_is(s: Seq<char>, h: int)
    requires
        0 <= h <= s.len(),
        forall|k: int| 0 <= k < h ==> s[k] != '#',
        h < s.len() ==> s[h] == '#',
    ensures
        first_hash(s) == h,
    decreases s.len(),
{
    if s.len() > 0 && h > 0 {
        assert forall|k: int| 0 <= k < h - 1 implies s.drop_first()[k] != '#' by {
            assert(s.drop_first()[k] == s[k + 1]);
        }
        lemma_first_hash_is(s.drop_first(), h - 1);
    }
}

/// True when the query name is excluded from alignment.
fn query_excluded(name: &str, paths_to_exclude: &[&str]) -> (r: bool)
    ensures
        r == is_excluded(name@, paths_to_exclude@),
{
    let prefix: &str = sample_prefix(name);
    let mut e: usize = 0;
    while e < paths_to_exclude.len()
        invariant
            e <= paths_to_exclude@.len(),
            prefix@ == name_prefix(name@),
            forall|j: int|
                0 <= j < e ==> !(#[trigger] paths_to_exclude@[j]@ == name@
                    || paths_to_exclude@[j]@ == name_prefix(name@)),
        decreases paths_to_exclude@.len() - e,
    {
        let x: &str = paths_to_exclude[e];
        if str_eq(x, name) || str_eq(x, prefix) {
            return true;
        }
        e = e + 1;
    }
    false
}

/// Align every non-reference path to the reference.
///
/// Returns the inversions as `(query name, start, end)` records in
/// one-based base-pair coordinates of the reference, grouped by query in
/// input order, together with the names of the queries that were
/// aligned.  Fails with `PathNotFound` when no path carries the
/// reference name, and propagates `SegmentNotFound` from the aligner.
#[verifier::rlimit(100)]
pub fn align_all_queries(
    segment_lengths: &HashMap<i32, i32>,
    paths: &Vec<(String, Vec<i32>)>,
    paths_to_exclude: &[&str],
    ref_path_key: &str,
    alignment_options: AlignmentOptions,
) -> (r: Result<(Vec<(String, i32, i32)>, Vec<String>), InversionError>)
    requires
        lengths_positive(segment_lengths@),
        forall|i: int|
            0 <= i < paths@.len() ==> 0 < (#[trigger] paths@[i]).1@.len() && entries_absable(
                paths@[i].1@,
            ),
        forall|i: int, j: int|
            0 <= i < paths@.len() && 0 <= j < paths@.len() ==> ((path_covered(
                (#[trigger] paths@[i]).1@,
                segment_lengths@,
            ) && path_covered((#[trigger] paths@[j]).1@, segment_lengths@)) ==> total_len(
                paths@[i].1@,
                segment_lengths@,
            ) + total_len(paths@[j].1@, segment_lengths@) <= i32::MAX),
        forall|i: int, j: int|
            0 <= i < paths@.len() && 0 <= j < paths@.len()
                ==> alignment_options.max_lowmem_drop as int + (#[trigger] paths@[i]).1@.len() + (
            #[trigger] paths@[j]).1@.len() <= usize::MAX,
    ensures
        r matches Err(e) ==> ((e matches InversionError::PathNotFound(nm) ==> nm@ == ref_path_key@
            && (forall|k: int| 0 <= k < paths@.len() ==> (#[trigger] paths@[k]).0@ != ref_path_key@))
            && (e matches InversionError::SegmentNotFound(id)
            ==> !segment_lengths@.dom().contains(id)) && (e is PathNotFound || e
            is SegmentNotFound)),
        (exists|k: int| 0 <= k < paths@.len() && (#[trigger] paths@[k]).0@ == ref_path_key@) ==> !(
        r matches Err(e) && e is PathNotFound),
        r is Ok <==> ref_index_of(paths@, ref_path_key@, 0) != -1 && (forall|q: int|
            0 <= q < paths@.len() && is_selected(
                (#[trigger] paths@[q]).0@,
                paths_to_exclude@,
                ref_path_key@,
            ) ==> path_covered(
                paths@[ref_index_of(paths@, ref_path_key@, 0)].1@,
                segment_lengths@,
            ) && path_covered(paths@[q].1@, segment_lengths@)),
        (forall|k: int| 0 <= k < paths@.len() ==> (#[trigger] paths@[k]).0@ != ref_path_key@)
            ==> (r matches Err(e) && e matches InversionError::PathNotFound(nm) && nm@
            == ref_path_key@),
        r matches Ok(out) ==> {
            &&& out.1@.len() == selected_names(paths@, paths_to_exclude@, ref_path_key@).len()
            &&& forall|k: int|
                0 <= k < out.1@.len() ==> (#[trigger] out.1@[k])@ == selected_names(
                    paths@,
                    paths_to_exclude@,
                    ref_path_key@,
                )[k]
            &&& exists|ri: int|
                0 <= ri < paths@.len() && (#[trigger] paths@[ri]).0@ == ref_path_key@ && (forall|
                    t: int,
                |
                    0 <= t < out.0@.len() ==> {
                        &&& is_selected((#[trigger] out.0@[t]).0@, paths_to_exclude@, ref_path_key@)
                        &&& exists|q: int|
                            0 <= q < paths@.len() && (#[trigger] paths@[q]).0@ == out.0@[t].0@
                                && inversion_tuple_ok(
                                out.0@[t].1 as int,
                                out.0@[t].2 as int,
                                paths@[ri].1@,
                                paths@[q].1@,
                                segment_lengths@,
                                alignment_options.max_highmem_path_length as int,
                                alignment_options.max_lowmem_drop as int,
                            )
                    }) && (forall|q: int|
                    0 <= q < paths@.len() && is_selected(
                        (#[trigger] paths@[q]).0@,
                        paths_to_exclude@,
                        ref_path_key@,
                    ) && first_anchor(paths@[ri].1@, paths@[q].1@, 0) != -1
                        && first_subproblem_dispatchable(
                        paths@[ri].1@,
                        paths@[q].1@,
                        alignment_options.max_highmem_path_length as int,
                        alignment_options.max_path_length as int,
                    ) ==> exists|t: int|
                        0 <= t < out.0@.len() && (#[trigger] out.0@[t]).0@ == paths@[q].0@)
                    && inversions_ok(
                    out.0@,
                    paths@,
                    paths@[ri].1@,
                    paths_to_exclude@,
                    ref_path_key@,
                    segment_lengths@,
                    alignment_options.max_highmem_path_length as int,
                    alignment_options.max_lowmem_drop as int,
                    alignment_options.max_path_length as int,
                    0,
                )
        },
{
    let ghost sl = segment_lengths@;
    let ghost excl = paths_to_exclude@;
    let ghost refk = ref_path_key@;

    // resolve the reference path
    let mut found: bool = false;
    let mut ri: usize = 0;
    while ri < paths.len() && !found
        invariant
            ri <= paths@.len(),
            forall|k: int| 0 <= k < ri ==> (#[trigger] paths@[k]).0@ != refk,
            found ==> ri < paths@.len() && paths@[ri as int].0@ == refk,
            ref_path_key@ == refk,
        decreases paths@.len() - ri + (if found {
            0int
        } else {
            1int
        }),
    {
        if str_eq(paths[ri].0.as_str(), ref_path_key) {
            found = true;
        } else {
            ri = ri + 1;
        }
    }
    if !found {
        proof {
            lemma_ref_index_props(paths@, refk, 0);
            if ref_index_of(paths@, refk, 0) != -1 {
                assert(paths@[ref_index_of(paths@, refk, 0)].0@ == refk);
                assert(false);
            }
        }
        return Err(InversionError::PathNotFound(ref_path_key.to_owned()));
    }
    let ref_index: usize = ri;
    proof {
        lemma_ref_index_is(paths@, refk, 0, ref_index as int);
    }

    let mut query_path_keys: Vec<String> = Vec::new();
    let mut inversions: Vec<(String, i32, i32)> = Vec::new();
    proof {
        assert(paths@.skip(0) =~= paths@);
        assert(query_path_keys@.map_values(|s: String| s@) =~= Seq::<Seq<char>>::empty());
        assert forall|tail: Seq<(String, i32, i32)>|
            inversions_ok(
                tail,
                paths@,
                paths@[ref_index as int].1@,
                excl,
                refk,
                sl,
                alignment_options.max_highmem_path_length as int,
                alignment_options.max_lowmem_drop as int,
                alignment_options.max_path_length as int,
                0,
            ) implies inversions_ok(
            inversions@ + tail,
            paths@,
            paths@[ref_index as int].1@,
            excl,
            refk,
            sl,
            alignment_options.max_highmem_path_length as int,
            alignment_options.max_lowmem_drop as int,
            alignment_options.max_path_length as int,
            0,
        ) by {
            assert(inversions@ + tail =~= tail);
        }
    }

    let mut qi: usize = 0;
    while qi < paths.len()
        invariant
            qi <= paths@.len(),
            ref_path_key@ == refk,
            paths_to_exclude@ == excl,
            segment_lengths@ == sl,
            lengths_positive(sl),
            ref_index < paths@.len(),
            paths@[ref_index as int].0@ == refk,
            ref_index_of(paths@, refk, 0) == ref_index as int,
            forall|q: int|
                0 <= q < qi && is_selected((#[trigger] paths@[q]).0@, excl, refk)
                    ==> path_covered(paths@[ref_index as int].1@, sl) && path_covered(
                    paths@[q].1@,
                    sl,
                ),
            forall|i: int|
                0 <= i < paths@.len() ==> 0 < (#[trigger] paths@[i]).1@.len() && entries_absable(
                    paths@[i].1@,
                ),
            forall|i: int, j: int|
                0 <= i < paths@.len() && 0 <= j < paths@.len() ==> ((path_covered(
                    (#[trigger] paths@[i]).1@,
                    sl,
                ) && path_covered((#[trigger] paths@[j]).1@, sl)) ==> total_len(paths@[i].1@, sl)
                    + total_len(paths@[j].1@, sl) <= i32::MAX),
            forall|i: int, j: int|
                0 <= i < paths@.len() && 0 <= j < paths@.len()
                    ==> alignment_options.max_lowmem_drop as int + (
                #[trigger] paths@[i]).1@.len() + (#[trigger] paths@[j]).1@.len() <= usize::MAX,
            selected_names(paths@, excl, refk) == query_path_keys@.map_values(|s: String| s@)
                + selected_names(paths@.skip(qi as int), excl, refk),
            forall|t: int|
                0 <= t < inversions@.len() ==> {
                    &&& is_selected((#[trigger] inversions@[t]).0@, excl, refk)
                    &&& exists|q: int|
                        0 <= q < paths@.len() && (#[trigger] paths@[q]).0@ == inversions@[t].0@
                            && inversion_tuple_ok(
                            inversions@[t].1 as int,
                            inversions@[t].2 as int,
                            paths@[ref_index as int].1@,
                            paths@[q].1@,
                            sl,
                            alignment_options.max_highmem_path_length as int,
                            alignment_options.max_lowmem_drop as int,
                        )
                },
            forall|q: int|
                0 <= q < qi && is_selected((#[trigger] paths@[q]).0@, excl, refk) && first_anchor(
                    paths@[ref_index as int].1@,
                    paths@[q].1@,
                    0,
                ) != -1 && first_subproblem_dispatchable(
                    paths@[ref_index as int].1@,
                    paths@[q].1@,
                    alignment_options.max_highmem_path_length as int,
                    alignment_options.max_path_length as int,
                ) ==> exists|t: int|
                    0 <= t < inversions@.len() && (#[trigger] inversions@[t]).0@
                        == paths@[q].0@,
            forall|tail: Seq<(String, i32, i32)>|
                #![trigger inversions_ok(
                    tail,
                    paths@,
                    paths@[ref_index as int].1@,
                    excl,
                    refk,
                    sl,
                    alignment_options.max_highmem_path_length as int,
                    alignment_options.max_lowmem_drop as int,
                    alignment_options.max_path_length as int,
                    qi as int,
                )]
                inversions_ok(
                    tail,
                    paths@,
                    paths@[ref_index as int].1@,
                    excl,
                    refk,
                    sl,
                    alignment_options.max_highmem_path_length as int,
                    alignment_options.max_lowmem_drop as int,
                    alignment_options.max_path_length as int,
                    qi as int,
                ) ==> inversions_ok(
                    inversions@ + tail,
                    paths@,
                    paths@[ref_index as int].1@,
                    excl,
                    refk,
                    sl,
                    alignment_options.max_highmem_path_length as int,
                    alignment_options.max_lowmem_drop as int,
                    alignment_options.max_path_length as int,
                    0,
                ),
        decreases paths@.len() - qi,
    {
        proof {
            assert(paths@.skip(qi as int).drop_first() =~= paths@.skip(qi + 1));
            assert(paths@.skip(qi as int)[0] == paths@[qi as int]);
        }
        let query_path_key: &String = &paths[qi].0;
        let selected: bool = !str_eq(query_path_key.as_str(), ref_path_key) && !query_excluded(
            query_path_key.as_str(),
            paths_to_exclude,
        );
        if selected {
            query_path_keys.push(query_path_key.clone());
            proof {
                assert(selected_names(paths@, excl, refk) =~= query_path_keys@.map_values(
                    |s: String| s@,
                ) + selected_names(paths@.skip(qi + 1), excl, refk));
            }
            let ref_path: &Vec<i32> = &paths[ref_index].1;
            let query_path: &Vec<i32> = &paths[qi].1;
            let alignments: Vec<Alignment> = match align_paths(
                ref_path.as_slice(),
                query_path.as_slice(),
                segment_lengths,
                alignment_options.max_highmem_path_length,
                alignment_options.max_lowmem_drop,
                alignment_options.max_path_length,
            ) {
                Ok(a) => a,
                Err(e) => {
                    return Err(e);
                },
            };

            // make a list of segments whose positions we need
            let mut segments_to_lookup: Vec<i32> = Vec::new();
            let mut ai: usize = 0;
            while ai < alignments.len()
                invariant
                    ai <= alignments@.len(),
                    forall|k: int|
                        0 <= k < alignments@.len() ==> driver_alignment_wf(
                            #[trigger] alignments@[k],
                            paths@[ref_index as int].1@,
                            paths@[qi as int].1@,
                        ),
                    forall|k: int|
                        0 <= k < ai ==> segments_to_lookup@.contains(
                            (#[trigger] alignments@[k]).path1_start_index,
                        ) && segments_to_lookup@.contains(alignments@[k].path1_end_index),
                decreases alignments@.len() - ai,
            {
                let ghost pre = segments_to_lookup@;
                segments_to_lookup.push(alignments[ai].path1_start_index);
                segments_to_lookup.push(alignments[ai].path1_end_index);
                proof {
                    assert forall|k: int|
                        0 <= k < ai + 1 implies segments_to_lookup@.contains(
                        (#[trigger] alignments@[k]).path1_start_index,
                    ) && segments_to_lookup@.contains(alignments@[k].path1_end_index) by {
                        if k < ai {
                            let i1 = choose|i1: int|
                                0 <= i1 < pre.len() && pre[i1]
                                    == alignments@[k].path1_start_index;
                            assert(segments_to_lookup@[i1] == alignments@[k].path1_start_index);
                            let i2 = choose|i2: int|
                                0 <= i2 < pre.len() && pre[i2] == alignments@[k].path1_end_index;
                            assert(segments_to_lookup@[i2] == alignments@[k].path1_end_index);
                        } else {
                            assert(segments_to_lookup@[pre.len() as int]
                                == alignments@[k].path1_start_index);
                            assert(segments_to_lookup@[pre.len() as int + 1]
                                == alignments@[k].path1_end_index);
                        }
                    }
                }
                ai = ai + 1;
            }

            let base_positions: HashMap<i32, (i32, i32)> = match lookup_base_positions(
                ref_path.as_slice(),
                segment_lengths,
                segments_to_lookup.as_slice(),
            ) {
                Ok(m) => m,
                Err(e) => {
                    proof {
                        assert(path_covered(paths@[ref_index as int].1@, sl));
                        assert(false);
                    }
                    return Err(e);
                },
            };

            proof {
                crate::lemma_prefix_len_nonneg(
                    paths@[qi as int].1@,
                    sl,
                    paths@[qi as int].1@.len() as int,
                );
            }
            let ghost inversions_pre = inversions@;
            let mut bi: usize = 0;
            while bi < alignments.len()
                invariant
                    bi <= alignments@.len(),
                    inversions@.len() == inversions_pre.len() + bi,
                    forall|t: int|
                        0 <= t < inversions_pre.len() ==> #[trigger] inversions@[t]
                            == inversions_pre[t],
                    forall|t: int|
                        inversions_pre.len() <= t < inversions@.len()
                            ==> (#[trigger] inversions@[t]).0@ == paths@[qi as int].0@,
                    forall|t: int|
                        inversions_pre.len() <= t < inversions@.len()
                            ==> (#[trigger] inversions@[t]).1 as int == prefix_len(
                            paths@[ref_index as int].1@,
                            sl,
                            alignments@[t - inversions_pre.len()].path1_start_index as int,
                        ) + 1 && inversions@[t].2 as int == prefix_len(
                            paths@[ref_index as int].1@,
                            sl,
                            alignments@[t - inversions_pre.len()].path1_end_index as int,
                        ) + seg_len_of(
                            sl,
                            paths@[ref_index as int].1@[alignments@[t
                                - inversions_pre.len()].path1_end_index as int],
                        ),
                    segment_lengths@ == sl,
                    lengths_positive(sl),
                    path_covered(paths@[ref_index as int].1@, sl),
                    entries_absable(paths@[ref_index as int].1@),
                    0 < paths@[ref_index as int].1@.len(),
                    total_len(paths@[ref_index as int].1@, sl) <= i32::MAX,
                    ref_index < paths@.len(),
                    qi < paths@.len(),
                    ref_path_key@ == refk,
                    paths_to_exclude@ == excl,
                    is_selected(paths@[qi as int].0@, excl, refk),
                    forall|k: int|
                        0 <= k < alignments@.len() ==> driver_alignment_wf(
                            #[trigger] alignments@[k],
                            paths@[ref_index as int].1@,
                            paths@[qi as int].1@,
                        ),
                    forall|k: int|
                        0 <= k < alignments@.len() ==> #[trigger] driver_alignment_from_some(
                            alignments@[k],
                            paths@[ref_index as int].1@,
                            paths@[qi as int].1@,
                            sl,
                            alignment_options.max_highmem_path_length as int,
                            alignment_options.max_lowmem_drop as int,
                        ),
                    forall|i: i32|
                        #[trigger] base_positions@.contains_key(i) <==> (0 <= i
                            < paths@[ref_index as int].1@.len() && segments_to_lookup@.contains(
                            i,
                        )),
                    forall|i: i32|
                        base_positions@.contains_key(i) ==> #[trigger] base_positions@[i] == (
                            ((prefix_len(paths@[ref_index as int].1@, sl, i as int) + 1) as i32),
                            ((prefix_len(paths@[ref_index as int].1@, sl, i as int) + seg_len_of(
                                sl,
                                paths@[ref_index as int].1@[i as int],
                            )) as i32),
                        ),
                    forall|k: int|
                        0 <= k < alignments@.len() ==> segments_to_lookup@.contains(
                            (#[trigger] alignments@[k]).path1_start_index,
                        ) && segments_to_lookup@.contains(alignments@[k].path1_end_index),
                    forall|t: int|
                        0 <= t < inversions@.len() ==> {
                            &&& is_selected((#[trigger] inversions@[t]).0@, excl, refk)
                            &&& exists|q: int|
                                0 <= q < paths@.len() && (#[trigger] paths@[q]).0@
                                    == inversions@[t].0@ && inversion_tuple_ok(
                                    inversions@[t].1 as int,
                                    inversions@[t].2 as int,
                                    paths@[ref_index as int].1@,
                                    paths@[q].1@,
                                    sl,
                                    alignment_options.max_highmem_path_length as int,
                                    alignment_options.max_lowmem_drop as int,
                                )
                        },
                decreases alignments@.len() - bi,
            {
                let start_idx: i32 = alignments[bi].path1_start_index;
                let end_idx: i32 = alignments[bi].path1_end_index;
                let start_position: i32 = match base_positions.get(&start_idx) {
                    Some(p) => p.0,
                    None => vstd::pervasive::unreached(),
                };
                let end_position: i32 = match base_positions.get(&end_idx) {
                    Some(p) => p.1,
                    None => vstd::pervasive::unreached(),
                };
                let name: String = paths[qi].0.clone();
                proof {
                    let refp = paths@[ref_index as int].1@;
                    let al = alignments@[bi as int];
                    assert(driver_alignment_wf(al, refp, paths@[qi as int].1@));
                    crate::lemma_prefix_len_nonneg(refp, sl, al.path1_start_index as int);
                    crate::lemma_prefix_len_nonneg(refp, sl, al.path1_end_index as int);
                    assert(prefix_len(refp, sl, al.path1_start_index + 1) == prefix_len(
                        refp,
                        sl,
                        al.path1_start_index as int,
                    ) + seg_len_of(sl, refp[al.path1_start_index as int]));
                    assert(prefix_len(refp, sl, al.path1_end_index + 1) == prefix_len(
                        refp,
                        sl,
                        al.path1_end_index as int,
                    ) + seg_len_of(sl, refp[al.path1_end_index as int]));
                    crate::lemma_prefix_len_monotonic(
                        refp,
                        sl,
                        al.path1_start_index + 1,
                        refp.len() as int,
                    );
                    crate::lemma_prefix_len_monotonic(
                        refp,
                        sl,
                        al.path1_end_index + 1,
                        refp.len() as int,
                    );
                }
                inversions.push((name, start_position, end_position));
                proof {
                    let t = inversions@.len() - 1;
                    let refp = paths@[ref_index as int].1@;
                    let al = alignments@[bi as int];
                    assert(inversions@[t].0@ == paths@[qi as int].0@);
                    assert(driver_alignment_wf(al, refp, paths@[qi as int].1@));
                    assert(inversions@[t].1 as int == prefix_len(
                        refp,
                        sl,
                        al.path1_start_index as int,
                    ) + 1);
                    assert(inversions@[t].2 as int == prefix_len(
                        refp,
                        sl,
                        al.path1_end_index as int,
                    ) + seg_len_of(sl, refp[al.path1_end_index as int]));
                    assert(inversion_tuple_ok(
                        inversions@[t].1 as int,
                        inversions@[t].2 as int,
                        refp,
                        paths@[qi as int].1@,
                        sl,
                        alignment_options.max_highmem_path_length as int,
                        alignment_options.max_lowmem_drop as int,
                    ));
                }
                bi = bi + 1;
            }
            proof {
                if first_anchor(paths@[ref_index as int].1@, paths@[qi as int].1@, 0) != -1
                    && first_subproblem_dispatchable(
                    paths@[ref_index as int].1@,
                    paths@[qi as int].1@,
                    alignment_options.max_highmem_path_length as int,
                    alignment_options.max_path_length as int,
                ) {
                    assert(alignments@.len() > 0);
                    assert((inversions@[inversions_pre.len() as int]).0@
                        == paths@[qi as int].0@);
                }
                assert forall|q: int|
                    0 <= q < qi + 1 && is_selected((#[trigger] paths@[q]).0@, excl, refk)
                        && first_anchor(paths@[ref_index as int].1@, paths@[q].1@, 0) != -1
                        && first_subproblem_dispatchable(
                        paths@[ref_index as int].1@,
                        paths@[q].1@,
                        alignment_options.max_highmem_path_length as int,
                        alignment_options.max_path_length as int,
                    ) implies exists|t: int|
                    0 <= t < inversions@.len() && (#[trigger] inversions@[t]).0@
                        == paths@[q].0@ by {
                    if q < qi {
                        let t = choose|t: int|
                            0 <= t < inversions_pre.len() && (#[trigger] inversions_pre[t]).0@
                                == paths@[q].0@;
                        assert((inversions@[t]).0@ == paths@[q].0@);
                    }
                }
                // one selected block of the record-list fold
                let refp = paths@[ref_index as int].1@;
                let maxhm = alignment_options.max_highmem_path_length as int;
                let dropv = alignment_options.max_lowmem_drop as int;
                let maxpath = alignment_options.max_path_length as int;
                let block = inversions@.skip(inversions_pre.len() as int);
                assert(block.len() == alignments@.len());
                assert forall|tail: Seq<(String, i32, i32)>|
                    inversions_ok(
                        tail,
                        paths@,
                        refp,
                        excl,
                        refk,
                        sl,
                        maxhm,
                        dropv,
                        maxpath,
                        qi + 1,
                    ) implies inversions_ok(
                    inversions@ + tail,
                    paths@,
                    refp,
                    excl,
                    refk,
                    sl,
                    maxhm,
                    dropv,
                    maxpath,
                    0,
                ) by {
                    assert(records_of((block + tail).subrange(0, alignments@.len() as int),
                        paths@[qi as int].0@, alignments@, refp, sl)) by {
                        assert forall|t: int|
                            0 <= t < alignments@.len() implies ((block + tail).subrange(
                            0,
                            alignments@.len() as int,
                        )[t]).0@ == paths@[qi as int].0@ && #[trigger] ((block + tail).subrange(
                            0,
                            alignments@.len() as int,
                        )[t]).1 as int == prefix_len(refp, sl, alignments@[t].path1_start_index as int)
                            + 1 && ((block + tail).subrange(0, alignments@.len() as int)[t]).2 as int
                            == prefix_len(refp, sl, alignments@[t].path1_end_index as int)
                            + seg_len_of(sl, refp[alignments@[t].path1_end_index as int]) by {
                            assert((block + tail).subrange(0, alignments@.len() as int)[t]
                                == inversions@[inversions_pre.len() + t]);
                        }
                    }
                    assert((block + tail).skip(alignments@.len() as int) =~= tail);
                    assert(inversions_ok(
                        block + tail,
                        paths@,
                        refp,
                        excl,
                        refk,
                        sl,
                        maxhm,
                        dropv,
                        maxpath,
                        qi as int,
                    ));
                    assert(inversions_pre + (block + tail) =~= inversions@ + tail);
                    assert(inversions_ok(
                        inversions_pre + (block + tail),
                        paths@,
                        refp,
                        excl,
                        refk,
                        sl,
                        maxhm,
                        dropv,
                        maxpath,
                        0,
                    ));
                }
            }
        } else {
            proof {
                assert(selected_names(paths@, excl, refk) =~= query_path_keys@.map_values(
                    |s: String| s@,
                ) + selected_names(paths@.skip(qi + 1), excl, refk));
                let refp = paths@[ref_index as int].1@;
                let maxhm = alignment_options.max_highmem_path_length as int;
                let dropv = alignment_options.max_lowmem_drop as int;
                let maxpath = alignment_options.max_path_length as int;
                assert forall|tail: Seq<(String, i32, i32)>|
                    inversions_ok(
                        tail,
                        paths@,
                        refp,
                        excl,
                        refk,
                        sl,
                        maxhm,
                        dropv,
                        maxpath,
                        qi + 1,
                    ) implies inversions_ok(
                    inversions@ + tail,
                    paths@,
                    refp,
                    excl,
                    refk,
                    sl,
                    maxhm,
                    dropv,
                    maxpath,
                    0,
                ) by {
                    assert(inversions_ok(
                        tail,
                        paths@,
                        refp,
                        excl,
                        refk,
                        sl,
                        maxhm,
                        dropv,
                        maxpath,
                        qi as int,
                    ));
                }
            }
        }
        qi = qi + 1;
    }
    proof {
        assert(paths@.skip(paths@.len() as int) =~= Seq::<(String, Vec<i32>)>::empty());
        assert(selected_names(paths@, excl, refk) =~= query_path_keys@.map_values(
            |s: String| s@,
        ));
        let refp = paths@[ref_index as int].1@;
        let maxhm = alignment_options.max_highmem_path_length as int;
        let dropv = alignment_options.max_lowmem_drop as int;
        let maxpath = alignment_options.max_path_length as int;
        let nothing = Seq::<(String, i32, i32)>::empty();
        assert(inversions_ok(
            nothing,
            paths@,
            refp,
            excl,
            refk,
            sl,
            maxhm,
            dropv,
            maxpath,
            paths@.len() as int,
        ));
        assert(inversions_ok(
            inversions@ + nothing,
            paths@,
            refp,
            excl,
            refk,
            sl,
            maxhm,
            dropv,
            maxpath,
            0,
        ));
        assert(inversions@ + nothing =~= inversions@);
    }
    Ok((inversions, query_path_keys))
}

/// The coordinate pair `(s, e)` is reported by some inversion record.
pub open spec fn pair_reported(inversions: Seq<(String, i32, i32)>, s: i32, e: i32) -> bool {
    exists|t: int|
        0 <= t < inversions.len() && (#[trigger] inversions[t]).1 == s && inversions[t].2 == e
}

/// The coordinate pair `(s, e)` occurs in the list `ps`.
pub open spec fn pair_in(ps: Seq<(i32, i32)>, s: i32, e: i32) -> bool {
    exists|j: int| 0 <= j < ps.len() && (#[trigger] ps[j]).0 == s && ps[j].1 == e
}

/// The query named `q` reports the coordinate pair `(s, e)`.
pub open spec fn query_reports(
    inversions: Seq<(String, i32, i32)>,
    q: Seq<char>,
    s: i32,
    e: i32,
) -> bool {
    exists|t: int|
        0 <= t < inversions.len() && (#[trigger] inversions[t]).0@ == q && inversions[t].1 == s
            && inversions[t].2 == e
}

/// Collate inversions from the different queries into table rows.
///
/// Each distinct `(start, end)` coordinate pair whose length is at least
/// `min_inversion_length` becomes one row `(start, end, calls)`, the
/// rows sorted by start position, where `calls` holds a `1` for each
/// query that reported the pair and a `0` for each that did not.
#[verifier::rlimit(100)]
pub fn collate_inversions(
    inversions: &[(String, i32, i32)],
    query_path_keys: &[String],
    min_inversion_length: i32,
) -> (rows: Vec<(i32, i32, Vec<u8>)>)
    requires
        forall|t: int|
            0 <= t < inversions@.len() ==> (#[trigger] inversions@[t]).1 >= 0
                && inversions@[t].2 >= 0,
    ensures
        forall|r: int|
            0 <= r < rows@.len() ==> (#[trigger] rows@[r]).1 - rows@[r].0
                >= min_inversion_length,
        forall|r: int|
            0 <= r < rows@.len() ==> pair_reported(
                inversions@,
                (#[trigger] rows@[r]).0,
                rows@[r].1,
            ),
        forall|s: i32, e: i32|
            #[trigger] pair_reported(inversions@, s, e) && e - s >= min_inversion_length
                ==> exists|r: int|
                0 <= r < rows@.len() && (#[trigger] rows@[r]).0 == s && rows@[r].1 == e,
        forall|r1: int, r2: int|
            0 <= r1 < r2 < rows@.len() ==> !((#[trigger] rows@[r1]).0 == (
            #[trigger] rows@[r2]).0 && rows@[r1].1 == rows@[r2].1),
        forall|r1: int, r2: int|
            0 <= r1 < r2 < rows@.len() ==> (#[trigger] rows@[r1]).0 <= (#[trigger] rows@[r2]).0,
        forall|r: int|
            0 <= r < rows@.len() ==> (#[trigger] rows@[r]).2@.len() == query_path_keys@.len(),
        forall|r: int, q: int|
            #![trigger rows@[r].2@[q]]
            0 <= r < rows@.len() && 0 <= q < rows@[r].2@.len() ==> rows@[r].2@[q] == (
            if query_reports(inversions@, query_path_keys@[q]@, rows@[r].0, rows@[r].1) {
                1u8
            } else {
                0u8
            }),
{
    // collect the distinct coordinate pairs that are long enough
    let mut pairs: Vec<(i32, i32)> = Vec::new();
    let mut t: usize = 0;
    while t < inversions.len()
        invariant
            t <= inversions@.len(),
            forall|r: int|
                0 <= r < pairs@.len() ==> (#[trigger] pairs@[r]).1 - pairs@[r].0
                    >= min_inversion_length,
            forall|r: int|
                0 <= r < pairs@.len() ==> pair_reported(
                    inversions@,
                    (#[trigger] pairs@[r]).0,
                    pairs@[r].1,
                ),
            forall|t2: int|
                0 <= t2 < t && (#[trigger] inversions@[t2]).2 - inversions@[t2].1
                    >= min_inversion_length ==> pair_in(
                    pairs@,
                    inversions@[t2].1,
                    inversions@[t2].2,
                ),
            forall|r1: int, r2: int|
                0 <= r1 < r2 < pairs@.len() ==> !((#[trigger] pairs@[r1]).0 == (
                #[trigger] pairs@[r2]).0 && pairs@[r1].1 == pairs@[r2].1),
            forall|t2: int|
                0 <= t2 < inversions@.len() ==> (#[trigger] inversions@[t2]).1 >= 0
                    && inversions@[t2].2 >= 0,
        decreases inversions@.len() - t,
    {
        let s: i32 = inversions[t].1;
        let e: i32 = inversions[t].2;
        if e - s >= min_inversion_length {
            let mut seen: bool = false;
            let mut r: usize = 0;
            while r < pairs.len() && !seen
                invariant
                    r <= pairs@.len(),
                    !seen ==> (forall|j: int|
                        0 <= j < r ==> !((#[trigger] pairs@[j]).0 == s && pairs@[j].1 == e)),
                    seen ==> pair_in(pairs@, s, e),
                decreases pairs@.len() - r + (if seen {
                    0int
                } else {
                    1int
                }),
            {
                if pairs[r].0 == s && pairs[r].1 == e {
                    proof {
                        assert((pairs@[r as int]).0 == s && pairs@[r as int].1 == e);
                    }
                    seen = true;
                } else {
                    r = r + 1;
                }
            }
            if !seen {
                let ghost pre = pairs@;
                pairs.push((s, e));
                proof {
                    assert((pairs@[pairs@.len() - 1]).0 == s && pairs@[pairs@.len() - 1].1 == e);
                    assert(pair_in(pairs@, s, e));
                    assert(pair_reported(inversions@, s, e)) by {
                        assert((inversions@[t as int]).1 == s && inversions@[t as int].2 == e);
                    }
                    assert forall|t2: int|
                        0 <= t2 < t && (#[trigger] inversions@[t2]).2 - inversions@[t2].1
                            >= min_inversion_length implies pair_in(
                        pairs@,
                        inversions@[t2].1,
                        inversions@[t2].2,
                    ) by {
                        assert(pair_in(pre, inversions@[t2].1, inversions@[t2].2));
                        let j = choose|j: int|
                            0 <= j < pre.len() && (#[trigger] pre[j]).0 == inversions@[t2].1
                                && pre[j].1 == inversions@[t2].2;
                        assert((pairs@[j]).0 == inversions@[t2].1 && pairs@[j].1
                            == inversions@[t2].2);
                    }
                }
            }
        }
        t = t + 1;
    }
    proof {
        assert forall|s: i32, e: i32|
            #[trigger] pair_reported(inversions@, s, e) && e - s
                >= min_inversion_length implies pair_in(pairs@, s, e) by {
            let t2 = choose|t2: int|
                0 <= t2 < inversions@.len() && (#[trigger] inversions@[t2]).1 == s
                    && inversions@[t2].2 == e;
        }
    }

    // order the pairs by start position
    let mut sorted: Vec<(i32, i32)> = Vec::new();
    let ghost all_pairs = pairs@;
    proof {
        assert forall|s: i32, e: i32|
            #[trigger] pair_in(all_pairs, s, e) implies pair_in(pairs@, s, e) || pair_in(
            sorted@,
            s,
            e,
        ) by {}
    }
    while pairs.len() > 0
        invariant
            forall|s: i32, e: i32|
                #[trigger] pair_in(all_pairs, s, e) <==> (pair_in(pairs@, s, e) || pair_in(
                    sorted@,
                    s,
                    e,
                )),
            forall|r: int|
                0 <= r < pairs@.len() ==> pair_in(
                    all_pairs,
                    (#[trigger] pairs@[r]).0,
                    pairs@[r].1,
                ),
            forall|r: int|
                0 <= r < sorted@.len() ==> pair_in(
                    all_pairs,
                    (#[trigger] sorted@[r]).0,
                    sorted@[r].1,
                ),
            forall|r1: int, r2: int|
                0 <= r1 < r2 < pairs@.len() ==> !((#[trigger] pairs@[r1]).0 == (
                #[trigger] pairs@[r2]).0 && pairs@[r1].1 == pairs@[r2].1),
            forall|r1: int, r2: int|
                0 <= r1 < r2 < sorted@.len() ==> !((#[trigger] sorted@[r1]).0 == (
                #[trigger] sorted@[r2]).0 && sorted@[r1].1 == sorted@[r2].1),
            forall|r1: int, r2: int|
                0 <= r1 < pairs@.len() && 0 <= r2 < sorted@.len() ==> !((#[trigger] pairs@[r1]).0
                    == (#[trigger] sorted@[r2]).0 && pairs@[r1].1 == sorted@[r2].1),
            forall|r1: int, r2: int|
                0 <= r1 < r2 < sorted@.len() ==> (#[trigger] sorted@[r1]).0 <= (
                #[trigger] sorted@[r2]).0,
            forall|r1: int, r2: int|
                0 <= r1 < sorted@.len() && 0 <= r2 < pairs@.len() ==> (#[trigger] sorted@[r1]).0
                    <= (#[trigger] pairs@[r2]).0,
        decreases pairs@.len(),
    {
        // find the first remaining pair with the smallest start
        let mut best: usize = 0;
        let mut r: usize = 1;
        while r < pairs.len()
            invariant
                pairs@.len() > 0,
                best < r <= pairs@.len(),
                forall|j: int| 0 <= j < r ==> (#[trigger] pairs@[j]).0 >= pairs@[best as int].0,
            decreases pairs@.len() - r,
        {
            if pairs[r].0 < pairs[best].0 {
                best = r;
            }
            r = r + 1;
        }
        let ghost pairs_pre = pairs@;
        let ghost sorted_pre = sorted@;
        let chosen: (i32, i32) = pairs.remove(best);
        sorted.push(chosen);
        proof {
            assert(chosen == pairs_pre[best as int]);
            assert(sorted@[sorted@.len() - 1] == chosen);
            assert forall|r1: int|
                #![trigger pairs@[r1]]
                0 <= r1 < pairs@.len() implies pairs@[r1] == (if r1 < best {
                pairs_pre[r1]
            } else {
                pairs_pre[r1 + 1]
            }) by {}
            assert forall|s: i32, e: i32|
                #[trigger] pair_in(all_pairs, s, e) implies (pair_in(pairs@, s, e) || pair_in(
                sorted@,
                s,
                e,
            )) by {
                if pair_in(pairs_pre, s, e) {
                    let j0 = choose|j: int|
                        0 <= j < pairs_pre.len() && (#[trigger] pairs_pre[j]).0 == s
                            && pairs_pre[j].1 == e;
                    if j0 == best {
                        assert((sorted@[sorted@.len() - 1]).0 == s && sorted@[sorted@.len()
                            - 1].1 == e);
                    } else if j0 < best {
                        assert((pairs@[j0]).0 == s && pairs@[j0].1 == e);
                    } else {
                        assert((pairs@[j0 - 1]).0 == s && pairs@[j0 - 1].1 == e);
                    }
                } else {
                    assert(pair_in(sorted_pre, s, e));
                    let j0 = choose|j: int|
                        0 <= j < sorted_pre.len() && (#[trigger] sorted_pre[j]).0 == s
                            && sorted_pre[j].1 == e;
                    assert((sorted@[j0]).0 == s && sorted@[j0].1 == e);
                }
            }
            assert forall|s: i32, e: i32|
                pair_in(pairs@, s, e) || pair_in(sorted@, s, e) implies #[trigger] pair_in(
                all_pairs,
                s,
                e,
            ) by {
                if pair_in(pairs@, s, e) {
                    let j0 = choose|j: int|
                        0 <= j < pairs@.len() && (#[trigger] pairs@[j]).0 == s && pairs@[j].1
                            == e;
                    if j0 < best {
                        assert((pairs_pre[j0]).0 == s && pairs_pre[j0].1 == e);
                    } else {
                        assert((pairs_pre[j0 + 1]).0 == s && pairs_pre[j0 + 1].1 == e);
                    }
                    assert(pair_in(pairs_pre, s, e));
                } else {
                    let j0 = choose|j: int|
                        0 <= j < sorted@.len() && (#[trigger] sorted@[j]).0 == s && sorted@[j].1
                            == e;
                    if j0 < sorted_pre.len() {
                        assert((sorted_pre[j0]).0 == s && sorted_pre[j0].1 == e);
                        assert(pair_in(sorted_pre, s, e));
                    } else {
                        assert((pairs_pre[best as int]).0 == s && pairs_pre[best as int].1 == e);
                        assert(pair_in(pairs_pre, s, e));
                    }
                }
            }
        }
    }
    proof {
        assert forall|s: i32, e: i32|
            #[trigger] pair_reported(inversions@, s, e) && e - s
                >= min_inversion_length implies pair_in(sorted@, s, e) by {
            assert(pair_in(all_pairs, s, e));
        }
    }

    // attach the per-query calls
    let mut rows: Vec<(i32, i32, Vec<u8>)> = Vec::new();
    let mut r: usize = 0;
    while r < sorted.len()
        invariant
            r <= sorted@.len(),
            rows@.len() == r,
            forall|j: int|
                0 <= j < r ==> (#[trigger] rows@[j]).0 == sorted@[j].0 && rows@[j].1
                    == sorted@[j].1,
            forall|j: int|
                0 <= j < r ==> (#[trigger] rows@[j]).2@.len() == query_path_keys@.len(),
            forall|j: int, q: int|
                #![trigger rows@[j].2@[q]]
                0 <= j < r && 0 <= q < rows@[j].2@.len() ==> rows@[j].2@[q] == (
                if query_reports(inversions@, query_path_keys@[q]@, rows@[j].0, rows@[j].1) {
                    1u8
                } else {
                    0u8
                }),
        decreases sorted@.len() - r,
    {
        let s: i32 = sorted[r].0;
        let e: i32 = sorted[r].1;
        let mut calls: Vec<u8> = Vec::new();
        let mut q: usize = 0;
        while q < query_path_keys.len()
            invariant
                q <= query_path_keys@.len(),
                calls@.len() == q,
                forall|j: int|
                    0 <= j < q ==> #[trigger] calls@[j] == (if query_reports(
                        inversions@,
                        query_path_keys@[j]@,
                        s,
                        e,
                    ) {
                        1u8
                    } else {
                        0u8
                    }),
            decreases query_path_keys@.len() - q,
        {
            let key: &String = &query_path_keys[q];
            let mut hit: bool = false;
            let mut t2: usize = 0;
            while t2 < inversions.len() && !hit
                invariant
                    t2 <= inversions@.len(),
                    !hit ==> (forall|j: int|
                        0 <= j < t2 ==> !((#[trigger] inversions@[j]).0@ == key@
                            && inversions@[j].1 == s && inversions@[j].2 == e)),
                    hit ==> query_reports(inversions@, key@, s, e),
                decreases inversions@.len() - t2 + (if hit {
                    0int
                } else {
                    1int
                }),
            {
                if inversions[t2].1 == s && inversions[t2].2 == e && str_eq(
                    inversions[t2].0.as_str(),
                    key.as_str(),
                ) {
                    proof {
                        assert((inversions@[t2 as int]).0@ == key@ && inversions@[t2 as int].1
                            == s && inversions@[t2 as int].2 == e);
                    }
                    hit = true;
                } else {
                    t2 = t2 + 1;
                }
            }
            if hit {
                calls.push(1);
            } else {
                calls.push(0);
            }
            q = q + 1;
        }
        rows.push((s, e, calls));
        r = r + 1;
    }
    proof {
        assert forall|s: i32, e: i32|
            #[trigger] pair_reported(inversions@, s, e) && e - s
                >= min_inversion_length implies exists|rr: int|
            0 <= rr < rows@.len() && (#[trigger] rows@[rr]).0 == s && rows@[rr].1 == e by {
            assert(pair_in(sorted@, s, e));
            let j = choose|j: int|
                0 <= j < sorted@.len() && (#[trigger] sorted@[j]).0 == s && sorted@[j].1 == e;
            assert((rows@[j]).0 == s && rows@[j].1 == e);
        }
    }
    rows
}

} // verus!
