//! Parsing of GFA path descriptions and base-pair coordinate lookup.
//!
//! A path field of a GFA `P` line is a comma-separated list of tokens,
//! each some digits followed by an orientation sign: `12+` encodes
//! segment 12 forward, `12-` encodes it reverse-complemented.

use std::collections::HashMap;
use std::collections::HashSet;
use vstd::prelude::*;
use vstd::string::StrSliceExecFns;

use crate::{
    abs_seg, entries_absable, lengths_positive, path_covered, prefix_len, seg_len_of, total_len,
    InversionError,
};

verus! {

broadcast use vstd::std_specs::hash::group_hash_axioms;

/// True for a decimal digit.
pub open spec fn is_digit(c: char) -> bool {
    '0' <= c && c <= '9'
}

/// The value of a decimal digit.
pub open spec fn digit_val(c: char) -> int {
    c as int - '0' as int
}

/// The value of a string of decimal digits.
pub open spec fn digits_val(s: Seq<char>) -> int
    decreases s.len(),
{
    if s.len() == 0 {
        0
    } else {
        digits_val(s.drop_last()) * 10 + digit_val(s.last())
    }
}

/// A well-formed path token: at least one digit, an orientation sign at
/// the end, and a value that fits the segment encoding.
pub open spec fn valid_token(s: Seq<char>) -> bool {
    &&& s.len() >= 2
    &&& forall|k: int| 0 <= k < s.len() - 1 ==> is_digit(#[trigger] s[k])
    &&& (s.last() == '+' || s.last() == '-')
    &&& digits_val(s.subrange(0, s.len() - 1)) <= i32::MAX
}

/// The signed segment a path token encodes.
pub open spec fn token_val(s: Seq<char>) -> int {
    let v = digits_val(s.subrange(0, s.len() - 1));
    if s.last() == '+' {
        v
    } else {
        -v
    }
}

/// The position of the first comma of `s`, or its length if there is
/// none.
pub open spec fn first_comma(s: Seq<char>) -> int
    decreases s.len(),
{
    if s.len() == 0 {
        0
    } else if s[0] == ',' {
        0
    } else {
        1 + first_comma(s.drop_first())
    }
}

/// `s` split at its commas; splitting an empty string yields one empty
/// token.
pub open spec fn split_commas(s: Seq<char>) -> Seq<Seq<char>>
    decreases s.len(),
{
    let f = first_comma(s);
    if 0 <= f < s.len() {
        seq![s.subrange(0, f)] + split_commas(s.subrange(f + 1, s.len() as int))
    } else {
        seq![s]
    }
}

/// Every token of `s` is well formed.
pub open spec fn all_tokens_valid(s: Seq<char>) -> bool {
    forall|t: int| 0 <= t < split_commas(s).len() ==> valid_token(#[trigger] split_commas(s)[t])
}

/// `first_comma` is characterized by what the scan that computes it
/// knows: no comma before `f`, and a comma (or the end) at `f`.
proof fn lemma_first_comma_is(s: Seq<char>, f: int)
    requires
        0 <= f <= s.len(),
        forall|k: int| 0 <= k < f ==> s[k] != ',',
        f < s.len() ==> s[f] == ',',
    ensures
        first_comma(s) == f,
    decreases s.len(),
{
    if s.len() > 0 && f > 0 {
        assert forall|k: int| 0 <= k < f - 1 implies s.drop_first()[k] != ',' by {
            assert(s.drop_first()[k] == s[k + 1]);
        }
        lemma_first_comma_is(s.drop_first(), f - 1);
    }
}

/// Values of digit strings never shrink when digits are appended.
proof fn lemma_digits_val_prefix(s: Seq<char>, a: int, b: int)
    requires
        0 <= a <= b <= s.len(),
        forall|k: int| 0 <= k < s.len() ==> is_digit(#[trigger] s[k]),
    ensures
        digits_val(s.subrange(0, a)) <= digits_val(s.subrange(0, b)),
        digits_val(s.subrange(0, b)) >= 0,
    decreases b - a,
{
    if a == b {
        lemma_digits_val_nonneg(s, b);
    } else {
        lemma_digits_val_prefix(s, a, b - 1);
        lemma_digits_val_nonneg(s, b - 1);
        assert(s.subrange(0, b).drop_last() =~= s.subrange(0, b - 1));
        assert(digits_val(s.subrange(0, b)) == digits_val(s.subrange(0, b - 1)) * 10 + digit_val(
            s[b - 1],
        ));
    }
}

/// Values of digit strings are nonnegative.
proof fn lemma_digits_val_nonneg(s: Seq<char>, b: int)
    requires
        0 <= b <= s.len(),
        forall|k: int| 0 <= k < s.len() ==> is_digit(#[trigger] s[k]),
    ensures
        digits_val(s.subrange(0, b)) >= 0,
    decreases b,
{
    if b > 0 {
        lemma_digits_val_nonneg(s, b - 1);
        assert(s.subrange(0, b).drop_last() =~= s.subrange(0, b - 1));
        assert(digits_val(s.subrange(0, b)) == digits_val(s.subrange(0, b - 1)) * 10 + digit_val(
            s[b - 1],
        ));
    }
}

/// Parses one path token: digits followed by `+` or `-`.
fn parse_token(token: &str) -> (r: Result<i32, InversionError>)
    ensures
        r is Ok <==> valid_token(token@),
        r matches Ok(v) ==> v as int == token_val(token@),
        r matches Err(e) ==> (e matches InversionError::GfaParse(m) && m@ == token@),
{
    let n: usize = token.unicode_len();
    if n < 2 {
        return Err(InversionError::GfaParse(token.to_owned()));
    }
    let sign: char = token.get_char(n - 1);
    if !(sign == '+' || sign == '-') {
        return Err(InversionError::GfaParse(token.to_owned()));
    }
    let mut value: i64 = 0;
    let mut k: usize = 0;
    while k < n - 1
        invariant
            0 <= k <= n - 1,
            2 <= n == token@.len(),
            forall|j: int| 0 <= j < k ==> is_digit(#[trigger] token@[j]),
            value == digits_val(token@.subrange(0, k as int)),
            0 <= value <= i32::MAX,
        decreases n - 1 - k,
    {
        let c: char = token.get_char(k);
        if !(c >= '0' && c <= '9') {
            return Err(InversionError::GfaParse(token.to_owned()));
        }
        #[allow(clippy::cast_lossless)]
        let d: i64 = (c as u32) as i64 - ('0' as u32) as i64;
        let next: i64 = value * 10 + d;
        proof {
            assert(token@.subrange(0, k + 1).drop_last() =~= token@.subrange(0, k as int));
            assert(digits_val(token@.subrange(0, k + 1)) == value * 10 + digit_val(
                token@[k as int],
            ));
        }
        if next > i32::MAX as i64 {
            proof {
                if valid_token(token@) {
                    lemma_digits_val_prefix(
                        token@.subrange(0, token@.len() - 1),
                        k + 1,
                        token@.len() - 1,
                    );
                    assert(token@.subrange(0, token@.len() - 1).subrange(0, k + 1)
                        =~= token@.subrange(0, k + 1));
                    assert(token@.subrange(0, token@.len() - 1).subrange(0, token@.len() - 1)
                        =~= token@.subrange(0, token@.len() - 1));
                    assert(false);
                }
            }
            return Err(InversionError::GfaParse(token.to_owned()));
        }
        value = next;
        k = k + 1;
    }
    proof {
        assert(token@.subrange(0, n - 1) =~= token@.subrange(0, token@.len() - 1));
        assert(token@.last() == sign);
    }
    #[allow(clippy::cast_possible_truncation)]
    let v: i32 = value as i32;
    if sign == '+' {
        Ok(v)
    } else {
        Ok(-v)
    }
}

/// Parse the path part of a GFA P-line.
///
/// The path is returned as a vector of segment IDs, where the
/// orientation is encoded by the sign of the segment ID: `1-` is encoded
/// as -1, while `1+` is encoded as 1.  Fails with `GfaParse`, carrying
/// the first malformed token, exactly when some comma-separated token is
/// not digits followed by an orientation sign with a representable
/// value.
pub fn parse_gfa_path(path_string: &str) -> (r: Result<Vec<i32>, InversionError>)
    ensures
        r is Ok <==> all_tokens_valid(path_string@),
        r matches Ok(v) ==> {
            &&& v@.len() == split_commas(path_string@).len()
            &&& forall|t: int|
                0 <= t < v@.len() ==> #[trigger] v@[t] as int == token_val(
                    split_commas(path_string@)[t],
                )
        },
        r matches Err(e) ==> (e matches InversionError::GfaParse(m) && exists|t: int|
            0 <= t < split_commas(path_string@).len() && m@ == #[trigger] split_commas(
                path_string@,
            )[t] && !valid_token(split_commas(path_string@)[t]) && (forall|t2: int|
                0 <= t2 < t ==> valid_token(#[trigger] split_commas(path_string@)[t2]))),
    decreases path_string@.len(),
{
    let n: usize = path_string.unicode_len();
    let mut f: usize = 0;
    while f < n && path_string.get_char(f) != ','
        invariant
            0 <= f <= n,
            n == path_string@.len(),
            forall|k: int| 0 <= k < f ==> path_string@[k] != ',',
        decreases n - f,
    {
        f = f + 1;
    }
    proof {
        lemma_first_comma_is(path_string@, f as int);
    }
    let token: &str = path_string.substring_char(0, f);
    let first = parse_token(token);
    if f >= n {
        proof {
            assert(token@ =~= path_string@);
            assert(split_commas(path_string@) =~= seq![path_string@]);
        }
        match first {
            Ok(v) => {
                proof {
                    assert(split_commas(path_string@)[0] == token@);
                }
                let mut out: Vec<i32> = Vec::new();
                out.push(v);
                Ok(out)
            },
            Err(e) => {
                proof {
                    assert(split_commas(path_string@)[0] == token@);
                    assert(!valid_token(split_commas(path_string@)[0]));
                }
                Err(e)
            },
        }
    } else {
        let rest: &str = path_string.substring_char(f + 1, n);
        proof {
            assert(rest@ =~= path_string@.subrange(f + 1, path_string@.len() as int));
            assert(split_commas(path_string@) =~= seq![token@] + split_commas(rest@));
        }
        match first {
            Ok(v) => {
                match parse_gfa_path(rest) {
                    Ok(tail) => {
                        let mut out: Vec<i32> = Vec::new();
                        out.push(v);
                        let mut t: usize = 0;
                        while t < tail.len()
                            invariant
                                t <= tail@.len(),
                                out@.len() == 1 + t,
                                out@[0] == v,
                                forall|j: int| 0 <= j < t ==> out@[j + 1] == #[trigger] tail@[j],
                            decreases tail@.len() - t,
                        {
                            out.push(tail[t]);
                            t = t + 1;
                        }
                        proof {
                            assert forall|j: int|
                                0 <= j < out@.len() implies #[trigger] out@[j] as int == token_val(
                                split_commas(path_string@)[j],
                            ) by {
                                if j > 0 {
                                    assert(out@[j] == tail@[j - 1]);
                                    assert(split_commas(path_string@)[j] == split_commas(
                                        rest@,
                                    )[j - 1]);
                                }
                            }
                            assert forall|t: int|
                                0 <= t < split_commas(path_string@).len() implies valid_token(
                                #[trigger] split_commas(path_string@)[t],
                            ) by {
                                if t == 0 {
                                    assert(split_commas(path_string@)[0] == token@);
                                } else {
                                    assert(split_commas(path_string@)[t] == split_commas(
                                        rest@,
                                    )[t - 1]);
                                }
                            }
                        }
                        Ok(out)
                    },
                    Err(e) => {
                        proof {
                            let t = choose|t: int|
                                0 <= t < split_commas(rest@).len()
                                    && (e matches InversionError::GfaParse(m) && m@
                                    == #[trigger] split_commas(rest@)[t]) && !valid_token(
                                    split_commas(rest@)[t],
                                ) && (forall|t2: int|
                                    0 <= t2 < t ==> valid_token(
                                        #[trigger] split_commas(rest@)[t2],
                                    ));
                            assert(split_commas(path_string@)[t + 1] == split_commas(rest@)[t]);
                            assert(!valid_token(split_commas(path_string@)[t + 1]));
                            assert forall|t2: int| 0 <= t2 < t + 1 implies valid_token(
                                #[trigger] split_commas(path_string@)[t2],
                            ) by {
                                if t2 > 0 {
                                    assert(split_commas(path_string@)[t2] == split_commas(
                                        rest@,
                                    )[t2 - 1]);
                                }
                            }
                        }
                        Err(e)
                    },
                }
            },
            Err(e) => {
                proof {
                    assert(split_commas(path_string@)[0] == token@);
                    assert(!valid_token(split_commas(path_string@)[0]));
                }
                Err(e)
            },
        }
    }
}

/// The digit part of a segment identifier: the token without its
/// optional leading sign.
pub open spec fn int_body(s: Seq<char>) -> Seq<char> {
    if s.len() > 0 && (s[0] == '+' || s[0] == '-') {
        s.drop_first()
    } else {
        s
    }
}

/// A well-formed segment identifier: an optional sign, then digits with
/// a representable value.
pub open spec fn valid_int_token(s: Seq<char>) -> bool {
    &&& int_body(s).len() > 0
    &&& forall|k: int| 0 <= k < int_body(s).len() ==> is_digit(#[trigger] int_body(s)[k])
    &&& digits_val(int_body(s)) <= i32::MAX
}

/// The value of a segment identifier token.
pub open spec fn int_token_val(s: Seq<char>) -> int {
    if s.len() > 0 && s[0] == '-' {
        -digits_val(int_body(s))
    } else {
        digits_val(int_body(s))
    }
}

/// Parses a decimal integer with an optional sign, as found in the
/// segment-identifier field of a GFA S-line.
pub fn parse_segment_id(text: &str) -> (r: Result<i32, InversionError>)
    ensures
        r is Ok <==> valid_int_token(text@),
        r matches Ok(v) ==> v as int == int_token_val(text@),
        r matches Err(e) ==> (e matches InversionError::GfaParse(m) && m@ == text@),
    decreases text@.len(),
{
    let n: usize = text.unicode_len();
    if n == 0 {
        return Err(InversionError::GfaParse(text.to_owned()));
    }
    let c0: char = text.get_char(0);
    let start: usize = if c0 == '+' || c0 == '-' {
        1
    } else {
        0
    };
    if n == start {
        return Err(InversionError::GfaParse(text.to_owned()));
    }
    let ghost body = if start == 1 {
        text@.drop_first()
    } else {
        text@
    };
    let mut value: i64 = 0;
    let mut k: usize = start;
    while k < n
        invariant
            start <= k <= n,
            n == text@.len(),
            start == 1 ==> 0 < text@.len() && (text@[0] == '+' || text@[0] == '-'),
            start == 0 ==> !(text@.len() > 0 && (text@[0] == '+' || text@[0] == '-')),
            body == (if start == 1 {
                text@.drop_first()
            } else {
                text@
            }),
            body.len() == n - start,
            forall|j: int| 0 <= j < k - start ==> is_digit(#[trigger] body[j]),
            value == digits_val(body.subrange(0, k - start)),
            0 <= value <= i32::MAX,
        decreases n - k,
    {
        let c: char = text.get_char(k);
        if !(c >= '0' && c <= '9') {
            proof {
                if valid_int_token(text@) {
                    assert(body == int_body(text@));
                    assert(body[k - start] == text@[k as int]);
                    assert(is_digit(int_body(text@)[k - start]));
                    assert(false);
                }
            }
            return Err(InversionError::GfaParse(text.to_owned()));
        }
        #[allow(clippy::cast_lossless)]
        let d: i64 = (c as u32) as i64 - ('0' as u32) as i64;
        let next: i64 = value * 10 + d;
        proof {
            assert(body[k - start] == text@[k as int]);
            assert(body.subrange(0, k - start + 1).drop_last() =~= body.subrange(0, k - start));
            assert(digits_val(body.subrange(0, k - start + 1)) == value * 10 + digit_val(
                body[k - start],
            ));
        }
        if next > i32::MAX as i64 {
            proof {
                if valid_int_token(text@) {
                    assert(body == int_body(text@));
                    assert(forall|j: int|
                        0 <= j < int_body(text@).len() ==> is_digit(
                            #[trigger] int_body(text@)[j],
                        ));
                    lemma_digits_val_prefix(body, k - start + 1, body.len() as int);
                    assert(body.subrange(0, body.len() as int) =~= body);
                    assert(false);
                }
            }
            return Err(InversionError::GfaParse(text.to_owned()));
        }
        value = next;
        k = k + 1;
    }
    proof {
        assert(body == int_body(text@));
        assert(body.subrange(0, body.len() as int) =~= body);
        assert(valid_int_token(text@));
    }
    #[allow(clippy::cast_possible_truncation)]
    let v: i32 = value as i32;
    if start == 1 && c0 == '-' {
        Ok(-v)
    } else {
        Ok(v)
    }
}

/// Lookup start and end positions of segments in a path.
///
/// `segment_indices` are indices into `path`; the returned map sends
/// each requested in-range index to the inclusive one-based base-pair
/// interval its segment occupies along the path.  Fails with
/// `SegmentNotFound` exactly when a segment of the path has no entry in
/// the length map.
pub fn lookup_base_positions(
    path: &[i32],
    segment_lengths: &HashMap<i32, i32>,
    segment_indices: &[i32],
) -> (r: Result<HashMap<i32, (i32, i32)>, InversionError>)
    requires
        entries_absable(path@),
        lengths_positive(segment_lengths@),
        path_covered(path@, segment_lengths@) ==> total_len(path@, segment_lengths@) <= i32::MAX,
    ensures
        r is Ok <==> path_covered(path@, segment_lengths@),
        r matches Ok(m) ==> {
            &&& forall|i: i32|
                #[trigger] m@.contains_key(i) <==> (0 <= i < path@.len()
                    && segment_indices@.contains(i))
            &&& forall|i: i32|
                m@.contains_key(i) ==> #[trigger] m@[i] == (
                    ((prefix_len(path@, segment_lengths@, i as int) + 1) as i32),
                    ((prefix_len(path@, segment_lengths@, i as int) + seg_len_of(
                        segment_lengths@,
                        path@[i as int],
                    )) as i32),
                )
        },
        r matches Err(e) ==> (e matches InversionError::SegmentNotFound(id)
            && !segment_lengths@.dom().contains(id) && exists|k: int|
            0 <= k < path@.len() && abs_seg(#[trigger] path@[k]) == id),
{
    let ghost p = path@;
    let ghost sl = segment_lengths@;
    let mut v: usize = 0;
    while v < path.len()
        invariant
            v <= p.len(),
            path@ == p,
            segment_lengths@ == sl,
            entries_absable(p),
            forall|k: int| 0 <= k < v ==> sl.dom().contains(abs_seg(#[trigger] p[k])),
        decreases p.len() - v,
    {
        let s: i32 = path[v];
        let a: i32 = if s < 0 {
            -s
        } else {
            s
        };
        if !segment_lengths.contains_key(&a) {
            proof {
                assert(abs_seg(p[v as int]) == a);
            }
            return Err(InversionError::SegmentNotFound(a));
        }
        v = v + 1;
    }

    let mut segment_indices_set: HashSet<i32> = HashSet::new();
    let mut t: usize = 0;
    while t < segment_indices.len()
        invariant
            t <= segment_indices@.len(),
            forall|x: i32|
                segment_indices_set@.contains(x) <==> exists|j: int|
                    0 <= j < t && #[trigger] segment_indices@[j] == x,
        decreases segment_indices@.len() - t,
    {
        segment_indices_set.insert(segment_indices[t]);
        t = t + 1;
    }

    let mut segment_positions: HashMap<i32, (i32, i32)> = HashMap::new();
    let mut current_position: i32 = 0;
    let mut i: usize = 0;
    while i < path.len()
        invariant
            i <= p.len(),
            path@ == p,
            segment_lengths@ == sl,
            entries_absable(p),
            lengths_positive(sl),
            path_covered(p, sl),
            total_len(p, sl) <= i32::MAX,
            forall|x: i32| segment_indices_set@.contains(x) <==> segment_indices@.contains(x),
            current_position == prefix_len(p, sl, i as int),
            forall|x: i32|
                #[trigger] segment_positions@.contains_key(x) <==> (0 <= x < i
                    && segment_indices@.contains(x)),
            forall|x: i32|
                segment_positions@.contains_key(x) ==> #[trigger] segment_positions@[x] == (
                    ((prefix_len(p, sl, x as int) + 1) as i32),
                    ((prefix_len(p, sl, x as int) + seg_len_of(sl, p[x as int])) as i32),
                ),
        decreases p.len() - i,
    {
        let s: i32 = path[i];
        let a: i32 = if s < 0 {
            -s
        } else {
            s
        };
        proof {
            assert(abs_seg(p[i as int]) == a);
        }
        let this_segment_length: i32 = match segment_lengths.get(&a) {
            Some(l) => *l,
            None => vstd::pervasive::unreached(),
        };
        proof {
            assert(prefix_len(p, sl, i + 1) == prefix_len(p, sl, i as int) + seg_len_of(
                sl,
                p[i as int],
            ));
            crate::lemma_prefix_len_nonneg(p, sl, i as int);
            crate::lemma_prefix_len_monotonic(p, sl, i + 1, p.len() as int);
        }
        #[allow(clippy::cast_possible_truncation)]
        let idx: i32 = i as i32;
        if segment_indices_set.contains(&idx) {
            segment_positions.insert(
                idx,
                (current_position + 1, current_position + this_segment_length),
            );
        }
        current_position = current_position + this_segment_length;
        i = i + 1;
    }
    Ok(segment_positions)
}

/// Prefix sums of a path whose segments all have one length are
/// multiples of that length.
proof fn lemma_uniform_prefix_len(p: Seq<i32>, sl: Map<i32, i32>, one_len: int, k: int)
    requires
        forall|j: int| 0 <= j < p.len() ==> seg_len_of(sl, #[trigger] p[j]) == one_len,
        0 <= k <= p.len(),
    ensures
        prefix_len(p, sl, k) == k * one_len,
    decreases k,
{
    if k > 0 {
        lemma_uniform_prefix_len(p, sl, one_len, k - 1);
        assert(prefix_len(p, sl, k) == prefix_len(p, sl, k - 1) + seg_len_of(sl, p[k - 1]));
        assert(seg_len_of(sl, p[k - 1]) == one_len);
        assert((k - 1) * one_len + one_len == k * one_len) by (nonlinear_arith);
    } else {
        assert(prefix_len(p, sl, 0) == 0);
        assert(0 * one_len == 0) by (nonlinear_arith);
    }
}

/// Base-position lookup on a uniform path: for a path whose segments
/// all have length `one_len`, the segment at index `i` occupies the
/// one-based base interval from `i * one_len + 1` through
/// `(i + 1) * one_len`, which is what `lookup_base_positions` reports
/// for it.
pub proof fn lemma_uniform_base_positions(p: Seq<i32>, sl: Map<i32, i32>, one_len: int, i: int)
    requires
        forall|j: int| 0 <= j < p.len() ==> seg_len_of(sl, #[trigger] p[j]) == one_len,
        0 <= i < p.len(),
    ensures
        prefix_len(p, sl, i) + 1 == i * one_len + 1,
        prefix_len(p, sl, i) + seg_len_of(sl, p[i]) == (i + 1) * one_len,
{
    lemma_uniform_prefix_len(p, sl, one_len, i);
    assert(i * one_len + one_len == (i + 1) * one_len) by (nonlinear_arith);
}

} // verus!
