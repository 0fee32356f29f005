//! Matching cost volumes.
//!
//! A cost volume holds one cost for every pixel and every candidate disparity.
//! It is stored row by row: the cost of disparity `d` at pixel `(u, v)` of an
//! image of width `w` stands at index `(v * w + u) * max_d + d`.

use vstd::prelude::*;
use crate::bits::{hamming, law_hamming, law_hamming_counts_differences};
use crate::index::{lemma_in_range, lemma_parts, lemma_split};

verus! {

/// Largest distance of two descriptions, and the cost of a left candidate whose
/// right pixel is out of bounds.
pub const MAX_DISTANCE: u16 = 64;

/// Cost of a right candidate whose left pixel is out of bounds.
pub const NO_MATCH: u16 = u16::MAX;

/// Cost of matching left pixel `(u, v)` with right pixel `(u - d, v)`.
pub open spec fn cost_at(left: Seq<u64>, right: Seq<u64>, w: int, u: int, v: int, d: int) -> u16 {
    if d <= u {
        hamming(left[v * w + u], right[v * w + u - d]) as u16
    } else {
        MAX_DISTANCE
    }
}

/// Cost of matching right pixel `(u, v)` with left pixel `(u + d, v)`.
pub open spec fn cost_right_at(
    left: Seq<u64>,
    right: Seq<u64>,
    w: int,
    u: int,
    v: int,
    d: int,
) -> u16 {
    if u + d < w {
        hamming(right[v * w + u], left[v * w + u + d]) as u16
    } else {
        NO_MATCH
    }
}

/// Column of the pixel that entry `i` of a volume belongs to.
pub open spec fn entry_column(i: int, w: int, max_d: int) -> int {
    (i / max_d) % w
}

/// Row of the pixel that entry `i` of a volume belongs to.
pub open spec fn entry_row(i: int, w: int, max_d: int) -> int {
    (i / max_d) / w
}

/// The left-reference volume.
pub open spec fn cost_volume(left: Seq<u64>, right: Seq<u64>, w: int, h: int, max_d: int) -> Seq<
    u16,
> {
    Seq::new(
        (h * w * max_d) as nat,
        |i: int|
            cost_at(
                left,
                right,
                w,
                entry_column(i, w, max_d),
                entry_row(i, w, max_d),
                i % max_d,
            ),
    )
}

/// The right-reference volume.
pub open spec fn cost_volume_right(
    left: Seq<u64>,
    right: Seq<u64>,
    w: int,
    h: int,
    max_d: int,
) -> Seq<u16> {
    Seq::new(
        (h * w * max_d) as nat,
        |i: int|
            cost_right_at(
                left,
                right,
                w,
                entry_column(i, w, max_d),
                entry_row(i, w, max_d),
                i % max_d,
            ),
    )
}

/// The sizes on which a volume can be built: it can be indexed, and the
/// descriptions are there if there is a candidate to compare.
pub open spec fn volume_defined(
    left_len: nat,
    right_len: nat,
    w: int,
    h: int,
    max_d: int,
) -> bool {
    &&& h * w <= usize::MAX
    &&& h * w * max_d <= usize::MAX
    &&& (max_d > 0 ==> h * w <= left_len && h * w <= right_len)
}

/// The entry of disparity `d` at pixel `(u, v)` belongs to that pixel and
/// disparity, and lies in the volume.
pub proof fn lemma_entry(w: int, h: int, max_d: int, u: int, v: int, d: int)
    requires
        0 <= u < w,
        0 <= v < h,
        0 <= d < max_d,
    ensures
        0 <= v * w,
        v * w + u < h * w,
        0 <= (v * w + u) * max_d,
        (v * w + u) * max_d + d < h * w * max_d,
        (v * w + u) * max_d + max_d <= h * w * max_d,
        entry_column((v * w + u) * max_d + d, w, max_d) == u,
        entry_row((v * w + u) * max_d + d, w, max_d) == v,
        ((v * w + u) * max_d + d) % max_d == d,
        ((v * w + u) * max_d + d) / max_d == v * w + u,
{
    lemma_in_range(v, u, h, w);
    lemma_in_range(v * w + u, d, h * w, max_d);
    lemma_split(v * w + u, d, max_d);
    lemma_split(v, u, w);
}

/// Every entry of a volume belongs to one pixel and disparity.
pub proof fn lemma_entry_parts(i: int, w: int, h: int, max_d: int)
    requires
        0 <= w,
        0 <= max_d,
        0 <= i < h * w * max_d,
    ensures
        0 <= entry_column(i, w, max_d) < w,
        0 <= entry_row(i, w, max_d) < h,
        0 <= i % max_d < max_d,
        i == (entry_row(i, w, max_d) * w + entry_column(i, w, max_d)) * max_d + i % max_d,
        i / max_d == entry_row(i, w, max_d) * w + entry_column(i, w, max_d),
{
    lemma_parts(i, h * w, max_d);
    lemma_parts(i / max_d, h, w);
}

/// Distance of two descriptions.
fn matching_cost(a: u64, b: u64) -> (c: u16)
    ensures
        c == hamming(a, b),
        c <= 64,
{
    proof {
        law_hamming(a, b);
    }
    (a ^ b).count_ones() as u16
}

/// Builds a left-reference cost volume.
///
/// `C[v, u, d] = hamming(left[v, u], right[v, u - d])`. Right pixels out of
/// bounds default to the cost [`MAX_DISTANCE`], which penalises invalid matches.
pub fn build_cost_volume(left: &[u64], right: &[u64], w: usize, h: usize, max_d: usize) -> (vol:
    Vec<u16>)
    requires
        volume_defined(left@.len(), right@.len(), w as int, h as int, max_d as int),
    ensures
        vol@ == cost_volume(left@, right@, w as int, h as int, max_d as int),
{
    let mut vol: Vec<u16> = Vec::new();
    let mut v: usize = 0;
    assert(0 * w == 0 && 0 * max_d == 0) by (nonlinear_arith);
    while v < h
        invariant
            volume_defined(left@.len(), right@.len(), w as int, h as int, max_d as int),
            v <= h,
            vol@.len() == v * w * max_d,
            forall|i: int|
                0 <= i < vol@.len() ==> #[trigger] vol@[i] == cost_at(
                    left@,
                    right@,
                    w as int,
                    entry_column(i, w as int, max_d as int),
                    entry_row(i, w as int, max_d as int),
                    i % (max_d as int),
                ),
        decreases h - v,
    {
        let mut u: usize = 0;
        while u < w
            invariant
                volume_defined(left@.len(), right@.len(), w as int, h as int, max_d as int),
                v < h,
                u <= w,
                vol@.len() == (v * w + u) * max_d,
                forall|i: int|
                    0 <= i < vol@.len() ==> #[trigger] vol@[i] == cost_at(
                        left@,
                        right@,
                        w as int,
                        entry_column(i, w as int, max_d as int),
                        entry_row(i, w as int, max_d as int),
                        i % (max_d as int),
                    ),
            decreases w - u,
        {
            let mut d: usize = 0;
            while d < max_d
                invariant
                    volume_defined(left@.len(), right@.len(), w as int, h as int, max_d as int),
                    v < h,
                    u < w,
                    d <= max_d,
                    vol@.len() == (v * w + u) * max_d + d,
                    forall|i: int|
                        0 <= i < vol@.len() ==> #[trigger] vol@[i] == cost_at(
                            left@,
                            right@,
                            w as int,
                            entry_column(i, w as int, max_d as int),
                            entry_row(i, w as int, max_d as int),
                            i % (max_d as int),
                        ),
                decreases max_d - d,
            {
                proof {
                    lemma_entry(w as int, h as int, max_d as int, u as int, v as int, d as int);
                }
                let cost: u16 = if d <= u {
                    matching_cost(left[v * w + u], right[v * w + u - d])
                } else {
                    MAX_DISTANCE
                };
                vol.push(cost);
                d = d + 1;
            }
            proof {
                assert((v * w + u + 1) * max_d == (v * w + u) * max_d + max_d)
                    by (nonlinear_arith);
            }
            u = u + 1;
        }
        proof {
            assert((v + 1) * w == v * w + w) by (nonlinear_arith);
        }
        v = v + 1;
    }
    proof {
        assert(vol@ =~= cost_volume(left@, right@, w as int, h as int, max_d as int));
    }
    vol
}

/// Builds a right-reference cost volume for the left-right consistency check.
///
/// `C_R[v, u, d] = hamming(right[v, u], left[v, u + d])`, and [`NO_MATCH`]
/// where the left pixel would be out of bounds.
pub fn build_cost_volume_right(left: &[u64], right: &[u64], w: usize, h: usize, max_d: usize) -> (
vol: Vec<u16>)
    requires
        volume_defined(left@.len(), right@.len(), w as int, h as int, max_d as int),
    ensures
        vol@ == cost_volume_right(left@, right@, w as int, h as int, max_d as int),
{
    let mut vol: Vec<u16> = Vec::new();
    let mut v: usize = 0;
    assert(0 * w == 0 && 0 * max_d == 0) by (nonlinear_arith);
    while v < h
        invariant
            volume_defined(left@.len(), right@.len(), w as int, h as int, max_d as int),
            v <= h,
            vol@.len() == v * w * max_d,
            forall|i: int|
                0 <= i < vol@.len() ==> #[trigger] vol@[i] == cost_right_at(
                    left@,
                    right@,
                    w as int,
                    entry_column(i, w as int, max_d as int),
                    entry_row(i, w as int, max_d as int),
                    i % (max_d as int),
                ),
        decreases h - v,
    {
        let mut u: usize = 0;
        while u < w
            invariant
                volume_defined(left@.len(), right@.len(), w as int, h as int, max_d as int),
                v < h,
                u <= w,
                vol@.len() == (v * w + u) * max_d,
                forall|i: int|
                    0 <= i < vol@.len() ==> #[trigger] vol@[i] == cost_right_at(
                        left@,
                        right@,
                        w as int,
                        entry_column(i, w as int, max_d as int),
                        entry_row(i, w as int, max_d as int),
                        i % (max_d as int),
                    ),
            decreases w - u,
        {
            let mut d: usize = 0;
            while d < max_d
                invariant
                    volume_defined(left@.len(), right@.len(), w as int, h as int, max_d as int),
                    v < h,
                    u < w,
                    d <= max_d,
                    vol@.len() == (v * w + u) * max_d + d,
                    forall|i: int|
                        0 <= i < vol@.len() ==> #[trigger] vol@[i] == cost_right_at(
                            left@,
                            right@,
                            w as int,
                            entry_column(i, w as int, max_d as int),
                            entry_row(i, w as int, max_d as int),
                            i % (max_d as int),
                        ),
                decreases max_d - d,
            {
                proof {
                    lemma_entry(w as int, h as int, max_d as int, u as int, v as int, d as int);
                    lemma_in_range(v as int, (w - 1) as int, h as int, w as int);
                }
                let cost: u16 = if d < w - u {
                    matching_cost(right[v * w + u], left[v * w + u + d])
                } else {
                    NO_MATCH
                };
                vol.push(cost);
                d = d + 1;
            }
            proof {
                assert((v * w + u + 1) * max_d == (v * w + u) * max_d + max_d)
                    by (nonlinear_arith);
            }
            u = u + 1;
        }
        proof {
            assert((v + 1) * w == v * w + w) by (nonlinear_arith);
        }
        v = v + 1;
    }
    proof {
        assert(vol@ =~= cost_volume_right(left@, right@, w as int, h as int, max_d as int));
    }
    vol
}

/// A left candidate costs at most [`MAX_DISTANCE`]. It costs exactly that if its
/// right pixel is out of bounds; otherwise it costs nothing exactly if the two
/// descriptions agree.
pub proof fn law_cost_range(
    left: Seq<u64>,
    right: Seq<u64>,
    w: int,
    h: int,
    max_d: int,
    u: int,
    v: int,
    d: int,
)
    requires
        0 <= u < w,
        0 <= v < h,
        0 <= d < max_d,
    ensures
        ({
            let c = cost_volume(left, right, w, h, max_d)[(v * w + u) * max_d + d];
            &&& c <= MAX_DISTANCE
            &&& (d <= u ==> (c == 0 <==> left[v * w + u] == right[v * w + u - d]))
            &&& (d > u ==> c == MAX_DISTANCE)
        }),
{
    lemma_entry(w, h, max_d, u, v, d);
    law_hamming(left[v * w + u], right[v * w + u - d]);
}

/// Both volumes rate the same pair of pixels alike: the right volume at `u`
/// holds what the left volume holds at `u + d`.
pub proof fn law_volumes_agree(
    left: Seq<u64>,
    right: Seq<u64>,
    w: int,
    h: int,
    max_d: int,
    u: int,
    v: int,
    d: int,
)
    requires
        0 <= u,
        u + d < w,
        0 <= v < h,
        0 <= d < max_d,
    ensures
        cost_volume_right(left, right, w, h, max_d)[(v * w + u) * max_d + d] == cost_volume(
            left,
            right,
            w,
            h,
            max_d,
        )[(v * w + (u + d)) * max_d + d],
{
    lemma_entry(w, h, max_d, u, v, d);
    lemma_entry(w, h, max_d, u + d, v, d);
    law_hamming(left[v * w + u + d], right[v * w + u]);
}

/// A left candidate costs the number of bits in which the description of the
/// left pixel differs from that of the right pixel `d` columns to its left, and
/// 64 if there is no such pixel. Every pixel and disparity has its entry.
pub proof fn law_cost_counts_differences(
    left: Seq<u64>,
    right: Seq<u64>,
    w: int,
    h: int,
    max_d: int,
    u: int,
    v: int,
    d: int,
)
    requires
        0 <= u < w,
        0 <= v < h,
        0 <= d < max_d,
    ensures
        cost_volume(left, right, w, h, max_d).len() == h * w * max_d,
        (v * w + u) * max_d + d < h * w * max_d,
        d <= u ==> cost_volume(left, right, w, h, max_d)[(v * w + u) * max_d + d] == Set::new(
            |k: int|
                0 <= k < 64 && (left[v * w + u] >> (k as u64)) & 1 != (right[v * w + (u - d)] >> (
                k as u64)) & 1,
        ).len(),
        d > u ==> cost_volume(left, right, w, h, max_d)[(v * w + u) * max_d + d] == 64,
{
    lemma_entry(w, h, max_d, u, v, d);
    law_hamming(left[v * w + u], right[v * w + u - d]);
    law_hamming_counts_differences(left[v * w + u], right[v * w + u - d]);
}

/// A right candidate costs the number of bits in which the description of the
/// right pixel differs from that of the left pixel `d` columns to its right, and
/// the largest 16-bit value if there is no such pixel.
pub proof fn law_cost_right_counts_differences(
    left: Seq<u64>,
    right: Seq<u64>,
    w: int,
    h: int,
    max_d: int,
    u: int,
    v: int,
    d: int,
)
    requires
        0 <= u < w,
        0 <= v < h,
        0 <= d < max_d,
    ensures
        cost_volume_right(left, right, w, h, max_d).len() == h * w * max_d,
        u + d < w ==> cost_volume_right(left, right, w, h, max_d)[(v * w + u) * max_d + d]
            == Set::new(
            |k: int|
                0 <= k < 64 && (right[v * w + u] >> (k as u64)) & 1 != (left[v * w + (u + d)] >> (
                k as u64)) & 1,
        ).len(),
        u + d >= w ==> cost_volume_right(left, right, w, h, max_d)[(v * w + u) * max_d + d] == 65535,
{
    lemma_entry(w, h, max_d, u, v, d);
    law_hamming(right[v * w + u], left[v * w + u + d]);
    law_hamming_counts_differences(right[v * w + u], left[v * w + u + d]);
}

/// Volumes can be built whenever they can be indexed and every pixel of both
/// images has a description.
pub proof fn law_volume_defined(left_len: nat, right_len: nat, w: int, h: int, max_d: int)
    requires
        h * w <= usize::MAX,
        h * w * max_d <= usize::MAX,
        h * w <= left_len,
        h * w <= right_len,
    ensures
        volume_defined(left_len, right_len, w, h, max_d),
{
}

} // verus!
