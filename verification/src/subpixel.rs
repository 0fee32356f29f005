//! What winner-takes-all and its sub-pixel refinement do, stated on aggregated
//! costs and disparities.
//!
//! Disparities count 2^-32 pixels.

use vstd::prelude::*;
use vstd::arithmetic::power2::{lemma2_to64, pow2};
use crate::binary32::{
    law_round_error, law_round_int_error, law_round_is_nearest, lemma_representable,
    lemma_round_small, round_int, round_nat, round_ratio,
};
use crate::disparity::{
    best_disparity, curvature, disparities, is_winner, law_refined_is_exact, law_winner_unique, lemma_exact_parabola,
    lemma_parabola, lemma_pixel_ticks, lemma_vertex_offset, nearest_pixel,
    pixel_ticks, refined_ticks, slope, vertex_offset, vertex_position, winner, winning_costs,
    without_border, Disparity,
};
use crate::index::{lemma_in_range, lemma_split};

verus! {

/// A disparity rounds to the pixel from which it is at most half a pixel away,
/// halves rounding up.
pub proof fn law_nearest_pixel(ticks: int)
    ensures
        nearest_pixel(ticks) * 0x1_0000_0000 - 0x8000_0000 <= ticks < nearest_pixel(ticks)
            * 0x1_0000_0000 + 0x8000_0000,
{
}

/// A whole number of pixels is held exactly up to 2^24, and with 24 significant
/// bits beyond.
pub proof fn law_whole_pixels(pixels: nat)
    ensures
        pixel_ticks(pixels) == round_ratio(pixels, 1) * 0x1_0000_0000,
        pixels <= 0x100_0000 ==> pixel_ticks(pixels) == pixels * 0x1_0000_0000,
        0x100_0000 * (pixel_ticks(pixels) - pixels * 0x1_0000_0000) <= pixels * 0x1_0000_0000,
        0x100_0000 * (pixels * 0x1_0000_0000 - pixel_ticks(pixels)) <= pixels * 0x1_0000_0000,
{
    law_round_int_error(pixels as int);
    if pixels < 0x100_0000 {
        lemma_round_small(pixels);
    } else if pixels == 0x100_0000 {
        lemma2_to64();
        law_round_is_nearest(pixels, 1, 0x100_0000, 0);
    }
}

/// Every number of ticks with 24 significant bits up to 2^97 is a disparity.
pub proof fn law_disparity_values(m: nat, k: nat, d: Disparity)
    requires
        m <= 0x100_0000,
        d.ticks == m * pow2(k),
        d.ticks <= 0x2_0000_0000_0000_0000_0000_0000,
    ensures
        d.wf(),
{
    lemma_representable(m, k);
}

/// Every pixel has a result, and none has a disparity if there are no
/// candidates.
pub proof fn law_no_candidates(agg: Seq<u32>, w: int, h: int, max_d: int, i: int)
    requires
        0 <= i < w * h,
    ensures
        disparities(agg, w, h, max_d).len() == w * h,
        max_d == 0 ==> disparities(agg, w, h, max_d)[i] is None,
{
    if max_d == 0 {
        assert(i * max_d == 0) by (nonlinear_arith)
            requires
                max_d == 0,
        ;
        assert(agg.subrange(0, 0).len() == 0);
    }
}

/// The costs of a pixel, and its winner.
proof fn lemma_pixel_costs(agg: Seq<u32>, w: int, h: int, max_d: int, i: int, d: int)
    requires
        0 <= i < w * h,
        0 <= d < max_d,
        w * h * max_d <= agg.len(),
        forall|j: int|
            0 <= j < max_d ==> agg[i * max_d + d] <= #[trigger] agg[i * max_d + j],
        forall|j: int| 0 <= j < d ==> agg[i * max_d + d] < #[trigger] agg[i * max_d + j],
    ensures
        ({
            let costs = agg.subrange(i * max_d, i * max_d + max_d);
            &&& costs.len() == max_d
            &&& winner(costs) == d
            &&& forall|j: int| 0 <= j < max_d ==> #[trigger] costs[j] == agg[i * max_d + j]
            &&& disparities(agg, w, h, max_d)[i] == best_disparity(costs)
        }),
{
    assert(0 <= i * max_d && i * max_d + max_d <= w * h * max_d) by (nonlinear_arith)
        requires
            0 <= i,
            i + 1 <= w * h,
            0 <= max_d,
    ;
    let costs = agg.subrange(i * max_d, i * max_d + max_d);
    assert(is_winner(costs, d)) by {
        assert forall|j: int| 0 <= j < costs.len() implies costs[d] <= #[trigger] costs[j] by {
            assert(agg[i * max_d + d] <= agg[i * max_d + j]);
        }
        assert forall|j: int| 0 <= j < d implies costs[d] < #[trigger] costs[j] by {
            assert(agg[i * max_d + d] < agg[i * max_d + j]);
        }
    }
    law_winner_unique(costs, d);
}

/// The disparity of a pixel comes from the first candidate of smallest cost. If
/// that cost exceeds 1000 the pixel has none. At either end of the search range
/// it is the candidate itself. Elsewhere it is the vertex of the parabola
/// through the three costs around the candidate, worked out in single precision:
/// the vertex lies `(c0 - c2) / (2 (c0 - 2 c1 + c2))` pixels from the candidate.
pub proof fn law_winner_takes_all(agg: Seq<u32>, w: int, h: int, max_d: int, i: int, d: int)
    requires
        0 <= i < w * h,
        0 <= d < max_d <= usize::MAX,
        w * h * max_d <= agg.len(),
        forall|j: int|
            0 <= j < max_d ==> agg[i * max_d + d] <= #[trigger] agg[i * max_d + j],
        forall|j: int| 0 <= j < d ==> agg[i * max_d + d] < #[trigger] agg[i * max_d + j],
    ensures
        agg[i * max_d + d] > 1000 ==> disparities(agg, w, h, max_d)[i] is None,
        agg[i * max_d + d] <= 1000 ==> disparities(agg, w, h, max_d)[i] is Some,
        agg[i * max_d + d] <= 1000 && (d == 0 || d == max_d - 1) ==> disparities(
            agg,
            w,
            h,
            max_d,
        )[i]->0.ticks == round_ratio(d as nat, 1) * 0x1_0000_0000,
        agg[i * max_d + d] <= 1000 && 0 < d < max_d - 1 ==> ({
            let c0 = round_int(agg[i * max_d + (d - 1)] as int);
            let c1 = round_int(agg[i * max_d + d] as int);
            let c2 = round_int(agg[i * max_d + (d + 1)] as int);
            let num = round_int(c0 - c2);
            let den = round_int(round_int(c0 - 2 * c1) + c2);
            let whole = round_int(d) * 0x1000_0000_0000_0000;
            let vertex = if num >= 0 {
                whole + round_ratio((num * 0x1000_0000_0000_0000) as nat, (2 * den) as nat)
            } else {
                whole - round_ratio((-num * 0x1000_0000_0000_0000) as nat, (2 * den) as nat)
            };
            &&& den > 0
            &&& disparities(agg, w, h, max_d)[i]->0.ticks * 0x1000_0000 == round_int(vertex)
        }),
{
    lemma_pixel_costs(agg, w, h, max_d, i, d);
    let costs = agg.subrange(i * max_d, i * max_d + max_d);
    lemma_pixel_ticks(d as nat);
    assert(costs[d] == agg[i * max_d + d]);
    if costs[d] <= 1000 && 0 < d < max_d - 1 {
        assert(costs[d - 1] == agg[i * max_d + (d - 1)]);
        assert(costs[d + 1] == agg[i * max_d + (d + 1)]);
        assert(agg[i * max_d + d] < agg[i * max_d + (d - 1)]);
        assert(agg[i * max_d + d] <= agg[i * max_d + (d + 1)]);
        let (c0, c1, c2) = (costs[d - 1] as nat, costs[d] as nat, costs[d + 1] as nat);
        lemma_parabola(c0, c1, c2);
        law_refined_is_exact(d as nat, c0, c1, c2);
    }
}

/// How far slope and curvature are from those of exact arithmetic.
proof fn lemma_slope_and_curvature(c0: nat, c1: nat, c2: nat)
    requires
        winning_costs(c0, c1, c2),
    ensures
        ({
            let e = c0 + c2;
            let s = slope(c0, c2) - (c0 - c2);
            let c = curvature(c0, c1, c2) - (c0 - 2 * c1 + c2);
            &&& 0x100_0000 * s <= 3 * e && -0x100_0000 * s <= 3 * e
            &&& 0x100_0000 * c <= 4 * e && -0x100_0000 * c <= 4 * e
            &&& e < 0x100_0000 ==> s == 0 && c == 0
            &&& e >= 0x100_0000 ==> 7 * e <= 9 * curvature(c0, c1, c2)
        }),
{
    if c0 + c2 < 0x100_0000 {
        lemma_exact_parabola(c0, c1, c2);
    } else {
        lemma_round_small(c1);
        let a = round_nat(c0) as int;
        let c = round_nat(c2) as int;
        law_round_int_error(c0 as int);
        law_round_int_error(c2 as int);
        law_round_int_error(a - 2 * c1);
        law_round_int_error(round_int(a - 2 * c1) + c);
        law_round_int_error(a - c);
    }
}

/// The sub-pixel offset is accurate: it is off the vertex of the parabola by at
/// most 5.5 parts in 2^24 of a pixel.
proof fn lemma_offset_accuracy(c0: nat, c1: nat, c2: nat)
    requires
        winning_costs(c0, c1, c2),
    ensures
        ({
            let den = c0 - 2 * c1 + c2;
            let off = 2 * den * vertex_offset(c0, c1, c2) - (c0 - c2) * 0x1000_0000_0000_0000;
            &&& den > 0
            &&& off <= 11 * den * 0x10_0000_0000
            &&& -off <= 11 * den * 0x10_0000_0000
        }),
{
    lemma_parabola(c0, c1, c2);
    lemma_slope_and_curvature(c0, c1, c2);
    let s = slope(c0, c2);
    let c = curvature(c0, c1, c2);
    let num = c0 - c2;
    let den = c0 - 2 * c1 + c2;
    let o = vertex_offset(c0, c1, c2);
    let n = if s < 0 {
        (-s * 0x1000_0000_0000_0000) as nat
    } else {
        (s * 0x1000_0000_0000_0000) as nat
    };
    let q = round_ratio(n, (2 * c) as nat) as int;
    law_round_error(n, (2 * c) as nat);
    assert(o == q || o == -q);
    assert(q * (2 * c) - n <= 2 * c * 0x10_0000_0000 && n - q * (2 * c) <= 2 * c
        * 0x10_0000_0000);
    assert(o * (2 * c) == if s < 0 {
        -(q * (2 * c))
    } else {
        q * (2 * c)
    }) by (nonlinear_arith)
        requires
            s < 0 ==> o == -q,
            s >= 0 ==> o == q,
    ;
    let a = o * (2 * c) - s * 0x1000_0000_0000_0000;
    assert(-(2 * c * 0x10_0000_0000) <= a <= 2 * c * 0x10_0000_0000);
    let e = (c0 + c2) as int;
    let x = s - num;
    let y = c - den;
    assert(-den <= num <= den);
    assert(0x100_0000 * (s * den - num * c) <= 9 * (c * den) && -0x100_0000 * (s * den - num * c)
        <= 9 * (c * den)) by {
        if e < 0x100_0000 {
            assert(s * den - num * c == 0) by (nonlinear_arith)
                requires
                    s == num,
                    c == den,
            ;
            assert(0 <= c * den) by (nonlinear_arith)
                requires
                    c > 0,
                    den > 0,
            ;
        } else {
            assert(s * den - num * c == x * den - num * y) by (nonlinear_arith)
                requires
                    x == s - num,
                    y == c - den,
            ;
            let xd = x * den;
            let ny = num * y;
            let ed = e * den;
            assert(0x100_0000 * xd <= 3 * ed && -0x100_0000 * xd <= 3 * ed) by (nonlinear_arith)
                requires
                    xd == x * den,
                    ed == e * den,
                    0x100_0000 * x <= 3 * e,
                    -0x100_0000 * x <= 3 * e,
                    den > 0,
            ;
            let ay = if y < 0 {
                -y
            } else {
                y
            };
            assert(ny <= den * ay && -ny <= den * ay) by (nonlinear_arith)
                requires
                    ny == num * y,
                    -den <= num <= den,
                    ay == y || ay == -y,
                    ay >= 0,
                    den > 0,
            ;
            assert(0x100_0000 * (den * ay) <= 4 * ed) by (nonlinear_arith)
                requires
                    ed == e * den,
                    0x100_0000 * ay <= 4 * e,
                    den > 0,
            ;
            assert(7 * ed <= 9 * (c * den)) by (nonlinear_arith)
                requires
                    ed == e * den,
                    7 * e <= 9 * c,
                    den > 0,
            ;
        }
    }
    let off = 2 * den * o - num * 0x1000_0000_0000_0000;
    let g = s * den - num * c;
    assert(off * c == a * den + g * 0x1000_0000_0000_0000) by (nonlinear_arith)
        requires
            off == 2 * den * o - num * 0x1000_0000_0000_0000,
            a == o * (2 * c) - s * 0x1000_0000_0000_0000,
            g == s * den - num * c,
    ;
    let cd = c * den;
    assert(a * den <= 2 * cd * 0x10_0000_0000 && -(a * den) <= 2 * cd * 0x10_0000_0000)
        by (nonlinear_arith)
        requires
            cd == c * den,
            -(2 * c * 0x10_0000_0000) <= a <= 2 * c * 0x10_0000_0000,
            den > 0,
    ;
    assert(off * c <= 11 * cd * 0x10_0000_0000 && -(off * c) <= 11 * cd * 0x10_0000_0000);
    assert(off <= 11 * den * 0x10_0000_0000 && -off <= 11 * den * 0x10_0000_0000)
        by (nonlinear_arith)
        requires
            off * c <= 11 * cd * 0x10_0000_0000,
            -(off * c) <= 11 * cd * 0x10_0000_0000,
            cd == c * den,
            c > 0,
    ;
}

/// The refined disparity is the vertex of the parabola through the three costs
/// around the winner, `d + (c0 - c2) / (2 (c0 - 2 c1 + c2))` pixels, up to the
/// rounding of single precision: it is off by at most `3 d + 8` parts in 2^24 of
/// a pixel.
pub proof fn law_refinement_is_accurate(agg: Seq<u32>, w: int, h: int, max_d: int, i: int, d: int)
    requires
        0 <= i < w * h,
        0 < d < max_d - 1,
        max_d <= usize::MAX,
        w * h * max_d <= agg.len(),
        forall|j: int|
            0 <= j < max_d ==> agg[i * max_d + d] <= #[trigger] agg[i * max_d + j],
        forall|j: int| 0 <= j < d ==> agg[i * max_d + d] < #[trigger] agg[i * max_d + j],
        agg[i * max_d + d] <= 1000,
    ensures
        ({
            let c0 = agg[i * max_d + (d - 1)];
            let c1 = agg[i * max_d + d];
            let c2 = agg[i * max_d + (d + 1)];
            let den = c0 - 2 * c1 + c2;
            let x = disparities(agg, w, h, max_d)[i]->0.ticks - d * 0x1_0000_0000;
            let error = 2 * den * x - (c0 - c2) * 0x1_0000_0000;
            &&& den > 0
            &&& error <= 2 * den * (3 * d + 8) * 0x100
            &&& -error <= 2 * den * (3 * d + 8) * 0x100
        }),
{
    lemma_pixel_costs(agg, w, h, max_d, i, d);
    let costs = agg.subrange(i * max_d, i * max_d + max_d);
    assert(costs[d] == agg[i * max_d + d]);
    assert(costs[d - 1] == agg[i * max_d + (d - 1)]);
    assert(costs[d + 1] == agg[i * max_d + (d + 1)]);
    assert(agg[i * max_d + d] < agg[i * max_d + (d - 1)]);
    assert(agg[i * max_d + d] <= agg[i * max_d + (d + 1)]);
    let (c0, c1, c2) = (costs[d - 1] as nat, costs[d] as nat, costs[d + 1] as nat);
    law_refined_is_exact(d as nat, c0, c1, c2);
    lemma_offset_accuracy(c0, c1, c2);
    lemma_vertex_offset(c0, c1, c2);
    let t = refined_ticks(d as nat, c0, c1, c2);
    let p = vertex_position(d as nat, c0, c1, c2);
    let o = vertex_offset(c0, c1, c2);
    law_round_int_error(p);
    law_round_int_error(d);
    let z = t * 0x1000_0000 - d * 0x1000_0000_0000_0000 - o;
    assert(z <= (3 * d + 2) * 0x10_0000_0000 && -z <= (3 * d + 2) * 0x10_0000_0000);
    let den = c0 - 2 * c1 + c2;
    let num = c0 - c2;
    let x = t - d * 0x1_0000_0000;
    let error = 2 * den * x - num * 0x1_0000_0000;
    let off = 2 * den * o - num * 0x1000_0000_0000_0000;
    assert(error * 0x1000_0000 == 2 * den * z + off) by (nonlinear_arith)
        requires
            z == t * 0x1000_0000 - d * 0x1000_0000_0000_0000 - o,
            x == t - d * 0x1_0000_0000,
            error == 2 * den * x - num * 0x1_0000_0000,
            off == 2 * den * o - num * 0x1000_0000_0000_0000,
    ;
    assert(error <= 2 * den * (3 * d + 8) * 0x100 && -error <= 2 * den * (3 * d + 8) * 0x100)
        by (nonlinear_arith)
        requires
            error * 0x1000_0000 == 2 * den * z + off,
            z <= (3 * d + 2) * 0x10_0000_0000,
            -z <= (3 * d + 2) * 0x10_0000_0000,
            off <= 11 * den * 0x10_0000_0000,
            -off <= 11 * den * 0x10_0000_0000,
            den > 0,
    ;
}

/// Clearing the border takes the disparity of every pixel within `r` of an edge,
/// and keeps all others.
pub proof fn law_border_is_cleared(
    disps: Seq<Option<Disparity>>,
    w: int,
    h: int,
    r: int,
    u: int,
    v: int,
)
    requires
        0 <= u < w,
        0 <= v < h,
        disps.len() == w * h,
    ensures
        without_border(disps, w, h, r).len() == disps.len(),
        without_border(disps, w, h, r)[v * w + u] == if u < r || v < r || u >= w - r || v >= h - r {
            None
        } else {
            disps[v * w + u]
        },
{
    lemma_in_range(v, u, h, w);
    lemma_split(v, u, w);
    assert(h * w == w * h) by (nonlinear_arith);
}

} // verus!
