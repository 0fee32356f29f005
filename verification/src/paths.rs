//! What the aggregation does, stated on its input and output volumes.
//!
//! Adding one direction to a volume of zeros gives the path costs of the
//! direction. The laws of this module say what these costs are: where a path
//! starts, which transitions it offers and at what price, and how path costs
//! make up the aggregated volume.

use vstd::prelude::*;
use crate::aggregate::{
    best_transition, entry_list, law_row_min, law_transition_bounds, row_min, scan_of,
};
use crate::cost::{entry_column, entry_row, lemma_entry, lemma_entry_parts};
use crate::index::{lemma_in_range, lemma_parts, lemma_split};

verus! {

/// A volume of `n` zeros.
pub open spec fn zeros(n: int) -> Seq<u32> {
    Seq::new(n as nat, |i: int| 0u32)
}

/// Path costs stand at their entries in the volume of a single direction.
proof fn lemma_single_direction(
    w: usize,
    h: usize,
    max_d: usize,
    p1: u16,
    p2: u16,
    du: isize,
    dv: isize,
    cost: Seq<u16>,
    u: int,
    v: int,
    d: int,
)
    requires
        -1 <= du <= 1,
        -1 <= dv <= 1,
        du != 0 || dv != 0,
        0 <= u < w,
        0 <= v < h,
        0 <= d < max_d,
        h * w * max_d <= cost.len(),
    ensures
        ({
            let scan = scan_of(w, h, max_d, p1, p2, du, dv);
            let l = scan.added(cost, zeros(h * w * max_d));
            &&& l.len() == h * w * max_d
            &&& 0 <= (v * w + u) * max_d + d < l.len()
            &&& l[(v * w + u) * max_d + d] == scan.path_costs(cost, u, v)[d]
            &&& scan.path_costs(cost, u, v).len() == max_d
        }),
{
    let scan = scan_of(w, h, max_d, p1, p2, du, dv);
    lemma_entry(w as int, h as int, max_d as int, u, v, d);
    scan.lemma_path_costs_len(cost, u, v);
}

/// A path starts with the matching cost: where the step before a pixel lies
/// outside the image, the path cost is the matching cost.
pub proof fn law_path_starts_with_matching_cost(
    w: usize,
    h: usize,
    max_d: usize,
    p1: u16,
    p2: u16,
    du: isize,
    dv: isize,
    cost: Seq<u16>,
    u: int,
    v: int,
    d: int,
)
    requires
        -1 <= du <= 1,
        -1 <= dv <= 1,
        du != 0 || dv != 0,
        0 <= u < w,
        0 <= v < h,
        0 <= d < max_d,
        h * w * max_d <= cost.len(),
        !(0 <= u - du < w && 0 <= v - dv < h),
    ensures
        scan_of(w, h, max_d, p1, p2, du, dv).added(cost, zeros(h * w * max_d))[(v * w + u) * max_d
            + d] == cost[(v * w + u) * max_d + d],
{
    lemma_single_direction(w, h, max_d, p1, p2, du, dv, cost, u, v, d);
    scan_of(w, h, max_d, p1, p2, du, dv).law_path_costs(cost, u, v, d);
}

/// A path may come from any disparity `k` of the pixel before: staying is free,
/// a neighbouring disparity costs P1, any other P2. No path cost exceeds what
/// such a transition costs beyond the cheapest disparity `m` of that pixel.
pub proof fn law_every_transition_is_offered(
    w: usize,
    h: usize,
    max_d: usize,
    p1: u16,
    p2: u16,
    du: isize,
    dv: isize,
    cost: Seq<u16>,
    u: int,
    v: int,
    d: int,
    k: int,
    m: int,
)
    requires
        -1 <= du <= 1,
        -1 <= dv <= 1,
        du != 0 || dv != 0,
        0 <= u < w,
        0 <= v < h,
        0 <= u - du < w,
        0 <= v - dv < h,
        0 <= d < max_d,
        0 <= k < max_d,
        0 <= m < max_d,
        h * w * max_d <= cost.len(),
        ({
            let l = scan_of(w, h, max_d, p1, p2, du, dv).added(cost, zeros(h * w * max_d));
            let before = ((v - dv) * w + (u - du)) * max_d;
            forall|j: int| 0 <= j < max_d ==> l[before + m] <= #[trigger] l[before + j]
        }),
    ensures
        ({
            let l = scan_of(w, h, max_d, p1, p2, du, dv).added(cost, zeros(h * w * max_d));
            let before = ((v - dv) * w + (u - du)) * max_d;
            let here = (v * w + u) * max_d;
            l[here + d] <= cost[here + d] + l[before + k] - l[before + m] + if k == d {
                0
            } else if k == d + 1 || k == d - 1 {
                p1 as int
            } else {
                p2 as int
            }
        }),
{
    let scan = scan_of(w, h, max_d, p1, p2, du, dv);
    lemma_single_direction(w, h, max_d, p1, p2, du, dv, cost, u, v, d);
    lemma_single_direction(w, h, max_d, p1, p2, du, dv, cost, u - du, v - dv, k);
    lemma_cheapest_before(w, h, max_d, p1, p2, du, dv, cost, u - du, v - dv, m);
    scan.law_path_costs(cost, u, v, d);
    let prev = scan.path_costs(cost, u - du, v - dv);
    law_row_min(prev);
    law_transition_bounds(prev, d, p1 as int, p2 as int);
}

/// The cheapest entry of a pixel is the smallest path cost of the pixel.
proof fn lemma_cheapest_before(
    w: usize,
    h: usize,
    max_d: usize,
    p1: u16,
    p2: u16,
    du: isize,
    dv: isize,
    cost: Seq<u16>,
    u: int,
    v: int,
    m: int,
)
    requires
        -1 <= du <= 1,
        -1 <= dv <= 1,
        du != 0 || dv != 0,
        0 <= u < w,
        0 <= v < h,
        0 <= m < max_d,
        h * w * max_d <= cost.len(),
        ({
            let l = scan_of(w, h, max_d, p1, p2, du, dv).added(cost, zeros(h * w * max_d));
            let base = (v * w + u) * max_d;
            forall|j: int| 0 <= j < max_d ==> l[base + m] <= #[trigger] l[base + j]
        }),
    ensures
        ({
            let scan = scan_of(w, h, max_d, p1, p2, du, dv);
            let l = scan.added(cost, zeros(h * w * max_d));
            row_min(scan.path_costs(cost, u, v)) == l[(v * w + u) * max_d + m]
        }),
{
    let scan = scan_of(w, h, max_d, p1, p2, du, dv);
    let l = scan.added(cost, zeros(h * w * max_d));
    let base = (v * w + u) * max_d;
    let row = scan.path_costs(cost, u, v);
    lemma_single_direction(w, h, max_d, p1, p2, du, dv, cost, u, v, m);
    law_row_min(row);
    let j = choose|j: int| 0 <= j < row.len() && row_min(row) == #[trigger] row[j];
    lemma_single_direction(w, h, max_d, p1, p2, du, dv, cost, u, v, j);
    assert(l[base + m] <= l[base + j]);
    assert(row_min(row) <= row[m]);
}

/// A path takes one of the transitions on offer: its cost is the matching cost
/// plus what coming from some disparity `k` of the pixel before costs beyond the
/// cheapest disparity `m` of that pixel, capped at the largest 16-bit value. A
/// neighbouring disparity costs the cheaper of the two penalties.
pub proof fn law_some_transition_is_taken(
    w: usize,
    h: usize,
    max_d: usize,
    p1: u16,
    p2: u16,
    du: isize,
    dv: isize,
    cost: Seq<u16>,
    u: int,
    v: int,
    d: int,
    m: int,
) -> (k: int)
    requires
        -1 <= du <= 1,
        -1 <= dv <= 1,
        du != 0 || dv != 0,
        0 <= u < w,
        0 <= v < h,
        0 <= u - du < w,
        0 <= v - dv < h,
        0 <= d < max_d,
        0 <= m < max_d,
        h * w * max_d <= cost.len(),
        ({
            let l = scan_of(w, h, max_d, p1, p2, du, dv).added(cost, zeros(h * w * max_d));
            let before = ((v - dv) * w + (u - du)) * max_d;
            forall|j: int| 0 <= j < max_d ==> l[before + m] <= #[trigger] l[before + j]
        }),
    ensures
        0 <= k < max_d,
        ({
            let l = scan_of(w, h, max_d, p1, p2, du, dv).added(cost, zeros(h * w * max_d));
            let before = ((v - dv) * w + (u - du)) * max_d;
            let here = (v * w + u) * max_d;
            let x = cost[here + d] + l[before + k] - l[before + m] + if k == d {
                0
            } else if (k == d + 1 || k == d - 1) && p1 <= p2 {
                p1 as int
            } else {
                p2 as int
            };
            l[here + d] == if x > 65535 {
                65535
            } else {
                x
            }
        }),
{
    let scan = scan_of(w, h, max_d, p1, p2, du, dv);
    let l = scan.added(cost, zeros(h * w * max_d));
    let before = ((v - dv) * w + (u - du)) * max_d;
    let prev = scan.path_costs(cost, u - du, v - dv);
    lemma_single_direction(w, h, max_d, p1, p2, du, dv, cost, u, v, d);
    lemma_cheapest_before(w, h, max_d, p1, p2, du, dv, cost, u - du, v - dv, m);
    scan.law_path_costs(cost, u, v, d);
    lemma_single_direction(w, h, max_d, p1, p2, du, dv, cost, u - du, v - dv, m);
    lemma_single_direction(w, h, max_d, p1, p2, du, dv, cost, u - du, v - dv, d);
    law_transition_bounds(prev, d, p1 as int, p2 as int);
    law_row_min(prev);
    let best = best_transition(prev, d, p1 as int, p2 as int);
    assert(prev[m] == row_min(prev));
    let k = if best == prev[d] {
        d
    } else if best == row_min(prev) + p2 {
        m
    } else if d > 0 && best == prev[d - 1] + p1 {
        lemma_single_direction(w, h, max_d, p1, p2, du, dv, cost, u - du, v - dv, d - 1);
        d - 1
    } else {
        lemma_single_direction(w, h, max_d, p1, p2, du, dv, cost, u - du, v - dv, d + 1);
        d + 1
    };
    assert(l[before + k] == prev[k]);
    k
}

/// Aggregating a direction adds its path costs: every entry of the volume grows
/// by the path cost that the direction alone gives it, capped at the largest
/// 32-bit value, and nothing else changes.
pub proof fn law_direction_adds_path_costs(
    w: usize,
    h: usize,
    max_d: usize,
    p1: u16,
    p2: u16,
    du: isize,
    dv: isize,
    cost: Seq<u16>,
    agg: Seq<u32>,
    i: int,
)
    requires
        0 <= i < agg.len(),
        h * w * max_d <= agg.len(),
    ensures
        ({
            let scan = scan_of(w, h, max_d, p1, p2, du, dv);
            let out = scan.added(cost, agg);
            let l = scan.added(cost, zeros(h * w * max_d));
            &&& out.len() == agg.len()
            &&& i >= h * w * max_d ==> out[i] == agg[i]
            &&& i < h * w * max_d ==> l[i] <= 65535
            &&& i < h * w * max_d ==> out[i] == if agg[i] + l[i] > u32::MAX {
                u32::MAX as int
            } else {
                agg[i] + l[i]
            }
        }),
{
}

/// An aggregated cost is the sum of the path costs of the eight directions:
/// right, left, down, up and the four diagonals.
pub proof fn law_eight_directions(
    w: usize,
    h: usize,
    max_d: usize,
    p1: u16,
    p2: u16,
    cost: Seq<u16>,
    i: int,
)
    requires
        0 <= i < h * w * max_d,
        h * w * max_d <= cost.len(),
    ensures
        ({
            let z = zeros(h * w * max_d);
            let back = (-1) as isize;
            let total = scan_of(w, h, max_d, p1, p2, 0, 0).aggregated(cost);
            &&& total.len() == h * w * max_d
            &&& total[i] == scan_of(w, h, max_d, p1, p2, 1, 0).added(cost, z)[i] + scan_of(
                w,
                h,
                max_d,
                p1,
                p2,
                back,
                0,
            ).added(cost, z)[i] + scan_of(w, h, max_d, p1, p2, 0, 1).added(cost, z)[i] + scan_of(
                w,
                h,
                max_d,
                p1,
                p2,
                0,
                back,
            ).added(cost, z)[i] + scan_of(w, h, max_d, p1, p2, 1, 1).added(cost, z)[i] + scan_of(
                w,
                h,
                max_d,
                p1,
                p2,
                back,
                back,
            ).added(cost, z)[i] + scan_of(w, h, max_d, p1, p2, 1, back).added(cost, z)[i] + scan_of(
                w,
                h,
                max_d,
                p1,
                p2,
                back,
                1,
            ).added(cost, z)[i]
        }),
{
    lemma_entry_parts(i, w as int, h as int, max_d as int);
    let u = entry_column(i, w as int, max_d as int);
    let v = entry_row(i, w as int, max_d as int);
    let d = i % (max_d as int);
    let plain = scan_of(w, h, max_d, p1, p2, 0, 0);
    let back = (-1) as isize;
    plain.law_aggregated(cost, u, v, d);
    assert(plain.towards(0) == scan_of(w, h, max_d, p1, p2, 1, 0));
    assert(plain.towards(1) == scan_of(w, h, max_d, p1, p2, back, 0));
    assert(plain.towards(2) == scan_of(w, h, max_d, p1, p2, 0, 1));
    assert(plain.towards(3) == scan_of(w, h, max_d, p1, p2, 0, back));
    assert(plain.towards(4) == scan_of(w, h, max_d, p1, p2, 1, 1));
    assert(plain.towards(5) == scan_of(w, h, max_d, p1, p2, back, back));
    assert(plain.towards(6) == scan_of(w, h, max_d, p1, p2, 1, back));
    assert(plain.towards(7) == scan_of(w, h, max_d, p1, p2, back, 1));
}

/// The volume can be walked in all eight directions whenever it is there, can be
/// indexed, and its sides are countable with a sign.
pub proof fn law_walk_defined(
    w: usize,
    h: usize,
    max_d: usize,
    p1: u16,
    p2: u16,
    du: isize,
    dv: isize,
    cost_len: nat,
)
    requires
        du <= 1,
        dv <= 1,
        w <= isize::MAX,
        h <= isize::MAX,
        h * w <= usize::MAX,
        h * w * max_d <= usize::MAX,
        h * w * max_d <= cost_len,
    ensures
        scan_of(w, h, max_d, p1, p2, du, dv).defined(cost_len),
{
}

/// The paths of one of the eight directions start at the pixels from which one
/// step back leads out of the image, each once.
pub proof fn law_starts_have_no_predecessor(w: usize, h: usize, du: isize, dv: isize)
    requires
        -1 <= du <= 1,
        -1 <= dv <= 1,
        du != 0 || dv != 0,
    ensures
        entry_list(w as int, h as int, du as int, dv as int).no_duplicates(),
        forall|u: usize, v: usize|
            #[trigger] entry_list(w as int, h as int, du as int, dv as int).contains((u, v)) <==> u
                < w && v < h && !(0 <= u - du < w && 0 <= v - dv < h),
{
    scan_of(w, h, 0, 0, 0, du, dv).law_entries();
}

/// For steps of any length the paths start at the edges that the step leaves
/// behind; without a step they start everywhere.
pub proof fn law_starts_are_edges(w: usize, h: usize, du: isize, dv: isize, u: usize, v: usize)
    ensures
        entry_list(w as int, h as int, du as int, dv as int).no_duplicates(),
        entry_list(w as int, h as int, du as int, dv as int).contains((u, v)) <==> u < w && v < h
            && ((du == 0 && dv == 0) || (du > 0 && u == 0) || (du < 0 && u == w - 1) || (dv > 0 && v
            == 0) || (dv < 0 && v == h - 1)),
{
    scan_of(w, h, 0, 0, 0, du, dv).law_entries();
    let list = entry_list(w as int, h as int, du as int, dv as int);
    let (a, b) = (u as int, v as int);
    if list.contains((u, v)) {
        let i = choose|i: int| 0 <= i < list.len() && list[i] == (u, v);
        if du == 0 && dv == 0 {
            lemma_parts(i, w as int, h as int);
        }
    }
    if u < w && v < h {
        if du == 0 && dv == 0 {
            lemma_in_range(a, b, w as int, h as int);
            lemma_split(a, b, h as int);
            assert(list[a * h + b] == (u, v));
        } else if du != 0 && a == (if du > 0 {
            0
        } else {
            w - 1
        }) {
            assert(list[b] == (u, v));
        } else if dv != 0 && b == (if dv > 0 {
            0
        } else {
            h - 1
        }) {
            let i = if du == 0 {
                a
            } else if du > 0 {
                h + a - 1
            } else {
                h + a
            };
            assert(list[i] == (u, v));
        }
    }
}

/// A direction along an axis starts at the edge that it leaves behind, in order.
pub proof fn law_axis_starts(w: usize, h: usize, step: isize, j: int)
    requires
        w > 0,
        h > 0,
        step != 0,
        0 <= j,
    ensures
        entry_list(w as int, h as int, step as int, 0).len() == h,
        entry_list(w as int, h as int, 0, step as int).len() == w,
        j < h ==> entry_list(w as int, h as int, step as int, 0)[j] == (
            if step > 0 {
                0usize
            } else {
                (w - 1) as usize
            },
            j as usize,
        ),
        j < w ==> entry_list(w as int, h as int, 0, step as int)[j] == (
            j as usize,
            if step > 0 {
                0usize
            } else {
                (h - 1) as usize
            },
        ),
{
}

} // verus!
