//! Laws of the whole pipeline.

use vstd::prelude::*;
use kornia_image::Image;
use crate::aggregate::{law_row_min, scan_of, Scan};
use crate::binary32::{law_round_int_error, law_round_monotone, lemma_round_small};
use crate::bits::law_hamming;
use crate::census::{
    census_map, census_word, law_census_gain_bias, law_census_order_only, lemma_neighbour_offset,
    neighbour_count, neighbour_offset, window_fits,
};
use crate::consistency::{
    consistent, gap, law_check_monotone, law_check_only_removes, law_check_partner,
};
use crate::cost::{
    cost_volume, cost_volume_right, law_cost_range, law_volumes_agree, lemma_entry,
};
use crate::disparity::{
    best_disparity, disparities, is_winner, law_refined_below_next, law_refined_is_exact,
    law_refined_within_half_pixel, law_winner_unique, lemma_pixel_ticks, lemma_winner_exists,
    nearest_pixel, pixel_ticks, winner, without_border, Disparity,
};
use crate::image::{image_height, image_on_host, image_pixels, image_width};
use crate::index::{lemma_in_range, lemma_parts, lemma_split};
use crate::matcher::StereoMatcher;

verus! {

/// Whether disparity `d` costs nothing at any pixel.
pub open spec fn is_free(scan: Scan, cost: Seq<u16>, d: int) -> bool {
    forall|u: int, v: int| scan.inside(u, v) ==> #[trigger] scan.at(cost, u, v, d) == 0
}

/// A disparity that costs nothing at any pixel costs nothing along a path.
proof fn lemma_free_path(scan: Scan, cost: Seq<u16>, u: int, v: int, d: int)
    requires
        scan.is_direction(),
        0 <= d < scan.max_d,
        0 <= scan.p1,
        0 <= scan.p2,
        scan.volume() <= cost.len(),
        scan.inside(u, v),
        is_free(scan, cost, d),
    ensures
        scan.contribution(cost, u, v, d) == 0,
    decreases
            if scan.du == 0 {
                scan.row_steps(v)
            } else {
                scan.column_steps(u)
            },
{
    assert(scan.at(cost, u, v, d) == 0);
    scan.law_path_costs(cost, u, v, d);
    if !scan.is_entry(u, v) {
        lemma_free_path(scan, cost, u - scan.du, v - scan.dv, d);
        scan.lemma_path_costs_len(cost, u - scan.du, v - scan.dv);
        law_row_min(scan.path_costs(cost, u - scan.du, v - scan.dv));
    }
}

/// A disparity that costs nothing at any pixel costs nothing after aggregation.
pub proof fn law_free_disparity(scan: Scan, cost: Seq<u16>, u: int, v: int, d: int)
    requires
        0 <= d < scan.max_d,
        0 <= scan.p1,
        0 <= scan.p2,
        scan.volume() <= cost.len(),
        scan.inside(u, v),
        is_free(scan, cost, d),
    ensures
        scan.at(scan.aggregated(cost), u, v, d) == 0,
{
    scan.law_aggregated(cost, u, v, d);
    assert forall|k: int| 0 <= k < 8 implies #[trigger] scan.towards(k).contribution(cost, u, v, d)
        == 0 by {
        let s = scan.towards(k);
        assert(s.is_direction());
        assert forall|a: int, b: int| s.inside(a, b) implies #[trigger] s.at(cost, a, b, d)
            == 0 by {
            assert(scan.at(cost, a, b, d) == 0);
        }
        lemma_free_path(s, cost, u, v, d);
    }
}

/// If disparity 0 costs nothing at any pixel, it is the disparity of every
/// pixel.
proof fn lemma_zero_disparity(scan: Scan, cost: Seq<u16>, i: int)
    requires
        0 < scan.max_d,
        0 <= scan.w,
        0 <= scan.p1,
        0 <= scan.p2,
        scan.volume() <= cost.len(),
        0 <= i < scan.w * scan.h,
        is_free(scan, cost, 0),
    ensures
        disparities(scan.aggregated(cost), scan.w, scan.h, scan.max_d)[i] == Some(
            Disparity { ticks: 0 },
        ),
{
    assert(scan.w * scan.h == scan.h * scan.w) by (nonlinear_arith);
    lemma_parts(i, scan.h, scan.w);
    let u = i % scan.w;
    let v = i / scan.w;
    lemma_entry(scan.w, scan.h, scan.max_d, u, v, 0);
    law_free_disparity(scan, cost, u, v, 0);
    let agg = scan.aggregated(cost);
    assert(agg[i * scan.max_d] == 0);
    let costs = agg.subrange(i * scan.max_d, i * scan.max_d + scan.max_d);
    assert(costs[0] == 0);
    assert(is_winner(costs, 0));
    law_winner_unique(costs, 0);
    lemma_round_small(0);
}

/// Whether the right view is the left view shifted by `k` pixels: what the left
/// view shows in column `u`, the right view shows in column `u - k`.
pub open spec fn is_shifted(left: Seq<u8>, right: Seq<u8>, w: int, h: int, k: int) -> bool {
    forall|u: int, v: int|
        k <= u < w && 0 <= v < h ==> #[trigger] left[v * w + u] == right[v * w + (u - k)]
}

/// A shift moves the descriptions along.
proof fn lemma_word_shifted(
    left: Seq<u8>,
    right: Seq<u8>,
    w: int,
    h: int,
    r: int,
    k: int,
    u: int,
    v: int,
    n: nat,
)
    requires
        0 <= r,
        is_shifted(left, right, w, h, k),
        window_fits(w, h, r, u, v),
        k + r <= u,
        n <= neighbour_count(r),
    ensures
        census_word(left, w, r, u, v, n) == census_word(right, w, r, u - k, v, n),
    decreases n,
{
    if n > 0 {
        lemma_word_shifted(left, right, w, h, r, k, u, v, (n - 1) as nat);
        lemma_neighbour_offset(r, n - 1);
        let (du, dv) = neighbour_offset(r, n - 1);
        assert(left[v * w + u] == right[v * w + (u - k)]);
        assert(left[(v + dv) * w + (u + du)] == right[(v + dv) * w + (u + du - k)]);
    }
}

/// A pixel with a disparity has a candidate of smallest cost within half a pixel
/// of it.
proof fn lemma_cheapest(
    w: usize,
    h: usize,
    n: usize,
    p1: u16,
    p2: u16,
    cost: Seq<u16>,
    u: int,
    v: int,
) -> (d: int)
    requires
        n <= 0x80_0000,
        0 <= u < w,
        0 <= v < h,
        h * w * n <= cost.len(),
        disparities(
            scan_of(w, h, n, p1, p2, 0, 0).aggregated(cost),
            w as int,
            h as int,
            n as int,
        )[v * w + u] is Some,
    ensures
        0 <= d < n,
        ({
            let agg = scan_of(w, h, n, p1, p2, 0, 0).aggregated(cost);
            let base = (v * w + u) * n;
            let x = disparities(agg, w as int, h as int, n as int)[v * w + u]->0.ticks;
            &&& agg[base + d] <= 1000
            &&& forall|k: int| 0 <= k < n ==> agg[base + d] <= #[trigger] agg[base + k]
            &&& (2 * d - 1) * 0x1_0000_0000 <= 2 * x <= (2 * d + 1) * 0x1_0000_0000
        }),
{
    let (wi, hi, ni) = (w as int, h as int, n as int);
    let scan = scan_of(w, h, n, p1, p2, 0, 0);
    let agg = scan.aggregated(cost);
    let i = v * wi + u;
    lemma_in_range(v, u, hi, wi);
    assert(w * h == h * w) by (nonlinear_arith);
    assert(0 <= hi * wi * ni) by (nonlinear_arith)
        requires
            0 <= hi * wi,
            0 <= ni,
    ;
    assert(0 <= i * ni && i * ni + ni <= hi * wi * ni) by (nonlinear_arith)
        requires
            0 <= i,
            i + 1 <= hi * wi,
            0 <= ni,
    ;
    let costs = agg.subrange(i * ni, i * ni + ni);
    assert(best_disparity(costs) is Some);
    lemma_winner_exists(costs);
    let d = winner(costs);
    assert forall|k: int| 0 <= k < ni implies agg[i * ni + d] <= #[trigger] agg[i * ni + k] by {
        assert(costs[d] <= costs[k]);
    }
    if 0 < d && d + 1 < ni {
        assert(costs[d] < costs[d - 1]);
        let (c0, c1, c2) = (costs[d - 1] as nat, costs[d] as nat, costs[d + 1] as nat);
        scan.law_aggregated(cost, u, v, d - 1);
        scan.law_aggregated(cost, u, v, d + 1);
        assert(costs[d - 1] == agg[i * ni + (d - 1)] && costs[d + 1] == agg[i * ni + (d + 1)]);
        law_refined_is_exact(d as nat, c0, c1, c2);
        law_refined_within_half_pixel(d as nat, c0, c1, c2);
    } else {
        lemma_pixel_ticks(d as nat);
        lemma_round_small(d as nat);
    }
    d
}

impl StereoMatcher {
    /// Pixels within the Census radius of the border carry no disparity.
    pub proof fn law_border_is_invalid(
        self,
        left: Seq<u8>,
        right: Seq<u8>,
        w: int,
        h: int,
        u: int,
        v: int,
    )
        requires
            0 <= u < w,
            0 <= v < h,
            u < self.census_radius || v < self.census_radius || u >= w - self.census_radius || v >= h
                - self.census_radius,
        ensures
            self.disparity_map(left, right, w, h)[v * w + u] is None,
    {
        lemma_in_range(v, u, h, w);
        lemma_split(v, u, w);
        assert(w * h == h * w) by (nonlinear_arith);
    }

    /// Two identical views have disparity 0 at every pixel away from the border.
    pub proof fn law_identical_views(self, image: Seq<u8>, w: int, h: int, i: int)
        requires
            self.max_disparity > 0,
            0 <= w,
            0 <= i < w * h,
            self.census_radius <= i % w < w - self.census_radius,
            self.census_radius <= i / w < h - self.census_radius,
        ensures
            self.disparity_map(image, image, w, h)[i] == Some(Disparity { ticks: 0 }),
    {
        let scan = self.scan(w, h);
        let d = self.max_disparity as int;
        let census = census_map(image, w, h, self.census_radius as int);
        let cost = cost_volume(census, census, w, h, d);
        let cost_r = cost_volume_right(census, census, w, h, d);
        assert(w * h == h * w) by (nonlinear_arith);
        assert(scan.volume() >= 0) by {
            lemma_parts(i, h, w);
            lemma_entry(w, h, d, i % w, i / w, 0);
        }
        assert forall|u: int, v: int| scan.inside(u, v) implies #[trigger] scan.at(cost, u, v, 0)
            == 0 by {
            lemma_entry(w, h, d, u, v, 0);
            law_hamming(census[v * w + u], census[v * w + u]);
        }
        assert forall|u: int, v: int| scan.inside(u, v) implies #[trigger] scan.at(cost_r, u, v, 0)
            == 0 by {
            lemma_entry(w, h, d, u, v, 0);
            law_hamming(census[v * w + u], census[v * w + u]);
        }
        lemma_zero_disparity(scan, cost, i);
        lemma_zero_disparity(scan, cost_r, i);
        lemma_parts(i, h, w);
        lemma_round_small(0);
        assert(nearest_pixel(0) == 0);
        let zero = Disparity { ticks: 0 };
        assert(gap(zero, zero) == 0);
    }

    /// Only the order of the grey levels matters: views whose pixels compare
    /// alike have the same disparity map.
    pub proof fn law_order_only(
        self,
        left: Seq<u8>,
        right: Seq<u8>,
        left2: Seq<u8>,
        right2: Seq<u8>,
        w: int,
        h: int,
    )
        requires
            0 <= w,
            w * h <= left.len(),
            w * h <= right.len(),
            forall|i: int, j: int|
                0 <= i < w * h && 0 <= j < w * h ==> (#[trigger] left[i] < #[trigger] left[j]
                    <==> left2[i] < left2[j]),
            forall|i: int, j: int|
                0 <= i < w * h && 0 <= j < w * h ==> (#[trigger] right[i] < #[trigger] right[j]
                    <==> right2[i] < right2[j]),
        ensures
            self.disparity_map(left, right, w, h) == self.disparity_map(left2, right2, w, h),
    {
        law_census_order_only(left, left2, w, h, self.census_radius as int);
        law_census_order_only(right, right2, w, h, self.census_radius as int);
    }

    /// A gain and a bias on either view leave the disparity map alone.
    pub proof fn law_gain_and_bias(
        self,
        left: Seq<u8>,
        right: Seq<u8>,
        left2: Seq<u8>,
        right2: Seq<u8>,
        w: int,
        h: int,
        left_gain: int,
        left_bias: int,
        right_gain: int,
        right_bias: int,
    )
        requires
            0 <= w,
            w * h <= left.len(),
            w * h <= right.len(),
            0 < left_gain,
            0 < right_gain,
            forall|i: int|
                0 <= i < w * h ==> #[trigger] left2[i] == left_gain * left[i] + left_bias,
            forall|i: int|
                0 <= i < w * h ==> #[trigger] right2[i] == right_gain * right[i] + right_bias,
        ensures
            self.disparity_map(left, right, w, h) == self.disparity_map(left2, right2, w, h),
    {
        let r = self.census_radius as int;
        law_census_gain_bias(left, left2, w, h, r, left_gain, left_bias);
        law_census_gain_bias(right, right2, w, h, r, right_gain, right_bias);
    }

    /// Every disparity lies in the search range: it is not negative and at most
    /// `max_disparity - 1` pixels, the last candidate as single precision holds
    /// it.
    pub proof fn law_disparity_in_range(
        self,
        left: Seq<u8>,
        right: Seq<u8>,
        w: int,
        h: int,
        i: int,
    )
        requires
            0 <= w,
            0 <= i < w * h,
            self.disparity_map(left, right, w, h)[i] is Some,
        ensures
            self.max_disparity > 0,
            self.disparity_map(left, right, w, h)[i]->0.ticks <= pixel_ticks(
                (self.max_disparity - 1) as nat,
            ),
    {
        let scan = self.scan(w, h);
        let d = self.max_disparity as int;
        let r = self.census_radius as int;
        let cost = cost_volume(census_map(left, w, h, r), census_map(right, w, h, r), w, h, d);
        let agg = scan.aggregated(cost);
        assert(w * h == h * w) by (nonlinear_arith);
        assert(0 <= h * w * d) by (nonlinear_arith)
            requires
                0 <= h * w,
                0 <= d,
        ;
        assert(0 <= i * d && i * d + d <= h * w * d) by (nonlinear_arith)
            requires
                0 <= i,
                i + 1 <= h * w,
                0 <= d,
        ;
        let costs = agg.subrange(i * d, i * d + d);
        assert(best_disparity(costs) is Some);
        lemma_winner_exists(costs);
        let k = winner(costs);
        if 0 < k && k + 1 < costs.len() {
            assert(costs[k] < costs[k - 1]);
            let (c0, c1, c2) = (costs[k - 1] as nat, costs[k] as nat, costs[k + 1] as nat);
            law_refined_is_exact(k as nat, c0, c1, c2);
            law_refined_below_next(k as nat, c0, c1, c2);
            law_round_monotone((k + 1) as nat, (d - 1) as nat);
        } else {
            lemma_pixel_ticks(k as nat);
            law_round_monotone(k as nat, (d - 1) as nat);
        }
    }

    /// Every disparity that the left-right check leaves agrees with the right
    /// view: the right pixel that it points at exists, and has a disparity that
    /// differs by at most `lr_max_diff`.
    pub proof fn law_disparity_has_partner(
        self,
        left: Seq<u8>,
        right: Seq<u8>,
        w: int,
        h: int,
        u: int,
        v: int,
    )
        requires
            self.lr_max_diff != usize::MAX,
            0 <= u < w,
            0 <= v < h,
            self.disparity_map(left, right, w, h)[v * w + u] is Some,
        ensures
            ({
                let dl = self.disparity_map(left, right, w, h)[v * w + u]->0;
                let ur = u - nearest_pixel(dl.ticks as int);
                &&& 0 <= ur <= u
                &&& self.right_disparities(left, right, w, h)[v * w + ur] matches Some(dr) && gap(
                    dl,
                    dr,
                ) <= pixel_ticks(self.lr_max_diff as nat)
            }),
    {
        let disp_l = self.left_disparities(left, right, w, h);
        let disp_r = self.right_disparities(left, right, w, h);
        lemma_in_range(v, u, h, w);
        assert(w * h == h * w) by (nonlinear_arith);
        law_check_partner(disp_l, disp_r, w, h, self.lr_max_diff as nat, u, v);
    }

    /// In a pair whose right view is the left view shifted by `k` pixels, the
    /// disparity `k` costs nothing wherever both windows lie in the shared
    /// part, seen from either view.
    pub proof fn law_shift_costs_nothing(
        self,
        left: Seq<u8>,
        right: Seq<u8>,
        w: int,
        h: int,
        k: int,
        u: int,
        v: int,
    )
        requires
            0 <= k < self.max_disparity,
            is_shifted(left, right, w, h, k),
            k + self.census_radius <= u < w - self.census_radius,
            0 <= v < h,
        ensures
            ({
                let r = self.census_radius as int;
                let d = self.max_disparity as int;
                let census_l = census_map(left, w, h, r);
                let census_r = census_map(right, w, h, r);
                &&& cost_volume(census_l, census_r, w, h, d)[(v * w + u) * d + k] == 0
                &&& cost_volume_right(census_l, census_r, w, h, d)[(v * w + (u - k)) * d + k] == 0
            }),
    {
        let r = self.census_radius as int;
        let d = self.max_disparity as int;
        let census_l = census_map(left, w, h, r);
        let census_r = census_map(right, w, h, r);
        lemma_in_range(v, u, h, w);
        lemma_in_range(v, u - k, h, w);
        lemma_split(v, u, w);
        lemma_split(v, u - k, w);
        assert(w * h == h * w) by (nonlinear_arith);
        if window_fits(w, h, r, u, v) {
            assert(neighbour_count(r) >= 0) by (nonlinear_arith)
                requires
                    0 <= r,
                    neighbour_count(r) == (2 * r + 1) * (2 * r + 1) - 1,
            ;
            lemma_word_shifted(left, right, w, h, r, k, u, v, neighbour_count(r) as nat);
        }
        assert(census_l[v * w + u] == census_r[v * w + u - k]);
        law_cost_range(census_l, census_r, w, h, d, u, v, k);
        law_volumes_agree(census_l, census_r, w, h, d, u - k, v, k);
    }

    /// A looser left-right check keeps every disparity that a tighter one keeps.
    pub proof fn law_looser_check(
        self,
        looser: StereoMatcher,
        left: Seq<u8>,
        right: Seq<u8>,
        w: int,
        h: int,
        i: int,
    )
        requires
            looser == (StereoMatcher { lr_max_diff: looser.lr_max_diff, ..self }),
            self.lr_max_diff <= looser.lr_max_diff,
            0 <= i < w * h,
            self.disparity_map(left, right, w, h)[i] is Some,
        ensures
            looser.disparity_map(left, right, w, h)[i] == self.disparity_map(left, right, w, h)[i],
    {
        let disp_l = self.left_disparities(left, right, w, h);
        let disp_r = self.right_disparities(left, right, w, h);
        assert(looser.scan(w, h) == self.scan(w, h));
        assert(looser.left_disparities(left, right, w, h) == disp_l);
        assert(looser.right_disparities(left, right, w, h) == disp_r);
        if self.lr_max_diff != usize::MAX {
            let low = self.lr_max_diff as nat;
            law_check_only_removes(disp_l, disp_r, w, h, low, i);
            law_check_monotone(disp_l, disp_r, w, h, low, looser.lr_max_diff as nat, i);
        }
    }

    /// What the matcher is made of: the views are described, the descriptions
    /// compared, the costs aggregated, the cheapest candidates chosen, and the
    /// border cleared, for either view; then the left disparities are checked
    /// against the right ones, unless `lr_max_diff` is `usize::MAX`.
    pub proof fn law_stages(self, left: Seq<u8>, right: Seq<u8>, w: usize, h: usize)
        ensures
            ({
                let d = self.max_disparity;
                let r = self.census_radius as int;
                let (wi, hi, di) = (w as int, h as int, d as int);
                let a = census_map(left, wi, hi, r);
                let b = census_map(right, wi, hi, r);
                let scan = scan_of(w, h, d, self.p1, self.p2, 0, 0);
                let l = scan.aggregated(cost_volume(a, b, wi, hi, di));
                let s = scan.aggregated(cost_volume_right(a, b, wi, hi, di));
                let disp_l = without_border(disparities(l, wi, hi, di), wi, hi, r);
                let disp_r = without_border(disparities(s, wi, hi, di), wi, hi, r);
                &&& self.lr_max_diff == usize::MAX ==> self.disparity_map(left, right, wi, hi)
                    == disp_l
                &&& self.lr_max_diff != usize::MAX ==> self.disparity_map(left, right, wi, hi)
                    == consistent(disp_l, disp_r, wi, hi, self.lr_max_diff as nat)
            }),
    {
        assert(self.scan(w as int, h as int) == scan_of(
            w,
            h,
            self.max_disparity,
            self.p1,
            self.p2,
            0,
            0,
        ));
    }

    /// A reported disparity belongs to a candidate of smallest aggregated cost:
    /// it lies within half a pixel of a candidate `d` that no other candidate
    /// undercuts and whose cost is at most 1000. Stated for search ranges in
    /// which single precision counts half pixels.
    pub proof fn law_disparity_is_cheapest(
        self,
        left: Seq<u8>,
        right: Seq<u8>,
        w: usize,
        h: usize,
        u: int,
        v: int,
    ) -> (d: int)
        requires
            self.max_disparity <= 0x80_0000,
            0 <= u < w,
            0 <= v < h,
            self.disparity_map(left, right, w as int, h as int)[v * w + u] is Some,
        ensures
            0 <= d < self.max_disparity,
            ({
                let n = self.max_disparity;
                let r = self.census_radius as int;
                let a = census_map(left, w as int, h as int, r);
                let b = census_map(right, w as int, h as int, r);
                let cost = cost_volume(a, b, w as int, h as int, n as int);
                let agg = scan_of(w, h, n, self.p1, self.p2, 0, 0).aggregated(cost);
                let base = (v * w + u) * n;
                let x = self.disparity_map(left, right, w as int, h as int)[v * w + u]->0.ticks;
                &&& agg[base + d] <= 1000
                &&& forall|k: int| 0 <= k < n ==> agg[base + d] <= #[trigger] agg[base + k]
                &&& (2 * d - 1) * 0x1_0000_0000 <= 2 * x <= (2 * d + 1) * 0x1_0000_0000
            }),
    {
        let n = self.max_disparity;
        let (wi, hi, ni) = (w as int, h as int, n as int);
        let r = self.census_radius as int;
        let cost = cost_volume(
            census_map(left, wi, hi, r),
            census_map(right, wi, hi, r),
            wi,
            hi,
            ni,
        );
        assert(self.scan(wi, hi) == scan_of(w, h, n, self.p1, self.p2, 0, 0));
        lemma_in_range(v, u, hi, wi);
        assert(w * h == h * w) by (nonlinear_arith);
        assert(hi * wi * ni >= 0) by (nonlinear_arith)
            requires
                0 <= hi * wi,
                0 <= ni,
        ;
        lemma_cheapest(w, h, n, self.p1, self.p2, cost, u, v)
    }

    /// A disparity that passes the left-right check agrees with the right view:
    /// the right pixel that it points at has itself a candidate `d` of smallest
    /// aggregated cost, and a disparity `y` within half a pixel of it that
    /// differs by at most `lr_max_diff` up to rounding. The right view is matched
    /// with the same parameters.
    pub proof fn law_partner_is_cheapest(
        self,
        left: Seq<u8>,
        right: Seq<u8>,
        w: usize,
        h: usize,
        u: int,
        v: int,
    ) -> (p: (int, int))
        requires
            self.lr_max_diff != usize::MAX,
            self.max_disparity <= 0x80_0000,
            0 <= u < w,
            0 <= v < h,
            self.disparity_map(left, right, w as int, h as int)[v * w + u] is Some,
        ensures
            0 <= p.0 < self.max_disparity,
            ({
                let (d, y) = p;
                let n = self.max_disparity;
                let r = self.census_radius as int;
                let a = census_map(left, w as int, h as int, r);
                let b = census_map(right, w as int, h as int, r);
                let cost = cost_volume_right(a, b, w as int, h as int, n as int);
                let agg = scan_of(w, h, n, self.p1, self.p2, 0, 0).aggregated(cost);
                let x = self.disparity_map(left, right, w as int, h as int)[v * w + u]->0.ticks;
                let ur = u - (x + 0x8000_0000) / 0x1_0000_0000;
                let base = (v * w + ur) * n;
                let limit = 0x100_0001 * (self.lr_max_diff * 0x1_0000_0000);
                &&& r <= ur < w - r
                &&& agg[base + d] <= 1000
                &&& forall|k: int| 0 <= k < n ==> agg[base + d] <= #[trigger] agg[base + k]
                &&& (2 * d - 1) * 0x1_0000_0000 <= 2 * y <= (2 * d + 1) * 0x1_0000_0000
                &&& 0xff_ffff * (x - y) <= limit
                &&& 0xff_ffff * (y - x) <= limit
            }),
    {
        let n = self.max_disparity;
        let (wi, hi, ni) = (w as int, h as int, n as int);
        let r = self.census_radius as int;
        let cost = cost_volume_right(
            census_map(left, wi, hi, r),
            census_map(right, wi, hi, r),
            wi,
            hi,
            ni,
        );
        assert(self.scan(wi, hi) == scan_of(w, h, n, self.p1, self.p2, 0, 0));
        let x = self.disparity_map(left, right, wi, hi)[v * w + u]->0;
        let ur = u - nearest_pixel(x.ticks as int);
        self.law_disparity_has_partner(left, right, wi, hi, u, v);
        lemma_in_range(v, u, hi, wi);
        lemma_in_range(v, ur, hi, wi);
        lemma_split(v, ur, wi);
        assert(w * h == h * w) by (nonlinear_arith);
        assert(hi * wi * ni >= 0) by (nonlinear_arith)
            requires
                0 <= hi * wi,
                0 <= ni,
        ;
        let d = lemma_cheapest(w, h, n, self.p1, self.p2, cost, ur, v);
        let y = self.right_disparities(left, right, wi, hi)[v * wi + ur]->0;
        law_round_int_error(self.lr_max_diff as int);
        law_round_int_error(x.ticks - y.ticks);
        law_round_int_error(y.ticks - x.ticks);
        (d, y.ticks as int)
    }

    /// A pair can be matched exactly if it is not empty, its sides are countable
    /// with a sign, its pixels and its cost volume can be indexed, and the pixels
    /// are there unless the border covers the image.
    pub proof fn law_accepts(self, left_len: nat, right_len: nat, w: int, h: int)
        ensures
            self.accepts(left_len, right_len, w, h) <==> 0 < w <= isize::MAX && 0 < h <= isize::MAX
                && w * h <= usize::MAX && h * w * self.max_disparity <= usize::MAX && (2
                * self.census_radius < w && 2 * self.census_radius < h ==> w * h <= left_len && w
                * h <= right_len),
    {
    }

    /// Two images can be matched exactly if the host can read them and their
    /// pixels can be matched.
    pub proof fn law_accepts_images(self, left: Image<u8, 1>, right: Image<u8, 1>)
        ensures
            self.accepts_images(left, right) <==> image_on_host(left) && image_on_host(right)
                && self.accepts(
                image_pixels(left).len(),
                image_pixels(right).len(),
                image_width(left) as int,
                image_height(left) as int,
            ),
    {
    }

    /// With the left-right check disabled the map is that of the left view.
    pub proof fn law_check_disabled(self, left: Seq<u8>, right: Seq<u8>, w: int, h: int)
        requires
            self.lr_max_diff == usize::MAX,
        ensures
            self.disparity_map(left, right, w, h) == self.left_disparities(left, right, w, h),
    {
    }
}

} // verus!
