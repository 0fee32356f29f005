use sgm_stereo::aggregate::{aggregate_direction, entry_pixels, sgm_aggregate, DIRECTIONS};
use sgm_stereo::census::census_transform;
use sgm_stereo::consistency::lr_check;
use sgm_stereo::cost::{build_cost_volume, build_cost_volume_right, MAX_DISTANCE, NO_MATCH};
use sgm_stereo::disparity::{clear_border, wta_subpixel, Disparity};

fn px(n: usize) -> Option<Disparity> {
    Some(Disparity::from_pixels(n))
}

#[test]
fn census_reads_the_window_row_by_row() {
    // The centre is 5; the darker neighbours are numbers 0, 3 and 7.
    let src = [1u8, 9, 5, 4, 5, 6, 7, 8, 0];
    let out = census_transform(&src, 3, 3, 1);
    let mut expected = vec![0u64; 9];
    expected[4] = 0b1000_1001;
    assert_eq!(out, expected);
}

#[test]
fn census_radius_zero_has_no_neighbours() {
    assert_eq!(census_transform(&[3, 1, 2, 0], 2, 2, 0), vec![0u64; 4]);
}

#[test]
fn census_shares_bits_from_radius_four_on() {
    // 9x9 window: neighbours 0 and 64 share bit 0. Number 64 is the one at
    // window position 65, which is column 2 of row 7.
    let mut src = vec![9u8; 81];
    src[7 * 9 + 2] = 0;
    let out = census_transform(&src, 9, 9, 4);
    assert_eq!(out[40], 1);
    src[0] = 0;
    assert_eq!(census_transform(&src, 9, 9, 4)[40], 1);
    src[1] = 0;
    assert_eq!(census_transform(&src, 9, 9, 4)[40], 3);
}

#[test]
fn census_of_an_image_without_windows() {
    // Nothing is read: the border fills the image.
    assert_eq!(census_transform(&[], 4, 4, 2), vec![0u64; 16]);
}

#[test]
fn cost_volume_is_the_hamming_distance() {
    let left = [0b1111u64, 0b0001, u64::MAX];
    let right = [0b1010u64, 0b0000, 0];
    let vol = build_cost_volume(&left, &right, 3, 1, 2);
    assert_eq!(vol, vec![2, MAX_DISTANCE, 1, 3, 64, 64]);
    let vol_r = build_cost_volume_right(&left, &right, 3, 1, 2);
    assert_eq!(vol_r, vec![2, 3, 1, 64, 64, NO_MATCH]);
    assert_eq!((MAX_DISTANCE, NO_MATCH), (64, 65535));
    assert_eq!(build_cost_volume(&[1, 3], &[1, 0], 2, 1, 2), vec![0, 64, 2, 1]);
}

#[test]
fn cost_volumes_of_two_rows_do_not_mix() {
    let left = [1u64, 2, 4, 8];
    let right = [1u64, 2, 4, 8];
    assert_eq!(
        build_cost_volume(&left, &right, 2, 2, 2),
        vec![0, 64, 0, 2, 0, 64, 0, 2]
    );
    assert_eq!(
        build_cost_volume_right(&left, &right, 2, 2, 2),
        vec![0, 2, 0, NO_MATCH, 0, 2, 0, NO_MATCH]
    );
}

#[test]
fn both_volumes_rate_a_pair_alike() {
    let left = [11u64, 22, 33, 44, 55];
    let right = [15u64, 6, 70, 81, 9];
    let a = build_cost_volume(&left, &right, 5, 1, 3);
    let b = build_cost_volume_right(&left, &right, 5, 1, 3);
    for u in 0..5 {
        for d in 0..3 {
            if u + d < 5 {
                assert_eq!(b[u * 3 + d], a[(u + d) * 3 + d]);
            }
        }
    }
}

#[test]
fn entry_pixels_of_every_direction() {
    let starts = |k: usize| {
        let (du, dv) = DIRECTIONS[k];
        entry_pixels(3, 2, du, dv)
    };
    assert_eq!(starts(0), vec![(0, 0), (0, 1)]);
    assert_eq!(starts(1), vec![(2, 0), (2, 1)]);
    assert_eq!(starts(2), vec![(0, 0), (1, 0), (2, 0)]);
    assert_eq!(starts(3), vec![(0, 1), (1, 1), (2, 1)]);
    assert_eq!(starts(4), vec![(0, 0), (0, 1), (1, 0), (2, 0)]);
    assert_eq!(starts(5), vec![(2, 0), (2, 1), (0, 1), (1, 1)]);
    assert_eq!(starts(6), vec![(0, 0), (0, 1), (1, 1), (2, 1)]);
    assert_eq!(starts(7), vec![(2, 0), (2, 1), (0, 0), (1, 0)]);
    assert_eq!(entry_pixels(1, 1, 1, -1), vec![(0, 0)]);
    assert_eq!(entry_pixels(0, 0, 1, 1), vec![]);
    assert_eq!(
        entry_pixels(2, 2, 0, 0),
        vec![(0, 0), (0, 1), (1, 0), (1, 1)]
    );
}

#[test]
fn a_single_pixel_is_counted_in_every_direction() {
    assert_eq!(sgm_aggregate(&[3, 5], 1, 1, 2, 1, 2), vec![24, 40]);
}

#[test]
fn aggregation_of_a_row_of_two_pixels() {
    // Costs (0, 9) and (4, 1), P1 = 2, P2 = 5.
    // Rightwards, second pixel: 4 + min(0, 9+2, 0+5) - 0 = 4
    //                           1 + min(9, 0+2, 0+5) - 0 = 3
    // Leftwards, first pixel: 0 + min(4, 1+2, 1+5) - 1 = 2
    //                         9 + min(1, 4+2, 1+5) - 1 = 9
    // The other six directions start at both pixels and leave the image: each
    // adds the matching costs.
    let out = sgm_aggregate(&[0, 9, 4, 1], 2, 1, 2, 2, 5);
    assert_eq!(out[0], 0 + 2 + 6 * 0);
    assert_eq!(out[1], 9 + 9 + 6 * 9);
    assert_eq!(out[2], 4 + 4 + 6 * 4);
    assert_eq!(out[3], 3 + 1 + 6 * 1);
}

#[test]
fn every_pixel_gets_eight_path_costs() {
    // One candidate: every path cost is the matching cost, so an aggregated cost
    // counts the directions that run through the pixel.
    assert_eq!(sgm_aggregate(&[1, 2, 3, 4], 2, 2, 1, 1, 2), vec![8, 16, 24, 32]);
    let out = sgm_aggregate(&[1; 9], 3, 3, 1, 1, 2);
    assert_eq!(out, vec![8; 9]);
}

#[test]
fn large_path_costs_follow_the_recurrence() {
    // 40000 + min(40000, 40000 + 11) - 40000 fits in 16 bits.
    assert_eq!(one_direction(&[40000, 40000], &[0, 0], (2, 1, 1), (1, 0), 0), vec![40000, 40000]);
    assert_eq!(sgm_aggregate(&[65535, 65535], 2, 1, 1, 1, 2), vec![65535 * 8, 65535 * 8]);
    assert_eq!(sgm_aggregate(&[100, 65535], 2, 1, 1, 1, 2), vec![800, 65535 * 8]);
}

#[test]
fn saturated_path_costs_stay_in_16_bits() {
    // Second pixel, P1 = 3, P2 = 11: 65530 + min(9, 0 + 3, 0 + 11) - 0 fits, and
    // 65534 + min(9, 0 + 3, 0 + 11) - 0 is capped.
    let out = one_direction(&[0, 9, 1, 65530], &[0; 4], (2, 1, 2), (1, 0), 0);
    assert_eq!(out, vec![0, 9, 1, 65533]);
    let out = one_direction(&[0, 9, 1, 65534], &[0; 4], (2, 1, 2), (1, 0), 0);
    assert_eq!(out, vec![0, 9, 1, 65535]);
}

#[test]
fn a_direction_leaves_an_empty_image_alone() {
    assert_eq!(one_direction(&[], &[5, 6], (0, 3, 2), (1, 0), 0), vec![5, 6]);
    assert_eq!(one_direction(&[], &[5, 6], (3, 0, 2), (1, 1), 0), vec![5, 6]);
}

#[test]
fn a_free_disparity_stays_free() {
    let cost: Vec<u16> = (0..4 * 3 * 5).map(|i| if i % 5 == 2 { 0 } else { 1 + i as u16 }).collect();
    let out = sgm_aggregate(&cost, 4, 3, 5, 3, 11);
    assert!(out.iter().skip(2).step_by(5).all(|c| *c == 0));
}

#[test]
fn a_common_cost_does_not_matter() {
    let costs = [90u32, 40, 17, 25, 60];
    let raised = costs.map(|c| c + 700);
    assert_eq!(wta_subpixel(&costs, 1, 1, 5), wta_subpixel(&raised, 1, 1, 5));
}

#[test]
fn aggregation_is_bounded() {
    let cost: Vec<u16> = (0..4 * 3 * 5).map(|i| ((i * 37) % 65) as u16).collect();
    let out = sgm_aggregate(&cost, 4, 3, 5, 3, 11);
    for (s, c) in out.iter().zip(&cost) {
        assert!(8 * *c as u32 <= *s && *s <= 8 * (*c as u32 + 11));
    }
}

#[test]
fn the_first_of_equal_costs_wins() {
    let out = wta_subpixel(&[7, 3, 3, 9], 1, 1, 4);
    // 0.5 * (7 - 3) / (7 - 6 + 3) = 0.5
    assert_eq!(out, vec![Some(Disparity { ticks: 3 << 31 })]);
    assert_eq!(wta_subpixel(&[3, 3, 3], 1, 1, 3), vec![px(0)]);
    assert_eq!(wta_subpixel(&[5, 4, 3], 1, 1, 3), vec![px(2)]);
}

#[test]
fn refinement_follows_the_parabola() {
    // 0.5 * (10 - 6) / (10 - 4 + 6) = 1/6, in single precision.
    let out = wta_subpixel(&[10, 2, 6], 1, 1, 3);
    let expected = 1.0f32 + 0.5 * (10.0f32 - 6.0) / (10.0f32 - 4.0 + 6.0);
    assert_eq!(out[0].unwrap().ticks, (expected as f64 * 4294967296.0) as u128);
    // The vertex lies to the left where the left neighbour is cheaper.
    let out = wta_subpixel(&[3, 2, 4], 1, 1, 3);
    // 1 + 0.5 * (3 - 4) / (3 - 4 + 4) = 1 - 1/6
    let expected = 1.0f32 + 0.5 * (3.0f32 - 4.0) / 3.0f32;
    assert_eq!(out[0].unwrap().ticks, (expected as f64 * 4294967296.0) as u128);
}

#[test]
fn expensive_pixels_are_invalid() {
    assert_eq!(
        wta_subpixel(&[1000, 2000, 1001, 2000], 2, 1, 2),
        vec![px(0), None]
    );
    assert_eq!(wta_subpixel(&[], 2, 2, 0), vec![None; 4]);
}

#[test]
fn rounding_of_disparities() {
    assert_eq!(Disparity::from_pixels(3).ticks, 3 << 32);
    assert_eq!(Disparity::from_pixels(16777217).ticks, 16777216 << 32);
    assert_eq!(Disparity::from_pixels(16777219).ticks, 16777220 << 32);
    assert_eq!(Disparity { ticks: 3 << 31 }.round(), 2);
    assert_eq!(Disparity { ticks: (3 << 31) - 256 }.round(), 1);
    assert_eq!(Disparity { ticks: 0 }.round(), 0);
}

#[test]
fn consistency_needs_a_partner() {
    // Pixel 0: partner outside. Pixel 1: partner without disparity.
    // Pixel 2: partner agrees. Pixel 3: partner differs by 2.
    let l = [px(1), px(1), px(1), px(1)];
    let r = [None, px(1), px(3), px(0)];
    assert_eq!(lr_check(&l, &r, 4, 1, 1), vec![None, None, px(1), None]);
    assert_eq!(lr_check(&l, &r, 4, 1, 2), vec![None, None, px(1), px(1)]);
    let once = lr_check(&l, &r, 4, 1, 1);
    assert_eq!(lr_check(&once, &r, 4, 1, 1), once);
}

#[test]
fn consistency_stays_in_its_row() {
    let l = [px(0), px(0), px(1), px(1)];
    let r = [px(1), px(1), px(1), px(1)];
    // The partner of the first pixel of the second row would lie in the first.
    assert_eq!(lr_check(&l, &r, 2, 2, 1), vec![px(0), px(0), None, px(1)]);
    assert_eq!(lr_check(&l, &r, 2, 2, 0), vec![None, None, None, px(1)]);
}

#[test]
fn consistency_keeps_what_lies_behind_the_image() {
    let l = [px(5), px(5)];
    assert_eq!(lr_check(&l, &[px(5), px(5)], 1, 1, 1), vec![None, px(5)]);
}

#[test]
fn a_shift_costs_nothing() {
    let (w, h, k, r) = (16usize, 7usize, 3usize, 1usize);
    let left: Vec<u8> = (0..w * h).map(|i| ((i * i * 31 + 7 * i) % 251) as u8).collect();
    let right: Vec<u8> = (0..w * h)
        .map(|i| if i % w + k < w { left[i + k] } else { 0 })
        .collect();
    let (cl, cr) = (census_transform(&left, w, h, r), census_transform(&right, w, h, r));
    let vol = build_cost_volume(&cl, &cr, w, h, 5);
    let vol_r = build_cost_volume_right(&cl, &cr, w, h, 5);
    let mut textured = 0;
    for v in 0..h {
        for u in k + r..w - r {
            assert_eq!(vol[(v * w + u) * 5 + k], 0);
            assert_eq!(vol_r[(v * w + u - k) * 5 + k], 0);
            textured += (vol[(v * w + u) * 5] > 0) as usize;
        }
    }
    assert!(textured > 20);
}

#[test]
fn refined_disparities_stay_below_the_next_candidate() {
    // The winner is the last but one; its right neighbour costs the same.
    let out = wta_subpixel(&[9, 9, 2, 2], 1, 1, 4);
    assert_eq!(out, vec![Some(Disparity { ticks: 5 << 31 })]);
    assert!(out[0].unwrap().ticks <= Disparity::from_pixels(3).ticks);
}

/// Applies one direction with scratch rows filled with `fill`.
fn one_direction(cost: &[u16], agg: &[u32], size: (usize, usize, usize), dir: (isize, isize), fill: u16) -> Vec<u32> {
    let (w, h, max_d) = size;
    let mut out = agg.to_vec();
    let (mut prev, mut cur) = (vec![fill; max_d], vec![fill; max_d]);
    aggregate_direction(cost, &mut out, &mut prev, &mut cur, w, h, max_d, dir.0, dir.1, 3, 11);
    assert_eq!((prev.len(), cur.len()), (max_d, max_d));
    out
}

#[test]
fn every_scanline_of_a_diagonal_is_walked() {
    assert_eq!(one_direction(&[1, 2, 3, 4], &[0; 4], (2, 2, 1), (1, 1), 0), vec![1, 2, 3, 4]);
    // Second pixel of a diagonal path, P1 = 3, P2 = 11:
    // 5 + min(2, 9 + 3, 2 + 11) - 2 = 5 and 1 + min(9, 2 + 3, 2 + 11) - 2 = 4.
    let cost = [7, 7, 2, 9, 7, 7, 7, 7, 7, 7, 5, 1];
    let out = one_direction(&cost, &[0; 12], (3, 2, 2), (1, 1), 0);
    assert_eq!(out[10..12], [5, 4]);
    assert_eq!(out[0..6], [7, 7, 2, 9, 7, 7]);
    assert_eq!(out[6..8], [7, 7]);
}

#[test]
fn scratch_rows_do_not_leak() {
    let cost: Vec<u16> = (0..5 * 4 * 3).map(|i| ((i * 53 + 11) % 64) as u16).collect();
    let agg: Vec<u32> = (0..5 * 4 * 3).map(|i| (i * 7 % 100) as u32).collect();
    for dir in DIRECTIONS {
        assert_eq!(
            one_direction(&cost, &agg, (5, 4, 3), dir, 0),
            one_direction(&cost, &agg, (5, 4, 3), dir, 65535)
        );
    }
}

#[test]
fn mirrored_volumes_have_mirrored_costs() {
    let (w, h, n) = (5usize, 4usize, 3usize);
    let cost: Vec<u16> = (0..w * h * n).map(|i| ((i * 53 + 11) % 64) as u16).collect();
    let flip = |x: bool, y: bool, u: usize, v: usize| {
        (if x { w - 1 - u } else { u }, if y { h - 1 - v } else { v })
    };
    for (x, y) in [(true, false), (false, true), (true, true)] {
        let mut cost2 = vec![0u16; cost.len()];
        for v in 0..h {
            for u in 0..w {
                let (a, b) = flip(x, y, u, v);
                for d in 0..n {
                    cost2[(v * w + u) * n + d] = cost[(b * w + a) * n + d];
                }
            }
        }
        let check = |p: &[u32], q: &[u32]| {
            for v in 0..h {
                for u in 0..w {
                    let (a, b) = flip(x, y, u, v);
                    for d in 0..n {
                        assert_eq!(q[(v * w + u) * n + d], p[(b * w + a) * n + d]);
                    }
                }
            }
        };
        check(&sgm_aggregate(&cost, w, h, n, 3, 11), &sgm_aggregate(&cost2, w, h, n, 3, 11));
        for (du, dv) in DIRECTIONS {
            let mirrored = (if x { -du } else { du }, if y { -dv } else { dv });
            let zero = vec![0u32; cost.len()];
            check(
                &one_direction(&cost, &zero, (w, h, n), (du, dv), 0),
                &one_direction(&cost2, &zero, (w, h, n), mirrored, 0),
            );
        }
    }
}

#[test]
fn census_of_an_image_smaller_than_the_radius() {
    assert_eq!(census_transform(&[9], 1, 1, 2), vec![0]);
    assert_eq!(census_transform(&[9, 1, 4], 1, 3, usize::MAX), vec![0; 3]);
    assert_eq!(census_transform(&[9, 1, 4], 3, 1, 1), vec![0; 3]);
}

#[test]
fn the_border_is_cleared() {
    let mut disps: Vec<Option<Disparity>> = (0..20).map(px).collect();
    clear_border(&mut disps, 5, 4, 1);
    for i in 0..20 {
        let inner = [6, 7, 8, 11, 12, 13].contains(&i);
        assert_eq!(disps[i], if inner { px(i) } else { None });
    }
    clear_border(&mut disps, 5, 4, 3);
    assert_eq!(disps, vec![None; 20]);
}
