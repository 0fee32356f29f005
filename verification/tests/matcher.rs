use kornia_image::{Image, ImageError, ImageSize};
use sgm_stereo::disparity::Disparity;
use sgm_stereo::map::DisparityMap;
use sgm_stereo::matcher::{MatcherError, StereoMatcher};

fn grey_image(width: usize, height: usize, data: Vec<u8>) -> Image<u8, 1> {
    Image::from_size_slice(ImageSize { width, height }, &data).unwrap()
}

fn pixels(d: Disparity) -> f32 {
    (d.ticks as f64 / 4294967296.0) as f32
}

/// Pseudo-random grey levels.
fn noise(seed: u64, n: usize) -> Vec<u8> {
    let mut s = seed;
    (0..n)
        .map(|_| {
            s = s.wrapping_mul(6364136223846793005).wrapping_add(1442695040888963407);
            (s >> 40) as u8
        })
        .collect()
}

/// Solid grey pair: no texture, no reliable match, but the pipeline must not
/// panic and must return some valid or invalid pixels.
#[test]
fn solid_grey_does_not_panic() {
    let m = StereoMatcher::default();
    let img = grey_image(64, 48, vec![128u8; 64 * 48]);
    let disp = m.compute_disparity(&img, &img).unwrap();
    assert_eq!(disp.data.len(), 64 * 48);
}

/// Size mismatch triggers the right error.
#[test]
fn size_mismatch_errors() {
    let m = StereoMatcher::default();
    let left = grey_image(64, 48, vec![0u8; 64 * 48]);
    let right = grey_image(32, 48, vec![0u8; 32 * 48]);
    assert!(matches!(
        m.compute_disparity(&left, &right),
        Err(MatcherError::SizeMismatch { .. })
    ));
}

/// Invalid penalty order errors early.
#[test]
fn invalid_penalties_error() {
    assert!(matches!(
        StereoMatcher::new(64, 100, 50, 2, 1),
        Err(MatcherError::InvalidPenalties { .. })
    ));
}

/// Zero max_disparity errors early.
#[test]
fn zero_disparity_errors() {
    assert!(matches!(
        StereoMatcher::new(0, 10, 80, 2, 1),
        Err(MatcherError::InvalidMaxDisparity(0))
    ));
}

/// A synthetic horizontal-shift pair: right image = left shifted by K px.
/// After SGM the dominant disparity should be K (+-1 for subpixel / border).
#[test]
fn horizontal_shift_recovers_disparity() {
    let (w, h) = (128usize, 64usize);
    let shift = 8usize; // known disparity
    // Textured left image: vertical stripes of different intensities.
    let left_data: Vec<u8> = (0..w * h)
        .map(|i| {
            let u = i % w;
            // Four bands of width 8 with different grey levels.
            match (u / 8) % 4 {
                0 => 60,
                1 => 130,
                2 => 200,
                _ => 90,
            }
        })
        .collect();
    // Right image = left image shifted left by `shift` pixels (disparity = shift).
    let right_data: Vec<u8> = (0..w * h)
        .map(|i| {
            let u = i % w;
            let v = i / w;
            if u + shift < w {
                left_data[v * w + u + shift]
            } else {
                128
            }
        })
        .collect();

    let left = grey_image(w, h, left_data);
    let right = grey_image(w, h, right_data);

    let matcher = StereoMatcher {
        max_disparity: 32,
        p1: 8,
        p2: 64,
        census_radius: 3,
        lr_max_diff: 2,
    };

    let disp = matcher.compute_disparity(&left, &right).unwrap();

    // At least 40 % of pixels should report the correct disparity
    // (borders and occluded regions may not).
    let valid_and_correct = disp
        .data
        .iter()
        .filter(|d| match d {
            Some(d) => (pixels(*d) - shift as f32).abs() < 2.0,
            None => false,
        })
        .count();
    let total = w * h;
    let frac = valid_and_correct as f64 / total as f64;
    assert!(
        frac > 0.40,
        "expected >40% correct disparity pixels, got {:.1}%",
        frac * 100.0
    );
}

/// `valid_fraction` and `valid_count` are consistent.
#[test]
fn valid_count_fraction_consistent() {
    let disp = DisparityMap {
        width: 4,
        height: 1,
        data: vec![
            Some(Disparity::from_pixels(1)),
            None,
            Some(Disparity::from_pixels(2)),
            None,
        ],
    };
    assert_eq!(disp.valid_count(), 2);
    let (valid, total) = disp.valid_fraction();
    assert!((valid as f64 / total as f64 - 0.5).abs() < 1e-6);
}

#[test]
fn size_mismatch_reports_both_sizes() {
    let m = StereoMatcher::default();
    let left = grey_image(6, 4, vec![0u8; 24]);
    let right = grey_image(6, 5, vec![0u8; 30]);
    match m.compute_disparity(&left, &right) {
        Err(MatcherError::SizeMismatch { left, right }) => {
            assert_eq!(left, (6, 4));
            assert_eq!(right, (6, 5));
        }
        _ => panic!("expected a size mismatch"),
    }
    match m.try_compute_disparity(&left, &right) {
        Some(Err(MatcherError::SizeMismatch { left, right })) => {
            assert_eq!(left, (6, 4));
            assert_eq!(right, (6, 5));
        }
        _ => panic!("expected a size mismatch"),
    }
}

#[test]
fn image_errors_are_wrapped() {
    let e = MatcherError::from(ImageError::CastError);
    assert!(matches!(e, MatcherError::Image(ImageError::CastError)));
}

#[test]
fn new_keeps_its_parameters() {
    let m = StereoMatcher::new(16, 1, 2, 2, 3).unwrap();
    assert_eq!(
        (m.max_disparity, m.p1, m.p2, m.census_radius, m.lr_max_diff),
        (16, 1, 2, 2, 3)
    );
    match StereoMatcher::new(1, 7, 7, 2, 3) {
        Err(MatcherError::InvalidPenalties { p1, p2 }) => assert_eq!((p1, p2), (7, 7)),
        _ => panic!("equal penalties must be refused"),
    }
    // The search range is looked at before the penalties.
    assert!(matches!(
        StereoMatcher::new(0, 7, 7, 2, 3),
        Err(MatcherError::InvalidMaxDisparity(0))
    ));
}

#[test]
fn defaults() {
    let m = StereoMatcher::default();
    assert_eq!(
        (m.max_disparity, m.p1, m.p2, m.census_radius, m.lr_max_diff),
        (64, 10, 120, 2, 1)
    );
}

#[test]
fn identical_views_have_disparity_zero_away_from_the_border() {
    let m = StereoMatcher { max_disparity: 9, p1: 3, p2: 20, census_radius: 2, lr_max_diff: 0 };
    let img = grey_image(17, 11, noise(1, 17 * 11));
    let disp = m.compute_disparity(&img, &img).unwrap();
    assert_eq!((disp.width, disp.height), (17, 11));
    for v in 0..11 {
        for u in 0..17 {
            let border = u < 2 || u >= 15 || v < 2 || v >= 9;
            let expected = if border { None } else { Some(Disparity { ticks: 0 }) };
            assert_eq!(disp.get(u, v), Some(expected));
        }
    }
}

#[test]
fn gain_and_bias_do_not_matter() {
    let (w, h) = (24usize, 12usize);
    let m = StereoMatcher { max_disparity: 8, p1: 5, p2: 40, census_radius: 2, lr_max_diff: 1 };
    let left: Vec<u8> = noise(2, w * h).iter().map(|x| x / 4).collect();
    let right: Vec<u8> = noise(3, w * h).iter().map(|x| x / 4).collect();
    let brighter: Vec<u8> = right.iter().map(|x| 3 * x + 17).collect();
    let a = m.match_pixels(&left, &right, w, h);
    let b = m.match_pixels(&left, &brighter, w, h);
    assert_eq!(a.data, b.data);
}

#[test]
fn disparities_stay_in_the_search_range() {
    let (w, h) = (32usize, 16usize);
    let m = StereoMatcher {
        max_disparity: 6,
        p1: 5,
        p2: 40,
        census_radius: 1,
        lr_max_diff: usize::MAX,
    };
    let a = m.match_pixels(&noise(4, w * h), &noise(5, w * h), w, h);
    assert!(a.valid_count() > 0);
    for d in a.data.iter().flatten() {
        assert!(d.ticks <= 5 * 4294967296);
    }
}

#[test]
fn disabled_check_keeps_every_left_disparity() {
    let (w, h) = (32usize, 16usize);
    let on = StereoMatcher { max_disparity: 8, p1: 5, p2: 40, census_radius: 1, lr_max_diff: 0 };
    let off = StereoMatcher { lr_max_diff: usize::MAX, ..on.clone() };
    let (l, r) = (noise(6, w * h), noise(7, w * h));
    let checked = on.match_pixels(&l, &r, w, h);
    let unchecked = off.match_pixels(&l, &r, w, h);
    assert!(checked.valid_count() < unchecked.valid_count());
    for (c, n) in checked.data.iter().zip(&unchecked.data) {
        assert!(c.is_none() || c == n);
    }
}

#[test]
fn an_empty_search_range_finds_nothing() {
    let m = StereoMatcher { max_disparity: 0, p1: 5, p2: 40, census_radius: 1, lr_max_diff: 1 };
    let a = m.match_pixels(&noise(8, 20), &noise(9, 20), 5, 4);
    assert_eq!(a.data, vec![None; 20]);
}

#[test]
fn large_windows_fold_their_bits() {
    // A radius of 7 has 224 neighbours for 64 bits.
    let (w, h) = (40usize, 20usize);
    let m = StereoMatcher { max_disparity: 4, p1: 10, p2: 120, census_radius: 7, lr_max_diff: 1 };
    let l = noise(10, w * h);
    let a = m.match_pixels(&l, &l, w, h);
    assert_eq!(a.valid_count(), (w - 14) * (h - 14));
}

#[test]
fn undefined_pairs_are_told_apart() {
    let m = StereoMatcher { max_disparity: 4, p1: 10, p2: 120, census_radius: 3, lr_max_diff: 1 };
    // No window fits: the whole image is border.
    for (w, h) in [(8, 2), (2, 8), (3, 4), (1, 1)] {
        let small = grey_image(w, h, vec![0u8; w * h]);
        match m.try_compute_disparity(&small, &small) {
            Some(Ok(map)) => assert_eq!(map.data, vec![None; w * h]),
            _ => panic!("a small pair must be matched"),
        }
        assert!(m.can_match(0, 0, w, h));
    }
    assert!(!m.can_match(100, 100, 0, 4));
    assert!(!m.can_match(100, 100, 4, 0));
    assert!(m.can_match(64, 64, 8, 8));
    assert!(!m.can_match(63, 64, 8, 8));
    assert!(!m.can_match(64, 63, 8, 8));
    assert!(!m.can_match(usize::MAX, usize::MAX, usize::MAX, 8));
    assert!(!m.can_match(usize::MAX, usize::MAX, usize::MAX / 4, 8));
    // The cost volume cannot be indexed.
    let wide = StereoMatcher { max_disparity: usize::MAX, ..m.clone() };
    assert!(!wide.can_match(64, 64, 8, 8));
    let square = grey_image(8, 8, vec![0u8; 64]);
    assert!(wide.try_compute_disparity(&square, &square).is_none());
}

#[test]
fn images_and_pixels_give_the_same_map() {
    let (w, h) = (21usize, 13usize);
    let m = StereoMatcher { max_disparity: 7, p1: 4, p2: 30, census_radius: 2, lr_max_diff: 1 };
    let (l, r) = (noise(11, w * h), noise(12, w * h));
    let a = m.match_pixels(&l, &r, w, h);
    let b = m
        .compute_disparity(&grey_image(w, h, l.clone()), &grey_image(w, h, r.clone()))
        .unwrap();
    let c = m
        .try_compute_disparity(&grey_image(w, h, l), &grey_image(w, h, r))
        .unwrap()
        .unwrap();
    assert_eq!((b.width, b.height), (w, h));
    assert_eq!(a.data, b.data);
    assert_eq!(a.data, c.data);
}

#[test]
fn get_reads_row_by_row() {
    let d = |n: usize| Some(Disparity::from_pixels(n));
    let map = DisparityMap {
        width: 3,
        height: 2,
        data: vec![d(0), d(1), d(2), None, d(4), d(5)],
    };
    assert_eq!(map.get(2, 0), Some(d(2)));
    assert_eq!(map.get(1, 1), Some(d(4)));
    assert_eq!(map.get(0, 1), Some(None));
    assert_eq!(map.get(3, 0), None);
    assert_eq!(map.get(0, 2), None);
    assert_eq!(map.valid_fraction(), (5, 6));
}

#[test]
fn a_map_without_pixels_has_no_valid_ones() {
    let map = DisparityMap { width: 0, height: 3, data: vec![] };
    assert_eq!(map.valid_fraction(), (0, 1));
    assert_eq!(map.get(0, 0), None);
}

#[test]
fn border_pixels_are_invalid_without_the_check_too() {
    let (w, h) = (32usize, 16usize);
    let m = StereoMatcher { max_disparity: 6, p1: 5, p2: 40, census_radius: 3, lr_max_diff: usize::MAX };
    let map = m.match_pixels(&noise(14, w * h), &noise(15, w * h), w, h);
    for v in 0..h {
        for u in 0..w {
            if u < 3 || u >= w - 3 || v < 3 || v >= h - 3 {
                assert_eq!(map.get(u, v), Some(None));
            }
        }
    }
    assert!(map.valid_count() > 0);
}

#[test]
fn valid_disparities_have_a_partner() {
    let (w, h) = (40usize, 16usize);
    let m = StereoMatcher { max_disparity: 8, p1: 5, p2: 40, census_radius: 1, lr_max_diff: 1 };
    let left = noise(13, w * h);
    let right: Vec<u8> = (0..w * h)
        .map(|i| if i % w + 3 < w { left[i + 3] } else { 128 })
        .collect();
    let map = m.match_pixels(&left, &right, w, h);
    assert!(map.valid_count() > 0);
    for v in 0..h {
        for u in 0..w {
            if let Some(Some(d)) = map.get(u, v) {
                assert!(d.round() <= u as u128);
            }
        }
    }
}

#[test]
fn penalties_are_positive_and_ordered() {
    match StereoMatcher::new(64, 0, 50, 2, 1) {
        Err(MatcherError::InvalidPenalties { p1, p2 }) => assert_eq!((p1, p2), (0, 50)),
        _ => panic!("a penalty of zero must be refused"),
    }
    assert!(StereoMatcher::new(1, 1, 2, 0, 0).is_ok());
    assert!(StereoMatcher::new(usize::MAX, 1, u16::MAX, usize::MAX, usize::MAX).is_ok());
}

#[test]
fn a_looser_check_keeps_more() {
    let (w, h) = (40usize, 16usize);
    let (l, r) = (noise(16, w * h), noise(17, w * h));
    let maps: Vec<DisparityMap> = [0, 1, 3, usize::MAX]
        .iter()
        .map(|t| {
            StereoMatcher { max_disparity: 8, p1: 5, p2: 40, census_radius: 1, lr_max_diff: *t }
                .match_pixels(&l, &r, w, h)
        })
        .collect();
    for pair in maps.windows(2) {
        for (tight, loose) in pair[0].data.iter().zip(&pair[1].data) {
            assert!(tight.is_none() || tight == loose);
        }
    }
    assert!(maps[0].valid_count() < maps[3].valid_count());
}
