use sgm_stereo::binary32::{round_quotient, round_signed};
use sgm_stereo::consistency::lr_check;
use sgm_stereo::disparity::{wta_subpixel, Disparity};

struct Random(u64);

impl Random {
    fn next(&mut self) -> u64 {
        self.0 = self.0.wrapping_mul(6364136223846793005).wrapping_add(1442695040888963407);
        let x = self.0;
        (x >> 33) ^ (x >> 11)
    }

    fn below(&mut self, n: u64) -> u64 {
        self.next() % n
    }
}

fn to_f32(d: Option<Disparity>) -> f32 {
    match d {
        Some(d) => (d.ticks as f64 / 4294967296.0) as f32,
        None => f32::NAN,
    }
}

fn same(a: &[Option<Disparity>], b: &[f32]) {
    assert_eq!(a.len(), b.len());
    for (x, y) in a.iter().zip(b) {
        match x {
            None => assert!(y.is_nan(), "{y} has no counterpart"),
            Some(_) => assert_eq!(to_f32(*x).to_bits(), y.to_bits(), "{} is not {y}", to_f32(*x)),
        }
    }
}

/// Winner takes all in floating point.
fn wta_f32(agg: &[u32], w: usize, h: usize, max_d: usize) -> Vec<f32> {
    let mut out = vec![f32::NAN; w * h];
    for i in 0..w * h {
        let slice = &agg[i * max_d..(i + 1) * max_d];
        let (d_best, &c_best) = match slice.iter().enumerate().min_by_key(|&(_, &c)| c) {
            Some(val) => val,
            None => continue,
        };
        if c_best > 1000 {
            continue;
        }
        out[i] = if d_best > 0 && d_best + 1 < max_d {
            let c0 = slice[d_best - 1] as f32;
            let c1 = c_best as f32;
            let c2 = slice[d_best + 1] as f32;
            let denom = c0 - 2.0 * c1 + c2;
            if denom.abs() > 1e-6 {
                d_best as f32 + 0.5 * (c0 - c2) / denom
            } else {
                d_best as f32
            }
        } else {
            d_best as f32
        };
    }
    out
}

/// Left-right check in floating point.
fn check_f32(l: &[f32], r: &[f32], w: usize, h: usize, threshold: usize) -> Vec<f32> {
    let thr = threshold as f32;
    let mut out = l.to_vec();
    for v in 0..h {
        for u in 0..w {
            let dl = l[v * w + u];
            if dl.is_nan() {
                continue;
            }
            let ur = u as isize - dl.round() as isize;
            if ur < 0 || ur as usize >= w {
                out[v * w + u] = f32::NAN;
                continue;
            }
            let dr = r[v * w + ur as usize];
            if dr.is_nan() || (dl - dr).abs() > thr {
                out[v * w + u] = f32::NAN;
            }
        }
    }
    out
}

#[test]
fn rounding_agrees_with_the_machine() {
    let mut rng = Random(1);
    for _ in 0..20000 {
        let n = rng.next() as u128 * rng.next() as u128 >> rng.below(40);
        assert_eq!(round_quotient(n, 1), n as f32 as u128);
        let x = rng.next() as i64 >> rng.below(40);
        assert_eq!(round_signed(x as i128), x as f32 as i128);
        assert_eq!(round_signed(-(x as i128)), -x as f32 as i128);
    }
}

#[test]
fn quotients_agree_with_the_machine() {
    let mut rng = Random(2);
    for _ in 0..20000 {
        let a = rng.below(1 << 24);
        let b = 1 + rng.below(1 << 24);
        let q = round_quotient((a as u128) << 60, b as u128);
        let f = a as f32 / b as f32;
        assert_eq!((q as f64 / (1u64 << 60) as f64) as f32, f);
        assert_eq!(q as f64 / (1u64 << 60) as f64, f as f64);
    }
}

#[test]
fn refinement_agrees_with_the_machine() {
    let mut rng = Random(3);
    for round in 0..300u64 {
        let (w, h, max_d) = (5, 3, 1 + rng.below(40) as usize);
        let range = match round % 4 {
            0 => 12,
            1 => 1500,
            2 => 600_000,
            _ => 1 << 32,
        };
        let agg: Vec<u32> = (0..w * h * max_d)
            .map(|_| if rng.below(6) == 0 { rng.below(1200) as u32 } else { rng.below(range) as u32 })
            .collect();
        same(&wta_subpixel(&agg, w, h, max_d), &wta_f32(&agg, w, h, max_d));
    }
}

#[test]
fn refinement_of_large_disparities_agrees_with_the_machine() {
    let mut rng = Random(4);
    let max_d = 70_000;
    for _ in 0..60 {
        let mut agg = vec![524_280u32; max_d];
        let d = 1 + rng.below(max_d as u64 - 2) as usize;
        agg[d] = rng.below(1000) as u32;
        agg[d - 1] = agg[d] + 1 + rng.below(500_000) as u32;
        agg[d + 1] = agg[d] + rng.below(3) as u32;
        same(&wta_subpixel(&agg, 1, 1, max_d), &wta_f32(&agg, 1, 1, max_d));
    }
}

#[test]
fn refinement_of_extreme_costs_agrees_with_the_machine() {
    let mut rng = Random(5);
    for _ in 0..20000 {
        let c1 = rng.below(1001) as u32;
        let c0 = (u32::MAX - rng.below(5000) as u32) >> rng.below(20);
        let c2 = c1 + rng.below(3000) as u32;
        let agg = if rng.below(2) == 0 { [c0, c1, c2] } else { [c2 + 1, c1, c0] };
        same(&wta_subpixel(&agg, 1, 1, 3), &wta_f32(&agg, 1, 1, 3));
    }
}

#[test]
fn consistency_agrees_with_the_machine() {
    let mut rng = Random(6);
    for _ in 0..200 {
        let (w, h, max_d) = (24, 4, 12);
        let mut volume = || -> Vec<u32> {
            (0..w * h * max_d)
                .map(|_| rng.below(1100) as u32 + if rng.below(12) == 0 { 1000 } else { 0 })
                .collect()
        };
        let (a, b) = (volume(), volume());
        let (l, r) = (wta_subpixel(&a, w, h, max_d), wta_subpixel(&b, w, h, max_d));
        let (lf, rf) = (wta_f32(&a, w, h, max_d), wta_f32(&b, w, h, max_d));
        for threshold in [0, 1, 2, 5, usize::MAX] {
            same(&lr_check(&l, &r, w, h, threshold), &check_f32(&lf, &rf, w, h, threshold));
        }
    }
}
