//! Left-right consistency.
//!
//! A left pixel `(u, v)` with disparity `dl` sees the right pixel
//! `(u - round(dl), v)`. The match is trusted if that pixel exists and has a
//! disparity that agrees with `dl` up to a threshold.

use vstd::prelude::*;
use vstd::arithmetic::power2::lemma2_to64;
use crate::binary32::{
    law_round_int_error, law_round_int_is_odd, law_round_monotone, lemma_round_scaled, round_int,
    round_nat, round_quotient, round_ratio,
};
use crate::disparity::{all_wf, nearest_pixel, pixel_ticks, Disparity};
use crate::index::{lemma_in_range, lemma_parts, lemma_split};

verus! {

/// Difference of two disparities in single precision, in ticks.
pub open spec fn gap(a: Disparity, b: Disparity) -> nat {
    if a.ticks >= b.ticks {
        round_nat((a.ticks - b.ticks) as nat)
    } else {
        round_nat((b.ticks - a.ticks) as nat)
    }
}

/// What the check leaves of the disparity of left pixel `i`, which stands in
/// column `u`.
pub open spec fn checked(
    disp_l: Seq<Option<Disparity>>,
    disp_r: Seq<Option<Disparity>>,
    u: int,
    threshold: nat,
    i: int,
) -> Option<Disparity> {
    match disp_l[i] {
        None => None,
        Some(dl) => {
            let shift = nearest_pixel(dl.ticks as int);
            if shift > u {
                None
            } else {
                match disp_r[i - shift] {
                    None => None,
                    Some(dr) => if gap(dl, dr) > pixel_ticks(threshold) {
                        None
                    } else {
                        Some(dl)
                    },
                }
            }
        },
    }
}

/// The left disparities that pass the check. What lies behind the `w * h`
/// pixels is kept.
pub open spec fn consistent(
    disp_l: Seq<Option<Disparity>>,
    disp_r: Seq<Option<Disparity>>,
    w: int,
    h: int,
    threshold: nat,
) -> Seq<Option<Disparity>> {
    Seq::new(
        disp_l.len(),
        |i: int|
            if i < w * h {
                checked(disp_l, disp_r, i % w, threshold, i)
            } else {
                disp_l[i]
            },
    )
}

/// Whether two disparities differ by more than the threshold.
fn differ(a: Disparity, b: Disparity, threshold: usize) -> (r: bool)
    requires
        a.wf(),
        b.wf(),
    ensures
        r == (gap(a, b) > pixel_ticks(threshold as nat)),
{
    let gap: u128 = if a.ticks >= b.ticks {
        a.ticks - b.ticks
    } else {
        b.ticks - a.ticks
    };
    let limit: Disparity = Disparity::from_pixels(threshold);
    round_quotient(gap, 1) > limit.ticks
}

/// Invalidates pixels where left and right disparities are inconsistent.
///
/// At each left pixel `(u, v)` with disparity `dl`, the corresponding right
/// pixel is `(u - round(dl), v)`. If it lies outside the image, has no
/// disparity, or has a disparity that differs from `dl` by more than
/// `threshold` pixels, the left pixel loses its disparity.
pub fn lr_check(
    disp_l: &[Option<Disparity>],
    disp_r: &[Option<Disparity>],
    w: usize,
    h: usize,
    threshold: usize,
) -> (out: Vec<Option<Disparity>>)
    requires
        w * h <= disp_l@.len(),
        w * h <= disp_r@.len(),
        all_wf(disp_l@),
        all_wf(disp_r@),
    ensures
        out@ == consistent(disp_l@, disp_r@, w as int, h as int, threshold as nat),
        all_wf(out@),
{
    let n: usize = disp_l.len();
    let pixels: usize = w * h;
    let mut out: Vec<Option<Disparity>> = Vec::new();
    let mut i: usize = 0;
    while i < n
        invariant
            n == disp_l@.len(),
            pixels == w * h,
            pixels <= disp_l@.len(),
            pixels <= disp_r@.len(),
            all_wf(disp_l@),
            all_wf(disp_r@),
            i <= n,
            out@.len() == i,
            all_wf(out@),
            forall|j: int|
                0 <= j < i ==> #[trigger] out@[j] == consistent(
                    disp_l@,
                    disp_r@,
                    w as int,
                    h as int,
                    threshold as nat,
                )[j],
        decreases n - i,
    {
        let left: Option<Disparity> = disp_l[i];
        let mut kept: Option<Disparity> = left;
        if i < pixels {
            proof {
                assert(w * h == h * w) by (nonlinear_arith);
                lemma_parts(i as int, h as int, w as int);
                assert((i as int / w as int) * w >= 0) by (nonlinear_arith)
                    requires
                        i as int / w as int >= 0,
                ;
            }
            let u: usize = i % w;
            if let Some(dl) = left {
                let shift: u128 = dl.round();
                if shift > u as u128 {
                    kept = None;
                } else {
                    match disp_r[i - shift as usize] {
                        None => {
                            kept = None;
                        },
                        Some(dr) => {
                            if differ(dl, dr, threshold) {
                                kept = None;
                            }
                        },
                    }
                }
            }
        }
        out.push(kept);
        i = i + 1;
    }
    proof {
        assert(out@ =~= consistent(disp_l@, disp_r@, w as int, h as int, threshold as nat));
    }
    out
}

// ---------------------------------------------------------------------------
// Laws
// ---------------------------------------------------------------------------

/// The check only takes disparities away: what is left is what was there.
pub proof fn law_check_only_removes(
    disp_l: Seq<Option<Disparity>>,
    disp_r: Seq<Option<Disparity>>,
    w: int,
    h: int,
    threshold: nat,
    i: int,
)
    requires
        0 <= i < disp_l.len(),
    ensures
        ({
            let c = consistent(disp_l, disp_r, w, h, threshold)[i];
            c is None || c == disp_l[i]
        }),
{
}

/// A disparity that passes has a partner in the same row of the right image,
/// and the two agree up to the threshold.
pub proof fn law_check_partner(
    disp_l: Seq<Option<Disparity>>,
    disp_r: Seq<Option<Disparity>>,
    w: int,
    h: int,
    threshold: nat,
    u: int,
    v: int,
)
    requires
        0 <= u < w,
        0 <= v < h,
        w * h <= disp_l.len(),
        consistent(disp_l, disp_r, w, h, threshold)[v * w + u] is Some,
    ensures
        ({
            let dl = consistent(disp_l, disp_r, w, h, threshold)[v * w + u]->0;
            let ur = u - nearest_pixel(dl.ticks as int);
            &&& 0 <= ur <= u
            &&& disp_r[v * w + ur] matches Some(dr) && gap(dl, dr) <= pixel_ticks(threshold)
        }),
{
    lemma_in_range(v, u, h, w);
    lemma_split(v, u, w);
    assert(h * w == w * h) by (nonlinear_arith);
}

/// Checking a second time changes nothing.
pub proof fn law_check_idempotent(
    disp_l: Seq<Option<Disparity>>,
    disp_r: Seq<Option<Disparity>>,
    w: int,
    h: int,
    threshold: nat,
)
    ensures
        ({
            let once = consistent(disp_l, disp_r, w, h, threshold);
            consistent(once, disp_r, w, h, threshold) == once
        }),
{
    let once = consistent(disp_l, disp_r, w, h, threshold);
    assert(consistent(once, disp_r, w, h, threshold) =~= once);
}

/// A larger threshold keeps every disparity that a smaller one keeps.
pub proof fn law_check_monotone(
    disp_l: Seq<Option<Disparity>>,
    disp_r: Seq<Option<Disparity>>,
    w: int,
    h: int,
    low: nat,
    high: nat,
    i: int,
)
    requires
        low <= high,
        0 <= i < disp_l.len(),
        consistent(disp_l, disp_r, w, h, low)[i] is Some,
    ensures
        consistent(disp_l, disp_r, w, h, high)[i] == consistent(disp_l, disp_r, w, h, low)[i],
{
    law_round_monotone(low, high);
}

/// The check keeps every consistent match: if the left pixel points at a column
/// of the image, the right pixel there has a disparity, and the two differ by no
/// more than the threshold, the left pixel keeps its disparity.
///
/// Disparities count 2^-32 pixels, and the column that one points at is taken
/// with halves rounding up.
pub proof fn law_check_keeps_consistent_pixels(
    disp_l: Seq<Option<Disparity>>,
    disp_r: Seq<Option<Disparity>>,
    w: int,
    h: int,
    threshold: nat,
    u: int,
    v: int,
)
    requires
        0 <= u < w,
        0 <= v < h,
        w * h <= disp_l.len(),
        disp_l[v * w + u] is Some,
        ({
            let dl = disp_l[v * w + u]->0.ticks as int;
            let ur = u - (dl + 0x8000_0000) / 0x1_0000_0000;
            &&& 0 <= ur
            &&& disp_r[v * w + ur] is Some
            &&& -(threshold * 0x1_0000_0000) <= dl - disp_r[v * w + ur]->0.ticks <= threshold
                * 0x1_0000_0000
        }),
    ensures
        consistent(disp_l, disp_r, w, h, threshold)[v * w + u] == disp_l[v * w + u],
{
    lemma_in_range(v, u, h, w);
    lemma_split(v, u, w);
    assert(h * w == w * h) by (nonlinear_arith);
    lemma_threshold(threshold);
    let dl = disp_l[v * w + u]->0;
    let ur = u - nearest_pixel(dl.ticks as int);
    let dr = disp_r[v * w + ur]->0;
    let gap_ticks = if dl.ticks >= dr.ticks {
        dl.ticks - dr.ticks
    } else {
        dr.ticks - dl.ticks
    };
    law_round_monotone(gap_ticks as nat, threshold * 0x1_0000_0000);
}

/// The check removes every match that is not consistent: a left pixel that
/// points out of the image or at a right pixel without disparity, and one whose
/// disparity differs from that of the right pixel by more than the threshold,
/// beyond what the rounding of the difference and of the threshold to 24 bits
/// can hide.
pub proof fn law_check_removes_inconsistent_pixels(
    disp_l: Seq<Option<Disparity>>,
    disp_r: Seq<Option<Disparity>>,
    w: int,
    h: int,
    threshold: nat,
    u: int,
    v: int,
)
    requires
        0 <= u < w,
        0 <= v < h,
        w * h <= disp_l.len(),
        disp_l[v * w + u] is None || ({
            let dl = disp_l[v * w + u]->0.ticks as int;
            let ur = u - (dl + 0x8000_0000) / 0x1_0000_0000;
            let dr = disp_r[v * w + ur]->0.ticks as int;
            let limit = 0x100_0001 * (threshold * 0x1_0000_0000);
            ||| ur < 0
            ||| disp_r[v * w + ur] is None
            ||| 0xff_ffff * (dl - dr) > limit
            ||| 0xff_ffff * (dr - dl) > limit
        }),
    ensures
        consistent(disp_l, disp_r, w, h, threshold)[v * w + u] is None,
{
    lemma_in_range(v, u, h, w);
    lemma_split(v, u, w);
    assert(h * w == w * h) by (nonlinear_arith);
    law_round_int_error(threshold as int);
    if disp_l[v * w + u] is Some {
        let dl = disp_l[v * w + u]->0;
        let ur = u - nearest_pixel(dl.ticks as int);
        if disp_r[v * w + ur] is Some {
            let dr = disp_r[v * w + ur]->0;
            law_round_int_error(dl.ticks - dr.ticks);
            law_round_int_error(dr.ticks - dl.ticks);
        }
    }
}

/// What the check decides, in single precision: a left pixel keeps its disparity
/// exactly if the right pixel that it points at exists and has a disparity, and
/// the rounded difference of the two does not exceed the rounded threshold.
pub proof fn law_check_decides(
    disp_l: Seq<Option<Disparity>>,
    disp_r: Seq<Option<Disparity>>,
    w: int,
    h: int,
    threshold: nat,
    u: int,
    v: int,
)
    requires
        0 <= u < w,
        0 <= v < h,
        w * h <= disp_l.len(),
        disp_l[v * w + u] is Some,
    ensures
        ({
            let dl = disp_l[v * w + u]->0.ticks as int;
            let ur = u - (dl + 0x8000_0000) / 0x1_0000_0000;
            let dr = disp_r[v * w + ur]->0.ticks as int;
            let limit = round_ratio(threshold, 1) * 0x1_0000_0000;
            consistent(disp_l, disp_r, w, h, threshold)[v * w + u] == if 0 <= ur && disp_r[v * w
                + ur] is Some && -limit <= round_int(dl - dr) <= limit {
                disp_l[v * w + u]
            } else {
                None
            }
        }),
{
    lemma_in_range(v, u, h, w);
    lemma_split(v, u, w);
    assert(h * w == w * h) by (nonlinear_arith);
    let dl = disp_l[v * w + u]->0;
    let ur = u - nearest_pixel(dl.ticks as int);
    let dr = disp_r[v * w + ur]->0;
    law_round_int_is_odd(dl.ticks - dr.ticks);
    law_round_int_error(dl.ticks - dr.ticks);
    law_round_int_error(dr.ticks - dl.ticks);
}

/// The check gives every pixel a result, and leaves what lies behind the image.
pub proof fn law_check_covers_the_image(
    disp_l: Seq<Option<Disparity>>,
    disp_r: Seq<Option<Disparity>>,
    w: int,
    h: int,
    threshold: nat,
    i: int,
)
    requires
        w * h <= i < disp_l.len(),
        0 <= i,
    ensures
        consistent(disp_l, disp_r, w, h, threshold).len() == disp_l.len(),
        consistent(disp_l, disp_r, w, h, threshold)[i] == disp_l[i],
{
}

/// A threshold in ticks rounds like the threshold in pixels.
proof fn lemma_threshold(threshold: nat)
    ensures
        round_nat(threshold * 0x1_0000_0000) == pixel_ticks(threshold),
{
    lemma_round_scaled(threshold, 32);
    lemma2_to64();
}

} // verus!
