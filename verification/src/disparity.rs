//! Disparities with sub-pixel precision.
//!
//! A disparity is a single-precision number of pixels, held as a count of
//! fixed small ticks. Together with [`crate::binary32`] this gives the
//! sub-pixel arithmetic the same result on every machine, bit for bit that of
//! IEEE 754 single precision.

use vstd::prelude::*;
use vstd::arithmetic::div_mod::{
    lemma_fundamental_div_mod, lemma_fundamental_div_mod_converse, lemma_mod_multiples_basic,
};
use vstd::arithmetic::power2::{
    lemma2_to64, lemma2_to64_rest, lemma_pow2_adds, lemma_pow2_strictly_increases,
    lemma_pow2_subtracts, pow2,
};
use crate::binary32::{
    law_round_error, law_round_int_error, law_round_monotone, lemma_representable,
    lemma_round_int_small, lemma_round_ratio_between, lemma_round_ratio_factor, lemma_round_small,
    lemma_ulp_bounds, lemma_ulp_divides, lemma_ulp_doubles, lemma_ulp_is_pow2, lemma_ulp_monotone,
    lemma_ulp_multiple, representable, round_half_even, round_int, round_nat, round_quotient,
    round_ratio, round_signed, ulp, SIGNIFICAND_END,
};
use crate::census::window_fits;
use crate::index::lemma_parts;

verus! {

/// Ticks per pixel: 32 bits stand behind the point.
pub const TICKS_PER_PIXEL: u128 = 0x1_0000_0000;

/// Subdivisions of a pixel in which the sub-pixel offset is rounded.
pub const FINE_PER_PIXEL: u128 = 0x1000_0000_0000_0000;

/// Subdivisions per tick.
pub const FINE_PER_TICK: u128 = 0x1000_0000;

/// No disparity has more ticks.
pub const MAX_TICKS: u128 = 0x2_0000_0000_0000_0000_0000_0000;

/// Aggregated cost above which a pixel has no valid disparity.
pub const MAX_VALID_COST: u32 = 1000;

/// A disparity: a number of pixels in units of 2^-32 pixel.
#[derive(Clone, Copy, Debug, PartialEq, Eq, Structural)]
pub struct Disparity {
    /// The number of pixels times 2^32.
    pub ticks: u128,
}

/// The value of whole pixels, as single precision holds it.
pub open spec fn pixel_ticks(pixels: nat) -> nat {
    round_nat(pixels) * TICKS_PER_PIXEL as nat
}

/// The integer nearest to a disparity, halves rounding up.
pub open spec fn nearest_pixel(ticks: int) -> int {
    (ticks + TICKS_PER_PIXEL / 2) / TICKS_PER_PIXEL as int
}

impl Disparity {
    /// A disparity is in range and has 24 significant bits.
    pub open spec fn wf(self) -> bool {
        self.ticks <= MAX_TICKS && representable(self.ticks as nat)
    }

    /// The disparity of a whole number of pixels. From 2^24 on this is the
    /// nearest number with 24 significant bits.
    pub fn from_pixels(pixels: usize) -> (d: Self)
        ensures
            d.ticks == pixel_ticks(pixels as nat),
            d.wf(),
    {
        proof {
            lemma_pixel_ticks(pixels as nat);
        }
        Disparity { ticks: round_quotient(pixels as u128, 1) * TICKS_PER_PIXEL }
    }

    /// The nearest whole number of pixels, halves rounding up.
    pub fn round(&self) -> (pixels: u128)
        requires
            self.wf(),
        ensures
            pixels == nearest_pixel(self.ticks as int),
    {
        (self.ticks + TICKS_PER_PIXEL / 2) / TICKS_PER_PIXEL
    }
}

/// Whole pixels are in range and have 24 significant bits.
pub proof fn lemma_pixel_ticks(pixels: nat)
    requires
        pixels <= usize::MAX,
    ensures
        round_nat(pixels) <= 0x1_0000_0000_0000_0000,
        round_nat(pixels) >= 1 <==> pixels >= 1,
        pixel_ticks(pixels) <= MAX_TICKS,
        representable(pixel_ticks(pixels)),
{
    let m = lemma_round_ratio_factor(pixels, 1);
    let k = lemma_ulp_is_pow2(pixels / 1);
    lemma_pow2_adds(k, 32);
    lemma2_to64();
    assert((m * pow2(k)) * 0x1_0000_0000 == m * (pow2(k) * 0x1_0000_0000)) by (nonlinear_arith);
    lemma_representable(m, k + 32);
    if pixels < SIGNIFICAND_END {
        lemma_round_small(pixels);
    } else {
        law_round_int_error(pixels as int);
        assert(pixels < SIGNIFICAND_END * pow2(40)) by {
            lemma2_to64_rest();
        }
        lemma_ulp_divides(pixels, 40);
        lemma2_to64_rest();
        let top = 0x1_0000_0000_0000_0000nat;
        lemma_ulp_bounds(pixels);
        lemma_fundamental_div_mod(pow2(40) as int, ulp(pixels) as int);
        let f = pow2(40) / ulp(pixels);
        assert(0x100_0000 * (ulp(pixels) * f) == (0x100_0000 * f) * ulp(pixels))
            by (nonlinear_arith);
        lemma_mod_multiples_basic((0x100_0000 * f) as int, ulp(pixels) as int);
        assert(top % ulp(pixels) == 0);
        assert(0nat % ulp(pixels) == 0);
        lemma_round_ratio_between(pixels, 1, 0, top);
    }
}

// ---------------------------------------------------------------------------
// Sub-pixel refinement
// ---------------------------------------------------------------------------

/// Denominator of the parabola through three costs, in single precision:
/// `c0 - 2 c1 + c2`.
pub open spec fn curvature(c0: nat, c1: nat, c2: nat) -> int {
    round_int(round_int(round_nat(c0) - 2 * round_nat(c1)) + round_nat(c2))
}

/// Slope of the parabola through three costs, in single precision: `c0 - c2`.
pub open spec fn slope(c0: nat, c2: nat) -> int {
    round_int(round_nat(c0) - round_nat(c2))
}

/// Absolute value of an integer.
pub open spec fn magnitude(x: int) -> nat {
    (if x < 0 {
        -x
    } else {
        x
    }) as nat
}

/// The quotient of two integers in single precision, in subdivisions of a
/// pixel; zero if there is nothing to divide by.
pub open spec fn fine_ratio(num: int, den: int) -> int {
    let q = round_ratio(magnitude(num) * FINE_PER_PIXEL as nat, magnitude(den)) as int;
    if den == 0 {
        0
    } else if (num < 0) == (den < 0) {
        q
    } else {
        -q
    }
}

/// Distance from the middle cost to the vertex of the parabola through three
/// neighbouring costs: `0.5 * (c0 - c2) / (c0 - 2 c1 + c2)`, and no distance if
/// the costs lie on a line.
pub open spec fn vertex_offset(c0: nat, c1: nat, c2: nat) -> int {
    fine_ratio(slope(c0, c2), 2 * curvature(c0, c1, c2))
}

/// Position of the vertex next to disparity `d`, in subdivisions of a pixel and
/// before the final rounding.
pub open spec fn vertex_position(d: nat, c0: nat, c1: nat, c2: nat) -> int {
    round_nat(d) * FINE_PER_PIXEL + vertex_offset(c0, c1, c2)
}

/// The refined disparity, in ticks: the vertex position rounded to 24
/// significant bits.
pub open spec fn refined_ticks(d: nat, c0: nat, c1: nat, c2: nat) -> int {
    round_int(vertex_position(d, c0, c1, c2)) / FINE_PER_TICK as int
}

/// The costs around a winner that refinement starts from: the middle one is
/// the smallest, strictly smaller than its left neighbour, and below the limit
/// for valid pixels.
pub open spec fn winning_costs(c0: nat, c1: nat, c2: nat) -> bool {
    &&& c1 < c0 <= u32::MAX
    &&& c1 <= c2 <= u32::MAX
    &&& c1 <= MAX_VALID_COST
}

/// Around a winner the parabola opens upwards, and its slope is at most one and
/// a half times its curvature.
pub proof fn lemma_parabola(c0: nat, c1: nat, c2: nat)
    requires
        winning_costs(c0, c1, c2),
    ensures
        0 < curvature(c0, c1, c2) <= 0x4_0000_0000,
        -0x2_0000_0000 <= slope(c0, c2) <= 0x2_0000_0000,
        2 * slope(c0, c2) <= 3 * curvature(c0, c1, c2),
        -2 * slope(c0, c2) <= 3 * curvature(c0, c1, c2),
{
    lemma_round_small(c1);
    let a = round_nat(c0) as int;
    let c = round_nat(c2) as int;
    law_round_int_error(c0 as int);
    law_round_int_error(c2 as int);
    law_round_int_error(a - 2 * c1);
    law_round_int_error(round_int(a - 2 * c1) + c);
    law_round_int_error(a - c);
    if c0 < 0x40_0000 && c2 < 0x40_0000 {
        lemma_round_small(c0);
        lemma_round_small(c2);
        lemma_round_int_small(a - 2 * c1);
        lemma_round_int_small(a - 2 * c1 + c);
        lemma_round_int_small(a - c);
    } else {
        assert(a >= 0 && c >= 0);
        assert(a + c >= 0x20_0000);
    }
}

/// The offset stays well below a pixel.
pub proof fn lemma_vertex_offset(c0: nat, c1: nat, c2: nat)
    requires
        winning_costs(c0, c1, c2),
    ensures
        -0xc40_0000_0000_0000 <= vertex_offset(c0, c1, c2) <= 0xc40_0000_0000_0000,
{
    lemma_parabola(c0, c1, c2);
    let s = slope(c0, c2);
    let den = (2 * curvature(c0, c1, c2)) as nat;
    let n = magnitude(s) * FINE_PER_PIXEL as nat;
    law_round_error(n, den);
    let x = round_ratio(n, den) as int;
    assert(4 * n <= 3 * (FINE_PER_PIXEL * den));
    assert(x * den <= n + n / 0x100_0000 + den) by {
        if x * den >= n {
        }
    }
    assert(x <= 0xc40_0000_0000_0000) by (nonlinear_arith)
        requires
            x * den <= n + n / 0x100_0000 + den,
            4 * n <= 3 * (0x1000_0000_0000_0000 * den),
            den > 0,
    ;
}

/// The refined disparity is exact in ticks, in range, and has 24 significant
/// bits.
pub proof fn law_refined_is_exact(d: nat, c0: nat, c1: nat, c2: nat)
    requires
        1 <= d <= usize::MAX,
        winning_costs(c0, c1, c2),
    ensures
        0 <= vertex_position(d, c0, c1, c2) < 0x2000_0000_0000_0000_0000_0000_0000_0000,
        round_int(vertex_position(d, c0, c1, c2)) == refined_ticks(d, c0, c1, c2) * FINE_PER_TICK,
        0 <= refined_ticks(d, c0, c1, c2) <= MAX_TICKS,
        representable(refined_ticks(d, c0, c1, c2) as nat),
{
    lemma_pixel_ticks(d);
    lemma_vertex_offset(c0, c1, c2);
    let p = vertex_position(d, c0, c1, c2);
    let n = p as nat;
    assert(p >= 0x3c0_0000_0000_0000);
    law_round_int_error(p);
    lemma2_to64();
    lemma2_to64_rest();
    assert(n / 1 == n);
    lemma_ulp_multiple(n, 28);
    lemma_ulp_bounds(n);
    let u = ulp(n);
    let m = lemma_round_ratio_factor(n, 1);
    lemma_fundamental_div_mod(u as int, pow2(28) as int);
    let g = u / pow2(28);
    let r = round_nat(n);
    assert(r == (m * g) * pow2(28)) by (nonlinear_arith)
        requires
            r == m * u,
            u == pow2(28) * g,
    ;
    lemma_fundamental_div_mod_converse(r as int, pow2(28) as int, (m * g) as int, 0);
    let e = lemma_ulp_is_pow2(n);
    assert(e >= 28) by {
        if e < 28 {
            lemma_pow2_strictly_increases(e, 28);
        }
    }
    lemma_pow2_subtracts(28, e);
    assert(g == pow2((e - 28) as nat));
    lemma_representable(m, (e - 28) as nat);
}

/// Refines a winner by the parabola through its cost and the two beside it.
fn refine(d: usize, c0: u32, c1: u32, c2: u32) -> (r: Disparity)
    requires
        1 <= d,
        winning_costs(c0 as nat, c1 as nat, c2 as nat),
    ensures
        r.ticks == refined_ticks(d as nat, c0 as nat, c1 as nat, c2 as nat),
        r.wf(),
{
    proof {
        lemma_parabola(c0 as nat, c1 as nat, c2 as nat);
        lemma_vertex_offset(c0 as nat, c1 as nat, c2 as nat);
        law_refined_is_exact(d as nat, c0 as nat, c1 as nat, c2 as nat);
        lemma_pixel_ticks(d as nat);
        law_round_int_error(c0 as int);
        law_round_int_error(c1 as int);
        law_round_int_error(c2 as int);
        law_round_int_error(round_nat(c0 as nat) - 2 * round_nat(c1 as nat));
    }
    let a: i128 = round_quotient(c0 as u128, 1) as i128;
    let b: i128 = round_quotient(c1 as u128, 1) as i128;
    let c: i128 = round_quotient(c2 as u128, 1) as i128;
    let den: i128 = round_signed(round_signed(a - 2 * b) + c);
    let num: i128 = round_signed(a - c);
    let whole: u128 = round_quotient(d as u128, 1) * FINE_PER_PIXEL;
    let position: u128 = if num < 0 {
        whole - round_quotient((-num) as u128 * FINE_PER_PIXEL, 2 * den as u128)
    } else {
        whole + round_quotient(num as u128 * FINE_PER_PIXEL, 2 * den as u128)
    };
    Disparity { ticks: round_quotient(position, 1) / FINE_PER_TICK }
}

/// The offset is rounded to 24 significant bits: in subdivisions of a pixel it
/// has at least as many digits before the point.
pub proof fn law_offset_has_24_bits(c0: nat, c1: nat, c2: nat)
    requires
        winning_costs(c0, c1, c2),
        slope(c0, c2) != 0,
    ensures
        magnitude(slope(c0, c2)) * FINE_PER_PIXEL >= SIGNIFICAND_END * (2 * curvature(c0, c1, c2)),
{
    lemma_parabola(c0, c1, c2);
}

proof fn lemma_multiple_of_ulp(f: nat, k: nat, q: nat)
    requires
        q < SIGNIFICAND_END * pow2(k),
    ensures
        (f * pow2(k)) % ulp(q) == 0,
{
    lemma_ulp_divides(q, k);
    lemma_ulp_bounds(q);
    lemma_fundamental_div_mod(pow2(k) as int, ulp(q) as int);
    let g = pow2(k) / ulp(q);
    assert(f * (ulp(q) * g) == (f * g) * ulp(q)) by (nonlinear_arith);
    lemma_mod_multiples_basic((f * g) as int, ulp(q) as int);
}

/// The refined disparity is within half a pixel of the winner. Stated for costs
/// that single precision adds up exactly, and for disparities up to which it
/// counts half pixels.
pub proof fn law_refined_within_half_pixel(d: nat, c0: nat, c1: nat, c2: nat)
    requires
        1 <= d < 0x80_0000,
        winning_costs(c0, c1, c2),
        c0 + c2 < SIGNIFICAND_END,
    ensures
        2 * refined_ticks(d, c0, c1, c2) >= (2 * d - 1) * TICKS_PER_PIXEL,
        2 * refined_ticks(d, c0, c1, c2) <= (2 * d + 1) * TICKS_PER_PIXEL,
        d <= nearest_pixel(refined_ticks(d, c0, c1, c2)) <= d + 1,
{
    lemma_exact_parabola(c0, c1, c2);
    lemma_round_small(d);
    law_refined_is_exact(d, c0, c1, c2);
    lemma2_to64();
    lemma2_to64_rest();
    let half = 0x800_0000_0000_0000nat;
    let n = magnitude(slope(c0, c2)) * FINE_PER_PIXEL as nat;
    let den = (2 * curvature(c0, c1, c2)) as nat;
    assert(n <= half * den);
    assert(n / den <= half) by {
        lemma_fundamental_div_mod(n as int, den as int);
        let q = n / den;
        assert(q <= half) by (nonlinear_arith)
            requires
                n == den * q + n % den,
                n <= half * den,
                n % den >= 0,
                den > 0,
        ;
    }
    lemma_multiple_of_ulp(1, 59, n / den);
    assert(0 * den == 0 && 0nat % ulp(n / den) == 0) by {
        lemma_ulp_bounds(n / den);
    }
    lemma_round_ratio_between(n, den, 0, half);
    let p = vertex_position(d, c0, c1, c2);
    let lo = ((2 * d - 1) * half) as nat;
    let hi = (2 * d + 1) * half;
    assert(p / 1 == p);
    lemma_multiple_of_ulp((2 * d - 1) as nat, 59, p as nat);
    lemma_multiple_of_ulp(2 * d + 1, 59, p as nat);
    lemma_round_ratio_between(p as nat, 1, lo, hi);
}

/// A value with 24 significant bits is its own rounding, and so is what lies
/// less than half the spacing above it.
proof fn lemma_round_back(x: nat, p: nat)
    requires
        representable(x),
        x <= p,
        2 * (p - x) < ulp(x),
    ensures
        round_nat(p) == x,
{
    let u = ulp(x);
    lemma_ulp_bounds(x);
    lemma_ulp_bounds(p);
    lemma_ulp_monotone(x, p);
    lemma_fundamental_div_mod(x as int, u as int);
    let m = x / u;
    assert(m < SIGNIFICAND_END) by (nonlinear_arith)
        requires
            x < SIGNIFICAND_END * u,
            x == u * m,
            u >= 1,
    ;
    assert(p < SIGNIFICAND_END * u) by (nonlinear_arith)
        requires
            p < x + u,
            x == u * m,
            m + 1 <= SIGNIFICAND_END,
    ;
    if ulp(p) > u {
        lemma_ulp_doubles(x, p);
    }
    assert(p / 1 == p);
    lemma_fundamental_div_mod_converse(p as int, u as int, m as int, p - x);
    assert(round_half_even(p, 1 * u) == m);
    assert(m * u == u * m) by (nonlinear_arith);
}

/// A refined disparity does not exceed the next candidate.
pub proof fn law_refined_below_next(d: nat, c0: nat, c1: nat, c2: nat)
    requires
        1 <= d < usize::MAX,
        winning_costs(c0, c1, c2),
    ensures
        refined_ticks(d, c0, c1, c2) <= pixel_ticks(d + 1),
{
    lemma_pixel_ticks(d);
    lemma_pixel_ticks(d + 1);
    lemma_vertex_offset(c0, c1, c2);
    law_refined_is_exact(d, c0, c1, c2);
    law_round_monotone(d, d + 1);
    lemma2_to64();
    lemma2_to64_rest();
    let p = vertex_position(d, c0, c1, c2) as nat;
    if d < SIGNIFICAND_END {
        lemma_round_small(d);
        lemma_representable(d + 1, 60);
        lemma_representable(d + 1, 0);
        let next = (d + 1) * FINE_PER_PIXEL as nat;
        lemma_ulp_bounds(next);
        lemma_round_back(next, next);
        lemma_ulp_bounds(d + 1);
        lemma_round_back(d + 1, d + 1);
        law_round_monotone(p, next);
    } else {
        let whole = round_nat(d);
        law_round_monotone(SIGNIFICAND_END as nat, d);
        lemma_representable(0x80_0000, 1);
        lemma_ulp_bounds(SIGNIFICAND_END as nat);
        lemma_round_back(SIGNIFICAND_END as nat, SIGNIFICAND_END as nat);
        let x = whole * FINE_PER_PIXEL as nat;
        let m = lemma_round_ratio_factor(d, 1);
        let e = lemma_ulp_is_pow2(d / 1);
        lemma_pow2_adds(e, 60);
        assert((m * pow2(e)) * 0x1000_0000_0000_0000 == m * (pow2(e) * 0x1000_0000_0000_0000))
            by (nonlinear_arith);
        lemma_representable(m, e + 60);
        lemma_ulp_bounds(x);
        lemma_ulp_multiple(x, 60);
        lemma_fundamental_div_mod(ulp(x) as int, pow2(60) as int);
        let g = ulp(x) / pow2(60);
        assert(g >= 2) by {
            if g < 2 {
                assert(ulp(x) <= pow2(60));
            }
        }
        if p >= x {
            lemma_round_back(x, p);
        } else {
            lemma_round_back(x, x);
            law_round_monotone(p, x);
        }
    }
}

// ---------------------------------------------------------------------------
// Winner takes all
// ---------------------------------------------------------------------------

/// Whether `d` is the first position of the smallest cost.
pub open spec fn is_winner(costs: Seq<u32>, d: int) -> bool {
    &&& 0 <= d < costs.len()
    &&& forall|j: int| 0 <= j < costs.len() ==> costs[d] <= #[trigger] costs[j]
    &&& forall|j: int| 0 <= j < d ==> costs[d] < #[trigger] costs[j]
}

/// The first position of the smallest cost.
pub open spec fn winner(costs: Seq<u32>) -> int {
    choose|d: int| is_winner(costs, d)
}

/// The disparity of a pixel with the aggregated costs `costs`. It has none if
/// there is no candidate or if the smallest cost is too large. Otherwise it is
/// the first candidate of smallest cost, refined if it has a neighbour on
/// either side.
pub open spec fn best_disparity(costs: Seq<u32>) -> Option<Disparity> {
    let d = winner(costs);
    if costs.len() == 0 || costs[d] > MAX_VALID_COST {
        None
    } else if 0 < d && d + 1 < costs.len() {
        Some(
            Disparity {
                ticks: refined_ticks(
                    d as nat,
                    costs[d - 1] as nat,
                    costs[d] as nat,
                    costs[d + 1] as nat,
                ) as u128,
            },
        )
    } else {
        Some(Disparity { ticks: pixel_ticks(d as nat) as u128 })
    }
}

/// The disparities of all pixels.
pub open spec fn disparities(agg: Seq<u32>, w: int, h: int, max_d: int) -> Seq<Option<Disparity>> {
    Seq::new(
        (w * h) as nat,
        |i: int| best_disparity(agg.subrange(i * max_d, i * max_d + max_d)),
    )
}

/// The disparities without those of border pixels: a pixel whose Census window
/// of radius `r` leaves the image has none.
pub open spec fn without_border(disps: Seq<Option<Disparity>>, w: int, h: int, r: int) -> Seq<
    Option<Disparity>,
> {
    Seq::new(
        disps.len(),
        |i: int|
            if window_fits(w, h, r, i % w, i / w) {
                disps[i]
            } else {
                None
            },
    )
}

/// All disparities that are there are well-formed.
pub open spec fn all_wf(disps: Seq<Option<Disparity>>) -> bool {
    forall|i: int|
        0 <= i < disps.len() ==> (#[trigger] disps[i] matches Some(d) ==> d.wf())
}

/// A row of costs has one winner.
pub proof fn law_winner_unique(costs: Seq<u32>, d: int)
    requires
        is_winner(costs, d),
    ensures
        winner(costs) == d,
        is_winner(costs, winner(costs)),
{
    let e = winner(costs);
    assert(is_winner(costs, e));
    if e < d {
        assert(costs[d] < costs[e]);
        assert(costs[e] <= costs[d]);
    } else if d < e {
        assert(costs[e] < costs[d]);
        assert(costs[d] <= costs[e]);
    }
}

/// A row that is not empty has a winner.
pub proof fn lemma_winner_exists(costs: Seq<u32>)
    requires
        costs.len() > 0,
    ensures
        is_winner(costs, winner(costs)),
    decreases costs.len(),
{
    let last = costs.len() - 1;
    if last == 0 {
        assert(is_winner(costs, 0));
    } else {
        let init = costs.drop_last();
        lemma_winner_exists(init);
        let b = winner(init);
        assert forall|j: int| 0 <= j < last implies init[b] <= #[trigger] costs[j] by {
            assert(init[j] == costs[j]);
        }
        assert forall|j: int| 0 <= j < b implies init[b] < #[trigger] costs[j] by {
            assert(init[j] == costs[j]);
        }
        if costs[last] < costs[b] {
            assert(is_winner(costs, last));
        } else {
            assert(is_winner(costs, b));
        }
    }
}

/// What all candidates cost in common does not matter: adding the same amount to
/// every cost keeps the disparity, while the pixel stays valid and single
/// precision adds up the costs exactly.
pub proof fn law_common_cost(costs: Seq<u32>, raised: Seq<u32>, amount: nat)
    requires
        raised.len() == costs.len(),
        forall|j: int| 0 <= j < costs.len() ==> #[trigger] raised[j] == costs[j] + amount,
        forall|j: int| 0 <= j < costs.len() ==> #[trigger] raised[j] < 0x80_0000,
        best_disparity(raised) is Some,
    ensures
        best_disparity(costs) == best_disparity(raised),
{
    lemma_winner_exists(raised);
    let d = winner(raised);
    assert(is_winner(costs, d)) by {
        assert(raised[d] == costs[d] + amount);
        assert forall|j: int| 0 <= j < costs.len() implies costs[d] <= #[trigger] costs[j] by {
            assert(raised[j] == costs[j] + amount);
        }
        assert forall|j: int| 0 <= j < d implies costs[d] < #[trigger] costs[j] by {
            assert(raised[j] == costs[j] + amount);
        }
    }
    law_winner_unique(costs, d);
    assert(raised[d] == costs[d] + amount);
    if 0 < d && d + 1 < costs.len() {
        assert(raised[d - 1] == costs[d - 1] + amount);
        assert(raised[d + 1] == costs[d + 1] + amount);
        lemma_exact_parabola(costs[d - 1] as nat, costs[d] as nat, costs[d + 1] as nat);
        lemma_exact_parabola(raised[d - 1] as nat, raised[d] as nat, raised[d + 1] as nat);
    }
}

/// Small costs add up exactly.
pub proof fn lemma_exact_parabola(c0: nat, c1: nat, c2: nat)
    requires
        c0 + c2 < SIGNIFICAND_END,
        c1 <= c0,
        c1 <= c2,
    ensures
        curvature(c0, c1, c2) == c0 - 2 * c1 + c2,
        slope(c0, c2) == c0 - c2,
{
    lemma_round_small(c0);
    lemma_round_small(c1);
    lemma_round_small(c2);
    lemma_round_int_small(c0 - 2 * c1);
    lemma_round_int_small(c0 - 2 * c1 + c2);
    lemma_round_int_small(c0 - c2);
}

/// Finds the first position of the smallest of the `max_d` costs from `base` on.
fn find_winner(agg: &[u32], base: usize, max_d: usize) -> (best: usize)
    requires
        max_d > 0,
        base + max_d <= agg@.len(),
        base + max_d <= usize::MAX,
    ensures
        is_winner(agg@.subrange(base as int, base + max_d), best as int),
{
    let ghost costs = agg@.subrange(base as int, base + max_d);
    let mut best: usize = 0;
    let mut d: usize = 1;
    while d < max_d
        invariant
            max_d > 0,
            base + max_d <= agg@.len(),
            base + max_d <= usize::MAX,
            costs == agg@.subrange(base as int, base + max_d),
            1 <= d <= max_d,
            best < d,
            forall|j: int| 0 <= j < d ==> costs[best as int] <= #[trigger] costs[j],
            forall|j: int| 0 <= j < best ==> costs[best as int] < #[trigger] costs[j],
        decreases max_d - d,
    {
        assert(agg@[base + d] == costs[d as int] && agg@[base + best] == costs[best as int]);
        if agg[base + d] < agg[base + best] {
            best = d;
        }
        d = d + 1;
    }
    best
}

/// Finds the disparity of one pixel.
fn pixel_disparity(agg: &[u32], base: usize, max_d: usize) -> (r: Option<Disparity>)
    requires
        base + max_d <= agg@.len(),
        base + max_d <= usize::MAX,
    ensures
        r == best_disparity(agg@.subrange(base as int, base + max_d)),
        r matches Some(d) ==> d.wf(),
{
    if max_d == 0 {
        return None;
    }
    let ghost costs = agg@.subrange(base as int, base + max_d);
    let best: usize = find_winner(agg, base, max_d);
    proof {
        law_winner_unique(costs, best as int);
    }
    let c_best: u32 = agg[base + best];
    assert(c_best == costs[best as int]);
    if c_best > MAX_VALID_COST {
        return None;
    }
    if best > 0 && best + 1 < max_d {
        let c0: u32 = agg[base + best - 1];
        let c2: u32 = agg[base + best + 1];
        assert(c0 == costs[best - 1] && c2 == costs[best + 1]);
        let refined: Disparity = refine(best, c0, c_best, c2);
        Some(refined)
    } else {
        Some(Disparity::from_pixels(best))
    }
}

/// Finds the winner-takes-all disparity of every pixel with parabolic sub-pixel
/// refinement.
///
/// The winner is the first disparity of smallest aggregated cost. If it is not
/// at the border of the search range, a parabola through the costs around it
/// refines it. Pixels whose smallest cost exceeds [`MAX_VALID_COST`] have no
/// disparity.
pub fn wta_subpixel(agg: &[u32], w: usize, h: usize, max_d: usize) -> (out: Vec<Option<Disparity>>)
    requires
        w * h <= usize::MAX,
        w * h * max_d <= agg@.len(),
    ensures
        out@ == disparities(agg@, w as int, h as int, max_d as int),
        all_wf(out@),
{
    let mut out: Vec<Option<Disparity>> = Vec::new();
    let ghost len = agg.len();
    let mut i: usize = 0;
    while i < w * h
        invariant
            w * h <= usize::MAX,
            w * h * max_d <= agg@.len(),
            agg@.len() <= usize::MAX,
            i <= w * h,
            out@.len() == i,
            all_wf(out@),
            forall|j: int|
                0 <= j < i ==> #[trigger] out@[j] == best_disparity(
                    agg@.subrange(j * max_d, j * max_d + max_d),
                ),
        decreases w * h - i,
    {
        proof {
            assert(0 <= i * max_d && i * max_d + max_d <= w * h * max_d) by (nonlinear_arith)
                requires
                    0 <= i,
                    i + 1 <= w * h,
                    0 <= max_d,
            ;
        }
        let d: Option<Disparity> = pixel_disparity(agg, i * max_d, max_d);
        out.push(d);
        i = i + 1;
    }
    proof {
        assert(out@ =~= disparities(agg@, w as int, h as int, max_d as int));
    }
    out
}

/// Invalidates the pixels within `r` of the border.
pub fn clear_border(disps: &mut Vec<Option<Disparity>>, w: usize, h: usize, r: usize)
    requires
        old(disps)@.len() == w * h,
        all_wf(old(disps)@),
    ensures
        final(disps)@ == without_border(old(disps)@, w as int, h as int, r as int),
        all_wf(final(disps)@),
{
    let n: usize = disps.len();
    let mut i: usize = 0;
    while i < n
        invariant
            n == w * h,
            i <= n,
            disps@.len() == n,
            old(disps)@.len() == n,
            all_wf(old(disps)@),
            forall|j: int|
                0 <= j < n ==> #[trigger] disps@[j] == if j < i {
                    without_border(old(disps)@, w as int, h as int, r as int)[j]
                } else {
                    old(disps)@[j]
                },
        decreases n - i,
    {
        proof {
            assert(w * h == h * w) by (nonlinear_arith);
            lemma_parts(i as int, h as int, w as int);
        }
        let u: usize = i % w;
        let v: usize = i / w;
        if u < r || v < r || w - u <= r || h - v <= r {
            disps[i] = None;
        }
        i = i + 1;
    }
    proof {
        assert(disps@ =~= without_border(old(disps)@, w as int, h as int, r as int));
    }
}

} // verus!
