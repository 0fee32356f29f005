//! Census transform.
//!
//! Every pixel is described by a bit string that records which pixels of the
//! square window around it are darker than it. The description only depends on
//! the order of the intensities, so it survives gain and bias differences
//! between two views.

use vstd::prelude::*;
use vstd::set_lib::lemma_map_size;
use crate::bits::{bit, law_ones_count_positions, lemma_set_bit};
use crate::index::{lemma_in_range, lemma_parts, lemma_split};

verus! {

/// Number of neighbours in the `(2r+1) x (2r+1)` window.
pub open spec fn neighbour_count(r: int) -> int {
    (2 * r + 1) * (2 * r + 1) - 1
}

/// Column and row offset of neighbour `i`. The window is read row by row and
/// its centre is passed over.
pub open spec fn neighbour_offset(r: int, i: int) -> (int, int) {
    let j = if i < 2 * r * (r + 1) {
        i
    } else {
        i + 1
    };
    (j % (2 * r + 1) - r, j / (2 * r + 1) - r)
}

/// Whether neighbour `i` of pixel `(u, v)` is darker than the pixel.
pub open spec fn darker(src: Seq<u8>, w: int, r: int, u: int, v: int, i: int) -> bool {
    let (du, dv) = neighbour_offset(r, i);
    src[(v + dv) * w + (u + du)] < src[v * w + u]
}

/// The word in which bit `i mod 64` is set for every darker neighbour `i`
/// among the first `n`.
pub open spec fn census_word(src: Seq<u8>, w: int, r: int, u: int, v: int, n: nat) -> u64
    decreases n,
{
    if n == 0 {
        0
    } else {
        let below = census_word(src, w, r, u, v, (n - 1) as nat);
        if darker(src, w, r, u, v, n - 1) {
            below | (1u64 << (((n - 1) % 64) as u64))
        } else {
            below
        }
    }
}

/// Whether the whole window around `(u, v)` lies in the image.
pub open spec fn window_fits(w: int, h: int, r: int, u: int, v: int) -> bool {
    r <= u < w - r && r <= v < h - r
}

/// Description of pixel `(u, v)`: zero where the window leaves the image.
pub open spec fn census_at(src: Seq<u8>, w: int, h: int, r: int, u: int, v: int) -> u64 {
    if window_fits(w, h, r, u, v) {
        census_word(src, w, r, u, v, neighbour_count(r) as nat)
    } else {
        0
    }
}

/// Descriptions of all pixels, row by row.
pub open spec fn census_map(src: Seq<u8>, w: int, h: int, r: int) -> Seq<u64> {
    Seq::new((w * h) as nat, |i: int| census_at(src, w, h, r, i % w, i / w))
}

/// The sizes on which the transform is defined: the pixels can be counted, and
/// they are there if any window fits.
pub open spec fn census_defined(len: nat, w: int, h: int, r: int) -> bool {
    &&& w * h <= usize::MAX
    &&& (2 * r < h && 2 * r < w ==> w * h <= len)
}

/// A window position that is inside the image is an index of the image.
proof fn lemma_window_pixel(w: int, h: int, r: int, u: int, v: int, du: int, dv: int)
    requires
        window_fits(w, h, r, u, v),
        -r <= du <= r,
        -r <= dv <= r,
    ensures
        0 <= (v + dv) * w,
        (v + dv) * w + (u + du) < w * h,
{
    lemma_in_range(v + dv, u + du, h, w);
    assert(w * h == h * w) by (nonlinear_arith);
}

/// Describes one pixel whose window lies in the image.
fn census_pixel(src: &[u8], w: usize, h: usize, r: usize, u: usize, v: usize) -> (bits: u64)
    requires
        w * h <= src@.len(),
        w * h <= usize::MAX,
        window_fits(w as int, h as int, r as int, u as int, v as int),
    ensures
        bits == census_word(
            src@,
            w as int,
            r as int,
            u as int,
            v as int,
            neighbour_count(r as int) as nat,
        ),
{
    let ghost side = 2 * r + 1;
    let ghost mid = 2 * r * (r + 1);
    proof {
        lemma_window_pixel(w as int, h as int, r as int, u as int, v as int, 0, 0);
        assert(side * side <= w * h) by (nonlinear_arith)
            requires
                0 < side <= w,
                side <= h,
        ;
        assert(r * side + r == mid) by (nonlinear_arith)
            requires
                side == 2 * r + 1,
                mid == 2 * r * (r + 1),
        ;
    }
    let centre: u8 = src[v * w + u];
    let mut bits: u64 = 0;
    let mut bit_idx: usize = 0;
    let mut y: usize = 0;
    assert(0 * side == 0) by (nonlinear_arith);
    while y <= 2 * r
        invariant
            w * h <= src@.len(),
            w * h <= usize::MAX,
            window_fits(w as int, h as int, r as int, u as int, v as int),
            side == 2 * r + 1,
            mid == r * side + r,
            mid == 2 * r * (r + 1),
            side * side <= w * h,
            0 <= v * w,
            centre == src@[v * w + u],
            0 <= y <= side,
            bit_idx == if y * side <= mid { y * side } else { y * side - 1 },
            bits == census_word(src@, w as int, r as int, u as int, v as int, bit_idx as nat),
        decreases side - y,
    {
        let mut x: usize = 0;
        while x <= 2 * r
            invariant
                w * h <= src@.len(),
                w * h <= usize::MAX,
                window_fits(w as int, h as int, r as int, u as int, v as int),
                side == 2 * r + 1,
                mid == r * side + r,
                mid == 2 * r * (r + 1),
                side * side <= w * h,
                0 <= v * w,
                centre == src@[v * w + u],
                0 <= y < side,
                0 <= x <= side,
                bit_idx == if y * side + x <= mid { y * side + x } else { y * side + x - 1 },
                bits == census_word(src@, w as int, r as int, u as int, v as int, bit_idx as nat),
            decreases side - x,
        {
            proof {
                lemma_in_range(y as int, x as int, side as int, side as int);
                lemma_split(y as int, x as int, side as int);
                lemma_window_pixel(
                    w as int,
                    h as int,
                    r as int,
                    u as int,
                    v as int,
                    x - r,
                    y - r,
                );
            }
            if x == r && y == r {
            } else {
                proof {
                    assert(y * side + x != mid) by {
                        lemma_split(r as int, r as int, side as int);
                    }
                    assert(neighbour_offset(r as int, bit_idx as int) == (x - r, y - r));
                }
                let nu: usize = (u - r) + x;
                let nv: usize = (v - r) + y;
                if src[nv * w + nu] < centre {
                    bits = bits | (1u64 << ((bit_idx % 64) as u64));
                }
                bit_idx = bit_idx + 1;
            }
            x = x + 1;
        }
        proof {
            assert((y + 1) * side == y * side + side) by (nonlinear_arith);
        }
        y = y + 1;
    }
    proof {
        assert(y * side == side * side);
        assert(mid < side * side) by (nonlinear_arith)
            requires
                mid == r * side + r,
                side == 2 * r + 1,
                r >= 0,
        ;
    }
    bits
}

/// Computes a Census bit string for every pixel using a `(2r+1) x (2r+1)`
/// window.
///
/// Each of the `(2r+1)^2 - 1` neighbours contributes one bit, which is 1 if the
/// neighbour is darker than the centre. Up to `r = 3` every neighbour has a bit
/// of its own; in larger windows neighbour `i` shares bit `i mod 64`. Pixels
/// within `r` of the border receive 0.
pub fn census_transform(src: &[u8], w: usize, h: usize, r: usize) -> (out: Vec<u64>)
    requires
        census_defined(src@.len(), w as int, h as int, r as int),
    ensures
        out@ == census_map(src@, w as int, h as int, r as int),
{
    let mut out: Vec<u64> = Vec::new();
    let mut v: usize = 0;
    assert(0 * w == 0) by (nonlinear_arith);
    while v < h
        invariant
            census_defined(src@.len(), w as int, h as int, r as int),
            v <= h,
            out@.len() == v * w,
            forall|i: int|
                0 <= i < out@.len() ==> #[trigger] out@[i] == census_at(
                    src@,
                    w as int,
                    h as int,
                    r as int,
                    i % (w as int),
                    i / (w as int),
                ),
        decreases h - v,
    {
        let mut u: usize = 0;
        while u < w
            invariant
                census_defined(src@.len(), w as int, h as int, r as int),
                v < h,
                u <= w,
                out@.len() == v * w + u,
                forall|i: int|
                    0 <= i < out@.len() ==> #[trigger] out@[i] == census_at(
                        src@,
                        w as int,
                        h as int,
                        r as int,
                        i % (w as int),
                        i / (w as int),
                    ),
            decreases w - u,
        {
            proof {
                lemma_split(v as int, u as int, w as int);
            }
            let bits: u64 = if v >= r && h - v > r && u >= r && w - u > r {
                census_pixel(src, w, h, r, u, v)
            } else {
                0
            };
            out.push(bits);
            u = u + 1;
        }
        proof {
            assert((v + 1) * w == v * w + w) by (nonlinear_arith);
        }
        v = v + 1;
    }
    proof {
        assert(h * w == w * h) by (nonlinear_arith);
        assert(out@ =~= census_map(src@, w as int, h as int, r as int));
    }
    out
}

/// The offset of a neighbour stays inside the window.
pub proof fn lemma_neighbour_offset(r: int, i: int)
    requires
        0 <= r,
        0 <= i < neighbour_count(r),
    ensures
        -r <= neighbour_offset(r, i).0 <= r,
        -r <= neighbour_offset(r, i).1 <= r,
{
    let side = 2 * r + 1;
    let j = if i < 2 * r * (r + 1) {
        i
    } else {
        i + 1
    };
    lemma_parts(j, side, side);
}

/// A bit of a description is set exactly if one of the neighbours that share
/// it is darker than the pixel.
pub proof fn law_census_bit(src: Seq<u8>, w: int, r: int, u: int, v: int, n: nat, k: int)
    requires
        0 <= k < 64,
    ensures
        bit(census_word(src, w, r, u, v, n), k) <==> exists|i: int|
            0 <= i < n && i % 64 == k && #[trigger] darker(src, w, r, u, v, i),
    decreases n,
{
    if n == 0 {
        let j = k as u64;
        assert((0u64 >> j) & 1 != 1) by (bit_vector);
    } else {
        let m = (n - 1) as nat;
        let below = census_word(src, w, r, u, v, m);
        law_census_bit(src, w, r, u, v, m, k);
        lemma_set_bit(below, (m % 64) as int, k);
        if bit(census_word(src, w, r, u, v, n), k) {
            if bit(below, k) {
                let i = choose|i: int|
                    0 <= i < m && i % 64 == k && #[trigger] darker(src, w, r, u, v, i);
                assert(0 <= i < n && i % 64 == k && darker(src, w, r, u, v, i));
            } else {
                assert(darker(src, w, r, u, v, m as int));
            }
        }
        if exists|i: int| 0 <= i < n && i % 64 == k && #[trigger] darker(src, w, r, u, v, i) {
            let i = choose|i: int|
                0 <= i < n && i % 64 == k && #[trigger] darker(src, w, r, u, v, i);
            if i < m {
                assert(bit(below, k));
            }
        }
    }
}

/// Up to a radius of 3 every neighbour owns one bit of the description, and
/// the remaining bits are zero.
pub proof fn law_census_own_bit(src: Seq<u8>, w: int, h: int, r: int, u: int, v: int, k: int)
    requires
        0 <= r <= 3,
        window_fits(w, h, r, u, v),
        0 <= k < 64,
    ensures
        bit(census_at(src, w, h, r, u, v), k) <==> k < neighbour_count(r) && darker(
            src,
            w,
            r,
            u,
            v,
            k,
        ),
{
    let n = neighbour_count(r);
    assert(0 <= n <= 48) by (nonlinear_arith)
        requires
            0 <= r <= 3,
            n == (2 * r + 1) * (2 * r + 1) - 1,
    ;
    law_census_bit(src, w, r, u, v, n as nat, k);
}

/// Pixels closer than the radius to the border have the empty description.
pub proof fn law_census_border(src: Seq<u8>, w: int, h: int, r: int, u: int, v: int)
    requires
        0 <= u < w,
        0 <= v < h,
        u < r || v < r || u >= w - r || v >= h - r,
    ensures
        census_map(src, w, h, r)[v * w + u] == 0,
{
    lemma_in_range(v, u, h, w);
    lemma_split(v, u, w);
    assert(h * w == w * h) by (nonlinear_arith);
}

proof fn lemma_word_order_only(a: Seq<u8>, b: Seq<u8>, w: int, h: int, r: int, u: int, v: int, n: nat)
    requires
        w * h <= a.len(),
        0 <= r,
        n <= neighbour_count(r),
        window_fits(w, h, r, u, v),
        forall|i: int, j: int|
            0 <= i < w * h && 0 <= j < w * h ==> (#[trigger] a[i] < #[trigger] a[j] <==> b[i] < b[j]),
    ensures
        census_word(a, w, r, u, v, n) == census_word(b, w, r, u, v, n),
    decreases n,
{
    if n > 0 {
        lemma_word_order_only(a, b, w, h, r, u, v, (n - 1) as nat);
        lemma_neighbour_offset(r, n - 1);
        let (du, dv) = neighbour_offset(r, n - 1);
        lemma_window_pixel(w, h, r, u, v, du, dv);
        lemma_window_pixel(w, h, r, u, v, 0, 0);
        assert(a[(v + dv) * w + (u + du)] < a[v * w + u] <==> b[(v + dv) * w + (u + du)] < b[v * w
            + u]);
    }
}

/// The transform depends on the order of the intensities only: two images
/// whose pixels compare alike have the same descriptions.
pub proof fn law_census_order_only(a: Seq<u8>, b: Seq<u8>, w: int, h: int, r: int)
    requires
        0 <= w,
        0 <= r,
        w * h <= a.len(),
        forall|i: int, j: int|
            0 <= i < w * h && 0 <= j < w * h ==> (#[trigger] a[i] < #[trigger] a[j] <==> b[i] < b[j]),
    ensures
        census_map(a, w, h, r) == census_map(b, w, h, r),
{
    assert forall|i: int| 0 <= i < w * h implies #[trigger] census_map(a, w, h, r)[i] == census_map(
        b,
        w,
        h,
        r,
    )[i] by {
        assert(w * h == h * w) by (nonlinear_arith);
        lemma_parts(i, h, w);
        let u = i % w;
        let v = i / w;
        if window_fits(w, h, r, u, v) {
            assert(neighbour_count(r) >= 0) by (nonlinear_arith)
                requires
                    0 <= r,
                    neighbour_count(r) == (2 * r + 1) * (2 * r + 1) - 1,
            ;
            lemma_word_order_only(a, b, w, h, r, u, v, neighbour_count(r) as nat);
        }
    }
    assert(census_map(a, w, h, r) =~= census_map(b, w, h, r));
}

/// A gain and a bias on the intensities leave the descriptions alone.
pub proof fn law_census_gain_bias(
    a: Seq<u8>,
    b: Seq<u8>,
    w: int,
    h: int,
    r: int,
    gain: int,
    bias: int,
)
    requires
        0 <= w,
        0 <= r,
        0 < gain,
        w * h <= a.len(),
        forall|i: int| 0 <= i < w * h ==> #[trigger] b[i] == gain * a[i] + bias,
    ensures
        census_map(a, w, h, r) == census_map(b, w, h, r),
{
    assert forall|i: int, j: int| 0 <= i < w * h && 0 <= j < w * h implies (#[trigger] a[i]
        < #[trigger] a[j] <==> b[i] < b[j]) by {
        let x = a[i] as int;
        let y = a[j] as int;
        assert(b[i] == gain * x + bias);
        assert(b[j] == gain * y + bias);
        assert(x < y <==> gain * x < gain * y) by (nonlinear_arith)
            requires
                0 < gain,
        ;
    }
    law_census_order_only(a, b, w, h, r);
}

/// Every pixel of the window but its centre is one neighbour: the one that
/// counts the pixels before it, row by row and without the centre.
pub proof fn law_window_pixel_is_a_neighbour(r: int, du: int, dv: int)
    requires
        -r <= du <= r,
        -r <= dv <= r,
        du != 0 || dv != 0,
    ensures
        ({
            let j = (dv + r) * (2 * r + 1) + (du + r);
            let i = if j < r * (2 * r + 1) + r {
                j
            } else {
                j - 1
            };
            &&& neighbour_count(r) == (2 * r + 1) * (2 * r + 1) - 1
            &&& 0 <= i < (2 * r + 1) * (2 * r + 1) - 1
            &&& neighbour_offset(r, i) == (du, dv)
            &&& forall|k: int|
                0 <= k < (2 * r + 1) * (2 * r + 1) - 1 && #[trigger] neighbour_offset(r, k) == (
                    du,
                    dv,
                ) ==> k == i
        }),
{
    let side = 2 * r + 1;
    let mid = r * side + r;
    assert(mid == 2 * r * (r + 1)) by (nonlinear_arith)
        requires
            mid == r * side + r,
            side == 2 * r + 1,
    ;
    let j = (dv + r) * side + (du + r);
    lemma_split(dv + r, du + r, side);
    lemma_split(r, r, side);
    lemma_in_range(dv + r, du + r, side, side);
    lemma_in_range(r, r, side, side);
    let i = if j < mid {
        j
    } else {
        j - 1
    };
    assert forall|k: int|
        0 <= k < side * side - 1 && #[trigger] neighbour_offset(r, k) == (du, dv) implies k
        == i by {
        let l = if k < mid {
            k
        } else {
            k + 1
        };
        lemma_parts(l, side, side);
    }
}

/// Every neighbour is a pixel of the window, and none is its centre.
pub proof fn law_neighbour_is_in_the_window(r: int, i: int)
    requires
        0 <= r,
        0 <= i < (2 * r + 1) * (2 * r + 1) - 1,
    ensures
        -r <= neighbour_offset(r, i).0 <= r,
        -r <= neighbour_offset(r, i).1 <= r,
        neighbour_offset(r, i) != (0int, 0int),
{
    let side = 2 * r + 1;
    let mid = 2 * r * (r + 1);
    assert(mid == r * side + r) by (nonlinear_arith)
        requires
            mid == 2 * r * (r + 1),
            side == 2 * r + 1,
    ;
    let j = if i < mid {
        i
    } else {
        i + 1
    };
    lemma_parts(j, side, side);
}

/// What a description says: bit `k` is set exactly if some pixel of the window
/// that is numbered `k`, modulo 64, is darker than the centre. The pixels are
/// numbered row by row, from the top left, without the centre.
pub proof fn law_census_describes_window(
    src: Seq<u8>,
    w: int,
    h: int,
    r: int,
    u: int,
    v: int,
    k: int,
)
    requires
        0 <= r,
        r <= u < w - r,
        r <= v < h - r,
        0 <= k < 64,
    ensures
        (census_map(src, w, h, r)[v * w + u] >> (k as u64)) & 1 == 1 <==> exists|du: int, dv: int|
            {
                let j = (dv + r) * (2 * r + 1) + (du + r);
                let i = if j < r * (2 * r + 1) + r {
                    j
                } else {
                    j - 1
                };
                &&& -r <= du <= r
                &&& -r <= dv <= r
                &&& du != 0 || dv != 0
                &&& i % 64 == k
                &&& #[trigger] src[(v + dv) * w + (u + du)] < src[v * w + u]
            },
{
    lemma_in_range(v, u, h, w);
    lemma_split(v, u, w);
    assert(h * w == w * h) by (nonlinear_arith);
    let n = (2 * r + 1) * (2 * r + 1) - 1;
    assert(0 <= n) by (nonlinear_arith)
        requires
            n == (2 * r + 1) * (2 * r + 1) - 1,
            0 <= r,
    ;
    law_census_bit(src, w, r, u, v, n as nat, k);
    let word = census_map(src, w, h, r)[v * w + u];
    assert(word == census_word(src, w, r, u, v, n as nat));
    if bit(word, k) {
        let i = choose|i: int| 0 <= i < n && i % 64 == k && #[trigger] darker(src, w, r, u, v, i);
        let (du, dv) = neighbour_offset(r, i);
        law_neighbour_is_in_the_window(r, i);
        law_window_pixel_is_a_neighbour(r, du, dv);
        assert(src[(v + dv) * w + (u + du)] < src[v * w + u]);
    }
    if exists|du: int, dv: int|
        {
            let j = (dv + r) * (2 * r + 1) + (du + r);
            let i = if j < r * (2 * r + 1) + r {
                j
            } else {
                j - 1
            };
            &&& -r <= du <= r
            &&& -r <= dv <= r
            &&& du != 0 || dv != 0
            &&& i % 64 == k
            &&& #[trigger] src[(v + dv) * w + (u + du)] < src[v * w + u]
        } {
        let (du, dv) = choose|du: int, dv: int|
            {
                let j = (dv + r) * (2 * r + 1) + (du + r);
                let i = if j < r * (2 * r + 1) + r {
                    j
                } else {
                    j - 1
                };
                &&& -r <= du <= r
                &&& -r <= dv <= r
                &&& du != 0 || dv != 0
                &&& i % 64 == k
                &&& #[trigger] src[(v + dv) * w + (u + du)] < src[v * w + u]
            };
        law_window_pixel_is_a_neighbour(r, du, dv);
        let j = (dv + r) * (2 * r + 1) + (du + r);
        let i = if j < r * (2 * r + 1) + r {
            j
        } else {
            j - 1
        };
        assert(darker(src, w, r, u, v, i));
    }
}

/// Up to a radius of 3 every pixel of the window but the centre has a bit of its
/// own, which is set exactly if the pixel is darker than the centre.
pub proof fn law_census_compares_every_pixel(
    src: Seq<u8>,
    w: int,
    h: int,
    r: int,
    u: int,
    v: int,
    du: int,
    dv: int,
)
    requires
        r <= 3,
        r <= u < w - r,
        r <= v < h - r,
        -r <= du <= r,
        -r <= dv <= r,
        du != 0 || dv != 0,
    ensures
        ({
            let j = (dv + r) * (2 * r + 1) + (du + r);
            let i = if j < r * (2 * r + 1) + r {
                j
            } else {
                j - 1
            };
            &&& 0 <= i < 48
            &&& (census_map(src, w, h, r)[v * w + u] >> (i as u64)) & 1 == 1 <==> src[(v + dv) * w
                + (u + du)] < src[v * w + u]
        }),
{
    lemma_in_range(v, u, h, w);
    lemma_split(v, u, w);
    assert(h * w == w * h) by (nonlinear_arith);
    law_window_pixel_is_a_neighbour(r, du, dv);
    assert((2 * r + 1) * (2 * r + 1) - 1 <= 48) by (nonlinear_arith)
        requires
            0 <= r <= 3,
    ;
    let j = (dv + r) * (2 * r + 1) + (du + r);
    let i = if j < r * (2 * r + 1) + r {
        j
    } else {
        j - 1
    };
    law_census_own_bit(src, w, h, r, u, v, i);
}

/// Up to a radius of 3 a description has as many set bits as its window has
/// pixels that are darker than the centre.
pub proof fn law_census_counts_darker_pixels(
    src: Seq<u8>,
    w: int,
    h: int,
    r: int,
    u: int,
    v: int,
)
    requires
        0 <= r <= 3,
        r <= u < w - r,
        r <= v < h - r,
    ensures
        Set::new(
            |k: int| 0 <= k < 64 && (census_map(src, w, h, r)[v * w + u] >> (k as u64)) & 1 == 1,
        ).len() == Set::new(
            |p: (int, int)|
                u - r <= p.0 <= u + r && v - r <= p.1 <= v + r && src[p.1 * w + p.0] < src[v * w
                    + u],
        ).len(),
{
    lemma_in_range(v, u, h, w);
    lemma_split(v, u, w);
    assert(h * w == w * h) by (nonlinear_arith);
    let word = census_map(src, w, h, r)[v * w + u];
    let bits = Set::new(
        |k: int| 0 <= k < 64 && (census_map(src, w, h, r)[v * w + u] >> (k as u64)) & 1 == 1,
    );
    let dark = Set::new(
        |p: (int, int)|
            u - r <= p.0 <= u + r && v - r <= p.1 <= v + r && src[p.1 * w + p.0] < src[v * w + u],
    );
    let f = |k: int| (u + neighbour_offset(r, k).0, v + neighbour_offset(r, k).1);
    let n = (2 * r + 1) * (2 * r + 1) - 1;
    assert(0 <= n <= 48) by (nonlinear_arith)
        requires
            n == (2 * r + 1) * (2 * r + 1) - 1,
            0 <= r <= 3,
    ;
    law_ones_count_positions(word);
    assert forall|k: int| #[trigger] bits.contains(k) implies k < n && dark.contains(f(k)) by {
        law_census_own_bit(src, w, h, r, u, v, k);
        law_neighbour_is_in_the_window(r, k);
    }
    assert forall|p: (int, int)| #[trigger] dark.contains(p) implies exists|k: int|
        #[trigger] bits.contains(k) && f(k) == p by {
        let du = p.0 - u;
        let dv = p.1 - v;
        law_window_pixel_is_a_neighbour(r, du, dv);
        law_census_compares_every_pixel(src, w, h, r, u, v, du, dv);
        let j = (dv + r) * (2 * r + 1) + (du + r);
        let i = if j < r * (2 * r + 1) + r {
            j
        } else {
            j - 1
        };
        assert(bits.contains(i) && f(i) == p);
    }
    assert forall|a: int, b: int|
        bits.contains(a) && bits.contains(b) && #[trigger] f(a) == #[trigger] f(b) implies a
        == b by {
        law_neighbour_is_in_the_window(r, a);
        let (du, dv) = neighbour_offset(r, a);
        law_window_pixel_is_a_neighbour(r, du, dv);
        assert(neighbour_offset(r, b) == (du, dv));
    }
    assert(bits.map(f) =~= dark);
    lemma_map_size(bits, dark, f);
}

/// The transform describes every pixel, and is defined on every image that has
/// its pixels.
pub proof fn law_census_defined(src: Seq<u8>, w: int, h: int, r: int)
    requires
        0 <= w * h <= usize::MAX,
        w * h <= src.len(),
    ensures
        census_defined(src.len(), w, h, r),
        census_map(src, w, h, r).len() == w * h,
{
}

} // verus!
