//! Cost aggregation along scan paths.
//!
//! For every direction `r` the image is walked along straight paths. On a path
//! the costs follow the SGM recurrence
//!
//! ```text
//! L(p, d) = C(p, d)
//!         + min(L(p-r, d),
//!               L(p-r, d+-1) + P1,
//!               min_k L(p-r, k) + P2)
//!         - min_k L(p-r, k)
//! ```
//!
//! where a path cost that exceeds 16 bits is capped, and the aggregated cost of an
//! entry is the sum of its path costs.

use vstd::prelude::*;
use crate::cost::{entry_column, entry_row, lemma_entry, lemma_entry_parts};
use crate::index::{lemma_in_range, lemma_parts, lemma_split};

verus! {

/// The eight cardinal and diagonal scan directions.
///
/// Each entry is `(du, dv)`, the step taken when scanning forward along the
/// path.
pub const DIRECTIONS: [(isize, isize); 8] = [
    (1, 0),
    (-1, 0),
    (0, 1),
    (0, -1),
    (1, 1),
    (-1, -1),
    (1, -1),
    (-1, 1),
];

// ---------------------------------------------------------------------------
// The recurrence
// ---------------------------------------------------------------------------

/// The smaller of two integers.
pub open spec fn min2(a: int, b: int) -> int {
    if a <= b {
        a
    } else {
        b
    }
}

/// A cost capped at the largest 16-bit value.
pub open spec fn capped(x: int) -> int {
    min2(x, u16::MAX as int)
}

/// Smallest cost of a row; the largest 16-bit value if the row is empty.
pub open spec fn row_min(row: Seq<u16>) -> int
    decreases row.len(),
{
    if row.len() == 0 {
        u16::MAX as int
    } else {
        min2(row_min(row.drop_last()), row.last() as int)
    }
}

/// Cheapest way to reach disparity `d` from the previous pixel of a path: stay,
/// come from a neighbouring disparity for P1, or jump from the cheapest one for
/// P2.
pub open spec fn best_transition(prev: Seq<u16>, d: int, p1: int, p2: int) -> int {
    let stay = prev[d] as int;
    let from_below = if d > 0 {
        prev[d - 1] + p1
    } else {
        stay
    };
    let from_above = if d + 1 < prev.len() {
        prev[d + 1] + p1
    } else {
        stay
    };
    let jump = row_min(prev) + p2;
    min2(min2(stay, min2(from_below, from_above)), jump)
}

/// Path cost of disparity `d` at a pixel with matching cost `c`, whose
/// predecessor on the path has the path costs `prev`: the matching cost plus
/// the cheapest transition minus the smallest previous cost, capped at the
/// largest 16-bit value.
pub open spec fn step_cost(c: int, prev: Seq<u16>, d: int, p1: int, p2: int) -> u16 {
    capped(c + best_transition(prev, d, p1, p2) - row_min(prev)) as u16
}

/// Path costs of all disparities at a pixel with the matching costs `c`.
pub open spec fn step_row(c: Seq<u16>, prev: Seq<u16>, p1: int, p2: int) -> Seq<u16> {
    Seq::new(c.len(), |d: int| step_cost(c[d] as int, prev, d, p1, p2))
}

/// Costs of pixel `(u, v)` in a volume.
pub open spec fn pixel_row<T>(volume: Seq<T>, w: int, max_d: int, u: int, v: int) -> Seq<T> {
    volume.subrange((v * w + u) * max_d, (v * w + u) * max_d + max_d)
}

// ---------------------------------------------------------------------------
// The paths
// ---------------------------------------------------------------------------

/// The end of an axis of length `len` that a step leaves behind.
pub open spec fn entry_end(len: int, step: int) -> int {
    if step > 0 {
        0
    } else {
        len - 1
    }
}

/// The start pixels of direction `(du, dv)`: the border that the direction
/// leaves behind.
///
/// A direction along an axis leaves one edge behind, listed column by column. A
/// diagonal direction leaves two: the whole column comes first, the rest of the
/// row follows. Without a step every pixel is a start, and an image without
/// pixels has none.
pub open spec fn entry_list(w: int, h: int, du: int, dv: int) -> Seq<(usize, usize)> {
    let column = Seq::new(h as nat, |j: int| (entry_end(w, du) as usize, j as usize));
    if w <= 0 || h <= 0 {
        seq![]
    } else if du == 0 && dv == 0 {
        Seq::new((w * h) as nat, |i: int| ((i / h) as usize, (i % h) as usize))
    } else if du == 0 {
        Seq::new(w as nat, |j: int| (j as usize, entry_end(h, dv) as usize))
    } else if dv == 0 {
        column
    } else {
        column + Seq::new(
            (w - 1) as nat,
            |j: int|
                (
                    (if du > 0 {
                        j + 1
                    } else {
                        j
                    }) as usize,
                    entry_end(h, dv) as usize,
                ),
        )
    }
}

/// A scan of a cost volume: the layout of the volume, the penalties and the
/// step of the direction.
pub struct Scan {
    pub w: int,
    pub h: int,
    pub max_d: int,
    pub p1: int,
    pub p2: int,
    pub du: int,
    pub dv: int,
}

/// The scan that machine values describe.
pub open spec fn scan_of(
    w: usize,
    h: usize,
    max_d: usize,
    p1: u16,
    p2: u16,
    du: isize,
    dv: isize,
) -> Scan {
    Scan {
        w: w as int,
        h: h as int,
        max_d: max_d as int,
        p1: p1 as int,
        p2: p2 as int,
        du: du as int,
        dv: dv as int,
    }
}

impl Scan {
    /// The same scan in the `k`-th of the eight directions.
    pub open spec fn towards(self, k: int) -> Scan {
        Scan { du: DIRECTIONS[k].0 as int, dv: DIRECTIONS[k].1 as int, ..self }
    }

    /// Number of entries of the volume.
    pub open spec fn volume(self) -> int {
        self.h * self.w * self.max_d
    }

    /// Whether `(u, v)` is a pixel of the image.
    pub open spec fn inside(self, u: int, v: int) -> bool {
        0 <= u < self.w && 0 <= v < self.h
    }

    /// Whether the step is one of the eight directions.
    pub open spec fn is_direction(self) -> bool {
        &&& -1 <= self.du <= 1
        &&& -1 <= self.dv <= 1
        &&& self.du != 0 || self.dv != 0
    }

    /// Whether `(u, v)` is a pixel from which a path starts: the step before it
    /// lies outside the image.
    pub open spec fn is_entry(self, u: int, v: int) -> bool {
        self.inside(u, v) && !self.inside(u - self.du, v - self.dv)
    }

    /// Steps from column `u` back to the border that the direction leaves
    /// behind.
    pub open spec fn column_steps(self, u: int) -> int {
        if self.du > 0 {
            u
        } else {
            self.w - 1 - u
        }
    }

    /// Steps from row `v` back to the border that the direction leaves behind.
    pub open spec fn row_steps(self, v: int) -> int {
        if self.dv > 0 {
            v
        } else {
            self.h - 1 - v
        }
    }

    /// Number of steps that a path needs from the border it starts at to
    /// `(u, v)`: the distance to the nearer of the borders that the direction
    /// leaves behind.
    pub open spec fn steps_to(self, u: int, v: int) -> int {
        if self.du == 0 {
            self.row_steps(v)
        } else if self.dv == 0 {
            self.column_steps(u)
        } else {
            min2(self.column_steps(u), self.row_steps(v))
        }
    }

    /// Where the path through `(u, v)` starts.
    pub open spec fn start_of(self, u: int, v: int) -> (int, int) {
        let k = self.steps_to(u, v);
        (u - k * self.du, v - k * self.dv)
    }

    /// Whether a path runs through `(u, v)`.
    pub open spec fn reached(self, u: int, v: int) -> bool {
        let (u0, v0) = self.start_of(u, v);
        self.is_entry(u0, v0) && 0 <= self.steps_to(u, v)
    }

    /// Path costs of all disparities at pixel `(u, v)`: the matching costs where
    /// the path starts, one step of the recurrence elsewhere.
    pub open spec fn path_costs(self, cost: Seq<u16>, u: int, v: int) -> Seq<u16>
        decreases
                if self.du == 0 {
                    self.row_steps(v)
                } else {
                    self.column_steps(u)
                },
    {
        let c = pixel_row(cost, self.w, self.max_d, u, v);
        if self.is_direction() && self.inside(u, v) && self.inside(u - self.du, v - self.dv) {
            step_row(c, self.path_costs(cost, u - self.du, v - self.dv), self.p1, self.p2)
        } else {
            c
        }
    }

    /// What the direction contributes to the cost of disparity `d` at `(u, v)`:
    /// the path cost.
    pub open spec fn contribution(self, cost: Seq<u16>, u: int, v: int, d: int) -> int {
        self.path_costs(cost, u, v)[d] as int
    }

    /// What the direction contributes to entry `i` of the volume.
    pub open spec fn entry_contribution(self, cost: Seq<u16>, i: int) -> int {
        self.contribution(
            cost,
            entry_column(i, self.w, self.max_d),
            entry_row(i, self.w, self.max_d),
            i % self.max_d,
        )
    }

    /// Where the path through the pixel of entry `i` starts.
    pub open spec fn entry_start(self, i: int) -> (int, int) {
        self.start_of(entry_column(i, self.w, self.max_d), entry_row(i, self.w, self.max_d))
    }

    /// The aggregated volume `agg` after the direction has been added: every
    /// entry of the volume grows by its path cost.
    pub open spec fn added(self, cost: Seq<u16>, agg: Seq<u32>) -> Seq<u32> {
        Seq::new(
            agg.len(),
            |i: int|
                if i < self.volume() {
                    capped_sum(agg[i], self.entry_contribution(cost, i))
                } else {
                    agg[i]
                },
        )
    }

    /// Sum of what the first `n` of the eight directions contribute to the cost
    /// of disparity `d` at `(u, v)`.
    pub open spec fn path_sum(self, cost: Seq<u16>, u: int, v: int, d: int, n: nat) -> int
        decreases n,
    {
        if n == 0 {
            0
        } else {
            self.path_sum(cost, u, v, d, (n - 1) as nat) + self.towards(n - 1).contribution(
                cost,
                u,
                v,
                d,
            )
        }
    }

    /// The aggregated volume.
    pub open spec fn aggregated(self, cost: Seq<u16>) -> Seq<u32> {
        Seq::new(
            self.volume() as nat,
            |i: int|
                self.path_sum(
                    cost,
                    entry_column(i, self.w, self.max_d),
                    entry_row(i, self.w, self.max_d),
                    i % self.max_d,
                    8,
                ) as u32,
        )
    }

    /// The sizes on which the volume can be walked: it can be indexed, it is
    /// there, and a step beyond the border can be counted.
    pub open spec fn defined(self, cost_len: nat) -> bool {
        &&& self.w <= isize::MAX
        &&& self.h <= isize::MAX
        &&& self.w - 1 + self.du <= isize::MAX
        &&& self.h - 1 + self.dv <= isize::MAX
        &&& self.h * self.w <= usize::MAX
        &&& self.volume() <= usize::MAX
        &&& self.volume() <= cost_len
    }

    /// A pixel that a path reaches after `k` steps knows these steps and the
    /// start.
    proof fn lemma_steps(self, u0: int, v0: int, k: int)
        requires
            self.is_direction(),
            self.is_entry(u0, v0),
        ensures
            self.steps_to(u0 + k * self.du, v0 + k * self.dv) == k,
            self.start_of(u0 + k * self.du, v0 + k * self.dv) == (u0, v0),
    {
        self.lemma_unit_steps(k);
    }

    /// Unit steps add up.
    proof fn lemma_unit_steps(self, k: int)
        requires
            self.is_direction(),
        ensures
            self.du == 0 ==> k * self.du == 0,
            self.du == 1 ==> k * self.du == k,
            self.du == -1 ==> k * self.du == -k,
            self.dv == 0 ==> k * self.dv == 0,
            self.dv == 1 ==> k * self.dv == k,
            self.dv == -1 ==> k * self.dv == -k,
    {
        let du = self.du;
        let dv = self.dv;
        assert(du == 0 ==> k * du == 0) by (nonlinear_arith);
        assert(du == 1 ==> k * du == k) by (nonlinear_arith);
        assert(du == -1 ==> k * du == -k) by (nonlinear_arith);
        assert(dv == 0 ==> k * dv == 0) by (nonlinear_arith);
        assert(dv == 1 ==> k * dv == k) by (nonlinear_arith);
        assert(dv == -1 ==> k * dv == -k) by (nonlinear_arith);
    }

    /// Every pixel is on a path: in each of the eight directions the path
    /// through it starts at a start pixel.
    pub proof fn law_reached(self, u: int, v: int)
        requires
            self.is_direction(),
            self.inside(u, v),
        ensures
            self.reached(u, v),
    {
        self.lemma_unit_steps(self.steps_to(u, v));
    }

    /// The entries of a pixel lie in the volume.
    proof fn lemma_row_range(self, u: int, v: int)
        requires
            self.inside(u, v),
            0 <= self.max_d,
        ensures
            0 <= v * self.w,
            v * self.w + u < self.h * self.w,
            0 <= (v * self.w + u) * self.max_d,
            (v * self.w + u) * self.max_d + self.max_d <= self.volume(),
    {
        lemma_in_range(v, u, self.h, self.w);
        if self.max_d > 0 {
            lemma_entry(self.w, self.h, self.max_d, u, v, 0);
        } else {
            assert((v * self.w + u) * self.max_d == 0 && self.volume() == 0) by (nonlinear_arith)
                requires
                    self.max_d == 0,
                    self.volume() == self.h * self.w * self.max_d,
            ;
        }
    }

    /// What the first `k` steps of the path from `(u0, v0)` have made of entry
    /// `i`, which was `before`.
    spec fn after_steps(
        self,
        cost: Seq<u16>,
        u0: int,
        v0: int,
        k: int,
        i: int,
        before: u32,
    ) -> u32 {
        if i < self.volume() && self.entry_start(i) == (u0, v0) && self.steps_to(
            entry_column(i, self.w, self.max_d),
            entry_row(i, self.w, self.max_d),
        ) < k {
            capped_sum(before, self.entry_contribution(cost, i))
        } else {
            before
        }
    }

    /// Position of a pixel in the list of start pixels.
    spec fn entry_index(self, u0: int, v0: int) -> int {
        if self.du == 0 && self.dv == 0 {
            u0 * self.h + v0
        } else if self.du == 0 {
            u0
        } else if u0 == entry_end(self.w, self.du) {
            v0
        } else if self.du > 0 {
            self.h + u0 - 1
        } else {
            self.h + u0
        }
    }

    /// Every start pixel has its position in the list of start pixels.
    proof fn lemma_entry_index(self, u0: int, v0: int)
        requires
            self.is_direction(),
            self.is_entry(u0, v0),
            self.w <= usize::MAX,
            self.h <= usize::MAX,
        ensures
            ({
                let list = entry_list(self.w, self.h, self.du, self.dv);
                let i = self.entry_index(u0, v0);
                0 <= i < list.len() && list[i] == (u0 as usize, v0 as usize)
            }),
    {
    }

    /// The list of start pixels holds pixels, each at its own position; in the
    /// eight directions they are the pixels from which a path starts.
    proof fn lemma_entry_at(self, i: int)
        requires
            self.w <= usize::MAX,
            self.h <= usize::MAX,
            0 <= i < entry_list(self.w, self.h, self.du, self.dv).len(),
        ensures
            ({
                let e = entry_list(self.w, self.h, self.du, self.dv)[i];
                &&& self.inside(e.0 as int, e.1 as int)
                &&& self.entry_index(e.0 as int, e.1 as int) == i
                &&& self.is_direction() ==> self.is_entry(e.0 as int, e.1 as int)
            }),
    {
        if self.du == 0 && self.dv == 0 {
            lemma_parts(i, self.w, self.h);
        }
    }

    /// The path through the pixel of an entry starts at a listed pixel.
    proof fn lemma_entry_start(self, i: int)
        requires
            self.is_direction(),
            0 <= self.max_d,
            0 <= self.w <= usize::MAX,
            self.h <= usize::MAX,
            0 <= i < self.volume(),
        ensures
            ({
                let (u0, v0) = self.entry_start(i);
                let list = entry_list(self.w, self.h, self.du, self.dv);
                let j = self.entry_index(u0, v0);
                self.inside(u0, v0) && 0 <= j < list.len() && list[j] == (u0 as usize, v0 as usize)
            }),
    {
        lemma_entry_parts(i, self.w, self.h, self.max_d);
        let u = entry_column(i, self.w, self.max_d);
        let v = entry_row(i, self.w, self.max_d);
        self.law_reached(u, v);
        let (u0, v0) = self.start_of(u, v);
        self.lemma_entry_index(u0, v0);
    }

    /// What the paths from the first `s` start pixels have made of entry `i`,
    /// which was `before`.
    spec fn after_starts(self, cost: Seq<u16>, s: int, i: int, before: u32) -> u32 {
        let (u0, v0) = self.entry_start(i);
        if i < self.volume() && self.entry_index(u0, v0) < s {
            capped_sum(before, self.entry_contribution(cost, i))
        } else {
            before
        }
    }
}

/// Between two positions of an axis there is nothing but the axis.
proof fn lemma_between(len: int, x0: int, step: int, k: int, t: int)
    requires
        0 <= x0 < len,
        0 <= x0 + t * step < len,
        0 <= k <= t,
    ensures
        0 <= x0 + k * step < len,
{
    if step >= 0 {
        assert(0 <= k * step <= t * step) by (nonlinear_arith)
            requires
                0 <= k <= t,
                step >= 0,
        ;
    } else {
        assert(t * step <= k * step <= 0) by (nonlinear_arith)
            requires
                0 <= k <= t,
                step < 0,
        ;
    }
}

/// Returns the pixels from which paths in direction `(du, dv)` start.
///
/// These are the pixels of the border that the direction leaves behind: the left
/// border if moving right, the right border if moving left, the top border if
/// moving down and the bottom border if moving up. A diagonal direction starts
/// from both of its borders, so that its paths run through every pixel.
pub fn entry_pixels(w: usize, h: usize, du: isize, dv: isize) -> (starts: Vec<(usize, usize)>)
    requires
        du < 0 ==> w > 0,
        dv < 0 ==> h > 0,
    ensures
        starts@ == entry_list(w as int, h as int, du as int, dv as int),
        starts@.no_duplicates(),
        -1 <= du <= 1 && -1 <= dv <= 1 && (du != 0 || dv != 0) ==> forall|u: usize, v: usize|
            #[trigger] starts@.contains((u, v)) <==> scan_of(w, h, 0, 0, 0, du, dv).is_entry(
                u as int,
                v as int,
            ),
{
    proof {
        scan_of(w, h, 0, 0, 0, du, dv).law_entries();
    }
    let ghost list = entry_list(w as int, h as int, du as int, dv as int);
    let mut starts: Vec<(usize, usize)> = Vec::new();
    if w == 0 || h == 0 {
        assert(starts@ =~= list);
        return starts;
    }
    if du == 0 && dv == 0 {
        let mut u: usize = 0;
        assert(0 * h == 0) by (nonlinear_arith);
        while u < w
            invariant
                h > 0,
                u <= w,
                starts@.len() == u * h,
                forall|k: int|
                    0 <= k < starts@.len() ==> #[trigger] starts@[k] == (
                        (k / (h as int)) as usize,
                        (k % (h as int)) as usize,
                    ),
            decreases w - u,
        {
            let mut v: usize = 0;
            while v < h
                invariant
                    u < w,
                    v <= h,
                    starts@.len() == u * h + v,
                    forall|k: int|
                        0 <= k < starts@.len() ==> #[trigger] starts@[k] == (
                            (k / (h as int)) as usize,
                            (k % (h as int)) as usize,
                        ),
                decreases h - v,
            {
                proof {
                    lemma_split(u as int, v as int, h as int);
                }
                starts.push((u, v));
                v = v + 1;
            }
            proof {
                assert((u + 1) * h == u * h + h) by (nonlinear_arith);
            }
            u = u + 1;
        }
        assert(starts@ =~= list);
        return starts;
    }
    let u_end: usize = if du > 0 {
        0
    } else {
        w - 1
    };
    let v_end: usize = if dv > 0 {
        0
    } else {
        h - 1
    };
    if du != 0 {
        let mut v: usize = 0;
        while v < h
            invariant
                v <= h,
                starts@.len() == v,
                forall|k: int| 0 <= k < v ==> #[trigger] starts@[k] == (u_end, k as usize),
            decreases h - v,
        {
            starts.push((u_end, v));
            v = v + 1;
        }
    }
    if dv != 0 {
        let ghost column = starts@;
        let first: usize = if du > 0 {
            1
        } else {
            0
        };
        let end: usize = if du < 0 {
            w - 1
        } else {
            w
        };
        let mut u: usize = first;
        while u < end
            invariant
                first <= u <= end,
                starts@.len() == column.len() + u - first,
                forall|k: int| 0 <= k < column.len() ==> #[trigger] starts@[k] == column[k],
                forall|k: int|
                    column.len() <= k < starts@.len() ==> #[trigger] starts@[k] == (
                        (k - column.len() + first) as usize,
                        v_end,
                    ),
            decreases end - u,
        {
            starts.push((u, v_end));
            u = u + 1;
        }
    }
    assert(starts@ =~= list);
    starts
}

// ---------------------------------------------------------------------------
// Rows
// ---------------------------------------------------------------------------

/// The smaller of two costs.
fn smaller(a: u16, b: u16) -> (c: u16)
    ensures
        c == min2(a as int, b as int),
{
    if a <= b {
        a
    } else {
        b
    }
}

/// Smallest cost of a row.
fn minimum(row: &Vec<u16>) -> (m: u16)
    ensures
        m == row_min(row@),
{
    let mut m: u16 = u16::MAX;
    let mut i: usize = 0;
    while i < row.len()
        invariant
            i <= row@.len(),
            m == row_min(row@.take(i as int)),
        decreases row@.len() - i,
    {
        proof {
            assert(row@.take(i + 1).drop_last() =~= row@.take(i as int));
        }
        m = smaller(m, row[i]);
        i = i + 1;
    }
    proof {
        assert(row@.take(row@.len() as int) =~= row@);
    }
    m
}

/// Copies the matching costs of the first pixel of a path.
fn start_row(cost: &[u16], base: usize, max_d: usize, cur_row: &mut Vec<u16>)
    requires
        base + max_d <= cost@.len(),
        base + max_d <= usize::MAX,
        old(cur_row)@.len() == max_d,
    ensures
        final(cur_row)@ == cost@.subrange(base as int, base + max_d),
{
    let mut d: usize = 0;
    while d < max_d
        invariant
            base + max_d <= cost@.len(),
            base + max_d <= usize::MAX,
            d <= max_d,
            cur_row@.len() == max_d,
            forall|j: int| 0 <= j < d ==> #[trigger] cur_row@[j] == cost@[base + j],
        decreases max_d - d,
    {
        cur_row[d] = cost[base + d];
        d = d + 1;
    }
    proof {
        assert(cur_row@ =~= cost@.subrange(base as int, base + max_d));
    }
}

/// Applies the recurrence to one pixel.
fn advance_row(
    cost: &[u16],
    base: usize,
    max_d: usize,
    prev_row: &Vec<u16>,
    cur_row: &mut Vec<u16>,
    p1: u16,
    p2: u16,
)
    requires
        base + max_d <= cost@.len(),
        base + max_d <= usize::MAX,
        prev_row@.len() == max_d,
        old(cur_row)@.len() == max_d,
    ensures
        final(cur_row)@ == step_row(
            cost@.subrange(base as int, base + max_d),
            prev_row@,
            p1 as int,
            p2 as int,
        ),
{
    let min_prev: u16 = minimum(prev_row);
    let mut d: usize = 0;
    while d < max_d
        invariant
            base + max_d <= cost@.len(),
            base + max_d <= usize::MAX,
            prev_row@.len() == max_d,
            cur_row@.len() == max_d,
            min_prev == row_min(prev_row@),
            d <= max_d,
            forall|j: int|
                0 <= j < d ==> #[trigger] cur_row@[j] == step_cost(
                    cost@[base + j] as int,
                    prev_row@,
                    j,
                    p1 as int,
                    p2 as int,
                ),
        decreases max_d - d,
    {
        let c: u16 = cost[base + d];
        let l0: u16 = prev_row[d];
        let l1: u16 = if d > 0 {
            prev_row[d - 1].saturating_add(p1)
        } else {
            u16::MAX
        };
        let l2: u16 = if d + 1 < max_d {
            prev_row[d + 1].saturating_add(p1)
        } else {
            u16::MAX
        };
        let l3: u16 = min_prev.saturating_add(p2);
        let best: u16 = smaller(smaller(smaller(l0, l1), l2), l3);
        proof {
            law_row_min(prev_row@);
        }
        cur_row[d] = c.saturating_add(best - min_prev);
        d = d + 1;
    }
    proof {
        assert(cur_row@ =~= step_row(
            cost@.subrange(base as int, base + max_d),
            prev_row@,
            p1 as int,
            p2 as int,
        ));
    }
}

/// The sum of an aggregated cost and a path cost, capped at the largest 32-bit
/// value.
pub open spec fn capped_sum(a: u32, x: int) -> u32 {
    (if a + x > u32::MAX {
        u32::MAX as int
    } else {
        a + x
    }) as u32
}

/// Adds the path costs of one pixel to its aggregated costs.
fn accumulate_row(agg: &mut [u32], base: usize, max_d: usize, row: &Vec<u16>)
    requires
        base + max_d <= old(agg)@.len(),
        base + max_d <= usize::MAX,
        row@.len() == max_d,
    ensures
        final(agg)@.len() == old(agg)@.len(),
        forall|i: int|
            0 <= i < old(agg)@.len() ==> #[trigger] final(agg)@[i] == if base <= i < base + max_d {
                capped_sum(old(agg)@[i], row@[i - base] as int)
            } else {
                old(agg)@[i]
            },
{
    let mut d: usize = 0;
    while d < max_d
        invariant
            base + max_d <= old(agg)@.len(),
            base + max_d <= usize::MAX,
            row@.len() == max_d,
            d <= max_d,
            agg@.len() == old(agg)@.len(),
            forall|i: int|
                0 <= i < agg@.len() ==> #[trigger] agg@[i] == if base <= i < base + d {
                    capped_sum(old(agg)@[i], row@[i - base] as int)
                } else {
                    old(agg)@[i]
                },
        decreases max_d - d,
    {
        let sum: u32 = agg[base + d].saturating_add(row[d] as u32);
        agg[base + d] = sum;
        d = d + 1;
    }
}

// ---------------------------------------------------------------------------
// Walking
// ---------------------------------------------------------------------------

/// Walks the path that starts at `(u0, v0)` and adds its costs to `agg`.
///
/// `prev_row` and `cur_row` are scratch buffers of length `max_d`.
fn aggregate_path(
    cost: &[u16],
    agg: &mut [u32],
    prev_row: &mut Vec<u16>,
    cur_row: &mut Vec<u16>,
    w: usize,
    h: usize,
    max_d: usize,
    u0: usize,
    v0: usize,
    du: isize,
    dv: isize,
    p1: u16,
    p2: u16,
)
    requires
        scan_of(w, h, max_d, p1, p2, du, dv).defined(cost@.len()),
        scan_of(w, h, max_d, p1, p2, du, dv).is_direction(),
        scan_of(w, h, max_d, p1, p2, du, dv).is_entry(u0 as int, v0 as int),
        h * w * max_d <= old(agg)@.len(),
        old(prev_row)@.len() == max_d,
        old(cur_row)@.len() == max_d,
    ensures
        final(prev_row)@.len() == max_d,
        final(cur_row)@.len() == max_d,
        final(agg)@.len() == old(agg)@.len(),
        forall|i: int|
            0 <= i < old(agg)@.len() ==> #[trigger] final(agg)@[i] == ({
                let scan = scan_of(w, h, max_d, p1, p2, du, dv);
                if i < scan.volume() && scan.entry_start(i) == (u0 as int, v0 as int) {
                    capped_sum(old(agg)@[i], scan.entry_contribution(cost@, i))
                } else {
                    old(agg)@[i]
                }
            }),
{
    let ghost scan = scan_of(w, h, max_d, p1, p2, du, dv);
    let mut u: isize = u0 as isize;
    let mut v: isize = v0 as isize;
    let mut is_first: bool = true;
    let ghost mut k: nat = 0;
    proof {
        assert(0 * du == 0 && 0 * dv == 0) by (nonlinear_arith);
        assert forall|i: int| 0 <= i < agg@.len() implies #[trigger] agg@[i] == scan.after_steps(
            cost@,
            u0 as int,
            v0 as int,
            0,
            i,
            old(agg)@[i],
        ) by {
            if i < scan.volume() {
                lemma_entry_parts(i, scan.w, scan.h, scan.max_d);
                scan.law_reached(
                    entry_column(i, scan.w, scan.max_d),
                    entry_row(i, scan.w, scan.max_d),
                );
            }
        }
    }
    while u >= 0 && v >= 0 && (u as usize) < w && (v as usize) < h
        invariant
            scan == scan_of(w, h, max_d, p1, p2, du, dv),
            scan.defined(cost@.len()),
            scan.is_direction(),
            scan.is_entry(u0 as int, v0 as int),
            scan.volume() <= old(agg)@.len(),
            prev_row@.len() == max_d,
            cur_row@.len() == max_d,
            u == u0 + k * du,
            v == v0 + k * dv,
            is_first == (k == 0),
            k > 0 ==> scan.inside(u - du, v - dv),
            k > 0 ==> prev_row@ == scan.path_costs(cost@, u - du, v - dv),
            agg@.len() == old(agg)@.len(),
            forall|i: int|
                0 <= i < agg@.len() ==> #[trigger] agg@[i] == scan.after_steps(
                    cost@,
                    u0 as int,
                    v0 as int,
                    k as int,
                    i,
                    old(agg)@[i],
                ),
        decreases
            if u < 0 || v < 0 || u >= w || v >= h {
                0
            } else if du > 0 {
                w - u
            } else if du < 0 {
                u + 1
            } else if dv > 0 {
                h - v
            } else {
                v + 1
            },
    {
        let uu: usize = u as usize;
        let vv: usize = v as usize;
        proof {
            scan.lemma_row_range(u as int, v as int);
            scan.lemma_steps(u0 as int, v0 as int, k as int);
        }
        let base: usize = (vv * w + uu) * max_d;
        if is_first {
            start_row(cost, base, max_d, cur_row);
            is_first = false;
        } else {
            advance_row(cost, base, max_d, prev_row, cur_row, p1, p2);
        }
        assert(cur_row@ == scan.path_costs(cost@, u as int, v as int));
        let ghost before = agg@;
        accumulate_row(agg, base, max_d, cur_row);
        std::mem::swap(prev_row, cur_row);
        proof {
            assert forall|i: int| 0 <= i < agg@.len() implies #[trigger] agg@[i]
                == scan.after_steps(
                cost@,
                u0 as int,
                v0 as int,
                k as int + 1,
                i,
                old(agg)@[i],
            ) by {
                assert(before[i] == scan.after_steps(
                    cost@,
                    u0 as int,
                    v0 as int,
                    k as int,
                    i,
                    old(agg)@[i],
                ));
                if base <= i < base + max_d {
                    lemma_entry(scan.w, scan.h, scan.max_d, u as int, v as int, i - base);
                } else if i < scan.volume() {
                    lemma_entry_parts(i, scan.w, scan.h, scan.max_d);
                    let x = entry_column(i, scan.w, scan.max_d);
                    let y = entry_row(i, scan.w, scan.max_d);
                    if scan.start_of(x, y) == (u0 as int, v0 as int) && scan.steps_to(x, y) == k {
                        assert(x == u && y == v);
                    }
                }
            }
            assert((k + 1) * du == k * du + du && (k + 1) * dv == k * dv + dv)
                by (nonlinear_arith);
            k = k + 1;
        }
        u = u + du;
        v = v + dv;
    }
    proof {
        assert forall|i: int| 0 <= i < agg@.len() implies #[trigger] agg@[i] == (if i
            < scan.volume() && scan.entry_start(i) == (u0 as int, v0 as int) {
            capped_sum(old(agg)@[i], scan.entry_contribution(cost@, i))
        } else {
            old(agg)@[i]
        }) by {
            if i < scan.volume() {
                lemma_entry_parts(i, scan.w, scan.h, scan.max_d);
                let x = entry_column(i, scan.w, scan.max_d);
                let y = entry_row(i, scan.w, scan.max_d);
                let t = scan.steps_to(x, y);
                if scan.start_of(x, y) == (u0 as int, v0 as int) && t >= k {
                    lemma_between(scan.w, u0 as int, scan.du, k as int, t);
                    lemma_between(scan.h, v0 as int, scan.dv, k as int, t);
                    assert(false);
                }
            }
        }
    }
}

/// Aggregates one direction into `agg`: every entry grows by its path cost in
/// the direction `(du, dv)`.
///
/// `prev_row` and `cur_row` are scratch buffers of length `max_d`, reused and
/// swapped from pixel to pixel. What they hold beforehand does not matter.
pub fn aggregate_direction(
    cost: &[u16],
    agg: &mut [u32],
    prev_row: &mut Vec<u16>,
    cur_row: &mut Vec<u16>,
    w: usize,
    h: usize,
    max_d: usize,
    du: isize,
    dv: isize,
    p1: u16,
    p2: u16,
)
    requires
        du < 0 ==> w > 0,
        dv < 0 ==> h > 0,
        scan_of(w, h, max_d, p1, p2, du, dv).defined(cost@.len()),
        scan_of(w, h, max_d, p1, p2, du, dv).is_direction(),
        h * w * max_d <= old(agg)@.len(),
        old(prev_row)@.len() == max_d,
        old(cur_row)@.len() == max_d,
    ensures
        final(prev_row)@.len() == max_d,
        final(cur_row)@.len() == max_d,
        final(agg)@ == scan_of(w, h, max_d, p1, p2, du, dv).added(cost@, old(agg)@),
{
    let ghost scan = scan_of(w, h, max_d, p1, p2, du, dv);
    let starts: Vec<(usize, usize)> = entry_pixels(w, h, du, dv);
    let mut s: usize = 0;
    proof {
        assert forall|i: int| 0 <= i < agg@.len() implies #[trigger] agg@[i] == scan.after_starts(
            cost@,
            0,
            i,
            old(agg)@[i],
        ) by {
            if i < scan.volume() {
                scan.lemma_entry_start(i);
            }
        }
    }
    while s < starts.len()
        invariant
            scan == scan_of(w, h, max_d, p1, p2, du, dv),
            scan.defined(cost@.len()),
            scan.is_direction(),
            scan.volume() <= old(agg)@.len(),
            prev_row@.len() == max_d,
            cur_row@.len() == max_d,
            starts@ == entry_list(scan.w, scan.h, scan.du, scan.dv),
            s <= starts@.len(),
            agg@.len() == old(agg)@.len(),
            forall|i: int|
                0 <= i < agg@.len() ==> #[trigger] agg@[i] == scan.after_starts(
                    cost@,
                    s as int,
                    i,
                    old(agg)@[i],
                ),
        decreases starts@.len() - s,
    {
        let (u0, v0) = starts[s];
        let ghost before = agg@;
        proof {
            scan.lemma_entry_at(s as int);
        }
        aggregate_path(cost, agg, prev_row, cur_row, w, h, max_d, u0, v0, du, dv, p1, p2);
        proof {
            assert forall|i: int| 0 <= i < agg@.len() implies #[trigger] agg@[i]
                == scan.after_starts(cost@, s as int + 1, i, old(agg)@[i]) by {
                assert(before[i] == scan.after_starts(cost@, s as int, i, old(agg)@[i]));
                if i < scan.volume() {
                    scan.lemma_entry_start(i);
                }
            }
        }
        s = s + 1;
    }
    proof {
        assert forall|i: int| 0 <= i < agg@.len() implies #[trigger] agg@[i] == scan.added(
            cost@,
            old(agg)@,
        )[i] by {
            if i < scan.volume() {
                scan.lemma_entry_start(i);
            }
        }
        assert(agg@ =~= scan.added(cost@, old(agg)@));
    }
}

/// Aggregates the cost volume along all eight directions using the SGM
/// recurrence.
///
/// The output has the layout of the input. An entry is the sum of its path
/// costs; as each of them is a 16-bit value, the sum never reaches the cap of
/// the accumulator.
pub fn sgm_aggregate(cost: &[u16], w: usize, h: usize, max_d: usize, p1: u16, p2: u16) -> (agg: Vec<
    u32,
>)
    requires
        w > 0,
        h > 0,
        scan_of(w, h, max_d, p1, p2, 0, 0).defined(cost@.len()),
    ensures
        agg@ == scan_of(w, h, max_d, p1, p2, 0, 0).aggregated(cost@),
{
    let ghost plain = scan_of(w, h, max_d, p1, p2, 0, 0);
    proof {
        plain.lemma_row_range(0, 0);
    }
    let n: usize = h * w * max_d;
    let mut agg: Vec<u32> = vec![0u32; n];
    let mut prev_row: Vec<u16> = vec![0u16; max_d];
    let mut cur_row: Vec<u16> = vec![0u16; max_d];
    let mut k: usize = 0;
    while k < 8
        invariant
            w > 0,
            h > 0,
            plain == scan_of(w, h, max_d, p1, p2, 0, 0),
            plain.defined(cost@.len()),
            k <= 8,
            prev_row@.len() == max_d,
            cur_row@.len() == max_d,
            agg@.len() == plain.volume(),
            forall|i: int|
                0 <= i < agg@.len() ==> 0 <= (#[trigger] agg@[i]) <= k * 0xffff && agg@[i]
                    == plain.path_sum(
                    cost@,
                    entry_column(i, plain.w, plain.max_d),
                    entry_row(i, plain.w, plain.max_d),
                    i % plain.max_d,
                    k as nat,
                ),
        decreases 8 - k,
    {
        let (du, dv): (isize, isize) = DIRECTIONS[k];
        let ghost scan = scan_of(w, h, max_d, p1, p2, du, dv);
        assert(scan.is_direction());
        assert(scan == plain.towards(k as int));
        aggregate_direction(
            cost,
            agg.as_mut_slice(),
            &mut prev_row,
            &mut cur_row,
            w,
            h,
            max_d,
            du,
            dv,
            p1,
            p2,
        );
        k = k + 1;
    }
    proof {
        assert(agg@ =~= plain.aggregated(cost@));
    }
    agg
}

// ---------------------------------------------------------------------------
// Laws
// ---------------------------------------------------------------------------

/// The smallest cost of a row bounds every cost of the row, and is one of them
/// if there is any.
pub proof fn law_row_min(row: Seq<u16>)
    ensures
        forall|j: int| 0 <= j < row.len() ==> row_min(row) <= #[trigger] row[j],
        row.len() > 0 ==> exists|j: int| 0 <= j < row.len() && row_min(row) == #[trigger] row[j],
        0 <= row_min(row) <= u16::MAX,
    decreases row.len(),
{
    if row.len() > 0 {
        let init = row.drop_last();
        law_row_min(init);
        assert forall|j: int| 0 <= j < row.len() implies row_min(row) <= #[trigger] row[j] by {
            if j < row.len() - 1 {
                assert(init[j] == row[j]);
            }
        }
        if row_min(init) <= row.last() && init.len() > 0 {
            let j = choose|j: int| 0 <= j < init.len() && row_min(init) == #[trigger] init[j];
            assert(row[j] == init[j]);
        } else {
            assert(row_min(row) == row[row.len() - 1]);
        }
    }
}

/// A transition costs at least as much as the cheapest previous disparity, and
/// at most the penalty P2 more.
pub proof fn law_transition_bounds(prev: Seq<u16>, d: int, p1: int, p2: int)
    requires
        0 <= d < prev.len(),
        0 <= p1,
        0 <= p2,
    ensures
        row_min(prev) <= best_transition(prev, d, p1, p2) <= row_min(prev) + p2,
{
    law_row_min(prev);
}

/// The cheapest transition to disparity `d` is no dearer than coming from any
/// disparity `k` of the row: staying is free, a neighbouring disparity costs P1,
/// any other P2.
pub proof fn law_transition_from_anywhere(prev: Seq<u16>, d: int, k: int, p1: int, p2: int)
    requires
        0 <= d < prev.len(),
        0 <= k < prev.len(),
        0 <= p1,
        0 <= p2,
    ensures
        best_transition(prev, d, p1, p2) <= prev[k] + if k == d {
            0
        } else if k == d + 1 || k == d - 1 {
            p1
        } else {
            p2
        },
        best_transition(prev, d, p1, p2) <= prev[k] + p2,
{
    law_row_min(prev);
}

/// The cheapest transition to disparity `d` comes from some disparity `k` of the
/// row, at the price of staying, of a neighbouring disparity, or of a jump.
pub proof fn law_transition_from_somewhere(prev: Seq<u16>, d: int, p1: int, p2: int) -> (k: int)
    requires
        0 <= d < prev.len(),
        0 <= p1,
        0 <= p2,
    ensures
        0 <= k < prev.len(),
        best_transition(prev, d, p1, p2) == prev[k] + if k == d {
            0
        } else if (k == d + 1 || k == d - 1) && p1 <= p2 {
            p1
        } else {
            p2
        },
{
    law_row_min(prev);
    let m = choose|j: int| 0 <= j < prev.len() && row_min(prev) == #[trigger] prev[j];
    let best = best_transition(prev, d, p1, p2);
    if best == prev[d] {
        d
    } else if best == row_min(prev) + p2 {
        m
    } else if d > 0 && best == prev[d - 1] + p1 {
        d - 1
    } else {
        d + 1
    }
}

/// One step costs no less than the matching cost and at most the penalty P2
/// more. It is the uncapped recurrence unless that exceeds 16 bits.
pub proof fn law_step_bounds(c: int, prev: Seq<u16>, d: int, p1: int, p2: int)
    requires
        0 <= c <= u16::MAX,
        0 <= d < prev.len(),
        0 <= p1,
        0 <= p2,
    ensures
        c <= step_cost(c, prev, d, p1, p2) <= c + p2,
        c + best_transition(prev, d, p1, p2) - row_min(prev) <= u16::MAX ==> step_cost(
            c,
            prev,
            d,
            p1,
            p2,
        ) == c + best_transition(prev, d, p1, p2) - row_min(prev),
{
    law_transition_bounds(prev, d, p1, p2);
}

impl Scan {
    /// No start pixel is listed twice, and in the eight directions the list
    /// holds every pixel from which a path starts and no other.
    pub proof fn law_entries(self)
        requires
            self.w <= usize::MAX,
            self.h <= usize::MAX,
        ensures
            entry_list(self.w, self.h, self.du, self.dv).no_duplicates(),
            self.is_direction() ==> forall|u: usize, v: usize|
                #[trigger] entry_list(self.w, self.h, self.du, self.dv).contains((u, v))
                    <==> self.is_entry(u as int, v as int),
    {
        let list = entry_list(self.w, self.h, self.du, self.dv);
        if self.is_direction() {
            assert forall|u: usize, v: usize| #[trigger]
                list.contains((u, v)) <==> self.is_entry(u as int, v as int) by {
                if list.contains((u, v)) {
                    let i = choose|i: int| 0 <= i < list.len() && list[i] == (u, v);
                    self.lemma_entry_at(i);
                }
                if self.is_entry(u as int, v as int) {
                    self.lemma_entry_index(u as int, v as int);
                    let i = self.entry_index(u as int, v as int);
                    assert(list[i] == (u, v));
                }
            }
        }
        assert forall|i: int, j: int|
            0 <= i < list.len() && 0 <= j < list.len() && i != j implies list[i] != list[j] by {
            self.lemma_entry_at(i);
            self.lemma_entry_at(j);
        }
    }

    /// A diagonal direction starts from both of its borders in full length.
    pub proof fn law_diagonal_starts_from_full_edges(self, u: int, v: int)
        requires
            self.is_direction(),
            self.du != 0,
            self.dv != 0,
            self.inside(u, v),
        ensures
            self.is_entry(u, v) <==> u == entry_end(self.w, self.du) || v == entry_end(
                self.h,
                self.dv,
            ),
    {
    }

    /// Path costs have one cost per disparity.
    pub proof fn lemma_path_costs_len(self, cost: Seq<u16>, u: int, v: int)
        requires
            0 <= self.max_d,
            self.inside(u, v),
            self.volume() <= cost.len(),
        ensures
            self.path_costs(cost, u, v).len() == self.max_d,
    {
        self.lemma_row_range(u, v);
    }

    /// The path costs of a direction: the matching cost where the path starts,
    /// one step of the recurrence from the pixel before elsewhere.
    pub proof fn law_path_costs(self, cost: Seq<u16>, u: int, v: int, d: int)
        requires
            self.is_direction(),
            self.inside(u, v),
            0 <= d < self.max_d,
            self.volume() <= cost.len(),
        ensures
            ({
                let c = cost[(v * self.w + u) * self.max_d + d];
                self.contribution(cost, u, v, d) == if self.is_entry(u, v) {
                    c as int
                } else {
                    step_cost(
                        c as int,
                        self.path_costs(cost, u - self.du, v - self.dv),
                        d,
                        self.p1,
                        self.p2,
                    ) as int
                }
            }),
    {
        self.lemma_row_range(u, v);
    }

    /// While matching cost and P2 leave room in 16 bits, nothing saturates: a
    /// path cost is the matching cost where the path starts, and elsewhere the
    /// matching cost plus the cheapest transition, minus the smallest path cost
    /// of the pixel before.
    pub proof fn law_plain_recurrence(self, cost: Seq<u16>, u: int, v: int, d: int)
        requires
            self.is_direction(),
            self.inside(u, v),
            0 <= d < self.max_d,
            0 <= self.p1,
            0 <= self.p2,
            self.volume() <= cost.len(),
            cost[(v * self.w + u) * self.max_d + d] + self.p2 <= u16::MAX,
        ensures
            ({
                let c = cost[(v * self.w + u) * self.max_d + d] as int;
                let prev = self.path_costs(cost, u - self.du, v - self.dv);
                self.contribution(cost, u, v, d) == if self.is_entry(u, v) {
                    c
                } else {
                    c + best_transition(prev, d, self.p1, self.p2) - row_min(prev)
                }
            }),
    {
        self.law_path_costs(cost, u, v, d);
        if !self.is_entry(u, v) {
            let prev = self.path_costs(cost, u - self.du, v - self.dv);
            self.lemma_path_costs_len(cost, u - self.du, v - self.dv);
            law_transition_bounds(prev, d, self.p1, self.p2);
        }
    }

    /// A path cost lies between the matching cost and the penalty P2 more.
    pub proof fn law_contribution_bound(self, cost: Seq<u16>, u: int, v: int, d: int)
        requires
            self.is_direction(),
            self.inside(u, v),
            0 <= d < self.max_d,
            0 <= self.p1,
            0 <= self.p2,
            self.volume() <= cost.len(),
        ensures
            cost[(v * self.w + u) * self.max_d + d] <= self.contribution(cost, u, v, d)
                <= cost[(v * self.w + u) * self.max_d + d] + self.p2,
            self.contribution(cost, u, v, d) <= u16::MAX,
    {
        self.law_path_costs(cost, u, v, d);
        if !self.is_entry(u, v) {
            self.lemma_path_costs_len(cost, u - self.du, v - self.dv);
            law_step_bounds(
                cost[(v * self.w + u) * self.max_d + d] as int,
                self.path_costs(cost, u - self.du, v - self.dv),
                d,
                self.p1,
                self.p2,
            );
        }
    }

    proof fn lemma_path_sum_bound(self, cost: Seq<u16>, u: int, v: int, d: int, n: nat)
        requires
            self.inside(u, v),
            0 <= d < self.max_d,
            0 <= self.p1,
            0 <= self.p2,
            self.volume() <= cost.len(),
            n <= 8,
        ensures
            n * cost[(v * self.w + u) * self.max_d + d] <= self.path_sum(cost, u, v, d, n) <= n * (
            cost[(v * self.w + u) * self.max_d + d] + self.p2),
            self.path_sum(cost, u, v, d, n) <= n * 0xffff,
        decreases n,
    {
        if n > 0 {
            let m = (n - 1) as nat;
            self.lemma_path_sum_bound(cost, u, v, d, m);
            let scan = self.towards(n - 1);
            assert(scan.is_direction());
            scan.law_contribution_bound(cost, u, v, d);
            let c = cost[(v * self.w + u) * self.max_d + d] as int;
            let bound = c + self.p2;
            assert(n * bound == m * bound + bound && n * c == m * c + c) by (nonlinear_arith)
                requires
                    n == m + 1,
            ;
        } else {
            let c = cost[(v * self.w + u) * self.max_d + d] as int;
            assert(0 * (c + self.p2) == 0 && 0 * c == 0) by (nonlinear_arith);
        }
    }

    /// An aggregated cost is the sum of the eight path costs, which fits in 20
    /// bits. It is at least eight times the matching cost, and at most eight
    /// times the matching cost plus P2.
    pub proof fn law_aggregated(self, cost: Seq<u16>, u: int, v: int, d: int)
        requires
            self.inside(u, v),
            0 <= d < self.max_d,
            0 <= self.p1,
            0 <= self.p2,
            self.volume() <= cost.len(),
        ensures
            ({
                let i = (v * self.w + u) * self.max_d + d;
                let s = self.aggregated(cost)[i];
                &&& s == self.towards(0).contribution(cost, u, v, d) + self.towards(1).contribution(
                    cost,
                    u,
                    v,
                    d,
                ) + self.towards(2).contribution(cost, u, v, d) + self.towards(3).contribution(
                    cost,
                    u,
                    v,
                    d,
                ) + self.towards(4).contribution(cost, u, v, d) + self.towards(5).contribution(
                    cost,
                    u,
                    v,
                    d,
                ) + self.towards(6).contribution(cost, u, v, d) + self.towards(7).contribution(
                    cost,
                    u,
                    v,
                    d,
                )
                &&& 8 * cost[i] <= s <= 8 * (cost[i] + self.p2)
                &&& s <= 8 * 0xffff
            }),
    {
        lemma_entry(self.w, self.h, self.max_d, u, v, d);
        self.lemma_path_sum_bound(cost, u, v, d, 8);
        reveal_with_fuel(Scan::path_sum, 9);
    }
}

} // verus!
