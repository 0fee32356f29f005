//! Mirror symmetry of the aggregation.
//!
//! Mirroring a cost volume left to right or top to bottom and walking it in the
//! mirrored direction mirrors what the direction contributes. As the eight
//! directions are mirror images of each other, the aggregation of a mirrored
//! volume is the mirrored aggregation. The disparities have no preferred order
//! either: reversing them reverses the aggregated costs.

use vstd::prelude::*;
use crate::aggregate::{law_row_min, pixel_row, row_min, Scan};
use crate::cost::lemma_entry;

verus! {

impl Scan {
    /// The entry of disparity `d` at pixel `(u, v)`.
    pub open spec fn at<T>(self, volume: Seq<T>, u: int, v: int, d: int) -> T {
        volume[(v * self.w + u) * self.max_d + d]
    }

    /// Column `u` seen in a mirror, if `x` is set.
    pub open spec fn mirror_column(self, x: bool, u: int) -> int {
        if x {
            self.w - 1 - u
        } else {
            u
        }
    }

    /// Row `v` seen in a mirror, if `y` is set.
    pub open spec fn mirror_row(self, y: bool, v: int) -> int {
        if y {
            self.h - 1 - v
        } else {
            v
        }
    }

    /// The scan in the mirrored direction: left to right if `x` is set, top to
    /// bottom if `y` is set.
    pub open spec fn mirrored(self, x: bool, y: bool) -> Scan {
        Scan {
            du: if x {
                -self.du
            } else {
                self.du
            },
            dv: if y {
                -self.dv
            } else {
                self.dv
            },
            ..self
        }
    }

    /// Whether volume `b` is volume `a` mirrored left to right if `x` is set,
    /// and top to bottom if `y` is set.
    pub open spec fn mirrors<T>(self, a: Seq<T>, b: Seq<T>, x: bool, y: bool) -> bool {
        forall|u: int, v: int, d: int|
            self.inside(u, v) && 0 <= d < self.max_d ==> #[trigger] self.at(b, u, v, d) == self.at(
                a,
                self.mirror_column(x, u),
                self.mirror_row(y, v),
                d,
            )
    }

    /// A mirrored volume has mirrored path costs in the mirrored direction.
    pub proof fn law_mirrored_path_costs(
        self,
        cost: Seq<u16>,
        cost2: Seq<u16>,
        x: bool,
        y: bool,
        u: int,
        v: int,
    )
        requires
            self.is_direction(),
            self.inside(u, v),
            0 <= self.max_d,
            self.volume() <= cost.len(),
            self.volume() <= cost2.len(),
            self.mirrors(cost, cost2, x, y),
        ensures
            self.mirrored(x, y).path_costs(cost2, u, v) == self.path_costs(
                cost,
                self.mirror_column(x, u),
                self.mirror_row(y, v),
            ),
        decreases
                if self.du == 0 {
                    self.mirrored(x, y).row_steps(v)
                } else {
                    self.mirrored(x, y).column_steps(u)
                },
    {
        let m = self.mirrored(x, y);
        let mu = self.mirror_column(x, u);
        let mv = self.mirror_row(y, v);
        let c2 = pixel_row(cost2, self.w, self.max_d, u, v);
        let c = pixel_row(cost, self.w, self.max_d, mu, mv);
        assert(c2.len() == self.max_d && c.len() == self.max_d) by {
            m.lemma_path_costs_len(cost2, u, v);
            self.lemma_path_costs_len(cost, mu, mv);
        }
        assert forall|d: int| 0 <= d < self.max_d implies c2[d] == c[d] by {
            lemma_entry(self.w, self.h, self.max_d, u, v, d);
            lemma_entry(self.w, self.h, self.max_d, mu, mv, d);
            assert(self.at(cost2, u, v, d) == self.at(cost, mu, mv, d));
        }
        assert(c2 =~= c);
        if m.inside(u - m.du, v - m.dv) {
            self.law_mirrored_path_costs(cost, cost2, x, y, u - m.du, v - m.dv);
        }
    }

    /// Mirroring a volume mirrors what a direction contributes, in the mirrored
    /// direction.
    pub proof fn law_mirrored_contribution(
        self,
        cost: Seq<u16>,
        cost2: Seq<u16>,
        x: bool,
        y: bool,
        u: int,
        v: int,
        d: int,
    )
        requires
            self.is_direction(),
            self.inside(u, v),
            0 <= self.max_d,
            self.volume() <= cost.len(),
            self.volume() <= cost2.len(),
            self.mirrors(cost, cost2, x, y),
        ensures
            self.mirrored(x, y).contribution(cost2, u, v, d) == self.contribution(
                cost,
                self.mirror_column(x, u),
                self.mirror_row(y, v),
                d,
            ),
    {
        self.law_mirrored_path_costs(cost, cost2, x, y, u, v);
    }

    /// Adding a direction to an aggregated volume, and adding the mirrored
    /// direction to the mirrored volume, leaves two volumes that are again
    /// mirror images.
    pub proof fn law_mirrored_direction(
        self,
        cost: Seq<u16>,
        cost2: Seq<u16>,
        agg: Seq<u32>,
        agg2: Seq<u32>,
        x: bool,
        y: bool,
    )
        requires
            self.is_direction(),
            self.volume() <= cost.len(),
            self.volume() <= cost2.len(),
            self.volume() <= agg.len(),
            self.volume() <= agg2.len(),
            self.mirrors(cost, cost2, x, y),
            self.mirrors(agg, agg2, x, y),
        ensures
            self.mirrors(self.added(cost, agg), self.mirrored(x, y).added(cost2, agg2), x, y),
    {
        let m = self.mirrored(x, y);
        assert forall|u: int, v: int, d: int|
            self.inside(u, v) && 0 <= d < self.max_d implies #[trigger] self.at(
            m.added(cost2, agg2),
            u,
            v,
            d,
        ) == self.at(
            self.added(cost, agg),
            self.mirror_column(x, u),
            self.mirror_row(y, v),
            d,
        ) by {
            let mu = self.mirror_column(x, u);
            let mv = self.mirror_row(y, v);
            lemma_entry(self.w, self.h, self.max_d, u, v, d);
            lemma_entry(self.w, self.h, self.max_d, mu, mv, d);
            self.law_mirrored_contribution(cost, cost2, x, y, u, v, d);
            assert(self.at(agg2, u, v, d) == self.at(agg, mu, mv, d));
        }
    }

    /// The aggregation of a mirrored volume is the mirrored aggregation.
    pub proof fn law_mirrored_aggregation(
        self,
        cost: Seq<u16>,
        cost2: Seq<u16>,
        x: bool,
        y: bool,
    )
        requires
            0 <= self.p1,
            0 <= self.p2,
            self.volume() <= cost.len(),
            self.volume() <= cost2.len(),
            self.mirrors(cost, cost2, x, y),
        ensures
            self.mirrors(self.aggregated(cost), self.aggregated(cost2), x, y),
    {
        assert forall|u: int, v: int, d: int|
            self.inside(u, v) && 0 <= d < self.max_d implies #[trigger] self.at(
            self.aggregated(cost2),
            u,
            v,
            d,
        ) == self.at(
            self.aggregated(cost),
            self.mirror_column(x, u),
            self.mirror_row(y, v),
            d,
        ) by {
            let mu = self.mirror_column(x, u);
            let mv = self.mirror_row(y, v);
            self.law_aggregated(cost2, u, v, d);
            self.law_aggregated(cost, mu, mv, d);
            assert forall|k: int| 0 <= k < 8 implies (#[trigger] self.towards(k)).mirrored(
                x,
                y,
            ).contribution(cost2, u, v, d) == self.towards(k).contribution(cost, mu, mv, d) by {
                let s = self.towards(k);
                assert(s.is_direction());
                assert forall|a: int, b: int, e: int|
                    s.inside(a, b) && 0 <= e < s.max_d implies #[trigger] s.at(cost2, a, b, e)
                    == s.at(cost, s.mirror_column(x, a), s.mirror_row(y, b), e) by {
                    assert(self.at(cost2, a, b, e) == self.at(
                        cost,
                        self.mirror_column(x, a),
                        self.mirror_row(y, b),
                        e,
                    ));
                }
                s.law_mirrored_contribution(cost, cost2, x, y, u, v, d);
            }
            self.lemma_mirrored_directions(x, y);
        }
    }

    /// Mirroring permutes the eight directions.
    proof fn lemma_mirrored_directions(self, x: bool, y: bool)
        ensures
            self.towards(0).mirrored(x, y) == self.towards(if x { 1 } else { 0 }),
            self.towards(1).mirrored(x, y) == self.towards(if x { 0 } else { 1 }),
            self.towards(2).mirrored(x, y) == self.towards(if y { 3 } else { 2 }),
            self.towards(3).mirrored(x, y) == self.towards(if y { 2 } else { 3 }),
            self.towards(4).mirrored(x, y) == self.towards(
                if x && y { 5 } else if x { 7 } else if y { 6 } else { 4 },
            ),
            self.towards(5).mirrored(x, y) == self.towards(
                if x && y { 4 } else if x { 6 } else if y { 7 } else { 5 },
            ),
            self.towards(6).mirrored(x, y) == self.towards(
                if x && y { 7 } else if x { 5 } else if y { 4 } else { 6 },
            ),
            self.towards(7).mirrored(x, y) == self.towards(
                if x && y { 6 } else if x { 4 } else if y { 5 } else { 7 },
            ),
    {
    }
}

impl Scan {
    /// Whether volume `b` is volume `a` with the order of the disparities
    /// reversed at every pixel.
    pub open spec fn reverses<T>(self, a: Seq<T>, b: Seq<T>) -> bool {
        forall|u: int, v: int, d: int|
            self.inside(u, v) && 0 <= d < self.max_d ==> #[trigger] self.at(b, u, v, d) == self.at(
                a,
                u,
                v,
                self.max_d - 1 - d,
            )
    }

    proof fn lemma_reversed_path_costs(self, cost: Seq<u16>, cost2: Seq<u16>, u: int, v: int)
        requires
            self.is_direction(),
            self.inside(u, v),
            0 < self.max_d,
            self.volume() <= cost.len(),
            self.volume() <= cost2.len(),
            self.reverses(cost, cost2),
        ensures
            self.path_costs(cost, u, v).len() == self.max_d,
            self.path_costs(cost2, u, v).len() == self.max_d,
            forall|d: int|
                0 <= d < self.max_d ==> #[trigger] self.path_costs(cost2, u, v)[d]
                    == self.path_costs(cost, u, v)[self.max_d - 1 - d],
        decreases
                if self.du == 0 {
                    self.row_steps(v)
                } else {
                    self.column_steps(u)
                },
    {
        let n = self.max_d;
        self.lemma_path_costs_len(cost, u, v);
        self.lemma_path_costs_len(cost2, u, v);
        let (a, b) = (u - self.du, v - self.dv);
        let prev = self.path_costs(cost, a, b);
        let prev2 = self.path_costs(cost2, a, b);
        if !self.is_entry(u, v) {
            self.lemma_reversed_path_costs(cost, cost2, a, b);
            law_row_min(prev);
            law_row_min(prev2);
            let j = choose|j: int| 0 <= j < prev.len() && row_min(prev) == #[trigger] prev[j];
            let k = choose|k: int| 0 <= k < prev2.len() && row_min(prev2) == #[trigger] prev2[k];
            assert(prev2[n - 1 - j] == prev[j]);
            assert(prev2[k] == prev[n - 1 - k]);
            assert(row_min(prev) == row_min(prev2));
        }
        assert forall|d: int| 0 <= d < n implies #[trigger] self.path_costs(cost2, u, v)[d]
            == self.path_costs(cost, u, v)[n - 1 - d] by {
            let e = n - 1 - d;
            self.law_path_costs(cost2, u, v, d);
            self.law_path_costs(cost, u, v, e);
            assert(self.at(cost2, u, v, d) == self.at(cost, u, v, e));
            if !self.is_entry(u, v) {
                assert(prev2[d] == prev[e]);
                if d > 0 {
                    assert(prev2[d - 1] == prev[e + 1]);
                }
                if d + 1 < n {
                    assert(prev2[d + 1] == prev[e - 1]);
                }
            }
        }
    }

    /// Rising and falling disparities are treated alike: reversing the order of
    /// the disparities in a volume reverses what a direction contributes.
    pub proof fn law_reversed_contribution(
        self,
        cost: Seq<u16>,
        cost2: Seq<u16>,
        u: int,
        v: int,
        d: int,
    )
        requires
            self.is_direction(),
            self.inside(u, v),
            0 <= d < self.max_d,
            self.volume() <= cost.len(),
            self.volume() <= cost2.len(),
            self.reverses(cost, cost2),
        ensures
            self.contribution(cost2, u, v, d) == self.contribution(
                cost,
                u,
                v,
                self.max_d - 1 - d,
            ),
    {
        self.lemma_reversed_path_costs(cost, cost2, u, v);
    }

    /// Reversing the order of the disparities in a volume reverses the aggregated
    /// costs.
    pub proof fn law_reversed_aggregation(self, cost: Seq<u16>, cost2: Seq<u16>)
        requires
            0 <= self.p1,
            0 <= self.p2,
            self.volume() <= cost.len(),
            self.volume() <= cost2.len(),
            self.reverses(cost, cost2),
        ensures
            self.reverses(self.aggregated(cost), self.aggregated(cost2)),
    {
        assert forall|u: int, v: int, d: int|
            self.inside(u, v) && 0 <= d < self.max_d implies #[trigger] self.at(
            self.aggregated(cost2),
            u,
            v,
            d,
        ) == self.at(self.aggregated(cost), u, v, self.max_d - 1 - d) by {
            let e = self.max_d - 1 - d;
            self.law_aggregated(cost2, u, v, d);
            self.law_aggregated(cost, u, v, e);
            assert forall|k: int| 0 <= k < 8 implies (#[trigger] self.towards(k)).contribution(
                cost2,
                u,
                v,
                d,
            ) == self.towards(k).contribution(cost, u, v, e) by {
                let s = self.towards(k);
                assert(s.is_direction());
                assert forall|a: int, b: int, c: int|
                    s.inside(a, b) && 0 <= c < s.max_d implies #[trigger] s.at(cost2, a, b, c)
                    == s.at(cost, a, b, s.max_d - 1 - c) by {
                    assert(self.at(cost2, a, b, c) == self.at(cost, a, b, self.max_d - 1 - c));
                }
                s.law_reversed_contribution(cost, cost2, u, v, d);
            }
        }
    }
}

} // verus!
