//! Disparity maps.

use vstd::prelude::*;
use crate::disparity::{all_wf, Disparity};
use crate::index::lemma_in_range;

verus! {

/// A disparity map: one disparity per pixel, `None` where invalid.
///
/// Disparity is in pixels of the *rectified* image pair.
pub struct DisparityMap {
    /// Width of the map in pixels.
    pub width: usize,
    /// Height of the map in pixels.
    pub height: usize,
    /// Row-major disparity values. `None` marks occluded or invalid pixels.
    pub data: Vec<Option<Disparity>>,
}

/// The disparities that are there.
pub open spec fn valid_disparities(data: Seq<Option<Disparity>>) -> Seq<Option<Disparity>> {
    data.filter(|d: Option<Disparity>| d is Some)
}

impl DisparityMap {
    /// The map has one value per pixel, and its disparities are well-formed.
    pub open spec fn wf(self) -> bool {
        self.data@.len() == self.width * self.height && all_wf(self.data@)
    }

    /// Returns the value at pixel `(u, v)`, or `None` if out of bounds.
    pub fn get(&self, u: usize, v: usize) -> (d: Option<Option<Disparity>>)
        requires
            self.wf() || (u < self.width && v < self.height ==> v * self.width + u
                < self.data@.len()),
        ensures
            d == if u < self.width && v < self.height {
                Some(self.data@[v * self.width + u])
            } else {
                None
            },
    {
        if u < self.width && v < self.height {
            let len: usize = self.data.len();
            proof {
                lemma_in_range(v as int, u as int, self.height as int, self.width as int);
                assert(self.height * self.width == self.width * self.height) by (nonlinear_arith);
            }
            assert(v * self.width + u < len);
            Some(self.data[v * self.width + u])
        } else {
            None
        }
    }

    /// Total number of pixels with a valid disparity.
    pub fn valid_count(&self) -> (n: usize)
        ensures
            n == valid_disparities(self.data@).len(),
            n <= self.data@.len(),
    {
        let mut n: usize = 0;
        let mut i: usize = 0;
        proof {
            reveal(Seq::filter);
        }
        while i < self.data.len()
            invariant
                i <= self.data@.len(),
                n <= i,
                n == valid_disparities(self.data@.take(i as int)).len(),
            decreases self.data@.len() - i,
        {
            proof {
                reveal(Seq::filter);
                assert(self.data@.take(i + 1).drop_last() =~= self.data@.take(i as int));
            }
            if self.data[i].is_some() {
                n = n + 1;
            }
            i = i + 1;
        }
        proof {
            assert(self.data@.take(self.data@.len() as int) =~= self.data@);
        }
        n
    }

    /// Fraction of pixels with a valid disparity, in `[0, 1]`: the number of those
    /// pixels over the number of pixels of the map. A map without pixels has the
    /// fraction `0 / 1`.
    pub fn valid_fraction(&self) -> (f: (usize, usize))
        requires
            self.width * self.height <= usize::MAX,
        ensures
            f.0 == valid_disparities(self.data@).len(),
            f.1 == if self.width * self.height == 0 {
                1
            } else {
                self.width * self.height
            },
            f.1 > 0,
            self.wf() ==> f.0 <= f.1,
    {
        let pixels: usize = self.width * self.height;
        (
            self.valid_count(),
            if pixels == 0 {
                1
            } else {
                pixels
            },
        )
    }
}

/// The valid disparities are as many as the pixels that have one.
pub proof fn law_valid_disparities_count_pixels(data: Seq<Option<Disparity>>)
    ensures
        Set::new(|i: int| 0 <= i < data.len() && data[i] is Some).finite(),
        valid_disparities(data).len() == Set::new(
            |i: int| 0 <= i < data.len() && data[i] is Some,
        ).len(),
    decreases data.len(),
{
    reveal(Seq::filter);
    let s = Set::new(|i: int| 0 <= i < data.len() && data[i] is Some);
    if data.len() == 0 {
        assert(s =~= Set::empty());
    } else {
        let init = data.drop_last();
        law_valid_disparities_count_pixels(init);
        let t = Set::new(|i: int| 0 <= i < init.len() && init[i] is Some);
        if data.last() is Some {
            assert(s =~= t.insert(data.len() - 1));
        } else {
            assert(s =~= t);
        }
    }
}

/// A map of well-formed disparities, one per pixel, is well-formed.
pub proof fn law_map_wf(map: DisparityMap)
    requires
        map.data@.len() == map.width * map.height,
        forall|i: int|
            0 <= i < map.data@.len() && #[trigger] map.data@[i] is Some ==> map.data@[i]->0.wf(),
    ensures
        map.wf(),
{
}

} // verus!
