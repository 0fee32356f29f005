//! The stereo matcher.

use vstd::prelude::*;
use kornia_image::{Image, ImageError};
use crate::aggregate::{sgm_aggregate, Scan};
use crate::census::{census_defined, census_map, census_transform};
use crate::consistency::{consistent, lr_check};
use crate::cost::{build_cost_volume, build_cost_volume_right, cost_volume, cost_volume_right};
use crate::disparity::{clear_border, disparities, without_border, wta_subpixel, Disparity};
use crate::image::{
    image_height, image_on_host, image_pixels, image_width, read_height, read_on_host, read_pixels,
    read_width,
};
use crate::map::DisparityMap;

verus! {

/// Errors produced by [`StereoMatcher`].
#[derive(Debug)]
pub enum MatcherError {
    /// The supplied images have different sizes.
    SizeMismatch {
        /// Left image `(width, height)`.
        left: (usize, usize),
        /// Right image `(width, height)`.
        right: (usize, usize),
    },
    /// `max_disparity` must be > 0.
    InvalidMaxDisparity(usize),
    /// The penalties do not satisfy `0 < P1 < P2`.
    InvalidPenalties {
        /// P1 value.
        p1: u16,
        /// P2 value.
        p2: u16,
    },
    /// An image operation failed.
    Image(ImageError),
}

impl From<ImageError> for MatcherError {
    fn from(error: ImageError) -> (r: Self) {
        MatcherError::Image(error)
    }
}

impl vstd::std_specs::convert::FromSpecImpl<ImageError> for MatcherError {
    open spec fn obeys_from_spec() -> bool {
        true
    }

    open spec fn from_spec(error: ImageError) -> Self {
        MatcherError::Image(error)
    }
}

/// SGM parameters.
///
/// The defaults are a reasonable starting point for a 640x480 stereo pair with
/// a ~0.1 m baseline and scenes up to ~5 m.
#[derive(Debug, Clone)]
pub struct StereoMatcher {
    /// Maximum disparity (exclusive). Must be > 0.
    ///
    /// A scene depth of `d_min` metres requires at least `bf / d_min` pixels of
    /// disparity range.
    pub max_disparity: usize,
    /// Penalty for a disparity change of exactly 1 px between neighbours. Must
    /// be > 0.
    ///
    /// Larger: smoother disparity transitions; typical range 5-20.
    pub p1: u16,
    /// Penalty for a disparity change > 1 px between neighbours.
    ///
    /// Must be > `p1`; typical range 50-150. A ratio `p2 / p1 = 8` works well
    /// for most scenes.
    pub p2: u16,
    /// Half-size of the Census transform window.
    ///
    /// The full window is `(2*r+1) x (2*r+1)`; `r = 2` (5x5) handles most
    /// textures. Pixels within `r` of the border carry no disparity. Up to `r = 3` every neighbour
    /// has a bit of its own in the 64-bit description; in larger windows
    /// neighbours share bits.
    pub census_radius: usize,
    /// Left-right consistency threshold in pixels.
    ///
    /// Pixels where `|disp_L - disp_R| > lr_max_diff` are marked invalid. Set to
    /// `usize::MAX` to disable the left-right check.
    pub lr_max_diff: usize,
}

impl Default for StereoMatcher {
    fn default() -> (m: Self)
        ensures
            m.max_disparity == 64,
            m.p1 == 10,
            m.p2 == 120,
            m.census_radius == 2,
            m.lr_max_diff == 1,
    {
        StereoMatcher { max_disparity: 64, p1: 10, p2: 120, census_radius: 2, lr_max_diff: 1 }
    }
}

impl StereoMatcher {
    /// Creates a new matcher with explicit parameters.
    ///
    /// # Errors
    /// - [`MatcherError::InvalidMaxDisparity`] if `max_disparity` is 0.
    /// - [`MatcherError::InvalidPenalties`] unless `0 < p1 < p2`.
    pub fn new(
        max_disparity: usize,
        p1: u16,
        p2: u16,
        census_radius: usize,
        lr_max_diff: usize,
    ) -> (r: Result<Self, MatcherError>)
        ensures
            r == if max_disparity == 0 {
                Err::<Self, MatcherError>(MatcherError::InvalidMaxDisparity(max_disparity))
            } else if p1 == 0 || p2 <= p1 {
                Err(MatcherError::InvalidPenalties { p1, p2 })
            } else {
                Ok((StereoMatcher { max_disparity, p1, p2, census_radius, lr_max_diff }))
            },
    {
        if max_disparity == 0 {
            return Err(MatcherError::InvalidMaxDisparity(max_disparity));
        }
        if p1 == 0 || p2 <= p1 {
            return Err(MatcherError::InvalidPenalties { p1, p2 });
        }
        Ok(StereoMatcher { max_disparity, p1, p2, census_radius, lr_max_diff })
    }

    /// The aggregation that the parameters describe, on an image of width `w`
    /// and height `h`.
    pub open spec fn scan(self, w: int, h: int) -> Scan {
        Scan {
            w,
            h,
            max_d: self.max_disparity as int,
            p1: self.p1 as int,
            p2: self.p2 as int,
            du: 0,
            dv: 0,
        }
    }

    /// Disparities of the left view before the left-right check.
    pub open spec fn left_disparities(self, left: Seq<u8>, right: Seq<u8>, w: int, h: int) -> Seq<
        Option<Disparity>,
    > {
        let r = self.census_radius as int;
        let d = self.max_disparity as int;
        let cost = cost_volume(census_map(left, w, h, r), census_map(right, w, h, r), w, h, d);
        without_border(disparities(self.scan(w, h).aggregated(cost), w, h, d), w, h, r)
    }

    /// Disparities of the right view.
    pub open spec fn right_disparities(self, left: Seq<u8>, right: Seq<u8>, w: int, h: int) -> Seq<
        Option<Disparity>,
    > {
        let r = self.census_radius as int;
        let d = self.max_disparity as int;
        let cost = cost_volume_right(
            census_map(left, w, h, r),
            census_map(right, w, h, r),
            w,
            h,
            d,
        );
        without_border(disparities(self.scan(w, h).aggregated(cost), w, h, d), w, h, r)
    }

    /// The disparity map of a pair of views.
    pub open spec fn disparity_map(self, left: Seq<u8>, right: Seq<u8>, w: int, h: int) -> Seq<
        Option<Disparity>,
    > {
        let disp_l = self.left_disparities(left, right, w, h);
        let disp_r = self.right_disparities(left, right, w, h);
        if self.lr_max_diff == usize::MAX {
            disp_l
        } else {
            consistent(disp_l, disp_r, w, h, self.lr_max_diff as nat)
        }
    }

    /// The views on which matching is defined: they are not empty, their pixels
    /// are there if any Census window fits, and the cost volume can be indexed.
    pub open spec fn accepts(self, left_len: nat, right_len: nat, w: int, h: int) -> bool {
        &&& 0 < w <= isize::MAX
        &&& 0 < h <= isize::MAX
        &&& census_defined(left_len, w, h, self.census_radius as int)
        &&& census_defined(right_len, w, h, self.census_radius as int)
        &&& h * w * self.max_disparity <= usize::MAX
    }

    /// Whether a pair of images can be matched: they can be read, and their
    /// pixels are accepted.
    pub open spec fn accepts_images(self, left: Image<u8, 1>, right: Image<u8, 1>) -> bool {
        &&& image_on_host(left)
        &&& image_on_host(right)
        &&& self.accepts(
            image_pixels(left).len(),
            image_pixels(right).len(),
            image_width(left) as int,
            image_height(left) as int,
        )
    }

    /// Decides whether views of these lengths and this size can be matched.
    pub fn can_match(&self, left_len: usize, right_len: usize, w: usize, h: usize) -> (b: bool)
        ensures
            b == self.accepts(left_len as nat, right_len as nat, w as int, h as int),
    {
        let r: usize = self.census_radius;
        if w == 0 || h == 0 || w > isize::MAX as usize || h > isize::MAX as usize {
            return false;
        }
        assert(w * h == h * w) by (nonlinear_arith);
        match h.checked_mul(w) {
            None => false,
            Some(pixels) => match pixels.checked_mul(self.max_disparity) {
                None => false,
                Some(_) => {
                    if r >= h || r >= h - r || r >= w || r >= w - r {
                        true
                    } else {
                        pixels <= left_len && pixels <= right_len
                    }
                },
            },
        }
    }

    /// Computes a dense disparity map from the pixels of a rectified pair.
    ///
    /// `left` and `right` hold the grey levels of two views of width `w` and
    /// height `h`, row by row, with horizontal epipolar lines.
    pub fn match_pixels(&self, left: &[u8], right: &[u8], w: usize, h: usize) -> (map: DisparityMap)
        requires
            self.accepts(left@.len(), right@.len(), w as int, h as int),
        ensures
            map.wf(),
            map.width == w,
            map.height == h,
            map.data@ == self.disparity_map(left@, right@, w as int, h as int),
    {
        let d: usize = self.max_disparity;
        proof {
            assert(w * h == h * w) by (nonlinear_arith);
        }
        // 1. Census transform.
        let left_census: Vec<u64> = census_transform(left, w, h, self.census_radius);
        let right_census: Vec<u64> = census_transform(right, w, h, self.census_radius);
        // 2. Matching cost volume.
        let cost_vol: Vec<u16> = build_cost_volume(
            left_census.as_slice(),
            right_census.as_slice(),
            w,
            h,
            d,
        );
        // 3. Aggregation over the eight directions.
        let aggregated: Vec<u32> = sgm_aggregate(cost_vol.as_slice(), w, h, d, self.p1, self.p2);
        // 4. Winner takes all and sub-pixel refinement, away from the border.
        let mut disp_left: Vec<Option<Disparity>> = wta_subpixel(aggregated.as_slice(), w, h, d);
        clear_border(&mut disp_left, w, h, self.census_radius);
        if self.lr_max_diff == usize::MAX {
            return DisparityMap { width: w, height: h, data: disp_left };
        }
        // 5. Right disparities.
        let cost_vol_r: Vec<u16> = build_cost_volume_right(
            left_census.as_slice(),
            right_census.as_slice(),
            w,
            h,
            d,
        );
        let aggregated_r: Vec<u32> = sgm_aggregate(cost_vol_r.as_slice(), w, h, d, self.p1, self.p2);
        let mut disp_right: Vec<Option<Disparity>> = wta_subpixel(aggregated_r.as_slice(), w, h, d);
        clear_border(&mut disp_right, w, h, self.census_radius);
        // 6. Left-right consistency check.
        let data: Vec<Option<Disparity>> = lr_check(
            disp_left.as_slice(),
            disp_right.as_slice(),
            w,
            h,
            self.lr_max_diff,
        );
        DisparityMap { width: w, height: h, data }
    }

    /// Computes a dense disparity map from a rectified stereo pair.
    ///
    /// `left` and `right` are the two rectified views: grayscale, same size,
    /// epipolar lines horizontal.
    ///
    /// Returns a [`DisparityMap`] with sub-pixel precision. Invalid pixels
    /// (occlusions, left-right failures, border regions) carry `None`.
    ///
    /// # Errors
    /// [`MatcherError::SizeMismatch`] if the images differ in size.
    pub fn compute_disparity(&self, left: &Image<u8, 1>, right: &Image<u8, 1>) -> (r: Result<
        DisparityMap,
        MatcherError,
    >)
        requires
            image_width(*left) == image_width(*right) && image_height(*left) == image_height(*right)
                ==> self.accepts_images(*left, *right),
        ensures
            image_width(*left) == image_width(*right) && image_height(*left) == image_height(*right)
                ==> (r matches Ok(map) && map.wf() && map.width == image_width(*left) && map.height
                == image_height(*left) && map.data@ == self.disparity_map(
                image_pixels(*left),
                image_pixels(*right),
                image_width(*left) as int,
                image_height(*left) as int,
            )),
            image_width(*left) != image_width(*right) || image_height(*left) != image_height(
                *right,
            ) ==> (r matches Err(MatcherError::SizeMismatch { left: l, right: s }) && l.0
                == image_width(*left) && l.1 == image_height(*left) && s.0 == image_width(*right)
                && s.1 == image_height(*right)),
    {
        let w: usize = read_width(left);
        let h: usize = read_height(left);
        let rw: usize = read_width(right);
        let rh: usize = read_height(right);
        if rw != w || rh != h {
            return Err(MatcherError::SizeMismatch { left: (w, h), right: (rw, rh) });
        }
        Ok(self.match_pixels(read_pixels(left), read_pixels(right), w, h))
    }

    /// Computes a dense disparity map if the pair can be matched.
    ///
    /// Returns what [`StereoMatcher::compute_disparity`] returns, or `None` for
    /// two images of one size that it is not defined on.
    pub fn try_compute_disparity(&self, left: &Image<u8, 1>, right: &Image<u8, 1>) -> (r: Option<
        Result<DisparityMap, MatcherError>,
    >)
        ensures
            r is None <==> image_width(*left) == image_width(*right) && image_height(*left)
                == image_height(*right) && !self.accepts_images(*left, *right),
            image_width(*left) == image_width(*right) && image_height(*left) == image_height(*right)
                && self.accepts_images(*left, *right) ==> (r matches Some(Ok(map)) && map.wf()
                && map.width == image_width(*left) && map.height == image_height(*left)
                && map.data@ == self.disparity_map(
                image_pixels(*left),
                image_pixels(*right),
                image_width(*left) as int,
                image_height(*left) as int,
            )),
            image_width(*left) != image_width(*right) || image_height(*left) != image_height(
                *right,
            ) ==> (r matches Some(Err(MatcherError::SizeMismatch { left: l, right: s })) && l.0
                == image_width(*left) && l.1 == image_height(*left) && s.0 == image_width(*right)
                && s.1 == image_height(*right)),
    {
        let w: usize = read_width(left);
        let h: usize = read_height(left);
        if read_width(right) == w && read_height(right) == h {
            if !read_on_host(left) || !read_on_host(right) {
                return None;
            }
            if !self.can_match(read_pixels(left).len(), read_pixels(right).len(), w, h) {
                return None;
            }
        }
        Some(self.compute_disparity(left, right))
    }
}

} // verus!
