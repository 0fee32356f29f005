//! Semi-Global Matching (SGM) stereo disparity estimation.
//!
//! Given a rectified stereo pair, this crate computes a dense disparity map:
//! for every pixel of the left view, how far to the left its counterpart lies
//! in the right view.
//!
//! ## Pipeline
//!
//! 1. **Census transform** ([`census`]): a bit string around each pixel that
//!    records which neighbours are darker; robust to gain and bias differences
//!    between the two views.
//! 2. **Matching cost volume** ([`cost`]): Hamming distance between left and
//!    right Census strings for each pixel and candidate disparity.
//! 3. **Aggregation** ([`aggregate`]): path costs summed over 8 directions with
//!    the smoothness penalties P1 (small steps) and P2 (large steps).
//! 4. **Winner takes all** ([`disparity`]): per-pixel minimum of the aggregated
//!    cost, with a parabolic fit for sub-pixel precision; pixels at the border
//!    have none.
//! 5. **Left-right consistency** ([`consistency`]): pixels whose left and right
//!    disparities disagree are marked invalid.
//!
//! [`matcher::StereoMatcher`] runs the stages, [`map::DisparityMap`] holds the
//! result. Every stage is specified by a pure function on sequences. Laws beside
//! the stages say what these functions mean in terms of their inputs and
//! results, [`paths`] and [`subpixel`] for aggregation and refinement, and
//! [`laws`] states what holds of the pipeline as a whole. Sub-pixel arithmetic
//! is that of IEEE 754 single precision, carried out on integers
//! ([`binary32`]).

pub mod aggregate;
pub mod binary32;
pub mod bits;
pub mod census;
pub mod consistency;
pub mod cost;
pub mod disparity;
pub mod image;
pub mod index;
pub mod laws;
pub mod map;
pub mod matcher;
pub mod mirror;
pub mod paths;
pub mod subpixel;
