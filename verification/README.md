# sgm-stereo

Semi-Global Matching for rectified stereo pairs, written in Rust and verified
with Verus.

- `src/`: the matcher. Each stage of the pipeline (Census transform, cost
  volumes, path aggregation, winner takes all with sub-pixel refinement,
  left-right check) returns exactly what its specification says, and laws about
  single stages and about the whole pipeline are proved beside it.
- `tests/`: scenarios, exact values for every stage, and comparisons of the
  integer sub-pixel arithmetic with native single precision.
- `app/`: a command-line program that matches two image files and writes a
  colour-coded disparity map.

A disparity is held as a count of 2^-32 pixels with 24 significant bits, which
is the value of a single-precision number of pixels. An invalid pixel has no
disparity.

What the proofs rest on besides Verus and `vstd`: the accessors of
`kornia_image::Image` declared in `src/image.rs`, and `u64::count_ones` in
`src/bits.rs`.
