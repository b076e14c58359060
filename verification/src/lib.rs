//! Cost-minimising search for programs in a small painting language: cut a
//! rectangular region of a canvas, fill a region with a flat colour, merge
//! two regions, swap two regions.  A program is scored by what its
//! operations cost and by how far the picture that it paints is from the
//! picture that is asked for.
//!
//! Every quantity is an integer.  Operation costs are whole cost units;
//! colour distances are fixed-point, so that a score is an exact number of
//! score units (see [`consts`]).
//!
//! The parts, from the ground up:
//! - [`color`], [`utils`], [`test_case`], [`rect_id`], [`op`]: colours,
//!   points, rectangles, instances, names of regions, operations;
//! - [`interpreter`] with [`registry`] and [`regions`]: the replay of a
//!   program, which is what every cost and every picture is measured by;
//! - [`color_corner`] with [`corner_replay`]: the cost model for filling a
//!   rectangle at the top-right corner, and its agreement with the replay;
//! - [`pixel_dist`], [`color_picker`], [`sums`], [`arith`]: pixel distances
//!   and colours picked for rectangles and for lists of pixels;
//! - [`solution`], [`ops_by_rects`], [`local_optimizations`]: stacks of
//!   corner-anchored rectangles, their pictures, programs and scores;
//! - [`coords`], [`solver`], [`partition`], [`solve`]: the hierarchical
//!   solver;
//! - [`annealing`]: the search over stacks of rectangles;
//! - [`merger`], [`merge_program`], [`rotator`], [`full_turn`]: canvases
//!   that start divided, quarter turns of an instance and of its program;
//! - [`really_local_optimizations`], [`restore`], [`placement`],
//!   [`stripe_search`]: exchanges of two stripes of the canvas, stacks
//!   restored from pictures, and the search after an exchange;
//! - [`readings`], [`savings`], [`round_trip`], [`gifs`]: the text of
//!   programs and instances, and pictures as bytes;
//! - [`rand`]: the generator of pseudo-random numbers that the solver and
//!   the search draw from.

pub mod annealing;
pub mod arith;
pub mod color;
pub mod color_corner;
pub mod color_picker;
pub mod consts;
pub mod coords;
pub mod corner_replay;
pub mod full_turn;
pub mod gifs;
pub mod interpreter;
pub mod local_optimizations;
pub mod merge_program;
pub mod merger;
pub mod op;
pub mod ops_by_rects;
pub mod partition;
pub mod picture;
pub mod pixel_dist;
pub mod placement;
pub mod rand;
pub mod readings;
pub mod really_local_optimizations;
pub mod rect_id;
pub mod regions;
pub mod registry;
pub mod restore;
pub mod rotator;
pub mod round_trip;
pub mod savings;
pub mod solution;
pub mod solve;
pub mod solver;
pub mod stripe_search;
pub mod sums;
pub mod test_case;
pub mod utils;
