//! Constants of the cost model and the units in which scores are counted.
//!
//! An operation costs a whole number of cost units.  The distance between
//! two colours is counted in steps of `1 / DIST_SCALE`, and the pixel
//! distance of a picture weighs one unit of colour distance as
//! `1 / PIXEL_DIST_DIVISOR` cost units.  A score adds both, so it is counted
//! in score units, `SCORE_SCALE` of which make one cost unit.

use vstd::prelude::*;

verus! {

/// Base cost of a colour operation.
pub const COLOR_COST: u128 = 5;

/// Base cost of a merge operation.
pub const MERGE_COST: u128 = 1;

/// Base cost of a swap operation.
pub const SWAP_COST: u128 = 3;

/// Largest side of a canvas.
pub const MAX_SIDE: usize = 65535;

/// Number of fixed-point steps in one unit of colour distance.
pub const DIST_SCALE: u64 = 1_000_000;

/// One unit of colour distance weighs `1 / PIXEL_DIST_DIVISOR` cost units.
pub const PIXEL_DIST_DIVISOR: u128 = 200;

/// Number of score units in one cost unit.
pub const SCORE_SCALE: u128 = 200_000_000;

/// Largest distance between two colours, in fixed-point steps.
pub const MAX_COLOR_DIST: u64 = 510_000_000;

/// Largest cost of merging seed regions that a score can take in.
pub const MAX_MERGE_COST: u128 = 792_257_446_810_718_524_046_092_533_750;

/// Score of a table cell for which no way of painting is known.
pub const FMAX: u128 = 0x1000_0000_0000_0000_0000_0000_0000_0000;

} // verus!
