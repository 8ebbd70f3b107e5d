//! Area computation over a journey bitmap.

use vstd::prelude::*;
use crate::journey_bitmap::JourneyBitmap;
use crate::journey_bitmap::MAP_CELL_COUNT;

verus! {

/// Total covered area of the bitmap, in units of one cell, computed by a
/// single traversal of the present tiles and blocks.
pub fn compute_journey_bitmap_area(journey_bitmap: &JourneyBitmap) -> (r: u64)
    requires
        journey_bitmap.wf(),
    ensures
        r as nat == journey_bitmap.cells().len(),
        r <= MAP_CELL_COUNT,
{
    journey_bitmap.count_cells()
}

} // verus!
