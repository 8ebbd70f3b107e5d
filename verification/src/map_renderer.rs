//! A caching wrapper that mediates mutation of one owned journey bitmap.
//!
//! The renderer tracks an edge-triggered "changed" flag, consumed at most
//! once per mutation by `get_latest_bitmap_if_changed`, and lazily caches
//! the total covered area; every mutation or replacement invalidates both
//! together. It also stores an opaque viewport state for the rendering
//! consumer, which has no effect on the bitmap or the caches.

use vstd::prelude::*;
use crate::journey_area_utils;
use crate::journey_bitmap::JourneyBitmap;

verus! {

/// Viewport state owned by the rendering consumer and stored verbatim:
/// a position in ten-millionths of a degree and a zoom level in
/// hundredths.
#[derive(Clone, Copy, Debug, PartialEq, Eq, Structural)]
pub struct CameraOption {
    pub lng_e7: i64,
    pub lat_e7: i64,
    pub zoom_e2: u32,
}

/// Owns one journey bitmap together with the derived cached state.
pub struct MapRenderer {
    pub journey_bitmap: JourneyBitmap,
    pub changed: bool,
    pub current_area: Option<u64>,
    pub provisioned_camera_option: Option<CameraOption>,
}

impl MapRenderer {
    /// A cached area value, when present, is the bitmap's covered cell
    /// count.
    pub open spec fn area_cache_ok(&self) -> bool {
        self.current_area matches Some(a) ==> a as nat == self.journey_bitmap.cells().len()
    }

    /// Takes ownership of a bitmap; the initial state is "changed", so the
    /// first read always observes it, and no area is cached yet.
    pub fn new(journey_bitmap: JourneyBitmap) -> (r: MapRenderer)
        ensures
            r.journey_bitmap == journey_bitmap,
            r.changed == true,
            r.current_area is None,
            r.provisioned_camera_option is None,
            r.area_cache_ok(),
    {
        MapRenderer {
            journey_bitmap,
            changed: true,
            current_area: None,
            provisioned_camera_option: None,
        }
    }

    /// Stores the viewport state verbatim; nothing else is affected.
    pub fn set_provisioned_camera_option(&mut self, camera_option: Option<CameraOption>)
        ensures
            final(self).provisioned_camera_option == camera_option,
            final(self).journey_bitmap == old(self).journey_bitmap,
            final(self).changed == old(self).changed,
            final(self).current_area == old(self).current_area,
    {
        self.provisioned_camera_option = camera_option;
    }

    /// Returns the stored viewport state verbatim.
    pub fn get_provisioned_camera_option(&self) -> (r: Option<CameraOption>)
        ensures
            r == self.provisioned_camera_option,
    {
        self.provisioned_camera_option
    }

    /// Applies a caller-supplied pure transformation to the owned bitmap,
    /// then marks the state changed and invalidates the cached area.
    pub fn update<F: Fn(&JourneyBitmap) -> JourneyBitmap>(&mut self, f: F)
        requires
            call_requires(f, (&old(self).journey_bitmap,)),
        ensures
            call_ensures(f, (&old(self).journey_bitmap,), final(self).journey_bitmap),
            final(self).changed == true,
            final(self).current_area is None,
            final(self).provisioned_camera_option == old(self).provisioned_camera_option,
            final(self).area_cache_ok(),
    {
        let new_bitmap = f(&self.journey_bitmap);
        self.journey_bitmap = new_bitmap;
        self.reset();
    }

    /// Swaps the owned bitmap wholesale; same invalidation as `update`.
    pub fn replace(&mut self, journey_bitmap: JourneyBitmap)
        ensures
            final(self).journey_bitmap == journey_bitmap,
            final(self).changed == true,
            final(self).current_area is None,
            final(self).provisioned_camera_option == old(self).provisioned_camera_option,
            final(self).area_cache_ok(),
    {
        self.journey_bitmap = journey_bitmap;
        self.reset();
    }

    /// Marks the state changed and drops the cached area.
    pub fn reset(&mut self)
        ensures
            final(self).journey_bitmap == old(self).journey_bitmap,
            final(self).changed == true,
            final(self).current_area is None,
            final(self).provisioned_camera_option == old(self).provisioned_camera_option,
            final(self).area_cache_ok(),
    {
        self.changed = true;
        self.current_area = None;
    }

    /// Whether a mutation is pending that no reader has consumed yet.
    pub fn changed(&self) -> (r: bool)
        ensures
            r == self.changed,
    {
        self.changed
    }

    /// Edge-triggered, single-consumer read: returns the bitmap and clears
    /// the changed flag exactly once per mutation; a second call before
    /// the next mutation returns nothing.
    pub fn get_latest_bitmap_if_changed(&mut self) -> (r: Option<&JourneyBitmap>)
        ensures
            final(self).journey_bitmap == old(self).journey_bitmap,
            final(self).current_area == old(self).current_area,
            final(self).provisioned_camera_option == old(self).provisioned_camera_option,
            final(self).changed == false,
            old(self).changed ==> (r matches Some(b) && *b == old(self).journey_bitmap),
            !old(self).changed ==> r is None,
    {
        if self.changed {
            self.changed = false;
            Some(&self.journey_bitmap)
        } else {
            None
        }
    }

    /// Non-consuming read of the owned bitmap; never affects the changed
    /// flag.
    pub fn peek_latest_bitmap(&self) -> (r: &JourneyBitmap)
        ensures
            *r == self.journey_bitmap,
    {
        &self.journey_bitmap
    }

    /// Returns the cached covered area, computing and caching it by a full
    /// traversal when no value is cached.
    pub fn get_current_area(&mut self) -> (r: u64)
        requires
            old(self).journey_bitmap.wf(),
            old(self).area_cache_ok(),
        ensures
            r as nat == old(self).journey_bitmap.cells().len(),
            final(self).journey_bitmap == old(self).journey_bitmap,
            final(self).changed == old(self).changed,
            final(self).provisioned_camera_option == old(self).provisioned_camera_option,
            final(self).current_area == Some(r),
            final(self).area_cache_ok(),
    {
        match self.current_area {
            Some(area) => area,
            None => {
                let area = journey_area_utils::compute_journey_bitmap_area(&self.journey_bitmap);
                self.current_area = Some(area);
                area
            },
        }
    }
}

/// Law: the changed flag is consumed exactly once per mutation. After any
/// mutation (every mutating path runs `reset`), the first read observes the
/// bitmap, the immediately following read observes nothing, and a further
/// mutation arms the flag again. Verified here for an arbitrary renderer
/// state.
pub fn changed_flag_single_consumption(mr: &mut MapRenderer)
    ensures
        final(mr).journey_bitmap == old(mr).journey_bitmap,
        final(mr).changed == false,
{
    mr.reset();
    let first = mr.get_latest_bitmap_if_changed();
    assert(first is Some);
    let second = mr.get_latest_bitmap_if_changed();
    assert(second is None);
    mr.reset();
    let third = mr.get_latest_bitmap_if_changed();
    assert(third is Some);
}

} // verus!
