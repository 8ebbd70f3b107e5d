use memolanes_core::codec::{from_wire, to_wire};
use memolanes_core::journey_bitmap::JourneyBitmap;
use memolanes_core::map_renderer::{changed_flag_single_consumption, CameraOption, MapRenderer};

#[test]
fn changed_flag_law_holds_on_a_live_renderer() {
    let mut jb = JourneyBitmap::new();
    let _ = jb.set(1, 2, 3, 4, 5, 6, true);
    let mut mr = MapRenderer::new(jb);
    changed_flag_single_consumption(&mut mr);
    assert!(!mr.changed());
    assert_eq!(mr.peek_latest_bitmap().get(1, 2, 3, 4, 5, 6), Ok(true));
}

#[test]
fn initial_state_is_changed_with_no_cached_area() {
    let mut mr = MapRenderer::new(JourneyBitmap::new());
    assert!(mr.changed());
    assert!(mr.get_latest_bitmap_if_changed().is_some());
    assert!(mr.get_latest_bitmap_if_changed().is_none());
}

#[test]
fn changed_flag_is_consumed_exactly_once_per_mutation() {
    let mut mr = MapRenderer::new(JourneyBitmap::new());
    let _ = mr.get_latest_bitmap_if_changed();
    mr.update(|b| {
        let mut nb = b.duplicate();
        let _ = nb.set(10, 10, 2, 2, 5, 5, true);
        nb
    });
    assert!(mr.changed());
    assert!(mr.get_latest_bitmap_if_changed().is_some());
    assert!(mr.get_latest_bitmap_if_changed().is_none());
    assert!(!mr.changed());
    mr.update(|b| b.duplicate());
    assert!(mr.get_latest_bitmap_if_changed().is_some());
    assert!(mr.get_latest_bitmap_if_changed().is_none());
}

#[test]
fn camera_option_is_stored_verbatim() {
    let mut mr = MapRenderer::new(JourneyBitmap::new());
    assert_eq!(mr.get_provisioned_camera_option(), None);
    let cam = CameraOption { lng_e7: -1234567890, lat_e7: 987654321, zoom_e2: 1250 };
    mr.set_provisioned_camera_option(Some(cam));
    assert_eq!(mr.get_provisioned_camera_option(), Some(cam));
    // pass-through state has no effect on the changed flag
    let _ = mr.get_latest_bitmap_if_changed();
    mr.set_provisioned_camera_option(None);
    assert!(!mr.changed());
    assert_eq!(mr.get_provisioned_camera_option(), None);
}

#[test]
fn area_is_cached_and_invalidated_by_mutation() {
    let mut mr = MapRenderer::new(JourneyBitmap::new());
    assert_eq!(mr.get_current_area(), 0);
    mr.update(|b| {
        let mut nb = b.duplicate();
        let _ = nb.set(10, 10, 2, 2, 5, 5, true);
        let _ = nb.set(10, 10, 2, 2, 6, 6, true);
        nb
    });
    assert_eq!(mr.get_current_area(), 2);
    assert_eq!(mr.get_current_area(), 2);
    mr.update(|b| {
        let mut nb = b.duplicate();
        let _ = nb.set(10, 10, 2, 2, 6, 6, false);
        nb
    });
    assert_eq!(mr.get_current_area(), 1);
}

#[test]
fn replace_swaps_the_bitmap_and_invalidates() {
    let mut mr = MapRenderer::new(JourneyBitmap::new());
    let _ = mr.get_latest_bitmap_if_changed();
    let mut other = JourneyBitmap::new();
    let _ = other.set(1, 1, 1, 1, 1, 1, true);
    mr.replace(other);
    assert!(mr.changed());
    assert_eq!(mr.get_current_area(), 1);
    assert_eq!(mr.peek_latest_bitmap().get(1, 1, 1, 1, 1, 1), Ok(true));
}

#[test]
fn scenario_single_cell() {
    // set bit (5, 5) inside block (2, 2) of tile (10, 10)
    let mut mr = MapRenderer::new(JourneyBitmap::new());
    mr.update(|b| {
        let mut nb = b.duplicate();
        let _ = nb.set(10, 10, 2, 2, 5, 5, true);
        nb
    });
    assert_eq!(mr.get_current_area(), 1);
    {
        let seen = mr.peek_latest_bitmap();
        assert_eq!(seen.tiles.len(), 1);
        assert_eq!(seen.tiles[0].blocks.len(), 1);
        assert_eq!(seen.tiles[0].blocks[0].count_cells(), 1);
        assert_eq!(seen.get(10, 10, 2, 2, 5, 5), Ok(true));
        let back = from_wire(&to_wire(seen)).unwrap();
        assert_eq!(back.get(10, 10, 2, 2, 5, 5), Ok(true));
        assert_eq!(back.count_cells(), 1);
    }
    assert!(mr.get_latest_bitmap_if_changed().is_some());
    assert!(mr.get_latest_bitmap_if_changed().is_none());
}

#[test]
fn scenario_clearing_the_only_bit() {
    let mut mr = MapRenderer::new(JourneyBitmap::new());
    mr.update(|b| {
        let mut nb = b.duplicate();
        let _ = nb.set(10, 10, 2, 2, 5, 5, true);
        nb
    });
    mr.update(|b| {
        let mut nb = b.duplicate();
        let _ = nb.set(10, 10, 2, 2, 5, 5, false);
        nb
    });
    let seen = mr.peek_latest_bitmap();
    assert_eq!(seen.tiles.len(), 0);
    assert!(seen.is_empty());
    assert_eq!(mr.get_current_area(), 0);
}
