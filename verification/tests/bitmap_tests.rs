use memolanes_core::journey_bitmap::{Block, BitmapError, JourneyBitmap, Tile};

#[test]
fn block_new_with_data_rejects_wrong_length() {
    assert_eq!(
        Block::new_with_data(0, 0, vec![0u8; 511]).err(),
        Some(BitmapError::InvalidPayloadLength)
    );
    assert_eq!(
        Block::new_with_data(0, 0, vec![0u8; 513]).err(),
        Some(BitmapError::InvalidPayloadLength)
    );
    assert!(Block::new_with_data(0, 0, vec![0u8; 512]).is_ok());
}

#[test]
fn block_bit_packing_is_lsb_first() {
    // bit b of byte i is cell index i * 8 + b
    let mut payload = vec![0u8; 512];
    payload[0] = 0b0000_0010; // cell index 1 -> (cx, cy) = (1, 0)
    let idx_5_5 = 5 * 64 + 5; // (cx, cy) = (5, 5)
    payload[idx_5_5 / 8] |= 1 << (idx_5_5 % 8);
    let b = Block::new_with_data(3, 4, payload).unwrap();
    assert_eq!(b.get(1, 0), Ok(true));
    assert_eq!(b.get(0, 0), Ok(false));
    assert_eq!(b.get(5, 5), Ok(true));
    assert_eq!(b.get(5, 6), Ok(false));
    assert_eq!(b.count_cells(), 2);
}

#[test]
fn block_bounds_fail_hard() {
    let mut b = Block::new(0, 0);
    assert_eq!(b.get(64, 0), Err(BitmapError::OutOfBounds));
    assert_eq!(b.get(0, 64), Err(BitmapError::OutOfBounds));
    assert_eq!(b.set(64, 0, true), Err(BitmapError::OutOfBounds));
    assert!(b.is_empty());
}

#[test]
fn block_set_clear_and_emptiness() {
    let mut b = Block::new(7, 7);
    assert!(b.is_empty());
    assert_eq!(b.set(63, 63, true), Ok(()));
    assert!(!b.is_empty());
    assert_eq!(b.get(63, 63), Ok(true));
    assert_eq!(b.set(63, 63, false), Ok(()));
    assert!(b.is_empty());
}

#[test]
fn block_merge_reports_new_bits() {
    let mut a = Block::new(1, 2);
    let mut b = Block::new(1, 2);
    let _ = b.set(10, 20, true);
    assert!(a.merge(&b));
    assert_eq!(a.get(10, 20), Ok(true));
    // merging the same content again sets nothing new
    assert!(!a.merge(&b));
    let empty = Block::new(1, 2);
    assert!(!a.merge(&empty));
}

#[test]
fn tile_set_get_and_prune() {
    let mut t = Tile::new(100, 200);
    assert!(t.is_empty());
    assert_eq!(t.set(2, 2, 5, 5, true), Ok(()));
    assert!(!t.is_empty());
    assert_eq!(t.get(2, 2, 5, 5), Ok(true));
    assert_eq!(t.get(2, 2, 5, 6), Ok(false));
    assert_eq!(t.get(3, 2, 5, 5), Ok(false));
    assert_eq!(t.count_cells(), 1);
    // clearing the only bit prunes the block
    assert_eq!(t.set(2, 2, 5, 5, false), Ok(()));
    assert!(t.is_empty());
    assert_eq!(t.blocks.len(), 0);
}

#[test]
fn tile_bounds_fail_hard() {
    let mut t = Tile::new(0, 0);
    assert_eq!(t.get(128, 0, 0, 0), Err(BitmapError::OutOfBounds));
    assert_eq!(t.set(0, 128, 0, 0, true), Err(BitmapError::OutOfBounds));
    assert_eq!(t.set(0, 0, 64, 0, true), Err(BitmapError::OutOfBounds));
}

#[test]
fn journey_bitmap_set_get() {
    let mut jb = JourneyBitmap::new();
    assert!(jb.is_empty());
    assert_eq!(jb.set(10, 10, 2, 2, 5, 5, true), Ok(()));
    assert_eq!(jb.get(10, 10, 2, 2, 5, 5), Ok(true));
    assert_eq!(jb.get(10, 10, 2, 2, 5, 6), Ok(false));
    assert_eq!(jb.get(10, 11, 2, 2, 5, 5), Ok(false));
    assert_eq!(jb.set(512, 0, 0, 0, 0, 0, true), Err(BitmapError::OutOfBounds));
    assert_eq!(jb.get(0, 0, 0, 0, 0, 64), Err(BitmapError::OutOfBounds));
    assert_eq!(jb.count_cells(), 1);
}

#[test]
fn journey_bitmap_clear_prunes_block_and_tile() {
    let mut jb = JourneyBitmap::new();
    assert_eq!(jb.set(10, 10, 2, 2, 5, 5, true), Ok(()));
    assert_eq!(jb.tiles.len(), 1);
    assert_eq!(jb.set(10, 10, 2, 2, 5, 5, false), Ok(()));
    assert_eq!(jb.tiles.len(), 0);
    assert!(jb.is_empty());
    assert_eq!(jb.count_cells(), 0);
}

#[test]
fn clearing_absent_cell_is_a_no_op() {
    let mut jb = JourneyBitmap::new();
    assert_eq!(jb.set(1, 1, 1, 1, 1, 1, false), Ok(()));
    assert!(jb.is_empty());
}

fn sample_a() -> JourneyBitmap {
    let mut a = JourneyBitmap::new();
    let _ = a.set(10, 10, 2, 2, 5, 5, true);
    let _ = a.set(10, 10, 2, 2, 6, 6, true);
    let _ = a.set(200, 300, 0, 0, 0, 0, true);
    a
}

fn sample_b() -> JourneyBitmap {
    let mut b = JourneyBitmap::new();
    let _ = b.set(10, 10, 2, 2, 5, 5, true);
    let _ = b.set(10, 10, 3, 3, 1, 1, true);
    let _ = b.set(511, 511, 127, 127, 63, 63, true);
    b
}

fn same_coverage(x: &JourneyBitmap, y: &JourneyBitmap) -> bool {
    let probes = [
        (10u16, 10u16, 2u8, 2u8, 5u8, 5u8),
        (10, 10, 2, 2, 6, 6),
        (10, 10, 3, 3, 1, 1),
        (200, 300, 0, 0, 0, 0),
        (511, 511, 127, 127, 63, 63),
        (0, 0, 0, 0, 0, 0),
    ];
    if x.count_cells() != y.count_cells() {
        return false;
    }
    probes
        .iter()
        .all(|&(tx, ty, bx, by, cx, cy)| x.get(tx, ty, bx, by, cx, cy) == y.get(tx, ty, bx, by, cx, cy))
}

#[test]
fn merge_is_commutative() {
    let mut ab = sample_a();
    ab.merge(&sample_b());
    let mut ba = sample_b();
    ba.merge(&sample_a());
    assert!(same_coverage(&ab, &ba));
    assert_eq!(ab.count_cells(), 5);
}

#[test]
fn merge_is_associative() {
    let mut c = JourneyBitmap::new();
    let _ = c.set(5, 5, 5, 5, 5, 5, true);
    let mut left = sample_a();
    left.merge(&sample_b());
    left.merge(&c);
    let mut bc = sample_b();
    bc.merge(&c);
    let mut right = sample_a();
    right.merge(&bc);
    assert!(same_coverage(&left, &right));
}

#[test]
fn merge_is_idempotent() {
    let mut a = sample_a();
    let a0 = a.duplicate();
    a.merge(&a0);
    assert!(same_coverage(&a, &a0));
}

#[test]
fn merge_with_empty_is_a_no_op() {
    let mut a = sample_a();
    let a0 = a.duplicate();
    a.merge(&JourneyBitmap::new());
    assert!(same_coverage(&a, &a0));
    let mut e = JourneyBitmap::new();
    e.merge(&a0);
    assert!(same_coverage(&e, &a0));
}

#[test]
fn area_is_monotonic_under_merge() {
    let a = sample_a();
    let b = sample_b();
    let area_a = a.count_cells();
    let area_b = b.count_cells();
    let mut m = a.duplicate();
    m.merge(&b);
    let area_m = m.count_cells();
    assert!(area_m >= area_a);
    assert!(area_m >= area_b);
    assert_eq!(area_a, 3);
    assert_eq!(area_b, 3);
    assert_eq!(area_m, 5);
}
