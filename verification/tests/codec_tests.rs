use memolanes_core::codec::{from_wire, round_trip, to_wire, CodecError, WireBlock, WireForm, WireTile};

#[test]
fn round_trip_preserves_every_probed_cell() {
    let mut jb = JourneyBitmap::new();
    let _ = jb.set(10, 10, 2, 2, 5, 5, true);
    let _ = jb.set(10, 10, 2, 3, 0, 1, true);
    let _ = jb.set(0, 511, 64, 0, 32, 16, true);
    let back = round_trip(&jb);
    assert_eq!(back.count_cells(), 3);
    assert_eq!(back.get(10, 10, 2, 2, 5, 5), Ok(true));
    assert_eq!(back.get(10, 10, 2, 3, 0, 1), Ok(true));
    assert_eq!(back.get(0, 511, 64, 0, 32, 16), Ok(true));
    assert_eq!(back.get(0, 511, 64, 0, 32, 17), Ok(false));
}
use memolanes_core::journey_area_utils::compute_journey_bitmap_area;
use memolanes_core::journey_bitmap::JourneyBitmap;

#[test]
fn round_trip_empty() {
    let jb = JourneyBitmap::new();
    let w = to_wire(&jb);
    assert_eq!(w.tiles.len(), 0);
    let back = from_wire(&w).unwrap();
    assert!(back.is_empty());
}

#[test]
fn round_trip_single_cell() {
    let mut jb = JourneyBitmap::new();
    let _ = jb.set(10, 10, 2, 2, 5, 5, true);
    let w = to_wire(&jb);
    assert_eq!(w.tiles.len(), 1);
    assert_eq!(w.tiles[0].blocks.len(), 1);
    assert_eq!(w.tiles[0].blocks[0].payload.len(), 512);
    let back = from_wire(&w).unwrap();
    assert_eq!(back.get(10, 10, 2, 2, 5, 5), Ok(true));
    assert_eq!(back.get(10, 10, 2, 2, 5, 6), Ok(false));
    assert_eq!(back.count_cells(), 1);
}

#[test]
fn round_trip_many() {
    let mut jb = JourneyBitmap::new();
    let bits = [
        (0u16, 0u16, 0u8, 0u8, 0u8, 0u8),
        (0, 0, 0, 0, 63, 63),
        (0, 0, 127, 127, 1, 2),
        (3, 4, 5, 6, 7, 8),
        (511, 511, 127, 127, 63, 63),
        (42, 42, 42, 42, 42, 42),
    ];
    for &(tx, ty, bx, by, cx, cy) in bits.iter() {
        assert_eq!(jb.set(tx, ty, bx, by, cx, cy, true), Ok(()));
    }
    let w = to_wire(&jb);
    assert_eq!(w.tiles.len(), 4);
    let back = from_wire(&w).unwrap();
    for &(tx, ty, bx, by, cx, cy) in bits.iter() {
        assert_eq!(back.get(tx, ty, bx, by, cx, cy), Ok(true));
    }
    assert_eq!(back.get(3, 4, 5, 6, 7, 9), Ok(false));
    assert_eq!(back.count_cells(), jb.count_cells());
    assert_eq!(back.count_cells(), 6);
}

#[test]
fn decode_rejects_corrupt_payload() {
    let w = WireForm {
        tiles: vec![WireTile {
            x: 0,
            y: 0,
            blocks: vec![WireBlock { x: 0, y: 0, payload: vec![0u8; 511] }],
        }],
    };
    assert_eq!(from_wire(&w).err(), Some(CodecError::CorruptPayload));
}

#[test]
fn decode_rejects_duplicate_tile() {
    let w = WireForm {
        tiles: vec![
            WireTile { x: 1, y: 2, blocks: vec![] },
            WireTile { x: 1, y: 2, blocks: vec![] },
        ],
    };
    assert_eq!(from_wire(&w).err(), Some(CodecError::DuplicateKey));
}

#[test]
fn decode_rejects_duplicate_block() {
    let w = WireForm {
        tiles: vec![WireTile {
            x: 1,
            y: 2,
            blocks: vec![
                WireBlock { x: 3, y: 4, payload: vec![0u8; 512] },
                WireBlock { x: 3, y: 4, payload: vec![0u8; 512] },
            ],
        }],
    };
    assert_eq!(from_wire(&w).err(), Some(CodecError::DuplicateKey));
}

#[test]
fn decode_rejects_out_of_range_coordinates() {
    let w = WireForm { tiles: vec![WireTile { x: 512, y: 0, blocks: vec![] }] };
    assert_eq!(from_wire(&w).err(), Some(CodecError::OutOfBounds));
    let w2 = WireForm {
        tiles: vec![WireTile {
            x: 0,
            y: 0,
            blocks: vec![WireBlock { x: 128, y: 0, payload: vec![0u8; 512] }],
        }],
    };
    assert_eq!(from_wire(&w2).err(), Some(CodecError::OutOfBounds));
}

#[test]
fn decode_error_precedence_payload_first() {
    // both a corrupt payload and a duplicate key: the payload error wins
    let w = WireForm {
        tiles: vec![
            WireTile { x: 1, y: 1, blocks: vec![WireBlock { x: 0, y: 0, payload: vec![] }] },
            WireTile { x: 1, y: 1, blocks: vec![] },
        ],
    };
    assert_eq!(from_wire(&w).err(), Some(CodecError::CorruptPayload));
}

#[test]
fn decode_prunes_all_zero_blocks_and_empty_tiles() {
    let w = WireForm {
        tiles: vec![WireTile {
            x: 9,
            y: 9,
            blocks: vec![WireBlock { x: 1, y: 1, payload: vec![0u8; 512] }],
        }],
    };
    let back = from_wire(&w).unwrap();
    assert!(back.is_empty());
    assert_eq!(back.tiles.len(), 0);
    assert_eq!(compute_journey_bitmap_area(&back), 0);
}

#[test]
fn decode_reads_payload_bits_verbatim() {
    let mut payload = vec![0u8; 512];
    payload[0] = 0b0000_0001; // cell (0, 0)
    let idx = 7 * 64 + 3; // cell (3, 7)
    payload[idx / 8] |= 1 << (idx % 8);
    let w = WireForm {
        tiles: vec![WireTile { x: 1, y: 2, blocks: vec![WireBlock { x: 3, y: 4, payload }] }],
    };
    let back = from_wire(&w).unwrap();
    assert_eq!(back.get(1, 2, 3, 4, 0, 0), Ok(true));
    assert_eq!(back.get(1, 2, 3, 4, 3, 7), Ok(true));
    assert_eq!(back.get(1, 2, 3, 4, 3, 6), Ok(false));
    assert_eq!(back.count_cells(), 2);
}
