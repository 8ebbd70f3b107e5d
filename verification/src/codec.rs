//! Wire codec: a flat, fixed-schema form of the coverage structure.
//!
//! The wire form is an ordered list of tile entries, each carrying its
//! coordinate and an ordered list of block entries, each carrying its
//! coordinate and the 512-byte packed payload verbatim. Field order in the
//! wire form is not semantically significant: decoding recovers exactly the
//! covered cells. Compression of the encoded bytes is a byte-level
//! transform applied outside this structural step and never alters it.

use vstd::prelude::*;
use vstd::arithmetic::div_mod::lemma_fundamental_div_mod;
use crate::journey_bitmap::{
    JourneyBitmap, bit_of, cells_of, cells_below, block_key, tile_key, block_span, tile_span,
    map_cell_id, cell_index,
};

verus! {

/// Wire-decode failures.
#[derive(Clone, Copy, Debug, PartialEq, Eq, Structural)]
pub enum CodecError {
    /// A block payload length differs from the fixed block size.
    CorruptPayload,
    /// A tile or block coordinate exceeds the fixed grid dimensions.
    OutOfBounds,
    /// Two tiles or two blocks in one tile share a coordinate.
    DuplicateKey,
}

/// A block entry: coordinate and packed payload, verbatim.
pub struct WireBlock {
    pub x: u8,
    pub y: u8,
    pub payload: Vec<u8>,
}

/// A tile entry: coordinate and its block entries.
pub struct WireTile {
    pub x: u16,
    pub y: u16,
    pub blocks: Vec<WireBlock>,
}

/// The flat serializable form of a whole map.
pub struct WireForm {
    pub tiles: Vec<WireTile>,
}

/// A set of block-local cell indices placed at a block key's id range.
pub open spec fn block_shift(bkey: int, s: Set<int>) -> Set<int> {
    Set::new(|id: int| bkey * 4096 <= id < bkey * 4096 + 4096 && s.contains(id - bkey * 4096))
}

/// A set of tile-local cell ids placed at a tile key's id range.
pub open spec fn tile_shift(tkey: int, s: Set<int>) -> Set<int> {
    Set::new(
        |id: int|
            tkey * 67108864 <= id < tkey * 67108864 + 67108864 && s.contains(
                id - tkey * 67108864,
            ),
    )
}

/// The tile-local cell ids covered by one block entry.
pub open spec fn wire_block_span(wb: WireBlock) -> Set<int> {
    block_shift(block_key(wb.x as int, wb.y as int), cells_of(wb.payload@))
}

/// The tile-local cell ids covered by the first `n` block entries.
pub open spec fn wire_blocks_prefix_cells(blocks: Seq<WireBlock>, n: int) -> Set<int> {
    Set::new(
        |id: int| exists|j: int| 0 <= j < n && #[trigger] wire_block_span(blocks[j]).contains(id),
    )
}

/// The tile-local cell ids covered by one tile entry.
pub open spec fn wire_tile_cells(wt: WireTile) -> Set<int> {
    wire_blocks_prefix_cells(wt.blocks@, wt.blocks@.len() as int)
}

/// The map-global cell ids covered by one tile entry.
pub open spec fn wire_tile_span(wt: WireTile) -> Set<int> {
    tile_shift(tile_key(wt.x as int, wt.y as int), wire_tile_cells(wt))
}

/// The map-global cell ids covered by the first `n` tile entries.
pub open spec fn wire_tiles_prefix_cells(tiles: Seq<WireTile>, n: int) -> Set<int> {
    Set::new(
        |id: int| exists|j: int| 0 <= j < n && #[trigger] wire_tile_span(tiles[j]).contains(id),
    )
}

/// The map-global cell ids covered by a wire form.
pub open spec fn wire_cells(w: WireForm) -> Set<int> {
    wire_tiles_prefix_cells(w.tiles@, w.tiles@.len() as int)
}

/// Every block payload has exactly the fixed block size.
pub open spec fn wire_payloads_ok(w: WireForm) -> bool {
    forall|i: int, j: int|
        0 <= i < w.tiles@.len() && 0 <= j < w.tiles@[i].blocks@.len() ==> (
        #[trigger] w.tiles@[i].blocks@[j]).payload@.len() == 512
}

/// Every tile and block coordinate is inside the fixed grid dimensions.
pub open spec fn wire_coords_ok(w: WireForm) -> bool {
    &&& forall|i: int|
        0 <= i < w.tiles@.len() ==> (#[trigger] w.tiles@[i]).x < 512 && w.tiles@[i].y < 512
    &&& forall|i: int, j: int|
        0 <= i < w.tiles@.len() && 0 <= j < w.tiles@[i].blocks@.len() ==> (
        #[trigger] w.tiles@[i].blocks@[j]).x < 128 && w.tiles@[i].blocks@[j].y < 128
}

/// No two tile entries, and no two block entries of one tile, share a
/// coordinate.
pub open spec fn wire_no_dup(w: WireForm) -> bool {
    &&& forall|i1: int, i2: int|
        0 <= i1 < i2 < w.tiles@.len() ==> !((#[trigger] w.tiles@[i1]).x == (
        #[trigger] w.tiles@[i2]).x && w.tiles@[i1].y == w.tiles@[i2].y)
    &&& forall|i: int, j1: int, j2: int|
        0 <= i < w.tiles@.len() && 0 <= j1 < j2 < w.tiles@[i].blocks@.len() ==> !((
        #[trigger] w.tiles@[i].blocks@[j1]).x == (#[trigger] w.tiles@[i].blocks@[j2]).x
            && w.tiles@[i].blocks@[j1].y == w.tiles@[i].blocks@[j2].y)
}

/// Encodes the structure into its flat wire form: one entry per tile, one
/// per block, coordinates and payload bytes verbatim, in traversal order.
pub fn to_wire(journey_bitmap: &JourneyBitmap) -> (r: WireForm)
    requires
        journey_bitmap.wf(),
    ensures
        wire_payloads_ok(r),
        wire_coords_ok(r),
        wire_no_dup(r),
        r.tiles@.len() == journey_bitmap.tiles@.len(),
        forall|i: int|
            0 <= i < r.tiles@.len() ==> (#[trigger] r.tiles@[i]).x == journey_bitmap.tiles@[i].x
                && r.tiles@[i].y == journey_bitmap.tiles@[i].y && r.tiles@[i].blocks@.len()
                == journey_bitmap.tiles@[i].blocks@.len() && (forall|j: int|
                0 <= j < r.tiles@[i].blocks@.len() ==> (#[trigger] r.tiles@[i].blocks@[j]).x
                    == journey_bitmap.tiles@[i].blocks@[j].x && r.tiles@[i].blocks@[j].y
                    == journey_bitmap.tiles@[i].blocks@[j].y && r.tiles@[i].blocks@[j].payload@
                    == journey_bitmap.tiles@[i].blocks@[j].data@),
        wire_cells(r) == journey_bitmap.cells(),
{
    let mut tiles: Vec<WireTile> = Vec::new();
    let n = journey_bitmap.tiles.len();
    for i in 0..n
        invariant
            journey_bitmap.wf(),
            n == journey_bitmap.tiles@.len(),
            tiles@.len() == i,
            forall|a: int|
                0 <= a < i ==> (#[trigger] tiles@[a]).x == journey_bitmap.tiles@[a].x
                    && tiles@[a].y == journey_bitmap.tiles@[a].y && tiles@[a].blocks@.len()
                    == journey_bitmap.tiles@[a].blocks@.len() && (forall|j: int|
                    0 <= j < tiles@[a].blocks@.len() ==> (#[trigger] tiles@[a].blocks@[j]).x
                        == journey_bitmap.tiles@[a].blocks@[j].x && tiles@[a].blocks@[j].y
                        == journey_bitmap.tiles@[a].blocks@[j].y && tiles@[a].blocks@[j].payload@
                        == journey_bitmap.tiles@[a].blocks@[j].data@),
    {
        let mut blocks: Vec<WireBlock> = Vec::new();
        let bn = journey_bitmap.tiles[i].blocks.len();
        for j in 0..bn
            invariant
                journey_bitmap.wf(),
                n == journey_bitmap.tiles@.len(),
                i < n,
                bn == journey_bitmap.tiles@[i as int].blocks@.len(),
                blocks@.len() == j,
                forall|b: int|
                    0 <= b < j ==> (#[trigger] blocks@[b]).x
                        == journey_bitmap.tiles@[i as int].blocks@[b].x && blocks@[b].y
                        == journey_bitmap.tiles@[i as int].blocks@[b].y && blocks@[b].payload@
                        == journey_bitmap.tiles@[i as int].blocks@[b].data@,
        {
            let src = journey_bitmap.tiles[i].blocks[j].duplicate();
            blocks.push(WireBlock { x: src.x, y: src.y, payload: src.data });
        }
        let tx = journey_bitmap.tiles[i].x;
        let ty = journey_bitmap.tiles[i].y;
        tiles.push(WireTile { x: tx, y: ty, blocks });
    }
    let w = WireForm { tiles };
    proof {
        assert forall|i: int| 0 <= i < w.tiles@.len() implies wire_tile_span(w.tiles@[i])
            == tile_span(journey_bitmap.tiles@[i]) by {
            let wt = w.tiles@[i];
            let t = journey_bitmap.tiles@[i];
            assert forall|lid: int| #![all_triggers] true implies (wire_tile_cells(wt).contains(
                lid,
            ) <==> t.cells().contains(lid)) by {
                if wire_tile_cells(wt).contains(lid) {
                    let j = choose|j: int|
                        0 <= j < wt.blocks@.len() && #[trigger] wire_block_span(
                            wt.blocks@[j],
                        ).contains(lid);
                    assert(block_span(t.blocks@[j]).contains(lid));
                }
                if t.cells().contains(lid) {
                    let j = choose|j: int|
                        0 <= j < t.blocks@.len() && #[trigger] block_span(t.blocks@[j]).contains(
                            lid,
                        );
                    assert(wire_block_span(wt.blocks@[j]).contains(lid));
                }
            }
            assert(wire_tile_cells(wt) =~= t.cells());
            assert(wire_tile_span(wt) =~= tile_span(t));
        }
        assert forall|id: int| #![all_triggers] true implies (wire_cells(w).contains(id)
            <==> journey_bitmap.cells().contains(id)) by {
            if wire_cells(w).contains(id) {
                let i = choose|i: int|
                    0 <= i < w.tiles@.len() && #[trigger] wire_tile_span(w.tiles@[i]).contains(id);
                assert(tile_span(journey_bitmap.tiles@[i]).contains(id));
            }
            if journey_bitmap.cells().contains(id) {
                let i = choose|i: int|
                    0 <= i < journey_bitmap.tiles@.len() && #[trigger] tile_span(
                        journey_bitmap.tiles@[i],
                    ).contains(id);
                assert(wire_tile_span(w.tiles@[i]).contains(id));
            }
        }
        assert(wire_cells(w) =~= journey_bitmap.cells());
    }
    w
}

/// Decodes a wire form back into the structure. Fails with
/// `CorruptPayload` if any payload length differs from the fixed block
/// size; else with `OutOfBounds` if any coordinate exceeds the grid; else
/// with `DuplicateKey` if two tiles or two blocks of one tile share a
/// coordinate. On success the result covers exactly the wire form's cells,
/// with all-zero blocks and empty tiles pruned.
pub fn from_wire(w: &WireForm) -> (r: Result<JourneyBitmap, CodecError>)
    ensures
        !wire_payloads_ok(*w) ==> r == Err::<JourneyBitmap, CodecError>(CodecError::CorruptPayload),
        wire_payloads_ok(*w) && !wire_coords_ok(*w) ==> r == Err::<JourneyBitmap, CodecError>(
            CodecError::OutOfBounds,
        ),
        wire_payloads_ok(*w) && wire_coords_ok(*w) && !wire_no_dup(*w) ==> r == Err::<
            JourneyBitmap,
            CodecError,
        >(CodecError::DuplicateKey),
        wire_payloads_ok(*w) && wire_coords_ok(*w) && wire_no_dup(*w) ==> (r matches Ok(b)
            && b.wf() && b.pruned() && b.cells() == wire_cells(*w)),
{
    let n = w.tiles.len();
    // payload lengths
    for i in 0..n
        invariant
            n == w.tiles@.len(),
            forall|a: int, j: int|
                0 <= a < i && 0 <= j < w.tiles@[a].blocks@.len() ==> (
                #[trigger] w.tiles@[a].blocks@[j]).payload@.len() == 512,
    {
        let bn = w.tiles[i].blocks.len();
        for j in 0..bn
            invariant
                n == w.tiles@.len(),
                i < n,
                bn == w.tiles@[i as int].blocks@.len(),
                forall|a: int, j2: int|
                    0 <= a < i && 0 <= j2 < w.tiles@[a].blocks@.len() ==> (
                    #[trigger] w.tiles@[a].blocks@[j2]).payload@.len() == 512,
                forall|j2: int|
                    0 <= j2 < j ==> (#[trigger] w.tiles@[i as int].blocks@[j2]).payload@.len()
                        == 512,
        {
            if w.tiles[i].blocks[j].payload.len() != 512 {
                return Err(CodecError::CorruptPayload);
            }
        }
    }
    assert(wire_payloads_ok(*w));
    // coordinate bounds
    for i in 0..n
        invariant
            n == w.tiles@.len(),
            wire_payloads_ok(*w),
            forall|a: int|
                0 <= a < i ==> (#[trigger] w.tiles@[a]).x < 512 && w.tiles@[a].y < 512,
            forall|a: int, j: int|
                0 <= a < i && 0 <= j < w.tiles@[a].blocks@.len() ==> (
                #[trigger] w.tiles@[a].blocks@[j]).x < 128 && w.tiles@[a].blocks@[j].y < 128,
    {
        if !(w.tiles[i].x < 512 && w.tiles[i].y < 512) {
            return Err(CodecError::OutOfBounds);
        }
        let bn = w.tiles[i].blocks.len();
        for j in 0..bn
            invariant
                n == w.tiles@.len(),
                wire_payloads_ok(*w),
                i < n,
                bn == w.tiles@[i as int].blocks@.len(),
                forall|a: int|
                    0 <= a < i ==> (#[trigger] w.tiles@[a]).x < 512 && w.tiles@[a].y < 512,
                forall|a: int, j2: int|
                    0 <= a < i && 0 <= j2 < w.tiles@[a].blocks@.len() ==> (
                    #[trigger] w.tiles@[a].blocks@[j2]).x < 128 && w.tiles@[a].blocks@[j2].y
                        < 128,
                forall|j2: int|
                    0 <= j2 < j ==> (#[trigger] w.tiles@[i as int].blocks@[j2]).x < 128
                        && w.tiles@[i as int].blocks@[j2].y < 128,
        {
            if !(w.tiles[i].blocks[j].x < 128 && w.tiles[i].blocks[j].y < 128) {
                return Err(CodecError::OutOfBounds);
            }
        }
    }
    assert(wire_coords_ok(*w));
    // duplicate keys
    for i1 in 0..n
        invariant
            n == w.tiles@.len(),
            wire_payloads_ok(*w),
            wire_coords_ok(*w),
            forall|a: int, b: int|
                0 <= a < b < i1 + 1 && b < i1 ==> !((#[trigger] w.tiles@[a]).x == (
                #[trigger] w.tiles@[b]).x && w.tiles@[a].y == w.tiles@[b].y),
            forall|a: int, j1: int, j2: int|
                0 <= a < i1 && 0 <= j1 < j2 < w.tiles@[a].blocks@.len() ==> !((
                #[trigger] w.tiles@[a].blocks@[j1]).x == (#[trigger] w.tiles@[a].blocks@[j2]).x
                    && w.tiles@[a].blocks@[j1].y == w.tiles@[a].blocks@[j2].y),
    {
        for i2 in 0..i1
            invariant
                n == w.tiles@.len(),
                i1 < n,
                wire_payloads_ok(*w),
                wire_coords_ok(*w),
                forall|a: int|
                    0 <= a < i2 ==> !((#[trigger] w.tiles@[a]).x == w.tiles@[i1 as int].x
                        && w.tiles@[a].y == w.tiles@[i1 as int].y),
        {
            if w.tiles[i2].x == w.tiles[i1].x && w.tiles[i2].y == w.tiles[i1].y {
                return Err(CodecError::DuplicateKey);
            }
        }
        let bn = w.tiles[i1].blocks.len();
        for j1 in 0..bn
            invariant
                n == w.tiles@.len(),
                i1 < n,
                bn == w.tiles@[i1 as int].blocks@.len(),
                wire_payloads_ok(*w),
                wire_coords_ok(*w),
                forall|j3: int, j4: int|
                    0 <= j3 < j4 < j1 + 1 && j4 < j1 ==> !((
                    #[trigger] w.tiles@[i1 as int].blocks@[j3]).x == (
                    #[trigger] w.tiles@[i1 as int].blocks@[j4]).x
                        && w.tiles@[i1 as int].blocks@[j3].y == w.tiles@[i1 as int].blocks@[j4].y),
        {
            for j2 in 0..j1
                invariant
                    n == w.tiles@.len(),
                    i1 < n,
                    j1 < bn,
                    bn == w.tiles@[i1 as int].blocks@.len(),
                    wire_payloads_ok(*w),
                    wire_coords_ok(*w),
                    forall|j3: int|
                        0 <= j3 < j2 ==> !((#[trigger] w.tiles@[i1 as int].blocks@[j3]).x
                            == w.tiles@[i1 as int].blocks@[j1 as int].x
                            && w.tiles@[i1 as int].blocks@[j3].y
                            == w.tiles@[i1 as int].blocks@[j1 as int].y),
            {
                if w.tiles[i1].blocks[j2].x == w.tiles[i1].blocks[j1].x && w.tiles[i1].blocks[j2].y
                    == w.tiles[i1].blocks[j1].y {
                    return Err(CodecError::DuplicateKey);
                }
            }
        }
    }
    assert(wire_no_dup(*w));
    // construction
    let mut jb = JourneyBitmap::new();
    proof {
        assert(jb.cells() =~= wire_tiles_prefix_cells(w.tiles@, 0));
    }
    for i in 0..n
        invariant
            n == w.tiles@.len(),
            wire_payloads_ok(*w),
            wire_coords_ok(*w),
            jb.wf(),
            jb.pruned(),
            jb.cells() == wire_tiles_prefix_cells(w.tiles@, i as int),
    {
        let tx = w.tiles[i].x;
        let ty = w.tiles[i].y;
        let ghost tkey = tile_key(tx as int, ty as int);
        let bn = w.tiles[i].blocks.len();
        proof {
            assert(tile_shift(tkey, wire_blocks_prefix_cells(w.tiles@[i as int].blocks@, 0))
                =~= Set::<int>::empty());
            assert(jb.cells() =~= wire_tiles_prefix_cells(w.tiles@, i as int).union(
                tile_shift(tkey, wire_blocks_prefix_cells(w.tiles@[i as int].blocks@, 0)),
            ));
        }
        for j in 0..bn
            invariant
                n == w.tiles@.len(),
                wire_payloads_ok(*w),
                wire_coords_ok(*w),
                i < n,
                bn == w.tiles@[i as int].blocks@.len(),
                tx == w.tiles@[i as int].x,
                ty == w.tiles@[i as int].y,
                tkey == tile_key(tx as int, ty as int),
                jb.wf(),
                jb.pruned(),
                jb.cells() == wire_tiles_prefix_cells(w.tiles@, i as int).union(
                    tile_shift(
                        tkey,
                        wire_blocks_prefix_cells(w.tiles@[i as int].blocks@, j as int),
                    ),
                ),
        {
            let bx = w.tiles[i].blocks[j].x;
            let by = w.tiles[i].blocks[j].y;
            let ghost bkey = block_key(bx as int, by as int);
            let ghost wb = w.tiles@[i as int].blocks@[j as int];
            let ghost payload = wb.payload@;
            proof {
                assert(cells_below(payload, 0) =~= Set::<int>::empty());
                assert(block_shift(bkey, cells_below(payload, 0)) =~= Set::<int>::empty());
                assert(wire_blocks_prefix_cells(w.tiles@[i as int].blocks@, j as int).union(
                    block_shift(bkey, cells_below(payload, 0)),
                ) =~= wire_blocks_prefix_cells(w.tiles@[i as int].blocks@, j as int));
            }
            for ci in 0..4096usize
                invariant
                    n == w.tiles@.len(),
                    wire_payloads_ok(*w),
                    wire_coords_ok(*w),
                    i < n,
                    j < bn,
                    bn == w.tiles@[i as int].blocks@.len(),
                    tx == w.tiles@[i as int].x,
                    ty == w.tiles@[i as int].y,
                    bx == w.tiles@[i as int].blocks@[j as int].x,
                    by == w.tiles@[i as int].blocks@[j as int].y,
                    tkey == tile_key(tx as int, ty as int),
                    bkey == block_key(bx as int, by as int),
                    wb == w.tiles@[i as int].blocks@[j as int],
                    payload == wb.payload@,
                    jb.wf(),
                    jb.pruned(),
                    jb.cells() == wire_tiles_prefix_cells(w.tiles@, i as int).union(
                        tile_shift(
                            tkey,
                            wire_blocks_prefix_cells(
                                w.tiles@[i as int].blocks@,
                                j as int,
                            ).union(block_shift(bkey, cells_below(payload, ci as int))),
                        ),
                    ),
            {
                let byte: u8 = w.tiles[i].blocks[j].payload[ci / 8];
                let ghost pre_cells = jb.cells();
                if (byte >> ((ci % 8) as u8)) & 1u8 == 1 {
                    let cx: u8 = (ci % 64) as u8;
                    let cy: u8 = (ci / 64) as u8;
                    proof {
                        lemma_fundamental_div_mod(ci as int, 64);
                        assert(cell_index(cx as int, cy as int) == ci as int);
                    }
                    let _ = jb.set(tx, ty, bx, by, cx, cy, true);
                    proof {
                        let id0 = map_cell_id(
                            tx as int,
                            ty as int,
                            bx as int,
                            by as int,
                            cx as int,
                            cy as int,
                        );
                        assert(bit_of(payload, ci as int));
                        assert(cells_below(payload, ci + 1) =~= cells_below(
                            payload,
                            ci as int,
                        ).insert(ci as int));
                        assert(id0 == tkey * 67108864 + (bkey * 4096 + ci));
                        assert(jb.cells() == pre_cells.insert(id0));
                        assert(jb.cells() =~= wire_tiles_prefix_cells(w.tiles@, i as int).union(
                            tile_shift(
                                tkey,
                                wire_blocks_prefix_cells(
                                    w.tiles@[i as int].blocks@,
                                    j as int,
                                ).union(block_shift(bkey, cells_below(payload, ci + 1))),
                            ),
                        ));
                    }
                } else {
                    proof {
                        assert(!bit_of(payload, ci as int));
                        assert(cells_below(payload, ci + 1) =~= cells_below(payload, ci as int));
                        assert(jb.cells() =~= wire_tiles_prefix_cells(w.tiles@, i as int).union(
                            tile_shift(
                                tkey,
                                wire_blocks_prefix_cells(
                                    w.tiles@[i as int].blocks@,
                                    j as int,
                                ).union(block_shift(bkey, cells_below(payload, ci + 1))),
                            ),
                        ));
                    }
                }
            }
            proof {
                assert(cells_below(payload, 4096) =~= cells_of(payload));
                assert(wire_blocks_prefix_cells(w.tiles@[i as int].blocks@, j as int).union(
                    block_shift(bkey, cells_of(payload)),
                ) =~= wire_blocks_prefix_cells(w.tiles@[i as int].blocks@, j + 1)) by {
                    assert forall|id: int|
                        #![all_triggers]
                        wire_blocks_prefix_cells(w.tiles@[i as int].blocks@, j + 1).contains(
                            id,
                        ) implies (wire_blocks_prefix_cells(
                        w.tiles@[i as int].blocks@,
                        j as int,
                    ).contains(id) || block_shift(bkey, cells_of(payload)).contains(id)) by {
                        let j2 = choose|j2: int|
                            0 <= j2 < j + 1 && #[trigger] wire_block_span(
                                w.tiles@[i as int].blocks@[j2],
                            ).contains(id);
                    }
                    assert forall|id: int|
                        #![all_triggers]
                        block_shift(bkey, cells_of(payload)).contains(id) implies
                        wire_blocks_prefix_cells(w.tiles@[i as int].blocks@, j + 1).contains(
                        id,
                    ) by {
                        assert(wire_block_span(w.tiles@[i as int].blocks@[j as int]).contains(id));
                    }
                }
            }
        }
        proof {
            assert(wire_blocks_prefix_cells(w.tiles@[i as int].blocks@, bn as int)
                == wire_tile_cells(w.tiles@[i as int]));
            assert(tile_shift(tkey, wire_tile_cells(w.tiles@[i as int])) == wire_tile_span(
                w.tiles@[i as int],
            ));
            assert(wire_tiles_prefix_cells(w.tiles@, i as int).union(
                wire_tile_span(w.tiles@[i as int]),
            ) =~= wire_tiles_prefix_cells(w.tiles@, i + 1)) by {
                assert forall|id: int|
                    #![all_triggers]
                    wire_tiles_prefix_cells(w.tiles@, i + 1).contains(id) implies (
                wire_tiles_prefix_cells(w.tiles@, i as int).contains(id) || wire_tile_span(
                    w.tiles@[i as int],
                ).contains(id)) by {
                    let i2 = choose|i2: int|
                        0 <= i2 < i + 1 && #[trigger] wire_tile_span(w.tiles@[i2]).contains(id);
                }
                assert forall|id: int|
                    #![all_triggers]
                    wire_tile_span(w.tiles@[i as int]).contains(id) implies
                    wire_tiles_prefix_cells(w.tiles@, i + 1).contains(id) by {
                    assert(wire_tile_span(w.tiles@[i as int]).contains(id));
                }
            }
            assert(jb.cells() =~= wire_tiles_prefix_cells(w.tiles@, i + 1));
        }
    }
    proof {
        assert(jb.cells() == wire_cells(*w));
    }
    Ok(jb)
}

/// Law: decoding an encoding recovers the structure. For every well-formed
/// map, `to_wire` yields a wire form that `from_wire` accepts, and the
/// decoded map covers exactly the input map's cells.
pub fn round_trip(journey_bitmap: &JourneyBitmap) -> (r: JourneyBitmap)
    requires
        journey_bitmap.wf(),
    ensures
        r.wf(),
        r.pruned(),
        r.cells() == journey_bitmap.cells(),
{
    let w = to_wire(journey_bitmap);
    match from_wire(&w) {
        Ok(b) => b,
        Err(_) => {
            proof {
                assert(false);
            }
            JourneyBitmap::new()
        },
    }
}

} // verus!
