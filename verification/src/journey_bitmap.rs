//! The sparse coverage bitmap: blocks, tiles, and the top-level map.
//!
//! A `Block` is a 64 x 64 grid of presence bits packed into 512 bytes
//! (bit `b` of byte `i` is cell index `i * 8 + b`, least-significant bit
//! first). A `Tile` holds up to 128 x 128 blocks, keyed by block
//! coordinate; the world map holds up to 512 x 512 tiles, keyed by tile
//! coordinate. The abstract state of each level is the set of covered
//! cell indices, so that merging is set union and area is cardinality.

use vstd::prelude::*;
use vstd::arithmetic::div_mod::lemma_fundamental_div_mod_converse;
use vstd::set_lib::{set_int_range, lemma_int_range, lemma_len_subset, lemma_map_size};
use vstd::relations::injective_on;

verus! {

/// The union of two disjoint finite sets has the sum of their lengths.
proof fn lemma_disjoint_union_len(a: Set<int>, b: Set<int>)
    requires
        a.finite(),
        b.finite(),
        forall|x: int| !(a.contains(x) && b.contains(x)),
    ensures
        a.union(b).finite(),
        a.union(b).len() == a.len() + b.len(),
    decreases b.len(),
{
    if b.len() == 0 {
        b.lemma_len0_is_empty();
        assert(a.union(b) =~= a);
    } else {
        let x = b.choose();
        assert(b.contains(x));
        lemma_disjoint_union_len(a, b.remove(x));
        assert(a.union(b) =~= a.union(b.remove(x)).insert(x));
        assert(!a.union(b.remove(x)).contains(x));
    }
}

/// A set shifted by a constant offset keeps its length.
proof fn lemma_shift_len(s: Set<int>, base: int, bound: int, shifted: Set<int>)
    requires
        s.finite(),
        forall|t: int| #[trigger] s.contains(t) ==> 0 <= t < bound,
        shifted == Set::new(|id: int| base <= id < base + bound && s.contains(id - base)),
    ensures
        shifted.finite(),
        shifted.len() == s.len(),
{
    let f = |t: int| base + t;
    assert(injective_on(f, s));
    assert forall|id: int| #[trigger] shifted.contains(id) implies s.map(f).contains(id) by {
        assert(s.contains(id - base) && f(id - base) == id);
    }
    assert forall|id: int| #[trigger] s.map(f).contains(id) implies shifted.contains(id) by {
        let t = choose|t: int| s.contains(t) && id == f(t);
        assert(base <= id < base + bound && s.contains(id - base));
    }
    assert(s.map(f) =~= shifted);
    lemma_map_size(s, shifted, f);
}

/// The cell indices below `n` that are set in a packed block payload.
pub open spec fn cells_below(data: Seq<u8>, n: int) -> Set<int> {
    Set::new(|i: int| 0 <= i < n && bit_of(data, i))
}

/// Bytes in a block payload.
pub const BLOCK_PAYLOAD_BYTES: usize = 512;

/// Cells per axis of a block's bit grid.
pub const BLOCK_CELLS_PER_AXIS: u8 = 64;

/// Blocks per axis of a tile.
pub const TILE_BLOCKS_PER_AXIS: u8 = 128;

/// Tiles per axis of the world map.
pub const MAP_TILES_PER_AXIS: u16 = 512;

/// Cells in one block (64 * 64).
pub const BLOCK_CELL_COUNT: u64 = 4096;

/// Cells in one tile (128 * 128 * 4096).
pub const TILE_CELL_COUNT: u64 = 67108864;

/// Cells in the whole map (512 * 512 * 67108864).
pub const MAP_CELL_COUNT: u64 = 17592186044416;

/// Failures of coordinate access and block construction.
#[derive(Clone, Copy, Debug, PartialEq, Eq, Structural)]
pub enum BitmapError {
    /// A block payload is not exactly `BLOCK_PAYLOAD_BYTES` long.
    InvalidPayloadLength,
    /// A coordinate exceeds the fixed grid dimensions.
    OutOfBounds,
}

/// Whether cell index `i` is set in a packed block payload.
pub open spec fn bit_of(data: Seq<u8>, i: int) -> bool {
    (data[i / 8] >> ((i % 8) as u8)) & 1u8 == 1u8
}

/// The set of cell indices (in `[0, 4096)`) set in a packed block payload.
pub open spec fn cells_of(data: Seq<u8>) -> Set<int> {
    Set::new(|i: int| 0 <= i < 4096 && bit_of(data, i))
}

/// Cell index of local cell coordinate `(cx, cy)` inside a block.
pub open spec fn cell_index(cx: int, cy: int) -> int {
    cy * 64 + cx
}

/// Setting or clearing bit `k` of a byte fixes that bit and leaves every
/// other bit `j` unchanged.
proof fn lemma_bit_set_clear(b: u8, k: u8, j: u8)
    requires
        k < 8,
        j < 8,
    ensures
        ((b | (1u8 << k)) >> k) & 1u8 == 1u8,
        ((b & !(1u8 << k)) >> k) & 1u8 == 0u8,
        j != k ==> ((b | (1u8 << k)) >> j) & 1u8 == (b >> j) & 1u8,
        j != k ==> ((b & !(1u8 << k)) >> j) & 1u8 == (b >> j) & 1u8,
{
    assert(((b | (1u8 << k)) >> k) & 1u8 == 1u8 && ((b & !(1u8 << k)) >> k) & 1u8 == 0u8 && (j
        != k ==> ((b | (1u8 << k)) >> j) & 1u8 == (b >> j) & 1u8) && (j != k ==> ((b & !(1u8 << k))
        >> j) & 1u8 == (b >> j) & 1u8)) by (bit_vector)
        requires
            k < 8,
            j < 8,
    ;
}

/// A bit of an or of two bytes is the disjunction of their bits.
proof fn lemma_bit_or(a: u8, b: u8, k: u8)
    requires
        k < 8,
    ensures
        (((a | b) >> k) & 1u8 == 1u8) <==> ((a >> k) & 1u8 == 1u8 || (b >> k) & 1u8 == 1u8),
{
    assert((((a | b) >> k) & 1u8 == 1u8) <==> ((a >> k) & 1u8 == 1u8 || (b >> k) & 1u8
        == 1u8)) by (bit_vector)
        requires
            k < 8,
    ;
}

/// If oring `b` into `a` changes `a`, some bit of `b` is absent from `a`.
proof fn lemma_or_changed_witness(a: u8, b: u8)
    requires
        (a | b) != a,
    ensures
        exists|k: u8| k < 8 && (b >> k) & 1u8 == 1u8 && (a >> k) & 1u8 != 1u8,
{
    assert((((b >> 0u8) & 1u8 == 1u8 && (a >> 0u8) & 1u8 != 1u8) || ((b >> 1u8) & 1u8 == 1u8 && (a
        >> 1u8) & 1u8 != 1u8) || ((b >> 2u8) & 1u8 == 1u8 && (a >> 2u8) & 1u8 != 1u8) || ((b
        >> 3u8) & 1u8 == 1u8 && (a >> 3u8) & 1u8 != 1u8) || ((b >> 4u8) & 1u8 == 1u8 && (a >> 4u8)
        & 1u8 != 1u8) || ((b >> 5u8) & 1u8 == 1u8 && (a >> 5u8) & 1u8 != 1u8) || ((b >> 6u8) & 1u8
        == 1u8 && (a >> 6u8) & 1u8 != 1u8) || ((b >> 7u8) & 1u8 == 1u8 && (a >> 7u8) & 1u8
        != 1u8))) by (bit_vector)
        requires
            (a | b) != a,
    ;
}

/// If oring `b` into `a` leaves `a` unchanged, every bit of `b` is in `a`.
proof fn lemma_or_unchanged(a: u8, b: u8, k: u8)
    requires
        (a | b) == a,
        k < 8,
    ensures
        (b >> k) & 1u8 == 1u8 ==> (a >> k) & 1u8 == 1u8,
{
    assert((a | b) == a && k < 8 ==> ((b >> k) & 1u8 == 1u8 ==> (a >> k) & 1u8
        == 1u8)) by (bit_vector);
}

/// A nonzero byte has a set bit.
proof fn lemma_nonzero_byte_bit(b: u8)
    requires
        b != 0,
    ensures
        exists|k: u8| k < 8 && (b >> k) & 1u8 == 1u8,
{
    assert((0u8 | b) != 0u8) by (bit_vector)
        requires
            b != 0,
    ;
    lemma_or_changed_witness(0u8, b);
    let k = choose|k: u8| k < 8 && (b >> k) & 1u8 == 1u8 && (0u8 >> k) & 1u8 != 1u8;
    assert(k < 8 && (b >> k) & 1u8 == 1u8);
}

/// Removing an element of a sequence and inserting another at its place
/// is an update.
proof fn lemma_remove_insert_is_update<T>(s: Seq<T>, i: int, x: T)
    requires
        0 <= i < s.len(),
    ensures
        s.remove(i).insert(i, x) =~= s.update(i, x),
{
}

/// A fixed-size 64 x 64 bit grid at block coordinate `(x, y)` inside a tile.
pub struct Block {
    pub x: u8,
    pub y: u8,
    pub data: Vec<u8>,
}

impl Block {
    /// Coordinates in range and payload exactly `BLOCK_PAYLOAD_BYTES` long.
    pub open spec fn wf(&self) -> bool {
        &&& self.x < 128
        &&& self.y < 128
        &&& self.data@.len() == 512
    }

    /// The set of cell indices (in `[0, 4096)`) whose bit is set.
    pub open spec fn cells(&self) -> Set<int> {
        cells_of(self.data@)
    }

    /// Creates an all-zero block at the given coordinate.
    pub fn new(x: u8, y: u8) -> (r: Block)
        requires
            x < 128,
            y < 128,
        ensures
            r.wf(),
            r.x == x,
            r.y == y,
            r.cells() == Set::<int>::empty(),
    {
        let data = vec![0u8; 512];
        let b = Block { x, y, data };
        proof {
            assert forall|i: int| 0 <= i < 4096 implies !bit_of(b.data@, i) by {
                let k = (i % 8) as u8;
                assert((0u8 >> k) & 1u8 == 0u8) by (bit_vector);
            }
            assert(b.cells() =~= Set::<int>::empty());
        }
        b
    }

    /// Creates a block from an externally supplied payload; the payload is
    /// kept verbatim, and any length other than `BLOCK_PAYLOAD_BYTES` is
    /// rejected.
    pub fn new_with_data(x: u8, y: u8, data: Vec<u8>) -> (r: Result<Block, BitmapError>)
        requires
            x < 128,
            y < 128,
        ensures
            data@.len() == 512 ==> (r matches Ok(b) && b.wf() && b.x == x && b.y == y && b.data@
                == data@),
            data@.len() != 512 ==> r == Err::<Block, BitmapError>(
                BitmapError::InvalidPayloadLength,
            ),
    {
        if data.len() != 512 {
            Err(BitmapError::InvalidPayloadLength)
        } else {
            Ok(Block { x, y, data })
        }
    }

    /// Reads the presence bit of local cell `(cx, cy)`; out-of-grid
    /// coordinates fail hard.
    pub fn get(&self, cx: u8, cy: u8) -> (r: Result<bool, BitmapError>)
        requires
            self.wf(),
        ensures
            cx < 64 && cy < 64 ==> r == Ok::<bool, BitmapError>(
                self.cells().contains(cell_index(cx as int, cy as int)),
            ),
            !(cx < 64 && cy < 64) ==> r == Err::<bool, BitmapError>(BitmapError::OutOfBounds),
    {
        if cx < 64 && cy < 64 {
            let idx: usize = (cy as usize) * 64 + (cx as usize);
            let byte: u8 = self.data[idx / 8];
            let bit: bool = (byte >> ((idx % 8) as u8)) & 1u8 == 1u8;
            proof {
                assert(idx == cell_index(cx as int, cy as int));
                assert(bit == bit_of(self.data@, idx as int));
            }
            Ok(bit)
        } else {
            Err(BitmapError::OutOfBounds)
        }
    }

    /// Writes the presence bit of local cell `(cx, cy)`; out-of-grid
    /// coordinates fail hard and leave the block unchanged.
    pub fn set(&mut self, cx: u8, cy: u8, value: bool) -> (r: Result<(), BitmapError>)
        requires
            old(self).wf(),
        ensures
            final(self).wf(),
            final(self).x == old(self).x,
            final(self).y == old(self).y,
            cx < 64 && cy < 64 ==> r == Ok::<(), BitmapError>(()) && (if value {
                final(self).cells() == old(self).cells().insert(cell_index(cx as int, cy as int))
            } else {
                final(self).cells() == old(self).cells().remove(cell_index(cx as int, cy as int))
            }),
            !(cx < 64 && cy < 64) ==> r == Err::<(), BitmapError>(BitmapError::OutOfBounds)
                && final(self).data@ == old(self).data@,
    {
        if cx < 64 && cy < 64 {
            let idx: usize = (cy as usize) * 64 + (cx as usize);
            let bi: usize = idx / 8;
            let sh: u8 = (idx % 8) as u8;
            let old_byte: u8 = self.data[bi];
            let new_byte: u8 = if value {
                old_byte | (1u8 << sh)
            } else {
                old_byte & !(1u8 << sh)
            };
            self.data.remove(bi);
            self.data.insert(bi, new_byte);
            proof {
                let ci = cell_index(cx as int, cy as int);
                lemma_remove_insert_is_update(old(self).data@, bi as int, new_byte);
                assert(self.data@ =~= old(self).data@.update(bi as int, new_byte));
                assert forall|i: int| 0 <= i < 4096 && i != ci implies bit_of(self.data@, i)
                    == bit_of(old(self).data@, i) by {
                    let k = (i % 8) as u8;
                    if i / 8 == bi as int {
                        assert(i == (i / 8) * 8 + (i % 8));
                        assert(k != sh);
                        lemma_bit_set_clear(old_byte, sh, k);
                    }
                }
                lemma_bit_set_clear(old_byte, sh, sh);
                assert(bit_of(self.data@, ci) == value);
                if value {
                    assert(self.cells() =~= old(self).cells().insert(ci));
                } else {
                    assert(self.cells() =~= old(self).cells().remove(ci));
                }
            }
            Ok(())
        } else {
            Err(BitmapError::OutOfBounds)
        }
    }

    /// True iff no bit of the block is set.
    pub fn is_empty(&self) -> (r: bool)
        requires
            self.wf(),
        ensures
            r <==> self.cells() == Set::<int>::empty(),
    {
        for k in 0..512usize
            invariant
                self.wf(),
                forall|j: int| 0 <= j < k ==> self.data@[j] == 0u8,
        {
            if self.data[k] != 0 {
                proof {
                    lemma_nonzero_byte_bit(self.data@[k as int]);
                    let j = choose|j: u8| j < 8 && (self.data@[k as int] >> j) & 1u8 == 1u8;
                    let i = k as int * 8 + j as int;
                    lemma_fundamental_div_mod_converse(i, 8, k as int, j as int);
                    assert(bit_of(self.data@, i));
                    assert(self.cells().contains(i));
                }
                return false;
            }
        }
        proof {
            assert forall|i: int| 0 <= i < 4096 implies !bit_of(self.data@, i) by {
                let k = (i % 8) as u8;
                assert((0u8 >> k) & 1u8 == 0u8) by (bit_vector);
            }
            assert(self.cells() =~= Set::<int>::empty());
        }
        true
    }

    /// Bitwise or of another block at the same coordinate into this one;
    /// returns whether any new bit was set.
    pub fn merge(&mut self, other: &Block) -> (r: bool)
        requires
            old(self).wf(),
            other.wf(),
            old(self).x == other.x,
            old(self).y == other.y,
        ensures
            final(self).wf(),
            final(self).x == old(self).x,
            final(self).y == old(self).y,
            final(self).cells() == old(self).cells().union(other.cells()),
            r <==> !other.cells().subset_of(old(self).cells()),
    {
        let mut changed: bool = false;
        for k in 0..512usize
            invariant
                self.wf(),
                other.wf(),
                self.x == old(self).x,
                self.y == old(self).y,
                forall|j: int| k <= j < 512 ==> self.data@[j] == old(self).data@[j],
                forall|j: int| 0 <= j < k ==> self.data@[j] == (old(self).data@[j]
                    | other.data@[j]),
                changed <==> exists|i: int|
                    0 <= i < 8 * k && bit_of(other.data@, i) && !bit_of(old(self).data@, i),
        {
            let a: u8 = self.data[k];
            let b: u8 = other.data[k];
            let nb: u8 = a | b;
            if nb != a {
                changed = true;
            }
            let ghost pre = self.data@;
            self.data.remove(k);
            self.data.insert(k, nb);
            proof {
                lemma_remove_insert_is_update(pre, k as int, nb);
                assert(self.data@ =~= pre.update(k as int, nb));
                let prev = old(self).data@;
                assert(a == prev[k as int]);
                if nb != a {
                    lemma_or_changed_witness(a, b);
                    let j = choose|j: u8| j < 8 && (b >> j) & 1u8 == 1u8 && (a >> j) & 1u8 != 1u8;
                    let i = k as int * 8 + j as int;
                    lemma_fundamental_div_mod_converse(i, 8, k as int, j as int);
                    assert(bit_of(other.data@, i) && !bit_of(prev, i));
                    assert(changed <==> exists|i: int|
                        0 <= i < 8 * (k + 1) && bit_of(other.data@, i) && !bit_of(prev, i));
                } else {
                    assert forall|i: int|
                        8 * k <= i < 8 * (k + 1) implies !(bit_of(other.data@, i) && !bit_of(
                        prev,
                        i,
                    )) by {
                        lemma_fundamental_div_mod_converse(i, 8, k as int, i - 8 * k);
                        lemma_or_unchanged(a, b, (i % 8) as u8);
                    }
                    assert(changed <==> exists|i: int|
                        0 <= i < 8 * (k + 1) && bit_of(other.data@, i) && !bit_of(prev, i));
                }
            }
        }
        proof {
            let prev = old(self).data@;
            assert forall|i: int| 0 <= i < 4096 implies bit_of(self.data@, i) == (bit_of(prev, i)
                || bit_of(other.data@, i)) by {
                lemma_bit_or(prev[i / 8], other.data@[i / 8], (i % 8) as u8);
            }
            assert(self.cells() =~= old(self).cells().union(other.cells()));
            if changed {
                let i = choose|i: int|
                    0 <= i < 8 * 512 && bit_of(other.data@, i) && !bit_of(prev, i);
                assert(other.cells().contains(i) && !old(self).cells().contains(i));
            } else {
                assert forall|i: int| other.cells().contains(i) implies old(
                    self,
                ).cells().contains(i) by {
                    assert(!(0 <= i < 8 * 512 && bit_of(other.data@, i) && !bit_of(prev, i)));
                }
            }
        }
        changed
    }

    /// An owned copy of the block.
    pub fn duplicate(&self) -> (r: Block)
        ensures
            r.x == self.x,
            r.y == self.y,
            r.data@ == self.data@,
    {
        let mut data: Vec<u8> = Vec::new();
        for k in 0..self.data.len()
            invariant
                data@.len() == k,
                forall|j: int| 0 <= j < k ==> data@[j] == self.data@[j],
        {
            data.push(self.data[k]);
        }
        proof {
            assert(data@ =~= self.data@);
        }
        Block { x: self.x, y: self.y, data }
    }

    /// Number of set bits in the block.
    pub fn count_cells(&self) -> (r: u16)
        requires
            self.wf(),
        ensures
            r as nat == self.cells().len(),
            r <= 4096,
    {
        let mut c: u16 = 0;
        proof {
            assert(cells_below(self.data@, 0) =~= Set::<int>::empty());
        }
        for i in 0..4096usize
            invariant
                self.wf(),
                c as nat == cells_below(self.data@, i as int).len(),
                c <= i,
        {
            proof {
                assert(cells_below(self.data@, i as int).subset_of(set_int_range(0, i as int)));
                lemma_int_range(0, i as int);
                lemma_len_subset(cells_below(self.data@, i as int), set_int_range(0, i as int));
            }
            let byte: u8 = self.data[i / 8];
            if (byte >> ((i % 8) as u8)) & 1u8 == 1 {
                proof {
                    assert(bit_of(self.data@, i as int));
                    assert(!cells_below(self.data@, i as int).contains(i as int));
                    assert(cells_below(self.data@, i + 1) =~= cells_below(
                        self.data@,
                        i as int,
                    ).insert(i as int));
                }
                c = c + 1;
            } else {
                proof {
                    assert(!bit_of(self.data@, i as int));
                    assert(cells_below(self.data@, i + 1) =~= cells_below(self.data@, i as int));
                }
            }
        }
        proof {
            assert(cells_below(self.data@, 4096) =~= self.cells());
        }
        c
    }
}

/// Key of block coordinate `(bx, by)` inside a tile.
pub open spec fn block_key(bx: int, by: int) -> int {
    bx * 128 + by
}

/// Tile-local cell id of cell index `ci` inside block `(bx, by)`.
pub open spec fn tile_local_id(bx: int, by: int, ci: int) -> int {
    block_key(bx, by) * 4096 + ci
}

/// The tile-local cell ids covered by one block.
pub open spec fn block_span(b: Block) -> Set<int> {
    Set::new(
        |id: int|
            block_key(b.x as int, b.y as int) * 4096 <= id < block_key(b.x as int, b.y as int)
                * 4096 + 4096 && b.cells().contains(id - block_key(b.x as int, b.y as int) * 4096),
    )
}

/// The tile-local cell ids covered by the first `n` blocks of a sequence.
pub open spec fn blocks_prefix_cells(blocks: Seq<Block>, n: int) -> Set<int> {
    Set::new(|id: int| exists|j: int| 0 <= j < n && #[trigger] block_span(blocks[j]).contains(id))
}

/// An id in a key's span determines the key.
proof fn lemma_id_in_span_key(key: int, span: int, id: int)
    requires
        span > 0,
        key * span <= id < key * span + span,
    ensures
        id / span == key,
{
    lemma_fundamental_div_mod_converse(id, span, key, id - key * span);
}

/// A sparse collection of non-empty blocks at tile coordinate `(x, y)`.
///
/// Blocks enter only through `set`, which creates them as needed and
/// eagerly prunes a block that becomes all zero, so the non-empty
/// invariant holds at every observable point.
pub struct Tile {
    pub x: u16,
    pub y: u16,
    pub blocks: Vec<Block>,
}

impl Tile {
    /// Coordinates in range, blocks well formed, block keys unique.
    pub open spec fn wf(&self) -> bool {
        &&& self.x < 512
        &&& self.y < 512
        &&& forall|j: int| 0 <= j < self.blocks@.len() ==> (#[trigger] self.blocks@[j]).wf()
        &&& forall|j1: int, j2: int|
            0 <= j1 < j2 < self.blocks@.len() ==> !(self.blocks@[j1].x == self.blocks@[j2].x
                && self.blocks@[j1].y == self.blocks@[j2].y)
    }

    /// No all-zero block is present.
    pub open spec fn pruned(&self) -> bool {
        forall|j: int|
            0 <= j < self.blocks@.len() ==> (#[trigger] self.blocks@[j]).cells()
                != Set::<int>::empty()
    }

    /// The set of covered tile-local cell ids (in `[0, 67108864)`).
    pub open spec fn cells(&self) -> Set<int> {
        blocks_prefix_cells(self.blocks@, self.blocks@.len() as int)
    }

    /// Creates an empty tile.
    pub fn new(x: u16, y: u16) -> (r: Tile)
        requires
            x < 512,
            y < 512,
        ensures
            r.wf(),
            r.pruned(),
            r.x == x,
            r.y == y,
            r.cells() == Set::<int>::empty(),
            r.blocks@.len() == 0,
    {
        let t = Tile { x, y, blocks: Vec::new() };
        proof {
            assert(t.cells() =~= Set::<int>::empty());
        }
        t
    }

    /// Index of the block with the given coordinate, if present.
    fn find_block(&self, bx: u8, by: u8) -> (r: Option<usize>)
        ensures
            match r {
                Some(j) => j < self.blocks@.len() && self.blocks@[j as int].x == bx
                    && self.blocks@[j as int].y == by,
                None => forall|j: int|
                    0 <= j < self.blocks@.len() ==> !((#[trigger] self.blocks@[j]).x == bx
                        && self.blocks@[j].y == by),
            },
    {
        for j in 0..self.blocks.len()
            invariant
                forall|i: int|
                    0 <= i < j ==> !((#[trigger] self.blocks@[i]).x == bx && self.blocks@[i].y
                        == by),
        {
            if self.blocks[j].x == bx && self.blocks[j].y == by {
                return Some(j);
            }
        }
        None
    }

    /// No two distinct blocks own the same tile-local id.
    proof fn lemma_span_unique(&self, j1: int, j2: int, id: int)
        requires
            self.wf(),
            0 <= j1 < self.blocks@.len(),
            0 <= j2 < self.blocks@.len(),
            block_span(self.blocks@[j1]).contains(id),
            block_span(self.blocks@[j2]).contains(id),
        ensures
            j1 == j2,
    {
        let b1 = self.blocks@[j1];
        let b2 = self.blocks@[j2];
        let k1 = block_key(b1.x as int, b1.y as int);
        let k2 = block_key(b2.x as int, b2.y as int);
        lemma_id_in_span_key(k1, 4096, id);
        lemma_id_in_span_key(k2, 4096, id);
        assert(k1 == k2);
        lemma_fundamental_div_mod_converse(k1, 128, b1.x as int, b1.y as int);
        lemma_fundamental_div_mod_converse(k2, 128, b2.x as int, b2.y as int);
        assert(b1.x == b2.x && b1.y == b2.y);
        if j1 != j2 {
            assert(false);
        }
    }

    /// Reads the presence bit of cell `(cx, cy)` in block `(bx, by)`; an
    /// absent block reads as all zero.
    pub fn get(&self, bx: u8, by: u8, cx: u8, cy: u8) -> (r: Result<bool, BitmapError>)
        requires
            self.wf(),
        ensures
            bx < 128 && by < 128 && cx < 64 && cy < 64 ==> r == Ok::<bool, BitmapError>(
                self.cells().contains(
                    tile_local_id(bx as int, by as int, cell_index(cx as int, cy as int)),
                ),
            ),
            !(bx < 128 && by < 128 && cx < 64 && cy < 64) ==> r == Err::<bool, BitmapError>(
                BitmapError::OutOfBounds,
            ),
    {
        if !(bx < 128 && by < 128 && cx < 64 && cy < 64) {
            return Err(BitmapError::OutOfBounds);
        }
        let ghost ci = cell_index(cx as int, cy as int);
        let ghost id = tile_local_id(bx as int, by as int, ci);
        match self.find_block(bx, by) {
            Some(j) => {
                let r = match self.blocks[j].get(cx, cy) {
                    Ok(bit) => bit,
                    Err(_) => false,
                };
                proof {
                    let b = self.blocks@[j as int];
                    assert(0 <= ci < 4096);
                    if r {
                        assert(block_span(b).contains(id));
                        assert(self.cells().contains(id));
                    } else {
                        if self.cells().contains(id) {
                            let j2 = choose|j2: int|
                                0 <= j2 < self.blocks@.len() && #[trigger] block_span(
                                    self.blocks@[j2],
                                ).contains(id);
                            assert(block_span(b).contains(id)) by {
                                lemma_id_in_span_key(
                                    block_key(self.blocks@[j2].x as int, self.blocks@[j2].y as int),
                                    4096,
                                    id,
                                );
                                lemma_id_in_span_key(block_key(bx as int, by as int), 4096, id);
                                lemma_fundamental_div_mod_converse(
                                    block_key(self.blocks@[j2].x as int, self.blocks@[j2].y as int),
                                    128,
                                    self.blocks@[j2].x as int,
                                    self.blocks@[j2].y as int,
                                );
                                lemma_fundamental_div_mod_converse(
                                    block_key(bx as int, by as int),
                                    128,
                                    bx as int,
                                    by as int,
                                );
                                assert(self.blocks@[j2].x == bx && self.blocks@[j2].y == by);
                                assert(j2 == j as int) by {
                                    if j2 != j as int {
                                        assert(!(self.blocks@[j2].x == self.blocks@[j as int].x
                                            && self.blocks@[j2].y == self.blocks@[j as int].y));
                                    }
                                }
                            }
                            assert(false);
                        }
                    }
                }
                Ok(r)
            },
            None => {
                proof {
                    if self.cells().contains(id) {
                        let j2 = choose|j2: int|
                            0 <= j2 < self.blocks@.len() && #[trigger] block_span(
                                self.blocks@[j2],
                            ).contains(id);
                        lemma_id_in_span_key(
                            block_key(self.blocks@[j2].x as int, self.blocks@[j2].y as int),
                            4096,
                            id,
                        );
                        lemma_id_in_span_key(block_key(bx as int, by as int), 4096, id);
                        lemma_fundamental_div_mod_converse(
                            block_key(self.blocks@[j2].x as int, self.blocks@[j2].y as int),
                            128,
                            self.blocks@[j2].x as int,
                            self.blocks@[j2].y as int,
                        );
                        lemma_fundamental_div_mod_converse(
                            block_key(bx as int, by as int),
                            128,
                            bx as int,
                            by as int,
                        );
                        assert(self.blocks@[j2].x == bx && self.blocks@[j2].y == by);
                        assert(false);
                    }
                }
                Ok(false)
            },
        }
    }

    /// A block span with a matching key holds an id iff the block holds
    /// the local cell, and a span never holds an id of another key.
    proof fn lemma_span_member(b: Block, bx: int, by: int, ci: int)
        requires
            b.wf(),
            0 <= bx < 128,
            0 <= by < 128,
            0 <= ci < 4096,
        ensures
            b.x == bx && b.y == by ==> (block_span(b).contains(tile_local_id(bx, by, ci))
                <==> b.cells().contains(ci)),
            !(b.x == bx && b.y == by) ==> !block_span(b).contains(tile_local_id(bx, by, ci)),
    {
        let key = block_key(bx, by);
        let bkey = block_key(b.x as int, b.y as int);
        let id = tile_local_id(bx, by, ci);
        if b.x == bx && b.y == by {
            assert(id - bkey * 4096 == ci);
        } else {
            if block_span(b).contains(id) {
                lemma_id_in_span_key(bkey, 4096, id);
                lemma_id_in_span_key(key, 4096, id);
                lemma_fundamental_div_mod_converse(bkey, 128, b.x as int, b.y as int);
                lemma_fundamental_div_mod_converse(key, 128, bx, by);
                assert(false);
            }
        }
    }

    /// Writes the presence bit of cell `(cx, cy)` in block `(bx, by)`,
    /// creating the block as needed and eagerly pruning a block that
    /// becomes all zero; out-of-grid coordinates fail hard.
    pub fn set(&mut self, bx: u8, by: u8, cx: u8, cy: u8, value: bool) -> (r: Result<
        (),
        BitmapError,
    >)
        requires
            old(self).wf(),
            old(self).pruned(),
        ensures
            final(self).wf(),
            final(self).pruned(),
            final(self).x == old(self).x,
            final(self).y == old(self).y,
            bx < 128 && by < 128 && cx < 64 && cy < 64 ==> r == Ok::<(), BitmapError>(()) && (
            if value {
                final(self).cells() == old(self).cells().insert(
                    tile_local_id(bx as int, by as int, cell_index(cx as int, cy as int)),
                )
            } else {
                final(self).cells() == old(self).cells().remove(
                    tile_local_id(bx as int, by as int, cell_index(cx as int, cy as int)),
                )
            }),
            !(bx < 128 && by < 128 && cx < 64 && cy < 64) ==> r == Err::<(), BitmapError>(
                BitmapError::OutOfBounds,
            ) && final(self).blocks@ == old(self).blocks@,
    {
        if !(bx < 128 && by < 128 && cx < 64 && cy < 64) {
            return Err(BitmapError::OutOfBounds);
        }
        let ghost ci = cell_index(cx as int, cy as int);
        let ghost id0 = tile_local_id(bx as int, by as int, ci);
        let ghost s_old = self.blocks@;
        let ghost n = s_old.len() as int;
        match self.find_block(bx, by) {
            Some(j) => {
                let mut b = self.blocks.remove(j);
                let ghost b_old = b;
                let _ = b.set(cx, cy, value);
                let empty_now = b.is_empty();
                if !empty_now {
                    self.blocks.insert(j, b);
                    proof {
                        lemma_remove_insert_is_update(s_old, j as int, b);
                        assert(self.blocks@ =~= s_old.update(j as int, b));
                        let s_new = self.blocks@;
                        assert forall|i: int| 0 <= i < n implies (#[trigger] s_new[i]).wf() by {}
                        assert forall|id: int| #![all_triggers] 0 <= id implies (
                        blocks_prefix_cells(s_new, n).contains(id) <==> (if value {
                            blocks_prefix_cells(s_old, n).insert(id0)
                        } else {
                            blocks_prefix_cells(s_old, n).remove(id0)
                        }).contains(id)) by {
                            Self::lemma_span_member(b_old, bx as int, by as int, ci);
                            Self::lemma_span_member(b, bx as int, by as int, ci);
                            if blocks_prefix_cells(s_new, n).contains(id) {
                                let j2 = choose|j2: int|
                                    0 <= j2 < n && #[trigger] block_span(s_new[j2]).contains(id);
                                if j2 == j as int {
                                    assert(block_span(b).contains(id));
                                    assert(id == id0 || block_span(b_old).contains(id));
                                } else {
                                    assert(block_span(s_old[j2]).contains(id));
                                    if id == id0 {
                                        Self::lemma_span_member(s_old[j2], bx as int, by as int, ci);
                                    }
                                }
                            }
                            if id == id0 && value {
                                assert(b.cells().contains(ci));
                                assert(block_span(b).contains(id0));
                                assert(block_span(s_new[j as int]).contains(id0));
                            }
                            if id != id0 && blocks_prefix_cells(s_old, n).contains(id) {
                                let j2 = choose|j2: int|
                                    0 <= j2 < n && #[trigger] block_span(s_old[j2]).contains(id);
                                if j2 == j as int {
                                    assert(block_span(b).contains(id));
                                    assert(block_span(s_new[j2]).contains(id));
                                } else {
                                    assert(block_span(s_new[j2]).contains(id));
                                }
                            }
                        }
                        if value {
                            assert(self.cells() =~= old(self).cells().insert(id0));
                        } else {
                            assert(self.cells() =~= old(self).cells().remove(id0));
                        }
                    }
                } else {
                    proof {
                        assert(!value) by {
                            if value {
                                assert(b.cells().contains(ci));
                            }
                        }
                        assert(self.blocks@ =~= s_old.remove(j as int));
                        let s_new = self.blocks@;
                        Self::lemma_span_member(b_old, bx as int, by as int, ci);
                        assert forall|id: int| #![all_triggers] 0 <= id implies (
                        blocks_prefix_cells(s_new, n - 1).contains(id) <==> blocks_prefix_cells(
                            s_old,
                            n,
                        ).remove(id0).contains(id)) by {
                            if blocks_prefix_cells(s_new, n - 1).contains(id) {
                                let j2 = choose|j2: int|
                                    0 <= j2 < n - 1 && #[trigger] block_span(s_new[j2]).contains(
                                        id,
                                    );
                                let oj = if j2 < j as int {
                                    j2
                                } else {
                                    j2 + 1
                                };
                                assert(block_span(s_old[oj]).contains(id));
                                if id == id0 {
                                    Self::lemma_span_member(s_old[oj], bx as int, by as int, ci);
                                    assert(s_old[oj].x == bx && s_old[oj].y == by);
                                    assert(oj != j as int);
                                    assert(false);
                                }
                            }
                            if id != id0 && blocks_prefix_cells(s_old, n).contains(id) {
                                let j2 = choose|j2: int|
                                    0 <= j2 < n && #[trigger] block_span(s_old[j2]).contains(id);
                                if j2 == j as int {
                                    assert(block_span(b_old).contains(id));
                                    let base = block_key(bx as int, by as int) * 4096;
                                    assert(b_old.cells().contains(id - base));
                                    assert(id - base != ci);
                                    assert(b.cells().contains(id - base));
                                    assert(false);
                                } else {
                                    let nj = if j2 < j as int {
                                        j2
                                    } else {
                                        j2 - 1
                                    };
                                    assert(block_span(s_new[nj]).contains(id));
                                }
                            }
                        }
                        assert(self.cells() =~= old(self).cells().remove(id0));
                    }
                }
                Ok(())
            },
            None => {
                if value {
                    let mut nb = Block::new(bx, by);
                    let _ = nb.set(cx, cy, true);
                    self.blocks.push(nb);
                    proof {
                        let s_new = self.blocks@;
                        assert(s_new =~= s_old.push(nb));
                        assert(nb.cells() =~= Set::<int>::empty().insert(ci));
                        Self::lemma_span_member(nb, bx as int, by as int, ci);
                        assert forall|id: int| #![all_triggers] 0 <= id implies (
                        blocks_prefix_cells(s_new, n + 1).contains(id) <==> blocks_prefix_cells(
                            s_old,
                            n,
                        ).insert(id0).contains(id)) by {
                            if blocks_prefix_cells(s_new, n + 1).contains(id) {
                                let j2 = choose|j2: int|
                                    0 <= j2 < n + 1 && #[trigger] block_span(s_new[j2]).contains(
                                        id,
                                    );
                                if j2 == n {
                                    let base = block_key(bx as int, by as int) * 4096;
                                    assert(nb.cells().contains(id - base));
                                    assert(id - base == ci);
                                } else {
                                    assert(block_span(s_old[j2]).contains(id));
                                }
                            }
                            if id == id0 {
                                assert(block_span(s_new[n as int]).contains(id0));
                            }
                            if blocks_prefix_cells(s_old, n).contains(id) {
                                let j2 = choose|j2: int|
                                    0 <= j2 < n && #[trigger] block_span(s_old[j2]).contains(id);
                                assert(block_span(s_new[j2]).contains(id));
                            }
                        }
                        assert(self.cells() =~= old(self).cells().insert(id0));
                    }
                    Ok(())
                } else {
                    proof {
                        if old(self).cells().contains(id0) {
                            let j2 = choose|j2: int|
                                0 <= j2 < n && #[trigger] block_span(s_old[j2]).contains(id0);
                            Self::lemma_span_member(s_old[j2], bx as int, by as int, ci);
                            assert(false);
                        }
                        assert(self.cells() =~= old(self).cells().remove(id0));
                    }
                    Ok(())
                }
            },
        }
    }

    /// True iff the tile holds no block; with pruning this is exactly an
    /// empty coverage set.
    pub fn is_empty(&self) -> (r: bool)
        requires
            self.wf(),
            self.pruned(),
        ensures
            r == (self.blocks@.len() == 0),
            r <==> self.cells() == Set::<int>::empty(),
    {
        let r = self.blocks.len() == 0;
        proof {
            if r {
                assert(self.cells() =~= Set::<int>::empty());
            } else {
                let b = self.blocks@[0];
                assert(b.cells() != Set::<int>::empty());
                if forall|ci: int| !(#[trigger] b.cells().contains(ci)) {
                    assert(b.cells() =~= Set::<int>::empty());
                }
                let ci = choose|ci: int| #[trigger] b.cells().contains(ci);
                assert(0 <= ci < 4096);
                let id = block_key(b.x as int, b.y as int) * 4096 + ci;
                assert(block_span(b).contains(id)) by {
                    assert(block_key(b.x as int, b.y as int) >= 0);
                }
                assert(self.cells().contains(id));
            }
        }
        r
    }

    /// An owned copy of the tile.
    pub fn duplicate(&self) -> (r: Tile)
        requires
            self.wf(),
        ensures
            r.wf(),
            r.x == self.x,
            r.y == self.y,
            self.pruned() ==> r.pruned(),
            r.cells() == self.cells(),
    {
        let mut blocks: Vec<Block> = Vec::new();
        for k in 0..self.blocks.len()
            invariant
                self.wf(),
                blocks@.len() == k,
                forall|j: int|
                    0 <= j < k ==> (#[trigger] blocks@[j]).x == self.blocks@[j].x && blocks@[j].y
                        == self.blocks@[j].y && blocks@[j].data@ == self.blocks@[j].data@,
        {
            let b = self.blocks[k].duplicate();
            blocks.push(b);
        }
        let t = Tile { x: self.x, y: self.y, blocks };
        proof {
            assert forall|j: int| 0 <= j < t.blocks@.len() implies (#[trigger] t.blocks@[j]).wf()
                && block_span(t.blocks@[j]) == block_span(self.blocks@[j]) && t.blocks@[j].cells()
                == self.blocks@[j].cells() by {
                assert(t.blocks@[j].cells() =~= self.blocks@[j].cells());
                assert(block_span(t.blocks@[j]) =~= block_span(self.blocks@[j]));
            }
            assert forall|id: int| #![all_triggers] 0 <= id implies (t.cells().contains(id)
                <==> self.cells().contains(id)) by {
                if t.cells().contains(id) {
                    let j2 = choose|j2: int|
                        0 <= j2 < t.blocks@.len() && #[trigger] block_span(t.blocks@[j2]).contains(
                            id,
                        );
                    assert(block_span(self.blocks@[j2]).contains(id));
                }
                if self.cells().contains(id) {
                    let j2 = choose|j2: int|
                        0 <= j2 < self.blocks@.len() && #[trigger] block_span(
                            self.blocks@[j2],
                        ).contains(id);
                    assert(block_span(t.blocks@[j2]).contains(id));
                }
            }
            assert(t.cells() =~= self.cells());
        }
        t
    }

    /// Block-wise union of another tile at the same coordinate into this
    /// one; the result covers exactly the union of both coverage sets.
    pub fn merge(&mut self, other: &Tile)
        requires
            old(self).wf(),
            old(self).pruned(),
            other.wf(),
            other.pruned(),
            old(self).x == other.x,
            old(self).y == other.y,
        ensures
            final(self).wf(),
            final(self).pruned(),
            final(self).x == old(self).x,
            final(self).y == old(self).y,
            final(self).cells() == old(self).cells().union(other.cells()),
    {
        let ghost on = other.blocks@.len() as int;
        for i in 0..other.blocks.len()
            invariant
                self.wf(),
                self.pruned(),
                self.x == old(self).x,
                self.y == old(self).y,
                other.wf(),
                other.pruned(),
                self.cells() == old(self).cells().union(blocks_prefix_cells(other.blocks@, i as int)),
        {
            let ghost ob = other.blocks@[i as int];
            let ghost s_pre = self.blocks@;
            let ghost pre_cells = self.cells();
            let obx = other.blocks[i].x;
            let oby = other.blocks[i].y;
            match self.find_block(obx, oby) {
                Some(j) => {
                    let mut b = self.blocks.remove(j);
                    let ghost b_old = b;
                    let _ = b.merge(&other.blocks[i]);
                    self.blocks.insert(j, b);
                    proof {
                        lemma_remove_insert_is_update(s_pre, j as int, b);
                        assert(self.blocks@ =~= s_pre.update(j as int, b));
                        let s_new = self.blocks@;
                        assert(block_span(b) =~= block_span(b_old).union(block_span(ob)));
                        assert(b.cells() != Set::<int>::empty()) by {
                            if forall|ci: int| !(#[trigger] b_old.cells().contains(ci)) {
                                assert(b_old.cells() =~= Set::<int>::empty());
                            }
                            let ci = choose|ci: int| #[trigger] b_old.cells().contains(ci);
                            assert(b.cells().contains(ci));
                        }
                        assert forall|id: int| #![all_triggers] 0 <= id implies (
                        self.cells().contains(id) <==> pre_cells.union(block_span(ob)).contains(
                            id,
                        )) by {
                            if self.cells().contains(id) {
                                let j2 = choose|j2: int|
                                    0 <= j2 < s_new.len() && #[trigger] block_span(
                                        s_new[j2],
                                    ).contains(id);
                                if j2 != j as int {
                                    assert(block_span(s_pre[j2]).contains(id));
                                }
                            }
                            if pre_cells.contains(id) {
                                let j2 = choose|j2: int|
                                    0 <= j2 < s_pre.len() && #[trigger] block_span(
                                        s_pre[j2],
                                    ).contains(id);
                                assert(block_span(s_new[j2]).contains(id));
                            }
                            if block_span(ob).contains(id) {
                                assert(block_span(s_new[j as int]).contains(id));
                            }
                        }
                        assert(self.cells() =~= pre_cells.union(block_span(ob)));
                        assert(blocks_prefix_cells(other.blocks@, i + 1) =~= blocks_prefix_cells(
                            other.blocks@,
                            i as int,
                        ).union(block_span(ob))) by {
                            assert forall|id: int|
                                #![all_triggers]
                                blocks_prefix_cells(other.blocks@, i + 1).contains(id) implies (
                            blocks_prefix_cells(other.blocks@, i as int).contains(id)
                                || block_span(ob).contains(id)) by {
                                let j2 = choose|j2: int|
                                    0 <= j2 < i + 1 && #[trigger] block_span(
                                        other.blocks@[j2],
                                    ).contains(id);
                            }
                        }
                        assert(self.cells() =~= old(self).cells().union(
                            blocks_prefix_cells(other.blocks@, i + 1),
                        ));
                    }
                },
                None => {
                    let nb = other.blocks[i].duplicate();
                    self.blocks.push(nb);
                    proof {
                        let s_new = self.blocks@;
                        assert(s_new =~= s_pre.push(nb));
                        assert(block_span(nb) =~= block_span(ob));
                        assert(nb.cells() =~= ob.cells());
                        assert(ob.cells() != Set::<int>::empty());
                        assert forall|id: int| #![all_triggers] 0 <= id implies (
                        self.cells().contains(id) <==> pre_cells.union(block_span(ob)).contains(
                            id,
                        )) by {
                            if self.cells().contains(id) {
                                let j2 = choose|j2: int|
                                    0 <= j2 < s_new.len() && #[trigger] block_span(
                                        s_new[j2],
                                    ).contains(id);
                                if j2 != s_pre.len() {
                                    assert(block_span(s_pre[j2]).contains(id));
                                }
                            }
                            if pre_cells.contains(id) {
                                let j2 = choose|j2: int|
                                    0 <= j2 < s_pre.len() && #[trigger] block_span(
                                        s_pre[j2],
                                    ).contains(id);
                                assert(block_span(s_new[j2]).contains(id));
                            }
                            if block_span(ob).contains(id) {
                                assert(block_span(s_new[s_pre.len() as int]).contains(id));
                            }
                        }
                        assert(self.cells() =~= pre_cells.union(block_span(ob)));
                        assert(blocks_prefix_cells(other.blocks@, i + 1) =~= blocks_prefix_cells(
                            other.blocks@,
                            i as int,
                        ).union(block_span(ob))) by {
                            assert forall|id: int|
                                #![all_triggers]
                                blocks_prefix_cells(other.blocks@, i + 1).contains(id) implies (
                            blocks_prefix_cells(other.blocks@, i as int).contains(id)
                                || block_span(ob).contains(id)) by {
                                let j2 = choose|j2: int|
                                    0 <= j2 < i + 1 && #[trigger] block_span(
                                        other.blocks@[j2],
                                    ).contains(id);
                            }
                        }
                        assert(self.cells() =~= old(self).cells().union(
                            blocks_prefix_cells(other.blocks@, i + 1),
                        ));
                    }
                },
            }
        }
        proof {
            assert(blocks_prefix_cells(other.blocks@, on) == other.cells());
            assert(self.cells() =~= old(self).cells().union(other.cells()));
        }
    }

    /// Every covered tile-local id is in the tile's id range.
    proof fn lemma_prefix_cells_bounded(&self, n: int)
        requires
            self.wf(),
            0 <= n <= self.blocks@.len(),
        ensures
            forall|id: int| #[trigger] blocks_prefix_cells(self.blocks@, n).contains(id) ==> 0
                <= id < 67108864,
    {
        assert forall|id: int| #[trigger] blocks_prefix_cells(self.blocks@, n).contains(
            id,
        ) implies 0 <= id < 67108864 by {
            let j = choose|j: int|
                0 <= j < n && #[trigger] block_span(self.blocks@[j]).contains(id);
            let b = self.blocks@[j];
            assert(block_key(b.x as int, b.y as int) <= 16383);
        }
    }

    /// Number of set bits over all blocks of the tile.
    pub fn count_cells(&self) -> (r: u32)
        requires
            self.wf(),
        ensures
            r as nat == self.cells().len(),
            r <= 67108864,
    {
        let mut c: u32 = 0;
        proof {
            assert(blocks_prefix_cells(self.blocks@, 0) =~= Set::<int>::empty());
        }
        for j in 0..self.blocks.len()
            invariant
                self.wf(),
                c as nat == blocks_prefix_cells(self.blocks@, j as int).len(),
                c <= 67108864,
        {
            proof {
                self.lemma_prefix_cells_bounded(j as int);
                assert(blocks_prefix_cells(self.blocks@, j as int).subset_of(
                    set_int_range(0, 67108864),
                ));
                lemma_int_range(0, 67108864);
                lemma_len_subset(
                    blocks_prefix_cells(self.blocks@, j as int),
                    set_int_range(0, 67108864),
                );
            }
            let bc = self.blocks[j].count_cells();
            proof {
                let b = self.blocks@[j as int];
                let base = block_key(b.x as int, b.y as int) * 4096;
                assert(b.cells().subset_of(set_int_range(0, 4096)));
                lemma_int_range(0, 4096);
                lemma_len_subset(b.cells(), set_int_range(0, 4096));
                assert(block_span(b) =~= Set::new(
                    |id: int| base <= id < base + 4096 && b.cells().contains(id - base),
                ));
                lemma_shift_len(b.cells(), base, 4096, block_span(b));
                assert forall|id: int|
                    !(blocks_prefix_cells(self.blocks@, j as int).contains(id)
                        && block_span(b).contains(id)) by {
                    if blocks_prefix_cells(self.blocks@, j as int).contains(id) && block_span(
                        b,
                    ).contains(id) {
                        let j2 = choose|j2: int|
                            0 <= j2 < j && #[trigger] block_span(self.blocks@[j2]).contains(id);
                        self.lemma_span_unique(j2, j as int, id);
                    }
                }
                lemma_disjoint_union_len(
                    blocks_prefix_cells(self.blocks@, j as int),
                    block_span(b),
                );
                assert(blocks_prefix_cells(self.blocks@, j + 1) =~= blocks_prefix_cells(
                    self.blocks@,
                    j as int,
                ).union(block_span(b))) by {
                    assert forall|id: int|
                        #![all_triggers]
                        blocks_prefix_cells(self.blocks@, j + 1).contains(id) implies (
                    blocks_prefix_cells(self.blocks@, j as int).contains(id) || block_span(
                        b,
                    ).contains(id)) by {
                        let j2 = choose|j2: int|
                            0 <= j2 < j + 1 && #[trigger] block_span(self.blocks@[j2]).contains(
                                id,
                            );
                    }
                }
                self.lemma_prefix_cells_bounded(j + 1);
                lemma_len_subset(
                    blocks_prefix_cells(self.blocks@, j + 1),
                    set_int_range(0, 67108864),
                );
            }
            c = c + bc as u32;
        }
        proof {
            assert(blocks_prefix_cells(self.blocks@, self.blocks@.len() as int) == self.cells());
        }
        c
    }
}

/// Key of tile coordinate `(tx, ty)` in the world map.
pub open spec fn tile_key(tx: int, ty: int) -> int {
    tx * 512 + ty
}

/// Map-global cell id of a fully qualified cell coordinate.
pub open spec fn map_cell_id(tx: int, ty: int, bx: int, by: int, cx: int, cy: int) -> int {
    tile_key(tx, ty) * 67108864 + tile_local_id(bx, by, cell_index(cx, cy))
}

/// The map-global cell ids covered by one tile.
pub open spec fn tile_span(t: Tile) -> Set<int> {
    Set::new(
        |id: int|
            tile_key(t.x as int, t.y as int) * 67108864 <= id < tile_key(t.x as int, t.y as int)
                * 67108864 + 67108864 && t.cells().contains(
                id - tile_key(t.x as int, t.y as int) * 67108864,
            ),
    )
}

/// The map-global cell ids covered by the first `n` tiles of a sequence.
pub open spec fn tiles_prefix_cells(tiles: Seq<Tile>, n: int) -> Set<int> {
    Set::new(|id: int| exists|j: int| 0 <= j < n && #[trigger] tile_span(tiles[j]).contains(id))
}

/// The top-level sparse coverage structure: a collection of non-empty
/// tiles with unique coordinates.
///
/// Tiles enter only through `set` and `merge`, which create them as
/// needed; a tile whose last covered cell is cleared leaves the map, so an
/// all-empty tile never persists.
pub struct JourneyBitmap {
    pub tiles: Vec<Tile>,
}

impl JourneyBitmap {
    /// Tiles well formed with unique coordinates.
    pub open spec fn wf(&self) -> bool {
        &&& forall|j: int| 0 <= j < self.tiles@.len() ==> (#[trigger] self.tiles@[j]).wf()
        &&& forall|j1: int, j2: int|
            0 <= j1 < j2 < self.tiles@.len() ==> !(self.tiles@[j1].x == self.tiles@[j2].x
                && self.tiles@[j1].y == self.tiles@[j2].y)
    }

    /// No empty tile and no all-zero block is present.
    pub open spec fn pruned(&self) -> bool {
        forall|j: int|
            0 <= j < self.tiles@.len() ==> (#[trigger] self.tiles@[j]).pruned()
                && self.tiles@[j].cells() != Set::<int>::empty()
    }

    /// The set of covered map-global cell ids (in `[0, 17592186044416)`).
    pub open spec fn cells(&self) -> Set<int> {
        tiles_prefix_cells(self.tiles@, self.tiles@.len() as int)
    }

    /// Creates an empty map with zero coverage.
    pub fn new() -> (r: JourneyBitmap)
        ensures
            r.wf(),
            r.pruned(),
            r.cells() == Set::<int>::empty(),
            r.tiles@.len() == 0,
    {
        let b = JourneyBitmap { tiles: Vec::new() };
        proof {
            assert(b.cells() =~= Set::<int>::empty());
        }
        b
    }

    /// Index of the tile with the given coordinate, if present.
    fn find_tile(&self, tx: u16, ty: u16) -> (r: Option<usize>)
        ensures
            match r {
                Some(j) => j < self.tiles@.len() && self.tiles@[j as int].x == tx
                    && self.tiles@[j as int].y == ty,
                None => forall|j: int|
                    0 <= j < self.tiles@.len() ==> !((#[trigger] self.tiles@[j]).x == tx
                        && self.tiles@[j].y == ty),
            },
    {
        for j in 0..self.tiles.len()
            invariant
                forall|i: int|
                    0 <= i < j ==> !((#[trigger] self.tiles@[i]).x == tx && self.tiles@[i].y
                        == ty),
        {
            if self.tiles[j].x == tx && self.tiles[j].y == ty {
                return Some(j);
            }
        }
        None
    }

    /// A tile span with a matching key holds an id iff the tile holds the
    /// local cell, and a span never holds an id of another key.
    proof fn lemma_span_member(t: Tile, tx: int, ty: int, lid: int)
        requires
            t.wf(),
            0 <= tx < 512,
            0 <= ty < 512,
            0 <= lid < 67108864,
        ensures
            t.x == tx && t.y == ty ==> (tile_span(t).contains(tile_key(tx, ty) * 67108864 + lid)
                <==> t.cells().contains(lid)),
            !(t.x == tx && t.y == ty) ==> !tile_span(t).contains(
                tile_key(tx, ty) * 67108864 + lid,
            ),
    {
        let key = tile_key(tx, ty);
        let tkey = tile_key(t.x as int, t.y as int);
        let id = key * 67108864 + lid;
        if t.x == tx && t.y == ty {
            assert(id - tkey * 67108864 == lid);
        } else {
            if tile_span(t).contains(id) {
                lemma_id_in_span_key(tkey, 67108864, id);
                lemma_id_in_span_key(key, 67108864, id);
                lemma_fundamental_div_mod_converse(tkey, 512, t.x as int, t.y as int);
                lemma_fundamental_div_mod_converse(key, 512, tx, ty);
                assert(false);
            }
        }
    }

    /// Every tile-local cell id is in the tile's id range.
    proof fn lemma_local_id_bounds(bx: int, by: int, cx: int, cy: int)
        requires
            0 <= bx < 128,
            0 <= by < 128,
            0 <= cx < 64,
            0 <= cy < 64,
        ensures
            0 <= tile_local_id(bx, by, cell_index(cx, cy)) < 67108864,
            0 <= cell_index(cx, cy) < 4096,
    {
    }

    /// Reads the presence bit of one fully qualified cell; absent tiles
    /// and blocks read as all zero.
    pub fn get(&self, tx: u16, ty: u16, bx: u8, by: u8, cx: u8, cy: u8) -> (r: Result<
        bool,
        BitmapError,
    >)
        requires
            self.wf(),
        ensures
            tx < 512 && ty < 512 && bx < 128 && by < 128 && cx < 64 && cy < 64 ==> r == Ok::<
                bool,
                BitmapError,
            >(
                self.cells().contains(
                    map_cell_id(tx as int, ty as int, bx as int, by as int, cx as int, cy as int),
                ),
            ),
            !(tx < 512 && ty < 512 && bx < 128 && by < 128 && cx < 64 && cy < 64) ==> r == Err::<
                bool,
                BitmapError,
            >(BitmapError::OutOfBounds),
    {
        if !(tx < 512 && ty < 512) {
            return Err(BitmapError::OutOfBounds);
        }
        let ghost lid = tile_local_id(bx as int, by as int, cell_index(cx as int, cy as int));
        let ghost id = map_cell_id(tx as int, ty as int, bx as int, by as int, cx as int, cy as int);
        match self.find_tile(tx, ty) {
            Some(j) => {
                let r = self.tiles[j].get(bx, by, cx, cy);
                proof {
                    if bx < 128 && by < 128 && cx < 64 && cy < 64 {
                        Self::lemma_local_id_bounds(bx as int, by as int, cx as int, cy as int);
                        let t = self.tiles@[j as int];
                        Self::lemma_span_member(t, tx as int, ty as int, lid);
                        if t.cells().contains(lid) {
                            assert(tile_span(t).contains(id));
                            assert(self.cells().contains(id));
                        } else {
                            if self.cells().contains(id) {
                                let j2 = choose|j2: int|
                                    0 <= j2 < self.tiles@.len() && #[trigger] tile_span(
                                        self.tiles@[j2],
                                    ).contains(id);
                                Self::lemma_span_member(self.tiles@[j2], tx as int, ty as int, lid);
                                assert(self.tiles@[j2].x == tx && self.tiles@[j2].y == ty);
                                assert(j2 == j as int) by {
                                    if j2 != j as int {
                                        assert(!(self.tiles@[j2].x == self.tiles@[j as int].x
                                            && self.tiles@[j2].y == self.tiles@[j as int].y));
                                    }
                                }
                                assert(false);
                            }
                        }
                    }
                }
                r
            },
            None => {
                if !(bx < 128 && by < 128 && cx < 64 && cy < 64) {
                    return Err(BitmapError::OutOfBounds);
                }
                proof {
                    Self::lemma_local_id_bounds(bx as int, by as int, cx as int, cy as int);
                    if self.cells().contains(id) {
                        let j2 = choose|j2: int|
                            0 <= j2 < self.tiles@.len() && #[trigger] tile_span(
                                self.tiles@[j2],
                            ).contains(id);
                        Self::lemma_span_member(self.tiles@[j2], tx as int, ty as int, lid);
                        assert(self.tiles@[j2].x == tx && self.tiles@[j2].y == ty);
                        assert(false);
                    }
                }
                Ok(false)
            },
        }
    }

    /// Writes the presence bit of one fully qualified cell, creating the
    /// tile and block as needed; a block or tile that becomes all zero is
    /// eagerly pruned, so the non-empty invariant holds after every write.
    pub fn set(&mut self, tx: u16, ty: u16, bx: u8, by: u8, cx: u8, cy: u8, value: bool) -> (r:
        Result<(), BitmapError>)
        requires
            old(self).wf(),
            old(self).pruned(),
        ensures
            final(self).wf(),
            final(self).pruned(),
            tx < 512 && ty < 512 && bx < 128 && by < 128 && cx < 64 && cy < 64 ==> r == Ok::<
                (),
                BitmapError,
            >(()) && (if value {
                final(self).cells() == old(self).cells().insert(
                    map_cell_id(tx as int, ty as int, bx as int, by as int, cx as int, cy as int),
                )
            } else {
                final(self).cells() == old(self).cells().remove(
                    map_cell_id(tx as int, ty as int, bx as int, by as int, cx as int, cy as int),
                )
            }),
            !(tx < 512 && ty < 512 && bx < 128 && by < 128 && cx < 64 && cy < 64) ==> r == Err::<
                (),
                BitmapError,
            >(BitmapError::OutOfBounds) && final(self).tiles@ == old(self).tiles@,
    {
        if !(tx < 512 && ty < 512 && bx < 128 && by < 128 && cx < 64 && cy < 64) {
            return Err(BitmapError::OutOfBounds);
        }
        let ghost lid = tile_local_id(bx as int, by as int, cell_index(cx as int, cy as int));
        let ghost id0 = map_cell_id(tx as int, ty as int, bx as int, by as int, cx as int, cy as int);
        let ghost s_old = self.tiles@;
        let ghost n = s_old.len() as int;
        proof {
            Self::lemma_local_id_bounds(bx as int, by as int, cx as int, cy as int);
        }
        match self.find_tile(tx, ty) {
            Some(j) => {
                let mut t = self.tiles.remove(j);
                let ghost t_old = t;
                let _ = t.set(bx, by, cx, cy, value);
                let empty_now = t.is_empty();
                if !empty_now {
                    self.tiles.insert(j, t);
                    proof {
                        lemma_remove_insert_is_update(s_old, j as int, t);
                        assert(self.tiles@ =~= s_old.update(j as int, t));
                        let s_new = self.tiles@;
                        Self::lemma_span_member(t_old, tx as int, ty as int, lid);
                        Self::lemma_span_member(t, tx as int, ty as int, lid);
                        assert forall|id: int| #![all_triggers] 0 <= id implies (
                        tiles_prefix_cells(s_new, n).contains(id) <==> (if value {
                            tiles_prefix_cells(s_old, n).insert(id0)
                        } else {
                            tiles_prefix_cells(s_old, n).remove(id0)
                        }).contains(id)) by {
                            if tiles_prefix_cells(s_new, n).contains(id) {
                                let j2 = choose|j2: int|
                                    0 <= j2 < n && #[trigger] tile_span(s_new[j2]).contains(id);
                                if j2 == j as int {
                                    assert(tile_span(t).contains(id));
                                    assert(id == id0 || tile_span(t_old).contains(id));
                                } else {
                                    assert(tile_span(s_old[j2]).contains(id));
                                    if id == id0 {
                                        Self::lemma_span_member(s_old[j2], tx as int, ty as int, lid);
                                    }
                                }
                            }
                            if id == id0 && value {
                                assert(t.cells().contains(lid));
                                assert(tile_span(s_new[j as int]).contains(id0));
                            }
                            if id != id0 && tiles_prefix_cells(s_old, n).contains(id) {
                                let j2 = choose|j2: int|
                                    0 <= j2 < n && #[trigger] tile_span(s_old[j2]).contains(id);
                                if j2 == j as int {
                                    assert(tile_span(t).contains(id));
                                    assert(tile_span(s_new[j2]).contains(id));
                                } else {
                                    assert(tile_span(s_new[j2]).contains(id));
                                }
                            }
                        }
                        if value {
                            assert(self.cells() =~= old(self).cells().insert(id0));
                        } else {
                            assert(self.cells() =~= old(self).cells().remove(id0));
                        }
                    }
                } else {
                    proof {
                        assert(!value) by {
                            if value {
                                assert(t.cells().contains(lid));
                            }
                        }
                        assert(self.tiles@ =~= s_old.remove(j as int));
                        let s_new = self.tiles@;
                        Self::lemma_span_member(t_old, tx as int, ty as int, lid);
                        assert forall|id: int| #![all_triggers] 0 <= id implies (
                        tiles_prefix_cells(s_new, n - 1).contains(id) <==> tiles_prefix_cells(
                            s_old,
                            n,
                        ).remove(id0).contains(id)) by {
                            if tiles_prefix_cells(s_new, n - 1).contains(id) {
                                let j2 = choose|j2: int|
                                    0 <= j2 < n - 1 && #[trigger] tile_span(s_new[j2]).contains(
                                        id,
                                    );
                                let oj = if j2 < j as int {
                                    j2
                                } else {
                                    j2 + 1
                                };
                                assert(tile_span(s_old[oj]).contains(id));
                                if id == id0 {
                                    Self::lemma_span_member(s_old[oj], tx as int, ty as int, lid);
                                    assert(s_old[oj].x == tx && s_old[oj].y == ty);
                                    assert(oj != j as int);
                                    assert(false);
                                }
                            }
                            if id != id0 && tiles_prefix_cells(s_old, n).contains(id) {
                                let j2 = choose|j2: int|
                                    0 <= j2 < n && #[trigger] tile_span(s_old[j2]).contains(id);
                                if j2 == j as int {
                                    assert(tile_span(t_old).contains(id));
                                    let base = tile_key(tx as int, ty as int) * 67108864;
                                    assert(t_old.cells().contains(id - base));
                                    assert(id - base != lid);
                                    assert(t.cells().contains(id - base));
                                    assert(false);
                                } else {
                                    let nj = if j2 < j as int {
                                        j2
                                    } else {
                                        j2 - 1
                                    };
                                    assert(tile_span(s_new[nj]).contains(id));
                                }
                            }
                        }
                        assert(self.cells() =~= old(self).cells().remove(id0));
                    }
                }
                Ok(())
            },
            None => {
                if value {
                    let mut nt = Tile::new(tx, ty);
                    let _ = nt.set(bx, by, cx, cy, true);
                    self.tiles.push(nt);
                    proof {
                        let s_new = self.tiles@;
                        assert(s_new =~= s_old.push(nt));
                        assert(nt.cells() =~= Set::<int>::empty().insert(lid));
                        Self::lemma_span_member(nt, tx as int, ty as int, lid);
                        assert forall|id: int| #![all_triggers] 0 <= id implies (
                        tiles_prefix_cells(s_new, n + 1).contains(id) <==> tiles_prefix_cells(
                            s_old,
                            n,
                        ).insert(id0).contains(id)) by {
                            if tiles_prefix_cells(s_new, n + 1).contains(id) {
                                let j2 = choose|j2: int|
                                    0 <= j2 < n + 1 && #[trigger] tile_span(s_new[j2]).contains(
                                        id,
                                    );
                                if j2 == n {
                                    let base = tile_key(tx as int, ty as int) * 67108864;
                                    assert(nt.cells().contains(id - base));
                                    assert(id - base == lid);
                                } else {
                                    assert(tile_span(s_old[j2]).contains(id));
                                }
                            }
                            if id == id0 {
                                assert(tile_span(s_new[n as int]).contains(id0));
                            }
                            if tiles_prefix_cells(s_old, n).contains(id) {
                                let j2 = choose|j2: int|
                                    0 <= j2 < n && #[trigger] tile_span(s_old[j2]).contains(id);
                                assert(tile_span(s_new[j2]).contains(id));
                            }
                        }
                        assert(self.cells() =~= old(self).cells().insert(id0));
                    }
                    Ok(())
                } else {
                    proof {
                        if old(self).cells().contains(id0) {
                            let j2 = choose|j2: int|
                                0 <= j2 < n && #[trigger] tile_span(s_old[j2]).contains(id0);
                            Self::lemma_span_member(s_old[j2], tx as int, ty as int, lid);
                            assert(false);
                        }
                        assert(self.cells() =~= old(self).cells().remove(id0));
                    }
                    Ok(())
                }
            },
        }
    }

    /// True iff the map holds no tile; with pruning this is exactly zero
    /// coverage.
    pub fn is_empty(&self) -> (r: bool)
        requires
            self.wf(),
            self.pruned(),
        ensures
            r == (self.tiles@.len() == 0),
            r <==> self.cells() == Set::<int>::empty(),
    {
        let r = self.tiles.len() == 0;
        proof {
            if r {
                assert(self.cells() =~= Set::<int>::empty());
            } else {
                let t = self.tiles@[0];
                assert(t.cells() != Set::<int>::empty());
                if forall|lid: int| !(#[trigger] t.cells().contains(lid)) {
                    assert(t.cells() =~= Set::<int>::empty());
                }
                let lid = choose|lid: int| #[trigger] t.cells().contains(lid);
                Self::lemma_tile_cells_bounded(t);
                let id = tile_key(t.x as int, t.y as int) * 67108864 + lid;
                assert(tile_span(t).contains(id)) by {
                    assert(tile_key(t.x as int, t.y as int) >= 0);
                }
                assert(self.cells().contains(id));
            }
        }
        r
    }

    /// Every covered tile-local id of a well-formed tile is in range.
    proof fn lemma_tile_cells_bounded(t: Tile)
        requires
            t.wf(),
        ensures
            forall|lid: int| #[trigger] t.cells().contains(lid) ==> 0 <= lid < 67108864,
    {
        assert forall|lid: int| #[trigger] t.cells().contains(lid) implies 0 <= lid
            < 67108864 by {
            let j = choose|j: int|
                0 <= j < t.blocks@.len() && #[trigger] block_span(t.blocks@[j]).contains(lid);
            let b = t.blocks@[j];
            assert(block_key(b.x as int, b.y as int) <= 16383);
        }
    }

    /// Tile-wise, then block-wise union of another map into this one; the
    /// result covers exactly the union of both coverage sets.
    pub fn merge(&mut self, other: &JourneyBitmap)
        requires
            old(self).wf(),
            old(self).pruned(),
            other.wf(),
            other.pruned(),
        ensures
            final(self).wf(),
            final(self).pruned(),
            final(self).cells() == old(self).cells().union(other.cells()),
    {
        let ghost on = other.tiles@.len() as int;
        for i in 0..other.tiles.len()
            invariant
                self.wf(),
                self.pruned(),
                other.wf(),
                other.pruned(),
                self.cells() == old(self).cells().union(tiles_prefix_cells(other.tiles@, i as int)),
        {
            let ghost ot = other.tiles@[i as int];
            let ghost s_pre = self.tiles@;
            let ghost pre_cells = self.cells();
            let otx = other.tiles[i].x;
            let oty = other.tiles[i].y;
            match self.find_tile(otx, oty) {
                Some(j) => {
                    let mut t = self.tiles.remove(j);
                    let ghost t_old = t;
                    t.merge(&other.tiles[i]);
                    self.tiles.insert(j, t);
                    proof {
                        lemma_remove_insert_is_update(s_pre, j as int, t);
                        assert(self.tiles@ =~= s_pre.update(j as int, t));
                        let s_new = self.tiles@;
                        assert(tile_span(t) =~= tile_span(t_old).union(tile_span(ot)));
                        assert(t.cells() != Set::<int>::empty()) by {
                            if forall|lid: int| !(#[trigger] t_old.cells().contains(lid)) {
                                assert(t_old.cells() =~= Set::<int>::empty());
                            }
                            let lid = choose|lid: int| #[trigger] t_old.cells().contains(lid);
                            assert(t.cells().contains(lid));
                        }
                        assert forall|id: int| #![all_triggers] 0 <= id implies (
                        self.cells().contains(id) <==> pre_cells.union(tile_span(ot)).contains(
                            id,
                        )) by {
                            if self.cells().contains(id) {
                                let j2 = choose|j2: int|
                                    0 <= j2 < s_new.len() && #[trigger] tile_span(
                                        s_new[j2],
                                    ).contains(id);
                                if j2 != j as int {
                                    assert(tile_span(s_pre[j2]).contains(id));
                                }
                            }
                            if pre_cells.contains(id) {
                                let j2 = choose|j2: int|
                                    0 <= j2 < s_pre.len() && #[trigger] tile_span(
                                        s_pre[j2],
                                    ).contains(id);
                                assert(tile_span(s_new[j2]).contains(id));
                            }
                            if tile_span(ot).contains(id) {
                                assert(tile_span(s_new[j as int]).contains(id));
                            }
                        }
                        assert(self.cells() =~= pre_cells.union(tile_span(ot)));
                        assert(tiles_prefix_cells(other.tiles@, i + 1) =~= tiles_prefix_cells(
                            other.tiles@,
                            i as int,
                        ).union(tile_span(ot))) by {
                            assert forall|id: int|
                                #![all_triggers]
                                tiles_prefix_cells(other.tiles@, i + 1).contains(id) implies (
                            tiles_prefix_cells(other.tiles@, i as int).contains(id)
                                || tile_span(ot).contains(id)) by {
                                let j2 = choose|j2: int|
                                    0 <= j2 < i + 1 && #[trigger] tile_span(
                                        other.tiles@[j2],
                                    ).contains(id);
                            }
                        }
                        assert(self.cells() =~= old(self).cells().union(
                            tiles_prefix_cells(other.tiles@, i + 1),
                        ));
                    }
                },
                None => {
                    let nt = other.tiles[i].duplicate();
                    self.tiles.push(nt);
                    proof {
                        let s_new = self.tiles@;
                        assert(s_new =~= s_pre.push(nt));
                        assert(tile_span(nt) =~= tile_span(ot));
                        assert(ot.cells() != Set::<int>::empty());
                        assert forall|id: int| #![all_triggers] 0 <= id implies (
                        self.cells().contains(id) <==> pre_cells.union(tile_span(ot)).contains(
                            id,
                        )) by {
                            if self.cells().contains(id) {
                                let j2 = choose|j2: int|
                                    0 <= j2 < s_new.len() && #[trigger] tile_span(
                                        s_new[j2],
                                    ).contains(id);
                                if j2 != s_pre.len() {
                                    assert(tile_span(s_pre[j2]).contains(id));
                                }
                            }
                            if pre_cells.contains(id) {
                                let j2 = choose|j2: int|
                                    0 <= j2 < s_pre.len() && #[trigger] tile_span(
                                        s_pre[j2],
                                    ).contains(id);
                                assert(tile_span(s_new[j2]).contains(id));
                            }
                            if tile_span(ot).contains(id) {
                                assert(tile_span(s_new[s_pre.len() as int]).contains(id));
                            }
                        }
                        assert(self.cells() =~= pre_cells.union(tile_span(ot)));
                        assert(tiles_prefix_cells(other.tiles@, i + 1) =~= tiles_prefix_cells(
                            other.tiles@,
                            i as int,
                        ).union(tile_span(ot))) by {
                            assert forall|id: int|
                                #![all_triggers]
                                tiles_prefix_cells(other.tiles@, i + 1).contains(id) implies (
                            tiles_prefix_cells(other.tiles@, i as int).contains(id)
                                || tile_span(ot).contains(id)) by {
                                let j2 = choose|j2: int|
                                    0 <= j2 < i + 1 && #[trigger] tile_span(
                                        other.tiles@[j2],
                                    ).contains(id);
                            }
                        }
                        assert(self.cells() =~= old(self).cells().union(
                            tiles_prefix_cells(other.tiles@, i + 1),
                        ));
                    }
                },
            }
        }
        proof {
            assert(tiles_prefix_cells(other.tiles@, on) == other.cells());
            assert(self.cells() =~= old(self).cells().union(other.cells()));
        }
    }

    /// An owned copy of the map.
    pub fn duplicate(&self) -> (r: JourneyBitmap)
        requires
            self.wf(),
        ensures
            r.wf(),
            self.pruned() ==> r.pruned(),
            r.cells() == self.cells(),
    {
        let mut tiles: Vec<Tile> = Vec::new();
        for k in 0..self.tiles.len()
            invariant
                self.wf(),
                tiles@.len() == k,
                forall|j: int|
                    0 <= j < k ==> (#[trigger] tiles@[j]).wf() && tiles@[j].x == self.tiles@[j].x
                        && tiles@[j].y == self.tiles@[j].y && tiles@[j].cells()
                        == self.tiles@[j].cells() && (self.tiles@[j].pruned()
                        ==> tiles@[j].pruned()),
        {
            let t = self.tiles[k].duplicate();
            tiles.push(t);
        }
        let r = JourneyBitmap { tiles };
        proof {
            assert forall|j: int| 0 <= j < r.tiles@.len() implies tile_span(r.tiles@[j])
                == tile_span(self.tiles@[j]) by {
                assert(tile_span(r.tiles@[j]) =~= tile_span(self.tiles@[j]));
            }
            assert forall|id: int| #![all_triggers] 0 <= id implies (r.cells().contains(id)
                <==> self.cells().contains(id)) by {
                if r.cells().contains(id) {
                    let j2 = choose|j2: int|
                        0 <= j2 < r.tiles@.len() && #[trigger] tile_span(r.tiles@[j2]).contains(
                            id,
                        );
                    assert(tile_span(self.tiles@[j2]).contains(id));
                }
                if self.cells().contains(id) {
                    let j2 = choose|j2: int|
                        0 <= j2 < self.tiles@.len() && #[trigger] tile_span(
                            self.tiles@[j2],
                        ).contains(id);
                    assert(tile_span(r.tiles@[j2]).contains(id));
                }
            }
            assert(r.cells() =~= self.cells());
        }
        r
    }

    /// No two distinct tiles own the same map-global id.
    proof fn lemma_tile_span_unique(&self, j1: int, j2: int, id: int)
        requires
            self.wf(),
            0 <= j1 < self.tiles@.len(),
            0 <= j2 < self.tiles@.len(),
            tile_span(self.tiles@[j1]).contains(id),
            tile_span(self.tiles@[j2]).contains(id),
        ensures
            j1 == j2,
    {
        let t1 = self.tiles@[j1];
        let t2 = self.tiles@[j2];
        let k1 = tile_key(t1.x as int, t1.y as int);
        let k2 = tile_key(t2.x as int, t2.y as int);
        lemma_id_in_span_key(k1, 67108864, id);
        lemma_id_in_span_key(k2, 67108864, id);
        assert(k1 == k2);
        lemma_fundamental_div_mod_converse(k1, 512, t1.x as int, t1.y as int);
        lemma_fundamental_div_mod_converse(k2, 512, t2.x as int, t2.y as int);
        assert(t1.x == t2.x && t1.y == t2.y);
        if j1 != j2 {
            assert(false);
        }
    }

    /// Every covered map-global id is in range.
    proof fn lemma_prefix_cells_bounded(&self, n: int)
        requires
            self.wf(),
            0 <= n <= self.tiles@.len(),
        ensures
            forall|id: int| #[trigger] tiles_prefix_cells(self.tiles@, n).contains(id) ==> 0 <= id
                < 17592186044416,
    {
        assert forall|id: int| #[trigger] tiles_prefix_cells(self.tiles@, n).contains(
            id,
        ) implies 0 <= id < 17592186044416 by {
            let j = choose|j: int| 0 <= j < n && #[trigger] tile_span(self.tiles@[j]).contains(id);
            let t = self.tiles@[j];
            assert(tile_key(t.x as int, t.y as int) <= 262143);
        }
    }

    /// The coverage set of a well-formed map is finite and bounded by the
    /// total cell count.
    pub proof fn lemma_cells_finite(&self)
        requires
            self.wf(),
        ensures
            self.cells().finite(),
            self.cells().len() <= 17592186044416,
            forall|id: int| #[trigger] self.cells().contains(id) ==> 0 <= id < 17592186044416,
    {
        self.lemma_prefix_cells_bounded(self.tiles@.len() as int);
        assert(self.cells().subset_of(set_int_range(0, 17592186044416)));
        lemma_int_range(0, 17592186044416);
        lemma_len_subset(self.cells(), set_int_range(0, 17592186044416));
    }

    /// Number of covered cells over the whole map.
    pub fn count_cells(&self) -> (r: u64)
        requires
            self.wf(),
        ensures
            r as nat == self.cells().len(),
            r <= 17592186044416,
    {
        let mut c: u64 = 0;
        proof {
            assert(tiles_prefix_cells(self.tiles@, 0) =~= Set::<int>::empty());
        }
        for j in 0..self.tiles.len()
            invariant
                self.wf(),
                c as nat == tiles_prefix_cells(self.tiles@, j as int).len(),
                c <= 17592186044416,
        {
            proof {
                self.lemma_prefix_cells_bounded(j as int);
                assert(tiles_prefix_cells(self.tiles@, j as int).subset_of(
                    set_int_range(0, 17592186044416),
                ));
                lemma_int_range(0, 17592186044416);
                lemma_len_subset(
                    tiles_prefix_cells(self.tiles@, j as int),
                    set_int_range(0, 17592186044416),
                );
            }
            let tc = self.tiles[j].count_cells();
            proof {
                let t = self.tiles@[j as int];
                let base = tile_key(t.x as int, t.y as int) * 67108864;
                Self::lemma_tile_cells_bounded(t);
                assert(t.cells().subset_of(set_int_range(0, 67108864)));
                lemma_int_range(0, 67108864);
                lemma_len_subset(t.cells(), set_int_range(0, 67108864));
                assert(tile_span(t) =~= Set::new(
                    |id: int| base <= id < base + 67108864 && t.cells().contains(id - base),
                ));
                lemma_shift_len(t.cells(), base, 67108864, tile_span(t));
                assert forall|id: int|
                    !(tiles_prefix_cells(self.tiles@, j as int).contains(id) && tile_span(
                        t,
                    ).contains(id)) by {
                    if tiles_prefix_cells(self.tiles@, j as int).contains(id) && tile_span(
                        t,
                    ).contains(id) {
                        let j2 = choose|j2: int|
                            0 <= j2 < j && #[trigger] tile_span(self.tiles@[j2]).contains(id);
                        self.lemma_tile_span_unique(j2, j as int, id);
                    }
                }
                lemma_disjoint_union_len(tiles_prefix_cells(self.tiles@, j as int), tile_span(t));
                assert(tiles_prefix_cells(self.tiles@, j + 1) =~= tiles_prefix_cells(
                    self.tiles@,
                    j as int,
                ).union(tile_span(t))) by {
                    assert forall|id: int|
                        #![all_triggers]
                        tiles_prefix_cells(self.tiles@, j + 1).contains(id) implies (
                    tiles_prefix_cells(self.tiles@, j as int).contains(id) || tile_span(
                        t,
                    ).contains(id)) by {
                        let j2 = choose|j2: int|
                            0 <= j2 < j + 1 && #[trigger] tile_span(self.tiles@[j2]).contains(id);
                    }
                }
                self.lemma_prefix_cells_bounded(j + 1);
                lemma_len_subset(
                    tiles_prefix_cells(self.tiles@, j + 1),
                    set_int_range(0, 17592186044416),
                );
            }
            c = c + tc as u64;
        }
        proof {
            assert(tiles_prefix_cells(self.tiles@, self.tiles@.len() as int) == self.cells());
        }
        c
    }
}

/// Law: merging is commutative. `JourneyBitmap::merge` yields the union of
/// the two coverage sets, and union does not depend on the order of its
/// arguments, so merging `a` into `b` and `b` into `a` cover the same cells.
pub proof fn lemma_merge_commutative(a: JourneyBitmap, b: JourneyBitmap)
    ensures
        a.cells().union(b.cells()) == b.cells().union(a.cells()),
{
    assert(a.cells().union(b.cells()) =~= b.cells().union(a.cells()));
}

/// Law: merging is associative. Merging `b` into `a` and then `c` into the
/// result covers the same cells as merging `c` into `b` first.
pub proof fn lemma_merge_associative(a: JourneyBitmap, b: JourneyBitmap, c: JourneyBitmap)
    ensures
        a.cells().union(b.cells()).union(c.cells()) == a.cells().union(b.cells().union(c.cells())),
{
    assert(a.cells().union(b.cells()).union(c.cells()) =~= a.cells().union(
        b.cells().union(c.cells()),
    ));
}

/// Law: merging is idempotent. Merging a map with itself changes nothing
/// observable.
pub proof fn lemma_merge_idempotent(a: JourneyBitmap)
    ensures
        a.cells().union(a.cells()) == a.cells(),
{
    assert(a.cells().union(a.cells()) =~= a.cells());
}

/// Law: merging with an empty map is a no-op.
pub proof fn lemma_merge_empty(a: JourneyBitmap, b: JourneyBitmap)
    requires
        b.cells() == Set::<int>::empty(),
    ensures
        a.cells().union(b.cells()) == a.cells(),
{
    assert(a.cells().union(b.cells()) =~= a.cells());
}

/// Law: covered area is monotonic non-decreasing under merge. The area of
/// the merged map is at least the larger of the two areas.
pub proof fn lemma_area_monotonic(a: JourneyBitmap, b: JourneyBitmap)
    requires
        a.wf(),
        b.wf(),
    ensures
        a.cells().union(b.cells()).len() >= a.cells().len(),
        a.cells().union(b.cells()).len() >= b.cells().len(),
{
    a.lemma_cells_finite();
    b.lemma_cells_finite();
    vstd::set_lib::lemma_len_union_ind(a.cells(), b.cells());
}

} // verus!
