//! The height field of one chunk, and the mapping from world positions to its
//! cells.

use crate::single;
use crate::texture::{
    from_le_bytes, image_channels, image_data, image_nearest, image_size, le_bytes,
    push_le_bytes, sampled_nearest, single_channel_image,
};
use bevy::image::Image;
use vstd::arithmetic::div_mod::lemma_mod_multiples_vanish;
use vstd::prelude::*;

verus! {

/// Side of the chunk in world units.
pub const CHUNK_SIZE_PIXELS: usize = 4096;

/// Side of the grid in cells.
pub const SQUARE: usize = 16;

/// Elevation of the water surface, 0.5 as a binary32 pattern. A cell is land
/// where its elevation is greater; at the level itself it is water.
pub const WATER_LEVEL: u32 = 0x3f00_0000;

/// The cell on the grid that an index along one axis falls into when the
/// chunk repeats without end in both directions.
pub open spec fn wrap(aligned: int) -> int {
    aligned % (SQUARE as int)
}

/// Row-major position of cell `(x, y)` in the grid.
pub open spec fn cell_index(x: int, y: int) -> int {
    y * SQUARE + x
}

fn wrap_axis(aligned: isize) -> (within: usize)
    ensures
        within == wrap(aligned as int),
{
    let mut within: isize = aligned % (SQUARE as isize);
    if aligned < 0 && within != 0 {
        within = within + SQUARE as isize;
    }
    within as usize
}

/// The cell of a position that has been brought to grid units, with the
/// centre of the chunk at world origin: `aligned` is, on each axis, the
/// position divided by the side of a cell, plus half the side of the grid,
/// with the digits after the point cut off.
///
/// The chunk tiles the plane, so every index maps into the grid.
pub fn world_2_chunk(aligned: (isize, isize)) -> (cell: (usize, usize))
    ensures
        cell.0 == wrap(aligned.0 as int),
        cell.1 == wrap(aligned.1 as int),
{
    (wrap_axis(aligned.0), wrap_axis(aligned.1))
}

/// A position moved by whole chunks falls into the same cell, and every cell
/// lies on the grid.
pub proof fn lemma_wrap_periodic(aligned: int, chunks: int)
    ensures
        wrap(aligned + chunks * SQUARE) == wrap(aligned),
        0 <= wrap(aligned) < SQUARE,
{
    lemma_mod_multiples_vanish(chunks, aligned, SQUARE as int);
    assert(aligned + chunks * SQUARE == SQUARE * chunks + aligned) by (nonlinear_arith);
}

/// The elevations of one chunk: a square grid of binary32 patterns, stored
/// row by row.
pub struct TerrainChunk {
    heights: Vec<u32>,
}

impl View for TerrainChunk {
    type V = Seq<u32>;

    /// The elevations in row-major order.
    closed spec fn view(&self) -> Seq<u32> {
        self.heights@
    }
}

impl TerrainChunk {
    /// The grid holds one elevation for each cell.
    pub open spec fn wf(&self) -> bool {
        self@.len() == SQUARE * SQUARE
    }

    /// Elevation of cell `(x, y)`.
    pub open spec fn height_at(&self, x: int, y: int) -> u32 {
        self@[cell_index(x, y)]
    }

    /// Whether cell `(x, y)` is land.
    pub open spec fn land_at(&self, x: int, y: int) -> bool {
        is_land(self.height_at(x, y))
    }

    /// A chunk that lies at elevation zero everywhere.
    pub fn zero() -> (chunk: TerrainChunk)
        ensures
            chunk.wf(),
            forall|i: int| 0 <= i < SQUARE * SQUARE ==> chunk@[i] == single::ZERO,
    {
        let heights = vec![single::ZERO; SQUARE * SQUARE];
        TerrainChunk { heights }
    }

    /// Sets the elevation of cell `(x, y)`.
    pub fn set(&mut self, x: usize, y: usize, h: u32)
        requires
            old(self).wf(),
            x < SQUARE,
            y < SQUARE,
        ensures
            final(self).wf(),
            final(self)@ == old(self)@.update(cell_index(x as int, y as int), h),
    {
        let i = y * SQUARE + x;
        self.heights.set(i, h);
    }

    /// The elevation of cell `(x, y)`.
    pub fn get(&self, x: usize, y: usize) -> (h: u32)
        requires
            self.wf(),
            x < SQUARE,
            y < SQUARE,
        ensures
            h == self.height_at(x as int, y as int),
    {
        let i = y * SQUARE + x;
        self.heights[i]
    }

    /// Whether cell `(x, y)` rises above the water.
    pub fn is_land(&self, x: usize, y: usize) -> (land: bool)
        requires
            self.wf(),
            x < SQUARE,
            y < SQUARE,
        ensures
            land == self.land_at(x as int, y as int),
    {
        single::gt(self.get(x, y), WATER_LEVEL)
    }
}

/// Side of one cell in world units.
pub open spec fn cell_side() -> int {
    CHUNK_SIZE_PIXELS as int / SQUARE as int
}

/// World coordinate, along one axis, of the centre of the cells with index
/// `cell` in a chunk that is moved by `offset`: the centre of the chunk lies
/// at `offset`.
pub open spec fn cell_centre(cell: int, offset: int) -> int {
    cell * cell_side() + offset - cell_side() * (SQUARE as int / 2) + cell_side() / 2
}

/// The static collider that stands for one land cell: a square of side
/// `side` with its centre at `(x, y)`, in world units.
#[derive(Clone, Copy, Debug, PartialEq, Eq, Structural)]
pub struct LandCollider {
    pub side: usize,
    pub x: i64,
    pub y: i64,
}

/// The collider of the cell at row-major position `k`.
pub open spec fn collider_of(k: int, offset: (i32, i32)) -> LandCollider {
    LandCollider {
        side: cell_side() as usize,
        x: cell_centre(k % (SQUARE as int), offset.0 as int) as i64,
        y: cell_centre(k / (SQUARE as int), offset.1 as int) as i64,
    }
}

/// The colliders of the land cells among the first `k` cells, in row-major
/// order.
pub open spec fn colliders_upto(heights: Seq<u32>, k: int, offset: (i32, i32)) -> Seq<LandCollider>
    decreases k,
{
    if k <= 0 {
        Seq::empty()
    } else if is_land(heights[k - 1]) {
        colliders_upto(heights, k - 1, offset).push(collider_of(k - 1, offset))
    } else {
        colliders_upto(heights, k - 1, offset)
    }
}

impl TerrainChunk {
    /// One collider for every land cell and none for a water cell, row by
    /// row. Neighbouring land cells are not merged.
    pub open spec fn colliders(&self, offset: (i32, i32)) -> Seq<LandCollider> {
        colliders_upto(self@, SQUARE * SQUARE, offset)
    }

    /// The colliders of the land cells of a chunk whose centre lies at
    /// `offset` in the world.
    pub fn land_colliders(&self, offset: (i32, i32)) -> (colliders: Vec<LandCollider>)
        requires
            self.wf(),
        ensures
            colliders@ == self.colliders(offset),
    {
        let mut colliders: Vec<LandCollider> = Vec::with_capacity(SQUARE * SQUARE);
        let collider_size: usize = CHUNK_SIZE_PIXELS / SQUARE;
        let size: i64 = collider_size as i64;
        for y in 0..SQUARE
            invariant
                self.wf(),
                collider_size == cell_side(),
                size == cell_side(),
                colliders@ == colliders_upto(self@, y * SQUARE, offset),
        {
            for x in 0..SQUARE
                invariant
                    self.wf(),
                    y < SQUARE,
                    collider_size == cell_side(),
                    size == cell_side(),
                    colliders@ == colliders_upto(self@, y * SQUARE + x, offset),
            {
                if self.is_land(x, y) {
                    let cx: i64 = x as i64 * size + offset.0 as i64 - size * (SQUARE / 2) as i64
                        + size / 2;
                    let cy: i64 = y as i64 * size + offset.1 as i64 - size * (SQUARE / 2) as i64
                        + size / 2;
                    colliders.push(LandCollider { side: collider_size, x: cx, y: cy });
                }
            }
        }
        colliders
    }
}

/// The height texture of a grid: for every cell, in row-major order, the four
/// bytes of its elevation.
pub open spec fn height_texture(heights: Seq<u32>) -> Seq<u8> {
    Seq::new(4 * heights.len(), |i: int| le_bytes(heights[i / 4])[i % 4])
}

/// The elevations that a height texture spells.
pub open spec fn decode_height_texture(bytes: Seq<u8>) -> Seq<u32> {
    Seq::new(bytes.len() / 4, |i: int| from_le_bytes(bytes.subrange(4 * i, 4 * i + 4)))
}

/// Decoding the height texture of a grid gives the grid back, bit for bit.
pub proof fn lemma_height_texture_round_trip(heights: Seq<u32>)
    ensures
        decode_height_texture(height_texture(heights)) == heights,
{
    let bytes = height_texture(heights);
    let decoded = decode_height_texture(bytes);
    assert(decoded.len() == heights.len());
    assert forall|i: int| 0 <= i < heights.len() implies decoded[i] == heights[i] by {
        assert(bytes.subrange(4 * i, 4 * i + 4) == le_bytes(heights[i]));
    }
}

impl TerrainChunk {
    /// The bytes of the height texture.
    pub fn texture_bytes(&self) -> (bytes: Vec<u8>)
        requires
            self.wf(),
        ensures
            bytes@ == height_texture(self@),
    {
        let mut bytes: Vec<u8> = Vec::with_capacity(4 * SQUARE * SQUARE);
        for i in 0..SQUARE * SQUARE
            invariant
                self.wf(),
                bytes@ == height_texture(self@.take(i as int)),
        {
            push_le_bytes(&mut bytes, self.heights[i]);
            assert(bytes@ == height_texture(self@.take(i + 1)));
        }
        assert(self@.take((SQUARE * SQUARE) as int) == self@);
        bytes
    }

    /// The height texture as an image of one channel, one pixel for each
    /// cell, sampled without blending.
    pub fn as_tex(&self) -> (image: Image)
        requires
            self.wf(),
        ensures
            image_data(image) == height_texture(self@),
            image_size(image) == (SQUARE as u32, SQUARE as u32),
            image_channels(image) == 1,
            image_nearest(image),
    {
        let height_bytes = self.texture_bytes();
        let image = single_channel_image(SQUARE as u32, SQUARE as u32, height_bytes);
        sampled_nearest(image)
    }
}

/// An elevation is land where it is greater than the water level.
pub open spec fn is_land(h: u32) -> bool {
    single::greater(h, WATER_LEVEL)
}

/// An elevation exactly at the water level is water.
pub proof fn lemma_water_level_is_water()
    ensures
        !is_land(WATER_LEVEL),
{
}

/// The colliders among the first `k` cells are those of the land cells, and
/// no others.
pub proof fn lemma_collider_cells(heights: Seq<u32>, k: int, offset: (i32, i32), c: LandCollider)
    ensures
        colliders_upto(heights, k, offset).contains(c) <==> exists|j: int|
            0 <= j < k && is_land(heights[j]) && c == #[trigger] collider_of(j, offset),
    decreases k,
{
    if k > 0 {
        lemma_collider_cells(heights, k - 1, offset, c);
        let rest = colliders_upto(heights, k - 1, offset);
        if is_land(heights[k - 1]) {
            let all = rest.push(collider_of(k - 1, offset));
            assert(all.last() == collider_of(k - 1, offset));
            assert(all.drop_last() == rest);
            if all.contains(c) {
                let i = choose|i: int| 0 <= i < all.len() && all[i] == c;
                if i < rest.len() {
                    assert(rest[i] == c);
                    assert(rest.contains(c));
                }
            }
            if rest.contains(c) {
                let i = choose|i: int| 0 <= i < rest.len() && rest[i] == c;
                assert(all[i] == c);
            }
            if c == collider_of(k - 1, offset) {
                assert(all[all.len() - 1] == c);
            }
        }
    }
}

/// The colliders of two cells of the grid stand in different places.
pub proof fn lemma_collider_of_injective(i: int, j: int, offset: (i32, i32))
    requires
        0 <= i < SQUARE * SQUARE,
        0 <= j < SQUARE * SQUARE,
        collider_of(i, offset) == collider_of(j, offset),
    ensures
        i == j,
{
    let n = SQUARE as int;
    let xi = cell_centre(i % n, offset.0 as int);
    let xj = cell_centre(j % n, offset.0 as int);
    let yi = cell_centre(i / n, offset.1 as int);
    let yj = cell_centre(j / n, offset.1 as int);
    assert(cell_side() == 256);
    assert(0 <= i % n < n && 0 <= j % n < n);
    assert(0 <= i / n < n && 0 <= j / n < n);
    assert(xi == (i % n) * 256 + offset.0 - 1920 && xj == (j % n) * 256 + offset.0 - 1920);
    assert(yi == (i / n) * 256 + offset.1 - 1920 && yj == (j / n) * 256 + offset.1 - 1920);
    assert(i64::MIN <= xi <= i64::MAX && i64::MIN <= xj <= i64::MAX);
    assert(i64::MIN <= yi <= i64::MAX && i64::MIN <= yj <= i64::MAX);
    assert(xi as i64 == xi && xj as i64 == xj);
    assert(yi as i64 == yi && yj as i64 == yj);
    assert(collider_of(i, offset).x == collider_of(j, offset).x);
    assert(collider_of(i, offset).y == collider_of(j, offset).y);
    assert(i % n == j % n);
    assert(i / n == j / n);
}

/// A water cell gets no collider.
pub proof fn lemma_water_cell_has_no_collider(
    chunk: TerrainChunk,
    x: int,
    y: int,
    offset: (i32, i32),
)
    requires
        chunk.wf(),
        0 <= x < SQUARE,
        0 <= y < SQUARE,
        !chunk.land_at(x, y),
    ensures
        !chunk.colliders(offset).contains(collider_of(cell_index(x, y), offset)),
{
    let c = collider_of(cell_index(x, y), offset);
    lemma_collider_cells(chunk@, SQUARE * SQUARE, offset, c);
    if chunk.colliders(offset).contains(c) {
        let j = choose|j: int|
            0 <= j < SQUARE * SQUARE && is_land(chunk@[j]) && c == #[trigger] collider_of(
                j,
                offset,
            );
        lemma_collider_of_injective(cell_index(x, y), j, offset);
    }
}

/// A cell whose elevation equals the water level is water, and gets no
/// collider.
pub proof fn lemma_water_level_cell_has_no_collider(
    chunk: TerrainChunk,
    x: int,
    y: int,
    offset: (i32, i32),
)
    requires
        chunk.wf(),
        0 <= x < SQUARE,
        0 <= y < SQUARE,
        chunk.height_at(x, y) == WATER_LEVEL,
    ensures
        !chunk.land_at(x, y),
        !chunk.colliders(offset).contains(collider_of(cell_index(x, y), offset)),
{
    lemma_water_level_is_water();
    lemma_water_cell_has_no_collider(chunk, x, y, offset);
}

} // verus!
