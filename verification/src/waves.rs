//! The direction field: for every water cell, a direction away from the
//! shore that lies nearest to it.

use crate::height::{cell_index, is_land, world_2_chunk, wrap, TerrainChunk, SQUARE};
use crate::single;
use crate::texture::{
    from_le_bytes, image_channels, image_data, image_nearest, image_size, le_bytes,
    lemma_le_bytes_round_trip, push_le_bytes, sampled_nearest, two_channel_image,
};
use bevy::image::Image;
use vstd::arithmetic::div_mod::lemma_fundamental_div_mod_converse;
use vstd::prelude::*;

verus! {

/// The largest radius at which land is looked for around a water cell.
pub const MAX_RADIUS: usize = 4;

/// A vector in the plane. Its components are binary32 patterns.
#[derive(Clone, Copy, Debug, PartialEq, Eq, Structural)]
pub struct Direction {
    pub x: u32,
    pub y: u32,
}

impl Direction {
    /// The vector without length, which says that no wave passes.
    pub open spec fn zero() -> Direction {
        Direction { x: single::ZERO, y: single::ZERO }
    }

    /// Both components are zero, of either sign.
    pub open spec fn is_zero(&self) -> bool {
        single::is_zero(self.x) && single::is_zero(self.y)
    }
}

/// The lowest index of a window of radius `r` around index `c`, cut off at
/// the edge of the grid.
pub open spec fn window_low(c: int, r: int) -> int {
    if c - r < 0 {
        0
    } else {
        c - r
    }
}

/// The highest index of a window of radius `r` around index `c`, cut off at
/// the edge of the grid.
pub open spec fn window_high(c: int, r: int) -> int {
    if c + r > SQUARE - 1 {
        SQUARE - 1
    } else {
        c + r
    }
}

/// The cells of the square window of radius `r` around `(cx, cy)` that lie
/// on the grid, row by row.
pub open spec fn neighborhood(cx: int, cy: int, r: int) -> Seq<(usize, usize)> {
    let x0 = window_low(cx, r);
    let y0 = window_low(cy, r);
    let width = window_high(cx, r) - x0 + 1;
    let height = window_high(cy, r) - y0 + 1;
    Seq::new(
        (width * height) as nat,
        |k: int| ((x0 + k % width) as usize, (y0 + k / width) as usize),
    )
}

/// The cells of the square window of radius `r` around the cell `(cx, cy)`,
/// as far as they lie on the grid, row by row. The window holds its centre.
pub fn square_neighborhood(cx: usize, cy: usize, r: usize) -> (cells: Vec<(usize, usize)>)
    requires
        cx < SQUARE,
        cy < SQUARE,
    ensures
        cells@ == neighborhood(cx as int, cy as int, r as int),
        forall|i: int|
            0 <= i < cells.len() ==> (#[trigger] cells[i]).0 < SQUARE && cells[i].1 < SQUARE,
{
    let x0: usize = if cx < r {
        0
    } else {
        cx - r
    };
    let y0: usize = if cy < r {
        0
    } else {
        cy - r
    };
    let x1: usize = if r > SQUARE - 1 - cx {
        SQUARE - 1
    } else {
        cx + r
    };
    let y1: usize = if r > SQUARE - 1 - cy {
        SQUARE - 1
    } else {
        cy + r
    };
    let ghost width = x1 - x0 + 1;
    let ghost all = neighborhood(cx as int, cy as int, r as int);
    let mut cells: Vec<(usize, usize)> = Vec::new();
    proof {
        let height = y1 - y0 + 1;
        assert(width * height > 0) by (nonlinear_arith)
            requires
                width > 0,
                height > 0,
        ;
        assert((y0 - y0) * width == 0) by (nonlinear_arith);
    }
    for y in y0..y1 + 1
        invariant
            x0 <= x1 < SQUARE,
            y0 <= y1 < SQUARE,
            width == x1 - x0 + 1,
            all == neighborhood(cx as int, cy as int, r as int),
            all.len() == width * (y1 - y0 + 1),
            x0 == window_low(cx as int, r as int),
            y0 == window_low(cy as int, r as int),
            x1 == window_high(cx as int, r as int),
            cells.len() == (y - y0) * width,
            cells.len() <= all.len(),
            forall|i: int| 0 <= i < cells.len() ==> cells[i] == all[i],
            forall|i: int|
                0 <= i < cells.len() ==> (#[trigger] cells[i]).0 < SQUARE && cells[i].1 < SQUARE,
    {
        for x in x0..x1 + 1
            invariant
                x0 <= x1 < SQUARE,
                y0 <= y <= y1,
                y1 < SQUARE,
                width == x1 - x0 + 1,
                all == neighborhood(cx as int, cy as int, r as int),
                all.len() == width * (y1 - y0 + 1),
                x0 == window_low(cx as int, r as int),
                y0 == window_low(cy as int, r as int),
                x1 == window_high(cx as int, r as int),
                cells.len() == (y - y0) * width + (x - x0),
                cells.len() <= all.len(),
                forall|i: int| 0 <= i < cells.len() ==> cells[i] == all[i],
                forall|i: int|
                    0 <= i < cells.len() ==> (#[trigger] cells[i]).0 < SQUARE && cells[i].1
                        < SQUARE,
        {
            proof {
                let k = cells.len() as int;
                lemma_fundamental_div_mod_converse(k, width, y - y0, x - x0);
                assert(k < all.len()) by (nonlinear_arith)
                    requires
                        k == (y - y0) * width + (x - x0),
                        0 <= x - x0 < width,
                        0 <= y - y0 < y1 - y0 + 1,
                        all.len() == width * (y1 - y0 + 1),
                ;
            }
            cells.push((x, y));
        }
        proof {
            assert((y + 1 - y0) * width == (y - y0) * width + width) by (nonlinear_arith);
            assert((y + 1 - y0) * width <= width * (y1 - y0 + 1)) by (nonlinear_arith)
                requires
                    y <= y1,
                    width > 0,
            ;
        }
    }
    assert(cells.len() == all.len()) by (nonlinear_arith)
        requires
            cells.len() == (y1 + 1 - y0) * width,
            all.len() == width * (y1 - y0 + 1),
    ;
    assert(cells@ =~= all);
    cells
}

/// The vector from a land cell to the cell `(cx, cy)`.
pub open spec fn displacement(cx: int, cy: int, land: (usize, usize)) -> (i32, i32) {
    ((cx - land.0) as i32, (cy - land.1) as i32)
}

/// For each land cell among `cells`, in their order, the vector from it to
/// the cell `(cx, cy)`.
pub open spec fn land_displacements(
    heights: Seq<u32>,
    cx: int,
    cy: int,
    cells: Seq<(usize, usize)>,
) -> Seq<(i32, i32)>
    decreases cells.len(),
{
    if cells.len() == 0 {
        Seq::empty()
    } else {
        let before = land_displacements(heights, cx, cy, cells.drop_last());
        let cell = cells.last();
        if is_land(heights[cell_index(cell.0 as int, cell.1 as int)]) {
            before.push(displacement(cx, cy, cell))
        } else {
            before
        }
    }
}

/// The sum of the first components.
pub open spec fn sum_x(vectors: Seq<(i32, i32)>) -> int
    decreases vectors.len(),
{
    if vectors.len() == 0 {
        0
    } else {
        sum_x(vectors.drop_last()) + vectors.last().0
    }
}

/// The sum of the second components.
pub open spec fn sum_y(vectors: Seq<(i32, i32)>) -> int
    decreases vectors.len(),
{
    if vectors.len() == 0 {
        0
    } else {
        sum_y(vectors.drop_last()) + vectors.last().1
    }
}

/// The arithmetic mean of some vectors: in each component, the binary32
/// number nearest to the sum divided by the count.
pub open spec fn mean(vectors: Seq<(i32, i32)>) -> Direction
    recommends
        vectors.len() > 0,
{
    Direction {
        x: single::nearest(sum_x(vectors), vectors.len() as int),
        y: single::nearest(sum_y(vectors), vectors.len() as int),
    }
}

/// The arithmetic mean of vectors between cells of the grid.
fn avg(vecs: &Vec<(i32, i32)>) -> (mean_vec: Direction)
    requires
        0 < vecs.len() <= SQUARE * SQUARE,
        forall|i: int|
            0 <= i < vecs.len() ==> -(SQUARE as int) < (#[trigger] vecs[i]).0 < SQUARE && -(
            SQUARE as int) < vecs[i].1 < SQUARE,
    ensures
        mean_vec == mean(vecs@),
{
    let mut total_x: i32 = 0;
    let mut total_y: i32 = 0;
    let n = vecs.len();
    for i in 0..n
        invariant
            n == vecs.len(),
            n <= SQUARE * SQUARE,
            forall|i: int|
                0 <= i < vecs.len() ==> -(SQUARE as int) < (#[trigger] vecs[i]).0 < SQUARE && -(
                SQUARE as int) < vecs[i].1 < SQUARE,
            total_x == sum_x(vecs@.take(i as int)),
            total_y == sum_y(vecs@.take(i as int)),
            -(i * SQUARE) <= total_x <= i * SQUARE,
            -(i * SQUARE) <= total_y <= i * SQUARE,
    {
        assert(vecs@.take(i + 1).drop_last() == vecs@.take(i as int));
        total_x = total_x + vecs[i].0;
        total_y = total_y + vecs[i].1;
    }
    assert(vecs@.take(n as int) == vecs@);
    Direction { x: single::from_ratio(total_x, n as u32), y: single::from_ratio(total_y, n as u32) }
}

/// The vectors to `(cx, cy)` from the land cells in the window of radius `r`
/// around it. The whole window is looked at, not only its rim.
pub open spec fn land_in_window(heights: Seq<u32>, cx: int, cy: int, r: int) -> Seq<(i32, i32)> {
    land_displacements(heights, cx, cy, neighborhood(cx, cy, r))
}

/// The vectors to `(cx, cy)` from the land in the first window that holds
/// any, of the radii from `r` to `MAX_RADIUS`; none if all of them are water.
pub open spec fn nearest_land(heights: Seq<u32>, cx: int, cy: int, r: int) -> Seq<(i32, i32)>
    decreases MAX_RADIUS + 1 - r,
{
    if r > MAX_RADIUS {
        Seq::empty()
    } else if land_in_window(heights, cx, cy, r).len() > 0 {
        land_in_window(heights, cx, cy, r)
    } else {
        nearest_land(heights, cx, cy, r + 1)
    }
}

/// The direction of the cell `(cx, cy)`. For a water cell it is the mean of
/// the vectors from the land in the first window, of radius 1 and up, that
/// holds any. It is zero where there is no land within `MAX_RADIUS`, and on
/// land.
pub open spec fn direction_of(heights: Seq<u32>, cx: int, cy: int) -> Direction {
    if is_land(heights[cell_index(cx, cy)]) {
        Direction::zero()
    } else if nearest_land(heights, cx, cy, 1).len() > 0 {
        mean(nearest_land(heights, cx, cy, 1))
    } else {
        Direction::zero()
    }
}

/// The direction field of a height field, row by row.
pub open spec fn direction_field(heights: Seq<u32>) -> Seq<Direction> {
    Seq::new(
        (SQUARE * SQUARE) as nat,
        |i: int| direction_of(heights, i % (SQUARE as int), i / (SQUARE as int)),
    )
}

/// Every cell of a window lies on the grid, no further than the radius from
/// the centre on either axis.
pub proof fn lemma_neighborhood_is_near(cx: int, cy: int, r: int, k: int)
    requires
        0 <= cx < SQUARE,
        0 <= cy < SQUARE,
        0 <= r,
        0 <= k < neighborhood(cx, cy, r).len(),
    ensures
        cx - r <= neighborhood(cx, cy, r)[k].0 <= cx + r,
        cy - r <= neighborhood(cx, cy, r)[k].1 <= cy + r,
        neighborhood(cx, cy, r)[k].0 < SQUARE,
        neighborhood(cx, cy, r)[k].1 < SQUARE,
{
    let width = window_high(cx, r) - window_low(cx, r) + 1;
    let height = window_high(cy, r) - window_low(cy, r) + 1;
    assert(0 <= k % width < width && 0 <= k / width < height) by (nonlinear_arith)
        requires
            0 <= k < width * height,
            width > 0,
            height > 0,
    ;
}

/// Where none of the cells is land, there are no vectors from land.
pub proof fn lemma_water_gives_no_displacements(
    heights: Seq<u32>,
    cx: int,
    cy: int,
    cells: Seq<(usize, usize)>,
)
    requires
        forall|i: int|
            0 <= i < cells.len() ==> !is_land(
                heights[cell_index((#[trigger] cells[i]).0 as int, cells[i].1 as int)],
            ),
    ensures
        land_displacements(heights, cx, cy, cells).len() == 0,
    decreases cells.len(),
{
    if cells.len() > 0 {
        assert(cells.last() == cells[cells.len() - 1]);
        assert forall|i: int| 0 <= i < cells.drop_last().len() implies !is_land(
            heights[cell_index(
                (#[trigger] cells.drop_last()[i]).0 as int,
                cells.drop_last()[i].1 as int,
            )],
        ) by {
            assert(cells.drop_last()[i] == cells[i]);
        }
        lemma_water_gives_no_displacements(heights, cx, cy, cells.drop_last());
    }
}

/// A cell with no land within `MAX_RADIUS` of it, on either axis, holds the
/// zero vector.
pub proof fn lemma_calm_without_land(heights: Seq<u32>, cx: int, cy: int)
    requires
        0 <= cx < SQUARE,
        0 <= cy < SQUARE,
        forall|x: int, y: int|
            0 <= x < SQUARE && 0 <= y < SQUARE && cx - MAX_RADIUS <= x <= cx + MAX_RADIUS && cy
                - MAX_RADIUS <= y <= cy + MAX_RADIUS ==> !is_land(
                #[trigger] heights[cell_index(x, y)],
            ),
    ensures
        direction_of(heights, cx, cy) == Direction::zero(),
{
    assert forall|r: int| 1 <= r <= MAX_RADIUS implies land_in_window(heights, cx, cy, r).len()
        == 0 by {
        let cells = neighborhood(cx, cy, r);
        assert forall|i: int| 0 <= i < cells.len() implies !is_land(
            heights[cell_index((#[trigger] cells[i]).0 as int, cells[i].1 as int)],
        ) by {
            lemma_neighborhood_is_near(cx, cy, r, i);
        }
        lemma_water_gives_no_displacements(heights, cx, cy, cells);
    }
    assert(nearest_land(heights, cx, cy, 5).len() == 0);
    assert(nearest_land(heights, cx, cy, 4).len() == 0);
    assert(nearest_land(heights, cx, cy, 3).len() == 0);
    assert(nearest_land(heights, cx, cy, 2).len() == 0);
    assert(nearest_land(heights, cx, cy, 1).len() == 0);
}

/// There are no more vectors from land than there are cells.
pub proof fn lemma_land_displacements_len(
    heights: Seq<u32>,
    cx: int,
    cy: int,
    cells: Seq<(usize, usize)>,
)
    ensures
        land_displacements(heights, cx, cy, cells).len() <= cells.len(),
    decreases cells.len(),
{
    if cells.len() > 0 {
        lemma_land_displacements_len(heights, cx, cy, cells.drop_last());
    }
}

/// The sums of some vectors grow no faster than their number.
pub proof fn lemma_sum_bounds(vectors: Seq<(i32, i32)>)
    ensures
        -0x8000_0000 * vectors.len() <= sum_x(vectors) <= 0x8000_0000 * vectors.len(),
        -0x8000_0000 * vectors.len() <= sum_y(vectors) <= 0x8000_0000 * vectors.len(),
    decreases vectors.len(),
{
    if vectors.len() > 0 {
        lemma_sum_bounds(vectors.drop_last());
    }
}

/// The vectors from the nearest land are no more than the cells of the grid.
pub proof fn lemma_nearest_land_len(heights: Seq<u32>, cx: int, cy: int, r: int)
    requires
        0 <= cx < SQUARE,
        0 <= cy < SQUARE,
        0 <= r,
    ensures
        nearest_land(heights, cx, cy, r).len() <= SQUARE * SQUARE,
    decreases MAX_RADIUS + 1 - r,
{
    if r <= MAX_RADIUS {
        let width = window_high(cx, r) - window_low(cx, r) + 1;
        let height = window_high(cy, r) - window_low(cy, r) + 1;
        assert(0 <= width * height <= SQUARE * SQUARE) by (nonlinear_arith)
            requires
                0 < width <= SQUARE,
                0 < height <= SQUARE,
        ;
        lemma_land_displacements_len(heights, cx, cy, neighborhood(cx, cy, r));
        lemma_nearest_land_len(heights, cx, cy, r + 1);
    }
}

/// Every direction of a direction field is a pair of numbers, and it is
/// zero, so that the water is calm, in three cases only: on land, where no
/// land lies within `MAX_RADIUS`, and where the vectors from the nearest land
/// cancel.
pub proof fn lemma_calm_cells(heights: Seq<u32>, cx: int, cy: int)
    requires
        0 <= cx < SQUARE,
        0 <= cy < SQUARE,
    ensures
        !single::is_nan(direction_of(heights, cx, cy).x),
        !single::is_nan(direction_of(heights, cx, cy).y),
        direction_of(heights, cx, cy).is_zero() <==> is_land(heights[cell_index(cx, cy)]) || (
        sum_x(nearest_land(heights, cx, cy, 1)) == 0 && sum_y(nearest_land(heights, cx, cy, 1))
            == 0),
{
    let found = nearest_land(heights, cx, cy, 1);
    lemma_nearest_land_len(heights, cx, cy, 1);
    lemma_sum_bounds(found);
    if found.len() > 0 {
        single::lemma_nearest_is_number(sum_x(found), found.len() as int);
        single::lemma_nearest_is_number(sum_y(found), found.len() as int);
    }
}

/// A land cell holds the zero vector.
pub proof fn lemma_land_has_no_direction(heights: Seq<u32>, cx: int, cy: int)
    requires
        is_land(heights[cell_index(cx, cy)]),
    ensures
        direction_of(heights, cx, cy) == Direction::zero(),
{
}

fn found_in_window(terrain: &TerrainChunk, x: usize, y: usize, r: usize) -> (found: Vec<(i32, i32)>)
    requires
        terrain.wf(),
        x < SQUARE,
        y < SQUARE,
    ensures
        found@ == land_in_window(terrain@, x as int, y as int, r as int),
        found.len() <= SQUARE * SQUARE,
        forall|i: int|
            0 <= i < found.len() ==> -(SQUARE as int) < (#[trigger] found[i]).0 < SQUARE && -(
            SQUARE as int) < found[i].1 < SQUARE,
{
    let cells = square_neighborhood(x, y, r);
    let mut found: Vec<(i32, i32)> = Vec::with_capacity(10);
    proof {
        let width = window_high(x as int, r as int) - window_low(x as int, r as int) + 1;
        let height = window_high(y as int, r as int) - window_low(y as int, r as int) + 1;
        assert(width * height <= SQUARE * SQUARE) by (nonlinear_arith)
            requires
                0 < width <= SQUARE,
                0 < height <= SQUARE,
        ;
    }
    for i in 0..cells.len()
        invariant
            terrain.wf(),
            x < SQUARE,
            y < SQUARE,
            cells.len() <= SQUARE * SQUARE,
            forall|i: int|
                0 <= i < cells.len() ==> (#[trigger] cells[i]).0 < SQUARE && cells[i].1 < SQUARE,
            found@ == land_displacements(terrain@, x as int, y as int, cells@.take(i as int)),
            found.len() <= i,
            forall|i: int|
                0 <= i < found.len() ==> -(SQUARE as int) < (#[trigger] found[i]).0 < SQUARE && -(
                SQUARE as int) < found[i].1 < SQUARE,
    {
        let square_index = cells[i];
        assert(cells@.take(i + 1).drop_last() == cells@.take(i as int));
        if terrain.is_land(square_index.0, square_index.1) {
            found.push((x as i32 - square_index.0 as i32, y as i32 - square_index.1 as i32));
        }
    }
    assert(cells@.take(cells.len() as int) == cells@);
    found
}

/// The direction field of one chunk: a grid of vectors, stored row by row as
/// the height field is.
pub struct Waves {
    directions: Vec<Direction>,
}

impl View for Waves {
    type V = Seq<Direction>;

    /// The directions in row-major order.
    closed spec fn view(&self) -> Seq<Direction> {
        self.directions@
    }
}

impl Waves {
    /// The grid holds one direction for each cell.
    pub open spec fn wf(&self) -> bool {
        self@.len() == SQUARE * SQUARE
    }

    /// Direction of cell `(x, y)`.
    pub open spec fn direction_at(&self, x: int, y: int) -> Direction {
        self@[cell_index(x, y)]
    }

    /// The direction field of a height field.
    pub fn init(terrain: &TerrainChunk) -> (waves: Waves)
        requires
            terrain.wf(),
        ensures
            waves.wf(),
            waves@ == direction_field(terrain@),
    {
        let directions = vec![Direction { x: single::ZERO, y: single::ZERO }; SQUARE * SQUARE];
        let mut w = Waves { directions };
        for x in 0..SQUARE
            invariant
                terrain.wf(),
                w.wf(),
                forall|i: int, j: int|
                    0 <= i < SQUARE && 0 <= j < SQUARE ==> #[trigger] w@[cell_index(i, j)] == (if i
                        < x {
                        direction_of(terrain@, i, j)
                    } else {
                        Direction::zero()
                    }),
        {
            for y in 0..SQUARE
                invariant
                    terrain.wf(),
                    w.wf(),
                    x < SQUARE,
                    forall|i: int, j: int|
                        0 <= i < SQUARE && 0 <= j < SQUARE ==> #[trigger] w@[cell_index(i, j)] == (
                        if i < x || (i == x && j < y) {
                            direction_of(terrain@, i, j)
                        } else {
                            Direction::zero()
                        }),
            {
                if !terrain.is_land(x, y) {
                    let found = first_land(terrain, x, y);
                    if found.len() > 0 {
                        w.set(x, y, avg(&found));
                    }
                }
            }
        }
        assert(w@ =~= direction_field(terrain@)) by {
            assert forall|k: int| 0 <= k < SQUARE * SQUARE implies w@[k] == direction_field(
                terrain@,
            )[k] by {
                let i = k % (SQUARE as int);
                let j = k / (SQUARE as int);
                assert(k == cell_index(i, j));
            }
        }
        w
    }

    /// Sets the direction of cell `(x, y)`.
    pub fn set(&mut self, x: usize, y: usize, dir: Direction)
        requires
            old(self).wf(),
            x < SQUARE,
            y < SQUARE,
        ensures
            final(self).wf(),
            final(self)@ == old(self)@.update(cell_index(x as int, y as int), dir),
    {
        let i = y * SQUARE + x;
        self.directions.set(i, dir);
    }

    /// The direction of cell `(x, y)`.
    pub fn get(&self, x: usize, y: usize) -> (dir: Direction)
        requires
            self.wf(),
            x < SQUARE,
            y < SQUARE,
        ensures
            dir == self.direction_at(x as int, y as int),
    {
        let i = y * SQUARE + x;
        self.directions[i]
    }
}

/// The wave texture of a direction field: for every cell, in row-major
/// order, the four bytes of the first component and then those of the second.
pub open spec fn wave_texture(directions: Seq<Direction>) -> Seq<u8> {
    Seq::new(
        8 * directions.len(),
        |i: int|
            if i % 8 < 4 {
                le_bytes(directions[i / 8].x)[i % 8]
            } else {
                le_bytes(directions[i / 8].y)[i % 8 - 4]
            },
    )
}

/// The directions that a wave texture spells.
pub open spec fn decode_wave_texture(bytes: Seq<u8>) -> Seq<Direction> {
    Seq::new(
        bytes.len() / 8,
        |i: int|
            Direction {
                x: from_le_bytes(bytes.subrange(8 * i, 8 * i + 4)),
                y: from_le_bytes(bytes.subrange(8 * i + 4, 8 * i + 8)),
            },
    )
}

/// Where the two components of a cell stand in the wave texture.
pub proof fn lemma_wave_texture_cell(directions: Seq<Direction>, i: int)
    requires
        0 <= i < directions.len(),
    ensures
        wave_texture(directions).subrange(8 * i, 8 * i + 4) == le_bytes(directions[i].x),
        wave_texture(directions).subrange(8 * i + 4, 8 * i + 8) == le_bytes(directions[i].y),
{
    let bytes = wave_texture(directions);
    let first = bytes.subrange(8 * i, 8 * i + 4);
    let second = bytes.subrange(8 * i + 4, 8 * i + 8);
    assert forall|k: int| 0 <= k < 4 implies first[k] == le_bytes(directions[i].x)[k] by {
        assert((8 * i + k) / 8 == i && (8 * i + k) % 8 == k);
    }
    assert forall|k: int| 0 <= k < 4 implies second[k] == le_bytes(directions[i].y)[k] by {
        assert((8 * i + 4 + k) / 8 == i && (8 * i + 4 + k) % 8 == 4 + k);
    }
    assert(first =~= le_bytes(directions[i].x));
    assert(second =~= le_bytes(directions[i].y));
}

/// Decoding the wave texture of a direction field gives both components of
/// every direction back, bit for bit.
pub proof fn lemma_wave_texture_round_trip(directions: Seq<Direction>)
    ensures
        decode_wave_texture(wave_texture(directions)) == directions,
{
    let decoded = decode_wave_texture(wave_texture(directions));
    assert(decoded.len() == directions.len());
    assert forall|i: int| 0 <= i < directions.len() implies decoded[i] == directions[i] by {
        lemma_wave_texture_cell(directions, i);
        lemma_le_bytes_round_trip(directions[i].x);
        lemma_le_bytes_round_trip(directions[i].y);
    }
}

/// What a floating body meets at the cell that an aligned position falls
/// into: the direction of the cell, or nothing where that direction is zero.
pub open spec fn wave_at(directions: Seq<Direction>, aligned: (isize, isize)) -> Option<Direction> {
    let dir = directions[cell_index(wrap(aligned.0 as int), wrap(aligned.1 as int))];
    if dir.is_zero() {
        None
    } else {
        Some(dir)
    }
}

/// Equal height fields have equal direction fields.
pub proof fn lemma_init_deterministic(
    terrain: TerrainChunk,
    again: TerrainChunk,
    first: Waves,
    second: Waves,
)
    requires
        terrain@ == again@,
        first@ == direction_field(terrain@),
        second@ == direction_field(again@),
    ensures
        first@ == second@,
{
}

impl Waves {
    /// The bytes of the wave texture.
    pub fn texture_bytes(&self) -> (bytes: Vec<u8>)
        requires
            self.wf(),
        ensures
            bytes@ == wave_texture(self@),
    {
        let mut bytes: Vec<u8> = Vec::with_capacity(8 * SQUARE * SQUARE);
        for i in 0..SQUARE * SQUARE
            invariant
                self.wf(),
                bytes@ == wave_texture(self@.take(i as int)),
        {
            let d = self.directions[i];
            push_le_bytes(&mut bytes, d.x);
            push_le_bytes(&mut bytes, d.y);
            assert(bytes@ == wave_texture(self@.take(i + 1)));
        }
        assert(self@.take((SQUARE * SQUARE) as int) == self@);
        bytes
    }

    /// The wave texture as an image of two channels, one pixel for each
    /// cell, sampled without blending.
    pub fn as_tex(&self) -> (image: Image)
        requires
            self.wf(),
        ensures
            image_data(image) == wave_texture(self@),
            image_size(image) == (SQUARE as u32, SQUARE as u32),
            image_channels(image) == 2,
            image_nearest(image),
    {
        let bytes = self.texture_bytes();
        let image = two_channel_image(SQUARE as u32, SQUARE as u32, bytes);
        sampled_nearest(image)
    }

    /// The direction in which the waves run at a position, given by its
    /// aligned index on each axis. `None` says that the water is calm there:
    /// the direction of the cell is zero, there is nothing to normalise, and
    /// no wave force is to be applied.
    pub fn wave_direction(&self, aligned: (isize, isize)) -> (dir: Option<Direction>)
        requires
            self.wf(),
        ensures
            dir == wave_at(self@, aligned),
            dir is None <==> self.direction_at(
                wrap(aligned.0 as int),
                wrap(aligned.1 as int),
            ).is_zero(),
    {
        let index = world_2_chunk(aligned);
        let dir = self.get(index.0, index.1);
        if single::zero(dir.x) && single::zero(dir.y) {
            None
        } else {
            Some(dir)
        }
    }
}

fn first_land(terrain: &TerrainChunk, x: usize, y: usize) -> (found: Vec<(i32, i32)>)
    requires
        terrain.wf(),
        x < SQUARE,
        y < SQUARE,
    ensures
        found@ == nearest_land(terrain@, x as int, y as int, 1),
        found.len() <= SQUARE * SQUARE,
        forall|i: int|
            0 <= i < found.len() ==> -(SQUARE as int) < (#[trigger] found[i]).0 < SQUARE && -(
            SQUARE as int) < found[i].1 < SQUARE,
{
    let mut r: usize = 1;
    while r <= MAX_RADIUS
        invariant
            terrain.wf(),
            x < SQUARE,
            y < SQUARE,
            1 <= r <= MAX_RADIUS + 1,
            nearest_land(terrain@, x as int, y as int, 1) == nearest_land(
                terrain@,
                x as int,
                y as int,
                r as int,
            ),
        decreases MAX_RADIUS + 1 - r,
    {
        let found = found_in_window(terrain, x, y, r);
        if found.len() > 0 {
            return found;
        }
        r = r + 1;
    }
    Vec::new()
}

} // verus!
