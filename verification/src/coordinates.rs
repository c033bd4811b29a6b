//! Coordinate transforms between continuous world positions and the two
//! discrete grids: coarse ADT tiles (the streaming unit) and fine chunk cells
//! (the lookup unit, 16 subdivisions per tile edge).
//!
//! Positions are measured in fixed-point steps of 1/3000 of a world distance
//! unit. At that scale the tile edge (533 + 1/3 units) and the cell edge
//! (33 + 1/3 units) are exact integers, so the transforms below are exact
//! integer arithmetic and boundary behaviour can be stated precisely.

use vstd::prelude::*;

verus! {

/// Fixed-point steps per world distance unit.
pub const POS_SCALE: i64 = 3000;

/// Edge length of one ADT tile: 533 + 1/3 world units.
pub const ADT_SIZE_FP: i64 = 1_600_000;

/// Edge length of one chunk cell: a tile edge split 16 ways.
pub const CHUNK_SIZE_FP: i64 = 100_000;

/// Rounding leeway used by the cell transform: one thousandth of a cell
/// edge. Keeps a coordinate sitting exactly on a cell boundary from
/// flickering between the two neighbouring cells under small jitter.
pub const CHUNK_LEEWAY_FP: i64 = 100;

/// World-grid origin offset: 32 tile edges, or 17066 + 2/3 world units.
pub const MAP_ORIGIN_FP: i64 = 51_200_000;

/// Number of ADT tiles per axis of the world grid.
pub const GRID_EXTENT: u32 = 64;

/// Largest position magnitude the cell transform accepts: the full span of
/// the 64-tile grid on either side of zero.
pub const MAX_COORD_FP: i64 = 102_400_000;

/// ADT block coordinates.
/// Ranges from (0, 0) to (64, 64), where (32, 32) is the center.
#[derive(Debug, Clone, Copy, PartialEq, Eq, Hash, Structural)]
pub struct ADTPosition {
    pub x: u32,
    pub y: u32,
}

/// Chunk coordinates within an ADT.
/// Ranges from (0, 0) to (16, 16).
#[derive(Debug, Clone, Copy, PartialEq, Eq, Hash, Structural)]
pub struct ChunkPosition {
    pub x: i32,
    pub y: i32,
}

/// A continuous position in the world, in fixed-point steps (see
/// `POS_SCALE`), with z the vertical axis. Transient: recomputed from the
/// viewpoint every cycle, never stored by the cache.
#[derive(Debug, Clone, Copy, PartialEq, Eq, Structural)]
pub struct WorldPosition {
    pub x: i64,
    pub y: i64,
    pub z: i64,
}

/// One axis of the tile transform: which tile does world offset `w` fall in.
pub open spec fn tile_axis(w: int) -> int {
    (MAP_ORIGIN_FP - w) / (ADT_SIZE_FP as int)
}

/// `w` lies inside the 64-tile grid, so `tile_axis(w)` is in `0 .. 64`.
pub open spec fn tile_axis_in_range(w: int) -> bool {
    0 <= MAP_ORIGIN_FP - w < (GRID_EXTENT as int) * (ADT_SIZE_FP as int)
}

/// One axis of the cell transform: floor with leeway for coordinates at or
/// above zero, ceiling with leeway below it, so that jitter smaller than the
/// leeway cannot move a boundary coordinate to the neighbouring cell.
pub open spec fn cell_axis(c: int) -> int {
    if c >= 0 {
        (c + CHUNK_LEEWAY_FP) / (CHUNK_SIZE_FP as int)
    } else {
        -((CHUNK_LEEWAY_FP - c) / (CHUNK_SIZE_FP as int))
    }
}

/// `c` is within the span the cell transform accepts.
pub open spec fn cell_axis_in_range(c: int) -> bool {
    -MAX_COORD_FP <= c <= MAX_COORD_FP
}

/// Both horizontal axes of `p` lie inside the tile grid.
pub open spec fn tile_input_in_range(p: WorldPosition) -> bool {
    tile_axis_in_range(p.x as int) && tile_axis_in_range(p.y as int)
}

/// Both horizontal axes of `p` are within the cell transform's span.
pub open spec fn cell_input_in_range(p: WorldPosition) -> bool {
    cell_axis_in_range(p.x as int) && cell_axis_in_range(p.y as int)
}

/// Runtime check matching `tile_input_in_range`, for callers that receive
/// positions from outside and must reject out-of-world ones.
pub fn tile_input_ok(p: &WorldPosition) -> (r: bool)
    ensures
        r == tile_input_in_range(*p),
{
    let lo: i64 = -MAP_ORIGIN_FP;
    lo < p.x && p.x <= MAP_ORIGIN_FP && lo < p.y && p.y <= MAP_ORIGIN_FP
}

/// Runtime check matching `cell_input_in_range`.
pub fn cell_input_ok(p: &WorldPosition) -> (r: bool)
    ensures
        r == cell_input_in_range(*p),
{
    let lo: i64 = -MAX_COORD_FP;
    lo <= p.x && p.x <= MAX_COORD_FP && lo <= p.y && p.y <= MAX_COORD_FP
}

/// The tile containing `p`. The two source axes map to the two output axes
/// swapped: the grid stores tiles by (origin - y, origin - x). That
/// permutation is a contract of the world's file layout, not something to be
/// re-derived. A position outside the grid is a caller contract violation
/// and is not defended against here.
pub fn tile_of(p: &WorldPosition) -> (r: ADTPosition)
    requires
        tile_input_in_range(*p),
    ensures
        r.x == tile_axis(p.y as int),
        r.y == tile_axis(p.x as int),
        r.x < GRID_EXTENT,
        r.y < GRID_EXTENT,
{
    let dx: i64 = MAP_ORIGIN_FP - p.y;
    let dy: i64 = MAP_ORIGIN_FP - p.x;
    let rx: u64 = (dx as u64) / (ADT_SIZE_FP as u64);
    let ry: u64 = (dy as u64) / (ADT_SIZE_FP as u64);
    ADTPosition { x: rx as u32, y: ry as u32 }
}

/// One axis of the cell transform, executable form.
fn cell_of_axis(c: i64) -> (r: i32)
    requires
        cell_axis_in_range(c as int),
    ensures
        r as int == cell_axis(c as int),
{
    if c >= 0 {
        let q: u64 = ((c + CHUNK_LEEWAY_FP) as u64) / (CHUNK_SIZE_FP as u64);
        q as i32
    } else {
        let q: u64 = ((CHUNK_LEEWAY_FP - c) as u64) / (CHUNK_SIZE_FP as u64);
        -(q as i32)
    }
}

/// The cell containing `p`. Each axis rounds independently, sign-aware and
/// with a small leeway, so a coordinate exactly on a cell boundary stays in
/// the same cell under jitter (see `lemma_cell_axis_boundary_stable`).
pub fn cell_of(p: &WorldPosition) -> (r: ChunkPosition)
    requires
        cell_input_in_range(*p),
    ensures
        r.x as int == cell_axis(p.x as int),
        r.y as int == cell_axis(p.y as int),
{
    ChunkPosition { x: cell_of_axis(p.x), y: cell_of_axis(p.y) }
}

/// A coordinate exactly on a cell boundary keeps its cell under any jitter
/// no larger than the leeway: for every integer `k` and perturbation `d`
/// with `|d| <= CHUNK_LEEWAY_FP`, the perturbed coordinate
/// `k * CHUNK_SIZE_FP + d` still maps to cell `k`. In particular repeated
/// evaluations near a boundary never flicker between two neighbouring cells.
pub proof fn lemma_cell_axis_boundary_stable(k: int, d: int)
    requires
        -CHUNK_LEEWAY_FP <= d <= CHUNK_LEEWAY_FP,
    ensures
        cell_axis(k * CHUNK_SIZE_FP + d) == k,
{
    let c = k * CHUNK_SIZE_FP + d;
    if k >= 1 {
        assert(c >= 0);
        assert((c + CHUNK_LEEWAY_FP) / (CHUNK_SIZE_FP as int) == k) by {
            vstd::arithmetic::div_mod::lemma_div_multiples_vanish_fancy(
                k,
                d + CHUNK_LEEWAY_FP,
                CHUNK_SIZE_FP as int,
            );
        }
    } else if k <= -1 {
        assert(c < 0);
        assert((CHUNK_LEEWAY_FP - c) / (CHUNK_SIZE_FP as int) == -k) by {
            vstd::arithmetic::div_mod::lemma_div_multiples_vanish_fancy(
                -k,
                CHUNK_LEEWAY_FP - d,
                CHUNK_SIZE_FP as int,
            );
        }
    } else {
        if c >= 0 {
            assert((c + CHUNK_LEEWAY_FP) / (CHUNK_SIZE_FP as int) == 0) by {
                vstd::arithmetic::div_mod::lemma_basic_div(
                    c + CHUNK_LEEWAY_FP,
                    CHUNK_SIZE_FP as int,
                );
            }
        } else {
            assert((CHUNK_LEEWAY_FP - c) / (CHUNK_SIZE_FP as int) == 0) by {
                vstd::arithmetic::div_mod::lemma_basic_div(
                    CHUNK_LEEWAY_FP - c,
                    CHUNK_SIZE_FP as int,
                );
            }
        }
    }
}

} // verus!
