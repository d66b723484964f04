//! Region (block) positions: cubes of `2^LG_WIDTH` units that are the unit of
//! loading, and the level of detail each should have around a player.

use crate::bounds;
use crate::lod;
use vstd::arithmetic::power2::pow2;
use vstd::prelude::*;

verus! {

/// The `lg_size` of a block.
pub const LG_WIDTH: i16 = 3;

/// The Chebyshev radii that separate the levels of detail, finest first.
pub const NUM_THRESHOLDS: usize = 3;

/// The radius of the `i`-th level-of-detail shell.
pub open spec fn threshold(i: int) -> int {
    if i == 0 {
        1
    } else if i == 1 {
        4
    } else {
        8
    }
}

/// The radius of the `i`-th level-of-detail shell.
pub fn lod_threshold(i: usize) -> (r: i32)
    requires
        i < NUM_THRESHOLDS,
    ensures
        r == threshold(i as int),
{
    if i == 0 {
        1
    } else if i == 1 {
        4
    } else {
        8
    }
}

/// The level of detail for a region at Chebyshev distance `d`: the number of
/// shells whose radius is below `d`.
pub open spec fn lod_of_distance(d: int) -> u32 {
    if d <= threshold(0) {
        0
    } else if d <= threshold(1) {
        1
    } else if d <= threshold(2) {
        2
    } else {
        3
    }
}

/// The position of a block, in units of blocks.
#[derive(Debug, Clone, Copy, PartialEq, Eq, Hash, Structural)]
pub struct T {
    pub x: i32,
    pub y: i32,
    pub z: i32,
}

pub open spec fn abs(x: int) -> int {
    if x < 0 {
        -x
    } else {
        x
    }
}

pub open spec fn max3(a: int, b: int, c: int) -> int {
    if a >= b && a >= c {
        a
    } else if b >= c {
        b
    } else {
        c
    }
}

/// Chebyshev distance between two block positions.
pub open spec fn distance(a: T, b: T) -> int {
    max3(abs(a.x - b.x), abs(a.y - b.y), abs(a.z - b.z))
}

/// The block that holds voxel bounds `b`.
pub open spec fn containing_spec(b: bounds::T) -> T {
    let k = (LG_WIDTH - b.lg_size) as nat;
    T {
        x: bounds::coarsen_coord(b.x as int, k) as i32,
        y: bounds::coarsen_coord(b.y as int, k) as i32,
        z: bounds::coarsen_coord(b.z as int, k) as i32,
    }
}

/// The level of detail that block `b` should have for a player in block `p`.
pub open spec fn desired_lod_spec(b: T, p: T) -> lod::T {
    lod::T(lod_of_distance(distance(b, p)))
}

/// `|a - b|` for two coordinates.
fn abs_diff(a: i32, b: i32) -> (r: i64)
    ensures
        r == abs(a - b),
{
    let d = a as i64 - b as i64;
    if d < 0 {
        -d
    } else {
        d
    }
}

/// The block that holds voxel bounds `b`, which are no larger than a block.
pub fn containing(b: &bounds::T) -> (r: T)
    requires
        b.lg_size <= LG_WIDTH,
    ensures
        r == containing_spec(*b),
{
    let k = (LG_WIDTH as i32 - b.lg_size as i32) as u32;
    T {
        x: bounds::coarsen_i32(b.x, k),
        y: bounds::coarsen_i32(b.y, k),
        z: bounds::coarsen_i32(b.z, k),
    }
}

/// The level of detail for a region at Chebyshev distance `distance`: the
/// index of the first shell whose radius reaches it.
pub fn lod_index(distance: i32) -> (r: lod::T)
    requires
        distance >= 0,
    ensures
        r == lod::T(lod_of_distance(distance as int)),
        r.0 < lod::NUM_LODS,
{
    let mut lod: usize = 0;
    while lod < NUM_THRESHOLDS && lod_threshold(lod) < distance
        invariant
            lod <= NUM_THRESHOLDS,
            forall|j: int| 0 <= j < lod ==> threshold(j) < distance,
        decreases NUM_THRESHOLDS - lod,
    {
        lod = lod + 1;
    }
    lod::T(lod as u32)
}

impl T {
    pub fn new(x: i32, y: i32, z: i32) -> (r: T)
        ensures
            r == (T { x, y, z }),
    {
        T { x, y, z }
    }

    /// Chebyshev distance to `other`.
    pub fn distance(&self, other: &T) -> (r: i64)
        ensures
            r == distance(*self, *other),
    {
        let dx = abs_diff(self.x, other.x);
        let dy = abs_diff(self.y, other.y);
        let dz = abs_diff(self.z, other.z);
        if dx >= dy && dx >= dz {
            dx
        } else if dy >= dz {
            dy
        } else {
            dz
        }
    }

    /// The level of detail this block should have for a player in block
    /// `player`.
    pub fn desired_lod(&self, player: &T) -> (r: lod::T)
        ensures
            r == desired_lod_spec(*self, *player),
            r.0 < lod::NUM_LODS,
    {
        let d = self.distance(player);
        if d > 8 {
            lod::T(3)
        } else {
            lod_index(d as i32)
        }
    }
}

} // verus!
