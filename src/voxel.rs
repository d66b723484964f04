//! Voxels, and the rescaling of voxel bounds to the level of detail that a
//! player's position asks for.

use crate::block_position;
use crate::bounds;
use crate::lod;
use vstd::arithmetic::power2::{lemma2_to64, pow2};
use vstd::prelude::*;

verus! {

/// What a voxel is made of.
#[derive(Debug, Clone, Copy, PartialEq, Eq, Hash, Structural)]
pub enum Material {
    Empty,
    Terrain,
    Bark,
    Leaves,
    Stone,
    Marble,
}

/// A point inside a voxel, each coordinate in 256ths of the voxel's width.
#[derive(Debug, Clone, Copy, PartialEq, Eq, Hash, Structural)]
pub struct Vertex {
    pub x: u8,
    pub y: u8,
    pub z: u8,
}

/// A unit normal, each coordinate in 127ths.
#[derive(Debug, Clone, Copy, PartialEq, Eq, Hash, Structural)]
pub struct Normal {
    pub x: i8,
    pub y: i8,
    pub z: i8,
}

/// A voxel that the surface crosses: where its mesh vertex lies, the
/// surface's normal there, and the material at the voxel's low corner.
#[derive(Debug, Clone, Copy, PartialEq, Eq, Hash, Structural)]
pub struct SurfaceStruct {
    pub inner_vertex: Vertex,
    pub normal: Normal,
    pub material: Material,
}

/// A sample of the field over one voxel.
#[derive(Debug, Clone, Copy, PartialEq, Eq, Hash, Structural)]
pub enum T {
    /// Entirely one material.
    Volume(Material),
    /// Crossed by the surface.
    Surface(SurfaceStruct),
}

/// Voxel bounds that can be rescaled for a player in block `player`: no
/// larger than a block, and when the level wanted is finer, the children
/// fit in `i32`.
pub open spec fn rescalable(b: bounds::T, player: block_position::T) -> bool {
    let lg = lod::lg_sample_size(correct_lod_of(b, player));
    &&& b.lg_size <= block_position::LG_WIDTH
    &&& lg < b.lg_size ==> b.can_refine((b.lg_size - lg) as nat)
}

/// The bounds at size `lg` that cover the same space as `b`: its one parent
/// when `lg` is coarser, its children when `lg` is finer, else `b` itself.
pub open spec fn rescaled(b: bounds::T, lg: int) -> Seq<bounds::T> {
    if lg > b.lg_size {
        seq![b.coarsened((lg - b.lg_size) as nat)]
    } else if lg < b.lg_size {
        b.refined((b.lg_size - lg) as nat)
    } else {
        seq![b]
    }
}

/// The level of detail at which bounds `b` should be held for a player in
/// block `player`.
pub open spec fn correct_lod_of(b: bounds::T, player: block_position::T) -> lod::T {
    block_position::desired_lod_spec(block_position::containing_spec(b), player)
}

pub proof fn lemma_small_refine_fits(x: int, k: nat)
    requires
        -0x1000_0000 <= x < 0x1000_0000,
        k <= 3,
    ensures
        bounds::refine_fits(x, k),
{
    lemma2_to64();
    let p = pow2(k) as int;
    assert(1 <= p <= 8);
    assert(i32::MIN <= x * p && (x + 1) * p - 1 <= i32::MAX) by (nonlinear_arith)
        requires
            1 <= p <= 8,
            -0x1000_0000 <= x < 0x1000_0000,
    ;
}

/// Finds the level of detail at which voxel bounds `b` should be loaded for a
/// player in block `player`, and returns the bounds that cover the same space
/// at that level.
pub fn correct_lod(b: &bounds::T, player: &block_position::T) -> (r: Vec<bounds::T>)
    requires
        rescalable(*b, *player),
    ensures
        r@ == rescaled(*b, lod::lg_sample_size(correct_lod_of(*b, *player))),
{
    let block = block_position::containing(b);
    let lod = block.desired_lod(player);
    let lg_size = lod::lg_sample_size_of(lod);
    if lg_size > b.lg_size {
        let k = (lg_size as i32 - b.lg_size as i32) as u32;
        let parent = b.coarsen(k);
        let mut r: Vec<bounds::T> = Vec::new();
        r.push(parent);
        proof {
            assert(r@ =~= seq![parent]);
        }
        r
    } else if lg_size < b.lg_size {
        let k = (b.lg_size as i32 - lg_size as i32) as u32;
        b.refine(k)
    } else {
        let mut r: Vec<bounds::T> = Vec::new();
        r.push(*b);
        proof {
            assert(r@ =~= seq![*b]);
        }
        r
    }
}

} // verus!
