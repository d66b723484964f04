//! Voxel edges: the segment along one axis that up to four voxels share,
//! and their rescaling between levels of detail.

use crate::block_position;
use crate::bounds;
use crate::lod;
use crate::voxel;
use vstd::arithmetic::power2::{lemma2_to64, lemma_pow2_pos, lemma_pow2_strictly_increases, pow2};
use vstd::prelude::*;

verus! {

/// An axis.
#[derive(Debug, Clone, Copy, PartialEq, Eq, Hash, Structural)]
pub enum Direction {
    X,
    Y,
    Z,
}

/// An integer point.
#[derive(Debug, Clone, Copy, PartialEq, Eq, Hash, Structural)]
pub struct Point3 {
    pub x: i32,
    pub y: i32,
    pub z: i32,
}

pub open spec fn unit(d: Direction) -> (int, int, int) {
    match d {
        Direction::X => (1, 0, 0),
        Direction::Y => (0, 1, 0),
        Direction::Z => (0, 0, 1),
    }
}

pub open spec fn perpendicular_spec(d: Direction) -> (Direction, Direction) {
    match d {
        Direction::X => (Direction::Y, Direction::Z),
        Direction::Y => (Direction::Z, Direction::X),
        Direction::Z => (Direction::X, Direction::Y),
    }
}

impl Direction {
    /// The unit vector along this axis.
    pub fn to_vec(self) -> (r: (i32, i32, i32))
        ensures
            (r.0 as int, r.1 as int, r.2 as int) == unit(self),
    {
        match self {
            Direction::X => (1, 0, 0),
            Direction::Y => (0, 1, 0),
            Direction::Z => (0, 0, 1),
        }
    }

    /// The two other axes, in cyclic order.
    pub fn perpendicular(self) -> (r: (Direction, Direction))
        ensures
            r == perpendicular_spec(self),
            r.0 != self && r.1 != self && r.0 != r.1,
    {
        match self {
            Direction::X => (Direction::Y, Direction::Z),
            Direction::Y => (Direction::Z, Direction::X),
            Direction::Z => (Direction::X, Direction::Y),
        }
    }
}

/// The edge from `low_corner` along `direction`, one voxel of size
/// `2^lg_size` long.
#[derive(Debug, Clone, Copy, PartialEq, Eq, Hash, Structural)]
pub struct T {
    pub low_corner: Point3,
    pub lg_size: i16,
    pub direction: Direction,
}

pub open spec fn voxel_at(x: int, y: int, z: int, lg_size: i16) -> bounds::T {
    bounds::T { x: x as i32, y: y as i32, z: z as i32, lg_size }
}

/// The coordinate of `p` along axis `d`.
pub open spec fn coord(p: Point3, d: Direction) -> int {
    match d {
        Direction::X => p.x as int,
        Direction::Y => p.y as int,
        Direction::Z => p.z as int,
    }
}

impl T {
    /// The four voxels around the edge: offset by `0`, `-e1`, `-e1 - e2` and
    /// `-e2`, where `e1`, `e2` are the perpendicular axes.
    pub open spec fn neighbors_spec(self) -> Seq<bounds::T> {
        let (d1, d2) = perpendicular_spec(self.direction);
        let (a, b) = (unit(d1), unit(d2));
        let p = self.low_corner;
        seq![
            voxel_at(p.x as int, p.y as int, p.z as int, self.lg_size),
            voxel_at(p.x - a.0, p.y - a.1, p.z - a.2, self.lg_size),
            voxel_at(p.x - a.0 - b.0, p.y - a.1 - b.1, p.z - a.2 - b.2, self.lg_size),
            voxel_at(p.x - b.0, p.y - b.1, p.z - b.2, self.lg_size),
        ]
    }

    /// The edge `k` sizes coarser that holds this one.
    pub open spec fn merged(self, k: nat) -> T {
        T {
            low_corner: Point3 {
                x: bounds::coarsen_coord(self.low_corner.x as int, k) as i32,
                y: bounds::coarsen_coord(self.low_corner.y as int, k) as i32,
                z: bounds::coarsen_coord(self.low_corner.z as int, k) as i32,
            },
            lg_size: (self.lg_size + k) as i16,
            direction: self.direction,
        }
    }

    /// The `i`-th of the `2^k` edges, `k` sizes finer, that make up this one.
    pub open spec fn split_child(self, k: nat, i: int) -> T {
        let n = pow2(k) as int;
        let u = unit(self.direction);
        T {
            low_corner: Point3 {
                x: (self.low_corner.x * n + u.0 * i) as i32,
                y: (self.low_corner.y * n + u.1 * i) as i32,
                z: (self.low_corner.z * n + u.2 * i) as i32,
            },
            lg_size: (self.lg_size - k) as i16,
            direction: self.direction,
        }
    }

    /// The `2^k` edges, `k` sizes finer, that make up this one, in order
    /// along its axis.
    pub open spec fn split(self, k: nat) -> Seq<T> {
        Seq::new(pow2(k), |i: int| self.split_child(k, i))
    }

    pub open spec fn can_merge(self, k: nat) -> bool {
        self.lg_size + k <= i16::MAX
    }

    pub open spec fn can_split(self, k: nat) -> bool {
        &&& k <= 30
        &&& self.lg_size - k >= i16::MIN
        &&& bounds::refine_fits(self.low_corner.x as int, k)
        &&& bounds::refine_fits(self.low_corner.y as int, k)
        &&& bounds::refine_fits(self.low_corner.z as int, k)
    }

    /// Edge `c` is one of the `2^k`-ths of this edge: same axis, size `k`
    /// finer, on this edge's line, inside its span.
    pub open spec fn holds_piece(self, k: nat, c: T) -> bool {
        let n = pow2(k) as int;
        &&& c.direction == self.direction
        &&& c.lg_size == self.lg_size - k
        &&& forall|d: Direction|
            d != self.direction ==> #[trigger] coord(c.low_corner, d) == coord(self.low_corner, d) * n
        &&& coord(self.low_corner, self.direction) * n <= coord(c.low_corner, self.direction) < (
        coord(self.low_corner, self.direction) + 1) * n
    }

}

pub open spec fn min_u32(a: u32, b: u32) -> u32 {
    if a <= b {
        a
    } else {
        b
    }
}

/// The finest level of detail that any of the edge's four voxels asks for.
pub open spec fn edge_lod(e: T, player: block_position::T) -> lod::T {
    let nb = e.neighbors_spec();
    lod::T(
        min_u32(
            min_u32(voxel::correct_lod_of(nb[0], player).0, voxel::correct_lod_of(nb[1], player).0),
            min_u32(voxel::correct_lod_of(nb[2], player).0, voxel::correct_lod_of(nb[3], player).0),
        ),
    )
}

/// Edge `e` can be rescaled for a player in block `player`: no larger than
/// a block, its neighbors addressable, and when the level wanted is finer,
/// its pieces fit in `i32`.
pub open spec fn rescalable(e: T, player: block_position::T) -> bool {
    let lg = lod::lg_sample_size(edge_lod(e, player));
    &&& e.lg_size <= block_position::LG_WIDTH
    &&& e.low_corner.x > i32::MIN + 1
    &&& e.low_corner.y > i32::MIN + 1
    &&& e.low_corner.z > i32::MIN + 1
    &&& lg < e.lg_size ==> e.can_split((e.lg_size - lg) as nat)
}

/// The edges at size `lg` that cover the same segment as `e`.
pub open spec fn rescaled(e: T, lg: int) -> Seq<T> {
    if lg > e.lg_size {
        seq![e.merged((lg - e.lg_size) as nat)]
    } else if lg < e.lg_size {
        e.split((e.lg_size - lg) as nat)
    } else {
        seq![e]
    }
}

fn offset(p: Point3, d: Direction) -> (r: Point3)
    requires
        p.x > i32::MIN,
        p.y > i32::MIN,
        p.z > i32::MIN,
    ensures
        r.x == p.x - unit(d).0,
        r.y == p.y - unit(d).1,
        r.z == p.z - unit(d).2,
{
    let (dx, dy, dz) = d.to_vec();
    Point3 { x: p.x - dx, y: p.y - dy, z: p.z - dz }
}

impl T {
    /// The four voxels that share this edge.
    pub fn neighbors(&self) -> (r: [bounds::T; 4])
        requires
            self.low_corner.x > i32::MIN + 1,
            self.low_corner.y > i32::MIN + 1,
            self.low_corner.z > i32::MIN + 1,
        ensures
            r@ == self.neighbors_spec(),
    {
        let (v1, v2) = self.direction.perpendicular();
        let c0 = self.low_corner;
        let c1 = offset(c0, v1);
        let c2 = offset(c1, v2);
        let c3 = offset(c0, v2);
        let lg = self.lg_size;
        let r = [
            bounds::new(c0.x, c0.y, c0.z, lg),
            bounds::new(c1.x, c1.y, c1.z, lg),
            bounds::new(c2.x, c2.y, c2.z, lg),
            bounds::new(c3.x, c3.y, c3.z, lg),
        ];
        assert(r@ =~= self.neighbors_spec());
        r
    }

    /// The edge `k` sizes coarser that holds this one.
    pub fn merge(&self, k: u32) -> (r: T)
        requires
            self.can_merge(k as nat),
        ensures
            r == self.merged(k as nat),
    {
        T {
            low_corner: Point3 {
                x: bounds::coarsen_i32(self.low_corner.x, k),
                y: bounds::coarsen_i32(self.low_corner.y, k),
                z: bounds::coarsen_i32(self.low_corner.z, k),
            },
            lg_size: ((self.lg_size as i32) + (k as i32)) as i16,
            direction: self.direction,
        }
    }

    /// The `2^k` edges, `k` sizes finer, that make up this one.
    pub fn split_by(&self, k: u32) -> (r: Vec<T>)
        requires
            self.can_split(k as nat),
        ensures
            r@ == self.split(k as nat),
    {
        let n = bounds::pow2_u64(k);
        proof {
            lemma2_to64();
            lemma_pow2_pos(k as nat);
            if k < 30 {
                lemma_pow2_strictly_increases(k as nat, 30);
            }
        }
        let low = Point3 {
            x: bounds::refine_i32(self.low_corner.x, k),
            y: bounds::refine_i32(self.low_corner.y, k),
            z: bounds::refine_i32(self.low_corner.z, k),
        };
        let (ux, uy, uz) = self.direction.to_vec();
        let lg_size = ((self.lg_size as i32) - (k as i32)) as i16;
        let mut r: Vec<T> = Vec::new();
        let mut i: u64 = 0;
        while i < n
            invariant
                i <= n <= 0x4000_0000,
                n == pow2(k as nat),
                low.x == self.low_corner.x * n,
                low.y == self.low_corner.y * n,
                low.z == self.low_corner.z * n,
                (ux as int, uy as int, uz as int) == unit(self.direction),
                lg_size == self.lg_size - k,
                self.can_split(k as nat),
                r@.len() == i,
                forall|j: int| 0 <= j < i ==> r@[j] == self.split_child(k as nat, j),
            decreases n - i,
        {
            let ghost ni = n as int;
            proof {
                assert((self.low_corner.x + 1) * ni - 1 == self.low_corner.x * ni + ni - 1)
                    by (nonlinear_arith);
                assert((self.low_corner.y + 1) * ni - 1 == self.low_corner.y * ni + ni - 1)
                    by (nonlinear_arith);
                assert((self.low_corner.z + 1) * ni - 1 == self.low_corner.z * ni + ni - 1)
                    by (nonlinear_arith);
            }
            let ii = i as i32;
            let c = T {
                low_corner: Point3 { x: low.x + ux * ii, y: low.y + uy * ii, z: low.z + uz * ii },
                lg_size,
                direction: self.direction,
            };
            r.push(c);
            i = i + 1;
        }
        assert(r@ =~= self.split(k as nat));
        r
    }
}

impl T {
    /// Finds the level of detail at which this edge should be loaded for a
    /// player in block `player` (the finest that any of its four voxels asks
    /// for), and returns the edges that cover the same segment at that level.
    pub fn correct_lod(&self, player: &block_position::T) -> (r: Vec<T>)
        requires
            rescalable(*self, *player),
        ensures
            r@ == rescaled(*self, lod::lg_sample_size(edge_lod(*self, *player))),
    {
        let nb = self.neighbors();
        let mut lod = block_position::containing(&nb[0]).desired_lod(player);
        let mut i: usize = 1;
        while i < 4
            invariant
                1 <= i <= 4,
                nb@ == self.neighbors_spec(),
                self.lg_size <= block_position::LG_WIDTH,
                lod.0 < lod::NUM_LODS,
                lod.0 == (if i == 1 {
                    voxel::correct_lod_of(nb@[0], *player).0
                } else if i == 2 {
                    min_u32(voxel::correct_lod_of(nb@[0], *player).0, voxel::correct_lod_of(nb@[1], *player).0)
                } else if i == 3 {
                    min_u32(
                        min_u32(voxel::correct_lod_of(nb@[0], *player).0, voxel::correct_lod_of(nb@[1], *player).0),
                        voxel::correct_lod_of(nb@[2], *player).0,
                    )
                } else {
                    edge_lod(*self, *player).0
                }),
            decreases 4 - i,
        {
            let l = block_position::containing(&nb[i]).desired_lod(player);
            if l.0 < lod.0 {
                lod = l;
            }
            i = i + 1;
        }
        let lg_size = lod::lg_sample_size_of(lod);
        if lg_size > self.lg_size {
            let k = (lg_size as i32 - self.lg_size as i32) as u32;
            let parent = self.merge(k);
            let mut r: Vec<T> = Vec::new();
            r.push(parent);
            assert(r@ =~= seq![parent]);
            r
        } else if lg_size < self.lg_size {
            let k = (self.lg_size as i32 - lg_size as i32) as u32;
            self.split_by(k)
        } else {
            let mut r: Vec<T> = Vec::new();
            r.push(*self);
            assert(r@ =~= seq![*self]);
            r
        }
    }
}


/// Splitting an edge `e` by `k` gives `2^k` edges on `e`'s line, each of
/// them a piece of `e` that merges back to `e`; and every piece of `e` of
/// that size is among them, so together they cover exactly `e`.
pub proof fn lemma_split_merge(e: T, k: nat)
    requires
        e.can_split(k),
    ensures
        e.split(k).len() == pow2(k),
        forall|i: int|
            0 <= i < e.split(k).len() ==> {
                let c = #[trigger] e.split(k)[i];
                e.holds_piece(k, c) && c.can_merge(k) && c.merged(k) == e
            },
        forall|c: T| #[trigger] e.holds_piece(k, c) ==> e.split(k).contains(c),
{
    let n = pow2(k) as int;
    lemma_pow2_pos(k);
    let p = e.low_corner;
    assert((p.x + 1) * n == p.x * n + n && (p.y + 1) * n == p.y * n + n && (p.z + 1) * n == p.z * n
        + n) by (nonlinear_arith);
    assert forall|i: int| 0 <= i < e.split(k).len() implies {
        let c = #[trigger] e.split(k)[i];
        e.holds_piece(k, c) && c.can_merge(k) && c.merged(k) == e
    } by {
        let c = e.split_child(k, i);
        let u = unit(e.direction);
        bounds::lemma_cell_offset(p.x * n + u.0 * i, p.x as int, n);
        bounds::lemma_cell_offset(p.y * n + u.1 * i, p.y as int, n);
        bounds::lemma_cell_offset(p.z * n + u.2 * i, p.z as int, n);
        assert(c.merged(k) == e);
    }
    assert forall|c: T| #[trigger] e.holds_piece(k, c) implies e.split(k).contains(c) by {
        let i = coord(c.low_corner, e.direction) - coord(p, e.direction) * n;
        let q = c.low_corner;
        match e.direction {
            Direction::X => {
                assert(coord(q, Direction::Y) == coord(p, Direction::Y) * n);
                assert(coord(q, Direction::Z) == coord(p, Direction::Z) * n);
                assert(0 <= i < n);
                assert(e.split_child(k, i) == c);
            },
            Direction::Y => {
                assert(coord(q, Direction::X) == coord(p, Direction::X) * n);
                assert(coord(q, Direction::Z) == coord(p, Direction::Z) * n);
                assert(0 <= i < n);
                assert(e.split_child(k, i) == c);
            },
            Direction::Z => {
                assert(coord(q, Direction::X) == coord(p, Direction::X) * n);
                assert(coord(q, Direction::Y) == coord(p, Direction::Y) * n);
                assert(0 <= i < n);
                assert(e.split_child(k, i) == c);
            },
        }
        assert(e.split(k)[i] == c);
    }
}

} // verus!
