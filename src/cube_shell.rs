//! Cubes of block positions around a center, and their differences.

use crate::block_position;
use crate::bounds;
use vstd::prelude::*;

verus! {

/// Block `p` lies in the cube of Chebyshev radius `r` around `center`.
pub open spec fn in_cube(p: block_position::T, center: block_position::T, r: int) -> bool {
    block_position::distance(p, center) <= r
}

/// The blocks in the cube of radius `r` around `a` that are not in the cube of
/// radius `r` around `b`.
pub open spec fn cube_diff_set(a: block_position::T, b: block_position::T, r: int) -> Set<
    block_position::T,
> {
    Set::new(|p: block_position::T| in_cube(p, a, r) && !in_cube(p, b, r))
}

/// The cube of radius `r` around `center` fits in `i32` and has at most
/// `2^63` blocks.
pub open spec fn cube_fits(center: block_position::T, r: int) -> bool {
    &&& 0 <= r < 0x10_0000
    &&& i32::MIN <= center.x - r
    &&& center.x + r <= i32::MAX
    &&& i32::MIN <= center.y - r
    &&& center.y + r <= i32::MAX
    &&& i32::MIN <= center.z - r
    &&& center.z + r <= i32::MAX
}

/// The `i`-th block of the cube of radius `r` around `center`, x-major.
pub open spec fn cube_at(center: block_position::T, r: int, i: int) -> block_position::T {
    let m = 2 * r + 1;
    block_position::T {
        x: (center.x - r + i / (m * m)) as i32,
        y: (center.y - r + (i / m) % m) as i32,
        z: (center.z - r + i % m) as i32,
    }
}

/// Distinct indices of a cube name distinct blocks.
proof fn lemma_cube_at_injective(center: block_position::T, r: int, i: int, j: int)
    requires
        cube_fits(center, r),
        0 <= i < (2 * r + 1) * (2 * r + 1) * (2 * r + 1),
        0 <= j < (2 * r + 1) * (2 * r + 1) * (2 * r + 1),
        cube_at(center, r, i) == cube_at(center, r, j),
    ensures
        i == j,
{
    let m = 2 * r + 1;
    bounds::lemma_child_digits(i, 2 * r + 1);
    bounds::lemma_child_digits(j, 2 * r + 1);
    assert(i / (m * m) == j / (m * m));
    assert((i / m) % m == (j / m) % m);
    assert(i % m == j % m);
}

/// The blocks that are in the cube of radius `radius` around `from` and not
/// in the one around `to`, e.g. those that a player moving from `from` to
/// `to` leaves behind.
pub fn cube_diff(from: &block_position::T, to: &block_position::T, radius: i32) -> (r: Vec<
    block_position::T,
>)
    requires
        cube_fits(*from, radius as int),
    ensures
        forall|p: block_position::T| #[trigger] r@.contains(p) <==> cube_diff_set(*from, *to, radius as int).contains(p),
        r@.no_duplicates(),
{
    let m: u64 = 2 * (radius as u64) + 1;
    let ghost mi = m as int;
    proof {
        assert(m * m * m <= 0x20_0000 * 0x20_0000 * 0x20_0000) by (nonlinear_arith)
            requires
                1 <= m <= 0x20_0000,
        ;
        assert(m * m <= m * m * m) by (nonlinear_arith)
            requires
                1 <= m,
        ;
    }
    let count = m * m * m;
    let mut r: Vec<block_position::T> = Vec::new();
    let mut i: u64 = 0;
    while i < count
        invariant
            i <= count,
            count == m * m * m,
            m * m <= count,
            m == 2 * radius + 1,
            mi == m,
            cube_fits(*from, radius as int),
            forall|j: int|
                0 <= j < i && !in_cube(cube_at(*from, radius as int, j), *to, radius as int)
                    ==> r@.contains(#[trigger] cube_at(*from, radius as int, j)),
            forall|p: block_position::T| #[trigger]
                r@.contains(p) ==> cube_diff_set(*from, *to, radius as int).contains(p),
            r@.no_duplicates(),
            forall|a: int| 0 <= a < r@.len() ==> exists|j: int| 0 <= j < i && #[trigger] r@[a] == cube_at(*from, radius as int, j),
        decreases count - i,
    {
        let ghost ii = i as int;
        proof {
            bounds::lemma_child_digits(ii, 2 * radius + 1);
        }
        let p = block_position::T {
            x: from.x - radius + (i / (m * m)) as i32,
            y: from.y - radius + ((i / m) % m) as i32,
            z: from.z - radius + (i % m) as i32,
        };
        assert(p == cube_at(*from, radius as int, ii));
        let d = p.distance(to);
        let ghost old_r = r@;
        if d > radius as i64 {
            assert(in_cube(p, *from, radius as int));
            proof {
                assert forall|a: int| 0 <= a < old_r.len() implies old_r[a] != p by {
                    let j = choose|j: int| 0 <= j < ii && #[trigger] old_r[a] == cube_at(*from, radius as int, j);
                    if old_r[a] == p {
                        lemma_cube_at_injective(*from, radius as int, j, ii);
                    }
                }
            }
            r.push(p);
            assert(r@ == old_r.push(p));
            assert forall|q: block_position::T| #[trigger] r@.contains(q) implies old_r.contains(q) || q == p by {
                if !old_r.contains(q) {
                    let w = choose|w: int| 0 <= w < r@.len() && r@[w] == q;
                    assert(w == old_r.len());
                }
            }
            assert forall|q: block_position::T| old_r.contains(q) implies #[trigger] r@.contains(q) by {
                let w = choose|w: int| 0 <= w < old_r.len() && old_r[w] == q;
                assert(r@[w] == q);
            }
            assert(r@[old_r.len() as int] == p);
            assert forall|a: int| 0 <= a < r@.len() implies exists|j: int| 0 <= j < ii + 1 && #[trigger] r@[a]
                == cube_at(*from, radius as int, j) by {
                if a < old_r.len() {
                    assert(r@[a] == old_r[a]);
                    let j = choose|j: int| 0 <= j < ii && #[trigger] old_r[a] == cube_at(*from, radius as int, j);
                } else {
                    assert(r@[a] == cube_at(*from, radius as int, ii));
                }
            }
        }
        i = i + 1;
    }
    proof {
        assert forall|p: block_position::T| cube_diff_set(*from, *to, radius as int).contains(
            p,
        ) implies #[trigger] r@.contains(p) by {
            let rr = radius as int;
            let dx = p.x - (from.x - rr);
            let dy = p.y - (from.y - rr);
            let dz = p.z - (from.z - rr);
            bounds::lemma_child_index(dx, dy, dz, mi);
            let j = dx * mi * mi + dy * mi + dz;
            assert(cube_at(*from, rr, j) == p);
        }
    }
    r
}

/// A block lies in at most one of `cube_diff(a, b, r)` and
/// `cube_diff(b, a, r)`; when the two cubes do not overlap, every block of
/// either cube lies in exactly one of them, so each is the other's
/// complement within the union of the two cubes.
pub proof fn lemma_cube_diff_complement(a: block_position::T, b: block_position::T, r: int)
    requires
        block_position::distance(a, b) > 2 * r,
    ensures
        cube_diff_set(a, b, r).disjoint(cube_diff_set(b, a, r)),
        cube_diff_set(a, b, r) + cube_diff_set(b, a, r) == Set::new(
            |p: block_position::T| in_cube(p, a, r) || in_cube(p, b, r),
        ),
{
    let u = Set::new(|p: block_position::T| in_cube(p, a, r) || in_cube(p, b, r));
    assert forall|p: block_position::T| u.contains(p) implies !(in_cube(p, a, r) && in_cube(p, b, r)) by {
        if in_cube(p, a, r) && in_cube(p, b, r) {
            assert(block_position::distance(a, b) <= 2 * r);
        }
    }
    assert(cube_diff_set(a, b, r) + cube_diff_set(b, a, r) =~= u);
}

/// Every block of the cube of radius `radius` around `center`.
pub fn cube(center: &block_position::T, radius: i32) -> (r: Vec<block_position::T>)
    requires
        cube_fits(*center, radius as int),
    ensures
        forall|p: block_position::T| #[trigger] r@.contains(p) <==> in_cube(p, *center, radius as int),
        r@.no_duplicates(),
{
    let m: u64 = 2 * (radius as u64) + 1;
    let ghost mi = m as int;
    proof {
        assert(m * m * m <= 0x20_0000 * 0x20_0000 * 0x20_0000) by (nonlinear_arith)
            requires
                1 <= m <= 0x20_0000,
        ;
        assert(m * m <= m * m * m) by (nonlinear_arith)
            requires
                1 <= m,
        ;
    }
    let count = m * m * m;
    let mut r: Vec<block_position::T> = Vec::new();
    let mut i: u64 = 0;
    while i < count
        invariant
            i <= count,
            count == m * m * m,
            m * m <= count,
            m == 2 * radius + 1,
            mi == m,
            cube_fits(*center, radius as int),
            r@.len() == i,
            forall|j: int| 0 <= j < i ==> r@[j] == cube_at(*center, radius as int, j),
            forall|j: int| 0 <= j < i ==> in_cube(#[trigger] cube_at(*center, radius as int, j), *center, radius as int),
        decreases count - i,
    {
        let ghost ii = i as int;
        proof {
            bounds::lemma_child_digits(ii, 2 * radius + 1);
        }
        let p = block_position::T {
            x: center.x - radius + (i / (m * m)) as i32,
            y: center.y - radius + ((i / m) % m) as i32,
            z: center.z - radius + (i % m) as i32,
        };
        assert(p == cube_at(*center, radius as int, ii));
        r.push(p);
        i = i + 1;
    }
    proof {
        assert forall|p: block_position::T| #[trigger] r@.contains(p) <==> in_cube(p, *center, radius as int) by {
            if r@.contains(p) {
                let w = choose|w: int| 0 <= w < r@.len() && r@[w] == p;
                assert(in_cube(cube_at(*center, radius as int, w), *center, radius as int));
            }
            if in_cube(p, *center, radius as int) {
                let rr = radius as int;
                let dx = p.x - (center.x - rr);
                let dy = p.y - (center.y - rr);
                let dz = p.z - (center.z - rr);
                bounds::lemma_child_index(dx, dy, dz, mi);
                let j = dx * mi * mi + dy * mi + dz;
                assert(cube_at(*center, rr, j) == p);
                assert(r@[j] == p);
            }
        }
        assert forall|a: int, b: int| 0 <= a < r@.len() && 0 <= b < r@.len() && a != b implies r@[a] != r@[b] by {
            if r@[a] == r@[b] {
                lemma_cube_at_injective(*center, radius as int, a, b);
            }
        }
    }
    r
}

} // verus!
