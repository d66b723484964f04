//! Voxel bounds: an integer cube `[x * 2^lg_size, (x + 1) * 2^lg_size)` on each
//! axis, and its rescaling to coarser and finer sizes.

use vstd::arithmetic::div_mod::{lemma_fundamental_div_mod, lemma_fundamental_div_mod_converse};
use vstd::arithmetic::power2::{lemma2_to64, lemma_pow2_pos, lemma_pow2_strictly_increases, lemma_pow2_unfold, pow2};
use vstd::prelude::*;

verus! {

/// A cube of voxel space, in units of `2^lg_size`.
#[derive(Debug, Clone, Copy, PartialEq, Eq, Hash, Structural)]
pub struct T {
    pub x: i32,
    pub y: i32,
    pub z: i32,
    pub lg_size: i16,
}

pub fn new(x: i32, y: i32, z: i32, lg_size: i16) -> (r: T)
    ensures
        r == (T { x, y, z, lg_size }),
{
    T { x, y, z, lg_size }
}

/// The coordinate of the cell, `k` sizes coarser, that holds coordinate `x`.
pub open spec fn coarsen_coord(x: int, k: nat) -> int {
    x / (pow2(k) as int)
}

/// Coordinate `x` refined by `k` sizes keeps `x * 2^k .. (x + 1) * 2^k - 1`
/// inside `i32`.
pub open spec fn refine_fits(x: int, k: nat) -> bool {
    i32::MIN <= x * pow2(k) && (x + 1) * pow2(k) - 1 <= i32::MAX
}

impl T {
    /// The parent of these bounds, `k` sizes coarser.
    pub open spec fn coarsened(self, k: nat) -> T {
        T {
            x: coarsen_coord(self.x as int, k) as i32,
            y: coarsen_coord(self.y as int, k) as i32,
            z: coarsen_coord(self.z as int, k) as i32,
            lg_size: (self.lg_size + k) as i16,
        }
    }

    pub open spec fn can_coarsen(self, k: nat) -> bool {
        self.lg_size + k <= i16::MAX
    }

    pub open spec fn can_refine(self, k: nat) -> bool {
        &&& k <= 21
        &&& self.lg_size - k >= i16::MIN
        &&& refine_fits(self.x as int, k)
        &&& refine_fits(self.y as int, k)
        &&& refine_fits(self.z as int, k)
    }

    /// The `i`-th of the `2^(3k)` children `k` sizes finer, x-major.
    pub open spec fn child(self, k: nat, i: int) -> T {
        let n = pow2(k) as int;
        T {
            x: (self.x * n + i / (n * n)) as i32,
            y: (self.y * n + (i / n) % n) as i32,
            z: (self.z * n + i % n) as i32,
            lg_size: (self.lg_size - k) as i16,
        }
    }

    /// All children `k` sizes finer, x-major, then y, then z.
    pub open spec fn refined(self, k: nat) -> Seq<T> {
        let n = pow2(k) as int;
        Seq::new((n * n * n) as nat, |i: int| self.child(k, i))
    }
}

/// `2^k` as an integer.
pub fn pow2_u64(k: u32) -> (p: u64)
    requires
        k < 64,
    ensures
        p == pow2(k as nat),
{
    let mut p: u64 = 1;
    let mut i: u32 = 0;
    proof {
        lemma2_to64();
    }
    while i < k
        invariant
            i <= k < 64,
            p == pow2(i as nat),
        decreases k - i,
    {
        proof {
            lemma_pow2_unfold((i + 1) as nat);
            lemma_pow2_strictly_increases((i + 1) as nat, 64);
            lemma2_to64();
        }
        p = p * 2;
        i = i + 1;
    }
    p
}

/// Floor division of `x` by `2^k`: an arithmetic right shift.
pub fn coarsen_i32(x: i32, k: u32) -> (r: i32)
    ensures
        r == coarsen_coord(x as int, k as nat),
{
    if k >= 32 {
        proof {
            lemma2_to64();
            lemma_pow2_strictly_increases(31, k as nat);
            let d = pow2(k as nat) as int;
            if x >= 0 {
                lemma_fundamental_div_mod_converse(x as int, d, 0, x as int);
            } else {
                lemma_fundamental_div_mod_converse(x as int, d, -1, d + x);
            }
        }
        if x >= 0 {
            0
        } else {
            -1
        }
    } else {
        let p = pow2_u64(k);
        proof {
            lemma2_to64();
            lemma_pow2_pos(k as nat);
            if k < 31 {
                lemma_pow2_strictly_increases(k as nat, 31);
            }
        }
        if x >= 0 {
            let q = (x as u64) / p;
            proof {
                vstd::arithmetic::div_mod::lemma_div_is_ordered_by_denominator(x as int, 1, p as int);
            }
            q as i32
        } else {
            let m = (-(x as i64) - 1) as u64;
            let q = m / p;
            proof {
                let d = p as int;
                lemma_fundamental_div_mod(m as int, d);
                let rr = (m as int) % d;
                assert(x as int == (-(q as int) - 1) * d + (d - rr - 1)) by (nonlinear_arith)
                    requires
                        m as int == d * (q as int) + rr,
                        x as int == -(m as int) - 1,
                ;
                lemma_fundamental_div_mod_converse(x as int, d, -(q as int) - 1, d - rr - 1);
                vstd::arithmetic::div_mod::lemma_div_is_ordered_by_denominator(m as int, 1, d);
            }
            -(q as i64) as i32 - 1
        }
    }
}

/// `x * 2^k`: a left shift.
pub fn refine_i32(x: i32, k: u32) -> (r: i32)
    requires
        k < 32,
        refine_fits(x as int, k as nat),
    ensures
        r == x * pow2(k as nat),
{
    let p = pow2_u64(k);
    proof {
        lemma2_to64();
        lemma_pow2_pos(k as nat);
        if k < 31 {
            lemma_pow2_strictly_increases(k as nat, 31);
        }
        assert(-0x8000_0000 <= (x as int) * (p as int) <= 0x7fff_ffff * 0x8000_0000) by (nonlinear_arith)
            requires
                1 <= p <= 0x8000_0000,
                i32::MIN <= x as int * p as int,
                i32::MIN <= x <= i32::MAX,
        ;
        assert((x + 1) * pow2(k as nat) == x * pow2(k as nat) + pow2(k as nat)) by (nonlinear_arith);
    }
    ((x as i64) * (p as i64)) as i32
}

impl T {
    /// The parent of these bounds, `k` sizes coarser (each coordinate shifted
    /// right by `k`).
    pub fn coarsen(&self, k: u32) -> (r: T)
        requires
            self.can_coarsen(k as nat),
        ensures
            r == self.coarsened(k as nat),
    {
        T {
            x: coarsen_i32(self.x, k),
            y: coarsen_i32(self.y, k),
            z: coarsen_i32(self.z, k),
            lg_size: ((self.lg_size as i32) + (k as i32)) as i16,
        }
    }

    /// The `2^(3k)` children `k` sizes finer, x-major, then y, then z.
    pub fn refine(&self, k: u32) -> (r: Vec<T>)
        requires
            self.can_refine(k as nat),
        ensures
            r@ == self.refined(k as nat),
    {
        let n = pow2_u64(k);
        proof {
            lemma2_to64();
            lemma_pow2_pos(k as nat);
            if k < 21 {
                lemma_pow2_strictly_increases(k as nat, 21);
            }
            assert(n * n * n <= 0x200000 * 0x200000 * 0x200000) by (nonlinear_arith)
                requires
                    1 <= n <= 0x200000,
            ;
            assert(n * n <= n * n * n) by (nonlinear_arith)
                requires
                    1 <= n,
            ;
        }
        let lx = refine_i32(self.x, k);
        let ly = refine_i32(self.y, k);
        let lz = refine_i32(self.z, k);
        let count: u64 = n * n * n;
        let lg_size = ((self.lg_size as i32) - (k as i32)) as i16;
        let mut r: Vec<T> = Vec::new();
        let mut i: u64 = 0;
        while i < count
            invariant
                i <= count,
                count == n * n * n,
                n * n <= count,
                1 <= n <= 0x200000,
                n == pow2(k as nat),
                lx == self.x * n,
                ly == self.y * n,
                lz == self.z * n,
                lg_size == self.lg_size - k,
                self.can_refine(k as nat),
                r@.len() == i,
                forall|j: int| 0 <= j < i ==> r@[j] == self.child(k as nat, j),
            decreases count - i,
        {
            let ghost ni = n as int;
            proof {
                assert(0 <= (i as int) / (ni * ni) < ni) by {
                    let nn = ni * ni;
                    assert(nn > 0) by (nonlinear_arith)
                        requires
                            ni >= 1,
                            nn == ni * ni,
                    ;
                    lemma_fundamental_div_mod(i as int, nn);
                    vstd::arithmetic::div_mod::lemma_mod_bound(i as int, nn);
                    let q = (i as int) / nn;
                    assert(0 <= q < ni) by (nonlinear_arith)
                        requires
                            i as int == nn * q + (i as int) % nn,
                            0 <= (i as int) % nn < nn,
                            0 <= i < nn * ni,
                            nn > 0,
                            nn == ni * ni,
                    ;
                }
                assert(0 <= ((i as int) / ni) % ni < ni) by {
                    vstd::arithmetic::div_mod::lemma_mod_bound((i as int) / ni, ni);
                }
                assert(0 <= (i as int) % ni < ni) by {
                    vstd::arithmetic::div_mod::lemma_mod_bound(i as int, ni);
                }
                assert((self.x + 1) * ni - 1 == self.x * ni + ni - 1) by (nonlinear_arith);
                assert((self.y + 1) * ni - 1 == self.y * ni + ni - 1) by (nonlinear_arith);
                assert((self.z + 1) * ni - 1 == self.z * ni + ni - 1) by (nonlinear_arith);
            }
            let dx = (i / (n * n)) as i32;
            let dy = ((i / n) % n) as i32;
            let dz = (i % n) as i32;
            r.push(T { x: lx + dx, y: ly + dy, z: lz + dz, lg_size });
            i = i + 1;
        }
        r
    }
}

/// Coordinate `c` lies in cell `q` of size `2^k` exactly when it is
/// `q * n + d` for an offset `0 <= d < n`.
pub proof fn lemma_cell_offset(c: int, q: int, n: int)
    requires
        n >= 1,
    ensures
        c / n == q <==> (0 <= c - q * n < n),
{
    lemma_fundamental_div_mod(c, n);
    vstd::arithmetic::div_mod::lemma_mod_bound(c, n);
    if 0 <= c - q * n < n {
        assert(c == q * n + (c - q * n));
        lemma_fundamental_div_mod_converse(c, n, q, c - q * n);
    }
    if c / n == q {
        assert(c - q * n == c % n) by (nonlinear_arith)
            requires
                c == n * (c / n) + c % n,
                c / n == q,
        ;
    }
}

/// Dividing by a positive `n` moves no coordinate away from zero.
pub proof fn lemma_div_in_range(c: int, n: int)
    requires
        n >= 1,
        i32::MIN <= c <= i32::MAX,
    ensures
        i32::MIN <= c / n <= i32::MAX,
{
    lemma_cell_offset(c, c / n, n);
    let q = c / n;
    assert(i32::MIN <= q <= i32::MAX) by (nonlinear_arith)
        requires
            n >= 1,
            0 <= c - q * n < n,
            i32::MIN <= c <= i32::MAX,
    ;
}

/// Splits the child index `i = (dx * n + dy) * n + dz` back into its offsets.
pub proof fn lemma_child_index(dx: int, dy: int, dz: int, n: int)
    requires
        n >= 1,
        0 <= dx < n,
        0 <= dy < n,
        0 <= dz < n,
    ensures
        0 <= dx * n * n + dy * n + dz < n * n * n,
        (dx * n * n + dy * n + dz) / (n * n) == dx,
        ((dx * n * n + dy * n + dz) / n) % n == dy,
        (dx * n * n + dy * n + dz) % n == dz,
{
    let i = dx * n * n + dy * n + dz;
    assert(0 <= i < n * n * n) by (nonlinear_arith)
        requires
            n >= 1,
            0 <= dx < n,
            0 <= dy < n,
            0 <= dz < n,
            i == dx * n * n + dy * n + dz,
    ;
    assert(i == (dx * n + dy) * n + dz) by (nonlinear_arith)
        requires
            i == dx * n * n + dy * n + dz,
    ;
    lemma_fundamental_div_mod_converse(i, n, dx * n + dy, dz);
    lemma_fundamental_div_mod_converse(dx * n + dy, n, dx, dy);
    assert(0 <= dx * n + dy) by (nonlinear_arith)
        requires
            n >= 1,
            0 <= dx,
            0 <= dy,
    ;
    vstd::arithmetic::div_mod::lemma_div_denominator(i, n, n);
}

/// Coarsening bounds `b` by `k` and refining that parent by `k` gives
/// `2^(3k)` bounds of `b`'s size; each of them coarsens back to the parent,
/// `b` is one of them, and they are all the bounds of that size that lie in
/// the parent's space.
pub proof fn lemma_rescale_round_trip(b: T, k: nat)
    requires
        b.can_coarsen(k),
        b.coarsened(k).can_refine(k),
    ensures
        b.coarsened(k).refined(k).len() == pow2(3 * k),
        forall|i: int|
            0 <= i < b.coarsened(k).refined(k).len() ==> {
                let c = #[trigger] b.coarsened(k).refined(k)[i];
                c.lg_size == b.lg_size && c.coarsened(k) == b.coarsened(k)
            },
        b.coarsened(k).refined(k).contains(b),
        forall|c: T|
            c.lg_size == b.lg_size && #[trigger] c.coarsened(k) == b.coarsened(k)
                ==> b.coarsened(k).refined(k).contains(c),
{
    let p = b.coarsened(k);
    let n = pow2(k) as int;
    lemma_pow2_pos(k);
    vstd::arithmetic::power2::lemma_pow2_adds(k, k);
    vstd::arithmetic::power2::lemma_pow2_adds(2 * k, k);
    assert(pow2(3 * k) == n * n * n) by (nonlinear_arith)
        requires
            pow2(3 * k) == pow2(2 * k) * pow2(k),
            pow2(2 * k) == pow2(k) * pow2(k),
            n == pow2(k),
    ;
    assert forall|i: int| 0 <= i < p.refined(k).len() implies {
        let c = #[trigger] p.refined(k)[i];
        c.lg_size == b.lg_size && c.coarsened(k) == p
    } by {
        let nn = n * n;
        assert(nn > 0) by (nonlinear_arith)
            requires
                n >= 1,
                nn == n * n,
        ;
        lemma_fundamental_div_mod(i, nn);
        vstd::arithmetic::div_mod::lemma_mod_bound(i, nn);
        assert(0 <= i / nn < n) by (nonlinear_arith)
            requires
                i == nn * (i / nn) + i % nn,
                0 <= i % nn < nn,
                0 <= i < nn * n,
                nn > 0,
                nn == n * n,
        ;
        vstd::arithmetic::div_mod::lemma_mod_bound(i / n, n);
        vstd::arithmetic::div_mod::lemma_mod_bound(i, n);
        let c = p.child(k, i);
        assert((p.x + 1) * n == p.x * n + n && (p.y + 1) * n == p.y * n + n && (p.z + 1) * n
            == p.z * n + n) by (nonlinear_arith);
        lemma_cell_offset(p.x * n + i / nn, p.x as int, n);
        lemma_cell_offset(p.y * n + (i / n) % n, p.y as int, n);
        lemma_cell_offset(p.z * n + i % n, p.z as int, n);
        assert(c.coarsened(k) == p);
    }
    assert forall|c: T|
        c.lg_size == b.lg_size && #[trigger] c.coarsened(k) == p implies p.refined(k).contains(c) by {
        lemma_div_in_range(c.x as int, n);
        lemma_div_in_range(c.y as int, n);
        lemma_div_in_range(c.z as int, n);
        lemma_cell_offset(c.x as int, p.x as int, n);
        lemma_cell_offset(c.y as int, p.y as int, n);
        lemma_cell_offset(c.z as int, p.z as int, n);
        let dx = c.x - p.x * n;
        let dy = c.y - p.y * n;
        let dz = c.z - p.z * n;
        lemma_child_index(dx, dy, dz, n);
        let i = dx * n * n + dy * n + dz;
        assert(p.refined(k)[i] == c);
    }
    lemma_div_in_range(b.x as int, n);
    lemma_div_in_range(b.y as int, n);
    lemma_div_in_range(b.z as int, n);
    assert(p.refined(k).contains(b));
    lemma_cell_offset(b.x as int, p.x as int, n);
    lemma_cell_offset(b.y as int, p.y as int, n);
    lemma_cell_offset(b.z as int, p.z as int, n);
    assert(b.coarsened(k) == p);
}

/// `a` comes before `b` in (x, y, z) order.
pub open spec fn lex_lt(a: T, b: T) -> bool {
    a.x < b.x || (a.x == b.x && (a.y < b.y || (a.y == b.y && a.z < b.z)))
}

/// Digits of a child index: in range and giving the index back.
pub proof fn lemma_child_digits(i: int, n: int)
    requires
        n >= 1,
        0 <= i < n * n * n,
    ensures
        0 <= i / (n * n) < n,
        0 <= (i / n) % n < n,
        0 <= i % n < n,
        i == (i / (n * n)) * (n * n) + ((i / n) % n) * n + i % n,
{
    let nn = n * n;
    assert(nn > 0) by (nonlinear_arith)
        requires
            n >= 1,
            nn == n * n,
    ;
    lemma_fundamental_div_mod(i, nn);
    vstd::arithmetic::div_mod::lemma_mod_bound(i, nn);
    assert(0 <= i / nn < n) by (nonlinear_arith)
        requires
            i == nn * (i / nn) + i % nn,
            0 <= i % nn < nn,
            0 <= i < nn * n,
            nn > 0,
            nn == n * n,
    ;
    lemma_fundamental_div_mod(i, n);
    lemma_fundamental_div_mod(i / n, n);
    vstd::arithmetic::div_mod::lemma_mod_bound(i, n);
    vstd::arithmetic::div_mod::lemma_mod_bound(i / n, n);
    vstd::arithmetic::div_mod::lemma_div_denominator(i, n, n);
    let a = i / nn;
    let b = (i / n) % n;
    let c = i % n;
    assert(i == a * nn + b * n + c) by (nonlinear_arith)
        requires
            i == n * (i / n) + c,
            i / n == n * ((i / n) / n) + b,
            (i / n) / n == a,
            nn == n * n,
    ;
}

/// The children that `refine` lists are in strictly increasing (x, y, z)
/// order: sorted, and each listed once.
pub proof fn lemma_refined_sorted(b: T, k: nat)
    requires
        b.can_refine(k),
    ensures
        forall|i: int, j: int|
            0 <= i < j < b.refined(k).len() ==> lex_lt(#[trigger] b.refined(k)[i], #[trigger] b.refined(k)[j]),
{
    let n = pow2(k) as int;
    lemma_pow2_pos(k);
    assert((b.x + 1) * n == b.x * n + n && (b.y + 1) * n == b.y * n + n && (b.z + 1) * n == b.z * n + n)
        by (nonlinear_arith);
    assert forall|i: int, j: int| 0 <= i < j < b.refined(k).len() implies lex_lt(
        #[trigger] b.refined(k)[i],
        #[trigger] b.refined(k)[j],
    ) by {
        lemma_child_digits(i, n);
        lemma_child_digits(j, n);
        let (ai, bi, ci) = (i / (n * n), (i / n) % n, i % n);
        let (aj, bj, cj) = (j / (n * n), (j / n) % n, j % n);
        assert(ai < aj || (ai == aj && (bi < bj || (bi == bj && ci < cj)))) by (nonlinear_arith)
            requires
                i == ai * (n * n) + bi * n + ci,
                j == aj * (n * n) + bj * n + cj,
                0 <= ai < n,
                0 <= bi < n,
                0 <= ci < n,
                0 <= aj < n,
                0 <= bj < n,
                0 <= cj < n,
                i < j,
        ;
    }
}

} // verus!
