//! The voxel store: voxels keyed by their bounds, generated from the field
//! on first use and rewritten by brushes.

use crate::assoc;
use crate::bounds;
use crate::serialize::{self, Flatten, MemStream, EOF};
use crate::voxel;
use vstd::arithmetic::div_mod::{lemma_div_denominator, lemma_fundamental_div_mod, lemma_mod_bound};
use vstd::arithmetic::power2::pow2;
use vstd::prelude::*;

verus! {

/// The largest `lg_size` a brush rewrites voxels at.
pub const BRUSH_MAX_LG_SIZE: i16 = 3;

/// A change to the terrain over the box `[min, max)` of world units,
/// applied to the voxels of size `2^lg_size` that meet the box.
#[derive(Debug, Clone, Copy, PartialEq, Eq, Hash, Structural)]
pub struct Brush {
    pub min_x: i32,
    pub min_y: i32,
    pub min_z: i32,
    pub max_x: i32,
    pub max_y: i32,
    pub max_z: i32,
    pub lg_size: i16,
}

/// The number of cells of size `2^lg` that meet `[min, max)` on one axis.
pub open spec fn axis_count(min: int, max: int, lg: nat) -> int {
    if min < max {
        bounds::coarsen_coord(max - 1, lg) - bounds::coarsen_coord(min, lg) + 1
    } else {
        0
    }
}

impl Brush {
    /// The brush rewrites voxels: its size is within the cap.
    pub open spec fn active(self) -> bool {
        0 <= self.lg_size <= BRUSH_MAX_LG_SIZE
    }

    /// Each side of the box is at most `2^20` units.
    pub open spec fn fits(self) -> bool {
        &&& self.min_x <= self.max_x <= self.min_x + 0x10_0000
        &&& self.min_y <= self.max_y <= self.min_y + 0x10_0000
        &&& self.min_z <= self.max_z <= self.min_z + 0x10_0000
    }

    pub open spec fn counts(self) -> (int, int, int) {
        let lg = self.lg_size as nat;
        (
            axis_count(self.min_x as int, self.max_x as int, lg),
            axis_count(self.min_y as int, self.max_y as int, lg),
            axis_count(self.min_z as int, self.max_z as int, lg),
        )
    }

    /// The `i`-th voxel the brush touches, x-major.
    pub open spec fn cell(self, i: int) -> bounds::T {
        let lg = self.lg_size as nat;
        let (_, ny, nz) = self.counts();
        bounds::T {
            x: (bounds::coarsen_coord(self.min_x as int, lg) + i / (ny * nz)) as i32,
            y: (bounds::coarsen_coord(self.min_y as int, lg) + (i / nz) % ny) as i32,
            z: (bounds::coarsen_coord(self.min_z as int, lg) + i % nz) as i32,
            lg_size: self.lg_size,
        }
    }

    /// The voxels the brush touches: those of its size that meet its box,
    /// when it is active; none otherwise.
    pub open spec fn cells(self) -> Seq<bounds::T> {
        let (nx, ny, nz) = self.counts();
        if self.active() {
            Seq::new((nx * ny * nz) as nat, |i: int| self.cell(i))
        } else {
            Seq::empty()
        }
    }
}

/// The world's terrain: the field's seed and the voxels made so far.
pub struct T {
    pub seed: u32,
    pub voxels: Vec<(bounds::T, voxel::T)>,
}

impl T {
    /// The voxels made so far, by bounds.
    pub open spec fn view(&self) -> Map<bounds::T, voxel::T> {
        assoc::as_map(self.voxels@)
    }

    pub open spec fn wf(&self) -> bool {
        assoc::keys_unique(self.voxels@)
    }

    pub fn new(seed: u32) -> (r: T)
        ensures
            r.wf(),
            r.seed == seed,
            r@ == Map::<bounds::T, voxel::T>::empty(),
    {
        let r = T { seed, voxels: Vec::new() };
        assert(r@ =~= Map::<bounds::T, voxel::T>::empty());
        r
    }

    fn find(&self, b: &bounds::T) -> (r: Option<usize>)
        ensures
            match r {
                Some(j) => j < self.voxels@.len() && self.voxels@[j as int].0 == *b,
                None => !self@.contains_key(*b),
            },
    {
        let mut i: usize = 0;
        while i < self.voxels.len()
            invariant
                i <= self.voxels@.len(),
                forall|j: int| 0 <= j < i ==> !assoc::has_key_at(self.voxels@, j, *b),
            decreases self.voxels@.len() - i,
        {
            if self.voxels[i].0 == *b {
                return Some(i);
            }
            i = i + 1;
        }
        None
    }

    /// Stores `v` under `b`, replacing what was there.
    fn store(&mut self, b: bounds::T, v: voxel::T)
        requires
            old(self).wf(),
        ensures
            final(self).wf(),
            final(self).seed == old(self).seed,
            final(self)@ == old(self)@.insert(b, v),
    {
        match self.find(&b) {
            Some(j) => {
                proof {
                    assoc::lemma_update(self.voxels@, j as int, v);
                }
                self.voxels[j] = (b, v);
            },
            None => {
                proof {
                    assoc::lemma_push(self.voxels@, b, v);
                }
                self.voxels.push((b, v));
            },
        }
    }

    /// The voxel at bounds `b`, if one was made.
    pub fn get(&self, b: &bounds::T) -> (r: Option<voxel::T>)
        requires
            self.wf(),
        ensures
            r == (if self@.contains_key(*b) {
                Some(self@[*b])
            } else {
                None
            }),
    {
        match self.find(b) {
            Some(j) => {
                proof {
                    assoc::lemma_at(self.voxels@, j as int);
                }
                Some(self.voxels[j].1)
            },
            None => None,
        }
    }

    /// The voxel at bounds `b`: the one made before, or else a new one from
    /// `generate`, which is kept.
    pub fn load<G: Fn(bounds::T) -> voxel::T>(&mut self, b: &bounds::T, generate: G) -> (r: voxel::T)
        requires
            old(self).wf(),
            generate.requires((*b,)),
        ensures
            final(self).wf(),
            final(self).seed == old(self).seed,
            old(self)@.contains_key(*b) ==> r == old(self)@[*b] && final(self)@ == old(self)@,
            !old(self)@.contains_key(*b) ==> generate.ensures((*b,), r) && final(self)@ == old(self)@.insert(*b, r),
    {
        match self.get(b) {
            Some(v) => v,
            None => {
                let v = generate(*b);
                self.store(*b, v);
                v
            },
        }
    }
}

/// What a brush does to the voxels `old`, giving `new` and reporting
/// `changes`: each touched cell, in order, gets `apply` of its voxel (the one
/// made before, or else a new one from `generate`) and is reported with its
/// new voxel; every other voxel stays as it was.
pub open spec fn brush_post<G: Fn(bounds::T) -> voxel::T, A: Fn(bounds::T, voxel::T) -> voxel::T>(
    old: Map<bounds::T, voxel::T>,
    new: Map<bounds::T, voxel::T>,
    cells: Seq<bounds::T>,
    generate: G,
    apply: A,
    changes: Seq<(voxel::T, bounds::T)>,
) -> bool {
    &&& changes.len() == cells.len()
    &&& forall|i: int|
        0 <= i < cells.len() ==> {
            &&& (#[trigger] changes[i]).1 == cells[i]
            &&& new.contains_key(cells[i])
            &&& changes[i].0 == new[cells[i]]
            &&& brushed(old, generate, apply, cells[i], new[cells[i]])
        }
    &&& forall|k: bounds::T|
        !cells.contains(k) ==> (#[trigger] new.contains_key(k) == old.contains_key(k) && (old.contains_key(k)
            ==> new[k] == old[k]))
}

/// Voxel `v` at bounds `b` is `apply` of the voxel that was there in `old`,
/// or else of one that `generate` makes.
pub open spec fn brushed<G: Fn(bounds::T) -> voxel::T, A: Fn(bounds::T, voxel::T) -> voxel::T>(
    old: Map<bounds::T, voxel::T>,
    generate: G,
    apply: A,
    b: bounds::T,
    v: voxel::T,
) -> bool {
    exists|prior: voxel::T|
        #[trigger] apply.ensures((b, prior), v) && if old.contains_key(b) {
            prior == old[b]
        } else {
            generate.ensures((b,), prior)
        }
}

/// An index below `ny * nz * n` is its three digits in mixed radix.
proof fn lemma_mixed_radix(i: int, ny: int, nz: int)
    requires
        i >= 0,
        ny >= 1,
        nz >= 1,
    ensures
        i == (i / (ny * nz)) * (ny * nz) + ((i / nz) % ny) * nz + i % nz,
        0 <= (i / nz) % ny < ny,
        0 <= i % nz < nz,
{
    lemma_fundamental_div_mod(i, nz);
    lemma_fundamental_div_mod(i / nz, ny);
    lemma_mod_bound(i, nz);
    lemma_mod_bound(i / nz, ny);
    lemma_div_denominator(i, nz, ny);
    assert(nz * ny == ny * nz) by (nonlinear_arith);
    let a = i / (ny * nz);
    let b = (i / nz) % ny;
    let c = i % nz;
    assert(i == a * (ny * nz) + b * nz + c) by (nonlinear_arith)
        requires
            i == nz * (i / nz) + c,
            i / nz == ny * ((i / nz) / ny) + b,
            (i / nz) / ny == a,
    ;
}

proof fn lemma_axis_count(min: int, max: int, lg: nat)
    requires
        i32::MIN <= min <= max <= min + 0x10_0000,
        max <= i32::MAX,
    ensures
        0 <= axis_count(min, max, lg) <= 0x10_0001,
        min < max ==> i32::MIN <= bounds::coarsen_coord(min, lg) && bounds::coarsen_coord(max - 1, lg) <= i32::MAX,
{
    if min < max {
        let p = pow2(lg) as int;
        vstd::arithmetic::power2::lemma_pow2_pos(lg);
        let lo = bounds::coarsen_coord(min, lg);
        let hi = bounds::coarsen_coord(max - 1, lg);
        bounds::lemma_cell_offset(min, lo, p);
        bounds::lemma_cell_offset(max - 1, hi, p);
        bounds::lemma_div_in_range(min, p);
        bounds::lemma_div_in_range(max - 1, p);
        assert(0 <= hi - lo <= 0x10_0000) by (nonlinear_arith)
            requires
                p >= 1,
                0 <= min - lo * p < p,
                0 <= (max - 1) - hi * p < p,
                min <= max - 1 <= min + 0x10_0000,
        ;
    }
}

/// The first cell and the number of cells of size `2^lg` that meet
/// `[min, max)` on one axis.
fn axis_range(min: i32, max: i32, lg: u32) -> (r: (i32, u64))
    requires
        min <= max <= min + 0x10_0000,
    ensures
        r.0 == bounds::coarsen_coord(min as int, lg as nat),
        r.1 == axis_count(min as int, max as int, lg as nat),
        r.1 <= 0x10_0001,
{
    proof {
        lemma_axis_count(min as int, max as int, lg as nat);
    }
    let lo = bounds::coarsen_i32(min, lg);
    if min < max {
        let hi = bounds::coarsen_i32(max - 1, lg);
        (lo, (hi as i64 - lo as i64 + 1) as u64)
    } else {
        (lo, 0)
    }
}

impl T {
    /// Applies a brush: every voxel of its size that meets its box gets
    /// `apply` of its present voxel (made by `generate` if there was none).
    /// Returns each touched voxel's new value with its bounds.
    pub fn brush<G: Fn(bounds::T) -> voxel::T, A: Fn(bounds::T, voxel::T) -> voxel::T>(
        &mut self,
        brush: &Brush,
        generate: G,
        apply: A,
    ) -> (r: Vec<(voxel::T, bounds::T)>)
        requires
            old(self).wf(),
            brush.fits(),
            forall|b: bounds::T| #[trigger] generate.requires((b,)),
            forall|b: bounds::T, v: voxel::T| #[trigger] apply.requires((b, v)),
        ensures
            final(self).wf(),
            final(self).seed == old(self).seed,
            brush_post(old(self)@, final(self)@, brush.cells(), generate, apply, r@),
    {
        let mut changes: Vec<(voxel::T, bounds::T)> = Vec::new();
        if brush.lg_size < 0 || brush.lg_size > BRUSH_MAX_LG_SIZE {
            assert(brush.cells() =~= Seq::<bounds::T>::empty());
            assert forall|k: bounds::T| !brush.cells().contains(k) implies (#[trigger] self@.contains_key(k)
                == old(self)@.contains_key(k)) by {}
            return changes;
        }
        let lg = brush.lg_size as u32;
        let (lox, nx) = axis_range(brush.min_x, brush.max_x, lg);
        let (loy, ny) = axis_range(brush.min_y, brush.max_y, lg);
        let (loz, nz) = axis_range(brush.min_z, brush.max_z, lg);
        proof {
            lemma_axis_count(brush.min_x as int, brush.max_x as int, lg as nat);
            lemma_axis_count(brush.min_y as int, brush.max_y as int, lg as nat);
            lemma_axis_count(brush.min_z as int, brush.max_z as int, lg as nat);
            assert(nx * ny * nz <= 0x10_0001 * 0x10_0001 * 0x10_0001) by (nonlinear_arith)
                requires
                    nx <= 0x10_0001,
                    ny <= 0x10_0001,
                    nz <= 0x10_0001,
            ;
            assert(ny * nz <= 0x10_0001 * 0x10_0001) by (nonlinear_arith)
                requires
                    ny <= 0x10_0001,
                    nz <= 0x10_0001,
            ;
            assert(nx * ny <= 0x10_0001 * 0x10_0001) by (nonlinear_arith)
                requires
                    nx <= 0x10_0001,
                    ny <= 0x10_0001,
            ;
        }
        let count = nx * ny * nz;
        let ghost cells = brush.cells();
        let ghost old_map = self@;
        assert(cells.len() == count);
        let mut i: u64 = 0;
        while i < count
            invariant
                i <= count,
                count == nx * ny * nz,
                cells == brush.cells(),
                cells.len() == count,
                brush.active(),
                brush.fits(),
                lg == brush.lg_size,
                lox == bounds::coarsen_coord(brush.min_x as int, lg as nat),
                loy == bounds::coarsen_coord(brush.min_y as int, lg as nat),
                loz == bounds::coarsen_coord(brush.min_z as int, lg as nat),
                (nx as int, ny as int, nz as int) == brush.counts(),
                ny * nz <= 0x10_0001 * 0x10_0001,
                forall|b: bounds::T| #[trigger] generate.requires((b,)),
                forall|b: bounds::T, v: voxel::T| #[trigger] apply.requires((b, v)),
                self.wf(),
                self.seed == old(self).seed,
                old_map == old(self)@,
                changes@.len() == i,
                forall|j: int|
                    0 <= j < i ==> {
                        &&& (#[trigger] changes@[j]).1 == cells[j]
                        &&& self@.contains_key(cells[j])
                        &&& changes@[j].0 == self@[cells[j]]
                        &&& brushed(old_map, generate, apply, cells[j], self@[cells[j]])
                    },
                forall|k: bounds::T|
                    !cells.subrange(0, i as int).contains(k) ==> (#[trigger] self@.contains_key(k)
                        == old_map.contains_key(k) && (old_map.contains_key(k) ==> self@[k] == old_map[k])),
            decreases count - i,
        {
            let ghost ii = i as int;
            let ghost head = self@;
            let ghost head_changes = changes@;
            assert forall|j: int| 0 <= j < ii implies brushed(old_map, generate, apply, cells[j], head[cells[j]]) by {
                let _ = head_changes[j];
            }
            let ghost nyi = ny as int;
            let ghost nzi = nz as int;
            proof {
                assert(nyi >= 1 && nzi >= 1) by (nonlinear_arith)
                    requires
                        0 <= ii < nx * nyi * nzi,
                        nx >= 0,
                        nyi >= 0,
                        nzi >= 0,
                ;
                lemma_mixed_radix(ii, nyi, nzi);
                assert(ny * nz >= 1) by (nonlinear_arith)
                    requires
                        nyi >= 1,
                        nzi >= 1,
                        nyi == ny,
                        nzi == nz,
                ;
                assert(0 <= ii / (nyi * nzi) < nx) by (nonlinear_arith)
                    requires
                        ii == (ii / (nyi * nzi)) * (nyi * nzi) + ((ii / nzi) % nyi) * nzi + ii % nzi,
                        0 <= (ii / nzi) % nyi < nyi,
                        0 <= ii % nzi < nzi,
                        0 <= ii < nx * nyi * nzi,
                        nyi >= 1,
                        nzi >= 1,
                ;
                lemma_axis_count(brush.min_x as int, brush.max_x as int, lg as nat);
                lemma_axis_count(brush.min_y as int, brush.max_y as int, lg as nat);
                lemma_axis_count(brush.min_z as int, brush.max_z as int, lg as nat);
            }
            let b = bounds::T {
                x: lox + (i / (ny * nz)) as i32,
                y: loy + ((i / nz) % ny) as i32,
                z: loz + (i % nz) as i32,
                lg_size: brush.lg_size,
            };
            assert(b == cells[ii]);
            proof {
                assert forall|j: int| 0 <= j < ii implies cells[j] != b by {
                    lemma_mixed_radix(j, nyi, nzi);
                    assert(0 <= j / (nyi * nzi) < nx) by (nonlinear_arith)
                        requires
                            j == (j / (nyi * nzi)) * (nyi * nzi) + ((j / nzi) % nyi) * nzi + j % nzi,
                            0 <= (j / nzi) % nyi < nyi,
                            0 <= j % nzi < nzi,
                            0 <= j < nx * nyi * nzi,
                            nyi >= 1,
                            nzi >= 1,
                    ;
                    if cells[j] == b {
                        assert(j / (nyi * nzi) == ii / (nyi * nzi));
                        assert((j / nzi) % nyi == (ii / nzi) % nyi);
                        assert(j % nzi == ii % nzi);
                        assert(j == ii);
                    }
                }
                assert(!cells.subrange(0, ii).contains(b));
            }
            assert(self@.contains_key(b) == old_map.contains_key(b));
            let prior = match self.get(&b) {
                Some(v) => v,
                None => generate(b),
            };
            let v = apply(b, prior);
            let ghost before = self@;
            let ghost old_changes = changes@;
            assert(forall|j: int| 0 <= j < ii ==> #[trigger] old_changes[j] == changes@[j]);
            self.store(b, v);
            changes.push((v, b));
            proof {
                assert(changes@[ii] == (v, b));
                assert forall|j: int| 0 <= j < ii + 1 implies {
                    &&& (#[trigger] changes@[j]).1 == cells[j]
                    &&& self@.contains_key(cells[j])
                    &&& changes@[j].0 == self@[cells[j]]
                    &&& brushed(old_map, generate, apply, cells[j], self@[cells[j]])
                } by {
                    if j == ii {
                        assert(apply.ensures((cells[j], prior), self@[cells[j]]));
                        assert(if old_map.contains_key(cells[j]) {
                            prior == old_map[cells[j]]
                        } else {
                            generate.ensures((cells[j],), prior)
                        });
                        assert(brushed(old_map, generate, apply, cells[j], self@[cells[j]]));
                    } else {
                        assert(cells[j] != b);
                        let _ = changes@[j];
                        assert(old_changes[j] == changes@[j]);
                        assert(before == head);
                        assert(brushed(old_map, generate, apply, cells[j], head[cells[j]]));
                        assert(before[cells[j]] == self@[cells[j]]);
                    }
                }
                assert forall|k: bounds::T|
                    !cells.subrange(0, ii + 1).contains(k) implies (#[trigger] self@.contains_key(k)
                    == old_map.contains_key(k) && (old_map.contains_key(k) ==> self@[k] == old_map[k])) by {
                    if cells.subrange(0, ii).contains(k) {
                        let w = choose|w: int| 0 <= w < ii && cells.subrange(0, ii)[w] == k;
                        assert(cells.subrange(0, ii + 1)[w] == k);
                    }
                    if k == b {
                        assert(cells.subrange(0, ii + 1)[ii] == k);
                    }
                }
            }
            i = i + 1;
        }
        proof {
            assert(cells.subrange(0, count as int) =~= cells);
            assert forall|k: bounds::T| !cells.contains(k) implies (#[trigger] self@.contains_key(k)
                == old_map.contains_key(k) && (old_map.contains_key(k) ==> self@[k] == old_map[k])) by {
                assert(!cells.subrange(0, count as int).contains(k));
            }
        }
        changes
    }
}

/// A brush whose `apply` leaves every voxel as it finds it changes no voxel
/// made before, and each voxel it adds is the field's own.
pub proof fn lemma_identity_brush<G: Fn(bounds::T) -> voxel::T, A: Fn(bounds::T, voxel::T) -> voxel::T>(
    old: Map<bounds::T, voxel::T>,
    new: Map<bounds::T, voxel::T>,
    cells: Seq<bounds::T>,
    generate: G,
    apply: A,
    changes: Seq<(voxel::T, bounds::T)>,
)
    requires
        brush_post(old, new, cells, generate, apply, changes),
        forall|b: bounds::T, v: voxel::T, w: voxel::T| #[trigger] apply.ensures((b, v), w) ==> w == v,
    ensures
        forall|b: bounds::T| #[trigger] old.contains_key(b) ==> new.contains_key(b) && new[b] == old[b],
        forall|b: bounds::T| #[trigger] new.contains_key(b) && !old.contains_key(b) ==> generate.ensures((b,), new[b]),
{
    assert forall|b: bounds::T| #[trigger] old.contains_key(b) implies new.contains_key(b) && new[b] == old[b] by {
        if cells.contains(b) {
            let i = choose|i: int| 0 <= i < cells.len() && cells[i] == b;
            let _ = changes[i];
            let prior = choose|prior: voxel::T|
                #[trigger] apply.ensures((b, prior), new[b]) && if old.contains_key(b) {
                    prior == old[b]
                } else {
                    generate.ensures((b,), prior)
                };
        }
    }
    assert forall|b: bounds::T| #[trigger] new.contains_key(b) && !old.contains_key(b) implies generate.ensures(
        (b,),
        new[b],
    ) by {
        if cells.contains(b) {
            let i = choose|i: int| 0 <= i < cells.len() && cells[i] == b;
            let _ = changes[i];
            let prior = choose|prior: voxel::T|
                #[trigger] apply.ensures((b, prior), new[b]) && if old.contains_key(b) {
                    prior == old[b]
                } else {
                    generate.ensures((b,), prior)
                };
        }
    }
}

impl DeepView for bounds::T {
    type V = bounds::T;

    open spec fn deep_view(&self) -> bounds::T {
        *self
    }
}

impl DeepView for voxel::T {
    type V = voxel::T;

    open spec fn deep_view(&self) -> voxel::T {
        *self
    }
}

/// Bounds as the plain values they are written as.
pub open spec fn bounds_tuple(b: bounds::T) -> (i32, (i32, (i32, i16))) {
    (b.x, (b.y, (b.z, b.lg_size)))
}

impl Flatten for bounds::T {
    open spec fn flat(v: bounds::T) -> Seq<u8> {
        <(i32, (i32, (i32, i16))) as Flatten>::flat(bounds_tuple(v))
    }

    open spec fn flattenable(v: bounds::T) -> bool {
        true
    }

    fn emit(v: &bounds::T, dest: &mut Vec<u8>) -> (r: Result<(), ()>) {
        let t = (v.x, (v.y, (v.z, v.lg_size)));
        assert(t.deep_view() == bounds_tuple(*v));
        <(i32, (i32, (i32, i16))) as Flatten>::emit(&t, dest)
    }

    fn read<'a>(s: &mut MemStream<'a>) -> (r: Result<bounds::T, EOF>) {
        let ghost sa = *s;
        let t = match <(i32, (i32, (i32, i16))) as Flatten>::read(s) {
            Ok(t) => t,
            Err(e) => {
                proof {
                    assert forall|w: bounds::T| !(Self::flattenable(w) && bounds_encoded_at(sa, w)) by {
                        if Self::flattenable(w) && bounds_encoded_at(sa, w) {
                            assert(<(i32, (i32, (i32, i16))) as Flatten>::flattenable(bounds_tuple(w)));
                        }
                    }
                }
                return Err(e);
            },
        };
        proof {
            assert forall|w: bounds::T| Self::flattenable(w) && bounds_encoded_at(sa, w) implies t.deep_view()
                == bounds_tuple(w) by {
                assert(<(i32, (i32, (i32, i16))) as Flatten>::flattenable(bounds_tuple(w)));
            }
        }
        Ok(bounds::T { x: t.0, y: t.1.0, z: t.1.1.0, lg_size: t.1.1.1 })
    }
}

spec fn bounds_encoded_at<'a>(s: MemStream<'a>, w: bounds::T) -> bool {
    serialize::starts_with(s.remaining(), <bounds::T as Flatten>::flat(w))
}

/// A voxel as the plain values it is written as: a tag (0 for a volume, 1
/// for a surface), the material, the vertex and the normal.
pub type VoxelTuple = (u8, (u8, ((u8, (u8, u8)), (i8, (i8, i8)))));

pub open spec fn material_tag(m: voxel::Material) -> u8 {
    match m {
        voxel::Material::Empty => 0,
        voxel::Material::Terrain => 1,
        voxel::Material::Bark => 2,
        voxel::Material::Leaves => 3,
        voxel::Material::Stone => 4,
        voxel::Material::Marble => 5,
    }
}

pub open spec fn voxel_tuple(v: voxel::T) -> VoxelTuple {
    match v {
        voxel::T::Volume(m) => (0, (material_tag(m), ((0, (0, 0)), (0, (0, 0))))),
        voxel::T::Surface(s) => (
            1,
            (
                material_tag(s.material),
                ((s.inner_vertex.x, (s.inner_vertex.y, s.inner_vertex.z)), (s.normal.x, (s.normal.y, s.normal.z))),
            ),
        ),
    }
}

fn tag_of_material(m: voxel::Material) -> (r: u8)
    ensures
        r == material_tag(m),
{
    match m {
        voxel::Material::Empty => 0,
        voxel::Material::Terrain => 1,
        voxel::Material::Bark => 2,
        voxel::Material::Leaves => 3,
        voxel::Material::Stone => 4,
        voxel::Material::Marble => 5,
    }
}

fn material_of_tag(t: u8) -> (r: Option<voxel::Material>)
    ensures
        r matches Some(m) ==> material_tag(m) == t,
        t <= 5 ==> r is Some,
{
    match t {
        0 => Some(voxel::Material::Empty),
        1 => Some(voxel::Material::Terrain),
        2 => Some(voxel::Material::Bark),
        3 => Some(voxel::Material::Leaves),
        4 => Some(voxel::Material::Stone),
        5 => Some(voxel::Material::Marble),
        _ => None,
    }
}

/// The voxel that plain values stand for, if they stand for one.
fn voxel_of_tuple(t: VoxelTuple) -> (r: Option<voxel::T>)
    ensures
        forall|v: voxel::T| voxel_tuple(v) == t ==> r == Some(v),
{
    let m = match material_of_tag(t.1.0) {
        Some(m) => m,
        None => {
            return None;
        },
    };
    if t.0 == 0 {
        if t.1.1.0.0 == 0 && t.1.1.0.1.0 == 0 && t.1.1.0.1.1 == 0 && t.1.1.1.0 == 0 && t.1.1.1.1.0 == 0
            && t.1.1.1.1.1 == 0 {
            Some(voxel::T::Volume(m))
        } else {
            None
        }
    } else if t.0 == 1 {
        let vx = t.1.1.0;
        let nm = t.1.1.1;
        Some(
            voxel::T::Surface(
                voxel::SurfaceStruct {
                    inner_vertex: voxel::Vertex { x: vx.0, y: vx.1.0, z: vx.1.1 },
                    normal: voxel::Normal { x: nm.0, y: nm.1.0, z: nm.1.1 },
                    material: m,
                },
            ),
        )
    } else {
        None
    }
}

impl Flatten for voxel::T {
    open spec fn flat(v: voxel::T) -> Seq<u8> {
        <VoxelTuple as Flatten>::flat(voxel_tuple(v))
    }

    open spec fn flattenable(v: voxel::T) -> bool {
        true
    }

    fn emit(v: &voxel::T, dest: &mut Vec<u8>) -> (r: Result<(), ()>) {
        let t: VoxelTuple = match v {
            voxel::T::Volume(m) => (0, (tag_of_material(*m), ((0, (0, 0)), (0, (0, 0))))),
            voxel::T::Surface(s) => (
                1,
                (
                    tag_of_material(s.material),
                    (
                        (s.inner_vertex.x, (s.inner_vertex.y, s.inner_vertex.z)),
                        (s.normal.x, (s.normal.y, s.normal.z)),
                    ),
                ),
            ),
        };
        assert(t.deep_view() == voxel_tuple(*v));
        <VoxelTuple as Flatten>::emit(&t, dest)
    }

    fn read<'a>(s: &mut MemStream<'a>) -> (r: Result<voxel::T, EOF>) {
        let ghost sa = *s;
        let t = match <VoxelTuple as Flatten>::read(s) {
            Ok(t) => t,
            Err(e) => {
                proof {
                    assert forall|w: voxel::T| !(Self::flattenable(w) && voxel_encoded_at(sa, w)) by {
                        if Self::flattenable(w) && voxel_encoded_at(sa, w) {
                            assert(<VoxelTuple as Flatten>::flattenable(voxel_tuple(w)));
                        }
                    }
                }
                return Err(e);
            },
        };
        proof {
            assert forall|w: voxel::T| Self::flattenable(w) && voxel_encoded_at(sa, w) implies t.deep_view()
                == voxel_tuple(w) by {
                assert(<VoxelTuple as Flatten>::flattenable(voxel_tuple(w)));
            }
        }
        match voxel_of_tuple(t) {
            Some(v) => Ok(v),
            None => Err(EOF),
        }
    }
}

spec fn voxel_encoded_at<'a>(s: MemStream<'a>, w: voxel::T) -> bool {
    serialize::starts_with(s.remaining(), <voxel::T as Flatten>::flat(w))
}

/// The bytes a terrain is saved as: its seed, then its voxels.
pub open spec fn terrain_bytes(seed: u32, voxels: Seq<(bounds::T, voxel::T)>) -> Seq<u8> {
    <u32 as Flatten>::flat(seed) + <Vec<(bounds::T, voxel::T)> as Flatten>::flat(voxels)
}

/// What `decode` promises of its result on `data`: a terrain it returns is
/// well-formed, and bytes that start with a saved terrain give back that
/// terrain.
pub open spec fn decode_post(data: Seq<u8>, r: Result<T, EOF>) -> bool {
    &&& r matches Ok(t) ==> t.wf()
    &&& forall|seed: u32, voxels: Seq<(bounds::T, voxel::T)>|
        assoc::keys_unique(voxels) && voxels.len() <= u32::MAX && serialize::starts_with(
            data,
            #[trigger] terrain_bytes(seed, voxels),
        ) ==> (r matches Ok(t) && t.seed == seed && t.voxels@ == voxels)
}

proof fn lemma_voxels_deep_view(v: Vec<(bounds::T, voxel::T)>)
    ensures
        v.deep_view() == v@,
{
    assert(v.deep_view() =~= v@);
}

/// The keys of `v` are distinct.
fn keys_distinct(v: &Vec<(bounds::T, voxel::T)>) -> (r: bool)
    ensures
        r == assoc::keys_unique(v@),
{
    let mut i: usize = 0;
    while i < v.len()
        invariant
            i <= v@.len(),
            forall|a: int, b: int| 0 <= a < i && 0 <= b < v@.len() && a != b ==> v@[a].0 != v@[b].0,
        decreases v@.len() - i,
    {
        let mut j: usize = 0;
        while j < v.len()
            invariant
                i < v@.len(),
                j <= v@.len(),
                forall|a: int, b: int| 0 <= a < i && 0 <= b < v@.len() && a != b ==> v@[a].0 != v@[b].0,
                forall|b: int| 0 <= b < j && b != i ==> v@[i as int].0 != v@[b].0,
            decreases v@.len() - j,
        {
            if j != i && v[i].0 == v[j].0 {
                return false;
            }
            j = j + 1;
        }
        i = i + 1;
    }
    true
}

impl T {
    /// The bytes this terrain is saved as; fails when it holds more than
    /// `u32::MAX` voxels.
    pub fn encode(&self) -> (r: Result<Vec<u8>, ()>)
        ensures
            r is Ok <==> self.voxels@.len() <= u32::MAX,
            r matches Ok(b) ==> b@ == terrain_bytes(self.seed, self.voxels@),
    {
        proof {
            lemma_voxels_deep_view(self.voxels);
        }
        let mut r: Vec<u8> = Vec::new();
        u32::emit(&self.seed, &mut r)?;
        <Vec<(bounds::T, voxel::T)> as Flatten>::emit(&self.voxels, &mut r)?;
        assert(r@ =~= terrain_bytes(self.seed, self.voxels@));
        Ok(r)
    }

    /// Reads back a saved terrain; fails on bytes that do not hold one.
    pub fn decode(data: &[u8]) -> (r: Result<T, EOF>)
        ensures
            decode_post(data@, r),
    {
        let mut s = MemStream::new(data);
        let ghost sa = s;
        assert(sa.remaining() =~= data@);
        let seed = match u32::read(&mut s) {
            Ok(x) => x,
            Err(e) => {
                proof {
                    assert forall|sd: u32, vs: Seq<(bounds::T, voxel::T)>|
                        !(assoc::keys_unique(vs) && vs.len() <= u32::MAX && serialize::starts_with(
                            data@,
                            #[trigger] terrain_bytes(sd, vs),
                        )) by {
                        if assoc::keys_unique(vs) && vs.len() <= u32::MAX && serialize::starts_with(
                            data@,
                            terrain_bytes(sd, vs),
                        ) {
                            serialize::lemma_split(
                                sa.remaining(),
                                <u32 as Flatten>::flat(sd),
                                <Vec<(bounds::T, voxel::T)> as Flatten>::flat(vs),
                            );
                        }
                    }
                }
                return Err(e);
            },
        };
        let ghost sb = s;
        let voxels = match <Vec<(bounds::T, voxel::T)> as Flatten>::read(&mut s) {
            Ok(x) => x,
            Err(e) => {
                proof {
                    assert forall|sd: u32, vs: Seq<(bounds::T, voxel::T)>|
                        !(assoc::keys_unique(vs) && vs.len() <= u32::MAX && serialize::starts_with(
                            data@,
                            #[trigger] terrain_bytes(sd, vs),
                        )) by {
                        if assoc::keys_unique(vs) && vs.len() <= u32::MAX && serialize::starts_with(
                            data@,
                            terrain_bytes(sd, vs),
                        ) {
                            serialize::lemma_split(
                                sa.remaining(),
                                <u32 as Flatten>::flat(sd),
                                <Vec<(bounds::T, voxel::T)> as Flatten>::flat(vs),
                            );
                            serialize::lemma_le_exact_len(sd as nat, 4);
                            serialize::lemma_advance(sa, sb, 4);
                            assert(<Vec<(bounds::T, voxel::T)> as Flatten>::flattenable(vs));
                        }
                    }
                }
                return Err(e);
            },
        };
        proof {
            lemma_voxels_deep_view(voxels);
            assert forall|sd: u32, vs: Seq<(bounds::T, voxel::T)>|
                assoc::keys_unique(vs) && vs.len() <= u32::MAX && serialize::starts_with(
                    data@,
                    #[trigger] terrain_bytes(sd, vs),
                ) implies seed == sd && voxels@ == vs by {
                serialize::lemma_split(sa.remaining(), <u32 as Flatten>::flat(sd), <Vec<(bounds::T, voxel::T)> as Flatten>::flat(vs));
                assert(<u32 as Flatten>::flat(sd).len() == 4) by {
                    serialize::lemma_le_exact_len(sd as nat, 4);
                }
                serialize::lemma_advance(sa, sb, 4);
                assert(<Vec<(bounds::T, voxel::T)> as Flatten>::flattenable(vs));
            }
        }
        if !keys_distinct(&voxels) {
            return Err(EOF);
        }
        Ok(T { seed, voxels })
    }
}

/// Decoding a saved terrain gives back that terrain: the same seed and the
/// same voxels, for any well-formed terrain (every terrain that `new`,
/// `load` and `brush` produce) of at most `u32::MAX` voxels.
pub proof fn lemma_persistence_round_trip(t: T, r: Result<T, EOF>)
    requires
        t.wf(),
        t.voxels@.len() <= u32::MAX,
        decode_post(terrain_bytes(t.seed, t.voxels@), r),
    ensures
        r matches Ok(d) && d.seed == t.seed && d@ == t@ && d.wf(),
{
    let bytes = terrain_bytes(t.seed, t.voxels@);
    assert(bytes.subrange(0, bytes.len() as int) =~= bytes);
    assert(serialize::starts_with(bytes, terrain_bytes(t.seed, t.voxels@)));
}

/// Voxel bounds `b` meet the brush's box `[min, max)` on every axis.
pub open spec fn meets(brush: Brush, b: bounds::T) -> bool {
    let p = pow2(b.lg_size as nat) as int;
    &&& brush.min_x < brush.max_x && b.x * p < brush.max_x && brush.min_x < (b.x + 1) * p
    &&& brush.min_y < brush.max_y && b.y * p < brush.max_y && brush.min_y < (b.y + 1) * p
    &&& brush.min_z < brush.max_z && b.z * p < brush.max_z && brush.min_z < (b.z + 1) * p
}

/// On one axis, cell `c` of size `2^lg` lies in the brush's range exactly
/// when it meets `[min, max)`.
proof fn lemma_axis_member(min: int, max: int, lg: nat, c: int)
    requires
        i32::MIN <= min <= max <= min + 0x10_0000,
        max <= i32::MAX,
    ensures
        (min < max && bounds::coarsen_coord(min, lg) <= c <= bounds::coarsen_coord(max - 1, lg)) <==> (min
            < max && c * pow2(lg) < max && min < (c + 1) * pow2(lg)),
{
    if min < max {
        let p = pow2(lg) as int;
        vstd::arithmetic::power2::lemma_pow2_pos(lg);
        let lo = bounds::coarsen_coord(min, lg);
        let hi = bounds::coarsen_coord(max - 1, lg);
        bounds::lemma_cell_offset(min, lo, p);
        bounds::lemma_cell_offset(max - 1, hi, p);
        assert((lo <= c <= hi) <==> (c * p < max && min < (c + 1) * p)) by (nonlinear_arith)
            requires
                p >= 1,
                0 <= min - lo * p < p,
                0 <= (max - 1) - hi * p < p,
        ;
    }
}

/// The index of the cell with offsets `dx`, `dy`, `dz` splits back into
/// them.
proof fn lemma_mixed_index(dx: int, dy: int, dz: int, nx: int, ny: int, nz: int)
    requires
        0 <= dx < nx,
        0 <= dy < ny,
        0 <= dz < nz,
    ensures
        0 <= dx * (ny * nz) + dy * nz + dz < nx * ny * nz,
        (dx * (ny * nz) + dy * nz + dz) / (ny * nz) == dx,
        ((dx * (ny * nz) + dy * nz + dz) / nz) % ny == dy,
        (dx * (ny * nz) + dy * nz + dz) % nz == dz,
{
    let i = dx * (ny * nz) + dy * nz + dz;
    assert(0 <= i < nx * ny * nz) by (nonlinear_arith)
        requires
            0 <= dx < nx,
            0 <= dy < ny,
            0 <= dz < nz,
            i == dx * (ny * nz) + dy * nz + dz,
    ;
    assert(i == (dx * ny + dy) * nz + dz) by (nonlinear_arith)
        requires
            i == dx * (ny * nz) + dy * nz + dz,
    ;
    vstd::arithmetic::div_mod::lemma_fundamental_div_mod_converse(i, nz, dx * ny + dy, dz);
    vstd::arithmetic::div_mod::lemma_fundamental_div_mod_converse(dx * ny + dy, ny, dx, dy);
    assert(0 <= dx * ny + dy) by (nonlinear_arith)
        requires
            0 <= dx,
            0 <= dy,
            ny >= 1,
    ;
    lemma_div_denominator(i, nz, ny);
    assert(nz * ny == ny * nz) by (nonlinear_arith);
}

/// The voxels an active brush touches are exactly the voxels of its size
/// that meet its box.
pub proof fn lemma_brush_cells_meet_box(brush: Brush, b: bounds::T)
    requires
        brush.fits(),
        brush.active(),
        b.lg_size == brush.lg_size,
    ensures
        brush.cells().contains(b) <==> meets(brush, b),
{
    let lg = brush.lg_size as nat;
    let (nx, ny, nz) = brush.counts();
    let lox = bounds::coarsen_coord(brush.min_x as int, lg);
    let loy = bounds::coarsen_coord(brush.min_y as int, lg);
    let loz = bounds::coarsen_coord(brush.min_z as int, lg);
    lemma_axis_count(brush.min_x as int, brush.max_x as int, lg);
    lemma_axis_count(brush.min_y as int, brush.max_y as int, lg);
    lemma_axis_count(brush.min_z as int, brush.max_z as int, lg);
    lemma_axis_member(brush.min_x as int, brush.max_x as int, lg, b.x as int);
    lemma_axis_member(brush.min_y as int, brush.max_y as int, lg, b.y as int);
    lemma_axis_member(brush.min_z as int, brush.max_z as int, lg, b.z as int);
    if brush.cells().contains(b) {
        let i = choose|i: int| 0 <= i < brush.cells().len() && brush.cells()[i] == b;
        assert(ny >= 1 && nz >= 1) by (nonlinear_arith)
            requires
                0 <= i < nx * ny * nz,
                nx >= 0,
                ny >= 0,
                nz >= 0,
        ;
        lemma_mixed_radix(i, ny, nz);
        assert(0 <= i / (ny * nz) < nx) by (nonlinear_arith)
            requires
                i == (i / (ny * nz)) * (ny * nz) + ((i / nz) % ny) * nz + i % nz,
                0 <= (i / nz) % ny < ny,
                0 <= i % nz < nz,
                0 <= i < nx * ny * nz,
                ny >= 1,
                nz >= 1,
        ;
    }
    if meets(brush, b) {
        let dx = b.x - lox;
        let dy = b.y - loy;
        let dz = b.z - loz;
        lemma_mixed_index(dx, dy, dz, nx, ny, nz);
        let i = dx * (ny * nz) + dy * nz + dz;
        assert(brush.cells()[i] == b);
    }
}

impl T {
    /// Loads each of `bs` in turn (see `load`); returns their voxels in
    /// order. Voxels made before stay as they were, and each one made now
    /// comes from `generate`.
    pub fn load_all<G: Fn(bounds::T) -> voxel::T>(&mut self, bs: &Vec<bounds::T>, generate: G) -> (r: Vec<
        voxel::T,
    >)
        requires
            old(self).wf(),
            forall|b: bounds::T| #[trigger] generate.requires((b,)),
        ensures
            final(self).wf(),
            final(self).seed == old(self).seed,
            r@.len() == bs@.len(),
            forall|i: int| 0 <= i < bs@.len() ==> final(self)@.contains_key(#[trigger] bs@[i]),
            forall|i: int| 0 <= i < bs@.len() ==> (#[trigger] r@[i]) == final(self)@[bs@[i]],
            forall|k: bounds::T| #[trigger]
                old(self)@.contains_key(k) ==> final(self)@.contains_key(k) && final(self)@[k] == old(self)@[k],
            forall|k: bounds::T| #[trigger]
                final(self)@.contains_key(k) && !old(self)@.contains_key(k) ==> bs@.contains(k) && generate.ensures(
                    (k,),
                    final(self)@[k],
                ),
    {
        let mut r: Vec<voxel::T> = Vec::new();
        let mut i: usize = 0;
        while i < bs.len()
            invariant
                i <= bs@.len(),
                self.wf(),
                self.seed == old(self).seed,
                forall|b: bounds::T| #[trigger] generate.requires((b,)),
                r@.len() == i,
                forall|j: int| 0 <= j < i ==> self@.contains_key(#[trigger] bs@[j]),
                forall|j: int| 0 <= j < i ==> (#[trigger] r@[j]) == self@[bs@[j]],
                forall|k: bounds::T| #[trigger]
                    old(self)@.contains_key(k) ==> self@.contains_key(k) && self@[k] == old(self)@[k],
                forall|k: bounds::T| #[trigger]
                    self@.contains_key(k) && !old(self)@.contains_key(k) ==> bs@.subrange(0, i as int).contains(k)
                        && generate.ensures((k,), self@[k]),
            decreases bs@.len() - i,
        {
            let b = bs[i];
            let ghost before = self@;
            let ghost old_r = r@;
            let v = self.load(&b, &generate);
            r.push(v);
            proof {
                assert forall|k: bounds::T| #[trigger]
                    self@.contains_key(k) && !old(self)@.contains_key(k) implies bs@.subrange(0, i + 1).contains(k)
                    && generate.ensures((k,), self@[k]) by {
                    if k == b {
                        assert(bs@.subrange(0, i + 1)[i as int] == k);
                    } else {
                        assert(before.contains_key(k));
                        let w = choose|w: int| 0 <= w < i && bs@.subrange(0, i as int)[w] == k;
                        assert(bs@.subrange(0, i + 1)[w] == k);
                    }
                }
                assert(r@[i as int] == v);
                assert forall|j: int| 0 <= j < i + 1 implies self@.contains_key(#[trigger] bs@[j]) by {
                    if j < i {
                        assert(before.contains_key(bs@[j]));
                    }
                }
                assert forall|j: int| 0 <= j < i + 1 implies (#[trigger] r@[j]) == self@[bs@[j]] by {
                    if j < i {
                        assert(old_r[j] == before[bs@[j]]);
                        assert(before.contains_key(bs@[j]));
                        assert(r@[j] == old_r[j]);
                    } else {
                        assert(r@[j] == v);
                        assert(bs@[j] == b);
                    }
                }
            }
            i = i + 1;
        }
        proof {
            assert(bs@.subrange(0, bs@.len() as int) =~= bs@);
        }
        r
    }
}

} // verus!
