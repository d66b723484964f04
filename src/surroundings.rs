//! The client's surroundings tracker: as the player moves from block to
//! block, which regions each level-of-detail shell starts and stops wanting.

use crate::block_position;
use crate::cube_shell;
use crate::lod;
use vstd::prelude::*;

verus! {

/// A change in what one shell wants; the shell is named by the LOD it
/// loads at, and holds its own requests.
#[derive(Debug, Clone, Copy, PartialEq, Eq, Hash, Structural)]
pub enum LODChange {
    /// The region entered the shell: load it at the shell's LOD.
    Load(block_position::T, lod::T),
    /// The region left the shell: withdraw the shell's request.
    Unload(block_position::T, lod::T),
}

/// The radius of the shell that loads at `lod`: the LOD thresholds, then the
/// load distance.
pub open spec fn shell_radius(lod: int, max_load_distance: int) -> int {
    if lod < block_position::NUM_THRESHOLDS {
        block_position::threshold(lod)
    } else {
        max_load_distance
    }
}

/// The changes a move from `prev` to `cur` brings: each shell loads the
/// regions that entered its cube and unloads those that left it.
pub open spec fn wanted(
    prev: block_position::T,
    cur: block_position::T,
    max_load_distance: int,
    c: LODChange,
) -> bool {
    match c {
        LODChange::Load(p, l) => l.0 < lod::NUM_LODS && cube_shell::cube_diff_set(
            cur,
            prev,
            shell_radius(l.0 as int, max_load_distance),
        ).contains(p),
        LODChange::Unload(p, l) => l.0 < lod::NUM_LODS && cube_shell::cube_diff_set(
            prev,
            cur,
            shell_radius(l.0 as int, max_load_distance),
        ).contains(p),
    }
}

/// The loads that a player first seen in block `cur` brings: every shell
/// loads its whole cube.
pub open spec fn wanted_first(cur: block_position::T, max_load_distance: int, c: LODChange) -> bool {
    match c {
        LODChange::Load(p, l) => l.0 < lod::NUM_LODS && cube_shell::in_cube(
            p,
            cur,
            shell_radius(l.0 as int, max_load_distance),
        ),
        LODChange::Unload(_, _) => false,
    }
}

/// The load distance is at least the outermost threshold and small enough
/// for a cube of that radius around `p` to be addressed.
pub open spec fn fits(p: block_position::T, max_load_distance: int) -> bool {
    &&& block_position::threshold(2) <= max_load_distance
    &&& cube_shell::cube_fits(p, max_load_distance)
}

fn radius_of(lod: u32, max_load_distance: i32) -> (r: i32)
    requires
        lod < lod::NUM_LODS,
    ensures
        r == shell_radius(lod as int, max_load_distance as int),
{
    if (lod as usize) < block_position::NUM_THRESHOLDS {
        block_position::lod_threshold(lod as usize)
    } else {
        max_load_distance
    }
}

pub open spec fn in_prefix(s: Seq<block_position::T>, n: int, p: block_position::T) -> bool {
    exists|w: int| 0 <= w < n && s[w] == p
}

/// Change `c` is a load (when `load`) or an unload at `lod`.
pub open spec fn in_group(c: LODChange, load: bool, lod: lod::T) -> bool {
    match c {
        LODChange::Load(_, l) => load && l == lod,
        LODChange::Unload(_, l) => !load && l == lod,
    }
}

/// Appends one change per position in `ps`, all loads or all unloads at
/// `lod`.
fn push_changes(out: &mut Vec<LODChange>, ps: &Vec<block_position::T>, load: bool, lod: lod::T)
    requires
        ps@.no_duplicates(),
        old(out)@.no_duplicates(),
        forall|c: LODChange| #[trigger] old(out)@.contains(c) ==> !in_group(c, load, lod),
    ensures
        final(out)@.no_duplicates(),
        forall|c: LODChange|
            #[trigger] final(out)@.contains(c) <==> old(out)@.contains(c) || match c {
                LODChange::Load(p, l) => load && l == lod && ps@.contains(p),
                LODChange::Unload(p, l) => !load && l == lod && ps@.contains(p),
            },
{
    let ghost start = out@;
    let mut i: usize = 0;
    while i < ps.len()
        invariant
            i <= ps@.len(),
            forall|c: LODChange|
                #[trigger] out@.contains(c) <==> start.contains(c) || match c {
                    LODChange::Load(p, l) => load && l == lod && in_prefix(ps@, i as int, p),
                    LODChange::Unload(p, l) => !load && l == lod && in_prefix(ps@, i as int, p),
                },
            out@.no_duplicates(),
            ps@.no_duplicates(),
            forall|c: LODChange| #[trigger] start.contains(c) ==> !in_group(c, load, lod),
        decreases ps@.len() - i,
    {
        let p = ps[i];
        let c = if load {
            LODChange::Load(p, lod)
        } else {
            LODChange::Unload(p, lod)
        };
        let ghost before = out@;
        proof {
            assert(in_group(c, load, lod));
            if before.contains(c) {
                assert(!start.contains(c));
                assert(in_prefix(ps@, i as int, p));
                let w = choose|w: int| 0 <= w < i && ps@[w] == p;
                assert(ps@[i as int] == p);
                assert(false);
            }
        }
        out.push(c);
        proof {
            assert forall|a: int, b: int| 0 <= a < out@.len() && 0 <= b < out@.len() && a != b implies out@[a]
                != out@[b] by {
                if a == before.len() {
                    assert(out@[b] == before[b]);
                    assert(before.contains(before[b]));
                } else if b == before.len() {
                    assert(out@[a] == before[a]);
                    assert(before.contains(before[a]));
                } else {
                    assert(out@[a] == before[a] && out@[b] == before[b]);
                }
            }
            assert forall|q: block_position::T| #[trigger] in_prefix(ps@, i + 1, q) <==> in_prefix(ps@, i as int, q)
                || q == p by {
                if q == p {
                    assert(ps@[i as int] == q);
                }
            }
            assert forall|d: LODChange| #[trigger] out@.contains(d) <==> before.contains(d) || d == c by {
                if out@.contains(d) {
                    let w = choose|w: int| 0 <= w < out@.len() && out@[w] == d;
                    if w < before.len() {
                        assert(before[w] == d);
                    }
                }
                if before.contains(d) {
                    let w = choose|w: int| 0 <= w < before.len() && before[w] == d;
                    assert(out@[w] == d);
                }
                if d == c {
                    assert(out@[before.len() as int] == d);
                }
            }
        }
        i = i + 1;
    }
    assert forall|q: block_position::T| #[trigger] in_prefix(ps@, ps@.len() as int, q) <==> ps@.contains(q) by {}
}

/// Tracks the player's block and reports, on each move, which regions each
/// shell wants loaded or unloaded.
pub struct SurroundingsLoader {
    pub last: Option<block_position::T>,
    pub max_load_distance: i32,
}

impl SurroundingsLoader {
    pub fn new(max_load_distance: i32) -> (r: SurroundingsLoader)
        ensures
            r.last is None,
            r.max_load_distance == max_load_distance,
    {
        SurroundingsLoader { last: None, max_load_distance }
    }

    /// The changes that the player's arrival in block `cur` brings: on the
    /// first call, every shell loads its whole cube; later, each shell
    /// loads the regions that entered it and unloads those that left it
    /// since the last call.
    pub fn update(&mut self, cur: block_position::T) -> (r: Vec<LODChange>)
        requires
            fits(cur, old(self).max_load_distance as int),
            old(self).last matches Some(prev) ==> fits(prev, old(self).max_load_distance as int),
        ensures
            final(self).last == Some(cur),
            final(self).max_load_distance == old(self).max_load_distance,
            forall|c: LODChange|
                #[trigger] r@.contains(c) <==> match old(self).last {
                    None => wanted_first(cur, old(self).max_load_distance as int, c),
                    Some(prev) => wanted(prev, cur, old(self).max_load_distance as int, c),
                },
            r@.no_duplicates(),
    {
        let max = self.max_load_distance;
        let mut out: Vec<LODChange> = Vec::new();
        let mut l: u32 = 0;
        while l < lod::NUM_LODS
            invariant
                l <= lod::NUM_LODS,
                max == self.max_load_distance,
                self.last == old(self).last,
                self.max_load_distance == old(self).max_load_distance,
                fits(cur, max as int),
                self.last matches Some(prev) ==> fits(prev, max as int),
                forall|c: LODChange|
                    #[trigger] out@.contains(c) <==> match self.last {
                        None => wanted_first(cur, max as int, c),
                        Some(prev) => wanted(prev, cur, max as int, c),
                    } && match c {
                        LODChange::Load(_, k) => k.0 < l,
                        LODChange::Unload(_, k) => k.0 < l,
                    },
                out@.no_duplicates(),
            decreases lod::NUM_LODS - l,
        {
            let radius = radius_of(l, max);
            let ghost before = out@;
            match self.last {
                None => {
                    let all = cube_shell::cube(&cur, radius);
                    push_changes(&mut out, &all, true, lod::T(l));
                },
                Some(prev) => {
                    let left = cube_shell::cube_diff(&prev, &cur, radius);
                    push_changes(&mut out, &left, false, lod::T(l));
                    let entered = cube_shell::cube_diff(&cur, &prev, radius);
                    push_changes(&mut out, &entered, true, lod::T(l));
                },
            }
            l = l + 1;
        }
        self.last = Some(cur);
        out
    }
}

} // verus!
