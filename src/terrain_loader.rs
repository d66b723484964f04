//! The server's terrain loader: keeps each region's multi-owner LOD requests,
//! and turns changes of a region's effective level into physics and
//! generation actions for the caller to carry out.

use crate::assoc;
use crate::block_position;
use crate::bounds;
use crate::lod::{self, Level, LodMap, OwnerId};
use crate::voxel;
use vstd::prelude::*;

verus! {

/// Identifies a body registered with physics.
#[derive(Debug, Clone, Copy, PartialEq, Eq, Hash, Structural)]
pub struct EntityId(pub u32);

/// A block of terrain that generation produced: the physics bodies of its
/// triangles.
pub struct LoadedTerrain {
    pub ids: Vec<EntityId>,
}

/// A request to generate the voxels of a region at an LOD.
pub struct GaiaLoad {
    pub request_ns: u64,
    pub position: block_position::T,
    pub lod: lod::T,
    pub owner: OwnerId,
    pub bounds: Vec<bounds::T>,
}

/// What the caller must do after a loader operation.
pub enum Action {
    /// Register a coarse placeholder body for the region.
    InsertPlaceholder(block_position::T),
    /// Drop the region's placeholder body.
    RemovePlaceholder(block_position::T),
    /// Register a terrain body with physics.
    InsertTerrain(EntityId),
    /// Remove a terrain body from physics.
    RemoveTerrain(EntityId),
    /// Send a load request to the generator.
    Load(GaiaLoad),
}

/// Block positions whose voxels can be addressed at every LOD.
pub open spec fn in_world(p: block_position::T) -> bool {
    &&& -0x1000_0000 <= p.x < 0x1000_0000
    &&& -0x1000_0000 <= p.y < 0x1000_0000
    &&& -0x1000_0000 <= p.z < 0x1000_0000
}

/// A level the loader can act on: an LOD that has a voxel size, or a
/// placeholder.
pub open spec fn level_ok(l: Level) -> bool {
    l matches Level::Full(t) ==> t.0 < lod::NUM_LODS
}

/// The voxel bounds that make up region `p` at `lod`.
pub open spec fn region_bounds(p: block_position::T, lod: lod::T) -> Seq<bounds::T> {
    bounds::T { x: p.x, y: p.y, z: p.z, lg_size: block_position::LG_WIDTH }.refined(
        (block_position::LG_WIDTH - lod::lg_sample_size(lod)) as nat,
    )
}

pub open spec fn removals(ids: Seq<EntityId>) -> Seq<Action> {
    ids.map_values(|id: EntityId| Action::RemoveTerrain(id))
}

pub open spec fn insertions(ids: Seq<EntityId>) -> Seq<Action> {
    ids.map_values(|id: EntityId| Action::InsertTerrain(id))
}

pub open spec fn drop_placeholder_actions(ph: Set<block_position::T>, p: block_position::T) -> Seq<Action> {
    if ph.contains(p) {
        seq![Action::RemovePlaceholder(p)]
    } else {
        seq![]
    }
}

pub open spec fn add_placeholder_actions(ph: Set<block_position::T>, p: block_position::T) -> Seq<Action> {
    if ph.contains(p) {
        seq![]
    } else {
        seq![Action::InsertPlaceholder(p)]
    }
}

pub open spec fn drop_loaded_actions(lm: Map<block_position::T, Seq<EntityId>>, p: block_position::T) -> Seq<
    Action,
> {
    if lm.contains_key(p) {
        removals(lm[p])
    } else {
        seq![]
    }
}

/// Loads, unloads and registers terrain blocks. Each region can be
/// requested by several owners, each at its own level; the finest level
/// requested is the one that is loaded.
pub struct T {
    pub lod_map: LodMap,
    /// Regions that hold a placeholder body.
    pub in_progress_terrain: Vec<block_position::T>,
    /// The terrain bodies registered for each region.
    pub loaded: Vec<(block_position::T, Vec<EntityId>)>,
}

impl T {
    pub open spec fn loaded_view(&self) -> Seq<(block_position::T, Seq<EntityId>)> {
        self.loaded@.map_values(|e: (block_position::T, Vec<EntityId>)| (e.0, e.1@))
    }

    /// The terrain bodies registered for each region.
    pub open spec fn loaded_map(&self) -> Map<block_position::T, Seq<EntityId>> {
        assoc::as_map(self.loaded_view())
    }

    /// The regions that hold a placeholder body.
    pub open spec fn placeholders(&self) -> Set<block_position::T> {
        self.in_progress_terrain@.to_set()
    }

    /// Some owner requests region `p`.
    pub open spec fn requested(&self, p: block_position::T) -> bool {
        exists|o: OwnerId| self.lod_map@.contains_key((p, o))
    }

    /// A region that holds a placeholder or terrain bodies is requested.
    pub open spec fn tied_at(&self, p: block_position::T) -> bool {
        (self.placeholders().contains(p) || self.loaded_map().contains_key(p)) ==> self.requested(p)
    }

    pub open spec fn wf(&self) -> bool {
        &&& self.wf_base()
        &&& forall|p: block_position::T| #[trigger] self.tied_at(p)
    }

    /// The loader's collections are well-formed on their own.
    pub open spec fn wf_base(&self) -> bool {
        &&& self.lod_map.wf()
        &&& forall|k: (block_position::T, OwnerId)| #[trigger] self.lod_map@.contains_key(k) ==> level_ok(self.lod_map@[k])
        &&& self.in_progress_terrain@.no_duplicates()
        &&& assoc::keys_unique(self.loaded_view())
    }

    /// A block generated for `owner` at `lod` is still wanted: `owner` still
    /// requests it, and it is the region's effective level.
    pub open spec fn fresh(&self, pos: block_position::T, lod: lod::T, owner: OwnerId) -> bool {
        &&& self.lod_map@.contains_key((pos, owner))
        &&& self.lod_map@[(pos, owner)] == Level::Full(lod)
        &&& self.lod_map.effective_at(pos) == Some(Level::Full(lod))
    }
}

/// The effect of a region's effective level moving to `desired`, from
/// placeholders `ph` and registered bodies `lm` to state `new`, with actions
/// `acts`: with no level left, its bodies go; at a placeholder, a
/// placeholder body replaces any terrain bodies; at an LOD, the region's
/// terrain bodies go and a load request goes to the generator on behalf of
/// an owner that requests that LOD (`caller`, when it is one).
pub open spec fn change_post(
    ph: Set<block_position::T>,
    lm: Map<block_position::T, Seq<EntityId>>,
    new: &T,
    pos: block_position::T,
    desired: Option<Level>,
    request_ns: u64,
    caller: Option<OwnerId>,
    acts: Seq<Action>,
) -> bool {
    match desired {
        None => {
            &&& acts == drop_placeholder_actions(ph, pos) + drop_loaded_actions(lm, pos)
            &&& new.placeholders() == ph.remove(pos)
            &&& new.loaded_map() == lm.remove(pos)
        },
        Some(Level::Placeholder) => {
            &&& acts == add_placeholder_actions(ph, pos) + drop_loaded_actions(lm, pos)
            &&& new.placeholders() == ph.insert(pos)
            &&& new.loaded_map() == lm.remove(pos)
        },
        Some(Level::Full(l)) => {
            let n = drop_loaded_actions(lm, pos).len();
            &&& acts.len() == n + 1
            &&& acts.subrange(0, n as int) == drop_loaded_actions(lm, pos)
            &&& acts[n as int] matches Action::Load(g) && {
                &&& g.request_ns == request_ns
                &&& g.position == pos
                &&& g.lod == l
                &&& g.bounds@ == region_bounds(pos, l)
                &&& new.lod_map@.contains_key((pos, g.owner))
                &&& new.lod_map@[(pos, g.owner)] == Level::Full(l)
                &&& (caller is Some && new.lod_map@.contains_key((pos, caller->Some_0))
                    && new.lod_map@[(pos, caller->Some_0)] == Level::Full(l) ==> g.owner == caller->Some_0)
            }
            &&& new.placeholders() == ph
            &&& new.loaded_map() == lm.remove(pos)
        },
    }
}

/// What `insert_block` does: a stale block changes nothing; a fresh one
/// replaces the region's placeholder and earlier bodies with its own.
pub open spec fn insert_block_post(
    old: &T,
    new: &T,
    ids: Seq<EntityId>,
    pos: block_position::T,
    lod: lod::T,
    owner: OwnerId,
    acts: Seq<Action>,
) -> bool {
    &&& new.lod_map@ == old.lod_map@
    &&& if old.fresh(pos, lod, owner) {
        &&& acts == drop_placeholder_actions(old.placeholders(), pos) + drop_loaded_actions(old.loaded_map(), pos)
            + insertions(ids)
        &&& new.placeholders() == old.placeholders().remove(pos)
        &&& new.loaded_map() == old.loaded_map().insert(pos, ids)
    } else {
        &&& acts == Seq::<Action>::empty()
        &&& new.placeholders() == old.placeholders()
        &&& new.loaded_map() == old.loaded_map()
    }
}

/// The voxel bounds that make up region `p` at `lod`.
pub fn region_bounds_of(p: &block_position::T, lod: lod::T) -> (r: Vec<bounds::T>)
    requires
        in_world(*p),
        lod.0 < lod::NUM_LODS,
    ensures
        r@ == region_bounds(*p, lod),
{
    let b = bounds::new(p.x, p.y, p.z, block_position::LG_WIDTH);
    let k = (block_position::LG_WIDTH - lod::lg_sample_size_of(lod)) as u32;
    proof {
        voxel::lemma_small_refine_fits(p.x as int, k as nat);
        voxel::lemma_small_refine_fits(p.y as int, k as nat);
        voxel::lemma_small_refine_fits(p.z as int, k as nat);
    }
    b.refine(k)
}

fn same_position(a: &block_position::T, b: &block_position::T) -> (r: bool)
    ensures
        r == (*a == *b),
{
    a.x == b.x && a.y == b.y && a.z == b.z
}

impl T {
    pub fn new() -> (r: T)
        ensures
            r.wf(),
            r.lod_map@ == Map::<(block_position::T, OwnerId), Level>::empty(),
            r.placeholders() == Set::<block_position::T>::empty(),
            r.loaded_map() == Map::<block_position::T, Seq<EntityId>>::empty(),
    {
        let r = T { lod_map: LodMap::new(), in_progress_terrain: Vec::new(), loaded: Vec::new() };
        assert(r.placeholders() =~= Set::<block_position::T>::empty());
        assert(r.loaded_map() =~= Map::<block_position::T, Seq<EntityId>>::empty());
        r
    }

    fn find_loaded(&self, pos: &block_position::T) -> (r: Option<usize>)
        ensures
            match r {
                Some(j) => j < self.loaded@.len() && self.loaded_view()[j as int].0 == *pos,
                None => !self.loaded_map().contains_key(*pos),
            },
    {
        let mut i: usize = 0;
        while i < self.loaded.len()
            invariant
                i <= self.loaded@.len(),
                forall|j: int| 0 <= j < i ==> !assoc::has_key_at(self.loaded_view(), j, *pos),
            decreases self.loaded@.len() - i,
        {
            if same_position(&self.loaded[i].0, pos) {
                return Some(i);
            }
            i = i + 1;
        }
        None
    }

    fn find_placeholder(&self, pos: &block_position::T) -> (r: Option<usize>)
        ensures
            match r {
                Some(j) => j < self.in_progress_terrain@.len() && self.in_progress_terrain@[j as int] == *pos,
                None => !self.placeholders().contains(*pos),
            },
    {
        let mut i: usize = 0;
        while i < self.in_progress_terrain.len()
            invariant
                i <= self.in_progress_terrain@.len(),
                forall|j: int| 0 <= j < i ==> self.in_progress_terrain@[j] != *pos,
            decreases self.in_progress_terrain@.len() - i,
        {
            if same_position(&self.in_progress_terrain[i], pos) {
                return Some(i);
            }
            i = i + 1;
        }
        None
    }

    /// Removes the region's placeholder body, if it has one.
    fn drop_placeholder(&mut self, pos: &block_position::T, acts: &mut Vec<Action>)
        requires
            old(self).wf_base(),
        ensures
            final(self).wf_base(),
            final(self).lod_map == old(self).lod_map,
            final(self).loaded == old(self).loaded,
            final(self).placeholders() == old(self).placeholders().remove(*pos),
            final(acts)@ == old(acts)@ + drop_placeholder_actions(old(self).placeholders(), *pos),
    {
        let ghost s = self.in_progress_terrain@;
        match self.find_placeholder(pos) {
            Some(j) => {
                self.in_progress_terrain.remove(j);
                acts.push(Action::RemovePlaceholder(*pos));
                proof {
                    let t = self.in_progress_terrain@;
                    assert(t == s.remove(j as int));
                    assert(s.contains(*pos));
                    assert forall|a: int, b: int| 0 <= a < t.len() && 0 <= b < t.len() && a != b implies t[a] != t[b] by {
                        let sa = if a < j { a } else { a + 1 };
                        let sb = if b < j { b } else { b + 1 };
                        assert(t[a] == s[sa] && t[b] == s[sb]);
                    }
                    assert forall|x: block_position::T| t.contains(x) <==> s.to_set().remove(*pos).contains(x) by {
                        if t.contains(x) {
                            let w = choose|w: int| 0 <= w < t.len() && t[w] == x;
                            let sw = if w < j { w } else { w + 1 };
                            assert(s[sw] == x);
                            assert(sw != j);
                        }
                        if s.contains(x) && x != *pos {
                            let w = choose|w: int| 0 <= w < s.len() && s[w] == x;
                            assert(w != j);
                            let tw = if w < j { w } else { w - 1 };
                            assert(t[tw] == x);
                        }
                    }
                    assert(self.placeholders() =~= s.to_set().remove(*pos));
                    assert(drop_placeholder_actions(s.to_set(), *pos) == seq![Action::RemovePlaceholder(*pos)]);
                }
            },
            None => {
                assert(s.to_set().remove(*pos) =~= s.to_set());
                assert(old(acts)@ + drop_placeholder_actions(s.to_set(), *pos) =~= old(acts)@);
            },
        }
    }

    /// Gives the region a placeholder body, unless it has one.
    fn add_placeholder(&mut self, pos: &block_position::T, acts: &mut Vec<Action>)
        requires
            old(self).wf_base(),
        ensures
            final(self).wf_base(),
            final(self).lod_map == old(self).lod_map,
            final(self).loaded == old(self).loaded,
            final(self).placeholders() == old(self).placeholders().insert(*pos),
            final(acts)@ == old(acts)@ + add_placeholder_actions(old(self).placeholders(), *pos),
    {
        let ghost s = self.in_progress_terrain@;
        match self.find_placeholder(pos) {
            Some(j) => {
                assert(s.contains(*pos));
                assert(s.to_set().insert(*pos) =~= s.to_set());
                assert(old(acts)@ + add_placeholder_actions(s.to_set(), *pos) =~= old(acts)@);
            },
            None => {
                self.in_progress_terrain.push(*pos);
                acts.push(Action::InsertPlaceholder(*pos));
                proof {
                    let t = self.in_progress_terrain@;
                    assert(t == s.push(*pos));
                    assert forall|a: int, b: int| 0 <= a < t.len() && 0 <= b < t.len() && a != b implies t[a] != t[b] by {
                        if a == s.len() {
                            assert(!s.contains(*pos));
                            assert(t[b] == s[b]);
                        } else if b == s.len() {
                            assert(t[a] == s[a]);
                        } else {
                            assert(t[a] == s[a] && t[b] == s[b]);
                        }
                    }
                    assert forall|x: block_position::T| t.contains(x) <==> s.to_set().insert(*pos).contains(x) by {
                        if t.contains(x) && x != *pos {
                            let w = choose|w: int| 0 <= w < t.len() && t[w] == x;
                            assert(w < s.len());
                            assert(s[w] == x);
                        }
                        if s.contains(x) {
                            let w = choose|w: int| 0 <= w < s.len() && s[w] == x;
                            assert(t[w] == x);
                        }
                        if x == *pos {
                            assert(t[s.len() as int] == x);
                        }
                    }
                    assert(self.placeholders() =~= s.to_set().insert(*pos));
                }
            },
        }
    }

    /// Removes the region's terrain bodies, if it has any.
    fn drop_loaded(&mut self, pos: &block_position::T, acts: &mut Vec<Action>)
        requires
            old(self).wf_base(),
        ensures
            final(self).wf_base(),
            final(self).lod_map == old(self).lod_map,
            final(self).in_progress_terrain == old(self).in_progress_terrain,
            final(self).loaded_map() == old(self).loaded_map().remove(*pos),
            final(acts)@ == old(acts)@ + drop_loaded_actions(old(self).loaded_map(), *pos),
    {
        let ghost lv = self.loaded_view();
        match self.find_loaded(pos) {
            Some(j) => {
                proof {
                    assoc::lemma_at(lv, j as int);
                    assoc::lemma_remove(lv, j as int);
                }
                let (_, ids) = self.loaded.remove(j);
                assert(self.loaded_view() =~= lv.remove(j as int));
                let ghost start = acts@;
                let mut i: usize = 0;
                while i < ids.len()
                    invariant
                        i <= ids@.len(),
                        acts@ == start + removals(ids@.take(i as int)),
                    decreases ids@.len() - i,
                {
                    acts.push(Action::RemoveTerrain(ids[i]));
                    assert(removals(ids@.take(i + 1)) =~= removals(ids@.take(i as int)).push(Action::RemoveTerrain(ids@[i as int])));
                    assert(acts@ =~= start + removals(ids@.take(i + 1)));
                    i = i + 1;
                }
                assert(ids@.take(ids@.len() as int) =~= ids@);
            },
            None => {
                assert(old(self).loaded_map().remove(*pos) =~= old(self).loaded_map());
                assert(old(acts)@ + drop_loaded_actions(old(self).loaded_map(), *pos) =~= old(acts)@);
            },
        }
    }

    /// Carries out a move of region `pos`'s effective level to `desired`.
    fn apply_change(
        &mut self,
        pos: &block_position::T,
        desired: Option<Level>,
        request_ns: u64,
        caller: Option<OwnerId>,
    ) -> (r: Vec<Action>)
        requires
            old(self).wf_base(),
            forall|p: block_position::T| p != *pos ==> #[trigger] old(self).tied_at(p),
            in_world(*pos),
            old(self).lod_map.effective_at(*pos) == desired,
        ensures
            final(self).wf(),
            final(self).lod_map == old(self).lod_map,
            change_post(
                old(self).placeholders(),
                old(self).loaded_map(),
                &*final(self),
                *pos,
                desired,
                request_ns,
                caller,
                r@,
            ),
    {
        let ghost ph = self.placeholders();
        let ghost lm = self.loaded_map();
        proof {
            lod::lemma_effective_is_min(self.lod_map, *pos);
        }
        let mut acts: Vec<Action> = Vec::new();
        match desired {
            None => {
                self.drop_placeholder(pos, &mut acts);
                self.drop_loaded(pos, &mut acts);
            },
            Some(Level::Placeholder) => {
                self.add_placeholder(pos, &mut acts);
                self.drop_loaded(pos, &mut acts);
            },
            Some(Level::Full(l)) => {
                self.drop_loaded(pos, &mut acts);
                let ghost dropped = acts@;
                proof {
                    let reqs = self.lod_map.requests_at(*pos);
                    let o = choose|o: OwnerId| reqs.contains_key(o) && reqs[o] == Level::Full(l);
                    assert(self.lod_map@.contains_key((*pos, o)));
                }
                let by_caller = match caller {
                    Some(o) => match self.lod_map.request(pos, o) {
                        Some(Level::Full(c)) => c.0 == l.0,
                        _ => false,
                    },
                    None => false,
                };
                let owner = match (by_caller, caller) {
                    (true, Some(o)) => o,
                    _ => match self.lod_map.holder(pos, Level::Full(l)) {
                        Some(o) => o,
                        None => {
                            proof {
                                let reqs = self.lod_map.requests_at(*pos);
                                let o = choose|o: OwnerId| reqs.contains_key(o) && reqs[o] == Level::Full(l);
                                assert(self.lod_map@.contains_key((*pos, o)));
                            }
                            OwnerId(0)
                        },
                    },
                };
                let bounds = region_bounds_of(pos, l);
                acts.push(Action::Load(GaiaLoad { request_ns, position: *pos, lod: l, owner, bounds }));
                assert(acts@.subrange(0, dropped.len() as int) =~= dropped);
            },
        }
        proof {
            assert forall|p: block_position::T| #[trigger] self.tied_at(p) by {
                if p == *pos {
                    if desired is Some {
                        let reqs = self.lod_map.requests_at(*pos);
                        let l = desired->Some_0;
                        let o = choose|o: OwnerId| reqs.contains_key(o) && reqs[o] == l;
                        assert(self.lod_map@.contains_key((p, o)));
                    }
                } else {
                    assert(old(self).tied_at(p));
                    assert(self.placeholders().contains(p) ==> ph.contains(p));
                    assert(self.loaded_map().contains_key(p) ==> lm.contains_key(p));
                }
            }
        }
        acts
    }

    /// Records that `owner` wants region `position` at `new_lod`. When that
    /// moves the region's effective level, returns what must follow: a
    /// placeholder body, or a load request to the generator.
    pub fn load(&mut self, position: &block_position::T, new_lod: Level, owner: OwnerId, request_ns: u64) -> (r:
        Vec<Action>)
        requires
            old(self).wf(),
            in_world(*position),
            level_ok(new_lod),
        ensures
            final(self).wf(),
            final(self).lod_map@ == old(self).lod_map@.insert((*position, owner), new_lod),
            match lod::change_of(
                old(self).lod_map.effective_at(*position),
                final(self).lod_map.effective_at(*position),
            ) {
                None => r@ == Seq::<Action>::empty() && final(self).placeholders() == old(self).placeholders()
                    && final(self).loaded_map() == old(self).loaded_map(),
                Some(c) => change_post(
                    old(self).placeholders(),
                    old(self).loaded_map(),
                    &*final(self),
                    *position,
                    c.desired,
                    request_ns,
                    Some(owner),
                    r@,
                ),
            },
    {
        let ghost before = *self;
        let (_, change) = self.lod_map.insert(*position, new_lod, owner);
        proof {
            assert forall|p: block_position::T| #[trigger] self.tied_at(p) by {
                assert(before.tied_at(p));
                if before.requested(p) {
                    let o = choose|o: OwnerId| before.lod_map@.contains_key((p, o));
                    assert(self.lod_map@.contains_key((p, o)));
                }
            }
        }
        match change {
            None => Vec::new(),
            Some(c) => self.apply_change(position, c.desired, request_ns, Some(owner)),
        }
    }

    /// Withdraws `owner`'s request on region `position`. When that moves the
    /// region's effective level, returns what must follow: dropping its
    /// bodies, a placeholder, or a load request at the level now wanted.
    pub fn unload(&mut self, position: &block_position::T, owner: OwnerId, request_ns: u64) -> (r: Vec<Action>)
        requires
            old(self).wf(),
            in_world(*position),
        ensures
            final(self).wf(),
            final(self).lod_map@ == old(self).lod_map@.remove((*position, owner)),
            match lod::change_of(
                old(self).lod_map.effective_at(*position),
                final(self).lod_map.effective_at(*position),
            ) {
                None => r@ == Seq::<Action>::empty() && final(self).placeholders() == old(self).placeholders()
                    && final(self).loaded_map() == old(self).loaded_map(),
                Some(c) => change_post(
                    old(self).placeholders(),
                    old(self).loaded_map(),
                    &*final(self),
                    *position,
                    c.desired,
                    request_ns,
                    None,
                    r@,
                ),
            },
    {
        let ghost before = *self;
        let (_, change) = self.lod_map.remove(*position, owner);
        proof {
            lod::lemma_effective_is_min(before.lod_map, *position);
            lod::lemma_effective_is_min(self.lod_map, *position);
            assert forall|p: block_position::T| p != *position implies #[trigger] self.tied_at(p) by {
                assert(before.tied_at(p));
                if before.requested(p) {
                    let o = choose|o: OwnerId| before.lod_map@.contains_key((p, o));
                    assert(self.lod_map@.contains_key((p, o)));
                }
            }
            if change is None {
                let p = *position;
                assert(before.tied_at(p));
                if before.requested(p) {
                    let o = choose|o: OwnerId| before.lod_map@.contains_key((p, o));
                    assert(before.lod_map.requests_at(p).contains_key(o));
                    let l = self.lod_map.effective_at(p)->Some_0;
                    let reqs = self.lod_map.requests_at(p);
                    let o2 = choose|o2: OwnerId| reqs.contains_key(o2) && reqs[o2] == l;
                    assert(self.lod_map@.contains_key((p, o2)));
                }
                assert(self.tied_at(p));
            }
        }
        match change {
            None => Vec::new(),
            Some(c) => self.apply_change(position, c.desired, request_ns, None),
        }
    }

    /// Registers a block that generation produced for `owner` at `lod`. A
    /// block no longer wanted is discarded; otherwise its bodies replace the
    /// region's placeholder and earlier bodies.
    pub fn insert_block(&mut self, block: &LoadedTerrain, position: &block_position::T, lod: lod::T, owner: OwnerId) -> (r:
        Vec<Action>)
        requires
            old(self).wf(),
        ensures
            final(self).wf(),
            insert_block_post(&*old(self), &*final(self), block.ids@, *position, lod, owner, r@),
    {
        let mut acts: Vec<Action> = Vec::new();
        let mine = self.lod_map.request(position, owner);
        let effective = self.lod_map.effective_lod(position);
        let wanted = match (mine, effective) {
            (Some(Level::Full(a)), Some(Level::Full(b))) => a.0 == lod.0 && b.0 == lod.0,
            _ => false,
        };
        if !wanted {
            return acts;
        }
        self.drop_placeholder(position, &mut acts);
        self.drop_loaded(position, &mut acts);
        let ghost lv = self.loaded_view();
        let ids = block.ids.clone();
        assert(ids@ =~= block.ids@);
        proof {
            assoc::lemma_push(lv, *position, ids@);
        }
        self.loaded.push((*position, ids));
        assert(self.loaded_view() =~= lv.push((*position, block.ids@)));
        let ghost start = acts@;
        let mut i: usize = 0;
        while i < block.ids.len()
            invariant
                i <= block.ids@.len(),
                acts@ == start + insertions(block.ids@.take(i as int)),
            decreases block.ids@.len() - i,
        {
            acts.push(Action::InsertTerrain(block.ids[i]));
            assert(insertions(block.ids@.take(i + 1)) =~= insertions(block.ids@.take(i as int)).push(
                Action::InsertTerrain(block.ids@[i as int]),
            ));
            assert(acts@ =~= start + insertions(block.ids@.take(i + 1)));
            i = i + 1;
        }
        assert(block.ids@.take(block.ids@.len() as int) =~= block.ids@);
        assert(self.loaded_map() =~= old(self).loaded_map().insert(*position, block.ids@));
        proof {
            assert forall|p: block_position::T| #[trigger] self.tied_at(p) by {
                if p == *position {
                    assert(self.lod_map@.contains_key((p, owner)));
                } else {
                    assert(old(self).tied_at(p));
                }
            }
        }
        acts
    }
}

/// A block that generation returns after its owner withdrew its request on
/// the region (by `unload`, whatever `load` came before) is stale:
/// `insert_block` then registers no physics body, asks for no action and
/// leaves the loader as it was.
pub proof fn lemma_unloaded_block_is_discarded(
    before_unload: T,
    after_unload: T,
    after_insert: T,
    ids: Seq<EntityId>,
    pos: block_position::T,
    lod: lod::T,
    owner: OwnerId,
    acts: Seq<Action>,
)
    requires
        after_unload.lod_map@ == before_unload.lod_map@.remove((pos, owner)),
        insert_block_post(&after_unload, &after_insert, ids, pos, lod, owner, acts),
    ensures
        acts.len() == 0,
        after_insert.lod_map@ == after_unload.lod_map@,
        after_insert.placeholders() == after_unload.placeholders(),
        after_insert.loaded_map() == after_unload.loaded_map(),
{
    assert(!after_unload.fresh(pos, lod, owner));
}

} // verus!
