//! Levels of detail, the owners that request them, and the per-region map
//! of requests.

use crate::block_position;
use vstd::prelude::*;

verus! {

/// An index into the LOD-indexed tables; 0 is the highest detail.
#[derive(Debug, Clone, Copy, PartialEq, Eq, Hash, Structural)]
pub struct T(pub u32);

/// The number of levels of detail.
pub const NUM_LODS: u32 = 4;

/// The `lg_size` of the voxels that make up terrain at `lod`.
pub open spec fn lg_sample_size(lod: T) -> int {
    lod.0 as int
}

/// The `lg_size` of the voxels that make up terrain at `lod`.
pub fn lg_sample_size_of(lod: T) -> (r: i16)
    requires
        lod.0 < NUM_LODS,
    ensures
        r == lg_sample_size(lod),
{
    lod.0 as i16
}

/// Who holds a level-of-detail request on a region.
#[derive(Debug, Clone, Copy, PartialEq, Eq, Hash, Structural)]
pub struct OwnerId(pub u32);

/// A requested level: full terrain at an LOD, or only a coarse placeholder
/// body, which is coarser than every LOD.
#[derive(Debug, Clone, Copy, PartialEq, Eq, Hash, Structural)]
pub enum Level {
    Full(T),
    Placeholder,
}

/// Position of a level in the order of detail; lower is finer.
pub open spec fn rank(l: Level) -> int {
    match l {
        Level::Full(t) => t.0 as int,
        Level::Placeholder => u32::MAX as int + 1,
    }
}

/// Level `a` is strictly finer than level `b`.
pub fn finer(a: Level, b: Level) -> (r: bool)
    ensures
        r == (rank(a) < rank(b)),
{
    match (a, b) {
        (Level::Full(x), Level::Full(y)) => x.0 < y.0,
        (Level::Full(_), Level::Placeholder) => true,
        (Level::Placeholder, _) => false,
    }
}

/// `l` is one of the requested levels and no request is finer.
pub open spec fn is_min(reqs: Map<OwnerId, Level>, l: Level) -> bool {
    &&& exists|o: OwnerId| reqs.contains_key(o) && reqs[o] == l
    &&& forall|o: OwnerId| reqs.contains_key(o) ==> rank(l) <= rank(#[trigger] reqs[o])
}

/// The effective level of a set of requests: the finest one requested, or
/// none when there are no requests.
pub open spec fn effective(reqs: Map<OwnerId, Level>) -> Option<Level> {
    if exists|l: Level| is_min(reqs, l) {
        Some(choose|l: Level| is_min(reqs, l))
    } else {
        None
    }
}

/// How the effective level of a region moved.
#[derive(Debug, Clone, Copy, PartialEq, Eq, Hash, Structural)]
pub struct LODChange {
    pub loaded: Option<Level>,
    pub desired: Option<Level>,
}

/// The change from effective level `a` to `b`, if they differ.
pub open spec fn change_of(a: Option<Level>, b: Option<Level>) -> Option<LODChange> {
    if a == b {
        None
    } else {
        Some(LODChange { loaded: a, desired: b })
    }
}

/// One owner's request on one region.
#[derive(Debug, Clone, Copy, PartialEq, Eq, Hash, Structural)]
pub struct Request {
    pub position: block_position::T,
    pub owner: OwnerId,
    pub level: Level,
}

/// Per region, per owner, the requested level.
pub struct LodMap {
    requests: Vec<Request>,
}

pub open spec fn keyed(s: Seq<Request>, j: int, k: (block_position::T, OwnerId)) -> bool {
    0 <= j < s.len() && s[j].position == k.0 && s[j].owner == k.1
}

pub open spec fn request_map(s: Seq<Request>) -> Map<(block_position::T, OwnerId), Level> {
    Map::new(
        |k: (block_position::T, OwnerId)| exists|j: int| keyed(s, j, k),
        |k: (block_position::T, OwnerId)| s[choose|j: int| keyed(s, j, k)].level,
    )
}

pub open spec fn keys_unique(s: Seq<Request>) -> bool {
    forall|i: int, j: int|
        0 <= i < s.len() && 0 <= j < s.len() && i != j ==> !(#[trigger] s[i].position == #[trigger] s[j].position
            && s[i].owner == s[j].owner)
}

proof fn lemma_request_at(s: Seq<Request>, j: int)
    requires
        keys_unique(s),
        0 <= j < s.len(),
    ensures
        request_map(s).contains_key((s[j].position, s[j].owner)),
        request_map(s)[(s[j].position, s[j].owner)] == s[j].level,
{
    let k = (s[j].position, s[j].owner);
    assert(keyed(s, j, k));
    let c = choose|c: int| keyed(s, c, k);
    assert(c == j);
}

impl LodMap {
    /// The level each owner requests of each region.
    pub closed spec fn view(&self) -> Map<(block_position::T, OwnerId), Level> {
        request_map(self.requests@)
    }

    pub closed spec fn wf(&self) -> bool {
        keys_unique(self.requests@)
    }

    /// The requests on region `pos`, by owner.
    pub open spec fn requests_at(&self, pos: block_position::T) -> Map<OwnerId, Level> {
        Map::new(|o: OwnerId| self@.contains_key((pos, o)), |o: OwnerId| self@[(pos, o)])
    }

    /// The effective level of region `pos`; none when it is not present.
    pub open spec fn effective_at(&self, pos: block_position::T) -> Option<Level> {
        effective(self.requests_at(pos))
    }

    pub fn new() -> (r: LodMap)
        ensures
            r.wf(),
            r@ == Map::<(block_position::T, OwnerId), Level>::empty(),
    {
        let r = LodMap { requests: Vec::new() };
        assert(r@ =~= Map::<(block_position::T, OwnerId), Level>::empty());
        r
    }

    fn find(&self, pos: &block_position::T, owner: OwnerId) -> (r: Option<usize>)
        requires
            self.wf(),
        ensures
            match r {
                Some(j) => j < self.requests@.len() && self.requests@[j as int].position == *pos
                    && self.requests@[j as int].owner == owner,
                None => !self@.contains_key((*pos, owner)),
            },
    {
        let mut i: usize = 0;
        while i < self.requests.len()
            invariant
                i <= self.requests@.len(),
                forall|j: int| 0 <= j < i ==> !keyed(self.requests@, j, (*pos, owner)),
            decreases self.requests@.len() - i,
        {
            let q = self.requests[i];
            if q.position == *pos && q.owner == owner {
                return Some(i);
            }
            i = i + 1;
        }
        None
    }

    /// The effective level of region `pos`: the finest level any owner
    /// requests of it.
    pub fn effective_lod(&self, pos: &block_position::T) -> (r: Option<Level>)
        requires
            self.wf(),
        ensures
            r == self.effective_at(*pos),
    {
        let ghost s = self.requests@;
        let mut best: Option<Level> = None;
        let mut i: usize = 0;
        while i < self.requests.len()
            invariant
                s == self.requests@,
                i <= s.len(),
                best is None ==> forall|j: int| 0 <= j < i ==> s[j].position != *pos,
                best matches Some(l) ==> {
                    &&& exists|j: int| 0 <= j < i && s[j].position == *pos && s[j].level == l
                    &&& forall|j: int| 0 <= j < i && s[j].position == *pos ==> rank(l) <= rank(#[trigger] s[j].level)
                },
            decreases s.len() - i,
        {
            let q = self.requests[i];
            if q.position == *pos {
                match best {
                    None => {
                        best = Some(q.level);
                    },
                    Some(l) => {
                        if finer(q.level, l) {
                            best = Some(q.level);
                        }
                    },
                }
            }
            i = i + 1;
        }
        let ghost reqs = self.requests_at(*pos);
        proof {
            match best {
                None => {
                    assert forall|l: Level| !is_min(reqs, l) by {
                        if is_min(reqs, l) {
                            let o = choose|o: OwnerId| reqs.contains_key(o) && reqs[o] == l;
                            let j = choose|j: int| keyed(s, j, (*pos, o));
                        }
                    }
                },
                Some(l) => {
                    let j = choose|j: int| 0 <= j < s.len() && s[j].position == *pos && s[j].level == l;
                    lemma_request_at(s, j);
                    assert(reqs.contains_key(s[j].owner) && reqs[s[j].owner] == l);
                    assert forall|o: OwnerId| reqs.contains_key(o) implies rank(l) <= rank(#[trigger] reqs[o]) by {
                        let jj = choose|jj: int| keyed(s, jj, (*pos, o));
                        lemma_request_at(s, jj);
                    }
                    assert(is_min(reqs, l));
                    let m = choose|m: Level| is_min(reqs, m);
                    lemma_min_unique(reqs, l, m);
                },
            }
        }
        best
    }
}

proof fn lemma_min_unique(reqs: Map<OwnerId, Level>, a: Level, b: Level)
    requires
        is_min(reqs, a),
        is_min(reqs, b),
    ensures
        a == b,
{
    let oa = choose|o: OwnerId| reqs.contains_key(o) && reqs[o] == a;
    let ob = choose|o: OwnerId| reqs.contains_key(o) && reqs[o] == b;
    assert(rank(a) <= rank(reqs[ob]));
    assert(rank(b) <= rank(reqs[oa]));
}

proof fn lemma_set_same_key(s: Seq<Request>, j: int, q: Request)
    requires
        keys_unique(s),
        0 <= j < s.len(),
        s[j].position == q.position,
        s[j].owner == q.owner,
    ensures
        keys_unique(s.update(j, q)),
        request_map(s.update(j, q)) == request_map(s).insert((q.position, q.owner), q.level),
{
    let t = s.update(j, q);
    let key = (q.position, q.owner);
    assert forall|k: (block_position::T, OwnerId)| #[trigger] request_map(t).contains_key(k) <==> request_map(
        s,
    ).insert(key, q.level).contains_key(k) by {
        if exists|c: int| keyed(t, c, k) {
            let c = choose|c: int| keyed(t, c, k);
            assert(keyed(s, c, k));
        }
        if exists|c: int| keyed(s, c, k) {
            let c = choose|c: int| keyed(s, c, k);
            assert(keyed(t, c, k));
        }
        if k == key {
            assert(keyed(t, j, k));
        }
    }
    assert forall|k: (block_position::T, OwnerId)| #[trigger] request_map(t).contains_key(k) implies request_map(
        t,
    )[k] == request_map(s).insert(key, q.level)[k] by {
        let c = choose|c: int| keyed(t, c, k);
        lemma_request_at(t, c);
        if c != j {
            lemma_request_at(s, c);
        }
    }
    assert(request_map(t) =~= request_map(s).insert(key, q.level));
}

proof fn lemma_push_new_key(s: Seq<Request>, q: Request)
    requires
        keys_unique(s),
        !request_map(s).contains_key((q.position, q.owner)),
    ensures
        keys_unique(s.push(q)),
        request_map(s.push(q)) == request_map(s).insert((q.position, q.owner), q.level),
{
    let t = s.push(q);
    let key = (q.position, q.owner);
    assert forall|i: int| 0 <= i < s.len() implies !keyed(s, i, key) by {}
    assert forall|a: int, b: int|
        0 <= a < t.len() && 0 <= b < t.len() && a != b implies !(#[trigger] t[a].position
        == #[trigger] t[b].position && t[a].owner == t[b].owner) by {
        if a == s.len() {
            assert(!keyed(s, b, key));
        } else if b == s.len() {
            assert(!keyed(s, a, key));
        } else {
            assert(t[a] == s[a] && t[b] == s[b]);
        }
    }
    assert forall|k: (block_position::T, OwnerId)| #[trigger] request_map(t).contains_key(k) <==> request_map(
        s,
    ).insert(key, q.level).contains_key(k) by {
        if exists|c: int| keyed(t, c, k) {
            let c = choose|c: int| keyed(t, c, k);
            if c < s.len() {
                assert(keyed(s, c, k));
            }
        }
        if exists|c: int| keyed(s, c, k) {
            let c = choose|c: int| keyed(s, c, k);
            assert(keyed(t, c, k));
        }
        if k == key {
            assert(keyed(t, s.len() as int, k));
        }
    }
    assert forall|k: (block_position::T, OwnerId)| #[trigger] request_map(t).contains_key(k) implies request_map(
        t,
    )[k] == request_map(s).insert(key, q.level)[k] by {
        let c = choose|c: int| keyed(t, c, k);
        lemma_request_at(t, c);
        if c < s.len() {
            lemma_request_at(s, c);
        }
    }
    assert(request_map(t) =~= request_map(s).insert(key, q.level));
}

proof fn lemma_remove_key(s: Seq<Request>, j: int)
    requires
        keys_unique(s),
        0 <= j < s.len(),
    ensures
        keys_unique(s.remove(j)),
        request_map(s.remove(j)) == request_map(s).remove((s[j].position, s[j].owner)),
{
    let t = s.remove(j);
    let key = (s[j].position, s[j].owner);
    assert forall|a: int, b: int|
        0 <= a < t.len() && 0 <= b < t.len() && a != b implies !(#[trigger] t[a].position
        == #[trigger] t[b].position && t[a].owner == t[b].owner) by {
        let sa = if a < j { a } else { a + 1 };
        let sb = if b < j { b } else { b + 1 };
        assert(t[a] == s[sa] && t[b] == s[sb]);
    }
    assert forall|k: (block_position::T, OwnerId)| #[trigger] request_map(t).contains_key(k) <==> request_map(
        s,
    ).remove(key).contains_key(k) by {
        if exists|c: int| keyed(t, c, k) {
            let c = choose|c: int| keyed(t, c, k);
            let sc = if c < j { c } else { c + 1 };
            assert(keyed(s, sc, k));
            assert(sc != j);
        }
        if exists|c: int| keyed(s, c, k) {
            let c = choose|c: int| keyed(s, c, k);
            if k != key {
                assert(c != j);
                let tc = if c < j { c } else { c - 1 };
                assert(keyed(t, tc, k));
            }
        }
    }
    assert forall|k: (block_position::T, OwnerId)| #[trigger] request_map(t).contains_key(k) implies request_map(
        t,
    )[k] == request_map(s).remove(key)[k] by {
        let c = choose|c: int| keyed(t, c, k);
        lemma_request_at(t, c);
        let sc = if c < j { c } else { c + 1 };
        assert(t[c] == s[sc]);
        lemma_request_at(s, sc);
    }
    assert(request_map(t) =~= request_map(s).remove(key));
}

fn same_level(a: Option<Level>, b: Option<Level>) -> (r: bool)
    ensures
        r == (a == b),
{
    match (a, b) {
        (None, None) => true,
        (Some(Level::Placeholder), Some(Level::Placeholder)) => true,
        (Some(Level::Full(x)), Some(Level::Full(y))) => x.0 == y.0,
        _ => false,
    }
}

impl LodMap {
    /// Records that `owner` requests `level` of region `pos`, replacing its
    /// earlier request there. Returns the region's previous effective level,
    /// and how the effective level moved, if it did.
    pub fn insert(&mut self, pos: block_position::T, level: Level, owner: OwnerId) -> (r: (
        Option<Level>,
        Option<LODChange>,
    ))
        requires
            old(self).wf(),
        ensures
            final(self).wf(),
            final(self)@ == old(self)@.insert((pos, owner), level),
            r.0 == old(self).effective_at(pos),
            r.1 == change_of(old(self).effective_at(pos), final(self).effective_at(pos)),
    {
        let before = self.effective_lod(&pos);
        let q = Request { position: pos, owner, level };
        match self.find(&pos, owner) {
            Some(j) => {
                proof {
                    lemma_set_same_key(self.requests@, j as int, q);
                }
                self.requests[j] = q;
            },
            None => {
                proof {
                    lemma_push_new_key(self.requests@, q);
                }
                self.requests.push(q);
            },
        }
        let after = self.effective_lod(&pos);
        if same_level(before, after) {
            (before, None)
        } else {
            (before, Some(LODChange { loaded: before, desired: after }))
        }
    }

    /// Withdraws `owner`'s request on region `pos`. Returns the region's
    /// previous effective level, and how the effective level moved, if it
    /// did; the region is gone once its last request is.
    pub fn remove(&mut self, pos: block_position::T, owner: OwnerId) -> (r: (
        Option<Level>,
        Option<LODChange>,
    ))
        requires
            old(self).wf(),
        ensures
            final(self).wf(),
            final(self)@ == old(self)@.remove((pos, owner)),
            r.0 == old(self).effective_at(pos),
            r.1 == change_of(old(self).effective_at(pos), final(self).effective_at(pos)),
    {
        let before = self.effective_lod(&pos);
        match self.find(&pos, owner) {
            Some(j) => {
                proof {
                    lemma_remove_key(self.requests@, j as int);
                }
                self.requests.remove(j);
            },
            None => {
                assert(self@.remove((pos, owner)) =~= self@);
            },
        }
        let after = self.effective_lod(&pos);
        if same_level(before, after) {
            (before, None)
        } else {
            (before, Some(LODChange { loaded: before, desired: after }))
        }
    }

    /// `None` when region `pos` is not present; else `owner`'s request on it,
    /// if any, and every owner's request on it.
    pub fn get(&self, pos: &block_position::T, owner: OwnerId) -> (r: Option<
        (Option<Level>, Vec<(OwnerId, Level)>),
    >)
        requires
            self.wf(),
        ensures
            r is None <==> self.requests_at(*pos).is_empty(),
            r matches Some((mine, all)) ==> {
                &&& mine == (if self@.contains_key((*pos, owner)) {
                    Some(self@[(*pos, owner)])
                } else {
                    None
                })
                &&& forall|o: OwnerId, l: Level|
                    #[trigger] all@.contains((o, l)) <==> self@.contains_key((*pos, o)) && self@[(*pos, o)] == l
                &&& all@.no_duplicates()
            },
    {
        let ghost s = self.requests@;
        let mut all: Vec<(OwnerId, Level)> = Vec::new();
        let mut mine: Option<Level> = None;
        let mut i: usize = 0;
        while i < self.requests.len()
            invariant
                s == self.requests@,
                keys_unique(s),
                i <= s.len(),
                forall|o: OwnerId, l: Level|
                    #[trigger] all@.contains((o, l)) <==> exists|j: int|
                        0 <= j < i && #[trigger] keyed(s, j, (*pos, o)) && s[j].level == l,
                mine matches Some(l) ==> exists|j: int| 0 <= j < i && keyed(s, j, (*pos, owner)) && s[j].level == l,
                mine is None ==> forall|j: int| 0 <= j < i ==> !keyed(s, j, (*pos, owner)),
                all@.no_duplicates(),
            decreases s.len() - i,
        {
            let q = self.requests[i];
            if q.position == *pos {
                let ghost old_all = all@;
                proof {
                    if old_all.contains((q.owner, q.level)) {
                        let j = choose|j: int|
                            0 <= j < i && #[trigger] keyed(s, j, (*pos, q.owner)) && s[j].level == q.level;
                        assert(keyed(s, i as int, (*pos, q.owner)));
                    }
                }
                all.push((q.owner, q.level));
                proof {
                    assert forall|a: int, b: int| 0 <= a < all@.len() && 0 <= b < all@.len() && a != b implies all@[a]
                        != all@[b] by {
                        if a == old_all.len() {
                            assert(old_all.contains(all@[b]) ==> all@[b] != all@[a]);
                            assert(all@[b] == old_all[b]);
                        } else if b == old_all.len() {
                            assert(all@[a] == old_all[a]);
                        } else {
                            assert(all@[a] == old_all[a] && all@[b] == old_all[b]);
                        }
                    }
                    assert forall|o: OwnerId, l: Level| #[trigger] all@.contains((o, l)) <==> exists|j: int|
                        0 <= j < i + 1 && #[trigger] keyed(s, j, (*pos, o)) && s[j].level == l by {
                        if all@.contains((o, l)) {
                            let w = choose|w: int| 0 <= w < all@.len() && all@[w] == (o, l);
                            if w < old_all.len() {
                                assert(old_all[w] == (o, l));
                                assert(old_all.contains((o, l)));
                            } else {
                                assert(keyed(s, i as int, (*pos, o)));
                            }
                        }
                        if exists|j: int| 0 <= j < i + 1 && #[trigger] keyed(s, j, (*pos, o)) && s[j].level == l {
                            let j = choose|j: int| 0 <= j < i + 1 && #[trigger] keyed(s, j, (*pos, o)) && s[j].level == l;
                            if j < i {
                                assert(old_all.contains((o, l)));
                                let w = choose|w: int| 0 <= w < old_all.len() && old_all[w] == (o, l);
                                assert(all@[w] == (o, l));
                            } else {
                                assert(all@[old_all.len() as int] == (o, l));
                            }
                        }
                    }
                }
                if q.owner == owner {
                    assert(keyed(s, i as int, (*pos, owner)));
                    mine = Some(q.level);
                }
            } else {
                proof {
                    assert forall|o: OwnerId, l: Level| #[trigger] all@.contains((o, l)) <==> exists|j: int|
                        0 <= j < i + 1 && #[trigger] keyed(s, j, (*pos, o)) && s[j].level == l by {
                        if exists|j: int| 0 <= j < i + 1 && #[trigger] keyed(s, j, (*pos, o)) && s[j].level == l {
                            let j = choose|j: int| 0 <= j < i + 1 && #[trigger] keyed(s, j, (*pos, o)) && s[j].level == l;
                            assert(j < i);
                        }
                    }
                }
            }
            i = i + 1;
        }
        proof {
            assert forall|o: OwnerId, l: Level|
                #[trigger] all@.contains((o, l)) <==> self@.contains_key((*pos, o)) && self@[(*pos, o)] == l by {
                if self@.contains_key((*pos, o)) {
                    let j = choose|j: int| keyed(s, j, (*pos, o));
                    lemma_request_at(s, j);
                    if self@[(*pos, o)] == l {
                        assert(keyed(s, j, (*pos, o)) && s[j].level == l);
                    }
                }
                if all@.contains((o, l)) {
                    let j = choose|j: int| 0 <= j < s.len() && #[trigger] keyed(s, j, (*pos, o)) && s[j].level == l;
                    lemma_request_at(s, j);
                }
            }
            match mine {
                Some(l) => {
                    let j = choose|j: int| 0 <= j < s.len() && keyed(s, j, (*pos, owner)) && s[j].level == l;
                    lemma_request_at(s, j);
                },
                None => {
                    if self@.contains_key((*pos, owner)) {
                        let j = choose|j: int| keyed(s, j, (*pos, owner));
                    }
                },
            }
            if all@.len() > 0 {
                let (o, l) = all@[0];
                assert(all@.contains((o, l)));
                assert(self.requests_at(*pos).contains_key(o));
            } else {
                assert forall|o: OwnerId| !self.requests_at(*pos).contains_key(o) by {
                    if self@.contains_key((*pos, o)) {
                        let j = choose|j: int| keyed(s, j, (*pos, o));
                        lemma_request_at(s, j);
                        assert(all@.contains((o, s[j].level)));
                    }
                }
                assert(self.requests_at(*pos) =~= Map::empty());
            }
        }
        if all.len() == 0 {
            None
        } else {
            Some((mine, all))
        }
    }
}

proof fn lemma_prefix_min(s: Seq<Request>, pos: block_position::T, n: int) -> (l: Level)
    requires
        0 <= n <= s.len(),
        exists|j: int| 0 <= j < n && s[j].position == pos,
    ensures
        exists|j: int| 0 <= j < n && s[j].position == pos && s[j].level == l,
        forall|j: int| 0 <= j < n && s[j].position == pos ==> rank(l) <= rank(#[trigger] s[j].level),
    decreases n,
{
    if exists|j: int| 0 <= j < n - 1 && s[j].position == pos {
        let m = lemma_prefix_min(s, pos, n - 1);
        if s[n - 1].position == pos && rank(s[n - 1].level) < rank(m) {
            s[n - 1].level
        } else {
            m
        }
    } else {
        s[n - 1].level
    }
}

/// The effective level of a region is always the finest level among the
/// requests currently held on it, and a region nobody requests is not
/// present. Every map that `new`, `insert` and `remove` produce is
/// well-formed, so this holds after any sequence of them.
pub proof fn lemma_effective_is_min(m: LodMap, pos: block_position::T)
    requires
        m.wf(),
    ensures
        m.effective_at(pos) is None <==> m.requests_at(pos).is_empty(),
        m.effective_at(pos) matches Some(l) ==> is_min(m.requests_at(pos), l),
{
    let s = m.requests@;
    let reqs = m.requests_at(pos);
    if !reqs.is_empty() {
        let o = choose|o: OwnerId| reqs.contains_key(o);
        let j0 = choose|j: int| keyed(s, j, (pos, o));
        let l = lemma_prefix_min(s, pos, s.len() as int);
        let j = choose|j: int| 0 <= j < s.len() && s[j].position == pos && s[j].level == l;
        lemma_request_at(s, j);
        assert(reqs.contains_key(s[j].owner) && reqs[s[j].owner] == l);
        assert forall|o2: OwnerId| reqs.contains_key(o2) implies rank(l) <= rank(#[trigger] reqs[o2]) by {
            let jj = choose|jj: int| keyed(s, jj, (pos, o2));
            lemma_request_at(s, jj);
        }
        assert(is_min(reqs, l));
        let c = choose|c: Level| is_min(reqs, c);
        lemma_min_unique(reqs, l, c);
    } else {
        assert forall|l: Level| !is_min(reqs, l) by {
            if is_min(reqs, l) {
                let o = choose|o: OwnerId| reqs.contains_key(o) && reqs[o] == l;
            }
        }
    }
}

impl LodMap {
    /// `owner`'s request on region `pos`, if any.
    pub fn request(&self, pos: &block_position::T, owner: OwnerId) -> (r: Option<Level>)
        requires
            self.wf(),
        ensures
            r == (if self@.contains_key((*pos, owner)) {
                Some(self@[(*pos, owner)])
            } else {
                None
            }),
    {
        match self.find(pos, owner) {
            Some(j) => {
                proof {
                    lemma_request_at(self.requests@, j as int);
                }
                Some(self.requests[j].level)
            },
            None => None,
        }
    }

    /// Some owner that requests `level` of region `pos`, if one does.
    pub fn holder(&self, pos: &block_position::T, level: Level) -> (r: Option<OwnerId>)
        requires
            self.wf(),
        ensures
            r matches Some(o) ==> self@.contains_key((*pos, o)) && self@[(*pos, o)] == level,
            r is None ==> forall|o: OwnerId| #[trigger] self@.contains_key((*pos, o)) ==> self@[(*pos, o)] != level,
    {
        let ghost s = self.requests@;
        let mut i: usize = 0;
        while i < self.requests.len()
            invariant
                s == self.requests@,
                keys_unique(s),
                i <= s.len(),
                forall|j: int| 0 <= j < i ==> !(s[j].position == *pos && s[j].level == level),
            decreases s.len() - i,
        {
            let q = self.requests[i];
            if q.position == *pos && same_level(Some(q.level), Some(level)) {
                proof {
                    lemma_request_at(s, i as int);
                }
                return Some(q.owner);
            }
            i = i + 1;
        }
        proof {
            assert forall|o: OwnerId| #[trigger] self@.contains_key((*pos, o)) implies self@[(*pos, o)] != level by {
                let j = choose|j: int| keyed(s, j, (*pos, o));
                lemma_request_at(s, j);
            }
        }
        None
    }
}

} // verus!
