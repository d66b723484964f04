//! The client's record of the terrain blocks it shows: per region, the mesh
//! ids in the view and the LOD they were made at.

use crate::assoc;
use crate::block_position;
use crate::lod;
use vstd::prelude::*;

verus! {

/// Identifies a mesh in the view.
#[derive(Debug, Clone, Copy, PartialEq, Eq, Hash, Structural)]
pub struct MeshId(pub u32);

/// What the view must do after a change to the shown blocks.
#[derive(Debug, Clone, Copy, PartialEq, Eq, Hash, Structural)]
pub enum ViewUpdate {
    /// Remove a mesh from the view.
    RemoveTerrain(MeshId),
    /// Forget the voxel data of a region shown at an LOD.
    RemoveBlockData(block_position::T, lod::T),
}

pub open spec fn mesh_removals(ids: Seq<MeshId>) -> Seq<ViewUpdate> {
    ids.map_values(|id: MeshId| ViewUpdate::RemoveTerrain(id))
}

/// The blocks shown, by region.
pub struct LoadedBlocks {
    pub blocks: Vec<(block_position::T, (Vec<MeshId>, lod::T))>,
}

impl LoadedBlocks {
    pub open spec fn entries(&self) -> Seq<(block_position::T, (Seq<MeshId>, lod::T))> {
        self.blocks@.map_values(|e: (block_position::T, (Vec<MeshId>, lod::T))| (e.0, (e.1.0@, e.1.1)))
    }

    /// Per region, its mesh ids and the LOD they were made at.
    pub open spec fn view(&self) -> Map<block_position::T, (Seq<MeshId>, lod::T)> {
        assoc::as_map(self.entries())
    }

    pub open spec fn wf(&self) -> bool {
        assoc::keys_unique(self.entries())
    }

    pub fn new() -> (r: LoadedBlocks)
        ensures
            r.wf(),
            r@ == Map::<block_position::T, (Seq<MeshId>, lod::T)>::empty(),
    {
        let r = LoadedBlocks { blocks: Vec::new() };
        assert(r@ =~= Map::<block_position::T, (Seq<MeshId>, lod::T)>::empty());
        r
    }

    /// Takes region `pos`'s entry out, if it has one.
    fn take(&mut self, pos: &block_position::T) -> (r: Option<(Vec<MeshId>, lod::T)>)
        requires
            old(self).wf(),
        ensures
            final(self).wf(),
            final(self)@ == old(self)@.remove(*pos),
            match r {
                Some(e) => old(self)@.contains_key(*pos) && old(self)@[*pos] == (e.0@, e.1),
                None => !old(self)@.contains_key(*pos),
            },
    {
        let ghost es = self.entries();
        let mut i: usize = 0;
        while i < self.blocks.len()
            invariant
                es == self.entries(),
                es == old(self).entries(),
                assoc::keys_unique(es),
                i <= self.blocks@.len(),
                forall|j: int| 0 <= j < i ==> !assoc::has_key_at(es, j, *pos),
            decreases self.blocks@.len() - i,
        {
            if self.blocks[i].0 == *pos {
                let ghost old_blocks = self.blocks@;
                proof {
                    assert(es[i as int] == (old_blocks[i as int].0, (old_blocks[i as int].1.0@, old_blocks[i as int].1.1)));
                    assert(es[i as int].0 == *pos);
                    assoc::lemma_at(es, i as int);
                    assoc::lemma_remove(es, i as int);
                }
                let (_, e) = self.blocks.remove(i);
                assert(self.entries() =~= es.remove(i as int));
                assert(e == old_blocks[i as int].1);
                return Some(e);
            }
            i = i + 1;
        }
        assert(old(self)@.remove(*pos) =~= old(self)@);
        None
    }

    /// Shows region `pos` with meshes `ids` made at `lod`, replacing what it
    /// showed before; returns the removal of the meshes it replaces.
    pub fn insert(&mut self, pos: block_position::T, ids: Vec<MeshId>, lod: lod::T) -> (r: Vec<ViewUpdate>)
        requires
            old(self).wf(),
        ensures
            final(self).wf(),
            final(self)@ == old(self)@.insert(pos, (ids@, lod)),
            r@ == (if old(self)@.contains_key(pos) {
                mesh_removals(old(self)@[pos].0)
            } else {
                Seq::empty()
            }),
    {
        let mut r: Vec<ViewUpdate> = Vec::new();
        match self.take(&pos) {
            Some((old_ids, _)) => {
                push_removals(&mut r, &old_ids);
                assert(r@ =~= mesh_removals(old_ids@));
            },
            None => {},
        }
        let ghost es = self.entries();
        let ghost v = ids@;
        proof {
            assoc::lemma_push(es, pos, (v, lod));
        }
        self.blocks.push((pos, (ids, lod)));
        assert(self.entries() =~= es.push((pos, (v, lod))));
        assert(self@ =~= old(self)@.insert(pos, (v, lod)));
        r
    }

    /// Stops showing region `pos`: removes its meshes, then its voxel data.
    /// A region not shown needs nothing.
    pub fn remove(&mut self, pos: block_position::T) -> (r: Vec<ViewUpdate>)
        requires
            old(self).wf(),
        ensures
            final(self).wf(),
            final(self)@ == old(self)@.remove(pos),
            r@ == (if old(self)@.contains_key(pos) {
                mesh_removals(old(self)@[pos].0).push(ViewUpdate::RemoveBlockData(pos, old(self)@[pos].1))
            } else {
                Seq::empty()
            }),
    {
        let mut r: Vec<ViewUpdate> = Vec::new();
        match self.take(&pos) {
            Some((ids, lod)) => {
                push_removals(&mut r, &ids);
                r.push(ViewUpdate::RemoveBlockData(pos, lod));
            },
            None => {
                assert(r@ =~= Seq::<ViewUpdate>::empty());
            },
        }
        r
    }
}

/// Appends the removal of each mesh in `ids`.
fn push_removals(r: &mut Vec<ViewUpdate>, ids: &Vec<MeshId>)
    ensures
        final(r)@ == old(r)@ + mesh_removals(ids@),
{
    let ghost start = r@;
    let mut i: usize = 0;
    while i < ids.len()
        invariant
            i <= ids@.len(),
            r@ == start + mesh_removals(ids@.take(i as int)),
        decreases ids@.len() - i,
    {
        r.push(ViewUpdate::RemoveTerrain(ids[i]));
        assert(mesh_removals(ids@.take(i + 1)) =~= mesh_removals(ids@.take(i as int)).push(
            ViewUpdate::RemoveTerrain(ids@[i as int]),
        ));
        assert(r@ =~= start + mesh_removals(ids@.take(i + 1)));
        i = i + 1;
    }
    assert(ids@.take(ids@.len() as int) =~= ids@);
}

} // verus!
