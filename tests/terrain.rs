use playform::block_position;
use playform::bounds;
use playform::closure_series::{self, consider_gaia_update, consider_world_update, network_listen, quit_upon};
use playform::communicate::ClientId;
use playform::loaded_blocks::{LoadedBlocks, MeshId, ViewUpdate};
use playform::lod::{self, Level, LodMap, OwnerId};
use playform::surroundings::{LODChange, SurroundingsLoader};
use playform::terrain::{self, Brush};
use playform::terrain_loader::{self, Action, LoadedTerrain};
use playform::voxel::{self, Material};

fn bp(x: i32, y: i32, z: i32) -> block_position::T {
    block_position::T { x, y, z }
}

fn field(b: bounds::T) -> voxel::T {
    // A stand-in field: solid below y = 0, air above.
    if b.y < 0 {
        voxel::T::Volume(Material::Terrain)
    } else {
        voxel::T::Volume(Material::Empty)
    }
}

#[test]
fn surroundings_move_by_one_block() {
    let mut s = SurroundingsLoader::new(10);
    let first = s.update(bp(0, 0, 0));
    assert!(first.iter().all(|c| matches!(c, LODChange::Load(_, _))));
    assert_eq!(first.iter().filter(|c| matches!(c, LODChange::Load(_, l) if *l == lod::T(0))).count(), 27);
    let changes = s.update(bp(1, 0, 0));
    let mut unloads: Vec<block_position::T> = Vec::new();
    let mut loads: Vec<block_position::T> = Vec::new();
    for c in &changes {
        match c {
            LODChange::Unload(p, l) if *l == lod::T(0) => unloads.push(*p),
            LODChange::Load(p, l) if *l == lod::T(0) => loads.push(*p),
            _ => {},
        }
    }
    assert_eq!(unloads.len(), 9);
    assert_eq!(loads.len(), 9);
    for y in -1..=1 {
        for z in -1..=1 {
            assert!(unloads.contains(&bp(-1, y, z)));
            assert!(loads.contains(&bp(2, y, z)));
        }
    }
}

#[test]
fn surroundings_no_move_no_change() {
    let mut s = SurroundingsLoader::new(10);
    s.update(bp(4, 4, 4));
    assert!(s.update(bp(4, 4, 4)).is_empty());
}

#[test]
fn lod_map_two_owners() {
    let r = bp(3, 0, 0);
    let mut m = LodMap::new();
    let (prev, change) = m.insert(r, Level::Full(lod::T(2)), OwnerId(1));
    assert_eq!(prev, None);
    assert_eq!(change, Some(lod::LODChange { loaded: None, desired: Some(Level::Full(lod::T(2))) }));
    let (prev, change) = m.insert(r, Level::Full(lod::T(0)), OwnerId(2));
    assert_eq!(prev, Some(Level::Full(lod::T(2))));
    assert_eq!(change.unwrap().desired, Some(Level::Full(lod::T(0))));
    assert_eq!(m.effective_lod(&r), Some(Level::Full(lod::T(0))));
    let (prev, change) = m.remove(r, OwnerId(2));
    assert_eq!(prev, Some(Level::Full(lod::T(0))));
    assert_eq!(change, Some(lod::LODChange { loaded: Some(Level::Full(lod::T(0))), desired: Some(Level::Full(lod::T(2))) }));
    let (_, change) = m.remove(r, OwnerId(1));
    assert_eq!(change.unwrap().desired, None);
    assert!(m.get(&r, OwnerId(1)).is_none());
}

#[test]
fn lod_map_equal_requests_and_get() {
    let r = bp(0, 0, 0);
    let mut m = LodMap::new();
    m.insert(r, Level::Full(lod::T(1)), OwnerId(1));
    let (_, change) = m.insert(r, Level::Full(lod::T(1)), OwnerId(2));
    assert_eq!(change, None);
    let (mine, all) = m.get(&r, OwnerId(2)).unwrap();
    assert_eq!(mine, Some(Level::Full(lod::T(1))));
    assert_eq!(all.len(), 2);
    let (_, change) = m.remove(r, OwnerId(1));
    assert_eq!(change, None);
    assert_eq!(m.effective_lod(&r), Some(Level::Full(lod::T(1))));
    let (_, change) = m.insert(r, Level::Placeholder, OwnerId(3));
    assert_eq!(change, None);
}

fn load_action(actions: &[Action]) -> (block_position::T, lod::T, OwnerId, usize) {
    assert_eq!(actions.len(), 1);
    match &actions[0] {
        Action::Load(g) => (g.position, g.lod, g.owner, g.bounds.len()),
        _ => panic!("expected a load request"),
    }
}

#[test]
fn loader_two_owners_reload_coarser() {
    let r = bp(1, 2, 3);
    let mut t = terrain_loader::T::new();
    let a = t.load(&r, Level::Full(lod::T(2)), OwnerId(1), 10);
    assert_eq!(load_action(&a), (r, lod::T(2), OwnerId(1), 8));
    let a = t.load(&r, Level::Full(lod::T(0)), OwnerId(2), 11);
    assert_eq!(load_action(&a), (r, lod::T(0), OwnerId(2), 512));
    let a = t.unload(&r, OwnerId(2), 12);
    assert_eq!(load_action(&a), (r, lod::T(2), OwnerId(1), 8));
}

#[test]
fn loader_stale_block_is_discarded() {
    let r = bp(0, 0, 0);
    let mut t = terrain_loader::T::new();
    let a = t.load(&r, Level::Full(lod::T(1)), OwnerId(7), 0);
    assert_eq!(load_action(&a).1, lod::T(1));
    let a = t.unload(&r, OwnerId(7), 0);
    assert!(a.is_empty());
    let block = LoadedTerrain { ids: vec![terrain_loader::EntityId(5), terrain_loader::EntityId(6)] };
    let a = t.insert_block(&block, &r, lod::T(1), OwnerId(7));
    assert!(a.is_empty());
    assert!(t.loaded.is_empty());
    assert!(t.in_progress_terrain.is_empty());
}

#[test]
fn loader_placeholder_then_full() {
    let r = bp(0, 1, 0);
    let mut t = terrain_loader::T::new();
    let a = t.load(&r, Level::Placeholder, OwnerId(1), 0);
    assert_eq!(a.len(), 1);
    assert!(matches!(a[0], Action::InsertPlaceholder(p) if p == r));
    let a = t.load(&r, Level::Full(lod::T(3)), OwnerId(2), 0);
    assert_eq!(load_action(&a), (r, lod::T(3), OwnerId(2), 1));
    let block = LoadedTerrain { ids: vec![terrain_loader::EntityId(1), terrain_loader::EntityId(2)] };
    let a = t.insert_block(&block, &r, lod::T(3), OwnerId(2));
    assert_eq!(a.len(), 3);
    assert!(matches!(a[0], Action::RemovePlaceholder(p) if p == r));
    assert!(matches!(a[1], Action::InsertTerrain(terrain_loader::EntityId(1))));
    assert!(matches!(a[2], Action::InsertTerrain(terrain_loader::EntityId(2))));
    // A block at another LOD is stale.
    let a = t.insert_block(&block, &r, lod::T(2), OwnerId(2));
    assert!(a.is_empty());
    // The full owner leaves: back to a placeholder.
    let a = t.unload(&r, OwnerId(2), 0);
    assert_eq!(a.len(), 3);
    assert!(matches!(a[0], Action::InsertPlaceholder(p) if p == r));
    assert!(matches!(a[1], Action::RemoveTerrain(terrain_loader::EntityId(1))));
    assert!(matches!(a[2], Action::RemoveTerrain(terrain_loader::EntityId(2))));
    let a = t.unload(&r, OwnerId(1), 0);
    assert_eq!(a.len(), 1);
    assert!(matches!(a[0], Action::RemovePlaceholder(p) if p == r));
}

#[test]
fn brush_touches_cells_meeting_box() {
    let mut t = terrain::T::new(0);
    let brush = Brush { min_x: 0, min_y: 0, min_z: 0, max_x: 8, max_y: 8, max_z: 8, lg_size: 3 };
    let changes = t.brush(&brush, field, |_b: bounds::T, _v: voxel::T| voxel::T::Volume(Material::Stone));
    assert_eq!(changes.len(), 1);
    assert_eq!(changes[0], (voxel::T::Volume(Material::Stone), bounds::new(0, 0, 0, 3)));
    let brush = Brush { min_x: 0, min_y: 0, min_z: 0, max_x: 8, max_y: 8, max_z: 8, lg_size: 1 };
    let changes = t.brush(&brush, field, |_b: bounds::T, _v: voxel::T| voxel::T::Volume(Material::Stone));
    assert_eq!(changes.len(), 64);
    // An untouched neighbor still loads from the field.
    let n = t.load(&bounds::new(1, -1, 0, 3), field);
    assert_eq!(n, voxel::T::Volume(Material::Terrain));
    assert_eq!(t.get(&bounds::new(0, 0, 0, 3)), Some(voxel::T::Volume(Material::Stone)));
}

#[test]
fn brush_box_off_grid() {
    let mut t = terrain::T::new(0);
    let brush = Brush { min_x: -1, min_y: 0, min_z: 7, max_x: 1, max_y: 1, max_z: 9, lg_size: 3 };
    let changes = t.brush(&brush, field, |_b: bounds::T, v: voxel::T| v);
    let cells: Vec<bounds::T> = changes.iter().map(|c| c.1).collect();
    assert_eq!(cells, vec![bounds::new(-1, 0, 0, 3), bounds::new(-1, 0, 1, 3), bounds::new(0, 0, 0, 3), bounds::new(0, 0, 1, 3)]);
}

#[test]
fn brush_over_cap_or_empty_does_nothing() {
    let mut t = terrain::T::new(0);
    let big = Brush { min_x: 0, min_y: 0, min_z: 0, max_x: 16, max_y: 16, max_z: 16, lg_size: 4 };
    assert!(t.brush(&big, field, |_b: bounds::T, v: voxel::T| v).is_empty());
    let flat = Brush { min_x: 5, min_y: 0, min_z: 0, max_x: 5, max_y: 8, max_z: 8, lg_size: 0 };
    assert!(t.brush(&flat, field, |_b: bounds::T, v: voxel::T| v).is_empty());
    assert!(t.voxels.is_empty());
}

#[test]
fn identity_brush_keeps_voxels() {
    let mut t = terrain::T::new(0);
    let b = bounds::new(0, -1, 0, 2);
    let before = t.load(&b, field);
    let brush = Brush { min_x: 0, min_y: -8, min_z: 0, max_x: 8, max_y: 0, max_z: 8, lg_size: 2 };
    t.brush(&brush, field, |_b: bounds::T, v: voxel::T| v);
    assert_eq!(t.get(&b), Some(before));
    assert_eq!(t.voxels.len(), 8);
}

#[test]
fn load_keeps_first_voxel() {
    let mut t = terrain::T::new(0);
    let b = bounds::new(2, 3, 4, 0);
    let v = t.load(&b, field);
    assert_eq!(v, voxel::T::Volume(Material::Empty));
    let again = t.load(&b, |_b: bounds::T| voxel::T::Volume(Material::Marble));
    assert_eq!(again, v);
}

#[test]
fn terrain_save_and_restore() {
    let mut t = terrain::T::new(0);
    for b in bounds::new(0, -1, 0, 3).refine(1) {
        t.load(&b, field);
    }
    let surface = voxel::T::Surface(voxel::SurfaceStruct {
        inner_vertex: voxel::Vertex { x: 1, y: 128, z: 255 },
        normal: voxel::Normal { x: -127, y: 0, z: 5 },
        material: Material::Bark,
    });
    t.load(&bounds::new(9, 9, 9, 0), |_b: bounds::T| surface);
    let bytes = t.encode().unwrap();
    let d = terrain::T::decode(&bytes).unwrap();
    assert_eq!(d.seed, 0);
    assert_eq!(d.voxels.len(), 9);
    for (b, v) in &t.voxels {
        assert_eq!(d.get(b), Some(*v));
    }
    assert_eq!(d.get(&bounds::new(9, 9, 9, 0)), Some(surface));
}

#[test]
fn terrain_decode_rejects_bad_bytes() {
    assert!(terrain::T::decode(&[0, 0, 0]).is_err());
    let mut t = terrain::T::new(3);
    t.load(&bounds::new(0, 0, 0, 0), field);
    let mut bytes = t.encode().unwrap();
    // Corrupt the voxel's tag.
    let last_tag = bytes.len() - 8;
    bytes[last_tag] = 7;
    assert!(terrain::T::decode(&bytes).is_err());
}

#[test]
fn terrain_decode_rejects_duplicate_keys() {
    let mut t = terrain::T::new(1);
    t.load(&bounds::new(0, 0, 0, 0), field);
    let one = t.encode().unwrap();
    let mut bytes = one.clone();
    bytes[4] = 2;
    bytes.extend_from_slice(&one[8..]);
    assert!(terrain::T::decode(&bytes).is_err());
}

#[test]
fn client_ids() {
    assert_eq!(ClientId::default(), ClientId(0));
    assert_eq!(ClientId(4).add(3), ClientId(7));
}

#[test]
fn loop_steps() {
    assert_eq!(quit_upon(true), closure_series::Action::Quit);
    assert_eq!(quit_upon(false), closure_series::Action::Continue);
    assert_eq!(consider_world_update(2), closure_series::Action::Restart);
    assert_eq!(consider_world_update(0), closure_series::Action::Continue);
    assert_eq!(network_listen(closure_series::Received::Terminating), closure_series::Action::Quit);
    assert_eq!(network_listen(closure_series::Received::Success), closure_series::Action::Restart);
    assert_eq!(network_listen(closure_series::Received::Empty), closure_series::Action::Continue);
    assert_eq!(consider_gaia_update(true), closure_series::Action::Restart);
    assert_eq!(consider_gaia_update(false), closure_series::Action::Continue);
}

#[test]
fn load_all_keeps_order_and_earlier_voxels() {
    let mut t = terrain::T::new(0);
    let kept = bounds::new(0, -1, 0, 0);
    t.load(&kept, |_b: bounds::T| voxel::T::Volume(Material::Marble));
    let bs = vec![bounds::new(0, 5, 0, 0), kept, bounds::new(0, 5, 0, 0)];
    let vs = t.load_all(&bs, field);
    assert_eq!(
        vs,
        vec![voxel::T::Volume(Material::Empty), voxel::T::Volume(Material::Marble), voxel::T::Volume(Material::Empty)]
    );
    assert_eq!(t.voxels.len(), 2);
}

#[test]
fn loader_level_change_drops_old_bodies() {
    let r = bp(2, 0, 0);
    let mut t = terrain_loader::T::new();
    t.load(&r, Level::Full(lod::T(2)), OwnerId(1), 0);
    t.load(&r, Level::Full(lod::T(0)), OwnerId(2), 0);
    let block = LoadedTerrain { ids: vec![terrain_loader::EntityId(8), terrain_loader::EntityId(9)] };
    let a = t.insert_block(&block, &r, lod::T(0), OwnerId(2));
    assert_eq!(a.len(), 2);
    let a = t.unload(&r, OwnerId(2), 5);
    assert_eq!(a.len(), 3);
    assert!(matches!(a[0], Action::RemoveTerrain(terrain_loader::EntityId(8))));
    assert!(matches!(a[1], Action::RemoveTerrain(terrain_loader::EntityId(9))));
    match &a[2] {
        Action::Load(g) => {
            assert_eq!((g.position, g.lod, g.owner, g.request_ns), (r, lod::T(2), OwnerId(1), 5));
        },
        _ => panic!("expected a load request"),
    }
    assert!(t.loaded.is_empty());
}

#[test]
fn loader_names_caller_as_owner() {
    let r = bp(0, 0, 3);
    let mut t = terrain_loader::T::new();
    t.load(&r, Level::Full(lod::T(3)), OwnerId(1), 0);
    t.load(&r, Level::Full(lod::T(1)), OwnerId(4), 0);
    t.load(&r, Level::Full(lod::T(1)), OwnerId(5), 0);
    // Owner 4 moves to a coarser level; owner 5 still holds LOD 1, so
    // nothing changes. Owner 1 then asks for the finest level itself.
    let a = t.load(&r, Level::Full(lod::T(3)), OwnerId(4), 0);
    assert!(a.is_empty());
    let a = t.load(&r, Level::Full(lod::T(0)), OwnerId(1), 0);
    assert_eq!(load_action(&a), (r, lod::T(0), OwnerId(1), 512));
}

#[test]
fn loader_absent_region_gets_placeholder() {
    let r = bp(-4, 0, 0);
    let mut t = terrain_loader::T::new();
    let a = t.load(&r, Level::Placeholder, OwnerId(3), 0);
    assert_eq!(a.len(), 1);
    assert!(matches!(a[0], Action::InsertPlaceholder(p) if p == r));
    assert_eq!(t.in_progress_terrain, vec![r]);
    assert!(t.load(&r, Level::Placeholder, OwnerId(4), 0).is_empty());
}

#[test]
fn loaded_blocks_replace_and_remove() {
    let r = bp(1, 1, 1);
    let mut b = LoadedBlocks::new();
    assert!(b.insert(r, vec![MeshId(1), MeshId(2)], lod::T(2)).is_empty());
    let u = b.insert(r, vec![MeshId(3)], lod::T(0));
    assert_eq!(u, vec![ViewUpdate::RemoveTerrain(MeshId(1)), ViewUpdate::RemoveTerrain(MeshId(2))]);
    let u = b.remove(r);
    assert_eq!(u, vec![ViewUpdate::RemoveTerrain(MeshId(3)), ViewUpdate::RemoveBlockData(r, lod::T(0))]);
    assert!(b.remove(r).is_empty());
    assert!(b.blocks.is_empty());
}

#[test]
fn surroundings_changes_are_distinct() {
    let mut s = SurroundingsLoader::new(9);
    s.update(bp(0, 0, 0));
    let changes = s.update(bp(2, 1, 0));
    for (i, c) in changes.iter().enumerate() {
        assert!(!changes[i + 1..].contains(c));
    }
}

#[test]
fn lod_map_get_lists_each_owner_once() {
    let r = bp(0, 0, 0);
    let mut m = LodMap::new();
    m.insert(r, Level::Full(lod::T(1)), OwnerId(1));
    m.insert(r, Level::Full(lod::T(2)), OwnerId(1));
    m.insert(r, Level::Full(lod::T(2)), OwnerId(2));
    let (_, all) = m.get(&r, OwnerId(1)).unwrap();
    assert_eq!(all.len(), 2);
    assert!(all.contains(&(OwnerId(1), Level::Full(lod::T(2)))));
}
