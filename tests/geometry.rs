use playform::block_position::{self, lod_index};
use playform::bounds;
use playform::cube_shell::{cube, cube_diff};
use playform::edge::{self, Direction, Point3};
use playform::lod;
use playform::voxel;

fn bp(x: i32, y: i32, z: i32) -> block_position::T {
    block_position::T { x, y, z }
}

#[test]
fn lod_index_thresholds() {
    assert_eq!(lod_index(0), lod::T(0));
    assert_eq!(lod_index(1), lod::T(0));
    assert_eq!(lod_index(2), lod::T(1));
    assert_eq!(lod_index(4), lod::T(1));
    assert_eq!(lod_index(5), lod::T(2));
    assert_eq!(lod_index(8), lod::T(2));
    assert_eq!(lod_index(9), lod::T(3));
    assert_eq!(lod_index(1000), lod::T(3));
}

#[test]
fn desired_lod_uses_chebyshev_distance() {
    assert_eq!(bp(3, -1, 0).desired_lod(&bp(0, 0, 0)), lod::T(1));
    assert_eq!(bp(0, 0, 9).desired_lod(&bp(0, 0, 0)), lod::T(3));
    assert_eq!(bp(i32::MAX, 0, 0).desired_lod(&bp(i32::MIN, 0, 0)), lod::T(3));
}

#[test]
fn containing_block_rounds_down() {
    assert_eq!(block_position::containing(&bounds::new(9, -1, 0, 0)), bp(1, -1, 0));
    assert_eq!(block_position::containing(&bounds::new(-3, 2, 1, 2)), bp(-2, 1, 0));
    assert_eq!(block_position::containing(&bounds::new(-3, 2, 1, 3)), bp(-3, 2, 1));
}

#[test]
fn coarsen_shifts_right() {
    assert_eq!(bounds::new(3, 3, 3, 0).coarsen(1), bounds::new(1, 1, 1, 1));
    assert_eq!(bounds::new(-1, -2, -3, 0).coarsen(1), bounds::new(-1, -1, -2, 1));
    assert_eq!(bounds::new(-1, 5, 0, 0).coarsen(40), bounds::new(-1, 0, 0, 40));
}

#[test]
fn refine_lists_children_x_major() {
    let c = bounds::new(1, 0, -1, 1).refine(1);
    assert_eq!(c.len(), 8);
    assert_eq!(c[0], bounds::new(2, 0, -2, 0));
    assert_eq!(c[1], bounds::new(2, 0, -1, 0));
    assert_eq!(c[2], bounds::new(2, 1, -2, 0));
    assert_eq!(c[7], bounds::new(3, 1, -1, 0));
    for child in &c {
        assert_eq!(child.coarsen(1), bounds::new(1, 0, -1, 1));
    }
}

#[test]
fn coarsen_then_refine_holds_original() {
    let b = bounds::new(-5, 6, 7, 0);
    let parent = b.coarsen(2);
    let children = parent.refine(2);
    assert_eq!(children.len(), 64);
    assert!(children.contains(&b));
    assert!(children.iter().all(|c| c.coarsen(2) == parent));
}

#[test]
fn voxel_correct_lod_far_player_coarsens() {
    let r = voxel::correct_lod(&bounds::new(5, 0, 0, 0), &bp(100, 0, 0));
    assert_eq!(r, vec![bounds::new(0, 0, 0, 3)]);
}

#[test]
fn voxel_correct_lod_near_player_refines() {
    let r = voxel::correct_lod(&bounds::new(0, 0, 0, 3), &bp(0, 0, 0));
    assert_eq!(r.len(), 512);
    assert_eq!(r[0], bounds::new(0, 0, 0, 0));
    assert_eq!(r[511], bounds::new(7, 7, 7, 0));
}

#[test]
fn voxel_correct_lod_keeps_matching_size() {
    let r = voxel::correct_lod(&bounds::new(4, 0, 0, 1), &bp(3, 0, 0));
    assert_eq!(r, vec![bounds::new(4, 0, 0, 1)]);
}

#[test]
fn perpendicular_axes() {
    assert_eq!(Direction::X.perpendicular(), (Direction::Y, Direction::Z));
    assert_eq!(Direction::Y.perpendicular(), (Direction::Z, Direction::X));
    assert_eq!(Direction::Z.perpendicular(), (Direction::X, Direction::Y));
    assert_eq!(Direction::Y.to_vec(), (0, 1, 0));
}

#[test]
fn edge_neighbors() {
    let e = edge::T { low_corner: Point3 { x: 1, y: 2, z: 3 }, lg_size: 0, direction: Direction::X };
    let n = e.neighbors();
    assert_eq!(n[0], bounds::new(1, 2, 3, 0));
    assert_eq!(n[1], bounds::new(1, 1, 3, 0));
    assert_eq!(n[2], bounds::new(1, 1, 2, 0));
    assert_eq!(n[3], bounds::new(1, 2, 2, 0));
}

#[test]
fn edge_split_and_merge() {
    let e = edge::T { low_corner: Point3 { x: 1, y: 2, z: 3 }, lg_size: 2, direction: Direction::Z };
    let pieces = e.split_by(2);
    assert_eq!(pieces.len(), 4);
    for (i, p) in pieces.iter().enumerate() {
        assert_eq!(p.low_corner, Point3 { x: 4, y: 8, z: 12 + i as i32 });
        assert_eq!(p.lg_size, 0);
        assert_eq!(p.merge(2), e);
    }
}

#[test]
fn edge_correct_lod_far_player_merges() {
    let e = edge::T { low_corner: Point3 { x: 9, y: 0, z: 0 }, lg_size: 0, direction: Direction::Y };
    let r = e.correct_lod(&bp(100, 0, 0));
    assert_eq!(r, vec![edge::T { low_corner: Point3 { x: 1, y: 0, z: 0 }, lg_size: 3, direction: Direction::Y }]);
}

#[test]
fn edge_correct_lod_takes_finest_neighbor() {
    // The edge sits on the corner of block (0, 0, 0); its neighbors reach
    // block (-1, -1, 0), next to the player, so the finest LOD wins.
    let e = edge::T { low_corner: Point3 { x: 0, y: 0, z: 0 }, lg_size: 1, direction: Direction::Z };
    let r = e.correct_lod(&bp(-1, -1, 0));
    assert_eq!(r.len(), 2);
    assert_eq!(r[0].low_corner, Point3 { x: 0, y: 0, z: 0 });
    assert_eq!(r[1].low_corner, Point3 { x: 0, y: 0, z: 1 });
    assert_eq!(r[0].lg_size, 0);
}

#[test]
fn cube_diff_shell_one() {
    let d = cube_diff(&bp(0, 0, 0), &bp(1, 0, 0), 1);
    assert_eq!(d.len(), 9);
    assert!(d.iter().all(|p| p.x == -1 && (-1..=1).contains(&p.y) && (-1..=1).contains(&p.z)));
    let e = cube_diff(&bp(1, 0, 0), &bp(0, 0, 0), 1);
    assert_eq!(e.len(), 9);
    assert!(e.iter().all(|p| p.x == 2));
}

#[test]
fn cube_diff_disjoint_cubes_complement() {
    let a = bp(0, 0, 0);
    let b = bp(5, 0, 0);
    let ab = cube_diff(&a, &b, 1);
    let ba = cube_diff(&b, &a, 1);
    assert_eq!(ab.len(), 27);
    assert_eq!(ba.len(), 27);
    assert!(ab.iter().all(|p| !ba.contains(p)));
    let mut all = cube(&a, 1);
    all.extend(cube(&b, 1));
    assert!(all.iter().all(|p| ab.contains(p) != ba.contains(p)));
}

#[test]
fn cube_diff_same_center_is_empty() {
    assert!(cube_diff(&bp(3, 3, 3), &bp(3, 3, 3), 4).is_empty());
    assert_eq!(cube(&bp(0, 0, 0), 0), vec![bp(0, 0, 0)]);
}

#[test]
fn voxel_correct_lod_far_coordinates_coarsen() {
    let r = voxel::correct_lod(&bounds::new(i32::MAX, i32::MIN, 0, 0), &bp(0, 0, 0));
    assert_eq!(r, vec![bounds::new(i32::MAX >> 3, i32::MIN >> 3, 0, 3)]);
}

#[test]
fn refine_is_sorted() {
    let c = bounds::new(-2, 3, 0, 2).refine(2);
    for w in c.windows(2) {
        assert!((w[0].x, w[0].y, w[0].z) < (w[1].x, w[1].y, w[1].z));
    }
}
