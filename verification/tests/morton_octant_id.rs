//! Identifier algebra: encoding round trips, neighbors, parents.

use sparse_octree::morton_based_storage::morton_octant_id::{
    children_ids_from_parent_id, depth_from_morton_code, max_axis_for_depth,
    parent_of_morton_code, MortonOctantId,
};
use sparse_octree::octant_meta::{OctantNeighborDirection, OctantPlacement};
use sparse_octree::Depth;

#[test]
fn test_morton_encoding_decoding() {
    const TEST_DEPTH: Depth = 8;
    const TEST_MAX_AXIS: u16 = 0x01 << TEST_DEPTH;
    for x in 0..TEST_MAX_AXIS {
        for y in 0..TEST_MAX_AXIS {
            for z in 0..TEST_MAX_AXIS {
                let octant_id = MortonOctantId::from_xyz(x, y, z, TEST_DEPTH).unwrap();
                assert_eq!([x, y, z], octant_id.xyz());
            }
        }
    }
}

#[test]
fn test_morton_encoding_decoding_diagonal_max_depth() {
    const TEST_MAX_AXIS: u16 = ((0x01u32 << MortonOctantId::MAX_DEPTH) - 1) as u16;
    for axis in 0..=TEST_MAX_AXIS {
        let octant_id =
            MortonOctantId::from_xyz_array([axis, axis, axis], MortonOctantId::MAX_DEPTH).unwrap();
        assert_eq!([axis, axis, axis], octant_id.xyz());
    }
}

fn check_corner_neighbors(some_octant_id: MortonOctantId) {
    let parent_of_some_octant_id: MortonOctantId = some_octant_id.parent_id();
    let placement_of_some_octant_id: OctantPlacement =
        parent_of_some_octant_id.has_child(&some_octant_id).unwrap();
    for (maybe_neighbor, neighbor_direction) in some_octant_id.get_all_neighbors() {
        let neighbor_id = match maybe_neighbor {
            Ok(id) => id,
            Err(_) => continue,
        };
        let neighbor_placement = parent_of_some_octant_id.has_child(&neighbor_id).unwrap();
        let maybe_valid_neighbor = OctantPlacement::all_neighbors_for(placement_of_some_octant_id)
            .into_iter()
            .find(|&(octant_direction, octant_placement)| {
                octant_direction == neighbor_direction && octant_placement == neighbor_placement
            });
        if maybe_valid_neighbor.is_none() {
            panic!(
                "neighbor_id: {:?}, neighbor_placement: {:?}, neighbor_direction: {:?}",
                neighbor_id, neighbor_placement, neighbor_direction
            );
        }
    }
}

#[test]
fn test_morton_id_nearest_neighbor_at_edges() {
    const TEST_DEPTH: Depth = 16;
    // [0,0,0]
    {
        let some_octant_id: MortonOctantId =
            MortonOctantId::from_xyz_array([0u16, 0u16, 0u16], TEST_DEPTH).unwrap();
        check_corner_neighbors(some_octant_id);
    }
    // [1,1,1]
    {
        let max_xyz = MortonOctantId::from_xyz(0, 0, 0, TEST_DEPTH).unwrap().max_xyz_value();
        let some_octant_id: MortonOctantId =
            MortonOctantId::from_xyz_array([max_xyz, max_xyz, max_xyz], TEST_DEPTH).unwrap();
        check_corner_neighbors(some_octant_id);
    }
}

#[test]
fn test_neighbor_all_directions() {
    const TEST_DEPTH: Depth = 16;
    let max_xyz = MortonOctantId::from_xyz(0, 0, 0, TEST_DEPTH).unwrap().max_xyz_value();
    let mid_xyz = max_xyz / 2;

    let middle_octant = MortonOctantId::from_xyz(mid_xyz, mid_xyz, mid_xyz, TEST_DEPTH).unwrap();
    for (neighbor_result, _neighbor_direction) in middle_octant.get_all_neighbors() {
        if neighbor_result.is_err() {
            let error = neighbor_result.unwrap_err();
            panic!("{:?}", error);
        }
    }
}

fn visit_octant_and_compare_parent_recursively(
    parent_id: MortonOctantId,
    depth: Depth,
    max_depth: Depth,
) {
    let computed_depth: Depth = parent_id.compute_depth();
    assert_eq!(depth, computed_depth);
    if computed_depth > max_depth {
        return;
    }
    for child_id in parent_id.children_ids() {
        assert_eq!(parent_id, child_id.parent_id());
        visit_octant_and_compare_parent_recursively(child_id, depth + 1, max_depth);
    }
}

#[test]
fn morton_octant_id_test_morton_depth_parents_children() {
    let root_id: MortonOctantId = MortonOctantId::root_octant_id();
    visit_octant_and_compare_parent_recursively(root_id, 0, 8);
}

#[test]
fn test_sides() {
    for morton_code in 0..=7u64 {
        let a = OctantPlacement::try_from_index(morton_code as usize).unwrap();
        let [x, y, z]: [u16; 3] = morton_encoding::morton_decode(morton_code);
        println!("{} = [{}, {}, {}]", morton_code, x, y, z);
        let _ = a;
    }
}

#[test]
fn neighbor_out_of_bounds_names_axis() {
    let origin = MortonOctantId::from_xyz(0, 0, 0, 4).unwrap();
    let err = origin.get_neighbor(OctantNeighborDirection::W).unwrap_err();
    assert!(err.is_x_below_limit());
    assert!(!err.is_x_above_limit());
    assert!(!err.is_y_below_limit());
    assert!(!err.is_z_below_limit());

    let max = origin.max_xyz_value();
    assert_eq!(max, 15);
    let corner = MortonOctantId::from_xyz(max, max, max, 4).unwrap();
    let err = corner.get_neighbor(OctantNeighborDirection::UNE).unwrap_err();
    assert!(err.is_x_above_limit());
    assert!(err.is_y_above_limit());
    assert!(err.is_z_above_limit());
    assert!(!err.is_x_below_limit());
}

#[test]
fn from_xyz_rejects_out_of_grid() {
    assert!(MortonOctantId::from_xyz(4, 0, 0, 2).is_err());
    assert!(MortonOctantId::from_xyz(3, 3, 3, 2).is_ok());
    assert!(MortonOctantId::from_xyz(0, 0, 0, 17).is_err());
}

#[test]
fn known_codes_round_trip() {
    // depth 1: each child of the root is the code 8 + digit
    let id = MortonOctantId::from_xyz(1, 0, 0, 1).unwrap();
    assert_eq!(id.as_morton(), 8 | 4);
    let id = MortonOctantId::from_xyz(0, 1, 0, 1).unwrap();
    assert_eq!(id.as_morton(), 8 | 2);
    let id = MortonOctantId::from_xyz(0, 0, 1, 1).unwrap();
    assert_eq!(id.as_morton(), 8 | 1);
    // a mixed triple at depth 2
    let id = MortonOctantId::from_xyz(2, 1, 3, 2).unwrap();
    assert_eq!(id.compute_depth(), 2);
    assert_eq!(id.xyz(), [2, 1, 3]);
    assert_eq!(id.parent_id().compute_depth(), 1);
}

#[test]
fn ancestor_ids_walk_to_root() {
    let id = MortonOctantId::from_xyz(3, 2, 1, 3).unwrap();
    let ancestors = id.ancestor_ids();
    assert_eq!(ancestors.len(), 3);
    assert_eq!(ancestors[0], id.parent_id());
    assert_eq!(ancestors[1], id.parent_id().parent_id());
    assert_eq!(ancestors[2], MortonOctantId::root_octant_id());
}

#[test]
fn free_code_helpers_match_methods() {
    let id = MortonOctantId::from_xyz(5, 6, 7, 3).unwrap();
    assert_eq!(parent_of_morton_code(id.as_morton()), id.parent_id().as_morton());
    assert_eq!(depth_from_morton_code(id.as_morton()), 3);
    assert_eq!(max_axis_for_depth(3), 8);
    let children = children_ids_from_parent_id(id.as_morton());
    for (i, child) in children.iter().enumerate() {
        assert_eq!(child.as_morton(), id.as_morton() * 8 + i as u64);
    }
}
