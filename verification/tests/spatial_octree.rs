//! The spatial wrapper: regions follow the identifier path.

use sparse_octree::morton_based_storage::morton_octant_id::MortonOctantId;
use sparse_octree::octant_meta::OctantPlacement;
use sparse_octree::octant_storage_trait::ModifiableOctantStorage;
use sparse_octree::voxel_trait::Voxel;
use sparse_octree::SpatialSparseOctreeHashed;

/// An integer axis-aligned cube on a power-of-two grid: origin corner and
/// side length.  Subdividing halves the side and shifts the origin by the
/// placement's axis bits.
#[derive(Debug, Clone, Copy, PartialEq, Eq)]
struct GridVoxel {
    x: u32,
    y: u32,
    z: u32,
    side: u32,
}

impl Voxel for GridVoxel {
    fn make_sub_voxel(&self, sub_voxel_placement: OctantPlacement) -> Self {
        let half = self.side / 2;
        let digit = sub_voxel_placement.index() as u32;
        GridVoxel {
            x: self.x + if digit & 4 != 0 { half } else { 0 },
            y: self.y + if digit & 2 != 0 { half } else { 0 },
            z: self.z + if digit & 1 != 0 { half } else { 0 },
            side: half,
        }
    }

    fn subdivide_voxel(&self) -> [Self; 8] {
        let ordered = OctantPlacement::octants_ordered();
        [
            self.make_sub_voxel(ordered[0]),
            self.make_sub_voxel(ordered[1]),
            self.make_sub_voxel(ordered[2]),
            self.make_sub_voxel(ordered[3]),
            self.make_sub_voxel(ordered[4]),
            self.make_sub_voxel(ordered[5]),
            self.make_sub_voxel(ordered[6]),
            self.make_sub_voxel(ordered[7]),
        ]
    }
}

#[test]
fn voxel_lookup_follows_the_identifier_path() {
    let root_voxel = GridVoxel { x: 0, y: 0, z: 0, side: 16 };
    let mut octree: SpatialSparseOctreeHashed<u32, GridVoxel> =
        SpatialSparseOctreeHashed::new_with_root(root_voxel, 0);
    let root = octree.get_root_id();
    assert_eq!(octree.get_voxel_by_id(&root), Some(root_voxel));

    // grow three levels along one path and check each region
    let children = octree.octants_mut().subdivide(&root, vec![0, 1, 2, 3, 4, 5, 6, 7]).unwrap();
    let grand = octree
        .octants_mut()
        .subdivide(&children[5], vec![0, 1, 2, 3, 4, 5, 6, 7])
        .unwrap();

    // placement 5 has bits x=1, y=0, z=1: origin (8, 0, 8), side 8
    assert_eq!(
        octree.get_voxel_by_id(&children[5]),
        Some(GridVoxel { x: 8, y: 0, z: 8, side: 8 })
    );
    // its child at placement 2 has bits x=0, y=1, z=0: origin (8, 4, 8)
    assert_eq!(
        octree.get_voxel_by_id(&grand[2]),
        Some(GridVoxel { x: 8, y: 4, z: 8, side: 4 })
    );

    // the region agrees with the identifier's own coordinates
    let id = grand[2];
    let [x, y, z] = id.xyz();
    let depth = id.compute_depth();
    let cell = root_voxel.side >> depth;
    assert_eq!(
        octree.get_voxel_by_id(&id),
        Some(GridVoxel { x: x as u32 * cell, y: y as u32 * cell, z: z as u32 * cell, side: cell })
    );

    // an absent identifier has no region
    let ghost_node = MortonOctantId::from_xyz(1, 1, 1, 4).unwrap();
    assert_eq!(octree.get_voxel_by_id(&ghost_node), None);
}
