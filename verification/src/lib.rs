//! A sparse voxel octree built on Morton-coded structural identifiers.
//!
//! Every octant is named by a single `u64` that encodes both its depth and
//! the path of child placements from the root, so parent/child/neighbor
//! relations are pure arithmetic on the identifier.  Storage backends map
//! identifiers to caller-supplied payloads; generic traversal engines
//! (guided descent, depth-first, breadth-first, drill, conditional
//! subdivision) work over any backend that meets the storage contract.

pub mod morton_based_storage;
pub mod octant_meta;
pub mod octant_storage_trait;
pub mod octree_base;
pub mod spatial_octree_base;
pub mod voxel_trait;

use vstd::prelude::*;

verus! {

/// Number of subdivision levels below the root; each level adds three bits
/// to an octant identifier.
pub type Depth = u8;

/// A sparse octree over the hash-map backed reference storage.
pub type SparseOctreeHashed<CustomData> = octree_base::OctreeBase<
    morton_based_storage::hashed_octant_storage::HashedOctantStorage<CustomData>,
>;

/// The default sparse octree.
pub type SparseOctree<CustomData> = SparseOctreeHashed<CustomData>;

/// A sparse octree over the hash-map backed storage, paired with the
/// region its root covers.
pub type SpatialSparseOctreeHashed<CustomData, Volumetric> =
    spatial_octree_base::SpatialOctreeBase<
    morton_based_storage::hashed_octant_storage::HashedOctantStorage<CustomData>,
    Volumetric,
>;

/// The default spatial sparse octree.
pub type SpatialSparseOctree<CustomData, Volumetric> = SpatialSparseOctreeHashed<
    CustomData,
    Volumetric,
>;

} // verus!
