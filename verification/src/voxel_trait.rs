//! The geometry capability the engine consumes but never implements:
//! producing a child's region from a parent's region and a placement.

use vstd::prelude::*;

use crate::morton_based_storage::morton_octant_id::MortonOctantId;
use crate::octant_meta::OctantPlacement;
use crate::octant_storage_trait::OctantStorage;

verus! {

/// How two regions of space relate.
#[derive(Clone, Copy, Debug, PartialEq, Eq, Structural)]
pub enum SpatialRelation {
    /// The regions share no space.
    Separate,
    /// The regions overlap without either containing the other.
    Intersecting,
    /// One region lies fully inside the other.
    Contained,
}

/// A region of space that can produce the sub-region a child placement
/// occupies.  Implementations supply the geometry; the engine only ever
/// asks for sub-regions.
pub trait Voxel: Sized + Copy {
    /// The sub-region the child at `sub_voxel_placement` occupies.
    fn make_sub_voxel(&self, sub_voxel_placement: OctantPlacement) -> Self;

    /// All eight sub-regions.
    fn subdivide_voxel(&self) -> [Self; 8];
}


/// One refinement step: descend into the region the node's own Morton
/// digit names; the root refines nothing.
fn refine_step<Volumetric: Voxel>(voxel: Volumetric, step: MortonOctantId) -> Volumetric {
    if step.0 <= 1 {
        return voxel;
    }
    let digit = (step.0 % 8) as usize;
    match OctantPlacement::try_from_index(digit) {
        Some(placement) => voxel.make_sub_voxel(placement),
        None => voxel,
    }
}

/// The region an existing octant occupies: the root region refined one
/// placement at a time along the octant's path from the root.  `None`
/// iff the identifier does not exist in the storage.
pub fn compute_voxel_by_id<S: OctantStorage, Volumetric: Voxel>(
    storage: &S,
    octant_id: &MortonOctantId,
    root_voxel: &Volumetric,
) -> (r: Option<Volumetric>)
    requires
        storage.inv(),
    ensures
        r is Some <==> storage.contents().dom().contains(*octant_id),
{
    if storage.get_octant(octant_id).is_none() {
        return None;
    }
    let ancestors = octant_id.ancestor_ids();
    let mut voxel = *root_voxel;
    let mut i: usize = ancestors.len();
    while i > 0
        invariant
            i <= ancestors@.len(),
        decreases i,
    {
        i = i - 1;
        let step = ancestors[i];
        voxel = refine_step(voxel, step);
    }
    Some(refine_step(voxel, *octant_id))
}

} // verus!
