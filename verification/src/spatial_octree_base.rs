//! A sparse octree paired with the region its root octant occupies.
//!
//! The tree itself is the verified core; the root region is any `Voxel`
//! implementation, and every octant's region follows from refining the
//! root region along the octant's path.  Traversals run on the embedded
//! base tree; `get_voxel_by_id` attaches spatial meaning to their
//! results.

use vstd::prelude::*;

use crate::morton_based_storage::morton_octant_id::MortonOctantId;
use crate::octant_storage_trait::{
    subtree_of, ModifiableOctantStorage, OctantStorage, StorageError, StorageResult,
};
use crate::octree_base::{
    all_continue, bfs_order_spec, break_only_last, continue_prefix, flow_result_of, breadth_first_search_from_storage,
    breadth_first_search_from_storage_mut, depth_first_search_from_storage,
    depth_first_search_from_storage_mut, dfs_order_spec, drill_added_on_chain, drill_from_storage,
    drill_log_ok, drill_stop_result, full_slots, subdivision_break_only_last, subdivision_from_earlier,
    subdivision_result_of, subdivision_visits_ok, DrillVisit, SubdivisionVisit,
    guide_step_ok, guided_search_from_storage, guided_search_from_storage_mut, visit_ids,
    visit_levels, visits_ok, subdivide_if_from_storage, subdivide_if_some_from_storage,
    DrillGuide, GuideVisit, OctantIdTypeInfo, OctreeBase, SearchControlFlow,
    SearchControlFlowResult, SearchGuide, SearchGuideMut, SearchVisit, SearchVisitor,
    SearchVisitorMut, SubdivisionMaybePredicate, SubdivisionPredicate,
};
use crate::voxel_trait::{compute_voxel_by_id, Voxel};

verus! {

/// A sparse octree whose root octant covers a region of space.
pub struct SpatialOctreeBase<Storage, Volumetric> {
    /// The tree and its traversal engine.
    pub base: OctreeBase<Storage>,
    /// The region the root octant covers.
    pub root_voxel: Volumetric,
}

impl<Storage: OctantStorage, Volumetric: Voxel> OctantIdTypeInfo for SpatialOctreeBase<
    Storage,
    Volumetric,
> {
    type OctantId = MortonOctantId;
}

impl<Storage: OctantStorage, Volumetric: Voxel> SpatialOctreeBase<Storage, Volumetric> {
    /// The region the root octant covers.
    pub open spec fn root_voxel_spec(&self) -> Volumetric {
        self.root_voxel
    }

    /// Pair an existing tree with the region its root covers.
    pub fn new_with_base(root_voxel: Volumetric, base: OctreeBase<Storage>) -> (r: Self)
        ensures
            r.base == base,
            r.root_voxel_spec() == root_voxel,
    {
        SpatialOctreeBase { base, root_voxel }
    }

    /// The storage backend holding the octants.
    pub fn octants(&self) -> (r: &Storage)
        ensures
            *r == self.base.octants,
    {
        &self.base.octants
    }

    /// Mutable access to the storage backend.
    pub fn octants_mut<'a>(&'a mut self) -> (r: &'a mut Storage)
        ensures
            *r == old(self).base.octants,
            final(self).base.octants == *final(r),
            final(self).root_voxel_spec() == old(self).root_voxel_spec(),
    {
        &mut self.base.octants
    }

    /// The fixed identifier of the root octant.
    pub fn get_root_id(&self) -> (r: MortonOctantId)
        ensures
            r == MortonOctantId(1u64),
    {
        self.base.octants.get_root_id()
    }

    /// The region the root octant covers.
    pub fn get_root_voxel(&self) -> (r: &Volumetric)
        ensures
            *r == self.root_voxel_spec(),
    {
        &self.root_voxel
    }

    /// The region an existing octant occupies; `None` iff the identifier
    /// does not exist.
    pub fn get_voxel_by_id(&self, octant_id: &MortonOctantId) -> (r: Option<Volumetric>)
        requires
            self.base.octants.inv(),
        ensures
            r is Some <==> self.base.octants.contents().dom().contains(*octant_id),
    {
        compute_voxel_by_id(&self.base.octants, octant_id, &self.root_voxel)
    }
}

impl<Storage: OctantStorage, Volumetric: Voxel> SpatialOctreeBase<Storage, Volumetric> {
    /// Delegates to the base tree's engine; see the matching
    /// `OctreeBase` method.
    pub fn guided_search<G: SearchGuide>(
        &self,
        octant_id: &MortonOctantId,
        guide_func: &mut G,
    ) -> (r: (StorageResult<MortonOctantId>, Ghost<Seq<GuideVisit>>))
        requires
            self.base.octants.inv(),
        ensures
        ({
            let res = r.0;
            let log = r.1@;
            &&& !self.base.octants.contents().dom().contains(*octant_id) <==> res == Err::<
                MortonOctantId,
                StorageError,
            >(StorageError::InvalidOctantId)
            &&& !self.base.octants.contents().dom().contains(*octant_id) ==> log.len() == 0
            &&& self.base.octants.contents().dom().contains(*octant_id) ==> res is Ok && log.len() >= 1
                && log[0].1 == *octant_id && log[0].0 as nat == octant_id.depth_spec()
            &&& (forall|t: int|
                0 <= t < log.len() ==> {
                    let v = #[trigger] log[t];
                    &&& self.base.octants.contents().dom().contains(v.1)
                    &&& subtree_of(*octant_id).contains(v.1)
                    &&& v.0 as nat == v.1.depth_spec()
                })
            &&& (forall|t: int|
                0 <= t < log.len() - 1 ==> guide_step_ok(
                    self.base.octants.contents(),
                    #[trigger] log[t],
                    log[t + 1],
                ))
            &&& (res matches Ok(found) ==> found == log.last().1 && match log.last().2 {
                Some(p) => !self.base.octants.contents().dom().contains(
                    crate::octant_storage_trait::child_of(log.last().1, p.index_spec()),
                ),
                None => true,
            })
        }),    {
        guided_search_from_storage(&self.base.octants, octant_id, guide_func)
    }

    /// Delegates to the base tree's engine; see the matching
    /// `OctreeBase` method.
    pub fn guided_search_from_root<G: SearchGuide>(&self, guide_func: &mut G) -> (r: (
        StorageResult<MortonOctantId>,
        Ghost<Seq<GuideVisit>>,
    ))
        requires
            self.base.octants.inv(),
        ensures
        ({
            let res = r.0;
            let log = r.1@;
            &&& !self.base.octants.contents().dom().contains(MortonOctantId(1u64)) <==> res == Err::<
                MortonOctantId,
                StorageError,
            >(StorageError::InvalidOctantId)
            &&& !self.base.octants.contents().dom().contains(MortonOctantId(1u64)) ==> log.len() == 0
            &&& self.base.octants.contents().dom().contains(MortonOctantId(1u64)) ==> res is Ok && log.len() >= 1
                && log[0].1 == MortonOctantId(1u64) && log[0].0 as nat == MortonOctantId(1u64).depth_spec()
            &&& (forall|t: int|
                0 <= t < log.len() ==> {
                    let v = #[trigger] log[t];
                    &&& self.base.octants.contents().dom().contains(v.1)
                    &&& subtree_of(MortonOctantId(1u64)).contains(v.1)
                    &&& v.0 as nat == v.1.depth_spec()
                })
            &&& (forall|t: int|
                0 <= t < log.len() - 1 ==> guide_step_ok(
                    self.base.octants.contents(),
                    #[trigger] log[t],
                    log[t + 1],
                ))
            &&& (res matches Ok(found) ==> found == log.last().1 && match log.last().2 {
                Some(p) => !self.base.octants.contents().dom().contains(
                    crate::octant_storage_trait::child_of(log.last().1, p.index_spec()),
                ),
                None => true,
            })
        }),    {
        let root_id = self.base.octants.get_root_id();
        guided_search_from_storage(&self.base.octants, &root_id, guide_func)
    }

    /// Delegates to the base tree's engine; see the matching
    /// `OctreeBase` method.
    pub fn depth_first_search<V: SearchVisitor>(
        &self,
        octant_id: &MortonOctantId,
        search_func: &mut V,
    ) -> (r: (StorageResult<SearchControlFlowResult<MortonOctantId>>, Ghost<Seq<SearchVisit>>))
        requires
            self.base.octants.inv(),
        ensures
        ({
            let res = r.0;
            let log = r.1@;
            &&& !self.base.octants.contents().dom().contains(*octant_id) <==> res == Err::<
                SearchControlFlowResult<MortonOctantId>,
                StorageError,
            >(StorageError::InvalidOctantId)
            &&& !self.base.octants.contents().dom().contains(*octant_id) ==> log.len() == 0
            &&& self.base.octants.contents().dom().contains(*octant_id) ==> log.len() >= 1 && log[0].0
                as nat == octant_id.depth_spec() && log[0].1 == *octant_id
            &&& visits_ok(self.base.octants.contents(), *octant_id, log)
            &&& break_only_last(log)
            &&& (res matches Ok(flow) ==> self.base.octants.contents().dom().contains(flow.carried_id())
                && subtree_of(*octant_id).contains(flow.carried_id()))
            &&& (res matches Ok(flow) ==> log.len() > 0 && res == Ok::<
                SearchControlFlowResult<MortonOctantId>,
                StorageError,
            >(flow_result_of(log.last())))
            &&& (log.len() > 0 && log.last().2 == SearchControlFlow::Break ==> res == Ok::<
                SearchControlFlowResult<MortonOctantId>,
                StorageError,
            >(SearchControlFlowResult::Break(log.last().1)))
            &&& (res matches Ok(SearchControlFlowResult::Break(b)) ==> log.len() > 0
                && log.last().2 == SearchControlFlow::Break && b == log.last().1)
            &&& (self.base.octants.contents().dom().contains(*octant_id) && res is Err ==> res == Err::<
                SearchControlFlowResult<MortonOctantId>,
                StorageError,
            >(StorageError::OverMaxDepth(Storage::max_depth_spec() as u8)) && log.last().2
                == SearchControlFlow::Continue)
            &&& (self.base.octants.contents().dom().contains(*octant_id) && all_continue(log) && res is Ok
                ==> visit_ids(log) == dfs_order_spec(
                self.base.octants.contents(),
                *octant_id,
                (17 - octant_id.depth_spec()) as nat,
            ))
            &&& (self.base.octants.contents().dom().contains(*octant_id) && continue_prefix(log)
                ==> log.len() <= dfs_order_spec(
                self.base.octants.contents(),
                *octant_id,
                (17 - octant_id.depth_spec()) as nat,
            ).len() && visit_ids(log) == dfs_order_spec(
                self.base.octants.contents(),
                *octant_id,
                (17 - octant_id.depth_spec()) as nat,
            ).take(log.len() as int))
        }),    {
        depth_first_search_from_storage(&self.base.octants, octant_id, search_func)
    }

    /// Delegates to the base tree's engine; see the matching
    /// `OctreeBase` method.
    pub fn depth_first_search_from_root<V: SearchVisitor>(&self, search_func: &mut V) -> (r: (
        StorageResult<SearchControlFlowResult<MortonOctantId>>,
        Ghost<Seq<SearchVisit>>,
    ))
        requires
            self.base.octants.inv(),
        ensures
        ({
            let res = r.0;
            let log = r.1@;
            &&& !self.base.octants.contents().dom().contains(MortonOctantId(1u64)) <==> res == Err::<
                SearchControlFlowResult<MortonOctantId>,
                StorageError,
            >(StorageError::InvalidOctantId)
            &&& !self.base.octants.contents().dom().contains(MortonOctantId(1u64)) ==> log.len() == 0
            &&& self.base.octants.contents().dom().contains(MortonOctantId(1u64)) ==> log.len() >= 1 && log[0].0
                as nat == MortonOctantId(1u64).depth_spec() && log[0].1 == MortonOctantId(1u64)
            &&& visits_ok(self.base.octants.contents(), MortonOctantId(1u64), log)
            &&& break_only_last(log)
            &&& (res matches Ok(flow) ==> self.base.octants.contents().dom().contains(flow.carried_id())
                && subtree_of(MortonOctantId(1u64)).contains(flow.carried_id()))
            &&& (res matches Ok(flow) ==> log.len() > 0 && res == Ok::<
                SearchControlFlowResult<MortonOctantId>,
                StorageError,
            >(flow_result_of(log.last())))
            &&& (log.len() > 0 && log.last().2 == SearchControlFlow::Break ==> res == Ok::<
                SearchControlFlowResult<MortonOctantId>,
                StorageError,
            >(SearchControlFlowResult::Break(log.last().1)))
            &&& (res matches Ok(SearchControlFlowResult::Break(b)) ==> log.len() > 0
                && log.last().2 == SearchControlFlow::Break && b == log.last().1)
            &&& (self.base.octants.contents().dom().contains(MortonOctantId(1u64)) && res is Err ==> res == Err::<
                SearchControlFlowResult<MortonOctantId>,
                StorageError,
            >(StorageError::OverMaxDepth(Storage::max_depth_spec() as u8)) && log.last().2
                == SearchControlFlow::Continue)
            &&& (self.base.octants.contents().dom().contains(MortonOctantId(1u64)) && all_continue(log) && res is Ok
                ==> visit_ids(log) == dfs_order_spec(
                self.base.octants.contents(),
                MortonOctantId(1u64),
                (17 - MortonOctantId(1u64).depth_spec()) as nat,
            ))
            &&& (self.base.octants.contents().dom().contains(MortonOctantId(1u64)) && continue_prefix(log)
                ==> log.len() <= dfs_order_spec(
                self.base.octants.contents(),
                MortonOctantId(1u64),
                (17 - MortonOctantId(1u64).depth_spec()) as nat,
            ).len() && visit_ids(log) == dfs_order_spec(
                self.base.octants.contents(),
                MortonOctantId(1u64),
                (17 - MortonOctantId(1u64).depth_spec()) as nat,
            ).take(log.len() as int))
        }),    {
        let root_id = self.base.octants.get_root_id();
        depth_first_search_from_storage(&self.base.octants, &root_id, search_func)
    }

    /// Delegates to the base tree's engine; see the matching
    /// `OctreeBase` method.
    pub fn breadth_first_search<V: SearchVisitor>(
        &self,
        octant_id: &MortonOctantId,
        search_func: &mut V,
    ) -> (r: (StorageResult<SearchControlFlowResult<MortonOctantId>>, Ghost<Seq<SearchVisit>>))
        requires
            self.base.octants.inv(),
        ensures
        ({
            let res = r.0;
            let log = r.1@;
            &&& !self.base.octants.contents().dom().contains(*octant_id) <==> res == Err::<
                SearchControlFlowResult<MortonOctantId>,
                StorageError,
            >(StorageError::InvalidOctantId)
            &&& !self.base.octants.contents().dom().contains(*octant_id) ==> log.len() == 0
            &&& self.base.octants.contents().dom().contains(*octant_id) ==> log.len() >= 1 && log[0].0
                as nat == octant_id.depth_spec() && log[0].1 == *octant_id
            &&& visits_ok(self.base.octants.contents(), *octant_id, log)
            &&& break_only_last(log)
            &&& (res matches Ok(flow) ==> self.base.octants.contents().dom().contains(flow.carried_id())
                && subtree_of(*octant_id).contains(flow.carried_id()))
            &&& (res matches Ok(flow) ==> log.len() > 0 && res == Ok::<
                SearchControlFlowResult<MortonOctantId>,
                StorageError,
            >(flow_result_of(log.last())))
            &&& (log.len() > 0 && log.last().2 == SearchControlFlow::Break ==> res == Ok::<
                SearchControlFlowResult<MortonOctantId>,
                StorageError,
            >(SearchControlFlowResult::Break(log.last().1)))
            &&& (res matches Ok(SearchControlFlowResult::Break(b)) ==> log.len() > 0
                && log.last().2 == SearchControlFlow::Break && b == log.last().1)
            &&& (self.base.octants.contents().dom().contains(*octant_id) && res is Err ==> res
                == Err::<SearchControlFlowResult<MortonOctantId>, StorageError>(
                StorageError::OverMaxDepth(Storage::max_depth_spec() as u8),
            ) && log.last().2 == SearchControlFlow::Continue)
            &&& (self.base.octants.contents().dom().contains(*octant_id) && all_continue(log) && res
                is Ok ==> visit_levels(log) == bfs_order_spec(
                self.base.octants.contents(),
                seq![((octant_id.depth_spec() as u8), *octant_id)],
            ))
            &&& (self.base.octants.contents().dom().contains(*octant_id) && continue_prefix(log)
                ==> log.len() <= bfs_order_spec(
                self.base.octants.contents(),
                seq![((octant_id.depth_spec() as u8), *octant_id)],
            ).len() && visit_levels(log) == bfs_order_spec(
                self.base.octants.contents(),
                seq![((octant_id.depth_spec() as u8), *octant_id)],
            ).take(log.len() as int))
        }),    {
        breadth_first_search_from_storage(&self.base.octants, octant_id, search_func)
    }

    /// Delegates to the base tree's engine; see the matching
    /// `OctreeBase` method.
    pub fn breadth_first_search_from_root<V: SearchVisitor>(&self, search_func: &mut V) -> (r: (
        StorageResult<SearchControlFlowResult<MortonOctantId>>,
        Ghost<Seq<SearchVisit>>,
    ))
        requires
            self.base.octants.inv(),
        ensures
        ({
            let res = r.0;
            let log = r.1@;
            &&& !self.base.octants.contents().dom().contains(MortonOctantId(1u64)) <==> res == Err::<
                SearchControlFlowResult<MortonOctantId>,
                StorageError,
            >(StorageError::InvalidOctantId)
            &&& !self.base.octants.contents().dom().contains(MortonOctantId(1u64)) ==> log.len() == 0
            &&& self.base.octants.contents().dom().contains(MortonOctantId(1u64)) ==> log.len() >= 1 && log[0].0
                as nat == MortonOctantId(1u64).depth_spec() && log[0].1 == MortonOctantId(1u64)
            &&& visits_ok(self.base.octants.contents(), MortonOctantId(1u64), log)
            &&& break_only_last(log)
            &&& (res matches Ok(flow) ==> self.base.octants.contents().dom().contains(flow.carried_id())
                && subtree_of(MortonOctantId(1u64)).contains(flow.carried_id()))
            &&& (res matches Ok(flow) ==> log.len() > 0 && res == Ok::<
                SearchControlFlowResult<MortonOctantId>,
                StorageError,
            >(flow_result_of(log.last())))
            &&& (log.len() > 0 && log.last().2 == SearchControlFlow::Break ==> res == Ok::<
                SearchControlFlowResult<MortonOctantId>,
                StorageError,
            >(SearchControlFlowResult::Break(log.last().1)))
            &&& (res matches Ok(SearchControlFlowResult::Break(b)) ==> log.len() > 0
                && log.last().2 == SearchControlFlow::Break && b == log.last().1)
            &&& (self.base.octants.contents().dom().contains(MortonOctantId(1u64)) && res is Err ==> res
                == Err::<SearchControlFlowResult<MortonOctantId>, StorageError>(
                StorageError::OverMaxDepth(Storage::max_depth_spec() as u8),
            ) && log.last().2 == SearchControlFlow::Continue)
            &&& (self.base.octants.contents().dom().contains(MortonOctantId(1u64)) && all_continue(log) && res
                is Ok ==> visit_levels(log) == bfs_order_spec(
                self.base.octants.contents(),
                seq![((MortonOctantId(1u64).depth_spec() as u8), MortonOctantId(1u64))],
            ))
            &&& (self.base.octants.contents().dom().contains(MortonOctantId(1u64)) && continue_prefix(log)
                ==> log.len() <= bfs_order_spec(
                self.base.octants.contents(),
                seq![((MortonOctantId(1u64).depth_spec() as u8), MortonOctantId(1u64))],
            ).len() && visit_levels(log) == bfs_order_spec(
                self.base.octants.contents(),
                seq![((MortonOctantId(1u64).depth_spec() as u8), MortonOctantId(1u64))],
            ).take(log.len() as int))
        }),    {
        let root_id = self.base.octants.get_root_id();
        breadth_first_search_from_storage(&self.base.octants, &root_id, search_func)
    }
}

impl<Storage: ModifiableOctantStorage, Volumetric: Voxel> SpatialOctreeBase<Storage, Volumetric> {
    /// A tree over a fresh backend holding exactly a root octant, paired
    /// with the region the root covers.
    pub fn new_with_root(root_voxel: Volumetric, root_custom_data: Storage::Data) -> (r: Self)
        ensures
            r.base.octants.inv(),
            r.base.octants.contents() == Map::<MortonOctantId, Storage::Data>::empty().insert(
                MortonOctantId(1u64),
                root_custom_data,
            ),
            r.root_voxel_spec() == root_voxel,
    {
        SpatialOctreeBase {
            base: OctreeBase::new_with_root(root_custom_data),
            root_voxel,
        }
    }

    /// Mutable access to the storage backend.
    pub fn octants_mod<'a>(&'a mut self) -> (r: &'a mut Storage)
        ensures
            *r == old(self).base.octants,
            final(self).base.octants == *final(r),
            final(self).root_voxel_spec() == old(self).root_voxel_spec(),
    {
        &mut self.base.octants
    }
}

impl<Storage: OctantStorage + Default, Volumetric: Voxel> SpatialOctreeBase<Storage, Volumetric> {
    /// A tree over the backend's default value, paired with the region
    /// the root covers.
    pub fn with_root_voxel(root_voxel: Volumetric) -> (r: Self)
        ensures
            r.root_voxel_spec() == root_voxel,
    {
        SpatialOctreeBase { base: OctreeBase::new_with_storage(Storage::default()), root_voxel }
    }
}

impl<Storage: ModifiableOctantStorage, Volumetric: Voxel> SpatialOctreeBase<Storage, Volumetric> {
    /// Delegates to the base tree's engine; see the matching
    /// `OctreeBase` method.  The root region never changes.
    pub fn guided_search_mut<G: SearchGuideMut<Storage::Data>>(
        &mut self,
        octant_id: &MortonOctantId,
        guide_func: &mut G,
    ) -> (r: (StorageResult<MortonOctantId>, Ghost<Seq<GuideVisit>>))
        requires
            old(self).base.octants.inv(),
        ensures
        ({
            let res = r.0;
            let log = r.1@;
            &&& final(self).base.octants.inv()
            &&& final(self).base.octants.contents().dom() == old(self).base.octants.contents().dom()
            &&& (forall|k: MortonOctantId|
                !subtree_of(*octant_id).contains(k) && old(self).base.octants.contents().dom().contains(k)
                    ==> final(self).base.octants.contents()[k] == old(self).base.octants.contents()[k])
            &&& !old(self).base.octants.contents().dom().contains(*octant_id) <==> res == Err::<
                MortonOctantId,
                StorageError,
            >(StorageError::InvalidOctantId)
            &&& !old(self).base.octants.contents().dom().contains(*octant_id) ==> log.len() == 0 && final(self).base.octants.contents() == old(self).base.octants.contents()
            &&& old(self).base.octants.contents().dom().contains(*octant_id) ==> res is Ok && log.len() >= 1
                && log[0].1 == *octant_id && log[0].0 as nat == octant_id.depth_spec()
            &&& (forall|t: int|
                0 <= t < log.len() ==> {
                    let v = #[trigger] log[t];
                    &&& final(self).base.octants.contents().dom().contains(v.1)
                    &&& subtree_of(*octant_id).contains(v.1)
                    &&& v.0 as nat == v.1.depth_spec()
                })
            &&& (forall|t: int|
                0 <= t < log.len() - 1 ==> guide_step_ok(
                    final(self).base.octants.contents(),
                    #[trigger] log[t],
                    log[t + 1],
                ))
            &&& (res matches Ok(found) ==> found == log.last().1 && match log.last().2 {
                Some(p) => !final(self).base.octants.contents().dom().contains(
                    crate::octant_storage_trait::child_of(log.last().1, p.index_spec()),
                ),
                None => true,
            })
        }),
            final(self).root_voxel_spec() == old(self).root_voxel_spec(),
    {
        guided_search_from_storage_mut(&mut self.base.octants, octant_id, guide_func)
    }

    /// Delegates to the base tree's engine; see the matching
    /// `OctreeBase` method.  The root region never changes.
    pub fn guided_search_from_root_mut<G: SearchGuideMut<Storage::Data>>(
        &mut self,
        guide_func: &mut G,
    ) -> (r: (StorageResult<MortonOctantId>, Ghost<Seq<GuideVisit>>))
        requires
            old(self).base.octants.inv(),
        ensures
        ({
            let res = r.0;
            let log = r.1@;
            &&& final(self).base.octants.inv()
            &&& final(self).base.octants.contents().dom() == old(self).base.octants.contents().dom()
            &&& (forall|k: MortonOctantId|
                !subtree_of(MortonOctantId(1u64)).contains(k) && old(self).base.octants.contents().dom().contains(k)
                    ==> final(self).base.octants.contents()[k] == old(self).base.octants.contents()[k])
            &&& !old(self).base.octants.contents().dom().contains(MortonOctantId(1u64)) <==> res == Err::<
                MortonOctantId,
                StorageError,
            >(StorageError::InvalidOctantId)
            &&& !old(self).base.octants.contents().dom().contains(MortonOctantId(1u64)) ==> log.len() == 0 && final(self).base.octants.contents() == old(self).base.octants.contents()
            &&& old(self).base.octants.contents().dom().contains(MortonOctantId(1u64)) ==> res is Ok && log.len() >= 1
                && log[0].1 == MortonOctantId(1u64) && log[0].0 as nat == MortonOctantId(1u64).depth_spec()
            &&& (forall|t: int|
                0 <= t < log.len() ==> {
                    let v = #[trigger] log[t];
                    &&& final(self).base.octants.contents().dom().contains(v.1)
                    &&& subtree_of(MortonOctantId(1u64)).contains(v.1)
                    &&& v.0 as nat == v.1.depth_spec()
                })
            &&& (forall|t: int|
                0 <= t < log.len() - 1 ==> guide_step_ok(
                    final(self).base.octants.contents(),
                    #[trigger] log[t],
                    log[t + 1],
                ))
            &&& (res matches Ok(found) ==> found == log.last().1 && match log.last().2 {
                Some(p) => !final(self).base.octants.contents().dom().contains(
                    crate::octant_storage_trait::child_of(log.last().1, p.index_spec()),
                ),
                None => true,
            })
        }),
            final(self).root_voxel_spec() == old(self).root_voxel_spec(),
    {
        let root_id = self.base.octants.get_root_id();
        guided_search_from_storage_mut(&mut self.base.octants, &root_id, guide_func)
    }

    /// Delegates to the base tree's engine; see the matching
    /// `OctreeBase` method.  The root region never changes.
    pub fn depth_first_search_mut<V: SearchVisitorMut<Storage::Data>>(
        &mut self,
        octant_id: &MortonOctantId,
        search_func: &mut V,
    ) -> (r: (StorageResult<SearchControlFlowResult<MortonOctantId>>, Ghost<Seq<SearchVisit>>))
        requires
            old(self).base.octants.inv(),
        ensures
        ({
            let res = r.0;
            let log = r.1@;
            &&& final(self).base.octants.inv()
            &&& final(self).base.octants.contents().dom() == old(self).base.octants.contents().dom()
            &&& (forall|k: MortonOctantId|
                !subtree_of(*octant_id).contains(k) && old(self).base.octants.contents().dom().contains(k)
                    ==> final(self).base.octants.contents()[k] == old(self).base.octants.contents()[k])
            &&& !old(self).base.octants.contents().dom().contains(*octant_id) <==> res == Err::<
                SearchControlFlowResult<MortonOctantId>,
                StorageError,
            >(StorageError::InvalidOctantId)
            &&& !old(self).base.octants.contents().dom().contains(*octant_id) ==> log.len() == 0 && final(self).base.octants.contents() == old(self).base.octants.contents()
            &&& old(self).base.octants.contents().dom().contains(*octant_id) ==> log.len() >= 1 && log[0].0
                as nat == octant_id.depth_spec() && log[0].1 == *octant_id
            &&& visits_ok(final(self).base.octants.contents(), *octant_id, log)
            &&& break_only_last(log)
            &&& (res matches Ok(flow) ==> final(self).base.octants.contents().dom().contains(
                flow.carried_id(),
            ) && subtree_of(*octant_id).contains(flow.carried_id()))
            &&& (res matches Ok(flow) ==> log.len() > 0 && res == Ok::<
                SearchControlFlowResult<MortonOctantId>,
                StorageError,
            >(flow_result_of(log.last())))
            &&& (log.len() > 0 && log.last().2 == SearchControlFlow::Break ==> res == Ok::<
                SearchControlFlowResult<MortonOctantId>,
                StorageError,
            >(SearchControlFlowResult::Break(log.last().1)))
            &&& (res matches Ok(SearchControlFlowResult::Break(b)) ==> log.len() > 0
                && log.last().2 == SearchControlFlow::Break && b == log.last().1)
            &&& (old(self).base.octants.contents().dom().contains(*octant_id) && res is Err ==> res
                == Err::<SearchControlFlowResult<MortonOctantId>, StorageError>(
                StorageError::OverMaxDepth(Storage::max_depth_spec() as u8),
            ) && log.last().2 == SearchControlFlow::Continue)
            &&& (old(self).base.octants.contents().dom().contains(*octant_id) && all_continue(log) && res
                is Ok ==> visit_ids(log) == dfs_order_spec(
                final(self).base.octants.contents(),
                *octant_id,
                (17 - octant_id.depth_spec()) as nat,
            ))
        }),
            final(self).root_voxel_spec() == old(self).root_voxel_spec(),
    {
        depth_first_search_from_storage_mut(&mut self.base.octants, octant_id, search_func)
    }

    /// Delegates to the base tree's engine; see the matching
    /// `OctreeBase` method.  The root region never changes.
    pub fn depth_first_search_from_root_mut<V: SearchVisitorMut<Storage::Data>>(
        &mut self,
        search_func: &mut V,
    ) -> (r: (StorageResult<SearchControlFlowResult<MortonOctantId>>, Ghost<Seq<SearchVisit>>))
        requires
            old(self).base.octants.inv(),
        ensures
        ({
            let res = r.0;
            let log = r.1@;
            &&& final(self).base.octants.inv()
            &&& final(self).base.octants.contents().dom() == old(self).base.octants.contents().dom()
            &&& (forall|k: MortonOctantId|
                !subtree_of(MortonOctantId(1u64)).contains(k) && old(self).base.octants.contents().dom().contains(k)
                    ==> final(self).base.octants.contents()[k] == old(self).base.octants.contents()[k])
            &&& !old(self).base.octants.contents().dom().contains(MortonOctantId(1u64)) <==> res == Err::<
                SearchControlFlowResult<MortonOctantId>,
                StorageError,
            >(StorageError::InvalidOctantId)
            &&& !old(self).base.octants.contents().dom().contains(MortonOctantId(1u64)) ==> log.len() == 0 && final(self).base.octants.contents() == old(self).base.octants.contents()
            &&& old(self).base.octants.contents().dom().contains(MortonOctantId(1u64)) ==> log.len() >= 1 && log[0].0
                as nat == MortonOctantId(1u64).depth_spec() && log[0].1 == MortonOctantId(1u64)
            &&& visits_ok(final(self).base.octants.contents(), MortonOctantId(1u64), log)
            &&& break_only_last(log)
            &&& (res matches Ok(flow) ==> final(self).base.octants.contents().dom().contains(
                flow.carried_id(),
            ) && subtree_of(MortonOctantId(1u64)).contains(flow.carried_id()))
            &&& (res matches Ok(flow) ==> log.len() > 0 && res == Ok::<
                SearchControlFlowResult<MortonOctantId>,
                StorageError,
            >(flow_result_of(log.last())))
            &&& (log.len() > 0 && log.last().2 == SearchControlFlow::Break ==> res == Ok::<
                SearchControlFlowResult<MortonOctantId>,
                StorageError,
            >(SearchControlFlowResult::Break(log.last().1)))
            &&& (res matches Ok(SearchControlFlowResult::Break(b)) ==> log.len() > 0
                && log.last().2 == SearchControlFlow::Break && b == log.last().1)
            &&& (old(self).base.octants.contents().dom().contains(MortonOctantId(1u64)) && res is Err ==> res
                == Err::<SearchControlFlowResult<MortonOctantId>, StorageError>(
                StorageError::OverMaxDepth(Storage::max_depth_spec() as u8),
            ) && log.last().2 == SearchControlFlow::Continue)
            &&& (old(self).base.octants.contents().dom().contains(MortonOctantId(1u64)) && all_continue(log) && res
                is Ok ==> visit_ids(log) == dfs_order_spec(
                final(self).base.octants.contents(),
                MortonOctantId(1u64),
                (17 - MortonOctantId(1u64).depth_spec()) as nat,
            ))
        }),
            final(self).root_voxel_spec() == old(self).root_voxel_spec(),
    {
        let root_id = self.base.octants.get_root_id();
        depth_first_search_from_storage_mut(&mut self.base.octants, &root_id, search_func)
    }

    /// Delegates to the base tree's engine; see the matching
    /// `OctreeBase` method.  The root region never changes.
    pub fn breadth_first_search_mut<V: SearchVisitorMut<Storage::Data>>(
        &mut self,
        octant_id: &MortonOctantId,
        search_func: &mut V,
    ) -> (r: (StorageResult<SearchControlFlowResult<MortonOctantId>>, Ghost<Seq<SearchVisit>>))
        requires
            old(self).base.octants.inv(),
        ensures
        ({
            let res = r.0;
            let log = r.1@;
            &&& final(self).base.octants.inv()
            &&& final(self).base.octants.contents().dom() == old(self).base.octants.contents().dom()
            &&& (forall|k: MortonOctantId|
                !subtree_of(*octant_id).contains(k) && old(self).base.octants.contents().dom().contains(
                    k,
                ) ==> final(self).base.octants.contents()[k] == old(self).base.octants.contents()[k])
            &&& !old(self).base.octants.contents().dom().contains(*octant_id) <==> res == Err::<
                SearchControlFlowResult<MortonOctantId>,
                StorageError,
            >(StorageError::InvalidOctantId)
            &&& !old(self).base.octants.contents().dom().contains(*octant_id) ==> log.len() == 0
                && final(self).base.octants.contents() == old(self).base.octants.contents()
            &&& old(self).base.octants.contents().dom().contains(*octant_id) ==> log.len() >= 1
                && log[0].0 as nat == octant_id.depth_spec() && log[0].1 == *octant_id
            &&& visits_ok(final(self).base.octants.contents(), *octant_id, log)
            &&& break_only_last(log)
            &&& (res matches Ok(flow) ==> final(self).base.octants.contents().dom().contains(
                flow.carried_id(),
            ) && subtree_of(*octant_id).contains(flow.carried_id()))
            &&& (res matches Ok(flow) ==> log.len() > 0 && res == Ok::<
                SearchControlFlowResult<MortonOctantId>,
                StorageError,
            >(flow_result_of(log.last())))
            &&& (log.len() > 0 && log.last().2 == SearchControlFlow::Break ==> res == Ok::<
                SearchControlFlowResult<MortonOctantId>,
                StorageError,
            >(SearchControlFlowResult::Break(log.last().1)))
            &&& (res matches Ok(SearchControlFlowResult::Break(b)) ==> log.len() > 0
                && log.last().2 == SearchControlFlow::Break && b == log.last().1)
            &&& (old(self).base.octants.contents().dom().contains(*octant_id) && res is Err ==> res
                == Err::<SearchControlFlowResult<MortonOctantId>, StorageError>(
                StorageError::OverMaxDepth(Storage::max_depth_spec() as u8),
            ) && log.last().2 == SearchControlFlow::Continue)
            &&& (old(self).base.octants.contents().dom().contains(*octant_id) && all_continue(log)
                && res is Ok ==> visit_levels(log) == bfs_order_spec(
                final(self).base.octants.contents(),
                seq![((octant_id.depth_spec() as u8), *octant_id)],
            ))
        }),
            final(self).root_voxel_spec() == old(self).root_voxel_spec(),
    {
        breadth_first_search_from_storage_mut(&mut self.base.octants, octant_id, search_func)
    }

    /// Delegates to the base tree's engine; see the matching
    /// `OctreeBase` method.  The root region never changes.
    pub fn breadth_first_search_from_root_mut<V: SearchVisitorMut<Storage::Data>>(
        &mut self,
        search_func: &mut V,
    ) -> (r: (StorageResult<SearchControlFlowResult<MortonOctantId>>, Ghost<Seq<SearchVisit>>))
        requires
            old(self).base.octants.inv(),
        ensures
        ({
            let res = r.0;
            let log = r.1@;
            &&& final(self).base.octants.inv()
            &&& final(self).base.octants.contents().dom() == old(self).base.octants.contents().dom()
            &&& (forall|k: MortonOctantId|
                !subtree_of(MortonOctantId(1u64)).contains(k) && old(self).base.octants.contents().dom().contains(
                    k,
                ) ==> final(self).base.octants.contents()[k] == old(self).base.octants.contents()[k])
            &&& !old(self).base.octants.contents().dom().contains(MortonOctantId(1u64)) <==> res == Err::<
                SearchControlFlowResult<MortonOctantId>,
                StorageError,
            >(StorageError::InvalidOctantId)
            &&& !old(self).base.octants.contents().dom().contains(MortonOctantId(1u64)) ==> log.len() == 0
                && final(self).base.octants.contents() == old(self).base.octants.contents()
            &&& old(self).base.octants.contents().dom().contains(MortonOctantId(1u64)) ==> log.len() >= 1
                && log[0].0 as nat == MortonOctantId(1u64).depth_spec() && log[0].1 == MortonOctantId(1u64)
            &&& visits_ok(final(self).base.octants.contents(), MortonOctantId(1u64), log)
            &&& break_only_last(log)
            &&& (res matches Ok(flow) ==> final(self).base.octants.contents().dom().contains(
                flow.carried_id(),
            ) && subtree_of(MortonOctantId(1u64)).contains(flow.carried_id()))
            &&& (res matches Ok(flow) ==> log.len() > 0 && res == Ok::<
                SearchControlFlowResult<MortonOctantId>,
                StorageError,
            >(flow_result_of(log.last())))
            &&& (log.len() > 0 && log.last().2 == SearchControlFlow::Break ==> res == Ok::<
                SearchControlFlowResult<MortonOctantId>,
                StorageError,
            >(SearchControlFlowResult::Break(log.last().1)))
            &&& (res matches Ok(SearchControlFlowResult::Break(b)) ==> log.len() > 0
                && log.last().2 == SearchControlFlow::Break && b == log.last().1)
            &&& (old(self).base.octants.contents().dom().contains(MortonOctantId(1u64)) && res is Err ==> res
                == Err::<SearchControlFlowResult<MortonOctantId>, StorageError>(
                StorageError::OverMaxDepth(Storage::max_depth_spec() as u8),
            ) && log.last().2 == SearchControlFlow::Continue)
            &&& (old(self).base.octants.contents().dom().contains(MortonOctantId(1u64)) && all_continue(log)
                && res is Ok ==> visit_levels(log) == bfs_order_spec(
                final(self).base.octants.contents(),
                seq![((MortonOctantId(1u64).depth_spec() as u8), MortonOctantId(1u64))],
            ))
        }),
            final(self).root_voxel_spec() == old(self).root_voxel_spec(),
    {
        let root_id = self.base.octants.get_root_id();
        breadth_first_search_from_storage_mut(&mut self.base.octants, &root_id, search_func)
    }

    /// Delegates to the base tree's engine; see the matching
    /// `OctreeBase` method.  The root region never changes.
    pub fn drill<G: DrillGuide<Storage::Data>>(
        &mut self,
        octant_id: &MortonOctantId,
        drill_func: &mut G,
    ) -> (r: (StorageResult<MortonOctantId>, Ghost<Seq<DrillVisit<Storage::Data>>>))
        requires
            old(self).base.octants.inv(),
        ensures
        final(self).base.octants.inv(),
        forall|id: MortonOctantId| #[trigger]
            old(self).base.octants.contents().dom().contains(id) ==> final(self).base.octants.contents().dom().contains(id),
        forall|k: MortonOctantId|
            !subtree_of(*octant_id).contains(k) ==> (final(self).base.octants.contents().dom().contains(k)
                <==> old(self).base.octants.contents().dom().contains(k)),
        forall|k: MortonOctantId|
            !subtree_of(*octant_id).contains(k) && old(self).base.octants.contents().dom().contains(k)
                ==> final(self).base.octants.contents()[k] == old(self).base.octants.contents()[k],
        !old(self).base.octants.contents().dom().contains(*octant_id) <==> r.0 == Err::<
            MortonOctantId,
            StorageError,
        >(StorageError::InvalidOctantId),
        !old(self).base.octants.contents().dom().contains(*octant_id) ==> final(self).base.octants.contents() == old(self).base.octants.contents(),
        r.0 matches Ok(found) ==> final(self).base.octants.contents().dom().contains(found) && subtree_of(
            *octant_id,
        ).contains(found),
        r.0 matches Ok(found) ==> drill_added_on_chain(
            old(self).base.octants.contents(),
            final(self).base.octants.contents(),
            *octant_id,
            found,
        ),
        old(self).base.octants.contents().dom().contains(*octant_id) ==> (r.0 is Ok || r.0 == Err::<
            MortonOctantId,
            StorageError,
        >(StorageError::OverMaxDepth(Storage::max_depth_spec() as u8))),
            final(self).root_voxel_spec() == old(self).root_voxel_spec(),
        ({
            let res = r.0;
            let log = r.1@;
            &&& drill_log_ok(old(self).base.octants.contents(), Storage::max_depth_spec(), *octant_id, log)
            &&& (!old(self).base.octants.contents().dom().contains(*octant_id) ==> log.len() == 0)
            &&& (old(self).base.octants.contents().dom().contains(*octant_id) ==> log.len() >= 1
                && log[0].0 as nat == octant_id.depth_spec())
            &&& (old(self).base.octants.contents().dom().contains(*octant_id) ==> res == drill_stop_result(
                old(self).base.octants.contents(),
                Storage::max_depth_spec(),
                log.last(),
            ))
            &&& (forall|i: int|
                0 <= i < log.len() ==> final(self).base.octants.contents().dom().contains(
                    (#[trigger] log[i]).1,
                ))
            &&& (res matches Ok(found) ==> log.len() > 0 && found == log.last().1)
        }),
    {
        drill_from_storage(&mut self.base.octants, octant_id, drill_func)
    }

    /// Delegates to the base tree's engine; see the matching
    /// `OctreeBase` method.  The root region never changes.
    pub fn drill_from_root<G: DrillGuide<Storage::Data>>(&mut self, drill_func: &mut G) -> (r: (
        StorageResult<MortonOctantId>,
        Ghost<Seq<DrillVisit<Storage::Data>>>,
    ))
        requires
            old(self).base.octants.inv(),
        ensures
        final(self).base.octants.inv(),
        forall|id: MortonOctantId| #[trigger]
            old(self).base.octants.contents().dom().contains(id) ==> final(self).base.octants.contents().dom().contains(id),
        forall|k: MortonOctantId|
            !subtree_of(MortonOctantId(1u64)).contains(k) ==> (final(self).base.octants.contents().dom().contains(k)
                <==> old(self).base.octants.contents().dom().contains(k)),
        forall|k: MortonOctantId|
            !subtree_of(MortonOctantId(1u64)).contains(k) && old(self).base.octants.contents().dom().contains(k)
                ==> final(self).base.octants.contents()[k] == old(self).base.octants.contents()[k],
        !old(self).base.octants.contents().dom().contains(MortonOctantId(1u64)) <==> r.0 == Err::<
            MortonOctantId,
            StorageError,
        >(StorageError::InvalidOctantId),
        !old(self).base.octants.contents().dom().contains(MortonOctantId(1u64)) ==> final(self).base.octants.contents() == old(self).base.octants.contents(),
        r.0 matches Ok(found) ==> final(self).base.octants.contents().dom().contains(found) && subtree_of(
            MortonOctantId(1u64),
        ).contains(found),
        r.0 matches Ok(found) ==> drill_added_on_chain(
            old(self).base.octants.contents(),
            final(self).base.octants.contents(),
            MortonOctantId(1u64),
            found,
        ),
        old(self).base.octants.contents().dom().contains(MortonOctantId(1u64)) ==> (r.0 is Ok || r.0 == Err::<
            MortonOctantId,
            StorageError,
        >(StorageError::OverMaxDepth(Storage::max_depth_spec() as u8))),
            final(self).root_voxel_spec() == old(self).root_voxel_spec(),
        ({
            let res = r.0;
            let log = r.1@;
            &&& drill_log_ok(old(self).base.octants.contents(), Storage::max_depth_spec(), MortonOctantId(1u64), log)
            &&& (!old(self).base.octants.contents().dom().contains(MortonOctantId(1u64)) ==> log.len() == 0)
            &&& (old(self).base.octants.contents().dom().contains(MortonOctantId(1u64)) ==> log.len() >= 1
                && log[0].0 as nat == MortonOctantId(1u64).depth_spec())
            &&& (old(self).base.octants.contents().dom().contains(MortonOctantId(1u64)) ==> res == drill_stop_result(
                old(self).base.octants.contents(),
                Storage::max_depth_spec(),
                log.last(),
            ))
            &&& (forall|i: int|
                0 <= i < log.len() ==> final(self).base.octants.contents().dom().contains(
                    (#[trigger] log[i]).1,
                ))
            &&& (res matches Ok(found) ==> log.len() > 0 && found == log.last().1)
        }),
    {
        let root_id = self.base.octants.get_root_id();
        drill_from_storage(&mut self.base.octants, &root_id, drill_func)
    }

    /// Delegates to the base tree's engine; see the matching
    /// `OctreeBase` method.  The root region never changes.
    pub fn subdivide_if<P: SubdivisionPredicate<Storage::Data>>(
        &mut self,
        octant_id: &MortonOctantId,
        subdivide_predicate: &mut P,
    ) -> (r: (
        StorageResult<SearchControlFlowResult<MortonOctantId>>,
        Ghost<Seq<SubdivisionVisit>>,
    ))
        requires
            old(self).base.octants.inv(),
        ensures
        final(self).base.octants.inv(),
        !old(self).base.octants.contents().dom().contains(*octant_id) <==> r.0 == Err::<
            SearchControlFlowResult<MortonOctantId>,
            StorageError,
        >(StorageError::InvalidOctantId),
        !old(self).base.octants.contents().dom().contains(*octant_id) ==> final(self).base.octants.contents()
            == old(self).base.octants.contents(),
        forall|id: MortonOctantId| #[trigger]
            old(self).base.octants.contents().dom().contains(id) ==> final(self).base.octants.contents().dom().contains(id),
        forall|k: MortonOctantId|
            !subtree_of(*octant_id).contains(k) ==> (final(self).base.octants.contents().dom().contains(k) <==> old(self).base.octants.contents().dom().contains(k)),
        forall|k: MortonOctantId|
            !subtree_of(*octant_id).contains(k) && old(self).base.octants.contents().dom().contains(k)
                ==> final(self).base.octants.contents()[k] == old(self).base.octants.contents()[k],
        r.0 matches Ok(SearchControlFlowResult::Continue(subdivided)) ==> forall|j: nat|
            j < 8 ==> final(self).base.octants.contents().dom().contains(
                #[trigger] crate::octant_storage_trait::child_of(subdivided, j),
            ),
        r.0 matches Ok(flow) ==> final(self).base.octants.contents().dom().contains(flow.carried_id())
            && subtree_of(*octant_id).contains(flow.carried_id()),
        old(self).base.octants.contents().dom().contains(*octant_id) ==> (r.0 is Ok || r.0 == Err::<
            SearchControlFlowResult<MortonOctantId>,
            StorageError,
        >(StorageError::OverMaxDepth(Storage::max_depth_spec() as u8))),
            final(self).root_voxel_spec() == old(self).root_voxel_spec(),
        ({
            let res = r.0;
            let log = r.1@;
            &&& (!old(self).base.octants.contents().dom().contains(*octant_id) ==> log.len() == 0)
            &&& (old(self).base.octants.contents().dom().contains(*octant_id) ==> log.len() >= 1
                && log[0].1 == *octant_id && log[0].0 as nat == octant_id.depth_spec())
            &&& subdivision_visits_ok(final(self).base.octants.contents(), *octant_id, log)
            &&& subdivision_break_only_last(log)
            &&& (res matches Ok(flow) ==> log.len() > 0 && res == Ok::<
                SearchControlFlowResult<MortonOctantId>,
                StorageError,
            >(subdivision_result_of(log.last())))
            &&& (old(self).base.octants.contents().dom().contains(*octant_id) && res is Err
                ==> log.len() > 0 && log.last().2 == SearchControlFlow::Continue)
            &&& (forall|t: int, j: int|
                0 <= t < log.len() && 0 <= j < 8 && log[t].2 == SearchControlFlow::Continue
                    && #[trigger] log[t].3[j] && (res is Ok || t < log.len() - 1)
                    ==> final(self).base.octants.contents().dom().contains(
                    crate::octant_storage_trait::child_of(log[t].1, j as nat),
                ))
            &&& (forall|t: int|
                0 <= t < log.len() && (#[trigger] log[t]).2 == SearchControlFlow::Continue
                    ==> log[t].3 == full_slots())
            &&& (forall|t: int| 1 <= t < log.len() ==> #[trigger] subdivision_from_earlier(log, t))
        }),
    {
        subdivide_if_from_storage(&mut self.base.octants, octant_id, subdivide_predicate)
    }

    /// Delegates to the base tree's engine; see the matching
    /// `OctreeBase` method.  The root region never changes.
    pub fn subdivide_if_some<P: SubdivisionMaybePredicate<Storage::Data>>(
        &mut self,
        octant_id: &MortonOctantId,
        subdivide_predicate: &mut P,
    ) -> (r: (
        StorageResult<SearchControlFlowResult<MortonOctantId>>,
        Ghost<Seq<SubdivisionVisit>>,
    ))
        requires
            old(self).base.octants.inv(),
        ensures
        final(self).base.octants.inv(),
        !old(self).base.octants.contents().dom().contains(*octant_id) <==> r.0 == Err::<
            SearchControlFlowResult<MortonOctantId>,
            StorageError,
        >(StorageError::InvalidOctantId),
        !old(self).base.octants.contents().dom().contains(*octant_id) ==> final(self).base.octants.contents()
            == old(self).base.octants.contents(),
        forall|id: MortonOctantId| #[trigger]
            old(self).base.octants.contents().dom().contains(id) ==> final(self).base.octants.contents().dom().contains(id),
        forall|k: MortonOctantId|
            !subtree_of(*octant_id).contains(k) ==> (final(self).base.octants.contents().dom().contains(k) <==> old(self).base.octants.contents().dom().contains(k)),
        forall|k: MortonOctantId|
            !subtree_of(*octant_id).contains(k) && old(self).base.octants.contents().dom().contains(k)
                ==> final(self).base.octants.contents()[k] == old(self).base.octants.contents()[k],
        r.0 matches Ok(flow) ==> final(self).base.octants.contents().dom().contains(flow.carried_id())
            && subtree_of(*octant_id).contains(flow.carried_id()),
        old(self).base.octants.contents().dom().contains(*octant_id) ==> (r.0 is Ok || r.0 == Err::<
            SearchControlFlowResult<MortonOctantId>,
            StorageError,
        >(StorageError::OverMaxDepth(Storage::max_depth_spec() as u8))),
            final(self).root_voxel_spec() == old(self).root_voxel_spec(),
        ({
            let res = r.0;
            let log = r.1@;
            &&& (!old(self).base.octants.contents().dom().contains(*octant_id) ==> log.len() == 0)
            &&& (old(self).base.octants.contents().dom().contains(*octant_id) ==> log.len() >= 1
                && log[0].1 == *octant_id && log[0].0 as nat == octant_id.depth_spec())
            &&& subdivision_visits_ok(final(self).base.octants.contents(), *octant_id, log)
            &&& subdivision_break_only_last(log)
            &&& (res matches Ok(flow) ==> log.len() > 0 && res == Ok::<
                SearchControlFlowResult<MortonOctantId>,
                StorageError,
            >(subdivision_result_of(log.last())))
            &&& (old(self).base.octants.contents().dom().contains(*octant_id) && res is Err
                ==> log.len() > 0 && log.last().2 == SearchControlFlow::Continue)
            &&& (forall|t: int, j: int|
                0 <= t < log.len() && 0 <= j < 8 && log[t].2 == SearchControlFlow::Continue
                    && #[trigger] log[t].3[j] && (res is Ok || t < log.len() - 1)
                    ==> final(self).base.octants.contents().dom().contains(
                    crate::octant_storage_trait::child_of(log[t].1, j as nat),
                ))
            &&& (forall|t: int| 1 <= t < log.len() ==> #[trigger] subdivision_from_earlier(log, t))
        }),
    {
        subdivide_if_some_from_storage(&mut self.base.octants, octant_id, subdivide_predicate)
    }
}

} // verus!
