//! The traversal and mutation engine: guided descent, depth-first and
//! breadth-first search, drill, and conditional subdivision, generic over
//! any backend that meets the storage contract.
//!
//! Every traversal shares one control-flow vocabulary: `Continue` descends
//! further, `Skip` stops descending the current branch, `Break` aborts the
//! whole traversal at once.  Callbacks are supplied as visitor values whose
//! trait methods the engine calls once per visited node.

use vstd::prelude::*;

use crate::morton_based_storage::morton_octant_id::MortonOctantId;
use crate::octant_meta::OctantPlacement;
use crate::octant_storage_trait::{
    child_slot_spec, code_descends_from, subtree_of, ModifiableOctantStorage, OctantStorage,
    StorageError, StorageResult,
};
use crate::Depth;

verus! {

/// What a search callback tells the engine to do next.
#[derive(Debug, Clone, Copy, PartialEq, Eq, Structural)]
pub enum SearchControlFlow {
    /// Keep descending below the visited node.
    Continue,
    /// Abort the whole traversal at the visited node.
    Break,
    /// Do not descend below the visited node, but keep traversing.
    Skip,
}

/// How a traversal ended, carrying the last relevant identifier: the
/// breaking node for `Break`, the last node visited otherwise.
#[derive(Debug, Clone, Copy, PartialEq, Eq, Structural)]
pub enum SearchControlFlowResult<OctantId> {
    /// The traversal ran to completion; the last visit answered `Continue`.
    Continue(OctantId),
    /// The traversal was aborted at this node.
    Break(OctantId),
    /// The traversal ran to completion; the last visit answered `Skip`.
    Skip(OctantId),
}

impl<OctantId> SearchControlFlowResult<OctantId> {
    /// The identifier the result carries.
    pub open spec fn carried_id(self) -> OctantId {
        match self {
            SearchControlFlowResult::Continue(id) => id,
            SearchControlFlowResult::Break(id) => id,
            SearchControlFlowResult::Skip(id) => id,
        }
    }
}

impl SearchControlFlow {
    /// Tag `octant_id` with this control flow.
    pub fn to_result<OctantId>(&self, octant_id: OctantId) -> (r: SearchControlFlowResult<
        OctantId,
    >)
        ensures
            r == match *self {
                SearchControlFlow::Continue => SearchControlFlowResult::Continue(octant_id),
                SearchControlFlow::Skip => SearchControlFlowResult::Skip(octant_id),
                SearchControlFlow::Break => SearchControlFlowResult::Break(octant_id),
            },
    {
        match *self {
            SearchControlFlow::Continue => SearchControlFlowResult::Continue(octant_id),
            SearchControlFlow::Skip => SearchControlFlowResult::Skip(octant_id),
            SearchControlFlow::Break => SearchControlFlowResult::Break(octant_id),
        }
    }
}

/// What a drill callback tells the engine to do with the next level.
#[derive(Debug)]
pub enum AssignmentControlFlow<T> {
    /// Create or replace the child at the placement with the data, then
    /// descend into it.
    AssignNext(OctantPlacement, T),
    /// Swap the data into the child at the placement only if it already
    /// exists; stop at the current node otherwise.
    AssignNextExisting(OctantPlacement, T),
    /// Create the child at the placement only if it does not exist yet;
    /// stop at the current node otherwise.
    AssignNextWhenNew(OctantPlacement, T),
}

impl<T> AssignmentControlFlow<T> {
    /// The placement this assignment addresses.
    pub open spec fn placement_spec(self) -> OctantPlacement {
        match self {
            AssignmentControlFlow::AssignNext(p, _) => p,
            AssignmentControlFlow::AssignNextExisting(p, _) => p,
            AssignmentControlFlow::AssignNextWhenNew(p, _) => p,
        }
    }

    /// The data this assignment carries.
    pub open spec fn data_spec(self) -> T {
        match self {
            AssignmentControlFlow::AssignNext(_, d) => d,
            AssignmentControlFlow::AssignNextExisting(_, d) => d,
            AssignmentControlFlow::AssignNextWhenNew(_, d) => d,
        }
    }

    /// The addressed placement and a borrow of the carried data.
    pub fn get_assigned(&self) -> (r: (OctantPlacement, &T))
        ensures
            r.0 == self.placement_spec(),
            *r.1 == self.data_spec(),
    {
        match self {
            AssignmentControlFlow::AssignNext(octant_placement, data) => (*octant_placement, data),
            AssignmentControlFlow::AssignNextExisting(octant_placement, data) => (
                *octant_placement,
                data,
            ),
            AssignmentControlFlow::AssignNextWhenNew(octant_placement, data) => (
                *octant_placement,
                data,
            ),
        }
    }

    /// The addressed placement and a mutable borrow of the carried data.
    pub fn get_assigned_mut(&mut self) -> (r: (OctantPlacement, &mut T))
        ensures
            r.0 == old(self).placement_spec(),
            *r.1 == old(self).data_spec(),
            final(self).placement_spec() == old(self).placement_spec(),
            final(self).data_spec() == *final(r.1),
    {
        match self {
            AssignmentControlFlow::AssignNext(octant_placement, data) => (*octant_placement, data),
            AssignmentControlFlow::AssignNextExisting(octant_placement, data) => (
                *octant_placement,
                data,
            ),
            AssignmentControlFlow::AssignNextWhenNew(octant_placement, data) => (
                *octant_placement,
                data,
            ),
        }
    }

    /// The addressed placement and the carried data.
    pub fn take(self) -> (r: (OctantPlacement, T))
        ensures
            r.0 == self.placement_spec(),
            r.1 == self.data_spec(),
    {
        match self {
            AssignmentControlFlow::AssignNext(octant_placement, data) => (octant_placement, data),
            AssignmentControlFlow::AssignNextExisting(octant_placement, data) => (
                octant_placement,
                data,
            ),
            AssignmentControlFlow::AssignNextWhenNew(octant_placement, data) => (
                octant_placement,
                data,
            ),
        }
    }
}

/// What a conditional-subdivision predicate tells the engine: `Continue`
/// carries the payloads for the children about to be created.
#[derive(Debug)]
pub enum SubdivisionControlFlow<T> {
    /// Subdivide the visited node now, using the carried payloads.
    Continue(T),
    /// Abort the whole traversal at the visited node.
    Break,
    /// Do not subdivide the visited node, but keep traversing.
    Skip,
}

impl<T> SubdivisionControlFlow<T> {
    /// Tag `octant_id` with this decision's search control flow.
    pub fn to_result<OctantId>(&self, octant_id: OctantId) -> (r: SearchControlFlowResult<
        OctantId,
    >)
        ensures
            r == match *self {
                SubdivisionControlFlow::Continue(_) => SearchControlFlowResult::Continue(
                    octant_id,
                ),
                SubdivisionControlFlow::Skip => SearchControlFlowResult::Skip(octant_id),
                SubdivisionControlFlow::Break => SearchControlFlowResult::Break(octant_id),
            },
    {
        match *self {
            SubdivisionControlFlow::Continue(_) => SearchControlFlowResult::Continue(octant_id),
            SubdivisionControlFlow::Skip => SearchControlFlowResult::Skip(octant_id),
            SubdivisionControlFlow::Break => SearchControlFlowResult::Break(octant_id),
        }
    }
}

/// A callback for read-only traversals: called once per visited node.
pub trait SearchVisitor {
    /// Decide how the traversal proceeds from this node.
    fn visit(&mut self, depth: Depth, octant_id: &MortonOctantId) -> SearchControlFlow;
}

/// A callback for mutating traversals: may edit the visited node's payload
/// in place.
pub trait SearchVisitorMut<Data> {
    /// Decide how the traversal proceeds from this node.
    fn visit_mut(
        &mut self,
        depth: Depth,
        octant_id: &MortonOctantId,
        data: &mut Data,
    ) -> SearchControlFlow;
}

/// A callback steering a guided descent: names the child placement to
/// descend into, or `None` to stop.
pub trait SearchGuide {
    /// Pick the next child placement, or stop.
    fn guide(&mut self, depth: Depth, octant_id: &MortonOctantId) -> Option<OctantPlacement>;
}

/// A callback steering a guided descent that may edit the visited node's
/// payload in place.
pub trait SearchGuideMut<Data> {
    /// Pick the next child placement, or stop.
    fn guide_mut(
        &mut self,
        depth: Depth,
        octant_id: &MortonOctantId,
        data: &mut Data,
    ) -> Option<OctantPlacement>;
}

/// A callback steering a drill: may create, replace or conditionally skip
/// the next child, or stop.
pub trait DrillGuide<Data> {
    /// Choose the assignment for the next level, or stop.
    fn drill_step(
        &mut self,
        depth: Depth,
        octant_id: &MortonOctantId,
        data: &mut Data,
    ) -> Option<AssignmentControlFlow<Data>>;
}

/// A callback deciding conditional subdivision; `Continue` carries one
/// payload per child placement, in the fixed placement order.
pub trait SubdivisionPredicate<Data> {
    /// Decide whether the visited node is subdivided.  A `Continue` whose
    /// vector does not hold exactly eight payloads counts as `Skip`.
    fn decide(
        &mut self,
        depth: Depth,
        octant_id: &MortonOctantId,
        data: &mut Data,
    ) -> SubdivisionControlFlow<Vec<Data>>;
}

/// A callback deciding conditional subdivision where each child is
/// optional; `Continue` carries one optional payload per placement.
pub trait SubdivisionMaybePredicate<Data> {
    /// Decide whether the visited node is subdivided.  A `Continue` whose
    /// vector does not hold exactly eight slots counts as `Skip`.
    fn decide_some(
        &mut self,
        depth: Depth,
        octant_id: &MortonOctantId,
        data: &mut Data,
    ) -> SubdivisionControlFlow<Vec<Option<Data>>>;
}


/// One visit a search engine made: the depth and identifier handed to
/// the callback, and the control flow the callback answered.  Engines
/// return their complete visit log as ghost data, so callers can reason
/// about what was visited, in which order, and what each answer did.
pub type SearchVisit = (Depth, MortonOctantId, SearchControlFlow);

/// The identifiers of a visit log, in visit order.
pub open spec fn visit_ids(log: Seq<SearchVisit>) -> Seq<MortonOctantId> {
    log.map_values(|v: SearchVisit| v.1)
}

/// The depth-tagged identifiers of a visit log, in visit order.
pub open spec fn visit_levels(log: Seq<SearchVisit>) -> Seq<(Depth, MortonOctantId)> {
    log.map_values(|v: SearchVisit| (v.0, v.1))
}

/// The traversal result a visit stands for: its control flow carrying
/// its identifier.
pub open spec fn flow_result_of(v: SearchVisit) -> SearchControlFlowResult<MortonOctantId> {
    match v.2 {
        SearchControlFlow::Continue => SearchControlFlowResult::Continue(v.1),
        SearchControlFlow::Skip => SearchControlFlowResult::Skip(v.1),
        SearchControlFlow::Break => SearchControlFlowResult::Break(v.1),
    }
}

/// Whether every visit before the last, if any, answered `Continue`:
/// such a log is an unbroken pre-order or level-order prefix.
pub open spec fn continue_prefix(log: Seq<SearchVisit>) -> bool {
    forall|i: int|
        0 <= i < log.len() - 1 ==> (#[trigger] log[i]).2 == SearchControlFlow::Continue
}

/// Whether every visit in the log answered `Continue`.
pub open spec fn all_continue(log: Seq<SearchVisit>) -> bool {
    forall|i: int|
        0 <= i < log.len() ==> (#[trigger] log[i]).2 == SearchControlFlow::Continue
}

/// Whether no visit before the last answered `Break`: a traversal stops
/// at the first `Break` it is given.
pub open spec fn break_only_last(log: Seq<SearchVisit>) -> bool {
    forall|i: int| 0 <= i < log.len() - 1 ==> (#[trigger] log[i]).2 != SearchControlFlow::Break
}

/// Every visited node exists, lies in the traversal's subtree, and is
/// handed its own depth.
pub open spec fn visits_ok<D>(
    m: Map<MortonOctantId, D>,
    start: MortonOctantId,
    log: Seq<SearchVisit>,
) -> bool {
    forall|i: int|
        0 <= i < log.len() ==> {
            let v = #[trigger] log[i];
            &&& m.dom().contains(v.1)
            &&& subtree_of(start).contains(v.1)
            &&& v.0 as nat == v.1.depth_spec()
        }
}

/// One step a guided descent recorded: the depth and identifier handed
/// to the guide, and the placement the guide picked, if any.
pub type GuideVisit = (Depth, MortonOctantId, Option<OctantPlacement>);

/// A recorded descent step is sound: the guide picked a placement, and
/// the next visit is exactly that existing child, one level deeper.
pub open spec fn guide_step_ok<D>(m: Map<MortonOctantId, D>, a: GuideVisit, b: GuideVisit) -> bool {
    match a.2 {
        Some(p) => b.1 == crate::octant_storage_trait::child_of(a.1, p.index_spec())
            && m.dom().contains(b.1) && b.0 == a.0 + 1,
        None => false,
    }
}

/// When a picked child cannot be looked up, it does not exist.
proof fn lemma_stopped_child_absent<D>(
    m: Map<MortonOctantId, D>,
    max_depth: nat,
    current: MortonOctantId,
    placement: OctantPlacement,
)
    requires
        crate::octant_storage_trait::existing_child_spec(m, max_depth, current, placement) is Err,
        m.dom().contains(current),
        forall|id: MortonOctantId| #[trigger]
            m.dom().contains(id) ==> id.well_formed() && id.depth_spec() <= max_depth,
    ensures
        !m.dom().contains(crate::octant_storage_trait::child_of(current, placement.index_spec())),
{
    let child = crate::octant_storage_trait::child_of(current, placement.index_spec());
    if m.dom().contains(child) {
        if current.depth_spec() >= max_depth {
            crate::morton_based_storage::hashed_octant_storage::lemma_wf_child_space(
                current.as_nat(),
            );
            assert(child.as_nat() == crate::morton_based_storage::morton_octant_id::child_code(
                current.as_nat(),
                placement.index_spec(),
            ));
            crate::morton_based_storage::morton_octant_id::lemma_child_code(
                current.as_nat(),
                placement.index_spec(),
            );
            assert(child.depth_spec() > max_depth);
            assert(false);
        }
    }
}

/// Single-path descent: at each level the guide picks an existing child
/// to descend into; a `None`, or a picked placement with no existing
/// child, stops at the current node.
///
/// Succeeds on every existing start; fails with `InvalidOctantId` iff the
/// start does not exist.  The ghost half of the result is the decision
/// log: each step descends into exactly the picked existing child, and
/// the returned node is where the guide stopped or the picked child was
/// absent.
#[verifier::rlimit(100)]
#[verifier::spinoff_prover]
pub fn guided_search_from_storage<S: OctantStorage, G: SearchGuide>(
    storage: &S,
    octant_id: &MortonOctantId,
    guide_func: &mut G,
) -> (r: (StorageResult<MortonOctantId>, Ghost<Seq<GuideVisit>>))
    requires
        storage.inv(),
    ensures
        ({
            let res = r.0;
            let log = r.1@;
            &&& !storage.contents().dom().contains(*octant_id) <==> res == Err::<
                MortonOctantId,
                StorageError,
            >(StorageError::InvalidOctantId)
            &&& !storage.contents().dom().contains(*octant_id) ==> log.len() == 0
            &&& storage.contents().dom().contains(*octant_id) ==> res is Ok && log.len() >= 1
                && log[0].1 == *octant_id && log[0].0 as nat == octant_id.depth_spec()
            &&& (forall|t: int|
                0 <= t < log.len() ==> {
                    let v = #[trigger] log[t];
                    &&& storage.contents().dom().contains(v.1)
                    &&& subtree_of(*octant_id).contains(v.1)
                    &&& v.0 as nat == v.1.depth_spec()
                })
            &&& (forall|t: int|
                0 <= t < log.len() - 1 ==> guide_step_ok(
                    storage.contents(),
                    #[trigger] log[t],
                    log[t + 1],
                ))
            &&& (res matches Ok(found) ==> found == log.last().1 && match log.last().2 {
                Some(p) => !storage.contents().dom().contains(
                    crate::octant_storage_trait::child_of(log.last().1, p.index_spec()),
                ),
                None => true,
            })
        }),
{
    let start_from_depth = match storage.get_octant_depth(octant_id) {
        Some(d) => d,
        None => {
            return (Err(StorageError::InvalidOctantId), Ghost(Seq::empty()));
        },
    };
    let max_depth = storage.get_max_depth();
    proof {
        storage.lemma_inv();
        assert(code_descends_from(octant_id.as_nat(), octant_id.as_nat()));
    }
    let ghost m = storage.contents();
    let ghost mut log: Seq<GuideVisit> = Seq::empty();
    let mut current_octant_id = *octant_id;
    let mut depth = start_from_depth;
    while depth <= max_depth
        invariant
            storage.inv(),
            m == storage.contents(),
            m.dom().contains(*octant_id),
            m.dom().contains(current_octant_id),
            subtree_of(*octant_id).contains(current_octant_id),
            depth as nat == current_octant_id.depth_spec(),
            depth <= max_depth,
            start_from_depth as nat == octant_id.depth_spec(),
            max_depth as nat == S::max_depth_spec(),
            log.len() == 0 ==> current_octant_id == *octant_id && depth == start_from_depth,
            log.len() >= 1 ==> log[0].1 == *octant_id && log[0].0 == start_from_depth,
            log.len() >= 1 ==> (match log.last().2 {
                Some(p) => current_octant_id == crate::octant_storage_trait::child_of(
                    log.last().1,
                    p.index_spec(),
                ) && depth == log.last().0 + 1,
                None => false,
            }),
            forall|t: int|
                0 <= t < log.len() ==> {
                    let v = #[trigger] log[t];
                    &&& m.dom().contains(v.1)
                    &&& subtree_of(*octant_id).contains(v.1)
                    &&& v.0 as nat == v.1.depth_spec()
                },
            forall|t: int|
                0 <= t < log.len() - 1 ==> guide_step_ok(m, #[trigger] log[t], log[t + 1]),
        decreases max_depth + 1 - depth,
    {
        let answer = guide_func.guide(depth, &current_octant_id);
        proof {
            log = log.push((depth, current_octant_id, answer));
        }
        let next_child_octant = match answer {
            Some(p) => p,
            None => {
                return (Ok(current_octant_id), Ghost(log));
            },
        };
        let next_child_id = match storage.get_existing_child(
            &current_octant_id,
            next_child_octant,
        ) {
            Ok(id) => id,
            Err(_) => {
                proof {
                    storage.lemma_inv();
                    lemma_stopped_child_absent(
                        m,
                        S::max_depth_spec(),
                        current_octant_id,
                        next_child_octant,
                    );
                }
                return (Ok(current_octant_id), Ghost(log));
            },
        };
        proof {
            storage.lemma_inv();
            lemma_step_into_child(
                m,
                S::max_depth_spec(),
                *octant_id,
                current_octant_id,
                next_child_id,
                next_child_octant,
            );
        }
        current_octant_id = next_child_id;
        depth = depth + 1;
    }
    proof {
        assert(false);
    }
    (Err(StorageError::OverMaxDepth(max_depth)), Ghost(log))
}

/// Descending from a node into an existing child keeps every traversal
/// fact: membership, subtree containment, and the depth count.
proof fn lemma_step_into_child<Data>(
    m: Map<MortonOctantId, Data>,
    max_depth: nat,
    start: MortonOctantId,
    current: MortonOctantId,
    child: MortonOctantId,
    placement: OctantPlacement,
)
    requires
        crate::octant_storage_trait::existing_child_spec(m, max_depth, current, placement) == Ok::<
            MortonOctantId,
            StorageError,
        >(child),
        m.dom().contains(current),
        subtree_of(start).contains(current),
        forall|id: MortonOctantId| #[trigger]
            m.dom().contains(id) ==> id.well_formed() && id.depth_spec() <= max_depth,
    ensures
        m.dom().contains(child),
        subtree_of(start).contains(child),
        child.depth_spec() == current.depth_spec() + 1,
        current.depth_spec() < max_depth,
{
    let digit = placement.index_spec();
    crate::morton_based_storage::hashed_octant_storage::lemma_wf_child_space(current.as_nat());
    assert(child.as_nat() == crate::morton_based_storage::morton_octant_id::child_code(
        current.as_nat(),
        digit,
    ));
    crate::morton_based_storage::morton_octant_id::lemma_child_code(current.as_nat(), digit);
    assert(code_descends_from(current.as_nat(), current.as_nat()));
    assert(child.as_nat() >= 8);
    assert(code_descends_from(child.as_nat(), current.as_nat()));
    lemma_descends_trans(child.as_nat(), current.as_nat(), start.as_nat());
}

/// Subtree membership is transitive.
pub proof fn lemma_descends_trans(a: nat, b: nat, c: nat)
    requires
        code_descends_from(a, b),
        code_descends_from(b, c),
    ensures
        code_descends_from(a, c),
    decreases a,
{
    if a != b {
        lemma_descends_trans(a / 8, b, c);
    }
}

/// Single-path descent whose guide may edit each visited node's payload
/// in place; stops and succeeds exactly as `guided_search_from_storage`,
/// with the same decision-log guarantees, and nodes outside the start's
/// subtree keep their payloads.
#[verifier::rlimit(100)]
#[verifier::spinoff_prover]
pub fn guided_search_from_storage_mut<S: ModifiableOctantStorage, G: SearchGuideMut<S::Data>>(
    storage: &mut S,
    octant_id: &MortonOctantId,
    guide_func: &mut G,
) -> (r: (StorageResult<MortonOctantId>, Ghost<Seq<GuideVisit>>))
    requires
        old(storage).inv(),
    ensures
        ({
            let res = r.0;
            let log = r.1@;
            &&& final(storage).inv()
            &&& final(storage).contents().dom() == old(storage).contents().dom()
            &&& (forall|k: MortonOctantId|
                !subtree_of(*octant_id).contains(k) && old(storage).contents().dom().contains(k)
                    ==> final(storage).contents()[k] == old(storage).contents()[k])
            &&& !old(storage).contents().dom().contains(*octant_id) <==> res == Err::<
                MortonOctantId,
                StorageError,
            >(StorageError::InvalidOctantId)
            &&& !old(storage).contents().dom().contains(*octant_id) ==> log.len() == 0 && final(storage).contents() == old(storage).contents()
            &&& old(storage).contents().dom().contains(*octant_id) ==> res is Ok && log.len() >= 1
                && log[0].1 == *octant_id && log[0].0 as nat == octant_id.depth_spec()
            &&& (forall|t: int|
                0 <= t < log.len() ==> {
                    let v = #[trigger] log[t];
                    &&& final(storage).contents().dom().contains(v.1)
                    &&& subtree_of(*octant_id).contains(v.1)
                    &&& v.0 as nat == v.1.depth_spec()
                })
            &&& (forall|t: int|
                0 <= t < log.len() - 1 ==> guide_step_ok(
                    final(storage).contents(),
                    #[trigger] log[t],
                    log[t + 1],
                ))
            &&& (res matches Ok(found) ==> found == log.last().1 && match log.last().2 {
                Some(p) => !final(storage).contents().dom().contains(
                    crate::octant_storage_trait::child_of(log.last().1, p.index_spec()),
                ),
                None => true,
            })
        }),
{
    let start_from_depth = match storage.get_octant_depth(octant_id) {
        Some(d) => d,
        None => {
            return (Err(StorageError::InvalidOctantId), Ghost(Seq::empty()));
        },
    };
    let max_depth = storage.get_max_depth();
    proof {
        storage.lemma_inv();
        assert(code_descends_from(octant_id.as_nat(), octant_id.as_nat()));
    }
    let ghost m0 = storage.contents();
    let ghost mut log: Seq<GuideVisit> = Seq::empty();
    let mut current_octant_id = *octant_id;
    let mut depth = start_from_depth;
    while depth <= max_depth
        invariant
            storage.inv(),
            m0 == old(storage).contents(),
            storage.contents().dom() == m0.dom(),
            forall|k: MortonOctantId|
                !subtree_of(*octant_id).contains(k) && m0.dom().contains(k)
                    ==> storage.contents()[k] == m0[k],
            storage.contents().dom().contains(*octant_id),
            storage.contents().dom().contains(current_octant_id),
            subtree_of(*octant_id).contains(current_octant_id),
            depth as nat == current_octant_id.depth_spec(),
            depth <= max_depth,
            start_from_depth as nat == octant_id.depth_spec(),
            max_depth as nat == S::max_depth_spec(),
            log.len() == 0 ==> current_octant_id == *octant_id && depth == start_from_depth,
            log.len() >= 1 ==> log[0].1 == *octant_id && log[0].0 == start_from_depth,
            log.len() >= 1 ==> (match log.last().2 {
                Some(p) => current_octant_id == crate::octant_storage_trait::child_of(
                    log.last().1,
                    p.index_spec(),
                ) && depth == log.last().0 + 1,
                None => false,
            }),
            forall|t: int|
                0 <= t < log.len() ==> {
                    let v = #[trigger] log[t];
                    &&& storage.contents().dom().contains(v.1)
                    &&& subtree_of(*octant_id).contains(v.1)
                    &&& v.0 as nat == v.1.depth_spec()
                },
            forall|t: int|
                0 <= t < log.len() - 1 ==> guide_step_ok(
                    storage.contents(),
                    #[trigger] log[t],
                    log[t + 1],
                ),
        decreases max_depth + 1 - depth,
    {
        let ghost m_iter = storage.contents();
        let answer = {
            let data = match storage.get_octant_mut(&current_octant_id) {
                Some(d) => d,
                None => {
                    proof {
                        assert(false);
                    }
                    return (Err(StorageError::InvalidOctantId), Ghost(log));
                },
            };
            guide_func.guide_mut(depth, &current_octant_id, data)
        };
        proof {
            assert(storage.contents().dom() =~= m_iter.dom());
            assert forall|t: int|
                0 <= t < log.len() - 1 implies guide_step_ok(
                storage.contents(),
                #[trigger] log[t],
                log[t + 1],
            ) by {
                assert(guide_step_ok(m_iter, log[t], log[t + 1]));
            }
            log = log.push((depth, current_octant_id, answer));
        }
        let next_child_octant = match answer {
            Some(p) => p,
            None => {
                return (Ok(current_octant_id), Ghost(log));
            },
        };
        let next_child_id = match storage.get_existing_child(
            &current_octant_id,
            next_child_octant,
        ) {
            Ok(id) => id,
            Err(_) => {
                proof {
                    storage.lemma_inv();
                    lemma_stopped_child_absent(
                        storage.contents(),
                        S::max_depth_spec(),
                        current_octant_id,
                        next_child_octant,
                    );
                }
                return (Ok(current_octant_id), Ghost(log));
            },
        };
        proof {
            storage.lemma_inv();
            lemma_step_into_child(
                storage.contents(),
                S::max_depth_spec(),
                *octant_id,
                current_octant_id,
                next_child_id,
                next_child_octant,
            );
        }
        current_octant_id = next_child_id;
        depth = depth + 1;
    }
    proof {
        assert(false);
    }
    (Err(StorageError::OverMaxDepth(max_depth)), Ghost(log))
}

/// Depth-first pre-order search: visit a node; on `Continue` recurse into
/// each existing child in the fixed placement order; `Skip` cuts the
/// branch, `Break` aborts the whole call stack at once.
///
/// Fails with `InvalidOctantId` iff the start does not exist, and with
/// `OverMaxDepth` iff a visit answers `Continue` at the depth limit.
/// The ghost half of the result is the complete visit log: a run whose
/// every answer is `Continue` visits exactly `dfs_order_spec`, a `Break`
/// is always the last visit and names the returned node.
pub fn depth_first_search_from_storage<S: OctantStorage, V: SearchVisitor>(
    storage: &S,
    octant_id: &MortonOctantId,
    search_func: &mut V,
) -> (r: (StorageResult<SearchControlFlowResult<MortonOctantId>>, Ghost<Seq<SearchVisit>>))
    requires
        storage.inv(),
    ensures
        ({
            let res = r.0;
            let log = r.1@;
            &&& !storage.contents().dom().contains(*octant_id) <==> res == Err::<
                SearchControlFlowResult<MortonOctantId>,
                StorageError,
            >(StorageError::InvalidOctantId)
            &&& !storage.contents().dom().contains(*octant_id) ==> log.len() == 0
            &&& storage.contents().dom().contains(*octant_id) ==> log.len() >= 1 && log[0].0
                as nat == octant_id.depth_spec() && log[0].1 == *octant_id
            &&& visits_ok(storage.contents(), *octant_id, log)
            &&& break_only_last(log)
            &&& (res matches Ok(flow) ==> storage.contents().dom().contains(flow.carried_id())
                && subtree_of(*octant_id).contains(flow.carried_id()))
            &&& (res matches Ok(flow) ==> log.len() > 0 && res == Ok::<
                SearchControlFlowResult<MortonOctantId>,
                StorageError,
            >(flow_result_of(log.last())))
            &&& (log.len() > 0 && log.last().2 == SearchControlFlow::Break ==> res == Ok::<
                SearchControlFlowResult<MortonOctantId>,
                StorageError,
            >(SearchControlFlowResult::Break(log.last().1)))
            &&& (res matches Ok(SearchControlFlowResult::Break(b)) ==> log.len() > 0
                && log.last().2 == SearchControlFlow::Break && b == log.last().1)
            &&& (storage.contents().dom().contains(*octant_id) && res is Err ==> res == Err::<
                SearchControlFlowResult<MortonOctantId>,
                StorageError,
            >(StorageError::OverMaxDepth(S::max_depth_spec() as u8)) && log.last().2
                == SearchControlFlow::Continue)
            &&& (storage.contents().dom().contains(*octant_id) && all_continue(log) && res is Ok
                ==> visit_ids(log) == dfs_order_spec(
                storage.contents(),
                *octant_id,
                (17 - octant_id.depth_spec()) as nat,
            ))
            &&& (storage.contents().dom().contains(*octant_id) && continue_prefix(log)
                ==> log.len() <= dfs_order_spec(
                storage.contents(),
                *octant_id,
                (17 - octant_id.depth_spec()) as nat,
            ).len() && visit_ids(log) == dfs_order_spec(
                storage.contents(),
                *octant_id,
                (17 - octant_id.depth_spec()) as nat,
            ).take(log.len() as int))
        }),
{
    let start_from_depth = match storage.get_octant_depth(octant_id) {
        Some(d) => d,
        None => {
            return (Err(StorageError::InvalidOctantId), Ghost(Seq::empty()));
        },
    };
    let max_depth = storage.get_max_depth();
    depth_first_search_recursive(storage, start_from_depth, octant_id, search_func, max_depth)
}

/// Concatenating two nonempty visit logs: indices, projections and the
/// continue/break shapes compose.
proof fn lemma_log_concat_facts(a: Seq<SearchVisit>, b: Seq<SearchVisit>)
    requires
        a.len() > 0,
        b.len() > 0,
    ensures
        (a + b).len() == a.len() + b.len(),
        (a + b)[0] == a[0],
        (a + b).last() == b.last(),
        visit_ids(a + b) == visit_ids(a) + visit_ids(b),
        visit_levels(a + b) == visit_levels(a) + visit_levels(b),
        all_continue(a + b) <==> all_continue(a) && all_continue(b),
        (forall|t: int| 0 <= t < a.len() ==> (#[trigger] a[t]).2 != SearchControlFlow::Break)
            && break_only_last(b) ==> break_only_last(a + b),
        (forall|t: int| 0 <= t < a.len() ==> (#[trigger] a[t]).2 != SearchControlFlow::Break)
            && (forall|t: int|
            0 <= t < b.len() ==> (#[trigger] b[t]).2 != SearchControlFlow::Break) ==> (forall|
            t: int,
        |
            0 <= t < (a + b).len() ==> (#[trigger] (a + b)[t]).2 != SearchControlFlow::Break),
{
    assert(visit_ids(a + b) =~= visit_ids(a) + visit_ids(b));
    assert(visit_levels(a + b) =~= visit_levels(a) + visit_levels(b));
    if all_continue(a) && all_continue(b) {
        assert forall|i: int|
            0 <= i < (a + b).len() implies (#[trigger] (a + b)[i]).2
            == SearchControlFlow::Continue by {
            if i < a.len() {
                assert((a + b)[i] == a[i]);
            } else {
                assert((a + b)[i] == b[i - a.len()]);
            }
        }
    }
    if all_continue(a + b) {
        assert forall|i: int|
            0 <= i < a.len() implies (#[trigger] a[i]).2 == SearchControlFlow::Continue by {
            assert((a + b)[i] == a[i]);
        }
        assert forall|i: int|
            0 <= i < b.len() implies (#[trigger] b[i]).2 == SearchControlFlow::Continue by {
            assert((a + b)[i + a.len()] == b[i]);
        }
    }
}

/// Visit logs over the same storage and subtree concatenate.
proof fn lemma_visits_ok_concat<D>(
    m: Map<MortonOctantId, D>,
    start: MortonOctantId,
    a: Seq<SearchVisit>,
    b: Seq<SearchVisit>,
)
    requires
        visits_ok(m, start, a),
        visits_ok(m, start, b),
    ensures
        visits_ok(m, start, a + b),
{
    assert forall|i: int|
        0 <= i < (a + b).len() implies {
        let v = #[trigger] (a + b)[i];
        &&& m.dom().contains(v.1)
        &&& subtree_of(start).contains(v.1)
        &&& v.0 as nat == v.1.depth_spec()
    } by {
        if i < a.len() {
            assert((a + b)[i] == a[i]);
        } else {
            assert((a + b)[i] == b[i - a.len()]);
        }
    }
}

/// Every visit inside a child's subtree also lies inside the parent's.
proof fn lemma_visits_lift<D>(
    m: Map<MortonOctantId, D>,
    parent: MortonOctantId,
    child: MortonOctantId,
    log: Seq<SearchVisit>,
)
    requires
        visits_ok(m, child, log),
        code_descends_from(child.as_nat(), parent.as_nat()),
    ensures
        visits_ok(m, parent, log),
{
    assert forall|i: int|
        0 <= i < log.len() implies {
        let v = #[trigger] log[i];
        &&& m.dom().contains(v.1)
        &&& subtree_of(parent).contains(v.1)
        &&& v.0 as nat == v.1.depth_spec()
    } by {
        lemma_descends_trans(log[i].1.as_nat(), child.as_nat(), parent.as_nat());
    }
}

/// Whether no visit in the log answered `Break`.
pub open spec fn no_break(log: Seq<SearchVisit>) -> bool {
    forall|t: int| 0 <= t < log.len() ==> (#[trigger] log[t]).2 != SearchControlFlow::Break
}

/// A log whose only permitted `Break` position is not a `Break` has none.
proof fn lemma_no_break_from_last(log: Seq<SearchVisit>)
    requires
        break_only_last(log),
        log.len() > 0,
        log.last().2 != SearchControlFlow::Break,
    ensures
        no_break(log),
{
}

/// The shape a depth-first child loop keeps its log in: it opens with the
/// parent's own `Continue` visit, stays inside the parent's subtree,
/// holds no `Break`, and — if nothing was skipped — reads exactly as the
/// pre-order of the children processed so far.
pub open spec fn dfs_loop_log_inv<D>(
    m: Map<MortonOctantId, D>,
    start: MortonOctantId,
    depth: Depth,
    fuel: nat,
    i: nat,
    log: Seq<SearchVisit>,
) -> bool {
    &&& log.len() >= 1
    &&& log[0].0 == depth && log[0].1 == start && log[0].2 == SearchControlFlow::Continue
    &&& visits_ok(m, start, log)
    &&& no_break(log)
    &&& (all_continue(log) ==> visit_ids(log) == seq![start] + dfs_children_order(
        m,
        start,
        fuel,
        i,
    ))
}

/// Taking past one concatenand reaches into the next.
proof fn lemma_take_concat<T>(a: Seq<T>, b: Seq<T>, k: int)
    requires
        0 <= k <= b.len(),
    ensures
        (a + b).take(a.len() + k) == a + b.take(k),
{
    assert((a + b).take(a.len() + k) =~= a + b.take(k));
}

/// Each child-order prefix is a prefix of the full eight-child order.
proof fn lemma_children_order_monotone<D>(
    m: Map<MortonOctantId, D>,
    id: MortonOctantId,
    fuel: nat,
    i: nat,
    j: nat,
)
    requires
        i <= j,
    ensures
        dfs_children_order(m, id, fuel, i).len() <= dfs_children_order(m, id, fuel, j).len(),
        dfs_children_order(m, id, fuel, j).take(
            dfs_children_order(m, id, fuel, i).len() as int,
        ) == dfs_children_order(m, id, fuel, i),
    decreases j,
{
    if i < j {
        lemma_children_order_monotone(m, id, fuel, i, (j - 1) as nat);
        let prev = dfs_children_order(m, id, fuel, (j - 1) as nat);
        let cur = dfs_children_order(m, id, fuel, j);
        let short = dfs_children_order(m, id, fuel, i);
        assert(cur == prev + dfs_order_spec(
            m,
            crate::octant_storage_trait::child_of(id, (j - 1) as nat),
            fuel,
        ));
        assert(cur.take(short.len() as int) =~= short);
    } else {
        assert(dfs_children_order(m, id, fuel, j).take(
            dfs_children_order(m, id, fuel, i).len() as int,
        ) =~= dfs_children_order(m, id, fuel, i));
    }
}

/// A one-visit log is the length-one prefix of the node's pre-order.
proof fn lemma_dfs_prefix_singleton<D>(
    m: Map<MortonOctantId, D>,
    id: MortonOctantId,
    fuel: nat,
    log: Seq<SearchVisit>,
)
    requires
        m.dom().contains(id),
        fuel >= 1,
        log.len() == 1,
        log[0].1 == id,
    ensures
        log.len() <= dfs_order_spec(m, id, fuel).len(),
        visit_ids(log) == dfs_order_spec(m, id, fuel).take(log.len() as int),
{
    let order = dfs_order_spec(m, id, fuel);
    assert(order == seq![id] + dfs_children_order(m, id, (fuel - 1) as nat, 8));
    assert(visit_ids(log) =~= seq![id]);
    assert(order.take(1) =~= seq![id]);
}

/// Appending a child's unbroken-prefix log keeps the whole log an
/// unbroken prefix of the full pre-order.
proof fn lemma_dfs_prefix_concat<D>(
    m: Map<MortonOctantId, D>,
    id: MortonOctantId,
    fuel: nat,
    i: nat,
    prev: Seq<SearchVisit>,
    child_log: Seq<SearchVisit>,
)
    requires
        i < 8,
        prev.len() >= 1,
        child_log.len() >= 1,
        all_continue(prev) ==> visit_ids(prev) == seq![id] + dfs_children_order(m, id, fuel, i),
        continue_prefix(child_log) ==> child_log.len() <= dfs_order_spec(
            m,
            crate::octant_storage_trait::child_of(id, i),
            fuel,
        ).len() && visit_ids(child_log) == dfs_order_spec(
            m,
            crate::octant_storage_trait::child_of(id, i),
            fuel,
        ).take(child_log.len() as int),
    ensures
        continue_prefix(prev + child_log) ==> (prev + child_log).len() <= (seq![id]
            + dfs_children_order(m, id, fuel, 8)).len() && visit_ids(prev + child_log) == (seq![
            id,
        ] + dfs_children_order(m, id, fuel, 8)).take((prev + child_log).len() as int),
{
    let log = prev + child_log;
    if continue_prefix(log) {
        assert forall|t: int|
            0 <= t < prev.len() implies (#[trigger] prev[t]).2 == SearchControlFlow::Continue by {
            assert(log[t] == prev[t]);
        }
        assert forall|t: int|
            0 <= t < child_log.len() - 1 implies (#[trigger] child_log[t]).2
            == SearchControlFlow::Continue by {
            assert(log[t + prev.len()] == child_log[t]);
        }
        let child = crate::octant_storage_trait::child_of(id, i);
        let order = dfs_order_spec(m, child, fuel);
        let k = child_log.len() as int;
        let head = seq![id] + dfs_children_order(m, id, fuel, i);
        assert(visit_ids(log) =~= visit_ids(prev) + visit_ids(child_log));
        assert(visit_ids(log) == head + order.take(k));
        lemma_children_order_monotone(m, id, fuel, i + 1, 8);
        let full = seq![id] + dfs_children_order(m, id, fuel, 8);
        assert(dfs_children_order(m, id, fuel, (i + 1) as nat) == dfs_children_order(
            m,
            id,
            fuel,
            i,
        ) + order);
        lemma_take_concat(head, order, k);
        assert(head + order =~= seq![id] + dfs_children_order(m, id, fuel, (i + 1) as nat));
        assert(full.take((head + order).len() as int) =~= head + order);
        assert(full.take(log.len() as int) =~= (head + order).take(log.len() as int)) by {
            assert(log.len() <= (head + order).len());
        }
        assert((head + order).take(log.len() as int) == head + order.take(k)) by {
            assert(log.len() as int == head.len() + k);
        }
    }
}

/// Appending a child's finished log keeps the loop invariant, one child
/// further along.
proof fn lemma_dfs_extend_ok<D>(
    m: Map<MortonOctantId, D>,
    start: MortonOctantId,
    depth: Depth,
    fuel: nat,
    i: nat,
    prev: Seq<SearchVisit>,
    child_log: Seq<SearchVisit>,
)
    requires
        dfs_loop_log_inv(m, start, depth, fuel, i, prev),
        i < 8,
        child_log.len() >= 1,
        visits_ok(m, start, child_log),
        no_break(child_log),
        all_continue(child_log) ==> visit_ids(child_log) == dfs_order_spec(
            m,
            crate::octant_storage_trait::child_of(start, i),
            fuel,
        ),
    ensures
        dfs_loop_log_inv(m, start, depth, fuel, i + 1, prev + child_log),
        (prev + child_log).last() == child_log.last(),
{
    lemma_log_concat_facts(prev, child_log);
    lemma_visits_ok_concat(m, start, prev, child_log);
    let log = prev + child_log;
    if all_continue(log) {
        assert(dfs_children_order(m, start, fuel, i + 1) == dfs_children_order(m, start, fuel, i)
            + dfs_order_spec(m, crate::octant_storage_trait::child_of(start, i), fuel));
        assert(visit_ids(log) =~= seq![start] + dfs_children_order(m, start, fuel, i + 1));
    }
}

/// A child slot with no existing child contributes nothing to the
/// pre-order, so the loop invariant advances unchanged.
proof fn lemma_dfs_absent_child<D>(
    m: Map<MortonOctantId, D>,
    start: MortonOctantId,
    depth: Depth,
    fuel: nat,
    i: nat,
    log: Seq<SearchVisit>,
)
    requires
        dfs_loop_log_inv(m, start, depth, fuel, i, log),
        i < 8,
        !m.dom().contains(crate::octant_storage_trait::child_of(start, i)),
    ensures
        dfs_loop_log_inv(m, start, depth, fuel, i + 1, log),
{
    let child = crate::octant_storage_trait::child_of(start, i);
    if all_continue(log) {
        assert(dfs_order_spec(m, child, fuel) =~= Seq::<MortonOctantId>::empty());
        assert(dfs_children_order(m, start, fuel, i + 1) == dfs_children_order(m, start, fuel, i)
            + dfs_order_spec(m, child, fuel));
        assert(visit_ids(log) =~= seq![start] + dfs_children_order(m, start, fuel, i + 1));
    }
}

/// Appending a child's log that ends in the breaking visit yields a log
/// that breaks only at its end.
proof fn lemma_dfs_break_return<D>(
    m: Map<MortonOctantId, D>,
    start: MortonOctantId,
    prev: Seq<SearchVisit>,
    child_log: Seq<SearchVisit>,
)
    requires
        prev.len() >= 1,
        child_log.len() >= 1,
        no_break(prev),
        break_only_last(child_log),
        visits_ok(m, start, prev),
        visits_ok(m, start, child_log),
    ensures
        (prev + child_log).len() >= 1,
        (prev + child_log)[0] == prev[0],
        (prev + child_log).last() == child_log.last(),
        break_only_last(prev + child_log),
        visits_ok(m, start, prev + child_log),
{
    lemma_log_concat_facts(prev, child_log);
    lemma_visits_ok_concat(m, start, prev, child_log);
}

#[verifier::rlimit(100)]
#[verifier::spinoff_prover]
fn depth_first_search_recursive<S: OctantStorage, V: SearchVisitor>(
    storage: &S,
    start_from_depth: Depth,
    octant_id: &MortonOctantId,
    search_func: &mut V,
    max_depth: Depth,
) -> (r: (StorageResult<SearchControlFlowResult<MortonOctantId>>, Ghost<Seq<SearchVisit>>))
    requires
        storage.inv(),
        storage.contents().dom().contains(*octant_id),
        start_from_depth as nat == octant_id.depth_spec(),
        max_depth as nat == S::max_depth_spec(),
    ensures
        ({
            let res = r.0;
            let log = r.1@;
            &&& log.len() >= 1 && log[0].0 == start_from_depth && log[0].1 == *octant_id
            &&& visits_ok(storage.contents(), *octant_id, log)
            &&& break_only_last(log)
            &&& (res matches Ok(flow) ==> storage.contents().dom().contains(flow.carried_id())
                && subtree_of(*octant_id).contains(flow.carried_id()))
            &&& (res matches Ok(flow) ==> log.len() > 0 && res == Ok::<
                SearchControlFlowResult<MortonOctantId>,
                StorageError,
            >(flow_result_of(log.last())))
            &&& (log.last().2 == SearchControlFlow::Break ==> res == Ok::<
                SearchControlFlowResult<MortonOctantId>,
                StorageError,
            >(SearchControlFlowResult::Break(log.last().1)))
            &&& (res matches Ok(SearchControlFlowResult::Break(b)) ==> log.last().2
                == SearchControlFlow::Break && b == log.last().1)
            &&& (res is Err ==> res == Err::<
                SearchControlFlowResult<MortonOctantId>,
                StorageError,
            >(StorageError::OverMaxDepth(max_depth)) && log.last().2
                == SearchControlFlow::Continue)
            &&& (all_continue(log) && res is Ok ==> visit_ids(log) == dfs_order_spec(
                storage.contents(),
                *octant_id,
                (17 - start_from_depth) as nat,
            ))
            &&& (continue_prefix(log) ==> log.len() <= dfs_order_spec(
                storage.contents(),
                *octant_id,
                (17 - start_from_depth) as nat,
            ).len() && visit_ids(log) == dfs_order_spec(
                storage.contents(),
                *octant_id,
                (17 - start_from_depth) as nat,
            ).take(log.len() as int))
        }),
    decreases 17int - start_from_depth,
{
    proof {
        storage.lemma_inv();
        assert(code_descends_from(octant_id.as_nat(), octant_id.as_nat()));
    }
    let ghost m = storage.contents();
    let next_step = search_func.visit(start_from_depth, octant_id);
    let ghost mut log: Seq<SearchVisit> = seq![(start_from_depth, *octant_id, next_step)];
    match next_step {
        SearchControlFlow::Continue => {
            if start_from_depth >= max_depth {
                proof {
                    lemma_dfs_prefix_singleton(
                        m,
                        *octant_id,
                        (17 - start_from_depth) as nat,
                        log,
                    );
                }
                return (Err(StorageError::OverMaxDepth(max_depth)), Ghost(log));
            }
            let ghost fuel = (16 - start_from_depth) as nat;
            proof {
                assert(dfs_children_order(m, *octant_id, fuel, 0) == Seq::<
                    MortonOctantId,
                >::empty());
                assert(visit_ids(log) =~= seq![*octant_id] + dfs_children_order(
                    m,
                    *octant_id,
                    fuel,
                    0,
                ));
                assert(dfs_loop_log_inv(m, *octant_id, start_from_depth, fuel, 0, log));
                assert(seq![*octant_id] + dfs_children_order(m, *octant_id, fuel, 8)
                    == dfs_order_spec(m, *octant_id, fuel + 1));
                lemma_dfs_prefix_singleton(m, *octant_id, fuel + 1, log);
            }
            let mut last_result: SearchControlFlowResult<MortonOctantId> =
                SearchControlFlowResult::Continue(*octant_id);
            let mut i: usize = 0;
            while i < 8
                invariant
                    storage.inv(),
                    m == storage.contents(),
                    m.dom().contains(*octant_id),
                    start_from_depth as nat == octant_id.depth_spec(),
                    start_from_depth < max_depth,
                    max_depth as nat == S::max_depth_spec(),
                    fuel == (16 - start_from_depth) as nat,
                    i <= 8,
                    m.dom().contains(last_result.carried_id()),
                    subtree_of(*octant_id).contains(last_result.carried_id()),
                    !(last_result matches SearchControlFlowResult::Break(_)),
                    last_result == flow_result_of(log.last()),
                    dfs_loop_log_inv(m, *octant_id, start_from_depth, fuel, i as nat, log),
                    continue_prefix(log) ==> log.len() <= (seq![*octant_id]
                        + dfs_children_order(m, *octant_id, fuel, 8)).len() && visit_ids(log) == (
                    seq![*octant_id] + dfs_children_order(m, *octant_id, fuel, 8)).take(
                        log.len() as int,
                    ),
                decreases 8 - i,
            {
                let ghost spec_child = crate::octant_storage_trait::child_of(
                    *octant_id,
                    i as nat,
                );
                let placement = match OctantPlacement::try_from_index(i) {
                    Some(p) => p,
                    None => {
                        proof {
                            assert(false);
                        }
                        return (Err(StorageError::InvalidOctantId), Ghost(log));
                    },
                };
                match storage.get_existing_child(octant_id, placement) {
                    Ok(child_id) => {
                        proof {
                            storage.lemma_inv();
                            crate::octant_meta::lemma_placement_index_bijective();
                            lemma_step_into_child(
                                m,
                                S::max_depth_spec(),
                                *octant_id,
                                *octant_id,
                                child_id,
                                placement,
                            );
                            assert(child_id == spec_child);
                        }
                        let (child_res, child_log) = depth_first_search_recursive(
                            storage,
                            start_from_depth + 1,
                            &child_id,
                            search_func,
                            max_depth,
                        );
                        proof {
                            lemma_visits_lift(m, *octant_id, child_id, child_log@);
                        }
                        let child_step = match child_res {
                            Ok(cs) => cs,
                            Err(e) => {
                                proof {
                                    lemma_no_break_from_last(child_log@);
                                    lemma_dfs_break_return(m, *octant_id, log, child_log@);
                                    lemma_dfs_prefix_concat(
                                        m,
                                        *octant_id,
                                        fuel,
                                        i as nat,
                                        log,
                                        child_log@,
                                    );
                                    log = log + child_log@;
                                    assert(seq![*octant_id] + dfs_children_order(
                                        m,
                                        *octant_id,
                                        fuel,
                                        8,
                                    ) == dfs_order_spec(m, *octant_id, fuel + 1));
                                }
                                return (Err(e), Ghost(log));
                            },
                        };
                        proof {
                            lemma_descends_trans(
                                child_step.carried_id().as_nat(),
                                child_id.as_nat(),
                                octant_id.as_nat(),
                            );
                        }
                        match child_step {
                            SearchControlFlowResult::Continue(step_id) => {
                                proof {
                                    lemma_no_break_from_last(child_log@);
                                    lemma_dfs_extend_ok(
                                        m,
                                        *octant_id,
                                        start_from_depth,
                                        fuel,
                                        i as nat,
                                        log,
                                        child_log@,
                                    );
                                    lemma_dfs_prefix_concat(
                                        m,
                                        *octant_id,
                                        fuel,
                                        i as nat,
                                        log,
                                        child_log@,
                                    );
                                    log = log + child_log@;
                                }
                                last_result = SearchControlFlowResult::Continue(step_id);
                            },
                            SearchControlFlowResult::Skip(step_id) => {
                                proof {
                                    lemma_no_break_from_last(child_log@);
                                    lemma_dfs_extend_ok(
                                        m,
                                        *octant_id,
                                        start_from_depth,
                                        fuel,
                                        i as nat,
                                        log,
                                        child_log@,
                                    );
                                    lemma_dfs_prefix_concat(
                                        m,
                                        *octant_id,
                                        fuel,
                                        i as nat,
                                        log,
                                        child_log@,
                                    );
                                    log = log + child_log@;
                                }
                                last_result = SearchControlFlowResult::Skip(step_id);
                            },
                            SearchControlFlowResult::Break(step_id) => {
                                proof {
                                    lemma_dfs_break_return(m, *octant_id, log, child_log@);
                                    lemma_dfs_prefix_concat(
                                        m,
                                        *octant_id,
                                        fuel,
                                        i as nat,
                                        log,
                                        child_log@,
                                    );
                                    log = log + child_log@;
                                    assert(log.last().2 == SearchControlFlow::Break);
                                    assert(log.last().1 == step_id);
                                    assert(seq![*octant_id] + dfs_children_order(
                                        m,
                                        *octant_id,
                                        fuel,
                                        8,
                                    ) == dfs_order_spec(m, *octant_id, fuel + 1));
                                }
                                return (
                                    Ok(SearchControlFlowResult::Break(step_id)),
                                    Ghost(log),
                                );
                            },
                        }
                    },
                    Err(_) => {
                        proof {
                            lemma_dfs_absent_child(
                                m,
                                *octant_id,
                                start_from_depth,
                                fuel,
                                i as nat,
                                log,
                            );
                        }
                    },
                }
                i = i + 1;
            }
            proof {
                assert((17 - start_from_depth) as nat == fuel + 1);
                assert(dfs_order_spec(m, *octant_id, fuel + 1) == seq![*octant_id]
                    + dfs_children_order(m, *octant_id, fuel, 8));
            }
            (Ok(last_result), Ghost(log))
        },
        SearchControlFlow::Skip => {
            proof {
                lemma_dfs_prefix_singleton(m, *octant_id, (17 - start_from_depth) as nat, log);
            }
            (Ok(SearchControlFlowResult::Skip(*octant_id)), Ghost(log))
        },
        SearchControlFlow::Break => {
            proof {
                lemma_dfs_prefix_singleton(m, *octant_id, (17 - start_from_depth) as nat, log);
            }
            (Ok(SearchControlFlowResult::Break(*octant_id)), Ghost(log))
        },
    }
}

/// The pre-order of a subtree depends only on which identifiers exist.
pub proof fn lemma_dfs_order_same_dom<D>(
    m1: Map<MortonOctantId, D>,
    m2: Map<MortonOctantId, D>,
    id: MortonOctantId,
    fuel: nat,
)
    requires
        m1.dom() == m2.dom(),
    ensures
        dfs_order_spec(m1, id, fuel) == dfs_order_spec(m2, id, fuel),
    decreases fuel, 0int,
{
    if m1.dom().contains(id) && fuel > 0 {
        lemma_dfs_children_same_dom(m1, m2, id, (fuel - 1) as nat, 8);
    }
}

/// The concatenated child pre-orders depend only on which identifiers
/// exist.
pub proof fn lemma_dfs_children_same_dom<D>(
    m1: Map<MortonOctantId, D>,
    m2: Map<MortonOctantId, D>,
    id: MortonOctantId,
    fuel: nat,
    i: nat,
)
    requires
        m1.dom() == m2.dom(),
    ensures
        dfs_children_order(m1, id, fuel, i) == dfs_children_order(m2, id, fuel, i),
    decreases fuel, i,
{
    if i > 0 {
        lemma_dfs_children_same_dom(m1, m2, id, fuel, (i - 1) as nat);
        lemma_dfs_order_same_dom(
            m1,
            m2,
            crate::octant_storage_trait::child_of(id, (i - 1) as nat),
            fuel,
        );
    }
}

/// A visit log stays well-formed under any change that keeps the same
/// identifiers stored.
proof fn lemma_visits_ok_same_dom<D>(
    m1: Map<MortonOctantId, D>,
    m2: Map<MortonOctantId, D>,
    start: MortonOctantId,
    log: Seq<SearchVisit>,
)
    requires
        visits_ok(m1, start, log),
        m1.dom() == m2.dom(),
    ensures
        visits_ok(m2, start, log),
{
}

/// The child-loop log invariant survives any change that keeps the same
/// identifiers stored.
proof fn lemma_dfs_loop_inv_same_dom<D>(
    m1: Map<MortonOctantId, D>,
    m2: Map<MortonOctantId, D>,
    start: MortonOctantId,
    depth: Depth,
    fuel: nat,
    i: nat,
    log: Seq<SearchVisit>,
)
    requires
        dfs_loop_log_inv(m1, start, depth, fuel, i, log),
        m1.dom() == m2.dom(),
    ensures
        dfs_loop_log_inv(m2, start, depth, fuel, i, log),
{
    lemma_visits_ok_same_dom(m1, m2, start, log);
    lemma_dfs_children_same_dom(m1, m2, start, fuel, i);
}

/// Payload confinement composes: if one step preserved everything
/// outside the parent's subtree and the next preserved everything
/// outside a child's subtree, together they preserve everything outside
/// the parent's subtree.
proof fn lemma_confine_chain<D>(
    m0: Map<MortonOctantId, D>,
    m1: Map<MortonOctantId, D>,
    m2: Map<MortonOctantId, D>,
    parent: MortonOctantId,
    child: MortonOctantId,
)
    requires
        code_descends_from(child.as_nat(), parent.as_nat()),
        m0.dom() == m1.dom(),
        forall|k: MortonOctantId|
            !subtree_of(parent).contains(k) && m0.dom().contains(k) ==> m1[k] == m0[k],
        forall|k: MortonOctantId|
            !subtree_of(child).contains(k) && m1.dom().contains(k) ==> m2[k] == m1[k],
    ensures
        forall|k: MortonOctantId|
            !subtree_of(parent).contains(k) && m0.dom().contains(k) ==> m2[k] == m0[k],
{
    assert forall|k: MortonOctantId|
        !subtree_of(parent).contains(k) && m0.dom().contains(k) implies m2[k] == m0[k] by {
        if subtree_of(child).contains(k) {
            lemma_descends_trans(k.as_nat(), child.as_nat(), parent.as_nat());
        }
    }
}

/// A child's whole subtree lies inside its parent's.
proof fn lemma_subtree_mono(parent: MortonOctantId, child: MortonOctantId)
    requires
        code_descends_from(child.as_nat(), parent.as_nat()),
    ensures
        forall|k: MortonOctantId| #[trigger]
            subtree_of(child).contains(k) ==> subtree_of(parent).contains(k),
{
    assert forall|k: MortonOctantId| #[trigger]
        subtree_of(child).contains(k) implies subtree_of(parent).contains(k) by {
        lemma_descends_trans(k.as_nat(), child.as_nat(), parent.as_nat());
    }
}

/// Depth-first pre-order search whose visitor may edit each visited
/// node's payload in place; node structure is never changed, and nodes
/// outside the start's subtree keep their payloads.  The ghost half of
/// the result is the complete visit log, with the same guarantees as the
/// read-only search.
pub fn depth_first_search_from_storage_mut<
    S: ModifiableOctantStorage,
    V: SearchVisitorMut<S::Data>,
>(
    storage: &mut S,
    octant_id: &MortonOctantId,
    search_func: &mut V,
) -> (r: (StorageResult<SearchControlFlowResult<MortonOctantId>>, Ghost<Seq<SearchVisit>>))
    requires
        old(storage).inv(),
    ensures
        ({
            let res = r.0;
            let log = r.1@;
            &&& final(storage).inv()
            &&& final(storage).contents().dom() == old(storage).contents().dom()
            &&& (forall|k: MortonOctantId|
                !subtree_of(*octant_id).contains(k) && old(storage).contents().dom().contains(k)
                    ==> final(storage).contents()[k] == old(storage).contents()[k])
            &&& !old(storage).contents().dom().contains(*octant_id) <==> res == Err::<
                SearchControlFlowResult<MortonOctantId>,
                StorageError,
            >(StorageError::InvalidOctantId)
            &&& !old(storage).contents().dom().contains(*octant_id) ==> log.len() == 0 && final(storage).contents() == old(storage).contents()
            &&& old(storage).contents().dom().contains(*octant_id) ==> log.len() >= 1 && log[0].0
                as nat == octant_id.depth_spec() && log[0].1 == *octant_id
            &&& visits_ok(final(storage).contents(), *octant_id, log)
            &&& break_only_last(log)
            &&& (res matches Ok(flow) ==> final(storage).contents().dom().contains(
                flow.carried_id(),
            ) && subtree_of(*octant_id).contains(flow.carried_id()))
            &&& (res matches Ok(flow) ==> log.len() > 0 && res == Ok::<
                SearchControlFlowResult<MortonOctantId>,
                StorageError,
            >(flow_result_of(log.last())))
            &&& (log.len() > 0 && log.last().2 == SearchControlFlow::Break ==> res == Ok::<
                SearchControlFlowResult<MortonOctantId>,
                StorageError,
            >(SearchControlFlowResult::Break(log.last().1)))
            &&& (res matches Ok(SearchControlFlowResult::Break(b)) ==> log.len() > 0
                && log.last().2 == SearchControlFlow::Break && b == log.last().1)
            &&& (old(storage).contents().dom().contains(*octant_id) && res is Err ==> res
                == Err::<SearchControlFlowResult<MortonOctantId>, StorageError>(
                StorageError::OverMaxDepth(S::max_depth_spec() as u8),
            ) && log.last().2 == SearchControlFlow::Continue)
            &&& (old(storage).contents().dom().contains(*octant_id) && all_continue(log) && res
                is Ok ==> visit_ids(log) == dfs_order_spec(
                final(storage).contents(),
                *octant_id,
                (17 - octant_id.depth_spec()) as nat,
            ))
        }),
{
    let start_from_depth = match storage.get_octant_depth(octant_id) {
        Some(d) => d,
        None => {
            return (Err(StorageError::InvalidOctantId), Ghost(Seq::empty()));
        },
    };
    let max_depth = storage.get_max_depth();
    depth_first_search_recursive_mut(storage, start_from_depth, octant_id, search_func, max_depth)
}

/// What one child slot of a mutating depth-first loop produced: no
/// existing child, a folded-in child verdict, or an early end of the
/// whole traversal.
enum ChildStepOutcome {
    /// The slot holds no child; nothing was visited.
    NoChild,
    /// The child subtree finished with `Continue` or `Skip`.
    Advance(SearchControlFlowResult<MortonOctantId>),
    /// The traversal ends now: a `Break`, or a depth error.
    Halt(StorageResult<SearchControlFlowResult<MortonOctantId>>),
}

/// Process one child slot of a mutating depth-first visit: look the
/// child up, recurse into it when it exists, and extend the visit log.
#[verifier::rlimit(100)]
#[verifier::spinoff_prover]
fn dfs_step_mut<S: ModifiableOctantStorage, V: SearchVisitorMut<S::Data>>(
    storage: &mut S,
    octant_id: &MortonOctantId,
    start_from_depth: Depth,
    i: usize,
    search_func: &mut V,
    max_depth: Depth,
    log: Ghost<Seq<SearchVisit>>,
) -> (r: (ChildStepOutcome, Ghost<Seq<SearchVisit>>))
    requires
        old(storage).inv(),
        old(storage).contents().dom().contains(*octant_id),
        start_from_depth as nat == octant_id.depth_spec(),
        start_from_depth < max_depth,
        max_depth as nat == S::max_depth_spec(),
        i < 8,
        dfs_loop_log_inv(
            old(storage).contents(),
            *octant_id,
            start_from_depth,
            (16 - start_from_depth) as nat,
            i as nat,
            log@,
        ),
    ensures
        ({
            let fuel = (16 - start_from_depth) as nat;
            &&& final(storage).inv()
            &&& final(storage).contents().dom() == old(storage).contents().dom()
            &&& (forall|k: MortonOctantId|
                !subtree_of(*octant_id).contains(k) && old(storage).contents().dom().contains(k)
                    ==> final(storage).contents()[k] == old(storage).contents()[k])
            &&& r.1@.len() >= 1 && r.1@[0] == log@[0]
            &&& match r.0 {
                ChildStepOutcome::NoChild => r.1@ == log@ && dfs_loop_log_inv(
                    final(storage).contents(),
                    *octant_id,
                    start_from_depth,
                    fuel,
                    (i + 1) as nat,
                    r.1@,
                ),
                ChildStepOutcome::Advance(flow) => {
                    &&& !(flow matches SearchControlFlowResult::Break(_))
                    &&& flow == flow_result_of(r.1@.last())
                    &&& final(storage).contents().dom().contains(flow.carried_id())
                    &&& subtree_of(*octant_id).contains(flow.carried_id())
                    &&& dfs_loop_log_inv(
                        final(storage).contents(),
                        *octant_id,
                        start_from_depth,
                        fuel,
                        (i + 1) as nat,
                        r.1@,
                    )
                },
                ChildStepOutcome::Halt(res) => {
                    &&& visits_ok(final(storage).contents(), *octant_id, r.1@)
                    &&& break_only_last(r.1@)
                    &&& match res {
                        Ok(SearchControlFlowResult::Break(b)) => r.1@.last().2
                            == SearchControlFlow::Break && b == r.1@.last().1 && final(storage).contents().dom().contains(b) && subtree_of(*octant_id).contains(b),
                        Ok(_) => false,
                        Err(e) => e == StorageError::OverMaxDepth(max_depth) && r.1@.last().2
                            == SearchControlFlow::Continue && no_break(r.1@),
                    }
                },
            }
        }),
    decreases 17int - start_from_depth, 0int,
{
    let ghost m_iter = storage.contents();
    let ghost fuel = (16 - start_from_depth) as nat;
    let ghost mut log = log@;
    let ghost spec_child = crate::octant_storage_trait::child_of(*octant_id, i as nat);
    let placement = match OctantPlacement::try_from_index(i) {
        Some(p) => p,
        None => {
            proof {
                assert(false);
            }
            return (ChildStepOutcome::NoChild, Ghost(log));
        },
    };
    match storage.get_existing_child(octant_id, placement) {
        Ok(child_id) => {
            proof {
                storage.lemma_inv();
                crate::octant_meta::lemma_placement_index_bijective();
                lemma_step_into_child(
                    storage.contents(),
                    S::max_depth_spec(),
                    *octant_id,
                    *octant_id,
                    child_id,
                    placement,
                );
                assert(child_id == spec_child);
            }
            let (child_res, child_log) = depth_first_search_recursive_mut(
                storage,
                start_from_depth + 1,
                &child_id,
                search_func,
                max_depth,
            );
            proof {
                lemma_subtree_mono(*octant_id, child_id);
                lemma_confine_chain(m_iter, m_iter, storage.contents(), *octant_id, child_id);
                lemma_visits_lift(storage.contents(), *octant_id, child_id, child_log@);
                lemma_dfs_loop_inv_same_dom(
                    m_iter,
                    storage.contents(),
                    *octant_id,
                    start_from_depth,
                    fuel,
                    i as nat,
                    log,
                );
            }
            let child_step = match child_res {
                Ok(cs) => cs,
                Err(e) => {
                    proof {
                        lemma_no_break_from_last(child_log@);
                        lemma_dfs_break_return(storage.contents(), *octant_id, log, child_log@);
                        log = log + child_log@;
                    }
                    return (ChildStepOutcome::Halt(Err(e)), Ghost(log));
                },
            };
            proof {
                lemma_descends_trans(
                    child_step.carried_id().as_nat(),
                    child_id.as_nat(),
                    octant_id.as_nat(),
                );
            }
            match child_step {
                SearchControlFlowResult::Break(step_id) => {
                    proof {
                        lemma_dfs_break_return(storage.contents(), *octant_id, log, child_log@);
                        log = log + child_log@;
                        assert(log.last().2 == SearchControlFlow::Break);
                        assert(log.last().1 == step_id);
                    }
                    (
                        ChildStepOutcome::Halt(Ok(SearchControlFlowResult::Break(step_id))),
                        Ghost(log),
                    )
                },
                flow => {
                    proof {
                        lemma_no_break_from_last(child_log@);
                        lemma_dfs_extend_ok(
                            storage.contents(),
                            *octant_id,
                            start_from_depth,
                            fuel,
                            i as nat,
                            log,
                            child_log@,
                        );
                        log = log + child_log@;
                    }
                    (ChildStepOutcome::Advance(flow), Ghost(log))
                },
            }
        },
        Err(_) => {
            proof {
                lemma_dfs_absent_child(
                    storage.contents(),
                    *octant_id,
                    start_from_depth,
                    fuel,
                    i as nat,
                    log,
                );
            }
            (ChildStepOutcome::NoChild, Ghost(log))
        },
    }
}

#[verifier::rlimit(100)]
#[verifier::spinoff_prover]
fn depth_first_search_recursive_mut<S: ModifiableOctantStorage, V: SearchVisitorMut<S::Data>>(
    storage: &mut S,
    start_from_depth: Depth,
    octant_id: &MortonOctantId,
    search_func: &mut V,
    max_depth: Depth,
) -> (r: (StorageResult<SearchControlFlowResult<MortonOctantId>>, Ghost<Seq<SearchVisit>>))
    requires
        old(storage).inv(),
        old(storage).contents().dom().contains(*octant_id),
        start_from_depth as nat == octant_id.depth_spec(),
        max_depth as nat == S::max_depth_spec(),
    ensures
        ({
            let res = r.0;
            let log = r.1@;
            &&& final(storage).inv()
            &&& final(storage).contents().dom() == old(storage).contents().dom()
            &&& (forall|k: MortonOctantId|
                !subtree_of(*octant_id).contains(k) && old(storage).contents().dom().contains(k)
                    ==> final(storage).contents()[k] == old(storage).contents()[k])
            &&& log.len() >= 1 && log[0].0 == start_from_depth && log[0].1 == *octant_id
            &&& visits_ok(final(storage).contents(), *octant_id, log)
            &&& break_only_last(log)
            &&& (res matches Ok(flow) ==> final(storage).contents().dom().contains(
                flow.carried_id(),
            ) && subtree_of(*octant_id).contains(flow.carried_id()))
            &&& (res matches Ok(flow) ==> log.len() > 0 && res == Ok::<
                SearchControlFlowResult<MortonOctantId>,
                StorageError,
            >(flow_result_of(log.last())))
            &&& (log.last().2 == SearchControlFlow::Break ==> res == Ok::<
                SearchControlFlowResult<MortonOctantId>,
                StorageError,
            >(SearchControlFlowResult::Break(log.last().1)))
            &&& (res matches Ok(SearchControlFlowResult::Break(b)) ==> log.last().2
                == SearchControlFlow::Break && b == log.last().1)
            &&& (res is Err ==> res == Err::<
                SearchControlFlowResult<MortonOctantId>,
                StorageError,
            >(StorageError::OverMaxDepth(max_depth)) && log.last().2
                == SearchControlFlow::Continue)
            &&& (all_continue(log) && res is Ok ==> visit_ids(log) == dfs_order_spec(
                final(storage).contents(),
                *octant_id,
                (17 - start_from_depth) as nat,
            ))
        }),
    decreases 17int - start_from_depth, 1int,
{
    proof {
        storage.lemma_inv();
        assert(code_descends_from(octant_id.as_nat(), octant_id.as_nat()));
    }
    let ghost m0 = storage.contents();
    let next_step = {
        let data = match storage.get_octant_mut(octant_id) {
            Some(d) => d,
            None => {
                proof {
                    assert(false);
                }
                return (Err(StorageError::InvalidOctantId), Ghost(Seq::empty()));
            },
        };
        search_func.visit_mut(start_from_depth, octant_id, data)
    };
    proof {
        assert(storage.contents().dom() =~= m0.dom());
    }
    let ghost mut log: Seq<SearchVisit> = seq![(start_from_depth, *octant_id, next_step)];
    match next_step {
        SearchControlFlow::Continue => {
            if start_from_depth >= max_depth {
                return (Err(StorageError::OverMaxDepth(max_depth)), Ghost(log));
            }
            let ghost fuel = (16 - start_from_depth) as nat;
            proof {
                assert(dfs_children_order(storage.contents(), *octant_id, fuel, 0) == Seq::<
                    MortonOctantId,
                >::empty());
                assert(visit_ids(log) =~= seq![*octant_id] + dfs_children_order(
                    storage.contents(),
                    *octant_id,
                    fuel,
                    0,
                ));
                assert(dfs_loop_log_inv(
                    storage.contents(),
                    *octant_id,
                    start_from_depth,
                    fuel,
                    0,
                    log,
                ));
            }
            let mut last_result: SearchControlFlowResult<MortonOctantId> =
                SearchControlFlowResult::Continue(*octant_id);
            let mut i: usize = 0;
            while i < 8
                invariant
                    storage.inv(),
                    m0 == old(storage).contents(),
                    storage.contents().dom() == m0.dom(),
                    forall|k: MortonOctantId|
                        !subtree_of(*octant_id).contains(k) && m0.dom().contains(k)
                            ==> storage.contents()[k] == m0[k],
                    storage.contents().dom().contains(*octant_id),
                    start_from_depth as nat == octant_id.depth_spec(),
                    start_from_depth < max_depth,
                    max_depth as nat == S::max_depth_spec(),
                    fuel == (16 - start_from_depth) as nat,
                    i <= 8,
                    storage.contents().dom().contains(last_result.carried_id()),
                    subtree_of(*octant_id).contains(last_result.carried_id()),
                    !(last_result matches SearchControlFlowResult::Break(_)),
                    last_result == flow_result_of(log.last()),
                    dfs_loop_log_inv(
                        storage.contents(),
                        *octant_id,
                        start_from_depth,
                        fuel,
                        i as nat,
                        log,
                    ),
                decreases 8 - i,
            {
                let ghost m_iter = storage.contents();
                let (outcome, step_log) = dfs_step_mut(
                    storage,
                    octant_id,
                    start_from_depth,
                    i,
                    search_func,
                    max_depth,
                    Ghost(log),
                );
                proof {
                    log = step_log@;
                    assert(code_descends_from(octant_id.as_nat(), octant_id.as_nat()));
                    lemma_confine_chain(
                        m0,
                        m_iter,
                        storage.contents(),
                        *octant_id,
                        *octant_id,
                    );
                }
                match outcome {
                    ChildStepOutcome::NoChild => {},
                    ChildStepOutcome::Advance(flow) => {
                        match flow {
                            SearchControlFlowResult::Continue(step_id) => {
                                last_result = SearchControlFlowResult::Continue(step_id);
                            },
                            SearchControlFlowResult::Skip(step_id) => {
                                last_result = SearchControlFlowResult::Skip(step_id);
                            },
                            SearchControlFlowResult::Break(_) => {
                                proof {
                                    assert(false);
                                }
                            },
                        }
                    },
                    ChildStepOutcome::Halt(res) => {
                        return (res, Ghost(log));
                    },
                }
                i = i + 1;
            }
            proof {
                if all_continue(log) {
                    assert((17 - start_from_depth) as nat == fuel + 1);
                    assert(dfs_order_spec(storage.contents(), *octant_id, fuel + 1) == seq![
                        *octant_id,
                    ] + dfs_children_order(storage.contents(), *octant_id, fuel, 8));
                }
            }
            (Ok(last_result), Ghost(log))
        },
        SearchControlFlow::Skip => (Ok(SearchControlFlowResult::Skip(*octant_id)), Ghost(log)),
        SearchControlFlow::Break => (Ok(SearchControlFlowResult::Break(*octant_id)), Ghost(log)),
    }
}


/// `9^e`; the termination budget of one queued visit at a given height.
pub open spec fn nine_pow(e: nat) -> nat
    decreases e,
{
    if e == 0 {
        1
    } else {
        9 * nine_pow((e - 1) as nat)
    }
}

/// The termination budget of a queued visit at depth `d`.
pub open spec fn visit_weight(d: Depth) -> nat {
    if d <= 16 {
        nine_pow((17 - d) as nat)
    } else {
        1
    }
}

/// The termination budget of a whole worklist.
pub open spec fn queue_potential(q: Seq<(Depth, MortonOctantId)>) -> nat
    decreases q.len(),
{
    if q.len() == 0 {
        0
    } else {
        visit_weight(q[0].0) + queue_potential(q.drop_first())
    }
}

proof fn lemma_nine_pow_pos(e: nat)
    ensures
        nine_pow(e) >= 1,
    decreases e,
{
    if e > 0 {
        lemma_nine_pow_pos((e - 1) as nat);
    }
}

/// Appending a visit adds exactly its weight to the potential.
proof fn lemma_potential_push(q: Seq<(Depth, MortonOctantId)>, x: (Depth, MortonOctantId))
    ensures
        queue_potential(q.push(x)) == queue_potential(q) + visit_weight(x.0),
    decreases q.len(),
{
    assert(queue_potential(Seq::<(Depth, MortonOctantId)>::empty()) == 0);
    if q.len() == 0 {
        assert(q.push(x).drop_first() =~= Seq::<(Depth, MortonOctantId)>::empty());
        assert(q.push(x)[0] == x);
        assert(queue_potential(q.push(x)) == visit_weight(x.0) + queue_potential(
            q.push(x).drop_first(),
        ));
    } else {
        assert(q.push(x)[0] == q[0]);
        assert(q.push(x).drop_first() =~= q.drop_first().push(x));
        lemma_potential_push(q.drop_first(), x);
        assert(queue_potential(q.push(x)) == visit_weight(q[0].0) + queue_potential(
            q.push(x).drop_first(),
        ));
        assert(queue_potential(q) == visit_weight(q[0].0) + queue_potential(q.drop_first()));
    }
}

/// One level down, eight visits cost less than one visit here.
proof fn lemma_weight_step(d: Depth)
    requires
        d <= 16,
    ensures
        8 * visit_weight((d + 1) as Depth) < visit_weight(d),
        visit_weight((d + 1) as Depth) >= 1,
{
    if d < 16 {
        assert((17 - d) as nat == ((17 - (d + 1)) as nat) + 1);
        lemma_nine_pow_pos((17 - (d + 1)) as nat);
    } else {
        assert(visit_weight(16) == 9 * nine_pow(0));
        assert(visit_weight(17) == 1);
    }
}

/// A worklist entry the breadth-first engines accept: an existing octant
/// inside the traversal's subtree, tagged with its own depth.
pub open spec fn queue_entry_ok<D>(
    m: Map<MortonOctantId, D>,
    start: MortonOctantId,
    e: (Depth, MortonOctantId),
) -> bool {
    &&& m.dom().contains(e.1)
    &&& subtree_of(start).contains(e.1)
    &&& e.0 as nat == e.1.depth_spec()
    &&& e.0 <= 16
}

/// Appending one visit to a log: indices, projections and the
/// continue/break shapes.
proof fn lemma_log_push_facts(prev: Seq<SearchVisit>, rec: SearchVisit)
    ensures
        prev.push(rec).len() == prev.len() + 1,
        prev.push(rec).last() == rec,
        prev.len() > 0 ==> prev.push(rec)[0] == prev[0],
        prev.len() == 0 ==> prev.push(rec)[0] == rec,
        all_continue(prev.push(rec)) <==> all_continue(prev) && rec.2
            == SearchControlFlow::Continue,
        no_break(prev) && rec.2 != SearchControlFlow::Break ==> no_break(prev.push(rec)),
        no_break(prev) ==> break_only_last(prev.push(rec)),
        visit_levels(prev.push(rec)) == visit_levels(prev).push((rec.0, rec.1)),
        visit_ids(prev.push(rec)) == visit_ids(prev).push(rec.1),
{
    let log = prev.push(rec);
    assert(visit_levels(log) =~= visit_levels(prev).push((rec.0, rec.1)));
    assert(visit_ids(log) =~= visit_ids(prev).push(rec.1));
    if all_continue(prev) && rec.2 == SearchControlFlow::Continue {
        assert forall|i: int|
            0 <= i < log.len() implies (#[trigger] log[i]).2 == SearchControlFlow::Continue by {
            if i < prev.len() {
                assert(log[i] == prev[i]);
            }
        }
    }
    if all_continue(log) {
        assert forall|i: int|
            0 <= i < prev.len() implies (#[trigger] prev[i]).2 == SearchControlFlow::Continue by {
            assert(log[i] == prev[i]);
        }
        assert(log.last() == rec);
    }
}

/// A pushed visit to an existing node of the subtree keeps a log
/// well-formed.
proof fn lemma_visits_ok_push<D>(
    m: Map<MortonOctantId, D>,
    start: MortonOctantId,
    prev: Seq<SearchVisit>,
    rec: SearchVisit,
)
    requires
        visits_ok(m, start, prev),
        m.dom().contains(rec.1),
        subtree_of(start).contains(rec.1),
        rec.0 as nat == rec.1.depth_spec(),
    ensures
        visits_ok(m, start, prev.push(rec)),
{
    let log = prev.push(rec);
    assert forall|i: int|
        0 <= i < log.len() implies {
        let v = #[trigger] log[i];
        &&& m.dom().contains(v.1)
        &&& subtree_of(start).contains(v.1)
        &&& v.0 as nat == v.1.depth_spec()
    } by {
        if i < prev.len() {
            assert(log[i] == prev[i]);
        } else {
            assert(log[i] == rec);
        }
    }
}

/// Which children can be enqueued depends only on which identifiers
/// exist.
proof fn lemma_prefix_same_dom<D>(
    m1: Map<MortonOctantId, D>,
    m2: Map<MortonOctantId, D>,
    parent: MortonOctantId,
    child_depth: Depth,
    i: nat,
)
    requires
        m1.dom() == m2.dom(),
    ensures
        enqueued_children_prefix(m1, parent, child_depth, i) == enqueued_children_prefix(
            m2,
            parent,
            child_depth,
            i,
        ),
    decreases i,
{
    if i > 0 {
        lemma_prefix_same_dom(m1, m2, parent, child_depth, (i - 1) as nat);
    }
}

/// The level order of a worklist depends only on which identifiers exist.
pub proof fn lemma_bfs_order_same_dom<D>(
    m1: Map<MortonOctantId, D>,
    m2: Map<MortonOctantId, D>,
    q: Seq<(Depth, MortonOctantId)>,
)
    requires
        m1.dom() == m2.dom(),
    ensures
        bfs_order_spec(m1, q) == bfs_order_spec(m2, q),
    decreases queue_potential(q),
{
    if q.len() != 0 {
        let d = q[0].0;
        assert(queue_potential(q) == visit_weight(d) + queue_potential(q.drop_first()));
        if m1.dom().contains(q[0].1) {
            if d < 16 {
                let tail = enqueued_children_prefix(m1, q[0].1, (d + 1) as Depth, 8);
                lemma_prefix_same_dom(m1, m2, q[0].1, (d + 1) as Depth, 8);
                lemma_potential_concat(q.drop_first(), tail);
                lemma_enqueued_potential(m1, q[0].1, (d + 1) as Depth, 8);
                lemma_weight_step(d);
                lemma_bfs_order_same_dom(m1, m2, q.drop_first() + tail);
            } else {
                assert(q.drop_first() + Seq::<(Depth, MortonOctantId)>::empty() =~= q.drop_first());
                lemma_nine_pow_pos((17 - d) as nat);
                lemma_bfs_order_same_dom(m1, m2, q.drop_first());
            }
        } else {
            lemma_nine_pow_pos((17 - d) as nat);
            lemma_bfs_order_same_dom(m1, m2, q.drop_first());
        }
    }
}

/// Every enqueued child exists, sits one level below its parent, and is
/// the parent's structural child.
proof fn lemma_prefix_entries_ok<D>(
    m: Map<MortonOctantId, D>,
    parent: MortonOctantId,
    child_depth: Depth,
    i: nat,
)
    requires
        m.dom().contains(parent),
        parent.well_formed(),
        child_depth as nat == parent.depth_spec() + 1,
        child_depth <= 16,
        i <= 8,
    ensures
        forall|t: int|
            0 <= t < enqueued_children_prefix(m, parent, child_depth, i).len() ==> {
                let e = #[trigger] enqueued_children_prefix(m, parent, child_depth, i)[t];
                &&& m.dom().contains(e.1)
                &&& e.0 == child_depth
                &&& e.0 as nat == e.1.depth_spec()
                &&& code_descends_from(e.1.as_nat(), parent.as_nat())
            },
    decreases i,
{
    if i > 0 {
        lemma_prefix_entries_ok(m, parent, child_depth, (i - 1) as nat);
        let child = crate::octant_storage_trait::child_of(parent, (i - 1) as nat);
        let prev = enqueued_children_prefix(m, parent, child_depth, (i - 1) as nat);
        let cur = enqueued_children_prefix(m, parent, child_depth, i);
        if m.dom().contains(child) {
            crate::morton_based_storage::hashed_octant_storage::lemma_wf_child_space(
                parent.as_nat(),
            );
            assert(child.as_nat() == crate::morton_based_storage::morton_octant_id::child_code(
                parent.as_nat(),
                (i - 1) as nat,
            ));
            crate::morton_based_storage::morton_octant_id::lemma_child_code(
                parent.as_nat(),
                (i - 1) as nat,
            );
            assert(code_descends_from(parent.as_nat(), parent.as_nat()));
            assert(child.as_nat() >= 8);
            assert(code_descends_from(child.as_nat(), parent.as_nat()));
            assert forall|t: int|
                0 <= t < cur.len() implies {
                let e = #[trigger] cur[t];
                &&& m.dom().contains(e.1)
                &&& e.0 == child_depth
                &&& e.0 as nat == e.1.depth_spec()
                &&& code_descends_from(e.1.as_nat(), parent.as_nat())
            } by {
                if t < prev.len() {
                    assert(cur[t] == prev[t]);
                } else {
                    assert(cur[t] == (child_depth, child));
                }
            }
        } else {
            assert(cur =~= prev);
        }
    }
}

/// Push the existing children among the eight slots onto the worklist,
/// tagged `child_depth`, in placement order.
#[verifier::rlimit(100)]
#[verifier::spinoff_prover]
fn enqueue_children_slots<D>(
    queue: &mut std::collections::VecDeque<(Depth, MortonOctantId)>,
    children: &[Option<MortonOctantId>; 8],
    child_depth: Depth,
    Ghost(m): Ghost<Map<MortonOctantId, D>>,
    Ghost(parent): Ghost<MortonOctantId>,
) -> (done: bool)
    requires
        forall|i2: int|
            0 <= i2 < 8 ==> #[trigger] children[i2] == child_slot_spec(m, parent, i2 as nat),
    ensures
        done,
        final(queue)@ == old(queue)@ + enqueued_children_prefix(m, parent, child_depth, 8),
{
    let ghost q0 = queue@;
    let mut ci: usize = 0;
    while ci < 8
        invariant
            ci <= 8,
            forall|i2: int|
                0 <= i2 < 8 ==> #[trigger] children[i2] == child_slot_spec(m, parent, i2 as nat),
            queue@ == q0 + enqueued_children_prefix(m, parent, child_depth, ci as nat),
        decreases 8 - ci,
    {
        let ghost child = crate::octant_storage_trait::child_of(parent, ci as nat);
        match children[ci] {
            Some(child_id) => {
                proof {
                    assert(child_id == child);
                    assert(enqueued_children_prefix(m, parent, child_depth, (ci + 1) as nat)
                        =~= enqueued_children_prefix(m, parent, child_depth, ci as nat) + seq![
                        (child_depth, child),
                    ]);
                }
                queue.push_back((child_depth, child_id));
                proof {
                    assert(queue@ =~= q0 + enqueued_children_prefix(
                        m,
                        parent,
                        child_depth,
                        (ci + 1) as nat,
                    ));
                }
            },
            None => {
                proof {
                    assert(!m.dom().contains(child));
                    assert(enqueued_children_prefix(m, parent, child_depth, (ci + 1) as nat)
                        =~= enqueued_children_prefix(m, parent, child_depth, ci as nat));
                }
            },
        }
        ci = ci + 1;
    }
    true
}



/// Appending one more visit to an unbroken level-order prefix keeps it
/// a prefix of the full level order.
proof fn lemma_bfs_prefix_push<D>(
    m: Map<MortonOctantId, D>,
    init: Seq<(Depth, MortonOctantId)>,
    prev: Seq<SearchVisit>,
    rec: SearchVisit,
    q_begin: Seq<(Depth, MortonOctantId)>,
)
    requires
        all_continue(prev) ==> visit_levels(prev) + bfs_order_spec(m, q_begin) == bfs_order_spec(
            m,
            init,
        ),
        q_begin.len() > 0,
        q_begin[0] == (rec.0, rec.1),
        m.dom().contains(rec.1),
    ensures
        continue_prefix(prev.push(rec)) ==> prev.push(rec).len() <= bfs_order_spec(
            m,
            init,
        ).len() && visit_levels(prev.push(rec)) == bfs_order_spec(m, init).take(
            prev.push(rec).len() as int,
        ),
{
    let log = prev.push(rec);
    if continue_prefix(log) {
        assert forall|t: int|
            0 <= t < prev.len() implies (#[trigger] prev[t]).2 == SearchControlFlow::Continue by {
            assert(log[t] == prev[t]);
        }
        let full = bfs_order_spec(m, init);
        let tailq = bfs_order_spec(m, q_begin);
        assert(tailq == seq![q_begin[0]] + bfs_order_spec(
            m,
            q_begin.drop_first() + (if q_begin[0].0 < 16 {
                enqueued_children_prefix(m, q_begin[0].1, (q_begin[0].0 + 1) as Depth, 8)
            } else {
                Seq::<(Depth, MortonOctantId)>::empty()
            }),
        ));
        lemma_log_push_facts(prev, rec);
        lemma_take_concat(visit_levels(prev), tailq, 1);
        assert(tailq.take(1) =~= seq![(rec.0, rec.1)]);
        assert(visit_levels(prev) + tailq == full);
        assert(visit_levels(log) =~= full.take(log.len() as int));
    }
}

/// Breadth-first level-order search over a FIFO worklist: `Continue`
/// enqueues the visited node's existing children, `Skip` leaves them out,
/// `Break` returns at once without draining the worklist.
///
/// Fails with `InvalidOctantId` iff the start does not exist, and with
/// `OverMaxDepth` iff a visit answers `Continue` at the depth limit.
/// The ghost half of the result is the complete visit log: a run whose
/// every answer is `Continue` visits exactly `bfs_order_spec`, a `Break`
/// is always the last visit and names the returned node.
#[verifier::rlimit(100)]
#[verifier::spinoff_prover]
pub fn breadth_first_search_from_storage<S: OctantStorage, V: SearchVisitor>(
    storage: &S,
    start_from_id: &MortonOctantId,
    search_func: &mut V,
) -> (r: (StorageResult<SearchControlFlowResult<MortonOctantId>>, Ghost<Seq<SearchVisit>>))
    requires
        storage.inv(),
    ensures
        ({
            let res = r.0;
            let log = r.1@;
            &&& !storage.contents().dom().contains(*start_from_id) <==> res == Err::<
                SearchControlFlowResult<MortonOctantId>,
                StorageError,
            >(StorageError::InvalidOctantId)
            &&& !storage.contents().dom().contains(*start_from_id) ==> log.len() == 0
            &&& storage.contents().dom().contains(*start_from_id) ==> log.len() >= 1 && log[0].0
                as nat == start_from_id.depth_spec() && log[0].1 == *start_from_id
            &&& visits_ok(storage.contents(), *start_from_id, log)
            &&& break_only_last(log)
            &&& (res matches Ok(flow) ==> storage.contents().dom().contains(flow.carried_id())
                && subtree_of(*start_from_id).contains(flow.carried_id()))
            &&& (res matches Ok(flow) ==> log.len() > 0 && res == Ok::<
                SearchControlFlowResult<MortonOctantId>,
                StorageError,
            >(flow_result_of(log.last())))
            &&& (log.len() > 0 && log.last().2 == SearchControlFlow::Break ==> res == Ok::<
                SearchControlFlowResult<MortonOctantId>,
                StorageError,
            >(SearchControlFlowResult::Break(log.last().1)))
            &&& (res matches Ok(SearchControlFlowResult::Break(b)) ==> log.len() > 0
                && log.last().2 == SearchControlFlow::Break && b == log.last().1)
            &&& (storage.contents().dom().contains(*start_from_id) && res is Err ==> res
                == Err::<SearchControlFlowResult<MortonOctantId>, StorageError>(
                StorageError::OverMaxDepth(S::max_depth_spec() as u8),
            ) && log.last().2 == SearchControlFlow::Continue)
            &&& (storage.contents().dom().contains(*start_from_id) && all_continue(log) && res
                is Ok ==> visit_levels(log) == bfs_order_spec(
                storage.contents(),
                seq![((start_from_id.depth_spec() as u8), *start_from_id)],
            ))
            &&& (storage.contents().dom().contains(*start_from_id) && continue_prefix(log)
                ==> log.len() <= bfs_order_spec(
                storage.contents(),
                seq![((start_from_id.depth_spec() as u8), *start_from_id)],
            ).len() && visit_levels(log) == bfs_order_spec(
                storage.contents(),
                seq![((start_from_id.depth_spec() as u8), *start_from_id)],
            ).take(log.len() as int))
        }),
{
    let start_from_depth = match storage.get_octant_depth(start_from_id) {
        Some(d) => d,
        None => {
            return (Err(StorageError::InvalidOctantId), Ghost(Seq::empty()));
        },
    };
    let max_depth = storage.get_max_depth();
    proof {
        storage.lemma_inv();
        assert(code_descends_from(start_from_id.as_nat(), start_from_id.as_nat()));
    }
    let ghost m = storage.contents();
    let ghost init: Seq<(Depth, MortonOctantId)> = seq![(start_from_depth, *start_from_id)];
    let mut to_be_visited: std::collections::VecDeque<(Depth, MortonOctantId)> =
        std::collections::VecDeque::new();
    to_be_visited.push_back((start_from_depth, *start_from_id));
    proof {
        assert(to_be_visited@ =~= init);
        assert(visit_levels(Seq::<SearchVisit>::empty()) =~= bfs_order_spec(m, init).take(0));
    }
    let ghost mut log: Seq<SearchVisit> = Seq::empty();
    let mut last_visited_step: Option<SearchControlFlowResult<MortonOctantId>> = None;
    while to_be_visited.len() > 0
        invariant
            storage.inv(),
            m == storage.contents(),
            m.dom().contains(*start_from_id),
            init == seq![(start_from_depth, *start_from_id)],
            start_from_depth as nat == start_from_id.depth_spec(),
            max_depth as nat == S::max_depth_spec(),
            max_depth <= 16,
            forall|t: int|
                0 <= t < to_be_visited@.len() ==> queue_entry_ok(
                    m,
                    *start_from_id,
                    #[trigger] to_be_visited@[t],
                ),
            log.len() == 0 <==> last_visited_step is None,
            log.len() == 0 ==> to_be_visited@ == init,
            log.len() >= 1 ==> log[0].0 == start_from_depth && log[0].1 == *start_from_id,
            visits_ok(m, *start_from_id, log),
            no_break(log),
            all_continue(log) ==> visit_levels(log) + bfs_order_spec(m, to_be_visited@)
                == bfs_order_spec(m, init),
            continue_prefix(log) ==> log.len() <= bfs_order_spec(m, init).len() && visit_levels(
                log,
            ) == bfs_order_spec(m, init).take(log.len() as int),
            match last_visited_step {
                Some(flow) => m.dom().contains(flow.carried_id()) && subtree_of(
                    *start_from_id,
                ).contains(flow.carried_id()) && !(flow matches SearchControlFlowResult::Break(_))
                    && log.len() > 0 && flow == flow_result_of(log.last()),
                None => to_be_visited@.len() > 0,
            },
        decreases queue_potential(to_be_visited@),
    {
        let ghost q_begin = to_be_visited@;
        let (depth, octant_id) = match to_be_visited.pop_front() {
            Some(p) => p,
            None => {
                proof {
                    assert(false);
                }
                return (Err(StorageError::InvalidOctantId), Ghost(log));
            },
        };
        proof {
            assert(queue_entry_ok(m, *start_from_id, q_begin[0]));
            assert(to_be_visited@ =~= q_begin.drop_first());
        }
        let next_step = search_func.visit(depth, &octant_id);
        let ghost prev_log = log;
        proof {
            lemma_log_push_facts(prev_log, (depth, octant_id, next_step));
            lemma_visits_ok_push(m, *start_from_id, prev_log, (depth, octant_id, next_step));
            lemma_bfs_prefix_push(m, init, prev_log, (depth, octant_id, next_step), q_begin);
            log = prev_log.push((depth, octant_id, next_step));
        }
        match next_step {
            SearchControlFlow::Break => {
                return (Ok(SearchControlFlowResult::Break(octant_id)), Ghost(log));
            },
            SearchControlFlow::Skip => {
                last_visited_step = Some(SearchControlFlowResult::Skip(octant_id));
                proof {
                    assert(queue_potential(q_begin) == visit_weight(depth) + queue_potential(
                        to_be_visited@,
                    ));
                    lemma_nine_pow_pos((17 - depth) as nat);
                }
            },
            SearchControlFlow::Continue => {
                last_visited_step = Some(SearchControlFlowResult::Continue(octant_id));
                if depth >= max_depth {
                    return (Err(StorageError::OverMaxDepth(max_depth)), Ghost(log));
                }
                let children = match storage.get_existing_children(&octant_id) {
                    Ok(c) => c,
                    Err(_) => {
                        proof {
                            assert(false);
                        }
                        return (Err(StorageError::InvalidOctantId), Ghost(log));
                    },
                };
                let ghost q_popped = to_be_visited@;
                let child_depth = depth + 1;
                enqueue_children_slots::<S::Data>(
                    &mut to_be_visited,
                    &children,
                    child_depth,
                    Ghost(m),
                    Ghost(octant_id),
                );
                proof {
                    let prefix = enqueued_children_prefix(m, octant_id, child_depth, 8);
                    storage.lemma_inv();
                    lemma_prefix_entries_ok(m, octant_id, child_depth, 8);
                    assert forall|t: int|
                        0 <= t < to_be_visited@.len() implies queue_entry_ok(
                        m,
                        *start_from_id,
                        #[trigger] to_be_visited@[t],
                    ) by {
                        if t >= q_popped.len() {
                            let e = prefix[t - q_popped.len()];
                            assert(to_be_visited@[t] == e);
                            lemma_descends_trans(
                                e.1.as_nat(),
                                octant_id.as_nat(),
                                start_from_id.as_nat(),
                            );
                        } else {
                            assert(to_be_visited@[t] == q_popped[t]);
                        }
                    }
                    if all_continue(log) {
                        assert(bfs_order_spec(m, q_begin) == seq![(depth, octant_id)]
                            + bfs_order_spec(m, q_popped + prefix));
                        assert(visit_levels(log) + bfs_order_spec(m, to_be_visited@)
                            =~= bfs_order_spec(m, init));
                    }
                    lemma_potential_concat(q_popped, prefix);
                    lemma_enqueued_potential(m, octant_id, child_depth, 8);
                    lemma_weight_step(depth);
                    assert(queue_potential(q_begin) == visit_weight(depth) + queue_potential(
                        q_popped,
                    ));
                }
            },
        }
    }
    proof {
        assert(bfs_order_spec(m, to_be_visited@) =~= Seq::<(Depth, MortonOctantId)>::empty());
        if all_continue(log) {
            assert(visit_levels(log) =~= bfs_order_spec(m, init));
        }
    }
    match last_visited_step {
        Some(flow) => (Ok(flow), Ghost(log)),
        None => {
            proof {
                assert(false);
            }
            (Err(StorageError::InvalidOctantId), Ghost(log))
        },
    }
}

/// Breadth-first level-order search whose visitor may edit each visited
/// node's payload in place; node structure is never changed, and nodes
/// outside the start's subtree keep their payloads.  The ghost half of
/// the result is the complete visit log, with the same guarantees as the
/// read-only search.
#[verifier::rlimit(100)]
#[verifier::spinoff_prover]
pub fn breadth_first_search_from_storage_mut<
    S: ModifiableOctantStorage,
    V: SearchVisitorMut<S::Data>,
>(
    storage: &mut S,
    start_from_id: &MortonOctantId,
    search_func: &mut V,
) -> (r: (StorageResult<SearchControlFlowResult<MortonOctantId>>, Ghost<Seq<SearchVisit>>))
    requires
        old(storage).inv(),
    ensures
        ({
            let res = r.0;
            let log = r.1@;
            &&& final(storage).inv()
            &&& final(storage).contents().dom() == old(storage).contents().dom()
            &&& (forall|k: MortonOctantId|
                !subtree_of(*start_from_id).contains(k) && old(storage).contents().dom().contains(
                    k,
                ) ==> final(storage).contents()[k] == old(storage).contents()[k])
            &&& !old(storage).contents().dom().contains(*start_from_id) <==> res == Err::<
                SearchControlFlowResult<MortonOctantId>,
                StorageError,
            >(StorageError::InvalidOctantId)
            &&& !old(storage).contents().dom().contains(*start_from_id) ==> log.len() == 0
                && final(storage).contents() == old(storage).contents()
            &&& old(storage).contents().dom().contains(*start_from_id) ==> log.len() >= 1
                && log[0].0 as nat == start_from_id.depth_spec() && log[0].1 == *start_from_id
            &&& visits_ok(final(storage).contents(), *start_from_id, log)
            &&& break_only_last(log)
            &&& (res matches Ok(flow) ==> final(storage).contents().dom().contains(
                flow.carried_id(),
            ) && subtree_of(*start_from_id).contains(flow.carried_id()))
            &&& (res matches Ok(flow) ==> log.len() > 0 && res == Ok::<
                SearchControlFlowResult<MortonOctantId>,
                StorageError,
            >(flow_result_of(log.last())))
            &&& (log.len() > 0 && log.last().2 == SearchControlFlow::Break ==> res == Ok::<
                SearchControlFlowResult<MortonOctantId>,
                StorageError,
            >(SearchControlFlowResult::Break(log.last().1)))
            &&& (res matches Ok(SearchControlFlowResult::Break(b)) ==> log.len() > 0
                && log.last().2 == SearchControlFlow::Break && b == log.last().1)
            &&& (old(storage).contents().dom().contains(*start_from_id) && res is Err ==> res
                == Err::<SearchControlFlowResult<MortonOctantId>, StorageError>(
                StorageError::OverMaxDepth(S::max_depth_spec() as u8),
            ) && log.last().2 == SearchControlFlow::Continue)
            &&& (old(storage).contents().dom().contains(*start_from_id) && all_continue(log)
                && res is Ok ==> visit_levels(log) == bfs_order_spec(
                final(storage).contents(),
                seq![((start_from_id.depth_spec() as u8), *start_from_id)],
            ))
        }),
{
    let start_from_depth = match storage.get_octant_depth(start_from_id) {
        Some(d) => d,
        None => {
            return (Err(StorageError::InvalidOctantId), Ghost(Seq::empty()));
        },
    };
    let max_depth = storage.get_max_depth();
    proof {
        storage.lemma_inv();
        assert(code_descends_from(start_from_id.as_nat(), start_from_id.as_nat()));
    }
    let ghost m0 = storage.contents();
    let ghost init: Seq<(Depth, MortonOctantId)> = seq![(start_from_depth, *start_from_id)];
    let mut to_be_visited: std::collections::VecDeque<(Depth, MortonOctantId)> =
        std::collections::VecDeque::new();
    to_be_visited.push_back((start_from_depth, *start_from_id));
    proof {
        assert(to_be_visited@ =~= init);
    }
    let ghost mut log: Seq<SearchVisit> = Seq::empty();
    let mut last_visited_step: Option<SearchControlFlowResult<MortonOctantId>> = None;
    while to_be_visited.len() > 0
        invariant
            storage.inv(),
            m0 == old(storage).contents(),
            storage.contents().dom() == m0.dom(),
            forall|k: MortonOctantId|
                !subtree_of(*start_from_id).contains(k) && m0.dom().contains(k)
                    ==> storage.contents()[k] == m0[k],
            m0.dom().contains(*start_from_id),
            init == seq![(start_from_depth, *start_from_id)],
            start_from_depth as nat == start_from_id.depth_spec(),
            max_depth as nat == S::max_depth_spec(),
            max_depth <= 16,
            forall|t: int|
                0 <= t < to_be_visited@.len() ==> queue_entry_ok(
                    storage.contents(),
                    *start_from_id,
                    #[trigger] to_be_visited@[t],
                ),
            log.len() == 0 <==> last_visited_step is None,
            log.len() == 0 ==> to_be_visited@ == init,
            log.len() >= 1 ==> log[0].0 == start_from_depth && log[0].1 == *start_from_id,
            visits_ok(storage.contents(), *start_from_id, log),
            no_break(log),
            all_continue(log) ==> visit_levels(log) + bfs_order_spec(
                storage.contents(),
                to_be_visited@,
            ) == bfs_order_spec(storage.contents(), init),
            match last_visited_step {
                Some(flow) => storage.contents().dom().contains(flow.carried_id()) && subtree_of(
                    *start_from_id,
                ).contains(flow.carried_id()) && !(flow matches SearchControlFlowResult::Break(_))
                    && log.len() > 0 && flow == flow_result_of(log.last()),
                None => to_be_visited@.len() > 0,
            },
        decreases queue_potential(to_be_visited@),
    {
        let ghost m_iter = storage.contents();
        let ghost q_begin = to_be_visited@;
        let (depth, octant_id) = match to_be_visited.pop_front() {
            Some(p) => p,
            None => {
                proof {
                    assert(false);
                }
                return (Err(StorageError::InvalidOctantId), Ghost(log));
            },
        };
        proof {
            assert(queue_entry_ok(m_iter, *start_from_id, q_begin[0]));
            assert(to_be_visited@ =~= q_begin.drop_first());
        }
        let next_step = {
            let data = match storage.get_octant_mut(&octant_id) {
                Some(d) => d,
                None => {
                    proof {
                        assert(false);
                    }
                    return (Err(StorageError::InvalidOctantId), Ghost(log));
                },
            };
            search_func.visit_mut(depth, &octant_id, data)
        };
        proof {
            assert(storage.contents().dom() =~= m_iter.dom());
            lemma_visits_ok_same_dom(m_iter, storage.contents(), *start_from_id, log);
            lemma_bfs_order_same_dom(m_iter, storage.contents(), q_begin);
            lemma_bfs_order_same_dom(m_iter, storage.contents(), q_begin.drop_first());
            lemma_bfs_order_same_dom(m_iter, storage.contents(), init);
            assert(code_descends_from(start_from_id.as_nat(), start_from_id.as_nat()));
            assert(subtree_of(*start_from_id).contains(octant_id));
        }
        let ghost prev_log = log;
        proof {
            lemma_log_push_facts(prev_log, (depth, octant_id, next_step));
            lemma_visits_ok_push(
                storage.contents(),
                *start_from_id,
                prev_log,
                (depth, octant_id, next_step),
            );
            log = prev_log.push((depth, octant_id, next_step));
        }
        match next_step {
            SearchControlFlow::Break => {
                return (Ok(SearchControlFlowResult::Break(octant_id)), Ghost(log));
            },
            SearchControlFlow::Skip => {
                last_visited_step = Some(SearchControlFlowResult::Skip(octant_id));
                proof {
                    assert(queue_potential(q_begin) == visit_weight(depth) + queue_potential(
                        to_be_visited@,
                    ));
                    lemma_nine_pow_pos((17 - depth) as nat);
                }
            },
            SearchControlFlow::Continue => {
                last_visited_step = Some(SearchControlFlowResult::Continue(octant_id));
                if depth >= max_depth {
                    return (Err(StorageError::OverMaxDepth(max_depth)), Ghost(log));
                }
                let children = match storage.get_existing_children(&octant_id) {
                    Ok(c) => c,
                    Err(_) => {
                        proof {
                            assert(false);
                        }
                        return (Err(StorageError::InvalidOctantId), Ghost(log));
                    },
                };
                let ghost q_popped = to_be_visited@;
                let child_depth = depth + 1;
                enqueue_children_slots::<S::Data>(
                    &mut to_be_visited,
                    &children,
                    child_depth,
                    Ghost(storage.contents()),
                    Ghost(octant_id),
                );
                proof {
                    let m = storage.contents();
                    let prefix = enqueued_children_prefix(m, octant_id, child_depth, 8);
                    storage.lemma_inv();
                    lemma_prefix_entries_ok(m, octant_id, child_depth, 8);
                    assert forall|t: int|
                        0 <= t < to_be_visited@.len() implies queue_entry_ok(
                        m,
                        *start_from_id,
                        #[trigger] to_be_visited@[t],
                    ) by {
                        if t >= q_popped.len() {
                            let e = prefix[t - q_popped.len()];
                            assert(to_be_visited@[t] == e);
                            lemma_descends_trans(
                                e.1.as_nat(),
                                octant_id.as_nat(),
                                start_from_id.as_nat(),
                            );
                        } else {
                            assert(to_be_visited@[t] == q_popped[t]);
                        }
                    }
                    if all_continue(log) {
                        assert(bfs_order_spec(m, q_begin) == seq![(depth, octant_id)]
                            + bfs_order_spec(m, q_popped + prefix));
                        assert(visit_levels(log) + bfs_order_spec(m, to_be_visited@)
                            =~= bfs_order_spec(m, init));
                    }
                    lemma_potential_concat(q_popped, prefix);
                    lemma_enqueued_potential(m, octant_id, child_depth, 8);
                    lemma_weight_step(depth);
                    assert(queue_potential(q_begin) == visit_weight(depth) + queue_potential(
                        q_popped,
                    ));
                }
            },
        }
    }
    proof {
        assert(bfs_order_spec(storage.contents(), to_be_visited@) =~= Seq::<
            (Depth, MortonOctantId),
        >::empty());
        if all_continue(log) {
            assert(visit_levels(log) =~= bfs_order_spec(storage.contents(), init));
        }
    }
    match last_visited_step {
        Some(flow) => (Ok(flow), Ghost(log)),
        None => {
            proof {
                assert(false);
            }
            (Err(StorageError::InvalidOctantId), Ghost(log))
        },
    }
}

/// Everything a drill added lies on one descending chain above the
/// returned node, inside the start's subtree.
pub open spec fn drill_added_on_chain<D>(
    m_old: Map<MortonOctantId, D>,
    m_new: Map<MortonOctantId, D>,
    start: MortonOctantId,
    found: MortonOctantId,
) -> bool {
    forall|k: MortonOctantId|
        m_new.dom().contains(k) && !m_old.dom().contains(k) ==> code_descends_from(
            found.as_nat(),
            k.as_nat(),
        ) && subtree_of(start).contains(k)
}

/// One drill level in the ghost log: the depth and identifier handed to
/// the callback, and the assignment it answered.
pub type DrillVisit<D> = (Depth, MortonOctantId, Option<AssignmentControlFlow<D>>);

/// Whether a drill decision moves on to a child, judged against the
/// octants present before the drill ran: `AssignNext` descends whenever
/// the depth limit allows a child, `AssignNextExisting` descends exactly
/// onto a pre-existing child, and `AssignNextWhenNew` descends exactly
/// onto a fresh child below the limit.  A drill never deepens the part of
/// the tree it still has to test, so the pre-drill octants decide.
pub open spec fn drill_decision_descends<D>(
    m: Map<MortonOctantId, D>,
    max_depth: nat,
    v: DrillVisit<D>,
) -> bool {
    match v.2 {
        None => false,
        Some(AssignmentControlFlow::AssignNext(_, _)) => (v.0 as nat) < max_depth,
        Some(AssignmentControlFlow::AssignNextExisting(p, _)) => (v.0 as nat) < max_depth
            && m.dom().contains(crate::octant_storage_trait::child_of(v.1, p.index_spec())),
        Some(AssignmentControlFlow::AssignNextWhenNew(p, _)) => (v.0 as nat) < max_depth
            && !m.dom().contains(crate::octant_storage_trait::child_of(v.1, p.index_spec())),
    }
}

/// The child a descending drill decision moves to.
pub open spec fn drill_decision_child<D>(v: DrillVisit<D>) -> MortonOctantId {
    match v.2 {
        None => v.1,
        Some(a) => crate::octant_storage_trait::child_of(v.1, a.placement_spec().index_spec()),
    }
}

/// The result a drill reports when a decision does not descend: the
/// current node for a `None` answer, a failed `AssignNextExisting`
/// precondition, or an `AssignNextWhenNew` whose child already exists;
/// the depth-limit error when the decision asked to create past the
/// limit.
pub open spec fn drill_stop_result<D>(
    m: Map<MortonOctantId, D>,
    max_depth: nat,
    v: DrillVisit<D>,
) -> StorageResult<MortonOctantId> {
    match v.2 {
        None => Ok(v.1),
        Some(AssignmentControlFlow::AssignNext(_, _)) => Err(
            StorageError::OverMaxDepth(max_depth as u8),
        ),
        Some(AssignmentControlFlow::AssignNextExisting(_, _)) => Ok(v.1),
        Some(AssignmentControlFlow::AssignNextWhenNew(p, _)) => if (v.0 as nat) < max_depth
            && m.dom().contains(crate::octant_storage_trait::child_of(v.1, p.index_spec())) {
            Ok(v.1)
        } else {
            Err(StorageError::OverMaxDepth(max_depth as u8))
        },
    }
}

/// A drill log is a single descending chain: it starts at the start node,
/// every record but the last holds a descending decision, each next
/// record sits exactly on the child the previous decision named one level
/// deeper, and the last record's decision stops.
pub open spec fn drill_log_ok<D>(
    m: Map<MortonOctantId, D>,
    max_depth: nat,
    start: MortonOctantId,
    log: Seq<DrillVisit<D>>,
) -> bool {
    &&& (forall|i: int|
        0 <= i < log.len() ==> {
            let v = #[trigger] log[i];
            &&& v.0 as nat == v.1.depth_spec()
            &&& subtree_of(start).contains(v.1)
        })
    &&& (log.len() > 0 ==> log[0].1 == start)
    &&& (forall|i: int|
        0 <= i < log.len() - 1 ==> #[trigger] drill_decision_descends(m, max_depth, log[i])
            && log[i + 1].1 == drill_decision_child(log[i]))
    &&& (log.len() > 0 ==> !drill_decision_descends(m, max_depth, log.last()))
}

/// A subtree's root code never exceeds a member's code.
proof fn lemma_descends_le(a: nat, b: nat)
    requires
        code_descends_from(a, b),
    ensures
        b <= a,
    decreases a,
{
    if a != b {
        lemma_descends_le(a / 8, b);
    }
}

/// Octants added strictly inside the current node's subtree never change
/// whether the current node's direct children exist.
proof fn lemma_drill_child_dom_stable<D>(
    m0: Map<MortonOctantId, D>,
    m1: Map<MortonOctantId, D>,
    current: MortonOctantId,
    digit: nat,
)
    requires
        crate::morton_based_storage::morton_octant_id::code_well_formed(current.as_nat()),
        digit < 8,
        forall|id: MortonOctantId| #[trigger] m0.dom().contains(id) ==> m1.dom().contains(id),
        forall|k: MortonOctantId| #[trigger]
            m1.dom().contains(k) && !m0.dom().contains(k) ==> code_descends_from(
                current.as_nat(),
                k.as_nat(),
            ),
    ensures
        m1.dom().contains(crate::octant_storage_trait::child_of(current, digit))
            == m0.dom().contains(crate::octant_storage_trait::child_of(current, digit)),
{
    let c = crate::octant_storage_trait::child_of(current, digit);
    crate::morton_based_storage::hashed_octant_storage::lemma_wf_child_space(current.as_nat());
    assert(c.as_nat() == crate::morton_based_storage::morton_octant_id::child_code(
        current.as_nat(),
        digit,
    ));
    if m1.dom().contains(c) && !m0.dom().contains(c) {
        lemma_descends_le(current.as_nat(), c.as_nat());
        assert(false);
    }
}

/// What one drill level produced: a child to descend into, or the end of
/// the drill.
enum DrillStepOutcome {
    /// Descend into this child next.
    Descend(MortonOctantId),
    /// The drill ends now with this result.
    Stop(StorageResult<MortonOctantId>),
}

/// Run one drill level: hand the current node to the callback and carry
/// out the assignment it answers.
#[verifier::rlimit(100)]
#[verifier::spinoff_prover]
fn drill_step<S: ModifiableOctantStorage, G: DrillGuide<S::Data>>(
    storage: &mut S,
    current: &MortonOctantId,
    depth: Depth,
    drill_func: &mut G,
    max_depth: Depth,
    Ghost(start): Ghost<MortonOctantId>,
) -> (r: (DrillStepOutcome, Ghost<Option<AssignmentControlFlow<S::Data>>>))
    requires
        old(storage).inv(),
        old(storage).contents().dom().contains(*current),
        subtree_of(start).contains(*current),
        depth as nat == current.depth_spec(),
        depth <= max_depth,
        max_depth as nat == S::max_depth_spec(),
    ensures
        final(storage).inv(),
        forall|id: MortonOctantId| #[trigger]
            old(storage).contents().dom().contains(id) ==> final(storage).contents().dom().contains(id),
        forall|k: MortonOctantId|
            !code_descends_from(k.as_nat(), current.as_nat()) ==> (final(storage).contents().dom().contains(k) <==> old(storage).contents().dom().contains(k)),
        forall|k: MortonOctantId|
            !code_descends_from(k.as_nat(), current.as_nat()) && old(storage).contents().dom().contains(k) ==> final(storage).contents()[k] == old(storage).contents()[k],
        match r.0 {
            DrillStepOutcome::Descend(child) => final(storage).contents().dom().contains(child)
                && subtree_of(start).contains(child) && code_descends_from(
                child.as_nat(),
                current.as_nat(),
            ) && depth < max_depth && child.depth_spec() == depth + 1,
            DrillStepOutcome::Stop(res) => match res {
                Ok(found) => found == *current,
                Err(e) => e == StorageError::OverMaxDepth(max_depth),
            },
        },
        forall|k: MortonOctantId|
            final(storage).contents().dom().contains(k) && !old(storage).contents().dom().contains(k) ==> (r.0 matches DrillStepOutcome::Descend(child) && k
                == child),
        ({
            let v = (depth, *current, r.1@);
            let m = old(storage).contents();
            let maxd = S::max_depth_spec();
            &&& (drill_decision_descends(m, maxd, v) ==> r.0 == DrillStepOutcome::Descend(
                drill_decision_child(v),
            ))
            &&& (!drill_decision_descends(m, maxd, v) ==> r.0 == DrillStepOutcome::Stop(
                drill_stop_result(m, maxd, v),
            ))
        }),
{
    let ghost m_iter = storage.contents();
    let assignment = {
        let data = match storage.get_octant_mut(current) {
            Some(d) => d,
            None => {
                proof {
                    assert(false);
                }
                return (
                    DrillStepOutcome::Stop(Err(StorageError::OverMaxDepth(max_depth))),
                    Ghost(None),
                );
            },
        };
        drill_func.drill_step(depth, current, data)
    };
    let ghost dec = assignment;
    proof {
        assert(storage.contents().dom() =~= m_iter.dom());
        assert(code_descends_from(current.as_nat(), current.as_nat()));
    }
    match assignment {
        None => (DrillStepOutcome::Stop(Ok(*current)), Ghost(dec)),
        Some(AssignmentControlFlow::AssignNext(next_child_placement, new_custom_data)) => {
            proof {
                storage.lemma_inv();
            }
            match storage.insert_octant(current, next_child_placement, new_custom_data) {
                Ok((child_id, _)) => {
                    proof {
                        lemma_inserted_child_facts(
                            storage.contents(),
                            start,
                            *current,
                            child_id,
                            next_child_placement.index_spec(),
                        );
                        lemma_inserted_child_facts(
                            storage.contents(),
                            *current,
                            *current,
                            child_id,
                            next_child_placement.index_spec(),
                        );
                    }
                    (DrillStepOutcome::Descend(child_id), Ghost(dec))
                },
                Err(e) => (DrillStepOutcome::Stop(Err(e)), Ghost(dec)),
            }
        },
        Some(AssignmentControlFlow::AssignNextExisting(next_child_placement, new_custom_data)) => {
            let child_id = match storage.get_existing_child(current, next_child_placement) {
                Ok(c) => c,
                Err(_) => {
                    return (DrillStepOutcome::Stop(Ok(*current)), Ghost(dec));
                },
            };
            proof {
                storage.lemma_inv();
                lemma_step_into_child(
                    storage.contents(),
                    S::max_depth_spec(),
                    start,
                    *current,
                    child_id,
                    next_child_placement,
                );
                lemma_step_into_child(
                    storage.contents(),
                    S::max_depth_spec(),
                    *current,
                    *current,
                    child_id,
                    next_child_placement,
                );
            }
            let ghost m_mid = storage.contents();
            {
                let original = match storage.get_octant_mut(&child_id) {
                    Some(d) => d,
                    None => {
                        proof {
                            assert(false);
                        }
                        return (DrillStepOutcome::Stop(Ok(*current)), Ghost(dec));
                    },
                };
                *original = new_custom_data;
            }
            proof {
                assert(storage.contents().dom() =~= m_mid.dom());
            }
            (DrillStepOutcome::Descend(child_id), Ghost(dec))
        },
        Some(AssignmentControlFlow::AssignNextWhenNew(next_child_placement, new_custom_data)) => {
            match storage.get_existing_child(current, next_child_placement) {
                Ok(_) => (DrillStepOutcome::Stop(Ok(*current)), Ghost(dec)),
                Err(StorageError::ChildNotFound(_)) => {
                    proof {
                        storage.lemma_inv();
                    }
                    match storage.insert_octant(current, next_child_placement, new_custom_data) {
                        Ok((child_id, _)) => {
                            proof {
                                lemma_inserted_child_facts(
                                    storage.contents(),
                                    start,
                                    *current,
                                    child_id,
                                    next_child_placement.index_spec(),
                                );
                                lemma_inserted_child_facts(
                                    storage.contents(),
                                    *current,
                                    *current,
                                    child_id,
                                    next_child_placement.index_spec(),
                                );
                            }
                            (DrillStepOutcome::Descend(child_id), Ghost(dec))
                        },
                        Err(e) => (DrillStepOutcome::Stop(Err(e)), Ghost(dec)),
                    }
                },
                Err(e) => (DrillStepOutcome::Stop(Err(e)), Ghost(dec)),
            }
        },
    }
}

/// Single-path descent with mutation: at each level the drill callback
/// observes the current node and may create, replace or conditionally
/// address the next child, as `AssignmentControlFlow` defines.
///
/// Stops and succeeds when the callback answers `None` or an
/// `AssignNextExisting`/`AssignNextWhenNew` precondition fails; fails with
/// `InvalidOctantId` iff the start does not exist, and with `OverMaxDepth`
/// iff asked to create past the depth limit.  Nodes are only ever added,
/// all of them ancestors of the returned node on one descending chain
/// inside the start's subtree; nodes outside the start's subtree keep
/// their payloads.  The ghost half of the result is the decision log, one
/// record per level: each record holds the depth and identifier the
/// callback saw and the assignment it answered, consecutive records step
/// onto exactly the child the decision named, and the last record's
/// decision determines the result, as `drill_log_ok` and
/// `drill_stop_result` state.
#[verifier::rlimit(100)]
#[verifier::spinoff_prover]
pub fn drill_from_storage<S: ModifiableOctantStorage, G: DrillGuide<S::Data>>(
    storage: &mut S,
    octant_id: &MortonOctantId,
    drill_func: &mut G,
) -> (r: (StorageResult<MortonOctantId>, Ghost<Seq<DrillVisit<S::Data>>>))
    requires
        old(storage).inv(),
    ensures
        final(storage).inv(),
        forall|id: MortonOctantId| #[trigger]
            old(storage).contents().dom().contains(id) ==> final(storage).contents().dom().contains(id),
        forall|k: MortonOctantId|
            !subtree_of(*octant_id).contains(k) ==> (final(storage).contents().dom().contains(k)
                <==> old(storage).contents().dom().contains(k)),
        forall|k: MortonOctantId|
            !subtree_of(*octant_id).contains(k) && old(storage).contents().dom().contains(k)
                ==> final(storage).contents()[k] == old(storage).contents()[k],
        !old(storage).contents().dom().contains(*octant_id) <==> r.0 == Err::<
            MortonOctantId,
            StorageError,
        >(StorageError::InvalidOctantId),
        !old(storage).contents().dom().contains(*octant_id) ==> final(storage).contents() == old(storage).contents(),
        r.0 matches Ok(found) ==> final(storage).contents().dom().contains(found) && subtree_of(
            *octant_id,
        ).contains(found),
        r.0 matches Ok(found) ==> drill_added_on_chain(
            old(storage).contents(),
            final(storage).contents(),
            *octant_id,
            found,
        ),
        old(storage).contents().dom().contains(*octant_id) ==> (r.0 is Ok || r.0 == Err::<
            MortonOctantId,
            StorageError,
        >(StorageError::OverMaxDepth(S::max_depth_spec() as u8))),
        ({
            let res = r.0;
            let log = r.1@;
            &&& drill_log_ok(old(storage).contents(), S::max_depth_spec(), *octant_id, log)
            &&& (!old(storage).contents().dom().contains(*octant_id) ==> log.len() == 0)
            &&& (old(storage).contents().dom().contains(*octant_id) ==> log.len() >= 1
                && log[0].0 as nat == octant_id.depth_spec())
            &&& (old(storage).contents().dom().contains(*octant_id) ==> res == drill_stop_result(
                old(storage).contents(),
                S::max_depth_spec(),
                log.last(),
            ))
            &&& (forall|i: int|
                0 <= i < log.len() ==> final(storage).contents().dom().contains(
                    (#[trigger] log[i]).1,
                ))
            &&& (res matches Ok(found) ==> log.len() > 0 && found == log.last().1)
        }),
{
    let start_from_depth = match storage.get_octant_depth(octant_id) {
        Some(d) => d,
        None => {
            return (Err(StorageError::InvalidOctantId), Ghost(Seq::empty()));
        },
    };
    let max_depth = storage.get_max_depth();
    proof {
        storage.lemma_inv();
        assert(code_descends_from(octant_id.as_nat(), octant_id.as_nat()));
    }
    let ghost m0 = storage.contents();
    let ghost mut log: Seq<DrillVisit<S::Data>> = Seq::empty();
    let mut current_octant_id = *octant_id;
    let mut depth = start_from_depth;
    while depth <= max_depth
        invariant
            storage.inv(),
            m0 == old(storage).contents(),
            forall|id: MortonOctantId| #[trigger]
                m0.dom().contains(id) ==> storage.contents().dom().contains(id),
            forall|k: MortonOctantId|
                !subtree_of(*octant_id).contains(k) ==> (storage.contents().dom().contains(k)
                    <==> m0.dom().contains(k)),
            forall|k: MortonOctantId|
                !subtree_of(*octant_id).contains(k) && m0.dom().contains(k)
                    ==> storage.contents()[k] == m0[k],
            forall|k: MortonOctantId|
                #[trigger] storage.contents().dom().contains(k) && !m0.dom().contains(k)
                    ==> code_descends_from(current_octant_id.as_nat(), k.as_nat()) && subtree_of(
                    *octant_id,
                ).contains(k),
            m0.dom().contains(*octant_id),
            storage.contents().dom().contains(current_octant_id),
            subtree_of(*octant_id).contains(current_octant_id),
            depth as nat == current_octant_id.depth_spec(),
            depth <= max_depth,
            start_from_depth as nat == octant_id.depth_spec(),
            max_depth as nat == S::max_depth_spec(),
            forall|i: int|
                0 <= i < log.len() ==> {
                    let v = #[trigger] log[i];
                    &&& v.0 as nat == v.1.depth_spec()
                    &&& subtree_of(*octant_id).contains(v.1)
                    &&& storage.contents().dom().contains(v.1)
                },
            log.len() > 0 ==> log[0].1 == *octant_id,
            log.len() == 0 ==> current_octant_id == *octant_id,
            forall|i: int|
                0 <= i < log.len() ==> #[trigger] drill_decision_descends(
                    m0,
                    S::max_depth_spec(),
                    log[i],
                ),
            forall|i: int|
                0 <= i < log.len() - 1 ==> log[i + 1].1 == drill_decision_child(
                    #[trigger] log[i],
                ),
            log.len() > 0 ==> current_octant_id == drill_decision_child(log.last()),
            depth as nat == octant_id.depth_spec() + log.len(),
        decreases max_depth + 1 - depth,
    {
        let ghost m_iter = storage.contents();
        proof {
            storage.lemma_inv();
            assert forall|k: MortonOctantId| #![auto]
                m_iter.dom().contains(k) && !m0.dom().contains(k) implies code_descends_from(
                current_octant_id.as_nat(),
                k.as_nat(),
            ) && subtree_of(*octant_id).contains(k) by {
                assert(storage.contents().dom().contains(k) && !m0.dom().contains(k));
            }
            assert forall|dg: nat| dg < 8 implies m_iter.dom().contains(
                crate::octant_storage_trait::child_of(current_octant_id, dg),
            ) == m0.dom().contains(
                crate::octant_storage_trait::child_of(current_octant_id, dg),
            ) by {
                lemma_drill_child_dom_stable(m0, m_iter, current_octant_id, dg);
            }
        }
        let (outcome, Ghost(dec)) = drill_step(
            storage,
            &current_octant_id,
            depth,
            drill_func,
            max_depth,
            Ghost(*octant_id),
        );
        let ghost v: DrillVisit<S::Data> = (depth, current_octant_id, dec);
        proof {
            lemma_subtree_mono(*octant_id, current_octant_id);
            assert forall|k: MortonOctantId|
                !subtree_of(*octant_id).contains(k) implies ((
                storage.contents().dom().contains(k) <==> m_iter.dom().contains(k)) && (
                m_iter.dom().contains(k) ==> storage.contents()[k] == m_iter[k])) by {
                if code_descends_from(k.as_nat(), current_octant_id.as_nat()) {
                    lemma_descends_trans(
                        k.as_nat(),
                        current_octant_id.as_nat(),
                        octant_id.as_nat(),
                    );
                }
            }
            assert(drill_decision_descends(m_iter, S::max_depth_spec(), v)
                == drill_decision_descends(m0, S::max_depth_spec(), v));
            assert(drill_stop_result(m_iter, S::max_depth_spec(), v) == drill_stop_result(
                m0,
                S::max_depth_spec(),
                v,
            ));
        }
        match outcome {
            DrillStepOutcome::Descend(child_id) => {
                proof {
                    if !drill_decision_descends(m_iter, S::max_depth_spec(), v) {
                        assert(false);
                    }
                    assert(child_id == drill_decision_child(v));
                    assert forall|k: MortonOctantId|
                        storage.contents().dom().contains(k) && !m0.dom().contains(
                            k,
                        ) implies code_descends_from(child_id.as_nat(), k.as_nat()) && subtree_of(
                        *octant_id,
                    ).contains(k) by {
                        if m_iter.dom().contains(k) {
                            assert(code_descends_from(current_octant_id.as_nat(), k.as_nat()));
                            lemma_descends_trans(
                                child_id.as_nat(),
                                current_octant_id.as_nat(),
                                k.as_nat(),
                            );
                        } else {
                            assert(k == child_id);
                            assert(code_descends_from(child_id.as_nat(), child_id.as_nat()));
                        }
                    }
                    let prev = log;
                    log = prev.push(v);
                    assert forall|i: int| 0 <= i < log.len() implies {
                        let w = #[trigger] log[i];
                        &&& w.0 as nat == w.1.depth_spec()
                        &&& subtree_of(*octant_id).contains(w.1)
                        &&& storage.contents().dom().contains(w.1)
                    } by {
                        if i < prev.len() {
                            assert(log[i] == prev[i]);
                        } else {
                            assert(log[i] == v);
                        }
                    }
                    assert forall|i: int| 0 <= i < log.len() implies #[trigger] drill_decision_descends(
                        m0,
                        S::max_depth_spec(),
                        log[i],
                    ) by {
                        if i < prev.len() {
                            assert(log[i] == prev[i]);
                        } else {
                            assert(log[i] == v);
                        }
                    }
                    assert forall|i: int| 0 <= i < log.len() - 1 implies log[i + 1].1
                        == drill_decision_child(#[trigger] log[i]) by {
                        assert(log[i] == prev[i]);
                        if i < prev.len() - 1 {
                            assert(log[i + 1] == prev[i + 1]);
                        } else {
                            assert(log[i + 1] == v);
                            assert(prev[i] == prev.last());
                        }
                    }
                    assert(log.last() == v);
                }
                current_octant_id = child_id;
                depth = depth + 1;
            },
            DrillStepOutcome::Stop(res) => {
                proof {
                    if drill_decision_descends(m_iter, S::max_depth_spec(), v) {
                        assert(false);
                    }
                    assert(res == drill_stop_result(m0, S::max_depth_spec(), v));
                    let prev = log;
                    log = prev.push(v);
                    assert(log.last() == v);
                    assert forall|i: int| 0 <= i < log.len() implies {
                        let w = #[trigger] log[i];
                        &&& w.0 as nat == w.1.depth_spec()
                        &&& subtree_of(*octant_id).contains(w.1)
                        &&& storage.contents().dom().contains(w.1)
                    } by {
                        if i < prev.len() {
                            assert(log[i] == prev[i]);
                        } else {
                            assert(log[i] == v);
                        }
                    }
                    assert forall|i: int| 0 <= i < log.len() - 1 implies #[trigger] drill_decision_descends(
                        m0,
                        S::max_depth_spec(),
                        log[i],
                    ) && log[i + 1].1 == drill_decision_child(log[i]) by {
                        assert(log[i] == prev[i]);
                        if i < prev.len() - 1 {
                            assert(log[i + 1] == prev[i + 1]);
                        } else {
                            assert(log[i + 1] == v);
                            assert(prev[i] == prev.last());
                        }
                    }
                }
                return (res, Ghost(log));
            },
        }
    }
    proof {
        assert(false);
    }
    (Err(StorageError::OverMaxDepth(max_depth)), Ghost(log))
}

/// A freshly inserted child exists one level deeper inside the subtree.
proof fn lemma_inserted_child_facts<D>(
    m: Map<MortonOctantId, D>,
    start: MortonOctantId,
    parent: MortonOctantId,
    child: MortonOctantId,
    digit: nat,
)
    requires
        child == crate::octant_storage_trait::child_of(parent, digit),
        subtree_of(start).contains(parent),
        parent.well_formed(),
        digit < 8,
    ensures
        subtree_of(start).contains(child),
        child.depth_spec() == parent.depth_spec() + 1,
{
    crate::morton_based_storage::hashed_octant_storage::lemma_wf_child_space(parent.as_nat());
    assert(child.as_nat() == crate::morton_based_storage::morton_octant_id::child_code(
        parent.as_nat(),
        digit,
    ));
    crate::morton_based_storage::morton_octant_id::lemma_child_code(parent.as_nat(), digit);
    assert(code_descends_from(parent.as_nat(), parent.as_nat()));
    assert(child.as_nat() >= 8);
    assert(code_descends_from(child.as_nat(), parent.as_nat()));
    lemma_descends_trans(child.as_nat(), parent.as_nat(), start.as_nat());
}


/// One conditional-subdivision visit in the ghost log: the depth and
/// identifier handed to the predicate, the control flow of its decision,
/// and which of the eight child slots the decision filled (empty unless
/// it was a subdividing `Continue`).
pub type SubdivisionVisit = (Depth, MortonOctantId, SearchControlFlow, Seq<bool>);

/// The slot list of a subdivision that fills every placement.
pub open spec fn full_slots() -> Seq<bool> {
    Seq::new(8, |i: int| true)
}

/// The traversal result a subdivision visit determines.
pub open spec fn subdivision_result_of(v: SubdivisionVisit) -> SearchControlFlowResult<
    MortonOctantId,
> {
    match v.2 {
        SearchControlFlow::Continue => SearchControlFlowResult::Continue(v.1),
        SearchControlFlow::Skip => SearchControlFlowResult::Skip(v.1),
        SearchControlFlow::Break => SearchControlFlowResult::Break(v.1),
    }
}

/// Only a subdivision log's last visit may abort the walk.
pub open spec fn subdivision_break_only_last(log: Seq<SubdivisionVisit>) -> bool {
    forall|t: int| 0 <= t < log.len() - 1 ==> (#[trigger] log[t]).2 != SearchControlFlow::Break
}

/// Every visit of a subdivision log sits in the tree, inside the start's
/// subtree, under its own depth tag, and carries one slot per placement
/// exactly on a subdividing `Continue`.
pub open spec fn subdivision_visits_ok<D>(
    m: Map<MortonOctantId, D>,
    start: MortonOctantId,
    log: Seq<SubdivisionVisit>,
) -> bool {
    forall|t: int|
        0 <= t < log.len() ==> {
            let v = #[trigger] log[t];
            &&& m.dom().contains(v.1)
            &&& subtree_of(start).contains(v.1)
            &&& v.0 as nat == v.1.depth_spec()
            &&& (v.2 == SearchControlFlow::Continue ==> v.3.len() == 8)
        }
}

/// Visit `t` of a subdivision log sits on a slot some earlier `Continue`
/// visit filled, one level deeper: every visited node after the first
/// was enqueued by an earlier subdivision.
#[verifier::opaque]
pub open spec fn subdivision_from_earlier(log: Seq<SubdivisionVisit>, t: int) -> bool {
    exists|s: int, j: int|
        0 <= s < t && 0 <= j < 8 && log[s].2 == SearchControlFlow::Continue && #[trigger] log[s].3[j]
            && log[t].1 == crate::octant_storage_trait::child_of(log[s].1, j as nat) && log[t].0
            == log[s].0 + 1
}

/// A queued entry is the start before any visit was recorded, or sits on
/// a slot some recorded `Continue` visit filled, one level deeper.
#[verifier::opaque]
pub open spec fn queue_entry_from(
    log: Seq<SubdivisionVisit>,
    init: (Depth, MortonOctantId),
    e: (Depth, MortonOctantId),
) -> bool {
    ||| (log.len() == 0 && e == init)
    ||| exists|s: int, j: int|
        0 <= s < log.len() && 0 <= j < 8 && log[s].2 == SearchControlFlow::Continue
            && #[trigger] log[s].3[j] && e.1 == crate::octant_storage_trait::child_of(
            log[s].1,
            j as nat,
        ) && e.0 == log[s].0 + 1
}

/// Recording one more visit preserves every earlier visit's provenance.
proof fn lemma_provenance_push(log: Seq<SubdivisionVisit>, v: SubdivisionVisit)
    requires
        forall|t: int| 1 <= t < log.len() ==> #[trigger] subdivision_from_earlier(log, t),
    ensures
        forall|t: int| 1 <= t < log.len() ==> #[trigger] subdivision_from_earlier(log.push(v), t),
{
    reveal(subdivision_from_earlier);
    assert forall|t: int| 1 <= t < log.len() implies #[trigger] subdivision_from_earlier(
        log.push(v),
        t,
    ) by {
        assert(subdivision_from_earlier(log, t));
        let (s, j): (int, int) = choose|s: int, j: int|
            0 <= s < t && 0 <= j < 8 && log[s].2 == SearchControlFlow::Continue && #[trigger] log[s].3[j]
                && log[t].1 == crate::octant_storage_trait::child_of(log[s].1, j as nat)
                && log[t].0 == log[s].0 + 1;
        assert(log.push(v)[s] == log[s]);
        assert(log.push(v)[t] == log[t]);
        assert(log.push(v)[s].3[j]);
    }
}

/// Recording one more visit preserves every queued entry's provenance,
/// as long as the queue is empty while the log still is.
proof fn lemma_queue_from_push(
    log: Seq<SubdivisionVisit>,
    v: SubdivisionVisit,
    init: (Depth, MortonOctantId),
    q: Seq<(Depth, MortonOctantId)>,
)
    requires
        forall|t: int| 0 <= t < q.len() ==> queue_entry_from(log, init, #[trigger] q[t]),
        log.len() == 0 ==> q.len() == 0,
    ensures
        forall|t: int| 0 <= t < q.len() ==> queue_entry_from(log.push(v), init, #[trigger] q[t]),
{
    reveal(queue_entry_from);
    assert forall|t: int| 0 <= t < q.len() implies queue_entry_from(
        log.push(v),
        init,
        #[trigger] q[t],
    ) by {
        assert(queue_entry_from(log, init, q[t]));
        let (s, j): (int, int) = choose|s: int, j: int|
            0 <= s < log.len() && 0 <= j < 8 && log[s].2 == SearchControlFlow::Continue
                && #[trigger] log[s].3[j] && q[t].1 == crate::octant_storage_trait::child_of(
                log[s].1,
                j as nat,
            ) && q[t].0 == log[s].0 + 1;
        assert(log.push(v)[s] == log[s]);
        assert(log.push(v)[s].3[j]);
    }
}

/// Indexing facts for a log grown by one visit.
proof fn lemma_subdivision_push_facts(log: Seq<SubdivisionVisit>, v: SubdivisionVisit)
    ensures
        log.push(v).len() == log.len() + 1,
        forall|t: int| 0 <= t < log.len() ==> #[trigger] log.push(v)[t] == log[t],
        log.push(v)[log.len() as int] == v,
        log.push(v).last() == v,
{
}

/// Recording the visit of a dequeued entry gives every visit of the
/// grown log, the new one included, provenance from an earlier
/// `Continue`.
proof fn lemma_record_pop(
    log: Seq<SubdivisionVisit>,
    v: SubdivisionVisit,
    init: (Depth, MortonOctantId),
    e: (Depth, MortonOctantId),
)
    requires
        queue_entry_from(log, init, e),
        v.0 == e.0 && v.1 == e.1,
        forall|t: int| 1 <= t < log.len() ==> #[trigger] subdivision_from_earlier(log, t),
    ensures
        forall|t: int|
            1 <= t < log.push(v).len() ==> #[trigger] subdivision_from_earlier(log.push(v), t),
{
    reveal(subdivision_from_earlier);
    reveal(queue_entry_from);
    lemma_provenance_push(log, v);
    let lp = log.push(v);
    assert forall|t: int| 1 <= t < lp.len() implies #[trigger] subdivision_from_earlier(lp, t) by {
        if t < log.len() {
            assert(subdivision_from_earlier(lp, t));
        } else {
            assert(t == log.len());
            let (s, j): (int, int) = choose|s: int, j: int|
                0 <= s < log.len() && 0 <= j < 8 && log[s].2 == SearchControlFlow::Continue
                    && #[trigger] log[s].3[j] && e.1 == crate::octant_storage_trait::child_of(
                    log[s].1,
                    j as nat,
                ) && e.0 == log[s].0 + 1;
            assert(lp[s] == log[s]);
            assert(lp[s].3[j]);
            assert(lp[t] == v);
        }
    }
}

/// Conditional subdivision over a FIFO worklist: when the predicate
/// answers `Continue` with eight payloads, all eight children are created
/// (replacing any that exist) and enqueued for further processing;
/// `Skip` and `Break` behave as in breadth-first search.
///
/// Fails with `InvalidOctantId` iff the start does not exist, and with
/// `OverMaxDepth` iff asked to subdivide at the depth limit.  Nodes are
/// only ever added.  The ghost half of the result is the visit log: one
/// record per predicate call with the control flow it answered and the
/// slots it filled (all eight here), every visit after the first sits on
/// a slot an earlier `Continue` filled, every filled slot's child exists
/// afterwards, and the last record determines the result.
#[verifier::rlimit(100)]
#[verifier::spinoff_prover]
pub fn subdivide_if_from_storage<S: ModifiableOctantStorage, P: SubdivisionPredicate<S::Data>>(
    storage: &mut S,
    start_from_id: &MortonOctantId,
    subdivide_predicate: &mut P,
) -> (r: (StorageResult<SearchControlFlowResult<MortonOctantId>>, Ghost<Seq<SubdivisionVisit>>))
    requires
        old(storage).inv(),
    ensures
        final(storage).inv(),
        !old(storage).contents().dom().contains(*start_from_id) <==> r.0 == Err::<
            SearchControlFlowResult<MortonOctantId>,
            StorageError,
        >(StorageError::InvalidOctantId),
        !old(storage).contents().dom().contains(*start_from_id) ==> final(storage).contents()
            == old(storage).contents(),
        forall|id: MortonOctantId| #[trigger]
            old(storage).contents().dom().contains(id) ==> final(storage).contents().dom().contains(id),
        forall|k: MortonOctantId|
            !subtree_of(*start_from_id).contains(k) ==> (final(storage).contents().dom().contains(k) <==> old(storage).contents().dom().contains(k)),
        forall|k: MortonOctantId|
            !subtree_of(*start_from_id).contains(k) && old(storage).contents().dom().contains(k)
                ==> final(storage).contents()[k] == old(storage).contents()[k],
        r.0 matches Ok(flow) ==> final(storage).contents().dom().contains(flow.carried_id())
            && subtree_of(*start_from_id).contains(flow.carried_id()),
        r.0 matches Ok(SearchControlFlowResult::Continue(subdivided)) ==> forall|j: nat|
            j < 8 ==> final(storage).contents().dom().contains(
                #[trigger] crate::octant_storage_trait::child_of(subdivided, j),
            ),
        old(storage).contents().dom().contains(*start_from_id) ==> (r.0 is Ok || r.0 == Err::<
            SearchControlFlowResult<MortonOctantId>,
            StorageError,
        >(StorageError::OverMaxDepth(S::max_depth_spec() as u8))),
        ({
            let res = r.0;
            let log = r.1@;
            &&& (!old(storage).contents().dom().contains(*start_from_id) ==> log.len() == 0)
            &&& (old(storage).contents().dom().contains(*start_from_id) ==> log.len() >= 1
                && log[0].1 == *start_from_id && log[0].0 as nat == start_from_id.depth_spec())
            &&& subdivision_visits_ok(final(storage).contents(), *start_from_id, log)
            &&& subdivision_break_only_last(log)
            &&& (res matches Ok(flow) ==> log.len() > 0 && res == Ok::<
                SearchControlFlowResult<MortonOctantId>,
                StorageError,
            >(subdivision_result_of(log.last())))
            &&& (old(storage).contents().dom().contains(*start_from_id) && res is Err
                ==> log.len() > 0 && log.last().2 == SearchControlFlow::Continue)
            &&& (forall|t: int, j: int|
                0 <= t < log.len() && 0 <= j < 8 && log[t].2 == SearchControlFlow::Continue
                    && #[trigger] log[t].3[j] && (res is Ok || t < log.len() - 1)
                    ==> final(storage).contents().dom().contains(
                    crate::octant_storage_trait::child_of(log[t].1, j as nat),
                ))
            &&& (forall|t: int|
                0 <= t < log.len() && (#[trigger] log[t]).2 == SearchControlFlow::Continue
                    ==> log[t].3 == full_slots())
            &&& (forall|t: int| 1 <= t < log.len() ==> #[trigger] subdivision_from_earlier(log, t))
        }),
{
    let start_from_depth = match storage.get_octant_depth(start_from_id) {
        Some(d) => d,
        None => {
            return (Err(StorageError::InvalidOctantId), Ghost(Seq::empty()));
        },
    };
    let max_depth = storage.get_max_depth();
    proof {
        storage.lemma_inv();
        assert(code_descends_from(start_from_id.as_nat(), start_from_id.as_nat()));
    }
    let ghost init_entry: (Depth, MortonOctantId) = (start_from_depth, *start_from_id);
    let ghost mut log: Seq<SubdivisionVisit> = Seq::empty();
    let mut to_be_visited: std::collections::VecDeque<(Depth, MortonOctantId)> =
        std::collections::VecDeque::new();
    to_be_visited.push_back((start_from_depth, *start_from_id));
    proof {
        assert(to_be_visited@ =~= seq![init_entry]);
        assert forall|t: int| 0 <= t < to_be_visited@.len() implies queue_entry_from(
            log,
            init_entry,
            #[trigger] to_be_visited@[t],
        ) by {
            reveal(queue_entry_from);
            assert(to_be_visited@[0] == init_entry);
        }
    }
    let mut last_visited_step: Option<SearchControlFlowResult<MortonOctantId>> = None;
    while to_be_visited.len() > 0
        invariant
            storage.inv(),
            old(storage).contents().dom().contains(*start_from_id),
            storage.contents().dom().contains(*start_from_id),
            max_depth as nat == S::max_depth_spec(),
            max_depth <= 16,
            start_from_depth as nat == start_from_id.depth_spec(),
            init_entry == (start_from_depth, *start_from_id),
            forall|id: MortonOctantId| #[trigger]
                old(storage).contents().dom().contains(id) ==> storage.contents().dom().contains(
                    id,
                ),
            forall|k: MortonOctantId|
                !subtree_of(*start_from_id).contains(k) ==> (storage.contents().dom().contains(k)
                    <==> old(storage).contents().dom().contains(k)),
            forall|k: MortonOctantId|
                !subtree_of(*start_from_id).contains(k) && old(storage).contents().dom().contains(k) ==> storage.contents()[k] == old(storage).contents()[k],
            forall|t: int|
                0 <= t < to_be_visited@.len() ==> queue_entry_ok(
                    storage.contents(),
                    *start_from_id,
                    #[trigger] to_be_visited@[t],
                ),
            subdivision_visits_ok(storage.contents(), *start_from_id, log),
            forall|t: int|
                0 <= t < log.len() ==> (#[trigger] log[t]).2 != SearchControlFlow::Break,
            log.len() == 0 ==> to_be_visited@ == seq![init_entry],
            log.len() > 0 ==> log[0].1 == *start_from_id && log[0].0 == start_from_depth,
            forall|t: int, j: int|
                0 <= t < log.len() && 0 <= j < 8 && log[t].2 == SearchControlFlow::Continue
                    && #[trigger] log[t].3[j] ==> storage.contents().dom().contains(
                    crate::octant_storage_trait::child_of(log[t].1, j as nat),
                ),
            forall|t: int|
                0 <= t < log.len() && (#[trigger] log[t]).2 == SearchControlFlow::Continue
                    ==> log[t].3 == full_slots(),
            forall|t: int|
                0 <= t < to_be_visited@.len() ==> queue_entry_from(
                    log,
                    init_entry,
                    #[trigger] to_be_visited@[t],
                ),
            forall|t: int| 1 <= t < log.len() ==> #[trigger] subdivision_from_earlier(log, t),
            match last_visited_step {
                Some(flow) => log.len() > 0 && flow == subdivision_result_of(log.last())
                    && storage.contents().dom().contains(flow.carried_id())
                    && subtree_of(*start_from_id).contains(flow.carried_id()),
                None => log.len() == 0 && to_be_visited@.len() > 0,
            },
        decreases queue_potential(to_be_visited@),
    {
        let ghost q_begin = to_be_visited@;
        let ghost m_head = storage.contents();
        let (depth, octant_id) = match to_be_visited.pop_front() {
            Some(p) => p,
            None => {
                proof {
                    assert(false);
                }
                return (Err(StorageError::InvalidOctantId), Ghost(log));
            },
        };
        proof {
            assert(queue_entry_ok(storage.contents(), *start_from_id, q_begin[0]));
            assert(queue_entry_from(log, init_entry, q_begin[0]));
        }
        let next_step = {
            let data = match storage.get_octant_mut(&octant_id) {
                Some(d) => d,
                None => {
                    proof {
                        assert(false);
                    }
                    return (Err(StorageError::InvalidOctantId), Ghost(log));
                },
            };
            subdivide_predicate.decide(depth, &octant_id, data)
        };
        proof {
            assert(storage.contents().dom() =~= m_head.dom());
            assert forall|k: MortonOctantId|
                !subtree_of(*start_from_id).contains(k) && old(
                    storage,
                ).contents().dom().contains(k) implies storage.contents()[k] == old(
                storage,
            ).contents()[k] by {
                assert(k != octant_id);
            }
        }
        match next_step {
            SubdivisionControlFlow::Break => {
                proof {
                    let v: SubdivisionVisit = (
                        depth,
                        octant_id,
                        SearchControlFlow::Break,
                        Seq::<bool>::empty(),
                    );
                    if log.len() == 0 {
                        assert(q_begin == seq![init_entry]);
                        assert(q_begin[0] == init_entry);
                    }
                    lemma_subdivision_push_facts(log, v);
                    lemma_record_pop(log, v, init_entry, q_begin[0]);
                    log = log.push(v);
                }
                return (Ok(SearchControlFlowResult::Break(octant_id)), Ghost(log));
            },
            SubdivisionControlFlow::Skip => {
                last_visited_step = Some(SearchControlFlowResult::Skip(octant_id));
                proof {
                    let v: SubdivisionVisit = (
                        depth,
                        octant_id,
                        SearchControlFlow::Skip,
                        Seq::<bool>::empty(),
                    );
                    if log.len() == 0 {
                        assert(q_begin == seq![init_entry]);
                        assert(q_begin[0] == init_entry);
                    }
                    lemma_subdivision_push_facts(log, v);
                    lemma_record_pop(log, v, init_entry, q_begin[0]);
                    lemma_queue_from_push(log, v, init_entry, to_be_visited@);
                    log = log.push(v);
                    assert(queue_potential(q_begin) == visit_weight(depth) + queue_potential(
                        to_be_visited@,
                    ));
                    lemma_nine_pow_pos((17 - depth) as nat);
                }
            },
            SubdivisionControlFlow::Continue(create_data) => {
                if create_data.len() != 8 {
                    last_visited_step = Some(SearchControlFlowResult::Skip(octant_id));
                    proof {
                        let v: SubdivisionVisit = (
                            depth,
                            octant_id,
                            SearchControlFlow::Skip,
                            Seq::<bool>::empty(),
                        );
                        if log.len() == 0 {
                            assert(q_begin == seq![init_entry]);
                            assert(q_begin[0] == init_entry);
                        }
                        lemma_subdivision_push_facts(log, v);
                        lemma_record_pop(log, v, init_entry, q_begin[0]);
                        lemma_queue_from_push(log, v, init_entry, to_be_visited@);
                        log = log.push(v);
                        assert(queue_potential(q_begin) == visit_weight(depth) + queue_potential(
                            to_be_visited@,
                        ));
                        lemma_nine_pow_pos((17 - depth) as nat);
                    }
                } else {
                    last_visited_step = Some(SearchControlFlowResult::Continue(octant_id));
                    let ghost mask = full_slots();
                    let ghost v: SubdivisionVisit = (
                        depth,
                        octant_id,
                        SearchControlFlow::Continue,
                        mask,
                    );
                    proof {
                        if log.len() == 0 {
                            assert(q_begin == seq![init_entry]);
                            assert(q_begin[0] == init_entry);
                        }
                        lemma_subdivision_push_facts(log, v);
                        lemma_record_pop(log, v, init_entry, q_begin[0]);
                        lemma_queue_from_push(log, v, init_entry, to_be_visited@);
                        log = log.push(v);
                        assert(log.last() == v);
                    }
                    let ghost m_mid = storage.contents();
                    let ghost q_popped = to_be_visited@;
                    let child_depth = depth + 1;
                    let mut slots = create_data;
                    let mut ci: u8 = 0;
                    while ci < 8
                        invariant
                            storage.inv(),
                            old(storage).contents().dom().contains(*start_from_id),
                            storage.contents().dom().contains(*start_from_id),
                            storage.contents().dom().contains(octant_id),
                            subtree_of(*start_from_id).contains(octant_id),
                            depth as nat == octant_id.depth_spec(),
                            depth <= 16,
                            max_depth <= 16,
                            child_depth == depth + 1,
                            q_begin.len() > 0,
                            q_begin[0].0 == depth,
                            q_popped == q_begin.drop_first(),
                            max_depth as nat == S::max_depth_spec(),
                            start_from_depth as nat == start_from_id.depth_spec(),
                            init_entry == (start_from_depth, *start_from_id),
                            ci <= 8,
                            slots@.len() + ci == 8,
                            forall|id: MortonOctantId| #[trigger]
                                old(storage).contents().dom().contains(id)
                                    ==> storage.contents().dom().contains(id),
                            forall|k: MortonOctantId|
                                !subtree_of(*start_from_id).contains(k) ==> (
                                storage.contents().dom().contains(k) <==> old(
                                    storage,
                                ).contents().dom().contains(k)),
                            forall|k: MortonOctantId|
                                !subtree_of(*start_from_id).contains(k) && old(
                                    storage,
                                ).contents().dom().contains(k) ==> storage.contents()[k] == old(
                                    storage,
                                ).contents()[k],
                            forall|t: int|
                                0 <= t < to_be_visited@.len() ==> queue_entry_ok(
                                    storage.contents(),
                                    *start_from_id,
                                    #[trigger] to_be_visited@[t],
                                ),
                            queue_potential(to_be_visited@) <= queue_potential(q_popped) + ci
                                * visit_weight(child_depth),
                            subdivision_visits_ok(storage.contents(), *start_from_id, log),
                            forall|t: int|
                                0 <= t < log.len() ==> (#[trigger] log[t]).2
                                    != SearchControlFlow::Break,
                            log.len() > 0,
                            log[0].1 == *start_from_id && log[0].0 == start_from_depth,
                            log.last() == v,
                            v == (depth, octant_id, SearchControlFlow::Continue, mask),
                            mask == full_slots(),
                            forall|id: MortonOctantId| #[trigger]
                                m_mid.dom().contains(id) ==> storage.contents().dom().contains(
                                    id,
                                ),
                            forall|t: int, j: int|
                                0 <= t < log.len() - 1 && 0 <= j < 8 && log[t].2
                                    == SearchControlFlow::Continue && #[trigger] log[t].3[j]
                                    ==> m_mid.dom().contains(
                                    crate::octant_storage_trait::child_of(log[t].1, j as nat),
                                ),
                            forall|t: int|
                                0 <= t < log.len() && (#[trigger] log[t]).2
                                    == SearchControlFlow::Continue ==> log[t].3 == full_slots(),
                            forall|j: int|
                                0 <= j < ci ==> storage.contents().dom().contains(
                                    #[trigger] crate::octant_storage_trait::child_of(
                                        octant_id,
                                        j as nat,
                                    ),
                                ),
                            forall|t: int|
                                0 <= t < to_be_visited@.len() ==> queue_entry_from(
                                    log,
                                    init_entry,
                                    #[trigger] to_be_visited@[t],
                                ),
                            forall|t: int|
                                1 <= t < log.len() ==> #[trigger] subdivision_from_earlier(log, t),
                            match last_visited_step {
                                Some(flow) => flow == subdivision_result_of(log.last())
                                    && storage.contents().dom().contains(flow.carried_id())
                                    && subtree_of(*start_from_id).contains(flow.carried_id()),
                                None => false,
                            },
                        decreases 8 - ci,
                    {
                        let new_data = slots.remove(0);
                        let placement = match OctantPlacement::try_from_index(ci as usize) {
                            Some(p) => p,
                            None => {
                                proof {
                                    assert(false);
                                }
                                return (Err(StorageError::InvalidOctantId), Ghost(log));
                            },
                        };
                        proof {
                            storage.lemma_inv();
                        }
                        let child_id = match storage.insert_octant(
                            &octant_id,
                            placement,
                            new_data,
                        ) {
                            Ok((c, _)) => c,
                            Err(e) => {
                                proof {
                                    assert(q_begin.drop_first() =~= q_popped);
                                    assert(queue_potential(q_begin) == visit_weight(depth)
                                        + queue_potential(q_popped));
                                }
                                return (Err(e), Ghost(log));
                            },
                        };
                        proof {
                            storage.lemma_inv();
                            lemma_inserted_child_facts(
                                storage.contents(),
                                *start_from_id,
                                octant_id,
                                child_id,
                                placement.index_spec(),
                            );
                            lemma_potential_push(to_be_visited@, (child_depth, child_id));
                            assert forall|k: MortonOctantId|
                                !subtree_of(*start_from_id).contains(k) implies k != child_id by {}
                            assert(placement.index_spec() == ci as nat);
                            assert(queue_entry_from(
                                log,
                                init_entry,
                                (child_depth, child_id),
                            )) by {
                                reveal(queue_entry_from);
                                assert(log[log.len() - 1].3[ci as int]);
                                assert(log[log.len() - 1].2 == SearchControlFlow::Continue);
                                assert(child_id == crate::octant_storage_trait::child_of(
                                    log[log.len() - 1].1,
                                    ci as nat,
                                ));
                            }
                            assert((ci as nat + 1) * visit_weight(child_depth) == ci as nat
                                * visit_weight(child_depth) + visit_weight(child_depth))
                                by (nonlinear_arith);
                        }
                        to_be_visited.push_back((child_depth, child_id));
                        ci = ci + 1;
                    }
                    proof {
                        assert(queue_potential(q_begin) == visit_weight(depth) + queue_potential(
                            q_popped,
                        ));
                        lemma_weight_step(depth);
                        assert(queue_potential(to_be_visited@) <= queue_potential(q_popped) + 8
                            * visit_weight(child_depth));
                        assert(8 * visit_weight(child_depth) < visit_weight(depth));
                        assert forall|t: int, j: int|
                            0 <= t < log.len() && 0 <= j < 8 && log[t].2
                                == SearchControlFlow::Continue && #[trigger] log[t].3[j] implies storage.contents().dom().contains(
                            crate::octant_storage_trait::child_of(log[t].1, j as nat),
                        ) by {
                            if t == log.len() - 1 {
                                assert(log[t] == v);
                                assert(log[t].1 == octant_id);
                                assert(storage.contents().dom().contains(
                                    crate::octant_storage_trait::child_of(octant_id, j as nat),
                                ));
                            } else {
                                assert(0 <= t < log.len() - 1);
                                assert(m_mid.dom().contains(
                                    crate::octant_storage_trait::child_of(log[t].1, j as nat),
                                ));
                                assert(storage.contents().dom().contains(
                                    crate::octant_storage_trait::child_of(log[t].1, j as nat),
                                ));
                            }
                        }
                    }
                }
            },
        }
    }
    proof {
        let lv = last_visited_step;
        match lv {
            Some(SearchControlFlowResult::Continue(x)) => {
                assert(log.len() > 0 && log.last().2 == SearchControlFlow::Continue && x
                    == log.last().1);
                assert forall|j: nat| j < 8 implies storage.contents().dom().contains(
                    #[trigger] crate::octant_storage_trait::child_of(x, j),
                ) by {
                    assert(log[log.len() - 1].3[j as int]);
                }
            },
            _ => {},
        }
    }
    match last_visited_step {
        Some(flow) => (Ok(flow), Ghost(log)),
        None => {
            proof {
                assert(false);
            }
            (Err(StorageError::InvalidOctantId), Ghost(log))
        },
    }
}

/// Conditional subdivision where the predicate may create only some of
/// the eight children: a `Continue` carries one optional payload per
/// placement, and only the occupied slots are created and enqueued.
///
/// Fails exactly as `subdivide_if_from_storage` does, and yields the
/// same kind of ghost visit log; here a record's slot list marks which
/// placements the decision occupied.
#[verifier::rlimit(100)]
#[verifier::spinoff_prover]
pub fn subdivide_if_some_from_storage<
    S: ModifiableOctantStorage,
    P: SubdivisionMaybePredicate<S::Data>,
>(
    storage: &mut S,
    start_from_id: &MortonOctantId,
    subdivide_predicate: &mut P,
) -> (r: (StorageResult<SearchControlFlowResult<MortonOctantId>>, Ghost<Seq<SubdivisionVisit>>))
    requires
        old(storage).inv(),
    ensures
        final(storage).inv(),
        !old(storage).contents().dom().contains(*start_from_id) <==> r.0 == Err::<
            SearchControlFlowResult<MortonOctantId>,
            StorageError,
        >(StorageError::InvalidOctantId),
        !old(storage).contents().dom().contains(*start_from_id) ==> final(storage).contents()
            == old(storage).contents(),
        forall|id: MortonOctantId| #[trigger]
            old(storage).contents().dom().contains(id) ==> final(storage).contents().dom().contains(id),
        forall|k: MortonOctantId|
            !subtree_of(*start_from_id).contains(k) ==> (final(storage).contents().dom().contains(k) <==> old(storage).contents().dom().contains(k)),
        forall|k: MortonOctantId|
            !subtree_of(*start_from_id).contains(k) && old(storage).contents().dom().contains(k)
                ==> final(storage).contents()[k] == old(storage).contents()[k],
        r.0 matches Ok(flow) ==> final(storage).contents().dom().contains(flow.carried_id())
            && subtree_of(*start_from_id).contains(flow.carried_id()),
        old(storage).contents().dom().contains(*start_from_id) ==> (r.0 is Ok || r.0 == Err::<
            SearchControlFlowResult<MortonOctantId>,
            StorageError,
        >(StorageError::OverMaxDepth(S::max_depth_spec() as u8))),
        ({
            let res = r.0;
            let log = r.1@;
            &&& (!old(storage).contents().dom().contains(*start_from_id) ==> log.len() == 0)
            &&& (old(storage).contents().dom().contains(*start_from_id) ==> log.len() >= 1
                && log[0].1 == *start_from_id && log[0].0 as nat == start_from_id.depth_spec())
            &&& subdivision_visits_ok(final(storage).contents(), *start_from_id, log)
            &&& subdivision_break_only_last(log)
            &&& (res matches Ok(flow) ==> log.len() > 0 && res == Ok::<
                SearchControlFlowResult<MortonOctantId>,
                StorageError,
            >(subdivision_result_of(log.last())))
            &&& (old(storage).contents().dom().contains(*start_from_id) && res is Err
                ==> log.len() > 0 && log.last().2 == SearchControlFlow::Continue)
            &&& (forall|t: int, j: int|
                0 <= t < log.len() && 0 <= j < 8 && log[t].2 == SearchControlFlow::Continue
                    && #[trigger] log[t].3[j] && (res is Ok || t < log.len() - 1)
                    ==> final(storage).contents().dom().contains(
                    crate::octant_storage_trait::child_of(log[t].1, j as nat),
                ))
            &&& (forall|t: int| 1 <= t < log.len() ==> #[trigger] subdivision_from_earlier(log, t))
        }),
{
    let start_from_depth = match storage.get_octant_depth(start_from_id) {
        Some(d) => d,
        None => {
            return (Err(StorageError::InvalidOctantId), Ghost(Seq::empty()));
        },
    };
    let max_depth = storage.get_max_depth();
    proof {
        storage.lemma_inv();
        assert(code_descends_from(start_from_id.as_nat(), start_from_id.as_nat()));
    }
    let ghost init_entry: (Depth, MortonOctantId) = (start_from_depth, *start_from_id);
    let ghost mut log: Seq<SubdivisionVisit> = Seq::empty();
    let mut to_be_visited: std::collections::VecDeque<(Depth, MortonOctantId)> =
        std::collections::VecDeque::new();
    to_be_visited.push_back((start_from_depth, *start_from_id));
    proof {
        assert(to_be_visited@ =~= seq![init_entry]);
        assert forall|t: int| 0 <= t < to_be_visited@.len() implies queue_entry_from(
            log,
            init_entry,
            #[trigger] to_be_visited@[t],
        ) by {
            reveal(queue_entry_from);
            assert(to_be_visited@[0] == init_entry);
        }
    }
    let mut last_visited_step: Option<SearchControlFlowResult<MortonOctantId>> = None;
    while to_be_visited.len() > 0
        invariant
            storage.inv(),
            old(storage).contents().dom().contains(*start_from_id),
            storage.contents().dom().contains(*start_from_id),
            max_depth as nat == S::max_depth_spec(),
            max_depth <= 16,
            start_from_depth as nat == start_from_id.depth_spec(),
            init_entry == (start_from_depth, *start_from_id),
            forall|id: MortonOctantId| #[trigger]
                old(storage).contents().dom().contains(id) ==> storage.contents().dom().contains(
                    id,
                ),
            forall|k: MortonOctantId|
                !subtree_of(*start_from_id).contains(k) ==> (storage.contents().dom().contains(k)
                    <==> old(storage).contents().dom().contains(k)),
            forall|k: MortonOctantId|
                !subtree_of(*start_from_id).contains(k) && old(storage).contents().dom().contains(k) ==> storage.contents()[k] == old(storage).contents()[k],
            forall|t: int|
                0 <= t < to_be_visited@.len() ==> queue_entry_ok(
                    storage.contents(),
                    *start_from_id,
                    #[trigger] to_be_visited@[t],
                ),
            subdivision_visits_ok(storage.contents(), *start_from_id, log),
            forall|t: int|
                0 <= t < log.len() ==> (#[trigger] log[t]).2 != SearchControlFlow::Break,
            log.len() == 0 ==> to_be_visited@ == seq![init_entry],
            log.len() > 0 ==> log[0].1 == *start_from_id && log[0].0 == start_from_depth,
            forall|t: int, j: int|
                0 <= t < log.len() && 0 <= j < 8 && log[t].2 == SearchControlFlow::Continue
                    && #[trigger] log[t].3[j] ==> storage.contents().dom().contains(
                    crate::octant_storage_trait::child_of(log[t].1, j as nat),
                ),
            forall|t: int|
                0 <= t < to_be_visited@.len() ==> queue_entry_from(
                    log,
                    init_entry,
                    #[trigger] to_be_visited@[t],
                ),
            forall|t: int| 1 <= t < log.len() ==> #[trigger] subdivision_from_earlier(log, t),
            match last_visited_step {
                Some(flow) => log.len() > 0 && flow == subdivision_result_of(log.last())
                    && storage.contents().dom().contains(flow.carried_id())
                    && subtree_of(*start_from_id).contains(flow.carried_id()),
                None => log.len() == 0 && to_be_visited@.len() > 0,
            },
        decreases queue_potential(to_be_visited@),
    {
        let ghost q_begin = to_be_visited@;
        let ghost m_head = storage.contents();
        let (depth, octant_id) = match to_be_visited.pop_front() {
            Some(p) => p,
            None => {
                proof {
                    assert(false);
                }
                return (Err(StorageError::InvalidOctantId), Ghost(log));
            },
        };
        proof {
            assert(queue_entry_ok(storage.contents(), *start_from_id, q_begin[0]));
            assert(queue_entry_from(log, init_entry, q_begin[0]));
        }
        let next_step = {
            let data = match storage.get_octant_mut(&octant_id) {
                Some(d) => d,
                None => {
                    proof {
                        assert(false);
                    }
                    return (Err(StorageError::InvalidOctantId), Ghost(log));
                },
            };
            subdivide_predicate.decide_some(depth, &octant_id, data)
        };
        proof {
            assert(storage.contents().dom() =~= m_head.dom());
            assert forall|k: MortonOctantId|
                !subtree_of(*start_from_id).contains(k) && old(
                    storage,
                ).contents().dom().contains(k) implies storage.contents()[k] == old(
                storage,
            ).contents()[k] by {
                assert(k != octant_id);
            }
        }
        match next_step {
            SubdivisionControlFlow::Break => {
                proof {
                    let v: SubdivisionVisit = (
                        depth,
                        octant_id,
                        SearchControlFlow::Break,
                        Seq::<bool>::empty(),
                    );
                    if log.len() == 0 {
                        assert(q_begin == seq![init_entry]);
                        assert(q_begin[0] == init_entry);
                    }
                    lemma_subdivision_push_facts(log, v);
                    lemma_record_pop(log, v, init_entry, q_begin[0]);
                    log = log.push(v);
                }
                return (Ok(SearchControlFlowResult::Break(octant_id)), Ghost(log));
            },
            SubdivisionControlFlow::Skip => {
                last_visited_step = Some(SearchControlFlowResult::Skip(octant_id));
                proof {
                    let v: SubdivisionVisit = (
                        depth,
                        octant_id,
                        SearchControlFlow::Skip,
                        Seq::<bool>::empty(),
                    );
                    if log.len() == 0 {
                        assert(q_begin == seq![init_entry]);
                        assert(q_begin[0] == init_entry);
                    }
                    lemma_subdivision_push_facts(log, v);
                    lemma_record_pop(log, v, init_entry, q_begin[0]);
                    lemma_queue_from_push(log, v, init_entry, to_be_visited@);
                    log = log.push(v);
                    assert(queue_potential(q_begin) == visit_weight(depth) + queue_potential(
                        to_be_visited@,
                    ));
                    lemma_nine_pow_pos((17 - depth) as nat);
                }
            },
            SubdivisionControlFlow::Continue(create_data) => {
                if create_data.len() != 8 {
                    last_visited_step = Some(SearchControlFlowResult::Skip(octant_id));
                    proof {
                        let v: SubdivisionVisit = (
                            depth,
                            octant_id,
                            SearchControlFlow::Skip,
                            Seq::<bool>::empty(),
                        );
                        if log.len() == 0 {
                            assert(q_begin == seq![init_entry]);
                            assert(q_begin[0] == init_entry);
                        }
                        lemma_subdivision_push_facts(log, v);
                        lemma_record_pop(log, v, init_entry, q_begin[0]);
                        lemma_queue_from_push(log, v, init_entry, to_be_visited@);
                        log = log.push(v);
                        assert(queue_potential(q_begin) == visit_weight(depth) + queue_potential(
                            to_be_visited@,
                        ));
                        lemma_nine_pow_pos((17 - depth) as nat);
                    }
                } else {
                    last_visited_step = Some(SearchControlFlowResult::Continue(octant_id));
                    let ghost mask = Seq::new(8, |i: int| create_data@[i] is Some);
                    let ghost v: SubdivisionVisit = (
                        depth,
                        octant_id,
                        SearchControlFlow::Continue,
                        mask,
                    );
                    proof {
                        if log.len() == 0 {
                            assert(q_begin == seq![init_entry]);
                            assert(q_begin[0] == init_entry);
                        }
                        lemma_subdivision_push_facts(log, v);
                        lemma_record_pop(log, v, init_entry, q_begin[0]);
                        lemma_queue_from_push(log, v, init_entry, to_be_visited@);
                        log = log.push(v);
                        assert(log.last() == v);
                    }
                    let ghost q_popped = to_be_visited@;
                    let child_depth = depth + 1;
                    let mut slots = create_data;
                    let mut ci: u8 = 0;
                    while ci < 8
                        invariant
                            storage.inv(),
                            old(storage).contents().dom().contains(*start_from_id),
                            storage.contents().dom().contains(*start_from_id),
                            storage.contents().dom().contains(octant_id),
                            subtree_of(*start_from_id).contains(octant_id),
                            depth as nat == octant_id.depth_spec(),
                            depth <= 16,
                            max_depth <= 16,
                            child_depth == depth + 1,
                            q_begin.len() > 0,
                            q_begin[0].0 == depth,
                            q_popped == q_begin.drop_first(),
                            max_depth as nat == S::max_depth_spec(),
                            start_from_depth as nat == start_from_id.depth_spec(),
                            init_entry == (start_from_depth, *start_from_id),
            init_entry == (start_from_depth, *start_from_id),
                            ci <= 8,
                            slots@.len() + ci == 8,
                            forall|j: int|
                                ci <= j < 8 ==> (#[trigger] mask[j] <==> slots@[j - ci]
                                    is Some),
                            forall|id: MortonOctantId| #[trigger]
                                old(storage).contents().dom().contains(id)
                                    ==> storage.contents().dom().contains(id),
                            forall|k: MortonOctantId|
                                !subtree_of(*start_from_id).contains(k) ==> (
                                storage.contents().dom().contains(k) <==> old(
                                    storage,
                                ).contents().dom().contains(k)),
                            forall|k: MortonOctantId|
                                !subtree_of(*start_from_id).contains(k) && old(
                                    storage,
                                ).contents().dom().contains(k) ==> storage.contents()[k] == old(
                                    storage,
                                ).contents()[k],
                            forall|t: int|
                                0 <= t < to_be_visited@.len() ==> queue_entry_ok(
                                    storage.contents(),
                                    *start_from_id,
                                    #[trigger] to_be_visited@[t],
                                ),
                            queue_potential(to_be_visited@) <= queue_potential(q_popped) + ci
                                * visit_weight(child_depth),
                            subdivision_visits_ok(storage.contents(), *start_from_id, log),
                            forall|t: int|
                                0 <= t < log.len() ==> (#[trigger] log[t]).2
                                    != SearchControlFlow::Break,
                            log.len() > 0,
                            log[0].1 == *start_from_id && log[0].0 == start_from_depth,
                            log.last() == v,
                            v == (depth, octant_id, SearchControlFlow::Continue, mask),
                            mask.len() == 8,
                            forall|t: int, j: int|
                                0 <= t < log.len() - 1 && 0 <= j < 8 && log[t].2
                                    == SearchControlFlow::Continue && #[trigger] log[t].3[j]
                                    ==> storage.contents().dom().contains(
                                    crate::octant_storage_trait::child_of(log[t].1, j as nat),
                                ),
                            forall|j: int|
                                0 <= j < ci && mask[j] ==> storage.contents().dom().contains(
                                    #[trigger] crate::octant_storage_trait::child_of(
                                        octant_id,
                                        j as nat,
                                    ),
                                ),
                            forall|t: int|
                                0 <= t < to_be_visited@.len() ==> queue_entry_from(
                                    log,
                                    init_entry,
                                    #[trigger] to_be_visited@[t],
                                ),
                            forall|t: int|
                                1 <= t < log.len() ==> #[trigger] subdivision_from_earlier(log, t),
                            match last_visited_step {
                                Some(flow) => flow == subdivision_result_of(log.last())
                                    && storage.contents().dom().contains(flow.carried_id())
                                    && subtree_of(*start_from_id).contains(flow.carried_id()),
                                None => false,
                            },
                        decreases 8 - ci,
                    {
                        let slot = slots.remove(0);
                        let placement = match OctantPlacement::try_from_index(ci as usize) {
                            Some(p) => p,
                            None => {
                                proof {
                                    assert(false);
                                }
                                return (Err(StorageError::InvalidOctantId), Ghost(log));
                            },
                        };
                        match slot {
                            Some(new_data) => {
                                proof {
                                    storage.lemma_inv();
                                }
                                let child_id = match storage.insert_octant(
                                    &octant_id,
                                    placement,
                                    new_data,
                                ) {
                                    Ok((c, _)) => c,
                                    Err(e) => {
                                        proof {
                                            assert(q_begin.drop_first() =~= q_popped);
                                            assert(queue_potential(q_begin) == visit_weight(depth)
                                                + queue_potential(q_popped));
                                        }
                                        return (Err(e), Ghost(log));
                                    },
                                };
                                proof {
                                    storage.lemma_inv();
                                    lemma_inserted_child_facts(
                                        storage.contents(),
                                        *start_from_id,
                                        octant_id,
                                        child_id,
                                        placement.index_spec(),
                                    );
                                    lemma_potential_push(to_be_visited@, (child_depth, child_id));
                                    assert forall|k: MortonOctantId|
                                        !subtree_of(*start_from_id).contains(k) implies k
                                        != child_id by {}
                                    assert(placement.index_spec() == ci as nat);
                                    assert(mask[ci as int]);
                                    assert(queue_entry_from(
                                        log,
                                        init_entry,
                                        (child_depth, child_id),
                                    )) by {
                                        reveal(queue_entry_from);
                                        assert(log[log.len() - 1].3[ci as int]);
                                        assert(log[log.len() - 1].2
                                            == SearchControlFlow::Continue);
                                        assert(child_id == crate::octant_storage_trait::child_of(
                                            log[log.len() - 1].1,
                                            ci as nat,
                                        ));
                                    }
                                }
                                to_be_visited.push_back((child_depth, child_id));
                            },
                            None => {},
                        }
                        proof {
                            assert((ci as nat + 1) * visit_weight(child_depth) == ci as nat
                                * visit_weight(child_depth) + visit_weight(child_depth))
                                by (nonlinear_arith);
                        }
                        ci = ci + 1;
                    }
                    proof {
                        assert(queue_potential(q_begin) == visit_weight(depth) + queue_potential(
                            q_popped,
                        ));
                        lemma_weight_step(depth);
                        assert(queue_potential(to_be_visited@) <= queue_potential(q_popped) + 8
                            * visit_weight(child_depth));
                        assert(8 * visit_weight(child_depth) < visit_weight(depth));
                    }
                }
            },
        }
    }
    match last_visited_step {
        Some(flow) => (Ok(flow), Ghost(log)),
        None => {
            proof {
                assert(false);
            }
            (Err(StorageError::InvalidOctantId), Ghost(log))
        },
    }
}


/// Names the identifier type a tree hands to its callers.
pub trait OctantIdTypeInfo {
    /// The identifier type.
    type OctantId;
}

/// A sparse octree: a storage backend together with the traversal engine.
#[derive(Debug)]
pub struct OctreeBase<Storage> {
    /// The storage backend holding the octants.
    pub octants: Storage,
}

impl<Storage: OctantStorage> OctantIdTypeInfo for OctreeBase<Storage> {
    type OctantId = MortonOctantId;
}

impl<Storage: OctantStorage> OctreeBase<Storage> {
    /// Wrap an existing backend.
    pub fn new_with_storage(storage: Storage) -> (r: Self)
        ensures
            r.octants == storage,
    {
        OctreeBase { octants: storage }
    }

    /// Guided descent from `octant_id`; see `guided_search_from_storage`.
    pub fn guided_search<G: SearchGuide>(
        &self,
        octant_id: &MortonOctantId,
        guide_func: &mut G,
    ) -> (r: (StorageResult<MortonOctantId>, Ghost<Seq<GuideVisit>>))
        requires
            self.octants.inv(),
        ensures
        ({
            let res = r.0;
            let log = r.1@;
            &&& !self.octants.contents().dom().contains(*octant_id) <==> res == Err::<
                MortonOctantId,
                StorageError,
            >(StorageError::InvalidOctantId)
            &&& !self.octants.contents().dom().contains(*octant_id) ==> log.len() == 0
            &&& self.octants.contents().dom().contains(*octant_id) ==> res is Ok && log.len() >= 1
                && log[0].1 == *octant_id && log[0].0 as nat == octant_id.depth_spec()
            &&& (forall|t: int|
                0 <= t < log.len() ==> {
                    let v = #[trigger] log[t];
                    &&& self.octants.contents().dom().contains(v.1)
                    &&& subtree_of(*octant_id).contains(v.1)
                    &&& v.0 as nat == v.1.depth_spec()
                })
            &&& (forall|t: int|
                0 <= t < log.len() - 1 ==> guide_step_ok(
                    self.octants.contents(),
                    #[trigger] log[t],
                    log[t + 1],
                ))
            &&& (res matches Ok(found) ==> found == log.last().1 && match log.last().2 {
                Some(p) => !self.octants.contents().dom().contains(
                    crate::octant_storage_trait::child_of(log.last().1, p.index_spec()),
                ),
                None => true,
            })
        }),    {
        guided_search_from_storage(&self.octants, octant_id, guide_func)
    }

    /// Guided descent from the root; see `guided_search_from_storage`.
    pub fn guided_search_from_root<G: SearchGuide>(&self, guide_func: &mut G) -> (r: (
        StorageResult<MortonOctantId>,
        Ghost<Seq<GuideVisit>>,
    ))
        requires
            self.octants.inv(),
        ensures
        ({
            let res = r.0;
            let log = r.1@;
            &&& !self.octants.contents().dom().contains(MortonOctantId(1u64)) <==> res == Err::<
                MortonOctantId,
                StorageError,
            >(StorageError::InvalidOctantId)
            &&& !self.octants.contents().dom().contains(MortonOctantId(1u64)) ==> log.len() == 0
            &&& self.octants.contents().dom().contains(MortonOctantId(1u64)) ==> res is Ok && log.len() >= 1
                && log[0].1 == MortonOctantId(1u64) && log[0].0 as nat == MortonOctantId(1u64).depth_spec()
            &&& (forall|t: int|
                0 <= t < log.len() ==> {
                    let v = #[trigger] log[t];
                    &&& self.octants.contents().dom().contains(v.1)
                    &&& subtree_of(MortonOctantId(1u64)).contains(v.1)
                    &&& v.0 as nat == v.1.depth_spec()
                })
            &&& (forall|t: int|
                0 <= t < log.len() - 1 ==> guide_step_ok(
                    self.octants.contents(),
                    #[trigger] log[t],
                    log[t + 1],
                ))
            &&& (res matches Ok(found) ==> found == log.last().1 && match log.last().2 {
                Some(p) => !self.octants.contents().dom().contains(
                    crate::octant_storage_trait::child_of(log.last().1, p.index_spec()),
                ),
                None => true,
            })
        }),    {
        let root_id = self.octants.get_root_id();
        guided_search_from_storage(&self.octants, &root_id, guide_func)
    }

    /// Depth-first search from `octant_id`; see
    /// `depth_first_search_from_storage`.
    pub fn depth_first_search<V: SearchVisitor>(
        &self,
        octant_id: &MortonOctantId,
        search_func: &mut V,
    ) -> (r: (StorageResult<SearchControlFlowResult<MortonOctantId>>, Ghost<Seq<SearchVisit>>))
        requires
            self.octants.inv(),
        ensures
        ({
            let res = r.0;
            let log = r.1@;
            &&& !self.octants.contents().dom().contains(*octant_id) <==> res == Err::<
                SearchControlFlowResult<MortonOctantId>,
                StorageError,
            >(StorageError::InvalidOctantId)
            &&& !self.octants.contents().dom().contains(*octant_id) ==> log.len() == 0
            &&& self.octants.contents().dom().contains(*octant_id) ==> log.len() >= 1 && log[0].0
                as nat == octant_id.depth_spec() && log[0].1 == *octant_id
            &&& visits_ok(self.octants.contents(), *octant_id, log)
            &&& break_only_last(log)
            &&& (res matches Ok(flow) ==> self.octants.contents().dom().contains(flow.carried_id())
                && subtree_of(*octant_id).contains(flow.carried_id()))
            &&& (res matches Ok(flow) ==> log.len() > 0 && res == Ok::<
                SearchControlFlowResult<MortonOctantId>,
                StorageError,
            >(flow_result_of(log.last())))
            &&& (log.len() > 0 && log.last().2 == SearchControlFlow::Break ==> res == Ok::<
                SearchControlFlowResult<MortonOctantId>,
                StorageError,
            >(SearchControlFlowResult::Break(log.last().1)))
            &&& (res matches Ok(SearchControlFlowResult::Break(b)) ==> log.len() > 0
                && log.last().2 == SearchControlFlow::Break && b == log.last().1)
            &&& (self.octants.contents().dom().contains(*octant_id) && res is Err ==> res == Err::<
                SearchControlFlowResult<MortonOctantId>,
                StorageError,
            >(StorageError::OverMaxDepth(Storage::max_depth_spec() as u8)) && log.last().2
                == SearchControlFlow::Continue)
            &&& (self.octants.contents().dom().contains(*octant_id) && all_continue(log) && res is Ok
                ==> visit_ids(log) == dfs_order_spec(
                self.octants.contents(),
                *octant_id,
                (17 - octant_id.depth_spec()) as nat,
            ))
            &&& (self.octants.contents().dom().contains(*octant_id) && continue_prefix(log)
                ==> log.len() <= dfs_order_spec(
                self.octants.contents(),
                *octant_id,
                (17 - octant_id.depth_spec()) as nat,
            ).len() && visit_ids(log) == dfs_order_spec(
                self.octants.contents(),
                *octant_id,
                (17 - octant_id.depth_spec()) as nat,
            ).take(log.len() as int))
        }),    {
        depth_first_search_from_storage(&self.octants, octant_id, search_func)
    }

    /// Depth-first search from the root; see
    /// `depth_first_search_from_storage`.
    pub fn depth_first_search_from_root<V: SearchVisitor>(&self, search_func: &mut V) -> (r: (
        StorageResult<SearchControlFlowResult<MortonOctantId>>,
        Ghost<Seq<SearchVisit>>,
    ))
        requires
            self.octants.inv(),
        ensures
        ({
            let res = r.0;
            let log = r.1@;
            &&& !self.octants.contents().dom().contains(MortonOctantId(1u64)) <==> res == Err::<
                SearchControlFlowResult<MortonOctantId>,
                StorageError,
            >(StorageError::InvalidOctantId)
            &&& !self.octants.contents().dom().contains(MortonOctantId(1u64)) ==> log.len() == 0
            &&& self.octants.contents().dom().contains(MortonOctantId(1u64)) ==> log.len() >= 1 && log[0].0
                as nat == MortonOctantId(1u64).depth_spec() && log[0].1 == MortonOctantId(1u64)
            &&& visits_ok(self.octants.contents(), MortonOctantId(1u64), log)
            &&& break_only_last(log)
            &&& (res matches Ok(flow) ==> self.octants.contents().dom().contains(flow.carried_id())
                && subtree_of(MortonOctantId(1u64)).contains(flow.carried_id()))
            &&& (res matches Ok(flow) ==> log.len() > 0 && res == Ok::<
                SearchControlFlowResult<MortonOctantId>,
                StorageError,
            >(flow_result_of(log.last())))
            &&& (log.len() > 0 && log.last().2 == SearchControlFlow::Break ==> res == Ok::<
                SearchControlFlowResult<MortonOctantId>,
                StorageError,
            >(SearchControlFlowResult::Break(log.last().1)))
            &&& (res matches Ok(SearchControlFlowResult::Break(b)) ==> log.len() > 0
                && log.last().2 == SearchControlFlow::Break && b == log.last().1)
            &&& (self.octants.contents().dom().contains(MortonOctantId(1u64)) && res is Err ==> res == Err::<
                SearchControlFlowResult<MortonOctantId>,
                StorageError,
            >(StorageError::OverMaxDepth(Storage::max_depth_spec() as u8)) && log.last().2
                == SearchControlFlow::Continue)
            &&& (self.octants.contents().dom().contains(MortonOctantId(1u64)) && all_continue(log) && res is Ok
                ==> visit_ids(log) == dfs_order_spec(
                self.octants.contents(),
                MortonOctantId(1u64),
                (17 - MortonOctantId(1u64).depth_spec()) as nat,
            ))
            &&& (self.octants.contents().dom().contains(MortonOctantId(1u64)) && continue_prefix(log)
                ==> log.len() <= dfs_order_spec(
                self.octants.contents(),
                MortonOctantId(1u64),
                (17 - MortonOctantId(1u64).depth_spec()) as nat,
            ).len() && visit_ids(log) == dfs_order_spec(
                self.octants.contents(),
                MortonOctantId(1u64),
                (17 - MortonOctantId(1u64).depth_spec()) as nat,
            ).take(log.len() as int))
        }),    {
        let root_id = self.octants.get_root_id();
        depth_first_search_from_storage(&self.octants, &root_id, search_func)
    }

    /// Breadth-first search from `octant_id`; see
    /// `breadth_first_search_from_storage`.
    pub fn breadth_first_search<V: SearchVisitor>(
        &self,
        octant_id: &MortonOctantId,
        search_func: &mut V,
    ) -> (r: (StorageResult<SearchControlFlowResult<MortonOctantId>>, Ghost<Seq<SearchVisit>>))
        requires
            self.octants.inv(),
        ensures
        ({
            let res = r.0;
            let log = r.1@;
            &&& !self.octants.contents().dom().contains(*octant_id) <==> res == Err::<
                SearchControlFlowResult<MortonOctantId>,
                StorageError,
            >(StorageError::InvalidOctantId)
            &&& !self.octants.contents().dom().contains(*octant_id) ==> log.len() == 0
            &&& self.octants.contents().dom().contains(*octant_id) ==> log.len() >= 1 && log[0].0
                as nat == octant_id.depth_spec() && log[0].1 == *octant_id
            &&& visits_ok(self.octants.contents(), *octant_id, log)
            &&& break_only_last(log)
            &&& (res matches Ok(flow) ==> self.octants.contents().dom().contains(flow.carried_id())
                && subtree_of(*octant_id).contains(flow.carried_id()))
            &&& (res matches Ok(flow) ==> log.len() > 0 && res == Ok::<
                SearchControlFlowResult<MortonOctantId>,
                StorageError,
            >(flow_result_of(log.last())))
            &&& (log.len() > 0 && log.last().2 == SearchControlFlow::Break ==> res == Ok::<
                SearchControlFlowResult<MortonOctantId>,
                StorageError,
            >(SearchControlFlowResult::Break(log.last().1)))
            &&& (res matches Ok(SearchControlFlowResult::Break(b)) ==> log.len() > 0
                && log.last().2 == SearchControlFlow::Break && b == log.last().1)
            &&& (self.octants.contents().dom().contains(*octant_id) && res is Err ==> res
                == Err::<SearchControlFlowResult<MortonOctantId>, StorageError>(
                StorageError::OverMaxDepth(Storage::max_depth_spec() as u8),
            ) && log.last().2 == SearchControlFlow::Continue)
            &&& (self.octants.contents().dom().contains(*octant_id) && all_continue(log) && res
                is Ok ==> visit_levels(log) == bfs_order_spec(
                self.octants.contents(),
                seq![((octant_id.depth_spec() as u8), *octant_id)],
            ))
            &&& (self.octants.contents().dom().contains(*octant_id) && continue_prefix(log)
                ==> log.len() <= bfs_order_spec(
                self.octants.contents(),
                seq![((octant_id.depth_spec() as u8), *octant_id)],
            ).len() && visit_levels(log) == bfs_order_spec(
                self.octants.contents(),
                seq![((octant_id.depth_spec() as u8), *octant_id)],
            ).take(log.len() as int))
        }),    {
        breadth_first_search_from_storage(&self.octants, octant_id, search_func)
    }

    /// Breadth-first search from the root; see
    /// `breadth_first_search_from_storage`.
    pub fn breadth_first_search_from_root<V: SearchVisitor>(&self, search_func: &mut V) -> (r: (
        StorageResult<SearchControlFlowResult<MortonOctantId>>,
        Ghost<Seq<SearchVisit>>,
    ))
        requires
            self.octants.inv(),
        ensures
        ({
            let res = r.0;
            let log = r.1@;
            &&& !self.octants.contents().dom().contains(MortonOctantId(1u64)) <==> res == Err::<
                SearchControlFlowResult<MortonOctantId>,
                StorageError,
            >(StorageError::InvalidOctantId)
            &&& !self.octants.contents().dom().contains(MortonOctantId(1u64)) ==> log.len() == 0
            &&& self.octants.contents().dom().contains(MortonOctantId(1u64)) ==> log.len() >= 1 && log[0].0
                as nat == MortonOctantId(1u64).depth_spec() && log[0].1 == MortonOctantId(1u64)
            &&& visits_ok(self.octants.contents(), MortonOctantId(1u64), log)
            &&& break_only_last(log)
            &&& (res matches Ok(flow) ==> self.octants.contents().dom().contains(flow.carried_id())
                && subtree_of(MortonOctantId(1u64)).contains(flow.carried_id()))
            &&& (res matches Ok(flow) ==> log.len() > 0 && res == Ok::<
                SearchControlFlowResult<MortonOctantId>,
                StorageError,
            >(flow_result_of(log.last())))
            &&& (log.len() > 0 && log.last().2 == SearchControlFlow::Break ==> res == Ok::<
                SearchControlFlowResult<MortonOctantId>,
                StorageError,
            >(SearchControlFlowResult::Break(log.last().1)))
            &&& (res matches Ok(SearchControlFlowResult::Break(b)) ==> log.len() > 0
                && log.last().2 == SearchControlFlow::Break && b == log.last().1)
            &&& (self.octants.contents().dom().contains(MortonOctantId(1u64)) && res is Err ==> res
                == Err::<SearchControlFlowResult<MortonOctantId>, StorageError>(
                StorageError::OverMaxDepth(Storage::max_depth_spec() as u8),
            ) && log.last().2 == SearchControlFlow::Continue)
            &&& (self.octants.contents().dom().contains(MortonOctantId(1u64)) && all_continue(log) && res
                is Ok ==> visit_levels(log) == bfs_order_spec(
                self.octants.contents(),
                seq![((MortonOctantId(1u64).depth_spec() as u8), MortonOctantId(1u64))],
            ))
            &&& (self.octants.contents().dom().contains(MortonOctantId(1u64)) && continue_prefix(log)
                ==> log.len() <= bfs_order_spec(
                self.octants.contents(),
                seq![((MortonOctantId(1u64).depth_spec() as u8), MortonOctantId(1u64))],
            ).len() && visit_levels(log) == bfs_order_spec(
                self.octants.contents(),
                seq![((MortonOctantId(1u64).depth_spec() as u8), MortonOctantId(1u64))],
            ).take(log.len() as int))
        }),    {
        let root_id = self.octants.get_root_id();
        breadth_first_search_from_storage(&self.octants, &root_id, search_func)
    }

    /// The whole tree in level order, each octant tagged with its depth;
    /// see `breadth_first_order`.
    pub fn breadth_first_iterator(&self) -> (r: Vec<(Depth, MortonOctantId)>)
        requires
            self.octants.inv(),
        ensures
            r@ == bfs_order_spec(self.octants.contents(), seq![(0 as Depth, MortonOctantId(1u64))]),
    {
        breadth_first_order(&self.octants)
    }
}

impl<Storage: ModifiableOctantStorage> OctreeBase<Storage> {
    /// A tree over a fresh backend holding exactly a root octant.
    pub fn new_with_root(root_custom_data: Storage::Data) -> (r: Self)
        ensures
            r.octants.inv(),
            r.octants.contents() == Map::<MortonOctantId, Storage::Data>::empty().insert(
                MortonOctantId(1u64),
                root_custom_data,
            ),
    {
        OctreeBase { octants: Storage::new_with_root(root_custom_data) }
    }

    /// Guided descent with in-place payload edits; see
    /// `guided_search_from_storage_mut`.
    pub fn guided_search_mut<G: SearchGuideMut<Storage::Data>>(
        &mut self,
        octant_id: &MortonOctantId,
        guide_func: &mut G,
    ) -> (r: (StorageResult<MortonOctantId>, Ghost<Seq<GuideVisit>>))
        requires
            old(self).octants.inv(),
        ensures
        ({
            let res = r.0;
            let log = r.1@;
            &&& final(self).octants.inv()
            &&& final(self).octants.contents().dom() == old(self).octants.contents().dom()
            &&& (forall|k: MortonOctantId|
                !subtree_of(*octant_id).contains(k) && old(self).octants.contents().dom().contains(k)
                    ==> final(self).octants.contents()[k] == old(self).octants.contents()[k])
            &&& !old(self).octants.contents().dom().contains(*octant_id) <==> res == Err::<
                MortonOctantId,
                StorageError,
            >(StorageError::InvalidOctantId)
            &&& !old(self).octants.contents().dom().contains(*octant_id) ==> log.len() == 0 && final(self).octants.contents() == old(self).octants.contents()
            &&& old(self).octants.contents().dom().contains(*octant_id) ==> res is Ok && log.len() >= 1
                && log[0].1 == *octant_id && log[0].0 as nat == octant_id.depth_spec()
            &&& (forall|t: int|
                0 <= t < log.len() ==> {
                    let v = #[trigger] log[t];
                    &&& final(self).octants.contents().dom().contains(v.1)
                    &&& subtree_of(*octant_id).contains(v.1)
                    &&& v.0 as nat == v.1.depth_spec()
                })
            &&& (forall|t: int|
                0 <= t < log.len() - 1 ==> guide_step_ok(
                    final(self).octants.contents(),
                    #[trigger] log[t],
                    log[t + 1],
                ))
            &&& (res matches Ok(found) ==> found == log.last().1 && match log.last().2 {
                Some(p) => !final(self).octants.contents().dom().contains(
                    crate::octant_storage_trait::child_of(log.last().1, p.index_spec()),
                ),
                None => true,
            })
        }),    {
        guided_search_from_storage_mut(&mut self.octants, octant_id, guide_func)
    }

    /// Guided descent from the root with in-place payload edits; see
    /// `guided_search_from_storage_mut`.
    pub fn guided_search_from_root_mut<G: SearchGuideMut<Storage::Data>>(
        &mut self,
        guide_func: &mut G,
    ) -> (r: (StorageResult<MortonOctantId>, Ghost<Seq<GuideVisit>>))
        requires
            old(self).octants.inv(),
        ensures
        ({
            let res = r.0;
            let log = r.1@;
            &&& final(self).octants.inv()
            &&& final(self).octants.contents().dom() == old(self).octants.contents().dom()
            &&& (forall|k: MortonOctantId|
                !subtree_of(MortonOctantId(1u64)).contains(k) && old(self).octants.contents().dom().contains(k)
                    ==> final(self).octants.contents()[k] == old(self).octants.contents()[k])
            &&& !old(self).octants.contents().dom().contains(MortonOctantId(1u64)) <==> res == Err::<
                MortonOctantId,
                StorageError,
            >(StorageError::InvalidOctantId)
            &&& !old(self).octants.contents().dom().contains(MortonOctantId(1u64)) ==> log.len() == 0 && final(self).octants.contents() == old(self).octants.contents()
            &&& old(self).octants.contents().dom().contains(MortonOctantId(1u64)) ==> res is Ok && log.len() >= 1
                && log[0].1 == MortonOctantId(1u64) && log[0].0 as nat == MortonOctantId(1u64).depth_spec()
            &&& (forall|t: int|
                0 <= t < log.len() ==> {
                    let v = #[trigger] log[t];
                    &&& final(self).octants.contents().dom().contains(v.1)
                    &&& subtree_of(MortonOctantId(1u64)).contains(v.1)
                    &&& v.0 as nat == v.1.depth_spec()
                })
            &&& (forall|t: int|
                0 <= t < log.len() - 1 ==> guide_step_ok(
                    final(self).octants.contents(),
                    #[trigger] log[t],
                    log[t + 1],
                ))
            &&& (res matches Ok(found) ==> found == log.last().1 && match log.last().2 {
                Some(p) => !final(self).octants.contents().dom().contains(
                    crate::octant_storage_trait::child_of(log.last().1, p.index_spec()),
                ),
                None => true,
            })
        }),    {
        let root_id = self.octants.get_root_id();
        guided_search_from_storage_mut(&mut self.octants, &root_id, guide_func)
    }

    /// Depth-first search with in-place payload edits; see
    /// `depth_first_search_from_storage_mut`.
    pub fn depth_first_search_mut<V: SearchVisitorMut<Storage::Data>>(
        &mut self,
        octant_id: &MortonOctantId,
        search_func: &mut V,
    ) -> (r: (StorageResult<SearchControlFlowResult<MortonOctantId>>, Ghost<Seq<SearchVisit>>))
        requires
            old(self).octants.inv(),
        ensures
        ({
            let res = r.0;
            let log = r.1@;
            &&& final(self).octants.inv()
            &&& final(self).octants.contents().dom() == old(self).octants.contents().dom()
            &&& (forall|k: MortonOctantId|
                !subtree_of(*octant_id).contains(k) && old(self).octants.contents().dom().contains(k)
                    ==> final(self).octants.contents()[k] == old(self).octants.contents()[k])
            &&& !old(self).octants.contents().dom().contains(*octant_id) <==> res == Err::<
                SearchControlFlowResult<MortonOctantId>,
                StorageError,
            >(StorageError::InvalidOctantId)
            &&& !old(self).octants.contents().dom().contains(*octant_id) ==> log.len() == 0 && final(self).octants.contents() == old(self).octants.contents()
            &&& old(self).octants.contents().dom().contains(*octant_id) ==> log.len() >= 1 && log[0].0
                as nat == octant_id.depth_spec() && log[0].1 == *octant_id
            &&& visits_ok(final(self).octants.contents(), *octant_id, log)
            &&& break_only_last(log)
            &&& (res matches Ok(flow) ==> final(self).octants.contents().dom().contains(
                flow.carried_id(),
            ) && subtree_of(*octant_id).contains(flow.carried_id()))
            &&& (res matches Ok(flow) ==> log.len() > 0 && res == Ok::<
                SearchControlFlowResult<MortonOctantId>,
                StorageError,
            >(flow_result_of(log.last())))
            &&& (log.len() > 0 && log.last().2 == SearchControlFlow::Break ==> res == Ok::<
                SearchControlFlowResult<MortonOctantId>,
                StorageError,
            >(SearchControlFlowResult::Break(log.last().1)))
            &&& (res matches Ok(SearchControlFlowResult::Break(b)) ==> log.len() > 0
                && log.last().2 == SearchControlFlow::Break && b == log.last().1)
            &&& (old(self).octants.contents().dom().contains(*octant_id) && res is Err ==> res
                == Err::<SearchControlFlowResult<MortonOctantId>, StorageError>(
                StorageError::OverMaxDepth(Storage::max_depth_spec() as u8),
            ) && log.last().2 == SearchControlFlow::Continue)
            &&& (old(self).octants.contents().dom().contains(*octant_id) && all_continue(log) && res
                is Ok ==> visit_ids(log) == dfs_order_spec(
                final(self).octants.contents(),
                *octant_id,
                (17 - octant_id.depth_spec()) as nat,
            ))
        }),    {
        depth_first_search_from_storage_mut(&mut self.octants, octant_id, search_func)
    }

    /// Depth-first search from the root with in-place payload edits; see
    /// `depth_first_search_from_storage_mut`.
    pub fn depth_first_search_from_root_mut<V: SearchVisitorMut<Storage::Data>>(
        &mut self,
        search_func: &mut V,
    ) -> (r: (StorageResult<SearchControlFlowResult<MortonOctantId>>, Ghost<Seq<SearchVisit>>))
        requires
            old(self).octants.inv(),
        ensures
        ({
            let res = r.0;
            let log = r.1@;
            &&& final(self).octants.inv()
            &&& final(self).octants.contents().dom() == old(self).octants.contents().dom()
            &&& (forall|k: MortonOctantId|
                !subtree_of(MortonOctantId(1u64)).contains(k) && old(self).octants.contents().dom().contains(k)
                    ==> final(self).octants.contents()[k] == old(self).octants.contents()[k])
            &&& !old(self).octants.contents().dom().contains(MortonOctantId(1u64)) <==> res == Err::<
                SearchControlFlowResult<MortonOctantId>,
                StorageError,
            >(StorageError::InvalidOctantId)
            &&& !old(self).octants.contents().dom().contains(MortonOctantId(1u64)) ==> log.len() == 0 && final(self).octants.contents() == old(self).octants.contents()
            &&& old(self).octants.contents().dom().contains(MortonOctantId(1u64)) ==> log.len() >= 1 && log[0].0
                as nat == MortonOctantId(1u64).depth_spec() && log[0].1 == MortonOctantId(1u64)
            &&& visits_ok(final(self).octants.contents(), MortonOctantId(1u64), log)
            &&& break_only_last(log)
            &&& (res matches Ok(flow) ==> final(self).octants.contents().dom().contains(
                flow.carried_id(),
            ) && subtree_of(MortonOctantId(1u64)).contains(flow.carried_id()))
            &&& (res matches Ok(flow) ==> log.len() > 0 && res == Ok::<
                SearchControlFlowResult<MortonOctantId>,
                StorageError,
            >(flow_result_of(log.last())))
            &&& (log.len() > 0 && log.last().2 == SearchControlFlow::Break ==> res == Ok::<
                SearchControlFlowResult<MortonOctantId>,
                StorageError,
            >(SearchControlFlowResult::Break(log.last().1)))
            &&& (res matches Ok(SearchControlFlowResult::Break(b)) ==> log.len() > 0
                && log.last().2 == SearchControlFlow::Break && b == log.last().1)
            &&& (old(self).octants.contents().dom().contains(MortonOctantId(1u64)) && res is Err ==> res
                == Err::<SearchControlFlowResult<MortonOctantId>, StorageError>(
                StorageError::OverMaxDepth(Storage::max_depth_spec() as u8),
            ) && log.last().2 == SearchControlFlow::Continue)
            &&& (old(self).octants.contents().dom().contains(MortonOctantId(1u64)) && all_continue(log) && res
                is Ok ==> visit_ids(log) == dfs_order_spec(
                final(self).octants.contents(),
                MortonOctantId(1u64),
                (17 - MortonOctantId(1u64).depth_spec()) as nat,
            ))
        }),    {
        let root_id = self.octants.get_root_id();
        depth_first_search_from_storage_mut(&mut self.octants, &root_id, search_func)
    }

    /// Breadth-first search with in-place payload edits; see
    /// `breadth_first_search_from_storage_mut`.
    pub fn breadth_first_search_mut<V: SearchVisitorMut<Storage::Data>>(
        &mut self,
        octant_id: &MortonOctantId,
        search_func: &mut V,
    ) -> (r: (StorageResult<SearchControlFlowResult<MortonOctantId>>, Ghost<Seq<SearchVisit>>))
        requires
            old(self).octants.inv(),
        ensures
        ({
            let res = r.0;
            let log = r.1@;
            &&& final(self).octants.inv()
            &&& final(self).octants.contents().dom() == old(self).octants.contents().dom()
            &&& (forall|k: MortonOctantId|
                !subtree_of(*octant_id).contains(k) && old(self).octants.contents().dom().contains(
                    k,
                ) ==> final(self).octants.contents()[k] == old(self).octants.contents()[k])
            &&& !old(self).octants.contents().dom().contains(*octant_id) <==> res == Err::<
                SearchControlFlowResult<MortonOctantId>,
                StorageError,
            >(StorageError::InvalidOctantId)
            &&& !old(self).octants.contents().dom().contains(*octant_id) ==> log.len() == 0
                && final(self).octants.contents() == old(self).octants.contents()
            &&& old(self).octants.contents().dom().contains(*octant_id) ==> log.len() >= 1
                && log[0].0 as nat == octant_id.depth_spec() && log[0].1 == *octant_id
            &&& visits_ok(final(self).octants.contents(), *octant_id, log)
            &&& break_only_last(log)
            &&& (res matches Ok(flow) ==> final(self).octants.contents().dom().contains(
                flow.carried_id(),
            ) && subtree_of(*octant_id).contains(flow.carried_id()))
            &&& (res matches Ok(flow) ==> log.len() > 0 && res == Ok::<
                SearchControlFlowResult<MortonOctantId>,
                StorageError,
            >(flow_result_of(log.last())))
            &&& (log.len() > 0 && log.last().2 == SearchControlFlow::Break ==> res == Ok::<
                SearchControlFlowResult<MortonOctantId>,
                StorageError,
            >(SearchControlFlowResult::Break(log.last().1)))
            &&& (res matches Ok(SearchControlFlowResult::Break(b)) ==> log.len() > 0
                && log.last().2 == SearchControlFlow::Break && b == log.last().1)
            &&& (old(self).octants.contents().dom().contains(*octant_id) && res is Err ==> res
                == Err::<SearchControlFlowResult<MortonOctantId>, StorageError>(
                StorageError::OverMaxDepth(Storage::max_depth_spec() as u8),
            ) && log.last().2 == SearchControlFlow::Continue)
            &&& (old(self).octants.contents().dom().contains(*octant_id) && all_continue(log)
                && res is Ok ==> visit_levels(log) == bfs_order_spec(
                final(self).octants.contents(),
                seq![((octant_id.depth_spec() as u8), *octant_id)],
            ))
        }),    {
        breadth_first_search_from_storage_mut(&mut self.octants, octant_id, search_func)
    }

    /// Breadth-first search from the root with in-place payload edits;
    /// see `breadth_first_search_from_storage_mut`.
    pub fn breadth_first_search_from_root_mut<V: SearchVisitorMut<Storage::Data>>(
        &mut self,
        search_func: &mut V,
    ) -> (r: (StorageResult<SearchControlFlowResult<MortonOctantId>>, Ghost<Seq<SearchVisit>>))
        requires
            old(self).octants.inv(),
        ensures
        ({
            let res = r.0;
            let log = r.1@;
            &&& final(self).octants.inv()
            &&& final(self).octants.contents().dom() == old(self).octants.contents().dom()
            &&& (forall|k: MortonOctantId|
                !subtree_of(MortonOctantId(1u64)).contains(k) && old(self).octants.contents().dom().contains(
                    k,
                ) ==> final(self).octants.contents()[k] == old(self).octants.contents()[k])
            &&& !old(self).octants.contents().dom().contains(MortonOctantId(1u64)) <==> res == Err::<
                SearchControlFlowResult<MortonOctantId>,
                StorageError,
            >(StorageError::InvalidOctantId)
            &&& !old(self).octants.contents().dom().contains(MortonOctantId(1u64)) ==> log.len() == 0
                && final(self).octants.contents() == old(self).octants.contents()
            &&& old(self).octants.contents().dom().contains(MortonOctantId(1u64)) ==> log.len() >= 1
                && log[0].0 as nat == MortonOctantId(1u64).depth_spec() && log[0].1 == MortonOctantId(1u64)
            &&& visits_ok(final(self).octants.contents(), MortonOctantId(1u64), log)
            &&& break_only_last(log)
            &&& (res matches Ok(flow) ==> final(self).octants.contents().dom().contains(
                flow.carried_id(),
            ) && subtree_of(MortonOctantId(1u64)).contains(flow.carried_id()))
            &&& (res matches Ok(flow) ==> log.len() > 0 && res == Ok::<
                SearchControlFlowResult<MortonOctantId>,
                StorageError,
            >(flow_result_of(log.last())))
            &&& (log.len() > 0 && log.last().2 == SearchControlFlow::Break ==> res == Ok::<
                SearchControlFlowResult<MortonOctantId>,
                StorageError,
            >(SearchControlFlowResult::Break(log.last().1)))
            &&& (res matches Ok(SearchControlFlowResult::Break(b)) ==> log.len() > 0
                && log.last().2 == SearchControlFlow::Break && b == log.last().1)
            &&& (old(self).octants.contents().dom().contains(MortonOctantId(1u64)) && res is Err ==> res
                == Err::<SearchControlFlowResult<MortonOctantId>, StorageError>(
                StorageError::OverMaxDepth(Storage::max_depth_spec() as u8),
            ) && log.last().2 == SearchControlFlow::Continue)
            &&& (old(self).octants.contents().dom().contains(MortonOctantId(1u64)) && all_continue(log)
                && res is Ok ==> visit_levels(log) == bfs_order_spec(
                final(self).octants.contents(),
                seq![((MortonOctantId(1u64).depth_spec() as u8), MortonOctantId(1u64))],
            ))
        }),    {
        let root_id = self.octants.get_root_id();
        breadth_first_search_from_storage_mut(&mut self.octants, &root_id, search_func)
    }

    /// Drill from `octant_id`; see `drill_from_storage`.
    pub fn drill<G: DrillGuide<Storage::Data>>(
        &mut self,
        octant_id: &MortonOctantId,
        drill_func: &mut G,
    ) -> (r: (StorageResult<MortonOctantId>, Ghost<Seq<DrillVisit<Storage::Data>>>))
        requires
            old(self).octants.inv(),
        ensures
        final(self).octants.inv(),
        forall|id: MortonOctantId| #[trigger]
            old(self).octants.contents().dom().contains(id) ==> final(self).octants.contents().dom().contains(id),
        forall|k: MortonOctantId|
            !subtree_of(*octant_id).contains(k) ==> (final(self).octants.contents().dom().contains(k)
                <==> old(self).octants.contents().dom().contains(k)),
        forall|k: MortonOctantId|
            !subtree_of(*octant_id).contains(k) && old(self).octants.contents().dom().contains(k)
                ==> final(self).octants.contents()[k] == old(self).octants.contents()[k],
        !old(self).octants.contents().dom().contains(*octant_id) <==> r.0 == Err::<
            MortonOctantId,
            StorageError,
        >(StorageError::InvalidOctantId),
        !old(self).octants.contents().dom().contains(*octant_id) ==> final(self).octants.contents() == old(self).octants.contents(),
        r.0 matches Ok(found) ==> final(self).octants.contents().dom().contains(found) && subtree_of(
            *octant_id,
        ).contains(found),
        r.0 matches Ok(found) ==> drill_added_on_chain(
            old(self).octants.contents(),
            final(self).octants.contents(),
            *octant_id,
            found,
        ),
        old(self).octants.contents().dom().contains(*octant_id) ==> (r.0 is Ok || r.0 == Err::<
            MortonOctantId,
            StorageError,
        >(StorageError::OverMaxDepth(Storage::max_depth_spec() as u8))),
        ({
            let res = r.0;
            let log = r.1@;
            &&& drill_log_ok(old(self).octants.contents(), Storage::max_depth_spec(), *octant_id, log)
            &&& (!old(self).octants.contents().dom().contains(*octant_id) ==> log.len() == 0)
            &&& (old(self).octants.contents().dom().contains(*octant_id) ==> log.len() >= 1
                && log[0].0 as nat == octant_id.depth_spec())
            &&& (old(self).octants.contents().dom().contains(*octant_id) ==> res == drill_stop_result(
                old(self).octants.contents(),
                Storage::max_depth_spec(),
                log.last(),
            ))
            &&& (forall|i: int|
                0 <= i < log.len() ==> final(self).octants.contents().dom().contains(
                    (#[trigger] log[i]).1,
                ))
            &&& (res matches Ok(found) ==> log.len() > 0 && found == log.last().1)
        }),
    {
        drill_from_storage(&mut self.octants, octant_id, drill_func)
    }

    /// Drill from the root; see `drill_from_storage`.
    pub fn drill_from_root<G: DrillGuide<Storage::Data>>(&mut self, drill_func: &mut G) -> (r: (
        StorageResult<MortonOctantId>,
        Ghost<Seq<DrillVisit<Storage::Data>>>,
    ))
        requires
            old(self).octants.inv(),
        ensures
        final(self).octants.inv(),
        forall|id: MortonOctantId| #[trigger]
            old(self).octants.contents().dom().contains(id) ==> final(self).octants.contents().dom().contains(id),
        forall|k: MortonOctantId|
            !subtree_of(MortonOctantId(1u64)).contains(k) ==> (final(self).octants.contents().dom().contains(k)
                <==> old(self).octants.contents().dom().contains(k)),
        forall|k: MortonOctantId|
            !subtree_of(MortonOctantId(1u64)).contains(k) && old(self).octants.contents().dom().contains(k)
                ==> final(self).octants.contents()[k] == old(self).octants.contents()[k],
        !old(self).octants.contents().dom().contains(MortonOctantId(1u64)) <==> r.0 == Err::<
            MortonOctantId,
            StorageError,
        >(StorageError::InvalidOctantId),
        !old(self).octants.contents().dom().contains(MortonOctantId(1u64)) ==> final(self).octants.contents() == old(self).octants.contents(),
        r.0 matches Ok(found) ==> final(self).octants.contents().dom().contains(found) && subtree_of(
            MortonOctantId(1u64),
        ).contains(found),
        r.0 matches Ok(found) ==> drill_added_on_chain(
            old(self).octants.contents(),
            final(self).octants.contents(),
            MortonOctantId(1u64),
            found,
        ),
        old(self).octants.contents().dom().contains(MortonOctantId(1u64)) ==> (r.0 is Ok || r.0 == Err::<
            MortonOctantId,
            StorageError,
        >(StorageError::OverMaxDepth(Storage::max_depth_spec() as u8))),
        ({
            let res = r.0;
            let log = r.1@;
            &&& drill_log_ok(old(self).octants.contents(), Storage::max_depth_spec(), MortonOctantId(1u64), log)
            &&& (!old(self).octants.contents().dom().contains(MortonOctantId(1u64)) ==> log.len() == 0)
            &&& (old(self).octants.contents().dom().contains(MortonOctantId(1u64)) ==> log.len() >= 1
                && log[0].0 as nat == MortonOctantId(1u64).depth_spec())
            &&& (old(self).octants.contents().dom().contains(MortonOctantId(1u64)) ==> res == drill_stop_result(
                old(self).octants.contents(),
                Storage::max_depth_spec(),
                log.last(),
            ))
            &&& (forall|i: int|
                0 <= i < log.len() ==> final(self).octants.contents().dom().contains(
                    (#[trigger] log[i]).1,
                ))
            &&& (res matches Ok(found) ==> log.len() > 0 && found == log.last().1)
        }),
    {
        let root_id = self.octants.get_root_id();
        drill_from_storage(&mut self.octants, &root_id, drill_func)
    }

    /// Conditional subdivision from `octant_id`; see
    /// `subdivide_if_from_storage`.
    pub fn subdivide_if<P: SubdivisionPredicate<Storage::Data>>(
        &mut self,
        octant_id: &MortonOctantId,
        subdivide_predicate: &mut P,
    ) -> (r: (
        StorageResult<SearchControlFlowResult<MortonOctantId>>,
        Ghost<Seq<SubdivisionVisit>>,
    ))
        requires
            old(self).octants.inv(),
        ensures
        final(self).octants.inv(),
        !old(self).octants.contents().dom().contains(*octant_id) <==> r.0 == Err::<
            SearchControlFlowResult<MortonOctantId>,
            StorageError,
        >(StorageError::InvalidOctantId),
        !old(self).octants.contents().dom().contains(*octant_id) ==> final(self).octants.contents()
            == old(self).octants.contents(),
        forall|id: MortonOctantId| #[trigger]
            old(self).octants.contents().dom().contains(id) ==> final(self).octants.contents().dom().contains(id),
        forall|k: MortonOctantId|
            !subtree_of(*octant_id).contains(k) ==> (final(self).octants.contents().dom().contains(k) <==> old(self).octants.contents().dom().contains(k)),
        forall|k: MortonOctantId|
            !subtree_of(*octant_id).contains(k) && old(self).octants.contents().dom().contains(k)
                ==> final(self).octants.contents()[k] == old(self).octants.contents()[k],
        r.0 matches Ok(SearchControlFlowResult::Continue(subdivided)) ==> forall|j: nat|
            j < 8 ==> final(self).octants.contents().dom().contains(
                #[trigger] crate::octant_storage_trait::child_of(subdivided, j),
            ),
        r.0 matches Ok(flow) ==> final(self).octants.contents().dom().contains(flow.carried_id())
            && subtree_of(*octant_id).contains(flow.carried_id()),
        old(self).octants.contents().dom().contains(*octant_id) ==> (r.0 is Ok || r.0 == Err::<
            SearchControlFlowResult<MortonOctantId>,
            StorageError,
        >(StorageError::OverMaxDepth(Storage::max_depth_spec() as u8))),
        ({
            let res = r.0;
            let log = r.1@;
            &&& (!old(self).octants.contents().dom().contains(*octant_id) ==> log.len() == 0)
            &&& (old(self).octants.contents().dom().contains(*octant_id) ==> log.len() >= 1
                && log[0].1 == *octant_id && log[0].0 as nat == octant_id.depth_spec())
            &&& subdivision_visits_ok(final(self).octants.contents(), *octant_id, log)
            &&& subdivision_break_only_last(log)
            &&& (res matches Ok(flow) ==> log.len() > 0 && res == Ok::<
                SearchControlFlowResult<MortonOctantId>,
                StorageError,
            >(subdivision_result_of(log.last())))
            &&& (old(self).octants.contents().dom().contains(*octant_id) && res is Err
                ==> log.len() > 0 && log.last().2 == SearchControlFlow::Continue)
            &&& (forall|t: int, j: int|
                0 <= t < log.len() && 0 <= j < 8 && log[t].2 == SearchControlFlow::Continue
                    && #[trigger] log[t].3[j] && (res is Ok || t < log.len() - 1)
                    ==> final(self).octants.contents().dom().contains(
                    crate::octant_storage_trait::child_of(log[t].1, j as nat),
                ))
            &&& (forall|t: int|
                0 <= t < log.len() && (#[trigger] log[t]).2 == SearchControlFlow::Continue
                    ==> log[t].3 == full_slots())
            &&& (forall|t: int| 1 <= t < log.len() ==> #[trigger] subdivision_from_earlier(log, t))
        }),
    {
        subdivide_if_from_storage(&mut self.octants, octant_id, subdivide_predicate)
    }

    /// Conditional subdivision from the root; see
    /// `subdivide_if_from_storage`.
    pub fn subdivide_if_from_root<P: SubdivisionPredicate<Storage::Data>>(
        &mut self,
        subdivide_predicate: &mut P,
    ) -> (r: (
        StorageResult<SearchControlFlowResult<MortonOctantId>>,
        Ghost<Seq<SubdivisionVisit>>,
    ))
        requires
            old(self).octants.inv(),
        ensures
        final(self).octants.inv(),
        !old(self).octants.contents().dom().contains(MortonOctantId(1u64)) <==> r.0 == Err::<
            SearchControlFlowResult<MortonOctantId>,
            StorageError,
        >(StorageError::InvalidOctantId),
        !old(self).octants.contents().dom().contains(MortonOctantId(1u64)) ==> final(self).octants.contents()
            == old(self).octants.contents(),
        forall|id: MortonOctantId| #[trigger]
            old(self).octants.contents().dom().contains(id) ==> final(self).octants.contents().dom().contains(id),
        forall|k: MortonOctantId|
            !subtree_of(MortonOctantId(1u64)).contains(k) ==> (final(self).octants.contents().dom().contains(k) <==> old(self).octants.contents().dom().contains(k)),
        forall|k: MortonOctantId|
            !subtree_of(MortonOctantId(1u64)).contains(k) && old(self).octants.contents().dom().contains(k)
                ==> final(self).octants.contents()[k] == old(self).octants.contents()[k],
        r.0 matches Ok(SearchControlFlowResult::Continue(subdivided)) ==> forall|j: nat|
            j < 8 ==> final(self).octants.contents().dom().contains(
                #[trigger] crate::octant_storage_trait::child_of(subdivided, j),
            ),
        r.0 matches Ok(flow) ==> final(self).octants.contents().dom().contains(flow.carried_id())
            && subtree_of(MortonOctantId(1u64)).contains(flow.carried_id()),
        old(self).octants.contents().dom().contains(MortonOctantId(1u64)) ==> (r.0 is Ok || r.0 == Err::<
            SearchControlFlowResult<MortonOctantId>,
            StorageError,
        >(StorageError::OverMaxDepth(Storage::max_depth_spec() as u8))),
        ({
            let res = r.0;
            let log = r.1@;
            &&& (!old(self).octants.contents().dom().contains(MortonOctantId(1u64)) ==> log.len() == 0)
            &&& (old(self).octants.contents().dom().contains(MortonOctantId(1u64)) ==> log.len() >= 1
                && log[0].1 == MortonOctantId(1u64) && log[0].0 as nat == MortonOctantId(1u64).depth_spec())
            &&& subdivision_visits_ok(final(self).octants.contents(), MortonOctantId(1u64), log)
            &&& subdivision_break_only_last(log)
            &&& (res matches Ok(flow) ==> log.len() > 0 && res == Ok::<
                SearchControlFlowResult<MortonOctantId>,
                StorageError,
            >(subdivision_result_of(log.last())))
            &&& (old(self).octants.contents().dom().contains(MortonOctantId(1u64)) && res is Err
                ==> log.len() > 0 && log.last().2 == SearchControlFlow::Continue)
            &&& (forall|t: int, j: int|
                0 <= t < log.len() && 0 <= j < 8 && log[t].2 == SearchControlFlow::Continue
                    && #[trigger] log[t].3[j] && (res is Ok || t < log.len() - 1)
                    ==> final(self).octants.contents().dom().contains(
                    crate::octant_storage_trait::child_of(log[t].1, j as nat),
                ))
            &&& (forall|t: int|
                0 <= t < log.len() && (#[trigger] log[t]).2 == SearchControlFlow::Continue
                    ==> log[t].3 == full_slots())
            &&& (forall|t: int| 1 <= t < log.len() ==> #[trigger] subdivision_from_earlier(log, t))
        }),
    {
        let root_id = self.octants.get_root_id();
        subdivide_if_from_storage(&mut self.octants, &root_id, subdivide_predicate)
    }

    /// Conditional per-child subdivision from `octant_id`; see
    /// `subdivide_if_some_from_storage`.
    pub fn subdivide_if_some<P: SubdivisionMaybePredicate<Storage::Data>>(
        &mut self,
        octant_id: &MortonOctantId,
        subdivide_predicate: &mut P,
    ) -> (r: (
        StorageResult<SearchControlFlowResult<MortonOctantId>>,
        Ghost<Seq<SubdivisionVisit>>,
    ))
        requires
            old(self).octants.inv(),
        ensures
        final(self).octants.inv(),
        !old(self).octants.contents().dom().contains(*octant_id) <==> r.0 == Err::<
            SearchControlFlowResult<MortonOctantId>,
            StorageError,
        >(StorageError::InvalidOctantId),
        !old(self).octants.contents().dom().contains(*octant_id) ==> final(self).octants.contents()
            == old(self).octants.contents(),
        forall|id: MortonOctantId| #[trigger]
            old(self).octants.contents().dom().contains(id) ==> final(self).octants.contents().dom().contains(id),
        forall|k: MortonOctantId|
            !subtree_of(*octant_id).contains(k) ==> (final(self).octants.contents().dom().contains(k) <==> old(self).octants.contents().dom().contains(k)),
        forall|k: MortonOctantId|
            !subtree_of(*octant_id).contains(k) && old(self).octants.contents().dom().contains(k)
                ==> final(self).octants.contents()[k] == old(self).octants.contents()[k],
        r.0 matches Ok(flow) ==> final(self).octants.contents().dom().contains(flow.carried_id())
            && subtree_of(*octant_id).contains(flow.carried_id()),
        old(self).octants.contents().dom().contains(*octant_id) ==> (r.0 is Ok || r.0 == Err::<
            SearchControlFlowResult<MortonOctantId>,
            StorageError,
        >(StorageError::OverMaxDepth(Storage::max_depth_spec() as u8))),
        ({
            let res = r.0;
            let log = r.1@;
            &&& (!old(self).octants.contents().dom().contains(*octant_id) ==> log.len() == 0)
            &&& (old(self).octants.contents().dom().contains(*octant_id) ==> log.len() >= 1
                && log[0].1 == *octant_id && log[0].0 as nat == octant_id.depth_spec())
            &&& subdivision_visits_ok(final(self).octants.contents(), *octant_id, log)
            &&& subdivision_break_only_last(log)
            &&& (res matches Ok(flow) ==> log.len() > 0 && res == Ok::<
                SearchControlFlowResult<MortonOctantId>,
                StorageError,
            >(subdivision_result_of(log.last())))
            &&& (old(self).octants.contents().dom().contains(*octant_id) && res is Err
                ==> log.len() > 0 && log.last().2 == SearchControlFlow::Continue)
            &&& (forall|t: int, j: int|
                0 <= t < log.len() && 0 <= j < 8 && log[t].2 == SearchControlFlow::Continue
                    && #[trigger] log[t].3[j] && (res is Ok || t < log.len() - 1)
                    ==> final(self).octants.contents().dom().contains(
                    crate::octant_storage_trait::child_of(log[t].1, j as nat),
                ))
            &&& (forall|t: int| 1 <= t < log.len() ==> #[trigger] subdivision_from_earlier(log, t))
        }),
    {
        subdivide_if_some_from_storage(&mut self.octants, octant_id, subdivide_predicate)
    }

    /// Conditional per-child subdivision from the root; see
    /// `subdivide_if_some_from_storage`.
    pub fn subdivide_if_some_from_root<P: SubdivisionMaybePredicate<Storage::Data>>(
        &mut self,
        subdivide_predicate: &mut P,
    ) -> (r: (
        StorageResult<SearchControlFlowResult<MortonOctantId>>,
        Ghost<Seq<SubdivisionVisit>>,
    ))
        requires
            old(self).octants.inv(),
        ensures
        final(self).octants.inv(),
        !old(self).octants.contents().dom().contains(MortonOctantId(1u64)) <==> r.0 == Err::<
            SearchControlFlowResult<MortonOctantId>,
            StorageError,
        >(StorageError::InvalidOctantId),
        !old(self).octants.contents().dom().contains(MortonOctantId(1u64)) ==> final(self).octants.contents()
            == old(self).octants.contents(),
        forall|id: MortonOctantId| #[trigger]
            old(self).octants.contents().dom().contains(id) ==> final(self).octants.contents().dom().contains(id),
        forall|k: MortonOctantId|
            !subtree_of(MortonOctantId(1u64)).contains(k) ==> (final(self).octants.contents().dom().contains(k) <==> old(self).octants.contents().dom().contains(k)),
        forall|k: MortonOctantId|
            !subtree_of(MortonOctantId(1u64)).contains(k) && old(self).octants.contents().dom().contains(k)
                ==> final(self).octants.contents()[k] == old(self).octants.contents()[k],
        r.0 matches Ok(flow) ==> final(self).octants.contents().dom().contains(flow.carried_id())
            && subtree_of(MortonOctantId(1u64)).contains(flow.carried_id()),
        old(self).octants.contents().dom().contains(MortonOctantId(1u64)) ==> (r.0 is Ok || r.0 == Err::<
            SearchControlFlowResult<MortonOctantId>,
            StorageError,
        >(StorageError::OverMaxDepth(Storage::max_depth_spec() as u8))),
        ({
            let res = r.0;
            let log = r.1@;
            &&& (!old(self).octants.contents().dom().contains(MortonOctantId(1u64)) ==> log.len() == 0)
            &&& (old(self).octants.contents().dom().contains(MortonOctantId(1u64)) ==> log.len() >= 1
                && log[0].1 == MortonOctantId(1u64) && log[0].0 as nat == MortonOctantId(1u64).depth_spec())
            &&& subdivision_visits_ok(final(self).octants.contents(), MortonOctantId(1u64), log)
            &&& subdivision_break_only_last(log)
            &&& (res matches Ok(flow) ==> log.len() > 0 && res == Ok::<
                SearchControlFlowResult<MortonOctantId>,
                StorageError,
            >(subdivision_result_of(log.last())))
            &&& (old(self).octants.contents().dom().contains(MortonOctantId(1u64)) && res is Err
                ==> log.len() > 0 && log.last().2 == SearchControlFlow::Continue)
            &&& (forall|t: int, j: int|
                0 <= t < log.len() && 0 <= j < 8 && log[t].2 == SearchControlFlow::Continue
                    && #[trigger] log[t].3[j] && (res is Ok || t < log.len() - 1)
                    ==> final(self).octants.contents().dom().contains(
                    crate::octant_storage_trait::child_of(log[t].1, j as nat),
                ))
            &&& (forall|t: int| 1 <= t < log.len() ==> #[trigger] subdivision_from_earlier(log, t))
        }),
    {
        let root_id = self.octants.get_root_id();
        subdivide_if_some_from_storage(&mut self.octants, &root_id, subdivide_predicate)
    }
}

impl<Storage: OctantStorage + Default> Default for OctreeBase<Storage> {
    /// A tree over the backend's default value.
    fn default() -> Self {
        OctreeBase { octants: Storage::default() }
    }
}


/// The pre-order visit sequence of the subtree at `id`: the node itself,
/// then each child's subtree in the fixed placement order.  `fuel`
/// bounds the recursion; any fuel at least the height of the subtree
/// yields the full order.
pub open spec fn dfs_order_spec<D>(
    m: Map<MortonOctantId, D>,
    id: MortonOctantId,
    fuel: nat,
) -> Seq<MortonOctantId>
    decreases fuel, 0int,
{
    if !m.dom().contains(id) {
        Seq::empty()
    } else if fuel == 0 {
        seq![id]
    } else {
        seq![id] + dfs_children_order(m, id, (fuel - 1) as nat, 8)
    }
}

/// The concatenated pre-order sequences of the first `i` children.
pub open spec fn dfs_children_order<D>(
    m: Map<MortonOctantId, D>,
    id: MortonOctantId,
    fuel: nat,
    i: nat,
) -> Seq<MortonOctantId>
    decreases fuel, i,
{
    if i == 0 {
        Seq::empty()
    } else {
        dfs_children_order(m, id, fuel, (i - 1) as nat) + dfs_order_spec(
            m,
            crate::octant_storage_trait::child_of(id, (i - 1) as nat),
            fuel,
        )
    }
}

/// Depth-first visitation order, materialized: the identifiers a full
/// (never skipping, never breaking) pre-order traversal visits, in order.
///
/// The result is a function of the tree shape and the start alone, so
/// for a fixed tree the order is fixed and reproducible.  Fails with
/// `InvalidOctantId` iff the start does not exist.
pub fn depth_first_order<S: OctantStorage>(storage: &S, octant_id: &MortonOctantId) -> (r:
    StorageResult<Vec<MortonOctantId>>)
    requires
        storage.inv(),
    ensures
        !storage.contents().dom().contains(*octant_id) <==> r == Err::<
            Vec<MortonOctantId>,
            StorageError,
        >(StorageError::InvalidOctantId),
        r matches Ok(v) ==> v@ == dfs_order_spec(
            storage.contents(),
            *octant_id,
            (17 - octant_id.depth_spec()) as nat,
        ),
{
    let start_from_depth = match storage.get_octant_depth(octant_id) {
        Some(d) => d,
        None => {
            return Err(StorageError::InvalidOctantId);
        },
    };
    let mut out: Vec<MortonOctantId> = Vec::new();
    depth_first_order_rec(storage, start_from_depth, octant_id, &mut out);
    Ok(out)
}

#[verifier::rlimit(100)]
#[verifier::spinoff_prover]
fn depth_first_order_rec<S: OctantStorage>(
    storage: &S,
    depth: Depth,
    octant_id: &MortonOctantId,
    out: &mut Vec<MortonOctantId>,
)
    requires
        storage.inv(),
        storage.contents().dom().contains(*octant_id),
        depth as nat == octant_id.depth_spec(),
    ensures
        final(out)@ == old(out)@ + dfs_order_spec(
            storage.contents(),
            *octant_id,
            (17 - depth) as nat,
        ),
    decreases 17int - depth,
{
    proof {
        storage.lemma_inv();
    }
    let ghost base = out@;
    let ghost m = storage.contents();
    let ghost fuel = (16 - depth) as nat;
    out.push(*octant_id);
    let mut i: usize = 0;
    while i < 8
        invariant
            storage.inv(),
            storage.contents().dom().contains(*octant_id),
            depth as nat == octant_id.depth_spec(),
            depth <= 16,
            i <= 8,
            m == storage.contents(),
            fuel == (16 - depth) as nat,
            out@ == base + seq![*octant_id] + dfs_children_order(m, *octant_id, fuel, i as nat),
        decreases 8 - i,
    {
        let placement = match OctantPlacement::try_from_index(i) {
            Some(p) => p,
            None => {
                proof {
                    assert(false);
                }
                return ;
            },
        };
        let ghost child = crate::octant_storage_trait::child_of(*octant_id, i as nat);
        match storage.get_existing_child(octant_id, placement) {
            Ok(child_id) => {
                proof {
                    storage.lemma_inv();
                    lemma_step_into_child(
                        storage.contents(),
                        S::max_depth_spec(),
                        *octant_id,
                        *octant_id,
                        child_id,
                        placement,
                    );
                    assert(child_id == child);
                }
                depth_first_order_rec(storage, depth + 1, &child_id, out);
                proof {
                    assert((17 - (depth + 1)) as nat == fuel);
                    assert(dfs_children_order(m, *octant_id, fuel, (i + 1) as nat)
                        == dfs_children_order(m, *octant_id, fuel, i as nat) + dfs_order_spec(
                        m,
                        child,
                        fuel,
                    ));
                    assert(out@ =~= base + seq![*octant_id] + dfs_children_order(
                        m,
                        *octant_id,
                        fuel,
                        (i + 1) as nat,
                    ));
                }
            },
            Err(e) => {
                proof {
                    storage.lemma_inv();
                    if !m.dom().contains(child) {
                        assert(dfs_order_spec(m, child, fuel) =~= Seq::<MortonOctantId>::empty());
                    } else {
                        // the parent sits at the depth limit, so no child
                        // can exist at the next level
                        assert(octant_id.depth_spec() >= S::max_depth_spec());
                        crate::morton_based_storage::hashed_octant_storage::lemma_wf_child_space(
                            octant_id.as_nat(),
                        );
                        assert(child.as_nat()
                            == crate::morton_based_storage::morton_octant_id::child_code(
                            octant_id.as_nat(),
                            i as nat,
                        ));
                        crate::morton_based_storage::morton_octant_id::lemma_child_code(
                            octant_id.as_nat(),
                            i as nat,
                        );
                        assert(child.depth_spec() > S::max_depth_spec());
                        assert(false);
                    }
                    assert(dfs_children_order(m, *octant_id, fuel, (i + 1) as nat)
                        == dfs_children_order(m, *octant_id, fuel, i as nat) + dfs_order_spec(
                        m,
                        child,
                        fuel,
                    ));
                    assert(out@ =~= base + seq![*octant_id] + dfs_children_order(
                        m,
                        *octant_id,
                        fuel,
                        (i + 1) as nat,
                    ));
                }
            },
        }
        i = i + 1;
    }
    proof {
        assert((17 - depth) as nat == fuel + 1);
        assert(dfs_order_spec(m, *octant_id, fuel + 1) == seq![*octant_id] + dfs_children_order(
            m,
            *octant_id,
            fuel,
            8,
        ));
        assert(out@ =~= base + dfs_order_spec(m, *octant_id, (17 - depth) as nat));
    }
}

/// The worklist entries for the existing children among the first `i`
/// slots of `parent`, tagged `child_depth`, in placement order.
pub open spec fn enqueued_children_prefix<D>(
    m: Map<MortonOctantId, D>,
    parent: MortonOctantId,
    child_depth: Depth,
    i: nat,
) -> Seq<(Depth, MortonOctantId)>
    decreases i,
{
    if i == 0 {
        Seq::empty()
    } else {
        enqueued_children_prefix(m, parent, child_depth, (i - 1) as nat) + (
        if m.dom().contains(crate::octant_storage_trait::child_of(parent, (i - 1) as nat)) {
            seq![(child_depth, crate::octant_storage_trait::child_of(parent, (i - 1) as nat))]
        } else {
            Seq::empty()
        })
    }
}

/// Splitting a worklist splits its termination budget.
proof fn lemma_potential_concat(a: Seq<(Depth, MortonOctantId)>, b: Seq<(Depth, MortonOctantId)>)
    ensures
        queue_potential(a + b) == queue_potential(a) + queue_potential(b),
    decreases a.len(),
{
    if a.len() == 0 {
        assert(a + b =~= b);
    } else {
        assert((a + b)[0] == a[0]);
        assert((a + b).len() > 0);
        assert((a + b).drop_first() =~= a.drop_first() + b);
        lemma_potential_concat(a.drop_first(), b);
    }
}

/// At most `i` children can be enqueued from `i` slots.
proof fn lemma_enqueued_potential<D>(
    m: Map<MortonOctantId, D>,
    parent: MortonOctantId,
    child_depth: Depth,
    i: nat,
)
    ensures
        queue_potential(enqueued_children_prefix(m, parent, child_depth, i)) <= i * visit_weight(
            child_depth,
        ),
    decreases i,
{
    if i == 0 {
    } else {
        lemma_enqueued_potential(m, parent, child_depth, (i - 1) as nat);
        let head = enqueued_children_prefix(m, parent, child_depth, (i - 1) as nat);
        let child = crate::octant_storage_trait::child_of(parent, (i - 1) as nat);
        if m.dom().contains(child) {
            lemma_potential_concat(head, seq![(child_depth, child)]);
            assert(queue_potential(seq![(child_depth, child)]) == visit_weight(child_depth)) by {
                let single = seq![(child_depth, child)];
                assert(single.len() == 1 && single[0] == (child_depth, child));
                assert(single.drop_first() =~= Seq::<(Depth, MortonOctantId)>::empty());
                assert(queue_potential(Seq::<(Depth, MortonOctantId)>::empty()) == 0);
                assert(queue_potential(single) == visit_weight(single[0].0) + queue_potential(
                    single.drop_first(),
                ));
            }
        } else {
            assert(head + Seq::<(Depth, MortonOctantId)>::empty() =~= head);
        }
        assert(i * visit_weight(child_depth) == (i - 1) * visit_weight(child_depth) + visit_weight(
            child_depth,
        )) by (nonlinear_arith);
    }
}

/// The level-order visit sequence of a worklist: pop the head, emit it,
/// enqueue its existing children behind the rest, and continue.  An
/// absent head is dropped without a visit.
pub open spec fn bfs_order_spec<D>(
    m: Map<MortonOctantId, D>,
    q: Seq<(Depth, MortonOctantId)>,
) -> Seq<(Depth, MortonOctantId)>
    decreases queue_potential(q),
    via bfs_order_spec_decreases::<D>
{
    if q.len() == 0 {
        Seq::empty()
    } else if !m.dom().contains(q[0].1) {
        bfs_order_spec(m, q.drop_first())
    } else {
        seq![q[0]] + bfs_order_spec(
            m,
            q.drop_first() + (if q[0].0 < 16 {
                enqueued_children_prefix(m, q[0].1, (q[0].0 + 1) as Depth, 8)
            } else {
                Seq::<(Depth, MortonOctantId)>::empty()
            }),
        )
    }
}

#[via_fn]
proof fn bfs_order_spec_decreases<D>(m: Map<MortonOctantId, D>, q: Seq<(Depth, MortonOctantId)>) {
    if q.len() != 0 {
        let d = q[0].0;
        assert(queue_potential(q) == visit_weight(d) + queue_potential(q.drop_first()));
        if m.dom().contains(q[0].1) {
            if d < 16 {
                let tail = enqueued_children_prefix(m, q[0].1, (d + 1) as Depth, 8);
                lemma_potential_concat(q.drop_first(), tail);
                lemma_enqueued_potential(m, q[0].1, (d + 1) as Depth, 8);
                lemma_weight_step(d);
            } else {
                assert(q.drop_first() + Seq::<(Depth, MortonOctantId)>::empty() =~= q.drop_first());
                lemma_nine_pow_pos((17 - d) as nat);
            }
        } else {
            lemma_nine_pow_pos((17 - d) as nat);
        }
    }
}


/// No children can be enqueued where none exist.
proof fn lemma_enqueued_empty<D>(
    m: Map<MortonOctantId, D>,
    parent: MortonOctantId,
    child_depth: Depth,
    i: nat,
)
    requires
        forall|j: nat|
            j < i ==> !m.dom().contains(
                #[trigger] crate::octant_storage_trait::child_of(parent, j),
            ),
    ensures
        enqueued_children_prefix(m, parent, child_depth, i) == Seq::<
            (Depth, MortonOctantId),
        >::empty(),
    decreases i,
{
    if i > 0 {
        lemma_enqueued_empty(m, parent, child_depth, (i - 1) as nat);
        assert(Seq::<(Depth, MortonOctantId)>::empty() + Seq::<(Depth, MortonOctantId)>::empty()
            =~= Seq::<(Depth, MortonOctantId)>::empty());
    }
}

/// Level-order traversal, materialized: every existing octant from the
/// root down, tagged with its depth, strictly by enqueue order: level by
/// level, children in the fixed placement order within each level.
///
/// The result is a function of the tree shape alone, so for a fixed
/// tree the order is fixed and reproducible.  An empty backend yields an
/// empty sequence.
pub fn breadth_first_order<S: OctantStorage>(storage: &S) -> (r: Vec<(Depth, MortonOctantId)>)
    requires
        storage.inv(),
    ensures
        r@ == bfs_order_spec(storage.contents(), seq![(0 as Depth, MortonOctantId(1u64))]),
{
    let max_depth = storage.get_max_depth();
    proof {
        storage.lemma_inv();
    }
    let ghost m = storage.contents();
    let ghost init = seq![(0 as Depth, MortonOctantId(1u64))];
    let mut out: Vec<(Depth, MortonOctantId)> = Vec::new();
    let mut queue: std::collections::VecDeque<(Depth, MortonOctantId)> =
        std::collections::VecDeque::new();
    queue.push_back((0, storage.get_root_id()));
    proof {
        assert(queue@ =~= init);
        crate::morton_based_storage::hashed_octant_storage::lemma_root_well_formed();
    }
    while queue.len() > 0
        invariant
            storage.inv(),
            m == storage.contents(),
            max_depth as nat == S::max_depth_spec(),
            max_depth <= 16,
            out@ + bfs_order_spec(m, queue@) == bfs_order_spec(m, init),
            forall|t: int|
                0 <= t < queue@.len() ==> (m.dom().contains((#[trigger] queue@[t]).1) ==> (
                queue@[t].0 as nat == queue@[t].1.depth_spec() && queue@[t].0 <= 16)),
        decreases queue_potential(queue@),
    {
        let ghost q_begin = queue@;
        let (depth, octant_id) = match queue.pop_front() {
            Some(p) => p,
            None => {
                proof {
                    assert(false);
                }
                return out;
            },
        };
        if storage.get_octant(&octant_id).is_none() {
            proof {
                assert(bfs_order_spec(m, q_begin) == bfs_order_spec(m, q_begin.drop_first()));
                assert(queue_potential(q_begin) == visit_weight(depth) + queue_potential(queue@));
                lemma_nine_pow_pos((17 - depth) as nat);
            }
        } else {
            proof {
                storage.lemma_inv();
                assert(depth as nat == octant_id.depth_spec());
                assert(octant_id.depth_spec() <= S::max_depth_spec());
            }
            out.push((depth, octant_id));
            let ghost q_popped = queue@;
            let ghost child_depth_g = (depth + 1) as Depth;
            if depth < max_depth {
                let children = match storage.get_existing_children(&octant_id) {
                    Ok(c) => c,
                    Err(_) => {
                        proof {
                            assert(false);
                        }
                        return out;
                    },
                };
                let child_depth = depth + 1;
                let mut ci: usize = 0;
                while ci < 8
                    invariant
                        storage.inv(),
                        m == storage.contents(),
                        m.dom().contains(octant_id),
                        depth as nat == octant_id.depth_spec(),
                        depth < max_depth <= 16,
                        child_depth == depth + 1,
                        max_depth as nat == S::max_depth_spec(),
                        ci <= 8,
                        queue@ == q_popped + enqueued_children_prefix(
                            m,
                            octant_id,
                            child_depth,
                            ci as nat,
                        ),
                        forall|t: int|
                            0 <= t < queue@.len() ==> (m.dom().contains(
                                (#[trigger] queue@[t]).1,
                            ) ==> (queue@[t].0 as nat == queue@[t].1.depth_spec() && queue@[t].0
                                <= 16)),
                        forall|i2: int|
                            0 <= i2 < 8 ==> #[trigger] children[i2]
                                == crate::octant_storage_trait::child_slot_spec(
                                m,
                                octant_id,
                                i2 as nat,
                            ),
                    decreases 8 - ci,
                {
                    let ghost child = crate::octant_storage_trait::child_of(octant_id, ci as nat);
                    match children[ci] {
                        Some(child_id) => {
                            proof {
                                storage.lemma_inv();
                                crate::morton_based_storage::hashed_octant_storage::lemma_wf_child_space(
                                    octant_id.as_nat(),
                                );
                                assert(child_id.as_nat()
                                    == crate::morton_based_storage::morton_octant_id::child_code(
                                    octant_id.as_nat(),
                                    ci as nat,
                                ));
                                crate::morton_based_storage::morton_octant_id::lemma_child_code(
                                    octant_id.as_nat(),
                                    ci as nat,
                                );
                                assert(child_id == child);
                                assert(enqueued_children_prefix(
                                    m,
                                    octant_id,
                                    child_depth as Depth,
                                    (ci + 1) as nat,
                                ) =~= enqueued_children_prefix(
                                    m,
                                    octant_id,
                                    child_depth as Depth,
                                    ci as nat,
                                ) + seq![(child_depth as Depth, child)]);
                            }
                            queue.push_back((child_depth, child_id));
                            proof {
                                assert(queue@ =~= q_popped + enqueued_children_prefix(
                                    m,
                                    octant_id,
                                    child_depth as Depth,
                                    (ci + 1) as nat,
                                ));
                            }
                        },
                        None => {
                            proof {
                                assert(!m.dom().contains(child));
                                assert(enqueued_children_prefix(
                                    m,
                                    octant_id,
                                    child_depth as Depth,
                                    (ci + 1) as nat,
                                ) =~= enqueued_children_prefix(
                                    m,
                                    octant_id,
                                    child_depth as Depth,
                                    ci as nat,
                                ));
                            }
                        },
                    }
                    ci = ci + 1;
                }
                proof {
                    assert(queue@ =~= q_popped + enqueued_children_prefix(
                        m,
                        octant_id,
                        child_depth_g,
                        8,
                    ));
                    assert(bfs_order_spec(m, q_begin) == seq![(depth, octant_id)] + bfs_order_spec(
                        m,
                        q_popped + enqueued_children_prefix(m, octant_id, child_depth_g, 8),
                    ));
                    assert(out@ + bfs_order_spec(m, queue@) =~= bfs_order_spec(m, init));
                    lemma_potential_concat(
                        q_popped,
                        enqueued_children_prefix(m, octant_id, child_depth_g, 8),
                    );
                    lemma_enqueued_potential(m, octant_id, child_depth_g, 8);
                    lemma_weight_step(depth);
                    assert(queue_potential(q_begin) == visit_weight(depth) + queue_potential(
                        q_popped,
                    ));
                }
            } else {
                proof {
                    storage.lemma_inv();
                    assert forall|j: nat|
                        j < 8 implies !m.dom().contains(
                        #[trigger] crate::octant_storage_trait::child_of(octant_id, j),
                    ) by {
                        let c = crate::octant_storage_trait::child_of(octant_id, j);
                        if m.dom().contains(c) {
                            crate::morton_based_storage::hashed_octant_storage::lemma_wf_child_space(
                                octant_id.as_nat(),
                            );
                            assert(c.as_nat()
                                == crate::morton_based_storage::morton_octant_id::child_code(
                                octant_id.as_nat(),
                                j,
                            ));
                            crate::morton_based_storage::morton_octant_id::lemma_child_code(
                                octant_id.as_nat(),
                                j,
                            );
                            assert(c.depth_spec() > S::max_depth_spec());
                            assert(false);
                        }
                    }
                    lemma_enqueued_empty(m, octant_id, child_depth_g, 8);
                    if (depth as int) < 16 {
                        assert(queue@ + enqueued_children_prefix(m, octant_id, child_depth_g, 8)
                            =~= queue@);
                        assert(bfs_order_spec(m, q_begin) == seq![(depth, octant_id)]
                            + bfs_order_spec(m, queue@));
                    } else {
                        assert(queue@ + Seq::<(Depth, MortonOctantId)>::empty() =~= queue@);
                        assert(bfs_order_spec(m, q_begin) == seq![(depth, octant_id)]
                            + bfs_order_spec(m, queue@));
                    }
                    assert(out@ + bfs_order_spec(m, queue@) =~= bfs_order_spec(m, init));
                    assert(queue_potential(q_begin) == visit_weight(depth) + queue_potential(
                        queue@,
                    ));
                    lemma_nine_pow_pos((17 - depth) as nat);
                }
            }
        }
    }
    proof {
        assert(queue@.len() == 0);
        assert(bfs_order_spec(m, queue@) =~= Seq::<(Depth, MortonOctantId)>::empty());
        assert(out@ =~= bfs_order_spec(m, init));
    }
    out
}

} // verus!
