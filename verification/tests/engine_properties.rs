//! Guided descent, drill and conditional subdivision behavior.

use sparse_octree::morton_based_storage::hashed_octant_storage::HashedOctantStorage;
use sparse_octree::morton_based_storage::morton_octant_id::MortonOctantId;
use sparse_octree::octant_meta::OctantPlacement;
use sparse_octree::octant_storage_trait::{
    ModifiableOctantStorage, OctantStorage, StorageError,
};
use sparse_octree::octree_base::{
    depth_first_order, AssignmentControlFlow, DrillGuide, OctreeBase, SearchControlFlowResult,
    SearchGuide, SubdivisionControlFlow, SubdivisionPredicate,
};
use sparse_octree::Depth;

/// Follows a fixed placement path while children exist.
struct PathGuide {
    path: Vec<OctantPlacement>,
    position: usize,
}

impl SearchGuide for PathGuide {
    fn guide(&mut self, _depth: Depth, _octant_id: &MortonOctantId) -> Option<OctantPlacement> {
        let next = self.path.get(self.position).copied();
        self.position += 1;
        next
    }
}

#[test]
fn guided_search_follows_existing_children() {
    let mut octree: OctreeBase<HashedOctantStorage<u32>> = OctreeBase::new_with_root(0);
    let root = octree.octants.get_root_id();
    let children = octree.octants.subdivide(&root, vec![0, 1, 2, 3, 4, 5, 6, 7]).unwrap();
    let grand = octree
        .octants
        .subdivide(&children[3], vec![10, 11, 12, 13, 14, 15, 16, 17])
        .unwrap();

    // the guide names placements that exist: descent ends where it stops
    let mut guide = PathGuide {
        path: vec![OctantPlacement::UPPER_TOP_LEFT, OctantPlacement::LOWER_BOTTOM_LEFT],
        position: 0,
    };
    let found = octree.guided_search(&root, &mut guide).0.unwrap();
    assert_eq!(found, grand[0]);

    // a placement with no existing child stops without an error
    let mut dead_end = PathGuide {
        path: vec![OctantPlacement::UPPER_TOP_LEFT, OctantPlacement::LOWER_BOTTOM_LEFT,
            OctantPlacement::LOWER_BOTTOM_LEFT],
        position: 0,
    };
    let found = octree.guided_search(&root, &mut dead_end).0.unwrap();
    assert_eq!(found, grand[0]);

    // an absent start is the only failure
    let ghost_node = MortonOctantId::from_xyz(1, 1, 1, 3).unwrap();
    let mut idle = PathGuide { path: vec![], position: 0 };
    assert!(matches!(
        octree.guided_search(&ghost_node, &mut idle).0,
        Err(StorageError::InvalidOctantId)
    ));
}

/// Drills a fixed sequence of assignments.
struct ScriptedDrill {
    steps: Vec<AssignmentControlFlow<u32>>,
}

impl DrillGuide<u32> for ScriptedDrill {
    fn drill_step(
        &mut self,
        _depth: Depth,
        _octant_id: &MortonOctantId,
        _data: &mut u32,
    ) -> Option<AssignmentControlFlow<u32>> {
        if self.steps.is_empty() {
            None
        } else {
            Some(self.steps.remove(0))
        }
    }
}

#[test]
fn drill_creates_and_replaces_along_one_path() {
    let mut octree: OctreeBase<HashedOctantStorage<u32>> = OctreeBase::new_with_root(0);
    let root = octree.octants.get_root_id();

    // create two fresh levels
    let mut create = ScriptedDrill {
        steps: vec![
            AssignmentControlFlow::AssignNext(OctantPlacement::LOWER_TOP_RIGHT, 1),
            AssignmentControlFlow::AssignNext(OctantPlacement::UPPER_BOTTOM_LEFT, 2),
        ],
    };
    let reached = octree.drill(&root, &mut create).0.unwrap();
    assert_eq!(reached.compute_depth(), 2);
    assert_eq!(octree.octants.get_octant(&reached), Some(&2));

    // replace the data of the existing first level only
    let first_level = root.child_id_by_placement(OctantPlacement::LOWER_TOP_RIGHT);
    let mut swap = ScriptedDrill {
        steps: vec![AssignmentControlFlow::AssignNextExisting(
            OctantPlacement::LOWER_TOP_RIGHT,
            9,
        )],
    };
    let reached = octree.drill(&root, &mut swap).0.unwrap();
    assert_eq!(reached, first_level);
    assert_eq!(octree.octants.get_octant(&first_level), Some(&9));

    // an existing-only assignment on an absent child stops at the parent
    let mut missing = ScriptedDrill {
        steps: vec![AssignmentControlFlow::AssignNextExisting(
            OctantPlacement::UPPER_TOP_RIGHT,
            7,
        )],
    };
    let reached = octree.drill(&root, &mut missing).0.unwrap();
    assert_eq!(reached, root);

    // a when-new assignment stops without modification where a child exists
    let mut when_new = ScriptedDrill {
        steps: vec![AssignmentControlFlow::AssignNextWhenNew(
            OctantPlacement::LOWER_TOP_RIGHT,
            77,
        )],
    };
    let reached = octree.drill(&root, &mut when_new).0.unwrap();
    assert_eq!(reached, root);
    assert_eq!(octree.octants.get_octant(&first_level), Some(&9));

    // and creates the child where none exists
    let mut when_new = ScriptedDrill {
        steps: vec![AssignmentControlFlow::AssignNextWhenNew(
            OctantPlacement::UPPER_TOP_RIGHT,
            77,
        )],
    };
    let reached = octree.drill(&root, &mut when_new).0.unwrap();
    assert_eq!(reached, root.child_id_by_placement(OctantPlacement::UPPER_TOP_RIGHT));
    assert_eq!(octree.octants.get_octant(&reached), Some(&77));
}

/// Subdivides every visited node above a depth limit, or breaks at a
/// chosen code.
struct SubdivideBelow {
    limit: Depth,
    break_at: Option<u64>,
    visited: Vec<u64>,
}

impl SubdivisionPredicate<u32> for SubdivideBelow {
    fn decide(
        &mut self,
        depth: Depth,
        octant_id: &MortonOctantId,
        _data: &mut u32,
    ) -> SubdivisionControlFlow<Vec<u32>> {
        self.visited.push(octant_id.as_morton());
        if let Some(code) = self.break_at {
            if octant_id.as_morton() == code {
                return SubdivisionControlFlow::Break;
            }
        }
        if depth >= self.limit {
            SubdivisionControlFlow::Skip
        } else {
            SubdivisionControlFlow::Continue(vec![0, 1, 2, 3, 4, 5, 6, 7])
        }
    }
}

#[test]
fn subdivide_if_grows_two_levels() {
    let mut octree: OctreeBase<HashedOctantStorage<u32>> = OctreeBase::new_with_root(0);
    let root = octree.octants.get_root_id();
    let mut predicate = SubdivideBelow { limit: 2, break_at: None, visited: Vec::new() };
    let result = octree.subdivide_if(&root, &mut predicate).0.unwrap();
    assert!(matches!(result, SearchControlFlowResult::Skip(_)));
    // one root, eight children, sixty-four grandchildren, all visited
    assert_eq!(predicate.visited.len(), 1 + 8 + 64);
    for child in root.children_ids() {
        assert!(octree.octants.get_octant(&child).is_some());
        for grand in child.children_ids() {
            assert!(octree.octants.get_octant(&grand).is_some());
        }
    }
}

#[test]
fn subdivide_if_break_stops_before_later_visits() {
    let mut octree: OctreeBase<HashedOctantStorage<u32>> = OctreeBase::new_with_root(0);
    let root = octree.octants.get_root_id();
    // the second visit, in level order, is the root's first child
    let break_code = root.child_id_by_placement(OctantPlacement::LOWER_BOTTOM_LEFT).as_morton();
    let mut predicate = SubdivideBelow { limit: 3, break_at: Some(break_code), visited: Vec::new() };
    let result = octree.subdivide_if(&root, &mut predicate).0.unwrap();
    let SearchControlFlowResult::Break(break_id) = result else {
        panic!("expected the traversal to break");
    };
    assert_eq!(break_id.as_morton(), break_code);
    // the breaking node was visit number two, and nothing after it ran
    assert_eq!(predicate.visited, vec![root.as_morton(), break_code]);
}

#[test]
fn cascading_delete_spares_siblings_and_ancestors() {
    let mut storage: HashedOctantStorage<u32> = HashedOctantStorage::new_with_root(0);
    let root = storage.get_root_id();
    let children = storage.subdivide(&root, vec![0, 1, 2, 3, 4, 5, 6, 7]).unwrap();
    let grand = storage.subdivide(&children[4], vec![0, 1, 2, 3, 4, 5, 6, 7]).unwrap();
    let great = storage.subdivide(&grand[1], vec![0, 1, 2, 3, 4, 5, 6, 7]).unwrap();

    assert_eq!(storage.remove_octant(&children[4]), Some(()));
    // the whole subtree is gone
    assert!(storage.get_octant(&children[4]).is_none());
    for id in grand.iter().chain(great.iter()) {
        assert!(storage.get_octant(id).is_none());
    }
    // siblings and the root survive untouched
    for (i, id) in children.iter().enumerate() {
        if i != 4 {
            assert_eq!(storage.get_octant(id), Some(&(i as u32)));
        }
    }
    assert!(storage.get_octant(&root).is_some());

    // removing the root empties the backend entirely
    assert_eq!(storage.remove_octant(&root), Some(()));
    assert!(storage.get_octant(&root).is_none());
    for id in children.iter() {
        assert!(storage.get_octant(id).is_none());
    }
}

#[test]
fn repeated_insert_addresses_one_node() {
    let mut storage: HashedOctantStorage<u32> = HashedOctantStorage::new_with_root(0);
    let root = storage.get_root_id();
    let (first_id, first_prev) =
        storage.insert_octant(&root, OctantPlacement::UPPER_TOP_RIGHT, 41).unwrap();
    assert_eq!(first_prev, None);
    let (second_id, second_prev) =
        storage.insert_octant(&root, OctantPlacement::UPPER_TOP_RIGHT, 42).unwrap();
    assert_eq!(first_id, second_id);
    assert_eq!(second_prev, Some(41));
    assert_eq!(storage.get_octant(&first_id), Some(&42));
}

#[test]
fn traversal_orders_are_reproducible() {
    let mut octree: OctreeBase<HashedOctantStorage<u32>> = OctreeBase::new_with_root(0);
    let root = octree.octants.get_root_id();
    let children = octree.octants.subdivide(&root, vec![0, 1, 2, 3, 4, 5, 6, 7]).unwrap();
    octree.octants.subdivide(&children[1], vec![0, 1, 2, 3, 4, 5, 6, 7]).unwrap();

    // the first nine breadth-first visits are the root, then its eight
    // children in the fixed placement order, and the order is identical
    // across runs
    let level_order = octree.breadth_first_iterator();
    assert_eq!(level_order.len(), 17);
    assert_eq!(level_order[0], (0, root));
    for (i, child) in children.iter().enumerate() {
        assert_eq!(level_order[1 + i], (1, *child));
    }
    assert_eq!(level_order, octree.breadth_first_iterator());

    // depth-first order is the fixed pre-order sequence
    let pre_order = depth_first_order(&octree.octants, &root).unwrap();
    assert_eq!(pre_order.len(), 17);
    assert_eq!(pre_order[0], root);
    assert_eq!(pre_order[1], children[0]);
    assert_eq!(pre_order[2], children[1]);
    assert_eq!(pre_order[3], children[1].child_id_by_placement(OctantPlacement::LOWER_BOTTOM_LEFT));
    assert_eq!(pre_order[11], children[2]);
    assert_eq!(pre_order[16], children[7]);
    assert_eq!(pre_order, depth_first_order(&octree.octants, &root).unwrap());
}

#[test]
fn breadth_first_iterator_of_empty_backend_is_empty() {
    let mut octree: OctreeBase<HashedOctantStorage<u32>> = OctreeBase::new_with_root(0);
    let root = octree.octants.get_root_id();
    octree.octants.remove_octant(&root);
    assert!(octree.breadth_first_iterator().is_empty());
}
