//! Depth-first and breadth-first traversal order, break and skip
//! semantics, over the hash-map backed tree.

use sparse_octree::morton_based_storage::morton_octant_id::MortonOctantId;
use sparse_octree::octant_meta::OctantPlacement;
use sparse_octree::octant_storage_trait::{ModifiableOctantStorage, OctantStorage};
use sparse_octree::octree_base::{
    SearchControlFlow, SearchControlFlowResult, SearchVisitor, SearchVisitorMut,
    SubdivisionControlFlow, SubdivisionMaybePredicate,
};
use sparse_octree::{Depth, SparseOctreeHashed};

#[derive(Debug, Default)]
struct NoData;

const DEPTH_FIRST_VISIT_ORDER: [u64; 41] = [
    1, 8, 9, 72, 73, 74, 592, 593, 594, 595, 596, 597, 598, 599, 4792, 4793, 4794, 4795, 4796,
    4797, 38376, 38377, 38378, 38379, 38380, 38381, 38382, 38383, 4798, 4799, 75, 76, 77, 78, 79,
    10, 11, 12, 13, 14, 15,
];

const BREADTH_FIRST_VISIT_ORDER: [u64; 41] = [
    1, 8, 9, 10, 11, 12, 13, 14, 15, 72, 73, 74, 75, 76, 77, 78, 79, 592, 593, 594, 595, 596, 597,
    598, 599, 4792, 4793, 4794, 4795, 4796, 4797, 4798, 4799, 38376, 38377, 38378, 38379, 38380,
    38381, 38382, 38383,
];

fn build_test_tree(octree: &mut SparseOctreeHashed<NoData>) {
    let root = octree.octants.get_root_id();
    let level1 = octree.octants.subdivide_with_default(&root).unwrap()[1];
    let level2 = octree.octants.subdivide_with_default(&level1).unwrap()[2];
    let level3 = octree.octants.subdivide_with_default(&level2).unwrap()[7];
    let level4 = octree.octants.subdivide_with_default(&level3).unwrap()[5];
    octree.octants.subdivide_with_default(&level4).unwrap();
}

/// Replays an expected visit order, optionally breaking at one code or
/// skipping below a depth, checking every visit against the script.
struct ScriptedVisitor {
    expected: Vec<u64>,
    position: usize,
    break_at: Option<u64>,
    skip_after_depth: Option<Depth>,
    continue_skipping: bool,
    sticky_skip: bool,
}

impl ScriptedVisitor {
    fn all_of(expected: &[u64]) -> Self {
        ScriptedVisitor {
            expected: expected.to_vec(),
            position: 0,
            break_at: None,
            skip_after_depth: None,
            continue_skipping: false,
            sticky_skip: false,
        }
    }

    fn step(&mut self, depth: Depth, octant_id: &MortonOctantId) -> SearchControlFlow {
        let correct_morton_code = *self
            .expected
            .get(self.position)
            .expect("search visited more octants than defined.");
        self.position += 1;
        assert_eq!(
            octant_id.as_morton(),
            correct_morton_code,
            "search visited octant with morton code different from defined."
        );
        assert_eq!(octant_id.compute_depth(), depth);
        if let Some(break_code) = self.break_at {
            if octant_id.as_morton() == break_code {
                return SearchControlFlow::Break;
            }
            return SearchControlFlow::Continue;
        }
        if let Some(skip_depth) = self.skip_after_depth {
            if self.continue_skipping || octant_id.compute_depth() >= skip_depth {
                if self.sticky_skip {
                    self.continue_skipping = true;
                }
                return SearchControlFlow::Skip;
            }
            return SearchControlFlow::Continue;
        }
        SearchControlFlow::Continue
    }
}

impl SearchVisitor for ScriptedVisitor {
    fn visit(&mut self, depth: Depth, octant_id: &MortonOctantId) -> SearchControlFlow {
        self.step(depth, octant_id)
    }
}

impl SearchVisitorMut<NoData> for ScriptedVisitor {
    fn visit_mut(
        &mut self,
        depth: Depth,
        octant_id: &MortonOctantId,
        _data: &mut NoData,
    ) -> SearchControlFlow {
        self.step(depth, octant_id)
    }
}

#[test]
fn test_depth_first_search() {
    let mut octree: SparseOctreeHashed<NoData> = SparseOctreeHashed::default();
    build_test_tree(&mut octree);

    // full traversal in the scripted order
    let mut all = ScriptedVisitor::all_of(&DEPTH_FIRST_VISIT_ORDER);
    let SearchControlFlowResult::Continue(continue_step_id) = octree
        .depth_first_search_from_root(&mut all).0
        .expect("Broken root link,")
    else {
        panic!("Wrong last step.");
    };
    assert_eq!(continue_step_id.as_morton(), *DEPTH_FIRST_VISIT_ORDER.last().unwrap());

    // control-flow Break
    const BREAKING_INDEX: usize = 30;
    let mut breaking = ScriptedVisitor::all_of(&DEPTH_FIRST_VISIT_ORDER[..=BREAKING_INDEX]);
    breaking.break_at = Some(DEPTH_FIRST_VISIT_ORDER[BREAKING_INDEX]);
    let SearchControlFlowResult::Break(break_step_id) = octree
        .depth_first_search_from_root(&mut breaking).0
        .expect("Broken root link,")
    else {
        panic!("Wrong last step.");
    };
    assert_eq!(break_step_id.as_morton(), DEPTH_FIRST_VISIT_ORDER[BREAKING_INDEX]);
    assert_eq!(breaking.position, BREAKING_INDEX + 1);

    // control-flow Skip
    const SKIP_AFTER_DEPTH: Depth = 3;
    let shallow: Vec<u64> = DEPTH_FIRST_VISIT_ORDER
        .iter()
        .copied()
        .filter(|code| MortonOctantId(*code).compute_depth() <= SKIP_AFTER_DEPTH)
        .collect();
    let depth_first_last_visit = *shallow.last().unwrap();
    let mut skipping = ScriptedVisitor::all_of(&shallow);
    skipping.skip_after_depth = Some(SKIP_AFTER_DEPTH);
    skipping.sticky_skip = true;
    let SearchControlFlowResult::Skip(skip_step_id) = octree
        .depth_first_search_from_root(&mut skipping).0
        .expect("Broken root link,")
    else {
        panic!("Wrong last step.");
    };
    assert_eq!(skip_step_id.as_morton(), depth_first_last_visit);
}

#[test]
fn test_depth_first_search_mut() {
    let mut octree: SparseOctreeHashed<NoData> = SparseOctreeHashed::default();
    build_test_tree(&mut octree);

    let mut all = ScriptedVisitor::all_of(&DEPTH_FIRST_VISIT_ORDER);
    let SearchControlFlowResult::Continue(continue_step_id) = octree
        .depth_first_search_from_root_mut(&mut all).0
        .expect("Broken root link,")
    else {
        panic!("Wrong last step.");
    };
    assert_eq!(continue_step_id.as_morton(), *DEPTH_FIRST_VISIT_ORDER.last().unwrap());

    const BREAKING_INDEX: usize = 30;
    let mut breaking = ScriptedVisitor::all_of(&DEPTH_FIRST_VISIT_ORDER[..=BREAKING_INDEX]);
    breaking.break_at = Some(DEPTH_FIRST_VISIT_ORDER[BREAKING_INDEX]);
    let SearchControlFlowResult::Break(break_step_id) = octree
        .depth_first_search_from_root_mut(&mut breaking).0
        .expect("Broken root link,")
    else {
        panic!("Wrong last step.");
    };
    assert_eq!(break_step_id.as_morton(), DEPTH_FIRST_VISIT_ORDER[BREAKING_INDEX]);

    const SKIP_AFTER_DEPTH: Depth = 3;
    let shallow: Vec<u64> = DEPTH_FIRST_VISIT_ORDER
        .iter()
        .copied()
        .filter(|code| MortonOctantId(*code).compute_depth() <= SKIP_AFTER_DEPTH)
        .collect();
    let depth_first_last_visit = *shallow.last().unwrap();
    let mut skipping = ScriptedVisitor::all_of(&shallow);
    skipping.skip_after_depth = Some(SKIP_AFTER_DEPTH);
    skipping.sticky_skip = true;
    let SearchControlFlowResult::Skip(skip_step_id) = octree
        .depth_first_search_from_root_mut(&mut skipping).0
        .expect("Broken root link,")
    else {
        panic!("Wrong last step.");
    };
    assert_eq!(skip_step_id.as_morton(), depth_first_last_visit);
}

#[test]
fn test_breadth_first_search() {
    let mut octree: SparseOctreeHashed<NoData> = SparseOctreeHashed::default();
    build_test_tree(&mut octree);

    let mut all = ScriptedVisitor::all_of(&BREADTH_FIRST_VISIT_ORDER);
    let SearchControlFlowResult::Continue(continue_step_id) = octree
        .breadth_first_search_from_root(&mut all).0
        .expect("Broken root link,")
    else {
        panic!("Wrong last step.");
    };
    assert_eq!(continue_step_id.as_morton(), *BREADTH_FIRST_VISIT_ORDER.last().unwrap());

    const BREAKING_INDEX: usize = 30;
    let mut breaking = ScriptedVisitor::all_of(&BREADTH_FIRST_VISIT_ORDER[..=BREAKING_INDEX]);
    breaking.break_at = Some(BREADTH_FIRST_VISIT_ORDER[BREAKING_INDEX]);
    let SearchControlFlowResult::Break(break_step_id) = octree
        .breadth_first_search_from_root(&mut breaking).0
        .expect("Broken root link,")
    else {
        panic!("Wrong last step.");
    };
    assert_eq!(break_step_id.as_morton(), BREADTH_FIRST_VISIT_ORDER[BREAKING_INDEX]);
    assert_eq!(breaking.position, BREAKING_INDEX + 1);

    const SKIP_AFTER_DEPTH: Depth = 3;
    let shallow: Vec<u64> = BREADTH_FIRST_VISIT_ORDER
        .iter()
        .copied()
        .filter(|code| MortonOctantId(*code).compute_depth() <= SKIP_AFTER_DEPTH)
        .collect();
    let breadth_first_last_visit = *shallow.last().unwrap();
    let mut skipping = ScriptedVisitor::all_of(&shallow);
    skipping.skip_after_depth = Some(SKIP_AFTER_DEPTH);
    let SearchControlFlowResult::Skip(skip_step_id) = octree
        .breadth_first_search_from_root(&mut skipping).0
        .expect("Broken root link,")
    else {
        panic!("Wrong last step.");
    };
    assert_eq!(skip_step_id.as_morton(), breadth_first_last_visit);
}

#[test]
fn test_breadth_first_search_mut() {
    let mut octree: SparseOctreeHashed<NoData> = SparseOctreeHashed::default();
    build_test_tree(&mut octree);

    let mut all = ScriptedVisitor::all_of(&BREADTH_FIRST_VISIT_ORDER);
    let SearchControlFlowResult::Continue(continue_step_id) = octree
        .breadth_first_search_from_root_mut(&mut all).0
        .expect("Broken root link,")
    else {
        panic!("Wrong last step.");
    };
    assert_eq!(continue_step_id.as_morton(), *BREADTH_FIRST_VISIT_ORDER.last().unwrap());

    const BREAKING_INDEX: usize = 30;
    let mut breaking = ScriptedVisitor::all_of(&BREADTH_FIRST_VISIT_ORDER[..=BREAKING_INDEX]);
    breaking.break_at = Some(BREADTH_FIRST_VISIT_ORDER[BREAKING_INDEX]);
    let SearchControlFlowResult::Break(break_step_id) = octree
        .breadth_first_search_from_root_mut(&mut breaking).0
        .expect("Broken root link,")
    else {
        panic!("Wrong last step.");
    };
    assert_eq!(break_step_id.as_morton(), BREADTH_FIRST_VISIT_ORDER[BREAKING_INDEX]);

    const SKIP_AFTER_DEPTH: Depth = 3;
    let shallow: Vec<u64> = BREADTH_FIRST_VISIT_ORDER
        .iter()
        .copied()
        .filter(|code| MortonOctantId(*code).compute_depth() <= SKIP_AFTER_DEPTH)
        .collect();
    let breadth_first_last_visit = *shallow.last().unwrap();
    let mut skipping = ScriptedVisitor::all_of(&shallow);
    skipping.skip_after_depth = Some(SKIP_AFTER_DEPTH);
    let SearchControlFlowResult::Skip(skip_step_id) = octree
        .breadth_first_search_from_root_mut(&mut skipping).0
        .expect("Broken root link,")
    else {
        panic!("Wrong last step.");
    };
    assert_eq!(skip_step_id.as_morton(), breadth_first_last_visit);
}

/// Prints the tree while traversing, one indented line per octant.
struct PrintingVisitor;

impl SearchVisitor for PrintingVisitor {
    fn visit(&mut self, _depth: Depth, octant_id: &MortonOctantId) -> SearchControlFlow {
        let mut indent = String::new();
        for _ in 0..octant_id.compute_depth() {
            indent.push('\t');
        }
        println!("{}{:?}", indent, octant_id);
        SearchControlFlow::Continue
    }
}

struct GrowToDepth {
    limit: Depth,
}

impl SubdivisionMaybePredicate<NoData> for GrowToDepth {
    fn decide_some(
        &mut self,
        depth: Depth,
        _octant_id: &MortonOctantId,
        _data: &mut NoData,
    ) -> SubdivisionControlFlow<Vec<Option<NoData>>> {
        if depth >= self.limit {
            SubdivisionControlFlow::Skip
        } else {
            SubdivisionControlFlow::Continue(vec![
                Some(NoData),
                Some(NoData),
                Some(NoData),
                Some(NoData),
                Some(NoData),
                Some(NoData),
                Some(NoData),
                Some(NoData),
            ])
        }
    }
}

#[test]
fn hash_sparse_octree_test_morton_depth_parents_children() {
    let mut octree: SparseOctreeHashed<NoData> = SparseOctreeHashed::default();
    let root = octree.octants.get_root_id();
    octree.octants.subdivide_with_default(&root).unwrap();
    let level1 = octree.octants.subdivide_with_default(&root).unwrap()[1];
    let level2 = octree.octants.subdivide_with_default(&level1).unwrap()[2];
    let level3 = octree.octants.subdivide_with_default(&level2).unwrap()[7];
    let level4 = octree.octants.subdivide_with_default(&level3).unwrap()[5];
    octree.octants.subdivide_with_default(&level4).unwrap();

    let a = octree.breadth_first_search_from_root(&mut PrintingVisitor).0;
    println!("\nLast id: {:?}", a.unwrap());

    for octant_id in octree.octants.get_ancestors_for(&level4).unwrap() {
        println!("{:?}", octant_id);
    }

    let root_id: MortonOctantId = octree.octants.get_root_id();
    octree.subdivide_if_some(&root_id, &mut GrowToDepth { limit: 3 }).0.unwrap();

    octree.breadth_first_search_from_root(&mut PrintingVisitor).0.unwrap();
}
