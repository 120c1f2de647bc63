//! The storage contract exercised through the hash-map backend.

use sparse_octree::morton_based_storage::hashed_octant_storage::HashedOctantStorage;
use sparse_octree::morton_based_storage::morton_octant_id::MortonOctantId;
use sparse_octree::octant_meta::OctantPlacement;
use sparse_octree::octant_storage_trait::{ModifiableOctantStorage, OctantStorage, StorageError};

fn assigning_values() -> Vec<u32> {
    OctantPlacement::octants_ordered().iter().map(|p| p.index() as u32).collect()
}

fn reverse_assigning_values() -> Vec<u32> {
    OctantPlacement::octants_ordered()
        .iter()
        .map(|p| (OctantPlacement::OCTANTS_COUNT - 1 - p.index()) as u32)
        .collect()
}

pub fn test_modifiable_octant_storage<Storage: ModifiableOctantStorage<Data = u32>>(
    storage: &mut Storage,
    repeat: u8,
) {
    if repeat == 0 {
        return;
    } else {
        println!("Running repeat of test_modifiable_octant_storage: {} ...", repeat);
    }

    if storage.get_max_depth() == 0 {
        panic!("Max depth returned '0', this will stop depth and breath search from working correctly, if this is intended just comment this part out.");
    }

    let root_id = storage.get_root_id();
    let root_data: &mut u32 =
        storage.get_octant_mut(&root_id).expect("Root octant not inserted or inserted.");
    *root_data = 0;

    let children_check1: [MortonOctantId; 8] =
        storage.subdivide(&storage.get_root_id(), assigning_values()).unwrap();

    for (index, &octant_placement) in OctantPlacement::octants_ordered().iter().enumerate() {
        let child_data = storage
            .get_octant(&children_check1[index])
            .expect("Subdivide failed to create all children.");
        // this is testing child octant order
        assert_eq!(*child_data, octant_placement.index() as u32);
    }

    let children_reverse_check: [MortonOctantId; 8] =
        storage.subdivide(&storage.get_root_id(), reverse_assigning_values()).unwrap();

    for (index, &octant_placement) in OctantPlacement::octants_ordered().iter().rev().enumerate() {
        let child_data = storage
            .get_octant(&children_check1[index])
            .expect("Subdivide failed to create all children.");
        // this is testing child octant order
        assert_eq!(*child_data, octant_placement.index() as u32);
    }

    let grand_child: MortonOctantId = storage
        .subdivide(
            &children_reverse_check[OctantPlacement::UPPER_BOTTOM_RIGHT.index()],
            assigning_values(),
        )
        .unwrap()[OctantPlacement::LOWER_TOP_LEFT.index()];

    const FIRST_INSERT_VALUE: u32 = 11;
    let Ok((first_insert_child, None)) =
        storage.insert_octant(&grand_child, OctantPlacement::LOWER_TOP_RIGHT, FIRST_INSERT_VALUE)
    else {
        panic!("First insert returned data that should not have been added yet.");
    };

    const SECOND_INSERT_VALUE: u32 = 20;
    let Ok((second_insert_child, Some(old_data))) =
        storage.insert_octant(&grand_child, OctantPlacement::LOWER_TOP_RIGHT, SECOND_INSERT_VALUE)
    else {
        panic!("First insert was not successful");
    };
    assert_eq!(old_data, FIRST_INSERT_VALUE);

    let new_data = storage
        .get_octant(&second_insert_child)
        .expect("Previous insert did not insert data into persistent storage.");

    assert_eq!(*new_data, SECOND_INSERT_VALUE);

    if first_insert_child != second_insert_child {
        panic!("Second insert produced different ID which isn't allowed for usage purposes, when user wants to refer to same data multiple times.");
    }
    const CHANGED_VALUE: u32 = 33;
    let mut_data = storage.get_octant_mut(&second_insert_child).unwrap();
    *mut_data = CHANGED_VALUE;

    let changed_data = storage.get_octant(&second_insert_child).unwrap();
    assert_eq!(*changed_data, CHANGED_VALUE);

    assert_eq!(storage.get_octant_depth(&second_insert_child), Some(3));
    assert_eq!(storage.get_octant_depth(&grand_child), Some(2));
    assert_eq!(storage.get_octant_depth(&storage.get_root_id()), Some(0));

    let maybe_correct_child = storage
        .get_existing_child(&grand_child, OctantPlacement::LOWER_TOP_RIGHT)
        .expect("Wrong child placement when inserting.");

    if maybe_correct_child != second_insert_child {
        panic!("Wrong child octant_id.")
    }

    for child_id in storage.get_existing_children(&grand_child).unwrap().iter().flatten() {
        if *child_id != second_insert_child {
            panic!("Wrong children linking.");
        }
    }

    let reference_ids = [
        grand_child,
        children_reverse_check[OctantPlacement::UPPER_BOTTOM_RIGHT.index()],
        storage.get_root_id(),
    ];
    for (ancestor_id, reference_id) in storage
        .get_ancestors_for(&second_insert_child)
        .expect("Couldn't get ancestors.")
        .into_iter()
        .zip(reference_ids)
    {
        if ancestor_id != reference_id {
            panic!("Ancestor linking broken.");
        }
    }

    let child_placement = storage
        .which_child_of(
            &children_reverse_check[OctantPlacement::UPPER_BOTTOM_RIGHT.index()],
            &grand_child,
        )
        .expect("which_child_of didn't find placement from valid parent_id and child_id.");

    assert_eq!(child_placement.index(), OctantPlacement::LOWER_TOP_LEFT.index());

    {
        let mut next_decent_id = storage.get_root_id();

        let max_depth = storage.get_max_depth();
        for depth in 0..=(max_depth as u16 + 1) {
            let insertion_result = storage.insert_octant(
                &next_decent_id,
                OctantPlacement::UPPER_TOP_LEFT,
                SECOND_INSERT_VALUE,
            );
            match insertion_result {
                Ok((new_octant_id, _)) => next_decent_id = new_octant_id,
                Err(StorageError::OverMaxDepth(max)) => {
                    assert_eq!(max, max_depth);
                    if max_depth as u16 == depth {
                        break;
                    } else {
                        panic!("Depth error was given sooner than max depth was reached {}", max_depth);
                    }
                },
                _ => {
                    panic!("Wrong error given.");
                },
            }
        }
    }

    let grand_grand_children = storage.get_existing_children(&grand_child).unwrap();
    storage.remove_octant(&grand_child);
    if let Some(_) = storage.get_octant(&grand_child) {
        panic!("Removing top octant failed.");
    }

    for child_id in grand_grand_children.iter().flatten() {
        if storage.get_octant(child_id).is_some() {
            panic!("Removing octant's children failed(children accessible after parent removal).");
        }
    }

    if let Some(_) = storage.get_octant(&second_insert_child) {
        panic!("Removing children octants failed.");
    }

    storage.remove_octant(&storage.get_root_id());

    let root_exist = storage.get_octant(&storage.get_root_id());
    assert_eq!(root_exist, None);

    let root_children_exist =
        storage.get_existing_children(&storage.get_root_id()).iter().flatten().last().is_some();
    assert_eq!(root_children_exist, false);

    const ROOD_DATA: u32 = 55;
    storage.insert_root(ROOD_DATA);
    let last_root_data = storage.get_octant(&storage.get_root_id()).unwrap();
    assert_eq!(ROOD_DATA, *last_root_data);

    test_modifiable_octant_storage(storage, repeat - 1);
}

#[test]
fn test_hash_storage_interface_functions() {
    let mut octant_storage: HashedOctantStorage<u32> = HashedOctantStorage::<u32>::default();

    test_modifiable_octant_storage(&mut octant_storage, 3);
}

#[test]
fn remove_octant_and_fill_collects_subtree() {
    let mut storage: HashedOctantStorage<u32> = HashedOctantStorage::new_with_root(0);
    let children = storage.subdivide(&storage.get_root_id(), vec![1, 2, 3, 4, 5, 6, 7, 8]).unwrap();
    let target = children[2];
    let grand = storage.subdivide(&target, vec![30, 31, 32, 33, 34, 35, 36, 37]).unwrap();

    let mut collected: Vec<(MortonOctantId, u32)> = Vec::new();
    assert_eq!(storage.remove_octant_and_fill(&target, &mut collected), Some(()));
    assert_eq!(collected.len(), 9);
    let mut codes: Vec<u64> = collected.iter().map(|p| p.0.as_morton()).collect();
    codes.sort();
    let mut expected: Vec<u64> = grand.iter().map(|c| c.as_morton()).collect();
    expected.push(target.as_morton());
    expected.sort();
    assert_eq!(codes, expected);
    // siblings and the root survive
    assert!(storage.get_octant(&storage.get_root_id()).is_some());
    assert!(storage.get_octant(&children[0]).is_some());
    assert!(storage.get_octant(&children[7]).is_some());
    assert!(storage.get_octant(&target).is_none());
    assert!(storage.get_octant(&grand[5]).is_none());

    // absent id: nothing collected, nothing removed
    let mut untouched: Vec<(MortonOctantId, u32)> = Vec::new();
    assert_eq!(storage.remove_octant_and_fill(&target, &mut untouched), None);
    assert!(untouched.is_empty());
}

#[test]
fn remove_octant_and_collect_drains_root() {
    let mut storage: HashedOctantStorage<u32> = HashedOctantStorage::new_with_root(9);
    storage.subdivide(&storage.get_root_id(), vec![0, 1, 2, 3, 4, 5, 6, 7]).unwrap();
    let pairs = storage.remove_octant_and_collect(&storage.get_root_id()).unwrap();
    assert_eq!(pairs.len(), 9);
    assert!(storage.get_octant(&storage.get_root_id()).is_none());
    let root_pair = pairs.iter().find(|p| p.0 == storage.get_root_id()).unwrap();
    assert_eq!(root_pair.1, 9);
}

#[test]
fn absent_but_valid_id_is_rejected_everywhere() {
    let mut storage: HashedOctantStorage<u32> = HashedOctantStorage::new_with_root(0);
    // structurally valid depth-2 identifier that was never inserted
    let ghost_node = MortonOctantId::from_xyz(1, 1, 1, 2).unwrap();
    assert!(storage.get_octant(&ghost_node).is_none());
    assert!(storage.get_octant_mut(&ghost_node).is_none());
    assert_eq!(storage.get_octant_depth(&ghost_node), None);
    assert!(storage.get_ancestors_for(&ghost_node).is_none());
    assert_eq!(storage.get_parent(&ghost_node), None);
    assert_eq!(storage.remove_octant(&ghost_node), None);
    assert!(matches!(
        storage.insert_octant(&ghost_node, OctantPlacement::LOWER_BOTTOM_LEFT, 5),
        Err(StorageError::InvalidOctantId)
    ));
    assert!(matches!(
        storage.get_existing_child(&ghost_node, OctantPlacement::LOWER_BOTTOM_LEFT),
        Err(StorageError::InvalidOctantId)
    ));
    assert!(matches!(
        storage.get_existing_children(&ghost_node),
        Err(StorageError::InvalidOctantId)
    ));
    assert!(matches!(
        storage.which_child_of(&storage.get_root_id(), &ghost_node),
        Err(StorageError::InvalidOctantId)
    ));
}

#[test]
fn subdivide_with_default_creates_all_children() {
    let mut storage: HashedOctantStorage<u32> = HashedOctantStorage::new_with_root(0);
    let children = storage.subdivide_with_default(&storage.get_root_id()).unwrap();
    for child in children.iter() {
        assert_eq!(storage.get_octant(child), Some(&0));
    }
    assert!(matches!(
        storage.subdivide_with_default(&children[0].parent_id()),
        Ok(_)
    ));
}
