//! The storage capability contract: what every octant backend promises.
//!
//! A backend is a mapping from existing octant identifiers to payloads.
//! Presence of an identifier is the sole definition of a node's existence;
//! parent and child links are recomputed from the identifier algebra.  The
//! read-only contract covers lookup, ancestry and depth; the modifiable
//! extension adds insertion, cascading removal and subdivision.

use vstd::prelude::*;

use crate::morton_based_storage::morton_octant_id::{child_code, MortonOctantId};
use crate::octant_meta::OctantPlacement;
use crate::Depth;

verus! {

/// What a storage operation yields: a value, or the reason it could not.
pub type StorageResult<T> = Result<T, StorageError>;

/// Why a storage operation failed.
#[derive(Debug, Clone, Copy, PartialEq, Eq)]
pub enum StorageError {
    /// The operation would address or create a node deeper than the
    /// backend supports; carries the backend's depth limit.
    OverMaxDepth(Depth),
    /// The referenced identifier does not exist in the backend.
    InvalidOctantId,
    /// The parent exists but the requested child placement is unoccupied;
    /// carries the placement when one was named.
    ChildNotFound(Option<OctantPlacement>),
}

/// The read-only storage contract.
///
/// `contents()` is the backend's mathematical model: the map from existing
/// identifiers to payloads that every operation's contract speaks of.
/// `inv()` is the backend's well-formedness; `lemma_inv` spells out what
/// it guarantees: only structurally well-formed identifiers within the
/// depth limit exist, and every non-root node's parent exists.
pub trait OctantStorage: Sized {
    /// The caller-supplied payload type.
    type Data;

    /// The octants the backend holds.
    spec fn contents(&self) -> Map<MortonOctantId, Self::Data>;

    /// The backend's internal well-formedness.
    spec fn inv(&self) -> bool;

    /// The backend's fixed depth limit.
    spec fn max_depth_spec() -> nat;

    /// What well-formedness guarantees about the contents.
    proof fn lemma_inv(&self)
        requires
            self.inv(),
        ensures
            1 <= Self::max_depth_spec() <= 16,
            forall|id: MortonOctantId| #[trigger]
                self.contents().dom().contains(id) ==> id.well_formed() && id.depth_spec()
                    <= Self::max_depth_spec(),
            forall|id: MortonOctantId| #[trigger]
                self.contents().dom().contains(id) && id != MortonOctantId(1u64)
                    ==> self.contents().dom().contains(id.parent_spec()),
    ;

    /// The fixed identifier of the root octant.
    fn get_root_id(&self) -> (r: MortonOctantId)
        ensures
            r == MortonOctantId(1u64),
    ;

    /// The backend's fixed depth limit.
    fn get_max_depth(&self) -> (r: Depth)
        ensures
            r as nat == Self::max_depth_spec(),
    ;

    /// The depth of an existing octant; `None` iff the identifier does
    /// not exist.
    fn get_octant_depth(&self, octant_id: &MortonOctantId) -> (r: Option<Depth>)
        requires
            self.inv(),
        ensures
            match r {
                Some(d) => self.contents().dom().contains(*octant_id) && d as nat
                    == octant_id.depth_spec(),
                None => !self.contents().dom().contains(*octant_id),
            },
    ;

    /// The payload of an existing octant; `None` iff the identifier does
    /// not exist.
    fn get_octant<'a>(&'a self, octant_id: &MortonOctantId) -> (r: Option<&'a Self::Data>)
        ensures
            match r {
                Some(d) => self.contents().dom().contains(*octant_id) && *d
                    == self.contents()[*octant_id],
                None => !self.contents().dom().contains(*octant_id),
            },
    ;

    /// The identifier of the existing child of `parent_id` at
    /// `child_placement`.
    ///
    /// Fails with `OverMaxDepth` when the parent already sits at the
    /// depth limit, with `ChildNotFound` when the parent exists but the
    /// placement is unoccupied, and with `InvalidOctantId` when the
    /// parent itself is absent.
    fn get_existing_child(&self, parent_id: &MortonOctantId, child_placement: OctantPlacement) -> (r:
        StorageResult<MortonOctantId>)
        requires
            self.inv(),
        ensures
            r == existing_child_spec(
                self.contents(),
                Self::max_depth_spec(),
                *parent_id,
                child_placement,
            ),
    ;

    /// Every ancestor identifier of an existing octant, child-ward first,
    /// ending at the root; `None` iff the identifier does not exist.
    fn get_ancestors_for(&self, octant_id: &MortonOctantId) -> (r: Option<Vec<MortonOctantId>>)
        requires
            self.inv(),
        ensures
            match r {
                Some(v) => self.contents().dom().contains(*octant_id) && v@
                    == MortonOctantId::ancestor_chain(octant_id.as_nat()),
                None => !self.contents().dom().contains(*octant_id),
            },
    ;

    /// The parent of an existing octant; `None` for the root and for
    /// absent identifiers.
    fn get_parent(&self, octant_id: &MortonOctantId) -> (r: Option<MortonOctantId>)
        requires
            self.inv(),
        ensures
            r == parent_of_spec(self.contents(), *octant_id),
    ;

    /// All existing children of `parent_id`, one slot per placement in
    /// the fixed placement order; an unoccupied placement yields `None`.
    ///
    /// Fails exactly as `get_existing_child` does for a parent at the
    /// depth limit or an absent parent.
    fn get_existing_children(&self, parent_id: &MortonOctantId) -> (r: StorageResult<
        [Option<MortonOctantId>; 8],
    >)
        requires
            self.inv(),
        ensures
            parent_id.depth_spec() >= Self::max_depth_spec() ==> r == Err::<
                [Option<MortonOctantId>; 8],
                StorageError,
            >(StorageError::OverMaxDepth(Self::max_depth_spec() as u8)),
            parent_id.depth_spec() < Self::max_depth_spec() && !self.contents().dom().contains(
                *parent_id,
            ) ==> r == Err::<[Option<MortonOctantId>; 8], StorageError>(
                StorageError::InvalidOctantId,
            ),
            parent_id.depth_spec() < Self::max_depth_spec() && self.contents().dom().contains(
                *parent_id,
            ) ==> (r matches Ok(arr) && forall|i: int|
                0 <= i < 8 ==> #[trigger] arr[i] == child_slot_spec(
                    self.contents(),
                    *parent_id,
                    i as nat,
                )),
    ;

    /// Which placement `child_id` occupies below `parent_id`.
    ///
    /// Fails with `InvalidOctantId` when the child is absent, and with
    /// `ChildNotFound` when it exists but is no structural child of
    /// `parent_id`.
    fn which_child_of(&self, parent_id: &MortonOctantId, child_id: &MortonOctantId) -> (r:
        StorageResult<OctantPlacement>)
        requires
            self.inv(),
        ensures
            !self.contents().dom().contains(*child_id) ==> r == Err::<
                OctantPlacement,
                StorageError,
            >(StorageError::InvalidOctantId),
            self.contents().dom().contains(*child_id) ==> match r {
                Ok(p) => child_id.as_nat() == child_code(parent_id.as_nat(), p.index_spec()),
                Err(e) => e == StorageError::ChildNotFound(None::<OctantPlacement>) && forall|
                    p: OctantPlacement,
                |
                    child_id.as_nat() != child_code(parent_id.as_nat(), #[trigger] p.index_spec()),
            },
    ;
}

/// What `get_existing_child` yields over the model: the child identifier
/// when it exists, otherwise the exact error.
pub open spec fn existing_child_spec<Data>(
    m: Map<MortonOctantId, Data>,
    max_depth: nat,
    parent: MortonOctantId,
    placement: OctantPlacement,
) -> StorageResult<MortonOctantId> {
    let child = MortonOctantId(child_code(parent.as_nat(), placement.index_spec()) as u64);
    if parent.depth_spec() >= max_depth {
        Err(StorageError::OverMaxDepth(max_depth as u8))
    } else if m.dom().contains(child) {
        Ok(child)
    } else if m.dom().contains(parent) {
        Err(StorageError::ChildNotFound(Some(placement)))
    } else {
        Err(StorageError::InvalidOctantId)
    }
}

/// What `get_parent` yields over the model.
pub open spec fn parent_of_spec<Data>(
    m: Map<MortonOctantId, Data>,
    id: MortonOctantId,
) -> Option<MortonOctantId> {
    if id == MortonOctantId(1u64) {
        None
    } else if m.dom().contains(id) {
        Some(id.parent_spec())
    } else {
        None
    }
}

/// One slot of `get_existing_children` over the model: the child at
/// Morton digit `digit` when it exists.
pub open spec fn child_slot_spec<Data>(
    m: Map<MortonOctantId, Data>,
    parent: MortonOctantId,
    digit: nat,
) -> Option<MortonOctantId> {
    let child = MortonOctantId(child_code(parent.as_nat(), digit) as u64);
    if m.dom().contains(child) {
        Some(child)
    } else {
        None
    }
}

/// The identifier of the child of `parent` at Morton digit `digit`.
pub open spec fn child_of(parent: MortonOctantId, digit: nat) -> MortonOctantId {
    MortonOctantId(child_code(parent.as_nat(), digit) as u64)
}

/// The modifiable storage contract: insertion, cascading removal and
/// subdivision on top of the read-only contract.
pub trait ModifiableOctantStorage: OctantStorage {
    /// Create a backend holding exactly a root octant with `root_custom_data`.
    fn new_with_root(root_custom_data: Self::Data) -> (r: Self)
        ensures
            r.inv(),
            r.contents() == Map::<MortonOctantId, Self::Data>::empty().insert(
                MortonOctantId(1u64),
                root_custom_data,
            ),
    ;

    /// Initialize or replace the root octant's payload, yielding the
    /// payload it held before, if any.
    fn insert_root(&mut self, custom_data: Self::Data) -> (r: Option<Self::Data>)
        requires
            old(self).inv(),
        ensures
            final(self).inv(),
            final(self).contents() == old(self).contents().insert(MortonOctantId(1u64), custom_data),
            r == if old(self).contents().dom().contains(MortonOctantId(1u64)) {
                Some(old(self).contents()[MortonOctantId(1u64)])
            } else {
                None::<Self::Data>
            },
    ;

    /// Create or replace the child of `parent_id` at `child_octant_placement`.
    ///
    /// Succeeds iff the parent exists below the depth limit, yielding the
    /// child's identifier and the payload it held before, if any; the
    /// same parent and placement always yield the same identifier.
    fn insert_octant(
        &mut self,
        parent_id: &MortonOctantId,
        child_octant_placement: OctantPlacement,
        custom_data: Self::Data,
    ) -> (r: StorageResult<(MortonOctantId, Option<Self::Data>)>)
        requires
            old(self).inv(),
        ensures
            final(self).inv(),
            parent_id.depth_spec() >= Self::max_depth_spec() ==> r == Err::<
                (MortonOctantId, Option<Self::Data>),
                StorageError,
            >(StorageError::OverMaxDepth(Self::max_depth_spec() as u8)) && final(self).contents()
                == old(self).contents(),
            parent_id.depth_spec() < Self::max_depth_spec() && !old(self).contents().dom().contains(
                *parent_id,
            ) ==> r == Err::<(MortonOctantId, Option<Self::Data>), StorageError>(
                StorageError::InvalidOctantId,
            ) && final(self).contents() == old(self).contents(),
            parent_id.depth_spec() < Self::max_depth_spec() && old(self).contents().dom().contains(
                *parent_id,
            ) ==> ({
                let child = child_of(*parent_id, child_octant_placement.index_spec());
                &&& final(self).contents() == old(self).contents().insert(child, custom_data)
                &&& r == Ok::<(MortonOctantId, Option<Self::Data>), StorageError>(
                    (
                        child,
                        if old(self).contents().dom().contains(child) {
                            Some(old(self).contents()[child])
                        } else {
                            None::<Self::Data>
                        },
                    ),
                )
            }),
    ;

    /// Mutable access to an existing octant's payload; `None` iff the
    /// identifier does not exist.  Only the payload at `octant_id` can
    /// change through the returned borrow.
    fn get_octant_mut<'a>(&'a mut self, octant_id: &MortonOctantId) -> (r: Option<
        &'a mut Self::Data,
    >)
        requires
            old(self).inv(),
        ensures
            final(self).inv(),
            match r {
                Some(data) => old(self).contents().dom().contains(*octant_id) && *data == old(self).contents()[*octant_id] && final(self).contents() == old(self).contents().insert(
                    *octant_id,
                    *final(data),
                ),
                None => !old(self).contents().dom().contains(*octant_id) && final(self).contents()
                    == old(self).contents(),
            },
    ;

    /// Remove an existing octant and, recursively, every existing
    /// descendant; `None` iff the identifier does not exist.  Removing
    /// the root clears the backend entirely.
    fn remove_octant(&mut self, octant_id: &MortonOctantId) -> (r: Option<()>)
        requires
            old(self).inv(),
        ensures
            final(self).inv(),
            !old(self).contents().dom().contains(*octant_id) ==> r is None && final(self).contents()
                == old(self).contents(),
            old(self).contents().dom().contains(*octant_id) ==> r == Some(()) && final(self).contents() == old(self).contents().remove_keys(subtree_of(*octant_id)),
            old(self).contents().dom().contains(*octant_id) && *octant_id == MortonOctantId(1u64)
                ==> final(self).contents() == Map::<MortonOctantId, Self::Data>::empty(),
    ;

    /// Remove as `remove_octant` does, additionally appending every
    /// removed `(identifier, payload)` pair to `collected_octant_data`.
    ///
    /// The pairs appended are exactly the removed ones, each identifier
    /// once; their order is not specified.
    fn remove_octant_and_fill(
        &mut self,
        octant_id: &MortonOctantId,
        collected_octant_data: &mut Vec<(MortonOctantId, Self::Data)>,
    ) -> (r: Option<()>)
        requires
            old(self).inv(),
        ensures
            final(self).inv(),
            !old(self).contents().dom().contains(*octant_id) ==> r is None && final(self).contents()
                == old(self).contents() && final(collected_octant_data)@ == old(collected_octant_data)@,
            old(self).contents().dom().contains(*octant_id) ==> ({
                let before = old(collected_octant_data)@;
                let after = final(collected_octant_data)@;
                let removed = old(self).contents().dom().intersect(subtree_of(*octant_id));
                &&& r == Some(())
                &&& final(self).contents() == old(self).contents().remove_keys(
                    subtree_of(*octant_id),
                )
                &&& after.len() >= before.len()
                &&& after.take(before.len() as int) == before
                &&& forall|i: int|
                    before.len() <= i < after.len() ==> removed.contains((#[trigger] after[i]).0)
                        && old(self).contents()[after[i].0] == after[i].1
                &&& forall|i: int, j: int|
                    before.len() <= i < j < after.len() ==> (#[trigger] after[i]).0 != (
                    #[trigger] after[j]).0
                &&& forall|id: MortonOctantId| #[trigger]
                    removed.contains(id) ==> exists|i: int|
                        before.len() <= i < after.len() && (#[trigger] after[i]).0 == id
            }),
    ;

    /// Create or replace all eight children of `parent_id` in one call,
    /// in the fixed placement order, each with its slot of
    /// `children_data`; errors exactly as `insert_octant` does.
    fn subdivide(&mut self, parent_id: &MortonOctantId, children_data: Vec<Self::Data>) -> (r:
        StorageResult<[MortonOctantId; 8]>)
        requires
            old(self).inv(),
            children_data@.len() == 8,
        ensures
            final(self).inv(),
            parent_id.depth_spec() >= Self::max_depth_spec() ==> r == Err::<
                [MortonOctantId; 8],
                StorageError,
            >(StorageError::OverMaxDepth(Self::max_depth_spec() as u8)) && final(self).contents()
                == old(self).contents(),
            parent_id.depth_spec() < Self::max_depth_spec() && !old(self).contents().dom().contains(
                *parent_id,
            ) ==> r == Err::<[MortonOctantId; 8], StorageError>(StorageError::InvalidOctantId)
                && final(self).contents() == old(self).contents(),
            parent_id.depth_spec() < Self::max_depth_spec() && old(self).contents().dom().contains(
                *parent_id,
            ) ==> ({
                &&& final(self).contents() == subdivided_contents(
                    old(self).contents(),
                    *parent_id,
                    children_data@,
                )
                &&& r matches Ok(arr)
                &&& forall|i: int|
                    0 <= i < 8 ==> #[trigger] arr[i] == child_of(*parent_id, i as nat)
            }),
    ;
    /// Create or replace all eight children of `parent_id` with their
    /// default payload; errors exactly as `subdivide` does.
    fn subdivide_with_default(&mut self, parent_id: &MortonOctantId) -> (r: StorageResult<
        [MortonOctantId; 8],
    >) where Self::Data: Default
        requires
            old(self).inv(),
        ensures
            final(self).inv(),
            parent_id.depth_spec() >= Self::max_depth_spec() ==> r == Err::<
                [MortonOctantId; 8],
                StorageError,
            >(StorageError::OverMaxDepth(Self::max_depth_spec() as u8)) && final(self).contents()
                == old(self).contents(),
            parent_id.depth_spec() < Self::max_depth_spec() && !old(self).contents().dom().contains(
                *parent_id,
            ) ==> r == Err::<[MortonOctantId; 8], StorageError>(StorageError::InvalidOctantId)
                && final(self).contents() == old(self).contents(),
            parent_id.depth_spec() < Self::max_depth_spec() && old(self).contents().dom().contains(
                *parent_id,
            ) ==> ({
                &&& r matches Ok(arr)
                &&& forall|i: int|
                    0 <= i < 8 ==> #[trigger] arr[i] == child_of(*parent_id, i as nat)
                &&& forall|id: MortonOctantId| #[trigger]
                    final(self).contents().dom().contains(id) <==> (old(self).contents().dom().contains(id) || exists|j: nat|
                        j < 8 && id == child_of(*parent_id, j))
                &&& forall|id: MortonOctantId| #[trigger]
                    old(self).contents().dom().contains(id) && (forall|j: nat|
                        j < 8 ==> id != child_of(*parent_id, j)) ==> final(self).contents()[id]
                        == old(self).contents()[id]
            }),
    ;

    /// Remove as `remove_octant` does, yielding every removed
    /// `(identifier, payload)` pair; `None` iff the identifier does not
    /// exist.
    fn remove_octant_and_collect(&mut self, octant_id: &MortonOctantId) -> (r: Option<
        Vec<(MortonOctantId, Self::Data)>,
    >)
        requires
            old(self).inv(),
        ensures
            final(self).inv(),
            !old(self).contents().dom().contains(*octant_id) ==> r is None && final(self).contents()
                == old(self).contents(),
            old(self).contents().dom().contains(*octant_id) ==> ({
                let removed = old(self).contents().dom().intersect(subtree_of(*octant_id));
                &&& r matches Some(pairs)
                &&& final(self).contents() == old(self).contents().remove_keys(
                    subtree_of(*octant_id),
                )
                &&& forall|i: int|
                    0 <= i < pairs@.len() ==> removed.contains((#[trigger] pairs@[i]).0) && old(self).contents()[pairs@[i].0] == pairs@[i].1
                &&& forall|i: int, j: int|
                    0 <= i < j < pairs@.len() ==> (#[trigger] pairs@[i]).0 != (
                    #[trigger] pairs@[j]).0
                &&& forall|id: MortonOctantId| #[trigger]
                    removed.contains(id) ==> exists|i: int|
                        0 <= i < pairs@.len() && (#[trigger] pairs@[i]).0 == id
            }),
    ;
}

/// The model after subdividing `parent`: each of the eight children
/// holds its slot of `data`.
pub open spec fn subdivided_contents<Data>(
    m: Map<MortonOctantId, Data>,
    parent: MortonOctantId,
    data: Seq<Data>,
) -> Map<MortonOctantId, Data> {
    m.insert(child_of(parent, 0), data[0]).insert(child_of(parent, 1), data[1]).insert(
        child_of(parent, 2),
        data[2],
    ).insert(child_of(parent, 3), data[3]).insert(child_of(parent, 4), data[4]).insert(
        child_of(parent, 5),
        data[5],
    ).insert(child_of(parent, 6), data[6]).insert(child_of(parent, 7), data[7])
}

/// At-most-one logical node per repeated insert (law): inserting twice at
/// the same parent and placement addresses the same identifier both
/// times, and after the first insert of `d1` the model answers a second
/// insert with previous payload `d1`.
pub proof fn lemma_repeated_insert_same_id<Data>(
    m: Map<MortonOctantId, Data>,
    parent: MortonOctantId,
    placement: OctantPlacement,
    d1: Data,
)
    ensures
        ({
            let child = child_of(parent, placement.index_spec());
            let after_first = m.insert(child, d1);
            &&& after_first.dom().contains(child)
            &&& after_first[child] == d1
            &&& after_first.insert(child, d1) == after_first
        }),
{
    let child = child_of(parent, placement.index_spec());
    let after_first = m.insert(child, d1);
    assert(after_first.insert(child, d1) =~= after_first);
}


/// A read-only view of a borrowed storage, exposing exactly the read
/// contract; traversal callbacks receive such views instead of the
/// owning value so they cannot restructure the storage.
pub struct OctantStorageAccessor<'a, Storage> {
    /// The borrowed backend this view reads.
    pub storage: &'a Storage,
}

impl<'a, Storage: OctantStorage> OctantStorageAccessor<'a, Storage> {
    /// View `storage_to_access` read-only.
    pub fn new(storage_to_access: &'a Storage) -> (r: Self)
        ensures
            r.storage == storage_to_access,
    {
        OctantStorageAccessor { storage: storage_to_access }
    }
}

impl<'a, Storage: OctantStorage> OctantStorage for OctantStorageAccessor<'a, Storage> {
    type Data = Storage::Data;

    open spec fn contents(&self) -> Map<MortonOctantId, Storage::Data> {
        self.storage.contents()
    }

    open spec fn inv(&self) -> bool {
        self.storage.inv()
    }

    open spec fn max_depth_spec() -> nat {
        Storage::max_depth_spec()
    }

    proof fn lemma_inv(&self) {
        self.storage.lemma_inv();
    }

    fn get_root_id(&self) -> (r: MortonOctantId) {
        self.storage.get_root_id()
    }

    fn get_max_depth(&self) -> (r: Depth) {
        self.storage.get_max_depth()
    }

    fn get_octant_depth(&self, octant_id: &MortonOctantId) -> (r: Option<Depth>) {
        self.storage.get_octant_depth(octant_id)
    }

    fn get_octant<'b>(&'b self, octant_id: &MortonOctantId) -> (r: Option<&'b Storage::Data>) {
        self.storage.get_octant(octant_id)
    }

    fn get_existing_child(&self, parent_id: &MortonOctantId, child_placement: OctantPlacement) -> (r:
        StorageResult<MortonOctantId>) {
        self.storage.get_existing_child(parent_id, child_placement)
    }

    fn get_ancestors_for(&self, octant_id: &MortonOctantId) -> (r: Option<Vec<MortonOctantId>>) {
        self.storage.get_ancestors_for(octant_id)
    }

    fn get_parent(&self, octant_id: &MortonOctantId) -> (r: Option<MortonOctantId>) {
        self.storage.get_parent(octant_id)
    }

    fn get_existing_children(&self, parent_id: &MortonOctantId) -> (r: StorageResult<
        [Option<MortonOctantId>; 8],
    >) {
        self.storage.get_existing_children(parent_id)
    }

    fn which_child_of(&self, parent_id: &MortonOctantId, child_id: &MortonOctantId) -> (r:
        StorageResult<OctantPlacement>) {
        self.storage.which_child_of(parent_id, child_id)
    }
}

/// The set of an octant and all its structural descendants; what a
/// cascading removal takes out.
pub open spec fn subtree_of(root: MortonOctantId) -> Set<MortonOctantId> {
    Set::new(|id: MortonOctantId| code_descends_from(id.as_nat(), root.as_nat()))
}

/// Whether code `a` lies in the subtree rooted at code `b`: repeatedly
/// taking the parent of `a` reaches `b`.
pub open spec fn code_descends_from(a: nat, b: nat) -> bool
    decreases a,
{
    if a == b {
        true
    } else if a < 8 {
        false
    } else {
        code_descends_from(a / 8, b)
    }
}

} // verus!
