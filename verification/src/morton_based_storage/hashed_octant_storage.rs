//! Hash-map backed reference implementation of the storage contract.
//!
//! Octants live in a map from raw Morton code to payload; every contract
//! operation reduces to map lookups plus the identifier algebra.  The
//! backend's invariant keeps only structurally well-formed codes within
//! the depth limit, and keeps every non-root node's parent present.

use std::collections::HashMap;

use vstd::prelude::*;

use crate::morton_based_storage::morton_octant_id::{
    child_code, code_depth, code_well_formed, lemma_bit_len_brackets, lemma_child_code,
    lemma_child_well_formed, MortonOctantId,
};
use crate::octant_storage_trait::{
    child_of, child_slot_spec, code_descends_from, subdivided_contents, subtree_of,
    ModifiableOctantStorage, OctantStorage, StorageError, StorageResult,
};
use crate::octant_meta::OctantPlacement;
use crate::Depth;

use vstd::arithmetic::power2::{lemma2_to64, lemma2_to64_rest, lemma_pow2_strictly_increases, pow2};

verus! {

broadcast use vstd::std_specs::hash::group_hash_axioms;

/// The reference backend: a map from raw Morton code to payload.
#[verifier::reject_recursive_types(Data)]
pub struct HashedOctantStorage<Data> {
    octants: HashMap<u64, Data>,
}

/// The raw code map read as a map over identifiers.
pub open spec fn to_contents<Data>(m: Map<u64, Data>) -> Map<MortonOctantId, Data> {
    Map::new(|id: MortonOctantId| m.contains_key(id.0), |id: MortonOctantId| m[id.0])
}

/// The backend invariant over the raw code map: every key is a
/// structurally well-formed code, and every non-root key's parent is
/// present.
pub open spec fn code_map_inv<Data>(m: Map<u64, Data>) -> bool {
    forall|k: u64| #[trigger]
        m.contains_key(k) ==> code_well_formed(k as nat) && (k != 1 ==> m.contains_key(k / 8))
}

/// A well-formed non-root code is at least eight.
pub proof fn lemma_well_formed_not_root_ge8(k: nat)
    requires
        code_well_formed(k),
        k != 1,
    ensures
        k >= 8,
        code_depth(k) >= 1,
{
    lemma_bit_len_brackets(k);
    let b = crate::morton_based_storage::morton_octant_id::bit_len(k);
    if b == 1 {
        lemma2_to64();
        assert(k == 1);
    }
    assert(b >= 4);
    assert(pow2((b - 1) as nat) >= pow2(3)) by {
        if b > 4 {
            lemma_pow2_strictly_increases(3, (b - 1) as nat);
        }
    }
    lemma2_to64();
}

/// Within a subtree, every member is at least the subtree's root.
pub proof fn lemma_descends_ge(a: nat, b: nat)
    requires
        code_descends_from(a, b),
        b >= 1,
    ensures
        a >= b,
    decreases a,
{
    if a != b {
        lemma_descends_ge(a / 8, b);
    }
}

/// Every key of an invariant-respecting map descends from the root.
pub proof fn lemma_all_descend_root<Data>(m: Map<u64, Data>, k: u64)
    requires
        code_map_inv(m),
        m.contains_key(k),
    ensures
        code_descends_from(k as nat, 1),
    decreases k,
{
    if k != 1 {
        lemma_well_formed_not_root_ge8(k as nat);
        lemma_all_descend_root(m, k / 8);
        assert(k as nat / 8 == (k / 8) as nat);
    }
}

/// No key of an invariant-respecting map descends from an absent code.
pub proof fn lemma_absent_subtree_empty<Data>(m: Map<u64, Data>, c: u64, k: u64)
    requires
        code_map_inv(m),
        !m.contains_key(c),
        m.contains_key(k),
    ensures
        !code_descends_from(k as nat, c as nat),
    decreases k,
{
    if code_descends_from(k as nat, c as nat) {
        assert(k != c);
        if k == 1 {
            assert(1nat < 8);
        } else {
            lemma_well_formed_not_root_ge8(k as nat);
            assert(m.contains_key(k / 8));
            assert(k as nat / 8 == (k / 8) as nat);
            lemma_absent_subtree_empty(m, c, k / 8);
        }
    }
}

/// A member of a subtree other than its root descends from one of the
/// root's eight children.
pub proof fn lemma_descends_through_child(a: nat, b: nat)
    requires
        code_descends_from(a, b),
        a != b,
    ensures
        exists|j: nat| j < 8 && code_descends_from(a, child_code(b, j)),
    decreases a,
{
    assert(a >= 8);
    if a / 8 == b {
        let j = a % 8;
        assert(a == child_code(b, j)) by (nonlinear_arith)
            requires
                j == a % 8,
                a / 8 == b,
        ;
        assert(code_descends_from(a, child_code(b, j)));
    } else {
        lemma_descends_through_child(a / 8, b);
        let j = choose|j: nat| j < 8 && code_descends_from(a / 8, child_code(b, j));
        assert(code_descends_from(a, child_code(b, j)));
    }
}

/// A member of a child's subtree belongs to the parent's subtree and is
/// not the parent itself.
pub proof fn lemma_descends_from_child(a: nat, b: nat, j: nat)
    requires
        code_descends_from(a, child_code(b, j)),
        b >= 1,
        j < 8,
    ensures
        code_descends_from(a, b),
        a != b,
    decreases a,
{
    let c = child_code(b, j);
    lemma_descends_ge(a, c);
    if a == c {
        assert(a / 8 == b && a % 8 == j) by (nonlinear_arith)
            requires
                a == 8 * b + j,
                j < 8,
        ;
        assert(a >= 8);
        assert(code_descends_from(b, b));
        assert(code_descends_from(a, b));
    } else {
        lemma_descends_from_child(a / 8, b, j);
    }
    assert(a >= c && c > b);
}

/// Sibling subtrees are disjoint.
pub proof fn lemma_sibling_subtrees_disjoint(a: nat, b: nat, i: nat, j: nat)
    requires
        b >= 1,
        i < 8,
        j < 8,
        code_descends_from(a, child_code(b, i)),
        code_descends_from(a, child_code(b, j)),
    ensures
        i == j,
    decreases a,
{
    let ci = child_code(b, i);
    let cj = child_code(b, j);
    if a == ci && a == cj {
        assert(i == j) by (nonlinear_arith)
            requires
                8 * b + i == 8 * b + j,
        ;
    } else if a == ci {
        lemma_descends_ge(a, cj);
        assert(a >= 8);
        assert(a / 8 == b && a % 8 == i) by (nonlinear_arith)
            requires
                a == 8 * b + i,
                i < 8,
        ;
        assert(code_descends_from(b, cj));
        lemma_descends_ge(b, cj);
        assert(false);
    } else if a == cj {
        lemma_descends_ge(a, ci);
        assert(a >= 8);
        assert(a / 8 == b && a % 8 == j) by (nonlinear_arith)
            requires
                a == 8 * b + j,
                j < 8,
        ;
        assert(code_descends_from(b, ci));
        lemma_descends_ge(b, ci);
        assert(false);
    } else {
        assert(a >= 8);
        lemma_sibling_subtrees_disjoint(a / 8, b, i, j);
    }
}

/// Inserting a raw pair inserts the identified pair in the identifier view.
pub proof fn lemma_contents_insert<Data>(m: Map<u64, Data>, k: u64, v: Data)
    ensures
        to_contents(m.insert(k, v)) == to_contents(m).insert(MortonOctantId(k), v),
{
    let a = to_contents(m.insert(k, v));
    let b = to_contents(m).insert(MortonOctantId(k), v);
    assert forall|id: MortonOctantId| a.dom().contains(id) implies b.dom().contains(id) by {
        if id.0 != k {
            assert(m.contains_key(id.0));
        }
    }
    assert forall|id: MortonOctantId| b.dom().contains(id) implies a.dom().contains(id) by {}
    assert forall|id: MortonOctantId| a.dom().contains(id) implies a[id] == b[id] by {
        if id.0 == k {
            assert(id == MortonOctantId(k));
        }
    }
    assert(a =~= b);
}

/// Removing a raw key removes the identified key in the identifier view.
pub proof fn lemma_contents_remove<Data>(m: Map<u64, Data>, k: u64)
    ensures
        to_contents(m.remove(k)) == to_contents(m).remove(MortonOctantId(k)),
{
    let a = to_contents(m.remove(k));
    let b = to_contents(m).remove(MortonOctantId(k));
    assert forall|id: MortonOctantId| a.dom().contains(id) implies b.dom().contains(id) by {
        if id.0 == k {
            assert(false);
        } else {
            assert(id != MortonOctantId(k));
        }
    }
    assert forall|id: MortonOctantId| b.dom().contains(id) implies a.dom().contains(id) by {}
    assert(a =~= b);
}

/// The identifier view of the empty raw map is empty.
pub proof fn lemma_contents_empty<Data>()
    ensures
        to_contents(Map::<u64, Data>::empty()) == Map::<MortonOctantId, Data>::empty(),
{
    assert(to_contents(Map::<u64, Data>::empty()) =~= Map::<MortonOctantId, Data>::empty());
}

impl<Data> OctantStorage for HashedOctantStorage<Data> {
    type Data = Data;

    closed spec fn contents(&self) -> Map<MortonOctantId, Data> {
        to_contents(self.octants@)
    }

    closed spec fn inv(&self) -> bool {
        code_map_inv(self.octants@)
    }

    open spec fn max_depth_spec() -> nat {
        16
    }

    proof fn lemma_inv(&self) {
        assert forall|id: MortonOctantId| #[trigger]
            self.contents().dom().contains(id) implies id.well_formed() && id.depth_spec()
            <= 16 by {
            assert(self.octants@.contains_key(id.0));
        }
        assert forall|id: MortonOctantId| #[trigger]
            self.contents().dom().contains(id) && id != MortonOctantId(1u64)
            implies self.contents().dom().contains(id.parent_spec()) by {
            assert(self.octants@.contains_key(id.0));
            assert(id.0 != 1);
            assert(self.octants@.contains_key(id.0 / 8));
        }
    }

    fn get_root_id(&self) -> (r: MortonOctantId) {
        MortonOctantId(1)
    }

    fn get_max_depth(&self) -> (r: Depth) {
        16
    }

    fn get_octant_depth(&self, octant_id: &MortonOctantId) -> (r: Option<Depth>) {
        if self.octants.contains_key(&octant_id.0) {
            Some(octant_id.compute_depth())
        } else {
            None
        }
    }

    fn get_octant<'a>(&'a self, octant_id: &MortonOctantId) -> (r: Option<&'a Data>) {
        self.octants.get(&octant_id.0)
    }

    fn get_existing_child(&self, parent_id: &MortonOctantId, child_placement: OctantPlacement) -> (r:
        StorageResult<MortonOctantId>) {
        let depth = parent_id.compute_depth();
        if depth >= 16 {
            return Err(StorageError::OverMaxDepth(16));
        }
        proof {
            lemma_shallow_code_fits(parent_id.0 as nat);
        }
        let child = MortonOctantId(parent_id.0 * 8 + child_placement.index() as u64);
        if self.octants.contains_key(&child.0) {
            Ok(child)
        } else if self.octants.contains_key(&parent_id.0) {
            Err(StorageError::ChildNotFound(Some(child_placement)))
        } else {
            Err(StorageError::InvalidOctantId)
        }
    }

    fn get_ancestors_for(&self, octant_id: &MortonOctantId) -> (r: Option<Vec<MortonOctantId>>) {
        if self.octants.contains_key(&octant_id.0) {
            Some(octant_id.ancestor_ids())
        } else {
            None
        }
    }

    fn get_parent(&self, octant_id: &MortonOctantId) -> (r: Option<MortonOctantId>) {
        if octant_id.0 == 1 {
            None
        } else if self.octants.contains_key(&octant_id.0) {
            Some(MortonOctantId(octant_id.0 / 8))
        } else {
            None
        }
    }

    fn get_existing_children(&self, parent_id: &MortonOctantId) -> (r: StorageResult<
        [Option<MortonOctantId>; 8],
    >) {
        let depth = parent_id.compute_depth();
        if depth >= 16 {
            return Err(StorageError::OverMaxDepth(16));
        }
        if !self.octants.contains_key(&parent_id.0) {
            return Err(StorageError::InvalidOctantId);
        }
        proof {
            lemma_shallow_code_fits(parent_id.0 as nat);
        }
        let base = parent_id.0 * 8;
        let r = [
            self.child_slot(base, 0),
            self.child_slot(base, 1),
            self.child_slot(base, 2),
            self.child_slot(base, 3),
            self.child_slot(base, 4),
            self.child_slot(base, 5),
            self.child_slot(base, 6),
            self.child_slot(base, 7),
        ];
        proof {
            assert forall|i: int| 0 <= i < 8 implies #[trigger] r[i] == child_slot_spec(
                self.contents(),
                *parent_id,
                i as nat,
            ) by {
                assert(child_of(*parent_id, i as nat).0 == parent_id.0 * 8 + i);
            }
        }
        Ok(r)
    }

    fn which_child_of(&self, parent_id: &MortonOctantId, child_id: &MortonOctantId) -> (r:
        StorageResult<OctantPlacement>) {
        if !self.octants.contains_key(&child_id.0) {
            return Err(StorageError::InvalidOctantId);
        }
        if child_id.0 / 8 == parent_id.0 {
            let digit = (child_id.0 % 8) as usize;
            proof {
                assert(child_id.as_nat() == child_code(parent_id.as_nat(), digit as nat))
                    by (nonlinear_arith)
                    requires
                        digit == child_id.0 % 8,
                        child_id.0 / 8 == parent_id.0,
                ;
                crate::octant_meta::lemma_placement_index_bijective();
            }
            match OctantPlacement::try_from_index(digit) {
                Some(p) => Ok(p),
                None => {
                    proof {
                        assert(false);
                    }
                    Err(StorageError::InvalidOctantId)
                },
            }
        } else {
            proof {
                assert forall|p: OctantPlacement|
                    child_id.as_nat() != child_code(
                        parent_id.as_nat(),
                        #[trigger] p.index_spec(),
                    ) by {
                    if child_id.as_nat() == child_code(parent_id.as_nat(), p.index_spec()) {
                        assert(child_id.0 / 8 == parent_id.0) by (nonlinear_arith)
                            requires
                                child_id.0 as nat == 8 * (parent_id.0 as nat) + p.index_spec(),
                                p.index_spec() < 8,
                        ;
                    }
                }
            }
            Err(StorageError::ChildNotFound(None))
        }
    }
}

impl<Data> HashedOctantStorage<Data> {
    /// Every stored identifier, each once, in the map's own order; pair
    /// with `get_octant` for the payloads.
    pub fn iter(&self) -> (r: Vec<MortonOctantId>)
        ensures
            forall|i: int, j: int| 0 <= i < j < r@.len() ==> r@[i] != r@[j],
            forall|i: int|
                0 <= i < r@.len() ==> self.contents().dom().contains(#[trigger] r@[i]),
            forall|id: MortonOctantId| #[trigger]
                self.contents().dom().contains(id) ==> exists|i: int|
                    0 <= i < r@.len() && r@[i] == id,
    {
        let codes = key_codes(&self.octants);
        let mut out: Vec<MortonOctantId> = Vec::new();
        let mut i: usize = 0;
        while i < codes.len()
            invariant
                i <= codes@.len(),
                out@.len() == i,
                forall|t: int| 0 <= t < i ==> #[trigger] out@[t] == MortonOctantId(codes@[t]),
            decreases codes@.len() - i,
        {
            out.push(MortonOctantId(codes[i]));
            i = i + 1;
        }
        proof {
            assert forall|id: MortonOctantId| #[trigger]
                self.contents().dom().contains(id) implies exists|t: int|
                0 <= t < out@.len() && out@[t] == id by {
                assert(self.octants@.contains_key(id.0));
                let t = choose|t: int| 0 <= t < codes@.len() && codes@[t] == id.0;
                assert(out@[t] == MortonOctantId(codes@[t]));
            }
        }
        out
    }

    /// Read-only access to the underlying code map.
    pub fn storage(&self) -> (r: &HashMap<u64, Data>)
        ensures
            to_contents(r@) == self.contents(),
    {
        &self.octants
    }

    /// One slot of the children array: the child at `base + digit` when
    /// it exists.
    fn child_slot(&self, base: u64, digit: u64) -> (r: Option<MortonOctantId>)
        requires
            digit < 8,
            base + digit <= u64::MAX,
        ensures
            r == if self.contents().dom().contains(MortonOctantId((base + digit) as u64)) {
                Some(MortonOctantId((base + digit) as u64))
            } else {
                None::<MortonOctantId>
            },
    {
        let child = base + digit;
        if self.octants.contains_key(&child) {
            Some(MortonOctantId(child))
        } else {
            None
        }
    }
}

/// Removing two key sets in turn removes their union.
proof fn lemma_remove_keys_union<K, V>(x: Map<K, V>, a: Set<K>, b: Set<K>)
    ensures
        x.remove_keys(a).remove_keys(b) == x.remove_keys(a.union(b)),
{
    assert(x.remove_keys(a).remove_keys(b) =~= x.remove_keys(a.union(b)));
}

/// Removing a key after a key set removes the set grown by the key.
proof fn lemma_remove_keys_insert<K, V>(x: Map<K, V>, a: Set<K>, k: K)
    ensures
        x.remove_keys(a).remove(k) == x.remove_keys(a.insert(k)),
{
    assert(x.remove_keys(a).remove(k) =~= x.remove_keys(a.insert(k)));
}

/// Removing keys none of which are present changes nothing.
proof fn lemma_remove_keys_noop<K, V>(x: Map<K, V>, a: Set<K>)
    requires
        forall|k: K| #[trigger] x.dom().contains(k) ==> !a.contains(k),
    ensures
        x.remove_keys(a) == x,
{
    assert(x.remove_keys(a) =~= x);
}

/// The subtrees of the first `j` children of `id`, joined.
pub open spec fn children_union(id: MortonOctantId, j: nat) -> Set<MortonOctantId>
    decreases j,
{
    if j == 0 {
        Set::empty()
    } else {
        children_union(id, (j - 1) as nat).union(subtree_of(child_of(id, (j - 1) as nat)))
    }
}

/// Membership in a prefix union of child subtrees.
pub proof fn lemma_children_union_members(id: MortonOctantId, j: nat)
    ensures
        forall|x: MortonOctantId| #[trigger]
            children_union(id, j).contains(x) <==> exists|i: nat|
                i < j && #[trigger] subtree_of(child_of(id, i)).contains(x),
    decreases j,
{
    if j != 0 {
        lemma_children_union_members(id, (j - 1) as nat);
        assert forall|x: MortonOctantId| #[trigger]
            children_union(id, j).contains(x) implies exists|i: nat|
            i < j && #[trigger] subtree_of(child_of(id, i)).contains(x) by {
            if children_union(id, (j - 1) as nat).contains(x) {
                let i = choose|i: nat|
                    i < j - 1 && #[trigger] subtree_of(child_of(id, i)).contains(x);
                assert(i < j && subtree_of(child_of(id, i)).contains(x));
            } else {
                assert(subtree_of(child_of(id, (j - 1) as nat)).contains(x));
            }
        }
        assert forall|x: MortonOctantId|
            exists|i: nat|
                i < j && #[trigger] subtree_of(child_of(id, i)).contains(
                    x,
                ) implies #[trigger] children_union(id, j).contains(x) by {
            let i = choose|i: nat| i < j && #[trigger] subtree_of(child_of(id, i)).contains(x);
            if i < j - 1 {
                assert(children_union(id, (j - 1) as nat).contains(x));
            }
        }
    }
}

/// A well-formed code's subtree is itself plus its children's subtrees.
pub proof fn lemma_subtree_decomposition(id: MortonOctantId)
    requires
        code_well_formed(id.as_nat()),
    ensures
        subtree_of(id) == children_union(id, 8).insert(id),
{
    lemma_wf_child_space(id.as_nat());
    lemma_children_union_members(id, 8);
    assert forall|x: MortonOctantId| #[trigger]
        subtree_of(id).contains(x) implies children_union(id, 8).insert(id).contains(x) by {
        if x != id {
            lemma_descends_through_child(x.as_nat(), id.as_nat());
            let jj = choose|jj: nat|
                jj < 8 && code_descends_from(x.as_nat(), child_code(id.as_nat(), jj));
            assert(child_of(id, jj).as_nat() == child_code(id.as_nat(), jj));
            assert(subtree_of(child_of(id, jj)).contains(x));
        }
    }
    assert forall|x: MortonOctantId| #[trigger]
        children_union(id, 8).insert(id).contains(x) implies subtree_of(id).contains(x) by {
        if x != id {
            let i = choose|i: nat| i < 8 && #[trigger] subtree_of(child_of(id, i)).contains(x);
            assert(child_of(id, i).as_nat() == child_code(id.as_nat(), i));
            lemma_descends_from_child(x.as_nat(), id.as_nat(), i);
        }
    }
    assert(subtree_of(id) =~= children_union(id, 8).insert(id));
}

/// A well-formed code leaves room for a child's three more bits.
pub proof fn lemma_wf_child_space(m: nat)
    requires
        code_well_formed(m),
    ensures
        8 * m + 7 < pow2(52),
        8 * m + 7 < 0x10000000000000,
        m >= 1,
{
    lemma2_to64_rest();
    lemma_bit_len_brackets(m);
    let b = crate::morton_based_storage::morton_octant_id::bit_len(m);
    assert(b <= 49);
    assert(m < pow2(49)) by {
        if b < 49 {
            lemma_pow2_strictly_increases(b, 49);
        }
    }
}

impl<Data> ModifiableOctantStorage for HashedOctantStorage<Data> {
    fn new_with_root(root_custom_data: Data) -> (r: Self) {
        let mut octants: HashMap<u64, Data> = HashMap::new();
        octants.insert(1, root_custom_data);
        proof {
            lemma_root_well_formed();
            lemma_contents_insert(Map::<u64, Data>::empty(), 1, root_custom_data);
            lemma_contents_empty::<Data>();
        }
        HashedOctantStorage { octants }
    }

    fn insert_root(&mut self, custom_data: Data) -> (r: Option<Data>) {
        let ghost m0 = self.octants@;
        let r = self.octants.insert(1, custom_data);
        proof {
            lemma_root_well_formed();
            lemma_contents_insert(m0, 1, custom_data);
        }
        r
    }

    fn insert_octant(
        &mut self,
        parent_id: &MortonOctantId,
        child_octant_placement: OctantPlacement,
        custom_data: Data,
    ) -> (r: StorageResult<(MortonOctantId, Option<Data>)>) {
        let depth = parent_id.compute_depth();
        if depth >= 16 {
            return Err(StorageError::OverMaxDepth(16));
        }
        if !self.octants.contains_key(&parent_id.0) {
            return Err(StorageError::InvalidOctantId);
        }
        proof {
            lemma_shallow_code_fits(parent_id.0 as nat);
            lemma_child_well_formed(parent_id.0 as nat, child_octant_placement.index_spec());
            lemma_well_formed_not_root_ge8_or_root(parent_id.0 as nat);
        }
        let child = parent_id.0 * 8 + child_octant_placement.index() as u64;
        let ghost m0 = self.octants@;
        let old_data = self.octants.insert(child, custom_data);
        proof {
            lemma_contents_insert(m0, child, custom_data);
            assert(child / 8 == parent_id.0 && child % 8 == child_octant_placement.index_spec())
                by (nonlinear_arith)
                requires
                    child == 8 * parent_id.0 + child_octant_placement.index_spec(),
                    child_octant_placement.index_spec() < 8,
            ;
            assert(child != 1) by {
                assert(child as nat == child_code(
                    parent_id.as_nat(),
                    child_octant_placement.index_spec(),
                ));
                lemma_well_formed_not_root_ge8(child as nat);
            }
            assert(code_map_inv(self.octants@)) by {
                assert forall|k: u64| #[trigger] self.octants@.contains_key(k) implies
                    code_well_formed(k as nat) && (k != 1 ==> self.octants@.contains_key(
                    k / 8,
                )) by {
                    if k != child {
                        assert(m0.contains_key(k));
                    }
                }
            }
        }
        Ok((MortonOctantId(child), old_data))
    }

    fn get_octant_mut<'a>(&'a mut self, octant_id: &MortonOctantId) -> (r: Option<&'a mut Data>) {
        if !self.octants.contains_key(&octant_id.0) {
            return None;
        }
        let ghost m0 = self.octants@;
        proof {
            assert forall|w: Data| #![trigger m0.insert(octant_id.0, w)]
                to_contents(m0.insert(octant_id.0, w)) == to_contents(m0).insert(*octant_id, w)
                    && code_map_inv(m0.insert(octant_id.0, w)) by {
                lemma_contents_insert(m0, octant_id.0, w);
                assert(MortonOctantId(octant_id.0) == *octant_id);
                assert forall|k: u64| #[trigger] m0.insert(octant_id.0, w).contains_key(k) implies
                    code_well_formed(k as nat) && (k != 1 ==> m0.insert(
                    octant_id.0,
                    w,
                ).contains_key(k / 8)) by {
                    assert(m0.contains_key(k));
                }
            }
        }
        map_get_mut(&mut self.octants, octant_id.0)
    }

    fn remove_octant(&mut self, octant_id: &MortonOctantId) -> (r: Option<()>) {
        let r = self.remove_octant_rec(octant_id);
        proof {
            if old(self).octants@.contains_key(octant_id.0) && octant_id.0 == 1 {
                lemma_root_subtree_clears(old(self).octants@);
            }
        }
        r
    }

    fn remove_octant_and_fill(
        &mut self,
        octant_id: &MortonOctantId,
        collected_octant_data: &mut Vec<(MortonOctantId, Data)>,
    ) -> (r: Option<()>) {
        self.remove_octant_and_fill_rec(octant_id, collected_octant_data)
    }

    fn subdivide(&mut self, parent_id: &MortonOctantId, children_data: Vec<Data>) -> (r:
        StorageResult<[MortonOctantId; 8]>) {
        let depth = parent_id.compute_depth();
        if depth >= 16 {
            return Err(StorageError::OverMaxDepth(16));
        }
        if !self.octants.contains_key(&parent_id.0) {
            return Err(StorageError::InvalidOctantId);
        }
        let ghost data0 = children_data@;
        let mut rest = children_data;
        let d7 = rest.pop().unwrap();
        let d6 = rest.pop().unwrap();
        let d5 = rest.pop().unwrap();
        let d4 = rest.pop().unwrap();
        let d3 = rest.pop().unwrap();
        let d2 = rest.pop().unwrap();
        let d1 = rest.pop().unwrap();
        let d0 = rest.pop().unwrap();
        let ghost c0 = self.contents();
        let r0 = self.insert_one(parent_id, 0, d0);
        let r1 = self.insert_one(parent_id, 1, d1);
        let r2 = self.insert_one(parent_id, 2, d2);
        let r3 = self.insert_one(parent_id, 3, d3);
        let r4 = self.insert_one(parent_id, 4, d4);
        let r5 = self.insert_one(parent_id, 5, d5);
        let r6 = self.insert_one(parent_id, 6, d6);
        let r7 = self.insert_one(parent_id, 7, d7);
        proof {
            assert(final(self).contents() == subdivided_contents(c0, *parent_id, data0));
        }
        Ok([r0, r1, r2, r3, r4, r5, r6, r7])
    }

    fn subdivide_with_default(&mut self, parent_id: &MortonOctantId) -> (r: StorageResult<
        [MortonOctantId; 8],
    >) where Data: Default {
        let depth = parent_id.compute_depth();
        if depth >= 16 {
            return Err(StorageError::OverMaxDepth(16));
        }
        if !self.octants.contains_key(&parent_id.0) {
            return Err(StorageError::InvalidOctantId);
        }
        let ghost c0 = self.contents();
        let r0 = self.insert_one(parent_id, 0, Data::default());
        let r1 = self.insert_one(parent_id, 1, Data::default());
        let r2 = self.insert_one(parent_id, 2, Data::default());
        let r3 = self.insert_one(parent_id, 3, Data::default());
        let r4 = self.insert_one(parent_id, 4, Data::default());
        let r5 = self.insert_one(parent_id, 5, Data::default());
        let r6 = self.insert_one(parent_id, 6, Data::default());
        let r7 = self.insert_one(parent_id, 7, Data::default());
        proof {
            assert forall|id: MortonOctantId| #[trigger]
                final(self).contents().dom().contains(id) <==> (c0.dom().contains(id) || exists|
                j: nat,
            |
                j < 8 && id == child_of(*parent_id, j)) by {
                if final(self).contents().dom().contains(id) && !c0.dom().contains(id) {
                    assert(exists|j: nat| j < 8 && id == child_of(*parent_id, j));
                }
                if c0.dom().contains(id) {
                    assert(final(self).contents().dom().contains(id));
                }
                if exists|j: nat| j < 8 && id == child_of(*parent_id, j) {
                    let j = choose|j: nat| j < 8 && id == child_of(*parent_id, j);
                    assert(final(self).contents().dom().contains(child_of(*parent_id, j)));
                }
            }
        }
        Ok([r0, r1, r2, r3, r4, r5, r6, r7])
    }

    fn remove_octant_and_collect(&mut self, octant_id: &MortonOctantId) -> (r: Option<
        Vec<(MortonOctantId, Data)>,
    >) {
        let mut collected: Vec<(MortonOctantId, Data)> = Vec::new();
        match self.remove_octant_and_fill(octant_id, &mut collected) {
            Some(()) => Some(collected),
            None => None,
        }
    }
}


impl<Data: Default> Default for HashedOctantStorage<Data> {
    /// A backend holding exactly a root octant with the payload's
    /// default value.
    fn default() -> (r: Self)
        ensures
            r.inv(),
            r.contents().dom() == Set::<MortonOctantId>::empty().insert(MortonOctantId(1u64)),
    {
        let r = Self::new_with_root(Data::default());
        proof {
            assert(r.contents().dom() =~= Set::<MortonOctantId>::empty().insert(
                MortonOctantId(1u64),
            ));
        }
        r
    }
}

/// The root code is well-formed at depth zero.
pub proof fn lemma_root_well_formed()
    ensures
        code_well_formed(1),
        code_depth(1) == 0,
{
    assert(crate::morton_based_storage::morton_octant_id::bit_len(0nat) == 0);
    assert(crate::morton_based_storage::morton_octant_id::bit_len(1nat) == 1);
}

/// A well-formed code is the root or at least eight.
proof fn lemma_well_formed_not_root_ge8_or_root(k: nat)
    requires
        code_well_formed(k),
    ensures
        k == 1 || k >= 8,
        k >= 1,
{
    if k != 1 {
        lemma_well_formed_not_root_ge8(k);
    }
}

/// Removing the root's subtree from an invariant-respecting map clears it.
proof fn lemma_root_subtree_clears<Data>(m: Map<u64, Data>)
    requires
        code_map_inv(m),
    ensures
        to_contents(m).remove_keys(subtree_of(MortonOctantId(1))) == Map::<
            MortonOctantId,
            Data,
        >::empty(),
{
    assert forall|id: MortonOctantId| #[trigger]
        to_contents(m).dom().contains(id) implies subtree_of(MortonOctantId(1)).contains(id) by {
        lemma_all_descend_root(m, id.0);
    }
    assert(to_contents(m).remove_keys(subtree_of(MortonOctantId(1))) =~= Map::<
        MortonOctantId,
        Data,
    >::empty());
}

/// Relies on `HashMap::entry` / `OccupiedEntry::into_mut`: a live borrow
/// of the value stored under a key.
fn map_get_mut<'a, Data>(m: &'a mut HashMap<u64, Data>, k: u64) -> (r: Option<&'a mut Data>)
    requires
        old(m)@.contains_key(k),
    ensures
        match r {
            Some(v) => *v == old(m)@[k] && final(m)@ == old(m)@.insert(k, *final(v)),
            None => false,
        },
{
    match m.entry(k) {
        std::collections::hash_map::Entry::Occupied(occ) => Some(occ.into_mut()),
        std::collections::hash_map::Entry::Vacant(_) => {
            proof {
                assert(false);
            }
            None
        },
    }
}

impl<Data> HashedOctantStorage<Data> {
    /// Insert the child of `parent_id` at Morton digit `digit`, knowing
    /// the parent exists below the depth limit.
    fn insert_one(&mut self, parent_id: &MortonOctantId, digit: u8, data: Data) -> (r:
        MortonOctantId)
        requires
            old(self).inv(),
            digit < 8,
            old(self).contents().dom().contains(*parent_id),
            parent_id.depth_spec() < 16,
        ensures
            final(self).inv(),
            r == child_of(*parent_id, digit as nat),
            final(self).contents() == old(self).contents().insert(
                child_of(*parent_id, digit as nat),
                data,
            ),
            final(self).contents().dom().contains(*parent_id),
    {
        proof {
            lemma_shallow_code_fits(parent_id.0 as nat);
            lemma_child_well_formed(parent_id.0 as nat, digit as nat);
            lemma_well_formed_not_root_ge8_or_root(parent_id.0 as nat);
        }
        let child = parent_id.0 * 8 + digit as u64;
        let ghost m0 = self.octants@;
        self.octants.insert(child, data);
        proof {
            lemma_contents_insert(m0, child, data);
            assert(child / 8 == parent_id.0 && child % 8 == digit) by (nonlinear_arith)
                requires
                    child == 8 * parent_id.0 + digit,
                    digit < 8,
            ;
            assert(child != 1) by {
                assert(child as nat == child_code(parent_id.as_nat(), digit as nat));
                lemma_well_formed_not_root_ge8(child as nat);
            }
            assert(code_map_inv(self.octants@)) by {
                assert forall|k: u64| #[trigger] self.octants@.contains_key(k) implies
                    code_well_formed(k as nat) && (k != 1 ==> self.octants@.contains_key(
                    k / 8,
                )) by {
                    if k != child {
                        assert(m0.contains_key(k));
                    }
                }
            }
        }
        MortonOctantId(child)
    }
}


/// Relies on `HashMap::keys`: yields every stored key once, in the map's
/// own order.
#[verifier::external_body]
fn key_codes<Data>(m: &HashMap<u64, Data>) -> (r: Vec<u64>)
    ensures
        forall|i: int, j: int| 0 <= i < j < r@.len() ==> r@[i] != r@[j],
        forall|i: int| 0 <= i < r@.len() ==> m@.contains_key(#[trigger] r@[i]),
        forall|k: u64| #[trigger] m@.contains_key(k) ==> exists|i: int| 0 <= i < r@.len() && r@[i] == k,
{
    m.keys().copied().collect()
}

/// Relies on `HashMap::drain`: yields every stored pair, each key once,
/// and leaves the map empty; the order is the map's own.
#[verifier::external_body]
fn drain_pairs<Data>(m: &mut HashMap<u64, Data>) -> (pairs: Vec<(u64, Data)>)
    ensures
        ({
            &&& final(m)@ == Map::<u64, Data>::empty()
            &&& forall|i: int| #![auto] 0 <= i < pairs@.len() ==> old(m)@.contains_key(pairs@[i].0)
            &&& forall|i: int| #![auto] 0 <= i < pairs@.len() ==> old(m)@[pairs@[i].0] == pairs@[i].1
            &&& forall|i: int, j: int| #![auto] 0 <= i < j < pairs@.len() ==> pairs@[i].0 != pairs@[j].0
            &&& forall|k: u64| #![auto]
                old(m)@.contains_key(k) ==> exists|i: int| 0 <= i < pairs@.len() && pairs@[i].0 == k
        }),
{
    m.drain().collect()
}

impl<Data> HashedOctantStorage<Data> {
    /// Cascading removal, children's subtrees first, absence cutting each
    /// branch short.
    fn remove_octant_rec(&mut self, octant_id: &MortonOctantId) -> (r: Option<()>)
        requires
            old(self).inv(),
        ensures
            final(self).inv(),
            !old(self).contents().dom().contains(*octant_id) ==> r is None && final(self).contents() == old(self).contents(),
            old(self).contents().dom().contains(*octant_id) ==> r == Some(()) && final(self).contents() == old(self).contents().remove_keys(subtree_of(*octant_id)),
        decreases 17int - octant_id.depth_spec(),
    {
        if !self.octants.contains_key(&octant_id.0) {
            return None;
        }
        if octant_id.0 == 1 {
            let ghost m0 = self.octants@;
            self.octants.clear();
            proof {
                lemma_contents_empty::<Data>();
                lemma_root_subtree_clears(m0);
            }
            return Some(());
        }
        proof {
            lemma_wf_child_space(octant_id.0 as nat);
            lemma_well_formed_not_root_ge8(octant_id.0 as nat);
        }
        let ghost c0 = self.contents();
        let base = octant_id.0 * 8;
        let mut j: u8 = 0;
        while j < 8
            invariant
                self.inv(),
                j <= 8,
                base == octant_id.0 * 8,
                code_well_formed(octant_id.0 as nat),
                octant_id.0 >= 8,
                base + 7 < 0x10000000000000,
                self.contents() == c0.remove_keys(children_union(*octant_id, j as nat)),
                self.octants@.contains_key(octant_id.0),
            decreases 8 - j,
        {
            let child = MortonOctantId(base + j as u64);
            proof {
                assert(child.as_nat() == child_code(octant_id.as_nat(), j as nat));
                lemma_child_code(octant_id.0 as nat, j as nat);
            }
            let ghost c_before = self.contents();
            let ghost m_before = self.octants@;
            let _ = self.remove_octant_rec(&child);
            proof {
                if !c_before.dom().contains(child) {
                    assert forall|x: MortonOctantId| #[trigger]
                        c_before.dom().contains(x) implies !subtree_of(child).contains(x) by {
                        lemma_absent_subtree_empty(m_before, child.0, x.0);
                    }
                    lemma_remove_keys_noop(c_before, subtree_of(child));
                }
                assert(self.contents() == c_before.remove_keys(subtree_of(child)));
                lemma_remove_keys_union(
                    c0,
                    children_union(*octant_id, j as nat),
                    subtree_of(child),
                );
                assert(child_of(*octant_id, j as nat) == child);
                assert(children_union(*octant_id, (j + 1) as nat) == children_union(
                    *octant_id,
                    j as nat,
                ).union(subtree_of(child)));
                if subtree_of(child).contains(*octant_id) {
                    lemma_descends_ge(octant_id.as_nat(), child.as_nat());
                    assert(false);
                }
                assert(c_before.dom().contains(*octant_id));
                assert(self.contents().dom().contains(*octant_id));
                assert(self.octants@.contains_key(octant_id.0));
            }
            j = j + 1;
        }
        let ghost m_pre = self.octants@;
        let _ = self.octants.remove(&octant_id.0);
        proof {
            lemma_contents_remove(m_pre, octant_id.0);
            assert(MortonOctantId(octant_id.0) == *octant_id);
            lemma_remove_keys_insert(c0, children_union(*octant_id, 8), *octant_id);
            lemma_subtree_decomposition(*octant_id);
            lemma_removed_closure(m_pre, self.octants@, c0, *octant_id);
        }
        Some(())
    }

    /// Cascading removal that also appends every removed pair.
    fn remove_octant_and_fill_rec(
        &mut self,
        octant_id: &MortonOctantId,
        collected: &mut Vec<(MortonOctantId, Data)>,
    ) -> (r: Option<()>)
        requires
            old(self).inv(),
        ensures
            final(self).inv(),
            !old(self).contents().dom().contains(*octant_id) ==> r is None && final(self).contents() == old(self).contents() && final(collected)@ == old(collected)@,
            old(self).contents().dom().contains(*octant_id) ==> ({
                let before = old(collected)@;
                let after = final(collected)@;
                let removed = old(self).contents().dom().intersect(subtree_of(*octant_id));
                &&& r == Some(())
                &&& final(self).contents() == old(self).contents().remove_keys(
                    subtree_of(*octant_id),
                )
                &&& after.len() >= before.len()
                &&& after.take(before.len() as int) == before
                &&& forall|i: int|
                    before.len() <= i < after.len() ==> removed.contains((#[trigger] after[i]).0)
                        && old(self).contents()[after[i].0] == after[i].1
                &&& forall|i: int, i2: int|
                    before.len() <= i < i2 < after.len() ==> (#[trigger] after[i]).0 != (
                    #[trigger] after[i2]).0
                &&& forall|id: MortonOctantId| #[trigger]
                    removed.contains(id) ==> exists|i: int|
                        before.len() <= i < after.len() && (#[trigger] after[i]).0 == id
            }),
        decreases 17int - octant_id.depth_spec(),
    {
        if !self.octants.contains_key(&octant_id.0) {
            return None;
        }
        let ghost c0 = self.contents();
        let ghost len0 = collected@.len() as int;
        let ghost before = collected@;
        if octant_id.0 == 1 {
            let ghost m0 = self.octants@;
            let pairs = drain_pairs(&mut self.octants);
            collected.reserve(pairs.len());
            let ghost all = pairs@;
            let mut rest = pairs;
            while rest.len() > 0
                invariant
                    collected@.len() == before.len() + all.len() - rest@.len(),
                    rest@.len() <= all.len(),
                    rest@ == all.take(rest@.len() as int),
                    collected@.take(len0) == before,
                    len0 == before.len(),
                    forall|q: int|
                        0 <= q < all.len() - rest@.len() ==> #[trigger] collected@[len0 + q] == (
                            MortonOctantId(all[all.len() - 1 - q].0),
                            all[all.len() - 1 - q].1,
                        ),
                decreases rest.len(),
            {
                let p = match rest.pop() {
                    Some(p) => p,
                    None => {
                        proof {
                            assert(false);
                        }
                        return None;
                    },
                };
                proof {
                    assert(all.take(rest@.len() as int + 1).last() == all[rest@.len() as int]);
                    assert(rest@ =~= all.take(rest@.len() as int));
                }
                collected.push((MortonOctantId(p.0), p.1));
                proof {
                    assert(collected@.take(len0) =~= before);
                }
            }
            proof {
                lemma_contents_empty::<Data>();
                lemma_root_subtree_clears(m0);
                let after = collected@;
                let removed = c0.dom().intersect(subtree_of(*octant_id));
                assert forall|i: int|
                    len0 <= i < after.len() implies removed.contains((#[trigger] after[i]).0)
                        && c0[after[i].0] == after[i].1 by {
                    let q = i - len0;
                    let t = all.len() - 1 - q;
                    assert(collected@[len0 + q] == (MortonOctantId(all[t].0), all[t].1));
                    assert(after[i] == (MortonOctantId(all[t].0), all[t].1));
                    assert(m0.contains_key(all[t].0) && m0[all[t].0] == all[t].1);
                    lemma_all_descend_root(m0, all[t].0);
                }
                assert forall|i: int, i2: int|
                    len0 <= i < i2 < after.len() implies (#[trigger] after[i]).0 != (
                #[trigger] after[i2]).0 by {
                    let q1 = i - len0;
                    let q2 = i2 - len0;
                    let t1 = all.len() - 1 - q1;
                    let t2 = all.len() - 1 - q2;
                    assert(collected@[len0 + q1] == (MortonOctantId(all[t1].0), all[t1].1));
                    assert(collected@[len0 + q2] == (MortonOctantId(all[t2].0), all[t2].1));
                    assert(after[i] == (MortonOctantId(all[t1].0), all[t1].1));
                    assert(after[i2] == (MortonOctantId(all[t2].0), all[t2].1));
                    assert(all[t2].0 != all[t1].0);
                }
                assert forall|id: MortonOctantId| #[trigger]
                    removed.contains(id) implies exists|i: int|
                    len0 <= i < after.len() && (#[trigger] after[i]).0 == id by {
                    assert(m0.contains_key(id.0));
                    let t = choose|t: int| 0 <= t < all.len() && (#[trigger] all[t]).0 == id.0;
                    let q = all.len() - 1 - t;
                    assert(collected@[len0 + q] == (MortonOctantId(all[t].0), all[t].1));
                    assert(after[len0 + q].0 == id);
                }
            }
            return Some(());
        }
        proof {
            lemma_wf_child_space(octant_id.0 as nat);
            lemma_well_formed_not_root_ge8(octant_id.0 as nat);
            lemma_children_union_members(*octant_id, 8);
        }
        let base = octant_id.0 * 8;
        let mut j: u8 = 0;
        while j < 8
            invariant
                self.inv(),
                j <= 8,
                base == octant_id.0 * 8,
                code_well_formed(octant_id.0 as nat),
                octant_id.0 >= 8,
                base + 7 < 0x10000000000000,
                self.contents() == c0.remove_keys(children_union(*octant_id, j as nat)),
                self.octants@.contains_key(octant_id.0),
                collected@.len() >= len0,
                len0 == before.len(),
                collected@.take(len0) == before,
                forall|i: int|
                    len0 <= i < collected@.len() ==> children_union(*octant_id, j as nat).contains(
                        (#[trigger] collected@[i]).0,
                    ) && c0.dom().contains(collected@[i].0) && c0[collected@[i].0]
                        == collected@[i].1,
                forall|i: int, i2: int|
                    len0 <= i < i2 < collected@.len() ==> (#[trigger] collected@[i]).0 != (
                    #[trigger] collected@[i2]).0,
                forall|id: MortonOctantId|
                    c0.dom().contains(id) && children_union(*octant_id, j as nat).contains(id)
                        ==> exists|i: int|
                        len0 <= i < collected@.len() && (#[trigger] collected@[i]).0 == id,
            decreases 8 - j,
        {
            let child = MortonOctantId(base + j as u64);
            proof {
                assert(child.as_nat() == child_code(octant_id.as_nat(), j as nat));
                lemma_child_code(octant_id.0 as nat, j as nat);
            }
            let ghost c_before = self.contents();
            let ghost m_before = self.octants@;
            let ghost col_before = collected@;
            let _ = self.remove_octant_and_fill_rec(&child, collected);
            proof {
                if !c_before.dom().contains(child) {
                    assert forall|x: MortonOctantId| #[trigger]
                        c_before.dom().contains(x) implies !subtree_of(child).contains(x) by {
                        lemma_absent_subtree_empty(m_before, child.0, x.0);
                    }
                    lemma_remove_keys_noop(c_before, subtree_of(child));
                }
                assert(self.contents() == c_before.remove_keys(subtree_of(child)));
                lemma_remove_keys_union(
                    c0,
                    children_union(*octant_id, j as nat),
                    subtree_of(child),
                );
                assert(child_of(*octant_id, j as nat) == child);
                assert(children_union(*octant_id, (j + 1) as nat) == children_union(
                    *octant_id,
                    j as nat,
                ).union(subtree_of(child)));
                if subtree_of(child).contains(*octant_id) {
                    lemma_descends_ge(octant_id.as_nat(), child.as_nat());
                    assert(false);
                }
                assert(c_before.dom().contains(*octant_id));
                assert(self.contents().dom().contains(*octant_id));
                assert(self.octants@.contains_key(octant_id.0));
                // the collected prefix survives and the invariants advance
                assert(collected@.len() >= col_before.len());
                assert(collected@.take(col_before.len() as int) == col_before);
                assert forall|i3: int|
                    0 <= i3 < col_before.len() implies #[trigger] collected@[i3] == col_before[i3] by {
                    assert(collected@.take(col_before.len() as int)[i3] == collected@[i3]);
                }
                assert(collected@.take(len0) =~= before) by {
                    assert(forall|i: int|
                        0 <= i < len0 ==> collected@[i] == #[trigger] col_before[i]);
                }
                assert forall|i: int|
                    len0 <= i < collected@.len() implies children_union(
                    *octant_id,
                    (j + 1) as nat,
                ).contains((#[trigger] collected@[i]).0) && c0.dom().contains(collected@[i].0)
                    && c0[collected@[i].0] == collected@[i].1 by {
                    if i < col_before.len() {
                        assert(collected@[i] == col_before[i]);
                    } else {
                        let removed_c = c_before.dom().intersect(subtree_of(child));
                        assert(removed_c.contains(collected@[i].0));
                        assert(c_before[collected@[i].0] == collected@[i].1);
                    }
                }
                assert forall|i: int, i2: int|
                    len0 <= i < i2 < collected@.len() implies (#[trigger] collected@[i]).0 != (
                #[trigger] collected@[i2]).0 by {
                    if i2 >= col_before.len() && i < col_before.len() {
                        assert(collected@[i] == col_before[i]);
                        assert(children_union(*octant_id, j as nat).contains(collected@[i].0));
                        let removed_c = c_before.dom().intersect(subtree_of(child));
                        assert(removed_c.contains(collected@[i2].0));
                        assert(c_before.dom().contains(collected@[i2].0));
                        assert(!children_union(*octant_id, j as nat).contains(collected@[i2].0));
                    }
                }
                assert forall|id: MortonOctantId|
                    c0.dom().contains(id) && children_union(*octant_id, (j + 1) as nat).contains(
                        id,
                    ) implies exists|i: int|
                    len0 <= i < collected@.len() && (#[trigger] collected@[i]).0 == id by {
                    if children_union(*octant_id, j as nat).contains(id) {
                        let i = choose|i: int|
                            len0 <= i < col_before.len() && (#[trigger] col_before[i]).0 == id;
                        assert(collected@[i] == col_before[i]);
                    } else {
                        assert(subtree_of(child).contains(id));
                        assert(c_before.dom().contains(id));
                        let removed_c = c_before.dom().intersect(subtree_of(child));
                        assert(removed_c.contains(id));
                        let i = choose|i: int|
                            col_before.len() <= i < collected@.len() && (
                            #[trigger] collected@[i]).0 == id;
                        assert(len0 <= i);
                    }
                }
            }
            j = j + 1;
        }
        let ghost m_pre = self.octants@;
        let ghost col_pre = collected@;
        let data = match self.octants.remove(&octant_id.0) {
            Some(d) => d,
            None => {
                proof {
                    assert(false);
                }
                return None;
            },
        };
        collected.push((*octant_id, data));
        proof {
            lemma_contents_remove(m_pre, octant_id.0);
            assert(MortonOctantId(octant_id.0) == *octant_id);
            lemma_remove_keys_insert(c0, children_union(*octant_id, 8), *octant_id);
            lemma_subtree_decomposition(*octant_id);
            lemma_removed_closure(m_pre, self.octants@, c0, *octant_id);
            let after = collected@;
            let removed = c0.dom().intersect(subtree_of(*octant_id));
            assert forall|i3: int|
                0 <= i3 < col_pre.len() implies #[trigger] after[i3] == col_pre[i3] by {}
            assert(after.take(len0) =~= before) by {
                assert(forall|i: int| 0 <= i < len0 ==> after[i] == #[trigger] col_pre[i]);
            }
            assert(!children_union(*octant_id, 8).contains(*octant_id)) by {
                if children_union(*octant_id, 8).contains(*octant_id) {
                    let i = choose|i: nat|
                        i < 8 && #[trigger] subtree_of(child_of(*octant_id, i)).contains(
                            *octant_id,
                        );
                    assert(child_of(*octant_id, i).as_nat() == child_code(
                        octant_id.as_nat(),
                        i,
                    ));
                    lemma_descends_ge(octant_id.as_nat(), child_of(*octant_id, i).as_nat());
                    assert(false);
                }
            }
            assert(data == c0[*octant_id]) by {
                assert(to_contents(m_pre)[*octant_id] == c0[*octant_id]);
            }
            assert forall|i: int|
                len0 <= i < after.len() implies removed.contains((#[trigger] after[i]).0)
                    && c0[after[i].0] == after[i].1 by {
                if i < col_pre.len() {
                    assert(after[i] == col_pre[i]);
                    assert(children_union(*octant_id, 8).contains(after[i].0));
                } else {
                    assert(after[i] == (*octant_id, data));
                }
            }
            assert forall|i: int, i2: int|
                len0 <= i < i2 < after.len() implies (#[trigger] after[i]).0 != (
            #[trigger] after[i2]).0 by {
                if i2 == col_pre.len() as int {
                    assert(after[i] == col_pre[i]);
                    assert(children_union(*octant_id, 8).contains(after[i].0));
                    assert(after[i2].0 == *octant_id);
                }
            }
            assert forall|id: MortonOctantId| #[trigger]
                removed.contains(id) implies exists|i: int|
                len0 <= i < after.len() && (#[trigger] after[i]).0 == id by {
                if id == *octant_id {
                    assert(after[col_pre.len() as int].0 == id);
                } else {
                    assert(subtree_of(*octant_id).contains(id));
                    assert(children_union(*octant_id, 8).contains(id));
                    let i = choose|i: int|
                        len0 <= i < col_pre.len() && (#[trigger] col_pre[i]).0 == id;
                    assert(after[i] == col_pre[i]);
                }
            }
        }
        Some(())
    }
}

/// After a cascading removal, every surviving non-root key still has its
/// parent.
proof fn lemma_removed_closure<Data>(
    m_pre: Map<u64, Data>,
    m_post: Map<u64, Data>,
    c0: Map<MortonOctantId, Data>,
    octant_id: MortonOctantId,
)
    requires
        code_map_inv(m_pre),
        code_well_formed(octant_id.as_nat()),
        octant_id.0 >= 8,
        m_post == m_pre.remove(octant_id.0),
        to_contents(m_pre) == c0.remove_keys(children_union(octant_id, 8)),
    ensures
        code_map_inv(m_post),
{
    lemma_children_union_members(octant_id, 8);
    lemma_wf_child_space(octant_id.as_nat());
    assert forall|k: u64| #[trigger]
        m_post.contains_key(k) implies code_well_formed(k as nat) && (k != 1
        ==> m_post.contains_key(k / 8)) by {
        assert(m_pre.contains_key(k));
        if k != 1 {
            assert(m_pre.contains_key(k / 8));
            if k / 8 == octant_id.0 {
                let digit = (k % 8) as nat;
                assert(k as nat == child_code(octant_id.as_nat(), digit) && digit < 8)
                    by (nonlinear_arith)
                    requires
                        k / 8 == octant_id.0,
                        digit == (k % 8) as nat,
                ;
                assert(subtree_of(child_of(octant_id, digit)).contains(MortonOctantId(k))) by {
                    assert(child_of(octant_id, digit).as_nat() == child_code(
                        octant_id.as_nat(),
                        digit,
                    ));
                }
                assert(children_union(octant_id, 8).contains(MortonOctantId(k)));
                assert(to_contents(m_pre).dom().contains(MortonOctantId(k)));
                assert(false);
            }
        }
    }
}

/// A code above the depth limit leaves room for a child's three more bits.
pub proof fn lemma_shallow_code_fits(m: nat)
    requires
        code_depth(m) < 16,
    ensures
        8 * m + 7 < pow2(50),
        8 * m + 7 < 0x4000000000000,
{
    lemma2_to64_rest();
    if m >= 1 {
        lemma_bit_len_brackets(m);
        let b = crate::morton_based_storage::morton_octant_id::bit_len(m);
        assert(b <= 47);
        assert(m < pow2(47)) by {
            if b < 47 {
                lemma_pow2_strictly_increases(b, 47);
            }
        }
    }
}

} // verus!
