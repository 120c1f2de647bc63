//! Morton-coded octant identifiers.
//!
//! An identifier is a single `u64`: the highest set bit is a marker whose
//! position, divided by three, gives the octant's depth; below it every
//! three-bit group is the Morton digit of one level of the path from the
//! root.  The root is `1`, `0` is the reserved invalid sentinel, and all of
//! the parent/child/coordinate algebra is arithmetic on the code alone.

use vstd::arithmetic::power2::{
    lemma2_to64, lemma2_to64_rest, lemma_pow2_adds, lemma_pow2_pos, lemma_pow2_strictly_increases,
    lemma_pow2_unfold, pow2,
};
use vstd::prelude::*;

use crate::octant_meta::{OctantNeighborDirection, OctantPlacement};
use crate::Depth;

verus! {

/// The bits of `x`, `y` and `z` interleaved into one number: bit `k` of `x`
/// lands on bit `3k + 2`, bit `k` of `y` on `3k + 1`, bit `k` of `z` on `3k`.
pub open spec fn interleave3(x: nat, y: nat, z: nat) -> nat
    decreases x + y + z,
{
    if x == 0 && y == 0 && z == 0 {
        0
    } else {
        8 * interleave3(x / 2, y / 2, z / 2) + 4 * (x % 2) + 2 * (y % 2) + z % 2
    }
}

/// The x coordinate read back out of an interleaved code: every bit `3k + 2`.
pub open spec fn deinterleave_x(m: nat) -> nat
    decreases m,
{
    if m == 0 {
        0
    } else {
        2 * deinterleave_x(m / 8) + (m / 4) % 2
    }
}

/// The y coordinate read back out of an interleaved code: every bit `3k + 1`.
pub open spec fn deinterleave_y(m: nat) -> nat
    decreases m,
{
    if m == 0 {
        0
    } else {
        2 * deinterleave_y(m / 8) + (m / 2) % 2
    }
}

/// The z coordinate read back out of an interleaved code: every bit `3k`.
pub open spec fn deinterleave_z(m: nat) -> nat
    decreases m,
{
    if m == 0 {
        0
    } else {
        2 * deinterleave_z(m / 8) + m % 2
    }
}

/// How many bits it takes to write `m`; `0` for `0`.
pub open spec fn bit_len(m: nat) -> nat
    decreases m,
{
    if m == 0 {
        0
    } else {
        1 + bit_len(m / 2)
    }
}

/// The depth encoded in a Morton octant code: the marker bit sits at
/// position `3 * depth`.
pub open spec fn code_depth(m: nat) -> nat {
    bit_len(m) / 3
}

/// The code of the octant at coordinates `(x, y, z)` and depth `depth`:
/// the interleaved path bits under a marker bit at position `3 * depth`.
pub open spec fn code_of(x: nat, y: nat, z: nat, depth: nat) -> nat {
    pow2(3 * depth) + interleave3(x, y, z)
}

/// A structurally well-formed octant code: a marker bit at a position that
/// is a multiple of three, no deeper than sixteen levels.
pub open spec fn code_well_formed(m: nat) -> bool {
    m >= 1 && bit_len(m) % 3 == 1 && bit_len(m) <= 49
}

/// The x coordinate of the octant a code names, ignoring the depth marker.
pub open spec fn code_x(m: nat) -> nat
    decreases m,
{
    if m <= 1 {
        0
    } else {
        2 * code_x(m / 8) + (m / 4) % 2
    }
}

/// The y coordinate of the octant a code names, ignoring the depth marker.
pub open spec fn code_y(m: nat) -> nat
    decreases m,
{
    if m <= 1 {
        0
    } else {
        2 * code_y(m / 8) + (m / 2) % 2
    }
}

/// The z coordinate of the octant a code names, ignoring the depth marker.
pub open spec fn code_z(m: nat) -> nat
    decreases m,
{
    if m <= 1 {
        0
    } else {
        2 * code_z(m / 8) + m % 2
    }
}

/// The code of the child of `m` at Morton digit `digit`.
pub open spec fn child_code(m: nat, digit: nat) -> nat {
    8 * m + digit
}

/// `8 * pow2(3 * (d - 1)) == pow2(3 * d)`.
proof fn lemma_pow8_step(d: nat)
    requires
        d >= 1,
    ensures
        pow2(3 * d) == 8 * pow2(3 * ((d - 1) as nat)),
{
    lemma_pow2_adds(3, 3 * ((d - 1) as nat));
    assert(3 * d == 3 + 3 * ((d - 1) as nat));
    lemma2_to64();
}

/// Coordinates below `2^d` interleave to a code below `8^d`.
pub proof fn lemma_interleave3_bound(x: nat, y: nat, z: nat, d: nat)
    requires
        x < pow2(d),
        y < pow2(d),
        z < pow2(d),
    ensures
        interleave3(x, y, z) < pow2(3 * d),
    decreases d,
{
    if d == 0 {
        lemma2_to64();
        assert(x == 0 && y == 0 && z == 0);
    } else {
        lemma_pow2_unfold(d);
        lemma_interleave3_bound(x / 2, y / 2, z / 2, (d - 1) as nat);
        lemma_pow8_step(d);
        if x == 0 && y == 0 && z == 0 {
            lemma_pow2_pos(3 * d);
        } else {
            assert(interleave3(x, y, z) == 8 * interleave3(x / 2, y / 2, z / 2) + 4 * (x % 2) + 2
                * (y % 2) + z % 2);
        }
    }
}

/// Deinterleaving undoes interleaving on each axis.
pub proof fn lemma_deinterleave_of_interleave3(x: nat, y: nat, z: nat)
    ensures
        deinterleave_x(interleave3(x, y, z)) == x,
        deinterleave_y(interleave3(x, y, z)) == y,
        deinterleave_z(interleave3(x, y, z)) == z,
    decreases x + y + z,
{
    if x == 0 && y == 0 && z == 0 {
    } else {
        lemma_deinterleave_of_interleave3(x / 2, y / 2, z / 2);
        let i = interleave3(x / 2, y / 2, z / 2);
        let d = 4 * (x % 2) + 2 * (y % 2) + z % 2;
        let m = 8 * i + d;
        assert(d < 8);
        assert(m / 8 == i && m % 8 == d) by (nonlinear_arith)
            requires
                m == 8 * i + d,
                d < 8,
        ;
        assert(m > 0);
        assert((m / 4) % 2 == x % 2 && (m / 2) % 2 == y % 2 && m % 2 == z % 2) by (nonlinear_arith)
            requires
                m == 8 * i + d,
                d == 4 * (x % 2) + 2 * (y % 2) + z % 2,
        ;
        assert(deinterleave_x(m) == 2 * deinterleave_x(i) + (m / 4) % 2);
        assert(2 * (x / 2) + x % 2 == x);
        assert(2 * (y / 2) + y % 2 == y);
        assert(2 * (z / 2) + z % 2 == z);
    }
}

/// A number with its top bit at position `b - 1` has bit length `b`.
pub proof fn lemma_bit_len_of_range(m: nat, b: nat)
    requires
        b >= 1,
        pow2((b - 1) as nat) <= m < pow2(b),
    ensures
        bit_len(m) == b,
    decreases b,
{
    if b == 1 {
        lemma2_to64();
        assert(m == 1);
        assert(bit_len(0nat) == 0);
        assert(bit_len(1nat) == 1 + bit_len(0nat));
    } else {
        lemma_pow2_unfold(b);
        lemma_pow2_unfold((b - 1) as nat);
        assert(pow2((b - 2) as nat) <= m / 2 < pow2((b - 1) as nat));
        lemma_bit_len_of_range(m / 2, (b - 1) as nat);
        lemma_pow2_pos((b - 1) as nat);
        assert(m > 0);
        assert(bit_len(m) == 1 + bit_len(m / 2));
    }
}

/// A number below `2^b` has bit length at most `b`.
pub proof fn lemma_bit_len_below(m: nat, b: nat)
    requires
        m < pow2(b),
    ensures
        bit_len(m) <= b,
    decreases b,
{
    if m == 0 {
    } else if b == 0 {
        lemma2_to64();
    } else {
        lemma_pow2_unfold(b);
        lemma_bit_len_below(m / 2, (b - 1) as nat);
    }
}

/// The bit length brackets the number between two powers of two.
pub proof fn lemma_bit_len_brackets(m: nat)
    requires
        m >= 1,
    ensures
        pow2((bit_len(m) - 1) as nat) <= m < pow2(bit_len(m)),
        bit_len(m) >= 1,
    decreases m,
{
    if m == 1 {
        lemma2_to64();
        assert(bit_len(0nat) == 0);
        assert(bit_len(1nat) == 1 + bit_len(0nat));
    } else {
        lemma_bit_len_brackets(m / 2);
        let b = bit_len(m / 2);
        assert(bit_len(m) == 1 + b);
        lemma_pow2_unfold(b + 1);
        lemma_pow2_unfold(b);
        assert(m == 2 * (m / 2) + m % 2);
        assert(2 * pow2((b - 1) as nat) <= 2 * (m / 2));
        assert(m < 2 * pow2(b));
    }
}

/// The code of an octant at depth `d` has its marker bit at position `3d`,
/// so its bit length is `3d + 1` and it is structurally well-formed.
pub proof fn lemma_code_of_well_formed(x: nat, y: nat, z: nat, d: nat)
    requires
        x < pow2(d),
        y < pow2(d),
        z < pow2(d),
        d <= 16,
    ensures
        bit_len(code_of(x, y, z, d)) == 3 * d + 1,
        code_depth(code_of(x, y, z, d)) == d,
        code_well_formed(code_of(x, y, z, d)),
        pow2(3 * d) <= code_of(x, y, z, d) < 2 * pow2(3 * d),
{
    lemma_interleave3_bound(x, y, z, d);
    let m = code_of(x, y, z, d);
    assert(pow2(3 * d) <= m < 2 * pow2(3 * d));
    assert(pow2(3 * d + 1) == 2 * pow2(3 * d)) by {
        lemma_pow2_unfold(3 * d + 1);
    }
    lemma_bit_len_of_range(m, 3 * d + 1);
    assert((3 * d + 1) / 3 == d);
    assert((3 * d + 1) % 3 == 1);
}

/// Reading coordinates out of a code at depth `d` is deinterleaving the
/// bits below the marker.
pub proof fn lemma_code_coords(i: nat, d: nat)
    requires
        i < pow2(3 * d),
    ensures
        code_x(pow2(3 * d) + i) == deinterleave_x(i),
        code_y(pow2(3 * d) + i) == deinterleave_y(i),
        code_z(pow2(3 * d) + i) == deinterleave_z(i),
    decreases d,
{
    let m = pow2(3 * d) + i;
    if d == 0 {
        lemma2_to64();
        assert(m == 1);
    } else {
        lemma_pow8_step(d);
        let p = pow2(3 * ((d - 1) as nat));
        assert(m == 8 * p + i);
        assert(m / 8 == p + i / 8 && m % 8 == i % 8) by (nonlinear_arith)
            requires
                m == 8 * p + i,
        ;
        assert(i / 8 < p) by (nonlinear_arith)
            requires
                i < 8 * p,
        ;
        lemma_code_coords(i / 8, (d - 1) as nat);
        lemma_pow2_pos(3 * ((d - 1) as nat));
        assert(m >= 8);
        assert((m / 4) % 2 == (i / 4) % 2 && (m / 2) % 2 == (i / 2) % 2 && m % 2 == i % 2)
            by (nonlinear_arith)
            requires
                m == 8 * p + i,
        ;
        if i == 0 {
            assert(code_x(m) == 2 * code_x(m / 8) + (m / 4) % 2);
            assert(code_x(m) == 0 && code_y(m) == 0 && code_z(m) == 0);
        } else {
            assert(deinterleave_x(i) == 2 * deinterleave_x(i / 8) + (i / 4) % 2);
            assert(code_x(m) == 2 * code_x(m / 8) + (m / 4) % 2);
            assert(deinterleave_y(i) == 2 * deinterleave_y(i / 8) + (i / 2) % 2);
            assert(code_y(m) == 2 * code_y(m / 8) + (m / 2) % 2);
            assert(deinterleave_z(i) == 2 * deinterleave_z(i / 8) + i % 2);
            assert(code_z(m) == 2 * code_z(m / 8) + m % 2);
        }
    }
}

/// Round trip: the code built from coordinates at a depth decodes back to
/// exactly those coordinates and that depth.
pub proof fn lemma_code_round_trip(x: nat, y: nat, z: nat, d: nat)
    requires
        x < pow2(d),
        y < pow2(d),
        z < pow2(d),
        d <= 16,
    ensures
        code_x(code_of(x, y, z, d)) == x,
        code_y(code_of(x, y, z, d)) == y,
        code_z(code_of(x, y, z, d)) == z,
        code_depth(code_of(x, y, z, d)) == d,
        code_well_formed(code_of(x, y, z, d)),
{
    lemma_interleave3_bound(x, y, z, d);
    lemma_code_of_well_formed(x, y, z, d);
    lemma_code_coords(interleave3(x, y, z), d);
    lemma_deinterleave_of_interleave3(x, y, z);
}

/// A child code is one level deeper than its parent, and dividing it by
/// eight gives the parent back.
pub proof fn lemma_child_code(m: nat, digit: nat)
    requires
        m >= 1,
        digit < 8,
    ensures
        child_code(m, digit) / 8 == m,
        child_code(m, digit) % 8 == digit,
        bit_len(child_code(m, digit)) == bit_len(m) + 3,
        code_depth(child_code(m, digit)) == code_depth(m) + 1,
{
    let c = child_code(m, digit);
    assert(c / 8 == m && c % 8 == digit) by (nonlinear_arith)
        requires
            c == 8 * m + digit,
            digit < 8,
    ;
    lemma_bit_len_brackets(m);
    let b = bit_len(m);
    assert(pow2((b + 3 - 1) as nat) == 8 * pow2((b - 1) as nat)) by {
        lemma_pow2_adds(3, (b - 1) as nat);
        lemma2_to64();
    }
    assert(pow2(b + 3) == 8 * pow2(b)) by {
        lemma_pow2_adds(3, b);
        lemma2_to64();
    }
    assert(8 * pow2((b - 1) as nat) <= c < 8 * pow2(b)) by (nonlinear_arith)
        requires
            c == 8 * m + digit,
            digit < 8,
            pow2((b - 1) as nat) <= m < pow2(b),
    ;
    lemma_bit_len_of_range(c, b + 3);
    assert((b + 3) / 3 == b / 3 + 1);
}

/// Interleaving the three deinterleaved axes gives the code back.
pub proof fn lemma_interleave_of_deinterleave(i: nat)
    ensures
        interleave3(deinterleave_x(i), deinterleave_y(i), deinterleave_z(i)) == i,
    decreases i,
{
    if i == 0 {
    } else {
        let x = deinterleave_x(i);
        let y = deinterleave_y(i);
        let z = deinterleave_z(i);
        assert(i / 8 < i);
        lemma_interleave_of_deinterleave(i / 8);
        assert(x / 2 == deinterleave_x(i / 8) && x % 2 == (i / 4) % 2) by {
            assert(x == 2 * deinterleave_x(i / 8) + (i / 4) % 2);
        }
        assert(y / 2 == deinterleave_y(i / 8) && y % 2 == (i / 2) % 2) by {
            assert(y == 2 * deinterleave_y(i / 8) + (i / 2) % 2);
        }
        assert(z / 2 == deinterleave_z(i / 8) && z % 2 == i % 2) by {
            assert(z == 2 * deinterleave_z(i / 8) + i % 2);
        }
        assert(i == 8 * (i / 8) + 4 * ((i / 4) % 2) + 2 * ((i / 2) % 2) + i % 2)
            by (nonlinear_arith);
        if x == 0 && y == 0 && z == 0 {
            assert(i / 8 == 0);
            assert(i == 0);
        } else {
            assert(interleave3(x, y, z) == 8 * interleave3(x / 2, y / 2, z / 2) + 4 * (x % 2) + 2
                * (y % 2) + z % 2);
        }
    }
}

/// Each deinterleaved axis of a code below `8^d` is below `2^d`.
pub proof fn lemma_deinterleave_bound(i: nat, d: nat)
    requires
        i < pow2(3 * d),
    ensures
        deinterleave_x(i) < pow2(d),
        deinterleave_y(i) < pow2(d),
        deinterleave_z(i) < pow2(d),
    decreases d,
{
    if d == 0 {
        lemma2_to64();
        assert(i == 0);
    } else {
        lemma_pow8_step(d);
        assert(i / 8 < pow2(3 * ((d - 1) as nat))) by (nonlinear_arith)
            requires
                i < 8 * pow2(3 * ((d - 1) as nat)),
        ;
        lemma_deinterleave_bound(i / 8, (d - 1) as nat);
        lemma_pow2_unfold(d);
        if i == 0 {
            lemma_pow2_pos(d);
        } else {
            assert(deinterleave_x(i) == 2 * deinterleave_x(i / 8) + (i / 4) % 2);
            assert(deinterleave_y(i) == 2 * deinterleave_y(i / 8) + (i / 2) % 2);
            assert(deinterleave_z(i) == 2 * deinterleave_z(i / 8) + i % 2);
        }
    }
}

/// A well-formed code at depth `d` carries coordinates below `2^d` and is
/// exactly the code built back from them.
pub proof fn lemma_well_formed_decomposes(m: nat)
    requires
        code_well_formed(m),
    ensures
        code_x(m) < pow2(code_depth(m)),
        code_y(m) < pow2(code_depth(m)),
        code_z(m) < pow2(code_depth(m)),
        code_of(code_x(m), code_y(m), code_z(m), code_depth(m)) == m,
        pow2(3 * code_depth(m)) <= m < 2 * pow2(3 * code_depth(m)),
{
    let d = code_depth(m);
    let b = bit_len(m);
    lemma_bit_len_brackets(m);
    assert(b == 3 * d + 1);
    assert(pow2(3 * d + 1) == 2 * pow2(3 * d)) by {
        lemma_pow2_unfold(3 * d + 1);
    }
    let i = (m - pow2(3 * d)) as nat;
    assert(i < pow2(3 * d));
    lemma_code_coords(i, d);
    lemma_interleave_of_deinterleave(i);
    lemma_deinterleave_bound(i, d);
}

/// A Morton-coded octant identifier.
#[derive(Debug, Hash, Copy, Clone, Eq, PartialEq, PartialOrd, Structural)]
pub struct MortonOctantId(pub u64);

impl MortonOctantId {
    /// The deepest level an identifier can express: sixteen levels of
    /// three path bits plus the marker fit in sixty-four bits.
    pub const MAX_DEPTH: Depth = 16;

    /// The identifier of the root octant.
    pub fn root_octant_id() -> (r: MortonOctantId)
        ensures
            r == MortonOctantId(1u64),
    {
        MortonOctantId(1)
    }

    /// The reserved sentinel that names no octant.
    pub fn invalid_octant_id() -> (r: MortonOctantId)
        ensures
            r == MortonOctantId(0u64),
    {
        MortonOctantId(0)
    }

    /// The identifier's code as a mathematical integer.
    pub open spec fn as_nat(self) -> nat {
        self.0 as nat
    }

    /// Structurally well-formed: marker bit at a multiple of three, depth
    /// at most sixteen.
    pub open spec fn well_formed(self) -> bool {
        code_well_formed(self.as_nat())
    }

    /// The depth encoded in the identifier.
    pub open spec fn depth_spec(self) -> nat {
        code_depth(self.as_nat())
    }

    /// The x coordinate encoded in the identifier.
    pub open spec fn x_spec(self) -> nat {
        code_x(self.as_nat())
    }

    /// The y coordinate encoded in the identifier.
    pub open spec fn y_spec(self) -> nat {
        code_y(self.as_nat())
    }

    /// The z coordinate encoded in the identifier.
    pub open spec fn z_spec(self) -> nat {
        code_z(self.as_nat())
    }

    /// The identifier of this octant's parent.
    pub open spec fn parent_spec(self) -> MortonOctantId {
        MortonOctantId(self.0 / 8)
    }

    /// The identifier of this octant's child at `placement`.
    pub open spec fn child_spec(self, placement: OctantPlacement) -> MortonOctantId {
        MortonOctantId((child_code(self.as_nat(), placement.index_spec()) as u64))
    }

    /// Wrap a raw structural code without validation; the caller asserts
    /// well-formedness.
    pub fn from_morton_code(morton_code: u64) -> (r: Self)
        ensures
            r.0 == morton_code,
    {
        MortonOctantId(morton_code)
    }

    /// The raw sixty-four bit code.
    pub fn as_morton(&self) -> (r: u64)
        ensures
            r == self.0,
    {
        self.0
    }

    /// Whether this is the root identifier.
    pub fn is_root(&self) -> (r: bool)
        ensures
            r == (self.0 == 1),
    {
        self.0 == 1
    }

    /// Whether this is any identifier other than the reserved sentinel.
    pub fn is_valid(&self) -> (r: bool)
        ensures
            r == (self.0 != 0),
    {
        self.0 != 0
    }

    /// The depth this identifier encodes, recovered by a bit scan.
    pub fn compute_depth(&self) -> (r: Depth)
        ensures
            r as nat == self.depth_spec(),
            self.well_formed() ==> r <= 16,
    {
        proof {
            lemma2_to64_rest();
            lemma_bit_len_below(self.0 as nat, 64);
        }
        let mut n: u64 = self.0;
        let mut len: u8 = 0;
        while n > 0
            invariant
                len as nat + bit_len(n as nat) == bit_len(self.0 as nat),
                bit_len(self.0 as nat) <= 64,
            decreases n,
        {
            assert(bit_len(n as nat) == 1 + bit_len(n as nat / 2));
            n = n / 2;
            len = len + 1;
        }
        len / 3
    }

    /// The parent identifier; the root and the invalid sentinel have none
    /// and give back the sentinel.
    pub fn parent_id(&self) -> (r: MortonOctantId)
        ensures
            self.0 == 0 || self.0 == 1 ==> r == MortonOctantId(0u64),
            self.0 > 1 ==> r == self.parent_spec(),
            self.well_formed() && self.0 != 1 ==> r.well_formed() && r.depth_spec()
                == self.depth_spec() - 1,
    {
        proof {
            if self.well_formed() && self.0 > 1 {
                lemma_parent_code(self.0 as nat);
            }
        }
        if self.is_root() || !self.is_valid() {
            Self::invalid_octant_id()
        } else {
            MortonOctantId(self.0 / 8)
        }
    }

    /// The child identifier at `placement`, one level deeper.
    pub fn child_id_by_placement(&self, child_octant_placement: OctantPlacement) -> (r:
        MortonOctantId)
        requires
            self.well_formed(),
            self.depth_spec() < 16,
        ensures
            r == self.child_spec(child_octant_placement),
            r.as_nat() == child_code(self.as_nat(), child_octant_placement.index_spec()),
            r.well_formed(),
            r.depth_spec() == self.depth_spec() + 1,
            r.parent_spec() == *self,
    {
        let digit = child_octant_placement.index() as u64;
        proof {
            lemma_child_fits(self.0 as nat);
            lemma_child_code(self.0 as nat, digit as nat);
            lemma_child_well_formed(self.0 as nat, digit as nat);
        }
        MortonOctantId(self.0 * 8 + digit)
    }

    /// All eight child identifiers, in placement order.
    pub fn children_ids(&self) -> (r: [MortonOctantId; 8])
        requires
            self.well_formed(),
            self.depth_spec() < 16,
        ensures
            forall|i: int|
                0 <= i < 8 ==> #[trigger] r[i] == self.child_spec(
                    OctantPlacement::from_index_spec(i as nat),
                ),
            forall|i: int| 0 <= i < 8 ==> (#[trigger] r[i]).as_nat() == child_code(
                self.as_nat(),
                i as nat,
            ),
    {
        proof {
            lemma_child_fits(self.0 as nat);
            crate::octant_meta::lemma_placement_index_bijective();
        }
        let base = self.0 * 8;
        let r = [
            MortonOctantId(base),
            MortonOctantId(base + 1),
            MortonOctantId(base + 2),
            MortonOctantId(base + 3),
            MortonOctantId(base + 4),
            MortonOctantId(base + 5),
            MortonOctantId(base + 6),
            MortonOctantId(base + 7),
        ];
        assert(forall|i: int|
            0 <= i < 8 ==> #[trigger] r[i] == self.child_spec(
                OctantPlacement::from_index_spec(i as nat),
            )) by {
            assert(forall|i: int|
                0 <= i < 8 ==> (#[trigger] OctantPlacement::from_index_spec(i as nat)).index_spec()
                    == i as nat);
        }
        r
    }

    /// Which placement `child_id` occupies below this octant, or `None`
    /// if it is not one of the eight children.
    pub fn has_child(&self, child_id: &MortonOctantId) -> (r: Option<OctantPlacement>)
        requires
            self.well_formed(),
            self.depth_spec() < 16,
        ensures
            match r {
                Some(p) => *child_id == self.child_spec(p),
                None => forall|p: OctantPlacement| *child_id != self.child_spec(p),
            },
    {
        proof {
            lemma_child_fits(self.0 as nat);
            crate::octant_meta::lemma_placement_index_bijective();
        }
        let base = self.0 * 8;
        if child_id.0 < base || child_id.0 >= base + 8 {
            assert(forall|p: OctantPlacement| *child_id != self.child_spec(p)) by {
                assert(forall|p: OctantPlacement| (#[trigger] p.index_spec()) < 8);
            }
            None
        } else {
            let digit = (child_id.0 - base) as usize;
            let r = OctantPlacement::try_from_index(digit);
            proof {
                let p = OctantPlacement::from_index_spec(digit as nat);
                assert(p.index_spec() == digit as nat);
                assert(*child_id == self.child_spec(p));
            }
            r
        }
    }
}

impl MortonOctantId {
    /// Every ancestor identifier, child-ward first: the parent, then the
    /// grandparent, and so on up to and including the root, excluding the
    /// octant itself.
    pub open spec fn ancestor_chain(m: nat) -> Seq<MortonOctantId>
        decreases m,
    {
        if m <= 1 {
            Seq::empty()
        } else {
            seq![MortonOctantId((m / 8) as u64)] + MortonOctantId::ancestor_chain(m / 8)
        }
    }

    /// Walk strictly upward, collecting every ancestor identifier down to
    /// the root.
    pub fn ancestor_ids(&self) -> (r: Vec<MortonOctantId>)
        ensures
            r@ == MortonOctantId::ancestor_chain(self.as_nat()),
    {
        let mut out: Vec<MortonOctantId> = Vec::new();
        let mut cur: u64 = self.0;
        while cur > 1
            invariant
                MortonOctantId::ancestor_chain(self.as_nat()) == out@ + MortonOctantId::ancestor_chain(
                    cur as nat,
                ),
            decreases cur,
        {
            assert(MortonOctantId::ancestor_chain(cur as nat) == seq![
                MortonOctantId((cur as nat / 8) as u64),
            ] + MortonOctantId::ancestor_chain(cur as nat / 8));
            cur = cur / 8;
            out.push(MortonOctantId(cur));
            assert(MortonOctantId::ancestor_chain(self.as_nat()) == out@
                + MortonOctantId::ancestor_chain(cur as nat));
        }
        assert(MortonOctantId::ancestor_chain(cur as nat) == Seq::<MortonOctantId>::empty());
        assert(out@ =~= MortonOctantId::ancestor_chain(self.as_nat()));
        out
    }

    /// The side length, in octants, of the coordinate grid at `depth`;
    /// `None` past the depth limit.
    pub fn max_xyz_grid_size_in_depth(depth: Depth) -> (r: Option<u32>)
        ensures
            depth <= 16 ==> (r matches Some(s) && s as nat == pow2(depth as nat)),
            depth > 16 ==> r is None,
    {
        if depth > Self::MAX_DEPTH {
            None
        } else {
            Some(exec_pow2_u32(depth))
        }
    }

    /// The largest coordinate value addressable at this octant's depth.
    pub fn max_xyz_value(&self) -> (r: u16)
        requires
            self.well_formed(),
        ensures
            r as nat == pow2(self.depth_spec()) - 1,
    {
        let depth = self.compute_depth();
        let grid = exec_pow2_u32(depth);
        proof {
            lemma_pow2_pos(depth as nat);
            lemma2_to64();
            if depth < 16 {
                lemma_pow2_strictly_increases(depth as nat, 16);
            }
        }
        (grid - 1) as u16
    }

    /// Check a coordinate triple against the grid addressable at `depth`.
    ///
    /// Rejected coordinates come back in the error, each axis flagged with
    /// the offending value, together with the largest legal value.
    pub fn validate_xyz_array_at_depth(xyz: [i32; 3], depth: Depth) -> (r: Result<
        [u16; 3],
        ValidationError,
    >)
        ensures
            depth > 16 ==> r == Err::<[u16; 3], ValidationError>(ValidationError::DepthError(
                depth,
            )),
            depth <= 16 ==> {
                if axis_in_range(xyz[0] as int, depth as nat) && axis_in_range(
                    xyz[1] as int,
                    depth as nat,
                ) && axis_in_range(xyz[2] as int, depth as nat) {
                    (r matches Ok(arr) && arr[0] == xyz[0] as u16 && arr[1] == xyz[1] as u16
                        && arr[2] == xyz[2] as u16)
                } else {
                    r == Err::<[u16; 3], ValidationError>(
                        ValidationError::AxisError(
                            axis_flag(xyz[0] as int, depth as nat),
                            axis_flag(xyz[1] as int, depth as nat),
                            axis_flag(xyz[2] as int, depth as nat),
                            (pow2(depth as nat) - 1) as i32,
                        ),
                    )
                }
            },
    {
        if depth > Self::MAX_DEPTH {
            return Err(ValidationError::DepthError(depth));
        }
        let grid = exec_pow2_u32(depth);
        proof {
            lemma_pow2_pos(depth as nat);
            lemma2_to64();
            if depth < 16 {
                lemma_pow2_strictly_increases(depth as nat, 16);
            }
        }
        let max_axis: i32 = (grid - 1) as i32;
        let flag_x: Option<i32> = if xyz[0] < 0 || xyz[0] > max_axis {
            Some(xyz[0])
        } else {
            None
        };
        let flag_y: Option<i32> = if xyz[1] < 0 || xyz[1] > max_axis {
            Some(xyz[1])
        } else {
            None
        };
        let flag_z: Option<i32> = if xyz[2] < 0 || xyz[2] > max_axis {
            Some(xyz[2])
        } else {
            None
        };
        if flag_x.is_some() || flag_y.is_some() || flag_z.is_some() {
            Err(ValidationError::AxisError(flag_x, flag_y, flag_z, max_axis))
        } else {
            Ok([xyz[0] as u16, xyz[1] as u16, xyz[2] as u16])
        }
    }

    /// Build the identifier of the octant at `(x, y, z)` and `depth`.
    ///
    /// Fails with a validation error naming each axis that exceeds
    /// `2^depth - 1`; coordinates cannot be below zero here.
    pub fn from_xyz_array(xyz_array: [u16; 3], depth: Depth) -> (r: Result<
        MortonOctantId,
        ValidationError,
    >)
        ensures
            (depth <= 16 && xyz_array[0] < pow2(depth as nat) && xyz_array[1] < pow2(
                depth as nat,
            ) && xyz_array[2] < pow2(depth as nat)) <==> r is Ok,
            r matches Ok(id) ==> (id.as_nat() == code_of(
                xyz_array[0] as nat,
                xyz_array[1] as nat,
                xyz_array[2] as nat,
                depth as nat,
            ) && id.well_formed() && id.depth_spec() == depth as nat && id.x_spec() == xyz_array[0]
                && id.y_spec() == xyz_array[1] && id.z_spec() == xyz_array[2]),
            depth > 16 ==> r == Err::<MortonOctantId, ValidationError>(ValidationError::DepthError(
                depth,
            )),
            depth <= 16 && r is Err ==> r == Err::<MortonOctantId, ValidationError>(
                ValidationError::AxisError(
                    axis_flag(xyz_array[0] as int, depth as nat),
                    axis_flag(xyz_array[1] as int, depth as nat),
                    axis_flag(xyz_array[2] as int, depth as nat),
                    (pow2(depth as nat) - 1) as i32,
                ),
            ),
    {
        let validated = match Self::validate_xyz_array_at_depth(
            [xyz_array[0] as i32, xyz_array[1] as i32, xyz_array[2] as i32],
            depth,
        ) {
            Ok(v) => v,
            Err(e) => {
                return Err(e);
            },
        };
        let code = morton_encode_u16_3(validated);
        let marker = exec_pow2_u64(3 * depth);
        proof {
            lemma_interleave3_bound(
                validated[0] as nat,
                validated[1] as nat,
                validated[2] as nat,
                depth as nat,
            );
            lemma_pow2_strictly_increases(3 * depth as nat, 49);
            lemma2_to64_rest();
            lemma_code_round_trip(
                validated[0] as nat,
                validated[1] as nat,
                validated[2] as nat,
                depth as nat,
            );
        }
        Ok(MortonOctantId(code + marker))
    }

    /// Build the identifier of the octant at `(x, y, z)` and `depth`.
    pub fn from_xyz(x: u16, y: u16, z: u16, depth: Depth) -> (r: Result<
        MortonOctantId,
        ValidationError,
    >)
        ensures
            (depth <= 16 && x < pow2(depth as nat) && y < pow2(depth as nat) && z < pow2(
                depth as nat,
            )) <==> r is Ok,
            r matches Ok(id) ==> (id.as_nat() == code_of(x as nat, y as nat, z as nat, depth as nat)
                && id.well_formed() && id.depth_spec() == depth as nat && id.x_spec() == x
                && id.y_spec() == y && id.z_spec() == z),
            depth > 16 ==> r == Err::<MortonOctantId, ValidationError>(ValidationError::DepthError(
                depth,
            )),
            depth <= 16 && r is Err ==> r == Err::<MortonOctantId, ValidationError>(
                ValidationError::AxisError(
                    axis_flag(x as int, depth as nat),
                    axis_flag(y as int, depth as nat),
                    axis_flag(z as int, depth as nat),
                    (pow2(depth as nat) - 1) as i32,
                ),
            ),
    {
        Self::from_xyz_array([x, y, z], depth)
    }

    /// Recover the coordinate triple this identifier encodes.
    pub fn xyz(&self) -> (r: [u16; 3])
        requires
            self.well_formed(),
        ensures
            r[0] as nat == self.x_spec(),
            r[1] as nat == self.y_spec(),
            r[2] as nat == self.z_spec(),
            (r[0] as nat) < pow2(self.depth_spec()),
            (r[1] as nat) < pow2(self.depth_spec()),
            (r[2] as nat) < pow2(self.depth_spec()),
    {
        proof {
            lemma_well_formed_decomposes(self.0 as nat);
        }
        let depth = self.compute_depth();
        let marker = exec_pow2_u64(3 * depth);
        let below = self.0 - marker;
        proof {
            let d = self.depth_spec();
            let i = (self.0 as nat - pow2(3 * d)) as nat;
            if 3 * d < 48 {
                lemma_pow2_strictly_increases(3 * d, 48);
            }
            lemma_code_coords(i, d);
            lemma_deinterleave_bound(i, d);
        }
        morton_decode_u16_3(below)
    }

    /// The identifier of the equally deep octant one step away in `dir`.
    ///
    /// Fails with a validation error naming each axis that would leave
    /// `[0, 2^depth - 1]`, and never yields an identifier for any other
    /// octant than the true neighbor.
    pub fn get_neighbor(&self, neighbor_direction: OctantNeighborDirection) -> (r: Result<
        MortonOctantId,
        ValidationError,
    >)
        requires
            self.well_formed(),
        ensures
            r == self.neighbor_spec(neighbor_direction),
    {
        let depth = self.compute_depth();
        let xyz = self.xyz();
        let (dx, dy, dz) = neighbor_direction.offsets();
        let nx = xyz[0] as i32 + dx;
        let ny = xyz[1] as i32 + dy;
        let nz = xyz[2] as i32 + dz;
        let validated = match Self::validate_xyz_array_at_depth([nx, ny, nz], depth) {
            Ok(v) => v,
            Err(e) => {
                return Err(e);
            },
        };
        proof {
            lemma2_to64();
            if depth < 16 {
                lemma_pow2_strictly_increases(depth as nat, 16);
            }
        }
        let r = Self::from_xyz_array(validated, depth);
        proof {
            let d = self.depth_spec();
            let nxs = self.x_spec() + neighbor_direction.offset_x();
            let nys = self.y_spec() + neighbor_direction.offset_y();
            let nzs = self.z_spec() + neighbor_direction.offset_z();
            lemma_code_of_well_formed(nxs as nat, nys as nat, nzs as nat, d);
            lemma_pow2_strictly_increases(3 * d + 1, 64);
            lemma2_to64_rest();
            assert(code_of(nxs as nat, nys as nat, nzs as nat, d) < pow2(64));
        }
        r
    }

    /// What `get_neighbor` yields: the neighbor's identifier when the
    /// stepped coordinates stay on the grid, the axis flags otherwise.
    pub open spec fn neighbor_spec(self, dir: OctantNeighborDirection) -> Result<
        MortonOctantId,
        ValidationError,
    > {
        let d = self.depth_spec();
        let nx = self.x_spec() + dir.offset_x();
        let ny = self.y_spec() + dir.offset_y();
        let nz = self.z_spec() + dir.offset_z();
        if axis_in_range(nx, d) && axis_in_range(ny, d) && axis_in_range(nz, d) {
            Ok(MortonOctantId(code_of(nx as nat, ny as nat, nz as nat, d) as u64))
        } else {
            Err(
                ValidationError::AxisError(
                    axis_flag(nx, d),
                    axis_flag(ny, d),
                    axis_flag(nz, d),
                    (pow2(d) - 1) as i32,
                ),
            )
        }
    }

    /// The six face neighbors, each tagged with its direction.
    #[verifier::rlimit(60)]
    pub fn get_facing_neighbors(&self) -> (r: [(
        Result<MortonOctantId, ValidationError>,
        OctantNeighborDirection,
    ); 6])
        requires
            self.well_formed(),
        ensures
            forall|i: int|
                0 <= i < 6 ==> #[trigger] r[i] == (
                    self.neighbor_spec(OctantNeighborDirection::facing_directions_spec()[i]),
                    OctantNeighborDirection::facing_directions_spec()[i],
                ),
    {
        let r = [
            (self.get_neighbor(OctantNeighborDirection::U), OctantNeighborDirection::U),
            (self.get_neighbor(OctantNeighborDirection::D), OctantNeighborDirection::D),
            (self.get_neighbor(OctantNeighborDirection::N), OctantNeighborDirection::N),
            (self.get_neighbor(OctantNeighborDirection::S), OctantNeighborDirection::S),
            (self.get_neighbor(OctantNeighborDirection::E), OctantNeighborDirection::E),
            (self.get_neighbor(OctantNeighborDirection::W), OctantNeighborDirection::W),
        ];
        r
    }

    /// The twelve edge and eight corner neighbors, each tagged with its
    /// direction.
    #[verifier::rlimit(100)]
    #[verifier::spinoff_prover]
    pub fn get_diagonal_neighbors(&self) -> (r: [(
        Result<MortonOctantId, ValidationError>,
        OctantNeighborDirection,
    ); 20])
        requires
            self.well_formed(),
        ensures
            forall|i: int|
                0 <= i < 20 ==> #[trigger] r[i] == (
                    self.neighbor_spec(OctantNeighborDirection::diagonal_directions_spec()[i]),
                    OctantNeighborDirection::diagonal_directions_spec()[i],
                ),
    {
        let r = [
            (self.get_neighbor(OctantNeighborDirection::NE), OctantNeighborDirection::NE),
            (self.get_neighbor(OctantNeighborDirection::NW), OctantNeighborDirection::NW),
            (self.get_neighbor(OctantNeighborDirection::SE), OctantNeighborDirection::SE),
            (self.get_neighbor(OctantNeighborDirection::SW), OctantNeighborDirection::SW),
            (self.get_neighbor(OctantNeighborDirection::UN), OctantNeighborDirection::UN),
            (self.get_neighbor(OctantNeighborDirection::US), OctantNeighborDirection::US),
            (self.get_neighbor(OctantNeighborDirection::UE), OctantNeighborDirection::UE),
            (self.get_neighbor(OctantNeighborDirection::UW), OctantNeighborDirection::UW),
            (self.get_neighbor(OctantNeighborDirection::DN), OctantNeighborDirection::DN),
            (self.get_neighbor(OctantNeighborDirection::DS), OctantNeighborDirection::DS),
            (self.get_neighbor(OctantNeighborDirection::DE), OctantNeighborDirection::DE),
            (self.get_neighbor(OctantNeighborDirection::DW), OctantNeighborDirection::DW),
            (self.get_neighbor(OctantNeighborDirection::UNE), OctantNeighborDirection::UNE),
            (self.get_neighbor(OctantNeighborDirection::UNW), OctantNeighborDirection::UNW),
            (self.get_neighbor(OctantNeighborDirection::USE), OctantNeighborDirection::USE),
            (self.get_neighbor(OctantNeighborDirection::USW), OctantNeighborDirection::USW),
            (self.get_neighbor(OctantNeighborDirection::DNE), OctantNeighborDirection::DNE),
            (self.get_neighbor(OctantNeighborDirection::DNW), OctantNeighborDirection::DNW),
            (self.get_neighbor(OctantNeighborDirection::DSE), OctantNeighborDirection::DSE),
            (self.get_neighbor(OctantNeighborDirection::DSW), OctantNeighborDirection::DSW),
        ];
        r
    }

    /// All twenty-six neighbors, each tagged with its direction, faces
    /// first, then edges, then corners.
    #[verifier::rlimit(100)]
    #[verifier::spinoff_prover]
    pub fn get_all_neighbors(&self) -> (r: [(
        Result<MortonOctantId, ValidationError>,
        OctantNeighborDirection,
    ); 26])
        requires
            self.well_formed(),
        ensures
            forall|i: int|
                0 <= i < 26 ==> #[trigger] r[i] == (
                    self.neighbor_spec(OctantNeighborDirection::all_directions_spec()[i]),
                    OctantNeighborDirection::all_directions_spec()[i],
                ),
    {
        let r = [
            (self.get_neighbor(OctantNeighborDirection::U), OctantNeighborDirection::U),
            (self.get_neighbor(OctantNeighborDirection::D), OctantNeighborDirection::D),
            (self.get_neighbor(OctantNeighborDirection::N), OctantNeighborDirection::N),
            (self.get_neighbor(OctantNeighborDirection::S), OctantNeighborDirection::S),
            (self.get_neighbor(OctantNeighborDirection::E), OctantNeighborDirection::E),
            (self.get_neighbor(OctantNeighborDirection::W), OctantNeighborDirection::W),
            (self.get_neighbor(OctantNeighborDirection::NE), OctantNeighborDirection::NE),
            (self.get_neighbor(OctantNeighborDirection::NW), OctantNeighborDirection::NW),
            (self.get_neighbor(OctantNeighborDirection::SE), OctantNeighborDirection::SE),
            (self.get_neighbor(OctantNeighborDirection::SW), OctantNeighborDirection::SW),
            (self.get_neighbor(OctantNeighborDirection::UN), OctantNeighborDirection::UN),
            (self.get_neighbor(OctantNeighborDirection::US), OctantNeighborDirection::US),
            (self.get_neighbor(OctantNeighborDirection::UE), OctantNeighborDirection::UE),
            (self.get_neighbor(OctantNeighborDirection::UW), OctantNeighborDirection::UW),
            (self.get_neighbor(OctantNeighborDirection::DN), OctantNeighborDirection::DN),
            (self.get_neighbor(OctantNeighborDirection::DS), OctantNeighborDirection::DS),
            (self.get_neighbor(OctantNeighborDirection::DE), OctantNeighborDirection::DE),
            (self.get_neighbor(OctantNeighborDirection::DW), OctantNeighborDirection::DW),
            (self.get_neighbor(OctantNeighborDirection::UNE), OctantNeighborDirection::UNE),
            (self.get_neighbor(OctantNeighborDirection::UNW), OctantNeighborDirection::UNW),
            (self.get_neighbor(OctantNeighborDirection::USE), OctantNeighborDirection::USE),
            (self.get_neighbor(OctantNeighborDirection::USW), OctantNeighborDirection::USW),
            (self.get_neighbor(OctantNeighborDirection::DNE), OctantNeighborDirection::DNE),
            (self.get_neighbor(OctantNeighborDirection::DNW), OctantNeighborDirection::DNW),
            (self.get_neighbor(OctantNeighborDirection::DSE), OctantNeighborDirection::DSE),
            (self.get_neighbor(OctantNeighborDirection::DSW), OctantNeighborDirection::DSW),
        ];
        r
    }
}

impl Default for MortonOctantId {
    /// The default identifier is the invalid sentinel.
    fn default() -> (r: Self)
        ensures
            r == MortonOctantId(0u64),
    {
        MortonOctantId(0)
    }
}

/// Whether a stepped coordinate still lies on the grid at `depth`.
pub open spec fn axis_in_range(v: int, depth: nat) -> bool {
    0 <= v < pow2(depth)
}

/// `None` for a coordinate on the grid, the offending value otherwise.
pub open spec fn axis_flag(v: int, depth: nat) -> Option<i32> {
    if axis_in_range(v, depth) {
        None
    } else {
        Some(v as i32)
    }
}

/// Why a coordinate triple or depth was rejected.
#[derive(Debug, Clone, Copy, PartialEq, Eq)]
pub enum ValidationError {
    /// The requested depth exceeds the depth limit; carries the depth.
    DepthError(Depth),
    /// At least one axis left the addressable grid; carries the offending
    /// value per axis and the largest legal value.
    AxisError(Option<i32>, Option<i32>, Option<i32>, i32),
}

impl ValidationError {
    /// The flagged x value, if the x axis was rejected.
    pub open spec fn x_axis_flag(self) -> Option<i32> {
        match self {
            ValidationError::AxisError(x, _, _, _) => x,
            _ => None,
        }
    }

    /// The flagged y value, if the y axis was rejected.
    pub open spec fn y_axis_flag(self) -> Option<i32> {
        match self {
            ValidationError::AxisError(_, y, _, _) => y,
            _ => None,
        }
    }

    /// The flagged z value, if the z axis was rejected.
    pub open spec fn z_axis_flag(self) -> Option<i32> {
        match self {
            ValidationError::AxisError(_, _, z, _) => z,
            _ => None,
        }
    }

    /// The largest legal coordinate value, where axes were rejected.
    pub open spec fn max_axis_value(self) -> int {
        match self {
            ValidationError::AxisError(_, _, _, max) => max as int,
            ValidationError::DepthError(_) => 0,
        }
    }

    /// Whether the x axis fell below zero.
    pub fn is_x_below_limit(&self) -> (r: bool)
        ensures
            r == match self {
                ValidationError::AxisError(Some(v), _, _, _) => v < 0,
                _ => false,
            },
    {
        match self {
            Self::AxisError(Some(x), _, _, _) => *x < 0,
            _ => false,
        }
    }

    /// Whether the y axis fell below zero.
    pub fn is_y_below_limit(&self) -> (r: bool)
        ensures
            r == match self {
                ValidationError::AxisError(_, Some(v), _, _) => v < 0,
                _ => false,
            },
    {
        match self {
            Self::AxisError(_, Some(y), _, _) => *y < 0,
            _ => false,
        }
    }

    /// Whether the z axis fell below zero.
    pub fn is_z_below_limit(&self) -> (r: bool)
        ensures
            r == match self {
                ValidationError::AxisError(_, _, Some(v), _) => v < 0,
                _ => false,
            },
    {
        match self {
            Self::AxisError(_, _, Some(z), _) => *z < 0,
            _ => false,
        }
    }

    /// Whether the x axis exceeded the largest legal value.
    pub fn is_x_above_limit(&self) -> (r: bool)
        ensures
            r == match self {
                ValidationError::AxisError(Some(v), _, _, max) => v > max as int,
                _ => false,
            },
    {
        match self {
            Self::AxisError(Some(x), _, _, max) => *x > *max,
            _ => false,
        }
    }

    /// Whether the y axis exceeded the largest legal value.
    pub fn is_y_above_limit(&self) -> (r: bool)
        ensures
            r == match self {
                ValidationError::AxisError(_, Some(v), _, max) => v > max as int,
                _ => false,
            },
    {
        match self {
            Self::AxisError(_, Some(y), _, max) => *y > *max,
            _ => false,
        }
    }

    /// Whether the z axis exceeded the largest legal value.
    pub fn is_z_above_limit(&self) -> (r: bool)
        ensures
            r == match self {
                ValidationError::AxisError(_, _, Some(v), max) => v > max as int,
                _ => false,
            },
    {
        match self {
            Self::AxisError(_, _, Some(z), max) => *z > *max,
            _ => false,
        }
    }
}

/// `2^e` as a machine word.
fn exec_pow2_u64(e: u8) -> (r: u64)
    requires
        e <= 63,
    ensures
        r as nat == pow2(e as nat),
{
    let mut r: u64 = 1;
    let mut i: u8 = 0;
    proof {
        lemma2_to64();
    }
    while i < e
        invariant
            i <= e,
            e <= 63,
            r as nat == pow2(i as nat),
        decreases e - i,
    {
        proof {
            lemma_pow2_unfold(i as nat + 1);
            lemma_pow2_strictly_increases(i as nat, 63);
            lemma2_to64_rest();
        }
        r = r * 2;
        i = i + 1;
    }
    r
}

/// `2^e` as a grid side length.
fn exec_pow2_u32(e: u8) -> (r: u32)
    requires
        e <= 16,
    ensures
        r as nat == pow2(e as nat),
        r >= 1,
{
    let wide = exec_pow2_u64(e);
    proof {
        if (e as nat) < 16 {
            lemma_pow2_strictly_increases(e as nat, 16);
        }
        lemma2_to64();
        lemma_pow2_pos(e as nat);
    }
    wide as u32
}

/// Relies on `morton_encoding::morton_encode`: interleaves the bits of the
/// three coordinates into one key, the first coordinate highest.
#[verifier::external_body]
fn morton_encode_u16_3(xyz: [u16; 3]) -> (r: u64)
    ensures
        r as nat == interleave3(xyz[0] as nat, xyz[1] as nat, xyz[2] as nat),
{
    morton_encoding::morton_encode(xyz)
}

/// Relies on `morton_encoding::morton_decode`: splits a key back into the
/// three coordinates whose bits it interleaves, the first coordinate
/// highest.
#[verifier::external_body]
fn morton_decode_u16_3(code: u64) -> (r: [u16; 3])
    requires
        (code as nat) < pow2(48),
    ensures
        r[0] as nat == deinterleave_x(code as nat),
        r[1] as nat == deinterleave_y(code as nat),
        r[2] as nat == deinterleave_z(code as nat),
{
    morton_encoding::morton_decode(code)
}

/// Round trip (law): for every depth up to sixteen and every coordinate
/// triple legal at that depth, the identifier built from the triple
/// decodes back to exactly that triple and that depth.
pub proof fn lemma_xyz_round_trip(x: u16, y: u16, z: u16, depth: Depth)
    requires
        depth <= 16,
        (x as nat) < pow2(depth as nat),
        (y as nat) < pow2(depth as nat),
        (z as nat) < pow2(depth as nat),
    ensures
        ({
            let id = MortonOctantId(code_of(x as nat, y as nat, z as nat, depth as nat) as u64);
            id.well_formed() && id.x_spec() == x && id.y_spec() == y && id.z_spec() == z
                && id.depth_spec() == depth
        }),
{
    lemma_code_round_trip(x as nat, y as nat, z as nat, depth as nat);
    lemma_code_of_well_formed(x as nat, y as nat, z as nat, depth as nat);
    let c = code_of(x as nat, y as nat, z as nat, depth as nat);
    assert(c < pow2(49)) by {
        lemma_pow2_unfold(3 * (depth as nat) + 1);
        if 3 * (depth as nat) + 1 < 49 {
            lemma_pow2_strictly_increases(3 * (depth as nat) + 1, 49);
        }
    }
    lemma2_to64_rest();
    assert(c as u64 as nat == c);
}

/// Parent/child inverse (law): every structurally derived child of an
/// identifier below the depth limit names that identifier as its parent.
pub proof fn lemma_children_parent_inverse(id: MortonOctantId)
    requires
        id.well_formed(),
        id.depth_spec() < 16,
    ensures
        forall|p: OctantPlacement| (#[trigger] id.child_spec(p)).parent_spec() == id,
{
    assert forall|p: OctantPlacement| (#[trigger] id.child_spec(p)).parent_spec() == id by {
        lemma_child_fits(id.as_nat());
        lemma_child_code(id.as_nat(), p.index_spec());
        lemma2_to64_rest();
    }
}

/// Depth monotonicity (law): every structurally derived child is exactly
/// one level deeper than the identifier it derives from.
pub proof fn lemma_child_depth_monotonic(id: MortonOctantId)
    requires
        id.well_formed(),
        id.depth_spec() < 16,
    ensures
        forall|p: OctantPlacement| (#[trigger] id.child_spec(p)).depth_spec() == id.depth_spec()
            + 1,
        forall|p: OctantPlacement| (#[trigger] id.child_spec(p)).well_formed(),
{
    assert forall|p: OctantPlacement|
        (#[trigger] id.child_spec(p)).depth_spec() == id.depth_spec() + 1 && id.child_spec(
            p,
        ).well_formed() by {
        lemma_child_fits(id.as_nat());
        lemma_child_code(id.as_nat(), p.index_spec());
        lemma_child_well_formed(id.as_nat(), p.index_spec());
        lemma2_to64_rest();
    }
}


/// The parent's code: the child's code with its lowest Morton digit
/// dropped.
pub fn parent_of_morton_code(child_morton: u64) -> (r: u64)
    ensures
        r == child_morton / 8,
{
    child_morton / 8
}

/// The depth a raw code encodes; a bit scan, not a stored field.
pub fn depth_from_morton_code(morton_code: u64) -> (r: Depth)
    ensures
        r as nat == code_depth(morton_code as nat),
{
    MortonOctantId(morton_code).compute_depth()
}

/// The side length, in octants, of the coordinate grid at `depth`.
pub fn max_axis_for_depth(depth: Depth) -> (r: u16)
    requires
        depth < 16,
    ensures
        r as nat == pow2(depth as nat),
{
    proof {
        lemma2_to64();
        lemma_pow2_strictly_increases(depth as nat, 16);
    }
    let wide = exec_pow2_u64(depth);
    wide as u16
}

/// The eight child codes of a raw parent code, in placement order.
pub fn children_ids_from_parent_id(parent_morton: u64) -> (r: [MortonOctantId; 8])
    requires
        parent_morton < 0x2000000000000000,
    ensures
        forall|i: int| 0 <= i < 8 ==> (#[trigger] r[i]).as_nat() == child_code(
            parent_morton as nat,
            i as nat,
        ),
{
    let child_offset = parent_morton * 8;
    let r = [
        MortonOctantId(child_offset),
        MortonOctantId(child_offset + 1),
        MortonOctantId(child_offset + 2),
        MortonOctantId(child_offset + 3),
        MortonOctantId(child_offset + 4),
        MortonOctantId(child_offset + 5),
        MortonOctantId(child_offset + 6),
        MortonOctantId(child_offset + 7),
    ];
    r
}

/// Dividing a well-formed non-root code by eight gives a well-formed code
/// one level shallower.
pub proof fn lemma_parent_code(m: nat)
    requires
        code_well_formed(m),
        m > 1,
    ensures
        code_well_formed(m / 8),
        code_depth(m / 8) == code_depth(m) - 1,
        m / 8 >= 1,
{
    let b = bit_len(m);
    lemma_bit_len_brackets(m);
    assert(b >= 4) by {
        if b == 1 {
            lemma2_to64();
        }
    }
    assert(pow2((b - 1) as nat) == 8 * pow2((b - 4) as nat)) by {
        lemma_pow2_adds(3, (b - 4) as nat);
        lemma2_to64();
    }
    assert(pow2(b) == 8 * pow2((b - 3) as nat)) by {
        lemma_pow2_adds(3, (b - 3) as nat);
        lemma2_to64();
    }
    assert(pow2((b - 4) as nat) <= m / 8 < pow2((b - 3) as nat)) by (nonlinear_arith)
        requires
            8 * pow2((b - 4) as nat) <= m < 8 * pow2((b - 3) as nat),
    ;
    lemma_bit_len_of_range(m / 8, (b - 3) as nat);
    lemma_pow2_pos((b - 4) as nat);
    assert((b - 3) as nat % 3 == 1);
    assert((b - 3) as nat / 3 == b / 3 - 1);
}

/// A well-formed code above depth sixteen leaves room for three more bits.
pub proof fn lemma_child_fits(m: nat)
    requires
        code_well_formed(m),
        code_depth(m) < 16,
    ensures
        8 * m + 7 < pow2(49),
        8 * m + 7 < 0x2000000000000,
        m >= 1,
{
    lemma2_to64_rest();
    lemma_bit_len_brackets(m);
    let b = bit_len(m);
    assert(b <= 46);
    assert(m < pow2(46)) by {
        if b < 46 {
            lemma_pow2_strictly_increases(b, 46);
        }
    }
    assert(pow2(49) == 8 * pow2(46)) by {
        lemma_pow2_adds(3, 46);
        lemma2_to64();
    }
}

/// The child of a well-formed code above the depth limit is well-formed.
pub proof fn lemma_child_well_formed(m: nat, digit: nat)
    requires
        code_well_formed(m),
        code_depth(m) < 16,
        digit < 8,
    ensures
        code_well_formed(child_code(m, digit)),
        code_depth(child_code(m, digit)) == code_depth(m) + 1,
{
    lemma_child_code(m, digit);
}

} // verus!
