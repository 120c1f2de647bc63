//! The eight child placements of an octant, the twenty-six neighbor
//! directions, and the static adjacency tables relating them.

use vstd::prelude::*;

verus! {

/// One of the eight child positions of a subdivided octant.
///
/// The position doubles as the three-bit Morton digit the child contributes
/// to its identifier: bit 2 selects the x half (`LEFT`/`RIGHT`), bit 1 the
/// y half (`LOWER`/`UPPER`), bit 0 the z half (`BOTTOM`/`TOP`).
#[allow(non_camel_case_types)]
#[derive(Debug, Copy, Clone, PartialEq, Eq, Hash, Structural)]
pub enum OctantPlacement {
    /// x 0, y 0, z 0
    LOWER_BOTTOM_LEFT,
    /// x 0, y 0, z 1
    LOWER_TOP_LEFT,
    /// x 0, y 1, z 0
    UPPER_BOTTOM_LEFT,
    /// x 0, y 1, z 1
    UPPER_TOP_LEFT,
    /// x 1, y 0, z 0
    LOWER_BOTTOM_RIGHT,
    /// x 1, y 0, z 1
    LOWER_TOP_RIGHT,
    /// x 1, y 1, z 0
    UPPER_BOTTOM_RIGHT,
    /// x 1, y 1, z 1
    UPPER_TOP_RIGHT,
}

impl OctantPlacement {
    /// The Morton digit this placement stands for.
    pub open spec fn index_spec(self) -> nat {
        match self {
            OctantPlacement::LOWER_BOTTOM_LEFT => 0,
            OctantPlacement::LOWER_TOP_LEFT => 1,
            OctantPlacement::UPPER_BOTTOM_LEFT => 2,
            OctantPlacement::UPPER_TOP_LEFT => 3,
            OctantPlacement::LOWER_BOTTOM_RIGHT => 4,
            OctantPlacement::LOWER_TOP_RIGHT => 5,
            OctantPlacement::UPPER_BOTTOM_RIGHT => 6,
            OctantPlacement::UPPER_TOP_RIGHT => 7,
        }
    }

    /// The placement whose Morton digit is `digit`.
    pub open spec fn from_index_spec(digit: nat) -> OctantPlacement {
        if digit == 0 {
            OctantPlacement::LOWER_BOTTOM_LEFT
        } else if digit == 1 {
            OctantPlacement::LOWER_TOP_LEFT
        } else if digit == 2 {
            OctantPlacement::UPPER_BOTTOM_LEFT
        } else if digit == 3 {
            OctantPlacement::UPPER_TOP_LEFT
        } else if digit == 4 {
            OctantPlacement::LOWER_BOTTOM_RIGHT
        } else if digit == 5 {
            OctantPlacement::LOWER_TOP_RIGHT
        } else if digit == 6 {
            OctantPlacement::UPPER_BOTTOM_RIGHT
        } else {
            OctantPlacement::UPPER_TOP_RIGHT
        }
    }

    /// The Morton digit this placement stands for.
    pub fn index(&self) -> (r: usize)
        ensures
            r == self.index_spec(),
            r < 8,
    {
        match self {
            OctantPlacement::LOWER_BOTTOM_LEFT => 0,
            OctantPlacement::LOWER_TOP_LEFT => 1,
            OctantPlacement::UPPER_BOTTOM_LEFT => 2,
            OctantPlacement::UPPER_TOP_LEFT => 3,
            OctantPlacement::LOWER_BOTTOM_RIGHT => 4,
            OctantPlacement::LOWER_TOP_RIGHT => 5,
            OctantPlacement::UPPER_BOTTOM_RIGHT => 6,
            OctantPlacement::UPPER_TOP_RIGHT => 7,
        }
    }

    /// The placement whose Morton digit is `index`; `None` above 7.
    pub fn try_from_index(index: usize) -> (r: Option<OctantPlacement>)
        ensures
            index < 8 ==> r == Some(OctantPlacement::from_index_spec(index as nat)),
            index >= 8 ==> r is None,
    {
        match index {
            0 => Some(OctantPlacement::LOWER_BOTTOM_LEFT),
            1 => Some(OctantPlacement::LOWER_TOP_LEFT),
            2 => Some(OctantPlacement::UPPER_BOTTOM_LEFT),
            3 => Some(OctantPlacement::UPPER_TOP_LEFT),
            4 => Some(OctantPlacement::LOWER_BOTTOM_RIGHT),
            5 => Some(OctantPlacement::LOWER_TOP_RIGHT),
            6 => Some(OctantPlacement::UPPER_BOTTOM_RIGHT),
            7 => Some(OctantPlacement::UPPER_TOP_RIGHT),
            _ => None,
        }
    }
}

/// Both placement digits and placement indices round-trip.
pub proof fn lemma_placement_index_bijective()
    ensures
        forall|p: OctantPlacement| OctantPlacement::from_index_spec(p.index_spec()) == p,
        forall|d: nat| d < 8 ==> #[trigger] OctantPlacement::from_index_spec(d).index_spec() == d,
{
    assert forall|p: OctantPlacement| OctantPlacement::from_index_spec(p.index_spec()) == p by {
        match p {
            OctantPlacement::LOWER_BOTTOM_LEFT => {},
            OctantPlacement::LOWER_TOP_LEFT => {},
            OctantPlacement::UPPER_BOTTOM_LEFT => {},
            OctantPlacement::UPPER_TOP_LEFT => {},
            OctantPlacement::LOWER_BOTTOM_RIGHT => {},
            OctantPlacement::LOWER_TOP_RIGHT => {},
            OctantPlacement::UPPER_BOTTOM_RIGHT => {},
            OctantPlacement::UPPER_TOP_RIGHT => {},
        }
    }
}

impl OctantPlacement {
    /// How many child placements an octant has.
    pub const OCTANTS_COUNT: usize = 8;

    /// The fixed placement order every array-returning operation follows.
    pub fn octants_ordered() -> (r: [OctantPlacement; 8])
        ensures
            forall|i: int| 0 <= i < 8 ==> #[trigger] r[i] == OctantPlacement::from_index_spec(
                i as nat,
            ),
    {
        let r = [
            OctantPlacement::LOWER_BOTTOM_LEFT,
            OctantPlacement::LOWER_TOP_LEFT,
            OctantPlacement::UPPER_BOTTOM_LEFT,
            OctantPlacement::UPPER_TOP_LEFT,
            OctantPlacement::LOWER_BOTTOM_RIGHT,
            OctantPlacement::LOWER_TOP_RIGHT,
            OctantPlacement::UPPER_BOTTOM_RIGHT,
            OctantPlacement::UPPER_TOP_RIGHT,
        ];
        assert(forall|i: int|
            0 <= i < 8 ==> #[trigger] r[i] == OctantPlacement::from_index_spec(i as nat));
        r
    }
}

/// One of the twenty-six directions toward an adjacent octant of the same
/// depth: six across a face, twelve across an edge, eight across a corner.
///
/// `U`/`D` move along the y axis, `N`/`S` along z, `E`/`W` along x.
#[derive(Debug, Copy, Clone, PartialEq, Eq, Structural)]
pub enum OctantNeighborDirection {
    U,
    D,
    N,
    S,
    E,
    W,
    NE,
    NW,
    SE,
    SW,
    UN,
    US,
    UE,
    UW,
    DN,
    DS,
    DE,
    DW,
    UNE,
    UNW,
    USE,
    USW,
    DNE,
    DNW,
    DSE,
    DSW,
}

impl OctantNeighborDirection {
    /// How many neighbor directions there are in all.
    pub const NEIGHBOR_DIRECTIONS_COUNT: usize = 26;

    /// How many face (axis-aligned) neighbor directions there are.
    pub const FACING_NEIGHBOR_DIRECTIONS_COUNT: usize = 6;

    /// How many edge and corner neighbor directions there are.
    pub const DIAGONAL_NEIGHBOR_DIRECTIONS_COUNT: usize = 20;

    /// The coordinate step this direction takes along the x axis.
    pub open spec fn offset_x(self) -> int {
        match self {
            OctantNeighborDirection::E | OctantNeighborDirection::NE
            | OctantNeighborDirection::SE | OctantNeighborDirection::UE
            | OctantNeighborDirection::DE | OctantNeighborDirection::UNE
            | OctantNeighborDirection::USE | OctantNeighborDirection::DNE
            | OctantNeighborDirection::DSE => 1,
            OctantNeighborDirection::W | OctantNeighborDirection::NW
            | OctantNeighborDirection::SW | OctantNeighborDirection::UW
            | OctantNeighborDirection::DW | OctantNeighborDirection::UNW
            | OctantNeighborDirection::USW | OctantNeighborDirection::DNW
            | OctantNeighborDirection::DSW => -1,
            _ => 0,
        }
    }

    /// The coordinate step this direction takes along the y axis.
    pub open spec fn offset_y(self) -> int {
        match self {
            OctantNeighborDirection::U | OctantNeighborDirection::UN
            | OctantNeighborDirection::US | OctantNeighborDirection::UE
            | OctantNeighborDirection::UW | OctantNeighborDirection::UNE
            | OctantNeighborDirection::UNW | OctantNeighborDirection::USE
            | OctantNeighborDirection::USW => 1,
            OctantNeighborDirection::D | OctantNeighborDirection::DN
            | OctantNeighborDirection::DS | OctantNeighborDirection::DE
            | OctantNeighborDirection::DW | OctantNeighborDirection::DNE
            | OctantNeighborDirection::DNW | OctantNeighborDirection::DSE
            | OctantNeighborDirection::DSW => -1,
            _ => 0,
        }
    }

    /// The coordinate step this direction takes along the z axis.
    pub open spec fn offset_z(self) -> int {
        match self {
            OctantNeighborDirection::N | OctantNeighborDirection::NE
            | OctantNeighborDirection::NW | OctantNeighborDirection::UN
            | OctantNeighborDirection::DN | OctantNeighborDirection::UNE
            | OctantNeighborDirection::UNW | OctantNeighborDirection::DNE
            | OctantNeighborDirection::DNW => 1,
            OctantNeighborDirection::S | OctantNeighborDirection::SE
            | OctantNeighborDirection::SW | OctantNeighborDirection::US
            | OctantNeighborDirection::DS | OctantNeighborDirection::USE
            | OctantNeighborDirection::USW | OctantNeighborDirection::DSE
            | OctantNeighborDirection::DSW => -1,
            _ => 0,
        }
    }

    /// The coordinate steps this direction takes, as `(x, y, z)`.
    pub fn offsets(&self) -> (r: (i32, i32, i32))
        ensures
            r.0 == self.offset_x(),
            r.1 == self.offset_y(),
            r.2 == self.offset_z(),
    {
        match self {
            OctantNeighborDirection::U => (0, 1, 0),
            OctantNeighborDirection::D => (0, -1, 0),
            OctantNeighborDirection::N => (0, 0, 1),
            OctantNeighborDirection::S => (0, 0, -1),
            OctantNeighborDirection::E => (1, 0, 0),
            OctantNeighborDirection::W => (-1, 0, 0),
            OctantNeighborDirection::NE => (1, 0, 1),
            OctantNeighborDirection::NW => (-1, 0, 1),
            OctantNeighborDirection::SE => (1, 0, -1),
            OctantNeighborDirection::SW => (-1, 0, -1),
            OctantNeighborDirection::UN => (0, 1, 1),
            OctantNeighborDirection::US => (0, 1, -1),
            OctantNeighborDirection::UE => (1, 1, 0),
            OctantNeighborDirection::UW => (-1, 1, 0),
            OctantNeighborDirection::DN => (0, -1, 1),
            OctantNeighborDirection::DS => (0, -1, -1),
            OctantNeighborDirection::DE => (1, -1, 0),
            OctantNeighborDirection::DW => (-1, -1, 0),
            OctantNeighborDirection::UNE => (1, 1, 1),
            OctantNeighborDirection::UNW => (-1, 1, 1),
            OctantNeighborDirection::USE => (1, 1, -1),
            OctantNeighborDirection::USW => (-1, 1, -1),
            OctantNeighborDirection::DNE => (1, -1, 1),
            OctantNeighborDirection::DNW => (-1, -1, 1),
            OctantNeighborDirection::DSE => (1, -1, -1),
            OctantNeighborDirection::DSW => (-1, -1, -1),
        }
    }

    /// The order `facing_directions` returns: the six face directions.
    pub open spec fn facing_directions_spec() -> Seq<OctantNeighborDirection> {
        seq![
            OctantNeighborDirection::U,
            OctantNeighborDirection::D,
            OctantNeighborDirection::N,
            OctantNeighborDirection::S,
            OctantNeighborDirection::E,
            OctantNeighborDirection::W,
        ]
    }

    /// The order `diagonal_directions` returns: the twelve edge and eight
    /// corner directions.
    pub open spec fn diagonal_directions_spec() -> Seq<OctantNeighborDirection> {
        seq![
            OctantNeighborDirection::NE,
            OctantNeighborDirection::NW,
            OctantNeighborDirection::SE,
            OctantNeighborDirection::SW,
            OctantNeighborDirection::UN,
            OctantNeighborDirection::US,
            OctantNeighborDirection::UE,
            OctantNeighborDirection::UW,
            OctantNeighborDirection::DN,
            OctantNeighborDirection::DS,
            OctantNeighborDirection::DE,
            OctantNeighborDirection::DW,
            OctantNeighborDirection::UNE,
            OctantNeighborDirection::UNW,
            OctantNeighborDirection::USE,
            OctantNeighborDirection::USW,
            OctantNeighborDirection::DNE,
            OctantNeighborDirection::DNW,
            OctantNeighborDirection::DSE,
            OctantNeighborDirection::DSW,
        ]
    }

    /// The six face directions, in the fixed order.
    pub fn facing_directions() -> (r: [OctantNeighborDirection; 6])
        ensures
            r@ == OctantNeighborDirection::facing_directions_spec(),
    {
        let r = [
            OctantNeighborDirection::U,
            OctantNeighborDirection::D,
            OctantNeighborDirection::N,
            OctantNeighborDirection::S,
            OctantNeighborDirection::E,
            OctantNeighborDirection::W,
        ];
        assert(r@ =~= OctantNeighborDirection::facing_directions_spec());
        r
    }

    /// The twelve edge and eight corner directions, in the fixed order.
    pub fn diagonal_directions() -> (r: [OctantNeighborDirection; 20])
        ensures
            r@ == OctantNeighborDirection::diagonal_directions_spec(),
    {
        let r = [
            OctantNeighborDirection::NE,
            OctantNeighborDirection::NW,
            OctantNeighborDirection::SE,
            OctantNeighborDirection::SW,
            OctantNeighborDirection::UN,
            OctantNeighborDirection::US,
            OctantNeighborDirection::UE,
            OctantNeighborDirection::UW,
            OctantNeighborDirection::DN,
            OctantNeighborDirection::DS,
            OctantNeighborDirection::DE,
            OctantNeighborDirection::DW,
            OctantNeighborDirection::UNE,
            OctantNeighborDirection::UNW,
            OctantNeighborDirection::USE,
            OctantNeighborDirection::USW,
            OctantNeighborDirection::DNE,
            OctantNeighborDirection::DNW,
            OctantNeighborDirection::DSE,
            OctantNeighborDirection::DSW,
        ];
        assert(r@ =~= OctantNeighborDirection::diagonal_directions_spec());
        r
    }

    /// All twenty-six directions, faces first, then edges, then corners.
    pub fn all_directions() -> (r: [OctantNeighborDirection; 26])
        ensures
            r@ == OctantNeighborDirection::all_directions_spec(),
    {
        let r = [
            OctantNeighborDirection::U,
            OctantNeighborDirection::D,
            OctantNeighborDirection::N,
            OctantNeighborDirection::S,
            OctantNeighborDirection::E,
            OctantNeighborDirection::W,
            OctantNeighborDirection::NE,
            OctantNeighborDirection::NW,
            OctantNeighborDirection::SE,
            OctantNeighborDirection::SW,
            OctantNeighborDirection::UN,
            OctantNeighborDirection::US,
            OctantNeighborDirection::UE,
            OctantNeighborDirection::UW,
            OctantNeighborDirection::DN,
            OctantNeighborDirection::DS,
            OctantNeighborDirection::DE,
            OctantNeighborDirection::DW,
            OctantNeighborDirection::UNE,
            OctantNeighborDirection::UNW,
            OctantNeighborDirection::USE,
            OctantNeighborDirection::USW,
            OctantNeighborDirection::DNE,
            OctantNeighborDirection::DNW,
            OctantNeighborDirection::DSE,
            OctantNeighborDirection::DSW,
        ];
        assert(r@ =~= OctantNeighborDirection::all_directions_spec());
        r
    }

    /// The order `all_directions` returns.
    pub open spec fn all_directions_spec() -> Seq<OctantNeighborDirection> {
        seq![
            OctantNeighborDirection::U,
            OctantNeighborDirection::D,
            OctantNeighborDirection::N,
            OctantNeighborDirection::S,
            OctantNeighborDirection::E,
            OctantNeighborDirection::W,
            OctantNeighborDirection::NE,
            OctantNeighborDirection::NW,
            OctantNeighborDirection::SE,
            OctantNeighborDirection::SW,
            OctantNeighborDirection::UN,
            OctantNeighborDirection::US,
            OctantNeighborDirection::UE,
            OctantNeighborDirection::UW,
            OctantNeighborDirection::DN,
            OctantNeighborDirection::DS,
            OctantNeighborDirection::DE,
            OctantNeighborDirection::DW,
            OctantNeighborDirection::UNE,
            OctantNeighborDirection::UNW,
            OctantNeighborDirection::USE,
            OctantNeighborDirection::USW,
            OctantNeighborDirection::DNE,
            OctantNeighborDirection::DNW,
            OctantNeighborDirection::DSE,
            OctantNeighborDirection::DSW,
        ]
    }
}


impl OctantPlacement {
    /// The three same-parent neighbors across a face, each with the
    /// direction that reaches it.
    pub open spec fn facing_neighbors_spec(p: OctantPlacement) -> Seq<
        (OctantNeighborDirection, OctantPlacement),
    > {
        match p {
            OctantPlacement::LOWER_BOTTOM_LEFT => seq![(OctantNeighborDirection::E, OctantPlacement::LOWER_BOTTOM_RIGHT), (OctantNeighborDirection::N, OctantPlacement::LOWER_TOP_LEFT), (OctantNeighborDirection::U, OctantPlacement::UPPER_BOTTOM_LEFT)],
            OctantPlacement::LOWER_TOP_LEFT => seq![(OctantNeighborDirection::E, OctantPlacement::LOWER_TOP_RIGHT), (OctantNeighborDirection::S, OctantPlacement::LOWER_BOTTOM_LEFT), (OctantNeighborDirection::U, OctantPlacement::UPPER_TOP_LEFT)],
            OctantPlacement::UPPER_BOTTOM_LEFT => seq![(OctantNeighborDirection::E, OctantPlacement::UPPER_BOTTOM_RIGHT), (OctantNeighborDirection::N, OctantPlacement::UPPER_TOP_LEFT), (OctantNeighborDirection::D, OctantPlacement::LOWER_BOTTOM_LEFT)],
            OctantPlacement::UPPER_TOP_LEFT => seq![(OctantNeighborDirection::E, OctantPlacement::UPPER_TOP_RIGHT), (OctantNeighborDirection::S, OctantPlacement::UPPER_BOTTOM_LEFT), (OctantNeighborDirection::D, OctantPlacement::LOWER_TOP_LEFT)],
            OctantPlacement::LOWER_BOTTOM_RIGHT => seq![(OctantNeighborDirection::W, OctantPlacement::LOWER_BOTTOM_LEFT), (OctantNeighborDirection::N, OctantPlacement::LOWER_TOP_RIGHT), (OctantNeighborDirection::U, OctantPlacement::UPPER_BOTTOM_RIGHT)],
            OctantPlacement::LOWER_TOP_RIGHT => seq![(OctantNeighborDirection::W, OctantPlacement::LOWER_TOP_LEFT), (OctantNeighborDirection::S, OctantPlacement::LOWER_BOTTOM_RIGHT), (OctantNeighborDirection::U, OctantPlacement::UPPER_TOP_RIGHT)],
            OctantPlacement::UPPER_BOTTOM_RIGHT => seq![(OctantNeighborDirection::W, OctantPlacement::UPPER_BOTTOM_LEFT), (OctantNeighborDirection::N, OctantPlacement::UPPER_TOP_RIGHT), (OctantNeighborDirection::D, OctantPlacement::LOWER_BOTTOM_RIGHT)],
            OctantPlacement::UPPER_TOP_RIGHT => seq![(OctantNeighborDirection::W, OctantPlacement::UPPER_TOP_LEFT), (OctantNeighborDirection::S, OctantPlacement::UPPER_BOTTOM_RIGHT), (OctantNeighborDirection::D, OctantPlacement::LOWER_TOP_RIGHT)],
        }
    }

    /// The four same-parent neighbors across an edge or corner, each with
    /// the direction that reaches it.
    pub open spec fn diagonal_neighbors_spec(p: OctantPlacement) -> Seq<
        (OctantNeighborDirection, OctantPlacement),
    > {
        match p {
            OctantPlacement::LOWER_BOTTOM_LEFT => seq![(OctantNeighborDirection::UN, OctantPlacement::UPPER_TOP_LEFT), (OctantNeighborDirection::UE, OctantPlacement::UPPER_BOTTOM_RIGHT), (OctantNeighborDirection::UNE, OctantPlacement::UPPER_TOP_RIGHT), (OctantNeighborDirection::NE, OctantPlacement::LOWER_TOP_RIGHT)],
            OctantPlacement::LOWER_TOP_LEFT => seq![(OctantNeighborDirection::US, OctantPlacement::UPPER_BOTTOM_LEFT), (OctantNeighborDirection::UE, OctantPlacement::UPPER_TOP_RIGHT), (OctantNeighborDirection::USE, OctantPlacement::UPPER_BOTTOM_RIGHT), (OctantNeighborDirection::SE, OctantPlacement::LOWER_BOTTOM_RIGHT)],
            OctantPlacement::UPPER_BOTTOM_LEFT => seq![(OctantNeighborDirection::DN, OctantPlacement::LOWER_TOP_LEFT), (OctantNeighborDirection::DE, OctantPlacement::LOWER_BOTTOM_RIGHT), (OctantNeighborDirection::DNE, OctantPlacement::LOWER_TOP_RIGHT), (OctantNeighborDirection::NE, OctantPlacement::UPPER_TOP_RIGHT)],
            OctantPlacement::UPPER_TOP_LEFT => seq![(OctantNeighborDirection::DS, OctantPlacement::LOWER_BOTTOM_LEFT), (OctantNeighborDirection::DE, OctantPlacement::LOWER_TOP_RIGHT), (OctantNeighborDirection::DSE, OctantPlacement::LOWER_BOTTOM_RIGHT), (OctantNeighborDirection::SE, OctantPlacement::UPPER_BOTTOM_RIGHT)],
            OctantPlacement::LOWER_BOTTOM_RIGHT => seq![(OctantNeighborDirection::UN, OctantPlacement::UPPER_TOP_RIGHT), (OctantNeighborDirection::UW, OctantPlacement::UPPER_BOTTOM_LEFT), (OctantNeighborDirection::UNW, OctantPlacement::UPPER_TOP_LEFT), (OctantNeighborDirection::NW, OctantPlacement::LOWER_TOP_LEFT)],
            OctantPlacement::LOWER_TOP_RIGHT => seq![(OctantNeighborDirection::US, OctantPlacement::UPPER_BOTTOM_RIGHT), (OctantNeighborDirection::UW, OctantPlacement::UPPER_TOP_LEFT), (OctantNeighborDirection::USW, OctantPlacement::UPPER_BOTTOM_LEFT), (OctantNeighborDirection::SW, OctantPlacement::LOWER_BOTTOM_LEFT)],
            OctantPlacement::UPPER_BOTTOM_RIGHT => seq![(OctantNeighborDirection::DN, OctantPlacement::LOWER_TOP_RIGHT), (OctantNeighborDirection::DW, OctantPlacement::LOWER_BOTTOM_LEFT), (OctantNeighborDirection::DNW, OctantPlacement::LOWER_TOP_LEFT), (OctantNeighborDirection::NW, OctantPlacement::UPPER_TOP_LEFT)],
            OctantPlacement::UPPER_TOP_RIGHT => seq![(OctantNeighborDirection::DS, OctantPlacement::LOWER_BOTTOM_RIGHT), (OctantNeighborDirection::DW, OctantPlacement::LOWER_TOP_LEFT), (OctantNeighborDirection::DSW, OctantPlacement::LOWER_BOTTOM_LEFT), (OctantNeighborDirection::SW, OctantPlacement::UPPER_BOTTOM_LEFT)],
        }
    }

    /// The three same-parent face neighbors of `octant_placement`.
    pub fn facing_neighbors_for(octant_placement: OctantPlacement) -> (r: [
        (OctantNeighborDirection, OctantPlacement); 3])
        ensures
            r@ == OctantPlacement::facing_neighbors_spec(octant_placement),
    {
        let r = match octant_placement {
            OctantPlacement::LOWER_BOTTOM_LEFT => [(OctantNeighborDirection::E, OctantPlacement::LOWER_BOTTOM_RIGHT), (OctantNeighborDirection::N, OctantPlacement::LOWER_TOP_LEFT), (OctantNeighborDirection::U, OctantPlacement::UPPER_BOTTOM_LEFT)],
            OctantPlacement::LOWER_TOP_LEFT => [(OctantNeighborDirection::E, OctantPlacement::LOWER_TOP_RIGHT), (OctantNeighborDirection::S, OctantPlacement::LOWER_BOTTOM_LEFT), (OctantNeighborDirection::U, OctantPlacement::UPPER_TOP_LEFT)],
            OctantPlacement::UPPER_BOTTOM_LEFT => [(OctantNeighborDirection::E, OctantPlacement::UPPER_BOTTOM_RIGHT), (OctantNeighborDirection::N, OctantPlacement::UPPER_TOP_LEFT), (OctantNeighborDirection::D, OctantPlacement::LOWER_BOTTOM_LEFT)],
            OctantPlacement::UPPER_TOP_LEFT => [(OctantNeighborDirection::E, OctantPlacement::UPPER_TOP_RIGHT), (OctantNeighborDirection::S, OctantPlacement::UPPER_BOTTOM_LEFT), (OctantNeighborDirection::D, OctantPlacement::LOWER_TOP_LEFT)],
            OctantPlacement::LOWER_BOTTOM_RIGHT => [(OctantNeighborDirection::W, OctantPlacement::LOWER_BOTTOM_LEFT), (OctantNeighborDirection::N, OctantPlacement::LOWER_TOP_RIGHT), (OctantNeighborDirection::U, OctantPlacement::UPPER_BOTTOM_RIGHT)],
            OctantPlacement::LOWER_TOP_RIGHT => [(OctantNeighborDirection::W, OctantPlacement::LOWER_TOP_LEFT), (OctantNeighborDirection::S, OctantPlacement::LOWER_BOTTOM_RIGHT), (OctantNeighborDirection::U, OctantPlacement::UPPER_TOP_RIGHT)],
            OctantPlacement::UPPER_BOTTOM_RIGHT => [(OctantNeighborDirection::W, OctantPlacement::UPPER_BOTTOM_LEFT), (OctantNeighborDirection::N, OctantPlacement::UPPER_TOP_RIGHT), (OctantNeighborDirection::D, OctantPlacement::LOWER_BOTTOM_RIGHT)],
            OctantPlacement::UPPER_TOP_RIGHT => [(OctantNeighborDirection::W, OctantPlacement::UPPER_TOP_LEFT), (OctantNeighborDirection::S, OctantPlacement::UPPER_BOTTOM_RIGHT), (OctantNeighborDirection::D, OctantPlacement::LOWER_TOP_RIGHT)],
        };
        proof {
            assert(r@ =~= OctantPlacement::facing_neighbors_spec(octant_placement));
        }
        r
    }

    /// The four same-parent edge and corner neighbors of `octant_placement`.
    pub fn diagonal_neighbors_for(octant_placement: OctantPlacement) -> (r: [
        (OctantNeighborDirection, OctantPlacement); 4])
        ensures
            r@ == OctantPlacement::diagonal_neighbors_spec(octant_placement),
    {
        let r = match octant_placement {
            OctantPlacement::LOWER_BOTTOM_LEFT => [(OctantNeighborDirection::UN, OctantPlacement::UPPER_TOP_LEFT), (OctantNeighborDirection::UE, OctantPlacement::UPPER_BOTTOM_RIGHT), (OctantNeighborDirection::UNE, OctantPlacement::UPPER_TOP_RIGHT), (OctantNeighborDirection::NE, OctantPlacement::LOWER_TOP_RIGHT)],
            OctantPlacement::LOWER_TOP_LEFT => [(OctantNeighborDirection::US, OctantPlacement::UPPER_BOTTOM_LEFT), (OctantNeighborDirection::UE, OctantPlacement::UPPER_TOP_RIGHT), (OctantNeighborDirection::USE, OctantPlacement::UPPER_BOTTOM_RIGHT), (OctantNeighborDirection::SE, OctantPlacement::LOWER_BOTTOM_RIGHT)],
            OctantPlacement::UPPER_BOTTOM_LEFT => [(OctantNeighborDirection::DN, OctantPlacement::LOWER_TOP_LEFT), (OctantNeighborDirection::DE, OctantPlacement::LOWER_BOTTOM_RIGHT), (OctantNeighborDirection::DNE, OctantPlacement::LOWER_TOP_RIGHT), (OctantNeighborDirection::NE, OctantPlacement::UPPER_TOP_RIGHT)],
            OctantPlacement::UPPER_TOP_LEFT => [(OctantNeighborDirection::DS, OctantPlacement::LOWER_BOTTOM_LEFT), (OctantNeighborDirection::DE, OctantPlacement::LOWER_TOP_RIGHT), (OctantNeighborDirection::DSE, OctantPlacement::LOWER_BOTTOM_RIGHT), (OctantNeighborDirection::SE, OctantPlacement::UPPER_BOTTOM_RIGHT)],
            OctantPlacement::LOWER_BOTTOM_RIGHT => [(OctantNeighborDirection::UN, OctantPlacement::UPPER_TOP_RIGHT), (OctantNeighborDirection::UW, OctantPlacement::UPPER_BOTTOM_LEFT), (OctantNeighborDirection::UNW, OctantPlacement::UPPER_TOP_LEFT), (OctantNeighborDirection::NW, OctantPlacement::LOWER_TOP_LEFT)],
            OctantPlacement::LOWER_TOP_RIGHT => [(OctantNeighborDirection::US, OctantPlacement::UPPER_BOTTOM_RIGHT), (OctantNeighborDirection::UW, OctantPlacement::UPPER_TOP_LEFT), (OctantNeighborDirection::USW, OctantPlacement::UPPER_BOTTOM_LEFT), (OctantNeighborDirection::SW, OctantPlacement::LOWER_BOTTOM_LEFT)],
            OctantPlacement::UPPER_BOTTOM_RIGHT => [(OctantNeighborDirection::DN, OctantPlacement::LOWER_TOP_RIGHT), (OctantNeighborDirection::DW, OctantPlacement::LOWER_BOTTOM_LEFT), (OctantNeighborDirection::DNW, OctantPlacement::LOWER_TOP_LEFT), (OctantNeighborDirection::NW, OctantPlacement::UPPER_TOP_LEFT)],
            OctantPlacement::UPPER_TOP_RIGHT => [(OctantNeighborDirection::DS, OctantPlacement::LOWER_BOTTOM_RIGHT), (OctantNeighborDirection::DW, OctantPlacement::LOWER_TOP_LEFT), (OctantNeighborDirection::DSW, OctantPlacement::LOWER_BOTTOM_LEFT), (OctantNeighborDirection::SW, OctantPlacement::UPPER_BOTTOM_LEFT)],
        };
        proof {
            assert(r@ =~= OctantPlacement::diagonal_neighbors_spec(octant_placement));
        }
        r
    }

    /// All seven same-parent neighbors of `octant_placement`, faces first.
    pub fn all_neighbors_for(octant_placement: OctantPlacement) -> (r: [
        (OctantNeighborDirection, OctantPlacement); 7])
        ensures
            r@ == OctantPlacement::facing_neighbors_spec(octant_placement)
                + OctantPlacement::diagonal_neighbors_spec(octant_placement),
    {
        let r = match octant_placement {
            OctantPlacement::LOWER_BOTTOM_LEFT => [(OctantNeighborDirection::E, OctantPlacement::LOWER_BOTTOM_RIGHT), (OctantNeighborDirection::N, OctantPlacement::LOWER_TOP_LEFT), (OctantNeighborDirection::U, OctantPlacement::UPPER_BOTTOM_LEFT), (OctantNeighborDirection::UN, OctantPlacement::UPPER_TOP_LEFT), (OctantNeighborDirection::UE, OctantPlacement::UPPER_BOTTOM_RIGHT), (OctantNeighborDirection::UNE, OctantPlacement::UPPER_TOP_RIGHT), (OctantNeighborDirection::NE, OctantPlacement::LOWER_TOP_RIGHT)],
            OctantPlacement::LOWER_TOP_LEFT => [(OctantNeighborDirection::E, OctantPlacement::LOWER_TOP_RIGHT), (OctantNeighborDirection::S, OctantPlacement::LOWER_BOTTOM_LEFT), (OctantNeighborDirection::U, OctantPlacement::UPPER_TOP_LEFT), (OctantNeighborDirection::US, OctantPlacement::UPPER_BOTTOM_LEFT), (OctantNeighborDirection::UE, OctantPlacement::UPPER_TOP_RIGHT), (OctantNeighborDirection::USE, OctantPlacement::UPPER_BOTTOM_RIGHT), (OctantNeighborDirection::SE, OctantPlacement::LOWER_BOTTOM_RIGHT)],
            OctantPlacement::UPPER_BOTTOM_LEFT => [(OctantNeighborDirection::E, OctantPlacement::UPPER_BOTTOM_RIGHT), (OctantNeighborDirection::N, OctantPlacement::UPPER_TOP_LEFT), (OctantNeighborDirection::D, OctantPlacement::LOWER_BOTTOM_LEFT), (OctantNeighborDirection::DN, OctantPlacement::LOWER_TOP_LEFT), (OctantNeighborDirection::DE, OctantPlacement::LOWER_BOTTOM_RIGHT), (OctantNeighborDirection::DNE, OctantPlacement::LOWER_TOP_RIGHT), (OctantNeighborDirection::NE, OctantPlacement::UPPER_TOP_RIGHT)],
            OctantPlacement::UPPER_TOP_LEFT => [(OctantNeighborDirection::E, OctantPlacement::UPPER_TOP_RIGHT), (OctantNeighborDirection::S, OctantPlacement::UPPER_BOTTOM_LEFT), (OctantNeighborDirection::D, OctantPlacement::LOWER_TOP_LEFT), (OctantNeighborDirection::DS, OctantPlacement::LOWER_BOTTOM_LEFT), (OctantNeighborDirection::DE, OctantPlacement::LOWER_TOP_RIGHT), (OctantNeighborDirection::DSE, OctantPlacement::LOWER_BOTTOM_RIGHT), (OctantNeighborDirection::SE, OctantPlacement::UPPER_BOTTOM_RIGHT)],
            OctantPlacement::LOWER_BOTTOM_RIGHT => [(OctantNeighborDirection::W, OctantPlacement::LOWER_BOTTOM_LEFT), (OctantNeighborDirection::N, OctantPlacement::LOWER_TOP_RIGHT), (OctantNeighborDirection::U, OctantPlacement::UPPER_BOTTOM_RIGHT), (OctantNeighborDirection::UN, OctantPlacement::UPPER_TOP_RIGHT), (OctantNeighborDirection::UW, OctantPlacement::UPPER_BOTTOM_LEFT), (OctantNeighborDirection::UNW, OctantPlacement::UPPER_TOP_LEFT), (OctantNeighborDirection::NW, OctantPlacement::LOWER_TOP_LEFT)],
            OctantPlacement::LOWER_TOP_RIGHT => [(OctantNeighborDirection::W, OctantPlacement::LOWER_TOP_LEFT), (OctantNeighborDirection::S, OctantPlacement::LOWER_BOTTOM_RIGHT), (OctantNeighborDirection::U, OctantPlacement::UPPER_TOP_RIGHT), (OctantNeighborDirection::US, OctantPlacement::UPPER_BOTTOM_RIGHT), (OctantNeighborDirection::UW, OctantPlacement::UPPER_TOP_LEFT), (OctantNeighborDirection::USW, OctantPlacement::UPPER_BOTTOM_LEFT), (OctantNeighborDirection::SW, OctantPlacement::LOWER_BOTTOM_LEFT)],
            OctantPlacement::UPPER_BOTTOM_RIGHT => [(OctantNeighborDirection::W, OctantPlacement::UPPER_BOTTOM_LEFT), (OctantNeighborDirection::N, OctantPlacement::UPPER_TOP_RIGHT), (OctantNeighborDirection::D, OctantPlacement::LOWER_BOTTOM_RIGHT), (OctantNeighborDirection::DN, OctantPlacement::LOWER_TOP_RIGHT), (OctantNeighborDirection::DW, OctantPlacement::LOWER_BOTTOM_LEFT), (OctantNeighborDirection::DNW, OctantPlacement::LOWER_TOP_LEFT), (OctantNeighborDirection::NW, OctantPlacement::UPPER_TOP_LEFT)],
            OctantPlacement::UPPER_TOP_RIGHT => [(OctantNeighborDirection::W, OctantPlacement::UPPER_TOP_LEFT), (OctantNeighborDirection::S, OctantPlacement::UPPER_BOTTOM_RIGHT), (OctantNeighborDirection::D, OctantPlacement::LOWER_TOP_RIGHT), (OctantNeighborDirection::DS, OctantPlacement::LOWER_BOTTOM_RIGHT), (OctantNeighborDirection::DW, OctantPlacement::LOWER_TOP_LEFT), (OctantNeighborDirection::DSW, OctantPlacement::LOWER_BOTTOM_LEFT), (OctantNeighborDirection::SW, OctantPlacement::UPPER_BOTTOM_LEFT)],
        };
        proof {
            assert(r@ =~= OctantPlacement::facing_neighbors_spec(octant_placement)
                + OctantPlacement::diagonal_neighbors_spec(octant_placement));
        }
        r
    }
}


/// A table entry agrees with its direction: the listed placement is the
/// same-parent sibling whose axis bits differ from `p` by exactly the
/// direction's coordinate steps.
pub open spec fn neighbor_entry_consistent(
    p: OctantPlacement,
    e: (OctantNeighborDirection, OctantPlacement),
) -> bool {
    let d = e.0;
    let q = e.1;
    &&& (q.index_spec() / 4) as int == (p.index_spec() / 4) as int + d.offset_x()
    &&& ((q.index_spec() / 2) % 2) as int == ((p.index_spec() / 2) % 2) as int + d.offset_y()
    &&& (q.index_spec() % 2) as int == (p.index_spec() % 2) as int + d.offset_z()
}

/// The adjacency tables agree with the directions (law): every entry of
/// the facing and diagonal neighbor tables names the same-parent sibling
/// one step away in its listed direction.
#[verifier::rlimit(100)]
#[verifier::spinoff_prover]
pub proof fn lemma_neighbor_tables_consistent()
    ensures
        forall|p: OctantPlacement, k: int|
            0 <= k < 3 ==> neighbor_entry_consistent(
                p,
                #[trigger] OctantPlacement::facing_neighbors_spec(p)[k],
            ),
        forall|p: OctantPlacement, k: int|
            0 <= k < 4 ==> neighbor_entry_consistent(
                p,
                #[trigger] OctantPlacement::diagonal_neighbors_spec(p)[k],
            ),
{
    assert forall|p: OctantPlacement, k: int|
        0 <= k < 3 implies neighbor_entry_consistent(
        p,
        #[trigger] OctantPlacement::facing_neighbors_spec(p)[k],
    ) by {
        match p {
            OctantPlacement::LOWER_BOTTOM_LEFT => {
                assert(neighbor_entry_consistent(p, OctantPlacement::facing_neighbors_spec(p)[0]));
                assert(neighbor_entry_consistent(p, OctantPlacement::facing_neighbors_spec(p)[1]));
                assert(neighbor_entry_consistent(p, OctantPlacement::facing_neighbors_spec(p)[2]));
            },
            OctantPlacement::LOWER_TOP_LEFT => {
                assert(neighbor_entry_consistent(p, OctantPlacement::facing_neighbors_spec(p)[0]));
                assert(neighbor_entry_consistent(p, OctantPlacement::facing_neighbors_spec(p)[1]));
                assert(neighbor_entry_consistent(p, OctantPlacement::facing_neighbors_spec(p)[2]));
            },
            OctantPlacement::UPPER_BOTTOM_LEFT => {
                assert(neighbor_entry_consistent(p, OctantPlacement::facing_neighbors_spec(p)[0]));
                assert(neighbor_entry_consistent(p, OctantPlacement::facing_neighbors_spec(p)[1]));
                assert(neighbor_entry_consistent(p, OctantPlacement::facing_neighbors_spec(p)[2]));
            },
            OctantPlacement::UPPER_TOP_LEFT => {
                assert(neighbor_entry_consistent(p, OctantPlacement::facing_neighbors_spec(p)[0]));
                assert(neighbor_entry_consistent(p, OctantPlacement::facing_neighbors_spec(p)[1]));
                assert(neighbor_entry_consistent(p, OctantPlacement::facing_neighbors_spec(p)[2]));
            },
            OctantPlacement::LOWER_BOTTOM_RIGHT => {
                assert(neighbor_entry_consistent(p, OctantPlacement::facing_neighbors_spec(p)[0]));
                assert(neighbor_entry_consistent(p, OctantPlacement::facing_neighbors_spec(p)[1]));
                assert(neighbor_entry_consistent(p, OctantPlacement::facing_neighbors_spec(p)[2]));
            },
            OctantPlacement::LOWER_TOP_RIGHT => {
                assert(neighbor_entry_consistent(p, OctantPlacement::facing_neighbors_spec(p)[0]));
                assert(neighbor_entry_consistent(p, OctantPlacement::facing_neighbors_spec(p)[1]));
                assert(neighbor_entry_consistent(p, OctantPlacement::facing_neighbors_spec(p)[2]));
            },
            OctantPlacement::UPPER_BOTTOM_RIGHT => {
                assert(neighbor_entry_consistent(p, OctantPlacement::facing_neighbors_spec(p)[0]));
                assert(neighbor_entry_consistent(p, OctantPlacement::facing_neighbors_spec(p)[1]));
                assert(neighbor_entry_consistent(p, OctantPlacement::facing_neighbors_spec(p)[2]));
            },
            OctantPlacement::UPPER_TOP_RIGHT => {
                assert(neighbor_entry_consistent(p, OctantPlacement::facing_neighbors_spec(p)[0]));
                assert(neighbor_entry_consistent(p, OctantPlacement::facing_neighbors_spec(p)[1]));
                assert(neighbor_entry_consistent(p, OctantPlacement::facing_neighbors_spec(p)[2]));
            },
        }
    }
    assert forall|p: OctantPlacement, k: int|
        0 <= k < 4 implies neighbor_entry_consistent(
        p,
        #[trigger] OctantPlacement::diagonal_neighbors_spec(p)[k],
    ) by {
        match p {
            OctantPlacement::LOWER_BOTTOM_LEFT => {
                assert(neighbor_entry_consistent(p, OctantPlacement::diagonal_neighbors_spec(p)[0]));
                assert(neighbor_entry_consistent(p, OctantPlacement::diagonal_neighbors_spec(p)[1]));
                assert(neighbor_entry_consistent(p, OctantPlacement::diagonal_neighbors_spec(p)[2]));
                assert(neighbor_entry_consistent(p, OctantPlacement::diagonal_neighbors_spec(p)[3]));
            },
            OctantPlacement::LOWER_TOP_LEFT => {
                assert(neighbor_entry_consistent(p, OctantPlacement::diagonal_neighbors_spec(p)[0]));
                assert(neighbor_entry_consistent(p, OctantPlacement::diagonal_neighbors_spec(p)[1]));
                assert(neighbor_entry_consistent(p, OctantPlacement::diagonal_neighbors_spec(p)[2]));
                assert(neighbor_entry_consistent(p, OctantPlacement::diagonal_neighbors_spec(p)[3]));
            },
            OctantPlacement::UPPER_BOTTOM_LEFT => {
                assert(neighbor_entry_consistent(p, OctantPlacement::diagonal_neighbors_spec(p)[0]));
                assert(neighbor_entry_consistent(p, OctantPlacement::diagonal_neighbors_spec(p)[1]));
                assert(neighbor_entry_consistent(p, OctantPlacement::diagonal_neighbors_spec(p)[2]));
                assert(neighbor_entry_consistent(p, OctantPlacement::diagonal_neighbors_spec(p)[3]));
            },
            OctantPlacement::UPPER_TOP_LEFT => {
                assert(neighbor_entry_consistent(p, OctantPlacement::diagonal_neighbors_spec(p)[0]));
                assert(neighbor_entry_consistent(p, OctantPlacement::diagonal_neighbors_spec(p)[1]));
                assert(neighbor_entry_consistent(p, OctantPlacement::diagonal_neighbors_spec(p)[2]));
                assert(neighbor_entry_consistent(p, OctantPlacement::diagonal_neighbors_spec(p)[3]));
            },
            OctantPlacement::LOWER_BOTTOM_RIGHT => {
                assert(neighbor_entry_consistent(p, OctantPlacement::diagonal_neighbors_spec(p)[0]));
                assert(neighbor_entry_consistent(p, OctantPlacement::diagonal_neighbors_spec(p)[1]));
                assert(neighbor_entry_consistent(p, OctantPlacement::diagonal_neighbors_spec(p)[2]));
                assert(neighbor_entry_consistent(p, OctantPlacement::diagonal_neighbors_spec(p)[3]));
            },
            OctantPlacement::LOWER_TOP_RIGHT => {
                assert(neighbor_entry_consistent(p, OctantPlacement::diagonal_neighbors_spec(p)[0]));
                assert(neighbor_entry_consistent(p, OctantPlacement::diagonal_neighbors_spec(p)[1]));
                assert(neighbor_entry_consistent(p, OctantPlacement::diagonal_neighbors_spec(p)[2]));
                assert(neighbor_entry_consistent(p, OctantPlacement::diagonal_neighbors_spec(p)[3]));
            },
            OctantPlacement::UPPER_BOTTOM_RIGHT => {
                assert(neighbor_entry_consistent(p, OctantPlacement::diagonal_neighbors_spec(p)[0]));
                assert(neighbor_entry_consistent(p, OctantPlacement::diagonal_neighbors_spec(p)[1]));
                assert(neighbor_entry_consistent(p, OctantPlacement::diagonal_neighbors_spec(p)[2]));
                assert(neighbor_entry_consistent(p, OctantPlacement::diagonal_neighbors_spec(p)[3]));
            },
            OctantPlacement::UPPER_TOP_RIGHT => {
                assert(neighbor_entry_consistent(p, OctantPlacement::diagonal_neighbors_spec(p)[0]));
                assert(neighbor_entry_consistent(p, OctantPlacement::diagonal_neighbors_spec(p)[1]));
                assert(neighbor_entry_consistent(p, OctantPlacement::diagonal_neighbors_spec(p)[2]));
                assert(neighbor_entry_consistent(p, OctantPlacement::diagonal_neighbors_spec(p)[3]));
            },
        }
    }
}

} // verus!
