use vstd::prelude::*;

verus! {

/// The four cardinal directions in the following order: West, North, East, and South.
#[derive(Eq, PartialEq, Ord, PartialOrd, Copy, Clone, Hash, Debug, Structural)]
pub enum Cardinality {
    West,
    North,
    East,
    South,
}

impl Cardinality {
    /// Position of the direction in a node's neighbor array:
    /// West 0, North 1, East 2, South 3.
    pub open spec fn as_int(self) -> int {
        match self {
            Cardinality::West => 0,
            Cardinality::North => 1,
            Cardinality::East => 2,
            Cardinality::South => 3,
        }
    }

    /// The direction pointing the other way: West and East swap, North and South swap.
    pub open spec fn spec_opposite(self) -> Cardinality {
        match self {
            Cardinality::West => Cardinality::East,
            Cardinality::North => Cardinality::South,
            Cardinality::East => Cardinality::West,
            Cardinality::South => Cardinality::North,
        }
    }

    /// The direction in which a walk along a border advances from one
    /// neighbor to the next: a West chain is walked southward, a North chain
    /// eastward, an East chain northward, and a South chain westward.
    pub open spec fn spec_next_neighbor(self) -> Cardinality {
        match self {
            Cardinality::West => Cardinality::South,
            Cardinality::North => Cardinality::East,
            Cardinality::East => Cardinality::North,
            Cardinality::South => Cardinality::West,
        }
    }

    /// Return the opposite direction of a cardinality.
    pub fn opposite(&self) -> (r: Cardinality)
        ensures
            r == self.spec_opposite(),
    {
        match self {
            Cardinality::West => Cardinality::East,
            Cardinality::North => Cardinality::South,
            Cardinality::East => Cardinality::West,
            Cardinality::South => Cardinality::North,
        }
    }

    /// Return the succeeding neighbor direction: the direction used to step
    /// along a border when enumerating the neighbors on one side of a node.
    pub fn next_neighbor(&self) -> (r: Cardinality)
        ensures
            r == self.spec_next_neighbor(),
    {
        match self {
            Cardinality::West => Cardinality::South,
            Cardinality::North => Cardinality::East,
            Cardinality::East => Cardinality::North,
            Cardinality::South => Cardinality::West,
        }
    }

    /// Return the direction's position in a node's neighbor array.
    pub fn as_index(&self) -> (r: usize)
        ensures
            r == self.as_int(),
    {
        match self {
            Cardinality::West => 0,
            Cardinality::North => 1,
            Cardinality::East => 2,
            Cardinality::South => 3,
        }
    }
}

impl Cardinality {
    /// Return the direction occupying a given position in a node's neighbor
    /// array, if the position is below four.
    pub fn from_index(value: usize) -> (r: Option<Cardinality>)
        ensures
            match r {
                Some(d) => d.as_int() == value,
                None => value >= 4,
            },
    {
        match value {
            0 => Some(Cardinality::West),
            1 => Some(Cardinality::North),
            2 => Some(Cardinality::East),
            3 => Some(Cardinality::South),
            _ => None,
        }
    }
}

/// Taking the opposite of the opposite returns the original direction.
pub proof fn lemma_opposite_involutive(d: Cardinality)
    ensures
        d.spec_opposite().spec_opposite() == d,
{
}

/// The succeeding-neighbor rotation forms a four-cycle: applying it four
/// times returns the original direction.
pub proof fn lemma_next_neighbor_cycle(d: Cardinality)
    ensures
        d.spec_next_neighbor().spec_next_neighbor().spec_next_neighbor().spec_next_neighbor() == d,
{
}

/// The location of a quadtree child node in relation to its siblings.
/// In the following order: NorthWest, NorthEast, SouthWest, SouthEast.
#[derive(Eq, PartialEq, Ord, PartialOrd, Copy, Clone, Hash, Debug, Structural)]
pub enum Location {
    NorthWest,
    NorthEast,
    SouthWest,
    SouthEast,
}

impl Location {
    /// Position of the location in a node's children array:
    /// NorthWest 0, NorthEast 1, SouthWest 2, SouthEast 3.
    pub open spec fn as_int(self) -> int {
        match self {
            Location::NorthWest => 0,
            Location::NorthEast => 1,
            Location::SouthWest => 2,
            Location::SouthEast => 3,
        }
    }

    /// Return the location's position in a node's children array.
    pub fn as_index(&self) -> (r: usize)
        ensures
            r == self.as_int(),
    {
        match self {
            Location::NorthWest => 0,
            Location::NorthEast => 1,
            Location::SouthWest => 2,
            Location::SouthEast => 3,
        }
    }

    /// Return the location occupying a given position in a node's children
    /// array, if the position is below four.
    pub fn from_index(value: usize) -> (r: Option<Location>)
        ensures
            match r {
                Some(loc) => loc.as_int() == value,
                None => value >= 4,
            },
    {
        match value {
            0 => Some(Location::NorthWest),
            1 => Some(Location::NorthEast),
            2 => Some(Location::SouthWest),
            3 => Some(Location::SouthEast),
            _ => None,
        }
    }
}

} // verus!
