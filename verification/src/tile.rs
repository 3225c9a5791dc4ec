//! What a single grid cell can hold.
//!
//! Conductors (`Wire`, `Cross`, `Via`) carry a signal with no delay and merge
//! into nets; drivers (`Switch`, `Source`, `Clock`, `Gate`) push a value onto
//! the nets they touch, each backed by a register; sinks (`Led`) only read.

use vstd::prelude::*;

verus! {

/// One of the four in-plane neighbours of a cell. `North` is `+y`, `East` is `+x`.
#[derive(Clone, Copy, PartialEq, Eq, Hash, Debug, Structural)]
pub enum Direction {
    North,
    East,
    South,
    West,
}

/// The four directions, clockwise from north.
pub open spec fn all_directions() -> Seq<Direction> {
    seq![Direction::North, Direction::East, Direction::South, Direction::West]
}

pub open spec fn delta_spec(d: Direction) -> (int, int) {
    match d {
        Direction::North => (0, 1),
        Direction::East => (1, 0),
        Direction::South => (0, -1),
        Direction::West => (-1, 0),
    }
}

pub open spec fn opposite_spec(d: Direction) -> Direction {
    match d {
        Direction::North => Direction::South,
        Direction::East => Direction::West,
        Direction::South => Direction::North,
        Direction::West => Direction::East,
    }
}

pub open spec fn rotate_cw_spec(d: Direction) -> Direction {
    match d {
        Direction::North => Direction::East,
        Direction::East => Direction::South,
        Direction::South => Direction::West,
        Direction::West => Direction::North,
    }
}

impl Direction {
    /// All four directions, in clockwise order from north.
    pub fn all() -> (r: [Direction; 4])
        ensures
            r@ == all_directions(),
    {
        let r = [Direction::North, Direction::East, Direction::South, Direction::West];
        assert(r@ =~= all_directions());
        r
    }

    /// In-plane `(dx, dy)` step for this direction.
    pub fn delta(self) -> (r: (i32, i32))
        ensures
            (r.0 as int, r.1 as int) == delta_spec(self),
    {
        match self {
            Direction::North => (0, 1),
            Direction::East => (1, 0),
            Direction::South => (0, -1),
            Direction::West => (-1, 0),
        }
    }

    /// The direction pointing the opposite way.
    pub fn opposite(self) -> (r: Direction)
        ensures
            r == opposite_spec(self),
    {
        match self {
            Direction::North => Direction::South,
            Direction::East => Direction::West,
            Direction::South => Direction::North,
            Direction::West => Direction::East,
        }
    }

    /// The next direction turning clockwise.
    pub fn rotate_cw(self) -> (r: Direction)
        ensures
            r == rotate_cw_spec(self),
    {
        match self {
            Direction::North => Direction::East,
            Direction::East => Direction::South,
            Direction::South => Direction::West,
            Direction::West => Direction::North,
        }
    }
}

/// Opposite is an involution, its step is the negated step, and four
/// clockwise turns come back to the start, with `opposite` being two turns.
pub proof fn lemma_direction_laws(d: Direction)
    ensures
        opposite_spec(opposite_spec(d)) == d,
        opposite_spec(d) != d,
        delta_spec(opposite_spec(d)).0 == -delta_spec(d).0,
        delta_spec(opposite_spec(d)).1 == -delta_spec(d).1,
        rotate_cw_spec(rotate_cw_spec(rotate_cw_spec(rotate_cw_spec(d)))) == d,
        rotate_cw_spec(rotate_cw_spec(d)) == opposite_spec(d),
        all_directions().contains(d),
{
    assert(all_directions()[match d {
        Direction::North => 0int,
        Direction::East => 1,
        Direction::South => 2,
        Direction::West => 3,
    }] == d);
}

/// The logic a gate performs over the nets on its input sides.
#[derive(Clone, Copy, PartialEq, Eq, Hash, Debug, Structural)]
pub enum GateKind {
    And,
    Or,
    Xor,
    Nand,
    Nor,
    Xnor,
    Buf,
    Not,
}

/// The contents of one cell on one layer.
#[derive(Clone, Copy, PartialEq, Eq, Hash, Debug, Structural)]
pub enum Tile {
    /// Nothing here.
    Empty,
    /// A conductor connecting all four in-plane sides.
    Wire,
    /// Two conductors crossing without touching: north–south apart from east–west.
    Cross,
    /// A conductor like `Wire` that also bridges to a `Via` directly above or below.
    Via,
    /// A logic gate driving the net on its `facing` side from the other three.
    Gate { kind: GateKind, facing: Direction },
    /// A player-toggleable input driving every net it touches.
    Switch,
    /// A constant source driving every net it touches.
    Source { on: bool },
    /// A free-running oscillator flipping each tick.
    Clock,
    /// An indicator lit when any net it touches is high.
    Led,
}

impl Default for Tile {
    fn default() -> (t: Tile)
        ensures
            t == Tile::Empty,
    {
        Tile::Empty
    }
}

pub open spec fn is_conductor_spec(t: Tile) -> bool {
    match t {
        Tile::Wire | Tile::Cross | Tile::Via => true,
        _ => false,
    }
}

pub open spec fn is_driver_spec(t: Tile) -> bool {
    match t {
        Tile::Switch | Tile::Source { .. } | Tile::Clock | Tile::Gate { .. } => true,
        _ => false,
    }
}

impl Tile {
    /// Whether this tile merges with neighbouring conductors into a net.
    pub fn is_conductor(self) -> (r: bool)
        ensures
            r == is_conductor_spec(self),
    {
        matches!(self, Tile::Wire | Tile::Cross | Tile::Via)
    }

    /// Whether this tile pushes a value onto the nets around it.
    pub fn is_driver(self) -> (r: bool)
        ensures
            r == is_driver_spec(self),
    {
        matches!(self, Tile::Switch | Tile::Source { .. } | Tile::Clock | Tile::Gate { .. })
    }
}

/// The three roles are disjoint: no tile both conducts and drives, and the
/// sink and the empty cell do neither.
pub proof fn lemma_tile_roles(t: Tile)
    ensures
        !(is_conductor_spec(t) && is_driver_spec(t)),
        t == Tile::Led ==> !is_conductor_spec(t) && !is_driver_spec(t),
        t == Tile::Empty ==> !is_conductor_spec(t) && !is_driver_spec(t),
{
}

} // verus!
