//! Agent-facing data: movement directions, tick actions, the combination of
//! per-axis movement impulses into one direction, and the tick-scoped
//! pending-move store that records each agent's committed action.

use vstd::prelude::*;

use crate::gene::Genome;
use crate::neural::NeuralNet;

verus! {

/// One of the eight unit moves on the grid.
#[derive(Copy, Clone, PartialEq, Eq, Structural, Debug)]
pub enum Direction {
    West,
    East,
    North,
    South,
    SouthWest,
    SouthEast,
    NorthWest,
    NorthEast,
}

/// What an agent does in one tick: move one cell, or stay put.
#[derive(Copy, Clone, PartialEq, Eq, Structural, Debug)]
pub enum Action {
    Move(Direction),
    Nothing,
}

/// Horizontal displacement of a direction (east is positive).
pub open spec fn dir_dx(d: Direction) -> int {
    match d {
        Direction::West => -1,
        Direction::East => 1,
        Direction::North => 0,
        Direction::South => 0,
        Direction::SouthWest => -1,
        Direction::SouthEast => 1,
        Direction::NorthWest => -1,
        Direction::NorthEast => 1,
    }
}

/// Vertical displacement of a direction (north is positive).
pub open spec fn dir_dy(d: Direction) -> int {
    match d {
        Direction::West => 0,
        Direction::East => 0,
        Direction::North => 1,
        Direction::South => -1,
        Direction::SouthWest => -1,
        Direction::SouthEast => -1,
        Direction::NorthWest => 1,
        Direction::NorthEast => 1,
    }
}

/// Sum of the horizontal components of the cardinal directions in `s`;
/// diagonal entries contribute nothing, as in the accumulation below.
pub open spec fn accum_dx(s: Seq<Direction>) -> int
    decreases s.len(),
{
    if s.len() == 0 {
        0
    } else {
        accum_dx(s.drop_last()) + match s.last() {
            Direction::West => -1int,
            Direction::East => 1int,
            _ => 0int,
        }
    }
}

/// Sum of the vertical components of the cardinal directions in `s`.
pub open spec fn accum_dy(s: Seq<Direction>) -> int
    decreases s.len(),
{
    if s.len() == 0 {
        0
    } else {
        accum_dy(s.drop_last()) + match s.last() {
            Direction::North => 1int,
            Direction::South => -1int,
            _ => 0int,
        }
    }
}

/// The direction that a pair of summed axis components stands for.
pub open spec fn combine_components(x: int, y: int) -> Option<Direction> {
    if x == 0 && y == 0 {
        None
    } else if x == 0 && y > 0 {
        Some(Direction::North)
    } else if x == 0 {
        Some(Direction::South)
    } else if y == 0 && x > 0 {
        Some(Direction::East)
    } else if y == 0 {
        Some(Direction::West)
    } else if x > 0 && y > 0 {
        Some(Direction::NorthEast)
    } else if x > 0 && y < 0 {
        Some(Direction::SouthEast)
    } else if x < 0 && y > 0 {
        Some(Direction::NorthWest)
    } else {
        Some(Direction::SouthWest)
    }
}

/// What `resolve_directions` returns: a single impulse passes through
/// unchanged; otherwise the cardinal components are summed and combined.
pub open spec fn resolve_directions_spec(s: Seq<Direction>) -> Option<Direction> {
    if s.len() == 1 {
        Some(s[0])
    } else {
        combine_components(accum_dx(s), accum_dy(s))
    }
}

/// Combines per-axis movement impulses into one final direction, or none
/// when the impulses cancel out.
pub fn resolve_directions(directions: Vec<Direction>) -> (r: Option<Direction>)
    ensures
        r == resolve_directions_spec(directions@),
{
    if directions.len() == 1 {
        return Some(directions[0]);
    }

    let mut dir_x: i128 = 0;
    let mut dir_y: i128 = 0;
    let mut i: usize = 0;
    while i < directions.len()
        invariant
            i <= directions@.len(),
            dir_x == accum_dx(directions@.take(i as int)),
            dir_y == accum_dy(directions@.take(i as int)),
            -(i as int) <= dir_x <= i as int,
            -(i as int) <= dir_y <= i as int,
        decreases directions@.len() - i,
    {
        proof {
            assert(directions@.take(i + 1).drop_last() =~= directions@.take(i as int));
            assert(directions@.take(i + 1).last() == directions@[i as int]);
        }
        match directions[i] {
            Direction::West => dir_x = dir_x - 1,
            Direction::East => dir_x = dir_x + 1,
            Direction::North => dir_y = dir_y + 1,
            Direction::South => dir_y = dir_y - 1,
            _ => {},
        }
        i += 1;
    }
    proof {
        assert(directions@.take(directions@.len() as int) =~= directions@);
    }

    if dir_x == 0 && dir_y == 0 {
        None
    } else if dir_x == 0 && dir_y > 0 {
        Some(Direction::North)
    } else if dir_x == 0 {
        Some(Direction::South)
    } else if dir_y == 0 && dir_x > 0 {
        Some(Direction::East)
    } else if dir_y == 0 {
        Some(Direction::West)
    } else if dir_x > 0 && dir_y > 0 {
        Some(Direction::NorthEast)
    } else if dir_x > 0 && dir_y < 0 {
        Some(Direction::SouthEast)
    } else if dir_x < 0 && dir_y > 0 {
        Some(Direction::NorthWest)
    } else {
        Some(Direction::SouthWest)
    }
}

/// A simulated agent: its brain, the genome the brain is encoded into,
/// and its integer grid position.
#[derive(Debug)]
pub struct Organism {
    pub brain: NeuralNet,
    pub genome: Genome,
    pub position: (usize, usize),
}

/// The tick-scoped pending-move map: destination cell to committed
/// `(agent identity, action)`. A later commit to the same cell overwrites,
/// as a map insert does; the resolver takes care never to do so.
pub struct OrganismUpdateStore {
    entries: Vec<((usize, usize), (u32, Action))>,
}

/// The map that an entry list stands for, later entries overriding earlier
/// ones with the same cell.
pub open spec fn assoc_map(s: Seq<((usize, usize), (u32, Action))>) -> Map<
    (int, int),
    (u32, Action),
>
    decreases s.len(),
{
    if s.len() == 0 {
        Map::empty()
    } else {
        assoc_map(s.drop_last()).insert(
            (s.last().0.0 as int, s.last().0.1 as int),
            s.last().1,
        )
    }
}

impl OrganismUpdateStore {
    /// The pending-move map this store holds.
    pub closed spec fn view(&self) -> Map<(int, int), (u32, Action)> {
        assoc_map(self.entries@)
    }

    pub fn new() -> (s: Self)
        ensures
            s@ == Map::<(int, int), (u32, Action)>::empty(),
    {
        OrganismUpdateStore { entries: Vec::new() }
    }

    /// Commits `(id, action)` at destination cell `position`.
    pub fn add_organism(&mut self, id: u32, position: (usize, usize), action: Action)
        ensures
            final(self)@ == old(self)@.insert(
                (position.0 as int, position.1 as int),
                (id, action),
            ),
    {
        self.entries.push((position, (id, action)));
        proof {
            assert(self.entries@.drop_last() =~= old(self).entries@);
        }
    }

    /// The entry committed at cell `position`, if any.
    pub fn get(&self, position: (usize, usize)) -> (r: Option<&(u32, Action)>)
        ensures
            match r {
                Some(v) => self@.contains_key((position.0 as int, position.1 as int)) && *v
                    == self@[(position.0 as int, position.1 as int)],
                None => !self@.contains_key((position.0 as int, position.1 as int)),
            },
    {
        let mut i: usize = self.entries.len();
        while i > 0
            invariant
                i <= self.entries@.len(),
                forall|j: int|
                    i <= j < self.entries@.len() ==> !(#[trigger] self.entries@[j].0.0
                        == position.0 && self.entries@[j].0.1 == position.1),
            decreases i,
        {
            i -= 1;
            let e = &self.entries[i];
            if e.0.0 == position.0 && e.0.1 == position.1 {
                proof {
                    lemma_assoc_found(self.entries@, i as int, position.0 as int, position.1 as int);
                }
                return Some(&e.1);
            }
        }
        proof {
            lemma_assoc_absent(self.entries@, position.0 as int, position.1 as int);
        }
        None
    }
}

/// If entry `i` matches `key` and no later entry does, the map holds entry
/// `i`'s value at `key`.
proof fn lemma_assoc_found(s: Seq<((usize, usize), (u32, Action))>, i: int, px: int, py: int)
    requires
        0 <= i < s.len(),
        s[i].0.0 == px,
        s[i].0.1 == py,
        forall|j: int| i < j < s.len() ==> !(#[trigger] s[j].0.0 == px && s[j].0.1 == py),
    ensures
        assoc_map(s).contains_key((px, py)),
        assoc_map(s)[(px, py)] == s[i].1,
    decreases s.len(),
{
    if i == s.len() - 1 {
        assert((s.last().0.0 as int, s.last().0.1 as int) == (px, py));
    } else {
        assert(!(s.last().0.0 == px && s.last().0.1 == py));
        assert((s.last().0.0 as int, s.last().0.1 as int) != (px, py));
        lemma_assoc_found(s.drop_last(), i, px, py);
    }
}

/// A key no entry matches is not in the map.
proof fn lemma_assoc_absent(s: Seq<((usize, usize), (u32, Action))>, px: int, py: int)
    requires
        forall|j: int| 0 <= j < s.len() ==> !(#[trigger] s[j].0.0 == px && s[j].0.1 == py),
    ensures
        !assoc_map(s).contains_key((px, py)),
    decreases s.len(),
{
    if s.len() > 0 {
        assert((s.last().0.0 as int, s.last().0.1 as int) != (px, py));
        lemma_assoc_absent(s.drop_last(), px, py);
    }
}

} // verus!
