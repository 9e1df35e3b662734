//! The tick kernel: conflict resolution of all agents' movement intents
//! over a frozen occupancy snapshot, and the driver that applies the
//! resolved actions.
//!
//! Within one tick every agent's intent — already drawn by its brain — is
//! turned into a final `Move` or `Nothing` such that no two agents end on
//! the same cell and nobody moves through an agent that stays. Resolution
//! chases the chain "who must vacate before I can move" depth-first with an
//! explicit stack and an in-progress marker per agent, so a dependency
//! cycle degrades to staying put instead of recursing forever.

use vstd::prelude::*;

use crate::organism::{Action, Direction, OrganismUpdateStore, dir_dx, dir_dy};
use crate::utils::{Grid2d, lemma_index_in_range};

verus! {

/// The simulation surface of the core: the occupancy snapshot of the grid.
pub struct Environment {
    pub organisms: Grid2d,
}

impl Environment {
    pub fn new(width: usize, height: usize) -> (e: Environment)
        requires
            width * height <= usize::MAX,
        ensures
            e.organisms.width == width,
            e.organisms.height == height,
            e.organisms.wf(),
            forall|x: int, y: int|
                0 <= x < width && 0 <= y < height ==> #[trigger] e.organisms.cell(x, y) == 0,
    {
        Environment { organisms: Grid2d::new(width, height) }
    }
}

/// How one agent is recorded during a tick's resolution.
#[derive(Copy, Clone, PartialEq, Eq, Structural, Debug)]
pub enum ResolveState {
    /// Not looked at yet.
    Unvisited,
    /// On the dependency chain being chased right now.
    InProgress,
    /// Committed, with the action that was committed.
    Resolved(Action),
}

/// Identities are non-zero (zero is the empty-cell sentinel) and unique.
pub open spec fn pop_ids_ok(pop: Seq<(u32, (usize, usize))>) -> bool {
    &&& forall|i: int| 0 <= i < pop.len() ==> (#[trigger] pop[i]).0 != 0
    &&& forall|i: int, j: int| 0 <= i < j < pop.len() ==> pop[i].0 != pop[j].0
}

/// The frozen snapshot is sound: the grid mirrors the population exactly —
/// every agent stands in bounds on the cell that holds its identity, and
/// every occupied cell belongs to some agent.
pub open spec fn snapshot_wf(pop: Seq<(u32, (usize, usize))>, grid: Grid2d) -> bool {
    &&& grid.wf()
    &&& pop_ids_ok(pop)
    &&& forall|i: int|
        0 <= i < pop.len() ==> (#[trigger] pop[i]).1.0 < grid.width && pop[i].1.1 < grid.height
    &&& forall|i: int|
        0 <= i < pop.len() ==> grid.cell((#[trigger] pop[i]).1.0 as int, pop[i].1.1 as int)
            == pop[i].0
    &&& forall|x: int, y: int|
        0 <= x < grid.width && 0 <= y < grid.height && #[trigger] grid.cell(x, y) != 0 ==> (
        exists|i: int|
            0 <= i < pop.len() && (#[trigger] pop[i]).0 == grid.cell(x, y) && pop[i].1.0 == x
                && pop[i].1.1 == y)
}

/// The cell one step in direction `d` from `pos`.
pub open spec fn move_target(pos: (usize, usize), d: Direction) -> (int, int) {
    (pos.0 + dir_dx(d), pos.1 + dir_dy(d))
}

/// A cell that lies on the grid.
pub open spec fn cell_in_bounds(t: (int, int), grid: Grid2d) -> bool {
    0 <= t.0 < grid.width && 0 <= t.1 < grid.height
}

/// The cell an agent at `pos` ends on when its action is `a`.
pub open spec fn action_target(pos: (usize, usize), a: Action) -> (int, int) {
    match a {
        Action::Nothing => (pos.0 as int, pos.1 as int),
        Action::Move(d) => move_target(pos, d),
    }
}

/// A lawful action for agent `i`: staying is always lawful; a move must
/// follow the agent's own intent and land on the grid.
pub open spec fn action_lawful(
    pop: Seq<(u32, (usize, usize))>,
    intents: Seq<Option<Direction>>,
    grid: Grid2d,
    i: int,
    a: Action,
) -> bool {
    match a {
        Action::Nothing => true,
        Action::Move(d) => intents[i] == Some(d) && cell_in_bounds(move_target(pop[i].1, d), grid),
    }
}

/// Some agent carries identity `id`.
pub open spec fn has_agent(pop: Seq<(u32, (usize, usize))>, id: u32) -> bool {
    exists|i: int| 0 <= i < pop.len() && (#[trigger] pop[i]).0 == id
}

/// The index of the agent that carries identity `id`.
pub open spec fn agent_idx(pop: Seq<(u32, (usize, usize))>, id: u32) -> int {
    choose|i: int| 0 <= i < pop.len() && (#[trigger] pop[i]).0 == id
}

/// With unique identities, looking an agent's own identity up yields the
/// agent itself.
proof fn lemma_agent_idx_of(pop: Seq<(u32, (usize, usize))>, i: int)
    requires
        pop_ids_ok(pop),
        0 <= i < pop.len(),
    ensures
        has_agent(pop, pop[i].0),
        agent_idx(pop, pop[i].0) == i,
{
    assert(has_agent(pop, pop[i].0));
    let j = agent_idx(pop, pop[i].0);
    if i < j {
        assert(pop[i].0 != pop[j].0);
    } else if j < i {
        assert(pop[j].0 != pop[i].0);
    }
}

/// In a sound snapshot no two agents stand on the same cell.
pub proof fn lemma_no_collision(pop: Seq<(u32, (usize, usize))>, grid: Grid2d)
    requires
        snapshot_wf(pop, grid),
    ensures
        forall|i: int, j: int|
            0 <= i < j < pop.len() ==> !((#[trigger] pop[i]).1.0 == (#[trigger] pop[j]).1.0
                && pop[i].1.1 == pop[j].1.1),
{
    assert forall|i: int, j: int|
        0 <= i < j < pop.len() implies !((#[trigger] pop[i]).1.0 == (#[trigger] pop[j]).1.0
        && pop[i].1.1 == pop[j].1.1) by {
        if pop[i].1.0 == pop[j].1.0 && pop[i].1.1 == pop[j].1.1 {
            assert(grid.cell(pop[i].1.0 as int, pop[i].1.1 as int) == pop[i].0);
            assert(grid.cell(pop[j].1.0 as int, pop[j].1.1 as int) == pop[j].0);
            assert(pop[i].0 != pop[j].0);
        }
    }
}

/// The invariant the pending-move store and the per-agent states keep
/// throughout a tick's resolution:
/// every committed entry belongs to a resolved agent, sits at that agent's
/// final cell, and is lawful; every resolved agent has exactly that one
/// entry; and the cell of an agent not yet resolved is still unclaimed.
pub open spec fn resolution_inv(
    pop: Seq<(u32, (usize, usize))>,
    intents: Seq<Option<Direction>>,
    grid: Grid2d,
    store: Map<(int, int), (u32, Action)>,
    states: Seq<ResolveState>,
) -> bool {
    &&& states.len() == pop.len()
    &&& intents.len() == pop.len()
    &&& forall|k: (int, int)| #[trigger] store.contains_key(k) ==> {
        let id = store[k].0;
        let a = store[k].1;
        &&& has_agent(pop, id)
        &&& states[agent_idx(pop, id)] == ResolveState::Resolved(a)
        &&& k == action_target(pop[agent_idx(pop, id)].1, a)
        &&& action_lawful(pop, intents, grid, agent_idx(pop, id), a)
    }
    &&& forall|i: int|
        0 <= i < pop.len() ==> match #[trigger] states[i] {
            ResolveState::Resolved(a) => {
                &&& store.contains_key(action_target(pop[i].1, a))
                &&& store[action_target(pop[i].1, a)] == (pop[i].0, a)
                &&& action_lawful(pop, intents, grid, i, a)
            },
            _ => true,
        }
    &&& forall|i: int|
        0 <= i < pop.len() && !((#[trigger] states[i]) is Resolved) ==> !store.contains_key(
            (pop[i].1.0 as int, pop[i].1.1 as int),
        )
    &&& dests_distinct(pop, intents, grid) ==> (forall|i: int|
        0 <= i < pop.len() ==> match #[trigger] states[i] {
            ResolveState::Resolved(a) => (a is Move <==> vacates(pop, intents, grid, i)),
            _ => true,
        })
    &&& forall|i: int|
        0 <= i < pop.len() ==> match #[trigger] states[i] {
            ResolveState::Resolved(_) => match intents[i] {
                Some(d) => {
                    let t = move_target(pop[i].1, d);
                    (cell_in_bounds(t, grid) && grid.cell(t.0, t.1) == 0) ==> store.contains_key(t)
                },
                None => true,
            },
            _ => true,
        }
}

/// How many agents have not been looked at yet.
spec fn count_unvisited(states: Seq<ResolveState>) -> nat
    decreases states.len(),
{
    if states.len() == 0 {
        0
    } else {
        count_unvisited(states.drop_last()) + if states.last() is Unvisited {
            1nat
        } else {
            0nat
        }
    }
}

/// Marking an unvisited agent lowers the unvisited count.
proof fn lemma_count_unvisited_mark(states: Seq<ResolveState>, i: int, st: ResolveState)
    requires
        0 <= i < states.len(),
        states[i] is Unvisited,
        !(st is Unvisited),
    ensures
        count_unvisited(states.update(i, st)) < count_unvisited(states),
    decreases states.len(),
{
    if i == states.len() - 1 {
        assert(states.update(i, st).drop_last() =~= states.drop_last());
        assert(states.update(i, st).last() == st);
    } else {
        assert(states.update(i, st).drop_last() =~= states.drop_last().update(i, st));
        assert(states.update(i, st).last() == states.last());
        lemma_count_unvisited_mark(states.drop_last(), i, st);
    }
}

/// Re-marking an agent that was already visited keeps the count.
proof fn lemma_count_unvisited_keep(states: Seq<ResolveState>, i: int, st: ResolveState)
    requires
        0 <= i < states.len(),
        !(states[i] is Unvisited),
        !(st is Unvisited),
    ensures
        count_unvisited(states.update(i, st)) == count_unvisited(states),
    decreases states.len(),
{
    if i == states.len() - 1 {
        assert(states.update(i, st).drop_last() =~= states.drop_last());
        assert(states.update(i, st).last() == st);
    } else {
        assert(states.update(i, st).drop_last() =~= states.drop_last().update(i, st));
        assert(states.update(i, st).last() == states.last());
        lemma_count_unvisited_keep(states.drop_last(), i, st);
    }
}

/// The index of the agent carrying identity `id`.
fn find_agent(population: &Vec<(u32, (usize, usize))>, id: u32) -> (r: usize)
    requires
        has_agent(population@, id),
    ensures
        r < population@.len(),
        population@[r as int].0 == id,
{
    let mut i: usize = 0;
    while i < population.len()
        invariant
            i <= population@.len(),
            has_agent(population@, id),
            forall|j: int| 0 <= j < i ==> (#[trigger] population@[j]).0 != id,
        decreases population@.len() - i,
    {
        if population[i].0 == id {
            return i;
        }
        i += 1;
    }
    proof {
        let w = choose|j: int| 0 <= j < population@.len() && (#[trigger] population@[j]).0 == id;
        assert(population@[w].0 != id);
    }
    0
}

/// Some agent carries `id` and stands at `(x, y)`.
fn find_agent_at(population: &Vec<(u32, (usize, usize))>, id: u32, x: usize, y: usize) -> (r:
    bool)
    ensures
        r == (exists|i: int|
            0 <= i < population@.len() && (#[trigger] population@[i]).0 == id
                && population@[i].1.0 == x && population@[i].1.1 == y),
{
    let mut i: usize = 0;
    while i < population.len()
        invariant
            i <= population@.len(),
            forall|j: int|
                0 <= j < i ==> !((#[trigger] population@[j]).0 == id && population@[j].1.0 == x
                    && population@[j].1.1 == y),
        decreases population@.len() - i,
    {
        let e = population[i];
        if e.0 == id && e.1.0 == x && e.1.1 == y {
            proof {
                assert(population@[i as int].0 == id && population@[i as int].1.0 == x
                    && population@[i as int].1.1 == y);
            }
            return true;
        }
        i += 1;
    }
    false
}

/// Runtime check of the snapshot soundness the tick functions require,
/// for callers that assemble the world outside verified code.
pub fn check_snapshot(population: &Vec<(u32, (usize, usize))>, grid: &Grid2d) -> (r: bool)
    ensures
        r == snapshot_wf(population@, *grid),
{
    let len = grid.data.len();
    let ghost w = grid.width as int;
    let ghost h = grid.height as int;
    let dims_ok: bool = if grid.width == 0 || grid.height == 0 {
        len == 0
    } else {
        len % grid.height == 0 && len / grid.height == grid.width
    };
    proof {
        if grid.width == 0 || grid.height == 0 {
            assert(w * h == 0) by (nonlinear_arith)
                requires
                    w == 0 || h == 0,
            ;
        } else {
            assert((len as int % h == 0 && len as int / h == w) <==> len as int == w * h)
                by (nonlinear_arith)
                requires
                    h >= 1,
            ;
        }
    }
    if !dims_ok {
        return false;
    }
    let n = population.len();
    let mut i: usize = 0;
    while i < n
        invariant
            n == population@.len(),
            i <= n,
            grid.wf(),
            forall|j: int| 0 <= j < i ==> (#[trigger] population@[j]).0 != 0,
            forall|j: int|
                0 <= j < i ==> (#[trigger] population@[j]).1.0 < grid.width
                    && population@[j].1.1 < grid.height,
            forall|j: int|
                0 <= j < i ==> grid.cell(
                    (#[trigger] population@[j]).1.0 as int,
                    population@[j].1.1 as int,
                ) == population@[j].0,
            forall|j1: int, j2: int| 0 <= j1 < j2 < i ==> population@[j1].0 != population@[j2].0,
        decreases n - i,
    {
        let e = population[i];
        if e.0 == 0 {
            return false;
        }
        if !(e.1.0 < grid.width && e.1.1 < grid.height) {
            return false;
        }
        match grid.get(e.1.0, e.1.1) {
            Some(v) => if *v != e.0 {
                return false;
            },
            None => {
                return false;
            },
        }
        let mut j: usize = 0;
        while j < i
            invariant
                j <= i,
                i < n,
                n == population@.len(),
                e == population@[i as int],
                forall|j2: int| 0 <= j2 < j ==> population@[j2].0 != population@[i as int].0,
            decreases i - j,
        {
            if population[j].0 == e.0 {
                return false;
            }
            j += 1;
        }
        i += 1;
    }
    let mut x: usize = 0;
    while x < grid.width
        invariant
            n == population@.len(),
            grid.wf(),
            x <= grid.width,
            forall|j: int| 0 <= j < n ==> (#[trigger] population@[j]).0 != 0,
            forall|j: int|
                0 <= j < n ==> (#[trigger] population@[j]).1.0 < grid.width
                    && population@[j].1.1 < grid.height,
            forall|j: int|
                0 <= j < n ==> grid.cell(
                    (#[trigger] population@[j]).1.0 as int,
                    population@[j].1.1 as int,
                ) == population@[j].0,
            forall|j1: int, j2: int| 0 <= j1 < j2 < n ==> population@[j1].0 != population@[j2].0,
            forall|xx: int, yy: int|
                0 <= xx < x && 0 <= yy < grid.height && #[trigger] grid.cell(xx, yy) != 0 ==> (
                exists|i2: int|
                    0 <= i2 < population@.len() && (#[trigger] population@[i2]).0 == grid.cell(
                        xx,
                        yy,
                    ) && population@[i2].1.0 == xx && population@[i2].1.1 == yy),
        decreases grid.width - x,
    {
        let mut y: usize = 0;
        while y < grid.height
            invariant
                n == population@.len(),
                grid.wf(),
                x < grid.width,
                y <= grid.height,
                forall|j: int| 0 <= j < n ==> (#[trigger] population@[j]).0 != 0,
                forall|j: int|
                    0 <= j < n ==> (#[trigger] population@[j]).1.0 < grid.width
                        && population@[j].1.1 < grid.height,
                forall|j: int|
                    0 <= j < n ==> grid.cell(
                        (#[trigger] population@[j]).1.0 as int,
                        population@[j].1.1 as int,
                    ) == population@[j].0,
                forall|j1: int, j2: int|
                    0 <= j1 < j2 < n ==> population@[j1].0 != population@[j2].0,
                forall|xx: int, yy: int|
                    0 <= xx < x && 0 <= yy < grid.height && #[trigger] grid.cell(xx, yy) != 0 ==> (
                    exists|i2: int|
                        0 <= i2 < population@.len() && (#[trigger] population@[i2]).0 == grid.cell(
                            xx,
                            yy,
                        ) && population@[i2].1.0 == xx && population@[i2].1.1 == yy),
                forall|yy: int|
                    0 <= yy < y && #[trigger] grid.cell(x as int, yy) != 0 ==> (exists|i2: int|
                        0 <= i2 < population@.len() && (#[trigger] population@[i2]).0 == grid.cell(
                            x as int,
                            yy,
                        ) && population@[i2].1.0 == x as int && population@[i2].1.1 == yy),
            decreases grid.height - y,
        {
            match grid.get(x, y) {
                None => {},
                Some(v) => {
                    let id = *v;
                    if !find_agent_at(population, id, x, y) {
                        return false;
                    }
                },
            }
            y += 1;
        }
        x += 1;
    }
    true
}

/// The cell one step in direction `d` from `pos`, or nothing when that
/// step leaves the grid.
pub fn step_target(pos: (usize, usize), d: Direction, grid: &Grid2d) -> (r: Option<
    (usize, usize),
>)
    requires
        pos.0 < grid.width,
        pos.1 < grid.height,
    ensures
        match r {
            Some(t) => cell_in_bounds(move_target(pos, d), *grid) && t.0 == pos.0 + dir_dx(d)
                && t.1 == pos.1 + dir_dy(d),
            None => !cell_in_bounds(move_target(pos, d), *grid),
        },
{
    let (x, y) = pos;
    match d {
        Direction::West => if x > 0 {
            Some((x - 1, y))
        } else {
            None
        },
        Direction::East => if x + 1 < grid.width {
            Some((x + 1, y))
        } else {
            None
        },
        Direction::North => if y + 1 < grid.height {
            Some((x, y + 1))
        } else {
            None
        },
        Direction::South => if y > 0 {
            Some((x, y - 1))
        } else {
            None
        },
        Direction::SouthWest => if x > 0 && y > 0 {
            Some((x - 1, y - 1))
        } else {
            None
        },
        Direction::SouthEast => if x + 1 < grid.width && y > 0 {
            Some((x + 1, y - 1))
        } else {
            None
        },
        Direction::NorthWest => if x > 0 && y + 1 < grid.height {
            Some((x - 1, y + 1))
        } else {
            None
        },
        Direction::NorthEast => if x + 1 < grid.width && y + 1 < grid.height {
            Some((x + 1, y + 1))
        } else {
            None
        },
    }
}

/// The cell one step in direction `direction` from `position`, on the
/// unbounded plane.
pub fn calculate_new_position(direction: Direction, position: (i32, i32)) -> (r: (i32, i32))
    requires
        i32::MIN < position.0 < i32::MAX,
        i32::MIN < position.1 < i32::MAX,
    ensures
        r.0 == position.0 + dir_dx(direction),
        r.1 == position.1 + dir_dy(direction),
{
    match direction {
        Direction::West => (position.0 - 1, position.1),
        Direction::East => (position.0 + 1, position.1),
        Direction::North => (position.0, position.1 + 1),
        Direction::South => (position.0, position.1 - 1),
        Direction::SouthEast => (position.0 + 1, position.1 - 1),
        Direction::SouthWest => (position.0 - 1, position.1 - 1),
        Direction::NorthEast => (position.0 + 1, position.1 + 1),
        Direction::NorthWest => (position.0 - 1, position.1 + 1),
    }
}

/// Consecutive agents on the resolution stack are linked: the earlier one
/// intends an in-bounds move onto the cell the later one stands on.
spec fn stack_edge(
    pop: Seq<(u32, (usize, usize))>,
    intents: Seq<Option<Direction>>,
    grid: Grid2d,
    p: int,
    c: int,
) -> bool {
    &&& 0 <= p < pop.len()
    &&& 0 <= c < pop.len()
    &&& match intents[p] {
        None => false,
        Some(d) => {
            let t = move_target(pop[p].1, d);
            cell_in_bounds(t, grid) && grid.cell(t.0, t.1) == pop[c].0
        },
    }
}

/// What must hold of `(act, key)` the moment agent `a_idx` commits: the
/// cell is unclaimed, it is where the action ends, the action is lawful,
/// and no other still-unresolved agent stands on that cell.
spec fn commit_pre(
    pop: Seq<(u32, (usize, usize))>,
    intents: Seq<Option<Direction>>,
    grid: Grid2d,
    store: Map<(int, int), (u32, Action)>,
    states: Seq<ResolveState>,
    a_idx: int,
    act: Action,
    key: (usize, usize),
) -> bool {
    &&& !store.contains_key((key.0 as int, key.1 as int))
    &&& (key.0 as int, key.1 as int) == action_target(pop[a_idx].1, act)
    &&& action_lawful(pop, intents, grid, a_idx, act)
    &&& forall|i: int|
        0 <= i < pop.len() && i != a_idx && !((#[trigger] states[i]) is Resolved) ==> !(pop[i].1.0
            == key.0 && pop[i].1.1 == key.1)
    &&& dests_distinct(pop, intents, grid) ==> (act is Move <==> vacates(pop, intents, grid, a_idx))
    &&& match intents[a_idx] {
        Some(d) => {
            let t = move_target(pop[a_idx].1, d);
            (cell_in_bounds(t, grid) && grid.cell(t.0, t.1) == 0 && act is Nothing)
                ==> store.contains_key(t)
        },
        None => true,
    }
}

/// Marking an agent in progress keeps the resolution invariant.
proof fn lemma_mark_in_progress(
    pop: Seq<(u32, (usize, usize))>,
    intents: Seq<Option<Direction>>,
    grid: Grid2d,
    store: Map<(int, int), (u32, Action)>,
    states: Seq<ResolveState>,
    b: int,
)
    requires
        resolution_inv(pop, intents, grid, store, states),
        0 <= b < pop.len(),
        states[b] is Unvisited,
    ensures
        resolution_inv(pop, intents, grid, store, states.update(b, ResolveState::InProgress)),
{
    let states2 = states.update(b, ResolveState::InProgress);
    assert forall|k: (int, int)| #[trigger] store.contains_key(k) implies {
        let id = store[k].0;
        let a = store[k].1;
        &&& has_agent(pop, id)
        &&& states2[agent_idx(pop, id)] == ResolveState::Resolved(a)
        &&& k == action_target(pop[agent_idx(pop, id)].1, a)
        &&& action_lawful(pop, intents, grid, agent_idx(pop, id), a)
    } by {
        let id = store[k].0;
        assert(states[agent_idx(pop, id)] == ResolveState::Resolved(store[k].1));
        assert(agent_idx(pop, id) != b);
    }
    if dests_distinct(pop, intents, grid) {
        assert forall|i: int| 0 <= i < pop.len() implies match #[trigger] states2[i] {
            ResolveState::Resolved(a) => (a is Move <==> vacates(pop, intents, grid, i)),
            _ => true,
        } by {
            if i != b {
                assert(states2[i] == states[i]);
            }
        }
    }
    assert forall|i: int| 0 <= i < pop.len() implies match #[trigger] states2[i] {
        ResolveState::Resolved(_) => match intents[i] {
            Some(d) => {
                let t = move_target(pop[i].1, d);
                (cell_in_bounds(t, grid) && grid.cell(t.0, t.1) == 0) ==> store.contains_key(t)
            },
            None => true,
        },
        _ => true,
    } by {
        if i != b {
            assert(states2[i] == states[i]);
        }
    }
}

/// Committing `(act, key)` for an in-progress agent restores the
/// resolution invariant with the agent resolved and the entry inserted.
proof fn lemma_commit(
    pop: Seq<(u32, (usize, usize))>,
    intents: Seq<Option<Direction>>,
    grid: Grid2d,
    store: Map<(int, int), (u32, Action)>,
    states: Seq<ResolveState>,
    a_idx: int,
    act: Action,
    key: (usize, usize),
)
    requires
        snapshot_wf(pop, grid),
        resolution_inv(pop, intents, grid, store, states),
        0 <= a_idx < pop.len(),
        states[a_idx] is InProgress,
        commit_pre(pop, intents, grid, store, states, a_idx, act, key),
    ensures
        resolution_inv(
            pop,
            intents,
            grid,
            store.insert((key.0 as int, key.1 as int), (pop[a_idx].0, act)),
            states.update(a_idx, ResolveState::Resolved(act)),
        ),
{
    let kk = (key.0 as int, key.1 as int);
    let id_a = pop[a_idx].0;
    let store2 = store.insert(kk, (id_a, act));
    let states2 = states.update(a_idx, ResolveState::Resolved(act));
    lemma_agent_idx_of(pop, a_idx);
    assert forall|k: (int, int)| #[trigger] store2.contains_key(k) implies {
        let id = store2[k].0;
        let a = store2[k].1;
        &&& has_agent(pop, id)
        &&& states2[agent_idx(pop, id)] == ResolveState::Resolved(a)
        &&& k == action_target(pop[agent_idx(pop, id)].1, a)
        &&& action_lawful(pop, intents, grid, agent_idx(pop, id), a)
    } by {
        if k == kk {
            assert(agent_idx(pop, id_a) == a_idx);
        } else {
            assert(store.contains_key(k) && store2[k] == store[k]);
            let id = store[k].0;
            assert(states[agent_idx(pop, id)] == ResolveState::Resolved(store[k].1));
            assert(agent_idx(pop, id) != a_idx);
        }
    }
    assert forall|i: int| 0 <= i < pop.len() implies match #[trigger] states2[i] {
        ResolveState::Resolved(a) => {
            &&& store2.contains_key(action_target(pop[i].1, a))
            &&& store2[action_target(pop[i].1, a)] == (pop[i].0, a)
            &&& action_lawful(pop, intents, grid, i, a)
        },
        _ => true,
    } by {
        if i == a_idx {
            assert(store2.contains_key(kk) && store2[kk] == (id_a, act));
        } else {
            match states[i] {
                ResolveState::Resolved(a) => {
                    let ki = action_target(pop[i].1, a);
                    assert(store.contains_key(ki));
                    assert(ki != kk);
                },
                _ => {},
            }
        }
    }
    assert forall|i: int|
        0 <= i < pop.len() && !((#[trigger] states2[i]) is Resolved) implies !store2.contains_key(
        (pop[i].1.0 as int, pop[i].1.1 as int),
    ) by {
        assert(i != a_idx);
        assert(!(pop[i].1.0 == key.0 && pop[i].1.1 == key.1));
        assert(!store.contains_key((pop[i].1.0 as int, pop[i].1.1 as int)));
    }
    if dests_distinct(pop, intents, grid) {
        assert forall|i: int| 0 <= i < pop.len() implies match #[trigger] states2[i] {
            ResolveState::Resolved(a) => (a is Move <==> vacates(pop, intents, grid, i)),
            _ => true,
        } by {
            if i != a_idx {
                assert(states2[i] == states[i]);
            }
        }
    }
    assert forall|i: int| 0 <= i < pop.len() implies match #[trigger] states2[i] {
        ResolveState::Resolved(_) => match intents[i] {
            Some(d) => {
                let t = move_target(pop[i].1, d);
                (cell_in_bounds(t, grid) && grid.cell(t.0, t.1) == 0) ==> store2.contains_key(t)
            },
            None => true,
        },
        _ => true,
    } by {
        if i == a_idx {
            match act {
                Action::Move(d2) => {
                    assert(kk == action_target(pop[a_idx].1, act));
                },
                Action::Nothing => {},
            }
        } else {
            assert(states2[i] == states[i]);
        }
    }
}

/// An agent blocked by an in-progress ancestor sits on a closed
/// dependency loop along the resolution stack, so it does not vacate.
#[verifier::rlimit(50)]
proof fn lemma_cycle_blocked(
    pop: Seq<(u32, (usize, usize))>,
    intents: Seq<Option<Direction>>,
    grid: Grid2d,
    stack: Seq<usize>,
    a_idx: int,
    b_idx: int,
    d: Direction,
)
    requires
        pop_ids_ok(pop),
        stack.len() > 0,
        stack[stack.len() - 1] == a_idx,
        forall|st: int| 0 <= st < stack.len() ==> (#[trigger] stack[st]) < pop.len(),
        forall|st: int|
            0 <= st < stack.len() - 1 ==> stack_edge(
                pop,
                intents,
                grid,
                (#[trigger] stack[st]) as int,
                stack[st + 1] as int,
            ),
        exists|j: int| 0 <= j < stack.len() && (#[trigger] stack[j]) == b_idx,
        0 <= a_idx < pop.len(),
        0 <= b_idx < pop.len(),
        intents[a_idx] == Some(d),
        cell_in_bounds(move_target(pop[a_idx].1, d), grid),
        grid.cell(move_target(pop[a_idx].1, d).0, move_target(pop[a_idx].1, d).1) == pop[b_idx].0,
    ensures
        !vacates(pop, intents, grid, a_idx),
{
    let m = choose|j: int| 0 <= j < stack.len() && (#[trigger] stack[j]) == b_idx;
    let k = stack.len() - 1;
    let cyc = Set::new(|c: int| exists|j: int| m <= j <= k && (#[trigger] stack[j]) as int == c);
    assert(stack[k] as int == a_idx);
    assert(cyc.contains(a_idx));
    assert(cyc.contains(b_idx));
    assert forall|c: int| #[trigger] cyc.contains(c) implies 0 <= c < pop.len() && match intents[c] {
        None => false,
        Some(dc) => {
            let t = move_target(pop[c].1, dc);
            cell_in_bounds(t, grid) && grid.cell(t.0, t.1) != 0 && cyc.contains(
                agent_idx(pop, grid.cell(t.0, t.1)),
            )
        },
    } by {
        let j = choose|j: int| m <= j <= k && (#[trigger] stack[j]) as int == c;
        if j < k {
            assert(stack_edge(pop, intents, grid, stack[j] as int, stack[j + 1] as int));
            lemma_agent_idx_of(pop, stack[j + 1] as int);
            assert((#[trigger] stack[j + 1]) as int == stack[j + 1] as int);
            assert(cyc.contains(stack[j + 1] as int));
        } else {
            assert(c == a_idx);
            lemma_agent_idx_of(pop, b_idx);
            assert((#[trigger] stack[m]) as int == b_idx);
        }
    }
    assert(cycle_closed(pop, intents, grid, cyc));
    assert forall|fuel: nat| !vacates_fuel(pop, intents, grid, a_idx, fuel) by {
        lemma_cycle_stays(pop, intents, grid, cyc, a_idx, fuel);
    }
}

/// When the desired cell already carries a pending entry of another
/// agent, then — with all intended destinations distinct — that entry is
/// the stay-put commitment of the cell's occupant, so the mover's chain
/// fails and it does not vacate.
proof fn lemma_claimed_blocked(
    pop: Seq<(u32, (usize, usize))>,
    intents: Seq<Option<Direction>>,
    grid: Grid2d,
    store: Map<(int, int), (u32, Action)>,
    states: Seq<ResolveState>,
    a_idx: int,
    d: Direction,
    dest: (int, int),
)
    requires
        snapshot_wf(pop, grid),
        resolution_inv(pop, intents, grid, store, states),
        0 <= a_idx < pop.len(),
        states[a_idx] is InProgress,
        intents[a_idx] == Some(d),
        move_target(pop[a_idx].1, d) == dest,
        cell_in_bounds(dest, grid),
        store.contains_key(dest),
    ensures
        dests_distinct(pop, intents, grid) ==> !vacates(pop, intents, grid, a_idx),
{
    if dests_distinct(pop, intents, grid) {
        let o_id = store[dest].0;
        let o_act = store[dest].1;
        let owner = agent_idx(pop, o_id);
        assert(states[owner] == ResolveState::Resolved(o_act));
        match o_act {
            Action::Nothing => {
                assert((pop[owner].1.0 as int, pop[owner].1.1 as int) == dest);
                assert(grid.cell(dest.0, dest.1) == pop[owner].0);
                assert(!vacates(pop, intents, grid, owner));
                lemma_not_vacates_blocked(pop, intents, grid, a_idx, owner, d);
            },
            Action::Move(d_o) => {
                // two distinct agents with one in-bounds destination:
                // excluded by the hypothesis
                assert(owner != a_idx);
                assert(intents[owner] == Some(d_o));
                assert(move_target(pop[owner].1, d_o) == dest);
                assert(intents[a_idx] == Some(d));
                assert(false);
            },
        }
    }
}

/// Resolves agent `idx` for this tick: chases the chain of agents that
/// must vacate first, commits every action it settles into the
/// pending-move store, and returns the action of agent `idx`. An agent
/// that was already resolved gets its committed action back unchanged.
#[verifier::rlimit(50)]
pub fn poll_organism(
    population: &Vec<(u32, (usize, usize))>,
    intents: &Vec<Option<Direction>>,
    grid: &Grid2d,
    update_store: &mut OrganismUpdateStore,
    states: &mut Vec<ResolveState>,
    idx: usize,
) -> (action: Action)
    requires
        snapshot_wf(population@, *grid),
        intents@.len() == population@.len(),
        resolution_inv(population@, intents@, *grid, old(update_store)@, old(states)@),
        forall|i: int|
            0 <= i < old(states)@.len() ==> !((#[trigger] old(states)@[i]) is InProgress),
        idx < population@.len(),
    ensures
        resolution_inv(population@, intents@, *grid, final(update_store)@, final(states)@),
        forall|i: int|
            0 <= i < final(states)@.len() ==> !((#[trigger] final(states)@[i]) is InProgress),
        final(states)@.len() == old(states)@.len(),
        final(states)@[idx as int] == ResolveState::Resolved(action),
        forall|i: int|
            0 <= i < old(states)@.len() && (#[trigger] old(states)@[i]) is Resolved
                ==> final(states)@[i] == old(states)@[i],
        forall|k: (int, int)| #[trigger]
            old(update_store)@.contains_key(k) ==> final(update_store)@.contains_key(k)
                && final(update_store)@[k] == old(update_store)@[k],
        action_lawful(population@, intents@, *grid, idx as int, action),
        (intents@[idx as int] matches Some(d) && !cell_in_bounds(
            move_target(population@[idx as int].1, d),
            *grid,
        )) ==> action == Action::Nothing,
        intents@[idx as int] is None ==> action == Action::Nothing,
        (#[trigger] old(states)@[idx as int]) is Resolved ==> final(states)@ == old(states)@
            && final(update_store)@ == old(update_store)@ && old(states)@[idx as int]
            == ResolveState::Resolved(action),
{
    let st0 = states[idx];
    match st0 {
        ResolveState::Resolved(a) => {
            return a;
        },
        _ => {},
    }
    proof {
        lemma_mark_in_progress(
            population@,
            intents@,
            *grid,
            update_store@,
            states@,
            idx as int,
        );
    }
    let p0 = &mut states[idx];
    *p0 = ResolveState::InProgress;
    let mut stack: Vec<usize> = Vec::new();
    stack.push(idx);
    proof {
        assert forall|i: int|
            0 <= i < states@.len() && (#[trigger] states@[i]) is InProgress implies (exists|s: int|
            0 <= s < stack@.len() && #[trigger] stack@[s] == i) by {
            assert(i == idx);
            assert(stack@[0] == i);
        }
    }
    while stack.len() > 0
        invariant
            idx < population@.len(),
            snapshot_wf(population@, *grid),
            intents@.len() == population@.len(),
            states@.len() == population@.len(),
            resolution_inv(population@, intents@, *grid, update_store@, states@),
            forall|s: int|
                0 <= s < stack@.len() ==> (#[trigger] stack@[s]) < population@.len()
                    && states@[stack@[s] as int] is InProgress,
            forall|i: int|
                0 <= i < states@.len() && (#[trigger] states@[i]) is InProgress ==> (exists|s: int|
                    0 <= s < stack@.len() && #[trigger] stack@[s] == i),
            forall|s1: int, s2: int| 0 <= s1 < s2 < stack@.len() ==> stack@[s1] != stack@[s2],
            forall|s: int|
                0 <= s < stack@.len() - 1 ==> stack_edge(
                    population@,
                    intents@,
                    *grid,
                    (#[trigger] stack@[s]) as int,
                    stack@[s + 1] as int,
                ),
            stack@.len() > 0 ==> stack@[0] == idx,
            stack@.len() == 0 ==> states@[idx as int] is Resolved,
            forall|i: int|
                0 <= i < states@.len() && (#[trigger] old(states)@[i]) is Resolved ==> states@[i]
                    == old(states)@[i],
            forall|k: (int, int)| #[trigger]
                old(update_store)@.contains_key(k) ==> update_store@.contains_key(k)
                    && update_store@[k] == old(update_store)@[k],
        decreases count_unvisited(states@), stack@.len(),
    {
        let ghost states0 = states@;
        let ghost store0 = update_store@;
        let ghost stack0 = stack@;
        let a_idx = stack[stack.len() - 1];
        let pa = population[a_idx];
        let id_a = pa.0;
        let pos_a = pa.1;
        let intent = intents[a_idx];
        let mut child: Option<usize> = None;
        let mut act: Action = Action::Nothing;
        let mut key: (usize, usize) = pos_a;
        proof {
            lemma_no_collision(population@, *grid);
            assert forall|i: int|
                0 <= i < population@.len() && i != a_idx && !((#[trigger] states0[i]) is Resolved)
                    implies !(population@[i].1.0 == pos_a.0 && population@[i].1.1 == pos_a.1) by {
                if i < a_idx {
                    assert(!(population@[i].1.0 == population@[a_idx as int].1.0
                        && population@[i].1.1 == population@[a_idx as int].1.1));
                } else {
                    assert(!(population@[a_idx as int].1.0 == population@[i].1.0
                        && population@[a_idx as int].1.1 == population@[i].1.1));
                }
            }
        }
        match intent {
            None => {
                proof {
                    lemma_not_vacates_stuck(population@, intents@, *grid, a_idx as int);
                    assert(commit_pre(
                        population@,
                        intents@,
                        *grid,
                        store0,
                        states0,
                        a_idx as int,
                        Action::Nothing,
                        pos_a,
                    ));
                }
            },
            Some(d) => {
                match step_target(pos_a, d, grid) {
                    None => {
                        proof {
                            lemma_not_vacates_stuck(population@, intents@, *grid, a_idx as int);
                            assert(commit_pre(
                                population@,
                                intents@,
                                *grid,
                                store0,
                                states0,
                                a_idx as int,
                                Action::Nothing,
                                pos_a,
                            ));
                        }
                    },
                    Some(dest) => {
                        match update_store.get(dest) {
                            Some(entry) => {
                                let ghost o_id = entry.0;
                                let ghost o_act = entry.1;
                                proof {
                                    assert(update_store@.contains_key(
                                        (dest.0 as int, dest.1 as int),
                                    ));
                                    lemma_claimed_blocked(
                                        population@,
                                        intents@,
                                        *grid,
                                        store0,
                                        states0,
                                        a_idx as int,
                                        d,
                                        (dest.0 as int, dest.1 as int),
                                    );
                                    assert(commit_pre(
                                        population@,
                                        intents@,
                                        *grid,
                                        store0,
                                        states0,
                                        a_idx as int,
                                        Action::Nothing,
                                        pos_a,
                                    ));
                                }
                            },
                            None => {
                                match grid.get(dest.0, dest.1) {
                                    None => {
                                        act = Action::Move(d);
                                        key = dest;
                                        proof {
                                            assert forall|i: int|
                                                0 <= i < population@.len() && i != a_idx && !((
                                                #[trigger] states0[i]) is Resolved) implies !(
                                            population@[i].1.0 == dest.0 && population@[i].1.1
                                                == dest.1) by {
                                                if population@[i].1.0 == dest.0
                                                    && population@[i].1.1 == dest.1 {
                                                    assert(grid.cell(dest.0 as int, dest.1 as int)
                                                        == population@[i].0);
                                                }
                                            }
                                            lemma_vacates_empty(
                                                population@,
                                                intents@,
                                                *grid,
                                                a_idx as int,
                                                d,
                                            );
                                            assert(commit_pre(
                                                population@,
                                                intents@,
                                                *grid,
                                                store0,
                                                states0,
                                                a_idx as int,
                                                act,
                                                key,
                                            ));
                                        }
                                    },
                                    Some(bid_ref) => {
                                        let bid = *bid_ref;
                                        proof {
                                            assert(grid.occupied(dest.0 as int, dest.1 as int));
                                            assert(has_agent(population@, bid));
                                        }
                                        let b_idx = find_agent(population, bid);
                                        proof {
                                            let w = choose|i: int|
                                                0 <= i < population@.len() && (
                                                #[trigger] population@[i]).0 == grid.cell(
                                                    dest.0 as int,
                                                    dest.1 as int,
                                                ) && population@[i].1.0 == dest.0 as int
                                                    && population@[i].1.1 == dest.1 as int;
                                            if w < b_idx {
                                                assert(population@[w].0
                                                    != population@[b_idx as int].0);
                                            } else if b_idx < w {
                                                assert(population@[b_idx as int].0
                                                    != population@[w].0);
                                            }
                                            assert(population@[b_idx as int].1.0 == dest.0
                                                && population@[b_idx as int].1.1 == dest.1);
                                        }
                                        let stb = states[b_idx];
                                        match stb {
                                            ResolveState::Unvisited => {
                                                child = Some(b_idx);
                                                proof {
                                                    assert(stack_edge(
                                                        population@,
                                                        intents@,
                                                        *grid,
                                                        a_idx as int,
                                                        b_idx as int,
                                                    ));
                                                }
                                            },
                                            ResolveState::InProgress => {
                                                proof {
                                                    lemma_cycle_blocked(
                                                        population@,
                                                        intents@,
                                                        *grid,
                                                        stack0,
                                                        a_idx as int,
                                                        b_idx as int,
                                                        d,
                                                    );
                                                    assert(commit_pre(
                                                        population@,
                                                        intents@,
                                                        *grid,
                                                        store0,
                                                        states0,
                                                        a_idx as int,
                                                        Action::Nothing,
                                                        pos_a,
                                                    ));
                                                }
                                            },
                                            ResolveState::Resolved(b_act) => {
                                                match b_act {
                                                    Action::Move(_) => {
                                                        act = Action::Move(d);
                                                        key = dest;
                                                        proof {
                                                            assert forall|i: int|
                                                                0 <= i < population@.len() && i
                                                                    != a_idx && !((
                                                                #[trigger] states0[i]) is Resolved)
                                                                implies !(population@[i].1.0
                                                                == dest.0 && population@[i].1.1
                                                                == dest.1) by {
                                                                if population@[i].1.0 == dest.0
                                                                    && population@[i].1.1
                                                                    == dest.1 {
                                                                    assert(grid.cell(
                                                                        dest.0 as int,
                                                                        dest.1 as int,
                                                                    ) == population@[i].0);
                                                                    if i < b_idx {
                                                                        assert(population@[i].0
                                                                            != population@[b_idx as int].0);
                                                                    } else if b_idx < i {
                                                                        assert(population@[b_idx as int].0
                                                                            != population@[i].0);
                                                                    }
                                                                }
                                                            }
                                                            if dests_distinct(
                                                                population@,
                                                                intents@,
                                                                *grid,
                                                            ) {
                                                                assert(vacates(
                                                                    population@,
                                                                    intents@,
                                                                    *grid,
                                                                    b_idx as int,
                                                                ));
                                                                lemma_vacates_via(
                                                                    population@,
                                                                    intents@,
                                                                    *grid,
                                                                    a_idx as int,
                                                                    b_idx as int,
                                                                    d,
                                                                );
                                                            }
                                                            assert(commit_pre(
                                                                population@,
                                                                intents@,
                                                                *grid,
                                                                store0,
                                                                states0,
                                                                a_idx as int,
                                                                act,
                                                                key,
                                                            ));
                                                        }
                                                    },
                                                    Action::Nothing => {
                                                        proof {
                                                            assert(update_store@.contains_key(
                                                                (dest.0 as int, dest.1 as int),
                                                            ));
                                                            assert(false);
                                                        }
                                                    },
                                                }
                                            },
                                        }
                                    },
                                }
                            },
                        }
                    },
                }
            },
        }
        match child {
            Some(b) => {
                proof {
                    lemma_count_unvisited_mark(states0, b as int, ResolveState::InProgress);
                    lemma_mark_in_progress(
                        population@,
                        intents@,
                        *grid,
                        store0,
                        states0,
                        b as int,
                    );
                    assert forall|s: int| 0 <= s < stack@.len() implies #[trigger] stack@[s]
                        != b by {
                        assert(states0[stack@[s] as int] is InProgress);
                    }
                }
                proof {
                    assert(stack_edge(population@, intents@, *grid, a_idx as int, b as int));
                }
                let pb = &mut states[b];
                *pb = ResolveState::InProgress;
                stack.push(b);
                proof {
                    assert forall|s: int|
                        0 <= s < stack@.len() - 1 implies stack_edge(
                        population@,
                        intents@,
                        *grid,
                        (#[trigger] stack@[s]) as int,
                        stack@[s + 1] as int,
                    ) by {
                        if s < stack0.len() - 1 {
                            assert(stack_edge(
                                population@,
                                intents@,
                                *grid,
                                stack0[s] as int,
                                stack0[s + 1] as int,
                            ));
                        } else {
                            assert(stack@[s] == stack0[stack0.len() - 1]);
                            assert(stack@[s + 1] == b);
                        }
                    }
                    assert forall|i: int|
                        0 <= i < states@.len() && (#[trigger] states@[i]) is InProgress implies (
                    exists|s: int| 0 <= s < stack@.len() && #[trigger] stack@[s] == i) by {
                        if i == b {
                            assert(stack@[stack@.len() - 1] == i);
                        } else {
                            assert(states0[i] is InProgress);
                            let s = choose|s: int|
                                0 <= s < stack0.len() && #[trigger] stack0[s] == i;
                            assert(stack@[s] == i);
                        }
                    }
                }
            },
            None => {
                proof {
                    assert(commit_pre(
                        population@,
                        intents@,
                        *grid,
                        store0,
                        states0,
                        a_idx as int,
                        act,
                        key,
                    ));
                    lemma_commit(
                        population@,
                        intents@,
                        *grid,
                        store0,
                        states0,
                        a_idx as int,
                        act,
                        key,
                    );
                    lemma_count_unvisited_keep(states0, a_idx as int, ResolveState::Resolved(act));
                }
                update_store.add_organism(id_a, key, act);
                let pa2 = &mut states[a_idx];
                *pa2 = ResolveState::Resolved(act);
                let _popped = stack.pop();
                proof {
                    assert(stack@ =~= stack0.drop_last());
                    assert forall|s: int| 0 <= s < stack@.len() implies #[trigger] stack@[s]
                        != a_idx by {
                        assert(stack0[s] != stack0[stack0.len() - 1]);
                    }
                    assert forall|i: int|
                        0 <= i < states@.len() && (#[trigger] states@[i]) is InProgress implies (
                    exists|s: int| 0 <= s < stack@.len() && #[trigger] stack@[s] == i) by {
                        assert(states0[i] is InProgress);
                        let s = choose|s: int| 0 <= s < stack0.len() && #[trigger] stack0[s] == i;
                        assert(i != a_idx);
                        assert(s < stack0.len() - 1);
                        assert(stack@[s] == i);
                    }
                }
            },
        }
    }
    let st_n = states[idx];
    match st_n {
        ResolveState::Resolved(a) => a,
        _ => {
            proof {
                assert(false);
            }
            Action::Nothing
        },
    }
}

/// Distinct in-bounds cells have distinct row-major indices.
proof fn lemma_rowmajor_injective(w: int, x1: int, y1: int, x2: int, y2: int)
    requires
        0 <= x1 < w,
        0 <= x2 < w,
        0 <= y1,
        0 <= y2,
        !(x1 == x2 && y1 == y2),
    ensures
        y1 * w + x1 != y2 * w + x2,
{
    assert(y1 * w + x1 != y2 * w + x2) by (nonlinear_arith)
        requires
            0 <= x1 < w,
            0 <= x2 < w,
            0 <= y1,
            0 <= y2,
            !(x1 == x2 && y1 == y2),
    ;
}

/// Resolves the whole population for one tick over the frozen snapshot.
/// The returned actions are mutually consistent: each is lawful for its
/// agent, and no two agents end on the same cell.
pub fn poll_organisms(
    environment: &Environment,
    population: &Vec<(u32, (usize, usize))>,
    intents: &Vec<Option<Direction>>,
) -> (actions: Vec<Action>)
    requires
        snapshot_wf(population@, environment.organisms),
        intents@.len() == population@.len(),
    ensures
        actions@.len() == population@.len(),
        tick_consistent(population@, intents@, environment.organisms, actions@),
        forall|i: int|
            0 <= i < population@.len() ==> action_lawful(
                population@,
                intents@,
                environment.organisms,
                i,
                #[trigger] actions@[i],
            ),
        forall|i: int, j: int|
            0 <= i < j < population@.len() ==> action_target(population@[i].1, actions@[i])
                != action_target(population@[j].1, actions@[j]),
        forall|i: int|
            0 <= i < population@.len() && (#[trigger] intents@[i]) is None ==> actions@[i]
                == Action::Nothing,
        forall|i: int|
            0 <= i < population@.len() ==> (((#[trigger] intents@[i]) matches Some(d)
                && !cell_in_bounds(move_target(population@[i].1, d), environment.organisms))
                ==> actions@[i] == Action::Nothing),
        dests_distinct(population@, intents@, environment.organisms) ==> (forall|i: int|
            0 <= i < population@.len() ==> ((#[trigger] actions@[i]) is Move <==> vacates(
                population@,
                intents@,
                environment.organisms,
                i,
            ))),
        forall|i: int|
            0 <= i < population@.len() ==> match #[trigger] intents@[i] {
                Some(d) => {
                    let t = move_target(population@[i].1, d);
                    (cell_in_bounds(t, environment.organisms) && environment.organisms.cell(
                        t.0,
                        t.1,
                    ) == 0) ==> (exists|j: int|
                        0 <= j < population@.len() && action_target(
                            population@[j].1,
                            #[trigger] actions@[j],
                        ) == t)
                },
                None => true,
            },
{
    let grid = &environment.organisms;
    let mut update_store = OrganismUpdateStore::new();
    let mut states: Vec<ResolveState> = Vec::new();
    let mut i: usize = 0;
    while i < population.len()
        invariant
            i <= population@.len(),
            states@.len() == i,
            forall|j: int| 0 <= j < i ==> (#[trigger] states@[j]) == ResolveState::Unvisited,
        decreases population@.len() - i,
    {
        states.push(ResolveState::Unvisited);
        i += 1;
    }
    let mut actions: Vec<Action> = Vec::new();
    let mut n: usize = 0;
    while n < population.len()
        invariant
            n <= population@.len(),
            actions@.len() == n,
            intents@.len() == population@.len(),
            states@.len() == population@.len(),
            snapshot_wf(population@, environment.organisms),
            grid == &environment.organisms,
            resolution_inv(population@, intents@, environment.organisms, update_store@, states@),
            forall|j: int| 0 <= j < states@.len() ==> !((#[trigger] states@[j]) is InProgress),
            forall|j: int|
                0 <= j < n ==> states@[j] == ResolveState::Resolved(#[trigger] actions@[j]),
        decreases population@.len() - n,
    {
        let a = poll_organism(population, intents, grid, &mut update_store, &mut states, n);
        actions.push(a);
        n += 1;
    }
    proof {
        assert forall|i1: int, j1: int|
            0 <= i1 < j1 < population@.len() implies action_target(
            population@[i1].1,
            actions@[i1],
        ) != action_target(population@[j1].1, actions@[j1]) by {
            assert(states@[i1] == ResolveState::Resolved(actions@[i1]));
            assert(states@[j1] == ResolveState::Resolved(actions@[j1]));
            let ki = action_target(population@[i1].1, actions@[i1]);
            let kj = action_target(population@[j1].1, actions@[j1]);
            if ki == kj {
                assert(update_store@[ki] == (population@[i1].0, actions@[i1]));
                assert(update_store@[kj] == (population@[j1].0, actions@[j1]));
                assert(population@[i1].0 != population@[j1].0);
            }
        }
        assert forall|i1: int| 0 <= i1 < population@.len() implies action_lawful(
            population@,
            intents@,
            environment.organisms,
            i1,
            #[trigger] actions@[i1],
        ) by {
            assert(states@[i1] == ResolveState::Resolved(actions@[i1]));
        }
        if dests_distinct(population@, intents@, environment.organisms) {
            assert forall|i1: int| 0 <= i1 < population@.len() implies ((
            #[trigger] actions@[i1]) is Move <==> vacates(
                population@,
                intents@,
                environment.organisms,
                i1,
            )) by {
                assert(states@[i1] == ResolveState::Resolved(actions@[i1]));
            }
        }
        assert forall|i1: int| 0 <= i1 < population@.len() implies match #[trigger] intents@[i1] {
            Some(d) => {
                let t = move_target(population@[i1].1, d);
                (cell_in_bounds(t, environment.organisms) && environment.organisms.cell(t.0, t.1)
                    == 0) ==> (exists|j: int|
                    0 <= j < population@.len() && action_target(
                        population@[j].1,
                        #[trigger] actions@[j],
                    ) == t)
            },
            None => true,
        } by {
            assert(states@[i1] == ResolveState::Resolved(actions@[i1]));
            match intents@[i1] {
                Some(d) => {
                    let t = move_target(population@[i1].1, d);
                    if cell_in_bounds(t, environment.organisms) && environment.organisms.cell(
                        t.0,
                        t.1,
                    ) == 0 {
                        assert(update_store@.contains_key(t));
                        let id2 = update_store@[t].0;
                        let j = agent_idx(population@, id2);
                        assert(states@[j] == ResolveState::Resolved(update_store@[t].1));
                        assert(states@[j] == ResolveState::Resolved(actions@[j]));
                        assert(action_target(population@[j].1, actions@[j]) == t);
                    }
                },
                None => {},
            }
        }
    }
    actions
}

/// One full simulation step: resolves every agent's intent over the frozen
/// snapshot, rebuilds the occupancy grid from scratch, and moves every
/// agent to its resolved cell. The snapshot soundness — one agent per
/// occupied cell — holds again afterwards.
pub fn environment_step(
    env: &mut Environment,
    population: &mut Vec<(u32, (usize, usize))>,
    intents: &Vec<Option<Direction>>,
) -> (actions: Vec<Action>)
    requires
        snapshot_wf(old(population)@, old(env).organisms),
        intents@.len() == old(population)@.len(),
    ensures
        final(env).organisms.width == old(env).organisms.width,
        final(env).organisms.height == old(env).organisms.height,
        snapshot_wf(final(population)@, final(env).organisms),
        actions@.len() == old(population)@.len(),
        tick_consistent(old(population)@, intents@, old(env).organisms, actions@),
        final(population)@.len() == old(population)@.len(),
        forall|i: int|
            0 <= i < old(population)@.len() ==> (#[trigger] final(population)@[i]).0 == old(
                population,
            )@[i].0,
        forall|i: int|
            0 <= i < old(population)@.len() ==> ((#[trigger] final(population)@[i]).1.0 as int,
            final(population)@[i].1.1 as int) == action_target(
                old(population)@[i].1,
                actions@[i],
            ),
        forall|i: int|
            0 <= i < old(population)@.len() ==> action_lawful(
                old(population)@,
                intents@,
                old(env).organisms,
                i,
                #[trigger] actions@[i],
            ),
        forall|i: int, j: int|
            0 <= i < j < old(population)@.len() ==> action_target(
                old(population)@[i].1,
                actions@[i],
            ) != action_target(old(population)@[j].1, actions@[j]),
        forall|i: int|
            0 <= i < old(population)@.len() ==> (((#[trigger] intents@[i]) matches Some(d)
                && !cell_in_bounds(move_target(old(population)@[i].1, d), old(env).organisms))
                ==> actions@[i] == Action::Nothing),
        dests_distinct(old(population)@, intents@, old(env).organisms) ==> (forall|i: int|
            0 <= i < old(population)@.len() ==> ((#[trigger] actions@[i]) is Move <==> vacates(
                old(population)@,
                intents@,
                old(env).organisms,
                i,
            ))),
        forall|i: int|
            0 <= i < old(population)@.len() ==> match #[trigger] intents@[i] {
                Some(d) => {
                    let t = move_target(old(population)@[i].1, d);
                    (cell_in_bounds(t, old(env).organisms) && old(env).organisms.cell(t.0, t.1)
                        == 0) ==> final(env).organisms.cell(t.0, t.1) != 0
                },
                None => true,
            },
{
    let ghost pop0 = population@;
    let actions = poll_organisms(env, population, intents);
    let width = env.organisms.width;
    let height = env.organisms.height;
    let n_cells = env.organisms.data.len();
    let ghost w = width as int;
    let ghost h = height as int;
    env.organisms = Grid2d::new(width, height);
    let mut i: usize = 0;
    while i < population.len()
        invariant
            i <= pop0.len(),
            population@.len() == pop0.len(),
            actions@.len() == pop0.len(),
            env.organisms.wf(),
            env.organisms.width == w,
            env.organisms.height == h,
            forall|j: int| i <= j < pop0.len() ==> #[trigger] population@[j] == pop0[j],
            forall|j: int|
                0 <= j < i ==> (#[trigger] population@[j]).0 == pop0[j].0 && (
                population@[j].1.0 as int, population@[j].1.1 as int) == action_target(
                    pop0[j].1,
                    actions@[j],
                ) && population@[j].1.0 < w && population@[j].1.1 < h,
            forall|j: int|
                0 <= j < i ==> env.organisms.cell(
                    (#[trigger] population@[j]).1.0 as int,
                    population@[j].1.1 as int,
                ) == pop0[j].0,
            forall|x: int, y: int|
                0 <= x < w && 0 <= y < h && #[trigger] env.organisms.cell(x, y) != 0 ==> (exists|
                    j: int,
                |
                    0 <= j < i && (#[trigger] population@[j]).1.0 == x && population@[j].1.1 == y),
            pop_ids_ok(pop0),
            forall|j: int|
                0 <= j < pop0.len() ==> (#[trigger] pop0[j]).1.0 < w && pop0[j].1.1 < h,
            forall|j: int|
                0 <= j < pop0.len() ==> action_lawful(
                    pop0,
                    intents@,
                    old(env).organisms,
                    j,
                    #[trigger] actions@[j],
                ),
            forall|j1: int, j2: int|
                0 <= j1 < j2 < pop0.len() ==> action_target(pop0[j1].1, actions@[j1])
                    != action_target(pop0[j2].1, actions@[j2]),
            old(env).organisms.width == w,
            old(env).organisms.height == h,
        decreases pop0.len() - i,
    {
        let ghost pop_entry = population@;
        let ghost i_entry = i as int;
        let action = actions[i];
        let pe = population[i];
        let id = pe.0;
        let pos = pe.1;
        let newpos: (usize, usize) = match action {
            Action::Nothing => pos,
            Action::Move(d) => {
                match step_target(pos, d, &env.organisms) {
                    Some(t) => t,
                    None => {
                        proof {
                            assert(action_lawful(pop0, intents@, old(env).organisms, i as int, action));
                            assert(false);
                        }
                        pos
                    },
                }
            },
        };
        proof {
            assert((newpos.0 as int, newpos.1 as int) == action_target(pop0[i as int].1, action));
        }
        let ghost grid_before = env.organisms;
        env.organisms.set(newpos.0, newpos.1, id);
        proof {
            lemma_index_in_range(newpos.0 as int, newpos.1 as int, w, h);
            assert forall|x: int, y: int|
                0 <= x < w && 0 <= y < h && !(x == newpos.0 as int && y == newpos.1 as int)
                    implies #[trigger] env.organisms.cell(x, y) == grid_before.cell(x, y) by {
                lemma_rowmajor_injective(w, x, y, newpos.0 as int, newpos.1 as int);
                lemma_index_in_range(x, y, w, h);
            }
            assert(env.organisms.cell(newpos.0 as int, newpos.1 as int) == id);
            assert forall|j: int|
                0 <= j < i implies env.organisms.cell(
                (#[trigger] population@[j]).1.0 as int,
                population@[j].1.1 as int,
            ) == pop0[j].0 by {
                assert(action_target(pop0[j].1, actions@[j]) != action_target(
                    pop0[i as int].1,
                    actions@[i as int],
                ));
                assert(!(population@[j].1.0 as int == newpos.0 as int && population@[j].1.1 as int
                    == newpos.1 as int));
                lemma_rowmajor_injective(
                    w,
                    population@[j].1.0 as int,
                    population@[j].1.1 as int,
                    newpos.0 as int,
                    newpos.1 as int,
                );
            }
        }
        let pm = &mut population[i];
        pm.1 = newpos;
        i += 1;
        proof {
            assert forall|x: int, y: int|
                0 <= x < w && 0 <= y < h && #[trigger] env.organisms.cell(x, y) != 0 implies (
            exists|j: int|
                0 <= j < i && (#[trigger] population@[j]).1.0 == x && population@[j].1.1 == y) by {
                if x == newpos.0 as int && y == newpos.1 as int {
                    assert(population@[i - 1].1.0 == x && population@[i - 1].1.1 == y);
                } else {
                    assert(grid_before.cell(x, y) != 0);
                    let j = choose|j: int|
                        0 <= j < i_entry && (#[trigger] pop_entry[j]).1.0 == x && pop_entry[j].1.1
                            == y;
                    assert(population@[j] == pop_entry[j]);
                    assert(population@[j].1.0 == x && population@[j].1.1 == y);
                }
            }
        }
    }
    proof {
        assert forall|x: int, y: int|
            0 <= x < w && 0 <= y < h && #[trigger] env.organisms.cell(x, y) != 0 implies (exists|
                j: int,
            |
                0 <= j < population@.len() && (#[trigger] population@[j]).0 == env.organisms.cell(
                    x,
                    y,
                ) && population@[j].1.0 == x && population@[j].1.1 == y) by {
            let j = choose|j: int|
                0 <= j < population@.len() && (#[trigger] population@[j]).1.0 == x
                    && population@[j].1.1 == y;
            assert(env.organisms.cell(x, y) == pop0[j].0);
            assert(population@[j].0 == pop0[j].0);
        }
        assert forall|i: int| 0 <= i < pop0.len() implies match #[trigger] intents@[i] {
            Some(d) => {
                let t = move_target(pop0[i].1, d);
                (cell_in_bounds(t, old(env).organisms) && old(env).organisms.cell(t.0, t.1) == 0)
                    ==> env.organisms.cell(t.0, t.1) != 0
            },
            None => true,
        } by {
            match intents@[i] {
                Some(d) => {
                    let t = move_target(pop0[i].1, d);
                    if cell_in_bounds(t, old(env).organisms) && old(env).organisms.cell(t.0, t.1)
                        == 0 {
                        let j = choose|j: int|
                            0 <= j < pop0.len() && action_target(
                                pop0[j].1,
                                #[trigger] actions@[j],
                            ) == t;
                        assert((population@[j].1.0 as int, population@[j].1.1 as int) == t);
                        assert(env.organisms.cell(
                            population@[j].1.0 as int,
                            population@[j].1.1 as int,
                        ) == pop0[j].0);
                        assert(pop0[j].0 != 0);
                    }
                },
                None => {},
            }
        }
    }
    actions
}

/// A mutually consistent tick outcome: one action per agent, each lawful,
/// and no two agents ending on the same cell.
pub open spec fn tick_consistent(
    pop: Seq<(u32, (usize, usize))>,
    intents: Seq<Option<Direction>>,
    grid: Grid2d,
    actions: Seq<Action>,
) -> bool {
    &&& actions.len() == pop.len()
    &&& forall|i: int|
        0 <= i < pop.len() ==> action_lawful(pop, intents, grid, i, #[trigger] actions[i])
    &&& forall|i: int, j: int|
        0 <= i < j < pop.len() ==> action_target(pop[i].1, #[trigger] actions[i])
            != action_target(pop[j].1, #[trigger] actions[j])
}

/// Chain displacement, vacating half: an agent that moves into the cell
/// another agent stood on this tick can only do so because that agent
/// itself moves away in the same tick.
pub proof fn lemma_chain_displacement(
    pop: Seq<(u32, (usize, usize))>,
    intents: Seq<Option<Direction>>,
    grid: Grid2d,
    actions: Seq<Action>,
    i: int,
    b: int,
    d: Direction,
)
    requires
        tick_consistent(pop, intents, grid, actions),
        0 <= i < pop.len(),
        0 <= b < pop.len(),
        i != b,
        actions[i] == Action::Move(d),
        move_target(pop[i].1, d) == (pop[b].1.0 as int, pop[b].1.1 as int),
    ensures
        actions[b] is Move,
{
    if actions[b] == Action::Nothing {
        if i < b {
            assert(action_target(pop[i].1, actions[i]) != action_target(pop[b].1, actions[b]));
        } else {
            assert(action_target(pop[b].1, actions[b]) != action_target(pop[i].1, actions[i]));
        }
    }
}

/// Chain displacement, blocking half: an agent whose intent points at the
/// cell of an agent that stays this tick stays as well.
pub proof fn lemma_blocked_by_stayer(
    pop: Seq<(u32, (usize, usize))>,
    intents: Seq<Option<Direction>>,
    grid: Grid2d,
    actions: Seq<Action>,
    i: int,
    b: int,
    d: Direction,
)
    requires
        tick_consistent(pop, intents, grid, actions),
        0 <= i < pop.len(),
        0 <= b < pop.len(),
        i != b,
        intents[i] == Some(d),
        move_target(pop[i].1, d) == (pop[b].1.0 as int, pop[b].1.1 as int),
        actions[b] == Action::Nothing,
    ensures
        actions[i] == Action::Nothing,
{
    assert(action_lawful(pop, intents, grid, i, actions[i]));
    match actions[i] {
        Action::Move(d2) => {
            assert(intents[i] == Some(d2));
            assert(d2 == d);
            lemma_chain_displacement(pop, intents, grid, actions, i, b, d);
        },
        Action::Nothing => {},
    }
}

/// No two agents intend the same in-bounds destination cell.
pub open spec fn dests_distinct(
    pop: Seq<(u32, (usize, usize))>,
    intents: Seq<Option<Direction>>,
    grid: Grid2d,
) -> bool {
    forall|i: int, j: int|
        #![trigger intents[i], intents[j]]
        0 <= i < pop.len() && 0 <= j < pop.len() && i != j ==> match (intents[i], intents[j]) {
            (Some(di), Some(dj)) => (cell_in_bounds(move_target(pop[i].1, di), grid)
                && cell_in_bounds(move_target(pop[j].1, dj), grid)) ==> move_target(pop[i].1, di)
                != move_target(pop[j].1, dj),
            _ => true,
        }
}

/// Agent `i` vacates its cell within `fuel` steps of chain-chasing: it
/// intends an in-bounds move whose destination is free, or is occupied by
/// an agent that itself vacates within one step less.
pub open spec fn vacates_fuel(
    pop: Seq<(u32, (usize, usize))>,
    intents: Seq<Option<Direction>>,
    grid: Grid2d,
    i: int,
    fuel: nat,
) -> bool
    decreases fuel,
{
    if fuel == 0 || !(0 <= i < pop.len()) {
        false
    } else {
        match intents[i] {
            None => false,
            Some(d) => {
                let t = move_target(pop[i].1, d);
                if !cell_in_bounds(t, grid) {
                    false
                } else if grid.cell(t.0, t.1) == 0 {
                    true
                } else {
                    vacates_fuel(
                        pop,
                        intents,
                        grid,
                        agent_idx(pop, grid.cell(t.0, t.1)),
                        (fuel - 1) as nat,
                    )
                }
            },
        }
    }
}

/// Agent `i` vacates its cell: some finite chain of agents, each wanting
/// the next one's cell, ends at a free cell. On a dependency cycle no
/// finite chain exists, so nobody on it vacates.
pub open spec fn vacates(
    pop: Seq<(u32, (usize, usize))>,
    intents: Seq<Option<Direction>>,
    grid: Grid2d,
    i: int,
) -> bool {
    exists|fuel: nat| vacates_fuel(pop, intents, grid, i, fuel)
}

/// An agent with no intent, or an intent that leaves the grid, does not
/// vacate.
proof fn lemma_not_vacates_stuck(
    pop: Seq<(u32, (usize, usize))>,
    intents: Seq<Option<Direction>>,
    grid: Grid2d,
    i: int,
)
    requires
        0 <= i < pop.len(),
        match intents[i] {
            None => true,
            Some(d) => !cell_in_bounds(move_target(pop[i].1, d), grid),
        },
    ensures
        !vacates(pop, intents, grid, i),
{
    assert forall|fuel: nat| !vacates_fuel(pop, intents, grid, i, fuel) by {
        if fuel > 0 {
            assert(!vacates_fuel(pop, intents, grid, i, fuel));
        }
    }
}

/// An agent whose in-bounds destination is free vacates.
proof fn lemma_vacates_empty(
    pop: Seq<(u32, (usize, usize))>,
    intents: Seq<Option<Direction>>,
    grid: Grid2d,
    i: int,
    d: Direction,
)
    requires
        0 <= i < pop.len(),
        intents[i] == Some(d),
        cell_in_bounds(move_target(pop[i].1, d), grid),
        grid.cell(move_target(pop[i].1, d).0, move_target(pop[i].1, d).1) == 0,
    ensures
        vacates(pop, intents, grid, i),
{
    assert(vacates_fuel(pop, intents, grid, i, 1));
}

/// An agent whose destination is occupied by a vacating agent vacates.
proof fn lemma_vacates_via(
    pop: Seq<(u32, (usize, usize))>,
    intents: Seq<Option<Direction>>,
    grid: Grid2d,
    i: int,
    b: int,
    d: Direction,
)
    requires
        pop_ids_ok(pop),
        0 <= i < pop.len(),
        0 <= b < pop.len(),
        intents[i] == Some(d),
        cell_in_bounds(move_target(pop[i].1, d), grid),
        grid.cell(move_target(pop[i].1, d).0, move_target(pop[i].1, d).1) == pop[b].0,
        vacates(pop, intents, grid, b),
    ensures
        vacates(pop, intents, grid, i),
{
    lemma_agent_idx_of(pop, b);
    let fuel = choose|fuel: nat| vacates_fuel(pop, intents, grid, b, fuel);
    assert(vacates_fuel(pop, intents, grid, i, fuel + 1));
}

/// An agent whose destination is occupied by a non-vacating agent does
/// not vacate.
proof fn lemma_not_vacates_blocked(
    pop: Seq<(u32, (usize, usize))>,
    intents: Seq<Option<Direction>>,
    grid: Grid2d,
    i: int,
    b: int,
    d: Direction,
)
    requires
        pop_ids_ok(pop),
        0 <= i < pop.len(),
        0 <= b < pop.len(),
        intents[i] == Some(d),
        cell_in_bounds(move_target(pop[i].1, d), grid),
        grid.cell(move_target(pop[i].1, d).0, move_target(pop[i].1, d).1) == pop[b].0,
        pop[b].0 != 0,
        !vacates(pop, intents, grid, b),
    ensures
        !vacates(pop, intents, grid, i),
{
    lemma_agent_idx_of(pop, b);
    assert forall|fuel: nat| !vacates_fuel(pop, intents, grid, i, fuel) by {
        if fuel > 0 && vacates_fuel(pop, intents, grid, i, fuel) {
            assert(vacates_fuel(pop, intents, grid, b, (fuel - 1) as nat));
        }
    }
}

/// The agents of `s` point at one another in a closed loop: each intends
/// an in-bounds move onto a cell occupied by another agent of `s`.
spec fn cycle_closed(
    pop: Seq<(u32, (usize, usize))>,
    intents: Seq<Option<Direction>>,
    grid: Grid2d,
    s: Set<int>,
) -> bool {
    forall|c: int| #[trigger] s.contains(c) ==> 0 <= c < pop.len() && match intents[c] {
        None => false,
        Some(d) => {
            let t = move_target(pop[c].1, d);
            cell_in_bounds(t, grid) && grid.cell(t.0, t.1) != 0 && s.contains(
                agent_idx(pop, grid.cell(t.0, t.1)),
            )
        },
    }
}

/// Nobody on a closed dependency loop ever vacates: every chain from a
/// loop agent stays on the loop and never reaches a free cell.
proof fn lemma_cycle_stays(
    pop: Seq<(u32, (usize, usize))>,
    intents: Seq<Option<Direction>>,
    grid: Grid2d,
    s: Set<int>,
    c: int,
    fuel: nat,
)
    requires
        cycle_closed(pop, intents, grid, s),
        s.contains(c),
    ensures
        !vacates_fuel(pop, intents, grid, c, fuel),
    decreases fuel,
{
    if fuel > 0 {
        match intents[c] {
            None => {},
            Some(d) => {
                let t = move_target(pop[c].1, d);
                lemma_cycle_stays(
                    pop,
                    intents,
                    grid,
                    s,
                    agent_idx(pop, grid.cell(t.0, t.1)),
                    (fuel - 1) as nat,
                );
            },
        }
    }
}

/// Determinism of resolution: when every intended in-bounds destination
/// is distinct, the tick outcome is a function of the snapshot and the
/// intents alone. Any two outcomes in which each agent moves exactly when
/// its vacating chain succeeds — as resolution guarantees — are equal,
/// whatever order the agents were resolved in.
pub proof fn lemma_resolution_deterministic(
    pop: Seq<(u32, (usize, usize))>,
    intents: Seq<Option<Direction>>,
    grid: Grid2d,
    actions1: Seq<Action>,
    actions2: Seq<Action>,
)
    requires
        actions1.len() == pop.len(),
        actions2.len() == pop.len(),
        forall|i: int|
            0 <= i < pop.len() ==> action_lawful(pop, intents, grid, i, #[trigger] actions1[i]),
        forall|i: int|
            0 <= i < pop.len() ==> action_lawful(pop, intents, grid, i, #[trigger] actions2[i]),
        forall|i: int|
            0 <= i < pop.len() ==> ((#[trigger] actions1[i]) is Move <==> vacates(
                pop,
                intents,
                grid,
                i,
            )),
        forall|i: int|
            0 <= i < pop.len() ==> ((#[trigger] actions2[i]) is Move <==> vacates(
                pop,
                intents,
                grid,
                i,
            )),
    ensures
        actions1 =~= actions2,
{
    assert forall|i: int| 0 <= i < pop.len() implies actions1[i] == actions2[i] by {
        match (actions1[i], actions2[i]) {
            (Action::Move(d1), Action::Move(d2)) => {
                assert(intents[i] == Some(d1));
                assert(intents[i] == Some(d2));
            },
            _ => {},
        }
    }
}

/// Chain displacement, following half: with all intended destinations
/// distinct, an agent whose intent points at the cell of an agent that
/// moves away this tick moves into that cell in the same tick.
pub proof fn lemma_chain_follows_vacated(
    pop: Seq<(u32, (usize, usize))>,
    intents: Seq<Option<Direction>>,
    grid: Grid2d,
    actions: Seq<Action>,
    i: int,
    b: int,
    d: Direction,
)
    requires
        pop_ids_ok(pop),
        dests_distinct(pop, intents, grid),
        actions.len() == pop.len(),
        forall|j: int|
            0 <= j < pop.len() ==> action_lawful(pop, intents, grid, j, #[trigger] actions[j]),
        forall|j: int|
            0 <= j < pop.len() ==> ((#[trigger] actions[j]) is Move <==> vacates(
                pop,
                intents,
                grid,
                j,
            )),
        0 <= i < pop.len(),
        0 <= b < pop.len(),
        intents[i] == Some(d),
        cell_in_bounds(move_target(pop[i].1, d), grid),
        grid.cell(move_target(pop[i].1, d).0, move_target(pop[i].1, d).1) == pop[b].0,
        actions[b] is Move,
    ensures
        actions[i] == Action::Move(d),
{
    assert(vacates(pop, intents, grid, b));
    lemma_vacates_via(pop, intents, grid, i, b, d);
    assert(actions[i] is Move);
    match actions[i] {
        Action::Move(d2) => {
            assert(intents[i] == Some(d2));
        },
        Action::Nothing => {},
    }
}

} // verus!
