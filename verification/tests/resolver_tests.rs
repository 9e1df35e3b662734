use evo::organism::{Action, Direction, OrganismUpdateStore, resolve_directions};
use evo::systems::{
    calculate_new_position, check_snapshot, environment_step, poll_organism, poll_organisms,
    Environment, ResolveState,
};
use evo::utils::Grid2d;

fn make_world(width: usize, height: usize, agents: &[(u32, (usize, usize))]) -> (
    Environment,
    Vec<(u32, (usize, usize))>,
) {
    let mut env = Environment::new(width, height);
    let mut population = Vec::new();
    for &(id, pos) in agents {
        env.organisms.set(pos.0, pos.1, id);
        population.push((id, pos));
    }
    (env, population)
}

fn position_of(population: &[(u32, (usize, usize))], id: u32) -> (usize, usize) {
    population.iter().find(|e| e.0 == id).unwrap().1
}

#[test]
fn boundary_west_at_zero_stays() {
    let (mut env, mut population) = make_world(3, 3, &[(1, (0, 1))]);
    let intents = vec![Some(Direction::West)];
    let actions = environment_step(&mut env, &mut population, &intents);
    assert!(matches!(actions[0], Action::Nothing));
    assert_eq!(population[0].1, (0, 1));
    assert_eq!(env.organisms.get(0, 1), Some(&1));
}

#[test]
fn boundary_corners_stay() {
    let (mut env, mut population) = make_world(
        4,
        4,
        &[(1, (0, 0)), (2, (3, 3))],
    );
    let intents = vec![Some(Direction::SouthWest), Some(Direction::NorthEast)];
    let actions = environment_step(&mut env, &mut population, &intents);
    assert!(matches!(actions[0], Action::Nothing));
    assert!(matches!(actions[1], Action::Nothing));
    assert_eq!(population[0].1, (0, 0));
    assert_eq!(population[1].1, (3, 3));
}

#[test]
fn chain_displacement_follows_vacated_cell() {
    // A at (1,0) wants B's cell; B at (2,0) moves away east.
    let (mut env, mut population) = make_world(5, 1, &[(1, (1, 0)), (2, (2, 0))]);
    let intents = vec![Some(Direction::East), Some(Direction::East)];
    let actions = environment_step(&mut env, &mut population, &intents);
    assert!(matches!(actions[0], Action::Move(Direction::East)));
    assert!(matches!(actions[1], Action::Move(Direction::East)));
    assert_eq!(position_of(&population, 1), (2, 0));
    assert_eq!(position_of(&population, 2), (3, 0));
    assert_eq!(env.organisms.get(2, 0), Some(&1));
    assert_eq!(env.organisms.get(3, 0), Some(&2));
    assert_eq!(env.organisms.get(1, 0), None);
}

#[test]
fn chain_blocked_when_occupant_stays() {
    // A wants B's cell; B has no intent, so both stay.
    let (mut env, mut population) = make_world(5, 1, &[(1, (1, 0)), (2, (2, 0))]);
    let intents = vec![Some(Direction::East), None];
    let actions = environment_step(&mut env, &mut population, &intents);
    assert!(matches!(actions[0], Action::Nothing));
    assert!(matches!(actions[1], Action::Nothing));
    assert_eq!(position_of(&population, 1), (1, 0));
    assert_eq!(position_of(&population, 2), (2, 0));
}

#[test]
fn swap_cycle_degrades_to_stay() {
    // A and B want each other's cells: a dependency cycle, both stay.
    let (mut env, mut population) = make_world(4, 1, &[(1, (1, 0)), (2, (2, 0))]);
    let intents = vec![Some(Direction::East), Some(Direction::West)];
    let actions = environment_step(&mut env, &mut population, &intents);
    assert!(matches!(actions[0], Action::Nothing));
    assert!(matches!(actions[1], Action::Nothing));
    assert_eq!(position_of(&population, 1), (1, 0));
    assert_eq!(position_of(&population, 2), (2, 0));
}

#[test]
fn contested_cell_goes_to_one_agent_only() {
    // Two agents both want (1,0); exactly one of them may get it.
    let (mut env, mut population) = make_world(3, 2, &[(1, (0, 0)), (2, (2, 0))]);
    let intents = vec![Some(Direction::East), Some(Direction::West)];
    environment_step(&mut env, &mut population, &intents);
    let p1 = position_of(&population, 1);
    let p2 = position_of(&population, 2);
    assert_ne!(p1, p2);
    assert_eq!(env.organisms.get(p1.0, p1.1), Some(&1));
    assert_eq!(env.organisms.get(p2.0, p2.1), Some(&2));
}

#[test]
fn full_tick_no_collision() {
    // A crowded row pushing in both directions: afterwards every agent
    // stands alone on its cell and the grid mirrors the population.
    let agents: Vec<(u32, (usize, usize))> = vec![
        (1, (0, 0)),
        (2, (1, 0)),
        (3, (2, 0)),
        (4, (3, 0)),
        (5, (1, 1)),
        (6, (2, 1)),
    ];
    let (mut env, mut population) = make_world(5, 3, &agents);
    let intents = vec![
        Some(Direction::East),
        Some(Direction::East),
        Some(Direction::East),
        Some(Direction::East),
        Some(Direction::North),
        Some(Direction::West),
    ];
    environment_step(&mut env, &mut population, &intents);
    for i in 0..population.len() {
        for j in 0..population.len() {
            if i != j {
                assert_ne!(population[i].1, population[j].1);
            }
        }
    }
    for &(id, pos) in &population {
        assert_eq!(env.organisms.get(pos.0, pos.1), Some(&id));
    }
    let mut occupied = 0;
    for x in 0..5 {
        for y in 0..3 {
            if env.organisms.get(x, y).is_some() {
                occupied += 1;
            }
        }
    }
    assert_eq!(occupied, population.len());
}

#[test]
fn resolution_independent_of_iteration_order() {
    // A chain plus an independent mover, no contested destination: the
    // final occupancy is the same in both iteration orders.
    let agents_a: Vec<(u32, (usize, usize))> = vec![(1, (1, 0)), (2, (2, 0)), (3, (0, 1))];
    let intents_by_id = |id: u32| match id {
        1 => Some(Direction::East),
        2 => Some(Direction::East),
        _ => Some(Direction::North),
    };

    let (mut env_a, mut pop_a) = make_world(5, 3, &agents_a);
    let intents_a: Vec<Option<Direction>> = pop_a.iter().map(|e| intents_by_id(e.0)).collect();
    environment_step(&mut env_a, &mut pop_a, &intents_a);

    let agents_b: Vec<(u32, (usize, usize))> = vec![(3, (0, 1)), (2, (2, 0)), (1, (1, 0))];
    let (mut env_b, mut pop_b) = make_world(5, 3, &agents_b);
    let intents_b: Vec<Option<Direction>> = pop_b.iter().map(|e| intents_by_id(e.0)).collect();
    environment_step(&mut env_b, &mut pop_b, &intents_b);

    for id in [1, 2, 3] {
        assert_eq!(position_of(&pop_a, id), position_of(&pop_b, id));
    }
}

#[test]
fn repolling_returns_committed_action() {
    let (env, population) = make_world(5, 1, &[(1, (1, 0)), (2, (2, 0))]);
    let intents = vec![Some(Direction::East), Some(Direction::East)];
    let mut store = OrganismUpdateStore::new();
    let mut states = vec![ResolveState::Unvisited, ResolveState::Unvisited];
    let first = poll_organism(&population, &intents, &env.organisms, &mut store, &mut states, 0);
    let again = poll_organism(&population, &intents, &env.organisms, &mut store, &mut states, 0);
    assert!(matches!(first, Action::Move(Direction::East)));
    assert_eq!(first, again);
    // resolving agent 0 forced agent 1 first; its entry is committed too
    assert_eq!(store.get((3, 0)).copied(), Some((2, Action::Move(Direction::East))));
    assert_eq!(store.get((2, 0)).copied(), Some((1, Action::Move(Direction::East))));
}

#[test]
fn poll_organisms_returns_one_action_per_agent() {
    let (env, population) = make_world(3, 3, &[(1, (0, 0)), (2, (2, 2))]);
    let intents = vec![None, Some(Direction::West)];
    let actions = poll_organisms(&env, &population, &intents);
    assert_eq!(actions.len(), 2);
    assert!(matches!(actions[0], Action::Nothing));
    assert!(matches!(actions[1], Action::Move(Direction::West)));
}

#[test]
fn resolve_directions_single_passes_through() {
    assert_eq!(resolve_directions(vec![Direction::NorthWest]), Some(Direction::NorthWest));
    assert_eq!(resolve_directions(vec![Direction::South]), Some(Direction::South));
}

#[test]
fn resolve_directions_combines_axes() {
    assert_eq!(
        resolve_directions(vec![Direction::East, Direction::North]),
        Some(Direction::NorthEast)
    );
    assert_eq!(
        resolve_directions(vec![Direction::West, Direction::South]),
        Some(Direction::SouthWest)
    );
    assert_eq!(resolve_directions(vec![Direction::East, Direction::West]), None);
    assert_eq!(resolve_directions(vec![]), None);
    assert_eq!(
        resolve_directions(vec![Direction::North, Direction::South, Direction::East]),
        Some(Direction::East)
    );
    // diagonals contribute nothing when several impulses are combined
    assert_eq!(
        resolve_directions(vec![Direction::NorthEast, Direction::West]),
        Some(Direction::West)
    );
}

#[test]
fn calculate_new_position_offsets() {
    assert_eq!(calculate_new_position(Direction::East, (0, 0)), (1, 0));
    assert_eq!(calculate_new_position(Direction::West, (5, 5)), (4, 5));
    assert_eq!(calculate_new_position(Direction::North, (2, 2)), (2, 3));
    assert_eq!(calculate_new_position(Direction::South, (2, 2)), (2, 1));
    assert_eq!(calculate_new_position(Direction::NorthWest, (2, 2)), (1, 3));
    assert_eq!(calculate_new_position(Direction::SouthEast, (2, 2)), (3, 1));
}

#[test]
fn grid_get_set_roundtrip() {
    let mut grid = Grid2d::new(4, 3);
    assert_eq!(grid.get(1, 1), None);
    grid.set(1, 1, 7);
    assert_eq!(grid.get(1, 1), Some(&7));
    // out-of-bounds writes are ignored, out-of-bounds reads empty
    grid.set(9, 9, 5);
    assert_eq!(grid.get(9, 9), None);
    // zero is the empty sentinel
    grid.set(1, 1, 0);
    assert_eq!(grid.get(1, 1), None);
}

#[test]
fn grid_get_mut_writes_through() {
    let mut grid = Grid2d::new(2, 2);
    *grid.get_mut(0, 1).unwrap() = 9;
    assert_eq!(grid.get(0, 1), Some(&9));
    assert!(grid.get_mut(5, 0).is_none());
}

#[test]
fn update_store_insert_and_get() {
    let mut store = OrganismUpdateStore::new();
    assert!(store.get((1, 1)).is_none());
    store.add_organism(4, (1, 1), Action::Nothing);
    assert_eq!(store.get((1, 1)).copied(), Some((4, Action::Nothing)));
    // a later commit to the same cell overwrites, as a map insert does
    store.add_organism(5, (1, 1), Action::Move(Direction::East));
    assert_eq!(store.get((1, 1)).copied(), Some((5, Action::Move(Direction::East))));
    assert!(store.get((0, 1)).is_none());
}

#[test]
fn two_consecutive_ticks() {
    let (mut env, mut population) = make_world(4, 1, &[(1, (0, 0)), (2, (1, 0))]);
    // both shuffle east twice; the rebuilt grid after the first tick is a
    // sound snapshot for the second
    let intents = vec![Some(Direction::East), Some(Direction::East)];
    environment_step(&mut env, &mut population, &intents);
    assert_eq!(position_of(&population, 1), (1, 0));
    assert_eq!(position_of(&population, 2), (2, 0));
    environment_step(&mut env, &mut population, &intents);
    assert_eq!(position_of(&population, 1), (2, 0));
    assert_eq!(position_of(&population, 2), (3, 0));
    assert_eq!(env.organisms.get(2, 0), Some(&1));
    assert_eq!(env.organisms.get(3, 0), Some(&2));
    assert_eq!(env.organisms.get(0, 0), None);
    assert_eq!(env.organisms.get(1, 0), None);
}

#[test]
fn check_snapshot_accepts_and_rejects() {
    let (env, population) = make_world(4, 3, &[(1, (0, 0)), (2, (3, 2))]);
    assert!(check_snapshot(&population, &env.organisms));
    // an agent the grid does not know about
    let mut stray = population.clone();
    stray.push((3, (1, 1)));
    assert!(!check_snapshot(&stray, &env.organisms));
    // a duplicate identity
    let dup = vec![(1, (0, 0)), (1, (3, 2))];
    assert!(!check_snapshot(&dup, &env.organisms));
    // a zero identity
    let zero = vec![(0, (0, 0))];
    assert!(!check_snapshot(&zero, &env.organisms));
    // an occupied cell that belongs to no agent
    let (orphan_env, _) = make_world(4, 3, &[(1, (0, 0)), (9, (2, 2))]);
    assert!(!check_snapshot(&population, &orphan_env.organisms));
}
