use game_of_life::driver::WORLD_SIZE;
use game_of_life::world::{Cell, CellEdit, Position, World, WorldError};

fn world_of(width: usize, height: usize, live: &[(usize, usize)]) -> World {
    let mut world = World::new(Position { x: width, y: height });
    for &(x, y) in live {
        world.add_cell(Cell::new_alive(x, y)).unwrap();
    }
    world
}

fn live_cells(world: &World) -> Vec<(usize, usize)> {
    let mut found = Vec::new();
    for (y, row) in world.snapshot().iter().enumerate() {
        for (x, alive) in row.iter().enumerate() {
            if *alive {
                found.push((x, y));
            }
        }
    }
    found
}

#[test]
fn count_neighbors() {
    let mut world = World::new(Position { x: WORLD_SIZE, y: WORLD_SIZE });

    let first_cell = Cell::new_alive(0, 0);
    world.add_cell(first_cell).unwrap();
    world.add_cell(Cell::new_alive(0, 1)).unwrap();
    world.add_cell(Cell::new_alive(1, 0)).unwrap();
    world.add_cell(Cell::new_alive(1, 1)).unwrap();

    assert_eq!(first_cell.count_neighbor(&world), 3);
}

#[test]
fn count_up_neighbors() {
    let mut world = World::new(Position { x: WORLD_SIZE, y: WORLD_SIZE });

    let first_cell = Cell::new_alive(1, 1);
    world.add_cell(first_cell).unwrap();
    world.add_cell(Cell::new_alive(0, 0)).unwrap();
    world.add_cell(Cell::new_alive(1, 0)).unwrap();
    world.add_cell(Cell::new_alive(2, 0)).unwrap();

    assert_eq!(first_cell.count_neighbor(&world), 3);
}

#[test]
fn count_neighbors_ignores_the_cell_itself() {
    let world = world_of(3, 3, &[(1, 1)]);
    assert_eq!(Cell::new(1, 1).count_neighbor(&world), 0);
    assert_eq!(Cell::new_alive(1, 1).count_neighbor(&world), 0);
}

#[test]
fn count_neighbors_of_a_full_neighbourhood_is_eight() {
    let mut all = Vec::new();
    for y in 0..3 {
        for x in 0..3 {
            all.push((x, y));
        }
    }
    let world = world_of(3, 3, &all);
    assert_eq!(Cell::new(1, 1).count_neighbor(&world), 8);
    assert_eq!(Cell::new(0, 0).count_neighbor(&world), 3);
    assert_eq!(Cell::new(1, 0).count_neighbor(&world), 5);
    assert_eq!(Cell::new(2, 2).count_neighbor(&world), 3);
}

#[test]
fn count_neighbors_does_not_wrap() {
    let world = world_of(4, 4, &[(3, 0), (0, 3), (3, 3)]);
    assert_eq!(Cell::new(0, 0).count_neighbor(&world), 0);
    assert_eq!(Cell::new(3, 1).count_neighbor(&world), 1);
}

#[test]
fn count_neighbors_from_outside_the_world() {
    let world = world_of(2, 2, &[(1, 1)]);
    assert_eq!(Cell::new(2, 2).count_neighbor(&world), 1);
    assert_eq!(Cell::new(3, 3).count_neighbor(&world), 0);
    assert_eq!(Cell::new(usize::MAX, usize::MAX).count_neighbor(&world), 0);
    assert_eq!(Cell::new(usize::MAX, 0).count_neighbor(&world), 0);
}

#[test]
fn new_world_is_empty() {
    let world = World::new(Position { x: 7, y: 4 });
    assert_eq!(world.width(), 7);
    assert_eq!(world.height(), 4);
    assert_eq!(world.population(), 0);
    assert!(world.is_first_generation());
    let rows = world.snapshot();
    assert_eq!(rows.len(), 4);
    for row in rows.iter() {
        assert_eq!(row.len(), 7);
        assert!(row.iter().all(|alive| !*alive));
    }
    for y in 0..4 {
        for x in 0..7 {
            assert_eq!(world.is_alive(x, y), Ok(false));
        }
    }
}

#[test]
fn world_without_cells() {
    let mut world = World::new(Position { x: 0, y: 0 });
    assert_eq!(world.population(), 0);
    assert!(world.snapshot().is_empty());
    assert_eq!(world.is_alive(0, 0), Err(WorldError::OutOfBounds));
    assert_eq!(world.add_cell(Cell::new_alive(0, 0)), Err(WorldError::OutOfBounds));
    assert_eq!(world.randon_populate_world(0), Ok(()));
    assert_eq!(world.randon_populate_world(1), Err(WorldError::InvalidPopulationRequest));
    world.tick();
    assert_eq!(world.population(), 0);
}

#[test]
fn cell_constructors() {
    let dead = Cell::new(3, 9);
    assert!(!dead.alive);
    assert_eq!(dead.position, Position { x: 3, y: 9 });
    let mut live = Cell::new_alive(4, 2);
    assert!(live.alive);
    assert_eq!(live.position, Position { x: 4, y: 2 });
    live.kill();
    assert!(!live.alive);
    assert_eq!(live.position, Position { x: 4, y: 2 });
    live.kill();
    assert_eq!(live, Cell::new(4, 2));
}

#[test]
fn add_cell_overwrites_and_tracks_population() {
    let mut world = World::new(Position { x: 3, y: 2 });
    assert_eq!(world.add_cell(Cell::new_alive(2, 1)), Ok(()));
    assert_eq!(world.population(), 1);
    assert_eq!(world.is_alive(2, 1), Ok(true));
    assert_eq!(world.add_cell(Cell::new_alive(2, 1)), Ok(()));
    assert_eq!(world.population(), 1);
    assert_eq!(world.add_cell(Cell::new_alive(0, 0)), Ok(()));
    assert_eq!(world.population(), 2);
    assert_eq!(world.add_cell(Cell::new(2, 1)), Ok(()));
    assert_eq!(world.population(), 1);
    assert_eq!(world.is_alive(2, 1), Ok(false));
    assert_eq!(world.add_cell(Cell::new(2, 1)), Ok(()));
    assert_eq!(world.population(), 1);
    assert_eq!(live_cells(&world), vec![(0, 0)]);
    assert!(world.is_first_generation());
}

#[test]
fn insert_out_of_bounds_is_refused() {
    let mut world = world_of(4, 3, &[(1, 1)]);
    assert_eq!(world.add_cell(Cell::new_alive(4, 0)), Err(WorldError::OutOfBounds));
    assert_eq!(world.add_cell(Cell::new_alive(0, 3)), Err(WorldError::OutOfBounds));
    assert_eq!(world.add_cell(Cell::new_alive(4, 3)), Err(WorldError::OutOfBounds));
    assert_eq!(world.add_cell(Cell::new(usize::MAX, 0)), Err(WorldError::OutOfBounds));
    assert_eq!(
        world.apply_edit(CellEdit { x: -1, y: 0, alive: true }),
        Err(WorldError::OutOfBounds)
    );
    assert_eq!(
        world.apply_edit(CellEdit { x: 0, y: -1, alive: true }),
        Err(WorldError::OutOfBounds)
    );
    assert_eq!(
        world.apply_edit(CellEdit { x: i32::MIN, y: i32::MIN, alive: false }),
        Err(WorldError::OutOfBounds)
    );
    assert_eq!(
        world.apply_edit(CellEdit { x: 4, y: 0, alive: true }),
        Err(WorldError::OutOfBounds)
    );
    assert_eq!(
        world.apply_edit(CellEdit { x: 0, y: 3, alive: true }),
        Err(WorldError::OutOfBounds)
    );
    assert_eq!(world.population(), 1);
    assert_eq!(live_cells(&world), vec![(1, 1)]);
    assert_eq!(world.add_cell(Cell::new_alive(3, 2)), Ok(()));
    assert_eq!(world.apply_edit(CellEdit { x: 0, y: 2, alive: true }), Ok(()));
    assert_eq!(world.apply_edit(CellEdit { x: 1, y: 1, alive: false }), Ok(()));
    assert_eq!(live_cells(&world), vec![(0, 2), (3, 2)]);
    assert_eq!(world.population(), 2);
}

#[test]
fn query_out_of_bounds_is_refused() {
    let world = world_of(4, 3, &[(3, 2)]);
    assert_eq!(world.is_alive(4, 0), Err(WorldError::OutOfBounds));
    assert_eq!(world.is_alive(0, 3), Err(WorldError::OutOfBounds));
    assert_eq!(world.is_alive(-1, 0), Err(WorldError::OutOfBounds));
    assert_eq!(world.is_alive(0, -1), Err(WorldError::OutOfBounds));
    assert_eq!(world.is_alive(i32::MAX, i32::MAX), Err(WorldError::OutOfBounds));
    assert_eq!(world.is_alive(3, 2), Ok(true));
    assert_eq!(world.is_alive(0, 0), Ok(false));
    assert_eq!(world.is_alive(3, 0), Ok(false));
    assert_eq!(world.is_alive(0, 2), Ok(false));
}

#[test]
fn dead_cell_with_three_neighbors_is_born() {
    let mut world = world_of(3, 3, &[(0, 0), (1, 0), (2, 0)]);
    world.tick();
    assert_eq!(world.is_alive(1, 1), Ok(true));
}

#[test]
fn dead_cell_with_two_or_four_neighbors_stays_dead() {
    let mut two = world_of(3, 3, &[(0, 0), (2, 0)]);
    two.tick();
    assert_eq!(two.is_alive(1, 1), Ok(false));
    let mut four = world_of(3, 3, &[(0, 0), (2, 0), (0, 2), (2, 2)]);
    four.tick();
    assert_eq!(four.is_alive(1, 1), Ok(false));
}

#[test]
fn live_cell_with_no_or_one_neighbor_dies() {
    let mut alone = world_of(3, 3, &[(1, 1)]);
    alone.tick();
    assert_eq!(alone.is_alive(1, 1), Ok(false));
    let mut pair = world_of(3, 3, &[(1, 1), (0, 0)]);
    pair.tick();
    assert_eq!(pair.is_alive(1, 1), Ok(false));
    assert_eq!(pair.population(), 0);
}

#[test]
fn live_cell_with_two_or_three_neighbors_survives() {
    let mut two = world_of(3, 3, &[(1, 1), (0, 0), (2, 2)]);
    two.tick();
    assert_eq!(two.is_alive(1, 1), Ok(true));
    let mut three = world_of(3, 3, &[(1, 1), (0, 0), (2, 2), (0, 2)]);
    three.tick();
    assert_eq!(three.is_alive(1, 1), Ok(true));
}

#[test]
fn live_cell_with_four_or_more_neighbors_dies() {
    let mut four = world_of(3, 3, &[(1, 1), (0, 0), (2, 0), (0, 2), (2, 2)]);
    four.tick();
    assert_eq!(four.is_alive(1, 1), Ok(false));
    let mut eight = world_of(
        3,
        3,
        &[(0, 0), (1, 0), (2, 0), (0, 1), (1, 1), (2, 1), (0, 2), (1, 2), (2, 2)],
    );
    eight.tick();
    assert_eq!(eight.is_alive(1, 1), Ok(false));
    assert_eq!(live_cells(&eight), vec![(0, 0), (2, 0), (0, 2), (2, 2)]);
    assert_eq!(eight.population(), 4);
}

#[test]
fn blinker_oscillates() {
    let horizontal = vec![(1, 2), (2, 2), (3, 2)];
    let vertical = vec![(2, 1), (2, 2), (2, 3)];
    let mut world = world_of(5, 5, &horizontal);
    world.tick();
    assert_eq!(live_cells(&world), vertical);
    assert_eq!(world.population(), 3);
    world.tick();
    assert_eq!(live_cells(&world), horizontal);
    assert_eq!(world.population(), 3);
    world.tick();
    assert_eq!(live_cells(&world), vertical);
}

#[test]
fn row_at_the_edge_does_not_leave_the_world() {
    let mut world = world_of(3, 3, &[(0, 0), (1, 0), (2, 0)]);
    world.tick();
    assert_eq!(live_cells(&world), vec![(1, 0), (1, 1)]);
    assert_eq!(world.population(), 2);
    world.tick();
    assert_eq!(live_cells(&world), Vec::new());
    assert_eq!(world.population(), 0);
}

#[test]
fn block_is_still() {
    let block = vec![(1, 1), (2, 1), (1, 2), (2, 2)];
    let mut world = world_of(4, 4, &block);
    for _ in 0..5 {
        world.tick();
        assert_eq!(live_cells(&world), block);
        assert_eq!(world.population(), 4);
    }
}

#[test]
fn glider_moves_diagonally() {
    let mut world = world_of(6, 6, &[(1, 0), (2, 1), (0, 2), (1, 2), (2, 2)]);
    for _ in 0..4 {
        world.tick();
    }
    assert_eq!(live_cells(&world), vec![(2, 1), (3, 2), (1, 3), (2, 3), (3, 3)]);
    assert_eq!(world.population(), 5);
}

#[test]
fn tick_keeps_the_extent_and_clears_the_first_generation() {
    let mut world = world_of(6, 2, &[(0, 0)]);
    assert!(world.is_first_generation());
    world.tick();
    assert!(!world.is_first_generation());
    assert_eq!(world.width(), 6);
    assert_eq!(world.height(), 2);
    assert_eq!(world.snapshot(), vec![vec![false; 6]; 2]);
}

#[test]
fn extinct_world_stays_as_it_is() {
    let mut world = World::new(Position { x: 3, y: 3 });
    world.tick();
    assert!(!world.is_first_generation());
    assert_eq!(world.population(), 0);
    world.tick();
    world.tick();
    assert_eq!(world.population(), 0);
    assert_eq!(live_cells(&world), Vec::new());
    assert!(!world.is_first_generation());
}

#[test]
fn world_comes_back_after_extinction() {
    let mut world = world_of(5, 5, &[(2, 2)]);
    world.tick();
    assert_eq!(world.population(), 0);
    world.tick();
    for cell in [(1, 2), (2, 2), (3, 2)] {
        world.add_cell(Cell::new_alive(cell.0, cell.1)).unwrap();
    }
    assert_eq!(world.population(), 3);
    world.tick();
    assert_eq!(live_cells(&world), vec![(2, 1), (2, 2), (2, 3)]);
}

#[test]
fn snapshot_is_indexed_by_row_then_column() {
    let world = world_of(3, 2, &[(2, 0), (0, 1)]);
    assert_eq!(world.snapshot(), vec![vec![false, false, true], vec![true, false, false]]);
}

#[test]
fn seed_nth_dead_takes_dead_cells_in_row_major_order() {
    let mut world = world_of(3, 2, &[(0, 0), (2, 0), (1, 1)]);
    assert_eq!(world.seed_nth_dead(3), None);
    assert_eq!(world.seed_nth_dead(usize::MAX), None);
    assert_eq!(world.population(), 3);
    assert_eq!(world.seed_nth_dead(1), Some(Position { x: 0, y: 1 }));
    assert_eq!(world.population(), 4);
    assert_eq!(live_cells(&world), vec![(0, 0), (2, 0), (0, 1), (1, 1)]);
    assert_eq!(world.seed_nth_dead(1), Some(Position { x: 2, y: 1 }));
    assert_eq!(world.seed_nth_dead(1), None);
    assert_eq!(world.seed_nth_dead(0), Some(Position { x: 1, y: 0 }));
    assert_eq!(world.seed_nth_dead(0), None);
    assert_eq!(world.population(), 6);
}

#[test]
fn random_populate_seeds_exactly_the_count() {
    let mut world = World::new(Position { x: WORLD_SIZE, y: WORLD_SIZE });
    assert_eq!(world.randon_populate_world(200), Ok(()));
    assert_eq!(world.population(), 200);
    assert_eq!(live_cells(&world).len(), 200);
    assert!(world.is_first_generation());
    assert_eq!(world.width(), WORLD_SIZE);
    assert_eq!(world.height(), WORLD_SIZE);
}

#[test]
fn random_populate_fills_the_world() {
    let mut world = World::new(Position { x: 4, y: 3 });
    assert_eq!(world.randon_populate_world(12), Ok(()));
    assert_eq!(world.population(), 12);
    assert_eq!(world.snapshot(), vec![vec![true; 4]; 3]);
    assert_eq!(world.randon_populate_world(0), Ok(()));
    assert_eq!(world.randon_populate_world(1), Err(WorldError::InvalidPopulationRequest));
    assert_eq!(world.population(), 12);
}

#[test]
fn random_populate_of_nothing_changes_nothing() {
    let mut world = world_of(3, 3, &[(1, 1)]);
    assert_eq!(world.randon_populate_world(0), Ok(()));
    assert_eq!(live_cells(&world), vec![(1, 1)]);
    assert_eq!(world.population(), 1);
}

#[test]
fn random_populate_keeps_the_cells_that_live() {
    for _ in 0..20 {
        let before = vec![(0, 0), (1, 1), (2, 2)];
        let mut world = world_of(3, 3, &before);
        assert_eq!(world.randon_populate_world(4), Ok(()));
        let after = live_cells(&world);
        assert_eq!(after.len(), 7);
        assert_eq!(world.population(), 7);
        for cell in before.iter() {
            assert!(after.contains(cell));
        }
    }
}

#[test]
fn random_populate_beyond_capacity_is_refused() {
    let mut world = World::new(Position { x: 3, y: 3 });
    assert_eq!(world.randon_populate_world(10), Err(WorldError::InvalidPopulationRequest));
    assert_eq!(world.randon_populate_world(u32::MAX), Err(WorldError::InvalidPopulationRequest));
    assert_eq!(world.population(), 0);
    assert_eq!(live_cells(&world), Vec::new());
    assert_eq!(world.randon_populate_world(9), Ok(()));
    assert_eq!(world.population(), 9);
}

#[test]
fn random_populate_beyond_the_room_left_is_refused() {
    let mut world = world_of(2, 2, &[(0, 0), (1, 0), (0, 1)]);
    assert_eq!(world.randon_populate_world(2), Err(WorldError::InvalidPopulationRequest));
    assert_eq!(live_cells(&world), vec![(0, 0), (1, 0), (0, 1)]);
    assert_eq!(world.randon_populate_world(1), Ok(()));
    assert_eq!(world.snapshot(), vec![vec![true; 2]; 2]);
}

#[test]
fn random_populate_reaches_every_cell() {
    let mut seen = vec![false; 6];
    for _ in 0..400 {
        let mut world = World::new(Position { x: 3, y: 2 });
        world.randon_populate_world(1).unwrap();
        let live = live_cells(&world);
        assert_eq!(live.len(), 1);
        seen[live[0].1 * 3 + live[0].0] = true;
    }
    assert!(seen.iter().all(|hit| *hit));
}

#[test]
fn world_error_messages() {
    assert_eq!(WorldError::OutOfBounds.message(), "the position is outside the world");
    assert_eq!(
        WorldError::InvalidPopulationRequest.message(),
        "the world has too few dead cells left"
    );
}
