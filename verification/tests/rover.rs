use graph_search::mars_rover::{get_history, CardinalDir, Command, Coord, Grid, MarsRover};

#[test]
fn test_turning_actions() {
    let grid = Grid::new(20, 20);
    let rover = MarsRover::new(Coord(0, 0), CardinalDir::East);

    let command_one = Command::Clockwise;
    let rover = rover.execute_command(&command_one, &grid);
    assert!(rover.direction == CardinalDir::South);

    let command_two = Command::AntiClockwise;
    let rover = rover.execute_command(&command_two, &grid);
    assert!(rover.direction == CardinalDir::East);
}

#[test]
fn test_moving() {
    let grid = Grid::new(20, 20);
    let rover = MarsRover::new(Coord(0, 0), CardinalDir::East);

    let command_one = Command::Forward(1);
    let rover = rover.execute_command(&command_one, &grid);
    assert_eq!(1, rover.position.0);
    assert_eq!(0, rover.position.1);
}

#[test]
fn test_moving_off_end() {
    let grid = Grid::new(20, 20);
    let rover = MarsRover::new(Coord(0, 0), CardinalDir::West);

    let command_one = Command::Forward(1);
    let rover = rover.execute_command(&command_one, &grid);
    assert_eq!(19, rover.position.0);
    assert_eq!(0, rover.position.1);
}

#[test]
fn test_moving_into_an_obstacle() {
    let obstacles = vec![Coord(0, 1), Coord(1, 0)];
    let grid = Grid::new(20, 20).add_terrain(obstacles);
    let rover = MarsRover::new(Coord(0, 0), CardinalDir::East);

    let command_one = Command::Forward(1);
    let rover = rover.execute_command(&command_one, &grid);
    assert_eq!(0, rover.position.0);
    assert_eq!(0, rover.position.1);
}

fn walled() -> Grid {
    let obstacles = vec![
        Coord(0, 1),
        Coord(1, 1),
        Coord(2, 1),
        Coord(3, 1),
        Coord(4, 1),
    ];
    Grid::new(5, 3).add_terrain(obstacles)
}

#[test]
fn test_auto_pilot() {
    let obstacles = vec![
        Coord(0, 1),
        Coord(1, 1),
        Coord(2, 1),
        Coord(3, 1),
        Coord(4, 1),
    ];
    let grid = Grid::new(5, 3).add_terrain(obstacles);
    let rover = MarsRover::new(Coord(0, 0), CardinalDir::East);

    let route = rover.auto_pilot(&grid, &Coord(2, 2));
    assert_eq!(4, route.unwrap().len());
}

#[test]
fn auto_pilot_route_is_a_walk_to_the_target() {
    let grid = walled();
    let rover = MarsRover::new(Coord(0, 0), CardinalDir::East);
    let route = rover.auto_pilot(&grid, &Coord(2, 2)).unwrap();
    assert_eq!(vec![Coord(0, 0), Coord(0, 2), Coord(1, 2), Coord(2, 2)], route);
    assert_eq!(Coord(2, 2), route[route.len() - 1]);
    for (i, c) in route.iter().enumerate() {
        assert!(c.0 < 5 && c.1 < 3);
        assert!(!route[..i].contains(c));
    }
    for pair in route.windows(2) {
        let next: Vec<Coord> = grid.cord_neighbours(&pair[0]).into_iter().collect();
        assert!(next.contains(&pair[1]));
        let back: Vec<Coord> = grid.cord_neighbours(&pair[1]).into_iter().collect();
        assert!(back.contains(&pair[0]));
    }
}

#[test]
fn auto_pilot_to_where_the_rover_stands() {
    let grid = walled();
    let rover = MarsRover::new(Coord(3, 2), CardinalDir::North);
    assert_eq!(Some(vec![Coord(3, 2)]), rover.auto_pilot(&grid, &Coord(3, 2)));
    // no cell is needed for a route that does not move
    let nothing = Grid::new(0, 0);
    assert_eq!(Some(vec![Coord(3, 2)]), rover.auto_pilot(&nothing, &Coord(3, 2)));
}

#[test]
fn auto_pilot_finds_no_route_into_an_obstacle() {
    let grid = walled();
    let rover = MarsRover::new(Coord(0, 0), CardinalDir::East);
    assert_eq!(None, rover.auto_pilot(&grid, &Coord(2, 1)));
}

#[test]
fn auto_pilot_finds_no_route_across_a_closed_ring() {
    // rows 1 and 3 are blocked: rows 0 and 4 are joined by the wrap, row 2 is cut off
    let mut obstacles = Vec::new();
    for x in 0..4 {
        obstacles.push(Coord(x, 1));
        obstacles.push(Coord(x, 3));
    }
    let grid = Grid::new(4, 5).add_terrain(obstacles);
    let rover = MarsRover::new(Coord(0, 0), CardinalDir::East);
    assert_eq!(None, rover.auto_pilot(&grid, &Coord(2, 2)));
    assert_eq!(
        Some(vec![Coord(0, 0), Coord(0, 4)]),
        rover.auto_pilot(&grid, &Coord(0, 4))
    );
}

#[test]
fn auto_pilot_on_an_open_grid() {
    let grid = Grid::new(20, 20);
    let rover = MarsRover::new(Coord(0, 0), CardinalDir::East);
    assert_eq!(
        Some(vec![Coord(0, 0), Coord(0, 1)]),
        rover.auto_pilot(&grid, &Coord(0, 1))
    );
    assert_eq!(
        Some(vec![Coord(0, 0), Coord(19, 0)]),
        rover.auto_pilot(&grid, &Coord(19, 0))
    );
    // of the two cells that lead on to the target, the one visited later
    assert_eq!(
        Some(vec![Coord(0, 0), Coord(1, 0), Coord(1, 1)]),
        rover.auto_pilot(&grid, &Coord(1, 1))
    );
}

#[test]
fn step_on_an_open_grid() {
    let grid = Grid::new(20, 20);
    assert_eq!(Coord(1, 0), grid.step(&CardinalDir::East, &Coord(0, 0), 1));
    assert_eq!(Coord(19, 0), grid.step(&CardinalDir::West, &Coord(0, 0), 1));
    assert_eq!(Coord(0, 1), grid.step(&CardinalDir::North, &Coord(0, 0), 1));
    assert_eq!(Coord(0, 19), grid.step(&CardinalDir::South, &Coord(0, 0), 1));
    assert_eq!(Coord(0, 0), grid.step(&CardinalDir::East, &Coord(19, 0), 1));
    assert_eq!(Coord(7, 0), grid.step(&CardinalDir::North, &Coord(7, 19), 1));
}

#[test]
fn step_of_no_moves_stays() {
    let grid = Grid::new(20, 20);
    assert_eq!(Coord(5, 6), grid.step(&CardinalDir::East, &Coord(5, 6), 0));
    let nothing = Grid::new(0, 0);
    assert_eq!(Coord(5, 6), nothing.step(&CardinalDir::South, &Coord(5, 6), 0));
}

#[test]
fn step_walks_cell_by_cell() {
    let grid = Grid::new(20, 20);
    assert_eq!(Coord(3, 0), grid.step(&CardinalDir::East, &Coord(0, 0), 3));
    assert_eq!(Coord(17, 0), grid.step(&CardinalDir::West, &Coord(0, 0), 3));
    assert_eq!(Coord(2, 4), grid.step(&CardinalDir::North, &Coord(2, 19), 5));
    // a full round and one more
    assert_eq!(Coord(1, 0), grid.step(&CardinalDir::East, &Coord(0, 0), 21));
}

#[test]
fn step_stops_in_front_of_an_obstacle() {
    let grid = Grid::new(20, 20).add_terrain(vec![Coord(1, 0)]);
    assert_eq!(Coord(0, 0), grid.step(&CardinalDir::East, &Coord(0, 0), 1));
    let grid = Grid::new(20, 20).add_terrain(vec![Coord(4, 0)]);
    assert_eq!(Coord(3, 0), grid.step(&CardinalDir::East, &Coord(0, 0), 10));
    assert_eq!(Coord(5, 0), grid.step(&CardinalDir::West, &Coord(0, 0), 30));
    assert_eq!(Coord(4, 3), grid.step(&CardinalDir::North, &Coord(4, 1), 2));
}

#[test]
fn step_brings_a_far_coordinate_into_the_grid() {
    let grid = Grid::new(20, 10);
    assert_eq!(Coord(6, 50), grid.step(&CardinalDir::East, &Coord(25, 50), 1));
    assert_eq!(Coord(4, 50), grid.step(&CardinalDir::West, &Coord(25, 50), 1));
    assert_eq!(Coord(25, 1), grid.step(&CardinalDir::North, &Coord(25, 50), 1));
    assert_eq!(Coord(25, 9), grid.step(&CardinalDir::South, &Coord(25, 50), 1));
    assert_eq!(
        Coord(usize::MAX % 20, 0),
        grid.step(&CardinalDir::East, &Coord(usize::MAX - 1, 0), 1)
    );
}

#[test]
fn step_on_a_single_cell() {
    let grid = Grid::new(1, 1);
    assert_eq!(Coord(0, 0), grid.step(&CardinalDir::East, &Coord(0, 0), 4));
    assert_eq!(Coord(0, 0), grid.step(&CardinalDir::South, &Coord(0, 0), 4));
}

#[test]
fn terrain_replaces_terrain() {
    let grid = Grid::new(20, 20)
        .add_terrain(vec![Coord(1, 0)])
        .add_terrain(vec![Coord(0, 1), Coord(0, 1)]);
    assert_eq!(Coord(1, 0), grid.step(&CardinalDir::East, &Coord(0, 0), 1));
    assert_eq!(Coord(0, 0), grid.step(&CardinalDir::North, &Coord(0, 0), 1));
    let cleared = grid.add_terrain(Vec::new());
    assert_eq!(Coord(0, 1), cleared.step(&CardinalDir::North, &Coord(0, 0), 1));
}

#[test]
fn obstacle_cells_are_told_apart() {
    // (1, 0) and (0, 1) must not be mistaken for each other
    let grid = Grid::new(20, 20).add_terrain(vec![Coord(1, 0)]);
    assert_eq!(Coord(0, 1), grid.step(&CardinalDir::North, &Coord(0, 0), 1));
    assert_eq!(Coord(0, 0), grid.step(&CardinalDir::East, &Coord(0, 0), 1));
}

#[test]
fn neighbours_come_north_east_south_west() {
    let grid = Grid::new(20, 20);
    let got: Vec<Coord> = grid.cord_neighbours(&Coord(5, 5)).into_iter().collect();
    assert_eq!(vec![Coord(5, 6), Coord(6, 5), Coord(5, 4), Coord(4, 5)], got);
    let corner: Vec<Coord> = grid.cord_neighbours(&Coord(0, 0)).into_iter().collect();
    assert_eq!(vec![Coord(0, 1), Coord(1, 0), Coord(0, 19), Coord(19, 0)], corner);
}

#[test]
fn neighbours_leave_out_blocked_moves() {
    let grid = Grid::new(20, 20).add_terrain(vec![Coord(0, 1), Coord(1, 0)]);
    let got: Vec<Coord> = grid.cord_neighbours(&Coord(0, 0)).into_iter().collect();
    assert_eq!(vec![Coord(0, 19), Coord(19, 0)], got);
    for c in got {
        assert!(c != Coord(0, 0));
    }
    let shut = Grid::new(3, 3).add_terrain(vec![
        Coord(1, 2),
        Coord(2, 1),
        Coord(1, 0),
        Coord(0, 1),
    ]);
    assert_eq!(0, shut.cord_neighbours(&Coord(1, 1)).len());
}

#[test]
fn neighbours_on_a_narrow_grid() {
    // on one column a move east or west comes back to the same cell
    let grid = Grid::new(1, 3);
    let got: Vec<Coord> = grid.cord_neighbours(&Coord(0, 0)).into_iter().collect();
    assert_eq!(vec![Coord(0, 1), Coord(0, 2)], got);
}

#[test]
fn route_of_a_history() {
    let grid = walled();
    let history = vec![
        Coord(0, 0),
        Coord(1, 0),
        Coord(0, 2),
        Coord(4, 0),
        Coord(2, 0),
        Coord(1, 2),
        Coord(4, 2),
        Coord(3, 0),
        Coord(2, 2),
    ];
    assert_eq!(
        vec![Coord(0, 0), Coord(0, 2), Coord(1, 2), Coord(2, 2)],
        get_history(history, &grid)
    );
}

#[test]
fn route_of_short_histories() {
    let grid = Grid::new(20, 20);
    assert_eq!(Vec::<Coord>::new(), get_history(Vec::new(), &grid));
    assert_eq!(vec![Coord(3, 3)], get_history(vec![Coord(3, 3)], &grid));
    // two cells that are not next to each other: only the end is kept
    assert_eq!(
        vec![Coord(9, 9)],
        get_history(vec![Coord(3, 3), Coord(9, 9)], &grid)
    );
    assert_eq!(
        vec![Coord(3, 3), Coord(3, 4)],
        get_history(vec![Coord(3, 3), Coord(3, 4)], &grid)
    );
}

#[test]
fn direction_units() {
    assert_eq!(1, CardinalDir::North.v());
    assert_eq!(1, CardinalDir::East.v());
    assert_eq!(-1, CardinalDir::South.v());
    assert_eq!(-1, CardinalDir::West.v());
}

#[test]
fn four_turns_come_round() {
    let grid = Grid::new(20, 20);
    for start in [
        CardinalDir::North,
        CardinalDir::East,
        CardinalDir::South,
        CardinalDir::West,
    ] {
        let mut rover = MarsRover::new(Coord(2, 3), start);
        for _ in 0..4 {
            rover = rover.execute_command(&Command::Clockwise, &grid);
        }
        assert_eq!(MarsRover::new(Coord(2, 3), start), rover);
        for _ in 0..4 {
            rover = rover.execute_command(&Command::AntiClockwise, &grid);
        }
        assert_eq!(MarsRover::new(Coord(2, 3), start), rover);
        let there = rover.execute_command(&Command::Clockwise, &grid);
        let back = there.execute_command(&Command::AntiClockwise, &grid);
        assert_eq!(rover, back);
        let there = rover.execute_command(&Command::AntiClockwise, &grid);
        let back = there.execute_command(&Command::Clockwise, &grid);
        assert_eq!(rover, back);
    }
}

#[test]
fn turns_follow_the_compass() {
    let grid = Grid::new(20, 20);
    let rover = MarsRover::new(Coord(0, 0), CardinalDir::North);
    let rover = rover.execute_command(&Command::Clockwise, &grid);
    assert_eq!(CardinalDir::East, rover.direction);
    let rover = rover.execute_command(&Command::Clockwise, &grid);
    assert_eq!(CardinalDir::South, rover.direction);
    let rover = rover.execute_command(&Command::Clockwise, &grid);
    assert_eq!(CardinalDir::West, rover.direction);
    let rover = rover.execute_command(&Command::Clockwise, &grid);
    assert_eq!(CardinalDir::North, rover.direction);
    let rover = rover.execute_command(&Command::AntiClockwise, &grid);
    assert_eq!(CardinalDir::West, rover.direction);
    assert_eq!(Coord(0, 0), rover.position);
}

#[test]
fn forward_keeps_the_direction() {
    let grid = Grid::new(20, 20).add_terrain(vec![Coord(5, 8)]);
    let rover = MarsRover::new(Coord(5, 5), CardinalDir::North);
    let rover = rover.execute_command(&Command::Forward(10), &grid);
    assert_eq!(MarsRover::new(Coord(5, 7), CardinalDir::North), rover);
    let rover = rover.execute_command(&Command::Forward(0), &grid);
    assert_eq!(MarsRover::new(Coord(5, 7), CardinalDir::North), rover);
}

#[test]
fn moves_repeat_their_answers() {
    let grid = walled();
    let rover = MarsRover::new(Coord(0, 0), CardinalDir::East);
    assert_eq!(
        grid.step(&CardinalDir::East, &Coord(0, 0), 7),
        grid.step(&CardinalDir::East, &Coord(0, 0), 7)
    );
    assert_eq!(
        rover.auto_pilot(&grid, &Coord(2, 2)),
        rover.auto_pilot(&grid, &Coord(2, 2))
    );
}

#[test]
fn grid_keeps_its_size() {
    let grid = Grid::new(5, 3);
    assert_eq!(5, grid.width());
    assert_eq!(3, grid.height());
    let grid = grid.add_terrain(vec![Coord(1, 1)]);
    assert_eq!(5, grid.width());
    assert_eq!(3, grid.height());
}

#[test]
fn grids_with_the_same_terrain_are_equal() {
    let a = Grid::new(5, 3).add_terrain(vec![Coord(1, 1), Coord(2, 2)]);
    let b = Grid::new(5, 3).add_terrain(vec![Coord(2, 2), Coord(1, 1), Coord(2, 2)]);
    assert_eq!(a, b);
    assert_ne!(a, Grid::new(5, 3));
    assert_ne!(a, Grid::new(3, 5).add_terrain(vec![Coord(1, 1), Coord(2, 2)]));
}

#[test]
fn auto_pilot_from_outside_the_grid() {
    // the rover's row is kept until a move north or south brings it in
    let grid = Grid::new(3, 3);
    let rover = MarsRover::new(Coord(0, 7), CardinalDir::East);
    assert_eq!(
        Some(vec![Coord(0, 7), Coord(1, 7)]),
        rover.auto_pilot(&grid, &Coord(1, 7))
    );
    assert_eq!(
        Some(vec![Coord(0, 7), Coord(0, 2)]),
        rover.auto_pilot(&grid, &Coord(0, 2))
    );
    assert_eq!(None, rover.auto_pilot(&grid, &Coord(5, 5)));
}
