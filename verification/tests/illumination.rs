use spotlight::order::calculate_distance;
use spotlight::{Action, Direction, Event, Grid, Illumination, Spotlight, SpotlightError};

/// A world kept in memory: it carries out what an illumination asks for.
struct World {
    cells: Vec<Vec<bool>>,
    robot: (usize, usize),
    /// How many readings of the map succeed before the map becomes unreadable.
    readings: usize,
    failing_view: Option<Direction>,
    failing_tile: Option<(usize, usize)>,
    asked: Vec<Action>,
}

fn world_of(rows: &[&str], robot: (usize, usize)) -> World {
    World {
        cells: rows.iter().map(|row| row.chars().map(|c| c == '#').collect()).collect(),
        robot,
        readings: usize::MAX,
        failing_view: None,
        failing_tile: None,
        asked: Vec::new(),
    }
}

fn hidden_world(size: usize, robot: (usize, usize)) -> World {
    let row = ".".repeat(size);
    let rows: Vec<&str> = (0..size).map(|_| row.as_str()).collect();
    world_of(&rows, robot)
}

fn picture(world: &World) -> Vec<String> {
    world
        .cells
        .iter()
        .map(|row| row.iter().map(|seen| if *seen { '#' } else { '.' }).collect())
        .collect()
}

fn read_map(world: &mut World) -> Option<Grid> {
    if world.readings == 0 {
        return None;
    }
    world.readings -= 1;
    Some(Grid::new(world.cells.clone()).unwrap())
}

fn look(world: &mut World, direction: Direction, length: usize) -> bool {
    if world.failing_view == Some(direction) {
        return false;
    }
    let size = world.cells.len();
    let (mut row, mut col) = world.robot;
    world.cells[row][col] = true;
    for _ in 0..length {
        match direction {
            Direction::Up if row > 0 => row -= 1,
            Direction::Down if row + 1 < size => row += 1,
            Direction::Left if col > 0 => col -= 1,
            Direction::Right if col + 1 < size => col += 1,
            _ => break,
        }
        world.cells[row][col] = true;
    }
    true
}

fn discover(world: &mut World, tile: (usize, usize)) -> bool {
    if world.failing_tile == Some(tile) {
        return false;
    }
    world.cells[tile.0][tile.1] = true;
    true
}

fn carry_out(world: &mut World, action: Action) -> Event {
    match action {
        Action::ReadMap => Event::Snapshot(read_map(world)),
        Action::LookAround => {
            let (row, col) = world.robot;
            world.cells[row][col] = true;
            Event::Outcome(true)
        }
        Action::Look(direction, length) => Event::Outcome(look(world, direction, length)),
        Action::Discover(tile) => Event::Outcome(discover(world, tile)),
        Action::Finish(_) => unreachable!(),
    }
}

fn illuminate(world: &mut World, distance: usize) -> Result<(), SpotlightError> {
    let mut state = Illumination::new(world.robot, distance);
    let mut action = state.request();
    loop {
        world.asked.push(action);
        if let Action::Finish(result) = action {
            return result;
        }
        let event = carry_out(world, action);
        let next = Spotlight::illuminate(state, event);
        state = next.0;
        action = next.1;
    }
}

fn discoveries(world: &World) -> Vec<(usize, usize)> {
    let mut tiles = Vec::new();
    for action in &world.asked {
        if let Action::Discover(tile) = action {
            tiles.push(*tile);
        }
    }
    tiles
}

#[test]
fn a_new_illumination_asks_for_the_map() {
    let state = Illumination::new((4, 2), 7);
    assert_eq!(state.request(), Action::ReadMap);
    assert_eq!(state.robot(), (4, 2));
    assert_eq!(state.distance(), 7);
    assert_eq!(state.estimate(), None);
}

#[test]
fn distance_one_only_looks_around() {
    let mut world = hidden_world(3, (1, 1));
    assert_eq!(illuminate(&mut world, 1), Ok(()));
    assert_eq!(world.asked, vec![Action::ReadMap, Action::LookAround, Action::Finish(Ok(()))]);
    assert_eq!(picture(&world), vec!["...", ".#.", "..."]);
}

#[test]
fn distance_zero_does_nothing() {
    let mut world = hidden_world(3, (1, 1));
    assert_eq!(illuminate(&mut world, 0), Ok(()));
    assert_eq!(world.asked, vec![Action::ReadMap, Action::Finish(Ok(()))]);
    assert_eq!(picture(&world), vec!["...", "...", "..."]);
}

#[test]
fn a_short_distance_makes_no_estimate() {
    let grid = Grid::new(vec![vec![false; 3]; 3]).unwrap();
    let (state, action) =
        Spotlight::illuminate(Illumination::new((1, 1), 1), Event::Snapshot(Some(grid)));
    assert_eq!(action, Action::LookAround);
    assert_eq!(state.estimate(), None);
    let (state, action) = Spotlight::illuminate(state, Event::Outcome(false));
    assert_eq!(action, Action::Finish(Ok(())));
    assert_eq!(state.estimate(), None);
}

#[test]
fn the_smallest_map_only_looks_around() {
    let mut world = hidden_world(1, (0, 0));
    assert_eq!(illuminate(&mut world, 9), Ok(()));
    assert_eq!(world.asked, vec![Action::ReadMap, Action::LookAround, Action::Finish(Ok(()))]);
}

#[test]
fn a_small_hidden_map_is_lit_up_corner_by_corner() {
    let mut world = hidden_world(3, (1, 1));
    assert_eq!(illuminate(&mut world, 2), Ok(()));
    assert_eq!(
        world.asked,
        vec![
            Action::ReadMap,
            Action::ReadMap,
            Action::Look(Direction::Right, 2),
            Action::Look(Direction::Down, 2),
            Action::Look(Direction::Left, 2),
            Action::Look(Direction::Up, 2),
            Action::ReadMap,
            Action::Discover((0, 0)),
            Action::Discover((0, 2)),
            Action::Discover((2, 0)),
            Action::Discover((2, 2)),
            Action::Finish(Ok(())),
        ]
    );
    assert_eq!(picture(&world), vec!["###", "###", "###"]);
}

#[test]
fn without_a_map_nothing_is_revealed() {
    let mut world = hidden_world(3, (1, 1));
    world.readings = 0;
    assert_eq!(illuminate(&mut world, 2), Err(SpotlightError::MapUnavailable));
    assert_eq!(
        world.asked,
        vec![Action::ReadMap, Action::Finish(Err(SpotlightError::MapUnavailable))]
    );
    assert_eq!(picture(&world), vec!["...", "...", "..."]);
}

#[test]
fn without_a_map_for_the_estimate_nothing_is_revealed() {
    let mut world = hidden_world(3, (1, 1));
    world.readings = 1;
    assert_eq!(illuminate(&mut world, 2), Err(SpotlightError::MapUnavailable));
    assert_eq!(
        world.asked,
        vec![Action::ReadMap, Action::ReadMap, Action::Finish(Err(SpotlightError::MapUnavailable))]
    );
    assert_eq!(picture(&world), vec!["...", "...", "..."]);
}

#[test]
fn without_a_map_after_the_views_the_views_stand() {
    let mut world = hidden_world(3, (1, 1));
    world.readings = 2;
    assert_eq!(illuminate(&mut world, 2), Err(SpotlightError::MapUnavailable));
    assert_eq!(discoveries(&world), vec![]);
    assert_eq!(picture(&world), vec![".#.", "###", ".#."]);
}

#[test]
fn the_distance_is_clamped_to_the_side_of_the_map() {
    let mut world = hidden_world(3, (0, 0));
    assert_eq!(illuminate(&mut world, 10), Ok(()));
    assert_eq!(world.asked[2], Action::Look(Direction::Right, 3));
    assert_eq!(world.asked[3], Action::Look(Direction::Down, 3));
    assert_eq!(world.asked[4], Action::Look(Direction::Left, 3));
    assert_eq!(world.asked[5], Action::Look(Direction::Up, 3));
    assert_eq!(discoveries(&world), vec![(1, 1), (1, 2), (2, 1), (2, 2)]);
    assert_eq!(picture(&world), vec!["###", "###", "###"]);
}

#[test]
fn a_failed_view_ends_the_illumination() {
    for (failing, views_before) in [
        (Direction::Right, 0),
        (Direction::Down, 1),
        (Direction::Left, 2),
        (Direction::Up, 3),
    ] {
        let mut world = hidden_world(5, (2, 2));
        world.failing_view = Some(failing);
        assert_eq!(illuminate(&mut world, 2), Err(SpotlightError::ScanFailed(failing)));
        assert_eq!(world.asked.len(), 2 + views_before + 2);
        assert_eq!(world.asked[2 + views_before], Action::Look(failing, 2));
        assert_eq!(
            world.asked[2 + views_before + 1],
            Action::Finish(Err(SpotlightError::ScanFailed(failing)))
        );
        assert_eq!(discoveries(&world), vec![]);
    }
}

#[test]
fn views_before_a_failed_view_stand() {
    let mut world = hidden_world(5, (2, 2));
    world.failing_view = Some(Direction::Left);
    assert_eq!(illuminate(&mut world, 2), Err(SpotlightError::ScanFailed(Direction::Left)));
    assert_eq!(picture(&world), vec![".....", ".....", "..###", "..#..", "..#.."]);
}

#[test]
fn a_failed_discovery_ends_the_illumination() {
    let mut world = hidden_world(3, (1, 1));
    world.failing_tile = Some((2, 0));
    assert_eq!(illuminate(&mut world, 2), Err(SpotlightError::DiscoverFailed((2, 0))));
    assert_eq!(discoveries(&world), vec![(0, 0), (0, 2), (2, 0)]);
    assert_eq!(
        world.asked.last(),
        Some(&Action::Finish(Err(SpotlightError::DiscoverFailed((2, 0)))))
    );
    assert_eq!(picture(&world), vec!["###", "###", ".#."]);
}

#[test]
fn a_failed_first_discovery_reveals_no_tile_more() {
    let mut world = hidden_world(3, (1, 1));
    world.failing_tile = Some((0, 0));
    assert_eq!(illuminate(&mut world, 2), Err(SpotlightError::DiscoverFailed((0, 0))));
    assert_eq!(picture(&world), vec![".#.", "###", ".#."]);
}

#[test]
fn a_failed_last_discovery_fails_the_illumination() {
    let mut world = hidden_world(3, (1, 1));
    world.failing_tile = Some((2, 2));
    assert_eq!(illuminate(&mut world, 2), Err(SpotlightError::DiscoverFailed((2, 2))));
    assert_eq!(picture(&world), vec!["###", "###", "##."]);
}

#[test]
fn a_second_illumination_discovers_nothing() {
    let mut world = world_of(&["..#...", "......", "...#..", ".#....", "......", "....#."], (2, 3));
    assert_eq!(illuminate(&mut world, 2), Ok(()));
    assert!(!discoveries(&world).is_empty());
    let after_first = picture(&world);
    world.asked.clear();
    assert_eq!(illuminate(&mut world, 2), Ok(()));
    assert_eq!(discoveries(&world), vec![]);
    assert_eq!(picture(&world), after_first);
    assert_eq!(world.asked.len(), 8);
}

#[test]
fn discovering_a_discovered_tile_changes_nothing() {
    let mut world = world_of(&["#.", ".#"], (0, 0));
    let before = picture(&world);
    assert!(discover(&mut world, (0, 0)));
    assert!(discover(&mut world, (1, 1)));
    assert_eq!(picture(&world), before);
}

#[test]
fn the_whole_square_is_discovered_and_nothing_else() {
    let mut world = hidden_world(9, (3, 5));
    assert_eq!(illuminate(&mut world, 3), Ok(()));
    assert_eq!(
        picture(&world),
        vec![
            "..#######",
            "..#######",
            "..#######",
            "..#######",
            "..#######",
            "..#######",
            "..#######",
            ".........",
            ".........",
        ]
    );
}

#[test]
fn tiles_are_discovered_nearest_first() {
    let mut world = hidden_world(9, (3, 5));
    assert_eq!(illuminate(&mut world, 4), Ok(()));
    let tiles = discoveries(&world);
    // A square of eight by eight tiles, without the fifteen of the robot's row and column.
    assert_eq!(tiles.len(), 8 * 8 - 15);
    for pair in tiles.windows(2) {
        let nearer = calculate_distance(pair[0], (3, 5));
        let farther = calculate_distance(pair[1], (3, 5));
        assert!(nearer <= farther);
        if nearer == farther {
            assert!(pair[0] < pair[1]);
        }
    }
}

#[test]
fn discovered_tiles_are_not_discovered_again() {
    let mut world = world_of(&["#.#", "...", "#.."], (1, 1));
    assert_eq!(illuminate(&mut world, 2), Ok(()));
    assert_eq!(discoveries(&world), vec![(2, 2)]);
}

#[test]
fn the_estimate_is_made_on_the_second_reading() {
    let first = Grid::new(vec![vec![false; 5]; 5]).unwrap();
    let second = Grid::new(vec![vec![true; 5]; 5]).unwrap();
    let (state, action) =
        Spotlight::illuminate(Illumination::new((2, 2), 2), Event::Snapshot(Some(first)));
    assert_eq!(action, Action::ReadMap);
    assert_eq!(state.estimate(), None);
    let (state, action) = Spotlight::illuminate(state, Event::Snapshot(Some(second)));
    assert_eq!(action, Action::Look(Direction::Right, 2));
    assert_eq!(state.estimate(), Some(24));
}

#[test]
fn the_estimate_counts_views_and_hidden_tiles() {
    let first = Grid::new(vec![vec![false; 5]; 5]).unwrap();
    let second = Grid::new(vec![vec![false; 5]; 5]).unwrap();
    let (state, _) =
        Spotlight::illuminate(Illumination::new((2, 2), 2), Event::Snapshot(Some(first)));
    let (state, _) = Spotlight::illuminate(state, Event::Snapshot(Some(second)));
    assert_eq!(state.estimate(), Some(72));
    assert_eq!(state.estimate(), Spotlight::calculate_illuminate_cost(
        Some(&Grid::new(vec![vec![false; 5]; 5]).unwrap()),
        (2, 2),
        2,
    ).ok());
}

#[test]
fn a_report_that_was_not_asked_for_changes_nothing() {
    let state = Illumination::new((1, 1), 2);
    let (state, action) = Spotlight::illuminate(state, Event::Outcome(true));
    assert_eq!(action, Action::ReadMap);
    let (state, action) = Spotlight::illuminate(state, Event::Outcome(false));
    assert_eq!(action, Action::ReadMap);
    let grid = Grid::new(vec![vec![false; 3]; 3]).unwrap();
    let (state, _) = Spotlight::illuminate(state, Event::Snapshot(Some(grid)));
    let grid = Grid::new(vec![vec![false; 3]; 3]).unwrap();
    let (state, action) = Spotlight::illuminate(state, Event::Snapshot(Some(grid)));
    assert_eq!(action, Action::Look(Direction::Right, 2));
    let grid = Grid::new(vec![vec![false; 3]; 3]).unwrap();
    let (state, action) = Spotlight::illuminate(state, Event::Snapshot(Some(grid)));
    assert_eq!(action, Action::Look(Direction::Right, 2));
    let (_, action) = Spotlight::illuminate(state, Event::Snapshot(None));
    assert_eq!(action, Action::Look(Direction::Right, 2));
}

#[test]
fn an_ended_illumination_stays_ended() {
    let state = Illumination::new((1, 1), 2);
    let (state, action) = Spotlight::illuminate(state, Event::Snapshot(None));
    assert_eq!(action, Action::Finish(Err(SpotlightError::MapUnavailable)));
    let (state, action) = Spotlight::illuminate(state, Event::Outcome(true));
    assert_eq!(action, Action::Finish(Err(SpotlightError::MapUnavailable)));
    let grid = Grid::new(vec![vec![false; 3]; 3]).unwrap();
    let (state, action) = Spotlight::illuminate(state, Event::Snapshot(Some(grid)));
    assert_eq!(action, Action::Finish(Err(SpotlightError::MapUnavailable)));
    assert_eq!(state.request(), Action::Finish(Err(SpotlightError::MapUnavailable)));
}

#[test]
fn a_map_that_is_discovered_after_the_views_ends_well() {
    let mut world = world_of(&["#.#", "...", "#.#"], (1, 1));
    assert_eq!(illuminate(&mut world, 2), Ok(()));
    assert_eq!(discoveries(&world), vec![]);
    assert_eq!(world.asked.len(), 8);
    assert_eq!(world.asked[7], Action::Finish(Ok(())));
}

#[test]
fn the_robot_in_a_corner_lights_up_its_quarter() {
    let mut world = hidden_world(5, (4, 0));
    assert_eq!(illuminate(&mut world, 2), Ok(()));
    assert_eq!(picture(&world), vec![".....", ".....", "###..", "###..", "###.."]);
    assert_eq!(discoveries(&world), vec![(3, 1), (2, 1), (3, 2), (2, 2)]);
}

#[test]
fn a_large_square_is_discovered_tile_by_tile() {
    let size = 40;
    let mut world = hidden_world(size, (12, 30));
    for row in 0..size {
        for col in 0..size {
            world.cells[row][col] = (row * 3 + col) % 4 == 0;
        }
    }
    let before = world.cells.clone();
    assert_eq!(illuminate(&mut world, 15), Ok(()));
    for row in 0..size {
        for col in 0..size {
            let in_square = row <= 27 && col >= 15;
            if in_square {
                assert!(world.cells[row][col]);
            } else {
                assert_eq!(world.cells[row][col], before[row][col]);
            }
        }
    }
    let tiles = discoveries(&world);
    for pair in tiles.windows(2) {
        assert!(calculate_distance(pair[0], (12, 30)) <= calculate_distance(pair[1], (12, 30)));
    }
    for tile in &tiles {
        assert!(!before[tile.0][tile.1]);
        assert!(tile.0 != 12 && tile.1 != 30);
    }
    let mut seen = tiles.clone();
    seen.sort();
    seen.dedup();
    assert_eq!(seen.len(), tiles.len());
}
