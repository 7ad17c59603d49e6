use rogue_mapgen::dice::Dice;
use rogue_mapgen::map::{Position, TileMap, TileType};
use rogue_mapgen::map_builders::cellular_automata::{
    count_neighbors, find_start_column, smooth, CellularAutomataBuilder,
};
use rogue_mapgen::map_builders::dla::{attractor_walk, DLABuilder};
use rogue_mapgen::map_builders::drunkard::{
    settle_marks, stumble, DrunkSpawnMode, DrunkardSettings, DrunkardsWalkBuilder,
};
use rogue_mapgen::map_builders::maze::{MazeBuilder, MazeGrid, EAST, NORTH, SOUTH, WEST};
use rogue_mapgen::map_builders::simple_map::SimpleMapBuilder;
use rogue_mapgen::map_builders::voronoi_cell::{
    distance_between, is_seed, nearest_region, voronoi_regions, DistanceAlgorithm,
    VoronoiCellBuilder,
};
use rogue_mapgen::map_builders::{BuilderState, MapBuilder, SHOW_MAPGEN_VISUALIZER};

fn count(map: &TileMap, kind: TileType) -> usize {
    map.tiles.iter().filter(|t| **t == kind).count()
}

fn well_shaped(map: &TileMap) -> bool {
    let n = (map.width * map.height) as usize;
    map.width == 80
        && map.height == 43
        && map.tiles.len() == n
        && map.revealed_tiles.len() == n
        && map.visible_tiles.len() == n
        && map.blocked.len() == n
        && map.tile_content.len() == n
}

/// The number of tiles that a flood fill from the start visits, and whether
/// it visits every floor tile.
fn flood_visits_every_floor(map: &TileMap, start: Position) -> bool {
    let w = map.width;
    let h = map.height;
    let mut seen = vec![false; map.tiles.len()];
    let mut queue = vec![(start.x, start.y)];
    while let Some((x, y)) = queue.pop() {
        for dy in -1..=1 {
            for dx in -1..=1 {
                if dx == 0 && dy == 0 {
                    continue;
                }
                let nx = x + dx;
                let ny = y + dy;
                if nx < 1 || nx > w - 1 || ny < 1 || ny > h - 1 {
                    continue;
                }
                let idx = (ny * w + nx) as usize;
                if map.tiles[idx] == TileType::Wall || seen[idx] {
                    continue;
                }
                seen[idx] = true;
                queue.push((nx, ny));
            }
        }
    }
    map.tiles.iter().enumerate().all(|(i, t)| *t != TileType::Floor || seen[i])
}

fn check_level<B: MapBuilder>(builder: &mut B) {
    let map = builder.get_map();
    let start = builder.get_starting_position();
    assert!(well_shaped(&map));
    assert_eq!(count(&map, TileType::DownStairs), 1);
    assert_eq!(count(&map, TileType::Wall) + count(&map, TileType::Floor), 3439);
    assert!(flood_visits_every_floor(&map, start));
    let again = builder.get_map();
    assert_eq!(again.tiles, map.tiles);
    assert_eq!(again.revealed_tiles, map.revealed_tiles);
    assert_eq!(again.visible_tiles, map.visible_tiles);
    assert_eq!(again.blocked, map.blocked);
    assert_eq!(again.depth, map.depth);
    assert_eq!(builder.get_starting_position(), start);
    let history = builder.get_snapshot_history();
    assert!(SHOW_MAPGEN_VISUALIZER);
    assert!(!history.is_empty());
    for snapshot in history.iter() {
        assert!(well_shaped(snapshot));
        assert!(snapshot.revealed_tiles.iter().all(|b| *b));
    }
    assert_eq!(history[history.len() - 1].tiles, map.tiles);
}

#[test]
fn builder_state_starts_fresh() {
    let state = BuilderState::new(4);
    assert_eq!(state.depth, 4);
    assert_eq!(state.map.depth, 4);
    assert_eq!(state.starting_position, Position { x: 0, y: 0 });
    assert!(state.history.is_empty());
    assert!(state.noise_areas.is_empty());
    assert!(state.map.tiles.iter().all(|t| *t == TileType::Wall));
}

#[test]
fn take_snapshot_appends_a_revealed_copy() {
    let mut state = BuilderState::new(1);
    state.map.tiles[100] = TileType::Floor;
    state.take_snapshot();
    state.map.tiles[101] = TileType::Floor;
    state.take_snapshot();
    let history = state.get_snapshot_history();
    assert_eq!(history.len(), 2);
    assert_eq!(history[0].tiles[100], TileType::Floor);
    assert_eq!(history[0].tiles[101], TileType::Wall);
    assert_eq!(history[1].tiles[101], TileType::Floor);
    assert!(history[0].revealed_tiles.iter().all(|b| *b));
    assert!(state.map.revealed_tiles.iter().all(|b| !*b));
}

#[test]
fn place_exit_puts_the_stairs_on_the_farthest_floor() {
    let mut state = BuilderState::new(1);
    for x in 10..=20 {
        let idx = state.map.xy_idx(x, 10);
        state.map.tiles[idx] = TileType::Floor;
    }
    let island = state.map.xy_idx(50, 30);
    state.map.tiles[island] = TileType::Floor;
    let start = state.map.xy_idx(12, 10);
    state.place_exit(start, true);
    assert_eq!(state.map.tiles[state.map.xy_idx(20, 10)], TileType::DownStairs);
    assert_eq!(state.map.tiles[island], TileType::Wall);
    assert_eq!(count(&state.map, TileType::DownStairs), 1);
    assert_eq!(count(&state.map, TileType::Floor), 10);
    assert_eq!(state.history.len(), 2);
    assert_eq!(count(&state.history[0], TileType::DownStairs), 0);
    let mut other = BuilderState::new(1);
    let a = other.map.xy_idx(5, 5);
    let b = other.map.xy_idx(6, 5);
    other.map.tiles[a] = TileType::Floor;
    other.map.tiles[b] = TileType::Floor;
    other.place_exit(a, false);
    assert_eq!(other.history.len(), 1);
    assert_eq!(other.map.tiles[a], TileType::Floor);
    assert_eq!(other.map.tiles[b], TileType::DownStairs);
}

#[test]
fn noise_seed_is_a_roll_of_the_big_die() {
    let mut state = BuilderState::new(1);
    let mut dice = Dice::seeded(5);
    let mut seen = Vec::new();
    for _ in 0..50 {
        state.draw_noise_seed(&mut dice);
        assert!(state.noise_seed >= 1 && state.noise_seed <= 65536);
        seen.push(state.noise_seed);
    }
    seen.dedup();
    assert!(seen.len() > 1);
}

#[test]
fn cellular_automata_level() {
    for seed in [1u64, 2, 3] {
        let mut builder = CellularAutomataBuilder::new(2);
        let mut dice = Dice::seeded(seed);
        builder.build(&mut dice);
        check_level(&mut builder);
        assert_eq!(builder.get_map().depth, 2);
        assert_eq!(builder.get_starting_position().y, 21);
        assert!(builder.get_starting_position().x <= 40);
        assert_eq!(builder.get_snapshot_history().len(), 18);
        assert!(builder.noise_seed() >= 1 && builder.noise_seed() <= 65536);
        let map = builder.get_map();
        for x in 0..80 {
            assert_eq!(map.tiles[map.xy_idx(x, 0)], TileType::Wall);
            assert_eq!(map.tiles[map.xy_idx(x, 42)], TileType::Wall);
        }
    }
}

#[test]
fn cellular_automata_is_deterministic() {
    let mut a = CellularAutomataBuilder::new(1);
    let mut b = CellularAutomataBuilder::new(1);
    let mut c = CellularAutomataBuilder::new(1);
    a.build(&mut Dice::seeded(99));
    b.build(&mut Dice::seeded(99));
    c.build(&mut Dice::seeded(100));
    assert_eq!(a.get_map().tiles, b.get_map().tiles);
    assert_eq!(a.get_starting_position(), b.get_starting_position());
    assert_eq!(a.noise_seed(), b.noise_seed());
    assert_ne!(a.get_map().tiles, c.get_map().tiles);
}

#[test]
fn cellular_automata_rebuilds_from_scratch() {
    let mut a = CellularAutomataBuilder::new(1);
    let mut b = CellularAutomataBuilder::new(1);
    a.build(&mut Dice::seeded(5));
    a.build(&mut Dice::seeded(6));
    b.build(&mut Dice::seeded(6));
    assert_eq!(a.get_map().tiles, b.get_map().tiles);
    assert_eq!(a.get_snapshot_history().len(), 36);
}

#[test]
fn count_neighbors_counts_the_eight_around() {
    let mut map = TileMap::new(1);
    let idx = map.xy_idx(10, 10);
    assert_eq!(count_neighbors(&map, idx), 8);
    map.tiles[idx] = TileType::Floor;
    assert_eq!(count_neighbors(&map, idx), 8);
    for (x, y) in [(11, 10), (9, 9), (10, 11)] {
        let n = map.xy_idx(x, y);
        map.tiles[n] = TileType::Floor;
    }
    assert_eq!(count_neighbors(&map, idx), 5);
    for dy in -1..=1 {
        for dx in -1..=1 {
            let n = map.xy_idx(10 + dx, 10 + dy);
            map.tiles[n] = TileType::Floor;
        }
    }
    assert_eq!(count_neighbors(&map, idx), 0);
}

#[test]
fn smooth_applies_the_rule_to_every_inner_tile() {
    let mut map = TileMap::new(1);
    for y in 5..=9 {
        for x in 5..=9 {
            let idx = map.xy_idx(x, y);
            map.tiles[idx] = TileType::Floor;
        }
    }
    let before = map.clone();
    smooth(&mut map);
    for y in 1..42 {
        for x in 1..79 {
            let idx = before.xy_idx(x, y);
            let n = count_neighbors(&before, idx);
            let want = if n > 4 || n == 0 { TileType::Wall } else { TileType::Floor };
            assert_eq!(map.tiles[idx], want);
        }
    }
    assert_eq!(map.tiles[map.xy_idx(7, 7)], TileType::Wall);
    assert_eq!(map.tiles[map.xy_idx(5, 5)], TileType::Wall);
    assert_eq!(map.tiles[map.xy_idx(6, 5)], TileType::Floor);
    assert_eq!(map.tiles[map.xy_idx(4, 6)], TileType::Wall);
    assert_eq!(map.tiles[map.xy_idx(4, 4)], TileType::Wall);
    assert_eq!(map.tiles[map.xy_idx(20, 20)], TileType::Wall);
    assert_eq!(map.tiles[map.xy_idx(0, 0)], TileType::Wall);
}

#[test]
fn start_column_is_the_first_floor_to_the_left() {
    let mut map = TileMap::new(1);
    assert_eq!(find_start_column(&map, 40, 21), 0);
    let a = map.xy_idx(12, 21);
    let b = map.xy_idx(30, 21);
    let c = map.xy_idx(45, 21);
    map.tiles[a] = TileType::Floor;
    map.tiles[b] = TileType::Floor;
    map.tiles[c] = TileType::Floor;
    assert_eq!(find_start_column(&map, 40, 21), 30);
    assert_eq!(find_start_column(&map, 30, 21), 30);
    assert_eq!(find_start_column(&map, 29, 21), 12);
    assert_eq!(find_start_column(&map, 11, 21), 0);
}

#[test]
fn drunkard_open_area_digs_half_the_map() {
    let mut builder = DrunkardsWalkBuilder::open_area(1);
    let mut dice = Dice::seeded(42);
    let reached = builder.build(&mut dice);
    assert!(reached);
    check_level(&mut builder);
    assert_eq!(builder.get_starting_position(), Position { x: 40, y: 21 });
    let history = builder.get_snapshot_history();
    let before_stairs = &history[history.len() - 2];
    assert_eq!(count(before_stairs, TileType::DownStairs), 0);
    assert!(count(before_stairs, TileType::Floor) <= 3440);
    let map = builder.get_map();
    assert!(map.tiles[map.xy_idx(40, 21)] != TileType::Wall);
}

#[test]
fn drunkard_profiles_build_levels() {
    for seed in [3u64, 4] {
        let mut halls = DrunkardsWalkBuilder::open_halls(1);
        assert!(halls.build(&mut Dice::seeded(seed)));
        check_level(&mut halls);
        let mut passages = DrunkardsWalkBuilder::widening_passages(1);
        assert!(passages.build(&mut Dice::seeded(seed)));
        check_level(&mut passages);
        let settings = DrunkardSettings {
            spawn_mode: DrunkSpawnMode::StartingPoint,
            drunken_lifetime: 50,
            floor_percent: 10,
        };
        let mut custom = DrunkardsWalkBuilder::new(7, settings);
        assert!(custom.build(&mut Dice::seeded(seed)));
        check_level(&mut custom);
        assert_eq!(custom.get_map().depth, 7);
    }
}

#[test]
fn drunkard_is_deterministic() {
    let mut a = DrunkardsWalkBuilder::open_halls(1);
    let mut b = DrunkardsWalkBuilder::open_halls(1);
    let mut c = DrunkardsWalkBuilder::open_halls(1);
    a.build(&mut Dice::seeded(77));
    b.build(&mut Dice::seeded(77));
    c.build(&mut Dice::seeded(78));
    assert_eq!(a.get_map().tiles, b.get_map().tiles);
    assert_eq!(a.noise_seed(), b.noise_seed());
    assert_ne!(a.get_map().tiles, c.get_map().tiles);
}

#[test]
fn drunkard_with_nothing_to_dig_stops_at_once() {
    let settings = DrunkardSettings {
        spawn_mode: DrunkSpawnMode::Random,
        drunken_lifetime: 400,
        floor_percent: 0,
    };
    let mut builder = DrunkardsWalkBuilder::new(1, settings);
    assert!(builder.build(&mut Dice::seeded(1)));
    let map = builder.get_map();
    assert_eq!(count(&map, TileType::Floor), 0);
    assert_eq!(count(&map, TileType::DownStairs), 1);
    assert_eq!(map.tiles[21 * 80 + 40], TileType::DownStairs);
}

#[test]
fn stumble_marks_the_path_and_settle_turns_it_to_floor() {
    let mut map = TileMap::new(1);
    let mut dice = Dice::seeded(8);
    assert!(stumble(&mut map, &mut dice, 40, 21, 30));
    let marked = count(&map, TileType::DownStairs);
    assert!(marked >= 1 && marked <= 30);
    assert_eq!(map.tiles[map.xy_idx(40, 21)], TileType::DownStairs);
    assert_eq!(count(&map, TileType::Floor), 0);
    settle_marks(&mut map);
    assert_eq!(count(&map, TileType::DownStairs), 0);
    assert_eq!(count(&map, TileType::Floor), marked);
    let mut again = Dice::seeded(8);
    let mut other = TileMap::new(1);
    stumble(&mut other, &mut again, 40, 21, 30);
    settle_marks(&mut other);
    assert_eq!(other.tiles, map.tiles);
    assert!(!stumble(&mut map, &mut Dice::seeded(8), 40, 21, 1));
    assert_eq!(map.tiles[map.xy_idx(40, 21)], TileType::DownStairs);
    settle_marks(&mut map);
    let before = map.tiles.clone();
    assert!(!stumble(&mut map, &mut Dice::seeded(8), 10, 10, 0));
    assert!(!stumble(&mut map, &mut Dice::seeded(8), 10, 10, -5));
    settle_marks(&mut map);
    assert_eq!(map.tiles, before);
}

#[test]
fn dla_profiles_build_levels() {
    let mut inwards = DLABuilder::walk_inwards(1);
    assert!(inwards.build(&mut Dice::seeded(10)));
    check_level(&mut inwards);
    let mut outwards = DLABuilder::walk_outwards(1);
    assert!(outwards.build(&mut Dice::seeded(11)));
    check_level(&mut outwards);
    let mut attractor = DLABuilder::central_attractor(1);
    assert!(attractor.build(&mut Dice::seeded(12)));
    check_level(&mut attractor);
    let mut insectoid = DLABuilder::insectoid(3);
    assert!(insectoid.build(&mut Dice::seeded(13)));
    check_level(&mut insectoid);
    assert_eq!(insectoid.get_map().depth, 3);
    assert_eq!(insectoid.get_starting_position(), Position { x: 40, y: 21 });
}

#[test]
fn dla_central_attractor_grows_in_one_piece() {
    let mut builder = DLABuilder::central_attractor(1);
    assert!(builder.build(&mut Dice::seeded(21)));
    let map = builder.get_map();
    assert!(count(&map, TileType::Floor) + 1 >= 700);
}

#[test]
fn dla_insectoid_is_mirrored_left_to_right_before_the_stairs() {
    let mut builder = DLABuilder::insectoid(1);
    builder.build(&mut Dice::seeded(5));
    let map = builder.get_map();
    let mut mirrored = 0;
    let mut total = 0;
    for y in 2..41 {
        for x in 2..39 {
            let left = map.tiles[map.xy_idx(x, y)] != TileType::Wall;
            let right = map.tiles[map.xy_idx(79 - x, y)] != TileType::Wall;
            if left || right {
                total += 1;
                if left && right {
                    mirrored += 1;
                }
            }
        }
    }
    assert!(total > 100);
    assert!(mirrored * 10 >= total * 8);
}

#[test]
fn attractor_walk_stops_before_the_floor() {
    let mut map = TileMap::new(1);
    let idx = map.xy_idx(8, 5);
    map.tiles[idx] = TileType::Floor;
    let path = vec![(5, 5), (6, 5), (7, 5), (8, 5), (9, 5), (10, 5)];
    assert_eq!(attractor_walk(&map, 5, 5, &path), (7, 5));
    assert_eq!(attractor_walk(&map, 8, 5, &path), (8, 5));
    assert_eq!(attractor_walk(&map, 5, 5, &Vec::new()), (5, 5));
    assert_eq!(attractor_walk(&map, 5, 5, &vec![(5, 5)]), (5, 5));
    let short = vec![(5, 5), (6, 5)];
    assert_eq!(attractor_walk(&map, 5, 5, &short), (5, 5));
    let astray = vec![(5, 5), (6, 5), (90, 5), (8, 5)];
    assert_eq!(attractor_walk(&map, 5, 5, &astray), (5, 5));
}

#[test]
fn maze_visits_every_cell() {
    for seed in [1u64, 2] {
        let mut builder = MazeBuilder::new(1);
        let connections = builder.build(&mut Dice::seeded(seed));
        assert_eq!(connections, 779);
        check_level(&mut builder);
        assert_eq!(builder.get_starting_position(), Position { x: 1, y: 1 });
        let map = builder.get_map();
        assert!(map.tiles[map.xy_idx(1, 1)] != TileType::Wall);
        for y in 0..43 {
            for x in 0..80 {
                if x % 2 == 0 && y % 2 == 0 {
                    assert_eq!(map.tiles[map.xy_idx(x, y)], TileType::Wall);
                }
            }
        }
        for x in 0..80 {
            assert_eq!(map.tiles[map.xy_idx(x, 0)], TileType::Wall);
            assert_eq!(map.tiles[map.xy_idx(x, 41)], TileType::Wall);
            assert_eq!(map.tiles[map.xy_idx(x, 42)], TileType::Wall);
        }
    }
}

#[test]
fn maze_grid_is_walked_in_full() {
    let mut state = BuilderState::new(1);
    let mut dice = Dice::seeded(3);
    let (grid, connections) = MazeGrid::new_from_map(&mut state, &mut dice);
    assert_eq!(grid.grid_width, 39);
    assert_eq!(grid.grid_height, 20);
    assert_eq!(grid.is_visited.len(), 780);
    assert!(grid.is_visited.iter().all(|v| *v));
    assert_eq!(connections, 779);
    assert_eq!(state.history.len(), 38);
    let torn: u32 = grid.walls.iter().map(|w| w.count_ones()).sum();
    assert_eq!(torn, 2 * 779);
    for cy in 0..20 {
        for cx in 0..39 {
            let here = grid.walls[cy * 39 + cx];
            assert!(here != 0);
            if here & EAST != 0 {
                assert!(cx + 1 < 39);
                assert!(grid.walls[cy * 39 + cx + 1] & WEST != 0);
            }
            if here & SOUTH != 0 {
                assert!(cy + 1 < 20);
                assert!(grid.walls[(cy + 1) * 39 + cx] & NORTH != 0);
            }
        }
    }
}

#[test]
fn maze_grid_primitives() {
    let mut grid = MazeGrid {
        grid_width: 3,
        grid_height: 2,
        walls: vec![0; 6],
        is_visited: vec![false; 6],
    };
    assert_eq!(grid.xy_idx(Position { x: 0, y: 0 }), 0);
    assert_eq!(grid.xy_idx(Position { x: 2, y: 1 }), 5);
    assert_eq!(grid.xy_idx(Position { x: 3, y: 1 }), -1);
    assert_eq!(grid.xy_idx(Position { x: 0, y: 2 }), -1);
    assert_eq!(grid.xy_idx(Position { x: -1, y: 0 }), -1);
    assert_eq!(
        grid.available_neighbors(Position { x: 1, y: 0 }),
        vec![Position { x: 2, y: 0 }, Position { x: 0, y: 0 }, Position { x: 1, y: 1 }]
    );
    grid.is_visited[0] = true;
    assert_eq!(
        grid.available_neighbors(Position { x: 1, y: 0 }),
        vec![Position { x: 2, y: 0 }, Position { x: 1, y: 1 }]
    );
    assert_eq!(grid.available_neighbors(Position { x: 0, y: 0 }).len(), 2);
    grid.connect_tiles(Position { x: 1, y: 0 }, Position { x: 0, y: 0 });
    assert_eq!(grid.walls, vec![EAST, WEST, 0, 0, 0, 0]);
    grid.connect_tiles(Position { x: 1, y: 0 }, Position { x: 2, y: 0 });
    assert_eq!(grid.walls, vec![EAST, WEST | EAST, WEST, 0, 0, 0]);
    grid.connect_tiles(Position { x: 1, y: 1 }, Position { x: 1, y: 0 });
    assert_eq!(grid.walls, vec![EAST, WEST | EAST | SOUTH, WEST, 0, NORTH, 0]);
    grid.connect_tiles(Position { x: 2, y: 0 }, Position { x: 2, y: 1 });
    assert_eq!(grid.walls, vec![EAST, WEST | EAST | SOUTH, WEST | SOUTH, 0, NORTH, NORTH]);
    grid.connect_tiles(Position { x: 0, y: 0 }, Position { x: 2, y: 0 });
    grid.connect_tiles(Position { x: 0, y: 0 }, Position { x: 0, y: 0 });
    assert_eq!(grid.walls, vec![EAST, WEST | EAST | SOUTH, WEST | SOUTH, 0, NORTH, NORTH]);
    grid.connect_tiles(Position { x: 0, y: 0 }, Position { x: 2, y: 1 });
    assert_eq!(grid.walls, vec![EAST | SOUTH, WEST | EAST | SOUTH, WEST | SOUTH, 0, NORTH, NORTH]);
    let mut dice = Dice::seeded(1);
    grid.is_visited = vec![true, true, true, true, false, true];
    assert_eq!(grid.next_neighbor(Position { x: 1, y: 0 }, &mut dice), Some(Position { x: 1, y: 1 }));
    assert_eq!(grid.next_neighbor(Position { x: 0, y: 0 }, &mut dice), None);
    grid.reset();
    assert_eq!(grid.walls, vec![0; 6]);
    assert_eq!(grid.is_visited, vec![false; 6]);
    assert_eq!(grid.grid_width, 3);
}

#[test]
fn voronoi_levels() {
    let mut a = VoronoiCellBuilder::pythagoras(1);
    a.build(&mut Dice::seeded(31));
    check_level(&mut a);
    let mut b = VoronoiCellBuilder::manhattan(1);
    b.build(&mut Dice::seeded(32));
    check_level(&mut b);
    let mut c = VoronoiCellBuilder::chebyshev(5);
    c.build(&mut Dice::seeded(33));
    check_level(&mut c);
    assert_eq!(c.get_map().depth, 5);
    let start = c.get_starting_position();
    assert!(start.x >= 2 && start.x <= 78 && start.y >= 2 && start.y <= 41);
    assert_eq!(a.get_snapshot_history().len(), 42);
}

#[test]
fn voronoi_is_deterministic() {
    let mut a = VoronoiCellBuilder::manhattan(1);
    let mut b = VoronoiCellBuilder::manhattan(1);
    let mut c = VoronoiCellBuilder::manhattan(1);
    a.build(&mut Dice::seeded(9));
    b.build(&mut Dice::seeded(9));
    c.build(&mut Dice::seeded(10));
    assert_eq!(a.get_map().tiles, b.get_map().tiles);
    assert_eq!(a.get_starting_position(), b.get_starting_position());
    assert_eq!(a.noise_seed(), b.noise_seed());
    assert_ne!(a.get_map().tiles, c.get_map().tiles);
}

#[test]
fn voronoi_distances() {
    assert_eq!(distance_between(DistanceAlgorithm::Pythagoras, 0, 0, 3, 4), 25);
    assert_eq!(distance_between(DistanceAlgorithm::Manhattan, 0, 0, 3, 4), 7);
    assert_eq!(distance_between(DistanceAlgorithm::Chebyshev, 0, 0, 3, 4), 4);
    assert_eq!(distance_between(DistanceAlgorithm::Pythagoras, 5, 9, 2, 5), 25);
    assert_eq!(distance_between(DistanceAlgorithm::Manhattan, 5, 9, 2, 5), 7);
    assert_eq!(distance_between(DistanceAlgorithm::Chebyshev, 9, 5, 5, 2), 4);
    assert_eq!(distance_between(DistanceAlgorithm::Chebyshev, 7, 7, 7, 7), 0);
}

#[test]
fn voronoi_nearest_seed_is_the_first_of_the_nearest() {
    let seeds = vec![
        Position { x: 10, y: 10 },
        Position { x: 20, y: 10 },
        Position { x: 10, y: 20 },
    ];
    assert!(is_seed(&seeds, 20, 10));
    assert!(!is_seed(&seeds, 10, 11));
    assert!(!is_seed(&Vec::new(), 10, 10));
    assert_eq!(nearest_region(&seeds, DistanceAlgorithm::Pythagoras, 11, 11), 0);
    assert_eq!(nearest_region(&seeds, DistanceAlgorithm::Pythagoras, 19, 11), 1);
    assert_eq!(nearest_region(&seeds, DistanceAlgorithm::Pythagoras, 11, 19), 2);
    assert_eq!(nearest_region(&seeds, DistanceAlgorithm::Manhattan, 15, 10), 0);
    assert_eq!(nearest_region(&seeds, DistanceAlgorithm::Manhattan, 16, 10), 1);
    assert_eq!(nearest_region(&seeds, DistanceAlgorithm::Manhattan, 20, 20), 1);
    assert_eq!(nearest_region(&seeds, DistanceAlgorithm::Chebyshev, 15, 15), 0);
    assert_eq!(nearest_region(&seeds, DistanceAlgorithm::Pythagoras, 12, 17), 2);
    assert_eq!(nearest_region(&seeds, DistanceAlgorithm::Chebyshev, 12, 17), 2);
    assert_eq!(nearest_region(&seeds, DistanceAlgorithm::Chebyshev, 17, 17), 0);
    assert_eq!(nearest_region(&seeds, DistanceAlgorithm::Pythagoras, 15, 15), 0);
    let map = TileMap::new(1);
    let regions = voronoi_regions(&map, &seeds, DistanceAlgorithm::Pythagoras);
    assert_eq!(regions.len(), 3440);
    assert_eq!(regions[map.xy_idx(0, 0)], 0);
    assert_eq!(regions[map.xy_idx(79, 0)], 1);
    assert_eq!(regions[map.xy_idx(0, 42)], 2);
    assert_eq!(regions[map.xy_idx(15, 5)], 0);
    assert_eq!(regions[map.xy_idx(16, 5)], 1);
}

#[test]
fn simple_map_level() {
    for seed in [1u64, 2, 3] {
        let mut builder = SimpleMapBuilder::new(2);
        builder.rooms_and_corridors(&mut Dice::seeded(seed));
        let map = builder.get_map();
        let start = builder.get_starting_position();
        let rooms = builder.get_rooms();
        assert!(well_shaped(&map));
        assert!(!rooms.is_empty() && rooms.len() <= 32);
        assert_eq!(count(&map, TileType::DownStairs), 1);
        assert_eq!(count(&map, TileType::Wall) + count(&map, TileType::Floor), 3439);
        let (sx, sy) = rooms[0].center();
        assert_eq!(start, Position { x: sx, y: sy });
        let (ex, ey) = rooms[rooms.len() - 1].center();
        assert_eq!(map.tiles[map.xy_idx(ex, ey)], TileType::DownStairs);
        for (i, a) in rooms.iter().enumerate() {
            assert!(a.x1 >= 0 && a.x2 <= 78 && a.y1 >= 0 && a.y2 <= 41);
            assert!(a.x2 - a.x1 >= 6 && a.x2 - a.x1 < 10);
            assert!(a.y2 - a.y1 >= 6 && a.y2 - a.y1 < 10);
            for b in rooms.iter().skip(i + 1) {
                assert!(!a.intersect(b));
            }
            for y in a.y1 + 1..a.y2 {
                for x in a.x1 + 1..a.x2 {
                    assert!(map.tiles[map.xy_idx(x, y)] != TileType::Wall);
                }
            }
        }
        assert!(flood_visits_every_floor(&map, start));
        assert_eq!(builder.get_map().tiles, map.tiles);
        let history = builder.get_snapshot_history();
        assert_eq!(history.len(), 2 * rooms.len());
        assert!(history.iter().all(|m| well_shaped(m)));
    }
}

#[test]
fn simple_map_fits_rejects_overlap() {
    let mut builder = SimpleMapBuilder::new(1);
    builder.rooms_and_corridors(&mut Dice::seeded(4));
    let rooms = builder.get_rooms();
    assert!(!builder.fits(&rooms[0]));
    for y in 0..30 {
        for x in 0..60 {
            let candidate = rogue_mapgen::rect::Rect::new(x, y, 6, 6);
            let free = rooms.iter().all(|r| !candidate.intersect(r));
            assert_eq!(builder.fits(&candidate), free);
        }
    }
}

#[test]
fn build_map_uses_fresh_dice() {
    let mut builder = CellularAutomataBuilder::new(1);
    builder.build_map();
    check_level(&mut builder);
    builder.take_snapshot();
    assert_eq!(builder.get_snapshot_history().len(), 19);
    let mut maze = MazeBuilder::new(1);
    maze.build_map();
    check_level(&mut maze);
}

#[test]
fn spawn_regions_cover_the_inner_floor() {
    let mut builder = DrunkardsWalkBuilder::open_area(1);
    builder.build(&mut Dice::seeded(12));
    let map = builder.get_map();
    let cells: Vec<i32> = (0..3440).map(|i: i32| (i % 80) / 20 - 1).collect();
    assert!(builder.noise_areas().is_empty());
    builder.assign_spawn_regions(&cells);
    assert_eq!(builder.get_map().tiles, map.tiles);
    let mut listed = 0;
    for (cell, tiles) in builder.noise_areas().iter() {
        assert!(!tiles.is_empty());
        assert!(tiles.windows(2).all(|w| w[0] < w[1]));
        for idx in tiles {
            assert_eq!(cells[*idx], *cell);
            assert_eq!(map.tiles[*idx], TileType::Floor);
            let x = *idx % 80;
            let y = *idx / 80;
            assert!(x >= 1 && x <= 78 && y >= 1 && y <= 41);
        }
        listed += tiles.len();
    }
    let inner_floor = (0..3440usize)
        .filter(|i| map.tiles[*i] == TileType::Floor && i % 80 >= 1 && i % 80 <= 78 && i / 80 >= 1 && i / 80 <= 41)
        .count();
    assert_eq!(listed, inner_floor);
}

#[test]
fn simple_map_is_deterministic() {
    let mut a = SimpleMapBuilder::new(1);
    let mut b = SimpleMapBuilder::new(1);
    let mut c = SimpleMapBuilder::new(1);
    a.rooms_and_corridors(&mut Dice::seeded(5));
    b.rooms_and_corridors(&mut Dice::seeded(5));
    c.rooms_and_corridors(&mut Dice::seeded(6));
    assert_eq!(a.get_map().tiles, b.get_map().tiles);
    assert_eq!(a.get_rooms(), b.get_rooms());
    assert_eq!(a.get_starting_position(), b.get_starting_position());
    assert_ne!(a.get_map().tiles, c.get_map().tiles);
}

#[test]
fn dla_is_deterministic() {
    let mut a = DLABuilder::walk_outwards(1);
    let mut b = DLABuilder::walk_outwards(1);
    let mut c = DLABuilder::walk_outwards(1);
    a.build(&mut Dice::seeded(21));
    b.build(&mut Dice::seeded(21));
    c.build(&mut Dice::seeded(22));
    assert_eq!(a.get_map().tiles, b.get_map().tiles);
    assert_eq!(a.noise_seed(), b.noise_seed());
    assert_ne!(a.get_map().tiles, c.get_map().tiles);
}

#[test]
fn maze_is_deterministic() {
    let mut a = MazeBuilder::new(1);
    let mut b = MazeBuilder::new(1);
    let mut c = MazeBuilder::new(1);
    a.build(&mut Dice::seeded(31));
    b.build(&mut Dice::seeded(31));
    c.build(&mut Dice::seeded(32));
    assert_eq!(a.get_map().tiles, b.get_map().tiles);
    assert_eq!(a.noise_seed(), b.noise_seed());
    assert_ne!(a.get_map().tiles, c.get_map().tiles);
}

#[test]
fn available_neighbors_answers_for_cells_off_the_grid() {
    let grid = MazeGrid {
        grid_width: 3,
        grid_height: 2,
        walls: vec![0; 6],
        is_visited: vec![false, true, false, false, false, false],
    };
    assert_eq!(grid.available_neighbors(Position { x: 0, y: 0 }), vec![Position { x: 0, y: 1 }]);
    assert_eq!(grid.available_neighbors(Position { x: -1, y: 0 }), vec![Position { x: 0, y: 0 }]);
    assert_eq!(grid.available_neighbors(Position { x: 3, y: 1 }), vec![Position { x: 2, y: 1 }]);
    assert_eq!(grid.available_neighbors(Position { x: 1, y: 2 }), vec![Position { x: 1, y: 1 }]);
    assert!(grid.available_neighbors(Position { x: 1, y: -1 }).is_empty());
    assert!(grid.available_neighbors(Position { x: 10, y: 10 }).is_empty());
}

#[test]
fn starting_tile_is_never_walled_in() {
    let open = |map: &TileMap, start: Position| {
        let tile = map.tiles[map.xy_idx(start.x, start.y)];
        tile == TileType::Floor || tile == TileType::DownStairs
    };
    for seed in [3u64, 4] {
        let mut drunkard = DrunkardsWalkBuilder::open_halls(1);
        drunkard.build(&mut Dice::seeded(seed));
        assert!(open(&drunkard.get_map(), drunkard.get_starting_position()));
        let mut dla = DLABuilder::walk_inwards(1);
        dla.build(&mut Dice::seeded(seed));
        assert!(open(&dla.get_map(), dla.get_starting_position()));
        let mut maze = MazeBuilder::new(1);
        maze.build(&mut Dice::seeded(seed));
        let map = maze.get_map();
        assert_eq!(map.tiles[map.xy_idx(1, 1)], TileType::Floor);
        let mut cellular = CellularAutomataBuilder::new(1);
        cellular.build(&mut Dice::seeded(seed));
        assert!(open(&cellular.get_map(), cellular.get_starting_position()));
    }
}

#[test]
fn stairs_are_not_on_the_start_where_other_floor_is_in_reach() {
    for seed in [5u64, 6] {
        let mut drunkard = DrunkardsWalkBuilder::open_area(1);
        assert!(drunkard.build(&mut Dice::seeded(seed)));
        let map = drunkard.get_map();
        assert_eq!(map.tiles[21 * 80 + 40], TileType::Floor);
        let mut dla = DLABuilder::central_attractor(1);
        assert!(dla.build(&mut Dice::seeded(seed)));
        assert_eq!(dla.get_map().tiles[21 * 80 + 40], TileType::Floor);
    }
}

#[test]
fn new_builders_have_no_spawn_regions() {
    assert!(DrunkardsWalkBuilder::open_area(1).noise_areas().is_empty());
    assert!(DrunkardsWalkBuilder::open_halls(1).noise_areas().is_empty());
    assert!(DrunkardsWalkBuilder::widening_passages(1).noise_areas().is_empty());
    assert!(DLABuilder::insectoid(1).noise_areas().is_empty());
    assert!(MazeBuilder::new(1).noise_areas().is_empty());
    assert!(CellularAutomataBuilder::new(1).noise_areas().is_empty());
    assert!(VoronoiCellBuilder::pythagoras(1).noise_areas().is_empty());
}

#[test]
fn drunkards_stop_when_the_target_is_met_or_the_limit_is_reached() {
    let mut met = DrunkardsWalkBuilder::open_area(1);
    assert!(met.build(&mut Dice::seeded(9)));
    let map = met.get_map();
    assert!(count(&map, TileType::Floor) + 1 >= 1720);
    let idle = DrunkardSettings {
        spawn_mode: DrunkSpawnMode::StartingPoint,
        drunken_lifetime: 0,
        floor_percent: 50,
    };
    let mut unmet = DrunkardsWalkBuilder::new(1, idle);
    assert!(!unmet.build(&mut Dice::seeded(9)));
    let map = unmet.get_map();
    assert_eq!(count(&map, TileType::Floor), 0);
    assert_eq!(map.tiles[21 * 80 + 40], TileType::DownStairs);
}
