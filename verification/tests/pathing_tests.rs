use rogue_mapgen::map::{TileMap, TileType};
use rogue_mapgen::map_builders::common::cull_unreachables_and_return_most_distant_tile;
use rogue_mapgen::pathing::{
    direction_dx, direction_dy, flood_distances, DIAGONAL_COST, DISTANCE_CAP, STEP_COST, UNREACHED,
};

fn floor(map: &mut TileMap, x: i32, y: i32) {
    let idx = map.xy_idx(x, y);
    map.tiles[idx] = TileType::Floor;
}

fn serpentine() -> TileMap {
    let mut map = TileMap::new(1);
    for x in 1..=78 {
        floor(&mut map, x, 1);
        floor(&mut map, x, 3);
        floor(&mut map, x, 5);
    }
    floor(&mut map, 78, 2);
    floor(&mut map, 1, 4);
    map
}

#[test]
fn costs_are_in_hundredths() {
    assert_eq!(STEP_COST, 100);
    assert_eq!(DIAGONAL_COST, 145);
    assert_eq!(DISTANCE_CAP, 20000);
    assert_eq!(UNREACHED, u32::MAX);
}

#[test]
fn directions_cover_the_eight_neighbours() {
    let mut seen = Vec::new();
    for k in 0..8u8 {
        let d = (direction_dx(k), direction_dy(k));
        assert!(d != (0, 0));
        assert!(d.0.abs() <= 1 && d.1.abs() <= 1);
        assert!(!seen.contains(&d));
        assert_eq!(k < 4, d.0 == 0 || d.1 == 0);
        seen.push(d);
    }
    assert_eq!(seen.len(), 8);
}

#[test]
fn flood_along_a_corridor() {
    let mut map = TileMap::new(1);
    for x in 1..=4 {
        floor(&mut map, x, 1);
    }
    map.populate_blocked();
    let start = map.xy_idx(1, 1);
    let d = flood_distances(&map, start);
    assert_eq!(d.len(), 3440);
    assert_eq!(d[map.xy_idx(2, 1)], 100);
    assert_eq!(d[map.xy_idx(3, 1)], 200);
    assert_eq!(d[map.xy_idx(4, 1)], 300);
    assert_eq!(d[map.xy_idx(5, 1)], UNREACHED);
    assert_eq!(d[map.xy_idx(2, 2)], UNREACHED);
}

#[test]
fn flood_puts_the_start_at_distance_zero() {
    let mut map = TileMap::new(1);
    floor(&mut map, 5, 5);
    floor(&mut map, 6, 5);
    map.populate_blocked();
    let d = flood_distances(&map, map.xy_idx(5, 5));
    assert_eq!(d[map.xy_idx(5, 5)], 0);
    assert_eq!(d[map.xy_idx(6, 5)], 100);

    let mut lone = TileMap::new(1);
    floor(&mut lone, 5, 5);
    lone.populate_blocked();
    let start = lone.xy_idx(5, 5);
    let d = flood_distances(&lone, start);
    assert!(d.iter().enumerate().all(|(i, l)| *l == if i == start { 0 } else { UNREACHED }));

    let mut walled = TileMap::new(1);
    walled.populate_blocked();
    let d = flood_distances(&walled, 810);
    assert_eq!(d[810], 0);
    assert_eq!(d.iter().filter(|l| **l != UNREACHED).count(), 1);

    let mut diagonal = TileMap::new(1);
    floor(&mut diagonal, 5, 5);
    floor(&mut diagonal, 6, 6);
    diagonal.populate_blocked();
    let d = flood_distances(&diagonal, diagonal.xy_idx(5, 5));
    assert_eq!(d[diagonal.xy_idx(6, 6)], 145);
    assert_eq!(d[diagonal.xy_idx(5, 5)], 0);
}

#[test]
fn flood_prefers_the_cheaper_of_two_ways() {
    let mut map = TileMap::new(1);
    for x in 10..=12 {
        for y in 10..=12 {
            floor(&mut map, x, y);
        }
    }
    map.populate_blocked();
    let d = flood_distances(&map, map.xy_idx(10, 10));
    assert_eq!(d[map.xy_idx(11, 10)], 100);
    assert_eq!(d[map.xy_idx(11, 11)], 145);
    assert_eq!(d[map.xy_idx(12, 11)], 245);
    assert_eq!(d[map.xy_idx(12, 12)], 290);
    assert_eq!(d[map.xy_idx(12, 10)], 200);
}

#[test]
fn flood_never_enters_the_first_row_or_column() {
    let mut map = TileMap::new(1);
    for x in 0..=3 {
        for y in 0..=3 {
            floor(&mut map, x, y);
        }
    }
    map.populate_blocked();
    let d = flood_distances(&map, map.xy_idx(1, 1));
    for k in 0..=3 {
        assert_eq!(d[map.xy_idx(0, k)], UNREACHED);
        assert_eq!(d[map.xy_idx(k, 0)], UNREACHED);
    }
    assert_eq!(d[map.xy_idx(3, 3)], 290);
}

#[test]
fn flood_from_the_first_column_steps_inward() {
    let mut map = TileMap::new(1);
    floor(&mut map, 0, 5);
    floor(&mut map, 1, 5);
    floor(&mut map, 2, 5);
    map.populate_blocked();
    let d = flood_distances(&map, map.xy_idx(0, 5));
    assert_eq!(d[map.xy_idx(1, 5)], 100);
    assert_eq!(d[map.xy_idx(2, 5)], 200);
    assert_eq!(d[map.xy_idx(0, 5)], 0);
}

#[test]
fn flood_stops_below_the_cap() {
    let mut map = serpentine();
    map.populate_blocked();
    let d = flood_distances(&map, map.xy_idx(1, 1));
    assert_eq!(d[map.xy_idx(78, 1)], 7700);
    assert_eq!(d[map.xy_idx(78, 2)], 7745);
    assert_eq!(d[map.xy_idx(77, 3)], 7890);
    assert_eq!(d[map.xy_idx(78, 3)], 7845);
    assert_eq!(d[map.xy_idx(1, 4)], 15535);
    assert_eq!(d[map.xy_idx(2, 5)], 15680);
    assert_eq!(d[map.xy_idx(45, 5)], 19980);
    assert_eq!(d[map.xy_idx(46, 5)], UNREACHED);
    assert!(d.iter().all(|l| *l == UNREACHED || *l < DISTANCE_CAP));
}

#[test]
fn cull_turns_what_is_out_of_reach_into_wall_and_names_the_farthest_floor() {
    let mut map = serpentine();
    floor(&mut map, 40, 30);
    let start = map.xy_idx(1, 1);
    let exit = cull_unreachables_and_return_most_distant_tile(&mut map, start);
    assert_eq!(exit, map.xy_idx(45, 5));
    for x in 46..=78 {
        assert_eq!(map.tiles[map.xy_idx(x, 5)], TileType::Wall);
    }
    for x in 1..=45 {
        assert_eq!(map.tiles[map.xy_idx(x, 5)], TileType::Floor);
    }
    assert_eq!(map.tiles[map.xy_idx(40, 30)], TileType::Wall);
    assert_eq!(map.tiles[map.xy_idx(78, 2)], TileType::Floor);
    for i in 0..map.tiles.len() {
        let culled = i == map.xy_idx(40, 30) || (i >= 80 * 5 + 46 && i <= 80 * 5 + 78);
        assert_eq!(map.blocked[i], map.tiles[i] == TileType::Wall && !culled);
    }
}

#[test]
fn cull_breaks_ties_by_lowest_index() {
    let mut map = TileMap::new(1);
    for x in 38..=42 {
        floor(&mut map, x, 21);
    }
    let start = map.xy_idx(40, 21);
    let exit = cull_unreachables_and_return_most_distant_tile(&mut map, start);
    assert_eq!(exit, map.xy_idx(38, 21));
    for x in 38..=42 {
        assert_eq!(map.tiles[map.xy_idx(x, 21)], TileType::Floor);
    }
}

#[test]
fn cull_of_a_lone_floor_start_names_the_start() {
    let mut map = TileMap::new(1);
    floor(&mut map, 10, 10);
    let start = map.xy_idx(10, 10);
    assert_eq!(start, 810);
    let exit = cull_unreachables_and_return_most_distant_tile(&mut map, start);
    assert_eq!(exit, 810);
    assert_eq!(map.tiles[810], TileType::Floor);
    assert_eq!(map.tiles[0], TileType::Wall);
    assert_eq!(map.tiles.iter().filter(|t| **t == TileType::Floor).count(), 1);
    assert!(map.blocked.iter().enumerate().all(|(i, b)| *b == (i != start)));
}

#[test]
fn cull_from_a_wall_without_floor_in_reach_names_the_start() {
    let mut map = TileMap::new(1);
    floor(&mut map, 30, 30);
    let exit = cull_unreachables_and_return_most_distant_tile(&mut map, 810);
    assert_eq!(exit, 810);
    assert!(map.tiles.iter().all(|t| *t == TileType::Wall));
}

#[test]
fn cull_names_a_neighbour_and_not_the_start() {
    let mut map = TileMap::new(1);
    for idx in [809usize, 810, 811] {
        map.tiles[idx] = TileType::Floor;
    }
    let exit = cull_unreachables_and_return_most_distant_tile(&mut map, 810);
    assert_eq!(exit, 809);
    for idx in [809usize, 810, 811] {
        assert_eq!(map.tiles[idx], TileType::Floor);
    }
}

#[test]
fn cull_names_the_tile_two_steps_away() {
    let mut map = TileMap::new(1);
    for idx in [810usize, 811, 812, 1620] {
        map.tiles[idx] = TileType::Floor;
    }
    let exit = cull_unreachables_and_return_most_distant_tile(&mut map, 810);
    assert_eq!(exit, 812);
    assert_eq!(map.tiles[1620], TileType::Wall);
    for idx in [810usize, 811, 812] {
        assert_eq!(map.tiles[idx], TileType::Floor);
    }
}

#[test]
fn cull_leaves_tiles_that_are_neither_wall_nor_floor() {
    let mut map = TileMap::new(1);
    floor(&mut map, 10, 10);
    floor(&mut map, 11, 10);
    let far = map.xy_idx(30, 30);
    map.tiles[far] = TileType::DownStairs;
    let start = map.xy_idx(10, 10);
    let exit = cull_unreachables_and_return_most_distant_tile(&mut map, start);
    assert_eq!(exit, start + 1);
    assert_eq!(map.tiles[far], TileType::DownStairs);
}
