use rogue_mapgen::map::{TileMap, TileType, MAP_COUNT, MAP_HEIGHT, MAP_WIDTH};

#[test]
fn new_map_is_all_walls_of_standard_size() {
    let map = TileMap::new(3);
    assert_eq!(map.width, 80);
    assert_eq!(map.height, 43);
    assert_eq!(MAP_WIDTH * MAP_HEIGHT, MAP_COUNT);
    assert_eq!(map.depth, 3);
    assert_eq!(map.tiles.len(), 3440);
    assert_eq!(map.revealed_tiles.len(), 3440);
    assert_eq!(map.visible_tiles.len(), 3440);
    assert_eq!(map.blocked.len(), 3440);
    assert_eq!(map.tile_content.len(), 3440);
    assert!(map.tiles.iter().all(|t| *t == TileType::Wall));
    assert!(map.revealed_tiles.iter().all(|b| !*b));
    assert!(map.visible_tiles.iter().all(|b| !*b));
    assert!(map.blocked.iter().all(|b| !*b));
    assert!(map.tile_content.iter().all(|c| c.is_empty()));
    assert!(map.bloodstains.is_empty());
}

#[test]
fn xy_idx_is_row_major() {
    let map = TileMap::new(1);
    assert_eq!(map.xy_idx(0, 0), 0);
    assert_eq!(map.xy_idx(79, 0), 79);
    assert_eq!(map.xy_idx(0, 1), 80);
    assert_eq!(map.xy_idx(40, 21), 1720);
    assert_eq!(map.xy_idx(79, 42), 3439);
}

#[test]
fn is_exit_valid_excludes_first_row_and_column_and_blocked() {
    let mut map = TileMap::new(1);
    assert!(!map.is_exit_valid(0, 5));
    assert!(!map.is_exit_valid(5, 0));
    assert!(!map.is_exit_valid(80, 5));
    assert!(!map.is_exit_valid(5, 43));
    assert!(!map.is_exit_valid(-1, -1));
    assert!(map.is_exit_valid(1, 1));
    assert!(map.is_exit_valid(79, 42));
    let idx = map.xy_idx(7, 9);
    map.blocked[idx] = true;
    assert!(!map.is_exit_valid(7, 9));
    assert!(map.is_exit_valid(8, 9));
}

#[test]
fn populate_blocked_marks_exactly_the_walls() {
    let mut map = TileMap::new(1);
    let a = map.xy_idx(3, 3);
    let b = map.xy_idx(4, 3);
    let c = map.xy_idx(5, 3);
    map.tiles[a] = TileType::Floor;
    map.tiles[b] = TileType::DownStairs;
    map.tiles[c] = TileType::Debug('E');
    map.populate_blocked();
    for i in 0..map.tiles.len() {
        assert_eq!(map.blocked[i], i != a && i != b && i != c);
    }
    map.tiles[a] = TileType::Wall;
    map.populate_blocked();
    assert!(map.blocked[a]);
}

#[test]
fn clear_content_index_empties_every_tile() {
    let mut map = TileMap::new(1);
    map.tile_content[5].push(11);
    map.tile_content[5].push(12);
    map.tile_content[3439].push(7);
    map.clear_content_index();
    assert_eq!(map.tile_content.len(), 3440);
    assert!(map.tile_content.iter().all(|c| c.is_empty()));
}

#[test]
fn clone_copies_every_buffer() {
    let mut map = TileMap::new(9);
    map.tiles[100] = TileType::Floor;
    map.revealed_tiles[101] = true;
    map.visible_tiles[102] = true;
    map.blocked[103] = true;
    map.bloodstains.push(104);
    map.tile_content[105].push(42);
    let copy = map.clone();
    assert_eq!(copy.tiles, map.tiles);
    assert_eq!(copy.width, map.width);
    assert_eq!(copy.height, map.height);
    assert_eq!(copy.revealed_tiles, map.revealed_tiles);
    assert_eq!(copy.visible_tiles, map.visible_tiles);
    assert_eq!(copy.blocked, map.blocked);
    assert_eq!(copy.depth, 9);
    assert_eq!(copy.bloodstains, vec![104]);
    assert_eq!(copy.tile_content, map.tile_content);
    map.tiles[100] = TileType::Wall;
    assert_eq!(copy.tiles[100], TileType::Floor);
}

#[test]
fn tile_types_compare_by_variant_and_glyph() {
    assert_eq!(TileType::Debug('E'), TileType::Debug('E'));
    assert_ne!(TileType::Debug('E'), TileType::Debug('F'));
    assert_ne!(TileType::Floor, TileType::VisitedFloor);
    assert_ne!(TileType::Wall, TileType::DownStairs);
}

#[test]
fn opaque_tiles_are_the_walls() {
    let mut map = TileMap::new(1);
    map.tiles[10] = TileType::Floor;
    map.tiles[11] = TileType::DownStairs;
    assert!(map.is_opaque(9));
    assert!(!map.is_opaque(10));
    assert!(!map.is_opaque(11));
}

#[test]
fn available_exits_list_the_open_neighbours_in_order() {
    let mut map = TileMap::new(1);
    map.populate_blocked();
    let centre = map.xy_idx(10, 10);
    assert!(map.get_available_exits(centre).is_empty());
    map.blocked = vec![false; 3440];
    assert_eq!(
        map.get_available_exits(centre),
        vec![
            (centre - 1, 100),
            (centre + 1, 100),
            (centre - 80, 100),
            (centre + 80, 100),
            (centre - 81, 145),
            (centre - 79, 145),
            (centre + 79, 145),
            (centre + 81, 145),
        ]
    );
    let right = map.xy_idx(11, 10);
    let above = map.xy_idx(10, 9);
    map.blocked[right] = true;
    map.blocked[above] = true;
    assert_eq!(
        map.get_available_exits(centre),
        vec![
            (centre - 1, 100),
            (centre + 80, 100),
            (centre - 81, 145),
            (centre - 79, 145),
            (centre + 79, 145),
            (centre + 81, 145),
        ]
    );
}

#[test]
fn available_exits_keep_off_the_first_row_and_column() {
    let map = TileMap::new(1);
    assert_eq!(map.get_available_exits(0), vec![(81, 145)]);
    let corner = map.xy_idx(1, 1);
    assert_eq!(
        map.get_available_exits(corner),
        vec![(corner + 1, 100), (corner + 80, 100), (corner + 81, 145)]
    );
    let last = map.xy_idx(79, 42);
    assert_eq!(
        map.get_available_exits(last),
        vec![(last - 1, 100), (last - 80, 100), (last - 81, 145)]
    );
}

#[test]
fn wall_glyph_joins_the_revealed_walls_around() {
    let mut map = TileMap::new(1);
    assert_eq!(map.wall_glyph(0, 5), 35);
    assert_eq!(map.wall_glyph(79, 5), 35);
    assert_eq!(map.wall_glyph(5, 0), 35);
    assert_eq!(map.wall_glyph(5, 42), 35);
    assert_eq!(map.wall_glyph(-3, 100), 35);
    assert_eq!(map.wall_glyph(10, 10), 9);
    let reveal = |map: &mut TileMap, x: i32, y: i32| {
        let idx = map.xy_idx(x, y);
        map.revealed_tiles[idx] = true;
    };
    reveal(&mut map, 10, 9);
    assert_eq!(map.wall_glyph(10, 10), 186);
    reveal(&mut map, 10, 11);
    assert_eq!(map.wall_glyph(10, 10), 186);
    reveal(&mut map, 9, 10);
    assert_eq!(map.wall_glyph(10, 10), 185);
    reveal(&mut map, 11, 10);
    assert_eq!(map.wall_glyph(10, 10), 206);
    let above = map.xy_idx(10, 9);
    map.tiles[above] = TileType::Floor;
    assert_eq!(map.wall_glyph(10, 10), 203);
    let below = map.xy_idx(10, 11);
    map.revealed_tiles[below] = false;
    assert_eq!(map.wall_glyph(10, 10), 205);
    let left = map.xy_idx(9, 10);
    map.revealed_tiles[left] = false;
    assert_eq!(map.wall_glyph(10, 10), 205);
    map.revealed_tiles[below] = true;
    assert_eq!(map.wall_glyph(10, 10), 201);
    let mut other = TileMap::new(1);
    reveal(&mut other, 20, 19);
    reveal(&mut other, 19, 20);
    assert_eq!(other.wall_glyph(20, 20), 188);
    assert!(other.is_revealed_and_wall(20, 19));
    assert!(!other.is_revealed_and_wall(20, 20));
    reveal(&mut other, 20, 21);
    assert_eq!(other.wall_glyph(20, 20), 185);
    let mut third = TileMap::new(1);
    reveal(&mut third, 21, 20);
    reveal(&mut third, 20, 19);
    assert_eq!(third.wall_glyph(20, 20), 200);
    reveal(&mut third, 20, 21);
    assert_eq!(third.wall_glyph(20, 20), 204);
    reveal(&mut third, 19, 20);
    let up = third.xy_idx(20, 19);
    third.revealed_tiles[up] = false;
    assert_eq!(third.wall_glyph(20, 20), 203);
    let down = third.xy_idx(20, 21);
    third.revealed_tiles[down] = false;
    third.revealed_tiles[up] = true;
    assert_eq!(third.wall_glyph(20, 20), 202);
}
