use rogue_mapgen::map::{TileMap, TileType};
use rogue_mapgen::map_builders::common::{
    apply_horizontal_tunnel, apply_room_to_map, apply_vertical_tunnel, count_kind,
    generate_voronoi_spawn_regions, max_of, min_of, paint, revealed_snapshot, stagger, Symmetry,
};
use rogue_mapgen::rect::Rect;

fn floors(map: &TileMap) -> Vec<(i32, i32)> {
    let mut out = Vec::new();
    for (i, t) in map.tiles.iter().enumerate() {
        if *t == TileType::Floor {
            out.push((i as i32 % 80, i as i32 / 80));
        }
    }
    out
}

#[test]
fn room_interior_becomes_floor() {
    let mut map = TileMap::new(1);
    apply_room_to_map(&mut map, &Rect::new(2, 2, 4, 3));
    assert_eq!(floors(&map), vec![(3, 3), (4, 3), (5, 3), (3, 4), (4, 4), (5, 4)]);
    let mut narrow = TileMap::new(1);
    apply_room_to_map(&mut narrow, &Rect::new(2, 2, 3, 2));
    assert_eq!(floors(&narrow), vec![(3, 3), (4, 3)]);
}

#[test]
fn empty_room_changes_nothing() {
    let mut map = TileMap::new(1);
    apply_room_to_map(&mut map, &Rect::new(5, 5, 0, 4));
    apply_room_to_map(&mut map, &Rect::new(5, 5, 4, -1));
    apply_room_to_map(&mut map, &Rect::new(5, 5, 1, 4));
    apply_room_to_map(&mut map, &Rect::new(5, 5, 4, 1));
    apply_room_to_map(&mut map, &Rect { x1: 200, x2: 100, y1: 300, y2: 100 });
    assert!(floors(&map).is_empty());
}

#[test]
fn room_may_reach_the_edges_of_the_map() {
    let mut map = TileMap::new(1);
    apply_room_to_map(&mut map, &Rect { x1: -1, x2: 80, y1: -1, y2: 43 });
    assert_eq!(floors(&map).len(), 3440);
    let mut inner = TileMap::new(1);
    apply_room_to_map(&mut inner, &Rect { x1: 0, x2: 79, y1: 0, y2: 42 });
    assert_eq!(floors(&inner).len(), 78 * 41);
    assert_eq!(inner.tiles[42 * 80 + 79], TileType::Wall);
}

#[test]
fn horizontal_tunnel_runs_between_both_ends() {
    let mut map = TileMap::new(1);
    apply_horizontal_tunnel(&mut map, 10, 3, 5);
    let want: Vec<(i32, i32)> = (3..=10).map(|x| (x, 5)).collect();
    assert_eq!(floors(&map), want);
    let mut other = TileMap::new(1);
    apply_horizontal_tunnel(&mut other, 3, 10, 5);
    assert_eq!(other.tiles, map.tiles);
}

#[test]
fn horizontal_tunnel_skips_what_is_off_the_buffer() {
    let mut map = TileMap::new(1);
    apply_horizontal_tunnel(&mut map, 0, 3, -1);
    assert!(floors(&map).is_empty());
    apply_horizontal_tunnel(&mut map, -2, 1, 0);
    assert_eq!(floors(&map), vec![(0, 0), (1, 0)]);
    let mut end = TileMap::new(1);
    apply_horizontal_tunnel(&mut end, 78, 85, 42);
    assert_eq!(floors(&end), vec![(78, 42), (79, 42)]);
}

#[test]
fn horizontal_tunnel_wraps_into_the_next_row() {
    let mut map = TileMap::new(1);
    apply_horizontal_tunnel(&mut map, 79, 81, 2);
    assert_eq!(floors(&map), vec![(79, 2), (0, 3), (1, 3)]);
}

#[test]
fn vertical_tunnel_runs_between_both_ends() {
    let mut map = TileMap::new(1);
    apply_vertical_tunnel(&mut map, 7, 4, 9);
    assert_eq!(floors(&map), vec![(9, 4), (9, 5), (9, 6), (9, 7)]);
    let mut other = TileMap::new(1);
    apply_vertical_tunnel(&mut other, 4, 7, 9);
    assert_eq!(other.tiles, map.tiles);
}

#[test]
fn vertical_tunnel_skips_what_is_off_the_buffer() {
    let mut map = TileMap::new(1);
    apply_vertical_tunnel(&mut map, -2, 1, 0);
    assert_eq!(floors(&map), vec![(0, 0), (0, 1)]);
    let mut end = TileMap::new(1);
    apply_vertical_tunnel(&mut end, 41, 50, 79);
    assert_eq!(floors(&end), vec![(79, 41), (79, 42)]);
}

#[test]
fn min_and_max() {
    assert_eq!(min_of(3, -4), -4);
    assert_eq!(max_of(3, -4), 3);
    assert_eq!(min_of(5, 5), 5);
    assert_eq!(max_of(5, 5), 5);
}

#[test]
fn paint_with_a_brush_of_one_tile() {
    let mut map = TileMap::new(1);
    assert_eq!(paint(&mut map, Symmetry::Unmirrored, 1, 10, 10), 1);
    assert_eq!(floors(&map), vec![(10, 10)]);
    assert_eq!(paint(&mut map, Symmetry::Unmirrored, 1, 10, 10), 0);
    assert_eq!(floors(&map), vec![(10, 10)]);
}

#[test]
fn paint_with_a_brush_of_two_tiles() {
    let mut map = TileMap::new(1);
    assert_eq!(paint(&mut map, Symmetry::Unmirrored, 1, 10, 10), 1);
    assert_eq!(paint(&mut map, Symmetry::Unmirrored, 2, 10, 10), 3);
    assert_eq!(floors(&map), vec![(9, 9), (10, 9), (9, 10), (10, 10)]);
}

#[test]
fn paint_with_a_brush_of_four_tiles() {
    let mut map = TileMap::new(1);
    assert_eq!(paint(&mut map, Symmetry::Unmirrored, 4, 20, 20), 16);
    let got = floors(&map);
    assert_eq!(got.len(), 16);
    assert!(got.iter().all(|(x, y)| (18..22).contains(x) && (18..22).contains(y)));
}

#[test]
fn paint_keeps_off_the_border() {
    let mut map = TileMap::new(1);
    assert_eq!(paint(&mut map, Symmetry::Unmirrored, 1, 1, 10), 0);
    assert_eq!(paint(&mut map, Symmetry::Unmirrored, 1, 10, 1), 0);
    assert_eq!(paint(&mut map, Symmetry::Unmirrored, 1, 79, 10), 0);
    assert_eq!(paint(&mut map, Symmetry::Unmirrored, 1, 10, 42), 0);
    assert_eq!(paint(&mut map, Symmetry::Unmirrored, 1, -5, 500), 0);
    assert_eq!(paint(&mut map, Symmetry::Unmirrored, 0, 10, 10), 0);
    assert_eq!(paint(&mut map, Symmetry::Unmirrored, -3, 10, 10), 0);
    assert!(floors(&map).is_empty());
    assert_eq!(paint(&mut map, Symmetry::Unmirrored, 2, 2, 2), 1);
    assert_eq!(floors(&map), vec![(2, 2)]);
    assert_eq!(paint(&mut map, Symmetry::Unmirrored, 1, 78, 41), 1);
}

#[test]
fn paint_leaves_tiles_that_are_not_walls() {
    let mut map = TileMap::new(1);
    let idx = map.xy_idx(10, 10);
    map.tiles[idx] = TileType::DownStairs;
    assert_eq!(paint(&mut map, Symmetry::Unmirrored, 1, 10, 10), 0);
    assert_eq!(map.tiles[idx], TileType::DownStairs);
}

#[test]
fn paint_mirrored_left_to_right() {
    let mut map = TileMap::new(1);
    assert_eq!(paint(&mut map, Symmetry::Horizontal, 1, 30, 10), 2);
    assert_eq!(floors(&map), vec![(30, 10), (50, 10)]);
    assert_eq!(paint(&mut map, Symmetry::Horizontal, 1, 40, 12), 1);
    assert_eq!(paint(&mut map, Symmetry::Horizontal, 1, 55, 14), 2);
    assert_eq!(floors(&map), vec![(30, 10), (50, 10), (40, 12), (25, 14), (55, 14)]);
}

#[test]
fn paint_mirrored_top_to_bottom() {
    let mut map = TileMap::new(1);
    assert_eq!(paint(&mut map, Symmetry::Vertical, 1, 30, 10), 2);
    assert_eq!(floors(&map), vec![(30, 10), (30, 32)]);
    assert_eq!(paint(&mut map, Symmetry::Vertical, 1, 33, 21), 1);
    assert_eq!(floors(&map), vec![(30, 10), (33, 21), (30, 32)]);
}

#[test]
fn paint_mirrored_both_ways() {
    let mut map = TileMap::new(1);
    assert_eq!(paint(&mut map, Symmetry::Both, 1, 30, 10), 3);
    assert_eq!(floors(&map), vec![(30, 10), (50, 10), (30, 32)]);
    let mut centre = TileMap::new(1);
    assert_eq!(paint(&mut centre, Symmetry::Both, 1, 40, 21), 1);
    assert_eq!(floors(&centre), vec![(40, 21)]);
    let mut axis = TileMap::new(1);
    assert_eq!(paint(&mut axis, Symmetry::Both, 1, 40, 10), 2);
    assert_eq!(floors(&axis), vec![(40, 10), (40, 32)]);
}

#[test]
fn paint_count_matches_the_growth_of_the_floor() {
    let mut map = TileMap::new(1);
    let mut total = 0;
    for (x, y) in [(10, 10), (11, 11), (12, 10), (40, 21), (70, 40), (11, 10)] {
        let before = count_kind(&map.tiles, TileType::Floor);
        let painted = paint(&mut map, Symmetry::Both, 2, x, y);
        assert_eq!(count_kind(&map.tiles, TileType::Floor), before + painted);
        total += painted;
    }
    assert_eq!(count_kind(&map.tiles, TileType::Floor), total);
    assert_eq!(count_kind(&map.tiles, TileType::Wall), 3440 - total);
}

#[test]
fn stagger_follows_the_roll() {
    let map = TileMap::new(1);
    assert_eq!(stagger(&map, 10, 10, 1), (9, 10));
    assert_eq!(stagger(&map, 10, 10, 2), (11, 10));
    assert_eq!(stagger(&map, 10, 10, 3), (10, 9));
    assert_eq!(stagger(&map, 10, 10, 4), (10, 11));
    assert_eq!(stagger(&map, 10, 10, 5), (10, 10));
    assert_eq!(stagger(&map, 10, 10, 0), (10, 10));
}

#[test]
fn stagger_keeps_two_tiles_from_the_edges() {
    let map = TileMap::new(1);
    assert_eq!(stagger(&map, 2, 10, 1), (2, 10));
    assert_eq!(stagger(&map, 3, 10, 1), (2, 10));
    assert_eq!(stagger(&map, 78, 10, 2), (78, 10));
    assert_eq!(stagger(&map, 77, 10, 2), (78, 10));
    assert_eq!(stagger(&map, 10, 2, 3), (10, 2));
    assert_eq!(stagger(&map, 10, 41, 4), (10, 41));
    assert_eq!(stagger(&map, 10, 40, 4), (10, 41));
}

#[test]
fn spawn_regions_group_every_floor_tile_by_cell() {
    let mut map = TileMap::new(1);
    let mut cells = vec![0i32; 3440];
    let tiles = [(1, 1, 4), (2, 1, -3), (5, 7, 4), (78, 41, 4), (0, 5, 4), (79, 5, 4), (5, 0, 4), (5, 42, 4), (9, 9, 0)];
    for (x, y, cell) in tiles {
        let idx = map.xy_idx(x, y);
        map.tiles[idx] = TileType::Floor;
        cells[idx] = cell;
    }
    let wall = map.xy_idx(30, 30);
    cells[wall] = 99;
    let regions = generate_voronoi_spawn_regions(&map, &cells);
    assert_eq!(regions.len(), 3);
    assert_eq!(
        regions[&4],
        vec![5, 81, 5 * 80, 5 * 80 + 79, 7 * 80 + 5, 41 * 80 + 78, 42 * 80 + 5]
    );
    assert_eq!(regions[&-3], vec![82]);
    assert_eq!(regions[&0], vec![9 * 80 + 9]);
    assert!(!regions.contains_key(&99));
}

#[test]
fn spawn_regions_of_a_map_without_floor_are_empty() {
    let map = TileMap::new(1);
    let cells = vec![7i32; 3440];
    assert!(generate_voronoi_spawn_regions(&map, &cells).is_empty());
}

#[test]
fn snapshot_reveals_every_tile_and_keeps_the_rest() {
    let mut map = TileMap::new(2);
    map.tiles[500] = TileType::Floor;
    map.visible_tiles[3] = true;
    map.revealed_tiles[4] = true;
    let snapshot = revealed_snapshot(&map);
    assert!(snapshot.revealed_tiles.iter().all(|b| *b));
    assert_eq!(snapshot.revealed_tiles.len(), 3440);
    assert_eq!(snapshot.tiles, map.tiles);
    assert_eq!(snapshot.visible_tiles, map.visible_tiles);
    assert_eq!(snapshot.depth, 2);
    assert!(!map.revealed_tiles[5]);
}

#[test]
fn count_kind_counts() {
    let mut map = TileMap::new(1);
    assert_eq!(count_kind(&map.tiles, TileType::Wall), 3440);
    assert_eq!(count_kind(&map.tiles, TileType::Floor), 0);
    map.tiles[0] = TileType::Floor;
    map.tiles[3439] = TileType::Floor;
    map.tiles[7] = TileType::Debug('x');
    assert_eq!(count_kind(&map.tiles, TileType::Floor), 2);
    assert_eq!(count_kind(&map.tiles, TileType::Debug('x')), 1);
    assert_eq!(count_kind(&map.tiles, TileType::Debug('y')), 0);
    assert_eq!(count_kind(&Vec::new(), TileType::Wall), 0);
}
