use rogue_mapgen::dice::Dice;
use rogue_mapgen::map::{Position, TileMap, TileType};
use rogue_mapgen::map_builders::wave_function_collapse::constraints::{
    any_set, build_patterns, compatible_chunks, contains_pattern, dedup_patterns, do_exits_meet,
    exits_of_border, extract_pattern, is_compatible, mark_border, opposite_side,
    patterns_to_constraints, render_chunk_to_map, render_pattern_to_map, same_pattern,
    stamp_pattern, tile_idx_in_chunk, MapChunk,
};
use rogue_mapgen::map_builders::wave_function_collapse::image_loader::{load_rex_map, RexLayer};
use rogue_mapgen::map_builders::wave_function_collapse::solver::{list_contains, Solver};
use rogue_mapgen::map_builders::wave_function_collapse::{
    copy_constraints, WaveFunctionCollapseBuilder, CHUNK_SIZE,
};
use rogue_mapgen::map_builders::{random_builder, AnyBuilder, MapBuilder};

const F: TileType = TileType::Floor;
const W: TileType = TileType::Wall;

fn count(map: &TileMap, kind: TileType) -> usize {
    map.tiles.iter().filter(|t| **t == kind).count()
}

fn flood_visits_every_floor(map: &TileMap, start: Position) -> bool {
    let w = map.width;
    let h = map.height;
    let mut seen = vec![false; map.tiles.len()];
    let mut queue = vec![(start.x, start.y)];
    while let Some((x, y)) = queue.pop() {
        for dy in -1..=1 {
            for dx in -1..=1 {
                let nx = x + dx;
                let ny = y + dy;
                if (dx == 0 && dy == 0) || nx < 1 || nx > w - 1 || ny < 1 || ny > h - 1 {
                    continue;
                }
                let idx = (ny * w + nx) as usize;
                if map.tiles[idx] == TileType::Wall || seen[idx] {
                    continue;
                }
                seen[idx] = true;
                queue.push((nx, ny));
            }
        }
    }
    map.tiles.iter().enumerate().all(|(i, t)| *t != TileType::Floor || seen[i])
}

/// An example image of the size of the map: open ground with pillars and a
/// wall around it.
fn example_image() -> Vec<RexLayer> {
    let width = 80usize;
    let height = 43usize;
    let mut cells = vec![32u32; width * height];
    for x in 0..width {
        for y in 0..height {
            let border = x == 0 || y == 0 || x == width - 1 || y == height - 1;
            let pillar = x % 5 == 2 && y % 4 == 1;
            if border || pillar {
                cells[x * height + y] = 35;
            }
        }
    }
    vec![RexLayer { width, height, cells }]
}

fn chunk_fits(a: &MapChunk, d: usize, b: &MapChunk) -> bool {
    let o = [1usize, 0, 3, 2][d];
    if !a.has_exits || !b.has_exits {
        return true;
    }
    let side = a.exits[d].iter().any(|e| *e);
    let meet = a.exits[d].iter().zip(b.exits[o].iter()).any(|(x, y)| *x && *y);
    meet || !side
}

#[test]
fn tile_index_in_a_chunk_is_row_major() {
    assert_eq!(tile_idx_in_chunk(0, 0, 7), 0);
    assert_eq!(tile_idx_in_chunk(6, 0, 7), 6);
    assert_eq!(tile_idx_in_chunk(0, 1, 7), 7);
    assert_eq!(tile_idx_in_chunk(6, 6, 7), 48);
    assert_eq!(tile_idx_in_chunk(1, 1, 2), 3);
}

#[test]
fn small_helpers() {
    assert!(any_set(&vec![false, true]));
    assert!(!any_set(&vec![false, false]));
    assert!(!any_set(&Vec::new()));
    assert!(do_exits_meet(&vec![false, true], &vec![true, true]));
    assert!(!do_exits_meet(&vec![false, true], &vec![true, false]));
    assert!(!do_exits_meet(&Vec::new(), &vec![true]));
    assert_eq!(opposite_side(0), 1);
    assert_eq!(opposite_side(1), 0);
    assert_eq!(opposite_side(2), 3);
    assert_eq!(opposite_side(3), 2);
    assert!(same_pattern(&vec![F, W], &vec![F, W]));
    assert!(!same_pattern(&vec![F, W], &vec![W, F]));
    assert!(!same_pattern(&vec![F, W], &vec![F]));
    assert!(contains_pattern(&vec![vec![W], vec![F]], &vec![F]));
    assert!(!contains_pattern(&vec![vec![W], vec![F]], &vec![F, F]));
    assert!(list_contains(&vec![3, 5, 9], 5));
    assert!(!list_contains(&vec![3, 5, 9], 4));
}

#[test]
fn patterns_are_cut_column_of_chunks_by_column_of_chunks() {
    let mut map = TileMap::new(1);
    for i in 0..map.tiles.len() {
        if (i % 80 + 3 * (i / 80)) % 7 < 3 {
            map.tiles[i] = F;
        }
    }
    let patterns = build_patterns(&map, 20, false, false);
    assert_eq!(patterns.len(), 8);
    for (k, pattern) in patterns.iter().enumerate() {
        assert_eq!(pattern.len(), 400);
        let cx = (k / 2) as i32;
        let cy = (k % 2) as i32;
        for ty in 0..20 {
            for tx in 0..20 {
                let want = map.tiles[map.xy_idx(cx * 20 + tx, cy * 20 + ty)];
                assert_eq!(pattern[(ty * 20 + tx) as usize], want);
            }
        }
    }
}

#[test]
fn flipped_patterns_follow_each_chunk() {
    let mut map = TileMap::new(1);
    for i in 0..map.tiles.len() {
        if (i % 80 + 3 * (i / 80)) % 7 < 3 {
            map.tiles[i] = F;
        }
    }
    let patterns = build_patterns(&map, 43, true, false);
    assert_eq!(patterns.len(), 4);
    for ty in 0..43 {
        for tx in 0..43 {
            let k = (ty * 43 + tx) as usize;
            assert_eq!(patterns[0][k], map.tiles[map.xy_idx(tx, ty)]);
            assert_eq!(patterns[1][k], map.tiles[map.xy_idx(42 - tx, ty)]);
            assert_eq!(patterns[2][k], map.tiles[map.xy_idx(tx, 42 - ty)]);
            assert_eq!(patterns[3][k], map.tiles[map.xy_idx(42 - tx, 42 - ty)]);
        }
    }
    assert_eq!(extract_pattern(&map, 43, 0, 0, true, false), patterns[1]);
    assert_eq!(extract_pattern(&map, 2, 10, 10, false, false), vec![
        map.tiles[map.xy_idx(10, 10)],
        map.tiles[map.xy_idx(11, 10)],
        map.tiles[map.xy_idx(10, 11)],
        map.tiles[map.xy_idx(11, 11)],
    ]);
}

#[test]
fn dedup_keeps_first_occurrences() {
    let map = TileMap::new(1);
    assert_eq!(build_patterns(&map, 7, true, false).len(), 264);
    let unique = build_patterns(&map, 7, true, true);
    assert_eq!(unique, vec![vec![W; 49]]);
    let listed = vec![vec![F], vec![W], vec![F], vec![F, F], vec![W], vec![F, F]];
    assert_eq!(dedup_patterns(&listed), vec![vec![F], vec![W], vec![F, F]]);
    assert!(dedup_patterns(&Vec::new()).is_empty());
    assert!(build_patterns(&map, 81, true, true).is_empty());
}

#[test]
fn border_exits_are_the_floor_tiles_of_the_border() {
    let pattern = vec![F, W, W, W, W, F, W, F, W];
    assert_eq!(exits_of_border(&pattern, 3, 0), vec![true, false, false]);
    assert_eq!(exits_of_border(&pattern, 3, 1), vec![false, true, false]);
    assert_eq!(exits_of_border(&pattern, 3, 2), vec![true, false, false]);
    assert_eq!(exits_of_border(&pattern, 3, 3), vec![false, true, false]);
}

#[test]
fn constraints_of_three_small_patterns() {
    let corner = vec![F, W, W, W];
    let solid = vec![W, W, W, W];
    let notch = vec![W, W, F, W];
    let chunks = patterns_to_constraints(vec![corner.clone(), solid.clone(), notch.clone()], 2);
    assert_eq!(chunks.len(), 3);
    assert_eq!(chunks[0].pattern, corner);
    assert_eq!(chunks[1].pattern, solid);
    assert_eq!(chunks[2].pattern, notch);
    assert_eq!(chunks[0].exits, [vec![true, false], vec![false, false], vec![true, false], vec![false, false]]);
    assert_eq!(chunks[1].exits, [vec![false, false], vec![false, false], vec![false, false], vec![false, false]]);
    assert_eq!(chunks[2].exits, [vec![false, false], vec![true, false], vec![false, true], vec![false, false]]);
    assert!(chunks[0].has_exits);
    assert!(!chunks[1].has_exits);
    assert!(chunks[2].has_exits);
    assert_eq!(chunks[0].compatible_with, [vec![1, 2], vec![0, 1, 2], vec![1], vec![0, 1, 2]]);
    assert_eq!(chunks[1].compatible_with, [vec![0, 1, 2], vec![0, 1, 2], vec![0, 1, 2], vec![0, 1, 2]]);
    assert_eq!(chunks[2].compatible_with, [vec![0, 1, 2], vec![0, 1], vec![1], vec![0, 1, 2]]);
    for (i, a) in chunks.iter().enumerate() {
        for d in 0..4 {
            assert_eq!(compatible_chunks(&chunks, i, d), a.compatible_with[d]);
            for (j, b) in chunks.iter().enumerate() {
                assert_eq!(is_compatible(a, d, b), chunk_fits(a, d, b));
                assert_eq!(a.compatible_with[d].contains(&j), chunk_fits(a, d, b));
            }
        }
    }
    let copy = copy_constraints(&chunks);
    assert_eq!(copy.len(), 3);
    assert_eq!(copy[2].pattern, notch);
    assert_eq!(copy[2].exits, chunks[2].exits);
    assert_eq!(copy[0].compatible_with, chunks[0].compatible_with);
    assert!(patterns_to_constraints(Vec::new(), 7).is_empty());
}

#[test]
fn rendering_a_pattern_writes_and_reveals_its_tiles() {
    let mut map = TileMap::new(1);
    let pattern = vec![F, W, F, F, W, W, W, F, F];
    render_pattern_to_map(&mut map, &pattern, 3, 10, 20);
    for ty in 0..3 {
        for tx in 0..3 {
            let idx = map.xy_idx(10 + tx, 20 + ty);
            assert_eq!(map.tiles[idx], pattern[(ty * 3 + tx) as usize]);
            assert!(map.visible_tiles[idx]);
        }
    }
    assert_eq!(count(&map, F), 5);
    assert_eq!(map.visible_tiles.iter().filter(|v| **v).count(), 9);
    let mut quiet = TileMap::new(1);
    stamp_pattern(&mut quiet, &pattern, 3, 10, 20, false);
    assert_eq!(quiet.tiles, map.tiles);
    assert!(quiet.visible_tiles.iter().all(|v| !*v));
    let mut corner = TileMap::new(1);
    render_pattern_to_map(&mut corner, &vec![F; 49], 7, 73, 36);
    assert_eq!(corner.tiles[3439], F);
    assert_eq!(count(&corner, F), 49);
}

#[test]
fn rendering_a_chunk_marks_its_exits() {
    let chunks = patterns_to_constraints(vec![vec![F, W, W, W, W, F, W, F, W]], 3);
    let mut map = TileMap::new(1);
    render_chunk_to_map(&mut map, &chunks[0], 3, 1, 1);
    let e = TileType::Debug('E');
    let rows = [[e, W, W], [W, W, e], [W, e, W]];
    for ty in 0..3 {
        for tx in 0..3 {
            assert_eq!(map.tiles[map.xy_idx(1 + tx, 1 + ty)], rows[ty as usize][tx as usize]);
            assert!(map.visible_tiles[map.xy_idx(1 + tx, 1 + ty)]);
        }
    }
    assert_eq!(count(&map, e), 3);
    assert_eq!(count(&map, F), 0);
    let mut other = TileMap::new(1);
    mark_border(&mut other, &vec![true, false, true], 3, 5, 5, 1);
    assert_eq!(other.tiles[other.xy_idx(5, 7)], e);
    assert_eq!(other.tiles[other.xy_idx(7, 7)], e);
    assert_eq!(count(&other, e), 2);
    mark_border(&mut other, &vec![false, true], 3, 5, 5, 3);
    assert_eq!(other.tiles[other.xy_idx(7, 6)], e);
    mark_border(&mut other, &vec![true], 3, 5, 5, 2);
    assert_eq!(other.tiles[other.xy_idx(5, 5)], e);
    mark_border(&mut other, &vec![false, true], 3, 5, 5, 0);
    assert_eq!(other.tiles[other.xy_idx(6, 5)], e);
    assert_eq!(count(&other, e), 5);
}

#[test]
fn example_image_is_decoded_cell_by_cell() {
    let layer = RexLayer { width: 3, height: 2, cells: vec![32, 35, 35, 32, 64, 32] };
    let map = load_rex_map(4, &vec![layer]);
    assert_eq!(map.depth, 4);
    assert_eq!(map.tiles[map.xy_idx(0, 0)], F);
    assert_eq!(map.tiles[map.xy_idx(0, 1)], W);
    assert_eq!(map.tiles[map.xy_idx(1, 0)], W);
    assert_eq!(map.tiles[map.xy_idx(1, 1)], F);
    assert_eq!(map.tiles[map.xy_idx(2, 0)], W);
    assert_eq!(map.tiles[map.xy_idx(2, 1)], F);
    assert_eq!(count(&map, F), 3);
    let under = RexLayer { width: 2, height: 1, cells: vec![32, 32] };
    let over = RexLayer { width: 2, height: 1, cells: vec![35, 1] };
    let both = load_rex_map(1, &vec![under, over]);
    assert_eq!(both.tiles[0], W);
    assert_eq!(both.tiles[1], F);
    assert_eq!(count(&both, F), 1);
    assert_eq!(count(&load_rex_map(1, &Vec::new()), W), 3440);
}

#[test]
fn example_image_cells_off_the_map_are_skipped() {
    let layer = RexLayer { width: 90, height: 50, cells: vec![32; 4500] };
    let map = load_rex_map(1, &vec![layer]);
    assert_eq!(map.tiles.len(), 3440);
    assert_eq!(count(&map, F), 3440);
    let image = example_image();
    let pillars = load_rex_map(1, &image);
    assert_eq!(pillars.tiles[pillars.xy_idx(0, 0)], W);
    assert_eq!(pillars.tiles[pillars.xy_idx(1, 1)], F);
    assert_eq!(pillars.tiles[pillars.xy_idx(2, 1)], W);
    assert_eq!(pillars.tiles[pillars.xy_idx(79, 42)], W);
}

#[test]
fn solver_collapses_every_cell_of_a_plain_world() {
    let mut map = TileMap::new(1);
    let chunks = patterns_to_constraints(vec![vec![F; 49]], 7);
    let mut solver = Solver::new(chunks, 7, &map);
    let mut dice = Dice::seeded(2);
    assert!(solver.still_possible());
    assert_eq!(solver.chunk_idx(0, 0), 0);
    assert_eq!(solver.chunk_idx(10, 5), 65);
    assert_eq!(solver.count_neighbors(3, 3), 0);
    assert_eq!(solver.candidates(3, 3), vec![0]);
    assert!(solver.is_allowed(3, 3, 0));
    let mut steps = 0;
    while !solver.step(&mut map, &mut dice) {
        steps += 1;
        assert!(steps <= 66);
    }
    assert_eq!(steps, 66);
    assert!(solver.possible);
    assert!(solver.step(&mut map, &mut dice));
    assert_eq!(solver.count_neighbors(3, 3), 4);
    assert_eq!(solver.count_neighbors(0, 0), 2);
    assert_eq!(solver.count_neighbors(10, 5), 2);
    assert_eq!(solver.count_neighbors(5, 0), 3);
    for y in 0..43 {
        for x in 0..80 {
            let want = if x < 77 && y < 42 { F } else { W };
            assert_eq!(map.tiles[map.xy_idx(x, y)], want);
        }
    }
}

#[test]
fn solver_gives_up_where_no_chunk_fits() {
    let mut map = TileMap::new(1);
    let mut chunks = patterns_to_constraints(vec![vec![F; 49], vec![W; 49]], 7);
    for chunk in chunks.iter_mut() {
        chunk.compatible_with = [Vec::new(), Vec::new(), Vec::new(), Vec::new()];
    }
    let mut solver = Solver::new(chunks, 7, &map);
    let mut dice = Dice::seeded(3);
    let mut steps = 0;
    while !solver.step(&mut map, &mut dice) {
        steps += 1;
        assert!(steps <= 66);
    }
    assert!(!solver.possible);
    assert!(!solver.still_possible());
    assert!(steps >= 1 && steps < 66);
}

#[test]
fn solver_without_chunks_gives_up_at_once() {
    let mut map = TileMap::new(1);
    let mut solver = Solver::new(Vec::new(), 7, &map);
    let mut dice = Dice::seeded(3);
    assert!(solver.step(&mut map, &mut dice));
    assert!(!solver.possible);
    assert_eq!(count(&map, W), 3440);
}

#[test]
fn solver_places_only_what_the_neighbours_list() {
    let mut map = TileMap::new(1);
    let mut chunks = patterns_to_constraints(vec![vec![F; 49], vec![W; 49]], 7);
    chunks[0].compatible_with = [vec![0], vec![0], vec![0], vec![0]];
    chunks[1].compatible_with = [vec![1], vec![1], vec![1], vec![1]];
    let mut solver = Solver::new(chunks, 7, &map);
    solver.place(&mut map, 4, 2, 1);
    assert_eq!(solver.candidates(5, 2), vec![1]);
    assert_eq!(solver.candidates(4, 3), vec![1]);
    assert_eq!(solver.candidates(6, 2), vec![0, 1]);
    assert!(!solver.is_allowed(3, 2, 0));
    assert!(solver.is_allowed(3, 2, 1));
    assert_eq!(solver.count_neighbors(4, 3), 1);
    solver.place(&mut map, 6, 2, 0);
    assert!(solver.candidates(5, 2).is_empty());
    assert_eq!(map.tiles[map.xy_idx(42, 14)], F);
    assert_eq!(map.tiles[map.xy_idx(48, 20)], F);
    assert_eq!(map.tiles[map.xy_idx(41, 14)], W);
    assert_eq!(count(&map, F), 49);
}

#[test]
fn solved_chunks_agree_across_their_borders() {
    let image = example_image();
    let seed_map = load_rex_map(1, &image);
    let constraints = patterns_to_constraints(build_patterns(&seed_map, CHUNK_SIZE, true, true), CHUNK_SIZE);
    let mut solved = 0;
    for seed in 0..40u64 {
        let mut builder = WaveFunctionCollapseBuilder::new(1, example_image());
        let mut dice = Dice::seeded(seed);
        let solver = builder.solve(&constraints, &mut dice);
        if !solver.possible {
            continue;
        }
        solved += 1;
        let map = builder.get_map();
        let placed = patterns_to_constraints(build_patterns(&map, CHUNK_SIZE, false, false), CHUNK_SIZE);
        assert_eq!(placed.len(), 66);
        for cx in 0..11usize {
            for cy in 0..6usize {
                let here = &placed[cx * 6 + cy];
                assert!(constraints.iter().any(|c| c.pattern == here.pattern));
                if cx + 1 < 11 {
                    let east = &placed[(cx + 1) * 6 + cy];
                    assert!(chunk_fits(here, 3, east) || chunk_fits(east, 2, here));
                }
                if cy + 1 < 6 {
                    let south = &placed[cx * 6 + cy + 1];
                    assert!(chunk_fits(here, 1, south) || chunk_fits(south, 0, here));
                }
            }
        }
    }
    assert!(solved >= 1);
}

#[test]
fn wave_function_collapse_level() {
    for seed in [1u64, 2] {
        let mut builder = WaveFunctionCollapseBuilder::new(3, example_image());
        let mut dice = Dice::seeded(seed);
        let solved = builder.build(&mut dice);
        assert!(solved);
        let map = builder.get_map();
        let start = builder.get_starting_position();
        assert_eq!(map.depth, 3);
        assert_eq!(map.tiles.len(), 3440);
        assert_eq!(count(&map, TileType::DownStairs), 1);
        assert_eq!(count(&map, W) + count(&map, F), 3439);
        assert!(flood_visits_every_floor(&map, start));
        assert_eq!(start.y, 21);
        assert!(start.x <= 40);
        assert_eq!(builder.get_map().tiles, map.tiles);
        let history = builder.get_snapshot_history();
        assert!(history.len() > 66);
        assert!(history.iter().all(|m| m.tiles.len() == 3440 && m.revealed_tiles.iter().all(|r| *r)));
        assert!(builder.noise_seed() >= 1 && builder.noise_seed() <= 65536);
    }
}

#[test]
fn wave_function_collapse_without_an_image_builds_solid_rock() {
    let mut builder = WaveFunctionCollapseBuilder::new(1, Vec::new());
    assert!(builder.build(&mut Dice::seeded(1)));
    let map = builder.get_map();
    assert_eq!(count(&map, TileType::DownStairs), 1);
    assert_eq!(count(&map, W), 3439);
    assert_eq!(map.tiles[21 * 80], TileType::DownStairs);
    assert_eq!(builder.get_starting_position(), Position { x: 0, y: 21 });
}

#[test]
fn selector_hands_out_the_wave_function_collapse_builder() {
    let mut builder = random_builder(6, example_image());
    assert!(matches!(builder, AnyBuilder::WaveFunctionCollapse(_)));
    assert_eq!(builder.get_map().depth, 6);
    assert_eq!(count(&builder.get_map(), W), 3440);
    assert!(builder.get_snapshot_history().is_empty());
    assert_eq!(builder.get_starting_position(), Position { x: 0, y: 0 });
    builder.take_snapshot();
    assert_eq!(builder.get_snapshot_history().len(), 1);
    builder.build_map();
    assert_eq!(count(&builder.get_map(), TileType::DownStairs), 1);
    let start = builder.get_starting_position();
    assert!(flood_visits_every_floor(&builder.get_map(), start));
}

#[test]
fn wave_function_collapse_is_deterministic() {
    let mut a = WaveFunctionCollapseBuilder::new(1, example_image());
    let mut b = WaveFunctionCollapseBuilder::new(1, example_image());
    let mut c = WaveFunctionCollapseBuilder::new(1, example_image());
    assert_eq!(a.build(&mut Dice::seeded(41)), b.build(&mut Dice::seeded(41)));
    c.build(&mut Dice::seeded(42));
    assert_eq!(a.get_map().tiles, b.get_map().tiles);
    assert_eq!(a.get_starting_position(), b.get_starting_position());
    assert_eq!(a.noise_seed(), b.noise_seed());
    assert_ne!(a.get_map().tiles, c.get_map().tiles);
}

#[test]
fn galleries_come_first_in_the_history() {
    let mut builder = WaveFunctionCollapseBuilder::new(1, example_image());
    builder.build(&mut Dice::seeded(3));
    let history = builder.get_snapshot_history();
    let patterns = build_patterns(&history[0], CHUNK_SIZE, true, true);
    let chunks = patterns_to_constraints(patterns.clone(), CHUNK_SIZE);
    assert!(patterns.len() >= 2);
    let pages = (patterns.len() + 44) / 45;
    let tiles_page = &history[1];
    assert_eq!(tiles_page.depth, 0);
    for (i, pattern) in patterns.iter().enumerate().take(45) {
        let left = 1 + 8 * (i % 9);
        let top = 1 + 8 * (i / 9);
        for py in 0..7 {
            for px in 0..7 {
                assert_eq!(tiles_page.tiles[(top + py) * 80 + left + px], pattern[py * 7 + px]);
            }
        }
    }
    let mut expected = TileMap::new(0);
    for (i, chunk) in chunks.iter().enumerate().take(45) {
        render_chunk_to_map(&mut expected, chunk, CHUNK_SIZE, 1 + 8 * (i % 9) as i32, 1 + 8 * (i / 9) as i32);
    }
    let last_full = if patterns.len() % 45 == 0 { 1 } else { 0 };
    let chunks_page = &history[1 + pages + last_full];
    assert_eq!(chunks_page.tiles, expected.tiles);
    assert!(chunks_page.revealed_tiles.iter().all(|r| *r));
}

#[test]
fn a_single_pattern_fills_one_page_of_each_gallery() {
    let mut builder = WaveFunctionCollapseBuilder::new(1, Vec::new());
    builder.build(&mut Dice::seeded(1));
    let history = builder.get_snapshot_history();
    assert_eq!(history.len(), 1 + 1 + 1 + 67 + 2);
    assert_eq!(history[1].depth, 0);
    assert_eq!(history[2].depth, 0);
    assert_eq!(history[3].depth, 1);
    assert!(history[1].visible_tiles[81] && history[2].visible_tiles[81]);
    assert!(!history[1].visible_tiles[0] && !history[1].visible_tiles[8 * 80 + 1]);
}
