use vstd::prelude::*;
use crate::map::{
    count_tiles, lemma_count_bound, lemma_count_update, lemma_idx_in_range, lemma_idx_to_coords,
    TileMap, TileMapView, TileType,
};
use crate::pathing::{
    connected, distance_field, field_exact, flood_distances, label_exact, lemma_walk_monotone,
    lemma_walk_take, point_of, reaches, walk_cost, walk_from_to, UNREACHED,
};
use crate::rect::Rect;
use std::collections::HashMap;

verus! {

/// Whether the tile `(x, y)` lies strictly inside `room`: between its two
/// corners, on neither of their columns and rows.
pub open spec fn in_room(room: Rect, x: int, y: int) -> bool {
    room.x1 < x < room.x2 && room.y1 < y < room.y2
}

/// The tiles of `m` after the interior of `room` has been turned to floor.
pub open spec fn room_carved(m: TileMapView, room: Rect) -> Seq<TileType> {
    Seq::new(
        m.tiles.len(),
        |i: int|
            if in_room(room, i % m.width, i / m.width) {
                TileType::Floor
            } else {
                m.tiles[i]
            },
    )
}

/// Whether the scan of the interior of `room`, row by row, has passed the
/// tile `(x, y)` when it stands at column `cx` of row `cy`.
pub open spec fn room_scanned(room: Rect, cx: int, cy: int, x: int, y: int) -> bool {
    in_room(room, x, y) && (y < cy || (y == cy && x < cx))
}

/// Turns every tile strictly inside `room` into floor, and leaves every
/// other tile as it is.
pub fn apply_room_to_map(map: &mut TileMap, room: &Rect)
    requires
        old(map).wf(),
        room.x1 + 1 < room.x2 && room.y1 + 1 < room.y2 ==> -1 <= room.x1 && room.x2 <= old(
            map,
        ).width && -1 <= room.y1 && room.y2 <= old(map).height,
    ensures
        final(map).wf(),
        final(map)@ == old(map)@.with_tiles(room_carved(old(map)@, *room)),
{
    if room.x2 <= room.x1 || room.y2 <= room.y1 || room.x2 <= room.x1 + 1 || room.y2 <= room.y1 + 1 {
        assert(map.tiles@ =~= room_carved(map@, *room));
        return ;
    }
    let ghost m0 = map@;
    let mut y: i32 = room.y1 + 1;
    while y < room.y2
        invariant
            m0.wf(),
            map.wf(),
            m0 == old(map)@,
            -1 <= room.x1 < room.x2 <= map.width,
            -1 <= room.y1 < room.y2 <= map.height,
            room.y1 < y <= room.y2,
            map@ == m0.with_tiles(map.tiles@),
            forall|i: int|
                0 <= i < map.tiles.len() ==> #[trigger] map.tiles[i] == if room_scanned(
                    *room,
                    room.x1 + 1,
                    y as int,
                    i % m0.width,
                    i / m0.width,
                ) {
                    TileType::Floor
                } else {
                    m0.tiles[i]
                },
        decreases room.y2 - y,
    {
        let mut x: i32 = room.x1 + 1;
        while x < room.x2
            invariant
                m0.wf(),
                map.wf(),
                -1 <= room.x1 < room.x2 <= map.width,
                -1 <= room.y1 < room.y2 <= map.height,
                room.y1 < y < room.y2,
                room.x1 < x <= room.x2,
                map@ == m0.with_tiles(map.tiles@),
                forall|i: int|
                    0 <= i < map.tiles.len() ==> #[trigger] map.tiles[i] == if room_scanned(
                        *room,
                        x as int,
                        y as int,
                        i % m0.width,
                        i / m0.width,
                    ) {
                        TileType::Floor
                    } else {
                        m0.tiles[i]
                    },
            decreases room.x2 - x,
        {
            let idx = map.xy_idx(x, y);
            let ghost before = map.tiles@;
            map.tiles[idx] = TileType::Floor;
            proof {
                lemma_idx_in_range(m0.width, m0.height, x as int, y as int);
                assert forall|i: int| 0 <= i < map.tiles.len() implies #[trigger] map.tiles[i]
                    == if room_scanned(*room, x + 1, y as int, i % m0.width, i / m0.width) {
                    TileType::Floor
                } else {
                    m0.tiles[i]
                } by {
                    lemma_idx_to_coords(m0.width, m0.height, i);
                    if i != idx {
                        assert(map.tiles[i] == before[i]);
                    }
                }
            }
            x += 1;
        }
        y += 1;
    }
    assert(map.tiles@ =~= room_carved(m0, *room));
}

/// The smaller of two numbers.
pub fn min_of(a: i32, b: i32) -> (r: i32)
    ensures
        r == if a <= b { a } else { b },
{
    if a <= b {
        a
    } else {
        b
    }
}

/// The larger of two numbers.
pub fn max_of(a: i32, b: i32) -> (r: i32)
    ensures
        r == if a >= b { a } else { b },
{
    if a >= b {
        a
    } else {
        b
    }
}

/// The smaller of two numbers.
pub open spec fn spec_min(a: int, b: int) -> int {
    if a <= b {
        a
    } else {
        b
    }
}

/// The larger of two numbers.
pub open spec fn spec_max(a: int, b: int) -> int {
    if a >= b {
        a
    } else {
        b
    }
}

/// The tiles of `m` after a tunnel along row `y` from column `x1` to column
/// `x2`: the index of each tunnel tile is computed as `y * width + x`, and
/// those that are indices of the map become floor.
pub open spec fn horizontal_tunnel_carved(m: TileMapView, x1: int, x2: int, y: int) -> Seq<
    TileType,
> {
    Seq::new(
        m.tiles.len(),
        |i: int|
            if spec_min(x1, x2) <= i - y * m.width <= spec_max(x1, x2) {
                TileType::Floor
            } else {
                m.tiles[i]
            },
    )
}

/// Carves a tunnel along row `y` between the columns `x1` and `x2`, both
/// included, skipping what falls outside the tile buffer.
pub fn apply_horizontal_tunnel(map: &mut TileMap, x1: i32, x2: i32, y: i32)
    requires
        old(map).wf(),
    ensures
        final(map).wf(),
        final(map)@ == old(map)@.with_tiles(
            horizontal_tunnel_carved(old(map)@, x1 as int, x2 as int, y as int),
        ),
{
    let ghost m0 = map@;
    let lo = min_of(x1, x2) as i64;
    let hi = max_of(x1, x2) as i64;
    let n = map.tiles.len() as i64;
    assert(i32::MIN * m0.width <= y * m0.width <= i32::MAX * m0.width) by (nonlinear_arith)
        requires
            i32::MIN <= y <= i32::MAX,
            0 < m0.width,
    ;
    assert(-0x8000_0000 * 0x8000_0000 <= i32::MIN * m0.width && i32::MAX * m0.width
        <= 0x8000_0000 * 0x8000_0000) by (nonlinear_arith)
        requires
            0 < m0.width <= 0x7fff_ffff,
    ;
    let base: i64 = (y as i64) * (map.width as i64);
    let mut x: i64 = lo;
    while x <= hi
        invariant
            m0.wf(),
            map.wf(),
            lo == spec_min(x1 as int, x2 as int),
            hi == spec_max(x1 as int, x2 as int),
            n == map.tiles.len(),
            base == y * m0.width,
            -0x4000_0000_0000_0000 <= base <= 0x4000_0000_0000_0000,
            i32::MIN <= lo,
            hi <= i32::MAX,
            lo <= x <= hi + 1,
            map@ == m0.with_tiles(map.tiles@),
            forall|i: int|
                0 <= i < map.tiles.len() ==> #[trigger] map.tiles[i] == if lo <= i - base < x {
                    TileType::Floor
                } else {
                    m0.tiles[i]
                },
        decreases hi + 1 - x,
    {
        let idx = base + x;
        if 0 <= idx && idx < n {
            map.tiles[idx as usize] = TileType::Floor;
        }
        x += 1;
    }
    assert(map.tiles@ =~= horizontal_tunnel_carved(m0, x1 as int, x2 as int, y as int));
}

/// The index computed for the tile in column `x` of row `y` of a grid that
/// is `w` tiles wide.
pub open spec fn column_index(w: int, x: int, y: int) -> int {
    y * w + x
}

/// The tiles of `m` after a tunnel along column `x` from row `y1` to row
/// `y2`: the index of each tunnel tile is computed as `y * width + x`, and
/// those that are indices of the map become floor.
pub open spec fn vertical_tunnel_carved(m: TileMapView, y1: int, y2: int, x: int) -> Seq<TileType> {
    Seq::new(
        m.tiles.len(),
        |i: int|
            if exists|y: int|
                spec_min(y1, y2) <= y <= spec_max(y1, y2) && #[trigger] column_index(m.width, x, y)
                    == i {
                TileType::Floor
            } else {
                m.tiles[i]
            },
    )
}

/// Carves a tunnel along column `x` between the rows `y1` and `y2`, both
/// included, skipping what falls outside the tile buffer.
pub fn apply_vertical_tunnel(map: &mut TileMap, y1: i32, y2: i32, x: i32)
    requires
        old(map).wf(),
    ensures
        final(map).wf(),
        final(map)@ == old(map)@.with_tiles(
            vertical_tunnel_carved(old(map)@, y1 as int, y2 as int, x as int),
        ),
{
    let ghost m0 = map@;
    let lo = min_of(y1, y2) as i64;
    let hi = max_of(y1, y2) as i64;
    let n = map.tiles.len() as i64;
    let w = map.width as i64;
    let mut y: i64 = lo;
    while y <= hi
        invariant
            m0.wf(),
            map.wf(),
            lo == spec_min(y1 as int, y2 as int),
            hi == spec_max(y1 as int, y2 as int),
            i32::MIN <= lo,
            hi <= i32::MAX,
            n == map.tiles.len(),
            w == m0.width,
            lo <= y <= hi + 1,
            map@ == m0.with_tiles(map.tiles@),
            forall|i: int|
                0 <= i < map.tiles.len() ==> #[trigger] map.tiles[i] == if exists|y0: int|
                    lo <= y0 < y && #[trigger] column_index(m0.width, x as int, y0) == i {
                    TileType::Floor
                } else {
                    m0.tiles[i]
                },
        decreases hi + 1 - y,
    {
        assert(i32::MIN * w <= y * w <= i32::MAX * w) by (nonlinear_arith)
            requires
                i32::MIN <= y <= i32::MAX,
                0 < w,
        ;
        assert(-0x8000_0000 * 0x8000_0000 <= i32::MIN * w && i32::MAX * w <= 0x8000_0000
            * 0x8000_0000) by (nonlinear_arith)
            requires
                0 < w <= 0x7fff_ffff,
        ;
        let idx = y * w + (x as i64);
        let ghost before = map.tiles@;
        if 0 <= idx && idx < n {
            map.tiles[idx as usize] = TileType::Floor;
        }
        proof {
            assert(column_index(m0.width, x as int, y as int) == idx);
            assert forall|i: int| 0 <= i < map.tiles.len() implies #[trigger] map.tiles[i]
                == if exists|y0: int|
                lo <= y0 < y + 1 && #[trigger] column_index(m0.width, x as int, y0) == i {
                TileType::Floor
            } else {
                m0.tiles[i]
            } by {
                if i == idx {
                } else {
                    assert(map.tiles[i] == before[i]);
                    if exists|y0: int|
                        lo <= y0 < y + 1 && #[trigger] column_index(m0.width, x as int, y0) == i {
                        let y0 = choose|y0: int|
                            lo <= y0 < y + 1 && #[trigger] column_index(m0.width, x as int, y0)
                                == i;
                        assert(y0 != y);
                        assert(lo <= y0 < y && column_index(m0.width, x as int, y0) == i);
                    }
                }
            }
        }
        y += 1;
    }
    assert(map.tiles@ =~= vertical_tunnel_carved(m0, y1 as int, y2 as int, x as int));
}

/// Whether the tile at index `i` qualifies as the exit: a floor tile that a
/// walk below the cap arrives at.
pub open spec fn exit_candidate(tiles: Seq<TileType>, d: Seq<u32>, i: int) -> bool {
    0 <= i < tiles.len() && tiles[i] == TileType::Floor && d[i] != UNREACHED
}

/// `e` is the index of the floor tile that is farthest from the start by
/// the labels `d`, the lowest such index where several are equally far. It
/// is the index of the start, `start_idx`, where no floor tile has a label.
pub open spec fn is_farthest_floor(
    tiles: Seq<TileType>,
    d: Seq<u32>,
    start_idx: int,
    e: int,
) -> bool {
    if exists|i: int| exit_candidate(tiles, d, i) {
        &&& exit_candidate(tiles, d, e)
        &&& forall|i: int| #[trigger]
            exit_candidate(tiles, d, i) ==> d[i] <= d[e] && (d[i] == d[e] ==> e <= i)
    } else {
        e == start_idx
    }
}

/// The tiles after every floor tile without a label has become a wall.
pub open spec fn culled_tiles(tiles: Seq<TileType>, d: Seq<u32>) -> Seq<TileType> {
    Seq::new(
        tiles.len(),
        |i: int|
            if tiles[i] == TileType::Floor && d[i] == UNREACHED {
                TileType::Wall
            } else {
                tiles[i]
            },
    )
}

/// The map after culling from `start`: its wall tiles are marked as
/// blocked, and its floor tiles out of reach of `start` have become walls.
pub open spec fn culled(m: TileMapView, start: (int, int)) -> TileMapView {
    let g = m.with_walls_blocked();
    g.with_tiles(culled_tiles(g.tiles, distance_field(g, start)))
}

/// The distance field of the map, with its walls blocked, is exact.
pub open spec fn has_distance_field(m: TileMapView, start: (int, int)) -> bool {
    let g = m.with_walls_blocked();
    field_exact(g, start, distance_field(g, start))
}

/// The tile that culling from `start` names as the exit.
pub open spec fn is_cull_exit(m: TileMapView, start: (int, int), e: int) -> bool {
    let g = m.with_walls_blocked();
    is_farthest_floor(g.tiles, distance_field(g, start), g.idx(start.0, start.1), e)
}

/// In an exact field the start has the label zero.
pub proof fn lemma_start_label(g: TileMapView, start: (int, int), d: Seq<u32>)
    requires
        g.wf(),
        field_exact(g, start, d),
        g.in_bounds(start.0, start.1),
    ensures
        d[g.idx(start.0, start.1)] == 0,
{
    crate::pathing::lemma_walk_none(g, start);
    assert(label_exact(g, start, d[g.idx(start.0, start.1)], start.0, start.1));
}

/// In an exact field every tile but the start has a label of at least the
/// cost of one step.
pub proof fn lemma_label_away(g: TileMapView, start: (int, int), d: Seq<u32>, x: int, y: int)
    requires
        g.wf(),
        field_exact(g, start, d),
        g.in_bounds(x, y),
        (x, y) != start,
    ensures
        d[g.idx(x, y)] >= 100,
{
    let l = d[g.idx(x, y)];
    assert(label_exact(g, start, l, x, y));
    if l != UNREACHED {
        let p = choose|p: Seq<(int, int)>| #[trigger] walk_from_to(g, p, start, (x, y), l as int);
        crate::pathing::lemma_walk_away(g, p);
    }
}

/// A floor tile that keeps its label is, after culling, still joined to the
/// start by a walk over tiles that are not walls.
pub proof fn lemma_cull_connected(g: TileMapView, start: (int, int), d: Seq<u32>, x: int, y: int)
    requires
        g.wf(),
        g == g.with_walls_blocked(),
        field_exact(g, start, d),
        g.in_bounds(x, y),
        d[g.idx(x, y)] != UNREACHED,
    ensures
        connected(g.with_tiles(culled_tiles(g.tiles, d)), start, (x, y)),
{
    let c = d[g.idx(x, y)] as int;
    assert(label_exact(g, start, d[g.idx(x, y)], x, y));
    let p = choose|p: Seq<(int, int)>| #[trigger] walk_from_to(g, p, start, (x, y), c);
    let f = g.with_tiles(culled_tiles(g.tiles, d)).with_walls_blocked();
    assert forall|k: int| 1 <= k < p.len() implies !#[trigger] f.blocked[f.idx(p[k].0, p[k].1)] by {
        let q = p.take(k + 1);
        lemma_walk_take(g, p, k + 1);
        crate::pathing::lemma_walk_ends_valid(g, q);
        let b = p[k];
        assert(q.last() == b);
        lemma_idx_in_range(g.width, g.height, b.0, b.1);
        assert(walk_from_to(g, q, start, b, walk_cost(q)));
        assert(reaches(g, start, b, walk_cost(q)));
        assert(label_exact(g, start, d[g.idx(b.0, b.1)], b.0, b.1));
        assert(d[g.idx(b.0, b.1)] != UNREACHED);
        assert(!g.blocked[g.idx(b.0, b.1)]);
        assert(g.tiles[g.idx(b.0, b.1)] != TileType::Wall);
    }
    lemma_walk_monotone(g, f, p);
    assert(walk_from_to(f, p, start, (x, y), c));
    assert(reaches(f, start, (x, y), c));
}

/// Unblocking a tile keeps what is connected connected.
pub proof fn lemma_connected_after_opening(
    m: TileMapView,
    i: int,
    t: TileType,
    start: (int, int),
    goal: (int, int),
)
    requires
        m.wf(),
        0 <= i < m.tiles.len(),
        t != TileType::Wall,
        connected(m, start, goal),
    ensures
        connected(m.with_tile(i, t), start, goal),
{
    let g = m.with_walls_blocked();
    let f = m.with_tile(i, t).with_walls_blocked();
    let c = choose|c: int| #[trigger] reaches(g, start, goal, c);
    let p = choose|p: Seq<(int, int)>| #[trigger] walk_from_to(g, p, start, goal, c);
    assert forall|k: int| 1 <= k < p.len() implies !#[trigger] f.blocked[f.idx(p[k].0, p[k].1)] by {
        let q = p.take(k + 1);
        lemma_walk_take(g, p, k + 1);
        crate::pathing::lemma_walk_ends_valid(g, q);
        assert(q.last() == p[k]);
        lemma_idx_in_range(g.width, g.height, p[k].0, p[k].1);
    }
    lemma_walk_monotone(g, f, p);
    assert(walk_from_to(f, p, start, goal, c));
    assert(reaches(f, start, goal, c));
}

/// Marks the wall tiles as blocked, turns every floor tile that no walk
/// below the distance cap joins to the tile at `start_idx` into a wall, and
/// returns the index of the floor tile that is farthest from it, the lowest
/// index where several are equally far. The tile at `start_idx` lies at
/// distance zero: where it is floor it stays floor, and it is the result
/// where no other floor tile is in reach. Where no floor tile is in reach at
/// all, the result is `start_idx`.
pub fn cull_unreachables_and_return_most_distant_tile(map: &mut TileMap, start_idx: usize) -> (exit:
    usize)
    requires
        old(map).wf(),
        start_idx < old(map).tiles.len(),
    ensures
        final(map).wf(),
        final(map)@ == culled(old(map)@, point_of(old(map)@, start_idx as int)),
        is_cull_exit(old(map)@, point_of(old(map)@, start_idx as int), exit as int),
        has_distance_field(old(map)@, point_of(old(map)@, start_idx as int)),
        exit < final(map).tiles.len(),
        forall|x: int, y: int|
            final(map)@.in_bounds(x, y) && #[trigger] final(map)@.at(x, y) == TileType::Floor
                ==> connected(final(map)@, point_of(old(map)@, start_idx as int), (x, y)),
{
    map.populate_blocked();
    let dist = flood_distances(map, start_idx);
    let ghost g = map@;
    let ghost start = point_of(g, start_idx as int);
    let ghost d = dist@;
    let n = map.tiles.len();
    let mut exit: usize = start_idx;
    let mut best: u32 = 0;
    let mut found = false;
    let mut i: usize = 0;
    proof {
        lemma_idx_to_coords(g.width, g.height, start_idx as int);
    }
    while i < n
        invariant
            g.wf(),
            map.wf(),
            i <= n,
            n == g.tiles.len(),
            d == dist@,
            d.len() == n,
            map@ == g.with_tiles(map.tiles@),
            forall|k: int| 0 <= k < i ==> #[trigger] map.tiles[k] == culled_tiles(g.tiles, d)[k],
            forall|k: int| i <= k < n ==> #[trigger] map.tiles[k] == g.tiles[k],
            exit < n,
            !found ==> exit == start_idx && forall|k: int|
                0 <= k < i ==> !#[trigger] exit_candidate(g.tiles, d, k),
            found ==> exit < i && exit_candidate(g.tiles, d, exit as int) && d[exit as int]
                == best && forall|k: int|
                0 <= k < i && #[trigger] exit_candidate(g.tiles, d, k) ==> d[k] <= best && (d[k]
                    == best ==> exit <= k),
        decreases n - i,
    {
        if map.tiles[i] == TileType::Floor {
            let distance_to_start = dist[i];
            if distance_to_start == UNREACHED {
                map.tiles[i] = TileType::Wall;
            } else if !found || distance_to_start > best {
                exit = i;
                best = distance_to_start;
                found = true;
            }
        }
        i += 1;
    }
    proof {
        assert(map.tiles@ =~= culled_tiles(g.tiles, d));
        assert(g.with_walls_blocked() == g);
        assert(g == old(map)@.with_walls_blocked());
        assert(g.idx(start.0, start.1) == start_idx);
        if !found {
            assert(!exists|k: int| exit_candidate(g.tiles, d, k));
        } else {
            assert(exit_candidate(g.tiles, d, exit as int));
        }
        assert forall|x: int, y: int|
            map@.in_bounds(x, y) && #[trigger] map@.at(x, y) == TileType::Floor implies connected(
            map@,
            start,
            (x, y),
        ) by {
            lemma_idx_in_range(g.width, g.height, x, y);
            lemma_cull_connected(g, start, d, x, y);
        }
    }
    exit
}

/// How a brush stroke is mirrored about the centre of the map.
#[derive(PartialEq, Eq, Structural, Copy, Clone, Debug)]
pub enum Symmetry {
    Unmirrored,
    Horizontal,
    Vertical,
    Both,
}

/// Half of `n`, rounded toward zero.
pub open spec fn half(n: int) -> int {
    if n >= 0 {
        n / 2
    } else {
        -((-n) / 2)
    }
}

/// The distance between two numbers.
pub open spec fn gap(a: int, b: int) -> int {
    if a >= b {
        a - b
    } else {
        b - a
    }
}

/// The first column (or row) that a brush of the given size covers when it
/// is put down at `c`.
pub open spec fn brush_lo(size: int, c: int) -> int {
    if size == 1 {
        c
    } else {
        c - half(size)
    }
}

/// The column (or row) just past the last that a brush of the given size
/// covers when it is put down at `c`.
pub open spec fn brush_hi(size: int, c: int) -> int {
    if size == 1 {
        c + 1
    } else {
        c + half(size)
    }
}

/// Whether a brush of the given size, put down at `(cx, cy)`, covers the
/// tile `(x, y)`. A brush of size one covers the tile it is put on; a larger
/// one covers a square of twice half its size, from half its size before the
/// tile it is put on.
pub open spec fn brush_covers(size: int, cx: int, cy: int, x: int, y: int) -> bool {
    brush_lo(size, cx) <= x < brush_hi(size, cx) && brush_lo(size, cy) <= y < brush_hi(size, cy)
}

/// Whether the tile `(x, y)` may be painted: it lies at least two tiles
/// from the left and upper edge and at least one from the right and lower.
pub open spec fn paintable(m: TileMapView, x: int, y: int) -> bool {
    1 < x < m.width - 1 && 1 < y < m.height - 1
}

/// The tiles on which the brush is put down for a stroke at `(x, y)`: the
/// tile itself without symmetry or on the mirror axis, and otherwise its
/// two images at equal distance on either side of each mirror axis.
pub open spec fn brush_centers(sym: Symmetry, m: TileMapView, x: int, y: int) -> Seq<(int, int)> {
    let cx = m.width / 2;
    let cy = m.height / 2;
    let dx = gap(cx, x);
    let dy = gap(cy, y);
    match sym {
        Symmetry::Unmirrored => seq![(x, y)],
        Symmetry::Horizontal => if x == cx {
            seq![(x, y)]
        } else {
            seq![(cx + dx, y), (cx - dx, y)]
        },
        Symmetry::Vertical => if y == cy {
            seq![(x, y)]
        } else {
            seq![(x, cy + dy), (x, cy - dy)]
        },
        Symmetry::Both => if x == cx && y == cy {
            seq![(x, y)]
        } else {
            seq![(cx + dx, y), (cx - dx, y), (x, cy + dy), (x, cy - dy)]
        },
    }
}

/// Whether a brush put down on one of the first `k` of `centers` covers the
/// paintable tile `(x, y)`.
pub open spec fn stroke_covers(
    m: TileMapView,
    size: int,
    centers: Seq<(int, int)>,
    k: int,
    x: int,
    y: int,
) -> bool {
    paintable(m, x, y) && exists|j: int|
        0 <= j < k && j < centers.len() && #[trigger] brush_covers(
            size,
            centers[j].0,
            centers[j].1,
            x,
            y,
        )
}

/// The tiles after the walls under the first `k` brushes have become floor.
pub open spec fn stroke_painted(
    m: TileMapView,
    size: int,
    centers: Seq<(int, int)>,
    k: int,
) -> Seq<TileType> {
    Seq::new(
        m.tiles.len(),
        |i: int|
            if m.tiles[i] == TileType::Wall && stroke_covers(
                m,
                size,
                centers,
                k,
                i % m.width,
                i / m.width,
            ) {
                TileType::Floor
            } else {
                m.tiles[i]
            },
    )
}

/// The tiles after a stroke at `(x, y)`: every wall tile that may be painted
/// and that one of the brushes of the stroke covers has become floor.
pub open spec fn painted(m: TileMapView, sym: Symmetry, size: int, x: int, y: int) -> Seq<TileType> {
    let centers = brush_centers(sym, m, x, y);
    stroke_painted(m, size, centers, centers.len() as int)
}

/// Whether the scan of a brush, row by row, has passed the tile `(x, y)`
/// when it stands at column `sx` of row `sy`.
pub open spec fn brush_scanned(
    m: TileMapView,
    size: int,
    cx: int,
    cy: int,
    sx: int,
    sy: int,
    x: int,
    y: int,
) -> bool {
    paintable(m, x, y) && brush_covers(size, cx, cy, x, y) && (y < sy || (y == sy && x < sx))
}

/// Puts one brush of the given size down at `(cx, cy)`: the wall tiles under
/// it that may be painted become floor. Returns how many did.
fn apply_paint(map: &mut TileMap, brush_size: i32, cx: i64, cy: i64) -> (count: usize)
    requires
        old(map).wf(),
        -0x1_0000_0000 <= cx <= 0x1_0000_0000,
        -0x1_0000_0000 <= cy <= 0x1_0000_0000,
    ensures
        final(map).wf(),
        final(map)@ == old(map)@.with_tiles(final(map).tiles@),
        forall|i: int|
            0 <= i < old(map).tiles.len() ==> #[trigger] final(map).tiles[i] == if old(map).tiles[i]
                == TileType::Wall && paintable(old(map)@, i % old(map)@.width, i / old(map)@.width)
                && brush_covers(
                brush_size as int,
                cx as int,
                cy as int,
                i % old(map)@.width,
                i / old(map)@.width,
            ) {
                TileType::Floor
            } else {
                old(map).tiles[i]
            },
        count + count_tiles(old(map).tiles@, TileType::Floor) == count_tiles(
            final(map).tiles@,
            TileType::Floor,
        ),
{
    let ghost m0 = map@;
    let ghost size = brush_size as int;
    let half_brush: i64 = (brush_size / 2) as i64;
    let (lo_x, hi_x, lo_y, hi_y): (i64, i64, i64, i64) = if brush_size == 1 {
        (cx, cx + 1, cy, cy + 1)
    } else {
        (cx - half_brush, cx + half_brush, cy - half_brush, cy + half_brush)
    };
    assert(lo_x == brush_lo(size, cx as int) && hi_x == brush_hi(size, cx as int));
    assert(lo_y == brush_lo(size, cy as int) && hi_y == brush_hi(size, cy as int));
    let w = map.width as i64;
    let h = map.height as i64;
    let from_x: i64 = if lo_x < 2 { 2 } else { lo_x };
    let to_x: i64 = if hi_x > w - 1 { w - 1 } else { hi_x };
    let from_y: i64 = if lo_y < 2 { 2 } else { lo_y };
    let to_y: i64 = if hi_y > h - 1 { h - 1 } else { hi_y };
    let mut count: usize = 0;
    if from_x >= to_x || from_y >= to_y {
        return 0;
    }
    let mut y: i64 = from_y;
    while y < to_y
        invariant
            m0.wf(),
            map.wf(),
            m0 == old(map)@,
            size == brush_size as int,
            w == m0.width,
            h == m0.height,
            lo_x == brush_lo(size, cx as int),
            hi_x == brush_hi(size, cx as int),
            lo_y == brush_lo(size, cy as int),
            hi_y == brush_hi(size, cy as int),
            from_x == (if lo_x < 2 { 2 } else { lo_x as int }),
            to_x == (if hi_x > w - 1 { w - 1 } else { hi_x as int }),
            from_y == (if lo_y < 2 { 2 } else { lo_y as int }),
            to_y == (if hi_y > h - 1 { h - 1 } else { hi_y as int }),
            from_x < to_x,
            from_y <= y <= to_y,
            map@ == m0.with_tiles(map.tiles@),
            forall|i: int|
                0 <= i < m0.tiles.len() ==> #[trigger] map.tiles[i] == if m0.tiles[i]
                    == TileType::Wall && brush_scanned(
                    m0,
                    size,
                    cx as int,
                    cy as int,
                    from_x as int,
                    y as int,
                    i % m0.width,
                    i / m0.width,
                ) {
                    TileType::Floor
                } else {
                    m0.tiles[i]
                },
            count + count_tiles(m0.tiles, TileType::Floor) == count_tiles(
                map.tiles@,
                TileType::Floor,
            ),
        decreases to_y - y,
    {
        let mut x: i64 = from_x;
        while x < to_x
            invariant
                m0.wf(),
                map.wf(),
                size == brush_size as int,
                w == m0.width,
                h == m0.height,
                lo_x == brush_lo(size, cx as int),
                hi_x == brush_hi(size, cx as int),
                lo_y == brush_lo(size, cy as int),
                hi_y == brush_hi(size, cy as int),
                from_x == (if lo_x < 2 { 2 } else { lo_x as int }),
                to_x == (if hi_x > w - 1 { w - 1 } else { hi_x as int }),
                from_y == (if lo_y < 2 { 2 } else { lo_y as int }),
                to_y == (if hi_y > h - 1 { h - 1 } else { hi_y as int }),
                from_x <= x <= to_x,
                from_y <= y < to_y,
                map@ == m0.with_tiles(map.tiles@),
                forall|i: int|
                    0 <= i < m0.tiles.len() ==> #[trigger] map.tiles[i] == if m0.tiles[i]
                        == TileType::Wall && brush_scanned(
                        m0,
                        size,
                        cx as int,
                        cy as int,
                        x as int,
                        y as int,
                        i % m0.width,
                        i / m0.width,
                    ) {
                        TileType::Floor
                    } else {
                        m0.tiles[i]
                    },
                count + count_tiles(m0.tiles, TileType::Floor) == count_tiles(
                    map.tiles@,
                    TileType::Floor,
                ),
            decreases to_x - x,
        {
            let idx = map.xy_idx(x as i32, y as i32);
            let ghost before = map.tiles@;
            proof {
                lemma_idx_in_range(m0.width, m0.height, x as int, y as int);
                lemma_count_bound(before, TileType::Floor);
            }
            if map.tiles[idx] == TileType::Wall {
                map.tiles[idx] = TileType::Floor;
                count += 1;
                proof {
                    lemma_count_update(before, idx as int, TileType::Floor, TileType::Floor);
                }
            }
            proof {
                assert forall|i: int| 0 <= i < m0.tiles.len() implies #[trigger] map.tiles[i]
                    == if m0.tiles[i] == TileType::Wall && brush_scanned(
                    m0,
                    size,
                    cx as int,
                    cy as int,
                    x + 1,
                    y as int,
                    i % m0.width,
                    i / m0.width,
                ) {
                    TileType::Floor
                } else {
                    m0.tiles[i]
                } by {
                    lemma_idx_to_coords(m0.width, m0.height, i);
                    if i != idx {
                        assert(map.tiles[i] == before[i]);
                    }
                }
            }
            x += 1;
        }
        y += 1;
    }
    proof {
        assert forall|i: int| 0 <= i < m0.tiles.len() implies #[trigger] map.tiles[i] == if m0.tiles[i]
            == TileType::Wall && paintable(m0, i % m0.width, i / m0.width) && brush_covers(
            size,
            cx as int,
            cy as int,
            i % m0.width,
            i / m0.width,
        ) {
            TileType::Floor
        } else {
            m0.tiles[i]
        } by {
            lemma_idx_to_coords(m0.width, m0.height, i);
        }
    }
    count
}

/// The distance between two numbers.
fn gap_of(a: i64, b: i64) -> (r: i64)
    requires
        -0x8000_0000 <= a <= 0x8000_0000,
        -0x8000_0000 <= b <= 0x8000_0000,
    ensures
        r == gap(a as int, b as int),
{
    if a >= b {
        a - b
    } else {
        b - a
    }
}

/// The tiles on which the brush is put down for a stroke at `(x, y)`.
fn stroke_centers(map: &TileMap, mode: Symmetry, x: i32, y: i32) -> (centers: Vec<(i64, i64)>)
    requires
        map.wf(),
    ensures
        centers.len() == brush_centers(mode, map@, x as int, y as int).len(),
        forall|k: int|
            0 <= k < centers.len() ==> (#[trigger] centers[k].0 as int, centers[k].1 as int)
                == brush_centers(mode, map@, x as int, y as int)[k],
        forall|k: int|
            0 <= k < centers.len() ==> -0x1_0000_0000 <= (#[trigger] centers[k]).0 <= 0x1_0000_0000
                && -0x1_0000_0000 <= centers[k].1 <= 0x1_0000_0000,
{
    let center_x = (map.width / 2) as i64;
    let center_y = (map.height / 2) as i64;
    let dist_x = gap_of(center_x, x as i64);
    let dist_y = gap_of(center_y, y as i64);
    let px = x as i64;
    let py = y as i64;
    let mut centers: Vec<(i64, i64)> = Vec::new();
    match mode {
        Symmetry::Unmirrored => {
            centers.push((px, py));
        },
        Symmetry::Horizontal => {
            if px == center_x {
                centers.push((px, py));
            } else {
                centers.push((center_x + dist_x, py));
                centers.push((center_x - dist_x, py));
            }
        },
        Symmetry::Vertical => {
            if py == center_y {
                centers.push((px, py));
            } else {
                centers.push((px, center_y + dist_y));
                centers.push((px, center_y - dist_y));
            }
        },
        Symmetry::Both => {
            if px == center_x && py == center_y {
                centers.push((px, py));
            } else {
                centers.push((center_x + dist_x, py));
                centers.push((center_x - dist_x, py));
                centers.push((px, center_y + dist_y));
                centers.push((px, center_y - dist_y));
            }
        },
    }
    centers
}

/// Paints a stroke at `(x, y)`: puts the brush down on the tile, or on its
/// mirror images, and turns the wall tiles under it that may be painted
/// into floor. Returns how many tiles became floor.
pub fn paint(map: &mut TileMap, mode: Symmetry, brush_size: i32, x: i32, y: i32) -> (count: usize)
    requires
        old(map).wf(),
    ensures
        final(map).wf(),
        final(map)@ == old(map)@.with_tiles(
            painted(old(map)@, mode, brush_size as int, x as int, y as int),
        ),
        count + count_tiles(old(map).tiles@, TileType::Floor) == count_tiles(
            final(map).tiles@,
            TileType::Floor,
        ),
{
    let ghost m0 = map@;
    let ghost size = brush_size as int;
    let ghost spots = brush_centers(mode, m0, x as int, y as int);
    let centers = stroke_centers(map, mode, x, y);
    let mut count: usize = 0;
    let mut k: usize = 0;
    assert(map.tiles@ =~= stroke_painted(m0, size, spots, 0));
    while k < centers.len()
        invariant
            m0.wf(),
            map.wf(),
            k <= centers.len(),
            size == brush_size as int,
            centers.len() == spots.len(),
            forall|j: int|
                0 <= j < centers.len() ==> (#[trigger] centers[j].0 as int, centers[j].1 as int)
                    == spots[j],
            forall|j: int|
                0 <= j < centers.len() ==> -0x1_0000_0000 <= (#[trigger] centers[j]).0
                    <= 0x1_0000_0000 && -0x1_0000_0000 <= centers[j].1 <= 0x1_0000_0000,
            map@ == m0.with_tiles(map.tiles@),
            map.tiles@ == stroke_painted(m0, size, spots, k as int),
            count + count_tiles(m0.tiles, TileType::Floor) == count_tiles(
                map.tiles@,
                TileType::Floor,
            ),
        decreases centers.len() - k,
    {
        let ghost before = map.tiles@;
        let (cx, cy) = centers[k];
        proof {
            lemma_count_bound(before, TileType::Floor);
        }
        let painted_now = apply_paint(map, brush_size, cx, cy);
        proof {
            lemma_count_bound(map.tiles@, TileType::Floor);
            assert((cx as int, cy as int) == spots[k as int]);
            assert forall|i: int| 0 <= i < m0.tiles.len() implies #[trigger] map.tiles[i]
                == stroke_painted(m0, size, spots, k + 1)[i] by {
                let tx = i % m0.width;
                let ty = i / m0.width;
                let covered_now = paintable(m0, tx, ty) && brush_covers(
                    size,
                    cx as int,
                    cy as int,
                    tx,
                    ty,
                );
                assert(before[i] == stroke_painted(m0, size, spots, k as int)[i]);
                assert(map.tiles[i] == if before[i] == TileType::Wall && covered_now {
                    TileType::Floor
                } else {
                    before[i]
                });
                if stroke_covers(m0, size, spots, k as int, tx, ty) {
                    let j = choose|j: int|
                        0 <= j < k && j < spots.len() && #[trigger] brush_covers(
                            size,
                            spots[j].0,
                            spots[j].1,
                            tx,
                            ty,
                        );
                    assert(0 <= j < k + 1 && brush_covers(size, spots[j].0, spots[j].1, tx, ty));
                }
                if paintable(m0, tx, ty) && brush_covers(size, cx as int, cy as int, tx, ty) {
                    assert(brush_covers(size, spots[k as int].0, spots[k as int].1, tx, ty));
                    assert(stroke_covers(m0, size, spots, k + 1, tx, ty));
                }
                if stroke_covers(m0, size, spots, k + 1, tx, ty) {
                    let j = choose|j: int|
                        0 <= j < k + 1 && j < spots.len() && #[trigger] brush_covers(
                            size,
                            spots[j].0,
                            spots[j].1,
                            tx,
                            ty,
                        );
                    if j < k {
                        assert(stroke_covers(m0, size, spots, k as int, tx, ty));
                    }
                }
            }
            assert(map.tiles@ =~= stroke_painted(m0, size, spots, k + 1));
        }
        count += painted_now;
        k += 1;
    }
    count
}

/// Whether the tile at index `i` is a place where something may spawn: a
/// floor tile.
pub open spec fn spawn_tile(m: TileMapView, i: int) -> bool {
    0 <= i < m.tiles.len() && m.tiles[i] == TileType::Floor
}

/// The indices below `upto`, in ascending order, of the spawn tiles whose
/// noise cell is `key`.
pub open spec fn region_tiles(m: TileMapView, cells: Seq<i32>, key: i32, upto: int) -> Seq<usize>
    decreases upto,
{
    if upto <= 0 {
        Seq::empty()
    } else {
        let rest = region_tiles(m, cells, key, upto - 1);
        if spawn_tile(m, upto - 1) && cells[upto - 1] == key {
            rest.push((upto - 1) as usize)
        } else {
            rest
        }
    }
}

/// The list of a noise cell holds exactly the floor tiles of that cell, in
/// strictly ascending order.
pub proof fn lemma_region_tiles(m: TileMapView, cells: Seq<i32>, key: i32, upto: int)
    requires
        0 <= upto <= m.tiles.len(),
        upto <= usize::MAX,
    ensures
        forall|i: int|
            0 <= i < upto && spawn_tile(m, i) && cells[i] == key ==> region_tiles(
                m,
                cells,
                key,
                upto,
            ).contains(i as usize),
        forall|k: int|
            0 <= k < region_tiles(m, cells, key, upto).len() ==> {
                let i = #[trigger] region_tiles(m, cells, key, upto)[k];
                i < upto && spawn_tile(m, i as int) && cells[i as int] == key
            },
        forall|j: int, k: int|
            0 <= j < k < region_tiles(m, cells, key, upto).len() ==> region_tiles(
                m,
                cells,
                key,
                upto,
            )[j] < region_tiles(m, cells, key, upto)[k],
    decreases upto,
{
    if upto > 0 {
        lemma_region_tiles(m, cells, key, upto - 1);
        let rest = region_tiles(m, cells, key, upto - 1);
        let all = region_tiles(m, cells, key, upto);
        assert forall|i: int|
            0 <= i < upto && spawn_tile(m, i) && cells[i] == key implies all.contains(
            i as usize,
        ) by {
            if i < upto - 1 {
                assert(rest.contains(i as usize));
                let k = choose|k: int| 0 <= k < rest.len() && rest[k] == i as usize;
                assert(all[k] == i as usize);
            } else {
                assert(all[all.len() - 1] == i as usize);
            }
        }
        assert forall|k: int| 0 <= k < all.len() implies {
            let i = #[trigger] all[k];
            i < upto && spawn_tile(m, i as int) && cells[i as int] == key
        } by {
            if k < rest.len() {
                assert(all[k] == rest[k]);
            }
        }
        assert forall|j: int, k: int| 0 <= j < k < all.len() implies all[j] < all[k] by {
            assert(all[j] == rest[j]);
            if k < rest.len() {
                assert(all[k] == rest[k]);
            }
        }
    }
}

/// Groups the floor tiles of the map by the noise cell that each lies in:
/// `cell_values` holds, for every tile, the number of its cell. Each cell
/// that holds a floor tile is mapped to the indices of its floor tiles in
/// ascending order; no other cell is mapped. The map is not changed.
pub fn generate_voronoi_spawn_regions(map: &TileMap, cell_values: &Vec<i32>) -> (noise_areas:
    HashMap<i32, Vec<usize>>)
    requires
        map.wf(),
        cell_values.len() == map.tiles.len(),
    ensures
        forall|key: i32| #[trigger]
            noise_areas@.contains_key(key) <==> region_tiles(
                map@,
                cell_values@,
                key,
                map.tiles.len() as int,
            ).len() > 0,
        forall|key: i32| #[trigger]
            noise_areas@.contains_key(key) ==> noise_areas@[key]@ == region_tiles(
                map@,
                cell_values@,
                key,
                map.tiles.len() as int,
            ),
{
    broadcast use vstd::std_specs::hash::group_hash_axioms;

    let mut noise_areas: HashMap<i32, Vec<usize>> = HashMap::new();
    let n = map.tiles.len();
    let mut i: usize = 0;
    while i < n
        invariant
            map.wf(),
            i <= n,
            n == map.tiles.len(),
            n == cell_values.len(),
            forall|key: i32| #[trigger]
                noise_areas@.contains_key(key) <==> region_tiles(
                    map@,
                    cell_values@,
                    key,
                    i as int,
                ).len() > 0,
            forall|key: i32| #[trigger]
                noise_areas@.contains_key(key) ==> noise_areas@[key]@ == region_tiles(
                    map@,
                    cell_values@,
                    key,
                    i as int,
                ),
        decreases n - i,
    {
        if map.tiles[i] == TileType::Floor {
            let cell_value = cell_values[i];
            let ghost before = noise_areas@;
            let mut area: Vec<usize> = match noise_areas.remove(&cell_value) {
                Some(v) => v,
                None => Vec::new(),
            };
            area.push(i);
            noise_areas.insert(cell_value, area);
            proof {
                assert(spawn_tile(map@, i as int));
                assert forall|key: i32| #[trigger]
                    noise_areas@.contains_key(key) <==> region_tiles(
                        map@,
                        cell_values@,
                        key,
                        i + 1,
                    ).len() > 0 by {
                    assert(before.contains_key(key) <==> region_tiles(
                        map@,
                        cell_values@,
                        key,
                        i as int,
                    ).len() > 0);
                }
                assert forall|key: i32| #[trigger] noise_areas@.contains_key(key) implies noise_areas@[key]@
                    == region_tiles(map@, cell_values@, key, i + 1) by {
                    if key != cell_value {
                        assert(before.contains_key(key));
                    } else if before.contains_key(key) {
                    } else {
                        assert(region_tiles(map@, cell_values@, key, i as int).len() == 0);
                        assert(region_tiles(map@, cell_values@, key, i as int) =~= Seq::<
                            usize,
                        >::empty());
                    }
                }
            }
        } else {
            assert(!spawn_tile(map@, i as int));
        }
        i += 1;
    }
    noise_areas
}

/// The same map with every tile revealed.
pub open spec fn revealed(m: TileMapView) -> TileMapView {
    TileMapView { revealed_tiles: Seq::new(m.revealed_tiles.len(), |i: int| true), ..m }
}

/// A copy of the map in which every tile is revealed.
pub fn revealed_snapshot(map: &TileMap) -> (snapshot: TileMap)
    requires
        map.wf(),
    ensures
        snapshot.wf(),
        snapshot@ == revealed(map@),
{
    let mut snapshot = map.clone();
    let n = snapshot.revealed_tiles.len();
    let mut i: usize = 0;
    while i < n
        invariant
            i <= n,
            n == snapshot.revealed_tiles.len(),
            n == map.revealed_tiles.len(),
            snapshot@ == (TileMapView { revealed_tiles: snapshot.revealed_tiles@, ..map@ }),
            forall|k: int| 0 <= k < i ==> snapshot.revealed_tiles[k],
        decreases n - i,
    {
        snapshot.revealed_tiles[i] = true;
        i += 1;
    }
    assert(snapshot.revealed_tiles@ =~= Seq::new(map.revealed_tiles@.len(), |i: int| true));
    snapshot
}

/// Every tile is a wall or a floor.
pub open spec fn only_walls_and_floors(tiles: Seq<TileType>) -> bool {
    forall|i: int|
        0 <= i < tiles.len() ==> #[trigger] tiles[i] == TileType::Wall || tiles[i]
            == TileType::Floor
}

/// The level `m` is what finishing makes of the carved map `pre`: the map
/// culled from `start`, with the down stairs put on the exit tile `e` that
/// culling names.
pub open spec fn finishes(pre: TileMapView, start: (int, int), e: int, m: TileMapView) -> bool {
    &&& pre.wf()
    &&& only_walls_and_floors(pre.tiles)
    &&& is_cull_exit(pre, start, e)
    &&& has_distance_field(pre, start)
    &&& 0 <= e < pre.tiles.len()
    &&& m == culled(pre, start).with_tile(e, TileType::DownStairs)
}

/// The level `m` is a finished level for the starting tile `start`: some
/// carved map of walls and floors, culled from `start` and given its down
/// stairs, is `m`.
pub open spec fn is_finished_level(m: TileMapView, start: (int, int)) -> bool {
    exists|pre: TileMapView, e: int| #[trigger] finishes(pre, start, e, m)
}

/// In a finished level every floor tile is joined to the starting tile by a
/// walk over tiles that are not walls.
pub proof fn lemma_finished_level_connected(
    pre: TileMapView,
    start: (int, int),
    e: int,
    m: TileMapView,
)
    requires
        finishes(pre, start, e, m),
    ensures
        forall|x: int, y: int|
            m.in_bounds(x, y) && #[trigger] m.at(x, y) == TileType::Floor ==> connected(
                m,
                start,
                (x, y),
            ),
{
    let g = pre.with_walls_blocked();
    let d = distance_field(g, start);
    let c = culled(pre, start);
    assert(g.with_walls_blocked() == g);
    assert forall|x: int, y: int|
        m.in_bounds(x, y) && #[trigger] m.at(x, y) == TileType::Floor implies connected(
        m,
        start,
        (x, y),
    ) by {
        lemma_idx_in_range(g.width, g.height, x, y);
        lemma_cull_connected(g, start, d, x, y);
        lemma_connected_after_opening(c, e, TileType::DownStairs, start, (x, y));
    }
}

/// A finished level has its down stairs on the exit tile and nowhere else,
/// and is as well-formed as the carved map it was made from.
pub proof fn lemma_finished_level_single_exit(
    pre: TileMapView,
    start: (int, int),
    e: int,
    m: TileMapView,
)
    requires
        finishes(pre, start, e, m),
    ensures
        m.wf(),
        m.width == pre.width,
        m.height == pre.height,
        forall|i: int| 0 <= i < m.tiles.len() ==> (#[trigger] m.tiles[i] == TileType::DownStairs <==> i == e),
{
}

/// Where a walker on `(x, y)` stands after a step decided by the roll of a
/// four-sided die: one is a step to the left, two to the right, three up
/// and four down, each taken only while it keeps the walker at least two
/// tiles from the edge it moves toward.
pub open spec fn staggered(w: int, h: int, x: int, y: int, roll: int) -> (int, int) {
    if roll == 1 && x > 2 {
        (x - 1, y)
    } else if roll == 2 && x < w - 2 {
        (x + 1, y)
    } else if roll == 3 && y > 2 {
        (x, y - 1)
    } else if roll == 4 && y < h - 2 {
        (x, y + 1)
    } else {
        (x, y)
    }
}

/// Moves a walker one step as the roll of a four-sided die decides.
pub fn stagger(map: &TileMap, x: i32, y: i32, roll: i32) -> (to: (i32, i32))
    requires
        map.wf(),
        map@.in_bounds(x as int, y as int),
    ensures
        (to.0 as int, to.1 as int) == staggered(
            map@.width,
            map@.height,
            x as int,
            y as int,
            roll as int,
        ),
        map@.in_bounds(to.0 as int, to.1 as int),
        2 <= x <= map.width - 2 ==> 2 <= to.0 <= map.width - 2,
        2 <= y <= map.height - 2 ==> 2 <= to.1 <= map.height - 2,
{
    if roll == 1 && x > 2 {
        (x - 1, y)
    } else if roll == 2 && x < map.width - 2 {
        (x + 1, y)
    } else if roll == 3 && y > 2 {
        (x, y - 1)
    } else if roll == 4 && y < map.height - 2 {
        (x, y + 1)
    } else {
        (x, y)
    }
}

/// Painting leaves a map of walls and floors a map of walls and floors.
pub proof fn lemma_painted_walls_and_floors(
    m: TileMapView,
    sym: Symmetry,
    size: int,
    x: int,
    y: int,
)
    requires
        only_walls_and_floors(m.tiles),
    ensures
        only_walls_and_floors(painted(m, sym, size, x, y)),
{
    let p = painted(m, sym, size, x, y);
    assert forall|i: int| 0 <= i < p.len() implies #[trigger] p[i] == TileType::Wall || p[i]
        == TileType::Floor by {
        assert(m.tiles[i] == TileType::Wall || m.tiles[i] == TileType::Floor);
    }
}

/// The number of floor tiles that a map of `tiles` tiles must hold for
/// `percent` hundredths of it to be floor, rounded down.
pub open spec fn floor_target(tiles: int, percent: int) -> int {
    tiles * percent / 100
}

/// The number of tiles equal to `kind`.
pub fn count_kind(tiles: &Vec<TileType>, kind: TileType) -> (count: usize)
    ensures
        count == count_tiles(tiles@, kind),
{
    let mut count: usize = 0;
    let mut i: usize = 0;
    while i < tiles.len()
        invariant
            i <= tiles.len(),
            count <= i,
            count == count_tiles(tiles@.take(i as int), kind),
        decreases tiles.len() - i,
    {
        assert(tiles@.take(i + 1).drop_last() =~= tiles@.take(i as int));
        if tiles[i] == kind {
            count += 1;
        }
        i += 1;
    }
    assert(tiles@.take(tiles.len() as int) =~= tiles@);
    count
}

/// A carved map has one finished level.
pub proof fn lemma_finishes_unique(
    pre: TileMapView,
    start: (int, int),
    e1: int,
    m1: TileMapView,
    e2: int,
    m2: TileMapView,
)
    requires
        finishes(pre, start, e1, m1),
        finishes(pre, start, e2, m2),
    ensures
        e1 == e2,
        m1 == m2,
{
    let g = pre.with_walls_blocked();
    let d = distance_field(g, start);
    if exists|i: int| exit_candidate(g.tiles, d, i) {
        assert(exit_candidate(g.tiles, d, e1));
        assert(exit_candidate(g.tiles, d, e2));
    }
}

/// The tile at index `e` holds the down stairs, and no other tile does.
pub open spec fn sole_stairs(tiles: Seq<TileType>, e: int) -> bool {
    &&& 0 <= e < tiles.len()
    &&& forall|i: int|
        0 <= i < tiles.len() ==> (#[trigger] tiles[i] == TileType::DownStairs <==> i == e)
}

/// In a finished level every floor tile is joined to the starting tile by a
/// walk over tiles that are not walls.
pub proof fn lemma_level_connected(m: TileMapView, start: (int, int))
    requires
        is_finished_level(m, start),
    ensures
        forall|x: int, y: int|
            m.in_bounds(x, y) && #[trigger] m.at(x, y) == TileType::Floor ==> connected(
                m,
                start,
                (x, y),
            ),
{
    let (pre, e) = choose|pre: TileMapView, e: int| #[trigger] finishes(pre, start, e, m);
    lemma_finished_level_connected(pre, start, e, m);
}

/// The starting tile is not walled in: it is floor, or it holds the down
/// stairs.
pub open spec fn start_is_open(m: TileMapView, start: (int, int)) -> bool {
    &&& m.in_bounds(start.0, start.1)
    &&& m.at(start.0, start.1) == TileType::Floor || m.at(start.0, start.1)
        == TileType::DownStairs
}

/// Where the starting tile of the carved map is floor, culling leaves it
/// alone: in the finished level it is floor, or it holds the down stairs,
/// and it holds the down stairs only where no other floor tile of the
/// carved map is in reach of it.
pub proof fn lemma_finished_level_start(
    pre: TileMapView,
    start: (int, int),
    e: int,
    m: TileMapView,
)
    requires
        finishes(pre, start, e, m),
        pre.in_bounds(start.0, start.1),
        pre.at(start.0, start.1) == TileType::Floor,
    ensures
        start_is_open(m, start),
        m.at(start.0, start.1) == if e == pre.idx(start.0, start.1) {
            TileType::DownStairs
        } else {
            TileType::Floor
        },
        e == pre.idx(start.0, start.1) ==> forall|i: int| #[trigger]
            exit_candidate(pre.tiles, distance_field(pre.with_walls_blocked(), start), i) ==> i
                == e,
{
    let g = pre.with_walls_blocked();
    let d = distance_field(g, start);
    let s = pre.idx(start.0, start.1);
    lemma_idx_in_range(pre.width, pre.height, start.0, start.1);
    lemma_start_label(g, start, d);
    assert(exit_candidate(g.tiles, d, s));
    if e == s {
        assert forall|i: int| #[trigger] exit_candidate(pre.tiles, d, i) implies i == e by {
            if i != s {
                lemma_idx_to_coords(g.width, g.height, i);
                lemma_label_away(g, start, d, i % g.width, i / g.width);
                assert(g.idx(i % g.width, i / g.width) == i);
            }
        }
    }
}

/// Where the starting tile of the carved map is floor and a tile next to
/// it, off the first row and column, is floor too, the starting tile is
/// floor in the finished level: the down stairs stand elsewhere.
pub proof fn lemma_finished_level_start_floor(
    pre: TileMapView,
    start: (int, int),
    e: int,
    m: TileMapView,
    next: (int, int),
)
    requires
        finishes(pre, start, e, m),
        pre.in_bounds(start.0, start.1),
        pre.at(start.0, start.1) == TileType::Floor,
        pre.in_bounds(next.0, next.1),
        1 <= next.0,
        1 <= next.1,
        pre.at(next.0, next.1) == TileType::Floor,
        crate::pathing::step_cost(start, next) > 0,
    ensures
        m.at(start.0, start.1) == TileType::Floor,
        e != pre.idx(start.0, start.1),
{
    let g = pre.with_walls_blocked();
    let d = distance_field(g, start);
    lemma_idx_in_range(pre.width, pre.height, start.0, start.1);
    lemma_idx_in_range(pre.width, pre.height, next.0, next.1);
    lemma_finished_level_start(pre, start, e, m);
    assert(crate::pathing::is_step(g, start, next));
    crate::pathing::lemma_walk_single(g, start, next);
    assert(reaches(g, start, next, crate::pathing::step_cost(start, next)));
    assert(label_exact(g, start, d[g.idx(next.0, next.1)], next.0, next.1));
    assert(exit_candidate(pre.tiles, d, pre.idx(next.0, next.1)));
}

/// A finished level is well-formed and has exactly one tile with down
/// stairs. That tile is the floor tile of the carved map that is farthest
/// from the starting tile among those that a walk below the distance cap
/// arrives at, the one of lowest index where several are equally far; it is
/// the starting tile where there is no such floor tile.
pub proof fn lemma_level_single_exit(m: TileMapView, start: (int, int))
    requires
        is_finished_level(m, start),
    ensures
        m.wf(),
        exists|pre: TileMapView, e: int|
            {
                &&& #[trigger] finishes(pre, start, e, m)
                &&& sole_stairs(m.tiles, e)
                &&& is_farthest_floor(
                    pre.tiles,
                    distance_field(pre.with_walls_blocked(), start),
                    pre.idx(start.0, start.1),
                    e,
                )
            },
{
    let (pre, e) = choose|pre: TileMapView, e: int| #[trigger] finishes(pre, start, e, m);
    lemma_finished_level_single_exit(pre, start, e, m);
}

} // verus!
