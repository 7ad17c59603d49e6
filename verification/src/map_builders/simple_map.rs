use vstd::prelude::*;
use crate::dice::Dice;
use crate::map::{
    fresh_map, lemma_idx_in_range, lemma_idx_to_coords, Position, TileMap, TileMapView, TileType,
    MAP_HEIGHT, MAP_WIDTH,
};
use crate::map_builders::common::{
    apply_horizontal_tunnel, apply_room_to_map, apply_vertical_tunnel, horizontal_tunnel_carved,
    in_room, only_walls_and_floors, room_carved, vertical_tunnel_carved,
};
use crate::map_builders::cellular_automata::lemma_standard_idx;
use crate::map_builders::common::{column_index, sole_stairs};
use crate::map_builders::{views_of, BuilderState, MapBuilder};
use crate::pathing::{
    between, connected, lemma_connected_along_column, lemma_connected_along_row,
    lemma_connected_monotone, lemma_connected_step, walkable,
};
use crate::rect::Rect;

verus! {

/// The number of rooms that a build tries to place.
pub const MAX_ROOMS: i32 = 32;

/// The smallest width and height of a room.
pub const MIN_SIZE: i32 = 6;

/// One more than the largest width and height of a room.
pub const MAX_SIZE: i32 = 10;

/// Whether the room lies on the standard map with a wall around it: its
/// interior keeps off the border.
pub open spec fn room_on_map(room: Rect) -> bool {
    &&& 0 <= room.x1
    &&& room.x1 + MIN_SIZE <= room.x2
    &&& room.x2 <= MAP_WIDTH - 2
    &&& 0 <= room.y1
    &&& room.y1 + MIN_SIZE <= room.y2
    &&& room.y2 <= MAP_HEIGHT - 2
}

/// The tiles after the rooms `prev` and `new` have been joined by a
/// corridor with one bend: from the centre of `prev` along its row and then
/// along the column of the centre of `new` if `horizontal_first` is set,
/// and along its column and then along the row of the centre of `new`
/// otherwise.
pub open spec fn rooms_joined(m: TileMapView, prev: Rect, new: Rect, horizontal_first: bool) -> Seq<
    TileType,
> {
    let (new_x, new_y) = new.spec_center();
    let (prev_x, prev_y) = prev.spec_center();
    if horizontal_first {
        let first = m.with_tiles(horizontal_tunnel_carved(m, prev_x, new_x, prev_y));
        vertical_tunnel_carved(first, prev_y, new_y, new_x)
    } else {
        let first = m.with_tiles(vertical_tunnel_carved(m, prev_y, new_y, prev_x));
        horizontal_tunnel_carved(first, prev_x, new_x, new_y)
    }
}

/// Every tile that is floor in `before` is floor in `after`, and every tile
/// of `after` that is not floor is as it is in `before`.
pub open spec fn only_dug(before: Seq<TileType>, after: Seq<TileType>) -> bool {
    &&& after.len() == before.len()
    &&& forall|i: int|
        0 <= i < after.len() ==> #[trigger] after[i] == TileType::Floor || after[i] == before[i]
}

/// Joins the rooms `prev` and `new` by a corridor with one bend between
/// their centres.
pub fn connect_rooms(map: &mut TileMap, prev: &Rect, new: &Rect, horizontal_first: bool)
    requires
        old(map).wf(),
        room_on_map(*prev),
        room_on_map(*new),
    ensures
        final(map).wf(),
        final(map)@ == old(map)@.with_tiles(rooms_joined(old(map)@, *prev, *new, horizontal_first)),
        only_dug(old(map).tiles@, final(map).tiles@),
{
    let ghost t0 = map.tiles@;
    let (new_x, new_y) = new.center();
    let (prev_x, prev_y) = prev.center();
    if horizontal_first {
        apply_horizontal_tunnel(map, prev_x, new_x, prev_y);
        let ghost t1 = map.tiles@;
        apply_vertical_tunnel(map, prev_y, new_y, new_x);
        proof {
            assert forall|i: int| 0 <= i < t0.len() implies #[trigger] map.tiles[i]
                == TileType::Floor || map.tiles[i] == t0[i] by {
                assert(t1[i] == TileType::Floor || t1[i] == t0[i]);
            }
        }
    } else {
        apply_vertical_tunnel(map, prev_y, new_y, prev_x);
        let ghost t1 = map.tiles@;
        apply_horizontal_tunnel(map, prev_x, new_x, new_y);
        proof {
            assert forall|i: int| 0 <= i < t0.len() implies #[trigger] map.tiles[i]
                == TileType::Floor || map.tiles[i] == t0[i] by {
                assert(t1[i] == TileType::Floor || t1[i] == t0[i]);
            }
        }
    }
}

/// The map is of the standard size.
pub open spec fn standard(m: TileMapView) -> bool {
    m.wf() && m.width == MAP_WIDTH && m.height == MAP_HEIGHT
}

/// Every tile that is not a wall keeps off the border of the map.
pub open spec fn floor_inside(m: TileMapView) -> bool {
    forall|x: int, y: int|
        m.in_bounds(x, y) && #[trigger] m.at(x, y) != TileType::Wall ==> 1 <= x <= MAP_WIDTH - 2
            && 1 <= y <= MAP_HEIGHT - 2
}

/// Every tile that is not a wall is joined to `s` by a walk over tiles that
/// are not walls.
pub open spec fn all_joined(m: TileMapView, s: (int, int)) -> bool {
    forall|x: int, y: int|
        m.in_bounds(x, y) && #[trigger] m.at(x, y) != TileType::Wall ==> connected(m, s, (x, y))
}

/// The centre of a room on the map lies inside the room.
pub proof fn lemma_center_in_room(room: Rect)
    requires
        room_on_map(room),
    ensures
        in_room(room, room.spec_center().0, room.spec_center().1),
        in_room(room, room.spec_center().0 + 1, room.spec_center().1),
        1 <= room.spec_center().0 <= MAP_WIDTH - 2,
        1 <= room.spec_center().1 <= MAP_HEIGHT - 2,
{
}

/// On the standard map, digging a room makes its interior floor and leaves
/// the other tiles alone.
pub proof fn lemma_room_tiles(m: TileMapView, room: Rect, x: int, y: int)
    requires
        standard(m),
        m.in_bounds(x, y),
    ensures
        m.with_tiles(room_carved(m, room)).at(x, y) == if in_room(room, x, y) {
            TileType::Floor
        } else {
            m.at(x, y)
        },
{
    lemma_idx_in_range(m.width, m.height, x, y);
}

/// On the standard map, a tunnel along a row makes the tiles of the row
/// between its ends floor and leaves the other tiles alone.
pub proof fn lemma_row_tunnel_tiles(m: TileMapView, xa: int, xb: int, y0: int, x: int, y: int)
    requires
        standard(m),
        m.in_bounds(x, y),
        m.in_bounds(xa, y0),
        m.in_bounds(xb, y0),
    ensures
        m.with_tiles(horizontal_tunnel_carved(m, xa, xb, y0)).at(x, y) == if y == y0 && between(
            xa,
            xb,
            x,
        ) {
            TileType::Floor
        } else {
            m.at(x, y)
        },
{
    lemma_idx_in_range(m.width, m.height, x, y);
    lemma_standard_idx(m, x, y);
    lemma_standard_idx(m, 0, y0);
}

/// On the standard map, a tunnel along a column makes the tiles of the
/// column between its ends floor and leaves the other tiles alone.
pub proof fn lemma_column_tunnel_tiles(m: TileMapView, ya: int, yb: int, x0: int, x: int, y: int)
    requires
        standard(m),
        m.in_bounds(x, y),
        m.in_bounds(x0, ya),
        m.in_bounds(x0, yb),
    ensures
        m.with_tiles(vertical_tunnel_carved(m, ya, yb, x0)).at(x, y) == if x == x0 && between(
            ya,
            yb,
            y,
        ) {
            TileType::Floor
        } else {
            m.at(x, y)
        },
{
    lemma_idx_in_range(m.width, m.height, x, y);
    lemma_standard_idx(m, x, y);
    let i = m.idx(x, y);
    let lo = crate::map_builders::common::spec_min(ya, yb);
    let hi = crate::map_builders::common::spec_max(ya, yb);
    if x == x0 && between(ya, yb, y) {
        lemma_standard_idx(m, x0, y);
        assert(lo <= y <= hi && column_index(m.width, x0, y) == i);
    } else {
        assert forall|yy: int| lo <= yy <= hi implies #[trigger] column_index(m.width, x0, yy)
            != i by {
            lemma_standard_idx(m, x0, yy);
        }
    }
}

/// Where every tile inside a room is walkable and the centre of the room is
/// joined to `s` or is `s`, every tile inside the room is joined to `s`.
pub proof fn lemma_room_joined(m: TileMapView, s: (int, int), room: Rect, x: int, y: int)
    requires
        standard(m),
        room_on_map(room),
        forall|x1: int, y1: int| in_room(room, x1, y1) ==> #[trigger] walkable(m, x1, y1),
        connected(m, s, room.spec_center()) || room.spec_center() == s,
        in_room(room, x, y),
    ensures
        connected(m, s, (x, y)),
{
    let c = room.spec_center();
    lemma_center_in_room(room);
    if c == s {
        assert(walkable(m, c.0 + 1, c.1));
        lemma_connected_step(m, s, c, (c.0 + 1, c.1));
        assert(walkable(m, c.0, c.1));
        lemma_connected_step(m, s, (c.0 + 1, c.1), c);
    }
    assert(connected(m, s, c));
    assert forall|x1: int| between(c.0, x, x1) implies #[trigger] walkable(m, x1, c.1) by {
        assert(in_room(room, x1, c.1));
    }
    lemma_connected_along_row(m, s, c.1, c.0, x);
    assert(connected(m, s, (x, c.1)));
    assert forall|y1: int| between(c.1, y, y1) implies #[trigger] walkable(m, x, y1) by {
        assert(in_room(room, x, y1));
    }
    lemma_connected_along_column(m, s, x, c.1, y);
}

/// The first room that is dug out of solid rock is joined to its centre.
pub proof fn lemma_joined_first_room(m0: TileMapView, new: Rect)
    requires
        standard(m0),
        forall|i: int| 0 <= i < m0.tiles.len() ==> m0.tiles[i] == TileType::Wall,
        room_on_map(new),
    ensures
        all_joined(m0.with_tiles(room_carved(m0, new)), new.spec_center()),
        floor_inside(m0.with_tiles(room_carved(m0, new))),
{
    let m1 = m0.with_tiles(room_carved(m0, new));
    let s = new.spec_center();
    assert forall|x: int, y: int| m1.in_bounds(x, y) implies (#[trigger] m1.at(x, y)
        != TileType::Wall) == in_room(new, x, y) by {
        lemma_room_tiles(m0, new, x, y);
        lemma_idx_in_range(m0.width, m0.height, x, y);
    }
    assert forall|x1: int, y1: int| in_room(new, x1, y1) implies #[trigger] walkable(
        m1,
        x1,
        y1,
    ) by {
        assert(m1.at(x1, y1) != TileType::Wall);
    }
    assert forall|x: int, y: int|
        m1.in_bounds(x, y) && #[trigger] m1.at(x, y) != TileType::Wall implies connected(
        m1,
        s,
        (x, y),
    ) by {
        lemma_room_joined(m1, s, new, x, y);
    }
}

/// The tiles of the corridor with one bend from `p` to `n`: the row of `p`
/// and the column of `n` between the two if `horizontal_first` is set, the
/// column of `p` and the row of `n` otherwise.
pub open spec fn on_corridor(
    p: (int, int),
    n: (int, int),
    horizontal_first: bool,
    x: int,
    y: int,
) -> bool {
    if horizontal_first {
        (y == p.1 && between(p.0, n.0, x)) || (x == n.0 && between(p.1, n.1, y))
    } else {
        (x == p.0 && between(p.1, n.1, y)) || (y == n.1 && between(p.0, n.0, x))
    }
}

/// Joining two rooms digs the corridor between their centres and leaves
/// the other tiles alone.
pub proof fn lemma_corridor_tiles(
    m: TileMapView,
    prev: Rect,
    new: Rect,
    horizontal_first: bool,
    x: int,
    y: int,
)
    requires
        standard(m),
        room_on_map(prev),
        room_on_map(new),
        m.in_bounds(x, y),
    ensures
        m.with_tiles(rooms_joined(m, prev, new, horizontal_first)).at(x, y) == if on_corridor(
            prev.spec_center(),
            new.spec_center(),
            horizontal_first,
            x,
            y,
        ) {
            TileType::Floor
        } else {
            m.at(x, y)
        },
{
    let p = prev.spec_center();
    let n = new.spec_center();
    lemma_center_in_room(prev);
    lemma_center_in_room(new);
    if horizontal_first {
        let first = m.with_tiles(horizontal_tunnel_carved(m, p.0, n.0, p.1));
        lemma_row_tunnel_tiles(m, p.0, n.0, p.1, x, y);
        lemma_column_tunnel_tiles(first, p.1, n.1, n.0, x, y);
    } else {
        let first = m.with_tiles(vertical_tunnel_carved(m, p.1, n.1, p.0));
        lemma_column_tunnel_tiles(m, p.1, n.1, p.0, x, y);
        lemma_row_tunnel_tiles(first, p.0, n.0, n.1, x, y);
    }
}

/// Where the corridor from `p` to `n` is walkable and `p` is joined to `s`
/// or is `s`, every tile of the corridor is joined to `s`.
pub proof fn lemma_corridor_joined(
    m: TileMapView,
    s: (int, int),
    p: (int, int),
    n: (int, int),
    horizontal_first: bool,
    x: int,
    y: int,
)
    requires
        standard(m),
        connected(m, s, p),
        forall|x1: int, y1: int|
            on_corridor(p, n, horizontal_first, x1, y1) ==> #[trigger] walkable(m, x1, y1),
        on_corridor(p, n, horizontal_first, x, y),
    ensures
        connected(m, s, (x, y)),
        connected(m, s, n),
{
    if horizontal_first {
        let q = (n.0, p.1);
        assert forall|x1: int| between(p.0, n.0, x1) implies #[trigger] walkable(m, x1, p.1) by {
            assert(on_corridor(p, n, horizontal_first, x1, p.1));
        }
        lemma_connected_along_row(m, s, p.1, p.0, n.0);
        assert(connected(m, s, q));
        assert forall|y1: int| between(p.1, n.1, y1) implies #[trigger] walkable(m, n.0, y1) by {
            assert(on_corridor(p, n, horizontal_first, n.0, y1));
        }
        lemma_connected_along_column(m, s, n.0, p.1, n.1);
        if y == p.1 && between(p.0, n.0, x) {
            assert forall|x1: int| between(p.0, x, x1) implies #[trigger] walkable(m, x1, p.1) by {
                assert(between(p.0, n.0, x1));
            }
            lemma_connected_along_row(m, s, p.1, p.0, x);
        } else {
            assert forall|y1: int| between(p.1, y, y1) implies #[trigger] walkable(m, n.0, y1) by {
                assert(between(p.1, n.1, y1));
            }
            lemma_connected_along_column(m, s, n.0, p.1, y);
        }
    } else {
        let q = (p.0, n.1);
        assert forall|y1: int| between(p.1, n.1, y1) implies #[trigger] walkable(m, p.0, y1) by {
            assert(on_corridor(p, n, horizontal_first, p.0, y1));
        }
        lemma_connected_along_column(m, s, p.0, p.1, n.1);
        assert(connected(m, s, q));
        assert forall|x1: int| between(p.0, n.0, x1) implies #[trigger] walkable(m, x1, n.1) by {
            assert(on_corridor(p, n, horizontal_first, x1, n.1));
        }
        lemma_connected_along_row(m, s, n.1, p.0, n.0);
        if x == p.0 && between(p.1, n.1, y) {
            assert forall|y1: int| between(p.1, y, y1) implies #[trigger] walkable(m, p.0, y1) by {
                assert(between(p.1, n.1, y1));
            }
            lemma_connected_along_column(m, s, p.0, p.1, y);
        } else {
            assert forall|x1: int| between(p.0, x, x1) implies #[trigger] walkable(m, x1, n.1) by {
                assert(between(p.0, n.0, x1));
            }
            lemma_connected_along_row(m, s, n.1, p.0, x);
        }
    }
}

/// A room that is dug next to a map whose floor is joined to `s`, and
/// joined to the centre of a room of that map by a corridor, leaves a map
/// whose floor is joined to `s`.
pub proof fn lemma_joined_next_room(
    m0: TileMapView,
    s: (int, int),
    prev: Rect,
    new: Rect,
    horizontal_first: bool,
)
    requires
        standard(m0),
        all_joined(m0, s),
        floor_inside(m0),
        room_on_map(prev),
        room_on_map(new),
        m0.at(prev.spec_center().0, prev.spec_center().1) != TileType::Wall,
    ensures
        ({
            let m1 = m0.with_tiles(room_carved(m0, new));
            let m2 = m1.with_tiles(rooms_joined(m1, prev, new, horizontal_first));
            all_joined(m2, s) && floor_inside(m2)
        }),
{
    let m1 = m0.with_tiles(room_carved(m0, new));
    let m2 = m1.with_tiles(rooms_joined(m1, prev, new, horizontal_first));
    let p = prev.spec_center();
    let n = new.spec_center();
    lemma_center_in_room(prev);
    lemma_center_in_room(new);
    assert forall|x: int, y: int| m2.in_bounds(x, y) implies #[trigger] m2.at(x, y) == if on_corridor(
        p,
        n,
        horizontal_first,
        x,
        y,
    ) || in_room(new, x, y) {
        TileType::Floor
    } else {
        m0.at(x, y)
    } by {
        lemma_room_tiles(m0, new, x, y);
        lemma_corridor_tiles(m1, prev, new, horizontal_first, x, y);
    }
    assert forall|i: int|
        0 <= i < m0.tiles.len() && m0.tiles[i] != TileType::Wall implies #[trigger] m2.tiles[i]
        != TileType::Wall by {
        crate::map::lemma_idx_to_coords(m0.width, m0.height, i);
        let x = i % m0.width;
        let y = i / m0.width;
        assert(m0.at(x, y) == m0.tiles[i]);
        assert(m2.at(x, y) == m2.tiles[i]);
    }
    assert(m0.at(p.0, p.1) != TileType::Wall);
    lemma_connected_monotone(m0, m2, s, p);
    assert forall|x1: int, y1: int|
        on_corridor(p, n, horizontal_first, x1, y1) implies #[trigger] walkable(m2, x1, y1) by {
        assert(m2.in_bounds(x1, y1));
        assert(m2.at(x1, y1) == TileType::Floor);
    }
    assert(on_corridor(p, n, horizontal_first, n.0, n.1));
    lemma_corridor_joined(m2, s, p, n, horizontal_first, n.0, n.1);
    assert forall|x1: int, y1: int| in_room(new, x1, y1) implies #[trigger] walkable(
        m2,
        x1,
        y1,
    ) by {
        assert(m2.in_bounds(x1, y1));
        assert(m2.at(x1, y1) == TileType::Floor);
    }
    assert forall|x: int, y: int|
        m2.in_bounds(x, y) && #[trigger] m2.at(x, y) != TileType::Wall implies connected(
        m2,
        s,
        (x, y),
    ) by {
        if on_corridor(p, n, horizontal_first, x, y) {
            lemma_corridor_joined(m2, s, p, n, horizontal_first, x, y);
        } else if in_room(new, x, y) {
            lemma_room_joined(m2, s, new, x, y);
        } else {
            assert(m0.at(x, y) != TileType::Wall);
            lemma_connected_monotone(m0, m2, s, (x, y));
        }
    }
    assert forall|x: int, y: int|
        m2.in_bounds(x, y) && #[trigger] m2.at(x, y) != TileType::Wall implies 1 <= x <= MAP_WIDTH
        - 2 && 1 <= y <= MAP_HEIGHT - 2 by {
        if !on_corridor(p, n, horizontal_first, x, y) && !in_room(new, x, y) {
            assert(m0.at(x, y) != TileType::Wall);
        }
    }
}

/// The room that the four rolls from the `c`-th on describe: its width, its
/// height, and one more than the column and than the row of its corner.
pub open spec fn attempt_room(rolls: Seq<int>, c: int) -> Rect {
    Rect {
        x1: (rolls[c + 2] - 1) as i32,
        x2: (rolls[c + 2] - 1 + rolls[c]) as i32,
        y1: (rolls[c + 3] - 1) as i32,
        y2: (rolls[c + 3] - 1 + rolls[c + 1]) as i32,
    }
}

/// Whether `room` overlaps none of `rooms`.
pub open spec fn room_fits(rooms: Seq<Rect>, room: Rect) -> bool {
    forall|i: int| 0 <= i < rooms.len() ==> !room.overlaps(#[trigger] rooms[i])
}

/// The rooms, the tiles and the number of rolls used after `k` attempts to
/// place a room on a fresh map: each attempt takes four rolls for a room;
/// a room that overlaps none before it is dug out and, unless it is the
/// first, joined to the room before it by a corridor whose bend a fifth
/// roll decides.
pub open spec fn after_attempts(depth: int, rolls: Seq<int>, k: int) -> (
    Seq<Rect>,
    Seq<TileType>,
    int,
)
    decreases k,
{
    if k <= 0 {
        (Seq::empty(), fresh_map(depth).tiles, 0)
    } else {
        let (rooms, tiles, used) = after_attempts(depth, rolls, k - 1);
        let room = attempt_room(rolls, used);
        if room_fits(rooms, room) {
            let m0 = fresh_map(depth).with_tiles(tiles);
            let m1 = m0.with_tiles(room_carved(m0, room));
            if rooms.len() > 0 {
                (
                    rooms.push(room),
                    rooms_joined(m1, rooms.last(), room, rolls[used + 4] == 1),
                    used + 5,
                )
            } else {
                (rooms.push(room), m1.tiles, used + 4)
            }
        } else {
            (rooms, tiles, used + 4)
        }
    }
}

/// Every attempt uses at least four rolls.
pub proof fn lemma_attempts_used(depth: int, rolls: Seq<int>, k: int)
    requires
        0 <= k,
    ensures
        after_attempts(depth, rolls, k).2 >= 4 * k,
        k > 0 ==> after_attempts(depth, rolls, k).2 >= after_attempts(depth, rolls, k - 1).2 + 4,
    decreases k,
{
    if k > 0 {
        lemma_attempts_used(depth, rolls, k - 1);
    }
}

/// What the attempts make of a stream of rolls depends on the rolls they
/// use alone.
pub proof fn lemma_attempts_prefix(depth: int, r1: Seq<int>, r2: Seq<int>, k: int)
    requires
        0 <= k,
        r1.len() <= r2.len(),
        r2.take(r1.len() as int) == r1,
        after_attempts(depth, r1, k).2 <= r1.len(),
    ensures
        after_attempts(depth, r2, k) == after_attempts(depth, r1, k),
    decreases k,
{
    if k > 0 {
        lemma_attempts_used(depth, r1, k);
        lemma_attempts_prefix(depth, r1, r2, k - 1);
        let used = after_attempts(depth, r1, k - 1).2;
        lemma_attempts_used(depth, r1, k - 1);
        assert(0 <= used && used + 4 <= r1.len());
        assert(r2.take(r1.len() as int)[used] == r2[used]);
        assert(r2.take(r1.len() as int)[used + 1] == r2[used + 1]);
        assert(r2.take(r1.len() as int)[used + 2] == r2[used + 2]);
        assert(r2.take(r1.len() as int)[used + 3] == r2[used + 3]);
        assert(attempt_room(r2, used) == attempt_room(r1, used));
        if used + 5 <= r1.len() {
            assert(r2.take(r1.len() as int)[used + 4] == r2[used + 4]);
        }
    }
}

/// Builds a level of rectangular rooms joined by corridors.
pub struct SimpleMapBuilder {
    state: BuilderState,
    rooms: Vec<Rect>,
}

impl SimpleMapBuilder {
    /// The depth of the level that the builder makes.
    pub closed spec fn spec_depth(&self) -> int {
        self.state.depth as int
    }

    /// The rooms placed so far, in the order in which they were placed.
    pub closed spec fn spec_rooms(&self) -> Seq<Rect> {
        self.rooms@
    }

    /// The builder can work: its state is well-formed, every room lies on
    /// the map, and no two rooms overlap.
    pub closed spec fn ready(&self) -> bool {
        &&& self.state.wf()
        &&& forall|i: int| 0 <= i < self.rooms.len() ==> room_on_map(#[trigger] self.rooms[i])
        &&& forall|i: int, j: int|
            0 <= i < j < self.rooms.len() ==> !(#[trigger] self.rooms[i]).overlaps(
                #[trigger] self.rooms[j],
            )
    }

    /// Every tile in the interior of a room is floor.
    pub closed spec fn rooms_dug(&self) -> bool {
        forall|i: int, x: int, y: int|
            0 <= i < self.rooms.len() && in_room(#[trigger] self.rooms[i], x, y)
                ==> #[trigger] self.state.map@.at(x, y) == TileType::Floor
    }

    /// While there is no room, the map is solid rock; once there is one,
    /// every tile that is not a wall keeps off the border and is joined to
    /// the centre of the first room.
    pub closed spec fn joined(&self) -> bool {
        if self.rooms.len() == 0 {
            forall|i: int| 0 <= i < self.state.map.tiles.len() ==> self.state.map.tiles[i] == TileType::Wall
        } else {
            all_joined(self.state.map@, self.rooms[0].spec_center()) && floor_inside(
                self.state.map@,
            )
        }
    }

    /// A builder for the given depth.
    pub fn new(new_depth: i32) -> (builder: SimpleMapBuilder)
        ensures
            builder.wf(),
            builder.spec_depth() == new_depth,
            builder.spec_rooms().len() == 0,
            builder.history_view().len() == 0,
            builder.map_view() == fresh_map(new_depth as int),
    {
        SimpleMapBuilder { state: BuilderState::new(new_depth), rooms: Vec::new() }
    }

    /// Whether `room` overlaps none of the rooms placed so far.
    pub fn fits(&self, room: &Rect) -> (free: bool)
        ensures
            free == (forall|i: int|
                0 <= i < self.spec_rooms().len() ==> !room.overlaps(#[trigger] self.spec_rooms()[i])),
    {
        let mut i: usize = 0;
        while i < self.rooms.len()
            invariant
                i <= self.rooms.len(),
                forall|k: int| 0 <= k < i ==> !room.overlaps(#[trigger] self.rooms[k]),
            decreases self.rooms.len() - i,
        {
            if room.intersect(&self.rooms[i]) {
                assert(room.overlaps(self.spec_rooms()[i as int]));
                return false;
            }
            i += 1;
        }
        true
    }

    /// The rooms that the builder has placed.
    pub fn get_rooms(&self) -> (rooms: Vec<Rect>)
        ensures
            rooms@ == self.spec_rooms(),
    {
        let mut rooms: Vec<Rect> = Vec::new();
        let mut i: usize = 0;
        while i < self.rooms.len()
            invariant
                i <= self.rooms.len(),
                rooms@ == self.rooms@.take(i as int),
            decreases self.rooms.len() - i,
        {
            rooms.push(self.rooms[i]);
            assert(rooms@ =~= self.rooms@.take(i + 1));
            i += 1;
        }
        assert(self.rooms@.take(self.rooms.len() as int) =~= self.rooms@);
        rooms
    }

    /// The level is complete: there is a room, the starting tile is the
    /// centre of the first room, the down stairs stand on the centre of the
    /// last room and nowhere else, every other tile is wall or floor, every
    /// other tile inside a room is floor, and every tile that is not a wall
    /// is joined to the starting tile by a walk over tiles that are not
    /// walls.
    pub closed spec fn rooms_ready(&self) -> bool {
        let m = self.state.map@;
        let stairs = self.rooms[self.rooms.len() - 1].spec_center();
        &&& m.wf()
        &&& self.rooms.len() >= 1
        &&& self.state.start() == self.rooms[0].spec_center()
        &&& m.in_bounds(stairs.0, stairs.1)
        &&& forall|i: int|
            0 <= i < m.tiles.len() ==> ((#[trigger] m.tiles[i]) == TileType::DownStairs <==> i
                == m.idx(stairs.0, stairs.1))
        &&& forall|i: int|
            0 <= i < m.tiles.len() ==> (#[trigger] m.tiles[i]) == TileType::Wall || m.tiles[i]
                == TileType::Floor || m.tiles[i] == TileType::DownStairs
        &&& forall|i: int, x: int, y: int|
            0 <= i < self.rooms.len() && in_room(#[trigger] self.rooms[i], x, y) ==> #[trigger] m.at(
                x,
                y,
            ) == TileType::Floor || (x, y) == stairs
        &&& all_joined(m, self.state.start())
    }

    /// Places the room: digs it out, takes a snapshot, joins it to the room
    /// placed before it, if there is one, by a corridor whose bend a roll
    /// decides, and takes another snapshot.
    fn add_room(&mut self, new_room: Rect, dice: &mut Dice)
        requires
            old(self).ready(),
            old(self).rooms_dug(),
            old(self).joined(),
            only_walls_and_floors(old(self).state.map.tiles@),
            room_on_map(new_room),
            forall|i: int| 0 <= i < old(self).rooms.len() ==> !new_room.overlaps(#[trigger] old(self).rooms[i]),
        ensures
            final(self).ready(),
            final(self).rooms_dug(),
            final(self).joined(),
            only_walls_and_floors(final(self).state.map.tiles@),
            final(self).rooms@ == old(self).rooms@.push(new_room),
            ({
                let m0 = old(self).state.map@;
                let m1 = m0.with_tiles(room_carved(m0, new_room));
                if old(self).rooms.len() > 0 {
                    &&& final(dice).drawn().len() == old(dice).drawn().len() + 1
                    &&& final(self).state.map@ == m1.with_tiles(
                        rooms_joined(
                            m1,
                            old(self).rooms@.last(),
                            new_room,
                            final(dice).drawn().last() == 1,
                        ),
                    )
                } else {
                    &&& final(dice).drawn() == old(dice).drawn()
                    &&& final(self).state.map@ == m1
                }
            }),
            final(self).state.depth == old(self).state.depth,
            final(self).state.starting_position == old(self).state.starting_position,
            old(self).state.history.len() <= final(self).state.history.len(),
            final(self).state.history@.take(old(self).state.history.len() as int) == old(
                self,
            ).state.history@,
            old(dice).drawn().len() <= final(dice).drawn().len(),
            final(dice).drawn().take(old(dice).drawn().len() as int) == old(dice).drawn(),
    {
        let ghost h0 = self.state.history@;
        let ghost d0 = dice.drawn();
        let ghost t0 = self.state.map.tiles@;
        let ghost m0 = self.state.map@;
        apply_room_to_map(&mut self.state.map, &new_room);
        let ghost t1 = self.state.map.tiles@;
        self.state.take_snapshot();
        proof {
            assert(dice.drawn().take(d0.len() as int) =~= d0);
            assert(only_dug(t0, t1));
        }
        if self.rooms.len() > 0 {
            let prev = self.rooms[self.rooms.len() - 1];
            let horizontal_first = dice.range(0, 2) == 1;
            connect_rooms(&mut self.state.map, &prev, &new_room, horizontal_first);
            proof {
                assert(dice.drawn().take(d0.len() as int) =~= d0);
                let s = self.rooms[0].spec_center();
                let c = prev.spec_center();
                lemma_center_in_room(prev);
                assert(room_on_map(prev));
                assert(in_room(self.rooms[self.rooms.len() - 1], c.0, c.1));
                assert(m0.at(c.0, c.1) == TileType::Floor);
                lemma_joined_next_room(m0, s, prev, new_room, horizontal_first);
            }
        } else {
            proof {
                lemma_joined_first_room(m0, new_room);
            }
        }
        let ghost t2 = self.state.map.tiles@;
        let ghost rooms0 = self.rooms@;
        self.rooms.push(new_room);
        let ghost h1 = self.state.history@;
        self.state.take_snapshot();
        proof {
            assert(self.state.history@.take(h0.len() as int) =~= h1.take(h0.len() as int));
            assert forall|i: int| 0 <= i < t2.len() implies #[trigger] t2[i] == TileType::Floor
                || t2[i] == t0[i] by {
                assert(t1[i] == TileType::Floor || t1[i] == t0[i]);
            }
            assert forall|i: int| 0 <= i < t2.len() implies #[trigger] t2[i] == TileType::Wall
                || t2[i] == TileType::Floor by {
                assert(t2[i] == TileType::Floor || t2[i] == t0[i]);
                assert(t0[i] == TileType::Wall || t0[i] == TileType::Floor);
            }
            assert forall|i: int, x: int, y: int|
                0 <= i < self.rooms.len() && in_room(#[trigger] self.rooms[i], x, y) implies #[trigger] self.state.map@.at(
                x,
                y,
            ) == TileType::Floor by {
                let r = self.rooms[i];
                assert(room_on_map(r)) by {
                    if i < rooms0.len() {
                        assert(r == rooms0[i]);
                    }
                }
                lemma_idx_in_range(80, 43, x, y);
                crate::map_builders::cellular_automata::lemma_standard_idx(m0, x, y);
                let k = y * 80 + x;
                assert(t2[k] == TileType::Floor || t2[k] == t0[k]);
                if i < rooms0.len() {
                    assert(r == rooms0[i]);
                    assert(m0.at(x, y) == TileType::Floor);
                } else {
                    assert(t1[k] == TileType::Floor);
                    assert(t2[k] == TileType::Floor || t2[k] == t1[k]);
                }
            }
            assert forall|i: int, j: int| 0 <= i < j < self.rooms.len() implies !(
            #[trigger] self.rooms[i]).overlaps(#[trigger] self.rooms[j]) by {
                assert(self.rooms[i] == rooms0[i]);
                if j < rooms0.len() {
                    assert(self.rooms[j] == rooms0[j]);
                } else {
                    crate::rect::lemma_overlap_symmetric(new_room, rooms0[i]);
                }
            }
            assert forall|i: int| 0 <= i < self.rooms.len() implies room_on_map(
                #[trigger] self.rooms[i],
            ) by {
                if i < rooms0.len() {
                    assert(self.rooms[i] == rooms0[i]);
                }
            }
        }
    }

    /// The level is what the rolls make of a fresh map: `MAX_ROOMS`
    /// attempts to place a room use up the rolls, the down stairs stand on
    /// the centre of the last room placed, and the centre of the first is
    /// the starting tile.
    pub open spec fn built_from(&self, rolls: Seq<int>) -> bool {
        let depth = self.spec_depth();
        let (rooms, tiles, used) = after_attempts(depth, rolls, MAX_ROOMS as int);
        let m = fresh_map(depth).with_tiles(tiles);
        let stairs = rooms.last().spec_center();
        &&& rolls.len() == used
        &&& rooms.len() >= 1
        &&& self.spec_rooms() == rooms
        &&& self.map_view() == m.with_tile(m.idx(stairs.0, stairs.1), TileType::DownStairs)
        &&& self.start() == rooms[0].spec_center()
    }

    /// Tries `MAX_ROOMS` times to place a room of random size at a random
    /// place, and places each that overlaps no room placed before; then
    /// puts the down stairs on the centre of the last room and makes the
    /// centre of the first room the starting tile.
    pub fn rooms_and_corridors(&mut self, dice: &mut Dice)
        requires
            old(self).wf(),
        ensures
            final(self).wf(),
            final(self).level_ready(),
            final(self).built_from(final(dice).drawn().skip(old(dice).drawn().len() as int)),
            final(self).spec_depth() == old(self).spec_depth(),
            old(self).history_view().len() <= final(self).history_view().len(),
            final(self).history_view().take(old(self).history_view().len() as int) == old(
                self,
            ).history_view(),
            old(dice).drawn().len() <= final(dice).drawn().len(),
            final(dice).drawn().take(old(dice).drawn().len() as int) == old(dice).drawn(),
    {
        let ghost h0 = self.state.history@;
        let ghost d0 = dice.drawn();
        self.state.map = TileMap::new(self.state.depth);
        self.rooms = Vec::new();
        let mut attempt: i32 = 0;
        let ghost depth = self.state.depth as int;
        proof {
            assert(self.state.history@.take(h0.len() as int) =~= h0);
            assert(dice.drawn().take(d0.len() as int) =~= d0);
            assert(dice.drawn().skip(d0.len() as int) =~= Seq::<int>::empty());
            assert(self.rooms@ =~= Seq::<Rect>::empty());
        }
        while attempt < MAX_ROOMS
            invariant
                depth == self.state.depth,
                self.state.map@ == fresh_map(depth).with_tiles(self.state.map.tiles@),
                after_attempts(depth, dice.drawn().skip(d0.len() as int), attempt as int) == (
                    self.rooms@,
                    self.state.map.tiles@,
                    dice.drawn().len() - d0.len(),
                ),
                self.ready(),
                self.rooms_dug(),
                self.joined(),
                only_walls_and_floors(self.state.map.tiles@),
                self.state.depth == old(self).state.depth,
                0 <= attempt <= MAX_ROOMS,
                attempt > 0 ==> self.rooms.len() >= 1,
                h0.len() <= self.state.history.len(),
                self.state.history@.take(h0.len() as int) == h0,
                d0.len() <= dice.drawn().len(),
                dice.drawn().take(d0.len() as int) == d0,
            decreases MAX_ROOMS - attempt,
        {
            let ghost h1 = self.state.history@;
            let ghost d1 = dice.drawn();
            let w = dice.range(MIN_SIZE, MAX_SIZE);
            let h = dice.range(MIN_SIZE, MAX_SIZE);
            let x = dice.roll(self.state.map.width - w - 1) - 1;
            let y = dice.roll(self.state.map.height - h - 1) - 1;
            let ghost d2 = dice.drawn();
            let ghost rooms1 = self.rooms@;
            let ghost tiles1 = self.state.map.tiles@;
            let new_room = Rect::new(x, y, w, h);
            proof {
                assert(d2 == d1.push(w as int).push(h as int).push(x + 1).push(y + 1));
            }
            let free = self.fits(&new_room);
            proof {
                assert(free == room_fits(rooms1, new_room)) by {
                    assert(self.spec_rooms() == rooms1);
                }
            }
            if free {
                proof {
                    assert forall|i: int| 0 <= i < self.rooms.len() implies !new_room.overlaps(
                        #[trigger] self.rooms[i],
                    ) by {
                        assert(self.spec_rooms()[i] == self.rooms[i]);
                    }
                }
                self.add_room(new_room, dice);
            }
            proof {
                assert(d2.take(d1.len() as int) =~= d1);
                assert(dice.drawn().take(d1.len() as int) =~= d2.take(d1.len() as int));
                assert(dice.drawn().take(d0.len() as int) =~= d1.take(d0.len() as int));
                assert(self.state.history@.take(h0.len() as int) =~= h1.take(h0.len() as int));
                let since1 = d1.skip(d0.len() as int);
                let since = dice.drawn().skip(d0.len() as int);
                let used = since1.len() as int;
                assert(since.take(since1.len() as int) =~= since1);
                lemma_attempts_prefix(depth, since1, since, attempt as int);
                assert(dice.drawn().take(d2.len() as int) == d2);
                assert(since[used] == d2[d1.len() as int]);
                assert(since[used + 1] == d2[d1.len() as int + 1]);
                assert(since[used + 2] == d2[d1.len() as int + 2]);
                assert(since[used + 3] == d2[d1.len() as int + 3]);
                assert(attempt_room(since, used) == new_room);
                if free && rooms1.len() > 0 {
                    assert(since[used + 4] == dice.drawn().last());
                }
            }
            attempt += 1;
        }
        let ghost tiles_done = self.state.map.tiles@;
        let last = self.rooms[self.rooms.len() - 1];
        let stairs_position = last.center();
        let stairs_idx = self.state.map.xy_idx(stairs_position.0, stairs_position.1);
        let ghost t0 = self.state.map.tiles@;
        let ghost mb = self.state.map@;
        self.state.map.tiles[stairs_idx] = TileType::DownStairs;
        let first = self.rooms[0];
        let (player_x, player_y) = first.center();
        self.state.starting_position = Position { x: player_x, y: player_y };
        proof {
            let m = self.state.map@;
            let stairs = last.spec_center();
            assert(room_on_map(last));
            lemma_idx_in_range(80, 43, stairs.0, stairs.1);
            crate::map_builders::cellular_automata::lemma_standard_idx(m, stairs.0, stairs.1);
            assert forall|i: int| 0 <= i < m.tiles.len() implies ((#[trigger] m.tiles[i])
                == TileType::DownStairs <==> i == m.idx(stairs.0, stairs.1)) by {
                assert(t0[i] == TileType::Wall || t0[i] == TileType::Floor);
            }
            assert forall|i: int| 0 <= i < m.tiles.len() implies (#[trigger] m.tiles[i])
                == TileType::Wall || m.tiles[i] == TileType::Floor || m.tiles[i]
                == TileType::DownStairs by {
                assert(t0[i] == TileType::Wall || t0[i] == TileType::Floor);
            }
            assert forall|i: int, x: int, y: int|
                0 <= i < self.rooms.len() && in_room(#[trigger] self.rooms[i], x, y) implies #[trigger] m.at(
                x,
                y,
            ) == TileType::Floor || (x, y) == stairs by {
                assert(room_on_map(self.rooms[i]));
                lemma_idx_in_range(80, 43, x, y);
                crate::map_builders::cellular_automata::lemma_standard_idx(m, x, y);
                crate::map_builders::cellular_automata::lemma_standard_idx(mb, x, y);
                assert(mb.at(x, y) == TileType::Floor);
                assert(t0[y * 80 + x] == TileType::Floor);
            }
            assert(views_of(self.state.history@).take(views_of(h0).len() as int) =~= views_of(h0));
            let s = first.spec_center();
            assert(mb.at(stairs.0, stairs.1) == TileType::Floor) by {
                lemma_center_in_room(last);
            }
            assert forall|i: int|
                0 <= i < mb.tiles.len() && mb.tiles[i] != TileType::Wall implies #[trigger] m.tiles[i]
                != TileType::Wall by {
            }
            assert forall|x: int, y: int|
                m.in_bounds(x, y) && #[trigger] m.at(x, y) != TileType::Wall implies connected(
                m,
                s,
                (x, y),
            ) by {
                lemma_idx_in_range(80, 43, x, y);
                lemma_standard_idx(m, x, y);
                lemma_standard_idx(mb, x, y);
                assert(mb.at(x, y) != TileType::Wall);
                lemma_connected_monotone(mb, m, s, (x, y));
            }
        }
    }
}

impl MapBuilder for SimpleMapBuilder {
    closed spec fn wf(&self) -> bool {
        self.ready()
    }

    closed spec fn map_view(&self) -> TileMapView {
        self.state.map@
    }

    closed spec fn start(&self) -> (int, int) {
        self.state.start()
    }

    closed spec fn history_view(&self) -> Seq<TileMapView> {
        views_of(self.state.history@)
    }

    closed spec fn level_ready(&self) -> bool {
        self.rooms_ready()
    }

    open spec fn made_from(&self, rolls: Seq<int>) -> bool {
        self.built_from(rolls)
    }

    fn build_map(&mut self) {
        let mut dice = Dice::new();
        self.rooms_and_corridors(&mut dice);
        proof {
            assert(self.made_from(dice.drawn().skip(0)));
        }
    }

    fn get_map(&mut self) -> (map: TileMap) {
        self.state.map.clone()
    }

    fn get_starting_position(&mut self) -> (position: Position) {
        self.state.starting_position
    }

    fn get_snapshot_history(&self) -> (history: Vec<TileMap>) {
        self.state.get_snapshot_history()
    }

    fn take_snapshot(&mut self) {
        self.state.take_snapshot();
    }
}

/// In a level of rooms and corridors every tile that is not a wall is
/// joined to the starting tile by a walk over tiles that are not walls; the
/// starting tile is the centre of the first room; exactly one tile holds
/// the down stairs, the centre of the last room; and no tile strictly
/// inside a room is a wall.
pub proof fn lemma_rooms_level(builder: SimpleMapBuilder)
    requires
        builder.level_ready(),
    ensures
        all_joined(builder.map_view(), builder.start()),
        exists|e: int| #[trigger] sole_stairs(builder.map_view().tiles, e),
        builder.map_view().wf(),
        builder.spec_rooms().len() >= 1,
        builder.start() == builder.spec_rooms()[0].spec_center(),
        sole_stairs(
            builder.map_view().tiles,
            builder.map_view().idx(
                builder.spec_rooms().last().spec_center().0,
                builder.spec_rooms().last().spec_center().1,
            ),
        ),
        forall|i: int, x: int, y: int|
            0 <= i < builder.spec_rooms().len() && in_room(#[trigger] builder.spec_rooms()[i], x, y)
                ==> #[trigger] builder.map_view().at(x, y) != TileType::Wall,
{
    let m = builder.state.map@;
    let stairs = builder.rooms[builder.rooms.len() - 1].spec_center();
    lemma_idx_in_range(m.width, m.height, stairs.0, stairs.1);
    let e = m.idx(stairs.0, stairs.1);
    assert(sole_stairs(m.tiles, e));
    assert(builder.map_view() == m);
    assert(sole_stairs(builder.map_view().tiles, e));
}

/// Two builders of rooms and corridors of one depth that were built from
/// the same rolls hold the same rooms and the same map.
pub proof fn lemma_rooms_deterministic(a: SimpleMapBuilder, b: SimpleMapBuilder, rolls: Seq<int>)
    requires
        a.built_from(rolls),
        b.built_from(rolls),
        a.spec_depth() == b.spec_depth(),
    ensures
        a.map_view() == b.map_view(),
        a.start() == b.start(),
        a.spec_rooms() == b.spec_rooms(),
{
}

} // verus!
