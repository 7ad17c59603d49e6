use vstd::prelude::*;
use crate::map::{lemma_idx_in_range, lemma_idx_to_coords, TileMap, TileMapView};

verus! {

/// Cost of a step to an orthogonal neighbour, in hundredths of a tile.
pub const STEP_COST: u32 = 100;

/// Cost of a step to a diagonal neighbour, in hundredths of a tile.
pub const DIAGONAL_COST: u32 = 145;

/// Walks that cost this much or more are not followed.
pub const DISTANCE_CAP: u32 = 20000;

/// The label of a tile that no walk below the cap arrives at.
pub const UNREACHED: u32 = 0xffff_ffff;

/// The column offset of the `k`-th of the eight directions.
pub open spec fn dir_dx(k: int) -> int {
    if k == 0 || k == 4 || k == 6 {
        -1
    } else if k == 1 || k == 5 || k == 7 {
        1
    } else {
        0
    }
}

/// The row offset of the `k`-th of the eight directions.
pub open spec fn dir_dy(k: int) -> int {
    if k == 2 || k == 4 || k == 5 {
        -1
    } else if k == 3 || k == 6 || k == 7 {
        1
    } else {
        0
    }
}

/// The cost of a step in the `k`-th direction: the first four directions are
/// orthogonal, the last four diagonal.
pub open spec fn dir_cost(k: int) -> int {
    if k < 4 {
        STEP_COST as int
    } else {
        DIAGONAL_COST as int
    }
}

/// The cost of stepping from tile `a` to tile `b`; zero when `b` is not one
/// of the eight neighbours of `a`.
pub open spec fn step_cost(a: (int, int), b: (int, int)) -> int {
    let dx = b.0 - a.0;
    let dy = b.1 - a.1;
    if -1 <= dx <= 1 && -1 <= dy <= 1 && (dx != 0 || dy != 0) {
        if dx == 0 || dy == 0 {
            STEP_COST as int
        } else {
            DIAGONAL_COST as int
        }
    } else {
        0
    }
}

/// A walker standing on `a` may step onto `b`.
pub open spec fn is_step(m: TileMapView, a: (int, int), b: (int, int)) -> bool {
    step_cost(a, b) > 0 && m.exit_valid(b.0, b.1)
}

/// The `k`-th link of `p` is a step.
pub open spec fn step_at(m: TileMapView, p: Seq<(int, int)>, k: int) -> bool {
    is_step(m, p[k], p[k + 1])
}

/// `p` lists the tiles of a walk: the tile it sets out from, and then the
/// tile that each of its steps leads to. A walk may have no step at all.
pub open spec fn is_walk(m: TileMapView, p: Seq<(int, int)>) -> bool {
    &&& p.len() >= 1
    &&& forall|k: int| 0 <= k < p.len() - 1 ==> #[trigger] step_at(m, p, k)
}

/// The summed cost of the steps of `p`.
pub open spec fn walk_cost(p: Seq<(int, int)>) -> int
    decreases p.len(),
{
    if p.len() < 2 {
        0
    } else {
        walk_cost(p.drop_last()) + step_cost(p[p.len() - 2], p[p.len() - 1])
    }
}

/// `p` is a walk from `start` to `goal` that costs `c`.
pub open spec fn walk_from_to(
    m: TileMapView,
    p: Seq<(int, int)>,
    start: (int, int),
    goal: (int, int),
    c: int,
) -> bool {
    &&& is_walk(m, p)
    &&& p.first() == start
    &&& p.last() == goal
    &&& walk_cost(p) == c
}

/// Some walk leads from `start` to `goal` at cost `c`. The walk without a
/// step leads from `start` to `start` at no cost.
pub open spec fn reaches(m: TileMapView, start: (int, int), goal: (int, int), c: int) -> bool {
    exists|p: Seq<(int, int)>| #[trigger] walk_from_to(m, p, start, goal, c)
}

/// The label `l` says exactly how far the tile `(x, y)` is from `start`:
/// the cost of the cheapest walk when that is below the cap, and
/// `UNREACHED` when no walk below the cap exists.
pub open spec fn label_exact(m: TileMapView, start: (int, int), l: u32, x: int, y: int) -> bool {
    if l == UNREACHED {
        forall|c: int| #[trigger] reaches(m, start, (x, y), c) ==> c >= DISTANCE_CAP
    } else {
        &&& l < DISTANCE_CAP
        &&& reaches(m, start, (x, y), l as int)
        &&& forall|c: int| #[trigger] reaches(m, start, (x, y), c) ==> l <= c
    }
}

/// `d` holds the exact label of every tile of the grid.
pub open spec fn field_exact(m: TileMapView, start: (int, int), d: Seq<u32>) -> bool {
    &&& d.len() == m.width * m.height
    &&& forall|x: int, y: int|
        m.in_bounds(x, y) ==> label_exact(m, start, #[trigger] d[m.idx(x, y)], x, y)
}

/// The distance labels of a grid: the one sequence that is exact for it.
pub open spec fn distance_field(m: TileMapView, start: (int, int)) -> Seq<u32> {
    choose|d: Seq<u32>| field_exact(m, start, d)
}

/// Every label is either `UNREACHED` or below the cap.
pub open spec fn labels_bounded(d: Seq<u32>) -> bool {
    forall|i: int| 0 <= i < d.len() ==> #[trigger] d[i] == UNREACHED || d[i] < DISTANCE_CAP
}

/// Every finite label is the cost of some walk from `start`.
pub open spec fn labels_witnessed(m: TileMapView, start: (int, int), d: Seq<u32>) -> bool {
    forall|x: int, y: int|
        m.in_bounds(x, y) && #[trigger] d[m.idx(x, y)] != UNREACHED ==> reaches(
            m,
            start,
            (x, y),
            d[m.idx(x, y)] as int,
        )
}

/// The depth from which the steps out of `a` are counted: the label of
/// `a`, and `-1` where the tile has no label yet.
pub open spec fn source_depth(m: TileMapView, d: Seq<u32>, a: (int, int)) -> int {
    if m.in_bounds(a.0, a.1) && d[m.idx(a.0, a.1)] != UNREACHED {
        d[m.idx(a.0, a.1)] as int
    } else {
        -1
    }
}

/// The step from `a` in direction `k`, counted from depth `s`, would not
/// lower the label of the tile it leads to.
pub open spec fn relaxed(m: TileMapView, d: Seq<u32>, s: int, a: (int, int), k: int) -> bool {
    let bx = a.0 + dir_dx(k);
    let by = a.1 + dir_dy(k);
    m.exit_valid(bx, by) && s + dir_cost(k) < DISTANCE_CAP ==> d[m.idx(bx, by)] != UNREACHED
        && d[m.idx(bx, by)] <= s + dir_cost(k)
}

/// No step out of `a` would lower a label.
pub open spec fn settled_at(m: TileMapView, d: Seq<u32>, a: (int, int)) -> bool {
    let s = source_depth(m, d, a);
    s >= 0 ==> forall|k: int| 0 <= k < 8 ==> #[trigger] relaxed(m, d, s, a, k)
}

/// No step out of any tile of the grid would lower a label.
pub open spec fn settled(m: TileMapView, d: Seq<u32>) -> bool {
    forall|x: int, y: int| m.in_bounds(x, y) ==> #[trigger] settled_at(m, d, (x, y))
}

/// The weight of a label for the termination argument: an unreached tile
/// weighs as much as the cap.
pub open spec fn label_weight(l: u32) -> nat {
    if l == UNREACHED {
        DISTANCE_CAP as nat
    } else {
        l as nat
    }
}

/// The summed weight of the labels.
pub open spec fn field_weight(d: Seq<u32>) -> nat
    decreases d.len(),
{
    if d.len() == 0 {
        0
    } else {
        field_weight(d.drop_last()) + label_weight(d.last())
    }
}

/// Lowering one label lowers the weight of the field by as much.
pub proof fn lemma_weight_update(d: Seq<u32>, i: int, l: u32)
    requires
        0 <= i < d.len(),
    ensures
        field_weight(d.update(i, l)) + label_weight(d[i]) == field_weight(d) + label_weight(l),
    decreases d.len(),
{
    let e = d.update(i, l);
    if i == d.len() - 1 {
        assert(e.drop_last() =~= d.drop_last());
    } else {
        lemma_weight_update(d.drop_last(), i, l);
        assert(e.drop_last() =~= d.drop_last().update(i, l));
    }
}

/// A step in one of the eight directions is a step of that direction's cost,
/// and every step is a step in one of the eight directions.
pub proof fn lemma_step_direction(a: (int, int), b: (int, int))
    requires
        step_cost(a, b) > 0,
    ensures
        exists|k: int|
            0 <= k < 8 && b == (a.0 + #[trigger] dir_dx(k), a.1 + dir_dy(k)) && step_cost(a, b)
                == dir_cost(k),
{
    let dx = b.0 - a.0;
    let dy = b.1 - a.1;
    let k: int = if dy == 0 {
        if dx == -1 {
            0
        } else {
            1
        }
    } else if dx == 0 {
        if dy == -1 {
            2
        } else {
            3
        }
    } else if dy == -1 {
        if dx == -1 {
            4
        } else {
            5
        }
    } else {
        if dx == -1 {
            6
        } else {
            7
        }
    };
    assert(0 <= k < 8 && b == (a.0 + dir_dx(k), a.1 + dir_dy(k)) && step_cost(a, b) == dir_cost(k));
}

/// The walk without a step leads from a tile to itself at no cost.
pub proof fn lemma_walk_none(m: TileMapView, a: (int, int))
    ensures
        walk_from_to(m, seq![a], a, a, 0),
        reaches(m, a, a, 0),
{
    let p = seq![a];
    assert(p.len() == 1);
    assert(walk_from_to(m, p, a, a, 0));
}

/// A walk to another tile than the one it sets out from has a step, and
/// costs at least one.
pub proof fn lemma_walk_away(m: TileMapView, p: Seq<(int, int)>)
    requires
        is_walk(m, p),
        p.first() != p.last(),
    ensures
        p.len() >= 2,
        walk_cost(p) >= STEP_COST,
{
    lemma_walk_prefix(m, p);
}

/// A single step is a walk.
pub proof fn lemma_walk_single(m: TileMapView, a: (int, int), b: (int, int))
    requires
        is_step(m, a, b),
    ensures
        walk_from_to(m, seq![a, b], a, b, step_cost(a, b)),
{
    let p = seq![a, b];
    assert forall|k: int| 0 <= k < p.len() - 1 implies #[trigger] step_at(m, p, k) by {
        assert(p[0] == a && p[1] == b);
    }
    assert(p.drop_last().len() == 1);
    assert(walk_cost(p.drop_last()) == 0);
}

/// A walk followed by one more step is a walk, and costs that step more.
pub proof fn lemma_walk_extend(
    m: TileMapView,
    p: Seq<(int, int)>,
    start: (int, int),
    a: (int, int),
    c: int,
    b: (int, int),
)
    requires
        walk_from_to(m, p, start, a, c),
        is_step(m, a, b),
    ensures
        walk_from_to(m, p.push(b), start, b, c + step_cost(a, b)),
{
    let q = p.push(b);
    assert forall|k: int| 0 <= k < q.len() - 1 implies #[trigger] step_at(m, q, k) by {
        if k < p.len() - 1 {
            assert(step_at(m, p, k));
            assert(q[k] == p[k] && q[k + 1] == p[k + 1]);
        } else {
            assert(q[k] == a && q[k + 1] == b);
        }
    }
    assert(q.drop_last() =~= p);
}

/// The cost of a walk with a step is positive, and the walk costs more
/// than the walk without its last step, which is a walk too.
pub proof fn lemma_walk_prefix(m: TileMapView, p: Seq<(int, int)>)
    requires
        is_walk(m, p),
        p.len() >= 2,
    ensures
        walk_cost(p) >= STEP_COST,
        is_walk(m, p.drop_last()),
        0 <= walk_cost(p.drop_last()) < walk_cost(p),
        is_step(m, p[p.len() - 2], p[p.len() - 1]),
    decreases p.len(),
{
    let q = p.drop_last();
    assert(step_at(m, p, p.len() - 2));
    assert forall|k: int| 0 <= k < q.len() - 1 implies #[trigger] step_at(m, q, k) by {
        assert(step_at(m, p, k));
    }
    if p.len() > 2 {
        lemma_walk_prefix(m, q);
    } else {
        assert(walk_cost(q) == 0);
    }
}

/// The first `k` tiles of a walk are a walk too, and cost no more.
pub proof fn lemma_walk_take(m: TileMapView, p: Seq<(int, int)>, k: int)
    requires
        is_walk(m, p),
        1 <= k <= p.len(),
    ensures
        is_walk(m, p.take(k)),
        walk_cost(p.take(k)) <= walk_cost(p),
        p.take(k).first() == p.first(),
    decreases p.len() - k,
{
    if k == p.len() {
        assert(p.take(k) =~= p);
    } else {
        lemma_walk_prefix(m, p);
        lemma_walk_take(m, p.drop_last(), k);
        assert(p.drop_last().take(k) =~= p.take(k));
    }
}

/// A walk stays a walk when tiles are unblocked.
pub proof fn lemma_walk_monotone(m1: TileMapView, m2: TileMapView, p: Seq<(int, int)>)
    requires
        is_walk(m1, p),
        m1.width == m2.width,
        m1.height == m2.height,
        forall|k: int|
            1 <= k < p.len() ==> !#[trigger] m2.blocked[m2.idx(p[k].0, p[k].1)],
    ensures
        is_walk(m2, p),
{
    assert forall|k: int| 0 <= k < p.len() - 1 implies #[trigger] step_at(m2, p, k) by {
        assert(step_at(m1, p, k));
        assert(!m2.blocked[m2.idx(p[k + 1].0, p[k + 1].1)]);
    }
}

/// Some walk leads from `start` to `goal` over tiles that are not walls.
/// The start is joined to itself by the walk without a step.
pub open spec fn connected(m: TileMapView, start: (int, int), goal: (int, int)) -> bool {
    exists|c: int| #[trigger] reaches(m.with_walls_blocked(), start, goal, c)
}

/// Whether a walker may stand on `(x, y)`: the tile lies off the first row
/// and column of the map and is not a wall.
pub open spec fn walkable(m: TileMapView, x: int, y: int) -> bool {
    &&& 1 <= x <= m.width - 1
    &&& 1 <= y <= m.height - 1
    &&& m.tiles[m.idx(x, y)] != crate::map::TileType::Wall
}

/// What is joined to the start, or the start itself, joins the walkable
/// tiles next to it.
pub proof fn lemma_connected_step(m: TileMapView, s: (int, int), a: (int, int), b: (int, int))
    requires
        m.wf(),
        connected(m, s, a) || a == s,
        walkable(m, b.0, b.1),
        step_cost(a, b) > 0,
    ensures
        connected(m, s, b),
{
    let g = m.with_walls_blocked();
    lemma_idx_in_range(m.width, m.height, b.0, b.1);
    assert(is_step(g, a, b));
    if a == s {
        lemma_walk_single(g, a, b);
        assert(reaches(g, s, b, step_cost(a, b)));
    } else {
        let c = choose|c: int| #[trigger] reaches(g, s, a, c);
        let p = choose|p: Seq<(int, int)>| #[trigger] walk_from_to(g, p, s, a, c);
        lemma_walk_extend(g, p, s, a, c, b);
        assert(reaches(g, s, b, c + step_cost(a, b)));
    }
}

/// What is joined to the start stays joined when walls are dug away.
pub proof fn lemma_connected_monotone(m1: TileMapView, m2: TileMapView, s: (int, int), p: (int, int))
    requires
        m1.wf(),
        m2.wf(),
        m1.width == m2.width,
        m1.height == m2.height,
        forall|i: int|
            0 <= i < m1.tiles.len() && m1.tiles[i] != crate::map::TileType::Wall
                ==> #[trigger] m2.tiles[i] != crate::map::TileType::Wall,
        connected(m1, s, p),
    ensures
        connected(m2, s, p),
{
    let g = m1.with_walls_blocked();
    let f = m2.with_walls_blocked();
    let c = choose|c: int| #[trigger] reaches(g, s, p, c);
    let w = choose|w: Seq<(int, int)>| #[trigger] walk_from_to(g, w, s, p, c);
    assert forall|k: int| 1 <= k < w.len() implies !#[trigger] f.blocked[f.idx(w[k].0, w[k].1)] by {
        let q = w.take(k + 1);
        lemma_walk_take(g, w, k + 1);
        lemma_walk_ends_valid(g, q);
        assert(q.last() == w[k]);
        lemma_idx_in_range(g.width, g.height, w[k].0, w[k].1);
        assert(m1.tiles[g.idx(w[k].0, w[k].1)] != crate::map::TileType::Wall);
        assert(m2.tiles[g.idx(w[k].0, w[k].1)] != crate::map::TileType::Wall);
    }
    lemma_walk_monotone(g, f, w);
    assert(walk_from_to(f, w, s, p, c));
    assert(reaches(f, s, p, c));
}

/// Whether `v` lies between `a` and `b`, both included, whichever of the
/// two is the smaller.
pub open spec fn between(a: int, b: int, v: int) -> bool {
    (a <= v <= b) || (b <= v <= a)
}

/// Along a row of walkable tiles, what is joined to the start at one end,
/// or is the start, joins every other tile of the row.
pub proof fn lemma_connected_along_row(m: TileMapView, s: (int, int), y: int, x0: int, x1: int)
    requires
        m.wf(),
        connected(m, s, (x0, y)) || (x0, y) == s,
        forall|x: int| between(x0, x1, x) ==> #[trigger] walkable(m, x, y),
    ensures
        x1 != x0 ==> connected(m, s, (x1, y)),
    decreases
        if x1 >= x0 { x1 - x0 } else { x0 - x1 },
{
    if x1 != x0 {
        let xp = if x1 > x0 {
            x1 - 1
        } else {
            x1 + 1
        };
        assert forall|x: int| between(x0, xp, x) implies #[trigger] walkable(m, x, y) by {
            assert(between(x0, x1, x));
        }
        lemma_connected_along_row(m, s, y, x0, xp);
        assert(between(x0, x1, x1));
        assert(walkable(m, x1, y));
        lemma_connected_step(m, s, (xp, y), (x1, y));
    }
}

/// Along a column of walkable tiles, what is joined to the start at one
/// end, or is the start, joins every other tile of the column.
pub proof fn lemma_connected_along_column(m: TileMapView, s: (int, int), x: int, y0: int, y1: int)
    requires
        m.wf(),
        connected(m, s, (x, y0)) || (x, y0) == s,
        forall|y: int| between(y0, y1, y) ==> #[trigger] walkable(m, x, y),
    ensures
        y1 != y0 ==> connected(m, s, (x, y1)),
    decreases
        if y1 >= y0 { y1 - y0 } else { y0 - y1 },
{
    if y1 != y0 {
        let yp = if y1 > y0 {
            y1 - 1
        } else {
            y1 + 1
        };
        assert forall|y: int| between(y0, yp, y) implies #[trigger] walkable(m, x, y) by {
            assert(between(y0, y1, y));
        }
        lemma_connected_along_column(m, s, x, y0, yp);
        assert(between(y0, y1, y1));
        assert(walkable(m, x, y1));
        lemma_connected_step(m, s, (x, yp), (x, y1));
    }
}

/// Every tile that a walk arrives at admits a step onto it.
pub proof fn lemma_walk_ends_valid(m: TileMapView, p: Seq<(int, int)>)
    requires
        is_walk(m, p),
        p.len() >= 2,
    ensures
        m.exit_valid(p.last().0, p.last().1),
{
    assert(step_at(m, p, p.len() - 2));
}

/// Where no step would lower a label and the start has the label zero, no
/// walk below the cap is cheaper than the label of the tile it arrives at.
pub proof fn lemma_settled_lower_bound(
    m: TileMapView,
    start: (int, int),
    d: Seq<u32>,
    p: Seq<(int, int)>,
)
    requires
        m.wf(),
        d.len() == m.width * m.height,
        settled(m, d),
        m.in_bounds(start.0, start.1),
        d[m.idx(start.0, start.1)] == 0,
        is_walk(m, p),
        p.first() == start,
        walk_cost(p) < DISTANCE_CAP,
    ensures
        m.in_bounds(p.last().0, p.last().1),
        d[m.idx(p.last().0, p.last().1)] != UNREACHED,
        d[m.idx(p.last().0, p.last().1)] <= walk_cost(p),
    decreases p.len(),
{
    if p.len() >= 2 {
        lemma_walk_prefix(m, p);
        let b = p.last();
        let a = p[p.len() - 2];
        let q = p.drop_last();
        lemma_settled_lower_bound(m, start, d, q);
        assert(q.last() == a);
        let s = source_depth(m, d, a);
        assert(0 <= s <= walk_cost(q));
        assert(settled_at(m, d, a));
        lemma_step_direction(a, b);
        let k = choose|k: int|
            0 <= k < 8 && b == (a.0 + #[trigger] dir_dx(k), a.1 + dir_dy(k)) && step_cost(a, b)
                == dir_cost(k);
        assert(relaxed(m, d, s, a, k));
    }
}

/// Labels that are witnessed by walks and that no step would lower are exact.
pub proof fn lemma_settled_exact(m: TileMapView, start: (int, int), d: Seq<u32>)
    requires
        m.wf(),
        d.len() == m.width * m.height,
        m.in_bounds(start.0, start.1),
        labels_bounded(d),
        labels_witnessed(m, start, d),
        d[m.idx(start.0, start.1)] == 0,
        settled(m, d),
    ensures
        field_exact(m, start, d),
{
    assert forall|x: int, y: int| m.in_bounds(x, y) implies label_exact(
        m,
        start,
        #[trigger] d[m.idx(x, y)],
        x,
        y,
    ) by {
        lemma_idx_in_range(m.width, m.height, x, y);
        let l = d[m.idx(x, y)];
        assert forall|c: int| #[trigger] reaches(m, start, (x, y), c) && c < DISTANCE_CAP implies l
            != UNREACHED && l <= c by {
            let p = choose|p: Seq<(int, int)>| #[trigger] walk_from_to(m, p, start, (x, y), c);
            lemma_settled_lower_bound(m, start, d, p);
        }
    }
}

/// A grid has at most one exact field of labels.
pub proof fn lemma_field_unique(m: TileMapView, start: (int, int), d1: Seq<u32>, d2: Seq<u32>)
    requires
        m.wf(),
        field_exact(m, start, d1),
        field_exact(m, start, d2),
    ensures
        d1 == d2,
{
    assert forall|i: int| 0 <= i < d1.len() implies d1[i] == d2[i] by {
        lemma_idx_to_coords(m.width, m.height, i);
        let x = i % m.width;
        let y = i / m.width;
        assert(m.idx(x, y) == i);
        assert(label_exact(m, start, d1[m.idx(x, y)], x, y));
        assert(label_exact(m, start, d2[m.idx(x, y)], x, y));
    }
    assert(d1 =~= d2);
}

/// An exact field is the distance field of its grid.
pub proof fn lemma_field_is_distance_field(m: TileMapView, start: (int, int), d: Seq<u32>)
    requires
        m.wf(),
        field_exact(m, start, d),
    ensures
        d == distance_field(m, start),
{
    lemma_field_unique(m, start, d, distance_field(m, start));
}

/// The column offset of direction `k`.
pub fn direction_dx(k: u8) -> (dx: i32)
    requires
        k < 8,
    ensures
        dx == dir_dx(k as int),
{
    if k == 0 || k == 4 || k == 6 {
        -1
    } else if k == 1 || k == 5 || k == 7 {
        1
    } else {
        0
    }
}

/// The row offset of direction `k`.
pub fn direction_dy(k: u8) -> (dy: i32)
    requires
        k < 8,
    ensures
        dy == dir_dy(k as int),
{
    if k == 2 || k == 4 || k == 5 {
        -1
    } else if k == 3 || k == 6 || k == 7 {
        1
    } else {
        0
    }
}

/// Lowers the label of the neighbour of `(ax, ay)` in direction `k` to
/// `depth` plus the cost of the step, where the neighbour admits a step,
/// the sum is below the cap and below the label that the neighbour has.
/// Leaves the labels alone otherwise. Returns whether it lowered a label.
fn relax(map: &TileMap, dist: &mut Vec<u32>, depth: u32, ax: i32, ay: i32, k: u8) -> (improved:
    bool)
    requires
        map.wf(),
        old(dist).len() == map.tiles.len(),
        depth < DISTANCE_CAP,
        map@.in_bounds(ax as int, ay as int),
        k < 8,
    ensures
        final(dist).len() == old(dist).len(),
        !improved ==> final(dist)@ == old(dist)@ && relaxed(
            map@,
            old(dist)@,
            depth as int,
            (ax as int, ay as int),
            k as int,
        ),
        improved ==> ({
            let bx = ax + dir_dx(k as int);
            let by = ay + dir_dy(k as int);
            let i = map@.idx(bx, by);
            &&& map@.exit_valid(bx, by)
            &&& 0 <= i < old(dist).len()
            &&& depth + dir_cost(k as int) < DISTANCE_CAP
            &&& depth + dir_cost(k as int) < old(dist)[i]
            &&& final(dist)@ == old(dist)@.update(i, (depth + dir_cost(k as int)) as u32)
        }),
{
    let bx = ax + direction_dx(k);
    let by = ay + direction_dy(k);
    if !map.is_exit_valid(bx, by) {
        return false;
    }
    let cost = if k < 4 {
        STEP_COST
    } else {
        DIAGONAL_COST
    };
    let reached = depth + cost;
    let i = map.xy_idx(bx, by);
    if reached >= DISTANCE_CAP || reached >= dist[i] {
        return false;
    }
    dist[i] = reached;
    true
}

/// What a sweep over the grid keeps true of the labels.
pub open spec fn sweep_inv(m: TileMapView, start: (int, int), d: Seq<u32>) -> bool {
    &&& d.len() == m.width * m.height
    &&& labels_bounded(d)
    &&& labels_witnessed(m, start, d)
    &&& d[m.idx(start.0, start.1)] == 0
}

/// Lowering the label of the tile that a step from `a` leads to, to the
/// label of `a` plus the cost of the step, keeps every label witnessed and
/// the label of the start at zero.
proof fn lemma_relax_keeps_inv(
    m: TileMapView,
    start: (int, int),
    d: Seq<u32>,
    a: (int, int),
    k: int,
)
    requires
        m.wf(),
        sweep_inv(m, start, d),
        m.in_bounds(start.0, start.1),
        m.in_bounds(a.0, a.1),
        0 <= k < 8,
        source_depth(m, d, a) >= 0,
        m.exit_valid(a.0 + dir_dx(k), a.1 + dir_dy(k)),
        source_depth(m, d, a) + dir_cost(k) < DISTANCE_CAP,
        source_depth(m, d, a) + dir_cost(k) < d[m.idx(a.0 + dir_dx(k), a.1 + dir_dy(k))],
    ensures
        sweep_inv(
            m,
            start,
            d.update(
                m.idx(a.0 + dir_dx(k), a.1 + dir_dy(k)),
                (source_depth(m, d, a) + dir_cost(k)) as u32,
            ),
        ),
{
    let b = (a.0 + dir_dx(k), a.1 + dir_dy(k));
    let s = source_depth(m, d, a);
    let l = (s + dir_cost(k)) as u32;
    let i = m.idx(b.0, b.1);
    let e = d.update(i, l);
    lemma_idx_in_range(m.width, m.height, b.0, b.1);
    lemma_idx_in_range(m.width, m.height, start.0, start.1);
    assert(step_cost(a, b) == dir_cost(k));
    assert(is_step(m, a, b));
    assert(reaches(m, start, b, l as int)) by {
        lemma_idx_in_range(m.width, m.height, a.0, a.1);
        assert(d[m.idx(a.0, a.1)] != UNREACHED);
        let p = choose|p: Seq<(int, int)>| #[trigger] walk_from_to(m, p, start, a, s);
        lemma_walk_extend(m, p, start, a, s, b);
    }
    assert forall|x: int, y: int|
        m.in_bounds(x, y) && #[trigger] e[m.idx(x, y)] != UNREACHED implies reaches(
        m,
        start,
        (x, y),
        e[m.idx(x, y)] as int,
    ) by {
        lemma_idx_in_range(m.width, m.height, x, y);
        if m.idx(x, y) == i {
            assert(x == b.0 && y == b.1);
        } else {
            assert(d[m.idx(x, y)] != UNREACHED);
        }
    }
}

/// One pass over all tiles in index order, lowering labels along every step.
/// Returns whether any label was lowered.
fn sweep(map: &TileMap, dist: &mut Vec<u32>, Ghost(start): Ghost<(int, int)>) -> (changed: bool)
    requires
        map.wf(),
        map@.in_bounds(start.0, start.1),
        sweep_inv(map@, start, old(dist)@),
    ensures
        sweep_inv(map@, start, final(dist)@),
        changed ==> field_weight(final(dist)@) < field_weight(old(dist)@),
        !changed ==> final(dist)@ == old(dist)@ && settled(map@, old(dist)@),
{
    let ghost m = map@;
    let ghost d0 = dist@;
    let mut changed = false;
    let mut y: i32 = 0;
    while y < map.height
        invariant
            map.wf(),
            m == map@,
            m.in_bounds(start.0, start.1),
            0 <= y <= map.height,
            sweep_inv(m, start, dist@),
            changed ==> field_weight(dist@) < field_weight(d0),
            !changed ==> dist@ == d0,
            !changed ==> forall|x1: int, y1: int|
                0 <= x1 < m.width && 0 <= y1 < y ==> #[trigger] settled_at(m, d0, (x1, y1)),
        decreases map.height - y,
    {
        let mut x: i32 = 0;
        while x < map.width
            invariant
                map.wf(),
                m == map@,
                m.in_bounds(start.0, start.1),
                0 <= y < map.height,
                0 <= x <= map.width,
                sweep_inv(m, start, dist@),
                changed ==> field_weight(dist@) < field_weight(d0),
                !changed ==> dist@ == d0,
                !changed ==> forall|x1: int, y1: int|
                    0 <= x1 < m.width && 0 <= y1 < y ==> #[trigger] settled_at(m, d0,
                        (x1, y1),
                    ),
                !changed ==> forall|x1: int| 0 <= x1 < x ==> #[trigger] settled_at(m, d0, (x1, y as int)),
            decreases map.width - x,
        {
            let i = map.xy_idx(x, y);
            let depth = dist[i];
            if depth != UNREACHED {
                let ghost a = (x as int, y as int);
                assert(labels_bounded(dist@));
                assert(depth as int == source_depth(m, dist@, a));
                let mut k: u8 = 0;
                while k < 8
                    invariant
                        map.wf(),
                        m == map@,
                        m.in_bounds(start.0, start.1),
                        m.in_bounds(x as int, y as int),
                        a == (x as int, y as int),
                        0 <= k <= 8,
                        depth < DISTANCE_CAP,
                        sweep_inv(m, start, dist@),
                        changed ==> field_weight(dist@) < field_weight(d0),
                        !changed ==> dist@ == d0,
                        depth as int == source_depth(m, dist@, a),
                        !changed ==> forall|k1: int|
                            0 <= k1 < k ==> #[trigger] relaxed(m, d0, depth as int, a, k1),
                        !changed ==> forall|x1: int, y1: int|
                            0 <= x1 < m.width && 0 <= y1 < y ==> #[trigger] settled_at(m, d0,
                                (x1, y1),
                            ),
                        !changed ==> forall|x1: int|
                            0 <= x1 < x ==> #[trigger] settled_at(m, d0, (x1, y as int)),
                    decreases 8 - k,
                {
                    let ghost before = dist@;
                    let improved = relax(map, dist, depth, x, y, k);
                    if improved {
                        proof {
                            let bx = x + dir_dx(k as int);
                            let by = y + dir_dy(k as int);
                            let j = m.idx(bx, by);
                            lemma_weight_update(before, j, (depth + dir_cost(k as int)) as u32);
                            lemma_relax_keeps_inv(m, start, before, a, k as int);
                            lemma_idx_in_range(m.width, m.height, x as int, y as int);
                            lemma_idx_in_range(m.width, m.height, bx, by);
                        }
                        changed = true;
                    }
                    k += 1;
                }
                assert(!changed ==> settled_at(m, d0, a));
            } else {
                assert(source_depth(m, dist@, (x as int, y as int)) == -1);
            }
            x += 1;
        }
        y += 1;
    }
    changed
}

/// The tile that the index `i` names, as column and row.
pub open spec fn point_of(m: TileMapView, i: int) -> (int, int) {
    (i % m.width, i / m.width)
}

/// `n` labels, all `UNREACHED`.
fn unreached_labels(n: usize) -> (r: Vec<u32>)
    ensures
        r.len() == n,
        forall|i: int| 0 <= i < n ==> r[i] == UNREACHED,
{
    let mut r: Vec<u32> = Vec::new();
    let mut i: usize = 0;
    while i < n
        invariant
            i <= n,
            r.len() == i,
            forall|k: int| 0 <= k < i ==> r[k] == UNREACHED,
        decreases n - i,
    {
        r.push(UNREACHED);
        i += 1;
    }
    r
}

/// The distance of every tile from the tile at `start_idx`: for each tile
/// the cost of the cheapest walk that leads to it over tiles that admit a
/// step, where that cost is below the cap, and `UNREACHED` elsewhere. The
/// tile at `start_idx` itself is at distance zero.
pub fn flood_distances(map: &TileMap, start_idx: usize) -> (dist: Vec<u32>)
    requires
        map.wf(),
        start_idx < map.tiles.len(),
    ensures
        dist@ == distance_field(map@, point_of(map@, start_idx as int)),
        field_exact(map@, point_of(map@, start_idx as int), dist@),
{
    proof {
        lemma_idx_to_coords(map@.width, map@.height, start_idx as int);
    }
    let ghost start = point_of(map@, start_idx as int);
    let mut dist = unreached_labels(map.tiles.len());
    dist[start_idx] = 0;
    let mut changed = true;
    proof {
        lemma_walk_none(map@, start);
        assert(map@.idx(start.0, start.1) == start_idx);
        assert forall|x: int, y: int|
            map@.in_bounds(x, y) && #[trigger] dist@[map@.idx(x, y)] != UNREACHED implies (x, y)
            == start by {
            lemma_idx_in_range(map@.width, map@.height, x, y);
            lemma_idx_to_coords(map@.width, map@.height, map@.idx(x, y));
        }
    }
    while changed
        invariant
            map.wf(),
            map@.in_bounds(start.0, start.1),
            sweep_inv(map@, start, dist@),
            !changed ==> settled(map@, dist@),
        decreases
            field_weight(dist@),
            if changed { 1int } else { 0int },
    {
        changed = sweep(map, &mut dist, Ghost(start));
    }
    proof {
        lemma_settled_exact(map@, start, dist@);
        lemma_field_is_distance_field(map@, start, dist@);
    }
    dist
}

} // verus!
