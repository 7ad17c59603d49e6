use vstd::prelude::*;
use crate::dice::{extends, lemma_extends_trans, Dice};
use crate::map::{
    count_tiles, fresh_map, lemma_count_bound, lemma_count_none, lemma_count_update,
    lemma_idx_in_range, Position, TileMap, TileMapView, TileType, MAP_HEIGHT, MAP_WIDTH,
};
use crate::map_builders::common::{
    finishes, floor_target, is_finished_level, lemma_finished_level_start,
    lemma_finished_level_start_floor,
    lemma_painted_walls_and_floors, only_walls_and_floors, paint, painted, stagger, staggered,
    start_is_open, Symmetry,
};
use crate::map_builders::{views_of, BuilderState, MapBuilder};
use crate::pathing::point_of;

verus! {

/// How the walkers of diffusion-limited aggregation move.
#[derive(PartialEq, Eq, Structural, Copy, Clone, Debug)]
pub enum DLAAlgorithm {
    /// A walker starts anywhere and stumbles about until it steps on a floor
    /// tile; the tile it came from is painted.
    WalkInwards,
    /// A walker starts at the centre and stumbles about until it steps off
    /// the floor; the tile it stepped on is painted.
    WalkOutwards,
    /// A walker starts anywhere and walks a straight line toward the centre
    /// until it steps off the walls; the tile it came from is painted.
    CentralAttractor,
}

/// The most walkers that one build sends out.
pub const WALKER_LIMIT: u32 = 1_000_000;

/// The most steps that one stumbling walker takes.
pub const WALK_LIMIT: u32 = 1_000_000;

/// Largest magnitude of a coordinate between which a line is drawn.
pub const LINE_COORD_LIMIT: i32 = 0x4000;

/// The tiles of the line that `rltk` draws from `(x0, y0)` to `(x1, y1)`
/// by Bresenham's algorithm, in the order in which it lists them.
pub uninterp spec fn bresenham_line(x0: int, y0: int, x1: int, y1: int) -> Seq<(int, int)>;

/// A list of tiles as a sequence of pairs of integers.
pub open spec fn path_view(path: Seq<(i32, i32)>) -> Seq<(int, int)> {
    Seq::new(path.len(), |i: int| (path[i].0 as int, path[i].1 as int))
}

/// `rltk::line2d` with `LineAlg::Bresenham`: the tiles of the line from the
/// first point to the second. The list is not empty and ends with the
/// second point, which the function appends to what its line iterator gives.
#[verifier::external_body]
fn line_to(x0: i32, y0: i32, x1: i32, y1: i32) -> (path: Vec<(i32, i32)>)
    requires
        -LINE_COORD_LIMIT <= x0 <= LINE_COORD_LIMIT,
        -LINE_COORD_LIMIT <= y0 <= LINE_COORD_LIMIT,
        -LINE_COORD_LIMIT <= x1 <= LINE_COORD_LIMIT,
        -LINE_COORD_LIMIT <= y1 <= LINE_COORD_LIMIT,
    ensures
        path_view(path@) == bresenham_line(x0 as int, y0 as int, x1 as int, y1 as int),
        path.len() >= 1,
        path[path.len() - 1] == (x1, y1),
{
    let line = rltk::line2d(
        rltk::LineAlg::Bresenham,
        rltk::Point::new(x0, y0),
        rltk::Point::new(x1, y1),
    );
    line.iter().map(|p| (p.x, p.y)).collect()
}

/// Whether a line may be drawn between the two points: every coordinate is
/// within `LINE_COORD_LIMIT` of zero.
pub open spec fn line_in_limits(x0: int, y0: int, x1: int, y1: int) -> bool {
    &&& -LINE_COORD_LIMIT <= x0 <= LINE_COORD_LIMIT
    &&& -LINE_COORD_LIMIT <= y0 <= LINE_COORD_LIMIT
    &&& -LINE_COORD_LIMIT <= x1 <= LINE_COORD_LIMIT
    &&& -LINE_COORD_LIMIT <= y1 <= LINE_COORD_LIMIT
}

/// The tiles of the straight line from `(x0, y0)` to `(x1, y1)`, the last
/// of which is `(x1, y1)`; nothing if a coordinate is out of limits.
pub fn line_path(x0: i32, y0: i32, x1: i32, y1: i32) -> (path: Option<Vec<(i32, i32)>>)
    ensures
        path is Some == line_in_limits(x0 as int, y0 as int, x1 as int, y1 as int),
        path matches Some(p) ==> path_view(p@) == bresenham_line(
            x0 as int,
            y0 as int,
            x1 as int,
            y1 as int,
        ) && p.len() >= 1 && p[p.len() - 1] == (x1, y1),
{
    if -LINE_COORD_LIMIT <= x0 && x0 <= LINE_COORD_LIMIT && -LINE_COORD_LIMIT <= y0 && y0
        <= LINE_COORD_LIMIT && -LINE_COORD_LIMIT <= x1 && x1 <= LINE_COORD_LIMIT
        && -LINE_COORD_LIMIT <= y1 && y1 <= LINE_COORD_LIMIT {
        Some(line_to(x0, y0, x1, y1))
    } else {
        None
    }
}

/// Where a walker that follows `path` from its `k`-th tile on comes to
/// rest, given the tile `cur` it stands on and the tile `prev` it came from:
/// it moves on while it stands on a wall and the path goes on inside the
/// map, and the answer is the tile it last came from.
pub open spec fn attractor_stop(
    m: TileMapView,
    prev: (int, int),
    cur: (int, int),
    path: Seq<(int, int)>,
    k: int,
) -> (int, int)
    decreases path.len() - k,
{
    if 0 <= k < path.len() && m.at(cur.0, cur.1) == TileType::Wall && m.in_bounds(
        path[k].0,
        path[k].1,
    ) {
        attractor_stop(m, cur, path[k], path, k + 1)
    } else {
        prev
    }
}

/// Walks from `(x, y)` along `path` while the walker stands on a wall, and
/// returns the tile from which it made its last step; this is `(x, y)`
/// itself when it makes none.
pub fn attractor_walk(map: &TileMap, x: i32, y: i32, path: &Vec<(i32, i32)>) -> (stop: (i32, i32))
    requires
        map.wf(),
        map@.in_bounds(x as int, y as int),
    ensures
        (stop.0 as int, stop.1 as int) == attractor_stop(
            map@,
            (x as int, y as int),
            (x as int, y as int),
            path_view(path@),
            0,
        ),
        map@.in_bounds(stop.0 as int, stop.1 as int),
{
    let ghost p = path_view(path@);
    let mut prev = (x, y);
    let mut cur = (x, y);
    let mut k: usize = 0;
    loop
        invariant
            map.wf(),
            p == path_view(path@),
            k <= path.len(),
            map@.in_bounds(prev.0 as int, prev.1 as int),
            map@.in_bounds(cur.0 as int, cur.1 as int),
            attractor_stop(
                map@,
                (x as int, y as int),
                (x as int, y as int),
                p,
                0,
            ) == attractor_stop(
                map@,
                (prev.0 as int, prev.1 as int),
                (cur.0 as int, cur.1 as int),
                p,
                k as int,
            ),
        ensures
            (prev.0 as int, prev.1 as int) == attractor_stop(
                map@,
                (x as int, y as int),
                (x as int, y as int),
                p,
                0,
            ),
            map@.in_bounds(prev.0 as int, prev.1 as int),
        decreases path.len() - k,
    {
        if k >= path.len() {
            break ;
        }
        let pos_id = map.xy_idx(cur.0, cur.1);
        if map.tiles[pos_id] != TileType::Wall {
            break ;
        }
        let next = path[k];
        assert(p[k as int] == (next.0 as int, next.1 as int));
        if next.0 < 0 || next.0 >= map.width || next.1 < 0 || next.1 >= map.height {
            break ;
        }
        prev = cur;
        cur = next;
        k += 1;
    }
    prev
}

/// Where a walker that stumbles inwards stops: it stands on `(x, y)`, came
/// from `(px, py)`, reads its rolls from the `c`-th on and has `steps`
/// steps left. It stops when it stands on floor, and gives up when no step
/// is left. The answer tells whether it found floor, the tile it came from
/// and the number of the next roll.
pub open spec fn inward_stop(
    w: int,
    h: int,
    tiles: Seq<TileType>,
    x: int,
    y: int,
    px: int,
    py: int,
    rolls: Seq<int>,
    c: int,
    steps: int,
) -> (bool, int, int, int)
    decreases steps,
{
    if steps <= 0 {
        (false, px, py, c)
    } else if tiles[y * w + x] == TileType::Floor {
        (true, px, py, c)
    } else {
        let to = staggered(w, h, x, y, rolls[c]);
        inward_stop(w, h, tiles, to.0, to.1, x, y, rolls, c + 1, steps - 1)
    }
}

/// Where a walker that stumbles outwards stops: it stands on `(x, y)`,
/// reads its rolls from the `c`-th on and has `steps` steps left. It stops
/// when it stands on a tile that is not floor, and gives up when no step is
/// left. The answer tells whether it left the floor, the tile it stands on
/// and the number of the next roll.
pub open spec fn outward_stop(
    w: int,
    h: int,
    tiles: Seq<TileType>,
    x: int,
    y: int,
    rolls: Seq<int>,
    c: int,
    steps: int,
) -> (bool, int, int, int)
    decreases steps,
{
    if steps <= 0 {
        (false, x, y, c)
    } else if tiles[y * w + x] != TileType::Floor {
        (true, x, y, c)
    } else {
        let to = staggered(w, h, x, y, rolls[c]);
        outward_stop(w, h, tiles, to.0, to.1, rolls, c + 1, steps - 1)
    }
}

/// The tiles that one walker leaves, and the number of the next roll: the
/// walker reads its rolls from the `c`-th on. One that stumbles inwards
/// sets out from the tile that two rolls name and paints where it came from
/// when it found floor; one that stumbles outwards sets out from `start`
/// and paints where it left the floor; one that is drawn to the centre sets
/// out from the tile that two rolls name and paints where its walk along
/// the line to `start` came to rest.
pub open spec fn walker(
    m: TileMapView,
    alg: DLAAlgorithm,
    sym: Symmetry,
    size: int,
    start: (int, int),
    rolls: Seq<int>,
    c: int,
) -> (Seq<TileType>, int) {
    match alg {
        DLAAlgorithm::WalkInwards => {
            let x = rolls[c] + 1;
            let y = rolls[c + 1] + 1;
            let stop = inward_stop(
                m.width,
                m.height,
                m.tiles,
                x,
                y,
                x,
                y,
                rolls,
                c + 2,
                WALK_LIMIT as int,
            );
            (
                if stop.0 {
                    painted(m, sym, size, stop.1, stop.2)
                } else {
                    m.tiles
                },
                stop.3,
            )
        },
        DLAAlgorithm::WalkOutwards => {
            let stop = outward_stop(
                m.width,
                m.height,
                m.tiles,
                start.0,
                start.1,
                rolls,
                c,
                WALK_LIMIT as int,
            );
            (
                if stop.0 {
                    painted(m, sym, size, stop.1, stop.2)
                } else {
                    m.tiles
                },
                stop.3,
            )
        },
        DLAAlgorithm::CentralAttractor => {
            let x = rolls[c] + 1;
            let y = rolls[c + 1] + 1;
            let path = bresenham_line(x, y, start.0, start.1);
            let stop = attractor_stop(m, (x, y), (x, y), path, 0);
            (painted(m, sym, size, stop.0, stop.1), c + 2)
        },
    }
}

/// The fresh map with the cross at its centre dug out.
pub open spec fn dla_seeded(depth: int) -> TileMapView {
    let m = fresh_map(depth);
    let s = m.idx(m.width / 2, m.height / 2);
    m.with_tiles(
        m.tiles.update(s, TileType::Floor).update(s - 1, TileType::Floor).update(
            s + 1,
            TileType::Floor,
        ).update(s - m.width, TileType::Floor).update(s + m.width, TileType::Floor),
    )
}

/// The tiles after `k` walkers have been sent out over the map `m0`, each
/// only while fewer than `desired` tiles are floor, and the number of rolls
/// they have read.
pub open spec fn after_walkers(
    m0: TileMapView,
    alg: DLAAlgorithm,
    sym: Symmetry,
    size: int,
    desired: int,
    rolls: Seq<int>,
    k: int,
) -> (Seq<TileType>, int)
    decreases k,
{
    if k <= 0 {
        (m0.tiles, 0)
    } else {
        let (t, c) = after_walkers(m0, alg, sym, size, desired, rolls, k - 1);
        if count_tiles(t, TileType::Floor) >= desired {
            (t, c)
        } else {
            walker(m0.with_tiles(t), alg, sym, size, (m0.width / 2, m0.height / 2), rolls, c)
        }
    }
}

/// The tiles that the walkers leave of a fresh map with the cross dug out,
/// and the number of rolls they have read.
pub open spec fn dla_dug(
    depth: int,
    alg: DLAAlgorithm,
    sym: Symmetry,
    size: int,
    desired: int,
    rolls: Seq<int>,
) -> (Seq<TileType>, int) {
    after_walkers(dla_seeded(depth), alg, sym, size, desired, rolls, WALKER_LIMIT as int)
}

/// Once enough tiles are floor, or no walker is sent that digs, sending
/// more walkers changes nothing.
pub proof fn lemma_walkers_done(
    m0: TileMapView,
    alg: DLAAlgorithm,
    sym: Symmetry,
    size: int,
    desired: int,
    rolls: Seq<int>,
    k: int,
    j: int,
)
    requires
        0 <= k <= j,
        k == j || count_tiles(after_walkers(m0, alg, sym, size, desired, rolls, k).0, TileType::Floor)
            >= desired,
    ensures
        after_walkers(m0, alg, sym, size, desired, rolls, j) == after_walkers(
            m0,
            alg,
            sym,
            size,
            desired,
            rolls,
            k,
        ),
    decreases j - k,
{
    if k < j {
        lemma_walkers_done(m0, alg, sym, size, desired, rolls, k, j - 1);
    }
}

/// Builds a level by diffusion-limited aggregation: walkers set out one by
/// one, and each paints a stroke where it meets what was dug before.
pub struct DLABuilder {
    state: BuilderState,
    algorithm: DLAAlgorithm,
    /// The size of the brush with which a stroke is painted.
    brush_size: i32,
    symmetry: Symmetry,
    /// How many hundredths of the map must be floor for the digging to end.
    floor_percent: u32,
}

impl DLABuilder {
    /// The number of floor tiles at which the digging ends.
    pub open spec fn desired_floor_count(&self) -> int {
        floor_target(crate::map::MAP_COUNT as int, self.spec_floor_percent())
    }

    /// The depth of the level that the builder makes.
    pub closed spec fn spec_depth(&self) -> int {
        self.state.depth as int
    }

    /// The way in which the walkers of the builder move.
    pub closed spec fn spec_algorithm(&self) -> DLAAlgorithm {
        self.algorithm
    }

    /// The size of the brush with which a stroke is painted.
    pub closed spec fn spec_brush_size(&self) -> int {
        self.brush_size as int
    }

    /// The symmetry in which a stroke is repeated.
    pub closed spec fn spec_symmetry(&self) -> Symmetry {
        self.symmetry
    }

    /// How many hundredths of the map must be floor for the digging to end.
    pub closed spec fn spec_floor_percent(&self) -> int {
        self.floor_percent as int
    }

    /// Walkers that stumble inwards, a brush of one tile mirrored top to
    /// bottom, and a quarter of the map to dig.
    pub fn walk_inwards(new_depth: i32) -> (builder: DLABuilder)
        ensures
            builder.wf(),
            builder.spec_algorithm() == DLAAlgorithm::WalkInwards,
            builder.spec_brush_size() == 1,
            builder.spec_symmetry() == Symmetry::Vertical,
            builder.spec_floor_percent() == 25,
            builder.history_view().len() == 0,
            builder.spec_noise_areas() == Map::<i32, Vec<usize>>::empty(),
            builder.map_view().depth == new_depth,
    {
        DLABuilder {
            state: BuilderState::new(new_depth),
            algorithm: DLAAlgorithm::WalkInwards,
            brush_size: 1,
            symmetry: Symmetry::Vertical,
            floor_percent: 25,
        }
    }

    /// Walkers that stumble outwards, a brush of two tiles without
    /// symmetry, and a quarter of the map to dig.
    pub fn walk_outwards(new_depth: i32) -> (builder: DLABuilder)
        ensures
            builder.wf(),
            builder.spec_algorithm() == DLAAlgorithm::WalkOutwards,
            builder.spec_brush_size() == 2,
            builder.spec_symmetry() == Symmetry::Unmirrored,
            builder.spec_floor_percent() == 25,
            builder.history_view().len() == 0,
            builder.spec_noise_areas() == Map::<i32, Vec<usize>>::empty(),
            builder.map_view().depth == new_depth,
    {
        DLABuilder {
            state: BuilderState::new(new_depth),
            algorithm: DLAAlgorithm::WalkOutwards,
            brush_size: 2,
            symmetry: Symmetry::Unmirrored,
            floor_percent: 25,
        }
    }

    /// Walkers drawn to the centre, a brush of two tiles mirrored both
    /// ways, and a quarter of the map to dig.
    pub fn central_attractor(new_depth: i32) -> (builder: DLABuilder)
        ensures
            builder.wf(),
            builder.spec_algorithm() == DLAAlgorithm::CentralAttractor,
            builder.spec_brush_size() == 2,
            builder.spec_symmetry() == Symmetry::Both,
            builder.spec_floor_percent() == 25,
            builder.history_view().len() == 0,
            builder.spec_noise_areas() == Map::<i32, Vec<usize>>::empty(),
            builder.map_view().depth == new_depth,
    {
        DLABuilder {
            state: BuilderState::new(new_depth),
            algorithm: DLAAlgorithm::CentralAttractor,
            brush_size: 2,
            symmetry: Symmetry::Both,
            floor_percent: 25,
        }
    }

    /// Walkers drawn to the centre, a brush of two tiles mirrored left to
    /// right, and a quarter of the map to dig.
    pub fn insectoid(new_depth: i32) -> (builder: DLABuilder)
        ensures
            builder.wf(),
            builder.spec_algorithm() == DLAAlgorithm::CentralAttractor,
            builder.spec_brush_size() == 2,
            builder.spec_symmetry() == Symmetry::Horizontal,
            builder.spec_floor_percent() == 25,
            builder.history_view().len() == 0,
            builder.spec_noise_areas() == Map::<i32, Vec<usize>>::empty(),
            builder.map_view().depth == new_depth,
    {
        DLABuilder {
            state: BuilderState::new(new_depth),
            algorithm: DLAAlgorithm::CentralAttractor,
            brush_size: 2,
            symmetry: Symmetry::Horizontal,
            floor_percent: 25,
        }
    }

    /// What the digging keeps true: the state is well-formed and the map
    /// holds walls and floors only.
    pub closed spec fn digging(&self) -> bool {
        &&& self.state.wf()
        &&& only_walls_and_floors(self.state.map.tiles@)
    }

    /// The number of floor tiles of the map.
    pub closed spec fn floor_count(&self) -> nat {
        count_tiles(self.state.map.tiles@, TileType::Floor)
    }

    /// What one walker leaves unchanged: everything but the tiles of the map,
    /// of which none that was floor is lost, and the snapshots taken before.
    pub closed spec fn dug_from(&self, before: DLABuilder) -> bool {
        &&& forall|i: int|
            0 <= i < before.state.map.tiles.len() && before.state.map.tiles[i] == TileType::Floor
                ==> #[trigger] self.state.map.tiles[i] == TileType::Floor
        &&& self.algorithm == before.algorithm
        &&& self.brush_size == before.brush_size
        &&& self.symmetry == before.symmetry
        &&& self.floor_percent == before.floor_percent
        &&& self.state.starting_position == before.state.starting_position
        &&& self.state.depth == before.state.depth
        &&& self.state.noise_seed == before.state.noise_seed
        &&& self.state.noise_areas == before.state.noise_areas
        &&& self.state.map@ == before.state.map@.with_tiles(self.state.map.tiles@)
        &&& self.state.history.len() >= before.state.history.len()
        &&& self.state.history@.take(before.state.history.len() as int) == before.state.history@
    }

    /// Paints a stroke at `(x, y)` and takes a snapshot. Returns how many
    /// tiles became floor.
    fn paint_stroke(&mut self, x: i32, y: i32) -> (count: usize)
        requires
            old(self).digging(),
        ensures
            final(self).digging(),
            final(self).dug_from(*old(self)),
            final(self).state.map.tiles@ == painted(
                old(self).state.map@,
                old(self).symmetry,
                old(self).brush_size as int,
                x as int,
                y as int,
            ),
            final(self).floor_count() == old(self).floor_count() + count,
    {
        proof {
            lemma_painted_walls_and_floors(
                self.state.map@,
                self.symmetry,
                self.brush_size as int,
                x as int,
                y as int,
            );
        }
        let count = paint(&mut self.state.map, self.symmetry, self.brush_size, x, y);
        self.state.take_snapshot();
        count
    }

    /// Sends out one walker that starts on a random tile and stumbles about
    /// until it stands on a floor tile, then paints a stroke on the tile it
    /// came from. A walker that has found no floor after `WALK_LIMIT` steps
    /// gives up. Returns how many tiles became floor.
    fn walk_inwards_once(&mut self, dice: &mut Dice, Ghost(base): Ghost<int>) -> (count: usize)
        requires
            old(self).digging(),
            old(self).algorithm == DLAAlgorithm::WalkInwards,
            0 <= base <= old(dice).drawn().len(),
        ensures
            final(self).digging(),
            final(self).dug_from(*old(self)),
            final(self).floor_count() == old(self).floor_count() + count,
            old(dice).drawn().len() <= final(dice).drawn().len(),
            final(dice).drawn().take(old(dice).drawn().len() as int) == old(dice).drawn(),
            final(self).walked_from(
                *old(self),
                final(dice).drawn().skip(base),
                old(dice).drawn().len() - base,
            ),
    {
        let ghost d0 = dice.drawn();
        let ghost c0 = d0.len() - base;
        let ghost m = self.state.map@;
        let ghost t = self.state.map.tiles@;
        let mut drunk_x = dice.roll(self.state.map.width - 3) + 1;
        let mut drunk_y = dice.roll(self.state.map.height - 3) + 1;
        let ghost x0 = drunk_x as int;
        let ghost y0 = drunk_y as int;
        let mut previous_pos_x = drunk_x;
        let mut previous_pos_y = drunk_y;
        let mut steps: u32 = WALK_LIMIT;
        proof {
            assert(dice.drawn() == d0.push(x0 - 1).push(y0 - 1));
            assert(dice.drawn().take(d0.len() as int) =~= d0);
        }
        while steps > 0
            invariant
                self.digging(),
                *self == *old(self),
                self.algorithm == DLAAlgorithm::WalkInwards,
                m == self.state.map@,
                t == m.tiles,
                2 <= drunk_x <= self.state.map.width - 2,
                2 <= drunk_y <= self.state.map.height - 2,
                2 <= previous_pos_x <= self.state.map.width - 2,
                2 <= previous_pos_y <= self.state.map.height - 2,
                d0 == old(dice).drawn(),
                0 <= base <= d0.len(),
                c0 == d0.len() - base,
                d0.len() + 2 <= dice.drawn().len(),
                dice.drawn().take(d0.len() as int) == d0,
                dice.drawn()[d0.len() as int] == x0 - 1,
                dice.drawn()[d0.len() as int + 1] == y0 - 1,
                forall|f: Seq<int>|
                    extends(f, dice.drawn().skip(base)) ==> #[trigger] inward_stop(
                        m.width,
                        m.height,
                        t,
                        x0,
                        y0,
                        x0,
                        y0,
                        f,
                        c0 + 2,
                        WALK_LIMIT as int,
                    ) == inward_stop(
                        m.width,
                        m.height,
                        t,
                        drunk_x as int,
                        drunk_y as int,
                        previous_pos_x as int,
                        previous_pos_y as int,
                        f,
                        dice.drawn().len() - base,
                        steps as int,
                    ),
            decreases steps,
        {
            let ghost d1 = dice.drawn();
            let drunk_pos_id = self.state.map.xy_idx(drunk_x, drunk_y);
            if self.state.map.tiles[drunk_pos_id] == TileType::Floor {
                let count = self.paint_stroke(previous_pos_x, previous_pos_y);
                proof {
                    let since = d1.skip(base);
                    assert forall|f: Seq<int>| extends(f, since) implies #[trigger] walker(
                        m,
                        DLAAlgorithm::WalkInwards,
                        self.symmetry,
                        self.brush_size as int,
                        (40int, 21int),
                        f,
                        c0,
                    ) == (self.state.map.tiles@, since.len() as int) by {
                        assert(f.take(since.len() as int)[c0] == f[c0]);
                        assert(f.take(since.len() as int)[c0 + 1] == f[c0 + 1]);
                        assert(inward_stop(
                            m.width,
                            m.height,
                            t,
                            x0,
                            y0,
                            x0,
                            y0,
                            f,
                            c0 + 2,
                            WALK_LIMIT as int,
                        ) == (
                            true,
                            previous_pos_x as int,
                            previous_pos_y as int,
                            since.len() as int,
                        ));
                    }
                    assert(self.walked_from(*old(self), since, c0));
                }
                return count;
            }
            previous_pos_x = drunk_x;
            previous_pos_y = drunk_y;
            let rolled_direction = dice.roll(4);
            let to = stagger(&self.state.map, drunk_x, drunk_y, rolled_direction);
            proof {
                assert(dice.drawn().take(d0.len() as int) =~= d1.take(d0.len() as int));
                let since1 = d1.skip(base);
                let since = dice.drawn().skip(base);
                assert(since =~= since1.push(rolled_direction as int));
                assert forall|f: Seq<int>| extends(f, since) implies #[trigger] inward_stop(
                    m.width,
                    m.height,
                    t,
                    x0,
                    y0,
                    x0,
                    y0,
                    f,
                    c0 + 2,
                    WALK_LIMIT as int,
                ) == inward_stop(
                    m.width,
                    m.height,
                    t,
                    to.0 as int,
                    to.1 as int,
                    drunk_x as int,
                    drunk_y as int,
                    f,
                    since.len() as int,
                    steps - 1,
                ) by {
                    assert(extends(since, since1)) by {
                        assert(since.take(since1.len() as int) =~= since1);
                    }
                    lemma_extends_trans(f, since, since1);
                    assert(f[since1.len() as int] == rolled_direction);
                }
            }
            drunk_x = to.0;
            drunk_y = to.1;
            steps -= 1;
        }
        proof {
            assert(self.state.history@.take(self.state.history.len() as int) =~= self.state.history@);
            assert(self.state.map@ == self.state.map@.with_tiles(self.state.map.tiles@));
            let since = dice.drawn().skip(base);
            assert forall|f: Seq<int>| extends(f, since) implies #[trigger] walker(
                m,
                DLAAlgorithm::WalkInwards,
                self.symmetry,
                self.brush_size as int,
                (40int, 21int),
                f,
                c0,
            ) == (self.state.map.tiles@, since.len() as int) by {
                assert(f.take(since.len() as int)[c0] == f[c0]);
                assert(f.take(since.len() as int)[c0 + 1] == f[c0 + 1]);
            }
        }
        0
    }

    /// Sends out one walker that starts on the starting tile and stumbles
    /// about until it stands on a tile that is not floor, then paints a
    /// stroke there. A walker that is still on the floor after `WALK_LIMIT`
    /// steps gives up. Returns how many tiles became floor.
    fn walk_outwards_once(&mut self, dice: &mut Dice, Ghost(base): Ghost<int>) -> (count: usize)
        requires
            old(self).digging(),
            old(self).algorithm == DLAAlgorithm::WalkOutwards,
            old(self).state.starting_position == (Position { x: 40, y: 21 }),
            0 <= base <= old(dice).drawn().len(),
        ensures
            final(self).digging(),
            final(self).dug_from(*old(self)),
            final(self).floor_count() == old(self).floor_count() + count,
            old(dice).drawn().len() <= final(dice).drawn().len(),
            final(dice).drawn().take(old(dice).drawn().len() as int) == old(dice).drawn(),
            final(self).walked_from(
                *old(self),
                final(dice).drawn().skip(base),
                old(dice).drawn().len() - base,
            ),
    {
        let ghost d0 = dice.drawn();
        let ghost c0 = d0.len() - base;
        let ghost m = self.state.map@;
        let ghost t = self.state.map.tiles@;
        let mut drunk_x = self.state.starting_position.x;
        let mut drunk_y = self.state.starting_position.y;
        let mut steps: u32 = WALK_LIMIT;
        proof {
            assert(dice.drawn().take(d0.len() as int) =~= d0);
        }
        while steps > 0
            invariant
                self.digging(),
                *self == *old(self),
                self.algorithm == DLAAlgorithm::WalkOutwards,
                m == self.state.map@,
                t == m.tiles,
                2 <= drunk_x <= self.state.map.width - 2,
                2 <= drunk_y <= self.state.map.height - 2,
                d0 == old(dice).drawn(),
                0 <= base <= d0.len(),
                c0 == d0.len() - base,
                d0.len() <= dice.drawn().len(),
                dice.drawn().take(d0.len() as int) == d0,
                forall|f: Seq<int>|
                    extends(f, dice.drawn().skip(base)) ==> #[trigger] outward_stop(
                        m.width,
                        m.height,
                        t,
                        40,
                        21,
                        f,
                        c0,
                        WALK_LIMIT as int,
                    ) == outward_stop(
                        m.width,
                        m.height,
                        t,
                        drunk_x as int,
                        drunk_y as int,
                        f,
                        dice.drawn().len() - base,
                        steps as int,
                    ),
            decreases steps,
        {
            let ghost d1 = dice.drawn();
            let drunk_pos_id = self.state.map.xy_idx(drunk_x, drunk_y);
            if self.state.map.tiles[drunk_pos_id] != TileType::Floor {
                let count = self.paint_stroke(drunk_x, drunk_y);
                proof {
                    let since = d1.skip(base);
                    assert forall|f: Seq<int>| extends(f, since) implies #[trigger] walker(
                        m,
                        DLAAlgorithm::WalkOutwards,
                        self.symmetry,
                        self.brush_size as int,
                        (40int, 21int),
                        f,
                        c0,
                    ) == (self.state.map.tiles@, since.len() as int) by {
                        assert(outward_stop(m.width, m.height, t, 40, 21, f, c0, WALK_LIMIT as int)
                            == (true, drunk_x as int, drunk_y as int, since.len() as int));
                    }
                    assert(self.walked_from(*old(self), since, c0));
                }
                return count;
            }
            let rolled_direction = dice.roll(4);
            let to = stagger(&self.state.map, drunk_x, drunk_y, rolled_direction);
            proof {
                assert(dice.drawn().take(d0.len() as int) =~= d1.take(d0.len() as int));
                let since1 = d1.skip(base);
                let since = dice.drawn().skip(base);
                assert(since =~= since1.push(rolled_direction as int));
                assert forall|f: Seq<int>| extends(f, since) implies #[trigger] outward_stop(
                    m.width,
                    m.height,
                    t,
                    40,
                    21,
                    f,
                    c0,
                    WALK_LIMIT as int,
                ) == outward_stop(
                    m.width,
                    m.height,
                    t,
                    to.0 as int,
                    to.1 as int,
                    f,
                    since.len() as int,
                    steps - 1,
                ) by {
                    assert(extends(since, since1)) by {
                        assert(since.take(since1.len() as int) =~= since1);
                    }
                    lemma_extends_trans(f, since, since1);
                    assert(f[since1.len() as int] == rolled_direction);
                }
            }
            drunk_x = to.0;
            drunk_y = to.1;
            steps -= 1;
        }
        proof {
            assert(self.state.history@.take(self.state.history.len() as int) =~= self.state.history@);
            assert(self.state.map@ == self.state.map@.with_tiles(self.state.map.tiles@));
        }
        0
    }

    /// Sends out one walker that starts on a random tile and walks the
    /// straight line to the starting tile while it stands on a wall, then
    /// paints a stroke on the tile it came from. Returns how many tiles
    /// became floor.
    fn attract_once(&mut self, dice: &mut Dice, Ghost(base): Ghost<int>) -> (count: usize)
        requires
            old(self).digging(),
            old(self).algorithm == DLAAlgorithm::CentralAttractor,
            old(self).state.starting_position == (Position { x: 40, y: 21 }),
            0 <= base <= old(dice).drawn().len(),
        ensures
            final(self).digging(),
            final(self).dug_from(*old(self)),
            final(self).floor_count() == old(self).floor_count() + count,
            old(dice).drawn().len() <= final(dice).drawn().len(),
            final(dice).drawn().take(old(dice).drawn().len() as int) == old(dice).drawn(),
            final(self).walked_from(
                *old(self),
                final(dice).drawn().skip(base),
                old(dice).drawn().len() - base,
            ),
    {
        let ghost d0 = dice.drawn();
        let ghost c0 = d0.len() - base;
        let ghost m = self.state.map@;
        let drunk_x = dice.roll(self.state.map.width - 3) + 1;
        let drunk_y = dice.roll(self.state.map.height - 3) + 1;
        proof {
            assert(dice.drawn() == d0.push(drunk_x - 1).push(drunk_y - 1));
            assert(dice.drawn().take(d0.len() as int) =~= d0);
        }
        let path = line_path(
            drunk_x,
            drunk_y,
            self.state.starting_position.x,
            self.state.starting_position.y,
        );
        match path {
            Some(line) => {
                let stop = attractor_walk(&self.state.map, drunk_x, drunk_y, &line);
                let count = self.paint_stroke(stop.0, stop.1);
                proof {
                    let since = dice.drawn().skip(base);
                    assert(since[c0] == drunk_x - 1);
                    assert(since[c0 + 1] == drunk_y - 1);
                    assert forall|f: Seq<int>| extends(f, since) implies #[trigger] walker(
                        m,
                        DLAAlgorithm::CentralAttractor,
                        self.symmetry,
                        self.brush_size as int,
                        (40int, 21int),
                        f,
                        c0,
                    ) == (self.state.map.tiles@, since.len() as int) by {
                        assert(f.take(since.len() as int)[c0] == f[c0]);
                        assert(f.take(since.len() as int)[c0 + 1] == f[c0 + 1]);
                    }
                }
                count
            },
            None => {
                proof {
                    assert(false);
                }
                0
            },
        }
    }

    /// The map is what one walker that reads the rolls from the `c`-th on
    /// makes of the map of `before`, and the rolls it reads are those that
    /// `since` holds from there on.
    pub closed spec fn walked_from(&self, before: DLABuilder, since: Seq<int>, c: int) -> bool {
        forall|f: Seq<int>|
            extends(f, since) ==> #[trigger] walker(
                before.state.map@,
                before.algorithm,
                before.symmetry,
                before.brush_size as int,
                (40int, 21int),
                f,
                c,
            ) == (self.state.map.tiles@, since.len() as int)
    }
}

impl DLABuilder {
    /// The level is what the rolls make of a fresh map: the walkers dig as
    /// all rolls but the last decide, the map they leave is finished from
    /// the central tile, and the last roll is the noise seed.
    pub open spec fn built_from(&self, rolls: Seq<int>) -> bool {
        let dug = dla_dug(
            self.spec_depth(),
            self.spec_algorithm(),
            self.spec_symmetry(),
            self.spec_brush_size(),
            self.desired_floor_count(),
            rolls.drop_last(),
        );
        &&& rolls.len() >= 1
        &&& self.spec_noise_seed() == rolls.last()
        &&& dug.1 == rolls.len() - 1
        &&& self.start() == (MAP_WIDTH as int / 2, MAP_HEIGHT as int / 2)
        &&& exists|e: int| #[trigger]
            finishes(
                fresh_map(self.spec_depth()).with_tiles(dug.0),
                self.start(),
                e,
                self.map_view(),
            )
    }

    /// The walkers dug the map to the floor count that the builder aims at
    /// before it was finished.
    pub open spec fn dug_enough(&self, rolls: Seq<int>) -> bool {
        count_tiles(
            dla_dug(
                self.spec_depth(),
                self.spec_algorithm(),
                self.spec_symmetry(),
                self.spec_brush_size(),
                self.desired_floor_count(),
                rolls.drop_last(),
            ).0,
            TileType::Floor,
        ) >= self.desired_floor_count()
    }

    /// Builds the level with the given dice: starts from a map of walls,
    /// digs a cross at the centre, which is the starting tile, sends out
    /// walkers until the floor count is reached or `WALKER_LIMIT` walkers
    /// have gone, culls what the starting tile does not reach, places the
    /// down stairs and draws the noise seed. Returns whether the floor
    /// count was reached before the map was finished.
    pub fn build(&mut self, dice: &mut Dice) -> (reached: bool)
        requires
            old(self).wf(),
        ensures
            final(self).wf(),
            final(self).level_ready(),
            final(self).built_from(final(dice).drawn().skip(old(dice).drawn().len() as int)),
            start_is_open(final(self).map_view(), final(self).start()),
            final(self).map_view().at(final(self).start().0, final(self).start().1)
                == TileType::Floor,
            reached == final(self).dug_enough(
                final(dice).drawn().skip(old(dice).drawn().len() as int),
            ),
            final(self).start() == (MAP_WIDTH as int / 2, MAP_HEIGHT as int / 2),
            final(self).spec_depth() == old(self).spec_depth(),
            final(self).spec_algorithm() == old(self).spec_algorithm(),
            final(self).spec_brush_size() == old(self).spec_brush_size(),
            final(self).spec_symmetry() == old(self).spec_symmetry(),
            final(self).spec_floor_percent() == old(self).spec_floor_percent(),
            old(self).history_view().len() <= final(self).history_view().len(),
            final(self).history_view().take(old(self).history_view().len() as int) == old(
                self,
            ).history_view(),
            old(dice).drawn().len() <= final(dice).drawn().len(),
            final(dice).drawn().take(old(dice).drawn().len() as int) == old(dice).drawn(),
    {
        let ghost h0 = self.state.history@;
        let ghost d0 = dice.drawn();
        let ghost base = d0.len() as int;
        let ghost depth = self.state.depth as int;
        let ghost alg = self.algorithm;
        let ghost sym = self.symmetry;
        let ghost size = self.brush_size as int;
        self.state.map = TileMap::new(self.state.depth);
        self.state.starting_position = Position {
            x: self.state.map.width / 2,
            y: self.state.map.height / 2,
        };
        let start_idx = self.state.map.xy_idx(
            self.state.starting_position.x,
            self.state.starting_position.y,
        );
        assert(start_idx == 21 * 80 + 40) by (nonlinear_arith)
            requires
                start_idx == 21 * self.state.map@.width + 40,
                self.state.map@.width == 80,
        ;
        self.state.take_snapshot();
        let ghost t0 = self.state.map.tiles@;
        proof {
            lemma_count_none(t0, TileType::Floor);
        }
        self.state.map.tiles[start_idx] = TileType::Floor;
        self.state.map.tiles[start_idx - 1] = TileType::Floor;
        self.state.map.tiles[start_idx + 1] = TileType::Floor;
        self.state.map.tiles[start_idx - 80] = TileType::Floor;
        self.state.map.tiles[start_idx + 80] = TileType::Floor;
        proof {
            let s = start_idx as int;
            let t1 = t0.update(s, TileType::Floor);
            let t2 = t1.update(s - 1, TileType::Floor);
            let t3 = t2.update(s + 1, TileType::Floor);
            let t4 = t3.update(s - 80, TileType::Floor);
            let t5 = t4.update(s + 80, TileType::Floor);
            lemma_count_update(t0, s, TileType::Floor, TileType::Floor);
            lemma_count_update(t1, s - 1, TileType::Floor, TileType::Floor);
            lemma_count_update(t2, s + 1, TileType::Floor, TileType::Floor);
            lemma_count_update(t3, s - 80, TileType::Floor, TileType::Floor);
            lemma_count_update(t4, s + 80, TileType::Floor, TileType::Floor);
            assert(self.state.map.tiles@ =~= t5);
            assert(self.state.map.tiles@ =~= dla_seeded(depth).tiles);
        }
        self.state.take_snapshot();
        let ghost mc = dla_seeded(depth);
        let mut floor_count: usize = 5;
        let total_tiles: u64 = self.state.map.tiles.len() as u64;
        let desired_floor_count: u64 = total_tiles * (self.floor_percent as u64) / 100;
        let ghost desired = desired_floor_count as int;
        let mut walkers: u32 = WALKER_LIMIT;
        proof {
            assert(self.state.history@.take(h0.len() as int) =~= h0);
            assert(dice.drawn().take(d0.len() as int) =~= d0);
            assert(dice.drawn().skip(base) =~= Seq::<int>::empty());
        }
        while (floor_count as u64) < desired_floor_count && walkers > 0
            invariant
                self.digging(),
                self.state.depth == depth,
                self.algorithm == alg,
                self.symmetry == sym,
                self.brush_size == size,
                self.floor_percent == old(self).floor_percent,
                self.state.starting_position == (Position { x: 40, y: 21 }),
                mc == dla_seeded(depth),
                self.state.map@ == mc.with_tiles(self.state.map.tiles@),
                floor_count == self.floor_count(),
                desired == desired_floor_count,
                desired_floor_count == self.desired_floor_count(),
                h0.len() <= self.state.history.len(),
                self.state.history@.take(h0.len() as int) == h0,
                base == d0.len(),
                d0.len() <= dice.drawn().len(),
                dice.drawn().take(d0.len() as int) == d0,
                walkers <= WALKER_LIMIT,
                self.state.map.tiles[1720int] == TileType::Floor,
                self.state.map.tiles[1721int] == TileType::Floor,
                forall|f: Seq<int>|
                    extends(f, dice.drawn().skip(base)) ==> #[trigger] after_walkers(
                        mc,
                        alg,
                        sym,
                        size,
                        desired,
                        f,
                        WALKER_LIMIT - walkers,
                    ) == (self.state.map.tiles@, dice.drawn().len() - base),
            decreases walkers,
        {
            let ghost h1 = self.state.history@;
            let ghost d1 = dice.drawn();
            let ghost t1 = self.state.map.tiles@;
            let ghost before = *self;
            proof {
                lemma_count_bound(self.state.map.tiles@, TileType::Floor);
            }
            let dug = match self.algorithm {
                DLAAlgorithm::WalkInwards => self.walk_inwards_once(dice, Ghost(base)),
                DLAAlgorithm::WalkOutwards => self.walk_outwards_once(dice, Ghost(base)),
                DLAAlgorithm::CentralAttractor => self.attract_once(dice, Ghost(base)),
            };
            proof {
                lemma_count_bound(self.state.map.tiles@, TileType::Floor);
                assert(self.state.history@.take(h0.len() as int) =~= h1.take(h0.len() as int));
                assert(dice.drawn().take(d0.len() as int) =~= d1.take(d0.len() as int));
                let since1 = d1.skip(base);
                let since = dice.drawn().skip(base);
                assert(extends(since, since1)) by {
                    assert(since.take(since1.len() as int) =~= since1);
                }
                let k = WALKER_LIMIT - walkers;
                assert forall|f: Seq<int>| extends(f, since) implies #[trigger] after_walkers(
                    mc,
                    alg,
                    sym,
                    size,
                    desired,
                    f,
                    k + 1,
                ) == (self.state.map.tiles@, since.len() as int) by {
                    lemma_extends_trans(f, since, since1);
                    assert(after_walkers(mc, alg, sym, size, desired, f, k) == (
                        t1,
                        since1.len() as int,
                    ));
                    assert(walker(mc.with_tiles(t1), alg, sym, size, (40int, 21int), f, since1.len() as int)
                        == (self.state.map.tiles@, since.len() as int));
                }
            }
            floor_count += dug;
            walkers -= 1;
        }
        let reached = floor_count as u64 >= desired_floor_count;
        let ghost pre = self.state.map@;
        let ghost h2 = self.state.history@;
        let ghost d2 = dice.drawn();
        self.state.place_exit(start_idx, false);
        self.state.draw_noise_seed(dice);
        proof {
            lemma_idx_in_range(80, 43, 40, 21);
            assert(point_of(pre, start_idx as int) == (40int, 21int));
            assert(self.state.history@.take(h0.len() as int) =~= h2.take(h0.len() as int));
            assert(dice.drawn().take(d0.len() as int) =~= d2.take(d0.len() as int));
            let rolls = dice.drawn().skip(base);
            let dug_rolls = d2.skip(base);
            assert(rolls.drop_last() =~= dug_rolls);
            assert(extends(dug_rolls, dug_rolls)) by {
                assert(dug_rolls.take(dug_rolls.len() as int) =~= dug_rolls);
            }
            let k = WALKER_LIMIT - walkers;
            assert(after_walkers(mc, alg, sym, size, desired, dug_rolls, k) == (
                pre.tiles,
                dug_rolls.len() as int,
            ));
            lemma_walkers_done(mc, alg, sym, size, desired, dug_rolls, k, WALKER_LIMIT as int);
            assert(pre == fresh_map(depth).with_tiles(pre.tiles));
            assert(dla_dug(depth, alg, sym, size, desired, dug_rolls) == (
                pre.tiles,
                dug_rolls.len() as int,
            ));
            assert(self.desired_floor_count() == desired);
            assert(self.state.noise_seed == rolls.last());
            assert(self.state.depth == depth);
            assert(self.algorithm == alg && self.symmetry == sym && self.brush_size == size);
            assert(self.state.start() == (40int, 21int));
            let dug = dla_dug(depth, alg, sym, size, desired, rolls.drop_last());
            assert(dug.1 == rolls.len() - 1);
            assert(fresh_map(depth).with_tiles(dug.0) == pre);
            let e = choose|e: int| #[trigger] finishes(pre, (40int, 21int), e, self.state.map@);
            assert(finishes(pre, self.start(), e, self.state.map@));
            lemma_finished_level_start(pre, (40int, 21int), e, self.state.map@);
            lemma_idx_in_range(80, 43, 41, 21);
            lemma_finished_level_start_floor(
                pre,
                (40int, 21int),
                e,
                self.state.map@,
                (41int, 21int),
            );
            assert(views_of(self.state.history@).take(views_of(h0).len() as int) =~= views_of(h0));
            let named = dla_dug(
                self.spec_depth(),
                self.spec_algorithm(),
                self.spec_symmetry(),
                self.spec_brush_size(),
                self.desired_floor_count(),
                rolls.drop_last(),
            );
            assert(named == dug);
            assert(finishes(
                fresh_map(self.spec_depth()).with_tiles(named.0),
                self.start(),
                e,
                self.map_view(),
            ));
            assert(self.built_from(rolls));
        }
        reached
    }
}

/// Two builders of one depth and with the same settings that were built
/// from the same rolls hold the same map.
pub proof fn lemma_dla_deterministic(a: DLABuilder, b: DLABuilder, rolls: Seq<int>)
    requires
        a.built_from(rolls),
        b.built_from(rolls),
        a.spec_depth() == b.spec_depth(),
        a.spec_algorithm() == b.spec_algorithm(),
        a.spec_brush_size() == b.spec_brush_size(),
        a.spec_symmetry() == b.spec_symmetry(),
        a.spec_floor_percent() == b.spec_floor_percent(),
    ensures
        a.map_view() == b.map_view(),
        a.start() == b.start(),
        a.spec_noise_seed() == b.spec_noise_seed(),
{
    let dug = dla_dug(
        a.state.depth as int,
        a.algorithm,
        a.symmetry,
        a.brush_size as int,
        a.desired_floor_count(),
        rolls.drop_last(),
    );
    let pre = fresh_map(a.state.depth as int).with_tiles(dug.0);
    let ea = choose|e: int| #[trigger] finishes(pre, a.state.start(), e, a.state.map@);
    let eb = choose|e: int| #[trigger] finishes(pre, b.state.start(), e, b.state.map@);
    crate::map_builders::common::lemma_finishes_unique(
        pre,
        a.state.start(),
        ea,
        a.state.map@,
        eb,
        b.state.map@,
    );
}

impl MapBuilder for DLABuilder {
    closed spec fn wf(&self) -> bool {
        self.state.wf()
    }

    closed spec fn map_view(&self) -> TileMapView {
        self.state.map@
    }

    closed spec fn start(&self) -> (int, int) {
        self.state.start()
    }

    closed spec fn history_view(&self) -> Seq<TileMapView> {
        views_of(self.state.history@)
    }

    open spec fn level_ready(&self) -> bool {
        is_finished_level(self.map_view(), self.start())
    }

    open spec fn made_from(&self, rolls: Seq<int>) -> bool {
        self.built_from(rolls)
    }

    fn build_map(&mut self) {
        let mut dice = Dice::new();
        self.build(&mut dice);
        proof {
            assert(self.made_from(dice.drawn().skip(0)));
        }
    }

    fn get_map(&mut self) -> (map: TileMap) {
        self.state.map.clone()
    }

    fn get_starting_position(&mut self) -> (position: Position) {
        self.state.starting_position
    }

    fn get_snapshot_history(&self) -> (history: Vec<TileMap>) {
        self.state.get_snapshot_history()
    }

    fn take_snapshot(&mut self) {
        self.state.take_snapshot();
    }
}

impl DLABuilder {
    /// The seed of the noise by which spawn regions are told apart.
    pub closed spec fn spec_noise_seed(&self) -> int {
        self.state.noise_seed as int
    }

    /// The spawn regions: for each noise cell that holds a spawn tile, the
    /// indices of its spawn tiles.
    pub closed spec fn spec_noise_areas(&self) -> Map<i32, Vec<usize>> {
        self.state.noise_areas@
    }

    /// The seed of the noise by which spawn regions are told apart.
    pub fn noise_seed(&self) -> (seed: u64)
        ensures
            seed == self.spec_noise_seed(),
    {
        self.state.noise_seed
    }

    /// The spawn regions as last assigned.
    pub fn noise_areas(&self) -> (areas: &std::collections::HashMap<i32, Vec<usize>>)
        ensures
            areas@ == self.spec_noise_areas(),
    {
        &self.state.noise_areas
    }

    /// Groups the spawn tiles of the map, its floor tiles, by
    /// the noise cell that each lies in: `cell_values` holds, for every
    /// tile, the number of its cell. Each cell that holds a spawn tile is
    /// mapped to the indices of its spawn tiles in ascending order.
    pub fn assign_spawn_regions(&mut self, cell_values: &Vec<i32>)
        requires
            old(self).wf(),
            cell_values.len() == crate::map::MAP_COUNT,
        ensures
            final(self).wf(),
            final(self).map_view() == old(self).map_view(),
            final(self).start() == old(self).start(),
            final(self).history_view() == old(self).history_view(),
            final(self).level_ready() == old(self).level_ready(),
            final(self).spec_noise_seed() == old(self).spec_noise_seed(),
            forall|key: i32| #[trigger]
                final(self).spec_noise_areas().contains_key(key) <==> crate::map_builders::common::region_tiles(
                    old(self).map_view(),
                    cell_values@,
                    key,
                    crate::map::MAP_COUNT as int,
                ).len() > 0,
            forall|key: i32| #[trigger]
                final(self).spec_noise_areas().contains_key(key) ==> final(self).spec_noise_areas()[key]@
                    == crate::map_builders::common::region_tiles(
                    old(self).map_view(),
                    cell_values@,
                    key,
                    crate::map::MAP_COUNT as int,
                ),
    {
        proof {
            assert(self.state.map@.width * self.state.map@.height == 3440) by (nonlinear_arith)
                requires
                    self.state.map@.width == 80,
                    self.state.map@.height == 43,
            ;
        }
        self.state.assign_spawn_regions(cell_values);
    }
}

} // verus!
