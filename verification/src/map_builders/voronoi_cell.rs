use vstd::prelude::*;
use crate::dice::Dice;
use crate::map::{
    fresh_map, lemma_idx_in_range, lemma_idx_to_coords, Position, TileMap, TileMapView, TileType,
    MAP_COUNT, MAP_HEIGHT, MAP_WIDTH,
};
use crate::map_builders::common::{
    finishes, gap, is_finished_level, lemma_finished_level_start, lemma_finishes_unique,
    start_is_open,
};
use crate::map_builders::{views_of, BuilderState, MapBuilder};
use crate::pathing::point_of;

verus! {

/// How far a tile is taken to be from a seed.
#[derive(PartialEq, Eq, Structural, Copy, Clone, Debug)]
pub enum DistanceAlgorithm {
    /// The square of the straight-line distance.
    Pythagoras,
    /// The sum of the distances along the two axes.
    Manhattan,
    /// The larger of the distances along the two axes.
    Chebyshev,
}

/// The most tiles that one build draws in search of distinct seeds.
pub const SEED_ATTEMPT_LIMIT: u32 = 1_000_000;

/// The distance between the tiles `a` and `b` under the given rule.
pub open spec fn seed_distance(alg: DistanceAlgorithm, a: (int, int), b: (int, int)) -> int {
    let dx = gap(a.0, b.0);
    let dy = gap(a.1, b.1);
    match alg {
        DistanceAlgorithm::Pythagoras => dx * dx + dy * dy,
        DistanceAlgorithm::Manhattan => dx + dy,
        DistanceAlgorithm::Chebyshev => if dx > dy {
            dx
        } else {
            dy
        },
    }
}

/// The index of the seed among the first `k` that is nearest to `p`, the
/// first of them where several are equally near.
pub open spec fn nearest_among(
    seeds: Seq<(int, int)>,
    alg: DistanceAlgorithm,
    p: (int, int),
    k: int,
) -> int
    decreases k,
{
    if k <= 1 {
        0
    } else {
        let best = nearest_among(seeds, alg, p, k - 1);
        if seed_distance(alg, p, seeds[k - 1]) < seed_distance(alg, p, seeds[best]) {
            k - 1
        } else {
            best
        }
    }
}

/// The index of the seed that is nearest to `p`, the first of them where
/// several are equally near.
pub open spec fn nearest_seed(seeds: Seq<(int, int)>, alg: DistanceAlgorithm, p: (int, int)) -> int {
    nearest_among(seeds, alg, p, seeds.len() as int)
}

/// The nearest seed is a seed, no seed is nearer, and no seed before it is
/// as near.
pub proof fn lemma_nearest_is_first_minimum(
    seeds: Seq<(int, int)>,
    alg: DistanceAlgorithm,
    p: (int, int),
    k: int,
)
    requires
        1 <= k <= seeds.len(),
    ensures
        0 <= nearest_among(seeds, alg, p, k) < k,
        forall|j: int|
            0 <= j < k ==> seed_distance(alg, p, seeds[nearest_among(seeds, alg, p, k)])
                <= #[trigger] seed_distance(alg, p, seeds[j]),
        forall|j: int|
            0 <= j < nearest_among(seeds, alg, p, k) ==> seed_distance(
                alg,
                p,
                seeds[nearest_among(seeds, alg, p, k)],
            ) < #[trigger] seed_distance(alg, p, seeds[j]),
    decreases k,
{
    if k > 1 {
        lemma_nearest_is_first_minimum(seeds, alg, p, k - 1);
    }
}

/// The seeds that the rolls choose: each pair of rolls names a tile, which
/// becomes a seed unless it is one already or `n_seeds` seeds are chosen.
pub open spec fn seeds_from(n_seeds: int, rolls: Seq<int>) -> Seq<(int, int)>
    decreases rolls.len(),
{
    if rolls.len() < 2 {
        Seq::empty()
    } else {
        let chosen = seeds_from(n_seeds, rolls.take(rolls.len() - 2));
        let p = (rolls[rolls.len() - 2] + 1, rolls[rolls.len() - 1] + 1);
        if chosen.len() < n_seeds && !chosen.contains(p) {
            chosen.push(p)
        } else {
            chosen
        }
    }
}

/// The rolls are those that the choosing of the seeds reads: pairs of
/// rolls, no more than `SEED_ATTEMPT_LIMIT` of them; they end when
/// `n_seeds` seeds are chosen or `SEED_ATTEMPT_LIMIT` pairs have been read,
/// and not before.
pub open spec fn seeds_chosen(n_seeds: int, rolls: Seq<int>) -> bool {
    &&& rolls.len() % 2 == 0
    &&& rolls.len() <= 2 * SEED_ATTEMPT_LIMIT
    &&& seeds_from(n_seeds, rolls).len() == n_seeds || rolls.len() == 2 * SEED_ATTEMPT_LIMIT
    &&& rolls.len() >= 2 ==> seeds_from(n_seeds, rolls.take(rolls.len() - 2)).len() < n_seeds
}

/// For every tile of a grid of `w` columns and `h` rows, the index of the
/// seed that is nearest to it.
pub open spec fn regions_of(seeds: Seq<(int, int)>, alg: DistanceAlgorithm, w: int, h: int) -> Seq<
    int,
> {
    Seq::new((w * h) as nat, |i: int| nearest_seed(seeds, alg, (i % w, i / w)))
}

/// How many of the four orthogonal neighbours of the tile at index `i` lie
/// in another region than the tile itself.
pub open spec fn strangers(regions: Seq<int>, w: int, i: int) -> int {
    (if regions[i + 1] != regions[i] {
        1int
    } else {
        0int
    }) + (if regions[i - 1] != regions[i] {
        1int
    } else {
        0int
    }) + (if regions[i + w] != regions[i] {
        1int
    } else {
        0int
    }) + (if regions[i - w] != regions[i] {
        1int
    } else {
        0int
    })
}

/// Whether the tile `(x, y)` lies off the border of the grid.
pub open spec fn interior(w: int, h: int, x: int, y: int) -> bool {
    1 <= x < w - 1 && 1 <= y < h - 1
}

/// The tiles after the cells have been carved up to, but not including,
/// column `cx` of row `cy`: a tile off the border that the scan has passed
/// and that has fewer than two strangers among its neighbours is floor, and
/// every other tile is as it was.
pub open spec fn cells_carved(
    tiles: Seq<TileType>,
    regions: Seq<int>,
    w: int,
    h: int,
    cx: int,
    cy: int,
) -> Seq<TileType> {
    Seq::new(
        tiles.len(),
        |i: int|
            if interior(w, h, i % w, i / w) && (i / w < cy || (i / w == cy && i % w < cx))
                && strangers(regions, w, i) < 2 {
                TileType::Floor
            } else {
                tiles[i]
            },
    )
}

/// The map that the seeds carve out of a fresh map.
pub open spec fn voronoi_map(depth: int, seeds: Seq<(int, int)>, alg: DistanceAlgorithm) -> TileMapView {
    let m = fresh_map(depth);
    m.with_tiles(
        cells_carved(
            m.tiles,
            regions_of(seeds, alg, m.width, m.height),
            m.width,
            m.height,
            1,
            m.height - 1,
        ),
    )
}

/// The seeds as pairs of column and row.
pub open spec fn points_of(seeds: Seq<Position>) -> Seq<(int, int)> {
    Seq::new(seeds.len(), |i: int| (seeds[i].x as int, seeds[i].y as int))
}

/// Every seed lies on the map.
pub open spec fn seeds_on_map(seeds: Seq<Position>, w: int, h: int) -> bool {
    forall|i: int|
        0 <= i < seeds.len() ==> 0 <= (#[trigger] seeds[i]).x < w && 0 <= seeds[i].y < h
}

/// The distance between two tiles under the given rule.
pub fn distance_between(alg: DistanceAlgorithm, ax: i32, ay: i32, bx: i32, by: i32) -> (d: i64)
    requires
        -0x4000 <= ax <= 0x4000,
        -0x4000 <= ay <= 0x4000,
        -0x4000 <= bx <= 0x4000,
        -0x4000 <= by <= 0x4000,
    ensures
        d == seed_distance(alg, (ax as int, ay as int), (bx as int, by as int)),
{
    let dx: i64 = if ax >= bx {
        (ax - bx) as i64
    } else {
        (bx - ax) as i64
    };
    let dy: i64 = if ay >= by {
        (ay - by) as i64
    } else {
        (by - ay) as i64
    };
    match alg {
        DistanceAlgorithm::Pythagoras => {
            assert(0 <= dx * dx <= 0x8000 * 0x8000) by (nonlinear_arith)
                requires
                    0 <= dx <= 0x8000,
            ;
            assert(0 <= dy * dy <= 0x8000 * 0x8000) by (nonlinear_arith)
                requires
                    0 <= dy <= 0x8000,
            ;
            dx * dx + dy * dy
        },
        DistanceAlgorithm::Manhattan => dx + dy,
        DistanceAlgorithm::Chebyshev => if dx > dy {
            dx
        } else {
            dy
        },
    }
}

/// Whether `(x, y)` is one of the seeds.
pub fn is_seed(seeds: &Vec<Position>, x: i32, y: i32) -> (found: bool)
    ensures
        found == points_of(seeds@).contains((x as int, y as int)),
{
    let mut i: usize = 0;
    while i < seeds.len()
        invariant
            i <= seeds.len(),
            forall|k: int| 0 <= k < i ==> points_of(seeds@)[k] != (x as int, y as int),
        decreases seeds.len() - i,
    {
        if seeds[i].x == x && seeds[i].y == y {
            assert(points_of(seeds@)[i as int] == (x as int, y as int));
            return true;
        }
        i += 1;
    }
    false
}

/// The index of the seed that is nearest to `(x, y)`, the first of them
/// where several are equally near.
pub fn nearest_region(seeds: &Vec<Position>, alg: DistanceAlgorithm, x: i32, y: i32) -> (region:
    usize)
    requires
        seeds.len() >= 1,
        seeds_on_map(seeds@, 0x4000, 0x4000),
        0 <= x <= 0x4000,
        0 <= y <= 0x4000,
    ensures
        region == nearest_seed(points_of(seeds@), alg, (x as int, y as int)),
        region < seeds.len(),
{
    let ghost pts = points_of(seeds@);
    let ghost p = (x as int, y as int);
    let mut best: usize = 0;
    let mut best_distance = distance_between(alg, x, y, seeds[0].x, seeds[0].y);
    let mut k: usize = 1;
    while k < seeds.len()
        invariant
            1 <= k <= seeds.len(),
            pts == points_of(seeds@),
            p == (x as int, y as int),
            seeds_on_map(seeds@, 0x4000, 0x4000),
            0 <= x <= 0x4000,
            0 <= y <= 0x4000,
            best < k,
            best == nearest_among(pts, alg, p, k as int),
            best_distance == seed_distance(alg, p, pts[best as int]),
        decreases seeds.len() - k,
    {
        let distance = distance_between(alg, x, y, seeds[k].x, seeds[k].y);
        assert(pts[k as int] == (seeds[k as int].x as int, seeds[k as int].y as int));
        if distance < best_distance {
            best = k;
            best_distance = distance;
        }
        k += 1;
    }
    best
}

/// For every tile of the map, the index of the seed that is nearest to it.
pub fn voronoi_regions(map: &TileMap, seeds: &Vec<Position>, alg: DistanceAlgorithm) -> (regions:
    Vec<usize>)
    requires
        map.wf(),
        map.width <= 0x4000,
        map.height <= 0x4000,
        seeds.len() >= 1,
        seeds_on_map(seeds@, map@.width, map@.height),
    ensures
        regions.len() == map.tiles.len(),
        forall|i: int|
            0 <= i < regions.len() ==> #[trigger] regions[i] == regions_of(
                points_of(seeds@),
                alg,
                map@.width,
                map@.height,
            )[i],
        forall|i: int| 0 <= i < regions.len() ==> #[trigger] regions[i] < seeds.len(),
{
    let n = map.tiles.len();
    let w = map.width as usize;
    let mut regions: Vec<usize> = Vec::new();
    let mut tile_idx: usize = 0;
    while tile_idx < n
        invariant
            map.wf(),
            map.width <= 0x4000,
            map.height <= 0x4000,
            seeds.len() >= 1,
            seeds_on_map(seeds@, map@.width, map@.height),
            n == map.tiles.len(),
            w == map.width,
            tile_idx <= n,
            regions.len() == tile_idx,
            forall|i: int|
                0 <= i < regions.len() ==> #[trigger] regions[i] == regions_of(
                    points_of(seeds@),
                    alg,
                    map@.width,
                    map@.height,
                )[i],
            forall|i: int| 0 <= i < regions.len() ==> #[trigger] regions[i] < seeds.len(),
        decreases n - tile_idx,
    {
        proof {
            lemma_idx_to_coords(map@.width, map@.height, tile_idx as int);
        }
        let tile_x = (tile_idx % w) as i32;
        let tile_y = (tile_idx / w) as i32;
        let closest_region = nearest_region(seeds, alg, tile_x, tile_y);
        regions.push(closest_region);
        tile_idx += 1;
    }
    regions
}

/// Builds a level of cells around random seeds: the borders between the
/// cells stay walls, their insides become floor.
pub struct VoronoiCellBuilder {
    state: BuilderState,
    n_seeds: usize,
    distance_algorithm: DistanceAlgorithm,
}

impl VoronoiCellBuilder {
    /// The number of seeds that the builder scatters.
    pub closed spec fn spec_n_seeds(&self) -> int {
        self.n_seeds as int
    }

    /// The measure by which the nearest seed is found.
    pub closed spec fn spec_distance_algorithm(&self) -> DistanceAlgorithm {
        self.distance_algorithm
    }

    /// The depth of the level that the builder makes.
    pub closed spec fn spec_depth(&self) -> int {
        self.state.depth as int
    }

    /// The seed of the noise by which spawn regions are told apart.
    pub closed spec fn spec_noise_seed(&self) -> int {
        self.state.noise_seed as int
    }

    /// The builder can work: its state is well-formed and it is to choose
    /// at least one seed.
    pub closed spec fn ready(&self) -> bool {
        self.state.wf() && self.n_seeds >= 1
    }

    /// Sixty-four seeds and the squared straight-line distance.
    pub fn pythagoras(new_depth: i32) -> (builder: VoronoiCellBuilder)
        ensures
            builder.wf(),
            builder.spec_n_seeds() == 64,
            builder.spec_distance_algorithm() == DistanceAlgorithm::Pythagoras,
            builder.spec_depth() == new_depth,
            builder.history_view().len() == 0,
            builder.spec_noise_areas() == Map::<i32, Vec<usize>>::empty(),
            builder.map_view() == fresh_map(new_depth as int),
    {
        VoronoiCellBuilder {
            state: BuilderState::new(new_depth),
            n_seeds: 64,
            distance_algorithm: DistanceAlgorithm::Pythagoras,
        }
    }

    /// Sixty-four seeds and the Manhattan distance.
    pub fn manhattan(new_depth: i32) -> (builder: VoronoiCellBuilder)
        ensures
            builder.wf(),
            builder.spec_n_seeds() == 64,
            builder.spec_distance_algorithm() == DistanceAlgorithm::Manhattan,
            builder.spec_depth() == new_depth,
            builder.history_view().len() == 0,
            builder.spec_noise_areas() == Map::<i32, Vec<usize>>::empty(),
            builder.map_view() == fresh_map(new_depth as int),
    {
        VoronoiCellBuilder {
            state: BuilderState::new(new_depth),
            n_seeds: 64,
            distance_algorithm: DistanceAlgorithm::Manhattan,
        }
    }

    /// Thirty-two seeds and the Chebyshev distance.
    pub fn chebyshev(new_depth: i32) -> (builder: VoronoiCellBuilder)
        ensures
            builder.wf(),
            builder.spec_n_seeds() == 32,
            builder.spec_distance_algorithm() == DistanceAlgorithm::Chebyshev,
            builder.spec_depth() == new_depth,
            builder.history_view().len() == 0,
            builder.spec_noise_areas() == Map::<i32, Vec<usize>>::empty(),
            builder.map_view() == fresh_map(new_depth as int),
    {
        VoronoiCellBuilder {
            state: BuilderState::new(new_depth),
            n_seeds: 32,
            distance_algorithm: DistanceAlgorithm::Chebyshev,
        }
    }

    /// Draws tiles until `n_seeds` distinct ones are chosen as seeds, or
    /// `SEED_ATTEMPT_LIMIT` tiles have been drawn.
    fn choose_seeds(&self, dice: &mut Dice) -> (seeds: Vec<Position>)
        requires
            self.ready(),
        ensures
            seeds.len() >= 1,
            seeds_on_map(seeds@, MAP_WIDTH as int, MAP_HEIGHT as int),
            forall|i: int| 0 <= i < seeds.len() ==> 2 <= (#[trigger] seeds[i]).x && 2 <= seeds[i].y,
            old(dice).drawn().len() <= final(dice).drawn().len(),
            final(dice).drawn().take(old(dice).drawn().len() as int) == old(dice).drawn(),
            points_of(seeds@) == seeds_from(
                self.n_seeds as int,
                final(dice).drawn().skip(old(dice).drawn().len() as int),
            ),
            (final(dice).drawn().len() - old(dice).drawn().len()) % 2 == 0,
            seeds_chosen(
                self.n_seeds as int,
                final(dice).drawn().skip(old(dice).drawn().len() as int),
            ),
    {
        let ghost d0 = dice.drawn();
        let n_seeds = self.n_seeds;
        let mut voronoi_seeds: Vec<Position> = Vec::new();
        let mut attempts: u32 = SEED_ATTEMPT_LIMIT;
        proof {
            assert(dice.drawn().take(d0.len() as int) =~= d0);
            assert(dice.drawn().skip(d0.len() as int) =~= Seq::<int>::empty());
            assert(points_of(voronoi_seeds@) =~= Seq::<(int, int)>::empty());
        }
        while voronoi_seeds.len() < n_seeds && attempts > 0
            invariant
                self.ready(),
                n_seeds == self.n_seeds,
                d0 == old(dice).drawn(),
                d0.len() <= dice.drawn().len(),
                dice.drawn().take(d0.len() as int) == d0,
                (dice.drawn().len() - d0.len()) % 2 == 0,
                voronoi_seeds.len() <= n_seeds,
                attempts <= SEED_ATTEMPT_LIMIT,
                dice.drawn().len() - d0.len() == 2 * (SEED_ATTEMPT_LIMIT - attempts),
                dice.drawn().len() - d0.len() >= 2 ==> seeds_from(
                    n_seeds as int,
                    dice.drawn().skip(d0.len() as int).take(dice.drawn().len() - d0.len() - 2),
                ).len() < n_seeds,
                attempts < SEED_ATTEMPT_LIMIT ==> voronoi_seeds.len() >= 1,
                seeds_on_map(voronoi_seeds@, MAP_WIDTH as int, MAP_HEIGHT as int),
                forall|i: int|
                    0 <= i < voronoi_seeds.len() ==> 2 <= (#[trigger] voronoi_seeds[i]).x && 2
                        <= voronoi_seeds[i].y,
                points_of(voronoi_seeds@) == seeds_from(
                    n_seeds as int,
                    dice.drawn().skip(d0.len() as int),
                ),
            decreases attempts,
        {
            let ghost d1 = dice.drawn();
            let ghost before = points_of(voronoi_seeds@);
            let random_x = dice.roll(self.state.map.width - 3) + 1;
            let random_y = dice.roll(self.state.map.height - 3) + 1;
            let fresh = !is_seed(&voronoi_seeds, random_x, random_y);
            if fresh {
                voronoi_seeds.push(Position { x: random_x, y: random_y });
            }
            proof {
                let since = dice.drawn().skip(d0.len() as int);
                assert(dice.drawn() == d1.push(random_x - 1).push(random_y - 1));
                assert(since.take(since.len() - 2) =~= d1.skip(d0.len() as int));
                assert(since[since.len() - 2] == random_x - 1);
                assert(since[since.len() - 1] == random_y - 1);
                assert(dice.drawn().take(d0.len() as int) =~= d1.take(d0.len() as int));
                if fresh {
                    assert(points_of(voronoi_seeds@) =~= before.push(
                        (random_x as int, random_y as int),
                    ));
                } else {
                    assert(points_of(voronoi_seeds@) =~= before);
                }
            }
            attempts -= 1;
        }
        voronoi_seeds
    }

    /// Turns every tile off the border that has fewer than two strangers
    /// among its orthogonal neighbours into floor, row by row, and takes a
    /// snapshot after each row.
    fn carve_cells(&mut self, regions: &Vec<usize>)
        requires
            old(self).ready(),
            regions.len() == old(self).state.map.tiles.len(),
        ensures
            final(self).ready(),
            final(self).n_seeds == old(self).n_seeds,
            final(self).distance_algorithm == old(self).distance_algorithm,
            final(self).state.depth == old(self).state.depth,
            final(self).state.starting_position == old(self).state.starting_position,
            final(self).state.map@ == old(self).state.map@.with_tiles(
                cells_carved(
                    old(self).state.map.tiles@,
                    regions@.map_values(|r: usize| r as int),
                    MAP_WIDTH as int,
                    MAP_HEIGHT as int,
                    1,
                    MAP_HEIGHT as int - 1,
                ),
            ),
            old(self).state.history.len() <= final(self).state.history.len(),
            final(self).state.history@.take(old(self).state.history.len() as int) == old(
                self,
            ).state.history@,
    {
        let ghost t0 = self.state.map.tiles@;
        let ghost m0 = self.state.map@;
        let ghost h0 = self.state.history@;
        let ghost rs = regions@.map_values(|r: usize| r as int);
        let mut y: i32 = 1;
        proof {
            assert(m0.width * m0.height == 3440) by (nonlinear_arith)
                requires
                    m0.width == 80,
                    m0.height == 43,
            ;
            assert(self.state.map.tiles@ =~= cells_carved(t0, rs, 80, 43, 1, 1)) by {
                assert forall|i: int| 0 <= i < t0.len() implies t0[i] == cells_carved(
                    t0,
                    rs,
                    80,
                    43,
                    1,
                    1,
                )[i] by {
                    if i / 80 == 1 {
                        assert(!(i % 80 < 1 && interior(80, 43, i % 80, i / 80)));
                    }
                }
            }
            assert(self.state.history@.take(h0.len() as int) =~= h0);
        }
        while y < self.state.map.height - 1
            invariant
                self.ready(),
                self.n_seeds == old(self).n_seeds,
                self.distance_algorithm == old(self).distance_algorithm,
                self.state.depth == old(self).state.depth,
                self.state.starting_position == old(self).state.starting_position,
                m0 == old(self).state.map@,
                t0 == m0.tiles,
                rs == regions@.map_values(|r: usize| r as int),
                regions.len() == 3440,
                1 <= y <= 42,
                self.state.map@ == m0.with_tiles(self.state.map.tiles@),
                self.state.map.tiles@ == cells_carved(t0, rs, 80, 43, 1, y as int),
                h0.len() <= self.state.history.len(),
                self.state.history@.take(h0.len() as int) == h0,
            decreases 42 - y,
        {
            let mut x: i32 = 1;
            while x < self.state.map.width - 1
                invariant
                    self.ready(),
                    self.n_seeds == old(self).n_seeds,
                    self.distance_algorithm == old(self).distance_algorithm,
                    self.state.depth == old(self).state.depth,
                    self.state.starting_position == old(self).state.starting_position,
                    m0 == old(self).state.map@,
                    t0 == m0.tiles,
                    rs == regions@.map_values(|r: usize| r as int),
                    regions.len() == 3440,
                    1 <= y < 42,
                    1 <= x <= 79,
                    self.state.map@ == m0.with_tiles(self.state.map.tiles@),
                    self.state.map.tiles@ == cells_carved(t0, rs, 80, 43, x as int, y as int),
                    h0.len() <= self.state.history.len(),
                    self.state.history@.take(h0.len() as int) == h0,
                decreases 79 - x,
            {
                let tile_idx = self.state.map.xy_idx(x, y);
                proof {
                    lemma_idx_in_range(80, 43, x as int, y as int);
                    assert(tile_idx == y * 80 + x) by (nonlinear_arith)
                        requires
                            tile_idx == y * self.state.map@.width + x,
                            self.state.map@.width == 80,
                    ;
                }
                let tile_region = regions[tile_idx];
                let mut neighbors_count: usize = 0;
                if regions[tile_idx + 1] != tile_region {
                    neighbors_count += 1;
                }
                if regions[tile_idx - 1] != tile_region {
                    neighbors_count += 1;
                }
                if regions[tile_idx + 80] != tile_region {
                    neighbors_count += 1;
                }
                if regions[tile_idx - 80] != tile_region {
                    neighbors_count += 1;
                }
                assert(neighbors_count == strangers(rs, 80, tile_idx as int));
                let ghost before = self.state.map.tiles@;
                if neighbors_count < 2 {
                    self.state.map.tiles[tile_idx] = TileType::Floor;
                }
                proof {
                    assert forall|i: int| 0 <= i < t0.len() implies #[trigger] self.state.map.tiles[i]
                        == cells_carved(t0, rs, 80, 43, x + 1, y as int)[i] by {
                        assert(before[i] == cells_carved(t0, rs, 80, 43, x as int, y as int)[i]);
                        if i != tile_idx {
                            assert(!(i % 80 == x && i / 80 == y));
                        }
                    }
                    assert(self.state.map.tiles@ =~= cells_carved(t0, rs, 80, 43, x + 1, y as int));
                }
                x += 1;
            }
            proof {
                assert(self.state.map.tiles@ =~= cells_carved(t0, rs, 80, 43, 1, y + 1)) by {
                    assert forall|i: int| 0 <= i < t0.len() implies cells_carved(
                        t0,
                        rs,
                        80,
                        43,
                        79,
                        y as int,
                    )[i] == cells_carved(t0, rs, 80, 43, 1, y + 1)[i] by {
                    }
                }
            }
            let ghost h1 = self.state.history@;
            self.state.take_snapshot();
            assert(self.state.history@.take(h0.len() as int) =~= h1.take(h0.len() as int));
            y += 1;
        }
    }

    /// The level is what the rolls make of a fresh map: all rolls but the
    /// last choose the seeds, and are just those that the choosing reads;
    /// the cells around the seeds are carved, the map is finished from the
    /// first seed, and the last roll is the noise seed.
    pub open spec fn built_from(&self, rolls: Seq<int>) -> bool {
        let seeds = seeds_from(self.spec_n_seeds(), rolls.drop_last());
        &&& rolls.len() >= 1
        &&& seeds.len() >= 1
        &&& seeds_chosen(self.spec_n_seeds(), rolls.drop_last())
        &&& self.spec_noise_seed() == rolls.last()
        &&& self.start() == seeds[0]
        &&& exists|e: int| #[trigger]
            finishes(
                voronoi_map(self.spec_depth(), seeds, self.spec_distance_algorithm()),
                seeds[0],
                e,
                self.map_view(),
            )
    }

    /// The first seed that the rolls choose lies on a floor tile of the map
    /// that is carved around the seeds.
    pub open spec fn found_floor(&self, rolls: Seq<int>) -> bool {
        let seeds = seeds_from(self.spec_n_seeds(), rolls.drop_last());
        voronoi_map(self.spec_depth(), seeds, self.spec_distance_algorithm()).at(
            seeds[0].0,
            seeds[0].1,
        ) == TileType::Floor
    }

    /// Builds the level with the given dice: starts from a map of walls,
    /// chooses the seeds, assigns every tile to its nearest seed, carves the
    /// cells, makes the first seed the starting tile, culls what it does not
    /// reach, places the down stairs and draws the noise seed. Where the
    /// first seed lies on floor, the starting tile is not walled in.
    pub fn build(&mut self, dice: &mut Dice)
        requires
            old(self).wf(),
        ensures
            final(self).wf(),
            final(self).level_ready(),
            final(self).found_floor(final(dice).drawn().skip(old(dice).drawn().len() as int))
                ==> start_is_open(final(self).map_view(), final(self).start()),
            final(self).spec_n_seeds() == old(self).spec_n_seeds(),
            final(self).spec_distance_algorithm() == old(self).spec_distance_algorithm(),
            final(self).spec_depth() == old(self).spec_depth(),
            old(dice).drawn().len() <= final(dice).drawn().len(),
            final(dice).drawn().take(old(dice).drawn().len() as int) == old(dice).drawn(),
            final(self).built_from(final(dice).drawn().skip(old(dice).drawn().len() as int)),
            old(self).history_view().len() <= final(self).history_view().len(),
            final(self).history_view().take(old(self).history_view().len() as int) == old(
                self,
            ).history_view(),
    {
        let ghost h0 = self.state.history@;
        let ghost d0 = dice.drawn();
        let ghost depth = self.state.depth as int;
        self.state.map = TileMap::new(self.state.depth);
        let voronoi_seeds = self.choose_seeds(dice);
        let ghost d1 = dice.drawn();
        let ghost seeds = points_of(voronoi_seeds@);
        let voronoi_regions = voronoi_regions(
            &self.state.map,
            &voronoi_seeds,
            self.distance_algorithm,
        );
        let ghost rs = regions_of(seeds, self.distance_algorithm, 80, 43);
        proof {
            assert(80int * 43int == 3440) by (nonlinear_arith);
            assert(voronoi_regions@.map_values(|r: usize| r as int) =~= rs);
        }
        self.carve_cells(&voronoi_regions);
        let ghost pre = self.state.map@;
        let ghost h1 = self.state.history@;
        self.state.starting_position = Position { x: voronoi_seeds[0].x, y: voronoi_seeds[0].y };
        let start_idx = self.state.map.xy_idx(voronoi_seeds[0].x, voronoi_seeds[0].y);
        proof {
            assert forall|i: int| 0 <= i < pre.tiles.len() implies #[trigger] pre.tiles[i]
                == TileType::Wall || pre.tiles[i] == TileType::Floor by {
            }
        }
        self.state.place_exit(start_idx, false);
        self.state.draw_noise_seed(dice);
        proof {
            let sx = voronoi_seeds[0].x as int;
            let sy = voronoi_seeds[0].y as int;
            lemma_idx_in_range(pre.width, pre.height, sx, sy);
            assert(seeds[0] == (sx, sy));
            assert(point_of(pre, start_idx as int) == (sx, sy));
            let rolls = dice.drawn().skip(d0.len() as int);
            assert(rolls.drop_last() =~= d1.skip(d0.len() as int));
            assert(dice.drawn().take(d0.len() as int) =~= d1.take(d0.len() as int));
            assert(pre == voronoi_map(depth, seeds, self.distance_algorithm));
            let e = choose|e: int| #[trigger] finishes(pre, (sx, sy), e, self.state.map@);
            assert(finishes(pre, self.state.start(), e, self.state.map@));
            let chosen = seeds_from(self.spec_n_seeds(), rolls.drop_last());
            assert(chosen == seeds);
            if pre.at(sx, sy) == TileType::Floor {
                lemma_finished_level_start(pre, (sx, sy), e, self.state.map@);
            }
            assert(finishes(
                voronoi_map(self.spec_depth(), chosen, self.spec_distance_algorithm()),
                chosen[0],
                e,
                self.map_view(),
            ));
            assert(self.state.history@.take(h0.len() as int) =~= h1.take(h0.len() as int));
            assert(views_of(self.state.history@).take(views_of(h0).len() as int) =~= views_of(h0));
        }
    }
}

/// Two Voronoi builders of one depth, with the same number of seeds and the
/// same distance, that were built from the same rolls hold the same map.
pub proof fn lemma_voronoi_deterministic(a: VoronoiCellBuilder, b: VoronoiCellBuilder, rolls: Seq<int>)
    requires
        a.built_from(rolls),
        b.built_from(rolls),
        a.spec_n_seeds() == b.spec_n_seeds(),
        a.spec_distance_algorithm() == b.spec_distance_algorithm(),
        a.spec_depth() == b.spec_depth(),
    ensures
        a.map_view() == b.map_view(),
        a.start() == b.start(),
        a.spec_noise_seed() == b.spec_noise_seed(),
{
    let seeds = seeds_from(a.spec_n_seeds(), rolls.drop_last());
    let pre = voronoi_map(a.spec_depth(), seeds, a.spec_distance_algorithm());
    let ea = choose|e: int| #[trigger] finishes(pre, seeds[0], e, a.map_view());
    let eb = choose|e: int| #[trigger] finishes(pre, seeds[0], e, b.map_view());
    lemma_finishes_unique(pre, seeds[0], ea, a.map_view(), eb, b.map_view());
}

impl MapBuilder for VoronoiCellBuilder {
    closed spec fn wf(&self) -> bool {
        self.ready()
    }

    closed spec fn map_view(&self) -> TileMapView {
        self.state.map@
    }

    closed spec fn start(&self) -> (int, int) {
        self.state.start()
    }

    closed spec fn history_view(&self) -> Seq<TileMapView> {
        views_of(self.state.history@)
    }

    open spec fn level_ready(&self) -> bool {
        is_finished_level(self.map_view(), self.start())
    }

    open spec fn made_from(&self, rolls: Seq<int>) -> bool {
        self.built_from(rolls)
    }

    fn build_map(&mut self) {
        let mut dice = Dice::new();
        self.build(&mut dice);
        proof {
            assert(self.made_from(dice.drawn().skip(0)));
        }
    }

    fn get_map(&mut self) -> (map: TileMap) {
        self.state.map.clone()
    }

    fn get_starting_position(&mut self) -> (position: Position) {
        self.state.starting_position
    }

    fn get_snapshot_history(&self) -> (history: Vec<TileMap>) {
        self.state.get_snapshot_history()
    }

    fn take_snapshot(&mut self) {
        self.state.take_snapshot();
    }
}

impl VoronoiCellBuilder {
    /// The spawn regions: for each noise cell that holds a spawn tile, the
    /// indices of its spawn tiles.
    pub closed spec fn spec_noise_areas(&self) -> Map<i32, Vec<usize>> {
        self.state.noise_areas@
    }

    /// The seed of the noise by which spawn regions are told apart.
    pub fn noise_seed(&self) -> (seed: u64)
        ensures
            seed == self.spec_noise_seed(),
    {
        self.state.noise_seed
    }

    /// The spawn regions as last assigned.
    pub fn noise_areas(&self) -> (areas: &std::collections::HashMap<i32, Vec<usize>>)
        ensures
            areas@ == self.spec_noise_areas(),
    {
        &self.state.noise_areas
    }

    /// Groups the spawn tiles of the map, its floor tiles, by
    /// the noise cell that each lies in: `cell_values` holds, for every
    /// tile, the number of its cell. Each cell that holds a spawn tile is
    /// mapped to the indices of its spawn tiles in ascending order.
    pub fn assign_spawn_regions(&mut self, cell_values: &Vec<i32>)
        requires
            old(self).wf(),
            cell_values.len() == crate::map::MAP_COUNT,
        ensures
            final(self).wf(),
            final(self).map_view() == old(self).map_view(),
            final(self).start() == old(self).start(),
            final(self).history_view() == old(self).history_view(),
            final(self).level_ready() == old(self).level_ready(),
            final(self).spec_noise_seed() == old(self).spec_noise_seed(),
            forall|key: i32| #[trigger]
                final(self).spec_noise_areas().contains_key(key) <==> crate::map_builders::common::region_tiles(
                    old(self).map_view(),
                    cell_values@,
                    key,
                    crate::map::MAP_COUNT as int,
                ).len() > 0,
            forall|key: i32| #[trigger]
                final(self).spec_noise_areas().contains_key(key) ==> final(self).spec_noise_areas()[key]@
                    == crate::map_builders::common::region_tiles(
                    old(self).map_view(),
                    cell_values@,
                    key,
                    crate::map::MAP_COUNT as int,
                ),
    {
        proof {
            assert(self.state.map@.width * self.state.map@.height == 3440) by (nonlinear_arith)
                requires
                    self.state.map@.width == 80,
                    self.state.map@.height == 43,
            ;
        }
        self.state.assign_spawn_regions(cell_values);
    }
}

} // verus!
