use vstd::prelude::*;
use crate::dice::Dice;
use crate::map::{
    copy_tiles, fresh_map, lemma_idx_in_range, Position, TileMap, TileMapView, TileType,
    MAP_COUNT, MAP_HEIGHT, MAP_WIDTH,
};
use crate::map_builders::common::{
    finishes, is_finished_level, lemma_finished_level_start, lemma_finishes_unique,
    only_walls_and_floors, start_is_open,
};
use crate::map_builders::{views_of, BuilderState, MapBuilder};
use crate::pathing::point_of;

verus! {

/// The number of smoothing passes.
pub const SMOOTHING_PASSES: u32 = 15;

/// A roll of the hundred-sided die above this makes a tile floor.
pub const FLOOR_ROLL: i32 = 55;

/// The number of rolls that seed the map: one for each tile off the border.
pub const SEEDING_ROLLS: usize = 3198;

/// Whether the tile `(x, y)` of the standard map lies off its border.
pub open spec fn inner(x: int, y: int) -> bool {
    1 <= x < MAP_WIDTH - 1 && 1 <= y < MAP_HEIGHT - 1
}

/// The place in the stream of seeding rolls of the roll for the tile
/// `(x, y)`: the tiles off the border are rolled for row by row.
pub open spec fn roll_index(x: int, y: int) -> int {
    (y - 1) * (MAP_WIDTH - 2) + (x - 1)
}

/// What a seeding roll makes of a tile.
pub open spec fn seeded_tile(roll: int) -> TileType {
    if roll > FLOOR_ROLL {
        TileType::Floor
    } else {
        TileType::Wall
    }
}

/// Whether the scan of the standard map, row by row, has passed the tile
/// `(x, y)` when it stands at column `cx` of row `cy`.
pub open spec fn scanned(cx: int, cy: int, x: int, y: int) -> bool {
    inner(x, y) && (y < cy || (y == cy && x < cx))
}

/// The tiles after seeding up to, but not including, column `cx` of row
/// `cy`: each tile off the border that the scan has passed is what its roll
/// makes of it, and every other tile is a wall.
pub open spec fn seeded_upto(rolls: Seq<int>, cx: int, cy: int) -> Seq<TileType> {
    Seq::new(
        MAP_COUNT as nat,
        |i: int|
            if scanned(cx, cy, i % (MAP_WIDTH as int), i / (MAP_WIDTH as int)) {
                seeded_tile(rolls[roll_index(i % (MAP_WIDTH as int), i / (MAP_WIDTH as int))])
            } else {
                TileType::Wall
            },
    )
}

/// The tiles after seeding: each tile off the border is what its roll makes
/// of it, and the border is wall.
pub open spec fn seeded(rolls: Seq<int>) -> Seq<TileType> {
    seeded_upto(rolls, 1, MAP_HEIGHT - 1)
}

/// One if the tile at index `i` is a wall, zero otherwise.
pub open spec fn wall_at(tiles: Seq<TileType>, i: int) -> int {
    if tiles[i] == TileType::Wall {
        1
    } else {
        0
    }
}

/// The number of walls among the eight neighbours of the tile at index `i`
/// of a grid that is `w` tiles wide.
pub open spec fn wall_neighbours(tiles: Seq<TileType>, w: int, i: int) -> int {
    wall_at(tiles, i - 1) + wall_at(tiles, i + 1) + wall_at(tiles, i - w) + wall_at(tiles, i + w)
        + wall_at(tiles, i - (w - 1)) + wall_at(tiles, i - (w + 1)) + wall_at(tiles, i + (w - 1))
        + wall_at(tiles, i + (w + 1))
}

/// What a smoothing pass makes of a tile with `neighbours` walls around it.
pub open spec fn smoothed_tile(neighbours: int) -> TileType {
    if neighbours > 4 || neighbours == 0 {
        TileType::Wall
    } else {
        TileType::Floor
    }
}

/// The tiles in the middle of a smoothing pass that stands at column `cx`
/// of row `cy`: each tile off the border that the scan has passed is what
/// the walls around it in `tiles` make of it, and every other tile is as it
/// is in `tiles`.
pub open spec fn smoothed_upto(tiles: Seq<TileType>, cx: int, cy: int) -> Seq<TileType> {
    Seq::new(
        tiles.len(),
        |i: int|
            if scanned(cx, cy, i % (MAP_WIDTH as int), i / (MAP_WIDTH as int)) {
                smoothed_tile(wall_neighbours(tiles, MAP_WIDTH as int, i))
            } else {
                tiles[i]
            },
    )
}

/// The tiles after one smoothing pass.
pub open spec fn smoothed(tiles: Seq<TileType>) -> Seq<TileType> {
    smoothed_upto(tiles, 1, MAP_HEIGHT - 1)
}

/// The tiles after `k` smoothing passes.
pub open spec fn smoothed_times(tiles: Seq<TileType>, k: nat) -> Seq<TileType>
    decreases k,
{
    if k == 0 {
        tiles
    } else {
        smoothed(smoothed_times(tiles, (k - 1) as nat))
    }
}

/// The column at which a search for floor that goes left from column `x`
/// of row `y` ends: at the first floor tile, or at the left edge.
pub open spec fn start_column(tiles: Seq<TileType>, x: int, y: int) -> int
    decreases x,
{
    if x <= 0 || tiles[y * MAP_WIDTH + x] == TileType::Floor {
        x
    } else {
        start_column(tiles, x - 1, y)
    }
}

/// The map that the seeding rolls grow into: seeded and then smoothed.
pub open spec fn cellular_map(depth: int, rolls: Seq<int>) -> TileMapView {
    fresh_map(depth).with_tiles(smoothed_times(seeded(rolls), SMOOTHING_PASSES as nat))
}

/// The starting tile on the map that the seeding rolls grow into.
pub open spec fn cellular_start(depth: int, rolls: Seq<int>) -> (int, int) {
    (
        start_column(cellular_map(depth, rolls).tiles, MAP_WIDTH as int / 2, MAP_HEIGHT as int / 2),
        MAP_HEIGHT as int / 2,
    )
}

/// The number of walls among the eight neighbours of the tile at `idx`.
pub fn count_neighbors(map: &TileMap, idx: usize) -> (neighbors: i32)
    requires
        map.wf(),
        map.width + 1 <= idx,
        idx + map.width + 1 < map.tiles.len(),
    ensures
        neighbors == wall_neighbours(map.tiles@, map@.width, idx as int),
        0 <= neighbors <= 8,
{
    let w = map.width as usize;
    let mut neighbors: i32 = 0;
    if map.tiles[idx - 1] == TileType::Wall {
        neighbors += 1;
    }
    if map.tiles[idx + 1] == TileType::Wall {
        neighbors += 1;
    }
    if map.tiles[idx - w] == TileType::Wall {
        neighbors += 1;
    }
    if map.tiles[idx + w] == TileType::Wall {
        neighbors += 1;
    }
    if map.tiles[idx - (w - 1)] == TileType::Wall {
        neighbors += 1;
    }
    if map.tiles[idx - (w + 1)] == TileType::Wall {
        neighbors += 1;
    }
    if map.tiles[idx + (w - 1)] == TileType::Wall {
        neighbors += 1;
    }
    if map.tiles[idx + (w + 1)] == TileType::Wall {
        neighbors += 1;
    }
    neighbors
}

/// On the standard map the index of `(x, y)` is `y * 80 + x`.
pub proof fn lemma_standard_idx(m: TileMapView, x: int, y: int)
    requires
        m.width == MAP_WIDTH,
    ensures
        m.idx(x, y) == y * 80 + x,
{
    assert(y * m.width == y * 80) by (nonlinear_arith)
        requires
            m.width == 80,
    ;
}

/// One smoothing pass over the standard map: every tile off the border
/// becomes a wall if it has no wall or more than four walls among its eight
/// neighbours, and floor otherwise.
pub fn smooth(map: &mut TileMap)
    requires
        old(map).wf(),
        old(map).width == MAP_WIDTH,
        old(map).height == MAP_HEIGHT,
    ensures
        final(map).wf(),
        final(map)@ == old(map)@.with_tiles(smoothed(old(map).tiles@)),
{
    let ghost t0 = map.tiles@;
    let ghost m0 = map@;
    let mut newtiles = copy_tiles(&map.tiles);
    proof {
        assert(m0.width * m0.height == 3440) by (nonlinear_arith)
            requires
                m0.width == 80,
                m0.height == 43,
        ;
        assert(newtiles@ =~= smoothed_upto(t0, 1, 1));
    }
    let mut y: i32 = 1;
    while y < map.height - 1
        invariant
            map.wf(),
            map@ == m0,
            m0.width == 80,
            m0.height == 43,
            t0 == m0.tiles,
            t0.len() == 3440,
            1 <= y <= 42,
            newtiles@ == smoothed_upto(t0, 1, y as int),
        decreases 42 - y,
    {
        let mut x: i32 = 1;
        while x < map.width - 1
            invariant
                map.wf(),
                map@ == m0,
                m0.width == 80,
                m0.height == 43,
                t0 == m0.tiles,
                t0.len() == 3440,
                1 <= y < 42,
                1 <= x <= 79,
                newtiles@ == smoothed_upto(t0, x as int, y as int),
            decreases 79 - x,
        {
            let idx = map.xy_idx(x, y);
            proof {
                lemma_standard_idx(m0, x as int, y as int);
            }
            let neighbors = count_neighbors(map, idx);
            let ghost before = newtiles@;
            if neighbors > 4 || neighbors == 0 {
                newtiles[idx] = TileType::Wall;
            } else {
                newtiles[idx] = TileType::Floor;
            }
            proof {
                assert forall|i: int| 0 <= i < t0.len() implies #[trigger] newtiles[i]
                    == smoothed_upto(t0, x + 1, y as int)[i] by {
                    assert(before[i] == smoothed_upto(t0, x as int, y as int)[i]);
                    if i != idx {
                        assert(!(i % 80 == x && i / 80 == y));
                    }
                }
                assert(newtiles@ =~= smoothed_upto(t0, x + 1, y as int));
            }
            x += 1;
        }
        proof {
            assert(smoothed_upto(t0, 79, y as int) =~= smoothed_upto(t0, 1, y + 1));
        }
        y += 1;
    }
    map.tiles = newtiles;
}

/// Searches for floor to the left of `(x, y)`, starting at `(x, y)` itself.
/// Returns the column of the first floor tile, or zero if the row holds
/// none up to `x`.
pub fn find_start_column(map: &TileMap, x: i32, y: i32) -> (column: i32)
    requires
        map.wf(),
        map.width == MAP_WIDTH,
        map.height == MAP_HEIGHT,
        map@.in_bounds(x as int, y as int),
    ensures
        column == start_column(map.tiles@, x as int, y as int),
        0 <= column <= x,
{
    let mut cx = x;
    loop
        invariant
            map.wf(),
            map.width == MAP_WIDTH,
            map.height == MAP_HEIGHT,
            0 <= cx <= x,
            map@.in_bounds(x as int, y as int),
            start_column(map.tiles@, x as int, y as int) == start_column(
                map.tiles@,
                cx as int,
                y as int,
            ),
        ensures
            cx == start_column(map.tiles@, x as int, y as int),
            0 <= cx <= x,
        decreases cx,
    {
        let idx = map.xy_idx(cx, y);
        proof {
            lemma_standard_idx(map@, cx as int, y as int);
        }
        if cx <= 0 || map.tiles[idx] == TileType::Floor {
            break ;
        }
        cx -= 1;
    }
    cx
}

/// Builds a cave by seeding the map at random and smoothing it.
pub struct CellularAutomataBuilder {
    state: BuilderState,
}

impl CellularAutomataBuilder {
    /// The depth of the level that the builder makes.
    pub closed spec fn spec_depth(&self) -> int {
        self.state.depth as int
    }

    /// The seed of the noise by which spawn regions are told apart.
    pub closed spec fn spec_noise_seed(&self) -> int {
        self.state.noise_seed as int
    }

    /// A builder for the given depth.
    pub fn new(new_depth: i32) -> (builder: CellularAutomataBuilder)
        ensures
            builder.wf(),
            builder.spec_depth() == new_depth,
            builder.history_view().len() == 0,
            builder.spec_noise_areas() == Map::<i32, Vec<usize>>::empty(),
            builder.map_view() == fresh_map(new_depth as int),
    {
        CellularAutomataBuilder { state: BuilderState::new(new_depth) }
    }

    /// Rolls a hundred-sided die for every tile off the border, row by row:
    /// the tile becomes floor if the roll is above `FLOOR_ROLL`, and wall
    /// otherwise.
    fn seed(&mut self, dice: &mut Dice)
        requires
            old(self).state.wf(),
            old(self).state.map@ == fresh_map(old(self).state.depth as int),
        ensures
            final(self).state.wf(),
            final(self).state.depth == old(self).state.depth,
            final(self).state.history == old(self).state.history,
            final(dice).drawn().len() == old(dice).drawn().len() + SEEDING_ROLLS,
            final(dice).drawn().take(old(dice).drawn().len() as int) == old(dice).drawn(),
            final(self).state.map@ == old(self).state.map@.with_tiles(
                seeded(final(dice).drawn().skip(old(dice).drawn().len() as int)),
            ),
    {
        let ghost d0 = dice.drawn();
        let ghost m0 = self.state.map@;
        let mut y: i32 = 1;
        proof {
            assert(dice.drawn().take(d0.len() as int) =~= d0);
            assert(self.state.map.tiles@ =~= seeded_upto(dice.drawn().skip(d0.len() as int), 1, 1));
        }
        while y < self.state.map.height - 1
            invariant
                self.state.wf(),
                self.state.depth == old(self).state.depth,
                self.state.history == old(self).state.history,
                m0 == fresh_map(self.state.depth as int),
                self.state.map@ == m0.with_tiles(self.state.map.tiles@),
                1 <= y <= 42,
                d0 == old(dice).drawn(),
                dice.drawn().len() == d0.len() + roll_index(1, y as int),
                dice.drawn().take(d0.len() as int) == d0,
                self.state.map.tiles@ == seeded_upto(
                    dice.drawn().skip(d0.len() as int),
                    1,
                    y as int,
                ),
            decreases 42 - y,
        {
            let mut x: i32 = 1;
            while x < self.state.map.width - 1
                invariant
                    self.state.wf(),
                    self.state.depth == old(self).state.depth,
                    self.state.history == old(self).state.history,
                    m0 == fresh_map(self.state.depth as int),
                    self.state.map@ == m0.with_tiles(self.state.map.tiles@),
                    1 <= y < 42,
                    1 <= x <= 79,
                    d0 == old(dice).drawn(),
                    dice.drawn().len() == d0.len() + roll_index(x as int, y as int),
                    dice.drawn().take(d0.len() as int) == d0,
                    self.state.map.tiles@ == seeded_upto(
                        dice.drawn().skip(d0.len() as int),
                        x as int,
                        y as int,
                    ),
                decreases 79 - x,
            {
                let ghost d1 = dice.drawn();
                let ghost before = self.state.map.tiles@;
                let roll = dice.roll(100);
                let idx = self.state.map.xy_idx(x, y);
                proof {
                    lemma_standard_idx(self.state.map@, x as int, y as int);
                }
                if roll > FLOOR_ROLL {
                    self.state.map.tiles[idx] = TileType::Floor;
                } else {
                    self.state.map.tiles[idx] = TileType::Wall;
                }
                proof {
                    let since0 = d1.skip(d0.len() as int);
                    let since = dice.drawn().skip(d0.len() as int);
                    assert(since =~= since0.push(roll as int));
                    assert(dice.drawn().take(d0.len() as int) =~= d1.take(d0.len() as int));
                    assert forall|i: int| 0 <= i < 3440 implies #[trigger] self.state.map.tiles[i]
                        == seeded_upto(since, x + 1, y as int)[i] by {
                        assert(before[i] == seeded_upto(since0, x as int, y as int)[i]);
                        if i != idx {
                            assert(!(i % 80 == x && i / 80 == y));
                            if scanned(x as int, y as int, i % 80, i / 80) {
                                assert(0 <= roll_index(i % 80, i / 80) < since0.len());
                            }
                        } else {
                            assert(roll_index(x as int, y as int) == since0.len());
                        }
                    }
                    assert(self.state.map.tiles@ =~= seeded_upto(since, x + 1, y as int));
                }
                x += 1;
            }
            proof {
                let since = dice.drawn().skip(d0.len() as int);
                assert(seeded_upto(since, 79, y as int) =~= seeded_upto(since, 1, y + 1));
            }
            y += 1;
        }
    }

    /// The level is what the rolls make of a fresh map: the first rolls
    /// seed the map, which is then smoothed and finished from the starting
    /// tile found on it, and the last roll is the noise seed.
    pub open spec fn built_from(&self, rolls: Seq<int>) -> bool {
        let depth = self.spec_depth();
        &&& rolls.len() == SEEDING_ROLLS + 1
        &&& self.spec_noise_seed() == rolls.last()
        &&& self.start() == cellular_start(depth, rolls.drop_last())
        &&& exists|e: int| #[trigger]
            finishes(
                cellular_map(depth, rolls.drop_last()),
                cellular_start(depth, rolls.drop_last()),
                e,
                self.map_view(),
            )
    }

    /// The search for the starting tile found floor on the map that the
    /// rolls grow into: the row of the centre holds a floor tile at the
    /// centre or to the left of it.
    pub open spec fn found_floor(&self, rolls: Seq<int>) -> bool {
        cellular_map(self.spec_depth(), rolls.drop_last()).at(self.start().0, self.start().1)
            == TileType::Floor
    }

    /// Builds the level with the given dice: starts from a map of walls,
    /// seeds it, smooths it `SMOOTHING_PASSES` times, looks for the starting
    /// tile to the left of the centre, culls what it does not reach, places
    /// the down stairs and draws the noise seed. Where the search found
    /// floor, the starting tile is not walled in.
    pub fn build(&mut self, dice: &mut Dice)
        requires
            old(self).wf(),
        ensures
            final(self).wf(),
            final(self).level_ready(),
            final(self).found_floor(final(dice).drawn().skip(old(dice).drawn().len() as int))
                ==> start_is_open(final(self).map_view(), final(self).start()),
            final(self).spec_depth() == old(self).spec_depth(),
            old(dice).drawn().len() <= final(dice).drawn().len(),
            final(dice).drawn().take(old(dice).drawn().len() as int) == old(dice).drawn(),
            final(self).built_from(final(dice).drawn().skip(old(dice).drawn().len() as int)),
            old(self).history_view().len() <= final(self).history_view().len(),
            final(self).history_view().take(old(self).history_view().len() as int) == old(
                self,
            ).history_view(),
    {
        let ghost h0 = self.state.history@;
        let ghost d0 = dice.drawn();
        let ghost depth = self.state.depth as int;
        self.state.map = TileMap::new(self.state.depth);
        self.seed(dice);
        let ghost d1 = dice.drawn();
        let ghost seeding = d1.skip(d0.len() as int);
        self.state.take_snapshot();
        let mut iteration: u32 = 0;
        proof {
            assert(self.state.history@.take(h0.len() as int) =~= h0);
        }
        while iteration < SMOOTHING_PASSES
            invariant
                self.state.wf(),
                self.state.depth == depth,
                iteration <= SMOOTHING_PASSES,
                self.state.map@ == fresh_map(depth).with_tiles(
                    smoothed_times(seeded(seeding), iteration as nat),
                ),
                h0.len() <= self.state.history.len(),
                self.state.history@.take(h0.len() as int) == h0,
            decreases SMOOTHING_PASSES - iteration,
        {
            let ghost h1 = self.state.history@;
            smooth(&mut self.state.map);
            self.state.take_snapshot();
            assert(self.state.history@.take(h0.len() as int) =~= h1.take(h0.len() as int));
            iteration += 1;
        }
        let start_x = find_start_column(
            &self.state.map,
            self.state.map.width / 2,
            self.state.map.height / 2,
        );
        self.state.starting_position = Position { x: start_x, y: self.state.map.height / 2 };
        let start_idx = self.state.map.xy_idx(start_x, self.state.map.height / 2);
        let ghost pre = self.state.map@;
        let ghost h2 = self.state.history@;
        proof {
            lemma_walls_and_floors(seeded(seeding), SMOOTHING_PASSES as nat);
        }
        self.state.place_exit(start_idx, true);
        self.state.draw_noise_seed(dice);
        proof {
            lemma_idx_in_range(pre.width, pre.height, start_x as int, 21);
            assert(point_of(pre, start_idx as int) == (start_x as int, 21int));
            let rolls = dice.drawn().skip(d0.len() as int);
            assert(rolls.drop_last() =~= seeding);
            assert(dice.drawn().take(d0.len() as int) =~= d1.take(d0.len() as int));
            assert(pre == cellular_map(depth, seeding));
            let e = choose|e: int| #[trigger]
                finishes(pre, (start_x as int, 21int), e, self.state.map@);
            assert(finishes(pre, self.state.start(), e, self.state.map@));
            if pre.at(start_x as int, 21) == TileType::Floor {
                lemma_finished_level_start(pre, (start_x as int, 21int), e, self.state.map@);
            }
            assert(self.state.history@.take(h0.len() as int) =~= h2.take(h0.len() as int));
            assert(views_of(self.state.history@).take(views_of(h0).len() as int) =~= views_of(h0));
        }
    }
}

/// Seeding and smoothing make a map of walls and floors.
pub proof fn lemma_walls_and_floors(tiles: Seq<TileType>, k: nat)
    requires
        only_walls_and_floors(tiles),
    ensures
        only_walls_and_floors(smoothed_times(tiles, k)),
    decreases k,
{
    if k > 0 {
        lemma_walls_and_floors(tiles, (k - 1) as nat);
        let t = smoothed_times(tiles, (k - 1) as nat);
        let s = smoothed(t);
        assert forall|i: int| 0 <= i < s.len() implies #[trigger] s[i] == TileType::Wall || s[i]
            == TileType::Floor by {
            assert(t[i] == TileType::Wall || t[i] == TileType::Floor);
        }
    }
}

/// Two cellular automata builders of one depth that were built from the
/// same rolls hold the same map.
pub proof fn lemma_cellular_deterministic(
    a: CellularAutomataBuilder,
    b: CellularAutomataBuilder,
    rolls: Seq<int>,
)
    requires
        a.built_from(rolls),
        b.built_from(rolls),
        a.spec_depth() == b.spec_depth(),
    ensures
        a.map_view() == b.map_view(),
        a.start() == b.start(),
        a.spec_noise_seed() == b.spec_noise_seed(),
{
    let depth = a.state.depth as int;
    let pre = cellular_map(depth, rolls.drop_last());
    let start = cellular_start(depth, rolls.drop_last());
    let ea = choose|e: int| #[trigger] finishes(pre, start, e, a.state.map@);
    let eb = choose|e: int| #[trigger] finishes(pre, start, e, b.state.map@);
    lemma_finishes_unique(pre, start, ea, a.state.map@, eb, b.state.map@);
}

impl MapBuilder for CellularAutomataBuilder {
    closed spec fn wf(&self) -> bool {
        self.state.wf()
    }

    closed spec fn map_view(&self) -> TileMapView {
        self.state.map@
    }

    closed spec fn start(&self) -> (int, int) {
        self.state.start()
    }

    closed spec fn history_view(&self) -> Seq<TileMapView> {
        views_of(self.state.history@)
    }

    open spec fn level_ready(&self) -> bool {
        is_finished_level(self.map_view(), self.start())
    }

    open spec fn made_from(&self, rolls: Seq<int>) -> bool {
        self.built_from(rolls)
    }

    fn build_map(&mut self) {
        let mut dice = Dice::new();
        self.build(&mut dice);
        proof {
            assert(self.made_from(dice.drawn().skip(0)));
        }
    }

    fn get_map(&mut self) -> (map: TileMap) {
        self.state.map.clone()
    }

    fn get_starting_position(&mut self) -> (position: Position) {
        self.state.starting_position
    }

    fn get_snapshot_history(&self) -> (history: Vec<TileMap>) {
        self.state.get_snapshot_history()
    }

    fn take_snapshot(&mut self) {
        self.state.take_snapshot();
    }
}

impl CellularAutomataBuilder {
    /// The spawn regions: for each noise cell that holds a spawn tile, the
    /// indices of its spawn tiles.
    pub closed spec fn spec_noise_areas(&self) -> Map<i32, Vec<usize>> {
        self.state.noise_areas@
    }

    /// The seed of the noise by which spawn regions are told apart.
    pub fn noise_seed(&self) -> (seed: u64)
        ensures
            seed == self.spec_noise_seed(),
    {
        self.state.noise_seed
    }

    /// The spawn regions as last assigned.
    pub fn noise_areas(&self) -> (areas: &std::collections::HashMap<i32, Vec<usize>>)
        ensures
            areas@ == self.spec_noise_areas(),
    {
        &self.state.noise_areas
    }

    /// Groups the spawn tiles of the map, its floor tiles, by
    /// the noise cell that each lies in: `cell_values` holds, for every
    /// tile, the number of its cell. Each cell that holds a spawn tile is
    /// mapped to the indices of its spawn tiles in ascending order.
    pub fn assign_spawn_regions(&mut self, cell_values: &Vec<i32>)
        requires
            old(self).wf(),
            cell_values.len() == crate::map::MAP_COUNT,
        ensures
            final(self).wf(),
            final(self).map_view() == old(self).map_view(),
            final(self).start() == old(self).start(),
            final(self).history_view() == old(self).history_view(),
            final(self).level_ready() == old(self).level_ready(),
            final(self).spec_noise_seed() == old(self).spec_noise_seed(),
            forall|key: i32| #[trigger]
                final(self).spec_noise_areas().contains_key(key) <==> crate::map_builders::common::region_tiles(
                    old(self).map_view(),
                    cell_values@,
                    key,
                    crate::map::MAP_COUNT as int,
                ).len() > 0,
            forall|key: i32| #[trigger]
                final(self).spec_noise_areas().contains_key(key) ==> final(self).spec_noise_areas()[key]@
                    == crate::map_builders::common::region_tiles(
                    old(self).map_view(),
                    cell_values@,
                    key,
                    crate::map::MAP_COUNT as int,
                ),
    {
        proof {
            assert(self.state.map@.width * self.state.map@.height == 3440) by (nonlinear_arith)
                requires
                    self.state.map@.width == 80,
                    self.state.map@.height == 43,
            ;
        }
        self.state.assign_spawn_regions(cell_values);
    }
}

} // verus!
