use vstd::prelude::*;
use crate::dice::{extends, Dice};
use crate::map::{
    count_tiles, fresh_map, lemma_count_none, lemma_count_update, lemma_idx_in_range, Position,
    TileMap, TileMapView, TileType, MAP_COUNT, MAP_HEIGHT, MAP_WIDTH,
};
use crate::map_builders::common::{
    count_kind, finishes, floor_target, is_finished_level, lemma_finished_level_start,
    lemma_finishes_unique, only_walls_and_floors, stagger, staggered, start_is_open,
};
use crate::map_builders::{views_of, BuilderState, MapBuilder};
use crate::pathing::point_of;

verus! {

/// Where each drunkard sets out.
#[derive(PartialEq, Eq, Structural, Copy, Clone, Debug)]
pub enum DrunkSpawnMode {
    StartingPoint,
    Random,
}

/// How the drunkards dig.
#[derive(PartialEq, Eq, Structural, Copy, Clone, Debug)]
pub struct DrunkardSettings {
    pub spawn_mode: DrunkSpawnMode,
    /// The number of steps that each drunkard takes.
    pub drunken_lifetime: i32,
    /// How many hundredths of the map must be floor for the digging to end.
    pub floor_percent: u32,
}

/// The most drunkards that one build sends out.
pub const DIGGER_LIMIT: u32 = 1_000_000;

/// The tiles, the walker's tile and whether a wall was dug after a walk
/// from `(x, y)`, one step for each roll: the walker marks the tile it
/// stands on with down stairs and then moves as the roll decides.
pub open spec fn walk_trace(
    w: int,
    h: int,
    tiles: Seq<TileType>,
    x: int,
    y: int,
    rolls: Seq<int>,
) -> (Seq<TileType>, int, int, bool)
    decreases rolls.len(),
{
    if rolls.len() == 0 {
        (tiles, x, y, false)
    } else {
        let (t, px, py, dug) = walk_trace(w, h, tiles, x, y, rolls.drop_last());
        let to = staggered(w, h, px, py, rolls.last());
        (
            t.update(py * w + px, TileType::DownStairs),
            to.0,
            to.1,
            dug || t[py * w + px] == TileType::Wall,
        )
    }
}

/// The tiles with every mark of a walker turned to floor.
pub open spec fn settled_marks(tiles: Seq<TileType>) -> Seq<TileType> {
    Seq::new(
        tiles.len(),
        |i: int|
            if tiles[i] == TileType::DownStairs {
                TileType::Floor
            } else {
                tiles[i]
            },
    )
}

/// The number of steps of a drunkard.
pub open spec fn lifetime_steps(settings: DrunkardSettings) -> int {
    if settings.drunken_lifetime > 0 {
        settings.drunken_lifetime as int
    } else {
        0
    }
}

/// The number of rolls that one drunkard uses: two for the tile it sets out
/// from where that is random, and one for each step.
pub open spec fn digger_rolls(settings: DrunkardSettings) -> int {
    lifetime_steps(settings) + if settings.spawn_mode == DrunkSpawnMode::Random {
        2int
    } else {
        0int
    }
}

/// The tiles after one drunkard has walked as `rolls` decide and its marks
/// have been turned to floor.
pub open spec fn after_digger(
    m: TileMapView,
    tiles: Seq<TileType>,
    settings: DrunkardSettings,
    rolls: Seq<int>,
) -> Seq<TileType> {
    match settings.spawn_mode {
        DrunkSpawnMode::StartingPoint => settled_marks(
            walk_trace(m.width, m.height, tiles, m.width / 2, m.height / 2, rolls).0,
        ),
        DrunkSpawnMode::Random => settled_marks(
            walk_trace(m.width, m.height, tiles, rolls[0] + 1, rolls[1] + 1, rolls.skip(2)).0,
        ),
    }
}

/// The tiles after at most `k` drunkards have been sent out, each only
/// while fewer than `desired` tiles are floor, and the number of rolls they
/// have read: each drunkard reads its rolls behind those of the one before.
pub open spec fn after_diggers(
    m: TileMapView,
    tiles: Seq<TileType>,
    settings: DrunkardSettings,
    desired: int,
    rolls: Seq<int>,
    k: int,
) -> (Seq<TileType>, int)
    decreases k,
{
    if k <= 0 {
        (tiles, 0)
    } else {
        let (t, c) = after_diggers(m, tiles, settings, desired, rolls, k - 1);
        if count_tiles(t, TileType::Floor) >= desired {
            (t, c)
        } else {
            let n = digger_rolls(settings);
            (after_digger(m, t, settings, rolls.subrange(c, c + n)), c + n)
        }
    }
}

/// The tiles that the drunkards leave of a fresh map whose central tile is
/// floor, and the number of rolls they have read: drunkards are sent out
/// until `desired` tiles are floor or `DIGGER_LIMIT` drunkards have gone.
pub open spec fn drunkards_dug(
    depth: int,
    settings: DrunkardSettings,
    desired: int,
    rolls: Seq<int>,
) -> (Seq<TileType>, int) {
    let m = fresh_map(depth);
    let centre = m.idx(m.width / 2, m.height / 2);
    after_diggers(
        m,
        m.tiles.update(centre, TileType::Floor),
        settings,
        desired,
        rolls,
        DIGGER_LIMIT as int,
    )
}

/// Once enough tiles are floor, sending more drunkards changes nothing.
pub proof fn lemma_diggers_done(
    m: TileMapView,
    tiles: Seq<TileType>,
    settings: DrunkardSettings,
    desired: int,
    rolls: Seq<int>,
    k: int,
    j: int,
)
    requires
        0 <= k <= j,
        k == j || count_tiles(after_diggers(m, tiles, settings, desired, rolls, k).0, TileType::Floor)
            >= desired,
    ensures
        after_diggers(m, tiles, settings, desired, rolls, j) == after_diggers(
            m,
            tiles,
            settings,
            desired,
            rolls,
            k,
        ),
    decreases j - k,
{
    if k < j {
        lemma_diggers_done(m, tiles, settings, desired, rolls, k, j - 1);
    }
}

/// Where fewer than `desired` tiles are floor after `k` drunkards, every
/// one of the `k` was sent out and has read its rolls.
pub proof fn lemma_diggers_all_sent(
    m: TileMapView,
    tiles: Seq<TileType>,
    settings: DrunkardSettings,
    desired: int,
    rolls: Seq<int>,
    k: int,
)
    requires
        0 <= k,
        count_tiles(after_diggers(m, tiles, settings, desired, rolls, k).0, TileType::Floor)
            < desired,
    ensures
        after_diggers(m, tiles, settings, desired, rolls, k).1 == k * digger_rolls(settings),
    decreases k,
{
    let n = digger_rolls(settings);
    if k > 0 {
        let before = after_diggers(m, tiles, settings, desired, rolls, k - 1);
        assert(count_tiles(before.0, TileType::Floor) < desired);
        lemma_diggers_all_sent(m, tiles, settings, desired, rolls, k - 1);
        assert(after_diggers(m, tiles, settings, desired, rolls, k).1 == before.1 + n);
        assert((k - 1) * n + n == k * n) by (nonlinear_arith);
    } else {
        assert(k * n == 0) by (nonlinear_arith)
            requires
                k == 0,
        ;
    }
}

/// Every tile is a wall, a floor or the mark of a walker.
pub open spec fn walls_floors_and_marks(tiles: Seq<TileType>) -> bool {
    forall|i: int|
        0 <= i < tiles.len() ==> #[trigger] tiles[i] == TileType::Wall || tiles[i]
            == TileType::Floor || tiles[i] == TileType::DownStairs
}

/// Lets one drunkard walk from `(x, y)` for `lifetime` steps: it marks each
/// tile it stands on with down stairs and then moves as a roll of a
/// four-sided die decides. Returns whether it marked a wall.
pub fn stumble(map: &mut TileMap, dice: &mut Dice, x: i32, y: i32, lifetime: i32) -> (did_something:
    bool)
    requires
        old(map).wf(),
        old(map)@.in_bounds(x as int, y as int),
        walls_floors_and_marks(old(map).tiles@),
    ensures
        final(map).wf(),
        walls_floors_and_marks(final(map).tiles@),
        old(dice).drawn().len() <= final(dice).drawn().len(),
        final(dice).drawn().take(old(dice).drawn().len() as int) == old(dice).drawn(),
        final(dice).drawn().len() - old(dice).drawn().len() == (if lifetime > 0 {
            lifetime as int
        } else {
            0
        }),
        final(map)@ == old(map)@.with_tiles(
            walk_trace(
                old(map)@.width,
                old(map)@.height,
                old(map).tiles@,
                x as int,
                y as int,
                final(dice).drawn().skip(old(dice).drawn().len() as int),
            ).0,
        ),
        did_something == walk_trace(
            old(map)@.width,
            old(map)@.height,
            old(map).tiles@,
            x as int,
            y as int,
            final(dice).drawn().skip(old(dice).drawn().len() as int),
        ).3,
        forall|i: int|
            0 <= i < old(map).tiles.len() && old(map).tiles[i] != TileType::Wall
                ==> #[trigger] final(map).tiles[i] != TileType::Wall,
{
    let ghost m0 = map@;
    let ghost t0 = map.tiles@;
    let ghost d0 = dice.drawn();
    let mut did_something = false;
    let mut drunk_x = x;
    let mut drunk_y = y;
    let mut drunk_lifetime = lifetime;
    proof {
        assert(dice.drawn().take(d0.len() as int) =~= d0);
        assert(dice.drawn().skip(d0.len() as int) =~= Seq::<int>::empty());
    }
    while drunk_lifetime > 0
        invariant
            m0.wf(),
            map.wf(),
            m0 == old(map)@,
            t0 == old(map).tiles@,
            d0 == old(dice).drawn(),
            map@ == m0.with_tiles(map.tiles@),
            walls_floors_and_marks(map.tiles@),
            forall|i: int|
                0 <= i < t0.len() && t0[i] != TileType::Wall ==> #[trigger] map.tiles[i]
                    != TileType::Wall,
            map@.in_bounds(drunk_x as int, drunk_y as int),
            drunk_lifetime <= lifetime,
            lifetime > 0 ==> drunk_lifetime >= 0,
            d0.len() <= dice.drawn().len(),
            dice.drawn().take(d0.len() as int) == d0,
            lifetime > 0 ==> dice.drawn().len() - d0.len() == lifetime - drunk_lifetime,
            lifetime <= 0 ==> dice.drawn().len() == d0.len(),
            walk_trace(
                m0.width,
                m0.height,
                t0,
                x as int,
                y as int,
                dice.drawn().skip(d0.len() as int),
            ) == (
                map.tiles@,
                drunk_x as int,
                drunk_y as int,
                did_something,
            ),
        decreases drunk_lifetime,
    {
        let ghost d1 = dice.drawn();
        let drunk_pos_id = map.xy_idx(drunk_x, drunk_y);
        if map.tiles[drunk_pos_id] == TileType::Wall {
            did_something = true;
        }
        map.tiles[drunk_pos_id] = TileType::DownStairs;
        let rolled_direction = dice.roll(4);
        let to = stagger(map, drunk_x, drunk_y, rolled_direction);
        proof {
            let since = dice.drawn().skip(d0.len() as int);
            assert(since.drop_last() =~= d1.skip(d0.len() as int));
            assert(since.last() == rolled_direction as int);
            assert(dice.drawn().take(d0.len() as int) =~= d1.take(d0.len() as int));
        }
        drunk_x = to.0;
        drunk_y = to.1;
        drunk_lifetime -= 1;
    }
    did_something
}

/// Turns every mark of a walker to floor.
pub fn settle_marks(map: &mut TileMap)
    requires
        old(map).wf(),
        walls_floors_and_marks(old(map).tiles@),
    ensures
        final(map).wf(),
        final(map)@ == old(map)@.with_tiles(settled_marks(old(map).tiles@)),
        only_walls_and_floors(final(map).tiles@),
{
    let n = map.tiles.len();
    let mut i: usize = 0;
    while i < n
        invariant
            map.wf(),
            i <= n,
            n == map.tiles.len(),
            n == old(map).tiles.len(),
            walls_floors_and_marks(old(map).tiles@),
            map@ == old(map)@.with_tiles(map.tiles@),
            forall|k: int| 0 <= k < i ==> #[trigger] map.tiles[k] == settled_marks(old(map).tiles@)[k],
            forall|k: int| i <= k < n ==> #[trigger] map.tiles[k] == old(map).tiles[k],
        decreases n - i,
    {
        if map.tiles[i] == TileType::DownStairs {
            map.tiles[i] = TileType::Floor;
        }
        i += 1;
    }
    assert(map.tiles@ =~= settled_marks(old(map).tiles@));
    assert forall|k: int| 0 <= k < map.tiles.len() implies #[trigger] map.tiles[k]
        == TileType::Wall || map.tiles[k] == TileType::Floor by {
        assert(old(map).tiles[k] == TileType::Wall || old(map).tiles[k] == TileType::Floor || old(
            map,
        ).tiles[k] == TileType::DownStairs);
    }
}

/// Builds a level by letting drunkards stumble through the rock.
pub struct DrunkardsWalkBuilder {
    state: BuilderState,
    settings: DrunkardSettings,
}

impl DrunkardsWalkBuilder {
    /// The settings that the builder digs by.
    pub closed spec fn spec_settings(&self) -> DrunkardSettings {
        self.settings
    }

    /// The depth of the level that the builder makes.
    pub closed spec fn spec_depth(&self) -> int {
        self.state.depth as int
    }

    /// The seed of the noise by which spawn regions are told apart.
    pub closed spec fn spec_noise_seed(&self) -> int {
        self.state.noise_seed as int
    }

    /// The number of floor tiles at which the digging ends.
    pub open spec fn desired_floor_count(&self) -> int {
        floor_target(MAP_COUNT as int, self.spec_settings().floor_percent as int)
    }

    /// A builder with the given settings.
    pub fn new(new_depth: i32, settings: DrunkardSettings) -> (builder: DrunkardsWalkBuilder)
        ensures
            builder.wf(),
            builder.spec_settings() == settings,
            builder.spec_depth() == new_depth,
            builder.history_view().len() == 0,
            builder.spec_noise_areas() == Map::<i32, Vec<usize>>::empty(),
            builder.map_view() == fresh_map(new_depth as int),
    {
        DrunkardsWalkBuilder { state: BuilderState::new(new_depth), settings }
    }

    /// Drunkards that set out from the starting tile, take four hundred
    /// steps each and dig half of the map.
    pub fn open_area(new_depth: i32) -> (builder: DrunkardsWalkBuilder)
        ensures
            builder.wf(),
            builder.spec_settings() == (DrunkardSettings {
                spawn_mode: DrunkSpawnMode::StartingPoint,
                drunken_lifetime: 400,
                floor_percent: 50,
            }),
            builder.spec_depth() == new_depth,
            builder.history_view().len() == 0,
            builder.spec_noise_areas() == Map::<i32, Vec<usize>>::empty(),
            builder.map_view() == fresh_map(new_depth as int),
    {
        DrunkardsWalkBuilder {
            state: BuilderState::new(new_depth),
            settings: DrunkardSettings {
                spawn_mode: DrunkSpawnMode::StartingPoint,
                drunken_lifetime: 400,
                floor_percent: 50,
            },
        }
    }

    /// Drunkards that set out anywhere, take four hundred steps each and
    /// dig half of the map.
    pub fn open_halls(new_depth: i32) -> (builder: DrunkardsWalkBuilder)
        ensures
            builder.wf(),
            builder.spec_settings() == (DrunkardSettings {
                spawn_mode: DrunkSpawnMode::Random,
                drunken_lifetime: 400,
                floor_percent: 50,
            }),
            builder.spec_depth() == new_depth,
            builder.history_view().len() == 0,
            builder.spec_noise_areas() == Map::<i32, Vec<usize>>::empty(),
            builder.map_view() == fresh_map(new_depth as int),
    {
        DrunkardsWalkBuilder {
            state: BuilderState::new(new_depth),
            settings: DrunkardSettings {
                spawn_mode: DrunkSpawnMode::Random,
                drunken_lifetime: 400,
                floor_percent: 50,
            },
        }
    }

    /// Drunkards that set out anywhere, take a hundred steps each and dig
    /// two fifths of the map.
    pub fn widening_passages(new_depth: i32) -> (builder: DrunkardsWalkBuilder)
        ensures
            builder.wf(),
            builder.spec_settings() == (DrunkardSettings {
                spawn_mode: DrunkSpawnMode::Random,
                drunken_lifetime: 100,
                floor_percent: 40,
            }),
            builder.spec_depth() == new_depth,
            builder.history_view().len() == 0,
            builder.spec_noise_areas() == Map::<i32, Vec<usize>>::empty(),
            builder.map_view() == fresh_map(new_depth as int),
    {
        DrunkardsWalkBuilder {
            state: BuilderState::new(new_depth),
            settings: DrunkardSettings {
                spawn_mode: DrunkSpawnMode::Random,
                drunken_lifetime: 100,
                floor_percent: 40,
            },
        }
    }

    /// The level is what the rolls make of a fresh map: drunkards are sent
    /// out, as all rolls but the last decide, until the floor count is
    /// reached or `DIGGER_LIMIT` drunkards have gone; no roll is left over;
    /// the map they leave is finished from the central tile; and the last
    /// roll is the noise seed.
    pub open spec fn built_from(&self, rolls: Seq<int>) -> bool {
        let dug = drunkards_dug(
            self.spec_depth(),
            self.spec_settings(),
            self.desired_floor_count(),
            rolls.drop_last(),
        );
        &&& rolls.len() >= 1
        &&& self.spec_noise_seed() == rolls.last()
        &&& dug.1 == rolls.len() - 1
        &&& self.start() == (MAP_WIDTH as int / 2, MAP_HEIGHT as int / 2)
        &&& exists|e: int| #[trigger]
            finishes(fresh_map(self.spec_depth()).with_tiles(dug.0), self.start(), e, self.map_view())
    }

    /// The drunkards dug the map to the floor count that the builder aims
    /// at before it was finished.
    pub open spec fn dug_enough(&self, rolls: Seq<int>) -> bool {
        count_tiles(
            drunkards_dug(
                self.spec_depth(),
                self.spec_settings(),
                self.desired_floor_count(),
                rolls.drop_last(),
            ).0,
            TileType::Floor,
        ) >= self.desired_floor_count()
    }

    /// Builds the level with the given dice: starts from a map of walls
    /// whose central tile, the starting tile, is floor, sends out drunkards
    /// until the floor count is reached or `DIGGER_LIMIT` drunkards have
    /// gone, culls what the starting tile does not reach, places the down
    /// stairs and draws the noise seed. Returns whether the floor count was
    /// reached before the map was finished.
    pub fn build(&mut self, dice: &mut Dice) -> (reached: bool)
        requires
            old(self).wf(),
        ensures
            final(self).wf(),
            final(self).level_ready(),
            final(self).spec_settings() == old(self).spec_settings(),
            final(self).spec_depth() == old(self).spec_depth(),
            old(dice).drawn().len() <= final(dice).drawn().len(),
            final(dice).drawn().take(old(dice).drawn().len() as int) == old(dice).drawn(),
            final(self).built_from(final(dice).drawn().skip(old(dice).drawn().len() as int)),
            reached == final(self).dug_enough(
                final(dice).drawn().skip(old(dice).drawn().len() as int),
            ),
            start_is_open(final(self).map_view(), final(self).start()),
            !reached ==> final(dice).drawn().len() - old(dice).drawn().len() - 1 == DIGGER_LIMIT
                * digger_rolls(old(self).spec_settings()),
            old(self).history_view().len() <= final(self).history_view().len(),
            final(self).history_view().take(old(self).history_view().len() as int) == old(
                self,
            ).history_view(),
    {
        let ghost h0 = self.state.history@;
        let ghost d0 = dice.drawn();
        let ghost depth = self.state.depth as int;
        let ghost settings = self.settings;
        let ghost m0 = fresh_map(depth);
        self.state.map = TileMap::new(self.state.depth);
        self.state.starting_position = Position {
            x: self.state.map.width / 2,
            y: self.state.map.height / 2,
        };
        let start_idx = self.state.map.xy_idx(
            self.state.starting_position.x,
            self.state.starting_position.y,
        );
        proof {
            lemma_count_none(self.state.map.tiles@, TileType::Floor);
            lemma_count_update(
                self.state.map.tiles@,
                start_idx as int,
                TileType::Floor,
                TileType::Floor,
            );
        }
        self.state.map.tiles[start_idx] = TileType::Floor;
        let ghost t0 = self.state.map.tiles@;
        assert(self.state.map.tiles.len() == 3440);
        let total_tiles: u64 = self.state.map.tiles.len() as u64;
        let desired_floor_tiles: u64 = total_tiles * (self.settings.floor_percent as u64) / 100;
        let mut floor_tile_count: usize = 1;
        let mut diggers_left: u32 = DIGGER_LIMIT;
        proof {
            assert(t0 =~= m0.tiles.update(m0.idx(m0.width / 2, m0.height / 2), TileType::Floor));
            assert(self.state.history@.take(h0.len() as int) =~= h0);
            assert(dice.drawn().take(d0.len() as int) =~= d0);
            assert(dice.drawn().skip(d0.len() as int) =~= Seq::<int>::empty());
        }
        let ghost desired = desired_floor_tiles as int;
        while (floor_tile_count as u64) < desired_floor_tiles && diggers_left > 0
            invariant
                self.state.wf(),
                only_walls_and_floors(self.state.map.tiles@),
                self.state.depth == depth,
                self.settings == settings,
                m0 == fresh_map(depth),
                self.state.map@ == m0.with_tiles(self.state.map.tiles@),
                self.state.starting_position == (Position { x: 40, y: 21 }),
                desired_floor_tiles == self.desired_floor_count(),
                desired == desired_floor_tiles,
                diggers_left <= DIGGER_LIMIT,
                start_idx == 21 * 80 + 40,
                self.state.map.tiles[start_idx as int] == TileType::Floor,
                t0 == m0.tiles.update(m0.idx(m0.width / 2, m0.height / 2), TileType::Floor),
                floor_tile_count == count_tiles(self.state.map.tiles@, TileType::Floor),
                h0.len() <= self.state.history.len(),
                self.state.history@.take(h0.len() as int) == h0,
                d0.len() <= dice.drawn().len(),
                dice.drawn().take(d0.len() as int) == d0,
                forall|f: Seq<int>|
                    extends(f, dice.drawn().skip(d0.len() as int)) ==> #[trigger] after_diggers(
                        m0,
                        t0,
                        settings,
                        desired,
                        f,
                        DIGGER_LIMIT - diggers_left,
                    ) == (self.state.map.tiles@, dice.drawn().len() - d0.len()),
            decreases diggers_left,
        {
            let ghost h1 = self.state.history@;
            let ghost d1 = dice.drawn();
            let ghost t1 = self.state.map.tiles@;
            let drunk_x;
            let drunk_y;
            match self.settings.spawn_mode {
                DrunkSpawnMode::StartingPoint => {
                    drunk_x = self.state.starting_position.x;
                    drunk_y = self.state.starting_position.y;
                },
                DrunkSpawnMode::Random => {
                    drunk_x = dice.roll(self.state.map.width - 3) + 1;
                    drunk_y = dice.roll(self.state.map.height - 3) + 1;
                    assert(dice.drawn() == d1.push(drunk_x - 1).push(drunk_y - 1));
                },
            }
            let ghost d2 = dice.drawn();
            let did_something = stumble(
                &mut self.state.map,
                dice,
                drunk_x,
                drunk_y,
                self.settings.drunken_lifetime,
            );
            if did_something {
                self.state.take_snapshot();
            }
            settle_marks(&mut self.state.map);
            floor_tile_count = count_kind(&self.state.map.tiles, TileType::Floor);
            proof {
                let since0 = d1.skip(d0.len() as int);
                let since = dice.drawn().skip(d0.len() as int);
                let c = digger_rolls(settings);
                let mine = dice.drawn().skip(d1.len() as int);
                assert(dice.drawn().take(d2.len() as int) == d2);
                assert(d2.take(d1.len() as int) =~= d1);
                assert(dice.drawn().take(d1.len() as int) =~= d2.take(d1.len() as int));
                assert(dice.drawn().take(d0.len() as int) =~= d1.take(d0.len() as int));
                assert(self.state.history@.take(h0.len() as int) =~= h1.take(h0.len() as int));
                assert(mine.len() == c);
                if c > 0 {
                    assert(since.take(since.len() - c) =~= since0);
                    assert(since.skip(since.len() - c) =~= mine);
                    assert(dice.drawn().skip(d2.len() as int) =~= if settings.spawn_mode
                        == DrunkSpawnMode::Random {
                        mine.skip(2)
                    } else {
                        mine
                    });
                    if settings.spawn_mode == DrunkSpawnMode::Random {
                        assert(d2[d1.len() as int] == drunk_x - 1);
                        assert(d2[d1.len() as int + 1] == drunk_y - 1);
                        assert(dice.drawn().take(d2.len() as int)[d1.len() as int] == mine[0]);
                        assert(dice.drawn().take(d2.len() as int)[d1.len() as int + 1] == mine[1]);
                        assert(mine[0] == drunk_x - 1);
                        assert(mine[1] == drunk_y - 1);
                    }
                    assert(self.state.map.tiles@ == after_digger(m0, t1, settings, mine));
                } else {
                    assert(since =~= since0);
                    assert(dice.drawn().skip(d2.len() as int) =~= Seq::<int>::empty());
                    assert(self.state.map.tiles@ =~= t1);
                    assert(mine =~= Seq::<int>::empty());
                    assert(settled_marks(t1) =~= t1);
                    assert(self.state.map.tiles@ == after_digger(m0, t1, settings, mine));
                }
                let k = DIGGER_LIMIT - diggers_left;
                assert forall|f: Seq<int>| extends(f, since) implies #[trigger] after_diggers(
                    m0,
                    t0,
                    settings,
                    desired,
                    f,
                    k + 1,
                ) == (self.state.map.tiles@, since.len() as int) by {
                    assert(since.take(since0.len() as int) =~= since0);
                    assert(f.take(since0.len() as int) =~= f.take(since.len() as int).take(
                        since0.len() as int,
                    ));
                    assert(extends(f, since0));
                    assert(after_diggers(m0, t0, settings, desired, f, k) == (
                        t1,
                        since0.len() as int,
                    ));
                    assert forall|i: int| 0 <= i < c implies f[since0.len() + i] == mine[i] by {
                        assert(f.take(since.len() as int)[since0.len() + i] == since[since0.len()
                            + i]);
                    }
                    assert(f.subrange(since0.len() as int, since0.len() + c) =~= mine);
                }
            }
            diggers_left -= 1;
        }
        let reached = floor_tile_count as u64 >= desired_floor_tiles;
        let ghost pre = self.state.map@;
        let ghost h2 = self.state.history@;
        let ghost d2 = dice.drawn();
        self.state.place_exit(start_idx, true);
        self.state.draw_noise_seed(dice);
        proof {
            lemma_idx_in_range(80, 43, 40, 21);
            assert(point_of(pre, start_idx as int) == (40int, 21int));
            assert(self.state.history@.take(h0.len() as int) =~= h2.take(h0.len() as int));
            assert(dice.drawn().take(d0.len() as int) =~= d2.take(d0.len() as int));
            let rolls = dice.drawn().skip(d0.len() as int);
            let since = d2.skip(d0.len() as int);
            assert(rolls.drop_last() =~= since);
            assert(since.take(since.len() as int) =~= since);
            assert(extends(since, since));
            let k = DIGGER_LIMIT - diggers_left;
            lemma_diggers_done(m0, t0, settings, desired, since, k, DIGGER_LIMIT as int);
            assert(drunkards_dug(depth, settings, desired, since) == (pre.tiles, since.len() as int));
            if !reached {
                lemma_diggers_all_sent(m0, t0, settings, desired, since, DIGGER_LIMIT as int);
            }
            assert(pre == fresh_map(depth).with_tiles(pre.tiles));
            let e = choose|e: int| #[trigger] finishes(pre, (40int, 21int), e, self.state.map@);
            lemma_finished_level_start(pre, (40int, 21int), e, self.state.map@);
            let dug = drunkards_dug(
                self.spec_depth(),
                self.spec_settings(),
                self.desired_floor_count(),
                rolls.drop_last(),
            );
            assert(dug.0 == pre.tiles);
            assert(finishes(
                fresh_map(self.spec_depth()).with_tiles(dug.0),
                self.start(),
                e,
                self.map_view(),
            ));
            let e = choose|e: int| #[trigger] finishes(pre, (40int, 21int), e, self.state.map@);
            assert(finishes(pre, self.state.start(), e, self.state.map@));
            assert(views_of(self.state.history@).take(views_of(h0).len() as int) =~= views_of(h0));
        }
        reached
    }
}

/// Two drunkard builders of one depth and with the same settings that were
/// built from the same rolls hold the same map.
pub proof fn lemma_drunkards_deterministic(
    a: DrunkardsWalkBuilder,
    b: DrunkardsWalkBuilder,
    rolls: Seq<int>,
)
    requires
        a.built_from(rolls),
        b.built_from(rolls),
        a.spec_settings() == b.spec_settings(),
        a.spec_depth() == b.spec_depth(),
    ensures
        a.map_view() == b.map_view(),
        a.start() == b.start(),
        a.spec_noise_seed() == b.spec_noise_seed(),
{
    let dug = drunkards_dug(
        a.spec_depth(),
        a.spec_settings(),
        a.desired_floor_count(),
        rolls.drop_last(),
    );
    let pre = fresh_map(a.spec_depth()).with_tiles(dug.0);
    let ea = choose|e: int| #[trigger] finishes(pre, a.start(), e, a.map_view());
    let eb = choose|e: int| #[trigger] finishes(pre, b.start(), e, b.map_view());
    lemma_finishes_unique(pre, a.start(), ea, a.map_view(), eb, b.map_view());
}

impl MapBuilder for DrunkardsWalkBuilder {
    closed spec fn wf(&self) -> bool {
        self.state.wf()
    }

    closed spec fn map_view(&self) -> TileMapView {
        self.state.map@
    }

    closed spec fn start(&self) -> (int, int) {
        self.state.start()
    }

    closed spec fn history_view(&self) -> Seq<TileMapView> {
        views_of(self.state.history@)
    }

    open spec fn level_ready(&self) -> bool {
        is_finished_level(self.map_view(), self.start())
    }

    open spec fn made_from(&self, rolls: Seq<int>) -> bool {
        self.built_from(rolls)
    }

    fn build_map(&mut self) {
        let mut dice = Dice::new();
        self.build(&mut dice);
        proof {
            assert(self.made_from(dice.drawn().skip(0)));
        }
    }

    fn get_map(&mut self) -> (map: TileMap) {
        self.state.map.clone()
    }

    fn get_starting_position(&mut self) -> (position: Position) {
        self.state.starting_position
    }

    fn get_snapshot_history(&self) -> (history: Vec<TileMap>) {
        self.state.get_snapshot_history()
    }

    fn take_snapshot(&mut self) {
        self.state.take_snapshot();
    }
}

impl DrunkardsWalkBuilder {
    /// The spawn regions: for each noise cell that holds a spawn tile, the
    /// indices of its spawn tiles.
    pub closed spec fn spec_noise_areas(&self) -> Map<i32, Vec<usize>> {
        self.state.noise_areas@
    }

    /// The seed of the noise by which spawn regions are told apart.
    pub fn noise_seed(&self) -> (seed: u64)
        ensures
            seed == self.spec_noise_seed(),
    {
        self.state.noise_seed
    }

    /// The spawn regions as last assigned.
    pub fn noise_areas(&self) -> (areas: &std::collections::HashMap<i32, Vec<usize>>)
        ensures
            areas@ == self.spec_noise_areas(),
    {
        &self.state.noise_areas
    }

    /// Groups the spawn tiles of the map, its floor tiles, by
    /// the noise cell that each lies in: `cell_values` holds, for every
    /// tile, the number of its cell. Each cell that holds a spawn tile is
    /// mapped to the indices of its spawn tiles in ascending order.
    pub fn assign_spawn_regions(&mut self, cell_values: &Vec<i32>)
        requires
            old(self).wf(),
            cell_values.len() == crate::map::MAP_COUNT,
        ensures
            final(self).wf(),
            final(self).map_view() == old(self).map_view(),
            final(self).start() == old(self).start(),
            final(self).history_view() == old(self).history_view(),
            final(self).level_ready() == old(self).level_ready(),
            final(self).spec_noise_seed() == old(self).spec_noise_seed(),
            forall|key: i32| #[trigger]
                final(self).spec_noise_areas().contains_key(key) <==> crate::map_builders::common::region_tiles(
                    old(self).map_view(),
                    cell_values@,
                    key,
                    crate::map::MAP_COUNT as int,
                ).len() > 0,
            forall|key: i32| #[trigger]
                final(self).spec_noise_areas().contains_key(key) ==> final(self).spec_noise_areas()[key]@
                    == crate::map_builders::common::region_tiles(
                    old(self).map_view(),
                    cell_values@,
                    key,
                    crate::map::MAP_COUNT as int,
                ),
    {
        proof {
            assert(self.state.map@.width * self.state.map@.height == 3440) by (nonlinear_arith)
                requires
                    self.state.map@.width == 80,
                    self.state.map@.height == 43,
            ;
        }
        self.state.assign_spawn_regions(cell_values);
    }
}

} // verus!
