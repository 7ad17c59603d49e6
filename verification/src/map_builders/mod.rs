//! The map builders and the toolkit they share.

use vstd::prelude::*;
use crate::dice::Dice;
use crate::map::{Position, TileMap, TileMapView, TileType, MAP_HEIGHT, MAP_WIDTH};
use crate::map_builders::common::{
    culled, finishes, generate_voronoi_spawn_regions, is_finished_level, only_walls_and_floors,
    region_tiles, revealed, revealed_snapshot,
};
use crate::map_builders::cellular_automata::CellularAutomataBuilder;
use crate::map_builders::dla::DLABuilder;
use crate::map_builders::drunkard::DrunkardsWalkBuilder;
use crate::map_builders::maze::MazeBuilder;
use crate::map_builders::simple_map::SimpleMapBuilder;
use crate::map_builders::voronoi_cell::VoronoiCellBuilder;
use crate::map_builders::wave_function_collapse::image_loader::{layer_views, RexLayer};
use crate::map_builders::wave_function_collapse::WaveFunctionCollapseBuilder;
use crate::pathing::point_of;
use std::collections::HashMap;

pub mod cellular_automata;
pub mod common;
pub mod dla;
pub mod drunkard;
pub mod maze;
pub mod simple_map;
pub mod voronoi_cell;
pub mod wave_function_collapse;

verus! {

/// Whether the builders record a snapshot of the map at each checkpoint.
pub const SHOW_MAPGEN_VISUALIZER: bool = true;

/// The number of faces of the die that picks the seed of the noise by which
/// spawn regions are told apart.
pub const NOISE_SEED_FACES: i32 = 65536;

/// The views of a list of maps.
pub open spec fn views_of(maps: Seq<TileMap>) -> Seq<TileMapView> {
    Seq::new(maps.len(), |i: int| maps[i]@)
}

/// What every builder works on: the map under construction, the starting
/// tile, the snapshots taken so far and what the spawner will need.
pub struct BuilderState {
    pub map: TileMap,
    pub starting_position: Position,
    pub depth: i32,
    pub history: Vec<TileMap>,
    pub noise_seed: u64,
    pub noise_areas: HashMap<i32, Vec<usize>>,
}

impl BuilderState {
    /// The map and every snapshot are well-formed and of the standard size.
    pub open spec fn wf(&self) -> bool {
        &&& self.map.wf()
        &&& self.map.width == MAP_WIDTH
        &&& self.map.height == MAP_HEIGHT
        &&& forall|i: int| 0 <= i < self.history.len() ==> (#[trigger] self.history[i]).wf()
    }

    /// The starting tile as a pair of column and row.
    pub open spec fn start(&self) -> (int, int) {
        (self.starting_position.x as int, self.starting_position.y as int)
    }

    /// A fresh state: a map of walls at the given depth, the starting tile
    /// at the origin, and no snapshots.
    pub fn new(new_depth: i32) -> (state: BuilderState)
        ensures
            state.wf(),
            state.depth == new_depth,
            state.map.depth == new_depth,
            state.starting_position == (Position { x: 0, y: 0 }),
            state.history.len() == 0,
            state.map@ == crate::map::fresh_map(new_depth as int),
            state.map.tiles.len() == crate::map::MAP_COUNT,
            forall|i: int| 0 <= i < state.map.tiles.len() ==> state.map.tiles[i] == TileType::Wall,
            state.noise_areas@ == Map::<i32, Vec<usize>>::empty(),
    {
        BuilderState {
            map: TileMap::new(new_depth),
            starting_position: Position { x: 0, y: 0 },
            depth: new_depth,
            history: Vec::new(),
            noise_seed: 0,
            noise_areas: HashMap::new(),
        }
    }

    /// Where snapshots are recorded, appends a copy of the map with every
    /// tile revealed to the history; changes nothing otherwise.
    pub fn take_snapshot(&mut self)
        requires
            old(self).wf(),
        ensures
            final(self).wf(),
            final(self).map == old(self).map,
            final(self).starting_position == old(self).starting_position,
            final(self).depth == old(self).depth,
            final(self).noise_seed == old(self).noise_seed,
            final(self).noise_areas == old(self).noise_areas,
            views_of(final(self).history@) == if SHOW_MAPGEN_VISUALIZER {
                views_of(old(self).history@).push(revealed(old(self).map@))
            } else {
                views_of(old(self).history@)
            },
            final(self).history.len() >= old(self).history.len(),
            final(self).history@.take(old(self).history.len() as int) == old(self).history@,
    {
        if SHOW_MAPGEN_VISUALIZER {
            let snapshot = revealed_snapshot(&self.map);
            self.history.push(snapshot);
            assert(views_of(self.history@) =~= views_of(old(self).history@).push(
                revealed(old(self).map@),
            ));
        }
        assert(self.history@.take(old(self).history.len() as int) =~= old(self).history@);
    }

    /// Copies of the snapshots taken so far, oldest first.
    pub fn get_snapshot_history(&self) -> (history: Vec<TileMap>)
        requires
            self.wf(),
        ensures
            views_of(history@) == views_of(self.history@),
            forall|i: int| 0 <= i < history.len() ==> (#[trigger] history[i]).wf(),
    {
        let mut history: Vec<TileMap> = Vec::new();
        let mut i: usize = 0;
        while i < self.history.len()
            invariant
                i <= self.history.len(),
                history.len() == i,
                forall|k: int| 0 <= k < i ==> (#[trigger] history[k])@ == self.history[k]@,
                self.wf(),
            decreases self.history.len() - i,
        {
            history.push(self.history[i].clone());
            i += 1;
        }
        assert(views_of(history@) =~= views_of(self.history@));
        assert forall|i: int| 0 <= i < history.len() implies (#[trigger] history[i]).wf() by {
            assert(history[i]@ == self.history[i]@);
            assert(self.history[i].wf());
        }
        history
    }

    /// Culls the map from the tile at `start_idx`, takes a snapshot where
    /// `snapshot_between` says so, puts the down stairs on the exit tile
    /// that culling names and takes a snapshot.
    pub fn place_exit(&mut self, start_idx: usize, snapshot_between: bool)
        requires
            old(self).wf(),
            start_idx < old(self).map.tiles.len(),
            only_walls_and_floors(old(self).map.tiles@),
        ensures
            final(self).wf(),
            final(self).starting_position == old(self).starting_position,
            final(self).depth == old(self).depth,
            final(self).noise_seed == old(self).noise_seed,
            final(self).noise_areas == old(self).noise_areas,
            exists|e: int| #[trigger]
                finishes(
                    old(self).map@,
                    point_of(old(self).map@, start_idx as int),
                    e,
                    final(self).map@,
                ),
            is_finished_level(final(self).map@, point_of(old(self).map@, start_idx as int)),
            final(self).history.len() >= old(self).history.len(),
            final(self).history@.take(old(self).history.len() as int) == old(self).history@,
    {
        let ghost pre = self.map@;
        let ghost start = point_of(pre, start_idx as int);
        let exit_tile = common::cull_unreachables_and_return_most_distant_tile(
            &mut self.map,
            start_idx,
        );
        if snapshot_between {
            self.take_snapshot();
        }
        let ghost h1 = self.history@;
        assert(h1.take(old(self).history.len() as int) == old(self).history@);
        self.map.tiles[exit_tile] = TileType::DownStairs;
        self.take_snapshot();
        proof {
            assert(self.map@ == culled(pre, start).with_tile(
                exit_tile as int,
                TileType::DownStairs,
            ));
            assert(finishes(pre, start, exit_tile as int, self.map@));
            assert(self.history@.take(h1.len() as int) == h1);
            assert(self.history@.take(old(self).history.len() as int) =~= h1.take(
                old(self).history.len() as int,
            ));
        }
    }

    /// Rolls the seed of the noise by which spawn regions are told apart.
    pub fn draw_noise_seed(&mut self, dice: &mut Dice)
        ensures
            1 <= final(self).noise_seed <= NOISE_SEED_FACES,
            final(dice).drawn() == old(dice).drawn().push(final(self).noise_seed as int),
            final(self).map == old(self).map,
            final(self).starting_position == old(self).starting_position,
            final(self).depth == old(self).depth,
            final(self).history == old(self).history,
            final(self).noise_areas == old(self).noise_areas,
    {
        let roll = dice.roll(NOISE_SEED_FACES);
        self.noise_seed = roll as u64;
    }

    /// Groups the spawn tiles of the map by the noise cell that each lies
    /// in, given the cell of every tile.
    pub fn assign_spawn_regions(&mut self, cell_values: &Vec<i32>)
        requires
            old(self).wf(),
            cell_values.len() == old(self).map.tiles.len(),
        ensures
            final(self).wf(),
            final(self).map == old(self).map,
            final(self).starting_position == old(self).starting_position,
            final(self).depth == old(self).depth,
            final(self).history == old(self).history,
            final(self).noise_seed == old(self).noise_seed,
            forall|key: i32| #[trigger]
                final(self).noise_areas@.contains_key(key) <==> region_tiles(
                    old(self).map@,
                    cell_values@,
                    key,
                    old(self).map.tiles.len() as int,
                ).len() > 0,
            forall|key: i32| #[trigger]
                final(self).noise_areas@.contains_key(key) ==> final(self).noise_areas@[key]@
                    == region_tiles(
                    old(self).map@,
                    cell_values@,
                    key,
                    old(self).map.tiles.len() as int,
                ),
    {
        self.noise_areas = generate_voronoi_spawn_regions(&self.map, cell_values);
    }
}

/// What every map builder offers: it builds its level in one call, and
/// hands out copies of the map, the starting tile and the snapshots.
pub trait MapBuilder: Sized {
    /// The builder's map and snapshots are well-formed.
    spec fn wf(&self) -> bool;

    /// The map as it stands.
    spec fn map_view(&self) -> TileMapView;

    /// The starting tile as a pair of column and row.
    spec fn start(&self) -> (int, int);

    /// The snapshots taken so far, oldest first.
    spec fn history_view(&self) -> Seq<TileMapView>;

    /// The map is a level that this builder has completed.
    spec fn level_ready(&self) -> bool;

    /// The level is what this builder makes of the given rolls of the dice.
    spec fn made_from(&self, rolls: Seq<int>) -> bool;

    /// Builds the level with dice seeded from the system's entropy.
    fn build_map(&mut self)
        requires
            old(self).wf(),
        ensures
            final(self).wf(),
            final(self).level_ready(),
            exists|rolls: Seq<int>| #[trigger] final(self).made_from(rolls),
            old(self).history_view().len() <= final(self).history_view().len(),
            final(self).history_view().take(old(self).history_view().len() as int) == old(
                self,
            ).history_view(),
    ;

    /// A copy of the map as it stands; the builder is left as it was.
    fn get_map(&mut self) -> (map: TileMap)
        requires
            old(self).wf(),
        ensures
            map@ == old(self).map_view(),
            map.wf(),
            *final(self) == *old(self),
    ;

    /// The starting tile; the builder is left as it was.
    fn get_starting_position(&mut self) -> (position: Position)
        requires
            old(self).wf(),
        ensures
            (position.x as int, position.y as int) == old(self).start(),
            *final(self) == *old(self),
    ;

    /// Copies of the snapshots taken so far, oldest first.
    fn get_snapshot_history(&self) -> (history: Vec<TileMap>)
        requires
            self.wf(),
        ensures
            views_of(history@) == self.history_view(),
            forall|i: int| 0 <= i < history.len() ==> (#[trigger] history[i]).wf(),
    ;

    /// Where snapshots are recorded, appends a copy of the map with every
    /// tile revealed to the history; changes nothing otherwise.
    fn take_snapshot(&mut self)
        requires
            old(self).wf(),
        ensures
            final(self).wf(),
            final(self).map_view() == old(self).map_view(),
            final(self).start() == old(self).start(),
            final(self).level_ready() == old(self).level_ready(),
            final(self).history_view() == if SHOW_MAPGEN_VISUALIZER {
                old(self).history_view().push(revealed(old(self).map_view()))
            } else {
                old(self).history_view()
            },
    ;
}

/// Any one of the map builders.
pub enum AnyBuilder {
    Simple(SimpleMapBuilder),
    CellularAutomata(CellularAutomataBuilder),
    DrunkardsWalk(DrunkardsWalkBuilder),
    Dla(DLABuilder),
    Maze(MazeBuilder),
    VoronoiCell(VoronoiCellBuilder),
    WaveFunctionCollapse(WaveFunctionCollapseBuilder),
}

impl MapBuilder for AnyBuilder {
    open spec fn wf(&self) -> bool {
        match self {
            AnyBuilder::Simple(b) => b.wf(),
            AnyBuilder::CellularAutomata(b) => b.wf(),
            AnyBuilder::DrunkardsWalk(b) => b.wf(),
            AnyBuilder::Dla(b) => b.wf(),
            AnyBuilder::Maze(b) => b.wf(),
            AnyBuilder::VoronoiCell(b) => b.wf(),
            AnyBuilder::WaveFunctionCollapse(b) => b.wf(),
        }
    }

    open spec fn map_view(&self) -> TileMapView {
        match self {
            AnyBuilder::Simple(b) => b.map_view(),
            AnyBuilder::CellularAutomata(b) => b.map_view(),
            AnyBuilder::DrunkardsWalk(b) => b.map_view(),
            AnyBuilder::Dla(b) => b.map_view(),
            AnyBuilder::Maze(b) => b.map_view(),
            AnyBuilder::VoronoiCell(b) => b.map_view(),
            AnyBuilder::WaveFunctionCollapse(b) => b.map_view(),
        }
    }

    open spec fn start(&self) -> (int, int) {
        match self {
            AnyBuilder::Simple(b) => b.start(),
            AnyBuilder::CellularAutomata(b) => b.start(),
            AnyBuilder::DrunkardsWalk(b) => b.start(),
            AnyBuilder::Dla(b) => b.start(),
            AnyBuilder::Maze(b) => b.start(),
            AnyBuilder::VoronoiCell(b) => b.start(),
            AnyBuilder::WaveFunctionCollapse(b) => b.start(),
        }
    }

    open spec fn history_view(&self) -> Seq<TileMapView> {
        match self {
            AnyBuilder::Simple(b) => b.history_view(),
            AnyBuilder::CellularAutomata(b) => b.history_view(),
            AnyBuilder::DrunkardsWalk(b) => b.history_view(),
            AnyBuilder::Dla(b) => b.history_view(),
            AnyBuilder::Maze(b) => b.history_view(),
            AnyBuilder::VoronoiCell(b) => b.history_view(),
            AnyBuilder::WaveFunctionCollapse(b) => b.history_view(),
        }
    }

    open spec fn level_ready(&self) -> bool {
        match self {
            AnyBuilder::Simple(b) => b.level_ready(),
            AnyBuilder::CellularAutomata(b) => b.level_ready(),
            AnyBuilder::DrunkardsWalk(b) => b.level_ready(),
            AnyBuilder::Dla(b) => b.level_ready(),
            AnyBuilder::Maze(b) => b.level_ready(),
            AnyBuilder::VoronoiCell(b) => b.level_ready(),
            AnyBuilder::WaveFunctionCollapse(b) => b.level_ready(),
        }
    }

    open spec fn made_from(&self, rolls: Seq<int>) -> bool {
        match self {
            AnyBuilder::Simple(b) => b.made_from(rolls),
            AnyBuilder::CellularAutomata(b) => b.made_from(rolls),
            AnyBuilder::DrunkardsWalk(b) => b.made_from(rolls),
            AnyBuilder::Dla(b) => b.made_from(rolls),
            AnyBuilder::Maze(b) => b.made_from(rolls),
            AnyBuilder::VoronoiCell(b) => b.made_from(rolls),
            AnyBuilder::WaveFunctionCollapse(b) => b.made_from(rolls),
        }
    }

    fn build_map(&mut self) {
        let ghost mut rolls: Seq<int> = Seq::empty();
        match self {
            AnyBuilder::Simple(b) => {
                b.build_map();
                proof {
                    rolls = choose|r: Seq<int>| b.made_from(r);
                }
            },
            AnyBuilder::CellularAutomata(b) => {
                b.build_map();
                proof {
                    rolls = choose|r: Seq<int>| b.made_from(r);
                }
            },
            AnyBuilder::DrunkardsWalk(b) => {
                b.build_map();
                proof {
                    rolls = choose|r: Seq<int>| b.made_from(r);
                }
            },
            AnyBuilder::Dla(b) => {
                b.build_map();
                proof {
                    rolls = choose|r: Seq<int>| b.made_from(r);
                }
            },
            AnyBuilder::Maze(b) => {
                b.build_map();
                proof {
                    rolls = choose|r: Seq<int>| b.made_from(r);
                }
            },
            AnyBuilder::VoronoiCell(b) => {
                b.build_map();
                proof {
                    rolls = choose|r: Seq<int>| b.made_from(r);
                }
            },
            AnyBuilder::WaveFunctionCollapse(b) => {
                b.build_map();
                proof {
                    rolls = choose|r: Seq<int>| b.made_from(r);
                }
            },
        }
        proof {
            assert(self.made_from(rolls));
        }
    }

    fn get_map(&mut self) -> (map: TileMap) {
        match self {
            AnyBuilder::Simple(b) => b.get_map(),
            AnyBuilder::CellularAutomata(b) => b.get_map(),
            AnyBuilder::DrunkardsWalk(b) => b.get_map(),
            AnyBuilder::Dla(b) => b.get_map(),
            AnyBuilder::Maze(b) => b.get_map(),
            AnyBuilder::VoronoiCell(b) => b.get_map(),
            AnyBuilder::WaveFunctionCollapse(b) => b.get_map(),
        }
    }

    fn get_starting_position(&mut self) -> (position: Position) {
        match self {
            AnyBuilder::Simple(b) => b.get_starting_position(),
            AnyBuilder::CellularAutomata(b) => b.get_starting_position(),
            AnyBuilder::DrunkardsWalk(b) => b.get_starting_position(),
            AnyBuilder::Dla(b) => b.get_starting_position(),
            AnyBuilder::Maze(b) => b.get_starting_position(),
            AnyBuilder::VoronoiCell(b) => b.get_starting_position(),
            AnyBuilder::WaveFunctionCollapse(b) => b.get_starting_position(),
        }
    }

    fn get_snapshot_history(&self) -> (history: Vec<TileMap>) {
        match self {
            AnyBuilder::Simple(b) => b.get_snapshot_history(),
            AnyBuilder::CellularAutomata(b) => b.get_snapshot_history(),
            AnyBuilder::DrunkardsWalk(b) => b.get_snapshot_history(),
            AnyBuilder::Dla(b) => b.get_snapshot_history(),
            AnyBuilder::Maze(b) => b.get_snapshot_history(),
            AnyBuilder::VoronoiCell(b) => b.get_snapshot_history(),
            AnyBuilder::WaveFunctionCollapse(b) => b.get_snapshot_history(),
        }
    }

    fn take_snapshot(&mut self) {
        match self {
            AnyBuilder::Simple(b) => b.take_snapshot(),
            AnyBuilder::CellularAutomata(b) => b.take_snapshot(),
            AnyBuilder::DrunkardsWalk(b) => b.take_snapshot(),
            AnyBuilder::Dla(b) => b.take_snapshot(),
            AnyBuilder::Maze(b) => b.take_snapshot(),
            AnyBuilder::VoronoiCell(b) => b.take_snapshot(),
            AnyBuilder::WaveFunctionCollapse(b) => b.take_snapshot(),
        }
    }
}

/// The builder for a new level at the given depth: the wave function
/// collapse builder, which works from the given example image.
pub fn random_builder(new_depth: i32, seed_image: Vec<RexLayer>) -> (builder: AnyBuilder)
    requires
        forall|i: int| 0 <= i < seed_image.len() ==> (#[trigger] seed_image[i])@.wf(),
    ensures
        builder.wf(),
        builder is WaveFunctionCollapse,
        builder->WaveFunctionCollapse_0.spec_depth() == new_depth,
        builder->WaveFunctionCollapse_0.spec_seed_image() == layer_views(seed_image@),
        builder.history_view().len() == 0,
        builder->WaveFunctionCollapse_0.spec_noise_areas() == Map::<i32, Vec<usize>>::empty(),
        builder.map_view() == crate::map::fresh_map(new_depth as int),
{
    AnyBuilder::WaveFunctionCollapse(WaveFunctionCollapseBuilder::new(new_depth, seed_image))
}

} // verus!
