//! Wave function collapse: a level assembled from the chunks of an example
//! map, so that the exits of neighbouring chunks meet.

use vstd::prelude::*;
use crate::dice::{extends, Dice};
use crate::map::{
    fresh_map, lemma_idx_in_range, Position, TileMap, TileMapView, TileType, MAP_HEIGHT, MAP_WIDTH,
};
use crate::map_builders::cellular_automata::{find_start_column, start_column};
use crate::map_builders::common::{
    finishes, is_finished_level, lemma_finished_level_start, lemma_finishes_unique,
    only_walls_and_floors, revealed, start_is_open,
};
use crate::map_builders::wave_function_collapse::constraints::{
    all_patterns, build_patterns, chunk_rendered, chunk_views, constraints_of, deduped,
    lemma_constraints_unique, pattern_rendered, pattern_views, patterns_to_constraints,
    render_chunk_to_map, render_pattern_to_map, MapChunk, MapChunkView,
};
use crate::map_builders::wave_function_collapse::image_loader::{
    layer_views, load_rex_map, rex_map, RexLayer, RexLayerView,
};
use crate::map_builders::wave_function_collapse::solver::{
    plain_chunks, solve_run, solve_start, SolveState, Solver,
};
use crate::map_builders::{views_of, BuilderState, MapBuilder, SHOW_MAPGEN_VISUALIZER};
use crate::pathing::point_of;

pub mod constraints;
pub mod image_loader;
pub mod solver;

verus! {

/// The side of the chunks into which the example map is cut.
pub const CHUNK_SIZE: i32 = 7;

/// The most solves that one build attempts.
pub const SOLVE_ATTEMPT_LIMIT: u32 = 1_000_000;

/// The columns of the grid of chunks on a level's map.
pub open spec fn grid_columns() -> int {
    11
}

/// The rows of the grid of chunks on a level's map.
pub open spec fn grid_rows() -> int {
    6
}

/// One solve on a fresh map of the given depth, with rolls read from the
/// `c`-th on: the solve as it ends, and the number of the next roll.
pub open spec fn solved_from(
    constraints: Seq<MapChunkView>,
    depth: int,
    rolls: Seq<int>,
    c: int,
) -> (SolveState, int) {
    solve_run(
        constraints,
        CHUNK_SIZE as int,
        grid_columns(),
        grid_rows(),
        fresh_map(depth),
        solve_start(grid_columns() * grid_rows(), fresh_map(depth).tiles),
        rolls,
        c,
        grid_columns() * grid_rows() + 1,
    )
}

/// A gallery as it is being drawn: the page that is drawn on, the corner at
/// which the next drawing goes, and the pages that are full.
pub ghost struct Gallery {
    pub page: TileMapView,
    pub x: int,
    pub y: int,
    pub pages: Seq<TileMapView>,
}

/// A gallery before its first drawing: a fresh page of depth zero, with the
/// first drawing due at `(1, 1)`.
pub open spec fn gallery_start() -> Gallery {
    Gallery { page: fresh_map(0), x: 1, y: 1, pages: Seq::empty() }
}

/// The gallery after a drawing has turned its page into `drawn`: the next
/// drawing goes to the right of it, with one tile between them; where none
/// fits there, at the left of the next row of drawings; and where no row
/// fits either, the page is put with the full pages, every tile revealed,
/// and a fresh page is begun.
pub open spec fn gallery_advanced(g: Gallery, drawn: TileMapView, chunk_size: int) -> Gallery {
    let x = g.x + chunk_size + 1;
    let y = g.y + chunk_size + 1;
    if x + chunk_size < drawn.width {
        Gallery { page: drawn, x: x, ..g }
    } else if y + chunk_size < drawn.height {
        Gallery { page: drawn, x: 1, y: y, ..g }
    } else {
        Gallery { page: fresh_map(0), x: 1, y: 1, pages: g.pages.push(revealed(drawn)) }
    }
}

/// The gallery of the first `n` patterns.
pub open spec fn tile_gallery(patterns: Seq<Seq<TileType>>, chunk_size: int, n: int) -> Gallery
    decreases n,
{
    if n <= 0 {
        gallery_start()
    } else {
        let g = tile_gallery(patterns, chunk_size, n - 1);
        gallery_advanced(
            g,
            pattern_rendered(g.page, patterns[n - 1], chunk_size, g.x, g.y),
            chunk_size,
        )
    }
}

/// The gallery of the first `n` chunks, each drawn with its exits.
pub open spec fn constraint_gallery(chunks: Seq<MapChunkView>, chunk_size: int, n: int) -> Gallery
    decreases n,
{
    if n <= 0 {
        gallery_start()
    } else {
        let g = constraint_gallery(chunks, chunk_size, n - 1);
        gallery_advanced(g, chunk_rendered(g.page, chunks[n - 1], chunk_size, g.x, g.y), chunk_size)
    }
}

/// The history after the pages have been recorded behind what it held:
/// nothing is added where snapshots are not recorded.
pub open spec fn recorded(before: Seq<TileMapView>, pages: Seq<TileMapView>) -> Seq<TileMapView> {
    if SHOW_MAPGEN_VISUALIZER {
        before + pages
    } else {
        before
    }
}

/// The patterns of an example image: those of the chunks of the map that
/// the image stands for, with their flipped forms and without repetition.
pub open spec fn image_patterns(depth: int, image: Seq<RexLayerView>) -> Seq<Seq<TileType>> {
    deduped(all_patterns(rex_map(depth, image), CHUNK_SIZE as int, true))
}

/// The constraints that belong to the patterns of an example image.
pub open spec fn image_constraints(depth: int, image: Seq<RexLayerView>) -> Seq<MapChunkView> {
    choose|c: Seq<MapChunkView>| constraints_of(c, image_patterns(depth, image), CHUNK_SIZE as int)
}

/// The build after at most `k` solves, each on a fresh map and only while
/// none has succeeded: the tiles that the last solve left, whether it
/// succeeded, and the number of rolls that the solves have read.
pub open spec fn after_solves(
    constraints: Seq<MapChunkView>,
    depth: int,
    rolls: Seq<int>,
    k: int,
) -> (Seq<TileType>, bool, int)
    decreases k,
{
    if k <= 0 {
        (fresh_map(depth).tiles, false, 0)
    } else {
        let (tiles, solved, c) = after_solves(constraints, depth, rolls, k - 1);
        if solved {
            (tiles, solved, c)
        } else {
            let (s, used) = solved_from(constraints, depth, rolls.skip(c), 0);
            (s.tiles, s.possible, c + used)
        }
    }
}

/// Once a solve has succeeded, further solves are not attempted.
pub proof fn lemma_solves_done(
    constraints: Seq<MapChunkView>,
    depth: int,
    rolls: Seq<int>,
    k: int,
    j: int,
)
    requires
        0 <= k <= j,
        k == j || after_solves(constraints, depth, rolls, k).1,
    ensures
        after_solves(constraints, depth, rolls, j) == after_solves(constraints, depth, rolls, k),
    decreases j - k,
{
    if k < j {
        lemma_solves_done(constraints, depth, rolls, k, j - 1);
    }
}

/// Builds a level from the chunks of an example map by wave function
/// collapse.
pub struct WaveFunctionCollapseBuilder {
    state: BuilderState,
    /// The layers of the example image.
    seed_image: Vec<RexLayer>,
}

/// A copy of the constraints.
pub fn copy_constraints(constraints: &Vec<MapChunk>) -> (copy: Vec<MapChunk>)
    ensures
        chunk_views(copy@) == chunk_views(constraints@),
        copy.len() == constraints.len(),
        forall|k: int| 0 <= k < copy.len() ==> (#[trigger] copy[k])@ == constraints[k]@,
{
    let mut copy: Vec<MapChunk> = Vec::new();
    let mut i: usize = 0;
    while i < constraints.len()
        invariant
            i <= constraints.len(),
            copy.len() == i,
            forall|k: int| 0 <= k < i ==> (#[trigger] copy[k])@ == constraints[k]@,
        decreases constraints.len() - i,
    {
        copy.push(constraints[i].clone());
        i += 1;
    }
    assert(chunk_views(copy@) =~= chunk_views(constraints@));
    copy
}

impl WaveFunctionCollapseBuilder {
    /// The depth of the level that the builder makes.
    pub closed spec fn spec_depth(&self) -> int {
        self.state.depth as int
    }

    /// The layers of the example image.
    pub closed spec fn spec_seed_image(&self) -> Seq<RexLayerView> {
        layer_views(self.seed_image@)
    }

    /// The builder can work: its state is well-formed, and so is every
    /// layer of its example image.
    pub closed spec fn ready(&self) -> bool {
        &&& self.state.wf()
        &&& forall|i: int| 0 <= i < self.seed_image.len() ==> (#[trigger] self.seed_image[i])@.wf()
    }

    /// A builder for the given depth that works from the given example
    /// image.
    pub fn new(new_depth: i32, seed_image: Vec<RexLayer>) -> (builder: WaveFunctionCollapseBuilder)
        requires
            forall|i: int| 0 <= i < seed_image.len() ==> (#[trigger] seed_image[i])@.wf(),
        ensures
            builder.wf(),
            builder.spec_depth() == new_depth,
            builder.spec_seed_image() == layer_views(seed_image@),
            builder.history_view().len() == 0,
            builder.spec_noise_areas() == Map::<i32, Vec<usize>>::empty(),
            builder.map_view() == fresh_map(new_depth as int),
    {
        WaveFunctionCollapseBuilder { state: BuilderState::new(new_depth), seed_image }
    }

    /// Draws the patterns side by side on fresh maps of depth zero, and
    /// takes a snapshot of every map that is full, and of the last. The map
    /// is left as the last page of the gallery.
    fn render_tile_gallery(&mut self, patterns: &Vec<Vec<TileType>>, chunk_size: i32)
        requires
            old(self).ready(),
            0 < chunk_size <= 20,
            forall|i: int|
                0 <= i < patterns.len() ==> (#[trigger] patterns[i]).len() == chunk_size
                    * chunk_size,
        ensures
            final(self).state.map@ == tile_gallery(
                pattern_views(patterns@),
                chunk_size as int,
                patterns.len() as int,
            ).page,
            views_of(final(self).state.history@) == recorded(
                views_of(old(self).state.history@),
                tile_gallery(
                    pattern_views(patterns@),
                    chunk_size as int,
                    patterns.len() as int,
                ).pages.push(
                    revealed(
                        tile_gallery(
                            pattern_views(patterns@),
                            chunk_size as int,
                            patterns.len() as int,
                        ).page,
                    ),
                ),
            ),
            final(self).ready(),
            final(self).state.depth == old(self).state.depth,
            final(self).seed_image == old(self).seed_image,
            old(self).state.history.len() <= final(self).state.history.len(),
            final(self).state.history@.take(old(self).state.history.len() as int) == old(
                self,
            ).state.history@,
    {
        let ghost h0 = self.state.history@;
        self.state.map = TileMap::new(0);
        let mut counter: usize = 0;
        let mut x: i32 = 1;
        let mut y: i32 = 1;
        let ghost pv = pattern_views(patterns@);
        let ghost cs = chunk_size as int;
        proof {
            assert(self.state.history@.take(h0.len() as int) =~= h0);
            assert(views_of(h0) + Seq::<TileMapView>::empty() =~= views_of(h0));
        }
        while counter < patterns.len()
            invariant
                pv == pattern_views(patterns@),
                cs == chunk_size as int,
                self.state.map@ == tile_gallery(pv, cs, counter as int).page,
                x == tile_gallery(pv, cs, counter as int).x,
                y == tile_gallery(pv, cs, counter as int).y,
                views_of(self.state.history@) == recorded(
                    views_of(h0),
                    tile_gallery(pv, cs, counter as int).pages,
                ),
                self.ready(),
                self.state.depth == old(self).state.depth,
                self.seed_image == old(self).seed_image,
                0 < chunk_size <= 20,
                forall|i: int|
                    0 <= i < patterns.len() ==> (#[trigger] patterns[i]).len() == chunk_size
                        * chunk_size,
                counter <= patterns.len(),
                1 <= x,
                1 <= y,
                x + chunk_size < self.state.map.width,
                y + chunk_size < self.state.map.height,
                h0.len() <= self.state.history.len(),
                self.state.history@.take(h0.len() as int) == h0,
            decreases patterns.len() - counter,
        {
            let ghost h1 = self.state.history@;
            let ghost g = tile_gallery(pv, cs, counter as int);
            render_pattern_to_map(&mut self.state.map, &patterns[counter], chunk_size, x, y);
            let ghost drawn = self.state.map@;
            x += chunk_size + 1;
            if x + chunk_size >= self.state.map.width {
                x = 1;
                y += chunk_size + 1;
                if y + chunk_size >= self.state.map.height {
                    self.state.take_snapshot();
                    self.state.map = TileMap::new(0);
                    x = 1;
                    y = 1;
                }
            }
            proof {
                assert(self.state.history@.take(h0.len() as int) =~= h1.take(h0.len() as int));
                assert(pv[counter as int] == patterns[counter as int]@);
                assert(drawn == pattern_rendered(g.page, pv[counter as int], cs, g.x, g.y));
                assert(tile_gallery(pv, cs, counter + 1) == gallery_advanced(g, drawn, cs));
                assert((views_of(h0) + g.pages).push(revealed(drawn)) =~= views_of(h0)
                    + g.pages.push(revealed(drawn)));
            }
            counter += 1;
        }
        let ghost h2 = self.state.history@;
        let ghost g = tile_gallery(pv, cs, counter as int);
        self.state.take_snapshot();
        proof {
            assert(self.state.history@.take(h0.len() as int) =~= h2.take(h0.len() as int));
            assert((views_of(h0) + g.pages).push(revealed(g.page)) =~= views_of(h0) + g.pages.push(
                revealed(g.page),
            ));
        }
    }

    /// Draws the chunks with their exits side by side on fresh maps of
    /// depth zero, and takes a snapshot of every map that is full, and of
    /// the last. The map is left as the last page of the gallery.
    fn render_constraint_gallery(&mut self, constraints: &Vec<MapChunk>, chunk_size: i32)
        requires
            old(self).ready(),
            0 < chunk_size <= 20,
            forall|i: int|
                0 <= i < constraints.len() ==> (#[trigger] constraints[i]).pattern.len()
                    == chunk_size * chunk_size,
            forall|i: int, d: int|
                0 <= i < constraints.len() && 0 <= d < 4 ==> (#[trigger] constraints[i].exits[d]).len()
                    <= chunk_size,
        ensures
            final(self).state.map@ == constraint_gallery(
                chunk_views(constraints@),
                chunk_size as int,
                constraints.len() as int,
            ).page,
            views_of(final(self).state.history@) == recorded(
                views_of(old(self).state.history@),
                constraint_gallery(
                    chunk_views(constraints@),
                    chunk_size as int,
                    constraints.len() as int,
                ).pages.push(
                    revealed(
                        constraint_gallery(
                            chunk_views(constraints@),
                            chunk_size as int,
                            constraints.len() as int,
                        ).page,
                    ),
                ),
            ),
            final(self).ready(),
            final(self).state.depth == old(self).state.depth,
            final(self).seed_image == old(self).seed_image,
            old(self).state.history.len() <= final(self).state.history.len(),
            final(self).state.history@.take(old(self).state.history.len() as int) == old(
                self,
            ).state.history@,
    {
        let ghost h0 = self.state.history@;
        self.state.map = TileMap::new(0);
        let mut counter: usize = 0;
        let mut x: i32 = 1;
        let mut y: i32 = 1;
        let ghost cv = chunk_views(constraints@);
        let ghost cs = chunk_size as int;
        proof {
            assert(self.state.history@.take(h0.len() as int) =~= h0);
            assert(views_of(h0) + Seq::<TileMapView>::empty() =~= views_of(h0));
        }
        while counter < constraints.len()
            invariant
                cv == chunk_views(constraints@),
                cs == chunk_size as int,
                self.state.map@ == constraint_gallery(cv, cs, counter as int).page,
                x == constraint_gallery(cv, cs, counter as int).x,
                y == constraint_gallery(cv, cs, counter as int).y,
                views_of(self.state.history@) == recorded(
                    views_of(h0),
                    constraint_gallery(cv, cs, counter as int).pages,
                ),
                self.ready(),
                self.state.depth == old(self).state.depth,
                self.seed_image == old(self).seed_image,
                0 < chunk_size <= 20,
                forall|i: int|
                    0 <= i < constraints.len() ==> (#[trigger] constraints[i]).pattern.len()
                        == chunk_size * chunk_size,
                forall|i: int, d: int|
                    0 <= i < constraints.len() && 0 <= d < 4 ==> (
                    #[trigger] constraints[i].exits[d]).len() <= chunk_size,
                counter <= constraints.len(),
                1 <= x,
                1 <= y,
                x + chunk_size < self.state.map.width,
                y + chunk_size < self.state.map.height,
                h0.len() <= self.state.history.len(),
                self.state.history@.take(h0.len() as int) == h0,
            decreases constraints.len() - counter,
        {
            let ghost h1 = self.state.history@;
            proof {
                assert forall|d: int| 0 <= d < 4 implies (
                #[trigger] constraints[counter as int].exits[d]).len() <= chunk_size by {
                }
            }
            let ghost g = constraint_gallery(cv, cs, counter as int);
            render_chunk_to_map(&mut self.state.map, &constraints[counter], chunk_size, x, y);
            let ghost drawn = self.state.map@;
            x += chunk_size + 1;
            if x + chunk_size >= self.state.map.width {
                x = 1;
                y += chunk_size + 1;
                if y + chunk_size >= self.state.map.height {
                    self.state.take_snapshot();
                    self.state.map = TileMap::new(0);
                    x = 1;
                    y = 1;
                }
            }
            proof {
                assert(self.state.history@.take(h0.len() as int) =~= h1.take(h0.len() as int));
                assert(cv[counter as int] == constraints[counter as int]@);
                assert(drawn == chunk_rendered(g.page, cv[counter as int], cs, g.x, g.y));
                assert(constraint_gallery(cv, cs, counter + 1) == gallery_advanced(g, drawn, cs));
                assert((views_of(h0) + g.pages).push(revealed(drawn)) =~= views_of(h0)
                    + g.pages.push(revealed(drawn)));
            }
            counter += 1;
        }
        let ghost h2 = self.state.history@;
        let ghost g = constraint_gallery(cv, cs, counter as int);
        self.state.take_snapshot();
        proof {
            assert(self.state.history@.take(h0.len() as int) =~= h2.take(h0.len() as int));
            assert((views_of(h0) + g.pages).push(revealed(g.page)) =~= views_of(h0) + g.pages.push(
                revealed(g.page),
            ));
        }
    }

    /// Runs one solve on a fresh map: collapses cells until none is pending
    /// or the solve has become impossible, with a snapshot after every
    /// step. Returns the solver as the solve has left it: if the solve is
    /// possible, every cell has a chunk, and the chunks of neighbouring
    /// cells agree.
    pub fn solve(&mut self, constraints: &Vec<MapChunk>, dice: &mut Dice) -> (solver: Solver)
        requires
            old(self).wf(),
            constraints.len() < i32::MAX,
            forall|i: int|
                0 <= i < constraints.len() ==> (#[trigger] constraints[i]).pattern.len()
                    == CHUNK_SIZE * CHUNK_SIZE,
        ensures
            final(self).wf(),
            final(self).spec_depth() == old(self).spec_depth(),
            final(self).spec_seed_image() == old(self).spec_seed_image(),
            solver.wf(),
            solver.spec_constraints() == chunk_views(constraints@),
            solver.adjacency_sound(),
            solver.is_possible() ==> solver.all_collapsed(),
            plain_chunks(chunk_views(constraints@)) ==> final(self).plain_map(),
            forall|f: Seq<int>|
                extends(f, final(dice).drawn().skip(old(dice).drawn().len() as int))
                    ==> #[trigger] solved_from(
                    chunk_views(constraints@),
                    old(self).spec_depth(),
                    f,
                    0,
                ) == (
                    solver.solve_state(final(self).map_view().tiles),
                    final(dice).drawn().len() - old(dice).drawn().len(),
                ),
            final(self).map_view() == fresh_map(old(self).spec_depth()).with_tiles(
                final(self).map_view().tiles,
            ),
            old(self).history_view().len() <= final(self).history_view().len(),
            final(self).history_view().take(old(self).history_view().len() as int) == old(
                self,
            ).history_view(),
            old(dice).drawn().len() <= final(dice).drawn().len(),
            final(dice).drawn().take(old(dice).drawn().len() as int) == old(dice).drawn(),
    {
        let ghost h0 = self.state.history@;
        let ghost d0 = dice.drawn();
        self.state.map = TileMap::new(self.state.depth);
        let copy = copy_constraints(constraints);
        proof {
            assert forall|i: int| 0 <= i < copy.len() implies (#[trigger] copy[i]).pattern.len()
                == CHUNK_SIZE * CHUNK_SIZE by {
                assert(copy[i]@ == constraints[i]@);
                assert(copy[i].pattern@ == constraints[i].pattern@);
            }
        }
        let mut solver = Solver::new(copy, CHUNK_SIZE, &self.state.map);
        proof {
            assert(self.state.history@.take(h0.len() as int) =~= h0);
            assert(dice.drawn().take(d0.len() as int) =~= d0);
            assert(solver.columns() * solver.rows() <= 80 * 43) by (nonlinear_arith)
                requires
                    0 <= solver.columns() <= 80,
                    0 <= solver.rows() <= 43,
            ;
        }
        let mut steps: u32 = 3441;
        let mut done = false;
        let ghost cv = chunk_views(constraints@);
        let ghost m0 = fresh_map(self.state.depth as int);
        let ghost fuel: int = grid_columns() * grid_rows() + 1;
        proof {
            assert(dice.drawn().skip(d0.len() as int) =~= Seq::<int>::empty());
            solver.lemma_solve_state(self.state.map.tiles@);
        }
        while !done && steps > 0
            invariant
                cv == chunk_views(constraints@),
                m0 == fresh_map(old(self).state.depth as int),
                self.state.map@ == m0.with_tiles(self.state.map.tiles@),
                solver.spec_chunk_size() == CHUNK_SIZE,
                solver.columns() == grid_columns(),
                solver.rows() == grid_rows(),
                solver.pending() < fuel || done,
                !done ==> forall|f: Seq<int>|
                    extends(f, dice.drawn().skip(d0.len() as int)) ==> #[trigger] solved_from(
                        cv,
                        old(self).state.depth as int,
                        f,
                        0,
                    ) == solve_run(
                        cv,
                        CHUNK_SIZE as int,
                        grid_columns(),
                        grid_rows(),
                        m0,
                        solver.solve_state(self.state.map.tiles@),
                        f,
                        dice.drawn().len() - d0.len(),
                        fuel,
                    ),
                done ==> forall|f: Seq<int>|
                    extends(f, dice.drawn().skip(d0.len() as int)) ==> #[trigger] solved_from(
                        cv,
                        old(self).state.depth as int,
                        f,
                        0,
                    ) == (
                        solver.solve_state(self.state.map.tiles@),
                        dice.drawn().len() - d0.len(),
                    ),
                self.ready(),
                self.state.depth == old(self).state.depth,
                self.seed_image == old(self).seed_image,
                solver.wf(),
                solver.fits(self.state.map@),
                solver.spec_constraints() == chunk_views(constraints@),
                solver.adjacency_sound(),
                solver.in_order(),
                solver.pending() < steps || done,
                done ==> solver.pending() == 0 || !solver.is_possible(),
                plain_chunks(chunk_views(constraints@)) ==> only_walls_and_floors(
                    self.state.map.tiles@,
                ),
                h0.len() <= self.state.history.len(),
                self.state.history@.take(h0.len() as int) == h0,
                d0.len() <= dice.drawn().len(),
                dice.drawn().take(d0.len() as int) == d0,
            decreases steps,
        {
            let ghost h1 = self.state.history@;
            let ghost d1 = dice.drawn();
            let ghost before = solver;
            let ghost map_before = self.state.map@;
            done = solver.step(&mut self.state.map, dice);
            self.state.take_snapshot();
            proof {
                assert(self.state.history@.take(h0.len() as int) =~= h1.take(h0.len() as int));
                assert(dice.drawn().take(d0.len() as int) =~= d1.take(d0.len() as int));
                let since0 = d1.skip(d0.len() as int);
                let since = dice.drawn().skip(d0.len() as int);
                let rolls = dice.drawn().skip(d1.len() as int);
                let s0 = before.solve_state(map_before.tiles);
                let s1 = solver.solve_state(self.state.map.tiles@);
                before.lemma_solve_state(map_before.tiles);
                solver.lemma_solve_state(self.state.map.tiles@);
                assert(self.state.map@ =~= m0.with_tiles(self.state.map.tiles@));
                assert(m0.with_tiles(s0.tiles) =~= map_before);
                assert forall|f: Seq<int>| extends(f, since) implies if done {
                    #[trigger] solved_from(cv, old(self).state.depth as int, f, 0) == (
                        s1,
                        dice.drawn().len() - d0.len(),
                    )
                } else {
                    solved_from(cv, old(self).state.depth as int, f, 0) == solve_run(
                        cv,
                        CHUNK_SIZE as int,
                        grid_columns(),
                        grid_rows(),
                        m0,
                        s1,
                        f,
                        dice.drawn().len() - d0.len(),
                        fuel - 1,
                    )
                } by {
                    assert(since.take(since0.len() as int) =~= since0);
                    assert(f.take(since0.len() as int) =~= f.take(since.len() as int).take(
                        since0.len() as int,
                    ));
                    assert(extends(f, since0));
                    let c = since0.len() as int;
                    if before.pending() > 0 {
                        assert(f[c] == since[c] && since[c] == rolls[0]);
                        if rolls.len() == 2 {
                            assert(f[c + 1] == since[c + 1] && since[c + 1] == rolls[1]);
                        }
                    } else {
                        assert(s1 == s0);
                    }
                }
                fuel = fuel - 1;
            }
            steps -= 1;
        }
        proof {
            if solver.is_possible() {
                solver.lemma_complete();
            }
            assert(views_of(self.state.history@).take(views_of(h0).len() as int) =~= views_of(h0));
        }
        solver
    }

    /// The map holds walls and floors only.
    pub closed spec fn plain_map(&self) -> bool {
        only_walls_and_floors(self.state.map.tiles@)
    }

    /// The level is what the rolls make of the example image: solves are
    /// run as all rolls but the last decide, the starting tile is looked
    /// for to the left of the centre of the map that the last solve left,
    /// that map is finished from there, and the last roll is the noise
    /// seed.
    pub open spec fn built_from(&self, rolls: Seq<int>) -> bool {
        let run = after_solves(
            image_constraints(self.spec_depth(), self.spec_seed_image()),
            self.spec_depth(),
            rolls.drop_last(),
            SOLVE_ATTEMPT_LIMIT as int,
        );
        let start = (
            start_column(run.0, MAP_WIDTH as int / 2, MAP_HEIGHT as int / 2),
            MAP_HEIGHT as int / 2,
        );
        &&& rolls.len() >= 1
        &&& self.spec_noise_seed() == rolls.last()
        &&& run.2 == rolls.len() - 1
        &&& self.start() == start
        &&& exists|e: int| #[trigger]
            finishes(
                fresh_map(self.spec_depth()).with_tiles(run.0),
                start,
                e,
                self.map_view(),
            )
    }

    /// The search for the starting tile found floor on the map that the
    /// last solve left: the row of the centre holds a floor tile at the
    /// centre or to the left of it.
    pub open spec fn found_floor(&self, rolls: Seq<int>) -> bool {
        let run = after_solves(
            image_constraints(self.spec_depth(), self.spec_seed_image()),
            self.spec_depth(),
            rolls.drop_last(),
            SOLVE_ATTEMPT_LIMIT as int,
        );
        fresh_map(self.spec_depth()).with_tiles(run.0).at(self.start().0, self.start().1)
            == TileType::Floor
    }

    /// One of the solves that the rolls decide succeeded.
    pub open spec fn solved_by(&self, rolls: Seq<int>) -> bool {
        after_solves(
            image_constraints(self.spec_depth(), self.spec_seed_image()),
            self.spec_depth(),
            rolls.drop_last(),
            SOLVE_ATTEMPT_LIMIT as int,
        ).1
    }

    /// Builds the level with the given dice: reads the example image, cuts
    /// it into patterns with their flipped forms and without repetition,
    /// compiles the constraints, and solves on a fresh map until a solve
    /// succeeds or `SOLVE_ATTEMPT_LIMIT` solves have failed; then looks
    /// for the starting tile to the left of the centre, culls what it does
    /// not reach, places the down stairs and draws the noise seed. Returns
    /// whether a solve succeeded.
    pub fn build(&mut self, dice: &mut Dice) -> (solved: bool)
        requires
            old(self).wf(),
        ensures
            final(self).wf(),
            final(self).level_ready(),
            final(self).built_from(final(dice).drawn().skip(old(dice).drawn().len() as int)),
            solved == final(self).solved_by(
                final(dice).drawn().skip(old(dice).drawn().len() as int),
            ),
            final(self).found_floor(final(dice).drawn().skip(old(dice).drawn().len() as int))
                ==> start_is_open(final(self).map_view(), final(self).start()),
            final(self).spec_depth() == old(self).spec_depth(),
            final(self).spec_seed_image() == old(self).spec_seed_image(),
            old(self).history_view().len() <= final(self).history_view().len(),
            final(self).history_view().take(old(self).history_view().len() as int) == old(
                self,
            ).history_view(),
            old(dice).drawn().len() <= final(dice).drawn().len(),
            final(dice).drawn().take(old(dice).drawn().len() as int) == old(dice).drawn(),
    {
        let ghost h0 = self.state.history@;
        let ghost d0 = dice.drawn();
        self.state.map = load_rex_map(self.state.depth, &self.seed_image);
        self.state.take_snapshot();
        let ghost depth = self.state.depth as int;
        let ghost image = layer_views(self.seed_image@);
        let patterns = build_patterns(&self.state.map, CHUNK_SIZE, true, true);
        let ghost pats = pattern_views(patterns@);
        proof {
            assert(CHUNK_SIZE * CHUNK_SIZE == 49) by (nonlinear_arith);
            assert(pats == image_patterns(depth, image));
            assert(patterns.len() <= 264);
        }
        self.render_tile_gallery(&patterns, CHUNK_SIZE);
        let n_patterns = patterns.len();
        let constraints = patterns_to_constraints(patterns, CHUNK_SIZE);
        proof {
            let cv = chunk_views(constraints@);
            assert forall|i: int| 0 <= i < constraints.len() implies (
            #[trigger] constraints[i]).pattern.len() == 49 by {
                assert(cv[i].pattern == pats[i]);
                assert(cv[i] == constraints[i]@);
            }
            assert forall|i: int, d: int|
                0 <= i < constraints.len() && 0 <= d < 4 implies (
            #[trigger] constraints[i].exits[d]).len() <= CHUNK_SIZE by {
                assert(cv[i] == constraints[i]@);
                assert(cv[i].exits[d] == constraints[i].exits[d]@);
            }
            assert forall|i: int| 0 <= i < cv.len() implies only_walls_and_floors(
                (#[trigger] cv[i]).pattern,
            ) by {
                assert(cv[i].pattern == pats[i]);
            }
            assert(self.state.history@.take(h0.len() as int) =~= h0);
            assert(dice.drawn().take(d0.len() as int) =~= d0);
        }
        self.render_constraint_gallery(&constraints, CHUNK_SIZE);
        self.state.map = TileMap::new(self.state.depth);
        let mut solved = false;
        let mut attempts: u32 = SOLVE_ATTEMPT_LIMIT;
        let ghost cv = chunk_views(constraints@);
        proof {
            assert(views_of(self.state.history@).take(views_of(h0).len() as int) =~= views_of(h0));
            lemma_constraints_unique(
                cv,
                image_constraints(depth, image),
                image_patterns(depth, image),
                CHUNK_SIZE as int,
            );
            assert(dice.drawn().skip(d0.len() as int) =~= Seq::<int>::empty());
        }
        while !solved && attempts > 0
            invariant
                cv == chunk_views(constraints@),
                depth == old(self).state.depth,
                attempts <= SOLVE_ATTEMPT_LIMIT,
                n_patterns <= 264,
                self.state.map@ == fresh_map(depth).with_tiles(self.state.map.tiles@),
                forall|f: Seq<int>|
                    extends(f, dice.drawn().skip(d0.len() as int)) ==> #[trigger] after_solves(
                        cv,
                        depth,
                        f,
                        SOLVE_ATTEMPT_LIMIT - attempts,
                    ) == (self.state.map.tiles@, solved, dice.drawn().len() - d0.len()),
                self.wf(),
                self.state.depth == old(self).state.depth,
                self.spec_seed_image() == old(self).spec_seed_image(),
                n_patterns == constraints.len(),
                forall|i: int|
                    0 <= i < constraints.len() ==> (#[trigger] constraints[i]).pattern.len() == 49,
                plain_chunks(chunk_views(constraints@)),
                only_walls_and_floors(self.state.map.tiles@),
                views_of(h0).len() <= views_of(self.state.history@).len(),
                views_of(self.state.history@).take(views_of(h0).len() as int) == views_of(h0),
                d0.len() <= dice.drawn().len(),
                dice.drawn().take(d0.len() as int) == d0,
            decreases attempts,
        {
            let ghost h1 = views_of(self.state.history@);
            let ghost d1 = dice.drawn();
            let ghost tiles1 = self.state.map.tiles@;
            let solver = self.solve(&constraints, dice);
            solved = solver.still_possible();
            proof {
                assert(views_of(self.state.history@).take(views_of(h0).len() as int) =~= h1.take(
                    views_of(h0).len() as int,
                ));
                assert(dice.drawn().take(d0.len() as int) =~= d1.take(d0.len() as int));
                let since0 = d1.skip(d0.len() as int);
                let since = dice.drawn().skip(d0.len() as int);
                let rolls = dice.drawn().skip(d1.len() as int);
                solver.lemma_solve_state(self.state.map.tiles@);
                assert forall|f: Seq<int>| extends(f, since) implies #[trigger] after_solves(
                    cv,
                    depth,
                    f,
                    SOLVE_ATTEMPT_LIMIT - attempts + 1,
                ) == (self.state.map.tiles@, solved, dice.drawn().len() - d0.len()) by {
                    assert(since.take(since0.len() as int) =~= since0);
                    assert(f.take(since0.len() as int) =~= f.take(since.len() as int).take(
                        since0.len() as int,
                    ));
                    assert(extends(f, since0));
                    let g = f.skip(since0.len() as int);
                    assert(since0.len() + rolls.len() == since.len());
                    assert forall|i: int| 0 <= i < rolls.len() implies g[i] == rolls[i] by {
                        assert(f.take(since.len() as int)[since0.len() + i] == since[since0.len()
                            + i]);
                    }
                    assert(g.take(rolls.len() as int) =~= rolls);
                    assert(extends(g, rolls));
                    let k = SOLVE_ATTEMPT_LIMIT - attempts;
                    assert(after_solves(cv, depth, f, k) == (tiles1, false, since0.len() as int));
                    assert(solved_from(cv, depth, g, 0) == (
                        solver.solve_state(self.state.map.tiles@),
                        rolls.len() as int,
                    ));
                    assert(after_solves(cv, depth, f, k + 1) == (
                        self.state.map.tiles@,
                        solved,
                        (since0.len() + rolls.len()) as int,
                    ));
                }
            }
            attempts -= 1;
        }
        let start_x = find_start_column(
            &self.state.map,
            self.state.map.width / 2,
            self.state.map.height / 2,
        );
        self.state.starting_position = Position { x: start_x, y: self.state.map.height / 2 };
        let start_idx = self.state.map.xy_idx(start_x, self.state.map.height / 2);
        let ghost pre = self.state.map@;
        let ghost h2 = views_of(self.state.history@);
        let ghost d2 = dice.drawn();
        self.state.place_exit(start_idx, true);
        self.state.draw_noise_seed(dice);
        proof {
            lemma_idx_in_range(pre.width, pre.height, start_x as int, 21);
            assert(point_of(pre, start_idx as int) == (start_x as int, 21int));
            assert(dice.drawn().take(d0.len() as int) =~= d2.take(d0.len() as int));
            let e = choose|e: int| #[trigger]
                finishes(pre, (start_x as int, 21int), e, self.state.map@);
            assert(finishes(pre, self.state.start(), e, self.state.map@));
            let rolls = dice.drawn().skip(d0.len() as int);
            let since = d2.skip(d0.len() as int);
            assert(rolls.drop_last() =~= since);
            assert(since.take(since.len() as int) =~= since);
            assert(extends(since, since));
            lemma_solves_done(
                cv,
                depth,
                since,
                SOLVE_ATTEMPT_LIMIT - attempts,
                SOLVE_ATTEMPT_LIMIT as int,
            );
            assert(views_of(self.state.history@).take(h2.len() as int) =~= h2);
            assert(views_of(self.state.history@).take(views_of(h0).len() as int) =~= h2.take(
                views_of(h0).len() as int,
            ));
            let run = after_solves(
                image_constraints(self.spec_depth(), self.spec_seed_image()),
                self.spec_depth(),
                rolls.drop_last(),
                SOLVE_ATTEMPT_LIMIT as int,
            );
            assert(run == (pre.tiles, solved, since.len() as int));
            assert(pre == fresh_map(self.spec_depth()).with_tiles(run.0));
            if pre.at(start_x as int, 21) == TileType::Floor {
                lemma_finished_level_start(pre, (start_x as int, 21int), e, self.state.map@);
            }
            assert(finishes(
                fresh_map(self.spec_depth()).with_tiles(run.0),
                (start_column(run.0, MAP_WIDTH as int / 2, MAP_HEIGHT as int / 2), MAP_HEIGHT as int / 2),
                e,
                self.map_view(),
            ));
        }
        solved
    }
}

/// Two builders of one depth and with the same example image that were
/// built from the same rolls hold the same map.
pub proof fn lemma_collapse_deterministic(
    a: WaveFunctionCollapseBuilder,
    b: WaveFunctionCollapseBuilder,
    rolls: Seq<int>,
)
    requires
        a.built_from(rolls),
        b.built_from(rolls),
        a.spec_depth() == b.spec_depth(),
        a.spec_seed_image() == b.spec_seed_image(),
    ensures
        a.map_view() == b.map_view(),
        a.start() == b.start(),
        a.spec_noise_seed() == b.spec_noise_seed(),
{
    let run = after_solves(
        image_constraints(a.state.depth as int, layer_views(a.seed_image@)),
        a.state.depth as int,
        rolls.drop_last(),
        SOLVE_ATTEMPT_LIMIT as int,
    );
    let pre = fresh_map(a.state.depth as int).with_tiles(run.0);
    let ea = choose|e: int| #[trigger] finishes(pre, a.state.start(), e, a.state.map@);
    let eb = choose|e: int| #[trigger] finishes(pre, b.state.start(), e, b.state.map@);
    lemma_finishes_unique(pre, a.state.start(), ea, a.state.map@, eb, b.state.map@);
}

impl MapBuilder for WaveFunctionCollapseBuilder {
    closed spec fn wf(&self) -> bool {
        self.ready()
    }

    closed spec fn map_view(&self) -> TileMapView {
        self.state.map@
    }

    closed spec fn start(&self) -> (int, int) {
        self.state.start()
    }

    closed spec fn history_view(&self) -> Seq<TileMapView> {
        views_of(self.state.history@)
    }

    open spec fn level_ready(&self) -> bool {
        is_finished_level(self.map_view(), self.start())
    }

    open spec fn made_from(&self, rolls: Seq<int>) -> bool {
        self.built_from(rolls)
    }

    fn build_map(&mut self) {
        let mut dice = Dice::new();
        self.build(&mut dice);
        proof {
            assert(self.made_from(dice.drawn().skip(0)));
        }
    }

    fn get_map(&mut self) -> (map: TileMap) {
        self.state.map.clone()
    }

    fn get_starting_position(&mut self) -> (position: Position) {
        self.state.starting_position
    }

    fn get_snapshot_history(&self) -> (history: Vec<TileMap>) {
        self.state.get_snapshot_history()
    }

    fn take_snapshot(&mut self) {
        self.state.take_snapshot();
    }
}

impl WaveFunctionCollapseBuilder {
    /// The seed of the noise by which spawn regions are told apart.
    pub closed spec fn spec_noise_seed(&self) -> int {
        self.state.noise_seed as int
    }

    /// The spawn regions: for each noise cell that holds a spawn tile, the
    /// indices of its spawn tiles.
    pub closed spec fn spec_noise_areas(&self) -> Map<i32, Vec<usize>> {
        self.state.noise_areas@
    }

    /// The seed of the noise by which spawn regions are told apart.
    pub fn noise_seed(&self) -> (seed: u64)
        ensures
            seed == self.spec_noise_seed(),
    {
        self.state.noise_seed
    }

    /// The spawn regions as last assigned.
    pub fn noise_areas(&self) -> (areas: &std::collections::HashMap<i32, Vec<usize>>)
        ensures
            areas@ == self.spec_noise_areas(),
    {
        &self.state.noise_areas
    }

    /// Groups the spawn tiles of the map, its floor tiles, by
    /// the noise cell that each lies in: `cell_values` holds, for every
    /// tile, the number of its cell. Each cell that holds a spawn tile is
    /// mapped to the indices of its spawn tiles in ascending order.
    pub fn assign_spawn_regions(&mut self, cell_values: &Vec<i32>)
        requires
            old(self).wf(),
            cell_values.len() == crate::map::MAP_COUNT,
        ensures
            final(self).wf(),
            final(self).map_view() == old(self).map_view(),
            final(self).start() == old(self).start(),
            final(self).history_view() == old(self).history_view(),
            final(self).level_ready() == old(self).level_ready(),
            final(self).spec_noise_seed() == old(self).spec_noise_seed(),
            forall|key: i32| #[trigger]
                final(self).spec_noise_areas().contains_key(key) <==> crate::map_builders::common::region_tiles(
                    old(self).map_view(),
                    cell_values@,
                    key,
                    crate::map::MAP_COUNT as int,
                ).len() > 0,
            forall|key: i32| #[trigger]
                final(self).spec_noise_areas().contains_key(key) ==> final(self).spec_noise_areas()[key]@
                    == crate::map_builders::common::region_tiles(
                    old(self).map_view(),
                    cell_values@,
                    key,
                    crate::map::MAP_COUNT as int,
                ),
    {
        proof {
            assert(self.state.map@.width * self.state.map@.height == 3440) by (nonlinear_arith)
                requires
                    self.state.map@.width == 80,
                    self.state.map@.height == 43,
            ;
        }
        self.state.assign_spawn_regions(cell_values);
    }
}

} // verus!
