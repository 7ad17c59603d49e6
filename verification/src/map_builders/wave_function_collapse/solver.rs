use vstd::prelude::*;
use crate::dice::Dice;
use crate::map::{lemma_idx_in_range, lemma_idx_to_coords, TileMap, TileMapView, TileType, MAP_TILE_LIMIT};
use crate::map_builders::common::only_walls_and_floors;
use crate::map_builders::wave_function_collapse::constraints::{
    compatible, constraints_of, lemma_compatible_list_members, chunk_scanned, chunk_views,
    pattern_stamped, spec_tile_idx_in_chunk, stamp_pattern, MapChunk, MapChunkView,
    CHUNK_SIZE_LIMIT,
};

verus! {

/// Collapses the cells of a grid of chunks one by one, so that every chunk
/// is one that the chunks around it allow.
pub struct Solver {
    constraints: Vec<MapChunk>,
    chunk_size: i32,
    /// For each cell the index of its chunk, once it has one.
    chunks: Vec<Option<usize>>,
    /// The number of chunks that fit side by side.
    chunks_x: usize,
    /// The number of chunks that fit one above the other.
    chunks_y: usize,
    /// The cells without a chunk, each with the number of its neighbours
    /// that had a chunk when last counted.
    remaining: Vec<(usize, i32)>,
    /// Cleared when a cell is met that no chunk fits.
    pub possible: bool,
}

/// Whether `p` is one of `list`.
pub fn list_contains(list: &Vec<usize>, p: usize) -> (found: bool)
    ensures
        found == list@.contains(p),
{
    let mut k: usize = 0;
    while k < list.len()
        invariant
            k <= list.len(),
            forall|j: int| 0 <= j < k ==> list[j] != p,
        decreases list.len() - k,
    {
        if list[k] == p {
            return true;
        }
        k += 1;
    }
    false
}

/// Every tile of every pattern is a wall or a floor.
pub open spec fn plain_chunks(chunks: Seq<MapChunkView>) -> bool {
    forall|i: int| 0 <= i < chunks.len() ==> only_walls_and_floors((#[trigger] chunks[i]).pattern)
}

/// The chunk of the cell `(x, y)` of a grid that is `w` cells wide, once it
/// has one.
pub open spec fn cell_pattern(chunks: Seq<Option<usize>>, w: int, x: int, y: int) -> Option<usize> {
    chunks[y * w + x]
}

/// Whether the chunk `a` lists the chunk `b` among those that may stand on
/// its side `d`.
pub open spec fn lists(constraints: Seq<MapChunkView>, a: usize, d: int, b: usize) -> bool {
    a < constraints.len() && constraints[a as int].compatible_with[d].contains(b)
}

/// Names the cell `(x, y)` in a statement about all cells.
pub open spec fn cell_mark(x: int, y: int) -> bool {
    true
}

/// The chunk `b`, if the neighbouring cell has it, agrees with the chunk
/// `a` across the side `d` of `a`: one of the two lists the other among
/// the chunks that may stand on its side toward it.
pub open spec fn agree(
    constraints: Seq<MapChunkView>,
    a: usize,
    d: int,
    od: int,
    there: Option<usize>,
) -> bool {
    there matches Some(b) ==> lists(constraints, a, d, b) || lists(constraints, b, od, a)
}

/// Of any two cells of the grid side by side or one above the other that
/// both have a chunk, one lists the chunk of the other among those that may
/// stand on its side toward it.
#[verifier::opaque]
pub open spec fn grid_sound(
    constraints: Seq<MapChunkView>,
    chunks: Seq<Option<usize>>,
    w: int,
    h: int,
) -> bool {
    forall|x: int, y: int|
        0 <= x < w && 0 <= y < h && #[trigger] cell_mark(x, y) ==> (cell_pattern(chunks, w, x, y) matches Some(
            a,
        ) ==> {
            &&& (x + 1 < w ==> agree(constraints, a, 3, 2, cell_pattern(chunks, w, x + 1, y)))
            &&& (y + 1 < h ==> agree(constraints, a, 1, 0, cell_pattern(chunks, w, x, y + 1)))
        })
}

/// Whether the neighbouring cell, if it is a cell with a chunk, lists `p`
/// among the chunks that may stand on its side `side`.
pub open spec fn neighbour_lists(
    constraints: Seq<MapChunkView>,
    chunks: Seq<Option<usize>>,
    w: int,
    h: int,
    nx: int,
    ny: int,
    side: int,
    p: usize,
) -> bool {
    0 <= nx < w && 0 <= ny < h ==> (match cell_pattern(chunks, w, nx, ny) {
        Some(q) => lists(constraints, q, side, p),
        None => true,
    })
}

/// Giving the cell `(x, y)` a chunk that the cells around it allow keeps
/// the chunks of neighbouring cells in agreement.
pub proof fn lemma_grid_sound_after_place(
    constraints: Seq<MapChunkView>,
    chunks: Seq<Option<usize>>,
    w: int,
    h: int,
    x: int,
    y: int,
    p: usize,
)
    requires
        0 <= x < w,
        0 <= y < h,
        chunks.len() == w * h,
        grid_sound(constraints, chunks, w, h),
        neighbour_lists(constraints, chunks, w, h, x - 1, y, 3, p),
        neighbour_lists(constraints, chunks, w, h, x + 1, y, 2, p),
        neighbour_lists(constraints, chunks, w, h, x, y - 1, 1, p),
        neighbour_lists(constraints, chunks, w, h, x, y + 1, 0, p),
    ensures
        grid_sound(constraints, chunks.update(y * w + x, Some(p)), w, h),
{
    reveal(grid_sound);
    let after = chunks.update(y * w + x, Some(p));
    lemma_idx_in_range(w, h, x, y);
    assert forall|x1: int, y1: int| 0 <= x1 < w && 0 <= y1 < h && #[trigger] cell_mark(x1, y1) implies (
    cell_pattern(after, w, x1, y1) matches Some(a) ==> {
        &&& (x1 + 1 < w ==> agree(constraints, a, 3, 2, cell_pattern(after, w, x1 + 1, y1)))
        &&& (y1 + 1 < h ==> agree(constraints, a, 1, 0, cell_pattern(after, w, x1, y1 + 1)))
    }) by {
        lemma_idx_in_range(w, h, x1, y1);
        assert(cell_pattern(after, w, x1, y1) == if x1 == x && y1 == y {
            Some(p)
        } else {
            cell_pattern(chunks, w, x1, y1)
        });
        if x1 + 1 < w {
            lemma_idx_in_range(w, h, x1 + 1, y1);
            assert(cell_pattern(after, w, x1 + 1, y1) == if x1 + 1 == x && y1 == y {
                Some(p)
            } else {
                cell_pattern(chunks, w, x1 + 1, y1)
            });
        }
        if y1 + 1 < h {
            lemma_idx_in_range(w, h, x1, y1 + 1);
            assert(cell_pattern(after, w, x1, y1 + 1) == if x1 == x && y1 + 1 == y {
                Some(p)
            } else {
                cell_pattern(chunks, w, x1, y1 + 1)
            });
        }
    }
}

/// Every cell next to `(x, y)` that has a chunk lists `p` among the chunks
/// that may stand on its side toward `(x, y)`.
pub open spec fn allowed_by(
    constraints: Seq<MapChunkView>,
    chunks: Seq<Option<usize>>,
    w: int,
    h: int,
    x: int,
    y: int,
    p: usize,
) -> bool {
    &&& neighbour_lists(constraints, chunks, w, h, x - 1, y, 3, p)
    &&& neighbour_lists(constraints, chunks, w, h, x + 1, y, 2, p)
    &&& neighbour_lists(constraints, chunks, w, h, x, y - 1, 1, p)
    &&& neighbour_lists(constraints, chunks, w, h, x, y + 1, 0, p)
}

/// The chunks below `upto`, in ascending order, that the cells around
/// `(x, y)` allow.
pub open spec fn candidates_from(
    constraints: Seq<MapChunkView>,
    chunks: Seq<Option<usize>>,
    w: int,
    h: int,
    x: int,
    y: int,
    upto: int,
) -> Seq<usize>
    decreases upto,
{
    if upto <= 0 {
        Seq::empty()
    } else {
        let rest = candidates_from(constraints, chunks, w, h, x, y, upto - 1);
        if allowed_by(constraints, chunks, w, h, x, y, (upto - 1) as usize) {
            rest.push((upto - 1) as usize)
        } else {
            rest
        }
    }
}

/// A solve as it stands: the chunk of every cell that has one, the cells
/// that are still to be tried, the tiles stamped so far, and whether no
/// cell has been met that no chunk fits.
#[verifier::ext_equal]
pub struct SolveState {
    pub chunks: Seq<Option<usize>>,
    pub pending: Seq<usize>,
    pub tiles: Seq<TileType>,
    pub possible: bool,
}

/// The column and the row of the pending cell that the roll picks.
pub open spec fn picked(w: int, s: SolveState, roll: int) -> (int, int) {
    let cell = s.pending[roll - 1] as int;
    (cell % w, cell / w)
}

/// Whether the step that the roll begins finds a chunk for the cell it
/// picks, and so takes a second roll.
pub open spec fn finds_chunk(
    constraints: Seq<MapChunkView>,
    w: int,
    h: int,
    s: SolveState,
    roll: int,
) -> bool {
    let (x, y) = picked(w, s, roll);
    candidates_from(constraints, s.chunks, w, h, x, y, constraints.len() as int).len() > 0
}

/// The solve after one step: the first roll picks a pending cell, which
/// leaves the list; where the cells around it allow no chunk, the solve
/// becomes impossible; otherwise the second roll picks one of the allowed
/// chunks, in ascending order, which is given to the cell and stamped into
/// the map.
pub open spec fn solve_step(
    constraints: Seq<MapChunkView>,
    chunk_size: int,
    w: int,
    h: int,
    m0: TileMapView,
    s: SolveState,
    first: int,
    second: int,
) -> SolveState {
    let (x, y) = picked(w, s, first);
    let choices = candidates_from(constraints, s.chunks, w, h, x, y, constraints.len() as int);
    if choices.len() == 0 {
        SolveState { pending: s.pending.remove(first - 1), possible: false, ..s }
    } else {
        let p = choices[second - 1];
        SolveState {
            chunks: s.chunks.update(y * w + x, Some(p)),
            pending: s.pending.remove(first - 1),
            tiles: pattern_stamped(
                m0.with_tiles(s.tiles),
                constraints[p as int].pattern,
                chunk_size,
                x * chunk_size,
                y * chunk_size,
                false,
            ).tiles,
            possible: s.possible,
        }
    }
}

/// The solve after at most `fuel` steps, and the number of the next roll:
/// the solve reads its rolls from the `c`-th on and ends when no cell is
/// pending or when it has become impossible.
pub open spec fn solve_run(
    constraints: Seq<MapChunkView>,
    chunk_size: int,
    w: int,
    h: int,
    m0: TileMapView,
    s: SolveState,
    rolls: Seq<int>,
    c: int,
    fuel: int,
) -> (SolveState, int)
    decreases fuel,
{
    if fuel <= 0 || s.pending.len() == 0 {
        (s, c)
    } else if finds_chunk(constraints, w, h, s, rolls[c]) {
        solve_run(
            constraints,
            chunk_size,
            w,
            h,
            m0,
            solve_step(constraints, chunk_size, w, h, m0, s, rolls[c], rolls[c + 1]),
            rolls,
            c + 2,
            fuel - 1,
        )
    } else {
        (solve_step(constraints, chunk_size, w, h, m0, s, rolls[c], 0), c + 1)
    }
}

/// The solve before its first step over a grid of `cells` cells: no cell
/// has a chunk, and the cells are pending in the order of their indices.
pub open spec fn solve_start(cells: int, tiles: Seq<TileType>) -> SolveState {
    SolveState {
        chunks: Seq::new(cells as nat, |i: int| None),
        pending: Seq::new(cells as nat, |i: int| i as usize),
        tiles: tiles,
        possible: true,
    }
}

impl Solver {
    /// The constraints that the solver works with.
    pub closed spec fn spec_constraints(&self) -> Seq<MapChunkView> {
        chunk_views(self.constraints@)
    }

    /// No cell has been met that no chunk fits.
    pub closed spec fn is_possible(&self) -> bool {
        self.possible
    }

    /// The side of a chunk, in tiles.
    pub closed spec fn spec_chunk_size(&self) -> int {
        self.chunk_size as int
    }

    /// The number of cells side by side.
    pub closed spec fn columns(&self) -> int {
        self.chunks_x as int
    }

    /// The number of cells one above the other.
    pub closed spec fn rows(&self) -> int {
        self.chunks_y as int
    }

    /// Whether `(x, y)` names a cell of the grid.
    pub open spec fn in_grid(&self, x: int, y: int) -> bool {
        0 <= x < self.columns() && 0 <= y < self.rows()
    }

    /// The index of the chunk of the cell `(x, y)`, once it has one.
    pub closed spec fn pattern_at(&self, x: int, y: int) -> Option<usize> {
        cell_pattern(self.chunks@, self.chunks_x as int, x, y)
    }

    /// Whether the chunk `a` lists the chunk `b` among those that may stand
    /// on its side `d`.
    pub closed spec fn listed(&self, a: usize, d: int, b: usize) -> bool {
        lists(chunk_views(self.constraints@), a, d, b)
    }

    /// The number of cells without a chunk that are still to be tried.
    pub closed spec fn pending(&self) -> nat {
        self.remaining.len() as nat
    }

    /// The indices of the cells that are still to be tried, in the order in
    /// which they are listed.
    pub closed spec fn pending_cells(&self) -> Seq<usize> {
        Seq::new(self.remaining.len() as nat, |k: int| self.remaining[k].0)
    }

    /// The cell that a roll picks among the pending cells, as column and row.
    pub closed spec fn picked_cell(&self, roll: int) -> (int, int) {
        let cell = self.pending_cells()[roll - 1] as int;
        (cell % (self.chunks_x as int), cell / (self.chunks_x as int))
    }

    /// The sizes agree: every pattern has a tile for each tile of a chunk,
    /// every cell has an entry, and every entry names a chunk and every
    /// pending cell a cell.
    pub closed spec fn wf(&self) -> bool {
        &&& 0 < self.chunk_size <= CHUNK_SIZE_LIMIT
        &&& self.constraints.len() < i32::MAX
        &&& forall|i: int|
            0 <= i < self.constraints.len() ==> (#[trigger] self.constraints[i]).pattern.len()
                == self.chunk_size * self.chunk_size
        &&& self.chunks_x * self.chunks_y <= MAP_TILE_LIMIT
        &&& self.chunks.len() == self.chunks_x * self.chunks_y
        &&& forall|i: int|
            0 <= i < self.chunks.len() ==> (#[trigger] self.chunks[i] matches Some(p) ==> p
                < self.constraints.len())
        &&& forall|k: int|
            0 <= k < self.remaining.len() ==> (#[trigger] self.remaining[k]).0 < self.chunks.len()
        &&& self.remaining.len() <= self.chunks.len()
    }

    /// The pending cells are exactly the cells without a chunk, each listed
    /// once.
    #[verifier::opaque]
    pub closed spec fn tracking(&self) -> bool {
        &&& forall|k: int|
            0 <= k < self.remaining.len() ==> self.chunks[(#[trigger] self.remaining[k]).0 as int] is None
        &&& forall|j: int, k: int|
            0 <= j < self.remaining.len() && 0 <= k < self.remaining.len() && j != k ==> (
            #[trigger] self.remaining[j]).0 != (#[trigger] self.remaining[k]).0
        &&& forall|c: int|
            0 <= c < self.chunks.len() && #[trigger] self.chunks[c] is None ==> exists|k: int|
                0 <= k < self.remaining.len() && (#[trigger] self.remaining[k]).0 == c
    }

    /// The grid of chunks fits on the map.
    pub closed spec fn fits(&self, m: TileMapView) -> bool {
        &&& m.wf()
        &&& self.chunks_x * self.chunk_size <= m.width
        &&& self.chunks_y * self.chunk_size <= m.height
    }

    /// The cell `(nx, ny)`, if it is a cell with a chunk, lists `p` among
    /// the chunks that may stand on its side `side`.
    pub closed spec fn toward(&self, nx: int, ny: int, side: int, p: usize) -> bool {
        neighbour_lists(
            chunk_views(self.constraints@),
            self.chunks@,
            self.chunks_x as int,
            self.chunks_y as int,
            nx,
            ny,
            side,
            p,
        )
    }

    /// Every cell next to `(x, y)` that has a chunk lists `p` among the
    /// chunks that may stand on its side toward `(x, y)`.
    pub closed spec fn allowed(&self, x: int, y: int, p: usize) -> bool {
        allowed_by(
            chunk_views(self.constraints@),
            self.chunks@,
            self.chunks_x as int,
            self.chunks_y as int,
            x,
            y,
            p,
        )
    }

    /// The chunks below `upto`, in ascending order, that the cells around
    /// `(x, y)` allow.
    pub closed spec fn candidates_upto(&self, x: int, y: int, upto: int) -> Seq<usize> {
        candidates_from(
            chunk_views(self.constraints@),
            self.chunks@,
            self.chunks_x as int,
            self.chunks_y as int,
            x,
            y,
            upto,
        )
    }

    /// The solve as it stands, with the given tiles.
    pub closed spec fn solve_state(&self, tiles: Seq<TileType>) -> SolveState {
        SolveState {
            chunks: self.chunks@,
            pending: self.pending_cells(),
            tiles: tiles,
            possible: self.possible,
        }
    }

    /// The chunks, in ascending order, that the cells around `(x, y)` allow.
    pub closed spec fn spec_candidates(&self, x: int, y: int) -> Seq<usize> {
        self.candidates_upto(x, y, self.constraints.len() as int)
    }

    /// Of any two cells side by side or one above the other that both have
    /// a chunk, one lists the chunk of the other among those that may stand
    /// on its side toward it.
    pub closed spec fn adjacency_sound(&self) -> bool {
        grid_sound(
            chunk_views(self.constraints@),
            self.chunks@,
            self.chunks_x as int,
            self.chunks_y as int,
        )
    }

    /// Every cell has a chunk.
    pub closed spec fn all_collapsed(&self) -> bool {
        forall|c: int| 0 <= c < self.chunks.len() ==> #[trigger] self.chunks[c] is Some
    }

    /// Every candidate is a chunk that the cells around `(x, y)` allow, and
    /// names a chunk.
    pub proof fn lemma_candidates_allowed(&self, x: int, y: int, upto: int, j: int)
        requires
            0 <= j < self.candidates_upto(x, y, upto).len(),
        ensures
            self.allowed(x, y, self.candidates_upto(x, y, upto)[j]),
            self.candidates_upto(x, y, upto)[j] < upto,
        decreases upto,
    {
        if upto > 0 {
            let rest = self.candidates_upto(x, y, upto - 1);
            if j < rest.len() {
                self.lemma_candidates_allowed(x, y, upto - 1, j);
            }
        }
    }

    /// There are no more candidates below `upto` than `upto`.
    pub proof fn lemma_candidates_len(&self, x: int, y: int, upto: int)
        requires
            0 <= upto,
        ensures
            self.candidates_upto(x, y, upto).len() <= upto,
        decreases upto,
    {
        if upto > 0 {
            self.lemma_candidates_len(x, y, upto - 1);
        }
    }

    /// The solve as it stands names the pending cells, the tiles that it was
    /// given, and whether the solve is still possible.
    pub proof fn lemma_solve_state(&self, tiles: Seq<TileType>)
        ensures
            self.solve_state(tiles).pending.len() == self.pending(),
            self.solve_state(tiles).possible == self.is_possible(),
            self.solve_state(tiles).tiles == tiles,
    {
    }

    /// A solver for a grid of as many chunks as fit on the map: no cell has
    /// a chunk, and all cells are pending.
    pub fn new(constraints: Vec<MapChunk>, chunk_size: i32, map: &TileMap) -> (solver: Solver)
        requires
            map.wf(),
            0 < chunk_size <= CHUNK_SIZE_LIMIT,
            constraints.len() < i32::MAX,
            forall|i: int|
                0 <= i < constraints.len() ==> (#[trigger] constraints[i]).pattern.len()
                    == chunk_size * chunk_size,
        ensures
            solver.wf(),
            solver.in_order(),
            solver.fits(map@),
            solver.is_possible(),
            solver.adjacency_sound(),
            solver.spec_constraints() == chunk_views(constraints@),
            solver.spec_chunk_size() == chunk_size,
            solver.columns() == map.width / chunk_size,
            solver.rows() == map.height / chunk_size,
            solver.pending() == solver.columns() * solver.rows(),
            forall|tiles: Seq<TileType>| #[trigger]
                solver.solve_state(tiles) == solve_start(solver.columns() * solver.rows(), tiles),
    {
        let chunks_x = (map.width / chunk_size) as usize;
        let chunks_y = (map.height / chunk_size) as usize;
        proof {
            let w = map@.width;
            let h = map@.height;
            let cs = chunk_size as int;
            vstd::arithmetic::div_mod::lemma_fundamental_div_mod(w, cs);
            vstd::arithmetic::div_mod::lemma_fundamental_div_mod(h, cs);
            vstd::arithmetic::div_mod::lemma_mod_bound(w, cs);
            vstd::arithmetic::div_mod::lemma_mod_bound(h, cs);
            assert(0 <= w / cs <= w && 0 <= h / cs <= h && (w / cs) * cs <= w && (h / cs) * cs <= h)
                by (nonlinear_arith)
                requires
                    0 < cs,
                    0 < w,
                    0 < h,
                    w == cs * (w / cs) + w % cs,
                    h == cs * (h / cs) + h % cs,
                    0 <= w % cs < cs,
                    0 <= h % cs < cs,
            ;
            assert(0 <= (w / cs) * (h / cs) <= w * h) by (nonlinear_arith)
                requires
                    0 <= w / cs <= w,
                    0 <= h / cs <= h,
            ;
        }
        let total = chunks_x * chunks_y;
        let mut remaining: Vec<(usize, i32)> = Vec::new();
        let mut chunks: Vec<Option<usize>> = Vec::new();
        let mut i: usize = 0;
        while i < total
            invariant
                i <= total,
                remaining.len() == i,
                chunks.len() == i,
                forall|k: int| 0 <= k < i ==> (#[trigger] remaining[k]).0 == k,
                forall|k: int| 0 <= k < i ==> #[trigger] chunks[k] is None,
            decreases total - i,
        {
            remaining.push((i, 0));
            chunks.push(None);
            i += 1;
        }
        let solver = Solver {
            constraints,
            chunk_size,
            chunks,
            chunks_x,
            chunks_y,
            remaining,
            possible: true,
        };
        proof {
            assert(solver.pending_cells() =~= Seq::new(total as nat, |i: int| i as usize));
            assert(solver.chunks@ =~= Seq::new(total as nat, |i: int| None::<usize>));
            reveal(Solver::tracking);
            reveal(grid_sound);
            assert forall|c: int|
                0 <= c < solver.chunks.len() && #[trigger] solver.chunks[c] is None implies exists|
                k: int,
            |
                0 <= k < solver.remaining.len() && (#[trigger] solver.remaining[k]).0 == c by {
                assert(solver.remaining[c].0 == c);
            }
            assert forall|x: int, y: int|
                0 <= x < chunks_x && 0 <= y < chunks_y && #[trigger] cell_mark(
                    x,
                    y,
                ) implies cell_pattern(solver.chunks@, chunks_x as int, x, y) is None by {
                lemma_idx_in_range(chunks_x as int, chunks_y as int, x, y);
            }
        }
        solver
    }

    /// Whether no cell has been met that no chunk fits.
    pub fn still_possible(&self) -> (possible: bool)
        ensures
            possible == self.is_possible(),
    {
        self.possible
    }

    /// The index of the cell `(x, y)`.
    pub fn chunk_idx(&self, x: usize, y: usize) -> (idx: usize)
        requires
            self.wf(),
            self.in_grid(x as int, y as int),
        ensures
            idx == y * self.columns() + x,
            idx < self.columns() * self.rows(),
    {
        proof {
            lemma_idx_in_range(self.chunks_x as int, self.chunks_y as int, x as int, y as int);
        }
        y * self.chunks_x + x
    }

    /// One if the cell `(x, y)` is a cell with a chunk, zero otherwise.
    pub open spec fn collapsed_at(&self, x: int, y: int) -> int {
        if self.in_grid(x, y) && self.pattern_at(x, y) is Some {
            1
        } else {
            0
        }
    }

    /// The number of cells next to `(x, y)` that have a chunk.
    pub open spec fn collapsed_around(&self, x: int, y: int) -> int {
        self.collapsed_at(x - 1, y) + self.collapsed_at(x + 1, y) + self.collapsed_at(x, y - 1)
            + self.collapsed_at(x, y + 1)
    }

    /// The number of cells with a chunk next to the `k`-th pending cell.
    pub closed spec fn count_due(&self, k: int) -> int {
        let cell = self.remaining[k].0 as int;
        self.collapsed_around(cell % (self.chunks_x as int), cell / (self.chunks_x as int))
    }

    /// The number of cells next to `(chunk_x, chunk_y)` that have a chunk.
    pub fn count_neighbors(&self, chunk_x: usize, chunk_y: usize) -> (neighbors: i32)
        requires
            self.wf(),
            self.in_grid(chunk_x as int, chunk_y as int),
        ensures
            neighbors == self.collapsed_at(chunk_x - 1, chunk_y as int) + self.collapsed_at(
                chunk_x + 1,
                chunk_y as int,
            ) + self.collapsed_at(chunk_x as int, chunk_y - 1) + self.collapsed_at(
                chunk_x as int,
                chunk_y + 1,
            ),
            neighbors == self.collapsed_around(chunk_x as int, chunk_y as int),
    {
        let mut neighbors: i32 = 0;
        if chunk_x > 0 {
            let left_idx = self.chunk_idx(chunk_x - 1, chunk_y);
            if self.chunks[left_idx].is_some() {
                neighbors += 1;
            }
        }
        if chunk_x < self.chunks_x - 1 {
            let right_idx = self.chunk_idx(chunk_x + 1, chunk_y);
            if self.chunks[right_idx].is_some() {
                neighbors += 1;
            }
        }
        if chunk_y > 0 {
            let up_idx = self.chunk_idx(chunk_x, chunk_y - 1);
            if self.chunks[up_idx].is_some() {
                neighbors += 1;
            }
        }
        if chunk_y < self.chunks_y - 1 {
            let down_idx = self.chunk_idx(chunk_x, chunk_y + 1);
            if self.chunks[down_idx].is_some() {
                neighbors += 1;
            }
        }
        neighbors
    }

    /// Whether the cell `(nx, ny)`, if it has a chunk, lists `p` among the
    /// chunks that may stand on its side `side`.
    fn neighbor_allows(&self, nx: usize, ny: usize, side: usize, p: usize) -> (ok: bool)
        requires
            self.wf(),
            self.in_grid(nx as int, ny as int),
            side < 4,
        ensures
            ok == self.toward(nx as int, ny as int, side as int, p),
    {
        let idx = self.chunk_idx(nx, ny);
        match self.chunks[idx] {
            Some(q) => list_contains(&self.constraints[q].compatible_with[side], p),
            None => true,
        }
    }

    /// Whether every cell next to `(x, y)` that has a chunk lists `p` among
    /// the chunks that may stand on its side toward `(x, y)`.
    pub fn is_allowed(&self, x: usize, y: usize, p: usize) -> (ok: bool)
        requires
            self.wf(),
            self.in_grid(x as int, y as int),
        ensures
            ok == self.allowed(x as int, y as int, p),
    {
        if x > 0 && !self.neighbor_allows(x - 1, y, 3, p) {
            return false;
        }
        if x < self.chunks_x - 1 && !self.neighbor_allows(x + 1, y, 2, p) {
            return false;
        }
        if y > 0 && !self.neighbor_allows(x, y - 1, 1, p) {
            return false;
        }
        if y < self.chunks_y - 1 && !self.neighbor_allows(x, y + 1, 0, p) {
            return false;
        }
        true
    }

    /// The chunks, in ascending order, that the cells around `(x, y)` allow:
    /// all chunks where no cell around it has a chunk.
    pub fn candidates(&self, x: usize, y: usize) -> (list: Vec<usize>)
        requires
            self.wf(),
            self.in_grid(x as int, y as int),
        ensures
            list@ == self.spec_candidates(x as int, y as int),
    {
        let mut list: Vec<usize> = Vec::new();
        let mut p: usize = 0;
        while p < self.constraints.len()
            invariant
                self.wf(),
                self.in_grid(x as int, y as int),
                p <= self.constraints.len(),
                list@ == self.candidates_upto(x as int, y as int, p as int),
            decreases self.constraints.len() - p,
        {
            if self.is_allowed(x, y, p) {
                list.push(p);
            }
            p += 1;
        }
        list
    }
}

/// Stamping a pattern of walls and floors on a map of walls and floors
/// leaves a map of walls and floors.
pub proof fn lemma_stamped_walls_and_floors(
    m: TileMapView,
    pattern: Seq<TileType>,
    chunk_size: int,
    sx: int,
    sy: int,
)
    requires
        m.wf(),
        0 < chunk_size,
        only_walls_and_floors(m.tiles),
        only_walls_and_floors(pattern),
        pattern.len() == chunk_size * chunk_size,
    ensures
        only_walls_and_floors(pattern_stamped(m, pattern, chunk_size, sx, sy, false).tiles),
{
    let t = pattern_stamped(m, pattern, chunk_size, sx, sy, false).tiles;
    assert forall|i: int| 0 <= i < t.len() implies #[trigger] t[i] == TileType::Wall || t[i]
        == TileType::Floor by {
        let x = i % m.width;
        let y = i / m.width;
        if chunk_scanned(chunk_size, sx, sy, 0, chunk_size, x, y) {
            lemma_idx_in_range(chunk_size, chunk_size, x - sx, y - sy);
            let k = spec_tile_idx_in_chunk(x - sx, y - sy, chunk_size);
            assert(pattern[k] == TileType::Wall || pattern[k] == TileType::Floor);
        } else {
            assert(m.tiles[i] == TileType::Wall || m.tiles[i] == TileType::Floor);
        }
    }
}

impl Solver {
    /// The pending cells are in order as long as no cell has been met that
    /// no chunk fits.
    pub closed spec fn in_order(&self) -> bool {
        self.possible ==> self.tracking()
    }

    /// Gives the cell `(chunk_x, chunk_y)` the chunk `p`: stamps the tiles
    /// of its pattern into the map and records the chunk.
    pub fn place(&mut self, map: &mut TileMap, chunk_x: usize, chunk_y: usize, p: usize)
        requires
            old(self).wf(),
            old(self).fits(old(map)@),
            old(self).in_grid(chunk_x as int, chunk_y as int),
            p < old(self).spec_constraints().len(),
            old(self).allowed(chunk_x as int, chunk_y as int, p),
        ensures
            final(self).wf(),
            final(self).fits(final(map)@),
            final(self).spec_constraints() == old(self).spec_constraints(),
            final(self).spec_chunk_size() == old(self).spec_chunk_size(),
            final(self).columns() == old(self).columns(),
            final(self).rows() == old(self).rows(),
            final(self).pending() == old(self).pending(),
            final(self).is_possible() == old(self).is_possible(),
            forall|x: int, y: int|
                old(self).in_grid(x, y) ==> #[trigger] final(self).pattern_at(x, y) == if x
                    == chunk_x && y == chunk_y {
                    Some(p)
                } else {
                    old(self).pattern_at(x, y)
                },
            old(self).adjacency_sound() ==> final(self).adjacency_sound(),
            final(map)@ == pattern_stamped(
                old(map)@,
                old(self).spec_constraints()[p as int].pattern,
                old(self).spec_chunk_size(),
                chunk_x * old(self).spec_chunk_size(),
                chunk_y * old(self).spec_chunk_size(),
                false,
            ),
            final(self).placed_from(*old(self), chunk_x as int, chunk_y as int, p),
    {
        let ghost s0 = *self;
        let ghost cs = self.chunk_size as int;
        proof {
            assert(chunk_x * cs + cs <= self.chunks_x * cs && chunk_y * cs + cs <= self.chunks_y
                * cs && 0 <= chunk_x * cs && 0 <= chunk_y * cs && chunk_x <= chunk_x * cs
                && chunk_y <= chunk_y * cs) by (nonlinear_arith)
                requires
                    0 <= chunk_x < self.chunks_x,
                    0 <= chunk_y < self.chunks_y,
                    0 < cs,
            ;
            assert(self.chunks_x * cs <= map@.width);
            assert(self.chunks_y * cs <= map@.height);
        }
        let left_x = chunk_x as i32 * self.chunk_size;
        let top_y = chunk_y as i32 * self.chunk_size;
        stamp_pattern(map, &self.constraints[p].pattern, self.chunk_size, left_x, top_y, false);
        let idx = self.chunk_idx(chunk_x, chunk_y);
        self.chunks[idx] = Some(p);
        proof {
            if s0.adjacency_sound() {
                lemma_grid_sound_after_place(
                    chunk_views(s0.constraints@),
                    s0.chunks@,
                    s0.chunks_x as int,
                    s0.chunks_y as int,
                    chunk_x as int,
                    chunk_y as int,
                    p,
                );
            }
            lemma_idx_in_range(self.chunks_x as int, self.chunks_y as int, chunk_x as int, chunk_y as int);
            assert forall|x1: int, y1: int| s0.in_grid(x1, y1) implies #[trigger] self.pattern_at(
                x1,
                y1,
            ) == if x1 == chunk_x && y1 == chunk_y {
                Some(p)
            } else {
                s0.pattern_at(x1, y1)
            } by {
                lemma_idx_in_range(self.chunks_x as int, self.chunks_y as int, x1, y1);
            }
        }
    }

    /// The solver is `before` with the chunk `p` given to the cell `(x, y)`.
    pub closed spec fn placed_from(&self, before: Solver, x: int, y: int, p: usize) -> bool {
        &&& self.remaining == before.remaining
        &&& self.possible == before.possible
        &&& self.constraints == before.constraints
        &&& self.chunk_size == before.chunk_size
        &&& self.chunks_x == before.chunks_x
        &&& self.chunks_y == before.chunks_y
        &&& self.chunks@ == before.chunks@.update(y * before.chunks_x + x, Some(p))
    }
}

impl Solver {
    /// Counts anew, for every pending cell, the cells next to it that have
    /// a chunk.
    fn recount(&mut self)
        requires
            old(self).wf(),
        ensures
            final(self).wf(),
            final(self).constraints == old(self).constraints,
            final(self).chunk_size == old(self).chunk_size,
            final(self).chunks == old(self).chunks,
            final(self).chunks_x == old(self).chunks_x,
            final(self).chunks_y == old(self).chunks_y,
            final(self).possible == old(self).possible,
            final(self).remaining.len() == old(self).remaining.len(),
            forall|k: int|
                0 <= k < final(self).remaining.len() ==> (#[trigger] final(self).remaining[k]).0
                    == old(self).remaining[k].0,
            forall|k: int|
                0 <= k < final(self).remaining.len() ==> (#[trigger] final(self).remaining[k]).1
                    == old(self).count_due(k),
    {
        let mut k: usize = 0;
        while k < self.remaining.len()
            invariant
                forall|j: int|
                    0 <= j < k ==> (#[trigger] self.remaining[j]).1 == old(self).count_due(j),
                self.wf(),
                self.constraints == old(self).constraints,
                self.chunk_size == old(self).chunk_size,
                self.chunks == old(self).chunks,
                self.chunks_x == old(self).chunks_x,
                self.chunks_y == old(self).chunks_y,
                self.possible == old(self).possible,
                self.remaining.len() == old(self).remaining.len(),
                k <= self.remaining.len(),
                forall|j: int|
                    0 <= j < self.remaining.len() ==> (#[trigger] self.remaining[j]).0 == old(
                        self,
                    ).remaining[j].0,
            decreases self.remaining.len() - k,
        {
            let map_idx = self.remaining[k].0;
            proof {
                assert(self.chunks_x > 0) by (nonlinear_arith)
                    requires
                        self.chunks_x * self.chunks_y > 0,
                        self.chunks_x >= 0,
                ;
                lemma_idx_to_coords(self.chunks_x as int, self.chunks_y as int, map_idx as int);
            }
            let chunk_x = map_idx % self.chunks_x;
            let chunk_y = map_idx / self.chunks_x;
            let neighbor_count = self.count_neighbors(chunk_x, chunk_y);
            let ghost before = self.remaining@;
            let ghost counted = *self;
            self.remaining[k] = (map_idx, neighbor_count);
            proof {
                assert(counted.collapsed_around(chunk_x as int, chunk_y as int) == old(
                    self,
                ).collapsed_around(chunk_x as int, chunk_y as int));
                assert forall|j: int| 0 <= j < k + 1 implies (#[trigger] self.remaining[j]).1
                    == old(self).count_due(j) by {
                    if j < k {
                        assert(self.remaining[j] == before[j]);
                    }
                }
                assert forall|j: int| 0 <= j < self.remaining.len() implies (
                #[trigger] self.remaining[j]).0 == old(self).remaining[j].0 by {
                    assert(before[j].0 == old(self).remaining[j].0);
                }
            }
            k += 1;
        }
    }

    /// Takes the pending cell at `index` off the list of pending cells and
    /// returns it.
    fn take_pending(&mut self, index: usize) -> (cell: usize)
        requires
            old(self).wf(),
            index < old(self).remaining.len(),
        ensures
            final(self).wf(),
            final(self).constraints == old(self).constraints,
            final(self).chunk_size == old(self).chunk_size,
            final(self).chunks == old(self).chunks,
            final(self).chunks_x == old(self).chunks_x,
            final(self).chunks_y == old(self).chunks_y,
            final(self).possible == old(self).possible,
            final(self).remaining@ == old(self).remaining@.remove(index as int),
            cell == old(self).remaining[index as int].0,
            cell < final(self).chunks.len(),
    {
        let cell = self.remaining[index].0;
        self.remaining.remove(index);
        cell
    }

    /// The pending cells are in order but for the cell `cell`, which has
    /// been taken off the list and has no chunk yet.
    #[verifier::opaque]
    pub closed spec fn in_order_but(&self, cell: int) -> bool {
        self.possible ==> {
            &&& 0 <= cell < self.chunks.len()
            &&& self.chunks[cell] is None
            &&& forall|k: int|
                0 <= k < self.remaining.len() ==> self.chunks[(
                #[trigger] self.remaining[k]).0 as int] is None && self.remaining[k].0 != cell
            &&& forall|j: int, k: int|
                0 <= j < self.remaining.len() && 0 <= k < self.remaining.len() && j != k ==> (
                #[trigger] self.remaining[j]).0 != (#[trigger] self.remaining[k]).0
            &&& forall|c: int|
                0 <= c < self.chunks.len() && c != cell && #[trigger] self.chunks[c] is None
                    ==> exists|k: int|
                    0 <= k < self.remaining.len() && (#[trigger] self.remaining[k]).0 == c
        }
    }

    /// Taking the pending cell at `index` off the list leaves the pending
    /// cells in order but for that cell.
    proof fn lemma_take_in_order(s1: Solver, s2: Solver, index: int)
        requires
            s1.wf(),
            s1.in_order(),
            0 <= index < s1.remaining.len(),
            s2.possible == s1.possible,
            s2.chunks == s1.chunks,
            s2.remaining@ == s1.remaining@.remove(index),
        ensures
            s2.in_order_but(s1.remaining[index].0 as int),
    {
        reveal(Solver::tracking);
        reveal(Solver::in_order_but);
        if s1.possible {
            let c = s1.remaining[index].0 as int;
            assert forall|k: int| 0 <= k < s2.remaining.len() implies s2.chunks[(
            #[trigger] s2.remaining[k]).0 as int] is None && s2.remaining[k].0 != c by {
                let k1 = if k < index {
                    k
                } else {
                    k + 1
                };
                assert(s2.remaining[k] == s1.remaining[k1]);
                assert(s1.remaining[k1].0 != s1.remaining[index].0);
                assert(s1.chunks[s1.remaining[k1].0 as int] is None);
            }
            assert forall|j: int, k: int|
                0 <= j < s2.remaining.len() && 0 <= k < s2.remaining.len() && j != k implies (
            #[trigger] s2.remaining[j]).0 != (#[trigger] s2.remaining[k]).0 by {
                let j1 = if j < index {
                    j
                } else {
                    j + 1
                };
                let k1 = if k < index {
                    k
                } else {
                    k + 1
                };
                assert(s2.remaining[j] == s1.remaining[j1]);
                assert(s2.remaining[k] == s1.remaining[k1]);
            }
            assert forall|c1: int|
                0 <= c1 < s2.chunks.len() && c1 != c && #[trigger] s2.chunks[c1] is None implies exists|
                k: int,
            |
                0 <= k < s2.remaining.len() && (#[trigger] s2.remaining[k]).0 == c1 by {
                let k1 = choose|k1: int|
                    0 <= k1 < s1.remaining.len() && (#[trigger] s1.remaining[k1]).0 == c1;
                let k = if k1 < index {
                    k1
                } else {
                    k1 - 1
                };
                assert(s2.remaining[k] == s1.remaining[k1]);
            }
            assert(s1.chunks[s1.remaining[index].0 as int] is None);
        }
    }

    /// Giving the cell that was taken off the list a chunk puts the pending
    /// cells in order.
    proof fn lemma_place_in_order(s2: Solver, s3: Solver, x: int, y: int, p: usize)
        requires
            s2.wf(),
            s2.in_order_but(y * s2.chunks_x + x),
            s3.placed_from(s2, x, y, p),
        ensures
            s3.in_order(),
    {
        reveal(Solver::tracking);
        reveal(Solver::in_order_but);
        if s2.possible {
            let c = y * s2.chunks_x + x;
            assert forall|k: int| 0 <= k < s3.remaining.len() implies s3.chunks[(
            #[trigger] s3.remaining[k]).0 as int] is None by {
                assert(s2.chunks[s2.remaining[k].0 as int] is None && s2.remaining[k].0 != c);
            }
            assert forall|c1: int|
                0 <= c1 < s3.chunks.len() && #[trigger] s3.chunks[c1] is None implies exists|
                k: int,
            |
                0 <= k < s3.remaining.len() && (#[trigger] s3.remaining[k]).0 == c1 by {
                assert(c1 != c);
                assert(s2.chunks[c1] is None);
            }
        }
    }

    /// Counting the neighbours of the pending cells anew keeps the pending
    /// cells in order.
    proof fn lemma_recount_in_order(s0: Solver, s1: Solver)
        requires
            s0.wf(),
            s0.in_order(),
            s1.possible == s0.possible,
            s1.chunks == s0.chunks,
            s1.remaining.len() == s0.remaining.len(),
            forall|k: int|
                0 <= k < s1.remaining.len() ==> (#[trigger] s1.remaining[k]).0
                    == s0.remaining[k].0,
        ensures
            s1.in_order(),
    {
        reveal(Solver::tracking);
        if s0.possible {
            assert forall|k: int| 0 <= k < s1.remaining.len() implies s1.chunks[(
            #[trigger] s1.remaining[k]).0 as int] is None by {
                assert(s0.chunks[s0.remaining[k].0 as int] is None);
            }
            assert forall|j: int, k: int|
                0 <= j < s1.remaining.len() && 0 <= k < s1.remaining.len() && j != k implies (
            #[trigger] s1.remaining[j]).0 != (#[trigger] s1.remaining[k]).0 by {
                assert(s0.remaining[j].0 != s0.remaining[k].0);
            }
            assert forall|c1: int|
                0 <= c1 < s1.chunks.len() && #[trigger] s1.chunks[c1] is None implies exists|
                k: int,
            |
                0 <= k < s1.remaining.len() && (#[trigger] s1.remaining[k]).0 == c1 by {
                let k = choose|k: int|
                    0 <= k < s0.remaining.len() && (#[trigger] s0.remaining[k]).0 == c1;
                assert(s1.remaining[k].0 == c1);
            }
        }
    }

    /// Counts the neighbours of the pending cells anew, rolls for one of
    /// them and takes it off the list. Returns the cell.
    fn pick_pending(&mut self, dice: &mut Dice) -> (cell: usize)
        requires
            old(self).wf(),
            old(self).remaining.len() > 0,
        ensures
            final(self).wf(),
            final(self).constraints == old(self).constraints,
            final(self).chunk_size == old(self).chunk_size,
            final(self).chunks == old(self).chunks,
            final(self).chunks_x == old(self).chunks_x,
            final(self).chunks_y == old(self).chunks_y,
            final(self).possible == old(self).possible,
            final(self).remaining.len() == old(self).remaining.len() - 1,
            cell < final(self).chunks.len(),
            old(self).in_order() ==> final(self).in_order_but(cell as int),
            final(dice).drawn().len() == old(dice).drawn().len() + 1,
            final(dice).drawn().take(old(dice).drawn().len() as int) == old(dice).drawn(),
            1 <= final(dice).drawn().last() <= old(self).remaining.len(),
            cell == old(self).pending_cells()[final(dice).drawn().last() - 1],
            final(self).pending_cells() == old(self).pending_cells().remove(
                final(dice).drawn().last() - 1,
            ),
    {
        let ghost s0 = *self;
        let ghost d0 = dice.drawn();
        self.recount();
        let ghost s1 = *self;
        let roll = dice.roll(self.remaining.len() as i32);
        let index = (roll - 1) as usize;
        let cell = self.take_pending(index);
        proof {
            assert(s1.pending_cells() =~= s0.pending_cells());
            assert(self.pending_cells() =~= s1.pending_cells().remove(index as int));
            assert(dice.drawn().take(d0.len() as int) =~= d0);
            if s0.in_order() {
                Self::lemma_recount_in_order(s0, s1);
                Self::lemma_take_in_order(s1, *self, index as int);
            }
        }
        cell
    }

    /// The solver and the map are what a step with the given rolls makes of
    /// the solver `before` and the map `map_before`: the first roll picks a
    /// pending cell, which leaves the list; where the cells around it allow
    /// no chunk, the step ends the solve and leaves the cells and the map
    /// alone; otherwise a second roll picks one of the allowed chunks, in
    /// ascending order, which is given to the cell and stamped into the map.
    pub open spec fn stepped_from(
        &self,
        before: Solver,
        rolls: Seq<int>,
        map_before: TileMapView,
        map_after: TileMapView,
        done: bool,
    ) -> bool {
        let constraints = before.spec_constraints();
        let w = before.columns();
        let h = before.rows();
        let s = before.solve_state(map_before.tiles);
        let found = finds_chunk(constraints, w, h, s, rolls[0]);
        &&& 1 <= rolls[0] <= before.pending()
        &&& before.in_grid(picked(w, s, rolls[0]).0, picked(w, s, rolls[0]).1)
        &&& rolls.len() == if found {
            2int
        } else {
            1int
        }
        &&& done == !found
        &&& found ==> 1 <= rolls[1] <= candidates_from(
            constraints,
            s.chunks,
            w,
            h,
            picked(w, s, rolls[0]).0,
            picked(w, s, rolls[0]).1,
            constraints.len() as int,
        ).len()
        &&& map_after == map_before.with_tiles(map_after.tiles)
        &&& self.solve_state(map_after.tiles) == solve_step(
            constraints,
            before.spec_chunk_size(),
            w,
            h,
            map_before,
            s,
            rolls[0],
            if found {
                rolls[1]
            } else {
                0
            },
        )
    }

    /// Collapses one pending cell, picked by a roll: the cell gets a chunk,
    /// picked by a second roll among those that the cells around it allow.
    /// Where no chunk is allowed, the solve is marked as impossible.
    /// Returns whether the solve has ended: no cell was pending, or the
    /// solve has become impossible.
    pub fn step(&mut self, map: &mut TileMap, dice: &mut Dice) -> (done: bool)
        requires
            old(self).wf(),
            old(self).fits(old(map)@),
        ensures
            final(self).wf(),
            final(self).fits(final(map)@),
            final(map).wf(),
            final(self).spec_constraints() == old(self).spec_constraints(),
            final(self).spec_chunk_size() == old(self).spec_chunk_size(),
            final(self).columns() == old(self).columns(),
            final(self).rows() == old(self).rows(),
            final(map)@ == old(map)@.with_tiles(final(map).tiles@),
            old(self).pending() == 0 ==> done && final(self).pending() == 0 && final(map)@ == old(
                map,
            )@ && final(dice).drawn() == old(dice).drawn() && final(self).is_possible() == old(
                self,
            ).is_possible(),
            old(self).pending() == 0 ==> *final(self) == *old(self),
            old(self).pending() > 0 ==> final(self).pending() == old(self).pending() - 1,
            old(self).pending() > 0 ==> final(self).stepped_from(
                *old(self),
                final(dice).drawn().skip(old(dice).drawn().len() as int),
                old(map)@,
                final(map)@,
                done,
            ),
            done ==> old(self).pending() == 0 || !final(self).is_possible(),
            !done ==> final(self).is_possible() == old(self).is_possible(),
            old(self).adjacency_sound() ==> final(self).adjacency_sound(),
            old(self).in_order() ==> final(self).in_order(),
            plain_chunks(old(self).spec_constraints()) && only_walls_and_floors(old(map).tiles@)
                ==> only_walls_and_floors(final(map).tiles@),
            old(dice).drawn().len() <= final(dice).drawn().len(),
            final(dice).drawn().take(old(dice).drawn().len() as int) == old(dice).drawn(),
    {
        let ghost d0 = dice.drawn();
        proof {
            assert(dice.drawn().take(d0.len() as int) =~= d0);
        }
        if self.remaining.len() == 0 {
            return true;
        }
        let ghost s0 = *self;
        let collapsed_chunk = self.pick_pending(dice);
        let ghost s2 = *self;
        proof {
            assert(self.chunks_x > 0) by (nonlinear_arith)
                requires
                    self.chunks_x * self.chunks_y > 0,
                    self.chunks_x >= 0,
            ;
            lemma_idx_to_coords(self.chunks_x as int, self.chunks_y as int, collapsed_chunk as int);
        }
        let chunk_x = collapsed_chunk % self.chunks_x;
        let chunk_y = collapsed_chunk / self.chunks_x;
        let candidates = self.candidates(chunk_x, chunk_y);
        let ghost d1 = dice.drawn();
        let ghost m0 = map@;
        proof {
            assert(d1.skip(d0.len() as int) =~= seq![d1.last()]);
            assert(s0.picked_cell(d1.last()) == (chunk_x as int, chunk_y as int));
        }
        if candidates.len() == 0 {
            self.possible = false;
            proof {
                assert(self.pending_cells() =~= s2.pending_cells());
            }
            return true;
        }
        proof {
            self.lemma_candidates_len(
                chunk_x as int,
                chunk_y as int,
                self.constraints.len() as int,
            );
        }
        let pick = dice.roll(candidates.len() as i32);
        let new_chunk_pattern_idx = candidates[(pick - 1) as usize];
        proof {
            assert(dice.drawn().take(d0.len() as int) =~= d1.take(d0.len() as int));
            self.lemma_candidates_allowed(
                chunk_x as int,
                chunk_y as int,
                self.constraints.len() as int,
                pick - 1,
            );
            if plain_chunks(s2.spec_constraints()) && only_walls_and_floors(map.tiles@) {
                let pat = self.spec_constraints()[new_chunk_pattern_idx as int].pattern;
                assert(pat == self.constraints[new_chunk_pattern_idx as int].pattern@);
                lemma_stamped_walls_and_floors(
                    map@,
                    pat,
                    self.chunk_size as int,
                    chunk_x * self.chunk_size,
                    chunk_y * self.chunk_size,
                );
            }
        }
        self.place(map, chunk_x, chunk_y, new_chunk_pattern_idx);
        proof {
            let rolls = dice.drawn().skip(d0.len() as int);
            assert(rolls =~= seq![d1.last(), pick as int]);
            assert(self.pending_cells() =~= s2.pending_cells());
            if s2.in_order_but(collapsed_chunk as int) {
                Self::lemma_place_in_order(
                    s2,
                    *self,
                    chunk_x as int,
                    chunk_y as int,
                    new_chunk_pattern_idx,
                );
            }
        }
        false
    }

    /// Once no cell is pending in a solve that is possible and in order,
    /// every cell has a chunk.
    pub proof fn lemma_complete(&self)
        requires
            self.wf(),
            self.in_order(),
            self.is_possible(),
            self.pending() == 0,
        ensures
            self.all_collapsed(),
    {
        reveal(Solver::tracking);
        assert forall|c: int| 0 <= c < self.chunks.len() implies #[trigger] self.chunks[c] is Some by {
            if self.chunks[c] is None {
                let k = choose|k: int|
                    0 <= k < self.remaining.len() && (#[trigger] self.remaining[k]).0 == c;
            }
        }
    }
}

impl Solver {
    /// The chunks of two cells side by side, or one above the other, agree
    /// across the border between them: where the constraints are those
    /// compiled from patterns, one of the two chunks has no exit at all, or
    /// one of them has no exit on that border, or an exit of one faces an
    /// exit of the other.
    pub proof fn lemma_neighbours_agree(&self, patterns: Seq<Seq<TileType>>, x: int, y: int)
        requires
            self.adjacency_sound(),
            constraints_of(self.spec_constraints(), patterns, self.spec_chunk_size()),
            self.in_grid(x, y),
            self.pattern_at(x, y) is Some,
        ensures
            self.in_grid(x + 1, y) ==> (self.pattern_at(x + 1, y) matches Some(b) ==> {
                let a = self.pattern_at(x, y)->0;
                let c = self.spec_constraints();
                a < c.len() && b < c.len() && (compatible(c[a as int], 3, c[b as int])
                    || compatible(c[b as int], 2, c[a as int]))
            }),
            self.in_grid(x, y + 1) ==> (self.pattern_at(x, y + 1) matches Some(b) ==> {
                let a = self.pattern_at(x, y)->0;
                let c = self.spec_constraints();
                a < c.len() && b < c.len() && (compatible(c[a as int], 1, c[b as int])
                    || compatible(c[b as int], 0, c[a as int]))
            }),
    {
        reveal(grid_sound);
        let c = self.spec_constraints();
        let a = self.pattern_at(x, y)->0;
        assert(c.len() == self.constraints.len());
        assert(cell_mark(x, y));
        if self.in_grid(x + 1, y) && self.pattern_at(x + 1, y) is Some {
            let b = self.pattern_at(x + 1, y)->0;
            assert(lists(c, a, 3, b) || lists(c, b, 2, a));
            if lists(c, a, 3, b) {
                lemma_compatible_list_members(c, a as int, 3, c.len() as int, b);
            }
            if lists(c, b, 2, a) {
                lemma_compatible_list_members(c, b as int, 2, c.len() as int, a);
            }
        }
        if self.in_grid(x, y + 1) && self.pattern_at(x, y + 1) is Some {
            let b = self.pattern_at(x, y + 1)->0;
            assert(lists(c, a, 1, b) || lists(c, b, 0, a));
            if lists(c, a, 1, b) {
                lemma_compatible_list_members(c, a as int, 1, c.len() as int, b);
            }
            if lists(c, b, 0, a) {
                lemma_compatible_list_members(c, b as int, 0, c.len() as int, a);
            }
        }
    }
}

} // verus!
