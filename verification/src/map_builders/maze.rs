use vstd::prelude::*;
use crate::dice::{extends, lemma_extends_trans, Dice};
use crate::map::{
    fresh_map, lemma_idx_in_range, Position, TileMap, TileMapView, TileType, MAP_HEIGHT, MAP_WIDTH,
};
use crate::map_builders::common::{
    finishes, is_finished_level, lemma_finished_level_start, lemma_finished_level_start_floor,
    lemma_finishes_unique, only_walls_and_floors, start_is_open,
};
use crate::map_builders::{views_of, BuilderState, MapBuilder};
use crate::pathing::point_of;

verus! {

/// The wall of a cell toward the row above has been torn down.
pub const NORTH: u8 = 0b00000001;

/// The wall of a cell toward the row below has been torn down.
pub const SOUTH: u8 = 0b00000010;

/// The wall of a cell toward the column to the left has been torn down.
pub const WEST: u8 = 0b00000100;

/// The wall of a cell toward the column to the right has been torn down.
pub const EAST: u8 = 0b00001000;

/// A snapshot is taken whenever this many more cells have been connected.
pub const CELL_COUNT_BEFORE_SNAPSHOT: u64 = 20;

/// Largest number of cells a well-formed grid may hold.
pub const GRID_CELL_LIMIT: i32 = 0x0fff_ffff;

/// The grid on which the maze is laid out, at half the resolution of the
/// map: for every cell the walls that were torn down around it, and whether
/// the walk has been there.
pub struct MazeGrid {
    pub grid_width: i32,
    pub grid_height: i32,
    /// For each cell, the four bits `NORTH`, `SOUTH`, `WEST` and `EAST`.
    pub walls: Vec<u8>,
    pub is_visited: Vec<bool>,
}

/// How many of the entries are false.
pub open spec fn count_false(flags: Seq<bool>) -> nat
    decreases flags.len(),
{
    if flags.len() == 0 {
        0
    } else {
        count_false(flags.drop_last()) + if flags.last() {
            0nat
        } else {
            1nat
        }
    }
}

/// Setting a false entry makes one fewer false; setting a true entry
/// changes nothing.
pub proof fn lemma_count_false_set(flags: Seq<bool>, i: int)
    requires
        0 <= i < flags.len(),
    ensures
        count_false(flags.update(i, true)) + (if flags[i] {
            0nat
        } else {
            1nat
        }) == count_false(flags),
    decreases flags.len(),
{
    let e = flags.update(i, true);
    if i == flags.len() - 1 {
        assert(e.drop_last() =~= flags.drop_last());
    } else {
        lemma_count_false_set(flags.drop_last(), i);
        assert(e.drop_last() =~= flags.drop_last().update(i, true));
    }
}

/// Where every entry is false, as many are false as there are entries.
pub proof fn lemma_count_false_all(flags: Seq<bool>)
    requires
        forall|i: int| 0 <= i < flags.len() ==> !flags[i],
    ensures
        count_false(flags) == flags.len(),
    decreases flags.len(),
{
    if flags.len() > 0 {
        lemma_count_false_all(flags.drop_last());
    }
}

/// The bits of the walls that connecting `from` to `to` tears down: first
/// the one of `from`, then the one of `to`. Both are zero when neither the
/// columns nor the rows of the cells differ by one.
pub open spec fn torn_walls(from: Position, to: Position) -> (u8, u8) {
    let x_diff = from.x - to.x;
    let y_diff = from.y - to.y;
    if x_diff == 1 {
        (WEST, EAST)
    } else if x_diff == -1 {
        (EAST, WEST)
    } else if y_diff == 1 {
        (NORTH, SOUTH)
    } else if y_diff == -1 {
        (SOUTH, NORTH)
    } else {
        (0u8, 0u8)
    }
}

/// Whether `(x, y)` is a cell of a grid of `gw` by `gh` cells where the walk
/// has not been.
pub open spec fn cell_available(gw: int, gh: int, visited: Seq<bool>, x: int, y: int) -> bool {
    0 <= x < gw && 0 <= y < gh && !visited[y * gw + x]
}

/// The cells next to `pos` where the walk has not been, in the order right,
/// left, below, above.
pub open spec fn neighbors_available(gw: int, gh: int, visited: Seq<bool>, pos: Position) -> Seq<
    Position,
> {
    let right = Position { x: (pos.x + 1) as i32, y: pos.y };
    let left = Position { x: (pos.x - 1) as i32, y: pos.y };
    let below = Position { x: pos.x, y: (pos.y + 1) as i32 };
    let above = Position { x: pos.x, y: (pos.y - 1) as i32 };
    (if cell_available(gw, gh, visited, pos.x + 1, pos.y as int) {
        seq![right]
    } else {
        Seq::empty()
    }) + (if cell_available(gw, gh, visited, pos.x - 1, pos.y as int) {
        seq![left]
    } else {
        Seq::empty()
    }) + (if cell_available(gw, gh, visited, pos.x as int, pos.y + 1) {
        seq![below]
    } else {
        Seq::empty()
    }) + (if cell_available(gw, gh, visited, pos.x as int, pos.y - 1) {
        seq![above]
    } else {
        Seq::empty()
    })
}

/// The walls after the wall between the cells `from` and `to` has been torn
/// down.
pub open spec fn walls_connected(gw: int, walls: Seq<u8>, from: Position, to: Position) -> Seq<u8> {
    let from_idx = from.y * gw + from.x;
    let to_idx = to.y * gw + to.x;
    let torn = torn_walls(from, to);
    let first = walls.update(from_idx, walls[from_idx] | torn.0);
    first.update(to_idx, first[to_idx] | torn.1)
}

/// The tiles with the tile at index `i` turned to floor where `dig` is set.
pub open spec fn floor_if(tiles: Seq<TileType>, dig: bool, i: int) -> Seq<TileType> {
    if dig {
        tiles.update(i, TileType::Floor)
    } else {
        tiles
    }
}

/// The tiles after a cell of the maze grid has been carved into the map:
/// the tile that stands for the cell is floor, and so is the tile next to
/// it on every side on which the bits `torn` say the wall was torn down.
pub open spec fn cell_carved(m: TileMapView, cell: Position, torn: u8) -> Seq<TileType> {
    let tx = cell.x * 2 + 1;
    let ty = cell.y * 2 + 1;
    let t0 = m.tiles.update(m.idx(tx, ty), TileType::Floor);
    let t1 = floor_if(t0, torn & NORTH != 0, m.idx(tx, ty - 1));
    let t2 = floor_if(t1, torn & SOUTH != 0, m.idx(tx, ty + 1));
    let t3 = floor_if(t2, torn & WEST != 0, m.idx(tx - 1, ty));
    floor_if(t3, torn & EAST != 0, m.idx(tx + 1, ty))
}

/// The walk through the maze grid as it stands: the walls torn down, where
/// the walk has been, the cells it may step back to, and the tiles carved.
#[verifier::ext_equal]
pub struct MazeWalk {
    pub walls: Seq<u8>,
    pub visited: Seq<bool>,
    pub stack: Seq<Position>,
    pub tiles: Seq<TileType>,
}

/// Whether the next move of the walk takes a roll: whether a cell next to
/// the cell on top of the stack is one where the walk has not been.
pub open spec fn takes_roll(gw: int, gh: int, s: MazeWalk) -> bool {
    let top = s.stack.last();
    neighbors_available(gw, gh, s.visited.update(top.y * gw + top.x, true), top).len() > 0
}

/// The walk after its next move: the cell on top of the stack counts as
/// visited; where a cell next to it is one where the walk has not been, the
/// roll picks one of them, the wall between the two is torn down, the cell
/// that the walk leaves is carved into the map, and the walk goes on from
/// the cell picked; otherwise the walk steps back.
pub open spec fn maze_step(gw: int, gh: int, m0: TileMapView, s: MazeWalk, roll: int) -> MazeWalk {
    let top = s.stack.last();
    let cell = top.y * gw + top.x;
    let visited = s.visited.update(cell, true);
    let choices = neighbors_available(gw, gh, visited, top);
    if choices.len() == 0 {
        MazeWalk { visited: visited, stack: s.stack.drop_last(), ..s }
    } else {
        let neigh = choices[roll - 1];
        let walls = walls_connected(gw, s.walls, top, neigh);
        MazeWalk {
            walls: walls,
            visited: visited,
            stack: s.stack.push(neigh),
            tiles: cell_carved(m0.with_tiles(s.tiles), top, walls[cell]),
        }
    }
}

/// The walk after at most `fuel` moves, and the number of the next roll:
/// the walk reads its rolls from the `c`-th on and ends when there is no
/// cell to step back to.
pub open spec fn maze_run(
    gw: int,
    gh: int,
    m0: TileMapView,
    s: MazeWalk,
    rolls: Seq<int>,
    c: int,
    fuel: int,
) -> (MazeWalk, int)
    decreases fuel,
{
    if fuel <= 0 || s.stack.len() == 0 {
        (s, c)
    } else if takes_roll(gw, gh, s) {
        maze_run(gw, gh, m0, maze_step(gw, gh, m0, s, rolls[c]), rolls, c + 1, fuel - 1)
    } else {
        maze_run(gw, gh, m0, maze_step(gw, gh, m0, s, 0), rolls, c, fuel - 1)
    }
}

/// The walk before its first move over a grid of `cells` cells: every wall
/// stands, the walk has been nowhere, and it is about to enter the first
/// cell.
pub open spec fn maze_start(cells: int, tiles: Seq<TileType>) -> MazeWalk {
    MazeWalk {
        walls: Seq::new(cells as nat, |i: int| 0u8),
        visited: Seq::new(cells as nat, |i: int| false),
        stack: seq![Position { x: 0, y: 0 }],
        tiles: tiles,
    }
}

/// The walk through a grid of `gw` by `gh` cells from its first move to its
/// end, and the number of rolls it has read.
pub open spec fn maze_walked(gw: int, gh: int, m0: TileMapView, rolls: Seq<int>) -> (MazeWalk, int) {
    maze_run(gw, gh, m0, maze_start(gw * gh, m0.tiles), rolls, 0, 2 * (gw * gh) + 1)
}

impl MazeGrid {
    /// The grid has a cell, and a wall entry and a flag for every cell.
    pub open spec fn wf(&self) -> bool {
        &&& 0 < self.grid_width
        &&& 0 < self.grid_height
        &&& self.grid_width * self.grid_height <= GRID_CELL_LIMIT
        &&& self.walls.len() == self.grid_width * self.grid_height
        &&& self.is_visited.len() == self.grid_width * self.grid_height
    }

    /// Whether `(x, y)` names a cell of the grid.
    pub open spec fn in_grid(&self, x: int, y: int) -> bool {
        0 <= x < self.grid_width && 0 <= y < self.grid_height
    }

    /// The index of the cell `(x, y)`.
    pub open spec fn cell(&self, x: int, y: int) -> int {
        y * self.grid_width + x
    }

    /// Whether the walk has been to the cell `(x, y)`.
    pub open spec fn visited(&self, x: int, y: int) -> bool {
        self.is_visited[self.cell(x, y)]
    }

    /// Whether `(x, y)` is a cell that the walk may go to next: a cell of
    /// the grid where it has not been.
    pub open spec fn available(&self, x: int, y: int) -> bool {
        cell_available(self.grid_width as int, self.grid_height as int, self.is_visited@, x, y)
    }

    /// The cells next to `pos` that the walk may go to, in the order right,
    /// left, below, above.
    pub open spec fn spec_available_neighbors(&self, pos: Position) -> Seq<Position> {
        neighbors_available(self.grid_width as int, self.grid_height as int, self.is_visited@, pos)
    }

    /// The index of the cell at `pos`, or `-1` if `pos` is not on the grid.
    pub fn xy_idx(&self, pos: Position) -> (idx: i32)
        requires
            self.wf(),
        ensures
            self.in_grid(pos.x as int, pos.y as int) ==> idx == self.cell(pos.x as int, pos.y as int)
                && 0 <= idx < self.walls.len(),
            !self.in_grid(pos.x as int, pos.y as int) ==> idx == -1,
    {
        if pos.x >= 0 && pos.x < self.grid_width && pos.y >= 0 && pos.y < self.grid_height {
            proof {
                lemma_idx_in_range(
                    self.grid_width as int,
                    self.grid_height as int,
                    pos.x as int,
                    pos.y as int,
                );
            }
            (pos.y * self.grid_width) + pos.x
        } else {
            -1
        }
    }

    /// Tears down the wall between two cells: sets the bit toward `to_pos`
    /// on the cell at `from_pos` and the bit toward `from_pos` on the cell
    /// at `to_pos`. The side is told by the difference of the columns where
    /// that is one, and by the difference of the rows where that is one;
    /// cells that differ by neither are left alone.
    pub fn connect_tiles(&mut self, from_pos: Position, to_pos: Position)
        requires
            old(self).wf(),
            old(self).in_grid(from_pos.x as int, from_pos.y as int),
            old(self).in_grid(to_pos.x as int, to_pos.y as int),
        ensures
            final(self).wf(),
            final(self).grid_width == old(self).grid_width,
            final(self).grid_height == old(self).grid_height,
            final(self).is_visited == old(self).is_visited,
            final(self).walls@ == walls_connected(
                old(self).grid_width as int,
                old(self).walls@,
                from_pos,
                to_pos,
            ),
    {
        let x_diff = from_pos.x - to_pos.x;
        let y_diff = from_pos.y - to_pos.y;
        let from_idx = self.xy_idx(from_pos) as usize;
        let to_idx = self.xy_idx(to_pos) as usize;
        let ghost w0 = self.walls@;
        assert(w0[from_idx as int] | 0u8 == w0[from_idx as int]) by (bit_vector);
        if x_diff == 1 {
            self.walls[from_idx] = self.walls[from_idx] | WEST;
            self.walls[to_idx] = self.walls[to_idx] | EAST;
        } else if x_diff == -1 {
            self.walls[from_idx] = self.walls[from_idx] | EAST;
            self.walls[to_idx] = self.walls[to_idx] | WEST;
        } else if y_diff == 1 {
            self.walls[from_idx] = self.walls[from_idx] | NORTH;
            self.walls[to_idx] = self.walls[to_idx] | SOUTH;
        } else if y_diff == -1 {
            self.walls[from_idx] = self.walls[from_idx] | SOUTH;
            self.walls[to_idx] = self.walls[to_idx] | NORTH;
        } else {
            proof {
                let first = w0.update(from_idx as int, w0[from_idx as int] | 0u8);
                assert(first =~= w0);
                assert(first[to_idx as int] | 0u8 == first[to_idx as int]) by (bit_vector);
                assert(first.update(to_idx as int, first[to_idx as int] | 0u8) =~= w0);
            }
        }
    }

    /// The cells next to `pos` that lie in the grid and where the walk has
    /// not been, in the order right, left, below, above. `pos` itself may
    /// lie anywhere, as long as the coordinates next to it can be written
    /// down.
    pub fn available_neighbors(&self, pos: Position) -> (available_neighs: Vec<Position>)
        requires
            self.wf(),
            i32::MIN < pos.x < i32::MAX,
            i32::MIN < pos.y < i32::MAX,
        ensures
            available_neighs@ == self.spec_available_neighbors(pos),
    {
        let mut available_neighs: Vec<Position> = Vec::new();
        let right = Position { x: pos.x + 1, y: pos.y };
        let left = Position { x: pos.x - 1, y: pos.y };
        let below = Position { x: pos.x, y: pos.y + 1 };
        let above = Position { x: pos.x, y: pos.y - 1 };
        let right_idx = self.xy_idx(right);
        if right_idx != -1 && !self.is_visited[right_idx as usize] {
            available_neighs.push(right);
        }
        let ghost s1 = available_neighs@;
        let left_idx = self.xy_idx(left);
        if left_idx != -1 && !self.is_visited[left_idx as usize] {
            available_neighs.push(left);
        }
        let ghost s2 = available_neighs@;
        let below_idx = self.xy_idx(below);
        if below_idx != -1 && !self.is_visited[below_idx as usize] {
            available_neighs.push(below);
        }
        let ghost s3 = available_neighs@;
        let above_idx = self.xy_idx(above);
        if above_idx != -1 && !self.is_visited[above_idx as usize] {
            available_neighs.push(above);
        }
        proof {
            let a = if self.available(pos.x + 1, pos.y as int) {
                seq![right]
            } else {
                Seq::empty()
            };
            let b = if self.available(pos.x - 1, pos.y as int) {
                seq![left]
            } else {
                Seq::empty()
            };
            let c = if self.available(pos.x as int, pos.y + 1) {
                seq![below]
            } else {
                Seq::empty()
            };
            let d = if self.available(pos.x as int, pos.y - 1) {
                seq![above]
            } else {
                Seq::empty()
            };
            assert(s1 =~= a);
            assert(s2 =~= a + b);
            assert(s3 =~= a + b + c);
            assert(available_neighs@ =~= a + b + c + d);
        }
        available_neighs
    }

    /// One of the cells next to `pos` where the walk has not been, picked
    /// by a roll of a die with as many faces as there are such cells; none
    /// if there is no such cell.
    pub fn next_neighbor(&self, pos: Position, dice: &mut Dice) -> (next: Option<Position>)
        requires
            self.wf(),
            self.in_grid(pos.x as int, pos.y as int),
        ensures
            old(dice).drawn().len() <= final(dice).drawn().len(),
            final(dice).drawn().take(old(dice).drawn().len() as int) == old(dice).drawn(),
            ({
                let choices = self.spec_available_neighbors(pos);
                let drawn = final(dice).drawn();
                if choices.len() == 0 {
                    next is None && drawn == old(dice).drawn()
                } else {
                    &&& next is Some
                    &&& drawn.len() == old(dice).drawn().len() + 1
                    &&& 1 <= drawn.last() <= choices.len()
                    &&& next->0 == choices[drawn.last() - 1]
                }
            }),
    {
        let neighbors = self.available_neighbors(pos);
        let ghost d0 = dice.drawn();
        if neighbors.len() > 0 {
            let roll = dice.roll(neighbors.len() as i32);
            assert(dice.drawn().take(d0.len() as int) =~= d0);
            Some(neighbors[(roll - 1) as usize])
        } else {
            assert(dice.drawn().take(d0.len() as int) =~= d0);
            None
        }
    }

    /// Puts every wall back up and forgets where the walk has been.
    pub fn reset(&mut self)
        requires
            old(self).wf(),
        ensures
            final(self).wf(),
            final(self).grid_width == old(self).grid_width,
            final(self).grid_height == old(self).grid_height,
            forall|i: int| 0 <= i < final(self).walls.len() ==> final(self).walls[i] == 0,
            forall|i: int| 0 <= i < final(self).is_visited.len() ==> !final(self).is_visited[i],
    {
        let grid_size = (self.grid_width * self.grid_height) as usize;
        let mut walls: Vec<u8> = Vec::new();
        let mut is_visited: Vec<bool> = Vec::new();
        let mut i: usize = 0;
        while i < grid_size
            invariant
                i <= grid_size,
                walls.len() == i,
                is_visited.len() == i,
                forall|k: int| 0 <= k < i ==> walls[k] == 0,
                forall|k: int| 0 <= k < i ==> !is_visited[k],
            decreases grid_size - i,
        {
            walls.push(0);
            is_visited.push(false);
            i += 1;
        }
        self.walls = walls;
        self.is_visited = is_visited;
    }

    /// Every cell where the walk has been and from which it has moved on
    /// for good has no cell next to it where the walk has not been.
    pub open spec fn closed_off(&self, stack: Seq<Position>) -> bool {
        forall|x: int, y: int|
            self.in_grid(x, y) && #[trigger] self.visited(x, y) && !stack.contains(
                Position { x: x as i32, y: y as i32 },
            ) ==> !self.available(x + 1, y) && !self.available(x - 1, y) && !self.available(
                x,
                y + 1,
            ) && !self.available(x, y - 1)
    }

    /// The walk has been to every cell.
    pub open spec fn all_visited(&self) -> bool {
        forall|i: int| 0 <= i < self.is_visited.len() ==> self.is_visited[i]
    }
}

/// A grid in which the walk has been to the first cell, and in which no
/// cell where it has been lies next to one where it has not, has been
/// walked in full.
pub proof fn lemma_closed_grid_is_visited(grid: MazeGrid, x: int, y: int)
    requires
        grid.wf(),
        grid.visited(0, 0),
        grid.closed_off(Seq::empty()),
        grid.in_grid(x, y),
    ensures
        grid.visited(x, y),
    decreases x + y,
{
    if x > 0 {
        lemma_closed_grid_is_visited(grid, x - 1, y);
        assert(!grid.available(x - 1 + 1, y));
    } else if y > 0 {
        lemma_closed_grid_is_visited(grid, x, y - 1);
        assert(!grid.available(x, y - 1 + 1));
    }
}

/// Where every entry is true, none counts as false.
pub proof fn lemma_count_false_zero(flags: Seq<bool>)
    requires
        forall|i: int| 0 <= i < flags.len() ==> flags[i],
    ensures
        count_false(flags) == 0,
    decreases flags.len(),
{
    if flags.len() > 0 {
        lemma_count_false_zero(flags.drop_last());
    }
}

/// Marking the cell `(tx, ty)` as visited changes where the walk has been
/// by that cell alone.
pub proof fn lemma_mark_visited(g0: MazeGrid, g1: MazeGrid, tx: int, ty: int)
    requires
        g0.wf(),
        g0.in_grid(tx, ty),
        g1.grid_width == g0.grid_width,
        g1.grid_height == g0.grid_height,
        g1.is_visited@ == g0.is_visited@.update(g0.cell(tx, ty), true),
    ensures
        forall|x: int, y: int|
            g0.in_grid(x, y) ==> #[trigger] g1.visited(x, y) == (g0.visited(x, y) || (x == tx && y
                == ty)),
{
    assert forall|x: int, y: int| g0.in_grid(x, y) implies #[trigger] g1.visited(x, y) == (
    g0.visited(x, y) || (x == tx && y == ty)) by {
        lemma_idx_in_range(g0.grid_width as int, g0.grid_height as int, x, y);
        lemma_idx_in_range(g0.grid_width as int, g0.grid_height as int, tx, ty);
    }
}

/// Every cell that the list of available neighbours of `pos` names is next
/// to `pos` and available, and the list is empty only if no cell next to
/// `pos` is available.
pub proof fn lemma_available_members(grid: MazeGrid, pos: Position, j: int)
    requires
        grid.wf(),
        grid.in_grid(pos.x as int, pos.y as int),
    ensures
        0 <= j < grid.spec_available_neighbors(pos).len() ==> ({
            let n = grid.spec_available_neighbors(pos)[j];
            &&& grid.available(n.x as int, n.y as int)
            &&& (n.x - pos.x == 1 || n.x - pos.x == -1 || n.y - pos.y == 1 || n.y - pos.y == -1)
            &&& n != pos
        }),
        grid.spec_available_neighbors(pos).len() == 0 ==> !grid.available(pos.x + 1, pos.y as int)
            && !grid.available(pos.x - 1, pos.y as int) && !grid.available(
            pos.x as int,
            pos.y + 1,
        ) && !grid.available(pos.x as int, pos.y - 1),
{
    let right = Position { x: (pos.x + 1) as i32, y: pos.y };
    let left = Position { x: (pos.x - 1) as i32, y: pos.y };
    let below = Position { x: pos.x, y: (pos.y + 1) as i32 };
    let above = Position { x: pos.x, y: (pos.y - 1) as i32 };
    let a: Seq<Position> = if grid.available(pos.x + 1, pos.y as int) {
        seq![right]
    } else {
        Seq::empty()
    };
    let b: Seq<Position> = if grid.available(pos.x - 1, pos.y as int) {
        seq![left]
    } else {
        Seq::empty()
    };
    let c: Seq<Position> = if grid.available(pos.x as int, pos.y + 1) {
        seq![below]
    } else {
        Seq::empty()
    };
    let d: Seq<Position> = if grid.available(pos.x as int, pos.y - 1) {
        seq![above]
    } else {
        Seq::empty()
    };
    let all = a + b + c + d;
    assert(all == grid.spec_available_neighbors(pos));
    if 0 <= j < all.len() {
        let n = all[j];
        if j < a.len() {
            assert(n == right);
        } else if j < a.len() + b.len() {
            assert(n == b[j - a.len()]);
            assert(n == left);
        } else if j < a.len() + b.len() + c.len() {
            assert(n == c[j - a.len() - b.len()]);
            assert(n == below);
        } else {
            assert(n == d[j - a.len() - b.len() - c.len()]);
            assert(n == above);
        }
    }
}

impl MazeGrid {
    /// The number of cells that are yet to be reached: those where the walk
    /// has not been, the one on top of the stack left out.
    pub open spec fn cells_ahead(&self, stack: Seq<Position>) -> int {
        count_false(self.is_visited@) - if stack.len() > 0 && !self.visited(
            stack.last().x as int,
            stack.last().y as int,
        ) {
            1int
        } else {
            0int
        }
    }

    /// What the walk keeps true of the grid and its stack.
    pub open spec fn walking(&self, stack: Seq<Position>) -> bool {
        &&& self.wf()
        &&& forall|k: int|
            0 <= k < stack.len() ==> self.in_grid(
                (#[trigger] stack[k]).x as int,
                stack[k].y as int,
            )
        &&& forall|k: int|
            0 <= k < stack.len() - 1 ==> self.visited(
                (#[trigger] stack[k]).x as int,
                stack[k].y as int,
            )
        &&& (self.visited(0, 0) || stack == seq![Position { x: 0, y: 0 }])
        &&& self.closed_off(stack)
    }
}

/// Where some entry is false, at least one counts as false.
pub proof fn lemma_count_false_positive(flags: Seq<bool>, i: int)
    requires
        0 <= i < flags.len(),
        !flags[i],
    ensures
        count_false(flags) >= 1,
    decreases flags.len(),
{
    if i < flags.len() - 1 {
        lemma_count_false_positive(flags.drop_last(), i);
    }
}

/// Marking the cell on top of the stack as visited keeps the walk in order
/// and leaves as many cells ahead as before.
pub proof fn lemma_walk_mark(g0: MazeGrid, g1: MazeGrid, s0: Seq<Position>)
    requires
        g0.walking(s0),
        s0.len() > 0,
        g1.grid_width == g0.grid_width,
        g1.grid_height == g0.grid_height,
        g1.walls == g0.walls,
        g1.is_visited@ == g0.is_visited@.update(
            g0.cell(s0.last().x as int, s0.last().y as int),
            true,
        ),
    ensures
        g1.walking(s0),
        g1.visited(s0.last().x as int, s0.last().y as int),
        g1.cells_ahead(s0) == g0.cells_ahead(s0),
        g1.cells_ahead(s0) == count_false(g1.is_visited@),
{
    let top = s0.last();
    let tx = top.x as int;
    let ty = top.y as int;
    assert(s0[s0.len() - 1] == top);
    lemma_idx_in_range(g0.grid_width as int, g0.grid_height as int, tx, ty);
    lemma_mark_visited(g0, g1, tx, ty);
    lemma_count_false_set(g0.is_visited@, g0.cell(tx, ty));
    assert forall|x: int, y: int|
        g1.in_grid(x, y) && #[trigger] g1.visited(x, y) && !s0.contains(
            Position { x: x as i32, y: y as i32 },
        ) implies !g1.available(x + 1, y) && !g1.available(x - 1, y) && !g1.available(x, y + 1)
        && !g1.available(x, y - 1) by {
        assert(!(x == tx && y == ty));
        assert(g0.visited(x, y));
        if g0.in_grid(x + 1, y) {
            assert(g1.visited(x + 1, y) == (g0.visited(x + 1, y) || (x + 1 == tx && y == ty)));
        }
        if g0.in_grid(x - 1, y) {
            assert(g1.visited(x - 1, y) == (g0.visited(x - 1, y) || (x - 1 == tx && y == ty)));
        }
        if g0.in_grid(x, y + 1) {
            assert(g1.visited(x, y + 1) == (g0.visited(x, y + 1) || (x == tx && y + 1 == ty)));
        }
        if g0.in_grid(x, y - 1) {
            assert(g1.visited(x, y - 1) == (g0.visited(x, y - 1) || (x == tx && y - 1 == ty)));
        }
    }
    assert forall|k: int| 0 <= k < s0.len() - 1 implies g1.visited(
        (#[trigger] s0[k]).x as int,
        s0[k].y as int,
    ) by {
        assert(g0.visited(s0[k].x as int, s0[k].y as int));
        assert(g1.visited(s0[k].x as int, s0[k].y as int) == (g0.visited(
            s0[k].x as int,
            s0[k].y as int,
        ) || (s0[k].x == tx && s0[k].y == ty)));
    }
    if !g0.visited(0, 0) {
        assert(top == (Position { x: 0, y: 0 }));
    } else {
        lemma_idx_in_range(g0.grid_width as int, g0.grid_height as int, 0, 0);
        assert(g1.visited(0, 0) == (g0.visited(0, 0) || (0 == tx && 0 == ty)));
    }
}

/// Pushing an available cell next to the visited cell on top of the stack
/// keeps the walk in order and leaves one cell fewer ahead.
pub proof fn lemma_walk_push(g1: MazeGrid, g2: MazeGrid, s0: Seq<Position>, neigh: Position)
    requires
        g1.walking(s0),
        s0.len() > 0,
        g1.visited(s0.last().x as int, s0.last().y as int),
        g2.wf(),
        g2.grid_width == g1.grid_width,
        g2.grid_height == g1.grid_height,
        g2.is_visited == g1.is_visited,
        g1.available(neigh.x as int, neigh.y as int),
    ensures
        g2.walking(s0.push(neigh)),
        g2.cells_ahead(s0.push(neigh)) == g1.cells_ahead(s0) - 1,
        g2.cells_ahead(s0.push(neigh)) >= 0,
{
    let s2 = s0.push(neigh);
    assert forall|k: int| 0 <= k < s2.len() implies g2.in_grid(
        (#[trigger] s2[k]).x as int,
        s2[k].y as int,
    ) by {
        if k < s0.len() {
            assert(s2[k] == s0[k]);
        }
    }
    assert forall|k: int| 0 <= k < s2.len() - 1 implies g2.visited(
        (#[trigger] s2[k]).x as int,
        s2[k].y as int,
    ) by {
        assert(s2[k] == s0[k]);
        if k < s0.len() - 1 {
            assert(g1.visited(s0[k].x as int, s0[k].y as int));
        }
    }
    assert forall|x: int, y: int|
        g2.in_grid(x, y) && #[trigger] g2.visited(x, y) && !s2.contains(
            Position { x: x as i32, y: y as i32 },
        ) implies !g2.available(x + 1, y) && !g2.available(x - 1, y) && !g2.available(x, y + 1)
        && !g2.available(x, y - 1) by {
        let c = Position { x: x as i32, y: y as i32 };
        if s0.contains(c) {
            let k = choose|k: int| 0 <= k < s0.len() && s0[k] == c;
            assert(s2[k] == c);
        }
        assert(g1.visited(x, y));
    }
    if !g1.visited(0, 0) {
        assert(s0.last() == (Position { x: 0, y: 0 }));
    }
    assert(s2.last() == neigh);
    lemma_idx_in_range(g1.grid_width as int, g1.grid_height as int, neigh.x as int, neigh.y as int);
    lemma_count_false_positive(g1.is_visited@, g1.cell(neigh.x as int, neigh.y as int));
}

/// Popping the visited cell on top of the stack, next to which no cell is
/// available, keeps the walk in order and leaves as many cells ahead.
pub proof fn lemma_walk_pop(g1: MazeGrid, s0: Seq<Position>)
    requires
        g1.walking(s0),
        s0.len() > 0,
        g1.visited(s0.last().x as int, s0.last().y as int),
        !g1.available(s0.last().x + 1, s0.last().y as int),
        !g1.available(s0.last().x - 1, s0.last().y as int),
        !g1.available(s0.last().x as int, s0.last().y + 1),
        !g1.available(s0.last().x as int, s0.last().y - 1),
    ensures
        g1.walking(s0.drop_last()),
        g1.cells_ahead(s0.drop_last()) == g1.cells_ahead(s0),
{
    let s2 = s0.drop_last();
    let top = s0.last();
    assert forall|k: int| 0 <= k < s2.len() implies g1.in_grid(
        (#[trigger] s2[k]).x as int,
        s2[k].y as int,
    ) by {
        assert(s2[k] == s0[k]);
    }
    assert forall|k: int| 0 <= k < s2.len() - 1 implies g1.visited(
        (#[trigger] s2[k]).x as int,
        s2[k].y as int,
    ) by {
        assert(s2[k] == s0[k]);
    }
    assert forall|x: int, y: int|
        g1.in_grid(x, y) && #[trigger] g1.visited(x, y) && !s2.contains(
            Position { x: x as i32, y: y as i32 },
        ) implies !g1.available(x + 1, y) && !g1.available(x - 1, y) && !g1.available(x, y + 1)
        && !g1.available(x, y - 1) by {
        let c = Position { x: x as i32, y: y as i32 };
        if s0.contains(c) {
            let k = choose|k: int| 0 <= k < s0.len() && s0[k] == c;
            if k < s0.len() - 1 {
                assert(s2[k] == c);
            } else {
                assert(c == top);
            }
        }
    }
    if !g1.visited(0, 0) {
        assert(top == (Position { x: 0, y: 0 }));
    }
    if s2.len() > 0 {
        assert(s2.last() == s0[s0.len() - 2]);
        assert(g1.visited(s2.last().x as int, s2.last().y as int));
    }
}

/// Carves the cell at `cell` of the maze grid into the map: the tile that
/// stands for the cell becomes floor, and so does the tile next to it on
/// every side on which the bits `torn` say the wall was torn down.
pub fn carve_cell(state: &mut BuilderState, cell: Position, torn: u8)
    requires
        old(state).wf(),
        only_walls_and_floors(old(state).map.tiles@),
        0 <= cell.x,
        0 <= cell.y,
        cell.x * 2 + 2 < old(state).map.width,
        cell.y * 2 + 2 < old(state).map.height,
    ensures
        final(state).wf(),
        only_walls_and_floors(final(state).map.tiles@),
        final(state).map@ == old(state).map@.with_tiles(final(state).map.tiles@),
        final(state).depth == old(state).depth,
        final(state).starting_position == old(state).starting_position,
        final(state).history == old(state).history,
        final(state).noise_seed == old(state).noise_seed,
        final(state).noise_areas == old(state).noise_areas,
        forall|i: int|
            0 <= i < final(state).map.tiles.len() ==> #[trigger] final(state).map.tiles[i]
                == TileType::Floor || final(state).map.tiles[i] == old(state).map.tiles[i],
        final(state).map@.at(cell.x * 2 + 1, cell.y * 2 + 1) == TileType::Floor,
        final(state).map.tiles@ == cell_carved(old(state).map@, cell, torn),
{
    let tile_x = cell.x * 2 + 1;
    let tile_y = cell.y * 2 + 1;
    let map_idx = state.map.xy_idx(tile_x, tile_y);
    state.map.tiles[map_idx] = TileType::Floor;
    proof {
        lemma_idx_in_range(state.map@.width, state.map@.height, tile_x as int, tile_y as int);
        lemma_idx_in_range(state.map@.width, state.map@.height, tile_x as int, tile_y - 1);
        lemma_idx_in_range(state.map@.width, state.map@.height, tile_x as int, tile_y + 1);
        lemma_idx_in_range(state.map@.width, state.map@.height, tile_x - 1, tile_y as int);
        lemma_idx_in_range(state.map@.width, state.map@.height, tile_x + 1, tile_y as int);
    }
    if torn & NORTH != 0 {
        let north_idx = state.map.xy_idx(tile_x, tile_y - 1);
        state.map.tiles[north_idx] = TileType::Floor;
    }
    if torn & SOUTH != 0 {
        let south_idx = state.map.xy_idx(tile_x, tile_y + 1);
        state.map.tiles[south_idx] = TileType::Floor;
    }
    if torn & WEST != 0 {
        let west_idx = state.map.xy_idx(tile_x - 1, tile_y);
        state.map.tiles[west_idx] = TileType::Floor;
    }
    if torn & EAST != 0 {
        let east_idx = state.map.xy_idx(tile_x + 1, tile_y);
        state.map.tiles[east_idx] = TileType::Floor;
    }
}

impl MazeGrid {
    /// Walks the whole grid from its first cell: the walk goes to a random
    /// cell next to it where it has not been, tears down the wall between
    /// the two and carves the cell it leaves into the map, and it steps back
    /// where no such cell is left. Returns the grid and the number of walls
    /// that it tore down.
    pub fn generate(self, state: &mut BuilderState, dice: &mut Dice) -> (done: (MazeGrid, u64))
        requires
            self.wf(),
            old(state).wf(),
            only_walls_and_floors(old(state).map.tiles@),
            self.grid_width * 2 + 1 <= old(state).map.width,
            self.grid_height * 2 + 1 <= old(state).map.height,
        ensures
            done.0.wf(),
            done.0.grid_width == self.grid_width,
            done.0.grid_height == self.grid_height,
            done.0.all_visited(),
            done.1 + 1 == self.grid_width * self.grid_height,
            done.1 > 0 ==> final(state).map@.at(1, 1) == TileType::Floor,
            done.1 > 0 ==> final(state).map@.at(2, 1) == TileType::Floor || final(state).map@.at(
                1,
                2,
            ) == TileType::Floor,
            forall|f: Seq<int>|
                extends(f, final(dice).drawn().skip(old(dice).drawn().len() as int))
                    ==> #[trigger] maze_walked(
                    self.grid_width as int,
                    self.grid_height as int,
                    old(state).map@,
                    f,
                ) == (
                    MazeWalk {
                        walls: done.0.walls@,
                        visited: done.0.is_visited@,
                        stack: Seq::empty(),
                        tiles: final(state).map.tiles@,
                    },
                    final(dice).drawn().len() - old(dice).drawn().len(),
                ),
            final(state).wf(),
            only_walls_and_floors(final(state).map.tiles@),
            final(state).map@ == old(state).map@.with_tiles(final(state).map.tiles@),
            final(state).depth == old(state).depth,
            old(state).history.len() <= final(state).history.len(),
            final(state).history@.take(old(state).history.len() as int) == old(state).history@,
            old(dice).drawn().len() <= final(dice).drawn().len(),
            final(dice).drawn().take(old(dice).drawn().len() as int) == old(dice).drawn(),
    {
        let mut grid = self;
        let ghost h0 = state.history@;
        let ghost d0 = dice.drawn();
        let ghost m0 = state.map@;
        let ghost cells = grid.grid_width * grid.grid_height;
        let ghost gw0 = grid.grid_width;
        let ghost gh0 = grid.grid_height;
        grid.reset();
        let mut cell_count: u64 = 0;
        let start_pos = Position { x: 0, y: 0 };
        let mut stack: Vec<Position> = Vec::new();
        stack.push(start_pos);
        proof {
            lemma_count_false_all(grid.is_visited@);
            assert(stack@ =~= seq![Position { x: 0, y: 0 }]);
            lemma_idx_in_range(grid.grid_width as int, grid.grid_height as int, 0, 0);
            assert forall|x: int, y: int| grid.in_grid(x, y) implies !#[trigger] grid.visited(
                x,
                y,
            ) by {
                lemma_idx_in_range(grid.grid_width as int, grid.grid_height as int, x, y);
            }
            assert(state.history@.take(h0.len() as int) =~= h0);
            assert(dice.drawn().take(d0.len() as int) =~= d0);
            assert(dice.drawn().skip(d0.len() as int) =~= Seq::<int>::empty());
            assert(grid.walls@ =~= maze_start(cells, m0.tiles).walls);
            assert(grid.is_visited@ =~= maze_start(cells, m0.tiles).visited);
        }
        let ghost gw = grid.grid_width as int;
        let ghost gh = grid.grid_height as int;
        let ghost first = maze_start(cells, m0.tiles);
        let ghost mut fuel: int = 2 * cells + 1;
        proof {
            lemma_count_false_bound(grid.is_visited@);
            assert((MazeWalk {
                walls: grid.walls@,
                visited: grid.is_visited@,
                stack: stack@,
                tiles: state.map.tiles@,
            }) == first);
        }
        while stack.len() > 0
            invariant
                gw == gw0,
                gh == gh0,
                first == maze_start(cells, m0.tiles),
                m0 == old(state).map@,
                fuel >= 2 * grid.cells_ahead(stack@) + stack.len(),
                forall|f: Seq<int>|
                    extends(f, dice.drawn().skip(d0.len() as int)) ==> #[trigger] maze_run(
                        gw,
                        gh,
                        m0,
                        first,
                        f,
                        0,
                        2 * cells + 1,
                    ) == maze_run(
                        gw,
                        gh,
                        m0,
                        MazeWalk {
                            walls: grid.walls@,
                            visited: grid.is_visited@,
                            stack: stack@,
                            tiles: state.map.tiles@,
                        },
                        f,
                        dice.drawn().len() - d0.len(),
                        fuel,
                    ),
                grid.walking(stack@),
                cell_count == 0 ==> stack.len() <= 1 && (stack.len() == 1 ==> stack[0] == (Position {
                    x: 0,
                    y: 0,
                })),
                cell_count > 0 ==> state.map@.at(1, 1) == TileType::Floor,
                cell_count > 0 ==> state.map@.at(2, 1) == TileType::Floor || state.map@.at(1, 2)
                    == TileType::Floor,
                grid.grid_width == gw0,
                grid.grid_height == gh0,
                cells == grid.grid_width * grid.grid_height,
                state.wf(),
                only_walls_and_floors(state.map.tiles@),
                state.map@ == m0.with_tiles(state.map.tiles@),
                state.depth == old(state).depth,
                grid.grid_width * 2 + 1 <= state.map.width,
                grid.grid_height * 2 + 1 <= state.map.height,
                cell_count + 1 + grid.cells_ahead(stack@) == cells,
                grid.cells_ahead(stack@) >= 0,
                h0.len() <= state.history.len(),
                state.history@.take(h0.len() as int) == h0,
                d0.len() <= dice.drawn().len(),
                dice.drawn().take(d0.len() as int) == d0,
            decreases 2 * grid.cells_ahead(stack@) + stack.len(),
        {
            let ghost g0 = grid;
            let ghost s0 = stack@;
            let ghost d1 = dice.drawn();
            let ghost h1 = state.history@;
            let ghost walk0 = MazeWalk {
                walls: grid.walls@,
                visited: grid.is_visited@,
                stack: stack@,
                tiles: state.map.tiles@,
            };
            let ghost map0 = state.map@;
            let current_pos = stack[stack.len() - 1];
            let idx = grid.xy_idx(current_pos);
            grid.is_visited[idx as usize] = true;
            let ghost g1 = grid;
            proof {
                lemma_walk_mark(g0, g1, s0);
            }
            let next = grid.next_neighbor(current_pos, dice);
            proof {
                assert(dice.drawn().take(d0.len() as int) =~= d1.take(d0.len() as int));
            }
            match next {
                Some(neigh) => {
                    proof {
                        lemma_available_members(g1, current_pos, dice.drawn().last() - 1);
                    }
                    stack.push(neigh);
                    grid.connect_tiles(current_pos, neigh);
                    proof {
                        lemma_walk_push(g1, grid, s0, neigh);
                        lemma_count_false_bound(g1.is_visited@);
                    }
                    let ghost torn = grid.walls[idx as int];
                    carve_cell(state, current_pos, grid.walls[idx as usize]);
                    proof {
                        lemma_idx_in_range(m0.width, m0.height, 1, 1);
                        lemma_idx_in_range(m0.width, m0.height, 2, 1);
                        lemma_idx_in_range(m0.width, m0.height, 1, 2);
                        if cell_count == 0 {
                            let first_cell = Position { x: 0, y: 0 };
                            assert(current_pos == first_cell);
                            let right = Position { x: 1, y: 0 };
                            let below = Position { x: 0, y: 1 };
                            let a: Seq<Position> = if g1.available(1, 0) {
                                seq![right]
                            } else {
                                Seq::empty()
                            };
                            let c: Seq<Position> = if g1.available(0, 1) {
                                seq![below]
                            } else {
                                Seq::empty()
                            };
                            assert(g1.spec_available_neighbors(first_cell) =~= a + c);
                            assert(neigh == right || neigh == below);
                            let w = g1.walls[0];
                            assert((w | 8u8) & 8u8 != 0 && (w | 2u8) & 2u8 != 0) by (bit_vector);
                            if neigh == right {
                                assert(torn == w | EAST);
                                assert(torn & EAST != 0);
                            } else {
                                assert(below.y * gw + below.x == gw) by (nonlinear_arith)
                                    requires
                                        below.y == 1,
                                        below.x == 0,
                                ;
                                assert(first_cell.y * gw + first_cell.x == 0) by (nonlinear_arith)
                                    requires
                                        first_cell.y == 0,
                                        first_cell.x == 0,
                                ;
                                assert(torn_walls(first_cell, below) == (SOUTH, NORTH));
                                assert(g1.available(0, 1));
                                assert(gw < gw * gh) by (nonlinear_arith)
                                    requires
                                        gw >= 1,
                                        gh >= 2,
                                ;
                                assert(torn == w | SOUTH);
                                assert(torn & SOUTH != 0);
                            }
                        }
                    }
                    cell_count += 1;
                    if cell_count % CELL_COUNT_BEFORE_SNAPSHOT == 0 {
                        state.take_snapshot();
                    }
                    proof {
                        assert(state.history@.take(h0.len() as int) =~= h1.take(h0.len() as int));
                        let walk1 = MazeWalk {
                            walls: grid.walls@,
                            visited: grid.is_visited@,
                            stack: stack@,
                            tiles: state.map.tiles@,
                        };
                        let roll = dice.drawn().last();
                        assert(map0 == m0.with_tiles(walk0.tiles));
                        assert(takes_roll(gw, gh, walk0));
                        assert(maze_step(gw, gh, m0, walk0, roll) == walk1);
                        let since1 = d1.skip(d0.len() as int);
                        let since = dice.drawn().skip(d0.len() as int);
                        assert(since =~= since1.push(roll));
                        assert(extends(since, since1)) by {
                            assert(since.take(since1.len() as int) =~= since1);
                        }
                        assert forall|f: Seq<int>| extends(f, since) implies #[trigger] maze_run(
                            gw,
                            gh,
                            m0,
                            first,
                            f,
                            0,
                            2 * cells + 1,
                        ) == maze_run(gw, gh, m0, walk1, f, since.len() as int, fuel - 1) by {
                            lemma_extends_trans(f, since, since1);
                            assert(f[since1.len() as int] == roll);
                            assert(maze_run(gw, gh, m0, walk0, f, since1.len() as int, fuel)
                                == maze_run(gw, gh, m0, walk1, f, since1.len() as int + 1, fuel - 1));
                        }
                        fuel = fuel - 1;
                    }
                },
                None => {
                    proof {
                        lemma_available_members(g1, current_pos, 0);
                        lemma_walk_pop(g1, s0);
                    }
                    stack.pop();
                    proof {
                        let walk1 = MazeWalk {
                            walls: grid.walls@,
                            visited: grid.is_visited@,
                            stack: stack@,
                            tiles: state.map.tiles@,
                        };
                        assert(!takes_roll(gw, gh, walk0));
                        assert(maze_step(gw, gh, m0, walk0, 0) == walk1);
                        let since = dice.drawn().skip(d0.len() as int);
                        assert forall|f: Seq<int>| extends(f, since) implies #[trigger] maze_run(
                            gw,
                            gh,
                            m0,
                            first,
                            f,
                            0,
                            2 * cells + 1,
                        ) == maze_run(gw, gh, m0, walk1, f, since.len() as int, fuel - 1) by {
                            assert(maze_run(gw, gh, m0, walk0, f, since.len() as int, fuel)
                                == maze_run(gw, gh, m0, walk1, f, since.len() as int, fuel - 1));
                        }
                        fuel = fuel - 1;
                    }
                },
            }
        }
        proof {
            assert(stack@ =~= Seq::<Position>::empty());
            assert forall|i: int| 0 <= i < grid.is_visited.len() implies grid.is_visited[i] by {
                crate::map::lemma_idx_to_coords(
                    grid.grid_width as int,
                    grid.grid_height as int,
                    i,
                );
                lemma_closed_grid_is_visited(grid, i % (grid.grid_width as int), i / (
                grid.grid_width as int));
            }
            lemma_count_false_zero(grid.is_visited@);
        }
        (grid, cell_count)
    }

    /// Lays a grid of half the resolution over the map of `state` and walks
    /// it in full.
    pub fn new_from_map(state: &mut BuilderState, dice: &mut Dice) -> (done: (MazeGrid, u64))
        requires
            old(state).wf(),
            only_walls_and_floors(old(state).map.tiles@),
        ensures
            done.0.wf(),
            done.0.grid_width == (MAP_WIDTH - 2) / 2,
            done.0.grid_height == (MAP_HEIGHT - 2) / 2,
            done.0.all_visited(),
            done.1 == 779,
            final(state).map@.at(1, 1) == TileType::Floor,
            final(state).map@.at(2, 1) == TileType::Floor || final(state).map@.at(1, 2)
                == TileType::Floor,
            forall|f: Seq<int>|
                extends(f, final(dice).drawn().skip(old(dice).drawn().len() as int))
                    ==> #[trigger] maze_walked(39, 20, old(state).map@, f) == (
                    MazeWalk {
                        walls: done.0.walls@,
                        visited: done.0.is_visited@,
                        stack: Seq::empty(),
                        tiles: final(state).map.tiles@,
                    },
                    final(dice).drawn().len() - old(dice).drawn().len(),
                ),
            final(state).wf(),
            only_walls_and_floors(final(state).map.tiles@),
            final(state).map@ == old(state).map@.with_tiles(final(state).map.tiles@),
            final(state).depth == old(state).depth,
            old(state).history.len() <= final(state).history.len(),
            final(state).history@.take(old(state).history.len() as int) == old(state).history@,
            old(dice).drawn().len() <= final(dice).drawn().len(),
            final(dice).drawn().take(old(dice).drawn().len() as int) == old(dice).drawn(),
    {
        let grid_width = (state.map.width - 2) / 2;
        let grid_height = (state.map.height - 2) / 2;
        assert(grid_width * grid_height == 780) by (nonlinear_arith)
            requires
                grid_width == 39,
                grid_height == 20,
        ;
        let grid_size = (grid_width * grid_height) as usize;
        let mut walls: Vec<u8> = Vec::new();
        let mut is_visited: Vec<bool> = Vec::new();
        let mut i: usize = 0;
        while i < grid_size
            invariant
                i <= grid_size,
                walls.len() == i,
                is_visited.len() == i,
            decreases grid_size - i,
        {
            walls.push(0);
            is_visited.push(false);
            i += 1;
        }
        let grid = MazeGrid { grid_width, grid_height, walls, is_visited };
        grid.generate(state, dice)
    }
}

/// No more entries are false than there are entries.
pub proof fn lemma_count_false_bound(flags: Seq<bool>)
    ensures
        count_false(flags) <= flags.len(),
    decreases flags.len(),
{
    if flags.len() > 0 {
        lemma_count_false_bound(flags.drop_last());
    }
}

/// Builds a maze by walking a grid of cells at random and tearing down the
/// walls that the walk crosses.
pub struct MazeBuilder {
    state: BuilderState,
}

impl MazeBuilder {
    /// The depth of the level that the builder makes.
    pub closed spec fn spec_depth(&self) -> int {
        self.state.depth as int
    }

    /// A builder for the given depth.
    pub fn new(new_depth: i32) -> (builder: MazeBuilder)
        ensures
            builder.wf(),
            builder.spec_depth() == new_depth,
            builder.history_view().len() == 0,
            builder.spec_noise_areas() == Map::<i32, Vec<usize>>::empty(),
            builder.map_view() == fresh_map(new_depth as int),
    {
        MazeBuilder { state: BuilderState::new(new_depth) }
    }

    /// The level is what the rolls make of a fresh map: the walk through
    /// the maze grid reads all rolls but the last, the map it carves is
    /// finished from the tile `(1, 1)`, and the last roll is the noise seed.
    pub open spec fn built_from(&self, rolls: Seq<int>) -> bool {
        let walked = maze_walked(39, 20, fresh_map(self.spec_depth()), rolls.drop_last());
        &&& rolls.len() >= 1
        &&& self.spec_noise_seed() == rolls.last()
        &&& walked.1 == rolls.len() - 1
        &&& walked.0.stack.len() == 0
        &&& self.start() == (1int, 1int)
        &&& exists|e: int| #[trigger]
            finishes(
                fresh_map(self.spec_depth()).with_tiles(walked.0.tiles),
                (1int, 1int),
                e,
                self.map_view(),
            )
    }

    /// Builds the level with the given dice: starts from a map of walls,
    /// walks the maze grid in full, carving as it goes, makes the tile
    /// `(1, 1)` the starting tile, culls what it does not reach, places the
    /// down stairs and draws the noise seed. Returns the number of walls
    /// torn down, which is one less than the number of cells.
    pub fn build(&mut self, dice: &mut Dice) -> (connections: u64)
        requires
            old(self).wf(),
        ensures
            final(self).wf(),
            final(self).level_ready(),
            final(self).built_from(final(dice).drawn().skip(old(dice).drawn().len() as int)),
            final(self).start() == (1int, 1int),
            start_is_open(final(self).map_view(), final(self).start()),
            final(self).map_view().at(1, 1) == TileType::Floor,
            connections == 779,
            final(self).spec_depth() == old(self).spec_depth(),
            old(dice).drawn().len() <= final(dice).drawn().len(),
            final(dice).drawn().take(old(dice).drawn().len() as int) == old(dice).drawn(),
            old(self).history_view().len() <= final(self).history_view().len(),
            final(self).history_view().take(old(self).history_view().len() as int) == old(
                self,
            ).history_view(),
    {
        let ghost h0 = self.state.history@;
        let ghost d0 = dice.drawn();
        self.state.map = TileMap::new(self.state.depth);
        let (grid, connections) = MazeGrid::new_from_map(&mut self.state, dice);
        self.state.starting_position = Position { x: 1, y: 1 };
        let start_idx = self.state.map.xy_idx(1, 1);
        let ghost pre = self.state.map@;
        let ghost h1 = self.state.history@;
        let ghost d1 = dice.drawn();
        self.state.place_exit(start_idx, true);
        self.state.draw_noise_seed(dice);
        proof {
            lemma_idx_in_range(pre.width, pre.height, 1, 1);
            assert(point_of(pre, start_idx as int) == (1int, 1int));
            assert(dice.drawn().take(d0.len() as int) =~= d1.take(d0.len() as int));
            let e = choose|e: int| #[trigger] finishes(pre, (1int, 1int), e, self.state.map@);
            assert(finishes(pre, self.state.start(), e, self.state.map@));
            lemma_finished_level_start(pre, (1int, 1int), e, self.state.map@);
            lemma_idx_in_range(pre.width, pre.height, 2, 1);
            lemma_idx_in_range(pre.width, pre.height, 1, 2);
            if pre.at(2, 1) == TileType::Floor {
                lemma_finished_level_start_floor(pre, (1int, 1int), e, self.state.map@, (2int, 1int));
            } else {
                lemma_finished_level_start_floor(pre, (1int, 1int), e, self.state.map@, (1int, 2int));
            }
            let rolls = dice.drawn().skip(d0.len() as int);
            let walk_rolls = d1.skip(d0.len() as int);
            assert(rolls.drop_last() =~= walk_rolls);
            assert(extends(walk_rolls, walk_rolls)) by {
                assert(walk_rolls.take(walk_rolls.len() as int) =~= walk_rolls);
            }
            let walked = maze_walked(39, 20, fresh_map(self.state.depth as int), walk_rolls);
            assert(walked.0.tiles == pre.tiles);
            assert(pre == fresh_map(self.state.depth as int).with_tiles(pre.tiles));
            assert(self.state.history@.take(h0.len() as int) =~= h1.take(h0.len() as int));
            assert(views_of(self.state.history@).take(views_of(h0).len() as int) =~= views_of(h0));
        }
        connections
    }
}

impl MapBuilder for MazeBuilder {
    closed spec fn wf(&self) -> bool {
        self.state.wf()
    }

    closed spec fn map_view(&self) -> TileMapView {
        self.state.map@
    }

    closed spec fn start(&self) -> (int, int) {
        self.state.start()
    }

    closed spec fn history_view(&self) -> Seq<TileMapView> {
        views_of(self.state.history@)
    }

    open spec fn level_ready(&self) -> bool {
        is_finished_level(self.map_view(), self.start())
    }

    open spec fn made_from(&self, rolls: Seq<int>) -> bool {
        self.built_from(rolls)
    }

    fn build_map(&mut self) {
        let mut dice = Dice::new();
        self.build(&mut dice);
        proof {
            assert(self.made_from(dice.drawn().skip(0)));
        }
    }

    fn get_map(&mut self) -> (map: TileMap) {
        self.state.map.clone()
    }

    fn get_starting_position(&mut self) -> (position: Position) {
        self.state.starting_position
    }

    fn get_snapshot_history(&self) -> (history: Vec<TileMap>) {
        self.state.get_snapshot_history()
    }

    fn take_snapshot(&mut self) {
        self.state.take_snapshot();
    }
}

impl MazeBuilder {
    /// The seed of the noise by which spawn regions are told apart.
    pub closed spec fn spec_noise_seed(&self) -> int {
        self.state.noise_seed as int
    }

    /// The spawn regions: for each noise cell that holds a spawn tile, the
    /// indices of its spawn tiles.
    pub closed spec fn spec_noise_areas(&self) -> Map<i32, Vec<usize>> {
        self.state.noise_areas@
    }

    /// The seed of the noise by which spawn regions are told apart.
    pub fn noise_seed(&self) -> (seed: u64)
        ensures
            seed == self.spec_noise_seed(),
    {
        self.state.noise_seed
    }

    /// The spawn regions as last assigned.
    pub fn noise_areas(&self) -> (areas: &std::collections::HashMap<i32, Vec<usize>>)
        ensures
            areas@ == self.spec_noise_areas(),
    {
        &self.state.noise_areas
    }

    /// Groups the spawn tiles of the map, its floor tiles, by
    /// the noise cell that each lies in: `cell_values` holds, for every
    /// tile, the number of its cell. Each cell that holds a spawn tile is
    /// mapped to the indices of its spawn tiles in ascending order.
    pub fn assign_spawn_regions(&mut self, cell_values: &Vec<i32>)
        requires
            old(self).wf(),
            cell_values.len() == crate::map::MAP_COUNT,
        ensures
            final(self).wf(),
            final(self).map_view() == old(self).map_view(),
            final(self).start() == old(self).start(),
            final(self).history_view() == old(self).history_view(),
            final(self).level_ready() == old(self).level_ready(),
            final(self).spec_noise_seed() == old(self).spec_noise_seed(),
            forall|key: i32| #[trigger]
                final(self).spec_noise_areas().contains_key(key) <==> crate::map_builders::common::region_tiles(
                    old(self).map_view(),
                    cell_values@,
                    key,
                    crate::map::MAP_COUNT as int,
                ).len() > 0,
            forall|key: i32| #[trigger]
                final(self).spec_noise_areas().contains_key(key) ==> final(self).spec_noise_areas()[key]@
                    == crate::map_builders::common::region_tiles(
                    old(self).map_view(),
                    cell_values@,
                    key,
                    crate::map::MAP_COUNT as int,
                ),
    {
        proof {
            assert(self.state.map@.width * self.state.map@.height == 3440) by (nonlinear_arith)
                requires
                    self.state.map@.width == 80,
                    self.state.map@.height == 43,
            ;
        }
        self.state.assign_spawn_regions(cell_values);
    }
}

/// Two maze builders of one depth that were built from the same rolls hold
/// the same map.
pub proof fn lemma_maze_deterministic(a: MazeBuilder, b: MazeBuilder, rolls: Seq<int>)
    requires
        a.built_from(rolls),
        b.built_from(rolls),
        a.spec_depth() == b.spec_depth(),
    ensures
        a.map_view() == b.map_view(),
        a.start() == b.start(),
        a.spec_noise_seed() == b.spec_noise_seed(),
{
    let depth = a.state.depth as int;
    let walked = maze_walked(39, 20, fresh_map(depth), rolls.drop_last());
    let pre = fresh_map(depth).with_tiles(walked.0.tiles);
    let ea = choose|e: int| #[trigger] finishes(pre, (1int, 1int), e, a.state.map@);
    let eb = choose|e: int| #[trigger] finishes(pre, (1int, 1int), e, b.state.map@);
    lemma_finishes_unique(pre, (1int, 1int), ea, a.state.map@, eb, b.state.map@);
}

} // verus!
